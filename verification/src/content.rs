//! Normalizing the content-search collaborator's output: the file-list form
//! (one path per line) and the detailed form (`path:line:column:snippet`
//! per line), grouped into per-file occurrence lists ordered by line and
//! column.

use vstd::prelude::*;
use vstd::string::*;
use crate::settings::{split_lines, split_lines_exec};
use crate::text::{
    all_digits, chars_to_string, dec_value, find_char, find_char_spec, lemma_find_char,
    parse_usize_chars, str_to_chars, sub_chars, trim_chars, trim_spec,
};

verus! {

/// One line-level content match within a file.
#[derive(Debug, Clone)]
pub struct Occurrence {
    /// 1-based line number, as reported.
    pub line: usize,
    /// 1-based column number, as reported.
    pub column: usize,
    /// The reported source line, tab-normalized and trimmed.
    pub snippet: String,
}

/// The value of an occurrence, for specifications: line, column, snippet.
pub open spec fn occ_view(o: Occurrence) -> (int, int, Seq<char>) {
    (o.line as int, o.column as int, o.snippet@)
}

/// Every leading `./` marker removed.
pub open spec fn strip_dot_slash(s: Seq<char>) -> Seq<char>
    decreases s.len(),
{
    if s.len() >= 2 && s[0] == '.' && s[1] == '/' {
        strip_dot_slash(s.skip(2))
    } else {
        s
    }
}

fn strip_dot_slash_chars(v: Vec<char>) -> (r: Vec<char>)
    ensures
        r@ == strip_dot_slash(v@),
    decreases v@.len(),
{
    if v.len() >= 2 && v[0] == '.' && v[1] == '/' {
        let rest = sub_chars(&v, 2, v.len());
        assert(rest@ =~= v@.skip(2));
        strip_dot_slash_chars(rest)
    } else {
        v
    }
}

/// Tabs replaced by single spaces, then trimmed: the display form of a
/// reported source line.
pub open spec fn snippet_norm(s: Seq<char>) -> Seq<char> {
    trim_spec(s.map_values(|c: char| if c == '\t' { ' ' } else { c }))
}

fn normalize_snippet(v: &Vec<char>) -> (r: Vec<char>)
    ensures
        r@ == snippet_norm(v@),
{
    let mut replaced: Vec<char> = Vec::new();
    let mut i: usize = 0;
    while i < v.len()
        invariant
            i <= v@.len(),
            replaced@ == v@.take(i as int).map_values(|c: char| if c == '\t' { ' ' } else { c }),
        decreases v@.len() - i,
    {
        let c = v[i];
        if c == '\t' {
            replaced.push(' ');
        } else {
            replaced.push(c);
        }
        i = i + 1;
        assert(replaced@ =~= v@.take(i as int).map_values(
            |c: char| if c == '\t' { ' ' } else { c },
        ));
    }
    assert(v@.take(v@.len() as int) =~= v@);
    trim_chars(&replaced)
}

/// What one line of the detailed output denotes: the normalized path, the
/// line and column numbers, and the normalized snippet.  Lines with fewer
/// than three field separators, or whose line or column is not a number
/// representable on the machine, denote nothing and are skipped.
pub open spec fn parse_occ_line(l: Seq<char>) -> Option<(Seq<char>, int, int, Seq<char>)> {
    let c1 = find_char_spec(l, ':', 0);
    if c1 >= l.len() {
        None
    } else {
        let c2 = find_char_spec(l, ':', c1 + 1);
        if c2 >= l.len() {
            None
        } else {
            let c3 = find_char_spec(l, ':', c2 + 1);
            if c3 >= l.len() {
                None
            } else {
                let line_s = l.subrange(c1 + 1, c2);
                let col_s = l.subrange(c2 + 1, c3);
                let snippet = l.subrange(c3 + 1, l.len() as int);
                if line_s.len() > 0 && all_digits(line_s) && dec_value(line_s) <= usize::MAX
                    && col_s.len() > 0 && all_digits(col_s) && dec_value(col_s) <= usize::MAX {
                    Some(
                        (
                            strip_dot_slash(l.subrange(0, c1)),
                            dec_value(line_s) as int,
                            dec_value(col_s) as int,
                            snippet_norm(snippet),
                        ),
                    )
                } else {
                    None
                }
            }
        }
    }
}

fn parse_occ_line_exec(l: &Vec<char>) -> (r: Option<(Vec<char>, usize, usize, Vec<char>)>)
    ensures
        r matches Some(t) ==> parse_occ_line(l@) == Some(
            (t.0@, t.1 as int, t.2 as int, t.3@),
        ),
        r is None ==> parse_occ_line(l@) is None,
{
    let c1 = find_char(l, ':', 0);
    proof {
        lemma_find_char(l@, ':', 0);
    }
    if c1 >= l.len() {
        return None;
    }
    let c2 = find_char(l, ':', c1 + 1);
    proof {
        lemma_find_char(l@, ':', c1 + 1);
    }
    if c2 >= l.len() {
        return None;
    }
    let c3 = find_char(l, ':', c2 + 1);
    proof {
        lemma_find_char(l@, ':', c2 + 1);
    }
    if c3 >= l.len() {
        return None;
    }
    let line_s = sub_chars(l, c1 + 1, c2);
    let col_s = sub_chars(l, c2 + 1, c3);
    let snippet = sub_chars(l, c3 + 1, l.len());
    let line_num = match parse_usize_chars(&line_s) {
        Some(n) => n,
        None => {
            return None;
        },
    };
    let column = match parse_usize_chars(&col_s) {
        Some(n) => n,
        None => {
            return None;
        },
    };
    let path = strip_dot_slash_chars(sub_chars(l, 0, c1));
    let norm = normalize_snippet(&snippet);
    Some((path, line_num, column, norm))
}

/// The occurrences that the given output lines report for one path, in
/// report order.
pub open spec fn parsed_occs(lines: Seq<Seq<char>>, path: Seq<char>) -> Seq<(int, int, Seq<char>)>
    decreases lines.len(),
{
    if lines.len() == 0 {
        Seq::empty()
    } else {
        parsed_occs(lines.drop_last(), path) + (match parse_occ_line(lines.last()) {
            Some(t) => if t.0 == path {
                seq![(t.1, t.2, t.3)]
            } else {
                Seq::empty()
            },
            None => Seq::empty(),
        })
    }
}

/// The values of an occurrence list, for specifications.
pub open spec fn occs_views(s: Seq<Occurrence>) -> Seq<(int, int, Seq<char>)> {
    s.map_values(|o: Occurrence| occ_view(o))
}

/// Ascending order by line, then column.
pub open spec fn occ_le(a: Occurrence, b: Occurrence) -> bool {
    a.line < b.line || (a.line == b.line && a.column <= b.column)
}

pub open spec fn occs_sorted(s: Seq<Occurrence>) -> bool {
    forall|i: int, j: int| 0 <= i < j < s.len() ==> occ_le(#[trigger] s[i], #[trigger] s[j])
}

/// The contract of the collected occurrence map over the output's lines:
/// keys are distinct; each group holds exactly the occurrences reported for
/// its key, ordered by line and column; and every path with at least one
/// reported occurrence has a group.  The order of the groups themselves is
/// not specified; consumers look groups up by key.
pub open spec fn occ_map_ok(
    keys: Seq<Seq<char>>,
    groups: Seq<Seq<Occurrence>>,
    lines: Seq<Seq<char>>,
) -> bool {
    &&& keys.len() == groups.len()
    &&& forall|i: int, j: int| 0 <= i < j < keys.len() ==> keys[i] != keys[j]
    &&& forall|i: int| 0 <= i < groups.len() ==> occs_sorted(#[trigger] groups[i])
    &&& forall|i: int|
        0 <= i < groups.len() ==> occs_views(#[trigger] groups[i]).to_multiset() == parsed_occs(
            lines,
            keys[i],
        ).to_multiset()
    &&& forall|i: int| 0 <= i < keys.len() ==> parsed_occs(lines, #[trigger] keys[i]).len() > 0
    &&& forall|p: Seq<char>|
        parsed_occs(lines, p).len() > 0 ==> (exists|i: int| 0 <= i < keys.len() && keys[i] == p)
}

fn sort_occurrences(occs: &mut Vec<Occurrence>)
    ensures
        occs_sorted(final(occs)@),
        final(occs)@.to_multiset() == old(occs)@.to_multiset(),
        final(occs)@.len() == old(occs)@.len(),
{
    broadcast use vstd::seq_lib::group_to_multiset_ensures;
    broadcast use vstd::multiset::group_multiset_axioms;

    if occs.len() < 2 {
        return ;
    }
    let mut i: usize = 1;
    while i < occs.len()
        invariant
            1 <= i <= occs@.len(),
            occs_sorted(occs@.take(i as int)),
            occs@.to_multiset() == old(occs)@.to_multiset(),
            occs@.len() == old(occs)@.len(),
        decreases occs@.len() - i,
    {
        let ghost pre = occs@;
        proof {
            assert(forall|k: int| 0 <= k < i ==> pre.take(i as int)[k] == pre[k]);
        }
        let mut pos: usize = 0;
        while pos < i && (occs[pos].line < occs[i].line || (occs[pos].line == occs[i].line
            && occs[pos].column <= occs[i].column))
            invariant
                pos <= i < occs@.len(),
                occs@ == pre,
                forall|k: int| 0 <= k < pos ==> occ_le(#[trigger] occs@[k], occs@[i as int]),
            decreases i - pos,
        {
            pos = pos + 1;
        }
        let ghost xg = pre[i as int];
        proof {
            if pos < i {
                assert(!occ_le(pre[pos as int], xg));
            }
        }
        let x = occs.remove(i);
        occs.insert(pos, x);
        proof {
            let now = occs@;
            let removed = pre.remove(i as int);
            assert(now == removed.insert(pos as int, xg));
            assert(forall|k: int| 0 <= k < pos ==> now[k] == pre[k]);
            assert(now[pos as int] == xg);
            assert(forall|k: int| pos < k <= i ==> now[k] == pre[k - 1]);
            assert forall|a: int, b: int| 0 <= a < b < i + 1 implies occ_le(now[a], now[b]) by {
                if b < pos {
                    assert(occ_le(pre[a], pre[b]));
                } else if b == pos {
                    assert(occ_le(pre[a], xg));
                } else if a < pos {
                    assert(occ_le(pre[a], pre[b - 1]));
                } else if a == pos {
                    assert(occ_le(xg, pre[pos as int]));
                    if b - 1 > pos {
                        assert(occ_le(pre[pos as int], pre[b - 1]));
                    }
                } else {
                    assert(occ_le(pre[a - 1], pre[b - 1]));
                }
            }
            assert(forall|k: int| 0 <= k < i + 1 ==> now.take(i + 1)[k] == now[k]);
            assert(occs_sorted(now.take(i + 1)));
            assert(now.to_multiset() =~= pre.to_multiset()) by {
                vstd::seq_lib::to_multiset_remove::<Occurrence>(pre, i as int);
                vstd::seq_lib::to_multiset_insert::<Occurrence>(removed, pos as int, xg);
                assert(pre.to_multiset().count(xg) > 0) by {
                    pre.to_multiset_ensures();
                    assert(pre.contains(pre[i as int]));
                }
            }
        }
        i = i + 1;
    }
    proof {
        assert(occs@.take(occs@.len() as int) =~= occs@);
    }
}

fn find_key(keys: &Vec<String>, path: &Vec<char>) -> (r: Option<usize>)
    ensures
        r matches Some(j) ==> 0 <= j < keys@.len() && keys@[j as int]@ == path@,
        r is None ==> forall|k: int| 0 <= k < keys@.len() ==> (#[trigger] keys@[k])@ != path@,
{
    let mut k: usize = 0;
    while k < keys.len()
        invariant
            k <= keys@.len(),
            forall|j: int| 0 <= j < k ==> (#[trigger] keys@[j])@ != path@,
        decreases keys@.len() - k,
    {
        if crate::text::chars_eq_str(path, keys[k].as_str()) {
            return Some(k);
        }
        k = k + 1;
    }
    None
}

/// Parses the detailed content-search output into one occurrence list per
/// file, each ordered by line and column.  Malformed lines are skipped.
pub fn collect_occurrences(output: &str) -> (r: (Vec<String>, Vec<Vec<Occurrence>>))
    ensures
        occ_map_ok(
            r.0.deep_view(),
            r.1@.map_values(|g: Vec<Occurrence>| g@),
            split_lines(output@),
        ),
{
    let chars = str_to_chars(output);
    let lines = split_lines_exec(&chars);
    let ghost lines_v = lines.deep_view();

    let mut keys: Vec<String> = Vec::new();
    let mut groups: Vec<Vec<Occurrence>> = Vec::new();

    let mut li: usize = 0;
    proof {
        assert(lines_v.take(0) =~= Seq::<Seq<char>>::empty());
    }
    while li < lines.len()
        invariant
            li <= lines@.len(),
            lines_v == lines.deep_view(),
            keys@.len() == groups@.len(),
            forall|i: int, j: int|
                0 <= i < j < keys@.len() ==> (#[trigger] keys@[i])@ != (#[trigger] keys@[j])@,
            forall|i: int|
                0 <= i < groups@.len() ==> occs_views((#[trigger] groups@[i])@) == parsed_occs(
                    lines_v.take(li as int),
                    keys@[i]@,
                ),
            forall|i: int|
                0 <= i < keys@.len() ==> parsed_occs(
                    lines_v.take(li as int),
                    (#[trigger] keys@[i])@,
                ).len() > 0,
            forall|p: Seq<char>|
                parsed_occs(lines_v.take(li as int), p).len() > 0 ==> (exists|i: int|
                    0 <= i < keys@.len() && (#[trigger] keys@[i])@ == p),
        decreases lines@.len() - li,
    {
        let ghost t0 = lines_v.take(li as int);
        let ghost t1 = lines_v.take(li + 1);
        proof {
            assert(t1.drop_last() =~= t0);
            assert(t1.last() == lines_v[li as int]);
        }
        let line = &lines[li];
        assert(line@ == lines_v[li as int]);
        let ghost keys0 = keys@;
        let ghost groups0 = groups@;
        match parse_occ_line_exec(line) {
            Some(t) => {
                let (path, line_num, column, snippet) = t;
                let occ = Occurrence { line: line_num, column, snippet: chars_to_string(&snippet) };
                assert(occ_view(occ) == (line_num as int, column as int, snippet@));
                match find_key(&keys, &path) {
                    Some(g) => {
                        let mut group = groups.remove(g);
                        group.push(occ);
                        groups.insert(g, group);
                        proof {
                            assert(groups@.len() == groups0.len());
                            assert(forall|i: int|
                                0 <= i < groups@.len() && i != g ==> groups@[i] == groups0[i]);
                            assert(groups@[g as int]@ =~= groups0[g as int]@.push(occ));
                        }
                    },
                    None => {
                        keys.push(chars_to_string(&path));
                        let mut group: Vec<Occurrence> = Vec::new();
                        group.push(occ);
                        groups.push(group);
                        proof {
                            assert(keys@[keys0.len() as int]@ == path@);
                            assert(groups@[groups0.len() as int]@ =~= seq![occ]);
                        }
                    },
                }
            },
            None => {},
        }
        proof {
            assert forall|i: int| 0 <= i < groups@.len() implies occs_views(
                (#[trigger] groups@[i])@,
            ) == parsed_occs(t1, keys@[i]@) by {
                assert(parsed_occs(t1, keys@[i]@) == parsed_occs(t0, keys@[i]@) + (
                match parse_occ_line(lines_v[li as int]) {
                    Some(t) => if t.0 == keys@[i]@ {
                        seq![(t.1, t.2, t.3)]
                    } else {
                        Seq::<(int, int, Seq<char>)>::empty()
                    },
                    None => Seq::<(int, int, Seq<char>)>::empty(),
                }));
                match parse_occ_line(lines_v[li as int]) {
                    Some(t) => {
                        if t.0 == keys@[i]@ {
                            assert(occs_views(groups@[i]@) =~= parsed_occs(t0, keys@[i]@) + seq![
                                (t.1, t.2, t.3),
                            ]);
                        } else {
                            assert(occs_views(groups@[i]@) =~= parsed_occs(t0, keys@[i]@));
                        }
                    },
                    None => {
                        assert(occs_views(groups@[i]@) =~= parsed_occs(t0, keys@[i]@));
                    },
                }
            }
            assert forall|p: Seq<char>| parsed_occs(t1, p).len() > 0 implies (exists|i: int|
                0 <= i < keys@.len() && (#[trigger] keys@[i])@ == p) by {
                if parsed_occs(t0, p).len() > 0 {
                    let i = choose|i: int| 0 <= i < keys0.len() && (#[trigger] keys0[i])@ == p;
                    assert(keys@[i]@ == p);
                } else {
                    assert(parse_occ_line(lines_v[li as int]) matches Some(t) && t.0 == p);
                }
            }
        }
        li = li + 1;
    }
    proof {
        assert(lines_v.take(lines_v.len() as int) =~= lines_v);
    }

    let ghost unsorted = groups@;
    let mut gi: usize = 0;
    while gi < groups.len()
        invariant
            gi <= groups@.len(),
            groups@.len() == unsorted.len(),
            forall|i: int|
                gi <= i < groups@.len() ==> #[trigger] groups@[i] == unsorted[i],
            forall|i: int|
                0 <= i < gi ==> occs_sorted((#[trigger] groups@[i])@) && groups@[i]@.to_multiset()
                    == unsorted[i]@.to_multiset(),
        decreases groups@.len() - gi,
    {
        let mut group = groups.remove(gi);
        sort_occurrences(&mut group);
        groups.insert(gi, group);
        gi = gi + 1;
    }

    proof {
        broadcast use vstd::seq_lib::group_to_multiset_ensures;

        let lines_all = split_lines(output@);
        assert(lines_v == lines_all);
        let keys_v = keys.deep_view();
        let groups_v = groups@.map_values(|g: Vec<Occurrence>| g@);
        assert(keys_v.len() == keys@.len());
        assert(groups_v.len() == groups@.len());
        assert(forall|i: int| 0 <= i < keys_v.len() ==> #[trigger] keys_v[i] == keys@[i]@);
        assert(forall|i: int| 0 <= i < groups_v.len() ==> #[trigger] groups_v[i] == groups@[i]@);
        assert forall|i: int, j: int| 0 <= i < j < keys_v.len() implies keys_v[i] != keys_v[j] by {
            assert(keys@[i]@ != keys@[j]@);
        }
        assert forall|i: int| 0 <= i < groups_v.len() implies occs_sorted(
            #[trigger] groups_v[i],
        ) by {
            assert(occs_sorted(groups@[i]@));
        }
        assert forall|i: int| 0 <= i < keys_v.len() implies parsed_occs(
            lines_all,
            #[trigger] keys_v[i],
        ).len() > 0 by {
            assert(parsed_occs(lines_all, keys@[i]@).len() > 0);
        }
        assert forall|p: Seq<char>| parsed_occs(lines_all, p).len() > 0 implies (exists|i: int|
            0 <= i < keys_v.len() && #[trigger] keys_v[i] == p) by {
            let i = choose|i: int| 0 <= i < keys@.len() && (#[trigger] keys@[i])@ == p;
            assert(keys_v[i] == p);
        }
        assert forall|i: int| 0 <= i < groups_v.len() implies occs_views(
            #[trigger] groups_v[i],
        ).to_multiset() == parsed_occs(lines_all, keys_v[i]).to_multiset() by {
            assert(groups_v[i] == groups@[i]@);
            assert(groups@[i]@.to_multiset() == unsorted[i]@.to_multiset());
            lemma_map_multiset(groups@[i]@, unsorted[i]@);
            assert(occs_views(unsorted[i]@) == parsed_occs(lines_all, keys_v[i]));
        }
    }
    (keys, groups)
}

/// Permuted occurrence lists have permuted value lists.
proof fn lemma_map_multiset(a: Seq<Occurrence>, b: Seq<Occurrence>)
    requires
        a.to_multiset() == b.to_multiset(),
    ensures
        occs_views(a).to_multiset() == occs_views(b).to_multiset(),
    decreases a.len(),
{
    broadcast use vstd::seq_lib::group_to_multiset_ensures;
    broadcast use vstd::multiset::group_multiset_axioms;

    a.to_multiset_ensures();
    b.to_multiset_ensures();
    if a.len() == 0 {
        assert(b.len() == 0);
        assert(occs_views(a) =~= occs_views(b));
    } else {
        let x = a.last();
        let a0 = a.drop_last();
        assert(a =~= a0.push(x));
        assert(a.to_multiset() == a0.to_multiset().insert(x));
        assert(a.contains(x));
        assert(b.to_multiset().count(x) > 0);
        assert(b.contains(x));
        let j = choose|j: int| 0 <= j < b.len() && b[j] == x;
        let b0 = b.remove(j);
        vstd::seq_lib::to_multiset_remove::<Occurrence>(b, j);
        assert(a0.to_multiset() =~= b0.to_multiset()) by {
            assert(b0.to_multiset() == b.to_multiset().remove(x));
            assert(a0.to_multiset() == a.to_multiset().remove(x)) by {
                assert(a0.to_multiset().insert(x).remove(x) =~= a0.to_multiset());
            }
        }
        lemma_map_multiset(a0, b0);
        assert(occs_views(a) =~= occs_views(a0).push(occ_view(x)));
        assert(occs_views(a).to_multiset() == occs_views(a0).to_multiset().insert(occ_view(x)));
        assert(occs_views(b0) =~= occs_views(b).remove(j));
        vstd::seq_lib::to_multiset_remove::<(int, int, Seq<char>)>(occs_views(b), j);
        assert(occs_views(b)[j] == occ_view(x));
        assert(occs_views(b0).to_multiset() == occs_views(b).to_multiset().remove(occ_view(x)));
        assert(occs_views(b).to_multiset().count(occ_view(x)) > 0) by {
            occs_views(b).to_multiset_ensures();
            assert(occs_views(b).contains(occ_view(x)));
        }
        assert(occs_views(a).to_multiset() =~= occs_views(b).to_multiset());
    }
}

/// The paths denoted by the file-list output: every non-blank line, with
/// leading `./` markers removed.
pub open spec fn file_list_spec(lines: Seq<Seq<char>>) -> Seq<Seq<char>>
    decreases lines.len(),
{
    if lines.len() == 0 {
        Seq::empty()
    } else {
        file_list_spec(lines.drop_last()) + (if trim_spec(lines.last()).len() > 0 {
            seq![strip_dot_slash(lines.last())]
        } else {
            Seq::empty()
        })
    }
}

/// Parses the file-list output of the content search into normalized
/// relative paths; blank lines are skipped.
pub fn parse_file_list(output: &str) -> (r: Vec<String>)
    ensures
        r.deep_view() == file_list_spec(split_lines(output@)),
{
    let chars = str_to_chars(output);
    let lines = split_lines_exec(&chars);
    let ghost lines_v = lines.deep_view();
    let mut r: Vec<String> = Vec::new();
    let mut li: usize = 0;
    proof {
        assert(lines_v.take(0) =~= Seq::<Seq<char>>::empty());
    }
    while li < lines.len()
        invariant
            li <= lines@.len(),
            lines_v == lines.deep_view(),
            r.deep_view() == file_list_spec(lines_v.take(li as int)),
        decreases lines@.len() - li,
    {
        let ghost t1 = lines_v.take(li + 1);
        proof {
            assert(t1.drop_last() =~= lines_v.take(li as int));
            assert(t1.last() == lines_v[li as int]);
        }
        let line = &lines[li];
        assert(line@ == lines_v[li as int]);
        let trimmed = trim_chars(line);
        if trimmed.len() > 0 {
            let path = strip_dot_slash_chars(sub_chars(line, 0, line.len()));
            proof {
                assert(line@.subrange(0, line@.len() as int) =~= line@);
            }
            r.push(chars_to_string(&path));
        }
        assert(r.deep_view() =~~= file_list_spec(lines_v.take(li + 1)));
        li = li + 1;
    }
    proof {
        assert(lines_v.take(lines_v.len() as int) =~= lines_v);
    }
    r
}

/// The line number of the first probe line of a line-numbered report: the
/// digits before the first `:` of the first output line.
pub open spec fn first_line_number(output: Seq<char>) -> Option<int> {
    let lines = split_lines(output);
    if lines.len() == 0 {
        None
    } else {
        let l = lines[0];
        let c = find_char_spec(l, ':', 0);
        let num = l.subrange(0, c);
        if num.len() > 0 && all_digits(num) && dec_value(num) <= usize::MAX {
            Some(dec_value(num) as int)
        } else {
            None
        }
    }
}

/// Reads the line number off the first line of a `line:...` report.
pub fn parse_line_probe(output: &str) -> (r: Option<usize>)
    ensures
        r matches Some(n) ==> first_line_number(output@) == Some(n as int),
        r is None ==> first_line_number(output@) is None,
{
    let chars = str_to_chars(output);
    let lines = split_lines_exec(&chars);
    if lines.len() == 0 {
        return None;
    }
    let l = &lines[0];
    assert(l@ == split_lines(output@)[0]);
    let c = find_char(l, ':', 0);
    proof {
        lemma_find_char(l@, ':', 0);
    }
    let num = sub_chars(l, 0, c);
    parse_usize_chars(&num)
}

} // verus!
