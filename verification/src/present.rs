//! Rendering candidates and occurrences for the interactive selector: match
//! highlighting, snippet truncation, the rich per-occurrence rows, and the
//! flat tab-delimited line protocols.

use vstd::prelude::*;
use vstd::string::*;
use crate::content::Occurrence;
use crate::patterns::{regex_match_spans, Query};
use crate::search::Candidate;
use crate::text::{
    all_digits, append_chars, chars_to_string, dec_digits, dec_value, find_char, find_char_spec,
    lemma_find_char, pad_left, pad_left_spec, parse_usize_chars, str_to_chars, sub_chars,
    trim_chars, trim_spec, usize_to_chars,
};

verus! {

/// One display row handed to the external selector.
#[derive(Debug, Clone)]
pub struct SearchEntry {
    /// The human-readable row text.
    pub display: String,
    /// The relative path the row refers to.
    pub path: String,
    /// The occurrence's line number; `None` on a header row.
    pub line: Option<usize>,
}

/// The value of an entry, for specifications.
pub open spec fn entry_view(e: SearchEntry) -> (Seq<char>, Seq<char>, Option<int>) {
    (
        e.display@,
        e.path@,
        match e.line {
            Some(n) => Some(n as int),
            None => None,
        },
    )
}

pub open spec fn entries_views(s: Seq<SearchEntry>) -> Seq<(Seq<char>, Seq<char>, Option<int>)> {
    s.map_values(|e: SearchEntry| entry_view(e))
}

/// The first `max` characters, with an ellipsis mark appended when anything
/// was cut.
pub open spec fn truncate_spec(s: Seq<char>, max: int) -> Seq<char> {
    if s.len() <= max {
        s
    } else {
        s.take(max).push('…')
    }
}

/// Truncates a snippet to at most `max_chars` characters, counted in Unicode
/// scalar values, marking the cut with an ellipsis.
pub fn truncate_snippet(snippet: &str, max_chars: usize) -> (r: String)
    ensures
        r@ == truncate_spec(snippet@, max_chars as int),
{
    let v = str_to_chars(snippet);
    if v.len() <= max_chars {
        chars_to_string(&v)
    } else {
        let mut t = sub_chars(&v, 0, max_chars);
        t.push('…');
        assert(t@ =~= snippet@.take(max_chars as int).push('…'));
        chars_to_string(&t)
    }
}

/// The emphasis escape that opens a highlighted span.
pub open spec fn hl_open() -> Seq<char> {
    "\u{1b}[1;36m"@
}

/// The escape that restores unhighlighted text.
pub open spec fn hl_close() -> Seq<char> {
    "\u{1b}[0m"@
}

/// The text from `from` on, with every given span wrapped in the emphasis
/// escapes and the text between spans passed through unchanged.
pub open spec fn hl_parts(text: Seq<char>, spans: Seq<(int, int)>, from: int) -> Seq<char>
    decreases spans.len(),
{
    if spans.len() == 0 {
        text.subrange(from, text.len() as int)
    } else {
        text.subrange(from, spans[0].0) + hl_open() + text.subrange(spans[0].0, spans[0].1)
            + hl_close() + hl_parts(text, spans.drop_first(), spans[0].1)
    }
}

/// The display form of a text under an optional query: every match span
/// wrapped in emphasis escapes; without a query the text is unchanged.
pub open spec fn highlight_view(pattern: Option<Seq<char>>, text: Seq<char>) -> Seq<char> {
    match pattern {
        None => text,
        Some(p) => hl_parts(text, regex_match_spans(p, text), 0),
    }
}

/// Wraps every match of the query in terminal emphasis escapes;
/// non-matching stretches pass through unchanged.
pub fn highlight_query_matches(text: &str, re: Option<&Query>) -> (r: String)
    ensures
        re matches Some(q) ==> r@ == highlight_view(Some(q.pattern()), text@),
        re is None ==> r@ == text@,
{
    match re {
        None => {
            let v = str_to_chars(text);
            chars_to_string(&v)
        },
        Some(q) => {
            let spans = q.find_spans(text);
            let ghost spans_s = regex_match_spans(q.pattern(), text@);
            let chars = str_to_chars(text);
            let open = str_to_chars("\u{1b}[1;36m");
            let close = str_to_chars("\u{1b}[0m");
            assert(open@ == hl_open());
            assert(close@ == hl_close());
            let mut out: Vec<char> = Vec::new();
            let mut last: usize = 0;
            let mut k: usize = 0;
            proof {
                assert(spans@.skip(0) =~= spans@);
                assert(spans_s.skip(0) =~= spans_s);
                assert(out@ + hl_parts(text@, spans_s, 0) =~= hl_parts(text@, spans_s, 0));
                assert(forall|i: int|
                    0 <= i < spans@.len() ==> #[trigger] spans_s[i] == (
                    spans@[i].0 as int,
                    spans@[i].1 as int,
                ));
            }
            while k < spans.len()
                invariant
                    k <= spans@.len(),
                    chars@ == text@,
                    open@ == hl_open(),
                    close@ == hl_close(),
                    spans_s == regex_match_spans(q.pattern(), text@),
                    spans_s.len() == spans@.len(),
                    forall|i: int|
                        0 <= i < spans@.len() ==> #[trigger] spans_s[i] == (
                        spans@[i].0 as int,
                        spans@[i].1 as int,
                    ),
                    forall|i: int|
                        0 <= i < spans@.len() ==> #[trigger] spans@[i].0 <= spans@[i].1
                            && spans@[i].1 <= text@.len(),
                    forall|i: int, j: int|
                        0 <= i < j < spans@.len() ==> #[trigger] spans@[i].1 <= #[trigger] spans@[j].0,
                    k < spans@.len() ==> last <= spans@[k as int].0,
                    k >= spans@.len() ==> last <= text@.len(),
                    hl_parts(text@, spans_s, 0) == out@ + hl_parts(
                        text@,
                        spans_s.skip(k as int),
                        last as int,
                    ),
                decreases spans@.len() - k,
            {
                let (s0, s1) = spans[k];
                proof {
                    assert(spans_s.skip(k as int)[0] == spans_s[k as int]);
                    assert(spans_s.skip(k as int).drop_first() =~= spans_s.skip(k + 1));
                }
                let piece = sub_chars(&chars, last, s0);
                append_chars(&mut out, &piece);
                append_chars(&mut out, &open);
                let matched = sub_chars(&chars, s0, s1);
                append_chars(&mut out, &matched);
                append_chars(&mut out, &close);
                last = s1;
                k = k + 1;
                proof {
                    if k < spans@.len() {
                        assert(spans@[k - 1].1 <= spans@[k as int].0);
                    }
                }
            }
            proof {
                assert(spans_s.skip(spans@.len() as int) =~= Seq::<(int, int)>::empty());
            }
            let tail = sub_chars(&chars, last, chars.len());
            append_chars(&mut out, &tail);
            assert(out@ =~= hl_parts(text@, spans_s, 0));
            chars_to_string(&out)
        },
    }
}

/// The compact tag of a candidate: `BOTH` when both flags are set, `TEXT`
/// when only the contents matched, `PATH` otherwise.
pub open spec fn tag_of(c: Candidate) -> Seq<char> {
    if c.path_match && c.content_match {
        "BOTH"@
    } else if c.content_match {
        "TEXT"@
    } else {
        "PATH"@
    }
}

/// The compact line protocol: one `TAG<TAB>path` line per candidate.
pub open spec fn render_candidates(cs: Seq<Candidate>) -> Seq<char>
    decreases cs.len(),
{
    if cs.len() == 0 {
        Seq::empty()
    } else {
        render_candidates(cs.drop_last()) + tag_of(cs.last()) + seq!['\t'] + cs.last().path@ + seq![
            '\n',
        ]
    }
}

/// Renders candidates in the compact machine-parseable form.
pub fn format_candidates(candidates: &Vec<Candidate>) -> (r: String)
    ensures
        r@ == render_candidates(candidates@),
{
    let both = str_to_chars("BOTH");
    let text_t = str_to_chars("TEXT");
    let path_t = str_to_chars("PATH");
    let mut out: Vec<char> = Vec::new();
    let mut i: usize = 0;
    while i < candidates.len()
        invariant
            i <= candidates@.len(),
            both@ == "BOTH"@,
            text_t@ == "TEXT"@,
            path_t@ == "PATH"@,
            out@ == render_candidates(candidates@.take(i as int)),
        decreases candidates@.len() - i,
    {
        let c = &candidates[i];
        if c.path_match && c.content_match {
            append_chars(&mut out, &both);
        } else if c.content_match {
            append_chars(&mut out, &text_t);
        } else {
            append_chars(&mut out, &path_t);
        }
        out.push('\t');
        let path = str_to_chars(c.path.as_str());
        append_chars(&mut out, &path);
        out.push('\n');
        i = i + 1;
        proof {
            assert(candidates@.take(i as int).drop_last() =~= candidates@.take(i - 1));
            assert(candidates@.take(i as int).last() == candidates@[i - 1]);
            assert(out@ =~= render_candidates(candidates@.take(i as int)));
        }
    }
    assert(candidates@.take(candidates@.len() as int) =~= candidates@);
    chars_to_string(&out)
}

/// Tabs in display text are widened to four spaces so that the tab remains
/// the protocol's field separator.
pub open spec fn expand_tabs(s: Seq<char>) -> Seq<char>
    decreases s.len(),
{
    if s.len() == 0 {
        Seq::empty()
    } else {
        expand_tabs(s.drop_last()) + (if s.last() == '\t' {
            "    "@
        } else {
            seq![s.last()]
        })
    }
}

/// The line-number field of a row: the decimal number, or empty on a header
/// row.
pub open spec fn line_field(l: Option<usize>) -> Seq<char> {
    match l {
        Some(n) => dec_digits(n as nat),
        None => Seq::empty(),
    }
}

/// The rich line protocol: `display<TAB>path<TAB>line-or-empty` per row.
pub open spec fn render_entries(es: Seq<SearchEntry>) -> Seq<char>
    decreases es.len(),
{
    if es.len() == 0 {
        Seq::empty()
    } else {
        render_entries(es.drop_last()) + expand_tabs(es.last().display@) + seq!['\t']
            + es.last().path@ + seq!['\t'] + line_field(es.last().line) + seq!['\n']
    }
}

/// Renders rows for the external selector, appending the machine-readable
/// path and line fields after the display text.
pub fn format_search_entries(entries: &Vec<SearchEntry>) -> (r: String)
    ensures
        r@ == render_entries(entries@),
{
    let four = str_to_chars("    ");
    let mut out: Vec<char> = Vec::new();
    let mut i: usize = 0;
    while i < entries.len()
        invariant
            i <= entries@.len(),
            four@ == "    "@,
            out@ == render_entries(entries@.take(i as int)),
        decreases entries@.len() - i,
    {
        let e = &entries[i];
        let disp = str_to_chars(e.display.as_str());
        let mut k: usize = 0;
        let ghost out_before = out@;
        while k < disp.len()
            invariant
                k <= disp@.len(),
                four@ == "    "@,
                disp@ == e.display@,
                out@ == out_before + expand_tabs(disp@.take(k as int)),
            decreases disp@.len() - k,
        {
            let c = disp[k];
            if c == '\t' {
                append_chars(&mut out, &four);
            } else {
                out.push(c);
            }
            k = k + 1;
            proof {
                assert(disp@.take(k as int).drop_last() =~= disp@.take(k - 1));
                assert(disp@.take(k as int).last() == disp@[k - 1]);
                assert(out@ =~= out_before + expand_tabs(disp@.take(k as int)));
            }
        }
        assert(disp@.take(disp@.len() as int) =~= disp@);
        out.push('\t');
        let path = str_to_chars(e.path.as_str());
        append_chars(&mut out, &path);
        out.push('\t');
        match e.line {
            Some(n) => {
                let digits = usize_to_chars(n);
                append_chars(&mut out, &digits);
            },
            None => {},
        }
        out.push('\n');
        i = i + 1;
        proof {
            assert(entries@.take(i as int).drop_last() =~= entries@.take(i - 1));
            assert(entries@.take(i as int).last() == entries@[i - 1]);
            assert(out@ =~= render_entries(entries@.take(i as int)));
        }
    }
    assert(entries@.take(entries@.len() as int) =~= entries@);
    chars_to_string(&out)
}

/// The fields of a selector row: the path after the first tab, and the
/// trimmed line number after the second, if it parses.
pub open spec fn selected_path_spec(l: Seq<char>) -> Seq<char> {
    let t1 = find_char_spec(l, '\t', 0);
    if t1 >= l.len() {
        Seq::empty()
    } else {
        let t2 = find_char_spec(l, '\t', t1 + 1);
        if t2 >= l.len() {
            l.subrange(t1 + 1, l.len() as int)
        } else {
            l.subrange(t1 + 1, t2)
        }
    }
}

pub open spec fn selected_line_spec(l: Seq<char>) -> Option<int> {
    let t1 = find_char_spec(l, '\t', 0);
    if t1 >= l.len() {
        None
    } else {
        let t2 = find_char_spec(l, '\t', t1 + 1);
        if t2 >= l.len() {
            None
        } else {
            let raw = trim_spec(l.subrange(t2 + 1, l.len() as int));
            if raw.len() > 0 && all_digits(raw) && dec_value(raw) <= usize::MAX {
                Some(dec_value(raw) as int)
            } else {
                None
            }
        }
    }
}

/// Splits a selector row back into its path and optional line number.
pub fn parse_selected_line(selected_line: &str) -> (r: (String, Option<usize>))
    ensures
        r.0@ == selected_path_spec(selected_line@),
        r.1 matches Some(n) ==> selected_line_spec(selected_line@) == Some(n as int),
        r.1 is None ==> selected_line_spec(selected_line@) is None,
{
    let l = str_to_chars(selected_line);
    let t1 = find_char(&l, '\t', 0);
    proof {
        lemma_find_char(l@, '\t', 0);
    }
    if t1 >= l.len() {
        let empty: Vec<char> = Vec::new();
        assert(empty@ =~= Seq::<char>::empty());
        return (chars_to_string(&empty), None);
    }
    let t2 = find_char(&l, '\t', t1 + 1);
    proof {
        lemma_find_char(l@, '\t', t1 + 1);
    }
    if t2 >= l.len() {
        let path = sub_chars(&l, t1 + 1, l.len());
        return (chars_to_string(&path), None);
    }
    let path = sub_chars(&l, t1 + 1, t2);
    let raw = trim_chars(&sub_chars(&l, t2 + 1, l.len()));
    let line = parse_usize_chars(&raw);
    (chars_to_string(&path), line)
}

} // verus!

// ---------------------------------------------------------------------------
// The rich interactive rows: one header per matching candidate, one row per
// occurrence.
// ---------------------------------------------------------------------------

verus! {

/// The occurrence list recorded for a path, searching the keys from `from`;
/// empty when the path has no group.
pub open spec fn lookup_occs(
    keys: Seq<Seq<char>>,
    groups: Seq<Seq<Occurrence>>,
    path: Seq<char>,
    from: int,
) -> Seq<Occurrence>
    decreases keys.len() - from,
{
    if from < 0 || from >= keys.len() || from >= groups.len() {
        Seq::empty()
    } else if keys[from] == path {
        groups[from]
    } else {
        lookup_occs(keys, groups, path, from + 1)
    }
}

/// The header icon of a candidate.
pub open spec fn icon_of(c: Candidate) -> Seq<char> {
    if c.is_dir {
        "📁"@
    } else {
        "📄"@
    }
}

/// The line-number column width for a file: the widest decimal line number
/// of its occurrences, at least four.
pub open spec fn line_width_of(occs: Seq<Occurrence>) -> int
    decreases occs.len(),
{
    if occs.len() == 0 {
        4
    } else {
        let rest = line_width_of(occs.drop_last());
        let w = dec_digits(occs.last().line as nat).len() as int;
        if w > rest {
            w
        } else {
            rest
        }
    }
}

/// The right-aligned match count, shown only on the first occurrence row.
pub open spec fn count_prefix(idx: int, count: int) -> Seq<char> {
    if idx == 0 {
        "\u{1b}[33m"@ + pad_left_spec(dec_digits(count as nat), 2) + "\u{1b}[0m"@
    } else {
        "  "@
    }
}

/// One occurrence row of a candidate.
pub open spec fn occ_row_view(
    c: Candidate,
    occs: Seq<Occurrence>,
    width: int,
    pattern: Option<Seq<char>>,
    i: int,
) -> (Seq<char>, Seq<char>, Option<int>) {
    (
        count_prefix(i, occs.len() as int) + "   ↳ "@ + pad_left_spec(
            dec_digits(occs[i].line as nat),
            width,
        ) + "  "@ + truncate_spec(highlight_view(pattern, occs[i].snippet@), 140),
        c.path@,
        Some(occs[i].line as int),
    )
}

/// The first `upto` occurrence rows of a candidate.
pub open spec fn occ_rows_views(
    c: Candidate,
    occs: Seq<Occurrence>,
    width: int,
    pattern: Option<Seq<char>>,
    upto: int,
) -> Seq<(Seq<char>, Seq<char>, Option<int>)>
    decreases upto,
{
    if upto <= 0 {
        Seq::empty()
    } else {
        occ_rows_views(c, occs, width, pattern, upto - 1).push(
            occ_row_view(c, occs, width, pattern, upto - 1),
        )
    }
}

/// All rows of one candidate: the icon-and-path header, then one row per
/// occurrence.
pub open spec fn rows_for_views(
    c: Candidate,
    occs: Seq<Occurrence>,
    pattern: Option<Seq<char>>,
) -> Seq<(Seq<char>, Seq<char>, Option<int>)> {
    seq![
        (icon_of(c) + seq![' '] + highlight_view(pattern, c.path@), c.path@, None::<int>),
    ] + occ_rows_views(c, occs, line_width_of(occs), pattern, occs.len() as int)
}

/// The rich rows of a candidate list: for every candidate with a path match
/// or at least one occurrence, its header and occurrence rows, in candidate
/// order.
pub open spec fn build_entries_views(
    cs: Seq<Candidate>,
    keys: Seq<Seq<char>>,
    groups: Seq<Seq<Occurrence>>,
    pattern: Option<Seq<char>>,
) -> Seq<(Seq<char>, Seq<char>, Option<int>)>
    decreases cs.len(),
{
    if cs.len() == 0 {
        Seq::empty()
    } else {
        let c = cs.last();
        let occs = lookup_occs(keys, groups, c.path@, 0);
        build_entries_views(cs.drop_last(), keys, groups, pattern) + (if c.path_match || occs.len()
            > 0 {
            rows_for_views(c, occs, pattern)
        } else {
            Seq::empty()
        })
    }
}

fn lookup_index(keys: &Vec<String>, path: &str) -> (r: Option<usize>)
    ensures
        r matches Some(g) ==> 0 <= g < keys@.len() && keys@[g as int]@ == path@ && (forall|j: int|
            0 <= j < g ==> (#[trigger] keys@[j])@ != path@),
        r is None ==> forall|j: int| 0 <= j < keys@.len() ==> (#[trigger] keys@[j])@ != path@,
{
    let target = str_to_chars(path);
    let mut k: usize = 0;
    while k < keys.len()
        invariant
            k <= keys@.len(),
            target@ == path@,
            forall|j: int| 0 <= j < k ==> (#[trigger] keys@[j])@ != path@,
        decreases keys@.len() - k,
    {
        if crate::text::chars_eq_str(&target, keys[k].as_str()) {
            return Some(k);
        }
        k = k + 1;
    }
    None
}

proof fn lemma_lookup_at(keys: Seq<Seq<char>>, groups: Seq<Seq<Occurrence>>, path: Seq<char>, g: int)
    requires
        keys.len() == groups.len(),
        0 <= g < keys.len(),
        keys[g] == path,
        forall|j: int| 0 <= j < g ==> keys[j] != path,
    ensures
        lookup_occs(keys, groups, path, 0) == groups[g],
    decreases g,
{
    lemma_lookup_from(keys, groups, path, 0, g);
}

proof fn lemma_lookup_from(
    keys: Seq<Seq<char>>,
    groups: Seq<Seq<Occurrence>>,
    path: Seq<char>,
    from: int,
    g: int,
)
    requires
        keys.len() == groups.len(),
        0 <= from <= g < keys.len(),
        keys[g] == path,
        forall|j: int| from <= j < g ==> keys[j] != path,
    ensures
        lookup_occs(keys, groups, path, from) == groups[g],
    decreases g - from,
{
    if from < g {
        lemma_lookup_from(keys, groups, path, from + 1, g);
    }
}

proof fn lemma_lookup_none(
    keys: Seq<Seq<char>>,
    groups: Seq<Seq<Occurrence>>,
    path: Seq<char>,
    from: int,
)
    requires
        forall|j: int| 0 <= j < keys.len() ==> keys[j] != path,
        from >= 0,
    ensures
        lookup_occs(keys, groups, path, from) == Seq::<Occurrence>::empty(),
    decreases keys.len() - from,
{
    if from < keys.len() && from < groups.len() {
        lemma_lookup_none(keys, groups, path, from + 1);
    }
}

/// Builds the rich selector rows for ordered candidates: every candidate
/// with a path match or at least one occurrence yields a header row and one
/// row per occurrence, with the match count on the first occurrence row and
/// line numbers right-aligned to the file's widest.
pub fn build_search_entries(
    candidates: &Vec<Candidate>,
    occ_keys: &Vec<String>,
    occ_groups: &Vec<Vec<Occurrence>>,
    re: Option<&Query>,
) -> (r: Vec<SearchEntry>)
    requires
        occ_keys@.len() == occ_groups@.len(),
    ensures
        re matches Some(q) ==> entries_views(r@) == build_entries_views(
            candidates@,
            occ_keys.deep_view(),
            occ_groups@.map_values(|g: Vec<Occurrence>| g@),
            Some(q.pattern()),
        ),
        re is None ==> entries_views(r@) == build_entries_views(
            candidates@,
            occ_keys.deep_view(),
            occ_groups@.map_values(|g: Vec<Occurrence>| g@),
            None,
        ),
{
    let ghost pattern: Option<Seq<char>> = match re {
        Some(q) => Some(q.pattern()),
        None => None,
    };
    let ghost keys_v = occ_keys.deep_view();
    let ghost groups_v = occ_groups@.map_values(|g: Vec<Occurrence>| g@);
    proof {
        assert(keys_v.len() == groups_v.len());
        assert(forall|i: int| 0 <= i < keys_v.len() ==> #[trigger] keys_v[i] == occ_keys@[i]@);
        assert(forall|i: int| 0 <= i < groups_v.len() ==> #[trigger] groups_v[i] == occ_groups@[i]@);
    }
    let arrow = str_to_chars("   ↳ ");
    let two_sp = str_to_chars("  ");
    let yellow = str_to_chars("\u{1b}[33m");
    let reset = str_to_chars("\u{1b}[0m");

    let mut out: Vec<SearchEntry> = Vec::new();
    let mut ci: usize = 0;
    proof {
        assert(candidates@.take(0) =~= Seq::<Candidate>::empty());
        assert(entries_views(out@) =~= Seq::<(Seq<char>, Seq<char>, Option<int>)>::empty());
    }
    while ci < candidates.len()
        invariant
            ci <= candidates@.len(),
            keys_v == occ_keys.deep_view(),
            groups_v == occ_groups@.map_values(|g: Vec<Occurrence>| g@),
            keys_v.len() == groups_v.len(),
            occ_keys@.len() == occ_groups@.len(),
            re matches Some(q) ==> pattern == Some(q.pattern()),
            re is None ==> pattern is None,
            arrow@ == "   ↳ "@,
            two_sp@ == "  "@,
            yellow@ == "\u{1b}[33m"@,
            reset@ == "\u{1b}[0m"@,
            entries_views(out@) == build_entries_views(
                candidates@.take(ci as int),
                keys_v,
                groups_v,
                pattern,
            ),
        decreases candidates@.len() - ci,
    {
        let ghost base = entries_views(out@);
        proof {
            assert(candidates@.take(ci + 1).drop_last() =~= candidates@.take(ci as int));
            assert(candidates@.take(ci + 1).last() == candidates@[ci as int]);
        }
        let c = &candidates[ci];
        let found = lookup_index(occ_keys, c.path.as_str());
        let ghost occs_v = lookup_occs(keys_v, groups_v, c.path@, 0);
        proof {
            match found {
                Some(g) => {
                    assert(keys_v[g as int] == c.path@);
                    assert(forall|j: int| 0 <= j < g ==> keys_v[j] != c.path@) by {
                        assert(forall|j: int| 0 <= j < g ==> (#[trigger] occ_keys@[j])@ != c.path@);
                    }
                    lemma_lookup_at(keys_v, groups_v, c.path@, g as int);
                    assert(occs_v == groups_v[g as int]);
                },
                None => {
                    assert(forall|j: int| 0 <= j < keys_v.len() ==> keys_v[j] != c.path@) by {
                        assert(forall|j: int|
                            0 <= j < keys_v.len() ==> (#[trigger] occ_keys@[j])@ != c.path@);
                    }
                    lemma_lookup_none(keys_v, groups_v, c.path@, 0);
                    assert(occs_v =~= Seq::<Occurrence>::empty());
                },
            }
        }
        let count: usize = match found {
            Some(g) => occ_groups[g].len(),
            None => 0,
        };
        assert(count == occs_v.len());
        if c.path_match || count > 0 {
            // the header row
            let icon = if c.is_dir {
                str_to_chars("📁")
            } else {
                str_to_chars("📄")
            };
            let path_display = highlight_query_matches(c.path.as_str(), re);
            let mut disp: Vec<char> = Vec::new();
            append_chars(&mut disp, &icon);
            disp.push(' ');
            let pd = str_to_chars(path_display.as_str());
            append_chars(&mut disp, &pd);
            assert(disp@ =~= icon_of(candidates@[ci as int]) + seq![' '] + highlight_view(
                pattern,
                candidates@[ci as int].path@,
            ));
            out.push(
                SearchEntry {
                    display: chars_to_string(&disp),
                    path: c.path.clone(),
                    line: None,
                },
            );
            proof {
                assert(entries_views(out@) =~= base + seq![
                    (
                        icon_of(candidates@[ci as int]) + seq![' '] + highlight_view(
                            pattern,
                            candidates@[ci as int].path@,
                        ),
                        candidates@[ci as int].path@,
                        None::<int>,
                    ),
                ]);
            }
            // the occurrence rows
            if count > 0 {
                let g = match found {
                    Some(g) => g,
                    None => 0,
                };
                assert(groups_v[g as int] == occs_v);
                // the width of the line-number column
                let ghost width_s = line_width_of(occs_v);
                let group = &occ_groups[g];
                let mut width: usize = 4;
                let mut wi: usize = 0;
                proof {
                    assert(occs_v.take(0) =~= Seq::<Occurrence>::empty());
                }
                while wi < group.len()
                    invariant
                        wi <= group@.len(),
                        group@ == occs_v,
                        width == line_width_of(occs_v.take(wi as int)),
                        width >= 4,
                    decreases group@.len() - wi,
                {
                    proof {
                        assert(occs_v.take(wi + 1).drop_last() =~= occs_v.take(wi as int));
                        assert(occs_v.take(wi + 1).last() == occs_v[wi as int]);
                    }
                    let digits = usize_to_chars(group[wi].line);
                    if digits.len() > width {
                        width = digits.len();
                    }
                    wi = wi + 1;
                }
                assert(occs_v.take(occs_v.len() as int) =~= occs_v);
                assert(width == width_s);

                let ghost hbase = entries_views(out@);
                proof {
                    assert(hbase + occ_rows_views(
                        candidates@[ci as int],
                        occs_v,
                        width as int,
                        pattern,
                        0,
                    ) =~= hbase);
                }
                let mut oi: usize = 0;
                while oi < group.len()
                    invariant
                        oi <= group@.len(),
                        group@ == occs_v,
                        0 <= ci < candidates@.len(),
                        *c == candidates@[ci as int],
                        keys_v == occ_keys.deep_view(),
                        re matches Some(q) ==> pattern == Some(q.pattern()),
                        re is None ==> pattern is None,
                        arrow@ == "   ↳ "@,
                        two_sp@ == "  "@,
                        yellow@ == "\u{1b}[33m"@,
                        reset@ == "\u{1b}[0m"@,
                        width == line_width_of(occs_v),
                        count == occs_v.len(),
                        entries_views(out@) == hbase + occ_rows_views(
                            candidates@[ci as int],
                            occs_v,
                            width as int,
                            pattern,
                            oi as int,
                        ),
                    decreases group@.len() - oi,
                {
                    let occ = &group[oi];
                    let snippet_hl = highlight_query_matches(occ.snippet.as_str(), re);
                    let truncated = truncate_snippet(snippet_hl.as_str(), 140);
                    let mut disp: Vec<char> = Vec::new();
                    if oi == 0 {
                        append_chars(&mut disp, &yellow);
                        let cd = pad_left(&usize_to_chars(count), 2);
                        append_chars(&mut disp, &cd);
                        append_chars(&mut disp, &reset);
                    } else {
                        append_chars(&mut disp, &two_sp);
                    }
                    append_chars(&mut disp, &arrow);
                    let ld = pad_left(&usize_to_chars(occ.line), width);
                    append_chars(&mut disp, &ld);
                    append_chars(&mut disp, &two_sp);
                    let tr = str_to_chars(truncated.as_str());
                    append_chars(&mut disp, &tr);
                    assert(disp@ =~= occ_row_view(
                        candidates@[ci as int],
                        occs_v,
                        width as int,
                        pattern,
                        oi as int,
                    ).0);
                    let entry = SearchEntry {
                        display: chars_to_string(&disp),
                        path: c.path.clone(),
                        line: Some(occ.line),
                    };
                    let ghost eg = entry;
                    let ghost out_prev = out@;
                    out.push(entry);
                    oi = oi + 1;
                    proof {
                        let row = occ_row_view(
                            candidates@[ci as int],
                            occs_v,
                            width as int,
                            pattern,
                            oi - 1,
                        );
                        assert(entry_view(eg).0 == row.0);
                        assert(entry_view(eg).1 == row.1);
                        assert(entry_view(eg).2 == row.2);
                        assert(entry_view(eg) == row);
                        assert(entries_views(out@) =~= entries_views(out_prev).push(
                            entry_view(eg),
                        ));
                        assert(entries_views(out@) =~= hbase + occ_rows_views(
                            candidates@[ci as int],
                            occs_v,
                            width as int,
                            pattern,
                            oi as int,
                        ));
                    }
                }
            } else {
                proof {
                    assert(occ_rows_views(
                        candidates@[ci as int],
                        occs_v,
                        line_width_of(occs_v),
                        pattern,
                        occs_v.len() as int,
                    ) =~= Seq::<(Seq<char>, Seq<char>, Option<int>)>::empty());
                }
            }
            proof {
                assert(entries_views(out@) =~= base + rows_for_views(
                    candidates@[ci as int],
                    occs_v,
                    pattern,
                ));
            }
        }
        ci = ci + 1;
        proof {
            assert(entries_views(out@) =~= build_entries_views(
                candidates@.take(ci as int),
                keys_v,
                groups_v,
                pattern,
            ));
        }
    }
    proof {
        assert(candidates@.take(candidates@.len() as int) =~= candidates@);
    }
    out
}

} // verus!
