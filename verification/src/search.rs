//! Candidate discovery: filtering walked filesystem entries and content-match
//! reports against the configured rules, merging both match sources into one
//! path-keyed set, and ordering the result deterministically.

use vstd::prelude::*;
use vstd::string::*;
use crate::patterns::{ignored_by, regex_accepts, regex_ok, Query};
use crate::settings::{settings_wf, Settings, SortMode};
use crate::text::{
    chars_eq_str, chars_to_string, find_char, find_char_spec, lemma_find_char, lemma_lex_antisym,
    lemma_lex_total, lemma_lex_trans, lex_le, str_lex_le, str_to_chars, sub_chars,
};

verus! {

/// One filesystem entry relevant to a query, identified by its path relative
/// to the search root.
#[derive(Debug, Clone)]
pub struct Candidate {
    pub path: String,
    pub is_dir: bool,
    /// The query matched the relative path or its final component.
    pub path_match: bool,
    /// The entry's contents contained at least one match.
    pub content_match: bool,
}

/// What the filesystem walk reports about one entry under the root.
#[derive(Debug, Clone)]
pub struct WalkedEntry {
    /// Path relative to the search root, `/`-separated.
    pub rel_path: String,
    pub is_dir: bool,
    pub is_symlink: bool,
    /// Device id of the entry, where the platform exposes one.
    pub dev: Option<u64>,
}

/// What the content-search collaborator reported about one file, after its
/// path was normalized, together with what a stat of that path showed.
#[derive(Debug, Clone)]
pub struct ContentHit {
    /// Path relative to the search root, `/`-separated.
    pub path: String,
    pub is_dir: bool,
    /// Device id of the entry, where the platform exposes one.
    pub dev: Option<u64>,
}

/// Why no candidate list could be built.
#[derive(Debug, Clone)]
pub enum SearchError {
    /// The query is not a valid regular expression.
    InvalidQuery { pattern: String },
}

/// Whether any `/`-separated component of the path, starting at `from`,
/// begins with a dot.
pub open spec fn hidden_from(s: Seq<char>, from: int) -> bool
    decreases s.len() - from,
    via hidden_from_decreases
{
    if from < 0 || from >= s.len() {
        false
    } else {
        let i = find_char_spec(s, '/', from);
        s[from] == '.' || (i < s.len() && hidden_from(s, i + 1))
    }
}

#[via_fn]
proof fn hidden_from_decreases(s: Seq<char>, from: int) {
    if 0 <= from < s.len() {
        lemma_find_char(s, '/', from);
    }
}

/// A path is hidden when any of its components starts with a dot.
pub open spec fn has_hidden_component(s: Seq<char>) -> bool {
    hidden_from(s, 0)
}

/// Whether a relative path has a hidden component.
pub fn is_hidden_path(rel: &str) -> (r: bool)
    ensures
        r == has_hidden_component(rel@),
{
    let v = str_to_chars(rel);
    let mut from: usize = 0;
    while from < v.len()
        invariant
            from <= v@.len(),
            has_hidden_component(rel@) == hidden_from(v@, from as int),
        decreases v@.len() - from,
    {
        if v[from] == '.' {
            return true;
        }
        let i = find_char(&v, '/', from);
        proof {
            lemma_find_char(v@, '/', from as int);
        }
        if i == v.len() {
            return false;
        }
        from = i + 1;
    }
    false
}

/// The final component of a `/`-separated path: everything after the last
/// separator, starting the search at `from`.
pub open spec fn file_name_from(s: Seq<char>, from: int) -> Seq<char>
    decreases s.len() - from,
    via file_name_from_decreases
{
    if from < 0 || from > s.len() {
        Seq::empty()
    } else {
        let i = find_char_spec(s, '/', from);
        if i >= s.len() {
            s.skip(from)
        } else {
            file_name_from(s, i + 1)
        }
    }
}

#[via_fn]
proof fn file_name_from_decreases(s: Seq<char>, from: int) {
    if 0 <= from <= s.len() {
        lemma_find_char(s, '/', from);
    }
}

/// The final component of a `/`-separated path.
pub open spec fn file_name_spec(s: Seq<char>) -> Seq<char> {
    file_name_from(s, 0)
}

fn file_name_chars(v: &Vec<char>) -> (r: Vec<char>)
    ensures
        r@ == file_name_spec(v@),
{
    let mut from: usize = 0;
    loop
        invariant
            from <= v@.len(),
            file_name_spec(v@) == file_name_from(v@, from as int),
        decreases v@.len() - from,
    {
        let i = find_char(v, '/', from);
        proof {
            lemma_find_char(v@, '/', from as int);
        }
        if i == v.len() {
            let r = sub_chars(v, from, v.len());
            assert(r@ =~= v@.skip(from as int));
            return r;
        }
        from = i + 1;
    }
}

/// Whether the query matches the relative path or its final component.
pub open spec fn query_matches_path(pattern: Seq<char>, rel: Seq<char>) -> bool {
    regex_accepts(pattern, rel) || regex_accepts(pattern, file_name_spec(rel))
}

/// Whether the compiled query matches the relative path or its final
/// component.
pub fn path_matches(q: &Query, rel: &str) -> (r: bool)
    ensures
        r == query_matches_path(q.pattern(), rel@),
{
    if q.is_match(rel) {
        return true;
    }
    let v = str_to_chars(rel);
    let name = chars_to_string(&file_name_chars(&v));
    q.is_match(name.as_str())
}

/// A directory entry lies on another filesystem than the root when both
/// device ids are known and differ.
pub open spec fn mount_excluded(root_dev: Option<u64>, dev: Option<u64>) -> bool {
    root_dev is Some && dev is Some && root_dev->0 != dev->0
}

/// The traversal-pruning rule: an entry survives unless it is an unwanted
/// symlink, a hidden path while hidden entries are excluded, a path matching
/// the ignore globs, or a directory on another filesystem while mounts are
/// excluded.
pub open spec fn walk_entry_kept(e: WalkedEntry, s: Settings, root_dev: Option<u64>) -> bool {
    &&& !(e.is_symlink && !s.include_symlinks)
    &&& !(!s.include_hidden && has_hidden_component(e.rel_path@))
    &&& !ignored_by(s.globs.deep_view(), e.rel_path@)
    &&& !(e.is_dir && !s.include_mounts && mount_excluded(root_dev, e.dev))
}

/// The re-validation rule for paths reported by the content-search
/// collaborator: hidden, ignore-glob and mount filters are applied
/// independently of the collaborator's own filtering.
pub open spec fn content_hit_kept(h: ContentHit, s: Settings, root_dev: Option<u64>) -> bool {
    &&& !(!s.include_hidden && has_hidden_component(h.path@))
    &&& !ignored_by(s.globs.deep_view(), h.path@)
    &&& !(!s.include_mounts && mount_excluded(root_dev, h.dev))
}

/// The traversal-pruning decision on one walked entry.
pub fn keep_walk_entry(e: &WalkedEntry, s: &Settings, root_dev: Option<u64>) -> (r: bool)
    requires
        settings_wf(s),
    ensures
        r == walk_entry_kept(*e, *s, root_dev),
{
    if e.is_symlink && !s.include_symlinks {
        return false;
    }
    if !s.include_hidden && is_hidden_path(e.rel_path.as_str()) {
        return false;
    }
    if s.ignore.is_match(e.rel_path.as_str()) {
        return false;
    }
    if e.is_dir && !s.include_mounts {
        match (root_dev, e.dev) {
            (Some(rd), Some(d)) => {
                if d != rd {
                    return false;
                }
            },
            _ => {},
        }
    }
    true
}

/// The re-validation decision on one content hit.
pub fn keep_content_hit(h: &ContentHit, s: &Settings, root_dev: Option<u64>) -> (r: bool)
    requires
        settings_wf(s),
    ensures
        r == content_hit_kept(*h, *s, root_dev),
{
    if !s.include_hidden && is_hidden_path(h.path.as_str()) {
        return false;
    }
    if s.ignore.is_match(h.path.as_str()) {
        return false;
    }
    if !s.include_mounts {
        match (root_dev, h.dev) {
            (Some(rd), Some(d)) => {
                if d != rd {
                    return false;
                }
            },
            _ => {},
        }
    }
    true
}

/// The number of nonempty `/`-separated segments at or after `from`.
pub open spec fn segments_from(s: Seq<char>, from: int) -> int
    decreases s.len() - from,
    via segments_from_decreases
{
    if from < 0 || from >= s.len() {
        0
    } else {
        let i = find_char_spec(s, '/', from);
        if i >= s.len() {
            1
        } else {
            (if i > from {
                1int
            } else {
                0int
            }) + segments_from(s, i + 1)
        }
    }
}

#[via_fn]
proof fn segments_from_decreases(s: Seq<char>, from: int) {
    if 0 <= from < s.len() {
        lemma_find_char(s, '/', from);
    }
}

/// The number of components of a relative path: its nonempty `/`-separated
/// segments.  Empty paths have no component; empty segments count for
/// nothing.
pub open spec fn depth_spec(s: Seq<char>) -> int {
    segments_from(s, 0)
}

/// The number of components of a relative path.
pub fn path_depth(path: &str) -> (r: usize)
    ensures
        r == depth_spec(path@),
{
    let v = str_to_chars(path);
    let mut count: usize = 0;
    let mut from: usize = 0;
    while from < v.len()
        invariant
            v@ == path@,
            from <= v@.len(),
            count <= from,
            count + segments_from(v@, from as int) == depth_spec(v@),
        decreases v@.len() - from,
    {
        let i = find_char(&v, '/', from);
        proof {
            lemma_find_char(v@, '/', from as int);
        }
        if i >= v.len() {
            // one final nonempty segment reaches the end of the path
            assert(segments_from(v@, from as int) == 1);
            return count + 1;
        }
        if i > from {
            count = count + 1;
        }
        from = i + 1;
    }
    assert(segments_from(v@, from as int) == 0);
    count
}

/// The configured total order on candidates: by component depth with the
/// path as tie-break in depth mode, by path alone in alphabetical mode.
pub open spec fn cand_le(mode: SortMode, a: Candidate, b: Candidate) -> bool {
    match mode {
        SortMode::Depth => depth_spec(a.path@) < depth_spec(b.path@) || (depth_spec(a.path@)
            == depth_spec(b.path@) && lex_le(a.path@, b.path@)),
        SortMode::Alphabetical => lex_le(a.path@, b.path@),
    }
}

pub proof fn lemma_cand_le_total(mode: SortMode, a: Candidate, b: Candidate)
    ensures
        cand_le(mode, a, b) || cand_le(mode, b, a),
{
    lemma_lex_total(a.path@, b.path@);
}

pub proof fn lemma_cand_le_trans(mode: SortMode, a: Candidate, b: Candidate, c: Candidate)
    requires
        cand_le(mode, a, b),
        cand_le(mode, b, c),
    ensures
        cand_le(mode, a, c),
{
    if cand_le(mode, a, b) && cand_le(mode, b, c) {
        match mode {
            SortMode::Depth => {
                if depth_spec(a.path@) == depth_spec(b.path@) && depth_spec(b.path@) == depth_spec(
                    c.path@,
                ) {
                    lemma_lex_trans(a.path@, b.path@, c.path@);
                }
            },
            SortMode::Alphabetical => {
                lemma_lex_trans(a.path@, b.path@, c.path@);
            },
        }
    }
}

pub proof fn lemma_cand_le_antisym_path(mode: SortMode, a: Candidate, b: Candidate)
    requires
        cand_le(mode, a, b),
        cand_le(mode, b, a),
    ensures
        a.path@ == b.path@,
{
    lemma_lex_antisym(a.path@, b.path@);
}

/// Sortedness of a candidate sequence under the configured order.
pub open spec fn sorted_by_mode(mode: SortMode, s: Seq<Candidate>) -> bool {
    forall|i: int, j: int| 0 <= i < j < s.len() ==> cand_le(mode, #[trigger] s[i], #[trigger] s[j])
}

fn cand_le_exec(mode: SortMode, a: &Candidate, b: &Candidate) -> (r: bool)
    ensures
        r == cand_le(mode, *a, *b),
{
    match mode {
        SortMode::Depth => {
            let da = path_depth(a.path.as_str());
            let db = path_depth(b.path.as_str());
            if da < db {
                true
            } else if da > db {
                false
            } else {
                str_lex_le(a.path.as_str(), b.path.as_str())
            }
        },
        SortMode::Alphabetical => str_lex_le(a.path.as_str(), b.path.as_str()),
    }
}

/// Sorts candidates in place under the configured order; the result is a
/// permutation of the input.
pub fn sort_candidates(candidates: &mut Vec<Candidate>, sort_mode: SortMode)
    ensures
        sorted_by_mode(sort_mode, final(candidates)@),
        final(candidates)@.to_multiset() == old(candidates)@.to_multiset(),
        final(candidates)@.len() == old(candidates)@.len(),
{
    broadcast use vstd::seq_lib::group_to_multiset_ensures;
    broadcast use vstd::multiset::group_multiset_axioms;

    if candidates.len() < 2 {
        return ;
    }
    let mut i: usize = 1;
    while i < candidates.len()
        invariant
            1 <= i <= candidates@.len(),
            sorted_by_mode(sort_mode, candidates@.take(i as int)),
            candidates@.to_multiset() == old(candidates)@.to_multiset(),
            candidates@.len() == old(candidates)@.len(),
        decreases candidates@.len() - i,
    {
        let ghost pre = candidates@;
        proof {
            assert(forall|k: int| 0 <= k < i ==> pre.take(i as int)[k] == pre[k]);
        }
        // find the insertion position of element i within the sorted prefix
        let mut pos: usize = 0;
        while pos < i && cand_le_exec(sort_mode, &candidates[pos], &candidates[i])
            invariant
                pos <= i < candidates@.len(),
                candidates@ == pre,
                forall|k: int|
                    0 <= k < pos ==> cand_le(
                        sort_mode,
                        #[trigger] candidates@[k],
                        candidates@[i as int],
                    ),
            decreases i - pos,
        {
            pos = pos + 1;
        }
        let ghost xg = pre[i as int];
        proof {
            if pos < i {
                assert(!cand_le(sort_mode, pre[pos as int], xg));
                lemma_cand_le_total(sort_mode, pre[pos as int], xg);
                assert(cand_le(sort_mode, xg, pre[pos as int]));
            }
        }
        let x = candidates.remove(i);
        candidates.insert(pos, x);
        proof {
            let now = candidates@;
            let removed = pre.remove(i as int);
            assert(now == removed.insert(pos as int, xg));
            // where each element of the reordered prefix came from
            assert(forall|k: int| 0 <= k < pos ==> now[k] == pre[k]);
            assert(now[pos as int] == xg);
            assert(forall|k: int| pos < k <= i ==> now[k] == pre[k - 1]);
            assert forall|a: int, b: int| 0 <= a < b < i + 1 implies cand_le(
                sort_mode,
                now[a],
                now[b],
            ) by {
                if b < pos {
                    assert(cand_le(sort_mode, pre[a], pre[b]));
                } else if b == pos {
                    assert(cand_le(sort_mode, pre[a], xg));
                } else if a < pos {
                    // now[a] == pre[a], now[b] == pre[b - 1], a < pos <= b - 1 < i
                    assert(cand_le(sort_mode, pre[a], pre[b - 1]));
                } else if a == pos {
                    // now[a] == xg, now[b] == pre[b - 1], pos <= b - 1 < i
                    assert(cand_le(sort_mode, xg, pre[pos as int]));
                    if b - 1 > pos {
                        assert(cand_le(sort_mode, pre[pos as int], pre[b - 1]));
                        lemma_cand_le_trans(sort_mode, xg, pre[pos as int], pre[b - 1]);
                    }
                } else {
                    // pos < a < b: both shift down by one
                    assert(cand_le(sort_mode, pre[a - 1], pre[b - 1]));
                }
            }
            assert(forall|k: int| 0 <= k < i + 1 ==> now.take(i + 1)[k] == now[k]);
            assert(sorted_by_mode(sort_mode, now.take(i + 1)));
            assert(now.to_multiset() =~= pre.to_multiset()) by {
                vstd::seq_lib::to_multiset_remove::<Candidate>(pre, i as int);
                vstd::seq_lib::to_multiset_insert::<Candidate>(removed, pos as int, xg);
                assert(removed.to_multiset() == pre.to_multiset().remove(xg));
                assert(now.to_multiset() == removed.to_multiset().insert(xg));
                assert(pre.to_multiset().count(xg) > 0) by {
                    pre.to_multiset_ensures();
                    assert(pre.contains(pre[i as int]));
                }
            }
        }
        i = i + 1;
    }
    proof {
        assert(candidates@.take(candidates@.len() as int) =~= candidates@);
    }
}

} // verus!

// ---------------------------------------------------------------------------
// The merge of path matches and content matches into one candidate set.
// ---------------------------------------------------------------------------

verus! {

/// The query as a match source: an empty query string means "match every
/// surviving entry" and runs no content search.
pub open spec fn query_of(q: Seq<char>) -> Option<Seq<char>> {
    if q.len() == 0 {
        None
    } else {
        Some(q)
    }
}

/// Whether a walked entry becomes a path-match candidate: it survives the
/// pruning rule and, under a non-empty query, the query matches its path.
pub open spec fn walk_accept(
    e: WalkedEntry,
    pattern: Option<Seq<char>>,
    s: Settings,
    root_dev: Option<u64>,
) -> bool {
    walk_entry_kept(e, s, root_dev) && (match pattern {
        Some(p) => query_matches_path(p, e.rel_path@),
        None => true,
    })
}

/// Whether a content hit becomes a content-match candidate.
pub open spec fn hit_accept(h: ContentHit, s: Settings, root_dev: Option<u64>) -> bool {
    content_hit_kept(h, s, root_dev)
}

/// Whether some accepted walked entry has this path.
pub open spec fn walk_hit(
    walked: Seq<WalkedEntry>,
    pattern: Option<Seq<char>>,
    s: Settings,
    root_dev: Option<u64>,
    path: Seq<char>,
) -> bool {
    exists|i: int|
        0 <= i < walked.len() && walk_accept(#[trigger] walked[i], pattern, s, root_dev)
            && walked[i].rel_path@ == path
}

/// Whether some accepted content hit has this path.
pub open spec fn content_hit_for(
    hits: Seq<ContentHit>,
    s: Settings,
    root_dev: Option<u64>,
    path: Seq<char>,
) -> bool {
    exists|i: int|
        0 <= i < hits.len() && hit_accept(#[trigger] hits[i], s, root_dev) && hits[i].path@ == path
}

/// The directory flag of the first accepted walked entry with this path.
pub open spec fn first_walk_dir(
    walked: Seq<WalkedEntry>,
    pattern: Option<Seq<char>>,
    s: Settings,
    root_dev: Option<u64>,
    path: Seq<char>,
) -> Option<bool>
    decreases walked.len(),
{
    if walked.len() == 0 {
        None
    } else if walk_accept(walked[0], pattern, s, root_dev) && walked[0].rel_path@ == path {
        Some(walked[0].is_dir)
    } else {
        first_walk_dir(walked.drop_first(), pattern, s, root_dev, path)
    }
}

/// The directory flag of the first accepted content hit with this path.
pub open spec fn first_hit_dir(
    hits: Seq<ContentHit>,
    s: Settings,
    root_dev: Option<u64>,
    path: Seq<char>,
) -> Option<bool>
    decreases hits.len(),
{
    if hits.len() == 0 {
        None
    } else if hit_accept(hits[0], s, root_dev) && hits[0].path@ == path {
        Some(hits[0].is_dir)
    } else {
        first_hit_dir(hits.drop_first(), s, root_dev, path)
    }
}

/// No two candidates share a path.
pub open spec fn paths_unique(s: Seq<Candidate>) -> bool {
    forall|i: int, j: int|
        0 <= i < j < s.len() ==> (#[trigger] s[i]).path@ != (#[trigger] s[j]).path@
}

/// Some candidate has this path.
pub open spec fn path_present(s: Seq<Candidate>, path: Seq<char>) -> bool {
    exists|k: int| 0 <= k < s.len() && (#[trigger] s[k]).path@ == path
}

/// The merge contract: the candidate set is keyed by path without
/// duplicates; each flag records exactly whether the corresponding source
/// reported that path; every candidate was reported by at least one source;
/// the directory flag comes from the first reporting source, path matches
/// first; and every accepted report is represented.
pub open spec fn candidate_set_ok(
    r: Seq<Candidate>,
    pattern: Option<Seq<char>>,
    walked: Seq<WalkedEntry>,
    hits: Seq<ContentHit>,
    s: Settings,
    root_dev: Option<u64>,
) -> bool {
    &&& paths_unique(r)
    &&& forall|k: int|
        0 <= k < r.len() ==> (#[trigger] r[k]).path_match == walk_hit(
            walked,
            pattern,
            s,
            root_dev,
            r[k].path@,
        )
    &&& forall|k: int|
        0 <= k < r.len() ==> (#[trigger] r[k]).content_match == content_hit_for(
            hits,
            s,
            root_dev,
            r[k].path@,
        )
    &&& forall|k: int| 0 <= k < r.len() ==> (#[trigger] r[k]).path_match || r[k].content_match
    &&& forall|k: int|
        0 <= k < r.len() && (#[trigger] r[k]).path_match ==> first_walk_dir(
            walked,
            pattern,
            s,
            root_dev,
            r[k].path@,
        ) == Some(r[k].is_dir)
    &&& forall|k: int|
        0 <= k < r.len() && !(#[trigger] r[k]).path_match ==> first_hit_dir(
            hits,
            s,
            root_dev,
            r[k].path@,
        ) == Some(r[k].is_dir)
    &&& forall|i: int|
        0 <= i < walked.len() && walk_accept(#[trigger] walked[i], pattern, s, root_dev)
            ==> path_present(r, walked[i].rel_path@)
    &&& forall|i: int|
        0 <= i < hits.len() && hit_accept(#[trigger] hits[i], s, root_dev) ==> path_present(
            r,
            hits[i].path@,
        )
}

proof fn lemma_walk_push(
    s0: Seq<WalkedEntry>,
    e: WalkedEntry,
    pattern: Option<Seq<char>>,
    s: Settings,
    root_dev: Option<u64>,
    path: Seq<char>,
)
    ensures
        walk_hit(s0.push(e), pattern, s, root_dev, path) == (walk_hit(s0, pattern, s, root_dev, path)
            || (walk_accept(e, pattern, s, root_dev) && e.rel_path@ == path)),
        first_walk_dir(s0.push(e), pattern, s, root_dev, path) == (
        match first_walk_dir(s0, pattern, s, root_dev, path) {
            Some(d) => Some(d),
            None => if walk_accept(e, pattern, s, root_dev) && e.rel_path@ == path {
                Some(e.is_dir)
            } else {
                None
            },
        }),
    decreases s0.len(),
{
    let s1 = s0.push(e);
    assert(s1.len() == s0.len() + 1);
    assert(forall|k: int| 0 <= k < s0.len() ==> s1[k] == s0[k]);
    assert(s1[s0.len() as int] == e);
    // the existence form
    if walk_hit(s0, pattern, s, root_dev, path) {
        let i = choose|i: int|
            0 <= i < s0.len() && walk_accept(#[trigger] s0[i], pattern, s, root_dev)
                && s0[i].rel_path@ == path;
        assert(walk_accept(s1[i], pattern, s, root_dev) && s1[i].rel_path@ == path);
        assert(walk_hit(s1, pattern, s, root_dev, path));
    }
    if walk_accept(e, pattern, s, root_dev) && e.rel_path@ == path {
        assert(walk_accept(s1[s0.len() as int], pattern, s, root_dev));
        assert(walk_hit(s1, pattern, s, root_dev, path));
    }
    if walk_hit(s1, pattern, s, root_dev, path) {
        let i = choose|i: int|
            0 <= i < s1.len() && walk_accept(#[trigger] s1[i], pattern, s, root_dev)
                && s1[i].rel_path@ == path;
        if i < s0.len() {
            assert(walk_accept(s0[i], pattern, s, root_dev) && s0[i].rel_path@ == path);
            assert(walk_hit(s0, pattern, s, root_dev, path));
        }
    }
    // the first-source form, by induction
    if s0.len() == 0 {
        assert(s1.drop_first() =~= Seq::<WalkedEntry>::empty());
        assert(s1[0] == e);
        assert(first_walk_dir(s1.drop_first(), pattern, s, root_dev, path) is None);
    } else {
        assert(s1[0] == s0[0]);
        assert(s1.drop_first() =~= s0.drop_first().push(e));
        lemma_walk_push(s0.drop_first(), e, pattern, s, root_dev, path);
        if walk_accept(s0[0], pattern, s, root_dev) && s0[0].rel_path@ == path {
            assert(first_walk_dir(s1, pattern, s, root_dev, path) == Some(s0[0].is_dir));
            assert(first_walk_dir(s0, pattern, s, root_dev, path) == Some(s0[0].is_dir));
        } else {
            assert(first_walk_dir(s1, pattern, s, root_dev, path) == first_walk_dir(
                s1.drop_first(),
                pattern,
                s,
                root_dev,
                path,
            ));
            assert(first_walk_dir(s0, pattern, s, root_dev, path) == first_walk_dir(
                s0.drop_first(),
                pattern,
                s,
                root_dev,
                path,
            ));
        }
    }
}

proof fn lemma_hit_push(
    s0: Seq<ContentHit>,
    h: ContentHit,
    s: Settings,
    root_dev: Option<u64>,
    path: Seq<char>,
)
    ensures
        content_hit_for(s0.push(h), s, root_dev, path) == (content_hit_for(s0, s, root_dev, path)
            || (hit_accept(h, s, root_dev) && h.path@ == path)),
        first_hit_dir(s0.push(h), s, root_dev, path) == (match first_hit_dir(
            s0,
            s,
            root_dev,
            path,
        ) {
            Some(d) => Some(d),
            None => if hit_accept(h, s, root_dev) && h.path@ == path {
                Some(h.is_dir)
            } else {
                None
            },
        }),
    decreases s0.len(),
{
    let s1 = s0.push(h);
    assert(forall|k: int| 0 <= k < s0.len() ==> s1[k] == s0[k]);
    assert(s1[s0.len() as int] == h);
    if content_hit_for(s0, s, root_dev, path) {
        let i = choose|i: int|
            0 <= i < s0.len() && hit_accept(#[trigger] s0[i], s, root_dev) && s0[i].path@ == path;
        assert(hit_accept(s1[i], s, root_dev) && s1[i].path@ == path);
        assert(content_hit_for(s1, s, root_dev, path));
    }
    if hit_accept(h, s, root_dev) && h.path@ == path {
        assert(hit_accept(s1[s0.len() as int], s, root_dev));
        assert(content_hit_for(s1, s, root_dev, path));
    }
    if content_hit_for(s1, s, root_dev, path) {
        let i = choose|i: int|
            0 <= i < s1.len() && hit_accept(#[trigger] s1[i], s, root_dev) && s1[i].path@ == path;
        if i < s0.len() {
            assert(content_hit_for(s0, s, root_dev, path));
        }
    }
    if s0.len() == 0 {
        assert(s1.drop_first() =~= Seq::<ContentHit>::empty());
        assert(s1[0] == h);
        assert(first_hit_dir(s1.drop_first(), s, root_dev, path) is None);
    } else {
        assert(s1[0] == s0[0]);
        assert(s1.drop_first() =~= s0.drop_first().push(h));
        lemma_hit_push(s0.drop_first(), h, s, root_dev, path);
        if hit_accept(s0[0], s, root_dev) && s0[0].path@ == path {
            assert(first_hit_dir(s1, s, root_dev, path) == Some(s0[0].is_dir));
            assert(first_hit_dir(s0, s, root_dev, path) == Some(s0[0].is_dir));
        } else {
            assert(first_hit_dir(s1, s, root_dev, path) == first_hit_dir(
                s1.drop_first(),
                s,
                root_dev,
                path,
            ));
            assert(first_hit_dir(s0, s, root_dev, path) == first_hit_dir(
                s0.drop_first(),
                s,
                root_dev,
                path,
            ));
        }
    }
}

proof fn lemma_walk_dir_some(
    walked: Seq<WalkedEntry>,
    pattern: Option<Seq<char>>,
    s: Settings,
    root_dev: Option<u64>,
    path: Seq<char>,
)
    ensures
        first_walk_dir(walked, pattern, s, root_dev, path) is Some <==> walk_hit(
            walked,
            pattern,
            s,
            root_dev,
            path,
        ),
    decreases walked.len(),
{
    if walked.len() > 0 {
        lemma_walk_dir_some(walked.drop_first(), pattern, s, root_dev, path);
        if walk_accept(walked[0], pattern, s, root_dev) && walked[0].rel_path@ == path {
            assert(walk_hit(walked, pattern, s, root_dev, path));
        } else {
            if walk_hit(walked.drop_first(), pattern, s, root_dev, path) {
                let i = choose|i: int|
                    0 <= i < walked.drop_first().len() && walk_accept(
                        #[trigger] walked.drop_first()[i],
                        pattern,
                        s,
                        root_dev,
                    ) && walked.drop_first()[i].rel_path@ == path;
                assert(walked.drop_first()[i] == walked[i + 1]);
                assert(walk_hit(walked, pattern, s, root_dev, path));
            }
            if walk_hit(walked, pattern, s, root_dev, path) {
                let i = choose|i: int|
                    0 <= i < walked.len() && walk_accept(#[trigger] walked[i], pattern, s, root_dev)
                        && walked[i].rel_path@ == path;
                assert(i > 0);
                assert(walked.drop_first()[i - 1] == walked[i]);
                assert(walk_hit(walked.drop_first(), pattern, s, root_dev, path));
            }
        }
    }
}

proof fn lemma_hit_dir_some(
    hits: Seq<ContentHit>,
    s: Settings,
    root_dev: Option<u64>,
    path: Seq<char>,
)
    ensures
        first_hit_dir(hits, s, root_dev, path) is Some <==> content_hit_for(
            hits,
            s,
            root_dev,
            path,
        ),
    decreases hits.len(),
{
    if hits.len() > 0 {
        lemma_hit_dir_some(hits.drop_first(), s, root_dev, path);
        if hit_accept(hits[0], s, root_dev) && hits[0].path@ == path {
            assert(content_hit_for(hits, s, root_dev, path));
        } else {
            if content_hit_for(hits.drop_first(), s, root_dev, path) {
                let i = choose|i: int|
                    0 <= i < hits.drop_first().len() && hit_accept(
                        #[trigger] hits.drop_first()[i],
                        s,
                        root_dev,
                    ) && hits.drop_first()[i].path@ == path;
                assert(hits.drop_first()[i] == hits[i + 1]);
                assert(content_hit_for(hits, s, root_dev, path));
            }
            if content_hit_for(hits, s, root_dev, path) {
                let i = choose|i: int|
                    0 <= i < hits.len() && hit_accept(#[trigger] hits[i], s, root_dev)
                        && hits[i].path@ == path;
                assert(i > 0);
                assert(hits.drop_first()[i - 1] == hits[i]);
                assert(content_hit_for(hits.drop_first(), s, root_dev, path));
            }
        }
    }
}

fn find_by_path(v: &Vec<Candidate>, path: &str) -> (r: Option<usize>)
    ensures
        r matches Some(j) ==> 0 <= j < v@.len() && v@[j as int].path@ == path@,
        r is None ==> forall|k: int| 0 <= k < v@.len() ==> (#[trigger] v@[k]).path@ != path@,
{
    let target = str_to_chars(path);
    let mut k: usize = 0;
    while k < v.len()
        invariant
            k <= v@.len(),
            target@ == path@,
            forall|j: int| 0 <= j < k ==> (#[trigger] v@[j]).path@ != path@,
        decreases v@.len() - k,
    {
        if chars_eq_str(&target, v[k].path.as_str()) {
            return Some(k);
        }
        k = k + 1;
    }
    None
}

} // verus!

// ---------------------------------------------------------------------------
// Building the candidate list.
// ---------------------------------------------------------------------------

verus! {

broadcast use vstd::seq_lib::group_to_multiset_ensures;

proof fn lemma_unique_paths_perm(pre: Seq<Candidate>, post: Seq<Candidate>)
    requires
        pre.to_multiset() == post.to_multiset(),
        paths_unique(pre),
    ensures
        paths_unique(post),
{
    assert forall|i: int, j: int| 0 <= i < j < post.len() implies (#[trigger] post[i]).path@ != (
    #[trigger] post[j]).path@ by {
        let x = post[i];
        let y = post[j];
        if x.path@ == y.path@ {
            post.to_multiset_ensures();
            pre.to_multiset_ensures();
            assert(post.contains(x));
            assert(pre.to_multiset().count(x) > 0);
            assert(pre.contains(x));
            let i2 = choose|i2: int| 0 <= i2 < pre.len() && pre[i2] == x;
            let s1 = pre.remove(i2);
            let s2 = post.remove(i);
            vstd::seq_lib::to_multiset_remove::<Candidate>(pre, i2);
            vstd::seq_lib::to_multiset_remove::<Candidate>(post, i);
            assert(s1.to_multiset() == s2.to_multiset());
            assert(s2[j - 1] == y);
            assert(s2.contains(y));
            s2.to_multiset_ensures();
            s1.to_multiset_ensures();
            assert(s1.to_multiset().count(y) > 0);
            assert(s1.contains(y));
            let j2 = choose|j2: int| 0 <= j2 < s1.len() && s1[j2] == y;
            if j2 < i2 {
                assert(pre[j2] == y);
                assert(pre[i2].path@ != pre[j2].path@);
            } else {
                assert(pre[j2 + 1] == y);
                assert(pre[i2].path@ != pre[j2 + 1].path@);
            }
        }
    }
}

proof fn lemma_set_ok_perm(
    pre: Seq<Candidate>,
    post: Seq<Candidate>,
    pattern: Option<Seq<char>>,
    walked: Seq<WalkedEntry>,
    hits: Seq<ContentHit>,
    s: Settings,
    root_dev: Option<u64>,
)
    requires
        candidate_set_ok(pre, pattern, walked, hits, s, root_dev),
        post.to_multiset() == pre.to_multiset(),
    ensures
        candidate_set_ok(post, pattern, walked, hits, s, root_dev),
{
    pre.to_multiset_ensures();
    post.to_multiset_ensures();
    lemma_unique_paths_perm(pre, post, );
    assert forall|k: int| 0 <= k < post.len() implies {
        &&& (#[trigger] post[k]).path_match == walk_hit(walked, pattern, s, root_dev, post[k].path@)
        &&& post[k].content_match == content_hit_for(hits, s, root_dev, post[k].path@)
        &&& (post[k].path_match || post[k].content_match)
        &&& (post[k].path_match ==> first_walk_dir(walked, pattern, s, root_dev, post[k].path@)
            == Some(post[k].is_dir))
        &&& (!post[k].path_match ==> first_hit_dir(hits, s, root_dev, post[k].path@) == Some(
            post[k].is_dir,
        ))
    } by {
        let x = post[k];
        assert(post.contains(x));
        assert(pre.to_multiset().count(x) > 0);
        assert(pre.contains(x));
        let k2 = choose|k2: int| 0 <= k2 < pre.len() && pre[k2] == x;
        assert(pre[k2].path_match == walk_hit(walked, pattern, s, root_dev, pre[k2].path@));
    }
    assert forall|i: int|
        0 <= i < walked.len() && walk_accept(
            #[trigger] walked[i],
            pattern,
            s,
            root_dev,
        ) implies path_present(post, walked[i].rel_path@) by {
        let k = choose|k: int| 0 <= k < pre.len() && (#[trigger] pre[k]).path@
            == walked[i].rel_path@;
        assert(pre.contains(pre[k]));
        assert(post.to_multiset().count(pre[k]) > 0);
        assert(post.contains(pre[k]));
        let k2 = choose|k2: int| 0 <= k2 < post.len() && post[k2] == pre[k];
        assert(0 <= k2 < post.len() && (post[k2]).path@ == walked[i].rel_path@);
    }
    assert forall|i: int|
        0 <= i < hits.len() && hit_accept(#[trigger] hits[i], s, root_dev) implies path_present(
        post,
        hits[i].path@,
    ) by {
        let k = choose|k: int| 0 <= k < pre.len() && (#[trigger] pre[k]).path@ == hits[i].path@;
        assert(pre.contains(pre[k]));
        assert(post.to_multiset().count(pre[k]) > 0);
        assert(post.contains(pre[k]));
        let k2 = choose|k2: int| 0 <= k2 < post.len() && post[k2] == pre[k];
        assert(0 <= k2 < post.len() && (post[k2]).path@ == hits[i].path@);
    }
}

/// Builds the merged, deduplicated, ordered candidate list for one query
/// over the reports of the filesystem walk and of the content search.
///
/// Fails exactly when the query is non-empty and is not a valid regular
/// expression.
pub fn build_candidates(
    query: &str,
    walked: &Vec<WalkedEntry>,
    hits: &Vec<ContentHit>,
    settings: &Settings,
    root_dev: Option<u64>,
) -> (r: Result<Vec<Candidate>, SearchError>)
    requires
        settings_wf(settings),
    ensures
        r is Ok <==> (query@.len() == 0 || regex_ok(query@)),
        r matches Ok(cs) ==> candidate_set_ok(
            cs@,
            query_of(query@),
            walked@,
            hits@,
            *settings,
            root_dev,
        ),
        r matches Ok(cs) ==> sorted_by_mode(settings.sort_mode, cs@),
        r matches Err(SearchError::InvalidQuery { pattern }) ==> pattern@ == query@ && query@.len()
            > 0 && !regex_ok(query@),
{
    let ghost pattern = query_of(query@);
    let query_opt: Option<Query> = if query.is_empty() {
        None
    } else {
        match Query::compile(query) {
            Some(q) => Some(q),
            None => {
                return Err(SearchError::InvalidQuery { pattern: String::from_str(query) });
            },
        }
    };
    proof {
        match &query_opt {
            Some(q) => {
                assert(pattern == Some(q.pattern()));
            },
            None => {
                assert(pattern is None);
            },
        }
    }

    let mut out: Vec<Candidate> = Vec::new();

    let mut i: usize = 0;
    proof {
        assert(walked@.take(0) =~= Seq::<WalkedEntry>::empty());
    }
    while i < walked.len()
        invariant
            i <= walked@.len(),
            settings_wf(settings),
            pattern == query_of(query@),
            query_opt matches Some(q) ==> pattern == Some(q.pattern()),
            query_opt is None ==> pattern is None,
            paths_unique(out@),
            forall|k: int|
                0 <= k < out@.len() ==> (#[trigger] out@[k]).path_match && !out@[k].content_match,
            forall|k: int|
                0 <= k < out@.len() ==> first_walk_dir(
                    walked@.take(i as int),
                    pattern,
                    *settings,
                    root_dev,
                    (#[trigger] out@[k]).path@,
                ) == Some(out@[k].is_dir),
            forall|idx: int|
                0 <= idx < i && walk_accept(#[trigger] walked@[idx], pattern, *settings, root_dev)
                    ==> path_present(out@, walked@[idx].rel_path@),
            forall|k: int|
                0 <= k < out@.len() ==> walk_hit(
                    walked@.take(i as int),
                    pattern,
                    *settings,
                    root_dev,
                    (#[trigger] out@[k]).path@,
                ),
        decreases walked@.len() - i,
    {
        let ghost pre = out@;
        let ghost t0 = walked@.take(i as int);
        let ghost t1 = walked@.take(i + 1);
        proof {
            assert(t1 =~= t0.push(walked@[i as int]));
        }
        let e = &walked[i];
        let kept = keep_walk_entry(e, settings, root_dev);
        let matched = if kept {
            match &query_opt {
                None => true,
                Some(q) => path_matches(q, e.rel_path.as_str()),
            }
        } else {
            false
        };
        assert(matched == walk_accept(walked@[i as int], pattern, *settings, root_dev));
        if matched {
            let found = find_by_path(&out, e.rel_path.as_str());
            match found {
                Some(f) => {
                    // already a candidate from an earlier entry; its flags
                    // already record a path match
                    assert(out@[f as int].path@ == walked@[i as int].rel_path@);
                    assert(path_present(out@, walked@[i as int].rel_path@));
                },
                None => {
                    out.push(
                        Candidate {
                            path: e.rel_path.clone(),
                            is_dir: e.is_dir,
                            path_match: true,
                            content_match: false,
                        },
                    );
                    assert(out@[pre.len() as int].path@ == walked@[i as int].rel_path@);
                    assert(path_present(out@, walked@[i as int].rel_path@));
                },
            }
        }
        proof {
            assert forall|k: int| 0 <= k < out@.len() implies first_walk_dir(
                t1,
                pattern,
                *settings,
                root_dev,
                (#[trigger] out@[k]).path@,
            ) == Some(out@[k].is_dir) && walk_hit(
                t1,
                pattern,
                *settings,
                root_dev,
                out@[k].path@,
            ) by {
                lemma_walk_push(t0, walked@[i as int], pattern, *settings, root_dev, out@[k].path@);
                if k < pre.len() {
                    assert(out@[k] == pre[k]);
                } else {
                    // the pushed candidate
                    lemma_walk_dir_some(t0, pattern, *settings, root_dev, out@[k].path@);
                }
            }
            assert forall|idx: int|
                0 <= idx < i + 1 && walk_accept(
                    #[trigger] walked@[idx],
                    pattern,
                    *settings,
                    root_dev,
                ) implies path_present(out@, walked@[idx].rel_path@) by {
                if idx < i {
                    assert(path_present(pre, walked@[idx].rel_path@));
                    let k = choose|k: int|
                        0 <= k < pre.len() && (#[trigger] pre[k]).path@ == walked@[idx].rel_path@;
                    assert(out@.len() >= pre.len() && out@[k] == pre[k]);
                } else {
                    if matched {
                        assert(path_present(out@, walked@[i as int].rel_path@));
                    }
                }
            }
        }
        i = i + 1;
    }
    proof {
        assert(walked@.take(walked@.len() as int) =~= walked@);
        assert(hits@.take(0) =~= Seq::<ContentHit>::empty());
        assert forall|k: int| 0 <= k < out@.len() implies (#[trigger] out@[k]).path_match
            == walk_hit(walked@, pattern, *settings, root_dev, out@[k].path@) by {
            lemma_walk_dir_some(walked@, pattern, *settings, root_dev, out@[k].path@);
        }
    }

    let mut j: usize = 0;
    while j < hits.len()
        invariant
            j <= hits@.len(),
            settings_wf(settings),
            pattern == query_of(query@),
            paths_unique(out@),
            forall|k: int|
                0 <= k < out@.len() ==> (#[trigger] out@[k]).path_match == walk_hit(
                    walked@,
                    pattern,
                    *settings,
                    root_dev,
                    out@[k].path@,
                ),
            forall|k: int|
                0 <= k < out@.len() ==> (#[trigger] out@[k]).content_match == content_hit_for(
                    hits@.take(j as int),
                    *settings,
                    root_dev,
                    out@[k].path@,
                ),
            forall|k: int|
                0 <= k < out@.len() ==> ((#[trigger] out@[k]).path_match || out@[k].content_match),
            forall|k: int|
                0 <= k < out@.len() && (#[trigger] out@[k]).path_match ==> first_walk_dir(
                    walked@,
                    pattern,
                    *settings,
                    root_dev,
                    out@[k].path@,
                ) == Some(out@[k].is_dir),
            forall|k: int|
                0 <= k < out@.len() && !(#[trigger] out@[k]).path_match ==> first_hit_dir(
                    hits@.take(j as int),
                    *settings,
                    root_dev,
                    out@[k].path@,
                ) == Some(out@[k].is_dir),
            forall|idx: int|
                0 <= idx < walked@.len() && walk_accept(
                    #[trigger] walked@[idx],
                    pattern,
                    *settings,
                    root_dev,
                ) ==> path_present(out@, walked@[idx].rel_path@),
            forall|jdx: int|
                0 <= jdx < j && hit_accept(#[trigger] hits@[jdx], *settings, root_dev)
                    ==> path_present(out@, hits@[jdx].path@),
        decreases hits@.len() - j,
    {
        let ghost pre = out@;
        let ghost t0 = hits@.take(j as int);
        let ghost t1 = hits@.take(j + 1);
        proof {
            assert(t1 =~= t0.push(hits@[j as int]));
        }
        let h = &hits[j];
        let kept = keep_content_hit(h, settings, root_dev);
        assert(kept == hit_accept(hits@[j as int], *settings, root_dev));
        if kept {
            match find_by_path(&out, h.path.as_str()) {
                Some(k) => {
                    let mut c = out.remove(k);
                    c.content_match = true;
                    out.insert(k, c);
                    proof {
                        assert(out@ =~= pre.update(
                            k as int,
                            Candidate { content_match: true, ..pre[k as int] },
                        ));
                        assert(out@[k as int].path@ == hits@[j as int].path@);
                        assert(path_present(out@, hits@[j as int].path@));
                    }
                },
                None => {
                    proof {
                        if walk_hit(walked@, pattern, *settings, root_dev, hits@[j as int].path@) {
                            let idx = choose|idx: int|
                                0 <= idx < walked@.len() && walk_accept(
                                    #[trigger] walked@[idx],
                                    pattern,
                                    *settings,
                                    root_dev,
                                ) && walked@[idx].rel_path@ == hits@[j as int].path@;
                            assert(path_present(pre, walked@[idx].rel_path@));
                            assert(false);
                        }
                        if first_hit_dir(t0, *settings, root_dev, hits@[j as int].path@) is Some {
                            lemma_hit_dir_some(t0, *settings, root_dev, hits@[j as int].path@);
                            let jdx = choose|jdx: int|
                                0 <= jdx < t0.len() && hit_accept(
                                    #[trigger] t0[jdx],
                                    *settings,
                                    root_dev,
                                ) && t0[jdx].path@ == hits@[j as int].path@;
                            assert(t0[jdx] == hits@[jdx]);
                            assert(path_present(pre, hits@[jdx].path@));
                            assert(false);
                        }
                    }
                    out.push(
                        Candidate {
                            path: h.path.clone(),
                            is_dir: h.is_dir,
                            path_match: false,
                            content_match: true,
                        },
                    );
                    assert(out@[pre.len() as int].path@ == hits@[j as int].path@);
                    assert(path_present(out@, hits@[j as int].path@));
                },
            }
        }
        proof {
            assert forall|k: int| 0 <= k < out@.len() implies {
                &&& (#[trigger] out@[k]).content_match == content_hit_for(
                    t1,
                    *settings,
                    root_dev,
                    out@[k].path@,
                )
                &&& (!out@[k].path_match ==> first_hit_dir(t1, *settings, root_dev, out@[k].path@)
                    == Some(out@[k].is_dir))
            } by {
                lemma_hit_push(t0, hits@[j as int], *settings, root_dev, out@[k].path@);
                if !kept {
                    assert(out@[k] == pre[k]);
                } else if k < pre.len() {
                    lemma_hit_dir_some(t0, *settings, root_dev, out@[k].path@);
                } else {
                    lemma_hit_dir_some(t0, *settings, root_dev, out@[k].path@);
                }
            }
            assert forall|jdx: int|
                0 <= jdx < j + 1 && hit_accept(
                    #[trigger] hits@[jdx],
                    *settings,
                    root_dev,
                ) implies path_present(out@, hits@[jdx].path@) by {
                if jdx < j {
                    assert(path_present(pre, hits@[jdx].path@));
                    let k = choose|k: int|
                        0 <= k < pre.len() && (#[trigger] pre[k]).path@ == hits@[jdx].path@;
                    assert(0 <= k < out@.len() && out@[k].path@ == hits@[jdx].path@);
                } else {
                    if kept {
                        assert(path_present(out@, hits@[j as int].path@));
                    }
                }
            }
            assert forall|idx: int|
                0 <= idx < walked@.len() && walk_accept(
                    #[trigger] walked@[idx],
                    pattern,
                    *settings,
                    root_dev,
                ) implies path_present(out@, walked@[idx].rel_path@) by {
                assert(path_present(pre, walked@[idx].rel_path@));
                let k = choose|k: int|
                    0 <= k < pre.len() && (#[trigger] pre[k]).path@ == walked@[idx].rel_path@;
                assert(0 <= k < out@.len() && out@[k].path@ == walked@[idx].rel_path@);
            }
        }
        j = j + 1;
    }
    proof {
        assert(hits@.take(hits@.len() as int) =~= hits@);
    }

    let ghost merged = out@;
    sort_candidates(&mut out, settings.sort_mode);
    proof {
        lemma_set_ok_perm(merged, out@, pattern, walked@, hits@, *settings, root_dev);
    }
    Ok(out)
}

} // verus!

// ---------------------------------------------------------------------------
// Laws of the merged candidate set.
// ---------------------------------------------------------------------------

verus! {

/// No candidate of a well-formed result has a hidden path component while
/// hidden entries are excluded, and none matches the ignore glob set,
/// whether it was discovered by the walk or by the content search.
pub proof fn lemma_candidates_respect_filters(
    r: Seq<Candidate>,
    pattern: Option<Seq<char>>,
    walked: Seq<WalkedEntry>,
    hits: Seq<ContentHit>,
    s: Settings,
    root_dev: Option<u64>,
    k: int,
)
    requires
        candidate_set_ok(r, pattern, walked, hits, s, root_dev),
        0 <= k < r.len(),
    ensures
        !s.include_hidden ==> !has_hidden_component(r[k].path@),
        !ignored_by(s.globs.deep_view(), r[k].path@),
{
    if r[k].path_match {
        let i = choose|i: int|
            0 <= i < walked.len() && walk_accept(#[trigger] walked[i], pattern, s, root_dev)
                && walked[i].rel_path@ == r[k].path@;
        assert(walk_entry_kept(walked[i], s, root_dev));
    } else {
        assert(r[k].content_match);
        let i = choose|i: int|
            0 <= i < hits.len() && hit_accept(#[trigger] hits[i], s, root_dev) && hits[i].path@
                == r[k].path@;
        assert(content_hit_kept(hits[i], s, root_dev));
    }
}

proof fn lemma_sorted_unique_pointwise(mode: SortMode, a: Seq<Candidate>, b: Seq<Candidate>)
    requires
        sorted_by_mode(mode, a),
        sorted_by_mode(mode, b),
        paths_unique(a),
        paths_unique(b),
        forall|p: Seq<char>| path_present(a, p) <==> path_present(b, p),
    ensures
        a.len() == b.len(),
        forall|k: int| 0 <= k < a.len() ==> (#[trigger] a[k]).path@ == b[k].path@,
    decreases a.len(),
{
    if a.len() == 0 {
        if b.len() > 0 {
            assert(path_present(b, b[0].path@));
            assert(path_present(a, b[0].path@));
            assert(false);
        }
    } else {
        assert(path_present(a, a[0].path@));
        assert(path_present(b, a[0].path@));
        if b.len() == 0 {
            assert(false);
        }
        // the two head paths agree
        let jb = choose|j: int| 0 <= j < b.len() && (#[trigger] b[j]).path@ == a[0].path@;
        let ja = choose|j: int| 0 <= j < a.len() && (#[trigger] a[j]).path@ == b[0].path@;
        assert(path_present(b, b[0].path@));
        assert(path_present(a, b[0].path@));
        if jb > 0 {
            assert(cand_le(mode, b[0], b[jb]));
        }
        if ja > 0 {
            assert(cand_le(mode, a[0], a[ja]));
        }
        assert(cand_le(mode, a[0], b[0])) by {
            if ja > 0 {
                assert(cand_le(mode, a[0], a[ja]));
                assert(a[ja].path@ == b[0].path@);
            } else {
                assert(a[0].path@ == b[0].path@);
                lemma_lex_total(a[0].path@, b[0].path@);
                lemma_lex_antisym(a[0].path@, a[0].path@);
                assert(lex_le(a[0].path@, b[0].path@)) by {
                    lemma_lex_total(a[0].path@, b[0].path@);
                }
            }
        }
        assert(cand_le(mode, b[0], a[0])) by {
            if jb > 0 {
                assert(cand_le(mode, b[0], b[jb]));
                assert(b[jb].path@ == a[0].path@);
            } else {
                assert(lex_le(b[0].path@, a[0].path@)) by {
                    lemma_lex_total(b[0].path@, a[0].path@);
                }
            }
        }
        lemma_cand_le_antisym_path(mode, a[0], b[0]);
        assert(a[0].path@ == b[0].path@);

        let a1 = a.drop_first();
        let b1 = b.drop_first();
        assert(forall|k: int| 0 <= k < a1.len() ==> #[trigger] a1[k] == a[k + 1]);
        assert(forall|k: int| 0 <= k < b1.len() ==> #[trigger] b1[k] == b[k + 1]);
        assert forall|p: Seq<char>| path_present(a1, p) <==> path_present(b1, p) by {
            if path_present(a1, p) {
                let k = choose|k: int| 0 <= k < a1.len() && (#[trigger] a1[k]).path@ == p;
                assert(a[k + 1].path@ == p);
                assert(path_present(a, p));
                assert(path_present(b, p));
                let k2 = choose|k2: int| 0 <= k2 < b.len() && (#[trigger] b[k2]).path@ == p;
                assert(a[0].path@ != p);  // uniqueness of a: index 0 vs k+1
                if k2 == 0 {
                    assert(false);
                }
                assert(b1[k2 - 1].path@ == p);
                assert(path_present(b1, p));
            }
            if path_present(b1, p) {
                let k = choose|k: int| 0 <= k < b1.len() && (#[trigger] b1[k]).path@ == p;
                assert(b[k + 1].path@ == p);
                assert(path_present(b, p));
                assert(path_present(a, p));
                let k2 = choose|k2: int| 0 <= k2 < a.len() && (#[trigger] a[k2]).path@ == p;
                assert(b[0].path@ != p);
                if k2 == 0 {
                    assert(false);
                }
                assert(a1[k2 - 1].path@ == p);
                assert(path_present(a1, p));
            }
        }
        lemma_sorted_unique_pointwise(mode, a1, b1);
        assert(forall|k: int| 1 <= k < a.len() ==> (#[trigger] a[k]).path@ == a1[k - 1].path@);
    }
}

/// The merge is deterministic, and hence idempotent: any two ordered results
/// built over the same walk and content reports agree entry by entry, in
/// paths, directory flags and match flags.
pub proof fn lemma_build_deterministic(
    mode: SortMode,
    a: Seq<Candidate>,
    b: Seq<Candidate>,
    pattern: Option<Seq<char>>,
    walked: Seq<WalkedEntry>,
    hits: Seq<ContentHit>,
    s: Settings,
    root_dev: Option<u64>,
)
    requires
        candidate_set_ok(a, pattern, walked, hits, s, root_dev),
        sorted_by_mode(mode, a),
        candidate_set_ok(b, pattern, walked, hits, s, root_dev),
        sorted_by_mode(mode, b),
    ensures
        a.len() == b.len(),
        forall|k: int|
            0 <= k < a.len() ==> {
                &&& (#[trigger] a[k]).path@ == b[k].path@
                &&& a[k].is_dir == b[k].is_dir
                &&& a[k].path_match == b[k].path_match
                &&& a[k].content_match == b[k].content_match
            },
{
    assert forall|p: Seq<char>| path_present(a, p) <==> path_present(b, p) by {
        if path_present(a, p) {
            let k = choose|k: int| 0 <= k < a.len() && (#[trigger] a[k]).path@ == p;
            if a[k].path_match {
                let i = choose|i: int|
                    0 <= i < walked.len() && walk_accept(#[trigger] walked[i], pattern, s, root_dev)
                        && walked[i].rel_path@ == p;
                assert(path_present(b, walked[i].rel_path@));
            } else {
                let i = choose|i: int|
                    0 <= i < hits.len() && hit_accept(#[trigger] hits[i], s, root_dev)
                        && hits[i].path@ == p;
                assert(path_present(b, hits[i].path@));
            }
        }
        if path_present(b, p) {
            let k = choose|k: int| 0 <= k < b.len() && (#[trigger] b[k]).path@ == p;
            if b[k].path_match {
                let i = choose|i: int|
                    0 <= i < walked.len() && walk_accept(#[trigger] walked[i], pattern, s, root_dev)
                        && walked[i].rel_path@ == p;
                assert(path_present(a, walked[i].rel_path@));
            } else {
                let i = choose|i: int|
                    0 <= i < hits.len() && hit_accept(#[trigger] hits[i], s, root_dev)
                        && hits[i].path@ == p;
                assert(path_present(a, hits[i].path@));
            }
        }
    }
    lemma_sorted_unique_pointwise(mode, a, b);
    assert forall|k: int| 0 <= k < a.len() implies {
        &&& (#[trigger] a[k]).path@ == b[k].path@
        &&& a[k].is_dir == b[k].is_dir
        &&& a[k].path_match == b[k].path_match
        &&& a[k].content_match == b[k].content_match
    } by {
        let p = a[k].path@;
        assert(a[k].path_match == walk_hit(walked, pattern, s, root_dev, p));
        assert(b[k].path_match == walk_hit(walked, pattern, s, root_dev, p));
        if a[k].path_match {
            assert(first_walk_dir(walked, pattern, s, root_dev, p) == Some(a[k].is_dir));
            assert(first_walk_dir(walked, pattern, s, root_dev, p) == Some(b[k].is_dir));
        } else {
            assert(first_hit_dir(hits, s, root_dev, p) == Some(a[k].is_dir));
            assert(first_hit_dir(hits, s, root_dev, p) == Some(b[k].is_dir));
        }
    }
}

} // verus!

verus! {

/// In depth mode a shallower candidate always precedes a deeper one.
pub proof fn lemma_depth_mode_shallower_first(s: Seq<Candidate>, i: int, j: int)
    requires
        sorted_by_mode(SortMode::Depth, s),
        0 <= i < s.len(),
        0 <= j < s.len(),
        depth_spec(s[i].path@) < depth_spec(s[j].path@),
    ensures
        i < j,
{
    if j < i {
        assert(cand_le(SortMode::Depth, s[j], s[i]));
    }
}

/// In depth mode candidates of equal depth appear in lexicographic order of
/// their paths.
pub proof fn lemma_depth_mode_ties_lexicographic(s: Seq<Candidate>, i: int, j: int)
    requires
        sorted_by_mode(SortMode::Depth, s),
        0 <= i < j < s.len(),
        depth_spec(s[i].path@) == depth_spec(s[j].path@),
    ensures
        lex_le(s[i].path@, s[j].path@),
{
    assert(cand_le(SortMode::Depth, s[i], s[j]));
}

/// In alphabetical mode the result is exactly the lexicographic ordering of
/// the paths.
pub proof fn lemma_alphabetical_order(s: Seq<Candidate>, i: int, j: int)
    requires
        sorted_by_mode(SortMode::Alphabetical, s),
        0 <= i < j < s.len(),
    ensures
        lex_le(s[i].path@, s[j].path@),
{
    assert(cand_le(SortMode::Alphabetical, s[i], s[j]));
}

} // verus!
