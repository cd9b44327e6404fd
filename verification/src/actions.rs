//! Deciding where a selection leads: the directory containing the selected
//! entry, as a `/`-separated path.

use vstd::prelude::*;
use crate::text::{chars_to_string, str_to_chars, sub_chars};

verus! {

/// The index of the last `/` in a path, or a negative value when there is
/// none.
pub open spec fn last_slash(s: Seq<char>) -> int
    decreases s.len(),
{
    if s.len() == 0 {
        -1
    } else if s.last() == '/' {
        s.len() - 1
    } else {
        last_slash(s.drop_last())
    }
}

/// A selection the path model covers: a nonempty relative path whose
/// segments are all nonempty (it neither starts nor ends with a separator
/// and holds no doubled separator).
pub open spec fn clean_rel_path(s: Seq<char>) -> bool {
    &&& s.len() > 0
    &&& s[0] != '/'
    &&& s.last() != '/'
    &&& forall|i: int| 0 < i < s.len() ==> !(s[i - 1] == '/' && #[trigger] s[i] == '/')
}

/// The directory that contains a selected entry: the working directory
/// joined with the selection, cut before the last separator.  For a clean
/// relative selection under a working directory without a trailing
/// separator, this is the parent of the joined path; with a single-component
/// selection it is the working directory itself.
pub open spec fn target_dir_spec(cwd: Seq<char>, rel: Seq<char>) -> Seq<char> {
    let joined = cwd + seq!['/'] + rel;
    joined.take(last_slash(joined))
}

proof fn lemma_last_slash(s: Seq<char>, k: int)
    requires
        0 <= k < s.len(),
        s[k] == '/',
        forall|j: int| k < j < s.len() ==> s[j] != '/',
    ensures
        last_slash(s) == k,
    decreases s.len(),
{
    if s.len() - 1 > k {
        assert(s.last() != '/');
        let t = s.drop_last();
        assert(forall|j: int| k < j < t.len() ==> t[j] == s[j]);
        lemma_last_slash(t, k);
    }
}

/// Resolves the directory to change into for a selected relative path: the
/// parent of the selection within the working directory, or the working
/// directory itself when the selection has a single component.  The caller
/// keeps selections outside this domain (empty, absolute, with empty
/// segments) away from this decision.
pub fn resolve_target_dir(cwd: &str, selected_rel_path: &str) -> (r: String)
    requires
        clean_rel_path(selected_rel_path@),
        cwd@.len() > 0 ==> cwd@.last() != '/',
    ensures
        r@ == target_dir_spec(cwd@, selected_rel_path@),
{
    let mut joined = str_to_chars(cwd);
    joined.push('/');
    let rel = str_to_chars(selected_rel_path);
    crate::text::append_chars(&mut joined, &rel);
    assert(joined@ =~= cwd@ + seq!['/'] + selected_rel_path@);
    let mut i: usize = joined.len();
    while i > 0 && joined[i - 1] != '/'
        invariant
            i <= joined@.len(),
            forall|j: int| i <= j < joined@.len() ==> joined@[j] != '/',
        decreases i,
    {
        i = i - 1;
    }
    // the separator pushed between the two parts guarantees one is found
    assert(i > 0) by {
        if i == 0 {
            assert(joined@[cwd@.len() as int] == '/');
        }
    }
    proof {
        lemma_last_slash(joined@, i - 1);
    }
    let dir = sub_chars(&joined, 0, i - 1);
    chars_to_string(&dir)
}

} // verus!
