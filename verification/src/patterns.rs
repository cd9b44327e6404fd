//! Compiled query and ignore-glob matchers.
//!
//! The regular-expression engine and the glob engine are outside
//! collaborators; their behaviour is named by uninterpreted functions and
//! every call goes through a trusted wrapper whose contract states what the
//! engine's documentation promises.

use vstd::prelude::*;

verus! {

#[verifier::external_type_specification]
#[verifier::external_body]
pub struct ExRegex(regex::Regex);

#[verifier::external_type_specification]
#[verifier::external_body]
pub struct ExGlobSet(globset::GlobSet);

/// Whether `regex::Regex::new` accepts `pattern`.
pub uninterp spec fn regex_ok(pattern: Seq<char>) -> bool;

/// Whether the regular expression `pattern` matches somewhere in `text`,
/// as decided by `regex::Regex::is_match`.
pub uninterp spec fn regex_accepts(pattern: Seq<char>, text: Seq<char>) -> bool;

/// The successive non-overlapping match spans of `pattern` in `text`
/// reported by `regex::Regex::find_iter`, as character index pairs.
pub uninterp spec fn regex_match_spans(pattern: Seq<char>, text: Seq<char>) -> Seq<(int, int)>;

/// Whether `globset::Glob::new` accepts `pattern`.
pub uninterp spec fn glob_ok(pattern: Seq<char>) -> bool;

/// Whether the single glob `pattern` matches `path`, as decided by the
/// glob engine.
pub uninterp spec fn glob_matches(pattern: Seq<char>, path: Seq<char>) -> bool;

/// Whether `globset::GlobSetBuilder::build` combines this pattern list into
/// one matcher, given that every pattern parses on its own.
pub uninterp spec fn glob_set_ok(patterns: Seq<Seq<char>>) -> bool;

/// A path is ignored when any pattern of the set matches it.
pub open spec fn ignored_by(patterns: Seq<Seq<char>>, path: Seq<char>) -> bool {
    exists|i: int| 0 <= i < patterns.len() && glob_matches(patterns[i], path)
}

/// A compiled regular-expression query, remembering its pattern text.
pub struct Query {
    re: regex::Regex,
    pattern: String,
}

impl Query {
    /// The pattern this query was compiled from.
    pub closed spec fn pattern(&self) -> Seq<char> {
        self.pattern@
    }

    /// Relies on `regex::Regex::new`: it succeeds exactly on the patterns the
    /// engine accepts, and the compiled value matches per that pattern.
    #[verifier::external_body]
    pub fn compile(pattern: &str) -> (r: Option<Query>)
        ensures
            r is Some <==> regex_ok(pattern@),
            r is Some ==> r->Some_0.pattern() == pattern@,
    {
        match regex::Regex::new(pattern) {
            Ok(re) => Some(Query { re, pattern: pattern.to_string() }),
            Err(_) => None,
        }
    }

    /// Relies on `regex::Regex::is_match`: the answer is a function of the
    /// pattern and the haystack alone.
    #[verifier::external_body]
    pub fn is_match(&self, text: &str) -> (r: bool)
        ensures
            r == regex_accepts(self.pattern(), text@),
    {
        self.re.is_match(text)
    }

    /// Relies on `regex::Regex::find_iter`: it yields the successive
    /// non-overlapping matches from left to right, at least one exactly when
    /// `is_match` holds, with byte offsets on character boundaries; the
    /// offsets are converted one for one to character indices.
    #[verifier::external_body]
    pub fn find_spans(&self, text: &str) -> (r: Vec<(usize, usize)>)
        ensures
            r@.len() == regex_match_spans(self.pattern(), text@).len(),
            forall|i: int|
                0 <= i < r@.len() ==> #[trigger] r@[i].0
                    == regex_match_spans(self.pattern(), text@)[i].0 && r@[i].1
                    == regex_match_spans(self.pattern(), text@)[i].1,
            forall|i: int|
                0 <= i < r@.len() ==> #[trigger] r@[i].0 <= r@[i].1 && r@[i].1 <= text@.len(),
            forall|i: int, j: int|
                0 <= i < j < r@.len() ==> #[trigger] r@[i].1 <= #[trigger] r@[j].0,
            r@.len() > 0 <==> regex_accepts(self.pattern(), text@),
    {
        let mut spans = Vec::new();
        for m in self.re.find_iter(text) {
            let start = text[..m.start()].chars().count();
            let end = text[..m.end()].chars().count();
            spans.push((start, end));
        }
        spans
    }
}

/// Why compiling an ignore-glob set failed: one pattern was rejected (with
/// its index), or the combined set could not be built.
pub enum GlobError {
    Pattern(usize),
    Combine,
}

/// The compiled union of ignore globs, remembering its pattern list.
pub struct IgnoreSet {
    set: globset::GlobSet,
    patterns: Vec<String>,
}

impl IgnoreSet {
    /// The glob patterns this set was compiled from, in order.
    pub closed spec fn globs(&self) -> Seq<Seq<char>> {
        self.patterns.deep_view()
    }

    /// Relies on `globset::Glob::new` (parses one pattern; fails exactly on
    /// patterns the engine rejects) and on `globset::GlobSetBuilder`
    /// `new`/`add`/`build` (combines the parsed globs into one matcher,
    /// succeeding as a function of the pattern list alone).  Patterns are
    /// tried in order, so a pattern failure reports the first invalid one;
    /// `GlobError::Combine` is the builder's own failure.
    #[verifier::external_body]
    pub fn compile(patterns: &Vec<String>) -> (r: Result<IgnoreSet, GlobError>)
        ensures
            r is Ok ==> (forall|i: int|
                0 <= i < patterns@.len() ==> glob_ok(#[trigger] patterns@[i]@))
                && glob_set_ok(patterns.deep_view()),
            r is Ok ==> r->Ok_0.globs() == patterns.deep_view(),
            r matches Err(GlobError::Pattern(i)) ==> i < patterns@.len() && !glob_ok(
                patterns@[i as int]@,
            ) && (forall|j: int| 0 <= j < i ==> glob_ok(#[trigger] patterns@[j]@)),
            r matches Err(GlobError::Combine) ==> (forall|i: int|
                0 <= i < patterns@.len() ==> glob_ok(#[trigger] patterns@[i]@))
                && !glob_set_ok(patterns.deep_view()),
    {
        let mut builder = globset::GlobSetBuilder::new();
        for (i, pattern) in patterns.iter().enumerate() {
            match globset::Glob::new(pattern) {
                Ok(glob) => {
                    builder.add(glob);
                },
                Err(_) => {
                    return Err(GlobError::Pattern(i));
                },
            }
        }
        match builder.build() {
            Ok(set) => Ok(IgnoreSet { set, patterns: patterns.clone() }),
            Err(_) => Err(GlobError::Combine),
        }
    }

    /// Relies on `globset::GlobSet::is_match`: true exactly when at least one
    /// glob of the set matches the path.
    #[verifier::external_body]
    pub fn is_match(&self, path: &str) -> (r: bool)
        ensures
            r == (exists|i: int|
                0 <= i < self.globs().len() && glob_matches(#[trigger] self.globs()[i], path@)),
            r == ignored_by(self.globs(), path@),
    {
        self.set.is_match(path)
    }
}

} // verus!
