//! The ignore/configuration file: a line-oriented format whose recognized
//! `key=value` lines set boolean toggles or the sort mode, and whose other
//! non-blank, non-comment lines are ignore-glob patterns appended after the
//! built-in defaults.

use vstd::prelude::*;
use vstd::string::*;
use crate::patterns::{glob_ok, glob_set_ok, GlobError, IgnoreSet};
use crate::text::{
    chars_eq_str, chars_to_string, find_char, find_char_spec, lower_chars, lower_spec, str_to_chars,
    sub_chars, trim_chars, trim_spec,
};

verus! {

/// The two orderings of the final candidate list.
#[derive(Debug, Clone, Copy, PartialEq, Eq, Structural)]
pub enum SortMode {
    Depth,
    Alphabetical,
}

/// Why a configuration could not be used.
#[derive(Debug, Clone)]
pub enum ConfigError {
    /// A recognized `key=value` line carried a value that does not parse.
    InvalidValue { key: String, value: String },
    /// An ignore-glob pattern was rejected by the glob engine.
    InvalidGlob { pattern: String },
    /// The individually valid patterns could not be combined into one set.
    GlobSetFailed,
}

/// The resolved configuration of one search invocation.
pub struct Settings {
    pub include_hidden: bool,
    pub include_mounts: bool,
    pub include_symlinks: bool,
    pub sort_mode: SortMode,
    /// All ignore globs: built-in defaults first, then the configured ones.
    pub globs: Vec<String>,
    /// The compiled union of `globs`.
    pub ignore: IgnoreSet,
}

/// The ignore set always holds exactly the patterns of `globs`.
pub open spec fn settings_wf(s: &Settings) -> bool {
    s.ignore.globs() == s.globs.deep_view()
}

/// The boolean-toggle values and sort mode of a configuration, with the
/// configured glob list.
pub struct ConfigModel {
    pub hidden: bool,
    pub mounts: bool,
    pub symlinks: bool,
    pub mode: SortMode,
    pub globs: Seq<Seq<char>>,
}

pub open spec fn default_globs_spec() -> Seq<Seq<char>> {
    seq![".git/**"@, "node_modukes/**"@]
}

/// The configuration before any file line is applied: every toggle off,
/// depth ordering, only the built-in ignore globs.
pub open spec fn initial_config() -> ConfigModel {
    ConfigModel {
        hidden: false,
        mounts: false,
        symlinks: false,
        mode: SortMode::Depth,
        globs: default_globs_spec(),
    }
}

/// Accepted boolean spellings, case-insensitively: `true/1/yes/on` and
/// `false/0/no/off`.
pub open spec fn parse_bool_spec(v: Seq<char>) -> Option<bool> {
    let t = lower_spec(trim_spec(v));
    if t == "true"@ || t == "1"@ || t == "yes"@ || t == "on"@ {
        Some(true)
    } else if t == "false"@ || t == "0"@ || t == "no"@ || t == "off"@ {
        Some(false)
    } else {
        None
    }
}

/// Accepted sort modes, case-insensitively: `depth` and `alphabetical`.
pub open spec fn parse_sort_mode_spec(v: Seq<char>) -> Option<SortMode> {
    let t = lower_spec(trim_spec(v));
    if t == "depth"@ {
        Some(SortMode::Depth)
    } else if t == "alphabetical"@ {
        Some(SortMode::Alphabetical)
    } else {
        None
    }
}

/// One carriage return is dropped from the end of a line that was terminated
/// by a line feed.
pub open spec fn strip_cr(l: Seq<char>) -> Seq<char> {
    if l.len() > 0 && l.last() == '\r' {
        l.drop_last()
    } else {
        l
    }
}

pub open spec fn split_lines_from(s: Seq<char>, from: int) -> Seq<Seq<char>>
    decreases s.len() - from,
    via split_lines_from_decreases
{
    if from < 0 || from >= s.len() {
        Seq::empty()
    } else {
        let i = find_char_spec(s, '\n', from);
        if i == s.len() {
            seq![s.subrange(from, i)]
        } else {
            seq![strip_cr(s.subrange(from, i))] + split_lines_from(s, i + 1)
        }
    }
}

#[via_fn]
proof fn split_lines_from_decreases(s: Seq<char>, from: int) {
    if 0 <= from < s.len() {
        crate::text::lemma_find_char(s, '\n', from);
    }
}

/// The lines of a text, split at line feeds, without their terminators.
pub open spec fn split_lines(s: Seq<char>) -> Seq<Seq<char>> {
    split_lines_from(s, 0)
}

/// The effect of one configuration line on the accumulated configuration:
/// blank and `#` lines change nothing; a recognized key consumes the line as
/// a typed setting or fails with that key and value; anything else is an
/// appended ignore glob.
pub open spec fn apply_line(m: ConfigModel, l: Seq<char>) -> Result<
    ConfigModel,
    (Seq<char>, Seq<char>),
> {
    let t = trim_spec(l);
    if t.len() == 0 || t[0] == '#' {
        Ok(m)
    } else {
        let eq = find_char_spec(t, '=', 0);
        if eq < t.len() {
            let key = lower_spec(trim_spec(t.take(eq)));
            let value = trim_spec(t.skip(eq + 1));
            if key == "include_hidden"@ {
                match parse_bool_spec(value) {
                    Some(b) => Ok(ConfigModel { hidden: b, ..m }),
                    None => Err((key, value)),
                }
            } else if key == "include_mounts"@ {
                match parse_bool_spec(value) {
                    Some(b) => Ok(ConfigModel { mounts: b, ..m }),
                    None => Err((key, value)),
                }
            } else if key == "include_symlinks"@ {
                match parse_bool_spec(value) {
                    Some(b) => Ok(ConfigModel { symlinks: b, ..m }),
                    None => Err((key, value)),
                }
            } else if key == "sort_mode"@ {
                match parse_sort_mode_spec(value) {
                    Some(sm) => Ok(ConfigModel { mode: sm, ..m }),
                    None => Err((key, value)),
                }
            } else {
                Ok(ConfigModel { globs: m.globs.push(t), ..m })
            }
        } else {
            Ok(ConfigModel { globs: m.globs.push(t), ..m })
        }
    }
}

pub open spec fn fold_lines(m: ConfigModel, lines: Seq<Seq<char>>) -> Result<
    ConfigModel,
    (Seq<char>, Seq<char>),
>
    decreases lines.len(),
{
    if lines.len() == 0 {
        Ok(m)
    } else {
        match apply_line(m, lines[0]) {
            Ok(m2) => fold_lines(m2, lines.drop_first()),
            Err(e) => Err(e),
        }
    }
}

/// The configuration denoted by a file's text, before glob compilation.
pub open spec fn config_of(content: Seq<char>) -> Result<ConfigModel, (Seq<char>, Seq<char>)> {
    fold_lines(initial_config(), split_lines(content))
}

pub fn parse_bool_setting(value: &str) -> (r: Option<bool>)
    ensures
        r == parse_bool_spec(value@),
{
    let chars = str_to_chars(value);
    let t = lower_chars(&trim_chars(&chars));
    if chars_eq_str(&t, "true") || chars_eq_str(&t, "1") || chars_eq_str(&t, "yes") || chars_eq_str(
        &t,
        "on",
    ) {
        Some(true)
    } else if chars_eq_str(&t, "false") || chars_eq_str(&t, "0") || chars_eq_str(&t, "no")
        || chars_eq_str(&t, "off") {
        Some(false)
    } else {
        None
    }
}

pub fn parse_sort_mode_setting(value: &str) -> (r: Option<SortMode>)
    ensures
        r == parse_sort_mode_spec(value@),
{
    let chars = str_to_chars(value);
    let t = lower_chars(&trim_chars(&chars));
    if chars_eq_str(&t, "depth") {
        Some(SortMode::Depth)
    } else if chars_eq_str(&t, "alphabetical") {
        Some(SortMode::Alphabetical)
    } else {
        None
    }
}

/// The built-in ignore globs that precede every configured pattern.
pub fn default_globs() -> (r: Vec<String>)
    ensures
        r.deep_view() == default_globs_spec(),
{
    let mut r: Vec<String> = Vec::new();
    r.push(String::from_str(".git/**"));
    r.push(String::from_str("node_modukes/**"));
    assert(r.deep_view() =~~= default_globs_spec());
    r
}

pub(crate) fn split_lines_exec(v: &Vec<char>) -> (r: Vec<Vec<char>>)
    ensures
        r.deep_view() == split_lines(v@),
{
    let mut out: Vec<Vec<char>> = Vec::new();
    let mut from: usize = 0;
    while from < v.len()
        invariant
            from <= v@.len(),
            split_lines(v@) == out.deep_view() + split_lines_from(v@, from as int),
        decreases v@.len() - from,
    {
        let ghost out0 = out.deep_view();
        let i = find_char(v, '\n', from);
        proof {
            crate::text::lemma_find_char(v@, '\n', from as int);
        }
        if i == v.len() {
            let line = sub_chars(v, from, i);
            out.push(line);
            proof {
                assert(out.deep_view() =~~= out0 + split_lines_from(v@, from as int));
            }
            from = i;
        } else {
            let mut line = sub_chars(v, from, i);
            if line.len() > 0 && line[line.len() - 1] == '\r' {
                line.pop();
            }
            assert(line@ == strip_cr(v@.subrange(from as int, i as int))) by {
                if v@.subrange(from as int, i as int).len() > 0 && v@.subrange(
                    from as int,
                    i as int,
                ).last() == '\r' {
                    assert(line@ =~= v@.subrange(from as int, i as int).drop_last());
                }
            }
            out.push(line);
            proof {
                assert(out.deep_view() =~~= out0 + seq![strip_cr(v@.subrange(from as int, i as int))]);
                assert(out0 + split_lines_from(v@, from as int) =~~= out.deep_view()
                    + split_lines_from(v@, i + 1));
            }
            from = i + 1;
        }
    }
    assert(split_lines_from(v@, from as int) =~~= Seq::<Seq<char>>::empty());
    assert(out.deep_view() =~~= split_lines(v@));
    out
}

/// Parses the text of a configuration file into settings: the defaults,
/// overlaid with every recognized `key=value` line in order, with every
/// other non-blank, non-comment line appended as an ignore glob, and the
/// whole glob list compiled into one matcher.
pub fn parse_settings(content: &str) -> (r: Result<Settings, ConfigError>)
    ensures
        r matches Ok(s) ==> {
            &&& config_of(content@) matches Ok(m)
            &&& s.include_hidden == m.hidden
            &&& s.include_mounts == m.mounts
            &&& s.include_symlinks == m.symlinks
            &&& s.sort_mode == m.mode
            &&& s.globs.deep_view() == m.globs
            &&& settings_wf(&s)
            &&& forall|i: int| 0 <= i < m.globs.len() ==> glob_ok(#[trigger] m.globs[i])
        },
        config_of(content@) matches Err(e) ==> (r matches Err(ConfigError::InvalidValue {
            key,
            value,
        }) && key@ == e.0 && value@ == e.1),
        r matches Err(ConfigError::InvalidValue { key, value }) ==> (config_of(content@) matches
            Err(e) && key@ == e.0 && value@ == e.1),
        config_of(content@) matches Ok(m) && (exists|i: int|
            0 <= i < m.globs.len() && !glob_ok(#[trigger] m.globs[i])) ==> r is Err,
        r matches Err(ConfigError::InvalidGlob { pattern }) ==> (config_of(content@) matches Ok(m)
            && exists|i: int|
            {
                &&& 0 <= i < m.globs.len()
                &&& pattern@ == m.globs[i]
                &&& !glob_ok(m.globs[i])
                &&& forall|j: int| 0 <= j < i ==> glob_ok(#[trigger] m.globs[j])
            }),
        r matches Err(ConfigError::GlobSetFailed) ==> (config_of(content@) matches Ok(m) && (forall|
            i: int,
        |
            0 <= i < m.globs.len() ==> glob_ok(#[trigger] m.globs[i])) && !glob_set_ok(m.globs)),
        config_of(content@) matches Ok(m) && (forall|i: int|
            0 <= i < m.globs.len() ==> glob_ok(#[trigger] m.globs[i])) && glob_set_ok(m.globs)
            ==> r is Ok,
{
    let chars = str_to_chars(content);
    let lines = split_lines_exec(&chars);

    let mut hidden = false;
    let mut mounts = false;
    let mut symlinks = false;
    let mut mode = SortMode::Depth;
    let mut globs: Vec<String> = default_globs();

    let ghost lines_v = lines.deep_view();
    proof {
        assert(lines_v.skip(0) =~= lines_v);
        assert(ConfigModel { hidden: false, mounts: false, symlinks: false, mode: SortMode::Depth, globs: globs.deep_view() } == initial_config());
    }
    let mut li: usize = 0;
    while li < lines.len()
        invariant
            li <= lines@.len(),
            lines_v == lines.deep_view(),
            lines_v == split_lines(chars@),
            chars@ == content@,
            fold_lines(initial_config(), lines_v) == fold_lines(
                ConfigModel { hidden, mounts, symlinks, mode, globs: globs.deep_view() },
                lines_v.skip(li as int),
            ),
        decreases lines@.len() - li,
    {
        let ghost m0 = ConfigModel { hidden, mounts, symlinks, mode, globs: globs.deep_view() };
        proof {
            assert(lines_v.skip(li as int).len() > 0);
            assert(lines_v.skip(li as int)[0] == lines_v[li as int]);
            assert(lines_v.skip(li as int).drop_first() =~= lines_v.skip(li + 1));
        }
        let line = &lines[li];
        assert(line@ == lines_v[li as int]);
        let ghost lv = lines_v[li as int];
        let t = trim_chars(line);
        if t.len() == 0 || t[0] == '#' {
            assert(apply_line(m0, lv) == Ok::<ConfigModel, (Seq<char>, Seq<char>)>(m0));
        } else {
            let eq = find_char(&t, '=', 0);
            proof {
                crate::text::lemma_find_char(t@, '=', 0);
            }
            let mut consumed = false;
            if eq < t.len() {
                let key = lower_chars(&trim_chars(&sub_chars(&t, 0, eq)));
                let value_chars = sub_chars(&t, eq + 1, t.len());
                proof {
                    assert(t@.take(eq as int) =~= t@.subrange(0, eq as int));
                    assert(t@.skip(eq + 1) =~= t@.subrange(eq + 1, t@.len() as int));
                }
                let ghost key_s = lower_spec(trim_spec(t@.take(eq as int)));
                let ghost value_s = trim_spec(t@.skip(eq + 1));
                assert(key@ == key_s);
                if chars_eq_str(&key, "include_hidden") {
                    let value = chars_to_string(&trim_chars(&value_chars));
                    assert(value@ == value_s);
                    match parse_bool_setting(value.as_str()) {
                        Some(b) => {
                            hidden = b;
                        },
                        None => {
                            proof {
                                lemma_fold_err(lines_v, li as int, m0, (key_s, value_s));
                            }
                            return Err(
                                ConfigError::InvalidValue { key: chars_to_string(&key), value },
                            );
                        },
                    }
                    consumed = true;
                } else if chars_eq_str(&key, "include_mounts") {
                    let value = chars_to_string(&trim_chars(&value_chars));
                    assert(value@ == value_s);
                    match parse_bool_setting(value.as_str()) {
                        Some(b) => {
                            mounts = b;
                        },
                        None => {
                            proof {
                                lemma_fold_err(lines_v, li as int, m0, (key_s, value_s));
                            }
                            return Err(
                                ConfigError::InvalidValue { key: chars_to_string(&key), value },
                            );
                        },
                    }
                    consumed = true;
                } else if chars_eq_str(&key, "include_symlinks") {
                    let value = chars_to_string(&trim_chars(&value_chars));
                    assert(value@ == value_s);
                    match parse_bool_setting(value.as_str()) {
                        Some(b) => {
                            symlinks = b;
                        },
                        None => {
                            proof {
                                lemma_fold_err(lines_v, li as int, m0, (key_s, value_s));
                            }
                            return Err(
                                ConfigError::InvalidValue { key: chars_to_string(&key), value },
                            );
                        },
                    }
                    consumed = true;
                } else if chars_eq_str(&key, "sort_mode") {
                    let value = chars_to_string(&trim_chars(&value_chars));
                    assert(value@ == value_s);
                    match parse_sort_mode_setting(value.as_str()) {
                        Some(sm) => {
                            mode = sm;
                        },
                        None => {
                            proof {
                                lemma_fold_err(lines_v, li as int, m0, (key_s, value_s));
                            }
                            return Err(
                                ConfigError::InvalidValue { key: chars_to_string(&key), value },
                            );
                        },
                    }
                    consumed = true;
                }
            }
            if !consumed {
                let pattern = chars_to_string(&t);
                globs.push(pattern);
                assert(globs.deep_view() =~~= m0.globs.push(t@));
            }
        }
        proof {
            let m1 = ConfigModel { hidden, mounts, symlinks, mode, globs: globs.deep_view() };
            assert(apply_line(m0, lv) == Ok::<ConfigModel, (Seq<char>, Seq<char>)>(m1));
        }
        li = li + 1;
    }
    assert(lines_v.skip(lines_v.len() as int) =~= Seq::<Seq<char>>::empty());
    let ghost m = ConfigModel { hidden, mounts, symlinks, mode, globs: globs.deep_view() };
    assert(config_of(content@) == Ok::<ConfigModel, (Seq<char>, Seq<char>)>(m));

    match IgnoreSet::compile(&globs) {
        Ok(ignore) => Ok(
            Settings {
                include_hidden: hidden,
                include_mounts: mounts,
                include_symlinks: symlinks,
                sort_mode: mode,
                globs,
                ignore,
            },
        ),
        Err(GlobError::Pattern(i)) => {
            let pattern = globs[i].clone();
            assert(pattern@ == m.globs[i as int]);
            Err(ConfigError::InvalidGlob { pattern })
        },
        Err(GlobError::Combine) => Err(ConfigError::GlobSetFailed),
    }
}

proof fn lemma_fold_err(lines: Seq<Seq<char>>, li: int, m0: ConfigModel, e: (Seq<char>, Seq<char>))
    requires
        0 <= li < lines.len(),
        fold_lines(initial_config(), lines) == fold_lines(m0, lines.skip(li)),
        apply_line(m0, lines[li]) == Err::<ConfigModel, (Seq<char>, Seq<char>)>(e),
    ensures
        fold_lines(initial_config(), lines) == Err::<ConfigModel, (Seq<char>, Seq<char>)>(e),
{
    assert(lines.skip(li).len() > 0);
    assert(lines.skip(li)[0] == lines[li]);
}

} // verus!
