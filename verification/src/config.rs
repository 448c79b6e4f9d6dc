//! The settings of an invocation, worked out from what the environment
//! holds.

use crate::db::Ceiling;
use crate::dir::RANK_ONE;
use crate::globs::{escaped, glob_escape, glob_new, is_pattern, pattern_text};
use crate::text::{joined, number_of, parse_u64};
use glob::Pattern;
use vstd::prelude::*;
use vstd::string::*;

verus! {

/// The name of the directory that holds the index, below the directory for
/// local data.
pub const DATA_DIR_NAME: &'static str = "zoxide";

/// The ceiling for the sum of the ranks where none is set, in visits.
pub const DEFAULT_MAX_AGE: u64 = 10_000;

/// What the environment holds under a name.
#[derive(Debug)]
pub enum Setting {
    /// Nothing.
    Unset,
    /// Something that is not Unicode text.
    NotUnicode,
    /// A text.
    Text(String),
}

/// Why the settings could not be worked out.
#[derive(Debug)]
pub enum ConfigError {
    /// No directory for the index is set, and none for local data is known.
    NoDataDir,
    /// The ceiling for the ranks is not Unicode text.
    MaxAgeNotUnicode,
    /// The ceiling for the ranks is not a number: the text that is set.
    MaxAgeNotInteger(String),
    /// One of the excluded directories is not Unicode text.
    ExcludeNotUnicode,
    /// One of the excluded directories is not a pattern: its text.
    ExcludeNotPattern(String),
}

impl ConfigError {
    /// The message for a user, in one line.
    pub open spec fn text(self) -> Seq<char> {
        match self {
            ConfigError::NoDataDir =>
                "could not find data directory, please set _ZO_DATA_DIR manually"@,
            ConfigError::MaxAgeNotUnicode => "invalid unicode in _ZO_MAXAGE"@,
            ConfigError::MaxAgeNotInteger(found) => "unable to parse _ZO_MAXAGE as integer: "@
                + found@,
            ConfigError::ExcludeNotUnicode => "invalid unicode in _ZO_EXCLUDE_DIRS"@,
            ConfigError::ExcludeNotPattern(found) => "invalid glob in _ZO_EXCLUDE_DIRS: "@
                + found@,
        }
    }

    /// The message for a user, in one line.
    pub fn message(&self) -> (line: String)
        ensures
            line@ == self.text(),
    {
        match self {
            ConfigError::NoDataDir => String::from_str(
                "could not find data directory, please set _ZO_DATA_DIR manually",
            ),
            ConfigError::MaxAgeNotUnicode => String::from_str("invalid unicode in _ZO_MAXAGE"),
            ConfigError::MaxAgeNotInteger(found) => joined(
                "unable to parse _ZO_MAXAGE as integer: ",
                found.as_str(),
            ),
            ConfigError::ExcludeNotUnicode => String::from_str(
                "invalid unicode in _ZO_EXCLUDE_DIRS",
            ),
            ConfigError::ExcludeNotPattern(found) => joined(
                "invalid glob in _ZO_EXCLUDE_DIRS: ",
                found.as_str(),
            ),
        }
    }

    /// Whether this is the error for the ceiling set to `text`.
    pub open spec fn is_max_age_not_integer(self, text: Seq<char>) -> bool {
        match self {
            ConfigError::MaxAgeNotInteger(found) => found@ == text,
            _ => false,
        }
    }

    /// Whether this is the error for an entry of the excluded directories
    /// that cannot be used.
    pub open spec fn is_for_entry(self, entry: Option<String>) -> bool {
        match entry {
            Some(text) => match self {
                ConfigError::ExcludeNotPattern(found) => found@ == text@,
                _ => false,
            },
            None => self is ExcludeNotUnicode,
        }
    }
}

/// The ceiling that a number of visits is, in the units of a rank.
pub open spec fn rank_of_visits(visits: u64) -> Ceiling {
    (visits * RANK_ONE) as Ceiling
}

/// Whether an entry of the excluded directories can be used: it is a text,
/// and the text is a pattern.
pub open spec fn is_usable(entry: Option<String>) -> bool {
    match entry {
        Some(text) => is_pattern(text@),
        None => false,
    }
}

/// Whether the entry at the place `at` is the first that cannot be used.
pub open spec fn is_first_unusable(entries: Seq<Option<String>>, at: int) -> bool {
    &&& 0 <= at < entries.len()
    &&& !is_usable(entries[at])
    &&& forall|i: int| 0 <= i < at ==> is_usable(#[trigger] entries[i])
}

/// Whether a pattern was compiled from the text of an entry.
pub open spec fn is_compiled_from(pattern: Pattern, entry: Option<String>) -> bool {
    match entry {
        Some(text) => pattern_text(pattern) == text@,
        None => false,
    }
}

/// The ceiling that a number of visits is, in the units of a rank.
pub fn rank_for(visits: u64) -> (ceiling: Ceiling)
    ensures
        ceiling == rank_of_visits(visits),
{
    visits as Ceiling * (RANK_ONE as Ceiling)
}

/// Where the index is kept, for a path type `P`.
#[derive(Debug)]
pub enum DataDir<P> {
    /// In this directory.
    At(P),
    /// In the directory `DATA_DIR_NAME` below this one.
    Below(P),
}

/// The directory that holds the index: the one that is set; where none is
/// set, the directory `DATA_DIR_NAME` below the one for local data.
pub fn data_dir<P>(set: Option<P>, local: Option<P>) -> (dir: Result<DataDir<P>, ConfigError>)
    ensures
        set is Some ==> dir == Ok::<DataDir<P>, ConfigError>(DataDir::At(set->0)),
        set is None && local is Some ==> dir == Ok::<DataDir<P>, ConfigError>(
            DataDir::Below(local->0),
        ),
        set is None && local is None ==> dir is Err && dir->Err_0 is NoDataDir,
{
    match set {
        Some(path) => Ok(DataDir::At(path)),
        None => match local {
            Some(path) => Ok(DataDir::Below(path)),
            None => Err(ConfigError::NoDataDir),
        },
    }
}

/// Whether a switch is on: it is, where it is set to `1`.
pub fn is_on(set: Option<&str>) -> (on: bool)
    ensures
        on == (set is Some && set->0@ == seq!['1']),
{
    proof {
        reveal_strlit("1");
        assert("1"@ =~= seq!['1']);
    }
    match set {
        Some(text) => crate::text::same_text(text, "1"),
        None => false,
    }
}

/// Whether the directory that was chosen is printed before the jump.
pub fn echo(set: Option<&str>) -> (on: bool)
    ensures
        on == (set is Some && set->0@ == seq!['1']),
{
    is_on(set)
}

/// Whether symbolic links in a path are resolved before the path is stored.
pub fn resolve_symlinks(set: Option<&str>) -> (on: bool)
    ensures
        on == (set is Some && set->0@ == seq!['1']),
{
    is_on(set)
}

/// The ceiling for the sum of the ranks: `DEFAULT_MAX_AGE` visits where
/// none is set, else the number of visits that is set.
pub fn maxage(set: &Setting) -> (ceiling: Result<Ceiling, ConfigError>)
    ensures
        match *set {
            Setting::Unset => ceiling == Ok::<Ceiling, ConfigError>(rank_of_visits(DEFAULT_MAX_AGE)),
            Setting::NotUnicode => ceiling is Err && ceiling->Err_0 is MaxAgeNotUnicode,
            Setting::Text(text) => match number_of(text@) {
                Some(visits) => ceiling == Ok::<Ceiling, ConfigError>(rank_of_visits(visits)),
                None => ceiling is Err && ceiling->Err_0.is_max_age_not_integer(text@),
            },
        },
{
    match set {
        Setting::Unset => Ok(rank_for(DEFAULT_MAX_AGE)),
        Setting::NotUnicode => Err(ConfigError::MaxAgeNotUnicode),
        Setting::Text(text) => match parse_u64(text.as_str()) {
            Some(visits) => Ok(rank_for(visits)),
            None => Err(ConfigError::MaxAgeNotInteger(text.clone())),
        },
    }
}

/// The patterns of the directories that are not tracked.
///
/// Where a list is set, these are its entries, each of them a text or, where
/// it is not Unicode, nothing; the first entry that is not a text or not a
/// pattern is an error. Where no list is set, it is the home directory, taken
/// literally, if there is one and it is Unicode.
pub fn exclude_dirs(listed: Option<&Vec<Option<String>>>, home: Option<&str>) -> (patterns: Result<
    Vec<Pattern>,
    ConfigError,
>)
    ensures
        listed is Some ==> (patterns is Ok <==> forall|i: int|
            0 <= i < listed->0@.len() ==> is_usable(#[trigger] listed->0@[i])),
        listed is Some && patterns is Ok ==> patterns->Ok_0@.len() == listed->0@.len(),
        listed is Some && patterns is Ok ==> forall|i: int|
            0 <= i < listed->0@.len() ==> is_compiled_from(
                patterns->Ok_0@[i],
                #[trigger] listed->0@[i],
            ),
        listed is Some && patterns is Err ==> exists|at: int| #[trigger]
            is_first_unusable(listed->0@, at) && patterns->Err_0.is_for_entry(listed->0@[at]),
        listed is None ==> patterns is Ok && (if home is Some && is_pattern(escaped(home->0@)) {
            patterns->Ok_0@.len() == 1 && pattern_text(patterns->Ok_0@[0]) == escaped(home->0@)
        } else {
            patterns->Ok_0@.len() == 0
        }),
{
    let mut patterns: Vec<Pattern> = Vec::new();
    match listed {
        Some(entries) => {
            let mut i: usize = 0;
            while i < entries.len()
                invariant
                    listed == Some(entries),
                    i <= entries@.len(),
                    patterns@.len() == i,
                    forall|k: int| 0 <= k < i ==> is_usable(#[trigger] entries@[k]),
                    forall|k: int|
                        0 <= k < i ==> is_compiled_from(patterns@[k], #[trigger] entries@[k]),
                decreases entries@.len() - i,
            {
                match &entries[i] {
                    Some(text) => match glob_new(text.as_str()) {
                        Ok(pattern) => {
                            patterns.push(pattern);
                        },
                        Err(_) => {
                            let error = ConfigError::ExcludeNotPattern(text.clone());
                            assert(listed->0@ == entries@);
                            assert(is_first_unusable(entries@, i as int) && error.is_for_entry(
                                entries@[i as int],
                            ));
                            return Err(error);
                        },
                    },
                    None => {
                        let error = ConfigError::ExcludeNotUnicode;
                        assert(listed->0@ == entries@);
                        assert(is_first_unusable(entries@, i as int) && error.is_for_entry(
                            entries@[i as int],
                        ));
                        return Err(error);
                    },
                }
                i += 1;
            }
            Ok(patterns)
        },
        None => {
            if let Some(home) = home {
                let literal = glob_escape(home);
                if let Ok(pattern) = glob_new(literal.as_str()) {
                    patterns.push(pattern);
                }
            }
            Ok(patterns)
        },
    }
}

} // verus!
