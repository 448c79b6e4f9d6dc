//! Which of the directories that a user names are recorded as visited.

use crate::db::{index_of, law_visit, lemma_index_of, visited, Database};
use crate::dir::{DirView, Epoch};
use crate::globs::{glob_matches, pattern_matches, pattern_text};
use crate::text::{breaks_line, has_line_break, joined};
use glob::Pattern;
use vstd::prelude::*;
use vstd::string::*;

verus! {

/// What became of a path that was to be recorded.
#[derive(Clone, Copy, Debug, PartialEq, Eq, Structural)]
pub enum Outcome {
    /// It is left out: it cannot stand in a line of its own, or it is one
    /// of the excluded directories.
    Skipped,
    /// It is recorded.
    Added,
}

/// A path that is no directory: the path.
#[derive(Debug)]
pub struct NotADirectory(pub String);

impl NotADirectory {
    /// The message for a user, in one line.
    pub open spec fn text(self) -> Seq<char> {
        "not a directory: "@ + self.0@
    }

    /// The message for a user, in one line.
    pub fn message(&self) -> (line: String)
        ensures
            line@ == self.text(),
    {
        joined("not a directory: ", self.0.as_str())
    }
}

/// Whether a path is left out: it holds a character that ends a line, or
/// one of the patterns matches it.
pub open spec fn excluded(path: Seq<char>, exclude_dirs: Seq<Pattern>) -> bool {
    breaks_line(path) || exists|i: int|
        0 <= i < exclude_dirs.len() && pattern_matches(
            pattern_text(#[trigger] exclude_dirs[i]),
            path,
        )
}

/// Whether every path in the list can stand in a line of its own: none
/// holds a character that ends a line.
pub open spec fn fit_for_lines(dirs: Seq<DirView>) -> bool {
    forall|i: int| 0 <= i < dirs.len() ==> !breaks_line((#[trigger] dirs[i]).path)
}

/// Whether a path is left out.
pub fn is_excluded(path: &str, exclude_dirs: &Vec<Pattern>) -> (out: bool)
    ensures
        out == excluded(path@, exclude_dirs@),
{
    if has_line_break(path) {
        return true;
    }
    let mut i: usize = 0;
    while i < exclude_dirs.len()
        invariant
            i <= exclude_dirs@.len(),
            !breaks_line(path@),
            forall|k: int|
                0 <= k < i ==> !pattern_matches(pattern_text(#[trigger] exclude_dirs@[k]), path@),
        decreases exclude_dirs@.len() - i,
    {
        if glob_matches(&exclude_dirs[i], path) {
            return true;
        }
        i += 1;
    }
    false
}

/// Records a visit to `path` at time `now`, unless the path is left out;
/// `is_dir` says whether the path is a directory. A path that is neither
/// left out nor a directory is an error, and the index stays as it is.
pub fn add_path(
    db: &mut Database,
    path: &str,
    is_dir: bool,
    exclude_dirs: &Vec<Pattern>,
    now: Epoch,
) -> (outcome: Result<Outcome, NotADirectory>)
    ensures
        excluded(path@, exclude_dirs@) ==> outcome == Ok::<Outcome, NotADirectory>(
            Outcome::Skipped,
        ) && *final(db) == *old(db),
        !excluded(path@, exclude_dirs@) && !is_dir ==> outcome is Err && outcome->Err_0.0@
            == path@ && *final(db) == *old(db),
        !excluded(path@, exclude_dirs@) && is_dir ==> outcome == Ok::<Outcome, NotADirectory>(
            Outcome::Added,
        ) && final(db)@.modified && final(db)@.dirs == visited(old(db)@.dirs, path@, now),
        fit_for_lines(old(db)@.dirs) ==> fit_for_lines(final(db)@.dirs),
{
    if is_excluded(path, exclude_dirs) {
        return Ok(Outcome::Skipped);
    }
    if !is_dir {
        return Err(NotADirectory(String::from_str(path)));
    }
    db.add(path, now);
    proof {
        law_visit(old(db)@.dirs, path@, now);
        lemma_index_of(old(db)@.dirs, path@);
        if fit_for_lines(old(db)@.dirs) {
            let at = index_of(old(db)@.dirs, path@);
            assert forall|i: int| 0 <= i < db@.dirs.len() implies !breaks_line(
                (#[trigger] db@.dirs[i]).path,
            ) by {
                if i != at {
                    assert(i < old(db)@.dirs.len());
                    assert(db@.dirs[i] == old(db)@.dirs[i]);
                }
            }
        }
    }
    Ok(Outcome::Added)
}

} // verus!
