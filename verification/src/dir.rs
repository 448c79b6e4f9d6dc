//! One tracked directory, the list of them, and the score of an entry.

use crate::text::{decimal, decimal_string};
use std::borrow::Cow;
use std::ops::{Deref, DerefMut};
use vstd::prelude::*;
use vstd::std_specs::convert::FromSpecImpl;
use vstd::string::*;

verus! {

/// The weight of a directory, in fixed point: `RANK_ONE` units are one
/// visit, so that the parts of a visit that aging leaves have a place. In a
/// stored entry the rank stands as a double that counts visits.
pub type Rank = u64;

/// Seconds since the epoch.
pub type Epoch = u64;

/// A rank weighted by recency, in quarters of the units of a `Rank`, so
/// that a quarter of every rank has a place: `SCORE_ONE` is the score of one
/// visit, counted once.
pub type Score = u128;

/// The rank that one visit adds.
pub const RANK_ONE: Rank = 1_048_576;

/// The score of one visit, counted once.
pub const SCORE_ONE: Score = 4_194_304;

/// The seconds of an hour.
pub const HOUR: Epoch = 3_600;

/// The seconds of a day.
pub const DAY: Epoch = 86_400;

/// The seconds of a week.
pub const WEEK: Epoch = 604_800;

/// The highest score that a display line shows.
pub const MAX_DISPLAY_SCORE: u32 = 9_999;

/// One tracked directory.
#[derive(Debug)]
pub struct Dir<'a> {
    pub path: Cow<'a, str>,
    pub rank: Rank,
    pub last_accessed: Epoch,
}

/// What a `Dir` stands for in contracts.
pub struct DirView {
    pub path: Seq<char>,
    pub rank: Rank,
    pub last_accessed: Epoch,
}

impl<'a> View for Dir<'a> {
    type V = DirView;

    open spec fn view(&self) -> DirView {
        DirView { path: self.path@, rank: self.rank, last_accessed: self.last_accessed }
    }
}

/// The seconds that lie between the last visit and `now`; none if the visit
/// is later than `now`.
pub open spec fn elapsed(last_accessed: Epoch, now: Epoch) -> int {
    if now >= last_accessed {
        now - last_accessed
    } else {
        0
    }
}

/// The score of a rank whose last visit is `age` seconds old: four times the
/// rank within the hour, twice within the day, half of it within the week and
/// a quarter after that. The score counts quarters of a unit, so these are
/// sixteen, eight, two and one for every unit of the rank.
pub open spec fn score_at(rank: Rank, age: int) -> int {
    if age < HOUR {
        rank * 16
    } else if age < DAY {
        rank * 8
    } else if age < WEEK {
        rank * 2
    } else {
        rank * 1
    }
}

/// The score of a rank that is not zero drops with every boundary that the
/// age of the last visit crosses: the hour, the day and the week.
pub proof fn law_score_drops_at_boundaries(rank: Rank, younger: int, older: int)
    requires
        rank > 0,
        younger < HOUR <= older || younger < DAY <= older || younger < WEEK <= older,
    ensures
        score_at(rank, younger) > score_at(rank, older),
{
}

/// A score is nothing where the rank is nothing, and nowhere else; it is
/// never less than a quarter of the rank, which is the rank counted once.
pub proof fn law_score_of_no_rank(rank: Rank, age: int)
    ensures
        score_at(rank, age) == 0 <==> rank == 0,
        score_at(rank, age) >= rank,
{
}

/// The older the last visit, the lower the score of a rank, or the same.
pub proof fn law_score_falls_with_age(rank: Rank, younger: int, older: int)
    requires
        younger <= older,
    ensures
        score_at(rank, younger) >= score_at(rank, older),
{
}

/// As time goes by without a visit, the score of an entry falls or stays.
pub proof fn law_score_falls_with_time(dir: DirView, sooner: Epoch, later: Epoch)
    requires
        sooner <= later,
    ensures
        dir.score(sooner) >= dir.score(later),
{
}

impl DirView {
    /// The score of the entry at time `now`.
    pub open spec fn score(self, now: Epoch) -> int {
        score_at(self.rank, elapsed(self.last_accessed, now))
    }

    /// The score as a display line shows it: whole visits, at most
    /// `MAX_DISPLAY_SCORE`.
    pub open spec fn shown_score(self, now: Epoch) -> int {
        let whole = self.score(now) / (SCORE_ONE as int);
        if whole > MAX_DISPLAY_SCORE {
            MAX_DISPLAY_SCORE as int
        } else {
            whole
        }
    }

    /// The display line with the score: the score in decimal, a space, the
    /// path.
    pub open spec fn score_line(self, now: Epoch) -> Seq<char> {
        decimal(self.shown_score(now) as nat) + seq![' '] + self.path
    }
}

/// An entry as a display line without its score.
pub struct DirDisplay<'a> {
    dir: &'a Dir<'a>,
}

/// An entry as a display line with its score at a given time.
pub struct DirDisplayScore<'a> {
    dir: &'a Dir<'a>,
    now: Epoch,
}

impl<'a> View for DirDisplay<'a> {
    type V = Seq<char>;

    /// The line.
    closed spec fn view(&self) -> Seq<char> {
        self.dir@.path
    }
}

impl<'a> View for DirDisplayScore<'a> {
    type V = Seq<char>;

    /// The line.
    closed spec fn view(&self) -> Seq<char> {
        self.dir@.score_line(self.now)
    }
}

impl<'a> DirDisplay<'a> {
    /// The line: the path.
    pub fn to_string(&self) -> (line: String)
        ensures
            line@ == self@,
    {
        String::from_str(self.dir.path_str())
    }
}

impl<'a> DirDisplayScore<'a> {
    /// The line: the score in decimal, a space, the path.
    pub fn to_string(&self) -> (line: String)
        ensures
            line@ == self@,
    {
        proof {
            reveal_strlit(" ");
        }
        let score: u32 = self.dir.shown_score(self.now);
        let mut line = decimal_string(score as u64);
        line.append(" ");
        line.append(self.dir.path_str());
        assert(line@ =~= self.dir@.score_line(self.now));
        line
    }
}

/// The tracked directories, in the order in which they were first visited.
#[derive(Debug)]
pub struct DirList<'a>(pub Vec<Dir<'a>>);

/// What a sequence of entries stands for in contracts.
pub open spec fn views<'a>(dirs: Seq<Dir<'a>>) -> Seq<DirView> {
    Seq::new(dirs.len(), |i: int| dirs[i]@)
}

impl<'a> View for DirList<'a> {
    type V = Seq<DirView>;

    open spec fn view(&self) -> Seq<DirView> {
        views(self.0@)
    }
}

impl DirList<'_> {
    /// A list without entries.
    pub fn new() -> (list: DirList<'static>)
        ensures
            list@ == Seq::<DirView>::empty(),
    {
        let list = DirList(Vec::new());
        assert(list@ =~= Seq::<DirView>::empty());
        list
    }
}

impl<'a> Deref for DirList<'a> {
    type Target = Vec<Dir<'a>>;

    fn deref(&self) -> (dirs: &Vec<Dir<'a>>)
        ensures
            *dirs == self.0,
    {
        &self.0
    }
}

impl<'a> DerefMut for DirList<'a> {
    fn deref_mut(&mut self) -> (dirs: &mut Vec<Dir<'a>>)
        ensures
            *dirs == old(self).0,
            final(self).0 == *final(dirs),
    {
        &mut self.0
    }
}

impl<'a> From<Vec<Dir<'a>>> for DirList<'a> {
    fn from(dirs: Vec<Dir<'a>>) -> (list: DirList<'a>) {
        DirList(dirs)
    }
}

impl<'a> FromSpecImpl<Vec<Dir<'a>>> for DirList<'a> {
    open spec fn obeys_from_spec() -> bool {
        true
    }

    open spec fn from_spec(dirs: Vec<Dir<'a>>) -> DirList<'a> {
        DirList(dirs)
    }
}

impl<'a> Clone for Dir<'a> {
    fn clone(&self) -> (copy: Self)
        ensures
            copy == *self,
    {
        let path: Cow<'a, str> = match &self.path {
            Cow::Borrowed(s) => Cow::Borrowed(*s),
            Cow::Owned(s) => Cow::Owned(s.clone()),
        };
        Dir { path, rank: self.rank, last_accessed: self.last_accessed }
    }
}

impl<'a> Dir<'a> {
    /// The path as a string slice, whichever way the entry holds it.
    pub fn path_str(&self) -> (s: &str)
        ensures
            s@ == self@.path,
    {
        match &self.path {
            Cow::Borrowed(s) => s,
            Cow::Owned(s) => s.as_str(),
        }
    }

    /// The entry as a display line without its score.
    pub fn display(&self) -> (shown: DirDisplay<'_>)
        ensures
            shown@ == self@.path,
    {
        DirDisplay { dir: self }
    }

    /// The entry as a display line with its score at time `now`.
    pub fn display_score(&self, now: Epoch) -> (shown: DirDisplayScore<'_>)
        ensures
            shown@ == self@.score_line(now),
    {
        DirDisplayScore { dir: self, now }
    }

    /// The score at time `now` as a display line shows it: in whole visits,
    /// and no more than `MAX_DISPLAY_SCORE`.
    pub fn shown_score(&self, now: Epoch) -> (shown: u32)
        ensures
            shown == self@.shown_score(now),
    {
        let whole: Score = self.score(now) / SCORE_ONE;
        if whole > MAX_DISPLAY_SCORE as Score {
            MAX_DISPLAY_SCORE
        } else {
            whole as u32
        }
    }

    /// The importance of the entry at time `now`.
    pub fn score(&self, now: Epoch) -> (s: Score)
        ensures
            s == self@.score(now),
    {
        let duration: Epoch = now.saturating_sub(self.last_accessed);
        let rank: Score = self.rank as Score;
        if duration < HOUR {
            rank * 16
        } else if duration < DAY {
            rank * 8
        } else if duration < WEEK {
            rank * 2
        } else {
            rank
        }
    }
}

} // verus!
