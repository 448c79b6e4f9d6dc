//! The index for the time of one invocation: the list of entries, a mark
//! that says whether it was changed, and the operations that visit a
//! directory, age the ranks and hand out the bytes to store.

use crate::codec::{
    decoding, encoding, exact_ranks, law_decoding_of_encoding, small_ranks, DecodeError,
    EncodeError, MAX_SIZE,
};
use crate::ieee::{law_small_rank_is_exact, EXACT_RANKS};
use crate::dir::{views, Dir, DirList, DirView, Epoch, Rank, RANK_ONE};
use vstd::arithmetic::div_mod::lemma_fundamental_div_mod_converse;
use crate::query::{selects, Query};
use crate::text::same_text;
use std::borrow::Cow;
use vstd::prelude::*;
use vstd::string::*;

verus! {

/// A ceiling for the sum of all ranks, in the units of a `Rank`. It is wider
/// than a rank, as the sum of many ranks is.
pub type Ceiling = u128;

/// The rank below which aging drops an entry: the 1024th part of a visit.
pub const RANK_FLOOR: Rank = 1_024;

/// The list of entries and whether it was changed since it was opened.
#[derive(Debug)]
pub struct Database<'a> {
    pub dirs: DirList<'a>,
    pub modified: bool,
}

/// What a `Database` stands for in contracts.
pub struct DatabaseView {
    pub dirs: Seq<DirView>,
    pub modified: bool,
}

impl<'a> View for Database<'a> {
    type V = DatabaseView;

    open spec fn view(&self) -> DatabaseView {
        DatabaseView { dirs: self.dirs@, modified: self.modified }
    }
}

/// The place of the first entry with the given path; the length of the list
/// if there is none.
pub open spec fn index_of(dirs: Seq<DirView>, path: Seq<char>) -> int
    decreases dirs.len(),
{
    if dirs.len() == 0 {
        0
    } else if dirs.first().path == path {
        0
    } else {
        1 + index_of(dirs.drop_first(), path)
    }
}

/// Whether no two entries have the same path.
pub open spec fn distinct_paths(dirs: Seq<DirView>) -> bool {
    forall|i: int, j: int|
        0 <= i < j < dirs.len() ==> (#[trigger] dirs[i]).path != (#[trigger] dirs[j]).path
}

/// A rank after one more visit. A rank that cannot grow any more stays.
pub open spec fn bumped(rank: Rank) -> Rank {
    if rank + RANK_ONE > u64::MAX {
        u64::MAX
    } else {
        (rank + RANK_ONE) as Rank
    }
}

/// The list after a visit to `path` at time `now`: the entry with that path
/// has one visit more and `now` as the time of its last visit; if there is
/// none, a new entry of one visit stands at the end.
pub open spec fn visited(dirs: Seq<DirView>, path: Seq<char>, now: Epoch) -> Seq<DirView> {
    let at = index_of(dirs, path);
    if at < dirs.len() {
        dirs.update(at, DirView { path, rank: bumped(dirs[at].rank), last_accessed: now })
    } else {
        dirs.push(DirView { path, rank: RANK_ONE, last_accessed: now })
    }
}

/// The sum of all ranks.
pub open spec fn total_rank(dirs: Seq<DirView>) -> int
    decreases dirs.len(),
{
    if dirs.len() == 0 {
        0
    } else {
        total_rank(dirs.drop_last()) + dirs.last().rank
    }
}

/// A rank scaled by `max_total / total`, rounded down to a whole unit.
pub open spec fn scaled(rank: Rank, max_total: Ceiling, total: int) -> int {
    rank * max_total / total
}

/// An entry with its rank scaled by `max_total / total`; none if that rank
/// is below the floor.
pub open spec fn shrunk(dir: DirView, max_total: Ceiling, total: int) -> Option<DirView> {
    let rank = scaled(dir.rank, max_total, total);
    if rank >= RANK_FLOOR {
        Some(DirView { path: dir.path, rank: rank as Rank, last_accessed: dir.last_accessed })
    } else {
        None
    }
}

/// `shrunk` for a given ceiling and sum, as a function of the entry.
pub open spec fn shrink_by(max_total: Ceiling, total: int) -> spec_fn(DirView) -> Option<DirView> {
    |dir: DirView| shrunk(dir, max_total, total)
}

/// The list after aging: where the ranks sum up to more than `max_total`,
/// every rank is scaled by `max_total` over that sum, and the entries that
/// fall below the floor are gone; the others keep their order. A list within
/// `max_total` stays as it is.
pub open spec fn aged(dirs: Seq<DirView>, max_total: Ceiling) -> Seq<DirView> {
    let total = total_rank(dirs);
    if total > max_total {
        dirs.filter_map(shrink_by(max_total, total))
    } else {
        dirs
    }
}

/// Whether `first` comes before `second` in the ranking at time `now`: it
/// has the higher score, or the same score and the later visit.
pub open spec fn outranks(first: DirView, second: DirView, now: Epoch) -> bool {
    first.score(now) > second.score(now) || (first.score(now) == second.score(now)
        && first.last_accessed > second.last_accessed)
}

/// Whether the entry at the place `at` is the answer to a query: the query
/// selects it, no selected entry comes before it in the ranking, and it
/// comes before every selected entry that stands earlier in the list.
pub open spec fn is_best(dirs: Seq<DirView>, keys: Seq<Seq<u8>>, now: Epoch, at: int) -> bool {
    &&& 0 <= at < dirs.len()
    &&& selects(keys, dirs[at].path)
    &&& forall|i: int|
        0 <= i < dirs.len() && selects(keys, (#[trigger] dirs[i]).path) ==> !outranks(
            dirs[i],
            dirs[at],
            now,
        )
    &&& forall|i: int|
        0 <= i < at && selects(keys, (#[trigger] dirs[i]).path) ==> outranks(
            dirs[at],
            dirs[i],
            now,
        )
}

/// A query has one answer at most.
pub proof fn law_best_is_unique(
    dirs: Seq<DirView>,
    keys: Seq<Seq<u8>>,
    now: Epoch,
    one: int,
    other: int,
)
    requires
        is_best(dirs, keys, now, one),
        is_best(dirs, keys, now, other),
    ensures
        one == other,
{
    if one < other {
        assert(outranks(dirs[other], dirs[one], now));
        assert(!outranks(dirs[other], dirs[one], now));
    } else if other < one {
        assert(outranks(dirs[one], dirs[other], now));
        assert(!outranks(dirs[one], dirs[other], now));
    }
}

/// `index_of` is the place of the first entry with the path.
pub proof fn lemma_index_of(dirs: Seq<DirView>, path: Seq<char>)
    ensures
        0 <= index_of(dirs, path) <= dirs.len(),
        index_of(dirs, path) < dirs.len() ==> dirs[index_of(dirs, path)].path == path,
        forall|i: int| 0 <= i < index_of(dirs, path) ==> (#[trigger] dirs[i]).path != path,
    decreases dirs.len(),
{
    if dirs.len() > 0 && dirs.first().path != path {
        let rest = dirs.drop_first();
        lemma_index_of(rest, path);
        assert forall|i: int| 0 <= i < index_of(dirs, path) implies (#[trigger] dirs[i]).path
            != path by {
            if i > 0 {
                assert(dirs[i] == rest[i - 1]);
            }
        }
    }
}

/// A place before which no entry has the path, and which has it or is the
/// end of the list, is `index_of`.
pub proof fn lemma_index_of_is(dirs: Seq<DirView>, path: Seq<char>, at: int)
    requires
        0 <= at <= dirs.len(),
        forall|i: int| 0 <= i < at ==> (#[trigger] dirs[i]).path != path,
        at < dirs.len() ==> dirs[at].path == path,
    ensures
        index_of(dirs, path) == at,
{
    lemma_index_of(dirs, path);
    let found = index_of(dirs, path);
    if found < at {
        assert(dirs[found].path != path);
    }
}

/// The sum of the first `count + 1` ranks is the sum of the first `count`
/// and the next.
pub proof fn lemma_total_rank_take(dirs: Seq<DirView>, count: int)
    requires
        0 <= count < dirs.len(),
    ensures
        total_rank(dirs.take(count + 1)) == total_rank(dirs.take(count)) + dirs[count].rank,
{
    assert(dirs.take(count + 1).drop_last() =~= dirs.take(count));
}

/// A rank scaled by a factor below one is a `Rank`, and no more than it was.
pub proof fn lemma_scaled_bound(rank: Rank, max_total: Ceiling, total: int)
    requires
        max_total < total,
    ensures
        0 <= scaled(rank, max_total, total) <= rank,
        scaled(rank, max_total, total) * total <= rank * max_total,
{
    let product = rank * max_total;
    assert(0 <= product <= rank * total) by (nonlinear_arith)
        requires
            0 <= rank,
            0 <= max_total < total,
            product == rank * max_total,
    ;
    assert(0 <= product / total <= rank && (product / total) * total <= product)
        by (nonlinear_arith)
        requires
            0 <= product <= rank * total,
            0 < total,
            0 <= rank,
    ;
}

/// The sum of the ranks of a list with one more entry.
pub proof fn lemma_total_rank_push(dirs: Seq<DirView>, dir: DirView)
    ensures
        total_rank(dirs.push(dir)) == total_rank(dirs) + dir.rank,
{
    assert(dirs.push(dir).drop_last() =~= dirs);
}

/// The ranks that are left after scaling sum up to no more than the old sum
/// scaled.
pub proof fn lemma_total_rank_shrunk(dirs: Seq<DirView>, max_total: Ceiling, total: int)
    requires
        max_total < total,
    ensures
        total_rank(dirs.filter_map(shrink_by(max_total, total))) * total <= total_rank(dirs)
            * max_total,
    decreases dirs.len(),
{
    let shrink = shrink_by(max_total, total);
    if dirs.len() > 0 {
        let rest = dirs.drop_last();
        let last = dirs.last();
        lemma_total_rank_shrunk(rest, max_total, total);
        lemma_scaled_bound(last.rank, max_total, total);
        let kept = total_rank(rest.filter_map(shrink));
        let before = total_rank(rest);
        let rank = scaled(last.rank, max_total, total);
        if shrink(last) is Some {
            assert(rest.filter_map(shrink) + seq![shrink(last).unwrap()] =~= rest.filter_map(
                shrink,
            ).push(shrink(last).unwrap()));
            lemma_total_rank_push(rest.filter_map(shrink), shrink(last).unwrap());
            assert((kept + rank) * total <= (before + last.rank) * max_total)
                by (nonlinear_arith)
                requires
                    kept * total <= before * max_total,
                    rank * total <= last.rank * max_total,
            ;
        } else {
            assert(kept * total <= (before + last.rank) * max_total) by (nonlinear_arith)
                requires
                    kept * total <= before * max_total,
                    0 <= last.rank,
                    0 <= max_total,
            ;
        }
    }
}

/// The place in `dirs` of the entry that stands at the place `at` after the
/// ranks were scaled and the entries below the floor dropped.
pub open spec fn place_before(dirs: Seq<DirView>, max_total: Ceiling, total: int, at: int) -> int
    decreases dirs.len(),
{
    if dirs.len() == 0 {
        0
    } else if at < dirs.drop_last().filter_map(shrink_by(max_total, total)).len() {
        place_before(dirs.drop_last(), max_total, total, at)
    } else {
        dirs.len() - 1
    }
}

/// Every entry that is left after scaling is an entry of the list with its
/// rank scaled, and the entries that are left stand in the order in which
/// they stood before.
pub proof fn lemma_shrunk_in_place(dirs: Seq<DirView>, max_total: Ceiling, total: int)
    ensures
        forall|at: int|
            0 <= at < dirs.filter_map(shrink_by(max_total, total)).len() ==> {
                let before = #[trigger] place_before(dirs, max_total, total, at);
                &&& 0 <= before < dirs.len()
                &&& shrunk(dirs[before], max_total, total) == Some(
                    dirs.filter_map(shrink_by(max_total, total))[at],
                )
            },
        forall|at: int, next: int|
            0 <= at < next < dirs.filter_map(shrink_by(max_total, total)).len()
                ==> #[trigger] place_before(dirs, max_total, total, at) < #[trigger] place_before(
                dirs,
                max_total,
                total,
                next,
            ),
    decreases dirs.len(),
{
    let shrink = shrink_by(max_total, total);
    if dirs.len() > 0 {
        let rest = dirs.drop_last();
        lemma_shrunk_in_place(rest, max_total, total);
        let left = rest.filter_map(shrink);
        assert forall|at: int| 0 <= at < dirs.filter_map(shrink).len() implies {
            let before = #[trigger] place_before(dirs, max_total, total, at);
            &&& 0 <= before < dirs.len()
            &&& shrunk(dirs[before], max_total, total) == Some(dirs.filter_map(shrink)[at])
        } by {
            if at < left.len() {
                let before = place_before(rest, max_total, total, at);
                assert(dirs[before] == rest[before]);
            }
        }
        assert forall|at: int, next: int|
            0 <= at < next < dirs.filter_map(shrink).len() implies #[trigger] place_before(
            dirs,
            max_total,
            total,
            at,
        ) < #[trigger] place_before(dirs, max_total, total, next) by {
            if next < left.len() {
                assert(place_before(rest, max_total, total, at) < place_before(
                    rest,
                    max_total,
                    total,
                    next,
                ));
            } else {
                assert(0 <= place_before(rest, max_total, total, at) < rest.len());
            }
        }
    }
}

/// Aging keeps the entries in their order: of two entries that are left,
/// the one that stands first stood first before, and each of them is an
/// entry of the old list with its rank scaled.
pub proof fn law_aging_keeps_places(dirs: Seq<DirView>, max_total: Ceiling, at: int, next: int)
    requires
        total_rank(dirs) > max_total,
        0 <= at < next < aged(dirs, max_total).len(),
    ensures
        ({
            let total = total_rank(dirs);
            let first = place_before(dirs, max_total, total, at);
            let second = place_before(dirs, max_total, total, next);
            &&& 0 <= first < second < dirs.len()
            &&& shrunk(dirs[first], max_total, total) == Some(aged(dirs, max_total)[at])
            &&& shrunk(dirs[second], max_total, total) == Some(aged(dirs, max_total)[next])
        }),
{
    lemma_shrunk_in_place(dirs, max_total, total_rank(dirs));
}

/// Aging leaves no two entries with the same path where there were none.
pub proof fn law_aging_keeps_distinct(dirs: Seq<DirView>, max_total: Ceiling)
    requires
        distinct_paths(dirs),
    ensures
        distinct_paths(aged(dirs, max_total)),
{
    let total = total_rank(dirs);
    if total > max_total {
        lemma_shrunk_in_place(dirs, max_total, total);
        let left = aged(dirs, max_total);
        assert forall|i: int, j: int| 0 <= i < j < left.len() implies (#[trigger] left[i]).path != (
        #[trigger] left[j]).path by {
            let first = place_before(dirs, max_total, total, i);
            let second = place_before(dirs, max_total, total, j);
            assert(dirs[first].path != dirs[second].path);
        }
    }
}

/// After aging the ranks sum up to no more than `max_total`.
pub proof fn law_aged_within_total(dirs: Seq<DirView>, max_total: Ceiling)
    ensures
        total_rank(aged(dirs, max_total)) <= max_total,
{
    let total = total_rank(dirs);
    if total > max_total {
        lemma_total_rank_shrunk(dirs, max_total, total);
        let left = total_rank(aged(dirs, max_total));
        assert(left <= max_total) by (nonlinear_arith)
            requires
                left * total <= total * max_total,
                0 < total,
        ;
    }
}

/// No rank is more than the sum of all ranks.
pub proof fn lemma_rank_within_total(dirs: Seq<DirView>, at: int)
    requires
        0 <= at < dirs.len(),
    ensures
        dirs[at].rank <= total_rank(dirs),
        0 <= total_rank(dirs.drop_last()),
    decreases dirs.len(),
{
    let front = dirs.drop_last();
    if front.len() > 0 {
        lemma_rank_within_total(front, 0);
    } else {
        assert(total_rank(front) == 0);
    }
    assert(total_rank(dirs) == total_rank(front) + dirs.last().rank);
    if at < front.len() {
        lemma_rank_within_total(front, at);
        assert(front[at] == dirs[at]);
    }
}

/// Under a ceiling that a double holds digit by digit, every rank that
/// aging leaves comes back from its double as it is.
pub proof fn law_aged_ranks_are_exact(dirs: Seq<DirView>, max_total: Ceiling)
    requires
        max_total < EXACT_RANKS,
    ensures
        exact_ranks(aged(dirs, max_total)),
{
    law_aged_within_total(dirs, max_total);
    let left = aged(dirs, max_total);
    assert forall|i: int| 0 <= i < left.len() implies crate::ieee::is_exact(
        #[trigger] left[i].rank,
    ) by {
        lemma_rank_within_total(left, i);
        law_small_rank_is_exact(left[i].rank);
    }
}

/// What is stored of an aged index is read back as that index: under a
/// ceiling that a double holds digit by digit, and where the stored form is
/// within the size that is decoded.
pub proof fn law_aged_comes_back(dirs: Seq<DirView>, max_total: Ceiling)
    requires
        max_total < EXACT_RANKS,
        encoding(aged(dirs, max_total)).len() <= MAX_SIZE,
    ensures
        decoding(encoding(aged(dirs, max_total))) == Ok::<Seq<DirView>, DecodeError>(
            aged(dirs, max_total),
        ),
{
    law_aged_ranks_are_exact(dirs, max_total);
    law_decoding_of_encoding(aged(dirs, max_total));
}

/// Aging keeps the order of the ranks: of two entries the one with the lower
/// rank has the lower rank after scaling too, or the same, and it is dropped
/// wherever the other one is.
pub proof fn law_aging_keeps_rank_order(low: DirView, high: DirView, max_total: Ceiling, total: int)
    requires
        max_total < total,
        low.rank <= high.rank,
    ensures
        scaled(low.rank, max_total, total) <= scaled(high.rank, max_total, total),
        shrunk(high, max_total, total) is None ==> shrunk(low, max_total, total) is None,
        shrunk(low, max_total, total) is Some ==> shrunk(low, max_total, total).unwrap().rank
            <= shrunk(high, max_total, total).unwrap().rank,
{
    let a = low.rank * max_total;
    let b = high.rank * max_total;
    assert(a <= b) by (nonlinear_arith)
        requires
            low.rank <= high.rank,
            0 <= max_total,
            a == low.rank * max_total,
            b == high.rank * max_total,
    ;
    assert(a / total <= b / total) by (nonlinear_arith)
        requires
            a <= b,
            0 < total,
    ;
    lemma_scaled_bound(low.rank, max_total, total);
    lemma_scaled_bound(high.rank, max_total, total);
}

/// Aging a second time changes nothing.
pub proof fn law_aging_twice(dirs: Seq<DirView>, max_total: Ceiling)
    ensures
        aged(aged(dirs, max_total), max_total) == aged(dirs, max_total),
{
    law_aged_within_total(dirs, max_total);
}

/// A list whose ranks sum up to no more than `max_total` is not changed by
/// aging.
pub proof fn law_aging_within_total(dirs: Seq<DirView>, max_total: Ceiling)
    requires
        total_rank(dirs) <= max_total,
    ensures
        aged(dirs, max_total) == dirs,
{
}

/// A visit leaves every other entry as it was and adds no second entry for
/// a path: the list grows by one entry where the path is new, and not at all
/// where it is known.
pub proof fn law_visit(dirs: Seq<DirView>, path: Seq<char>, now: Epoch)
    ensures
        ({
            let at = index_of(dirs, path);
            let after = visited(dirs, path, now);
            &&& index_of(after, path) == at
            &&& after.len() == if at < dirs.len() {
                dirs.len()
            } else {
                dirs.len() + 1
            }
            &&& after[at].path == path
            &&& after[at].last_accessed == now
            &&& after[at].rank == if at < dirs.len() {
                bumped(dirs[at].rank)
            } else {
                RANK_ONE
            }
            &&& forall|i: int| 0 <= i < dirs.len() && i != at ==> after[i] == dirs[i]
            &&& distinct_paths(dirs) ==> distinct_paths(after)
        }),
{
    let at = index_of(dirs, path);
    let after = visited(dirs, path, now);
    lemma_index_of(dirs, path);
    lemma_index_of_is(after, path, at);
    if distinct_paths(dirs) {
        assert forall|i: int, j: int| 0 <= i < j < after.len() implies (#[trigger] after[i]).path
            != (#[trigger] after[j]).path by {
            if (i != at && j != at) || at < dirs.len() {
                assert(dirs[i].path != dirs[j].path);
            }
        }
    }
}

/// A visit keeps the ranks within the digits of a double, where every rank
/// was a visit below that.
pub proof fn law_visit_keeps_small(dirs: Seq<DirView>, path: Seq<char>, now: Epoch)
    requires
        forall|i: int| 0 <= i < dirs.len() ==> (#[trigger] dirs[i]).rank + RANK_ONE < EXACT_RANKS,
    ensures
        small_ranks(visited(dirs, path, now)),
{
    let after = visited(dirs, path, now);
    let at = index_of(dirs, path);
    law_visit(dirs, path, now);
    lemma_index_of(dirs, path);
    assert forall|i: int| 0 <= i < after.len() implies (#[trigger] after[i]).rank
        < EXACT_RANKS by {
        if i != at {
            assert(after[i] == dirs[i]);
        } else if at < dirs.len() {
            assert(dirs[at].rank + RANK_ONE < EXACT_RANKS);
        }
    }
}

/// Aging raises no rank: ranks within the digits of a double stay there.
pub proof fn law_aging_keeps_small(dirs: Seq<DirView>, max_total: Ceiling)
    requires
        small_ranks(dirs),
    ensures
        small_ranks(aged(dirs, max_total)),
{
    let total = total_rank(dirs);
    if total > max_total {
        lemma_shrunk_in_place(dirs, max_total, total);
        let left = aged(dirs, max_total);
        assert forall|i: int| 0 <= i < left.len() implies (#[trigger] left[i]).rank
            < EXACT_RANKS by {
            let before = place_before(dirs, max_total, total, i);
            lemma_scaled_bound(dirs[before].rank, max_total, total);
            assert(dirs[before].rank < EXACT_RANKS);
        }
    }
}

/// Two visits to the same path make one entry for it, with one visit more
/// for each of them and the time of the second. The list is longer by that
/// entry where the path was new, every other entry is as it was, and no two
/// entries have the same path where none had.
pub proof fn law_visit_twice(dirs: Seq<DirView>, path: Seq<char>, first: Epoch, second: Epoch)
    ensures
        ({
            let at = index_of(dirs, path);
            let once = visited(dirs, path, first);
            let twice = visited(once, path, second);
            &&& twice.len() == once.len()
            &&& twice.len() == if at < dirs.len() {
                dirs.len()
            } else {
                dirs.len() + 1
            }
            &&& index_of(twice, path) == at
            &&& twice[at].path == path
            &&& once[at].last_accessed == first
            &&& twice[at].last_accessed == second
            &&& twice[at].rank == bumped(once[at].rank)
            &&& at < dirs.len() ==> once[at].rank == bumped(dirs[at].rank)
            &&& at < dirs.len() && dirs[at].rank + 2 * RANK_ONE <= u64::MAX ==> once[at].rank
                == dirs[at].rank + RANK_ONE && twice[at].rank == dirs[at].rank + 2 * RANK_ONE
            &&& at == dirs.len() ==> once[at].rank == RANK_ONE && twice[at].rank == 2 * RANK_ONE
            &&& forall|i: int| 0 <= i < dirs.len() && i != at ==> twice[i] == dirs[i]
            &&& distinct_paths(dirs) ==> distinct_paths(twice)
        }),
{
    law_visit(dirs, path, first);
    law_visit(visited(dirs, path, first), path, second);
    lemma_index_of(dirs, path);
}

/// The part `numerator / denominator` of a rank, rounded down to a whole
/// unit. The rank is taken digit by digit, the lowest first, so that no
/// product has to be held that is wider than the ceiling and the sum are.
fn part_of(rank: Rank, numerator: u128, denominator: u128) -> (part: Rank)
    requires
        numerator < denominator,
    ensures
        part == scaled(rank, numerator, denominator as int),
{
    // The digits that are still to come, and what the digits so far are worth.
    let mut rest: u64 = rank;
    let ghost mut low: int = 0;
    let ghost mut weight: int = 1;
    // weight * numerator == weight_whole * denominator + weight_left
    let mut weight_whole: u128 = 0;
    let mut weight_left: u128 = numerator;
    // low * numerator == whole * denominator + left
    let mut whole: u128 = 0;
    let mut left: u128 = 0;
    while rest > 0
        invariant
            numerator < denominator,
            rank == rest * weight + low,
            0 <= low < weight,
            rest > 0 ==> weight * numerator == weight_whole * denominator + weight_left,
            rest > 0 ==> weight_left < denominator && weight_whole < weight,
            low * numerator == whole * denominator + left,
            left < denominator,
            whole < weight,
        decreases rest,
    {
        assert(weight <= rest * weight) by (nonlinear_arith)
            requires
                rest >= 1,
                weight >= 0,
        ;
        let ghost before_low = low;
        let ghost before_whole = whole as int;
        let ghost before_left = left as int;
        let odd: bool = rest % 2 == 1;
        if odd {
            let carry: u128 = if left >= denominator - weight_left {
                1
            } else {
                0
            };
            left = if carry == 1 {
                left - (denominator - weight_left)
            } else {
                left + weight_left
            };
            whole = whole + weight_whole + carry;
            proof {
                low = low + weight;
                assert(low * numerator == whole * denominator + left) by (nonlinear_arith)
                    requires
                        low == before_low + weight,
                        before_low * numerator == before_whole * denominator + before_left,
                        weight * numerator == weight_whole * denominator + weight_left,
                        whole == before_whole + weight_whole + carry,
                        left == before_left + weight_left - carry * denominator,
                ;
            }
        }
        let ghost before_rest = rest;
        rest = rest / 2;
        if rest > 0 {
            let ghost before_weight_whole = weight_whole as int;
            let ghost before_weight_left = weight_left as int;
            let carry: u128 = if weight_left >= denominator - weight_left {
                1
            } else {
                0
            };
            weight_left = if carry == 1 {
                weight_left - (denominator - weight_left)
            } else {
                weight_left + weight_left
            };
            weight_whole = weight_whole + weight_whole + carry;
            proof {
                assert((2 * weight) * numerator == weight_whole * denominator + weight_left)
                    by (nonlinear_arith)
                    requires
                        weight * numerator == before_weight_whole * denominator
                            + before_weight_left,
                        weight_whole == 2 * before_weight_whole + carry,
                        weight_left == 2 * before_weight_left - carry * denominator,
                ;
            }
        }
        proof {
            assert(rank == rest * (2 * weight) + low) by (nonlinear_arith)
                requires
                    rank == before_rest * weight + before_low,
                    before_rest == 2 * rest + (if odd {
                        1int
                    } else {
                        0int
                    }),
                    low == before_low + (if odd {
                        weight
                    } else {
                        0int
                    }),
            ;
            weight = 2 * weight;
        }
    }
    proof {
        lemma_fundamental_div_mod_converse(
            rank * numerator,
            denominator as int,
            whole as int,
            left as int,
        );
        assert(whole <= rank) by (nonlinear_arith)
            requires
                rank * numerator == whole * denominator + left,
                0 <= numerator < denominator,
                0 <= left,
                0 <= rank,
                0 <= whole,
        ;
    }
    whole as Rank
}

impl<'a> Database<'a> {
    /// The sum of all ranks.
    pub fn total_rank(&self) -> (total: u128)
        ensures
            total == total_rank(self@.dirs),
    {
        let count: usize = self.dirs.0.len();
        let mut total: u128 = 0;
        let mut i: usize = 0;
        assert(self@.dirs.take(0) =~= Seq::<DirView>::empty());
        while i < count
            invariant
                i <= count,
                count == self.dirs.0@.len(),
                total == total_rank(self@.dirs.take(i as int)),
                total <= i * 0xffff_ffff_ffff_ffff,
            decreases count - i,
        {
            proof {
                lemma_total_rank_take(self@.dirs, i as int);
            }
            total = total + self.dirs.0[i].rank as u128;
            i += 1;
        }
        assert(self@.dirs.take(count as int) =~= self@.dirs);
        total
    }

    /// Keeps the sum of the ranks within `max_total`: where it is above,
    /// every rank is scaled by `max_total` over the sum, the entries that
    /// fall below `RANK_FLOOR` are dropped, and the index is marked as
    /// changed. An index within `max_total` is left as it is.
    pub fn age(&mut self, max_total: Ceiling)
        ensures
            final(self)@.dirs == aged(old(self)@.dirs, max_total),
            final(self)@.modified == (old(self)@.modified || total_rank(old(self)@.dirs)
                > max_total),
    {
        let total: u128 = self.total_rank();
        if total <= max_total {
            return ;
        }
        let count: usize = self.dirs.0.len();
        let mut kept: Vec<Dir<'a>> = Vec::new();
        let mut i: usize = 0;
        let ghost shrink = shrink_by(max_total, total as int);
        assert(self@.dirs.take(0).filter_map(shrink) =~= Seq::<DirView>::empty());
        while i < count
            invariant
                i <= count,
                count == self.dirs.0@.len(),
                *self == *old(self),
                max_total < total,
                shrink == shrink_by(max_total, total as int),
                views(kept@) == self@.dirs.take(i as int).filter_map(shrink),
            decreases count - i,
        {
            let dir = &self.dirs.0[i];
            proof {
                lemma_scaled_bound(dir.rank, max_total, total as int);
                self@.dirs.lemma_filter_map_take_succ(shrink, i as int);
            }
            let rank: Rank = part_of(dir.rank, max_total, total);
            if rank >= RANK_FLOOR {
                let mut copy = dir.clone();
                copy.rank = rank;
                assert(views(kept@.push(copy)) =~= views(kept@).push(copy@));
                kept.push(copy);
            }
            i += 1;
        }
        assert(self@.dirs.take(count as int) =~= self@.dirs);
        self.dirs = DirList(kept);
        self.modified = true;
    }

    /// The index that stored bytes hold; an empty one where nothing is
    /// stored yet. It counts as unchanged.
    pub fn open(stored: Option<&'a [u8]>) -> (db: Result<Database<'a>, DecodeError>)
        ensures
            match stored {
                None => db is Ok && db->Ok_0@ == (DatabaseView {
                    dirs: Seq::<DirView>::empty(),
                    modified: false,
                }),
                Some(bytes) => match decoding(bytes@) {
                    Ok(dirs) => db is Ok && db->Ok_0@ == (DatabaseView { dirs, modified: false }),
                    Err(error) => db == Err::<Database<'a>, DecodeError>(error),
                },
            },
    {
        match stored {
            None => Ok(Database { dirs: DirList::new(), modified: false }),
            Some(bytes) => match DirList::from_bytes(bytes) {
                Ok(dirs) => Ok(Database { dirs, modified: false }),
                Err(error) => Err(error),
            },
        }
    }

    /// The entry that answers a query at time `now`: of the entries that the
    /// query selects the one with the highest score; of several with that
    /// score the one that was visited last; of several of those the one that
    /// stands first in the list. None where the query selects no entry.
    pub fn query(&self, query: &Query, now: Epoch) -> (found: Option<&Dir<'a>>)
        ensures
            match found {
                None => forall|i: int|
                    0 <= i < self@.dirs.len() ==> !selects(query@, (#[trigger] self@.dirs[i]).path),
                Some(dir) => exists|at: int|
                    is_best(self@.dirs, query@, now, at) && self.dirs.0@[at] == *dir,
            },
    {
        let count: usize = self.dirs.0.len();
        let mut best: Option<usize> = None;
        let mut i: usize = 0;
        while i < count
            invariant
                i <= count,
                count == self.dirs.0@.len(),
                match best {
                    None => forall|k: int|
                        0 <= k < i ==> !selects(query@, (#[trigger] self@.dirs[k]).path),
                    Some(at) => {
                        &&& at < i
                        &&& selects(query@, self@.dirs[at as int].path)
                        &&& forall|k: int|
                            0 <= k < i && selects(query@, (#[trigger] self@.dirs[k]).path)
                                ==> !outranks(self@.dirs[k], self@.dirs[at as int], now)
                        &&& forall|k: int|
                            0 <= k < at && selects(query@, (#[trigger] self@.dirs[k]).path)
                                ==> outranks(self@.dirs[at as int], self@.dirs[k], now)
                    },
                },
            decreases count - i,
        {
            let dir = &self.dirs.0[i];
            if query.matches(dir.path_str()) {
                best = match best {
                    None => Some(i),
                    Some(at) => {
                        let held = &self.dirs.0[at];
                        let score = dir.score(now);
                        let held_score = held.score(now);
                        if score > held_score || (score == held_score && dir.last_accessed
                            > held.last_accessed) {
                            Some(i)
                        } else {
                            Some(at)
                        }
                    },
                };
            }
            i += 1;
        }
        match best {
            None => None,
            Some(at) => {
                assert(is_best(self@.dirs, query@, now, at as int));
                Some(&self.dirs.0[at])
            },
        }
    }

    /// The bytes to store, if the index was changed: it is aged to
    /// `max_total` first, and what comes back is its stored form after that.
    /// An index that was not changed is left as it is, and there is nothing
    /// to store.
    pub fn save(&mut self, max_total: Ceiling) -> (bytes: Result<Option<Vec<u8>>, EncodeError>)
        ensures
            !old(self)@.modified ==> *final(self) == *old(self) && bytes is Ok && bytes->Ok_0
                is None,
            old(self)@.modified ==> {
                &&& final(self)@.modified
                &&& final(self)@.dirs == aged(old(self)@.dirs, max_total)
                &&& bytes is Ok <==> encoding(final(self)@.dirs).len() <= usize::MAX
                &&& bytes is Ok ==> bytes->Ok_0 is Some && bytes->Ok_0->0@ == encoding(
                    final(self)@.dirs,
                )
            },
    {
        if !self.modified {
            return Ok(None);
        }
        self.age(max_total);
        match self.dirs.to_bytes() {
            Ok(bytes) => Ok(Some(bytes)),
            Err(error) => Err(error),
        }
    }

    /// Records a visit to `path` at time `now`, and marks the index as
    /// changed.
    pub fn add(&mut self, path: &str, now: Epoch)
        ensures
            final(self)@.dirs == visited(old(self)@.dirs, path@, now),
            final(self)@.modified,
    {
        let count: usize = self.dirs.0.len();
        let mut at: usize = 0;
        while at < count
            invariant
                at <= count,
                count == self.dirs.0@.len(),
                *self == *old(self),
                forall|i: int| 0 <= i < at ==> (#[trigger] self@.dirs[i]).path != path@,
            ensures
                at < count ==> self@.dirs[at as int].path == path@,
            decreases count - at,
        {
            if same_text(self.dirs.0[at].path_str(), path) {
                break ;
            }
            at += 1;
        }
        proof {
            lemma_index_of_is(self@.dirs, path@, at as int);
        }
        if at < count {
            let dir = &mut self.dirs.0[at];
            dir.rank = dir.rank.saturating_add(RANK_ONE);
            dir.last_accessed = now;
        } else {
            self.dirs.0.push(Dir { path: Cow::Owned(path.to_owned()), rank: RANK_ONE, last_accessed: now });
        }
        self.modified = true;
        assert(self@.dirs =~= visited(old(self)@.dirs, path@, now));
    }
}

} // verus!
