//! Ranges that lie end to end.

use vstd::prelude::*;

verus! {

/// Whether nonempty ranges lie end to end from `start` to `end`.
pub open spec fn tiles(ranges: Seq<(int, int)>, start: int, end: int) -> bool
    decreases ranges.len(),
{
    if ranges.len() == 0 {
        start == end
    } else {
        &&& ranges.last().0 < ranges.last().1
        &&& ranges.last().1 == end
        &&& tiles(ranges.drop_last(), start, ranges.last().0)
    }
}

pub proof fn lemma_tiles_order(ranges: Seq<(int, int)>, start: int, end: int)
    requires
        tiles(ranges, start, end),
    ensures
        start <= end,
        ranges.len() > 0 ==> start < end,
    decreases ranges.len(),
{
    if ranges.len() > 0 {
        lemma_tiles_order(ranges.drop_last(), start, ranges.last().0);
    }
}

pub proof fn lemma_tiles_one(start: int, end: int)
    requires
        start < end,
    ensures
        tiles(seq![(start, end)], start, end),
{
    reveal_with_fuel(tiles, 2);
    assert(seq![(start, end)].drop_last() =~= Seq::empty());
}

pub proof fn lemma_tiles_concat(
    left: Seq<(int, int)>,
    right: Seq<(int, int)>,
    start: int,
    middle: int,
    end: int,
)
    requires
        tiles(left, start, middle),
        tiles(right, middle, end),
    ensures
        tiles(left + right, start, end),
    decreases right.len(),
{
    if right.len() == 0 {
        assert(left + right =~= left);
    } else {
        lemma_tiles_concat(left, right.drop_last(), start, middle, right.last().0);
        assert((left + right).drop_last() =~= left + right.drop_last());
    }
}

/// The range at `index` of ranges that lie end to end is not empty and starts
/// where the ranges before it end.
pub proof fn lemma_tiles_prefix(ranges: Seq<(int, int)>, start: int, end: int, index: int)
    requires
        tiles(ranges, start, end),
        0 <= index < ranges.len(),
    ensures
        ranges[index].0 < ranges[index].1,
        tiles(ranges.take(index), start, ranges[index].0),
        tiles(ranges.take(index + 1), start, ranges[index].1),
    decreases ranges.len(),
{
    if index == ranges.len() - 1 {
        assert(ranges.take(index) =~= ranges.drop_last());
        assert(ranges.take(index + 1) =~= ranges);
    } else {
        lemma_tiles_prefix(ranges.drop_last(), start, ranges.last().0, index);
        assert(ranges.drop_last().take(index) =~= ranges.take(index));
        assert(ranges.drop_last().take(index + 1) =~= ranges.take(index + 1));
    }
}

/// Every range of ranges that lie end to end is between their two ends.
pub proof fn lemma_tiles_bounds(ranges: Seq<(int, int)>, start: int, end: int)
    requires
        tiles(ranges, start, end),
    ensures
        forall|i: int|
            0 <= i < ranges.len() ==> start <= (#[trigger] ranges[i]).0 < ranges[i].1 <= end,
    decreases ranges.len(),
{
    lemma_tiles_order(ranges, start, end);
    if ranges.len() > 0 {
        let rest = ranges.drop_last();
        lemma_tiles_order(rest, start, ranges.last().0);
        lemma_tiles_bounds(rest, start, ranges.last().0);
        assert forall|i: int| 0 <= i < ranges.len() implies start <= (#[trigger] ranges[i]).0
            < ranges[i].1 <= end by {
            if i < rest.len() {
                assert(ranges[i] == rest[i]);
            }
        }
    }
}

/// Of ranges that lie end to end, an earlier one ends before a later one
/// starts.
pub proof fn lemma_tiles_apart(
    ranges: Seq<(int, int)>,
    start: int,
    end: int,
    earlier: int,
    later: int,
)
    requires
        tiles(ranges, start, end),
        0 <= earlier < later < ranges.len(),
    ensures
        ranges[earlier].1 <= ranges[later].0,
{
    lemma_tiles_prefix(ranges, start, end, later);
    lemma_tiles_bounds(ranges.take(later), start, ranges[later].0);
    assert(ranges.take(later)[earlier] == ranges[earlier]);
}

/// Ranges lie end to end exactly if none is empty, the first starts at the start,
/// each starts where the one before ends, and the last ends at the end.
pub proof fn law_tiles(ranges: Seq<(int, int)>, start: int, end: int)
    ensures
        tiles(ranges, start, end) <==> {
            &&& ranges.len() == 0 ==> start == end
            &&& ranges.len() > 0 ==> ranges.first().0 == start && ranges.last().1 == end
            &&& forall|i: int| 0 <= i < ranges.len() ==> (#[trigger] ranges[i]).0 < ranges[i].1
            &&& forall|i: int|
                0 < i < ranges.len() ==> (#[trigger] ranges[i]).0 == ranges[i - 1].1
        },
    decreases ranges.len(),
{
    if ranges.len() > 0 {
        let rest = ranges.drop_last();
        let last = ranges[ranges.len() - 1];
        law_tiles(rest, start, last.0);
        assert forall|i: int| 0 <= i < rest.len() implies #[trigger] rest[i] == ranges[i] by {}
        if tiles(ranges, start, end) {
            assert forall|i: int| 0 <= i < ranges.len() implies (#[trigger] ranges[i]).0
                < ranges[i].1 by {
                if i < rest.len() {
                    assert(rest[i].0 < rest[i].1);
                }
            }
            assert forall|i: int| 0 < i < ranges.len() implies (#[trigger] ranges[i]).0
                == ranges[i - 1].1 by {
                if i < rest.len() {
                    assert(rest[i].0 == rest[i - 1].1);
                }
            }
        } else if (forall|i: int| 0 <= i < ranges.len() ==> (#[trigger] ranges[i]).0 < ranges[i].1)
            && (forall|i: int|
            0 < i < ranges.len() ==> (#[trigger] ranges[i]).0 == ranges[i - 1].1)
            && ranges.first().0 == start && ranges.last().1 == end {
            assert(last.0 < last.1);
            if rest.len() > 0 {
                assert(last.0 == ranges[ranges.len() - 2].1);
                assert(rest.last() == ranges[ranges.len() - 2]);
                assert(rest.first() == ranges.first());
            }
            assert forall|i: int| 0 <= i < rest.len() implies (#[trigger] rest[i]).0
                < rest[i].1 by {
                assert(ranges[i].0 < ranges[i].1);
            }
            assert forall|i: int| 0 < i < rest.len() implies (#[trigger] rest[i]).0 == rest[i
                - 1].1 by {
                assert(ranges[i].0 == ranges[i - 1].1);
            }
        }
    }
}

} // verus!
