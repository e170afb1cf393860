//! Map from disjoint extents to values, with splitting overwrites.

use crate::error::{ErrorView, Result, ServerError};
use crate::text::{decimal, owned, push_decimal, text_with_two_numbers, with_two_numbers};
use vstd::prelude::*;
use vstd::string::*;

verus! {

/// One extent with its value.
#[derive(Debug, Clone, PartialEq, Eq)]
pub struct ExtentEntry<V> {
    pub start: u64,
    pub end: u64,
    pub value: V,
}

/// One extent with a borrowed value.
#[derive(Debug, Clone, Copy, PartialEq, Eq)]
pub struct ExtentRef<'a, V> {
    pub start: u64,
    pub end: u64,
    pub value: &'a V,
}

/// Disjoint, non-empty extents in ascending order.
#[derive(Debug, Clone, PartialEq, Eq)]
pub struct ExtentMap<V> {
    extents: Vec<ExtentEntry<V>>,
}

/// Every extent is non-empty and ends before the next one starts.
pub open spec fn ordered<V>(extents: Seq<ExtentEntry<V>>) -> bool {
    &&& forall|i: int| 0 <= i < extents.len() ==> (#[trigger] extents[i]).start < extents[i].end
    &&& forall|i: int, j: int|
        0 <= i < j < extents.len() ==> (#[trigger] extents[i]).end <= (#[trigger] extents[j]).start
}

/// How many leading extents end at or before `position`.
pub open spec fn ending_by<V>(extents: Seq<ExtentEntry<V>>, position: int) -> int
    decreases extents.len(),
{
    if extents.len() == 0 {
        0
    } else if extents.last().end <= position {
        extents.len() as int
    } else {
        ending_by(extents.drop_last(), position)
    }
}

/// How many leading extents start before `position`.
pub open spec fn starting_before<V>(extents: Seq<ExtentEntry<V>>, position: int) -> int
    decreases extents.len(),
{
    if extents.len() == 0 {
        0
    } else if extents.last().start < position {
        extents.len() as int
    } else {
        starting_before(extents.drop_last(), position)
    }
}

/// The extents that share a byte with `[start, end)`.
pub open spec fn touched<V>(extents: Seq<ExtentEntry<V>>, start: int, end: int) -> Seq<
    ExtentEntry<V>,
> {
    extents.subrange(ending_by(extents, start), starting_before(extents, end))
}

pub proof fn lemma_ending_by<V>(extents: Seq<ExtentEntry<V>>, position: int)
    requires
        ordered(extents),
    ensures
        0 <= ending_by(extents, position) <= extents.len(),
        forall|i: int|
            0 <= i < ending_by(extents, position) ==> (#[trigger] extents[i]).end <= position,
        forall|i: int|
            ending_by(extents, position) <= i < extents.len() ==> (#[trigger] extents[i]).end
                > position,
    decreases extents.len(),
{
    if extents.len() > 0 {
        let last = extents.last();
        assert(extents[extents.len() - 1] == last);
        if last.end > position {
            let front = extents.drop_last();
            assert(forall|i: int| 0 <= i < front.len() ==> front[i] == extents[i]);
            lemma_ending_by(front, position);
            assert forall|i: int| 0 <= i < ending_by(extents, position) implies (
            #[trigger] extents[i]).end <= position by {
                assert(front[i] == extents[i]);
            }
            assert forall|i: int|
                ending_by(extents, position) <= i < extents.len() implies (
            #[trigger] extents[i]).end > position by {
                if i < front.len() {
                    assert(front[i] == extents[i]);
                }
            }
        } else {
            assert forall|i: int| 0 <= i < extents.len() implies (#[trigger] extents[i]).end
                <= position by {
                if i < extents.len() - 1 {
                    assert(extents[i].end <= extents[extents.len() - 1].start);
                }
            }
        }
    }
}

pub proof fn lemma_starting_before<V>(extents: Seq<ExtentEntry<V>>, position: int)
    requires
        ordered(extents),
    ensures
        0 <= starting_before(extents, position) <= extents.len(),
        forall|i: int|
            0 <= i < starting_before(extents, position) ==> (#[trigger] extents[i]).start
                < position,
        forall|i: int|
            starting_before(extents, position) <= i < extents.len() ==> (
            #[trigger] extents[i]).start >= position,
    decreases extents.len(),
{
    if extents.len() > 0 {
        let last = extents.last();
        assert(extents[extents.len() - 1] == last);
        if last.start >= position {
            let front = extents.drop_last();
            assert(forall|i: int| 0 <= i < front.len() ==> front[i] == extents[i]);
            lemma_starting_before(front, position);
            assert forall|i: int| 0 <= i < starting_before(extents, position) implies (
            #[trigger] extents[i]).start < position by {
                assert(front[i] == extents[i]);
            }
            assert forall|i: int|
                starting_before(extents, position) <= i < extents.len() implies (
            #[trigger] extents[i]).start >= position by {
                if i < front.len() {
                    assert(front[i] == extents[i]);
                }
            }
        } else {
            assert forall|i: int| 0 <= i < extents.len() implies (#[trigger] extents[i]).start
                < position by {
                if i < extents.len() - 1 {
                    assert(extents[i].end <= extents[extents.len() - 1].start);
                    assert(extents[i].start < extents[i].end);
                }
            }
        }
    }
}

/// The touched extents are exactly those that share a byte with the queried one.
pub proof fn lemma_touched<V>(extents: Seq<ExtentEntry<V>>, start: int, end: int)
    requires
        ordered(extents),
        start < end,
    ensures
        0 <= ending_by(extents, start) <= starting_before(extents, end) <= extents.len(),
        forall|i: int|
            0 <= i < extents.len() ==> ((ending_by(extents, start) <= i < starting_before(
                extents,
                end,
            )) <==> (start < (#[trigger] extents[i]).end && extents[i].start < end)),
{
    lemma_ending_by(extents, start);
    lemma_starting_before(extents, end);
    let low = ending_by(extents, start);
    let high = starting_before(extents, end);
    if low > high {
        assert(extents[high].end <= start);
        assert(extents[high].start >= end);
        assert(extents[high].start < extents[high].end);
    }
}

/// The value an extent map holds at a byte position: the extent's value and how far into the
/// extent the position lies.
pub open spec fn value_at<V>(extents: Seq<ExtentEntry<V>>, position: int) -> Option<(V, int)>
    decreases extents.len(),
{
    if extents.len() == 0 {
        None
    } else if extents.last().start <= position < extents.last().end {
        Some((extents.last().value, position - extents.last().start))
    } else {
        value_at(extents.drop_last(), position)
    }
}

/// Where an extent covers a position, that extent gives the value there.
pub proof fn lemma_value_at_covered<V>(extents: Seq<ExtentEntry<V>>, index: int, position: int)
    requires
        ordered(extents),
        0 <= index < extents.len(),
        extents[index].start <= position < extents[index].end,
    ensures
        value_at(extents, position) == Some(
            (extents[index].value, position - extents[index].start),
        ),
    decreases extents.len(),
{
    let last = extents.len() - 1;
    assert(extents.last() == extents[last]);
    if index < last {
        assert(extents[index].end <= extents[last].start);
        let front = extents.drop_last();
        assert(forall|i: int| 0 <= i < front.len() ==> front[i] == extents[i]);
        lemma_value_at_covered(front, index, position);
    }
}

/// Where no extent covers a position, there is no value.
pub proof fn lemma_value_at_uncovered<V>(extents: Seq<ExtentEntry<V>>, position: int)
    requires
        forall|i: int|
            0 <= i < extents.len() ==> !((#[trigger] extents[i]).start <= position
                < extents[i].end),
    ensures
        value_at(extents, position) is None,
    decreases extents.len(),
{
    if extents.len() > 0 {
        assert(extents.last() == extents[extents.len() - 1]);
        let front = extents.drop_last();
        assert(forall|i: int| 0 <= i < front.len() ==> front[i] == extents[i]);
        lemma_value_at_uncovered(front, position);
    }
}

/// A value comes from an extent that covers the position.
pub proof fn lemma_value_at_source<V>(extents: Seq<ExtentEntry<V>>, position: int) -> (index: int)
    requires
        value_at(extents, position) is Some,
    ensures
        0 <= index < extents.len(),
        extents[index].start <= position < extents[index].end,
        value_at(extents, position) == Some(
            (extents[index].value, position - extents[index].start),
        ),
    decreases extents.len(),
{
    let last = extents.len() - 1;
    assert(extents.last() == extents[last]);
    if extents.last().start <= position < extents.last().end {
        last
    } else {
        let front = extents.drop_last();
        let index = lemma_value_at_source(front, position);
        assert(front[index] == extents[index]);
        index
    }
}

/// Whether the part of the map before `start` keeps a piece of the first touched extent.
pub open spec fn has_left_tail<V>(extents: Seq<ExtentEntry<V>>, start: int, end: int) -> bool {
    let low = ending_by(extents, start);
    low < starting_before(extents, end) && extents[low].start < start
}

/// Whether the part of the map from `end` on keeps a piece of the last touched extent.
pub open spec fn has_right_tail<V>(extents: Seq<ExtentEntry<V>>, start: int, end: int) -> bool {
    let high = starting_before(extents, end);
    ending_by(extents, start) < high && extents[high - 1].end > end
}

/// How many extents stand before the replaced part: the untouched ones and the left tail.
pub open spec fn carve_point<V>(extents: Seq<ExtentEntry<V>>, start: int, end: int) -> int {
    ending_by(extents, start) + (if has_left_tail(extents, start, end) {
        1int
    } else {
        0int
    })
}

/// `after` is `before` with `[start, end)` replaced by `inserted`. Pieces of extents that stick
/// out to the left or right stay, with values that `split` gives for their offsets.
pub open spec fn carved<V, F: Fn(&V, u64) -> V>(
    before: Seq<ExtentEntry<V>>,
    after: Seq<ExtentEntry<V>>,
    start: u64,
    end: u64,
    inserted: Seq<ExtentEntry<V>>,
    split: F,
) -> bool {
    let low = ending_by(before, start as int);
    let high = starting_before(before, end as int);
    let point = carve_point(before, start as int, end as int);
    let right = has_right_tail(before, start as int, end as int);
    let rest = point + inserted.len() + (if right {
        1int
    } else {
        0int
    });
    &&& after.len() == rest + (before.len() - high)
    &&& after.take(low) == before.take(low)
    &&& has_left_tail(before, start as int, end as int) ==> {
        &&& after[low].start == before[low].start
        &&& after[low].end == start
        &&& call_ensures(split, (&before[low].value, 0), after[low].value)
    }
    &&& after.subrange(point, point + inserted.len()) == inserted
    &&& right ==> {
        &&& after[rest - 1].start == end
        &&& after[rest - 1].end == before[high - 1].end
        &&& call_ensures(
            split,
            (&before[high - 1].value, (end - before[high - 1].start) as u64),
            after[rest - 1].value,
        )
    }
    &&& after.skip(rest) == before.skip(high)
}

/// A split keeps what `content` reads at each offset of the kept piece.
pub open spec fn split_keeps<V, F: Fn(&V, u64) -> V, T>(
    split: F,
    content: spec_fn(V, int) -> T,
) -> bool {
    forall|value: V, delta: u64, piece: V, offset: int|
        #![trigger call_ensures(split, (&value, delta), piece), content(piece, offset)]
        call_ensures(split, (&value, delta), piece) && offset >= 0 ==> content(piece, offset)
            == content(value, offset + delta)
}

/// What `content` reads at a position of the map.
pub open spec fn content_at<V, T>(
    extents: Seq<ExtentEntry<V>>,
    content: spec_fn(V, int) -> T,
    position: int,
) -> Option<T> {
    match value_at(extents, position) {
        Some((value, offset)) => Some(content(value, offset)),
        None => None,
    }
}

/// Carving keeps the order.
pub proof fn lemma_carved_ordered<V, F: Fn(&V, u64) -> V>(
    before: Seq<ExtentEntry<V>>,
    after: Seq<ExtentEntry<V>>,
    start: u64,
    end: u64,
    inserted: Seq<ExtentEntry<V>>,
    split: F,
)
    requires
        ordered(before),
        start < end,
        carved(before, after, start, end, inserted, split),
        ordered(inserted),
        forall|i: int|
            0 <= i < inserted.len() ==> start <= (#[trigger] inserted[i]).start && inserted[i].end
                <= end,
    ensures
        ordered(after),
{
    lemma_touched(before, start as int, end as int);
    let low = ending_by(before, start as int);
    let high = starting_before(before, end as int);
    let point = carve_point(before, start as int, end as int);
    let right = has_right_tail(before, start as int, end as int);
    let rest = point + inserted.len() + (if right {
        1int
    } else {
        0int
    });
    assert forall|i: int| 0 <= i < after.len() implies after_source(
        before,
        after,
        inserted,
        start,
        end,
        i,
    ) by {
        lemma_after_source(before, after, start, end, inserted, split, i);
    }
    assert forall|i: int| 0 <= i < after.len() implies (#[trigger] after[i]).start
        < after[i].end by {
        assert(after_source(before, after, inserted, start, end, i));
    }
    assert forall|i: int, j: int| 0 <= i < j < after.len() implies (#[trigger] after[i]).end <= (
    #[trigger] after[j]).start by {
        assert(after_source(before, after, inserted, start, end, i));
        assert(after_source(before, after, inserted, start, end, j));
        if i < low && low <= j < point {
            assert(before[i].end <= before[low].start);
        }
    }
}

/// Where the extent at index `i` of a carved map comes from.
spec fn after_source<V>(
    before: Seq<ExtentEntry<V>>,
    after: Seq<ExtentEntry<V>>,
    inserted: Seq<ExtentEntry<V>>,
    start: u64,
    end: u64,
    i: int,
) -> bool {
    let low = ending_by(before, start as int);
    let high = starting_before(before, end as int);
    let point = carve_point(before, start as int, end as int);
    let right = has_right_tail(before, start as int, end as int);
    let rest = point + inserted.len() + (if right {
        1int
    } else {
        0int
    });
    if i < low {
        after[i] == before[i] && before[i].end <= start
    } else if i < point {
        i == low && after[i].start == before[low].start && after[i].end == start
            && before[low].start < start
    } else if i < point + inserted.len() {
        after[i] == inserted[i - point]
    } else if i < rest {
        i == rest - 1 && after[i].start == end && after[i].end == before[high - 1].end && end
            < before[high - 1].end
    } else {
        after[i] == before[i - rest + high] && before[i - rest + high].start >= end
    }
}

proof fn lemma_after_source<V, F: Fn(&V, u64) -> V>(
    before: Seq<ExtentEntry<V>>,
    after: Seq<ExtentEntry<V>>,
    start: u64,
    end: u64,
    inserted: Seq<ExtentEntry<V>>,
    split: F,
    i: int,
)
    requires
        ordered(before),
        start < end,
        carved(before, after, start, end, inserted, split),
        0 <= i < after.len(),
    ensures
        after_source(before, after, inserted, start, end, i),
{
    lemma_touched(before, start as int, end as int);
    lemma_ending_by(before, start as int);
    lemma_starting_before(before, end as int);
    let low = ending_by(before, start as int);
    let high = starting_before(before, end as int);
    let point = carve_point(before, start as int, end as int);
    let right = has_right_tail(before, start as int, end as int);
    let rest = point + inserted.len() + (if right {
        1int
    } else {
        0int
    });
    if i < low {
        assert(after.take(low)[i] == before.take(low)[i]);
    } else if i < point {
    } else if i < point + inserted.len() {
        assert(after.subrange(point, point + inserted.len())[i - point] == inserted[i - point]);
    } else if i < rest {
    } else {
        assert(after.skip(rest)[i - rest] == before.skip(high)[i - rest]);
    }
}

/// Carving changes what is read inside `[start, end)` to what was inserted, and nothing else.
pub proof fn law_overwrite_changes_only_the_range<V, F: Fn(&V, u64) -> V, T>(
    before: Seq<ExtentEntry<V>>,
    after: Seq<ExtentEntry<V>>,
    start: u64,
    end: u64,
    inserted: Seq<ExtentEntry<V>>,
    split: F,
    content: spec_fn(V, int) -> T,
    position: int,
)
    requires
        ordered(before),
        start < end,
        carved(before, after, start, end, inserted, split),
        ordered(inserted),
        forall|i: int|
            0 <= i < inserted.len() ==> start <= (#[trigger] inserted[i]).start && inserted[i].end
                <= end,
        split_keeps(split, content),
    ensures
        start <= position < end ==> content_at(after, content, position) == content_at(
            inserted,
            content,
            position,
        ),
        !(start <= position < end) ==> content_at(after, content, position) == content_at(
            before,
            content,
            position,
        ),
{
    lemma_carved_ordered(before, after, start, end, inserted, split);
    lemma_touched(before, start as int, end as int);
    lemma_ending_by(before, start as int);
    lemma_starting_before(before, end as int);
    let low = ending_by(before, start as int);
    let high = starting_before(before, end as int);
    let point = carve_point(before, start as int, end as int);
    let right = has_right_tail(before, start as int, end as int);
    let rest = point + inserted.len() + (if right {
        1int
    } else {
        0int
    });
    if value_at(after, position) is Some {
        let i = lemma_value_at_source(after, position);
        lemma_after_source(before, after, start, end, inserted, split, i);
        if i < low {
            lemma_value_at_covered(before, i, position);
        } else if i < point {
            lemma_value_at_covered(before, low, position);
        } else if i < point + inserted.len() {
            lemma_value_at_covered(inserted, i - point, position);
        } else if i < rest {
            lemma_value_at_covered(before, high - 1, position);
            let delta = (end - before[high - 1].start) as u64;
            assert(call_ensures(split, (&before[high - 1].value, delta), after[i].value));
            assert(content(after[i].value, position - after[i].start) == content(
                before[high - 1].value,
                position - after[i].start + delta,
            ));
        } else {
            lemma_value_at_covered(before, i - rest + high, position);
        }
    } else if start <= position < end {
        if value_at(inserted, position) is Some {
            let i = lemma_value_at_source(inserted, position);
            assert(after.subrange(point, point + inserted.len())[i] == inserted[i]);
            assert(after[point + i] == inserted[i]);
            lemma_value_at_covered(after, point + i, position);
        }
    } else if value_at(before, position) is Some {
        let i = lemma_value_at_source(before, position);
        if i < low {
            assert(after.take(low)[i] == before.take(low)[i]);
            lemma_value_at_covered(after, i, position);
        } else if i >= high {
            assert(after.skip(rest)[i - high] == before.skip(high)[i - high]);
            lemma_value_at_covered(after, rest + i - high, position);
        } else if position < start {
            if i > low {
                assert(before[low].end <= before[i].start);
            }
            lemma_value_at_covered(after, low, position);
        } else {
            if i < high - 1 {
                assert(before[i].end <= before[high - 1].start);
            }
            lemma_value_at_covered(after, rest - 1, position);
        }
    }
}

/// The extents after `[start, end)` was replaced by `inserted`, where `split` gives the value of
/// the piece of an extent that starts at an offset of it.
pub open spec fn replaced<V>(
    extents: Seq<ExtentEntry<V>>,
    start: int,
    end: int,
    inserted: Seq<ExtentEntry<V>>,
    split: spec_fn(V, int) -> V,
) -> Seq<ExtentEntry<V>> {
    let low = ending_by(extents, start);
    let high = starting_before(extents, end);
    let left = if has_left_tail(extents, start, end) {
        seq![
            ExtentEntry {
                start: extents[low].start,
                end: start as u64,
                value: split(extents[low].value, 0),
            },
        ]
    } else {
        Seq::empty()
    };
    let right = if has_right_tail(extents, start, end) {
        seq![
            ExtentEntry {
                start: end as u64,
                end: extents[high - 1].end,
                value: split(extents[high - 1].value, end - extents[high - 1].start),
            },
        ]
    } else {
        Seq::empty()
    };
    extents.take(low) + left + inserted + right + extents.skip(high)
}

/// Carving with a split that computes `split` replaces the range.
pub proof fn lemma_carved_replaced<V, F: Fn(&V, u64) -> V>(
    before: Seq<ExtentEntry<V>>,
    after: Seq<ExtentEntry<V>>,
    start: u64,
    end: u64,
    inserted: Seq<ExtentEntry<V>>,
    carver: F,
    split: spec_fn(V, int) -> V,
)
    requires
        ordered(before),
        start < end,
        carved(before, after, start, end, inserted, carver),
        forall|value: V, delta: u64, piece: V| #[trigger]
            call_ensures(carver, (&value, delta), piece) ==> piece == split(value, delta as int),
    ensures
        after == replaced(before, start as int, end as int, inserted, split),
{
    lemma_touched(before, start as int, end as int);
    let low = ending_by(before, start as int);
    let high = starting_before(before, end as int);
    let point = carve_point(before, start as int, end as int);
    let right = has_right_tail(before, start as int, end as int);
    let rest = point + inserted.len() + (if right {
        1int
    } else {
        0int
    });
    let wanted = replaced(before, start as int, end as int, inserted, split);
    assert(wanted.len() == after.len());
    assert forall|i: int| 0 <= i < after.len() implies after[i] == wanted[i] by {
        if i < low {
            assert(after.take(low)[i] == before.take(low)[i]);
        } else if i < point {
            assert(after[i].value == split(before[low].value, 0));
        } else if i < point + inserted.len() {
            assert(after.subrange(point, point + inserted.len())[i - point] == inserted[i - point]);
        } else if i < rest {
            assert(before[high - 1].start < end);
        } else {
            assert(after.skip(rest)[i - rest] == before.skip(high)[i - rest]);
        }
    }
    assert(after =~= wanted);
}

/// The message for an extent that does not start before its end.
pub open spec fn unordered_extent_error(start: u64, end: u64) -> ErrorView {
    ErrorView::Wal {
        context: "extent map"@,
        message: with_two_numbers(
            "extent start "@,
            start as nat,
            " must be before end "@,
            end as nat,
            ""@,
        ),
    }
}

/// The message for an extent that overlaps one that is already there.
pub open spec fn overlap_error(
    start: u64,
    end: u64,
    existing_start: u64,
    existing_end: u64,
) -> ErrorView {
    ErrorView::Wal {
        context: "extent map"@,
        message: "new extent ["@ + decimal(start as nat) + ", "@ + decimal(end as nat)
            + ") overlaps existing ["@ + decimal(existing_start as nat) + ", "@ + decimal(
            existing_end as nat,
        ) + ")"@,
    }
}

/// The error for extents that share a position.
pub open spec fn overlapping_entries_error() -> ErrorView {
    ErrorView::Wal {
        context: "extent map"@,
        message: "extent map contains overlapping entries"@,
    }
}

/// What is wrong with an extent of a map: it is empty, or starts before the one in front of it ends.
pub open spec fn extent_fault<V>(extents: Seq<ExtentEntry<V>>, index: int) -> Option<ErrorView> {
    if extents[index].start >= extents[index].end {
        Some(unordered_extent_error(extents[index].start, extents[index].end))
    } else if index > 0 && extents[index].start < extents[index - 1].end {
        Some(overlapping_entries_error())
    } else {
        None
    }
}

fn validate_extent(start: u64, end: u64) -> (result: Result<()>)
    ensures
        match result {
            Ok(_) => start < end,
            Err(error) => start >= end && error@ == unordered_extent_error(start, end),
        },
{
    if start >= end {
        return Err(
            ServerError::wal(
                "extent map",
                text_with_two_numbers("extent start ", start, " must be before end ", end, ""),
            ),
        );
    }
    Ok(())
}

impl<V> ExtentEntry<V> {
    pub fn new(start: u64, end: u64, value: V) -> (result: Result<Self>)
        ensures
            match result {
                Ok(entry) => start < end && entry == (ExtentEntry { start, end, value }),
                Err(error) => start >= end && error@ == unordered_extent_error(start, end),
            },
    {
        match validate_extent(start, end) {
            Ok(_) => Ok(ExtentEntry { start, end, value }),
            Err(error) => Err(error),
        }
    }

    pub fn start(&self) -> (start: u64)
        ensures
            start == self.start,
    {
        self.start
    }

    pub fn end(&self) -> (end: u64)
        ensures
            end == self.end,
    {
        self.end
    }

    pub fn value(&self) -> (value: &V)
        ensures
            *value == self.value,
    {
        &self.value
    }

    pub fn into_parts(self) -> (parts: (u64, u64, V))
        ensures
            parts == (self.start, self.end, self.value),
    {
        (self.start, self.end, self.value)
    }

    /// The extent with its value borrowed.
    fn borrowed(&self) -> (extent: ExtentRef<'_, V>)
        ensures
            extent.shows(*self),
    {
        ExtentRef { start: self.start, end: self.end, value: &self.value }
    }
}

impl<'a, V> ExtentRef<'a, V> {
    /// Whether this is a borrow of `entry`.
    pub open spec fn shows(self, entry: ExtentEntry<V>) -> bool {
        self.start == entry.start && self.end == entry.end && *self.value == entry.value
    }

    pub fn start(&self) -> (start: u64)
        ensures
            start == self.start,
    {
        self.start
    }

    pub fn end(&self) -> (end: u64)
        ensures
            end == self.end,
    {
        self.end
    }

    pub fn value(&self) -> (value: &'a V)
        ensures
            value == self.value,
    {
        self.value
    }
}

/// Whether `refs` are the borrows of `entries`, in order.
pub open spec fn all_show<V>(refs: Seq<ExtentRef<'_, V>>, entries: Seq<ExtentEntry<V>>) -> bool {
    &&& refs.len() == entries.len()
    &&& forall|i: int| 0 <= i < refs.len() ==> (#[trigger] refs[i]).shows(entries[i])
}

impl<V> View for ExtentMap<V> {
    type V = Seq<ExtentEntry<V>>;

    closed spec fn view(&self) -> Seq<ExtentEntry<V>> {
        self.extents@
    }
}

impl<V> Default for ExtentMap<V> {
    fn default() -> (map: Self)
        ensures
            map.wf(),
            map@ == Seq::<ExtentEntry<V>>::empty(),
    {
        Self::new()
    }
}

/// What an insertion that overwrites nothing does.
pub open spec fn inserts_exactly<V>(
    before: Seq<ExtentEntry<V>>,
    after: Seq<ExtentEntry<V>>,
    start: u64,
    end: u64,
    value: V,
    result: Result<()>,
) -> bool {
    match result {
        Ok(_) => {
            let index = ending_by(before, start as int);
            &&& start < end
            &&& touched(before, start as int, end as int).len() == 0
            &&& after == before.insert(
                index,
                ExtentEntry { start, end, value },
            )
        },
        Err(error) => {
            let overlap = touched(before, start as int, end as int);
            &&& after == before
            &&& start >= end ==> error@ == unordered_extent_error(start, end)
            &&& start < end ==> overlap.len() > 0 && error@ == overlap_error(
                start,
                end,
                overlap[0].start,
                overlap[0].end,
            )
        },
    }
}

/// What a search for the extents of a range finds.
pub open spec fn finds_overlapping<V>(
    extents: Seq<ExtentEntry<V>>,
    start: u64,
    end: u64,
    result: Result<Vec<ExtentRef<'_, V>>>,
) -> bool {
    match result {
        Ok(refs) => {
            &&& start <= end
            &&& start == end ==> refs@.len() == 0
            &&& start < end ==> all_show(
                refs@,
                touched(extents, start as int, end as int),
            )
        },
        Err(error) => start > end && error@ == unordered_extent_error(start, end),
    }
}

impl<V> ExtentMap<V> {
    pub open spec fn wf(self) -> bool {
        ordered(self@)
    }

    pub fn new() -> (map: Self)
        ensures
            map.wf(),
            map@ == Seq::<ExtentEntry<V>>::empty(),
    {
        Self { extents: Vec::new() }
    }

    /// The map of the given extents.
    pub fn from_entries(entries: Vec<ExtentEntry<V>>) -> (map: Self)
        ensures
            map@ == entries@,
    {
        Self { extents: entries }
    }

    pub fn len(&self) -> (len: usize)
        ensures
            len == self@.len(),
    {
        self.extents.len()
    }

    pub fn is_empty(&self) -> (empty: bool)
        ensures
            empty == (self@.len() == 0),
    {
        self.extents.len() == 0
    }

    /// All extents in ascending order.
    pub fn iter(&self) -> (refs: Vec<ExtentRef<'_, V>>)
        ensures
            all_show(refs@, self@),
    {
        self.slice(0, self.extents.len())
    }

    fn slice(&self, low: usize, high: usize) -> (refs: Vec<ExtentRef<'_, V>>)
        requires
            low <= high <= self@.len(),
        ensures
            all_show(refs@, self@.subrange(low as int, high as int)),
    {
        let mut refs: Vec<ExtentRef<'_, V>> = Vec::new();
        let mut index: usize = low;
        while index < high
            invariant
                low <= index <= high <= self.extents@.len(),
                self@ == self.extents@,
                all_show(refs@, self@.subrange(low as int, index as int)),
            decreases high - index,
        {
            let ghost before = refs@;
            refs.push(self.extents[index].borrowed());
            index = index + 1;
            proof {
                let shown = self@.subrange(low as int, index as int);
                assert forall|i: int| 0 <= i < refs@.len() implies (#[trigger] refs@[i]).shows(
                    shown[i],
                ) by {
                    if i < before.len() {
                        assert(before[i].shows(self@.subrange(low as int, index - 1)[i]));
                    }
                }
            }
        }
        refs
    }

    /// The extent at an index of the order.
    pub fn entry(&self, index: usize) -> (extent: ExtentRef<'_, V>)
        requires
            index < self@.len(),
        ensures
            extent.shows(self@[index as int]),
    {
        self.extents[index].borrowed()
    }

    /// Takes out the extent at an index of the order.
    pub fn remove_entry(&mut self, index: usize) -> (entry: ExtentEntry<V>)
        requires
            old(self).wf(),
            index < old(self)@.len(),
        ensures
            final(self).wf(),
            entry == old(self)@[index as int],
            final(self)@ == old(self)@.remove(index as int),
    {
        let ghost before = self@;
        let entry = self.extents.remove(index);
        proof {
            let after = self@;
            assert forall|i: int| 0 <= i < after.len() implies (#[trigger] after[i]).start
                < after[i].end by {
                assert(after[i] == before[if i < index {
                    i
                } else {
                    i + 1
                }]);
            }
            assert forall|i: int, j: int| 0 <= i < j < after.len() implies (
            #[trigger] after[i]).end <= (#[trigger] after[j]).start by {
                assert(after[i] == before[if i < index {
                    i
                } else {
                    i + 1
                }]);
                assert(after[j] == before[if j < index {
                    j
                } else {
                    j + 1
                }]);
            }
        }
        entry
    }

    /// The extent that starts at `start`.
    pub fn get(&self, start: u64) -> (extent: Option<ExtentRef<'_, V>>)
        requires
            self.wf(),
        ensures
            match extent {
                Some(extent) => exists|i: int|
                    0 <= i < self@.len() && (#[trigger] self@[i]).start == start && extent.shows(
                        self@[i],
                    ),
                None => forall|i: int|
                    0 <= i < self@.len() ==> (#[trigger] self@[i]).start != start,
            },
    {
        let index = self.lower_bound(start);
        proof {
            lemma_starting_before(self@, start as int);
        }
        if index < self.extents.len() && self.extents[index].start == start {
            Some(self.extents[index].borrowed())
        } else {
            proof {
                assert forall|i: int| 0 <= i < self@.len() implies (#[trigger] self@[i]).start
                    != start by {
                    if i > index {
                        assert(self@[index as int].end <= self@[i].start);
                    }
                }
            }
            None
        }
    }

    /// The number of extents that start before `position`.
    fn lower_bound(&self, position: u64) -> (index: usize)
        requires
            self.wf(),
        ensures
            index == starting_before(self@, position as int),
            index <= self@.len(),
    {
        let mut low: usize = 0;
        let mut high: usize = self.extents.len();
        proof {
            lemma_starting_before(self@, position as int);
        }
        while low < high
            invariant
                self.wf(),
                self@ == self.extents@,
                low <= high <= self.extents@.len(),
                low <= starting_before(self@, position as int) <= high,
                forall|i: int|
                    0 <= i < starting_before(self@, position as int) ==> (
                    #[trigger] self@[i]).start < position,
                forall|i: int|
                    starting_before(self@, position as int) <= i < self@.len() ==> (
                    #[trigger] self@[i]).start >= position,
            decreases high - low,
        {
            let middle: usize = low + (high - low) / 2;
            if self.extents[middle].start < position {
                low = middle + 1;
            } else {
                high = middle;
            }
        }
        low
    }

    /// The number of extents that end at or before `position`.
    fn upper_bound(&self, position: u64) -> (index: usize)
        requires
            self.wf(),
        ensures
            index == ending_by(self@, position as int),
            index <= self@.len(),
    {
        let mut low: usize = 0;
        let mut high: usize = self.extents.len();
        proof {
            lemma_ending_by(self@, position as int);
        }
        while low < high
            invariant
                self.wf(),
                self@ == self.extents@,
                low <= high <= self.extents@.len(),
                low <= ending_by(self@, position as int) <= high,
                forall|i: int|
                    0 <= i < ending_by(self@, position as int) ==> (#[trigger] self@[i]).end
                        <= position,
                forall|i: int|
                    ending_by(self@, position as int) <= i < self@.len() ==> (
                    #[trigger] self@[i]).end > position,
            decreases high - low,
        {
            let middle: usize = low + (high - low) / 2;
            if self.extents[middle].end <= position {
                low = middle + 1;
            } else {
                high = middle;
            }
        }
        low
    }

    /// The extents that share a byte with `[start, end)`, in ascending order.
    pub fn overlapping(&self, start: u64, end: u64) -> (result: Result<Vec<ExtentRef<'_, V>>>)
        requires
            self.wf(),
        ensures
            finds_overlapping(self@, start, end, result),
    {
        if start == end {
            return Ok(Vec::new());
        }
        match validate_extent(start, end) {
            Ok(_) => {},
            Err(error) => return Err(error),
        }
        proof {
            lemma_touched(self@, start as int, end as int);
        }
        let low = self.upper_bound(start);
        let high = self.lower_bound(end);
        Ok(self.slice(low, high))
    }

    /// Adds an extent that overlaps none of those that are there.
    pub fn insert_exact(&mut self, start: u64, end: u64, value: V) -> (result: Result<()>)
        requires
            old(self).wf(),
        ensures
            final(self).wf(),
            inserts_exactly(old(self)@, final(self)@, start, end, value, result),
    {
        match validate_extent(start, end) {
            Ok(_) => {},
            Err(error) => return Err(error),
        }
        let low = self.upper_bound(start);
        let high = self.lower_bound(end);
        proof {
            lemma_touched(self@, start as int, end as int);
        }
        if low < high {
            let mut message = owned("new extent [");
            push_decimal(&mut message, start);
            message.append(", ");
            push_decimal(&mut message, end);
            message.append(") overlaps existing [");
            push_decimal(&mut message, self.extents[low].start);
            message.append(", ");
            push_decimal(&mut message, self.extents[low].end);
            message.append(")");
            return Err(ServerError::wal("extent map", message));
        }
        self.extents.insert(low, ExtentEntry { start, end, value });
        proof {
            let before = old(self)@;
            let after = self@;
            lemma_ending_by(before, start as int);
            lemma_starting_before(before, end as int);
            assert forall|i: int| 0 <= i < after.len() implies (#[trigger] after[i]).start
                < after[i].end by {
                if i < low {
                    assert(after[i] == before[i]);
                } else if i > low {
                    assert(after[i] == before[i - 1]);
                }
            }
            assert forall|i: int, j: int| 0 <= i < j < after.len() implies (
            #[trigger] after[i]).end <= (#[trigger] after[j]).start by {
                if j < low {
                    assert(after[i] == before[i] && after[j] == before[j]);
                } else if i > low {
                    assert(after[i] == before[i - 1] && after[j] == before[j - 1]);
                } else if i < low && j > low {
                    assert(after[i] == before[i] && after[j] == before[j - 1]);
                } else if i < low {
                    assert(after[i] == before[i]);
                } else {
                    assert(after[j] == before[j - 1]);
                }
            }
        }
        Ok(())
    }

    /// Replaces what `[start, end)` held by `value`, keeping the pieces that stick out.
    pub fn insert_overwrite_with_split<F>(
        &mut self,
        start: u64,
        end: u64,
        value: V,
        split_value: F,
    ) -> (result: Result<Vec<ExtentEntry<V>>>) where F: Fn(&V, u64) -> V
        requires
            old(self).wf(),
            forall|i: int, delta: u64|
                0 <= i < old(self)@.len() && delta <= old(self)@[i].end - old(self)@[i].start
                    ==> #[trigger] call_requires(split_value, (&old(self)@[i].value, delta)),
        ensures
            final(self).wf(),
            match result {
                Ok(removed) => {
                    &&& start < end
                    &&& removed@ == touched(old(self)@, start as int, end as int)
                    &&& carved(
                        old(self)@,
                        final(self)@,
                        start,
                        end,
                        seq![ExtentEntry { start, end, value }],
                        split_value,
                    )
                },
                Err(error) => {
                    &&& start >= end
                    &&& error@ == unordered_extent_error(start, end)
                    &&& final(self)@ == old(self)@
                },
            },
    {
        match validate_extent(start, end) {
            Ok(_) => {},
            Err(error) => return Err(error),
        }
        let mut inserted: Vec<ExtentEntry<V>> = Vec::new();
        inserted.push(ExtentEntry { start, end, value });
        proof {
            assert(inserted@ =~= seq![ExtentEntry { start, end, value }]);
        }
        Ok(self.carve(start, end, inserted, split_value))
    }

    /// Empties `[start, end)`, keeping the pieces that stick out.
    pub fn remove_range_with_split<F>(&mut self, start: u64, end: u64, split_value: F) -> (result:
        Result<Vec<ExtentEntry<V>>>) where F: Fn(&V, u64) -> V
        requires
            old(self).wf(),
            forall|i: int, delta: u64|
                0 <= i < old(self)@.len() && delta <= old(self)@[i].end - old(self)@[i].start
                    ==> #[trigger] call_requires(split_value, (&old(self)@[i].value, delta)),
        ensures
            final(self).wf(),
            match result {
                Ok(removed) => {
                    &&& start <= end
                    &&& start == end ==> removed@.len() == 0 && final(self)@ == old(self)@
                    &&& start < end ==> {
                        &&& removed@ == touched(old(self)@, start as int, end as int)
                        &&& carved(
                            old(self)@,
                            final(self)@,
                            start,
                            end,
                            Seq::<ExtentEntry<V>>::empty(),
                            split_value,
                        )
                    }
                },
                Err(error) => {
                    &&& start > end
                    &&& error@ == unordered_extent_error(start, end)
                    &&& final(self)@ == old(self)@
                },
            },
    {
        if start == end {
            return Ok(Vec::new());
        }
        match validate_extent(start, end) {
            Ok(_) => {},
            Err(error) => return Err(error),
        }
        let inserted: Vec<ExtentEntry<V>> = Vec::new();
        proof {
            assert(inserted@ =~= Seq::<ExtentEntry<V>>::empty());
        }
        Ok(self.carve(start, end, inserted, split_value))
    }

    fn carve<F>(
        &mut self,
        start: u64,
        end: u64,
        inserted: Vec<ExtentEntry<V>>,
        split_value: F,
    ) -> (removed: Vec<ExtentEntry<V>>) where F: Fn(&V, u64) -> V
        requires
            old(self).wf(),
            start < end,
            ordered(inserted@),
            forall|i: int|
                0 <= i < inserted@.len() ==> start <= (#[trigger] inserted@[i]).start
                    && inserted@[i].end <= end,
            forall|i: int, delta: u64|
                0 <= i < old(self)@.len() && delta <= old(self)@[i].end - old(self)@[i].start
                    ==> #[trigger] call_requires(split_value, (&old(self)@[i].value, delta)),
        ensures
            final(self).wf(),
            removed@ == touched(old(self)@, start as int, end as int),
            carved(old(self)@, final(self)@, start, end, inserted@, split_value),
    {
        let low = self.upper_bound(start);
        let high = self.lower_bound(end);
        let ghost before = self@;
        let ghost new_extents = inserted@;
        proof {
            lemma_touched(before, start as int, end as int);
            lemma_ending_by(before, start as int);
            lemma_starting_before(before, end as int);
        }
        let mut rest = self.extents.split_off(high);
        let removed = self.extents.split_off(low);
        proof {
            assert(removed@ =~= touched(before, start as int, end as int));
            assert(self.extents@ =~= before.take(low as int));
            assert(rest@ =~= before.skip(high as int));
        }
        let count: usize = removed.len();
        if count > 0 && removed[0].start < start {
            proof {
                assert(before[low as int] == removed@[0]);
                assert(call_requires(split_value, (&before[low as int].value, 0)));
            }
            let piece = split_value(&removed[0].value, 0);
            self.extents.push(ExtentEntry { start: removed[0].start, end: start, value: piece });
        }
        let ghost left = self.extents@;
        let mut inserted = inserted;
        self.extents.append(&mut inserted);
        let ghost middle = self.extents@;
        if count > 0 && removed[count - 1].end > end {
            let delta: u64 = end - removed[count - 1].start;
            proof {
                assert(before[high - 1] == removed@[count - 1]);
                assert(call_requires(split_value, (&before[high - 1].value, delta)));
            }
            let piece = split_value(&removed[count - 1].value, delta);
            self.extents.push(
                ExtentEntry { start: end, end: removed[count - 1].end, value: piece },
            );
        }
        let ghost right = self.extents@;
        self.extents.append(&mut rest);
        proof {
            let after = self@;
            let point = carve_point(before, start as int, end as int);
            assert(count == high - low);
            assert(left.len() == point);
            assert(after.take(low as int) =~= before.take(low as int));
            assert(after.subrange(point, point + new_extents.len()) =~= new_extents);
            assert(after.skip(right.len() as int) =~= before.skip(high as int));
            assert(carved(before, after, start, end, new_extents, split_value));
            lemma_carved_ordered(before, after, start, end, new_extents, split_value);
        }
        removed
    }

    /// Whether the extents are non-empty, disjoint and in order. The error is that of the first
    /// extent with which something is wrong.
    pub fn validate(&self) -> (result: Result<()>)
        ensures
            result is Ok == self.wf(),
            result matches Err(error) ==> exists|index: int|
                0 <= index < self@.len() && #[trigger] extent_fault(self@, index) == Some(error@)
                    && forall|earlier: int|
                    0 <= earlier < index ==> #[trigger] extent_fault(self@, earlier) is None,
    {
        let mut index: usize = 0;
        while index < self.extents.len()
            invariant
                self@ == self.extents@,
                index <= self@.len(),
                ordered(self@.take(index as int)),
                forall|earlier: int|
                    0 <= earlier < index ==> #[trigger] extent_fault(self@, earlier) is None,
            decreases self@.len() - index,
        {
            let start: u64 = self.extents[index].start;
            let end: u64 = self.extents[index].end;
            match validate_extent(start, end) {
                Ok(_) => {},
                Err(error) => {
                    assert(self@[index as int].start >= self@[index as int].end);
                    assert(extent_fault(self@, index as int) == Some(error@));
                    return Err(error);
                },
            }
            if index > 0 && start < self.extents[index - 1].end {
                assert(self@[index - 1].end > self@[index as int].start);
                assert(extent_fault(self@, index as int) == Some(overlapping_entries_error()));
                return Err(
                    ServerError::wal(
                        "extent map",
                        owned("extent map contains overlapping entries"),
                    ),
                );
            }
            proof {
                let shorter = self@.take(index as int);
                let longer = self@.take(index + 1);
                assert forall|i: int| 0 <= i < longer.len() implies (#[trigger] longer[i]).start
                    < longer[i].end by {
                    if i < index {
                        assert(shorter[i] == longer[i]);
                    }
                }
                assert forall|i: int, j: int| 0 <= i < j < longer.len() implies (
                #[trigger] longer[i]).end <= (#[trigger] longer[j]).start by {
                    if j < index {
                        assert(shorter[i] == longer[i] && shorter[j] == longer[j]);
                    } else {
                        assert(longer[index - 1] == self@[index - 1]);
                        if i < index - 1 {
                            assert(shorter[i] == longer[i]);
                            assert(shorter[index - 1] == longer[index - 1]);
                        }
                    }
                }
            }
            index = index + 1;
        }
        assert(self@.take(index as int) =~= self@);
        Ok(())
    }
}

/// Extents are in order exactly when no extent has a fault: each begins before it ends, and not
/// before the one in front of it has ended.
pub proof fn law_extents_are_in_order_when_none_has_a_fault<V>(extents: Seq<ExtentEntry<V>>)
    ensures
        ordered(extents) <==> forall|i: int|
            0 <= i < extents.len() ==> #[trigger] extent_fault(extents, i) is None,
        forall|i: int|
            0 <= i < extents.len() ==> ((#[trigger] extent_fault(extents, i)) is None
                <==> extents[i].start < extents[i].end && (i > 0 ==> extents[i - 1].end
                <= extents[i].start)),
{
    if forall|i: int| 0 <= i < extents.len() ==> #[trigger] extent_fault(extents, i) is None {
        assert forall|i: int| 0 <= i < extents.len() implies (#[trigger] extents[i]).start
            < extents[i].end by {
            assert(extent_fault(extents, i) is None);
        }
        assert forall|i: int, j: int| 0 <= i < j < extents.len() implies (
        #[trigger] extents[i]).end <= (#[trigger] extents[j]).start by {
            lemma_faultless_order(extents, i, j);
        }
    }
    if ordered(extents) {
        assert forall|i: int| 0 <= i < extents.len() implies #[trigger] extent_fault(
            extents,
            i,
        ) is None by {
            if i > 0 {
                assert(extents[i - 1].end <= extents[i].start);
            }
        }
    }
}

proof fn lemma_faultless_order<V>(extents: Seq<ExtentEntry<V>>, from: int, to: int)
    requires
        0 <= from < to < extents.len(),
        forall|i: int| 0 <= i < extents.len() ==> #[trigger] extent_fault(extents, i) is None,
    ensures
        extents[from].end <= extents[to].start,
    decreases to - from,
{
    assert(extent_fault(extents, to) is None);
    if from < to - 1 {
        lemma_faultless_order(extents, from, to - 1);
        assert(extent_fault(extents, to - 1) is None);
    }
}

/// An extent that is put where none was shows at its positions, and every other position shows what
/// it did.
pub proof fn law_an_exact_insertion_shows_its_value<V>(
    before: Seq<ExtentEntry<V>>,
    after: Seq<ExtentEntry<V>>,
    index: int,
    entry: ExtentEntry<V>,
    position: int,
)
    requires
        ordered(before),
        ordered(after),
        0 <= index <= before.len(),
        after == before.insert(index, entry),
    ensures
        value_at(after, position) == (if entry.start <= position < entry.end {
            Some((entry.value, position - entry.start))
        } else {
            value_at(before, position)
        }),
{
    assert(after[index] == entry);
    if entry.start <= position < entry.end {
        lemma_value_at_covered(after, index, position);
    } else if value_at(before, position) is Some {
        let i = lemma_value_at_source(before, position);
        let moved = if i < index {
            i
        } else {
            i + 1
        };
        assert(after[moved] == before[i]);
        lemma_value_at_covered(after, moved, position);
    } else if value_at(after, position) is Some {
        let i = lemma_value_at_source(after, position);
        assert(i != index);
        let moved = if i < index {
            i
        } else {
            i - 1
        };
        assert(before[moved] == after[i]);
        lemma_value_at_covered(before, moved, position);
    }
}

/// An extent is inserted exactly when it is not empty and no extent has one of its positions; what
/// cannot be inserted changes nothing.
pub proof fn law_an_extent_is_inserted_where_there_is_room<V>(
    before: Seq<ExtentEntry<V>>,
    after: Seq<ExtentEntry<V>>,
    start: u64,
    end: u64,
    value: V,
    result: Result<()>,
)
    requires
        ordered(before),
        inserts_exactly(before, after, start, end, value, result),
    ensures
        result is Ok <==> start < end && (forall|i: int|
            0 <= i < before.len() ==> (#[trigger] before[i]).end <= start || end
                <= before[i].start),
        result is Ok ==> after.contains(ExtentEntry { start, end, value }),
        result is Err ==> after == before,
{
    let low = ending_by(before, start as int);
    let high = starting_before(before, end as int);
    lemma_ending_by(before, start as int);
    lemma_starting_before(before, end as int);
    if start < end && high < low {
        assert(before[high].end <= start && before[high].start >= end);
    }
    if result is Ok {
        assert(after[low] == (ExtentEntry { start, end, value }));
        assert forall|i: int| 0 <= i < before.len() implies (#[trigger] before[i]).end <= start
            || end <= before[i].start by {
            if low <= i < high {
                assert(touched(before, start as int, end as int)[i - low] == before[i]);
            }
        }
    } else if start < end {
        assert(touched(before, start as int, end as int)[0] == before[low]);
        assert(before[low].end > start && before[low].start < end);
    }
}

/// A search finds every extent that has a position of the range, and no other.
pub proof fn law_a_search_finds_what_overlaps<V>(
    extents: Seq<ExtentEntry<V>>,
    start: u64,
    end: u64,
    result: Result<Vec<ExtentRef<'_, V>>>,
    index: int,
    found: int,
)
    requires
        ordered(extents),
        finds_overlapping(extents, start, end, result),
    ensures
        result is Ok <==> start <= end,
        result matches Ok(refs) ==> {
            &&& 0 <= index < extents.len() && start < end && extents[index].start < end
                && extents[index].end > start ==> exists|i: int|
                0 <= i < refs@.len() && (#[trigger] refs@[i]).shows(extents[index])
            &&& 0 <= found < refs@.len() ==> refs@[found].start < end && refs@[found].end > start
        },
{
    if let Ok(refs) = result {
        if start < end {
            let low = ending_by(extents, start as int);
            let high = starting_before(extents, end as int);
            lemma_ending_by(extents, start as int);
            lemma_starting_before(extents, end as int);
            if high < low {
                assert(extents[high].end <= start && extents[high].start >= end);
            }
            let all = touched(extents, start as int, end as int);
            if 0 <= index < extents.len() && extents[index].start < end && extents[index].end
                > start {
                assert(all[index - low] == extents[index]);
                assert(refs@[index - low].shows(extents[index]));
            }
            if 0 <= found < refs@.len() {
                assert(refs@[found].shows(all[found]));
                assert(all[found] == extents[low + found]);
            }
        }
    }
}

} // verus!
