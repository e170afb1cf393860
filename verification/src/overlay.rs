//! Writes of the log that the committed tree does not hold yet, by position.

use crate::catalog::WalSeq;
use crate::error::Result;
use crate::extent_map::{
    all_show, content_at, ending_by, has_left_tail, has_right_tail, lemma_carved_replaced,
    lemma_ending_by, lemma_starting_before, lemma_touched, lemma_value_at_covered,
    lemma_value_at_source, ordered, replaced, starting_before, touched, unordered_extent_error,
    value_at, ExtentEntry, ExtentMap,
};
use crate::range::ByteRange;
use crate::wal::WalRecord;
use std::sync::Arc;
use vstd::prelude::*;

verus! {

/// The part of a record that shows from an offset of its payload on.
#[derive(Debug)]
pub struct OverlayExtent {
    pub seq: WalSeq,
    pub record: Arc<WalRecord>,
    pub record_offset: u64,
}

/// Retained writes: at each position the latest one.
#[derive(Debug)]
pub struct OverlayExtentMap {
    extents: ExtentMap<OverlayExtent>,
}

/// A run of bytes of one record that was found by a read.
#[derive(Debug)]
pub struct OverlayReadSlice {
    pub start: u64,
    pub end: u64,
    pub record: Arc<WalRecord>,
    pub record_offset: u64,
}

/// A run of bytes of one record that the committed tree holds now.
#[derive(Debug)]
pub struct RetiredOverlayExtent {
    pub start: u64,
    pub end: u64,
    pub seq: WalSeq,
    pub record: Arc<WalRecord>,
    pub record_offset: u64,
}

/// The piece of an extent that starts `delta` bytes into it.
pub open spec fn overlay_split(extent: OverlayExtent, delta: int) -> OverlayExtent {
    OverlayExtent { record_offset: (extent.record_offset + delta) as u64, ..extent }
}

/// The number and the byte that an extent shows at an offset.
pub open spec fn overlay_content(extent: OverlayExtent, offset: int) -> (int, u8) {
    (extent.record.number(), extent.record.payload()[extent.record_offset + offset])
}

/// The extent shows bytes that its record wrote at these positions.
pub open spec fn from_record(extent: ExtentEntry<OverlayExtent>) -> bool {
    let record = extent.value.record;
    &&& extent.value.seq@ == record.number()
    &&& record.wf()
    &&& extent.value.record_offset + (extent.end - extent.start) <= record.payload().len()
    &&& extent.start == record.span().first() + extent.value.record_offset
}

/// Extents are in order and show bytes of their records.
pub open spec fn overlays(extents: Seq<ExtentEntry<OverlayExtent>>) -> bool {
    &&& ordered(extents)
    &&& forall|i: int| 0 <= i < extents.len() ==> from_record(#[trigger] extents[i])
}

/// The number of the latest write at a position and the byte it wrote.
pub open spec fn shown_at(extents: Seq<ExtentEntry<OverlayExtent>>, position: int) -> Option<
    (int, u8),
> {
    content_at(extents, |extent: OverlayExtent, offset: int| overlay_content(extent, offset), position)
}

/// The extent of a whole record, up to the largest offset.
pub open spec fn whole_record(record: Arc<WalRecord>) -> ExtentEntry<OverlayExtent> {
    ExtentEntry {
        start: record.span().first() as u64,
        end: record.span().saturated_limit() as u64,
        value: OverlayExtent { seq: record.sequence(), record, record_offset: 0 },
    }
}

/// The extents after a record was written over them.
pub open spec fn overlaid(
    extents: Seq<ExtentEntry<OverlayExtent>>,
    record: Arc<WalRecord>,
) -> Seq<ExtentEntry<OverlayExtent>> {
    replaced(
        extents,
        record.span().first(),
        record.span().saturated_limit(),
        seq![whole_record(record)],
        |extent: OverlayExtent, delta: int| overlay_split(extent, delta),
    )
}

/// All that an extent shows.
pub open spec fn extent_slice(extent: ExtentEntry<OverlayExtent>) -> OverlayReadSlice {
    OverlayReadSlice {
        start: extent.start,
        end: extent.end,
        record: extent.value.record,
        record_offset: extent.value.record_offset,
    }
}

/// The part of `[start, end)` that an extent shows.
pub open spec fn overlay_slice(
    extent: ExtentEntry<OverlayExtent>,
    start: int,
    end: int,
) -> OverlayReadSlice {
    let from = if start < extent.start {
        extent.start as int
    } else {
        start
    };
    let to = if end < extent.end {
        end
    } else {
        extent.end as int
    };
    OverlayReadSlice {
        start: from as u64,
        end: to as u64,
        record: extent.value.record,
        record_offset: (extent.value.record_offset + (from - extent.start)) as u64,
    }
}

/// The parts of `[start, end)` that the extents show, in ascending order.
pub open spec fn overlay_slices(
    extents: Seq<ExtentEntry<OverlayExtent>>,
    start: int,
    end: int,
) -> Seq<OverlayReadSlice> {
    if start < end {
        touched(extents, start, end).map_values(
            |extent: ExtentEntry<OverlayExtent>| overlay_slice(extent, start, end),
        )
    } else {
        Seq::empty()
    }
}

/// The extent as one that the committed tree holds now.
pub open spec fn as_retired(extent: ExtentEntry<OverlayExtent>) -> RetiredOverlayExtent {
    RetiredOverlayExtent {
        start: extent.start,
        end: extent.end,
        seq: extent.value.seq,
        record: extent.value.record,
        record_offset: extent.value.record_offset,
    }
}

/// Ordered by log number and, for one record, by position.
pub open spec fn before_in_log(first: RetiredOverlayExtent, second: RetiredOverlayExtent) -> bool {
    first.seq@ < second.seq@ || (first.seq@ == second.seq@ && first.start < second.start)
}

/// The retired extent is one of the extents, of a record up to `through`.
pub open spec fn retired_from(
    extents: Seq<ExtentEntry<OverlayExtent>>,
    through: int,
    entry: RetiredOverlayExtent,
) -> bool {
    exists|j: int|
        0 <= j < extents.len() && (#[trigger] extents[j]).value.seq@ <= through && entry
            == as_retired(extents[j])
}

/// `retired` are the extents of the records up to `through`, oldest record first.
pub open spec fn retires(
    extents: Seq<ExtentEntry<OverlayExtent>>,
    through: int,
    retired: Seq<RetiredOverlayExtent>,
) -> bool {
    &&& forall|i: int, j: int|
        0 <= i < j < retired.len() ==> before_in_log(#[trigger] retired[i], #[trigger] retired[j])
    &&& forall|i: int|
        0 <= i < retired.len() ==> retired_from(extents, through, #[trigger] retired[i])
    &&& forall|j: int|
        0 <= j < extents.len() && (#[trigger] extents[j]).value.seq@ <= through
            ==> retired.contains(as_retired(extents[j]))
}

/// The bytes that extents cover.
pub open spec fn covered_bytes(extents: Seq<ExtentEntry<OverlayExtent>>) -> int
    decreases extents.len(),
{
    if extents.len() == 0 {
        0
    } else {
        covered_bytes(extents.drop_last()) + (extents.last().end - extents.last().start)
    }
}

/// The bytes of retired extents.
pub open spec fn retired_bytes(retired: Seq<RetiredOverlayExtent>) -> int
    decreases retired.len(),
{
    if retired.len() == 0 {
        0
    } else {
        retired_bytes(retired.drop_last()) + (retired.last().end - retired.last().start)
    }
}

/// What the covered bytes lose with an extent.
proof fn lemma_covered_bytes_remove(extents: Seq<ExtentEntry<OverlayExtent>>, index: int)
    requires
        0 <= index < extents.len(),
    ensures
        covered_bytes(extents.remove(index)) == covered_bytes(extents) - (extents[index].end
            - extents[index].start),
    decreases extents.len(),
{
    if index == extents.len() - 1 {
        assert(extents.remove(index) =~= extents.drop_last());
    } else {
        let front = extents.drop_last();
        lemma_covered_bytes_remove(front, index);
        assert(extents.remove(index).drop_last() =~= front.remove(index));
        assert(extents.remove(index).last() == extents.last());
    }
}

/// Different pieces of the extents hold no more bytes than all extents.
proof fn lemma_distinct_bytes(
    extents: Seq<ExtentEntry<OverlayExtent>>,
    through: int,
    retired: Seq<RetiredOverlayExtent>,
)
    requires
        forall|i: int| 0 <= i < extents.len() ==> (#[trigger] extents[i]).start < extents[i].end,
        forall|i: int|
            0 <= i < retired.len() ==> retired_from(extents, through, #[trigger] retired[i]),
        retired.no_duplicates(),
    ensures
        retired_bytes(retired) <= covered_bytes(extents),
    decreases retired.len(),
{
    if retired.len() > 0 {
        let front = retired.drop_last();
        let last = retired.len() - 1;
        assert(retired_from(extents, through, retired[last]));
        let j = choose|j: int|
            0 <= j < extents.len() && (#[trigger] extents[j]).value.seq@ <= through
                && retired[last] == as_retired(extents[j]);
        let rest = extents.remove(j);
        lemma_covered_bytes_remove(extents, j);
        assert forall|i: int| 0 <= i < front.len() implies retired_from(
            rest,
            through,
            #[trigger] front[i],
        ) by {
            assert(front[i] == retired[i]);
            assert(retired[i] != retired[last]);
            assert(retired_from(extents, through, retired[i]));
            let k = choose|k: int|
                0 <= k < extents.len() && (#[trigger] extents[k]).value.seq@ <= through
                    && retired[i] == as_retired(extents[k]);
            let to = if k < j {
                k
            } else {
                k - 1
            };
            assert(rest[to] == extents[k]);
        }
        lemma_distinct_bytes(rest, through, front);
    } else {
        lemma_covered_nonnegative(extents);
    }
}

proof fn lemma_covered_nonnegative(extents: Seq<ExtentEntry<OverlayExtent>>)
    requires
        forall|i: int| 0 <= i < extents.len() ==> (#[trigger] extents[i]).start < extents[i].end,
    ensures
        covered_bytes(extents) >= 0,
    decreases extents.len(),
{
    if extents.len() > 0 {
        lemma_covered_nonnegative(extents.drop_last());
        assert(extents[extents.len() - 1].start < extents[extents.len() - 1].end);
    }
}

/// Retired extents hold no more bytes than the extents they come from.
pub proof fn lemma_retires_bytes(
    extents: Seq<ExtentEntry<OverlayExtent>>,
    through: int,
    retired: Seq<RetiredOverlayExtent>,
)
    requires
        overlays(extents),
        retires(extents, through, retired),
    ensures
        retired_bytes(retired) <= covered_bytes(extents),
{
    assert forall|i: int, j: int|
        0 <= i < retired.len() && 0 <= j < retired.len() && i != j implies retired[i]
        != retired[j] by {
        if i < j {
            assert(before_in_log(retired[i], retired[j]));
        } else {
            assert(before_in_log(retired[j], retired[i]));
        }
    }
    lemma_distinct_bytes(extents, through, retired);
}

/// The extents of the records after `through`.
pub open spec fn newer(extents: Seq<ExtentEntry<OverlayExtent>>, through: int) -> Seq<
    ExtentEntry<OverlayExtent>,
>
    decreases extents.len(),
{
    if extents.len() == 0 {
        Seq::empty()
    } else if extents.last().value.seq@ <= through {
        newer(extents.drop_last(), through)
    } else {
        newer(extents.drop_last(), through).push(extents.last())
    }
}

/// Writing a record over the extents keeps them valid and changes what shows in its range.
pub proof fn lemma_overlaid(
    extents: Seq<ExtentEntry<OverlayExtent>>,
    after: Seq<ExtentEntry<OverlayExtent>>,
    record: Arc<WalRecord>,
)
    requires
        overlays(extents),
        record.wf(),
        record.span().first() < record.span().saturated_limit(),
        after == overlaid(extents, record),
    ensures
        overlays(after),
        forall|position: int| #[trigger]
            shown_at(after, position) == (if record.span().first() <= position
                < record.span().saturated_limit() {
                Some((record.number(), record.payload()[position - record.span().first()]))
            } else {
                shown_at(extents, position)
            }),
{
    let start = record.span().first();
    let end = record.span().saturated_limit();
    record.span().lemma_bounds(record.span());
    lemma_touched(extents, start, end);
    let low = ending_by(extents, start);
    let high = starting_before(extents, end);
    let left = if has_left_tail(extents, start, end) {
        1int
    } else {
        0int
    };
    let right = if has_right_tail(extents, start, end) {
        1int
    } else {
        0int
    };
    assert(after.len() == low + left + 1 + right + (extents.len() - high));
    assert forall|i: int| 0 <= i < after.len() implies overlaid_at(
        extents,
        after,
        record,
        i,
    ) by {
        lemma_overlaid_at(extents, after, record, i);
    }
    assert forall|i: int| 0 <= i < after.len() implies from_record(#[trigger] after[i]) by {
        assert(overlaid_at(extents, after, record, i));
    }
    assert forall|i: int, j: int| 0 <= i < j < after.len() implies (#[trigger] after[i]).end <= (
    #[trigger] after[j]).start by {
        assert(overlaid_at(extents, after, record, i));
        assert(overlaid_at(extents, after, record, j));
    }
    assert forall|i: int| 0 <= i < after.len() implies (#[trigger] after[i]).start
        < after[i].end by {
        assert(overlaid_at(extents, after, record, i));
    }
    assert forall|position: int| #[trigger] shown_at(after, position) == (if start <= position
        < end {
        Some((record.number(), record.payload()[position - start]))
    } else {
        shown_at(extents, position)
    }) by {
        lemma_overlaid_shows(extents, after, record, position);
    }
}

/// Where the extent at index `i` comes from after a record was written over the extents.
spec fn overlaid_at(
    extents: Seq<ExtentEntry<OverlayExtent>>,
    after: Seq<ExtentEntry<OverlayExtent>>,
    record: Arc<WalRecord>,
    i: int,
) -> bool {
    let start = record.span().first();
    let end = record.span().saturated_limit();
    let low = ending_by(extents, start);
    let high = starting_before(extents, end);
    let left = if has_left_tail(extents, start, end) {
        1int
    } else {
        0int
    };
    let right = if has_right_tail(extents, start, end) {
        1int
    } else {
        0int
    };
    &&& after[i].start < after[i].end
    &&& from_record(after[i])
    &&& if i < low + left {
        &&& after[i].value == extents[i].value
        &&& after[i].start == extents[i].start
        &&& after[i].end <= start
        &&& after[i].end <= extents[i].end
        &&& after[i].end == extents[i].end || after[i].end == start
    } else if i == low + left {
        after[i] == whole_record(record)
    } else {
        let j = if i < low + left + 1 + right {
            high - 1
        } else {
            i - (low + left + 1 + right) + high
        };
        &&& 0 <= j < extents.len()
        &&& after[i].start >= end
        &&& after[i].start >= extents[j].start
        &&& after[i].end == extents[j].end
        &&& after[i].start == extents[j].start || after[i].start == end
        &&& after[i].value == overlay_split(extents[j].value, after[i].start - extents[j].start)
    }
}

proof fn lemma_overlaid_at(
    extents: Seq<ExtentEntry<OverlayExtent>>,
    after: Seq<ExtentEntry<OverlayExtent>>,
    record: Arc<WalRecord>,
    i: int,
)
    requires
        overlays(extents),
        record.wf(),
        record.span().first() < record.span().saturated_limit(),
        after == overlaid(extents, record),
        0 <= i < after.len(),
    ensures
        overlaid_at(extents, after, record, i),
{
    let start = record.span().first();
    let end = record.span().saturated_limit();
    record.span().lemma_bounds(record.span());
    lemma_touched(extents, start, end);
    lemma_offsets_fit(extents);
    let low = ending_by(extents, start);
    let high = starting_before(extents, end);
    let left = if has_left_tail(extents, start, end) {
        1int
    } else {
        0int
    };
    let right = if has_right_tail(extents, start, end) {
        1int
    } else {
        0int
    };
    if i < low {
        assert(after[i] == extents[i]);
        assert(from_record(extents[i]));
        lemma_ending_by(extents, start);
    } else if i < low + left {
        assert(from_record(extents[low]));
        assert(after[i].value == overlay_split(extents[low].value, 0));
        assert(after[i].value == extents[low].value);
    } else if i == low + left {
        assert(after[i] == whole_record(record));
    } else if i < low + left + 1 + right {
        assert(from_record(extents[high - 1]));
        assert(after[i].value == overlay_split(
            extents[high - 1].value,
            end - extents[high - 1].start,
        ));
    } else {
        let j = i - (low + left + 1 + right) + high;
        assert(after[i] == extents[j]);
        assert(from_record(extents[j]));
        assert(overlay_split(extents[j].value, 0) == extents[j].value);
        lemma_starting_before(extents, end);
    }
}

/// After a record was written over the extents, each one is the record's or a piece of one that
/// was there.
pub proof fn lemma_overlaid_member(
    extents: Seq<ExtentEntry<OverlayExtent>>,
    record: Arc<WalRecord>,
    i: int,
) -> (source: Option<int>)
    requires
        overlays(extents),
        record.wf(),
        record.span().first() < record.span().saturated_limit(),
        0 <= i < overlaid(extents, record).len(),
    ensures
        match source {
            Some(j) => {
                &&& 0 <= j < extents.len()
                &&& overlaid(extents, record)[i].value.seq == extents[j].value.seq
                &&& overlaid(extents, record)[i].end <= extents[j].end
            },
            None => overlaid(extents, record)[i] == whole_record(record),
        },
{
    let start = record.span().first();
    let end = record.span().saturated_limit();
    record.span().lemma_bounds(record.span());
    let low = ending_by(extents, start);
    let high = starting_before(extents, end);
    lemma_touched(extents, start, end);
    let left = if has_left_tail(extents, start, end) {
        1int
    } else {
        0int
    };
    let right = if has_right_tail(extents, start, end) {
        1int
    } else {
        0int
    };
    lemma_overlaid_at(extents, overlaid(extents, record), record, i);
    if i < low + left {
        Some(i)
    } else if i == low + left {
        None
    } else if i < low + left + 1 + right {
        Some(high - 1)
    } else {
        Some(i - (low + left + 1 + right) + high)
    }
}

proof fn lemma_overlaid_shows(
    extents: Seq<ExtentEntry<OverlayExtent>>,
    after: Seq<ExtentEntry<OverlayExtent>>,
    record: Arc<WalRecord>,
    position: int,
)
    requires
        overlays(extents),
        record.wf(),
        record.span().first() < record.span().saturated_limit(),
        after == overlaid(extents, record),
        ordered(after),
        forall|i: int| 0 <= i < after.len() ==> overlaid_at(extents, after, record, i),
    ensures
        shown_at(after, position) == (if record.span().first() <= position
            < record.span().saturated_limit() {
            Some((record.number(), record.payload()[position - record.span().first()]))
        } else {
            shown_at(extents, position)
        }),
{
    let start = record.span().first();
    let end = record.span().saturated_limit();
    record.span().lemma_bounds(record.span());
    lemma_touched(extents, start, end);
    let low = ending_by(extents, start);
    let high = starting_before(extents, end);
    let left = if has_left_tail(extents, start, end) {
        1int
    } else {
        0int
    };
    let right = if has_right_tail(extents, start, end) {
        1int
    } else {
        0int
    };
    assert(after.len() == low + left + 1 + right + (extents.len() - high));
    lemma_offsets_fit(extents);
    if start <= position < end {
        let i = low + left;
        assert(overlaid_at(extents, after, record, i));
        lemma_value_at_covered(after, i, position);
    } else if value_at(extents, position) is Some {
        let j = lemma_value_at_source(extents, position);
        lemma_ending_by(extents, start);
        lemma_starting_before(extents, end);
        if position < start {
            if j > low {
                assert(extents[low].end <= extents[j].start);
            }
            assert(j < low + left);
        } else if j < high {
            assert(low <= j);
            if j < high - 1 {
                assert(extents[j].end <= extents[high - 1].start);
            }
            assert(j == high - 1 && right == 1);
        }
        let i = if position < start {
            j
        } else if j == high - 1 {
            low + left + 1
        } else {
            j - high + (low + left + 1 + right)
        };
        assert(overlaid_at(extents, after, record, i));
        lemma_value_at_covered(after, i, position);
        lemma_value_at_covered(extents, j, position);
    } else if value_at(after, position) is Some {
        let i = lemma_value_at_source(after, position);
        assert(overlaid_at(extents, after, record, i));
        let j = if i < low + left {
            i
        } else if i < low + left + 1 + right {
            high - 1
        } else {
            i - (low + left + 1 + right) + high
        };
        lemma_value_at_covered(extents, j, position);
    }
}

/// An extent of a newer record stays.
proof fn lemma_newer_place(extents: Seq<ExtentEntry<OverlayExtent>>, through: int, j: int) -> (i:
    int)
    requires
        0 <= j < extents.len(),
        extents[j].value.seq@ > through,
    ensures
        0 <= i < newer(extents, through).len(),
        newer(extents, through)[i] == extents[j],
    decreases extents.len(),
{
    let front = extents.drop_last();
    if j == extents.len() - 1 {
        newer(front, through).len() as int
    } else {
        lemma_newer_place(front, through, j)
    }
}

/// An extent that stays is one of those that were there.
pub proof fn lemma_newer_source(extents: Seq<ExtentEntry<OverlayExtent>>, through: int, i: int) -> (j:
    int)
    requires
        0 <= i < newer(extents, through).len(),
    ensures
        0 <= j < extents.len(),
        newer(extents, through)[i] == extents[j],
        extents[j].value.seq@ > through,
    decreases extents.len(),
{
    let front = extents.drop_last();
    if extents.last().value.seq@ > through && i == newer(front, through).len() {
        extents.len() - 1
    } else {
        lemma_newer_source(front, through, i)
    }
}

proof fn lemma_newer_ordered(extents: Seq<ExtentEntry<OverlayExtent>>, through: int)
    requires
        overlays(extents),
    ensures
        overlays(newer(extents, through)),
    decreases extents.len(),
{
    if extents.len() > 0 {
        let front = extents.drop_last();
        assert(forall|i: int| 0 <= i < front.len() ==> front[i] == extents[i]);
        lemma_newer_ordered(front, through);
        let after = newer(extents, through);
        let rest = newer(front, through);
        let last = extents.len() - 1;
        assert(from_record(extents[last]));
        if extents.last().value.seq@ > through {
            assert forall|i: int, j: int| 0 <= i < j < after.len() implies (
            #[trigger] after[i]).end <= (#[trigger] after[j]).start by {
                if j == rest.len() {
                    let k = lemma_newer_source(front, through, i);
                    assert(extents[k].end <= extents[last].start);
                } else {
                    assert(rest[i].end <= rest[j].start);
                }
            }
            assert forall|i: int| 0 <= i < after.len() implies from_record(#[trigger] after[i])
                && after[i].start < after[i].end by {
                if i < rest.len() {
                    assert(from_record(rest[i]));
                }
            }
        }
    }
}

/// Dropping the records up to `through` uncovers what they show and nothing else.
pub proof fn lemma_newer(extents: Seq<ExtentEntry<OverlayExtent>>, through: int)
    requires
        overlays(extents),
    ensures
        overlays(newer(extents, through)),
        forall|position: int| #[trigger]
            shown_at(newer(extents, through), position) == (match shown_at(extents, position) {
                Some((number, byte)) => if number <= through {
                    None
                } else {
                    Some((number, byte))
                },
                None => None,
            }),
{
    lemma_newer_ordered(extents, through);
    let after = newer(extents, through);
    assert forall|position: int| #[trigger] shown_at(after, position) == (match shown_at(
        extents,
        position,
    ) {
        Some((number, byte)) => if number <= through {
            None
        } else {
            Some((number, byte))
        },
        None => None,
    }) by {
        if value_at(extents, position) is Some {
            let j = lemma_value_at_source(extents, position);
            assert(from_record(extents[j]));
            if extents[j].value.seq@ > through {
                let i = lemma_newer_place(extents, through, j);
                lemma_value_at_covered(after, i, position);
            } else if value_at(after, position) is Some {
                let i = lemma_value_at_source(after, position);
                let k = lemma_newer_source(extents, through, i);
                lemma_value_at_covered(extents, k, position);
            }
        } else if value_at(after, position) is Some {
            let i = lemma_value_at_source(after, position);
            let k = lemma_newer_source(extents, through, i);
            lemma_value_at_covered(extents, k, position);
        }
    }
}

impl View for OverlayExtentMap {
    type V = Seq<ExtentEntry<OverlayExtent>>;

    closed spec fn view(&self) -> Seq<ExtentEntry<OverlayExtent>> {
        self.extents@
    }
}

impl OverlayExtent {
    /// The piece that starts `delta` bytes into the extent.
    fn split_at(&self, delta: u64) -> (piece: OverlayExtent)
        requires
            self.record_offset + delta <= u64::MAX,
        ensures
            piece == overlay_split(*self, delta as int),
    {
        OverlayExtent {
            seq: self.seq,
            record: self.record.clone(),
            record_offset: self.record_offset + delta,
        }
    }
}

impl OverlayExtentMap {
    /// Extents are in order and show bytes of their records.
    pub open spec fn wf(self) -> bool {
        overlays(self@)
    }

    pub fn new() -> (map: Self)
        ensures
            map.wf(),
            map@ == Seq::<ExtentEntry<OverlayExtent>>::empty(),
    {
        Self { extents: ExtentMap::new() }
    }

    pub fn is_empty(&self) -> (empty: bool)
        ensures
            empty == (self@.len() == 0),
    {
        self.extents.is_empty()
    }

    /// The bytes that the extents cover.
    pub fn covered(&self) -> (bytes: u64)
        requires
            self.wf(),
        ensures
            bytes == covered_bytes(self@),
    {
        let count: usize = self.extents.len();
        let mut bytes: u64 = 0;
        let mut index: usize = 0;
        proof {
            assert(self@.take(0) =~= Seq::<ExtentEntry<OverlayExtent>>::empty());
        }
        while index < count
            invariant
                index <= count,
                count == self@.len(),
                self@ == self.extents@,
                self.wf(),
                bytes == covered_bytes(self@.take(index as int)),
                index > 0 ==> bytes <= self@[index - 1].end,
                index == 0 ==> bytes == 0,
            decreases count - index,
        {
            let extent = self.extents.entry(index);
            proof {
                assert(self@.take(index + 1).drop_last() =~= self@.take(index as int));
                assert(self@.take(index + 1).last() == self@[index as int]);
                assert(self@[index as int].start < self@[index as int].end);
                if index > 0 {
                    assert(self@[index - 1].end <= self@[index as int].start);
                }
            }
            bytes = bytes + (extent.end - extent.start);
            index = index + 1;
        }
        proof {
            assert(self@.take(index as int) =~= self@);
        }
        bytes
    }

    /// Writes a record over what its range showed.
    pub fn insert_record(&mut self, record: Arc<WalRecord>) -> (result: Result<()>)
        requires
            old(self).wf(),
        ensures
            final(self).wf(),
            match result {
                Ok(_) => {
                    &&& record.span().first() < record.span().saturated_limit()
                    &&& final(self)@ == overlaid(old(self)@, record)
                },
                Err(error) => {
                    &&& record.span().first() == u64::MAX
                    &&& error@ == unordered_extent_error(u64::MAX, u64::MAX)
                    &&& final(self)@ == old(self)@
                },
            },
    {
        let range = record.range();
        let start: u64 = range.start();
        let end: u64 = range.end();
        let seq = record.seq();
        let ghost before = self@;
        let ghost written = record;
        let split = |extent: &OverlayExtent, delta: u64| -> (piece: OverlayExtent)
            requires
                extent.record_offset + delta <= u64::MAX,
            ensures
                piece == overlay_split(*extent, delta as int),
            { extent.split_at(delta) };
        proof {
            lemma_offsets_fit(before);
        }
        let value = OverlayExtent { seq, record, record_offset: 0 };
        match self.extents.insert_overwrite_with_split(start, end, value, split) {
            Ok(_) => {
                proof {
                    lemma_carved_replaced(
                        before,
                        self@,
                        start,
                        end,
                        seq![whole_record(written)],
                        split,
                        |extent: OverlayExtent, delta: int| overlay_split(extent, delta),
                    );
                    assert(self@ == overlaid(before, written));
                    lemma_overlaid(before, self@, written);
                }
                Ok(())
            },
            Err(error) => Err(error),
        }
    }
}

proof fn lemma_offsets_fit(extents: Seq<ExtentEntry<OverlayExtent>>)
    requires
        overlays(extents),
    ensures
        forall|i: int|
            0 <= i < extents.len() ==> (#[trigger] extents[i]).value.record_offset + (
            extents[i].end - extents[i].start) <= u32::MAX,
{
    assert forall|i: int| 0 <= i < extents.len() implies (
    #[trigger] extents[i]).value.record_offset + (extents[i].end - extents[i].start)
        <= u32::MAX by {
        assert(from_record(extents[i]));
        let span = extents[i].value.record.span();
        span.lemma_bounds(span);
    }
}

proof fn lemma_retired_from_longer(
    extents: Seq<ExtentEntry<OverlayExtent>>,
    through: int,
    entry: RetiredOverlayExtent,
    count: int,
) -> (j: int)
    requires
        0 <= count < extents.len(),
        retired_from(extents.take(count), through, entry),
    ensures
        retired_from(extents.take(count + 1), through, entry),
        0 <= j < count,
        entry == as_retired(extents[j]),
{
    let j = choose|j: int|
        0 <= j < extents.take(count).len() && (#[trigger] extents.take(count)[j]).value.seq@
            <= through && entry == as_retired(extents.take(count)[j]);
    assert(extents.take(count + 1)[j] == extents.take(count)[j]);
    j
}

/// What an insertion adds.
proof fn lemma_insert_contains(
    retired: Seq<RetiredOverlayExtent>,
    place: int,
    fresh: RetiredOverlayExtent,
    entry: RetiredOverlayExtent,
)
    requires
        0 <= place <= retired.len(),
        retired.contains(entry) || entry == fresh,
    ensures
        retired.insert(place, fresh).contains(entry),
{
    let after = retired.insert(place, fresh);
    if entry == fresh {
        assert(after[place] == entry);
    } else {
        let i = choose|i: int| 0 <= i < retired.len() && retired[i] == entry;
        let to = if i < place {
            i
        } else {
            i + 1
        };
        assert(after[to] == entry);
    }
}

/// Inserting an extent between the older and the newer ones keeps the order.
proof fn lemma_insert_in_log(
    retired: Seq<RetiredOverlayExtent>,
    place: int,
    fresh: RetiredOverlayExtent,
)
    requires
        0 <= place <= retired.len(),
        forall|i: int, j: int|
            0 <= i < j < retired.len() ==> before_in_log(
                #[trigger] retired[i],
                #[trigger] retired[j],
            ),
        forall|i: int| 0 <= i < place ==> before_in_log(#[trigger] retired[i], fresh),
        forall|i: int| place <= i < retired.len() ==> before_in_log(fresh, #[trigger] retired[i]),
    ensures
        forall|i: int, j: int|
            0 <= i < j < retired.len() + 1 ==> before_in_log(
                #[trigger] retired.insert(place, fresh)[i],
                #[trigger] retired.insert(place, fresh)[j],
            ),
{
    let after = retired.insert(place, fresh);
    assert forall|i: int, j: int| 0 <= i < j < after.len() implies before_in_log(
        #[trigger] after[i],
        #[trigger] after[j],
    ) by {
        if i == place {
            assert(after[j] == retired[j - 1]);
        } else if j == place {
            assert(after[i] == retired[i]);
        } else {
            let from = if i < place {
                i
            } else {
                i - 1
            };
            let to = if j < place {
                j
            } else {
                j - 1
            };
            assert(after[i] == retired[from] && after[j] == retired[to]);
        }
    }
}

/// Taking in one more extent at its place keeps the retired extents complete and in order.
proof fn lemma_retires_step(
    extents: Seq<ExtentEntry<OverlayExtent>>,
    through: int,
    retired: Seq<RetiredOverlayExtent>,
    count: int,
    place: int,
)
    requires
        overlays(extents),
        0 <= count < extents.len(),
        retires(extents.take(count), through, retired),
        extents[count].value.seq@ <= through,
        0 <= place <= retired.len(),
        forall|i: int|
            0 <= i < place ==> (#[trigger] retired[i]).seq@ <= extents[count].value.seq@,
        forall|i: int|
            place <= i < retired.len() ==> (#[trigger] retired[i]).seq@
                > extents[count].value.seq@,
    ensures
        retires(
            extents.take(count + 1),
            through,
            retired.insert(place, as_retired(extents[count])),
        ),
{
    let fresh = as_retired(extents[count]);
    let after = retired.insert(place, fresh);
    let taken = extents.take(count + 1);
    assert forall|i: int| 0 <= i < place implies before_in_log(#[trigger] retired[i], fresh) by {
        let j = lemma_retired_from_longer(extents, through, retired[i], count);
        assert(extents[j].start < extents[j].end);
        assert(extents[j].end <= extents[count].start);
    }
    lemma_insert_in_log(retired, place, fresh);
    assert forall|i: int| 0 <= i < after.len() implies retired_from(
        taken,
        through,
        #[trigger] after[i],
    ) by {
        if i == place {
            assert(taken[count] == extents[count]);
        } else {
            let from = if i < place {
                i
            } else {
                i - 1
            };
            assert(after[i] == retired[from]);
            let j = lemma_retired_from_longer(extents, through, retired[from], count);
        }
    }
    assert forall|j: int|
        0 <= j < taken.len() && (#[trigger] taken[j]).value.seq@ <= through implies after.contains(
        as_retired(taken[j]),
    ) by {
        if j < count {
            assert(taken[j] == extents.take(count)[j]);
        }
        lemma_insert_contains(retired, place, fresh, as_retired(taken[j]));
    }
}

/// An extent of a later record changes nothing.
proof fn lemma_retires_skip(
    extents: Seq<ExtentEntry<OverlayExtent>>,
    through: int,
    retired: Seq<RetiredOverlayExtent>,
    count: int,
)
    requires
        0 <= count < extents.len(),
        retires(extents.take(count), through, retired),
        extents[count].value.seq@ > through,
    ensures
        retires(extents.take(count + 1), through, retired),
{
    let taken = extents.take(count + 1);
    assert forall|i: int| 0 <= i < retired.len() implies retired_from(
        taken,
        through,
        #[trigger] retired[i],
    ) by {
        let j = lemma_retired_from_longer(extents, through, retired[i], count);
    }
    assert forall|j: int|
        0 <= j < taken.len() && (#[trigger] taken[j]).value.seq@
            <= through implies retired.contains(as_retired(taken[j])) by {
        assert(j < count);
        assert(taken[j] == extents.take(count)[j]);
    }
}

impl Clone for OverlayExtentMap {
    fn clone(&self) -> (copy: Self)
        ensures
            copy@ == self@,
    {
        let count: usize = self.extents.len();
        let mut copied: Vec<ExtentEntry<OverlayExtent>> = Vec::new();
        let mut index: usize = 0;
        while index < count
            invariant
                index <= count,
                count == self.extents@.len(),
                copied@ == self.extents@.take(index as int),
            decreases count - index,
        {
            let extent = self.extents.entry(index);
            copied.push(
                ExtentEntry {
                    start: extent.start,
                    end: extent.end,
                    value: OverlayExtent {
                        seq: extent.value.seq,
                        record: extent.value.record.clone(),
                        record_offset: extent.value.record_offset,
                    },
                },
            );
            index = index + 1;
            proof {
                assert(copied@ =~= self.extents@.take(index as int));
            }
        }
        proof {
            assert(copied@ =~= self.extents@);
        }
        Self { extents: ExtentMap::from_entries(copied) }
    }
}

impl OverlayExtentMap {
    /// The retained runs of a range, in ascending order.
    pub fn read_slices(&self, range: ByteRange) -> (result: Result<Vec<OverlayReadSlice>>)
        requires
            self.wf(),
        ensures
            result matches Ok(slices) && slices@ == overlay_slices(
                self@,
                range.first(),
                range.saturated_limit(),
            ),
    {
        let start: u64 = range.start();
        let end: u64 = range.end();
        let mut slices: Vec<OverlayReadSlice> = Vec::new();
        if start >= end {
            return Ok(slices);
        }
        let parts = match self.extents.overlapping(start, end) {
            Ok(parts) => parts,
            Err(error) => {
                return Err(error);
            },
        };
        let ghost shown = touched(self@, start as int, end as int);
        proof {
            lemma_touched(self@, start as int, end as int);
            lemma_offsets_fit(self@);
            assert forall|i: int| 0 <= i < shown.len() implies start < (#[trigger] shown[i]).end
                && shown[i].start < end && shown[i].start < shown[i].end
                && shown[i].value.record_offset + (shown[i].end - shown[i].start)
                <= u32::MAX by {
                let place = ending_by(self@, start as int) + i;
                assert(shown[i] == self@[place]);
            }
        }
        let mut index: usize = 0;
        while index < parts.len()
            invariant
                start < end,
                index <= parts@.len(),
                all_show(parts@, shown),
                forall|i: int|
                    0 <= i < shown.len() ==> start < (#[trigger] shown[i]).end && shown[i].start
                        < end && shown[i].start < shown[i].end && shown[i].value.record_offset + (
                    shown[i].end - shown[i].start) <= u32::MAX,
                slices@ == shown.take(index as int).map_values(
                    |extent: ExtentEntry<OverlayExtent>|
                        overlay_slice(extent, start as int, end as int),
                ),
            decreases parts@.len() - index,
        {
            let extent = &parts[index];
            proof {
                assert(parts@[index as int].shows(shown[index as int]));
            }
            let from: u64 = if start < extent.start {
                extent.start
            } else {
                start
            };
            let to: u64 = if end < extent.end {
                end
            } else {
                extent.end
            };
            slices.push(
                OverlayReadSlice {
                    start: from,
                    end: to,
                    record: extent.value.record.clone(),
                    record_offset: extent.value.record_offset + (from - extent.start),
                },
            );
            proof {
                assert(shown.take(index + 1) =~= shown.take(index as int).push(
                    shown[index as int],
                ));
                assert(slices@ =~= shown.take(index + 1).map_values(
                    |extent: ExtentEntry<OverlayExtent>|
                        overlay_slice(extent, start as int, end as int),
                ));
            }
            index = index + 1;
        }
        proof {
            assert(shown.take(index as int) =~= shown);
        }
        Ok(slices)
    }

    /// All retained runs, in ascending order.
    pub fn all_slices(&self) -> (slices: Vec<OverlayReadSlice>)
        ensures
            slices@ == self@.map_values(
                |extent: ExtentEntry<OverlayExtent>| extent_slice(extent),
            ),
    {
        let count: usize = self.extents.len();
        let mut slices: Vec<OverlayReadSlice> = Vec::new();
        let mut index: usize = 0;
        while index < count
            invariant
                index <= count,
                count == self@.len(),
                self@ == self.extents@,
                slices@ == self@.take(index as int).map_values(
                    |extent: ExtentEntry<OverlayExtent>| extent_slice(extent),
                ),
            decreases count - index,
        {
            let extent = self.extents.entry(index);
            slices.push(
                OverlayReadSlice {
                    start: extent.start,
                    end: extent.end,
                    record: extent.value.record.clone(),
                    record_offset: extent.value.record_offset,
                },
            );
            proof {
                assert(slices@ =~= self@.take(index + 1).map_values(
                    |extent: ExtentEntry<OverlayExtent>| extent_slice(extent),
                ));
            }
            index = index + 1;
        }
        proof {
            assert(self@.take(index as int) =~= self@);
        }
        slices
    }

    /// The extents of the records up to `seq`, oldest record first.
    pub fn visible_through(&self, seq: WalSeq) -> (retired: Vec<RetiredOverlayExtent>)
        requires
            self.wf(),
        ensures
            retires(self@, seq@, retired@),
    {
        let count: usize = self.extents.len();
        let through: u64 = seq.get();
        let mut retired: Vec<RetiredOverlayExtent> = Vec::new();
        let mut index: usize = 0;
        while index < count
            invariant
                index <= count,
                count == self@.len(),
                self.wf(),
                self@ == self.extents@,
                through == seq@,
                retires(self@.take(index as int), seq@, retired@),
            decreases count - index,
        {
            let extent = self.extents.entry(index);
            let number: u64 = extent.value.seq.get();
            if number <= through {
                let mut place: usize = retired.len();
                while place > 0 && retired[place - 1].seq.get() > number
                    invariant
                        place <= retired@.len(),
                        forall|i: int|
                            place <= i < retired@.len() ==> (#[trigger] retired@[i]).seq@ > number,
                    decreases place,
                {
                    place = place - 1;
                }
                let fresh = RetiredOverlayExtent {
                    start: extent.start,
                    end: extent.end,
                    seq: extent.value.seq,
                    record: extent.value.record.clone(),
                    record_offset: extent.value.record_offset,
                };
                proof {
                    assert forall|i: int| 0 <= i < place implies (#[trigger] retired@[i]).seq@
                        <= number by {
                        if i < place - 1 {
                            assert(before_in_log(retired@[i], retired@[place - 1]));
                        }
                    }
                    lemma_retires_step(self@, seq@, retired@, index as int, place as int);
                }
                retired.insert(place, fresh);
            } else {
                proof {
                    lemma_retires_skip(self@, seq@, retired@, index as int);
                }
            }
            index = index + 1;
        }
        proof {
            assert(self@.take(index as int) =~= self@);
        }
        retired
    }

    /// Drops the extents of the records up to `seq`.
    pub fn remove_retired(&mut self, seq: WalSeq)
        requires
            old(self).wf(),
        ensures
            final(self).wf(),
            final(self)@ == newer(old(self)@, seq@),
    {
        let ghost extents = self@;
        let count: usize = self.extents.len();
        let through: u64 = seq.get();
        let mut kept: usize = 0;
        let mut seen: usize = 0;
        proof {
            lemma_newer(extents, seq@);
            assert(extents.take(0) =~= Seq::<ExtentEntry<OverlayExtent>>::empty());
            assert(extents =~= newer(extents.take(0), seq@) + extents.skip(0));
        }
        while seen < count
            invariant
                kept <= seen <= count,
                count == extents.len(),
                through == seq@,
                self.extents.wf(),
                kept == newer(extents.take(seen as int), seq@).len(),
                self.extents@ == newer(extents.take(seen as int), seq@) + extents.skip(
                    seen as int,
                ),
            decreases count - seen,
        {
            let ghost now = self.extents@;
            proof {
                let longer = extents.take(seen + 1);
                assert(longer.drop_last() =~= extents.take(seen as int));
                assert(longer.last() == extents[seen as int]);
                assert(now[kept as int] == extents[seen as int]);
            }
            let extent = self.extents.entry(kept);
            if extent.value.seq.get() <= through {
                let removed = self.extents.remove_entry(kept);
                proof {
                    assert(self.extents@ =~= newer(extents.take(seen + 1), seq@) + extents.skip(
                        seen + 1,
                    ));
                }
            } else {
                kept = kept + 1;
                proof {
                    assert(now =~= newer(extents.take(seen + 1), seq@) + extents.skip(seen + 1));
                }
            }
            seen = seen + 1;
        }
        proof {
            assert(extents.take(count as int) =~= extents);
            assert(self.extents@ =~= newer(extents, seq@));
        }
    }

    /// The extents: start, end, record number and offset into the record.
    pub fn debug_extents(&self) -> (extents: Vec<(u64, u64, WalSeq, u64)>)
        ensures
            extents@ == self@.map_values(
                |extent: ExtentEntry<OverlayExtent>|
                    (extent.start, extent.end, extent.value.seq, extent.value.record_offset),
            ),
    {
        let mut listed: Vec<(u64, u64, WalSeq, u64)> = Vec::new();
        let mut index: usize = 0;
        while index < self.extents.len()
            invariant
                index <= self@.len(),
                self@ == self.extents@,
                listed@ == self@.take(index as int).map_values(
                    |extent: ExtentEntry<OverlayExtent>|
                        (extent.start, extent.end, extent.value.seq, extent.value.record_offset),
                ),
            decreases self@.len() - index,
        {
            let extent = self.extents.entry(index);
            listed.push((extent.start, extent.end, extent.value.seq, extent.value.record_offset));
            index = index + 1;
            proof {
                assert(listed@ =~= self@.take(index as int).map_values(
                    |extent: ExtentEntry<OverlayExtent>|
                        (extent.start, extent.end, extent.value.seq, extent.value.record_offset),
                ));
            }
        }
        proof {
            assert(self@.take(index as int) =~= self@);
        }
        listed
    }
}

/// After a record is written, its range shows its bytes and the rest shows what it showed.
pub proof fn law_latest_write_shows(
    extents: Seq<ExtentEntry<OverlayExtent>>,
    record: Arc<WalRecord>,
    position: int,
)
    requires
        overlays(extents),
        record.wf(),
        record.span().first() < record.span().saturated_limit(),
    ensures
        shown_at(overlaid(extents, record), position) == (if record.span().first() <= position
            < record.span().saturated_limit() {
            Some((record.number(), record.payload()[position - record.span().first()]))
        } else {
            shown_at(extents, position)
        }),
{
    lemma_overlaid(extents, overlaid(extents, record), record);
}

} // verus!
