//! Model of the read cache: its states, its steps, and what the steps keep.
//!
//! Cached bytes live in objects. Extents say which part of an object shows at which position of
//! the export. No extent crosses an aligned cache block, and inside a block extents never touch:
//! an insertion takes in everything it touches there.

use crate::extent_map::{
    ending_by, has_left_tail, has_right_tail, lemma_ending_by, lemma_starting_before, lemma_touched,
    lemma_value_at_covered, lemma_value_at_source, lemma_value_at_uncovered, ordered,
    starting_before, touched, value_at, ExtentEntry,
};
use vstd::prelude::*;

verus! {

/// Bytes in one aligned cache block.
pub const CACHE_BLOCK_BYTES: u64 = 2097152;

/// Start of the last block, whose end does not fit an offset.
pub const LAST_CACHE_BLOCK: u64 = 18446744073707454464;

/// Where a new object goes in the order of use.
#[derive(Debug, Clone, Copy, PartialEq, Eq, Structural)]
pub enum CacheInsertPlacement {
    Hot,
    Cold,
}

/// Identity of a cached object.
#[derive(Debug, Clone, Copy, PartialEq, Eq, Structural, Hash)]
pub struct CacheObjectId(pub u64);

/// The part of an object that an extent shows.
#[derive(Debug, Clone, Copy, PartialEq, Eq, Structural)]
pub struct CacheExtent {
    pub object_id: CacheObjectId,
    pub object_offset: u64,
}

/// The bytes of an object: free-standing ones, or the payload of a log record.
pub enum PayloadView {
    Bytes { data: Seq<u8> },
    Record { number: int, data: Seq<u8> },
}

impl PayloadView {
    pub open spec fn data(self) -> Seq<u8> {
        match self {
            PayloadView::Bytes { data } => data,
            PayloadView::Record { data, .. } => data,
        }
    }
}

/// An object with its identity.
pub struct ObjectView {
    pub id: CacheObjectId,
    pub payload: PayloadView,
}

/// State of the cache. The first object of `lru` was used last.
pub struct CacheView {
    pub extents: Seq<ExtentEntry<CacheExtent>>,
    pub objects: Seq<ObjectView>,
    pub lru: Seq<CacheObjectId>,
    pub next_object_id: int,
    pub max_bytes: int,
}

/// The bytes that all objects are charged for.
pub open spec fn charged(objects: Seq<ObjectView>) -> int
    decreases objects.len(),
{
    if objects.len() == 0 {
        0
    } else {
        charged(objects.drop_last()) + objects.last().payload.data().len()
    }
}

/// The payload of an object.
pub open spec fn find(objects: Seq<ObjectView>, id: CacheObjectId) -> Option<PayloadView>
    decreases objects.len(),
{
    if objects.len() == 0 {
        None
    } else if objects.last().id == id {
        Some(objects.last().payload)
    } else {
        find(objects.drop_last(), id)
    }
}

/// Identities ascend strictly.
pub open spec fn ids_ascend(objects: Seq<ObjectView>) -> bool {
    forall|i: int, j: int|
        0 <= i < j < objects.len() ==> (#[trigger] objects[i]).id.0 < (#[trigger] objects[j]).id.0
}

/// Whether an extent shows a part of the object.
pub open spec fn referenced(extents: Seq<ExtentEntry<CacheExtent>>, id: CacheObjectId) -> bool {
    exists|i: int| 0 <= i < extents.len() && (#[trigger] extents[i]).value.object_id == id
}

/// The objects of which some extent shows a part.
pub open spec fn live(
    extents: Seq<ExtentEntry<CacheExtent>>,
    objects: Seq<ObjectView>,
) -> Seq<ObjectView>
    decreases objects.len(),
{
    if objects.len() == 0 {
        Seq::empty()
    } else if referenced(extents, objects.last().id) {
        live(extents, objects.drop_last()).push(objects.last())
    } else {
        live(extents, objects.drop_last())
    }
}

/// The identities in `lru` that name an object.
pub open spec fn kept_ids(lru: Seq<CacheObjectId>, objects: Seq<ObjectView>) -> Seq<CacheObjectId>
    decreases lru.len(),
{
    if lru.len() == 0 {
        Seq::empty()
    } else if find(objects, lru.last()) is Some {
        kept_ids(lru.drop_last(), objects).push(lru.last())
    } else {
        kept_ids(lru.drop_last(), objects)
    }
}

/// Whether one of the extents shows a part of the object.
pub open spec fn names(joined: Seq<ExtentEntry<CacheExtent>>, id: CacheObjectId) -> bool {
    referenced(joined, id)
}

/// The last place in `lru` that belongs to one of the extents' objects.
pub open spec fn coldest(
    lru: Seq<CacheObjectId>,
    joined: Seq<ExtentEntry<CacheExtent>>,
) -> Option<int>
    decreases lru.len(),
{
    if lru.len() == 0 {
        None
    } else if names(joined, lru.last()) {
        Some(lru.len() - 1)
    } else {
        coldest(lru.drop_last(), joined)
    }
}

/// The block of a position.
pub open spec fn block_of(position: int) -> int {
    position / (CACHE_BLOCK_BYTES as int)
}

/// The extent lies in one block.
pub open spec fn in_one_block(extent: ExtentEntry<CacheExtent>) -> bool {
    block_of(extent.start as int) == block_of(extent.end - 1)
}

/// The extent shows bytes that its object has.
pub open spec fn backed(extent: ExtentEntry<CacheExtent>, objects: Seq<ObjectView>) -> bool {
    find(objects, extent.value.object_id) matches Some(payload)
        && extent.value.object_offset + (extent.end - extent.start) <= payload.data().len()
}

/// Extents are in order, each in one block, and touch only across blocks.
pub open spec fn spaced(extents: Seq<ExtentEntry<CacheExtent>>) -> bool {
    &&& ordered(extents)
    &&& forall|i: int| 0 <= i < extents.len() ==> in_one_block(#[trigger] extents[i])
    &&& forall|i: int, j: int|
        0 <= i < j < extents.len() && (#[trigger] extents[i]).end == (#[trigger] extents[j]).start
            ==> block_of(extents[i].start as int) != block_of(extents[j].start as int)
}

/// Objects have ascending identities and at most a block of bytes. Each extent shows bytes that
/// are there, and each object is shown by an extent.
pub open spec fn stocked(
    extents: Seq<ExtentEntry<CacheExtent>>,
    objects: Seq<ObjectView>,
    next_object_id: int,
) -> bool {
    &&& forall|i: int| 0 <= i < extents.len() ==> backed(#[trigger] extents[i], objects)
    &&& ids_ascend(objects)
    &&& forall|i: int|
        0 <= i < objects.len() ==> {
            &&& (#[trigger] objects[i]).id.0 < next_object_id
            &&& objects[i].payload.data().len() <= CACHE_BLOCK_BYTES
            &&& referenced(extents, objects[i].id)
        }
}

/// The order of use holds each object once and nothing else.
pub open spec fn lists(lru: Seq<CacheObjectId>, objects: Seq<ObjectView>) -> bool {
    &&& lru.no_duplicates()
    &&& forall|id: CacheObjectId| #[trigger] lru.contains(id) <==> find(objects, id) is Some
}

impl CacheView {
    /// Extents and objects fit each other, and the order of use holds each object once.
    pub open spec fn wf(self) -> bool {
        &&& spaced(self.extents)
        &&& stocked(self.extents, self.objects, self.next_object_id)
        &&& lists(self.lru, self.objects)
    }

    /// The cached byte at a position.
    pub open spec fn byte_at(self, position: int) -> Option<u8> {
        match value_at(self.extents, position) {
            Some((extent, offset)) => match find(self.objects, extent.object_id) {
                Some(payload) => Some(payload.data()[extent.object_offset + offset]),
                None => None,
            },
            None => None,
        }
    }

    /// The bytes that the cache is charged for.
    pub open spec fn charge(self) -> int {
        charged(self.objects)
    }
}

// ---------------------------------------------------------------------------
// Facts on objects
// ---------------------------------------------------------------------------

pub proof fn lemma_find_index(objects: Seq<ObjectView>, index: int)
    requires
        ids_ascend(objects),
        0 <= index < objects.len(),
    ensures
        find(objects, objects[index].id) == Some(objects[index].payload),
    decreases objects.len(),
{
    let last = objects.len() - 1;
    assert(objects.last() == objects[last]);
    if index < last {
        assert(objects[index].id.0 < objects[last].id.0);
        let front = objects.drop_last();
        assert(forall|i: int| 0 <= i < front.len() ==> front[i] == objects[i]);
        lemma_find_index(front, index);
    }
}

pub proof fn lemma_find_source(objects: Seq<ObjectView>, id: CacheObjectId) -> (index: int)
    requires
        find(objects, id) is Some,
    ensures
        0 <= index < objects.len(),
        objects[index].id == id,
        find(objects, id) == Some(objects[index].payload),
    decreases objects.len(),
{
    let last = objects.len() - 1;
    assert(objects.last() == objects[last]);
    if objects.last().id == id {
        last
    } else {
        let front = objects.drop_last();
        let index = lemma_find_source(front, id);
        assert(front[index] == objects[index]);
        index
    }
}

pub proof fn lemma_find_absent(objects: Seq<ObjectView>, id: CacheObjectId)
    requires
        forall|i: int| 0 <= i < objects.len() ==> (#[trigger] objects[i]).id != id,
    ensures
        find(objects, id) is None,
    decreases objects.len(),
{
    if objects.len() > 0 {
        assert(objects.last() == objects[objects.len() - 1]);
        let front = objects.drop_last();
        assert(forall|i: int| 0 <= i < front.len() ==> front[i] == objects[i]);
        lemma_find_absent(front, id);
    }
}

/// Dropping objects that no extent shows keeps the payloads of the others.
pub proof fn lemma_live_find(
    extents: Seq<ExtentEntry<CacheExtent>>,
    objects: Seq<ObjectView>,
    id: CacheObjectId,
)
    ensures
        find(live(extents, objects), id) == (if referenced(extents, id) {
            find(objects, id)
        } else {
            None
        }),
    decreases objects.len(),
{
    if objects.len() > 0 {
        let front = objects.drop_last();
        lemma_live_find(extents, front, id);
        if referenced(extents, objects.last().id) {
            let kept = live(extents, front);
            assert(kept.push(objects.last()).drop_last() =~= kept);
        }
    }
}

/// Each kept object is one of the given ones, is shown by an extent, and keeps its place.
pub proof fn lemma_live_members(
    extents: Seq<ExtentEntry<CacheExtent>>,
    objects: Seq<ObjectView>,
)
    requires
        ids_ascend(objects),
    ensures
        ids_ascend(live(extents, objects)),
        live(extents, objects).len() <= objects.len(),
        forall|i: int|
            0 <= i < live(extents, objects).len() ==> referenced(
                extents,
                (#[trigger] live(extents, objects)[i]).id,
            ),
        forall|i: int|
            0 <= i < live(extents, objects).len() ==> exists|j: int|
                0 <= j < objects.len() && objects[j] == (#[trigger] live(extents, objects)[i]),
    decreases objects.len(),
{
    if objects.len() > 0 {
        let front = objects.drop_last();
        assert(forall|i: int| 0 <= i < front.len() ==> front[i] == objects[i]);
        lemma_live_members(extents, front);
        let kept_front = live(extents, front);
        let kept = live(extents, objects);
        assert(objects.last() == objects[objects.len() - 1]);
        assert forall|i: int| 0 <= i < kept.len() implies exists|j: int|
            0 <= j < objects.len() && objects[j] == (#[trigger] kept[i]) by {
            if i < kept_front.len() {
                assert(kept[i] == kept_front[i]);
                let j = choose|j: int| 0 <= j < front.len() && front[j] == kept_front[i];
                assert(objects[j] == kept[i]);
            } else {
                assert(objects[objects.len() - 1] == kept[i]);
            }
        }
        assert forall|i: int, j: int| 0 <= i < j < kept.len() implies (
        #[trigger] kept[i]).id.0 < (#[trigger] kept[j]).id.0 by {
            assert(kept[i] == kept_front[i]);
            if j < kept_front.len() {
                assert(kept[j] == kept_front[j]);
            } else {
                let source = choose|k: int| 0 <= k < front.len() && front[k] == kept_front[i];
                assert(objects[source] == kept[i]);
            }
        }
        assert forall|i: int| 0 <= i < kept.len() implies referenced(
            extents,
            (#[trigger] kept[i]).id,
        ) by {
            if i < kept_front.len() {
                assert(kept[i] == kept_front[i]);
            }
        }
    }
}

/// A payload takes no more than all payloads together.
pub proof fn lemma_charged_bounds(objects: Seq<ObjectView>)
    ensures
        0 <= charged(objects),
    decreases objects.len(),
{
    if objects.len() > 0 {
        lemma_charged_bounds(objects.drop_last());
    }
}

// ---------------------------------------------------------------------------
// Facts on the order of use
// ---------------------------------------------------------------------------

pub proof fn lemma_kept_ids(lru: Seq<CacheObjectId>, objects: Seq<ObjectView>)
    requires
        lru.no_duplicates(),
    ensures
        kept_ids(lru, objects).no_duplicates(),
        kept_ids(lru, objects).len() <= lru.len(),
        forall|id: CacheObjectId| #[trigger]
            kept_ids(lru, objects).contains(id) <==> lru.contains(id) && find(objects, id) is Some,
    decreases lru.len(),
{
    if lru.len() > 0 {
        let front = lru.drop_last();
        assert(forall|i: int| 0 <= i < front.len() ==> front[i] == lru[i]);
        assert(front.no_duplicates());
        lemma_kept_ids(front, objects);
        let kept_front = kept_ids(front, objects);
        let kept = kept_ids(lru, objects);
        assert(lru.last() == lru[lru.len() - 1]);
        assert(!front.contains(lru.last())) by {
            if front.contains(lru.last()) {
                let i = choose|i: int| 0 <= i < front.len() && front[i] == lru.last();
                assert(lru[i] == lru[lru.len() - 1]);
            }
        }
        assert forall|id: CacheObjectId| #[trigger]
            lru.contains(id) <==> front.contains(id) || id == lru.last() by {
            if front.contains(id) {
                let i = choose|i: int| 0 <= i < front.len() && front[i] == id;
                assert(lru[i] == id);
            }
            if lru.contains(id) {
                let i = choose|i: int| 0 <= i < lru.len() && lru[i] == id;
                if i < front.len() {
                    assert(front[i] == id);
                }
            }
        }
        if find(objects, lru.last()) is Some {
            assert(kept == kept_front.push(lru.last()));
            assert forall|id: CacheObjectId| #[trigger]
                kept.contains(id) <==> kept_front.contains(id) || id == lru.last() by {
                if kept_front.contains(id) {
                    let i = choose|i: int| 0 <= i < kept_front.len() && kept_front[i] == id;
                    assert(kept[i] == id);
                }
                if kept.contains(id) {
                    let i = choose|i: int| 0 <= i < kept.len() && kept[i] == id;
                    if i < kept_front.len() {
                        assert(kept_front[i] == id);
                    }
                }
                if id == lru.last() {
                    assert(kept[kept.len() - 1] == id);
                }
            }
            assert forall|i: int, j: int|
                0 <= i < kept.len() && 0 <= j < kept.len() && i != j implies kept[i]
                != kept[j] by {
                if i < kept_front.len() {
                    assert(kept_front.contains(kept_front[i]));
                }
                if j < kept_front.len() {
                    assert(kept_front.contains(kept_front[j]));
                }
            }
        }
    }
}

/// An insertion adds one identity.
pub proof fn lemma_insert_id(lru: Seq<CacheObjectId>, position: int, id: CacheObjectId)
    requires
        lru.no_duplicates(),
        !lru.contains(id),
        0 <= position <= lru.len(),
    ensures
        lru.insert(position, id).no_duplicates(),
        forall|other: CacheObjectId| #[trigger]
            lru.insert(position, id).contains(other) <==> lru.contains(other) || other == id,
{
    let after = lru.insert(position, id);
    assert forall|other: CacheObjectId| #[trigger]
        after.contains(other) <==> lru.contains(other) || other == id by {
        if after.contains(other) {
            let i = choose|i: int| 0 <= i < after.len() && after[i] == other;
            if i < position {
                assert(lru[i] == other);
            } else if i > position {
                assert(lru[i - 1] == other);
            }
        }
        if lru.contains(other) {
            let i = choose|i: int| 0 <= i < lru.len() && lru[i] == other;
            if i < position {
                assert(after[i] == other);
            } else {
                assert(after[i + 1] == other);
            }
        }
        if other == id {
            assert(after[position] == id);
        }
    }
    assert forall|i: int, j: int|
        0 <= i < after.len() && 0 <= j < after.len() && i != j implies after[i] != after[j] by {
        if i == position {
            let k = if j < position {
                j
            } else {
                j - 1
            };
            assert(after[j] == lru[k]);
            assert(lru.contains(lru[k]));
        } else if j == position {
            let k = if i < position {
                i
            } else {
                i - 1
            };
            assert(after[i] == lru[k]);
            assert(lru.contains(lru[k]));
        } else {
            let k = if i < position {
                i
            } else {
                i - 1
            };
            let l = if j < position {
                j
            } else {
                j - 1
            };
            assert(after[i] == lru[k] && after[j] == lru[l]);
        }
    }
}

pub proof fn lemma_coldest(lru: Seq<CacheObjectId>, joined: Seq<ExtentEntry<CacheExtent>>)
    ensures
        coldest(lru, joined) matches Some(position) ==> 0 <= position < lru.len(),
    decreases lru.len(),
{
    if lru.len() > 0 {
        lemma_coldest(lru.drop_last(), joined);
    }
}


// ---------------------------------------------------------------------------
// Insertion into one block
// ---------------------------------------------------------------------------

/// The first position whose extents an insertion at `start` takes in: the byte before it, where
/// that lies in the same block.
pub open spec fn reach_start(start: int) -> int {
    if start % (CACHE_BLOCK_BYTES as int) == 0 {
        start
    } else {
        start - 1
    }
}

/// The position after the last one whose extents an insertion up to `end` takes in.
pub open spec fn reach_end(end: int) -> int {
    if end % (CACHE_BLOCK_BYTES as int) == 0 {
        end
    } else {
        end + 1
    }
}

/// The extents of the block that overlap or touch `[start, end)`.
pub open spec fn joined(extents: Seq<ExtentEntry<CacheExtent>>, start: int, end: int) -> Seq<
    ExtentEntry<CacheExtent>,
> {
    touched(extents, reach_start(start), reach_end(end))
}

/// Where the union of `[start, end)` and the extents it joins starts.
pub open spec fn union_start(
    extents: Seq<ExtentEntry<CacheExtent>>,
    start: int,
    end: int,
) -> int {
    let parts = joined(extents, start, end);
    if parts.len() > 0 && parts[0].start < start {
        parts[0].start as int
    } else {
        start
    }
}

/// Where the union of `[start, end)` and the extents it joins ends.
pub open spec fn union_end(extents: Seq<ExtentEntry<CacheExtent>>, start: int, end: int) -> int {
    let parts = joined(extents, start, end);
    if parts.len() > 0 && parts.last().end > end {
        parts.last().end as int
    } else {
        end
    }
}

/// The extents after an insertion: one extent shows the new object over the union.
pub open spec fn extents_inserted(
    extents: Seq<ExtentEntry<CacheExtent>>,
    start: int,
    end: int,
    id: CacheObjectId,
) -> Seq<ExtentEntry<CacheExtent>> {
    let low = ending_by(extents, reach_start(start));
    let high = starting_before(extents, reach_end(end));
    let fresh = ExtentEntry {
        start: union_start(extents, start, end) as u64,
        end: union_end(extents, start, end) as u64,
        value: CacheExtent { object_id: id, object_offset: 0 },
    };
    extents.take(low).push(fresh) + extents.skip(high)
}

/// The bytes of the union: the new ones where they are given, the cached ones elsewhere.
pub open spec fn union_data(cache: CacheView, start: int, end: int, source: Seq<u8>) -> Seq<u8> {
    let first = union_start(cache.extents, start, end);
    let limit = union_end(cache.extents, start, end);
    Seq::new(
        (limit - first) as nat,
        |i: int|
            if start <= first + i < end {
                source[first + i - start]
            } else {
                cache.byte_at(first + i)->0
            },
    )
}

/// The place of a new object in the order of use: that of the least recently used object it
/// takes bytes from, or the end that the placement names.
pub open spec fn placed_at(
    lru: Seq<CacheObjectId>,
    kept: Seq<CacheObjectId>,
    parts: Seq<ExtentEntry<CacheExtent>>,
    placement: CacheInsertPlacement,
) -> int {
    match coldest(lru, parts) {
        Some(position) => if position <= kept.len() {
            position
        } else {
            kept.len() as int
        },
        None => match placement {
            CacheInsertPlacement::Hot => 0,
            CacheInsertPlacement::Cold => kept.len() as int,
        },
    }
}

/// The cache after `source` was inserted at `[start, end)` inside one block. An insertion that
/// joins nothing keeps the payload `alone`.
pub open spec fn window_inserted(
    cache: CacheView,
    start: int,
    end: int,
    source: Seq<u8>,
    alone: PayloadView,
    placement: CacheInsertPlacement,
) -> CacheView {
    let parts = joined(cache.extents, start, end);
    let id = CacheObjectId(cache.next_object_id as u64);
    let payload = inserted_payload(cache, start, end, source, alone);
    let extents = extents_inserted(cache.extents, start, end, id);
    let objects = live(extents, cache.objects.push(ObjectView { id, payload }));
    let kept = kept_ids(cache.lru, objects);
    CacheView {
        extents,
        objects,
        lru: kept.insert(placed_at(cache.lru, kept, parts, placement), id),
        next_object_id: cache.next_object_id + 1,
        max_bytes: cache.max_bytes,
    }
}

/// `[start, end)` is a non-empty part of one block.
pub open spec fn in_window(start: int, end: int) -> bool {
    0 <= start < end <= u64::MAX && block_of(start) == block_of(end - 1)
}

/// The extents that an insertion joins lie in its block and in the union.
pub proof fn lemma_joined(extents: Seq<ExtentEntry<CacheExtent>>, start: int, end: int)
    requires
        spaced(extents),
        in_window(start, end),
    ensures
        ({
            let low = ending_by(extents, reach_start(start));
            let high = starting_before(extents, reach_end(end));
            let first = union_start(extents, start, end);
            let limit = union_end(extents, start, end);
            &&& 0 <= low <= high <= extents.len()
            &&& joined(extents, start, end).len() == high - low
            &&& forall|i: int|
                low <= i < high ==> {
                    &&& block_of((#[trigger] extents[i]).start as int) == block_of(start)
                    &&& extents[i].end >= start
                    &&& extents[i].start <= end
                    &&& first <= extents[i].start
                    &&& extents[i].end <= limit
                }
            &&& forall|i: int|
                0 <= i < low ==> (#[trigger] extents[i]).end <= first && (extents[i].end == first
                    ==> block_of(extents[i].start as int) != block_of(start))
            &&& forall|i: int|
                high <= i < extents.len() ==> (#[trigger] extents[i]).start >= limit && (
                extents[i].start == limit ==> block_of(extents[i].start as int) != block_of(start))
            &&& first <= start && end <= limit <= u64::MAX && 0 <= first
            &&& block_of(first) == block_of(start) && block_of(limit - 1) == block_of(start)
            &&& limit - first <= CACHE_BLOCK_BYTES
            &&& first < start ==> low < high && extents[low].start == first && extents[low].end
                >= start
            &&& end < limit ==> low < high && extents[high - 1].end == limit && extents[high
                - 1].start <= end
        }),
{
    let from = reach_start(start);
    let to = reach_end(end);
    lemma_touched(extents, from, to);
    lemma_ending_by(extents, from);
    lemma_starting_before(extents, to);
    let low = ending_by(extents, from);
    let high = starting_before(extents, to);
    let parts = joined(extents, start, end);
    assert(forall|i: int| 0 <= i < parts.len() ==> parts[i] == extents[low + i]);
    assert forall|i: int| low <= i < high implies block_of((#[trigger] extents[i]).start as int)
        == block_of(start) by {
        assert(in_one_block(extents[i]));
        let shared = if extents[i].start >= from {
            extents[i].start as int
        } else {
            from
        };
        assert(block_of(shared) == block_of(start));
    }
    if low < high {
        assert(parts[0] == extents[low]);
        assert(parts.last() == extents[high - 1]);
        assert(in_one_block(extents[low]));
        assert(in_one_block(extents[high - 1]));
    }
    let first = union_start(extents, start, end);
    let limit = union_end(extents, start, end);
    assert forall|i: int| low <= i < high implies first <= (#[trigger] extents[i]).start
        && extents[i].end <= limit by {
        if i > low {
            assert(extents[low].end <= extents[i].start);
        }
        if i < high - 1 {
            assert(extents[i].end <= extents[high - 1].start);
        }
    }
    assert forall|i: int| 0 <= i < low implies (#[trigger] extents[i]).end <= first && (
    extents[i].end == first ==> block_of(extents[i].start as int) != block_of(start)) by {
        assert(in_one_block(extents[i]));
        if first < start {
            assert(extents[i].end <= extents[low].start);
        }
    }
    assert forall|i: int| high <= i < extents.len() implies (#[trigger] extents[i]).start >= limit
        && (extents[i].start == limit ==> block_of(extents[i].start as int) != block_of(start)) by {
        assert(in_one_block(extents[i]));
        if end < limit {
            assert(extents[high - 1].end <= extents[i].start);
        }
    }
}

/// Where the extent at index `i` comes from after an insertion.
spec fn inserted_source(
    extents: Seq<ExtentEntry<CacheExtent>>,
    start: int,
    end: int,
    id: CacheObjectId,
    i: int,
) -> bool {
    let low = ending_by(extents, reach_start(start));
    let high = starting_before(extents, reach_end(end));
    let after = extents_inserted(extents, start, end, id);
    if i < low {
        after[i] == extents[i]
    } else if i == low {
        &&& after[i].start == union_start(extents, start, end)
        &&& after[i].end == union_end(extents, start, end)
        &&& after[i].value == (CacheExtent { object_id: id, object_offset: 0 })
    } else {
        after[i] == extents[i - 1 - low + high]
    }
}

proof fn lemma_inserted_source(
    extents: Seq<ExtentEntry<CacheExtent>>,
    start: int,
    end: int,
    id: CacheObjectId,
)
    requires
        spaced(extents),
        in_window(start, end),
    ensures
        ({
            let low = ending_by(extents, reach_start(start));
            let high = starting_before(extents, reach_end(end));
            let after = extents_inserted(extents, start, end, id);
            &&& after.len() == low + 1 + (extents.len() - high)
            &&& forall|i: int|
                0 <= i < after.len() ==> #[trigger] inserted_source(extents, start, end, id, i)
        }),
{
    lemma_joined(extents, start, end);
}

/// An insertion keeps the extents in order and apart.
proof fn lemma_inserted_spaced(
    extents: Seq<ExtentEntry<CacheExtent>>,
    start: int,
    end: int,
    id: CacheObjectId,
)
    requires
        spaced(extents),
        in_window(start, end),
    ensures
        spaced(extents_inserted(extents, start, end, id)),
{
    lemma_joined(extents, start, end);
    lemma_inserted_source(extents, start, end, id);
    let after = extents_inserted(extents, start, end, id);
    let low = ending_by(extents, reach_start(start));
    let high = starting_before(extents, reach_end(end));
    assert forall|i: int| 0 <= i < after.len() implies (#[trigger] after[i]).start
        < after[i].end by {
        assert(inserted_source(extents, start, end, id, i));
    }
    assert forall|i: int, j: int| 0 <= i < j < after.len() implies (#[trigger] after[i]).end <= (
    #[trigger] after[j]).start by {
        assert(inserted_source(extents, start, end, id, i));
        assert(inserted_source(extents, start, end, id, j));
    }
    assert forall|i: int| 0 <= i < after.len() implies in_one_block(#[trigger] after[i]) by {
        assert(inserted_source(extents, start, end, id, i));
    }
    assert forall|i: int, j: int|
        0 <= i < j < after.len() && (#[trigger] after[i]).end == (
        #[trigger] after[j]).start implies block_of(after[i].start as int) != block_of(
        after[j].start as int,
    ) by {
        assert(inserted_source(extents, start, end, id, i));
        assert(inserted_source(extents, start, end, id, j));
    }
}

/// The payloads after an insertion: the new object's, and those of the other objects that are
/// still shown.
proof fn lemma_inserted_find(
    extents: Seq<ExtentEntry<CacheExtent>>,
    objects: Seq<ObjectView>,
    fresh: ObjectView,
    id: CacheObjectId,
)
    ensures
        find(live(extents, objects.push(fresh)), id) == (if !referenced(extents, id) {
            None
        } else if id == fresh.id {
            Some(fresh.payload)
        } else {
            find(objects, id)
        }),
{
    let all = objects.push(fresh);
    assert(all.drop_last() =~= objects);
    lemma_live_find(extents, all, id);
}

/// An insertion keeps extents and objects fitting each other.
proof fn lemma_inserted_stocked(
    extents: Seq<ExtentEntry<CacheExtent>>,
    objects: Seq<ObjectView>,
    start: int,
    end: int,
    fresh: ObjectView,
)
    requires
        spaced(extents),
        in_window(start, end),
        stocked(extents, objects, fresh.id.0 as int),
        fresh.payload.data().len() == union_end(extents, start, end) - union_start(
            extents,
            start,
            end,
        ),
    ensures
        ({
            let after = extents_inserted(extents, start, end, fresh.id);
            &&& stocked(after, live(after, objects.push(fresh)), fresh.id.0 + 1)
            &&& find(live(after, objects.push(fresh)), fresh.id) == Some(fresh.payload)
        }),
{
    lemma_joined(extents, start, end);
    lemma_inserted_source(extents, start, end, fresh.id);
    let low = ending_by(extents, reach_start(start));
    let high = starting_before(extents, reach_end(end));
    let after = extents_inserted(extents, start, end, fresh.id);
    let all = objects.push(fresh);
    let kept = live(after, all);
    assert(inserted_source(extents, start, end, fresh.id, low));
    assert(after[low].value.object_id == fresh.id);
    lemma_inserted_find(after, objects, fresh, fresh.id);
    assert(ids_ascend(all));
    lemma_live_members(after, all);
    assert forall|i: int| 0 <= i < after.len() implies backed(#[trigger] after[i], kept) by {
        assert(inserted_source(extents, start, end, fresh.id, i));
        let shown = after[i].value.object_id;
        assert(referenced(after, shown));
        lemma_inserted_find(after, objects, fresh, shown);
        if i != low {
            let j = if i < low {
                i
            } else {
                i - 1 - low + high
            };
            assert(backed(extents[j], objects));
            let place = lemma_find_source(objects, shown);
            assert(objects[place].id.0 < fresh.id.0);
        }
    }
    assert forall|i: int| 0 <= i < kept.len() implies {
        &&& (#[trigger] kept[i]).id.0 < fresh.id.0 + 1
        &&& kept[i].payload.data().len() <= CACHE_BLOCK_BYTES
        &&& referenced(after, kept[i].id)
    } by {
        let j = choose|j: int| 0 <= j < all.len() && all[j] == kept[i];
        if j < objects.len() {
            assert(all[j] == objects[j]);
        }
    }
}

/// Keeping the listed objects and adding a new one keeps the order of use complete.
proof fn lemma_inserted_lists(
    lru: Seq<CacheObjectId>,
    before: Seq<ObjectView>,
    after: Seq<ObjectView>,
    position: int,
    id: CacheObjectId,
)
    requires
        lists(lru, before),
        find(before, id) is None,
        find(after, id) is Some,
        forall|other: CacheObjectId|
            other != id && #[trigger] find(after, other) is Some ==> find(before, other) is Some,
        0 <= position <= kept_ids(lru, after).len(),
    ensures
        lists(kept_ids(lru, after).insert(position, id), after),
{
    let kept = kept_ids(lru, after);
    lemma_kept_ids(lru, after);
    assert(!lru.contains(id));
    assert(!kept.contains(id));
    lemma_insert_id(kept, position, id);
    let placed = kept.insert(position, id);
    assert forall|other: CacheObjectId| #[trigger]
        placed.contains(other) <==> find(after, other) is Some by {
        if other != id {
            assert(placed.contains(other) <==> kept.contains(other));
            if find(after, other) is Some {
                assert(find(before, other) is Some);
                assert(lru.contains(other));
            }
        }
    }
}

/// The payload of the object that an insertion makes.
pub open spec fn inserted_payload(
    cache: CacheView,
    start: int,
    end: int,
    source: Seq<u8>,
    alone: PayloadView,
) -> PayloadView {
    if joined(cache.extents, start, end).len() == 0 {
        alone
    } else {
        PayloadView::Bytes { data: union_data(cache, start, end, source) }
    }
}

/// An insertion into one block keeps the cache well formed.
pub proof fn lemma_window_inserted_wf(
    cache: CacheView,
    start: int,
    end: int,
    source: Seq<u8>,
    alone: PayloadView,
    placement: CacheInsertPlacement,
)
    requires
        cache.wf(),
        in_window(start, end),
        source.len() == end - start,
        alone.data() == source,
        0 <= cache.next_object_id < u64::MAX,
    ensures
        window_inserted(cache, start, end, source, alone, placement).wf(),
        find(
            window_inserted(cache, start, end, source, alone, placement).objects,
            CacheObjectId(cache.next_object_id as u64),
        ) == Some(inserted_payload(cache, start, end, source, alone)),
{
    let after = window_inserted(cache, start, end, source, alone, placement);
    let id = CacheObjectId(cache.next_object_id as u64);
    let parts = joined(cache.extents, start, end);
    let fresh = ObjectView { id, payload: inserted_payload(cache, start, end, source, alone) };
    lemma_joined(cache.extents, start, end);
    assert(fresh.payload.data().len() == union_end(cache.extents, start, end) - union_start(
        cache.extents,
        start,
        end,
    ));
    lemma_inserted_spaced(cache.extents, start, end, id);
    lemma_inserted_stocked(cache.extents, cache.objects, start, end, fresh);
    lemma_find_absent(cache.objects, id);
    assert forall|other: CacheObjectId|
        other != id && #[trigger] find(after.objects, other) is Some implies find(
        cache.objects,
        other,
    ) is Some by {
        lemma_inserted_find(after.extents, cache.objects, fresh, other);
    }
    let kept = kept_ids(cache.lru, after.objects);
    lemma_coldest(cache.lru, parts);
    lemma_inserted_lists(
        cache.lru,
        cache.objects,
        after.objects,
        placed_at(cache.lru, kept, parts, placement),
        id,
    );
}

/// What an extent shows after an insertion: the new object over the union, and what it showed
/// before elsewhere.
proof fn lemma_inserted_value_at(
    extents: Seq<ExtentEntry<CacheExtent>>,
    start: int,
    end: int,
    id: CacheObjectId,
    position: int,
)
    requires
        spaced(extents),
        in_window(start, end),
    ensures
        ({
            let after = extents_inserted(extents, start, end, id);
            let first = union_start(extents, start, end);
            let limit = union_end(extents, start, end);
            value_at(after, position) == (if first <= position < limit {
                Some((CacheExtent { object_id: id, object_offset: 0 }, position - first))
            } else {
                value_at(extents, position)
            })
        }),
{
    lemma_joined(extents, start, end);
    lemma_inserted_source(extents, start, end, id);
    lemma_inserted_spaced(extents, start, end, id);
    let after = extents_inserted(extents, start, end, id);
    let low = ending_by(extents, reach_start(start));
    let high = starting_before(extents, reach_end(end));
    let first = union_start(extents, start, end);
    let limit = union_end(extents, start, end);
    if first <= position < limit {
        assert(inserted_source(extents, start, end, id, low));
        lemma_value_at_covered(after, low, position);
    } else if value_at(extents, position) is Some {
        let i = lemma_value_at_source(extents, position);
        assert(i < low || i >= high);
        let j = if i < low {
            i
        } else {
            i - high + 1 + low
        };
        assert(inserted_source(extents, start, end, id, j));
        lemma_value_at_covered(after, j, position);
    } else {
        assert forall|i: int| 0 <= i < after.len() implies !((#[trigger] after[i]).start
            <= position < after[i].end) by {
            assert(inserted_source(extents, start, end, id, i));
            if i != low {
                let j = if i < low {
                    i
                } else {
                    i - 1 - low + high
                };
                if extents[j].start <= position < extents[j].end {
                    lemma_value_at_covered(extents, j, position);
                }
            }
        }
        lemma_value_at_uncovered(after, position);
    }
}

/// A position that an extent covers shows a byte of its object.
pub proof fn lemma_shown_byte(cache: CacheView, index: int, position: int)
    requires
        cache.wf(),
        0 <= index < cache.extents.len(),
        cache.extents[index].start <= position < cache.extents[index].end,
    ensures
        cache.byte_at(position) is Some,
        value_at(cache.extents, position) == Some(
            (cache.extents[index].value, position - cache.extents[index].start),
        ),
{
    lemma_value_at_covered(cache.extents, index, position);
    assert(backed(cache.extents[index], cache.objects));
}

/// The object that shows at a position is one of the cache's, and is still shown after an
/// insertion that does not reach the position.
proof fn lemma_shown_outside(
    cache: CacheView,
    start: int,
    end: int,
    id: CacheObjectId,
    position: int,
)
    requires
        cache.wf(),
        in_window(start, end),
        id.0 == cache.next_object_id,
        !(union_start(cache.extents, start, end) <= position < union_end(
            cache.extents,
            start,
            end,
        )),
        value_at(cache.extents, position) is Some,
    ensures
        ({
            let shown = (value_at(cache.extents, position)->0).0.object_id;
            &&& referenced(extents_inserted(cache.extents, start, end, id), shown)
            &&& shown != id
        }),
{
    lemma_inserted_value_at(cache.extents, start, end, id, position);
    let after = extents_inserted(cache.extents, start, end, id);
    let shown = (value_at(cache.extents, position)->0).0.object_id;
    let j = lemma_value_at_source(after, position);
    assert(after[j].value.object_id == shown);
    let i = lemma_value_at_source(cache.extents, position);
    assert(backed(cache.extents[i], cache.objects));
    let place = lemma_find_source(cache.objects, shown);
    assert(cache.objects[place].id.0 < cache.next_object_id);
}

/// An insertion into one block changes the bytes at `[start, end)` to the given ones and no
/// others.
pub proof fn lemma_window_inserted_bytes(
    cache: CacheView,
    start: int,
    end: int,
    source: Seq<u8>,
    alone: PayloadView,
    placement: CacheInsertPlacement,
    position: int,
)
    requires
        cache.wf(),
        in_window(start, end),
        source.len() == end - start,
        alone.data() == source,
        0 <= cache.next_object_id < u64::MAX,
    ensures
        window_inserted(cache, start, end, source, alone, placement).byte_at(position) == (
        if start <= position < end {
            Some(source[position - start])
        } else {
            cache.byte_at(position)
        }),
{
    let after = window_inserted(cache, start, end, source, alone, placement);
    let id = CacheObjectId(cache.next_object_id as u64);
    let first = union_start(cache.extents, start, end);
    let limit = union_end(cache.extents, start, end);
    let payload = inserted_payload(cache, start, end, source, alone);
    lemma_inserted_value_at(cache.extents, start, end, id, position);
    if first <= position < limit {
        assert(find(after.objects, id) == Some(payload)) by {
            lemma_window_inserted_wf(cache, start, end, source, alone, placement);
        }
        assert(after.byte_at(position) == Some(payload.data()[position - first]));
        assert(start <= position < end || cache.byte_at(position) is Some) by {
            lemma_joined(cache.extents, start, end);
            if position < start {
                lemma_shown_byte(
                    cache,
                    ending_by(cache.extents, reach_start(start)),
                    position,
                );
            } else if position >= end {
                lemma_shown_byte(
                    cache,
                    starting_before(cache.extents, reach_end(end)) - 1,
                    position,
                );
            }
        }
        assert(joined(cache.extents, start, end).len() == 0 ==> first == start && limit == end);
    } else {
        assert(!(start <= position < end)) by {
            lemma_joined(cache.extents, start, end);
        }
        if value_at(cache.extents, position) is Some {
            let shown = (value_at(cache.extents, position)->0).0.object_id;
            lemma_shown_outside(cache, start, end, id, position);
            lemma_inserted_find(
                after.extents,
                cache.objects,
                ObjectView { id, payload },
                shown,
            );
        }
    }
}

// ---------------------------------------------------------------------------
// Insertion of a range, block by block
// ---------------------------------------------------------------------------

/// Where inserted bytes come from.
pub enum Origin {
    /// Bytes of the committed tree.
    Fill,
    /// A part of a log record that starts `offset` bytes into its payload.
    Record { number: int, data: Seq<u8>, offset: int },
}

/// The payload of an object that holds the bytes `piece`, found `skipped` bytes into the inserted
/// range, and nothing else. A record that is cached whole keeps its own payload.
pub open spec fn lone_payload(origin: Origin, skipped: int, piece: Seq<u8>) -> PayloadView {
    match origin {
        Origin::Fill => PayloadView::Bytes { data: piece },
        Origin::Record { number, data, offset } => if offset + skipped == 0 && piece.len()
            == data.len() {
            PayloadView::Record { number, data }
        } else {
            PayloadView::Bytes { data: piece }
        },
    }
}

/// `source` is the part of the origin that is inserted.
pub open spec fn comes_from(source: Seq<u8>, origin: Origin) -> bool {
    match origin {
        Origin::Fill => true,
        Origin::Record { number, data, offset } => 0 <= offset && offset + source.len()
            <= data.len() && source == data.subrange(offset, offset + source.len()),
    }
}

/// The end of the block that holds a position.
pub open spec fn block_end(position: int) -> int {
    (block_of(position) + 1) * CACHE_BLOCK_BYTES
}

/// The end of the piece that starts at `from` when `[.., end)` is cut at block boundaries.
pub open spec fn piece_end(from: int, end: int) -> int {
    if end <= block_end(from) {
        end
    } else {
        block_end(from)
    }
}

/// The cache after the bytes of `source` from position `from` on were inserted block by block.
/// `source` starts at position `start`.
pub open spec fn range_inserted(
    cache: CacheView,
    from: int,
    start: int,
    end: int,
    source: Seq<u8>,
    origin: Origin,
    placement: CacheInsertPlacement,
) -> CacheView
    decreases end - from,
{
    if from >= end || piece_end(from, end) <= from {
        cache
    } else {
        let to = piece_end(from, end);
        let piece = source.subrange(from - start, to - start);
        range_inserted(
            window_inserted(
                cache,
                from,
                to,
                piece,
                lone_payload(origin, from - start, piece),
                placement,
            ),
            to,
            start,
            end,
            source,
            origin,
            placement,
        )
    }
}

pub proof fn lemma_piece(from: int, end: int)
    requires
        0 <= from < end <= u64::MAX,
    ensures
        from < piece_end(from, end) <= end,
        in_window(from, piece_end(from, end)),
{
    assert(block_end(from) == block_of(from) * CACHE_BLOCK_BYTES + CACHE_BLOCK_BYTES)
        by (nonlinear_arith);
}

proof fn lemma_lone_payload(source: Seq<u8>, origin: Origin, skipped: int, length: int)
    requires
        comes_from(source, origin),
        0 <= skipped,
        0 <= length,
        skipped + length <= source.len(),
    ensures
        lone_payload(origin, skipped, source.subrange(skipped, skipped + length)).data()
            == source.subrange(skipped, skipped + length),
{
    let piece = source.subrange(skipped, skipped + length);
    if let Origin::Record { number, data, offset } = origin {
        if offset + skipped == 0 && piece.len() == data.len() {
            assert(piece =~= data);
        }
    }
}

/// Inserting a range keeps the cache well formed and uses at most one identity per byte.
pub proof fn lemma_range_inserted_wf(
    cache: CacheView,
    from: int,
    start: int,
    end: int,
    source: Seq<u8>,
    origin: Origin,
    placement: CacheInsertPlacement,
)
    requires
        cache.wf(),
        0 <= start <= from,
        end <= u64::MAX,
        from <= end ==> source.len() >= end - start,
        comes_from(source, origin),
        0 <= cache.next_object_id,
        from < end ==> cache.next_object_id + (end - from) <= u64::MAX,
    ensures
        ({
            let after = range_inserted(cache, from, start, end, source, origin, placement);
            &&& after.wf()
            &&& after.max_bytes == cache.max_bytes
            &&& cache.next_object_id <= after.next_object_id
            &&& from <= end ==> after.next_object_id <= cache.next_object_id + (end - from)
            &&& from >= end ==> after == cache
        }),
    decreases end - from,
{
    if from < end {
        lemma_piece(from, end);
        let to = piece_end(from, end);
        let piece = source.subrange(from - start, to - start);
        lemma_lone_payload(source, origin, from - start, to - from);
        let alone = lone_payload(origin, from - start, piece);
        lemma_window_inserted_wf(cache, from, to, piece, alone, placement);
        let next = window_inserted(cache, from, to, piece, alone, placement);
        lemma_range_inserted_wf(next, to, start, end, source, origin, placement);
    }
}

/// Inserting a range changes the cached bytes there to the given ones and no others.
pub proof fn lemma_range_inserted_bytes(
    cache: CacheView,
    from: int,
    start: int,
    end: int,
    source: Seq<u8>,
    origin: Origin,
    placement: CacheInsertPlacement,
    position: int,
)
    requires
        cache.wf(),
        0 <= start <= from,
        end <= u64::MAX,
        from <= end ==> source.len() >= end - start,
        comes_from(source, origin),
        0 <= cache.next_object_id,
        from < end ==> cache.next_object_id + (end - from) <= u64::MAX,
    ensures
        range_inserted(cache, from, start, end, source, origin, placement).byte_at(position) == (
        if from <= position < end {
            Some(source[position - start])
        } else {
            cache.byte_at(position)
        }),
    decreases end - from,
{
    if from < end {
        lemma_piece(from, end);
        let to = piece_end(from, end);
        let piece = source.subrange(from - start, to - start);
        lemma_lone_payload(source, origin, from - start, to - from);
        let alone = lone_payload(origin, from - start, piece);
        lemma_window_inserted_wf(cache, from, to, piece, alone, placement);
        lemma_window_inserted_bytes(cache, from, to, piece, alone, placement, position);
        let next = window_inserted(cache, from, to, piece, alone, placement);
        lemma_range_inserted_bytes(
            next,
            to,
            start,
            end,
            source,
            origin,
            placement,
            position,
        );
    }
}

// ---------------------------------------------------------------------------
// Trimming
// ---------------------------------------------------------------------------

/// The piece of an extent before `start`.
pub open spec fn left_piece(
    extent: ExtentEntry<CacheExtent>,
    start: int,
) -> ExtentEntry<CacheExtent> {
    ExtentEntry { start: extent.start, end: start as u64, value: extent.value }
}

/// The piece of an extent from `end` on.
pub open spec fn right_piece(
    extent: ExtentEntry<CacheExtent>,
    end: int,
) -> ExtentEntry<CacheExtent> {
    ExtentEntry {
        start: end as u64,
        end: extent.end,
        value: CacheExtent {
            object_id: extent.value.object_id,
            object_offset: (extent.value.object_offset + (end - extent.start)) as u64,
        },
    }
}

/// The extents without `[start, end)`.
pub open spec fn extents_cut(
    extents: Seq<ExtentEntry<CacheExtent>>,
    start: int,
    end: int,
) -> Seq<ExtentEntry<CacheExtent>> {
    let low = ending_by(extents, start);
    let high = starting_before(extents, end);
    let left = if has_left_tail(extents, start, end) {
        seq![left_piece(extents[low], start)]
    } else {
        Seq::empty()
    };
    let right = if has_right_tail(extents, start, end) {
        seq![right_piece(extents[high - 1], end)]
    } else {
        Seq::empty()
    };
    extents.take(low) + left + right + extents.skip(high)
}

/// The cache after `[start, end)` was trimmed: no extent shows a byte there, and objects that
/// nothing shows are gone.
pub open spec fn trimmed(cache: CacheView, start: int, end: int) -> CacheView {
    let extents = extents_cut(cache.extents, start, end);
    let objects = live(extents, cache.objects);
    CacheView { extents, objects, lru: kept_ids(cache.lru, objects), ..cache }
}

/// `piece` shows a part of what `extent` shows.
spec fn piece_of(piece: ExtentEntry<CacheExtent>, extent: ExtentEntry<CacheExtent>) -> bool {
    &&& extent.start <= piece.start < piece.end <= extent.end
    &&& piece.value.object_id == extent.value.object_id
    &&& piece.value.object_offset == extent.value.object_offset + (piece.start - extent.start)
}

/// The index of the extent that the piece at index `i` comes from.
spec fn cut_source(
    extents: Seq<ExtentEntry<CacheExtent>>,
    start: int,
    end: int,
    i: int,
) -> int {
    let low = ending_by(extents, start);
    let high = starting_before(extents, end);
    let left = if has_left_tail(extents, start, end) {
        1int
    } else {
        0int
    };
    let right = if has_right_tail(extents, start, end) {
        1int
    } else {
        0int
    };
    if i < low + left {
        i
    } else if i < low + left + right {
        high - 1
    } else {
        i - (low + left + right) + high
    }
}

spec fn cut_at(extents: Seq<ExtentEntry<CacheExtent>>, start: int, end: int, i: int) -> bool {
    let after = extents_cut(extents, start, end);
    let j = cut_source(extents, start, end, i);
    &&& 0 <= j < extents.len()
    &&& piece_of(after[i], extents[j])
    &&& after[i].end <= start || after[i].start >= end
    &&& after[i].end == extents[j].end || after[i].end == start
    &&& after[i].start == extents[j].start || after[i].start == end
}

proof fn lemma_cut(extents: Seq<ExtentEntry<CacheExtent>>, start: int, end: int)
    requires
        spaced(extents),
        0 <= start < end <= u64::MAX,
        forall|i: int|
            0 <= i < extents.len() ==> (#[trigger] extents[i]).value.object_offset + (
            extents[i].end - extents[i].start) <= u64::MAX,
    ensures
        ({
            let low = ending_by(extents, start);
            let high = starting_before(extents, end);
            let left = if has_left_tail(extents, start, end) {
                1int
            } else {
                0int
            };
            let right = if has_right_tail(extents, start, end) {
                1int
            } else {
                0int
            };
            &&& 0 <= low <= high <= extents.len()
            &&& extents_cut(extents, start, end).len() == low + left + right + (extents.len()
                - high)
        }),
        forall|i: int|
            0 <= i < extents_cut(extents, start, end).len() ==> #[trigger] cut_at(
                extents,
                start,
                end,
                i,
            ),
        spaced(extents_cut(extents, start, end)),
{
    lemma_touched(extents, start, end);
    lemma_ending_by(extents, start);
    lemma_starting_before(extents, end);
    let after = extents_cut(extents, start, end);
    assert forall|i: int| 0 <= i < after.len() implies #[trigger] cut_at(
        extents,
        start,
        end,
        i,
    ) by {}
    assert forall|i: int| 0 <= i < after.len() implies (#[trigger] after[i]).start
        < after[i].end by {
        assert(cut_at(extents, start, end, i));
    }
    assert forall|i: int, j: int| 0 <= i < j < after.len() implies (#[trigger] after[i]).end <= (
    #[trigger] after[j]).start && (after[i].end == after[j].start ==> block_of(
        after[i].start as int,
    ) != block_of(after[j].start as int)) by {
        assert(cut_at(extents, start, end, i));
        assert(cut_at(extents, start, end, j));
        let from = cut_source(extents, start, end, i);
        let to = cut_source(extents, start, end, j);
        assert(in_one_block(extents[from]));
        assert(in_one_block(extents[to]));
        if from < to {
            assert(extents[from].end <= extents[to].start);
        }
    }
    assert forall|i: int| 0 <= i < after.len() implies in_one_block(#[trigger] after[i]) by {
        assert(cut_at(extents, start, end, i));
        assert(in_one_block(extents[cut_source(extents, start, end, i)]));
    }
}

/// A position outside the cut shows what it showed before; one inside shows nothing.
proof fn lemma_cut_value_at(
    extents: Seq<ExtentEntry<CacheExtent>>,
    start: int,
    end: int,
    position: int,
)
    requires
        spaced(extents),
        0 <= start < end <= u64::MAX,
        forall|i: int|
            0 <= i < extents.len() ==> (#[trigger] extents[i]).value.object_offset + (
            extents[i].end - extents[i].start) <= u64::MAX,
    ensures
        start <= position < end ==> value_at(extents_cut(extents, start, end), position) is None,
        !(start <= position < end) ==> (match (
            value_at(extents_cut(extents, start, end), position),
            value_at(extents, position),
        ) {
            (Some((after, i)), Some((before, j))) => after.object_id == before.object_id
                && after.object_offset + i == before.object_offset + j,
            (None, None) => true,
            _ => false,
        }),
{
    lemma_cut(extents, start, end);
    let after = extents_cut(extents, start, end);
    let low = ending_by(extents, start);
    let high = starting_before(extents, end);
    lemma_touched(extents, start, end);
    if value_at(after, position) is Some {
        let i = lemma_value_at_source(after, position);
        assert(cut_at(extents, start, end, i));
        lemma_value_at_covered(extents, cut_source(extents, start, end, i), position);
    } else if !(start <= position < end) && value_at(extents, position) is Some {
        let j = lemma_value_at_source(extents, position);
        let left = if has_left_tail(extents, start, end) {
            1int
        } else {
            0int
        };
        let right = if has_right_tail(extents, start, end) {
            1int
        } else {
            0int
        };
        let i = if j < low {
            j
        } else if j >= high {
            j - high + low + left + right
        } else if position < start {
            low
        } else {
            low + left
        };
        if low <= j < high {
            if position < start {
                if j > low {
                    assert(extents[low].end <= extents[j].start);
                }
            } else {
                if j < high - 1 {
                    assert(extents[j].end <= extents[high - 1].start);
                }
            }
        }
        assert(cut_at(extents, start, end, i));
        lemma_value_at_covered(after, i, position);
    }
}

/// Dropping extents keeps the rest of the cache fitting: what is still shown is still there.
proof fn lemma_shrunk(
    before: CacheView,
    extents: Seq<ExtentEntry<CacheExtent>>,
)
    requires
        before.wf(),
        spaced(extents),
        forall|i: int|
            0 <= i < extents.len() ==> exists|j: int|
                0 <= j < before.extents.len() && piece_of(#[trigger] extents[i], before.extents[j]),
    ensures
        ({
            let objects = live(extents, before.objects);
            (CacheView { extents, objects, lru: kept_ids(before.lru, objects), ..before }).wf()
        }),
        forall|i: int|
            0 <= i < extents.len() ==> find(
                live(extents, before.objects),
                (#[trigger] extents[i]).value.object_id,
            ) == find(before.objects, extents[i].value.object_id),
{
    let objects = live(extents, before.objects);
    lemma_live_members(extents, before.objects);
    assert forall|i: int| 0 <= i < extents.len() implies find(
        objects,
        (#[trigger] extents[i]).value.object_id,
    ) == find(before.objects, extents[i].value.object_id) && backed(extents[i], objects) by {
        let shown = extents[i].value.object_id;
        assert(referenced(extents, shown));
        lemma_live_find(extents, before.objects, shown);
        let j = choose|j: int|
            0 <= j < before.extents.len() && piece_of(extents[i], before.extents[j]);
        assert(backed(before.extents[j], before.objects));
    }
    assert forall|i: int| 0 <= i < objects.len() implies {
        &&& (#[trigger] objects[i]).id.0 < before.next_object_id
        &&& objects[i].payload.data().len() <= CACHE_BLOCK_BYTES
        &&& referenced(extents, objects[i].id)
    } by {
        let j = choose|j: int| 0 <= j < before.objects.len() && before.objects[j] == objects[i];
    }
    lemma_kept_ids(before.lru, objects);
    let kept = kept_ids(before.lru, objects);
    assert forall|id: CacheObjectId| #[trigger]
        kept.contains(id) <==> find(objects, id) is Some by {
        lemma_live_find(extents, before.objects, id);
        assert(before.lru.contains(id) <==> find(before.objects, id) is Some);
    }
}

pub proof fn lemma_offsets_fit(cache: CacheView)
    requires
        cache.wf(),
    ensures
        forall|i: int|
            0 <= i < cache.extents.len() ==> (#[trigger] cache.extents[i]).value.object_offset + (
            cache.extents[i].end - cache.extents[i].start) <= CACHE_BLOCK_BYTES,
{
    assert forall|i: int| 0 <= i < cache.extents.len() implies (
    #[trigger] cache.extents[i]).value.object_offset + (cache.extents[i].end
        - cache.extents[i].start) <= CACHE_BLOCK_BYTES by {
        assert(backed(cache.extents[i], cache.objects));
        let place = lemma_find_source(cache.objects, cache.extents[i].value.object_id);
        assert(cache.objects[place].payload.data().len() <= CACHE_BLOCK_BYTES);
    }
}

/// Trimming keeps the cache well formed.
pub proof fn lemma_trimmed_wf(cache: CacheView, start: int, end: int)
    requires
        cache.wf(),
        0 <= start < end <= u64::MAX,
    ensures
        trimmed(cache, start, end).wf(),
{
    lemma_offsets_fit(cache);
    lemma_cut(cache.extents, start, end);
    let extents = extents_cut(cache.extents, start, end);
    assert forall|i: int| 0 <= i < extents.len() implies exists|j: int|
        0 <= j < cache.extents.len() && piece_of(#[trigger] extents[i], cache.extents[j]) by {
        assert(cut_at(cache.extents, start, end, i));
        assert(piece_of(extents[i], cache.extents[cut_source(cache.extents, start, end, i)]));
    }
    lemma_shrunk(cache, extents);
}

/// Trimming removes the bytes of the range from the cache and no others.
pub proof fn lemma_trimmed_bytes(cache: CacheView, start: int, end: int, position: int)
    requires
        cache.wf(),
        0 <= start < end <= u64::MAX,
    ensures
        trimmed(cache, start, end).byte_at(position) == (if start <= position < end {
            None
        } else {
            cache.byte_at(position)
        }),
{
    lemma_offsets_fit(cache);
    lemma_cut(cache.extents, start, end);
    lemma_cut_value_at(cache.extents, start, end, position);
    let extents = extents_cut(cache.extents, start, end);
    if value_at(extents, position) is Some {
        let i = lemma_value_at_source(extents, position);
        let shown = extents[i].value.object_id;
        assert(referenced(extents, shown));
        lemma_live_find(extents, cache.objects, shown);
    }
}

// ---------------------------------------------------------------------------
// Eviction
// ---------------------------------------------------------------------------

/// The extents that show other objects than `id`.
pub open spec fn hidden(
    extents: Seq<ExtentEntry<CacheExtent>>,
    id: CacheObjectId,
) -> Seq<ExtentEntry<CacheExtent>>
    decreases extents.len(),
{
    if extents.len() == 0 {
        Seq::empty()
    } else if extents.last().value.object_id == id {
        hidden(extents.drop_last(), id)
    } else {
        hidden(extents.drop_last(), id).push(extents.last())
    }
}

/// The cache without its least recently used object.
pub open spec fn tail_dropped(cache: CacheView) -> CacheView {
    let extents = hidden(cache.extents, cache.lru.last());
    CacheView {
        extents,
        objects: live(extents, cache.objects),
        lru: cache.lru.drop_last(),
        ..cache
    }
}

/// The cache after least recently used objects were dropped until it is within its budget.
pub open spec fn evicted(cache: CacheView) -> CacheView
    decreases cache.lru.len(),
{
    if cache.charge() <= cache.max_bytes || cache.lru.len() == 0 {
        cache
    } else {
        evicted(tail_dropped(cache))
    }
}

/// An extent that stays is one of those that were there.
proof fn lemma_hidden_source(
    extents: Seq<ExtentEntry<CacheExtent>>,
    id: CacheObjectId,
    i: int,
) -> (j: int)
    requires
        0 <= i < hidden(extents, id).len(),
    ensures
        0 <= j < extents.len(),
        extents[j] == hidden(extents, id)[i],
        extents[j].value.object_id != id,
    decreases extents.len(),
{
    let front = extents.drop_last();
    if extents.last().value.object_id != id && i == hidden(front, id).len() {
        extents.len() - 1
    } else {
        let j = lemma_hidden_source(front, id, i);
        assert(front[j] == extents[j]);
        j
    }
}

/// An extent that shows another object stays.
proof fn lemma_hidden_place(
    extents: Seq<ExtentEntry<CacheExtent>>,
    id: CacheObjectId,
    j: int,
) -> (i: int)
    requires
        0 <= j < extents.len(),
        extents[j].value.object_id != id,
    ensures
        0 <= i < hidden(extents, id).len(),
        hidden(extents, id)[i] == extents[j],
    decreases extents.len(),
{
    let front = extents.drop_last();
    if j == extents.len() - 1 {
        hidden(front, id).len() as int
    } else {
        assert(front[j] == extents[j]);
        lemma_hidden_place(front, id, j)
    }
}

proof fn lemma_hidden_spaced(extents: Seq<ExtentEntry<CacheExtent>>, id: CacheObjectId)
    requires
        spaced(extents),
    ensures
        spaced(hidden(extents, id)),
    decreases extents.len(),
{
    if extents.len() > 0 {
        let front = extents.drop_last();
        let last = extents.len() - 1;
        assert(spaced(front)) by {
            assert(forall|i: int| 0 <= i < front.len() ==> front[i] == extents[i]);
        }
        lemma_hidden_spaced(front, id);
        let shown_front = hidden(front, id);
        let shown = hidden(extents, id);
        if extents.last().value.object_id != id {
            assert(shown == shown_front.push(extents.last()));
            assert(extents[last] == extents.last());
            assert forall|i: int| 0 <= i < shown.len() implies (#[trigger] shown[i]).start
                < shown[i].end && in_one_block(shown[i]) by {
                if i < shown_front.len() {
                    assert(shown[i] == shown_front[i]);
                }
            }
            assert forall|i: int, j: int| 0 <= i < j < shown.len() implies (
            #[trigger] shown[i]).end <= (#[trigger] shown[j]).start && (shown[i].end
                == shown[j].start ==> block_of(shown[i].start as int) != block_of(
                shown[j].start as int,
            )) by {
                assert(shown[i] == shown_front[i]);
                if j < shown_front.len() {
                    assert(shown[j] == shown_front[j]);
                } else {
                    let k = lemma_hidden_source(front, id, i);
                    assert(front[k] == extents[k]);
                    assert(shown[j] == extents[last]);
                }
            }
        }
    }
}

/// Another object that was shown is still shown.
proof fn lemma_hidden_referenced(
    extents: Seq<ExtentEntry<CacheExtent>>,
    id: CacheObjectId,
    other: CacheObjectId,
)
    ensures
        referenced(hidden(extents, id), other) == (other != id && referenced(extents, other)),
{
    let shown = hidden(extents, id);
    if referenced(shown, other) {
        let i = choose|i: int|
            0 <= i < shown.len() && (#[trigger] shown[i]).value.object_id == other;
        let j = lemma_hidden_source(extents, id, i);
        assert(extents[j].value.object_id == other);
    }
    if other != id && referenced(extents, other) {
        let j = choose|j: int|
            0 <= j < extents.len() && (#[trigger] extents[j]).value.object_id == other;
        let i = lemma_hidden_place(extents, id, j);
        assert(shown[i].value.object_id == other);
    }
}

/// What a position shows once an object is hidden.
proof fn lemma_hidden_value_at(
    extents: Seq<ExtentEntry<CacheExtent>>,
    id: CacheObjectId,
    position: int,
)
    requires
        spaced(extents),
    ensures
        value_at(hidden(extents, id), position) == (match value_at(extents, position) {
            Some((extent, offset)) => if extent.object_id == id {
                None
            } else {
                Some((extent, offset))
            },
            None => None,
        }),
{
    lemma_hidden_spaced(extents, id);
    let shown = hidden(extents, id);
    if value_at(shown, position) is Some {
        let i = lemma_value_at_source(shown, position);
        let j = lemma_hidden_source(extents, id, i);
        lemma_value_at_covered(extents, j, position);
    } else if value_at(extents, position) is Some {
        let j = lemma_value_at_source(extents, position);
        if extents[j].value.object_id != id {
            let i = lemma_hidden_place(extents, id, j);
            lemma_value_at_covered(shown, i, position);
        }
    }
}

/// Each object of a well-formed cache is shown.
proof fn lemma_found_is_referenced(cache: CacheView, id: CacheObjectId)
    requires
        cache.wf(),
        find(cache.objects, id) is Some,
    ensures
        referenced(cache.extents, id),
{
    let place = lemma_find_source(cache.objects, id);
    assert(cache.objects[place].id == id);
}

/// Dropping the least recently used object keeps the cache well formed.
pub proof fn lemma_tail_dropped_wf(cache: CacheView)
    requires
        cache.wf(),
        cache.lru.len() > 0,
    ensures
        tail_dropped(cache).wf(),
{
    let id = cache.lru.last();
    lemma_hidden_spaced(cache.extents, id);
    let extents = hidden(cache.extents, id);
    let after = tail_dropped(cache);
    assert forall|i: int| 0 <= i < extents.len() implies exists|j: int|
        0 <= j < cache.extents.len() && piece_of(#[trigger] extents[i], cache.extents[j]) by {
        let j = lemma_hidden_source(cache.extents, id, i);
        assert(piece_of(extents[i], cache.extents[j]));
    }
    lemma_shrunk(cache, extents);
    assert(lists(after.lru, after.objects)) by {
        assert forall|other: CacheObjectId| #[trigger]
            after.lru.contains(other) <==> find(after.objects, other) is Some by {
            lemma_live_find(extents, cache.objects, other);
            lemma_hidden_referenced(cache.extents, id, other);
            assert(cache.lru.contains(other) <==> find(cache.objects, other) is Some);
            if find(cache.objects, other) is Some {
                lemma_found_is_referenced(cache, other);
            }
            if after.lru.contains(other) {
                let i = choose|i: int| 0 <= i < after.lru.len() && after.lru[i] == other;
                assert(cache.lru[i] == other);
                assert(cache.lru[cache.lru.len() - 1] == id);
            }
            if cache.lru.contains(other) && other != id {
                let i = choose|i: int| 0 <= i < cache.lru.len() && cache.lru[i] == other;
                assert(cache.lru[cache.lru.len() - 1] == id);
                assert(after.lru[i] == other);
            }
        }
    }
}

/// Dropping the least recently used object removes the bytes that it showed and no others.
pub proof fn lemma_tail_dropped_bytes(cache: CacheView, position: int)
    requires
        cache.wf(),
        cache.lru.len() > 0,
    ensures
        tail_dropped(cache).byte_at(position) == (match value_at(cache.extents, position) {
            Some((extent, _)) => if extent.object_id == cache.lru.last() {
                None
            } else {
                cache.byte_at(position)
            },
            None => None,
        }),
{
    let id = cache.lru.last();
    lemma_hidden_value_at(cache.extents, id, position);
    if value_at(cache.extents, position) is Some {
        let shown = (value_at(cache.extents, position)->0).0.object_id;
        let j = lemma_value_at_source(cache.extents, position);
        assert(cache.extents[j].value.object_id == shown);
        assert(referenced(cache.extents, shown));
        lemma_hidden_referenced(cache.extents, id, shown);
        lemma_live_find(hidden(cache.extents, id), cache.objects, shown);
    }
}

/// Nothing is charged when no object is there.
proof fn lemma_empty_charge(cache: CacheView)
    requires
        cache.wf(),
        cache.lru.len() == 0,
    ensures
        cache.objects.len() == 0,
        cache.charge() == 0,
{
    if cache.objects.len() > 0 {
        lemma_find_index(cache.objects, 0);
        assert(cache.lru.contains(cache.objects[0].id));
    }
}

/// Eviction keeps the cache well formed, brings it within its budget, and removes bytes without
/// changing any.
pub proof fn lemma_evicted(cache: CacheView)
    requires
        cache.wf(),
        cache.max_bytes >= 0,
    ensures
        evicted(cache).wf(),
        evicted(cache).charge() <= cache.max_bytes,
        evicted(cache).max_bytes == cache.max_bytes,
        evicted(cache).next_object_id == cache.next_object_id,
        forall|position: int| #[trigger]
            evicted(cache).byte_at(position) is None || evicted(cache).byte_at(position)
                == cache.byte_at(position),
    decreases cache.lru.len(),
{
    if cache.charge() > cache.max_bytes {
        if cache.lru.len() == 0 {
            lemma_empty_charge(cache);
        } else {
            lemma_tail_dropped_wf(cache);
            let next = tail_dropped(cache);
            lemma_evicted(next);
            assert forall|position: int| #[trigger]
                evicted(cache).byte_at(position) is None || evicted(cache).byte_at(position)
                    == cache.byte_at(position) by {
                lemma_tail_dropped_bytes(cache, position);
                assert(evicted(next).byte_at(position) is None || evicted(next).byte_at(position)
                    == next.byte_at(position));
                assert(next.byte_at(position) is None || next.byte_at(position) == cache.byte_at(
                    position,
                ));
            }
        }
    } else if cache.lru.len() == 0 {
        lemma_empty_charge(cache);
    }
}

/// Eviction drops the objects that were used least recently and keeps the rest in their order with
/// all their bytes, and drops nothing from a cache that is within its budget and no more than one
/// object where that is enough.
pub proof fn law_eviction_drops_the_coldest(cache: CacheView, position: int)
    requires
        cache.wf(),
        cache.max_bytes >= 0,
    ensures
        ({
            let after = evicted(cache);
            &&& after.lru.len() <= cache.lru.len()
            &&& after.lru == cache.lru.take(after.lru.len() as int)
            &&& cache.charge() <= cache.max_bytes ==> after == cache
            &&& cache.charge() > cache.max_bytes && tail_dropped(cache).charge() <= cache.max_bytes
                ==> after == tail_dropped(cache)
            &&& value_at(cache.extents, position) is Some && after.lru.contains(
                (value_at(cache.extents, position)->0).0.object_id,
            ) ==> after.byte_at(position) == cache.byte_at(position)
        }),
    decreases cache.lru.len(),
{
    let after = evicted(cache);
    if cache.charge() > cache.max_bytes {
        if cache.lru.len() == 0 {
            lemma_empty_charge(cache);
        } else {
            let next = tail_dropped(cache);
            lemma_tail_dropped_wf(cache);
            lemma_tail_dropped_bytes(cache, position);
            law_eviction_drops_the_coldest(next, position);
            assert(next.lru.take(after.lru.len() as int) =~= cache.lru.take(
                after.lru.len() as int,
            ));
            if next.lru.len() == 0 {
                lemma_empty_charge(next);
            }
            if value_at(cache.extents, position) is Some {
                let id = (value_at(cache.extents, position)->0).0.object_id;
                if after.lru.contains(id) {
                    let i = choose|i: int| 0 <= i < after.lru.len() && after.lru[i] == id;
                    assert(cache.lru[i] == id);
                    assert(id != cache.lru.last());
                    lemma_hidden_value_at(cache.extents, cache.lru.last(), position);
                }
            }
        }
    } else {
        assert(cache.lru.take(cache.lru.len() as int) =~= cache.lru);
    }
}

/// Identities that all have an object are all kept.
proof fn lemma_kept_ids_all(lru: Seq<CacheObjectId>, objects: Seq<ObjectView>)
    requires
        forall|i: int| 0 <= i < lru.len() ==> find(objects, #[trigger] lru[i]) is Some,
    ensures
        kept_ids(lru, objects) == lru,
    decreases lru.len(),
{
    if lru.len() > 0 {
        let front = lru.drop_last();
        let last = lru.len() - 1;
        assert(lru[last] == lru.last());
        assert(forall|i: int| 0 <= i < front.len() ==> front[i] == lru[i]);
        lemma_kept_ids_all(front, objects);
        assert(front.push(lru.last()) =~= lru);
    } else {
        assert(lru =~= Seq::empty());
    }
}

/// New bytes that join none that are there are placed before all others if they are hot and behind
/// all others if they are cold, and the others keep their order.
pub proof fn law_new_bytes_take_their_place(
    cache: CacheView,
    start: int,
    end: int,
    source: Seq<u8>,
    alone: PayloadView,
    placement: CacheInsertPlacement,
)
    requires
        cache.wf(),
        in_window(start, end),
        joined(cache.extents, start, end).len() == 0,
        0 <= cache.next_object_id < u64::MAX,
    ensures
        ({
            let id = CacheObjectId(cache.next_object_id as u64);
            window_inserted(cache, start, end, source, alone, placement).lru == match placement {
                CacheInsertPlacement::Hot => seq![id] + cache.lru,
                CacheInsertPlacement::Cold => cache.lru.push(id),
            }
        }),
{
    let id = CacheObjectId(cache.next_object_id as u64);
    let parts = joined(cache.extents, start, end);
    let extents = extents_inserted(cache.extents, start, end, id);
    let fresh = ObjectView { id, payload: inserted_payload(cache, start, end, source, alone) };
    let objects = live(extents, cache.objects.push(fresh));
    let low = ending_by(cache.extents, reach_start(start));
    lemma_joined(cache.extents, start, end);
    assert forall|i: int| 0 <= i < cache.lru.len() implies find(
        objects,
        #[trigger] cache.lru[i],
    ) is Some by {
        let listed = cache.lru[i];
        assert(cache.lru.contains(listed));
        let place = lemma_find_source(cache.objects, listed);
        assert(referenced(cache.extents, listed));
        let k = choose|k: int|
            0 <= k < cache.extents.len() && (#[trigger] cache.extents[k]).value.object_id == listed;
        let moved = if k < low {
            k
        } else {
            k + 1
        };
        assert(extents[moved] == cache.extents[k]);
        assert(referenced(extents, listed));
        lemma_inserted_find(extents, cache.objects, fresh, listed);
        assert(cache.objects[place].id.0 < cache.next_object_id);
    }
    lemma_kept_ids_all(cache.lru, objects);
    lemma_nothing_named(cache.lru, parts);
    assert(cache.lru.insert(0, id) =~= seq![id] + cache.lru);
    assert(cache.lru.insert(cache.lru.len() as int, id) =~= cache.lru.push(id));
}

/// Where no extents are joined, none of their objects is the coldest.
proof fn lemma_nothing_named(lru: Seq<CacheObjectId>, parts: Seq<ExtentEntry<CacheExtent>>)
    requires
        parts.len() == 0,
    ensures
        coldest(lru, parts) is None,
    decreases lru.len(),
{
    if lru.len() > 0 {
        lemma_nothing_named(lru.drop_last(), parts);
    }
}

} // verus!
