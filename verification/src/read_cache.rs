//! Byte-budgeted cache of committed and retired bytes, kept in least-recently-used order.

use crate::cache_model::{
    backed, block_end, block_of, charged, coldest, comes_from, evicted, extents_cut,
    extents_inserted, find, hidden, ids_ascend, in_window, inserted_payload, joined, kept_ids,
    lemma_evicted, lemma_find_index, lemma_find_source, lemma_joined, lemma_live_members,
    lemma_offsets_fit, lemma_piece, lemma_range_inserted_bytes, lemma_range_inserted_wf,
    lemma_shown_byte, lemma_tail_dropped_wf, lemma_trimmed_bytes, lemma_trimmed_wf,
    lemma_window_inserted_wf, live, lone_payload, names, piece_end, range_inserted, reach_end,
    reach_start, referenced, spaced, tail_dropped, trimmed, union_data, union_end, union_start,
    window_inserted, CacheExtent, CacheInsertPlacement, CacheObjectId, CacheView, ObjectView,
    Origin, PayloadView, CACHE_BLOCK_BYTES, LAST_CACHE_BLOCK,
};
use crate::error::{ErrorView, Result, ServerError};
use crate::extent_map::{
    all_show, carve_point, carved, ending_by, has_right_tail, lemma_ending_by,
    lemma_starting_before, lemma_touched, ordered, starting_before, touched, ExtentEntry, ExtentMap,
    ExtentRef,
};
use crate::range::ByteRange;
use crate::shared_bytes::{bytes_as_slice, bytes_clone, bytes_contents, bytes_from_vec, bytes_slice};
use crate::splice::{append_from, copy_into, overwritten, zeros};
use crate::text::{owned, text_with_two_numbers};
use crate::wal::{payload_mismatch_message, WalRecord};
use bytes::Bytes;
use std::collections::VecDeque;
use std::sync::Arc;
use vstd::prelude::*;
use vstd::slice::slice_subrange;

verus! {

/// The bytes of an object.
#[derive(Debug)]
pub enum CachePayload {
    Bytes(Bytes),
    WalRecord { record: Arc<WalRecord> },
}

impl View for CachePayload {
    type V = PayloadView;

    open spec fn view(&self) -> PayloadView {
        match self {
            CachePayload::Bytes(bytes) => PayloadView::Bytes { data: bytes_contents(*bytes) },
            CachePayload::WalRecord { record } => PayloadView::Record {
                number: record.number(),
                data: record.payload(),
            },
        }
    }
}

impl CachePayload {
    /// All bytes of the payload.
    fn as_slice(&self) -> (slice: &[u8])
        ensures
            slice@ == self@.data(),
    {
        match self {
            CachePayload::Bytes(bytes) => bytes_as_slice(bytes),
            CachePayload::WalRecord { record } => record.data(),
        }
    }

    /// The bytes that the cache is charged for the payload.
    fn charged_bytes(&self) -> (charge: usize)
        ensures
            charge == self@.data().len(),
    {
        self.as_slice().len()
    }

    /// Another handle to the same bytes.
    fn share(&self) -> (copy: CachePayload)
        ensures
            copy@ == self@,
    {
        match self {
            CachePayload::Bytes(bytes) => CachePayload::Bytes(bytes_clone(bytes)),
            CachePayload::WalRecord { record } => CachePayload::WalRecord {
                record: record.clone(),
            },
        }
    }
}

/// An object of the cache.
#[derive(Debug)]
struct CacheObject {
    id: CacheObjectId,
    payload: CachePayload,
}

spec fn object_view(object: CacheObject) -> ObjectView {
    ObjectView { id: object.id, payload: object.payload@ }
}

spec fn object_views(objects: Seq<CacheObject>) -> Seq<ObjectView> {
    objects.map_values(|object: CacheObject| object_view(object))
}

/// Objects in the order of their last use, the last used one first.
#[derive(Debug)]
pub struct CacheObjectLru {
    order: VecDeque<CacheObjectId>,
}

impl View for CacheObjectLru {
    type V = Seq<CacheObjectId>;

    closed spec fn view(&self) -> Seq<CacheObjectId> {
        self.order@
    }
}

/// The order of use after an object was used: it comes first.
pub open spec fn promoted(order: Seq<CacheObjectId>, id: CacheObjectId) -> Seq<CacheObjectId> {
    if order.contains(id) {
        order.remove(order.index_of(id)).insert(0, id)
    } else {
        order
    }
}

/// The order of use after several objects were used, one after the other.
pub open spec fn all_promoted(
    order: Seq<CacheObjectId>,
    hits: Seq<CacheObjectId>,
) -> Seq<CacheObjectId>
    decreases hits.len(),
{
    if hits.len() == 0 {
        order
    } else {
        promoted(all_promoted(order, hits.drop_last()), hits.last())
    }
}

/// Using an object keeps which objects are listed.
pub proof fn lemma_promoted(order: Seq<CacheObjectId>, id: CacheObjectId)
    requires
        order.no_duplicates(),
    ensures
        promoted(order, id).no_duplicates(),
        promoted(order, id).len() == order.len(),
        forall|other: CacheObjectId| #[trigger]
            promoted(order, id).contains(other) <==> order.contains(other),
{
    if order.contains(id) {
        let index = order.index_of(id);
        let rest = order.remove(index);
        let after = promoted(order, id);
        assert forall|i: int, j: int|
            0 <= i < after.len() && 0 <= j < after.len() && i != j implies after[i]
            != after[j] by {
            let from = if i == 0 {
                index
            } else if i - 1 < index {
                i - 1
            } else {
                i
            };
            let to = if j == 0 {
                index
            } else if j - 1 < index {
                j - 1
            } else {
                j
            };
            assert(after[i] == order[from] && after[j] == order[to]);
            assert(from != to);
        }
        assert forall|other: CacheObjectId| #[trigger]
            after.contains(other) <==> order.contains(other) by {
            if after.contains(other) {
                let i = choose|i: int| 0 <= i < after.len() && after[i] == other;
                let from = if i == 0 {
                    index
                } else if i - 1 < index {
                    i - 1
                } else {
                    i
                };
                assert(order[from] == other);
            }
            if order.contains(other) {
                let j = choose|j: int| 0 <= j < order.len() && order[j] == other;
                let to = if j == index {
                    0int
                } else if j < index {
                    j + 1
                } else {
                    j
                };
                assert(after[to] == other);
            }
        }
    }
}

pub proof fn lemma_all_promoted(order: Seq<CacheObjectId>, hits: Seq<CacheObjectId>)
    requires
        order.no_duplicates(),
    ensures
        all_promoted(order, hits).no_duplicates(),
        all_promoted(order, hits).len() == order.len(),
        forall|other: CacheObjectId| #[trigger]
            all_promoted(order, hits).contains(other) <==> order.contains(other),
    decreases hits.len(),
{
    if hits.len() > 0 {
        lemma_all_promoted(order, hits.drop_last());
        lemma_promoted(all_promoted(order, hits.drop_last()), hits.last());
    }
}

impl CacheObjectLru {
    pub fn new() -> (lru: Self)
        ensures
            lru@ == Seq::<CacheObjectId>::empty(),
    {
        Self { order: VecDeque::new() }
    }

    pub fn push_front(&mut self, id: CacheObjectId)
        ensures
            final(self)@ == old(self)@.insert(0, id),
    {
        let ghost before = self@;
        self.order.push_front(id);
        proof {
            assert(self@ =~= before.insert(0, id));
        }
    }

    pub fn push_back(&mut self, id: CacheObjectId)
        ensures
            final(self)@ == old(self)@.push(id),
    {
        self.order.push_back(id);
    }

    /// Puts an object at a place in the order, or at its end where there is no such place.
    pub fn insert_at(&mut self, position: usize, id: CacheObjectId)
        ensures
            final(self)@ == old(self)@.insert(
                if position <= old(self)@.len() {
                    position as int
                } else {
                    old(self)@.len() as int
                },
                id,
            ),
    {
        let length: usize = self.order.len();
        if position < length {
            self.order.insert(position, id);
        } else {
            let ghost before = self@;
            self.order.push_back(id);
            proof {
                assert(self@ =~= before.insert(before.len() as int, id));
            }
        }
    }

    /// Makes an object the last used one, if it is listed.
    pub fn promote(&mut self, id: CacheObjectId)
        requires
            old(self)@.no_duplicates(),
        ensures
            final(self)@ == promoted(old(self)@, id),
    {
        match self.remove(id) {
            Some(_) => self.push_front(id),
            None => {},
        }
    }

    /// Takes an object out of the order and gives the place it had.
    pub fn remove(&mut self, id: CacheObjectId) -> (position: Option<usize>)
        requires
            old(self)@.no_duplicates(),
        ensures
            match position {
                Some(position) => {
                    &&& old(self)@.contains(id)
                    &&& position == old(self)@.index_of(id)
                    &&& final(self)@ == old(self)@.remove(position as int)
                },
                None => !old(self)@.contains(id) && final(self)@ == old(self)@,
            },
    {
        let length: usize = self.order.len();
        let mut index: usize = 0;
        while index < length
            invariant
                index <= length,
                length == self.order@.len(),
                self.order@ == old(self)@,
                old(self)@.no_duplicates(),
                forall|i: int| 0 <= i < index ==> self.order@[i] != id,
            decreases length - index,
        {
            if self.order[index] == id {
                proof {
                    let found = old(self)@.index_of(id);
                    assert(old(self)@.contains(id));
                    assert(old(self)@[found] == id);
                    assert(found == index);
                }
                let removed = self.order.remove(index);
                proof {
                    assert(self@ =~= old(self)@.remove(index as int));
                }
                return Some(index);
            }
            index = index + 1;
        }
        None
    }

    /// The least recently used object.
    pub fn tail(&self) -> (id: Option<CacheObjectId>)
        ensures
            match id {
                Some(id) => self@.len() > 0 && id == self@.last(),
                None => self@.len() == 0,
            },
    {
        let length: usize = self.order.len();
        if length == 0 {
            None
        } else {
            Some(self.order[length - 1])
        }
    }

    /// The last place in the order that belongs to one of the extents' objects.
    fn coldest_position(&self, parts: &Vec<ExtentRef<'_, CacheExtent>>, Ghost(extents): Ghost<
        Seq<ExtentEntry<CacheExtent>>,
    >) -> (position: Option<usize>)
        requires
            all_show(parts@, extents),
        ensures
            match position {
                Some(position) => coldest(self@, extents) == Some(position as int),
                None => coldest(self@, extents) is None,
            },
    {
        let mut index: usize = self.order.len();
        proof {
            assert(self@.take(index as int) =~= self@);
        }
        while index > 0
            invariant
                index <= self.order@.len(),
                self@ == self.order@,
                all_show(parts@, extents),
                coldest(self@, extents) == coldest(self@.take(index as int), extents),
            decreases index,
        {
            let id = self.order[index - 1];
            let mut part: usize = 0;
            let mut named: bool = false;
            while part < parts.len()
                invariant
                    part <= parts@.len(),
                    all_show(parts@, extents),
                    named == (exists|i: int|
                        0 <= i < part && (#[trigger] extents[i]).value.object_id == id),
                decreases parts@.len() - part,
            {
                proof {
                    assert(parts@[part as int].shows(extents[part as int]));
                }
                if parts[part].value.object_id == id {
                    named = true;
                }
                part = part + 1;
            }
            proof {
                let shorter = self@.take(index as int);
                assert(shorter.last() == id);
                assert(shorter.drop_last() =~= self@.take(index - 1));
                assert(named == names(extents, id));
            }
            if named {
                return Some(index - 1);
            }
            index = index - 1;
        }
        None
    }
}

/// Cache of committed and retired bytes.
#[derive(Debug)]
pub struct ReadCache {
    extents: ExtentMap<CacheExtent>,
    objects: Vec<CacheObject>,
    lru: CacheObjectLru,
    max_bytes: usize,
    charged_bytes: u128,
    next_object_id: u64,
}

impl View for ReadCache {
    type V = CacheView;

    closed spec fn view(&self) -> CacheView {
        CacheView {
            extents: self.extents@,
            objects: object_views(self.objects@),
            lru: self.lru@,
            next_object_id: self.next_object_id as int,
            max_bytes: self.max_bytes as int,
        }
    }
}

/// Charges of objects that take at most a block each.
proof fn lemma_charge_limit(objects: Seq<ObjectView>)
    requires
        forall|i: int|
            0 <= i < objects.len() ==> (#[trigger] objects[i]).payload.data().len()
                <= CACHE_BLOCK_BYTES,
    ensures
        0 <= charged(objects) <= objects.len() * CACHE_BLOCK_BYTES,
    decreases objects.len(),
{
    if objects.len() > 0 {
        let front = objects.drop_last();
        assert(forall|i: int| 0 <= i < front.len() ==> front[i] == objects[i]);
        assert(objects.last() == objects[objects.len() - 1]);
        lemma_charge_limit(front);
    }
}

/// What the charge loses with an object.
proof fn lemma_charge_remove(objects: Seq<ObjectView>, index: int)
    requires
        0 <= index < objects.len(),
    ensures
        charged(objects.remove(index)) == charged(objects) - objects[index].payload.data().len(),
    decreases objects.len(),
{
    let front = objects.drop_last();
    if index == objects.len() - 1 {
        assert(objects.remove(index) =~= front);
    } else {
        lemma_charge_remove(front, index);
        assert(objects.remove(index).drop_last() =~= front.remove(index));
        assert(objects.remove(index).last() == objects.last());
        assert(front[index] == objects[index]);
    }
}

impl ReadCache {
    /// The charge is what the objects take.
    pub closed spec fn counted(self) -> bool {
        self.charged_bytes == charged(self@.objects)
    }

    /// The state is well formed, and the charge is what the objects take.
    pub open spec fn wf(self) -> bool {
        &&& self@.wf()
        &&& self.counted()
        &&& 0 <= self@.next_object_id <= u64::MAX
        &&& 0 <= self@.max_bytes
    }

    /// The part of the state that garbage collection works on.
    spec fn tallied(self) -> bool {
        &&& ids_ascend(object_views(self.objects@))
        &&& self.charged_bytes == charged(object_views(self.objects@))
    }

    pub fn new(max_bytes: usize) -> (cache: Self)
        ensures
            cache.wf(),
            cache@.extents.len() == 0,
            cache@.objects.len() == 0,
            cache@.lru.len() == 0,
            cache@.next_object_id == 1,
            cache@.max_bytes == max_bytes,
    {
        let cache = Self {
            extents: ExtentMap::new(),
            objects: Vec::new(),
            lru: CacheObjectLru::new(),
            max_bytes,
            charged_bytes: 0,
            next_object_id: 1,
        };
        proof {
            assert(cache@.objects =~= Seq::<ObjectView>::empty());
            assert forall|id: CacheObjectId| #[trigger]
                cache@.lru.contains(id) <==> find(cache@.objects, id) is Some by {}
        }
        cache
    }

    /// The bytes that the cache is charged for.
    pub fn charged_bytes(&self) -> (charge: u128)
        requires
            self.wf(),
        ensures
            charge == self@.charge(),
    {
        self.charged_bytes
    }

    /// How many more objects can get an identity.
    pub fn identities_left(&self) -> (left: u64)
        ensures
            left == u64::MAX - self@.next_object_id,
    {
        u64::MAX - self.next_object_id
    }

    /// The place of an object among the objects.
    fn object_index(&self, id: CacheObjectId) -> (index: Option<usize>)
        requires
            ids_ascend(object_views(self.objects@)),
        ensures
            match index {
                Some(index) => index < self.objects@.len() && self.objects@[index as int].id == id
                    && find(object_views(self.objects@), id) == Some(
                    self.objects@[index as int].payload@,
                ),
                None => find(object_views(self.objects@), id) is None,
            },
    {
        let ghost views = object_views(self.objects@);
        let mut low: usize = 0;
        let mut high: usize = self.objects.len();
        while low < high
            invariant
                views == object_views(self.objects@),
                ids_ascend(views),
                low <= high <= self.objects@.len(),
                forall|i: int| 0 <= i < low ==> (#[trigger] views[i]).id.0 < id.0,
                forall|i: int| high <= i < views.len() ==> (#[trigger] views[i]).id.0 > id.0,
            decreases high - low,
        {
            let middle: usize = low + (high - low) / 2;
            let here: u64 = self.objects[middle].id.0;
            proof {
                assert(views[middle as int].id.0 == here);
            }
            if here == id.0 {
                proof {
                    lemma_find_index(views, middle as int);
                }
                return Some(middle);
            }
            if here < id.0 {
                low = middle + 1;
            } else {
                high = middle;
            }
        }
        proof {
            if find(views, id) is Some {
                let place = lemma_find_source(views, id);
                assert(views[place].id == id);
            }
        }
        None
    }

    /// Drops the objects of which no extent shows a part.
    fn drop_unshown_objects(&mut self)
        requires
            old(self).tallied(),
        ensures
            final(self).tallied(),
            object_views(final(self).objects@) == live(
                old(self).extents@,
                object_views(old(self).objects@),
            ),
            final(self).extents == old(self).extents,
            final(self).lru == old(self).lru,
            final(self).max_bytes == old(self).max_bytes,
            final(self).next_object_id == old(self).next_object_id,
    {
        let ghost views = object_views(self.objects@);
        let ghost extents = self.extents@;
        let count: usize = self.objects.len();
        let mut shown: Vec<bool> = vec![false; count];
        let length: usize = self.extents.len();
        let mut index: usize = 0;
        while index < length
            invariant
                index <= length,
                length == extents.len(),
                extents == self.extents@,
                *self == *old(self),
                views == object_views(self.objects@),
                ids_ascend(views),
                count == views.len(),
                shown@.len() == count,
                forall|j: int|
                    0 <= j < count ==> (#[trigger] shown@[j] <==> exists|i: int|
                        0 <= i < index && (#[trigger] extents[i]).value.object_id == views[j].id),
            decreases length - index,
        {
            let extent = self.extents.entry(index);
            let id = extent.value.object_id;
            proof {
                assert(extents[index as int].value.object_id == id);
            }
            match self.object_index(id) {
                Some(place) => {
                    shown.set(place, true);
                    proof {
                        assert(views[place as int].id == id);
                        assert forall|j: int| 0 <= j < count implies (#[trigger] shown@[j]
                            <==> exists|i: int|
                            0 <= i < index + 1 && (#[trigger] extents[i]).value.object_id
                                == views[j].id) by {
                            if views[j].id == id {
                                assert(j == place);
                            }
                        }
                    }
                },
                None => {
                    proof {
                        assert forall|j: int| 0 <= j < count implies (#[trigger] shown@[j]
                            <==> exists|i: int|
                            0 <= i < index + 1 && (#[trigger] extents[i]).value.object_id
                                == views[j].id) by {
                            if views[j].id == id {
                                lemma_find_index(views, j);
                            }
                        }
                    }
                },
            }
            index = index + 1;
        }
        proof {
            assert forall|j: int| 0 <= j < count implies #[trigger] shown@[j] == referenced(
                extents,
                views[j].id,
            ) by {}
        }
        let mut kept: usize = 0;
        let mut seen: usize = 0;
        proof {
            assert(views.take(0) =~= Seq::<ObjectView>::empty());
            assert(views =~= live(extents, views.take(0)) + views.skip(0));
        }
        while seen < count
            invariant
                kept <= seen <= count,
                count == views.len(),
                shown@.len() == count,
                kept == live(extents, views.take(seen as int)).len(),
                object_views(self.objects@) == live(extents, views.take(seen as int)) + views.skip(
                    seen as int,
                ),
                self.charged_bytes == charged(object_views(self.objects@)),
                forall|j: int|
                    0 <= j < count ==> #[trigger] shown@[j] == referenced(extents, views[j].id),
                self.extents == old(self).extents,
                self.lru == old(self).lru,
                self.max_bytes == old(self).max_bytes,
                self.next_object_id == old(self).next_object_id,
            decreases count - seen,
        {
            let ghost now = object_views(self.objects@);
            proof {
                let longer = views.take(seen + 1);
                assert(longer.drop_last() =~= views.take(seen as int));
                assert(longer.last() == views[seen as int]);
                assert(now[kept as int] == views[seen as int]);
            }
            if shown[seen] {
                kept = kept + 1;
                proof {
                    assert(now =~= live(extents, views.take(seen + 1)) + views.skip(seen + 1));
                }
            } else {
                let charge: usize = self.objects[kept].payload.charged_bytes();
                proof {
                    lemma_charge_remove(now, kept as int);
                    lemma_charge_nonnegative(now.remove(kept as int));
                }
                let removed = self.objects.remove(kept);
                self.charged_bytes = self.charged_bytes - charge as u128;
                proof {
                    assert(object_views(self.objects@) =~= now.remove(kept as int));
                    assert(object_views(self.objects@) =~= live(extents, views.take(seen + 1))
                        + views.skip(seen + 1));
                }
            }
            seen = seen + 1;
        }
        proof {
            assert(views.take(count as int) =~= views);
            assert(object_views(self.objects@) =~= live(extents, views));
            lemma_live_members(extents, views);
        }
    }
}

proof fn lemma_charge_nonnegative(objects: Seq<ObjectView>)
    ensures
        charged(objects) >= 0,
    decreases objects.len(),
{
    if objects.len() > 0 {
        lemma_charge_nonnegative(objects.drop_last());
    }
}

impl CacheExtent {
    /// The part that starts `delta` bytes into the extent.
    fn split_at(&self, delta: u64) -> (piece: CacheExtent)
        requires
            self.object_offset + delta <= u64::MAX,
        ensures
            piece.object_id == self.object_id,
            piece.object_offset == self.object_offset + delta,
    {
        CacheExtent { object_id: self.object_id, object_offset: self.object_offset + delta }
    }
}

/// An insertion that takes in whole extents leaves no pieces of them.
proof fn lemma_carved_whole<F: Fn(&CacheExtent, u64) -> CacheExtent>(
    before: Seq<ExtentEntry<CacheExtent>>,
    after: Seq<ExtentEntry<CacheExtent>>,
    start: int,
    end: int,
    id: CacheObjectId,
    split: F,
)
    requires
        spaced(before),
        in_window(start, end),
        carved(
            before,
            after,
            union_start(before, start, end) as u64,
            union_end(before, start, end) as u64,
            seq![
                ExtentEntry {
                    start: union_start(before, start, end) as u64,
                    end: union_end(before, start, end) as u64,
                    value: CacheExtent { object_id: id, object_offset: 0 },
                },
            ],
            split,
        ),
    ensures
        after == extents_inserted(before, start, end, id),
{
    lemma_joined(before, start, end);
    let first = union_start(before, start, end);
    let limit = union_end(before, start, end);
    let low = ending_by(before, reach_start(start));
    let high = starting_before(before, reach_end(end));
    lemma_ending_by(before, first);
    lemma_ending_by(before, reach_start(start));
    lemma_starting_before(before, limit);
    lemma_starting_before(before, reach_end(end));
    let whole_low = ending_by(before, first);
    let whole_high = starting_before(before, limit);
    assert(whole_low == low) by {
        if whole_low > low {
            if low < high {
                assert(before[low].start >= first);
            } else {
                assert(before[low].start >= limit);
            }
            assert(before[low].end <= first);
        }
        if whole_low < low {
            assert(before[whole_low].end <= first);
        }
    }
    assert(whole_high == high) by {
        if whole_high > high {
            assert(before[high].start >= limit);
        }
        if whole_high < high {
            if low < high && whole_high >= low {
                assert(before[whole_high].end <= limit);
            } else {
                assert(before[whole_high].end <= first);
            }
            assert(before[whole_high].start >= limit);
        }
    }
    let inserted = extents_inserted(before, start, end, id);
    assert(after.len() == inserted.len());
    assert forall|i: int| 0 <= i < after.len() implies after[i] == inserted[i] by {
        if i < low {
            assert(after.take(low)[i] == before.take(low)[i]);
        } else if i == low {
            assert(after.subrange(low, low + 1)[0] == inserted[low]);
        } else {
            assert(after.skip(low + 1)[i - low - 1] == before.skip(high)[i - low - 1]);
        }
    }
    assert(after =~= inserted);
}

/// A new object with the next identity keeps identities ascending.
proof fn lemma_push_ascends(objects: Seq<ObjectView>, fresh: ObjectView)
    requires
        ids_ascend(objects),
        forall|i: int| 0 <= i < objects.len() ==> (#[trigger] objects[i]).id.0 < fresh.id.0,
    ensures
        ids_ascend(objects.push(fresh)),
        charged(objects.push(fresh)) == charged(objects) + fresh.payload.data().len(),
{
    assert(objects.push(fresh).drop_last() =~= objects);
}

/// The start of the block of a position.
fn cache_block_start(offset: u64) -> (start: u64)
    ensures
        start == block_of(offset as int) * CACHE_BLOCK_BYTES,
        start <= offset,
{
    (offset / CACHE_BLOCK_BYTES) * CACHE_BLOCK_BYTES
}

/// The end of the block of a position, where it fits an offset.
fn cache_block_end(offset: u64) -> (result: Result<u64>)
    ensures
        match result {
            Ok(end) => offset < LAST_CACHE_BLOCK && end == block_end(offset as int) && end
                <= LAST_CACHE_BLOCK,
            Err(error) => offset >= LAST_CACHE_BLOCK && error@ == block_overflow(),
        },
{
    match cache_block_start(offset).checked_add(CACHE_BLOCK_BYTES) {
        Some(end) => Ok(end),
        None => Err(ServerError::wal("read cache", owned("cache block end overflowed"))),
    }
}

/// The error for a position in the last block.
pub open spec fn block_overflow() -> ErrorView {
    ErrorView::Wal { context: "read cache"@, message: "cache block end overflowed"@ }
}

impl ReadCache {
    /// Lists in the order of use only the objects that are there.
    fn keep_listed(&mut self)
        requires
            ids_ascend(object_views(old(self).objects@)),
        ensures
            final(self).lru@ == kept_ids(old(self).lru@, object_views(old(self).objects@)),
            final(self).extents == old(self).extents,
            final(self).objects == old(self).objects,
            final(self).max_bytes == old(self).max_bytes,
            final(self).charged_bytes == old(self).charged_bytes,
            final(self).next_object_id == old(self).next_object_id,
    {
        let ghost views = object_views(self.objects@);
        let ghost order = self.lru@;
        let count: usize = self.lru.order.len();
        let mut kept: usize = 0;
        let mut seen: usize = 0;
        proof {
            assert(order.take(0) =~= Seq::<CacheObjectId>::empty());
            assert(order =~= kept_ids(order.take(0), views) + order.skip(0));
        }
        while seen < count
            invariant
                kept <= seen <= count,
                count == order.len(),
                views == object_views(self.objects@),
                ids_ascend(views),
                kept == kept_ids(order.take(seen as int), views).len(),
                self.lru.order@ == kept_ids(order.take(seen as int), views) + order.skip(
                    seen as int,
                ),
                self.extents == old(self).extents,
                self.objects == old(self).objects,
                self.max_bytes == old(self).max_bytes,
                self.charged_bytes == old(self).charged_bytes,
                self.next_object_id == old(self).next_object_id,
            decreases count - seen,
        {
            let ghost now = self.lru.order@;
            proof {
                let longer = order.take(seen + 1);
                assert(longer.drop_last() =~= order.take(seen as int));
                assert(longer.last() == order[seen as int]);
                assert(now[kept as int] == order[seen as int]);
            }
            let id = self.lru.order[kept];
            if self.object_index(id).is_some() {
                kept = kept + 1;
                proof {
                    assert(now =~= kept_ids(order.take(seen + 1), views) + order.skip(seen + 1));
                }
            } else {
                let removed = self.lru.order.remove(kept);
                proof {
                    assert(self.lru.order@ =~= now.remove(kept as int));
                    assert(self.lru.order@ =~= kept_ids(order.take(seen + 1), views) + order.skip(
                        seen + 1,
                    ));
                }
            }
            seen = seen + 1;
        }
        proof {
            assert(order.take(count as int) =~= order);
            assert(self.lru@ =~= kept_ids(order, views));
        }
    }

    /// The extents of the block that overlap or touch `[start, end)`.
    fn joined_extents(&self, start: u64, end: u64) -> (parts: Vec<ExtentRef<'_, CacheExtent>>)
        requires
            self.wf(),
            in_window(start as int, end as int),
            end <= LAST_CACHE_BLOCK,
        ensures
            all_show(parts@, joined(self@.extents, start as int, end as int)),
    {
        let from: u64 = if start % CACHE_BLOCK_BYTES == 0 {
            start
        } else {
            start - 1
        };
        let to: u64 = if end % CACHE_BLOCK_BYTES == 0 {
            end
        } else {
            end + 1
        };
        match self.extents.overlapping(from, to) {
            Ok(parts) => parts,
            Err(_) => Vec::new(),
        }
    }

    /// The bytes that an extent shows, copied over `target` where they belong. `target` starts at
    /// position `first`.
    fn copy_extent(&self, extent: &ExtentRef<'_, CacheExtent>, first: u64, target: &mut Vec<u8>)
        requires
            self.wf(),
            exists|i: int| 0 <= i < self@.extents.len() && extent.shows(#[trigger] self@.extents[i]),
            first <= extent.start,
            extent.end - first <= old(target)@.len(),
        ensures
            final(target)@.len() == old(target)@.len(),
            forall|p: int|
                extent.start <= p < extent.end ==> #[trigger] final(target)@[p - first]
                    == self@.byte_at(p)->0,
            forall|p: int|
                first <= p < first + old(target)@.len() && !(extent.start <= p < extent.end)
                    ==> #[trigger] final(target)@[p - first] == old(target)@[p - first],
    {
        let ghost place = choose|i: int|
            0 <= i < self@.extents.len() && extent.shows(#[trigger] self@.extents[i]);
        proof {
            assert(backed(self@.extents[place], self@.objects));
        }
        match self.object_index(extent.value.object_id) {
            Some(index) => {
                let payload = &self.objects[index].payload;
                let source = payload.as_slice();
                let length: u64 = extent.end - extent.start;
                let size: usize = source.len();
                let ghost before = target@;
                let room: usize = target.len();
                proof {
                    lemma_offsets_fit(self@);
                }
                copy_into(
                    target,
                    (extent.start - first) as usize,
                    source,
                    extent.value.object_offset as usize,
                    length as usize,
                );
                proof {
                    assert forall|p: int| extent.start <= p < extent.end implies #[trigger] target@[
                        p - first] == self@.byte_at(p)->0 by {
                        lemma_shown_byte(self@, place, p);
                    }
                }
            },
            None => {},
        }
    }

    /// The object that shows `source` at `[start, end)` together with the cached bytes around it.
    /// `None` where no extent of the block overlaps or touches.
    fn merged(&self, start: u64, end: u64, source: &[u8]) -> (payload: Option<CachePayload>)
        requires
            self.wf(),
            in_window(start as int, end as int),
            end <= LAST_CACHE_BLOCK,
            source@.len() == end - start,
        ensures
            match payload {
                Some(payload) => joined(self@.extents, start as int, end as int).len() > 0
                    && payload@ == (PayloadView::Bytes {
                    data: union_data(self@, start as int, end as int, source@),
                }),
                None => joined(self@.extents, start as int, end as int).len() == 0,
            },
    {
        let parts = self.joined_extents(start, end);
        let count: usize = parts.len();
        if count == 0 {
            return None;
        }
        let ghost shown = joined(self@.extents, start as int, end as int);
        let ghost low = ending_by(self@.extents, reach_start(start as int));
        proof {
            lemma_joined(self@.extents, start as int, end as int);
            assert(parts@[0].shows(shown[0]));
            assert(parts@[count - 1].shows(shown[count - 1]));
        }
        let first: u64 = if parts[0].start < start {
            parts[0].start
        } else {
            start
        };
        let limit: u64 = if parts[count - 1].end > end {
            parts[count - 1].end
        } else {
            end
        };
        let mut data = zeros((limit - first) as usize);
        if first < start {
            proof {
                assert(shown[0] == self@.extents[low]);
            }
            self.copy_extent(&parts[0], first, &mut data);
        }
        let ghost left = data@;
        if end < limit {
            proof {
                assert(shown[count - 1] == self@.extents[low + count - 1]);
            }
            self.copy_extent(&parts[count - 1], first, &mut data);
        }
        let ghost both = data@;
        copy_into(&mut data, (start - first) as usize, source, 0, source.len());
        proof {
            let wanted = union_data(self@, start as int, end as int, source@);
            assert forall|i: int| 0 <= i < wanted.len() implies data@[i] == wanted[i] by {
                let p = first + i;
                if p < start {
                    assert(left[p - first] == self@.byte_at(p)->0);
                    if end < limit {
                        let last = shown[count - 1];
                        if last.start <= p < last.end {
                            assert(both[p - first] == self@.byte_at(p)->0);
                        } else {
                            assert(both[p - first] == left[p - first]);
                        }
                    }
                } else if p >= end {
                    assert(both[p - first] == self@.byte_at(p)->0);
                } else {
                    assert(source@.subrange(0, source@.len() as int)[p - start] == source@[p
                        - start]);
                }
            }
            assert(data@ =~= wanted);
        }
        Some(CachePayload::Bytes(bytes_from_vec(data)))
    }

    /// Makes the object `id` show over the union of `[start, end)` and the extents it joins. Gives
    /// the last place in the order of use that belongs to an object of those extents.
    fn show_union(&mut self, start: u64, end: u64, id: CacheObjectId) -> (position: Option<usize>)
        requires
            old(self).wf(),
            in_window(start as int, end as int),
            end <= LAST_CACHE_BLOCK,
        ensures
            final(self).extents@ == extents_inserted(
                old(self)@.extents,
                start as int,
                end as int,
                id,
            ),
            match position {
                Some(position) => coldest(
                    old(self)@.lru,
                    joined(old(self)@.extents, start as int, end as int),
                ) == Some(position as int),
                None => coldest(
                    old(self)@.lru,
                    joined(old(self)@.extents, start as int, end as int),
                ) is None,
            },
            final(self).objects == old(self).objects,
            final(self).lru == old(self).lru,
            final(self).max_bytes == old(self).max_bytes,
            final(self).charged_bytes == old(self).charged_bytes,
            final(self).next_object_id == old(self).next_object_id,
    {
        let ghost before = self@;
        let ghost shown = joined(before.extents, start as int, end as int);
        proof {
            lemma_joined(before.extents, start as int, end as int);
            lemma_offsets_fit(before);
        }
        let parts = self.joined_extents(start, end);
        let count: usize = parts.len();
        proof {
            if count > 0 {
                assert(parts@[0].shows(shown[0]));
                assert(parts@[count - 1].shows(shown[count - 1]));
            }
        }
        let first: u64 = if count > 0 && parts[0].start < start {
            parts[0].start
        } else {
            start
        };
        let limit: u64 = if count > 0 && parts[count - 1].end > end {
            parts[count - 1].end
        } else {
            end
        };
        let position = self.lru.coldest_position(&parts, Ghost(shown));
        let split = |extent: &CacheExtent, delta: u64| -> (piece: CacheExtent)
            requires
                extent.object_offset + delta <= u64::MAX,
            ensures
                piece.object_id == extent.object_id,
                piece.object_offset == extent.object_offset + delta,
            { extent.split_at(delta) };
        let value = CacheExtent { object_id: id, object_offset: 0 };
        let removed = self.extents.insert_overwrite_with_split(first, limit, value, split);
        proof {
            lemma_carved_whole(before.extents, self.extents@, start as int, end as int, id, split);
        }
        position
    }

    /// Adds an object with the next identity.
    fn add_object(&mut self, payload: CachePayload)
        requires
            old(self).tallied(),
            forall|i: int|
                0 <= i < old(self).objects@.len() ==> (#[trigger] object_views(
                    old(self).objects@,
                )[i]).payload.data().len() <= CACHE_BLOCK_BYTES,
            forall|i: int|
                0 <= i < old(self).objects@.len() ==> (#[trigger] object_views(
                    old(self).objects@,
                )[i]).id.0 < old(self).next_object_id,
            old(self).next_object_id < u64::MAX,
        ensures
            final(self).tallied(),
            object_views(final(self).objects@) == object_views(old(self).objects@).push(
                ObjectView {
                    id: CacheObjectId(old(self).next_object_id),
                    payload: payload@,
                },
            ),
            final(self).extents == old(self).extents,
            final(self).lru == old(self).lru,
            final(self).max_bytes == old(self).max_bytes,
            final(self).next_object_id == old(self).next_object_id + 1,
    {
        let charge: usize = payload.charged_bytes();
        let count: usize = self.objects.len();
        let id = CacheObjectId(self.next_object_id);
        let ghost before = object_views(self.objects@);
        let ghost fresh = ObjectView { id, payload: payload@ };
        proof {
            lemma_charge_limit(before);
            lemma_push_ascends(before, fresh);
            assert(count * CACHE_BLOCK_BYTES <= usize::MAX * CACHE_BLOCK_BYTES)
                by (nonlinear_arith)
                requires
                    count <= usize::MAX,
            ;
        }
        self.next_object_id = self.next_object_id + 1;
        self.charged_bytes = self.charged_bytes + charge as u128;
        self.objects.push(CacheObject { id, payload });
        proof {
            assert(object_views(self.objects@) =~= before.push(fresh));
        }
    }

    /// Makes one object show over the union of `[start, end)` and the extents it joins.
    fn place_window(
        &mut self,
        start: u64,
        end: u64,
        payload: CachePayload,
        placement: CacheInsertPlacement,
        Ghost(source): Ghost<Seq<u8>>,
        Ghost(alone): Ghost<PayloadView>,
    )
        requires
            old(self).wf(),
            in_window(start as int, end as int),
            end <= LAST_CACHE_BLOCK,
            source.len() == end - start,
            alone.data() == source,
            payload@ == inserted_payload(old(self)@, start as int, end as int, source, alone),
            old(self)@.next_object_id < u64::MAX,
        ensures
            final(self).wf(),
            final(self)@ == window_inserted(
                old(self)@,
                start as int,
                end as int,
                source,
                alone,
                placement,
            ),
    {
        let ghost before = self@;
        proof {
            lemma_window_inserted_wf(before, start as int, end as int, source, alone, placement);
        }
        let id = CacheObjectId(self.next_object_id);
        let position = self.show_union(start, end, id);
        self.add_object(payload);
        self.drop_unshown_objects();
        self.keep_listed();
        let ghost kept = self.lru@;
        match position {
            Some(position) => self.lru.insert_at(position, id),
            None => match placement {
                CacheInsertPlacement::Hot => self.lru.push_front(id),
                CacheInsertPlacement::Cold => self.lru.push_back(id),
            },
        }
        proof {
            let after = window_inserted(
                before,
                start as int,
                end as int,
                source,
                alone,
                placement,
            );
            assert(kept.insert(kept.len() as int, id) =~= kept.push(id));
            assert(self@.extents == after.extents);
            assert(self@.objects == after.objects);
            assert(self@.lru == after.lru);
        }
    }
}

/// Bytes to insert: a buffer, or a part of a log record from an offset of its payload on.
#[derive(Debug)]
enum CacheSource {
    Bytes(Bytes),
    Record { record: Arc<WalRecord>, offset: u64 },
}

impl CacheSource {
    spec fn origin(self) -> Origin {
        match self {
            CacheSource::Bytes(_) => Origin::Fill,
            CacheSource::Record { record, offset } => Origin::Record {
                number: record.number(),
                data: record.payload(),
                offset: offset as int,
            },
        }
    }

    /// Whether the source holds the `size` bytes `data`.
    spec fn holds(self, data: Seq<u8>) -> bool {
        match self {
            CacheSource::Bytes(bytes) => bytes_contents(bytes) == data,
            CacheSource::Record { record, offset } => offset + data.len()
                <= record.payload().len() && data == record.payload().subrange(
                offset as int,
                offset + data.len(),
            ),
        }
    }

    /// The bytes `[skipped, skipped + length)` of the source.
    fn part(&self, skipped: u64, length: u64, Ghost(data): Ghost<Seq<u8>>) -> (part: &[u8])
        requires
            self.holds(data),
            skipped + length <= data.len(),
        ensures
            part@ == data.subrange(skipped as int, skipped + length),
    {
        match self {
            CacheSource::Bytes(bytes) => {
                let all = bytes_as_slice(bytes);
                let size: usize = all.len();
                slice_subrange(all, skipped as usize, (skipped + length) as usize)
            },
            CacheSource::Record { record, offset } => {
                let all = record.data();
                let size: usize = all.len();
                let from: u64 = *offset + skipped;
                let part = slice_subrange(all, from as usize, (from + length) as usize);
                proof {
                    assert(part@ =~= data.subrange(skipped as int, skipped + length));
                }
                part
            },
        }
    }

    /// The object that holds `[skipped, skipped + length)` of the source and nothing else.
    fn alone(&self, skipped: u64, length: u64, Ghost(data): Ghost<Seq<u8>>) -> (payload:
        CachePayload)
        requires
            self.holds(data),
            skipped + length <= data.len(),
        ensures
            payload@ == lone_payload(
                self.origin(),
                skipped as int,
                data.subrange(skipped as int, skipped + length),
            ),
    {
        match self {
            CacheSource::Bytes(bytes) => {
                let all = bytes_as_slice(bytes);
                let size: usize = all.len();
                CachePayload::Bytes(
                    bytes_slice(bytes, skipped as usize, (skipped + length) as usize),
                )
            },
            CacheSource::Record { record, offset } => {
                let size: usize = record.data().len();
                if *offset == 0 && skipped == 0 && length == size as u64 {
                    CachePayload::WalRecord { record: record.clone() }
                } else {
                    let part = self.part(skipped, length, Ghost(data));
                    let mut copy: Vec<u8> = Vec::new();
                    append_from(&mut copy, part, 0, part.len());
                    proof {
                        assert(copy@ =~= part@);
                    }
                    CachePayload::Bytes(bytes_from_vec(copy))
                }
            },
        }
    }
}

/// Whether the range, taken up to the largest offset, has bytes in the last block.
pub open spec fn reaches_last_block(range: ByteRange) -> bool {
    range.first() < range.saturated_limit() && range.saturated_limit() > LAST_CACHE_BLOCK
}

/// The cache after a range was inserted. Bytes in the last block are not cached, and where there
/// are some nothing is evicted.
pub open spec fn inserted(
    cache: CacheView,
    range: ByteRange,
    source: Seq<u8>,
    origin: Origin,
    placement: CacheInsertPlacement,
) -> CacheView {
    if range.size() == 0 {
        cache
    } else if reaches_last_block(range) {
        range_inserted(
            cache,
            range.first(),
            range.first(),
            LAST_CACHE_BLOCK as int,
            source,
            origin,
            placement,
        )
    } else {
        evicted(
            range_inserted(
                cache,
                range.first(),
                range.first(),
                range.saturated_limit(),
                source,
                origin,
                placement,
            ),
        )
    }
}

/// Up to the last block, a range is cut into the same pieces whether or not it goes on.
proof fn lemma_same_piece(from: int, end: int)
    requires
        0 <= from < LAST_CACHE_BLOCK,
        from < end <= u64::MAX,
        end > LAST_CACHE_BLOCK,
    ensures
        piece_end(from, end) == piece_end(from, LAST_CACHE_BLOCK as int),
        piece_end(from, end) <= LAST_CACHE_BLOCK,
{
}

impl ReadCache {
    /// Inserts a part of a source inside one block.
    fn insert_window(
        &mut self,
        start: u64,
        end: u64,
        source: &CacheSource,
        skipped: u64,
        placement: CacheInsertPlacement,
        Ghost(data): Ghost<Seq<u8>>,
    )
        requires
            old(self).wf(),
            in_window(start as int, end as int),
            end <= LAST_CACHE_BLOCK,
            source.holds(data),
            skipped + (end - start) <= data.len(),
            old(self)@.next_object_id < u64::MAX,
        ensures
            final(self).wf(),
            final(self)@ == window_inserted(
                old(self)@,
                start as int,
                end as int,
                data.subrange(skipped as int, skipped + (end - start)),
                lone_payload(
                    source.origin(),
                    skipped as int,
                    data.subrange(skipped as int, skipped + (end - start)),
                ),
                placement,
            ),
    {
        let length: u64 = end - start;
        let ghost piece = data.subrange(skipped as int, skipped + length);
        let ghost alone = lone_payload(source.origin(), skipped as int, piece);
        proof {
            assert(alone.data() =~= piece) by {
                match source.origin() {
                    Origin::Record { number, data: whole, offset } => {
                        if offset + skipped == 0 && piece.len() == whole.len() {
                            assert(piece =~= whole);
                        }
                    },
                    Origin::Fill => {},
                }
            }
        }
        let part = source.part(skipped, length, Ghost(data));
        let payload = match self.merged(start, end, part) {
            Some(payload) => payload,
            None => source.alone(skipped, length, Ghost(data)),
        };
        self.place_window(start, end, payload, placement, Ghost(piece), Ghost(alone));
    }

    /// Inserts a source block by block.
    fn insert_range(
        &mut self,
        range: ByteRange,
        source: &CacheSource,
        placement: CacheInsertPlacement,
        Ghost(data): Ghost<Seq<u8>>,
    ) -> (result: Result<()>)
        requires
            old(self).wf(),
            source.holds(data),
            data.len() == range.size(),
            range.size() > 0,
            old(self)@.next_object_id + range.size() <= u64::MAX,
        ensures
            final(self).wf(),
            final(self)@ == inserted(old(self)@, range, data, source.origin(), placement),
            match result {
                Ok(_) => !reaches_last_block(range),
                Err(error) => reaches_last_block(range) && error@ == block_overflow(),
            },
    {
        let first: u64 = range.start();
        let limit: u64 = range.end();
        let mut start: u64 = first;
        let ghost before = self@;
        let ghost origin = source.origin();
        let ghost stop = if limit <= LAST_CACHE_BLOCK {
            limit as int
        } else {
            LAST_CACHE_BLOCK as int
        };
        while start < limit
            invariant
                before == old(self)@,
                first <= start,
                start <= limit || start == first,
                first == range.first(),
                limit == range.saturated_limit(),
                range.size() > 0,
                data.len() == range.size(),
                source.holds(data),
                origin == source.origin(),
                self.wf(),
                start <= limit ==> self@.next_object_id + (limit - start) <= u64::MAX,
                stop == (if limit <= LAST_CACHE_BLOCK {
                    limit as int
                } else {
                    LAST_CACHE_BLOCK as int
                }),
                start <= stop || start == first,
                range_inserted(self@, start as int, first as int, stop, data, origin, placement)
                    == range_inserted(
                    before,
                    first as int,
                    first as int,
                    stop,
                    data,
                    origin,
                    placement,
                ),
                start == first ==> self@ == before,
            decreases limit - start,
        {
            let window_end: u64 = match cache_block_end(start) {
                Ok(end) => end,
                Err(error) => {
                    proof {
                        assert(start >= stop);
                        assert(self@ == range_inserted(
                            before,
                            first as int,
                            first as int,
                            stop,
                            data,
                            origin,
                            placement,
                        ));
                    }
                    return Err(error);
                },
            };
            let end: u64 = if limit < window_end {
                limit
            } else {
                window_end
            };
            proof {
                lemma_piece(start as int, limit as int);
                if limit > LAST_CACHE_BLOCK {
                    lemma_same_piece(start as int, limit as int);
                }
                lemma_piece(start as int, stop);
                assert(end == piece_end(start as int, stop));
                assert(start - first + (end - start) == end - first);
            }
            self.insert_window(start, end, source, start - first, placement, Ghost(data));
            start = end;
        }
        self.evict_to_budget();
        Ok(())
    }

    /// Drops least recently used objects until the cache is within its budget.
    fn evict_to_budget(&mut self)
        requires
            old(self).wf(),
        ensures
            final(self).wf(),
            final(self)@ == evicted(old(self)@),
    {
        while self.charged_bytes > self.max_bytes as u128
            invariant
                self.wf(),
                evicted(self@) == evicted(old(self)@),
            ensures
                self.wf(),
                self@ == evicted(old(self)@),
            decreases self@.lru.len(),
        {
            match self.lru.tail() {
                Some(id) => self.evict_object(id),
                None => break ,
            }
        }
    }

    /// Drops the least recently used object.
    fn evict_object(&mut self, id: CacheObjectId)
        requires
            old(self).wf(),
            old(self)@.lru.len() > 0,
            id == old(self)@.lru.last(),
        ensures
            final(self).wf(),
            final(self)@ == tail_dropped(old(self)@),
    {
        let ghost before = self@;
        proof {
            lemma_tail_dropped_wf(before);
        }
        let ghost extents = self.extents@;
        let count: usize = self.extents.len();
        let mut kept: usize = 0;
        let mut seen: usize = 0;
        proof {
            assert(extents.take(0) =~= Seq::<ExtentEntry<CacheExtent>>::empty());
            assert(extents =~= hidden(extents.take(0), id) + extents.skip(0));
        }
        while seen < count
            invariant
                kept <= seen <= count,
                count == extents.len(),
                self.extents.wf(),
                kept == hidden(extents.take(seen as int), id).len(),
                self.extents@ == hidden(extents.take(seen as int), id) + extents.skip(
                    seen as int,
                ),
                self.objects == old(self).objects,
                self.lru == old(self).lru,
                self.max_bytes == old(self).max_bytes,
                self.charged_bytes == old(self).charged_bytes,
                self.next_object_id == old(self).next_object_id,
            decreases count - seen,
        {
            let ghost now = self.extents@;
            proof {
                let longer = extents.take(seen + 1);
                assert(longer.drop_last() =~= extents.take(seen as int));
                assert(longer.last() == extents[seen as int]);
                assert(now[kept as int] == extents[seen as int]);
            }
            let extent = self.extents.entry(kept);
            if extent.value.object_id == id {
                let removed = self.extents.remove_entry(kept);
                proof {
                    assert(self.extents@ =~= hidden(extents.take(seen + 1), id) + extents.skip(
                        seen + 1,
                    ));
                }
            } else {
                kept = kept + 1;
                proof {
                    assert(now =~= hidden(extents.take(seen + 1), id) + extents.skip(seen + 1));
                }
            }
            seen = seen + 1;
        }
        proof {
            assert(extents.take(count as int) =~= extents);
            assert(self.extents@ =~= hidden(extents, id));
            let place = before.lru.index_of(id);
            assert(before.lru[before.lru.len() - 1] == id);
            assert(before.lru.contains(id));
            assert(place == before.lru.len() - 1);
            assert(before.lru.remove(place) =~= before.lru.drop_last());
        }
        let position = self.lru.remove(id);
        self.drop_unshown_objects();
    }

    /// Caches the bytes of a range.
    pub fn insert_bytes(
        &mut self,
        range: ByteRange,
        bytes: Bytes,
        placement: CacheInsertPlacement,
    ) -> (result: Result<()>)
        requires
            old(self).wf(),
            old(self)@.next_object_id + range.size() <= u64::MAX,
        ensures
            final(self).wf(),
            match result {
                Ok(_) => {
                    &&& bytes_contents(bytes).len() == range.size()
                    &&& !reaches_last_block(range)
                    &&& final(self)@ == inserted(
                        old(self)@,
                        range,
                        bytes_contents(bytes),
                        Origin::Fill,
                        placement,
                    )
                },
                Err(error) => if bytes_contents(bytes).len() != range.size() {
                    &&& error@ == (ErrorView::Wal {
                        context: "insert read cache bytes"@,
                        message: payload_mismatch_message(
                            bytes_contents(bytes).len(),
                            range.size() as nat,
                        ),
                    })
                    &&& final(self)@ == old(self)@
                } else {
                    &&& reaches_last_block(range)
                    &&& error@ == block_overflow()
                    &&& final(self)@ == inserted(
                        old(self)@,
                        range,
                        bytes_contents(bytes),
                        Origin::Fill,
                        placement,
                    )
                },
            },
    {
        let size: usize = bytes_as_slice(&bytes).len();
        if size as u64 != range.len() {
            return Err(
                ServerError::wal(
                    "insert read cache bytes",
                    text_with_two_numbers(
                        "payload length ",
                        size as u64,
                        " does not match range length ",
                        range.len(),
                        "",
                    ),
                ),
            );
        }
        if range.is_empty() {
            return Ok(());
        }
        let ghost data = bytes_contents(bytes);
        let source = CacheSource::Bytes(bytes);
        self.insert_range(range, &source, placement, Ghost(data))
    }

    /// Caches a part of a log record.
    pub fn insert_wal_record_slice(
        &mut self,
        range: ByteRange,
        record: Arc<WalRecord>,
        record_offset: u64,
        placement: CacheInsertPlacement,
    ) -> (result: Result<()>)
        requires
            old(self).wf(),
            old(self)@.next_object_id + range.size() <= u64::MAX,
        ensures
            final(self).wf(),
            record_slice_inserted(
                old(self)@,
                final(self)@,
                result,
                range,
                record.number(),
                record.payload(),
                record_offset as int,
                placement,
            ),
    {
        let end: u64 = match record_offset.checked_add(range.len()) {
            Some(end) => end,
            None => {
                return Err(
                    ServerError::wal(
                        "insert read cache WAL record",
                        owned("record offset overflowed"),
                    ),
                );
            },
        };
        if end > record.data().len() as u64 {
            return Err(
                ServerError::wal(
                    "insert read cache WAL record",
                    owned("retired WAL slice exceeds record payload"),
                ),
            );
        }
        if range.is_empty() {
            return Ok(());
        }
        let ghost data = record.payload().subrange(
            record_offset as int,
            record_offset + range.size(),
        );
        let source = CacheSource::Record { record, offset: record_offset };
        self.insert_range(range, &source, placement, Ghost(data))
    }
}

/// What inserting a part of a log record does. The part has to lie in the record's payload.
pub open spec fn record_slice_inserted(
    before: CacheView,
    after: CacheView,
    result: Result<()>,
    range: ByteRange,
    number: int,
    payload: Seq<u8>,
    offset: int,
    placement: CacheInsertPlacement,
) -> bool {
    if offset + range.size() > u64::MAX {
        &&& after == before
        &&& result matches Err(error) && error@ == (ErrorView::Wal {
            context: "insert read cache WAL record"@,
            message: "record offset overflowed"@,
        })
    } else if offset + range.size() > payload.len() {
        &&& after == before
        &&& result matches Err(error) && error@ == (ErrorView::Wal {
            context: "insert read cache WAL record"@,
            message: "retired WAL slice exceeds record payload"@,
        })
    } else {
        &&& after == inserted(
            before,
            range,
            payload.subrange(offset, offset + range.size()),
            Origin::Record { number, data: payload, offset },
            placement,
        )
        &&& match result {
            Ok(_) => !reaches_last_block(range),
            Err(error) => reaches_last_block(range) && error@ == block_overflow(),
        }
    }
}

/// The cache without the bytes of a range, taken up to the largest offset.
pub open spec fn range_trimmed(cache: CacheView, range: ByteRange) -> CacheView {
    if range.first() < range.saturated_limit() {
        trimmed(cache, range.first(), range.saturated_limit())
    } else {
        cache
    }
}

/// Removing a range from a map leaves the pieces that stick out of it.
proof fn lemma_carved_cut<F: Fn(&CacheExtent, u64) -> CacheExtent>(
    before: Seq<ExtentEntry<CacheExtent>>,
    after: Seq<ExtentEntry<CacheExtent>>,
    start: u64,
    end: u64,
    split: F,
)
    requires
        ordered(before),
        start < end,
        carved(before, after, start, end, Seq::<ExtentEntry<CacheExtent>>::empty(), split),
        forall|extent: CacheExtent, delta: u64, piece: CacheExtent| #[trigger]
            call_ensures(split, (&extent, delta), piece) ==> piece.object_id == extent.object_id
                && piece.object_offset == extent.object_offset + delta,
    ensures
        after == extents_cut(before, start as int, end as int),
{
    lemma_touched(before, start as int, end as int);
    let low = ending_by(before, start as int);
    let high = starting_before(before, end as int);
    let point = carve_point(before, start as int, end as int);
    let right = has_right_tail(before, start as int, end as int);
    let rest = point + (if right {
        1int
    } else {
        0int
    });
    let cut = extents_cut(before, start as int, end as int);
    assert(cut.len() == after.len());
    assert forall|i: int| 0 <= i < after.len() implies after[i] == cut[i] by {
        if i < low {
            assert(after.take(low)[i] == before.take(low)[i]);
        } else if i < point {
            assert(after[i].value.object_offset == before[low].value.object_offset);
            assert(after[i].value == before[low].value);
        } else if i < rest {
            assert(before[high - 1].start < end);
        } else {
            assert(after.skip(rest)[i - rest] == before.skip(high)[i - rest]);
        }
    }
    assert(after =~= cut);
}

/// A run of cached bytes.
pub struct SliceView {
    pub start: int,
    pub end: int,
    pub object_id: CacheObjectId,
    pub data: Seq<u8>,
}

/// The part of `[start, end)` that an extent of the cache shows.
pub open spec fn slice_of(
    cache: CacheView,
    extent: ExtentEntry<CacheExtent>,
    start: int,
    end: int,
) -> SliceView {
    let from = if start < extent.start {
        extent.start as int
    } else {
        start
    };
    let to = if end < extent.end {
        end
    } else {
        extent.end as int
    };
    SliceView {
        start: from,
        end: to,
        object_id: extent.value.object_id,
        data: Seq::new((to - from) as nat, |i: int| cache.byte_at(from + i)->0),
    }
}

/// The parts of `[start, end)` that the cache shows, in ascending order.
pub open spec fn slices_of(cache: CacheView, start: int, end: int) -> Seq<SliceView> {
    if start < end {
        touched(cache.extents, start, end).map_values(
            |extent: ExtentEntry<CacheExtent>| slice_of(cache, extent, start, end),
        )
    } else {
        Seq::empty()
    }
}

/// A run of cached bytes that was found by a read.
#[derive(Debug)]
pub struct CacheReadSlice {
    start: u64,
    end: u64,
    object_id: CacheObjectId,
    object_offset: u64,
    payload: CachePayload,
}

impl View for CacheReadSlice {
    type V = SliceView;

    closed spec fn view(&self) -> SliceView {
        SliceView {
            start: self.start as int,
            end: self.end as int,
            object_id: self.object_id,
            data: self.payload@.data().subrange(
                self.object_offset as int,
                self.object_offset + (self.end - self.start),
            ),
        }
    }
}

/// The views of slices.
pub open spec fn slice_views(slices: Seq<CacheReadSlice>) -> Seq<SliceView> {
    slices.map_values(|slice: CacheReadSlice| slice@)
}

/// Where a slice's bytes go in a buffer that starts at `first` and stands for `[first, limit)`.
pub open spec fn slice_copied(
    buffer: Seq<u8>,
    first: int,
    limit: int,
    slice: SliceView,
) -> Seq<u8> {
    let from = if first < slice.start {
        slice.start
    } else {
        first
    };
    let to = if limit < slice.end {
        limit
    } else {
        slice.end
    };
    if from < to {
        overwritten(
            buffer,
            from - first,
            slice.data.subrange(from - slice.start, to - slice.start),
        )
    } else {
        buffer
    }
}

impl CacheReadSlice {
    #[verifier::type_invariant]
    spec fn inv(self) -> bool {
        &&& self.start <= self.end
        &&& self.object_offset + (self.end - self.start) <= self.payload@.data().len()
    }

    pub fn start(&self) -> (start: u64)
        ensures
            start == self@.start,
    {
        self.start
    }

    pub fn end(&self) -> (end: u64)
        ensures
            end == self@.end,
    {
        self.end
    }

    pub fn object_id(&self) -> (id: CacheObjectId)
        ensures
            id == self@.object_id,
    {
        self.object_id
    }

    /// Copies the bytes to where they belong in a buffer that stands for `read_range`.
    pub fn copy_to(&self, read_range: ByteRange, data: &mut Vec<u8>) -> (result: Result<()>)
        requires
            old(data)@.len() >= read_range.saturated_limit() - read_range.first(),
        ensures
            result is Ok,
            final(data)@ == slice_copied(
                old(data)@,
                read_range.first(),
                read_range.saturated_limit(),
                self@,
            ),
    {
        proof {
            use_type_invariant(self);
        }
        let first: u64 = read_range.start();
        let limit: u64 = read_range.end();
        let start: u64 = if first < self.start {
            self.start
        } else {
            first
        };
        let end: u64 = if limit < self.end {
            limit
        } else {
            self.end
        };
        if start >= end {
            return Ok(());
        }
        let source = self.payload.as_slice();
        let available: usize = source.len();
        let room: usize = data.len();
        let offset: u64 = self.object_offset + (start - self.start);
        copy_into(data, (start - first) as usize, source, offset as usize, (end - start) as usize);
        proof {
            assert(source@.subrange(offset as int, offset + (end - start))
                =~= self@.data.subrange(start - self.start, end - self.start));
        }
        Ok(())
    }
}

impl ReadCache {
    /// Drops the cached bytes of a range.
    pub fn trim_range(&mut self, range: ByteRange) -> (result: Result<()>)
        requires
            old(self).wf(),
        ensures
            final(self).wf(),
            result is Ok,
            final(self)@ == range_trimmed(old(self)@, range),
    {
        let start: u64 = range.start();
        let end: u64 = range.end();
        if start >= end {
            return Ok(());
        }
        let ghost before = self@;
        proof {
            lemma_offsets_fit(before);
            lemma_trimmed_wf(before, start as int, end as int);
        }
        let split = |extent: &CacheExtent, delta: u64| -> (piece: CacheExtent)
            requires
                extent.object_offset + delta <= u64::MAX,
            ensures
                piece.object_id == extent.object_id,
                piece.object_offset == extent.object_offset + delta,
            { extent.split_at(delta) };
        let removed = self.extents.remove_range_with_split(start, end, split);
        proof {
            lemma_carved_cut(before.extents, self.extents@, start, end, split);
        }
        self.drop_unshown_objects();
        self.keep_listed();
        Ok(())
    }

    /// Makes the objects the last used ones, one after the other, where they are still there.
    pub fn promote_hits(&mut self, hits: &Vec<CacheObjectId>)
        requires
            old(self).wf(),
        ensures
            final(self).wf(),
            final(self)@ == (CacheView {
                lru: all_promoted(old(self)@.lru, hits@),
                ..old(self)@
            }),
    {
        let ghost before = self@;
        let mut index: usize = 0;
        proof {
            assert(hits@.take(0) =~= Seq::<CacheObjectId>::empty());
        }
        while index < hits.len()
            invariant
                index <= hits@.len(),
                before == old(self)@,
                before.wf(),
                self.charged_bytes == charged(before.objects),
                self@ == (CacheView {
                    lru: all_promoted(before.lru, hits@.take(index as int)),
                    ..before
                }),
            decreases hits@.len() - index,
        {
            proof {
                let seen = hits@.take(index as int);
                lemma_all_promoted(before.lru, seen);
                assert(hits@.take(index + 1).drop_last() =~= seen);
                assert(hits@.take(index + 1).last() == hits@[index as int]);
            }
            self.lru.promote(hits[index]);
            index = index + 1;
        }
        proof {
            assert(hits@.take(index as int) =~= hits@);
            lemma_all_promoted(before.lru, hits@);
        }
    }

    /// The cached runs of a range, in ascending order.
    pub fn read_slices(&self, range: ByteRange) -> (result: Result<Vec<CacheReadSlice>>)
        requires
            self.wf(),
        ensures
            result matches Ok(slices) && slice_views(slices@) == slices_of(
                self@,
                range.first(),
                range.saturated_limit(),
            ),
    {
        let start: u64 = range.start();
        let end: u64 = range.end();
        let mut slices: Vec<CacheReadSlice> = Vec::new();
        if start >= end {
            proof {
                assert(slice_views(slices@) =~= Seq::<SliceView>::empty());
            }
            return Ok(slices);
        }
        let parts = match self.extents.overlapping(start, end) {
            Ok(parts) => parts,
            Err(error) => {
                return Err(error);
            },
        };
        let ghost shown = touched(self@.extents, start as int, end as int);
        let ghost low = ending_by(self@.extents, start as int);
        proof {
            lemma_touched(self@.extents, start as int, end as int);
            lemma_offsets_fit(self@);
        }
        let mut index: usize = 0;
        while index < parts.len()
            invariant
                self.wf(),
                start < end,
                index <= parts@.len(),
                shown == touched(self@.extents, start as int, end as int),
                low == ending_by(self@.extents, start as int),
                0 <= low,
                low + shown.len() <= self@.extents.len(),
                forall|i: int| 0 <= i < shown.len() ==> shown[i] == self@.extents[low + i],
                forall|i: int|
                    0 <= i < shown.len() ==> start < (#[trigger] shown[i]).end && shown[i].start
                        < end,
                forall|i: int|
                    0 <= i < self@.extents.len() ==> (
                    #[trigger] self@.extents[i]).value.object_offset + (self@.extents[i].end
                        - self@.extents[i].start) <= CACHE_BLOCK_BYTES,
                all_show(parts@, shown),
                slice_views(slices@) == shown.take(index as int).map_values(
                    |extent: ExtentEntry<CacheExtent>|
                        slice_of(self@, extent, start as int, end as int),
                ),
            decreases parts@.len() - index,
        {
            let extent = &parts[index];
            let ghost place = low + index;
            proof {
                assert(parts@[index as int].shows(shown[index as int]));
                assert(backed(self@.extents[place], self@.objects));
                assert(self@.extents[place].start < self@.extents[place].end);
            }
            let from: u64 = if start < extent.start {
                extent.start
            } else {
                start
            };
            let to: u64 = if end < extent.end {
                end
            } else {
                extent.end
            };
            match self.object_index(extent.value.object_id) {
                Some(at) => {
                    let slice = CacheReadSlice {
                        start: from,
                        end: to,
                        object_id: extent.value.object_id,
                        object_offset: extent.value.object_offset + (from - extent.start),
                        payload: self.objects[at].payload.share(),
                    };
                    proof {
                        let wanted = slice_of(
                            self@,
                            shown[index as int],
                            start as int,
                            end as int,
                        );
                        assert forall|i: int| 0 <= i < wanted.data.len() implies slice@.data[i]
                            == wanted.data[i] by {
                            lemma_shown_byte(self@, place, from + i);
                        }
                        assert(slice@.data =~= wanted.data);
                        assert(slice@ == wanted);
                    }
                    let ghost earlier = slices@;
                    slices.push(slice);
                    proof {
                        assert(slice_views(slices@) =~= shown.take(index + 1).map_values(
                            |extent: ExtentEntry<CacheExtent>|
                                slice_of(self@, extent, start as int, end as int),
                        )) by {
                            assert(slice_views(slices@) =~= slice_views(earlier).push(slice@));
                            assert(shown.take(index + 1) =~= shown.take(index as int).push(
                                shown[index as int],
                            ));
                        }
                    }
                },
                None => {},
            }
            index = index + 1;
        }
        proof {
            assert(shown.take(index as int) =~= shown);
        }
        Ok(slices)
    }

    /// The extents: start, end, object and offset into the object.
    pub fn debug_extents(&self) -> (extents: Vec<(u64, u64, CacheObjectId, u64)>)
        requires
            self.wf(),
        ensures
            extents@ == self@.extents.map_values(
                |extent: ExtentEntry<CacheExtent>|
                    (
                        extent.start,
                        extent.end,
                        extent.value.object_id,
                        extent.value.object_offset,
                    ),
            ),
    {
        let mut listed: Vec<(u64, u64, CacheObjectId, u64)> = Vec::new();
        let mut index: usize = 0;
        while index < self.extents.len()
            invariant
                index <= self@.extents.len(),
                self@.extents == self.extents@,
                listed@ == self@.extents.take(index as int).map_values(
                    |extent: ExtentEntry<CacheExtent>|
                        (
                            extent.start,
                            extent.end,
                            extent.value.object_id,
                            extent.value.object_offset,
                        ),
                ),
            decreases self@.extents.len() - index,
        {
            let extent = self.extents.entry(index);
            listed.push(
                (extent.start, extent.end, extent.value.object_id, extent.value.object_offset),
            );
            index = index + 1;
            proof {
                assert(listed@ =~= self@.extents.take(index as int).map_values(
                    |extent: ExtentEntry<CacheExtent>|
                        (
                            extent.start,
                            extent.end,
                            extent.value.object_id,
                            extent.value.object_offset,
                        ),
                ));
            }
        }
        proof {
            assert(self@.extents.take(index as int) =~= self@.extents);
        }
        listed
    }

    /// The objects in the order of use, the last used one first.
    pub fn debug_lru(&self) -> (order: Vec<CacheObjectId>)
        ensures
            order@ == self@.lru,
    {
        let mut order: Vec<CacheObjectId> = Vec::new();
        let count: usize = self.lru.order.len();
        let mut index: usize = 0;
        while index < count
            invariant
                index <= count,
                count == self.lru.order@.len(),
                order@ == self.lru.order@.take(index as int),
            decreases count - index,
        {
            order.push(self.lru.order[index]);
            index = index + 1;
            proof {
                assert(order@ =~= self.lru.order@.take(index as int));
            }
        }
        order
    }

    /// The log numbers of the objects that hold a whole record, by object identity.
    pub fn debug_wal_seqs(&self) -> (numbers: Vec<u64>)
        ensures
            numbers@ == record_numbers(self@.objects),
    {
        let mut numbers: Vec<u64> = Vec::new();
        let ghost views = self@.objects;
        let count: usize = self.objects.len();
        let mut index: usize = 0;
        proof {
            assert(views.take(0) =~= Seq::<ObjectView>::empty());
        }
        while index < count
            invariant
                index <= count,
                count == views.len(),
                views == object_views(self.objects@),
                numbers@ == record_numbers(views.take(index as int)),
            decreases count - index,
        {
            proof {
                assert(views.take(index + 1).drop_last() =~= views.take(index as int));
                assert(views.take(index + 1).last() == views[index as int]);
            }
            match &self.objects[index].payload {
                CachePayload::Bytes(_) => {},
                CachePayload::WalRecord { record } => {
                    numbers.push(record.seq().get());
                },
            }
            index = index + 1;
        }
        proof {
            assert(views.take(index as int) =~= views);
        }
        numbers
    }
}

/// The log numbers of the objects that hold a whole record.
pub open spec fn record_numbers(objects: Seq<ObjectView>) -> Seq<u64>
    decreases objects.len(),
{
    if objects.len() == 0 {
        Seq::empty()
    } else {
        match objects.last().payload {
            PayloadView::Record { number, .. } => record_numbers(objects.drop_last()).push(
                number as u64,
            ),
            PayloadView::Bytes { .. } => record_numbers(objects.drop_last()),
        }
    }
}

/// An insertion keeps the cache well formed and uses at most one identity per byte.
pub proof fn lemma_inserted(
    cache: CacheView,
    range: ByteRange,
    source: Seq<u8>,
    origin: Origin,
    placement: CacheInsertPlacement,
)
    requires
        cache.wf(),
        0 <= cache.max_bytes,
        0 <= cache.next_object_id,
        cache.next_object_id + range.size() <= u64::MAX,
        source.len() == range.size(),
        comes_from(source, origin),
    ensures
        inserted(cache, range, source, origin, placement).wf(),
        inserted(cache, range, source, origin, placement).max_bytes == cache.max_bytes,
        0 <= inserted(cache, range, source, origin, placement).next_object_id,
        inserted(cache, range, source, origin, placement).next_object_id <= cache.next_object_id
            + range.size(),
{
    range.lemma_bounds(range);
    let first = range.first();
    let stop = if reaches_last_block(range) {
        LAST_CACHE_BLOCK as int
    } else {
        range.saturated_limit()
    };
    lemma_range_inserted_wf(cache, first, first, stop, source, origin, placement);
    lemma_evicted(range_inserted(cache, first, first, stop, source, origin, placement));
}

/// A cached byte is a byte that was inserted: after an insertion each position of the range shows
/// the inserted byte or nothing, and each other position shows what it showed or nothing.
pub proof fn law_insertion_never_changes_a_byte(
    cache: CacheView,
    range: ByteRange,
    source: Seq<u8>,
    origin: Origin,
    placement: CacheInsertPlacement,
    position: int,
)
    requires
        cache.wf(),
        0 <= cache.max_bytes,
        0 <= cache.next_object_id,
        cache.next_object_id + range.size() <= u64::MAX,
        source.len() == range.size(),
        comes_from(source, origin),
    ensures
        inserted(cache, range, source, origin, placement).byte_at(position) is Some ==> inserted(
            cache,
            range,
            source,
            origin,
            placement,
        ).byte_at(position) == (if range.first() <= position < range.saturated_limit()
            && position < LAST_CACHE_BLOCK {
            Some(source[position - range.first()])
        } else {
            cache.byte_at(position)
        }),
{
    range.lemma_bounds(range);
    let first = range.first();
    let stop = if range.saturated_limit() > LAST_CACHE_BLOCK {
        LAST_CACHE_BLOCK as int
    } else {
        range.saturated_limit()
    };
    lemma_range_inserted_wf(cache, first, first, stop, source, origin, placement);
    lemma_range_inserted_bytes(cache, first, first, stop, source, origin, placement, position);
    if !reaches_last_block(range) && range.saturated_limit() > LAST_CACHE_BLOCK {
        let limit = range.saturated_limit();
        lemma_range_inserted_wf(cache, first, first, limit, source, origin, placement);
        lemma_range_inserted_bytes(cache, first, first, limit, source, origin, placement, position);
        lemma_evicted(range_inserted(cache, first, first, limit, source, origin, placement));
    } else {
        lemma_evicted(range_inserted(cache, first, first, stop, source, origin, placement));
    }
}

/// An insertion that does not reach the last block leaves the cache within its budget.
pub proof fn law_insertion_keeps_the_budget(
    cache: CacheView,
    range: ByteRange,
    source: Seq<u8>,
    origin: Origin,
    placement: CacheInsertPlacement,
)
    requires
        cache.wf(),
        0 <= cache.max_bytes,
        0 <= cache.next_object_id,
        cache.next_object_id + range.size() <= u64::MAX,
        source.len() == range.size(),
        comes_from(source, origin),
        range.size() > 0,
        !reaches_last_block(range),
    ensures
        inserted(cache, range, source, origin, placement).charge() <= cache.max_bytes,
{
    range.lemma_bounds(range);
    let first = range.first();
    let limit = range.saturated_limit();
    lemma_range_inserted_wf(cache, first, first, limit, source, origin, placement);
    lemma_evicted(range_inserted(cache, first, first, limit, source, origin, placement));
}

/// Where the inserted bytes leave the cache within its budget, they are all cached.
pub proof fn law_fitting_insertion_is_cached(
    cache: CacheView,
    range: ByteRange,
    source: Seq<u8>,
    origin: Origin,
    placement: CacheInsertPlacement,
    position: int,
)
    requires
        cache.wf(),
        0 <= cache.next_object_id,
        cache.next_object_id + range.size() <= u64::MAX,
        source.len() == range.size(),
        comes_from(source, origin),
        range_inserted(
            cache,
            range.first(),
            range.first(),
            range.saturated_limit(),
            source,
            origin,
            placement,
        ).charge() <= cache.max_bytes,
        !reaches_last_block(range),
        range.first() <= position < range.saturated_limit(),
    ensures
        inserted(cache, range, source, origin, placement).byte_at(position) == Some(
            source[position - range.first()],
        ),
{
    range.lemma_bounds(range);
    let first = range.first();
    let limit = range.saturated_limit();
    lemma_range_inserted_wf(cache, first, first, limit, source, origin, placement);
    lemma_range_inserted_bytes(cache, first, first, limit, source, origin, placement, position);
}

/// Trimming a range removes its bytes from the cache and no others.
pub proof fn law_trim_removes_only_the_range(cache: CacheView, range: ByteRange, position: int)
    requires
        cache.wf(),
    ensures
        range_trimmed(cache, range).byte_at(position) == (if range.first() <= position
            < range.saturated_limit() {
            None
        } else {
            cache.byte_at(position)
        }),
{
    range.lemma_bounds(range);
    if range.first() < range.saturated_limit() {
        lemma_trimmed_bytes(cache, range.first(), range.saturated_limit(), position);
    }
}

/// An object that is used becomes the hottest, and the others keep their order; one that is not
/// there changes nothing.
pub proof fn law_a_used_object_becomes_the_hottest(
    order: Seq<CacheObjectId>,
    id: CacheObjectId,
    index: int,
)
    requires
        order.no_duplicates(),
        0 <= index < order.len(),
    ensures
        promoted(order, order[index]) == seq![order[index]] + order.remove(index),
        !order.contains(id) ==> promoted(order, id) == order,
{
    let used = order[index];
    assert(order.contains(used));
    assert(order[order.index_of(used)] == used);
    assert(order.index_of(used) == index);
    assert(promoted(order, used) =~= seq![used] + order.remove(index));
}

/// Of the objects that a read used, the one used last is the hottest.
pub proof fn law_the_last_hit_is_the_hottest(
    order: Seq<CacheObjectId>,
    hits: Seq<CacheObjectId>,
)
    requires
        order.no_duplicates(),
        hits.len() > 0,
        order.contains(hits.last()),
    ensures
        all_promoted(order, hits)[0] == hits.last(),
        all_promoted(order, Seq::empty()) == order,
{
    let before = all_promoted(order, hits.drop_last());
    lemma_all_promoted(order, hits.drop_last());
    assert(before.contains(hits.last()));
}

/// Bytes that fit are added to those that are cached, and none of these is lost.
pub proof fn law_fitting_insertion_keeps_the_rest(
    cache: CacheView,
    range: ByteRange,
    source: Seq<u8>,
    origin: Origin,
    placement: CacheInsertPlacement,
    position: int,
)
    requires
        cache.wf(),
        0 <= cache.next_object_id,
        cache.next_object_id + range.size() <= u64::MAX,
        source.len() == range.size(),
        comes_from(source, origin),
        range_inserted(
            cache,
            range.first(),
            range.first(),
            range.saturated_limit(),
            source,
            origin,
            placement,
        ).charge() <= cache.max_bytes,
        !reaches_last_block(range),
        !(range.first() <= position < range.saturated_limit()),
    ensures
        inserted(cache, range, source, origin, placement).byte_at(position) == cache.byte_at(
            position,
        ),
{
    if range.size() > 0 {
        range.lemma_bounds(range);
        lemma_range_inserted_bytes(
            cache,
            range.first(),
            range.first(),
            range.saturated_limit(),
            source,
            origin,
            placement,
            position,
        );
        lemma_range_inserted_wf(
            cache,
            range.first(),
            range.first(),
            range.saturated_limit(),
            source,
            origin,
            placement,
        );
    }
}

/// A piece of a record is cached exactly when the record holds that many bytes from there on, and
/// the range ends before the last block; what the record does not hold changes nothing.
pub proof fn law_only_bytes_of_the_record_are_cached(
    before: CacheView,
    after: CacheView,
    result: Result<()>,
    range: ByteRange,
    number: int,
    payload: Seq<u8>,
    offset: int,
    placement: CacheInsertPlacement,
    position: int,
)
    requires
        record_slice_inserted(
            before,
            after,
            result,
            range,
            number,
            payload,
            offset,
            placement,
        ),
        0 <= offset,
        payload.len() <= u64::MAX,
        before.wf(),
        0 <= before.max_bytes,
        0 <= before.next_object_id,
        before.next_object_id + range.size() <= u64::MAX,
    ensures
        result is Ok <==> offset + range.size() <= payload.len() && !(range.size() > 0
            && range.saturated_limit() > LAST_CACHE_BLOCK && range.first() < u64::MAX),
        offset + range.size() > payload.len() ==> after == before,
        result is Ok && range.first() <= position < range.saturated_limit() && after.byte_at(
            position,
        ) is Some ==> after.byte_at(position) == Some(payload[offset + (position - range.first())]),
{
    range.lemma_bounds(range);
    if offset + range.size() <= payload.len() {
        law_insertion_never_changes_a_byte(
            before,
            range,
            payload.subrange(offset, offset + range.size()),
            Origin::Record { number, data: payload, offset },
            placement,
            position,
        );
    }
}

/// Copying a cached run into the buffer of a read puts its bytes at their positions, and leaves
/// every other position as it is.
pub proof fn law_a_copied_run_shows_in_the_buffer(
    buffer: Seq<u8>,
    first: int,
    limit: int,
    slice: SliceView,
    position: int,
)
    requires
        first <= position < limit,
        buffer.len() >= limit - first,
        slice.data.len() == slice.end - slice.start,
        slice.start <= slice.end,
    ensures
        slice_copied(buffer, first, limit, slice).len() == buffer.len(),
        slice_copied(buffer, first, limit, slice)[position - first] == (if slice.start <= position
            < slice.end {
            slice.data[position - slice.start]
        } else {
            buffer[position - first]
        }),
{
}

} // verus!
