//! One read: what retained writes and the cache give, and what the committed tree has to give.

use crate::block::Block;
use crate::cache_model::{lemma_shown_byte, CacheObjectId, CacheView};
use crate::error::{ErrorView, Result, ServerError};
use crate::extent_map::{
    ending_by, lemma_touched, lemma_value_at_covered, lemma_value_at_source, touched, value_at,
    ExtentEntry,
};
use crate::gaps::{
    bounds, gaps_in_range, in_runs, lemma_run_uncovered, lemma_runs, lemma_runs_same, lemma_spans_within,
    runs, spanned,
    within,
};
use crate::overlay::{
    from_record, overlay_slice, overlay_slices, overlays, shown_at, OverlayExtent, OverlayExtentMap,
    OverlayReadSlice,
};
use crate::range::ByteRange;
use crate::read_cache::{slice_of, slice_views, slices_of, CacheReadSlice, ReadCache, SliceView};
use crate::root::{RootSnapshot, RootView};
use crate::splice::{copy_into, overwritten, zeros};
use crate::text::{decimal, owned, push_decimal};
use vstd::prelude::*;
use vstd::string::*;

verus! {

// ---------------------------------------------------------------------------
// What slices cover
// ---------------------------------------------------------------------------

/// The bounds of retained runs.
pub open spec fn overlay_spans(slices: Seq<OverlayReadSlice>) -> Seq<(u64, u64)> {
    slices.map_values(|slice: OverlayReadSlice| (slice.start, slice.end))
}

/// The bounds of cached runs.
pub open spec fn cache_spans(slices: Seq<SliceView>) -> Seq<(u64, u64)> {
    slices.map_values(|slice: SliceView| (slice.start as u64, slice.end as u64))
}

/// A retained run holds bytes of its record and lies in `[start, end)`.
pub open spec fn overlay_slice_fits(slice: OverlayReadSlice, start: int, end: int) -> bool {
    &&& start <= slice.start < slice.end <= end
    &&& slice.record_offset + (slice.end - slice.start) <= slice.record.payload().len()
    &&& slice.record.payload().len() <= u32::MAX
}

/// The retained runs of a range hold exactly the positions at which a write shows, and its bytes.
pub proof fn lemma_overlay_slices(
    extents: Seq<ExtentEntry<OverlayExtent>>,
    start: int,
    end: int,
)
    requires
        overlays(extents),
        0 <= start <= end <= u64::MAX,
    ensures
        ({
            let slices = overlay_slices(extents, start, end);
            &&& within(overlay_spans(slices), start, end)
            &&& forall|i: int|
                0 <= i < slices.len() ==> overlay_slice_fits(#[trigger] slices[i], start, end)
            &&& forall|i: int, p: int|
                0 <= i < slices.len() && slices[i].start <= p < slices[i].end ==> #[trigger] shown_at(
                    extents,
                    p,
                ) == Some(
                    (
                        slices[i].record.number(),
                        (#[trigger] slices[i]).record.payload()[slices[i].record_offset + (p
                            - slices[i].start)],
                    ),
                )
            &&& forall|p: int|
                start <= p < end ==> #[trigger] spanned(overlay_spans(slices), p) == (shown_at(
                    extents,
                    p,
                ) is Some)
        }),
{
    let slices = overlay_slices(extents, start, end);
    let spans = overlay_spans(slices);
    if start < end {
        lemma_touched(extents, start, end);
        let low = ending_by(extents, start);
        let shown = touched(extents, start, end);
        assert forall|i: int| 0 <= i < slices.len() implies #[trigger] overlay_slice_fits(
            slices[i],
            start,
            end,
        ) && slices[i] == overlay_slice(extents[low + i], start, end) by {
            assert(shown[i] == extents[low + i]);
            assert(from_record(extents[low + i]));
            let span = extents[low + i].value.record.span();
            span.lemma_bounds(span);
        }
        assert forall|i: int, p: int|
            0 <= i < slices.len() && slices[i].start <= p < slices[i].end implies #[trigger] shown_at(
            extents,
            p,
        ) == Some(
            (
                slices[i].record.number(),
                (#[trigger] slices[i]).record.payload()[slices[i].record_offset + (p
                    - slices[i].start)],
            ),
        ) by {
            assert(overlay_slice_fits(slices[i], start, end));
            assert(from_record(extents[low + i]));
            lemma_value_at_covered(extents, low + i, p);
        }
        assert forall|i: int| 0 <= i < spans.len() implies start <= (#[trigger] spans[i]).0
            && spans[i].0 < spans[i].1 && spans[i].1 <= end by {
            assert(overlay_slice_fits(slices[i], start, end));
        }
        assert forall|p: int| start <= p < end implies #[trigger] spanned(spans, p) == (shown_at(
            extents,
            p,
        ) is Some) by {
            if spanned(spans, p) {
                let i = choose|i: int|
                    0 <= i < spans.len() && (#[trigger] spans[i]).0 <= p < spans[i].1;
                assert(slices[i].start <= p < slices[i].end);
            }
            if shown_at(extents, p) is Some {
                let j = lemma_value_at_source(extents, p);
                let i = j - low;
                assert(low <= j < low + shown.len());
                assert(shown[i] == extents[j]);
                assert(overlay_slice_fits(slices[i], start, end));
                assert(spans[i].0 <= p < spans[i].1);
            }
        }
    } else {
        assert(spans =~= Seq::<(u64, u64)>::empty());
    }
}

/// A cached run holds cached bytes and lies in `[start, end)`.
pub open spec fn cache_slice_fits(
    cache: CacheView,
    slice: SliceView,
    start: int,
    end: int,
) -> bool {
    &&& start <= slice.start < slice.end <= end
    &&& slice.data.len() == slice.end - slice.start
    &&& forall|p: int|
        slice.start <= p < slice.end ==> #[trigger] cache.byte_at(p) == Some(
            slice.data[p - slice.start],
        )
}

/// Whether one of the runs holds the position.
pub open spec fn in_slices(slices: Seq<SliceView>, position: int) -> bool {
    exists|i: int| 0 <= i < slices.len() && (#[trigger] slices[i]).start <= position < slices[i].end
}

/// The cached runs of a range hold exactly the cached positions, and their bytes.
pub proof fn lemma_slices_of(cache: CacheView, start: int, end: int)
    requires
        cache.wf(),
        0 <= start <= end <= u64::MAX,
    ensures
        ({
            let slices = slices_of(cache, start, end);
            &&& forall|i: int|
                0 <= i < slices.len() ==> cache_slice_fits(cache, #[trigger] slices[i], start, end)
            &&& forall|p: int|
                start <= p < end ==> #[trigger] in_slices(slices, p) == (cache.byte_at(
                    p,
                ) is Some)
        }),
{
    let slices = slices_of(cache, start, end);
    if start < end {
        lemma_touched(cache.extents, start, end);
        let low = ending_by(cache.extents, start);
        let shown = touched(cache.extents, start, end);
        assert forall|i: int| 0 <= i < slices.len() implies cache_slice_fits(
            cache,
            #[trigger] slices[i],
            start,
            end,
        ) by {
            assert(shown[i] == cache.extents[low + i]);
            assert(slices[i] == slice_of(cache, cache.extents[low + i], start, end));
            assert forall|p: int|
                slices[i].start <= p < slices[i].end implies #[trigger] cache.byte_at(p) == Some(
                slices[i].data[p - slices[i].start],
            ) by {
                lemma_shown_byte(cache, low + i, p);
            }
        }
        assert forall|p: int| start <= p < end implies #[trigger] in_slices(slices, p) == (
        cache.byte_at(p) is Some) by {
            if in_slices(slices, p) {
                let i = choose|i: int|
                    0 <= i < slices.len() && (#[trigger] slices[i]).start <= p < slices[i].end;
                assert(cache_slice_fits(cache, slices[i], start, end));
            }
            if cache.byte_at(p) is Some {
                let j = lemma_value_at_source(cache.extents, p);
                let i = j - low;
                assert(low <= j < low + shown.len());
                assert(shown[i] == cache.extents[j]);
                assert(slices[i] == slice_of(cache, cache.extents[j], start, end));
                assert(slices[i].start <= p < slices[i].end);
            }
        }
    }
}

/// The cached runs of several ranges, one after the other.
pub open spec fn cached_runs(cache: CacheView, holes: Seq<(int, int)>) -> Seq<SliceView>
    decreases holes.len(),
{
    if holes.len() == 0 {
        Seq::empty()
    } else {
        cached_runs(cache, holes.drop_last()) + slices_of(cache, holes.last().0, holes.last().1)
    }
}

/// The cached runs of the holes hold exactly the positions of the holes that are cached.
pub proof fn lemma_cached_runs(cache: CacheView, holes: Seq<(int, int)>, start: int, end: int)
    requires
        cache.wf(),
        0 <= start <= end <= u64::MAX,
        forall|i: int|
            0 <= i < holes.len() ==> start <= (#[trigger] holes[i]).0 && holes[i].0 < holes[i].1
                && holes[i].1 <= end,
    ensures
        ({
            let slices = cached_runs(cache, holes);
            &&& forall|i: int|
                0 <= i < slices.len() ==> cache_slice_fits(cache, #[trigger] slices[i], start, end)
            &&& forall|p: int| #[trigger]
                in_slices(slices, p) == (in_runs(holes, p) && cache.byte_at(p) is Some)
        }),
    decreases holes.len(),
{
    let slices = cached_runs(cache, holes);
    if holes.len() > 0 {
        let front = holes.drop_last();
        let last = holes.last();
        assert(holes[holes.len() - 1] == last);
        assert(forall|i: int| 0 <= i < front.len() ==> front[i] == holes[i]);
        lemma_cached_runs(cache, front, start, end);
        lemma_slices_of(cache, last.0, last.1);
        let earlier = cached_runs(cache, front);
        let fresh = slices_of(cache, last.0, last.1);
        assert forall|i: int| 0 <= i < slices.len() implies cache_slice_fits(
            cache,
            #[trigger] slices[i],
            start,
            end,
        ) by {
            if i < earlier.len() {
                assert(slices[i] == earlier[i]);
            } else {
                assert(slices[i] == fresh[i - earlier.len()]);
                assert(cache_slice_fits(cache, fresh[i - earlier.len()], last.0, last.1));
            }
        }
        assert forall|p: int| #[trigger] in_slices(slices, p) == (in_runs(holes, p)
            && cache.byte_at(p) is Some) by {
            lemma_in_slices_joined(earlier, fresh, p);
            lemma_in_runs_last(holes, p);
            if in_slices(fresh, p) {
                let i = choose|i: int|
                    0 <= i < fresh.len() && (#[trigger] fresh[i]).start <= p < fresh[i].end;
                assert(cache_slice_fits(cache, fresh[i], last.0, last.1));
            }
            if last.0 <= p < last.1 {
                assert(in_slices(fresh, p) == (cache.byte_at(p) is Some));
            }
        }
    }
}

proof fn lemma_in_slices_joined(first: Seq<SliceView>, second: Seq<SliceView>, position: int)
    ensures
        in_slices(first + second, position) == (in_slices(first, position) || in_slices(
            second,
            position,
        )),
{
    let both = first + second;
    if in_slices(both, position) {
        let i = choose|i: int|
            0 <= i < both.len() && (#[trigger] both[i]).start <= position < both[i].end;
        if i < first.len() {
            assert(first[i].start <= position < first[i].end);
        } else {
            assert(second[i - first.len()].start <= position < second[i - first.len()].end);
        }
    }
    if in_slices(first, position) {
        let i = choose|i: int|
            0 <= i < first.len() && (#[trigger] first[i]).start <= position < first[i].end;
        assert(both[i] == first[i]);
    }
    if in_slices(second, position) {
        let i = choose|i: int|
            0 <= i < second.len() && (#[trigger] second[i]).start <= position < second[i].end;
        assert(both[i + first.len()] == second[i]);
    }
}

proof fn lemma_in_runs_last(list: Seq<(int, int)>, position: int)
    requires
        list.len() > 0,
    ensures
        in_runs(list, position) == (in_runs(list.drop_last(), position) || list.last().0
            <= position < list.last().1),
{
    let front = list.drop_last();
    if in_runs(list, position) {
        let i = choose|i: int|
            0 <= i < list.len() && (#[trigger] list[i]).0 <= position < list[i].1;
        if i < front.len() {
            assert(front[i].0 <= position < front[i].1);
        }
    }
    if in_runs(front, position) {
        let i = choose|i: int|
            0 <= i < front.len() && (#[trigger] front[i]).0 <= position < front[i].1;
        assert(list[i] == front[i]);
    }
    assert(list[list.len() - 1] == list.last());
}

/// Spans of two lists together.
proof fn lemma_spanned_joined(first: Seq<(u64, u64)>, second: Seq<(u64, u64)>, position: int)
    ensures
        spanned(first + second, position) == (spanned(first, position) || spanned(
            second,
            position,
        )),
{
    let both = first + second;
    if spanned(both, position) {
        let i = choose|i: int|
            0 <= i < both.len() && (#[trigger] both[i]).0 <= position < both[i].1;
        if i < first.len() {
            assert(first[i].0 <= position < first[i].1);
        } else {
            assert(second[i - first.len()].0 <= position < second[i - first.len()].1);
        }
    }
    if spanned(first, position) {
        let i = choose|i: int|
            0 <= i < first.len() && (#[trigger] first[i]).0 <= position < first[i].1;
        assert(both[i] == first[i]);
    }
    if spanned(second, position) {
        let i = choose|i: int|
            0 <= i < second.len() && (#[trigger] second[i]).0 <= position < second[i].1;
        assert(both[i + first.len()] == second[i]);
    }
}

proof fn lemma_cache_spanned(slices: Seq<SliceView>, position: int)
    requires
        forall|i: int|
            0 <= i < slices.len() ==> 0 <= (#[trigger] slices[i]).start <= u64::MAX && 0
                <= slices[i].end <= u64::MAX,
    ensures
        spanned(cache_spans(slices), position) == in_slices(slices, position),
{
    let spans = cache_spans(slices);
    if spanned(spans, position) {
        let i = choose|i: int|
            0 <= i < spans.len() && (#[trigger] spans[i]).0 <= position < spans[i].1;
        assert(slices[i].start <= position < slices[i].end);
    }
    if in_slices(slices, position) {
        let i = choose|i: int|
            0 <= i < slices.len() && (#[trigger] slices[i]).start <= position < slices[i].end;
        assert(spans[i].0 <= position < spans[i].1);
    }
}

// ---------------------------------------------------------------------------
// The plan of a read
// ---------------------------------------------------------------------------

/// The runs of `[start, end)` at which no retained write shows.
pub open spec fn overlay_holes(
    overlay: Seq<ExtentEntry<OverlayExtent>>,
    start: int,
    end: int,
) -> Seq<(int, int)> {
    runs(start, end, |p: int| shown_at(overlay, p) is Some)
}

/// The runs of `[start, end)` that only the committed tree can give.
pub open spec fn tree_misses(
    overlay: Seq<ExtentEntry<OverlayExtent>>,
    cache: CacheView,
    start: int,
    end: int,
) -> Seq<(int, int)> {
    runs(start, end, |p: int| shown_at(overlay, p) is Some || cache.byte_at(p) is Some)
}

/// The objects of cached runs.
pub open spec fn object_ids(slices: Seq<SliceView>) -> Seq<CacheObjectId> {
    slices.map_values(|slice: SliceView| slice.object_id)
}

/// A read in progress.
pub struct ReadPlanView {
    pub root: RootView,
    pub range: ByteRange,
    pub overlay: Seq<ExtentEntry<OverlayExtent>>,
    pub cache: CacheView,
    pub blocks: Seq<Block>,
}

impl ReadPlanView {
    /// The runs that the committed tree has to give.
    pub open spec fn misses(self) -> Seq<(int, int)> {
        tree_misses(self.overlay, self.cache, self.range.first(), self.range.limit())
    }

    /// The objects whose bytes the read takes from the cache.
    pub open spec fn hits(self) -> Seq<CacheObjectId> {
        object_ids(
            cached_runs(
                self.cache,
                overlay_holes(self.overlay, self.range.first(), self.range.limit()),
            ),
        )
    }

    /// The block that holds a position, and the byte there.
    pub open spec fn tree_byte(self, position: int) -> Option<u8> {
        block_byte(self.blocks, position)
    }

    /// The byte that the read gives for a position: that of the latest retained write, else the
    /// cached one, else the committed one.
    pub open spec fn byte_at(self, position: int) -> Option<u8> {
        match shown_at(self.overlay, position) {
            Some((_, byte)) => Some(byte),
            None => match self.cache.byte_at(position) {
                Some(byte) => Some(byte),
                None => self.tree_byte(position),
            },
        }
    }
}

/// The byte of the last block that covers a position.
pub open spec fn block_byte(blocks: Seq<Block>, position: int) -> Option<u8>
    decreases blocks.len(),
{
    if blocks.len() == 0 {
        None
    } else if blocks.last().span().covers(position) {
        Some(blocks.last().content()[position - blocks.last().span().first()])
    } else {
        block_byte(blocks.drop_last(), position)
    }
}

/// A read in progress: the bytes found so far and the runs that the committed tree has to give.
pub struct ReadPlan {
    root: RootSnapshot,
    range: ByteRange,
    overlay_slices: Vec<OverlayReadSlice>,
    hits: Vec<CacheObjectId>,
    misses: Vec<ByteRange>,
    fills: Vec<Block>,
    data: Vec<u8>,
    overlay: Ghost<Seq<ExtentEntry<OverlayExtent>>>,
    cache: Ghost<CacheView>,
}

/// What a finished read gives: the bytes, and what the read view may learn from it.
#[derive(Debug)]
pub struct ReadOutcome {
    pub root: RootSnapshot,
    pub data: Vec<u8>,
    pub hits: Vec<CacheObjectId>,
    pub fills: Vec<Block>,
}

/// The text of a range in messages.
pub open spec fn range_text(range: ByteRange) -> Seq<char> {
    "ByteRange { start: "@ + decimal(range.first() as nat) + ", len: "@ + decimal(
        range.size() as nat,
    ) + " }"@
}

fn push_range(text: &mut String, range: ByteRange)
    ensures
        final(text)@ == old(text)@ + range_text(range),
{
    let ghost before = text@;
    text.append("ByteRange { start: ");
    push_decimal(text, range.start());
    text.append(", len: ");
    push_decimal(text, range.len());
    text.append(" }");
    proof {
        assert(text@ =~= before + range_text(range));
    }
}

/// The error for a block of another range than the one that was asked for.
pub open spec fn wrong_block(returned: ByteRange, requested: ByteRange) -> ErrorView {
    ErrorView::Wal {
        context: "read committed backing"@,
        message: "tree reader returned range "@ + range_text(returned) + " for requested range "@
            + range_text(requested),
    }
}

impl View for ReadPlan {
    type V = ReadPlanView;

    closed spec fn view(&self) -> ReadPlanView {
        ReadPlanView {
            root: self.root@,
            range: self.range,
            overlay: self.overlay@,
            cache: self.cache@,
            blocks: self.fills@,
        }
    }
}

impl ReadPlan {
    /// The bytes found so far are right, and the runs still to come are the missing ones.
    pub closed spec fn wf(self) -> bool {
        let first = self.range.first();
        let limit = self.range.limit();
        &&& limit <= u64::MAX
        &&& overlays(self.overlay@)
        &&& self.cache@.wf()
        &&& self.overlay_slices@ == overlay_slices(self.overlay@, first, limit)
        &&& self.hits@ == self@.hits()
        &&& bounds(self.misses@) == self@.misses()
        &&& self.fills@.len() <= self.misses@.len()
        &&& forall|k: int|
            0 <= k < self.fills@.len() ==> (#[trigger] self.fills@[k]).wf() && self.fills@[k].span()
                == self.misses@[k]
        &&& self.data@.len() == self.range.size()
        &&& forall|p: int|
            first <= p < limit && shown_at(self.overlay@, p) is None && self@.byte_at(p) is Some
                ==> #[trigger] self.data@[p - first] == self@.byte_at(p)->0
    }
}

/// The runs of a range that are neither retained nor cached.
pub fn uncovered_runs(overlay: &OverlayExtentMap, cache: &ReadCache, range: ByteRange) -> (result:
    Result<Vec<ByteRange>>)
    requires
        overlay.wf(),
        cache.wf(),
        range.limit() <= u64::MAX,
    ensures
        result matches Ok(misses) && bounds(misses@) == tree_misses(
            overlay@,
            cache@,
            range.first(),
            range.limit(),
        ),
{
    let ghost first = range.first();
    let ghost limit = range.limit();
    proof {
        range.lemma_bounds(range);
        lemma_overlay_slices(overlay@, first, limit);
        lemma_slices_of(cache@, first, limit);
    }
    let retained = match overlay.read_slices(range) {
        Ok(slices) => slices,
        Err(error) => {
            return Err(error);
        },
    };
    let cached = match cache.read_slices(range) {
        Ok(slices) => slices,
        Err(error) => {
            return Err(error);
        },
    };
    let mut spans = spans_of_overlay(&retained);
    let ghost shown = spans@;
    let ghost views = slice_views(cached@);
    push_cache_spans(&mut spans, &cached);
    proof {
        assert forall|i: int| 0 <= i < spans@.len() implies first <= (#[trigger] spans@[i]).0
            && spans@[i].0 < spans@[i].1 && spans@[i].1 <= limit by {
            if i < shown.len() {
                assert(spans@[i] == shown[i]);
            } else {
                assert(cache_slice_fits(cache@, views[i - shown.len()], first, limit));
                assert(spans@[i] == cache_spans(views)[i - shown.len()]);
            }
        }
        assert forall|i: int| 0 <= i < views.len() implies 0 <= (#[trigger] views[i]).start
            <= u64::MAX && 0 <= views[i].end <= u64::MAX by {
            assert(cache_slice_fits(cache@, views[i], first, limit));
        }
        let by_span = |p: int| spanned(spans@, p);
        let by_either = |p: int| shown_at(overlay@, p) is Some || cache@.byte_at(p) is Some;
        assert forall|p: int| first <= p < limit implies #[trigger] by_span(p) == by_either(p) by {
            lemma_spanned_joined(shown, cache_spans(views), p);
            lemma_cache_spanned(views, p);
            assert(spanned(shown, p) == (shown_at(overlay@, p) is Some));
            assert(in_slices(views, p) == (cache@.byte_at(p) is Some));
        }
        lemma_runs_same(first, limit, by_span, by_either);
        lemma_runs(first, limit, by_span);
        lemma_spans_within(spans@, first, limit, runs(first, limit, by_span));
    }
    gaps_in_range(range, &spans)
}

/// The bounds of retained runs.
fn spans_of_overlay(slices: &Vec<OverlayReadSlice>) -> (spans: Vec<(u64, u64)>)
    ensures
        spans@ == overlay_spans(slices@),
{
    let mut spans: Vec<(u64, u64)> = Vec::new();
    let mut index: usize = 0;
    while index < slices.len()
        invariant
            index <= slices@.len(),
            spans@ == overlay_spans(slices@.take(index as int)),
        decreases slices@.len() - index,
    {
        spans.push((slices[index].start, slices[index].end));
        index = index + 1;
        proof {
            assert(spans@ =~= overlay_spans(slices@.take(index as int)));
        }
    }
    proof {
        assert(slices@.take(index as int) =~= slices@);
    }
    spans
}

/// Appends the bounds of cached runs.
fn push_cache_spans(spans: &mut Vec<(u64, u64)>, slices: &Vec<CacheReadSlice>)
    ensures
        final(spans)@ == old(spans)@ + cache_spans(slice_views(slices@)),
{
    let ghost before = spans@;
    let ghost views = slice_views(slices@);
    let mut index: usize = 0;
    while index < slices.len()
        invariant
            index <= slices@.len(),
            views == slice_views(slices@),
            spans@ == before + cache_spans(views.take(index as int)),
        decreases slices@.len() - index,
    {
        spans.push((slices[index].start(), slices[index].end()));
        index = index + 1;
        proof {
            assert(spans@ =~= before + cache_spans(views.take(index as int)));
        }
    }
    proof {
        assert(views.take(index as int) =~= views);
        assert(slices@.len() == 0 ==> spans@ =~= before + cache_spans(views));
    }
}

/// The cached runs of the holes.
fn cached_slices(cache: &ReadCache, holes: &Vec<ByteRange>) -> (slices: Vec<CacheReadSlice>)
    requires
        cache.wf(),
        forall|i: int| 0 <= i < holes@.len() ==> (#[trigger] holes@[i]).limit() <= u64::MAX,
    ensures
        slice_views(slices@) == cached_runs(cache@, bounds(holes@)),
{
    let mut slices: Vec<CacheReadSlice> = Vec::new();
    let ghost list = bounds(holes@);
    let mut index: usize = 0;
    proof {
        assert(list.take(0) =~= Seq::<(int, int)>::empty());
        assert(slice_views(slices@) =~= Seq::<SliceView>::empty());
    }
    while index < holes.len()
        invariant
            cache.wf(),
            index <= holes@.len(),
            list == bounds(holes@),
            forall|i: int| 0 <= i < holes@.len() ==> (#[trigger] holes@[i]).limit() <= u64::MAX,
            slice_views(slices@) == cached_runs(cache@, list.take(index as int)),
        decreases holes@.len() - index,
    {
        proof {
            assert(list.take(index + 1).drop_last() =~= list.take(index as int));
            assert(list.take(index + 1).last() == list[index as int]);
            assert(holes@[index as int].limit() <= u64::MAX);
        }
        match cache.read_slices(holes[index]) {
            Ok(found) => {
                let mut fresh = found;
                let ghost earlier = slices@;
                let ghost added = fresh@;
                slices.append(&mut fresh);
                proof {
                    assert(slice_views(slices@) =~= slice_views(earlier) + slice_views(added));
                }
            },
            Err(_) => {},
        }
        index = index + 1;
    }
    proof {
        assert(list.take(index as int) =~= list);
    }
    slices
}

/// The objects of cached runs.
fn objects_of(slices: &Vec<CacheReadSlice>) -> (hits: Vec<CacheObjectId>)
    ensures
        hits@ == object_ids(slice_views(slices@)),
{
    let mut hits: Vec<CacheObjectId> = Vec::new();
    let ghost views = slice_views(slices@);
    let mut index: usize = 0;
    while index < slices.len()
        invariant
            index <= slices@.len(),
            views == slice_views(slices@),
            hits@ == object_ids(views.take(index as int)),
        decreases slices@.len() - index,
    {
        hits.push(slices[index].object_id());
        index = index + 1;
        proof {
            assert(hits@ =~= object_ids(views.take(index as int)));
        }
    }
    proof {
        assert(views.take(index as int) =~= views);
    }
    hits
}

/// The cached bytes of a range, with zeros elsewhere.
fn cached_data(cache: &ReadCache, range: ByteRange, slices: &Vec<CacheReadSlice>) -> (data: Vec<u8>)
    requires
        range.limit() <= u64::MAX,
        forall|i: int|
            0 <= i < slices@.len() ==> cache_slice_fits(
                cache@,
                #[trigger] slice_views(slices@)[i],
                range.first(),
                range.limit(),
            ),
    ensures
        data@.len() == range.size(),
        forall|p: int|
            in_slices(slice_views(slices@), p) ==> #[trigger] data@[p - range.first()]
                == cache@.byte_at(p)->0,
{
    let mut data = zeros(range.len() as usize);
    let ghost views = slice_views(slices@);
    let ghost first = range.first();
    let mut index: usize = 0;
    while index < slices.len()
        invariant
            index <= slices@.len(),
            views == slice_views(slices@),
            first == range.first(),
            range.limit() <= u64::MAX,
            data@.len() == range.size(),
            forall|i: int|
                0 <= i < slices@.len() ==> cache_slice_fits(
                    cache@,
                    #[trigger] views[i],
                    range.first(),
                    range.limit(),
                ),
            forall|p: int|
                in_slices(views.take(index as int), p) ==> #[trigger] data@[p - first]
                    == cache@.byte_at(p)->0,
        decreases slices@.len() - index,
    {
        let ghost before = data@;
        let copied = slices[index].copy_to(range, &mut data);
        proof {
            let slice = views[index as int];
            assert(slice == slices@[index as int]@);
            assert(cache_slice_fits(cache@, slice, range.first(), range.limit()));
            assert(slice.data.subrange(0, slice.end - slice.start) =~= slice.data);
            assert(data@ == overwritten(before, slice.start - first, slice.data));
            assert forall|p: int| in_slices(views.take(index + 1), p) implies #[trigger] data@[p
                - first] == cache@.byte_at(p)->0 by {
                if slice.start <= p < slice.end {
                    assert(data@[p - first] == slice.data[p - slice.start]);
                } else {
                    let i = choose|i: int|
                        0 <= i < views.take(index + 1).len() && (#[trigger] views.take(
                            index + 1,
                        )[i]).start <= p < views.take(index + 1)[i].end;
                    assert(views.take(index as int)[i] == views[i]);
                    assert(cache_slice_fits(cache@, views[i], range.first(), range.limit()));
                    assert(data@[p - first] == before[p - first]);
                }
            }
        }
        index = index + 1;
    }
    proof {
        assert(views.take(index as int) =~= views);
    }
    data
}

impl ReadPlan {
    /// Collects what retained writes and the cache give for a range.
    pub fn new(
        root: &RootSnapshot,
        overlay: &OverlayExtentMap,
        cache: &ReadCache,
        range: ByteRange,
    ) -> (result: Result<Self>)
        requires
            overlay.wf(),
            cache.wf(),
            range.limit() <= u64::MAX,
        ensures
            result matches Ok(plan) && plan.wf() && plan@ == (ReadPlanView {
                root: root@,
                range,
                overlay: overlay@,
                cache: cache@,
                blocks: Seq::empty(),
            }),
    {
        let ghost first = range.first();
        let ghost limit = range.limit();
        proof {
            range.lemma_bounds(range);
            lemma_overlay_slices(overlay@, first, limit);
        }
        let slices = match overlay.read_slices(range) {
            Ok(slices) => slices,
            Err(error) => {
                return Err(error);
            },
        };
        let mut spans = spans_of_overlay(&slices);
        let ghost shown = overlay_spans(slices@);
        proof {
            let by_span = |p: int| spanned(shown, p);
            lemma_runs(first, limit, by_span);
            lemma_spans_within(shown, first, limit, runs(first, limit, by_span));
        }
        let holes = match gaps_in_range(range, &spans) {
            Ok(holes) => holes,
            Err(error) => {
                return Err(error);
            },
        };
        let ghost list = bounds(holes@);
        proof {
            let by_span = |p: int| spanned(shown, p);
            let by_write = |p: int| shown_at(overlay@, p) is Some;
            lemma_runs_same(first, limit, by_span, by_write);
            assert(list == overlay_holes(overlay@, first, limit));
            lemma_runs(first, limit, by_write);
            assert forall|i: int| 0 <= i < holes@.len() implies (#[trigger] holes@[i]).limit()
                <= u64::MAX by {
                assert(list[i] == (holes@[i].first(), holes@[i].limit()));
            }
            lemma_cached_runs(cache@, list, first, limit);
        }
        let found = cached_slices(cache, &holes);
        let ghost views = slice_views(found@);
        push_cache_spans(&mut spans, &found);
        proof {
            lemma_all_spans(overlay@, cache@, list, shown, first, limit);
            let by_span = |p: int| spanned(spans@, p);
            lemma_runs(first, limit, by_span);
            lemma_spans_within(spans@, first, limit, runs(first, limit, by_span));
        }
        let misses = match gaps_in_range(range, &spans) {
            Ok(misses) => misses,
            Err(error) => {
                return Err(error);
            },
        };
        proof {
            let by_span = |p: int| spanned(spans@, p);
            let by_either = |p: int|
                shown_at(overlay@, p) is Some || cache@.byte_at(p) is Some;
            lemma_runs_same(first, limit, by_span, by_either);
        }
        let data = cached_data(cache, range, &found);
        let plan = ReadPlan {
            root: root.clone(),
            range,
            overlay_slices: slices,
            hits: objects_of(&found),
            misses,
            fills: Vec::new(),
            data,
            overlay: Ghost(overlay@),
            cache: Ghost(cache@),
        };
        proof {
            assert(plan@.blocks =~= Seq::<Block>::empty());
            assert forall|p: int|
                first <= p < limit && shown_at(plan.overlay@, p) is None && plan@.byte_at(
                    p,
                ) is Some implies #[trigger] plan.data@[p - first] == plan@.byte_at(p)->0 by {
                let by_write = |q: int| shown_at(overlay@, q) is Some;
                lemma_runs(first, limit, by_write);
                assert(!by_write(p));
                assert(in_runs(list, p));
                assert(in_slices(views, p));
            }
        }
        Ok(plan)
    }

    /// The next run that the committed tree has to give.
    pub fn next_miss(&self) -> (miss: Option<ByteRange>)
        requires
            self.wf(),
        ensures
            match miss {
                Some(miss) => self@.blocks.len() < self@.misses().len() && (
                    miss.first(),
                    miss.limit(),
                ) == self@.misses()[self@.blocks.len() as int],
                None => self@.blocks.len() == self@.misses().len(),
            },
    {
        let given: usize = self.fills.len();
        proof {
            assert(bounds(self.misses@).len() == self.misses@.len());
        }
        if given < self.misses.len() {
            proof {
                assert(bounds(self.misses@)[given as int] == (
                    self.misses@[given as int].first(),
                    self.misses@[given as int].limit(),
                ));
            }
            Some(self.misses[given])
        } else {
            None
        }
    }
}

/// Retained runs and cached runs of the holes together cover what either gives.
proof fn lemma_all_spans(
    overlay: Seq<ExtentEntry<OverlayExtent>>,
    cache: CacheView,
    holes: Seq<(int, int)>,
    shown: Seq<(u64, u64)>,
    start: int,
    end: int,
)
    requires
        overlays(overlay),
        cache.wf(),
        0 <= start <= end <= u64::MAX,
        holes == overlay_holes(overlay, start, end),
        shown == overlay_spans(overlay_slices(overlay, start, end)),
    ensures
        ({
            let all = shown + cache_spans(cached_runs(cache, holes));
            &&& within(all, start, end)
            &&& forall|p: int|
                start <= p < end ==> #[trigger] spanned(all, p) == (shown_at(overlay, p) is Some
                    || cache.byte_at(p) is Some)
        }),
{
    let slices = cached_runs(cache, holes);
    let cached = cache_spans(slices);
    let all = shown + cached;
    let by_write = |p: int| shown_at(overlay, p) is Some;
    lemma_overlay_slices(overlay, start, end);
    lemma_runs(start, end, by_write);
    lemma_cached_runs(cache, holes, start, end);
    assert forall|i: int| 0 <= i < all.len() implies start <= (#[trigger] all[i]).0 && all[i].0
        < all[i].1 && all[i].1 <= end by {
        if i < shown.len() {
            assert(all[i] == shown[i]);
        } else {
            assert(cache_slice_fits(cache, slices[i - shown.len()], start, end));
            assert(all[i] == cached[i - shown.len()]);
        }
    }
    assert forall|i: int| 0 <= i < slices.len() implies 0 <= (#[trigger] slices[i]).start
        <= u64::MAX && 0 <= slices[i].end <= u64::MAX by {
        assert(cache_slice_fits(cache, slices[i], start, end));
    }
    assert forall|p: int| start <= p < end implies #[trigger] spanned(all, p) == (shown_at(
        overlay,
        p,
    ) is Some || cache.byte_at(p) is Some) by {
        lemma_spanned_joined(shown, cached, p);
        lemma_cache_spanned(slices, p);
        assert(spanned(shown, p) == (shown_at(overlay, p) is Some));
        assert(!by_write(p) == in_runs(holes, p));
        assert(in_slices(slices, p) == (in_runs(holes, p) && cache.byte_at(p) is Some));
    }
}

/// A position of a block among blocks of runs that are apart comes from that block.
proof fn lemma_block_byte(
    blocks: Seq<Block>,
    list: Seq<(int, int)>,
    index: int,
    position: int,
)
    requires
        0 <= index < blocks.len() <= list.len(),
        forall|k: int|
            0 <= k < blocks.len() ==> ((#[trigger] blocks[k]).span().first(), blocks[k].span().limit())
                == list[k],
        forall|i: int, j: int|
            0 <= i < j < list.len() ==> (#[trigger] list[i]).1 < (#[trigger] list[j]).0,
        blocks[index].span().covers(position),
    ensures
        block_byte(blocks, position) == Some(
            blocks[index].content()[position - blocks[index].span().first()],
        ),
    decreases blocks.len(),
{
    let last = blocks.len() - 1;
    if index < last {
        assert(list[index].1 < list[last].0);
        assert(blocks[last].span().first() == list[last].0);
        assert(blocks[index].span().limit() == list[index].1);
        let front = blocks.drop_last();
        assert(forall|k: int| 0 <= k < front.len() ==> front[k] == blocks[k]);
        lemma_block_byte(front, list, index, position);
    }
}

/// The byte of a block comes from one that covers the position.
proof fn lemma_block_byte_source(blocks: Seq<Block>, position: int) -> (index: int)
    requires
        block_byte(blocks, position) is Some,
    ensures
        0 <= index < blocks.len(),
        blocks[index].span().covers(position),
        block_byte(blocks, position) == Some(
            blocks[index].content()[position - blocks[index].span().first()],
        ),
    decreases blocks.len(),
{
    if blocks.last().span().covers(position) {
        blocks.len() - 1
    } else {
        lemma_block_byte_source(blocks.drop_last(), position)
    }
}

impl ReadPlan {
    /// Takes in the next run of the committed tree.
    pub fn accept(&mut self, block: Block) -> (result: Result<()>)
        requires
            old(self).wf(),
            old(self)@.blocks.len() < old(self)@.misses().len(),
        ensures
            final(self).wf(),
            ({
                let (start, end) = old(self)@.misses()[old(self)@.blocks.len() as int];
                match result {
                    Ok(_) => {
                        &&& (block.span().first(), block.span().limit()) == (start, end)
                        &&& final(self)@ == (ReadPlanView {
                            blocks: old(self)@.blocks.push(block),
                            ..old(self)@
                        })
                    },
                    Err(error) => {
                        &&& (block.span().first(), block.span().limit()) != (start, end)
                        &&& final(self)@ == old(self)@
                        &&& exists|requested: ByteRange|
                            (requested.first(), requested.limit()) == (start, end) && error@
                                == #[trigger] wrong_block(block.span(), requested)
                    },
                }
            }),
    {
        let given: usize = self.fills.len();
        let ghost list = self@.misses();
        proof {
            assert(bounds(self.misses@).len() == self.misses@.len());
            assert(list[given as int] == (
                self.misses@[given as int].first(),
                self.misses@[given as int].limit(),
            ));
        }
        let requested = self.misses[given];
        let returned = block.range();
        if returned.start() != requested.start() || returned.len() != requested.len() {
            let mut message = owned("tree reader returned range ");
            push_range(&mut message, returned);
            message.append(" for requested range ");
            push_range(&mut message, requested);
            let error = ServerError::wal("read committed backing", message);
            proof {
                assert(error@ == wrong_block(block.span(), requested));
            }
            return Err(error);
        }
        let ghost before = *self;
        let ghost first = self.range.first();
        let ghost limit = self.range.limit();
        proof {
            returned.lemma_bounds(requested);
            self.range.lemma_bounds(self.range);
            block.law_block_is_its_runs(0, 0);
            let by_either = |p: int|
                shown_at(self.overlay@, p) is Some || self.cache@.byte_at(p) is Some;
            lemma_runs(first, limit, by_either);
        }
        match block.materialize() {
            Ok(bytes) => {
                let at: u64 = returned.start() - self.range.start();
                copy_into(&mut self.data, at as usize, &bytes, 0, bytes.len());
                proof {
                    assert(bytes@.subrange(0, bytes@.len() as int) =~= bytes@);
                }
            },
            Err(error) => {
                return Err(error);
            },
        }
        let ghost copied = self.data@;
        self.fills.push(block);
        proof {
            let by_either = |p: int|
                shown_at(before.overlay@, p) is Some || before.cache@.byte_at(p) is Some;
            assert(self@.blocks.drop_last() =~= before@.blocks);
            assert(self@.misses() == list);
            assert forall|k: int| 0 <= k < self.fills@.len() implies (
            #[trigger] self.fills@[k]).wf() && self.fills@[k].span() == self.misses@[k] by {
                if k < given {
                    assert(self.fills@[k] == before.fills@[k]);
                }
            }
            assert forall|k: int| 0 <= k < self.fills@.len() implies ((
            #[trigger] self.fills@[k]).span().first(), self.fills@[k].span().limit())
                == list[k] by {
                assert(bounds(self.misses@)[k] == (
                    self.misses@[k].first(),
                    self.misses@[k].limit(),
                ));
            }
            assert forall|p: int|
                first <= p < limit && shown_at(self.overlay@, p) is None && self@.byte_at(
                    p,
                ) is Some implies #[trigger] self.data@[p - first] == self@.byte_at(p)->0 by {
                if block.span().covers(p) {
                    lemma_run_uncovered(first, limit, by_either, given as int, p);
                    lemma_block_byte(self.fills@, list, given as int, p);
                    assert(self.data@[p - first] == block.content()[p - block.span().first()]);
                } else {
                    assert(self@.tree_byte(p) == before@.tree_byte(p));
                    assert(self@.byte_at(p) == before@.byte_at(p));
                    assert(before.data@[p - first] == before@.byte_at(p)->0);
                    assert(copied[p - first] == before.data@[p - first]);
                }
            }
        }
        Ok(())
    }

    /// Puts the retained writes on top and gives the bytes of the read.
    pub fn finish(self) -> (outcome: ReadOutcome)
        requires
            self.wf(),
            self@.blocks.len() == self@.misses().len(),
        ensures
            outcome.root@ == self@.root,
            outcome.hits@ == self@.hits(),
            outcome.fills@ == self@.blocks,
            outcome.data@.len() == self@.range.size(),
            forall|p: int|
                self@.range.covers(p) ==> Some(#[trigger] outcome.data@[p - self@.range.first()])
                    == self@.byte_at(p),
    {
        let ghost whole = self@;
        let ghost first = self.range.first();
        let ghost limit = self.range.limit();
        let ghost extents = self.overlay@;
        let ghost filled = self.data@;
        let ReadPlan {
            root,
            range,
            overlay_slices: slices,
            hits,
            misses,
            fills,
            data: found,
            overlay,
            cache,
        } = self;
        let mut data = found;
        proof {
            range.lemma_bounds(range);
            lemma_overlay_slices(extents, first, limit);
        }
        let mut index: usize = 0;
        while index < slices.len()
            invariant
                index <= slices@.len(),
                range.first() == first,
                range.limit() == limit,
                limit - first == range.size(),
                limit <= u64::MAX,
                data@.len() == range.size(),
                slices@ == overlay_slices(extents, first, limit),
                forall|i: int|
                    0 <= i < slices@.len() ==> overlay_slice_fits(
                        #[trigger] slices@[i],
                        first,
                        limit,
                    ),
                forall|i: int, p: int|
                    0 <= i < slices@.len() && slices@[i].start <= p < slices@[i].end
                        ==> #[trigger] shown_at(extents, p) == Some(
                        (
                            slices@[i].record.number(),
                            (#[trigger] slices@[i]).record.payload()[slices@[i].record_offset + (p
                                - slices@[i].start)],
                        ),
                    ),
                forall|p: int|
                    first <= p < limit && shown_at(extents, p) is None ==> #[trigger] data@[p
                        - first] == filled[p - first],
                forall|i: int, p: int|
                    0 <= i < index && (#[trigger] slices@[i]).start <= p < slices@[i].end
                        ==> #[trigger] data@[p - first] == (shown_at(extents, p)->0).1,
            decreases slices@.len() - index,
        {
            let slice = &slices[index];
            let ghost before = data@;
            proof {
                assert(overlay_slice_fits(slices@[index as int], first, limit));
            }
            overlay_record(&mut data, range, slice);
            proof {
                let run = slices@[index as int];
                assert forall|p: int| run.start <= p < run.end implies #[trigger] data@[p - first]
                    == (shown_at(extents, p)->0).1 by {}
                assert forall|p: int|
                    first <= p < limit && shown_at(extents, p) is None implies #[trigger] data@[p
                    - first] == filled[p - first] by {
                    assert(!(run.start <= p < run.end));
                    assert(data@[p - first] == before[p - first]);
                }
                assert forall|i: int, p: int|
                    0 <= i < index + 1 && (#[trigger] slices@[i]).start <= p
                        < slices@[i].end implies #[trigger] data@[p - first] == (shown_at(
                    extents,
                    p,
                )->0).1 by {
                    assert(overlay_slice_fits(slices@[i], first, limit));
                    if !(run.start <= p < run.end) {
                        assert(data@[p - first] == before[p - first]);
                    }
                }
            }
            index = index + 1;
        }
        proof {
            assert forall|p: int| range.covers(p) implies Some(#[trigger] data@[p - first])
                == whole.byte_at(p) by {
                if shown_at(extents, p) is Some {
                    assert(spanned(overlay_spans(slices@), p));
                    let spans = overlay_spans(slices@);
                    let i = choose|i: int|
                        0 <= i < spans.len() && (#[trigger] spans[i]).0 <= p < spans[i].1;
                    assert(slices@[i].start <= p < slices@[i].end);
                } else {
                    lemma_every_byte_known(self, p);
                    assert(filled[p - first] == whole.byte_at(p)->0);
                }
            }
        }
        ReadOutcome { root, data, hits, fills }
    }
}

/// Once every missing run was given, each position of the range has a byte.
proof fn lemma_every_byte_known(plan: ReadPlan, position: int)
    requires
        plan.wf(),
        plan@.blocks.len() == plan@.misses().len(),
        plan@.range.covers(position),
    ensures
        plan@.byte_at(position) is Some,
{
    let view = plan@;
    let first = view.range.first();
    let limit = view.range.limit();
    let list = view.misses();
    view.range.lemma_bounds(view.range);
    if shown_at(view.overlay, position) is None && view.cache.byte_at(position) is None {
        let by_either = |p: int| shown_at(view.overlay, p) is Some || view.cache.byte_at(p) is Some;
        lemma_runs(first, limit, by_either);
        assert(!by_either(position));
        let k = choose|k: int|
            0 <= k < list.len() && (#[trigger] list[k]).0 <= position < list[k].1;
        assert forall|j: int| 0 <= j < view.blocks.len() implies ((
        #[trigger] view.blocks[j]).span().first(), view.blocks[j].span().limit()) == list[j] by {
            assert(plan.fills@[j].span() == plan.misses@[j]);
            assert(bounds(plan.misses@)[j] == (plan.misses@[j].first(), plan.misses@[j].limit()));
        }
        assert(view.blocks[k].span().covers(position));
        lemma_block_byte(view.blocks, list, k, position);
    }
}

/// Copies the bytes of a retained run to where they belong in the buffer of a read.
fn overlay_record(data: &mut Vec<u8>, read_range: ByteRange, slice: &OverlayReadSlice)
    requires
        overlay_slice_fits(*slice, read_range.first(), read_range.limit()),
        old(data)@.len() == read_range.size(),
    ensures
        final(data)@ == overwritten(
            old(data)@,
            slice.start - read_range.first(),
            slice.record.payload().subrange(
                slice.record_offset as int,
                slice.record_offset + (slice.end - slice.start),
            ),
        ),
{
    proof {
        read_range.lemma_bounds(read_range);
    }
    let source = slice.record.data();
    let at: u64 = slice.start - read_range.start();
    let length: u64 = slice.end - slice.start;
    copy_into(data, at as usize, source, slice.record_offset as usize, length as usize);
}

/// The tree is asked for exactly those bytes of a range that no retained write shows and that are
/// not cached, in ascending runs that do not touch.
pub proof fn law_only_unknown_bytes_are_asked_of_the_tree(plan: ReadPlanView, position: int)
    ensures
        in_runs(plan.misses(), position) <==> plan.range.covers(position) && shown_at(
            plan.overlay,
            position,
        ) is None && plan.cache.byte_at(position) is None,
        forall|i: int, j: int|
            0 <= i < j < plan.misses().len() ==> (#[trigger] plan.misses()[i]).1 < (
            #[trigger] plan.misses()[j]).0,
{
    let first = plan.range.first();
    let limit = plan.range.limit();
    let known = |p: int| shown_at(plan.overlay, p) is Some || plan.cache.byte_at(p) is Some;
    plan.range.lemma_bounds(plan.range);
    lemma_runs(first, limit, known);
    assert(known(position) == (shown_at(plan.overlay, position) is Some || plan.cache.byte_at(
        position,
    ) is Some));
}

/// The runs of one of the holes are among the runs of all of them.
proof fn lemma_run_of_a_hole(cache: CacheView, holes: Seq<(int, int)>, hole: int, index: int)
    requires
        0 <= hole < holes.len(),
        0 <= index < slices_of(cache, holes[hole].0, holes[hole].1).len(),
    ensures
        cached_runs(cache, holes).contains(
            slices_of(cache, holes[hole].0, holes[hole].1)[index],
        ),
    decreases holes.len(),
{
    let front = holes.drop_last();
    let earlier = cached_runs(cache, front);
    let fresh = slices_of(cache, holes.last().0, holes.last().1);
    let all = cached_runs(cache, holes);
    if hole < front.len() {
        lemma_run_of_a_hole(cache, front, hole, index);
        let run = slices_of(cache, holes[hole].0, holes[hole].1)[index];
        let i = choose|i: int| 0 <= i < earlier.len() && earlier[i] == run;
        assert(all[i] == run);
    } else {
        assert(all[earlier.len() + index] == fresh[index]);
    }
}

/// The object of every cached byte that a read takes is one that the read used.
pub proof fn law_every_cached_byte_that_is_read_is_a_hit(plan: ReadPlanView, position: int)
    requires
        plan.cache.wf(),
        plan.range.limit() <= u64::MAX,
        plan.range.covers(position),
        shown_at(plan.overlay, position) is None,
        plan.cache.byte_at(position) is Some,
    ensures
        plan.hits().contains((value_at(plan.cache.extents, position)->0).0.object_id),
{
    let first = plan.range.first();
    let limit = plan.range.limit();
    let shown = |p: int| shown_at(plan.overlay, p) is Some;
    let holes = overlay_holes(plan.overlay, first, limit);
    plan.range.lemma_bounds(plan.range);
    lemma_runs(first, limit, shown);
    assert(!shown(position));
    let k = choose|k: int|
        0 <= k < holes.len() && (#[trigger] holes[k]).0 <= position < holes[k].1;
    let (start, end) = holes[k];
    let extents = plan.cache.extents;
    lemma_touched(extents, start, end);
    let low = ending_by(extents, start);
    let j = lemma_value_at_source(extents, position);
    let index = j - low;
    assert(touched(extents, start, end)[index] == extents[j]);
    let run = slices_of(plan.cache, start, end)[index];
    assert(run == slice_of(plan.cache, extents[j], start, end));
    lemma_run_of_a_hole(plan.cache, holes, k, index);
    let runs = cached_runs(plan.cache, holes);
    let i = choose|i: int| 0 <= i < runs.len() && runs[i] == run;
    assert(plan.hits()[i] == run.object_id);
}

} // verus!
