//! Materialized read view of one open export: the committed root, the retained writes on top of
//! it, and a cache of bytes.

use crate::block::{Block, BlockPart};
use crate::cache_model::{
    range_inserted, CacheInsertPlacement, CacheObjectId, CacheView, Origin, LAST_CACHE_BLOCK,
};
use crate::catalog::{ExportHead, ExportLayoutKind, WalSeq};
use crate::error::{ErrorView, Result, ServerError};
use crate::extent_map::{lemma_value_at_covered, lemma_value_at_source, value_at, ExtentEntry};
use crate::gaps::{
    bounds, byte_range_from_bounds, in_runs, lemma_run_bytes, lemma_run_uncovered, lemma_runs,
    lemma_runs_open, run_bytes, runs,
};
use crate::overlay::{
    as_retired, before_in_log, covered_bytes, from_record, lemma_newer, lemma_newer_source,
    lemma_overlaid, lemma_overlaid_member, lemma_retires_bytes, newer, overlaid, overlays,
    retired_bytes, retired_from, retires, shown_at, OverlayExtent, OverlayExtentMap,
    RetiredOverlayExtent,
};
use crate::range::ByteRange;
use crate::read_cache::{
    all_promoted, block_overflow, inserted, law_fitting_insertion_is_cached,
    law_insertion_never_changes_a_byte,
    law_trim_removes_only_the_range, lemma_inserted, range_trimmed, reaches_last_block, ReadCache,
};
use crate::read_plan::{
    block_byte, tree_misses, uncovered_runs, ReadOutcome, ReadPlan, ReadPlanView,
};
use crate::shared_bytes::{bytes_as_slice, bytes_contents, bytes_slice};
use crate::root::{head_view, out_of_bounds, validate_range, RootSnapshot, RootView};
use crate::text::{owned, text_with_two_numbers, with_two_numbers};
use crate::wal::WalRecord;
use std::sync::Arc;
use vstd::prelude::*;

verus! {

/// Bytes that the cache of a read view holds unless told otherwise.
pub const DEFAULT_READ_CACHE_BYTES: usize = 1073741824;

/// Materialized read view for one open write-ahead-log export.
#[derive(Debug)]
pub struct ExportReadView {
    root: RootSnapshot,
    last_applied_seq: WalSeq,
    wal_debt_bytes: u64,
    overlay: OverlayExtentMap,
    cache: ReadCache,
}

/// The retained writes at one moment, to be moved into the committed tree.
#[derive(Debug)]
pub struct ReadViewCompactionSnapshot {
    pub root: RootSnapshot,
    pub target_wal_seq: WalSeq,
    pub wal_debt_bytes: u64,
    pub overlay: OverlayExtentMap,
}

/// State of a read view.
pub struct ReadViewModel {
    pub root: RootView,
    pub last_applied: int,
    pub debt: int,
    pub overlay: Seq<ExtentEntry<OverlayExtent>>,
    pub cache: CacheView,
}

impl View for ExportReadView {
    type V = ReadViewModel;

    closed spec fn view(&self) -> ReadViewModel {
        ReadViewModel {
            root: self.root@,
            last_applied: self.last_applied_seq@,
            debt: self.wal_debt_bytes as int,
            overlay: self.overlay@,
            cache: self.cache@,
        }
    }
}

impl ReadViewModel {
    /// Retained writes come after the checkpoint, up to the last applied one, and lie in the
    /// export.
    pub open spec fn retains(self) -> bool {
        &&& self.root.base_wal_seq <= self.last_applied
        &&& overlays(self.overlay)
        &&& forall|i: int|
            0 <= i < self.overlay.len() ==> {
                &&& self.root.base_wal_seq < (#[trigger] self.overlay[i]).value.seq@
                &&& self.overlay[i].value.seq@ <= self.last_applied
                &&& self.overlay[i].end <= self.root.size_bytes
            }
    }

    /// The byte at a position, over the bytes of the committed tree.
    pub open spec fn content(self, committed: spec_fn(int) -> u8, position: int) -> u8 {
        match shown_at(self.overlay, position) {
            Some((_, byte)) => byte,
            None => committed(position),
        }
    }

    /// Where no retained write shows, a cached byte is the committed one.
    pub open spec fn faithful(self, committed: spec_fn(int) -> u8) -> bool {
        forall|p: int|
            shown_at(self.overlay, p) is None && #[trigger] self.cache.byte_at(p) is Some
                ==> self.cache.byte_at(p)->0 == committed(p)
    }
}

// ---------------------------------------------------------------------------
// Applying a record
// ---------------------------------------------------------------------------

/// An error of applying a record.
pub open spec fn apply_failure(message: Seq<char>) -> ErrorView {
    ErrorView::Wal { context: "apply WAL record"@, message }
}

/// Why a record cannot be applied. A sum of log bytes that does not fit is only found after the
/// record took effect.
pub open spec fn apply_error(view: ReadViewModel, record: WalRecord) -> Option<ErrorView> {
    let number = record.number();
    if record.span().limit() > view.root.size_bytes {
        Some(
            out_of_bounds(
                "write"@,
                record.span().first(),
                record.span().size(),
                view.root.size_bytes,
            ),
        )
    } else if number <= view.root.base_wal_seq {
        Some(
            apply_failure(
                with_two_numbers(
                    "record sequence "@,
                    number as nat,
                    " is at or before checkpoint "@,
                    view.root.base_wal_seq as nat,
                    ""@,
                ),
            ),
        )
    } else if view.last_applied == u64::MAX {
        Some(apply_failure("WAL sequence overflowed"@))
    } else if number != view.last_applied + 1 {
        Some(
            apply_failure(
                with_two_numbers(
                    "expected WAL sequence "@,
                    (view.last_applied + 1) as nat,
                    ", got "@,
                    number as nat,
                    ""@,
                ),
            ),
        )
    } else if view.debt + record.payload().len() > u64::MAX {
        Some(apply_failure("WAL debt bytes overflowed"@))
    } else {
        None
    }
}

/// Whether a record takes effect: it lies in the export and is the next one.
pub open spec fn takes_effect(view: ReadViewModel, record: WalRecord) -> bool {
    &&& record.span().limit() <= view.root.size_bytes
    &&& record.number() == view.last_applied + 1
    &&& view.root.base_wal_seq < record.number()
}

/// The view after a record took effect.
pub open spec fn applied(view: ReadViewModel, record: Arc<WalRecord>) -> ReadViewModel {
    ReadViewModel {
        last_applied: record.number(),
        debt: if view.debt + record.payload().len() <= u64::MAX {
            view.debt + record.payload().len()
        } else {
            view.debt
        },
        overlay: overlaid(view.overlay, record),
        cache: range_trimmed(view.cache, record.span()),
        ..view
    }
}

/// Applying a record keeps what is retained in bounds.
proof fn lemma_applied_retains(view: ReadViewModel, record: Arc<WalRecord>)
    requires
        view.retains(),
        takes_effect(view, *record),
        record.wf(),
        view.root.size_bytes <= u64::MAX,
    ensures
        applied(view, record).retains(),
{
    let after = applied(view, record);
    record.span().lemma_bounds(record.span());
    lemma_overlaid(view.overlay, after.overlay, record);
    assert forall|i: int| 0 <= i < after.overlay.len() implies view.root.base_wal_seq < (
    #[trigger] after.overlay[i]).value.seq@ && after.overlay[i].value.seq@ <= after.last_applied
        && after.overlay[i].end <= view.root.size_bytes by {
        let source = lemma_overlaid_member(view.overlay, record, i);
        if let Some(j) = source {
            assert(view.overlay[j].end <= view.root.size_bytes);
        }
    }
}

/// A write is read back: after a record took effect its range holds its bytes, and every other
/// position what it held.
pub proof fn law_write_is_read_back(
    view: ReadViewModel,
    record: Arc<WalRecord>,
    committed: spec_fn(int) -> u8,
    position: int,
)
    requires
        view.retains(),
        view.faithful(committed),
        view.cache.wf(),
        view.root.size_bytes <= u64::MAX,
        record.wf(),
        takes_effect(view, *record),
    ensures
        applied(view, record).retains(),
        applied(view, record).faithful(committed),
        applied(view, record).content(committed, position) == (if record.span().covers(position) {
            record.payload()[position - record.span().first()]
        } else {
            view.content(committed, position)
        }),
{
    let after = applied(view, record);
    record.span().lemma_bounds(record.span());
    lemma_overlaid(view.overlay, after.overlay, record);
    lemma_applied_retains(view, record);
    assert forall|p: int|
        shown_at(after.overlay, p) is None && #[trigger] after.cache.byte_at(
            p,
        ) is Some implies after.cache.byte_at(p)->0 == committed(p) by {
        law_trim_removes_only_the_range(view.cache, record.span(), p);
        assert(shown_at(view.overlay, p) is None);
        assert(view.cache.byte_at(p) is Some);
    }
    assert(shown_at(after.overlay, position) == (if record.span().first() <= position
        < record.span().saturated_limit() {
        Some((record.number(), record.payload()[position - record.span().first()]))
    } else {
        shown_at(view.overlay, position)
    }));
}

// ---------------------------------------------------------------------------
// Moving the root forward
// ---------------------------------------------------------------------------

/// The cache after a retired extent was added to it.
pub open spec fn retired_cached(cache: CacheView, entry: RetiredOverlayExtent) -> CacheView {
    inserted(
        cache,
        ByteRange::between(entry.start as int, entry.end as int),
        entry.record.payload().subrange(
            entry.record_offset as int,
            entry.record_offset + (entry.end - entry.start),
        ),
        Origin::Record {
            number: entry.record.number(),
            data: entry.record.payload(),
            offset: entry.record_offset as int,
        },
        CacheInsertPlacement::Cold,
    )
}

/// Whether a retired extent can be cached whole.
pub open spec fn cacheable(entry: RetiredOverlayExtent) -> bool {
    !reaches_last_block(ByteRange::between(entry.start as int, entry.end as int))
}

/// The cache after retired extents were added, up to the first one that cannot be cached whole,
/// and whether all could.
pub open spec fn all_retired(cache: CacheView, retired: Seq<RetiredOverlayExtent>) -> (
    CacheView,
    bool,
)
    decreases retired.len(),
{
    if retired.len() == 0 {
        (cache, true)
    } else {
        let (before, whole) = all_retired(cache, retired.drop_last());
        if whole {
            (retired_cached(before, retired.last()), cacheable(retired.last()))
        } else {
            (before, false)
        }
    }
}

/// The view after its root moved to one that holds the retired writes.
pub open spec fn advanced(
    view: ReadViewModel,
    root: RootView,
    cache: CacheView,
    debt: int,
) -> ReadViewModel {
    ReadViewModel {
        root,
        debt: if root.base_wal_seq == view.last_applied {
            0
        } else {
            debt
        },
        overlay: newer(view.overlay, root.base_wal_seq),
        cache,
        ..view
    }
}

/// What moving the root does: the writes that the new root holds leave the overlay for the cache.
/// Where one of them cannot be cached the root stays.
pub open spec fn moves_root(
    before: ReadViewModel,
    after: ReadViewModel,
    result: Result<()>,
    root: RootView,
    debt: int,
) -> bool {
    exists|retired: Seq<RetiredOverlayExtent>| #[trigger]
        retires(before.overlay, root.base_wal_seq, retired) && {
            let (cache, whole) = all_retired(before.cache, retired);
            match result {
                Ok(_) => whole && after == advanced(before, root, cache, debt),
                Err(error) => !whole && error@ == block_overflow() && after == (ReadViewModel {
                    cache,
                    ..before
                }),
            }
        }
}

/// An error of moving the root.
pub open spec fn advance_failure(context: Seq<char>, message: Seq<char>) -> ErrorView {
    ErrorView::Wal { context, message }
}

/// Why the root cannot move to `root`. A root at the same checkpoint changes nothing.
pub open spec fn advance_error(view: ReadViewModel, root: RootView) -> Option<ErrorView> {
    let context = "advance read-view root"@;
    if root.size_bytes != view.root.size_bytes {
        Some(
            advance_failure(
                context,
                with_two_numbers(
                    "new root size "@,
                    root.size_bytes as nat,
                    " does not match current size "@,
                    view.root.size_bytes as nat,
                    ""@,
                ),
            ),
        )
    } else if root.base_wal_seq < view.root.base_wal_seq {
        Some(
            advance_failure(
                context,
                with_two_numbers(
                    "new checkpoint "@,
                    root.base_wal_seq as nat,
                    " is before current checkpoint "@,
                    view.root.base_wal_seq as nat,
                    ""@,
                ),
            ),
        )
    } else if root.base_wal_seq > view.last_applied {
        Some(
            advance_failure(
                context,
                with_two_numbers(
                    "new checkpoint "@,
                    root.base_wal_seq as nat,
                    " is beyond last applied WAL sequence "@,
                    view.last_applied as nat,
                    ""@,
                ),
            ),
        )
    } else {
        None
    }
}

/// Why the root cannot move to the one that compaction of a snapshot published. Where the view
/// has moved past the snapshot already, nothing is left to do.
pub open spec fn compaction_advance_error(
    view: ReadViewModel,
    root: RootView,
    base: int,
    target: int,
    debt: int,
) -> Option<ErrorView> {
    let context = "advance read-view root after compaction"@;
    if root.size_bytes != view.root.size_bytes {
        Some(
            advance_failure(
                context,
                with_two_numbers(
                    "new root size "@,
                    root.size_bytes as nat,
                    " does not match current size "@,
                    view.root.size_bytes as nat,
                    ""@,
                ),
            ),
        )
    } else if view.root.base_wal_seq >= target {
        None
    } else if view.root.base_wal_seq != base {
        Some(
            advance_failure(
                context,
                with_two_numbers(
                    "current checkpoint "@,
                    view.root.base_wal_seq as nat,
                    " does not match snapshot base "@,
                    base as nat,
                    ""@,
                ),
            ),
        )
    } else if root.base_wal_seq < target {
        Some(
            advance_failure(
                context,
                with_two_numbers(
                    "new checkpoint "@,
                    root.base_wal_seq as nat,
                    " is before snapshot target "@,
                    target as nat,
                    ""@,
                ),
            ),
        )
    } else if root.base_wal_seq > target {
        Some(
            advance_failure(
                context,
                with_two_numbers(
                    "new checkpoint "@,
                    root.base_wal_seq as nat,
                    " is after snapshot target "@,
                    target as nat,
                    ""@,
                ),
            ),
        )
    } else if root.base_wal_seq > view.last_applied {
        Some(
            advance_failure(
                context,
                with_two_numbers(
                    "new checkpoint "@,
                    root.base_wal_seq as nat,
                    " is beyond last applied WAL sequence "@,
                    view.last_applied as nat,
                    ""@,
                ),
            ),
        )
    } else if debt > view.debt {
        Some(
            advance_failure(
                context,
                with_two_numbers(
                    "snapshot WAL debt "@,
                    debt as nat,
                    " exceeds live WAL debt "@,
                    view.debt as nat,
                    ""@,
                ),
            ),
        )
    } else {
        None
    }
}

/// What moving the root to another one does.
pub open spec fn advances_root(
    before: ReadViewModel,
    after: ReadViewModel,
    root: RootView,
    result: Result<()>,
) -> bool {
    match advance_error(before, root) {
        Some(failure) => {
            &&& result matches Err(error) && error@ == failure
            &&& after == before
        },
        None => if root.base_wal_seq == before.root.base_wal_seq {
            result is Ok && after == before
        } else {
            moves_root(before, after, result, root, before.debt)
        },
    }
}

/// What moving the root to one that a compaction published does.
pub open spec fn advances_after_compaction(
    before: ReadViewModel,
    after: ReadViewModel,
    root: RootView,
    snapshot: ReadViewCompactionSnapshot,
    result: Result<()>,
) -> bool {
    match compaction_advance_error(
        before,
        root,
        snapshot.root@.base_wal_seq,
        snapshot.target_wal_seq@,
        snapshot.wal_debt_bytes as int,
    ) {
        Some(failure) => {
            &&& result matches Err(error) && error@ == failure
            &&& after == before
        },
        None => if before.root.base_wal_seq >= snapshot.target_wal_seq@ {
            result is Ok && after == before
        } else {
            moves_root(
                before,
                after,
                result,
                root,
                before.debt - snapshot.wal_debt_bytes,
            )
        },
    }
}

/// A retired extent is a piece of its record.
pub open spec fn retired_fits(entry: RetiredOverlayExtent) -> bool {
    &&& entry.start < entry.end
    &&& entry.record.wf()
    &&& entry.record_offset + (entry.end - entry.start) <= entry.record.payload().len()
    &&& entry.record.payload().len() <= u32::MAX
}

proof fn lemma_retired_fits(
    extents: Seq<ExtentEntry<OverlayExtent>>,
    through: int,
    retired: Seq<RetiredOverlayExtent>,
)
    requires
        overlays(extents),
        retires(extents, through, retired),
    ensures
        forall|i: int| 0 <= i < retired.len() ==> retired_fits(#[trigger] retired[i]),
{
    assert forall|i: int| 0 <= i < retired.len() implies retired_fits(#[trigger] retired[i]) by {
        assert(retired_from(extents, through, retired[i]));
        let j = choose|j: int|
            0 <= j < extents.len() && (#[trigger] extents[j]).value.seq@ <= through && retired[i]
                == as_retired(extents[j]);
        assert(from_record(extents[j]));
        let span = extents[j].value.record.span();
        span.lemma_bounds(span);
    }
}

/// Adding a retired extent keeps the cache well formed and uses at most one identity per byte.
proof fn lemma_retired_cached(cache: CacheView, entry: RetiredOverlayExtent)
    requires
        cache.wf(),
        0 <= cache.max_bytes,
        0 <= cache.next_object_id,
        cache.next_object_id + (entry.end - entry.start) <= u64::MAX,
        retired_fits(entry),
    ensures
        retired_cached(cache, entry).wf(),
        retired_cached(cache, entry).max_bytes == cache.max_bytes,
        0 <= retired_cached(cache, entry).next_object_id,
        retired_cached(cache, entry).next_object_id <= cache.next_object_id + (entry.end
            - entry.start),
{
    let start = entry.start as int;
    let end = entry.end as int;
    ByteRange::lemma_between(start, end);
    lemma_inserted(
        cache,
        ByteRange::between(start, end),
        entry.record.payload().subrange(
            entry.record_offset as int,
            entry.record_offset + (end - start),
        ),
        Origin::Record {
            number: entry.record.number(),
            data: entry.record.payload(),
            offset: entry.record_offset as int,
        },
        CacheInsertPlacement::Cold,
    );
}

proof fn lemma_all_retired_wf(cache: CacheView, retired: Seq<RetiredOverlayExtent>)
    requires
        cache.wf(),
        0 <= cache.max_bytes,
        0 <= cache.next_object_id,
        cache.next_object_id + retired_bytes(retired) <= u64::MAX,
        forall|i: int| 0 <= i < retired.len() ==> retired_fits(#[trigger] retired[i]),
    ensures
        all_retired(cache, retired).0.wf(),
        all_retired(cache, retired).0.max_bytes == cache.max_bytes,
        0 <= all_retired(cache, retired).0.next_object_id,
        all_retired(cache, retired).0.next_object_id <= cache.next_object_id + retired_bytes(
            retired,
        ),
        retired_bytes(retired) >= 0,
    decreases retired.len(),
{
    if retired.len() > 0 {
        let front = retired.drop_last();
        assert(forall|i: int| 0 <= i < front.len() ==> front[i] == retired[i]);
        assert(retired_fits(retired[retired.len() - 1]));
        lemma_all_retired_wf(cache, front);
        let (before, whole) = all_retired(cache, front);
        if whole {
            lemma_retired_cached(before, retired.last());
        }
    }
}

/// The bytes of a position that a retired extent covers.
spec fn retired_covers(entry: RetiredOverlayExtent, position: int) -> bool {
    entry.start <= position < entry.end
}

/// Adding a retired extent changes only its own positions, to its own bytes.
proof fn lemma_retired_cached_byte(cache: CacheView, entry: RetiredOverlayExtent, position: int)
    requires
        cache.wf(),
        0 <= cache.max_bytes,
        0 <= cache.next_object_id,
        cache.next_object_id + (entry.end - entry.start) <= u64::MAX,
        retired_fits(entry),
    ensures
        ({
            let after = retired_cached(cache, entry).byte_at(position);
            &&& !retired_covers(entry, position) ==> after is None || after == cache.byte_at(
                position,
            )
            &&& cacheable(entry) && retired_covers(entry, position) ==> after is None || after
                == Some(
                entry.record.payload()[entry.record_offset + (position - entry.start)],
            )
        }),
{
    let start = entry.start as int;
    let end = entry.end as int;
    ByteRange::lemma_between(start, end);
    let range = ByteRange::between(start, end);
    law_insertion_never_changes_a_byte(
        cache,
        range,
        entry.record.payload().subrange(
            entry.record_offset as int,
            entry.record_offset + (end - start),
        ),
        Origin::Record {
            number: entry.record.number(),
            data: entry.record.payload(),
            offset: entry.record_offset as int,
        },
        CacheInsertPlacement::Cold,
        position,
    );
}

/// A position that no retired extent covers keeps its cached byte or loses it.
proof fn lemma_all_retired_outside(
    cache: CacheView,
    retired: Seq<RetiredOverlayExtent>,
    position: int,
)
    requires
        cache.wf(),
        0 <= cache.max_bytes,
        0 <= cache.next_object_id,
        cache.next_object_id + retired_bytes(retired) <= u64::MAX,
        forall|i: int| 0 <= i < retired.len() ==> retired_fits(#[trigger] retired[i]),
        forall|i: int| 0 <= i < retired.len() ==> !retired_covers(#[trigger] retired[i], position),
    ensures
        all_retired(cache, retired).0.byte_at(position) is None || all_retired(
            cache,
            retired,
        ).0.byte_at(position) == cache.byte_at(position),
    decreases retired.len(),
{
    if retired.len() > 0 {
        let front = retired.drop_last();
        assert(forall|i: int| 0 <= i < front.len() ==> front[i] == retired[i]);
        assert(retired_fits(retired[retired.len() - 1]));
        assert(!retired_covers(retired[retired.len() - 1], position));
        lemma_all_retired_wf(cache, front);
        lemma_all_retired_outside(cache, front, position);
        let (before, whole) = all_retired(cache, front);
        if whole {
            lemma_retired_cached_byte(before, retired.last(), position);
        }
    }
}

/// A position that a retired extent covers shows the extent's byte or nothing.
proof fn lemma_all_retired_inside(
    cache: CacheView,
    retired: Seq<RetiredOverlayExtent>,
    index: int,
    position: int,
)
    requires
        cache.wf(),
        0 <= cache.max_bytes,
        0 <= cache.next_object_id,
        cache.next_object_id + retired_bytes(retired) <= u64::MAX,
        forall|i: int| 0 <= i < retired.len() ==> retired_fits(#[trigger] retired[i]),
        0 <= index < retired.len(),
        retired_covers(retired[index], position),
        forall|i: int|
            0 <= i < retired.len() && i != index ==> !retired_covers(
                #[trigger] retired[i],
                position,
            ),
        all_retired(cache, retired).1,
    ensures
        all_retired(cache, retired).0.byte_at(position) is None || all_retired(
            cache,
            retired,
        ).0.byte_at(position) == Some(
            retired[index].record.payload()[retired[index].record_offset + (position
                - retired[index].start)],
        ),
    decreases retired.len(),
{
    let front = retired.drop_last();
    let last = retired.len() - 1;
    assert(forall|i: int| 0 <= i < front.len() ==> front[i] == retired[i]);
    assert(retired_fits(retired[last]));
    lemma_all_retired_wf(cache, front);
    let (before, whole) = all_retired(cache, front);
    lemma_retired_cached_byte(before, retired.last(), position);
    if index < last {
        lemma_all_retired_inside(cache, front, index, position);
        assert(!retired_covers(retired[last], position));
    }
}

/// Whether a write up to `through` shows at the position.
spec fn shows_up_to(
    extents: Seq<ExtentEntry<OverlayExtent>>,
    through: int,
    position: int,
) -> bool {
    shown_at(extents, position) is Some && (shown_at(extents, position)->0).0 <= through
}

/// Retired extents cover exactly the positions at which a write up to `through` shows, each one
/// once, with the byte that shows.
proof fn lemma_retired_positions(
    extents: Seq<ExtentEntry<OverlayExtent>>,
    through: int,
    retired: Seq<RetiredOverlayExtent>,
    position: int,
) -> (index: int)
    requires
        overlays(extents),
        retires(extents, through, retired),
    ensures
        shows_up_to(extents, through, position) ==> {
            &&& 0 <= index < retired.len()
            &&& retired_covers(retired[index], position)
            &&& (shown_at(extents, position)->0).1
                == retired[index].record.payload()[retired[index].record_offset + (position
                - retired[index].start)]
            &&& forall|i: int|
                0 <= i < retired.len() && i != index ==> !retired_covers(
                    #[trigger] retired[i],
                    position,
                )
        },
        !shows_up_to(extents, through, position) ==> forall|i: int|
            0 <= i < retired.len() ==> !retired_covers(#[trigger] retired[i], position),
{
    let mut index: int = 0;
    if value_at(extents, position) is Some {
        let j = lemma_value_at_source(extents, position);
        assert(from_record(extents[j]));
        lemma_value_at_covered(extents, j, position);
        if extents[j].value.seq@ <= through {
            let entry = as_retired(extents[j]);
            assert(retired.contains(entry));
            index = choose|i: int| 0 <= i < retired.len() && retired[i] == entry;
        }
    }
    assert forall|i: int|
        0 <= i < retired.len() && retired_covers(#[trigger] retired[i], position) implies (i
        == index && shows_up_to(extents, through, position)) by {
        assert(retired_from(extents, through, retired[i]));
        let k = choose|k: int|
            0 <= k < extents.len() && (#[trigger] extents[k]).value.seq@ <= through && retired[i]
                == as_retired(extents[k]);
        assert(from_record(extents[k]));
        lemma_value_at_covered(extents, k, position);
        let j = lemma_value_at_source(extents, position);
        if j < k {
            assert(extents[j].end <= extents[k].start);
        }
        if k < j {
            assert(extents[k].end <= extents[j].start);
        }
        assert(j == k);
        if i < index {
            assert(before_in_log(retired[i], retired[index]));
        }
        if index < i {
            assert(before_in_log(retired[index], retired[i]));
        }
    }
    index
}

/// Moving the root changes no byte: where the new committed bytes hold the retired writes that show,
/// and the old committed bytes where no write shows, every position reads as before. What they hold
/// below a newer write does not matter.
pub proof fn law_moving_the_root_changes_no_byte(
    before: ReadViewModel,
    after: ReadViewModel,
    result: Result<()>,
    root: RootView,
    debt: int,
    committed: spec_fn(int) -> u8,
    moved: spec_fn(int) -> u8,
    position: int,
)
    requires
        before.retains(),
        before.cache.wf(),
        0 <= before.cache.max_bytes,
        0 <= before.cache.next_object_id,
        before.cache.next_object_id + covered_bytes(before.overlay) <= u64::MAX,
        before.faithful(committed),
        moves_root(before, after, result, root, debt),
        forall|p: int|
            (match shown_at(before.overlay, p) {
                Some((number, byte)) => number <= root.base_wal_seq ==> #[trigger] moved(p) == byte,
                None => moved(p) == committed(p),
            }),
    ensures
        result is Ok ==> after.faithful(moved) && after.content(moved, position)
            == before.content(committed, position),
        result is Err ==> after.faithful(committed) && after.content(committed, position)
            == before.content(committed, position),
{
    let through = root.base_wal_seq;
    let retired = choose|retired: Seq<RetiredOverlayExtent>| #[trigger]
        retires(before.overlay, through, retired) && {
            let (cache, whole) = all_retired(before.cache, retired);
            match result {
                Ok(_) => whole && after == advanced(before, root, cache, debt),
                Err(error) => !whole && error@ == block_overflow() && after == (ReadViewModel {
                    cache,
                    ..before
                }),
            }
        };
    lemma_retired_fits(before.overlay, through, retired);
    lemma_retires_bytes(before.overlay, through, retired);
    lemma_newer(before.overlay, through);
    if result is Ok {
        assert forall|p: int|
            shown_at(after.overlay, p) is None && #[trigger] after.cache.byte_at(
                p,
            ) is Some implies after.cache.byte_at(p)->0 == moved(p) by {
            let index = lemma_retired_positions(before.overlay, through, retired, p);
            assert(shown_at(newer(before.overlay, through), p) is None);
            match shown_at(before.overlay, p) {
                Some((number, byte)) => {
                    lemma_all_retired_inside(before.cache, retired, index, p);
                },
                None => {
                    lemma_all_retired_outside(before.cache, retired, p);
                    assert(before.cache.byte_at(p) is Some);
                },
            }
        }
        assert(shown_at(newer(before.overlay, through), position) == (match shown_at(
            before.overlay,
            position,
        ) {
            Some((number, byte)) => if number <= through {
                None
            } else {
                Some((number, byte))
            },
            None => None,
        }));
    } else {
        assert forall|p: int|
            shown_at(after.overlay, p) is None && #[trigger] after.cache.byte_at(
                p,
            ) is Some implies after.cache.byte_at(p)->0 == committed(p) by {
            let index = lemma_retired_positions(before.overlay, through, retired, p);
            lemma_all_retired_outside(before.cache, retired, p);
            assert(before.cache.byte_at(p) is Some);
        }
    }
}

// ---------------------------------------------------------------------------
// Learning from a read
// ---------------------------------------------------------------------------

/// The cache after the bytes of a hole were added, out of `data` that starts at `first`.
pub open spec fn hole_cached(
    cache: CacheView,
    hole: (int, int),
    first: int,
    data: Seq<u8>,
) -> CacheView {
    inserted(
        cache,
        ByteRange::between(hole.0, hole.1),
        data.subrange(hole.0 - first, hole.1 - first),
        Origin::Fill,
        CacheInsertPlacement::Hot,
    )
}

/// The cache after the bytes of holes were added, up to the first one that cannot be cached
/// whole, and whether all could.
pub open spec fn holes_cached(
    cache: CacheView,
    holes: Seq<(int, int)>,
    first: int,
    data: Seq<u8>,
) -> (CacheView, bool)
    decreases holes.len(),
{
    if holes.len() == 0 {
        (cache, true)
    } else {
        let (before, whole) = holes_cached(cache, holes.drop_last(), first, data);
        if whole {
            (
                hole_cached(before, holes.last(), first, data),
                !reaches_last_block(ByteRange::between(holes.last().0, holes.last().1)),
            )
        } else {
            (before, false)
        }
    }
}

/// The cache after a run of committed data was added where nothing is retained or cached. Runs of
/// zeros are not cached.
pub open spec fn part_cached(
    cache: CacheView,
    overlay: Seq<ExtentEntry<OverlayExtent>>,
    part: BlockPart,
) -> (CacheView, bool) {
    match part {
        BlockPart::Zero { .. } => (cache, true),
        BlockPart::Data { .. } => holes_cached(
            cache,
            tree_misses(overlay, cache, part.span().first(), part.span().limit()),
            part.span().first(),
            part.content(),
        ),
    }
}

/// The cache after runs were added, up to the first one that cannot be cached whole.
pub open spec fn parts_cached(
    cache: CacheView,
    overlay: Seq<ExtentEntry<OverlayExtent>>,
    parts: Seq<BlockPart>,
) -> (CacheView, bool)
    decreases parts.len(),
{
    if parts.len() == 0 {
        (cache, true)
    } else {
        let (before, whole) = parts_cached(cache, overlay, parts.drop_last());
        if whole {
            part_cached(before, overlay, parts.last())
        } else {
            (before, false)
        }
    }
}

/// The cache after blocks were added, up to the first one that cannot be cached whole.
pub open spec fn blocks_cached(
    cache: CacheView,
    overlay: Seq<ExtentEntry<OverlayExtent>>,
    blocks: Seq<Block>,
) -> (CacheView, bool)
    decreases blocks.len(),
{
    if blocks.len() == 0 {
        (cache, true)
    } else {
        let (before, whole) = blocks_cached(cache, overlay, blocks.drop_last());
        if whole {
            parts_cached(before, overlay, blocks.last().runs())
        } else {
            (before, false)
        }
    }
}

/// The bytes of runs.
pub open spec fn part_bytes(parts: Seq<BlockPart>) -> int
    decreases parts.len(),
{
    if parts.len() == 0 {
        0
    } else {
        part_bytes(parts.drop_last()) + parts.last().span().size()
    }
}

/// The bytes of blocks.
pub open spec fn block_bytes(blocks: Seq<Block>) -> int
    decreases blocks.len(),
{
    if blocks.len() == 0 {
        0
    } else {
        block_bytes(blocks.drop_last()) + part_bytes(blocks.last().runs())
    }
}

/// The cache can be extended by insertions of `bytes` bytes.
pub open spec fn extendable(cache: CacheView, bytes: int) -> bool {
    &&& cache.wf()
    &&& 0 <= cache.max_bytes
    &&& 0 <= cache.next_object_id
    &&& cache.next_object_id + bytes <= u64::MAX
}

/// Holes of data that starts at `first`.
spec fn holes_fit(holes: Seq<(int, int)>, first: int, data: Seq<u8>) -> bool {
    &&& 0 <= first
    &&& first + data.len() <= u64::MAX
    &&& data.len() <= u32::MAX
    &&& forall|i: int|
        0 <= i < holes.len() ==> first <= (#[trigger] holes[i]).0 && holes[i].0 < holes[i].1
            && holes[i].1 <= first + data.len()
}

proof fn lemma_holes_cached(
    cache: CacheView,
    holes: Seq<(int, int)>,
    first: int,
    data: Seq<u8>,
)
    requires
        holes_fit(holes, first, data),
        extendable(cache, run_bytes(holes)),
    ensures
        ({
            let after = holes_cached(cache, holes, first, data).0;
            &&& after.wf()
            &&& after.max_bytes == cache.max_bytes
            &&& 0 <= after.next_object_id
            &&& after.next_object_id <= cache.next_object_id + run_bytes(holes)
            &&& 0 <= run_bytes(holes)
            &&& forall|p: int| #[trigger]
                after.byte_at(p) is Some ==> after.byte_at(p) == cache.byte_at(p) || (in_runs(
                    holes,
                    p,
                ) && after.byte_at(p) == Some(data[p - first]))
        }),
    decreases holes.len(),
{
    if holes.len() > 0 {
        let front = holes.drop_last();
        let last = holes.last();
        assert(holes[holes.len() - 1] == last);
        assert(forall|i: int| 0 <= i < front.len() ==> front[i] == holes[i]);
        assert(run_bytes(front) <= run_bytes(holes));
        lemma_holes_cached(cache, front, first, data);
        let (before, whole) = holes_cached(cache, front, first, data);
        let after = holes_cached(cache, holes, first, data).0;
        let source = data.subrange(last.0 - first, last.1 - first);
        ByteRange::lemma_between(last.0, last.1);
        let range = ByteRange::between(last.0, last.1);
        if whole {
            lemma_inserted(before, range, source, Origin::Fill, CacheInsertPlacement::Hot);
        }
        assert forall|p: int| #[trigger] after.byte_at(p) is Some implies after.byte_at(p)
            == cache.byte_at(p) || (in_runs(holes, p) && after.byte_at(p) == Some(
            data[p - first],
        )) by {
            if whole {
                law_insertion_never_changes_a_byte(
                    before,
                    range,
                    source,
                    Origin::Fill,
                    CacheInsertPlacement::Hot,
                    p,
                );
            }
            if before.byte_at(p) is Some && in_runs(front, p) {
                let i = choose|i: int|
                    0 <= i < front.len() && (#[trigger] front[i]).0 <= p < front[i].1;
                assert(holes[i] == front[i]);
            }
        }
    }
}

/// A run of data fits its positions.
spec fn part_fits(part: BlockPart) -> bool {
    part.content().len() == part.span().size() && part.span().limit() <= u64::MAX
}

/// What adding to the cache may change: a byte is as it was, or is the given one where no
/// retained write shows.
spec fn learns(
    before: CacheView,
    after: CacheView,
    overlay: Seq<ExtentEntry<OverlayExtent>>,
    committed: spec_fn(int) -> u8,
) -> bool {
    forall|p: int| #[trigger]
        after.byte_at(p) is Some ==> after.byte_at(p) == before.byte_at(p) || (shown_at(
            overlay,
            p,
        ) is None && after.byte_at(p) == Some(committed(p)))
}

/// The bytes of a run are the committed ones.
pub open spec fn part_matches(part: BlockPart, committed: spec_fn(int) -> u8) -> bool {
    forall|p: int|
        part.span().covers(p) ==> #[trigger] part.content()[p - part.span().first()] == committed(p)
}

proof fn lemma_part_cached(
    cache: CacheView,
    overlay: Seq<ExtentEntry<OverlayExtent>>,
    part: BlockPart,
)
    requires
        part_fits(part),
        extendable(cache, part.span().size()),
    ensures
        ({
            let after = part_cached(cache, overlay, part).0;
            &&& after.wf()
            &&& after.max_bytes == cache.max_bytes
            &&& 0 <= after.next_object_id
            &&& after.next_object_id <= cache.next_object_id + part.span().size()
            &&& forall|committed: spec_fn(int) -> u8|
                part_matches(part, committed) ==> #[trigger] learns(
                    cache,
                    after,
                    overlay,
                    committed,
                )
        }),
{
    let first = part.span().first();
    let limit = part.span().limit();
    part.span().lemma_bounds(part.span());
    if part is Data {
        let holes = tree_misses(overlay, cache, first, limit);
        let by_either = |p: int| shown_at(overlay, p) is Some || cache.byte_at(p) is Some;
        lemma_runs(first, limit, by_either);
        lemma_run_bytes(holes, first, limit);
        lemma_holes_cached(cache, holes, first, part.content());
        let after = part_cached(cache, overlay, part).0;
        assert forall|committed: spec_fn(int) -> u8| part_matches(
            part,
            committed,
        ) implies #[trigger] learns(cache, after, overlay, committed) by {
            assert forall|p: int| #[trigger] after.byte_at(p) is Some implies after.byte_at(p)
                == cache.byte_at(p) || (shown_at(overlay, p) is None && after.byte_at(p) == Some(
                committed(p),
            )) by {
                if after.byte_at(p) != cache.byte_at(p) {
                    let k = choose|k: int|
                        0 <= k < holes.len() && (#[trigger] holes[k]).0 <= p < holes[k].1;
                    lemma_run_uncovered(first, limit, by_either, k, p);
                    assert(part.span().covers(p));
                    assert(part.content()[p - first] == committed(p));
                }
            }
        }
    }
}

proof fn lemma_parts_cached(
    cache: CacheView,
    overlay: Seq<ExtentEntry<OverlayExtent>>,
    parts: Seq<BlockPart>,
)
    requires
        forall|i: int| 0 <= i < parts.len() ==> part_fits(#[trigger] parts[i]),
        extendable(cache, part_bytes(parts)),
    ensures
        ({
            let after = parts_cached(cache, overlay, parts).0;
            &&& after.wf()
            &&& after.max_bytes == cache.max_bytes
            &&& 0 <= after.next_object_id
            &&& after.next_object_id <= cache.next_object_id + part_bytes(parts)
            &&& part_bytes(parts) >= 0
            &&& forall|committed: spec_fn(int) -> u8|
                (forall|i: int|
                    0 <= i < parts.len() ==> part_matches(#[trigger] parts[i], committed))
                    ==> #[trigger] learns(cache, after, overlay, committed)
        }),
    decreases parts.len(),
{
    if parts.len() > 0 {
        let front = parts.drop_last();
        let last = parts.len() - 1;
        assert(forall|i: int| 0 <= i < front.len() ==> front[i] == parts[i]);
        assert(part_fits(parts[last]));
        parts.last().span().lemma_bounds(parts.last().span());
        assert(part_bytes(parts) == part_bytes(front) + parts.last().span().size());
        lemma_parts_cached(cache, overlay, front);
        let (before, whole) = parts_cached(cache, overlay, front);
        let after = parts_cached(cache, overlay, parts).0;
        if whole {
            lemma_part_cached(before, overlay, parts.last());
        }
        assert forall|committed: spec_fn(int) -> u8|
            (forall|i: int|
                0 <= i < parts.len() ==> part_matches(
                    #[trigger] parts[i],
                    committed,
                )) implies #[trigger] learns(cache, after, overlay, committed) by {
            assert(part_matches(parts[last], committed));
            assert forall|i: int| 0 <= i < front.len() implies part_matches(
                #[trigger] front[i],
                committed,
            ) by {
                assert(part_matches(parts[i], committed));
            }
            assert(learns(cache, before, overlay, committed));
            if whole {
                assert(learns(before, after, overlay, committed));
                assert forall|p: int| #[trigger] after.byte_at(p) is Some implies after.byte_at(p)
                    == cache.byte_at(p) || (shown_at(overlay, p) is None && after.byte_at(p)
                    == Some(committed(p))) by {
                    if after.byte_at(p) == before.byte_at(p) {
                        assert(before.byte_at(p) is Some);
                    }
                }
            }
        }
    }
}

proof fn lemma_block_parts(block: Block)
    requires
        block.wf(),
    ensures
        forall|i: int| 0 <= i < block.runs().len() ==> part_fits(#[trigger] block.runs()[i]),
{
    crate::block::lemma_parts_fill(block.span(), block.runs(), 0);
}

/// The bytes of a block are the committed ones.
pub open spec fn block_matches(block: Block, committed: spec_fn(int) -> u8) -> bool {
    forall|p: int|
        block.span().covers(p) ==> #[trigger] block.content()[p - block.span().first()]
            == committed(p)
}

proof fn lemma_block_parts_match(block: Block, committed: spec_fn(int) -> u8)
    requires
        block.wf(),
        block_matches(block, committed),
    ensures
        forall|i: int|
            0 <= i < block.runs().len() ==> part_matches(#[trigger] block.runs()[i], committed),
{
    assert forall|i: int| 0 <= i < block.runs().len() implies part_matches(
        #[trigger] block.runs()[i],
        committed,
    ) by {
        let part = block.runs()[i];
        assert forall|p: int| part.span().covers(p) implies #[trigger] part.content()[p
            - part.span().first()] == committed(p) by {
            block.law_block_is_its_runs(i, p);
            assert(block.content()[p - block.span().first()] == committed(p));
        }
    }
}

proof fn lemma_blocks_cached(
    cache: CacheView,
    overlay: Seq<ExtentEntry<OverlayExtent>>,
    blocks: Seq<Block>,
)
    requires
        forall|i: int| 0 <= i < blocks.len() ==> (#[trigger] blocks[i]).wf(),
        extendable(cache, block_bytes(blocks)),
    ensures
        ({
            let after = blocks_cached(cache, overlay, blocks).0;
            &&& after.wf()
            &&& after.max_bytes == cache.max_bytes
            &&& 0 <= after.next_object_id
            &&& after.next_object_id <= cache.next_object_id + block_bytes(blocks)
            &&& block_bytes(blocks) >= 0
            &&& forall|committed: spec_fn(int) -> u8|
                (forall|i: int|
                    0 <= i < blocks.len() ==> block_matches(#[trigger] blocks[i], committed))
                    ==> #[trigger] learns(cache, after, overlay, committed)
        }),
    decreases blocks.len(),
{
    if blocks.len() > 0 {
        let front = blocks.drop_last();
        let last = blocks.len() - 1;
        assert(forall|i: int| 0 <= i < front.len() ==> front[i] == blocks[i]);
        assert(blocks[last].wf());
        lemma_block_parts(blocks.last());
        lemma_part_bytes_nonnegative(blocks.last().runs());
        assert(block_bytes(blocks) == block_bytes(front) + part_bytes(blocks.last().runs()));
        lemma_blocks_cached(cache, overlay, front);
        let (before, whole) = blocks_cached(cache, overlay, front);
        let after = blocks_cached(cache, overlay, blocks).0;
        if whole {
            lemma_parts_cached(before, overlay, blocks.last().runs());
        }
        assert forall|committed: spec_fn(int) -> u8|
            (forall|i: int|
                0 <= i < blocks.len() ==> block_matches(
                    #[trigger] blocks[i],
                    committed,
                )) implies #[trigger] learns(cache, after, overlay, committed) by {
            assert(block_matches(blocks[last], committed));
            lemma_block_parts_match(blocks.last(), committed);
            assert forall|i: int| 0 <= i < front.len() implies block_matches(
                #[trigger] front[i],
                committed,
            ) by {
                assert(block_matches(blocks[i], committed));
            }
            assert(learns(cache, before, overlay, committed));
            if whole {
                assert(learns(before, after, overlay, committed));
                assert forall|p: int| #[trigger] after.byte_at(p) is Some implies after.byte_at(p)
                    == cache.byte_at(p) || (shown_at(overlay, p) is None && after.byte_at(p)
                    == Some(committed(p))) by {
                    if after.byte_at(p) == before.byte_at(p) {
                        assert(before.byte_at(p) is Some);
                    }
                }
            }
        }
    }
}

proof fn lemma_part_bytes_nonnegative(parts: Seq<BlockPart>)
    ensures
        part_bytes(parts) >= 0,
    decreases parts.len(),
{
    if parts.len() > 0 {
        lemma_part_bytes_nonnegative(parts.drop_last());
        parts.last().span().lemma_bounds(parts.last().span());
    }
}

/// The cache after objects were used.
pub open spec fn cache_promoted(cache: CacheView, hits: Seq<CacheObjectId>) -> CacheView {
    CacheView { lru: all_promoted(cache.lru, hits), ..cache }
}

/// What the view learns from a read: the objects it used are used last, and where the root is
/// still the same, the committed runs it was given are cached.
pub open spec fn learned(
    view: ReadViewModel,
    root: RootView,
    hits: Seq<CacheObjectId>,
    blocks: Seq<Block>,
) -> (ReadViewModel, bool) {
    let promoted = cache_promoted(view.cache, hits);
    if root == view.root {
        let (cache, whole) = blocks_cached(promoted, view.overlay, blocks);
        (ReadViewModel { cache, ..view }, whole)
    } else {
        (ReadViewModel { cache: promoted, ..view }, true)
    }
}

/// A read gives back the bytes of the view: the latest retained write, else the committed byte.
pub proof fn law_read_returns_the_content(
    plan: ReadPlanView,
    view: ReadViewModel,
    committed: spec_fn(int) -> u8,
    position: int,
)
    requires
        plan.overlay == view.overlay,
        plan.cache == view.cache,
        view.faithful(committed),
        forall|i: int|
            0 <= i < plan.blocks.len() ==> block_matches(#[trigger] plan.blocks[i], committed),
        plan.byte_at(position) is Some,
    ensures
        plan.byte_at(position) == Some(view.content(committed, position)),
{
    if shown_at(view.overlay, position) is None && view.cache.byte_at(position) is None {
        lemma_block_byte_matches(plan.blocks, committed, position);
    }
}

proof fn lemma_block_byte_matches(
    blocks: Seq<Block>,
    committed: spec_fn(int) -> u8,
    position: int,
)
    requires
        forall|i: int| 0 <= i < blocks.len() ==> block_matches(#[trigger] blocks[i], committed),
        block_byte(blocks, position) is Some,
    ensures
        block_byte(blocks, position) == Some(committed(position)),
    decreases blocks.len(),
{
    let last = blocks.len() - 1;
    assert(block_matches(blocks[last], committed));
    if blocks.last().span().covers(position) {
        let block = blocks.last();
        assert(block.content()[position - block.span().first()] == committed(position));
    } else {
        let front = blocks.drop_last();
        assert forall|i: int| 0 <= i < front.len() implies block_matches(
            #[trigger] front[i],
            committed,
        ) by {
            assert(block_matches(blocks[i], committed));
        }
        lemma_block_byte_matches(front, committed, position);
    }
}

/// What a view learns from a read changes no byte.
pub proof fn law_learning_changes_no_byte(
    view: ReadViewModel,
    root: RootView,
    hits: Seq<CacheObjectId>,
    blocks: Seq<Block>,
    committed: spec_fn(int) -> u8,
    position: int,
)
    requires
        view.faithful(committed),
        extendable(view.cache, block_bytes(blocks)),
        forall|i: int| 0 <= i < blocks.len() ==> (#[trigger] blocks[i]).wf(),
        root == view.root ==> forall|i: int|
            0 <= i < blocks.len() ==> block_matches(#[trigger] blocks[i], committed),
    ensures
        learned(view, root, hits, blocks).0.faithful(committed),
        learned(view, root, hits, blocks).0.content(committed, position) == view.content(
            committed,
            position,
        ),
{
    let promoted = cache_promoted(view.cache, hits);
    lemma_promoted_wf(view.cache, hits);
    let after = learned(view, root, hits, blocks).0;
    if root == view.root {
        lemma_blocks_cached(promoted, view.overlay, blocks);
        assert(learns(promoted, after.cache, view.overlay, committed));
    }
    assert forall|p: int|
        shown_at(after.overlay, p) is None && #[trigger] after.cache.byte_at(
            p,
        ) is Some implies after.cache.byte_at(p)->0 == committed(p) by {
        assert(promoted.byte_at(p) == view.cache.byte_at(p));
    }
}

proof fn lemma_promoted_wf(cache: CacheView, hits: Seq<CacheObjectId>)
    requires
        cache.wf(),
    ensures
        cache_promoted(cache, hits).wf(),
{
    crate::read_cache::lemma_all_promoted(cache.lru, hits);
}

// ---------------------------------------------------------------------------
// The view
// ---------------------------------------------------------------------------

/// The view of a root that holds nothing yet.
pub open spec fn fresh_view(root: RootView, cache: CacheView) -> ReadViewModel {
    ReadViewModel {
        root,
        last_applied: root.base_wal_seq,
        debt: 0,
        overlay: Seq::empty(),
        cache,
    }
}

/// The cache is empty and has the given budget.
pub open spec fn empty_cache(cache: CacheView, max_bytes: int) -> bool {
    &&& cache.extents.len() == 0
    &&& cache.objects.len() == 0
    &&& cache.lru.len() == 0
    &&& cache.next_object_id == 1
    &&& cache.max_bytes == max_bytes
}

/// What a compaction is given to work on.
pub open spec fn captures(
    view: ReadViewModel,
    snapshot: Option<ReadViewCompactionSnapshot>,
) -> bool {
    match snapshot {
        Some(snapshot) => {
            &&& view.last_applied > view.root.base_wal_seq
            &&& view.overlay.len() > 0
            &&& snapshot.root@ == view.root
            &&& snapshot.target_wal_seq@ == view.last_applied
            &&& snapshot.wal_debt_bytes == view.debt
            &&& snapshot.overlay@ == view.overlay
        },
        None => view.last_applied <= view.root.base_wal_seq || view.overlay.len() == 0,
    }
}

impl ExportReadView {
    /// The cache's charge is what its objects take.
    pub closed spec fn counted(self) -> bool {
        self.cache.counted()
    }

    /// Retained writes are in bounds, and the cache is well formed.
    pub open spec fn wf(self) -> bool {
        &&& self.counted()
        &&& self@.retains()
        &&& self@.cache.wf()
        &&& 0 <= self@.cache.next_object_id <= u64::MAX
        &&& 0 <= self@.cache.max_bytes
        &&& 0 <= self@.root.base_wal_seq <= u64::MAX
        &&& 0 <= self@.root.size_bytes <= u64::MAX
        &&& 0 <= self@.last_applied <= u64::MAX
        &&& 0 <= self@.debt <= u64::MAX
    }

    /// A view of a root with the usual cache.
    pub fn new(root: RootSnapshot) -> (view: Self)
        ensures
            view.wf(),
            view@ == fresh_view(root@, view@.cache),
            empty_cache(view@.cache, DEFAULT_READ_CACHE_BYTES as int),
    {
        Self::new_with_cache_budget(root, DEFAULT_READ_CACHE_BYTES)
    }

    /// A view of a root whose cache holds up to `cache_bytes` bytes.
    pub fn new_with_cache_budget(root: RootSnapshot, cache_bytes: usize) -> (view: Self)
        ensures
            view.wf(),
            view@ == fresh_view(root@, view@.cache),
            empty_cache(view@.cache, cache_bytes as int),
    {
        proof {
            root.lemma_bounds();
        }
        let last_applied_seq = root.base_wal_seq();
        Self {
            root,
            last_applied_seq,
            wal_debt_bytes: 0,
            overlay: OverlayExtentMap::new(),
            cache: ReadCache::new(cache_bytes),
        }
    }

    /// The head of the committed root.
    pub fn export_head(&self) -> (head: ExportHead)
        ensures
            head.layout_kind == ExportLayoutKind::CowImmutableTree,
            head_view(head) == self@.root,
    {
        self.root.to_export_head()
    }

    /// The committed root.
    pub fn root(&self) -> (root: &RootSnapshot)
        ensures
            root@ == self@.root,
    {
        &self.root
    }

    pub fn last_applied_seq(&self) -> (seq: WalSeq)
        ensures
            seq@ == self@.last_applied,
    {
        self.last_applied_seq
    }

    /// The log bytes that the committed root does not hold yet.
    pub fn wal_debt_bytes(&self) -> (bytes: u64)
        ensures
            bytes == self@.debt,
    {
        self.wal_debt_bytes
    }

    /// The retained writes.
    pub fn overlay(&self) -> (overlay: &OverlayExtentMap)
        ensures
            overlay@ == self@.overlay,
    {
        &self.overlay
    }

    /// The cached bytes.
    pub fn cache(&self) -> (cache: &ReadCache)
        requires
            self.wf(),
        ensures
            cache@ == self@.cache,
            cache.wf(),
    {
        &self.cache
    }

    /// Whether the cache has identities left to take in the retained writes.
    pub fn can_cache_retained(&self) -> (can: bool)
        requires
            self.wf(),
        ensures
            can == (self@.cache.next_object_id + covered_bytes(self@.overlay) <= u64::MAX),
    {
        let retained: u64 = self.overlay.covered();
        retained <= self.cache.identities_left()
    }

    /// Whether the cache has identities left to take in committed runs.
    pub fn can_cache_blocks(&self, blocks: &Vec<Block>) -> (can: bool)
        requires
            self.wf(),
        ensures
            can == (self@.cache.next_object_id + block_bytes(blocks@) <= u64::MAX),
    {
        match total_bytes(blocks) {
            Some(total) => total <= self.cache.identities_left(),
            None => false,
        }
    }

    /// The retained writes, to be moved into the committed tree. `None` where there are none.
    pub fn capture_compaction_snapshot(&self) -> (snapshot: Option<ReadViewCompactionSnapshot>)
        requires
            self.wf(),
        ensures
            captures(self@, snapshot),
    {
        if self.last_applied_seq.get() <= self.root.base_wal_seq().get() || self.overlay.is_empty() {
            return None;
        }
        Some(
            ReadViewCompactionSnapshot {
                root: self.root.clone(),
                target_wal_seq: self.last_applied_seq,
                wal_debt_bytes: self.wal_debt_bytes,
                overlay: self.overlay.clone(),
            },
        )
    }

    /// Starts a read.
    pub fn plan_read(&self, range: ByteRange) -> (result: Result<ReadPlan>)
        requires
            self.wf(),
        ensures
            match result {
                Ok(plan) => {
                    &&& range.limit() <= self@.root.size_bytes
                    &&& plan.wf()
                    &&& plan@ == (ReadPlanView {
                        root: self@.root,
                        range,
                        overlay: self@.overlay,
                        cache: self@.cache,
                        blocks: Seq::empty(),
                    })
                },
                Err(error) => range.limit() > self@.root.size_bytes && error@ == out_of_bounds(
                    "read"@,
                    range.first(),
                    range.size(),
                    self@.root.size_bytes,
                ),
            },
    {
        match validate_range("read", range, self.root.size_bytes()) {
            Ok(_) => ReadPlan::new(&self.root, &self.overlay, &self.cache, range),
            Err(error) => Err(error),
        }
    }

    /// Takes in what a finished read shows: which cached objects were used, and committed bytes.
    pub fn record_read(&mut self, outcome: &ReadOutcome) -> (result: Result<()>)
        requires
            old(self).wf(),
            old(self)@.cache.next_object_id + block_bytes(outcome.fills@) <= u64::MAX,
        ensures
            final(self).wf(),
            ({
                let (view, whole) = learned(
                    old(self)@,
                    outcome.root@,
                    outcome.hits@,
                    outcome.fills@,
                );
                &&& final(self)@ == view
                &&& match result {
                    Ok(_) => whole,
                    Err(error) => !whole && error@ == block_overflow(),
                }
            }),
    {
        let ghost before = self@;
        self.cache.promote_hits(&outcome.hits);
        let ghost promoted = self.cache@;
        if !self.root.same(&outcome.root) {
            return Ok(());
        }
        let blocks = &outcome.fills;
        let mut index: usize = 0;
        proof {
            assert(blocks@.take(0) =~= Seq::<Block>::empty());
            lemma_block_bytes_take(blocks@);
        }
        while index < blocks.len()
            invariant
                index <= blocks@.len(),
                before == old(self)@,
                blocks@ == outcome.fills@,
                self.cache.wf(),
                self.overlay.wf(),
                self.overlay@ == before.overlay,
                outcome.root@ == before.root,
                before.root == old(self)@.root,
                self@ == (ReadViewModel { cache: self.cache@, ..before }),
                promoted == cache_promoted(before.cache, outcome.hits@),
                (self.cache@, true) == blocks_cached(
                    promoted,
                    before.overlay,
                    blocks@.take(index as int),
                ),
                promoted.next_object_id + block_bytes(blocks@) <= u64::MAX,
                self.cache@.next_object_id <= promoted.next_object_id + block_bytes(
                    blocks@.take(index as int),
                ),
                forall|i: int|
                    0 <= i <= blocks@.len() ==> block_bytes(#[trigger] blocks@.take(i))
                        <= block_bytes(blocks@),
                before.retains(),
                0 <= before.root.base_wal_seq <= u64::MAX,
                0 <= before.root.size_bytes <= u64::MAX,
                0 <= before.last_applied <= u64::MAX,
                0 <= before.debt <= u64::MAX,
            decreases blocks@.len() - index,
        {
            proof {
                assert(blocks@.take(index + 1).drop_last() =~= blocks@.take(index as int));
                assert(blocks@.take(index + 1).last() == blocks@[index as int]);
            }
            match self.insert_tree_block_fills(&blocks[index]) {
                Ok(_) => {},
                Err(error) => {
                    proof {
                        lemma_blocks_stop(promoted, before.overlay, blocks@, index + 1);
                    }
                    return Err(error);
                },
            }
            index = index + 1;
        }
        proof {
            assert(blocks@.take(index as int) =~= blocks@);
        }
        Ok(())
    }

    /// Caches the data of a block where nothing is retained or cached.
    fn insert_tree_block_fills(&mut self, block: &Block) -> (result: Result<()>)
        requires
            old(self).cache.wf(),
            old(self).overlay.wf(),
            old(self).cache@.next_object_id + part_bytes(block.runs()) <= u64::MAX,
        ensures
            final(self).cache.wf(),
            final(self)@ == (ReadViewModel { cache: final(self).cache@, ..old(self)@ }),
            final(self).overlay == old(self).overlay,
            final(self).cache@ == parts_cached(
                old(self).cache@,
                old(self).overlay@,
                block.runs(),
            ).0,
            final(self).cache@.next_object_id <= old(self).cache@.next_object_id + part_bytes(
                block.runs(),
            ),
            match result {
                Ok(_) => parts_cached(old(self).cache@, old(self).overlay@, block.runs()).1,
                Err(error) => !parts_cached(old(self).cache@, old(self).overlay@, block.runs()).1
                    && error@ == block_overflow(),
            },
    {
        let parts = block.parts();
        let ghost before = self.cache@;
        let ghost overlay = self.overlay@;
        proof {
            lemma_block_parts(*block);
            lemma_parts_cached(before, overlay, parts@);
            lemma_part_bytes_take(parts@);
            assert(parts@.take(0) =~= Seq::<BlockPart>::empty());
        }
        let mut index: usize = 0;
        while index < parts.len()
            invariant
                index <= parts@.len(),
                overlay == self.overlay@,
                self.overlay == old(self).overlay,
                before == old(self).cache@,
                parts@ == block.runs(),
                self.cache.wf(),
                self.overlay.wf(),
                self@ == (ReadViewModel { cache: self.cache@, ..old(self)@ }),
                forall|i: int| 0 <= i < parts@.len() ==> part_fits(#[trigger] parts@[i]),
                (self.cache@, true) == parts_cached(before, overlay, parts@.take(index as int)),
                before.next_object_id + part_bytes(parts@) <= u64::MAX,
                self.cache@.next_object_id <= before.next_object_id + part_bytes(
                    parts@.take(index as int),
                ),
                forall|i: int|
                    0 <= i <= parts@.len() ==> part_bytes(#[trigger] parts@.take(i))
                        <= part_bytes(parts@),
                parts_cached(before, overlay, parts@).0.next_object_id <= before.next_object_id
                    + part_bytes(parts@),
            decreases parts@.len() - index,
        {
            proof {
                assert(parts@.take(index + 1).drop_last() =~= parts@.take(index as int));
                assert(parts@.take(index + 1).last() == parts@[index as int]);
                assert(part_fits(parts@[index as int]));
            }
            match self.insert_part(&parts[index]) {
                Ok(_) => {},
                Err(error) => {
                    proof {
                        lemma_parts_stop(before, overlay, parts@, index + 1);
                    }
                    return Err(error);
                },
            }
            index = index + 1;
        }
        proof {
            assert(parts@.take(index as int) =~= parts@);
        }
        Ok(())
    }

    /// Caches the data of a run where nothing is retained or cached.
    fn insert_part(&mut self, part: &BlockPart) -> (result: Result<()>)
        requires
            old(self).cache.wf(),
            old(self).overlay.wf(),
            part_fits(*part),
            old(self).cache@.next_object_id + part.span().size() <= u64::MAX,
        ensures
            final(self).cache.wf(),
            final(self)@ == (ReadViewModel { cache: final(self).cache@, ..old(self)@ }),
            final(self).overlay == old(self).overlay,
            final(self).cache@ == part_cached(old(self).cache@, old(self).overlay@, *part).0,
            final(self).cache@.next_object_id <= old(self).cache@.next_object_id
                + part.span().size(),
            match result {
                Ok(_) => part_cached(old(self).cache@, old(self).overlay@, *part).1,
                Err(error) => !part_cached(old(self).cache@, old(self).overlay@, *part).1 && error@
                    == block_overflow(),
            },
    {
        proof {
            part.span().lemma_bounds(part.span());
            lemma_part_cached(self.cache@, self.overlay@, *part);
        }
        let (range, bytes) = match part {
            BlockPart::Data { range, bytes } => (*range, bytes),
            BlockPart::Zero { .. } => {
                return Ok(());
            },
        };
        let holes = match uncovered_runs(&self.overlay, &self.cache, range) {
            Ok(holes) => holes,
            Err(error) => {
                return Err(error);
            },
        };
        let ghost before = self.cache@;
        let ghost overlay = self.overlay@;
        let ghost first = range.first();
        let ghost data = part.content();
        let ghost list = bounds(holes@);
        proof {
            let by_either = |p: int| shown_at(overlay, p) is Some || before.byte_at(p) is Some;
            lemma_runs(first, range.limit(), by_either);
            lemma_run_bytes(list, first, range.limit());
            lemma_run_bytes_take(list);
            assert(list.take(0) =~= Seq::<(int, int)>::empty());
        }
        let size: usize = bytes_as_slice(bytes).len();
        let mut index: usize = 0;
        while index < holes.len()
            invariant
                index <= holes@.len(),
                self.cache.wf(),
                self.overlay == old(self).overlay,
                before == old(self).cache@,
                overlay == old(self).overlay@,
                self@ == (ReadViewModel { cache: self.cache@, ..old(self)@ }),
                list == bounds(holes@),
                list == tree_misses(overlay, before, first, range.limit()),
                first == range.first(),
                range == part.span(),
                *part is Data,
                data == part.content(),
                data == bytes_contents(*bytes),
                size == data.len(),
                holes_fit(list, first, data),
                part_cached(before, overlay, *part) == holes_cached(before, list, first, data),
                (self.cache@, true) == holes_cached(before, list.take(index as int), first, data),
                self.cache@.next_object_id <= before.next_object_id + run_bytes(
                    list.take(index as int),
                ),
                before.next_object_id + run_bytes(list) <= u64::MAX,
                run_bytes(list) <= part.span().size(),
                part_cached(before, overlay, *part).0.next_object_id <= before.next_object_id
                    + part.span().size(),
                forall|i: int|
                    0 <= i <= list.len() ==> run_bytes(#[trigger] list.take(i)) <= run_bytes(list),
            decreases holes@.len() - index,
        {
            let hole = holes[index];
            proof {
                assert(list[index as int] == (hole.first(), hole.limit()));
                assert(list.take(index + 1).drop_last() =~= list.take(index as int));
                assert(list.take(index + 1).last() == list[index as int]);
                assert(run_bytes(list.take(index + 1)) <= run_bytes(list));
                hole.lemma_bounds(hole);
                ByteRange::lemma_between(hole.first(), hole.limit());
                ByteRange::between(hole.first(), hole.limit()).lemma_bounds(hole);
            }
            let from: u64 = hole.start() - range.start();
            let to: u64 = from + hole.len();
            let piece = bytes_slice(bytes, from as usize, to as usize);
            proof {
                lemma_inserted(
                    self.cache@,
                    hole,
                    bytes_contents(piece),
                    Origin::Fill,
                    CacheInsertPlacement::Hot,
                );
            }
            match self.cache.insert_bytes(hole, piece, CacheInsertPlacement::Hot) {
                Ok(_) => {},
                Err(error) => {
                    proof {
                        lemma_holes_stop(before, list, first, data, index + 1);
                    }
                    return Err(error);
                },
            }
            index = index + 1;
        }
        proof {
            assert(list.take(index as int) =~= list);
        }
        Ok(())
    }

    /// Applies the next record of the log.
    pub fn apply_wal_record(&mut self, record: WalRecord) -> (result: Result<()>)
        requires
            old(self).wf(),
        ensures
            final(self).wf(),
            final(self)@ == (if takes_effect(old(self)@, record) {
                applied(old(self)@, Arc::new(record))
            } else {
                old(self)@
            }),
            match result {
                Ok(_) => apply_error(old(self)@, record) is None,
                Err(error) => apply_error(old(self)@, record) == Some(error@),
            },
    {
        let range = record.range();
        match validate_range("write", range, self.root.size_bytes()) {
            Ok(_) => {},
            Err(error) => {
                return Err(error);
            },
        }
        let number: u64 = record.seq().get();
        if number <= self.root.base_wal_seq().get() {
            return Err(
                ServerError::wal(
                    "apply WAL record",
                    text_with_two_numbers(
                        "record sequence ",
                        number,
                        " is at or before checkpoint ",
                        self.root.base_wal_seq().get(),
                        "",
                    ),
                ),
            );
        }
        let expected: u64 = match self.last_applied_seq.get().checked_add(1) {
            Some(expected) => expected,
            None => {
                return Err(
                    ServerError::wal("apply WAL record", owned("WAL sequence overflowed")),
                );
            },
        };
        if number != expected {
            return Err(
                ServerError::wal(
                    "apply WAL record",
                    text_with_two_numbers(
                        "expected WAL sequence ",
                        expected,
                        ", got ",
                        number,
                        "",
                    ),
                ),
            );
        }
        let size: usize = record.data().len();
        let seq = record.seq();
        let ghost before = self@;
        let record = Arc::new(record);
        proof {
            range.lemma_bounds(range);
            lemma_applied_retains(before, record);
        }
        match self.overlay.insert_record(record) {
            Ok(_) => {},
            Err(error) => {
                return Err(error);
            },
        }
        match self.cache.trim_range(range) {
            Ok(_) => {},
            Err(error) => {
                return Err(error);
            },
        }
        self.last_applied_seq = seq;
        match self.wal_debt_bytes.checked_add(size as u64) {
            Some(debt) => {
                self.wal_debt_bytes = debt;
                Ok(())
            },
            None => Err(ServerError::wal("apply WAL record", owned("WAL debt bytes overflowed"))),
        }
    }
}

/// The sum of the bytes of blocks.
fn total_bytes(blocks: &Vec<Block>) -> (total: Option<u64>)
    ensures
        match total {
            Some(total) => total == block_bytes(blocks@),
            None => block_bytes(blocks@) > u64::MAX,
        },
{
    let mut total: u64 = 0;
    let mut index: usize = 0;
    proof {
        assert(blocks@.take(0) =~= Seq::<Block>::empty());
        lemma_block_bytes_take(blocks@);
    }
    while index < blocks.len()
        invariant
            index <= blocks@.len(),
            total == block_bytes(blocks@.take(index as int)),
            forall|i: int|
                0 <= i <= blocks@.len() ==> block_bytes(#[trigger] blocks@.take(i))
                    <= block_bytes(blocks@),
        decreases blocks@.len() - index,
    {
        let block = &blocks[index];
        let size: u64 = block.range().len();
        proof {
            assert(blocks@.take(index + 1).drop_last() =~= blocks@.take(index as int));
            assert(blocks@.take(index + 1).last() == blocks@[index as int]);
            lemma_part_bytes_is_size(*block);
        }
        match total.checked_add(size) {
            Some(sum) => {
                total = sum;
            },
            None => {
                proof {
                    assert(block_bytes(blocks@.take(index + 1)) <= block_bytes(blocks@));
                }
                return None;
            },
        }
        index = index + 1;
    }
    proof {
        assert(blocks@.take(index as int) =~= blocks@);
    }
    Some(total)
}

/// The runs of a block hold as many bytes as its range.
pub proof fn lemma_part_bytes_is_size(block: Block)
    requires
        block.wf(),
    ensures
        part_bytes(block.runs()) == block.span().size(),
{
    let parts = block.runs();
    let range = block.span();
    lemma_part_bytes_end(range, parts, parts.len() as int);
    crate::block::lemma_parts_fill(range, parts, 0);
    assert(parts.take(parts.len() as int) =~= parts);
}

proof fn lemma_part_bytes_end(range: ByteRange, parts: Seq<BlockPart>, count: int)
    requires
        crate::block::parts_error(range, parts, 0) is None,
        0 <= count <= parts.len(),
    ensures
        part_bytes(parts.take(count)) == crate::block::parts_end(range, parts, count)
            - range.first(),
    decreases count,
{
    crate::block::lemma_parts_fill(range, parts, 0);
    if count > 0 {
        lemma_part_bytes_end(range, parts, count - 1);
        assert(parts.take(count).drop_last() =~= parts.take(count - 1));
        assert(parts.take(count).last() == parts[count - 1]);
    }
}

proof fn lemma_block_bytes_take(blocks: Seq<Block>)
    ensures
        forall|i: int|
            0 <= i <= blocks.len() ==> block_bytes(#[trigger] blocks.take(i)) <= block_bytes(
                blocks,
            ),
    decreases blocks.len(),
{
    if blocks.len() > 0 {
        let front = blocks.drop_last();
        lemma_block_bytes_take(front);
        lemma_part_bytes_nonnegative(blocks.last().runs());
        assert forall|i: int| 0 <= i <= blocks.len() implies block_bytes(#[trigger] blocks.take(i))
            <= block_bytes(blocks) by {
            if i < blocks.len() {
                assert(blocks.take(i) =~= front.take(i));
            } else {
                assert(blocks.take(i) =~= blocks);
            }
        }
    }
}

proof fn lemma_part_bytes_take(parts: Seq<BlockPart>)
    ensures
        forall|i: int|
            0 <= i <= parts.len() ==> part_bytes(#[trigger] parts.take(i)) <= part_bytes(parts),
    decreases parts.len(),
{
    if parts.len() > 0 {
        let front = parts.drop_last();
        lemma_part_bytes_take(front);
        parts.last().span().lemma_bounds(parts.last().span());
        assert forall|i: int| 0 <= i <= parts.len() implies part_bytes(#[trigger] parts.take(i))
            <= part_bytes(parts) by {
            if i < parts.len() {
                assert(parts.take(i) =~= front.take(i));
            } else {
                assert(parts.take(i) =~= parts);
            }
        }
    }
}

proof fn lemma_run_bytes_take(list: Seq<(int, int)>)
    requires
        forall|i: int| 0 <= i < list.len() ==> (#[trigger] list[i]).0 < list[i].1,
    ensures
        forall|i: int|
            0 <= i <= list.len() ==> run_bytes(#[trigger] list.take(i)) <= run_bytes(list),
    decreases list.len(),
{
    if list.len() > 0 {
        let front = list.drop_last();
        assert(forall|i: int| 0 <= i < front.len() ==> front[i] == list[i]);
        lemma_run_bytes_take(front);
        assert(list[list.len() - 1].0 < list[list.len() - 1].1);
        assert forall|i: int| 0 <= i <= list.len() implies run_bytes(#[trigger] list.take(i))
            <= run_bytes(list) by {
            if i < list.len() {
                assert(list.take(i) =~= front.take(i));
            } else {
                assert(list.take(i) =~= list);
            }
        }
    }
}

/// What comes after a hole that could not be cached changes nothing.
proof fn lemma_holes_stop(
    cache: CacheView,
    holes: Seq<(int, int)>,
    first: int,
    data: Seq<u8>,
    count: int,
)
    requires
        0 <= count <= holes.len(),
        !holes_cached(cache, holes.take(count), first, data).1,
    ensures
        holes_cached(cache, holes, first, data) == holes_cached(
            cache,
            holes.take(count),
            first,
            data,
        ),
    decreases holes.len(),
{
    if count < holes.len() {
        let front = holes.drop_last();
        assert(front.take(count) =~= holes.take(count));
        lemma_holes_stop(cache, front, first, data, count);
    } else {
        assert(holes.take(count) =~= holes);
    }
}

/// What comes after a run that could not be cached changes nothing.
proof fn lemma_parts_stop(
    cache: CacheView,
    overlay: Seq<ExtentEntry<OverlayExtent>>,
    parts: Seq<BlockPart>,
    count: int,
)
    requires
        0 <= count <= parts.len(),
        !parts_cached(cache, overlay, parts.take(count)).1,
    ensures
        parts_cached(cache, overlay, parts) == parts_cached(cache, overlay, parts.take(count)),
    decreases parts.len(),
{
    if count < parts.len() {
        let front = parts.drop_last();
        assert(front.take(count) =~= parts.take(count));
        lemma_parts_stop(cache, overlay, front, count);
    } else {
        assert(parts.take(count) =~= parts);
    }
}

/// What comes after a block that could not be cached changes nothing.
proof fn lemma_blocks_stop(
    cache: CacheView,
    overlay: Seq<ExtentEntry<OverlayExtent>>,
    blocks: Seq<Block>,
    count: int,
)
    requires
        0 <= count <= blocks.len(),
        !blocks_cached(cache, overlay, blocks.take(count)).1,
    ensures
        blocks_cached(cache, overlay, blocks) == blocks_cached(
            cache,
            overlay,
            blocks.take(count),
        ),
    decreases blocks.len(),
{
    if count < blocks.len() {
        let front = blocks.drop_last();
        assert(front.take(count) =~= blocks.take(count));
        lemma_blocks_stop(cache, overlay, front, count);
    } else {
        assert(blocks.take(count) =~= blocks);
    }
}

/// What comes after a retired extent that could not be cached changes nothing.
proof fn lemma_retired_stop(
    cache: CacheView,
    retired: Seq<RetiredOverlayExtent>,
    count: int,
)
    requires
        0 <= count <= retired.len(),
        !all_retired(cache, retired.take(count)).1,
    ensures
        all_retired(cache, retired) == all_retired(cache, retired.take(count)),
    decreases retired.len(),
{
    if count < retired.len() {
        let front = retired.drop_last();
        assert(front.take(count) =~= retired.take(count));
        lemma_retired_stop(cache, front, count);
    } else {
        assert(retired.take(count) =~= retired);
    }
}

proof fn lemma_retired_bytes_take(retired: Seq<RetiredOverlayExtent>)
    requires
        forall|i: int| 0 <= i < retired.len() ==> retired_fits(#[trigger] retired[i]),
    ensures
        forall|i: int|
            0 <= i <= retired.len() ==> 0 <= retired_bytes(#[trigger] retired.take(i))
                <= retired_bytes(retired),
    decreases retired.len(),
{
    if retired.len() > 0 {
        let front = retired.drop_last();
        assert(forall|i: int| 0 <= i < front.len() ==> front[i] == retired[i]);
        lemma_retired_bytes_take(front);
        assert(retired_fits(retired[retired.len() - 1]));
        assert(front.take(front.len() as int) =~= front);
        assert forall|i: int| 0 <= i <= retired.len() implies 0 <= retired_bytes(
            #[trigger] retired.take(i),
        ) <= retired_bytes(retired) by {
            if i < retired.len() {
                assert(retired.take(i) =~= front.take(i));
            } else {
                assert(retired.take(i) =~= retired);
            }
        }
    } else {
        assert forall|i: int| 0 <= i <= retired.len() implies 0 <= retired_bytes(
            #[trigger] retired.take(i),
        ) <= retired_bytes(retired) by {
            assert(retired.take(i) =~= retired);
        }
    }
}

/// A moved root keeps what is retained in bounds.
proof fn lemma_advanced_retains(
    view: ReadViewModel,
    root: RootView,
    cache: CacheView,
    debt: int,
)
    requires
        view.retains(),
        root.size_bytes == view.root.size_bytes,
        root.base_wal_seq <= view.last_applied,
    ensures
        advanced(view, root, cache, debt).retains(),
{
    let after = advanced(view, root, cache, debt);
    lemma_newer(view.overlay, root.base_wal_seq);
    assert forall|i: int| 0 <= i < after.overlay.len() implies root.base_wal_seq < (
    #[trigger] after.overlay[i]).value.seq@ && after.overlay[i].value.seq@ <= after.last_applied
        && after.overlay[i].end <= root.size_bytes by {
        let j = lemma_newer_source(view.overlay, root.base_wal_seq, i);
        assert(view.overlay[j].end <= view.root.size_bytes);
    }
}

/// A root that holds every applied write leaves nothing retained and nothing owed.
pub proof fn law_full_checkpoint_retains_nothing(
    view: ReadViewModel,
    root: RootView,
    cache: CacheView,
    debt: int,
)
    requires
        view.retains(),
        root.base_wal_seq == view.last_applied,
    ensures
        advanced(view, root, cache, debt).overlay.len() == 0,
        advanced(view, root, cache, debt).debt == 0,
{
    let after = newer(view.overlay, root.base_wal_seq);
    if after.len() > 0 {
        let j = lemma_newer_source(view.overlay, root.base_wal_seq, 0);
        assert(view.overlay[j].value.seq@ <= view.last_applied);
    }
}

impl ExportReadView {
    /// Moves the writes that a new root holds from the overlay to the cache, and then the root.
    fn move_root(&mut self, new_root: RootSnapshot, debt: u64) -> (result: Result<()>)
        requires
            old(self).wf(),
            new_root@.size_bytes == old(self)@.root.size_bytes,
            new_root@.base_wal_seq <= old(self)@.last_applied,
            old(self)@.cache.next_object_id + covered_bytes(old(self)@.overlay) <= u64::MAX,
        ensures
            final(self).wf(),
            moves_root(old(self)@, final(self)@, result, new_root@, debt as int),
    {
        let checkpoint = new_root.base_wal_seq();
        let ghost before = self@;
        let retired = self.overlay.visible_through(checkpoint);
        proof {
            new_root.lemma_bounds();
            lemma_retired_fits(before.overlay, checkpoint@, retired@);
            lemma_retires_bytes(before.overlay, checkpoint@, retired@);
            lemma_retired_bytes_take(retired@);
            assert(retired@.take(0) =~= Seq::<RetiredOverlayExtent>::empty());
        }
        let mut index: usize = 0;
        while index < retired.len()
            invariant
                index <= retired@.len(),
                before == old(self)@,
                before.retains(),
                retires(before.overlay, new_root@.base_wal_seq, retired@),
                self.cache.wf(),
                self@ == (ReadViewModel { cache: self.cache@, ..before }),
                self.overlay@ == before.overlay,
                old(self).wf(),
                forall|i: int| 0 <= i < retired@.len() ==> retired_fits(#[trigger] retired@[i]),
                (self.cache@, true) == all_retired(before.cache, retired@.take(index as int)),
                before.cache.next_object_id + retired_bytes(retired@) <= u64::MAX,
                self.cache@.next_object_id <= before.cache.next_object_id + retired_bytes(
                    retired@.take(index as int),
                ),
                forall|i: int|
                    0 <= i <= retired@.len() ==> 0 <= retired_bytes(#[trigger] retired@.take(i))
                        <= retired_bytes(retired@),
            decreases retired@.len() - index,
        {
            let entry = &retired[index];
            proof {
                assert(retired@.take(index + 1).drop_last() =~= retired@.take(index as int));
                assert(retired@.take(index + 1).last() == retired@[index as int]);
                assert(retired_fits(retired@[index as int]));
                assert(retired_bytes(retired@.take(index + 1)) <= retired_bytes(retired@));
                ByteRange::lemma_between(entry.start as int, entry.end as int);
                lemma_retired_cached(self.cache@, *entry);
            }
            let range = match byte_range_from_bounds(entry.start, entry.end) {
                Ok(range) => range,
                Err(error) => {
                    return Err(error);
                },
            };
            proof {
                range.lemma_bounds(ByteRange::between(entry.start as int, entry.end as int));
            }
            match self.cache.insert_wal_record_slice(
                range,
                entry.record.clone(),
                entry.record_offset,
                CacheInsertPlacement::Cold,
            ) {
                Ok(_) => {},
                Err(error) => {
                    proof {
                        lemma_retired_stop(before.cache, retired@, index + 1);
                    }
                    return Err(error);
                },
            }
            index = index + 1;
        }
        proof {
            assert(retired@.take(index as int) =~= retired@);
            lemma_advanced_retains(before, new_root@, self.cache@, debt as int);
        }
        self.overlay.remove_retired(checkpoint);
        self.root = new_root;
        self.wal_debt_bytes = debt;
        if checkpoint.get() == self.last_applied_seq.get() {
            self.wal_debt_bytes = 0;
        }
        Ok(())
    }

    /// Moves the root forward to one that holds some of the applied writes.
    pub fn advance_root(&mut self, new_root: RootSnapshot) -> (result: Result<()>)
        requires
            old(self).wf(),
            old(self)@.cache.next_object_id + covered_bytes(old(self)@.overlay) <= u64::MAX,
        ensures
            final(self).wf(),
            advances_root(old(self)@, final(self)@, new_root@, result),
    {
        if new_root.size_bytes() != self.root.size_bytes() {
            return Err(
                ServerError::wal(
                    "advance read-view root",
                    text_with_two_numbers(
                        "new root size ",
                        new_root.size_bytes(),
                        " does not match current size ",
                        self.root.size_bytes(),
                        "",
                    ),
                ),
            );
        }
        let current: u64 = self.root.base_wal_seq().get();
        let checkpoint: u64 = new_root.base_wal_seq().get();
        if checkpoint < current {
            return Err(
                ServerError::wal(
                    "advance read-view root",
                    text_with_two_numbers(
                        "new checkpoint ",
                        checkpoint,
                        " is before current checkpoint ",
                        current,
                        "",
                    ),
                ),
            );
        }
        if checkpoint == current {
            return Ok(());
        }
        if checkpoint > self.last_applied_seq.get() {
            return Err(
                ServerError::wal(
                    "advance read-view root",
                    text_with_two_numbers(
                        "new checkpoint ",
                        checkpoint,
                        " is beyond last applied WAL sequence ",
                        self.last_applied_seq.get(),
                        "",
                    ),
                ),
            );
        }
        let debt: u64 = self.wal_debt_bytes;
        self.move_root(new_root, debt)
    }

    /// Moves the root to the one that compaction of a snapshot published.
    pub fn advance_after_compaction(
        &mut self,
        new_root: RootSnapshot,
        snapshot: &ReadViewCompactionSnapshot,
    ) -> (result: Result<()>)
        requires
            old(self).wf(),
            old(self)@.cache.next_object_id + covered_bytes(old(self)@.overlay) <= u64::MAX,
        ensures
            final(self).wf(),
            advances_after_compaction(old(self)@, final(self)@, new_root@, *snapshot, result),
    {
        if new_root.size_bytes() != self.root.size_bytes() {
            return Err(
                ServerError::wal(
                    "advance read-view root after compaction",
                    text_with_two_numbers(
                        "new root size ",
                        new_root.size_bytes(),
                        " does not match current size ",
                        self.root.size_bytes(),
                        "",
                    ),
                ),
            );
        }
        let current: u64 = self.root.base_wal_seq().get();
        let base: u64 = snapshot.root.base_wal_seq().get();
        let target: u64 = snapshot.target_wal_seq.get();
        if current >= target {
            return Ok(());
        }
        if current != base {
            return Err(
                ServerError::wal(
                    "advance read-view root after compaction",
                    text_with_two_numbers(
                        "current checkpoint ",
                        current,
                        " does not match snapshot base ",
                        base,
                        "",
                    ),
                ),
            );
        }
        let checkpoint: u64 = new_root.base_wal_seq().get();
        if checkpoint < target {
            return Err(
                ServerError::wal(
                    "advance read-view root after compaction",
                    text_with_two_numbers(
                        "new checkpoint ",
                        checkpoint,
                        " is before snapshot target ",
                        target,
                        "",
                    ),
                ),
            );
        }
        if checkpoint > target {
            return Err(
                ServerError::wal(
                    "advance read-view root after compaction",
                    text_with_two_numbers(
                        "new checkpoint ",
                        checkpoint,
                        " is after snapshot target ",
                        target,
                        "",
                    ),
                ),
            );
        }
        if checkpoint > self.last_applied_seq.get() {
            return Err(
                ServerError::wal(
                    "advance read-view root after compaction",
                    text_with_two_numbers(
                        "new checkpoint ",
                        checkpoint,
                        " is beyond last applied WAL sequence ",
                        self.last_applied_seq.get(),
                        "",
                    ),
                ),
            );
        }
        if snapshot.wal_debt_bytes > self.wal_debt_bytes {
            return Err(
                ServerError::wal(
                    "advance read-view root after compaction",
                    text_with_two_numbers(
                        "snapshot WAL debt ",
                        snapshot.wal_debt_bytes,
                        " exceeds live WAL debt ",
                        self.wal_debt_bytes,
                        "",
                    ),
                ),
            );
        }
        let debt: u64 = self.wal_debt_bytes - snapshot.wal_debt_bytes;
        self.move_root(new_root, debt)
    }
}

/// The records that a view takes are those that lie in the export and are the next in sequence
/// after the checkpoint, whatever their length, and success is returned only for these. Such a
/// record is the last applied one afterwards, each position of its range reads as its byte and
/// every other as before, and its length is added to the log that is retained. Any other record
/// leaves the view as it was.
pub proof fn law_record_takes_effect_exactly_when_next(
    before: ReadViewModel,
    after: ReadViewModel,
    record: WalRecord,
    committed: spec_fn(int) -> u8,
    position: int,
)
    requires
        before.retains(),
        before.faithful(committed),
        before.cache.wf(),
        before.root.size_bytes <= u64::MAX,
        before.last_applied <= u64::MAX,
        record.wf(),
        after == (if takes_effect(before, record) {
            applied(before, Arc::new(record))
        } else {
            before
        }),
    ensures
        ({
            let next = record.number() == before.last_applied + 1 && before.root.base_wal_seq
                < record.number() && record.span().limit() <= before.root.size_bytes;
            let fits = before.debt + record.payload().len() <= u64::MAX;
            &&& apply_error(before, record) is None <==> next && fits
            &&& after.root == before.root
            &&& next ==> {
                &&& after.last_applied == record.number()
                &&& fits ==> after.debt == before.debt + record.payload().len()
                &&& after.content(committed, position) == (if record.span().covers(position) {
                    record.payload()[position - record.span().first()]
                } else {
                    before.content(committed, position)
                })
            }
            &&& !next ==> after == before
        }),
        after.retains(),
        after.faithful(committed),
{
    record.sequence().same_number(record.sequence());
    if takes_effect(before, record) {
        law_write_is_read_back(before, Arc::new(record), committed, position);
    }
}

/// The root moves exactly to one of an export of the same size whose checkpoint is neither before
/// the current one nor beyond the last applied record.
pub proof fn law_root_moves_only_to_a_checkpoint_of_the_log(view: ReadViewModel, root: RootView)
    ensures
        advance_error(view, root) is None <==> root.size_bytes == view.root.size_bytes
            && view.root.base_wal_seq <= root.base_wal_seq <= view.last_applied,
        advance_error(view, root) matches Some(error) ==> error is Wal,
{
}

/// What a compaction published is taken exactly when the export has the same size and either the
/// view is past the snapshot already, or it still stands where the snapshot was taken and the new
/// checkpoint is the last record of the snapshot, which the view has applied, with all its log.
pub proof fn law_compacted_root_is_taken_where_the_snapshot_was(
    view: ReadViewModel,
    root: RootView,
    base: int,
    target: int,
    debt: int,
)
    ensures
        compaction_advance_error(view, root, base, target, debt) is None <==> {
            &&& root.size_bytes == view.root.size_bytes
            &&& view.root.base_wal_seq >= target || {
                &&& view.root.base_wal_seq == base
                &&& root.base_wal_seq == target
                &&& target <= view.last_applied
                &&& debt <= view.debt
            }
        },
        compaction_advance_error(view, root, base, target, debt) matches Some(error)
            ==> error is Wal,
{
}

/// A root that a snapshot of the view was compacted into is taken, whatever was written since: the
/// checkpoint and the size stayed, and the last applied record and the log only grew.
pub proof fn law_compaction_of_a_snapshot_is_taken(
    captured: ReadViewModel,
    now: ReadViewModel,
    root: RootView,
)
    requires
        captured.retains(),
        now.root == captured.root,
        captured.last_applied <= now.last_applied,
        captured.debt <= now.debt,
        root.size_bytes == captured.root.size_bytes,
        root.base_wal_seq == captured.last_applied,
    ensures
        compaction_advance_error(
            now,
            root,
            captured.root.base_wal_seq,
            captured.last_applied,
            captured.debt,
        ) is None,
        advance_error(now, root) is None,
{
}

/// A view that was just opened shows the committed tree, and has nothing to compact.
pub proof fn law_fresh_view_shows_the_tree(
    root: RootView,
    cache: CacheView,
    max_bytes: int,
    committed: spec_fn(int) -> u8,
    position: int,
)
    requires
        empty_cache(cache, max_bytes),
    ensures
        fresh_view(root, cache).content(committed, position) == committed(position),
        fresh_view(root, cache).retains(),
        fresh_view(root, cache).faithful(committed),
        fresh_view(root, cache).root == root,
        fresh_view(root, cache).last_applied == root.base_wal_seq,
        fresh_view(root, cache).debt == 0,
        cache.byte_at(position) is None,
{
    assert(cache.extents =~= Seq::empty());
    assert forall|p: int| #[trigger] cache.byte_at(p) is None by {
        assert(value_at(cache.extents, p) is None);
    }
}

/// Moving the root takes the writes that the new root holds out of the view and keeps every later
/// one, and says nothing of the log but how much of it is left.
pub proof fn law_moved_root_keeps_the_later_writes(
    before: ReadViewModel,
    after: ReadViewModel,
    result: Result<()>,
    root: RootView,
    debt: int,
    position: int,
)
    requires
        before.retains(),
        moves_root(before, after, result, root, debt),
    ensures
        after.last_applied == before.last_applied,
        result is Ok ==> {
            &&& after.root == root
            &&& after.debt == (if root.base_wal_seq == before.last_applied {
                0
            } else {
                debt
            })
            &&& shown_at(after.overlay, position) == match shown_at(before.overlay, position) {
                Some((number, byte)) => if number <= root.base_wal_seq {
                    None
                } else {
                    Some((number, byte))
                },
                None => None,
            }
        },
        result is Err ==> after.root == before.root && after.debt == before.debt && after.overlay
            == before.overlay,
{
    lemma_newer(before.overlay, root.base_wal_seq);
}

/// What a read had to take from the tree is cached when it fits, so that it is there for the next
/// one.
pub proof fn law_a_missed_read_is_cached(
    view: ReadViewModel,
    hits: Seq<CacheObjectId>,
    block: Block,
    part: BlockPart,
    position: int,
)
    requires
        view.cache.wf(),
        0 <= view.cache.next_object_id,
        view.cache.next_object_id + part.span().size() <= u64::MAX,
        block.runs() == seq![part],
        part is Data,
        part.content().len() == part.span().size(),
        part.span().limit() <= u64::MAX,
        !reaches_last_block(part.span()),
        forall|p: int|
            part.span().covers(p) ==> #[trigger] shown_at(view.overlay, p) is None
                && view.cache.byte_at(p) is None,
        range_inserted(
            cache_promoted(view.cache, hits),
            part.span().first(),
            part.span().first(),
            part.span().limit(),
            part.content(),
            Origin::Fill,
            CacheInsertPlacement::Hot,
        ).charge() <= view.cache.max_bytes,
        part.span().covers(position),
    ensures
        learned(view, view.root, hits, seq![block]).1,
        learned(view, view.root, hits, seq![block]).0.cache.byte_at(position) == Some(
            part.content()[position - part.span().first()],
        ),
{
    let promoted = cache_promoted(view.cache, hits);
    let span = part.span();
    let first = span.first();
    let limit = span.limit();
    let known = |p: int| shown_at(view.overlay, p) is Some || promoted.byte_at(p) is Some;
    let holes = tree_misses(view.overlay, promoted, first, limit);
    lemma_promoted_wf(view.cache, hits);
    span.lemma_bounds(ByteRange::between(first, limit));
    ByteRange::lemma_between(first, limit);
    assert forall|p: int| first <= p < limit implies !#[trigger] known(p) by {
        assert(promoted.byte_at(p) == view.cache.byte_at(p));
        assert(shown_at(view.overlay, p) is None);
    }
    lemma_runs_open(first, limit, limit, known);
    assert(runs(limit, limit, known) =~= Seq::empty());
    assert(holes =~= seq![(first, limit)]);
    assert(holes.drop_last() =~= Seq::empty());
    assert(part.content().subrange(0, limit - first) =~= part.content());
    assert(ByteRange::between(first, limit) == span);
    assert(seq![part].drop_last() =~= Seq::empty());
    assert(seq![block].drop_last() =~= Seq::empty());
    reveal_with_fuel(holes_cached, 2);
    reveal_with_fuel(parts_cached, 2);
    reveal_with_fuel(blocks_cached, 2);
    law_fitting_insertion_is_cached(
        promoted,
        span,
        part.content(),
        Origin::Fill,
        CacheInsertPlacement::Hot,
        position,
    );
}

/// A retained write that moves into the tree is cached when it fits, so that its bytes need not be
/// read from there.
pub proof fn law_a_retired_write_is_cached(
    before: ReadViewModel,
    after: ReadViewModel,
    result: Result<()>,
    root: RootView,
    debt: int,
    position: int,
)
    requires
        before.retains(),
        before.cache.wf(),
        0 <= before.cache.next_object_id,
        before.overlay.len() == 1,
        before.overlay[0].value.seq@ <= root.base_wal_seq,
        before.cache.next_object_id + (before.overlay[0].end - before.overlay[0].start) <= u64::MAX,
        before.overlay[0].end <= LAST_CACHE_BLOCK,
        ({
            let extent = before.overlay[0];
            range_inserted(
                before.cache,
                extent.start as int,
                extent.start as int,
                extent.end as int,
                extent.value.record.payload().subrange(
                    extent.value.record_offset as int,
                    extent.value.record_offset + (extent.end - extent.start),
                ),
                Origin::Record {
                    number: extent.value.record.number(),
                    data: extent.value.record.payload(),
                    offset: extent.value.record_offset as int,
                },
                CacheInsertPlacement::Cold,
            ).charge() <= before.cache.max_bytes
        }),
        moves_root(before, after, result, root, debt),
        before.overlay[0].start <= position < before.overlay[0].end,
    ensures
        result is Ok,
        after.overlay.len() == 0,
        after.cache.byte_at(position) == Some(
            before.overlay[0].value.record.payload()[position
                - before.overlay[0].value.record.span().first()],
        ),
{
    let extent = before.overlay[0];
    let record = extent.value.record;
    let entry = as_retired(extent);
    let start = extent.start as int;
    let end = extent.end as int;
    let range = ByteRange::between(start, end);
    let retired = choose|retired: Seq<RetiredOverlayExtent>| #[trigger]
        retires(before.overlay, root.base_wal_seq, retired) && {
            let (cache, whole) = all_retired(before.cache, retired);
            match result {
                Ok(_) => whole && after == advanced(before, root, cache, debt),
                Err(error) => !whole && error@ == block_overflow() && after == (ReadViewModel {
                    cache,
                    ..before
                }),
            }
        };
    assert(from_record(extent));
    record.span().lemma_bounds(record.span());
    ByteRange::lemma_between(start, end);
    assert(retired.contains(entry));
    assert forall|i: int| 0 <= i < retired.len() implies #[trigger] retired[i] == entry by {
        assert(retired_from(before.overlay, root.base_wal_seq, retired[i]));
    }
    if retired.len() > 1 {
        assert(before_in_log(retired[0], retired[1]));
    }
    assert(retired =~= seq![entry]);
    assert(retired.drop_last() =~= Seq::empty());
    reveal_with_fuel(all_retired, 2);
    let piece = record.payload().subrange(
        entry.record_offset as int,
        entry.record_offset + (entry.end - entry.start),
    );
    law_fitting_insertion_is_cached(
        before.cache,
        range,
        piece,
        Origin::Record {
            number: record.number(),
            data: record.payload(),
            offset: entry.record_offset as int,
        },
        CacheInsertPlacement::Cold,
        position,
    );
    assert(before.overlay.drop_last() =~= Seq::empty());
    reveal_with_fuel(newer, 2);
    assert(before.overlay.last() == extent);
}

/// Moving the root to a checkpoint of the log changes no byte, and to any other one nothing at all:
/// it is refused, or it is where the root is already.
pub proof fn law_advancing_the_root_changes_no_byte(
    before: ReadViewModel,
    after: ReadViewModel,
    root: RootView,
    result: Result<()>,
    committed: spec_fn(int) -> u8,
    moved: spec_fn(int) -> u8,
    position: int,
)
    requires
        before.retains(),
        before.cache.wf(),
        0 <= before.cache.max_bytes,
        0 <= before.cache.next_object_id,
        before.cache.next_object_id + covered_bytes(before.overlay) <= u64::MAX,
        before.faithful(committed),
        advances_root(before, after, root, result),
        forall|p: int|
            (match shown_at(before.overlay, p) {
                Some((number, byte)) => number <= root.base_wal_seq ==> #[trigger] moved(p) == byte,
                None => moved(p) == committed(p),
            }),
    ensures
        ({
            let allowed = root.size_bytes == before.root.size_bytes && before.root.base_wal_seq
                <= root.base_wal_seq <= before.last_applied;
            &&& !allowed ==> result is Err && after == before
            &&& allowed && root.base_wal_seq == before.root.base_wal_seq ==> result is Ok && after
                == before
            &&& allowed && root.base_wal_seq > before.root.base_wal_seq && result is Ok ==> {
                &&& after.root == root
                &&& after.content(moved, position) == before.content(committed, position)
            }
            &&& allowed && root.base_wal_seq > before.root.base_wal_seq && result is Err ==> {
                &&& after.root == before.root
                &&& after.content(committed, position) == before.content(committed, position)
            }
        }),
{
    law_root_moves_only_to_a_checkpoint_of_the_log(before, root);
    if advance_error(before, root) is None && root.base_wal_seq != before.root.base_wal_seq {
        law_moving_the_root_changes_no_byte(
            before,
            after,
            result,
            root,
            before.debt,
            committed,
            moved,
            position,
        );
    }
}

/// Moving the root to one that holds the writes of a snapshot changes no byte, and takes the log of
/// the snapshot, and no more, from what is retained; where the view is past the snapshot already, or
/// the root is not one of the snapshot, nothing changes.
pub proof fn law_advancing_after_compaction_changes_no_byte(
    before: ReadViewModel,
    after: ReadViewModel,
    root: RootView,
    snapshot: ReadViewCompactionSnapshot,
    result: Result<()>,
    committed: spec_fn(int) -> u8,
    moved: spec_fn(int) -> u8,
    position: int,
)
    requires
        before.retains(),
        before.cache.wf(),
        0 <= before.cache.max_bytes,
        0 <= before.cache.next_object_id,
        before.cache.next_object_id + covered_bytes(before.overlay) <= u64::MAX,
        before.faithful(committed),
        advances_after_compaction(before, after, root, snapshot, result),
        forall|p: int|
            (match shown_at(before.overlay, p) {
                Some((number, byte)) => number <= root.base_wal_seq ==> #[trigger] moved(p) == byte,
                None => moved(p) == committed(p),
            }),
    ensures
        ({
            let past = before.root.base_wal_seq >= snapshot.target_wal_seq@;
            let proper = root.size_bytes == before.root.size_bytes && before.root.base_wal_seq
                == snapshot.root@.base_wal_seq && root.base_wal_seq == snapshot.target_wal_seq@
                && root.base_wal_seq <= before.last_applied && snapshot.wal_debt_bytes
                <= before.debt;
            &&& past ==> after == before
            &&& !past && !proper ==> result is Err && after == before
            &&& !past && proper && result is Ok ==> {
                &&& after.root == root
                &&& after.content(moved, position) == before.content(committed, position)
                &&& after.debt == (if root.base_wal_seq == before.last_applied {
                    0
                } else {
                    before.debt - snapshot.wal_debt_bytes
                })
            }
            &&& !past && result is Err ==> after.content(committed, position) == before.content(
                committed,
                position,
            )
        }),
{
    let base = snapshot.root@.base_wal_seq;
    let target = snapshot.target_wal_seq@;
    let debt = snapshot.wal_debt_bytes as int;
    law_compacted_root_is_taken_where_the_snapshot_was(before, root, base, target, debt);
    if compaction_advance_error(before, root, base, target, debt) is None
        && before.root.base_wal_seq < target {
        law_moving_the_root_changes_no_byte(
            before,
            after,
            result,
            root,
            before.debt - debt,
            committed,
            moved,
            position,
        );
    }
}

/// A compaction is given something to work on exactly when writes show that the root does not have;
/// it is then all of them, over the root that they were made on, up to the last one.
pub proof fn law_a_compaction_is_given_every_write(
    view: ReadViewModel,
    snapshot: Option<ReadViewCompactionSnapshot>,
)
    requires
        captures(view, snapshot),
    ensures
        snapshot is Some <==> view.last_applied > view.root.base_wal_seq && view.overlay.len() > 0,
        snapshot matches Some(snapshot) ==> {
            &&& snapshot.root@ == view.root
            &&& snapshot.overlay@ == view.overlay
            &&& snapshot.target_wal_seq@ == view.last_applied
            &&& snapshot.target_wal_seq@ > snapshot.root@.base_wal_seq
            &&& snapshot.wal_debt_bytes == view.debt
        },
{
}

} // verus!
