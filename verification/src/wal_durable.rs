//! Durable exports that write to a log, and compact it into a copy-on-write tree.

use crate::admission::AdmissionOp;
use crate::catalog::{
    ExportDescriptor, ExportEngineKind, ExportHead, ExportLayoutKind, ExportName, ExportRecord,
    WalSeq,
};
use crate::compaction::{
    slice_error, CompactionOutcome, CompactionResult, CompactionResultView,
};
use crate::error::{ErrorView, Result, ServerError};
use crate::export::{ExportAdmissionPolicy, ExportRequest};
use crate::memory::{plain_operation, plain_operation_for};
use crate::extent_map::{lemma_value_at_covered, value_at};
use crate::overlay::{covered_bytes, from_record, shown_at};
use crate::range::ByteRange;
use crate::gaps::in_runs;
use crate::read_plan::{law_only_unknown_bytes_are_asked_of_the_tree, ReadPlan};
use crate::read_view::{
    applied, apply_error, compaction_advance_error, empty_cache, fresh_view,
    law_fresh_view_shows_the_tree, law_read_returns_the_content,
    law_record_takes_effect_exactly_when_next, moves_root,
    takes_effect, ExportReadView, ReadViewCompactionSnapshot, ReadViewModel,
    DEFAULT_READ_CACHE_BYTES,
};
use crate::root::{
    head_error, head_view, out_of_bounds, validate_request_range, RootSnapshot, RootView,
};
use crate::snapshot_compaction::slices_of_all;
use crate::text::{concat_three, owned};
use crate::wal::{WalRecord, WalRequest};
use std::sync::Arc;
use vstd::prelude::*;
use vstd::string::*;

verus! {

/// The log bytes from which on a background compaction is worth its while.
pub const DEFAULT_BACKGROUND_WAL_DEBT_COMPACTION_THRESHOLD_BYTES: u64 = 536870912;

/// The log bytes from which on writes wait for a compaction.
pub const DEFAULT_WAL_DEBT_COMPACTION_THRESHOLD_BYTES: u64 = 2147483648;

/// Seconds between background compactions.
pub const DEFAULT_BACKGROUND_COMPACTION_INTERVAL_SECONDS: u64 = 30;

/// Admission of requests to an export with a log: each touches just its own bytes.
#[derive(Debug)]
pub struct WalDurableAdmissionPolicy {
    size_bytes: u64,
}

impl WalDurableAdmissionPolicy {
    pub closed spec fn size(&self) -> int {
        self.size_bytes as int
    }

    pub fn new(size_bytes: u64) -> (policy: Self)
        ensures
            policy.size() == size_bytes,
    {
        Self { size_bytes }
    }
}

impl ExportAdmissionPolicy for WalDurableAdmissionPolicy {
    open spec fn maps(&self, request: ExportRequest, result: Result<AdmissionOp>) -> bool {
        plain_operation(request, self.size(), result)
    }

    fn operation_for(&self, request: &ExportRequest) -> (result: Result<AdmissionOp>) {
        plain_operation_for(request, self.size_bytes)
    }

    proof fn law_flush_is_apart(
        &self,
        flush: Result<AdmissionOp>,
        request: ExportRequest,
        op: AdmissionOp,
    ) {
    }

    proof fn law_write_is_apart(
        &self,
        write: ExportRequest,
        written: AdmissionOp,
        request: ExportRequest,
        op: AdmissionOp,
        position: int,
    ) {
    }

    proof fn law_reads_run_together(
        &self,
        first: ExportRequest,
        one: Result<AdmissionOp>,
        second: ExportRequest,
        other: Result<AdmissionOp>,
    ) {
    }
}

/// When the log is compacted.
#[derive(Debug, Clone, Copy, PartialEq, Eq, Structural)]
pub struct CompactionPolicy {
    pub background_wal_debt_threshold_bytes: u64,
    pub hard_wal_debt_threshold_bytes: u64,
}

impl CompactionPolicy {
    pub fn with_hard_threshold(hard_wal_debt_threshold_bytes: u64) -> (policy: Self)
        ensures
            policy == (CompactionPolicy {
                background_wal_debt_threshold_bytes:
                    DEFAULT_BACKGROUND_WAL_DEBT_COMPACTION_THRESHOLD_BYTES,
                hard_wal_debt_threshold_bytes,
            }),
    {
        Self {
            background_wal_debt_threshold_bytes:
                DEFAULT_BACKGROUND_WAL_DEBT_COMPACTION_THRESHOLD_BYTES,
            hard_wal_debt_threshold_bytes,
        }
    }

    /// Why a background compaction is not due with this much log. From the hard threshold on it is
    /// left to the writes.
    pub open spec fn not_due(self, debt: int) -> Option<BackgroundCompactionTick> {
        if debt < self.background_wal_debt_threshold_bytes {
            Some(BackgroundCompactionTick::SkippedBelowSoftThreshold)
        } else if debt >= self.hard_wal_debt_threshold_bytes {
            Some(BackgroundCompactionTick::SkippedAtHardThreshold)
        } else {
            None
        }
    }

    /// Why a background compaction is not due with this much log.
    pub fn background_check(&self, wal_debt_bytes: u64) -> (tick: Option<BackgroundCompactionTick>)
        ensures
            tick == self.not_due(wal_debt_bytes as int),
    {
        if wal_debt_bytes < self.background_wal_debt_threshold_bytes {
            return Some(BackgroundCompactionTick::SkippedBelowSoftThreshold);
        }
        if wal_debt_bytes >= self.hard_wal_debt_threshold_bytes {
            return Some(BackgroundCompactionTick::SkippedAtHardThreshold);
        }
        None
    }
}

impl Default for CompactionPolicy {
    fn default() -> (policy: Self)
        ensures
            policy == (CompactionPolicy {
                background_wal_debt_threshold_bytes:
                    DEFAULT_BACKGROUND_WAL_DEBT_COMPACTION_THRESHOLD_BYTES,
                hard_wal_debt_threshold_bytes: DEFAULT_WAL_DEBT_COMPACTION_THRESHOLD_BYTES,
            }),
    {
        Self::with_hard_threshold(DEFAULT_WAL_DEBT_COMPACTION_THRESHOLD_BYTES)
    }
}

/// How a background compaction went.
#[derive(Debug, Clone, Copy, PartialEq, Eq, Structural)]
pub enum BackgroundCompactionTick {
    SkippedBelowSoftThreshold,
    SkippedAtHardThreshold,
    SkippedBusy,
    SkippedNoSnapshot,
    Compacted(CompactionOutcome),
    Failed,
}

/// A compaction that is due, or the reason why none is.
#[derive(Debug)]
pub enum BackgroundDecision {
    Skip(BackgroundCompactionTick),
    Compact(ReadViewCompactionSnapshot),
}

/// What is done with the log when an export is closed.
#[derive(Debug)]
pub enum CloseDecision {
    /// The retained writes are compacted.
    Compact(ReadViewCompactionSnapshot),
    /// There are none: the log is pruned up to the checkpoint.
    Prune(WalSeq),
}

/// The retained writes of a view, as they are compacted.
pub open spec fn is_snapshot_of(
    snapshot: ReadViewCompactionSnapshot,
    view: ExportReadView,
) -> bool {
    &&& snapshot.root@ == view@.root
    &&& snapshot.target_wal_seq@ == view@.last_applied
    &&& snapshot.wal_debt_bytes == view@.debt
    &&& snapshot.overlay@ == view@.overlay
}

/// Whether a view has retained writes.
pub open spec fn retains_writes(view: ExportReadView) -> bool {
    view@.last_applied > view@.root.base_wal_seq && view@.overlay.len() > 0
}

/// What is decided on a background compaction.
pub open spec fn decides_in_background(
    policy: CompactionPolicy,
    view: ExportReadView,
    decision: BackgroundDecision,
) -> bool {
    match policy.not_due(view@.debt) {
        Some(tick) => decision == BackgroundDecision::Skip(tick),
        None => if retains_writes(view) {
            decision matches BackgroundDecision::Compact(snapshot) && is_snapshot_of(
                snapshot,
                view,
            )
        } else {
            decision == BackgroundDecision::Skip(BackgroundCompactionTick::SkippedNoSnapshot)
        },
    }
}

/// What a write is decided to compact before it returns.
pub open spec fn decides_under_pressure(
    policy: CompactionPolicy,
    view: ExportReadView,
    snapshot: Option<ReadViewCompactionSnapshot>,
) -> bool {
    match snapshot {
        Some(snapshot) => {
            &&& view@.debt >= policy.hard_wal_debt_threshold_bytes
            &&& retains_writes(view)
            &&& is_snapshot_of(snapshot, view)
        },
        None => view@.debt < policy.hard_wal_debt_threshold_bytes || !retains_writes(view),
    }
}

/// What is decided on the log when an export is closed.
pub open spec fn decides_at_close(view: ExportReadView, decision: CloseDecision) -> bool {
    match decision {
        CloseDecision::Compact(snapshot) => retains_writes(view) && is_snapshot_of(
            snapshot,
            view,
        ),
        CloseDecision::Prune(seq) => !retains_writes(view) && seq@
            == view@.root.base_wal_seq,
    }
}

/// How a view moves to the root of a compaction, and up to where the log can be pruned then.
pub open spec fn advances(
    before: ReadViewModel,
    after: ReadViewModel,
    result: CompactionResultView,
    snapshot: ReadViewCompactionSnapshot,
    pruned: Result<Option<WalSeq>>,
) -> bool {
    match (result.outcome, result.root) {
        (CompactionOutcome::Published, Some(root)) => match compaction_advance_error(
            before,
            root,
            snapshot.root@.base_wal_seq,
            snapshot.target_wal_seq@,
            snapshot.wal_debt_bytes as int,
        ) {
            Some(failure) => {
                &&& pruned matches Err(error) && error@ == failure
                &&& after == before
            },
            None => {
                &&& pruned matches Ok(Some(seq)) ==> seq@ == root.base_wal_seq
                &&& !(pruned matches Ok(None))
                &&& if before.root.base_wal_seq >= snapshot.target_wal_seq@ {
                    pruned is Ok && after == before
                } else {
                    moves_root(
                        before,
                        after,
                        match pruned {
                            Ok(_) => Ok(()),
                            Err(error) => Err(error),
                        },
                        root,
                        before.debt - snapshot.wal_debt_bytes,
                    )
                }
            },
        },
        (CompactionOutcome::Published, None) => {
            &&& pruned matches Err(error) && error@ == (ErrorView::Catalog {
                message: "published WAL compaction did not return a root snapshot"@,
            })
            &&& after == before
        },
        _ => {
            &&& pruned matches Ok(None)
            &&& after == before
        },
    }
}

/// Decides on a background compaction, once no other one runs.
pub fn background_decision(policy: &CompactionPolicy, view: &ExportReadView) -> (decision:
    BackgroundDecision)
    requires
        view.wf(),
    ensures
        decides_in_background(*policy, *view, decision),
{
    match policy.background_check(view.wal_debt_bytes()) {
        Some(tick) => {
            return BackgroundDecision::Skip(tick);
        },
        None => {},
    }
    match view.capture_compaction_snapshot() {
        Some(snapshot) => BackgroundDecision::Compact(snapshot),
        None => BackgroundDecision::Skip(BackgroundCompactionTick::SkippedNoSnapshot),
    }
}

/// How a background compaction went that was due.
pub fn background_result(result: &Result<CompactionResult>) -> (tick: BackgroundCompactionTick)
    ensures
        tick == match *result {
            Ok(done) => BackgroundCompactionTick::Compacted(done@.outcome),
            Err(_) => BackgroundCompactionTick::Failed,
        },
{
    match result {
        Ok(done) => BackgroundCompactionTick::Compacted(done.outcome()),
        Err(_) => BackgroundCompactionTick::Failed,
    }
}

/// What a write compacts before it returns, once no other compaction runs: the retained writes, from
/// the hard threshold on.
pub fn write_pressure_decision(policy: &CompactionPolicy, view: &ExportReadView) -> (snapshot:
    Option<ReadViewCompactionSnapshot>)
    requires
        view.wf(),
    ensures
        decides_under_pressure(*policy, *view, snapshot),
{
    if view.wal_debt_bytes() < policy.hard_wal_debt_threshold_bytes {
        return None;
    }
    view.capture_compaction_snapshot()
}

/// Decides what is done with the log when an export is closed.
pub fn close_decision(view: &ExportReadView) -> (decision: CloseDecision)
    requires
        view.wf(),
    ensures
        decides_at_close(*view, decision),
{
    match view.capture_compaction_snapshot() {
        Some(snapshot) => CloseDecision::Compact(snapshot),
        None => CloseDecision::Prune(view.root().base_wal_seq()),
    }
}

/// Moves a view to the root that a compaction published. Returns the record up to which the log can
/// be pruned, where one was published.
pub fn advance_after_snapshot_compaction(
    view: &mut ExportReadView,
    result: &CompactionResult,
    snapshot: &ReadViewCompactionSnapshot,
) -> (pruned: Result<Option<WalSeq>>)
    requires
        old(view).wf(),
        old(view)@.cache.next_object_id + covered_bytes(old(view)@.overlay) <= u64::MAX,
    ensures
        final(view).wf(),
        advances(old(view)@, final(view)@, result@, *snapshot, pruned),
{
    match result.outcome() {
        CompactionOutcome::Published => {},
        _ => {
            return Ok(None);
        },
    }
    let root = match result.published_root() {
        Some(root) => root.clone(),
        None => {
            return Err(
                ServerError::catalog(
                    owned("published WAL compaction did not return a root snapshot"),
                ),
            );
        },
    };
    let prune_through = root.base_wal_seq();
    match view.advance_after_compaction(root, snapshot) {
        Ok(_) => Ok(Some(prune_through)),
        Err(error) => Err(error),
    }
}

/// What a replay of the log has applied.
#[derive(Debug, Clone, Copy, PartialEq, Eq, Structural)]
pub struct WalReplaySummary {
    pub replayed_records: u64,
    pub replayed_through_wal_seq: WalSeq,
}

impl WalReplaySummary {
    /// A replay that starts after a checkpoint.
    pub fn new(root: &RootSnapshot) -> (summary: Self)
        ensures
            summary.replayed_records == 0,
            summary.replayed_through_wal_seq@ == root@.base_wal_seq,
    {
        Self { replayed_records: 0, replayed_through_wal_seq: root.base_wal_seq() }
    }

    /// Applies the next record of the log to a view.
    pub fn replay(&mut self, view: &mut ExportReadView, record: WalRecord) -> (result: Result<()>)
        requires
            old(view).wf(),
            old(self).replayed_records < u64::MAX,
        ensures
            final(view).wf(),
            final(self).replayed_records == old(self).replayed_records + 1,
            final(self).replayed_through_wal_seq == record.sequence(),
            final(view)@ == (if takes_effect(old(view)@, record) {
                applied(old(view)@, Arc::new(record))
            } else {
                old(view)@
            }),
            match result {
                Ok(_) => apply_error(old(view)@, record) is None,
                Err(error) => apply_error(old(view)@, record) == Some(error@),
            },
    {
        self.replayed_records = self.replayed_records + 1;
        self.replayed_through_wal_seq = record.seq();
        view.apply_wal_record(record)
    }
}

/// An export that writes to a log.
#[derive(Debug)]
pub struct WalDurableEngine {
    name: ExportName,
    size_bytes: u64,
    block_size: u64,
    read_view: ExportReadView,
    compacts: bool,
    compaction_policy: CompactionPolicy,
}

/// Why an export without a tree cannot be opened.
pub open spec fn open_error(meta: ExportRecord) -> Option<ErrorView> {
    if meta.head.layout_kind != ExportLayoutKind::CowImmutableTree {
        Some(
            ErrorView::Catalog {
                message: "export `"@ + meta.descriptor.name@
                    + "` does not have a cow immutable tree head"@,
            },
        )
    } else if meta.head.root_node_id is Some {
        Some(
            ErrorView::Catalog {
                message: "export `"@ + meta.descriptor.name@
                    + "` has a committed COW root that is not readable yet"@,
            },
        )
    } else {
        None
    }
}

/// Why an export with a tree cannot be opened.
pub open spec fn open_tree_error(descriptor: ExportDescriptor, head: ExportHead) -> Option<
    ErrorView,
> {
    if descriptor.engine_kind != ExportEngineKind::WalDurable {
        Some(
            ErrorView::Catalog {
                message: "export `"@ + descriptor.name@ + "` is not a wal_durable export"@,
            },
        )
    } else if head.layout_kind != ExportLayoutKind::CowImmutableTree {
        Some(
            ErrorView::Catalog {
                message: "WAL durable export `"@ + descriptor.name@
                    + "` requires cow_immutable_tree head, got "@ + head.layout_kind.word(),
            },
        )
    } else {
        head_error(head)
    }
}

/// Refuses a head that is not that of a copy-on-write tree.
fn validate_head_can_open(descriptor: &ExportDescriptor, head: &ExportHead) -> (result: Result<()>)
    ensures
        match result {
            Ok(_) => head.layout_kind == ExportLayoutKind::CowImmutableTree,
            Err(error) => head.layout_kind != ExportLayoutKind::CowImmutableTree && error@ == (
            ErrorView::Catalog {
                message: "WAL durable export `"@ + descriptor.name@
                    + "` requires cow_immutable_tree head, got "@ + head.layout_kind.word(),
            }),
        },
{
    if head.layout_kind != ExportLayoutKind::CowImmutableTree {
        let mut message = concat_three(
            "WAL durable export `",
            descriptor.name.as_str(),
            "` requires cow_immutable_tree head, got ",
        );
        message.append(head.layout_kind.as_str());
        return Err(ServerError::catalog(message));
    }
    Ok(())
}

/// How a read starts: with a plan for its range over what the view shows, or not at all.
pub open spec fn plans(
    view: ReadViewModel,
    size_bytes: int,
    offset: u64,
    len: u32,
    result: Result<ReadPlan>,
) -> bool {
    match result {
        Ok(plan) => {
            &&& offset + len <= size_bytes
            &&& plan.wf()
            &&& plan@.root == view.root
            &&& plan@.range.first() == offset
            &&& plan@.range.size() == len
            &&& plan@.overlay == view.overlay
            &&& plan@.cache == view.cache
            &&& plan@.blocks.len() == 0
        },
        Err(error) => offset + len > size_bytes && error@ == out_of_bounds(
            "read"@,
            offset as int,
            len as int,
            size_bytes,
        ),
    }
}

/// How a write starts: with a request to the log, with nothing to do, or not at all.
pub open spec fn requests(
    size_bytes: int,
    offset: u64,
    data: Seq<u8>,
    result: Result<Option<WalRequest>>,
) -> bool {
    if offset + data.len() > size_bytes {
        result matches Err(error) && error@ == out_of_bounds(
            "write"@,
            offset as int,
            data.len() as int,
            size_bytes,
        )
    } else if data.len() == 0 {
        result matches Ok(None)
    } else if data.len() > u32::MAX {
        result matches Err(error) && error@ == out_of_bounds(
            "write"@,
            offset as int,
            data.len() as int,
            size_bytes,
        )
    } else {
        result matches Ok(Some(request)) && request.span().first() == offset
            && request.span().size() == data.len() && request.payload() == data
    }
}

impl WalDurableEngine {
    pub closed spec fn title(&self) -> Seq<char> {
        self.name@
    }

    pub closed spec fn size(&self) -> int {
        self.size_bytes as int
    }

    pub closed spec fn unit(&self) -> int {
        self.block_size as int
    }

    /// What reads are answered from.
    pub closed spec fn reads(&self) -> ExportReadView {
        self.read_view
    }

    /// Whether the export has a tree that its log is compacted into.
    pub closed spec fn compacting(&self) -> bool {
        self.compacts
    }

    pub closed spec fn policy(&self) -> CompactionPolicy {
        self.compaction_policy
    }

    pub open spec fn wf(&self) -> bool {
        self.reads().wf() && self.reads()@.root.size_bytes == self.size()
    }

    /// Opens an export that has no tree, before its log is replayed.
    pub fn open(meta: &ExportRecord) -> (result: Result<Self>)
        ensures
            match result {
                Ok(engine) => {
                    &&& open_error(*meta) is None
                    &&& engine.wf()
                    &&& engine.title() == meta.descriptor.name@
                    &&& engine.size() == meta.head.size_bytes
                    &&& engine.unit() == meta.descriptor.block_size
                    &&& engine.reads()@ == fresh_view(
                        RootView { tree_format: None, ..head_view(meta.head) },
                        engine.reads()@.cache,
                    )
                    &&& empty_cache(engine.reads()@.cache, DEFAULT_READ_CACHE_BYTES as int)
                    &&& !engine.compacting()
                    &&& engine.policy() == (CompactionPolicy {
                        background_wal_debt_threshold_bytes:
                            DEFAULT_BACKGROUND_WAL_DEBT_COMPACTION_THRESHOLD_BYTES,
                        hard_wal_debt_threshold_bytes: DEFAULT_WAL_DEBT_COMPACTION_THRESHOLD_BYTES,
                    })
                },
                Err(error) => open_error(*meta) == Some(error@),
            },
    {
        if meta.head.layout_kind != ExportLayoutKind::CowImmutableTree {
            return Err(
                ServerError::catalog(
                    concat_three(
                        "export `",
                        meta.descriptor.name.as_str(),
                        "` does not have a cow immutable tree head",
                    ),
                ),
            );
        }
        if meta.head.root_node_id.is_some() {
            return Err(
                ServerError::catalog(
                    concat_three(
                        "export `",
                        meta.descriptor.name.as_str(),
                        "` has a committed COW root that is not readable yet",
                    ),
                ),
            );
        }
        Ok(
            Self {
                name: meta.descriptor.name.clone(),
                size_bytes: meta.head.size_bytes,
                block_size: meta.descriptor.block_size,
                read_view: ExportReadView::new(RootSnapshot::from_meta(meta)),
                compacts: false,
                compaction_policy: CompactionPolicy::default(),
            },
        )
    }

    /// Opens an export with a tree, before its log is replayed.
    pub fn open_with_cow_tree(descriptor: &ExportDescriptor, head: &ExportHead) -> (result: Result<
        Self,
    >)
        ensures
            opened(result, *descriptor, *head, DEFAULT_WAL_DEBT_COMPACTION_THRESHOLD_BYTES),
    {
        Self::open_with_cow_tree_and_wal_debt_threshold(
            descriptor,
            head,
            DEFAULT_WAL_DEBT_COMPACTION_THRESHOLD_BYTES,
        )
    }

    /// Opens an export with a tree and a hard threshold of its own, before its log is replayed.
    pub fn open_with_cow_tree_and_wal_debt_threshold(
        descriptor: &ExportDescriptor,
        head: &ExportHead,
        wal_debt_threshold_bytes: u64,
    ) -> (result: Result<Self>)
        ensures
            opened(result, *descriptor, *head, wal_debt_threshold_bytes),
    {
        if descriptor.engine_kind != ExportEngineKind::WalDurable {
            return Err(
                ServerError::catalog(
                    concat_three(
                        "export `",
                        descriptor.name.as_str(),
                        "` is not a wal_durable export",
                    ),
                ),
            );
        }
        match validate_head_can_open(descriptor, head) {
            Ok(_) => {},
            Err(error) => {
                return Err(error);
            },
        }
        let root = match RootSnapshot::from_head(head) {
            Ok(root) => root,
            Err(error) => {
                return Err(error);
            },
        };
        Ok(
            Self {
                name: descriptor.name.clone(),
                size_bytes: root.size_bytes(),
                block_size: descriptor.block_size,
                read_view: ExportReadView::new(root),
                compacts: true,
                compaction_policy: CompactionPolicy::with_hard_threshold(wal_debt_threshold_bytes),
            },
        )
    }

    pub fn name(&self) -> (name: &ExportName)
        ensures
            name@ == self.title(),
    {
        &self.name
    }

    pub fn size_bytes(&self) -> (size_bytes: u64)
        ensures
            size_bytes == self.size(),
    {
        self.size_bytes
    }

    pub fn block_size(&self) -> (block_size: u64)
        ensures
            block_size == self.unit(),
    {
        self.block_size
    }

    pub fn export_head(&self) -> (head: ExportHead)
        ensures
            head.layout_kind == ExportLayoutKind::CowImmutableTree,
            head_view(head) == self.reads()@.root,
    {
        self.read_view.export_head()
    }

    pub fn wal_debt_bytes(&self) -> (bytes: u64)
        ensures
            bytes == self.reads()@.debt,
    {
        self.read_view.wal_debt_bytes()
    }

    pub fn read_view(&self) -> (view: &ExportReadView)
        ensures
            *view == self.reads(),
    {
        &self.read_view
    }

    /// The read view, to be changed.
    pub fn read_view_mut(&mut self) -> (view: &mut ExportReadView)
        ensures
            *view == old(self).reads(),
            final(self).reads() == *final(view),
            final(self).title() == old(self).title(),
            final(self).size() == old(self).size(),
            final(self).unit() == old(self).unit(),
            final(self).compacting() == old(self).compacting(),
            final(self).policy() == old(self).policy(),
    {
        &mut self.read_view
    }

    pub fn compaction_policy(&self) -> (policy: CompactionPolicy)
        ensures
            policy == self.policy(),
    {
        self.compaction_policy
    }

    pub fn admission_policy(&self) -> (policy: WalDurableAdmissionPolicy)
        ensures
            policy.size() == self.size(),
    {
        WalDurableAdmissionPolicy::new(self.size_bytes)
    }

    /// Starts a read.
    pub fn read(&self, offset: u64, len: u32) -> (result: Result<ReadPlan>)
        requires
            self.wf(),
        ensures
            plans(self.reads()@, self.size(), offset, len, result),
    {
        self.read_view.plan_read(ByteRange::new(offset, len))
    }

    /// Starts a write: the request to the log, or nothing for an empty write.
    pub fn write(&self, offset: u64, data: Vec<u8>) -> (result: Result<Option<WalRequest>>)
        ensures
            requests(self.size(), offset, data@, result),
    {
        let length: usize = data.len();
        match validate_request_range("write", offset, length as u64, self.size_bytes) {
            Ok(_) => {},
            Err(error) => {
                return Err(error);
            },
        }
        if length == 0 {
            return Ok(None);
        }
        if length as u64 > u32::MAX as u64 {
            return Err(
                ServerError::OutOfBounds {
                    operation: "write",
                    offset,
                    length: length as u64,
                    size_bytes: self.size_bytes,
                },
            );
        }
        match WalRequest::new(ByteRange::new(offset, length as u32), data) {
            Ok(request) => Ok(Some(request)),
            Err(error) => Err(error),
        }
    }

    /// Applies the record of a write, as the log numbered it.
    pub fn written(&mut self, record: WalRecord) -> (result: Result<()>)
        requires
            old(self).wf(),
        ensures
            final(self).wf(),
            final(self).title() == old(self).title(),
            final(self).size() == old(self).size(),
            final(self).unit() == old(self).unit(),
            final(self).compacting() == old(self).compacting(),
            final(self).policy() == old(self).policy(),
            final(self).reads()@ == (if takes_effect(old(self).reads()@, record) {
                applied(old(self).reads()@, Arc::new(record))
            } else {
                old(self).reads()@
            }),
            match result {
                Ok(_) => apply_error(old(self).reads()@, record) is None,
                Err(error) => apply_error(old(self).reads()@, record) == Some(error@),
            },
    {
        self.read_view.apply_wal_record(record)
    }

    /// What a write compacts before it returns: nothing where the export has no tree.
    pub fn write_pressure(&self) -> (snapshot: Option<ReadViewCompactionSnapshot>)
        requires
            self.wf(),
        ensures
            match snapshot {
                Some(snapshot) => {
                    &&& self.compacting()
                    &&& self.reads()@.debt >= self.policy().hard_wal_debt_threshold_bytes
                    &&& retains_writes(self.reads())
                    &&& is_snapshot_of(snapshot, self.reads())
                },
                None => !self.compacting() || self.reads()@.debt
                    < self.policy().hard_wal_debt_threshold_bytes || !retains_writes(self.reads()),
            },
    {
        if !self.compacts {
            return None;
        }
        write_pressure_decision(&self.compaction_policy, &self.read_view)
    }

    /// What is done with the log when the export is closed: nothing where it has no tree.
    pub fn close(&self) -> (decision: Option<CloseDecision>)
        requires
            self.wf(),
        ensures
            match decision {
                Some(CloseDecision::Compact(snapshot)) => self.compacting() && retains_writes(
                    self.reads(),
                ) && is_snapshot_of(snapshot, self.reads()),
                Some(CloseDecision::Prune(seq)) => self.compacting() && !retains_writes(
                    self.reads(),
                ) && seq@ == self.reads()@.root.base_wal_seq,
                None => !self.compacting(),
            },
    {
        if !self.compacts {
            return None;
        }
        Some(close_decision(&self.read_view))
    }
}

/// The export was opened, or refused with the reason.
pub open spec fn opened(
    result: Result<WalDurableEngine>,
    descriptor: ExportDescriptor,
    head: ExportHead,
    hard_threshold: u64,
) -> bool {
    match result {
        Ok(engine) => {
            &&& open_tree_error(descriptor, head) is None
            &&& engine.wf()
            &&& engine.title() == descriptor.name@
            &&& engine.size() == head.size_bytes
            &&& engine.unit() == descriptor.block_size
            &&& engine.reads()@ == fresh_view(head_view(head), engine.reads()@.cache)
            &&& empty_cache(engine.reads()@.cache, DEFAULT_READ_CACHE_BYTES as int)
            &&& engine.compacting()
            &&& engine.policy() == (CompactionPolicy {
                background_wal_debt_threshold_bytes:
                    DEFAULT_BACKGROUND_WAL_DEBT_COMPACTION_THRESHOLD_BYTES,
                hard_wal_debt_threshold_bytes: hard_threshold,
            })
        },
        Err(error) => open_tree_error(descriptor, head) == Some(error@),
    }
}

/// The log is compacted in the background exactly from the soft threshold on and up to the hard
/// one; below it is left alone, and beyond it to the writes.
pub proof fn law_background_compacts_between_the_thresholds(policy: CompactionPolicy, debt: int)
    ensures
        policy.not_due(debt) is None <==> policy.background_wal_debt_threshold_bytes <= debt
            < policy.hard_wal_debt_threshold_bytes,
        policy.not_due(debt) == Some(BackgroundCompactionTick::SkippedBelowSoftThreshold)
            <==> debt < policy.background_wal_debt_threshold_bytes,
        policy.not_due(debt) is Some && debt >= policy.background_wal_debt_threshold_bytes
            ==> policy.not_due(debt) == Some(BackgroundCompactionTick::SkippedAtHardThreshold)
            && debt >= policy.hard_wal_debt_threshold_bytes,
{
}

/// A view has something to compact exactly when one of its bytes is that of a retained write.
pub proof fn law_a_shown_write_is_there_to_be_compacted(view: ExportReadView)
    requires
        view@.retains(),
    ensures
        retains_writes(view) <==> exists|position: int| #[trigger]
            shown_at(view@.overlay, position) is Some,
{
    let overlay = view@.overlay;
    if overlay.len() > 0 {
        let first = overlay[0];
        assert(first.start < first.end);
        lemma_value_at_covered(overlay, 0, first.start as int);
        assert(shown_at(overlay, first.start as int) is Some);
        assert(view@.root.base_wal_seq < first.value.seq@ <= view@.last_applied);
    } else {
        assert(overlay =~= Seq::empty());
        assert forall|position: int| (#[trigger] shown_at(overlay, position)) is None by {
            assert(value_at(overlay, position) is None);
        }
    }
}

/// Nothing is wrong with any run of a snapshot of the view, so that its compaction fails on none of
/// them; and the root that comes of it is taken by the view, which may have moved on since.
pub proof fn law_a_snapshot_of_the_view_compacts(
    snapshot: ReadViewCompactionSnapshot,
    view: ExportReadView,
    now: ReadViewModel,
    published: RootView,
    index: int,
)
    requires
        view@.retains(),
        is_snapshot_of(snapshot, view),
        0 <= index < snapshot.overlay@.len(),
        now.root == view@.root,
        view@.last_applied <= now.last_applied,
        view@.debt <= now.debt,
        published.size_bytes == snapshot.root@.size_bytes,
        published.base_wal_seq == snapshot.target_wal_seq@,
    ensures
        slice_error(
            snapshot.root@,
            snapshot.target_wal_seq@,
            slices_of_all(snapshot.overlay@)[index],
        ) is None,
        compaction_advance_error(
            now,
            published,
            snapshot.root@.base_wal_seq,
            snapshot.target_wal_seq@,
            snapshot.wal_debt_bytes as int,
        ) is None,
{
    let extent = view@.overlay[index];
    assert(from_record(extent));
    assert(extent.start < extent.end);
    extent.value.record.span().lemma_bounds(extent.value.record.span());
}

/// An export opens on its log alone exactly when its head is that of a copy-on-write tree with no
/// committed root, and on its tree exactly when it is one that is kept in a log and its head says
/// how the tree is stored.
pub proof fn law_only_exports_with_a_log_open(
    meta: ExportRecord,
    descriptor: ExportDescriptor,
    head: ExportHead,
)
    ensures
        open_error(meta) is None <==> meta.head.layout_kind == ExportLayoutKind::CowImmutableTree
            && meta.head.root_node_id is None,
        open_tree_error(descriptor, head) is None <==> descriptor.engine_kind
            == ExportEngineKind::WalDurable && head.layout_kind
            == ExportLayoutKind::CowImmutableTree && head.tree_format is Some,
        open_error(meta) matches Some(error) ==> error is Catalog,
        open_tree_error(descriptor, head) matches Some(error) ==> error is Catalog,
{
}

/// A background compaction begins exactly when the log is between the thresholds and a retained
/// write shows, and takes all that the view retains.
pub proof fn law_background_compacts_what_is_retained(
    policy: CompactionPolicy,
    view: ExportReadView,
    decision: BackgroundDecision,
)
    requires
        view@.retains(),
        decides_in_background(policy, view, decision),
    ensures
        decision is Compact <==> policy.background_wal_debt_threshold_bytes <= view@.debt
            < policy.hard_wal_debt_threshold_bytes && (exists|position: int| #[trigger]
            shown_at(view@.overlay, position) is Some),
        decision matches BackgroundDecision::Compact(snapshot) ==> snapshot.root@ == view@.root
            && snapshot.target_wal_seq@ == view@.last_applied && snapshot.wal_debt_bytes
            == view@.debt && snapshot.overlay@ == view@.overlay,
{
    law_a_shown_write_is_there_to_be_compacted(view);
}

/// A write compacts before it returns exactly from the hard threshold on, if a retained write shows,
/// and takes all that the view retains.
pub proof fn law_a_write_compacts_from_the_hard_threshold_on(
    policy: CompactionPolicy,
    view: ExportReadView,
    decided: Option<ReadViewCompactionSnapshot>,
)
    requires
        view@.retains(),
        decides_under_pressure(policy, view, decided),
    ensures
        decided is Some <==> view@.debt >= policy.hard_wal_debt_threshold_bytes && (exists|
            position: int,
        | #[trigger] shown_at(view@.overlay, position) is Some),
        decided matches Some(snapshot) ==> snapshot.root@ == view@.root
            && snapshot.target_wal_seq@ == view@.last_applied && snapshot.wal_debt_bytes
            == view@.debt && snapshot.overlay@ == view@.overlay,
{
    law_a_shown_write_is_there_to_be_compacted(view);
}

/// Closing an export loses no write: as long as one shows, all that the view retains is compacted,
/// and only where none does the log is pruned, and not beyond the checkpoint.
pub proof fn law_close_prunes_no_retained_write(view: ExportReadView, decision: CloseDecision)
    requires
        view@.retains(),
        decides_at_close(view, decision),
    ensures
        decision is Compact <==> exists|position: int| #[trigger]
            shown_at(view@.overlay, position) is Some,
        decision matches CloseDecision::Compact(snapshot) ==> snapshot.root@ == view@.root
            && snapshot.target_wal_seq@ == view@.last_applied && snapshot.overlay@
            == view@.overlay,
        decision matches CloseDecision::Prune(seq) ==> seq@ <= view@.root.base_wal_seq,
{
    law_a_shown_write_is_there_to_be_compacted(view);
}

/// The log is pruned only up to the checkpoint of a root that was published, and the view then
/// stands on that root or past the snapshot; where nothing was published the view stays as it is
/// and nothing is pruned.
pub proof fn law_only_published_records_are_pruned(
    before: ReadViewModel,
    after: ReadViewModel,
    result: CompactionResultView,
    snapshot: ReadViewCompactionSnapshot,
    pruned: Result<Option<WalSeq>>,
)
    requires
        advances(before, after, result, snapshot, pruned),
    ensures
        pruned is Ok && pruned->Ok_0 is Some ==> {
            &&& result.outcome == CompactionOutcome::Published
            &&& result.root is Some
            &&& (pruned->Ok_0->0)@ == result.root->0.base_wal_seq
            &&& after.root == result.root->0 || (after == before && before.root.base_wal_seq
                >= snapshot.target_wal_seq@)
        },
        result.outcome != CompactionOutcome::Published ==> after == before && pruned is Ok
            && pruned->Ok_0 is None,
        result.outcome == CompactionOutcome::Published && result.root is None ==> pruned is Err
            && after == before,
        after.last_applied == before.last_applied,
{
}

/// A read starts exactly when it lies in the export, with a plan that gives for each position of its
/// range what the view shows there, once the tree was asked for the rest.
pub proof fn law_a_read_starts_where_it_lies_in_the_export(
    view: ReadViewModel,
    size_bytes: int,
    offset: u64,
    len: u32,
    result: Result<ReadPlan>,
    committed: spec_fn(int) -> u8,
    position: int,
)
    requires
        plans(view, size_bytes, offset, len, result),
        view.faithful(committed),
        offset <= position < offset + len,
    ensures
        result is Ok <==> offset + len <= size_bytes,
        result matches Err(error) ==> error@ is OutOfBounds,
        result matches Ok(plan) ==> {
            &&& plan@.range.covers(position)
            &&& in_runs(plan@.misses(), position) || plan@.byte_at(position) == Some(
                view.content(committed, position),
            )
        },
{
    if let Ok(plan) = result {
        law_only_unknown_bytes_are_asked_of_the_tree(plan@, position);
        if !in_runs(plan@.misses(), position) {
            assert(plan@.byte_at(position) is Some);
            law_read_returns_the_content(plan@, view, committed, position);
        }
    }
}

/// A write that lies in the export goes to the log with its own bytes at its own place, whatever its
/// length; an empty one needs no log, and one that reaches beyond the end is refused.
pub proof fn law_a_write_goes_to_the_log_as_it_is(
    size_bytes: int,
    offset: u64,
    data: Seq<u8>,
    result: Result<Option<WalRequest>>,
)
    requires
        requests(size_bytes, offset, data, result),
    ensures
        result is Ok <==> offset + data.len() <= size_bytes && data.len() <= u32::MAX,
        result matches Err(error) ==> error@ is OutOfBounds,
        result is Ok ==> (result->Ok_0 is None <==> data.len() == 0),
        result is Ok && result->Ok_0 is Some ==> {
            let request = result->Ok_0->0;
            &&& request.payload() == data
            &&& request.span().first() == offset
            &&& request.span().limit() == offset + data.len()
        },
{
}

/// A write is read back: once its record is in the log as the next one, each position of the write
/// shows its byte and every other what it showed.
pub proof fn law_a_logged_write_is_read_back(
    before: ReadViewModel,
    after: ReadViewModel,
    offset: u64,
    data: Seq<u8>,
    request: WalRequest,
    record: WalRecord,
    committed: spec_fn(int) -> u8,
    position: int,
)
    requires
        requests(before.root.size_bytes, offset, data, Ok(Some(request))),
        record.wf(),
        record.span() == request.span(),
        record.payload() == request.payload(),
        record.number() == before.last_applied + 1,
        before.retains(),
        before.faithful(committed),
        before.cache.wf(),
        before.root.size_bytes <= u64::MAX,
        before.last_applied <= u64::MAX,
        after == (if takes_effect(before, record) {
            applied(before, Arc::new(record))
        } else {
            before
        }),
    ensures
        before.debt + data.len() <= u64::MAX ==> apply_error(before, record) is None,
        after.content(committed, position) == (if offset <= position < offset + data.len() {
            data[position - offset]
        } else {
            before.content(committed, position)
        }),
        after.last_applied == before.last_applied + 1,
{
    law_record_takes_effect_exactly_when_next(before, after, record, committed, position);
}

/// An export that was opened shows the committed tree of its head, has applied the log up to the
/// checkpoint and retains nothing, and compacts at the thresholds it was given.
pub proof fn law_an_opened_export_shows_its_tree(
    result: Result<WalDurableEngine>,
    descriptor: ExportDescriptor,
    head: ExportHead,
    hard_threshold: u64,
    committed: spec_fn(int) -> u8,
    position: int,
)
    requires
        opened(result, descriptor, head, hard_threshold),
    ensures
        result is Ok <==> descriptor.engine_kind == ExportEngineKind::WalDurable
            && head.layout_kind == ExportLayoutKind::CowImmutableTree && head.tree_format is Some,
        result matches Ok(engine) ==> {
            let view = engine.reads()@;
            &&& view.content(committed, position) == committed(position)
            &&& view.faithful(committed)
            &&& view.last_applied == head.base_wal_seq@
            &&& view.root.base_wal_seq == head.base_wal_seq@
            &&& view.root.size_bytes == head.size_bytes
            &&& view.debt == 0
            &&& engine.size() == head.size_bytes
            &&& engine.compacting()
            &&& engine.policy().hard_wal_debt_threshold_bytes == hard_threshold
        },
{
    if let Ok(engine) = result {
        law_fresh_view_shows_the_tree(
            head_view(head),
            engine.reads()@.cache,
            DEFAULT_READ_CACHE_BYTES as int,
            committed,
            position,
        );
    }
}

} // verus!
