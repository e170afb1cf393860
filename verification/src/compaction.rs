//! Compaction: moving retained writes of the log into the committed tree.

use crate::catalog::{ExportId, WalSeq};
use crate::error::{ErrorView, Result, ServerError};
use crate::overlay::OverlayReadSlice;
use crate::root::{out_of_bounds, RootSnapshot, RootView};
use crate::text::{owned, text_with_two_numbers, with_two_numbers};
use std::collections::HashSet;
use vstd::prelude::*;

verus! {

/// How a compaction ended.
#[derive(Debug, Clone, Copy, PartialEq, Eq, Structural)]
pub enum CompactionOutcome {
    Published,
    AlreadyCovered,
    StalePlan,
    NoRecords,
}

/// What a compaction did.
#[derive(Debug)]
pub struct CompactionResult {
    export_id: ExportId,
    base_wal_seq: WalSeq,
    target_wal_seq: WalSeq,
    compacted_records: u64,
    written_leaf_blobs: u64,
    outcome: CompactionOutcome,
    published_root: Option<RootSnapshot>,
}

/// What a compaction did.
pub struct CompactionResultView {
    pub export_id: ExportId,
    pub base: int,
    pub target: int,
    pub records: int,
    pub blobs: int,
    pub outcome: CompactionOutcome,
    pub root: Option<RootView>,
}

impl View for CompactionResult {
    type V = CompactionResultView;

    closed spec fn view(&self) -> CompactionResultView {
        CompactionResultView {
            export_id: self.export_id,
            base: self.base_wal_seq@,
            target: self.target_wal_seq@,
            records: self.compacted_records as int,
            blobs: self.written_leaf_blobs as int,
            outcome: self.outcome,
            root: match self.published_root {
                Some(root) => Some(root@),
                None => None,
            },
        }
    }
}

impl CompactionResult {
    /// The result of a compaction that wrote nothing.
    pub(crate) fn idle(
        export_id: &ExportId,
        base_wal_seq: WalSeq,
        target_wal_seq: WalSeq,
        outcome: CompactionOutcome,
    ) -> (result: Self)
        ensures
            result@ == (CompactionResultView {
                export_id: *export_id,
                base: base_wal_seq@,
                target: target_wal_seq@,
                records: 0,
                blobs: 0,
                outcome,
                root: None,
            }),
    {
        Self {
            export_id: export_id.clone(),
            base_wal_seq,
            target_wal_seq,
            compacted_records: 0,
            written_leaf_blobs: 0,
            outcome,
            published_root: None,
        }
    }

    /// The result of a compaction that was through.
    pub(crate) fn finished(
        export_id: ExportId,
        base_wal_seq: WalSeq,
        target_wal_seq: WalSeq,
        compacted_records: u64,
        written_leaf_blobs: u64,
        outcome: CompactionOutcome,
        published_root: Option<RootSnapshot>,
    ) -> (result: Self)
        ensures
            result@ == (CompactionResultView {
                export_id,
                base: base_wal_seq@,
                target: target_wal_seq@,
                records: compacted_records as int,
                blobs: written_leaf_blobs as int,
                outcome,
                root: match published_root {
                    Some(root) => Some(root@),
                    None => None,
                },
            }),
    {
        Self {
            export_id,
            base_wal_seq,
            target_wal_seq,
            compacted_records,
            written_leaf_blobs,
            outcome,
            published_root,
        }
    }

    pub fn export_id(&self) -> (id: &ExportId)
        ensures
            *id == self@.export_id,
    {
        &self.export_id
    }

    pub fn base_wal_seq(&self) -> (seq: WalSeq)
        ensures
            seq@ == self@.base,
    {
        self.base_wal_seq
    }

    pub fn target_wal_seq(&self) -> (seq: WalSeq)
        ensures
            seq@ == self@.target,
    {
        self.target_wal_seq
    }

    pub fn compacted_records(&self) -> (records: u64)
        ensures
            records == self@.records,
    {
        self.compacted_records
    }

    pub fn written_leaf_blobs(&self) -> (blobs: u64)
        ensures
            blobs == self@.blobs,
    {
        self.written_leaf_blobs
    }

    pub fn outcome(&self) -> (outcome: CompactionOutcome)
        ensures
            outcome == self@.outcome,
    {
        self.outcome
    }

    pub fn published_root(&self) -> (root: Option<&RootSnapshot>)
        ensures
            match root {
                Some(root) => self@.root == Some(root@),
                None => self@.root is None,
            },
    {
        match &self.published_root {
            Some(root) => Some(root),
            None => None,
        }
    }
}

/// An error of a retained run that cannot be compacted.
pub open spec fn slice_failure(message: Seq<char>) -> ErrorView {
    ErrorView::Wal { context: "compact overlay slice"@, message }
}

/// Why a retained run cannot be compacted into a root up to a place in the log.
pub open spec fn slice_error(root: RootView, target: int, slice: OverlayReadSlice) -> Option<
    ErrorView,
> {
    let length = if slice.end < slice.start {
        0
    } else {
        slice.end - slice.start
    };
    if slice.record.number() <= root.base_wal_seq {
        Some(
            slice_failure(
                with_two_numbers(
                    "record sequence "@,
                    slice.record.number() as nat,
                    " is at or before checkpoint "@,
                    root.base_wal_seq as nat,
                    ""@,
                ),
            ),
        )
    } else if slice.record.number() > target {
        Some(
            slice_failure(
                with_two_numbers(
                    "record sequence "@,
                    slice.record.number() as nat,
                    " is after compaction target "@,
                    target as nat,
                    ""@,
                ),
            ),
        )
    } else if slice.end < slice.start || slice.end > root.size_bytes {
        Some(
            out_of_bounds("compact overlay slice"@, slice.start as int, length, root.size_bytes),
        )
    } else if slice.record_offset + length > u64::MAX {
        Some(slice_failure("record offset overflowed"@))
    } else if slice.record_offset + length > slice.record.payload().len() {
        Some(slice_failure("overlay slice extends beyond WAL record payload"@))
    } else {
        None
    }
}

/// Checks a retained run before it is compacted.
pub fn validate_overlay_slice_range(
    root: &RootSnapshot,
    target_wal_seq: WalSeq,
    slice: &OverlayReadSlice,
) -> (result: Result<()>)
    ensures
        match result {
            Ok(_) => slice_error(root@, target_wal_seq@, *slice) is None,
            Err(error) => slice_error(root@, target_wal_seq@, *slice) == Some(error@),
        },
{
    let seq: u64 = slice.record.seq().get();
    let base: u64 = root.base_wal_seq().get();
    if seq <= base {
        return Err(
            ServerError::wal(
                "compact overlay slice",
                text_with_two_numbers(
                    "record sequence ",
                    seq,
                    " is at or before checkpoint ",
                    base,
                    "",
                ),
            ),
        );
    }
    if seq > target_wal_seq.get() {
        return Err(
            ServerError::wal(
                "compact overlay slice",
                text_with_two_numbers(
                    "record sequence ",
                    seq,
                    " is after compaction target ",
                    target_wal_seq.get(),
                    "",
                ),
            ),
        );
    }
    let length: u64 = if slice.end < slice.start {
        0
    } else {
        slice.end - slice.start
    };
    if slice.end < slice.start || slice.end > root.size_bytes() {
        return Err(
            ServerError::OutOfBounds {
                operation: "compact overlay slice",
                offset: slice.start,
                length,
                size_bytes: root.size_bytes(),
            },
        );
    }
    let record_end: u64 = match slice.record_offset.checked_add(length) {
        Some(end) => end,
        None => {
            return Err(ServerError::wal("compact overlay slice", owned("record offset overflowed")));
        },
    };
    let available: usize = slice.record.data().len();
    if record_end > available as u64 {
        return Err(
            ServerError::wal(
                "compact overlay slice",
                owned("overlay slice extends beyond WAL record payload"),
            ),
        );
    }
    Ok(())
}

/// The numbers of the records that the runs come from.
pub open spec fn record_numbers(slices: Seq<OverlayReadSlice>) -> Set<u64> {
    slices.map_values(|slice: OverlayReadSlice| slice.record.number() as u64).to_set()
}

/// How many records the runs come from.
pub fn distinct_records(slices: &Vec<OverlayReadSlice>) -> (count: u64)
    ensures
        count == record_numbers(slices@).len(),
{
    broadcast use vstd::std_specs::hash::group_hash_axioms;

    let mut seen: HashSet<u64> = HashSet::new();
    let mut index: usize = 0;
    proof {
        assert(record_numbers(slices@.take(0)) =~= Set::empty());
    }
    while index < slices.len()
        invariant
            index <= slices@.len(),
            seen@ == record_numbers(slices@.take(index as int)),
        decreases slices@.len() - index,
    {
        broadcast use vstd::std_specs::hash::group_hash_axioms;

        let number: u64 = slices[index].record.seq().get();
        seen.insert(number);
        proof {
            let before = slices@.take(index as int).map_values(
                |slice: OverlayReadSlice| slice.record.number() as u64,
            );
            let after = slices@.take(index + 1).map_values(
                |slice: OverlayReadSlice| slice.record.number() as u64,
            );
            assert(after =~= before.push(number));
            assert(after.to_set() =~= before.to_set().insert(number)) by {
                assert forall|n: u64| after.to_set().contains(n) == before.to_set().insert(
                    number,
                ).contains(n) by {
                    if before.contains(n) {
                        let i = choose|i: int| 0 <= i < before.len() && before[i] == n;
                        assert(after[i] == n);
                    }
                    if n == number {
                        assert(after[before.len() as int] == n);
                    }
                    if after.contains(n) {
                        let i = choose|i: int| 0 <= i < after.len() && after[i] == n;
                        if i < before.len() {
                            assert(before[i] == n);
                        }
                    }
                }
            }
        }
        index = index + 1;
    }
    proof {
        assert(slices@.take(index as int) =~= slices@);
    }
    let count: usize = seen.len();
    count as u64
}

/// A run of a record is accepted exactly when its record comes after the checkpoint and up to the
/// target, its positions lie in the export, and it has as many bytes in its record as it has
/// positions, wherever in the record they are.
pub proof fn law_run_is_accepted_when_its_record_holds_it(
    root: RootView,
    target: int,
    slice: OverlayReadSlice,
)
    requires
        slice.record.wf(),
    ensures
        slice_error(root, target, slice) is None <==> {
            &&& root.base_wal_seq < slice.record.number() <= target
            &&& slice.start <= slice.end <= root.size_bytes
            &&& slice.record_offset + (slice.end - slice.start) <= slice.record.payload().len()
        },
{
    slice.record.span().lemma_bounds(slice.record.span());
}

/// As many records are counted as the runs have different numbers: one run more counts one more
/// if no run before it has its number, and none otherwise.
pub proof fn law_each_record_counts_once(slices: Seq<OverlayReadSlice>, slice: OverlayReadSlice)
    ensures
        record_numbers(Seq::<OverlayReadSlice>::empty()).len() == 0,
        record_numbers(slices.push(slice)).len() == record_numbers(slices).len() + (if exists|i: int|
            0 <= i < slices.len() && (#[trigger] slices[i]).record.number()
                == slice.record.number() {
            0int
        } else {
            1int
        }),
{
    let numbers = |run: OverlayReadSlice| run.record.number() as u64;
    let before = slices.map_values(numbers);
    let after = slices.push(slice).map_values(numbers);
    slice.record.sequence().same_number(slice.record.sequence());
    assert(Seq::<OverlayReadSlice>::empty().map_values(numbers).to_set() =~= Set::<u64>::empty());
    assert(after =~= before.push(numbers(slice)));
    assert(after.to_set() =~= before.to_set().insert(numbers(slice))) by {
        assert(after[before.len() as int] == numbers(slice));
        assert forall|number: u64| before.to_set().contains(number) implies after.to_set().contains(
            number,
        ) by {
            let i = choose|i: int| 0 <= i < before.len() && before[i] == number;
            assert(after[i] == number);
        }
    }
    vstd::seq_lib::seq_to_set_is_finite(before);
    if exists|i: int|
        0 <= i < slices.len() && (#[trigger] slices[i]).record.number() == slice.record.number() {
        let i = choose|i: int|
            0 <= i < slices.len() && (#[trigger] slices[i]).record.number()
                == slice.record.number();
        assert(before[i] == numbers(slice));
        assert(before.to_set().contains(numbers(slice)));
    } else if before.to_set().contains(numbers(slice)) {
        let i = choose|i: int| 0 <= i < before.len() && before[i] == numbers(slice);
        slices[i].record.sequence().same_number(slice.record.sequence());
        assert(slices[i].record.number() == slice.record.number());
    }
}

} // verus!
