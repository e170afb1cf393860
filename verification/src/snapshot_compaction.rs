//! Compaction of what a read view retains.

use crate::catalog::{
    BlobKey, ChunkIndex, ExportHead, ExportId, ExportLayoutKind, NodeId, WalSeq,
};
use crate::chunk_images::{
    has_image, image_added, latest, lemma_images_hold, patch_of, same_chunks, ChunkImage,
    ChunkImages, Patch,
};
use crate::compaction::{
    distinct_records, record_numbers, slice_error, validate_overlay_slice_range, CompactionOutcome,
    CompactionResult, CompactionResultView,
};
use crate::cow_plan::CowTreePublishPlanner;
use crate::error::{ErrorView, Result, ServerError};
use crate::export_compaction::{
    ascending, merged_chunks, stored_chunks, takes_place, PublishCompaction,
    PublishCompactionOutcome,
};
use crate::extent_map::{ordered, ExtentEntry};
use crate::geometry::{geometry_error, tree_failure, TreeGeometry};
use crate::identity::hyphenated;
use crate::overlay::{
    extent_slice, from_record, overlays, shown_at, OverlayExtent, OverlayReadSlice,
};
use crate::read_view::{ReadViewCompactionSnapshot, ReadViewModel};
use crate::root::{head_error, head_view, RootSnapshot, RootView};
use crate::simple_tree::{PublishTreeUpdate, PublishTreeUpdateOutcome};
use crate::splice::zero_bytes;
use crate::text::owned;
use crate::tree_plan::{ChunkRef, TreeRecordBatch};
use vstd::prelude::*;

verus! {

/// The patches of runs.
pub open spec fn patches_of(slices: Seq<OverlayReadSlice>) -> Seq<Patch> {
    slices.map_values(|slice: OverlayReadSlice| patch_of(slice))
}

/// The runs of extents.
pub open spec fn slices_of_all(extents: Seq<ExtentEntry<OverlayExtent>>) -> Seq<OverlayReadSlice> {
    extents.map_values(|extent: ExtentEntry<OverlayExtent>| extent_slice(extent))
}

/// What the retained runs are put into before they are published.
pub struct SnapshotCompaction {
    export_id: ExportId,
    root: RootSnapshot,
    target_wal_seq: WalSeq,
    slices: Vec<OverlayReadSlice>,
    next: usize,
    images: ChunkImages,
}

/// State of a compaction: what is compacted into which root, and how many runs were.
pub struct SnapshotCompactionView {
    pub export_id: ExportId,
    pub root: RootView,
    pub target: int,
    pub slices: Seq<OverlayReadSlice>,
    pub applied: int,
}

/// How a compaction begins.
pub enum SnapshotStart {
    /// There is nothing to do.
    Finished(CompactionResult),
    /// There are runs to be compacted.
    Run(SnapshotCompaction),
}

impl View for SnapshotCompaction {
    type V = SnapshotCompactionView;

    closed spec fn view(&self) -> SnapshotCompactionView {
        SnapshotCompactionView {
            export_id: self.export_id,
            root: self.root@,
            target: self.target_wal_seq@,
            slices: self.slices@,
            applied: self.next as int,
        }
    }
}

impl SnapshotCompactionView {
    /// What is wrong with a run.
    pub open spec fn error_at(self, index: int) -> Option<ErrorView> {
        slice_error(self.root, self.target, self.slices[index])
    }

    /// Nothing is wrong with the runs from one place to another.
    pub open spec fn fine(self, from: int, to: int) -> bool {
        forall|i: int| from <= i < to ==> #[trigger] self.error_at(i) is None
    }
}

/// How the compaction of a snapshot starts.
pub open spec fn starts(
    export_id: ExportId,
    snapshot: ReadViewCompactionSnapshot,
    start: SnapshotStart,
) -> bool {
    match start {
        SnapshotStart::Finished(result) => {
            &&& snapshot.target_wal_seq@ <= snapshot.root@.base_wal_seq
                || snapshot.overlay@.len() == 0
            &&& result@ == (CompactionResultView {
                export_id: export_id,
                base: snapshot.root@.base_wal_seq,
                target: snapshot.target_wal_seq@,
                records: 0,
                blobs: 0,
                outcome: if snapshot.target_wal_seq@ <= snapshot.root@.base_wal_seq {
                    CompactionOutcome::AlreadyCovered
                } else {
                    CompactionOutcome::NoRecords
                },
                root: None,
            })
        },
        SnapshotStart::Run(run) => {
            &&& snapshot.target_wal_seq@ > snapshot.root@.base_wal_seq
            &&& snapshot.overlay@.len() > 0
            &&& run.wf()
            &&& run@ == (SnapshotCompactionView {
                export_id: export_id,
                root: snapshot.root@,
                target: snapshot.target_wal_seq@,
                slices: slices_of_all(snapshot.overlay@),
                applied: 0,
            })
            &&& run.images().images().len() == 0
            &&& run.images().patches().len() == 0
        },
    }
}

impl SnapshotCompaction {
    pub closed spec fn images(&self) -> ChunkImages {
        self.images
    }

    /// The runs that were compacted were checked, and the images hold them.
    pub open spec fn wf(&self) -> bool {
        &&& 0 <= self@.applied <= self@.slices.len() <= usize::MAX
        &&& self@.fine(0, self@.applied)
        &&& self.images().wf()
        &&& self.images().patches() == patches_of(self@.slices.take(self@.applied))
    }

    /// Starts the compaction of a snapshot.
    pub fn begin(export_id: &ExportId, snapshot: &ReadViewCompactionSnapshot) -> (start:
        SnapshotStart)
        ensures
            starts(*export_id, *snapshot, start),
    {
        let base = snapshot.root.base_wal_seq();
        let target = snapshot.target_wal_seq;
        if target.get() <= base.get() {
            return SnapshotStart::Finished(
                CompactionResult::idle(export_id, base, target, CompactionOutcome::AlreadyCovered),
            );
        }
        let slices = snapshot.overlay.all_slices();
        if slices.len() == 0 {
            return SnapshotStart::Finished(
                CompactionResult::idle(export_id, base, target, CompactionOutcome::NoRecords),
            );
        }
        let run = SnapshotCompaction {
            export_id: export_id.clone(),
            root: snapshot.root.clone(),
            target_wal_seq: target,
            slices,
            next: 0,
            images: ChunkImages::new(),
        };
        proof {
            assert(run.images().patches() =~= patches_of(run@.slices.take(0)));
        }
        SnapshotStart::Run(run)
    }

    /// Puts runs into the images until a chunk is needed that has none, or all are in.
    pub fn next_chunk(&mut self) -> (result: Result<Option<ChunkIndex>>)
        requires
            old(self).wf(),
        ensures
            final(self)@ == (SnapshotCompactionView { applied: final(self)@.applied, ..old(self)@ }),
            final(self).wf(),
            old(self)@.fine(0, old(self)@.slices.len() as int) ==> result is Ok,
            old(self)@.applied <= final(self)@.applied,
            same_chunks(old(self).images().images(), final(self).images().images()),
            match result {
                Ok(Some(chunk)) => {
                    &&& final(self)@.applied < final(self)@.slices.len()
                    &&& final(self)@.error_at(final(self)@.applied) is None
                    &&& patch_of(final(self)@.slices[final(self)@.applied]).touches(chunk@)
                    &&& !has_image(final(self).images().images(), chunk@)
                    &&& forall|earlier: int|
                        patch_of(final(self)@.slices[final(self)@.applied]).touches(earlier)
                            && earlier < chunk@ ==> #[trigger] has_image(
                            final(self).images().images(),
                            earlier,
                        )
                },
                Ok(None) => final(self)@.applied == final(self)@.slices.len(),
                Err(error) => {
                    &&& final(self)@.applied < final(self)@.slices.len()
                    &&& final(self)@.error_at(final(self)@.applied) == Some(error@)
                },
            },
    {
        let count: usize = self.slices.len();
        let ghost before = self@;
        while self.next < count
            invariant
                count == self.slices@.len(),
                self.wf(),
                before == old(self)@,
                self@ == (SnapshotCompactionView { applied: self@.applied, ..before }),
                before.applied <= self@.applied,
                same_chunks(old(self).images().images(), self.images().images()),
            decreases count - self.next,
        {
            let slice = &self.slices[self.next];
            let ghost place = self.next as int;
            let ghost held = self@;
            match validate_overlay_slice_range(&self.root, self.target_wal_seq, slice) {
                Ok(_) => {},
                Err(error) => {
                    proof {
                        assert(before.error_at(place) == Some(error@));
                    }
                    return Err(error);
                },
            }
            proof {
                assert(self@.error_at(place) is None);
            }
            match self.images.missing_chunk(slice) {
                Some(chunk) => {
                    return Ok(Some(chunk));
                },
                None => {},
            }
            self.images.apply(slice);
            self.next = self.next + 1;
            proof {
                assert forall|i: int| 0 <= i < place + 1 implies #[trigger] self@.error_at(
                    i,
                ) is None by {
                    assert(held.error_at(i) is None);
                }
                assert(patches_of(self@.slices.take(place + 1)) =~= patches_of(
                    self@.slices.take(place),
                ).push(patch_of(self@.slices[place])));
            }
        }
        Ok(None)
    }

    /// Takes in the committed bytes of a chunk that was needed.
    pub fn chunk_loaded(&mut self, chunk_index: ChunkIndex, committed: Vec<u8>)
        requires
            old(self).wf(),
            !has_image(old(self).images().images(), chunk_index@),
            chunk_index@ * 33554432 <= u64::MAX,
            committed@.len() == 33554432,
        ensures
            final(self).wf(),
            final(self)@ == old(self)@,
            forall|chunk: int|
                #[trigger] has_image(final(self).images().images(), chunk) <==> chunk
                    == chunk_index@ || has_image(old(self).images().images(), chunk),
            image_added(
                old(self).images().images(),
                final(self).images().images(),
                chunk_index@,
                committed@,
            ),
    {
        self.images.insert(chunk_index, committed);
    }

    /// A chunk that was needed has no committed bytes: it holds nothing but zeros.
    pub fn chunk_missing(&mut self, chunk_index: ChunkIndex)
        requires
            old(self).wf(),
            !has_image(old(self).images().images(), chunk_index@),
            chunk_index@ * 33554432 <= u64::MAX,
        ensures
            final(self).wf(),
            final(self)@ == old(self)@,
            forall|chunk: int|
                #[trigger] has_image(final(self).images().images(), chunk) <==> chunk
                    == chunk_index@ || has_image(old(self).images().images(), chunk),
            image_added(
                old(self).images().images(),
                final(self).images().images(),
                chunk_index@,
                zero_bytes(33554432),
            ),
    {
        self.images.insert_zeros(chunk_index);
    }

    /// How many images have to be stored.
    pub fn image_count(&self) -> (count: usize)
        ensures
            count == self.images().images().len(),
    {
        self.images.len()
    }

    /// An image that has to be stored. The images are in ascending order of their chunks.
    pub fn image(&self, index: usize) -> (image: &ChunkImage)
        requires
            index < self.images().images().len(),
        ensures
            *image == self.images().images()[index as int],
    {
        self.images.image(index)
    }

    /// The chunk that an image makes, once it was stored under a key.
    pub fn stored_chunk(&self, index: usize, key: BlobKey) -> (chunk: ChunkRef)
        requires
            index < self.images().images().len(),
        ensures
            chunk.index() == self.images().images()[index as int].chunk(),
            chunk.key() == key@,
    {
        ChunkRef::whole(self.images.image(index).chunk_index(), key)
    }

    /// Plans the new root.
    pub fn planner(&self) -> (result: Result<CowTreePublishPlanner>)
        ensures
            match result {
                Ok(planner) => {
                    &&& self@.root.tree_format is Some
                    &&& geometry_error(self@.root.size_bytes) is None
                    &&& planner@.geometry.wf()
                    &&& planner@.geometry.total() == self@.root.size_bytes
                    &&& hyphenated(planner@.new_root@)
                    &&& planner.starts(
                        planner@.geometry,
                        self@.export_id,
                        self@.root.root_node_id,
                        planner@.new_root,
                    )
                },
                Err(error) => if self@.root.tree_format is None {
                    error@ == tree_failure("COW compaction root is missing tree format"@)
                } else {
                    geometry_error(self@.root.size_bytes) == Some(error@)
                },
            },
    {
        let tree_format = match self.root.tree_format() {
            Some(format) => format,
            None => {
                return Err(
                    ServerError::catalog(owned("COW compaction root is missing tree format")),
                );
            },
        };
        match TreeGeometry::new(tree_format, self.root.size_bytes()) {
            Ok(geometry) => Ok(
                CowTreePublishPlanner::new(geometry, &self.export_id, self.root.root_node_id()),
            ),
            Err(error) => Err(error),
        }
    }

    /// The update that publishes the new root.
    pub fn update(&self, new_root: NodeId, records: TreeRecordBatch) -> (update: PublishTreeUpdate)
        ensures
            update.export_id == self@.export_id,
            update.expected_head.layout_kind == ExportLayoutKind::CowImmutableTree,
            head_view(update.expected_head) == self@.root,
            update.next_head.layout_kind == ExportLayoutKind::CowImmutableTree,
            head_view(update.next_head) == (RootView {
                root_node_id: Some(new_root@),
                base_wal_seq: self@.target,
                ..self@.root
            }),
            update.records == records,
    {
        PublishTreeUpdate {
            export_id: self.export_id.clone(),
            expected_head: self.root.to_export_head(),
            next_head: ExportHead {
                layout_kind: ExportLayoutKind::CowImmutableTree,
                root_node_id: Some(new_root),
                size_bytes: self.root.size_bytes(),
                base_wal_seq: self.target_wal_seq,
                tree_format: self.root.tree_format(),
            },
            records,
        }
    }

    /// What the compaction did, given what became of the update.
    pub fn finish(self, outcome: &PublishTreeUpdateOutcome) -> (result: Result<CompactionResult>)
        requires
            self.wf(),
        ensures
            match outcome {
                PublishTreeUpdateOutcome::Published(record) => match result {
                    Ok(done) => head_error(record.head) is None && done@ == self.done(
                        CompactionOutcome::Published,
                        Some(head_view(record.head)),
                    ),
                    Err(error) => head_error(record.head) == Some(error@),
                },
                PublishTreeUpdateOutcome::StaleHead(_) => result matches Ok(done) && done@
                    == self.done(CompactionOutcome::StalePlan, None),
            },
    {
        let (outcome, published_root) = match outcome {
            PublishTreeUpdateOutcome::Published(record) => match RootSnapshot::from_head(
                &record.head,
            ) {
                Ok(root) => (CompactionOutcome::Published, Some(root)),
                Err(error) => {
                    return Err(error);
                },
            },
            PublishTreeUpdateOutcome::StaleHead(_) => (CompactionOutcome::StalePlan, None),
        };
        let blobs: usize = self.images.len();
        Ok(
            CompactionResult::finished(
                self.export_id,
                self.root.base_wal_seq(),
                self.target_wal_seq,
                distinct_records(&self.slices),
                blobs as u64,
                outcome,
                published_root,
            ),
        )
    }

    /// The new list of chunks, once the images were stored under keys: where the catalog lists the
    /// chunks of the root, the images take the place of theirs.
    pub fn publication(&self, listed: &Vec<ChunkRef>, keys: &Vec<BlobKey>) -> (publication:
        PublishCompaction)
        requires
            self.wf(),
            keys@.len() == self.images().images().len(),
        ensures
            publication.export_id == self@.export_id,
            publication.expected_base.layout_kind == ExportLayoutKind::CowImmutableTree,
            head_view(publication.expected_base) == self@.root,
            publication.compacted_through@ == self@.target,
            ascending(publication.chunks@),
            takes_place(self.images().images(), keys@, listed@, publication.chunks@),
    {
        let stored = stored_chunks(&self.images, keys);
        PublishCompaction {
            export_id: self.export_id.clone(),
            expected_base: self.root.to_export_head(),
            compacted_through: self.target_wal_seq,
            chunks: merged_chunks(listed, &stored),
        }
    }

    /// What the compaction did, given what became of the new list of chunks.
    pub fn finish_publication(self, outcome: PublishCompactionOutcome) -> (result: CompactionResult)
        ensures
            result@ == self.done(outcome.compacted(), None),
    {
        let blobs: usize = self.images.len();
        CompactionResult::finished(
            self.export_id,
            self.root.base_wal_seq(),
            self.target_wal_seq,
            distinct_records(&self.slices),
            blobs as u64,
            outcome.compaction_outcome(),
            None,
        )
    }

    /// The result of a compaction whose images were all stored.
    pub open spec fn done(&self, outcome: CompactionOutcome, root: Option<RootView>) -> CompactionResultView {
        CompactionResultView {
            export_id: self@.export_id,
            base: self@.root.base_wal_seq,
            target: self@.target,
            records: record_numbers(self@.slices).len() as int,
            blobs: self.images().images().len() as int,
            outcome,
            root,
        }
    }
}

/// At each position, the patches of all the extents put what the extents show.
pub proof fn lemma_patches_show(extents: Seq<ExtentEntry<OverlayExtent>>, position: int)
    requires
        overlays(extents),
    ensures
        latest(patches_of(slices_of_all(extents)), position) == match shown_at(extents, position) {
            Some((_, byte)) => Some(byte),
            None => None,
        },
    decreases extents.len(),
{
    let patches = patches_of(slices_of_all(extents));
    if extents.len() > 0 {
        let rest = extents.drop_last();
        let last = extents.len() - 1;
        assert(extents[last] == extents.last());
        assert forall|i: int| 0 <= i < rest.len() implies from_record(#[trigger] rest[i]) by {
            assert(rest[i] == extents[i]);
        }
        assert(ordered(rest));
        assert(patches.drop_last() =~= patches_of(slices_of_all(rest)));
        assert(patches.last() == patch_of(extent_slice(extents[last])));
        assert(from_record(extents[last]));
        lemma_patches_show(rest, position);
    }
}

/// The images of a compaction that is through hold what reads of the snapshot return: at each
/// position the latest retained write, and elsewhere the committed byte. Where no image is, nothing
/// is retained.
pub proof fn law_compaction_changes_no_byte(
    run: SnapshotCompaction,
    extents: Seq<ExtentEntry<OverlayExtent>>,
    position: int,
)
    requires
        run.wf(),
        run@.applied == run@.slices.len(),
        overlays(extents),
        run@.slices == slices_of_all(extents),
        0 <= position,
    ensures
        forall|i: int|
            0 <= i < run.images().images().len() && (#[trigger] run.images().images()[i]).chunk()
                == position / 33554432 ==> run.images().images()[i].bytes()[position % 33554432]
                == match shown_at(extents, position) {
                Some((_, byte)) => byte,
                None => run.images().images()[i].base()[position % 33554432],
            },
        !has_image(run.images().images(), position / 33554432) ==> shown_at(extents, position)
            is None,
{
    assert(run@.slices.take(run@.applied) =~= run@.slices);
    lemma_patches_show(extents, position);
    lemma_images_hold(run.images(), position);
}

/// Every run of what a read view retains is accepted: nothing is wrong with any run of a
/// compaction of the writes that the view retains, into the root of the view and up to its last
/// applied record.
pub proof fn law_retained_runs_are_accepted(view: ReadViewModel, compaction: SnapshotCompactionView)
    requires
        view.retains(),
        compaction.root == view.root,
        compaction.target == view.last_applied,
        compaction.slices == slices_of_all(view.overlay),
    ensures
        compaction.slices.len() == view.overlay.len(),
        forall|i: int|
            0 <= i < compaction.slices.len() ==> slice_error(
                view.root,
                view.last_applied,
                #[trigger] compaction.slices[i],
            ) is None,
        compaction.fine(0, compaction.slices.len() as int),
{
    assert forall|i: int| 0 <= i < compaction.slices.len() implies slice_error(
        view.root,
        view.last_applied,
        #[trigger] compaction.slices[i],
    ) is None by {
        let extent = view.overlay[i];
        assert(from_record(extent));
        assert(extent.start < extent.end);
        extent.value.record.span().lemma_bounds(extent.value.record.span());
    }
    assert forall|i: int| 0 <= i < compaction.slices.len() implies #[trigger] compaction.error_at(
        i,
    ) is None by {
        assert(slice_error(view.root, view.last_applied, compaction.slices[i]) is None);
    }
}

/// A snapshot is compacted exactly when it has runs of records after the checkpoint of its root, and
/// then with all its runs, none of which has anything wrong with it, up to its last record.
pub proof fn law_a_snapshot_with_writes_is_compacted(
    export_id: ExportId,
    snapshot: ReadViewCompactionSnapshot,
    start: SnapshotStart,
    view: ReadViewModel,
)
    requires
        starts(export_id, snapshot, start),
        view.retains(),
        snapshot.root@ == view.root,
        snapshot.target_wal_seq@ == view.last_applied,
        snapshot.overlay@ == view.overlay,
    ensures
        start is Run <==> view.overlay.len() > 0,
        start matches SnapshotStart::Run(run) ==> {
            &&& run@.root == view.root
            &&& run@.target == view.last_applied
            &&& run@.slices.len() == view.overlay.len()
            &&& run@.applied == 0
            &&& run@.fine(0, run@.slices.len() as int)
        },
        start matches SnapshotStart::Finished(result) ==> result@.root is None && result@.outcome
            != CompactionOutcome::Published,
{
    if view.overlay.len() > 0 {
        assert(view.root.base_wal_seq < view.overlay[0].value.seq@ <= view.last_applied);
    }
    if let SnapshotStart::Run(run) = start {
        law_retained_runs_are_accepted(view, run@);
    }
}

} // verus!
