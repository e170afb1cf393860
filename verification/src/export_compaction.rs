//! Compaction of the log of an export straight into its chunks.

use crate::catalog::{
    clone_node_id, BlobKey, ChunkIndex, ExportHead, ExportId, ExportLayoutKind, NodeId, WalSeq,
};
use crate::chunk_images::{
    has_image, image_added, latest, lemma_images_hold, patch_of, same_chunks, slice_fits,
    ChunkImage, ChunkImages, Patch,
};
use crate::compaction::{CompactionOutcome, CompactionResult, CompactionResultView};
use crate::error::{ErrorView, Result, ServerError};
use crate::overlay::OverlayReadSlice;
use crate::root::{out_of_bounds, validate_range};
use crate::simple_tree::{find_key, key_of};
use crate::splice::zero_bytes;
use crate::text::owned;
use crate::tree_plan::ChunkRef;
use crate::wal::{WalBounds, WalRecord};
use std::sync::Arc;
use vstd::prelude::*;

verus! {

/// The chunks of a copy-on-write tree, as the catalog lists them.
#[derive(Debug)]
pub struct CowTreeSnapshot {
    pub root_node_id: Option<NodeId>,
    pub size_bytes: u64,
    pub base_wal_seq: WalSeq,
    pub chunks: Vec<ChunkRef>,
}

/// New chunks for an export, to take effect only if its head is still the expected one.
#[derive(Debug)]
pub struct PublishCompaction {
    pub export_id: ExportId,
    pub expected_base: ExportHead,
    pub compacted_through: WalSeq,
    pub chunks: Vec<ChunkRef>,
}

/// What became of new chunks.
#[derive(Debug, Clone, Copy, PartialEq, Eq, Structural)]
pub enum PublishCompactionOutcome {
    Published,
    AlreadyCovered,
    StalePlan,
}

impl PublishCompactionOutcome {
    /// What became of the compaction.
    pub open spec fn compacted(self) -> CompactionOutcome {
        match self {
            PublishCompactionOutcome::Published => CompactionOutcome::Published,
            PublishCompactionOutcome::AlreadyCovered => CompactionOutcome::AlreadyCovered,
            PublishCompactionOutcome::StalePlan => CompactionOutcome::StalePlan,
        }
    }

    pub fn compaction_outcome(self) -> (outcome: CompactionOutcome)
        ensures
            outcome == self.compacted(),
    {
        match self {
            PublishCompactionOutcome::Published => CompactionOutcome::Published,
            PublishCompactionOutcome::AlreadyCovered => CompactionOutcome::AlreadyCovered,
            PublishCompactionOutcome::StalePlan => CompactionOutcome::StalePlan,
        }
    }
}

/// Compacts by the list of chunks, or leaf by leaf.
#[derive(Debug, Clone, Copy)]
pub struct CowCompactor {
    lists_chunks: bool,
}

impl CowCompactor {
    /// Whether the compactor works on the list of chunks.
    pub closed spec fn direct(&self) -> bool {
        self.lists_chunks
    }

    /// A compactor that works on the list of chunks.
    pub fn new() -> (compactor: Self)
        ensures
            compactor.direct(),
    {
        Self { lists_chunks: true }
    }

    /// A compactor that loads the tree leaf by leaf.
    pub fn new_lazy() -> (compactor: Self)
        ensures
            !compactor.direct(),
    {
        Self { lists_chunks: false }
    }

    /// Refuses to compact the log of an export where the chunks are not listed.
    pub fn check_direct(&self) -> (result: Result<()>)
        ensures
            match result {
                Ok(_) => self.direct(),
                Err(error) => !self.direct() && error@ == (ErrorView::Catalog {
                    message: "direct export compaction requires legacy COW catalog"@,
                }),
            },
    {
        if self.lists_chunks {
            Ok(())
        } else {
            Err(
                ServerError::catalog(
                    owned("direct export compaction requires legacy COW catalog"),
                ),
            )
        }
    }
}

/// Compaction of the records of a log.
pub struct ExportCompaction {
    export_id: ExportId,
    snapshot: CowTreeSnapshot,
    target_wal_seq: WalSeq,
    compacted_records: u64,
    current: Option<OverlayReadSlice>,
    images: ChunkImages,
    replayed: Ghost<Seq<Arc<WalRecord>>>,
}

/// State of a compaction: what it is for, how many records were taken, those that lie in the export,
/// and the last of them while it is put into the images.
pub struct ExportCompactionView {
    pub export_id: ExportId,
    pub snapshot: CowTreeSnapshot,
    pub target: int,
    pub records: int,
    pub replayed: Seq<Arc<WalRecord>>,
    pub current: Option<OverlayReadSlice>,
}

/// How a compaction begins.
pub enum ExportStart {
    /// There is nothing to do.
    Finished(CompactionResult),
    /// The records after the checkpoint, up to the target, are to be compacted.
    Run(ExportCompaction),
}

impl View for ExportCompaction {
    type V = ExportCompactionView;

    closed spec fn view(&self) -> ExportCompactionView {
        ExportCompactionView {
            export_id: self.export_id,
            snapshot: self.snapshot,
            target: self.target_wal_seq@,
            records: self.compacted_records as int,
            replayed: self.replayed@,
            current: self.current,
        }
    }
}

/// What a record writes.
pub open spec fn record_patch(record: Arc<WalRecord>) -> Patch {
    Patch { start: record.span().first(), bytes: record.payload() }
}

/// What records write, in their order.
pub open spec fn record_patches(records: Seq<Arc<WalRecord>>) -> Seq<Patch> {
    records.map_values(|record: Arc<WalRecord>| record_patch(record))
}

/// The last record that is compacted: one that is durable and not after the one asked for.
pub open spec fn target_of(through: int, last_durable: int) -> int {
    if through < last_durable {
        through
    } else {
        last_durable
    }
}

/// The whole of a record.
pub open spec fn is_record_slice(slice: OverlayReadSlice, record: Arc<WalRecord>) -> bool {
    &&& slice.start == record.span().first()
    &&& slice.end == record.span().limit()
    &&& slice.record == record
    &&& slice.record_offset == 0
}

/// A chunk that has to be loaded, and its blob if it has one.
pub struct ChunkLoad {
    pub chunk_index: ChunkIndex,
    pub key: Option<BlobKey>,
}

/// What a compaction does with the next record of the log.
pub open spec fn replays(
    before: ExportCompactionView,
    after: ExportCompactionView,
    record: Arc<WalRecord>,
    result: Result<()>,
) -> bool {
    if record.span().limit() > before.snapshot.size_bytes {
        &&& result matches Err(error) && error@ == out_of_bounds(
            "compact WAL record"@,
            record.span().first(),
            record.span().size(),
            before.snapshot.size_bytes as int,
        )
        &&& after == (ExportCompactionView {
            records: before.records + 1,
            ..before
        })
    } else {
        &&& result is Ok
        &&& after == (ExportCompactionView {
            records: before.records + 1,
            replayed: before.replayed.push(record),
            current: after.current,
            ..before
        })
        &&& after.current matches Some(slice) && is_record_slice(slice, record)
    }
}

/// How a run ends at its start, where there is nothing to replay.
pub open spec fn ends_without_records(
    run: ExportCompactionView,
    result: Option<CompactionResult>,
) -> bool {
    match result {
        Some(result) => run.records == 0 && result@ == (CompactionResultView {
            export_id: run.export_id,
            base: run.snapshot.base_wal_seq@,
            target: run.target,
            records: 0,
            blobs: 0,
            outcome: CompactionOutcome::NoRecords,
            root: None,
        }),
        None => run.records > 0,
    }
}

impl ExportCompaction {
    pub closed spec fn images(&self) -> ChunkImages {
        self.images
    }

    /// The images hold the records, but for the one that is still put into them.
    pub open spec fn wf(&self) -> bool {
        &&& self.images().wf()
        &&& match self@.current {
            Some(slice) => {
                &&& slice_fits(slice)
                &&& self@.replayed.len() > 0
                &&& self@.replayed.last().wf()
                &&& is_record_slice(slice, self@.replayed.last())
                &&& self.images().patches() == record_patches(self@.replayed.drop_last())
            },
            None => self.images().patches() == record_patches(self@.replayed),
        }
    }

    /// Starts the compaction of the records up to one, as far as they are durable.
    pub fn begin(
        export_id: &ExportId,
        snapshot: CowTreeSnapshot,
        bounds: &WalBounds,
        through_wal_seq: WalSeq,
    ) -> (start: ExportStart)
        ensures
            ({
                let target = target_of(through_wal_seq@, bounds.last_durable@);
                match start {
                    ExportStart::Finished(result) => {
                        &&& target <= snapshot.base_wal_seq@
                        &&& result@ == (CompactionResultView {
                            export_id: *export_id,
                            base: snapshot.base_wal_seq@,
                            target,
                            records: 0,
                            blobs: 0,
                            outcome: CompactionOutcome::AlreadyCovered,
                            root: None,
                        })
                    },
                    ExportStart::Run(run) => {
                        &&& target > snapshot.base_wal_seq@
                        &&& run.wf()
                        &&& run@ == (ExportCompactionView {
                            export_id: *export_id,
                            snapshot,
                            target,
                            records: 0,
                            replayed: Seq::empty(),
                            current: None,
                        })
                        &&& run.images().images().len() == 0
                        &&& run.images().patches().len() == 0
                    },
                }
            }),
    {
        let target = if through_wal_seq.get() < bounds.last_durable.get() {
            through_wal_seq
        } else {
            bounds.last_durable
        };
        if target.get() <= snapshot.base_wal_seq.get() {
            return ExportStart::Finished(
                CompactionResult::idle(
                    export_id,
                    snapshot.base_wal_seq,
                    target,
                    CompactionOutcome::AlreadyCovered,
                ),
            );
        }
        let run = ExportCompaction {
            export_id: export_id.clone(),
            snapshot,
            target_wal_seq: target,
            compacted_records: 0,
            current: None,
            images: ChunkImages::new(),
            replayed: Ghost(Seq::empty()),
        };
        proof {
            assert(run.images().patches() =~= record_patches(Seq::empty()));
        }
        ExportStart::Run(run)
    }

    pub fn base_wal_seq(&self) -> (seq: WalSeq)
        ensures
            seq == self@.snapshot.base_wal_seq,
    {
        self.snapshot.base_wal_seq
    }

    pub fn target_wal_seq(&self) -> (seq: WalSeq)
        ensures
            seq@ == self@.target,
    {
        self.target_wal_seq
    }

    /// Whether another record can be counted.
    pub fn has_room(&self) -> (room: bool)
        ensures
            room == (self@.records < u64::MAX),
    {
        self.compacted_records < u64::MAX
    }

    /// Takes the next record of the log.
    pub fn record_replayed(&mut self, record: Arc<WalRecord>) -> (result: Result<()>)
        requires
            old(self).wf(),
            old(self)@.current is None,
            old(self)@.records < u64::MAX,
        ensures
            final(self).wf(),
            final(self).images() == old(self).images(),
            replays(old(self)@, final(self)@, record, result),
    {
        self.compacted_records = self.compacted_records + 1;
        let range = record.range();
        match validate_range("compact WAL record", range, self.snapshot.size_bytes) {
            Ok(_) => {},
            Err(error) => {
                return Err(error);
            },
        }
        proof {
            range.lemma_bounds(range);
            let before = self.replayed@;
            self.replayed@ = before.push(record);
            assert(self.replayed@.drop_last() =~= before);
        }
        self.current = Some(
            OverlayReadSlice {
                start: range.start(),
                end: range.start() + range.len(),
                record,
                record_offset: 0,
            },
        );
        Ok(())
    }

    /// Puts the record into the images, or says which chunk has to be loaded first.
    pub fn next_chunk(&mut self) -> (load: Option<ChunkLoad>)
        requires
            old(self).wf(),
        ensures
            final(self).wf(),
            match load {
                Some(load) => {
                    &&& *final(self) == *old(self)
                    &&& old(self)@.current is Some
                    &&& patch_of(old(self)@.current->0).touches(load.chunk_index@)
                    &&& !has_image(old(self).images().images(), load.chunk_index@)
                    &&& forall|earlier: int|
                        patch_of(old(self)@.current->0).touches(earlier) && earlier
                            < load.chunk_index@ ==> #[trigger] has_image(
                            old(self).images().images(),
                            earlier,
                        )
                    &&& match load.key {
                        Some(key) => key_of(
                            old(self)@.snapshot.chunks@,
                            load.chunk_index@,
                        ) == Some(key@),
                        None => key_of(old(self)@.snapshot.chunks@, load.chunk_index@) is None,
                    }
                },
                None => match old(self)@.current {
                    Some(slice) => {
                        &&& final(self)@ == (ExportCompactionView { current: None, ..old(self)@ })
                        &&& final(self).images().patches() == old(self).images().patches().push(
                            patch_of(slice),
                        )
                        &&& same_chunks(
                            old(self).images().images(),
                            final(self).images().images(),
                        )
                    },
                    None => *final(self) == *old(self),
                },
            },
    {
        let chunk_index = match &self.current {
            Some(slice) => match self.images.missing_chunk(slice) {
                Some(chunk_index) => chunk_index,
                None => {
                    self.images.apply(slice);
                    proof {
                        let records = self.replayed@;
                        let patch = patch_of(*slice);
                        assert(patch.bytes =~= records.last().payload());
                        assert(record_patches(records) =~= record_patches(
                            records.drop_last(),
                        ).push(patch));
                    }
                    self.current = None;
                    return None;
                },
            },
            None => {
                return None;
            },
        };
        let key = find_key(&self.snapshot.chunks, chunk_index);
        Some(ChunkLoad { chunk_index, key })
    }

    /// Takes in the bytes of the blob of a chunk.
    pub fn chunk_loaded(&mut self, chunk_index: ChunkIndex, committed: Vec<u8>)
        requires
            old(self).wf(),
            !has_image(old(self).images().images(), chunk_index@),
            chunk_index@ * 33554432 <= u64::MAX,
            committed@.len() == 33554432,
        ensures
            final(self).wf(),
            final(self)@ == old(self)@,
            final(self).images().patches() == old(self).images().patches(),
            forall|chunk: int|
                #[trigger] has_image(final(self).images().images(), chunk) <==> chunk
                    == chunk_index@ || has_image(old(self).images().images(), chunk),
            image_added(
                old(self).images().images(),
                final(self).images().images(),
                chunk_index@,
                committed@,
            ),
    {
        self.images.insert(chunk_index, committed);
    }

    /// A chunk has no blob: it holds nothing but zeros.
    pub fn chunk_missing(&mut self, chunk_index: ChunkIndex)
        requires
            old(self).wf(),
            !has_image(old(self).images().images(), chunk_index@),
            chunk_index@ * 33554432 <= u64::MAX,
        ensures
            final(self).wf(),
            final(self)@ == old(self)@,
            final(self).images().patches() == old(self).images().patches(),
            forall|chunk: int|
                #[trigger] has_image(final(self).images().images(), chunk) <==> chunk
                    == chunk_index@ || has_image(old(self).images().images(), chunk),
            image_added(
                old(self).images().images(),
                final(self).images().images(),
                chunk_index@,
                zero_bytes(33554432),
            ),
    {
        self.images.insert_zeros(chunk_index);
    }

    /// How many images have to be stored.
    pub fn image_count(&self) -> (count: usize)
        ensures
            count == self.images().images().len(),
    {
        self.images.len()
    }

    /// An image that has to be stored. The images are in ascending order of their chunks.
    pub fn image(&self, index: usize) -> (image: &ChunkImage)
        requires
            index < self.images().images().len(),
        ensures
            *image == self.images().images()[index as int],
    {
        self.images.image(index)
    }

    /// The result where the log held no record.
    pub fn no_records(&self) -> (result: Option<CompactionResult>)
        ensures
            ends_without_records(self@, result),
    {
        if self.compacted_records > 0 {
            return None;
        }
        Some(
            CompactionResult::idle(
                &self.export_id,
                self.snapshot.base_wal_seq,
                self.target_wal_seq,
                CompactionOutcome::NoRecords,
            ),
        )
    }

    /// The new list of chunks, once the images were stored under keys: they take the place of
    /// theirs.
    pub fn publication(&self, keys: &Vec<BlobKey>) -> (publication: PublishCompaction)
        requires
            self.wf(),
            keys@.len() == self.images().images().len(),
        ensures
            publication.export_id == self@.export_id,
            publication.expected_base == (ExportHead {
                layout_kind: ExportLayoutKind::CowImmutableTree,
                root_node_id: self@.snapshot.root_node_id,
                size_bytes: self@.snapshot.size_bytes,
                base_wal_seq: self@.snapshot.base_wal_seq,
                tree_format: None,
            }),
            publication.compacted_through@ == self@.target,
            ascending(publication.chunks@),
            takes_place(
                self.images().images(),
                keys@,
                self@.snapshot.chunks@,
                publication.chunks@,
            ),
    {
        let stored = stored_chunks(&self.images, keys);
        PublishCompaction {
            export_id: self.export_id.clone(),
            expected_base: ExportHead {
                layout_kind: ExportLayoutKind::CowImmutableTree,
                root_node_id: clone_node_id(&self.snapshot.root_node_id),
                size_bytes: self.snapshot.size_bytes,
                base_wal_seq: self.snapshot.base_wal_seq,
                tree_format: None,
            },
            compacted_through: self.target_wal_seq,
            chunks: merged_chunks(&self.snapshot.chunks, &stored),
        }
    }

    /// What the compaction did, given what became of the new chunks.
    pub fn finish(self, outcome: PublishCompactionOutcome) -> (result: CompactionResult)
        ensures
            result@ == (CompactionResultView {
                export_id: self@.export_id,
                base: self@.snapshot.base_wal_seq@,
                target: self@.target,
                records: self@.records,
                blobs: self.images().images().len() as int,
                outcome: outcome.compacted(),
                root: None,
            }),
    {
        let blobs: usize = self.images.len();
        CompactionResult::finished(
            self.export_id,
            self.snapshot.base_wal_seq,
            self.target_wal_seq,
            self.compacted_records,
            blobs as u64,
            outcome.compaction_outcome(),
            None,
        )
    }
}

/// The chunks of the images have the keys, and all others the keys that they have in the list.
pub open spec fn takes_place(
    images: Seq<ChunkImage>,
    keys: Seq<BlobKey>,
    listed: Seq<ChunkRef>,
    chunks: Seq<ChunkRef>,
) -> bool {
    &&& forall|i: int|
        0 <= i < images.len() ==> key_of(chunks, (#[trigger] images[i]).chunk()) == Some(keys[i]@)
    &&& forall|chunk: int|
        !has_image(images, chunk) ==> #[trigger] key_of(chunks, chunk) == key_of(listed, chunk)
}

/// The chunks are in ascending order, each once.
pub open spec fn ascending(chunks: Seq<ChunkRef>) -> bool {
    forall|i: int, j: int|
        0 <= i < j < chunks.len() ==> (#[trigger] chunks[i]).index() < (#[trigger] chunks[j]).index()
}

/// The list with a chunk in it, in the place of one with the same index if there is one.
fn insert_chunk(chunks: &mut Vec<ChunkRef>, chunk: ChunkRef)
    requires
        ascending(old(chunks)@),
    ensures
        ascending(final(chunks)@),
        forall|index: int| #[trigger]
            key_of(final(chunks)@, index) == if index == chunk.index() {
                Some(chunk.key())
            } else {
                key_of(old(chunks)@, index)
            },
{
    let ghost before = chunks@;
    let mut place: usize = chunks.len();
    while place > 0 && chunks[place - 1].chunk_index().get() > chunk.chunk_index().get()
        invariant
            chunks@ == before,
            place <= before.len(),
            forall|i: int|
                place <= i < before.len() ==> chunk.index() < (#[trigger] before[i]).index(),
        decreases place,
    {
        place = place - 1;
    }
    let ghost added = chunk;
    if place > 0 && chunks[place - 1].chunk_index().get() == chunk.chunk_index().get() {
        chunks.set(place - 1, chunk);
        proof {
            assert forall|index: int| #[trigger] key_of(chunks@, index) == if index
                == added.index() {
                Some(added.key())
            } else {
                key_of(before, index)
            } by {
                lemma_key_set(before, place - 1, added, index);
            }
        }
    } else {
        proof {
            assert forall|i: int| 0 <= i < place implies (#[trigger] before[i]).index()
                < added.index() by {
                assert(before[place - 1].index() < added.index());
                if i < place - 1 {
                    assert(before[i].index() < before[place - 1].index());
                }
            }
        }
        chunks.insert(place, chunk);
        proof {
            let after = chunks@;
            assert forall|i: int, j: int| 0 <= i < j < after.len() implies (
            #[trigger] after[i]).index() < (#[trigger] after[j]).index() by {
                if i < place {
                    assert(after[i] == before[i]);
                } else if i > place {
                    assert(after[i] == before[i - 1]);
                }
                if j < place {
                    assert(after[j] == before[j]);
                } else if j > place {
                    assert(after[j] == before[j - 1]);
                }
            }
            assert forall|index: int| #[trigger] key_of(after, index) == if index == added.index() {
                Some(added.key())
            } else {
                key_of(before, index)
            } by {
                lemma_key_insert(before, place as int, added, index);
            }
        }
    }
}

/// Replacing the entry of a chunk changes only its key.
proof fn lemma_key_set(chunks: Seq<ChunkRef>, place: int, chunk: ChunkRef, index: int)
    requires
        ascending(chunks),
        0 <= place < chunks.len(),
        chunks[place].index() == chunk.index(),
    ensures
        key_of(chunks.update(place, chunk), index) == if index == chunk.index() {
            Some(chunk.key())
        } else {
            key_of(chunks, index)
        },
    decreases chunks.len(),
{
    let after = chunks.update(place, chunk);
    let last = chunks.len() - 1;
    assert(chunks[last] == chunks.last() && after[last] == after.last());
    if place == last {
        assert(after.drop_last() =~= chunks.drop_last());
    } else {
        assert(chunks[place].index() < chunks[last].index());
        assert(after.drop_last() =~= chunks.drop_last().update(place, chunk));
        assert forall|i: int, j: int| 0 <= i < j < chunks.drop_last().len() implies (
        #[trigger] chunks.drop_last()[i]).index() < (#[trigger] chunks.drop_last()[j]).index() by {
            assert(chunks[i].index() < chunks[j].index());
        }
        lemma_key_set(chunks.drop_last(), place, chunk, index);
    }
}

/// An entry for a new chunk gives just that chunk a key.
proof fn lemma_key_insert(chunks: Seq<ChunkRef>, place: int, chunk: ChunkRef, index: int)
    requires
        0 <= place <= chunks.len(),
        forall|i: int| place <= i < chunks.len() ==> (#[trigger] chunks[i]).index() != chunk.index(),
    ensures
        key_of(chunks.insert(place, chunk), index) == if index == chunk.index() {
            Some(chunk.key())
        } else {
            key_of(chunks, index)
        },
    decreases chunks.len(),
{
    let after = chunks.insert(place, chunk);
    if place == chunks.len() {
        assert(after.drop_last() =~= chunks);
        assert(after.last() == chunk);
    } else {
        let last = chunks.len() - 1;
        assert(after.last() == chunks[last] && chunks.last() == chunks[last]);
        assert(after.drop_last() =~= chunks.drop_last().insert(place, chunk));
        assert forall|i: int| place <= i < last implies (#[trigger] chunks.drop_last()[i]).index()
            != chunk.index() by {
            assert(chunks.drop_last()[i] == chunks[i]);
        }
        lemma_key_insert(chunks.drop_last(), place, chunk, index);
    }
}

/// The chunks that images make, once they were stored under keys.
pub(crate) fn stored_chunks(images: &ChunkImages, keys: &Vec<BlobKey>) -> (chunks: Vec<ChunkRef>)
    requires
        images.wf(),
        keys@.len() == images.images().len(),
    ensures
        forall|i: int|
            0 <= i < keys@.len() ==> key_of(
                chunks@,
                (#[trigger] images.images()[i]).chunk(),
            ) == Some(keys@[i]@),
        forall|chunk: int|
            !has_image(images.images(), chunk) ==> #[trigger] key_of(chunks@, chunk) is None,
{
    let mut chunks: Vec<ChunkRef> = Vec::new();
    let mut index: usize = 0;
    while index < keys.len()
        invariant
            images.wf(),
            keys@.len() == images.images().len(),
            index <= keys@.len(),
            forall|i: int|
                0 <= i < index ==> key_of(
                    chunks@,
                    (#[trigger] images.images()[i]).chunk(),
                ) == Some(keys@[i]@),
            forall|chunk: int|
                !has_image(images.images(), chunk) ==> #[trigger] key_of(chunks@, chunk) is None,
        decreases keys@.len() - index,
    {
        let chunk_index = images.image(index).chunk_index();
        let ghost before = chunks@;
        let chunk = ChunkRef::whole(chunk_index, keys[index].clone());
        chunks.push(chunk);
        proof {
            assert(chunks@.drop_last() =~= before);
            assert(images.images()[index as int].chunk() == chunk.index());
            assert forall|i: int| 0 <= i < index implies key_of(
                chunks@,
                (#[trigger] images.images()[i]).chunk(),
            ) == Some(keys@[i]@) by {
                assert(images.images()[i].chunk() < images.images()[index as int].chunk());
            }
            assert forall|other: int| !has_image(
                images.images(),
                other,
            ) implies #[trigger] key_of(chunks@, other) is None by {
                assert(key_of(before, other) is None);
                assert(images.images()[index as int].chunk() != other);
            }
        }
        index = index + 1;
    }
    chunks
}

/// The listed chunks with the stored ones in the place of theirs.
pub(crate) fn merged_chunks(listed: &Vec<ChunkRef>, stored: &Vec<ChunkRef>) -> (chunks: Vec<ChunkRef>)
    ensures
        ascending(chunks@),
        forall|chunk: int| #[trigger]
            key_of(chunks@, chunk) == match key_of(stored@, chunk) {
                Some(key) => Some(key),
                None => key_of(listed@, chunk),
            },
{
    let mut chunks: Vec<ChunkRef> = Vec::new();
    let mut index: usize = 0;
    while index < listed.len()
        invariant
            index <= listed@.len(),
            ascending(chunks@),
            forall|chunk: int| #[trigger]
                key_of(chunks@, chunk) == key_of(listed@.take(index as int), chunk),
        decreases listed@.len() - index,
    {
        insert_chunk(&mut chunks, listed[index].clone());
        index = index + 1;
        proof {
            assert(listed@.take(index as int).drop_last() =~= listed@.take(index - 1));
        }
    }
    proof {
        assert(listed@.take(index as int) =~= listed@);
    }
    let mut given: usize = 0;
    while given < stored.len()
        invariant
            given <= stored@.len(),
            ascending(chunks@),
            forall|chunk: int| #[trigger]
                key_of(chunks@, chunk) == match key_of(stored@.take(given as int), chunk) {
                    Some(key) => Some(key),
                    None => key_of(listed@, chunk),
                },
        decreases stored@.len() - given,
    {
        insert_chunk(&mut chunks, stored[given].clone());
        given = given + 1;
        proof {
            assert(stored@.take(given as int).drop_last() =~= stored@.take(given - 1));
        }
    }
    proof {
        assert(stored@.take(given as int) =~= stored@);
    }
    chunks
}

/// Compacting a log changes no byte outside its records: the images hold at each position what the
/// last record there wrote, and elsewhere the committed byte. Where no image is, no record wrote.
pub proof fn law_log_compaction_changes_no_byte(run: ExportCompaction, position: int)
    requires
        run.wf(),
        run@.current is None,
        0 <= position,
    ensures
        forall|i: int|
            0 <= i < run.images().images().len() && (#[trigger] run.images().images()[i]).chunk()
                == position / 33554432 ==> run.images().images()[i].bytes()[position % 33554432]
                == match latest(record_patches(run@.replayed), position) {
                Some(byte) => byte,
                None => run.images().images()[i].base()[position % 33554432],
            },
        !has_image(run.images().images(), position / 33554432) ==> latest(
            record_patches(run@.replayed),
            position,
        ) is None,
{
    lemma_images_hold(run.images(), position);
}

/// A compaction goes up to the record that was asked for, or to the last durable one where that
/// comes first.
pub proof fn law_compaction_stops_at_the_last_durable_record(through: int, last_durable: int)
    ensures
        target_of(through, last_durable) <= through,
        target_of(through, last_durable) <= last_durable,
        target_of(through, last_durable) == through || target_of(through, last_durable)
            == last_durable,
{
}

/// A compaction is published exactly when its publication was, and otherwise says why not.
pub proof fn law_outcome_is_that_of_the_publication(outcome: PublishCompactionOutcome)
    ensures
        outcome.compacted() == CompactionOutcome::Published <==> outcome
            == PublishCompactionOutcome::Published,
        outcome.compacted() == CompactionOutcome::StalePlan <==> outcome
            == PublishCompactionOutcome::StalePlan,
        outcome.compacted() == CompactionOutcome::AlreadyCovered <==> outcome
            == PublishCompactionOutcome::AlreadyCovered,
{
}

/// The patch of a record holds the bytes of the record at the positions that it wrote, and where a
/// record comes last among those that write to a position, its byte is the latest there.
pub proof fn law_the_last_record_wins(records: Seq<Arc<WalRecord>>, index: int, position: int)
    requires
        0 <= index < records.len(),
        records[index].wf(),
        records[index].span().covers(position),
        forall|later: int|
            index < later < records.len() ==> (#[trigger] records[later]).wf()
                && !records[later].span().covers(position),
    ensures
        latest(record_patches(records), position) == Some(
            records[index].payload()[position - records[index].span().first()],
        ),
    decreases records.len(),
{
    let patches = record_patches(records);
    let last = records.len() - 1;
    assert(patches.last() == record_patch(records[last]));
    if index < last {
        let front = records.drop_last();
        assert(records[last].wf() && !records[last].span().covers(position));
        assert(patches.drop_last() =~= record_patches(front));
        assert forall|later: int| index < later < front.len() implies (
        #[trigger] front[later]).wf() && !front[later].span().covers(position) by {
            assert(records[later].wf() && !records[later].span().covers(position));
        }
        law_the_last_record_wins(front, index, position);
    }
}

/// Every record of the log that lies in the export is taken, behind those before it and whole; one
/// that does not is refused. Either is counted.
pub proof fn law_every_record_in_the_export_is_replayed(
    before: ExportCompactionView,
    after: ExportCompactionView,
    record: Arc<WalRecord>,
    result: Result<()>,
)
    requires
        replays(before, after, record, result),
    ensures
        result is Ok <==> record.span().limit() <= before.snapshot.size_bytes,
        result matches Err(error) ==> error@ is OutOfBounds && after.replayed == before.replayed,
        result is Ok ==> {
            &&& after.replayed == before.replayed.push(record)
            &&& after.current is Some
            &&& after.current->0.record == record
            &&& after.current->0.start == record.span().first()
            &&& after.current->0.end == record.span().limit()
            &&& after.current->0.record_offset == 0
        },
        after.records == before.records + 1,
        after.target == before.target,
        after.snapshot == before.snapshot,
{
}

/// A run ends at its start exactly when it has no record to replay, and then it published nothing.
pub proof fn law_a_run_without_records_publishes_nothing(
    run: ExportCompactionView,
    result: Option<CompactionResult>,
)
    requires
        ends_without_records(run, result),
        run.records >= 0,
    ensures
        result is Some <==> run.records == 0,
        result matches Some(result) ==> {
            &&& result@.outcome is NoRecords
            &&& result@.root is None
            &&& result@.records == 0 && result@.blobs == 0
            &&& result@.export_id == run.export_id
            &&& result@.base == run.snapshot.base_wal_seq@ && result@.target == run.target
        },
{
}

} // verus!
