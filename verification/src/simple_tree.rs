//! The mutable tree behind an export without a write-ahead log.

use crate::catalog::{
    clone_node_id, node_text, BlobKey, ChunkIndex, ExportDescriptor, ExportHead, ExportId,
    ExportLayoutKind, ExportRecord, NodeId, TreeFormat, TreeStorageKind, WalSeq,
};
use crate::committed_read::{checked_leaf_blob, leaf_blob_is};
use crate::error::{ErrorView, Result, ServerError};
use crate::geometry::{geometry_error, tree_failure, TreeGeometry};
use crate::leaf_walk::{LazyTreeMetadataReader, LoadedTreeLeaf};
use crate::simple_plan::SimpleTreeCommitPlanner;
use crate::text::{concat_three, owned, text_with_number, with_number, with_two_numbers};
use crate::tree_plan::{ChunkRef, TreeRecordBatch};
use vstd::prelude::*;
use vstd::string::*;

verus! {

/// What is known of a mutable tree: its root, and the blobs of the chunks that were looked up.
#[derive(Debug)]
pub struct SimpleMutableTree {
    export_id: ExportId,
    root_node_id: Option<NodeId>,
    tree_format: TreeFormat,
    geometry: TreeGeometry,
    chunks: Vec<ChunkRef>,
}

/// What is known of a mutable tree.
pub struct SimpleTreeView {
    pub export_id: ExportId,
    pub geometry: TreeGeometry,
    pub root: Option<Seq<char>>,
    pub chunks: Seq<ChunkRef>,
}

impl View for SimpleMutableTree {
    type V = SimpleTreeView;

    closed spec fn view(&self) -> SimpleTreeView {
        SimpleTreeView {
            export_id: self.export_id,
            geometry: self.geometry,
            root: node_text(self.root_node_id),
            chunks: self.chunks@,
        }
    }
}

/// The key of the blob of a chunk, if it is known: that of the last entry for the chunk.
pub open spec fn key_of(chunks: Seq<ChunkRef>, chunk: int) -> Option<Seq<char>>
    decreases chunks.len(),
{
    if chunks.len() == 0 {
        None
    } else if chunks.last().index() == chunk {
        Some(chunks.last().key())
    } else {
        key_of(chunks.drop_last(), chunk)
    }
}

/// The key of the blob of a chunk.
pub fn find_key(chunks: &Vec<ChunkRef>, chunk_index: ChunkIndex) -> (key: Option<BlobKey>)
    ensures
        match key {
            Some(key) => key_of(chunks@, chunk_index@) == Some(key@),
            None => key_of(chunks@, chunk_index@) is None,
        },
{
    let mut index: usize = chunks.len();
    proof {
        assert(chunks@.take(index as int) =~= chunks@);
    }
    while index > 0
        invariant
            index <= chunks@.len(),
            key_of(chunks@, chunk_index@) == key_of(chunks@.take(index as int), chunk_index@),
        decreases index,
    {
        index = index - 1;
        let chunk = &chunks[index];
        proof {
            assert(chunks@.take(index + 1).last() == chunks@[index as int]);
            assert(chunks@.take(index + 1).drop_last() =~= chunks@.take(index as int));
        }
        if chunk.chunk_index().get() == chunk_index.get() {
            return Some(chunk.blob_key().clone());
        }
    }
    None
}

/// Why a head cannot be that of a mutable tree.
pub open spec fn simple_head_error(head: ExportHead) -> Option<ErrorView> {
    if head.layout_kind != ExportLayoutKind::SimpleMutableTree {
        Some(
            tree_failure(
                "simple durable export requires simple_mutable_tree head, got "@
                    + head.layout_kind.word() + ""@,
            ),
        )
    } else if head.tree_format is None {
        Some(tree_failure("simple durable head is missing tree format"@))
    } else {
        geometry_error(head.size_bytes as int)
    }
}

/// The head of a mutable tree with a root.
pub open spec fn is_simple_head(head: ExportHead, root: Option<Seq<char>>, size_bytes: int) -> bool {
    &&& head.layout_kind == ExportLayoutKind::SimpleMutableTree
    &&& node_text(head.root_node_id) == root
    &&& head.size_bytes == size_bytes
    &&& head.base_wal_seq@ == 0
    &&& head.tree_format is Some
}

/// An update of a tree that takes effect only if the head is still the expected one.
#[derive(Debug)]
pub struct PublishTreeUpdate {
    pub export_id: ExportId,
    pub expected_head: ExportHead,
    pub next_head: ExportHead,
    pub records: TreeRecordBatch,
}

/// What became of an update, with the export as it then was.
#[derive(Debug)]
pub enum PublishTreeUpdateOutcome {
    Published(ExportRecord),
    StaleHead(ExportRecord),
}

/// An optional node identity in a message.
pub open spec fn node_in_message(id: Option<Seq<char>>) -> Seq<char> {
    match id {
        Some(id) => "Some(NodeId(\""@ + id + "\"))"@,
        None => "None"@,
    }
}

/// What the outcome of publishing new chunks does to a tree.
pub open spec fn publishes(
    before: SimpleTreeView,
    after: SimpleTreeView,
    outcome: PublishTreeUpdateOutcome,
    next_root: Option<NodeId>,
    chunks: Seq<ChunkRef>,
    result: Result<()>,
) -> bool {
    match outcome {
        PublishTreeUpdateOutcome::Published(_) => {
            &&& result is Ok
            &&& after.export_id == before.export_id
            &&& after.geometry == before.geometry
            &&& after.root == node_text(next_root)
            &&& with_chunks(before.chunks, after.chunks, chunks)
        },
        PublishTreeUpdateOutcome::StaleHead(record) => {
            &&& result matches Err(error) && error@ == tree_failure(
                "simple tree publish lost stale head race; current root is "@
                    + node_in_message(node_text(record.head.root_node_id)),
            )
            &&& after == before
        },
    }
}

impl SimpleMutableTree {
    pub closed spec fn wf(&self) -> bool {
        self.geometry.wf()
    }

    /// The tree that a head points at.
    pub fn load(descriptor: &ExportDescriptor, head: &ExportHead) -> (result: Result<Self>)
        ensures
            match result {
                Ok(tree) => {
                    &&& simple_head_error(*head) is None
                    &&& tree.wf()
                    &&& tree@.export_id == descriptor.id
                    &&& tree@.geometry.total() == head.size_bytes
                    &&& tree@.root == node_text(head.root_node_id)
                    &&& tree@.chunks.len() == 0
                },
                Err(error) => simple_head_error(*head) == Some(error@),
            },
    {
        if head.layout_kind != ExportLayoutKind::SimpleMutableTree {
            return Err(
                ServerError::catalog(
                    concat_three(
                        "simple durable export requires simple_mutable_tree head, got ",
                        head.layout_kind.as_str(),
                        "",
                    ),
                ),
            );
        }
        let tree_format = match head.tree_format {
            Some(format) => format,
            None => {
                return Err(
                    ServerError::catalog(owned("simple durable head is missing tree format")),
                );
            },
        };
        match TreeGeometry::new(tree_format, head.size_bytes) {
            Ok(geometry) => Ok(
                Self {
                    export_id: descriptor.id.clone(),
                    root_node_id: clone_node_id(&head.root_node_id),
                    tree_format,
                    geometry,
                    chunks: Vec::new(),
                },
            ),
            Err(error) => Err(error),
        }
    }

    pub fn size_bytes(&self) -> (size_bytes: u64)
        ensures
            size_bytes == self@.geometry.total(),
    {
        self.geometry.size_bytes()
    }

    /// The head that points at the tree.
    pub fn export_head(&self) -> (head: ExportHead)
        ensures
            is_simple_head(head, self@.root, self@.geometry.total()),
    {
        self.head_with(clone_node_id(&self.root_node_id))
    }

    fn head_with(&self, root_node_id: Option<NodeId>) -> (head: ExportHead)
        ensures
            is_simple_head(head, node_text(root_node_id), self@.geometry.total()),
    {
        ExportHead {
            layout_kind: ExportLayoutKind::SimpleMutableTree,
            root_node_id,
            size_bytes: self.geometry.size_bytes(),
            base_wal_seq: WalSeq::zero(),
            tree_format: Some(self.tree_format),
        }
    }

    /// The key of the blob of a chunk, if it is known without a look at the catalog.
    pub fn known_chunk(&self, chunk_index: ChunkIndex) -> (key: Option<BlobKey>)
        ensures
            match key {
                Some(key) => key_of(self@.chunks, chunk_index@) == Some(key@),
                None => key_of(self@.chunks, chunk_index@) is None,
            },
    {
        find_key(&self.chunks, chunk_index)
    }

    /// Finds the leaves that are not known yet.
    pub fn metadata_reader(&self) -> (reader: LazyTreeMetadataReader)
        ensures
            reader.shape() == self@.geometry,
            reader.layout() == ExportLayoutKind::SimpleMutableTree,
            reader.root() == self@.root,
    {
        LazyTreeMetadataReader::new(
            self.geometry,
            ExportLayoutKind::SimpleMutableTree,
            clone_node_id(&self.root_node_id),
        )
    }

    /// Remembers the leaf of a chunk that was found, unless the chunk is known by now. Leaves of a
    /// mutable tree are mutable blobs of a whole chunk.
    pub fn remember_leaf(&mut self, leaf: &LoadedTreeLeaf) -> (result: Result<BlobKey>)
        requires
            old(self).wf(),
        ensures
            final(self).wf(),
            if leaf.reference().storage_kind != TreeStorageKind::MutableBlob {
                &&& result is Err
                &&& leaf_blob_is(
                    result,
                    *leaf,
                    TreeStorageKind::MutableBlob,
                    "simple tree chunk "@,
                )
                &&& *final(self) == *old(self)
            } else if leaf.reference().len_bytes != 33554432 {
                &&& result matches Err(error) && error@ == tree_failure(
                    with_two_numbers(
                        "chunk "@,
                        leaf.chunk() as nat,
                        " has blob length "@,
                        leaf.reference().len_bytes as nat,
                        ""@,
                    ),
                )
                &&& *final(self) == *old(self)
            } else {
                &&& result matches Ok(key) && key@ == leaf.reference().storage_key@
                &&& if key_of(old(self)@.chunks, leaf.chunk()) is Some {
                    *final(self) == *old(self)
                } else {
                    &&& final(self)@ == (SimpleTreeView {
                        chunks: final(self)@.chunks,
                        ..old(self)@
                    })
                    &&& final(self)@.chunks.len() == old(self)@.chunks.len() + 1
                    &&& final(self)@.chunks.drop_last() == old(self)@.chunks
                    &&& final(self)@.chunks.last().index() == leaf.chunk()
                    &&& final(self)@.chunks.last().key() == leaf.reference().storage_key@
                }
            },
    {
        let key = match checked_leaf_blob(leaf, TreeStorageKind::MutableBlob, "simple tree chunk ") {
            Ok(key) => key,
            Err(error) => {
                return Err(error);
            },
        };
        let chunk = match ChunkRef::new(leaf.chunk_index(), key.clone(), leaf.leaf_ref().len_bytes) {
            Ok(chunk) => chunk,
            Err(error) => {
                return Err(error);
            },
        };
        if self.known_chunk(leaf.chunk_index()).is_none() {
            self.chunks.push(chunk);
            proof {
                assert(self.chunks@.drop_last() =~= old(self).chunks@);
            }
        }
        Ok(key)
    }

    /// Plans the records of new chunks.
    pub fn planner(&self) -> (planner: SimpleTreeCommitPlanner)
        ensures
            planner.wf(),
            planner@.geometry == self@.geometry,
            planner@.owner == self@.export_id,
            planner@.root == self@.root,
            planner@.nodes.len() == 0,
            planner@.edges.len() == 0,
            planner@.leaf_refs.len() == 0,
    {
        SimpleTreeCommitPlanner::new(self.geometry, &self.export_id, &self.root_node_id)
    }

    /// The update that gives the tree a root and records.
    pub fn update(&self, next_root: &Option<NodeId>, records: TreeRecordBatch) -> (update:
        PublishTreeUpdate)
        ensures
            update.export_id == self@.export_id,
            is_simple_head(update.expected_head, self@.root, self@.geometry.total()),
            is_simple_head(update.next_head, node_text(*next_root), self@.geometry.total()),
            update.records == records,
    {
        PublishTreeUpdate {
            export_id: self.export_id.clone(),
            expected_head: self.export_head(),
            next_head: self.head_with(clone_node_id(next_root)),
            records,
        }
    }

    /// Takes in what became of the update: the tree has the new root and the new chunks, or the
    /// head had moved and the tree is as it was.
    pub fn published(
        &mut self,
        outcome: &PublishTreeUpdateOutcome,
        next_root: Option<NodeId>,
        chunks: &Vec<ChunkRef>,
    ) -> (result: Result<()>)
        requires
            old(self).wf(),
        ensures
            final(self).wf(),
            match outcome {
                PublishTreeUpdateOutcome::Published(_) => {
                    &&& result is Ok
                    &&& final(self)@.export_id == old(self)@.export_id
                    &&& final(self)@.geometry == old(self)@.geometry
                    &&& final(self)@.root == node_text(next_root)
                    &&& with_chunks(old(self)@.chunks, final(self)@.chunks, chunks@)
                },
                PublishTreeUpdateOutcome::StaleHead(record) => {
                    &&& result matches Err(error) && error@ == tree_failure(
                        "simple tree publish lost stale head race; current root is "@
                            + node_in_message(node_text(record.head.root_node_id)),
                    )
                    &&& *final(self) == *old(self)
                },
            },
            publishes(old(self)@, final(self)@, *outcome, next_root, chunks@, result),
    {
        match outcome {
            PublishTreeUpdateOutcome::StaleHead(record) => {
                let mut message = owned(
                    "simple tree publish lost stale head race; current root is ",
                );
                match &record.head.root_node_id {
                    Some(root) => {
                        let text = concat_three("Some(NodeId(\"", root.as_str(), "\"))");
                        message.append(text.as_str());
                    },
                    None => {
                        message.append("None");
                    },
                }
                return Err(ServerError::catalog(message));
            },
            PublishTreeUpdateOutcome::Published(_) => {},
        }
        self.root_node_id = next_root;
        let ghost before = *self;
        let mut index: usize = 0;
        while index < chunks.len()
            invariant
                index <= chunks@.len(),
                self.geometry == before.geometry,
                self.export_id == before.export_id,
                self.root_node_id == before.root_node_id,
                with_chunks(before.chunks@, self.chunks@, chunks@.take(index as int)),
            decreases chunks@.len() - index,
        {
            let ghost so_far = self.chunks@;
            self.chunks.push(chunks[index].clone());
            index = index + 1;
            proof {
                let given = chunks@.take(index as int);
                assert(given.drop_last() =~= chunks@.take(index - 1));
                assert forall|i: int| 0 <= i < self.chunks@.len() implies ({
                    let chunk = #[trigger] self.chunks@[i];
                    if i < before.chunks@.len() {
                        chunk == before.chunks@[i]
                    } else {
                        chunk.index() == given[i - before.chunks@.len()].index() && chunk.key()
                            == given[i - before.chunks@.len()].key()
                    }
                }) by {
                    if i < so_far.len() {
                        assert(self.chunks@[i] == so_far[i]);
                    }
                }
            }
        }
        proof {
            assert(chunks@.take(index as int) =~= chunks@);
        }
        Ok(())
    }
}

/// The chunks that were known before, and after them the new ones.
pub open spec fn with_chunks(
    before: Seq<ChunkRef>,
    after: Seq<ChunkRef>,
    added: Seq<ChunkRef>,
) -> bool {
    &&& after.len() == before.len() + added.len()
    &&& forall|i: int|
        0 <= i < after.len() ==> {
            let chunk = #[trigger] after[i];
            if i < before.len() {
                chunk == before[i]
            } else {
                chunk.index() == added[i - before.len()].index() && chunk.key() == added[i
                    - before.len()].key()
            }
        }
}

/// The check that precedes a commit: that every chunk is new.
#[derive(Debug)]
pub struct SimpleCommit {
    chunks: Vec<ChunkRef>,
    checked: usize,
}

/// What a commit does next.
#[derive(Debug, Clone, Copy, PartialEq, Eq, Structural)]
pub enum CommitStep {
    /// There is nothing to commit: the catalog is not asked.
    Nothing,
    /// A chunk is looked up.
    LookUp(ChunkIndex),
    /// Every chunk is new: they are published.
    Publish,
}

/// Whether one of the chunks has the index.
pub open spec fn names_chunk(chunks: Seq<ChunkRef>, chunk: int) -> bool {
    exists|i: int| 0 <= i < chunks.len() && (#[trigger] chunks[i]).index() == chunk
}

/// What is done next for the chunks of a commit, of which some were looked up.
pub open spec fn decides(
    chunks: Seq<ChunkRef>,
    cleared: int,
    result: Result<CommitStep>,
) -> bool {
    if chunks.len() == 0 {
        result == Ok::<CommitStep, ServerError>(CommitStep::Nothing)
    } else if cleared == chunks.len() {
        result == Ok::<CommitStep, ServerError>(CommitStep::Publish)
    } else {
        let chunk = chunks[cleared].index();
        if names_chunk(chunks.take(cleared), chunk) {
            result matches Err(error) && error@ == tree_failure(
                with_number("duplicate chunk index "@, chunk as nat, ""@),
            )
        } else {
            result matches Ok(CommitStep::LookUp(index)) && index@ == chunk
        }
    }
}

/// What the answer to whether a chunk is there does to a commit.
pub open spec fn clears(
    chunks: Seq<ChunkRef>,
    cleared: int,
    next: int,
    found: bool,
    result: Result<()>,
) -> bool {
    if found {
        &&& result matches Err(error) && error@ == tree_failure(
            with_number(
                "chunk "@,
                chunks[cleared].index() as nat,
                " is already materialized"@,
            ),
        )
        &&& next == cleared
    } else {
        &&& result is Ok
        &&& next == cleared + 1
    }
}

impl SimpleCommit {
    pub closed spec fn committed(&self) -> Seq<ChunkRef> {
        self.chunks@
    }

    /// How many of the chunks are known to be new.
    pub closed spec fn cleared(&self) -> int {
        self.checked as int
    }

    pub closed spec fn wf(&self) -> bool {
        self.checked <= self.chunks@.len()
    }

    pub fn new(chunks: Vec<ChunkRef>) -> (commit: Self)
        ensures
            commit.wf(),
            commit.committed() == chunks@,
            commit.cleared() == 0,
    {
        Self { chunks, checked: 0 }
    }

    pub fn chunks(&self) -> (chunks: &Vec<ChunkRef>)
        ensures
            chunks@ == self.committed(),
    {
        &self.chunks
    }

    /// What the commit does next. A chunk that comes a second time is refused. Without a chunk there
    /// is nothing to do.
    pub fn next_step(&self) -> (result: Result<CommitStep>)
        requires
            self.wf(),
        ensures
            0 <= self.cleared() <= self.committed().len(),
            decides(self.committed(), self.cleared(), result),
    {
        if self.chunks.len() == 0 {
            return Ok(CommitStep::Nothing);
        }
        if self.checked >= self.chunks.len() {
            return Ok(CommitStep::Publish);
        }
        let chunk_index = self.chunks[self.checked].chunk_index();
        let mut index: usize = 0;
        while index < self.checked
            invariant
                index <= self.checked < self.chunks@.len(),
                chunk_index@ == self.chunks@[self.checked as int].index(),
                forall|i: int|
                    0 <= i < index ==> (#[trigger] self.chunks@[i]).index() != chunk_index@,
            decreases self.checked - index,
        {
            if self.chunks[index].chunk_index().get() == chunk_index.get() {
                proof {
                    let before = self.chunks@.take(self.checked as int);
                    assert(before[index as int].index() == chunk_index@);
                }
                return Err(
                    ServerError::catalog(
                        text_with_number("duplicate chunk index ", chunk_index.get(), ""),
                    ),
                );
            }
            index = index + 1;
        }
        proof {
            let before = self.chunks@.take(self.checked as int);
            assert forall|i: int| 0 <= i < before.len() implies (#[trigger] before[i]).index()
                != chunk_index@ by {
                assert(before[i] == self.chunks@[i]);
            }
        }
        Ok(CommitStep::LookUp(chunk_index))
    }

    /// Takes in whether the chunk was found. One that was found is refused.
    pub fn looked_up(&mut self, found: bool) -> (result: Result<()>)
        requires
            old(self).wf(),
            old(self).cleared() < old(self).committed().len(),
        ensures
            final(self).wf(),
            final(self).committed() == old(self).committed(),
            clears(
                old(self).committed(),
                old(self).cleared(),
                final(self).cleared(),
                found,
                result,
            ),
    {
        let total: usize = self.chunks.len();
        if found {
            return Err(
                ServerError::catalog(
                    text_with_number(
                        "chunk ",
                        self.chunks[self.checked].chunk_index().get(),
                        " is already materialized",
                    ),
                ),
            );
        }
        self.checked = self.checked + 1;
        Ok(())
    }
}

/// Of the chunks that a tree has got, the blob of each is known afterwards, and a chunk that is not
/// among them keeps its blob.
pub proof fn law_committed_chunks_are_known(
    before: Seq<ChunkRef>,
    after: Seq<ChunkRef>,
    added: Seq<ChunkRef>,
    chunk: int,
)
    requires
        with_chunks(before, after, added),
    ensures
        key_of(after, chunk) == match key_of(added, chunk) {
            Some(key) => Some(key),
            None => key_of(before, chunk),
        },
    decreases added.len(),
{
    if added.len() == 0 {
        assert(after =~= before);
    } else {
        let last = after.len() - 1;
        assert(after[last] == after.last());
        assert forall|i: int| 0 <= i < after.len() - 1 implies ({
            let chunk = #[trigger] after.drop_last()[i];
            if i < before.len() {
                chunk == before[i]
            } else {
                chunk.index() == added.drop_last()[i - before.len()].index() && chunk.key()
                    == added.drop_last()[i - before.len()].key()
            }
        }) by {
            assert(after.drop_last()[i] == after[i]);
        }
        law_committed_chunks_are_known(before, after.drop_last(), added.drop_last(), chunk);
    }
}

/// A head is one of a mutable tree exactly when it says so, says how the tree is stored, and has a
/// size that a tree can have.
pub proof fn law_only_a_mutable_tree_loads(head: ExportHead)
    ensures
        simple_head_error(head) is None <==> head.layout_kind
            == ExportLayoutKind::SimpleMutableTree && head.tree_format is Some && 0
            < head.size_bytes <= u64::MAX - 33554431,
        simple_head_error(head) matches Some(error) ==> error is Catalog,
{
}

/// A chunk has a key exactly when an entry is for it.
pub proof fn law_a_chunk_with_an_entry_has_a_key(chunks: Seq<ChunkRef>, chunk: int)
    ensures
        key_of(chunks, chunk) is Some <==> names_chunk(chunks, chunk),
    decreases chunks.len(),
{
    if chunks.len() > 0 {
        let front = chunks.drop_last();
        let last = chunks.len() - 1;
        law_a_chunk_with_an_entry_has_a_key(front, chunk);
        assert(chunks.last() == chunks[last]);
        if names_chunk(front, chunk) {
            let i = choose|i: int| 0 <= i < front.len() && (#[trigger] front[i]).index() == chunk;
            assert(chunks[i] == front[i]);
        }
        if names_chunk(chunks, chunk) && chunks[last].index() != chunk {
            let i = choose|i: int| 0 <= i < chunks.len() && (#[trigger] chunks[i]).index() == chunk;
            assert(front[i] == chunks[i]);
        }
    }
}

/// The key of a chunk is that of the last entry for it.
pub proof fn law_the_last_entry_names_the_chunk(chunks: Seq<ChunkRef>, index: int)
    requires
        0 <= index < chunks.len(),
        forall|later: int|
            index < later < chunks.len() ==> (#[trigger] chunks[later]).index()
                != chunks[index].index(),
    ensures
        key_of(chunks, chunks[index].index()) == Some(chunks[index].key()),
    decreases chunks.len(),
{
    let last = chunks.len() - 1;
    assert(chunks.last() == chunks[last]);
    if index < last {
        let front = chunks.drop_last();
        assert(chunks[last].index() != chunks[index].index());
        assert(front[index] == chunks[index]);
        assert forall|later: int| index < later < front.len() implies (
        #[trigger] front[later]).index() != front[index].index() by {
            assert(chunks[later].index() != chunks[index].index());
        }
        law_the_last_entry_names_the_chunk(front, index);
    }
}

/// Chunks are published exactly when there are any and all of them were looked up. Until then each
/// is looked up in turn, and one that was looked up before is refused.
pub proof fn law_chunks_are_published_once_all_are_new(
    chunks: Seq<ChunkRef>,
    cleared: int,
    result: Result<CommitStep>,
)
    requires
        0 <= cleared <= chunks.len(),
        decides(chunks, cleared, result),
    ensures
        result matches Ok(CommitStep::Publish) <==> chunks.len() > 0 && cleared == chunks.len(),
        result matches Ok(CommitStep::Nothing) <==> chunks.len() == 0,
        result matches Ok(CommitStep::LookUp(index)) ==> cleared < chunks.len() && index@
            == chunks[cleared].index(),
        result is Err <==> cleared < chunks.len() && (exists|i: int|
            0 <= i < cleared && (#[trigger] chunks[i]).index() == chunks[cleared].index()),
{
    if cleared < chunks.len() {
        let seen = chunks.take(cleared);
        let chunk = chunks[cleared].index();
        if names_chunk(seen, chunk) {
            let i = choose|i: int| 0 <= i < seen.len() && (#[trigger] seen[i]).index() == chunk;
            assert(chunks[i].index() == chunk);
        }
        if exists|i: int| 0 <= i < cleared && (#[trigger] chunks[i]).index() == chunk {
            let i = choose|i: int| 0 <= i < cleared && (#[trigger] chunks[i]).index() == chunk;
            assert(seen[i].index() == chunk);
        }
    }
}

/// A chunk that is there already stops a commit; one that is not lets it go on by one.
pub proof fn law_a_chunk_that_is_there_stops_the_commit(
    chunks: Seq<ChunkRef>,
    cleared: int,
    next: int,
    found: bool,
    result: Result<()>,
)
    requires
        clears(chunks, cleared, next, found, result),
    ensures
        result is Err <==> found,
        next == (if found {
            cleared
        } else {
            cleared + 1
        }),
{
}

/// A tree knows the chunks that were published, under the new root, and stays as it is when the
/// publication came too late.
pub proof fn law_a_stale_publication_changes_nothing(
    before: SimpleTreeView,
    after: SimpleTreeView,
    outcome: PublishTreeUpdateOutcome,
    next_root: Option<NodeId>,
    chunks: Seq<ChunkRef>,
    result: Result<()>,
    chunk: int,
)
    requires
        publishes(before, after, outcome, next_root, chunks, result),
    ensures
        result is Ok <==> outcome is Published,
        result is Err ==> after == before,
        result is Ok ==> {
            &&& after.root == node_text(next_root)
            &&& after.geometry == before.geometry
            &&& after.export_id == before.export_id
            &&& key_of(after.chunks, chunk) == match key_of(chunks, chunk) {
                Some(key) => Some(key),
                None => key_of(before.chunks, chunk),
            }
        },
{
    if result is Ok {
        law_committed_chunks_are_known(before.chunks, after.chunks, chunks, chunk);
    }
}

} // verus!
