//! Reading a range of committed bytes, chunk by chunk.

use crate::block::{block_error, Block, BlockPart};
use crate::catalog::{clone_node_id, BlobKey, ExportLayoutKind, TreeStorageKind};
use crate::error::{ErrorView, Result, ServerError};
use crate::geometry::{
    chunk_pieces, geometry_error, law_pieces_make_up_the_range, pieces_of, split_by_chunk,
    tree_failure, TreeChunkRange, TreeGeometry,
};
use crate::leaf_walk::{LazyTreeMetadataReader, LoadedTreeLeaf};
use crate::range::ByteRange;
use crate::root::{out_of_bounds, validate_range, RootSnapshot};
use crate::shared_bytes::{bytes_contents, bytes_from_vec};
use crate::text::{decimal, owned, push_decimal};
use vstd::prelude::*;
use vstd::string::*;

verus! {

/// Reads the committed bytes of a root that holds only zeros.
#[derive(Debug, Clone, Copy)]
pub struct ZeroTreeReader;

impl ZeroTreeReader {
    pub fn read_committed(&self, root: &RootSnapshot, range: ByteRange) -> (result: Result<Block>)
        ensures
            match result {
                Ok(block) => {
                    &&& range.limit() <= root@.size_bytes
                    &&& root@.tree_format is None
                    &&& block.span() == range
                    &&& block.wf()
                    &&& block.runs() == (if range.size() == 0 {
                        Seq::empty()
                    } else {
                        seq![BlockPart::Zero { range }]
                    })
                },
                Err(error) => if range.limit() > root@.size_bytes {
                    error@ == out_of_bounds(
                        "read"@,
                        range.first(),
                        range.size(),
                        root@.size_bytes,
                    )
                } else {
                    root@.tree_format is Some && error@ == (ErrorView::Catalog {
                        message: "zero backing reader requires a zero-backed root"@,
                    })
                },
            },
    {
        match validate_range("read", range, root.size_bytes()) {
            Ok(_) => {},
            Err(error) => {
                return Err(error);
            },
        }
        if !root.is_zero_backed() {
            return Err(
                ServerError::catalog(owned("zero backing reader requires a zero-backed root")),
            );
        }
        let mut parts: Vec<BlockPart> = Vec::new();
        if !range.is_empty() {
            parts.push(BlockPart::Zero { range });
        }
        proof {
            range.lemma_bounds(range);
            root.lemma_bounds();
            reveal_with_fuel(crate::block::parts_error, 3);
            assert(block_error(range, parts@) is None);
        }
        match Block::new(range, parts) {
            Ok(block) => {
                proof {
                    assert(block.runs() =~= (if range.size() == 0 {
                        Seq::empty()
                    } else {
                        seq![BlockPart::Zero { range }]
                    }));
                }
                Ok(block)
            },
            Err(error) => Err(error),
        }
    }
}

/// Bytes of a stored blob.
#[derive(Debug)]
pub struct BlobRead {
    pub key: BlobKey,
    pub offset: u64,
    pub length: u64,
}

/// A read of committed bytes in progress.
#[derive(Debug)]
pub struct CommittedRead {
    range: ByteRange,
    chunks: Vec<TreeChunkRange>,
    parts: Vec<BlockPart>,
}

/// What a chunk gave: nothing stored, or bytes.
pub enum ChunkView {
    Zero,
    Data { data: Seq<u8> },
}

/// The run of a piece.
pub open spec fn is_run(part: BlockPart, piece: (int, int, int, int), given: ChunkView) -> bool {
    &&& (part.span().first(), part.span().limit()) == (piece.2, piece.3)
    &&& match given {
        ChunkView::Zero => part is Zero,
        ChunkView::Data { data } => part matches BlockPart::Data { bytes, .. } && bytes_contents(
            bytes,
        ) == data,
    }
}

impl CommittedRead {
    pub closed spec fn span(&self) -> ByteRange {
        self.range
    }

    /// The pieces of the range, by chunk.
    pub open spec fn pieces(&self) -> Seq<(int, int, int, int)> {
        chunk_pieces(self.span().first(), self.span().limit())
    }

    /// The runs that were given so far.
    pub closed spec fn runs(&self) -> Seq<BlockPart> {
        self.parts@
    }

    pub closed spec fn wf(&self) -> bool {
        &&& self.range.limit() <= u64::MAX
        &&& pieces_of(self.chunks@) == self.pieces()
        &&& self.parts@.len() <= self.chunks@.len()
        &&& forall|i: int|
            0 <= i < self.parts@.len() ==> (
                (#[trigger] self.parts@[i]).span().first(),
                self.parts@[i].span().limit(),
            ) == (self.pieces()[i].2, self.pieces()[i].3)
    }

    /// Starts a read.
    pub fn new(range: ByteRange) -> (read: Self)
        requires
            range.limit() <= u64::MAX,
        ensures
            read.wf(),
            read.span() == range,
            read.runs().len() == 0,
    {
        Self { range, chunks: split_by_chunk(range), parts: Vec::new() }
    }

    /// The next part of the range to be given.
    pub fn next_chunk(&self) -> (chunk: Option<TreeChunkRange>)
        requires
            self.wf(),
        ensures
            match chunk {
                Some(chunk) => self.runs().len() < self.pieces().len() && (
                    chunk.chunk(),
                    chunk.offset(),
                    chunk.span().first(),
                    chunk.span().limit(),
                ) == self.pieces()[self.runs().len() as int],
                None => self.runs().len() == self.pieces().len(),
            },
    {
        let given: usize = self.parts.len();
        proof {
            assert(pieces_of(self.chunks@).len() == self.chunks@.len());
        }
        if given < self.chunks.len() {
            proof {
                let piece = self.chunks@[given as int];
                assert(pieces_of(self.chunks@)[given as int] == (
                    piece.chunk(),
                    piece.offset(),
                    piece.span().first(),
                    piece.span().limit(),
                ));
            }
            Some(self.chunks[given])
        } else {
            None
        }
    }

    /// The bytes of the blob of the next chunk that the range needs.
    pub fn blob_read(&self, key: BlobKey) -> (read: BlobRead)
        requires
            self.wf(),
            self.runs().len() < self.pieces().len(),
        ensures
            read.key == key,
            read.offset == self.pieces()[self.runs().len() as int].1,
            read.length == self.pieces()[self.runs().len() as int].3
                - self.pieces()[self.runs().len() as int].2,
    {
        let given: usize = self.parts.len();
        proof {
            assert(pieces_of(self.chunks@).len() == self.chunks@.len());
            let piece = self.chunks@[given as int];
            assert(pieces_of(self.chunks@)[given as int] == (
                piece.chunk(),
                piece.offset(),
                piece.span().first(),
                piece.span().limit(),
            ));
        }
        let chunk = self.chunks[given];
        BlobRead { key, offset: chunk.chunk_offset(), length: chunk.range().len() }
    }

    /// The next chunk is not stored: its bytes are zeros.
    pub fn give_zeros(&mut self)
        requires
            old(self).wf(),
            old(self).runs().len() < old(self).pieces().len(),
        ensures
            final(self).wf(),
            final(self).span() == old(self).span(),
            final(self).runs().len() == old(self).runs().len() + 1,
            final(self).runs().drop_last() == old(self).runs(),
            is_run(
                final(self).runs().last(),
                old(self).pieces()[old(self).runs().len() as int],
                ChunkView::Zero,
            ),
    {
        let given: usize = self.parts.len();
        proof {
            assert(pieces_of(self.chunks@).len() == self.chunks@.len());
            let piece = self.chunks@[given as int];
            assert(pieces_of(self.chunks@)[given as int] == (
                piece.chunk(),
                piece.offset(),
                piece.span().first(),
                piece.span().limit(),
            ));
        }
        let range = self.chunks[given].range();
        self.parts.push(BlockPart::Zero { range });
        proof {
            assert(self.parts@.drop_last() =~= old(self).parts@);
        }
    }

    /// The bytes of the next chunk.
    pub fn give_data(&mut self, data: Vec<u8>)
        requires
            old(self).wf(),
            old(self).runs().len() < old(self).pieces().len(),
        ensures
            final(self).wf(),
            final(self).span() == old(self).span(),
            final(self).runs().len() == old(self).runs().len() + 1,
            final(self).runs().drop_last() == old(self).runs(),
            is_run(
                final(self).runs().last(),
                old(self).pieces()[old(self).runs().len() as int],
                (ChunkView::Data { data: data@ }),
            ),
    {
        let given: usize = self.parts.len();
        proof {
            assert(pieces_of(self.chunks@).len() == self.chunks@.len());
            let piece = self.chunks@[given as int];
            assert(pieces_of(self.chunks@)[given as int] == (
                piece.chunk(),
                piece.offset(),
                piece.span().first(),
                piece.span().limit(),
            ));
        }
        let range = self.chunks[given].range();
        self.parts.push(BlockPart::Data { range, bytes: bytes_from_vec(data) });
        proof {
            assert(self.parts@.drop_last() =~= old(self).parts@);
        }
    }

    /// The block of the whole range.
    pub fn finish(self) -> (result: Result<Block>)
        requires
            self.wf(),
            self.runs().len() == self.pieces().len(),
        ensures
            match result {
                Ok(block) => {
                    &&& forall|i: int|
                        0 <= i < self.runs().len() ==> (#[trigger] self.runs()[i]).content().len()
                            == self.runs()[i].span().size()
                    &&& block.span() == self.span()
                    &&& block.runs() == self.runs()
                    &&& block.wf()
                },
                Err(error) => {
                    &&& block_error(self.span(), self.runs()) == Some(error@)
                    &&& exists|i: int|
                        0 <= i < self.runs().len() && (#[trigger] self.runs()[i]).content().len()
                            != self.runs()[i].span().size()
                },
            },
    {
        proof {
            self.range.lemma_bounds(self.range);
            if forall|i: int|
                0 <= i < self.runs().len() ==> (#[trigger] self.runs()[i]).content().len()
                    == self.runs()[i].span().size() {
                lemma_only_lengths_fail(self, 0);
            }
            if block_error(self.range, self.parts@) is None {
                crate::block::lemma_parts_fill(self.range, self.parts@, 0);
            }
        }
        Block::new(self.range, self.parts)
    }
}

/// Runs of consecutive pieces fit together unless one has the wrong number of bytes.
proof fn lemma_only_lengths_fail(read: CommittedRead, from: int)
    requires
        read.wf(),
        read.runs().len() == read.pieces().len(),
        0 <= from <= read.runs().len(),
        forall|i: int|
            0 <= i < read.runs().len() ==> (#[trigger] read.runs()[i]).content().len()
                == read.runs()[i].span().size(),
    ensures
        crate::block::parts_error(read.span(), read.runs(), from) is None,
    decreases read.runs().len() - from,
{
    let range = read.span();
    let parts = read.runs();
    let pieces = read.pieces();
    range.lemma_bounds(range);
    if from < parts.len() {
        law_pieces_make_up_the_range(range.first(), range.limit(), from);
        assert((parts[from].span().first(), parts[from].span().limit()) == (
            pieces[from].2,
            pieces[from].3,
        ));
        if from > 0 {
            assert((parts[from - 1].span().first(), parts[from - 1].span().limit()) == (
                pieces[from - 1].2,
                pieces[from - 1].3,
            ));
        }
        lemma_only_lengths_fail(read, from + 1);
    } else if parts.len() > 0 {
        let last = parts.len() - 1;
        law_pieces_make_up_the_range(range.first(), range.limit(), last);
        assert((parts[last].span().first(), parts[last].span().limit()) == (
            pieces[last].2,
            pieces[last].3,
        ));
    } else {
        if range.size() > 0 {
            crate::geometry::law_pieces_exist(range.first(), range.limit());
        }
    }
}

/// Reads the committed bytes of a copy-on-write tree.
#[derive(Debug, Clone, Copy)]
pub struct CowTreeReader;

impl CowTreeReader {
    /// Starts a read of committed bytes.
    pub fn read_committed(&self, root: &RootSnapshot, range: ByteRange) -> (result: Result<
        CommittedRead,
    >)
        ensures
            match result {
                Ok(read) => {
                    &&& range.limit() <= root@.size_bytes
                    &&& root@.tree_format is Some
                    &&& read.wf()
                    &&& read.span() == range
                    &&& read.runs().len() == 0
                },
                Err(error) => if range.limit() > root@.size_bytes {
                    error@ == out_of_bounds(
                        "read"@,
                        range.first(),
                        range.size(),
                        root@.size_bytes,
                    )
                } else {
                    root@.tree_format is None && error@ == (ErrorView::Catalog {
                        message: "COW backing reader requires a COW root"@,
                    })
                },
            },
    {
        match validate_range("read", range, root.size_bytes()) {
            Ok(_) => {},
            Err(error) => {
                return Err(error);
            },
        }
        if root.is_zero_backed() {
            return Err(ServerError::catalog(owned("COW backing reader requires a COW root")));
        }
        proof {
            root.lemma_bounds();
        }
        Ok(CommittedRead::new(range))
    }

    /// The reader of the tree's leaves. A root without a tree has none.
    pub fn metadata_reader(&self, root: &RootSnapshot) -> (result: Result<
        Option<LazyTreeMetadataReader>,
    >)
        ensures
            match result {
                Ok(Some(reader)) => {
                    &&& root@.tree_format is Some
                    &&& geometry_error(root@.size_bytes) is None
                    &&& reader.shape().total() == root@.size_bytes
                    &&& reader.layout() == ExportLayoutKind::CowImmutableTree
                    &&& reader.root() == root@.root_node_id
                },
                Ok(None) => root@.tree_format is None,
                Err(error) => root@.tree_format is Some && geometry_error(root@.size_bytes)
                    == Some(error@),
            },
    {
        match root.tree_format() {
            Some(format) => match TreeGeometry::new(format, root.size_bytes()) {
                Ok(geometry) => Ok(
                    Some(
                        LazyTreeMetadataReader::new(
                            geometry,
                            ExportLayoutKind::CowImmutableTree,
                            clone_node_id(root.root_node_id()),
                        ),
                    ),
                ),
                Err(error) => Err(error),
            },
            None => Ok(None),
        }
    }

    /// The blob of a leaf. Leaves of a copy-on-write tree are immutable blobs.
    pub fn leaf_blob(&self, leaf: &LoadedTreeLeaf) -> (result: Result<BlobKey>)
        ensures
            leaf_blob_is(
                result,
                *leaf,
                TreeStorageKind::ImmutableBlob,
                "COW tree chunk "@,
            ),
    {
        checked_leaf_blob(leaf, TreeStorageKind::ImmutableBlob, "COW tree chunk ")
    }
}

/// The blob of a leaf, if it is stored as it should be.
pub open spec fn leaf_blob_is(
    result: Result<BlobKey>,
    leaf: LoadedTreeLeaf,
    kind: TreeStorageKind,
    subject: Seq<char>,
) -> bool {
    match result {
        Ok(key) => leaf.reference().storage_kind == kind && key@ == leaf.reference().storage_key@,
        Err(error) => leaf.reference().storage_kind != kind && error@ == tree_failure(
            subject + decimal(leaf.chunk() as nat) + " has storage kind "@
                + leaf.reference().storage_kind.word(),
        ),
    }
}

/// The blob of a leaf, if it is stored as it should be.
pub fn checked_leaf_blob(
    leaf: &LoadedTreeLeaf,
    kind: TreeStorageKind,
    subject: &'static str,
) -> (result: Result<BlobKey>)
    ensures
        leaf_blob_is(result, *leaf, kind, subject@),
{
    if leaf.leaf_ref().storage_kind != kind {
        let mut message = owned(subject);
        push_decimal(&mut message, leaf.chunk_index().get());
        message.append(" has storage kind ");
        message.append(leaf.leaf_ref().storage_kind.as_str());
        return Err(ServerError::catalog(message));
    }
    Ok(leaf.leaf_ref().storage_key.clone())
}

/// The block of a read that has all its pieces holds at each position the byte of the chunk that
/// was given for it, or zero where the chunk has no bytes.
pub proof fn law_committed_read_shows_its_chunks(
    read: CommittedRead,
    block: Block,
    given: Seq<ChunkView>,
    index: int,
    position: int,
)
    requires
        block.wf(),
        block.span() == read.span(),
        block.runs() == read.runs(),
        read.runs().len() == read.pieces().len(),
        given.len() == read.pieces().len(),
        forall|i: int|
            0 <= i < given.len() ==> is_run(
                #[trigger] read.runs()[i],
                read.pieces()[i],
                given[i],
            ),
        0 <= index < given.len(),
        read.pieces()[index].2 <= position < read.pieces()[index].3,
    ensures
        read.span().covers(position),
        block.content()[position - read.span().first()] == match given[index] {
            ChunkView::Zero => 0u8,
            ChunkView::Data { data } => data[position - read.pieces()[index].2],
        },
{
    let run = block.runs()[index];
    assert(is_run(read.runs()[index], read.pieces()[index], given[index]));
    assert(run.span().covers(position));
    block.law_block_is_its_runs(index, position);
}

/// The blob of a leaf is read exactly when it is stored as it has to be, under the key that the
/// leaf names.
pub proof fn law_a_leaf_is_read_from_its_own_blob(
    result: Result<BlobKey>,
    leaf: LoadedTreeLeaf,
    kind: TreeStorageKind,
    subject: Seq<char>,
)
    requires
        leaf_blob_is(result, leaf, kind, subject),
    ensures
        result is Ok <==> leaf.reference().storage_kind == kind,
        result matches Ok(key) ==> key@ == leaf.reference().storage_key@,
        result matches Err(error) ==> error@ is Catalog,
{
}

} // verus!
