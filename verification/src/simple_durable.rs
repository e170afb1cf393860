//! Durable exports that write their chunks in place.

use crate::admission::{admission_error, AdmissionOp};
use crate::catalog::{BlobKey, ChunkIndex, ExportDescriptor, ExportHead, ExportName};
use crate::committed_read::CommittedRead;
use crate::error::{ErrorView, Result, ServerError};
use crate::export::{ExportAdmissionPolicy, ExportRequest};
use crate::range::ByteRange;
use crate::root::{out_of_bounds, validate_range, validate_request_range};
use crate::simple_tree::{simple_head_error, SimpleMutableTree};
use crate::splice::{copy_into, overwritten, zero_bytes, zeros};
use crate::tree_plan::ChunkRef;
use vstd::prelude::*;

verus! {

/// Admission of requests to an export that writes whole chunks: a write claims every chunk that it
/// touches.
#[derive(Debug)]
pub struct SimpleDurableAdmissionPolicy {
    size_bytes: u64,
}

/// Start of the chunk of an offset.
pub open spec fn chunk_floor(offset: int) -> int {
    (offset / 33554432) * 33554432
}

/// The bytes that a write claims: from the start of its first chunk to the end of its last, or of
/// the export. `None` where the end of the last chunk is not a number of the type.
pub open spec fn claimed(offset: int, length: int, size_bytes: int) -> Option<(int, int)> {
    let boundary = chunk_floor(offset + length - 1) + 33554432;
    if length == 0 {
        Some((offset, offset))
    } else if boundary > u64::MAX {
        None
    } else if boundary < size_bytes {
        Some((chunk_floor(offset), boundary))
    } else {
        Some((chunk_floor(offset), size_bytes))
    }
}

/// Why a write has no range to claim.
pub open spec fn claim_error(offset: int, length: int, size_bytes: int) -> Option<ErrorView> {
    if offset + length > size_bytes {
        Some(out_of_bounds("write"@, offset, length, size_bytes))
    } else {
        match claimed(offset, length, size_bytes) {
            None => Some(out_of_bounds("write"@, offset, length, size_bytes)),
            Some((start, end)) => if end - start > u32::MAX {
                Some(out_of_bounds("write"@, start, end - start, size_bytes))
            } else {
                None
            },
        }
    }
}

impl SimpleDurableAdmissionPolicy {
    pub closed spec fn size(&self) -> int {
        self.size_bytes as int
    }

    pub fn new(size_bytes: u64) -> (policy: Self)
        ensures
            policy.size() == size_bytes,
    {
        Self { size_bytes }
    }

    /// The bytes that a write claims.
    pub fn chunk_aligned_write(&self, offset: u64, len: u64) -> (result: Result<ByteRange>)
        ensures
            match result {
                Ok(range) => {
                    &&& claim_error(offset as int, len as int, self.size()) is None
                    &&& claimed(offset as int, len as int, self.size()) == Some(
                        (range.first(), range.limit()),
                    )
                },
                Err(error) => claim_error(offset as int, len as int, self.size()) == Some(error@),
            },
    {
        match validate_request_range("write", offset, len, self.size_bytes) {
            Ok(_) => {},
            Err(error) => {
                return Err(error);
            },
        }
        if len == 0 {
            return Ok(ByteRange::new(offset, 0));
        }
        let last: u64 = offset + (len - 1);
        let start: u64 = (offset / 33554432) * 33554432;
        let floor: u64 = (last / 33554432) * 33554432;
        let boundary: u64 = match floor.checked_add(33554432) {
            Some(boundary) => boundary,
            None => {
                return Err(
                    ServerError::OutOfBounds {
                        operation: "write",
                        offset,
                        length: len,
                        size_bytes: self.size_bytes,
                    },
                );
            },
        };
        let end: u64 = if boundary < self.size_bytes {
            boundary
        } else {
            self.size_bytes
        };
        let length: u64 = end - start;
        if length > u32::MAX as u64 {
            return Err(
                ServerError::OutOfBounds {
                    operation: "write",
                    offset: start,
                    length,
                    size_bytes: self.size_bytes,
                },
            );
        }
        Ok(ByteRange::new(start, length as u32))
    }
}

impl ExportAdmissionPolicy for SimpleDurableAdmissionPolicy {
    open spec fn maps(&self, request: ExportRequest, result: Result<AdmissionOp>) -> bool {
        match request {
            ExportRequest::Read { offset, len } => result matches Ok(op)
                && op matches AdmissionOp::Read(range) && range.first() == offset && range.size()
                == len,
            ExportRequest::Write { offset, data } => match claim_error(
                offset as int,
                data@.len() as int,
                self.size(),
            ) {
                Some(failure) => result matches Err(error) && error@ == failure,
                None => result matches Ok(op) && op matches AdmissionOp::Write(range) && claimed(
                    offset as int,
                    data@.len() as int,
                    self.size(),
                ) == Some((range.first(), range.limit())),
            },
            ExportRequest::Flush => result matches Ok(op) && op is Flush,
        }
    }

    fn operation_for(&self, request: &ExportRequest) -> (result: Result<AdmissionOp>) {
        match request {
            ExportRequest::Read { offset, len } => Ok(
                AdmissionOp::Read(ByteRange::new(*offset, *len)),
            ),
            ExportRequest::Write { offset, data } => {
                let length: usize = data.len();
                match self.chunk_aligned_write(*offset, length as u64) {
                    Ok(range) => Ok(AdmissionOp::Write(range)),
                    Err(error) => Err(error),
                }
            },
            ExportRequest::Flush => Ok(AdmissionOp::Flush),
        }
    }

    proof fn law_flush_is_apart(
        &self,
        flush: Result<AdmissionOp>,
        request: ExportRequest,
        op: AdmissionOp,
    ) {
    }

    proof fn law_write_is_apart(
        &self,
        write: ExportRequest,
        written: AdmissionOp,
        request: ExportRequest,
        op: AdmissionOp,
        position: int,
    ) {
        lemma_claim_holds_the_write(
            write->Write_offset as int,
            write->Write_data@.len() as int,
            self.size(),
        );
        if request is Write {
            lemma_claim_holds_the_write(
                request->Write_offset as int,
                request->Write_data@.len() as int,
                self.size(),
            );
        }
    }

    proof fn law_reads_run_together(
        &self,
        first: ExportRequest,
        one: Result<AdmissionOp>,
        second: ExportRequest,
        other: Result<AdmissionOp>,
    ) {
    }
}

/// What a write claims holds all its bytes, and ends with the export at the latest.
proof fn lemma_claim_holds_the_write(offset: int, length: int, size_bytes: int)
    requires
        0 <= offset,
        0 < length,
        claim_error(offset, length, size_bytes) is None,
    ensures
        claimed(offset, length, size_bytes) matches Some((start, end)) && start <= offset && offset
            + length <= end <= size_bytes,
{
}

/// A write that lies in the export has an operation that is admitted, unless the chunks that it
/// touches make up more than a range can hold, and one that reaches beyond its end has none. Two
/// writes that touch no chunk in common may run beside each other.
pub proof fn law_claims_of_apart_chunks_do_not_clash(
    policy: SimpleDurableAdmissionPolicy,
    first: ExportRequest,
    one: Result<AdmissionOp>,
    second: ExportRequest,
    other: Result<AdmissionOp>,
)
    requires
        first is Write,
        second is Write,
        first->Write_data@.len() > 0,
        second->Write_data@.len() > 0,
        policy.maps(first, one),
        policy.maps(second, other),
        0 <= policy.size() <= u64::MAX - 33554432,
    ensures
        first->Write_offset + first->Write_data@.len() > policy.size() ==> one is Err,
        first->Write_offset + first->Write_data@.len() <= policy.size()
            && first->Write_data@.len() <= 33554432 ==> one is Ok && admission_error(
            policy.size(),
            one->Ok_0,
        ) is None,
        one is Ok && other is Ok && (first->Write_offset + first->Write_data@.len() - 1) / 33554432
            < second->Write_offset as int / 33554432 ==> !one->Ok_0.clashes(other->Ok_0),
{
    let offset = first->Write_offset as int;
    let length = first->Write_data@.len() as int;
    if claim_error(offset, length, policy.size()) is None {
        lemma_claim_holds_the_write(offset, length, policy.size());
    }
}

/// What a write claims holds every byte of the export in a chunk that the write touches.
pub proof fn law_claim_covers_the_touched_chunks(
    offset: int,
    length: int,
    size_bytes: int,
    position: int,
    rewritten: int,
)
    requires
        0 <= offset,
        0 < length,
        claim_error(offset, length, size_bytes) is None,
        offset <= position < offset + length,
        0 <= rewritten < size_bytes,
        chunk_floor(rewritten) == chunk_floor(position),
    ensures
        ({
            let (start, end) = claimed(offset, length, size_bytes)->0;
            start <= rewritten < end
        }),
{
    assert(chunk_floor(offset) <= chunk_floor(position) <= chunk_floor(offset + length - 1));
}

/// The image of a chunk after a write: the bytes of the request where it touches the chunk, and the
/// bytes from before elsewhere.
pub open spec fn chunk_written(
    chunk: int,
    image: Seq<u8>,
    offset: int,
    data: Seq<u8>,
) -> Seq<u8> {
    Seq::new(
        image.len(),
        |i: int|
            {
                let position = chunk * 33554432 + i;
                if offset <= position < offset + data.len() {
                    data[position - offset]
                } else {
                    image[i]
                }
            },
    )
}

/// A write in progress, chunk by chunk.
#[derive(Debug)]
pub struct SimpleWrite {
    offset: u64,
    data: Vec<u8>,
    copied: usize,
    new_chunks: Vec<ChunkRef>,
}

/// State of a write: what is written, how much of it was, and the chunks that it created.
pub struct SimpleWriteView {
    pub offset: int,
    pub data: Seq<u8>,
    pub copied: int,
    pub new_chunks: Seq<ChunkRef>,
}

impl View for SimpleWrite {
    type V = SimpleWriteView;

    closed spec fn view(&self) -> SimpleWriteView {
        SimpleWriteView {
            offset: self.offset as int,
            data: self.data@,
            copied: self.copied as int,
            new_chunks: self.new_chunks@,
        }
    }
}

impl SimpleWriteView {
    pub open spec fn done(self) -> bool {
        self.copied >= self.data.len()
    }

    /// The chunk that is written next.
    pub open spec fn chunk(self) -> int {
        (self.offset + self.copied) / 33554432
    }

    /// How much is written once that chunk is.
    pub open spec fn copied_next(self) -> int {
        let boundary = (self.chunk() + 1) * 33554432 - self.offset;
        if boundary < self.data.len() {
            boundary
        } else {
            self.data.len() as int
        }
    }
}

/// A write once the chunk at hand was written.
pub open spec fn past_chunk(write: SimpleWriteView) -> SimpleWriteView {
    SimpleWriteView { copied: write.copied_next(), ..write }
}

/// What a write becomes where the chunk at hand was stored as a new blob.
pub open spec fn stores(before: SimpleWriteView, after: SimpleWriteView, key: Seq<char>) -> bool {
    &&& after == (SimpleWriteView {
        copied: before.copied_next(),
        new_chunks: after.new_chunks,
        ..before
    })
    &&& after.new_chunks.len() == before.new_chunks.len() + 1
    &&& after.new_chunks.drop_last() == before.new_chunks
    &&& after.new_chunks.last().index() == before.chunk()
    &&& after.new_chunks.last().key() == key
}

impl SimpleWrite {
    /// The write is at its start or at the start of a chunk.
    pub closed spec fn wf(&self) -> bool {
        &&& self.offset + self.data@.len() <= u64::MAX
        &&& self.copied <= self.data@.len()
        &&& self.copied == 0 || self.copied == self.data@.len() || (self.offset + self.copied)
            % 33554432 == 0
    }

    /// Starts a write to an export.
    pub fn new(offset: u64, data: Vec<u8>, size_bytes: u64) -> (result: Result<Self>)
        ensures
            match result {
                Ok(write) => {
                    &&& offset + data@.len() <= size_bytes
                    &&& write.wf()
                    &&& write@ == (SimpleWriteView {
                        offset: offset as int,
                        data: data@,
                        copied: 0,
                        new_chunks: Seq::empty(),
                    })
                },
                Err(error) => offset + data@.len() > size_bytes && error@ == out_of_bounds(
                    "write"@,
                    offset as int,
                    data@.len() as int,
                    size_bytes as int,
                ),
            },
    {
        let length: usize = data.len();
        match validate_request_range("write", offset, length as u64, size_bytes) {
            Ok(_) => {},
            Err(error) => {
                return Err(error);
            },
        }
        let write = Self { offset, data, copied: 0, new_chunks: Vec::new() };
        proof {
            assert(write.new_chunks@ =~= Seq::empty());
        }
        Ok(write)
    }

    /// The chunk that is written next.
    pub fn next_chunk(&self) -> (chunk: Option<ChunkIndex>)
        requires
            self.wf(),
        ensures
            match chunk {
                Some(chunk) => !self@.done() && chunk@ == self@.chunk(),
                None => self@.done(),
            },
    {
        let length: usize = self.data.len();
        if self.copied >= length {
            return None;
        }
        Some(ChunkIndex::new((self.offset + self.copied as u64) / 33554432))
    }

    /// Puts the bytes of the request into the image of the chunk that is written next.
    pub fn patch(&self, image: &mut Vec<u8>)
        requires
            self.wf(),
            !self@.done(),
            old(image)@.len() == 33554432,
        ensures
            final(image)@ == chunk_written(
                self@.chunk(),
                old(image)@,
                self@.offset,
                self@.data,
            ),
    {
        let ghost before = image@;
        let length: usize = self.data.len();
        let position: u64 = self.offset + self.copied as u64;
        let at: usize = (position % 33554432) as usize;
        let room: usize = 33554432 - at;
        let left: usize = length - self.copied;
        let count: usize = if room < left {
            room
        } else {
            left
        };
        copy_into(image, at, self.data.as_slice(), self.copied, count);
        proof {
            let chunk = self@.chunk();
            assert forall|i: int| 0 <= i < 33554432 implies image@[i] == chunk_written(
                chunk,
                before,
                self@.offset,
                self@.data,
            )[i] by {
                let spot = chunk * 33554432 + i;
                assert(position == chunk * 33554432 + at);
                assert(self.offset <= spot < self.offset + length ==> at <= i < at + count);
            }
            assert(image@ =~= chunk_written(chunk, before, self@.offset, self@.data));
        }
    }

    /// The image of the chunk that is written next, where it does not exist yet.
    pub fn new_image(&self) -> (image: Vec<u8>)
        requires
            self.wf(),
            !self@.done(),
        ensures
            image@ == chunk_written(
                self@.chunk(),
                zero_bytes(33554432),
                self@.offset,
                self@.data,
            ),
    {
        let mut image = zeros(33554432);
        self.patch(&mut image);
        image
    }

    /// The chunk was overwritten in place.
    pub fn chunk_overwritten(&mut self)
        requires
            old(self).wf(),
            !old(self)@.done(),
        ensures
            final(self).wf(),
            final(self)@ == past_chunk(old(self)@),
    {
        let length: usize = self.data.len();
        let position: u64 = self.offset + self.copied as u64;
        let at: usize = (position % 33554432) as usize;
        let room: usize = 33554432 - at;
        let left: usize = length - self.copied;
        self.copied = if room < left {
            self.copied + room
        } else {
            length
        };
    }

    /// The chunk was stored as a new blob.
    pub fn chunk_stored(&mut self, key: BlobKey)
        requires
            old(self).wf(),
            !old(self)@.done(),
        ensures
            final(self).wf(),
            stores(old(self)@, final(self)@, key@),
    {
        let length: usize = self.data.len();
        let chunk_index = ChunkIndex::new((self.offset + self.copied as u64) / 33554432);
        let chunk = ChunkRef::whole(chunk_index, key);
        self.chunk_overwritten();
        self.new_chunks.push(chunk);
        proof {
            assert(self.new_chunks@.drop_last() =~= old(self).new_chunks@);
        }
    }

    /// The chunks that have to be committed.
    pub fn finish(self) -> (chunks: Vec<ChunkRef>)
        requires
            self.wf(),
            self@.done(),
        ensures
            chunks@ == self@.new_chunks,
    {
        self.new_chunks
    }
}

/// Each step of a write leaves it at the start of the next chunk or at its end, so that every byte
/// of the request lies in a chunk that was written.
pub proof fn law_write_reaches_every_chunk(write: SimpleWriteView, position: int)
    requires
        0 <= write.offset,
        0 <= write.copied < write.data.len(),
        write.offset + write.copied <= position < write.offset + write.copied_next(),
    ensures
        write.copied < write.copied_next() <= write.data.len(),
        position / 33554432 == write.chunk(),
        write.copied_next() < write.data.len() ==> (write.offset + write.copied_next()) / 33554432
            == write.chunk() + 1,
{
}

/// A write that went through is what reads return: a byte of the request is found in the image of
/// its chunk, and every other byte of the chunk is as it was.
pub proof fn law_written_chunk_reads_back(
    image: Seq<u8>,
    offset: int,
    data: Seq<u8>,
    position: int,
)
    requires
        image.len() == 33554432,
        0 <= position,
    ensures
        ({
            let chunk = position / 33554432;
            let at = position % 33554432;
            chunk_written(chunk, image, offset, data)[at] == if offset <= position < offset
                + data.len() {
                data[position - offset]
            } else {
                image[at]
            }
        }),
{
}

/// An export that writes its chunks in place.
#[derive(Debug)]
pub struct SimpleDurableEngine {
    name: ExportName,
    size_bytes: u64,
    block_size: u64,
    tree: SimpleMutableTree,
}

/// How a read starts.
pub open spec fn reads(
    size_bytes: int,
    offset: u64,
    len: u32,
    result: Result<CommittedRead>,
) -> bool {
    match result {
        Ok(read) => {
            &&& offset + len <= size_bytes
            &&& read.wf()
            &&& read.span().first() == offset
            &&& read.span().size() == len
            &&& read.runs().len() == 0
        },
        Err(error) => offset + len > size_bytes && error@ == out_of_bounds(
            "read"@,
            offset as int,
            len as int,
            size_bytes,
        ),
    }
}

/// How a write starts.
pub open spec fn writes(
    size_bytes: int,
    offset: u64,
    data: Seq<u8>,
    result: Result<SimpleWrite>,
) -> bool {
    match result {
        Ok(write) => {
            &&& offset + data.len() <= size_bytes
            &&& write.wf()
            &&& write@ == (SimpleWriteView {
                offset: offset as int,
                data: data,
                copied: 0,
                new_chunks: Seq::empty(),
            })
        },
        Err(error) => offset + data.len() > size_bytes && error@ == out_of_bounds(
            "write"@,
            offset as int,
            data.len() as int,
            size_bytes,
        ),
    }
}

impl SimpleDurableEngine {
    pub closed spec fn title(&self) -> Seq<char> {
        self.name@
    }

    pub closed spec fn size(&self) -> int {
        self.size_bytes as int
    }

    pub closed spec fn unit(&self) -> int {
        self.block_size as int
    }

    /// The tree that holds the chunks.
    pub closed spec fn backing(&self) -> SimpleMutableTree {
        self.tree
    }

    pub fn load(descriptor: &ExportDescriptor, head: &ExportHead) -> (result: Result<Self>)
        ensures
            match result {
                Ok(engine) => {
                    &&& simple_head_error(*head) is None
                    &&& engine.title() == descriptor.name@
                    &&& engine.size() == head.size_bytes
                    &&& engine.unit() == descriptor.block_size
                    &&& engine.backing().wf()
                    &&& engine.backing()@.export_id == descriptor.id
                    &&& engine.backing()@.geometry.total() == head.size_bytes
                    &&& engine.backing()@.root == crate::catalog::node_text(head.root_node_id)
                    &&& engine.backing()@.chunks.len() == 0
                },
                Err(error) => simple_head_error(*head) == Some(error@),
            },
    {
        match SimpleMutableTree::load(descriptor, head) {
            Ok(tree) => Ok(
                Self {
                    name: descriptor.name.clone(),
                    size_bytes: tree.size_bytes(),
                    block_size: descriptor.block_size,
                    tree,
                },
            ),
            Err(error) => Err(error),
        }
    }

    pub fn name(&self) -> (name: &ExportName)
        ensures
            name@ == self.title(),
    {
        &self.name
    }

    pub fn size_bytes(&self) -> (size_bytes: u64)
        ensures
            size_bytes == self.size(),
    {
        self.size_bytes
    }

    pub fn block_size(&self) -> (block_size: u64)
        ensures
            block_size == self.unit(),
    {
        self.block_size
    }

    pub fn tree(&self) -> (tree: &SimpleMutableTree)
        ensures
            *tree == self.backing(),
    {
        &self.tree
    }

    /// The tree, to be changed.
    pub fn tree_mut(&mut self) -> (tree: &mut SimpleMutableTree)
        ensures
            *tree == old(self).backing(),
            final(self).backing() == *final(tree),
            final(self).title() == old(self).title(),
            final(self).size() == old(self).size(),
            final(self).unit() == old(self).unit(),
    {
        &mut self.tree
    }

    pub fn export_head(&self) -> (head: ExportHead)
        ensures
            crate::simple_tree::is_simple_head(
                head,
                self.backing()@.root,
                self.backing()@.geometry.total(),
            ),
    {
        self.tree.export_head()
    }

    pub fn admission_policy(&self) -> (policy: SimpleDurableAdmissionPolicy)
        ensures
            policy.size() == self.size(),
    {
        SimpleDurableAdmissionPolicy::new(self.size_bytes)
    }

    /// Starts a read.
    pub fn read(&self, offset: u64, len: u32) -> (result: Result<CommittedRead>)
        ensures
            reads(self.size(), offset, len, result),
    {
        let range = ByteRange::new(offset, len);
        match validate_range("read", range, self.size_bytes) {
            Ok(_) => Ok(CommittedRead::new(range)),
            Err(error) => Err(error),
        }
    }

    /// Starts a write.
    pub fn write(&self, offset: u64, data: Vec<u8>) -> (result: Result<SimpleWrite>)
        ensures
            writes(self.size(), offset, data@, result),
    {
        SimpleWrite::new(offset, data, self.size_bytes)
    }
}

/// A write is admitted exactly when it lies in the export, the end of its last chunk is a number of
/// the type, and the chunks that it touches fit a range. It then claims whole chunks, up to the end
/// of the export, and an empty write claims nothing.
pub proof fn law_a_write_claims_whole_chunks(offset: int, length: int, size_bytes: int)
    requires
        0 <= offset,
        0 <= length,
        0 <= size_bytes <= u64::MAX - 33554432,
    ensures
        claim_error(offset, length, size_bytes) is None ==> offset + length <= size_bytes,
        offset + length <= size_bytes && length + 2 * 33554432 <= u32::MAX ==> claim_error(
            offset,
            length,
            size_bytes,
        ) is None,
        claim_error(offset, length, size_bytes) matches Some(error) ==> error is OutOfBounds,
        claim_error(offset, length, size_bytes) is None && length == 0 ==> claimed(
            offset,
            length,
            size_bytes,
        ) == Some((offset, offset)),
        claim_error(offset, length, size_bytes) is None && length > 0 ==> (claimed(
            offset,
            length,
            size_bytes,
        ) matches Some((start, end)) && {
            &&& start % 33554432 == 0
            &&& offset - 33554432 < start <= offset
            &&& offset + length <= end < offset + length + 33554432
            &&& end % 33554432 == 0 || end == size_bytes
            &&& end <= size_bytes
        }),
{
}

/// A read or a write starts exactly when it lies in the export, for all its bytes.
pub proof fn law_requests_start_where_they_lie_in_the_export(
    size_bytes: int,
    offset: u64,
    len: u32,
    read: Result<CommittedRead>,
    data: Seq<u8>,
    write: Result<SimpleWrite>,
)
    requires
        reads(size_bytes, offset, len, read),
        writes(size_bytes, offset, data, write),
    ensures
        read is Ok <==> offset + len <= size_bytes,
        write is Ok <==> offset + data.len() <= size_bytes,
        read matches Err(error) ==> error@ is OutOfBounds,
        write matches Err(error) ==> error@ is OutOfBounds,
        read matches Ok(read) ==> read.span().first() == offset && read.span().limit() == offset
            + len,
        write matches Ok(write) ==> write@.offset == offset && write@.data == data && write@.copied
            == 0 && (write@.done() <==> data.len() == 0),
{
}

/// A write goes on behind the chunk that was written, with the same bytes, and has to commit exactly
/// the chunks that were stored as new blobs, each under the key that it was stored with.
pub proof fn law_a_write_commits_the_chunks_it_stored(
    before: SimpleWriteView,
    after: SimpleWriteView,
    key: Seq<char>,
)
    requires
        0 <= before.offset,
        0 <= before.copied < before.data.len(),
        stores(before, after, key),
    ensures
        past_chunk(before).new_chunks == before.new_chunks,
        past_chunk(before).copied == after.copied,
        past_chunk(before).data == before.data && after.data == before.data,
        past_chunk(before).offset == before.offset && after.offset == before.offset,
        before.copied < after.copied <= before.data.len(),
        after.copied < before.data.len() ==> (before.offset + after.copied) % 33554432 == 0,
        after.copied - before.copied <= 33554432,
        forall|i: int|
            0 <= i < before.new_chunks.len() ==> after.new_chunks[i] == #[trigger] before.new_chunks[i],
        after.new_chunks.last().index() == (before.offset + before.copied) / 33554432,
        after.new_chunks.last().key() == key,
{
    assert forall|i: int| 0 <= i < before.new_chunks.len() implies after.new_chunks[i]
        == #[trigger] before.new_chunks[i] by {
        assert(after.new_chunks.drop_last()[i] == after.new_chunks[i]);
    }
}

} // verus!
