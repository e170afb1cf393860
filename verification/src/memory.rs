//! Exports whose bytes live in memory only.

use crate::admission::{admission_error, AdmissionOp};
use crate::catalog::{ExportDescriptor, ExportHead, ExportLayoutKind, ExportName, ExportRecord};
use crate::error::{ErrorView, Result, ServerError};
use crate::export::{
    AdmittedExportRequest, ExportAdmissionPolicy, ExportReply, ExportRequest, ExportResult,
};
use crate::range::ByteRange;
use crate::root::{out_of_bounds, validate_request_range};
use crate::splice::{append_from, copy_into, overwritten, zero_bytes, zeros};
use crate::text::concat_three;
use vstd::prelude::*;

verus! {

/// The largest export that is kept in memory.
pub const MAX_MEMORY_EXPORT_BYTES: u64 = 67108864;

/// Admission of requests to an export in memory: each touches just its own bytes.
#[derive(Debug)]
pub struct MemoryAdmissionPolicy {
    size_bytes: u64,
}

/// The operation of a request that touches just its own bytes. A payload that no range can hold
/// has none.
pub open spec fn plain_operation(
    request: ExportRequest,
    size_bytes: int,
    result: Result<AdmissionOp>,
) -> bool {
    match request {
        ExportRequest::Read { offset, len } => result matches Ok(op)
            && op matches AdmissionOp::Read(range) && range.first() == offset && range.size()
            == len,
        ExportRequest::Write { offset, data } => if data@.len() <= u32::MAX {
            result matches Ok(op) && op matches AdmissionOp::Write(range) && range.first()
                == offset && range.size() == data@.len()
        } else {
            result matches Err(error) && error@ == out_of_bounds(
                "write"@,
                offset as int,
                data@.len() as int,
                size_bytes,
            )
        },
        ExportRequest::Flush => result matches Ok(op) && op is Flush,
    }
}

/// The operation of a request that touches just its own bytes.
pub fn plain_operation_for(request: &ExportRequest, size_bytes: u64) -> (result: Result<
    AdmissionOp,
>)
    ensures
        plain_operation(*request, size_bytes as int, result),
{
    match request {
        ExportRequest::Read { offset, len } => Ok(AdmissionOp::Read(ByteRange::new(*offset, *len))),
        ExportRequest::Write { offset, data } => {
            let length: usize = data.len();
            if length as u64 > u32::MAX as u64 {
                return Err(
                    ServerError::OutOfBounds {
                        operation: "write",
                        offset: *offset,
                        length: length as u64,
                        size_bytes,
                    },
                );
            }
            Ok(AdmissionOp::Write(ByteRange::new(*offset, length as u32)))
        },
        ExportRequest::Flush => Ok(AdmissionOp::Flush),
    }
}

impl MemoryAdmissionPolicy {
    pub closed spec fn size(&self) -> int {
        self.size_bytes as int
    }

    pub fn new(size_bytes: u64) -> (policy: Self)
        ensures
            policy.size() == size_bytes,
    {
        Self { size_bytes }
    }
}

impl ExportAdmissionPolicy for MemoryAdmissionPolicy {
    open spec fn maps(&self, request: ExportRequest, result: Result<AdmissionOp>) -> bool {
        plain_operation(request, self.size(), result)
    }

    fn operation_for(&self, request: &ExportRequest) -> (result: Result<AdmissionOp>) {
        plain_operation_for(request, self.size_bytes)
    }

    proof fn law_flush_is_apart(
        &self,
        flush: Result<AdmissionOp>,
        request: ExportRequest,
        op: AdmissionOp,
    ) {
    }

    proof fn law_write_is_apart(
        &self,
        write: ExportRequest,
        written: AdmissionOp,
        request: ExportRequest,
        op: AdmissionOp,
        position: int,
    ) {
    }

    proof fn law_reads_run_together(
        &self,
        first: ExportRequest,
        one: Result<AdmissionOp>,
        second: ExportRequest,
        other: Result<AdmissionOp>,
    ) {
    }
}

/// An export whose bytes live in memory.
#[derive(Debug)]
pub struct MemoryExportEngine {
    name: ExportName,
    block_size: u64,
    data: Vec<u8>,
}

/// Why an export cannot be kept in memory.
pub open spec fn memory_error(name: Seq<char>, head: ExportHead) -> Option<ErrorView> {
    if head.layout_kind != ExportLayoutKind::MemoryEmpty {
        Some(
            ErrorView::Catalog {
                message: "export `"@ + name + "` does not have a memory_empty head"@,
            },
        )
    } else if head.size_bytes > MAX_MEMORY_EXPORT_BYTES {
        Some(
            ErrorView::ExportTooLarge {
                name,
                size_bytes: head.size_bytes,
                max_size_bytes: MAX_MEMORY_EXPORT_BYTES,
            },
        )
    } else {
        None
    }
}

/// What a request does to bytes, and what it is answered.
pub open spec fn executes(
    before: Seq<u8>,
    after: Seq<u8>,
    request: ExportRequest,
    result: ExportResult,
) -> bool {
    match request {
        ExportRequest::Read { offset, len } => {
            &&& after == before
            &&& if offset + len > before.len() {
                result matches Err(error) && error@ == out_of_bounds(
                    "read"@,
                    offset as int,
                    len as int,
                    before.len() as int,
                )
            } else {
                result matches Ok(reply) && reply matches ExportReply::Read { data } && data@
                    == before.subrange(offset as int, offset + len)
            }
        },
        ExportRequest::Write { offset, data } => if offset + data@.len() > before.len() {
            &&& after == before
            &&& result matches Err(error) && error@ == out_of_bounds(
                "write"@,
                offset as int,
                data@.len() as int,
                before.len() as int,
            )
        } else {
            &&& after == overwritten(before, offset as int, data@)
            &&& result matches Ok(reply) && reply is Done
        },
        ExportRequest::Flush => after == before && (result matches Ok(reply) && reply is Done),
    }
}

/// What is made of an export that is to be kept in memory.
pub open spec fn makes(
    descriptor: ExportDescriptor,
    head: ExportHead,
    result: Result<MemoryExportEngine>,
) -> bool {
    match result {
        Ok(engine) => {
            &&& memory_error(descriptor.name@, head) is None
            &&& engine.contents() == zero_bytes(head.size_bytes as nat)
            &&& engine.title() == descriptor.name@
            &&& engine.unit() == descriptor.block_size
        },
        Err(error) => memory_error(descriptor.name@, head) == Some(error@),
    }
}

impl MemoryExportEngine {
    /// The bytes of the export.
    pub closed spec fn contents(&self) -> Seq<u8> {
        self.data@
    }

    pub closed spec fn title(&self) -> Seq<char> {
        self.name@
    }

    pub closed spec fn unit(&self) -> int {
        self.block_size as int
    }

    pub fn new(meta: &ExportRecord) -> (result: Result<Self>)
        ensures
            match result {
                Ok(engine) => {
                    &&& memory_error(meta.descriptor.name@, meta.head) is None
                    &&& engine.contents() == zero_bytes(meta.head.size_bytes as nat)
                    &&& engine.title() == meta.descriptor.name@
                    &&& engine.unit() == meta.descriptor.block_size
                },
                Err(error) => memory_error(meta.descriptor.name@, meta.head) == Some(error@),
            },
    {
        Self::from_descriptor(&meta.descriptor, &meta.head)
    }

    pub fn from_descriptor(descriptor: &ExportDescriptor, head: &ExportHead) -> (result: Result<
        Self,
    >)
        ensures
            makes(*descriptor, *head, result),
    {
        let name = descriptor.name.clone();
        if head.layout_kind != ExportLayoutKind::MemoryEmpty {
            return Err(
                ServerError::catalog(
                    concat_three(
                        "export `",
                        name.as_str(),
                        "` does not have a memory_empty head",
                    ),
                ),
            );
        }
        let size_bytes: u64 = head.size_bytes;
        if size_bytes > MAX_MEMORY_EXPORT_BYTES {
            return Err(
                ServerError::ExportTooLarge {
                    name,
                    size_bytes,
                    max_size_bytes: MAX_MEMORY_EXPORT_BYTES,
                },
            );
        }
        Ok(
            Self {
                name,
                block_size: descriptor.block_size,
                data: zeros(size_bytes as usize),
            },
        )
    }

    pub fn name(&self) -> (name: &ExportName)
        ensures
            name@ == self.title(),
    {
        &self.name
    }

    pub fn size_bytes(&self) -> (size_bytes: u64)
        ensures
            size_bytes == self.contents().len(),
    {
        self.data.len() as u64
    }

    pub fn block_size(&self) -> (block_size: u64)
        ensures
            block_size == self.unit(),
    {
        self.block_size
    }

    pub fn admission_policy(&self) -> (policy: MemoryAdmissionPolicy)
        ensures
            policy.size() == self.contents().len(),
    {
        MemoryAdmissionPolicy::new(self.size_bytes())
    }

    fn read(&self, offset: u64, len: u32) -> (result: Result<Vec<u8>>)
        ensures
            match result {
                Ok(data) => offset + len <= self.contents().len() && data@
                    == self.contents().subrange(offset as int, offset + len),
                Err(error) => offset + len > self.contents().len() && error@ == out_of_bounds(
                    "read"@,
                    offset as int,
                    len as int,
                    self.contents().len() as int,
                ),
            },
    {
        let room: usize = self.data.len();
        match validate_request_range("read", offset, len as u64, room as u64) {
            Ok(_) => {},
            Err(error) => {
                return Err(error);
            },
        }
        let mut data: Vec<u8> = Vec::new();
        append_from(&mut data, &self.data, offset as usize, len as usize);
        proof {
            assert(data@ =~= self.data@.subrange(offset as int, offset + len));
        }
        Ok(data)
    }

    fn write(&mut self, offset: u64, data: &Vec<u8>) -> (result: Result<()>)
        ensures
            final(self).title() == old(self).title(),
            final(self).unit() == old(self).unit(),
            match result {
                Ok(_) => offset + data@.len() <= old(self).contents().len()
                    && final(self).contents() == overwritten(
                    old(self).contents(),
                    offset as int,
                    data@,
                ),
                Err(error) => {
                    &&& offset + data@.len() > old(self).contents().len()
                    &&& error@ == out_of_bounds(
                        "write"@,
                        offset as int,
                        data@.len() as int,
                        old(self).contents().len() as int,
                    )
                    &&& final(self).contents() == old(self).contents()
                },
            },
    {
        let length: usize = data.len();
        let room: usize = self.data.len();
        match validate_request_range("write", offset, length as u64, room as u64) {
            Ok(_) => {},
            Err(error) => {
                return Err(error);
            },
        }
        copy_into(&mut self.data, offset as usize, data, 0, length);
        proof {
            assert(data@.subrange(0, data@.len() as int) =~= data@);
        }
        Ok(())
    }

    /// Runs an admitted request.
    pub fn execute_admitted(&mut self, request: &AdmittedExportRequest) -> (result: ExportResult)
        ensures
            final(self).title() == old(self).title(),
            final(self).unit() == old(self).unit(),
            executes(old(self).contents(), final(self).contents(), request.payload(), result),
    {
        match request.request() {
            ExportRequest::Read { offset, len } => match self.read(*offset, *len) {
                Ok(data) => Ok(ExportReply::Read { data }),
                Err(error) => Err(error),
            },
            ExportRequest::Write { offset, data } => match self.write(*offset, data) {
                Ok(_) => Ok(ExportReply::Done),
                Err(error) => Err(error),
            },
            ExportRequest::Flush => Ok(ExportReply::Done),
        }
    }
}

/// What was written is read back, and nothing else changed.
pub proof fn law_memory_reads_what_was_written(
    before: Seq<u8>,
    after: Seq<u8>,
    write: ExportRequest,
    written: ExportResult,
    read: ExportRequest,
    reply: ExportResult,
    position: int,
)
    requires
        write is Write,
        executes(before, after, write, written),
        written is Ok,
        read is Read,
        executes(after, after, read, reply),
        reply is Ok,
        read->Read_offset <= position < read->Read_offset + read->len,
    ensures
        reply->Ok_0 is Read,
        reply->Ok_0->data@[position - read->Read_offset] == (if write->Write_offset <= position
            < write->Write_offset + write->data@.len() {
            write->data@[position - write->Write_offset]
        } else {
            before[position]
        }),
{
}

/// A request that lies in the export succeeds with an answer of its kind, and one that reaches
/// beyond its end is refused. A flush always succeeds, and the export keeps its size.
pub proof fn law_memory_refuses_only_what_lies_outside(
    before: Seq<u8>,
    after: Seq<u8>,
    request: ExportRequest,
    result: ExportResult,
)
    requires
        executes(before, after, request, result),
    ensures
        after.len() == before.len(),
        match request {
            ExportRequest::Read { offset, len } => {
                &&& result is Ok <==> offset + len <= before.len()
                &&& result is Ok ==> result->Ok_0 is Read && result->Ok_0->data@.len() == len
            },
            ExportRequest::Write { offset, data } => {
                &&& result is Ok <==> offset + data@.len() <= before.len()
                &&& result is Ok ==> result->Ok_0 is Done
            },
            ExportRequest::Flush => result is Ok && result->Ok_0 is Done,
        },
        result matches Err(error) ==> error@ is OutOfBounds,
{
}

/// Whether a request asks for a byte to be written.
pub open spec fn writes_to(request: ExportRequest, position: int) -> bool {
    request matches ExportRequest::Write { offset, data } && offset <= position < offset
        + data@.len()
}

/// A byte changes only by a write to it that succeeds, and then it is the one that was written.
pub proof fn law_only_a_write_changes_a_byte(
    before: Seq<u8>,
    after: Seq<u8>,
    request: ExportRequest,
    result: ExportResult,
    position: int,
)
    requires
        executes(before, after, request, result),
        0 <= position < before.len(),
    ensures
        !writes_to(request, position) ==> after[position] == before[position],
        result is Err ==> after == before,
        request is Read || request is Flush ==> after == before,
        writes_to(request, position) && result is Ok ==> after[position]
            == request->Write_data@[position - request->Write_offset],
{
}

/// Requests that were run one after the other: each found the bytes that the one before it left.
pub open spec fn history(
    states: Seq<Seq<u8>>,
    requests: Seq<ExportRequest>,
    results: Seq<ExportResult>,
) -> bool {
    &&& states.len() == requests.len() + 1
    &&& results.len() == requests.len()
    &&& forall|i: int|
        0 <= i < requests.len() ==> executes(
            states[i],
            states[i + 1],
            #[trigger] requests[i],
            results[i],
        )
}

/// The export keeps its size, and a byte stays what it is while no request writes to it.
pub proof fn law_a_byte_stays_until_it_is_written(
    states: Seq<Seq<u8>>,
    requests: Seq<ExportRequest>,
    results: Seq<ExportResult>,
    from: int,
    to: int,
    position: int,
)
    requires
        history(states, requests, results),
        0 <= from <= to <= requests.len(),
        0 <= position < states[from].len(),
        forall|i: int| from <= i < to ==> !writes_to(#[trigger] requests[i], position),
    ensures
        states[to].len() == states[from].len(),
        states[to][position] == states[from][position],
    decreases to - from,
{
    if from < to {
        law_a_byte_stays_until_it_is_written(states, requests, results, from, to - 1, position);
        let last = requests[to - 1];
        assert(executes(states[to - 1], states[to - 1 + 1], last, results[to - 1]));
        assert(!writes_to(last, position));
    }
}

/// A byte that was written is what every later read of it gives, whatever requests came between,
/// flushes among them, as long as none of those wrote to it.
pub proof fn law_memory_reads_the_last_write(
    states: Seq<Seq<u8>>,
    requests: Seq<ExportRequest>,
    results: Seq<ExportResult>,
    write: int,
    read: int,
    position: int,
)
    requires
        history(states, requests, results),
        0 <= write < read < requests.len(),
        requests[write] is Write,
        requests[write]->Write_offset + requests[write]->Write_data@.len() <= states[write].len(),
        writes_to(requests[write], position),
        forall|i: int| write < i < read ==> !writes_to(#[trigger] requests[i], position),
        requests[read] is Read,
        requests[read]->Read_offset + requests[read]->len <= states[write].len(),
        requests[read]->Read_offset <= position < requests[read]->Read_offset
            + requests[read]->len,
    ensures
        results[write] is Ok,
        results[read] is Ok,
        results[read]->Ok_0 is Read,
        results[read]->Ok_0->data@.len() == requests[read]->len,
        results[read]->Ok_0->data@[position - requests[read]->Read_offset]
            == requests[write]->Write_data@[position - requests[write]->Write_offset],
{
    assert(executes(states[write], states[write + 1], requests[write], results[write]));
    law_a_byte_stays_until_it_is_written(states, requests, results, write + 1, read, position);
    assert(executes(states[read], states[read + 1], requests[read], results[read]));
}

/// A position that no request has written to reads as it did at first: zero in a new export.
pub proof fn law_memory_reads_zero_until_written(
    states: Seq<Seq<u8>>,
    requests: Seq<ExportRequest>,
    results: Seq<ExportResult>,
    read: int,
    position: int,
)
    requires
        history(states, requests, results),
        0 <= read < requests.len(),
        states[0] == zero_bytes(states[0].len()),
        forall|i: int| 0 <= i < read ==> !writes_to(#[trigger] requests[i], position),
        requests[read] is Read,
        requests[read]->Read_offset + requests[read]->len <= states[0].len(),
        requests[read]->Read_offset <= position < requests[read]->Read_offset
            + requests[read]->len,
    ensures
        results[read] is Ok,
        results[read]->Ok_0 is Read,
        results[read]->Ok_0->data@[position - requests[read]->Read_offset] == 0,
{
    law_a_byte_stays_until_it_is_written(states, requests, results, 0, read, position);
    assert(executes(states[read], states[read + 1], requests[read], results[read]));
}

/// A request that lies in the export is admitted, and one that reaches beyond its end is not: it
/// has no operation, or one that is refused. Requests that share no byte may run beside each
/// other.
pub proof fn law_plain_requests_are_admitted_where_they_lie(
    first: ExportRequest,
    one: Result<AdmissionOp>,
    second: ExportRequest,
    other: Result<AdmissionOp>,
    size_bytes: int,
)
    requires
        !(first is Flush),
        !(second is Flush),
        plain_operation(first, size_bytes, one),
        plain_operation(second, size_bytes, other),
        0 <= size_bytes <= u64::MAX,
    ensures
        ({
            let length = match first {
                ExportRequest::Read { len, .. } => len as int,
                ExportRequest::Write { data, .. } => data@.len() as int,
                ExportRequest::Flush => 0,
            };
            let offset = match first {
                ExportRequest::Read { offset, .. } => offset as int,
                ExportRequest::Write { offset, .. } => offset as int,
                ExportRequest::Flush => 0,
            };
            &&& length <= u32::MAX ==> one is Ok
            &&& one is Ok ==> (admission_error(size_bytes, one->Ok_0) is None <==> offset + length
                <= size_bytes)
            &&& one is Err ==> one->Err_0@ is OutOfBounds
            &&& one is Ok && other is Ok && length > 0 && offset + length <= size_bytes
                && admission_error(size_bytes, other->Ok_0) is None && other->Ok_0.span()->0.size()
                > 0 && (forall|position: int|
                !(first.touches(position) && #[trigger] second.touches(position)))
                ==> !one->Ok_0.clashes(other->Ok_0)
        }),
{
    if one is Ok && other is Ok {
        let left = one->Ok_0.span()->0;
        let right = other->Ok_0.span()->0;
        assert(forall|position: int| #[trigger]
            right.covers(position) == second.touches(position));
        if left.limit() <= u64::MAX && right.limit() <= u64::MAX && left.size() > 0 && right.size()
            > 0 {
            left.law_overlap_is_a_shared_byte(right);
            if left.meets(right) {
                let position = choose|position: int|
                    left.covers(position) && #[trigger] right.covers(position);
                assert(second.touches(position));
            }
        }
    }
}

/// An export is kept in memory exactly when its head is that of an empty one and it is no larger
/// than the most that is kept there.
pub proof fn law_memory_holds_only_small_empty_exports(name: Seq<char>, head: ExportHead)
    ensures
        memory_error(name, head) is None <==> head.layout_kind == ExportLayoutKind::MemoryEmpty
            && head.size_bytes <= 67108864,
        head.layout_kind == ExportLayoutKind::MemoryEmpty && head.size_bytes > 67108864
            ==> memory_error(name, head)->0 is ExportTooLarge,
        head.layout_kind != ExportLayoutKind::MemoryEmpty ==> memory_error(
            name,
            head,
        )->0 is Catalog,
{
}

/// An export that is kept in memory begins with as many bytes as its head says, all of them zero,
/// under its own name.
pub proof fn law_a_new_memory_export_holds_zeros(
    descriptor: ExportDescriptor,
    head: ExportHead,
    result: Result<MemoryExportEngine>,
    position: int,
)
    requires
        makes(descriptor, head, result),
    ensures
        result is Ok <==> head.layout_kind == ExportLayoutKind::MemoryEmpty && head.size_bytes
            <= 67108864,
        result matches Ok(engine) ==> {
            &&& engine.contents().len() == head.size_bytes
            &&& 0 <= position < head.size_bytes ==> engine.contents()[position] == 0
            &&& engine.title() == descriptor.name@
            &&& engine.unit() == descriptor.block_size
        },
{
}

} // verus!
