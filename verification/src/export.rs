//! Requests to an export, their identity, and the replies.

use crate::admission::{AdmissionEntry, AdmissionOp, AdmissionTicket};
use crate::error::Result;
use vstd::prelude::*;

verus! {

/// Export request after wire decoding and before backend execution.
#[derive(Debug, PartialEq, Eq)]
pub enum ExportRequest {
    Read { offset: u64, len: u32 },
    Write { offset: u64, data: Vec<u8> },
    Flush,
}

/// Export reply before NBD wire encoding.
#[derive(Debug, PartialEq, Eq)]
pub enum ExportReply {
    Read { data: Vec<u8> },
    Done,
}

pub type ExportResult = Result<ExportReply>;

impl ExportRequest {
    /// Whether the request reads or writes a byte.
    pub open spec fn touches(self, position: int) -> bool {
        match self {
            ExportRequest::Read { offset, len } => offset <= position < offset + len,
            ExportRequest::Write { offset, data } => offset <= position < offset + data@.len(),
            ExportRequest::Flush => false,
        }
    }

    /// The word for the request.
    pub open spec fn word(&self) -> Seq<char> {
        match self {
            ExportRequest::Read { .. } => "read"@,
            ExportRequest::Write { .. } => "write"@,
            ExportRequest::Flush => "flush"@,
        }
    }

    pub fn command_name(&self) -> (name: &'static str)
        ensures
            name@ == self.word(),
    {
        match self {
            ExportRequest::Read { .. } => "read",
            ExportRequest::Write { .. } => "write",
            ExportRequest::Flush => "flush",
        }
    }
}

/// Backing-store-specific mapping from export requests to admission operations.
pub trait ExportAdmissionPolicy {
    /// Whether `result` is the operation of the request, or the reason why it has none.
    spec fn maps(&self, request: ExportRequest, result: Result<AdmissionOp>) -> bool;

    fn operation_for(&self, request: &ExportRequest) -> (result: Result<AdmissionOp>)
        ensures
            self.maps(*request, result),
    ;

    /// A flush has an operation, which must not run beside that of any request.
    proof fn law_flush_is_apart(
        &self,
        flush: Result<AdmissionOp>,
        request: ExportRequest,
        op: AdmissionOp,
    )
        requires
            self.maps(ExportRequest::Flush, flush),
            self.maps(request, Ok(op)),
        ensures
            flush is Ok,
            flush->Ok_0.clashes(op),
            op.clashes(flush->Ok_0),
    ;

    /// The operation of a write must not run beside that of a request for one of its bytes.
    proof fn law_write_is_apart(
        &self,
        write: ExportRequest,
        written: AdmissionOp,
        request: ExportRequest,
        op: AdmissionOp,
        position: int,
    )
        requires
            write is Write,
            self.maps(write, Ok(written)),
            self.maps(request, Ok(op)),
            write.touches(position),
            request.touches(position),
            position < u64::MAX,
        ensures
            written.clashes(op),
            op.clashes(written),
    ;

    /// Every read has an operation, and may run beside other reads.
    proof fn law_reads_run_together(
        &self,
        first: ExportRequest,
        one: Result<AdmissionOp>,
        second: ExportRequest,
        other: Result<AdmissionOp>,
    )
        requires
            first is Read,
            second is Read,
            self.maps(first, one),
            self.maps(second, other),
        ensures
            one is Ok,
            other is Ok,
            !one->Ok_0.clashes(other->Ok_0),
    ;
}

/// Identity that a client gave to a request.
#[derive(Debug, Clone, Copy, PartialEq, Eq, Structural, Hash)]
pub struct RequestCookie(u64);

impl RequestCookie {
    pub closed spec fn number(self) -> int {
        self.0 as int
    }

    pub fn new(raw: u64) -> (cookie: Self)
        ensures
            cookie.number() == raw,
    {
        Self(raw)
    }

    pub fn raw(self) -> (raw: u64)
        ensures
            raw == self.number(),
    {
        self.0
    }
}

/// Identity of a client connection. Zero stands for the server itself.
#[derive(Debug, Clone, Copy, PartialEq, Eq, Structural, Hash)]
pub struct ConnectionId(u64);

impl ConnectionId {
    pub closed spec fn number(self) -> int {
        self.0 as int
    }

    pub fn new(raw: u64) -> (id: Self)
        ensures
            id.number() == raw,
    {
        Self(raw)
    }

    pub fn internal() -> (id: Self)
        ensures
            id.number() == 0,
    {
        Self(0)
    }

    /// An identity that no other connection has.
    pub fn next(ids: &mut ConnectionIds) -> (id: Self)
        requires
            old(ids).upcoming() < u64::MAX,
        ensures
            id.number() == old(ids).upcoming(),
            final(ids).upcoming() == old(ids).upcoming() + 1,
    {
        let id = Self(ids.next);
        ids.next = ids.next + 1;
        id
    }

    pub fn raw(self) -> (raw: u64)
        ensures
            raw == self.number(),
    {
        self.0
    }
}

/// Numbers the connections from one on.
#[derive(Debug)]
pub struct ConnectionIds {
    next: u64,
}

impl ConnectionIds {
    /// The number of the next connection.
    pub closed spec fn upcoming(&self) -> int {
        self.next as int
    }

    pub fn new() -> (ids: Self)
        ensures
            ids.upcoming() == 1,
    {
        Self { next: 1 }
    }

    /// Whether another connection can be numbered.
    pub fn has_next(&self) -> (has: bool)
        ensures
            has == (self.upcoming() < u64::MAX),
    {
        self.next < u64::MAX
    }
}

/// Place of a request among those of its connection. Zero stands for the server itself.
#[derive(Debug, Clone, Copy, PartialEq, Eq, Structural, Hash)]
pub struct RequestSequence(u64);

impl RequestSequence {
    pub closed spec fn number(self) -> int {
        self.0 as int
    }

    pub fn internal() -> (sequence: Self)
        ensures
            sequence.number() == 0,
    {
        Self(0)
    }

    pub fn raw(self) -> (raw: u64)
        ensures
            raw == self.number(),
    {
        self.0
    }
}

/// Numbers the requests of a connection from one on.
#[derive(Debug)]
pub struct RequestSequenceGenerator {
    next: u64,
}

impl RequestSequenceGenerator {
    /// The number of the next request.
    pub closed spec fn upcoming(&self) -> int {
        self.next as int
    }

    pub fn new() -> (generator: Self)
        ensures
            generator.upcoming() == 1,
    {
        Self { next: 1 }
    }

    /// Whether another request can be numbered.
    pub fn has_next(&self) -> (has: bool)
        ensures
            has == (self.upcoming() < u64::MAX),
    {
        self.next < u64::MAX
    }

    pub fn next(&mut self) -> (sequence: RequestSequence)
        requires
            old(self).upcoming() < u64::MAX,
        ensures
            sequence.number() == old(self).upcoming(),
            final(self).upcoming() == old(self).upcoming() + 1,
    {
        let sequence = RequestSequence(self.next);
        self.next = self.next + 1;
        sequence
    }
}

/// What is known of a request besides its payload.
#[derive(Debug, Clone, Copy, PartialEq, Eq)]
pub struct ExportJobContext {
    connection_id: ConnectionId,
    request_sequence: RequestSequence,
    cookie: RequestCookie,
    command: &'static str,
    offset: Option<u64>,
    length: Option<u64>,
    reply_kind: &'static str,
}

/// What a context says.
pub struct JobView {
    pub connection_id: ConnectionId,
    pub request_sequence: RequestSequence,
    pub cookie: RequestCookie,
    pub command: Seq<char>,
    pub offset: Option<u64>,
    pub length: Option<u64>,
    pub reply_kind: Seq<char>,
}

impl View for ExportJobContext {
    type V = JobView;

    closed spec fn view(&self) -> JobView {
        JobView {
            connection_id: self.connection_id,
            request_sequence: self.request_sequence,
            cookie: self.cookie,
            command: self.command@,
            offset: self.offset,
            length: self.length,
            reply_kind: self.reply_kind@,
        }
    }
}

impl ExportJobContext {
    pub fn new(
        connection_id: ConnectionId,
        request_sequence: RequestSequence,
        cookie: RequestCookie,
        command: &'static str,
        offset: Option<u64>,
        length: Option<u64>,
        reply_kind: &'static str,
    ) -> (context: Self)
        ensures
            context@ == (JobView {
                connection_id,
                request_sequence,
                cookie,
                command: command@,
                offset,
                length,
                reply_kind: reply_kind@,
            }),
    {
        Self { connection_id, request_sequence, cookie, command, offset, length, reply_kind }
    }

    /// The context of a request of the server itself.
    pub fn internal(cookie: RequestCookie, command: &'static str) -> (context: Self)
        ensures
            context@.connection_id.number() == 0,
            context@.request_sequence.number() == 0,
            context@.cookie == cookie,
            context@.command == command@,
            context@.offset is None,
            context@.length is None,
            context@.reply_kind == "internal"@,
    {
        Self::new(
            ConnectionId::internal(),
            RequestSequence::internal(),
            cookie,
            command,
            None,
            None,
            "internal",
        )
    }

    pub fn connection_id(&self) -> (id: ConnectionId)
        ensures
            id == self@.connection_id,
    {
        self.connection_id
    }

    pub fn request_sequence(&self) -> (sequence: RequestSequence)
        ensures
            sequence == self@.request_sequence,
    {
        self.request_sequence
    }

    pub fn cookie(&self) -> (cookie: RequestCookie)
        ensures
            cookie == self@.cookie,
    {
        self.cookie
    }

    pub fn command(&self) -> (command: &'static str)
        ensures
            command@ == self@.command,
    {
        self.command
    }

    pub fn offset(&self) -> (offset: Option<u64>)
        ensures
            offset == self@.offset,
    {
        self.offset
    }

    pub fn length(&self) -> (length: Option<u64>)
        ensures
            length == self@.length,
    {
        self.length
    }

    pub fn reply_kind(&self) -> (kind: &'static str)
        ensures
            kind@ == self@.reply_kind,
    {
        self.reply_kind
    }
}

/// Right to run an admitted operation, to be given back to admission by its ticket.
#[derive(Debug, PartialEq, Eq)]
pub struct AdmissionPermit {
    entry: AdmissionEntry,
}

impl AdmissionPermit {
    pub closed spec fn admitted(&self) -> AdmissionEntry {
        self.entry
    }

    pub fn new(ticket: AdmissionTicket, op: AdmissionOp) -> (permit: Self)
        ensures
            permit.admitted() == (AdmissionEntry { ticket, op }),
    {
        Self { entry: AdmissionEntry { ticket, op } }
    }

    pub fn ticket(&self) -> (ticket: AdmissionTicket)
        ensures
            ticket == self.admitted().ticket,
    {
        self.entry.ticket
    }

    pub fn op(&self) -> (op: AdmissionOp)
        ensures
            op == self.admitted().op,
    {
        self.entry.op
    }
}

/// Export request bundled with the admission permit that authorizes it.
#[derive(Debug)]
pub struct AdmittedExportRequest {
    request: ExportRequest,
    permit: AdmissionPermit,
    context: ExportJobContext,
}

/// Owned admitted request form for engines that must move request payloads.
#[derive(Debug)]
pub struct OwnedAdmittedExportRequest {
    request: Option<ExportRequest>,
    permit: AdmissionPermit,
    context: ExportJobContext,
}

impl AdmittedExportRequest {
    pub closed spec fn payload(&self) -> ExportRequest {
        self.request
    }

    pub closed spec fn admitted(&self) -> AdmissionEntry {
        self.permit.admitted()
    }

    pub closed spec fn job(&self) -> JobView {
        self.context@
    }

    pub fn new(request: ExportRequest, permit: AdmissionPermit, context: ExportJobContext) -> (admitted:
        Self)
        ensures
            admitted.payload() == request,
            admitted.admitted() == permit.admitted(),
            admitted.job() == context@,
    {
        Self { request, permit, context }
    }

    /// Return the admitted request while keeping its admission permit live.
    pub fn request(&self) -> (request: &ExportRequest)
        ensures
            *request == self.payload(),
    {
        &self.request
    }

    pub fn context(&self) -> (context: &ExportJobContext)
        ensures
            context@ == self.job(),
    {
        &self.context
    }

    /// Move into the owned form without releasing the admission permit.
    pub fn into_owned(self) -> (owned: OwnedAdmittedExportRequest)
        ensures
            owned.payload() == Some(self.payload()),
            owned.admitted() == self.admitted(),
            owned.job() == self.job(),
    {
        OwnedAdmittedExportRequest {
            request: Some(self.request),
            permit: self.permit,
            context: self.context,
        }
    }

    /// Give up the permit once the request is done.
    pub fn into_permit(self) -> (permit: AdmissionPermit)
        ensures
            permit.admitted() == self.admitted(),
    {
        self.permit
    }
}

impl OwnedAdmittedExportRequest {
    /// The payload, while it was not taken.
    pub closed spec fn payload(&self) -> Option<ExportRequest> {
        self.request
    }

    pub closed spec fn admitted(&self) -> AdmissionEntry {
        self.permit.admitted()
    }

    pub closed spec fn job(&self) -> JobView {
        self.context@
    }

    /// Return the admitted request while keeping its admission permit live.
    pub fn request(&self) -> (request: &ExportRequest)
        requires
            self.payload() is Some,
        ensures
            Some(*request) == self.payload(),
    {
        self.request.as_ref().unwrap()
    }

    /// Take the request payload while keeping the admission permit live.
    pub fn take_request(&mut self) -> (request: ExportRequest)
        requires
            old(self).payload() is Some,
        ensures
            Some(request) == old(self).payload(),
            final(self).payload() is None,
            final(self).admitted() == old(self).admitted(),
            final(self).job() == old(self).job(),
    {
        let taken = self.request.take();
        taken.unwrap()
    }

    /// Give up the permit once the request is done.
    pub fn into_permit(self) -> (permit: AdmissionPermit)
        ensures
            permit.admitted() == self.admitted(),
    {
        self.permit
    }
}

} // verus!
