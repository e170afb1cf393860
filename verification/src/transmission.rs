//! The requests of a client, from the first byte to the runtime.

use crate::error::{ErrorView, Result, ServerError};
use crate::export::{
    ConnectionId, ExportJobContext, ExportRequest, ExportResult, RequestCookie,
    RequestSequenceGenerator,
};
use crate::memory::{executes, law_memory_refuses_only_what_lies_outside};
use crate::protocol::{
    parse_request, parse_request_header, request_error, request_header_error, request_header_of,
    too_large, RequestHeader, TransmissionRequest, MAX_IO_BYTES, NBD_CMD_DISC, NBD_CMD_READ,
    NBD_CMD_WRITE, REQUEST_HEADER_BYTES,
};
use crate::replies::{
    answer, law_only_success_is_answered_with_zero, law_reply_carries_the_cookie, ReplyKind,
    ReplyView,
};
use crate::wire::{law_number_round_trip, lemma_number_bound, number_of, span_of};
use vstd::prelude::*;

verus! {

/// What becomes of replies that were not written yet when a reader ends.
#[derive(Debug, Clone, Copy, PartialEq, Eq, Structural)]
pub enum ConnectionReplyDrain {
    DropPending,
    DrainQueued,
}

/// How a reader ended.
#[derive(Debug)]
pub struct RequestReaderExit {
    pub result: Result<()>,
    pub reply_drain: ConnectionReplyDrain,
}

/// How a reader ended: with an error or without, and what becomes of the replies.
pub struct ExitView {
    pub error: Option<ErrorView>,
    pub drain: ConnectionReplyDrain,
}

impl View for RequestReaderExit {
    type V = ExitView;

    open spec fn view(&self) -> ExitView {
        ExitView {
            error: match self.result {
                Ok(_) => None,
                Err(error) => Some(error@),
            },
            drain: self.reply_drain,
        }
    }
}

#[derive(Debug)]
enum Stage {
    Header,
    Reserve { header: RequestHeader, payload_len: usize },
    Payload { header: RequestHeader, payload_len: usize },
    Submit { cookie: u64 },
    Refuse { cookie: u64, error: ServerError },
    Exit { exit: RequestReaderExit },
}

/// What a reader does next.
pub enum ReaderStage {
    /// The header of a request is read.
    Header,
    /// A slot of the export's queue is reserved.
    Reserve { header: RequestHeader, payload_len: int },
    /// The payload of the request is read.
    Payload { header: RequestHeader, payload_len: int },
    /// The request is handed to the runtime.
    Submit { cookie: u64 },
    /// The client is told of an error, and the reader ends with it.
    Refuse { cookie: u64, error: ErrorView },
    /// Nothing: the reader has ended.
    Exit { exit: ExitView },
}

/// Reads the requests of a connection.
#[derive(Debug)]
pub struct RequestReader {
    connection_id: ConnectionId,
    sequences: RequestSequenceGenerator,
    stage: Stage,
}

/// State of a reader.
pub struct ReaderView {
    pub connection: ConnectionId,
    pub next_sequence: int,
    pub stage: ReaderStage,
}

/// What the server has to do for a reader.
#[derive(Debug, Clone, Copy, PartialEq, Eq, Structural)]
pub enum ReaderAction {
    ReadHeader { length: usize },
    ReserveSlot,
    ReadPayload { length: usize },
    Submit,
    SendSimpleError { cookie: u64 },
    Exit,
}

/// A request that is handed to the runtime with its slot.
#[derive(Debug)]
pub struct DecodedRequest {
    pub context: ExportJobContext,
    pub request: ExportRequest,
    pub kind: ReplyKind,
}

impl View for RequestReader {
    type V = ReaderView;

    closed spec fn view(&self) -> ReaderView {
        ReaderView {
            connection: self.connection_id,
            next_sequence: self.sequences.upcoming(),
            stage: match self.stage {
                Stage::Header => ReaderStage::Header,
                Stage::Reserve { header, payload_len } => ReaderStage::Reserve {
                    header,
                    payload_len: payload_len as int,
                },
                Stage::Payload { header, payload_len } => ReaderStage::Payload {
                    header,
                    payload_len: payload_len as int,
                },
                Stage::Submit { cookie } => ReaderStage::Submit { cookie },
                Stage::Refuse { cookie, error } => ReaderStage::Refuse { cookie, error: error@ },
                Stage::Exit { exit } => ReaderStage::Exit { exit: exit@ },
            },
        }
    }
}

/// A reader that ended at once: what was not replied is dropped.
pub open spec fn closed(error: Option<ErrorView>) -> ReaderStage {
    ReaderStage::Exit { exit: ExitView { error, drain: ConnectionReplyDrain::DropPending } }
}

/// A reader that ended with what was not replied still to be written.
pub open spec fn drained(error: ErrorView) -> ReaderStage {
    ReaderStage::Exit {
        exit: ExitView { error: Some(error), drain: ConnectionReplyDrain::DrainQueued },
    }
}

/// How many bytes follow a header.
pub open spec fn payload_of(header: RequestHeader) -> int {
    if header.command == NBD_CMD_WRITE {
        header.length as int
    } else {
        0
    }
}

/// What follows the header of a request.
pub open spec fn after_header(bytes: Seq<u8>) -> ReaderStage {
    match request_header_error(bytes) {
        Some(source) => closed(Some(ErrorView::Protocol { source })),
        None => {
            let header = request_header_of(bytes);
            if header.command == NBD_CMD_WRITE && header.length > MAX_IO_BYTES {
                ReaderStage::Refuse {
                    cookie: header.cookie,
                    error: ErrorView::Protocol { source: too_large(header.length) },
                }
            } else if header.command == NBD_CMD_DISC {
                closed(None)
            } else {
                ReaderStage::Reserve { header, payload_len: payload_of(header) }
            }
        },
    }
}

/// What follows the payload of a request.
pub open spec fn after_payload(header: RequestHeader, payload: Seq<u8>) -> ReaderStage {
    match request_error(header, payload) {
        Some(source) => ReaderStage::Refuse {
            cookie: header.cookie,
            error: ErrorView::Protocol { source },
        },
        None => if header.command == NBD_CMD_DISC {
            closed(None)
        } else {
            ReaderStage::Submit { cookie: header.cookie }
        },
    }
}

/// The request that a header and a payload stand for, with what is known of it.
pub open spec fn decoded(
    request: DecodedRequest,
    header: RequestHeader,
    payload: Seq<u8>,
    connection: ConnectionId,
    sequence: int,
) -> bool {
    let job = request.context@;
    &&& job.connection_id == connection
    &&& job.request_sequence.number() == sequence
    &&& job.cookie.number() == header.cookie
    &&& job.command == request.request.word()
    &&& job.reply_kind == request.kind.word()
    &&& if header.command == NBD_CMD_READ {
        &&& request.kind == ReplyKind::Read
        &&& request.request == (ExportRequest::Read { offset: header.offset, len: header.length })
        &&& job.offset == Some(header.offset)
        &&& job.length == Some(header.length as u64)
    } else if header.command == NBD_CMD_WRITE {
        &&& request.kind == ReplyKind::Simple
        &&& request.request matches ExportRequest::Write { offset, data } && offset
            == header.offset && data@ == payload
        &&& job.offset == Some(header.offset)
        &&& job.length == Some(payload.len() as u64)
    } else {
        &&& request.kind == ReplyKind::Simple
        &&& request.request is Flush
        &&& job.offset is None
        &&& job.length is None
    }
}

/// Whether the reader holds a slot of the export's queue: from the reservation until the request is
/// handed to the runtime or the reader has ended.
pub open spec fn holds_slot(stage: ReaderStage) -> bool {
    stage is Payload || stage is Submit
}

/// What a reader does with the payload of a request, and the request that comes of it.
pub open spec fn takes_payload(
    before: ReaderView,
    after: ReaderView,
    payload: Seq<u8>,
    request: Option<DecodedRequest>,
) -> bool {
    let header = before.stage->Payload_header;
    &&& after.stage == after_payload(header, payload)
    &&& after.connection == before.connection
    &&& match request {
        Some(request) => {
            &&& after.stage is Submit
            &&& after.next_sequence == before.next_sequence + 1
            &&& decoded(
                request,
                header,
                payload,
                before.connection,
                before.next_sequence,
            )
        },
        None => {
            &&& !(after.stage is Submit)
            &&& after.next_sequence == before.next_sequence
        },
    }
}

/// What a reader is told of, apart from the bytes that it reads.
pub enum ReaderEvent {
    EndOfStream,
    ReadFailed { error: ErrorView },
    Cancelled,
    SlotReserved,
    ReserveFailed { error: ErrorView },
    Submitted,
    SubmitFailed { error: ErrorView },
    ErrorSent { queued: bool },
}

/// The reader after it was told of an event.
pub open spec fn moved(view: ReaderView, event: ReaderEvent) -> ReaderView {
    let stage = match event {
        ReaderEvent::EndOfStream => closed(None),
        ReaderEvent::ReadFailed { error } => closed(Some(error)),
        ReaderEvent::Cancelled => closed(None),
        ReaderEvent::SlotReserved => ReaderStage::Payload {
            header: view.stage->Reserve_header,
            payload_len: view.stage->Reserve_payload_len,
        },
        ReaderEvent::ReserveFailed { error } => ReaderStage::Refuse {
            cookie: view.stage->Reserve_header.cookie,
            error,
        },
        ReaderEvent::Submitted => ReaderStage::Header,
        ReaderEvent::SubmitFailed { error } => ReaderStage::Refuse {
            cookie: view.stage->Submit_cookie,
            error,
        },
        ReaderEvent::ErrorSent { queued } => drained(
            if queued {
                view.stage->error
            } else {
                ErrorView::RuntimeClosed { resource: "connection reply queue"@ }
            },
        ),
    };
    ReaderView { stage, ..view }
}

impl RequestReader {
    pub closed spec fn wf(&self) -> bool {
        &&& self.stage matches Stage::Reserve { header, payload_len } ==> payload_len
            == payload_of(header) && header.command != NBD_CMD_DISC
        &&& self.stage matches Stage::Payload { header, payload_len } ==> payload_len
            == payload_of(header) && header.command != NBD_CMD_DISC
    }

    pub fn new(connection_id: ConnectionId) -> (reader: Self)
        ensures
            reader.wf(),
            reader@ == (ReaderView {
                connection: connection_id,
                next_sequence: 1,
                stage: ReaderStage::Header,
            }),
    {
        Self { connection_id, sequences: RequestSequenceGenerator::new(), stage: Stage::Header }
    }

    /// Whether another request can be numbered.
    pub fn has_sequence(&self) -> (has: bool)
        ensures
            has == (self@.next_sequence < u64::MAX),
    {
        self.sequences.has_next()
    }

    /// What the server has to do next.
    pub fn action(&self) -> (action: ReaderAction)
        ensures
            match self@.stage {
                ReaderStage::Header => action == (ReaderAction::ReadHeader {
                    length: REQUEST_HEADER_BYTES,
                }),
                ReaderStage::Reserve { .. } => action == ReaderAction::ReserveSlot,
                ReaderStage::Payload { payload_len, .. } => {
                    action matches ReaderAction::ReadPayload { length } && length == payload_len
                },
                ReaderStage::Submit { .. } => action == ReaderAction::Submit,
                ReaderStage::Refuse { cookie, .. } => action == (ReaderAction::SendSimpleError {
                    cookie,
                }),
                ReaderStage::Exit { .. } => action == ReaderAction::Exit,
            },
    {
        match &self.stage {
            Stage::Header => ReaderAction::ReadHeader { length: REQUEST_HEADER_BYTES },
            Stage::Reserve { .. } => ReaderAction::ReserveSlot,
            Stage::Payload { payload_len, .. } => ReaderAction::ReadPayload {
                length: *payload_len,
            },
            Stage::Submit { .. } => ReaderAction::Submit,
            Stage::Refuse { cookie, .. } => ReaderAction::SendSimpleError { cookie: *cookie },
            Stage::Exit { .. } => ReaderAction::Exit,
        }
    }

    fn close(&mut self, result: Result<()>)
        ensures
            final(self)@ == (ReaderView {
                stage: closed(
                    match result {
                        Ok(_) => None,
                        Err(error) => Some(error@),
                    },
                ),
                ..old(self)@
            }),
            final(self).wf(),
    {
        self.stage = Stage::Exit {
            exit: RequestReaderExit { result, reply_drain: ConnectionReplyDrain::DropPending },
        };
    }

    /// Takes in the header of a request.
    pub fn header_read(&mut self, bytes: &Vec<u8>)
        requires
            old(self).wf(),
            old(self)@.stage is Header,
        ensures
            final(self).wf(),
            final(self)@ == (ReaderView { stage: after_header(bytes@), ..old(self)@ }),
    {
        let header = match parse_request_header(bytes) {
            Ok(header) => header,
            Err(error) => {
                self.close(Err(error));
                return ;
            },
        };
        let payload_len: usize = match header.payload_len() {
            Ok(length) => length,
            Err(error) => {
                self.stage = Stage::Refuse { cookie: header.cookie, error };
                return ;
            },
        };
        if header.command == NBD_CMD_DISC {
            self.close(Ok(()));
            return ;
        }
        self.stage = Stage::Reserve { header, payload_len };
    }

    /// The client closed the connection between two requests.
    pub fn end_of_stream(&mut self)
        requires
            old(self).wf(),
            old(self)@.stage is Header,
        ensures
            final(self).wf(),
            final(self)@ == moved(old(self)@, ReaderEvent::EndOfStream),
    {
        self.close(Ok(()));
    }

    /// Bytes could not be read. A slot that is held is given back.
    pub fn read_failed(&mut self, error: ServerError)
        requires
            old(self).wf(),
            old(self)@.stage is Header || old(self)@.stage is Payload,
        ensures
            final(self).wf(),
            final(self)@ == moved(old(self)@, ReaderEvent::ReadFailed { error: error@ }),
    {
        self.close(Err(error));
    }

    /// The server shuts down. A slot that is held is given back.
    pub fn cancelled(&mut self)
        requires
            old(self).wf(),
            old(self)@.stage is Header || old(self)@.stage is Reserve || old(self)@.stage
                is Payload,
        ensures
            final(self).wf(),
            final(self)@ == moved(old(self)@, ReaderEvent::Cancelled),
    {
        self.close(Ok(()));
    }

    /// A slot was reserved.
    pub fn slot_reserved(&mut self)
        requires
            old(self).wf(),
            old(self)@.stage is Reserve,
        ensures
            final(self).wf(),
            final(self)@ == moved(old(self)@, ReaderEvent::SlotReserved),
    {
        match &self.stage {
            Stage::Reserve { header, payload_len } => {
                self.stage = Stage::Payload { header: *header, payload_len: *payload_len };
            },
            _ => {},
        }
    }

    /// No slot can be reserved.
    pub fn reserve_failed(&mut self, error: ServerError)
        requires
            old(self).wf(),
            old(self)@.stage is Reserve,
        ensures
            final(self).wf(),
            final(self)@ == moved(old(self)@, ReaderEvent::ReserveFailed { error: error@ }),
    {
        let cookie: u64 = match &self.stage {
            Stage::Reserve { header, .. } => header.cookie,
            _ => 0,
        };
        self.stage = Stage::Refuse { cookie, error };
    }

    /// Takes in the payload of a request. Gives the request that is handed to the runtime, unless it
    /// is refused.
    pub fn payload_read(&mut self, payload: Vec<u8>) -> (request: Option<DecodedRequest>)
        requires
            old(self).wf(),
            old(self)@.stage is Payload,
            old(self)@.next_sequence < u64::MAX,
        ensures
            final(self).wf(),
            takes_payload(old(self)@, final(self)@, payload@, request),
    {
        let header = match &self.stage {
            Stage::Payload { header, .. } => *header,
            _ => {
                return None;
            },
        };
        let length: usize = payload.len();
        let request = match parse_request(header, payload) {
            Ok(request) => request,
            Err(error) => {
                self.stage = Stage::Refuse { cookie: header.cookie, error };
                return None;
            },
        };
        let (kind, request, offset, counted) = match request {
            TransmissionRequest::Read { offset, length, .. } => (
                ReplyKind::Read,
                ExportRequest::Read { offset, len: length },
                Some(offset),
                Some(length as u64),
            ),
            TransmissionRequest::Write { offset, data, .. } => (
                ReplyKind::Simple,
                ExportRequest::Write { offset, data },
                Some(offset),
                Some(length as u64),
            ),
            TransmissionRequest::Flush { .. } => (
                ReplyKind::Simple,
                ExportRequest::Flush,
                None,
                None,
            ),
            TransmissionRequest::Disconnect { .. } => {
                self.close(Ok(()));
                return None;
            },
        };
        let context = ExportJobContext::new(
            self.connection_id,
            self.sequences.next(),
            RequestCookie::new(header.cookie),
            request.command_name(),
            offset,
            counted,
            kind.as_str(),
        );
        self.stage = Stage::Submit { cookie: header.cookie };
        Some(DecodedRequest { context, request, kind })
    }

    /// The runtime has taken the request, and its slot with it.
    pub fn submitted(&mut self)
        requires
            old(self).wf(),
            old(self)@.stage is Submit,
        ensures
            final(self).wf(),
            final(self)@ == moved(old(self)@, ReaderEvent::Submitted),
    {
        self.stage = Stage::Header;
    }

    /// The runtime has refused the request.
    pub fn submit_failed(&mut self, error: ServerError)
        requires
            old(self).wf(),
            old(self)@.stage is Submit,
        ensures
            final(self).wf(),
            final(self)@ == moved(old(self)@, ReaderEvent::SubmitFailed { error: error@ }),
    {
        let cookie: u64 = match &self.stage {
            Stage::Submit { cookie } => *cookie,
            _ => 0,
        };
        self.stage = Stage::Refuse { cookie, error };
    }

    /// The error was put among the replies, or could not be because they are no longer written.
    pub fn error_sent(&mut self, queued: bool)
        requires
            old(self).wf(),
            old(self)@.stage is Refuse,
        ensures
            final(self).wf(),
            final(self)@ == moved(old(self)@, ReaderEvent::ErrorSent { queued }),
    {
        let mut stage = Stage::Header;
        std::mem::swap(&mut stage, &mut self.stage);
        let error = match stage {
            Stage::Refuse { error, .. } => error,
            _ => ServerError::RuntimeClosed { resource: "connection reply queue" },
        };
        let error = if queued {
            error
        } else {
            ServerError::RuntimeClosed { resource: "connection reply queue" }
        };
        self.stage = Stage::Exit {
            exit: RequestReaderExit {
                result: Err(error),
                reply_drain: ConnectionReplyDrain::DrainQueued,
            },
        };
    }

    /// How the reader ended.
    pub fn finish(self) -> (exit: RequestReaderExit)
        requires
            self@.stage is Exit,
        ensures
            exit@ == self@.stage->exit,
    {
        match self.stage {
            Stage::Exit { exit } => exit,
            _ => RequestReaderExit {
                result: Ok(()),
                reply_drain: ConnectionReplyDrain::DropPending,
            },
        }
    }
}

/// The payload of a request is read only once a slot is held, and a reader that has ended holds
/// none.
pub proof fn law_slot_before_payload(header: RequestHeader, bytes: Seq<u8>, payload: Seq<u8>)
    ensures
        !(after_header(bytes) is Payload),
        !holds_slot(after_header(bytes)),
        holds_slot(after_payload(header, payload)) <==> after_payload(header, payload) is Submit,
{
}

/// A header is followed by what it says: one that is none ends the connection with an error, a
/// disconnect ends it without, a write of more than the most that is taken is refused with its own
/// cookie, and any other waits for a slot, with as many bytes to come as a write says and none for
/// the rest.
pub proof fn law_header_is_followed_as_it_says(bytes: Seq<u8>)
    ensures
        ({
            let known = bytes.len() == 28 && number_of(bytes.subrange(0, 4)) == 0x25609513;
            let command = number_of(bytes.subrange(6, 8));
            let cookie = number_of(bytes.subrange(8, 16));
            let length = number_of(bytes.subrange(24, 28));
            match after_header(bytes) {
                ReaderStage::Reserve { header, payload_len } => {
                    &&& known
                    &&& command != 2
                    &&& header.flags == number_of(bytes.subrange(4, 6))
                    &&& header.command == command
                    &&& header.cookie == cookie
                    &&& header.offset == number_of(bytes.subrange(16, 24))
                    &&& header.length == length
                    &&& payload_len == (if command == 1 {
                        length as int
                    } else {
                        0
                    })
                    &&& payload_len <= 33554432
                },
                ReaderStage::Refuse { cookie: answered, error } => {
                    &&& known
                    &&& command == 1
                    &&& length > 33554432
                    &&& answered == cookie
                    &&& error is Protocol
                },
                ReaderStage::Exit { exit } => {
                    &&& exit.drain == ConnectionReplyDrain::DropPending
                    &&& exit.error is None <==> known && command == 2
                    &&& exit.error matches Some(error) ==> !known && error is Protocol
                },
                _ => false,
            }
        }),
{
    if bytes.len() == 28 {
        reveal_with_fuel(span_of, 9);
        lemma_number_bound(bytes.subrange(4, 6));
        lemma_number_bound(bytes.subrange(6, 8));
        lemma_number_bound(bytes.subrange(8, 16));
        lemma_number_bound(bytes.subrange(16, 24));
        lemma_number_bound(bytes.subrange(24, 28));
    }
}

/// A request is submitted exactly when it has no flags, reads or writes no more than the most that
/// is taken or flushes, and comes with the bytes of a write and no others. Any other is answered
/// with its own cookie before the connection ends, but for a proper disconnect, which just ends it.
pub proof fn law_request_is_submitted_or_answered(header: RequestHeader, payload: Seq<u8>)
    ensures
        ({
            let proper = header.flags == 0 && header.command <= 3 && (header.command <= 1
                ==> header.length <= 33554432) && payload.len() == (if header.command == 1 {
                header.length as nat
            } else {
                0
            });
            match after_payload(header, payload) {
                ReaderStage::Submit { cookie } => {
                    proper && header.command != 2 && cookie == header.cookie
                },
                ReaderStage::Refuse { cookie, error } => {
                    !proper && cookie == header.cookie && error is Protocol
                },
                ReaderStage::Exit { exit } => {
                    proper && header.command == 2 && exit.error is None
                },
                _ => false,
            }
        }),
{
}

/// What was understood of a request that is submitted is what its header says: the command and the
/// bytes it is for, under its own cookie, with the reply that its result needs.
pub proof fn law_submitted_request_is_what_was_asked(
    request: DecodedRequest,
    header: RequestHeader,
    payload: Seq<u8>,
    connection: ConnectionId,
    sequence: int,
)
    requires
        after_payload(header, payload) is Submit,
        decoded(request, header, payload, connection, sequence),
    ensures
        request.context@.cookie.number() == header.cookie,
        request.context@.connection_id == connection,
        request.context@.request_sequence.number() == sequence,
        match request.request {
            ExportRequest::Read { offset, len } => {
                &&& header.command == 0
                &&& offset == header.offset
                &&& len == header.length
                &&& request.kind == ReplyKind::Read
                &&& request.context@.offset == Some(offset)
                &&& request.context@.length == Some(len as u64)
            },
            ExportRequest::Write { offset, data } => {
                &&& header.command == 1
                &&& offset == header.offset
                &&& data@ == payload
                &&& data@.len() == header.length
                &&& request.kind == ReplyKind::Simple
                &&& request.context@.offset == Some(offset)
                &&& request.context@.length == Some(header.length as u64)
            },
            ExportRequest::Flush => {
                &&& header.command == 3
                &&& request.kind == ReplyKind::Simple
                &&& request.context@.offset is None
                &&& request.context@.length is None
            },
        },
{
}

/// A refused request leaves the replies that are queued to be written, with its error as the end of
/// the connection; an end for any other reason drops them.
pub proof fn law_refusal_lets_the_replies_out(error: ErrorView, other: Option<ErrorView>)
    ensures
        drained(error) matches ReaderStage::Exit { exit } && exit.error == Some(error) && exit.drain
            == ConnectionReplyDrain::DrainQueued,
        closed(other) matches ReaderStage::Exit { exit } && exit.error == other && exit.drain
            == ConnectionReplyDrain::DropPending,
{
}

/// From the wire to the wire: a request that is submitted and run on an export in memory is
/// answered with its own cookie, with error number zero exactly when it succeeded, and a read that
/// lies in the export with the bytes of the export.
pub proof fn law_memory_request_is_answered_with_its_bytes(
    request: DecodedRequest,
    header: RequestHeader,
    payload: Seq<u8>,
    connection: ConnectionId,
    sequence: int,
    before: Seq<u8>,
    after: Seq<u8>,
    result: ExportResult,
)
    requires
        after_payload(header, payload) is Submit,
        decoded(request, header, payload, connection, sequence),
        executes(before, after, request.request, result),
    ensures
        ({
            let inside = header.command == 3 || header.offset + header.length <= before.len();
            let bytes = answer(
                ReplyView::Export { job: request.context@, kind: request.kind, result },
            ).0;
            &&& number_of(bytes.subrange(4, 8)) == (if inside {
                0nat
            } else {
                22
            })
            &&& number_of(bytes.subrange(8, 16)) == header.cookie
            &&& bytes.skip(16) == (if inside && header.command == 0 {
                before.subrange(header.offset as int, header.offset + header.length)
            } else {
                Seq::empty()
            })
        }),
{
    let view = ReplyView::Export { job: request.context@, kind: request.kind, result };
    law_submitted_request_is_what_was_asked(request, header, payload, connection, sequence);
    law_memory_refuses_only_what_lies_outside(before, after, request.request, result);
    law_only_success_is_answered_with_zero(view);
    law_reply_carries_the_cookie(view);
    reveal_with_fuel(span_of, 9);
    law_number_round_trip(header.cookie as nat, 8);
}

/// A request comes of a payload exactly when it is to be submitted, and then it has the next number
/// of its connection; one that is refused uses up none.
pub proof fn law_submitted_requests_are_numbered_in_turn(
    before: ReaderView,
    after: ReaderView,
    payload: Seq<u8>,
    request: Option<DecodedRequest>,
)
    requires
        before.stage is Payload,
        takes_payload(before, after, payload, request),
    ensures
        request is Some <==> after.stage is Submit,
        after.stage == after_payload(before.stage->Payload_header, payload),
        request matches Some(request) ==> {
            &&& request.context@.request_sequence.number() == before.next_sequence
            &&& request.context@.connection_id == before.connection
            &&& request.context@.cookie.number() == before.stage->Payload_header.cookie
        },
        after.next_sequence == before.next_sequence + (if request is Some {
            1int
        } else {
            0int
        }),
        after.connection == before.connection,
{
}

/// An event moves a reader on and keeps its connection and its count of requests: a reserved slot
/// lets the payload of the same request be read, a request that was taken is followed by the next
/// header, and one that the export does not take is answered under its own cookie.
pub proof fn law_an_event_is_for_the_request_at_hand(
    view: ReaderView,
    header: RequestHeader,
    payload_len: int,
    cookie: u64,
    error: ErrorView,
    event: ReaderEvent,
)
    ensures
        moved(view, event).connection == view.connection,
        moved(view, event).next_sequence == view.next_sequence,
        view.stage == (ReaderStage::Reserve { header, payload_len }) ==> {
            &&& moved(view, ReaderEvent::SlotReserved).stage == (ReaderStage::Payload {
                header,
                payload_len,
            })
            &&& moved(view, ReaderEvent::ReserveFailed { error }).stage == (ReaderStage::Refuse {
                cookie: header.cookie,
                error,
            })
        },
        view.stage == (ReaderStage::Submit { cookie }) ==> {
            &&& moved(view, ReaderEvent::Submitted).stage is Header
            &&& moved(view, ReaderEvent::SubmitFailed { error }).stage == (ReaderStage::Refuse {
                cookie,
                error,
            })
        },
{
}

/// A reader that is told that nothing more comes ends: without an error when the client or the
/// server is done, with the error when the bytes or the request failed. The replies that wait are
/// written only after a refusal.
pub proof fn law_a_reader_ends_with_what_went_wrong(
    view: ReaderView,
    cookie: u64,
    error: ErrorView,
    queued: bool,
)
    ensures
        ({
            let end = moved(view, ReaderEvent::EndOfStream).stage;
            let stop = moved(view, ReaderEvent::Cancelled).stage;
            let failure = moved(view, ReaderEvent::ReadFailed { error }).stage;
            &&& end is Exit && end->exit.error is None && end->exit.drain
                == ConnectionReplyDrain::DropPending
            &&& stop is Exit && stop->exit.error is None && stop->exit.drain
                == ConnectionReplyDrain::DropPending
            &&& failure is Exit && failure->exit.error == Some(error) && failure->exit.drain
                == ConnectionReplyDrain::DropPending
        }),
        view.stage == (ReaderStage::Refuse { cookie, error }) ==> {
            let answered = moved(view, ReaderEvent::ErrorSent { queued }).stage;
            &&& answered is Exit
            &&& answered->exit.drain == ConnectionReplyDrain::DrainQueued
            &&& answered->exit.error is Some
            &&& queued ==> answered->exit.error == Some(error)
            &&& !queued ==> answered->exit.error->0 is RuntimeClosed
        },
{
}

} // verus!
