//! Replies to a client.

use crate::error::{ErrorView, Result, ServerError};
use crate::export::{ExportJobContext, ExportReply, ExportResult, JobView};
use crate::protocol::{encode_read_reply, encode_simple_reply, simple_reply, NBD_EINVAL};
use crate::runtime::ExportQueueSlot;
use crate::transmission::{ConnectionReplyDrain, RequestReaderExit};
use crate::wire::{big_endian, law_number_round_trip, lemma_big_endian_len, number_of, span_of};
use vstd::prelude::*;

verus! {

/// What a request is replied with when it went well: data, or nothing but that.
#[derive(Debug, Clone, Copy, PartialEq, Eq, Structural)]
pub enum ReplyKind {
    Read,
    Simple,
}

impl ReplyKind {
    /// The word for the kind.
    pub open spec fn word(self) -> Seq<char> {
        match self {
            ReplyKind::Read => "read"@,
            ReplyKind::Simple => "simple"@,
        }
    }

    pub fn as_str(self) -> (text: &'static str)
        ensures
            text@ == self.word(),
    {
        match self {
            ReplyKind::Read => "read",
            ReplyKind::Simple => "simple",
        }
    }
}

#[derive(Debug)]
enum ConnectionReplyPayload {
    Export {
        context: ExportJobContext,
        kind: ReplyKind,
        result: ExportResult,
        queue_slot: ExportQueueSlot,
    },
    SimpleError { error: u32 },
}

/// A reply that waits to be written. That of an export holds the slot of its request until then.
#[derive(Debug)]
pub struct ConnectionReply {
    cookie: u64,
    payload: ConnectionReplyPayload,
}

/// What a reply says.
pub enum ReplyView {
    Export { job: JobView, kind: ReplyKind, result: ExportResult },
    SimpleError { cookie: int, error: u32 },
}

/// The bytes of a reply, and what to say of it.
#[derive(Debug)]
pub struct ReplyBytes {
    pub bytes: Vec<u8>,
    /// What fails if the bytes cannot be written.
    pub context: &'static str,
    pub status: &'static str,
}

impl View for ConnectionReply {
    type V = ReplyView;

    closed spec fn view(&self) -> ReplyView {
        match self.payload {
            ConnectionReplyPayload::Export { context, kind, result, .. } => ReplyView::Export {
                job: context@,
                kind,
                result,
            },
            ConnectionReplyPayload::SimpleError { error } => ReplyView::SimpleError {
                cookie: self.cookie as int,
                error,
            },
        }
    }
}

/// How a request is answered: with its data or with success where its result is of its kind, and
/// with an error otherwise.
pub open spec fn answer(view: ReplyView) -> (Seq<u8>, Seq<char>, Seq<char>) {
    match view {
        ReplyView::Export { job, kind, result } => {
            let cookie = job.cookie.number() as nat;
            match (kind, result) {
                (ReplyKind::Read, Ok(ExportReply::Read { data })) => (
                    simple_reply(cookie, 0) + data@,
                    "write NBD read reply"@,
                    "ok"@,
                ),
                (ReplyKind::Simple, Ok(ExportReply::Done)) => (
                    simple_reply(cookie, 0),
                    "write NBD simple reply"@,
                    "ok"@,
                ),
                _ => (
                    simple_reply(cookie, NBD_EINVAL as nat),
                    "write NBD error reply"@,
                    "error"@,
                ),
            }
        },
        ReplyView::SimpleError { cookie, error } => (
            simple_reply(cookie as nat, error as nat),
            "write NBD error reply"@,
            "error"@,
        ),
    }
}

impl ConnectionReply {
    /// The reply carries the cookie of its request.
    pub closed spec fn wf(&self) -> bool {
        self.payload matches ConnectionReplyPayload::Export { context, .. } ==> self.cookie
            == context@.cookie.number()
    }

    /// The slot that the reply holds.
    pub closed spec fn slot(&self) -> Option<ExportQueueSlot> {
        match self.payload {
            ConnectionReplyPayload::Export { queue_slot, .. } => Some(queue_slot),
            ConnectionReplyPayload::SimpleError { .. } => None,
        }
    }

    /// The reply to a request that was executed.
    pub fn export_result(
        context: ExportJobContext,
        kind: ReplyKind,
        result: ExportResult,
        queue_slot: ExportQueueSlot,
    ) -> (reply: Self)
        ensures
            reply.wf(),
            reply@ == (ReplyView::Export { job: context@, kind, result }),
            reply.slot() == Some(queue_slot),
    {
        let cookie: u64 = context.cookie().raw();
        Self {
            cookie,
            payload: ConnectionReplyPayload::Export { context, kind, result, queue_slot },
        }
    }

    /// The reply to a request that was refused.
    pub fn simple_error(cookie: u64, error: u32) -> (reply: Self)
        ensures
            reply.wf(),
            reply@ == (ReplyView::SimpleError { cookie: cookie as int, error }),
            reply.slot() is None,
    {
        Self { cookie, payload: ConnectionReplyPayload::SimpleError { error } }
    }

    /// The reply to a request that the server does not take.
    pub fn invalid(cookie: u64) -> (reply: Self)
        ensures
            reply.wf(),
            reply@ == (ReplyView::SimpleError { cookie: cookie as int, error: NBD_EINVAL }),
            reply.slot() is None,
    {
        Self::simple_error(cookie, NBD_EINVAL)
    }

    /// What is known of the request, unless it was refused before it was numbered.
    pub fn context(&self) -> (context: Option<&ExportJobContext>)
        ensures
            match self@ {
                ReplyView::Export { job, .. } => context matches Some(context) && context@ == job,
                ReplyView::SimpleError { .. } => context is None,
            },
    {
        match &self.payload {
            ConnectionReplyPayload::Export { context, .. } => Some(context),
            ConnectionReplyPayload::SimpleError { .. } => None,
        }
    }

    /// The bytes that are written.
    pub fn encode(&self) -> (reply: ReplyBytes)
        requires
            self.wf(),
        ensures
            (reply.bytes@, reply.context@, reply.status@) == answer(self@),
    {
        match &self.payload {
            ConnectionReplyPayload::Export { kind, result, .. } => match (*kind, result) {
                (ReplyKind::Read, Ok(ExportReply::Read { data })) => ReplyBytes {
                    bytes: encode_read_reply(self.cookie, data),
                    context: "write NBD read reply",
                    status: "ok",
                },
                (ReplyKind::Simple, Ok(ExportReply::Done)) => ReplyBytes {
                    bytes: encode_simple_reply(self.cookie, 0),
                    context: "write NBD simple reply",
                    status: "ok",
                },
                _ => ReplyBytes {
                    bytes: encode_simple_reply(self.cookie, NBD_EINVAL),
                    context: "write NBD error reply",
                    status: "error",
                },
            },
            ConnectionReplyPayload::SimpleError { error } => ReplyBytes {
                bytes: encode_simple_reply(self.cookie, *error),
                context: "write NBD error reply",
                status: "error",
            },
        }
    }

    /// The reply was written or dropped: the slot that it held is given back.
    pub fn into_slot(self) -> (slot: Option<ExportQueueSlot>)
        ensures
            slot == self.slot(),
    {
        match self.payload {
            ConnectionReplyPayload::Export { queue_slot, .. } => Some(queue_slot),
            ConnectionReplyPayload::SimpleError { .. } => None,
        }
    }
}

/// Whatever became of a request, it is answered with its own cookie.
pub proof fn law_reply_carries_the_cookie(view: ReplyView)
    requires
        view matches ReplyView::SimpleError { cookie, .. } ==> 0 <= cookie,
        view matches ReplyView::Export { job, .. } ==> 0 <= job.cookie.number(),
    ensures
        ({
            let cookie = match view {
                ReplyView::Export { job, .. } => job.cookie.number(),
                ReplyView::SimpleError { cookie, .. } => cookie,
            };
            answer(view).0.subrange(8, 16) == crate::wire::big_endian(cookie as nat, 8)
        }),
{
    let cookie = match view {
        ReplyView::Export { job, .. } => job.cookie.number(),
        ReplyView::SimpleError { cookie, .. } => cookie,
    };
    let magic = crate::protocol::NBD_SIMPLE_REPLY_MAGIC as nat;
    crate::wire::lemma_big_endian_len(magic, 4);
    crate::wire::lemma_big_endian_len(0, 4);
    crate::wire::lemma_big_endian_len(NBD_EINVAL as nat, 4);
    crate::wire::lemma_big_endian_len(cookie as nat, 8);
    match view {
        ReplyView::SimpleError { error, .. } => {
            crate::wire::lemma_big_endian_len(error as nat, 4);
        },
        _ => {},
    }
    assert(answer(view).0.subrange(8, 16) =~= crate::wire::big_endian(cookie as nat, 8));
}

/// How the task of a reader or a writer ended.
#[derive(Debug)]
pub enum TaskEnd<T> {
    Finished(T),
    /// The task itself failed.
    Lost,
}

/// What is done about the writer once the reader has ended.
#[derive(Debug)]
pub enum WriterStep {
    /// The writer is stopped, and the connection ends with this result.
    Abort(Result<()>),
    /// The writer writes what is queued, and then the connection ends with this result if it can.
    Drain(Result<()>),
}

/// What is decided about the writer once the reader has ended.
pub open spec fn decides_on_the_writer(end: TaskEnd<RequestReaderExit>, step: WriterStep) -> bool {
    match end {
        TaskEnd::Lost => step matches WriterStep::Abort(Err(error)) && error@ == (
        ErrorView::RuntimeClosed { resource: "connection request reader"@ }),
        TaskEnd::Finished(exit) => if exit.reply_drain == ConnectionReplyDrain::DrainQueued {
            step == WriterStep::Drain(exit.result)
        } else {
            step == WriterStep::Abort(exit.result)
        },
    }
}

/// Decides about the writer once the reader has ended.
pub fn reader_ended(end: TaskEnd<RequestReaderExit>) -> (step: WriterStep)
    ensures
        decides_on_the_writer(end, step),
{
    match end {
        TaskEnd::Lost => WriterStep::Abort(
            Err(ServerError::RuntimeClosed { resource: "connection request reader" }),
        ),
        TaskEnd::Finished(exit) => match exit.reply_drain {
            ConnectionReplyDrain::DrainQueued => WriterStep::Drain(exit.result),
            ConnectionReplyDrain::DropPending => WriterStep::Abort(exit.result),
        },
    }
}

/// How a connection ends whose writer has drained.
pub open spec fn ends_drained(
    end: TaskEnd<Result<()>>,
    reader: Result<()>,
    result: Result<()>,
) -> bool {
    match end {
        TaskEnd::Finished(Ok(_)) => result == reader,
        TaskEnd::Finished(Err(error)) => result == Err::<(), ServerError>(error),
        TaskEnd::Lost => result matches Err(error) && error@ == (ErrorView::RuntimeClosed {
            resource: "connection reply writer"@,
        }),
    }
}

/// How a connection ends whose writer has drained: the writer's failure comes before the reader's.
pub fn writer_drained(end: TaskEnd<Result<()>>, reader: Result<()>) -> (result: Result<()>)
    ensures
        ends_drained(end, reader, result),
{
    match end {
        TaskEnd::Finished(Ok(_)) => reader,
        TaskEnd::Finished(Err(error)) => Err(error),
        TaskEnd::Lost => Err(ServerError::RuntimeClosed { resource: "connection reply writer" }),
    }
}

/// How the writer of a connection ended, from how its task did.
pub open spec fn ends_as(
    end: TaskEnd<Result<()>>,
    result: Result<()>,
) -> bool {
    match end {
        TaskEnd::Finished(ended) => result == ended,
        TaskEnd::Lost => result matches Err(error) && error@ == (ErrorView::RuntimeClosed {
            resource: "connection reply writer"@,
        }),
    }
}

/// How a connection ends whose writer has ended first.
pub fn writer_ended(end: TaskEnd<Result<()>>) -> (result: Result<()>)
    ensures
        ends_as(end, result),
{
    match end {
        TaskEnd::Finished(result) => result,
        TaskEnd::Lost => Err(ServerError::RuntimeClosed { resource: "connection reply writer" }),
    }
}

/// How serving a client ended, from how the connection and its close did.
pub open spec fn served_as(
    connection: Result<()>,
    close: Result<()>,
    result: Result<()>,
) -> bool {
    match connection {
        Err(error) => result == Err::<(), ServerError>(error),
        Ok(_) => result == close,
    }
}

/// How serving a connection ends: with the failure of the connection, or else with that of closing
/// the export.
pub fn served(connection: Result<()>, close: Result<()>) -> (result: Result<()>)
    ensures
        served_as(connection, close, result),
{
    match connection {
        Err(error) => Err(error),
        Ok(_) => close,
    }
}

/// The bytes of every answer begin with the reply magic, the error number and the cookie, and only
/// a read that went well has bytes behind them: its data. The error number is zero exactly where
/// the request went well with a result of its kind, and is that of an invalid request for every
/// other result; a refused request is answered with the number that it was refused with.
pub proof fn law_only_success_is_answered_with_zero(view: ReplyView)
    ensures
        ({
            let bytes = answer(view).0;
            let number = number_of(bytes.subrange(4, 8));
            &&& bytes.len() >= 16
            &&& number_of(bytes.subrange(0, 4)) == 0x67446698
            &&& match view {
                ReplyView::Export { kind, result, .. } => {
                    let well = match result {
                        Ok(ExportReply::Read { .. }) => kind == ReplyKind::Read,
                        Ok(ExportReply::Done) => kind == ReplyKind::Simple,
                        Err(_) => false,
                    };
                    &&& number == 0 <==> well
                    &&& !well ==> number == 22
                    &&& answer(view).2 == (if well {
                        "ok"@
                    } else {
                        "error"@
                    })
                    &&& bytes.skip(16) == match result {
                        Ok(ExportReply::Read { data }) if kind == ReplyKind::Read => data@,
                        _ => Seq::empty(),
                    }
                },
                ReplyView::SimpleError { error, .. } => {
                    &&& number == error
                    &&& bytes.len() == 16
                    &&& answer(view).2 == "error"@
                },
            }
        }),
{
    let bytes = answer(view).0;
    let magic = crate::protocol::NBD_SIMPLE_REPLY_MAGIC as nat;
    let cookie = match view {
        ReplyView::Export { job, .. } => job.cookie.number() as nat,
        ReplyView::SimpleError { cookie, .. } => cookie as nat,
    };
    let error = match view {
        ReplyView::Export { kind, result, .. } => match (kind, result) {
            (ReplyKind::Read, Ok(ExportReply::Read { .. })) => 0nat,
            (ReplyKind::Simple, Ok(ExportReply::Done)) => 0nat,
            _ => NBD_EINVAL as nat,
        },
        ReplyView::SimpleError { error, .. } => error as nat,
    };
    reveal_with_fuel(span_of, 5);
    lemma_big_endian_len(magic, 4);
    lemma_big_endian_len(error, 4);
    lemma_big_endian_len(cookie, 8);
    law_number_round_trip(magic, 4);
    law_number_round_trip(error, 4);
    assert(bytes.subrange(0, 4) =~= big_endian(magic, 4));
    assert(bytes.subrange(4, 8) =~= big_endian(error, 4));
    match view {
        ReplyView::Export { kind: ReplyKind::Read, result: Ok(ExportReply::Read { data }), .. } => {
            assert(bytes.skip(16) =~= data@);
        },
        _ => {
            assert(bytes.skip(16) =~= Seq::empty());
        },
    }
}

/// The replies that are queued are still written exactly when the reader has ended to have them
/// written, and the connection ends with what the reader ended with, or with an error where the
/// reader was lost.
pub proof fn law_queued_replies_are_written_when_the_reader_says_so(
    end: TaskEnd<RequestReaderExit>,
    step: WriterStep,
)
    requires
        decides_on_the_writer(end, step),
    ensures
        step is Drain <==> (end matches TaskEnd::Finished(exit) && exit.reply_drain
            == ConnectionReplyDrain::DrainQueued),
        end is Lost ==> (step matches WriterStep::Abort(result) && result is Err),
        end matches TaskEnd::Finished(exit) ==> match step {
            WriterStep::Abort(result) => result == exit.result,
            WriterStep::Drain(result) => result == exit.result,
        },
{
}

/// A connection whose replies were written ends as its reader did, and one whose replies could not
/// be written ends with an error.
pub proof fn law_an_unwritten_reply_is_an_error(
    end: TaskEnd<Result<()>>,
    reader: Result<()>,
    result: Result<()>,
)
    requires
        ends_drained(end, reader, result),
    ensures
        result is Ok <==> (end matches TaskEnd::Finished(written) && written is Ok) && reader is Ok,
        end matches TaskEnd::Finished(written) ==> (if written is Ok {
            result == reader
        } else {
            result == written
        }),
{
}

/// A writer did well only where its task came to an end and said so.
pub proof fn law_a_lost_writer_is_an_error(end: TaskEnd<Result<()>>, result: Result<()>)
    requires
        ends_as(end, result),
    ensures
        result is Ok <==> (end matches TaskEnd::Finished(ended) && ended is Ok),
        end matches TaskEnd::Finished(ended) ==> result == ended,
{
}

/// A client was served well only where both its connection and the close went well, and the error
/// that came first is the one that is reported.
pub proof fn law_the_first_error_is_reported(
    connection: Result<()>,
    close: Result<()>,
    result: Result<()>,
)
    requires
        served_as(connection, close, result),
    ensures
        result is Ok <==> connection is Ok && close is Ok,
        connection is Err ==> result == connection,
        connection is Ok && close is Err ==> result == close,
{
}

} // verus!
