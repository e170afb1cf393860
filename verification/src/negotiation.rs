//! The options phase of a connection: until the client has chosen an export, or goes.

use crate::catalog::ExportName;
use crate::error::{error_text, ErrorView, ProtocolErrorView, ServerError};
use crate::protocol::{
    encode_ack_reply, encode_export_info_reply, encode_option_reply, export_info, go_error, go_name,
    law_export_info_layout, law_option_reply_layout, option_header_error, option_reply, parse_option_request, parse_option_request_header,
    OptionRequest, OptionRequestHeader, MAX_OPTION_PAYLOAD_BYTES, NBD_OPT_ABORT, NBD_OPT_GO,
    NBD_REP_ACK, NBD_REP_ERR_POLICY, NBD_REP_ERR_UNKNOWN, NBD_REP_ERR_UNSUP, NBD_REP_INFO,
    OPTION_REQUEST_HEADER_BYTES,
};
use crate::wire::{lemma_number_bound, number_of, span_of};
use vstd::prelude::*;
use vstd::string::*;
use vstd::utf8::*;

verus! {

/// What exports can do: they have flags, and can be flushed.
pub const SUPPORTED_TRANSMISSION_FLAGS: u16 = 5;

/// What comes after bytes were written.
#[derive(Debug)]
enum AfterWrite {
    /// The next option.
    NextOption,
    /// The end, without an export.
    Leave,
    /// The acknowledgement that an export is served.
    Acknowledge { name: ExportName },
    /// The export is served.
    Serve { name: ExportName },
}

/// What comes after bytes were written.
pub enum AfterWriteView {
    NextOption,
    Leave,
    Acknowledge { name: Seq<char> },
    Serve { name: Seq<char> },
}

#[derive(Debug)]
enum Stage {
    Header,
    Payload { header: OptionRequestHeader },
    Open { name: ExportName },
    Write { bytes: Vec<u8>, context: &'static str, after: AfterWrite },
    Ended { end: NegotiationEnd, close: Option<ExportName> },
}

/// How a negotiation ended.
#[derive(Debug)]
pub enum NegotiationEnd {
    /// An export is served.
    Serve { name: ExportName },
    /// The client goes, or the server shuts down.
    NoExport,
    Failed { error: ServerError },
}

/// How a negotiation ended.
pub enum EndView {
    Serve { name: Seq<char> },
    NoExport,
    Failed { error: ErrorView },
}

impl View for NegotiationEnd {
    type V = EndView;

    open spec fn view(&self) -> EndView {
        match self {
            NegotiationEnd::Serve { name } => EndView::Serve { name: name@ },
            NegotiationEnd::NoExport => EndView::NoExport,
            NegotiationEnd::Failed { error } => EndView::Failed { error: error@ },
        }
    }
}

/// What a negotiation does next.
pub enum StageView {
    /// The header of an option is read.
    Header,
    /// The payload of an option is read.
    Payload { header: OptionRequestHeader },
    /// An export is opened.
    Open { name: Seq<char> },
    /// Bytes are written.
    Write { bytes: Seq<u8>, context: Seq<char>, after: AfterWriteView },
    /// Nothing: it has ended. An export that was opened and is not served has to be closed.
    Ended { end: EndView, close: Option<Seq<char>> },
}

/// The options phase of a connection.
#[derive(Debug)]
pub struct Negotiation {
    stage: Stage,
}

spec fn after_view(after: AfterWrite) -> AfterWriteView {
    match after {
        AfterWrite::NextOption => AfterWriteView::NextOption,
        AfterWrite::Leave => AfterWriteView::Leave,
        AfterWrite::Acknowledge { name } => AfterWriteView::Acknowledge { name: name@ },
        AfterWrite::Serve { name } => AfterWriteView::Serve { name: name@ },
    }
}

/// The text of an optional name.
pub open spec fn name_text(name: Option<ExportName>) -> Option<Seq<char>> {
    match name {
        Some(name) => Some(name@),
        None => None,
    }
}

impl View for Negotiation {
    type V = StageView;

    closed spec fn view(&self) -> StageView {
        match self.stage {
            Stage::Header => StageView::Header,
            Stage::Payload { header } => StageView::Payload { header },
            Stage::Open { name } => StageView::Open { name: name@ },
            Stage::Write { bytes, context, after } => StageView::Write {
                bytes: bytes@,
                context: context@,
                after: after_view(after),
            },
            Stage::Ended { end, close } => StageView::Ended { end: end@, close: name_text(close) },
        }
    }
}

/// What the server has to do for a negotiation.
#[derive(Debug)]
pub enum NegotiationAction {
    Read { length: usize, context: &'static str },
    Open { name: ExportName },
    Write { bytes: Vec<u8>, context: &'static str },
    End { close: Option<ExportName> },
}

/// A negotiation that failed before an export was opened.
pub open spec fn failed(error: ErrorView) -> StageView {
    StageView::Ended { end: EndView::Failed { error }, close: None }
}

/// A negotiation that was left.
pub open spec fn left() -> StageView {
    StageView::Ended { end: EndView::NoExport, close: None }
}

/// What follows the header of an option.
pub open spec fn after_header(bytes: Seq<u8>) -> StageView {
    match option_header_error(bytes) {
        Some(source) => failed(ErrorView::Protocol { source }),
        None => {
            let header = OptionRequestHeader {
                code: number_of(bytes.subrange(8, 12)) as u32,
                length: number_of(bytes.subrange(12, 16)) as u32,
            };
            if header.length > MAX_OPTION_PAYLOAD_BYTES {
                failed(
                    ErrorView::Protocol {
                        source: ProtocolErrorView::PayloadTooLarge {
                            context: "option request"@,
                            length: header.length as u64,
                            max: MAX_OPTION_PAYLOAD_BYTES as u64,
                        },
                    },
                )
            } else {
                StageView::Payload { header }
            }
        },
    }
}

/// What follows an option: an export is opened, or the option is acknowledged and the client goes,
/// or it is refused and the next one follows.
pub open spec fn after_payload(header: OptionRequestHeader, payload: Seq<u8>) -> StageView {
    if payload.len() != header.length {
        failed(
            ErrorView::Protocol {
                source: ProtocolErrorView::InvalidLength {
                    context: "option request"@,
                    expected: header.length as u64,
                    actual: payload.len() as u64,
                },
            },
        )
    } else if header.code == NBD_OPT_GO {
        match go_error(payload) {
            Some(source) => failed(ErrorView::Protocol { source }),
            None => StageView::Open { name: decode_utf8(go_name(payload)) },
        }
    } else if header.code == NBD_OPT_ABORT {
        StageView::Write {
            bytes: option_reply(NBD_OPT_ABORT as nat, NBD_REP_ACK as nat, Seq::empty()),
            context: "write NBD_OPT_ABORT ack"@,
            after: AfterWriteView::Leave,
        }
    } else {
        StageView::Write {
            bytes: option_reply(
                header.code as nat,
                NBD_REP_ERR_UNSUP as nat,
                unsupported_option(),
            ),
            context: "write unsupported option"@,
            after: AfterWriteView::NextOption,
        }
    }
}

/// What the refusal of an option says.
pub open spec fn unsupported_option() -> Seq<u8> {
    seq![
        117u8, 110, 115, 117, 112, 112, 111, 114, 116, 101, 100, 32, 111, 112, 116, 105, 111, 110,
    ]
}

/// The kind of the refusal to serve an export: by policy where the export is busy or too large.
pub open spec fn refusal_kind(error: ErrorView) -> u32 {
    if error is ExportBusy || error is ExportTooLarge {
        NBD_REP_ERR_POLICY
    } else {
        NBD_REP_ERR_UNKNOWN
    }
}

/// What follows an export that could not be opened: the client is told why, and goes.
pub open spec fn after_refusal(error: ErrorView) -> StageView {
    let message = encode_utf8(error_text(error));
    if message.len() > u32::MAX {
        failed(
            ErrorView::Protocol {
                source: ProtocolErrorView::PayloadTooLarge {
                    context: "option reply"@,
                    length: message.len() as u64,
                    max: u32::MAX as u64,
                },
            },
        )
    } else {
        StageView::Write {
            bytes: option_reply(NBD_OPT_GO as nat, refusal_kind(error) as nat, message),
            context: "write NBD_OPT_GO error"@,
            after: AfterWriteView::Leave,
        }
    }
}

/// What follows an export that was opened: the client is told of it.
pub open spec fn after_open(name: Seq<char>, size_bytes: nat) -> StageView {
    StageView::Write {
        bytes: option_reply(
            NBD_OPT_GO as nat,
            NBD_REP_INFO as nat,
            export_info(size_bytes, SUPPORTED_TRANSMISSION_FLAGS as nat),
        ),
        context: "write NBD export info"@,
        after: AfterWriteView::Acknowledge { name },
    }
}

/// What follows bytes that were written.
pub open spec fn after_write(after: AfterWriteView) -> StageView {
    match after {
        AfterWriteView::NextOption => StageView::Header,
        AfterWriteView::Leave => left(),
        AfterWriteView::Acknowledge { name } => StageView::Write {
            bytes: option_reply(NBD_OPT_GO as nat, NBD_REP_ACK as nat, Seq::empty()),
            context: "write NBD_OPT_GO ack"@,
            after: AfterWriteView::Serve { name },
        },
        AfterWriteView::Serve { name } => StageView::Ended {
            end: EndView::Serve { name },
            close: None,
        },
    }
}

/// The export that is open while bytes are written.
pub open spec fn open_meanwhile(after: AfterWriteView) -> Option<Seq<char>> {
    match after {
        AfterWriteView::Acknowledge { name } => Some(name),
        AfterWriteView::Serve { name } => Some(name),
        _ => None,
    }
}

/// The export that is open in a stage.
pub open spec fn open_in(stage: StageView) -> Option<Seq<char>> {
    match stage {
        StageView::Write { after, .. } => open_meanwhile(after),
        _ => None,
    }
}

/// A negotiation that ends where it is: an export that is open by then has to be closed.
pub open spec fn interrupted(stage: StageView, end: EndView) -> StageView {
    StageView::Ended { end, close: open_in(stage) }
}

impl Negotiation {
    pub fn new() -> (negotiation: Self)
        ensures
            negotiation@ is Header,
    {
        Self { stage: Stage::Header }
    }

    /// What the server has to do next.
    pub fn action(&self) -> (action: NegotiationAction)
        ensures
            match self@ {
                StageView::Header => action matches NegotiationAction::Read { length, context }
                    && length == OPTION_REQUEST_HEADER_BYTES && context@
                    == "read NBD option request header"@,
                StageView::Payload { header } => action matches NegotiationAction::Read {
                    length,
                    context,
                } && length == header.length && context@ == "read NBD option request payload"@,
                StageView::Open { name } => action matches NegotiationAction::Open { name: named }
                    && named@ == name,
                StageView::Write { bytes, context, .. } => {
                    action matches NegotiationAction::Write { bytes: written, context: place }
                        && written@ == bytes && place@ == context
                },
                StageView::Ended { close, .. } => action matches NegotiationAction::End {
                    close: closed,
                } && name_text(closed) == close,
            },
    {
        match &self.stage {
            Stage::Header => NegotiationAction::Read {
                length: OPTION_REQUEST_HEADER_BYTES,
                context: "read NBD option request header",
            },
            Stage::Payload { header } => NegotiationAction::Read {
                length: header.length as usize,
                context: "read NBD option request payload",
            },
            Stage::Open { name } => NegotiationAction::Open { name: name.clone() },
            Stage::Write { bytes, context, .. } => {
                let mut copy: Vec<u8> = Vec::new();
                crate::splice::append_from(&mut copy, bytes.as_slice(), 0, bytes.len());
                proof {
                    assert(copy@ =~= bytes@);
                }
                NegotiationAction::Write { bytes: copy, context: *context }
            },
            Stage::Ended { close, .. } => NegotiationAction::End {
                close: match close {
                    Some(name) => Some(name.clone()),
                    None => None,
                },
            },
        }
    }

    /// Takes in the bytes that were read.
    pub fn bytes_read(&mut self, bytes: &Vec<u8>)
        requires
            old(self)@ is Header || old(self)@ is Payload,
        ensures
            final(self)@ == match old(self)@ {
                StageView::Payload { header } => after_payload(header, bytes@),
                _ => after_header(bytes@),
            },
    {
        let header = match &self.stage {
            Stage::Payload { header } => Some(*header),
            _ => None,
        };
        self.stage = match header {
            None => Self::header_read(bytes),
            Some(header) => Self::payload_read(header, bytes),
        };
    }

    fn header_read(bytes: &Vec<u8>) -> (stage: Stage)
        ensures
            (Negotiation { stage })@ == after_header(bytes@),
    {
        let header = match parse_option_request_header(bytes) {
            Ok(header) => header,
            Err(error) => {
                return Stage::Ended { end: NegotiationEnd::Failed { error }, close: None };
            },
        };
        match header.bounded_payload_len() {
            Ok(_) => Stage::Payload { header },
            Err(error) => Stage::Ended { end: NegotiationEnd::Failed { error }, close: None },
        }
    }

    fn payload_read(header: OptionRequestHeader, payload: &Vec<u8>) -> (stage: Stage)
        ensures
            (Negotiation { stage })@ == after_payload(header, payload@),
    {
        match parse_option_request(header, payload) {
            Ok(OptionRequest::Go { export_name }) => Stage::Open {
                name: ExportName::new(export_name),
            },
            Ok(OptionRequest::Abort) => Stage::Write {
                bytes: encode_ack_reply(NBD_OPT_ABORT),
                context: "write NBD_OPT_ABORT ack",
                after: AfterWrite::Leave,
            },
            Ok(OptionRequest::Unknown { code }) => {
                let message: Vec<u8> = vec![
                    117, 110, 115, 117, 112, 112, 111, 114, 116, 101, 100, 32, 111, 112, 116, 105,
                    111, 110,
                ];
                proof {
                    assert(message@ =~= unsupported_option());
                }
                match encode_option_reply(code, NBD_REP_ERR_UNSUP, message.as_slice()) {
                    Ok(bytes) => Stage::Write {
                        bytes,
                        context: "write unsupported option",
                        after: AfterWrite::NextOption,
                    },
                    Err(error) => Stage::Ended {
                        end: NegotiationEnd::Failed { error },
                        close: None,
                    },
                }
            },
            Err(error) => Stage::Ended { end: NegotiationEnd::Failed { error }, close: None },
        }
    }

    /// The export was opened.
    pub fn export_opened(&mut self, size_bytes: u64)
        requires
            old(self)@ is Open,
        ensures
            final(self)@ == after_open(old(self)@->Open_name, size_bytes as nat),
    {
        let name = match &self.stage {
            Stage::Open { name } => name.clone(),
            _ => ExportName::new(String::new()),
        };
        self.stage = Stage::Write {
            bytes: encode_export_info_reply(NBD_OPT_GO, size_bytes, SUPPORTED_TRANSMISSION_FLAGS),
            context: "write NBD export info",
            after: AfterWrite::Acknowledge { name },
        };
    }

    /// The name is none that an export can have: the negotiation fails, and nothing is opened.
    pub fn name_refused(&mut self, message: String)
        requires
            old(self)@ is Open,
        ensures
            final(self)@ == failed(ErrorView::Catalog { message: message@ }),
    {
        self.stage = Stage::Ended {
            end: NegotiationEnd::Failed { error: ServerError::catalog(message) },
            close: None,
        };
    }

    /// The export could not be opened.
    pub fn export_refused(&mut self, error: &ServerError)
        requires
            old(self)@ is Open,
        ensures
            final(self)@ == after_refusal(error@),
    {
        let message = error.describe();
        let kind: u32 = match error {
            ServerError::ExportBusy { .. } => NBD_REP_ERR_POLICY,
            ServerError::ExportTooLarge { .. } => NBD_REP_ERR_POLICY,
            _ => NBD_REP_ERR_UNKNOWN,
        };
        let text = message.as_str();
        let bytes = text.as_bytes();
        self.stage = match encode_option_reply(NBD_OPT_GO, kind, bytes) {
            Ok(bytes) => Stage::Write {
                bytes,
                context: "write NBD_OPT_GO error",
                after: AfterWrite::Leave,
            },
            Err(error) => Stage::Ended { end: NegotiationEnd::Failed { error }, close: None },
        };
    }

    /// The bytes were written.
    pub fn written(&mut self)
        requires
            old(self)@ is Write,
        ensures
            final(self)@ == after_write(old(self)@->after),
    {
        let mut stage = Stage::Header;
        std::mem::swap(&mut stage, &mut self.stage);
        self.stage = match stage {
            Stage::Write { after: AfterWrite::NextOption, .. } => Stage::Header,
            Stage::Write { after: AfterWrite::Acknowledge { name }, .. } => Stage::Write {
                bytes: encode_ack_reply(NBD_OPT_GO),
                context: "write NBD_OPT_GO ack",
                after: AfterWrite::Serve { name },
            },
            Stage::Write { after: AfterWrite::Serve { name }, .. } => Stage::Ended {
                end: NegotiationEnd::Serve { name },
                close: None,
            },
            _ => Stage::Ended { end: NegotiationEnd::NoExport, close: None },
        };
    }

    /// The export that is open now, if one is.
    fn open_now(&self) -> (name: Option<ExportName>)
        ensures
            name_text(name) == open_in(self@),
    {
        match &self.stage {
            Stage::Write { after: AfterWrite::Acknowledge { name }, .. } => Some(name.clone()),
            Stage::Write { after: AfterWrite::Serve { name }, .. } => Some(name.clone()),
            _ => None,
        }
    }

    /// The server shuts down: the client is left, and an export that is open is closed.
    pub fn cancelled(&mut self)
        requires
            !(old(self)@ is Ended),
        ensures
            final(self)@ == interrupted(old(self)@, EndView::NoExport),
    {
        let close = self.open_now();
        self.stage = Stage::Ended { end: NegotiationEnd::NoExport, close };
    }

    /// Bytes could not be read or written: an export that is open is closed.
    pub fn io_failed(&mut self, error: ServerError)
        requires
            !(old(self)@ is Ended),
        ensures
            final(self)@ == interrupted(old(self)@, EndView::Failed { error: error@ }),
    {
        let close = self.open_now();
        self.stage = Stage::Ended { end: NegotiationEnd::Failed { error }, close };
    }

    /// How the negotiation ended.
    pub fn finish(self) -> (end: NegotiationEnd)
        requires
            self@ is Ended,
        ensures
            end@ == self@->end,
    {
        match self.stage {
            Stage::Ended { end, .. } => end,
            _ => NegotiationEnd::NoExport,
        }
    }
}

/// An export that was opened stays open until it is served, as long as the client takes what is
/// written.
pub proof fn law_opened_export_stays_open_until_served(stage: StageView, name: Seq<char>)
    requires
        open_in(stage) == Some(name),
    ensures
        ({
            let next = after_write(stage->after);
            open_in(next) == Some(name) || next == (StageView::Ended {
                end: EndView::Serve { name },
                close: None,
            })
        }),
{
}

/// An option is read on exactly when its header has sixteen bytes, begins with the magic number and
/// says no more payload than is taken; otherwise the negotiation fails with a protocol error and
/// there is nothing to close.
pub proof fn law_option_header_is_followed_as_it_says(bytes: Seq<u8>)
    ensures
        match after_header(bytes) {
            StageView::Payload { header } => {
                &&& bytes.len() == 16
                &&& number_of(bytes.subrange(0, 8)) == 0x49484156454f5054
                &&& header.code == number_of(bytes.subrange(8, 12))
                &&& header.length == number_of(bytes.subrange(12, 16))
                &&& header.length <= 65536
            },
            StageView::Ended { end: EndView::Failed { error }, close } => {
                &&& close is None
                &&& error is Protocol
                &&& bytes.len() != 16 || number_of(bytes.subrange(0, 8)) != 0x49484156454f5054
                    || number_of(bytes.subrange(12, 16)) > 65536
            },
            _ => false,
        },
{
    if bytes.len() == 16 {
        reveal_with_fuel(span_of, 5);
        lemma_number_bound(bytes.subrange(8, 12));
        lemma_number_bound(bytes.subrange(12, 16));
    }
}

/// An option that is not known is answered under its own code as unsupported, and then the next
/// one is read. An abort is acknowledged, and then the negotiation ends without an export and with
/// nothing to close. A request to serve an export opens the one that it names.
pub proof fn law_every_option_is_answered_in_kind(header: OptionRequestHeader, payload: Seq<u8>)
    requires
        payload.len() == header.length,
    ensures
        ({
            let next = after_payload(header, payload);
            if header.code == 7 {
                match next {
                    StageView::Open { name } => go_error(payload) is None && name == decode_utf8(
                        go_name(payload),
                    ),
                    StageView::Ended { end: EndView::Failed { error }, close } => {
                        go_error(payload) is Some && error is Protocol && close is None
                    },
                    _ => false,
                }
            } else {
                &&& next matches StageView::Write { bytes, after, .. } && {
                    &&& number_of(bytes.subrange(0, 8)) == 0x3e889045565a9
                    &&& number_of(bytes.subrange(8, 12)) == header.code
                    &&& number_of(bytes.subrange(12, 16)) == (if header.code == 2 {
                        1nat
                    } else {
                        0x80000001
                    })
                    &&& number_of(bytes.subrange(16, 20)) == bytes.len() - 20
                    &&& header.code == 2 ==> bytes.len() == 20
                    &&& if header.code == 2 {
                        after_write(after) == (StageView::Ended {
                            end: EndView::NoExport,
                            close: None,
                        })
                    } else {
                        after_write(after) == StageView::Header
                    }
                }
            }
        }),
{
    if header.code == NBD_OPT_ABORT {
        law_option_reply_layout(NBD_OPT_ABORT, NBD_REP_ACK, Seq::empty());
    } else if header.code != NBD_OPT_GO {
        law_option_reply_layout(header.code, NBD_REP_ERR_UNSUP, unsupported_option());
    }
}

/// A payload that is not as long as its header says fails the negotiation with a protocol error.
pub proof fn law_option_of_another_length_fails(header: OptionRequestHeader, payload: Seq<u8>)
    requires
        payload.len() != header.length,
    ensures
        after_payload(header, payload) matches StageView::Ended {
            end: EndView::Failed { error },
            close,
        } && error is Protocol && close is None,
{
}

/// An export that was opened is announced with its size and flags, then acknowledged, and then
/// served under its name.
pub proof fn law_opened_export_is_announced_then_served(name: Seq<char>, size_bytes: u64)
    ensures
        after_open(name, size_bytes as nat) matches StageView::Write { bytes: info, after, .. } && {
            &&& info.len() == 32
            &&& number_of(info.subrange(8, 12)) == 7
            &&& number_of(info.subrange(12, 16)) == 3
            &&& number_of(info.skip(20).subrange(0, 2)) == 0
            &&& number_of(info.skip(20).subrange(2, 10)) == size_bytes
            &&& number_of(info.skip(20).subrange(10, 12)) == 5
            &&& after_write(after) matches StageView::Write { bytes: ack, after: last, .. } && {
                &&& ack.len() == 20
                &&& number_of(ack.subrange(8, 12)) == 7
                &&& number_of(ack.subrange(12, 16)) == 1
                &&& after_write(last) == (StageView::Ended {
                    end: EndView::Serve { name },
                    close: None,
                })
            }
        },
{
    let data = export_info(size_bytes as nat, SUPPORTED_TRANSMISSION_FLAGS as nat);
    law_export_info_layout(size_bytes, SUPPORTED_TRANSMISSION_FLAGS);
    law_option_reply_layout(NBD_OPT_GO, NBD_REP_INFO, data);
    law_option_reply_layout(NBD_OPT_GO, NBD_REP_ACK, Seq::empty());
}

/// A client that asks for an export it cannot have is told why, as a matter of policy where the
/// export is in use or too large and as unknown otherwise, and is then served nothing.
pub proof fn law_refused_export_is_never_served(error: ErrorView)
    requires
        encode_utf8(error_text(error)).len() <= u32::MAX,
    ensures
        after_refusal(error) matches StageView::Write { bytes, after, .. } && {
            &&& number_of(bytes.subrange(8, 12)) == 7
            &&& number_of(bytes.subrange(12, 16)) == (match error {
                ErrorView::ExportBusy { .. } => 0x80000002nat,
                ErrorView::ExportTooLarge { .. } => 0x80000002nat,
                _ => 0x80000006nat,
            })
            &&& bytes.skip(20) == encode_utf8(error_text(error))
            &&& after_write(after) == (StageView::Ended { end: EndView::NoExport, close: None })
            &&& open_in(after_refusal(error)) is None
        },
{
    law_option_reply_layout(NBD_OPT_GO, refusal_kind(error), encode_utf8(error_text(error)));
}

/// An export is open for a client exactly while its opening is announced and acknowledged: then an
/// interrupted negotiation has it to close, and at no other time has it anything to close.
pub proof fn law_only_an_announced_export_is_to_be_closed(
    name: Seq<char>,
    size_bytes: u64,
    stage: StageView,
)
    ensures
        open_in(after_open(name, size_bytes as nat)) == Some(name),
        after_open(name, size_bytes as nat) matches StageView::Write { after, .. } && open_in(
            after_write(after),
        ) == Some(name),
        !(stage is Write) ==> open_in(stage) is None,
        stage matches StageView::Write { after, .. } ==> (open_in(stage) is Some <==> after
            is Acknowledge || after is Serve),
{
}

/// A negotiation that is interrupted ends as it was told to, and has the export to close that it had
/// opened and not yet served.
pub proof fn law_an_interrupted_negotiation_closes_what_it_opened(
    name: Seq<char>,
    size_bytes: u64,
    stage: StageView,
    end: EndView,
)
    ensures
        interrupted(after_open(name, size_bytes as nat), end) == (StageView::Ended {
            end,
            close: Some(name),
        }),
        after_open(name, size_bytes as nat) matches StageView::Write { after, .. } && interrupted(
            after_write(after),
            end,
        ) == (StageView::Ended { end, close: Some(name) }),
        stage is Header || stage is Payload || stage is Open ==> interrupted(stage, end) == (
        StageView::Ended { end, close: None }),
{
}

} // verus!
