//! Messages between a network block device client and the server.

use crate::error::{ErrorView, ProtocolError, ProtocolErrorView, Result, ServerError};
use crate::wire::{
    big_endian, law_number_round_trip, lemma_big_endian_len, number_of, push_number, read_number,
    span_of,
};
use vstd::prelude::*;
use vstd::utf8::*;

verus! {

/// "NBDMAGIC"
pub const NBD_MAGIC: u64 = 0x4e42444d41474943;

/// "IHAVEOPT"
pub const NBD_OPTION_MAGIC: u64 = 0x49484156454f5054;

pub const NBD_OPTION_REPLY_MAGIC: u64 = 0x3e889045565a9;

pub const NBD_REQUEST_MAGIC: u64 = 0x25609513;

pub const NBD_SIMPLE_REPLY_MAGIC: u64 = 0x67446698;

/// The server talks fixed newstyle and sends no padding.
pub const NBD_HANDSHAKE_FLAGS: u64 = 3;

pub const NBD_OPT_ABORT: u32 = 2;

pub const NBD_OPT_GO: u32 = 7;

pub const NBD_REP_ACK: u32 = 1;

pub const NBD_REP_INFO: u32 = 3;

pub const NBD_REP_ERR_UNSUP: u32 = 0x80000001;

pub const NBD_REP_ERR_POLICY: u32 = 0x80000002;

pub const NBD_REP_ERR_UNKNOWN: u32 = 0x80000006;

pub const NBD_FLAG_HAS_FLAGS: u16 = 1;

pub const NBD_FLAG_SEND_FLUSH: u16 = 4;

pub const NBD_CMD_READ: u16 = 0;

pub const NBD_CMD_WRITE: u16 = 1;

pub const NBD_CMD_DISC: u16 = 2;

pub const NBD_CMD_FLUSH: u16 = 3;

pub const NBD_EINVAL: u32 = 22;

pub const OPTION_REQUEST_HEADER_BYTES: usize = 16;

pub const REQUEST_HEADER_BYTES: usize = 28;

pub const SIMPLE_REPLY_BYTES: usize = 16;

/// The longest payload of an option.
pub const MAX_OPTION_PAYLOAD_BYTES: u32 = 65536;

/// The most bytes that one request reads or writes.
pub const MAX_IO_BYTES: u32 = 33554432;

/// What the server says first.
pub open spec fn server_handshake() -> Seq<u8> {
    big_endian(NBD_MAGIC as nat, 8) + big_endian(NBD_OPTION_MAGIC as nat, 8) + big_endian(
        NBD_HANDSHAKE_FLAGS as nat,
        2,
    )
}

/// What the server says first.
pub fn encode_server_handshake() -> (bytes: Vec<u8>)
    ensures
        bytes@ == server_handshake(),
{
    let mut bytes: Vec<u8> = Vec::new();
    push_number(&mut bytes, NBD_MAGIC, 8);
    push_number(&mut bytes, NBD_OPTION_MAGIC, 8);
    push_number(&mut bytes, NBD_HANDSHAKE_FLAGS, 2);
    proof {
        assert(bytes@ =~= server_handshake());
    }
    bytes
}

/// Why the flags of a client are refused: they have another length, or say what the server does not
/// know.
pub open spec fn client_flags_error(bytes: Seq<u8>) -> Option<ProtocolErrorView> {
    if bytes.len() != 4 {
        Some(
            ProtocolErrorView::InvalidLength {
                context: "client flags"@,
                expected: 4,
                actual: bytes.len() as u64,
            },
        )
    } else if number_of(bytes) > 3 {
        Some(
            ProtocolErrorView::UnsupportedFlags {
                context: "client flags"@,
                flags: number_of(bytes) as u64,
            },
        )
    } else {
        None
    }
}

/// Checks the flags of a client.
pub fn decode_client_flags(bytes: &Vec<u8>) -> (result: Result<u32>)
    ensures
        match result {
            Ok(flags) => client_flags_error(bytes@) is None && flags == number_of(bytes@),
            Err(error) => protocol_failure(client_flags_error(bytes@), error),
        },
{
    let length: usize = bytes.len();
    if length != 4 {
        return Err(
            ServerError::Protocol {
                source: ProtocolError::InvalidLength {
                    context: "client flags",
                    expected: 4,
                    actual: length as u64,
                },
            },
        );
    }
    let flags: u64 = read_number(bytes, 0, 4);
    proof {
        assert(bytes@.subrange(0, 4) =~= bytes@);
    }
    if flags > 3 {
        return Err(
            ServerError::Protocol {
                source: ProtocolError::UnsupportedFlags { context: "client flags", flags },
            },
        );
    }
    Ok(flags as u32)
}

/// The error is the protocol error.
pub open spec fn protocol_failure(failure: Option<ProtocolErrorView>, error: ServerError) -> bool {
    failure matches Some(source) && error@ == (ErrorView::Protocol { source })
}

/// Which option a client asks for, and how long its payload is.
#[derive(Debug, Clone, Copy, PartialEq, Eq, Structural)]
pub struct OptionRequestHeader {
    pub code: u32,
    pub length: u32,
}

/// An option that a client asks for.
#[derive(Debug)]
pub enum OptionRequest {
    /// Serve an export.
    Go { export_name: String },
    /// Stop.
    Abort,
    /// An option that the server does not know.
    Unknown { code: u32 },
}

/// The bytes of a request to serve an export, without wishes for information.
pub open spec fn go_payload(name: Seq<char>) -> Seq<u8> {
    big_endian(encode_utf8(name).len(), 4) + encode_utf8(name) + big_endian(0, 2)
}

/// Why the header of an option is refused.
pub open spec fn option_header_error(bytes: Seq<u8>) -> Option<ProtocolErrorView> {
    if bytes.len() != 16 {
        Some(
            ProtocolErrorView::InvalidLength {
                context: "option request header"@,
                expected: 16,
                actual: bytes.len() as u64,
            },
        )
    } else if number_of(bytes.subrange(0, 8)) != NBD_OPTION_MAGIC {
        Some(
            ProtocolErrorView::InvalidMagic {
                context: "option request header"@,
                expected: NBD_OPTION_MAGIC,
                actual: number_of(bytes.subrange(0, 8)) as u64,
            },
        )
    } else {
        None
    }
}

/// Decodes the header of an option.
pub fn parse_option_request_header(bytes: &Vec<u8>) -> (result: Result<OptionRequestHeader>)
    ensures
        match result {
            Ok(header) => {
                &&& option_header_error(bytes@) is None
                &&& header.code == number_of(bytes@.subrange(8, 12))
                &&& header.length == number_of(bytes@.subrange(12, 16))
            },
            Err(error) => protocol_failure(option_header_error(bytes@), error),
        },
{
    let length: usize = bytes.len();
    if length != OPTION_REQUEST_HEADER_BYTES {
        return Err(
            ServerError::Protocol {
                source: ProtocolError::InvalidLength {
                    context: "option request header",
                    expected: 16,
                    actual: length as u64,
                },
            },
        );
    }
    let magic: u64 = read_number(bytes, 0, 8);
    if magic != NBD_OPTION_MAGIC {
        return Err(
            ServerError::Protocol {
                source: ProtocolError::InvalidMagic {
                    context: "option request header",
                    expected: NBD_OPTION_MAGIC,
                    actual: magic,
                },
            },
        );
    }
    proof {
        reveal_with_fuel(span_of, 5);
    }
    let code: u64 = read_number(bytes, 8, 4);
    let payload: u64 = read_number(bytes, 12, 4);
    Ok(OptionRequestHeader { code: code as u32, length: payload as u32 })
}

impl OptionRequestHeader {
    /// The length of the payload, if it is not too long.
    pub fn bounded_payload_len(&self) -> (result: Result<usize>)
        ensures
            match result {
                Ok(length) => self.length <= MAX_OPTION_PAYLOAD_BYTES && length == self.length,
                Err(error) => self.length > MAX_OPTION_PAYLOAD_BYTES && error@ == (
                ErrorView::Protocol {
                    source: ProtocolErrorView::PayloadTooLarge {
                        context: "option request"@,
                        length: self.length as u64,
                        max: MAX_OPTION_PAYLOAD_BYTES as u64,
                    },
                }),
            },
    {
        if self.length > MAX_OPTION_PAYLOAD_BYTES {
            return Err(
                ServerError::Protocol {
                    source: ProtocolError::PayloadTooLarge {
                        context: "option request",
                        length: self.length as u64,
                        max: MAX_OPTION_PAYLOAD_BYTES as u64,
                    },
                },
            );
        }
        Ok(self.length as usize)
    }
}

/// The length of the export name in a request to serve one.
pub open spec fn go_name_len(payload: Seq<u8>) -> int {
    number_of(payload.subrange(0, 4)) as int
}

/// How many wishes for information follow the name.
pub open spec fn go_wishes(payload: Seq<u8>) -> int {
    number_of(payload.subrange(4 + go_name_len(payload), 6 + go_name_len(payload))) as int
}

/// The bytes of the export name in a request to serve one.
pub open spec fn go_name(payload: Seq<u8>) -> Seq<u8> {
    payload.subrange(4, 4 + go_name_len(payload))
}

/// A wrong length of a request to serve an export.
pub open spec fn go_length_error(expected: int, payload: Seq<u8>) -> ProtocolErrorView {
    ProtocolErrorView::InvalidLength {
        context: "NBD_OPT_GO"@,
        expected: expected as u64,
        actual: payload.len() as u64,
    }
}

/// Why a request to serve an export is refused.
pub open spec fn go_error(payload: Seq<u8>) -> Option<ProtocolErrorView> {
    if payload.len() < 4 {
        Some(go_length_error(4, payload))
    } else if payload.len() < 6 + go_name_len(payload) {
        Some(go_length_error(6 + go_name_len(payload), payload))
    } else if payload.len() != 6 + go_name_len(payload) + 2 * go_wishes(payload) {
        Some(go_length_error(6 + go_name_len(payload) + 2 * go_wishes(payload), payload))
    } else if !valid_utf8(go_name(payload)) {
        Some(ProtocolErrorView::InvalidText { context: "NBD_OPT_GO"@ })
    } else {
        None
    }
}

/// Calls `String::from_utf8`: bytes that are valid UTF-8 are the text that they encode, and others
/// are refused.
#[verifier::external_body]
fn text_of(bytes: Vec<u8>) -> (text: Option<String>)
    ensures
        match text {
            Some(text) => valid_utf8(bytes@) && text@ == decode_utf8(bytes@),
            None => !valid_utf8(bytes@),
        },
{
    String::from_utf8(bytes).ok()
}

/// Some of the bytes.
fn bytes_between(bytes: &Vec<u8>, from: usize, to: usize) -> (part: Vec<u8>)
    requires
        from <= to <= bytes@.len(),
    ensures
        part@ == bytes@.subrange(from as int, to as int),
{
    let mut part: Vec<u8> = Vec::new();
    let mut index: usize = from;
    while index < to
        invariant
            from <= index <= to <= bytes@.len(),
            part@ == bytes@.subrange(from as int, index as int),
        decreases to - index,
    {
        part.push(bytes[index]);
        index = index + 1;
        proof {
            assert(part@ =~= bytes@.subrange(from as int, index as int));
        }
    }
    part
}

/// Decodes a request to serve an export.
pub fn parse_go(payload: &Vec<u8>) -> (result: Result<String>)
    ensures
        match result {
            Ok(name) => go_error(payload@) is None && name@ == decode_utf8(go_name(payload@)),
            Err(error) => protocol_failure(go_error(payload@), error),
        },
{
    let length: usize = payload.len();
    if length < 4 {
        return Err(wrong_go_length(4, length as u64));
    }
    proof {
        reveal_with_fuel(span_of, 5);
    }
    let name_len: u64 = read_number(payload, 0, 4);
    if (length as u64) < 6 + name_len {
        return Err(wrong_go_length(6 + name_len, length as u64));
    }
    let name_end: usize = 4 + name_len as usize;
    let wishes: u64 = read_number(payload, name_end, 2);
    if length as u64 != 6 + name_len + 2 * wishes {
        return Err(wrong_go_length(6 + name_len + 2 * wishes, length as u64));
    }
    match text_of(bytes_between(payload, 4, name_end)) {
        Some(name) => Ok(name),
        None => Err(
            ServerError::Protocol { source: ProtocolError::InvalidText { context: "NBD_OPT_GO" } },
        ),
    }
}

fn wrong_go_length(expected: u64, actual: u64) -> (error: ServerError)
    ensures
        error@ == (ErrorView::Protocol {
            source: ProtocolErrorView::InvalidLength { context: "NBD_OPT_GO"@, expected, actual },
        }),
{
    ServerError::Protocol {
        source: ProtocolError::InvalidLength { context: "NBD_OPT_GO", expected, actual },
    }
}

/// Decodes an option with its payload.
pub fn parse_option_request(header: OptionRequestHeader, payload: &Vec<u8>) -> (result: Result<
    OptionRequest,
>)
    ensures
        if payload@.len() != header.length {
            result matches Err(error) && error@ == (ErrorView::Protocol {
                source: ProtocolErrorView::InvalidLength {
                    context: "option request"@,
                    expected: header.length as u64,
                    actual: payload@.len() as u64,
                },
            })
        } else if header.code == NBD_OPT_GO {
            match result {
                Ok(request) => {
                    &&& go_error(payload@) is None
                    &&& request matches OptionRequest::Go { export_name } && export_name@
                        == decode_utf8(go_name(payload@))
                },
                Err(error) => protocol_failure(go_error(payload@), error),
            }
        } else if header.code == NBD_OPT_ABORT {
            result matches Ok(request) && request is Abort
        } else {
            result matches Ok(request) && request matches OptionRequest::Unknown { code } && code
                == header.code
        },
{
    let length: usize = payload.len();
    if length as u64 != header.length as u64 {
        return Err(
            ServerError::Protocol {
                source: ProtocolError::InvalidLength {
                    context: "option request",
                    expected: header.length as u64,
                    actual: length as u64,
                },
            },
        );
    }
    if header.code == NBD_OPT_GO {
        return match parse_go(payload) {
            Ok(export_name) => Ok(OptionRequest::Go { export_name }),
            Err(error) => Err(error),
        };
    }
    if header.code == NBD_OPT_ABORT {
        return Ok(OptionRequest::Abort);
    }
    Ok(OptionRequest::Unknown { code: header.code })
}

/// The bytes of a reply to an option.
pub open spec fn option_reply(option: nat, kind: nat, data: Seq<u8>) -> Seq<u8> {
    big_endian(NBD_OPTION_REPLY_MAGIC as nat, 8) + big_endian(option, 4) + big_endian(kind, 4)
        + big_endian(data.len(), 4) + data
}

/// Encodes a reply to an option. No reply holds more than its length can say.
pub fn encode_option_reply(option: u32, kind: u32, data: &[u8]) -> (result: Result<Vec<u8>>)
    ensures
        match result {
            Ok(bytes) => data@.len() <= u32::MAX && bytes@ == option_reply(
                option as nat,
                kind as nat,
                data@,
            ),
            Err(error) => data@.len() > u32::MAX && error@ == (ErrorView::Protocol {
                source: ProtocolErrorView::PayloadTooLarge {
                    context: "option reply"@,
                    length: data@.len() as u64,
                    max: u32::MAX as u64,
                },
            }),
        },
{
    let length: usize = data.len();
    if length as u64 > u32::MAX as u64 {
        return Err(
            ServerError::Protocol {
                source: ProtocolError::PayloadTooLarge {
                    context: "option reply",
                    length: length as u64,
                    max: u32::MAX as u64,
                },
            },
        );
    }
    let mut bytes: Vec<u8> = Vec::new();
    push_number(&mut bytes, NBD_OPTION_REPLY_MAGIC, 8);
    push_number(&mut bytes, option as u64, 4);
    push_number(&mut bytes, kind as u64, 4);
    push_number(&mut bytes, length as u64, 4);
    let ghost head = bytes@;
    append_bytes(&mut bytes, data);
    proof {
        assert(bytes@ =~= option_reply(option as nat, kind as nat, data@));
    }
    Ok(bytes)
}

fn append_bytes(bytes: &mut Vec<u8>, data: &[u8])
    ensures
        final(bytes)@ == old(bytes)@ + data@,
{
    let ghost before = bytes@;
    let mut index: usize = 0;
    while index < data.len()
        invariant
            index <= data@.len(),
            bytes@ == before + data@.take(index as int),
        decreases data@.len() - index,
    {
        bytes.push(data[index]);
        index = index + 1;
        proof {
            assert(bytes@ =~= before + data@.take(index as int));
        }
    }
    proof {
        assert(data@.take(index as int) =~= data@);
        assert(bytes@ =~= before + data@);
    }
}

/// What a client is told of an export.
pub open spec fn export_info(size_bytes: nat, flags: nat) -> Seq<u8> {
    big_endian(0, 2) + big_endian(size_bytes, 8) + big_endian(flags, 2)
}

/// Encodes what a client is told of an export.
pub fn encode_export_info_reply(option: u32, size_bytes: u64, flags: u16) -> (bytes: Vec<u8>)
    ensures
        bytes@ == option_reply(
            option as nat,
            NBD_REP_INFO as nat,
            export_info(size_bytes as nat, flags as nat),
        ),
{
    let mut info: Vec<u8> = Vec::new();
    push_number(&mut info, 0, 2);
    push_number(&mut info, size_bytes, 8);
    push_number(&mut info, flags as u64, 2);
    proof {
        lemma_big_endian_len(0, 2);
        lemma_big_endian_len(size_bytes as nat, 8);
        lemma_big_endian_len(flags as nat, 2);
        assert(info@ =~= export_info(size_bytes as nat, flags as nat));
    }
    match encode_option_reply(option, NBD_REP_INFO, info.as_slice()) {
        Ok(bytes) => bytes,
        Err(_) => Vec::new(),
    }
}

/// Encodes the acknowledgement of an option.
pub fn encode_ack_reply(option: u32) -> (bytes: Vec<u8>)
    ensures
        bytes@ == option_reply(option as nat, NBD_REP_ACK as nat, Seq::empty()),
{
    let nothing: Vec<u8> = Vec::new();
    proof {
        assert(nothing@ =~= Seq::empty());
    }
    match encode_option_reply(option, NBD_REP_ACK, nothing.as_slice()) {
        Ok(bytes) => bytes,
        Err(_) => Vec::new(),
    }
}

/// What a client asks of an export.
#[derive(Debug, Clone, Copy, PartialEq, Eq, Structural)]
pub struct RequestHeader {
    pub flags: u16,
    pub command: u16,
    pub cookie: u64,
    pub offset: u64,
    pub length: u32,
}

/// A request to an export, as it was decoded.
#[derive(Debug)]
pub enum TransmissionRequest {
    Read { cookie: u64, offset: u64, length: u32 },
    Write { cookie: u64, offset: u64, data: Vec<u8> },
    Flush { cookie: u64 },
    Disconnect { cookie: u64 },
}

/// The bytes of a request header.
pub open spec fn request_header_bytes(header: RequestHeader) -> Seq<u8> {
    big_endian(NBD_REQUEST_MAGIC as nat, 4) + big_endian(header.flags as nat, 2) + big_endian(
        header.command as nat,
        2,
    ) + big_endian(header.cookie as nat, 8) + big_endian(header.offset as nat, 8) + big_endian(
        header.length as nat,
        4,
    )
}

/// Encodes a request header.
pub fn encode_request_header(header: RequestHeader) -> (bytes: Vec<u8>)
    ensures
        bytes@ == request_header_bytes(header),
{
    let mut bytes: Vec<u8> = Vec::new();
    push_number(&mut bytes, NBD_REQUEST_MAGIC, 4);
    push_number(&mut bytes, header.flags as u64, 2);
    push_number(&mut bytes, header.command as u64, 2);
    push_number(&mut bytes, header.cookie, 8);
    push_number(&mut bytes, header.offset, 8);
    push_number(&mut bytes, header.length as u64, 4);
    proof {
        assert(bytes@ =~= request_header_bytes(header));
    }
    bytes
}

/// Why a request header is refused.
pub open spec fn request_header_error(bytes: Seq<u8>) -> Option<ProtocolErrorView> {
    if bytes.len() != 28 {
        Some(
            ProtocolErrorView::InvalidLength {
                context: "request header"@,
                expected: 28,
                actual: bytes.len() as u64,
            },
        )
    } else if number_of(bytes.subrange(0, 4)) != NBD_REQUEST_MAGIC {
        Some(
            ProtocolErrorView::InvalidMagic {
                context: "request header"@,
                expected: NBD_REQUEST_MAGIC,
                actual: number_of(bytes.subrange(0, 4)) as u64,
            },
        )
    } else {
        None
    }
}

/// The header that bytes stand for.
pub open spec fn request_header_of(bytes: Seq<u8>) -> RequestHeader {
    RequestHeader {
        flags: number_of(bytes.subrange(4, 6)) as u16,
        command: number_of(bytes.subrange(6, 8)) as u16,
        cookie: number_of(bytes.subrange(8, 16)) as u64,
        offset: number_of(bytes.subrange(16, 24)) as u64,
        length: number_of(bytes.subrange(24, 28)) as u32,
    }
}

/// Decodes a request header.
pub fn parse_request_header(bytes: &Vec<u8>) -> (result: Result<RequestHeader>)
    ensures
        match result {
            Ok(header) => request_header_error(bytes@) is None && header == request_header_of(
                bytes@,
            ),
            Err(error) => protocol_failure(request_header_error(bytes@), error),
        },
{
    let length: usize = bytes.len();
    if length != REQUEST_HEADER_BYTES {
        return Err(
            ServerError::Protocol {
                source: ProtocolError::InvalidLength {
                    context: "request header",
                    expected: 28,
                    actual: length as u64,
                },
            },
        );
    }
    let magic: u64 = read_number(bytes, 0, 4);
    if magic != NBD_REQUEST_MAGIC {
        return Err(
            ServerError::Protocol {
                source: ProtocolError::InvalidMagic {
                    context: "request header",
                    expected: NBD_REQUEST_MAGIC,
                    actual: magic,
                },
            },
        );
    }
    proof {
        reveal_with_fuel(span_of, 5);
    }
    let flags: u64 = read_number(bytes, 4, 2);
    let command: u64 = read_number(bytes, 6, 2);
    let cookie: u64 = read_number(bytes, 8, 8);
    let offset: u64 = read_number(bytes, 16, 8);
    let wanted: u64 = read_number(bytes, 24, 4);
    Ok(
        RequestHeader {
            flags: flags as u16,
            command: command as u16,
            cookie,
            offset,
            length: wanted as u32,
        },
    )
}

/// A request that is too large.
pub open spec fn too_large(length: u32) -> ProtocolErrorView {
    ProtocolErrorView::PayloadTooLarge {
        context: "transmission request"@,
        length: length as u64,
        max: MAX_IO_BYTES as u64,
    }
}

impl RequestHeader {
    /// How many bytes follow the header: the data of a write, if it is not too long.
    pub fn payload_len(&self) -> (result: Result<usize>)
        ensures
            if self.command == NBD_CMD_WRITE && self.length > MAX_IO_BYTES {
                result matches Err(error) && error@ == (ErrorView::Protocol {
                    source: too_large(self.length),
                })
            } else {
                result matches Ok(length) && length == if self.command == NBD_CMD_WRITE {
                    self.length as int
                } else {
                    0
                }
            },
    {
        if self.command != NBD_CMD_WRITE {
            return Ok(0);
        }
        if self.length > MAX_IO_BYTES {
            return Err(request_too_large(self.length));
        }
        Ok(self.length as usize)
    }
}

fn request_too_large(length: u32) -> (error: ServerError)
    ensures
        error@ == (ErrorView::Protocol { source: too_large(length) }),
{
    ServerError::Protocol {
        source: ProtocolError::PayloadTooLarge {
            context: "transmission request",
            length: length as u64,
            max: MAX_IO_BYTES as u64,
        },
    }
}

/// Why a request is refused.
pub open spec fn request_error(header: RequestHeader, payload: Seq<u8>) -> Option<
    ProtocolErrorView,
> {
    let expected = if header.command == NBD_CMD_WRITE {
        header.length as int
    } else {
        0
    };
    if header.flags != 0 {
        Some(
            ProtocolErrorView::UnsupportedFlags {
                context: "transmission request"@,
                flags: header.flags as u64,
            },
        )
    } else if header.command > NBD_CMD_FLUSH {
        Some(ProtocolErrorView::UnsupportedCommand { command: header.command as u64 })
    } else if (header.command == NBD_CMD_READ || header.command == NBD_CMD_WRITE) && header.length
        > MAX_IO_BYTES {
        Some(too_large(header.length))
    } else if payload.len() != expected {
        Some(
            ProtocolErrorView::InvalidLength {
                context: "transmission request"@,
                expected: expected as u64,
                actual: payload.len() as u64,
            },
        )
    } else {
        None
    }
}

/// The request that a header and a payload stand for.
pub open spec fn is_request(
    request: TransmissionRequest,
    header: RequestHeader,
    payload: Seq<u8>,
) -> bool {
    if header.command == NBD_CMD_READ {
        request == (TransmissionRequest::Read {
            cookie: header.cookie,
            offset: header.offset,
            length: header.length,
        })
    } else if header.command == NBD_CMD_WRITE {
        request matches TransmissionRequest::Write { cookie, offset, data } && cookie
            == header.cookie && offset == header.offset && data@ == payload
    } else if header.command == NBD_CMD_DISC {
        request == (TransmissionRequest::Disconnect { cookie: header.cookie })
    } else {
        request == (TransmissionRequest::Flush { cookie: header.cookie })
    }
}

/// Decodes a request.
pub fn parse_request(header: RequestHeader, payload: Vec<u8>) -> (result: Result<
    TransmissionRequest,
>)
    ensures
        match result {
            Ok(request) => request_error(header, payload@) is None && is_request(
                request,
                header,
                payload@,
            ),
            Err(error) => protocol_failure(request_error(header, payload@), error),
        },
{
    let actual: usize = payload.len();
    if header.flags != 0 {
        return Err(
            ServerError::Protocol {
                source: ProtocolError::UnsupportedFlags {
                    context: "transmission request",
                    flags: header.flags as u64,
                },
            },
        );
    }
    if header.command > NBD_CMD_FLUSH {
        return Err(
            ServerError::Protocol {
                source: ProtocolError::UnsupportedCommand { command: header.command as u64 },
            },
        );
    }
    if (header.command == NBD_CMD_READ || header.command == NBD_CMD_WRITE) && header.length
        > MAX_IO_BYTES {
        return Err(request_too_large(header.length));
    }
    let expected: u64 = if header.command == NBD_CMD_WRITE {
        header.length as u64
    } else {
        0
    };
    if actual as u64 != expected {
        return Err(
            ServerError::Protocol {
                source: ProtocolError::InvalidLength {
                    context: "transmission request",
                    expected,
                    actual: actual as u64,
                },
            },
        );
    }
    let RequestHeader { cookie, offset, length, .. } = header;
    if header.command == NBD_CMD_READ {
        Ok(TransmissionRequest::Read { cookie, offset, length })
    } else if header.command == NBD_CMD_WRITE {
        Ok(TransmissionRequest::Write { cookie, offset, data: payload })
    } else if header.command == NBD_CMD_DISC {
        Ok(TransmissionRequest::Disconnect { cookie })
    } else {
        Ok(TransmissionRequest::Flush { cookie })
    }
}

/// The bytes of a reply without data.
pub open spec fn simple_reply(cookie: nat, error: nat) -> Seq<u8> {
    big_endian(NBD_SIMPLE_REPLY_MAGIC as nat, 4) + big_endian(error, 4) + big_endian(cookie, 8)
}

/// Encodes a reply without data.
pub fn encode_simple_reply(cookie: u64, error: u32) -> (bytes: Vec<u8>)
    ensures
        bytes@ == simple_reply(cookie as nat, error as nat),
{
    let mut bytes: Vec<u8> = Vec::new();
    push_number(&mut bytes, NBD_SIMPLE_REPLY_MAGIC, 4);
    push_number(&mut bytes, error as u64, 4);
    push_number(&mut bytes, cookie, 8);
    proof {
        assert(bytes@ =~= simple_reply(cookie as nat, error as nat));
    }
    bytes
}

/// Encodes the reply to a read that went well.
pub fn encode_read_reply(cookie: u64, data: &Vec<u8>) -> (bytes: Vec<u8>)
    ensures
        bytes@ == simple_reply(cookie as nat, 0) + data@,
{
    let mut bytes = encode_simple_reply(cookie, 0);
    append_bytes(&mut bytes, data.as_slice());
    bytes
}

/// A reply as a client decodes it.
#[derive(Debug, Clone, Copy, PartialEq, Eq, Structural)]
pub struct SimpleReply {
    pub cookie: u64,
    pub error: u32,
}

/// Why a reply is refused.
pub open spec fn simple_reply_error(bytes: Seq<u8>) -> Option<ProtocolErrorView> {
    if bytes.len() != 16 {
        Some(
            ProtocolErrorView::InvalidLength {
                context: "simple reply"@,
                expected: 16,
                actual: bytes.len() as u64,
            },
        )
    } else if number_of(bytes.subrange(0, 4)) != NBD_SIMPLE_REPLY_MAGIC {
        Some(
            ProtocolErrorView::InvalidMagic {
                context: "simple reply"@,
                expected: NBD_SIMPLE_REPLY_MAGIC,
                actual: number_of(bytes.subrange(0, 4)) as u64,
            },
        )
    } else {
        None
    }
}

/// Decodes a reply.
pub fn parse_simple_reply(bytes: &Vec<u8>) -> (result: Result<SimpleReply>)
    ensures
        match result {
            Ok(reply) => {
                &&& simple_reply_error(bytes@) is None
                &&& reply.error == number_of(bytes@.subrange(4, 8))
                &&& reply.cookie == number_of(bytes@.subrange(8, 16))
            },
            Err(error) => protocol_failure(simple_reply_error(bytes@), error),
        },
{
    let length: usize = bytes.len();
    if length != SIMPLE_REPLY_BYTES {
        return Err(
            ServerError::Protocol {
                source: ProtocolError::InvalidLength {
                    context: "simple reply",
                    expected: 16,
                    actual: length as u64,
                },
            },
        );
    }
    let magic: u64 = read_number(bytes, 0, 4);
    if magic != NBD_SIMPLE_REPLY_MAGIC {
        return Err(
            ServerError::Protocol {
                source: ProtocolError::InvalidMagic {
                    context: "simple reply",
                    expected: NBD_SIMPLE_REPLY_MAGIC,
                    actual: magic,
                },
            },
        );
    }
    proof {
        reveal_with_fuel(span_of, 5);
    }
    let error: u64 = read_number(bytes, 4, 4);
    let cookie: u64 = read_number(bytes, 8, 8);
    Ok(SimpleReply { cookie, error: error as u32 })
}

/// A request header is decoded to what was encoded.
pub proof fn law_request_header_round_trip(header: RequestHeader)
    ensures
        request_header_error(request_header_bytes(header)) is None,
        request_header_of(request_header_bytes(header)) == header,
{
    let bytes = request_header_bytes(header);
    reveal_with_fuel(span_of, 9);
    lemma_big_endian_len(NBD_REQUEST_MAGIC as nat, 4);
    lemma_big_endian_len(header.flags as nat, 2);
    lemma_big_endian_len(header.command as nat, 2);
    lemma_big_endian_len(header.cookie as nat, 8);
    lemma_big_endian_len(header.offset as nat, 8);
    lemma_big_endian_len(header.length as nat, 4);
    law_number_round_trip(NBD_REQUEST_MAGIC as nat, 4);
    law_number_round_trip(header.flags as nat, 2);
    law_number_round_trip(header.command as nat, 2);
    law_number_round_trip(header.cookie as nat, 8);
    law_number_round_trip(header.offset as nat, 8);
    law_number_round_trip(header.length as nat, 4);
    assert(bytes.subrange(0, 4) =~= big_endian(NBD_REQUEST_MAGIC as nat, 4));
    assert(bytes.subrange(4, 6) =~= big_endian(header.flags as nat, 2));
    assert(bytes.subrange(6, 8) =~= big_endian(header.command as nat, 2));
    assert(bytes.subrange(8, 16) =~= big_endian(header.cookie as nat, 8));
    assert(bytes.subrange(16, 24) =~= big_endian(header.offset as nat, 8));
    assert(bytes.subrange(24, 28) =~= big_endian(header.length as nat, 4));
}

/// A reply is decoded to what was encoded.
pub proof fn law_simple_reply_round_trip(cookie: u64, error: u32)
    ensures
        ({
            let bytes = simple_reply(cookie as nat, error as nat);
            &&& simple_reply_error(bytes) is None
            &&& number_of(bytes.subrange(4, 8)) == error
            &&& number_of(bytes.subrange(8, 16)) == cookie
        }),
{
    let bytes = simple_reply(cookie as nat, error as nat);
    reveal_with_fuel(span_of, 9);
    lemma_big_endian_len(NBD_SIMPLE_REPLY_MAGIC as nat, 4);
    lemma_big_endian_len(error as nat, 4);
    lemma_big_endian_len(cookie as nat, 8);
    law_number_round_trip(NBD_SIMPLE_REPLY_MAGIC as nat, 4);
    law_number_round_trip(error as nat, 4);
    law_number_round_trip(cookie as nat, 8);
    assert(bytes.subrange(0, 4) =~= big_endian(NBD_SIMPLE_REPLY_MAGIC as nat, 4));
    assert(bytes.subrange(4, 8) =~= big_endian(error as nat, 4));
    assert(bytes.subrange(8, 16) =~= big_endian(cookie as nat, 8));
}

/// A request to serve an export is decoded to the name that was encoded.
pub proof fn law_go_round_trip(name: Seq<char>)
    requires
        encode_utf8(name).len() <= u32::MAX,
    ensures
        go_error(go_payload(name)) is None,
        decode_utf8(go_name(go_payload(name))) == name,
{
    let text = encode_utf8(name);
    let payload = go_payload(name);
    reveal_with_fuel(span_of, 5);
    lemma_big_endian_len(text.len(), 4);
    lemma_big_endian_len(0, 2);
    law_number_round_trip(text.len(), 4);
    law_number_round_trip(0, 2);
    assert(payload.subrange(0, 4) =~= big_endian(text.len(), 4));
    assert(payload.subrange(4, 4 + text.len() as int) =~= text);
    assert(payload.subrange(4 + text.len() as int, 6 + text.len() as int) =~= big_endian(0, 2));
    encode_utf8_valid_utf8(name);
    encode_utf8_decode_utf8(name);
}

/// The first message of the server is the two magic numbers and its flags: it talks fixed newstyle
/// and leaves out the padding.
pub proof fn law_handshake_layout()
    ensures
        server_handshake().len() == 18,
        number_of(server_handshake().subrange(0, 8)) == 0x4e42444d41474943,
        number_of(server_handshake().subrange(8, 16)) == 0x49484156454f5054,
        number_of(server_handshake().subrange(16, 18)) == 3,
{
    let bytes = server_handshake();
    reveal_with_fuel(span_of, 9);
    lemma_big_endian_len(NBD_MAGIC as nat, 8);
    lemma_big_endian_len(NBD_OPTION_MAGIC as nat, 8);
    lemma_big_endian_len(NBD_HANDSHAKE_FLAGS as nat, 2);
    law_number_round_trip(NBD_MAGIC as nat, 8);
    law_number_round_trip(NBD_OPTION_MAGIC as nat, 8);
    law_number_round_trip(NBD_HANDSHAKE_FLAGS as nat, 2);
    assert(bytes.subrange(0, 8) =~= big_endian(NBD_MAGIC as nat, 8));
    assert(bytes.subrange(8, 16) =~= big_endian(NBD_OPTION_MAGIC as nat, 8));
    assert(bytes.subrange(16, 18) =~= big_endian(NBD_HANDSHAKE_FLAGS as nat, 2));
}

/// The flags of a client are taken exactly when they are four bytes that say no more than that it
/// talks fixed newstyle and takes no padding.
pub proof fn law_client_flags_are_known_ones(bytes: Seq<u8>)
    ensures
        client_flags_error(bytes) is None <==> bytes.len() == 4 && bytes[0] == 0 && bytes[1] == 0
            && bytes[2] == 0 && bytes[3] <= 3,
        client_flags_error(bytes) is None ==> number_of(bytes) == bytes[3],
        bytes.len() == 4 && client_flags_error(bytes) is Some ==> client_flags_error(
            bytes,
        )->0 is UnsupportedFlags,
{
    if bytes.len() == 4 {
        reveal_with_fuel(number_of, 5);
        assert(bytes.drop_last().last() == bytes[2]);
        assert(bytes.drop_last().drop_last().last() == bytes[1]);
        assert(bytes.drop_last().drop_last().drop_last().last() == bytes[0]);
    }
}

/// A header of an option is taken exactly when it has sixteen bytes that begin with the magic
/// number.
pub proof fn law_option_header_layout(code: u32, length: u32, bytes: Seq<u8>)
    ensures
        option_header_error(bytes) is None <==> bytes.len() == 16 && number_of(bytes.subrange(0, 8))
            == 0x49484156454f5054,
        ({
            let encoded = big_endian(0x49484156454f5054, 8) + big_endian(code as nat, 4)
                + big_endian(length as nat, 4);
            &&& option_header_error(encoded) is None
            &&& number_of(encoded.subrange(8, 12)) == code
            &&& number_of(encoded.subrange(12, 16)) == length
        }),
{
    let encoded = big_endian(0x49484156454f5054, 8) + big_endian(code as nat, 4) + big_endian(
        length as nat,
        4,
    );
    reveal_with_fuel(span_of, 9);
    lemma_big_endian_len(0x49484156454f5054, 8);
    lemma_big_endian_len(code as nat, 4);
    lemma_big_endian_len(length as nat, 4);
    law_number_round_trip(0x49484156454f5054, 8);
    law_number_round_trip(code as nat, 4);
    law_number_round_trip(length as nat, 4);
    assert(encoded.subrange(0, 8) =~= big_endian(0x49484156454f5054, 8));
    assert(encoded.subrange(8, 12) =~= big_endian(code as nat, 4));
    assert(encoded.subrange(12, 16) =~= big_endian(length as nat, 4));
}

/// A request to serve an export is understood whatever else it asks for: a name, the number of its
/// wishes and two bytes for each of them.
pub proof fn law_go_is_understood_with_any_wishes(name: Seq<char>, wishes: Seq<u8>)
    requires
        encode_utf8(name).len() <= u32::MAX,
        wishes.len() % 2 == 0,
        wishes.len() / 2 <= u16::MAX,
    ensures
        ({
            let payload = big_endian(encode_utf8(name).len(), 4) + encode_utf8(name) + big_endian(
                wishes.len() / 2,
                2,
            ) + wishes;
            &&& go_error(payload) is None
            &&& decode_utf8(go_name(payload)) == name
        }),
{
    let text = encode_utf8(name);
    let count = (wishes.len() / 2) as nat;
    let payload = big_endian(text.len(), 4) + text + big_endian(count, 2) + wishes;
    reveal_with_fuel(span_of, 5);
    lemma_big_endian_len(text.len(), 4);
    lemma_big_endian_len(count, 2);
    law_number_round_trip(text.len(), 4);
    law_number_round_trip(count, 2);
    assert(payload.subrange(0, 4) =~= big_endian(text.len(), 4));
    assert(payload.subrange(4, 4 + text.len() as int) =~= text);
    assert(payload.subrange(4 + text.len() as int, 6 + text.len() as int) =~= big_endian(count, 2));
    encode_utf8_valid_utf8(name);
    encode_utf8_decode_utf8(name);
}

/// A request to serve an export that is taken holds nothing but its name and its wishes.
pub proof fn law_go_holds_only_its_name_and_wishes(payload: Seq<u8>)
    requires
        go_error(payload) is None,
    ensures
        ({
            let name = number_of(payload.subrange(0, 4)) as int;
            &&& payload.len() >= 6 + name
            &&& payload.len() == 6 + name + 2 * number_of(payload.subrange(4 + name, 6 + name))
            &&& valid_utf8(payload.subrange(4, 4 + name))
            &&& go_name(payload) == payload.subrange(4, 4 + name)
        }),
{
}

/// The reply to an option: its magic number, the option that it answers, what kind of answer it
/// is, and how many bytes of data follow.
pub proof fn law_option_reply_layout(option: u32, kind: u32, data: Seq<u8>)
    requires
        data.len() <= u32::MAX,
    ensures
        ({
            let bytes = option_reply(option as nat, kind as nat, data);
            &&& bytes.len() == 20 + data.len()
            &&& number_of(bytes.subrange(0, 8)) == 0x3e889045565a9
            &&& number_of(bytes.subrange(8, 12)) == option
            &&& number_of(bytes.subrange(12, 16)) == kind
            &&& number_of(bytes.subrange(16, 20)) == data.len()
            &&& bytes.skip(20) == data
        }),
{
    let bytes = option_reply(option as nat, kind as nat, data);
    reveal_with_fuel(span_of, 9);
    lemma_big_endian_len(NBD_OPTION_REPLY_MAGIC as nat, 8);
    lemma_big_endian_len(option as nat, 4);
    lemma_big_endian_len(kind as nat, 4);
    lemma_big_endian_len(data.len(), 4);
    law_number_round_trip(NBD_OPTION_REPLY_MAGIC as nat, 8);
    law_number_round_trip(option as nat, 4);
    law_number_round_trip(kind as nat, 4);
    law_number_round_trip(data.len(), 4);
    assert(bytes.subrange(0, 8) =~= big_endian(NBD_OPTION_REPLY_MAGIC as nat, 8));
    assert(bytes.subrange(8, 12) =~= big_endian(option as nat, 4));
    assert(bytes.subrange(12, 16) =~= big_endian(kind as nat, 4));
    assert(bytes.subrange(16, 20) =~= big_endian(data.len(), 4));
    assert(bytes.skip(20) =~= data);
}

/// What is said of an export: that it is about the export, its size, and its flags.
pub proof fn law_export_info_layout(size_bytes: u64, flags: u16)
    ensures
        ({
            let bytes = export_info(size_bytes as nat, flags as nat);
            &&& bytes.len() == 12
            &&& number_of(bytes.subrange(0, 2)) == 0
            &&& number_of(bytes.subrange(2, 10)) == size_bytes
            &&& number_of(bytes.subrange(10, 12)) == flags
        }),
{
    let bytes = export_info(size_bytes as nat, flags as nat);
    reveal_with_fuel(span_of, 9);
    lemma_big_endian_len(0, 2);
    lemma_big_endian_len(size_bytes as nat, 8);
    lemma_big_endian_len(flags as nat, 2);
    law_number_round_trip(0, 2);
    law_number_round_trip(size_bytes as nat, 8);
    law_number_round_trip(flags as nat, 2);
    assert(bytes.subrange(0, 2) =~= big_endian(0, 2));
    assert(bytes.subrange(2, 10) =~= big_endian(size_bytes as nat, 8));
    assert(bytes.subrange(10, 12) =~= big_endian(flags as nat, 2));
}

/// The header of a request: magic number, flags, command, cookie, offset and length, in this order.
/// It is taken exactly when it is that long and begins with the magic number.
pub proof fn law_request_header_layout(header: RequestHeader, bytes: Seq<u8>)
    ensures
        request_header_error(bytes) is None <==> bytes.len() == 28 && number_of(
            bytes.subrange(0, 4),
        ) == 0x25609513,
        ({
            let encoded = request_header_bytes(header);
            &&& encoded.len() == 28
            &&& number_of(encoded.subrange(0, 4)) == 0x25609513
            &&& number_of(encoded.subrange(4, 6)) == header.flags
            &&& number_of(encoded.subrange(6, 8)) == header.command
            &&& number_of(encoded.subrange(8, 16)) == header.cookie
            &&& number_of(encoded.subrange(16, 24)) == header.offset
            &&& number_of(encoded.subrange(24, 28)) == header.length
        }),
{
    let encoded = request_header_bytes(header);
    reveal_with_fuel(span_of, 9);
    lemma_big_endian_len(NBD_REQUEST_MAGIC as nat, 4);
    lemma_big_endian_len(header.flags as nat, 2);
    lemma_big_endian_len(header.command as nat, 2);
    lemma_big_endian_len(header.cookie as nat, 8);
    lemma_big_endian_len(header.offset as nat, 8);
    lemma_big_endian_len(header.length as nat, 4);
    law_number_round_trip(NBD_REQUEST_MAGIC as nat, 4);
    law_number_round_trip(header.flags as nat, 2);
    law_number_round_trip(header.command as nat, 2);
    law_number_round_trip(header.cookie as nat, 8);
    law_number_round_trip(header.offset as nat, 8);
    law_number_round_trip(header.length as nat, 4);
    assert(encoded.subrange(0, 4) =~= big_endian(NBD_REQUEST_MAGIC as nat, 4));
    assert(encoded.subrange(4, 6) =~= big_endian(header.flags as nat, 2));
    assert(encoded.subrange(6, 8) =~= big_endian(header.command as nat, 2));
    assert(encoded.subrange(8, 16) =~= big_endian(header.cookie as nat, 8));
    assert(encoded.subrange(16, 24) =~= big_endian(header.offset as nat, 8));
    assert(encoded.subrange(24, 28) =~= big_endian(header.length as nat, 4));
}

/// A request is taken exactly when it has no flags, its command is one of the four, it reads or
/// writes no more than the most that one request may, and a write comes with as many bytes as it
/// says and any other command with none. What is taken asks for what its header says.
pub proof fn law_request_is_taken_exactly_when_known(
    header: RequestHeader,
    payload: Seq<u8>,
    request: TransmissionRequest,
)
    ensures
        request_error(header, payload) is None <==> {
            &&& header.flags == 0
            &&& header.command <= 3
            &&& header.command <= 1 ==> header.length <= 33554432
            &&& payload.len() == (if header.command == 1 {
                header.length as nat
            } else {
                0
            })
        },
        is_request(request, header, payload) ==> match request {
            TransmissionRequest::Read { cookie, offset, length } => {
                &&& header.command == 0
                &&& cookie == header.cookie
                &&& offset == header.offset
                &&& length == header.length
            },
            TransmissionRequest::Write { cookie, offset, data } => {
                &&& header.command == 1
                &&& cookie == header.cookie
                &&& offset == header.offset
                &&& data@ == payload
            },
            TransmissionRequest::Disconnect { cookie } => {
                &&& header.command == 2
                &&& cookie == header.cookie
            },
            TransmissionRequest::Flush { cookie } => {
                &&& header.command > 2
                &&& cookie == header.cookie
            },
        },
{
}

} // verus!
