use nbd_server::catalog::ExportName;
use nbd_server::error::{ProtocolError, ServerError};
use nbd_server::export::{
    ConnectionId, ExportJobContext, ExportReply, ExportRequest, RequestCookie,
};
use nbd_server::negotiation::{Negotiation, NegotiationAction, NegotiationEnd};
use nbd_server::protocol::{
    decode_client_flags, encode_ack_reply, encode_export_info_reply, encode_option_reply,
    encode_read_reply, encode_request_header, encode_server_handshake, encode_simple_reply,
    parse_go, parse_option_request, parse_option_request_header, parse_request,
    parse_request_header, parse_simple_reply, OptionRequest, OptionRequestHeader, RequestHeader,
    TransmissionRequest, MAX_IO_BYTES, MAX_OPTION_PAYLOAD_BYTES, NBD_CMD_DISC, NBD_CMD_FLUSH,
    NBD_CMD_READ, NBD_CMD_WRITE, NBD_EINVAL, NBD_OPT_ABORT, NBD_OPT_GO, NBD_REP_ERR_POLICY,
    NBD_REP_ERR_UNKNOWN, NBD_REP_ERR_UNSUP, SIMPLE_REPLY_BYTES,
};
use nbd_server::replies::{
    reader_ended, served, writer_drained, writer_ended, ConnectionReply, ReplyKind, TaskEnd,
    WriterStep,
};
use nbd_server::runtime::{ExportRuntimeKind, RuntimeLifecycle};
use nbd_server::transmission::{
    ConnectionReplyDrain, DecodedRequest, ReaderAction, RequestReader, RequestReaderExit,
};

fn option_header(code: u32, length: u32) -> Vec<u8> {
    let mut bytes = b"IHAVEOPT".to_vec();
    bytes.extend_from_slice(&code.to_be_bytes());
    bytes.extend_from_slice(&length.to_be_bytes());
    bytes
}

fn go_payload(name: &[u8]) -> Vec<u8> {
    let mut bytes = (name.len() as u32).to_be_bytes().to_vec();
    bytes.extend_from_slice(name);
    bytes.extend_from_slice(&0u16.to_be_bytes());
    bytes
}

fn request(command: u16, cookie: u64, offset: u64, length: u32) -> Vec<u8> {
    encode_request_header(RequestHeader {
        flags: 0,
        command,
        cookie,
        offset,
        length,
    })
}

fn runtime_error() -> ServerError {
    ServerError::RuntimeClosed { resource: "test" }
}

#[test]
fn the_handshake_greets_with_both_magics() {
    let mut expected = b"NBDMAGICIHAVEOPT".to_vec();
    expected.extend_from_slice(&[0, 3]);
    assert_eq!(encode_server_handshake(), expected);
    assert_eq!(decode_client_flags(&vec![0, 0, 0, 3]).unwrap(), 3);
    assert_eq!(decode_client_flags(&vec![0, 0, 0, 0]).unwrap(), 0);
    assert!(matches!(
        decode_client_flags(&vec![0, 0, 0, 4]),
        Err(ServerError::Protocol {
            source: ProtocolError::UnsupportedFlags { flags: 4, .. }
        })
    ));
    assert!(matches!(
        decode_client_flags(&vec![0, 0, 3]),
        Err(ServerError::Protocol {
            source: ProtocolError::InvalidLength { .. }
        })
    ));
}

#[test]
fn option_headers_are_checked() {
    let header = parse_option_request_header(&option_header(NBD_OPT_GO, 6)).unwrap();
    assert_eq!(header, OptionRequestHeader { code: 7, length: 6 });
    assert_eq!(header.bounded_payload_len().unwrap(), 6);
    let mut bad = option_header(NBD_OPT_GO, 6);
    bad[0] = 0;
    assert!(matches!(
        parse_option_request_header(&bad),
        Err(ServerError::Protocol {
            source: ProtocolError::InvalidMagic { .. }
        })
    ));
    let large = OptionRequestHeader {
        code: 7,
        length: MAX_OPTION_PAYLOAD_BYTES + 1,
    };
    assert!(matches!(
        large.bounded_payload_len(),
        Err(ServerError::Protocol {
            source: ProtocolError::PayloadTooLarge { .. }
        })
    ));
}

#[test]
fn go_options_name_an_export() {
    assert_eq!(parse_go(&go_payload(b"disk-a")).unwrap(), "disk-a");
    assert_eq!(
        parse_go(&go_payload("d\u{ed}sk".as_bytes())).unwrap(),
        "d\u{ed}sk"
    );
    assert!(matches!(
        parse_go(&go_payload(&[0xff, 0xfe])),
        Err(ServerError::Protocol {
            source: ProtocolError::InvalidText { .. }
        })
    ));
    assert!(parse_go(&vec![0, 0, 0]).is_err());
    assert!(parse_go(&vec![0, 0, 0, 9, 1, 0, 0]).is_err());
    let header = OptionRequestHeader {
        code: NBD_OPT_GO,
        length: 12,
    };
    assert!(matches!(
        parse_option_request(header, &go_payload(b"disk-a")).unwrap(),
        OptionRequest::Go { export_name } if export_name == "disk-a"
    ));
    assert!(parse_option_request(header, &go_payload(b"disk")).is_err());
}

#[test]
fn option_replies_have_their_layout() {
    assert_eq!(
        encode_option_reply(NBD_OPT_GO, NBD_REP_ERR_UNSUP, b"no").unwrap(),
        vec![
            0, 3, 0xe8, 0x89, 4, 0x55, 0x65, 0xa9, 0, 0, 0, 7, 0x80, 0, 0, 1, 0, 0, 0, 2, b'n',
            b'o'
        ]
    );
    assert_eq!(
        encode_ack_reply(NBD_OPT_ABORT),
        vec![0, 3, 0xe8, 0x89, 4, 0x55, 0x65, 0xa9, 0, 0, 0, 2, 0, 0, 0, 1, 0, 0, 0, 0]
    );
    let info = encode_export_info_reply(NBD_OPT_GO, 4096, 5);
    assert_eq!(info.len(), 32);
    assert_eq!(
        &info[8..],
        &[
            0, 0, 0, 7, 0, 0, 0, 3, 0, 0, 0, 12, 0, 0, 0, 0, 0, 0, 0, 0, 0x10, 0, 0, 5
        ]
    );
}

#[test]
fn request_headers_round_trip() {
    let header = RequestHeader {
        flags: 0,
        command: NBD_CMD_WRITE,
        cookie: 0x0102030405060708,
        offset: 4096,
        length: 512,
    };
    let bytes = encode_request_header(header);
    assert_eq!(bytes.len(), 28);
    assert_eq!(&bytes[..8], &[0x25, 0x60, 0x95, 0x13, 0, 0, 0, 1]);
    assert_eq!(parse_request_header(&bytes).unwrap(), header);
    assert!(parse_request_header(&bytes[..27].to_vec()).is_err());
    assert_eq!(header.payload_len().unwrap(), 512);
    let large = RequestHeader {
        length: MAX_IO_BYTES + 1,
        ..header
    };
    assert!(large.payload_len().is_err());
    assert_eq!(
        RequestHeader {
            command: NBD_CMD_READ,
            ..header
        }
        .payload_len()
        .unwrap(),
        0
    );
}

#[test]
fn requests_are_decoded() {
    let header = |command, length| RequestHeader {
        flags: 0,
        command,
        cookie: 9,
        offset: 16,
        length,
    };
    assert!(matches!(
        parse_request(header(NBD_CMD_READ, 4), Vec::new()).unwrap(),
        TransmissionRequest::Read {
            cookie: 9,
            offset: 16,
            length: 4
        }
    ));
    assert!(matches!(
        parse_request(header(NBD_CMD_WRITE, 4), b"data".to_vec()).unwrap(),
        TransmissionRequest::Write { cookie: 9, offset: 16, data } if data == b"data"
    ));
    assert!(matches!(
        parse_request(header(99, 0), Vec::new()),
        Err(ServerError::Protocol {
            source: ProtocolError::UnsupportedCommand { command: 99 }
        })
    ));
    assert!(parse_request(header(NBD_CMD_READ, MAX_IO_BYTES + 1), Vec::new()).is_err());
    assert!(parse_request(header(NBD_CMD_WRITE, 4), b"dat".to_vec()).is_err());
}

#[test]
fn simple_replies_round_trip() {
    let bytes = encode_simple_reply(7, NBD_EINVAL);
    assert_eq!(
        bytes,
        vec![0x67, 0x44, 0x66, 0x98, 0, 0, 0, 22, 0, 0, 0, 0, 0, 0, 0, 7]
    );
    let reply = parse_simple_reply(&bytes).unwrap();
    assert_eq!((reply.cookie, reply.error), (7, 22));
    let read = encode_read_reply(7, &b"data".to_vec());
    assert_eq!(&read[16..], b"data");
    assert_eq!(parse_simple_reply(&read[..16].to_vec()).unwrap().error, 0);
}

#[test]
fn a_go_option_opens_the_export_and_serves_it() {
    let mut negotiation = Negotiation::new();
    assert!(matches!(
        negotiation.action(),
        NegotiationAction::Read { length: 16, .. }
    ));
    negotiation.bytes_read(&option_header(NBD_OPT_GO, 12));
    assert!(matches!(
        negotiation.action(),
        NegotiationAction::Read { length: 12, .. }
    ));
    negotiation.bytes_read(&go_payload(b"disk-a"));
    match negotiation.action() {
        NegotiationAction::Open { name } => assert_eq!(name.as_str(), "disk-a"),
        other => panic!("{other:?}"),
    }
    negotiation.export_opened(4096);
    match negotiation.action() {
        NegotiationAction::Write { bytes, .. } => {
            assert_eq!(bytes, encode_export_info_reply(NBD_OPT_GO, 4096, 5))
        }
        other => panic!("{other:?}"),
    }
    negotiation.written();
    match negotiation.action() {
        NegotiationAction::Write { bytes, .. } => {
            assert_eq!(bytes, encode_ack_reply(NBD_OPT_GO))
        }
        other => panic!("{other:?}"),
    }
    negotiation.written();
    assert!(matches!(
        negotiation.action(),
        NegotiationAction::End { close: None }
    ));
    assert!(matches!(
        negotiation.finish(),
        NegotiationEnd::Serve { name } if name.as_str() == "disk-a"
    ));
}

#[test]
fn an_export_that_is_open_is_closed_when_the_client_is_lost() {
    let mut negotiation = Negotiation::new();
    negotiation.bytes_read(&option_header(NBD_OPT_GO, 12));
    negotiation.bytes_read(&go_payload(b"disk-a"));
    negotiation.export_opened(4096);
    negotiation.io_failed(ServerError::io("write", "broken pipe".to_string()));
    assert!(matches!(
        negotiation.action(),
        NegotiationAction::End { close: Some(name) } if name.as_str() == "disk-a"
    ));
    assert!(matches!(
        negotiation.finish(),
        NegotiationEnd::Failed { .. }
    ));

    let mut negotiation = Negotiation::new();
    negotiation.cancelled();
    assert!(matches!(negotiation.finish(), NegotiationEnd::NoExport));
}

#[test]
fn refused_exports_are_answered_with_the_reason() {
    let name = || ExportName::new("disk-a".to_string());
    for (error, kind) in [
        (ServerError::ExportBusy { name: name() }, NBD_REP_ERR_POLICY),
        (
            ServerError::ExportTooLarge {
                name: name(),
                size_bytes: 2,
                max_size_bytes: 1,
            },
            NBD_REP_ERR_POLICY,
        ),
        (
            ServerError::catalog("missing".to_string()),
            NBD_REP_ERR_UNKNOWN,
        ),
    ] {
        let mut negotiation = Negotiation::new();
        negotiation.bytes_read(&option_header(NBD_OPT_GO, 12));
        negotiation.bytes_read(&go_payload(b"disk-a"));
        negotiation.export_refused(&error);
        match negotiation.action() {
            NegotiationAction::Write { bytes, .. } => assert_eq!(
                bytes,
                encode_option_reply(NBD_OPT_GO, kind, error.describe().as_bytes()).unwrap()
            ),
            other => panic!("{other:?}"),
        }
        negotiation.written();
        assert!(matches!(negotiation.finish(), NegotiationEnd::NoExport));
    }
}

#[test]
fn unknown_options_are_refused_and_the_next_one_is_read() {
    let mut negotiation = Negotiation::new();
    negotiation.bytes_read(&option_header(99, 0));
    negotiation.bytes_read(&Vec::new());
    match negotiation.action() {
        NegotiationAction::Write { bytes, .. } => assert_eq!(
            bytes,
            encode_option_reply(99, NBD_REP_ERR_UNSUP, b"unsupported option").unwrap()
        ),
        other => panic!("{other:?}"),
    }
    negotiation.written();
    negotiation.bytes_read(&option_header(NBD_OPT_ABORT, 0));
    negotiation.bytes_read(&Vec::new());
    match negotiation.action() {
        NegotiationAction::Write { bytes, .. } => {
            assert_eq!(bytes, encode_ack_reply(NBD_OPT_ABORT))
        }
        other => panic!("{other:?}"),
    }
    negotiation.written();
    assert!(matches!(negotiation.finish(), NegotiationEnd::NoExport));
}

#[test]
fn malformed_options_end_the_negotiation() {
    let mut negotiation = Negotiation::new();
    negotiation.bytes_read(&vec![0; 16]);
    assert!(matches!(
        negotiation.finish(),
        NegotiationEnd::Failed {
            error: ServerError::Protocol { .. }
        }
    ));
}

fn read_request(reader: &mut RequestReader, header: &Vec<u8>, payload: &[u8]) -> DecodedRequest {
    assert_eq!(reader.action(), ReaderAction::ReadHeader { length: 28 });
    reader.header_read(header);
    assert_eq!(reader.action(), ReaderAction::ReserveSlot);
    reader.slot_reserved();
    assert_eq!(
        reader.action(),
        ReaderAction::ReadPayload {
            length: payload.len()
        }
    );
    assert!(reader.has_sequence());
    let request = reader.payload_read(payload.to_vec()).expect("request");
    assert_eq!(reader.action(), ReaderAction::Submit);
    reader.submitted();
    request
}

fn answered(request: DecodedRequest, data: &[u8]) -> Vec<u8> {
    let mut runtime = RuntimeLifecycle::with_capacity(ExportRuntimeKind::Serial, 1);
    let slot = runtime.reserve().unwrap().unwrap();
    ConnectionReply::export_result(
        request.context,
        request.kind,
        Ok(ExportReply::Read {
            data: data.to_vec(),
        }),
        slot,
    )
    .encode()
    .bytes
}

#[test]
fn connection_runtime_writes_out_of_order_completions_by_cookie() {
    let mut reader = RequestReader::new(ConnectionId::new(1));
    let first = read_request(&mut reader, &request(NBD_CMD_READ, 101, 0, 4), b"");
    let second = read_request(&mut reader, &request(NBD_CMD_READ, 102, 4, 4), b"");

    assert_eq!(first.context.cookie(), RequestCookie::new(101));
    assert_eq!(first.context.request_sequence().raw(), 1);
    assert_eq!(first.context.offset(), Some(0));
    assert_eq!(first.context.length(), Some(4));
    assert_eq!(second.context.cookie(), RequestCookie::new(102));
    assert_eq!(second.context.request_sequence().raw(), 2);
    assert_eq!(second.context.offset(), Some(4));
    assert_eq!(second.context.length(), Some(4));
    assert_eq!(second.request, ExportRequest::Read { offset: 4, len: 4 });

    assert_eq!(
        answered(second, b"bbbb"),
        encode_read_reply(102, &b"bbbb".to_vec())
    );
    assert_eq!(
        answered(first, b"aaaa"),
        encode_read_reply(101, &b"aaaa".to_vec())
    );

    reader.header_read(&request(NBD_CMD_DISC, 999, 0, 0));
    assert_eq!(reader.action(), ReaderAction::Exit);
    let exit = reader.finish();
    assert_eq!(exit.reply_drain, ConnectionReplyDrain::DropPending);
    exit.result.expect("disconnect");
}

#[test]
fn connection_runtime_backpressures_before_write_payload() {
    let mut runtime = RuntimeLifecycle::with_capacity(ExportRuntimeKind::Serial, 1);
    let mut reader = RequestReader::new(ConnectionId::new(1));
    let held = runtime.reserve().unwrap().expect("first slot");
    read_request(&mut reader, &request(NBD_CMD_READ, 201, 0, 4), b"");

    reader.header_read(&request(NBD_CMD_WRITE, 202, 8, 4));
    assert_eq!(reader.action(), ReaderAction::ReserveSlot);
    assert!(
        runtime.reserve().unwrap().is_none(),
        "second reserve should wait"
    );

    runtime.release(held);
    runtime.reserve().unwrap().expect("slot");
    reader.slot_reserved();
    assert_eq!(reader.action(), ReaderAction::ReadPayload { length: 4 });
    let write = reader.payload_read(b"zzzz".to_vec()).expect("write");
    assert_eq!(
        write.request,
        ExportRequest::Write {
            offset: 8,
            data: b"zzzz".to_vec(),
        }
    );
    assert_eq!(write.kind, ReplyKind::Simple);
    assert_eq!(write.context.length(), Some(4));
}

#[test]
fn reply_write_holds_queue_slot_until_socket_write_finishes() {
    let mut runtime = RuntimeLifecycle::with_capacity(ExportRuntimeKind::Serial, 1);
    let slot = runtime.reserve().unwrap().expect("slot");
    let reply = ConnectionReply::export_result(
        ExportJobContext::internal(RequestCookie::new(301), "read"),
        ReplyKind::Read,
        Ok(ExportReply::Read {
            data: vec![7; 1024],
        }),
        slot,
    );
    assert_eq!(reply.encode().bytes.len(), SIMPLE_REPLY_BYTES + 1024);
    assert!(runtime.reserve().unwrap().is_none());
    runtime.release(reply.into_slot().expect("slot"));
    assert!(runtime.reserve().unwrap().is_some());
}

#[test]
fn connection_shutdown_stops_blocked_request_reader() {
    let mut reader = RequestReader::new(ConnectionId::new(1));
    reader.cancelled();

    let exit = reader.finish();
    assert_eq!(exit.reply_drain, ConnectionReplyDrain::DropPending);
    exit.result.expect("reader shutdown");
}

#[test]
fn refused_requests_are_answered_before_the_connection_ends() {
    let mut reader = RequestReader::new(ConnectionId::new(1));
    reader.header_read(&request(NBD_CMD_WRITE, 5, 0, MAX_IO_BYTES + 1));
    assert_eq!(
        reader.action(),
        ReaderAction::SendSimpleError { cookie: 5 }
    );
    reader.error_sent(true);
    let exit = reader.finish();
    assert_eq!(exit.reply_drain, ConnectionReplyDrain::DrainQueued);
    assert!(matches!(exit.result, Err(ServerError::Protocol { .. })));

    let mut reader = RequestReader::new(ConnectionId::new(1));
    reader.header_read(&request(NBD_CMD_FLUSH, 6, 0, 0));
    reader.slot_reserved();
    let flush = reader.payload_read(Vec::new()).expect("flush");
    assert_eq!(flush.request, ExportRequest::Flush);
    reader.submit_failed(runtime_error());
    assert_eq!(
        reader.action(),
        ReaderAction::SendSimpleError { cookie: 6 }
    );
    reader.error_sent(false);
    assert_eq!(
        reader.finish().result.unwrap_err().describe(),
        "connection reply queue is closed"
    );

    let mut reader = RequestReader::new(ConnectionId::new(1));
    reader.header_read(&request(NBD_CMD_FLUSH, 6, 0, 0));
    reader.reserve_failed(runtime_error());
    assert_eq!(
        reader.action(),
        ReaderAction::SendSimpleError { cookie: 6 }
    );
}

#[test]
fn broken_streams_end_the_reader() {
    let mut reader = RequestReader::new(ConnectionId::new(1));
    reader.end_of_stream();
    assert!(reader.finish().result.is_ok());

    let mut reader = RequestReader::new(ConnectionId::new(1));
    reader.header_read(&vec![0; 28]);
    assert!(matches!(
        reader.finish().result,
        Err(ServerError::Protocol { .. })
    ));

    let mut reader = RequestReader::new(ConnectionId::new(1));
    reader.read_failed(ServerError::io("read", "reset".to_string()));
    assert!(matches!(reader.finish().result, Err(ServerError::Io { .. })));
}

#[test]
fn failed_requests_are_answered_with_einval() {
    let mut runtime = RuntimeLifecycle::with_capacity(ExportRuntimeKind::Serial, 4);
    let context = ExportJobContext::internal(RequestCookie::new(8), "read");
    for result in [Err(runtime_error()), Ok(ExportReply::Done)] {
        let slot = runtime.reserve().unwrap().unwrap();
        let reply = ConnectionReply::export_result(context, ReplyKind::Read, result, slot);
        let encoded = reply.encode();
        assert_eq!(encoded.bytes, encode_simple_reply(8, NBD_EINVAL));
        assert_eq!(encoded.status, "error");
        assert_eq!(encoded.context, "write NBD error reply");
        assert_eq!(reply.context().unwrap().cookie(), RequestCookie::new(8));
    }
    let refused = ConnectionReply::invalid(3);
    assert_eq!(refused.encode().bytes, encode_simple_reply(3, NBD_EINVAL));
    assert!(refused.context().is_none());
    assert!(refused.into_slot().is_none());
    assert_eq!(
        ConnectionReply::simple_error(3, 5).encode().bytes,
        encode_simple_reply(3, 5)
    );
}

#[test]
fn the_writer_drains_only_after_a_refusal() {
    let exit = |reply_drain, result| {
        TaskEnd::Finished(RequestReaderExit {
            result,
            reply_drain,
        })
    };
    assert!(matches!(
        reader_ended(exit(ConnectionReplyDrain::DropPending, Ok(()))),
        WriterStep::Abort(Ok(()))
    ));
    assert!(matches!(
        reader_ended(exit(
            ConnectionReplyDrain::DrainQueued,
            Err(runtime_error())
        )),
        WriterStep::Drain(Err(_))
    ));
    assert!(matches!(
        reader_ended(TaskEnd::Lost),
        WriterStep::Abort(Err(ServerError::RuntimeClosed {
            resource: "connection request reader"
        }))
    ));
    assert!(writer_drained(TaskEnd::Finished(Ok(())), Err(runtime_error())).is_err());
    assert!(writer_drained(TaskEnd::Finished(Ok(())), Ok(())).is_ok());
    assert!(writer_ended(TaskEnd::Lost).is_err());
    assert!(served(Ok(()), Err(runtime_error())).is_err());
    assert!(served(Ok(()), Ok(())).is_ok());
}

#[test]
fn names_that_no_export_can_have_end_the_negotiation() {
    let mut negotiation = Negotiation::new();
    let payload = go_payload(b"");
    negotiation.bytes_read(&option_header(NBD_OPT_GO, payload.len() as u32));
    negotiation.bytes_read(&payload);
    assert!(matches!(
        negotiation.action(),
        NegotiationAction::Open { name } if name.as_str().is_empty()
    ));
    negotiation.name_refused("export name must not be empty".to_string());
    assert!(matches!(
        negotiation.action(),
        NegotiationAction::End { close: None }
    ));
    match negotiation.finish() {
        NegotiationEnd::Failed {
            error: ServerError::Catalog { message },
        } => assert_eq!(message, "export name must not be empty"),
        _ => panic!("the name was refused"),
    }
}
