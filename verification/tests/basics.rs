use nbd_server::catalog::{
    BlobKey, ChunkIndex, ExportId, ExportLayoutKind, ExportName, NodeId, TreeFormat, TreeNodeKind,
    WalSeq, TREE_CHUNK_BYTES,
};
use nbd_server::error::{ProtocolError, RequestFailureLogLevel, ServerError};
use nbd_server::export::{ExportJobContext, ExportRequest, RequestCookie, RequestSequenceGenerator};
use nbd_server::geometry::TreeGeometry;
use nbd_server::identity::{generated_blob_key, generated_node_id};
use nbd_server::logging::{
    LogDestination, LogFormat, LogWriterQueuePolicy, LoggingOptions, LoggingPolicy,
    DEFAULT_LOG_FILTER,
};
use nbd_server::observability::{duration_ms, ServerInstance, SERVICE_NAME};
use nbd_server::range::ByteRange;
use nbd_server::tree_records::TreeRecordFactory;
use nbd_server::wal::{WalBounds, WalPruneResult, WalRecord, WalReplay, WalRequest};

#[test]
fn request_request_sequence_generator_starts_at_one() {
    let mut generator = RequestSequenceGenerator::new();

    assert_eq!(generator.next().raw(), 1);
    assert_eq!(generator.next().raw(), 2);
}

#[test]
fn observability_request_sequence_generator_starts_at_one() {
    let mut generator = RequestSequenceGenerator::new();

    assert_eq!(generator.next().raw(), 1);
    assert_eq!(generator.next().raw(), 2);
}

#[test]
fn server_instance_id_is_process_stable() {
    let instance = ServerInstance::new();
    let first = instance.server_instance_id();
    let second = instance.server_instance_id();

    assert_eq!(first, second);
    assert_eq!(first.len(), 32);
    assert!(first.chars().all(|c| c.is_ascii_hexdigit()));
    assert_eq!(first.as_bytes()[12], b'4');
    assert!(matches!(first.as_bytes()[16], b'8' | b'9' | b'a' | b'b'));
    assert_ne!(first, ServerInstance::new().server_instance_id());
}

#[test]
fn generated_identities_are_hyphenated() {
    for text in [
        generated_node_id().as_str().to_string(),
        generated_blob_key().as_str().to_string(),
    ] {
        assert_eq!(text.len(), 36);
        for (position, c) in text.chars().enumerate() {
            if matches!(position, 8 | 13 | 18 | 23) {
                assert_eq!(c, '-');
            } else {
                assert!(c.is_ascii_hexdigit() && !c.is_ascii_uppercase());
            }
        }
    }
    let id = generated_node_id();
    assert!(matches!(id.as_str().as_bytes()[19], b'8' | b'9' | b'a' | b'b'));
    assert_ne!(generated_node_id().as_str(), generated_node_id().as_str());
}

#[test]
fn durations_are_whole_milliseconds() {
    assert_eq!(duration_ms(0, 999_999), 0);
    assert_eq!(duration_ms(2, 3_500_000), 2003);
    assert_eq!(duration_ms(u64::MAX, 999_999_999), u64::MAX as u128 * 1000 + 999);
    assert_eq!(SERVICE_NAME, "nbd-server");
}

#[test]
fn policy_defaults_to_file_json_lossless_append() {
    let log_path = "/tmp/nbd-server/current.log".to_string();

    let policy = LoggingPolicy::from_options(LoggingOptions {
        file_path: log_path.clone(),
        log_stdout: false,
        env_filter: None,
    });

    assert_eq!(
        policy.destinations,
        vec![LogDestination::File { path: log_path }]
    );
    assert_eq!(policy.format, LogFormat::JsonLines);
    assert_eq!(policy.filter, DEFAULT_LOG_FILTER);
    assert!(policy.append);
    assert_eq!(policy.writer_queue_policy, LogWriterQueuePolicy::Lossless);
}

#[test]
fn policy_adds_stdout_destination_when_requested() {
    let log_path = "/tmp/nbd-server/current.log".to_string();

    let policy = LoggingPolicy::from_options(LoggingOptions {
        file_path: log_path.clone(),
        log_stdout: true,
        env_filter: Some("debug".to_owned()),
    });

    assert_eq!(
        policy.destinations,
        vec![
            LogDestination::File { path: log_path },
            LogDestination::Stdout,
        ]
    );
    assert_eq!(policy.filter, "debug");
}

#[test]
fn record_factory_uses_geometry_spans() {
    let geometry = TreeGeometry::new(TreeFormat::Bounded32V1, TREE_CHUNK_BYTES * 64).unwrap();
    let factory = TreeRecordFactory::new(
        geometry,
        ExportLayoutKind::SimpleMutableTree,
        Some(ExportId::new("export-a".to_string())),
    );

    let root = factory.root_node(NodeId::new("root".to_string()));
    assert_eq!(root.kind, TreeNodeKind::Internal);
    assert_eq!(root.level, 2);
    assert_eq!(root.span_start_bytes, 0);
    assert_eq!(root.span_len_bytes, TREE_CHUNK_BYTES * 64);
    assert_eq!(
        root.owner_export_id,
        Some(ExportId::new("export-a".to_string()))
    );

    let path = geometry.path_for_chunk(ChunkIndex::new(63)).unwrap();
    assert_eq!(path.slots(), &[1, 31]);
    let leaf_span = geometry
        .child_span(
            geometry
                .child_span(geometry.root_span(), path.slots()[0])
                .unwrap(),
            path.slots()[1],
        )
        .unwrap();
    let leaf = factory.leaf_node(NodeId::new("leaf".to_string()), leaf_span);
    assert_eq!(leaf.kind, TreeNodeKind::Leaf);
    assert_eq!(leaf.level, 0);
    assert_eq!(leaf.span_start_bytes, TREE_CHUNK_BYTES * 63);
    assert_eq!(leaf.span_len_bytes, TREE_CHUNK_BYTES);
}

#[test]
fn bounded_32_v1_uses_three_internal_levels_for_one_tib() {
    let geometry = TreeGeometry::new(TreeFormat::Bounded32V1, 1024 * 1024 * 1024 * 1024).unwrap();

    assert_eq!(geometry.fanout(), 32);
    assert_eq!(geometry.size_bytes(), 1024 * 1024 * 1024 * 1024);
    assert_eq!(geometry.root_level(), 3);
    assert_eq!(geometry.root_span().len_bytes(), 1024 * 1024 * 1024 * 1024);

    let path = geometry
        .path_for_chunk(ChunkIndex::new(32 * 32 * 32 - 1))
        .unwrap();
    assert_eq!(path.chunk_index(), ChunkIndex::new(32 * 32 * 32 - 1));
    assert_eq!(path.slots(), &[31, 31, 31]);
}

#[test]
fn chunks_for_range_is_bounded_to_touched_chunks() {
    let geometry = TreeGeometry::new(TreeFormat::Bounded32V1, TREE_CHUNK_BYTES * 4).unwrap();
    let range = ByteRange::new(TREE_CHUNK_BYTES - 4, 12);

    let chunks = geometry.chunks_for_range(range).unwrap();

    assert_eq!(chunks.len(), 2);
    assert_eq!(chunks[0].chunk_index(), ChunkIndex::new(0));
    assert_eq!(chunks[0].chunk_offset(), TREE_CHUNK_BYTES - 4);
    assert_eq!(chunks[0].range(), ByteRange::new(TREE_CHUNK_BYTES - 4, 4));
    assert_eq!(chunks[1].chunk_index(), ChunkIndex::new(1));
    assert_eq!(chunks[1].chunk_offset(), 0);
    assert_eq!(chunks[1].range(), ByteRange::new(TREE_CHUNK_BYTES, 8));
}

#[test]
fn geometry_refuses_what_lies_outside() {
    assert!(TreeGeometry::new(TreeFormat::Bounded32V1, 0).is_err());
    let geometry = TreeGeometry::new(TreeFormat::Bounded32V1, TREE_CHUNK_BYTES * 4).unwrap();
    assert_eq!(geometry.root_level(), 1);
    assert!(geometry.path_for_chunk(ChunkIndex::new(4)).is_err());
    assert!(geometry
        .chunks_for_range(ByteRange::new(TREE_CHUNK_BYTES * 4 - 1, 2))
        .is_err());
    assert!(geometry.child_span(geometry.root_span(), 4).is_err());
    assert!(geometry.child_span(geometry.root_span(), 32).is_err());
    assert!(geometry.node_span(2, 0).is_err());
}

#[test]
fn byte_ranges_overlap_where_they_share_a_byte() {
    let range = ByteRange::new(4, 4);
    assert_eq!(range.end(), 8);
    assert!(range.overlaps(ByteRange::new(7, 1)));
    assert!(!range.overlaps(ByteRange::new(8, 4)));
    assert!(!range.overlaps(ByteRange::new(4, 0)));
    assert!(ByteRange::new(5, 0).is_empty());
    assert_eq!(ByteRange::new(u64::MAX, 1).checked_end(), None);
}

#[test]
fn expected_client_request_errors_are_debug() {
    assert_eq!(
        ServerError::OutOfBounds {
            operation: "read",
            offset: 4096,
            length: 4096,
            size_bytes: 4096,
        }
        .request_failure_log_level(),
        RequestFailureLogLevel::Debug,
    );
    assert_eq!(
        ServerError::Protocol {
            source: ProtocolError::InvalidMagic {
                context: "test",
                expected: 1,
                actual: 2,
            },
        }
        .request_failure_log_level(),
        RequestFailureLogLevel::Debug,
    );
}

#[test]
fn server_side_request_errors_are_warn() {
    assert_eq!(
        ServerError::RuntimeClosed {
            resource: "connection reply queue",
        }
        .request_failure_log_level(),
        RequestFailureLogLevel::Warn,
    );
    assert_eq!(
        ServerError::Io {
            context: "write reply",
            message: "broken pipe".to_owned(),
        }
        .request_failure_log_level(),
        RequestFailureLogLevel::Warn,
    );
}

#[test]
fn errors_describe_themselves() {
    let name = || ExportName::new("disk".to_string());
    let cases: Vec<(ServerError, &str)> = vec![
        (
            ServerError::ExportTooLarge {
                name: name(),
                size_bytes: 9,
                max_size_bytes: 8,
            },
            "export `disk` size 9 exceeds in-memory limit 8",
        ),
        (
            ServerError::ExportBusy { name: name() },
            "export `disk` is already active",
        ),
        (
            ServerError::ExportOwnerMismatch { name: name() },
            "export `disk` is owned by a different active owner",
        ),
        (
            ServerError::LockPoisoned { resource: "map" },
            "lock poisoned for map",
        ),
        (
            ServerError::RuntimeClosed { resource: "queue" },
            "queue is closed",
        ),
        (
            ServerError::OutOfBounds {
                operation: "read",
                offset: 4,
                length: 2,
                size_bytes: 5,
            },
            "export read range is out of bounds: offset=4, length=2, size=5",
        ),
        (
            ServerError::BlobAlreadyExists {
                context: "create blob",
                key: BlobKey::new("abc".to_string()),
            },
            "create blob: blob `abc` already exists",
        ),
        (
            ServerError::io("read file", "gone".to_string()),
            "read file: gone",
        ),
        (ServerError::catalog("bad".to_string()), "bad"),
        (ServerError::wal("append", "full".to_string()), "append: full"),
    ];
    for (error, expected) in cases {
        assert_eq!(error.describe(), expected);
        assert_eq!(error.clone().describe(), expected);
    }
}

fn record(seq: u64, start: u64, data: &[u8]) -> WalRecord {
    WalRecord::new(
        WalSeq::new(seq),
        ByteRange::new(start, data.len() as u32),
        data.to_vec(),
    )
    .expect("WAL record")
}

#[test]
fn replay_yields_records_in_order() {
    let mut replay = WalReplay::from_records(vec![record(1, 0, b"one"), record(2, 3, b"two")])
        .expect("ordered replay");

    assert_eq!(
        replay.next_record().expect("next"),
        Some(record(1, 0, b"one"))
    );
    assert_eq!(
        replay.next_record().expect("next"),
        Some(record(2, 3, b"two"))
    );
    assert_eq!(replay.next_record().expect("next"), None);
}

#[test]
fn replay_rejects_non_increasing_records() {
    assert!(matches!(
        WalReplay::from_records(vec![record(2, 0, b"one"), record(2, 3, b"two")]),
        Err(ServerError::Wal {
            context: "create WAL replay",
            ..
        }),
    ));
}

#[test]
fn log_records_hold_as_many_bytes_as_they_cover() {
    assert!(WalRequest::new(ByteRange::new(0, 4), b"four".to_vec()).is_ok());
    assert!(WalRequest::new(ByteRange::new(0, 3), b"four".to_vec()).is_err());
    assert!(WalRequest::new(ByteRange::new(0, 0), Vec::new()).is_err());
    assert!(WalRecord::new(WalSeq::zero(), ByteRange::new(0, 4), b"four".to_vec()).is_err());
    let request = WalRequest::new(ByteRange::new(8, 4), b"four".to_vec()).unwrap();
    let record = WalRecord::from_request(WalSeq::new(3), request);
    assert_eq!(record.seq(), WalSeq::new(3));
    assert_eq!(record.range(), ByteRange::new(8, 4));
    assert_eq!(record.data(), b"four");
}

#[test]
fn log_bounds_are_ordered() {
    assert!(WalBounds::new(WalSeq::new(2), WalSeq::new(5)).is_ok());
    assert!(WalBounds::new(WalSeq::new(6), WalSeq::new(5)).is_err());
    assert!(WalPruneResult::new(WalSeq::new(4), WalSeq::new(4), 2).is_ok());
    let error = WalPruneResult::new(WalSeq::new(4), WalSeq::new(5), 2).unwrap_err();
    assert_eq!(
        error.describe(),
        "create WAL prune result: pruned_through 5 is greater than requested_through 4"
    );
}

#[test]
fn job_contexts_describe_requests() {
    let context = ExportJobContext::internal(RequestCookie::new(7), "write");
    assert_eq!(context.cookie().raw(), 7);
    assert_eq!(context.command(), "write");
    assert_eq!(context.connection_id().raw(), 0);
    assert_eq!(context.request_sequence().raw(), 0);
    assert_eq!(ExportRequest::Flush.command_name(), "flush");
}
