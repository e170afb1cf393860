use bytes::Bytes;
use nbd_server::block::{Block, BlockPart};
use nbd_server::catalog::{
    ExportHead, ExportLayoutKind, NodeId, TreeFormat, WalSeq, TREE_CHUNK_BYTES,
};
use nbd_server::committed_read::{CowTreeReader, ZeroTreeReader};
use nbd_server::error::{Result, ServerError};
use nbd_server::overlay::OverlayReadSlice;
use nbd_server::range::ByteRange;
use nbd_server::read_view::ExportReadView;
use nbd_server::root::{validate_request_range, RootSnapshot};
use nbd_server::wal::WalRecord;
use std::sync::Arc;

struct CountingTreeReader {
    data: Vec<u8>,
    reads: usize,
}

impl CountingTreeReader {
    fn new(data: &[u8]) -> Self {
        Self {
            data: data.to_vec(),
            reads: 0,
        }
    }

    fn zeros() -> Self {
        Self {
            data: vec![0; 4096],
            reads: 0,
        }
    }

    fn read_committed(&mut self, range: ByteRange) -> Result<Block> {
        self.reads += 1;
        let start = range.start() as usize;
        let end = start + range.len() as usize;
        Block::new(
            range,
            vec![BlockPart::Data {
                range,
                bytes: Bytes::from(self.data[start..end].to_vec()),
            }],
        )
    }
}

fn read(
    view: &mut ExportReadView,
    reader: &mut CountingTreeReader,
    range: ByteRange,
) -> Result<Vec<u8>> {
    let mut plan = view.plan_read(range)?;
    while let Some(miss) = plan.next_miss() {
        plan.accept(reader.read_committed(miss)?)?;
    }
    let outcome = plan.finish();
    assert!(view.can_cache_blocks(&outcome.fills));
    view.record_read(&outcome)?;
    Ok(outcome.data)
}

fn zero_root(size_bytes: u64) -> RootSnapshot {
    zero_root_at(size_bytes, WalSeq::zero())
}

fn zero_root_at(size_bytes: u64, base_wal_seq: WalSeq) -> RootSnapshot {
    RootSnapshot::zero(None, base_wal_seq, size_bytes)
}

fn cow_head(root_node_id: Option<NodeId>, size_bytes: u64, base_wal_seq: WalSeq) -> ExportHead {
    ExportHead {
        layout_kind: ExportLayoutKind::CowImmutableTree,
        root_node_id,
        size_bytes,
        base_wal_seq,
        tree_format: Some(TreeFormat::Bounded32V1),
    }
}

fn cow_root(root_node_id: Option<NodeId>, size_bytes: u64, base_wal_seq: WalSeq) -> RootSnapshot {
    RootSnapshot::from_head(&cow_head(root_node_id, size_bytes, base_wal_seq)).expect("cow root")
}

fn wal_record(seq: u64, offset: u64, data: &[u8]) -> WalRecord {
    WalRecord::new(
        WalSeq::new(seq),
        ByteRange::new(offset, data.len() as u32),
        data.to_vec(),
    )
    .expect("WAL record")
}

fn overlay_slice_bytes(slice: &OverlayReadSlice) -> &[u8] {
    let start = slice.record_offset as usize;
    let len = (slice.end - slice.start) as usize;
    &slice.record.data()[start..start + len]
}

#[test]
fn read_view_overlay_keeps_only_latest_repeated_write() {
    let mut view = ExportReadView::new(zero_root(4096));
    for (seq, data) in [(1, b"aaaa"), (2, b"bbbb"), (3, b"cccc")] {
        view.apply_wal_record(wal_record(seq, 0, data))
            .expect("apply record");
    }

    assert_eq!(
        read(
            &mut view,
            &mut CountingTreeReader::zeros(),
            ByteRange::new(0, 4)
        )
        .expect("read latest"),
        b"cccc",
    );
    assert_eq!(
        view.overlay().debug_extents(),
        vec![(0, 4, WalSeq::new(3), 0)],
    );
}

#[test]
fn compaction_snapshot_is_absent_without_retained_wal() {
    let view = ExportReadView::new(zero_root(4096));

    assert!(view.capture_compaction_snapshot().is_none());
}

#[test]
fn compaction_snapshot_counts_physical_debt_for_hot_rewrites() {
    let mut view = ExportReadView::new(zero_root(4096));
    for (seq, data) in [(1, b"aaaa"), (2, b"bbbb"), (3, b"cccc")] {
        view.apply_wal_record(wal_record(seq, 0, data))
            .expect("apply record");
    }

    let snapshot = view.capture_compaction_snapshot().expect("snapshot present");

    assert_eq!(snapshot.root.base_wal_seq(), WalSeq::zero());
    assert_eq!(snapshot.target_wal_seq, WalSeq::new(3));
    assert_eq!(snapshot.wal_debt_bytes, 12);
    assert_eq!(
        snapshot.overlay.debug_extents(),
        vec![(0, 4, WalSeq::new(3), 0)],
    );
}

#[test]
fn compaction_snapshot_metadata_clone_reuses_record_arc() {
    let mut view = ExportReadView::new(zero_root(4096));
    view.apply_wal_record(wal_record(1, 0, b"aaaa"))
        .expect("apply record");

    let snapshot = view.capture_compaction_snapshot().expect("snapshot present");
    let snapshot_slice = snapshot
        .overlay
        .read_slices(ByteRange::new(0, 4))
        .expect("read snapshot overlay")
        .pop()
        .expect("snapshot overlay slice");
    let live_slice = view
        .overlay()
        .read_slices(ByteRange::new(0, 4))
        .expect("read live overlay")
        .pop()
        .expect("live overlay slice");

    assert!(Arc::ptr_eq(&snapshot_slice.record, &live_slice.record));
}

#[test]
fn compaction_snapshot_stays_stable_after_later_writes() {
    let mut view = ExportReadView::new(zero_root(4096));
    view.apply_wal_record(wal_record(1, 0, b"aaaa"))
        .expect("apply first record");
    let snapshot = view.capture_compaction_snapshot().expect("snapshot present");
    view.apply_wal_record(wal_record(2, 0, b"bbbb"))
        .expect("apply second record");

    let snapshot_slice = snapshot
        .overlay
        .read_slices(ByteRange::new(0, 4))
        .expect("read snapshot overlay")
        .pop()
        .expect("snapshot overlay slice");

    assert_eq!(snapshot.target_wal_seq, WalSeq::new(1));
    assert_eq!(snapshot.wal_debt_bytes, 4);
    assert_eq!(overlay_slice_bytes(&snapshot_slice), b"aaaa");
    assert_eq!(
        read(
            &mut view,
            &mut CountingTreeReader::zeros(),
            ByteRange::new(0, 4)
        )
        .expect("read latest live view"),
        b"bbbb",
    );
    assert_eq!(
        snapshot.overlay.debug_extents(),
        vec![(0, 4, WalSeq::new(1), 0)],
    );
    assert_eq!(
        view.overlay().debug_extents(),
        vec![(0, 4, WalSeq::new(2), 0)],
    );
}

#[test]
fn read_view_overlay_preserves_middle_split_offsets() {
    let mut view = ExportReadView::new(zero_root(4096));
    view.apply_wal_record(wal_record(1, 0, b"abcdefgh"))
        .expect("apply base record");
    view.apply_wal_record(wal_record(2, 4, b"ZZ"))
        .expect("apply middle record");

    assert_eq!(
        read(
            &mut view,
            &mut CountingTreeReader::zeros(),
            ByteRange::new(0, 8)
        )
        .expect("read split"),
        b"abcdZZgh",
    );
    assert_eq!(
        view.overlay().debug_extents(),
        vec![
            (0, 4, WalSeq::new(1), 0),
            (4, 6, WalSeq::new(2), 0),
            (6, 8, WalSeq::new(1), 6),
        ],
    );
}

#[test]
fn read_view_overlay_requires_contiguous_wal_sequences() {
    let mut view = ExportReadView::new(zero_root(4096));

    let error = view
        .apply_wal_record(wal_record(2, 0, b"skip"))
        .expect_err("reject skipped WAL sequence");

    assert!(matches!(error, ServerError::Wal { .. }));
}

#[test]
fn read_view_cache_serves_warm_tree_reads() {
    let mut reader = CountingTreeReader::new(b"0123456789abcdef");
    let mut view = ExportReadView::new_with_cache_budget(zero_root(4096), 1024);

    assert_eq!(
        read(&mut view, &mut reader, ByteRange::new(0, 4)).expect("cold read"),
        b"0123",
    );
    assert_eq!(reader.reads, 1);
    assert_eq!(
        read(&mut view, &mut reader, ByteRange::new(0, 4)).expect("warm read"),
        b"0123",
    );
    assert_eq!(reader.reads, 1);
}

#[test]
fn read_view_write_trims_stale_cache_range() {
    let mut reader = CountingTreeReader::new(b"0123456789abcdef");
    let mut view = ExportReadView::new_with_cache_budget(zero_root(4096), 1024);
    read(&mut view, &mut reader, ByteRange::new(0, 4)).expect("seed cache");

    view.apply_wal_record(wal_record(1, 1, b"ZZ"))
        .expect("apply write");

    assert_eq!(
        read(&mut view, &mut reader, ByteRange::new(0, 4)).expect("read after write"),
        b"0ZZ3",
    );
    assert_eq!(reader.reads, 1);
}

#[test]
fn read_view_cache_eviction_is_byte_budgeted() {
    let mut reader = CountingTreeReader::new(b"0123456789abcdef");
    let mut view = ExportReadView::new_with_cache_budget(zero_root(4096), 4);

    read(&mut view, &mut reader, ByteRange::new(0, 4)).expect("read first cache object");
    read(&mut view, &mut reader, ByteRange::new(8, 4)).expect("read second cache object");
    assert_eq!(reader.reads, 2);

    read(&mut view, &mut reader, ByteRange::new(0, 4)).expect("read evicted object again");
    assert_eq!(reader.reads, 3);
}

#[test]
fn read_view_advance_root_retires_only_visible_overlay_extents() {
    let mut reader = CountingTreeReader::new(b"bbbb456789abcdef");
    let mut view = ExportReadView::new_with_cache_budget(zero_root(4096), 1024);
    view.apply_wal_record(wal_record(1, 0, b"aaaa"))
        .expect("apply shadowed record");
    view.apply_wal_record(wal_record(2, 0, b"bbbb"))
        .expect("apply visible record");

    assert!(view.can_cache_retained());
    view.advance_root(zero_root_at(4096, WalSeq::new(2)))
        .expect("advance root");

    assert!(view.overlay().debug_extents().is_empty());
    assert_eq!(view.cache().debug_wal_seqs(), vec![2]);

    assert_eq!(
        read(&mut view, &mut reader, ByteRange::new(0, 4)).expect("read retired cache"),
        b"bbbb",
    );
    assert_eq!(reader.reads, 0);
}

#[test]
fn read_view_advance_root_rejects_unapplied_checkpoint() {
    let mut view = ExportReadView::new(zero_root(4096));
    view.apply_wal_record(wal_record(1, 0, b"aaaa"))
        .expect("apply record");

    let error = view
        .advance_root(zero_root_at(4096, WalSeq::new(2)))
        .expect_err("reject unapplied checkpoint");

    assert!(matches!(error, ServerError::Wal { .. }));
    assert_eq!(
        view.overlay().debug_extents(),
        vec![(0, 4, WalSeq::new(1), 0)],
    );
}

#[test]
fn read_view_compaction_advance_subtracts_only_snapshot_debt() {
    let mut view = ExportReadView::new(zero_root(4096));
    view.apply_wal_record(wal_record(1, 0, b"aaaa"))
        .expect("apply snapshot record");
    let snapshot = view.capture_compaction_snapshot().expect("snapshot present");
    view.apply_wal_record(wal_record(2, 8, b"bbbb"))
        .expect("apply later record");

    view.advance_after_compaction(zero_root_at(4096, WalSeq::new(1)), &snapshot)
        .expect("advance after compaction");

    assert_eq!(view.root().base_wal_seq(), WalSeq::new(1));
    assert_eq!(view.wal_debt_bytes(), 4);
    assert_eq!(
        view.overlay().debug_extents(),
        vec![(8, 12, WalSeq::new(2), 0)],
    );
}

#[test]
fn read_view_compaction_advance_rejects_root_beyond_snapshot_target() {
    let mut view = ExportReadView::new(zero_root(4096));
    view.apply_wal_record(wal_record(1, 0, b"aaaa"))
        .expect("apply snapshot record");
    let snapshot = view.capture_compaction_snapshot().expect("snapshot present");
    view.apply_wal_record(wal_record(2, 8, b"bbbb"))
        .expect("apply later record");

    let error = view
        .advance_after_compaction(zero_root_at(4096, WalSeq::new(2)), &snapshot)
        .expect_err("reject root beyond snapshot target");

    assert!(matches!(error, ServerError::Wal { .. }));
    assert_eq!(view.root().base_wal_seq(), WalSeq::zero());
    assert_eq!(view.wal_debt_bytes(), 8);
    assert_eq!(
        view.overlay().debug_extents(),
        vec![(0, 4, WalSeq::new(1), 0), (8, 12, WalSeq::new(2), 0)],
    );
}

#[test]
fn cow_tree_reader_splits_large_sparse_reads_on_chunk_boundaries() {
    let root = cow_root(None, TREE_CHUNK_BYTES * 2, WalSeq::new(7));
    let range = ByteRange::new(0, (TREE_CHUNK_BYTES + 16 * 1024 * 1024) as u32);

    let mut committed = CowTreeReader
        .read_committed(&root, range)
        .expect("read committed root");
    let metadata = CowTreeReader
        .metadata_reader(&root)
        .expect("metadata")
        .expect("tree");
    while let Some(chunk) = committed.next_chunk() {
        assert!(metadata
            .load_leaf(chunk.chunk_index())
            .expect("load leaf")
            .is_none());
        committed.give_zeros();
    }
    let block = committed.finish().expect("block");

    let parts: Vec<ByteRange> = block
        .parts()
        .iter()
        .map(|part| match part {
            BlockPart::Zero { range } => *range,
            BlockPart::Data { .. } => panic!("stored bytes"),
        })
        .collect();
    assert_eq!(
        parts,
        vec![
            ByteRange::new(0, TREE_CHUNK_BYTES as u32),
            ByteRange::new(TREE_CHUNK_BYTES, 16 * 1024 * 1024),
        ],
    );
}

#[test]
fn tree_readers_reject_wrong_root_kind() {
    let zero = RootSnapshot::zero(None, WalSeq::zero(), 4096);

    assert!(matches!(
        CowTreeReader.read_committed(&zero, ByteRange::new(0, 4)),
        Err(ServerError::Catalog { .. }),
    ));

    let cow = cow_root(
        Some(NodeId::new("root-node".to_string())),
        4096,
        WalSeq::new(1),
    );

    assert!(matches!(
        ZeroTreeReader.read_committed(&cow, ByteRange::new(0, 4)),
        Err(ServerError::Catalog { .. }),
    ));
    assert_eq!(
        ZeroTreeReader
            .read_committed(&zero, ByteRange::new(8, 4))
            .expect("zeros")
            .materialize()
            .expect("bytes"),
        vec![0; 4]
    );
}

#[test]
fn a_root_and_its_head_tell_the_same() {
    let head = cow_head(
        Some(NodeId::new("root".to_string())),
        4096,
        WalSeq::new(9),
    );
    let root = RootSnapshot::from_head(&head).expect("root");
    assert_eq!(root.to_export_head(), head);
    assert_eq!(root.size_bytes(), 4096);
    assert_eq!(root.base_wal_seq(), WalSeq::new(9));
    assert!(!root.is_zero_backed());
    let mut other = cow_head(None, 4096, WalSeq::new(9));
    other.layout_kind = ExportLayoutKind::SimpleMutableTree;
    assert!(RootSnapshot::from_head(&other).is_err());
}

#[test]
fn request_ranges_end_inside_the_export() {
    validate_request_range("read", 4092, 4, 4096).expect("range");
    for (offset, len) in [(4093, 4), (u64::MAX, 1)] {
        assert!(matches!(
            validate_request_range("read", offset, len, 4096),
            Err(ServerError::OutOfBounds { .. })
        ));
    }
}

#[test]
fn blocks_are_made_of_adjacent_runs() {
    let part = |start: u64, data: &'static [u8]| BlockPart::Data {
        range: ByteRange::new(start, data.len() as u32),
        bytes: Bytes::from_static(data),
    };
    let block = Block::new(
        ByteRange::new(4, 8),
        vec![
            part(4, b"ab"),
            BlockPart::Zero {
                range: ByteRange::new(6, 4),
            },
            part(10, b"yz"),
        ],
    )
    .expect("block");
    assert_eq!(block.materialize().expect("bytes"), b"ab\0\0\0\0yz");

    for parts in [
        vec![part(4, b"ab")],
        vec![part(4, b"abcd"), part(9, b"xyz")],
        vec![part(4, b"abcdefghi")],
        vec![],
    ] {
        assert!(Block::new(ByteRange::new(4, 8), parts).is_err());
    }
}

#[test]
fn a_plan_refuses_the_bytes_of_another_range() {
    let view = ExportReadView::new(zero_root(4096));
    let mut plan = view.plan_read(ByteRange::new(0, 4)).expect("plan");
    let mut reader = CountingTreeReader::zeros();
    let wrong = reader.read_committed(ByteRange::new(4, 4)).expect("block");
    assert_eq!(
        plan.accept(wrong).unwrap_err().describe(),
        "read committed backing: tree reader returned range ByteRange { start: 4, len: 4 } \
         for requested range ByteRange { start: 0, len: 4 }"
    );
    assert_eq!(plan.next_miss(), Some(ByteRange::new(0, 4)));
}

#[test]
fn moving_the_root_changes_no_byte() {
    let mut view = ExportReadView::new_with_cache_budget(zero_root(4096), 1024);
    let mut reader = CountingTreeReader::zeros();
    view.apply_wal_record(wal_record(1, 100, b"payload"))
        .expect("apply");
    let before = read(&mut view, &mut reader, ByteRange::new(96, 16)).expect("before");
    reader.data[100..107].copy_from_slice(b"payload");
    view.advance_root(zero_root_at(4096, WalSeq::new(1)))
        .expect("advance");
    let after = read(&mut view, &mut reader, ByteRange::new(96, 16)).expect("after");
    assert_eq!(before, after);
    assert_eq!(after, b"\0\0\0\0payload\0\0\0\0\0");
}
