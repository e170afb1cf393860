use bytes::Bytes;
use nbd_server::block::{Block, BlockPart};
use nbd_server::catalog::{
    BlobKey, ChunkIndex, ExportDescriptor, ExportEngineKind, ExportHead, ExportId,
    ExportLayoutKind, ExportName, ExportRecord, TreeEdgeRecord, TreeFormat, TreeNodeRecord, WalSeq,
    TREE_CHUNK_BYTES,
};
use nbd_server::compaction::{
    distinct_records, validate_overlay_slice_range, CompactionOutcome, CompactionResult,
};
use nbd_server::cow_plan::CowLookup;
use nbd_server::error::ServerError;
use nbd_server::export_compaction::{
    CowCompactor, CowTreeSnapshot, ExportCompaction, ExportStart, PublishCompactionOutcome,
};
use nbd_server::overlay::OverlayReadSlice;
use nbd_server::range::ByteRange;
use nbd_server::read_view::{ExportReadView, ReadViewCompactionSnapshot};
use nbd_server::root::RootSnapshot;
use nbd_server::simple_tree::PublishTreeUpdateOutcome;
use nbd_server::snapshot_compaction::{SnapshotCompaction, SnapshotStart};
use nbd_server::tree_plan::ChunkRef;
use nbd_server::wal::{WalBounds, WalRecord};
use nbd_server::wal_durable::{
    advance_after_snapshot_compaction, background_decision, background_result,
    BackgroundCompactionTick, BackgroundDecision, CloseDecision, CompactionPolicy,
    WalDurableEngine, WalReplaySummary,
    DEFAULT_BACKGROUND_WAL_DEBT_COMPACTION_THRESHOLD_BYTES,
    DEFAULT_WAL_DEBT_COMPACTION_THRESHOLD_BYTES,
};
use std::sync::Arc;

fn export_id() -> ExportId {
    ExportId::new("export-a".to_string())
}

fn descriptor() -> ExportDescriptor {
    ExportDescriptor {
        id: export_id(),
        name: ExportName::new("disk-a".to_string()),
        block_size: 4096,
        engine_kind: ExportEngineKind::WalDurable,
    }
}

fn cow_head(size_bytes: u64, base_wal_seq: WalSeq) -> ExportHead {
    ExportHead {
        layout_kind: ExportLayoutKind::CowImmutableTree,
        root_node_id: None,
        size_bytes,
        base_wal_seq,
        tree_format: Some(TreeFormat::Bounded32V1),
    }
}

fn cow_view(size_bytes: u64, base_wal_seq: WalSeq) -> ExportReadView {
    ExportReadView::new(RootSnapshot::from_head(&cow_head(size_bytes, base_wal_seq)).unwrap())
}

fn wal_record(seq: u64, offset: u64, data: &[u8]) -> WalRecord {
    WalRecord::new(
        WalSeq::new(seq),
        ByteRange::new(offset, data.len() as u32),
        data.to_vec(),
    )
    .expect("WAL record")
}

struct Compacted {
    images: Vec<(ChunkIndex, Vec<u8>)>,
    result: CompactionResult,
}

fn compact(snapshot: &ReadViewCompactionSnapshot, base: &[u8]) -> Compacted {
    let mut compaction = match SnapshotCompaction::begin(&export_id(), snapshot) {
        SnapshotStart::Run(compaction) => compaction,
        SnapshotStart::Finished(_) => panic!("there is something to compact"),
    };
    while let Some(chunk) = compaction.next_chunk().expect("next chunk") {
        if chunk == ChunkIndex::new(0) && !base.is_empty() {
            let mut committed = vec![0; TREE_CHUNK_BYTES as usize];
            committed[..base.len()].copy_from_slice(base);
            compaction.chunk_loaded(chunk, committed);
        } else {
            compaction.chunk_missing(chunk);
        }
    }
    let mut planner = compaction.planner().expect("planner");
    let nodes: Vec<TreeNodeRecord> = Vec::new();
    let edges: Vec<TreeEdgeRecord> = Vec::new();
    let mut images = Vec::new();
    for index in 0..compaction.image_count() {
        let image = compaction.image(index);
        images.push((image.chunk_index(), image.data().clone()));
        let blob = BlobKey::new(format!("blob-{index}"));
        let mut plan = planner
            .begin(compaction.stored_chunk(index, blob))
            .expect("plan");
        loop {
            match plan.next_lookup() {
                CowLookup::Step => planner.step(&mut plan),
                CowLookup::LoadNode { node_id } => planner
                    .node_loaded(
                        &mut plan,
                        nodes.iter().find(|node| node.id == node_id).cloned(),
                    )
                    .expect("node"),
                CowLookup::LoadAllEdges { .. } => planner
                    .all_edges_loaded(&mut plan, edges.clone())
                    .expect("edges"),
                CowLookup::LoadChildEdge { .. } => planner
                    .edges_loaded(&mut plan, edges.clone())
                    .expect("edges"),
                CowLookup::Finished => break,
            }
        }
    }
    let (root, records) = planner.finish();
    let update = compaction.update(root, records);
    assert_eq!(update.export_id, export_id());
    assert_eq!(update.next_head.base_wal_seq, snapshot.target_wal_seq);
    let record = ExportRecord {
        descriptor: descriptor(),
        head: update.next_head,
    };
    let result = compaction
        .finish(&PublishTreeUpdateOutcome::Published(record))
        .expect("compact snapshot");
    Compacted { images, result }
}

#[test]
fn compact_snapshot_uses_latest_visible_hot_write() {
    let mut view = cow_view(TREE_CHUNK_BYTES, WalSeq::zero());
    view.apply_wal_record(wal_record(1, 0, b"aaaa"))
        .expect("apply first write");
    view.apply_wal_record(wal_record(2, 0, b"bbbb"))
        .expect("apply second write");
    let snapshot = view.capture_compaction_snapshot().expect("snapshot present");

    let compacted = compact(&snapshot, b"");

    assert_eq!(compacted.result.outcome(), CompactionOutcome::Published);
    assert_eq!(compacted.result.target_wal_seq(), WalSeq::new(2));
    assert_eq!(compacted.result.compacted_records(), 1);
    assert_eq!(compacted.result.written_leaf_blobs(), 1);
    assert_eq!(compacted.images[0].0, ChunkIndex::new(0));
    assert_eq!(&compacted.images[0].1[..4], b"bbbb");
}

#[test]
fn compact_snapshot_groups_visible_extents_by_chunk() {
    let mut view = cow_view(TREE_CHUNK_BYTES, WalSeq::zero());
    view.apply_wal_record(wal_record(1, 0, b"aa"))
        .expect("apply first write");
    view.apply_wal_record(wal_record(2, 4, b"bb"))
        .expect("apply second write");
    let snapshot = view.capture_compaction_snapshot().expect("snapshot present");

    let compacted = compact(&snapshot, b"");

    assert_eq!(compacted.result.outcome(), CompactionOutcome::Published);
    assert_eq!(compacted.result.compacted_records(), 2);
    assert_eq!(compacted.result.written_leaf_blobs(), 1);
    assert_eq!(&compacted.images[0].1[..6], b"aa\0\0bb");
}

#[test]
fn compact_snapshot_applies_overlay_to_committed_chunk() {
    let mut view = cow_view(TREE_CHUNK_BYTES, WalSeq::new(1));
    view.apply_wal_record(wal_record(2, 2, b"ZZ"))
        .expect("apply overlay write");
    let snapshot = view.capture_compaction_snapshot().expect("snapshot present");

    let compacted = compact(&snapshot, b"base");

    assert_eq!(compacted.result.outcome(), CompactionOutcome::Published);
    assert_eq!(compacted.result.target_wal_seq(), WalSeq::new(2));
    assert_eq!(compacted.result.written_leaf_blobs(), 1);
    assert_eq!(&compacted.images[0].1[..4], b"baZZ");
}

#[test]
fn writes_across_chunks_go_into_both() {
    let mut view = cow_view(TREE_CHUNK_BYTES * 2, WalSeq::zero());
    view.apply_wal_record(wal_record(1, TREE_CHUNK_BYTES - 1, b"xy"))
        .expect("apply write");
    let snapshot = view.capture_compaction_snapshot().expect("snapshot present");

    let compacted = compact(&snapshot, b"");

    assert_eq!(compacted.result.compacted_records(), 1);
    assert_eq!(compacted.result.written_leaf_blobs(), 2);
    assert_eq!(compacted.images[0].1.last(), Some(&b'x'));
    assert_eq!(compacted.images[1].0, ChunkIndex::new(1));
    assert_eq!(compacted.images[1].1[0], b'y');
}

#[test]
fn compaction_changes_no_byte() {
    let mut view = cow_view(TREE_CHUNK_BYTES, WalSeq::zero());
    view.apply_wal_record(wal_record(1, 0, b"aaaa")).unwrap();
    let snapshot = view.capture_compaction_snapshot().unwrap();
    view.apply_wal_record(wal_record(2, 2, b"bb")).unwrap();
    let compacted = compact(&snapshot, b"");

    assert!(view.can_cache_retained());
    let pruned = advance_after_snapshot_compaction(&mut view, &compacted.result, &snapshot)
        .expect("advance");
    assert_eq!(pruned, Some(WalSeq::new(1)));
    assert_eq!(view.root().base_wal_seq(), WalSeq::new(1));
    assert_eq!(view.wal_debt_bytes(), 2);

    let range = ByteRange::new(0, 6);
    let mut plan = view.plan_read(range).unwrap();
    while let Some(miss) = plan.next_miss() {
        let start = miss.start() as usize;
        let data = compacted.images[0].1[start..start + miss.len() as usize].to_vec();
        let block = Block::new(
            miss,
            vec![BlockPart::Data {
                range: miss,
                bytes: Bytes::from(data),
            }],
        );
        plan.accept(block.unwrap()).unwrap();
    }
    assert_eq!(plan.finish().data, b"aabb\0\0");
}

#[test]
fn stale_plans_are_no_failure() {
    let mut view = cow_view(TREE_CHUNK_BYTES, WalSeq::zero());
    view.apply_wal_record(wal_record(1, 0, b"aaaa")).unwrap();
    let snapshot = view.capture_compaction_snapshot().unwrap();
    let compaction = match SnapshotCompaction::begin(&export_id(), &snapshot) {
        SnapshotStart::Run(compaction) => compaction,
        SnapshotStart::Finished(_) => panic!("there is something to compact"),
    };
    let record = ExportRecord {
        descriptor: descriptor(),
        head: cow_head(TREE_CHUNK_BYTES, WalSeq::new(1)),
    };
    let result = compaction
        .finish(&PublishTreeUpdateOutcome::StaleHead(record))
        .expect("finish");
    assert_eq!(result.outcome(), CompactionOutcome::StalePlan);
    assert!(result.published_root().is_none());
    let pruned = advance_after_snapshot_compaction(&mut view, &result, &snapshot).unwrap();
    assert_eq!(pruned, None);
    assert_eq!(view.wal_debt_bytes(), 4);
}

fn slice(record: &Arc<WalRecord>, start: u64, end: u64) -> OverlayReadSlice {
    OverlayReadSlice {
        start,
        end,
        record: record.clone(),
        record_offset: 0,
    }
}

#[test]
fn slices_are_checked_before_they_are_compacted() {
    let root = RootSnapshot::from_head(&cow_head(4096, WalSeq::new(1))).unwrap();
    let record = Arc::new(wal_record(2, 0, b"aaaa"));
    let target = WalSeq::new(2);
    validate_overlay_slice_range(&root, target, &slice(&record, 0, 4)).expect("fits");
    for (start, end) in [(4, 3), (4095, 4097), (0, 5)] {
        assert!(
            validate_overlay_slice_range(&root, target, &slice(&record, start, end)).is_err(),
            "{start}..{end}"
        );
    }
    let old = Arc::new(wal_record(1, 0, b"aaaa"));
    assert!(validate_overlay_slice_range(&root, target, &slice(&old, 0, 4)).is_err());
    let late = Arc::new(wal_record(3, 0, b"aaaa"));
    assert!(validate_overlay_slice_range(&root, target, &slice(&late, 0, 4)).is_err());
    assert_eq!(
        distinct_records(&vec![
            slice(&record, 0, 1),
            slice(&late, 1, 2),
            slice(&record, 2, 3)
        ]),
        2
    );
}

fn tree_snapshot(base: u64) -> CowTreeSnapshot {
    CowTreeSnapshot {
        root_node_id: None,
        size_bytes: TREE_CHUNK_BYTES,
        base_wal_seq: WalSeq::new(base),
        chunks: vec![ChunkRef::whole(
            ChunkIndex::new(0),
            BlobKey::new("base".to_string()),
        )],
    }
}

#[test]
fn exports_are_compacted_from_their_log() {
    let bounds = WalBounds::new(WalSeq::zero(), WalSeq::new(9)).unwrap();
    let mut compaction =
        match ExportCompaction::begin(&export_id(), tree_snapshot(1), &bounds, WalSeq::new(3)) {
            ExportStart::Run(compaction) => compaction,
            ExportStart::Finished(_) => panic!("there is something to compact"),
        };
    assert_eq!(compaction.base_wal_seq(), WalSeq::new(1));
    assert_eq!(compaction.target_wal_seq(), WalSeq::new(3));
    assert_eq!(
        compaction.no_records().unwrap().outcome(),
        CompactionOutcome::NoRecords
    );
    for record in [wal_record(2, 0, b"aaaa"), wal_record(3, 2, b"bb")] {
        compaction.record_replayed(Arc::new(record)).expect("replay");
        while let Some(load) = compaction.next_chunk() {
            assert_eq!(load.key.unwrap().as_str(), "base");
            let mut committed = vec![0; TREE_CHUNK_BYTES as usize];
            committed[..6].copy_from_slice(b"zzzzzz");
            compaction.chunk_loaded(load.chunk_index, committed);
        }
    }
    assert!(compaction.no_records().is_none());
    assert_eq!(compaction.image_count(), 1);
    assert_eq!(&compaction.image(0).data()[..6], b"aabbzz");
    let publication = compaction.publication(&vec![BlobKey::new("new".to_string())]);
    assert_eq!(publication.chunks[0].chunk_index(), ChunkIndex::new(0));
    assert_eq!(publication.chunks[0].blob_key().as_str(), "new");
    assert_eq!(publication.compacted_through, WalSeq::new(3));
    assert_eq!(publication.chunks.len(), 1);
    assert_eq!(publication.expected_base.base_wal_seq, WalSeq::new(1));
    let result = compaction.finish(PublishCompactionOutcome::Published);
    assert_eq!(result.outcome(), CompactionOutcome::Published);
    assert_eq!(result.compacted_records(), 2);
    assert_eq!(result.written_leaf_blobs(), 1);
}

#[test]
fn log_compaction_changes_no_byte() {
    let bounds = WalBounds::new(WalSeq::zero(), WalSeq::new(2)).unwrap();
    let mut snapshot = tree_snapshot(0);
    snapshot.size_bytes = TREE_CHUNK_BYTES * 3;
    let mut compaction =
        match ExportCompaction::begin(&export_id(), snapshot, &bounds, WalSeq::new(9)) {
            ExportStart::Run(compaction) => compaction,
            ExportStart::Finished(_) => panic!("there is something to compact"),
        };
    let mut loads = Vec::new();
    for record in [
        wal_record(1, TREE_CHUNK_BYTES * 2 - 1, b"xy"),
        wal_record(2, TREE_CHUNK_BYTES * 2, b"z"),
    ] {
        compaction.record_replayed(Arc::new(record)).expect("replay");
        while let Some(load) = compaction.next_chunk() {
            assert!(load.key.is_none());
            loads.push(load.chunk_index.get());
            compaction.chunk_missing(load.chunk_index);
        }
    }
    assert_eq!(loads, vec![1, 2]);
    assert_eq!(compaction.image_count(), 2);
    let first = compaction.image(0).data();
    assert_eq!(first.last(), Some(&b'x'));
    assert!(first[..first.len() - 1].iter().all(|byte| *byte == 0));
    let second = compaction.image(1).data();
    assert_eq!(second[0], b'z');
    assert!(second[1..].iter().all(|byte| *byte == 0));
    let keys = vec![
        BlobKey::new("one".to_string()),
        BlobKey::new("two".to_string()),
    ];
    let chunks: Vec<(u64, String)> = compaction
        .publication(&keys)
        .chunks
        .iter()
        .map(|chunk| {
            (
                chunk.chunk_index().get(),
                chunk.blob_key().as_str().to_string(),
            )
        })
        .collect();
    assert_eq!(
        chunks,
        vec![
            (0, "base".to_string()),
            (1, "one".to_string()),
            (2, "two".to_string())
        ]
    );
}

#[test]
fn snapshots_are_compacted_into_listed_chunks() {
    let mut view = cow_view(TREE_CHUNK_BYTES * 2, WalSeq::zero());
    view.apply_wal_record(wal_record(1, TREE_CHUNK_BYTES, b"aa"))
        .unwrap();
    let snapshot = view.capture_compaction_snapshot().unwrap();
    let mut compaction = match SnapshotCompaction::begin(&export_id(), &snapshot) {
        SnapshotStart::Run(compaction) => compaction,
        SnapshotStart::Finished(_) => panic!("there is something to compact"),
    };
    assert_eq!(compaction.image_count(), 0);
    let chunk = compaction.next_chunk().unwrap().unwrap();
    assert_eq!(chunk, ChunkIndex::new(1));
    compaction.chunk_missing(chunk);
    assert!(compaction.next_chunk().unwrap().is_none());
    let listed = tree_snapshot(0).chunks;
    let keys = vec![BlobKey::new("new".to_string())];
    let publication = compaction.publication(&listed, &keys);
    assert_eq!(publication.compacted_through, WalSeq::new(1));
    assert_eq!(publication.expected_base.base_wal_seq, WalSeq::zero());
    assert_eq!(publication.chunks.len(), 2);
    assert_eq!(publication.chunks[0].blob_key().as_str(), "base");
    assert_eq!(publication.chunks[1].blob_key().as_str(), "new");
    let result = compaction.finish_publication(PublishCompactionOutcome::AlreadyCovered);
    assert_eq!(result.outcome(), CompactionOutcome::AlreadyCovered);
    assert_eq!(result.written_leaf_blobs(), 1);
    assert!(result.published_root().is_none());
}

#[test]
fn logs_that_are_covered_need_no_compaction() {
    let bounds = WalBounds::new(WalSeq::zero(), WalSeq::new(9)).unwrap();
    match ExportCompaction::begin(&export_id(), tree_snapshot(3), &bounds, WalSeq::new(3)) {
        ExportStart::Finished(result) => {
            assert_eq!(result.outcome(), CompactionOutcome::AlreadyCovered)
        }
        ExportStart::Run(_) => panic!("nothing is left to compact"),
    }
}

#[test]
fn direct_compaction_needs_the_list_of_chunks() {
    CowCompactor::new().check_direct().expect("lists chunks");
    assert!(CowCompactor::new_lazy().check_direct().is_err());
}

fn policy(soft: u64, hard: u64) -> CompactionPolicy {
    CompactionPolicy {
        background_wal_debt_threshold_bytes: soft,
        hard_wal_debt_threshold_bytes: hard,
    }
}

fn written(data: &[u8]) -> ExportReadView {
    let mut view = cow_view(TREE_CHUNK_BYTES, WalSeq::zero());
    view.apply_wal_record(wal_record(1, 0, data)).expect("write");
    view
}

#[test]
fn background_tick_skips_below_soft_threshold() {
    assert!(matches!(
        background_decision(&policy(5, 10), &written(b"abcd")),
        BackgroundDecision::Skip(BackgroundCompactionTick::SkippedBelowSoftThreshold)
    ));
}

#[test]
fn background_tick_compacts_at_soft_threshold_below_hard() {
    let mut view = written(b"abcde");
    let snapshot = match background_decision(&policy(5, 10), &view) {
        BackgroundDecision::Compact(snapshot) => snapshot,
        other => panic!("{other:?}"),
    };
    let result = Ok(compact(&snapshot, b"").result);
    assert_eq!(
        background_result(&result),
        BackgroundCompactionTick::Compacted(CompactionOutcome::Published),
    );
    advance_after_snapshot_compaction(&mut view, &result.unwrap(), &snapshot).expect("advance");
    assert_eq!(view.wal_debt_bytes(), 0);
    assert_eq!(view.export_head().base_wal_seq, WalSeq::new(1));
    assert_eq!(
        background_result(&Err(ServerError::catalog("gone".to_string()))),
        BackgroundCompactionTick::Failed
    );
}

#[test]
fn background_tick_skips_at_hard_threshold() {
    assert!(matches!(
        background_decision(&policy(5, 10), &written(b"abcdefghij")),
        BackgroundDecision::Skip(BackgroundCompactionTick::SkippedAtHardThreshold)
    ));
}

#[test]
fn usual_thresholds() {
    let usual = CompactionPolicy::default();
    assert_eq!(
        usual.background_wal_debt_threshold_bytes,
        DEFAULT_BACKGROUND_WAL_DEBT_COMPACTION_THRESHOLD_BYTES
    );
    assert_eq!(
        usual.hard_wal_debt_threshold_bytes,
        DEFAULT_WAL_DEBT_COMPACTION_THRESHOLD_BYTES
    );
    assert_eq!(DEFAULT_WAL_DEBT_COMPACTION_THRESHOLD_BYTES, 2 * 1024 * 1024 * 1024);
    assert_eq!(
        CompactionPolicy::with_hard_threshold(7).hard_wal_debt_threshold_bytes,
        7
    );
}

#[test]
fn engines_write_to_the_log_and_compact_under_pressure() {
    let head = cow_head(TREE_CHUNK_BYTES, WalSeq::zero());
    let mut engine =
        WalDurableEngine::open_with_cow_tree_and_wal_debt_threshold(&descriptor(), &head, 8)
            .expect("engine");
    assert_eq!(engine.export_head(), head);
    let request = engine.write(4, b"abcd".to_vec()).unwrap().expect("request");
    engine
        .written(WalRecord::from_request(WalSeq::new(1), request))
        .expect("written");
    assert_eq!(engine.wal_debt_bytes(), 4);
    assert!(engine.write_pressure().is_none());
    assert!(engine.write(0, Vec::new()).unwrap().is_none());
    assert!(engine.write(TREE_CHUNK_BYTES, b"x".to_vec()).is_err());
    let request = engine.write(0, b"wxyz".to_vec()).unwrap().expect("request");
    engine
        .written(WalRecord::from_request(WalSeq::new(2), request))
        .expect("written");
    let snapshot = engine.write_pressure().expect("pressure");
    assert_eq!(snapshot.target_wal_seq, WalSeq::new(2));
    assert!(matches!(engine.close(), Some(CloseDecision::Compact(_))));

    let plan = engine.read(0, 8).expect("read");
    assert_eq!(plan.next_miss(), None);
    assert_eq!(plan.finish().data, b"wxyzabcd");
    assert!(engine.read(TREE_CHUNK_BYTES - 1, 2).is_err());
}

#[test]
fn replayed_logs_restore_the_view() {
    let head = cow_head(TREE_CHUNK_BYTES, WalSeq::new(4));
    let mut engine = WalDurableEngine::open_with_cow_tree(&descriptor(), &head).expect("engine");
    let mut summary = WalReplaySummary::new(engine.read_view().root());
    for record in [wal_record(5, 0, b"ab"), wal_record(6, 1, b"c")] {
        summary
            .replay(engine.read_view_mut(), record)
            .expect("replay");
    }
    assert_eq!(summary.replayed_records, 2);
    assert_eq!(summary.replayed_through_wal_seq, WalSeq::new(6));
    assert_eq!(engine.wal_debt_bytes(), 3);
    assert!(summary
        .replay(engine.read_view_mut(), wal_record(9, 1, b"c"))
        .is_err());
}
