use nbd_server::catalog::{
    BlobKey, ChunkIndex, ExportDescriptor, ExportEngineKind, ExportHead, ExportId,
    ExportLayoutKind, ExportName, ExportRecord, NodeId, TreeEdgeRecord, TreeFormat,
    TreeLeafRefRecord, TreeNodeRecord, TreeStorageKind, WalSeq, SIMPLE_CHUNK_BYTES,
    TREE_CHUNK_BYTES,
};
use nbd_server::cow_plan::{CowLookup, CowTreePublishPlanner};
use nbd_server::error::{Result, ServerError};
use nbd_server::export::{ExportAdmissionPolicy, ExportRequest};
use nbd_server::geometry::TreeGeometry;
use nbd_server::identity::generated_node_id;
use nbd_server::leaf_walk::{LazyTreeMetadataReader, LoadedTreeLeaf, TreeLookup};
use nbd_server::range::ByteRange;
use nbd_server::simple_durable::{SimpleDurableAdmissionPolicy, SimpleDurableEngine};
use nbd_server::simple_plan::{PlanLookup, SimpleTreeCommitPlanner};
use nbd_server::simple_tree::{
    CommitStep, PublishTreeUpdateOutcome, SimpleCommit, SimpleMutableTree,
};
use nbd_server::tree_plan::{ChunkRef, TreeRecordBatch};

#[derive(Default)]
struct Store {
    nodes: Vec<TreeNodeRecord>,
    edges: Vec<TreeEdgeRecord>,
    leaf_refs: Vec<TreeLeafRefRecord>,
}

impl Store {
    fn node(&self, id: &NodeId) -> Option<TreeNodeRecord> {
        self.nodes.iter().find(|node| node.id == *id).cloned()
    }

    fn edge(&self, parent: &NodeId, slot: u16) -> Vec<TreeEdgeRecord> {
        self.edges
            .iter()
            .filter(|edge| edge.parent_node_id == *parent && edge.slot == slot)
            .cloned()
            .collect()
    }

    fn edges_below(&self, parent: &NodeId) -> Vec<TreeEdgeRecord> {
        self.edges
            .iter()
            .filter(|edge| edge.parent_node_id == *parent)
            .cloned()
            .collect()
    }

    fn publish(&mut self, records: TreeRecordBatch) {
        self.nodes.extend(records.nodes);
        self.edges.extend(records.edges);
        self.leaf_refs.extend(records.leaf_refs);
    }

    fn leaf(
        &self,
        reader: &LazyTreeMetadataReader,
        chunk: ChunkIndex,
    ) -> Result<Option<LoadedTreeLeaf>> {
        let Some(mut walk) = reader.load_leaf(chunk)? else {
            return Ok(None);
        };
        loop {
            match walk.next_lookup() {
                TreeLookup::LoadNode { node_id } => walk.node_loaded(self.node(&node_id))?,
                TreeLookup::LoadChildEdge {
                    parent_node_id,
                    slot,
                } => walk.edges_loaded(self.edge(&parent_node_id, slot))?,
                TreeLookup::LoadLeafRefs { node_id } => walk.leaf_refs_loaded(
                    self.leaf_refs
                        .iter()
                        .filter(|leaf_ref| leaf_ref.node_id == node_id)
                        .cloned()
                        .collect(),
                )?,
                TreeLookup::Finished => return Ok(walk.finish()),
            }
        }
    }

    fn key(&self, reader: &LazyTreeMetadataReader, chunk: u64) -> Option<String> {
        self.leaf(reader, ChunkIndex::new(chunk))
            .expect("walk")
            .map(|leaf| leaf.leaf_ref().storage_key.as_str().to_string())
    }
}

fn key(text: &str) -> BlobKey {
    BlobKey::new(text.to_string())
}

fn chunk(index: u64, blob: &str) -> ChunkRef {
    ChunkRef::new(ChunkIndex::new(index), key(blob), TREE_CHUNK_BYTES).expect("chunk")
}

fn export_id() -> ExportId {
    ExportId::new("export-a".to_string())
}

fn plan_simple(store: &Store, planner: &mut SimpleTreeCommitPlanner, chunk: ChunkRef) -> Result<()> {
    if planner.root_node_id().is_none() {
        planner.add_root(generated_node_id());
    }
    let mut plan = planner.begin(chunk)?;
    loop {
        match plan.next_lookup() {
            PlanLookup::Step => planner.step(&mut plan)?,
            PlanLookup::LoadChildEdge {
                parent_node_id,
                slot,
            } => planner.edges_loaded(&mut plan, store.edge(&parent_node_id, slot))?,
            PlanLookup::LoadNode { node_id } => plan.node_loaded(store.node(&node_id))?,
            PlanLookup::Finished => return Ok(()),
        }
    }
}

fn plan_cow(store: &Store, planner: &mut CowTreePublishPlanner, chunk: ChunkRef) -> Result<()> {
    let mut plan = planner.begin(chunk)?;
    loop {
        match plan.next_lookup() {
            CowLookup::Step => planner.step(&mut plan),
            CowLookup::LoadNode { node_id } => {
                planner.node_loaded(&mut plan, store.node(&node_id))?
            }
            CowLookup::LoadAllEdges { parent_node_id } => {
                planner.all_edges_loaded(&mut plan, store.edges_below(&parent_node_id))?
            }
            CowLookup::LoadChildEdge {
                parent_node_id,
                slot,
            } => planner.edges_loaded(&mut plan, store.edge(&parent_node_id, slot))?,
            CowLookup::Finished => return Ok(()),
        }
    }
}

#[test]
fn chunks_are_whole_blobs() {
    assert!(ChunkRef::new(ChunkIndex::new(0), key("k"), TREE_CHUNK_BYTES - 1).is_err());
    let chunk = ChunkRef::whole(ChunkIndex::new(3), key("k"));
    assert_eq!(chunk.chunk_index(), ChunkIndex::new(3));
    assert_eq!(chunk.blob_key().as_str(), "k");
}

#[test]
fn planned_leaves_are_found_and_others_stay() {
    let geometry = TreeGeometry::new(TreeFormat::Bounded32V1, TREE_CHUNK_BYTES * 64).unwrap();
    let mut store = Store::default();

    let mut planner = SimpleTreeCommitPlanner::new(geometry, &export_id(), &None);
    plan_simple(&store, &mut planner, chunk(0, "zero")).expect("first");
    plan_simple(&store, &mut planner, chunk(63, "last")).expect("second");
    let (root, records) = planner.finish();
    assert_eq!(records.nodes.len(), 5);
    assert_eq!(records.edges.len(), 4);
    assert_eq!(records.leaf_refs.len(), 2);
    store.publish(records);

    let mut planner = SimpleTreeCommitPlanner::new(geometry, &export_id(), &root);
    plan_simple(&store, &mut planner, chunk(1, "one")).expect("third");
    let (next_root, records) = planner.finish();
    assert_eq!(next_root, root);
    assert_eq!(records.nodes.len(), 1, "the inner nodes exist already");
    store.publish(records);

    let reader =
        LazyTreeMetadataReader::new(geometry, ExportLayoutKind::SimpleMutableTree, next_root);
    assert_eq!(store.key(&reader, 0), Some("zero".to_string()));
    assert_eq!(store.key(&reader, 1), Some("one".to_string()));
    assert_eq!(store.key(&reader, 63), Some("last".to_string()));
    assert_eq!(store.key(&reader, 2), None);
}

#[test]
fn mutable_trees_take_each_chunk_once() {
    let geometry = TreeGeometry::new(TreeFormat::Bounded32V1, TREE_CHUNK_BYTES * 2).unwrap();
    let store = Store::default();
    let mut planner = SimpleTreeCommitPlanner::new(geometry, &export_id(), &None);
    plan_simple(&store, &mut planner, chunk(0, "zero")).expect("first");
    assert!(plan_simple(&store, &mut planner, chunk(0, "again")).is_err());
    assert!(plan_simple(&store, &mut planner, chunk(2, "outside")).is_err());
}

#[test]
fn copied_trees_share_what_did_not_change() {
    let geometry = TreeGeometry::new(TreeFormat::Bounded32V1, TREE_CHUNK_BYTES * 64).unwrap();
    let mut store = Store::default();

    let mut planner = CowTreePublishPlanner::new(geometry, &export_id(), &None);
    plan_cow(&store, &mut planner, chunk(0, "zero")).expect("first");
    plan_cow(&store, &mut planner, chunk(40, "forty")).expect("second");
    let (first_root, records) = planner.finish();
    store.publish(records);

    let mut planner =
        CowTreePublishPlanner::new(geometry, &export_id(), &Some(first_root.clone()));
    assert_ne!(planner.new_root_node_id().as_str(), first_root.as_str());
    plan_cow(&store, &mut planner, chunk(1, "one")).expect("third");
    plan_cow(&store, &mut planner, chunk(0, "zero again")).expect("fourth");
    let (second_root, records) = planner.finish();
    assert_eq!(records.leaf_refs.len(), 2);
    store.publish(records);

    let at = |root: NodeId| {
        LazyTreeMetadataReader::new(geometry, ExportLayoutKind::CowImmutableTree, Some(root))
    };
    let old = at(first_root);
    assert_eq!(store.key(&old, 0), Some("zero".to_string()));
    assert_eq!(store.key(&old, 1), None);
    assert_eq!(store.key(&old, 40), Some("forty".to_string()));
    let new = at(second_root);
    assert_eq!(store.key(&new, 0), Some("zero again".to_string()));
    assert_eq!(store.key(&new, 1), Some("one".to_string()));
    assert_eq!(store.key(&new, 40), Some("forty".to_string()));
    assert_eq!(store.key(&new, 41), None);
}

#[test]
fn copies_of_missing_nodes_fail() {
    let geometry = TreeGeometry::new(TreeFormat::Bounded32V1, TREE_CHUNK_BYTES * 64).unwrap();
    let lost = Some(NodeId::new("lost".to_string()));
    let mut planner = CowTreePublishPlanner::new(geometry, &export_id(), &lost);
    assert!(plan_cow(&Store::default(), &mut planner, chunk(0, "zero")).is_err());
}

fn descriptor() -> ExportDescriptor {
    ExportDescriptor {
        id: export_id(),
        name: ExportName::new("disk-a".to_string()),
        block_size: 4096,
        engine_kind: ExportEngineKind::SimpleDurable,
    }
}

fn head(size_bytes: u64, root_node_id: Option<NodeId>) -> ExportHead {
    ExportHead {
        layout_kind: ExportLayoutKind::SimpleMutableTree,
        root_node_id,
        size_bytes,
        base_wal_seq: WalSeq::zero(),
        tree_format: Some(TreeFormat::Bounded32V1),
    }
}

#[test]
fn committed_chunks_are_known() {
    let size = SIMPLE_CHUNK_BYTES * 4;
    let mut store = Store::default();
    let mut tree = SimpleMutableTree::load(&descriptor(), &head(size, None)).expect("tree");
    assert_eq!(tree.size_bytes(), size);
    assert!(tree.known_chunk(ChunkIndex::new(1)).is_none());

    let mut commit = SimpleCommit::new(vec![chunk(1, "one"), chunk(2, "two")]);
    while let CommitStep::LookUp(index) = commit.next_step().expect("lookup") {
        let found = store
            .leaf(&tree.metadata_reader(), index)
            .expect("walk")
            .is_some();
        commit.looked_up(found).expect("new chunk");
    }
    let mut planner = tree.planner();
    for chunk in commit.chunks() {
        plan_simple(&store, &mut planner, chunk.clone()).expect("plan");
    }
    let (next_root, records) = planner.finish();
    let update = tree.update(&next_root, records);
    assert_eq!(update.expected_head, head(size, None));
    assert_eq!(update.next_head.root_node_id, next_root);
    store.publish(update.records);
    let record = ExportRecord {
        descriptor: descriptor(),
        head: update.next_head,
    };
    tree.published(
        &PublishTreeUpdateOutcome::Published(record),
        next_root,
        commit.chunks(),
    )
    .expect("published");
    assert_eq!(
        tree.known_chunk(ChunkIndex::new(2)).unwrap().as_str(),
        "two"
    );

    let mut other =
        SimpleMutableTree::load(&descriptor(), &tree.export_head()).expect("same tree");
    let leaf = store
        .leaf(&other.metadata_reader(), ChunkIndex::new(1))
        .expect("walk")
        .expect("leaf");
    assert_eq!(other.remember_leaf(&leaf).expect("blob").as_str(), "one");
    assert_eq!(
        other.known_chunk(ChunkIndex::new(1)).unwrap().as_str(),
        "one"
    );
}

#[test]
fn commits_refuse_chunks_that_exist() {
    let mut commit = SimpleCommit::new(vec![chunk(1, "one")]);
    assert_eq!(
        commit.next_step().unwrap(),
        CommitStep::LookUp(ChunkIndex::new(1))
    );
    assert!(commit.looked_up(true).is_err());
    let mut twice = SimpleCommit::new(vec![chunk(1, "one"), chunk(1, "two")]);
    twice.next_step().expect("first");
    twice.looked_up(false).expect("new");
    assert!(twice.next_step().is_err());
}

#[test]
fn empty_commits_ask_nothing_of_the_catalog() {
    let commit = SimpleCommit::new(Vec::new());
    assert_eq!(commit.next_step().unwrap(), CommitStep::Nothing);
    let mut commit = SimpleCommit::new(vec![chunk(4, "four")]);
    commit.looked_up(false).expect("new");
    assert_eq!(commit.next_step().unwrap(), CommitStep::Publish);
}

#[test]
fn stale_heads_are_errors() {
    let mut tree =
        SimpleMutableTree::load(&descriptor(), &head(SIMPLE_CHUNK_BYTES, None)).expect("tree");
    let other = ExportRecord {
        descriptor: descriptor(),
        head: head(SIMPLE_CHUNK_BYTES, Some(NodeId::new("other".to_string()))),
    };
    let error = tree
        .published(
            &PublishTreeUpdateOutcome::StaleHead(other),
            Some(NodeId::new("mine".to_string())),
            &vec![chunk(0, "zero")],
        )
        .unwrap_err();
    assert!(matches!(error, ServerError::Catalog { .. }));
    assert!(tree.known_chunk(ChunkIndex::new(0)).is_none());
    assert_eq!(tree.export_head(), head(SIMPLE_CHUNK_BYTES, None));
}

#[test]
fn trees_of_another_layout_are_not_loaded() {
    let mut other = head(SIMPLE_CHUNK_BYTES, None);
    other.layout_kind = ExportLayoutKind::CowImmutableTree;
    assert!(SimpleMutableTree::load(&descriptor(), &other).is_err());
    assert!(SimpleDurableEngine::load(&descriptor(), &other).is_err());
}

#[test]
fn writes_claim_whole_chunks() {
    let policy = SimpleDurableAdmissionPolicy::new(SIMPLE_CHUNK_BYTES * 2 + 4096);
    assert_eq!(
        policy.chunk_aligned_write(10, 4).unwrap(),
        ByteRange::new(0, SIMPLE_CHUNK_BYTES as u32)
    );
    assert_eq!(
        policy.chunk_aligned_write(SIMPLE_CHUNK_BYTES - 1, 2).unwrap(),
        ByteRange::new(0, (SIMPLE_CHUNK_BYTES * 2) as u32)
    );
    assert_eq!(
        policy.chunk_aligned_write(SIMPLE_CHUNK_BYTES * 2, 4).unwrap(),
        ByteRange::new(SIMPLE_CHUNK_BYTES * 2, 4096)
    );
    assert!(policy
        .operation_for(&ExportRequest::Write {
            offset: SIMPLE_CHUNK_BYTES * 2 + 4095,
            data: b"ab".to_vec()
        })
        .is_err());
}

#[test]
fn writes_reach_every_chunk_and_read_back() {
    let size = SIMPLE_CHUNK_BYTES * 2;
    let engine = SimpleDurableEngine::load(&descriptor(), &head(size, None)).expect("engine");
    assert_eq!(engine.name().as_str(), "disk-a");
    assert_eq!(engine.block_size(), 4096);
    let mut write = engine
        .write(SIMPLE_CHUNK_BYTES - 2, b"abcd".to_vec())
        .expect("write");
    assert_eq!(write.next_chunk(), Some(ChunkIndex::new(0)));
    let mut stored = vec![9; SIMPLE_CHUNK_BYTES as usize];
    write.patch(&mut stored);
    write.chunk_overwritten();
    assert_eq!(write.next_chunk(), Some(ChunkIndex::new(1)));
    let image = write.new_image();
    write.chunk_stored(key("second"));
    assert_eq!(write.next_chunk(), None);
    let new_chunks = write.finish();
    assert_eq!(new_chunks.len(), 1);
    assert_eq!(new_chunks[0].chunk_index(), ChunkIndex::new(1));
    assert_eq!(new_chunks[0].blob_key().as_str(), "second");

    let edge = SIMPLE_CHUNK_BYTES as usize - 3;
    assert_eq!(&stored[edge..], b"\x09ab");
    assert_eq!(image.len(), SIMPLE_CHUNK_BYTES as usize);
    assert_eq!(&image[..3], b"cd\0");

    let mut read = engine.read(SIMPLE_CHUNK_BYTES - 3, 6).expect("read");
    for image in [&stored, &image] {
        let blob = read.blob_read(key("any"));
        let start = blob.offset as usize;
        read.give_data(image[start..start + blob.length as usize].to_vec());
    }
    assert_eq!(
        read.finish().unwrap().materialize().unwrap(),
        b"\x09abcd\0"
    );
    assert!(engine.write(size - 1, b"ab".to_vec()).is_err());
    assert!(engine.read(size - 1, 2).is_err());
}

#[test]
fn simple_tree_reader_reads_from_snapshot() {
    let mut chunk_data = vec![0; 4096];
    chunk_data[8..12].copy_from_slice(b"tree");
    let engine = SimpleDurableEngine::load(&descriptor(), &head(4096, None)).expect("engine");

    let mut read = engine.read(8, 4).expect("read committed tree");
    assert_eq!(read.next_chunk().unwrap().chunk_index(), ChunkIndex::new(0));
    let blob = read.blob_read(key("chunk"));
    let start = blob.offset as usize;
    read.give_data(chunk_data[start..start + blob.length as usize].to_vec());
    let block = read.finish().expect("block");

    assert_eq!(block.parts().len(), 1);
    assert_eq!(block.parts()[0].range(), ByteRange::new(8, 4));
    assert_eq!(block.materialize().expect("materialize"), b"tree");
}

#[test]
fn simple_tree_reader_splits_large_sparse_reads_on_chunk_boundaries() {
    let size = SIMPLE_CHUNK_BYTES * 2;
    let engine = SimpleDurableEngine::load(&descriptor(), &head(size, None)).expect("engine");
    let length = (SIMPLE_CHUNK_BYTES + 16 * 1024 * 1024) as u32;

    let mut read = engine.read(0, length).expect("read committed tree");
    while let Some(chunk) = read.next_chunk() {
        assert!(engine.tree().known_chunk(chunk.chunk_index()).is_none());
        read.give_zeros();
    }
    let block = read.finish().expect("block");

    let ranges: Vec<ByteRange> = block.parts().iter().map(|part| part.range()).collect();
    assert_eq!(
        ranges,
        vec![
            ByteRange::new(0, SIMPLE_CHUNK_BYTES as u32),
            ByteRange::new(SIMPLE_CHUNK_BYTES, 16 * 1024 * 1024),
        ],
    );
}

#[test]
fn leaves_of_mutable_trees_are_mutable_blobs() {
    let geometry = TreeGeometry::new(TreeFormat::Bounded32V1, TREE_CHUNK_BYTES).unwrap();
    let store = Store::default();
    let mut simple = SimpleTreeCommitPlanner::new(geometry, &export_id(), &None);
    plan_simple(&store, &mut simple, chunk(0, "zero")).expect("plan");
    assert_eq!(
        simple.finish().1.leaf_refs[0].storage_kind,
        TreeStorageKind::MutableBlob
    );
    let mut cow = CowTreePublishPlanner::new(geometry, &export_id(), &None);
    plan_cow(&store, &mut cow, chunk(0, "zero")).expect("plan");
    assert_eq!(
        cow.finish().1.leaf_refs[0].storage_kind,
        TreeStorageKind::ImmutableBlob
    );
}
