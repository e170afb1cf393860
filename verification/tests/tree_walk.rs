use nbd_server::block::BlockPart;
use nbd_server::catalog::{
    BlobKey, ChunkIndex, ExportHead, ExportId, ExportLayoutKind, NodeId, TreeEdgeRecord,
    TreeFormat, TreeLeafRefRecord, TreeNodeRecord, TreeStorageKind, WalSeq, TREE_CHUNK_BYTES,
};
use nbd_server::committed_read::CowTreeReader;
use nbd_server::error::Result;
use nbd_server::geometry::TreeGeometry;
use nbd_server::leaf_walk::{LazyTreeMetadataReader, LoadedTreeLeaf, TreeLookup};
use nbd_server::range::ByteRange;
use nbd_server::root::RootSnapshot;
use nbd_server::tree_records::TreeRecordFactory;

#[derive(Debug, PartialEq)]
enum StoreCall {
    LoadNode(String),
    LoadChildEdge(String, u16),
    LoadLeafRefs(String),
}

#[derive(Default)]
struct FakeTreeRecordStore {
    nodes: Vec<TreeNodeRecord>,
    edges: Vec<TreeEdgeRecord>,
    leaf_refs: Vec<TreeLeafRefRecord>,
    calls: Vec<StoreCall>,
}

impl FakeTreeRecordStore {
    fn load_leaf(
        &mut self,
        reader: &LazyTreeMetadataReader,
        chunk: ChunkIndex,
    ) -> Result<Option<LoadedTreeLeaf>> {
        let Some(mut walk) = reader.load_leaf(chunk)? else {
            return Ok(None);
        };
        loop {
            match walk.next_lookup() {
                TreeLookup::LoadNode { node_id } => {
                    self.calls
                        .push(StoreCall::LoadNode(node_id.as_str().to_string()));
                    let node = self
                        .nodes
                        .iter()
                        .find(|node| node.id == node_id)
                        .cloned();
                    walk.node_loaded(node)?;
                }
                TreeLookup::LoadChildEdge {
                    parent_node_id,
                    slot,
                } => {
                    self.calls.push(StoreCall::LoadChildEdge(
                        parent_node_id.as_str().to_string(),
                        slot,
                    ));
                    let edges = self
                        .edges
                        .iter()
                        .filter(|edge| edge.parent_node_id == parent_node_id && edge.slot == slot)
                        .cloned()
                        .collect();
                    walk.edges_loaded(edges)?;
                }
                TreeLookup::LoadLeafRefs { node_id } => {
                    self.calls
                        .push(StoreCall::LoadLeafRefs(node_id.as_str().to_string()));
                    let leaf_refs = self
                        .leaf_refs
                        .iter()
                        .filter(|leaf_ref| leaf_ref.node_id == node_id)
                        .cloned()
                        .collect();
                    walk.leaf_refs_loaded(leaf_refs)?;
                }
                TreeLookup::Finished => return Ok(walk.finish()),
            }
        }
    }
}

fn node(text: &str) -> NodeId {
    NodeId::new(text.to_string())
}

#[test]
fn lazy_reader_loads_only_path_edges_for_sparse_large_tree() {
    let geometry = TreeGeometry::new(TreeFormat::Bounded32V1, 1024 * 1024 * 1024 * 1024).unwrap();
    let factory = TreeRecordFactory::new(
        geometry,
        ExportLayoutKind::CowImmutableTree,
        Some(ExportId::new("export-a".to_string())),
    );
    let path = geometry
        .path_for_chunk(ChunkIndex::new(32 * 32 * 32 - 1))
        .unwrap();
    let l2_span = geometry
        .child_span(geometry.root_span(), path.slots()[0])
        .unwrap();
    let l1_span = geometry.child_span(l2_span, path.slots()[1]).unwrap();
    let leaf_span = geometry.child_span(l1_span, path.slots()[2]).unwrap();

    let mut store = FakeTreeRecordStore::default();
    store.nodes.push(factory.root_node(node("root")));
    store
        .nodes
        .push(factory.internal_node(node("internal-l2"), l2_span));
    store
        .nodes
        .push(factory.internal_node(node("internal-l1"), l1_span));
    store.nodes.push(factory.leaf_node(node("leaf"), leaf_span));
    store
        .edges
        .push(factory.child_edge(node("root"), path.slots()[0], node("internal-l2")));
    store.edges.push(factory.child_edge(
        node("internal-l2"),
        path.slots()[1],
        node("internal-l1"),
    ));
    store
        .edges
        .push(factory.child_edge(node("internal-l1"), path.slots()[2], node("leaf")));
    store.leaf_refs.push(factory.leaf_ref(
        node("leaf"),
        TreeStorageKind::ImmutableBlob,
        BlobKey::new("leaf-blob".to_string()),
    ));
    let reader = LazyTreeMetadataReader::new(
        geometry,
        ExportLayoutKind::CowImmutableTree,
        Some(node("root")),
    );

    let chunks = geometry
        .chunks_for_range(ByteRange::new((32 * 32 * 32 - 1) * TREE_CHUNK_BYTES, 4096))
        .unwrap();
    let leaves: Vec<LoadedTreeLeaf> = chunks
        .iter()
        .filter_map(|chunk| store.load_leaf(&reader, chunk.chunk_index()).unwrap())
        .collect();
    assert_eq!(leaves.len(), 1);
    let loaded = leaves.first().expect("leaf");

    assert_eq!(loaded.chunk_index(), ChunkIndex::new(32 * 32 * 32 - 1));
    assert_eq!(loaded.node().id, node("leaf"));
    assert_eq!(loaded.leaf_ref().storage_key.as_str(), "leaf-blob");
    assert_eq!(
        store.calls,
        vec![
            StoreCall::LoadNode("root".to_owned()),
            StoreCall::LoadChildEdge("root".to_owned(), 31),
            StoreCall::LoadNode("internal-l2".to_owned()),
            StoreCall::LoadChildEdge("internal-l2".to_owned(), 31),
            StoreCall::LoadNode("internal-l1".to_owned()),
            StoreCall::LoadChildEdge("internal-l1".to_owned(), 31),
            StoreCall::LoadNode("leaf".to_owned()),
            StoreCall::LoadLeafRefs("leaf".to_owned()),
        ]
    );
}

#[test]
fn lazy_reader_treats_missing_edges_as_sparse_zero() {
    let geometry = TreeGeometry::new(TreeFormat::Bounded32V1, TREE_CHUNK_BYTES * 64).unwrap();
    let factory = TreeRecordFactory::new(geometry, ExportLayoutKind::SimpleMutableTree, None);
    let mut store = FakeTreeRecordStore::default();
    store.nodes.push(factory.root_node(node("root")));
    let reader = LazyTreeMetadataReader::new(
        geometry,
        ExportLayoutKind::SimpleMutableTree,
        Some(node("root")),
    );

    assert!(store
        .load_leaf(&reader, ChunkIndex::new(63))
        .unwrap()
        .is_none());
    assert_eq!(
        store.calls,
        vec![
            StoreCall::LoadNode("root".to_owned()),
            StoreCall::LoadChildEdge("root".to_owned(), 1),
        ]
    );
}

#[test]
fn zero_root_metadata_keeps_empty_tree_sparse() {
    let geometry = TreeGeometry::new(TreeFormat::Bounded32V1, TREE_CHUNK_BYTES).unwrap();
    let reader = LazyTreeMetadataReader::new(geometry, ExportLayoutKind::CowImmutableTree, None);

    assert!(reader.root_node_id().is_none());
    assert_eq!(reader.geometry().format(), TreeFormat::Bounded32V1);
}

fn small_store(kind: ExportLayoutKind, storage: TreeStorageKind) -> FakeTreeRecordStore {
    let geometry = TreeGeometry::new(TreeFormat::Bounded32V1, 4096).unwrap();
    let factory = TreeRecordFactory::new(geometry, kind, None);
    let leaf_span = geometry.child_span(geometry.root_span(), 0).unwrap();
    FakeTreeRecordStore {
        nodes: vec![
            factory.root_node(node("root-node")),
            factory.leaf_node(node("leaf-node"), leaf_span),
        ],
        edges: vec![factory.child_edge(node("root-node"), 0, node("leaf-node"))],
        leaf_refs: vec![factory.leaf_ref(
            node("leaf-node"),
            storage,
            BlobKey::new("blob".to_string()),
        )],
        calls: Vec::new(),
    }
}

fn cow_root() -> RootSnapshot {
    RootSnapshot::from_head(&ExportHead {
        layout_kind: ExportLayoutKind::CowImmutableTree,
        root_node_id: Some(node("root-node")),
        size_bytes: 4096,
        base_wal_seq: WalSeq::new(7),
        tree_format: Some(TreeFormat::Bounded32V1),
    })
    .expect("cow root")
}

#[test]
fn cow_tree_reader_reads_from_root_snapshot() {
    let mut chunk_data = vec![0; 4096];
    chunk_data[8..12].copy_from_slice(b"root");
    let root = cow_root();
    let mut store = small_store(
        ExportLayoutKind::CowImmutableTree,
        TreeStorageKind::ImmutableBlob,
    );

    let mut read = CowTreeReader
        .read_committed(&root, ByteRange::new(8, 4))
        .expect("read committed root");
    let metadata = CowTreeReader.metadata_reader(&root).unwrap().unwrap();
    while let Some(chunk) = read.next_chunk() {
        match store.load_leaf(&metadata, chunk.chunk_index()).unwrap() {
            Some(leaf) => {
                let key = CowTreeReader.leaf_blob(&leaf).expect("blob");
                let blob = read.blob_read(key);
                assert_eq!(blob.key.as_str(), "blob");
                let start = blob.offset as usize;
                let end = start + blob.length as usize;
                read.give_data(chunk_data[start..end].to_vec());
            }
            None => read.give_zeros(),
        }
    }
    let block = read.finish().expect("block");

    assert_eq!(block.parts().len(), 1);
    match &block.parts()[0] {
        BlockPart::Data { range, bytes } => {
            assert_eq!(*range, ByteRange::new(8, 4));
            assert_eq!(bytes.as_ref(), b"root");
        }
        BlockPart::Zero { .. } => panic!("the leaf is stored"),
    }
    assert_eq!(block.materialize().expect("materialize"), b"root");
}

#[test]
fn leaves_of_another_storage_are_refused() {
    let root = cow_root();
    let mut store = small_store(
        ExportLayoutKind::CowImmutableTree,
        TreeStorageKind::MutableBlob,
    );
    let metadata = CowTreeReader.metadata_reader(&root).unwrap().unwrap();
    let leaf = store
        .load_leaf(&metadata, ChunkIndex::new(0))
        .unwrap()
        .expect("leaf");
    assert_eq!(
        CowTreeReader.leaf_blob(&leaf).unwrap_err().describe(),
        "COW tree chunk 0 has storage kind mutable_blob"
    );
}

#[test]
fn short_blobs_make_no_block() {
    let mut read = CowTreeReader
        .read_committed(&cow_root(), ByteRange::new(8, 4))
        .expect("read");
    read.give_data(b"abc".to_vec());
    assert!(read.finish().is_err());
}

#[test]
fn walks_refuse_records_that_do_not_fit() {
    let root = cow_root();
    let metadata = CowTreeReader.metadata_reader(&root).unwrap().unwrap();

    let mut missing = FakeTreeRecordStore::default();
    assert!(missing.load_leaf(&metadata, ChunkIndex::new(0)).is_err());

    let mut other_layout = small_store(
        ExportLayoutKind::SimpleMutableTree,
        TreeStorageKind::ImmutableBlob,
    );
    assert!(other_layout
        .load_leaf(&metadata, ChunkIndex::new(0))
        .is_err());

    let mut no_blob = small_store(
        ExportLayoutKind::CowImmutableTree,
        TreeStorageKind::ImmutableBlob,
    );
    no_blob.leaf_refs.clear();
    assert!(no_blob.load_leaf(&metadata, ChunkIndex::new(0)).is_err());

    let mut wrong_kind = small_store(
        ExportLayoutKind::CowImmutableTree,
        TreeStorageKind::ImmutableBlob,
    );
    wrong_kind.nodes[1].level = 1;
    assert!(wrong_kind.load_leaf(&metadata, ChunkIndex::new(0)).is_err());

    assert!(metadata.load_leaf(ChunkIndex::new(1)).is_err());
}
