//! Catalog records of tree nodes, edges and leaves.

use crate::catalog::{
    clone_export_id, BlobKey, ExportId, ExportLayoutKind, NodeId, TreeEdgeRecord, TreeLeafRefRecord,
    TreeNodeKind, TreeNodeRecord, TreeStorageKind,
};
use crate::geometry::{TreeGeometry, TreeNodeSpan};
use vstd::prelude::*;

verus! {

/// Makes the records of one tree.
#[derive(Debug)]
pub struct TreeRecordFactory {
    geometry: TreeGeometry,
    layout_kind: ExportLayoutKind,
    owner_export_id: Option<ExportId>,
}

/// The record of a node.
pub open spec fn node_record(
    id: NodeId,
    layout_kind: ExportLayoutKind,
    owner_export_id: Option<ExportId>,
    kind: TreeNodeKind,
    span: TreeNodeSpan,
) -> TreeNodeRecord {
    TreeNodeRecord {
        id,
        layout_kind,
        owner_export_id,
        kind,
        level: span.depth() as u16,
        span_start_bytes: span.first() as u64,
        span_len_bytes: span.size() as u64,
    }
}

impl TreeRecordFactory {
    pub closed spec fn shape(&self) -> TreeGeometry {
        self.geometry
    }

    pub closed spec fn layout(&self) -> ExportLayoutKind {
        self.layout_kind
    }

    pub closed spec fn owner(&self) -> Option<ExportId> {
        self.owner_export_id
    }

    pub fn new(
        geometry: TreeGeometry,
        layout_kind: ExportLayoutKind,
        owner_export_id: Option<ExportId>,
    ) -> (factory: Self)
        ensures
            factory.shape() == geometry,
            factory.layout() == layout_kind,
            factory.owner() == owner_export_id,
    {
        Self { geometry, layout_kind, owner_export_id }
    }

    /// The record of the root.
    pub fn root_node(&self, id: NodeId) -> (record: TreeNodeRecord)
        ensures
            self.shape().wf(),
            record == (TreeNodeRecord {
                id,
                layout_kind: self.layout(),
                owner_export_id: self.owner(),
                kind: TreeNodeKind::Internal,
                level: self.shape().top() as u16,
                span_start_bytes: 0,
                span_len_bytes: self.shape().total() as u64,
            }),
    {
        self.internal_node(id, self.geometry.root_span())
    }

    pub fn internal_node(&self, id: NodeId, span: TreeNodeSpan) -> (record: TreeNodeRecord)
        ensures
            record == node_record(id, self.layout(), self.owner(), TreeNodeKind::Internal, span),
    {
        TreeNodeRecord {
            id,
            layout_kind: self.layout_kind,
            owner_export_id: clone_export_id(&self.owner_export_id),
            kind: TreeNodeKind::Internal,
            level: span.level(),
            span_start_bytes: span.start_bytes(),
            span_len_bytes: span.len_bytes(),
        }
    }

    pub fn leaf_node(&self, id: NodeId, span: TreeNodeSpan) -> (record: TreeNodeRecord)
        ensures
            record == node_record(id, self.layout(), self.owner(), TreeNodeKind::Leaf, span),
    {
        TreeNodeRecord {
            id,
            layout_kind: self.layout_kind,
            owner_export_id: clone_export_id(&self.owner_export_id),
            kind: TreeNodeKind::Leaf,
            level: span.level(),
            span_start_bytes: span.start_bytes(),
            span_len_bytes: span.len_bytes(),
        }
    }

    pub fn child_edge(&self, parent_node_id: NodeId, slot: u16, child_node_id: NodeId) -> (record:
        TreeEdgeRecord)
        ensures
            record == (TreeEdgeRecord { parent_node_id, slot, child_node_id }),
    {
        TreeEdgeRecord { parent_node_id, slot, child_node_id }
    }

    pub fn leaf_ref(
        &self,
        node_id: NodeId,
        storage_kind: TreeStorageKind,
        storage_key: BlobKey,
    ) -> (record: TreeLeafRefRecord)
        ensures
            record == (TreeLeafRefRecord {
                node_id,
                storage_kind,
                storage_key,
                len_bytes: 33554432,
            }),
    {
        TreeLeafRefRecord {
            node_id,
            storage_kind,
            storage_key,
            len_bytes: self.geometry.chunk_bytes(),
        }
    }
}

} // verus!
