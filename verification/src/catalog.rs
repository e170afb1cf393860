//! Identifiers, records and heads of the export catalog, held as plain values.

use vstd::prelude::*;

verus! {

/// Bytes in one chunk of an export tree.
pub const TREE_CHUNK_BYTES: u64 = 33554432;

/// Bytes in one chunk of a simple durable export.
pub const SIMPLE_CHUNK_BYTES: u64 = 33554432;

/// Position of a record in the write-ahead log of one export. Zero is before every record.
#[derive(Debug, Clone, Copy, PartialEq, Eq, Structural, Hash)]
pub struct WalSeq {
    raw: u64,
}

impl View for WalSeq {
    type V = int;

    closed spec fn view(&self) -> int {
        self.raw as int
    }
}

impl WalSeq {
    pub fn new(raw: u64) -> (seq: Self)
        ensures
            seq@ == raw,
    {
        Self { raw }
    }

    pub fn zero() -> (seq: Self)
        ensures
            seq@ == 0,
    {
        Self { raw: 0 }
    }

    pub fn get(self) -> (raw: u64)
        ensures
            raw == self@,
    {
        self.raw
    }

    /// Two sequences with one number are one sequence.
    pub proof fn same_number(self, other: Self)
        ensures
            self@ == other@ ==> self == other,
            0 <= self@ <= u64::MAX,
    {
    }
}

/// Index of a chunk inside an export.
#[derive(Debug, Clone, Copy, PartialEq, Eq, Structural, Hash)]
pub struct ChunkIndex {
    raw: u64,
}

impl View for ChunkIndex {
    type V = int;

    closed spec fn view(&self) -> int {
        self.raw as int
    }
}

impl ChunkIndex {
    /// Two indices with one number are one index, and every number fits its type.
    pub proof fn same_number(self, other: Self)
        ensures
            self@ == other@ ==> self == other,
            0 <= self@ <= u64::MAX,
    {
    }

    pub fn new(raw: u64) -> (index: Self)
        ensures
            index@ == raw,
    {
        Self { raw }
    }

    pub fn get(self) -> (raw: u64)
        ensures
            raw == self@,
    {
        self.raw
    }
}

/// Catalog identity of an export.
#[derive(Debug, PartialEq, Eq, Hash)]
pub struct ExportId {
    text: String,
}

impl View for ExportId {
    type V = Seq<char>;

    closed spec fn view(&self) -> Seq<char> {
        self.text@
    }
}

impl Clone for ExportId {
    fn clone(&self) -> (copy: Self)
        ensures
            copy == *self,
    {
        Self { text: self.text.clone() }
    }
}

impl ExportId {
    pub fn new(text: String) -> (id: Self)
        ensures
            id@ == text@,
    {
        Self { text }
    }

    pub fn as_str(&self) -> (text: &str)
        ensures
            text@ == self@,
    {
        self.text.as_str()
    }

    /// Whether both hold the same text.
    pub fn same(&self, other: &Self) -> (same: bool)
        ensures
            same == (self@ == other@),
    {
        self.text == other.text
    }
}

/// Name under which clients open an export.
#[derive(Debug, PartialEq, Eq, Hash)]
pub struct ExportName {
    text: String,
}

impl View for ExportName {
    type V = Seq<char>;

    closed spec fn view(&self) -> Seq<char> {
        self.text@
    }
}

impl Clone for ExportName {
    fn clone(&self) -> (copy: Self)
        ensures
            copy == *self,
    {
        Self { text: self.text.clone() }
    }
}

impl ExportName {
    pub fn new(text: String) -> (id: Self)
        ensures
            id@ == text@,
    {
        Self { text }
    }

    pub fn as_str(&self) -> (text: &str)
        ensures
            text@ == self@,
    {
        self.text.as_str()
    }

    /// Whether both hold the same text.
    pub fn same(&self, other: &Self) -> (same: bool)
        ensures
            same == (self@ == other@),
    {
        self.text == other.text
    }
}

/// Identity of a tree node.
#[derive(Debug, PartialEq, Eq, Hash)]
pub struct NodeId {
    text: String,
}

impl View for NodeId {
    type V = Seq<char>;

    closed spec fn view(&self) -> Seq<char> {
        self.text@
    }
}

impl Clone for NodeId {
    fn clone(&self) -> (copy: Self)
        ensures
            copy == *self,
    {
        Self { text: self.text.clone() }
    }
}

impl NodeId {
    pub fn new(text: String) -> (id: Self)
        ensures
            id@ == text@,
    {
        Self { text }
    }

    pub fn as_str(&self) -> (text: &str)
        ensures
            text@ == self@,
    {
        self.text.as_str()
    }

    /// Whether both hold the same text.
    pub fn same(&self, other: &Self) -> (same: bool)
        ensures
            same == (self@ == other@),
    {
        self.text == other.text
    }
}

/// Key of a stored blob.
#[derive(Debug, PartialEq, Eq, Hash)]
pub struct BlobKey {
    text: String,
}

impl View for BlobKey {
    type V = Seq<char>;

    closed spec fn view(&self) -> Seq<char> {
        self.text@
    }
}

impl Clone for BlobKey {
    fn clone(&self) -> (copy: Self)
        ensures
            copy == *self,
    {
        Self { text: self.text.clone() }
    }
}

impl BlobKey {
    pub fn new(text: String) -> (id: Self)
        ensures
            id@ == text@,
    {
        Self { text }
    }

    pub fn as_str(&self) -> (text: &str)
        ensures
            text@ == self@,
    {
        self.text.as_str()
    }

    /// Whether both hold the same text.
    pub fn same(&self, other: &Self) -> (same: bool)
        ensures
            same == (self@ == other@),
    {
        self.text == other.text
    }
}

/// Shape of an export tree.
#[derive(Debug, Clone, Copy, PartialEq, Eq, Structural, Hash)]
pub enum TreeFormat {
    Bounded32V1,
}

/// How the committed content of an export is laid out.
#[derive(Debug, Clone, Copy, PartialEq, Eq, Structural, Hash)]
pub enum ExportLayoutKind {
    MemoryEmpty,
    SimpleMutableTree,
    CowImmutableTree,
}

impl ExportLayoutKind {
    /// The catalog's word for the layout.
    pub open spec fn word(self) -> Seq<char> {
        match self {
            ExportLayoutKind::MemoryEmpty => "memory_empty"@,
            ExportLayoutKind::SimpleMutableTree => "simple_mutable_tree"@,
            ExportLayoutKind::CowImmutableTree => "cow_immutable_tree"@,
        }
    }

    pub fn as_str(self) -> (text: &'static str)
        ensures
            text@ == self.word(),
    {
        match self {
            ExportLayoutKind::MemoryEmpty => "memory_empty",
            ExportLayoutKind::SimpleMutableTree => "simple_mutable_tree",
            ExportLayoutKind::CowImmutableTree => "cow_immutable_tree",
        }
    }
}

/// Storage engine of an export.
#[derive(Debug, Clone, Copy, PartialEq, Eq, Structural, Hash)]
pub enum ExportEngineKind {
    Memory,
    SimpleDurable,
    WalDurable,
}

/// Kind of a tree node.
#[derive(Debug, Clone, Copy, PartialEq, Eq, Structural, Hash)]
pub enum TreeNodeKind {
    Internal,
    Leaf,
}

impl TreeNodeKind {
    /// The catalog's word for the kind.
    pub open spec fn word(self) -> Seq<char> {
        match self {
            TreeNodeKind::Internal => "internal"@,
            TreeNodeKind::Leaf => "leaf"@,
        }
    }

    pub fn as_str(self) -> (text: &'static str)
        ensures
            text@ == self.word(),
    {
        match self {
            TreeNodeKind::Internal => "internal",
            TreeNodeKind::Leaf => "leaf",
        }
    }
}

/// How the bytes of a leaf are stored.
#[derive(Debug, Clone, Copy, PartialEq, Eq, Structural, Hash)]
pub enum TreeStorageKind {
    MutableBlob,
    ImmutableBlob,
}

impl TreeStorageKind {
    /// The catalog's word for the kind.
    pub open spec fn word(self) -> Seq<char> {
        match self {
            TreeStorageKind::MutableBlob => "mutable_blob"@,
            TreeStorageKind::ImmutableBlob => "immutable_blob"@,
        }
    }

    pub fn as_str(self) -> (text: &'static str)
        ensures
            text@ == self.word(),
    {
        match self {
            TreeStorageKind::MutableBlob => "mutable_blob",
            TreeStorageKind::ImmutableBlob => "immutable_blob",
        }
    }
}

/// A tree node as the catalog stores it.
#[derive(Debug, PartialEq, Eq)]
pub struct TreeNodeRecord {
    pub id: NodeId,
    pub layout_kind: ExportLayoutKind,
    pub owner_export_id: Option<ExportId>,
    pub kind: TreeNodeKind,
    pub level: u16,
    pub span_start_bytes: u64,
    pub span_len_bytes: u64,
}

/// An edge from a parent node to the child in one of its slots.
#[derive(Debug, PartialEq, Eq)]
pub struct TreeEdgeRecord {
    pub parent_node_id: NodeId,
    pub slot: u16,
    pub child_node_id: NodeId,
}

/// The blob behind a leaf node.
#[derive(Debug, PartialEq, Eq)]
pub struct TreeLeafRefRecord {
    pub node_id: NodeId,
    pub storage_kind: TreeStorageKind,
    pub storage_key: BlobKey,
    pub len_bytes: u64,
}

impl Clone for TreeNodeRecord {
    fn clone(&self) -> (copy: Self)
        ensures
            copy == *self,
    {
        Self {
            id: self.id.clone(),
            layout_kind: self.layout_kind,
            owner_export_id: clone_export_id(&self.owner_export_id),
            kind: self.kind,
            level: self.level,
            span_start_bytes: self.span_start_bytes,
            span_len_bytes: self.span_len_bytes,
        }
    }
}

impl Clone for TreeEdgeRecord {
    fn clone(&self) -> (copy: Self)
        ensures
            copy == *self,
    {
        Self {
            parent_node_id: self.parent_node_id.clone(),
            slot: self.slot,
            child_node_id: self.child_node_id.clone(),
        }
    }
}

impl Clone for TreeLeafRefRecord {
    fn clone(&self) -> (copy: Self)
        ensures
            copy == *self,
    {
        Self {
            node_id: self.node_id.clone(),
            storage_kind: self.storage_kind,
            storage_key: self.storage_key.clone(),
            len_bytes: self.len_bytes,
        }
    }
}

/// The copy of an optional export identity.
pub fn clone_export_id(id: &Option<ExportId>) -> (copy: Option<ExportId>)
    ensures
        copy == *id,
{
    match id {
        Some(id) => Some(id.clone()),
        None => None,
    }
}

/// The copy of an optional node identity.
pub fn clone_node_id(id: &Option<NodeId>) -> (copy: Option<NodeId>)
    ensures
        copy == *id,
{
    match id {
        Some(id) => Some(id.clone()),
        None => None,
    }
}

/// The committed state of an export that the catalog points at.
#[derive(Debug, PartialEq, Eq)]
pub struct ExportHead {
    pub layout_kind: ExportLayoutKind,
    pub root_node_id: Option<NodeId>,
    pub size_bytes: u64,
    pub base_wal_seq: WalSeq,
    pub tree_format: Option<TreeFormat>,
}

impl Clone for ExportHead {
    fn clone(&self) -> (copy: Self)
        ensures
            copy == *self,
    {
        Self {
            layout_kind: self.layout_kind,
            root_node_id: clone_node_id(&self.root_node_id),
            size_bytes: self.size_bytes,
            base_wal_seq: self.base_wal_seq,
            tree_format: self.tree_format,
        }
    }
}

/// What the catalog knows of an export besides its head.
#[derive(Debug, PartialEq, Eq)]
pub struct ExportDescriptor {
    pub id: ExportId,
    pub name: ExportName,
    pub block_size: u64,
    pub engine_kind: ExportEngineKind,
}

impl Clone for ExportDescriptor {
    fn clone(&self) -> (copy: Self)
        ensures
            copy == *self,
    {
        Self {
            id: self.id.clone(),
            name: self.name.clone(),
            block_size: self.block_size,
            engine_kind: self.engine_kind,
        }
    }
}

/// An export as the catalog stores it.
#[derive(Debug, PartialEq, Eq)]
pub struct ExportRecord {
    pub descriptor: ExportDescriptor,
    pub head: ExportHead,
}

impl Clone for ExportRecord {
    fn clone(&self) -> (copy: Self)
        ensures
            copy == *self,
    {
        Self { descriptor: self.descriptor.clone(), head: self.head.clone() }
    }
}

/// The text of an optional node identity.
pub open spec fn node_text(id: Option<NodeId>) -> Option<Seq<char>> {
    match id {
        Some(id) => Some(id@),
        None => None,
    }
}

/// Whether both name the same node, or both none.
pub fn same_node(first: &Option<NodeId>, second: &Option<NodeId>) -> (same: bool)
    ensures
        same == (node_text(*first) == node_text(*second)),
{
    match (first, second) {
        (Some(first), Some(second)) => first.same(second),
        (None, None) => true,
        _ => false,
    }
}

} // verus!
