//! The way from a tree's root to the leaf of a chunk, one catalog lookup at a time.

use crate::catalog::{
    node_text, ChunkIndex, ExportLayoutKind, NodeId, TreeEdgeRecord, TreeLeafRefRecord,
    TreeNodeKind, TreeNodeRecord,
};
use crate::error::{ErrorView, Result};
use crate::geometry::{
    ancestor_start, capacity, chunk_error, full_span, invalid_tree, law_path_leads_to_chunk,
    lemma_capacity, path_slot, tree_failure, TreeGeometry, TreeNodeSpan, TreePath,
};
use crate::text::{concat_three, decimal, push_decimal};
use crate::tree_plan::{leaf_below, lemma_leaf_is_lowest, lemma_path_goes_on, node_below, Children};
use vstd::prelude::*;
use vstd::string::*;

verus! {

/// A leaf that was found, with the chunk it was looked up for.
#[derive(Debug)]
pub struct LoadedTreeLeaf {
    chunk_index: ChunkIndex,
    node: TreeNodeRecord,
    leaf_ref: TreeLeafRefRecord,
}

impl LoadedTreeLeaf {
    pub closed spec fn chunk(&self) -> int {
        self.chunk_index@
    }

    pub closed spec fn record(&self) -> TreeNodeRecord {
        self.node
    }

    pub closed spec fn reference(&self) -> TreeLeafRefRecord {
        self.leaf_ref
    }

    pub fn chunk_index(&self) -> (index: ChunkIndex)
        ensures
            index@ == self.chunk(),
    {
        self.chunk_index
    }

    pub fn node(&self) -> (node: &TreeNodeRecord)
        ensures
            *node == self.record(),
    {
        &self.node
    }

    pub fn leaf_ref(&self) -> (leaf_ref: &TreeLeafRefRecord)
        ensures
            *leaf_ref == self.reference(),
    {
        &self.leaf_ref
    }
}

/// Finds the leaves of one tree.
#[derive(Debug)]
pub struct LazyTreeMetadataReader {
    geometry: TreeGeometry,
    layout_kind: ExportLayoutKind,
    root_node_id: Option<NodeId>,
}

/// What a walk waits for.
#[derive(Debug)]
enum WalkStage {
    Node { id: NodeId },
    Edge { parent: TreeNodeRecord },
    LeafRef { node: TreeNodeRecord },
    Missing,
    Found { leaf: LoadedTreeLeaf },
}

/// What a walk waits for.
pub enum StageView {
    /// The node that an edge, or the root, names.
    Node { id: Seq<char> },
    /// The edge to the next node on the path.
    Edge { parent: TreeNodeRecord },
    /// The blob of the leaf.
    LeafRef { node: TreeNodeRecord },
    /// Nothing: the tree has no leaf for the chunk.
    Missing,
    /// Nothing: the leaf was found.
    Found { leaf: LoadedTreeLeaf },
}

/// A walk from the root to the leaf of a chunk.
#[derive(Debug)]
pub struct LeafWalk {
    geometry: TreeGeometry,
    layout_kind: ExportLayoutKind,
    path: TreePath,
    steps_taken: usize,
    span: TreeNodeSpan,
    stage: WalkStage,
}

/// A catalog lookup.
#[derive(Debug)]
pub enum TreeLookup {
    LoadNode { node_id: NodeId },
    LoadChildEdge { parent_node_id: NodeId, slot: u16 },
    LoadLeafRefs { node_id: NodeId },
    Finished,
}

/// What a lookup asks for.
pub enum LookupView {
    LoadNode { node_id: Seq<char> },
    LoadChildEdge { parent_node_id: Seq<char>, slot: u16 },
    LoadLeafRefs { node_id: Seq<char> },
    Finished,
}

impl View for TreeLookup {
    type V = LookupView;

    open spec fn view(&self) -> LookupView {
        match self {
            TreeLookup::LoadNode { node_id } => LookupView::LoadNode { node_id: node_id@ },
            TreeLookup::LoadChildEdge { parent_node_id, slot } => LookupView::LoadChildEdge {
                parent_node_id: parent_node_id@,
                slot: *slot,
            },
            TreeLookup::LoadLeafRefs { node_id } => LookupView::LoadLeafRefs { node_id: node_id@ },
            TreeLookup::Finished => LookupView::Finished,
        }
    }
}

/// State of a walk: the levels left above the leaf, and what it waits for.
pub struct WalkView {
    pub geometry: TreeGeometry,
    pub layout_kind: ExportLayoutKind,
    pub chunk: int,
    pub level: int,
    pub stage: StageView,
}

impl View for LeafWalk {
    type V = WalkView;

    closed spec fn view(&self) -> WalkView {
        WalkView {
            geometry: self.geometry,
            layout_kind: self.layout_kind,
            chunk: self.path.chunk(),
            level: self.span.depth(),
            stage: match self.stage {
                WalkStage::Node { id } => StageView::Node { id: id@ },
                WalkStage::Edge { parent } => StageView::Edge { parent },
                WalkStage::LeafRef { node } => StageView::LeafRef { node },
                WalkStage::Missing => StageView::Missing,
                WalkStage::Found { leaf } => StageView::Found { leaf },
            },
        }
    }
}

/// The bytes below the node above a chunk on a level.
pub open spec fn ancestor_size(geometry: TreeGeometry, chunk: int, level: int) -> int {
    let start = ancestor_start(chunk, level as nat);
    if level == geometry.top() {
        geometry.total()
    } else if full_span(level as nat) <= geometry.total() - start {
        full_span(level as nat) as int
    } else {
        geometry.total() - start
    }
}

/// The kind of a node on a level.
pub open spec fn kind_at(level: int) -> TreeNodeKind {
    if level == 0 {
        TreeNodeKind::Leaf
    } else {
        TreeNodeKind::Internal
    }
}

/// Why a loaded node is not the one above a chunk on a level.
pub open spec fn loaded_node_error(
    geometry: TreeGeometry,
    layout_kind: ExportLayoutKind,
    chunk: int,
    level: int,
    node: TreeNodeRecord,
) -> Option<ErrorView> {
    if node.layout_kind != layout_kind {
        Some(
            tree_failure(
                "tree node `"@ + node.id@ + "` has layout "@ + node.layout_kind.word()
                    + ", expected "@ + layout_kind.word(),
            ),
        )
    } else if node.kind != kind_at(level) {
        Some(
            tree_failure(
                "tree node `"@ + node.id@ + "` has kind "@ + node.kind.word() + ", expected "@
                    + kind_at(level).word(),
            ),
        )
    } else if node.level != level || node.span_start_bytes != ancestor_start(chunk, level as nat)
        || node.span_len_bytes != ancestor_size(geometry, chunk, level) {
        Some(
            tree_failure(
                "tree node `"@ + node.id@ + "` span does not match bounded geometry"@,
            ),
        )
    } else {
        None
    }
}

impl LazyTreeMetadataReader {
    pub closed spec fn shape(&self) -> TreeGeometry {
        self.geometry
    }

    pub closed spec fn layout(&self) -> ExportLayoutKind {
        self.layout_kind
    }

    pub closed spec fn root(&self) -> Option<Seq<char>> {
        node_text(self.root_node_id)
    }

    pub fn new(
        geometry: TreeGeometry,
        layout_kind: ExportLayoutKind,
        root_node_id: Option<NodeId>,
    ) -> (reader: Self)
        ensures
            reader.shape() == geometry,
            reader.layout() == layout_kind,
            reader.root() == node_text(root_node_id),
    {
        Self { geometry, layout_kind, root_node_id }
    }

    pub fn geometry(&self) -> (geometry: TreeGeometry)
        ensures
            geometry == self.shape(),
    {
        self.geometry
    }

    pub fn root_node_id(&self) -> (id: &Option<NodeId>)
        ensures
            node_text(*id) == self.root(),
    {
        &self.root_node_id
    }

    /// Starts the walk to the leaf of a chunk. A tree without a root has no leaves.
    pub fn load_leaf(&self, chunk_index: ChunkIndex) -> (result: Result<Option<LeafWalk>>)
        ensures
            self.shape().wf(),
            match result {
                Ok(Some(walk)) => {
                    &&& walk.wf()
                    &&& chunk_error(self.shape().total(), chunk_index@) is None
                    &&& self.root() matches Some(id) && walk@ == (WalkView {
                        geometry: self.shape(),
                        layout_kind: self.layout(),
                        chunk: chunk_index@,
                        level: self.shape().top(),
                        stage: StageView::Node { id },
                    })
                },
                Ok(None) => self.root() is None,
                Err(error) => self.root() is Some && chunk_error(
                    self.shape().total(),
                    chunk_index@,
                ) == Some(error@),
            },
    {
        let span = self.geometry.root_span();
        let root = match &self.root_node_id {
            Some(root) => root.clone(),
            None => {
                return Ok(None);
            },
        };
        let path = match self.geometry.path_for_chunk(chunk_index) {
            Ok(path) => path,
            Err(error) => {
                return Err(error);
            },
        };
        proof {
            chunk_index.same_number(chunk_index);
            law_path_leads_to_chunk(self.geometry, chunk_index@, self.geometry.top());
        }
        Ok(
            Some(
                LeafWalk {
                    geometry: self.geometry,
                    layout_kind: self.layout_kind,
                    path,
                    steps_taken: 0,
                    span,
                    stage: WalkStage::Node { id: root },
                },
            ),
        )
    }
}

/// What a walk does with the node that it asked for.
pub open spec fn takes_node(
    before: WalkView,
    after: WalkView,
    node: Option<TreeNodeRecord>,
    result: Result<()>,
) -> bool {
    match node {
        None => {
            &&& result matches Err(error) && error@ == tree_failure(
                "tree node `"@ + before.stage->id + "` is missing"@,
            )
            &&& after == before
        },
        Some(node) => match loaded_node_error(
            before.geometry,
            before.layout_kind,
            before.chunk,
            before.level,
            node,
        ) {
            Some(failure) => {
                &&& result matches Err(error) && error@ == failure
                &&& after == before
            },
            None => {
                &&& result is Ok
                &&& after == (WalkView {
                    stage: if before.level == 0 {
                        StageView::LeafRef { node }
                    } else {
                        StageView::Edge { parent: node }
                    },
                    ..before
                })
            },
        },
    }
}

/// What a walk does with the edges of the slot that it asked for.
pub open spec fn takes_edges(
    before: WalkView,
    after: WalkView,
    edges: Seq<TreeEdgeRecord>,
    result: Result<()>,
) -> bool {
    let parent = before.stage->parent.id@;
    let slot = path_slot(before.chunk, (before.level - 1) as nat);
    if edges.len() > 1 {
        &&& result matches Err(error) && error@ == tree_failure(
            "tree node `"@ + parent + "` returned duplicate edge for slot "@ + decimal(
                slot as nat,
            ),
        )
        &&& after == before
    } else if edges.len() == 0 {
        &&& result is Ok
        &&& after == (WalkView { stage: StageView::Missing, ..before })
    } else if edges[0].parent_node_id@ != parent || edges[0].slot != slot {
        &&& result matches Err(error) && error@ == tree_failure(
            "tree edge for `"@ + parent + "` slot "@ + decimal(slot as nat)
                + " returned mismatched row"@,
        )
        &&& after == before
    } else {
        &&& result is Ok
        &&& after == (WalkView {
            level: before.level - 1,
            stage: StageView::Node { id: edges[0].child_node_id@ },
            ..before
        })
    }
}

/// What a walk does with the references of the leaf that it asked for.
pub open spec fn takes_leaf_refs(
    before: WalkView,
    after: WalkView,
    leaf_refs: Seq<TreeLeafRefRecord>,
    result: Result<()>,
) -> bool {
    let node = before.stage->node;
    if leaf_refs.len() != 1 {
        &&& result matches Err(error) && error@ == tree_failure(
            "leaf node `"@ + node.id@ + "` has "@ + decimal(leaf_refs.len())
                + " leaf refs"@,
        )
        &&& after == before
    } else if leaf_refs[0].node_id@ != node.id@ {
        &&& result matches Err(error) && error@ == tree_failure(
            "leaf ref for `"@ + node.id@ + "` returned mismatched row"@,
        )
        &&& after == before
    } else {
        &&& result is Ok
        &&& after.stage is Found
        &&& after.stage->leaf.chunk() == before.chunk
        &&& after.stage->leaf.record() == node
        &&& after.stage->leaf.reference() == leaf_refs[0]
        &&& after == (WalkView {
            stage: after.stage,
            ..before
        })
    }
}

impl LeafWalk {
    /// The walk stands on the path to its chunk, and what it holds was checked.
    pub closed spec fn wf(self) -> bool {
        let chunk = self.path.chunk();
        &&& self.geometry.wf()
        &&& 0 <= chunk
        &&& chunk_error(self.geometry.total(), chunk) is None
        &&& self.path.steps().len() == self.geometry.top()
        &&& forall|i: int|
            0 <= i < self.geometry.top() ==> #[trigger] self.path.steps()[i] == path_slot(
                chunk,
                (self.geometry.top() - 1 - i) as nat,
            )
        &&& self.steps_taken + self.span.depth() == self.geometry.top()
        &&& self.span.first() == ancestor_start(chunk, self.span.depth() as nat)
        &&& self.span.size() == ancestor_size(self.geometry, chunk, self.span.depth())
        &&& self.stage is Edge ==> self.span.depth() > 0
        &&& self.stage matches WalkStage::LeafRef { node } ==> self.span.depth() == 0
            && loaded_node_error(self.geometry, self.layout_kind, chunk, 0, node) is None
        &&& self.stage matches WalkStage::Found { leaf } ==> self.span.depth() == 0
            && leaf.chunk() == chunk && loaded_node_error(
            self.geometry,
            self.layout_kind,
            chunk,
            0,
            leaf.record(),
        ) is None && leaf.reference().node_id@ == leaf.record().id@
    }

    /// The next lookup.
    pub fn next_lookup(&self) -> (lookup: TreeLookup)
        requires
            self.wf(),
        ensures
            lookup@ == (match self@.stage {
                StageView::Node { id } => LookupView::LoadNode { node_id: id },
                StageView::Edge { parent } => LookupView::LoadChildEdge {
                    parent_node_id: parent.id@,
                    slot: path_slot(self@.chunk, (self@.level - 1) as nat) as u16,
                },
                StageView::LeafRef { node } => LookupView::LoadLeafRefs { node_id: node.id@ },
                StageView::Missing => LookupView::Finished,
                StageView::Found { .. } => LookupView::Finished,
            }),
    {
        match &self.stage {
            WalkStage::Node { id } => TreeLookup::LoadNode { node_id: id.clone() },
            WalkStage::Edge { parent } => TreeLookup::LoadChildEdge {
                parent_node_id: parent.id.clone(),
                slot: self.path.slots()[self.steps_taken],
            },
            WalkStage::LeafRef { node } => TreeLookup::LoadLeafRefs { node_id: node.id.clone() },
            WalkStage::Missing => TreeLookup::Finished,
            WalkStage::Found { .. } => TreeLookup::Finished,
        }
    }

    /// Takes in the node that was asked for.
    pub fn node_loaded(&mut self, node: Option<TreeNodeRecord>) -> (result: Result<()>)
        requires
            old(self).wf(),
            old(self)@.stage is Node,
        ensures
            final(self).wf(),
            takes_node(old(self)@, final(self)@, node, result),
    {
        let node = match node {
            Some(node) => node,
            None => {
                let message = match &self.stage {
                    WalkStage::Node { id } => concat_three("tree node `", id.as_str(), "` is missing"),
                    _ => String::new(),
                };
                return Err(invalid_tree(message));
            },
        };
        match self.validate_node(&node) {
            Ok(_) => {},
            Err(error) => {
                return Err(error);
            },
        }
        proof {
            self.span.lemma_bounds(self.span);
        }
        self.stage = if self.span.level() == 0 {
            WalkStage::LeafRef { node }
        } else {
            WalkStage::Edge { parent: node }
        };
        Ok(())
    }

    fn validate_node(&self, node: &TreeNodeRecord) -> (result: Result<()>)
        requires
            self.wf(),
        ensures
            match result {
                Ok(_) => loaded_node_error(
                    self@.geometry,
                    self@.layout_kind,
                    self@.chunk,
                    self@.level,
                    *node,
                ) is None,
                Err(error) => loaded_node_error(
                    self@.geometry,
                    self@.layout_kind,
                    self@.chunk,
                    self@.level,
                    *node,
                ) == Some(error@),
            },
    {
        let expected = if self.span.level() == 0 {
            TreeNodeKind::Leaf
        } else {
            TreeNodeKind::Internal
        };
        if node.layout_kind != self.layout_kind {
            let mut message = concat_three("tree node `", node.id.as_str(), "` has layout ");
            message.append(node.layout_kind.as_str());
            message.append(", expected ");
            message.append(self.layout_kind.as_str());
            return Err(invalid_tree(message));
        }
        if node.kind != expected {
            let mut message = concat_three("tree node `", node.id.as_str(), "` has kind ");
            message.append(node.kind.as_str());
            message.append(", expected ");
            message.append(expected.as_str());
            return Err(invalid_tree(message));
        }
        if node.level != self.span.level() || node.span_start_bytes != self.span.start_bytes()
            || node.span_len_bytes != self.span.len_bytes() {
            return Err(
                invalid_tree(
                    concat_three(
                        "tree node `",
                        node.id.as_str(),
                        "` span does not match bounded geometry",
                    ),
                ),
            );
        }
        Ok(())
    }

    /// Takes in the edges that were found for the slot that was asked for.
    pub fn edges_loaded(&mut self, edges: Vec<TreeEdgeRecord>) -> (result: Result<()>)
        requires
            old(self).wf(),
            old(self)@.stage is Edge,
        ensures
            final(self).wf(),
            takes_edges(old(self)@, final(self)@, edges@, result),
    {
        let slot: u16 = self.path.slots()[self.steps_taken];
        let parent = match &self.stage {
            WalkStage::Edge { parent } => parent.id.clone(),
            _ => NodeId::new(String::new()),
        };
        let ghost chunk = self.path.chunk();
        let ghost level = self.span.depth();
        if edges.len() > 1 {
            let mut message = concat_three(
                "tree node `",
                parent.as_str(),
                "` returned duplicate edge for slot ",
            );
            push_decimal(&mut message, slot as u64);
            return Err(invalid_tree(message));
        }
        if edges.len() == 0 {
            self.stage = WalkStage::Missing;
            return Ok(());
        }
        let edge = &edges[0];
        if !edge.parent_node_id.same(&parent) || edge.slot != slot {
            let mut message = concat_three("tree edge for `", parent.as_str(), "` slot ");
            push_decimal(&mut message, slot as u64);
            message.append(" returned mismatched row");
            return Err(invalid_tree(message));
        }
        proof {
            law_path_leads_to_chunk(self.geometry, chunk, level);
            self.span.lemma_bounds(self.span);
        }
        let span = match self.geometry.child_span(self.span, slot) {
            Ok(span) => span,
            Err(error) => {
                return Err(error);
            },
        };
        self.span = span;
        self.steps_taken = self.steps_taken + 1;
        self.stage = WalkStage::Node { id: edge.child_node_id.clone() };
        Ok(())
    }

    /// Takes in the blobs that were found for the leaf.
    pub fn leaf_refs_loaded(&mut self, leaf_refs: Vec<TreeLeafRefRecord>) -> (result: Result<()>)
        requires
            old(self).wf(),
            old(self)@.stage is LeafRef,
        ensures
            final(self).wf(),
            takes_leaf_refs(old(self)@, final(self)@, leaf_refs@, result),
    {
        let node = match &self.stage {
            WalkStage::LeafRef { node } => node.clone(),
            _ => {
                return Ok(());
            },
        };
        let count: usize = leaf_refs.len();
        if count != 1 {
            let mut message = concat_three("leaf node `", node.id.as_str(), "` has ");
            push_decimal(&mut message, count as u64);
            message.append(" leaf refs");
            return Err(invalid_tree(message));
        }
        let leaf_ref = leaf_refs[0].clone();
        if !leaf_ref.node_id.same(&node.id) {
            return Err(
                invalid_tree(
                    concat_three("leaf ref for `", node.id.as_str(), "` returned mismatched row"),
                ),
            );
        }
        self.stage = WalkStage::Found {
            leaf: LoadedTreeLeaf { chunk_index: self.path.chunk_index(), node, leaf_ref },
        };
        Ok(())
    }

    /// The leaf, or `None` where the tree has none for the chunk.
    pub fn finish(self) -> (leaf: Option<LoadedTreeLeaf>)
        requires
            self.wf(),
            self@.stage is Missing || self@.stage is Found,
        ensures
            match leaf {
                Some(leaf) => self@.stage == (StageView::Found { leaf }),
                None => self@.stage is Missing,
            },
    {
        match self.stage {
            WalkStage::Found { leaf } => Some(leaf),
            _ => None,
        }
    }
}

/// A leaf that a walk found is the leaf of its chunk: a leaf node of the tree's layout that starts
/// where the chunk starts, with a blob that belongs to that node.
pub proof fn law_found_leaf_is_the_chunks(walk: LeafWalk)
    requires
        walk.wf(),
        walk@.stage is Found,
    ensures
        ({
            let leaf = walk@.stage->leaf;
            &&& leaf.chunk() == walk@.chunk
            &&& leaf.record().kind == TreeNodeKind::Leaf
            &&& leaf.record().level == 0
            &&& leaf.record().layout_kind == walk@.layout_kind
            &&& leaf.record().span_start_bytes == walk@.chunk * 33554432
            &&& leaf.reference().node_id@ == leaf.record().id@
        }),
{
    law_path_leads_to_chunk(walk.geometry, walk.path.chunk(), 1);
}

/// The node that a walk has reached.
pub open spec fn node_reached(stage: StageView) -> Seq<char> {
    match stage {
        StageView::Node { id } => id,
        StageView::Edge { parent } => parent.id@,
        StageView::LeafRef { node } => node.id@,
        StageView::Found { leaf } => leaf.record().id@,
        StageView::Missing => Seq::empty(),
    }
}

/// The walk stands on the path of its chunk, or the path ends. `stored` says which children the
/// catalog holds.
pub open spec fn follows(walk: WalkView, stored: Children, root: Seq<char>) -> bool {
    let top = walk.geometry.top();
    &&& 0 <= walk.level <= top
    &&& walk.stage is Edge ==> walk.level > 0
    &&& walk.stage is LeafRef || walk.stage is Found ==> walk.level == 0
    &&& if walk.stage is Missing {
        leaf_below(stored, root, walk.chunk, top as nat) is None
    } else {
        node_below(stored, root, walk.chunk, top as nat, walk.level as nat) == Some(
            node_reached(walk.stage),
        )
    }
}

/// A step of a walk that the catalog answered truly.
pub open spec fn moves(before: WalkView, after: WalkView, stored: Children) -> bool {
    match before.stage {
        StageView::Node { id } => {
            &&& node_reached(after.stage) == id
            &&& if before.level == 0 {
                after.stage is LeafRef
            } else {
                after.stage is Edge
            }
            &&& after == (WalkView { stage: after.stage, ..before })
        },
        StageView::Edge { parent } => match stored(
            parent.id@,
            path_slot(before.chunk, (before.level - 1) as nat),
        ) {
            Some(id) => after == (WalkView {
                level: before.level - 1,
                stage: StageView::Node { id },
                ..before
            }),
            None => after == (WalkView { stage: StageView::Missing, ..before }),
        },
        StageView::LeafRef { node } => {
            &&& after.stage matches StageView::Found { leaf } && leaf.record() == node
            &&& after == (WalkView { stage: after.stage, ..before })
        },
        _ => false,
    }
}

/// A walk starts on the root.
pub proof fn law_walk_starts_on_the_path(walk: WalkView, stored: Children, root: Seq<char>)
    requires
        walk.level == walk.geometry.top(),
        1 <= walk.geometry.top(),
        walk.stage == (StageView::Node { id: root }),
    ensures
        follows(walk, stored, root),
{
}

/// Every step keeps a walk on the path of its chunk, as long as the catalog answers truly.
pub proof fn law_walk_stays_on_the_path(
    before: WalkView,
    after: WalkView,
    stored: Children,
    root: Seq<char>,
)
    requires
        follows(before, stored, root),
        moves(before, after, stored),
    ensures
        follows(after, stored, root),
{
    let top = before.geometry.top() as nat;
    if before.stage is Edge {
        lemma_path_goes_on(stored, root, before.chunk, top, before.level as nat);
        if after.stage is Missing {
            lemma_path_ends(stored, root, before.chunk, top, (before.level - 1) as nat);
            lemma_leaf_is_lowest(stored, root, before.chunk, top);
        }
    }
}

/// A path that ends above a level has no leaf.
proof fn lemma_path_ends(stored: Children, node: Seq<char>, chunk: int, level: nat, target: nat)
    requires
        node_below(stored, node, chunk, level, target) is None,
    ensures
        node_below(stored, node, chunk, level, 0) is None,
    decreases level,
{
    if level > target {
        match stored(node, path_slot(chunk, (level - 1) as nat)) {
            Some(child) => {
                lemma_path_ends(stored, child, chunk, (level - 1) as nat, target);
            },
            None => {},
        }
    }
}

/// A walk that ended found the leaf that the path of its chunk leads to from the root, and found
/// none only where the path leads to none.
pub proof fn law_walk_finds_the_leaf(walk: WalkView, stored: Children, root: Seq<char>)
    requires
        follows(walk, stored, root),
        walk.stage is Found || walk.stage is Missing,
    ensures
        leaf_below(stored, root, walk.chunk, walk.geometry.top() as nat) == match walk.stage {
            StageView::Found { leaf } => Some(leaf.record().id@),
            _ => None,
        },
{
    lemma_leaf_is_lowest(stored, root, walk.chunk, walk.geometry.top() as nat);
}

/// A node is taken for the one at a level above a chunk exactly when it is of the layout, a leaf at
/// the bottom and an inner node above it, and spans the bytes that the tree has there.
pub proof fn law_node_is_taken_where_it_belongs(
    geometry: TreeGeometry,
    layout_kind: ExportLayoutKind,
    chunk: int,
    level: int,
    node: TreeNodeRecord,
)
    ensures
        loaded_node_error(geometry, layout_kind, chunk, level, node) is None <==> {
            &&& node.layout_kind == layout_kind
            &&& node.level == level
            &&& node.kind is Leaf <==> level == 0
            &&& node.span_start_bytes == ancestor_start(chunk, level as nat)
            &&& node.span_len_bytes == ancestor_size(geometry, chunk, level)
        },
        loaded_node_error(geometry, layout_kind, chunk, level, node) matches Some(error)
            ==> error is Catalog,
{
}

/// The bytes that a node spans lie in the tree, end with it at the latest, and the root spans all
/// of them.
pub proof fn law_nodes_span_bytes_of_the_tree(geometry: TreeGeometry, chunk: int, level: int)
    requires
        geometry.wf(),
        0 <= chunk,
        chunk * 33554432 < geometry.total(),
        0 <= level <= geometry.top(),
    ensures
        0 <= ancestor_start(chunk, level as nat) <= chunk * 33554432,
        ancestor_start(chunk, level as nat) + ancestor_size(geometry, chunk, level)
            <= geometry.total(),
        chunk * 33554432 < ancestor_start(chunk, level as nat) + ancestor_size(
            geometry,
            chunk,
            level,
        ),
        level == geometry.top() ==> ancestor_start(chunk, level as nat) == 0 && ancestor_size(
            geometry,
            chunk,
            level,
        ) == geometry.total(),
{
    let room = capacity(level as nat) as int;
    lemma_capacity(level as nat);
    if level >= 1 {
        law_path_leads_to_chunk(geometry, chunk, level);
    }
    if geometry.top() >= 1 {
        law_path_leads_to_chunk(geometry, chunk, geometry.top());
    }
    assert((chunk / room) * room <= chunk < (chunk / room) * room + room && 0 <= chunk / room)
        by (nonlinear_arith)
        requires
            room > 0,
            0 <= chunk,
    ;
    let share = chunk / room;
    assert(share * (33554432 * room) == 33554432 * (share * room)) by (nonlinear_arith);
}

/// A node that is there and belongs where the walk is moves the walk on; any other stops it with an
/// error and leaves it where it is.
pub proof fn law_a_true_node_moves_the_walk(
    before: WalkView,
    after: WalkView,
    node: Option<TreeNodeRecord>,
    result: Result<()>,
    stored: Children,
)
    requires
        before.stage is Node,
        takes_node(before, after, node, result),
    ensures
        result is Ok <==> node is Some && loaded_node_error(
            before.geometry,
            before.layout_kind,
            before.chunk,
            before.level,
            node->0,
        ) is None,
        result is Err ==> after == before,
        result is Ok && node->0.id@ == before.stage->id ==> moves(before, after, stored),
{
}

/// What the tree holds in the slot that the walk asked for moves the walk on: to the child, or to
/// the end where there is none.
pub proof fn law_a_true_edge_moves_the_walk(
    before: WalkView,
    after: WalkView,
    edges: Seq<TreeEdgeRecord>,
    result: Result<()>,
    stored: Children,
)
    requires
        before.stage is Edge,
        takes_edges(before, after, edges, result),
    ensures
        ({
            let parent = before.stage->parent.id@;
            let slot = path_slot(before.chunk, (before.level - 1) as nat);
            let held = if edges.len() == 0 {
                None
            } else {
                Some(edges[0].child_node_id@)
            };
            &&& result is Ok <==> edges.len() == 0 || (edges.len() == 1
                && edges[0].parent_node_id@ == parent && edges[0].slot == slot)
            &&& result is Err ==> after == before
            &&& result is Ok && stored(parent, slot) == held ==> moves(before, after, stored)
        }),
{
}

/// The one reference of the leaf that the walk reached ends the walk with that leaf.
pub proof fn law_a_true_reference_ends_the_walk(
    before: WalkView,
    after: WalkView,
    leaf_refs: Seq<TreeLeafRefRecord>,
    result: Result<()>,
    stored: Children,
)
    requires
        before.stage is LeafRef,
        takes_leaf_refs(before, after, leaf_refs, result),
    ensures
        result is Ok <==> leaf_refs.len() == 1 && leaf_refs[0].node_id@ == before.stage->node.id@,
        result is Err ==> after == before,
        result is Ok ==> {
            &&& moves(before, after, stored)
            &&& after.stage->leaf.chunk() == before.chunk
            &&& after.stage->leaf.reference() == leaf_refs[0]
        },
{
}

} // verus!
