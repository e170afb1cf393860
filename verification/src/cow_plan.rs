//! Plans the records of a new root that shares with the old tree whatever was not written.

use crate::catalog::{
    clone_node_id, node_text, ExportId, ExportLayoutKind, NodeId, TreeEdgeRecord, TreeLeafRefRecord,
    TreeNodeRecord, TreeStorageKind,
};
use crate::error::{ErrorView, Result};
use crate::geometry::{
    ancestor_start, chunk_error, invalid_tree, law_path_leads_to_chunk, lemma_ancestor_start,
    path_slot, tree_failure, TreeGeometry, TreeNodeSpan, TreePath,
};
use crate::identity::{generated_node_id, hyphenated};
use crate::leaf_walk::{ancestor_size, loaded_node_error};
use crate::text::{concat_three, decimal, push_decimal};
use crate::tree_plan::{
    check_existing_node, checked_child, child_in, edge_answer_error, existing_node_error, extends,
    find_child, has_node, is_leaf_ref, is_node, law_a_copy_leads_to_the_same_leaves,
    law_upsert_changes_only_its_slot, leaf_below, lemma_upserted, one_edge_per_slot, upsert, upserted, Children, ChunkRef, TreeRecordBatch,
};
use crate::tree_records::TreeRecordFactory;
use vstd::prelude::*;
use vstd::string::*;

verus! {

/// Collects the records of a new copy-on-write root.
#[derive(Debug)]
pub struct CowTreePublishPlanner {
    geometry: TreeGeometry,
    factory: TreeRecordFactory,
    old_root_node_id: Option<NodeId>,
    new_root_node_id: NodeId,
    copied_parents: Vec<NodeId>,
    new_internal_edges: Vec<TreeEdgeRecord>,
    pending_edges: Vec<TreeEdgeRecord>,
    nodes: Vec<TreeNodeRecord>,
    leaf_refs: Vec<TreeLeafRefRecord>,
}

/// What a planner has collected: the new nodes, the edges out of them, and which of the edges lead
/// to new internal nodes. `copied` holds the new nodes that have got the edges of an old one.
pub struct CowPlannerView {
    pub geometry: TreeGeometry,
    pub owner: ExportId,
    pub old_root: Option<Seq<char>>,
    pub new_root: NodeId,
    pub copied: Seq<NodeId>,
    pub internal: Seq<TreeEdgeRecord>,
    pub pending: Seq<TreeEdgeRecord>,
    pub nodes: Seq<TreeNodeRecord>,
    pub leaf_refs: Seq<TreeLeafRefRecord>,
}

/// What the plan of a chunk waits for.
#[derive(Debug)]
enum CowStage {
    Copy,
    CopyNode { old_id: NodeId },
    CopyEdges { old_id: NodeId },
    Slot,
    Edge { old_id: NodeId },
    OldNode { old_child: NodeId },
    Done,
}

/// What the plan of a chunk waits for.
pub enum CowStageView {
    /// A step that sees whether the old node has still to be copied.
    Copy,
    /// The old node that is copied.
    CopyNode { source: Seq<char> },
    /// All the edges of the old node that is copied.
    CopyEdges { source: Seq<char> },
    /// A step that sees whether there is an old node to look for an edge of.
    Slot,
    /// The edge of the old node for the next slot.
    Edge { source: Seq<char> },
    /// The old child that gets a new one in its place.
    OldNode { old_child: Seq<char> },
    /// Nothing: the chunk has its new leaf.
    Done,
}

/// The way from the new root to the new leaf of a chunk, beside the old tree.
#[derive(Debug)]
pub struct CowChunkPlan {
    geometry: TreeGeometry,
    chunk: ChunkRef,
    path: TreePath,
    steps_taken: usize,
    old_parent_id: Option<NodeId>,
    new_parent_id: NodeId,
    span: TreeNodeSpan,
    stage: CowStage,
}

/// State of a plan: the old and the new node reached, the levels left above the leaf, and what it
/// waits for.
pub struct CowChunkPlanView {
    pub geometry: TreeGeometry,
    pub chunk: int,
    pub key: Seq<char>,
    pub level: int,
    pub old_parent: Option<Seq<char>>,
    pub new_parent: NodeId,
    pub stage: CowStageView,
}

/// What a plan needs next.
#[derive(Debug)]
pub enum CowLookup {
    Step,
    LoadNode { node_id: NodeId },
    LoadAllEdges { parent_node_id: NodeId },
    LoadChildEdge { parent_node_id: NodeId, slot: u16 },
    Finished,
}

impl View for CowTreePublishPlanner {
    type V = CowPlannerView;

    closed spec fn view(&self) -> CowPlannerView {
        CowPlannerView {
            geometry: self.geometry,
            owner: self.factory.owner()->0,
            old_root: node_text(self.old_root_node_id),
            new_root: self.new_root_node_id,
            copied: self.copied_parents@,
            internal: self.new_internal_edges@,
            pending: self.pending_edges@,
            nodes: self.nodes@,
            leaf_refs: self.leaf_refs@,
        }
    }
}

impl View for CowChunkPlan {
    type V = CowChunkPlanView;

    closed spec fn view(&self) -> CowChunkPlanView {
        CowChunkPlanView {
            geometry: self.geometry,
            chunk: self.path.chunk(),
            key: self.chunk.key(),
            level: self.span.depth(),
            old_parent: node_text(self.old_parent_id),
            new_parent: self.new_parent_id,
            stage: match self.stage {
                CowStage::Copy => CowStageView::Copy,
                CowStage::CopyNode { old_id } => CowStageView::CopyNode { source: old_id@ },
                CowStage::CopyEdges { old_id } => CowStageView::CopyEdges { source: old_id@ },
                CowStage::Slot => CowStageView::Slot,
                CowStage::Edge { old_id } => CowStageView::Edge { source: old_id@ },
                CowStage::OldNode { old_child } => CowStageView::OldNode { old_child: old_child@ },
                CowStage::Done => CowStageView::Done,
            },
        }
    }
}

impl CowChunkPlanView {
    /// The slot that leads on from the nodes reached.
    pub open spec fn slot(self) -> int {
        path_slot(self.chunk, (self.level - 1) as nat)
    }

    /// The plan with another stage.
    pub open spec fn waiting(self, stage: CowStageView) -> CowChunkPlanView {
        CowChunkPlanView { stage, ..self }
    }

    /// The plan one level further down, on an old node, if there is one, and a new one.
    pub open spec fn moved_to(self, old_child: Option<Seq<char>>, new_child: NodeId) -> CowChunkPlanView {
        CowChunkPlanView {
            level: self.level - 1,
            old_parent: old_child,
            new_parent: new_child,
            stage: if self.level == 1 {
                CowStageView::Done
            } else {
                CowStageView::Copy
            },
            ..self
        }
    }
}

/// Whether one of the nodes is the node.
pub open spec fn among(nodes: Seq<NodeId>, id: Seq<char>) -> bool {
    exists|i: int| 0 <= i < nodes.len() && (#[trigger] nodes[i])@ == id
}

/// The edge from a node to a child.
pub open spec fn edge_of(parent: NodeId, slot: u16, child: NodeId) -> TreeEdgeRecord {
    TreeEdgeRecord { parent_node_id: parent, slot, child_node_id: child }
}

/// The edges after a node got those of an old node.
pub open spec fn edges_copied(
    pending: Seq<TreeEdgeRecord>,
    parent: NodeId,
    edges: Seq<TreeEdgeRecord>,
) -> Seq<TreeEdgeRecord>
    decreases edges.len(),
{
    if edges.len() == 0 {
        pending
    } else {
        upserted(
            edges_copied(pending, parent, edges.drop_last()),
            edge_of(parent, edges.last().slot, edges.last().child_node_id),
        )
    }
}

/// What is wrong with the first edge of an old node that something is wrong with.
pub open spec fn copied_edges_error(edges: Seq<TreeEdgeRecord>, old_parent: Seq<char>) -> Option<
    ErrorView,
>
    decreases edges.len(),
{
    if edges.len() == 0 {
        None
    } else if copied_edges_error(edges.drop_last(), old_parent) is Some {
        copied_edges_error(edges.drop_last(), old_parent)
    } else if edges.last().parent_node_id@ != old_parent {
        Some(
            tree_failure(
                "node `"@ + old_parent + "` returned edge for mismatched parent `"@
                    + edges.last().parent_node_id@ + "`"@,
            ),
        )
    } else if edges.last().slot >= 32 {
        Some(
            tree_failure(
                "node `"@ + old_parent + "` returned edge for invalid slot "@ + decimal(
                    edges.last().slot as nat,
                ),
            ),
        )
    } else {
        None
    }
}

/// A new leaf was added below the new node that the plan has reached.
pub open spec fn new_leaf_added(
    before: CowPlannerView,
    after: CowPlannerView,
    plan: CowChunkPlanView,
    child: NodeId,
) -> bool {
    &&& after == (CowPlannerView {
        pending: upserted(before.pending, edge_of(plan.new_parent, plan.slot() as u16, child)),
        nodes: after.nodes,
        leaf_refs: after.leaf_refs,
        ..before
    })
    &&& extends(before.nodes, after.nodes)
    &&& is_node(
        after.nodes.last(),
        child@,
        ExportLayoutKind::CowImmutableTree,
        Some(before.owner),
        before.geometry,
        plan.chunk,
        0,
    )
    &&& extends(before.leaf_refs, after.leaf_refs)
    &&& is_leaf_ref(after.leaf_refs.last(), child@, TreeStorageKind::ImmutableBlob, plan.key)
}

/// A new internal node was added below the new node that the plan has reached.
pub open spec fn new_internal_added(
    before: CowPlannerView,
    after: CowPlannerView,
    plan: CowChunkPlanView,
    child: NodeId,
) -> bool {
    let edge = edge_of(plan.new_parent, plan.slot() as u16, child);
    &&& after == (CowPlannerView {
        pending: upserted(before.pending, edge),
        internal: upserted(before.internal, edge),
        nodes: after.nodes,
        ..before
    })
    &&& extends(before.nodes, after.nodes)
    &&& is_node(
        after.nodes.last(),
        child@,
        ExportLayoutKind::CowImmutableTree,
        Some(before.owner),
        before.geometry,
        plan.chunk,
        plan.level - 1,
    )
}

/// What a plan does once it knows the old child in its slot: on the lowest level it adds a leaf;
/// above it goes on to the new internal node in the slot, which it adds unless the old child has
/// still to be looked at.
pub open spec fn goes_on(
    before: CowPlannerView,
    after: CowPlannerView,
    plan: CowChunkPlanView,
    next: CowChunkPlanView,
    old_child: Option<Seq<char>>,
) -> bool {
    if plan.level == 1 {
        &&& hyphenated(next.new_parent@)
        &&& new_leaf_added(before, after, plan, next.new_parent)
        &&& next == plan.moved_to(old_child, next.new_parent)
    } else {
        match child_in(before.internal, plan.new_parent@, plan.slot()) {
            Some(child) => {
                &&& after == before
                &&& next.new_parent@ == child
                &&& next == plan.moved_to(old_child, next.new_parent)
            },
            None => match old_child {
                Some(old_child) => {
                    &&& after == before
                    &&& next == plan.waiting(CowStageView::OldNode { old_child })
                },
                None => {
                    &&& hyphenated(next.new_parent@)
                    &&& new_internal_added(before, after, plan, next.new_parent)
                    &&& next == plan.moved_to(None, next.new_parent)
                },
            },
        }
    }
}

/// What a plan does before it looks for its slot: the old node is copied once.
pub open spec fn copy_decided(
    before: CowPlannerView,
    after: CowPlannerView,
    plan: CowChunkPlanView,
    next: CowChunkPlanView,
) -> bool {
    match plan.old_parent {
        Some(old_parent) => if among(before.copied, plan.new_parent@) {
            &&& after == before
            &&& next == plan.waiting(CowStageView::Slot)
        } else {
            &&& after == (CowPlannerView { copied: before.copied.push(plan.new_parent), ..before })
            &&& next == plan.waiting(CowStageView::CopyNode { source: old_parent })
        },
        None => {
            &&& after == before
            &&& next == plan.waiting(CowStageView::Slot)
        },
    }
}

/// What a plan does at its slot: where there is an old node, its edge is asked for.
pub open spec fn slot_decided(
    before: CowPlannerView,
    after: CowPlannerView,
    plan: CowChunkPlanView,
    next: CowChunkPlanView,
) -> bool {
    match plan.old_parent {
        Some(old_parent) => {
            &&& after == before
            &&& next == plan.waiting(CowStageView::Edge { source: old_parent })
        },
        None => goes_on(before, after, plan, next, None),
    }
}

/// The plan of a chunk that stands on the two roots.
pub open spec fn plan_at_roots(planner: CowPlannerView, chunk: int, key: Seq<char>) -> CowChunkPlanView {
    CowChunkPlanView {
        geometry: planner.geometry,
        chunk,
        key,
        level: planner.geometry.top(),
        old_parent: planner.old_root,
        new_parent: planner.new_root,
        stage: CowStageView::Copy,
    }
}

/// The children of the old nodes, and of the new ones.
pub open spec fn merged_children(planner: CowPlannerView, stored: Children) -> Children {
    |parent: Seq<char>, slot: int|
        if has_node(planner.nodes, parent) {
            child_in(planner.pending, parent, slot)
        } else {
            stored(parent, slot)
        }
}

/// What copying the edges of a node does to the children.
pub proof fn lemma_edges_copied(
    pending: Seq<TreeEdgeRecord>,
    parent: NodeId,
    edges: Seq<TreeEdgeRecord>,
    old_parent: Seq<char>,
    node: Seq<char>,
    slot: int,
)
    requires
        forall|i: int| 0 <= i < edges.len() ==> (#[trigger] edges[i]).parent_node_id@ == old_parent,
    ensures
        child_in(edges_copied(pending, parent, edges), node, slot) == if node == parent@ && child_in(
            edges,
            old_parent,
            slot,
        ) is Some {
            child_in(edges, old_parent, slot)
        } else {
            child_in(pending, node, slot)
        },
    decreases edges.len(),
{
    if edges.len() > 0 {
        let rest = edges.drop_last();
        assert forall|i: int| 0 <= i < rest.len() implies (#[trigger] rest[i]).parent_node_id@
            == old_parent by {
            assert(rest[i] == edges[i]);
        }
        lemma_edges_copied(pending, parent, rest, old_parent, node, slot);
        lemma_upserted(
            edges_copied(pending, parent, rest),
            edge_of(parent, edges.last().slot, edges.last().child_node_id),
            node,
            slot,
        );
        assert(edges.last() == edges[edges.len() - 1]);
    }
}

/// Edges that nothing is wrong with belong to the node.
pub proof fn lemma_copied_edges_fine(edges: Seq<TreeEdgeRecord>, old_parent: Seq<char>)
    requires
        copied_edges_error(edges, old_parent) is None,
    ensures
        forall|i: int| 0 <= i < edges.len() ==> (#[trigger] edges[i]).parent_node_id@ == old_parent,
    decreases edges.len(),
{
    if edges.len() > 0 {
        let rest = edges.drop_last();
        lemma_copied_edges_fine(rest, old_parent);
        assert forall|i: int| 0 <= i < edges.len() implies (#[trigger] edges[i]).parent_node_id@
            == old_parent by {
            if i < rest.len() {
                assert(rest[i] == edges[i]);
            }
        }
    }
}

/// A new node that has got the edges of an old one leads every chunk to the leaf that the old one
/// leads it to: what is not written is shared. `stored` says which children the catalog holds.
pub proof fn law_copied_node_shares_its_leaves(
    before: CowPlannerView,
    after: CowPlannerView,
    stored: Children,
    new_parent: NodeId,
    old_parent: Seq<char>,
    edges: Seq<TreeEdgeRecord>,
    chunk: int,
    level: nat,
)
    requires
        0 <= chunk,
        level > 0,
        copied_edges_error(edges, old_parent) is None,
        after == (CowPlannerView {
            pending: edges_copied(before.pending, new_parent, edges),
            ..before
        }),
        has_node(before.nodes, new_parent@),
        !has_node(before.nodes, old_parent),
        forall|slot: int|
            0 <= slot < 32 ==> child_in(before.pending, new_parent@, slot) is None
                && #[trigger] stored(old_parent, slot) == child_in(edges, old_parent, slot),
    ensures
        leaf_below(merged_children(after, stored), new_parent@, chunk, level) == leaf_below(
            merged_children(after, stored),
            old_parent,
            chunk,
            level,
        ),
{
    let children = merged_children(after, stored);
    lemma_copied_edges_fine(edges, old_parent);
    assert forall|slot: int| 0 <= slot < 32 implies #[trigger] children(new_parent@, slot)
        == children(old_parent, slot) by {
        lemma_edges_copied(before.pending, new_parent, edges, old_parent, new_parent@, slot);
        assert(stored(old_parent, slot) == child_in(edges, old_parent, slot));
    }
    law_a_copy_leads_to_the_same_leaves(children, old_parent, new_parent@, chunk, level);
}

/// A new leaf is what its chunk leads to from the new node above it, whatever leaf was there.
pub proof fn law_new_leaf_is_found(
    before: CowPlannerView,
    after: CowPlannerView,
    stored: Children,
    plan: CowChunkPlanView,
    child: NodeId,
)
    requires
        0 <= plan.chunk,
        plan.level == 1,
        new_leaf_added(before, after, plan, child),
        has_node(before.nodes, plan.new_parent@),
    ensures
        leaf_below(merged_children(after, stored), plan.new_parent@, plan.chunk, 1) == Some(child@),
        is_leaf_ref(after.leaf_refs.last(), child@, TreeStorageKind::ImmutableBlob, plan.key),
{
    let children = merged_children(after, stored);
    assert(0 <= plan.slot() < 32);
    let i = choose|i: int|
        0 <= i < before.nodes.len() && (#[trigger] before.nodes[i]).id@ == plan.new_parent@;
    assert(after.nodes.drop_last()[i] == after.nodes[i]);
    lemma_upserted(
        before.pending,
        edge_of(plan.new_parent, plan.slot() as u16, child),
        plan.new_parent@,
        plan.slot(),
    );
    assert(children(plan.new_parent@, plan.slot()) == Some(child@));
    reveal_with_fuel(leaf_below, 2);
}

/// What a plan does with all the edges of the node that it copies.
pub open spec fn takes_all_edges(
    before: CowPlannerView,
    after: CowPlannerView,
    plan: CowChunkPlanView,
    next: CowChunkPlanView,
    edges: Seq<TreeEdgeRecord>,
    result: Result<()>,
) -> bool {
    match copied_edges_error(edges, plan.stage->CopyEdges_source) {
        Some(failure) => {
            &&& result matches Err(error) && error@ == failure
            &&& after == before
            &&& next == plan
        },
        None => {
            &&& result is Ok
            &&& after == (CowPlannerView {
                pending: edges_copied(before.pending, plan.new_parent, edges),
                ..before
            })
            &&& next == plan.waiting(CowStageView::Slot)
        },
    }
}

/// What a plan does with the edges of the slot that it asked for.
pub open spec fn takes_edges(
    before: CowPlannerView,
    after: CowPlannerView,
    plan: CowChunkPlanView,
    next: CowChunkPlanView,
    edges: Seq<TreeEdgeRecord>,
    result: Result<()>,
) -> bool {
    match edge_answer_error(edges, plan.stage->Edge_source, plan.slot()) {
        Some(failure) => {
            &&& result matches Err(error) && error@ == failure
            &&& after == before
            &&& next == plan
        },
        None => {
            &&& result is Ok
            &&& goes_on(
                before,
                after,
                plan,
                next,
                if edges.len() == 0 {
                    None
                } else {
                    Some(edges[0].child_node_id@)
                },
            )
        },
    }
}

/// What a plan does with the node that it asked for.
pub open spec fn takes_node(
    before: CowPlannerView,
    after: CowPlannerView,
    plan: CowChunkPlanView,
    next: CowChunkPlanView,
    node: Option<TreeNodeRecord>,
    result: Result<()>,
) -> bool {
    match plan.stage {
        CowStageView::CopyNode { source } => {
            &&& after == before
            &&& match existing_node_error(
                node,
                source,
                ExportLayoutKind::CowImmutableTree,
                before.geometry,
                plan.chunk,
                plan.level,
                "COW"@,
            ) {
                Some(failure) => {
                    &&& result matches Err(error) && error@ == failure
                    &&& next == plan
                },
                None => {
                    &&& result is Ok
                    &&& next == plan.waiting(CowStageView::CopyEdges { source })
                },
            }
        },
        CowStageView::OldNode { old_child } => match existing_node_error(
            node,
            old_child,
            ExportLayoutKind::CowImmutableTree,
            before.geometry,
            plan.chunk,
            plan.level - 1,
            "COW"@,
        ) {
            Some(failure) => {
                &&& result matches Err(error) && error@ == failure
                &&& after == before
                &&& next == plan
            },
            None => {
                &&& result is Ok
                &&& hyphenated(next.new_parent@)
                &&& new_internal_added(
                    before,
                    after,
                    plan,
                    next.new_parent,
                )
                &&& next == plan.moved_to(
                    Some(old_child),
                    next.new_parent,
                )
            },
        },
        _ => false,
    }
}

impl CowTreePublishPlanner {
    pub closed spec fn wf(&self) -> bool {
        &&& self.factory.shape() == self.geometry
        &&& self.factory.layout() == ExportLayoutKind::CowImmutableTree
        &&& self.factory.owner() is Some
        &&& self.geometry.wf()
        &&& one_edge_per_slot(self.pending_edges@)
        &&& one_edge_per_slot(self.new_internal_edges@)
    }

    /// A planner for a new root beside the old one, if there is one.
    pub fn new(geometry: TreeGeometry, export_id: &ExportId, old_root_node_id: &Option<NodeId>) -> (planner:
        Self)
        ensures
            hyphenated(planner@.new_root@),
            planner.starts(
                geometry,
                *export_id,
                node_text(*old_root_node_id),
                planner@.new_root,
            ),
    {
        Self::with_root(geometry, export_id, old_root_node_id, generated_node_id())
    }

    /// The planner holds nothing but its new root.
    pub open spec fn starts(
        &self,
        geometry: TreeGeometry,
        owner: ExportId,
        old_root: Option<Seq<char>>,
        new_root: NodeId,
    ) -> bool {
        &&& self.wf()
        &&& self@ == (CowPlannerView {
            geometry,
            owner,
            old_root,
            new_root,
            copied: Seq::empty(),
            internal: Seq::empty(),
            pending: Seq::empty(),
            nodes: self@.nodes,
            leaf_refs: Seq::empty(),
        })
        &&& self@.nodes.len() == 1
        &&& is_node(
            self@.nodes[0],
            new_root@,
            ExportLayoutKind::CowImmutableTree,
            Some(owner),
            geometry,
            0,
            geometry.top(),
        )
    }

    /// A planner whose new root has the identity.
    pub fn with_root(
        geometry: TreeGeometry,
        export_id: &ExportId,
        old_root_node_id: &Option<NodeId>,
        new_root_node_id: NodeId,
    ) -> (planner: Self)
        ensures
            planner.starts(
                geometry,
                *export_id,
                node_text(*old_root_node_id),
                new_root_node_id,
            ),
    {
        let factory = TreeRecordFactory::new(
            geometry,
            ExportLayoutKind::CowImmutableTree,
            Some(export_id.clone()),
        );
        let mut nodes: Vec<TreeNodeRecord> = Vec::new();
        nodes.push(factory.root_node(new_root_node_id.clone()));
        proof {
            lemma_ancestor_start(0, geometry.top() as nat);
        }
        let planner = Self {
            geometry,
            factory,
            old_root_node_id: clone_node_id(old_root_node_id),
            new_root_node_id,
            copied_parents: Vec::new(),
            new_internal_edges: Vec::new(),
            pending_edges: Vec::new(),
            nodes,
            leaf_refs: Vec::new(),
        };
        proof {
            assert(planner.copied_parents@ =~= Seq::empty());
            assert(planner.new_internal_edges@ =~= Seq::empty());
            assert(planner.pending_edges@ =~= Seq::empty());
            assert(planner.leaf_refs@ =~= Seq::empty());
        }
        planner
    }

    pub fn new_root_node_id(&self) -> (id: &NodeId)
        ensures
            *id == self@.new_root,
    {
        &self.new_root_node_id
    }

    /// Starts the plan of a chunk.
    pub fn begin(&self, chunk: ChunkRef) -> (result: Result<CowChunkPlan>)
        requires
            self.wf(),
        ensures
            match result {
                Ok(plan) => {
                    &&& chunk_error(self@.geometry.total(), chunk.index()) is None
                    &&& plan.wf()
                    &&& plan@ == plan_at_roots(self@, chunk.index(), chunk.key())
                },
                Err(error) => chunk_error(self@.geometry.total(), chunk.index()) == Some(error@),
            },
    {
        let path = match self.geometry.path_for_chunk(chunk.chunk_index()) {
            Ok(path) => path,
            Err(error) => {
                return Err(error);
            },
        };
        let span = self.geometry.root_span();
        proof {
            chunk.lemma_index();
            law_path_leads_to_chunk(self.geometry, chunk.index(), self.geometry.top());
        }
        Ok(
            CowChunkPlan {
                geometry: self.geometry,
                chunk,
                path,
                steps_taken: 0,
                old_parent_id: clone_node_id(&self.old_root_node_id),
                new_parent_id: self.new_root_node_id.clone(),
                span,
                stage: CowStage::Copy,
            },
        )
    }

    /// Takes the next step of a plan that needs nothing from the catalog for it.
    pub fn step(&mut self, plan: &mut CowChunkPlan)
        requires
            old(self).wf(),
            old(plan).wf(),
            old(plan)@.geometry == old(self)@.geometry,
            old(plan)@.stage is Copy || old(plan)@.stage is Slot,
        ensures
            final(self).wf(),
            final(plan).wf(),
            if old(plan)@.stage is Copy {
                copy_decided(old(self)@, final(self)@, old(plan)@, final(plan)@)
            } else {
                slot_decided(old(self)@, final(self)@, old(plan)@, final(plan)@)
            },
    {
        let old_parent = clone_node_id(&plan.old_parent_id);
        let copying = match &plan.stage {
            CowStage::Copy => true,
            _ => false,
        };
        if copying {
            match old_parent {
                Some(old_id) => {
                    if self.was_copied(&plan.new_parent_id) {
                        plan.stage = CowStage::Slot;
                    } else {
                        self.copied_parents.push(plan.new_parent_id.clone());
                        plan.stage = CowStage::CopyNode { old_id };
                    }
                },
                None => {
                    plan.stage = CowStage::Slot;
                },
            }
        } else {
            match old_parent {
                Some(old_id) => {
                    plan.stage = CowStage::Edge { old_id };
                },
                None => {
                    self.go_on(plan, None);
                },
            }
        }
    }

    fn was_copied(&self, id: &NodeId) -> (copied: bool)
        ensures
            copied == among(self.copied_parents@, id@),
    {
        let mut index: usize = 0;
        while index < self.copied_parents.len()
            invariant
                index <= self.copied_parents@.len(),
                forall|i: int| 0 <= i < index ==> (#[trigger] self.copied_parents@[i])@ != id@,
            decreases self.copied_parents@.len() - index,
        {
            if self.copied_parents[index].same(id) {
                return true;
            }
            index = index + 1;
        }
        false
    }

    /// Goes on with the old child in the plan's slot known.
    fn go_on(&mut self, plan: &mut CowChunkPlan, old_child: Option<NodeId>)
        requires
            old(self).wf(),
            old(plan).wf(),
            old(plan)@.geometry == old(self)@.geometry,
            old(plan)@.stage is Slot || old(plan)@.stage is Edge,
        ensures
            final(self).wf(),
            final(plan).wf(),
            goes_on(
                old(self)@,
                final(self)@,
                old(plan)@,
                final(plan)@,
                node_text(old_child),
            ),
    {
        let slot: u16 = plan.next_slot();
        proof {
            plan.span.lemma_bounds(plan.span);
        }
        if plan.span.level() == 1 {
            let id = generated_node_id();
            self.create_leaf(plan, old_child, id);
            return ;
        }
        match find_child(&self.new_internal_edges, &plan.new_parent_id, slot) {
            Some(child) => {
                plan.move_to(old_child, child);
            },
            None => {
                match old_child {
                    Some(old_child) => {
                        plan.stage = CowStage::OldNode { old_child };
                    },
                    None => {
                        let id = generated_node_id();
                        self.create_internal(plan, None, id);
                    },
                }
            },
        }
    }

    /// Adds a leaf with the identity below the new node that the plan has reached.
    pub fn create_leaf(&mut self, plan: &mut CowChunkPlan, old_child: Option<NodeId>, id: NodeId)
        requires
            old(self).wf(),
            old(plan).wf(),
            old(plan)@.geometry == old(self)@.geometry,
            old(plan)@.level == 1,
        ensures
            final(self).wf(),
            final(plan).wf(),
            new_leaf_added(old(self)@, final(self)@, old(plan)@, id),
            final(plan)@ == old(plan)@.moved_to(node_text(old_child), id),
    {
        let slot: u16 = plan.next_slot();
        let edge = self.factory.child_edge(plan.new_parent_id.clone(), slot, id.clone());
        plan.move_to(old_child, id.clone());
        proof {
            plan.span.lemma_bounds(plan.span);
        }
        self.nodes.push(self.factory.leaf_node(id.clone(), plan.span));
        self.leaf_refs.push(
            self.factory.leaf_ref(id, TreeStorageKind::ImmutableBlob, plan.chunk.blob_key().clone()),
        );
        upsert(&mut self.pending_edges, edge);
        proof {
            assert(self.nodes@.drop_last() =~= old(self).nodes@);
            assert(self.leaf_refs@.drop_last() =~= old(self).leaf_refs@);
        }
    }

    /// Adds an internal node with the identity below the new node that the plan has reached.
    pub fn create_internal(&mut self, plan: &mut CowChunkPlan, old_child: Option<NodeId>, id: NodeId)
        requires
            old(self).wf(),
            old(plan).wf(),
            old(plan)@.geometry == old(self)@.geometry,
            old(plan)@.level > 1,
        ensures
            final(self).wf(),
            final(plan).wf(),
            new_internal_added(old(self)@, final(self)@, old(plan)@, id),
            final(plan)@ == old(plan)@.moved_to(node_text(old_child), id),
    {
        let slot: u16 = plan.next_slot();
        let edge = self.factory.child_edge(plan.new_parent_id.clone(), slot, id.clone());
        let same_edge = self.factory.child_edge(plan.new_parent_id.clone(), slot, id.clone());
        plan.move_to(old_child, id.clone());
        proof {
            plan.span.lemma_bounds(plan.span);
        }
        self.nodes.push(self.factory.internal_node(id, plan.span));
        upsert(&mut self.pending_edges, edge);
        upsert(&mut self.new_internal_edges, same_edge);
        proof {
            assert(self.nodes@.drop_last() =~= old(self).nodes@);
        }
    }

    /// Takes in all the edges of the old node that is copied.
    pub fn all_edges_loaded(&mut self, plan: &mut CowChunkPlan, edges: Vec<TreeEdgeRecord>) -> (result:
        Result<()>)
        requires
            old(self).wf(),
            old(plan).wf(),
            old(plan)@.geometry == old(self)@.geometry,
            old(plan)@.stage is CopyEdges,
        ensures
            final(self).wf(),
            final(plan).wf(),
            match copied_edges_error(edges@, old(plan)@.stage->CopyEdges_source) {
                Some(failure) => {
                    &&& result matches Err(error) && error@ == failure
                    &&& *final(self) == *old(self)
                    &&& *final(plan) == *old(plan)
                },
                None => {
                    &&& result is Ok
                    &&& final(self)@ == (CowPlannerView {
                        pending: edges_copied(old(self)@.pending, old(plan)@.new_parent, edges@),
                        ..old(self)@
                    })
                    &&& final(plan)@ == old(plan)@.waiting(CowStageView::Slot)
                },
            },
            takes_all_edges(old(self)@, final(self)@, old(plan)@, final(plan)@, edges@, result),
    {
        let old_id = match &plan.stage {
            CowStage::CopyEdges { old_id } => old_id.clone(),
            _ => NodeId::new(String::new()),
        };
        match check_copied_edges(&edges, &old_id) {
            Ok(_) => {},
            Err(error) => {
                return Err(error);
            },
        }
        let ghost before = *self;
        let ghost parent = plan.new_parent_id;
        let mut index: usize = 0;
        proof {
            assert(edges@.take(0) =~= Seq::empty());
        }
        while index < edges.len()
            invariant
                index <= edges@.len(),
                plan.new_parent_id == parent,
                one_edge_per_slot(self.pending_edges@),
                self.pending_edges@ == edges_copied(
                    before.pending_edges@,
                    parent,
                    edges@.take(index as int),
                ),
                *self == (CowTreePublishPlanner { pending_edges: self.pending_edges, ..before }),
            decreases edges@.len() - index,
        {
            proof {
                assert(edges@.take(index + 1).drop_last() =~= edges@.take(index as int));
            }
            let edge = self.factory.child_edge(
                plan.new_parent_id.clone(),
                edges[index].slot,
                edges[index].child_node_id.clone(),
            );
            upsert(&mut self.pending_edges, edge);
            index = index + 1;
        }
        proof {
            assert(edges@.take(index as int) =~= edges@);
        }
        plan.stage = CowStage::Slot;
        Ok(())
    }

    /// Takes in the edges that the catalog holds for the slot that was asked for.
    pub fn edges_loaded(&mut self, plan: &mut CowChunkPlan, edges: Vec<TreeEdgeRecord>) -> (result:
        Result<()>)
        requires
            old(self).wf(),
            old(plan).wf(),
            old(plan)@.geometry == old(self)@.geometry,
            old(plan)@.stage is Edge,
        ensures
            final(self).wf(),
            final(plan).wf(),
            match edge_answer_error(edges@, old(plan)@.stage->Edge_source, old(plan)@.slot()) {
                Some(failure) => {
                    &&& result matches Err(error) && error@ == failure
                    &&& *final(self) == *old(self)
                    &&& *final(plan) == *old(plan)
                },
                None => {
                    &&& result is Ok
                    &&& goes_on(
                        old(self)@,
                        final(self)@,
                        old(plan)@,
                        final(plan)@,
                        if edges@.len() == 0 {
                            None
                        } else {
                            Some(edges@[0].child_node_id@)
                        },
                    )
                },
            },
            takes_edges(old(self)@, final(self)@, old(plan)@, final(plan)@, edges@, result),
    {
        let old_id = match &plan.stage {
            CowStage::Edge { old_id } => old_id.clone(),
            _ => NodeId::new(String::new()),
        };
        let slot: u16 = plan.next_slot();
        match checked_child(&edges, &old_id, slot) {
            Err(error) => Err(error),
            Ok(old_child) => {
                self.go_on(plan, old_child);
                Ok(())
            },
        }
    }

    /// Takes in the old node that was asked for.
    pub fn node_loaded(&mut self, plan: &mut CowChunkPlan, node: Option<TreeNodeRecord>) -> (result:
        Result<()>)
        requires
            old(self).wf(),
            old(plan).wf(),
            old(plan)@.geometry == old(self)@.geometry,
            old(plan)@.stage is CopyNode || old(plan)@.stage is OldNode,
        ensures
            final(self).wf(),
            final(plan).wf(),
            match old(plan)@.stage {
                CowStageView::CopyNode { source } => {
                    &&& final(self)@ == old(self)@
                    &&& match existing_node_error(
                        node,
                        source,
                        ExportLayoutKind::CowImmutableTree,
                        old(self)@.geometry,
                        old(plan)@.chunk,
                        old(plan)@.level,
                        "COW"@,
                    ) {
                        Some(failure) => {
                            &&& result matches Err(error) && error@ == failure
                            &&& *final(plan) == *old(plan)
                        },
                        None => {
                            &&& result is Ok
                            &&& final(plan)@ == old(plan)@.waiting(CowStageView::CopyEdges { source })
                        },
                    }
                },
                CowStageView::OldNode { old_child } => match existing_node_error(
                    node,
                    old_child,
                    ExportLayoutKind::CowImmutableTree,
                    old(self)@.geometry,
                    old(plan)@.chunk,
                    old(plan)@.level - 1,
                    "COW"@,
                ) {
                    Some(failure) => {
                        &&& result matches Err(error) && error@ == failure
                        &&& *final(self) == *old(self)
                        &&& *final(plan) == *old(plan)
                    },
                    None => {
                        &&& result is Ok
                        &&& hyphenated(final(plan)@.new_parent@)
                        &&& new_internal_added(
                            old(self)@,
                            final(self)@,
                            old(plan)@,
                            final(plan)@.new_parent,
                        )
                        &&& final(plan)@ == old(plan)@.moved_to(
                            Some(old_child),
                            final(plan)@.new_parent,
                        )
                    },
                },
                _ => false,
            },
            takes_node(old(self)@, final(self)@, old(plan)@, final(plan)@, node, result),
    {
        let (id, copying) = match &plan.stage {
            CowStage::CopyNode { old_id } => (old_id.clone(), true),
            CowStage::OldNode { old_child } => (old_child.clone(), false),
            _ => (NodeId::new(String::new()), true),
        };
        let span = if copying {
            plan.span
        } else {
            plan.child_span()
        };
        match check_existing_node(
            &node,
            &id,
            ExportLayoutKind::CowImmutableTree,
            span,
            "COW",
            Ghost(self.geometry),
            Ghost(plan.path.chunk()),
        ) {
            Ok(_) => {},
            Err(error) => {
                return Err(error);
            },
        }
        if copying {
            plan.stage = CowStage::CopyEdges { old_id: id };
        } else {
            let new_id = generated_node_id();
            self.create_internal(plan, Some(id), new_id);
        }
        Ok(())
    }

    /// The new root and the records of all the planned chunks.
    pub fn finish(self) -> (result: (NodeId, TreeRecordBatch))
        requires
            self.wf(),
        ensures
            result.0 == self@.new_root,
            result.1.nodes@ == self@.nodes,
            result.1.edges@ == self@.pending,
            result.1.leaf_refs@ == self@.leaf_refs,
            one_edge_per_slot(result.1.edges@),
    {
        (
            self.new_root_node_id,
            TreeRecordBatch {
                nodes: self.nodes,
                edges: self.pending_edges,
                leaf_refs: self.leaf_refs,
            },
        )
    }
}

/// Checks the edges of an old node.
fn check_copied_edges(edges: &Vec<TreeEdgeRecord>, old_parent: &NodeId) -> (result: Result<()>)
    ensures
        match result {
            Ok(_) => copied_edges_error(edges@, old_parent@) is None,
            Err(error) => copied_edges_error(edges@, old_parent@) == Some(error@),
        },
{
    let mut index: usize = 0;
    proof {
        assert(edges@.take(0) =~= Seq::empty());
    }
    while index < edges.len()
        invariant
            index <= edges@.len(),
            copied_edges_error(edges@.take(index as int), old_parent@) is None,
        decreases edges@.len() - index,
    {
        let edge = &edges[index];
        proof {
            assert(edges@.take(index + 1).drop_last() =~= edges@.take(index as int));
            assert(edges@.take(index + 1).last() == edges@[index as int]);
        }
        if !edge.parent_node_id.same(old_parent) {
            let mut message = concat_three(
                "node `",
                old_parent.as_str(),
                "` returned edge for mismatched parent `",
            );
            message.append(edge.parent_node_id.as_str());
            message.append("`");
            proof {
                lemma_first_copied_error(edges@, index as int, old_parent@);
            }
            return Err(invalid_tree(message));
        }
        if edge.slot >= 32 {
            let mut message = concat_three(
                "node `",
                old_parent.as_str(),
                "` returned edge for invalid slot ",
            );
            push_decimal(&mut message, edge.slot as u64);
            proof {
                lemma_first_copied_error(edges@, index as int, old_parent@);
            }
            return Err(invalid_tree(message));
        }
        index = index + 1;
    }
    proof {
        assert(edges@.take(index as int) =~= edges@);
    }
    Ok(())
}

/// What is wrong with a first part of the edges is what is wrong with them all.
proof fn lemma_first_copied_error(edges: Seq<TreeEdgeRecord>, index: int, old_parent: Seq<char>)
    requires
        0 <= index < edges.len(),
        copied_edges_error(edges.take(index + 1), old_parent) is Some,
    ensures
        copied_edges_error(edges, old_parent) == copied_edges_error(
            edges.take(index + 1),
            old_parent,
        ),
    decreases edges.len(),
{
    if index + 1 == edges.len() {
        assert(edges.take(index + 1) =~= edges);
    } else {
        assert(edges.drop_last().take(index + 1) =~= edges.take(index + 1));
        lemma_first_copied_error(edges.drop_last(), index, old_parent);
    }
}

impl CowChunkPlan {
    /// The plan stands on the path to its chunk.
    pub closed spec fn wf(&self) -> bool {
        let chunk = self.path.chunk();
        &&& self.geometry.wf()
        &&& 0 <= chunk
        &&& chunk_error(self.geometry.total(), chunk) is None
        &&& self.path.steps().len() == self.geometry.top()
        &&& forall|i: int|
            0 <= i < self.geometry.top() ==> #[trigger] self.path.steps()[i] == path_slot(
                chunk,
                (self.geometry.top() - 1 - i) as nat,
            )
        &&& self.steps_taken + self.span.depth() == self.geometry.top()
        &&& self.span.first() == ancestor_start(chunk, self.span.depth() as nat)
        &&& self.span.size() == ancestor_size(self.geometry, chunk, self.span.depth())
        &&& 0 <= self.span.depth()
        &&& self.stage is Done <==> self.span.depth() == 0
        &&& self.stage is OldNode ==> self.span.depth() > 1
    }

    fn next_slot(&self) -> (slot: u16)
        requires
            self.wf(),
            self@.level > 0,
        ensures
            slot == self@.slot(),
    {
        self.path.slots()[self.steps_taken]
    }

    fn child_span(&self) -> (span: TreeNodeSpan)
        requires
            self.wf(),
            self@.level > 0,
        ensures
            span.depth() == self@.level - 1,
            span.first() == ancestor_start(self.path.chunk(), span.depth() as nat),
            span.size() == ancestor_size(self.geometry, self.path.chunk(), span.depth()),
    {
        let slot: u16 = self.next_slot();
        let ghost level = self.span.depth();
        proof {
            law_path_leads_to_chunk(self.geometry, self.path.chunk(), level);
            self.span.lemma_bounds(self.span);
        }
        match self.geometry.child_span(self.span, slot) {
            Ok(span) => span,
            Err(_) => self.span,
        }
    }

    fn move_to(&mut self, old_child: Option<NodeId>, new_child: NodeId)
        requires
            old(self).wf(),
            old(self)@.level > 0,
        ensures
            final(self).wf(),
            final(self)@ == old(self)@.moved_to(node_text(old_child), new_child),
            final(self).span.depth() == old(self)@.level - 1,
            final(self).chunk == old(self).chunk,
    {
        let span = self.child_span();
        proof {
            span.lemma_bounds(span);
        }
        self.stage = if span.level() == 0 {
            CowStage::Done
        } else {
            CowStage::Copy
        };
        self.span = span;
        self.steps_taken = self.steps_taken + 1;
        self.old_parent_id = old_child;
        self.new_parent_id = new_child;
    }

    /// What the plan needs next.
    pub fn next_lookup(&self) -> (lookup: CowLookup)
        requires
            self.wf(),
        ensures
            match self@.stage {
                CowStageView::Copy | CowStageView::Slot => lookup is Step,
                CowStageView::CopyNode { source } => lookup matches CowLookup::LoadNode { node_id }
                    && node_id@ == source,
                CowStageView::CopyEdges { source } => lookup matches CowLookup::LoadAllEdges {
                    parent_node_id,
                } && parent_node_id@ == source,
                CowStageView::Edge { source } => lookup matches CowLookup::LoadChildEdge {
                    parent_node_id,
                    slot,
                } && parent_node_id@ == source && slot == self@.slot(),
                CowStageView::OldNode { old_child } => lookup matches CowLookup::LoadNode {
                    node_id,
                } && node_id@ == old_child,
                CowStageView::Done => lookup is Finished,
            },
    {
        match &self.stage {
            CowStage::Copy => CowLookup::Step,
            CowStage::Slot => CowLookup::Step,
            CowStage::CopyNode { old_id } => CowLookup::LoadNode { node_id: old_id.clone() },
            CowStage::CopyEdges { old_id } => CowLookup::LoadAllEdges {
                parent_node_id: old_id.clone(),
            },
            CowStage::Edge { old_id } => CowLookup::LoadChildEdge {
                parent_node_id: old_id.clone(),
                slot: self.next_slot(),
            },
            CowStage::OldNode { old_child } => CowLookup::LoadNode { node_id: old_child.clone() },
            CowStage::Done => CowLookup::Finished,
        }
    }
}

/// The edges of a node that is copied are taken exactly when each is one of that node, for one of
/// its slots.
pub proof fn law_copied_edges_are_those_of_the_node(
    edges: Seq<TreeEdgeRecord>,
    old_parent: Seq<char>,
)
    ensures
        copied_edges_error(edges, old_parent) is None <==> forall|i: int|
            0 <= i < edges.len() ==> (#[trigger] edges[i]).parent_node_id@ == old_parent
                && edges[i].slot < 32,
    decreases edges.len(),
{
    if edges.len() > 0 {
        let front = edges.drop_last();
        let last = edges.len() - 1;
        law_copied_edges_are_those_of_the_node(front, old_parent);
        assert(edges.last() == edges[last]);
        assert(forall|i: int| 0 <= i < front.len() ==> front[i] == edges[i]);
        if copied_edges_error(edges, old_parent) is None {
            assert forall|i: int| 0 <= i < edges.len() implies (
            #[trigger] edges[i]).parent_node_id@ == old_parent && edges[i].slot < 32 by {
                if i < last {
                    assert(front[i].parent_node_id@ == old_parent && front[i].slot < 32);
                }
            }
        }
    }
}

/// A leaf that is added to a plan is the node that readers look for at the bottom, in the slot of
/// the chunk below the new node, with the chunk's own blob; all else of the plan stays as it is.
pub proof fn law_an_added_leaf_is_found_below_its_parent(
    before: CowPlannerView,
    after: CowPlannerView,
    plan: CowChunkPlanView,
    child: NodeId,
)
    requires
        new_leaf_added(before, after, plan, child),
        plan.level == 1,
        one_edge_per_slot(before.pending),
        0 <= plan.slot() <= u16::MAX,
    ensures
        after.old_root == before.old_root,
        after.new_root == before.new_root,
        after.geometry == before.geometry,
        after.owner == before.owner,
        after.internal == before.internal,
        after.copied == before.copied,
        after.nodes.drop_last() == before.nodes,
        after.nodes.last().id@ == child@,
        after.nodes.last().owner_export_id == Some(before.owner),
        loaded_node_error(
            before.geometry,
            ExportLayoutKind::CowImmutableTree,
            plan.chunk,
            0,
            after.nodes.last(),
        ) is None,
        child_in(after.pending, plan.new_parent@, plan.slot()) == Some(child@),
        after.leaf_refs.drop_last() == before.leaf_refs,
        after.leaf_refs.last().node_id@ == child@,
        after.leaf_refs.last().storage_key@ == plan.key,
        after.leaf_refs.last().storage_kind == TreeStorageKind::ImmutableBlob,
        after.leaf_refs.last().len_bytes == 33554432,
{
    law_upsert_changes_only_its_slot(
        before.pending,
        edge_of(plan.new_parent, plan.slot() as u16, child),
        plan.new_parent@,
        plan.slot(),
    );
}

/// An inner node that is added to a plan is the node that readers look for one level below, in the
/// slot of the chunk below the new node, and is remembered as new; all else of the plan stays as it
/// is.
pub proof fn law_an_added_node_is_found_below_its_parent(
    before: CowPlannerView,
    after: CowPlannerView,
    plan: CowChunkPlanView,
    child: NodeId,
)
    requires
        new_internal_added(before, after, plan, child),
        one_edge_per_slot(before.pending),
        one_edge_per_slot(before.internal),
        0 <= plan.slot() <= u16::MAX,
    ensures
        after.old_root == before.old_root,
        after.new_root == before.new_root,
        after.geometry == before.geometry,
        after.owner == before.owner,
        after.copied == before.copied,
        after.leaf_refs == before.leaf_refs,
        after.nodes.drop_last() == before.nodes,
        after.nodes.last().id@ == child@,
        after.nodes.last().owner_export_id == Some(before.owner),
        loaded_node_error(
            before.geometry,
            ExportLayoutKind::CowImmutableTree,
            plan.chunk,
            plan.level - 1,
            after.nodes.last(),
        ) is None,
        child_in(after.pending, plan.new_parent@, plan.slot()) == Some(child@),
        child_in(after.internal, plan.new_parent@, plan.slot()) == Some(child@),
{
    let edge = edge_of(plan.new_parent, plan.slot() as u16, child);
    law_upsert_changes_only_its_slot(before.pending, edge, plan.new_parent@, plan.slot());
    law_upsert_changes_only_its_slot(before.internal, edge, plan.new_parent@, plan.slot());
}

} // verus!
