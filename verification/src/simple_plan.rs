//! Plans the records that give new chunks of a mutable tree their leaves.

use crate::catalog::{
    clone_node_id, node_text, ExportId, ExportLayoutKind, NodeId, TreeEdgeRecord, TreeLeafRefRecord,
    TreeNodeRecord, TreeStorageKind,
};
use crate::error::{Result, ServerError};
use crate::geometry::{
    ancestor_start, chunk_error, law_path_leads_to_chunk, lemma_ancestor_start, path_slot,
    tree_failure, TreeGeometry, TreeNodeSpan, TreePath,
};
use crate::identity::{generated_node_id, hyphenated};
use crate::leaf_walk::{ancestor_size, loaded_node_error};
use crate::text::{text_with_number, with_number};
use crate::tree_plan::{
    check_existing_node, checked_child, child_in, contains_node, edge_answer_error,
    existing_node_error, extends, find_child, has_node, is_edge, is_leaf_ref, is_node, leaf_below,
    lemma_leaf_is_lowest, lemma_path_goes_on, lemma_path_is_kept, node_below, Children, ChunkRef,
    TreeRecordBatch,
};
use crate::tree_records::TreeRecordFactory;
use vstd::prelude::*;

verus! {

/// Collects the records for new chunks of one mutable tree.
#[derive(Debug)]
pub struct SimpleTreeCommitPlanner {
    geometry: TreeGeometry,
    factory: TreeRecordFactory,
    root_node_id: Option<NodeId>,
    records: TreeRecordBatch,
}

/// What a planner has collected.
pub struct SimplePlannerView {
    pub geometry: TreeGeometry,
    pub owner: ExportId,
    pub root: Option<Seq<char>>,
    pub nodes: Seq<TreeNodeRecord>,
    pub edges: Seq<TreeEdgeRecord>,
    pub leaf_refs: Seq<TreeLeafRefRecord>,
}

/// What the plan of a chunk waits for.
#[derive(Debug)]
enum PlanStage {
    Slot,
    Edge,
    Node { child_id: NodeId },
    Done,
}

/// What the plan of a chunk waits for.
pub enum PlanStageView {
    /// A step that needs nothing from the catalog yet.
    Slot,
    /// The edge that the catalog holds for the next slot.
    Edge,
    /// The node that the edge leads to.
    Node { child: Seq<char> },
    /// Nothing: the chunk has its leaf.
    Done,
}

/// The way from the root to the leaf of a new chunk.
#[derive(Debug)]
pub struct SimpleChunkPlan {
    geometry: TreeGeometry,
    chunk: ChunkRef,
    path: TreePath,
    steps_taken: usize,
    parent_id: NodeId,
    span: TreeNodeSpan,
    stage: PlanStage,
}

/// State of a plan: the node reached, the levels left above the leaf, and what it waits for.
pub struct SimpleChunkPlanView {
    pub geometry: TreeGeometry,
    pub chunk: int,
    pub key: Seq<char>,
    pub level: int,
    pub parent: Seq<char>,
    pub stage: PlanStageView,
}

/// What a plan needs next.
#[derive(Debug)]
pub enum PlanLookup {
    Step,
    LoadChildEdge { parent_node_id: NodeId, slot: u16 },
    LoadNode { node_id: NodeId },
    Finished,
}

impl View for SimpleTreeCommitPlanner {
    type V = SimplePlannerView;

    closed spec fn view(&self) -> SimplePlannerView {
        SimplePlannerView {
            geometry: self.geometry,
            owner: self.factory.owner()->0,
            root: node_text(self.root_node_id),
            nodes: self.records.nodes@,
            edges: self.records.edges@,
            leaf_refs: self.records.leaf_refs@,
        }
    }
}

impl View for SimpleChunkPlan {
    type V = SimpleChunkPlanView;

    closed spec fn view(&self) -> SimpleChunkPlanView {
        SimpleChunkPlanView {
            geometry: self.geometry,
            chunk: self.path.chunk(),
            key: self.chunk.key(),
            level: self.span.depth(),
            parent: self.parent_id@,
            stage: match self.stage {
                PlanStage::Slot => PlanStageView::Slot,
                PlanStage::Edge => PlanStageView::Edge,
                PlanStage::Node { child_id } => PlanStageView::Node { child: child_id@ },
                PlanStage::Done => PlanStageView::Done,
            },
        }
    }
}

impl SimpleChunkPlanView {
    /// The slot that leads on from the node reached.
    pub open spec fn slot(self) -> int {
        path_slot(self.chunk, (self.level - 1) as nat)
    }

    /// The plan one level further down.
    pub open spec fn moved_to(self, child: Seq<char>) -> SimpleChunkPlanView {
        SimpleChunkPlanView {
            level: self.level - 1,
            parent: child,
            stage: if self.level == 1 {
                PlanStageView::Done
            } else {
                PlanStageView::Slot
            },
            ..self
        }
    }
}

/// The records of a new child were added below the node that the plan has reached.
pub open spec fn child_added(
    before: SimplePlannerView,
    after: SimplePlannerView,
    plan: SimpleChunkPlanView,
    child: Seq<char>,
) -> bool {
    &&& after.geometry == before.geometry
    &&& after.owner == before.owner
    &&& after.root == before.root
    &&& extends(before.nodes, after.nodes)
    &&& is_node(
        after.nodes.last(),
        child,
        ExportLayoutKind::SimpleMutableTree,
        Some(before.owner),
        before.geometry,
        plan.chunk,
        plan.level - 1,
    )
    &&& extends(before.edges, after.edges)
    &&& is_edge(after.edges.last(), plan.parent, plan.slot(), child)
    &&& if plan.level == 1 {
        &&& extends(before.leaf_refs, after.leaf_refs)
        &&& is_leaf_ref(after.leaf_refs.last(), child, TreeStorageKind::MutableBlob, plan.key)
    } else {
        after.leaf_refs == before.leaf_refs
    }
}

/// The root was added to a tree that had none.
pub open spec fn root_added(
    before: SimplePlannerView,
    after: SimplePlannerView,
    root: Seq<char>,
) -> bool {
    &&& after.geometry == before.geometry
    &&& after.owner == before.owner
    &&& after.root == Some(root)
    &&& extends(before.nodes, after.nodes)
    &&& is_node(
        after.nodes.last(),
        root,
        ExportLayoutKind::SimpleMutableTree,
        Some(before.owner),
        before.geometry,
        0,
        before.geometry.top(),
    )
    &&& after.edges == before.edges
    &&& after.leaf_refs == before.leaf_refs
}

/// The plan of a chunk that stands on the root.
pub open spec fn plan_at_root(
    geometry: TreeGeometry,
    chunk: int,
    key: Seq<char>,
    root: Seq<char>,
) -> SimpleChunkPlanView {
    SimpleChunkPlanView {
        geometry,
        chunk,
        key,
        level: geometry.top(),
        parent: root,
        stage: PlanStageView::Slot,
    }
}

/// What a plan does that needs nothing from the catalog for its next step.
pub open spec fn takes_step(
    before: SimplePlannerView,
    after: SimplePlannerView,
    plan: SimpleChunkPlanView,
    next: SimpleChunkPlanView,
    result: Result<()>,
) -> bool {
    match child_in(before.edges, plan.parent, plan.slot()) {
        Some(child) => {
            &&& after == before
            &&& if plan.level == 1 {
                &&& result matches Err(error) && error@ == tree_failure(
                    with_number(
                        "chunk "@,
                        plan.chunk as nat,
                        " is already pending"@,
                    ),
                )
                &&& next == plan
            } else {
                &&& result is Ok
                &&& next == plan.moved_to(child)
            }
        },
        None => {
            &&& result is Ok
            &&& if has_node(before.nodes, plan.parent) {
                &&& hyphenated(next.parent)
                &&& child_added(
                    before,
                    after,
                    plan,
                    next.parent,
                )
                &&& next == plan.moved_to(next.parent)
            } else {
                &&& after == before
                &&& next == (SimpleChunkPlanView {
                    stage: PlanStageView::Edge,
                    ..plan
                })
            }
        },
    }
}

/// What a plan does with the edges of the slot that it asked for.
pub open spec fn takes_edges(
    before: SimplePlannerView,
    after: SimplePlannerView,
    plan: SimpleChunkPlanView,
    next: SimpleChunkPlanView,
    edges: Seq<TreeEdgeRecord>,
    result: Result<()>,
) -> bool {
    match edge_answer_error(edges, plan.parent, plan.slot()) {
        Some(failure) => {
            &&& result matches Err(error) && error@ == failure
            &&& after == before
            &&& next == plan
        },
        None => if edges.len() == 0 {
            &&& result is Ok
            &&& hyphenated(next.parent)
            &&& child_added(before, after, plan, next.parent)
            &&& next == plan.moved_to(next.parent)
        } else if plan.level == 1 {
            &&& result matches Err(error) && error@ == tree_failure(
                with_number(
                    "chunk "@,
                    plan.chunk as nat,
                    " is already materialized"@,
                ),
            )
            &&& after == before
            &&& next == plan
        } else {
            &&& result is Ok
            &&& after == before
            &&& next == (SimpleChunkPlanView {
                stage: PlanStageView::Node { child: edges[0].child_node_id@ },
                ..plan
            })
        },
    }
}

/// What a plan does with the node that it asked for.
pub open spec fn takes_node(
    plan: SimpleChunkPlanView,
    next: SimpleChunkPlanView,
    node: Option<TreeNodeRecord>,
    result: Result<()>,
) -> bool {
    match existing_node_error(
        node,
        plan.stage->child,
        ExportLayoutKind::SimpleMutableTree,
        plan.geometry,
        plan.chunk,
        plan.level - 1,
        "simple"@,
    ) {
        Some(failure) => {
            &&& result matches Err(error) && error@ == failure
            &&& next == plan
        },
        None => {
            &&& result is Ok
            &&& next == plan.moved_to(plan.stage->child)
        },
    }
}

impl SimpleTreeCommitPlanner {
    pub closed spec fn wf(&self) -> bool {
        &&& self.factory.shape() == self.geometry
        &&& self.factory.layout() == ExportLayoutKind::SimpleMutableTree
        &&& self.factory.owner() is Some
        &&& self.geometry.wf()
    }

    /// A planner for a tree with the root, if it has one yet.
    pub fn new(geometry: TreeGeometry, export_id: &ExportId, root_node_id: &Option<NodeId>) -> (planner:
        Self)
        ensures
            planner.wf(),
            planner@.geometry == geometry,
            planner@.owner == *export_id,
            planner@.root == node_text(*root_node_id),
            planner@.nodes.len() == 0,
            planner@.edges.len() == 0,
            planner@.leaf_refs.len() == 0,
    {
        let _ = geometry.root_span();
        Self {
            geometry,
            factory: TreeRecordFactory::new(
                geometry,
                ExportLayoutKind::SimpleMutableTree,
                Some(export_id.clone()),
            ),
            root_node_id: clone_node_id(root_node_id),
            records: TreeRecordBatch::new(),
        }
    }

    pub fn root_node_id(&self) -> (id: &Option<NodeId>)
        ensures
            node_text(*id) == self@.root,
    {
        &self.root_node_id
    }

    /// Starts the plan of a chunk. A tree without a root gets one.
    pub fn begin(&mut self, chunk: ChunkRef) -> (result: Result<SimpleChunkPlan>)
        requires
            old(self).wf(),
        ensures
            final(self).wf(),
            match chunk_error(old(self)@.geometry.total(), chunk.index()) {
                Some(failure) => {
                    &&& result matches Err(error) && error@ == failure
                    &&& *final(self) == *old(self)
                },
                None => {
                    &&& result matches Ok(plan) && plan.wf() && plan@ == plan_at_root(
                        old(self)@.geometry,
                        chunk.index(),
                        chunk.key(),
                        plan@.parent,
                    ) && match old(self)@.root {
                        Some(root) => plan@.parent == root && *final(self) == *old(self),
                        None => hyphenated(plan@.parent) && root_added(
                            old(self)@,
                            final(self)@,
                            plan@.parent,
                        ),
                    }
                },
            },
    {
        let path = match self.geometry.path_for_chunk(chunk.chunk_index()) {
            Ok(path) => path,
            Err(error) => {
                return Err(error);
            },
        };
        let parent_id = match &self.root_node_id {
            Some(root) => root.clone(),
            None => {
                let root = generated_node_id();
                self.add_root(root.clone());
                root
            },
        };
        let span = self.geometry.root_span();
        proof {
            chunk.lemma_index();
            law_path_leads_to_chunk(self.geometry, chunk.index(), self.geometry.top());
        }
        Ok(
            SimpleChunkPlan {
                geometry: self.geometry,
                chunk,
                path,
                steps_taken: 0,
                parent_id,
                span,
                stage: PlanStage::Slot,
            },
        )
    }

    /// Gives the tree its root.
    pub fn add_root(&mut self, id: NodeId)
        requires
            old(self).wf(),
            old(self)@.root is None,
        ensures
            final(self).wf(),
            root_added(old(self)@, final(self)@, id@),
    {
        let record = self.factory.root_node(id.clone());
        proof {
            lemma_ancestor_start(0, self.geometry.top() as nat);
        }
        self.records.nodes.push(record);
        self.root_node_id = Some(id);
        proof {
            assert(self.records.nodes@.drop_last() =~= old(self).records.nodes@);
        }
    }

    /// Takes the next step of a plan that needs nothing from the catalog for it.
    pub fn step(&mut self, plan: &mut SimpleChunkPlan) -> (result: Result<()>)
        requires
            old(self).wf(),
            old(plan).wf(),
            old(plan)@.geometry == old(self)@.geometry,
            old(plan)@.stage is Slot,
        ensures
            final(self).wf(),
            final(plan).wf(),
            match child_in(old(self)@.edges, old(plan)@.parent, old(plan)@.slot()) {
                Some(child) => {
                    &&& *final(self) == *old(self)
                    &&& if old(plan)@.level == 1 {
                        &&& result matches Err(error) && error@ == tree_failure(
                            with_number(
                                "chunk "@,
                                old(plan)@.chunk as nat,
                                " is already pending"@,
                            ),
                        )
                        &&& *final(plan) == *old(plan)
                    } else {
                        &&& result is Ok
                        &&& final(plan)@ == old(plan)@.moved_to(child)
                    }
                },
                None => {
                    &&& result is Ok
                    &&& if has_node(old(self)@.nodes, old(plan)@.parent) {
                        &&& hyphenated(final(plan)@.parent)
                        &&& child_added(
                            old(self)@,
                            final(self)@,
                            old(plan)@,
                            final(plan)@.parent,
                        )
                        &&& final(plan)@ == old(plan)@.moved_to(final(plan)@.parent)
                    } else {
                        &&& *final(self) == *old(self)
                        &&& final(plan)@ == (SimpleChunkPlanView {
                            stage: PlanStageView::Edge,
                            ..old(plan)@
                        })
                    }
                },
            },
            takes_step(old(self)@, final(self)@, old(plan)@, final(plan)@, result),
    {
        let slot: u16 = plan.next_slot();
        match find_child(&self.records.edges, &plan.parent_id, slot) {
            Some(child) => {
                proof {
                    plan.span.lemma_bounds(plan.span);
                }
                if plan.span.level() == 1 {
                    return Err(
                        ServerError::catalog(
                            text_with_number(
                                "chunk ",
                                plan.path.chunk_index().get(),
                                " is already pending",
                            ),
                        ),
                    );
                }
                plan.move_to(child);
            },
            None => {
                if contains_node(&self.records.nodes, &plan.parent_id) {
                    let id = generated_node_id();
                    self.create_child(plan, id);
                } else {
                    plan.stage = PlanStage::Edge;
                }
            },
        }
        Ok(())
    }

    /// Takes in the edges that the catalog holds for the slot that was asked for.
    pub fn edges_loaded(&mut self, plan: &mut SimpleChunkPlan, edges: Vec<TreeEdgeRecord>) -> (result:
        Result<()>)
        requires
            old(self).wf(),
            old(plan).wf(),
            old(plan)@.geometry == old(self)@.geometry,
            old(plan)@.stage is Edge,
        ensures
            final(self).wf(),
            final(plan).wf(),
            match edge_answer_error(edges@, old(plan)@.parent, old(plan)@.slot()) {
                Some(failure) => {
                    &&& result matches Err(error) && error@ == failure
                    &&& *final(self) == *old(self)
                    &&& *final(plan) == *old(plan)
                },
                None => if edges@.len() == 0 {
                    &&& result is Ok
                    &&& hyphenated(final(plan)@.parent)
                    &&& child_added(old(self)@, final(self)@, old(plan)@, final(plan)@.parent)
                    &&& final(plan)@ == old(plan)@.moved_to(final(plan)@.parent)
                } else if old(plan)@.level == 1 {
                    &&& result matches Err(error) && error@ == tree_failure(
                        with_number(
                            "chunk "@,
                            old(plan)@.chunk as nat,
                            " is already materialized"@,
                        ),
                    )
                    &&& *final(self) == *old(self)
                    &&& *final(plan) == *old(plan)
                } else {
                    &&& result is Ok
                    &&& *final(self) == *old(self)
                    &&& final(plan)@ == (SimpleChunkPlanView {
                        stage: PlanStageView::Node { child: edges@[0].child_node_id@ },
                        ..old(plan)@
                    })
                },
            },
            takes_edges(old(self)@, final(self)@, old(plan)@, final(plan)@, edges@, result),
    {
        let slot: u16 = plan.next_slot();
        match checked_child(&edges, &plan.parent_id, slot) {
            Err(error) => Err(error),
            Ok(None) => {
                let id = generated_node_id();
                self.create_child(plan, id);
                Ok(())
            },
            Ok(Some(child_id)) => {
                proof {
                    plan.span.lemma_bounds(plan.span);
                }
                if plan.span.level() == 1 {
                    return Err(
                        ServerError::catalog(
                            text_with_number(
                                "chunk ",
                                plan.path.chunk_index().get(),
                                " is already materialized",
                            ),
                        ),
                    );
                }
                plan.stage = PlanStage::Node { child_id };
                Ok(())
            },
        }
    }

    /// Adds a child with the identity below the node that the plan has reached.
    pub fn create_child(&mut self, plan: &mut SimpleChunkPlan, id: NodeId)
        requires
            old(self).wf(),
            old(plan).wf(),
            old(plan)@.geometry == old(self)@.geometry,
            old(plan)@.stage is Slot || old(plan)@.stage is Edge,
        ensures
            final(self).wf(),
            final(plan).wf(),
            child_added(old(self)@, final(self)@, old(plan)@, id@),
            final(plan)@ == old(plan)@.moved_to(id@),
    {
        let slot: u16 = plan.next_slot();
        let edge = self.factory.child_edge(plan.parent_id.clone(), slot, id.clone());
        plan.move_to(id.clone());
        proof {
            plan.span.lemma_bounds(plan.span);
        }
        if plan.span.level() == 0 {
            self.records.nodes.push(self.factory.leaf_node(id.clone(), plan.span));
            self.records.leaf_refs.push(
                self.factory.leaf_ref(id, TreeStorageKind::MutableBlob, plan.chunk.blob_key().clone()),
            );
            proof {
                assert(self.records.leaf_refs@.drop_last() =~= old(self).records.leaf_refs@);
            }
        } else {
            self.records.nodes.push(self.factory.internal_node(id, plan.span));
        }
        self.records.edges.push(edge);
        proof {
            assert(self.records.nodes@.drop_last() =~= old(self).records.nodes@);
            assert(self.records.edges@.drop_last() =~= old(self).records.edges@);
        }
    }

    /// The root and the records of all the planned chunks.
    pub fn finish(self) -> (result: (Option<NodeId>, TreeRecordBatch))
        ensures
            node_text(result.0) == self@.root,
            result.1.nodes@ == self@.nodes,
            result.1.edges@ == self@.edges,
            result.1.leaf_refs@ == self@.leaf_refs,
    {
        (self.root_node_id, self.records)
    }
}

impl SimpleChunkPlan {
    /// The plan stands on the path to its chunk.
    pub closed spec fn wf(&self) -> bool {
        let chunk = self.path.chunk();
        &&& self.geometry.wf()
        &&& 0 <= chunk
        &&& chunk_error(self.geometry.total(), chunk) is None
        &&& self.path.steps().len() == self.geometry.top()
        &&& forall|i: int|
            0 <= i < self.geometry.top() ==> #[trigger] self.path.steps()[i] == path_slot(
                chunk,
                (self.geometry.top() - 1 - i) as nat,
            )
        &&& self.steps_taken + self.span.depth() == self.geometry.top()
        &&& self.span.first() == ancestor_start(chunk, self.span.depth() as nat)
        &&& self.span.size() == ancestor_size(self.geometry, chunk, self.span.depth())
        &&& 0 <= self.span.depth()
        &&& self.stage is Done <==> self.span.depth() == 0
        &&& self.stage is Node ==> self.span.depth() > 1
    }

    fn next_slot(&self) -> (slot: u16)
        requires
            self.wf(),
            !(self@.stage is Done),
        ensures
            slot == self@.slot(),
    {
        self.path.slots()[self.steps_taken]
    }

    fn move_to(&mut self, child: NodeId)
        requires
            old(self).wf(),
            !(old(self)@.stage is Done),
        ensures
            final(self).wf(),
            final(self)@ == old(self)@.moved_to(child@),
            final(self).span.depth() == old(self)@.level - 1,
            final(self).chunk == old(self).chunk,
    {
        let slot: u16 = self.next_slot();
        let ghost level = self.span.depth();
        proof {
            law_path_leads_to_chunk(self.geometry, self.path.chunk(), level);
            self.span.lemma_bounds(self.span);
        }
        let span = match self.geometry.child_span(self.span, slot) {
            Ok(span) => span,
            Err(_) => self.span,
        };
        proof {
            span.lemma_bounds(span);
        }
        self.stage = if span.level() == 0 {
            PlanStage::Done
        } else {
            PlanStage::Slot
        };
        self.span = span;
        self.steps_taken = self.steps_taken + 1;
        self.parent_id = child;
    }

    /// What the plan needs next.
    pub fn next_lookup(&self) -> (lookup: PlanLookup)
        requires
            self.wf(),
        ensures
            match self@.stage {
                PlanStageView::Slot => lookup is Step,
                PlanStageView::Edge => lookup matches PlanLookup::LoadChildEdge {
                    parent_node_id,
                    slot,
                } && parent_node_id@ == self@.parent && slot == self@.slot(),
                PlanStageView::Node { child } => lookup matches PlanLookup::LoadNode { node_id }
                    && node_id@ == child,
                PlanStageView::Done => lookup is Finished,
            },
    {
        match &self.stage {
            PlanStage::Slot => PlanLookup::Step,
            PlanStage::Edge => PlanLookup::LoadChildEdge {
                parent_node_id: self.parent_id.clone(),
                slot: self.next_slot(),
            },
            PlanStage::Node { child_id } => PlanLookup::LoadNode { node_id: child_id.clone() },
            PlanStage::Done => PlanLookup::Finished,
        }
    }

    /// Takes in the node that was asked for.
    pub fn node_loaded(&mut self, node: Option<TreeNodeRecord>) -> (result: Result<()>)
        requires
            old(self).wf(),
            old(self)@.stage is Node,
        ensures
            final(self).wf(),
            match existing_node_error(
                node,
                old(self)@.stage->child,
                ExportLayoutKind::SimpleMutableTree,
                old(self)@.geometry,
                old(self)@.chunk,
                old(self)@.level - 1,
                "simple"@,
            ) {
                Some(failure) => {
                    &&& result matches Err(error) && error@ == failure
                    &&& *final(self) == *old(self)
                },
                None => {
                    &&& result is Ok
                    &&& final(self)@ == old(self)@.moved_to(old(self)@.stage->child)
                },
            },
            takes_node(old(self)@, final(self)@, node, result),
    {
        let child_id = match &self.stage {
            PlanStage::Node { child_id } => child_id.clone(),
            _ => NodeId::new(String::new()),
        };
        let slot: u16 = self.next_slot();
        let ghost level = self.span.depth();
        proof {
            law_path_leads_to_chunk(self.geometry, self.path.chunk(), level);
            self.span.lemma_bounds(self.span);
        }
        let span = match self.geometry.child_span(self.span, slot) {
            Ok(span) => span,
            Err(error) => {
                return Err(error);
            },
        };
        match check_existing_node(
            &node,
            &child_id,
            ExportLayoutKind::SimpleMutableTree,
            span,
            "simple",
            Ghost(self.geometry),
            Ghost(self.path.chunk()),
        ) {
            Ok(_) => {},
            Err(error) => {
                return Err(error);
            },
        }
        self.move_to(child_id);
        Ok(())
    }
}

/// The children of the nodes of a tree with the planned records in it. `stored` says which children
/// the catalog holds.
pub open spec fn planned_children(planner: SimplePlannerView, stored: Children) -> Children {
    |parent: Seq<char>, slot: int|
        match child_in(planner.edges, parent, slot) {
            Some(child) => Some(child),
            None => if has_node(planner.nodes, parent) {
                None
            } else {
                stored(parent, slot)
            },
        }
}

/// A new child, put where there was none, with an identity that the catalog knows nothing of,
/// changes no child.
proof fn lemma_children_are_kept(
    before: SimplePlannerView,
    after: SimplePlannerView,
    stored: Children,
    plan: SimpleChunkPlanView,
    child: Seq<char>,
)
    requires
        child_added(before, after, plan, child),
        planned_children(before, stored)(plan.parent, plan.slot()) is None,
        forall|slot: int| #[trigger] stored(child, slot) is None,
    ensures
        planned_children(after, stored)(plan.parent, plan.slot()) == Some(child),
        forall|parent: Seq<char>, slot: int|
            (#[trigger] planned_children(before, stored)(parent, slot)) is Some
                ==> planned_children(after, stored)(parent, slot) == planned_children(
                before,
                stored,
            )(parent, slot),
{
    assert forall|parent: Seq<char>, slot: int|
        (#[trigger] planned_children(before, stored)(parent, slot)) is Some implies planned_children(
        after,
        stored,
    )(parent, slot) == planned_children(before, stored)(parent, slot) by {
        assert(stored(child, slot) is None);
        assert(after.edges.last().parent_node_id@ == plan.parent);
        if has_node(after.nodes, parent) {
            let i = choose|i: int|
                0 <= i < after.nodes.len() && (#[trigger] after.nodes[i]).id@ == parent;
            if i < before.nodes.len() {
                assert(after.nodes.drop_last()[i] == after.nodes[i]);
                assert(before.nodes[i].id@ == parent);
            } else {
                assert(after.nodes[i] == after.nodes.last());
            }
        }
    }
}

/// The plan stands on the path of its chunk in the tree with the planned records.
pub open spec fn follows(
    planner: SimplePlannerView,
    plan: SimpleChunkPlanView,
    stored: Children,
) -> bool {
    let top = planner.geometry.top();
    &&& plan.geometry == planner.geometry
    &&& 0 <= plan.level <= top
    &&& plan.stage is Done <==> plan.level == 0
    &&& planner.root matches Some(root) && node_below(
        planned_children(planner, stored),
        root,
        plan.chunk,
        top as nat,
        plan.level as nat,
    ) == Some(plan.parent)
    &&& plan.stage is Edge || plan.stage is Node ==> {
        &&& child_in(planner.edges, plan.parent, plan.slot()) is None
        &&& !has_node(planner.nodes, plan.parent)
    }
    &&& plan.stage matches PlanStageView::Node { child } ==> plan.level > 1 && stored(
        plan.parent,
        plan.slot(),
    ) == Some(child)
}

/// A step of a plan that the catalog answered truly.
pub open spec fn moves(
    before: SimplePlannerView,
    after: SimplePlannerView,
    plan: SimpleChunkPlanView,
    next: SimpleChunkPlanView,
    stored: Children,
) -> bool {
    let added = child_added(before, after, plan, next.parent) && next == plan.moved_to(next.parent);
    match plan.stage {
        PlanStageView::Slot => match child_in(before.edges, plan.parent, plan.slot()) {
            Some(child) => plan.level > 1 && after == before && next == plan.moved_to(child),
            None => if has_node(before.nodes, plan.parent) {
                added
            } else {
                after == before && next == (SimpleChunkPlanView {
                    stage: PlanStageView::Edge,
                    ..plan
                })
            },
        },
        PlanStageView::Edge => match stored(plan.parent, plan.slot()) {
            Some(child) => plan.level > 1 && after == before && next == (SimpleChunkPlanView {
                stage: PlanStageView::Node { child },
                ..plan
            }),
            None => added,
        },
        PlanStageView::Node { child } => after == before && next == plan.moved_to(child),
        PlanStageView::Done => false,
    }
}

/// A plan starts on the root.
pub proof fn law_plan_starts_on_the_path(
    planner: SimplePlannerView,
    stored: Children,
    chunk: int,
    key: Seq<char>,
    root: Seq<char>,
)
    requires
        planner.root == Some(root),
        1 <= planner.geometry.top(),
    ensures
        follows(planner, plan_at_root(planner.geometry, chunk, key, root), stored),
{
}

/// Every step keeps a plan on the path of its chunk, as long as the catalog answers truly and holds
/// no children of a new node.
pub proof fn law_plan_stays_on_the_path(
    before: SimplePlannerView,
    after: SimplePlannerView,
    plan: SimpleChunkPlanView,
    next: SimpleChunkPlanView,
    stored: Children,
)
    requires
        follows(before, plan, stored),
        moves(before, after, plan, next, stored),
        after.nodes.len() > before.nodes.len() ==> forall|slot: int| #[trigger]
            stored(next.parent, slot) is None,
    ensures
        follows(after, next, stored),
{
    let root = before.root->0;
    let top = before.geometry.top() as nat;
    let was = planned_children(before, stored);
    let is = planned_children(after, stored);
    if next.level < plan.level {
        if after.nodes.len() > before.nodes.len() {
            assert(was(plan.parent, plan.slot()) is None);
            lemma_children_are_kept(before, after, stored, plan, next.parent);
            lemma_path_is_kept(was, is, root, plan.chunk, top, plan.level as nat);
        }
        assert(is(plan.parent, plan.slot()) == Some(next.parent));
        lemma_path_goes_on(is, root, plan.chunk, top, plan.level as nat);
    }
}

/// Where a plan is done, its chunk leads from the root to the leaf that was added for it.
pub proof fn law_planned_chunk_is_found(
    planner: SimplePlannerView,
    plan: SimpleChunkPlanView,
    stored: Children,
)
    requires
        follows(planner, plan, stored),
        plan.stage is Done,
    ensures
        planner.root matches Some(root) && leaf_below(
            planned_children(planner, stored),
            root,
            plan.chunk,
            planner.geometry.top() as nat,
        ) == Some(plan.parent),
{
    lemma_leaf_is_lowest(
        planned_children(planner, stored),
        planner.root->0,
        plan.chunk,
        planner.geometry.top() as nat,
    );
}

/// A new leaf is what its chunk leads to from the node above it.
pub proof fn law_new_leaf_is_found(
    before: SimplePlannerView,
    after: SimplePlannerView,
    stored: Children,
    plan: SimpleChunkPlanView,
    child: Seq<char>,
)
    requires
        plan.level == 1,
        child_added(before, after, plan, child),
    ensures
        leaf_below(planned_children(after, stored), plan.parent, plan.chunk, 1) == Some(child),
        is_leaf_ref(after.leaf_refs.last(), child, TreeStorageKind::MutableBlob, plan.key),
{
    assert(planned_children(after, stored)(plan.parent, plan.slot()) == Some(child));
    reveal_with_fuel(leaf_below, 2);
}

/// A new child, put where there was none, with an identity that the catalog knows nothing of,
/// leaves every leaf where it was.
pub proof fn law_planning_keeps_every_leaf(
    before: SimplePlannerView,
    after: SimplePlannerView,
    stored: Children,
    plan: SimpleChunkPlanView,
    child: Seq<char>,
    node: Seq<char>,
    chunk: int,
    level: nat,
)
    requires
        child_added(before, after, plan, child),
        planned_children(before, stored)(plan.parent, plan.slot()) is None,
        forall|slot: int| #[trigger] stored(child, slot) is None,
        leaf_below(planned_children(before, stored), node, chunk, level) is Some,
    ensures
        leaf_below(planned_children(after, stored), node, chunk, level) == leaf_below(
            planned_children(before, stored),
            node,
            chunk,
            level,
        ),
{
    let was = planned_children(before, stored);
    let is = planned_children(after, stored);
    lemma_children_are_kept(before, after, stored, plan, child);
    lemma_leaf_is_lowest(was, node, chunk, level);
    lemma_leaf_is_lowest(is, node, chunk, level);
    lemma_path_is_kept(was, is, node, chunk, level, 0);
}

/// A step that needs nothing from the catalog moves the plan on, but where the chunk has a leaf in
/// the plan already: then the chunk is refused and nothing changes.
pub proof fn law_a_step_moves_the_plan(
    before: SimplePlannerView,
    after: SimplePlannerView,
    plan: SimpleChunkPlanView,
    next: SimpleChunkPlanView,
    result: Result<()>,
    stored: Children,
)
    requires
        plan.stage is Slot,
        plan.level >= 1,
        takes_step(before, after, plan, next, result),
    ensures
        result is Err <==> plan.level == 1 && child_in(before.edges, plan.parent, plan.slot())
            is Some,
        result is Err ==> after == before && next == plan,
        result is Ok ==> moves(before, after, plan, next, stored),
{
}

/// What the catalog holds in the slot that a plan asked for moves the plan on, but where the chunk
/// has a leaf already: then the chunk is refused and nothing changes.
pub proof fn law_a_true_edge_moves_the_plan(
    before: SimplePlannerView,
    after: SimplePlannerView,
    plan: SimpleChunkPlanView,
    next: SimpleChunkPlanView,
    edges: Seq<TreeEdgeRecord>,
    result: Result<()>,
    stored: Children,
)
    requires
        plan.stage is Edge,
        plan.level >= 1,
        takes_edges(before, after, plan, next, edges, result),
    ensures
        ({
            let proper = edges.len() == 0 || (edges.len() == 1 && edges[0].parent_node_id@
                == plan.parent && edges[0].slot == plan.slot());
            let held = if edges.len() == 0 {
                None
            } else {
                Some(edges[0].child_node_id@)
            };
            &&& result is Ok <==> proper && (plan.level == 1 ==> held is None)
            &&& result is Err ==> after == before && next == plan
            &&& result is Ok && stored(plan.parent, plan.slot()) == held ==> moves(
                before,
                after,
                plan,
                next,
                stored,
            )
        }),
{
}

/// A node that is there and belongs where the plan goes moves the plan on; any other stops it.
pub proof fn law_a_true_node_moves_the_plan(
    before: SimplePlannerView,
    plan: SimpleChunkPlanView,
    next: SimpleChunkPlanView,
    node: Option<TreeNodeRecord>,
    result: Result<()>,
    stored: Children,
)
    requires
        plan.stage is Node,
        takes_node(plan, next, node, result),
    ensures
        result is Ok <==> existing_node_error(
            node,
            plan.stage->child,
            ExportLayoutKind::SimpleMutableTree,
            plan.geometry,
            plan.chunk,
            plan.level - 1,
            "simple"@,
        ) is None,
        result is Err ==> next == plan,
        result is Ok ==> moves(before, before, plan, next, stored),
{
}

/// A root that is added to a plan is one node more, the one that readers look for at the top of the
/// tree, with nothing below it yet; all else of the plan stays as it is.
pub proof fn law_an_added_root_is_the_top_of_the_tree(
    before: SimplePlannerView,
    after: SimplePlannerView,
    root: Seq<char>,
    chunk: int,
)
    requires
        root_added(before, after, root),
        before.geometry.wf(),
        0 <= chunk,
        chunk * 33554432 < before.geometry.total(),
    ensures
        after.root == Some(root),
        after.geometry == before.geometry,
        after.owner == before.owner,
        after.edges == before.edges,
        after.leaf_refs == before.leaf_refs,
        after.nodes.len() == before.nodes.len() + 1,
        after.nodes.drop_last() == before.nodes,
        after.nodes.last().id@ == root,
        after.nodes.last().owner_export_id == Some(before.owner),
        loaded_node_error(
            before.geometry,
            ExportLayoutKind::SimpleMutableTree,
            chunk,
            before.geometry.top(),
            after.nodes.last(),
        ) is None,
{
    law_path_leads_to_chunk(before.geometry, chunk, before.geometry.top());
    law_path_leads_to_chunk(before.geometry, 0, before.geometry.top());
}

/// A child that is added to a plan is the node that readers look for one level below, in the slot of
/// the chunk, and at the bottom a leaf of the chunk's own blob; all else of the plan stays as it is.
pub proof fn law_an_added_child_is_found_below_its_parent(
    before: SimplePlannerView,
    after: SimplePlannerView,
    plan: SimpleChunkPlanView,
    child: Seq<char>,
)
    requires
        child_added(before, after, plan, child),
    ensures
        after.root == before.root,
        after.geometry == before.geometry,
        after.owner == before.owner,
        after.nodes.drop_last() == before.nodes,
        after.nodes.last().id@ == child,
        after.nodes.last().owner_export_id == Some(before.owner),
        loaded_node_error(
            before.geometry,
            ExportLayoutKind::SimpleMutableTree,
            plan.chunk,
            plan.level - 1,
            after.nodes.last(),
        ) is None,
        after.edges.drop_last() == before.edges,
        child_in(after.edges, plan.parent, plan.slot()) == Some(child),
        plan.level == 1 ==> {
            &&& after.leaf_refs.drop_last() == before.leaf_refs
            &&& after.leaf_refs.last().node_id@ == child
            &&& after.leaf_refs.last().storage_key@ == plan.key
            &&& after.leaf_refs.last().storage_kind == TreeStorageKind::MutableBlob
            &&& after.leaf_refs.last().len_bytes == 33554432
        },
        plan.level != 1 ==> after.leaf_refs == before.leaf_refs,
{
}

} // verus!
