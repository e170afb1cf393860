//! The tree that the records of a new root make beside the old one.

use crate::catalog::{
    ExportLayoutKind, NodeId, TreeEdgeRecord, TreeLeafRefRecord, TreeNodeKind, TreeNodeRecord,
    TreeStorageKind,
};
use crate::cow_plan::{
    among, copied_edges_error, copy_decided, edge_of, edges_copied, goes_on,
    law_copied_edges_are_those_of_the_node, lemma_copied_edges_fine, lemma_edges_copied,
    merged_children, new_internal_added, new_leaf_added, plan_at_roots, slot_decided,
    takes_all_edges, takes_edges, takes_node, CowChunkPlanView, CowPlannerView, CowStageView,
    CowTreePublishPlanner,
};
use crate::error::Result;
use crate::geometry::{ancestor_start, capacity, lemma_capacity, path_slot};
use crate::leaf_walk::ancestor_size;
use crate::tree_plan::{
    child_in, extends, has_node, is_leaf_ref, leaf_below, lemma_upserted, Children,
};
use vstd::arithmetic::div_mod::{lemma_div_denominator, lemma_fundamental_div_mod};
use vstd::prelude::*;

verus! {

/// A new internal node, and the old node that it takes the place of, if there is one.
pub struct NewNode {
    pub id: Seq<char>,
    pub source: Option<Seq<char>>,
}

/// A new leaf, and the key of its blob.
pub struct NewLeaf {
    pub id: Seq<char>,
    pub key: Seq<char>,
}

/// New internal nodes by their level and their index among the nodes of the level.
pub type NewNodes = Map<(int, int), NewNode>;

/// The place of the node above a chunk on a level.
pub open spec fn place_above(chunk: int, level: int) -> (int, int) {
    (level, chunk / (capacity(level as nat) as int))
}

/// The place of the node above a place.
pub open spec fn place_over(place: (int, int)) -> (int, int) {
    (place.0 + 1, place.1 / 32)
}

/// The place of the child in a slot.
pub open spec fn place_below(place: (int, int), slot: int) -> (int, int) {
    (place.0 - 1, place.1 * 32 + slot)
}

/// The child in a slot of an old node, if there is such a node.
pub open spec fn old_child(source: Option<Seq<char>>, slot: int, stored: Children) -> Option<
    Seq<char>,
> {
    match source {
        Some(node) => stored(node, slot),
        None => None,
    }
}

/// The leaf that a chunk leads to from an old node, if there is such a node.
pub open spec fn old_leaf(
    source: Option<Seq<char>>,
    chunk: int,
    level: nat,
    stored: Children,
) -> Option<Seq<char>> {
    match source {
        Some(node) => leaf_below(stored, node, chunk, level),
        None => None,
    }
}

/// Whether a new node has got the edges of the old one that it takes the place of. `busy` is the
/// place of the node that is getting them.
pub open spec fn is_complete(
    planner: CowPlannerView,
    nodes: NewNodes,
    place: (int, int),
    busy: Option<(int, int)>,
) -> bool {
    nodes[place].source is None || (among(planner.copied, nodes[place].id) && busy != Some(place))
}

/// What a slot of a new node leads to: a new node where there is one, and otherwise what the old
/// node leads to.
pub open spec fn shows(
    planner: CowPlannerView,
    stored: Children,
    nodes: NewNodes,
    written: Map<int, NewLeaf>,
    busy: Option<(int, int)>,
    place: (int, int),
    slot: int,
) -> bool {
    let node = nodes[place];
    let child = child_in(planner.pending, node.id, slot);
    let full = is_complete(planner, nodes, place, busy);
    let kept = if full {
        old_child(node.source, slot, stored)
    } else {
        None
    };
    let under = place_below(place, slot);
    &&& !full ==> child is None
    &&& if place.0 == 1 {
        child == if written.contains_key(under.1) {
            Some(written[under.1].id)
        } else {
            kept
        }
    } else if nodes.contains_key(under) {
        &&& child == Some(nodes[under].id)
        &&& child_in(planner.internal, node.id, slot) == Some(nodes[under].id)
        &&& nodes[under].source == old_child(node.source, slot, stored)
    } else {
        &&& child == kept
        &&& child_in(planner.internal, node.id, slot) is None
    }
}

/// The catalog leads to none of the new nodes.
pub open spec fn unknown(planner: CowPlannerView, stored: Children) -> bool {
    &&& forall|parent: Seq<char>, slot: int|
        (#[trigger] stored(parent, slot)) matches Some(child) ==> !has_node(planner.nodes, child)
    &&& planner.old_root matches Some(root) ==> !has_node(planner.nodes, root)
}

/// Only new nodes have got edges.
pub open spec fn only_new_parents(planner: CowPlannerView) -> bool {
    &&& forall|parent: Seq<char>, slot: int|
        (#[trigger] child_in(planner.pending, parent, slot)) is Some ==> has_node(
            planner.nodes,
            parent,
        )
    &&& forall|parent: Seq<char>, slot: int|
        (#[trigger] child_in(planner.internal, parent, slot)) is Some ==> has_node(
            planner.nodes,
            parent,
        )
    &&& forall|id: Seq<char>| #[trigger] among(planner.copied, id) ==> has_node(planner.nodes, id)
}

/// The new leaf of a chunk has a record of its blob.
pub open spec fn has_leaf_ref(leaf_refs: Seq<TreeLeafRefRecord>, leaf: NewLeaf) -> bool {
    exists|i: int|
        0 <= i < leaf_refs.len() && is_leaf_ref(
            #[trigger] leaf_refs[i],
            leaf.id,
            TreeStorageKind::ImmutableBlob,
            leaf.key,
        )
}

/// Each new leaf has at most one record of its blob, and only new leaves have one.
pub open spec fn one_ref_per_leaf(planner: CowPlannerView) -> bool {
    &&& forall|i: int|
        0 <= i < planner.leaf_refs.len() ==> has_node(
            planner.nodes,
            (#[trigger] planner.leaf_refs[i]).node_id@,
        )
    &&& forall|i: int, j: int|
        0 <= i < j < planner.leaf_refs.len() ==> (#[trigger] planner.leaf_refs[i]).node_id@ != (
        #[trigger] planner.leaf_refs[j]).node_id@
}

/// The new nodes make a tree beside the old one. `stored` says which children the catalog holds,
/// and `written` which chunks have a new leaf.
pub open spec fn sound(
    planner: CowPlannerView,
    stored: Children,
    nodes: NewNodes,
    written: Map<int, NewLeaf>,
    busy: Option<(int, int)>,
) -> bool {
    let top = planner.geometry.top();
    &&& 1 <= top
    &&& nodes.contains_key((top, 0))
    &&& nodes[(top, 0)] == (NewNode { id: planner.new_root@, source: planner.old_root })
    &&& forall|place: (int, int)| #[trigger]
        nodes.contains_key(place) ==> 1 <= place.0 <= top && 0 <= place.1 && has_node(
            planner.nodes,
            nodes[place].id,
        )
    &&& forall|place: (int, int)| #[trigger]
        nodes.contains_key(place) && place.0 < top ==> nodes.contains_key(place_over(place))
    &&& forall|first: (int, int), second: (int, int)|
        #![trigger nodes[first], nodes[second]]
        nodes.contains_key(first) && nodes.contains_key(second) && first != second
            ==> nodes[first].id != nodes[second].id
    &&& forall|place: (int, int), slot: int|
        nodes.contains_key(place) && 0 <= slot < 32 ==> #[trigger] shows(
            planner,
            stored,
            nodes,
            written,
            busy,
            place,
            slot,
        )
    &&& unknown(planner, stored)
    &&& only_new_parents(planner)
    &&& one_ref_per_leaf(planner)
    &&& forall|chunk: int, level: int|
        written.contains_key(chunk) && 1 <= level <= top ==> nodes.contains_key(
            #[trigger] place_above(chunk, level),
        )
    &&& forall|chunk: int| #[trigger]
        written.contains_key(chunk) ==> 0 <= chunk && has_leaf_ref(
            planner.leaf_refs,
            written[chunk],
        )
}

/// No chunk is being planned. Every new node is complete, once a chunk was planned.
pub open spec fn settled(
    planner: CowPlannerView,
    stored: Children,
    nodes: NewNodes,
    written: Map<int, NewLeaf>,
) -> bool {
    &&& sound(planner, stored, nodes, written, None)
    &&& forall|place: (int, int)| #[trigger]
        nodes.contains_key(place) && (place != (planner.geometry.top(), 0int) || !(written
            =~= Map::empty())) ==> is_complete(planner, nodes, place, None)
}

/// The place of the node that is getting the edges of an old one.
pub open spec fn busy_place(plan: CowChunkPlanView) -> Option<(int, int)> {
    if plan.stage is CopyNode || plan.stage is CopyEdges {
        Some(place_above(plan.chunk, plan.level))
    } else {
        None
    }
}

/// The new node that a plan has reached has still to get the edges of the old one, if it did not.
pub open spec fn before_copy(stage: CowStageView) -> bool {
    stage is Copy || stage is CopyNode || stage is CopyEdges
}

/// A chunk is being planned: the plan stands on the new node above the chunk, and on the old node
/// that it takes the place of.
pub open spec fn planning(
    planner: CowPlannerView,
    plan: CowChunkPlanView,
    stored: Children,
    nodes: NewNodes,
    written: Map<int, NewLeaf>,
) -> bool {
    let top = planner.geometry.top();
    let place = place_above(plan.chunk, plan.level);
    &&& sound(planner, stored, nodes, written, busy_place(plan))
    &&& plan.geometry == planner.geometry
    &&& 0 <= plan.chunk
    &&& 0 <= plan.level <= top
    &&& plan.stage is Done <==> plan.level == 0
    &&& plan.level > 0 ==> nodes[place] == (NewNode {
        id: plan.new_parent@,
        source: plan.old_parent,
    })
    &&& forall|level: int|
        1 <= level && plan.level <= level <= top ==> nodes.contains_key(
            #[trigger] place_above(plan.chunk, level),
        )
    &&& forall|other: (int, int)| #[trigger]
        nodes.contains_key(other) && (other != place || !before_copy(plan.stage)) ==> is_complete(
            planner,
            nodes,
            other,
            busy_place(plan),
        )
    &&& match plan.stage {
        CowStageView::CopyNode { source } => plan.old_parent == Some(source) && among(
            planner.copied,
            plan.new_parent@,
        ),
        CowStageView::CopyEdges { source } => plan.old_parent == Some(source) && among(
            planner.copied,
            plan.new_parent@,
        ),
        CowStageView::Edge { source } => plan.old_parent == Some(source),
        CowStageView::OldNode { old_child: child } => {
            &&& plan.level > 1
            &&& old_child(plan.old_parent, plan.slot(), stored) == Some(child)
            &&& !nodes.contains_key(place_above(plan.chunk, plan.level - 1))
        },
        CowStageView::Done => written.contains_key(plan.chunk) && written[plan.chunk]
            == (NewLeaf { id: plan.new_parent@, key: plan.key }),
        _ => true,
    }
}

/// The edges are all that the catalog holds of an old node.
pub open spec fn tells_all(edges: Seq<TreeEdgeRecord>, source: Seq<char>, stored: Children) -> bool {
    forall|slot: int|
        0 <= slot < 32 ==> #[trigger] child_in(edges, source, slot) == stored(source, slot)
}

/// A step of a plan that the catalog answered truly. `edges` are the edges that it was given where
/// it asked for all of a node.
pub open spec fn moves(
    before: CowPlannerView,
    after: CowPlannerView,
    plan: CowChunkPlanView,
    next: CowChunkPlanView,
    stored: Children,
    edges: Seq<TreeEdgeRecord>,
) -> bool {
    match plan.stage {
        CowStageView::Copy => copy_decided(before, after, plan, next),
        CowStageView::CopyNode { source } => {
            &&& after == before
            &&& next == plan.waiting(CowStageView::CopyEdges { source })
        },
        CowStageView::CopyEdges { source } => {
            &&& copied_edges_error(edges, source) is None
            &&& tells_all(edges, source, stored)
            &&& after == (CowPlannerView {
                pending: edges_copied(before.pending, plan.new_parent, edges),
                ..before
            })
            &&& next == plan.waiting(CowStageView::Slot)
        },
        CowStageView::Slot => slot_decided(before, after, plan, next),
        CowStageView::Edge { source } => goes_on(
            before,
            after,
            plan,
            next,
            stored(source, plan.slot()),
        ),
        CowStageView::OldNode { old_child: child } => {
            &&& new_internal_added(before, after, plan, next.new_parent)
            &&& next == plan.moved_to(Some(child), next.new_parent)
        },
        CowStageView::Done => false,
    }
}

/// No node had the identity before.
pub open spec fn is_fresh(planner: CowPlannerView, stored: Children, id: Seq<char>) -> bool {
    &&& !has_node(planner.nodes, id)
    &&& forall|parent: Seq<char>, slot: int| #[trigger] stored(parent, slot) != Some(id)
    &&& planner.old_root != Some(id)
}

/// The new internal nodes after a step.
pub open spec fn nodes_after(
    nodes: NewNodes,
    plan: CowChunkPlanView,
    next: CowChunkPlanView,
) -> NewNodes {
    if 0 < next.level < plan.level {
        nodes.insert(
            place_above(plan.chunk, next.level),
            NewNode { id: next.new_parent@, source: next.old_parent },
        )
    } else {
        nodes
    }
}

/// The chunks with a new leaf after a step.
pub open spec fn written_after(
    written: Map<int, NewLeaf>,
    plan: CowChunkPlanView,
    next: CowChunkPlanView,
) -> Map<int, NewLeaf> {
    if next.level == 0 && plan.level == 1 {
        written.insert(plan.chunk, NewLeaf { id: next.new_parent@, key: plan.key })
    } else {
        written
    }
}

/// The node above a chunk on a level is the child, in the slot of the chunk's path, of the node
/// above it on the next level.
proof fn lemma_place_step(chunk: int, level: int)
    requires
        0 <= chunk,
        level >= 1,
    ensures
        place_above(chunk, level - 1) == place_below(
            place_above(chunk, level),
            path_slot(chunk, (level - 1) as nat),
        ),
        0 <= path_slot(chunk, (level - 1) as nat) < 32,
        0 <= place_above(chunk, level).1,
{
    let below = capacity((level - 1) as nat) as int;
    let above = capacity(level as nat) as int;
    lemma_capacity((level - 1) as nat);
    lemma_capacity(level as nat);
    let quotient = chunk / below;
    lemma_div_denominator(chunk, below, 32);
    assert(below * 32 == above);
    lemma_fundamental_div_mod(quotient, 32);
    assert(quotient >= 0) by (nonlinear_arith)
        requires
            quotient == chunk / below,
            0 <= chunk,
            0 < below,
    ;
}

/// The leaf of a chunk is its own place.
proof fn lemma_place_of_leaf(chunk: int)
    ensures
        place_above(chunk, 0) == (0int, chunk),
{
    assert(capacity(0) == 1);
    assert(chunk / 1int == chunk);
}

/// Below an old node everything is old.
proof fn lemma_old_part(
    planner: CowPlannerView,
    stored: Children,
    node: Seq<char>,
    chunk: int,
    level: nat,
)
    requires
        unknown(planner, stored),
        !has_node(planner.nodes, node),
    ensures
        leaf_below(merged_children(planner, stored), node, chunk, level) == leaf_below(
            stored,
            node,
            chunk,
            level,
        ),
    decreases level,
{
    if level > 0 {
        let slot = path_slot(chunk, (level - 1) as nat);
        assert(merged_children(planner, stored)(node, slot) == stored(node, slot));
        match stored(node, slot) {
            Some(child) => {
                lemma_old_part(planner, stored, child, chunk, (level - 1) as nat);
            },
            None => {},
        }
    }
}

/// What a chunk leads to from the new node above it.
proof fn lemma_new_part(
    planner: CowPlannerView,
    stored: Children,
    nodes: NewNodes,
    written: Map<int, NewLeaf>,
    chunk: int,
    level: nat,
)
    requires
        sound(planner, stored, nodes, written, None),
        forall|place: (int, int)| #[trigger]
            nodes.contains_key(place) ==> is_complete(planner, nodes, place, None),
        0 <= chunk,
        1 <= level <= planner.geometry.top(),
        nodes.contains_key(place_above(chunk, level as int)),
    ensures
        leaf_below(
            merged_children(planner, stored),
            nodes[place_above(chunk, level as int)].id,
            chunk,
            level,
        ) == if written.contains_key(chunk) {
            Some(written[chunk].id)
        } else {
            old_leaf(nodes[place_above(chunk, level as int)].source, chunk, level, stored)
        },
    decreases level,
{
    let children = merged_children(planner, stored);
    let place = place_above(chunk, level as int);
    let slot = path_slot(chunk, (level - 1) as nat);
    let node = nodes[place];
    let under = place_below(place, slot);
    lemma_place_step(chunk, level as int);
    assert(shows(planner, stored, nodes, written, None, place, slot));
    assert(children(node.id, slot) == child_in(planner.pending, node.id, slot));
    if level == 1 {
        lemma_place_of_leaf(chunk);
        assert(under.1 == chunk);
        reveal_with_fuel(leaf_below, 2);
    } else if nodes.contains_key(under) {
        lemma_new_part(planner, stored, nodes, written, chunk, (level - 1) as nat);
    } else {
        assert(place_above(chunk, level - 1) == under);
        assert(!written.contains_key(chunk));
        match old_child(node.source, slot, stored) {
            Some(child) => {
                assert(stored(node.source->0, slot) == Some(child));
                lemma_old_part(planner, stored, child, chunk, (level - 1) as nat);
            },
            None => {},
        }
    }
}

/// A published tree leads every chunk that was planned to its new leaf, whose record names the blob
/// of the chunk, and every other chunk to the leaf that the old tree leads it to.
pub proof fn law_published_tree(
    planner: CowPlannerView,
    stored: Children,
    nodes: NewNodes,
    written: Map<int, NewLeaf>,
    chunk: int,
)
    requires
        settled(planner, stored, nodes, written),
        !(written =~= Map::empty()),
        0 <= chunk < capacity(planner.geometry.top() as nat),
    ensures
        leaf_below(
            merged_children(planner, stored),
            planner.new_root@,
            chunk,
            planner.geometry.top() as nat,
        ) == if written.contains_key(chunk) {
            Some(written[chunk].id)
        } else {
            old_leaf(planner.old_root, chunk, planner.geometry.top() as nat, stored)
        },
        written.contains_key(chunk) ==> has_leaf_ref(planner.leaf_refs, written[chunk]),
{
    let top = planner.geometry.top();
    assert(chunk / (capacity(top as nat) as int) == 0) by {
        vstd::arithmetic::div_mod::lemma_basic_div(chunk, capacity(top as nat) as int);
    }
    assert(place_above(chunk, top) == (top, 0int));
    lemma_new_part(planner, stored, nodes, written, chunk, top as nat);
}

/// A step that changes no record keeps the tree.
proof fn lemma_waits(
    planner: CowPlannerView,
    plan: CowChunkPlanView,
    next: CowChunkPlanView,
    stored: Children,
    nodes: NewNodes,
    written: Map<int, NewLeaf>,
)
    requires
        planning(planner, plan, stored, nodes, written),
        next == plan.waiting(next.stage),
        busy_place(next) == busy_place(plan),
        !(next.stage is Done),
        plan.level > 0,
        before_copy(next.stage) || !before_copy(plan.stage) || is_complete(
            planner,
            nodes,
            place_above(plan.chunk, plan.level),
            None,
        ),
        match next.stage {
            CowStageView::CopyEdges { source } => plan.old_parent == Some(source) && among(
                planner.copied,
                plan.new_parent@,
            ),
            CowStageView::Edge { source } => plan.old_parent == Some(source),
            CowStageView::OldNode { old_child: child } => {
                &&& plan.level > 1
                &&& old_child(plan.old_parent, plan.slot(), stored) == Some(child)
                &&& !nodes.contains_key(place_above(plan.chunk, plan.level - 1))
            },
            CowStageView::Slot => true,
            _ => false,
        },
    ensures
        planning(planner, next, stored, nodes, written),
{
}

/// A node that is about to get the edges of an old one has got none yet.
proof fn lemma_copy_begins(
    before: CowPlannerView,
    after: CowPlannerView,
    plan: CowChunkPlanView,
    next: CowChunkPlanView,
    stored: Children,
    nodes: NewNodes,
    written: Map<int, NewLeaf>,
)
    requires
        planning(before, plan, stored, nodes, written),
        plan.stage is Copy,
        plan.old_parent matches Some(source) && next == plan.waiting(
            CowStageView::CopyNode { source },
        ),
        !among(before.copied, plan.new_parent@),
        after == (CowPlannerView { copied: before.copied.push(plan.new_parent), ..before }),
    ensures
        planning(after, next, stored, nodes, written),
{
    let place = place_above(plan.chunk, plan.level);
    let busy = busy_place(next);
    assert forall|id: Seq<char>| #[trigger] among(after.copied, id) <==> among(before.copied, id)
        || id == plan.new_parent@ by {
        if among(before.copied, id) {
            let i = choose|i: int|
                0 <= i < before.copied.len() && (#[trigger] before.copied[i])@ == id;
            assert(after.copied[i] == before.copied[i]);
        }
        if id == plan.new_parent@ {
            assert(after.copied[before.copied.len() as int]@ == id);
        }
        if among(after.copied, id) {
            let i = choose|i: int|
                0 <= i < after.copied.len() && (#[trigger] after.copied[i])@ == id;
            if i < before.copied.len() {
                assert(before.copied[i]@ == id);
            }
        }
    }
    assert(nodes.contains_key(place));
    assert forall|other: (int, int)| nodes.contains_key(other) implies is_complete(
        after,
        nodes,
        other,
        busy,
    ) == #[trigger] is_complete(before, nodes, other, None) by {
        if other != place {
            assert(nodes[other].id != nodes[place].id);
        }
    }
    assert forall|other: (int, int), slot: int|
        nodes.contains_key(other) && 0 <= slot < 32 implies #[trigger] shows(
        after,
        stored,
        nodes,
        written,
        busy,
        other,
        slot,
    ) by {
        assert(shows(before, stored, nodes, written, None, other, slot));
        assert(is_complete(before, nodes, other, None) == is_complete(after, nodes, other, busy));
    }
    assert(has_node(after.nodes, plan.new_parent@));
}

/// A node that has got the edges of an old one leads where the old one leads.
proof fn lemma_copy_ends(
    before: CowPlannerView,
    after: CowPlannerView,
    plan: CowChunkPlanView,
    next: CowChunkPlanView,
    stored: Children,
    nodes: NewNodes,
    written: Map<int, NewLeaf>,
    edges: Seq<TreeEdgeRecord>,
)
    requires
        planning(before, plan, stored, nodes, written),
        plan.stage is CopyEdges,
        moves(before, after, plan, next, stored, edges),
    ensures
        planning(after, next, stored, nodes, written),
{
    let source = plan.stage->CopyEdges_source;
    let place = place_above(plan.chunk, plan.level);
    let busy = busy_place(plan);
    lemma_copied_edges_fine(edges, source);
    assert(nodes.contains_key(place));
    assert forall|parent: Seq<char>, slot: int| 0 <= slot < 32 || parent != plan.new_parent@ implies (
    #[trigger] child_in(after.pending, parent, slot)) == (if parent == plan.new_parent@ && stored(
        source,
        slot,
    ) is Some {
        stored(source, slot)
    } else {
        child_in(before.pending, parent, slot)
    }) by {
        lemma_edges_copied(before.pending, plan.new_parent, edges, source, parent, slot);
        if 0 <= slot < 32 {
            assert(child_in(edges, source, slot) == stored(source, slot));
        }
    }
    assert forall|other: (int, int), slot: int|
        nodes.contains_key(other) && 0 <= slot < 32 implies #[trigger] shows(
        after,
        stored,
        nodes,
        written,
        None,
        other,
        slot,
    ) by {
        assert(shows(before, stored, nodes, written, busy, other, slot));
        if other != place {
            assert(nodes[other].id != nodes[place].id);
        }
        let parent = nodes[other].id;
        assert(child_in(after.pending, parent, slot) == (if parent == plan.new_parent@ && stored(
            source,
            slot,
        ) is Some {
            stored(source, slot)
        } else {
            child_in(before.pending, parent, slot)
        }));
    }
    assert forall|parent: Seq<char>, slot: int|
        (#[trigger] child_in(after.pending, parent, slot)) is Some implies has_node(
        after.nodes,
        parent,
    ) by {
        if parent != plan.new_parent@ {
            assert(child_in(after.pending, parent, slot) == child_in(before.pending, parent, slot));
        }
    }
}

/// A node more among the new ones.
proof fn lemma_one_more(before: CowPlannerView, after: CowPlannerView, stored: Children, id: Seq<char>)
    requires
        extends(before.nodes, after.nodes),
        after.nodes.last().id@ == id,
        after.old_root == before.old_root,
        unknown(before, stored),
        is_fresh(before, stored, id),
    ensures
        forall|other: Seq<char>| #[trigger]
            has_node(after.nodes, other) <==> has_node(before.nodes, other) || other == id,
        unknown(after, stored),
{
    assert forall|other: Seq<char>| #[trigger] has_node(after.nodes, other) <==> has_node(
        before.nodes,
        other,
    ) || other == id by {
        if has_node(before.nodes, other) {
            let i = choose|i: int|
                0 <= i < before.nodes.len() && (#[trigger] before.nodes[i]).id@ == other;
            assert(after.nodes.drop_last()[i] == after.nodes[i]);
        }
        if other == id {
            assert(after.nodes[after.nodes.len() - 1].id@ == id);
        }
        if has_node(after.nodes, other) {
            let i = choose|i: int|
                0 <= i < after.nodes.len() && (#[trigger] after.nodes[i]).id@ == other;
            if i < before.nodes.len() {
                assert(after.nodes.drop_last()[i] == after.nodes[i]);
                assert(before.nodes[i].id@ == other);
            }
        }
    }
    assert forall|parent: Seq<char>, slot: int| (
    #[trigger] stored(parent, slot)) matches Some(child) ==> !has_node(after.nodes, child) by {
        assert(stored(parent, slot) != Some(id));
    }
}

/// A new leaf keeps the tree.
proof fn lemma_leaf(
    before: CowPlannerView,
    after: CowPlannerView,
    plan: CowChunkPlanView,
    next: CowChunkPlanView,
    stored: Children,
    nodes: NewNodes,
    written: Map<int, NewLeaf>,
)
    requires
        planning(before, plan, stored, nodes, written),
        plan.stage is Slot || plan.stage is Edge,
        plan.level == 1,
        new_leaf_added(before, after, plan, next.new_parent),
        next == plan.moved_to(next.old_parent, next.new_parent),
        is_fresh(before, stored, next.new_parent@),
    ensures
        planning(after, next, stored, nodes, written_after(written, plan, next)),
{
    let place = place_above(plan.chunk, 1);
    let slot = plan.slot();
    let edge = edge_of(plan.new_parent, slot as u16, next.new_parent);
    let leaf = NewLeaf { id: next.new_parent@, key: plan.key };
    let more = written_after(written, plan, next);
    lemma_place_step(plan.chunk, 1);
    lemma_place_of_leaf(plan.chunk);
    lemma_one_more(before, after, stored, next.new_parent@);
    assert(nodes.contains_key(place));
    assert forall|parent: Seq<char>, other: int|
        (#[trigger] child_in(after.pending, parent, other)) == (if parent == plan.new_parent@
            && other == slot {
            Some(next.new_parent@)
        } else {
            child_in(before.pending, parent, other)
        }) by {
        lemma_upserted(before.pending, edge, parent, other);
    }
    assert forall|other: (int, int), index: int|
        nodes.contains_key(other) && 0 <= index < 32 implies #[trigger] shows(
        after,
        stored,
        nodes,
        more,
        None,
        other,
        index,
    ) by {
        assert(shows(before, stored, nodes, written, None, other, index));
        assert(is_complete(before, nodes, other, None));
        if other != place {
            assert(nodes[other].id != nodes[place].id);
        }
        let parent = nodes[other].id;
        assert(child_in(after.pending, parent, index) == (if parent == plan.new_parent@ && index
            == slot {
            Some(next.new_parent@)
        } else {
            child_in(before.pending, parent, index)
        }));
    }
    assert forall|chunk: int, level: int|
        more.contains_key(chunk) && 1 <= level <= after.geometry.top() implies nodes.contains_key(
        #[trigger] place_above(chunk, level),
    ) by {
        if chunk != plan.chunk {
            assert(written.contains_key(chunk));
        }
    }
    assert forall|chunk: int| #[trigger] more.contains_key(chunk) implies 0 <= chunk
        && has_leaf_ref(after.leaf_refs, more[chunk]) by {
        if chunk == plan.chunk {
            assert(after.leaf_refs[after.leaf_refs.len() - 1] == after.leaf_refs.last());
        } else {
            assert(written.contains_key(chunk));
            let i = choose|i: int|
                0 <= i < before.leaf_refs.len() && is_leaf_ref(
                    #[trigger] before.leaf_refs[i],
                    written[chunk].id,
                    TreeStorageKind::ImmutableBlob,
                    written[chunk].key,
                );
            assert(after.leaf_refs.drop_last()[i] == after.leaf_refs[i]);
        }
    }
    assert forall|other: (int, int)| #[trigger] nodes.contains_key(other) implies is_complete(
        after,
        nodes,
        other,
        None,
    ) by {
        assert(is_complete(before, nodes, other, None));
    }
    assert(one_ref_per_leaf(after)) by {
        let last = before.leaf_refs.len() as int;
        assert(after.leaf_refs[last] == after.leaf_refs.last());
        assert forall|i: int| 0 <= i < last implies #[trigger] after.leaf_refs[i]
            == before.leaf_refs[i] && has_node(before.nodes, after.leaf_refs[i].node_id@) by {
            assert(after.leaf_refs.drop_last()[i] == after.leaf_refs[i]);
        }
    }
}

/// A new internal node keeps the tree.
proof fn lemma_internal(
    before: CowPlannerView,
    after: CowPlannerView,
    plan: CowChunkPlanView,
    next: CowChunkPlanView,
    stored: Children,
    nodes: NewNodes,
    written: Map<int, NewLeaf>,
)
    requires
        planning(before, plan, stored, nodes, written),
        plan.stage is Slot || plan.stage is Edge || plan.stage is OldNode,
        plan.level > 1,
        !nodes.contains_key(place_above(plan.chunk, plan.level - 1)),
        new_internal_added(before, after, plan, next.new_parent),
        next == plan.moved_to(old_child(plan.old_parent, plan.slot(), stored), next.new_parent),
        is_fresh(before, stored, next.new_parent@),
    ensures
        planning(after, next, stored, nodes_after(nodes, plan, next), written),
{
    let top = before.geometry.top();
    let place = place_above(plan.chunk, plan.level);
    let under = place_above(plan.chunk, plan.level - 1);
    let slot = plan.slot();
    let edge = edge_of(plan.new_parent, slot as u16, next.new_parent);
    let more = nodes_after(nodes, plan, next);
    let id = next.new_parent@;
    lemma_place_step(plan.chunk, plan.level);
    lemma_place_step(plan.chunk, plan.level - 1);
    lemma_one_more(before, after, stored, id);
    assert(nodes.contains_key(place));
    assert(under == place_below(place, slot));
    assert(more[under] == (NewNode { id, source: next.old_parent }));
    assert forall|parent: Seq<char>, other: int|
        (#[trigger] child_in(after.pending, parent, other)) == (if parent == plan.new_parent@
            && other == slot {
            Some(id)
        } else {
            child_in(before.pending, parent, other)
        }) by {
        lemma_upserted(before.pending, edge, parent, other);
    }
    assert forall|parent: Seq<char>, other: int|
        (#[trigger] child_in(after.internal, parent, other)) == (if parent == plan.new_parent@
            && other == slot {
            Some(id)
        } else {
            child_in(before.internal, parent, other)
        }) by {
        lemma_upserted(before.internal, edge, parent, other);
    }
    assert forall|other: (int, int)| #[trigger] more.contains_key(other) && other != under implies {
        &&& nodes.contains_key(other)
        &&& more[other] == nodes[other]
        &&& nodes[other].id != id
        &&& is_complete(after, more, other, None) == is_complete(before, nodes, other, None)
    } by {
        assert(has_node(before.nodes, nodes[other].id));
    }
    assert forall|other: (int, int), index: int|
        more.contains_key(other) && 0 <= index < 32 implies #[trigger] shows(
        after,
        stored,
        more,
        written,
        None,
        other,
        index,
    ) by {
        let below = place_below(other, index);
        if other == under {
            assert(child_in(before.pending, id, index) is None);
            assert(child_in(before.internal, id, index) is None);
            assert(child_in(after.pending, id, index) is None);
            assert(child_in(after.internal, id, index) is None);
            assert(plan.new_parent@ != id);
            assert(below.1 / 32 == under.1);
            if under.0 == 1 {
                if written.contains_key(below.1) {
                    assert(capacity(1) == 32) by {
                        assert(capacity(0) == 1);
                    }
                    assert(place_above(below.1, 1) == under);
                }
            } else if nodes.contains_key(below) {
                assert(place_over(below) == under);
            }
            assert(!is_complete(after, more, under, None) || next.old_parent is None);
        } else {
            assert(shows(before, stored, nodes, written, None, other, index));
            let parent = nodes[other].id;
            if other != place {
                assert(parent != nodes[place].id);
            }
            assert(child_in(after.pending, parent, index) == (if parent == plan.new_parent@ && index
                == slot {
                Some(id)
            } else {
                child_in(before.pending, parent, index)
            }));
            assert(child_in(after.internal, parent, index) == (if parent == plan.new_parent@
                && index == slot {
                Some(id)
            } else {
                child_in(before.internal, parent, index)
            }));
            if below == under {
                assert(other == place && index == slot);
            }
            if other == place {
                assert(is_complete(before, nodes, place, None));
            }
        }
    }
    assert forall|other: (int, int)| #[trigger]
        more.contains_key(other) && other.0 < top implies more.contains_key(place_over(other)) by {
        if other == under {
            assert(place_over(under) == place);
        }
    }
    assert forall|first: (int, int), second: (int, int)|
        #![trigger more[first], more[second]]
        more.contains_key(first) && more.contains_key(second) && first != second implies more[first].id
        != more[second].id by {
        if first != under && second != under {
            assert(nodes[first].id != nodes[second].id);
        }
    }
    assert forall|level: int|
        1 <= level && next.level <= level <= top implies more.contains_key(
        #[trigger] place_above(next.chunk, level),
    ) by {
        if level > next.level {
            assert(nodes.contains_key(place_above(plan.chunk, level)));
        }
    }
}

/// Every step of a plan keeps the tree, as long as the catalog answers truly and no identity is
/// given twice.
pub proof fn law_planning_keeps_the_tree(
    before: CowPlannerView,
    after: CowPlannerView,
    plan: CowChunkPlanView,
    next: CowChunkPlanView,
    stored: Children,
    edges: Seq<TreeEdgeRecord>,
    nodes: NewNodes,
    written: Map<int, NewLeaf>,
)
    requires
        planning(before, plan, stored, nodes, written),
        moves(before, after, plan, next, stored, edges),
        after.nodes.len() > before.nodes.len() ==> is_fresh(before, stored, next.new_parent@),
    ensures
        planning(
            after,
            next,
            stored,
            nodes_after(nodes, plan, next),
            written_after(written, plan, next),
        ),
{
    let place = place_above(plan.chunk, plan.level);
    match plan.stage {
        CowStageView::Copy => {
            if plan.old_parent is Some && !among(before.copied, plan.new_parent@) {
                lemma_copy_begins(before, after, plan, next, stored, nodes, written);
            } else {
                lemma_waits(before, plan, next, stored, nodes, written);
            }
        },
        CowStageView::CopyNode { .. } => {
            lemma_waits(before, plan, next, stored, nodes, written);
        },
        CowStageView::CopyEdges { .. } => {
            lemma_copy_ends(before, after, plan, next, stored, nodes, written, edges);
        },
        CowStageView::Slot => {
            if plan.old_parent is Some {
                lemma_waits(before, plan, next, stored, nodes, written);
            } else {
                lemma_goes_on(before, after, plan, next, stored, nodes, written);
            }
        },
        CowStageView::Edge { .. } => {
            lemma_goes_on(before, after, plan, next, stored, nodes, written);
        },
        CowStageView::OldNode { .. } => {
            lemma_internal(before, after, plan, next, stored, nodes, written);
        },
        CowStageView::Done => {},
    }
}

/// A plan that goes on with the old child in its slot known keeps the tree.
proof fn lemma_goes_on(
    before: CowPlannerView,
    after: CowPlannerView,
    plan: CowChunkPlanView,
    next: CowChunkPlanView,
    stored: Children,
    nodes: NewNodes,
    written: Map<int, NewLeaf>,
)
    requires
        planning(before, plan, stored, nodes, written),
        plan.stage is Slot || plan.stage is Edge,
        goes_on(before, after, plan, next, old_child(plan.old_parent, plan.slot(), stored)),
        after.nodes.len() > before.nodes.len() ==> is_fresh(before, stored, next.new_parent@),
    ensures
        planning(
            after,
            next,
            stored,
            nodes_after(nodes, plan, next),
            written_after(written, plan, next),
        ),
{
    let place = place_above(plan.chunk, plan.level);
    let under = place_above(plan.chunk, plan.level - 1);
    lemma_place_step(plan.chunk, plan.level);
    assert(nodes.contains_key(place));
    assert(shows(before, stored, nodes, written, None, place, plan.slot()));
    if plan.level == 1 {
        lemma_leaf(before, after, plan, next, stored, nodes, written);
    } else if nodes.contains_key(under) {
        assert(nodes_after(nodes, plan, next) =~= nodes);
    } else {
        match old_child(plan.old_parent, plan.slot(), stored) {
            Some(child) => {
                lemma_waits(before, plan, next, stored, nodes, written);
            },
            None => {
                lemma_internal(before, after, plan, next, stored, nodes, written);
            },
        }
    }
}

/// A planner that holds nothing but its new root makes a tree, as long as nothing leads to it.
pub proof fn law_planner_starts_settled(
    planner: CowTreePublishPlanner,
    stored: Children,
    owner: crate::catalog::ExportId,
    old_root: Option<Seq<char>>,
    new_root: NodeId,
)
    requires
        planner.starts(planner@.geometry, owner, old_root, new_root),
        1 <= planner@.geometry.top(),
        forall|parent: Seq<char>, slot: int| #[trigger] stored(parent, slot) != Some(new_root@),
        planner@.old_root != Some(new_root@),
    ensures
        settled(
            planner@,
            stored,
            Map::empty().insert(
                (planner@.geometry.top(), 0int),
                NewNode { id: new_root@, source: planner@.old_root },
            ),
            Map::empty(),
        ),
{
    let view = planner@;
    let top = view.geometry.top();
    let nodes: NewNodes = Map::empty().insert(
        (top, 0int),
        NewNode { id: new_root@, source: view.old_root },
    );
    assert(view.nodes[0].id@ == new_root@);
    assert forall|id: Seq<char>| #[trigger] has_node(view.nodes, id) <==> id == new_root@ by {}
    assert forall|parent: Seq<char>, slot: int| (
    #[trigger] stored(parent, slot)) matches Some(child) ==> !has_node(view.nodes, child) by {
        assert(stored(parent, slot) != Some(new_root@));
    }
    assert forall|place: (int, int), slot: int|
        nodes.contains_key(place) && 0 <= slot < 32 implies #[trigger] shows(
        view,
        stored,
        nodes,
        Map::empty(),
        None,
        place,
        slot,
    ) by {
        assert(place == (top, 0int));
    }
}

/// A plan starts from a settled tree.
pub proof fn law_plan_starts(
    planner: CowPlannerView,
    stored: Children,
    nodes: NewNodes,
    written: Map<int, NewLeaf>,
    chunk: int,
    key: Seq<char>,
)
    requires
        settled(planner, stored, nodes, written),
        0 <= chunk < capacity(planner.geometry.top() as nat),
    ensures
        planning(planner, plan_at_roots(planner, chunk, key), stored, nodes, written),
{
    let top = planner.geometry.top();
    assert(chunk / (capacity(top as nat) as int) == 0) by {
        vstd::arithmetic::div_mod::lemma_basic_div(chunk, capacity(top as nat) as int);
    }
    assert(place_above(chunk, top) == (top, 0int));
}

/// A plan that is done leaves a settled tree, in which its chunk has its new leaf.
pub proof fn law_plan_ends_settled(
    planner: CowPlannerView,
    plan: CowChunkPlanView,
    stored: Children,
    nodes: NewNodes,
    written: Map<int, NewLeaf>,
)
    requires
        planning(planner, plan, stored, nodes, written),
        plan.stage is Done,
    ensures
        settled(planner, stored, nodes, written),
        written.contains_key(plan.chunk),
        written[plan.chunk] == (NewLeaf { id: plan.new_parent@, key: plan.key }),
{
    assert forall|place: (int, int)| #[trigger] nodes.contains_key(place) implies is_complete(
        planner,
        nodes,
        place,
        None,
    ) by {
        assert(place.0 >= 1);
    }
}

/// The edges that a plan asked for, if they are told truly, move the plan on; edges of another node
/// or slot stop it with an error and change nothing.
pub proof fn law_true_edges_move_the_plan(
    before: CowPlannerView,
    after: CowPlannerView,
    plan: CowChunkPlanView,
    next: CowChunkPlanView,
    edges: Seq<TreeEdgeRecord>,
    result: Result<()>,
    stored: Children,
)
    ensures
        plan.stage is CopyEdges && takes_all_edges(before, after, plan, next, edges, result) ==> {
            &&& result is Ok <==> forall|i: int|
                0 <= i < edges.len() ==> (#[trigger] edges[i]).parent_node_id@
                    == plan.stage->CopyEdges_source && edges[i].slot < 32
            &&& result is Err ==> after == before && next == plan
            &&& result is Ok && tells_all(edges, plan.stage->CopyEdges_source, stored) ==> moves(
                before,
                after,
                plan,
                next,
                stored,
                edges,
            )
        },
        plan.stage is Edge && takes_edges(before, after, plan, next, edges, result) ==> {
            let source = plan.stage->Edge_source;
            let held = if edges.len() == 0 {
                None
            } else {
                Some(edges[0].child_node_id@)
            };
            &&& result is Ok <==> edges.len() == 0 || (edges.len() == 1 && edges[0].parent_node_id@
                == source && edges[0].slot == plan.slot())
            &&& result is Err ==> after == before && next == plan
            &&& result is Ok && stored(source, plan.slot()) == held ==> moves(
                before,
                after,
                plan,
                next,
                stored,
                edges,
            )
        },
{
    if plan.stage is CopyEdges {
        law_copied_edges_are_those_of_the_node(edges, plan.stage->CopyEdges_source);
    }
}

/// A node that is there and belongs where the plan asked for it moves the plan on; any other stops
/// it with an error and changes nothing.
pub proof fn law_a_true_node_moves_the_plan(
    before: CowPlannerView,
    after: CowPlannerView,
    plan: CowChunkPlanView,
    next: CowChunkPlanView,
    node: Option<TreeNodeRecord>,
    result: Result<()>,
    stored: Children,
    edges: Seq<TreeEdgeRecord>,
)
    requires
        plan.stage is CopyNode || plan.stage is OldNode,
        takes_node(before, after, plan, next, node, result),
    ensures
        ({
            let level = if plan.stage is CopyNode {
                plan.level
            } else {
                plan.level - 1
            };
            result is Ok <==> (node matches Some(node) && {
                &&& node.layout_kind == ExportLayoutKind::CowImmutableTree
                &&& node.kind == TreeNodeKind::Internal
                &&& node.level == level
                &&& node.span_start_bytes == ancestor_start(plan.chunk, level as nat)
                &&& node.span_len_bytes == ancestor_size(before.geometry, plan.chunk, level)
            })
        }),
        result is Err ==> after == before && next == plan,
        result is Ok ==> moves(before, after, plan, next, stored, edges),
{
}

} // verus!
