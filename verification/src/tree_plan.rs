//! What new tree records have in common: batches, lookups of nodes and edges, and checks of what
//! the catalog returned.

use crate::catalog::{
    node_text, BlobKey, ChunkIndex, ExportId, ExportLayoutKind, NodeId, TreeEdgeRecord,
    TreeLeafRefRecord, TreeNodeKind, TreeNodeRecord, TreeStorageKind, TREE_CHUNK_BYTES,
};
use crate::error::{ErrorView, Result};
use crate::geometry::{
    ancestor_start, invalid_tree, path_slot, tree_failure, TreeGeometry, TreeNodeSpan,
};
use crate::leaf_walk::{ancestor_size, kind_at, loaded_node_error};
use crate::text::{concat_three, decimal, push_decimal, text_with_two_numbers, with_two_numbers};
use vstd::prelude::*;
use vstd::string::*;

verus! {

/// Records to be added to the catalog together.
#[derive(Debug)]
pub struct TreeRecordBatch {
    pub nodes: Vec<TreeNodeRecord>,
    pub edges: Vec<TreeEdgeRecord>,
    pub leaf_refs: Vec<TreeLeafRefRecord>,
}

impl TreeRecordBatch {
    pub fn new() -> (batch: Self)
        ensures
            batch.nodes@.len() == 0,
            batch.edges@.len() == 0,
            batch.leaf_refs@.len() == 0,
    {
        Self { nodes: Vec::new(), edges: Vec::new(), leaf_refs: Vec::new() }
    }
}

/// The blob of a chunk of a tree.
#[derive(Debug)]
pub struct ChunkRef {
    chunk_index: ChunkIndex,
    blob_key: BlobKey,
}

impl ChunkRef {
    pub closed spec fn index(&self) -> int {
        self.chunk_index@
    }

    pub closed spec fn key(&self) -> Seq<char> {
        self.blob_key@
    }

    /// The bounds of the index.
    pub proof fn lemma_index(&self)
        ensures
            0 <= self.index() <= u64::MAX,
    {
        self.chunk_index.same_number(self.chunk_index);
    }

    /// The blob of a chunk holds a whole chunk.
    pub fn new(chunk_index: ChunkIndex, blob_key: BlobKey, len_bytes: u64) -> (result: Result<Self>)
        ensures
            match result {
                Ok(chunk) => len_bytes == TREE_CHUNK_BYTES && chunk.index() == chunk_index@
                    && chunk.key() == blob_key@,
                Err(error) => len_bytes != TREE_CHUNK_BYTES && error@ == tree_failure(
                    with_two_numbers(
                        "chunk "@,
                        chunk_index@ as nat,
                        " has blob length "@,
                        len_bytes as nat,
                        ""@,
                    ),
                ),
            },
    {
        if len_bytes != TREE_CHUNK_BYTES {
            return Err(
                invalid_tree(
                    text_with_two_numbers(
                        "chunk ",
                        chunk_index.get(),
                        " has blob length ",
                        len_bytes,
                        "",
                    ),
                ),
            );
        }
        Ok(Self { chunk_index, blob_key })
    }

    /// A blob that is known to hold a whole chunk.
    pub fn whole(chunk_index: ChunkIndex, blob_key: BlobKey) -> (chunk: Self)
        ensures
            chunk.index() == chunk_index@,
            chunk.key() == blob_key@,
    {
        Self { chunk_index, blob_key }
    }

    pub fn chunk_index(&self) -> (index: ChunkIndex)
        ensures
            index@ == self.index(),
    {
        self.chunk_index
    }

    pub fn blob_key(&self) -> (key: &BlobKey)
        ensures
            key@ == self.key(),
    {
        &self.blob_key
    }
}

impl Clone for ChunkRef {
    fn clone(&self) -> (copy: Self)
        ensures
            copy.index() == self.index(),
            copy.key() == self.key(),
    {
        Self { chunk_index: self.chunk_index, blob_key: self.blob_key.clone() }
    }
}

/// `after` is `before` with one more item.
pub open spec fn extends<T>(before: Seq<T>, after: Seq<T>) -> bool {
    after.len() == before.len() + 1 && after.drop_last() == before
}

/// The child in a slot of a node: that of the last edge that says so.
pub open spec fn child_in(edges: Seq<TreeEdgeRecord>, parent: Seq<char>, slot: int) -> Option<
    Seq<char>,
>
    decreases edges.len(),
{
    if edges.len() == 0 {
        None
    } else if edges.last().parent_node_id@ == parent && edges.last().slot == slot {
        Some(edges.last().child_node_id@)
    } else {
        child_in(edges.drop_last(), parent, slot)
    }
}

/// Whether one of the nodes has the identity.
pub open spec fn has_node(nodes: Seq<TreeNodeRecord>, id: Seq<char>) -> bool {
    exists|i: int| 0 <= i < nodes.len() && (#[trigger] nodes[i]).id@ == id
}

/// The record says that the node above a chunk on a level has this identity.
pub open spec fn is_node(
    record: TreeNodeRecord,
    id: Seq<char>,
    layout_kind: ExportLayoutKind,
    owner: Option<ExportId>,
    geometry: TreeGeometry,
    chunk: int,
    level: int,
) -> bool {
    &&& record.id@ == id
    &&& record.layout_kind == layout_kind
    &&& record.owner_export_id == owner
    &&& record.kind == kind_at(level)
    &&& record.level == level
    &&& record.span_start_bytes == ancestor_start(chunk, level as nat)
    &&& record.span_len_bytes == ancestor_size(geometry, chunk, level)
}

/// The record leads from a node to the child in a slot.
pub open spec fn is_edge(
    record: TreeEdgeRecord,
    parent: Seq<char>,
    slot: int,
    child: Seq<char>,
) -> bool {
    &&& record.parent_node_id@ == parent
    &&& record.slot == slot
    &&& record.child_node_id@ == child
}

/// The record names the blob of a leaf.
pub open spec fn is_leaf_ref(
    record: TreeLeafRefRecord,
    node: Seq<char>,
    kind: TreeStorageKind,
    key: Seq<char>,
) -> bool {
    &&& record.node_id@ == node
    &&& record.storage_kind == kind
    &&& record.storage_key@ == key
    &&& record.len_bytes == 33554432
}

/// The child in a slot of a node.
pub fn find_child(edges: &Vec<TreeEdgeRecord>, parent: &NodeId, slot: u16) -> (child: Option<
    NodeId,
>)
    ensures
        node_text(child) == child_in(edges@, parent@, slot as int),
{
    let mut index: usize = edges.len();
    proof {
        assert(edges@.take(index as int) =~= edges@);
    }
    while index > 0
        invariant
            index <= edges@.len(),
            child_in(edges@, parent@, slot as int) == child_in(
                edges@.take(index as int),
                parent@,
                slot as int,
            ),
        decreases index,
    {
        index = index - 1;
        let edge = &edges[index];
        proof {
            assert(edges@.take(index + 1).last() == edges@[index as int]);
            assert(edges@.take(index + 1).drop_last() =~= edges@.take(index as int));
        }
        if edge.slot == slot && edge.parent_node_id.same(parent) {
            return Some(edge.child_node_id.clone());
        }
    }
    None
}

/// Whether one of the nodes has the identity.
pub fn contains_node(nodes: &Vec<TreeNodeRecord>, id: &NodeId) -> (found: bool)
    ensures
        found == has_node(nodes@, id@),
{
    let mut index: usize = 0;
    while index < nodes.len()
        invariant
            index <= nodes@.len(),
            forall|i: int| 0 <= i < index ==> (#[trigger] nodes@[i]).id@ != id@,
        decreases nodes@.len() - index,
    {
        if nodes[index].id.same(id) {
            return true;
        }
        index = index + 1;
    }
    false
}

/// What is wrong with the edges that were found for one slot of a node.
pub open spec fn edge_answer_error(
    edges: Seq<TreeEdgeRecord>,
    parent: Seq<char>,
    slot: int,
) -> Option<ErrorView> {
    if edges.len() > 1 {
        Some(
            tree_failure(
                "node `"@ + parent + "` has duplicate edge for slot "@ + decimal(slot as nat),
            ),
        )
    } else if edges.len() == 1 && (edges[0].parent_node_id@ != parent || edges[0].slot != slot) {
        Some(
            tree_failure(
                "node `"@ + parent + "` slot "@ + decimal(slot as nat)
                    + " returned mismatched edge row"@,
            ),
        )
    } else {
        None
    }
}

/// The child that the edges found for one slot of a node lead to.
pub fn checked_child(edges: &Vec<TreeEdgeRecord>, parent: &NodeId, slot: u16) -> (result: Result<
    Option<NodeId>,
>)
    ensures
        match result {
            Ok(child) => edge_answer_error(edges@, parent@, slot as int) is None && node_text(child)
                == (if edges@.len() == 0 {
                None
            } else {
                Some(edges@[0].child_node_id@)
            }),
            Err(error) => edge_answer_error(edges@, parent@, slot as int) == Some(error@),
        },
{
    if edges.len() > 1 {
        let mut message = concat_three("node `", parent.as_str(), "` has duplicate edge for slot ");
        push_decimal(&mut message, slot as u64);
        return Err(invalid_tree(message));
    }
    if edges.len() == 0 {
        return Ok(None);
    }
    let edge = &edges[0];
    if !edge.parent_node_id.same(parent) || edge.slot != slot {
        let mut message = concat_three("node `", parent.as_str(), "` slot ");
        push_decimal(&mut message, slot as u64);
        message.append(" returned mismatched edge row");
        return Err(invalid_tree(message));
    }
    Ok(Some(edge.child_node_id.clone()))
}

/// What is wrong with the internal node that was found above a chunk on a level.
pub open spec fn existing_node_error(
    node: Option<TreeNodeRecord>,
    id: Seq<char>,
    layout_kind: ExportLayoutKind,
    geometry: TreeGeometry,
    chunk: int,
    level: int,
    tree: Seq<char>,
) -> Option<ErrorView> {
    match node {
        None => Some(tree_failure("tree node `"@ + id + "` is missing"@)),
        Some(node) => if node.layout_kind != layout_kind || node.kind != TreeNodeKind::Internal
            || node.level != level || node.span_start_bytes != ancestor_start(chunk, level as nat)
            || node.span_len_bytes != ancestor_size(geometry, chunk, level) {
            Some(
                tree_failure(
                    "tree node `"@ + node.id@ + "` does not match "@ + tree + " tree geometry"@,
                ),
            )
        } else {
            None
        },
    }
}

/// Checks the internal node that was found above a chunk.
pub(crate) fn check_existing_node(
    node: &Option<TreeNodeRecord>,
    id: &NodeId,
    layout_kind: ExportLayoutKind,
    span: TreeNodeSpan,
    tree: &'static str,
    Ghost(geometry): Ghost<TreeGeometry>,
    Ghost(chunk): Ghost<int>,
) -> (result: Result<()>)
    requires
        span.first() == ancestor_start(chunk, span.depth() as nat),
        span.size() == ancestor_size(geometry, chunk, span.depth()),
    ensures
        match result {
            Ok(_) => existing_node_error(
                *node,
                id@,
                layout_kind,
                geometry,
                chunk,
                span.depth(),
                tree@,
            ) is None,
            Err(error) => existing_node_error(
                *node,
                id@,
                layout_kind,
                geometry,
                chunk,
                span.depth(),
                tree@,
            ) == Some(error@),
        },
{
    match node {
        None => Err(invalid_tree(concat_three("tree node `", id.as_str(), "` is missing"))),
        Some(node) => {
            if node.layout_kind != layout_kind || node.kind != TreeNodeKind::Internal || node.level
                != span.level() || node.span_start_bytes != span.start_bytes()
                || node.span_len_bytes != span.len_bytes() {
                let mut message = concat_three(
                    "tree node `",
                    node.id.as_str(),
                    "` does not match ",
                );
                message.append(tree);
                message.append(" tree geometry");
                return Err(invalid_tree(message));
            }
            Ok(())
        },
    }
}

/// The children of nodes.
pub type Children = spec_fn(Seq<char>, int) -> Option<Seq<char>>;

/// The leaf that the path of a chunk leads to from a node on a level, if it leads to one.
pub open spec fn leaf_below(children: Children, node: Seq<char>, chunk: int, level: nat) -> Option<
    Seq<char>,
>
    decreases level,
{
    if level == 0 {
        Some(node)
    } else {
        match children(node, path_slot(chunk, (level - 1) as nat)) {
            Some(child) => leaf_below(children, child, chunk, (level - 1) as nat),
            None => None,
        }
    }
}

/// The node that the path of a chunk leads to from a node on a level down to a lower level, if it
/// leads to one.
pub open spec fn node_below(
    children: Children,
    node: Seq<char>,
    chunk: int,
    level: nat,
    target: nat,
) -> Option<Seq<char>>
    decreases level,
{
    if level <= target {
        Some(node)
    } else {
        match children(node, path_slot(chunk, (level - 1) as nat)) {
            Some(child) => node_below(children, child, chunk, (level - 1) as nat, target),
            None => None,
        }
    }
}

/// The leaf is the node on the lowest level.
pub proof fn lemma_leaf_is_lowest(children: Children, node: Seq<char>, chunk: int, level: nat)
    ensures
        leaf_below(children, node, chunk, level) == node_below(children, node, chunk, level, 0),
    decreases level,
{
    if level > 0 {
        match children(node, path_slot(chunk, (level - 1) as nat)) {
            Some(child) => {
                lemma_leaf_is_lowest(children, child, chunk, (level - 1) as nat);
            },
            None => {},
        }
    }
}

/// The path goes on to the child of the node that it leads to.
pub proof fn lemma_path_goes_on(
    children: Children,
    node: Seq<char>,
    chunk: int,
    level: nat,
    target: nat,
)
    requires
        0 < target <= level,
    ensures
        node_below(children, node, chunk, level, (target - 1) as nat) == match node_below(
            children,
            node,
            chunk,
            level,
            target,
        ) {
            Some(reached) => children(reached, path_slot(chunk, (target - 1) as nat)),
            None => None,
        },
    decreases level,
{
    if level > target {
        match children(node, path_slot(chunk, (level - 1) as nat)) {
            Some(child) => {
                lemma_path_goes_on(children, child, chunk, (level - 1) as nat, target);
            },
            None => {},
        }
    } else {
        reveal_with_fuel(node_below, 2);
    }
}

/// More children change no path that leads somewhere.
pub proof fn lemma_path_is_kept(
    before: Children,
    after: Children,
    node: Seq<char>,
    chunk: int,
    level: nat,
    target: nat,
)
    requires
        forall|parent: Seq<char>, slot: int|
            (#[trigger] before(parent, slot)) is Some ==> after(parent, slot) == before(
                parent,
                slot,
            ),
        node_below(before, node, chunk, level, target) is Some,
    ensures
        node_below(after, node, chunk, level, target) == node_below(
            before,
            node,
            chunk,
            level,
            target,
        ),
    decreases level,
{
    if level > target {
        let slot = path_slot(chunk, (level - 1) as nat);
        assert(before(node, slot) is Some);
        lemma_path_is_kept(before, after, before(node, slot)->0, chunk, (level - 1) as nat, target);
    }
}

/// The path of a chunk down from a node does not go through a slot of another node.
pub open spec fn avoids(
    children: Children,
    node: Seq<char>,
    chunk: int,
    level: nat,
    other: Seq<char>,
    slot: int,
) -> bool
    decreases level,
{
    level == 0 || {
        &&& node != other || path_slot(chunk, (level - 1) as nat) != slot
        &&& match children(node, path_slot(chunk, (level - 1) as nat)) {
            Some(child) => avoids(children, child, chunk, (level - 1) as nat, other, slot),
            None => true,
        }
    }
}

/// A change of one child moves no chunk whose path does not go through it.
pub proof fn law_other_paths_are_kept(
    before: Children,
    after: Children,
    node: Seq<char>,
    chunk: int,
    level: nat,
    changed: Seq<char>,
    slot: int,
)
    requires
        forall|parent: Seq<char>, index: int|
            parent != changed || index != slot ==> #[trigger] after(parent, index) == before(
                parent,
                index,
            ),
        avoids(before, node, chunk, level, changed, slot),
    ensures
        leaf_below(after, node, chunk, level) == leaf_below(before, node, chunk, level),
    decreases level,
{
    if level > 0 {
        let index = path_slot(chunk, (level - 1) as nat);
        assert(after(node, index) == before(node, index));
        match before(node, index) {
            Some(child) => {
                law_other_paths_are_kept(
                    before,
                    after,
                    child,
                    chunk,
                    (level - 1) as nat,
                    changed,
                    slot,
                );
            },
            None => {},
        }
    }
}

/// A node with the children of another leads every chunk to the leaf that the other leads it to.
pub proof fn law_a_copy_leads_to_the_same_leaves(
    children: Children,
    node: Seq<char>,
    copy: Seq<char>,
    chunk: int,
    level: nat,
)
    requires
        0 <= chunk,
        level > 0,
        forall|slot: int| 0 <= slot < 32 ==> #[trigger] children(copy, slot) == children(node, slot),
    ensures
        leaf_below(children, copy, chunk, level) == leaf_below(children, node, chunk, level),
{
    let slot = path_slot(chunk, (level - 1) as nat);
    assert(0 <= slot < 32);
    assert(children(copy, slot) == children(node, slot));
}

/// An edge for the same slot of the same node.
pub open spec fn same_slot(first: TreeEdgeRecord, second: TreeEdgeRecord) -> bool {
    first.parent_node_id@ == second.parent_node_id@ && first.slot == second.slot
}

/// The edges with one more, in the place of an edge for the same slot if there is one.
pub open spec fn upserted(edges: Seq<TreeEdgeRecord>, edge: TreeEdgeRecord) -> Seq<TreeEdgeRecord> {
    if child_in(edges, edge.parent_node_id@, edge.slot as int) is Some {
        Seq::new(
            edges.len(),
            |i: int|
                if same_slot(edges[i], edge) {
                    edge
                } else {
                    edges[i]
                },
        )
    } else {
        edges.push(edge)
    }
}

/// No slot has two edges.
pub open spec fn one_edge_per_slot(edges: Seq<TreeEdgeRecord>) -> bool {
    forall|i: int, j: int| 0 <= i < j < edges.len() ==> !same_slot(#[trigger] edges[i], #[trigger] edges[j])
}

/// A slot has a child if one of the edges is for it.
pub proof fn lemma_child_in(edges: Seq<TreeEdgeRecord>, parent: Seq<char>, slot: int)
    ensures
        child_in(edges, parent, slot) is Some <==> exists|i: int|
            0 <= i < edges.len() && (#[trigger] edges[i]).parent_node_id@ == parent && edges[i].slot
                == slot,
    decreases edges.len(),
{
    if edges.len() > 0 {
        lemma_child_in(edges.drop_last(), parent, slot);
        if child_in(edges.drop_last(), parent, slot) is Some {
            let i = choose|i: int|
                0 <= i < edges.len() - 1 && (#[trigger] edges.drop_last()[i]).parent_node_id@
                    == parent && edges.drop_last()[i].slot == slot;
            assert(edges[i] == edges.drop_last()[i]);
        }
        if edges.last().parent_node_id@ == parent && edges.last().slot == slot {
            assert(edges[edges.len() - 1] == edges.last());
        }
        assert forall|i: int|
            0 <= i < edges.len() && (#[trigger] edges[i]).parent_node_id@ == parent
                && edges[i].slot == slot implies child_in(edges, parent, slot) is Some by {
            if i < edges.len() - 1 {
                assert(edges.drop_last()[i] == edges[i]);
            }
        }
    }
}

/// What an edge that takes the place of others does to the children.
proof fn lemma_replaced(
    edges: Seq<TreeEdgeRecord>,
    after: Seq<TreeEdgeRecord>,
    edge: TreeEdgeRecord,
    parent: Seq<char>,
    slot: int,
)
    requires
        after.len() == edges.len(),
        forall|i: int|
            0 <= i < edges.len() ==> #[trigger] after[i] == if same_slot(edges[i], edge) {
                edge
            } else {
                edges[i]
            },
    ensures
        child_in(after, parent, slot) == if parent == edge.parent_node_id@ && slot == edge.slot
            && child_in(edges, parent, slot) is Some {
            Some(edge.child_node_id@)
        } else {
            child_in(edges, parent, slot)
        },
    decreases edges.len(),
{
    if edges.len() > 0 {
        lemma_replaced(edges.drop_last(), after.drop_last(), edge, parent, slot);
        assert(after.last() == after[after.len() - 1]);
    }
}

/// The edge leads to its child, every other slot keeps its own, and no slot gets a second edge.
pub proof fn lemma_upserted(
    edges: Seq<TreeEdgeRecord>,
    edge: TreeEdgeRecord,
    parent: Seq<char>,
    slot: int,
)
    ensures
        child_in(upserted(edges, edge), parent, slot) == if parent == edge.parent_node_id@ && slot
            == edge.slot {
            Some(edge.child_node_id@)
        } else {
            child_in(edges, parent, slot)
        },
        one_edge_per_slot(edges) ==> one_edge_per_slot(upserted(edges, edge)),
{
    let after = upserted(edges, edge);
    if child_in(edges, edge.parent_node_id@, edge.slot as int) is Some {
        lemma_replaced(edges, after, edge, parent, slot);
    } else {
        assert(after.drop_last() =~= edges);
        assert(after.last() == edge);
        lemma_child_in(edges, edge.parent_node_id@, edge.slot as int);
    }
}

/// Adds an edge, in the place of an edge for the same slot if there is one.
pub fn upsert(edges: &mut Vec<TreeEdgeRecord>, edge: TreeEdgeRecord)
    requires
        one_edge_per_slot(old(edges)@),
    ensures
        final(edges)@ == upserted(old(edges)@, edge),
        one_edge_per_slot(final(edges)@),
{
    let ghost before = edges@;
    proof {
        lemma_upserted(before, edge, edge.parent_node_id@, edge.slot as int);
        lemma_child_in(before, edge.parent_node_id@, edge.slot as int);
    }
    let mut index: usize = 0;
    while index < edges.len()
        invariant
            edges@ == before,
            before == old(edges)@,
            index <= before.len(),
            one_edge_per_slot(before),
            one_edge_per_slot(upserted(before, edge)),
            child_in(before, edge.parent_node_id@, edge.slot as int) is Some <==> exists|i: int|
                0 <= i < before.len() && (#[trigger] before[i]).parent_node_id@
                    == edge.parent_node_id@ && before[i].slot == edge.slot,
            forall|i: int| 0 <= i < index ==> !same_slot(#[trigger] before[i], edge),
        decreases before.len() - index,
    {
        if edges[index].slot == edge.slot && edges[index].parent_node_id.same(&edge.parent_node_id) {
            assert(same_slot(before[index as int], edge));
            edges.set(index, edge);
            proof {
                assert forall|i: int| 0 <= i < before.len() && i != index implies !same_slot(
                    #[trigger] before[i],
                    edge,
                ) by {
                    if i > index {
                        assert(!same_slot(before[index as int], before[i]));
                    }
                }
                assert(edges@ =~= upserted(before, edge));
            }
            return ;
        }
        index = index + 1;
    }
    edges.push(edge);
}

/// A node that was planned for a place is taken by whoever finds it there, for each chunk below it.
pub proof fn law_planned_node_is_taken(
    record: TreeNodeRecord,
    id: Seq<char>,
    layout_kind: ExportLayoutKind,
    owner: Option<ExportId>,
    geometry: TreeGeometry,
    chunk: int,
    other: int,
    level: int,
    tree: Seq<char>,
)
    requires
        is_node(record, id, layout_kind, owner, geometry, chunk, level),
        ancestor_start(other, level as nat) == ancestor_start(chunk, level as nat),
    ensures
        loaded_node_error(geometry, layout_kind, other, level, record) is None,
        level > 0 ==> existing_node_error(
            Some(record),
            id,
            layout_kind,
            geometry,
            other,
            level,
            tree,
        ) is None,
{
}

/// A node that is there is taken by a plan exactly when it is an inner node of the layout that
/// spans the bytes the tree has there; none at all is an error.
pub proof fn law_existing_node_is_taken_where_it_belongs(
    node: TreeNodeRecord,
    id: Seq<char>,
    layout_kind: ExportLayoutKind,
    geometry: TreeGeometry,
    chunk: int,
    level: int,
    tree: Seq<char>,
)
    ensures
        existing_node_error(None, id, layout_kind, geometry, chunk, level, tree) is Some,
        existing_node_error(Some(node), id, layout_kind, geometry, chunk, level, tree) is None <==> {
            &&& node.layout_kind == layout_kind
            &&& node.kind == TreeNodeKind::Internal
            &&& node.level == level
            &&& node.span_start_bytes == ancestor_start(chunk, level as nat)
            &&& node.span_len_bytes == ancestor_size(geometry, chunk, level)
        },
{
}

/// The answer to what hangs in a slot is taken exactly when it is nothing or the one edge of that
/// slot.
pub proof fn law_edge_answer_is_of_its_slot(
    edges: Seq<TreeEdgeRecord>,
    parent: Seq<char>,
    slot: int,
)
    ensures
        edge_answer_error(edges, parent, slot) is None <==> edges.len() == 0 || (edges.len() == 1
            && edges[0].parent_node_id@ == parent && edges[0].slot == slot),
        edge_answer_error(edges, parent, slot) is None ==> child_in(edges, parent, slot) == (
        if edges.len() == 0 {
            None
        } else {
            Some(edges[0].child_node_id@)
        }),
{
    if edges.len() == 1 {
        assert(edges.last() == edges[0]);
    }
}

/// The child in a slot is that of an edge for the slot, and there is none only where no edge is for
/// it.
pub proof fn law_child_is_that_of_an_edge(
    edges: Seq<TreeEdgeRecord>,
    parent: Seq<char>,
    slot: int,
)
    ensures
        match child_in(edges, parent, slot) {
            Some(child) => exists|i: int|
                0 <= i < edges.len() && (#[trigger] edges[i]).parent_node_id@ == parent
                    && edges[i].slot == slot && edges[i].child_node_id@ == child,
            None => forall|i: int|
                0 <= i < edges.len() ==> (#[trigger] edges[i]).parent_node_id@ != parent
                    || edges[i].slot != slot,
        },
    decreases edges.len(),
{
    if edges.len() > 0 {
        let last = edges.len() - 1;
        assert(edges.last() == edges[last]);
        if !(edges[last].parent_node_id@ == parent && edges[last].slot == slot) {
            let front = edges.drop_last();
            law_child_is_that_of_an_edge(front, parent, slot);
            assert(forall|i: int| 0 <= i < front.len() ==> front[i] == edges[i]);
            if child_in(front, parent, slot) is Some {
                let i = choose|i: int|
                    0 <= i < front.len() && (#[trigger] front[i]).parent_node_id@ == parent
                        && front[i].slot == slot && front[i].child_node_id@ == child_in(
                        front,
                        parent,
                        slot,
                    )->0;
                assert(edges[i] == front[i]);
            }
        }
    }
}

/// Putting an edge into its slot leaves every other slot as it is.
pub proof fn law_upsert_changes_only_its_slot(
    edges: Seq<TreeEdgeRecord>,
    edge: TreeEdgeRecord,
    parent: Seq<char>,
    slot: int,
)
    requires
        one_edge_per_slot(edges),
    ensures
        child_in(upserted(edges, edge), parent, slot) == (if edge.parent_node_id@ == parent
            && edge.slot == slot {
            Some(edge.child_node_id@)
        } else {
            child_in(edges, parent, slot)
        }),
    decreases edges.len(),
{
    let after = upserted(edges, edge);
    let asked = edge.parent_node_id@ == parent && edge.slot == slot;
    law_child_is_that_of_an_edge(edges, parent, slot);
    law_child_is_that_of_an_edge(edges, edge.parent_node_id@, edge.slot as int);
    law_child_is_that_of_an_edge(after, parent, slot);
    if child_in(edges, edge.parent_node_id@, edge.slot as int) is Some {
        let k = choose|i: int|
            0 <= i < edges.len() && (#[trigger] edges[i]).parent_node_id@ == edge.parent_node_id@
                && edges[i].slot == edge.slot;
        assert(same_slot(edges[k], edge));
        assert(after[k] == edge);
        match child_in(edges, parent, slot) {
            Some(child) => {
                let i = choose|i: int|
                    0 <= i < edges.len() && (#[trigger] edges[i]).parent_node_id@ == parent
                        && edges[i].slot == slot && edges[i].child_node_id@ == child;
                if !asked {
                    assert(after[i] == edges[i]);
                    let j = choose|j: int|
                        0 <= j < after.len() && (#[trigger] after[j]).parent_node_id@ == parent
                            && after[j].slot == slot && after[j].child_node_id@ == child_in(
                            after,
                            parent,
                            slot,
                        )->0;
                    assert(after[j] == edges[j]);
                    if i < j {
                        assert(!same_slot(edges[i], edges[j]));
                    } else if j < i {
                        assert(!same_slot(edges[j], edges[i]));
                    }
                }
            },
            None => {
                assert(forall|i: int|
                    0 <= i < after.len() ==> (#[trigger] after[i]) == edge || after[i] == edges[i]);
                if !asked && child_in(after, parent, slot) is Some {
                    let j = choose|j: int|
                        0 <= j < after.len() && (#[trigger] after[j]).parent_node_id@ == parent
                            && after[j].slot == slot;
                    assert(edges[j].parent_node_id@ != parent || edges[j].slot != slot);
                }
            },
        }
    } else {
        assert(after.drop_last() =~= edges);
    }
}

} // verus!
