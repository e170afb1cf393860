//! The committed bytes of an export, and what a compaction makes of them.

use crate::catalog::{BlobKey, TreeLeafRefRecord, TreeStorageKind};
use crate::chunk_images::{
    has_image, latest, lemma_images_hold, patch_of, ChunkImage, ChunkImages,
};
use crate::cow_plan::{merged_children, CowPlannerView};
use crate::cow_tree::{law_published_tree, old_leaf, settled, unknown, NewLeaf, NewNodes};
use crate::error::Result;
use crate::export_compaction::{record_patches, takes_place, ExportCompaction};
use crate::extent_map::{lemma_value_at_source, ExtentEntry};
use crate::geometry::{capacity, chunk_count, path_slot};
use crate::leaf_walk::{follows, law_walk_finds_the_leaf, StageView, WalkView};
use crate::overlay::{
    covered_bytes, extent_slice, from_record, law_latest_write_shows, overlaid, overlays, shown_at,
    OverlayExtent,
};
use crate::read_view::{law_moving_the_root_changes_no_byte, moves_root, ReadViewModel};
use crate::root::RootView;
use crate::simple_tree::key_of;
use crate::snapshot_compaction::{
    law_compaction_changes_no_byte, lemma_patches_show, slices_of_all, SnapshotCompaction,
};
use crate::tree_plan::{has_node, is_leaf_ref, leaf_below, ChunkRef, Children};
use crate::wal::WalRecord;
use std::sync::Arc;
use vstd::prelude::*;

verus! {

/// The keys of the blobs that leaves name.
pub type LeafKeys = spec_fn(Seq<char>) -> Option<Seq<char>>;

/// The bytes that are stored under keys.
pub type Blobs = spec_fn(Seq<char>) -> Seq<u8>;

/// A tree as the catalog holds it, with the blobs of its leaves.
pub struct CommittedTree {
    pub size_bytes: int,
    pub top: int,
    pub root: Option<Seq<char>>,
    pub children: Children,
    pub keys: LeafKeys,
    pub blobs: Blobs,
}

impl CommittedTree {
    /// The committed byte at a position: that of the blob that the leaf of its chunk names, and zero
    /// where there is none.
    pub open spec fn byte(self, position: int) -> u8 {
        if 0 <= position < self.size_bytes {
            match old_leaf(self.root, position / 33554432, self.top as nat, self.children) {
                Some(leaf) => match (self.keys)(leaf) {
                    Some(key) => (self.blobs)(key)[position % 33554432],
                    None => 0,
                },
                None => 0,
            }
        } else {
            0
        }
    }

    /// The committed bytes.
    pub open spec fn bytes(self) -> spec_fn(int) -> u8 {
        |position: int| self.byte(position)
    }
}

/// The key that the records of new leaves give a leaf.
pub open spec fn key_in(leaf_refs: Seq<TreeLeafRefRecord>, leaf: Seq<char>) -> Option<Seq<char>>
    decreases leaf_refs.len(),
{
    if leaf_refs.len() == 0 {
        None
    } else if leaf_refs.last().node_id@ == leaf {
        Some(leaf_refs.last().storage_key@)
    } else {
        key_in(leaf_refs.drop_last(), leaf)
    }
}

/// The keys of the old leaves, and of the new ones.
pub open spec fn merged_keys(planner: CowPlannerView, keys: LeafKeys) -> LeafKeys {
    |leaf: Seq<char>|
        match key_in(planner.leaf_refs, leaf) {
            Some(key) => Some(key),
            None => keys(leaf),
        }
}

/// The tree below the old root.
pub open spec fn tree_before(
    planner: CowPlannerView,
    stored: Children,
    keys: LeafKeys,
    blobs: Blobs,
) -> CommittedTree {
    CommittedTree {
        size_bytes: planner.geometry.total(),
        top: planner.geometry.top(),
        root: planner.old_root,
        children: stored,
        keys,
        blobs,
    }
}

/// The tree below the new root, once the records of the planner were published.
pub open spec fn tree_after(
    planner: CowPlannerView,
    stored: Children,
    keys: LeafKeys,
    blobs: Blobs,
) -> CommittedTree {
    CommittedTree {
        root: Some(planner.new_root@),
        children: merged_children(planner, stored),
        keys: merged_keys(planner, keys),
        ..tree_before(planner, stored, keys, blobs)
    }
}

/// The images were made of the committed bytes of their chunks, as far as the export goes.
pub open spec fn loaded_from(images: Seq<ChunkImage>, tree: CommittedTree) -> bool {
    forall|i: int, offset: int|
        0 <= i < images.len() && 0 <= offset < 33554432 && images[i].chunk() * 33554432 + offset
            < tree.size_bytes ==> #[trigger] images[i].base()[offset] == tree.byte(
            images[i].chunk() * 33554432 + offset,
        )
}

/// The new leaves are those of the images, and their blobs hold the bytes of the images.
pub open spec fn stored_as(
    images: Seq<ChunkImage>,
    written: Map<int, NewLeaf>,
    blobs: Blobs,
) -> bool {
    &&& forall|i: int|
        0 <= i < images.len() ==> written.contains_key((#[trigger] images[i]).chunk()) && blobs(
            written[images[i].chunk()].key,
        ) == images[i].bytes()
    &&& forall|chunk: int| #[trigger] written.contains_key(chunk) ==> has_image(images, chunk)
}

/// What shows now came out of what showed when a snapshot was taken by writes after `through`.
pub open spec fn grown_from(
    taken: Seq<ExtentEntry<OverlayExtent>>,
    now: Seq<ExtentEntry<OverlayExtent>>,
    through: int,
) -> bool {
    forall|position: int|
        match #[trigger] shown_at(now, position) {
            Some((number, byte)) => number <= through ==> shown_at(taken, position) == Some(
                (number, byte),
            ),
            None => shown_at(taken, position) is None,
        }
}

/// A snapshot is good when it is taken.
pub proof fn law_fresh_snapshot_is_good(taken: Seq<ExtentEntry<OverlayExtent>>, through: int)
    ensures
        grown_from(taken, taken, through),
{
}

/// A snapshot stays good while later writes come in.
pub proof fn law_later_writes_keep_a_snapshot(
    taken: Seq<ExtentEntry<OverlayExtent>>,
    now: Seq<ExtentEntry<OverlayExtent>>,
    record: Arc<WalRecord>,
    through: int,
)
    requires
        overlays(now),
        grown_from(taken, now, through),
        record.wf(),
        record.span().first() < record.span().saturated_limit(),
        through < record.number(),
    ensures
        grown_from(taken, overlaid(now, record), through),
{
    assert forall|position: int|
        match #[trigger] shown_at(overlaid(now, record), position) {
            Some((number, byte)) => number <= through ==> shown_at(taken, position) == Some(
                (number, byte),
            ),
            None => shown_at(taken, position) is None,
        } by {
        law_latest_write_shows(now, record, position);
        assert(match shown_at(now, position) {
            Some((number, byte)) => number <= through ==> shown_at(taken, position) == Some(
                (number, byte),
            ),
            None => shown_at(taken, position) is None,
        });
    }
}

/// The record of a leaf gives it its key.
proof fn lemma_key_in(leaf_refs: Seq<TreeLeafRefRecord>, index: int)
    requires
        0 <= index < leaf_refs.len(),
        forall|i: int, j: int|
            0 <= i < j < leaf_refs.len() ==> (#[trigger] leaf_refs[i]).node_id@ != (
            #[trigger] leaf_refs[j]).node_id@,
    ensures
        key_in(leaf_refs, leaf_refs[index].node_id@) == Some(leaf_refs[index].storage_key@),
    decreases leaf_refs.len(),
{
    let last = leaf_refs.len() - 1;
    assert(leaf_refs[last] == leaf_refs.last());
    if index < last {
        let front = leaf_refs.drop_last();
        assert(forall|i: int| 0 <= i < front.len() ==> front[i] == leaf_refs[i]);
        lemma_key_in(front, index);
    }
}

/// A key comes from one of the records.
proof fn lemma_key_source(leaf_refs: Seq<TreeLeafRefRecord>, leaf: Seq<char>) -> (index: int)
    requires
        key_in(leaf_refs, leaf) is Some,
    ensures
        0 <= index < leaf_refs.len(),
        leaf_refs[index].node_id@ == leaf,
    decreases leaf_refs.len(),
{
    let last = leaf_refs.len() - 1;
    if leaf_refs.last().node_id@ == leaf {
        last
    } else {
        let index = lemma_key_source(leaf_refs.drop_last(), leaf);
        assert(leaf_refs.drop_last()[index] == leaf_refs[index]);
        index
    }
}

/// The leaves of the old tree are no new nodes.
proof fn lemma_old_leaf_is_old(
    planner: CowPlannerView,
    stored: Children,
    node: Seq<char>,
    chunk: int,
    level: nat,
)
    requires
        unknown(planner, stored),
        !has_node(planner.nodes, node),
    ensures
        leaf_below(stored, node, chunk, level) matches Some(leaf) ==> !has_node(
            planner.nodes,
            leaf,
        ),
    decreases level,
{
    if level > 0 {
        match stored(node, path_slot(chunk, (level - 1) as nat)) {
            Some(child) => {
                lemma_old_leaf_is_old(planner, stored, child, chunk, (level - 1) as nat);
            },
            None => {},
        }
    }
}

/// What a write shows lies in the extents.
proof fn lemma_shown_inside(extents: Seq<ExtentEntry<OverlayExtent>>, position: int) -> (index: int)
    requires
        shown_at(extents, position) is Some,
    ensures
        0 <= index < extents.len(),
        extents[index].start <= position < extents[index].end,
{
    lemma_value_at_source(extents, position)
}

/// A walk that ended says what the committed bytes of its chunk are: those of the blob that it
/// found, and zeros where it found none.
pub proof fn law_walk_reads_the_tree(
    walk: WalkView,
    tree: CommittedTree,
    root: Seq<char>,
    position: int,
)
    requires
        tree.root == Some(root),
        tree.top == walk.geometry.top(),
        follows(walk, tree.children, root),
        walk.stage is Found || walk.stage is Missing,
        walk.stage matches StageView::Found { leaf } ==> (tree.keys)(leaf.record().id@) == Some(
            leaf.reference().storage_key@,
        ),
        0 <= position < tree.size_bytes,
        position / 33554432 == walk.chunk,
    ensures
        tree.byte(position) == match walk.stage {
            StageView::Found { leaf } => (tree.blobs)(leaf.reference().storage_key@)[position
                % 33554432],
            _ => 0,
        },
{
    law_walk_finds_the_leaf(walk, tree.children, root);
}

/// The published tree of a compaction that is through holds the retained writes, and elsewhere what
/// the old tree holds.
pub proof fn law_published_tree_holds_the_writes(
    run: SnapshotCompaction,
    extents: Seq<ExtentEntry<OverlayExtent>>,
    planner: CowPlannerView,
    stored: Children,
    nodes: NewNodes,
    written: Map<int, NewLeaf>,
    keys: LeafKeys,
    blobs: Blobs,
    position: int,
)
    requires
        run.wf(),
        run@.applied == run@.slices.len(),
        overlays(extents),
        extents.len() > 0,
        run@.slices == slices_of_all(extents),
        planner.geometry.wf(),
        settled(planner, stored, nodes, written),
        loaded_from(run.images().images(), tree_before(planner, stored, keys, blobs)),
        stored_as(run.images().images(), written, blobs),
        0 <= position < planner.geometry.total(),
    ensures
        tree_after(planner, stored, keys, blobs).byte(position) == match shown_at(
            extents,
            position,
        ) {
            Some((_, byte)) => byte,
            None => tree_before(planner, stored, keys, blobs).byte(position),
        },
{
    let images = run.images().images();
    let chunk = position / 33554432;
    let offset = position % 33554432;
    let before = tree_before(planner, stored, keys, blobs);
    let after = tree_after(planner, stored, keys, blobs);
    let top = planner.geometry.top() as nat;
    lemma_something_is_written(run, extents);
    let some = images[0].chunk();
    assert(written.contains_key(some));
    assert(chunk < chunk_count(planner.geometry.total()) <= capacity(top));
    law_published_tree(planner, stored, nodes, written, chunk);
    law_compaction_changes_no_byte(run, extents, position);
    if written.contains_key(chunk) {
        let i = choose|i: int| 0 <= i < images.len() && (#[trigger] images[i]).chunk() == chunk;
        let leaf = written[chunk];
        let r = choose|r: int|
            0 <= r < planner.leaf_refs.len() && is_leaf_ref(
                #[trigger] planner.leaf_refs[r],
                leaf.id,
                TreeStorageKind::ImmutableBlob,
                leaf.key,
            );
        lemma_key_in(planner.leaf_refs, r);
        assert((after.keys)(leaf.id) == Some(leaf.key));
        assert(images[i].base()[offset] == before.byte(chunk * 33554432 + offset));
    } else {
        assert(!has_image(images, chunk)) by {
            if has_image(images, chunk) {
                let i = choose|i: int|
                    0 <= i < images.len() && (#[trigger] images[i]).chunk() == chunk;
                assert(written.contains_key(images[i].chunk()));
            }
        }
        match planner.old_root {
            Some(root) => {
                lemma_old_leaf_is_old(planner, stored, root, chunk, top);
                match leaf_below(stored, root, chunk, top) {
                    Some(leaf) => {
                        if key_in(planner.leaf_refs, leaf) is Some {
                            let r = lemma_key_source(planner.leaf_refs, leaf);
                            assert(has_node(planner.nodes, planner.leaf_refs[r].node_id@));
                        }
                        assert((after.keys)(leaf) == keys(leaf));
                    },
                    None => {},
                }
            },
            None => {},
        }
    }
}

/// Where something is retained, there is an image.
proof fn lemma_something_is_written(
    run: SnapshotCompaction,
    extents: Seq<ExtentEntry<OverlayExtent>>,
)
    requires
        run.wf(),
        run@.applied == run@.slices.len(),
        overlays(extents),
        extents.len() > 0,
        run@.slices == slices_of_all(extents),
    ensures
        run.images().images().len() > 0,
{
    assert(run@.slices.take(run@.applied) =~= run@.slices);
    let patches = run.images().patches();
    assert(patches[0] == patch_of(extent_slice(extents[0])));
    assert(from_record(extents[0]));
    assert(patches[0].touches(patches[0].start / 33554432));
    assert(has_image(run.images().images(), patches[0].start / 33554432));
}

/// A compaction changes no byte that is read: once the images of a snapshot were published and the
/// root of the read view has moved to them, every position reads as before, whatever was written
/// meanwhile.
pub proof fn law_compaction_keeps_the_content(
    run: SnapshotCompaction,
    extents: Seq<ExtentEntry<OverlayExtent>>,
    planner: CowPlannerView,
    stored: Children,
    nodes: NewNodes,
    written: Map<int, NewLeaf>,
    keys: LeafKeys,
    blobs: Blobs,
    before: ReadViewModel,
    after: ReadViewModel,
    result: Result<()>,
    debt: int,
    position: int,
)
    requires
        run.wf(),
        run@.applied == run@.slices.len(),
        overlays(extents),
        extents.len() > 0,
        run@.slices == slices_of_all(extents),
        planner.geometry.wf(),
        planner.geometry.total() == run@.root.size_bytes,
        planner.old_root == run@.root.root_node_id,
        settled(planner, stored, nodes, written),
        loaded_from(run.images().images(), tree_before(planner, stored, keys, blobs)),
        stored_as(run.images().images(), written, blobs),
        before.retains(),
        before.root == run@.root,
        before.cache.wf(),
        0 <= before.cache.max_bytes,
        0 <= before.cache.next_object_id,
        before.cache.next_object_id + covered_bytes(before.overlay) <= u64::MAX,
        before.faithful(tree_before(planner, stored, keys, blobs).bytes()),
        grown_from(extents, before.overlay, run@.target),
        moves_root(
            before,
            after,
            result,
            RootView {
                root_node_id: Some(planner.new_root@),
                base_wal_seq: run@.target,
                ..run@.root
            },
            debt,
        ),
    ensures
        ({
            let old_bytes = tree_before(planner, stored, keys, blobs).bytes();
            let new_bytes = tree_after(planner, stored, keys, blobs).bytes();
            match result {
                Ok(_) => after.faithful(new_bytes) && after.content(new_bytes, position)
                    == before.content(old_bytes, position),
                Err(_) => after.faithful(old_bytes) && after.content(old_bytes, position)
                    == before.content(old_bytes, position),
            }
        }),
{
    let old_bytes = tree_before(planner, stored, keys, blobs).bytes();
    let new_bytes = tree_after(planner, stored, keys, blobs).bytes();
    let root = RootView {
        root_node_id: Some(planner.new_root@),
        base_wal_seq: run@.target,
        ..run@.root
    };
    assert forall|p: int|
        (match shown_at(before.overlay, p) {
            Some((number, byte)) => number <= root.base_wal_seq ==> #[trigger] new_bytes(p) == byte,
            None => new_bytes(p) == old_bytes(p),
        }) by {
        if shown_at(before.overlay, p) is Some {
            let i = lemma_shown_inside(before.overlay, p);
            assert(before.overlay[i].end <= before.root.size_bytes);
        }
        if 0 <= p < planner.geometry.total() {
            law_published_tree_holds_the_writes(
                run,
                extents,
                planner,
                stored,
                nodes,
                written,
                keys,
                blobs,
                p,
            );
        }
    }
    law_moving_the_root_changes_no_byte(
        before,
        after,
        result,
        root,
        debt,
        old_bytes,
        new_bytes,
        position,
    );
}

/// The committed byte at a position where the catalog lists the chunks: that of the blob of its
/// chunk, and zero where it has none.
pub open spec fn listed_byte(chunks: Seq<ChunkRef>, blobs: Blobs, position: int) -> u8 {
    match key_of(chunks, position / 33554432) {
        Some(key) => blobs(key)[position % 33554432],
        None => 0,
    }
}

/// The images were made of the committed bytes of their chunks, and are stored under the keys.
pub open spec fn listed_images(
    images: Seq<ChunkImage>,
    keys: Seq<BlobKey>,
    listed: Seq<ChunkRef>,
    blobs: Blobs,
) -> bool {
    &&& keys.len() == images.len()
    &&& forall|i: int| 0 <= i < images.len() ==> blobs(keys[i]@) == (#[trigger] images[i]).bytes()
    &&& forall|i: int, offset: int|
        0 <= i < images.len() && 0 <= offset < 33554432 ==> #[trigger] images[i].base()[offset]
            == listed_byte(listed, blobs, images[i].chunk() * 33554432 + offset)
}

/// A list in which the images take their place holds the patches over what it held.
proof fn lemma_listed(
    images: ChunkImages,
    keys: Seq<BlobKey>,
    listed: Seq<ChunkRef>,
    chunks: Seq<ChunkRef>,
    blobs: Blobs,
    position: int,
)
    requires
        images.wf(),
        listed_images(images.images(), keys, listed, blobs),
        takes_place(images.images(), keys, listed, chunks),
        0 <= position,
    ensures
        listed_byte(chunks, blobs, position) == match latest(images.patches(), position) {
            Some(byte) => byte,
            None => listed_byte(listed, blobs, position),
        },
{
    let all = images.images();
    let chunk = position / 33554432;
    let offset = position % 33554432;
    lemma_images_hold(images, position);
    if has_image(all, chunk) {
        let i = choose|i: int| 0 <= i < all.len() && (#[trigger] all[i]).chunk() == chunk;
        assert(key_of(chunks, all[i].chunk()) == Some(keys[i]@));
        assert(all[i].base()[offset] == listed_byte(listed, blobs, chunk * 33554432 + offset));
    } else {
        assert(key_of(chunks, chunk) == key_of(listed, chunk));
    }
}

/// The list that a compaction of a log publishes holds at each position what the last record there
/// wrote, and elsewhere what the old list holds.
pub proof fn law_published_list_holds_the_records(
    run: ExportCompaction,
    keys: Seq<BlobKey>,
    chunks: Seq<ChunkRef>,
    blobs: Blobs,
    position: int,
)
    requires
        run.wf(),
        run@.current is None,
        listed_images(run.images().images(), keys, run@.snapshot.chunks@, blobs),
        takes_place(run.images().images(), keys, run@.snapshot.chunks@, chunks),
        0 <= position,
    ensures
        listed_byte(chunks, blobs, position) == match latest(
            record_patches(run@.replayed),
            position,
        ) {
            Some(byte) => byte,
            None => listed_byte(run@.snapshot.chunks@, blobs, position),
        },
{
    lemma_listed(run.images(), keys, run@.snapshot.chunks@, chunks, blobs, position);
}

/// The list that a compaction of a snapshot publishes holds the retained writes, and elsewhere what
/// the old list holds.
pub proof fn law_published_list_holds_the_writes(
    run: SnapshotCompaction,
    extents: Seq<ExtentEntry<OverlayExtent>>,
    keys: Seq<BlobKey>,
    listed: Seq<ChunkRef>,
    chunks: Seq<ChunkRef>,
    blobs: Blobs,
    position: int,
)
    requires
        run.wf(),
        run@.applied == run@.slices.len(),
        overlays(extents),
        run@.slices == slices_of_all(extents),
        listed_images(run.images().images(), keys, listed, blobs),
        takes_place(run.images().images(), keys, listed, chunks),
        0 <= position,
    ensures
        listed_byte(chunks, blobs, position) == match shown_at(extents, position) {
            Some((_, byte)) => byte,
            None => listed_byte(listed, blobs, position),
        },
{
    assert(run@.slices.take(run@.applied) =~= run@.slices);
    lemma_patches_show(extents, position);
    lemma_listed(run.images(), keys, listed, chunks, blobs, position);
}

} // verus!
