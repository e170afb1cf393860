//! Images of chunks that writes are put into before they are stored again.

use crate::catalog::ChunkIndex;
use crate::overlay::OverlayReadSlice;
use crate::splice::{copy_into, zero_bytes, zeros};
use vstd::prelude::*;

verus! {

/// Bytes that are written at a position.
pub struct Patch {
    pub start: int,
    pub bytes: Seq<u8>,
}

impl Patch {
    pub open spec fn covers(self, position: int) -> bool {
        self.start <= position < self.start + self.bytes.len()
    }

    /// Whether a byte of the patch lies in a chunk.
    pub open spec fn touches(self, chunk: int) -> bool {
        &&& self.bytes.len() > 0
        &&& self.start / 33554432 <= chunk <= (self.start + self.bytes.len() - 1) / 33554432
    }
}

/// The byte that the last of the patches puts at a position, if one does.
pub open spec fn latest(patches: Seq<Patch>, position: int) -> Option<u8>
    decreases patches.len(),
{
    if patches.len() == 0 {
        None
    } else if patches.last().covers(position) {
        Some(patches.last().bytes[position - patches.last().start])
    } else {
        latest(patches.drop_last(), position)
    }
}

/// The byte of a chunk after the patches.
pub open spec fn patched(patches: Seq<Patch>, committed: Seq<u8>, chunk: int, offset: int) -> u8 {
    match latest(patches, chunk * 33554432 + offset) {
        Some(byte) => byte,
        None => committed[offset],
    }
}

/// What a slice of a record writes.
pub open spec fn patch_of(slice: OverlayReadSlice) -> Patch {
    Patch {
        start: slice.start as int,
        bytes: slice.record.payload().subrange(
            slice.record_offset as int,
            slice.record_offset + (slice.end - slice.start),
        ),
    }
}

/// The slice lies in the payload of its record.
pub open spec fn slice_fits(slice: OverlayReadSlice) -> bool {
    &&& slice.start <= slice.end
    &&& slice.record_offset + (slice.end - slice.start) <= slice.record.payload().len()
}

/// The image of a chunk.
pub struct ChunkImage {
    chunk_index: ChunkIndex,
    data: Vec<u8>,
    committed: Ghost<Seq<u8>>,
}

impl ChunkImage {
    pub closed spec fn chunk(&self) -> int {
        self.chunk_index@
    }

    pub closed spec fn bytes(&self) -> Seq<u8> {
        self.data@
    }

    /// The bytes of the chunk before anything was put into the image.
    pub closed spec fn base(&self) -> Seq<u8> {
        self.committed@
    }

    pub fn chunk_index(&self) -> (index: ChunkIndex)
        ensures
            index@ == self.chunk(),
    {
        self.chunk_index
    }

    pub fn data(&self) -> (data: &Vec<u8>)
        ensures
            data@ == self.bytes(),
    {
        &self.data
    }
}

/// The images of the chunks that a list of patches touches.
pub struct ChunkImages {
    images: Vec<ChunkImage>,
    applied: Ghost<Seq<Patch>>,
}

/// Whether one of the images is that of a chunk.
pub open spec fn has_image(images: Seq<ChunkImage>, chunk: int) -> bool {
    exists|i: int| 0 <= i < images.len() && (#[trigger] images[i]).chunk() == chunk
}

/// An image holds what the patches make of its chunk.
pub open spec fn holds(image: ChunkImage, patches: Seq<Patch>) -> bool {
    &&& image.bytes().len() == 33554432
    &&& image.base().len() == 33554432
    &&& 0 <= image.chunk()
    &&& image.chunk() * 33554432 <= u64::MAX
    &&& forall|offset: int|
        0 <= offset < 33554432 ==> #[trigger] image.bytes()[offset] == patched(
            patches,
            image.base(),
            image.chunk(),
            offset,
        )
}

/// A patch covers a position of a chunk only if it touches the chunk.
proof fn lemma_touches(patch: Patch, chunk: int, offset: int)
    requires
        0 <= patch.start,
        0 <= offset < 33554432,
        patch.covers(chunk * 33554432 + offset),
    ensures
        patch.touches(chunk),
{
}

/// Where no patch touches a chunk, none puts a byte into it.
proof fn lemma_untouched(patches: Seq<Patch>, chunk: int, offset: int)
    requires
        0 <= offset < 33554432,
        forall|i: int| 0 <= i < patches.len() ==> 0 <= (#[trigger] patches[i]).start,
        forall|i: int| 0 <= i < patches.len() ==> !(#[trigger] patches[i]).touches(chunk),
    ensures
        latest(patches, chunk * 33554432 + offset) is None,
    decreases patches.len(),
{
    if patches.len() > 0 {
        let last = patches.len() - 1;
        assert(patches[last] == patches.last());
        if patches.last().covers(chunk * 33554432 + offset) {
            lemma_touches(patches.last(), chunk, offset);
        }
        assert forall|i: int| 0 <= i < last implies 0 <= (#[trigger] patches.drop_last()[i]).start
            && !patches.drop_last()[i].touches(chunk) by {
            assert(patches.drop_last()[i] == patches[i]);
        }
        lemma_untouched(patches.drop_last(), chunk, offset);
    }
}

impl ChunkImages {
    pub closed spec fn images(&self) -> Seq<ChunkImage> {
        self.images@
    }

    /// What was put into the images.
    pub closed spec fn patches(&self) -> Seq<Patch> {
        self.applied@
    }

    /// The images are in ascending order, each holds what the patches make of its chunk, and every
    /// touched chunk has one.
    pub open spec fn wf(&self) -> bool {
        &&& forall|i: int| 0 <= i < self.images().len() ==> holds(#[trigger] self.images()[i], self.patches())
        &&& forall|i: int, j: int|
            0 <= i < j < self.images().len() ==> (#[trigger] self.images()[i]).chunk()
                < (#[trigger] self.images()[j]).chunk()
        &&& forall|i: int| 0 <= i < self.patches().len() ==> 0 <= (#[trigger] self.patches()[i]).start
        &&& forall|i: int, chunk: int|
            0 <= i < self.patches().len() && (#[trigger] self.patches()[i]).touches(chunk)
                ==> #[trigger] has_image(self.images(), chunk)
    }

    pub fn new() -> (images: Self)
        ensures
            images.wf(),
            images.images().len() == 0,
            images.patches().len() == 0,
    {
        Self { images: Vec::new(), applied: Ghost(Seq::empty()) }
    }

    pub fn len(&self) -> (count: usize)
        ensures
            count == self.images().len(),
    {
        self.images.len()
    }

    pub fn image(&self, index: usize) -> (image: &ChunkImage)
        requires
            index < self.images().len(),
        ensures
            *image == self.images()[index as int],
    {
        &self.images[index]
    }

    /// How many images are of earlier chunks.
    fn place_of(&self, chunk: u64) -> (place: usize)
        requires
            self.wf(),
        ensures
            place <= self.images().len(),
            forall|i: int| 0 <= i < place ==> (#[trigger] self.images()[i]).chunk() < chunk,
            forall|i: int|
                place <= i < self.images().len() ==> chunk <= (#[trigger] self.images()[i]).chunk(),
    {
        let mut place: usize = 0;
        while place < self.images.len()
            invariant
                self.wf(),
                place <= self.images@.len(),
                forall|i: int| 0 <= i < place ==> (#[trigger] self.images()[i]).chunk() < chunk,
            decreases self.images@.len() - place,
        {
            if self.images[place].chunk_index.get() >= chunk {
                assert forall|i: int| place <= i < self.images().len() implies chunk <= (
                #[trigger] self.images()[i]).chunk() by {
                    if i > place {
                        assert(self.images()[place as int].chunk() < self.images()[i].chunk());
                    }
                }
                return place;
            }
            place = place + 1;
        }
        place
    }

    /// The first chunk that a slice touches and that has no image yet.
    pub fn missing_chunk(&self, slice: &OverlayReadSlice) -> (chunk: Option<ChunkIndex>)
        requires
            self.wf(),
            slice_fits(*slice),
        ensures
            match chunk {
                Some(chunk) => {
                    &&& patch_of(*slice).touches(chunk@)
                    &&& !has_image(self.images(), chunk@)
                    &&& forall|earlier: int|
                        patch_of(*slice).touches(earlier) && earlier < chunk@
                            ==> #[trigger] has_image(self.images(), earlier)
                },
                None => forall|touched: int|
                    patch_of(*slice).touches(touched) ==> #[trigger] has_image(
                        self.images(),
                        touched,
                    ),
            },
    {
        if slice.start == slice.end {
            return None;
        }
        let ghost patch = patch_of(*slice);
        let first: u64 = slice.start / 33554432;
        let last: u64 = (slice.end - 1) / 33554432;
        let mut chunk: u64 = first;
        while chunk <= last
            invariant
                self.wf(),
                slice_fits(*slice),
                slice.start < slice.end,
                patch == patch_of(*slice),
                first == slice.start / 33554432,
                last == (slice.end - 1) / 33554432,
                first <= chunk <= last + 1,
                last < u64::MAX,
                forall|earlier: int|
                    first <= earlier < chunk ==> #[trigger] has_image(self.images(), earlier),
            decreases last + 1 - chunk,
        {
            let place: usize = self.place_of(chunk);
            if place >= self.images.len() || self.images[place].chunk_index.get() != chunk {
                proof {
                    if has_image(self.images(), chunk as int) {
                        let i = choose|i: int|
                            0 <= i < self.images().len() && (#[trigger] self.images()[i]).chunk()
                                == chunk;
                        if i > place {
                            assert(self.images()[place as int].chunk() < self.images()[i].chunk());
                        }
                    }
                }
                return Some(ChunkIndex::new(chunk));
            }
            assert(self.images()[place as int].chunk() == chunk);
            chunk = chunk + 1;
        }
        None
    }

    /// Adds the image of a chunk that no patch has touched yet.
    pub fn insert(&mut self, chunk_index: ChunkIndex, committed: Vec<u8>)
        requires
            old(self).wf(),
            !has_image(old(self).images(), chunk_index@),
            chunk_index@ * 33554432 <= u64::MAX,
            committed@.len() == 33554432,
        ensures
            final(self).wf(),
            final(self).patches() == old(self).patches(),
            final(self).images().len() == old(self).images().len() + 1,
            image_added(old(self).images(), final(self).images(), chunk_index@, committed@),
            forall|chunk: int|
                #[trigger] has_image(final(self).images(), chunk) <==> chunk == chunk_index@
                    || has_image(old(self).images(), chunk),
    {
        let place: usize = self.place_of(chunk_index.get());
        let ghost base = committed@;
        let image = ChunkImage { chunk_index, data: committed, committed: Ghost(base) };
        let ghost before = self.images@;
        let ghost patches = self.applied@;
        proof {
            chunk_index.same_number(chunk_index);
            assert forall|i: int| 0 <= i < patches.len() implies !(#[trigger] patches[i]).touches(
                chunk_index@,
            ) by {
                assert(patches[i] == self.patches()[i]);
                if patches[i].touches(chunk_index@) {
                    assert(has_image(self.images(), chunk_index@));
                }
            }
            assert forall|offset: int| 0 <= offset < 33554432 implies #[trigger] image.bytes()[offset]
                == patched(patches, image.base(), image.chunk(), offset) by {
                assert forall|i: int| 0 <= i < patches.len() implies 0 <= (
                #[trigger] patches[i]).start by {
                    assert(patches[i] == self.patches()[i]);
                }
                lemma_untouched(patches, chunk_index@, offset);
            }
            assert(holds(image, patches));
        }
        self.images.insert(place, image);
        proof {
            let after = self.images@;
            assert(after == before.insert(place as int, image));
            assert forall|chunk: int| #[trigger] has_image(after, chunk) <==> chunk
                == chunk_index@ || has_image(before, chunk) by {
                if has_image(before, chunk) {
                    let i = choose|i: int|
                        0 <= i < before.len() && (#[trigger] before[i]).chunk() == chunk;
                    let j = if i < place {
                        i
                    } else {
                        i + 1
                    };
                    assert(after[j] == before[i]);
                }
                if chunk == chunk_index@ {
                    assert(after[place as int].chunk() == chunk);
                }
                if has_image(after, chunk) {
                    let j = choose|j: int|
                        0 <= j < after.len() && (#[trigger] after[j]).chunk() == chunk;
                    if j < place {
                        assert(before[j] == after[j]);
                    } else if j > place {
                        assert(before[j - 1] == after[j]);
                    }
                }
            }
            assert forall|i: int| 0 <= i < after.len() implies holds(#[trigger] after[i], patches) by {
                if i < place {
                    assert(after[i] == old(self).images()[i]);
                } else if i > place {
                    assert(after[i] == old(self).images()[i - 1]);
                }
            }
            assert forall|i: int, j: int| 0 <= i < j < after.len() implies (
            #[trigger] after[i]).chunk() < (#[trigger] after[j]).chunk() by {
                let low = if i < place {
                    i
                } else {
                    i - 1
                };
                let high = if j < place {
                    j
                } else {
                    j - 1
                };
                if i != place {
                    assert(after[i] == old(self).images()[low]);
                }
                if j != place {
                    assert(after[j] == old(self).images()[high]);
                }
                if j == place {
                    assert(!(old(self).images()[low].chunk() == chunk_index@));
                }
                if i == place {
                    assert(!(old(self).images()[high].chunk() == chunk_index@));
                }
            }
            assert forall|i: int, chunk: int|
                0 <= i < patches.len() && (#[trigger] patches[i]).touches(chunk) implies #[trigger] has_image(
                after,
                chunk,
            ) by {
                assert(patches[i] == old(self).patches()[i]);
                assert(has_image(old(self).images(), chunk));
            }
            assert forall|i: int| 0 <= i < patches.len() implies 0 <= (#[trigger] patches[i]).start by {
                assert(patches[i] == old(self).patches()[i]);
            }
            assert(self.images() == before.insert(place as int, self.images()[place as int]));
        }
    }

    /// Adds the image of a chunk that no patch has touched yet and that holds nothing but zeros.
    pub fn insert_zeros(&mut self, chunk_index: ChunkIndex)
        requires
            old(self).wf(),
            !has_image(old(self).images(), chunk_index@),
            chunk_index@ * 33554432 <= u64::MAX,
        ensures
            final(self).wf(),
            final(self).patches() == old(self).patches(),
            final(self).images().len() == old(self).images().len() + 1,
            image_added(
                old(self).images(),
                final(self).images(),
                chunk_index@,
                zero_bytes(33554432),
            ),
            forall|chunk: int|
                #[trigger] has_image(final(self).images(), chunk) <==> chunk == chunk_index@
                    || has_image(old(self).images(), chunk),
    {
        self.insert(chunk_index, zeros(33554432));
    }

    /// Puts a slice into the images.
    pub fn apply(&mut self, slice: &OverlayReadSlice)
        requires
            old(self).wf(),
            slice_fits(*slice),
            forall|touched: int|
                patch_of(*slice).touches(touched) ==> #[trigger] has_image(
                    old(self).images(),
                    touched,
                ),
        ensures
            final(self).wf(),
            final(self).patches() == old(self).patches().push(patch_of(*slice)),
            same_chunks(old(self).images(), final(self).images()),
    {
        let ghost before = self.images@;
        let ghost patches = self.applied@;
        let ghost patch = patch_of(*slice);
        let ghost after = patches.push(patch);
        let available: usize = slice.record.data().len();
        let count: usize = self.images.len();
        let mut index: usize = 0;
        proof {
            assert(after.drop_last() =~= patches);
            assert(after.last() == patch);
            assert forall|i: int| 0 <= i < before.len() implies holds(#[trigger] before[i], patches) by {
                assert(before[i] == self.images()[i]);
            }
        }
        while index < count
            invariant
                slice_fits(*slice),
                patch == patch_of(*slice),
                after == patches.push(patch),
                after.drop_last() == patches,
                after.last() == patch,
                count == before.len(),
                available == slice.record.payload().len(),
                self.applied@ == patches,
                index <= count,
                same_chunks(before, self.images@),
                forall|i: int| 0 <= i < count ==> holds(#[trigger] before[i], patches),
                forall|i: int| 0 <= i < index ==> holds(#[trigger] self.images@[i], after),
                forall|i: int| index <= i < count ==> #[trigger] self.images@[i] == before[i],
            decreases count - index,
        {
            let ghost image = self.images@[index as int];
            proof {
                assert(image == before[index as int]);
                assert(holds(before[index as int], patches));
            }
            let start: u64 = self.images[index].chunk_index.get() * 33554432;
            let low: u64 = if slice.start < start {
                start
            } else {
                slice.start
            };
            let high: u64 = if slice.end <= start {
                start
            } else if slice.end - start > 33554432 {
                start + 33554432
            } else {
                slice.end
            };
            if low < high {
                let at: usize = (low - start) as usize;
                let length: usize = (high - low) as usize;
                let from: usize = (slice.record_offset + (low - slice.start)) as usize;
                copy_into(&mut self.images[index].data, at, slice.record.data(), from, length);
            }
            proof {
                let changed = self.images@[index as int];
                assert forall|offset: int| 0 <= offset < 33554432 implies #[trigger] changed.bytes()[offset]
                    == patched(after, changed.base(), changed.chunk(), offset) by {
                    let position = start + offset;
                    assert(image.bytes()[offset] == patched(
                        patches,
                        image.base(),
                        image.chunk(),
                        offset,
                    ));
                    assert(patch.covers(position) <==> low <= position < high);
                }
                assert(holds(changed, after));
            }
            index = index + 1;
        }
        proof {
            self.applied@ = after;
            assert forall|chunk: int| has_image(before, chunk) implies #[trigger] has_image(
                self.images@,
                chunk,
            ) by {
                let i = choose|i: int|
                    0 <= i < before.len() && (#[trigger] before[i]).chunk() == chunk;
                assert(self.images@[i].chunk() == chunk);
            }
            assert forall|i: int, chunk: int|
                0 <= i < after.len() && (#[trigger] after[i]).touches(chunk) implies #[trigger] has_image(
                self.images@,
                chunk,
            ) by {
                if i < patches.len() {
                    assert(after[i] == old(self).patches()[i]);
                    assert(has_image(old(self).images(), chunk));
                } else {
                    assert(has_image(old(self).images(), chunk));
                }
            }
            assert forall|i: int, j: int| 0 <= i < j < self.images@.len() implies (
            #[trigger] self.images@[i]).chunk() < (#[trigger] self.images@[j]).chunk() by {
                assert(old(self).images()[i].chunk() < old(self).images()[j].chunk());
            }
            assert forall|i: int| 0 <= i < after.len() implies 0 <= (#[trigger] after[i]).start by {
                if i < patches.len() {
                    assert(after[i] == old(self).patches()[i]);
                }
            }
        }
    }
}

/// One image was added, at its place: that of a chunk with the bytes before any patch.
pub open spec fn image_added(
    before: Seq<ChunkImage>,
    after: Seq<ChunkImage>,
    chunk: int,
    base: Seq<u8>,
) -> bool {
    exists|place: int|
        0 <= place <= before.len() && after == before.insert(place, #[trigger] after[place])
            && after[place].chunk() == chunk && after[place].base() == base
}

/// A byte comes from one of the patches.
proof fn lemma_latest_source(patches: Seq<Patch>, position: int) -> (index: int)
    requires
        latest(patches, position) is Some,
    ensures
        0 <= index < patches.len(),
        patches[index].covers(position),
    decreases patches.len(),
{
    let last = patches.len() - 1;
    if patches.last().covers(position) {
        last
    } else {
        let index = lemma_latest_source(patches.drop_last(), position);
        assert(patches.drop_last()[index] == patches[index]);
        index
    }
}

/// At each position, the images hold the byte of the last patch there, and the byte from before
/// where there is none. Where no image is, no patch puts a byte.
pub proof fn lemma_images_hold(images: ChunkImages, position: int)
    requires
        images.wf(),
        0 <= position,
    ensures
        forall|i: int|
            0 <= i < images.images().len() && (#[trigger] images.images()[i]).chunk() == position
                / 33554432 ==> images.images()[i].bytes()[position % 33554432] == match latest(
                images.patches(),
                position,
            ) {
                Some(byte) => byte,
                None => images.images()[i].base()[position % 33554432],
            },
        !has_image(images.images(), position / 33554432) ==> latest(images.patches(), position)
            is None,
{
    let all = images.images();
    let patches = images.patches();
    assert forall|i: int|
        0 <= i < all.len() && (#[trigger] all[i]).chunk() == position
            / 33554432 implies all[i].bytes()[position % 33554432] == match latest(
        patches,
        position,
    ) {
        Some(byte) => byte,
        None => all[i].base()[position % 33554432],
    } by {
        assert(holds(all[i], patches));
        assert(all[i].bytes()[position % 33554432] == patched(
            patches,
            all[i].base(),
            all[i].chunk(),
            position % 33554432,
        ));
    }
    if !has_image(all, position / 33554432) && latest(patches, position) is Some {
        let i = lemma_latest_source(patches, position);
        assert(patches[i].touches(position / 33554432));
    }
}

/// The images are of the same chunks, with the same bytes before any patch.
pub open spec fn same_chunks(before: Seq<ChunkImage>, after: Seq<ChunkImage>) -> bool {
    &&& after.len() == before.len()
    &&& forall|i: int|
        0 <= i < after.len() ==> (#[trigger] after[i]).chunk() == before[i].chunk()
            && after[i].base() == before[i].base()
}

/// A slice patches the positions of its range, each with the byte that its record has for it.
pub proof fn law_a_slice_patches_its_range(slice: OverlayReadSlice, position: int)
    requires
        slice_fits(slice),
    ensures
        patch_of(slice).covers(position) <==> slice.start <= position < slice.end,
        patch_of(slice).covers(position) ==> patch_of(slice).bytes[position - patch_of(slice).start]
            == slice.record.payload()[slice.record_offset + (position - slice.start)],
{
}

/// A patch touches exactly the chunks in which it covers a position.
pub proof fn law_a_patch_touches_the_chunks_it_covers(patch: Patch, position: int, chunk: int)
    requires
        0 <= patch.start,
    ensures
        patch.covers(position) ==> patch.touches(position / 33554432),
        patch.touches(chunk) ==> exists|covered: int| #[trigger]
            patch.covers(covered) && covered / 33554432 == chunk,
{
    if patch.covers(position) {
        assert(position == (position / 33554432) * 33554432 + position % 33554432);
        lemma_touches(patch, position / 33554432, position % 33554432);
    }
    if patch.touches(chunk) {
        let covered = if patch.start / 33554432 == chunk {
            patch.start
        } else {
            chunk * 33554432
        };
        assert(covered / 33554432 == chunk);
        assert(patch.covers(covered));
    }
}

/// An image holds at each position the byte of the last patch that covers it, and what was
/// committed where none does.
pub proof fn law_an_image_holds_the_last_patch(
    image: ChunkImage,
    patches: Seq<Patch>,
    offset: int,
    index: int,
)
    requires
        holds(image, patches),
        0 <= offset < 33554432,
    ensures
        ({
            let position = image.chunk() * 33554432 + offset;
            &&& 0 <= index < patches.len() && patches[index].covers(position) && (forall|later: int|
                index < later < patches.len() ==> !(#[trigger] patches[later]).covers(position))
                ==> image.bytes()[offset] == patches[index].bytes[position - patches[index].start]
            &&& (forall|any: int|
                0 <= any < patches.len() ==> !(#[trigger] patches[any]).covers(position))
                ==> image.bytes()[offset] == image.base()[offset]
        }),
{
    let position = image.chunk() * 33554432 + offset;
    assert(image.bytes()[offset] == patched(patches, image.base(), image.chunk(), offset));
    if 0 <= index < patches.len() && patches[index].covers(position) && (forall|later: int|
        index < later < patches.len() ==> !(#[trigger] patches[later]).covers(position)) {
        lemma_latest_is(patches, position, index);
    }
    if latest(patches, position) is Some {
        let source = lemma_latest_source(patches, position);
        assert(patches[source].covers(position));
    }
}

proof fn lemma_latest_is(patches: Seq<Patch>, position: int, index: int)
    requires
        0 <= index < patches.len(),
        patches[index].covers(position),
        forall|later: int|
            index < later < patches.len() ==> !(#[trigger] patches[later]).covers(position),
    ensures
        latest(patches, position) == Some(patches[index].bytes[position - patches[index].start]),
    decreases patches.len(),
{
    let last = patches.len() - 1;
    if index < last {
        assert(!patches[last].covers(position));
        assert forall|later: int| index < later < last implies !(
        #[trigger] patches.drop_last()[later]).covers(position) by {
            assert(patches.drop_last()[later] == patches[later]);
        }
        lemma_latest_is(patches.drop_last(), position, index);
    }
}

} // verus!
