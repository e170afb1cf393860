//! Shape of a bounded-fanout export tree: levels, node spans and paths to chunks.

use crate::catalog::{ChunkIndex, TreeFormat, TREE_CHUNK_BYTES};
use crate::error::{ErrorView, Result, ServerError};
use crate::range::ByteRange;
use crate::root::out_of_bounds;
use crate::text::{owned, text_with_two_numbers, with_two_numbers};
use vstd::arithmetic::div_mod::{
    lemma_basic_div, lemma_div_denominator, lemma_div_pos_is_pos, lemma_fundamental_div_mod,
    lemma_mod_bound,
};
use vstd::prelude::*;

verus! {

/// Children of an internal node.
pub const TREE_FANOUT: u16 = 32;

/// Bounded tree over an export of a given size.
#[derive(Debug, Clone, Copy, PartialEq, Eq, Structural)]
pub struct TreeGeometry {
    format: TreeFormat,
    fanout: u16,
    chunk_bytes: u64,
    size_bytes: u64,
    root_level: u16,
}

/// The slots on the way from the root to a chunk.
#[derive(Debug, Clone, PartialEq, Eq)]
pub struct TreePath {
    chunk_index: ChunkIndex,
    slots: Vec<u16>,
}

/// The bytes below a node.
#[derive(Debug, Clone, Copy, PartialEq, Eq, Structural)]
pub struct TreeNodeSpan {
    level: u16,
    start_bytes: u64,
    len_bytes: u64,
}

/// The part of a range that lies in one chunk.
#[derive(Debug, Clone, Copy, PartialEq, Eq, Structural)]
pub struct TreeChunkRange {
    chunk_index: ChunkIndex,
    chunk_offset: u64,
    range: ByteRange,
}

/// Chunks below a node of a level.
pub open spec fn capacity(level: nat) -> nat
    decreases level,
{
    if level == 0 {
        1
    } else {
        32 * capacity((level - 1) as nat)
    }
}

/// Bytes below a full node of a level.
pub open spec fn full_span(level: nat) -> nat {
    33554432 * capacity(level)
}

/// Chunks that an export of a size needs.
pub open spec fn chunk_count(size_bytes: int) -> int {
    (size_bytes + 33554431) / 33554432
}

/// The level of the root: the lowest one above the leaves whose node holds every chunk.
pub open spec fn is_root_level(level: int, size_bytes: int) -> bool {
    &&& 1 <= level
    &&& capacity(level as nat) >= chunk_count(size_bytes)
    &&& level > 1 ==> capacity((level - 1) as nat) < chunk_count(size_bytes)
}

/// An error of the tree's shape.
pub open spec fn tree_failure(message: Seq<char>) -> ErrorView {
    ErrorView::Catalog { message }
}

pub(crate) fn invalid_tree(message: String) -> (error: ServerError)
    ensures
        error@ == tree_failure(message@),
{
    ServerError::catalog(message)
}

pub proof fn lemma_capacity(level: nat)
    ensures
        capacity(level) >= 1,
        level >= 1 ==> capacity(level) == 32 * capacity((level - 1) as nat),
    decreases level,
{
    if level > 0 {
        lemma_capacity((level - 1) as nat);
    }
}

/// A node above another one holds at least as many chunks.
pub proof fn lemma_capacity_grows(low: nat, high: nat)
    requires
        low <= high,
    ensures
        capacity(low) <= capacity(high),
    decreases high,
{
    lemma_capacity(high);
    if low < high {
        lemma_capacity_grows(low, (high - 1) as nat);
        lemma_capacity((high - 1) as nat);
    }
}

proof fn lemma_capacity_values()
    ensures
        capacity(0) == 1,
        capacity(1) == 32,
        capacity(2) == 1024,
        capacity(3) == 32768,
        capacity(7) == 34359738368,
        capacity(8) == 1099511627776,
        capacity(12) == 1152921504606846976,
        capacity(13) == 36893488147419103232,
{
    assert(capacity(0) == 1);
    assert(capacity(1) == 32 * capacity(0));
    assert(capacity(2) == 32 * capacity(1));
    assert(capacity(3) == 32 * capacity(2));
    assert(capacity(4) == 32 * capacity(3));
    assert(capacity(5) == 32 * capacity(4));
    assert(capacity(6) == 32 * capacity(5));
    assert(capacity(7) == 32 * capacity(6));
    assert(capacity(8) == 32 * capacity(7));
    assert(capacity(9) == 32 * capacity(8));
    assert(capacity(10) == 32 * capacity(9));
    assert(capacity(11) == 32 * capacity(10));
    assert(capacity(12) == 32 * capacity(11));
    assert(capacity(13) == 32 * capacity(12));
}

/// Only one level is the root's.
pub proof fn law_root_level_is_unique(first: int, second: int, size_bytes: int)
    requires
        is_root_level(first, size_bytes),
        is_root_level(second, size_bytes),
    ensures
        first == second,
{
    if first < second {
        lemma_capacity_grows(first as nat, (second - 1) as nat);
    }
    if second < first {
        lemma_capacity_grows(second as nat, (first - 1) as nat);
    }
}

/// Why a size has no tree.
pub open spec fn geometry_error(size_bytes: int) -> Option<ErrorView> {
    if size_bytes == 0 {
        Some(tree_failure("tree size must be non-zero"@))
    } else if size_bytes + 33554431 > u64::MAX {
        Some(tree_failure("tree size overflows chunk count"@))
    } else {
        None
    }
}

/// Why there is no node at a level and position.
pub open spec fn node_error(
    root_level: int,
    size_bytes: int,
    level: int,
    start_bytes: int,
) -> Option<ErrorView> {
    if level > root_level {
        Some(
            tree_failure(
                with_two_numbers(
                    "node level "@,
                    level as nat,
                    " exceeds root level "@,
                    root_level as nat,
                    ""@,
                ),
            ),
        )
    } else if start_bytes >= size_bytes {
        Some(
            tree_failure(
                with_two_numbers(
                    "node starts at "@,
                    start_bytes as nat,
                    ", beyond tree size "@,
                    size_bytes as nat,
                    ""@,
                ),
            ),
        )
    } else {
        full_span_error(level)
    }
}

/// Why the bytes below a full node of a level cannot be counted.
pub open spec fn full_span_error(level: int) -> Option<ErrorView> {
    if capacity(level as nat) > u64::MAX {
        Some(tree_failure("node chunk capacity overflows"@))
    } else if full_span(level as nat) > u64::MAX {
        Some(tree_failure("node span length overflows"@))
    } else {
        None
    }
}

/// Why a node has no child in a slot.
pub open spec fn child_error(
    root_level: int,
    size_bytes: int,
    level: int,
    start_bytes: int,
    slot: int,
) -> Option<ErrorView> {
    if level == 0 {
        Some(tree_failure("leaf nodes do not have children"@))
    } else if slot >= 32 {
        Some(
            tree_failure(
                with_two_numbers("child slot "@, slot as nat, " exceeds fanout "@, 32, ""@),
            ),
        )
    } else {
        match full_span_error(level - 1) {
            Some(error) => Some(error),
            None => if slot * full_span((level - 1) as nat) > u64::MAX {
                Some(tree_failure("child span offset overflows"@))
            } else if start_bytes + slot * full_span((level - 1) as nat) > u64::MAX {
                Some(tree_failure("child span start overflows"@))
            } else {
                node_error(
                    root_level,
                    size_bytes,
                    level - 1,
                    start_bytes + slot * full_span((level - 1) as nat),
                )
            },
        }
    }
}

/// Why a chunk is not in a tree.
pub open spec fn chunk_error(size_bytes: int, chunk: int) -> Option<ErrorView> {
    if chunk * 33554432 > u64::MAX {
        Some(tree_failure("chunk byte offset overflows"@))
    } else if chunk * 33554432 >= size_bytes {
        Some(
            tree_failure(
                with_two_numbers(
                    "chunk "@,
                    chunk as nat,
                    " starts beyond tree size "@,
                    size_bytes as nat,
                    ""@,
                ),
            ),
        )
    } else {
        None
    }
}

/// The slot of a chunk's path below a node whose children have level `child_level`.
pub open spec fn path_slot(chunk: int, child_level: nat) -> int {
    (chunk / (capacity(child_level) as int)) % 32
}

impl TreeNodeSpan {
    pub closed spec fn depth(self) -> int {
        self.level as int
    }

    pub closed spec fn first(self) -> int {
        self.start_bytes as int
    }

    pub closed spec fn size(self) -> int {
        self.len_bytes as int
    }

    /// The numbers of every span fit their types, and they determine it.
    pub proof fn lemma_bounds(self, other: Self)
        ensures
            0 <= self.depth() <= u16::MAX,
            0 <= self.first() <= u64::MAX,
            0 <= self.size() <= u64::MAX,
            self.depth() == other.depth() && self.first() == other.first() && self.size()
                == other.size() ==> self == other,
    {
    }

    pub fn level(self) -> (level: u16)
        ensures
            level == self.depth(),
    {
        self.level
    }

    pub fn start_bytes(self) -> (start_bytes: u64)
        ensures
            start_bytes == self.first(),
    {
        self.start_bytes
    }

    pub fn len_bytes(self) -> (len_bytes: u64)
        ensures
            len_bytes == self.size(),
    {
        self.len_bytes
    }
}

impl TreePath {
    pub closed spec fn chunk(&self) -> int {
        self.chunk_index@
    }

    pub closed spec fn steps(&self) -> Seq<u16> {
        self.slots@
    }

    pub fn chunk_index(&self) -> (index: ChunkIndex)
        ensures
            index@ == self.chunk(),
    {
        self.chunk_index
    }

    pub fn slots(&self) -> (slots: &Vec<u16>)
        ensures
            slots@ == self.steps(),
    {
        &self.slots
    }
}

impl TreeChunkRange {
    pub closed spec fn chunk(self) -> int {
        self.chunk_index@
    }

    pub closed spec fn offset(self) -> int {
        self.chunk_offset as int
    }

    pub closed spec fn span(self) -> ByteRange {
        self.range
    }

    pub fn chunk_index(self) -> (index: ChunkIndex)
        ensures
            index@ == self.chunk(),
    {
        self.chunk_index
    }

    pub fn chunk_offset(self) -> (offset: u64)
        ensures
            offset == self.offset(),
    {
        self.chunk_offset
    }

    pub fn range(self) -> (range: ByteRange)
        ensures
            range == self.span(),
    {
        self.range
    }
}

/// The pieces of `[from, end)` cut at chunk boundaries: chunk, offset in the chunk, start and end.
pub open spec fn chunk_pieces(from: int, end: int) -> Seq<(int, int, int, int)>
    decreases end - from,
{
    if from < 0 || from >= end {
        Seq::empty()
    } else {
        let chunk = from / 33554432;
        let boundary = (chunk + 1) * 33554432;
        let to = if end < boundary {
            end
        } else {
            boundary
        };
        seq![(chunk, from % 33554432, from, to)] + chunk_pieces(to, end)
    }
}

/// The pieces as they are listed.
pub open spec fn pieces_of(chunks: Seq<TreeChunkRange>) -> Seq<(int, int, int, int)> {
    chunks.map_values(
        |piece: TreeChunkRange|
            (piece.chunk(), piece.offset(), piece.span().first(), piece.span().limit()),
    )
}

impl TreeGeometry {
    pub closed spec fn total(self) -> int {
        self.size_bytes as int
    }

    pub closed spec fn top(self) -> int {
        self.root_level as int
    }

    /// The size has a tree, and the root is at the lowest level that holds it. Every geometry has
    /// this.
    pub open spec fn wf(self) -> bool {
        &&& geometry_error(self.total()) is None
        &&& 0 < self.total() <= u64::MAX
        &&& is_root_level(self.top(), self.total())
        &&& self.top() <= 8
    }

    #[verifier::type_invariant]
    spec fn inv(self) -> bool {
        &&& self.fanout == 32
        &&& self.chunk_bytes == 33554432
        &&& geometry_error(self.size_bytes as int) is None
        &&& is_root_level(self.root_level as int, self.size_bytes as int)
        &&& self.root_level <= 8
    }

    pub fn new(format: TreeFormat, size_bytes: u64) -> (result: Result<Self>)
        ensures
            match result {
                Ok(geometry) => {
                    &&& geometry_error(size_bytes as int) is None
                    &&& geometry.wf()
                    &&& geometry.total() == size_bytes
                },
                Err(error) => geometry_error(size_bytes as int) == Some(error@),
            },
    {
        if size_bytes == 0 {
            return Err(invalid_tree(owned("tree size must be non-zero")));
        }
        let (fanout, chunk_bytes): (u16, u64) = match format {
            TreeFormat::Bounded32V1 => (TREE_FANOUT, TREE_CHUNK_BYTES),
        };
        let chunks: u64 = match size_bytes.checked_add(chunk_bytes - 1) {
            Some(sum) => sum / chunk_bytes,
            None => {
                return Err(invalid_tree(owned("tree size overflows chunk count")));
            },
        };
        let mut root_level: u16 = 1;
        let mut capacity_chunks: u64 = fanout as u64;
        proof {
            lemma_capacity_values();
        }
        while capacity_chunks < chunks
            invariant
                fanout == 32,
                chunks == chunk_count(size_bytes as int),
                chunks <= 549755813888,
                1 <= root_level <= 8,
                capacity_chunks == capacity(root_level as nat),
                root_level > 1 ==> capacity((root_level - 1) as nat) < chunks,
            decreases 8 - root_level,
        {
            proof {
                lemma_capacity_values();
                lemma_capacity((root_level + 1) as nat);
                if root_level == 8 {
                    assert(capacity_chunks == 1099511627776);
                }
            }
            capacity_chunks = capacity_chunks * (fanout as u64);
            root_level = root_level + 1;
        }
        Ok(Self { format, fanout, chunk_bytes, size_bytes, root_level })
    }

    pub fn format(self) -> (format: TreeFormat)
        ensures
            format == TreeFormat::Bounded32V1,
    {
        self.format
    }

    pub fn fanout(self) -> (fanout: u16)
        ensures
            fanout == 32,
    {
        proof {
            use_type_invariant(&self);
        }
        self.fanout
    }

    pub fn chunk_bytes(self) -> (chunk_bytes: u64)
        ensures
            chunk_bytes == 33554432,
    {
        proof {
            use_type_invariant(&self);
        }
        self.chunk_bytes
    }

    pub fn size_bytes(self) -> (size_bytes: u64)
        ensures
            size_bytes == self.total(),
            self.wf(),
    {
        proof {
            use_type_invariant(&self);
        }
        self.size_bytes
    }

    pub fn root_level(self) -> (level: u16)
        ensures
            level == self.top(),
            self.wf(),
    {
        proof {
            use_type_invariant(&self);
        }
        self.root_level
    }

    /// The span of the root: the whole export.
    pub fn root_span(self) -> (span: TreeNodeSpan)
        ensures
            span.depth() == self.top(),
            span.first() == 0,
            span.size() == self.total(),
            self.wf(),
    {
        proof {
            use_type_invariant(&self);
        }
        TreeNodeSpan { level: self.root_level, start_bytes: 0, len_bytes: self.size_bytes }
    }

    /// The span of the node at a level and position: a full node's, cut at the end of the export.
    pub fn node_span(self, level: u16, start_bytes: u64) -> (result: Result<TreeNodeSpan>)
        ensures
            self.wf(),
            match result {
                Ok(span) => {
                    &&& node_error(
                        self.top(),
                        self.total(),
                        level as int,
                        start_bytes as int,
                    ) is None
                    &&& span.depth() == level
                    &&& span.first() == start_bytes
                    &&& span.size() == (if full_span(level as nat) <= self.total() - start_bytes {
                        full_span(level as nat) as int
                    } else {
                        self.total() - start_bytes
                    })
                },
                Err(error) => node_error(
                    self.top(),
                    self.total(),
                    level as int,
                    start_bytes as int,
                ) == Some(error@),
            },
    {
        proof {
            use_type_invariant(&self);
        }
        if level > self.root_level {
            return Err(
                invalid_tree(
                    text_with_two_numbers(
                        "node level ",
                        level as u64,
                        " exceeds root level ",
                        self.root_level as u64,
                        "",
                    ),
                ),
            );
        }
        if start_bytes >= self.size_bytes {
            return Err(
                invalid_tree(
                    text_with_two_numbers(
                        "node starts at ",
                        start_bytes,
                        ", beyond tree size ",
                        self.size_bytes,
                        "",
                    ),
                ),
            );
        }
        let full: u64 = match self.full_span_len(level) {
            Ok(full) => full,
            Err(error) => {
                return Err(error);
            },
        };
        let remaining: u64 = self.size_bytes - start_bytes;
        let len_bytes: u64 = if full <= remaining {
            full
        } else {
            remaining
        };
        Ok(TreeNodeSpan { level, start_bytes, len_bytes })
    }

    /// The span of the child in a slot of a node.
    pub fn child_span(self, parent: TreeNodeSpan, slot: u16) -> (result: Result<TreeNodeSpan>)
        ensures
            self.wf(),
            match result {
                Ok(span) => {
                    let start = parent.first() + slot * full_span((parent.depth() - 1) as nat);
                    &&& child_error(
                        self.top(),
                        self.total(),
                        parent.depth(),
                        parent.first(),
                        slot as int,
                    ) is None
                    &&& span.depth() == parent.depth() - 1
                    &&& span.first() == start
                    &&& span.size() == (if full_span((parent.depth() - 1) as nat) <= self.total()
                        - start {
                        full_span((parent.depth() - 1) as nat) as int
                    } else {
                        self.total() - start
                    })
                },
                Err(error) => child_error(
                    self.top(),
                    self.total(),
                    parent.depth(),
                    parent.first(),
                    slot as int,
                ) == Some(error@),
            },
    {
        proof {
            use_type_invariant(&self);
        }
        if parent.level == 0 {
            return Err(invalid_tree(owned("leaf nodes do not have children")));
        }
        if slot >= self.fanout {
            return Err(
                invalid_tree(
                    text_with_two_numbers(
                        "child slot ",
                        slot as u64,
                        " exceeds fanout ",
                        self.fanout as u64,
                        "",
                    ),
                ),
            );
        }
        let child_level: u16 = parent.level - 1;
        let full: u64 = match self.full_span_len(child_level) {
            Ok(full) => full,
            Err(error) => {
                return Err(error);
            },
        };
        let offset: u64 = match (slot as u64).checked_mul(full) {
            Some(offset) => offset,
            None => {
                return Err(invalid_tree(owned("child span offset overflows")));
            },
        };
        let start: u64 = match parent.start_bytes.checked_add(offset) {
            Some(start) => start,
            None => {
                return Err(invalid_tree(owned("child span start overflows")));
            },
        };
        self.node_span(child_level, start)
    }

    fn full_span_len(self, level: u16) -> (result: Result<u64>)
        ensures
            match result {
                Ok(length) => length == full_span(level as nat) && full_span_error(
                    level as int,
                ) is None,
                Err(error) => full_span_error(level as int) == Some(error@),
            },
    {
        proof {
            use_type_invariant(&self);
        }
        let chunks: u64 = match self.chunks_per_node(level) {
            Ok(chunks) => chunks,
            Err(error) => {
                return Err(error);
            },
        };
        match self.chunk_bytes.checked_mul(chunks) {
            Some(length) => Ok(length),
            None => Err(invalid_tree(owned("node span length overflows"))),
        }
    }

    fn chunks_per_node(self, level: u16) -> (result: Result<u64>)
        ensures
            match result {
                Ok(chunks) => chunks == capacity(level as nat),
                Err(error) => capacity(level as nat) > u64::MAX && error@ == tree_failure(
                    "node chunk capacity overflows"@,
                ),
            },
    {
        proof {
            use_type_invariant(&self);
        }
        let mut chunks: u64 = 1;
        let mut done: u16 = 0;
        while done < level
            invariant
                done <= level,
                self.fanout == 32,
                chunks == capacity(done as nat),
            decreases level - done,
        {
            proof {
                lemma_capacity((done + 1) as nat);
                lemma_capacity_grows((done + 1) as nat, level as nat);
            }
            chunks = match chunks.checked_mul(self.fanout as u64) {
                Some(chunks) => chunks,
                None => {
                    return Err(invalid_tree(owned("node chunk capacity overflows")));
                },
            };
            done = done + 1;
        }
        Ok(chunks)
    }

    fn validate_chunk_index(self, chunk_index: ChunkIndex) -> (result: Result<()>)
        ensures
            self.wf(),
            match result {
                Ok(_) => chunk_error(self.total(), chunk_index@) is None,
                Err(error) => chunk_error(self.total(), chunk_index@) == Some(error@),
            },
    {
        proof {
            use_type_invariant(&self);
        }
        let start: u64 = match chunk_index.get().checked_mul(self.chunk_bytes) {
            Some(start) => start,
            None => {
                return Err(invalid_tree(owned("chunk byte offset overflows")));
            },
        };
        if start >= self.size_bytes {
            return Err(
                invalid_tree(
                    text_with_two_numbers(
                        "chunk ",
                        chunk_index.get(),
                        " starts beyond tree size ",
                        self.size_bytes,
                        "",
                    ),
                ),
            );
        }
        Ok(())
    }

    /// The slots from the root down to a chunk.
    pub fn path_for_chunk(self, chunk_index: ChunkIndex) -> (result: Result<TreePath>)
        ensures
            self.wf(),
            match result {
                Ok(path) => {
                    &&& chunk_error(self.total(), chunk_index@) is None
                    &&& path.chunk() == chunk_index@
                    &&& path.steps().len() == self.top()
                    &&& forall|i: int|
                        0 <= i < self.top() ==> #[trigger] path.steps()[i] == path_slot(
                            chunk_index@,
                            (self.top() - 1 - i) as nat,
                        )
                },
                Err(error) => chunk_error(self.total(), chunk_index@) == Some(error@),
            },
    {
        proof {
            use_type_invariant(&self);
        }
        match self.validate_chunk_index(chunk_index) {
            Ok(_) => {},
            Err(error) => {
                return Err(error);
            },
        }
        let chunk: u64 = chunk_index.get();
        let mut slots: Vec<u16> = Vec::new();
        let mut child_level: u16 = self.root_level;
        while child_level > 0
            invariant
                child_level <= self.root_level <= 8,
                self.fanout == 32,
                chunk == chunk_index@,
                slots@.len() == self.root_level - child_level,
                forall|i: int|
                    0 <= i < slots@.len() ==> #[trigger] slots@[i] == path_slot(
                        chunk as int,
                        (self.root_level - 1 - i) as nat,
                    ),
            decreases child_level,
        {
            child_level = child_level - 1;
            proof {
                lemma_capacity(child_level as nat);
                lemma_capacity_grows(child_level as nat, 8);
                lemma_capacity_values();
            }
            let divisor: u64 = match self.chunks_per_node(child_level) {
                Ok(divisor) => divisor,
                Err(error) => {
                    return Err(error);
                },
            };
            let slot: u64 = (chunk / divisor) % (self.fanout as u64);
            slots.push(slot as u16);
        }
        Ok(TreePath { chunk_index, slots })
    }

    /// The parts of a range by chunk.
    pub fn chunks_for_range(self, range: ByteRange) -> (result: Result<Vec<TreeChunkRange>>)
        ensures
            self.wf(),
            match result {
                Ok(chunks) => range.limit() <= self.total() && pieces_of(chunks@) == chunk_pieces(
                    range.first(),
                    range.limit(),
                ),
                Err(error) => if range.limit() > u64::MAX {
                    error@ == tree_failure("range end overflows"@)
                } else {
                    range.limit() > self.total() && error@ == out_of_bounds(
                        "tree range"@,
                        range.first(),
                        range.size(),
                        self.total(),
                    )
                },
            },
    {
        proof {
            use_type_invariant(&self);
            range.lemma_bounds(range);
        }
        let end: u64 = match range.checked_end() {
            Some(end) => end,
            None => {
                return Err(invalid_tree(owned("range end overflows")));
            },
        };
        if end > self.size_bytes {
            return Err(
                ServerError::OutOfBounds {
                    operation: "tree range",
                    offset: range.start(),
                    length: range.len(),
                    size_bytes: self.size_bytes,
                },
            );
        }
        Ok(split_by_chunk(range))
    }
}

/// The parts of a range by chunk.
pub fn split_by_chunk(range: ByteRange) -> (chunks: Vec<TreeChunkRange>)
    requires
        range.limit() <= u64::MAX,
    ensures
        pieces_of(chunks@) == chunk_pieces(range.first(), range.limit()),
{
    proof {
        range.lemma_bounds(range);
    }
    let end: u64 = range.end();
    let mut chunks: Vec<TreeChunkRange> = Vec::new();
    let mut current: u64 = range.start();
    proof {
        assert(pieces_of(chunks@) =~= Seq::<(int, int, int, int)>::empty());
    }
    while current < end
        invariant
            range.first() <= current <= end,
            end == range.limit(),
            end - current <= u32::MAX,
                        pieces_of(chunks@) + chunk_pieces(current as int, end as int) == chunk_pieces(
                range.first(),
                range.limit(),
            ),
        decreases end - current,
    {
        let chunk_index = ChunkIndex::new(current / TREE_CHUNK_BYTES);
        let chunk_offset: u64 = current % TREE_CHUNK_BYTES;
        let available: u64 = TREE_CHUNK_BYTES - chunk_offset;
        let length: u64 = if available <= end - current {
            available
        } else {
            end - current
        };
        let piece = TreeChunkRange {
            chunk_index,
            chunk_offset,
            range: ByteRange::new(current, length as u32),
        };
        let ghost earlier = chunks@;
        chunks.push(piece);
        proof {
            let listed = (
                current as int / 33554432,
                current as int % 33554432,
                current as int,
                current + length,
            );
            assert(pieces_of(chunks@) =~= pieces_of(earlier).push(listed));
            assert(chunk_pieces(current as int, end as int) =~= seq![listed] + chunk_pieces(
                current + length,
                end as int,
            ));
            assert(pieces_of(chunks@) + chunk_pieces(current + length, end as int)
                =~= pieces_of(earlier) + chunk_pieces(current as int, end as int));
        }
        current = current + length;
    }
    proof {
        assert(pieces_of(chunks@) =~= chunk_pieces(range.first(), range.limit()));
    }
    chunks
}

/// Where the node of a level above a chunk starts.
pub open spec fn ancestor_start(chunk: int, level: nat) -> int {
    (chunk / (capacity(level) as int)) * full_span(level)
}

/// A valid chunk lies below the root.
proof fn lemma_chunk_below_root(geometry: TreeGeometry, chunk: int)
    requires
        geometry.wf(),
        0 <= chunk,
        chunk_error(geometry.total(), chunk) is None,
    ensures
        chunk < capacity(geometry.top() as nat),
{
    assert(chunk < chunk_count(geometry.total()));
}

/// Each step of a chunk's path leads to the node above the chunk on the next level.
proof fn lemma_path_step(chunk: int, level: nat)
    requires
        0 <= chunk,
        level >= 1,
    ensures
        ancestor_start(chunk, (level - 1) as nat) == ancestor_start(chunk, level) + path_slot(
            chunk,
            (level - 1) as nat,
        ) * full_span((level - 1) as nat),
        0 <= path_slot(chunk, (level - 1) as nat) < 32,
{
    let below = capacity((level - 1) as nat) as int;
    let above = capacity(level) as int;
    lemma_capacity((level - 1) as nat);
    lemma_capacity(level);
    let quotient = chunk / below;
    lemma_div_denominator(chunk, below, 32);
    assert(below * 32 == above);
    assert(chunk / above == quotient / 32);
    lemma_fundamental_div_mod(quotient, 32);
    let slot = quotient % 32;
    let unit = full_span((level - 1) as nat) as int;
    assert(full_span(level) == 32 * unit);
    assert(quotient * unit == (quotient / 32) * (32 * unit) + slot * unit) by (nonlinear_arith)
        requires
            quotient == 32 * (quotient / 32) + slot,
    ;
}

/// A node above a chunk starts at or before it.
pub proof fn lemma_ancestor_start(chunk: int, level: nat)
    requires
        0 <= chunk,
    ensures
        0 <= ancestor_start(chunk, level) <= chunk * 33554432,
{
    let size = capacity(level) as int;
    lemma_capacity(level);
    lemma_fundamental_div_mod(chunk, size);
    lemma_mod_bound(chunk, size);
    lemma_div_pos_is_pos(chunk, size);
    let quotient = chunk / size;
    assert(0 <= quotient * (33554432 * size) <= chunk * 33554432) by (nonlinear_arith)
        requires
            chunk == size * quotient + chunk % size,
            0 <= chunk % size,
            0 <= quotient,
            0 < size,
    ;
}

/// The path of a chunk leads to it: from a node above the chunk, the next slot of the path has a
/// child, and the child is the node above the chunk on the next level. The root is above every
/// chunk, and the node above a chunk on the lowest level starts where the chunk starts.
pub proof fn law_path_leads_to_chunk(geometry: TreeGeometry, chunk: int, level: int)
    requires
        geometry.wf(),
        0 <= chunk,
        chunk_error(geometry.total(), chunk) is None,
        1 <= level <= geometry.top(),
    ensures
        ancestor_start(chunk, geometry.top() as nat) == 0,
        ancestor_start(chunk, 0) == chunk * 33554432,
        child_error(
            geometry.top(),
            geometry.total(),
            level,
            ancestor_start(chunk, level as nat),
            path_slot(chunk, (level - 1) as nat),
        ) is None,
        ancestor_start(chunk, level as nat) + path_slot(chunk, (level - 1) as nat) * full_span(
            (level - 1) as nat,
        ) == ancestor_start(chunk, (level - 1) as nat),
{
    lemma_chunk_below_root(geometry, chunk);
    lemma_capacity(geometry.top() as nat);
    assert(chunk / (capacity(geometry.top() as nat) as int) == 0) by {
        lemma_basic_div(chunk, capacity(geometry.top() as nat) as int);
    }
    assert(capacity(0) == 1);
    lemma_path_step(chunk, level as nat);
    lemma_ancestor_start(chunk, level as nat);
    lemma_ancestor_start(chunk, (level - 1) as nat);
    lemma_capacity_values();
    lemma_capacity_grows((level - 1) as nat, 7);
    lemma_capacity((level - 1) as nat);
}

/// The pieces of a range follow each other from its start to its end, each inside one chunk.
pub proof fn law_pieces_make_up_the_range(from: int, end: int, index: int)
    requires
        0 <= from <= end,
        0 <= index < chunk_pieces(from, end).len(),
    ensures
        ({
            let pieces = chunk_pieces(from, end);
            let (chunk, offset, start, limit) = pieces[index];
            &&& start == (if index == 0 {
                from
            } else {
                pieces[index - 1].3
            })
            &&& start < limit <= end
            &&& index == pieces.len() - 1 ==> limit == end
            &&& chunk * 33554432 <= start
            &&& limit <= (chunk + 1) * 33554432
            &&& offset == start - chunk * 33554432
        }),
    decreases end - from,
{
    let pieces = chunk_pieces(from, end);
    if from < end {
        let to = pieces[0].3;
        let rest = chunk_pieces(to, end);
        assert(pieces =~= seq![pieces[0]] + rest);
        if index > 0 {
            law_pieces_make_up_the_range(to, end, index - 1);
            assert(pieces[index] == rest[index - 1]);
            if index > 1 {
                assert(pieces[index - 1] == rest[index - 2]);
            }
        } else {
            if rest.len() == 0 {
                assert(to == end);
            }
        }
    }
}

/// A range that is not empty has a piece.
pub proof fn law_pieces_exist(from: int, end: int)
    requires
        0 <= from < end,
    ensures
        chunk_pieces(from, end).len() > 0,
        chunk_pieces(from, end)[0].2 == from,
        chunk_pieces(from, end).last().3 == end,
{
    let pieces = chunk_pieces(from, end);
    law_pieces_make_up_the_range(from, end, 0);
    law_pieces_make_up_the_range(from, end, pieces.len() - 1);
}

/// A tree has a shape exactly when it has a byte and its size, rounded up to whole chunks, is a
/// number of the type. A chunk is one of a tree exactly when its first byte is.
pub proof fn law_chunks_of_a_tree_are_those_that_begin_in_it(size_bytes: int, chunk: int)
    requires
        0 <= size_bytes <= u64::MAX,
        0 <= chunk,
    ensures
        geometry_error(size_bytes) is None <==> 0 < size_bytes <= u64::MAX - 33554431,
        chunk_error(size_bytes, chunk) is None <==> chunk * 33554432 < size_bytes,
        chunk < chunk_count(size_bytes) <==> chunk * 33554432 < size_bytes,
{
}

/// Each level of a tree has room for as many times more chunks as a node has slots, and a leaf is
/// one chunk.
pub proof fn law_levels_grow_by_the_fanout(level: nat)
    ensures
        capacity(0) == 1,
        capacity(level + 1) == 32 * capacity(level),
        full_span(0) == 33554432,
        full_span(level + 1) == 32 * full_span(level),
{
}

} // verus!
