//! Logical byte ranges.

use vstd::prelude::*;

verus! {

/// Logical byte range used by export admission, engines, WAL, and read views.
#[derive(Debug, Clone, Copy, PartialEq, Eq, Structural)]
pub struct ByteRange {
    start: u64,
    len: u32,
}

impl ByteRange {
    /// The first byte of the range.
    pub closed spec fn first(self) -> int {
        self.start as int
    }

    /// The number of bytes in the range.
    pub closed spec fn size(self) -> int {
        self.len as int
    }

    /// The position after the last byte, over mathematical integers.
    pub open spec fn limit(self) -> int {
        self.first() + self.size()
    }

    /// The position after the last byte, held at the largest offset.
    pub open spec fn saturated_limit(self) -> int {
        if self.limit() <= u64::MAX {
            self.limit()
        } else {
            u64::MAX as int
        }
    }

    /// Whether a position lies in the range.
    pub open spec fn covers(self, position: int) -> bool {
        self.first() <= position < self.limit()
    }

    pub fn new(start: u64, len: u32) -> (range: Self)
        ensures
            range.first() == start,
            range.size() == len,
    {
        Self { start, len }
    }

    pub fn start(self) -> (start: u64)
        ensures
            start == self.first(),
    {
        self.start
    }

    pub fn len(self) -> (len: u64)
        ensures
            len == self.size(),
            len <= u32::MAX,
    {
        self.len as u64
    }

    pub fn is_empty(self) -> (empty: bool)
        ensures
            empty == (self.size() == 0),
    {
        self.len == 0
    }

    /// The position after the last byte, where there is one.
    pub fn checked_end(self) -> (end: Option<u64>)
        ensures
            match end {
                Some(end) => end == self.limit(),
                None => self.limit() > u64::MAX,
            },
    {
        self.start.checked_add(self.len())
    }

    /// The position after the last byte, held at the largest offset.
    pub fn end(self) -> (end: u64)
        ensures
            end == self.saturated_limit(),
    {
        self.start.saturating_add(self.len as u64)
    }

    /// Whether the ranges meet, each taken up to the largest offset.
    pub open spec fn meets(self, other: Self) -> bool {
        self.first() < other.saturated_limit() && other.first() < self.saturated_limit()
    }

    pub fn overlaps(self, other: Self) -> (overlaps: bool)
        ensures
            overlaps == self.meets(other),
    {
        self.start < other.end() && other.start < self.end()
    }

    /// The range of the positions from `start` to before `end`.
    pub closed spec fn between(start: int, end: int) -> Self {
        ByteRange { start: start as u64, len: (end - start) as u32 }
    }

    pub proof fn lemma_between(start: int, end: int)
        requires
            0 <= start <= end <= u64::MAX,
            end - start <= u32::MAX,
        ensures
            Self::between(start, end).first() == start,
            Self::between(start, end).limit() == end,
    {
    }

    /// The bounds of every range, and that the bounds determine it.
    pub proof fn lemma_bounds(self, other: Self)
        ensures
            0 <= self.first() <= u64::MAX,
            0 <= self.size() <= u32::MAX,
            self.first() == other.first() && self.size() == other.size() ==> self == other,
    {
    }

    /// Two ranges that end within the largest offset meet exactly when both are non-empty and
    /// they share a byte.
    pub proof fn law_overlap_is_a_shared_byte(self, other: Self)
        requires
            self.limit() <= u64::MAX,
            other.limit() <= u64::MAX,
            self.size() > 0,
            other.size() > 0,
        ensures
            self.meets(other) == (exists|position: int|
                self.covers(position) && #[trigger] other.covers(position)),
            self.meets(other) == other.meets(self),
    {
        if self.meets(other) {
            let position = if self.first() >= other.first() {
                self.first()
            } else {
                other.first()
            };
            assert(self.covers(position) && other.covers(position));
        }
    }
}

} // verus!
