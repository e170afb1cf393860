//! Committed bytes of a range, as runs of data and of zeros.

use crate::error::{ErrorView, Result, ServerError};
use crate::range::ByteRange;
use crate::shared_bytes::{bytes_as_slice, bytes_contents};
use crate::splice::{append_from, zero_bytes};
use crate::text::{owned, text_with_two_numbers, with_two_numbers};
use bytes::Bytes;
use vstd::prelude::*;

verus! {

/// A run of committed bytes.
#[derive(Debug)]
pub enum BlockPart {
    Data { range: ByteRange, bytes: Bytes },
    Zero { range: ByteRange },
}

/// The committed bytes of a range.
#[derive(Debug)]
pub struct Block {
    range: ByteRange,
    parts: Vec<BlockPart>,
}

impl BlockPart {
    /// The positions of the run.
    pub open spec fn span(&self) -> ByteRange {
        match self {
            BlockPart::Data { range, .. } => *range,
            BlockPart::Zero { range } => *range,
        }
    }

    /// The bytes of the run.
    pub open spec fn content(&self) -> Seq<u8> {
        match self {
            BlockPart::Data { bytes, .. } => bytes_contents(*bytes),
            BlockPart::Zero { range } => zero_bytes(range.size() as nat),
        }
    }

    pub fn range(&self) -> (range: ByteRange)
        ensures
            range == self.span(),
    {
        match self {
            BlockPart::Data { range, .. } => *range,
            BlockPart::Zero { range } => *range,
        }
    }
}

/// An error of the shape of a block.
pub open spec fn block_failure(message: Seq<char>) -> ErrorView {
    ErrorView::Io { context: "block read"@, message }
}

/// Why a run cannot follow at `expected` in a block that ends at `end`.
pub open spec fn part_error(part: BlockPart, expected: int, end: int) -> Option<ErrorView> {
    if part.span().first() != expected {
        Some(
            block_failure(
                with_two_numbers(
                    "part starts at "@,
                    part.span().first() as nat,
                    ", expected "@,
                    expected as nat,
                    ""@,
                ),
            ),
        )
    } else if part.content().len() != part.span().size() {
        Some(
            block_failure(
                with_two_numbers(
                    "data part has "@,
                    part.content().len(),
                    " bytes for "@,
                    part.span().size() as nat,
                    " byte range"@,
                ),
            ),
        )
    } else if part.span().limit() > u64::MAX {
        Some(block_failure("range end overflowed"@))
    } else if part.span().limit() > end {
        Some(block_failure("parts exceed read range"@))
    } else {
        None
    }
}

/// Where the first `count` runs end.
pub open spec fn parts_end(range: ByteRange, parts: Seq<BlockPart>, count: int) -> int {
    if count <= 0 {
        range.first()
    } else {
        parts[count - 1].span().limit()
    }
}

/// The runs from index `from` on follow each other up to the end of the range, or the first thing
/// that is wrong with them.
pub open spec fn parts_error(range: ByteRange, parts: Seq<BlockPart>, from: int) -> Option<
    ErrorView,
>
    decreases parts.len() - from,
{
    let expected = parts_end(range, parts, from);
    if from >= parts.len() {
        if expected != range.limit() {
            Some(
                block_failure(
                    with_two_numbers(
                        "parts end at "@,
                        expected as nat,
                        ", expected "@,
                        range.limit() as nat,
                        ""@,
                    ),
                ),
            )
        } else {
            None
        }
    } else {
        match part_error(parts[from], expected, range.limit()) {
            Some(error) => Some(error),
            None => parts_error(range, parts, from + 1),
        }
    }
}

/// What is wrong with runs that are to make up a range.
pub open spec fn block_error(range: ByteRange, parts: Seq<BlockPart>) -> Option<ErrorView> {
    if range.limit() > u64::MAX {
        Some(block_failure("range end overflowed"@))
    } else {
        parts_error(range, parts, 0)
    }
}

/// The bytes of runs, one after the other.
pub open spec fn joined_content(parts: Seq<BlockPart>) -> Seq<u8>
    decreases parts.len(),
{
    if parts.len() == 0 {
        Seq::empty()
    } else {
        joined_content(parts.drop_last()) + parts.last().content()
    }
}

/// Runs that make up a range leave no gap: each starts where the ones before it end.
pub proof fn lemma_parts_fill(range: ByteRange, parts: Seq<BlockPart>, from: int)
    requires
        0 <= from <= parts.len(),
        parts_error(range, parts, from) is None,
    ensures
        forall|i: int|
            from <= i < parts.len() ==> (#[trigger] parts[i]).span().first() == parts_end(
                range,
                parts,
                i,
            ) && parts[i].content().len() == parts[i].span().size() && parts[i].span().limit()
                <= range.limit(),
        parts_end(range, parts, parts.len() as int) == range.limit(),
    decreases parts.len() - from,
{
    if from < parts.len() {
        lemma_parts_fill(range, parts, from + 1);
    }
}

/// The first `count` runs hold the bytes up to where they end.
proof fn lemma_joined_length(range: ByteRange, parts: Seq<BlockPart>, count: int)
    requires
        0 <= count <= parts.len(),
        parts_error(range, parts, 0) is None,
    ensures
        joined_content(parts.take(count)).len() == parts_end(range, parts, count) - range.first(),
        parts_end(range, parts, count) <= range.limit(),
    decreases count,
{
    lemma_parts_fill(range, parts, 0);
    if count > 0 {
        lemma_joined_length(range, parts, count - 1);
        assert(parts.take(count).drop_last() =~= parts.take(count - 1));
        assert(parts.take(count).last() == parts[count - 1]);
    }
    range.lemma_bounds(range);
}

/// Each run stands at its place in the whole.
proof fn lemma_joined_part(
    range: ByteRange,
    parts: Seq<BlockPart>,
    count: int,
    index: int,
    position: int,
)
    requires
        0 <= index < count <= parts.len(),
        parts_error(range, parts, 0) is None,
        parts[index].span().first() <= position < parts[index].span().limit(),
    ensures
        0 <= position - range.first() < joined_content(parts.take(count)).len(),
        joined_content(parts.take(count))[position - range.first()]
            == parts[index].content()[position - parts[index].span().first()],
    decreases count,
{
    lemma_parts_fill(range, parts, 0);
    lemma_joined_length(range, parts, count);
    lemma_joined_length(range, parts, count - 1);
    assert(parts.take(count).drop_last() =~= parts.take(count - 1));
    assert(parts.take(count).last() == parts[count - 1]);
    if index < count - 1 {
        lemma_joined_part(range, parts, count - 1, index, position);
    } else {
        assert(parts[index].span().first() == parts_end(range, parts, index));
    }
}

impl Block {
    /// The positions of the block.
    pub closed spec fn span(&self) -> ByteRange {
        self.range
    }

    /// The runs of the block.
    pub closed spec fn runs(&self) -> Seq<BlockPart> {
        self.parts@
    }

    /// The bytes of the block.
    pub open spec fn content(&self) -> Seq<u8> {
        joined_content(self.runs())
    }

    /// The runs make up the range. Every block has this.
    pub open spec fn wf(&self) -> bool {
        block_error(self.span(), self.runs()) is None
    }

    #[verifier::type_invariant]
    spec fn inv(self) -> bool {
        block_error(self.range, self.parts@) is None
    }

    pub fn new(range: ByteRange, parts: Vec<BlockPart>) -> (result: Result<Self>)
        ensures
            match result {
                Ok(block) => {
                    &&& block_error(range, parts@) is None
                    &&& block.span() == range
                    &&& block.runs() == parts@
                },
                Err(error) => block_error(range, parts@) == Some(error@),
            },
    {
        match validate_block_parts(range, &parts) {
            Ok(_) => Ok(Self { range, parts }),
            Err(error) => Err(error),
        }
    }

    pub fn range(&self) -> (range: ByteRange)
        ensures
            range == self.span(),
            self.wf(),
    {
        proof {
            use_type_invariant(self);
        }
        self.range
    }

    pub fn parts(&self) -> (parts: &Vec<BlockPart>)
        ensures
            parts@ == self.runs(),
            self.wf(),
    {
        proof {
            use_type_invariant(self);
        }
        &self.parts
    }

    /// All bytes of the block.
    pub fn materialize(&self) -> (result: Result<Vec<u8>>)
        ensures
            self.wf(),
            result matches Ok(data) && data@ == self.content(),
    {
        proof {
            use_type_invariant(self);
            assert(self.parts@.take(0) =~= Seq::<BlockPart>::empty());
        }
        let mut data: Vec<u8> = Vec::new();
        let mut index: usize = 0;
        while index < self.parts.len()
            invariant
                index <= self.parts@.len(),
                data@ == joined_content(self.parts@.take(index as int)),
            decreases self.parts@.len() - index,
        {
            proof {
                assert(self.parts@.take(index + 1).drop_last() =~= self.parts@.take(index as int));
                assert(self.parts@.take(index + 1).last() == self.parts@[index as int]);
            }
            match &self.parts[index] {
                BlockPart::Data { bytes, .. } => {
                    let slice = bytes_as_slice(bytes);
                    append_from(&mut data, slice, 0, slice.len());
                    proof {
                        assert(slice@.subrange(0, slice@.len() as int) =~= slice@);
                    }
                },
                BlockPart::Zero { range } => {
                    append_zeros(&mut data, range.len());
                },
            }
            index = index + 1;
        }
        proof {
            assert(self.parts@.take(index as int) =~= self.parts@);
        }
        Ok(data)
    }

    /// The block's bytes fill its range, and each run's bytes stand at the run's positions.
    pub proof fn law_block_is_its_runs(&self, index: int, position: int)
        requires
            self.wf(),
        ensures
            self.content().len() == self.span().size(),
            0 <= index < self.runs().len() && self.runs()[index].span().covers(position) ==> {
                &&& self.span().covers(position)
                &&& self.content()[position - self.span().first()]
                    == self.runs()[index].content()[position - self.runs()[index].span().first()]
            },
    {
        let range = self.span();
        let parts = self.runs();
        lemma_parts_fill(range, parts, 0);
        lemma_joined_length(range, parts, parts.len() as int);
        assert(parts.take(parts.len() as int) =~= parts);
        if 0 <= index < parts.len() && parts[index].span().covers(position) {
            lemma_joined_part(range, parts, parts.len() as int, index, position);
        }
    }
}

/// Appends zero bytes.
fn append_zeros(data: &mut Vec<u8>, length: u64)
    ensures
        final(data)@ == old(data)@ + zero_bytes(length as nat),
{
    let ghost before = data@;
    let mut index: u64 = 0;
    while index < length
        invariant
            index <= length,
            data@ == before + zero_bytes(index as nat),
        decreases length - index,
    {
        data.push(0);
        index = index + 1;
        proof {
            assert(data@ =~= before + zero_bytes(index as nat));
        }
    }
    proof {
        assert(length == 0 ==> data@ =~= before + zero_bytes(length as nat));
    }
}

fn invalid_block(message: String) -> (error: ServerError)
    ensures
        error@ == block_failure(message@),
{
    ServerError::io("block read", message)
}

fn checked_range_end(range: ByteRange) -> (result: Result<u64>)
    ensures
        match result {
            Ok(end) => end == range.limit(),
            Err(error) => range.limit() > u64::MAX && error@ == block_failure(
                "range end overflowed"@,
            ),
        },
{
    match range.checked_end() {
        Some(end) => Ok(end),
        None => Err(invalid_block(owned("range end overflowed"))),
    }
}

fn validate_block_parts(range: ByteRange, parts: &Vec<BlockPart>) -> (result: Result<()>)
    ensures
        match result {
            Ok(_) => block_error(range, parts@) is None,
            Err(error) => block_error(range, parts@) == Some(error@),
        },
{
    let mut expected: u64 = range.start();
    let end: u64 = match checked_range_end(range) {
        Ok(end) => end,
        Err(error) => {
            return Err(error);
        },
    };
    let mut index: usize = 0;
    while index < parts.len()
        invariant
            index <= parts@.len(),
            end == range.limit(),
            expected == parts_end(range, parts@, index as int),
            block_error(range, parts@) == parts_error(range, parts@, index as int),
        decreases parts@.len() - index,
    {
        let part = &parts[index];
        let part_range = part.range();
        if part_range.start() != expected {
            return Err(
                invalid_block(
                    text_with_two_numbers(
                        "part starts at ",
                        part_range.start(),
                        ", expected ",
                        expected,
                        "",
                    ),
                ),
            );
        }
        match part {
            BlockPart::Data { range: data_range, bytes } => {
                let size: usize = bytes_as_slice(bytes).len();
                if size as u64 != data_range.len() {
                    return Err(
                        invalid_block(
                            text_with_two_numbers(
                                "data part has ",
                                size as u64,
                                " bytes for ",
                                data_range.len(),
                                " byte range",
                            ),
                        ),
                    );
                }
            },
            BlockPart::Zero { range: zero_range } => {
                proof {
                    zero_range.lemma_bounds(*zero_range);
                }
            },
        }
        expected = match checked_range_end(part_range) {
            Ok(part_end) => part_end,
            Err(error) => {
                return Err(error);
            },
        };
        if expected > end {
            return Err(invalid_block(owned("parts exceed read range")));
        }
        index = index + 1;
    }
    if expected != end {
        return Err(
            invalid_block(
                text_with_two_numbers("parts end at ", expected, ", expected ", end, ""),
            ),
        );
    }
    Ok(())
}

/// Runs make up a block exactly when they follow each other from its first byte to its end, each
/// with as many bytes as positions.
pub proof fn law_runs_that_fill_a_range_are_a_block(range: ByteRange, parts: Seq<BlockPart>)
    requires
        range.limit() <= u64::MAX,
    ensures
        block_error(range, parts) is None <==> {
            &&& forall|i: int|
                0 <= i < parts.len() ==> (#[trigger] parts[i]).span().first() == (if i == 0 {
                    range.first()
                } else {
                    parts[i - 1].span().limit()
                }) && parts[i].content().len() == parts[i].span().size()
            &&& (if parts.len() == 0 {
                range.first()
            } else {
                parts.last().span().limit()
            }) == range.limit()
        },
{
    lemma_runs_fill(range, parts, 0);
}

proof fn lemma_runs_fill(range: ByteRange, parts: Seq<BlockPart>, from: int)
    requires
        range.limit() <= u64::MAX,
        0 <= from <= parts.len(),
    ensures
        parts_error(range, parts, from) is None <==> {
            &&& forall|i: int|
                from <= i < parts.len() ==> (#[trigger] parts[i]).span().first() == (if i == 0 {
                    range.first()
                } else {
                    parts[i - 1].span().limit()
                }) && parts[i].content().len() == parts[i].span().size()
            &&& parts_end(range, parts, parts.len() as int) == range.limit()
        },
        parts_error(range, parts, from) is None ==> parts_end(range, parts, from) <= range.limit(),
    decreases parts.len() - from,
{
    if from < parts.len() {
        parts[from].span().lemma_bounds(parts[from].span());
        lemma_runs_fill(range, parts, from + 1);
        if forall|i: int|
            from <= i < parts.len() ==> (#[trigger] parts[i]).span().first() == (if i == 0 {
                range.first()
            } else {
                parts[i - 1].span().limit()
            }) && parts[i].content().len() == parts[i].span().size() {
            assert(parts[from].content().len() == parts[from].span().size());
            assert(parts_error(range, parts, from + 1) is None ==> parts[from].span().limit()
                <= range.limit());
        }
        if parts_error(range, parts, from) is None {
            assert(part_error(parts[from], parts_end(range, parts, from), range.limit()) is None);
            assert forall|i: int| from <= i < parts.len() implies (
            #[trigger] parts[i]).span().first() == (if i == 0 {
                range.first()
            } else {
                parts[i - 1].span().limit()
            }) && parts[i].content().len() == parts[i].span().size() by {
                if i == from {
                    assert(parts_end(range, parts, from) == (if from == 0 {
                        range.first()
                    } else {
                        parts[from - 1].span().limit()
                    }));
                }
            }
        }
    }
}

} // verus!
