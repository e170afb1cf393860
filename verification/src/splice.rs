//! Copying of byte runs.

use vstd::prelude::*;

verus! {

/// `base` with the bytes from `at` on replaced by `patch`.
pub open spec fn overwritten(base: Seq<u8>, at: int, patch: Seq<u8>) -> Seq<u8> {
    Seq::new(
        base.len(),
        |i: int|
            if at <= i < at + patch.len() {
                patch[i - at]
            } else {
                base[i]
            },
    )
}

/// `length` zero bytes.
pub open spec fn zero_bytes(length: nat) -> Seq<u8> {
    Seq::new(length, |i: int| 0u8)
}

/// Makes `length` zero bytes.
pub fn zeros(length: usize) -> (data: Vec<u8>)
    ensures
        data@ == zero_bytes(length as nat),
{
    let data: Vec<u8> = vec![0u8; length];
    proof {
        assert(data@ =~= zero_bytes(length as nat));
    }
    data
}

/// Copies `length` bytes of `source` from `from` on over `target` from `at` on.
pub fn copy_into(target: &mut Vec<u8>, at: usize, source: &[u8], from: usize, length: usize)
    requires
        at + length <= old(target)@.len(),
        from + length <= source@.len(),
    ensures
        final(target)@ == overwritten(
            old(target)@,
            at as int,
            source@.subrange(from as int, from + length),
        ),
{
    let ghost before = target@;
    let room: usize = target.len();
    let available: usize = source.len();
    let mut index: usize = 0;
    while index < length
        invariant
            index <= length,
            room == before.len(),
            available == source@.len(),
            at + length <= room,
            from + length <= available,
            target@ == overwritten(
                before,
                at as int,
                source@.subrange(from as int, from + index),
            ),
        decreases length - index,
    {
        target.set(at + index, source[from + index]);
        index = index + 1;
        proof {
            assert(target@ =~= overwritten(
                before,
                at as int,
                source@.subrange(from as int, from + index),
            ));
        }
    }
    proof {
        assert(length == 0 ==> target@ =~= overwritten(
            before,
            at as int,
            source@.subrange(from as int, from + length),
        ));
    }
}

/// Appends `length` bytes of `source` from `from` on.
pub fn append_from(target: &mut Vec<u8>, source: &[u8], from: usize, length: usize)
    requires
        from + length <= source@.len(),
    ensures
        final(target)@ == old(target)@ + source@.subrange(from as int, from + length),
{
    let ghost before = target@;
    let available: usize = source.len();
    let mut index: usize = 0;
    while index < length
        invariant
            index <= length,
            available == source@.len(),
            from + length <= available,
            target@ == before + source@.subrange(from as int, from + index),
        decreases length - index,
    {
        target.push(source[from + index]);
        index = index + 1;
        proof {
            assert(target@ =~= before + source@.subrange(from as int, from + index));
        }
    }
}

/// An overwrite changes the positions under it to its own bytes, and no other; of two, the later one
/// is seen where both reach; and what is there already changes nothing.
pub proof fn law_an_overwrite_changes_what_it_covers(
    base: Seq<u8>,
    at: int,
    patch: Seq<u8>,
    other_at: int,
    other: Seq<u8>,
    index: int,
)
    requires
        0 <= at,
        at + patch.len() <= base.len(),
        0 <= index < base.len(),
    ensures
        overwritten(base, at, patch).len() == base.len(),
        at <= index < at + patch.len() ==> overwritten(overwritten(base, other_at, other), at, patch)[
        index] == patch[index - at],
        !(at <= index < at + patch.len()) ==> overwritten(base, at, patch)[index] == base[index],
        overwritten(base, at, patch).subrange(at, at + patch.len()) == patch,
        overwritten(base, at, base.subrange(at, at + patch.len())) == base,
{
}

/// As many zeros as were asked for, and nothing else.
pub proof fn law_zeros_are_zero(length: nat, index: int)
    requires
        0 <= index < length,
    ensures
        zero_bytes(length).len() == length,
        zero_bytes(length)[index] == 0,
{
}

} // verus!
