//! Little-endian integers in byte sequences.

use vstd::prelude::*;
use vstd::slice::slice_subrange;

verus! {

/// The 32-bit integer whose lowest byte stands at `at`.
pub open spec fn u32_at(s: Seq<u8>, at: int) -> u32 {
    (s[at] + 0x100 * s[at + 1] + 0x1_0000 * s[at + 2] + 0x100_0000 * s[at + 3]) as u32
}

/// The 64-bit integer whose lowest byte stands at `at`.
pub open spec fn u64_at(s: Seq<u8>, at: int) -> u64 {
    (u32_at(s, at) + 0x1_0000_0000 * u32_at(s, at + 4)) as u64
}

/// `count` 32-bit integers that stand one after the other from `at` on.
pub open spec fn u32s_at(s: Seq<u8>, at: int, count: nat) -> Seq<u32> {
    Seq::new(count, |i: int| u32_at(s, at + 4 * i))
}

/// Reads the 32-bit integer at `at`.
pub fn read_u32(bytes: &[u8], at: usize) -> (value: u32)
    requires
        at + 4 <= bytes@.len(),
    ensures
        value == u32_at(bytes@, at as int),
{
    (bytes[at] as u32) + 0x100 * (bytes[at + 1] as u32) + 0x1_0000 * (bytes[at + 2] as u32)
        + 0x100_0000 * (bytes[at + 3] as u32)
}

/// Reads the 64-bit integer at `at`.
pub fn read_u64(bytes: &[u8], at: usize) -> (value: u64)
    requires
        at + 8 <= bytes@.len(),
    ensures
        value == u64_at(bytes@, at as int),
{
    assert(bytes@.len() == bytes.len());
    (read_u32(bytes, at) as u64) + 0x1_0000_0000 * (read_u32(bytes, at + 4) as u64)
}

/// Reads `count` 32-bit integers from `at` on.
pub fn read_u32s(bytes: &[u8], at: usize, count: usize) -> (values: Vec<u32>)
    requires
        at + 4 * count <= bytes@.len(),
    ensures
        values@ == u32s_at(bytes@, at as int, count as nat),
{
    let mut values: Vec<u32> = Vec::new();
    assert(bytes@.len() == bytes.len());
    for i in 0..count
        invariant
            at + 4 * count <= bytes@.len(),
            bytes@.len() <= usize::MAX,
            values@ == u32s_at(bytes@, at as int, i as nat),
    {
        values.push(read_u32(bytes, at + 4 * i));
        assert(values@ =~= u32s_at(bytes@, at as int, (i + 1) as nat));
    }
    values
}

/// Appends the four bytes of a 32-bit integer, lowest first.
pub fn push_u32(out: &mut Vec<u8>, value: u32)
    ensures
        final(out)@ == old(out)@ + u32_bytes(value),
{
    out.push((value % 0x100) as u8);
    out.push((value / 0x100 % 0x100) as u8);
    out.push((value / 0x1_0000 % 0x100) as u8);
    out.push((value / 0x100_0000) as u8);
    assert(out@ =~= old(out)@ + u32_bytes(value));
}

/// The four bytes of a 32-bit integer, lowest first.
pub open spec fn u32_bytes(value: u32) -> Seq<u8> {
    seq![
        (value % 0x100) as u8,
        (value / 0x100 % 0x100) as u8,
        (value / 0x1_0000 % 0x100) as u8,
        (value / 0x100_0000) as u8,
    ]
}

/// Reading gives back the integer that was written.
pub proof fn law_u32_read_back(s: Seq<u8>, at: int, value: u32)
    requires
        0 <= at,
        at + 4 <= s.len(),
        s.subrange(at, at + 4) == u32_bytes(value),
    ensures
        u32_at(s, at) == value,
{
    let t = s.subrange(at, at + 4);
    assert(t[0] == s[at] && t[1] == s[at + 1] && t[2] == s[at + 2] && t[3] == s[at + 3]);
}

/// An integer is read from its own four bytes alone.
pub proof fn lemma_u32_at_subrange(s: Seq<u8>, from: int, to: int, at: int)
    requires
        0 <= from <= to <= s.len(),
        0 <= at,
        from + at + 4 <= to,
    ensures
        u32_at(s.subrange(from, to), at) == u32_at(s, from + at),
{
}

/// A copy of a byte slice.
pub fn copy_range(bytes: &[u8], from: usize, to: usize) -> (copy: Vec<u8>)
    requires
        from <= to <= bytes@.len(),
    ensures
        copy@ == bytes@.subrange(from as int, to as int),
{
    vstd::slice::slice_to_vec(slice_subrange(bytes, from, to))
}

/// Overwrites a buffer with a slice of its length.
pub fn copy_into(buf: &mut Vec<u8>, src: &[u8])
    requires
        old(buf)@.len() == src@.len(),
    ensures
        final(buf)@ == src@,
{
    for i in 0..src.len()
        invariant
            buf@.len() == src@.len(),
            forall|j: int| 0 <= j < i ==> buf@[j] == src@[j],
    {
        buf.set(i, src[i]);
    }
    assert(buf@ =~= src@);
}

/// The bytes of an integer are its digits in base 256, the lowest first.
pub proof fn law_bytes_are_digits(s: Seq<u8>, at: int)
    requires
        0 <= at,
        at + 4 <= s.len(),
    ensures
        u32_at(s, at) as int % 0x100 == s[at],
        u32_at(s, at) as int / 0x100 % 0x100 == s[at + 1],
        u32_at(s, at) as int / 0x1_0000 % 0x100 == s[at + 2],
        u32_at(s, at) as int / 0x100_0000 == s[at + 3],
{
}

/// A 64-bit integer has its low half in front, its high half behind.
pub proof fn law_halves_are_digits(s: Seq<u8>, at: int)
    requires
        0 <= at,
        at + 8 <= s.len(),
    ensures
        u64_at(s, at) as int % 0x1_0000_0000 == u32_at(s, at),
        u64_at(s, at) as int / 0x1_0000_0000 == u32_at(s, at + 4),
{
}

/// Integers that stand in a row stand four bytes apart.
pub proof fn law_integers_stand_in_a_row(s: Seq<u8>, at: int, count: nat, i: int)
    requires
        0 <= i < count,
    ensures
        u32s_at(s, at, count).len() == count,
        u32s_at(s, at, count)[i] == u32_at(s, at + 4 * i),
{
}

/// The bytes written for an integer are four, and are its digits in base 256.
pub proof fn law_written_bytes_are_digits(value: u32)
    ensures
        u32_bytes(value).len() == 4,
        u32_bytes(value)[0] == value % 0x100,
        u32_bytes(value)[0] + 0x100 * u32_bytes(value)[1] + 0x1_0000 * u32_bytes(value)[2]
            + 0x100_0000 * u32_bytes(value)[3] == value,
{
}

} // verus!
