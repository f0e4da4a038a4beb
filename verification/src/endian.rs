//! Big-endian byte encodings of the fixed-width integers that the wire
//! formats use, together with the helpers that append them to a buffer.

use vstd::prelude::*;

verus! {

/// The two big-endian bytes of a `u16`.
pub open spec fn u16_be_bytes(x: u16) -> Seq<u8> {
    seq![((x >> 8) & 0xff) as u8, (x & 0xff) as u8]
}

/// The four big-endian bytes of a `u32`.
pub open spec fn u32_be_bytes(x: u32) -> Seq<u8> {
    seq![
        ((x >> 24) & 0xff) as u8,
        ((x >> 16) & 0xff) as u8,
        ((x >> 8) & 0xff) as u8,
        (x & 0xff) as u8,
    ]
}

/// The eight big-endian bytes of a `u64`.
pub open spec fn u64_be_bytes(x: u64) -> Seq<u8> {
    seq![
        ((x >> 56) & 0xff) as u8,
        ((x >> 48) & 0xff) as u8,
        ((x >> 40) & 0xff) as u8,
        ((x >> 32) & 0xff) as u8,
        ((x >> 24) & 0xff) as u8,
        ((x >> 16) & 0xff) as u8,
        ((x >> 8) & 0xff) as u8,
        (x & 0xff) as u8,
    ]
}

/// The four big-endian bytes of an `i32` (two's complement).
pub open spec fn i32_be_bytes(x: i32) -> Seq<u8> {
    u32_be_bytes(x as u32)
}

/// The `u16` read from two big-endian bytes.
pub open spec fn u16_from_be(s: Seq<u8>) -> u16
    recommends
        s.len() == 2,
{
    ((s[0] as u16) << 8 | (s[1] as u16)) as u16
}

/// The `u32` read from four big-endian bytes.
pub open spec fn u32_from_be(s: Seq<u8>) -> u32
    recommends
        s.len() == 4,
{
    ((s[0] as u32) << 24 | (s[1] as u32) << 16 | (s[2] as u32) << 8 | (s[3] as u32)) as u32
}

/// The `u64` read from eight big-endian bytes.
pub open spec fn u64_from_be(s: Seq<u8>) -> u64
    recommends
        s.len() == 8,
{
    ((s[0] as u64) << 56 | (s[1] as u64) << 48 | (s[2] as u64) << 40 | (s[3] as u64) << 32 | (
    s[4] as u64) << 24 | (s[5] as u64) << 16 | (s[6] as u64) << 8 | (s[7] as u64)) as u64
}

/// The `i32` read from four big-endian bytes (two's complement).
pub open spec fn i32_from_be(s: Seq<u8>) -> i32
    recommends
        s.len() == 4,
{
    u32_from_be(s) as i32
}

/// Reading back the four bytes of a `u32` yields the value again.
pub proof fn lemma_u32_be_round_trip(x: u32)
    ensures
        u32_from_be(u32_be_bytes(x)) == x,
{
    assert((((((x >> 24) & 0xff) as u8) as u32) << 24 | ((((x >> 16) & 0xff) as u8) as u32) << 16
        | ((((x >> 8) & 0xff) as u8) as u32) << 8 | (((x & 0xff) as u8) as u32)) == x)
        by (bit_vector);
}

/// Reading back the four bytes of an `i32` yields the value again.
pub proof fn lemma_i32_be_round_trip(x: i32)
    ensures
        i32_from_be(i32_be_bytes(x)) == x,
{
    lemma_u32_be_round_trip(x as u32);
    assert(((x as u32) as i32) == x) by (bit_vector);
}

/// Appends the two big-endian bytes of a `u16`.
pub fn push_u16_be(v: &mut Vec<u8>, x: u16)
    ensures
        final(v)@ == old(v)@ + u16_be_bytes(x),
{
    v.push(((x >> 8) & 0xff) as u8);
    v.push((x & 0xff) as u8);
    assert(v@ =~= old(v)@ + u16_be_bytes(x));
}

/// Appends the four big-endian bytes of a `u32`.
pub fn push_u32_be(v: &mut Vec<u8>, x: u32)
    ensures
        final(v)@ == old(v)@ + u32_be_bytes(x),
{
    v.push(((x >> 24) & 0xff) as u8);
    v.push(((x >> 16) & 0xff) as u8);
    v.push(((x >> 8) & 0xff) as u8);
    v.push((x & 0xff) as u8);
    assert(v@ =~= old(v)@ + u32_be_bytes(x));
}

/// Appends the eight big-endian bytes of a `u64`.
pub fn push_u64_be(v: &mut Vec<u8>, x: u64)
    ensures
        final(v)@ == old(v)@ + u64_be_bytes(x),
{
    v.push(((x >> 56) & 0xff) as u8);
    v.push(((x >> 48) & 0xff) as u8);
    v.push(((x >> 40) & 0xff) as u8);
    v.push(((x >> 32) & 0xff) as u8);
    v.push(((x >> 24) & 0xff) as u8);
    v.push(((x >> 16) & 0xff) as u8);
    v.push(((x >> 8) & 0xff) as u8);
    v.push((x & 0xff) as u8);
    assert(v@ =~= old(v)@ + u64_be_bytes(x));
}

/// Appends the four big-endian bytes of an `i32`.
pub fn push_i32_be(v: &mut Vec<u8>, x: i32)
    ensures
        final(v)@ == old(v)@ + i32_be_bytes(x),
{
    push_u32_be(v, x as u32);
}

/// Appends a copy of `s`.
pub fn push_slice(v: &mut Vec<u8>, s: &[u8])
    ensures
        final(v)@ == old(v)@ + s@,
{
    let mut i: usize = 0;
    while i < s.len()
        invariant
            i <= s.len(),
            v@ == old(v)@ + s@.subrange(0, i as int),
        decreases s.len() - i,
    {
        v.push(s[i]);
        i = i + 1;
        assert(v@ =~= old(v)@ + s@.subrange(0, i as int));
    }
    assert(v@ =~= old(v)@ + s@);
}

/// Compares two byte strings for equality.
pub fn bytes_eq(a: &[u8], b: &[u8]) -> (r: bool)
    ensures
        r == (a@ == b@),
{
    if a.len() != b.len() {
        return false;
    }
    let mut i: usize = 0;
    while i < a.len()
        invariant
            i <= a@.len(),
            a@.len() == b@.len(),
            forall|j: int| 0 <= j < i ==> a@[j] == b@[j],
        decreases a@.len() - i,
    {
        if a[i] != b[i] {
            return false;
        }
        i = i + 1;
    }
    proof {
        assert(a@ =~= b@);
    }
    true
}

/// Copies a byte string into a fresh vector.
pub fn copy_bytes(s: &[u8]) -> (r: Vec<u8>)
    ensures
        r@ == s@,
{
    let mut v: Vec<u8> = Vec::new();
    push_slice(&mut v, s);
    v
}

/// Reads the `u32` stored big-endian at `offset`.
pub fn read_u32_be(v: &[u8], offset: usize) -> (r: u32)
    requires
        offset + 4 <= v@.len(),
    ensures
        r == u32_from_be(v@.subrange(offset as int, offset + 4)),
{
    let b0 = v[offset];
    let b1 = v[offset + 1];
    let b2 = v[offset + 2];
    let b3 = v[offset + 3];
    let r = (b0 as u32) << 24 | (b1 as u32) << 16 | (b2 as u32) << 8 | (b3 as u32);
    proof {
        let s = v@.subrange(offset as int, offset + 4);
        assert(s[0] == b0 && s[1] == b1 && s[2] == b2 && s[3] == b3);
    }
    r
}

/// Reads the `u16` stored big-endian at `offset`.
pub fn read_u16_be(v: &[u8], offset: usize) -> (r: u16)
    requires
        offset + 2 <= v@.len(),
    ensures
        r == u16_from_be(v@.subrange(offset as int, offset + 2)),
{
    let b0 = v[offset];
    let b1 = v[offset + 1];
    let r = (b0 as u16) << 8 | (b1 as u16);
    proof {
        let s = v@.subrange(offset as int, offset + 2);
        assert(s[0] == b0 && s[1] == b1);
    }
    r
}

/// Reads the `u64` stored big-endian at `offset`.
pub fn read_u64_be(v: &[u8], offset: usize) -> (r: u64)
    requires
        offset + 8 <= v@.len(),
    ensures
        r == u64_from_be(v@.subrange(offset as int, offset + 8)),
{
    let b0 = v[offset];
    let b1 = v[offset + 1];
    let b2 = v[offset + 2];
    let b3 = v[offset + 3];
    let b4 = v[offset + 4];
    let b5 = v[offset + 5];
    let b6 = v[offset + 6];
    let b7 = v[offset + 7];
    let r = (b0 as u64) << 56 | (b1 as u64) << 48 | (b2 as u64) << 40 | (b3 as u64) << 32 | (
    b4 as u64) << 24 | (b5 as u64) << 16 | (b6 as u64) << 8 | (b7 as u64);
    proof {
        let s = v@.subrange(offset as int, offset + 8);
        assert(s[0] == b0 && s[1] == b1 && s[2] == b2 && s[3] == b3 && s[4] == b4 && s[5] == b5
            && s[6] == b6 && s[7] == b7);
    }
    r
}

/// Reads the `i32` stored big-endian at `offset`.
pub fn read_i32_be(v: &[u8], offset: usize) -> (r: i32)
    requires
        offset + 4 <= v@.len(),
    ensures
        r == i32_from_be(v@.subrange(offset as int, offset + 4)),
{
    let x = read_u32_be(v, offset);
    proof {
        assert((x as i32) == u32_from_be(v@.subrange(offset as int, offset + 4)) as i32);
    }
    x as i32
}

} // verus!
