//! Byte-level helpers shared by every frame format: big-endian integers, slicing, joining.

use vstd::prelude::*;

verus! {

/// The eight bytes of `x`, most significant first.
pub open spec fn be_u64(x: u64) -> Seq<u8> {
    seq![
        (x >> 56) as u8,
        (x >> 48) as u8,
        (x >> 40) as u8,
        (x >> 32) as u8,
        (x >> 24) as u8,
        (x >> 16) as u8,
        (x >> 8) as u8,
        x as u8,
    ]
}

/// The number whose big-endian bytes are the first eight bytes of `s`.
pub open spec fn from_be_u64(s: Seq<u8>) -> u64 {
    ((s[0] as u64) << 56) | ((s[1] as u64) << 48) | ((s[2] as u64) << 40) | ((s[3] as u64) << 32)
        | ((s[4] as u64) << 24) | ((s[5] as u64) << 16) | ((s[6] as u64) << 8) | (s[7] as u64)
}

/// The four bytes of `x`, most significant first.
pub open spec fn be_u32(x: u32) -> Seq<u8> {
    seq![(x >> 24) as u8, (x >> 16) as u8, (x >> 8) as u8, x as u8]
}

/// The number whose big-endian bytes are the first four bytes of `s`.
pub open spec fn from_be_u32(s: Seq<u8>) -> u32 {
    ((s[0] as u32) << 24) | ((s[1] as u32) << 16) | ((s[2] as u32) << 8) | (s[3] as u32)
}

/// Reading the big-endian bytes of a 64-bit number gives the number back, whatever follows them.
pub proof fn law_be_u64_round_trip(x: u64, rest: Seq<u8>)
    ensures
        be_u64(x).len() == 8,
        from_be_u64(be_u64(x) + rest) == x,
{
    let s = be_u64(x) + rest;
    assert(s[0] == (x >> 56) as u8 && s[1] == (x >> 48) as u8 && s[2] == (x >> 40) as u8 && s[3]
        == (x >> 32) as u8 && s[4] == (x >> 24) as u8 && s[5] == (x >> 16) as u8 && s[6] == (x
        >> 8) as u8 && s[7] == x as u8);
    assert(((((x >> 56) as u8) as u64) << 56) | ((((x >> 48) as u8) as u64) << 48) | ((((x
        >> 40) as u8) as u64) << 40) | ((((x >> 32) as u8) as u64) << 32) | ((((x
        >> 24) as u8) as u64) << 24) | ((((x >> 16) as u8) as u64) << 16) | ((((x
        >> 8) as u8) as u64) << 8) | ((x as u8) as u64) == x) by (bit_vector);
}

/// Writing out the number read from eight bytes gives those bytes back.
pub proof fn law_be_u64_read_write(s: Seq<u8>)
    requires
        s.len() >= 8,
    ensures
        be_u64(from_be_u64(s)) == s.subrange(0, 8),
{
    let (a, b, c, d) = (s[0], s[1], s[2], s[3]);
    let (e, f, g, h) = (s[4], s[5], s[6], s[7]);
    let x: u64 = from_be_u64(s);
    assert((x >> 56) as u8 == a && (x >> 48) as u8 == b && (x >> 40) as u8 == c && (x
        >> 32) as u8 == d && (x >> 24) as u8 == e && (x >> 16) as u8 == f && (x >> 8) as u8 == g
        && x as u8 == h) by (bit_vector)
        requires
            x == ((a as u64) << 56) | ((b as u64) << 48) | ((c as u64) << 40) | ((d as u64) << 32)
                | ((e as u64) << 24) | ((f as u64) << 16) | ((g as u64) << 8) | (h as u64),
    ;
    assert(be_u64(x) =~= s.subrange(0, 8));
}

/// Reading the big-endian bytes of a 32-bit number gives the number back, whatever follows them.
pub proof fn law_be_u32_round_trip(x: u32, rest: Seq<u8>)
    ensures
        be_u32(x).len() == 4,
        from_be_u32(be_u32(x) + rest) == x,
{
    let s = be_u32(x) + rest;
    assert(s[0] == (x >> 24) as u8 && s[1] == (x >> 16) as u8 && s[2] == (x >> 8) as u8 && s[3]
        == x as u8);
    assert(((((x >> 24) as u8) as u32) << 24) | ((((x >> 16) as u8) as u32) << 16) | ((((x
        >> 8) as u8) as u32) << 8) | ((x as u8) as u32) == x) by (bit_vector);
}

/// The big-endian bytes of `x`.
pub fn u64_to_be(x: u64) -> (out: Vec<u8>)
    ensures
        out@ == be_u64(x),
{
    let mut out: Vec<u8> = Vec::with_capacity(8);
    out.push((x >> 56) as u8);
    out.push((x >> 48) as u8);
    out.push((x >> 40) as u8);
    out.push((x >> 32) as u8);
    out.push((x >> 24) as u8);
    out.push((x >> 16) as u8);
    out.push((x >> 8) as u8);
    out.push(x as u8);
    assert(out@ =~= be_u64(x));
    out
}

/// The number held big-endian in the first eight bytes of `s`.
pub fn u64_from_be(s: &[u8]) -> (x: u64)
    requires
        s@.len() >= 8,
    ensures
        x == from_be_u64(s@),
{
    ((s[0] as u64) << 56) | ((s[1] as u64) << 48) | ((s[2] as u64) << 40) | ((s[3] as u64) << 32)
        | ((s[4] as u64) << 24) | ((s[5] as u64) << 16) | ((s[6] as u64) << 8) | (s[7] as u64)
}

/// The big-endian bytes of `x`.
pub fn u32_to_be(x: u32) -> (out: Vec<u8>)
    ensures
        out@ == be_u32(x),
{
    let mut out: Vec<u8> = Vec::with_capacity(4);
    out.push((x >> 24) as u8);
    out.push((x >> 16) as u8);
    out.push((x >> 8) as u8);
    out.push(x as u8);
    assert(out@ =~= be_u32(x));
    out
}

/// The number held big-endian in the first four bytes of `s`.
pub fn u32_from_be(s: &[u8]) -> (x: u32)
    requires
        s@.len() >= 4,
    ensures
        x == from_be_u32(s@),
{
    ((s[0] as u32) << 24) | ((s[1] as u32) << 16) | ((s[2] as u32) << 8) | (s[3] as u32)
}

/// Appends every byte of `src` to `dst`.
pub fn push_all(dst: &mut Vec<u8>, src: &[u8])
    ensures
        final(dst)@ == old(dst)@ + src@,
{
    let ghost before = dst@;
    dst.extend_from_slice(src);
    assert(dst@ =~= before + src@);
}

/// A copy of the bytes of `s` from `from` up to but not including `to`.
pub fn copy_range(s: &[u8], from: usize, to: usize) -> (out: Vec<u8>)
    requires
        from <= to <= s@.len(),
    ensures
        out@ == s@.subrange(from as int, to as int),
{
    let mut out: Vec<u8> = Vec::with_capacity(to - from);
    let part = vstd::slice::slice_subrange(s, from, to);
    push_all(&mut out, part);
    assert(out@ =~= s@.subrange(from as int, to as int));
    out
}

/// A copy of all the bytes of `s`.
pub fn copy_all(s: &[u8]) -> (out: Vec<u8>)
    ensures
        out@ == s@,
{
    let mut out: Vec<u8> = Vec::with_capacity(s.len());
    push_all(&mut out, s);
    assert(out@ =~= s@);
    out
}

/// The 32 bytes of `s` that start at `from`.
pub fn array32(s: &[u8], from: usize) -> (out: [u8; 32])
    requires
        from + 32 <= s@.len(),
    ensures
        out@ == s@.subrange(from as int, from + 32),
{
    let mut out: [u8; 32] = [0u8;32];
    let mut i: usize = 0;
    while i < 32
        invariant
            i <= 32,
            from + 32 <= s.len(),
            forall|k: int| 0 <= k < i ==> out@[k] == s@[from + k],
        decreases 32 - i,
    {
        out[i] = s[from + i];
        i = i + 1;
    }
    assert(out@ =~= s@.subrange(from as int, from + 32));
    out
}

/// The 8 bytes of `s` that start at `from`.
pub fn array8(s: &[u8], from: usize) -> (out: [u8; 8])
    requires
        from + 8 <= s@.len(),
    ensures
        out@ == s@.subrange(from as int, from + 8),
{
    let mut out: [u8; 8] = [0u8;8];
    let mut i: usize = 0;
    while i < 8
        invariant
            i <= 8,
            from + 8 <= s.len(),
            forall|k: int| 0 <= k < i ==> out@[k] == s@[from + k],
        decreases 8 - i,
    {
        out[i] = s[from + i];
        i = i + 1;
    }
    assert(out@ =~= s@.subrange(from as int, from + 8));
    out
}

/// Whether `a` and `b` hold the same bytes in the same order.
pub fn same_bytes(a: &[u8], b: &[u8]) -> (same: bool)
    ensures
        same == (a@ == b@),
{
    if a.len() != b.len() {
        return false;
    }
    let mut i: usize = 0;
    while i < a.len()
        invariant
            i <= a@.len(),
            a@.len() == b@.len(),
            forall|k: int| 0 <= k < i ==> a@[k] == b@[k],
        decreases a@.len() - i,
    {
        if a[i] != b[i] {
            assert(a@[i as int] != b@[i as int]);
            return false;
        }
        i = i + 1;
    }
    assert(a@ =~= b@);
    true
}

/// The bytes of a 64-bit number are its digits in base 256, the most significant one first.
pub proof fn law_be_u64_digits(x: u64)
    ensures
        be_u64(x).len() == 8,
        be_u64(x)[0] == x / 0x100_0000_0000_0000,
        be_u64(x)[1] == x / 0x1_0000_0000_0000 % 256,
        be_u64(x)[2] == x / 0x100_0000_0000 % 256,
        be_u64(x)[3] == x / 0x1_0000_0000 % 256,
        be_u64(x)[4] == x / 0x100_0000 % 256,
        be_u64(x)[5] == x / 0x1_0000 % 256,
        be_u64(x)[6] == x / 0x100 % 256,
        be_u64(x)[7] == x % 256,
{
    assert((x >> 56) as u8 == x / 0x100_0000_0000_0000u64) by (bit_vector);
    assert((x >> 48) as u8 == (x / 0x1_0000_0000_0000u64) % 256) by (bit_vector);
    assert((x >> 40) as u8 == (x / 0x100_0000_0000u64) % 256) by (bit_vector);
    assert((x >> 32) as u8 == (x / 0x1_0000_0000u64) % 256) by (bit_vector);
    assert((x >> 24) as u8 == (x / 0x100_0000u64) % 256) by (bit_vector);
    assert((x >> 16) as u8 == (x / 0x1_0000u64) % 256) by (bit_vector);
    assert((x >> 8) as u8 == (x / 0x100u64) % 256) by (bit_vector);
    assert(x as u8 == x % 256) by (bit_vector);
}

/// The bytes of a 32-bit number are its digits in base 256, the most significant one first.
pub proof fn law_be_u32_digits(x: u32)
    ensures
        be_u32(x).len() == 4,
        be_u32(x)[0] == x / 0x100_0000,
        be_u32(x)[1] == x / 0x1_0000 % 256,
        be_u32(x)[2] == x / 0x100 % 256,
        be_u32(x)[3] == x % 256,
{
    assert((x >> 24) as u8 == x / 0x100_0000u32) by (bit_vector);
    assert((x >> 16) as u8 == (x / 0x1_0000u32) % 256) by (bit_vector);
    assert((x >> 8) as u8 == (x / 0x100u32) % 256) by (bit_vector);
    assert(x as u8 == x % 256) by (bit_vector);
}

/// Writing out the number read from four bytes gives those bytes back.
pub proof fn law_be_u32_read_write(s: Seq<u8>)
    requires
        s.len() >= 4,
    ensures
        be_u32(from_be_u32(s)) == s.subrange(0, 4),
{
    let (a, b, c, d) = (s[0], s[1], s[2], s[3]);
    let x: u32 = from_be_u32(s);
    assert((x >> 24) as u8 == a && (x >> 16) as u8 == b && (x >> 8) as u8 == c && x as u8 == d)
        by (bit_vector)
        requires
            x == ((a as u32) << 24) | ((b as u32) << 16) | ((c as u32) << 8) | (d as u32),
    ;
    assert(be_u32(x) =~= s.subrange(0, 4));
}

} // verus!
