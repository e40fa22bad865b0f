//! Numbers as bytes, most significant byte first, and streams of such
//! fields.

use vstd::prelude::*;

verus! {

/// The two bytes of `v`, most significant first.
pub open spec fn spec_encode_u16(v: u16) -> Seq<u8> {
    seq![(v / 0x100) as u8, (v % 0x100) as u8]
}

/// The four bytes of `v`, most significant first.
pub open spec fn spec_encode_u32(v: u32) -> Seq<u8> {
    seq![
        (v / 0x100_0000) as u8,
        (v / 0x1_0000 % 0x100) as u8,
        (v / 0x100 % 0x100) as u8,
        (v % 0x100) as u8,
    ]
}

/// The number that the two bytes of `b` from `at` on stand for.
pub open spec fn spec_u16_at(b: Seq<u8>, at: int) -> u16 {
    (b[at] as int * 0x100 + b[at + 1] as int) as u16
}

/// The number that the four bytes of `b` from `at` on stand for.
pub open spec fn spec_u32_at(b: Seq<u8>, at: int) -> u32 {
    (b[at] as int * 0x100_0000 + b[at + 1] as int * 0x1_0000 + b[at + 2] as int * 0x100 + b[at
        + 3] as int) as u32
}

/// Appends the two bytes of `v` to `out`, most significant first.
pub fn write_u16(out: &mut Vec<u8>, v: u16)
    ensures
        final(out)@ == old(out)@ + spec_encode_u16(v),
{
    out.push((v / 0x100) as u8);
    out.push((v % 0x100) as u8);
    assert(out@ =~= old(out)@ + spec_encode_u16(v));
}

/// Appends the four bytes of `v` to `out`, most significant first.
pub fn write_u32(out: &mut Vec<u8>, v: u32)
    ensures
        final(out)@ == old(out)@ + spec_encode_u32(v),
{
    out.push((v / 0x100_0000) as u8);
    out.push((v / 0x1_0000 % 0x100) as u8);
    out.push((v / 0x100 % 0x100) as u8);
    out.push((v % 0x100) as u8);
    assert(out@ =~= old(out)@ + spec_encode_u32(v));
}

/// Reads the big-endian `u16` that starts at `at`.
pub fn read_u16(buf: &[u8], at: usize) -> (v: u16)
    requires
        at + 2 <= buf@.len(),
    ensures
        v == spec_u16_at(buf@, at as int),
{
    (buf[at] as u16) * 0x100 + (buf[at + 1] as u16)
}

/// Reads the big-endian `u32` that starts at `at`.
pub fn read_u32(buf: &[u8], at: usize) -> (v: u32)
    requires
        at + 4 <= buf@.len(),
    ensures
        v == spec_u32_at(buf@, at as int),
{
    (buf[at] as u32) * 0x100_0000 + (buf[at + 1] as u32) * 0x1_0000 + (buf[at + 2] as u32) * 0x100
        + (buf[at + 3] as u32)
}

/// The two bytes of a `u16`, wherever they stand, are read back as it.
pub proof fn lemma_u16_round_trip(b: Seq<u8>, at: int, v: u16)
    requires
        0 <= at,
        at + 2 <= b.len(),
        b.subrange(at, at + 2) == spec_encode_u16(v),
    ensures
        spec_u16_at(b, at) == v,
{
    let e = spec_encode_u16(v);
    assert(b[at] == b.subrange(at, at + 2)[0]);
    assert(b[at + 1] == b.subrange(at, at + 2)[1]);
    assert(e[0] == (v / 0x100) as u8 && e[1] == (v % 0x100) as u8);
}

/// The four bytes of a `u32`, wherever they stand, are read back as it.
pub proof fn lemma_u32_round_trip(b: Seq<u8>, at: int, v: u32)
    requires
        0 <= at,
        at + 4 <= b.len(),
        b.subrange(at, at + 4) == spec_encode_u32(v),
    ensures
        spec_u32_at(b, at) == v,
{
    let e = spec_encode_u32(v);
    let x = v as int;
    assert(x == (x / 0x100_0000) * 0x100_0000 + (x / 0x1_0000 % 0x100) * 0x1_0000 + (x / 0x100
        % 0x100) * 0x100 + x % 0x100);
    assert(b[at] == b.subrange(at, at + 4)[0]);
    assert(b[at + 1] == b.subrange(at, at + 4)[1]);
    assert(b[at + 2] == b.subrange(at, at + 4)[2]);
    assert(b[at + 3] == b.subrange(at, at + 4)[3]);
    assert(e[0] == (v / 0x100_0000) as u8 && e[1] == (v / 0x1_0000 % 0x100) as u8 && e[2] == (v
        / 0x100 % 0x100) as u8 && e[3] == (v % 0x100) as u8);
}

/// The bytes from which a `u16` is read are the bytes of that number.
pub proof fn lemma_u16_bytes(b: Seq<u8>, at: int)
    requires
        0 <= at,
        at + 2 <= b.len(),
    ensures
        spec_encode_u16(spec_u16_at(b, at)) == b.subrange(at, at + 2),
{
    assert(spec_encode_u16(spec_u16_at(b, at)) =~= b.subrange(at, at + 2));
}

/// The bytes from which a `u32` is read are the bytes of that number.
pub proof fn lemma_u32_bytes(b: Seq<u8>, at: int)
    requires
        0 <= at,
        at + 4 <= b.len(),
    ensures
        spec_encode_u32(spec_u32_at(b, at)) == b.subrange(at, at + 4),
{
    let b0 = b[at] as int;
    let b1 = b[at + 1] as int;
    let b2 = b[at + 2] as int;
    let b3 = b[at + 3] as int;
    let x = b0 * 0x100_0000 + b1 * 0x1_0000 + b2 * 0x100 + b3;
    assert(spec_u32_at(b, at) == x);
    assert(x / 0x100_0000 == b0);
    assert(x / 0x1_0000 == b0 * 0x100 + b1);
    assert(x / 0x100 == b0 * 0x1_0000 + b1 * 0x100 + b2);
    let e = spec_encode_u32(spec_u32_at(b, at));
    assert(e[0] == b[at] && e[1] == b[at + 1] && e[2] == b[at + 2] && e[3] == b[at + 3]);
    assert(e =~= b.subrange(at, at + 4));
}

/// `b` begins with the bytes `p`.
pub open spec fn starts_with(b: Seq<u8>, p: Seq<u8>) -> bool {
    p.len() <= b.len() && b.subrange(0, p.len() as int) == p
}

/// In a stream that begins with `p` and then `x`, `x` stands right behind
/// `p`.
pub proof fn lemma_field(b: Seq<u8>, p: Seq<u8>, x: Seq<u8>)
    requires
        starts_with(b, p + x),
    ensures
        starts_with(b, p),
        b.subrange(p.len() as int, (p.len() + x.len()) as int) == x,
{
    let whole = b.subrange(0, (p + x).len() as int);
    assert forall|i: int| 0 <= i < p.len() implies b[i] == p[i] by {
        assert(whole[i] == (p + x)[i]);
    }
    assert forall|i: int| 0 <= i < x.len() implies b[p.len() + i] == x[i] by {
        assert(whole[p.len() + i] == (p + x)[p.len() + i]);
    }
    assert(b.subrange(0, p.len() as int) =~= p);
    assert(b.subrange(p.len() as int, (p.len() + x.len()) as int) =~= x);
}

/// A stream begins with whatever it was put together from first.
pub proof fn lemma_starts_with_front(p: Seq<u8>, rest: Seq<u8>)
    ensures
        starts_with(p + rest, p),
{
    assert((p + rest).subrange(0, p.len() as int) =~= p);
}

/// The first `at` bytes of `b`, and then the bytes that follow them, are
/// the first bytes of `b`.
pub proof fn lemma_grow(b: Seq<u8>, p: Seq<u8>, at: int, x: Seq<u8>)
    requires
        0 <= at,
        at + x.len() <= b.len(),
        p == b.subrange(0, at),
        x == b.subrange(at, at + x.len()),
    ensures
        p + x == b.subrange(0, at + x.len()),
{
    assert(p + x =~= b.subrange(0, at + x.len()));
}

} // verus!
