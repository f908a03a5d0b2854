//! The fixed-width binary record layout: one event is exactly 8 bytes,
//! a big-endian 32-bit signed UTC epoch-second timestamp followed by the
//! four octets of an IPv4 address in network order. Record boundaries are
//! purely positional: record `n` occupies bytes `[8n, 8n+8)`.

use vstd::prelude::*;

verus! {

/// One decoded event: `t` is the timestamp (seconds since the UTC epoch,
/// 32-bit signed), `a` is the IPv4 address as a big-endian 32-bit value
/// (so the address `213.180.203.32` is `0xd5b4cb20`).
#[derive(Clone, Copy, PartialEq, Eq, Structural, Debug)]
pub struct Record {
    pub t: i32,
    pub a: u32,
}

/// The big-endian bytes of a 32-bit value `v` (given as a mathematical
/// integer in `[0, 2^32)`).
pub open spec fn be_bytes32(v: int) -> Seq<u8> {
    seq![
        (v / 0x1000000 % 0x100) as u8,
        (v / 0x10000 % 0x100) as u8,
        (v / 0x100 % 0x100) as u8,
        (v % 0x100) as u8,
    ]
}

/// The value of four big-endian bytes starting at offset `i`, as an
/// unsigned mathematical integer in `[0, 2^32)`.
pub open spec fn be32_at(b: Seq<u8>, i: int) -> int {
    b[i] * 0x1000000 + b[i + 1] * 0x10000 + b[i + 2] * 0x100 + b[i + 3]
}

/// Reinterpret an unsigned 32-bit value as a signed one (two's complement).
pub open spec fn signed32(v: int) -> int {
    if v >= 0x80000000 {
        v - 0x100000000
    } else {
        v
    }
}

/// The two's-complement 32-bit pattern of a signed value.
pub open spec fn bits32(t: int) -> int {
    if t < 0 {
        t + 0x100000000
    } else {
        t
    }
}

/// What `encode` produces: the timestamp's big-endian bytes, then the
/// address's.
pub open spec fn spec_encode(r: Record) -> Seq<u8> {
    be_bytes32(bits32(r.t as int)) + be_bytes32(r.a as int)
}

/// What `decode` recovers from 8 bytes. Total: every bit pattern is a
/// valid record.
pub open spec fn spec_decode(b: Seq<u8>) -> Record {
    Record { t: signed32(be32_at(b, 0)) as i32, a: be32_at(b, 4) as u32 }
}

/// The record sequence held by an arbitrary byte string: one record per
/// full 8-byte chunk; a truncated trailing chunk (1 to 7 bytes) carries
/// no record.
pub open spec fn records_of(b: Seq<u8>) -> Seq<Record> {
    Seq::new((b.len() / 8) as nat, |i: int| spec_decode(b.subrange(8 * i, 8 * i + 8)))
}

/// The two's-complement bit pattern of a signed 32-bit value.
fn i32_to_bits(t: i32) -> (v: u32)
    ensures
        v as int == bits32(t as int),
{
    if t >= 0 {
        t as u32
    } else {
        let m: i32 = -(t + 1);
        0xffff_ffffu32 - (m as u32)
    }
}

/// The signed 32-bit value whose two's-complement pattern is `v`.
fn bits_to_i32(v: u32) -> (t: i32)
    ensures
        t as int == signed32(v as int),
{
    if v >= 0x8000_0000 {
        let m: u32 = 0xffff_ffffu32 - v;
        -(m as i32) - 1
    } else {
        v as i32
    }
}

/// Truncate an epoch second to the 32-bit signed timestamp the binary
/// format stores (wrapping two's-complement truncation, the format's
/// accepted limitation for out-of-range moments).
pub fn wrap_i64_to_i32(e: i64) -> (t: i32)
    requires
        -0x8000_0000_0000 <= e <= 0x8000_0000_0000,
    ensures
        t as int == signed32(e as int % 0x100000000),
{
    let s: i64 = e + 0x8000_0000_0000;
    let m: i64 = s % 0x1_0000_0000;
    proof {
        vstd::arithmetic::div_mod::lemma_mod_multiples_vanish(0x8000, e as int, 0x1_0000_0000);
    }
    bits_to_i32(m as u32)
}

/// Append the big-endian bytes of `v` to `out`.
fn push_be32(out: &mut Vec<u8>, v: u32)
    ensures
        final(out)@ == old(out)@ + be_bytes32(v as int),
{
    out.push((v / 0x1000000 % 0x100) as u8);
    out.push((v / 0x10000 % 0x100) as u8);
    out.push((v / 0x100 % 0x100) as u8);
    out.push((v % 0x100) as u8);
    assert(out@ =~= old(out)@ + be_bytes32(v as int));
}

/// Encode one record as its 8-byte binary form: big-endian 4-byte signed
/// timestamp, then the 4 address octets. Pure and total.
pub fn encode(t: i32, a: u32) -> (b: Vec<u8>)
    ensures
        b@ == spec_encode(Record { t, a }),
        b@.len() == 8,
{
    let mut out: Vec<u8> = Vec::new();
    let tv = i32_to_bits(t);
    push_be32(&mut out, tv);
    push_be32(&mut out, a);
    assert(out@ =~= spec_encode(Record { t, a }));
    out
}

/// Read the big-endian 32-bit value at offset `off`.
fn read_be32(b: &Vec<u8>, off: usize) -> (v: u32)
    requires
        off + 4 <= b@.len(),
    ensures
        v as int == be32_at(b@, off as int),
{
    let n = b.len();
    assert(off + 4 <= n);
    (b[off] as u32) * 0x1000000 + (b[off + 1] as u32) * 0x10000 + (b[off + 2] as u32) * 0x100 + (
    b[off + 3] as u32)
}

/// Decode the 8-byte record starting at byte offset `off`.
pub fn decode_at(b: &Vec<u8>, off: usize) -> (r: Record)
    requires
        off + 8 <= b@.len(),
    ensures
        r == spec_decode(b@.subrange(off as int, off as int + 8)),
{
    let n = b.len();
    assert(off + 8 <= n);
    let tv = read_be32(b, off);
    let av = read_be32(b, off + 4);
    let r = Record { t: bits_to_i32(tv), a: av };
    assert(be32_at(b@.subrange(off as int, off as int + 8), 0) == be32_at(b@, off as int));
    assert(be32_at(b@.subrange(off as int, off as int + 8), 4) == be32_at(b@, off as int + 4));
    r
}

/// Decode an 8-byte record. The inverse of `encode`; total over any
/// 8-byte input, since every bit pattern is a valid record.
pub fn decode(b: &Vec<u8>) -> (r: Record)
    requires
        b@.len() == 8,
    ensures
        r == spec_decode(b@),
{
    let r = decode_at(b, 0);
    assert(b@.subrange(0, 8) =~= b@);
    r
}

/// Round trip: decoding what `encode` produced recovers the record
/// exactly, for every record.
pub proof fn lemma_encode_decode(r: Record)
    ensures
        spec_decode(spec_encode(r)) == r,
{
    let b = spec_encode(r);
    let tv = bits32(r.t as int);
    let av = r.a as int;
    assert(be32_at(b, 0) == tv) by {
        lemma_be32_roundtrip(tv);
    }
    assert(be32_at(b, 4) == av) by {
        assert(b[4] == av / 0x1000000 % 0x100 && b[5] == av / 0x10000 % 0x100 && b[6] == av / 0x100
            % 0x100 && b[7] == av % 0x100);
        lemma_be32_roundtrip(av);
    }
}

/// The four big-endian bytes of a 32-bit value recombine to that value.
proof fn lemma_be32_roundtrip(v: int)
    requires
        0 <= v < 0x100000000,
    ensures
        be32_at(be_bytes32(v), 0) == v,
{
    assert((v / 0x1000000 % 0x100) * 0x1000000 + (v / 0x10000 % 0x100) * 0x10000 + (v / 0x100
        % 0x100) * 0x100 + v % 0x100 == v) by (nonlinear_arith)
        requires
            0 <= v < 0x100000000,
    ;
}

/// Decode every full 8-byte record of a byte string, in order. A final
/// partial chunk of 1 to 7 bytes is ignored, not an error: exactly
/// `b.len() / 8` records come back whatever the length.
pub fn decode_stream(b: &Vec<u8>) -> (rs: Vec<Record>)
    ensures
        rs@ == records_of(b@),
{
    let mut rs: Vec<Record> = Vec::new();
    let n = b.len() / 8;
    let mut i: usize = 0;
    while i < n
        invariant
            n == b@.len() / 8,
            b@.len() <= usize::MAX,
            i <= n,
            rs@ == records_of(b@).subrange(0, i as int),
        decreases n - i,
    {
        let r = decode_at(b, 8 * i);
        rs.push(r);
        assert(rs@ =~= records_of(b@).subrange(0, i as int + 1));
        i = i + 1;
    }
    assert(rs@ =~= records_of(b@));
    rs
}

} // verus!
