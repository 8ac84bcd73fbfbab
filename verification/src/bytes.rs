//! Big-endian integers: what a run of bytes stands for, and the bytes of a number.
use vstd::prelude::*;

verus! {

/// The number that the bytes stand for, most significant byte first.
pub open spec fn be(b: Seq<u8>) -> nat
    decreases b.len(),
{
    if b.len() == 0 {
        0
    } else {
        be(b.drop_last()) * 256 + b.last() as nat
    }
}

/// The lowest `k` bytes of a number, most significant byte first.
pub open spec fn be_bytes(n: nat, k: nat) -> Seq<u8>
    decreases k,
{
    if k == 0 {
        Seq::empty()
    } else {
        be_bytes(n / 256, (k - 1) as nat).push((n % 256) as u8)
    }
}

/// How many numbers `k` bytes can tell apart.
pub open spec fn span(k: nat) -> nat
    decreases k,
{
    if k == 0 {
        1
    } else {
        256 * span((k - 1) as nat)
    }
}

/// The two's complement reading of a number below `m`.
pub open spec fn signed(n: int, m: int) -> int {
    if n < m / 2 {
        n
    } else {
        n - m
    }
}

/// The two's complement writing of a number between `-m / 2` and `m / 2`.
pub open spec fn unsigned(v: int, m: int) -> nat {
    if v < 0 {
        (v + m) as nat
    } else {
        v as nat
    }
}

/// Two bytes tell 65536 numbers apart, four 2^32 and eight 2^64.
pub proof fn lemma_span()
    ensures
        span(1) == 256,
        span(2) == 65536,
        span(4) == 0x1_0000_0000,
        span(8) == 0x1_0000_0000_0000_0000,
{
    reveal_with_fuel(span, 9);
}

/// `k` bytes are written.
pub proof fn lemma_be_bytes_len(n: nat, k: nat)
    ensures
        be_bytes(n, k).len() == k,
    decreases k,
{
    if k > 0 {
        lemma_be_bytes_len(n / 256, (k - 1) as nat);
    }
}

/// What is written reads back, for a number that fits.
pub proof fn lemma_be_roundtrip(n: nat, k: nat)
    requires
        n < span(k),
    ensures
        be(be_bytes(n, k)) == n,
    decreases k,
{
    if k > 0 {
        lemma_be_roundtrip(n / 256, (k - 1) as nat);
        assert(be_bytes(n, k).drop_last() =~= be_bytes(n / 256, (k - 1) as nat));
    }
}

/// A run of bytes stands for a number below `span` of its length.
pub proof fn lemma_be_bound(b: Seq<u8>)
    ensures
        be(b) < span(b.len()),
    decreases b.len(),
{
    if b.len() > 0 {
        lemma_be_bound(b.drop_last());
    }
}

/// The number in the two bytes at `p`.
pub fn be16(d: &[u8], p: usize) -> (r: u16)
    requires
        p + 2 <= d@.len(),
    ensures
        r == be(d@.subrange(p as int, p + 2)),
{
    proof {
        reveal_with_fuel(be, 3);
        let s = d@.subrange(p as int, p + 2);
        assert(s.drop_last() =~= d@.subrange(p as int, p + 1));
        assert(s.drop_last().drop_last() =~= Seq::<u8>::empty());
    }
    d[p] as u16 * 256 + d[p + 1] as u16
}

/// The number in the four bytes at `p`.
pub fn be32(d: &[u8], p: usize) -> (r: u32)
    requires
        p + 4 <= d@.len(),
    ensures
        r == be(d@.subrange(p as int, p + 4)),
{
    assert(p + 4 <= d.len());
    let hi = be16(d, p);
    let lo = be16(d, p + 2);
    proof {
        lemma_be_concat(d@.subrange(p as int, p + 2), d@.subrange(p + 2, p + 4));
        lemma_span();
        assert(d@.subrange(p as int, p + 2) + d@.subrange(p + 2, p + 4) =~= d@.subrange(
            p as int,
            p + 4,
        ));
    }
    hi as u32 * 65536 + lo as u32
}

/// The number in the eight bytes at `p`.
pub fn be64(d: &[u8], p: usize) -> (r: u64)
    requires
        p + 8 <= d@.len(),
    ensures
        r == be(d@.subrange(p as int, p + 8)),
{
    assert(p + 8 <= d.len());
    let hi = be32(d, p);
    let lo = be32(d, p + 4);
    proof {
        lemma_be_concat(d@.subrange(p as int, p + 4), d@.subrange(p + 4, p + 8));
        lemma_span();
        assert(d@.subrange(p as int, p + 4) + d@.subrange(p + 4, p + 8) =~= d@.subrange(
            p as int,
            p + 8,
        ));
    }
    hi as u64 * 0x1_0000_0000 + lo as u64
}

/// Bytes in front of others weigh as much as the others can tell apart.
pub proof fn lemma_be_concat(a: Seq<u8>, b: Seq<u8>)
    ensures
        be(a + b) == be(a) * span(b.len()) + be(b),
    decreases b.len(),
{
    if b.len() == 0 {
        assert(a + b =~= a);
        assert(be(a) * span(0) == be(a)) by (nonlinear_arith)
            requires
                span(0) == 1,
        ;
    } else {
        let c = b.drop_last();
        lemma_be_concat(a, c);
        assert((a + b).last() == b.last());
        assert((a + b).drop_last() =~= a + c);
        assert((be(a) * span(c.len()) + be(c)) * 256 == be(a) * (256 * span(c.len())) + be(c) * 256)
            by (nonlinear_arith);
    }
}

/// The number that two's complement assigns to sixteen bits.
pub fn signed16(n: u16) -> (r: i16)
    ensures
        r == signed(n as int, 65536),
{
    if n < 32768 {
        n as i16
    } else {
        (n as i32 - 65536) as i16
    }
}

/// The number that two's complement assigns to thirty-two bits.
pub fn signed32(n: u32) -> (r: i32)
    ensures
        r == signed(n as int, 0x1_0000_0000),
{
    if n < 0x8000_0000 {
        n as i32
    } else {
        (n as i64 - 0x1_0000_0000) as i32
    }
}

/// The number that two's complement assigns to sixty-four bits.
pub fn signed64(n: u64) -> (r: i64)
    ensures
        r == signed(n as int, 0x1_0000_0000_0000_0000),
{
    if n < 0x8000_0000_0000_0000 {
        n as i64
    } else {
        (n as i128 - 0x1_0000_0000_0000_0000) as i64
    }
}

/// The number that two's complement assigns to eight bits.
pub fn signed8(n: u8) -> (r: i8)
    ensures
        r == signed(n as int, 256),
{
    if n < 128 {
        n as i8
    } else {
        (n as i16 - 256) as i8
    }
}

/// The eight bits of a signed number.
pub fn unsigned8(v: i8) -> (r: u8)
    ensures
        r == unsigned(v as int, 256),
{
    if v < 0 {
        (v as i16 + 256) as u8
    } else {
        v as u8
    }
}

/// The sixteen bits of a signed number.
pub fn unsigned16(v: i16) -> (r: u16)
    ensures
        r == unsigned(v as int, 65536),
{
    if v < 0 {
        (v as i32 + 65536) as u16
    } else {
        v as u16
    }
}

/// The thirty-two bits of a signed number.
pub fn unsigned32(v: i32) -> (r: u32)
    ensures
        r == unsigned(v as int, 0x1_0000_0000),
{
    if v < 0 {
        (v as i64 + 0x1_0000_0000) as u32
    } else {
        v as u32
    }
}

/// The sixty-four bits of a signed number.
pub fn unsigned64(v: i64) -> (r: u64)
    ensures
        r == unsigned(v as int, 0x1_0000_0000_0000_0000),
{
    if v < 0 {
        (v as i128 + 0x1_0000_0000_0000_0000) as u64
    } else {
        v as u64
    }
}

/// Writes a number as two bytes.
pub fn push_be16(out: &mut Vec<u8>, n: u16)
    ensures
        final(out)@ == old(out)@ + be_bytes(n as nat, 2),
{
    proof {
        reveal_with_fuel(be_bytes, 3);
    }
    out.push((n / 256) as u8);
    out.push((n % 256) as u8);
    assert(out@ =~= old(out)@ + be_bytes(n as nat, 2));
}

/// Writes a number as four bytes.
pub fn push_be32(out: &mut Vec<u8>, n: u32)
    ensures
        final(out)@ == old(out)@ + be_bytes(n as nat, 4),
{
    let hi: u16 = (n / 65536) as u16;
    let lo: u16 = (n % 65536) as u16;
    push_be16(out, hi);
    push_be16(out, lo);
    proof {
        reveal_with_fuel(be_bytes, 5);
        assert(n as nat / 256 / 256 == hi);
        assert(n as nat / 256 / 256 / 256 == hi as nat / 256);
        assert(n as nat / 256 % 256 == lo as nat / 256);
        assert(n as nat % 256 == lo as nat % 256);
        assert(be_bytes(n as nat, 4) =~= be_bytes(hi as nat, 2) + be_bytes(lo as nat, 2));
        assert(out@ =~= old(out)@ + be_bytes(n as nat, 4));
    }
}

/// The bytes of a number that fills eight bytes are those of its upper and lower half.
proof fn lemma_be_bytes_split(n: nat, k: nat, j: nat)
    ensures
        be_bytes(n, k + j) == be_bytes(n / span(j), k) + be_bytes(n, j),
    decreases j,
{
    if j == 0 {
        assert(n / span(0) == n) by (nonlinear_arith)
            requires
                span(0) == 1,
        ;
        assert(be_bytes(n, k) + be_bytes(n, 0) =~= be_bytes(n, k));
    } else {
        let i = (j - 1) as nat;
        lemma_be_bytes_split(n / 256, k, i);
        lemma_span_positive(i);
        assert((n / 256) / span(i) == n / (256 * span(i))) by {
            vstd::arithmetic::div_mod::lemma_div_denominator(n as int, 256, span(i) as int);
        }
        assert(be_bytes(n, k + j) =~= be_bytes(n / span(j), k) + be_bytes(n, j));
    }
}

proof fn lemma_span_positive(k: nat)
    ensures
        span(k) > 0,
    decreases k,
{
    if k > 0 {
        lemma_span_positive((k - 1) as nat);
    }
}

/// The lowest bytes of a number do not depend on what lies above them.
pub proof fn lemma_be_bytes_mod(n: nat, k: nat)
    ensures
        be_bytes(n, k) == be_bytes(n % span(k), k),
    decreases k,
{
    if k > 0 {
        let i = (k - 1) as nat;
        lemma_span_positive(i);
        lemma_be_bytes_mod(n / 256, i);
        lemma_be_bytes_mod((n % span(k)) / 256, i);
        let m = n % (256 * span(i));
        vstd::arithmetic::div_mod::lemma_mod_breakdown(n as int, 256, span(i) as int);
        vstd::arithmetic::div_mod::lemma_fundamental_div_mod(n as int, 256);
        assert(m == 256 * ((n / 256) % span(i)) + n % 256);
        assert(m / 256 == (n / 256) % span(i));
        assert(m % 256 == n % 256);
    }
}

/// Writes a number as eight bytes.
pub fn push_be64(out: &mut Vec<u8>, n: u64)
    ensures
        final(out)@ == old(out)@ + be_bytes(n as nat, 8),
{
    let hi: u32 = (n / 0x1_0000_0000) as u32;
    let lo: u32 = (n % 0x1_0000_0000) as u32;
    push_be32(out, hi);
    push_be32(out, lo);
    proof {
        lemma_span();
        lemma_be_bytes_split(n as nat, 4, 4);
        lemma_be_bytes_mod(n as nat, 4);
        assert(out@ =~= old(out)@ + be_bytes(n as nat, 8));
    }
}

} // verus!
