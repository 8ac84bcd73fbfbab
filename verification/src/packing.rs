//! The bit-packed palette indices of a litematica region. An index may span two words.
use vstd::arithmetic::div_mod::{
    lemma_div_denominator, lemma_hoist_over_denominator, lemma_mod_multiples_vanish,
};
use vstd::arithmetic::power2::{lemma2_to64, lemma_pow2_adds, lemma_pow2_pos, lemma_pow2_strictly_increases, lemma_pow2_unfold, pow2};
use vstd::bits::lemma_u128_shr_is_div;
use vstd::prelude::*;

use crate::bytes::{unsigned, unsigned64};

verus! {

/// How many binary digits a number has.
pub open spec fn bit_len(n: nat) -> nat
    decreases n,
{
    if n == 0 {
        0
    } else {
        1 + bit_len(n / 2)
    }
}

/// The width of an index into a palette: as many bits as its last place needs, at least two.
/// The length counts modulo 2^32.
pub open spec fn index_width(palette_len: nat) -> nat {
    let len = palette_len % 0x1_0000_0000;
    let bits = bit_len(if len == 0 { 0 } else { (len - 1) as nat });
    if bits < 2 {
        2
    } else {
        bits
    }
}

/// The bits of a word.
pub open spec fn word(v: i64) -> nat {
    unsigned(v as int, 0x1_0000_0000_0000_0000)
}

/// The `i`-th index of `width` bits, lowest bits first, cut to sixteen bits; 0 where the words
/// end before it does.
pub open spec fn packed_index(packed: Seq<i64>, width: nat, i: int) -> u16 {
    let offset = i * width;
    let first = offset / 64;
    let last = (offset + width - 1) / 64;
    if last >= packed.len() {
        0
    } else {
        let upper = if last > first {
            word(packed[last]) as int
        } else {
            0
        };
        let bits = word(packed[first]) + upper * 0x1_0000_0000_0000_0000;
        ((bits / pow2((offset % 64) as nat) as int) % pow2(width) as int % 65536) as u16
    }
}

/// A number of up to thirty-two bits has at most thirty-two binary digits.
proof fn lemma_bit_len(n: nat, k: nat)
    requires
        n < pow2(k),
    ensures
        bit_len(n) <= k,
    decreases k,
{
    if k == 0 {
        lemma2_to64();
    } else if n > 0 {
        lemma_pow2_unfold(k);
        lemma_bit_len(n / 2, (k - 1) as nat);
    }
}

/// An index is two to thirty-two bits wide.
pub proof fn lemma_width(palette_len: nat)
    ensures
        2 <= index_width(palette_len) <= 32,
{
    let len = palette_len % 0x1_0000_0000;
    lemma2_to64();
    lemma_bit_len(if len == 0 { 0 } else { (len - 1) as nat }, 32);
}

/// The width of an index, and how many indices it can tell apart.
fn width_and_span(palette_len: usize) -> (r: (u64, u64))
    ensures
        r.0 == index_width(palette_len as nat),
        2 <= r.0 <= 32,
        r.1 == pow2(r.0 as nat),
        4 <= r.1 <= 0x1_0000_0000,
{
    let len: u64 = palette_len as u64 % 0x1_0000_0000;
    let last: u64 = if len == 0 {
        0
    } else {
        len - 1
    };
    let mut rest: u64 = last;
    let mut width: u64 = 0;
    let mut span: u64 = 1;
    proof {
        lemma2_to64();
        lemma_bit_len(last as nat, 32);
    }
    while rest > 0
        invariant
            bit_len(last as nat) == width + bit_len(rest as nat),
            bit_len(last as nat) <= 32,
            span == pow2(width as nat),
            span <= 0x1_0000_0000,
        decreases rest,
    {
        rest = rest / 2;
        width = width + 1;
        proof {
            lemma_pow2_unfold(width as nat);
            lemma2_to64();
            if width < 32 {
                lemma_pow2_strictly_increases(width as nat, 32);
            }
        }
        span = span * 2;
    }
    proof {
        if width > 2 {
            lemma_pow2_strictly_increases(2, width as nat);
        }
    }
    if width < 2 {
        (2, 4)
    } else {
        (width, span)
    }
}

/// Unpacks the long array of block states into one palette index per block.
pub fn unpack_litematica(packed: &[i64], palette_len: usize, total: usize) -> (r: Vec<u16>)
    requires
        total * index_width(palette_len as nat) <= u64::MAX,
    ensures
        r@ == Seq::new(
            total as nat,
            |i: int| packed_index(packed@, index_width(palette_len as nat), i),
        ),
{
    let (width, span) = width_and_span(palette_len);
    let mut out: Vec<u16> = Vec::with_capacity(total);
    let mut i: usize = 0;
    while i < total
        invariant
            i <= total,
            total * width <= u64::MAX,
            2 <= width <= 32,
            span == pow2(width as nat),
            4 <= span <= 0x1_0000_0000,
            width == index_width(palette_len as nat),
            out@.len() == i,
            forall|k: int| 0 <= k < i ==> out@[k] == packed_index(packed@, width as nat, k),
        decreases total - i,
    {
        proof {
            assert((i + 1) * width <= total * width) by (nonlinear_arith)
                requires
                    i + 1 <= total,
                    0 <= width,
            ;
            assert((i + 1) * width == i * width + width) by (nonlinear_arith);
            assert(0 <= i * width <= i * 32) by (nonlinear_arith)
                requires
                    0 <= width <= 32,
                    0 <= i,
            ;
        }
        let offset: u64 = i as u64 * width;
        let first: usize = (offset / 64) as usize;
        let last: usize = ((offset + (width - 1)) / 64) as usize;
        let value: u16 = if last >= packed.len() {
            0
        } else {
            let lower: u128 = unsigned64(packed[first]) as u128;
            let upper: u128 = if last > first {
                unsigned64(packed[last]) as u128
            } else {
                0
            };
            let bits: u128 = lower + upper * 0x1_0000_0000_0000_0000;
            let shift: u128 = (offset % 64) as u128;
            proof {
                lemma_u128_shr_is_div(bits, shift);
            }
            ((bits >> shift) % (span as u128) % 65536) as u16
        };
        out.push(value);
        i += 1;
    }
    assert(out@ =~= Seq::new(
        total as nat,
        |i: int| packed_index(packed@, index_width(palette_len as nat), i),
    ));
    out
}

/// The width of an index is the least number of bits, from two on, in which a palette's places can
/// all be told apart.
pub proof fn law_width_tells_places_apart(palette_len: nat)
    requires
        palette_len < 0x1_0000_0000,
    ensures
        2 <= index_width(palette_len),
        palette_len <= pow2(index_width(palette_len)),
        index_width(palette_len) > 2 ==> pow2((index_width(palette_len) - 1) as nat) < palette_len,
        forall|w: nat| 2 <= w && palette_len <= #[trigger] pow2(w) ==> index_width(palette_len) <= w,
{
    lemma2_to64();
    if palette_len > 0 {
        let n = (palette_len - 1) as nat;
        lemma_below_bit_len(n);
        let b = bit_len(n);
        if b < 2 {
            lemma_pow2_strictly_increases(b, 2);
        } else {
            lemma_not_below_bit_len(n);
        }
    }
    assert forall|w: nat| 2 <= w && palette_len <= #[trigger] pow2(w) implies index_width(palette_len)
        <= w by {
        let v = (index_width(palette_len) - 1) as nat;
        if w < v {
            lemma_pow2_strictly_increases(w, v);
        }
    }
}

/// A number has no more digits than it needs.
proof fn lemma_not_below_bit_len(n: nat)
    requires
        n > 0,
    ensures
        pow2((bit_len(n) - 1) as nat) <= n,
    decreases n,
{
    lemma2_to64();
    if n / 2 > 0 {
        lemma_not_below_bit_len(n / 2);
        lemma_pow2_unfold((bit_len(n) - 1) as nat);
    } else {
        assert(bit_len(n / 2) == 0);
    }
}

/// A word is read as the number of its sixty-four bits: the two's complement without the sign.
pub proof fn law_word_has_no_sign(v: i64)
    ensures
        word(v) < 0x1_0000_0000_0000_0000,
        (word(v) - v) % 0x1_0000_0000_0000_0000 == 0,
{
}

/// Where the words end within an index or before it, the index is 0.
pub proof fn law_indices_behind_the_words_are_zero(packed: Seq<i64>, width: nat, i: nat)
    requires
        1 <= width,
        i * width + width > 64 * packed.len(),
    ensures
        packed_index(packed, width, i as int) == 0,
{
    assert(0 <= i * width) by (nonlinear_arith);
}

/// Indices that lie behind each other in the words, each in as many bits as the palette needs,
/// are unpacked as they are.
pub proof fn law_packed_indices_unpack(
    packed: Seq<i64>,
    palette_len: nat,
    indices: Seq<u16>,
    i: nat,
)
    requires
        palette_len <= 65536,
        forall|k: int| 0 <= k < indices.len() ==> #[trigger] indices[k] < palette_len,
        indices.len() * index_width(palette_len) <= 64 * packed.len(),
        stream(packed) == bits_of(indices, index_width(palette_len)),
        i < indices.len(),
    ensures
        packed_index(packed, index_width(palette_len), i as int) == indices[i as int],
{
    let w = index_width(palette_len);
    law_width_tells_places_apart(palette_len);
    lemma_width(palette_len);
    lemma2_to64();
    assert(i * w + w <= indices.len() * w) by (nonlinear_arith)
        requires
            i + 1 <= indices.len(),
    ;
    law_indices_are_packed_tightly(packed, w, i);
    assert forall|k: int| 0 <= k < indices.len() implies #[trigger] indices[k] < pow2(w) by {}
    lemma_bits_of(indices, w, i);
    assert(indices[i as int] < pow2(w));
    assert(indices[i as int] < 65536);
}

/// The number that some indices make up when each takes `width` bits, the first one lowest.
pub open spec fn bits_of(indices: Seq<u16>, width: nat) -> nat
    decreases indices.len(),
{
    if indices.len() == 0 {
        0
    } else {
        indices[0] as nat + pow2(width) * bits_of(indices.drop_first(), width)
    }
}

/// Shifting by whole indices and cutting off the others leaves one index.
proof fn lemma_bits_of(indices: Seq<u16>, width: nat, i: nat)
    requires
        i < indices.len(),
        forall|k: int| 0 <= k < indices.len() ==> #[trigger] indices[k] < pow2(width),
    ensures
        (bits_of(indices, width) as int / pow2(i * width) as int) % pow2(width) as int
            == indices[i as int],
    decreases i,
{
    let m = pow2(width) as int;
    let rest = indices.drop_first();
    let b = bits_of(rest, width) as int;
    let a = indices[0] as int;
    lemma_pow2_pos(width);
    lemma2_to64();
    assert(bits_of(indices, width) == a + b * m) by (nonlinear_arith)
        requires
            bits_of(indices, width) == a + m * b,
    ;
    if i == 0 {
        assert(pow2(0) == 1);
        assert(0 * width == 0);
        assert(bits_of(indices, width) as int / 1 == bits_of(indices, width));
        lemma_mod_multiples_vanish(b, a, m);
        assert(m * b + a == a + b * m) by (nonlinear_arith);
        assert(a % m == a) by (nonlinear_arith)
            requires
                0 <= a < m,
        ;
    } else {
        let j = (i - 1) as nat;
        assert forall|k: int| 0 <= k < rest.len() implies #[trigger] rest[k] < pow2(width) by {
            assert(rest[k] == indices[k + 1]);
        }
        lemma_bits_of(rest, width, j);
        assert(i * width == width + j * width) by (nonlinear_arith)
            requires
                i == j + 1,
        ;
        lemma_pow2_adds(width, j * width);
        lemma_pow2_pos(j * width);
        lemma_div_denominator(a + b * m, m, pow2(j * width) as int);
        lemma_hoist_over_denominator(a, b, m as nat);
        assert(a / m == 0) by (nonlinear_arith)
            requires
                0 <= a < m,
        ;
        assert(rest[j as int] == indices[i as int]);
    }
}

/// A number lies below the power of two of as many digits as it has.
proof fn lemma_below_bit_len(n: nat)
    ensures
        n < pow2(bit_len(n)),
    decreases n,
{
    if n == 0 {
        lemma2_to64();
    } else {
        lemma_below_bit_len(n / 2);
        lemma_pow2_unfold(bit_len(n));
    }
}

/// The number that some words make up, lowest word first.
pub open spec fn stream(packed: Seq<i64>) -> nat
    decreases packed.len(),
{
    if packed.len() == 0 {
        0
    } else {
        word(packed[0]) + 0x1_0000_0000_0000_0000 * stream(packed.drop_first())
    }
}

/// Shifting a stream by whole words leaves out those words.
proof fn lemma_stream_skip(packed: Seq<i64>, k: nat)
    requires
        k <= packed.len(),
    ensures
        stream(packed) / pow2(64 * k) == stream(packed.skip(k as int)),
    decreases k,
{
    if k == 0 {
        lemma2_to64();
        assert(packed.skip(0) =~= packed);
        assert(pow2(64 * k) == 1);
        assert(stream(packed) / 1 == stream(packed));
    } else {
        let rest = packed.drop_first();
        let m = 0x1_0000_0000_0000_0000int;
        let w = word(packed[0]) as int;
        lemma2_to64();
        lemma_stream_skip(rest, (k - 1) as nat);
        assert(rest.skip(k - 1) =~= packed.skip(k as int));
        lemma_pow2_adds(64, (64 * (k - 1)) as nat);
        lemma_pow2_pos((64 * (k - 1)) as nat);
        assert(pow2(64 * k) == pow2(64) * pow2((64 * (k - 1)) as nat));
        lemma_div_denominator(stream(packed) as int, m, pow2((64 * (k - 1)) as nat) as int);
        assert(stream(packed) == w + stream(rest) * m) by (nonlinear_arith)
            requires
                stream(packed) == w + m * stream(rest),
        ;
        lemma_hoist_over_denominator(w, stream(rest) as int, m as nat);
        assert(w / m == 0);
        assert(stream(packed) as int / m == stream(rest));
        assert(stream(packed) as int / (m * pow2((64 * (k - 1)) as nat) as int) == stream(
            packed.skip(k as int),
        ));
    }
}

/// Reading bits below a multiple of a larger power of two does not depend on that multiple.
proof fn lemma_low_bits(low: nat, rest: nat, total: nat, shift: nat, width: nat)
    requires
        shift + width <= total,
    ensures
        ((low + rest * pow2(total)) as int / pow2(shift) as int) % pow2(width) as int == (low as int
            / pow2(shift) as int) % pow2(width) as int,
{
    let a = (total - shift) as nat;
    let b = (a - width) as nat;
    lemma_pow2_adds(a, shift);
    lemma_pow2_adds(b, width);
    lemma_pow2_pos(shift);
    lemma_pow2_pos(width);
    let d = pow2(shift) as int;
    let m = pow2(width) as int;
    let j = rest as int * pow2(a) as int;
    let q = rest as int * pow2(b) as int;
    assert(rest * pow2(total) == j * d) by (nonlinear_arith)
        requires
            pow2(total) == pow2(a) * d,
            j == rest as int * pow2(a) as int,
    ;
    lemma_hoist_over_denominator(low as int, j, d as nat);
    assert(j == m * q) by (nonlinear_arith)
        requires
            pow2(a) == pow2(b) * m,
            j == rest as int * pow2(a) as int,
            q == rest as int * pow2(b) as int,
    ;
    lemma_mod_multiples_vanish(q, low as int / d, m);
}

/// The indices lie behind each other in the stream of words: each is the next `width` bits.
pub proof fn law_indices_are_packed_tightly(packed: Seq<i64>, width: nat, i: nat)
    requires
        1 <= width <= 64,
        i * width + width <= 64 * packed.len(),
    ensures
        packed_index(packed, width, i as int) == (stream(packed) as int / pow2(i * width) as int)
            % pow2(width) as int % 65536,
{
    let offset = (i * width) as int;
    let first = offset / 64;
    let last = (offset + width - 1) / 64;
    let o = (offset % 64) as nat;
    assert(0 <= offset) by (nonlinear_arith)
        requires
            offset == i * width,
    ;
    assert(last < packed.len());
    let tail = packed.skip(first);
    lemma2_to64();
    lemma_stream_skip(packed, first as nat);
    lemma_pow2_adds((64 * first) as nat, o);
    lemma_pow2_pos((64 * first) as nat);
    lemma_pow2_pos(o);
    lemma_div_denominator(
        stream(packed) as int,
        pow2((64 * first) as nat) as int,
        pow2(o) as int,
    );
    assert(64 * first + o == offset);
    let w = word(packed[first]);
    let rest = tail.drop_first();
    assert(tail[0] == packed[first]);
    if last > first {
        assert(rest[0] == packed[last]);
        let more = stream(rest.drop_first());
        let u = word(packed[last]);
        let low = (w + u * 0x1_0000_0000_0000_0000) as nat;
        lemma_pow2_adds(64, 64);
        assert(last == first + 1);
        assert(rest.len() > 0);
        assert(stream(rest) == u + 0x1_0000_0000_0000_0000 * more);
        assert(stream(tail) == w + 0x1_0000_0000_0000_0000 * stream(rest));
        assert(stream(tail) == low + more * pow2(128)) by (nonlinear_arith)
            requires
                stream(tail) == w + 0x1_0000_0000_0000_0000 * stream(rest),
                stream(rest) == u + 0x1_0000_0000_0000_0000 * more,
                low == w + u * 0x1_0000_0000_0000_0000,
                pow2(128) == 0x1_0000_0000_0000_0000int * 0x1_0000_0000_0000_0000int,
        ;
        lemma_low_bits(low, more, 128, o, width);
    } else {
        assert(stream(tail) == w + stream(rest) * pow2(64)) by (nonlinear_arith)
            requires
                stream(tail) == w + 0x1_0000_0000_0000_0000 * stream(rest),
                pow2(64) == 0x1_0000_0000_0000_0000int,
        ;
        lemma_low_bits(w, stream(rest), 64, o, width);
    }
}

/// Palettes are counted modulo two to the thirty-second.
pub proof fn law_width_counts_modulo(palette_len: nat)
    ensures
        index_width(palette_len + 0x1_0000_0000) == index_width(palette_len),
{
}

} // verus!
