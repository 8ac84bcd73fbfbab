//! How numbers and NBT values are laid out in bytes.
use vstd::prelude::*;
use vstd::utf8::*;

use crate::bytes::{
    be, be_bytes, lemma_be_bound, lemma_be_bytes_len, lemma_be_bytes_mod, lemma_be_roundtrip,
    lemma_span, signed, span, unsigned,
};
use crate::names::put;
use crate::nbt::Nbt;
use crate::nbt_read::{
    count_at, entries_at, file_value, fixed_at, list_at, string_at, tag_at, utf8_error_text,
};
use crate::nbt_write::{
    entries_payload, entry_bytes, file_bytes, ints_payload, list_payload, longs_payload, payload,
    tag_id,
};
use crate::text::decimal;
use crate::varint::{varint, varint_at, varints, varints_at};

verus! {

/// A byte behind others makes the number 256 times as large and adds its own value: the most
/// significant byte comes first.
pub proof fn law_bytes_are_weighed_from_the_front(b: Seq<u8>, x: u8)
    ensures
        be(Seq::<u8>::empty()) == 0,
        be(b.push(x)) == 256 * be(b) + x,
{
    assert(b.push(x).drop_last() =~= b);
}

/// A number is written in as many bytes as are asked for, and reads back if it fits them; of a larger
/// number the lowest bytes are written.
pub proof fn law_written_number_reads_back(n: nat, k: nat)
    ensures
        be_bytes(n, k).len() == k,
        n < span(k) ==> be(be_bytes(n, k)) == n,
        be(be_bytes(n, k)) == n % span(k),
        span(0) == 1,
        span(k + 1) == 256 * span(k),
{
    lemma_be_bytes_len(n, k);
    lemma_be_bytes_mod(n, k);
    lemma_be_bound(be_bytes(n, k));
    lemma_be_roundtrip(n % span(k), k);
    if n < span(k) {
        lemma_be_roundtrip(n, k);
    }
}

/// A number's sign is written in two's complement: a negative number as the number of its type's
/// values above it, the others as they are.
pub proof fn law_sign_is_twos_complement(v: int, n: int, m: int)
    requires
        m > 0,
        m % 2 == 0,
        -m <= 2 * v < m,
        0 <= n < m,
    ensures
        v >= 0 ==> unsigned(v, m) == v,
        v < 0 ==> unsigned(v, m) == m + v,
        2 * n < m ==> signed(n, m) == n,
        2 * n >= m ==> signed(n, m) == n - m,
        signed(unsigned(v, m) as int, m) == v,
        unsigned(signed(n, m), m) == n,
{
}

/// Every type of value has its own number.
pub proof fn law_types_are_numbered(n: Nbt)
    ensures
        tag_id(n) == match n {
            Nbt::Byte(_) => 1,
            Nbt::Short(_) => 2,
            Nbt::Int(_) => 3,
            Nbt::Long(_) => 4,
            Nbt::Float(_) => 5,
            Nbt::Double(_) => 6,
            Nbt::ByteArray(_) => 7,
            Nbt::Text(_) => 8,
            Nbt::List(_) => 9,
            Nbt::Compound(_) => 10,
            Nbt::IntArray(_) => 11,
            Nbt::LongArray(_) => 12int,
        },
{
}

/// Numbers take one, two, four or eight bytes, most significant byte first, in two's complement.
pub proof fn law_numbers_take_their_bytes(b: i8, s: i16, i: i32, l: i64, f: u32, d: u64)
    ensures
        payload(Nbt::Byte(b)).len() == 1 && be(payload(Nbt::Byte(b))) == (if b < 0 {
            256 + b
        } else {
            b as int
        }),
        payload(Nbt::Short(s)).len() == 2 && be(payload(Nbt::Short(s))) == (if s < 0 {
            65536 + s
        } else {
            s as int
        }),
        payload(Nbt::Int(i)).len() == 4 && be(payload(Nbt::Int(i))) == (if i < 0 {
            0x1_0000_0000 + i
        } else {
            i as int
        }),
        payload(Nbt::Long(l)).len() == 8 && be(payload(Nbt::Long(l))) == (if l < 0 {
            0x1_0000_0000_0000_0000 + l
        } else {
            l as int
        }),
        payload(Nbt::Float(f)).len() == 4 && be(payload(Nbt::Float(f))) == f,
        payload(Nbt::Double(d)).len() == 8 && be(payload(Nbt::Double(d))) == d,
{
    lemma_span();
    law_bytes_are_weighed_from_the_front(Seq::empty(), unsigned(b as int, 256) as u8);
    assert(payload(Nbt::Byte(b)) =~= Seq::<u8>::empty().push(unsigned(b as int, 256) as u8));
    law_written_number_reads_back(unsigned(s as int, 65536), 2);
    law_written_number_reads_back(unsigned(i as int, 0x1_0000_0000), 4);
    law_written_number_reads_back(unsigned(l as int, 0x1_0000_0000_0000_0000), 8);
    law_written_number_reads_back(f as nat, 4);
    law_written_number_reads_back(d as nat, 8);
}

/// An array is the lowest four bytes of its length and then its numbers, each as it is written alone.
pub proof fn law_arrays_hold_their_numbers(b: Seq<i8>, i: Seq<i32>, l: Seq<i64>, k: int)
    ensures
        ({
            let p = payload(Nbt::ByteArray(b));
            &&& p.len() == 4 + b.len()
            &&& be(p.take(4)) == b.len() % 0x1_0000_0000
            &&& 0 <= k < b.len() ==> p.subrange(4 + k, 5 + k) == payload(Nbt::Byte(b[k]))
        }),
        ({
            let p = payload(Nbt::IntArray(i));
            &&& p.len() == 4 + 4 * i.len()
            &&& be(p.take(4)) == i.len() % 0x1_0000_0000
            &&& 0 <= k < i.len() ==> p.subrange(4 + 4 * k, 8 + 4 * k) == payload(Nbt::Int(i[k]))
        }),
        ({
            let p = payload(Nbt::LongArray(l));
            &&& p.len() == 4 + 8 * l.len()
            &&& be(p.take(4)) == l.len() % 0x1_0000_0000
            &&& 0 <= k < l.len() ==> p.subrange(4 + 8 * k, 12 + 8 * k) == payload(Nbt::Long(l[k]))
        }),
{
    lemma_span();
    law_written_number_reads_back(b.len(), 4);
    law_written_number_reads_back(i.len(), 4);
    law_written_number_reads_back(l.len(), 4);
    assert(payload(Nbt::ByteArray(b)).take(4) =~= be_bytes(b.len(), 4));
    assert(payload(Nbt::IntArray(i)).take(4) =~= be_bytes(i.len(), 4));
    assert(payload(Nbt::LongArray(l)).take(4) =~= be_bytes(l.len(), 4));
    if 0 <= k < b.len() {
        assert(payload(Nbt::ByteArray(b)).subrange(4 + k, 5 + k) =~= payload(Nbt::Byte(b[k])));
    }
    lemma_ints_payload(i, k);
    if 0 <= k < i.len() {
        assert(payload(Nbt::IntArray(i)).subrange(4 + 4 * k, 8 + 4 * k) =~= ints_payload(
            i,
        ).subrange(4 * k, 4 * k + 4));
    }
    lemma_longs_payload(l, k);
    if 0 <= k < l.len() {
        assert(payload(Nbt::LongArray(l)).subrange(4 + 8 * k, 12 + 8 * k) =~= longs_payload(
            l,
        ).subrange(8 * k, 8 * k + 8));
    }
}

proof fn lemma_ints_payload(s: Seq<i32>, k: int)
    ensures
        ints_payload(s).len() == 4 * s.len(),
        0 <= k < s.len() ==> ints_payload(s).subrange(4 * k, 4 * k + 4) == payload(Nbt::Int(s[k])),
    decreases s.len(),
{
    if s.len() > 0 {
        let t = s.drop_last();
        lemma_ints_payload(t, k);
        lemma_be_bytes_len(unsigned(s.last() as int, 0x1_0000_0000), 4);
        if 0 <= k < t.len() {
            assert(ints_payload(s).subrange(4 * k, 4 * k + 4) =~= ints_payload(t).subrange(
                4 * k,
                4 * k + 4,
            ));
        } else if k == t.len() {
            assert(ints_payload(s).subrange(4 * k, 4 * k + 4) =~= payload(Nbt::Int(s[k])));
        }
    }
}

proof fn lemma_longs_payload(s: Seq<i64>, k: int)
    ensures
        longs_payload(s).len() == 8 * s.len(),
        0 <= k < s.len() ==> longs_payload(s).subrange(8 * k, 8 * k + 8) == payload(
            Nbt::Long(s[k]),
        ),
    decreases s.len(),
{
    if s.len() > 0 {
        let t = s.drop_last();
        lemma_longs_payload(t, k);
        lemma_be_bytes_len(unsigned(s.last() as int, 0x1_0000_0000_0000_0000), 8);
        if 0 <= k < t.len() {
            assert(longs_payload(s).subrange(8 * k, 8 * k + 8) =~= longs_payload(t).subrange(
                8 * k,
                8 * k + 8,
            ));
        } else if k == t.len() {
            assert(longs_payload(s).subrange(8 * k, 8 * k + 8) =~= payload(Nbt::Long(s[k])));
        }
    }
}

/// A string is the lowest two bytes of the length of its UTF-8 and then that UTF-8.
pub proof fn law_strings_are_utf8(s: Seq<char>)
    ensures
        payload(Nbt::Text(s)).len() == 2 + encode_utf8(s).len(),
        be(payload(Nbt::Text(s)).take(2)) == encode_utf8(s).len() % 65536,
        payload(Nbt::Text(s)).skip(2) == encode_utf8(s),
{
    lemma_span();
    law_written_number_reads_back(encode_utf8(s).len(), 2);
    assert(payload(Nbt::Text(s)).take(2) =~= be_bytes(encode_utf8(s).len(), 2));
    assert(payload(Nbt::Text(s)).skip(2) =~= encode_utf8(s));
}

/// A list is the type of its first value, the lowest four bytes of its length, and then its values
/// one behind the other. An empty list has no type.
pub proof fn law_lists_hold_their_values(a: Seq<Nbt>, b: Seq<Nbt>, v: Nbt)
    ensures
        list_payload(Seq::empty()) == Seq::<u8>::empty(),
        list_payload(seq![v]) == payload(v),
        list_payload(a + b) == list_payload(a) + list_payload(b),
        ({
            let p = payload(Nbt::List(a));
            &&& p[0] == (if a.len() == 0 {
                0
            } else {
                tag_id(a[0])
            })
            &&& be(p.subrange(1, 5)) == a.len() % 0x1_0000_0000
            &&& p.skip(5) == list_payload(a)
        }),
    decreases b.len(),
{
    lemma_span();
    let n = be_bytes(a.len(), 4);
    law_written_number_reads_back(a.len(), 4);
    assert(payload(Nbt::List(a)).subrange(1, 5) =~= n);
    assert(payload(Nbt::List(a)).skip(5) =~= list_payload(a));
    assert(seq![v].drop_last() =~= Seq::<Nbt>::empty());
    assert(list_payload(Seq::<Nbt>::empty()) =~= Seq::<u8>::empty());
    assert(list_payload(seq![v]) =~= payload(v));
    if b.len() > 0 {
        law_lists_hold_their_values(a, b.drop_last(), v);
        assert((a + b).drop_last() =~= a + b.drop_last());
        assert((a + b).last() == b.last());
        assert(list_payload(a + b) =~= list_payload(a) + list_payload(b));
    } else {
        assert(a + b =~= a);
        assert(list_payload(b) =~= Seq::<u8>::empty());
        assert(list_payload(a + b) =~= list_payload(a) + list_payload(b));
    }
}

/// A compound is its entries one behind the other and a zero. An entry is its type, its name and its
/// value. A file is a compound of the empty name.
pub proof fn law_compounds_hold_their_entries(
    a: Seq<(Seq<char>, Nbt)>,
    b: Seq<(Seq<char>, Nbt)>,
    e: (Seq<char>, Nbt),
)
    ensures
        entries_payload(Seq::empty()) == Seq::<u8>::empty(),
        entries_payload(seq![e]) == seq![tag_id(e.1)] + payload(Nbt::Text(e.0)) + payload(e.1),
        entries_payload(a + b) == entries_payload(a) + entries_payload(b),
        payload(Nbt::Compound(a)) == entries_payload(a).push(0),
        file_bytes(a) == seq![10u8, 0u8, 0u8] + payload(Nbt::Compound(a)),
    decreases b.len(),
{
    assert(seq![e].drop_last() =~= Seq::empty());
    assert(entries_payload(Seq::<(Seq<char>, Nbt)>::empty()) =~= Seq::<u8>::empty());
    assert(entry_bytes(e) == seq![tag_id(e.1)] + payload(Nbt::Text(e.0)) + payload(e.1));
    assert(entries_payload(seq![e]) =~= entry_bytes(e));
    if b.len() > 0 {
        law_compounds_hold_their_entries(a, b.drop_last(), e);
        assert((a + b).drop_last() =~= a + b.drop_last());
        assert((a + b).last() == b.last());
        assert(entries_payload(a + b) =~= entries_payload(a) + entries_payload(b));
    } else {
        assert(a + b =~= a);
        assert(entries_payload(b) =~= Seq::<u8>::empty());
        assert(entries_payload(a + b) =~= entries_payload(a) + entries_payload(b));
    }
}

/// Data that ends early is refused, and so is a length that is negative or that the data behind it
/// cannot meet. Any other length is accepted.
pub proof fn law_bad_lengths_are_refused(d: Seq<u8>, p: int, n: int)
    requires
        0 <= p,
        0 <= n,
    ensures
        p + n <= d.len() ==> fixed_at(d, p, n) == Ok::<(nat, int), Seq<char>>(
            (be(d.subrange(p, p + n)), p + n),
        ),
        p + n > d.len() ==> fixed_at(d, p, n) == Err::<(nat, int), Seq<char>>(
            "failed to fill whole buffer"@,
        ),
        p + 4 > d.len() ==> count_at(d, p) == Err::<(int, int), Seq<char>>(
            "failed to fill whole buffer"@,
        ),
        p + 4 <= d.len() ==> {
            let raw = be(d.subrange(p, p + 4));
            &&& raw >= 0x8000_0000 ==> count_at(d, p) == Err::<(int, int), Seq<char>>(
                "Negative NBT length"@,
            )
            &&& raw < 0x8000_0000 && raw > d.len() - p - 4 ==> count_at(d, p) == Err::<
                (int, int),
                Seq<char>,
            >("NBT length exceeds remaining data"@)
            &&& raw < 0x8000_0000 && raw <= d.len() - p - 4 ==> count_at(d, p) == Ok::<
                (int, int),
                Seq<char>,
            >((raw as int, p + 4))
        },
        p + 2 > d.len() ==> string_at(d, p) == Err::<(Seq<char>, int), Seq<char>>(
            "failed to fill whole buffer"@,
        ),
        p + 2 <= d.len() ==> {
            let raw = be(d.subrange(p, p + 2));
            &&& raw >= 32768 ==> string_at(d, p) == Err::<(Seq<char>, int), Seq<char>>(
                "Negative NBT length"@,
            )
            &&& raw < 32768 && raw > d.len() - p - 2 ==> string_at(d, p) == Err::<
                (Seq<char>, int),
                Seq<char>,
            >("NBT length exceeds remaining data"@)
            &&& raw < 32768 && raw <= d.len() - p - 2 ==> {
                let text = d.subrange(p + 2, p + 2 + raw);
                if valid_utf8(text) {
                    string_at(d, p) == Ok::<(Seq<char>, int), Seq<char>>(
                        (decode_utf8(text), p + 2 + raw),
                    )
                } else {
                    string_at(d, p) == Err::<(Seq<char>, int), Seq<char>>(utf8_error_text(text))
                }
            }
        },
{
    lemma_span();
    lemma_be_bound(d.subrange(p, p + 4));
    lemma_be_bound(d.subrange(p, p + 2));
}

/// A number is written in groups of seven bits, the lowest first. Every byte but the last has its
/// highest bit set.
pub proof fn law_varints_are_groups_of_seven_bits(v: nat, rest: nat, group: nat)
    requires
        v == 128 * rest + group,
        group < 128,
    ensures
        rest == 0 ==> varint(v).len() == 1 && varint(v)[0] == group,
        rest > 0 ==> varint(v).len() == 1 + varint(rest).len() && varint(v)[0] == group - 128
            && varint(v).skip(1) == varint(rest),
{
    if rest > 0 {
        assert(v % 128 == group && v / 128 == rest);
        assert(varint(v).skip(1) =~= varint(rest));
    }
}

/// A run of numbers is written one behind the other.
pub proof fn law_varints_stand_in_order(a: Seq<u16>, b: Seq<u16>, v: u16)
    ensures
        varints(Seq::empty()) == Seq::<i8>::empty(),
        varints(seq![v]) == varint(v as nat),
        varints(a + b) == varints(a) + varints(b),
    decreases b.len(),
{
    assert(seq![v].drop_last() =~= Seq::<u16>::empty());
    assert(varints(Seq::<u16>::empty()) =~= Seq::<i8>::empty());
    assert(varints(seq![v]) =~= varint(v as nat));
    if b.len() > 0 {
        law_varints_stand_in_order(a, b.drop_last(), v);
        assert((a + b).drop_last() =~= a + b.drop_last());
        assert((a + b).last() == b.last());
        assert(varints(a + b) =~= varints(a) + varints(b));
    } else {
        assert(a + b =~= a);
        assert(varints(b) =~= Seq::<i8>::empty());
        assert(varints(a + b) =~= varints(a) + varints(b));
    }
}

/// A number is read up to the first byte without its highest bit, each group of seven bits weighing
/// 128 times the one before it. Data that ends before it and a sixth byte are refused.
pub proof fn law_varint_is_read_group_by_group(b: Seq<i8>, i: int, k: nat)
    requires
        0 <= i,
    ensures
        i >= b.len() ==> varint_at(b, i, k) == Err::<(nat, int), Seq<char>>(
            "Unexpected end of varint data"@,
        ),
        i < b.len() && b[i] >= 0 ==> varint_at(b, i, k) == Ok::<(nat, int), Seq<char>>(
            (b[i] as nat, i + 1),
        ),
        i < b.len() && b[i] < 0 && k < 4 ==> match varint_at(b, i + 1, k + 1) {
            Ok((n, q)) => varint_at(b, i, k) == Ok::<(nat, int), Seq<char>>(
                ((128 + b[i] + 128 * n) as nat, q),
            ),
            Err(m) => varint_at(b, i, k) == Err::<(nat, int), Seq<char>>(m),
        },
        i < b.len() && b[i] < 0 && k >= 4 ==> varint_at(b, i, k) == Err::<(nat, int), Seq<char>>(
            "Varint too large"@,
        ),
{
}

/// Numbers are read one behind the other, as many as are asked for or as the data holds, and each is
/// cut to sixteen bits.
pub proof fn law_varints_are_read_in_order(b: Seq<i8>, i: int, n: nat, v: nat, q: int)
    requires
        0 <= i,
    ensures
        varints_at(b, i, 0) == Ok::<Seq<u16>, Seq<char>>(Seq::empty()),
        i >= b.len() ==> varints_at(b, i, n) == Ok::<Seq<u16>, Seq<char>>(Seq::empty()),
        i < b.len() ==> (varint_at(b, i, 0) matches Err(m) ==> varints_at(b, i, n + 1) == Err::<
            Seq<u16>,
            Seq<char>,
        >(m)),
        i < b.len() && varint_at(b, i, 0) == Ok::<(nat, int), Seq<char>>((v, q)) ==> match varints_at(
            b,
            q,
            n,
        ) {
            Ok(rest) => varints_at(b, i, n + 1) matches Ok(s) && s.len() == 1 + rest.len() && s[0] == v
                % 65536 && s.skip(1) == rest,
            Err(m) => varints_at(b, i, n + 1) == Err::<Seq<u16>, Seq<char>>(m),
        },
{
    if i < b.len() && varint_at(b, i, 0) == Ok::<(nat, int), Seq<char>>((v, q)) {
        if let Ok(rest) = varints_at(b, q, n) {
            assert((seq![(v % 65536) as u16] + rest).skip(1) =~= rest);
        }
    }
}

/// A compound is read entry by entry up to the zero behind them, a later entry taking the place of an
/// earlier one of its name. An error in a name or a value is that of the compound.
pub proof fn law_compound_is_read_entry_by_entry(d: Seq<u8>, p: int, acc: Seq<(Seq<char>, Nbt)>)
    requires
        0 <= p,
    ensures
        p >= d.len() ==> entries_at(d, p, acc) is Err,
        p < d.len() && d[p] == 0 ==> entries_at(d, p, acc) == Ok::<
            (Seq<(Seq<char>, Nbt)>, int),
            Seq<char>,
        >((acc, p + 1)),
        p < d.len() && d[p] != 0 ==> match string_at(d, p + 1) {
            Err(m) => entries_at(d, p, acc) == Err::<(Seq<(Seq<char>, Nbt)>, int), Seq<char>>(m),
            Ok((name, q)) => match tag_at(d, q, d[p]) {
                Err(m) => entries_at(d, p, acc) == Err::<(Seq<(Seq<char>, Nbt)>, int), Seq<char>>(
                    m,
                ),
                Ok((v, e)) => q <= e <= d.len() ==> entries_at(d, p, acc) == entries_at(
                    d,
                    e,
                    put(acc, name, v),
                ),
            },
        },
{
    if p < d.len() {
        let s = d.subrange(p, p + 1);
        law_bytes_are_weighed_from_the_front(Seq::empty(), d[p]);
        assert(s =~= Seq::<u8>::empty().push(d[p]));
    }
}

/// A list is read value by value.
pub proof fn law_list_is_read_value_by_value(d: Seq<u8>, p: int, tag: u8, n: nat)
    requires
        0 <= p,
    ensures
        list_at(d, p, tag, 0) == Ok::<(Seq<Nbt>, int), Seq<char>>((Seq::empty(), p)),
        match tag_at(d, p, tag) {
            Err(m) => list_at(d, p, tag, n + 1) == Err::<(Seq<Nbt>, int), Seq<char>>(m),
            Ok((v, q)) => p <= q <= d.len() ==> match list_at(d, q, tag, n) {
                Err(m) => list_at(d, p, tag, n + 1) == Err::<(Seq<Nbt>, int), Seq<char>>(m),
                Ok((rest, e)) => list_at(d, p, tag, n + 1) == Ok::<(Seq<Nbt>, int), Seq<char>>(
                    (seq![v] + rest, e),
                ),
            },
        },
{
}

/// An unknown type is refused, and so is a file that starts with anything but a compound. The name
/// of the compound that a file holds does not matter.
pub proof fn law_unknown_types_are_refused(d: Seq<u8>, p: int, tag: u8)
    requires
        0 <= p,
    ensures
        tag == 0 || tag > 12 ==> tag_at(d, p, tag) == Err::<(Nbt, int), Seq<char>>(
            "Unknown NBT tag type: "@ + decimal(tag as int),
        ),
        d.len() == 0 ==> file_value(d) == Err::<Seq<(Seq<char>, Nbt)>, Seq<char>>(
            "failed to fill whole buffer"@,
        ),
        d.len() > 0 && d[0] != 10 ==> file_value(d) == Err::<Seq<(Seq<char>, Nbt)>, Seq<char>>(
            "Expected compound root, got tag type "@ + decimal(d[0] as int),
        ),
        d.len() > 0 && d[0] == 10 ==> match string_at(d, 1) {
            Err(m) => file_value(d) == Err::<Seq<(Seq<char>, Nbt)>, Seq<char>>(m),
            Ok((_, q)) => match entries_at(d, q, Seq::empty()) {
                Err(m) => file_value(d) == Err::<Seq<(Seq<char>, Nbt)>, Seq<char>>(m),
                Ok((c, _)) => file_value(d) == Ok::<Seq<(Seq<char>, Nbt)>, Seq<char>>(c),
            },
        },
{
    if d.len() > 0 {
        law_bytes_are_weighed_from_the_front(Seq::empty(), d[0]);
        assert(d.subrange(0, 1) =~= Seq::<u8>::empty().push(d[0]));
    }
}

/// Whether a value is refused with the message.
pub open spec fn value_refused(r: Result<(Nbt, int), Seq<char>>, message: Seq<char>) -> bool {
    r == Err::<(Nbt, int), Seq<char>>(message)
}

/// A number whose bytes are not all there is refused, and so is an array whose numbers are not all
/// there. A length, a string or a value inside that is refused is the answer for the whole.
pub proof fn law_short_values_are_refused(d: Seq<u8>, p: int)
    requires
        0 <= p,
    ensures
        p + 1 > d.len() ==> value_refused(tag_at(d, p, 1), "failed to fill whole buffer"@),
        p + 2 > d.len() ==> value_refused(tag_at(d, p, 2), "failed to fill whole buffer"@),
        p + 4 > d.len() ==> value_refused(tag_at(d, p, 3), "failed to fill whole buffer"@),
        p + 8 > d.len() ==> value_refused(tag_at(d, p, 4), "failed to fill whole buffer"@),
        p + 4 > d.len() ==> value_refused(tag_at(d, p, 5), "failed to fill whole buffer"@),
        p + 8 > d.len() ==> value_refused(tag_at(d, p, 6), "failed to fill whole buffer"@),
        p + 1 > d.len() ==> value_refused(tag_at(d, p, 9), "failed to fill whole buffer"@),
        count_at(d, p) matches Err(m) ==> value_refused(tag_at(d, p, 7), m) && value_refused(
            tag_at(d, p, 11),
            m,
        ) && value_refused(tag_at(d, p, 12), m),
        count_at(d, p) matches Ok((n, q)) ==> {
            &&& q + 4 * n > d.len() ==> value_refused(
                tag_at(d, p, 11),
                "failed to fill whole buffer"@,
            )
            &&& q + 8 * n > d.len() ==> value_refused(
                tag_at(d, p, 12),
                "failed to fill whole buffer"@,
            )
        },
        string_at(d, p) matches Err(m) ==> value_refused(tag_at(d, p, 8), m),
        p + 1 <= d.len() ==> match count_at(d, p + 1) {
            Err(m) => value_refused(tag_at(d, p, 9), m),
            Ok((n, q)) => match list_at(d, q, d[p], n as nat) {
                Err(m) => value_refused(tag_at(d, p, 9), m),
                Ok((l, e)) => tag_at(d, p, 9) == Ok::<(Nbt, int), Seq<char>>((Nbt::List(l), e)),
            },
        },
        match entries_at(d, p, Seq::empty()) {
            Err(m) => value_refused(tag_at(d, p, 10), m),
            Ok((c, e)) => tag_at(d, p, 10) == Ok::<(Nbt, int), Seq<char>>((Nbt::Compound(c), e)),
        },
{
    if p + 1 <= d.len() {
        law_bytes_are_weighed_from_the_front(Seq::empty(), d[p]);
        assert(d.subrange(p, p + 1) =~= Seq::<u8>::empty().push(d[p]));
    }
}

/// A number is read from its bytes in two's complement, most significant byte first.
pub proof fn law_numbers_are_read_from_their_bytes(d: Seq<u8>, p: int)
    requires
        0 <= p,
    ensures
        p + 1 <= d.len() ==> (tag_at(d, p, 1) matches Ok((Nbt::Byte(v), q)) && q == p + 1 && (v
            - be(d.subrange(p, p + 1))) % 256 == 0),
        p + 2 <= d.len() ==> (tag_at(d, p, 2) matches Ok((Nbt::Short(v), q)) && q == p + 2 && (v
            - be(d.subrange(p, p + 2))) % 65536 == 0),
        p + 4 <= d.len() ==> (tag_at(d, p, 3) matches Ok((Nbt::Int(v), q)) && q == p + 4 && (v - be(
            d.subrange(p, p + 4),
        )) % 0x1_0000_0000 == 0),
        p + 8 <= d.len() ==> (tag_at(d, p, 4) matches Ok((Nbt::Long(v), q)) && q == p + 8 && (v
            - be(d.subrange(p, p + 8))) % 0x1_0000_0000_0000_0000 == 0),
        p + 4 <= d.len() ==> (tag_at(d, p, 5) matches Ok((Nbt::Float(v), q)) && q == p + 4 && v
            == be(d.subrange(p, p + 4))),
        p + 8 <= d.len() ==> (tag_at(d, p, 6) matches Ok((Nbt::Double(v), q)) && q == p + 8 && v
            == be(d.subrange(p, p + 8))),
{
    lemma_span();
    lemma_be_bound(d.subrange(p, p + 1));
    lemma_be_bound(d.subrange(p, p + 2));
    lemma_be_bound(d.subrange(p, p + 4));
    lemma_be_bound(d.subrange(p, p + 8));
}

} // verus!
