//! What reading gives back of what was written.
use vstd::prelude::*;
use vstd::utf8::*;

use crate::bytes::{be, be_bytes, lemma_be_bound, lemma_be_bytes_len, lemma_be_roundtrip, lemma_span, signed, unsigned};
use crate::names::{distinct, lemma_put_distinct, lemma_slot, put};
use crate::nbt::Nbt;
use crate::nbt_read::{count_at, entries_at, file_value, fixed_at, list_at, string_at, tag_at};
use crate::nbt_write::{
    bytes_payload, entries_payload, entry_bytes, file_bytes, ints_payload, list_payload, list_tag,
    longs_payload, payload, string_bytes, tag_id,
};

verus! {

/// Whether the format can hold a string: its length in UTF-8 must fit a signed two-byte number.
pub open spec fn short_text(s: Seq<char>) -> bool {
    encode_utf8(s).len() <= 32767
}

/// Whether the format can hold a value: every length fits its field, the values of a list are of
/// one type, and no name occurs twice in a compound.
pub open spec fn writable(n: Nbt) -> bool
    decreases n,
{
    match n {
        Nbt::ByteArray(s) => s.len() <= i32::MAX,
        Nbt::Text(s) => short_text(s),
        Nbt::List(s) => s.len() <= i32::MAX && list_writable(s, list_tag(s)),
        Nbt::Compound(s) => distinct(s) && entries_writable(s),
        Nbt::IntArray(s) => s.len() <= i32::MAX,
        Nbt::LongArray(s) => s.len() <= i32::MAX,
        _ => true,
    }
}

/// All values can be written and are of type `tag`.
pub open spec fn list_writable(s: Seq<Nbt>, tag: u8) -> bool
    decreases s,
{
    forall|i: int| 0 <= i < s.len() ==> tag_id(#[trigger] s[i]) == tag && writable(s[i])
}

/// All names and values can be written.
pub open spec fn entries_writable(s: Seq<(Seq<char>, Nbt)>) -> bool
    decreases s,
{
    forall|i: int| 0 <= i < s.len() ==> short_text((#[trigger] s[i]).0) && writable(s[i].1)
}

/// The bytes `b` stand in `d` from place `p` on.
pub open spec fn holds_at(d: Seq<u8>, p: int, b: Seq<u8>) -> bool {
    0 <= p && p + b.len() <= d.len() && d.subrange(p, p + b.len()) == b
}

/// Two runs of bytes behind each other stand each at its own place.
proof fn lemma_holds_split(d: Seq<u8>, p: int, a: Seq<u8>, b: Seq<u8>)
    requires
        holds_at(d, p, a + b),
    ensures
        holds_at(d, p, a),
        holds_at(d, p + a.len(), b),
{
    let s = d.subrange(p, p + (a + b).len());
    assert(d.subrange(p, p + a.len()) =~= a) by {
        assert forall|i: int| 0 <= i < a.len() implies d[p + i] == a[i] by {
            assert(s[i] == (a + b)[i]);
        }
    }
    assert(d.subrange(p + a.len(), p + a.len() + b.len()) =~= b) by {
        assert forall|i: int| 0 <= i < b.len() implies d[p + a.len() + i] == b[i] by {
            assert(s[a.len() + i] == (a + b)[a.len() + i]);
        }
    }
}

proof fn lemma_fixed(d: Seq<u8>, p: int, n: nat, k: nat)
    requires
        holds_at(d, p, be_bytes(n, k)),
        n < crate::bytes::span(k),
    ensures
        fixed_at(d, p, k as int) == Ok::<(nat, int), Seq<char>>((n, p + k)),
{
    lemma_be_bytes_len(n, k);
    lemma_be_roundtrip(n, k);
}

proof fn lemma_byte(d: Seq<u8>, p: int, b: u8)
    requires
        holds_at(d, p, seq![b]),
    ensures
        fixed_at(d, p, 1) == Ok::<(nat, int), Seq<char>>((b as nat, p + 1)),
{
    reveal_with_fuel(be, 2);
    assert(seq![b].drop_last() =~= Seq::<u8>::empty());
}

proof fn lemma_string(d: Seq<u8>, p: int, s: Seq<char>)
    requires
        holds_at(d, p, string_bytes(s)),
        short_text(s),
    ensures
        string_at(d, p) == Ok::<(Seq<char>, int), Seq<char>>((s, p + string_bytes(s).len())),
{
    let e = encode_utf8(s);
    lemma_span();
    lemma_be_bytes_len(e.len(), 2);
    lemma_holds_split(d, p, be_bytes(e.len(), 2), e);
    lemma_fixed(d, p, e.len(), 2);
    encode_utf8_valid_utf8(s);
    encode_utf8_decode_utf8(s);
}

proof fn lemma_count(d: Seq<u8>, p: int, n: nat, rest: Seq<u8>)
    requires
        holds_at(d, p, be_bytes(n, 4) + rest),
        n <= i32::MAX,
        n <= rest.len(),
    ensures
        count_at(d, p) == Ok::<(int, int), Seq<char>>((n as int, p + 4)),
        holds_at(d, p + 4, rest),
{
    lemma_span();
    lemma_be_bytes_len(n, 4);
    lemma_holds_split(d, p, be_bytes(n, 4), rest);
    lemma_fixed(d, p, n, 4);
}

proof fn lemma_ints(s: Seq<i32>)
    ensures
        ints_payload(s).len() == 4 * s.len(),
        forall|i: int|
            0 <= i < s.len() ==> #[trigger] ints_payload(s).subrange(4 * i, 4 * i + 4) == be_bytes(
                unsigned(s[i] as int, 0x1_0000_0000),
                4,
            ),
    decreases s.len(),
{
    if s.len() > 0 {
        let t = s.drop_last();
        let b = be_bytes(unsigned(s.last() as int, 0x1_0000_0000), 4);
        lemma_ints(t);
        lemma_be_bytes_len(unsigned(s.last() as int, 0x1_0000_0000), 4);
        assert forall|i: int| 0 <= i < s.len() implies #[trigger] ints_payload(s).subrange(
            4 * i,
            4 * i + 4,
        ) == be_bytes(unsigned(s[i] as int, 0x1_0000_0000), 4) by {
            if i < t.len() {
                assert(ints_payload(s).subrange(4 * i, 4 * i + 4) =~= ints_payload(t).subrange(
                    4 * i,
                    4 * i + 4,
                ));
                assert(t[i] == s[i]);
            } else {
                assert(ints_payload(s).subrange(4 * i, 4 * i + 4) =~= b);
            }
        }
    }
}

proof fn lemma_longs(s: Seq<i64>)
    ensures
        longs_payload(s).len() == 8 * s.len(),
        forall|i: int|
            0 <= i < s.len() ==> #[trigger] longs_payload(s).subrange(8 * i, 8 * i + 8) == be_bytes(
                unsigned(s[i] as int, 0x1_0000_0000_0000_0000),
                8,
            ),
    decreases s.len(),
{
    if s.len() > 0 {
        let t = s.drop_last();
        let b = be_bytes(unsigned(s.last() as int, 0x1_0000_0000_0000_0000), 8);
        lemma_longs(t);
        lemma_be_bytes_len(unsigned(s.last() as int, 0x1_0000_0000_0000_0000), 8);
        assert forall|i: int| 0 <= i < s.len() implies #[trigger] longs_payload(s).subrange(
            8 * i,
            8 * i + 8,
        ) == be_bytes(unsigned(s[i] as int, 0x1_0000_0000_0000_0000), 8) by {
            if i < t.len() {
                assert(longs_payload(s).subrange(8 * i, 8 * i + 8) =~= longs_payload(t).subrange(
                    8 * i,
                    8 * i + 8,
                ));
                assert(t[i] == s[i]);
            } else {
                assert(longs_payload(s).subrange(8 * i, 8 * i + 8) =~= b);
            }
        }
    }
}

/// A list starts with its first value.
proof fn lemma_list_front(s: Seq<Nbt>)
    requires
        s.len() > 0,
    ensures
        list_payload(s) == payload(s[0]) + list_payload(s.drop_first()),
    decreases s.len(),
{
    if s.len() == 1 {
        assert(s.drop_last() =~= Seq::empty());
        assert(s.drop_first() =~= Seq::empty());
        assert(list_payload(s.drop_last()) =~= Seq::<u8>::empty());
        assert(list_payload(s) =~= payload(s[0]) + list_payload(s.drop_first()));
    } else {
        lemma_list_front(s.drop_last());
        assert(s.drop_last().drop_first() =~= s.drop_first().drop_last());
        assert(s.drop_first().last() == s.last());
        assert(list_payload(s) =~= payload(s[0]) + list_payload(s.drop_first()));
    }
}

/// The entries of a compound start with the first entry.
proof fn lemma_entries_front(s: Seq<(Seq<char>, Nbt)>)
    requires
        s.len() > 0,
    ensures
        entries_payload(s) == entry_bytes(s[0]) + entries_payload(s.drop_first()),
    decreases s.len(),
{
    if s.len() == 1 {
        assert(s.drop_last() =~= Seq::empty());
        assert(s.drop_first() =~= Seq::empty());
        assert(entries_payload(s.drop_last()) =~= Seq::<u8>::empty());
        assert(entries_payload(s) =~= entry_bytes(s[0]) + entries_payload(s.drop_first()));
    } else {
        lemma_entries_front(s.drop_last());
        assert(s.drop_last().drop_first() =~= s.drop_first().drop_last());
        assert(s.drop_first().last() == s.last());
        assert(entries_payload(s) =~= entry_bytes(s[0]) + entries_payload(s.drop_first()));
    }
}

/// Every value takes at least one byte.
proof fn lemma_payload_nonempty(n: Nbt)
    ensures
        payload(n).len() >= 1,
{
    match n {
        Nbt::Short(v) => lemma_be_bytes_len(unsigned(v as int, 65536), 2),
        Nbt::Int(v) => lemma_be_bytes_len(unsigned(v as int, 0x1_0000_0000), 4),
        Nbt::Long(v) => lemma_be_bytes_len(unsigned(v as int, 0x1_0000_0000_0000_0000), 8),
        Nbt::Float(v) => lemma_be_bytes_len(v as nat, 4),
        Nbt::Double(v) => lemma_be_bytes_len(v as nat, 8),
        Nbt::ByteArray(s) => lemma_be_bytes_len(s.len(), 4),
        Nbt::Text(s) => lemma_be_bytes_len(encode_utf8(s).len(), 2),
        Nbt::IntArray(s) => lemma_be_bytes_len(s.len(), 4),
        Nbt::LongArray(s) => lemma_be_bytes_len(s.len(), 4),
        _ => {},
    }
}

/// A list takes at least one byte for each of its values.
proof fn lemma_list_len(s: Seq<Nbt>)
    ensures
        list_payload(s).len() >= s.len(),
    decreases s.len(),
{
    if s.len() > 0 {
        lemma_list_len(s.drop_last());
        lemma_payload_nonempty(s.last());
    }
}

/// What was written of a value reads back as that value, wherever it stands and whatever
/// follows.
pub proof fn law_value_reads_back(d: Seq<u8>, p: int, n: Nbt)
    requires
        writable(n),
        holds_at(d, p, payload(n)),
    ensures
        tag_at(d, p, tag_id(n)) == Ok::<(Nbt, int), Seq<char>>((n, p + payload(n).len())),
    decreases n, 0nat,
{
    lemma_span();
    match n {
        Nbt::Byte(v) => {
            lemma_byte(d, p, unsigned(v as int, 256) as u8);
        },
        Nbt::Short(v) => {
            lemma_be_bytes_len(unsigned(v as int, 65536), 2);
            lemma_fixed(d, p, unsigned(v as int, 65536), 2);
        },
        Nbt::Int(v) => {
            lemma_be_bytes_len(unsigned(v as int, 0x1_0000_0000), 4);
            lemma_fixed(d, p, unsigned(v as int, 0x1_0000_0000), 4);
        },
        Nbt::Long(v) => {
            lemma_be_bytes_len(unsigned(v as int, 0x1_0000_0000_0000_0000), 8);
            lemma_fixed(d, p, unsigned(v as int, 0x1_0000_0000_0000_0000), 8);
        },
        Nbt::Float(v) => {
            lemma_be_bytes_len(v as nat, 4);
            lemma_fixed(d, p, v as nat, 4);
        },
        Nbt::Double(v) => {
            lemma_be_bytes_len(v as nat, 8);
            lemma_fixed(d, p, v as nat, 8);
        },
        Nbt::ByteArray(s) => {
            lemma_be_bytes_len(s.len(), 4);
            lemma_count(d, p, s.len(), bytes_payload(s));
            let q = p + 4;
            let t = Seq::new(s.len(), |i: int| signed(d[q + i] as int, 256) as i8);
            assert forall|i: int| 0 <= i < s.len() implies t[i] == s[i] by {
                assert(d.subrange(q, q + s.len())[i] == bytes_payload(s)[i]);
            }
            assert(t =~= s);
        },
        Nbt::Text(s) => {
            lemma_string(d, p, s);
        },
        Nbt::List(s) => {
            let head = seq![list_tag(s)];
            let rest = be_bytes(s.len(), 4) + list_payload(s);
            assert(payload(n) =~= head + rest);
            lemma_holds_split(d, p, head, rest);
            lemma_byte(d, p, list_tag(s));
            lemma_be_bytes_len(s.len(), 4);
            lemma_list_len(s);
            lemma_count(d, p + 1, s.len(), list_payload(s));
            lemma_list_reads_back(d, p + 5, s, list_tag(s));
        },
        Nbt::Compound(s) => {
            assert(Seq::<(Seq<char>, Nbt)>::empty() + s =~= s);
            lemma_entries_read_back(d, p, Seq::empty(), s);
        },
        Nbt::IntArray(s) => {
            lemma_be_bytes_len(s.len(), 4);
            lemma_ints(s);
            lemma_count(d, p, s.len(), ints_payload(s));
            let q = p + 4;
            let b = ints_payload(s);
            let t = Seq::new(
                s.len(),
                |i: int|
                    signed(be(d.subrange(q + 4 * i, q + 4 * i + 4)) as int, 0x1_0000_0000) as i32,
            );
            assert forall|i: int| 0 <= i < s.len() implies t[i] == s[i] by {
                assert(d.subrange(q + 4 * i, q + 4 * i + 4) =~= d.subrange(
                    q,
                    q + b.len(),
                ).subrange(4 * i, 4 * i + 4));
                assert(b.subrange(4 * i, 4 * i + 4) == be_bytes(
                    unsigned(s[i] as int, 0x1_0000_0000),
                    4,
                ));
                lemma_be_roundtrip(unsigned(s[i] as int, 0x1_0000_0000), 4);
            }
            assert(t =~= s);
        },
        Nbt::LongArray(s) => {
            lemma_be_bytes_len(s.len(), 4);
            lemma_longs(s);
            lemma_count(d, p, s.len(), longs_payload(s));
            let q = p + 4;
            let b = longs_payload(s);
            let t = Seq::new(
                s.len(),
                |i: int|
                    signed(
                        be(d.subrange(q + 8 * i, q + 8 * i + 8)) as int,
                        0x1_0000_0000_0000_0000,
                    ) as i64,
            );
            assert forall|i: int| 0 <= i < s.len() implies t[i] == s[i] by {
                assert(d.subrange(q + 8 * i, q + 8 * i + 8) =~= d.subrange(
                    q,
                    q + b.len(),
                ).subrange(8 * i, 8 * i + 8));
                assert(b.subrange(8 * i, 8 * i + 8) == be_bytes(
                    unsigned(s[i] as int, 0x1_0000_0000_0000_0000),
                    8,
                ));
                lemma_be_roundtrip(unsigned(s[i] as int, 0x1_0000_0000_0000_0000), 8);
            }
            assert(t =~= s);
        },
    }
}

proof fn lemma_list_reads_back(d: Seq<u8>, p: int, s: Seq<Nbt>, tag: u8)
    requires
        list_writable(s, tag),
        holds_at(d, p, list_payload(s)),
    ensures
        list_at(d, p, tag, s.len()) == Ok::<(Seq<Nbt>, int), Seq<char>>(
            (s, p + list_payload(s).len()),
        ),
    decreases s, 1nat,
{
    if s.len() == 0 {
        assert(s =~= Seq::empty());
    } else {
        let t = s.drop_first();
        lemma_list_front(s);
        lemma_holds_split(d, p, payload(s[0]), list_payload(t));
        law_value_reads_back(d, p, s[0]);
        assert forall|i: int| 0 <= i < t.len() implies tag_id(#[trigger] t[i]) == tag && writable(
            t[i],
        ) by {
            assert(t[i] == s[i + 1]);
        }
        lemma_list_reads_back(d, p + payload(s[0]).len(), t, tag);
        assert(seq![s[0]] + t =~= s);
    }
}

proof fn lemma_entries_read_back(
    d: Seq<u8>,
    p: int,
    acc: Seq<(Seq<char>, Nbt)>,
    s: Seq<(Seq<char>, Nbt)>,
)
    requires
        entries_writable(s),
        distinct(acc + s),
        holds_at(d, p, entries_payload(s).push(0)),
    ensures
        entries_at(d, p, acc) == Ok::<(Seq<(Seq<char>, Nbt)>, int), Seq<char>>(
            (acc + s, p + entries_payload(s).len() + 1),
        ),
    decreases s, 1nat,
{
    if s.len() == 0 {
        assert(entries_payload(s).push(0) =~= seq![0u8]);
        lemma_byte(d, p, 0);
        assert(acc + s =~= acc);
    } else {
        let t = s.drop_first();
        let (k, v) = s[0];
        lemma_entries_front(s);
        let tail = entries_payload(t).push(0);
        assert(entries_payload(s).push(0) =~= entry_bytes(s[0]) + tail);
        lemma_holds_split(d, p, entry_bytes(s[0]), tail);
        let named = string_bytes(k) + payload(v);
        assert(entry_bytes(s[0]) =~= seq![tag_id(v)] + named);
        lemma_holds_split(d, p, seq![tag_id(v)], named);
        lemma_byte(d, p, tag_id(v));
        lemma_holds_split(d, p + 1, string_bytes(k), payload(v));
        lemma_string(d, p + 1, k);
        let r = p + 1 + string_bytes(k).len();
        law_value_reads_back(d, r, v);
        // The name is new, so it goes to the end.
        lemma_slot(acc, k);
        if crate::names::slot(acc, k) < acc.len() {
            let i = crate::names::slot(acc, k);
            assert((acc + s)[i].0 != (acc + s)[acc.len() as int].0);
        }
        assert(put(acc, k, v) + t =~= acc + s);
        assert forall|i: int| 0 <= i < t.len() implies short_text((#[trigger] t[i]).0) && writable(
            t[i].1,
        ) by {
            assert(t[i] == s[i + 1]);
        }
        lemma_entries_read_back(d, r + payload(v).len(), put(acc, k, v), t);
    }
}

/// A compound that was written to a file reads back as that compound.
pub proof fn law_file_reads_back(c: Seq<(Seq<char>, Nbt)>)
    requires
        writable(Nbt::Compound(c)),
    ensures
        file_value(file_bytes(c)) == Ok::<Seq<(Seq<char>, Nbt)>, Seq<char>>(c),
{
    let d = file_bytes(c);
    let head = seq![10u8];
    let name = string_bytes(Seq::empty());
    reveal_with_fuel(be_bytes, 3);
    assert(encode_utf8(Seq::<char>::empty()) =~= Seq::<u8>::empty());
    assert(name =~= seq![0u8, 0u8]);
    assert(d =~= head + (name + payload(Nbt::Compound(c))));
    assert(d.subrange(0, d.len() as int) =~= d);
    lemma_holds_split(d, 0, head, name + payload(Nbt::Compound(c)));
    lemma_byte(d, 0, 10);
    lemma_holds_split(d, 1, name, payload(Nbt::Compound(c)));
    lemma_string(d, 1, Seq::empty());
    assert(Seq::<(Seq<char>, Nbt)>::empty() + c =~= c);
    lemma_entries_read_back(d, 3, Seq::empty(), c);
}

proof fn lemma_string_read(d: Seq<u8>, p: int)
    requires
        0 <= p,
    ensures
        string_at(d, p) matches Ok((s, q)) ==> short_text(s) && p < q <= d.len(),
{
    lemma_span();
    if p + 2 <= d.len() {
        lemma_be_bound(d.subrange(p, p + 2));
        if let Ok((s, q)) = string_at(d, p) {
            let b = d.subrange(p + 2, q);
            decode_utf8_encode_utf8(b);
        }
    }
}

proof fn lemma_count_read(d: Seq<u8>, p: int)
    requires
        0 <= p,
    ensures
        count_at(d, p) matches Ok((n, q)) ==> 0 <= n <= i32::MAX && q == p + 4 && q + n <= d.len(),
{
    lemma_span();
    if p + 4 <= d.len() {
        lemma_be_bound(d.subrange(p, p + 4));
    }
}

/// Whatever is read can be written again: it is of the type asked for, and the format can hold
/// it. It ends behind its start and within the data.
pub proof fn law_read_can_be_written(d: Seq<u8>, p: int, tag: u8)
    requires
        0 <= p,
    ensures
        tag_at(d, p, tag) matches Ok((v, q)) ==> {
            &&& writable(v)
            &&& tag_id(v) == tag
            &&& p < q <= d.len()
        },
    decreases d.len() - p, 1nat, 0nat,
{
    if tag == 7 || tag == 11 || tag == 12 {
        lemma_count_read(d, p);
    } else if tag == 8 {
        lemma_string_read(d, p);
    } else if tag == 9 {
        lemma_count_read(d, p + 1);
        if let Ok((t, q)) = fixed_at(d, p, 1) {
            if let Ok((n, r)) = count_at(d, q) {
                lemma_list_read(d, r, t as u8, n as nat);
            }
        }
    } else if tag == 10 {
        lemma_entries_read(d, p, Seq::empty());
    }
}

proof fn lemma_list_read(d: Seq<u8>, p: int, tag: u8, n: nat)
    requires
        0 <= p <= d.len(),
    ensures
        list_at(d, p, tag, n) matches Ok((s, q)) ==> {
            &&& s.len() == n
            &&& list_writable(s, tag)
            &&& p <= q <= d.len()
        },
    decreases d.len() - p, 2nat, n,
{
    if n > 0 {
        law_read_can_be_written(d, p, tag);
        if let Ok((v, q)) = tag_at(d, p, tag) {
            lemma_list_read(d, q, tag, (n - 1) as nat);
            if let Ok((rest, e)) = list_at(d, q, tag, (n - 1) as nat) {
                let s = seq![v] + rest;
                assert forall|i: int| 0 <= i < s.len() implies tag_id(#[trigger] s[i]) == tag
                    && writable(s[i]) by {
                    if i > 0 {
                        assert(s[i] == rest[i - 1]);
                    }
                }
            }
        }
    }
}

proof fn lemma_entries_read(d: Seq<u8>, p: int, acc: Seq<(Seq<char>, Nbt)>)
    requires
        0 <= p,
        distinct(acc),
        entries_writable(acc),
    ensures
        entries_at(d, p, acc) matches Ok((c, q)) ==> {
            &&& distinct(c)
            &&& entries_writable(c)
            &&& p < q <= d.len()
        },
    decreases d.len() - p, 0nat, 0nat,
{
    if let Ok((t, q)) = fixed_at(d, p, 1) {
        if t != 0 {
            lemma_string_read(d, q);
            if let Ok((name, r)) = string_at(d, q) {
                law_read_can_be_written(d, r, t as u8);
                if let Ok((v, e)) = tag_at(d, r, t as u8) {
                    let next = put(acc, name, v);
                    lemma_put_distinct(acc, name, v);
                    lemma_slot(acc, name);
                    assert forall|i: int| 0 <= i < next.len() implies short_text(
                        (#[trigger] next[i]).0,
                    ) && writable(next[i].1) by {
                        if next[i] != (name, v) {
                            assert(next[i] == acc[i]);
                        }
                    }
                    lemma_entries_read(d, e, next);
                }
            }
        }
    }
}

/// A file that was read can be written again, and reads back as the same compound.
pub proof fn law_file_survives_rewriting(d: Seq<u8>)
    ensures
        file_value(d) matches Ok(c) ==> file_value(file_bytes(c)) == Ok::<
            Seq<(Seq<char>, Nbt)>,
            Seq<char>,
        >(c),
{
    if let Ok(c) = file_value(d) {
        lemma_string_read(d, 1);
        if let Ok((_, q)) = string_at(d, 1) {
            lemma_entries_read(d, q, Seq::empty());
        }
        law_file_reads_back(c);
    }
}

} // verus!
