//! Writing NBT as bytes.
use vstd::prelude::*;
use vstd::string::*;
use vstd::utf8::*;

use crate::bytes::{
    be_bytes, lemma_be_bytes_mod, lemma_span, push_be16, push_be32, push_be64, unsigned,
    unsigned16, unsigned32, unsigned64, unsigned8,
};
use crate::names::NameMap;
use crate::nbt::{entries_view, list_view, Nbt, NbtValue};

verus! {

/// The number that marks the type of a value.
pub open spec fn tag_id(n: Nbt) -> u8 {
    match n {
        Nbt::Byte(_) => 1,
        Nbt::Short(_) => 2,
        Nbt::Int(_) => 3,
        Nbt::Long(_) => 4,
        Nbt::Float(_) => 5,
        Nbt::Double(_) => 6,
        Nbt::ByteArray(_) => 7,
        Nbt::Text(_) => 8,
        Nbt::List(_) => 9,
        Nbt::Compound(_) => 10,
        Nbt::IntArray(_) => 11,
        Nbt::LongArray(_) => 12,
    }
}

/// A string: the lowest two bytes of its length in UTF-8, then that UTF-8.
pub open spec fn string_bytes(s: Seq<char>) -> Seq<u8> {
    be_bytes(encode_utf8(s).len(), 2) + encode_utf8(s)
}

/// Signed bytes, one behind the other.
pub open spec fn bytes_payload(s: Seq<i8>) -> Seq<u8> {
    s.map_values(|v: i8| unsigned(v as int, 256) as u8)
}

/// Four-byte numbers, one behind the other.
pub open spec fn ints_payload(s: Seq<i32>) -> Seq<u8>
    decreases s.len(),
{
    if s.len() == 0 {
        Seq::empty()
    } else {
        ints_payload(s.drop_last()) + be_bytes(unsigned(s.last() as int, 0x1_0000_0000), 4)
    }
}

/// Eight-byte numbers, one behind the other.
pub open spec fn longs_payload(s: Seq<i64>) -> Seq<u8>
    decreases s.len(),
{
    if s.len() == 0 {
        Seq::empty()
    } else {
        longs_payload(s.drop_last()) + be_bytes(
            unsigned(s.last() as int, 0x1_0000_0000_0000_0000),
            8,
        )
    }
}

/// The bytes of a value, without its type and its name.
pub open spec fn payload(n: Nbt) -> Seq<u8>
    decreases n,
{
    match n {
        Nbt::Byte(v) => seq![unsigned(v as int, 256) as u8],
        Nbt::Short(v) => be_bytes(unsigned(v as int, 65536), 2),
        Nbt::Int(v) => be_bytes(unsigned(v as int, 0x1_0000_0000), 4),
        Nbt::Long(v) => be_bytes(unsigned(v as int, 0x1_0000_0000_0000_0000), 8),
        Nbt::Float(v) => be_bytes(v as nat, 4),
        Nbt::Double(v) => be_bytes(v as nat, 8),
        Nbt::ByteArray(s) => be_bytes(s.len(), 4) + bytes_payload(s),
        Nbt::Text(s) => string_bytes(s),
        Nbt::List(s) => seq![list_tag(s)] + be_bytes(s.len(), 4) + list_payload(s),
        Nbt::Compound(s) => entries_payload(s).push(0),
        Nbt::IntArray(s) => be_bytes(s.len(), 4) + ints_payload(s),
        Nbt::LongArray(s) => be_bytes(s.len(), 4) + longs_payload(s),
    }
}

/// The type that a list announces: that of its first value.
pub open spec fn list_tag(s: Seq<Nbt>) -> u8 {
    if s.len() == 0 {
        0
    } else {
        tag_id(s[0])
    }
}

/// The values of a list, one behind the other.
pub open spec fn list_payload(s: Seq<Nbt>) -> Seq<u8>
    decreases s,
{
    if s.len() == 0 {
        Seq::empty()
    } else {
        list_payload(s.drop_last()) + payload(s.last())
    }
}

/// The entries of a compound, one behind the other: type, name, value.
pub open spec fn entries_payload(s: Seq<(Seq<char>, Nbt)>) -> Seq<u8>
    decreases s,
{
    if s.len() == 0 {
        Seq::empty()
    } else {
        entries_payload(s.drop_last()) + entry_bytes(s.last())
    }
}

/// One entry of a compound.
pub open spec fn entry_bytes(e: (Seq<char>, Nbt)) -> Seq<u8>
    decreases e,
{
    seq![tag_id(e.1)] + string_bytes(e.0) + payload(e.1)
}

/// A file of NBT: a compound without a name.
pub open spec fn file_bytes(c: Seq<(Seq<char>, Nbt)>) -> Seq<u8> {
    seq![10u8, 0u8, 0u8] + payload(Nbt::Compound(c))
}

/// The number that marks the type of a value.
pub fn nbt_tag_id(value: &NbtValue) -> (r: u8)
    ensures
        r == tag_id(value@),
{
    match value {
        NbtValue::Byte(_) => 1,
        NbtValue::Short(_) => 2,
        NbtValue::Int(_) => 3,
        NbtValue::Long(_) => 4,
        NbtValue::Float(_) => 5,
        NbtValue::Double(_) => 6,
        NbtValue::ByteArray(_) => 7,
        NbtValue::String(_) => 8,
        NbtValue::List(_) => 9,
        NbtValue::Compound(_) => 10,
        NbtValue::IntArray(_) => 11,
        NbtValue::LongArray(_) => 12,
    }
}

/// Writes the lowest four bytes of a length.
fn push_count(out: &mut Vec<u8>, len: usize)
    ensures
        final(out)@ == old(out)@ + be_bytes(len as nat, 4),
{
    proof {
        lemma_span();
        lemma_be_bytes_mod(len as nat, 4);
    }
    push_be32(out, (len as u64 % 0x1_0000_0000) as u32);
}

/// Writes a string.
fn push_string(out: &mut Vec<u8>, s: &str)
    ensures
        final(out)@ == old(out)@ + string_bytes(s@),
{
    let b = s.as_bytes();
    let n: usize = b.len();
    proof {
        lemma_span();
        lemma_be_bytes_mod(n as nat, 2);
    }
    push_be16(out, (n % 65536) as u16);
    let ghost head = out@;
    let mut i: usize = 0;
    assert(out@ =~= head + b@.take(0));
    while i < n
        invariant
            i <= n,
            n == b@.len(),
            out@ == head + b@.take(i as int),
        decreases n - i,
    {
        out.push(b[i]);
        i += 1;
        assert(out@ =~= head + b@.take(i as int));
    }
    assert(b@.take(n as int) =~= b@);
    assert(out@ =~= old(out)@ + string_bytes(s@));
}

/// Writes the bytes of a value, without its type and its name.
pub fn write_tag_payload(out: &mut Vec<u8>, value: &NbtValue)
    ensures
        final(out)@ == old(out)@ + payload(value@),
    decreases value,
{
    match value {
        NbtValue::Byte(v) => {
            out.push(unsigned8(*v));
            assert(out@ =~= old(out)@ + payload(value@));
        },
        NbtValue::Short(v) => push_be16(out, unsigned16(*v)),
        NbtValue::Int(v) => push_be32(out, unsigned32(*v)),
        NbtValue::Long(v) => push_be64(out, unsigned64(*v)),
        NbtValue::Float(v) => push_be32(out, *v),
        NbtValue::Double(v) => push_be64(out, *v),
        NbtValue::ByteArray(arr) => {
            push_count(out, arr.len());
            let ghost head = out@;
            let mut i: usize = 0;
            assert(out@ =~= head + bytes_payload(arr@).take(0));
            while i < arr.len()
                invariant
                    i <= arr@.len(),
                    out@ == head + bytes_payload(arr@).take(i as int),
                decreases arr@.len() - i,
            {
                out.push(unsigned8(arr[i]));
                i += 1;
                assert(out@ =~= head + bytes_payload(arr@).take(i as int));
            }
            assert(out@ =~= old(out)@ + payload(value@));
        },
        NbtValue::String(s) => push_string(out, s.as_str()),
        NbtValue::List(list) => write_list(out, list),
        NbtValue::Compound(map) => write_entries(out, map),
        NbtValue::IntArray(arr) => {
            push_count(out, arr.len());
            let ghost head = out@;
            let mut i: usize = 0;
            assert(out@ =~= head + ints_payload(arr@.take(0)));
            while i < arr.len()
                invariant
                    i <= arr@.len(),
                    out@ == head + ints_payload(arr@.take(i as int)),
                decreases arr@.len() - i,
            {
                push_be32(out, unsigned32(arr[i]));
                i += 1;
                assert(arr@.take(i as int).drop_last() =~= arr@.take(i - 1));
                assert(out@ =~= head + ints_payload(arr@.take(i as int)));
            }
            assert(arr@.take(i as int) =~= arr@);
            assert(out@ =~= old(out)@ + payload(value@));
        },
        NbtValue::LongArray(arr) => {
            push_count(out, arr.len());
            let ghost head = out@;
            let mut i: usize = 0;
            assert(out@ =~= head + longs_payload(arr@.take(0)));
            while i < arr.len()
                invariant
                    i <= arr@.len(),
                    out@ == head + longs_payload(arr@.take(i as int)),
                decreases arr@.len() - i,
            {
                push_be64(out, unsigned64(arr[i]));
                i += 1;
                assert(arr@.take(i as int).drop_last() =~= arr@.take(i - 1));
                assert(out@ =~= head + longs_payload(arr@.take(i as int)));
            }
            assert(arr@.take(i as int) =~= arr@);
            assert(out@ =~= old(out)@ + payload(value@));
        },
    }
}

/// Writes the type and the length of a list, then its values.
fn write_list(out: &mut Vec<u8>, list: &Vec<NbtValue>)
    ensures
        final(out)@ == old(out)@ + payload(Nbt::List(list_view(list@))),
    decreases list,
{
    let elem_type: u8 = if list.len() == 0 {
        0
    } else {
        nbt_tag_id(&list[0])
    };
    out.push(elem_type);
    push_count(out, list.len());
    let ghost head = out@;
    let ghost l = list_view(list@);
    let mut i: usize = 0;
    assert(out@ =~= head + list_payload(l.take(0)));
    while i < list.len()
        invariant
            i <= list@.len(),
            l == list_view(list@),
            out@ == head + list_payload(l.take(i as int)),
        decreases list@.len() - i,
    {
        write_tag_payload(out, &list[i]);
        i += 1;
        proof {
            assert(l.take(i as int).drop_last() =~= l.take(i - 1));
            assert(l.take(i as int).last() == list@[i - 1]@);
            assert(out@ =~= head + list_payload(l.take(i as int)));
        }
    }
    assert(l.take(i as int) =~= l);
    assert(out@ =~= old(out)@ + payload(Nbt::List(l)));
}

/// Writes the entries of a compound and its end mark.
fn write_entries(out: &mut Vec<u8>, map: &NameMap<NbtValue>)
    ensures
        final(out)@ == old(out)@ + payload(Nbt::Compound(entries_view(map.entries@))),
    decreases map,
{
    let ghost head = out@;
    let ghost c = entries_view(map.entries@);
    let mut i: usize = 0;
    assert(out@ =~= head + entries_payload(c.take(0)));
    while i < map.entries.len()
        invariant
            i <= map.entries@.len(),
            c == entries_view(map.entries@),
            out@ == head + entries_payload(c.take(i as int)),
        decreases map.entries@.len() - i,
    {
        let entry = &map.entries[i];
        out.push(nbt_tag_id(&entry.1));
        push_string(out, entry.0.as_str());
        write_tag_payload(out, &entry.1);
        i += 1;
        proof {
            assert(c.take(i as int).drop_last() =~= c.take(i - 1));
            let e = (entry.0@, entry.1@);
            assert(c.take(i as int).last() == e);
            assert(entry_bytes(e) == seq![tag_id(e.1)] + string_bytes(e.0) + payload(e.1));
            assert(out@ =~= head + entries_payload(c.take(i as int)));
        }
    }
    assert(c.take(i as int) =~= c);
    out.push(0);
    assert(out@ =~= head + payload(Nbt::Compound(c)));
}

/// Writes the entries of a compound and its end mark; writes nothing for another value.
pub fn write_compound_payload(out: &mut Vec<u8>, value: &NbtValue)
    ensures
        final(out)@ == old(out)@ + (if value@ is Compound {
            payload(value@)
        } else {
            Seq::empty()
        }),
{
    match value {
        NbtValue::Compound(map) => write_entries(out, map),
        _ => {
            assert(out@ =~= old(out)@ + Seq::<u8>::empty());
        },
    }
}

/// A file of NBT that holds the value, which is meant to be a compound.
pub fn serialize_nbt_value(value: &NbtValue) -> (r: Vec<u8>)
    ensures
        r@ == seq![10u8, 0u8, 0u8] + (if value@ is Compound {
            payload(value@)
        } else {
            Seq::empty()
        }),
{
    let mut out: Vec<u8> = Vec::new();
    out.push(10);
    push_be16(&mut out, 0);
    proof {
        reveal_with_fuel(be_bytes, 3);
        assert(out@ =~= seq![10u8, 0u8, 0u8]);
    }
    write_compound_payload(&mut out, value);
    out
}

} // verus!
