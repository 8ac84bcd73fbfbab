//! NBT values: the tagged tree that schematic files are made of.
use vstd::prelude::*;
use vstd::string::*;

use crate::names::{lemma_slot, lemma_slot_is, lookup, put, slot, NameMap};

verus! {

/// What an NBT value is, apart from how it is held in memory. Floating-point numbers are
/// carried as their bits.
pub enum Nbt {
    Byte(i8),
    Short(i16),
    Int(i32),
    Long(i64),
    Float(u32),
    Double(u64),
    ByteArray(Seq<i8>),
    Text(Seq<char>),
    List(Seq<Nbt>),
    Compound(Seq<(Seq<char>, Nbt)>),
    IntArray(Seq<i32>),
    LongArray(Seq<i64>),
}

/// An NBT value. Floating-point numbers are held as their bits: nothing here computes with
/// them.
#[derive(Debug)]
pub enum NbtValue {
    Byte(i8),
    Short(i16),
    Int(i32),
    Long(i64),
    Float(u32),
    Double(u64),
    ByteArray(Vec<i8>),
    String(String),
    List(Vec<NbtValue>),
    Compound(NameMap<NbtValue>),
    IntArray(Vec<i32>),
    LongArray(Vec<i64>),
}

/// The views of the values of a list.
pub open spec fn list_view(s: Seq<NbtValue>) -> Seq<Nbt>
    decreases s,
{
    Seq::new(
        s.len(),
        |i: int|
            if 0 <= i < s.len() {
                s[i].model()
            } else {
                arbitrary()
            },
    )
}

/// The views of the entries of a compound.
pub open spec fn entries_view(s: Seq<(String, NbtValue)>) -> Seq<(Seq<char>, Nbt)>
    decreases s,
{
    Seq::new(
        s.len(),
        |i: int|
            if 0 <= i < s.len() {
                (s[i].0@, s[i].1.model())
            } else {
                arbitrary()
            },
    )
}

impl NbtValue {
    /// The value that is held.
    pub open spec fn model(self) -> Nbt
        decreases self,
    {
        match self {
            NbtValue::Byte(v) => Nbt::Byte(v),
            NbtValue::Short(v) => Nbt::Short(v),
            NbtValue::Int(v) => Nbt::Int(v),
            NbtValue::Long(v) => Nbt::Long(v),
            NbtValue::Float(v) => Nbt::Float(v),
            NbtValue::Double(v) => Nbt::Double(v),
            NbtValue::ByteArray(v) => Nbt::ByteArray(v@),
            NbtValue::String(v) => Nbt::Text(v@),
            NbtValue::List(v) => Nbt::List(list_view(v@)),
            NbtValue::Compound(m) => Nbt::Compound(entries_view(m.entries@)),
            NbtValue::IntArray(v) => Nbt::IntArray(v@),
            NbtValue::LongArray(v) => Nbt::LongArray(v@),
        }
    }
}

impl View for NbtValue {
    type V = Nbt;

    open spec fn view(&self) -> Nbt {
        self.model()
    }
}

/// A name has the same slot in a map and in the view of its entries.
pub proof fn lemma_slot_view(m: NameMap<NbtValue>, key: Seq<char>)
    ensures
        slot(entries_view(m.entries@), key) == slot(m@, key),
{
    lemma_slot(m@, key);
    assert forall|k: int| 0 <= k < m@.len() implies (#[trigger] entries_view(m.entries@)[k]).0
        == m@[k].0 by {}
    lemma_slot_is(entries_view(m.entries@), key, slot(m@, key));
}

/// Storing a value and taking the view commute, whatever the map is held in afterwards.
pub proof fn lemma_put_view(m: NameMap<NbtValue>, key: Seq<char>, value: NbtValue)
    ensures
        forall|n: NameMap<NbtValue>|
            n@ == put(m@, key, value) ==> #[trigger] entries_view(n.entries@) == put(
                entries_view(m.entries@),
                key,
                value@,
            ),
{
    lemma_slot_view(m, key);
    lemma_slot(m@, key);
    assert forall|n: NameMap<NbtValue>| n@ == put(m@, key, value) implies #[trigger] entries_view(
        n.entries@,
    ) == put(entries_view(m.entries@), key, value@) by {
        let a = entries_view(n.entries@);
        let b = put(entries_view(m.entries@), key, value@);
        assert(a.len() == n@.len());
        assert forall|i: int| 0 <= i < a.len() implies a[i] == b[i] by {
            assert(n@[i] == (n.entries@[i].0@, n.entries@[i].1));
            if i < m@.len() {
                assert(m@[i] == (m.entries@[i].0@, m.entries@[i].1));
            }
        }
        assert(a =~= b);
    }
}

/// The compound stored under a name.
pub open spec fn compound_in(c: Seq<(Seq<char>, Nbt)>, key: Seq<char>) -> Option<
    Seq<(Seq<char>, Nbt)>,
> {
    match lookup(c, key) {
        Some(Nbt::Compound(m)) => Some(m),
        _ => None,
    }
}

/// The string stored under a name.
pub open spec fn text_in(c: Seq<(Seq<char>, Nbt)>, key: Seq<char>) -> Option<Seq<char>> {
    match lookup(c, key) {
        Some(Nbt::Text(s)) => Some(s),
        _ => None,
    }
}

/// The four-byte number stored under a name.
pub open spec fn int_in(c: Seq<(Seq<char>, Nbt)>, key: Seq<char>) -> Option<i32> {
    match lookup(c, key) {
        Some(Nbt::Int(v)) => Some(v),
        _ => None,
    }
}

/// The two-byte number stored under a name.
pub open spec fn short_in(c: Seq<(Seq<char>, Nbt)>, key: Seq<char>) -> Option<i16> {
    match lookup(c, key) {
        Some(Nbt::Short(v)) => Some(v),
        _ => None,
    }
}

/// The list stored under a name.
pub open spec fn list_in(c: Seq<(Seq<char>, Nbt)>, key: Seq<char>) -> Option<Seq<Nbt>> {
    match lookup(c, key) {
        Some(Nbt::List(l)) => Some(l),
        _ => None,
    }
}

/// The long array stored under a name.
pub open spec fn longs_in(c: Seq<(Seq<char>, Nbt)>, key: Seq<char>) -> Option<Seq<i64>> {
    match lookup(c, key) {
        Some(Nbt::LongArray(a)) => Some(a),
        _ => None,
    }
}

/// The byte array stored under a name.
pub open spec fn bytes_in(c: Seq<(Seq<char>, Nbt)>, key: Seq<char>) -> Option<Seq<i8>> {
    match lookup(c, key) {
        Some(Nbt::ByteArray(a)) => Some(a),
        _ => None,
    }
}

/// The int array stored under a name.
pub open spec fn ints_in(c: Seq<(Seq<char>, Nbt)>, key: Seq<char>) -> Option<Seq<i32>> {
    match lookup(c, key) {
        Some(Nbt::IntArray(a)) => Some(a),
        _ => None,
    }
}

/// The value stored under a name.
pub fn get_value<'a>(map: &'a NameMap<NbtValue>, key: &str) -> (r: Option<&'a NbtValue>)
    ensures
        match r {
            Some(v) => lookup(entries_view(map.entries@), key@) == Some(v@),
            None => lookup(entries_view(map.entries@), key@) is None,
        },
{
    proof {
        lemma_slot(map@, key@);
        lemma_slot_view(*map, key@);
    }
    match map.position(key) {
        Some(i) => Some(&map.entries[i].1),
        None => None,
    }
}

/// The compound stored under a name.
pub fn get_compound<'a>(map: &'a NameMap<NbtValue>, key: &str) -> (r: Option<
    &'a NameMap<NbtValue>,
>)
    ensures
        match r {
            Some(m) => compound_in(entries_view(map.entries@), key@) == Some(
                entries_view(m.entries@),
            ),
            None => compound_in(entries_view(map.entries@), key@) is None,
        },
{
    match get_value(map, key) {
        Some(NbtValue::Compound(m)) => Some(m),
        _ => None,
    }
}

/// The string stored under a name.
pub fn get_string(map: &NameMap<NbtValue>, key: &str) -> (r: Option<String>)
    ensures
        match r {
            Some(s) => text_in(entries_view(map.entries@), key@) == Some(s@),
            None => text_in(entries_view(map.entries@), key@) is None,
        },
{
    match get_value(map, key) {
        Some(NbtValue::String(s)) => Some(s.clone()),
        _ => None,
    }
}

/// The four-byte number stored under a name.
pub fn get_int(map: &NameMap<NbtValue>, key: &str) -> (r: Option<i32>)
    ensures
        r == int_in(entries_view(map.entries@), key@),
{
    match get_value(map, key) {
        Some(NbtValue::Int(v)) => Some(*v),
        _ => None,
    }
}

/// The two-byte number stored under a name.
pub fn get_short(map: &NameMap<NbtValue>, key: &str) -> (r: Option<i16>)
    ensures
        r == short_in(entries_view(map.entries@), key@),
{
    match get_value(map, key) {
        Some(NbtValue::Short(v)) => Some(*v),
        _ => None,
    }
}

/// The list stored under a name.
pub fn get_list<'a>(map: &'a NameMap<NbtValue>, key: &str) -> (r: Option<&'a Vec<NbtValue>>)
    ensures
        match r {
            Some(l) => list_in(entries_view(map.entries@), key@) == Some(list_view(l@)),
            None => list_in(entries_view(map.entries@), key@) is None,
        },
{
    match get_value(map, key) {
        Some(NbtValue::List(l)) => Some(l),
        _ => None,
    }
}

/// The long array stored under a name, or a message that it is missing.
pub fn get_long_array(map: &NameMap<NbtValue>, key: &str) -> (r: Result<Vec<i64>, String>)
    ensures
        match (r, longs_in(entries_view(map.entries@), key@)) {
            (Ok(v), Some(s)) => v@ == s,
            (Err(e), None) => e@ == "Missing or invalid '"@ + key@ + "' (expected LongArray)"@,
            _ => false,
        },
{
    match get_value(map, key) {
        Some(NbtValue::LongArray(arr)) => {
            let copy = arr.clone();
            assert(copy@ =~= arr@);
            Ok(copy)
        },
        _ => {
            let mut e = "Missing or invalid '".to_string();
            e.append(key);
            e.append("' (expected LongArray)");
            Err(e)
        },
    }
}

/// The byte array stored under a name.
pub fn get_byte_array(map: &NameMap<NbtValue>, key: &str) -> (r: Option<Vec<i8>>)
    ensures
        match (r, bytes_in(entries_view(map.entries@), key@)) {
            (Some(v), Some(s)) => v@ == s,
            (None, None) => true,
            _ => false,
        },
{
    match get_value(map, key) {
        Some(NbtValue::ByteArray(arr)) => {
            let copy = arr.clone();
            assert(copy@ =~= arr@);
            Some(copy)
        },
        _ => None,
    }
}

} // verus!
