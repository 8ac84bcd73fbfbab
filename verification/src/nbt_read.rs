//! Reading NBT from bytes.
use vstd::prelude::*;
use vstd::string::*;
use vstd::utf8::*;

use crate::bytes::{be, be16, be32, be64, signed, signed16, signed32, signed64, signed8};
use crate::names::{put, NameMap};
use crate::nbt::{entries_view, lemma_put_view, list_view, Nbt, NbtValue};
use crate::text::{decimal, decimal_u64};

verus! {

/// A place in a run of bytes.
pub struct Cursor<'a> {
    pub data: &'a [u8],
    pub pos: usize,
}

impl<'a> Cursor<'a> {
    /// The place lies within the data or at its end.
    pub open spec fn wf(&self) -> bool {
        self.pos <= self.data@.len()
    }

    /// How many bytes are left.
    pub fn remaining(&self) -> (r: usize)
        requires
            self.wf(),
        ensures
            r == self.data@.len() - self.pos,
            self.data@.len() <= usize::MAX,
    {
        self.data.len() - self.pos
    }
}

/// What the text of the error says when the data ends too early.
pub open spec fn short_data() -> Seq<char> {
    "failed to fill whole buffer"@
}

/// The message of the error with which the standard library refuses bytes that are not UTF-8.
pub uninterp spec fn utf8_error_text(bytes: Seq<u8>) -> Seq<char>;

/// Calls `String::from_utf8`. Claimed: it succeeds on exactly the valid UTF-8 sequences, with
/// the characters that they encode. The message of its error is named, not described.
#[verifier::external_body]
fn string_from_utf8(bytes: Vec<u8>) -> (r: Result<String, String>)
    ensures
        match r {
            Ok(s) => valid_utf8(bytes@) && s@ == decode_utf8(bytes@),
            Err(m) => !valid_utf8(bytes@) && m@ == utf8_error_text(bytes@),
        },
{
    String::from_utf8(bytes).map_err(|e| e.to_string())
}

/// The number in the `n` bytes at `p`, and the place behind them.
pub open spec fn fixed_at(d: Seq<u8>, p: int, n: int) -> Result<(nat, int), Seq<char>> {
    if p + n <= d.len() {
        Ok((be(d.subrange(p, p + n)), p + n))
    } else {
        Err(short_data())
    }
}

/// The length `raw`, read up to place `p`, if it can be met by the data behind `p`.
pub open spec fn length_ok(d: Seq<u8>, p: int, raw: int) -> Result<int, Seq<char>> {
    if raw < 0 {
        Err("Negative NBT length"@)
    } else if raw > d.len() - p {
        Err("NBT length exceeds remaining data"@)
    } else {
        Ok(raw)
    }
}

/// The four-byte length at `p`.
pub open spec fn count_at(d: Seq<u8>, p: int) -> Result<(int, int), Seq<char>> {
    match fixed_at(d, p, 4) {
        Err(m) => Err(m),
        Ok((n, q)) => match length_ok(d, q, signed(n as int, 0x1_0000_0000)) {
            Err(m) => Err(m),
            Ok(len) => Ok((len, q)),
        },
    }
}

/// The string at `p`: a two-byte length, then that many bytes of UTF-8.
pub open spec fn string_at(d: Seq<u8>, p: int) -> Result<(Seq<char>, int), Seq<char>> {
    match fixed_at(d, p, 2) {
        Err(m) => Err(m),
        Ok((n, q)) => match length_ok(d, q, signed(n as int, 65536)) {
            Err(m) => Err(m),
            Ok(len) => if valid_utf8(d.subrange(q, q + len)) {
                Ok((decode_utf8(d.subrange(q, q + len)), q + len))
            } else {
                Err(utf8_error_text(d.subrange(q, q + len)))
            },
        },
    }
}

/// The value of type `tag` at `p`, and the place behind it.
pub open spec fn tag_at(d: Seq<u8>, p: int, tag: u8) -> Result<(Nbt, int), Seq<char>>
    decreases d.len() - p, 1nat, 0nat,
{
    if tag == 1 {
        match fixed_at(d, p, 1) {
            Err(m) => Err(m),
            Ok((n, q)) => Ok((Nbt::Byte(signed(n as int, 256) as i8), q)),
        }
    } else if tag == 2 {
        match fixed_at(d, p, 2) {
            Err(m) => Err(m),
            Ok((n, q)) => Ok((Nbt::Short(signed(n as int, 65536) as i16), q)),
        }
    } else if tag == 3 {
        match fixed_at(d, p, 4) {
            Err(m) => Err(m),
            Ok((n, q)) => Ok((Nbt::Int(signed(n as int, 0x1_0000_0000) as i32), q)),
        }
    } else if tag == 4 {
        match fixed_at(d, p, 8) {
            Err(m) => Err(m),
            Ok((n, q)) => Ok((Nbt::Long(signed(n as int, 0x1_0000_0000_0000_0000) as i64), q)),
        }
    } else if tag == 5 {
        match fixed_at(d, p, 4) {
            Err(m) => Err(m),
            Ok((n, q)) => Ok((Nbt::Float(n as u32), q)),
        }
    } else if tag == 6 {
        match fixed_at(d, p, 8) {
            Err(m) => Err(m),
            Ok((n, q)) => Ok((Nbt::Double(n as u64), q)),
        }
    } else if tag == 7 {
        match count_at(d, p) {
            Err(m) => Err(m),
            Ok((n, q)) => Ok(
                (
                    Nbt::ByteArray(
                        Seq::new(n as nat, |i: int| signed(d[q + i] as int, 256) as i8),
                    ),
                    q + n,
                ),
            ),
        }
    } else if tag == 8 {
        match string_at(d, p) {
            Err(m) => Err(m),
            Ok((s, q)) => Ok((Nbt::Text(s), q)),
        }
    } else if tag == 9 {
        match fixed_at(d, p, 1) {
            Err(m) => Err(m),
            Ok((t, q)) => match count_at(d, q) {
                Err(m) => Err(m),
                Ok((n, r)) => match list_at(d, r, t as u8, n as nat) {
                    Err(m) => Err(m),
                    Ok((l, e)) => Ok((Nbt::List(l), e)),
                },
            },
        }
    } else if tag == 10 {
        match entries_at(d, p, Seq::empty()) {
            Err(m) => Err(m),
            Ok((c, e)) => Ok((Nbt::Compound(c), e)),
        }
    } else if tag == 11 {
        match count_at(d, p) {
            Err(m) => Err(m),
            Ok((n, q)) => if q + 4 * n <= d.len() {
                Ok(
                    (
                        Nbt::IntArray(
                            Seq::new(
                                n as nat,
                                |i: int|
                                    signed(
                                        be(d.subrange(q + 4 * i, q + 4 * i + 4)) as int,
                                        0x1_0000_0000,
                                    ) as i32,
                            ),
                        ),
                        q + 4 * n,
                    ),
                )
            } else {
                Err(short_data())
            },
        }
    } else if tag == 12 {
        match count_at(d, p) {
            Err(m) => Err(m),
            Ok((n, q)) => if q + 8 * n <= d.len() {
                Ok(
                    (
                        Nbt::LongArray(
                            Seq::new(
                                n as nat,
                                |i: int|
                                    signed(
                                        be(d.subrange(q + 8 * i, q + 8 * i + 8)) as int,
                                        0x1_0000_0000_0000_0000,
                                    ) as i64,
                            ),
                        ),
                        q + 8 * n,
                    ),
                )
            } else {
                Err(short_data())
            },
        }
    } else {
        Err("Unknown NBT tag type: "@ + decimal(tag as int))
    }
}

/// `n` values of type `tag`, one behind the other, from `p` on.
pub open spec fn list_at(d: Seq<u8>, p: int, tag: u8, n: nat) -> Result<(Seq<Nbt>, int), Seq<char>>
    decreases d.len() - p, 2nat, n,
{
    if n == 0 {
        Ok((Seq::empty(), p))
    } else {
        match tag_at(d, p, tag) {
            Err(m) => Err(m),
            // A value never ends before it starts.
            Ok((v, q)) => if p <= q <= d.len() {
                match list_at(d, q, tag, (n - 1) as nat) {
                    Err(m) => Err(m),
                    Ok((rest, e)) => Ok((seq![v] + rest, e)),
                }
            } else {
                Err(short_data())
            },
        }
    }
}

/// The entries from `p` on, up to the end mark, stored one by one behind those in `acc`.
pub open spec fn entries_at(d: Seq<u8>, p: int, acc: Seq<(Seq<char>, Nbt)>) -> Result<
    (Seq<(Seq<char>, Nbt)>, int),
    Seq<char>,
>
    decreases d.len() - p, 0nat, 0nat,
{
    match fixed_at(d, p, 1) {
        Err(m) => Err(m),
        Ok((t, q)) => if t == 0 {
            Ok((acc, q))
        } else {
            match string_at(d, q) {
                Err(m) => Err(m),
                Ok((name, r)) => match tag_at(d, r, t as u8) {
                    Err(m) => Err(m),
                    Ok((v, e)) => if r <= e <= d.len() {
                        entries_at(d, e, put(acc, name, v))
                    } else {
                        Err(short_data())
                    },
                },
            }
        },
    }
}

/// The named compound that a file of NBT holds.
pub open spec fn file_value(d: Seq<u8>) -> Result<Seq<(Seq<char>, Nbt)>, Seq<char>> {
    match fixed_at(d, 0, 1) {
        Err(m) => Err(m),
        Ok((t, p)) => if t != 10 {
            Err("Expected compound root, got tag type "@ + decimal(t as int))
        } else {
            match string_at(d, p) {
                Err(m) => Err(m),
                Ok((_, q)) => match entries_at(d, q, Seq::empty()) {
                    Err(m) => Err(m),
                    Ok((c, _)) => Ok(c),
                },
            }
        },
    }
}

fn short_data_error() -> (r: String)
    ensures
        r@ == short_data(),
{
    "failed to fill whole buffer".to_string()
}

/// Accepts a length that was just read if the data left can meet it.
pub fn checked_len(raw: i32, cursor: &Cursor) -> (r: Result<usize, String>)
    requires
        cursor.wf(),
    ensures
        match (r, length_ok(cursor.data@, cursor.pos as int, raw as int)) {
            (Ok(v), Ok(n)) => v == n,
            (Err(e), Err(m)) => e@ == m,
            _ => false,
        },
{
    if raw < 0 {
        return Err("Negative NBT length".to_string());
    }
    let len: usize = raw as usize;
    if len > cursor.remaining() {
        return Err("NBT length exceeds remaining data".to_string());
    }
    Ok(len)
}

/// Reads one byte.
pub fn read_u8(cursor: &mut Cursor) -> (r: Result<u8, String>)
    requires
        old(cursor).wf(),
    ensures
        final(cursor).wf(),
        final(cursor).data == old(cursor).data,
        match (r, fixed_at(old(cursor).data@, old(cursor).pos as int, 1)) {
            (Ok(v), Ok((n, q))) => v == n && final(cursor).pos == q,
            (Err(e), Err(m)) => e@ == m,
            _ => false,
        },
{
    if cursor.remaining() < 1 {
        return Err(short_data_error());
    }
    let p: usize = cursor.pos;
    proof {
        reveal_with_fuel(be, 2);
        let s = cursor.data@.subrange(p as int, p + 1);
        assert(s.drop_last() =~= Seq::<u8>::empty());
        assert(s.last() == cursor.data@[p as int]);
    }
    cursor.pos = p + 1;
    Ok(cursor.data[p])
}

/// Reads a signed byte.
pub fn read_i8(cursor: &mut Cursor) -> (r: Result<i8, String>)
    requires
        old(cursor).wf(),
    ensures
        final(cursor).wf(),
        final(cursor).data == old(cursor).data,
        match (r, fixed_at(old(cursor).data@, old(cursor).pos as int, 1)) {
            (Ok(v), Ok((n, q))) => v == signed(n as int, 256) && final(cursor).pos == q,
            (Err(e), Err(m)) => e@ == m,
            _ => false,
        },
{
    match read_u8(cursor) {
        Ok(v) => Ok(signed8(v)),
        Err(e) => Err(e),
    }
}

/// Reads a signed number of two bytes.
pub fn read_i16(cursor: &mut Cursor) -> (r: Result<i16, String>)
    requires
        old(cursor).wf(),
    ensures
        final(cursor).wf(),
        final(cursor).data == old(cursor).data,
        match (r, fixed_at(old(cursor).data@, old(cursor).pos as int, 2)) {
            (Ok(v), Ok((n, q))) => v == signed(n as int, 65536) && final(cursor).pos == q,
            (Err(e), Err(m)) => e@ == m,
            _ => false,
        },
{
    if cursor.remaining() < 2 {
        return Err(short_data_error());
    }
    let p: usize = cursor.pos;
    cursor.pos = p + 2;
    Ok(signed16(be16(cursor.data, p)))
}

/// Reads a number of four bytes.
pub fn read_u32(cursor: &mut Cursor) -> (r: Result<u32, String>)
    requires
        old(cursor).wf(),
    ensures
        final(cursor).wf(),
        final(cursor).data == old(cursor).data,
        match (r, fixed_at(old(cursor).data@, old(cursor).pos as int, 4)) {
            (Ok(v), Ok((n, q))) => v == n && final(cursor).pos == q,
            (Err(e), Err(m)) => e@ == m,
            _ => false,
        },
{
    if cursor.remaining() < 4 {
        return Err(short_data_error());
    }
    let p: usize = cursor.pos;
    cursor.pos = p + 4;
    Ok(be32(cursor.data, p))
}

/// Reads a number of eight bytes.
pub fn read_u64(cursor: &mut Cursor) -> (r: Result<u64, String>)
    requires
        old(cursor).wf(),
    ensures
        final(cursor).wf(),
        final(cursor).data == old(cursor).data,
        match (r, fixed_at(old(cursor).data@, old(cursor).pos as int, 8)) {
            (Ok(v), Ok((n, q))) => v == n && final(cursor).pos == q,
            (Err(e), Err(m)) => e@ == m,
            _ => false,
        },
{
    if cursor.remaining() < 8 {
        return Err(short_data_error());
    }
    let p: usize = cursor.pos;
    cursor.pos = p + 8;
    Ok(be64(cursor.data, p))
}

/// Reads a signed number of four bytes.
pub fn read_i32(cursor: &mut Cursor) -> (r: Result<i32, String>)
    requires
        old(cursor).wf(),
    ensures
        final(cursor).wf(),
        final(cursor).data == old(cursor).data,
        match (r, fixed_at(old(cursor).data@, old(cursor).pos as int, 4)) {
            (Ok(v), Ok((n, q))) => v == signed(n as int, 0x1_0000_0000) && final(cursor).pos == q,
            (Err(e), Err(m)) => e@ == m,
            _ => false,
        },
{
    match read_u32(cursor) {
        Ok(v) => Ok(signed32(v)),
        Err(e) => Err(e),
    }
}

/// Reads a signed number of eight bytes.
pub fn read_i64(cursor: &mut Cursor) -> (r: Result<i64, String>)
    requires
        old(cursor).wf(),
    ensures
        final(cursor).wf(),
        final(cursor).data == old(cursor).data,
        match (r, fixed_at(old(cursor).data@, old(cursor).pos as int, 8)) {
            (Ok(v), Ok((n, q))) => {
                &&& v == signed(n as int, 0x1_0000_0000_0000_0000)
                &&& final(cursor).pos == q
            },
            (Err(e), Err(m)) => e@ == m,
            _ => false,
        },
{
    match read_u64(cursor) {
        Ok(v) => Ok(signed64(v)),
        Err(e) => Err(e),
    }
}

/// Reads the length of an array or a list.
fn read_count(cursor: &mut Cursor) -> (r: Result<usize, String>)
    requires
        old(cursor).wf(),
    ensures
        final(cursor).wf(),
        final(cursor).data == old(cursor).data,
        match (r, count_at(old(cursor).data@, old(cursor).pos as int)) {
            (Ok(v), Ok((n, q))) => v == n && final(cursor).pos == q,
            (Err(e), Err(m)) => e@ == m,
            _ => false,
        },
{
    match read_i32(cursor) {
        Ok(raw) => checked_len(raw, cursor),
        Err(e) => Err(e),
    }
}

/// Reads a string.
pub fn read_string(cursor: &mut Cursor) -> (r: Result<String, String>)
    requires
        old(cursor).wf(),
    ensures
        final(cursor).wf(),
        final(cursor).data == old(cursor).data,
        match (r, string_at(old(cursor).data@, old(cursor).pos as int)) {
            (Ok(v), Ok((s, q))) => v@ == s && final(cursor).pos == q,
            (Err(e), Err(m)) => e@ == m,
            _ => false,
        },
{
    let raw = match read_i16(cursor) {
        Ok(raw) => raw,
        Err(e) => return Err(e),
    };
    let len: usize = match checked_len(raw as i32, cursor) {
        Ok(len) => len,
        Err(e) => return Err(e),
    };
    let p: usize = cursor.pos;
    let mut buf: Vec<u8> = Vec::with_capacity(len);
    let mut i: usize = 0;
    while i < len
        invariant
            i <= len,
            p + len <= cursor.data@.len(),
            cursor.pos == p,
            cursor.data == old(cursor).data,
            buf@ == cursor.data@.subrange(p as int, p + i),
        decreases len - i,
    {
        assert(p + len <= cursor.data.len());
        buf.push(cursor.data[p + i]);
        i += 1;
        assert(buf@ =~= cursor.data@.subrange(p as int, p + i));
    }
    assert(p + len <= cursor.data.len());
    cursor.pos = p + len;
    string_from_utf8(buf)
}

fn read_byte_array(cursor: &mut Cursor) -> (r: Result<NbtValue, String>)
    requires
        old(cursor).wf(),
    ensures
        final(cursor).wf(),
        final(cursor).data == old(cursor).data,
        match (r, tag_at(old(cursor).data@, old(cursor).pos as int, 7)) {
            (Ok(v), Ok((n, q))) => v@ == n && final(cursor).pos == q,
            (Err(e), Err(m)) => e@ == m,
            _ => false,
        },
{
    let len: usize = match read_count(cursor) {
        Ok(len) => len,
        Err(e) => return Err(e),
    };
    let p: usize = cursor.pos;
    let mut arr: Vec<i8> = Vec::with_capacity(len);
    let mut i: usize = 0;
    while i < len
        invariant
            i <= len,
            p + len <= cursor.data@.len(),
            cursor.pos == p,
            cursor.data == old(cursor).data,
            arr@.len() == i,
            forall|k: int| 0 <= k < i ==> arr@[k] == signed(cursor.data@[p + k] as int, 256) as i8,
        decreases len - i,
    {
        assert(p + len <= cursor.data.len());
        arr.push(signed8(cursor.data[p + i]));
        i += 1;
    }
    assert(p + len <= cursor.data.len());
    cursor.pos = p + len;
    let v = NbtValue::ByteArray(arr);
    assert(tag_at(old(cursor).data@, old(cursor).pos as int, 7) matches Ok((n, _)) && v@->ByteArray_0
        =~= n->ByteArray_0);
    Ok(v)
}

fn read_int_array(cursor: &mut Cursor) -> (r: Result<NbtValue, String>)
    requires
        old(cursor).wf(),
    ensures
        final(cursor).wf(),
        final(cursor).data == old(cursor).data,
        match (r, tag_at(old(cursor).data@, old(cursor).pos as int, 11)) {
            (Ok(v), Ok((n, q))) => v@ == n && final(cursor).pos == q,
            (Err(e), Err(m)) => e@ == m,
            _ => false,
        },
{
    let len: usize = match read_count(cursor) {
        Ok(len) => len,
        Err(e) => return Err(e),
    };
    let ghost q = cursor.pos as int;
    let ghost d = cursor.data@;
    let mut arr: Vec<i32> = Vec::with_capacity(len);
    let mut i: usize = 0;
    while i < len
        invariant
            i <= len,
            cursor.wf(),
            cursor.data == old(cursor).data,
            d == cursor.data@,
            cursor.pos == q + 4 * i,
            count_at(d, old(cursor).pos as int) == Ok::<(int, int), Seq<char>>((len as int, q)),
            arr@.len() == i,
            forall|k: int|
                0 <= k < i ==> #[trigger] arr@[k] == signed(
                    be(d.subrange(q + 4 * k, q + 4 * k + 4)) as int,
                    0x1_0000_0000,
                ) as i32,
        decreases len - i,
    {
        match read_i32(cursor) {
            Ok(v) => {
                arr.push(v);
            },
            Err(e) => return Err(e),
        }
        i += 1;
    }
    let v = NbtValue::IntArray(arr);
    assert(tag_at(old(cursor).data@, old(cursor).pos as int, 11) matches Ok((n, _)) && v@->IntArray_0
        =~= n->IntArray_0);
    Ok(v)
}

fn read_long_array(cursor: &mut Cursor) -> (r: Result<NbtValue, String>)
    requires
        old(cursor).wf(),
    ensures
        final(cursor).wf(),
        final(cursor).data == old(cursor).data,
        match (r, tag_at(old(cursor).data@, old(cursor).pos as int, 12)) {
            (Ok(v), Ok((n, q))) => v@ == n && final(cursor).pos == q,
            (Err(e), Err(m)) => e@ == m,
            _ => false,
        },
{
    let len: usize = match read_count(cursor) {
        Ok(len) => len,
        Err(e) => return Err(e),
    };
    let ghost q = cursor.pos as int;
    let ghost d = cursor.data@;
    let mut arr: Vec<i64> = Vec::with_capacity(len);
    let mut i: usize = 0;
    while i < len
        invariant
            i <= len,
            cursor.wf(),
            cursor.data == old(cursor).data,
            d == cursor.data@,
            cursor.pos == q + 8 * i,
            count_at(d, old(cursor).pos as int) == Ok::<(int, int), Seq<char>>((len as int, q)),
            arr@.len() == i,
            forall|k: int|
                0 <= k < i ==> #[trigger] arr@[k] == signed(
                    be(d.subrange(q + 8 * k, q + 8 * k + 8)) as int,
                    0x1_0000_0000_0000_0000,
                ) as i64,
        decreases len - i,
    {
        match read_i64(cursor) {
            Ok(v) => {
                arr.push(v);
            },
            Err(e) => return Err(e),
        }
        i += 1;
    }
    let v = NbtValue::LongArray(arr);
    assert(tag_at(old(cursor).data@, old(cursor).pos as int, 12) matches Ok((n, _))
        && v@->LongArray_0 =~= n->LongArray_0);
    Ok(v)
}

/// Reads a value of the given type.
pub fn read_tag(cursor: &mut Cursor, tag_type: u8) -> (r: Result<NbtValue, String>)
    requires
        old(cursor).wf(),
    ensures
        final(cursor).wf(),
        final(cursor).data == old(cursor).data,
        r is Ok ==> old(cursor).pos <= final(cursor).pos,
        match (r, tag_at(old(cursor).data@, old(cursor).pos as int, tag_type)) {
            (Ok(v), Ok((n, q))) => v@ == n && final(cursor).pos == q,
            (Err(e), Err(m)) => e@ == m,
            _ => false,
        },
    decreases old(cursor).data@.len() - old(cursor).pos, 1nat,
{
    match tag_type {
        1 => match read_i8(cursor) {
            Ok(v) => Ok(NbtValue::Byte(v)),
            Err(e) => Err(e),
        },
        2 => match read_i16(cursor) {
            Ok(v) => Ok(NbtValue::Short(v)),
            Err(e) => Err(e),
        },
        3 => match read_i32(cursor) {
            Ok(v) => Ok(NbtValue::Int(v)),
            Err(e) => Err(e),
        },
        4 => match read_i64(cursor) {
            Ok(v) => Ok(NbtValue::Long(v)),
            Err(e) => Err(e),
        },
        5 => match read_u32(cursor) {
            Ok(v) => Ok(NbtValue::Float(v)),
            Err(e) => Err(e),
        },
        6 => match read_u64(cursor) {
            Ok(v) => Ok(NbtValue::Double(v)),
            Err(e) => Err(e),
        },
        7 => read_byte_array(cursor),
        8 => match read_string(cursor) {
            Ok(v) => Ok(NbtValue::String(v)),
            Err(e) => Err(e),
        },
        9 => {
            let list_type = match read_u8(cursor) {
                Ok(t) => t,
                Err(e) => return Err(e),
            };
            let len: usize = match read_count(cursor) {
                Ok(len) => len,
                Err(e) => return Err(e),
            };
            match read_list(cursor, list_type, len) {
                Ok(list) => Ok(NbtValue::List(list)),
                Err(e) => Err(e),
            }
        },
        10 => read_compound(cursor),
        11 => read_int_array(cursor),
        12 => read_long_array(cursor),
        _ => {
            let mut e = "Unknown NBT tag type: ".to_string();
            e.append(decimal_u64(tag_type as u64).as_str());
            Err(e)
        },
    }
}

/// Reads the values of a list.
fn read_list(cursor: &mut Cursor, list_type: u8, len: usize) -> (r: Result<Vec<NbtValue>, String>)
    requires
        old(cursor).wf(),
    ensures
        final(cursor).wf(),
        final(cursor).data == old(cursor).data,
        r is Ok ==> old(cursor).pos <= final(cursor).pos,
        match (r, list_at(old(cursor).data@, old(cursor).pos as int, list_type, len as nat)) {
            (Ok(v), Ok((n, q))) => list_view(v@) == n && final(cursor).pos == q,
            (Err(e), Err(m)) => e@ == m,
            _ => false,
        },
    decreases old(cursor).data@.len() - old(cursor).pos, 2nat,
{
    let ghost d = cursor.data@;
    let ghost start = cursor.pos as int;
    let mut list: Vec<NbtValue> = Vec::with_capacity(len);
    let mut i: usize = 0;
    assert(list_view(list@) =~= Seq::<Nbt>::empty());
    proof {
        if let Ok((rest, _)) = list_at(d, start, list_type, len as nat) {
            assert(list_view(list@) + rest =~= rest);
        }
    }
    while i < len
        invariant
            i <= len,
            cursor.wf(),
            cursor.data == old(cursor).data,
            d == cursor.data@,
            start == old(cursor).pos,
            start <= cursor.pos,
            match list_at(d, cursor.pos as int, list_type, (len - i) as nat) {
                Ok((rest, e)) => list_at(d, start, list_type, len as nat) == Ok::<
                    (Seq<Nbt>, int),
                    Seq<char>,
                >((list_view(list@) + rest, e)),
                Err(m) => list_at(d, start, list_type, len as nat) == Err::<
                    (Seq<Nbt>, int),
                    Seq<char>,
                >(m),
            },
        decreases len - i,
    {
        let ghost before = list@;
        let ghost at = cursor.pos as int;
        match read_tag(cursor, list_type) {
            Ok(v) => {
                list.push(v);
                proof {
                    assert(list_view(list@) =~= list_view(before).push(v@));
                    if let Ok((rest, _)) = list_at(
                        d,
                        cursor.pos as int,
                        list_type,
                        (len - i - 1) as nat,
                    ) {
                        assert(list_view(before) + (seq![v@] + rest) =~= list_view(list@) + rest);
                    }
                }
            },
            Err(e) => return Err(e),
        }
        i += 1;
    }
    assert(list_view(list@) + Seq::<Nbt>::empty() =~= list_view(list@));
    Ok(list)
}

/// Reads the entries of a compound up to its end mark.
pub fn read_compound(cursor: &mut Cursor) -> (r: Result<NbtValue, String>)
    requires
        old(cursor).wf(),
    ensures
        final(cursor).wf(),
        final(cursor).data == old(cursor).data,
        r is Ok ==> old(cursor).pos <= final(cursor).pos,
        match (r, entries_at(old(cursor).data@, old(cursor).pos as int, Seq::empty())) {
            (Ok(v), Ok((c, q))) => v@ == Nbt::Compound(c) && final(cursor).pos == q,
            (Err(e), Err(m)) => e@ == m,
            _ => false,
        },
    decreases old(cursor).data@.len() - old(cursor).pos, 0nat,
{
    let ghost d = cursor.data@;
    let ghost start = cursor.pos as int;
    let mut map: NameMap<NbtValue> = NameMap::new();
    assert(map@.len() == map.entries@.len());
    assert(entries_view(map.entries@) =~= Seq::<(Seq<char>, Nbt)>::empty());
    loop
        invariant
            cursor.wf(),
            cursor.data == old(cursor).data,
            d == cursor.data@,
            start == old(cursor).pos,
            start <= cursor.pos,
            entries_at(d, cursor.pos as int, entries_view(map.entries@)) == entries_at(
                d,
                start,
                Seq::empty(),
            ),
        decreases cursor.data@.len() - cursor.pos,
    {
        let tag_type = match read_u8(cursor) {
            Ok(t) => t,
            Err(e) => return Err(e),
        };
        if tag_type == 0 {
            return Ok(NbtValue::Compound(map));
        }
        let name = match read_string(cursor) {
            Ok(name) => name,
            Err(e) => return Err(e),
        };
        let value = match read_tag(cursor, tag_type) {
            Ok(v) => v,
            Err(e) => return Err(e),
        };
        proof {
            lemma_put_view(map, name@, value);
        }
        map.insert(name, value);
    }
}

/// Reads a file of NBT: a named compound.
pub fn parse_nbt(data: &[u8]) -> (r: Result<NbtValue, String>)
    ensures
        match (r, file_value(data@)) {
            (Ok(v), Ok(c)) => v@ == Nbt::Compound(c),
            (Err(e), Err(m)) => e@ == m,
            _ => false,
        },
{
    let mut cursor = Cursor { data, pos: 0 };
    let tag_type = match read_u8(&mut cursor) {
        Ok(t) => t,
        Err(e) => return Err(e),
    };
    if tag_type != 10 {
        let mut e = "Expected compound root, got tag type ".to_string();
        e.append(decimal_u64(tag_type as u64).as_str());
        return Err(e);
    }
    match read_string(&mut cursor) {
        Ok(_) => read_compound(&mut cursor),
        Err(e) => Err(e),
    }
}

} // verus!
