//! Block states written as text: `minecraft:oak_stairs[facing=north,half=bottom]`.
use vstd::prelude::*;
use vstd::string::*;

use crate::names::{put, NameMap};
use crate::schematic::{text_pairs, PaletteView};
use crate::text::{chars_of, find_from, first, trim, trim_range};

verus! {

/// The properties after the text of one more pair was stored. A text without `=` is no pair.
pub open spec fn add_pair(
    acc: Seq<(Seq<char>, Seq<char>)>,
    pair: Seq<char>,
) -> Seq<(Seq<char>, Seq<char>)> {
    let p = trim(pair);
    let e = first(p, '=');
    if e < p.len() {
        put(acc, trim(p.take(e)), trim(p.skip(e + 1)))
    } else {
        acc
    }
}

/// The properties in a text of pairs separated by commas, stored behind those in `acc`.
pub open spec fn pairs_in(
    s: Seq<char>,
    acc: Seq<(Seq<char>, Seq<char>)>,
) -> Seq<(Seq<char>, Seq<char>)>
    decreases s.len(),
{
    let i = first(s, ',');
    if 0 <= i < s.len() {
        pairs_in(s.skip(i + 1), add_pair(acc, s.take(i)))
    } else {
        add_pair(acc, s)
    }
}

/// The block state that a text names: what stands before the first `[`, and the properties
/// between it and the last character.
pub open spec fn state_in(s: Seq<char>) -> PaletteView {
    let b = first(s, '[');
    if b < s.len() {
        PaletteView { name: s.take(b), properties: pairs_in(s.subrange(b + 1, s.len() - 1), Seq::empty()) }
    } else {
        PaletteView { name: s, properties: Seq::empty() }
    }
}

/// Whether a text can be taken apart: where it has a `[`, something stands behind it, and the
/// last character takes a single byte.
pub open spec fn well_bracketed(s: Seq<char>) -> bool {
    let b = first(s, '[');
    b < s.len() ==> b + 1 < s.len() && (s.last() as u32) < 0x80
}

/// Whether a text can be taken apart.
pub fn is_well_bracketed(s: &str) -> (r: bool)
    ensures
        r == well_bracketed(s@),
{
    let cs = chars_of(s);
    let n: usize = cs.len();
    assert(cs@.subrange(0, n as int) =~= s@);
    let b: usize = find_from(cs.as_slice(), 0, n, '[');
    if b < n {
        b + 1 < n && (cs[n - 1] as u32) < 0x80
    } else {
        true
    }
}

/// Stores the text between `a` and `b` if it is a pair.
fn store_pair(properties: &mut NameMap<String>, s: &str, cs: &[char], a: usize, b: usize)
    requires
        cs@ == s@,
        a <= b <= cs@.len(),
    ensures
        text_pairs(final(properties)@) == add_pair(
            text_pairs(old(properties)@),
            s@.subrange(a as int, b as int),
        ),
{
    let (i, j) = trim_range(cs, a, b);
    let e: usize = find_from(cs, i, j, '=');
    let ghost p = trim(s@.subrange(a as int, b as int));
    if e < j {
        let (k0, k1) = trim_range(cs, i, e);
        let (v0, v1) = trim_range(cs, e + 1, j);
        let key = s.substring_char(k0, k1).to_owned();
        let value = s.substring_char(v0, v1).to_owned();
        proof {
            assert(s@.subrange(i as int, e as int) =~= p.take(e - i));
            assert(s@.subrange(e + 1, j as int) =~= p.skip(e - i + 1));
            lemma_text_put(properties@, key@, value);
        }
        properties.insert(key, value);
    }
}

/// Storing a string and taking the characters of the values commute.
pub proof fn lemma_text_put(m: Seq<(Seq<char>, String)>, key: Seq<char>, value: String)
    ensures
        text_pairs(put(m, key, value)) == put(text_pairs(m), key, value@),
{
    crate::names::lemma_slot(m, key);
    assert forall|k: int| 0 <= k < m.len() implies (#[trigger] text_pairs(m)[k]).0 == m[k].0 by {}
    crate::names::lemma_slot_is(text_pairs(m), key, crate::names::slot(m, key));
    assert(text_pairs(put(m, key, value)) =~= put(text_pairs(m), key, value@));
}

/// The name and the properties of a block state.
pub fn parse_block_state_string(s: &str) -> (r: (String, NameMap<String>))
    requires
        well_bracketed(s@),
    ensures
        r.0@ == state_in(s@).name,
        text_pairs(r.1@) == state_in(s@).properties,
{
    let cs = chars_of(s);
    let n: usize = cs.len();
    let mut properties: NameMap<String> = NameMap::new();
    assert(text_pairs(properties@) =~= Seq::empty());
    assert(cs@.subrange(0, n as int) =~= s@);
    let b: usize = find_from(cs.as_slice(), 0, n, '[');
    if b == n {
        return (s.to_owned(), properties);
    }
    let name = s.substring_char(0, b).to_owned();
    assert(s@.subrange(0, b as int) =~= s@.take(b as int));
    let end: usize = n - 1;
    let mut start: usize = b + 1;
    let ghost inner = s@.subrange(start as int, end as int);
    loop
        invariant_except_break
            cs@ == s@,
            start <= end < cs@.len(),
            pairs_in(inner, Seq::empty()) == pairs_in(
                s@.subrange(start as int, end as int),
                text_pairs(properties@),
            ),
        ensures
            text_pairs(properties@) == pairs_in(inner, Seq::empty()),
        decreases end - start,
    {
        let e: usize = find_from(cs.as_slice(), start, end, ',');
        let ghost rest = s@.subrange(start as int, end as int);
        store_pair(&mut properties, s, cs.as_slice(), start, e);
        assert(s@.subrange(start as int, e as int) =~= rest.take(e - start));
        if e == end {
            assert(rest.take(e - start) =~= rest);
            break;
        }
        assert(s@.subrange(e + 1, end as int) =~= rest.skip(e - start + 1));
        start = e + 1;
    }
    (name, properties)
}

} // verus!
