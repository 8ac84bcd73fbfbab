//! What the helpers on text do, stated of texts that are put together from parts.
use vstd::prelude::*;
use vstd::string::*;

use crate::block_string::{add_pair, pairs_in, state_in};
use crate::listing::{extension, last_place, names_schematic, ordered};
use crate::names::put;
use crate::schematic::PaletteView;
use crate::text::{
    decimal, digit, digits, digits_value, ends_with, first, i32_in, is_white, lemma_first,
    lemma_first_is, number_in, starts_with, trim, trim_all, trim_end, trim_start,
};

verus! {

/// Whether all characters are white space.
pub open spec fn all_white(s: Seq<char>) -> bool {
    forall|i: int| 0 <= i < s.len() ==> is_white(#[trigger] s[i])
}

/// Whether a text is empty or has no white space on either side.
pub open spec fn trimmed(s: Seq<char>) -> bool {
    s.len() > 0 ==> !is_white(s[0]) && !is_white(s.last())
}

/// White space is what Unicode calls so.
pub proof fn law_white_space_is_unicodes(c: char)
    ensures
        is_white(c) <==> (9 <= c as u32 <= 13 || c == ' ' || c as u32 == 133 || c as u32 == 160
            || c as u32 == 5760 || 8192 <= c as u32 <= 8202 || c as u32 == 8232 || c as u32 == 8233
            || c as u32 == 8239 || c as u32 == 8287 || c as u32 == 12288),
{
}

proof fn lemma_trim_start(a: Seq<char>, t: Seq<char>)
    requires
        all_white(a),
        t.len() > 0 ==> !is_white(t[0]),
    ensures
        trim_start(a + t) == t,
    decreases a.len(),
{
    let s = a + t;
    if a.len() > 0 {
        let r = a.drop_first();
        assert forall|i: int| 0 <= i < r.len() implies is_white(#[trigger] r[i]) by {
            assert(is_white(a[i + 1]));
        }
        lemma_trim_start(r, t);
        assert(s[0] == a[0]);
        assert(s.drop_first() =~= r + t);
    } else {
        assert(s =~= t);
    }
}

proof fn lemma_trim_end(t: Seq<char>, b: Seq<char>)
    requires
        all_white(b),
        t.len() > 0 ==> !is_white(t.last()),
    ensures
        trim_end(t + b) == t,
    decreases b.len(),
{
    let s = t + b;
    if b.len() > 0 {
        let r = b.drop_last();
        assert forall|i: int| 0 <= i < r.len() implies is_white(#[trigger] r[i]) by {
            assert(is_white(b[i]));
        }
        lemma_trim_end(t, r);
        assert(is_white(b[b.len() - 1]));
        assert(s.last() == b[b.len() - 1]);
        assert(s.drop_last() =~= t + r);
    } else {
        assert(s =~= t);
    }
}

/// Trimming takes the white space off both sides and nothing else.
pub proof fn law_trim_takes_white_space_off(a: Seq<char>, m: Seq<char>, b: Seq<char>)
    requires
        all_white(a),
        trimmed(m),
        all_white(b),
    ensures
        trim(a + m + b) == m,
{
    if m.len() > 0 {
        assert((m + b)[0] == m[0]);
        lemma_trim_start(a, m + b);
        assert(a + m + b =~= a + (m + b));
        lemma_trim_end(m, b);
    } else {
        let w = a + m + b;
        assert forall|i: int| 0 <= i < w.len() implies is_white(#[trigger] w[i]) by {
            if i < a.len() {
                assert(w[i] == a[i]);
            } else {
                assert(w[i] == b[i - a.len()]);
            }
        }
        lemma_trim_start(w, Seq::empty());
        assert(w + Seq::<char>::empty() =~= w);
        assert(trim_end(Seq::<char>::empty()) =~= Seq::empty());
        assert(m =~= Seq::empty());
    }
}

/// A text starts and ends with what it was put together from, and only with that.
pub proof fn law_ends_are_told(h: Seq<char>, t: Seq<char>, s: Seq<char>)
    ensures
        starts_with(h + t, h),
        ends_with(h + t, t),
        starts_with(s, h) ==> exists|r: Seq<char>| s == #[trigger] (h + r),
        ends_with(s, t) ==> exists|r: Seq<char>| s == #[trigger] (r + t),
{
    assert((h + t).take(h.len() as int) =~= h);
    assert((h + t).skip(h.len() as int) =~= t);
    if starts_with(s, h) {
        assert(s =~= h + s.skip(h.len() as int));
    }
    if ends_with(s, t) {
        assert(s =~= s.take(s.len() - t.len()) + t);
    }
}

/// All the tails at the end of a text are taken off, one by one, and nothing else.
pub proof fn law_every_tail_is_taken_off(s: Seq<char>, tail: Seq<char>)
    requires
        tail.len() > 0,
    ensures
        trim_all(s + tail, tail) == trim_all(s, tail),
        !(exists|r: Seq<char>| s == #[trigger] (r + tail)) ==> trim_all(s, tail) == s,
{
    law_ends_are_told(s, tail, s);
    assert((s + tail).take(s.len() as int) =~= s);
}

/// The decimal writing of a number starts with a minus sign where it is negative, has no zero in
/// front unless it is zero, and reads back as the number.
pub proof fn law_decimal_writing_is_the_number(n: int)
    ensures
        number_in(decimal(n)) == Some(n),
        decimal(n).len() > 0,
        n < 0 ==> decimal(n)[0] == '-' && decimal(n)[1] != '0' && decimal(n) == seq!['-'] + decimal(
            -n,
        ),
        n > 0 ==> '1' <= decimal(n)[0] <= '9',
        n == 0 ==> decimal(n) == seq!['0'],
        i32::MIN <= n <= i32::MAX ==> i32_in(decimal(n)) == Some(n as i32),
        !(i32::MIN <= n <= i32::MAX) ==> i32_in(decimal(n)) is None,
{
    if n < 0 {
        let m = (-n) as nat;
        lemma_digits(m);
        assert(decimal(n).skip(1) =~= digits(m));
        assert(decimal(n)[1] == digits(m)[0]);
    } else {
        lemma_digits(n as nat);
    }
}

proof fn lemma_digits(n: nat)
    ensures
        digits(n).len() > 0,
        digits_value(digits(n)) == Some(n as int),
        '0' <= digits(n)[0] <= '9',
        n > 0 ==> digits(n)[0] != '0',
        n == 0 ==> digits(n) == seq!['0'],
    decreases n,
{
    let d = n % 10;
    assert(digit(d) as int == 48 + d);
    if n < 10 {
        assert(digits(n).drop_last() =~= Seq::empty());
        assert(digits_value(Seq::<char>::empty()) == Some(0int));
    } else {
        lemma_digits(n / 10);
        assert(digits(n).drop_last() =~= digits(n / 10));
        assert(digits(n)[0] == digits(n / 10)[0]);
    }
}

/// A digit behind some others stands for ten times the others and itself. Anything else behind
/// digits makes the text no number.
pub proof fn law_digits_are_weighed_by_tens(s: Seq<char>, c: char, v: int)
    requires
        digits_value(s) == Some(v),
    ensures
        digits_value(Seq::<char>::empty()) == Some(0int),
        '0' <= c <= '9' ==> digits_value(s.push(c)) == Some(10 * v + (c as int - 48)),
        !('0' <= c <= '9') ==> digits_value(s.push(c)) is None,
        s.len() > 0 ==> number_in(s) == Some(v),
        s.len() > 0 ==> number_in(seq!['-'] + s) == Some(-v),
        s.len() > 0 ==> number_in(seq!['+'] + s) == Some(v),
        number_in(Seq::<char>::empty()) is None,
        number_in(seq!['-']) is None,
        number_in(seq!['+']) is None,
{
    assert(s.push(c).drop_last() =~= s);
    assert((seq!['-'] + s).skip(1) =~= s);
    assert((seq!['+'] + s).skip(1) =~= s);
    if s.len() > 0 {
        lemma_first_digit(s);
    }
}

proof fn lemma_first_digit(s: Seq<char>)
    requires
        digits_value(s) is Some,
        s.len() > 0,
    ensures
        '0' <= s[0] <= '9',
    decreases s.len(),
{
    if s.len() > 1 {
        lemma_first_digit(s.drop_last());
    }
}

proof fn lemma_last_place(s: Seq<char>, t: Seq<char>, c: char)
    requires
        !t.contains(c),
    ensures
        last_place(s.push(c) + t, c) == s.len(),
    decreases t.len(),
{
    let w = s.push(c) + t;
    if t.len() > 0 {
        let r = t.drop_last();
        assert(!r.contains(c)) by {
            if r.contains(c) {
                let i = choose|i: int| 0 <= i < r.len() && r[i] == c;
                assert(t[i] == c);
            }
        }
        lemma_last_place(s, r, c);
        assert(t.contains(t[t.len() - 1]));
        assert(w.last() == t[t.len() - 1]);
        assert(w.drop_last() =~= s.push(c) + r);
    } else {
        assert(w =~= s.push(c));
    }
}

proof fn lemma_no_place(s: Seq<char>, c: char)
    ensures
        s.contains(c) <==> last_place(s, c) >= 0,
        last_place(s, c) >= 0 ==> last_place(s, c) < s.len() && s[last_place(s, c)] == c
            && !s.skip(last_place(s, c) + 1).contains(c),
        last_place(s, c) >= -1,
    decreases s.len(),
{
    if s.len() > 0 {
        let r = s.drop_last();
        lemma_no_place(r, c);
        let k = last_place(s, c);
        if s.last() == c {
            assert(s.contains(c)) by {
                assert(s[s.len() - 1] == c);
            }
            assert(s.skip(k + 1).len() == 0);
        } else {
            if k >= 0 {
                assert(s[k] == c);
                if s.skip(k + 1).contains(c) {
                    let t = s.skip(k + 1);
                    let i = choose|i: int| 0 <= i < t.len() && t[i] == c;
                    assert(s[k + 1 + i] == c);
                    assert(r.skip(k + 1)[i] == c);
                }
            }
            if s.contains(c) {
                let i = choose|i: int| 0 <= i < s.len() && s[i] == c;
                assert(r[i] == c);
            }
        }
    }
}

/// The extension of a file's name is what stands behind the last dot, if something stands before
/// that dot.
pub proof fn law_extension_follows_the_last_dot(stem: Seq<char>, e: Seq<char>)
    requires
        !e.contains('.'),
    ensures
        stem.len() > 0 ==> extension(stem.push('.') + e) == Some(e),
        stem.len() == 0 ==> extension(stem.push('.') + e) is None,
        extension(e) is None,
{
    lemma_last_place(stem, e, '.');
    assert((stem.push('.') + e).skip(stem.len() as int + 1) =~= e);
    lemma_no_place(e, '.');
}

/// A file is a schematic exactly if its name has one of the three extensions behind something.
pub proof fn law_schematics_have_three_extensions(name: Seq<char>, stem: Seq<char>, e: Seq<char>)
    ensures
        stem.len() > 0 && (e == "litematica"@ || e == "litematic"@ || e == "schem"@)
            ==> names_schematic(stem.push('.') + e),
        names_schematic(name) ==> exists|k: int|
            0 < k < name.len() && #[trigger] name[k] == '.' && (name.skip(k + 1) == "litematica"@
                || name.skip(k + 1) == "litematic"@ || name.skip(k + 1) == "schem"@),
{
    reveal_strlit("litematica");
    reveal_strlit("litematic");
    reveal_strlit("schem");
    if e == "litematica"@ || e == "litematic"@ || e == "schem"@ {
        assert(!e.contains('.'));
        law_extension_follows_the_last_dot(stem, e);
    }
    lemma_no_place(name, '.');
    if names_schematic(name) {
        assert(name[last_place(name, '.')] == '.');
    }
}

/// Texts are ordered by the first character in which they differ, and a text comes before what it
/// starts.
pub proof fn law_texts_are_ordered_by_characters(
    p: Seq<char>,
    x: char,
    y: char,
    a: Seq<char>,
    b: Seq<char>,
)
    ensures
        ordered(p, p + a),
        a.len() > 0 ==> !ordered(p + a, p),
        x < y ==> ordered(p + seq![x] + a, p + seq![y] + b) && !ordered(
            p + seq![y] + b,
            p + seq![x] + a,
        ),
    decreases p.len(),
{
    let u = p + seq![x] + a;
    let v = p + seq![y] + b;
    if p.len() > 0 {
        let q = p.drop_first();
        law_texts_are_ordered_by_characters(q, x, y, a, b);
        assert((p + a)[0] == p[0]);
        assert((p + a).drop_first() =~= q + a);
        assert(u[0] == p[0] && v[0] == p[0]);
        assert(u.drop_first() =~= q + seq![x] + a);
        assert(v.drop_first() =~= q + seq![y] + b);
    } else {
        assert(u[0] == x && v[0] == y);
    }
}

/// A block state's text is its name, and behind a bracket its properties up to the last character.
pub proof fn law_state_text_is_taken_apart(name: Seq<char>, inner: Seq<char>, end: char)
    requires
        !name.contains('['),
    ensures
        state_in(name) == (PaletteView { name, properties: Seq::empty() }),
        state_in(name.push('[') + inner.push(end)) == (PaletteView {
            name,
            properties: pairs_in(inner, Seq::empty()),
        }),
{
    lemma_first_is(name, '[', name.len() as int);
    let s = name.push('[') + inner.push(end);
    assert forall|k: int| 0 <= k < name.len() implies s[k] != '[' by {
        assert(name.contains(name[k]));
    }
    assert(s[name.len() as int] == '[');
    lemma_first_is(s, '[', name.len() as int);
    assert(s.take(name.len() as int) =~= name);
    assert(s.subrange(name.len() as int + 1, s.len() - 1) =~= inner);
}

/// Properties are separated by commas and stored one behind the other.
pub proof fn law_properties_are_separated_by_commas(
    pair: Seq<char>,
    rest: Seq<char>,
    acc: Seq<(Seq<char>, Seq<char>)>,
)
    requires
        !pair.contains(','),
    ensures
        pairs_in(pair, acc) == add_pair(acc, pair),
        pairs_in(pair.push(',') + rest, acc) == pairs_in(rest, add_pair(acc, pair)),
{
    lemma_first_is(pair, ',', pair.len() as int);
    let s = pair.push(',') + rest;
    assert forall|k: int| 0 <= k < pair.len() implies s[k] != ',' by {
        assert(pair.contains(pair[k]));
    }
    assert(s[pair.len() as int] == ',');
    lemma_first_is(s, ',', pair.len() as int);
    assert(s.take(pair.len() as int) =~= pair);
    assert(s.skip(pair.len() as int + 1) =~= rest);
}

/// A property is a name and a value with an equals sign between them; white space around either is
/// left out. A text without an equals sign is no property.
pub proof fn law_property_is_a_pair(
    acc: Seq<(Seq<char>, Seq<char>)>,
    a: Seq<char>,
    key: Seq<char>,
    b: Seq<char>,
    c: Seq<char>,
    value: Seq<char>,
    d: Seq<char>,
)
    requires
        all_white(a) && all_white(b) && all_white(c) && all_white(d),
        trimmed(key) && trimmed(value),
        key.len() == 0 ==> b.len() == 0,
        value.len() == 0 ==> c.len() == 0,
        !key.contains('='),
    ensures
        add_pair(acc, a + key + b + seq!['='] + c + value + d) == put(acc, key, value),
        add_pair(acc, a + key + d) == acc,
{
    let m = key + b + seq!['='] + c + value;
    let e = key.len() + b.len();
    assert(!is_white('='));
    assert(m[0] == (if key.len() > 0 {
        key[0]
    } else {
        '='
    }));
    assert(m.last() == (if value.len() > 0 {
        value.last()
    } else {
        '='
    }));
    assert(a + key + b + seq!['='] + c + value + d =~= a + m + d);
    law_trim_takes_white_space_off(a, m, d);
    assert forall|k: int| 0 <= k < e implies m[k] != '=' by {
        if k < key.len() {
            assert(key.contains(key[k]));
            assert(m[k] == key[k]);
        } else {
            assert(m[k] == b[k - key.len()]);
            assert(is_white(b[k - key.len()]));
        }
    }
    assert(m[e as int] == '=');
    lemma_first_is(m, '=', e as int);
    assert(m.take(e as int) =~= Seq::empty() + key + b);
    assert(m.skip(e as int + 1) =~= c + value + Seq::empty());
    law_trim_takes_white_space_off(Seq::empty(), key, b);
    law_trim_takes_white_space_off(c, value, Seq::empty());
    law_trim_takes_white_space_off(a, key, d);
    lemma_first(key, '=');
    if first(key, '=') < key.len() {
        assert(key.contains(key[first(key, '=')]));
    }
}

/// A text with anything but digits behind its sign is no number, and a number is taken if it fits
/// thirty-two bits.
pub proof fn law_other_texts_are_no_numbers(s: Seq<char>, c: char)
    ensures
        digits_value(s) is None ==> digits_value(s.push(c)) is None,
        digits_value(s) is None && s[0] != '-' && s[0] != '+' ==> number_in(s) is None,
        digits_value(s) is None ==> number_in(seq!['-'] + s) is None && number_in(seq!['+'] + s) is None,
        match number_in(s) {
            Some(v) => if -0x8000_0000 <= v <= 0x7fff_ffff {
                i32_in(s) matches Some(n) && n == v
            } else {
                i32_in(s) is None
            },
            None => i32_in(s) is None,
        },
{
    assert(s.push(c).drop_last() =~= s);
    assert((seq!['-'] + s).skip(1) =~= s);
    assert((seq!['+'] + s).skip(1) =~= s);
}

} // verus!
