//! The list of schematic files.
use vstd::prelude::*;
use vstd::seq_lib::{to_multiset_build, to_multiset_insert};
use vstd::string::*;

use crate::messages::{joined_text, notices_view, single, Level, Notice};
use crate::text::{chars_of, decimal, push_decimal, same};

verus! {

/// The place of the last `c` in `s`, or -1 if there is none.
pub open spec fn last_place(s: Seq<char>, c: char) -> int
    decreases s.len(),
{
    if s.len() == 0 {
        -1
    } else if s.last() == c {
        s.len() - 1
    } else {
        last_place(s.drop_last(), c)
    }
}

/// What stands behind the last dot of a file's name, if something stands before that dot.
pub open spec fn extension(name: Seq<char>) -> Option<Seq<char>> {
    let i = last_place(name, '.');
    if i > 0 {
        Some(name.skip(i + 1))
    } else {
        None
    }
}

/// Whether a file's name is that of a schematic.
pub open spec fn names_schematic(name: Seq<char>) -> bool {
    match extension(name) {
        Some(e) => e == "litematica"@ || e == "litematic"@ || e == "schem"@,
        None => false,
    }
}

/// Whether a file's name is that of a schematic.
pub fn is_schematic_name(name: &str) -> (r: bool)
    ensures
        r == names_schematic(name@),
{
    let cs = chars_of(name);
    let n: usize = cs.len();
    let mut i: usize = n;
    assert(name@.take(n as int) =~= name@);
    while i > 0 && cs[i - 1] != '.'
        invariant
            i <= n,
            n == cs@.len(),
            cs@ == name@,
            last_place(name@, '.') == last_place(name@.take(i as int), '.'),
        decreases i,
    {
        assert(name@.take(i as int).drop_last() =~= name@.take(i - 1));
        i -= 1;
    }
    if i <= 1 {
        assert(i == 0 ==> name@.take(0) =~= Seq::empty());
        return false;
    }
    let e = name.substring_char(i, n);
    assert(e@ =~= name@.skip(i as int));
    same(e, "litematica") || same(e, "litematic") || same(e, "schem")
}

/// Whether a text is the same as another or comes before it in the order of the characters.
pub open spec fn ordered(a: Seq<char>, b: Seq<char>) -> bool
    decreases a.len(),
{
    if a.len() == 0 {
        true
    } else if b.len() == 0 {
        false
    } else if a[0] != b[0] {
        a[0] < b[0]
    } else {
        ordered(a.drop_first(), b.drop_first())
    }
}

/// Of two texts one comes first.
proof fn lemma_total(a: Seq<char>, b: Seq<char>)
    ensures
        ordered(a, b) || ordered(b, a),
    decreases a.len(),
{
    if a.len() > 0 && b.len() > 0 && a[0] == b[0] {
        lemma_total(a.drop_first(), b.drop_first());
    }
}

/// What comes before a text comes before what comes behind it.
proof fn lemma_transitive(a: Seq<char>, b: Seq<char>, c: Seq<char>)
    requires
        ordered(a, b),
        ordered(b, c),
    ensures
        ordered(a, c),
    decreases a.len(),
{
    if a.len() > 0 && a[0] == b[0] && b[0] == c[0] {
        lemma_transitive(a.drop_first(), b.drop_first(), c.drop_first());
    }
}

/// Whether a text is the same as another or comes before it.
fn comes_first(a: &str, b: &str) -> (r: bool)
    ensures
        r == ordered(a@, b@),
{
    let x = chars_of(a);
    let y = chars_of(b);
    let mut i: usize = 0;
    assert(a@.skip(0) =~= a@ && b@.skip(0) =~= b@);
    while i < x.len() && i < y.len() && x[i] == y[i]
        invariant
            i <= x@.len(),
            i <= y@.len(),
            x@ == a@,
            y@ == b@,
            ordered(a@, b@) == ordered(a@.skip(i as int), b@.skip(i as int)),
        decreases x@.len() - i,
    {
        assert(a@.skip(i as int).drop_first() =~= a@.skip(i + 1));
        assert(b@.skip(i as int).drop_first() =~= b@.skip(i + 1));
        i += 1;
    }
    if i == x.len() {
        true
    } else if i == y.len() {
        false
    } else {
        x[i] < y[i]
    }
}

/// The characters of some texts.
pub open spec fn texts(s: Seq<String>) -> Seq<Seq<char>> {
    s.map_values(|e: String| e@)
}

/// Whether each text comes before the ones behind it.
pub open spec fn sorted(s: Seq<Seq<char>>) -> bool {
    forall|i: int, j: int| 0 <= i < j < s.len() ==> ordered(#[trigger] s[i], #[trigger] s[j])
}

/// Puts a text among sorted ones.
fn insert_sorted(out: &mut Vec<String>, name: String)
    requires
        sorted(texts(old(out)@)),
    ensures
        sorted(texts(final(out)@)),
        texts(final(out)@).to_multiset() == texts(old(out)@).to_multiset().insert(name@),
{
    let ghost s = texts(out@);
    let ghost v = name@;
    let mut p: usize = 0;
    while p < out.len() && comes_first(out[p].as_str(), name.as_str())
        invariant
            p <= out@.len(),
            s == texts(out@),
            v == name@,
            forall|k: int| 0 <= k < p ==> ordered(#[trigger] s[k], v),
        decreases out@.len() - p,
    {
        p += 1;
    }
    out.insert(p, name);
    proof {
        let t = texts(out@);
        assert(t =~= s.insert(p as int, v));
        assert forall|i: int, j: int| 0 <= i < j < t.len() implies ordered(
            #[trigger] t[i],
            #[trigger] t[j],
        ) by {
            if p < s.len() {
                lemma_total(s[p as int], v);
            }
            if i == p && j > p + 1 {
                assert(t[j] == s[j - 1]);
                assert(ordered(s[p as int], s[j - 1]));
                lemma_transitive(v, s[p as int], s[j - 1]);
            }
        }
        to_multiset_insert(s, p as int, v);
        assert(t.to_multiset() =~= s.to_multiset().insert(v));
    }
}

/// The texts in the order of their characters.
pub fn sort_names(names: Vec<String>) -> (r: Vec<String>)
    ensures
        sorted(texts(r@)),
        texts(r@).to_multiset() == texts(names@).to_multiset(),
{
    let mut out: Vec<String> = Vec::new();
    let ghost all = texts(names@);
    let mut i: usize = 0;
    proof {
        assert(texts(out@) =~= all.take(0));
    }
    while i < names.len()
        invariant
            i <= names@.len(),
            all == texts(names@),
            sorted(texts(out@)),
            texts(out@).to_multiset() == all.take(i as int).to_multiset(),
        decreases names@.len() - i,
    {
        insert_sorted(&mut out, names[i].as_str().to_owned());
        proof {
            assert(all.take(i + 1) =~= all.take(i as int).push(all[i as int]));
            to_multiset_build(all.take(i as int), all[i as int]);
        }
        i += 1;
    }
    assert(all.take(i as int) =~= all);
    out
}

/// The names of schematics among some files' names, in their order.
pub open spec fn schematics_among(names: Seq<Seq<char>>) -> Seq<Seq<char>>
    decreases names.len(),
{
    if names.len() == 0 {
        Seq::empty()
    } else {
        let before = schematics_among(names.drop_last());
        if names_schematic(names.last()) {
            before.push(names.last())
        } else {
            before
        }
    }
}

/// The names of schematics among some files' names, sorted.
pub fn list_files(names: &Vec<String>) -> (r: Vec<String>)
    ensures
        sorted(texts(r@)),
        texts(r@).to_multiset() == schematics_among(texts(names@)).to_multiset(),
{
    let ghost all = texts(names@);
    let mut chosen: Vec<String> = Vec::new();
    let mut i: usize = 0;
    assert(texts(chosen@) =~= schematics_among(all.take(0)));
    while i < names.len()
        invariant
            i <= names@.len(),
            all == texts(names@),
            texts(chosen@) == schematics_among(all.take(i as int)),
        decreases names@.len() - i,
    {
        assert(all.take(i + 1).drop_last() =~= all.take(i as int));
        assert(all.take(i + 1).last() == names@[i as int]@);
        if is_schematic_name(names[i].as_str()) {
            let ghost before = texts(chosen@);
            chosen.push(names[i].as_str().to_owned());
            assert(texts(chosen@) =~= before.push(names@[i as int]@));
        }
        i += 1;
    }
    assert(all.take(i as int) =~= all);
    sort_names(chosen)
}

/// What tells the player which schematics there are.
pub open spec fn list_notices(files: Seq<Seq<char>>) -> Seq<(Level, Seq<char>)> {
    if files.len() == 0 {
        seq![(Level::Warn, "No schematics found."@)]
    } else {
        seq![
            (Level::Info, "Available schematics ("@ + decimal(files.len() as int) + "):"@),
        ] + files.map_values(|f: Seq<char>| (Level::Detail, "  - "@ + f))
    }
}

/// The messages about which schematics there are.
pub fn tell_files(files: &Vec<String>) -> (r: Vec<Notice>)
    ensures
        notices_view(r@) == list_notices(texts(files@)),
{
    if files.len() == 0 {
        return single(Level::Warn, "No schematics found.".to_string());
    }
    let ghost all = texts(files@);
    let ghost lines = all.map_values(|f: Seq<char>| (Level::Detail, "  - "@ + f));
    let mut text = "Available schematics (".to_string();
    push_decimal(&mut text, files.len() as u64);
    text.append("):");
    let ghost head = (Level::Info, text@);
    let mut r = single(Level::Info, text);
    let mut i: usize = 0;
    assert(seq![head] =~= seq![head] + lines.take(0));
    while i < files.len()
        invariant
            i <= files@.len(),
            all == texts(files@),
            lines == all.map_values(|f: Seq<char>| (Level::Detail, "  - "@ + f)),
            notices_view(r@) == seq![head] + lines.take(i as int),
        decreases files@.len() - i,
    {
        let line = joined_text("  - ", files[i].as_str());
        let ghost before = notices_view(r@);
        let ghost t = line@;
        r.push(Notice { level: Level::Detail, text: line });
        assert(notices_view(r@) =~= before.push((Level::Detail, t)));
        assert(all[i as int] == files@[i as int]@);
        assert(lines.take(i + 1) =~= lines.take(i as int).push((Level::Detail, t)));
        assert(notices_view(r@) =~= seq![head] + lines.take(i + 1));
        i += 1;
    }
    assert(lines.take(i as int) =~= lines);
    r
}

} // verus!
