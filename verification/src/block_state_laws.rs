//! What turning and mirroring a block state keep, and what undoes them.
use vstd::prelude::*;

use crate::block_state::{
    axis_turn, change, changed, collected, compass_index, facing_mirror, facing_turn,
    mirrored_facing, mirrored_state, mirroring, quarter_turns, rotation_turn, turned_axis,
    turned_facing, turned_rotation, turned_state, turning, FlipAxis,
};
use crate::clipboard::{mirror_by, turn_by};
use crate::motion_laws::swung;
use crate::names::{
    distinct, has_name, lemma_lookup_entry, lemma_lookup_put, lemma_put_distinct, lemma_slot, lemma_slot_is,
    lookup, put,
};
use crate::schematic::PaletteView;
use crate::text::{decimal, digits, digits_value, i32_in};

verus! {

/// The names of the directions differ.
proof fn lemma_compass()
    ensures
        compass_index("north"@) == 0,
        compass_index("east"@) == 1,
        compass_index("south"@) == 2,
        compass_index("west"@) == 3,
{
    reveal_strlit("north");
    reveal_strlit("east");
    reveal_strlit("south");
    reveal_strlit("west");
    assert("north"@[0] != "south"@[0]);
    assert("east"@[0] != "west"@[0]);
}

/// Turns by whole quarters add up.
pub proof fn law_facing_turns_add_up(facing: Seq<char>, a: int, b: int)
    requires
        a % 90 == 0,
        b % 90 == 0,
    ensures
        turned_facing(facing, a) matches Some(f) ==> turned_facing(f, b) == turned_facing(
            facing,
            a + b,
        ),
{
    lemma_compass();
    assert(quarter_turns(a + b) == quarter_turns(a) + quarter_turns(b));
}

/// A full turn keeps a direction.
pub proof fn law_facing_full_turn(facing: Seq<char>)
    requires
        turned_facing(facing, 0) is Some,
    ensures
        turned_facing(facing, 360) == Some(facing),
{
}

/// A direction that is mirrored is mirrored back.
pub proof fn law_facing_mirrors_back(facing: Seq<char>, axis: FlipAxis)
    ensures
        mirrored_facing(facing, axis) matches Some(f) ==> mirrored_facing(f, axis) == Some(facing),
{
    lemma_compass();
}

/// A number that is written down reads back.
pub proof fn law_decimal_reads_back(n: i32)
    ensures
        i32_in(decimal(n as int)) == Some(n),
{
    let s = decimal(n as int);
    if n < 0 {
        lemma_digits_read_back(-n as nat);
        assert(s.skip(1) =~= digits(-n as nat));
    } else {
        lemma_digits_read_back(n as nat);
    }
}

/// Digits that are written down read back.
proof fn lemma_digits_read_back(n: nat)
    ensures
        digits_value(digits(n)) == Some(n as int),
        digits(n).len() > 0,
        digits(n)[0] != '-',
        digits(n)[0] != '+',
    decreases n,
{
    if n < 10 {
        assert(digits(n).drop_last() =~= Seq::empty());
        assert(digits_value(Seq::<char>::empty()) == Some(0int));
    } else {
        lemma_digits_read_back(n / 10);
        assert(digits(n).drop_last() =~= digits(n / 10));
    }
}

/// Properties with the same names in the same places.
spec fn same_names(s: Seq<(Seq<char>, Seq<char>)>, t: Seq<(Seq<char>, Seq<char>)>) -> bool {
    s.len() == t.len() && forall|i: int| 0 <= i < s.len() ==> (#[trigger] s[i]).0 == t[i].0
}

/// A property that changes keeps the names, and no other value is affected.
proof fn lemma_changed(
    p: Seq<(Seq<char>, Seq<char>)>,
    key: Seq<char>,
    into: spec_fn(Seq<char>) -> Option<Seq<char>>,
)
    ensures
        ({
            let v = change(p, key, into);
            let q = changed(p, key, v);
            &&& same_names(p, q)
            &&& forall|other: Seq<char>| #[trigger]
                lookup(q, other) == (if other == key && v is Some {
                    v
                } else {
                    lookup(p, other)
                })
        }),
{
    let v = change(p, key, into);
    let q = changed(p, key, v);
    lemma_slot(p, key);
    assert forall|other: Seq<char>| #[trigger]
        lookup(q, other) == (if other == key && v is Some {
            v
        } else {
            lookup(p, other)
        }) by {
        if let Some(w) = v {
            lemma_lookup_put(p, key, w, other);
        }
    }
}

/// Properties with the same distinct names and the same values are equal.
proof fn lemma_same_values(s: Seq<(Seq<char>, Seq<char>)>, t: Seq<(Seq<char>, Seq<char>)>)
    requires
        same_names(s, t),
        distinct(t),
        forall|key: Seq<char>| #[trigger] lookup(s, key) == lookup(t, key),
    ensures
        s == t,
{
    lemma_same_distinct(t, s);
    assert forall|i: int| 0 <= i < s.len() implies s[i] == t[i] by {
        lemma_lookup_entry(s, i);
        lemma_lookup_entry(t, i);
        assert(s[i].0 == t[i].0);
        assert(lookup(s, s[i].0) == lookup(t, s[i].0));
    }
    assert(s =~= t);
}

/// Names that agree with distinct ones are distinct.
proof fn lemma_same_distinct(s: Seq<(Seq<char>, Seq<char>)>, t: Seq<(Seq<char>, Seq<char>)>)
    requires
        same_names(t, s) || same_names(s, t),
        distinct(s),
    ensures
        distinct(t),
{
    assert forall|i: int, j: int| 0 <= i < j < t.len() implies (#[trigger] t[i]).0 != (
    #[trigger] t[j]).0 by {
        assert(s[i].0 == t[i].0 && s[j].0 == t[j].0);
    }
}

/// Collected properties have distinct names.
proof fn lemma_collected_distinct(s: Seq<(Seq<char>, Seq<char>)>)
    ensures
        distinct(collected(s)),
    decreases s.len(),
{
    if s.len() > 0 {
        lemma_collected_distinct(s.drop_last());
        lemma_put_distinct(collected(s.drop_last()), s.last().0, s.last().1);
    }
}

/// Properties with distinct names are collected as they are.
proof fn lemma_collected_same(s: Seq<(Seq<char>, Seq<char>)>)
    requires
        distinct(s),
    ensures
        collected(s) == s,
    decreases s.len(),
{
    if s.len() > 0 {
        let t = s.drop_last();
        assert(distinct(t)) by {
            assert forall|i: int, j: int| 0 <= i < j < t.len() implies (#[trigger] t[i]).0 != (
            #[trigger] t[j]).0 by {
                assert(t[i] == s[i] && t[j] == s[j]);
            }
        }
        lemma_collected_same(t);
        assert forall|i: int| 0 <= i < t.len() implies (#[trigger] t[i]).0 != s.last().0 by {
            assert(t[i] == s[i]);
        }
        lemma_slot_is(t, s.last().0, t.len() as int);
        assert(collected(s) =~= s);
    } else {
        assert(collected(s) =~= s);
    }
}

/// Whether a block state's rotation, where it is a number, is written as one of the sixteen.
pub open spec fn plain_rotation(block: PaletteView) -> bool {
    match lookup(collected(block.properties), "rotation"@) {
        Some(v) => i32_in(v) is Some ==> exists|k: int| 0 <= k < 16 && v == #[trigger] decimal(k),
        None => true,
    }
}

/// Sixteenths that are turned are turned back.
proof fn lemma_sixteenths(k: int, degrees: int)
    requires
        degrees == 90 || degrees == 180 || degrees == 270,
        0 <= k < 16,
    ensures
        0 <= (k + 4 * quarter_turns(degrees)) % 16 < 16,
        ((k + 4 * quarter_turns(degrees)) % 16 + 4 * quarter_turns(360 - degrees)) % 16 == k,
{
}

/// A number of sixteenths that is turned is turned back.
proof fn lemma_rotation_turns_back(v: Seq<char>, degrees: int)
    requires
        degrees == 90 || degrees == 180 || degrees == 270,
        i32_in(v) is Some ==> exists|k: int| 0 <= k < 16 && v == #[trigger] decimal(k),
    ensures
        turned_rotation(v, degrees) matches Some(w) ==> turned_rotation(w, 360 - degrees) == Some(v),
{
    if i32_in(v) is Some {
        let k = choose|k: int| 0 <= k < 16 && v == #[trigger] decimal(k);
        let m = (k + 4 * quarter_turns(degrees)) % 16;
        lemma_sixteenths(k, degrees);
        law_decimal_reads_back(k as i32);
        law_decimal_reads_back(m as i32);
        assert(turned_rotation(v, degrees) == Some(decimal(m)));
        assert(turned_rotation(decimal(m), 360 - degrees) == Some(decimal(k)));
    }
}

/// A block state that is turned is turned back by the rest of the circle.
pub proof fn law_state_turns_back(block: PaletteView, degrees: int)
    requires
        degrees == 90 || degrees == 180 || degrees == 270,
        plain_rotation(block),
    ensures
        turned_state(block, degrees) matches Some(t) ==> turned_state(t, 360 - degrees) == Some(
            PaletteView { name: block.name, properties: collected(block.properties) },
        ),
{
    let back = 360 - degrees;
    reveal_strlit("facing");
    reveal_strlit("axis");
    reveal_strlit("rotation");
    let p0 = collected(block.properties);
    lemma_collected_distinct(block.properties);
    let p3 = turn_properties(p0, degrees).2;
    lemma_turn_properties(p0, degrees);
    lemma_same_distinct(p0, p3);
    lemma_collected_same(p3);
    let q3 = turn_properties(p3, back).2;
    lemma_turn_properties(p3, back);
    lemma_compass();
    reveal_strlit("x");
    reveal_strlit("z");
    assert("x"@[0] != "z"@[0]);
    if let Some(v) = lookup(p0, "facing"@) {
        law_facing_turns_add_up(v, degrees, back);
    }
    if let Some(v) = lookup(p0, "rotation"@) {
        lemma_rotation_turns_back(v, degrees);
    }
    assert forall|key: Seq<char>| #[trigger] lookup(q3, key) == lookup(p0, key) by {}
    lemma_same_values(q3, p0);
}

/// The properties after each step of a turn.
spec fn turn_properties(p0: Seq<(Seq<char>, Seq<char>)>, degrees: int) -> (
    Seq<(Seq<char>, Seq<char>)>,
    Seq<(Seq<char>, Seq<char>)>,
    Seq<(Seq<char>, Seq<char>)>,
) {
    let p1 = changed(
        p0,
        "facing"@,
        change(p0, "facing"@, facing_turn(degrees)),
    );
    let p2 = changed(p1, "axis"@, change(p1, "axis"@, axis_turn(degrees)));
    let p3 = changed(
        p2,
        "rotation"@,
        change(p2, "rotation"@, rotation_turn(degrees)),
    );
    (p1, p2, p3)
}

/// The value that a property has after a turn.
spec fn turned_value(key: Seq<char>, v: Seq<char>, degrees: int) -> Seq<char> {
    let w = if key == "facing"@ {
        turned_facing(v, degrees)
    } else if key == "axis"@ {
        turned_axis(v, degrees)
    } else if key == "rotation"@ {
        turned_rotation(v, degrees)
    } else {
        None
    };
    match w {
        Some(u) => u,
        None => v,
    }
}

/// A turn keeps the names of the properties and turns each value by itself.
proof fn lemma_turn_properties(p0: Seq<(Seq<char>, Seq<char>)>, degrees: int)
    ensures
        same_names(p0, turn_properties(p0, degrees).2),
        forall|key: Seq<char>| #[trigger]
            lookup(turn_properties(p0, degrees).2, key) == (match lookup(p0, key) {
                Some(v) => Some(turned_value(key, v, degrees)),
                None => None,
            }),
        lookup(turn_properties(p0, degrees).0, "axis"@) == lookup(p0, "axis"@),
        lookup(turn_properties(p0, degrees).1, "rotation"@) == lookup(p0, "rotation"@),
{
    reveal_strlit("facing");
    reveal_strlit("axis");
    reveal_strlit("rotation");
    assert("facing"@.len() == 6 && "axis"@.len() == 4 && "rotation"@.len() == 8);
    let (p1, p2, p3) = turn_properties(p0, degrees);
    lemma_changed(p0, "facing"@, facing_turn(degrees));
    lemma_changed(p1, "axis"@, axis_turn(degrees));
    lemma_changed(p2, "rotation"@, rotation_turn(degrees));
    assert forall|key: Seq<char>| #[trigger]
        lookup(p3, key) == (match lookup(p0, key) {
            Some(v) => Some(turned_value(key, v, degrees)),
            None => None,
        }) by {
        let v1 = change(p0, "facing"@, facing_turn(degrees));
        let v2 = change(p1, "axis"@, axis_turn(degrees));
        let v3 = change(p2, "rotation"@, rotation_turn(degrees));
        assert(lookup(p1, key) == (if key == "facing"@ && v1 is Some {
            v1
        } else {
            lookup(p0, key)
        }));
        assert(lookup(p2, key) == (if key == "axis"@ && v2 is Some {
            v2
        } else {
            lookup(p1, key)
        }));
        assert(lookup(p3, key) == (if key == "rotation"@ && v3 is Some {
            v3
        } else {
            lookup(p2, key)
        }));
    }
}

/// A block state that is mirrored is mirrored back.
pub proof fn law_state_mirrors_back(block: PaletteView, axis: FlipAxis)
    ensures
        mirrored_state(block, axis) matches Some(t) ==> mirrored_state(t, axis) == Some(
            PaletteView { name: block.name, properties: collected(block.properties) },
        ),
{
    let p0 = collected(block.properties);
    let into = facing_mirror(axis);
    lemma_collected_distinct(block.properties);
    lemma_changed(p0, "facing"@, into);
    let p1 = changed(p0, "facing"@, change(p0, "facing"@, into));
    if let Some(v) = lookup(p0, "facing"@) {
        law_facing_mirrors_back(v, axis);
        lemma_same_distinct(p0, p1);
        lemma_collected_same(p1);
        lemma_changed(p1, "facing"@, into);
        let p2 = changed(p1, "facing"@, change(p1, "facing"@, into));
        if mirrored_facing(v, axis) is Some {
            assert(lookup(p1, "facing"@) == mirrored_facing(v, axis));
            assert forall|key: Seq<char>| #[trigger] lookup(p2, key) == lookup(p0, key) by {
                assert(key != "facing"@ ==> lookup(p1, key) == lookup(p0, key));
            }
            lemma_same_values(p2, p0);
        }
    }
}

/// The way that a direction points, east and south counting up.
pub open spec fn heading(facing: Seq<char>) -> Option<(int, int)> {
    if facing == "north"@ {
        Some((0, -1))
    } else if facing == "east"@ {
        Some((1, 0))
    } else if facing == "south"@ {
        Some((0, 1))
    } else if facing == "west"@ {
        Some((-1, 0))
    } else {
        None
    }
}

/// A direction turns the way that blocks do around an origin, and is mirrored the way that they
/// are. A text that is no direction does not turn, and a direction is mirrored into another
/// exactly if it points along the axis.
pub proof fn law_directions_move_with_the_blocks(facing: Seq<char>, degrees: int, axis: FlipAxis)
    ensures
        turn_by(degrees) matches Some(m) ==> match (heading(facing), turned_facing(facing, degrees)) {
            (Some((x, z)), Some(f)) => heading(f) == Some(swung(m, x, z)),
            (None, None) => true,
            _ => false,
        },
        match heading(facing) {
            Some((x, z)) => if swung(mirror_by(axis), x, z) == (x, z) {
                mirrored_facing(facing, axis) is None
            } else {
                mirrored_facing(facing, axis) matches Some(f) && heading(f) == Some(
                    swung(mirror_by(axis), x, z),
                )
            },
            None => mirrored_facing(facing, axis) is None,
        },
{
    lemma_compass();
}

/// The vertical plane in which an axis lies: whether it runs from west to east.
pub open spec fn along_x(axis: Seq<char>) -> Option<bool> {
    if axis == "x"@ {
        Some(true)
    } else if axis == "z"@ {
        Some(false)
    } else {
        None
    }
}

/// A horizontal axis turns into the other one by an odd number of quarters, and only then; another
/// axis never turns.
pub proof fn law_axes_turn_by_odd_quarters(axis: Seq<char>, quarters: int)
    ensures
        turned_axis(axis, 90 * quarters) is Some <==> along_x(axis) is Some && quarters % 2 != 0,
        turned_axis(axis, 90 * quarters) matches Some(a) ==> along_x(a) == Some(
            !along_x(axis).unwrap(),
        ),
{
    reveal_strlit("x");
    reveal_strlit("z");
    assert("x"@[0] != "z"@[0]);
}

/// A horizontal axis turns into the other one by every angle but the half turns.
pub proof fn law_axes_stay_by_half_turns(axis: Seq<char>, degrees: int)
    ensures
        turned_axis(axis, degrees) is Some <==> along_x(axis) is Some && degrees % 180 != 0,
        turned_axis(axis, degrees) matches Some(a) ==> along_x(a) == Some(!along_x(axis).unwrap()),
{
    reveal_strlit("x");
    reveal_strlit("z");
    assert("x"@[0] != "z"@[0]);
}

/// Directions and numbers of sixteenths turn by whole quarters: what is left of an angle, in either
/// sense, does not count.
pub proof fn law_parts_of_a_quarter_do_not_count(s: Seq<char>, quarters: nat, rest: int)
    requires
        0 <= rest < 90,
    ensures
        turned_facing(s, 90 * quarters + rest) == turned_facing(s, 90 * quarters as int),
        turned_facing(s, -(90 * quarters + rest)) == turned_facing(s, -(90 * quarters)),
        turned_rotation(s, 90 * quarters + rest) == turned_rotation(s, 90 * quarters as int),
        turned_rotation(s, -(90 * quarters + rest)) == turned_rotation(s, -(90 * quarters)),
{
    assert(quarter_turns(90 * quarters + rest) == quarters);
    assert(quarter_turns(90 * quarters as int) == quarters);
    assert(quarter_turns(-(90 * quarters + rest)) == -quarters);
    assert(quarter_turns(-(90 * quarters)) == -quarters);
}

/// Every number of sixteenths turns: by whole quarters it grows by four for each, around the
/// circle. Another text does not turn.
pub proof fn law_rotation_grows_by_quarters(rotation: Seq<char>, quarters: int)
    ensures
        match i32_in(rotation) {
            Some(r) => {
                &&& turned_rotation(rotation, 90 * quarters) matches Some(w)
                &&& i32_in(w) matches Some(n)
                &&& 0 <= n < 16
                &&& (n - r - 4 * quarters) % 16 == 0
                &&& w == decimal(n as int)
            },
            None => turned_rotation(rotation, 90 * quarters) is None,
        },
{
    if let Some(r) = i32_in(rotation) {
        let m = (r + 4 * quarter_turns(90 * quarters)) % 16;
        assert(quarter_turns(90 * quarters) == quarters);
        law_decimal_reads_back(m as i32);
    }
}

/// Turns of a number of sixteenths add up as those of a direction do.
pub proof fn law_rotation_turns_add_up(rotation: Seq<char>, a: int, b: int)
    ensures
        match turned_rotation(rotation, 90 * a) {
            Some(w) => turned_rotation(w, 90 * b) == turned_rotation(rotation, 90 * (a + b)),
            None => turned_rotation(rotation, 90 * (a + b)) is None,
        },
        i32_in(rotation) is Some ==> turned_rotation(rotation, 90 * a) is Some,
{
    if let Some(r) = i32_in(rotation) {
        law_rotation_grows_by_quarters(rotation, a);
        law_rotation_grows_by_quarters(rotation, a + b);
        let w = turned_rotation(rotation, 90 * a)->0;
        law_rotation_grows_by_quarters(w, b);
        let n = i32_in(w)->0;
        let p = i32_in(turned_rotation(w, 90 * b)->0)->0;
        let q = i32_in(turned_rotation(rotation, 90 * (a + b))->0)->0;
        lemma_same_sixteenth(p as int, q as int, n as int, r as int, a, b);
    } else {
        assert(turned_rotation(rotation, 90 * a) is None);
    }
}

/// Two numbers of sixteenths that differ by whole circles are the same.
proof fn lemma_same_sixteenth(p: int, q: int, n: int, r: int, a: int, b: int)
    requires
        0 <= p < 16,
        0 <= q < 16,
        (p - n - 4 * b) % 16 == 0,
        (n - r - 4 * a) % 16 == 0,
        (q - r - 4 * (a + b)) % 16 == 0,
    ensures
        p == q,
{
}

/// Of several pairs of one name the last one counts, and a name without a pair has no value.
pub proof fn law_last_pair_counts(s: Seq<(Seq<char>, Seq<char>)>, key: Seq<char>)
    ensures
        distinct(collected(s)),
        lookup(collected(s), key) is Some <==> exists|i: int|
            0 <= i < s.len() && (#[trigger] s[i]).0 == key,
        forall|i: int|
            0 <= i < s.len() && (#[trigger] s[i]).0 == key && (forall|j: int|
                i < j < s.len() ==> (#[trigger] s[j]).0 != key) ==> lookup(collected(s), key)
                == Some(s[i].1),
    decreases s.len(),
{
    lemma_collected_distinct(s);
    if s.len() > 0 {
        let t = s.drop_last();
        law_last_pair_counts(t, key);
        lemma_lookup_put(collected(t), s.last().0, s.last().1, key);
        assert(s[s.len() - 1] == s.last());
        assert forall|i: int| 0 <= i < s.len() && (#[trigger] s[i]).0 == key && (forall|j: int|
            i < j < s.len() ==> (#[trigger] s[j]).0 != key) implies lookup(collected(s), key)
            == Some(s[i].1) by {
            if i < t.len() {
                assert(t[i] == s[i]);
                assert(s[s.len() - 1].0 != key);
                assert forall|j: int| i < j < t.len() implies (#[trigger] t[j]).0 != key by {
                    assert(t[j] == s[j]);
                }
            }
        }
        assert(lookup(collected(s), key) is Some <==> exists|i: int|
            0 <= i < s.len() && (#[trigger] s[i]).0 == key) by {
            if exists|i: int| 0 <= i < s.len() && (#[trigger] s[i]).0 == key {
                let i = choose|i: int| 0 <= i < s.len() && (#[trigger] s[i]).0 == key;
                if i < t.len() {
                    assert(t[i].0 == key);
                }
            }
            if lookup(collected(t), key) is Some {
                let i = choose|i: int| 0 <= i < t.len() && (#[trigger] t[i]).0 == key;
                assert(s[i].0 == key);
            }
        }
    } else {
        assert(!has_name(collected(s), key));
    }
}

/// Whether a block state changes in a turn: it faces a horizontal direction, or lies along a
/// horizontal axis and does not turn by half turns, or has a number of sixteenths.
pub open spec fn turns_at_all(p: Seq<(Seq<char>, Seq<char>)>, degrees: int) -> bool {
    ||| (lookup(p, "facing"@) matches Some(v) && heading(v) is Some)
    ||| (lookup(p, "axis"@) matches Some(v) && along_x(v) is Some && degrees % 180 != 0)
    ||| (lookup(p, "rotation"@) matches Some(v) && i32_in(v) is Some)
}

/// A block state is turned exactly if one of its three turning properties changes, whatever other
/// properties it has. It keeps its name, the names of its properties and every other value, and
/// each of the three turns by itself.
pub proof fn law_state_turns_property_by_property(block: PaletteView, degrees: int, key: Seq<char>)
    ensures
        ({
            let p = collected(block.properties);
            match turned_state(block, degrees) {
                None => !turns_at_all(p, degrees),
                Some(t) => {
                    &&& turns_at_all(p, degrees)
                    &&& t.name == block.name
                    &&& t.properties.len() == p.len()
                    &&& forall|i: int| 0 <= i < p.len() ==> (#[trigger] t.properties[i]).0 == p[i].0
                    &&& match lookup(p, key) {
                        None => lookup(t.properties, key) is None,
                        Some(v) => {
                            &&& lookup(t.properties, key) matches Some(w)
                            &&& if key == "facing"@ && heading(v) is Some {
                                turned_facing(v, degrees) == Some(w)
                            } else if key == "axis"@ && along_x(v) is Some && degrees % 180 != 0 {
                                turned_axis(v, degrees) == Some(w)
                            } else if key == "rotation"@ && i32_in(v) is Some {
                                turned_rotation(v, degrees) == Some(w)
                            } else {
                                w == v
                            }
                        },
                    }
                },
            }
        }),
{
    let p = collected(block.properties);
    let d = degrees;
    reveal_strlit("facing");
    reveal_strlit("axis");
    reveal_strlit("rotation");
    assert("facing"@.len() == 6 && "axis"@.len() == 4 && "rotation"@.len() == 8);
    lemma_turn_properties(p, d);
    lemma_compass();
    if let Some(v) = lookup(p, "axis"@) {
        law_axes_stay_by_half_turns(v, degrees);
    }
    if let Some(v) = lookup(p, key) {
        law_axes_stay_by_half_turns(v, degrees);
    }
    let t = turn_properties(p, d).2;
    assert(lookup(t, key) == (match lookup(p, key) {
        Some(v) => Some(turned_value(key, v, d)),
        None => None,
    }));
}

/// Whether a block state is mirrored depends on its facing alone: it changes exactly if it faces
/// along the axis. It then faces the other way and keeps all else.
pub proof fn law_state_mirrors_its_facing(block: PaletteView, axis: FlipAxis, key: Seq<char>)
    ensures
        ({
            let p = collected(block.properties);
            let (a, b) = match axis {
                FlipAxis::X => ("east"@, "west"@),
                FlipAxis::Z => ("north"@, "south"@),
            };
            let facing = lookup(p, "facing"@);
            match mirrored_state(block, axis) {
                None => facing != Some(a) && facing != Some(b),
                Some(t) => {
                    &&& facing == Some(a) || facing == Some(b)
                    &&& t.name == block.name
                    &&& t.properties.len() == p.len()
                    &&& forall|i: int| 0 <= i < p.len() ==> (#[trigger] t.properties[i]).0 == p[i].0
                    &&& lookup(t.properties, key) == (if key == "facing"@ {
                        Some(
                            if facing == Some(a) {
                                b
                            } else {
                                a
                            },
                        )
                    } else {
                        lookup(p, key)
                    })
                },
            }
        }),
{
    let p = collected(block.properties);
    lemma_compass();
    lemma_changed(p, "facing"@, facing_mirror(axis));
}

/// Turning and mirroring change every block state as the state itself turns and is mirrored.
pub proof fn law_changes_are_those_of_the_state(block: PaletteView, degrees: int, axis: FlipAxis)
    ensures
        turning(degrees)(block) == turned_state(block, degrees),
        mirroring(axis)(block) == mirrored_state(block, axis),
{
}

/// Properties are collected one by one, each stored under its name.
pub proof fn law_properties_are_collected_one_by_one(
    s: Seq<(Seq<char>, Seq<char>)>,
    e: (Seq<char>, Seq<char>),
)
    ensures
        collected(Seq::empty()) == Seq::<(Seq<char>, Seq<char>)>::empty(),
        collected(s.push(e)) == put(collected(s), e.0, e.1),
{
    assert(s.push(e).drop_last() =~= s);
    assert(collected(Seq::empty()) =~= Seq::empty());
}

} // verus!
