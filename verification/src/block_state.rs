//! How turning and mirroring change the properties of a block state.
use vstd::prelude::*;
use vstd::string::*;

use crate::block_string::lemma_text_put;
use crate::host::{describe, describes, info_view, pairs_view, resolve, resolves, BlockStateInfo};
use crate::names::{lookup, put, NameMap};
use crate::schematic::{text_pairs, PaletteView};
use crate::text::{decimal, decimal_i64, i32_in, parse_i32, same};

verus! {

/// The axis along which a mirror turns things around.
#[derive(Clone, Copy, Debug, PartialEq, Eq, Structural)]
pub enum FlipAxis {
    X,
    Z,
}

/// The direction that is `i` quarter turns clockwise from north.
pub open spec fn compass(i: int) -> Seq<char> {
    if i == 0 {
        "north"@
    } else if i == 1 {
        "east"@
    } else if i == 2 {
        "south"@
    } else {
        "west"@
    }
}

/// How many quarter turns clockwise from north a direction is, or 4 for any other text.
pub open spec fn compass_index(s: Seq<char>) -> int {
    if s == "north"@ {
        0
    } else if s == "east"@ {
        1
    } else if s == "south"@ {
        2
    } else if s == "west"@ {
        3
    } else {
        4
    }
}

/// The whole quarter turns in an angle, towards zero.
pub open spec fn quarter_turns(degrees: int) -> int {
    if degrees >= 0 {
        degrees / 90
    } else {
        -((-degrees) / 90)
    }
}

/// The direction that a direction turns into.
pub open spec fn turned_facing(facing: Seq<char>, degrees: int) -> Option<Seq<char>> {
    let i = compass_index(facing);
    if i < 4 {
        Some(compass((i + quarter_turns(degrees)) % 4))
    } else {
        None
    }
}

/// The horizontal axis that an axis turns into, if it turns into another.
pub open spec fn turned_axis(axis: Seq<char>, degrees: int) -> Option<Seq<char>> {
    if degrees % 180 == 0 {
        None
    } else if axis == "x"@ {
        Some("z"@)
    } else if axis == "z"@ {
        Some("x"@)
    } else {
        None
    }
}

/// The sixteenth of a circle that a number turns into.
pub open spec fn turned_rotation(rotation: Seq<char>, degrees: int) -> Option<Seq<char>> {
    match i32_in(rotation) {
        Some(r) => Some(decimal((r + 4 * quarter_turns(degrees)) % 16)),
        None => None,
    }
}

/// The direction that a direction is mirrored into, if it is mirrored into another.
pub open spec fn mirrored_facing(facing: Seq<char>, axis: FlipAxis) -> Option<Seq<char>> {
    match axis {
        FlipAxis::X => if facing == "east"@ {
            Some("west"@)
        } else if facing == "west"@ {
            Some("east"@)
        } else {
            None
        },
        FlipAxis::Z => if facing == "north"@ {
            Some("south"@)
        } else if facing == "south"@ {
            Some("north"@)
        } else {
            None
        },
    }
}

/// The properties that a list of pairs gives, a later pair replacing an earlier one of its name.
pub open spec fn collected(s: Seq<(Seq<char>, Seq<char>)>) -> Seq<(Seq<char>, Seq<char>)>
    decreases s.len(),
{
    if s.len() == 0 {
        Seq::empty()
    } else {
        put(collected(s.drop_last()), s.last().0, s.last().1)
    }
}

/// The value that a property changes to: what its present value turns into, if there is one.
pub open spec fn change(
    p: Seq<(Seq<char>, Seq<char>)>,
    key: Seq<char>,
    into: spec_fn(Seq<char>) -> Option<Seq<char>>,
) -> Option<Seq<char>> {
    match lookup(p, key) {
        Some(v) => into(v),
        None => None,
    }
}

/// The properties after one of them changed.
pub open spec fn changed(
    p: Seq<(Seq<char>, Seq<char>)>,
    key: Seq<char>,
    value: Option<Seq<char>>,
) -> Seq<(Seq<char>, Seq<char>)> {
    match value {
        Some(v) => put(p, key, v),
        None => p,
    }
}

/// How a turn changes directions.
pub open spec fn facing_turn(degrees: int) -> spec_fn(Seq<char>) -> Option<Seq<char>> {
    |v: Seq<char>| turned_facing(v, degrees)
}

/// How a turn changes axes.
pub open spec fn axis_turn(degrees: int) -> spec_fn(Seq<char>) -> Option<Seq<char>> {
    |v: Seq<char>| turned_axis(v, degrees)
}

/// How a turn changes sixteenths of a circle.
pub open spec fn rotation_turn(degrees: int) -> spec_fn(Seq<char>) -> Option<Seq<char>> {
    |v: Seq<char>| turned_rotation(v, degrees)
}

/// How a mirroring changes directions.
pub open spec fn facing_mirror(axis: FlipAxis) -> spec_fn(Seq<char>) -> Option<Seq<char>> {
    |v: Seq<char>| mirrored_facing(v, axis)
}

/// The block state that a block state turns into, if a property changes.
pub open spec fn turned_state(block: PaletteView, degrees: int) -> Option<PaletteView> {
    let p0 = collected(block.properties);
    let facing = change(p0, "facing"@, facing_turn(degrees));
    let p1 = changed(p0, "facing"@, facing);
    let axis = change(p1, "axis"@, axis_turn(degrees));
    let p2 = changed(p1, "axis"@, axis);
    let rotation = change(p2, "rotation"@, rotation_turn(degrees));
    let p3 = changed(p2, "rotation"@, rotation);
    if facing is Some || axis is Some || rotation is Some {
        Some(PaletteView { name: block.name, properties: p3 })
    } else {
        None
    }
}

/// The block state that a block state is mirrored into, if a property changes.
pub open spec fn mirrored_state(block: PaletteView, axis: FlipAxis) -> Option<PaletteView> {
    let p0 = collected(block.properties);
    match change(p0, "facing"@, facing_mirror(axis)) {
        Some(v) => Some(PaletteView { name: block.name, properties: put(p0, "facing"@, v) }),
        None => None,
    }
}

/// How a turn changes block states.
pub open spec fn turning(degrees: int) -> spec_fn(PaletteView) -> Option<PaletteView> {
    |b: PaletteView| turned_state(b, degrees)
}

/// How a mirroring changes block states.
pub open spec fn mirroring(axis: FlipAxis) -> spec_fn(PaletteView) -> Option<PaletteView> {
    |b: PaletteView| mirrored_state(b, axis)
}

/// Whether a state may become another: nothing stays nothing, a state that the registry does not
/// know or that does not change stays as it is, and any other becomes what the registry answers
/// for the changed state, or stays as it is if there is no answer.
pub open spec fn becomes(
    state_id: u16,
    change: spec_fn(PaletteView) -> Option<PaletteView>,
    r: u16,
) -> bool {
    if state_id == 0 {
        r == 0
    } else {
        exists|info: Option<PaletteView>| #[trigger]
            describes(state_id, info) && becomes_known(state_id, info, change, r)
    }
}

/// Whether a state that is not nothing may become another, given what the registry knows of it.
pub open spec fn becomes_known(
    state_id: u16,
    info: Option<PaletteView>,
    change: spec_fn(PaletteView) -> Option<PaletteView>,
    r: u16,
) -> bool {
    match info {
        None => r == state_id,
        Some(block) => match change(block) {
            None => r == state_id,
            Some(wanted) => settled(wanted, state_id, r),
        },
    }
}

/// Whether the registry may give this number for a block state, another number standing in where
/// it has none.
pub open spec fn settled(wanted: PaletteView, other: u16, r: u16) -> bool {
    exists|answer: Option<u16>| #[trigger]
        resolves(wanted, answer) && r == (match answer {
            Some(id) => id,
            None => other,
        })
}

/// The direction that a direction turns into.
pub fn rotate_facing(facing: &str, degrees: i32) -> (r: Option<&'static str>)
    ensures
        match (r, turned_facing(facing@, degrees as int)) {
            (Some(v), Some(s)) => v@ == s,
            (None, None) => true,
            _ => false,
        },
{
    let i: i64 = if same(facing, "north") {
        0
    } else if same(facing, "east") {
        1
    } else if same(facing, "south") {
        2
    } else if same(facing, "west") {
        3
    } else {
        return None;
    };
    let k: i64 = wrap(i + whole_quarters(degrees), 4);
    if k == 0 {
        Some("north")
    } else if k == 1 {
        Some("east")
    } else if k == 2 {
        Some("south")
    } else {
        Some("west")
    }
}

/// The whole quarter turns in an angle, towards zero.
fn whole_quarters(degrees: i32) -> (r: i64)
    ensures
        r == quarter_turns(degrees as int),
        -23860930 <= r <= 23860930,
{
    let d: i64 = degrees as i64;
    if d >= 0 {
        d / 90
    } else {
        -((-d) / 90)
    }
}

/// The remainder of a division by 4 or 16, never negative.
fn wrap(v: i64, m: i64) -> (r: i64)
    requires
        m == 4 || m == 16,
        -0x1_0000_0000 <= v <= 0x1_0000_0000,
    ensures
        r == v as int % m as int,
{
    (v + 0x1_0000_0000) % m
}

/// The axis that an axis turns into, if it turns into another.
pub fn rotate_axis(axis: &str, degrees: i32) -> (r: Option<&'static str>)
    ensures
        match (r, turned_axis(axis@, degrees as int)) {
            (Some(v), Some(s)) => v@ == s,
            (None, None) => true,
            _ => false,
        },
{
    let d: i64 = degrees as i64;
    let d: i64 = if d < 0 {
        -d
    } else {
        d
    };
    if d % 180 == 0 {
        return None;
    }
    if same(axis, "x") {
        Some("z")
    } else if same(axis, "z") {
        Some("x")
    } else {
        None
    }
}

/// The properties as a map.
fn collect(pairs: &Vec<(String, String)>) -> (r: NameMap<String>)
    ensures
        text_pairs(r@) == collected(pairs_view(pairs@)),
{
    let mut r: NameMap<String> = NameMap::new();
    let ghost p = pairs_view(pairs@);
    let mut i: usize = 0;
    assert(text_pairs(r@) =~= collected(p.take(0)));
    while i < pairs.len()
        invariant
            i <= pairs@.len(),
            p == pairs_view(pairs@),
            text_pairs(r@) == collected(p.take(i as int)),
        decreases pairs@.len() - i,
    {
        let key = pairs[i].0.as_str().to_owned();
        let value = pairs[i].1.as_str().to_owned();
        proof {
            assert(p.take(i + 1).drop_last() =~= p.take(i as int));
            assert(p.take(i + 1).last() == p[i as int]);
            lemma_text_put(r@, key@, value);
        }
        r.insert(key, value);
        i += 1;
    }
    assert(p.take(i as int) =~= p);
    r
}

/// The value of a property.
fn text_of<'a>(p: &'a NameMap<String>, key: &str) -> (r: Option<&'a str>)
    ensures
        match (r, lookup(text_pairs(p@), key@)) {
            (Some(v), Some(s)) => v@ == s,
            (None, None) => true,
            _ => false,
        },
{
    proof {
        crate::names::lemma_slot(p@, key@);
        assert forall|k: int| 0 <= k < p@.len() implies (#[trigger] text_pairs(p@)[k]).0 == p@[k].0 by {
        }
        crate::names::lemma_slot_is(text_pairs(p@), key@, crate::names::slot(p@, key@));
    }
    match p.get(key) {
        Some(v) => Some(v.as_str()),
        None => None,
    }
}

/// Stores the value of a property.
fn set_text(p: &mut NameMap<String>, key: &str, value: String)
    ensures
        text_pairs(final(p)@) == put(text_pairs(old(p)@), key@, value@),
{
    let key = key.to_owned();
    proof {
        lemma_text_put(p@, key@, value);
    }
    p.insert(key, value);
}

/// A block state with the properties of a map.
fn with_properties(name: &String, p: NameMap<String>) -> (r: BlockStateInfo)
    ensures
        r@ == (PaletteView { name: name@, properties: text_pairs(p@) }),
{
    let r = BlockStateInfo { name: name.as_str().to_owned(), properties: p.entries };
    assert(pairs_view(r.properties@) =~= text_pairs(p@));
    r
}

/// The block state that a block state turns into, if a property changes.
pub fn turn_state(info: &BlockStateInfo, degrees: i32) -> (r: Option<BlockStateInfo>)
    ensures
        info_view(r) == turned_state(info@, degrees as int),
{
    let mut p = collect(&info.properties);
    let mut any: bool = false;
    let facing: Option<&'static str> = match text_of(&p, "facing") {
        Some(v) => rotate_facing(v, degrees),
        None => None,
    };
    if let Some(v) = facing {
        set_text(&mut p, "facing", v.to_owned());
        any = true;
    }
    let axis: Option<&'static str> = match text_of(&p, "axis") {
        Some(v) => rotate_axis(v, degrees),
        None => None,
    };
    if let Some(v) = axis {
        set_text(&mut p, "axis", v.to_owned());
        any = true;
    }
    let rotation: Option<i32> = match text_of(&p, "rotation") {
        Some(v) => parse_i32(v),
        None => None,
    };
    if let Some(v) = rotation {
        let turned: i64 = wrap(v as i64 + 4 * whole_quarters(degrees), 16);
        set_text(&mut p, "rotation", decimal_i64(turned));
        any = true;
    }
    if any {
        Some(with_properties(&info.name, p))
    } else {
        None
    }
}

/// The block state that a block state is mirrored into, if a property changes.
pub fn mirror_state(info: &BlockStateInfo, axis: FlipAxis) -> (r: Option<BlockStateInfo>)
    ensures
        info_view(r) == mirrored_state(info@, axis),
{
    let mut p = collect(&info.properties);
    let facing: Option<&'static str> = match text_of(&p, "facing") {
        Some(v) => match axis {
            FlipAxis::X => if same(v, "east") {
                Some("west")
            } else if same(v, "west") {
                Some("east")
            } else {
                None
            },
            FlipAxis::Z => if same(v, "north") {
                Some("south")
            } else if same(v, "south") {
                Some("north")
            } else {
                None
            },
        },
        None => None,
    };
    match facing {
        Some(v) => {
            set_text(&mut p, "facing", v.to_owned());
            Some(with_properties(&info.name, p))
        },
        None => None,
    }
}

/// The number that the registry gives for a block state, or else another number.
fn resolve_or(block: &BlockStateInfo, other: u16) -> (r: u16)
    ensures
        settled(block@, other, r),
{
    match resolve(block) {
        Some(id) => id,
        None => other,
    }
}

/// The state that a state turns into, by the registry.
pub fn rotate_block_state(state_id: u16, degrees: i32) -> (r: u16)
    ensures
        becomes(state_id, turning(degrees as int), r),
{
    if state_id == 0 {
        return 0;
    }
    let ghost change = turning(degrees as int);
    let known = describe(state_id);
    let r: u16 = match &known {
        Some(info) => {
            let wanted = turn_state(info, degrees);
            assert(change(info@) == info_view(wanted));
            match &wanted {
                Some(block) => resolve_or(block, state_id),
                None => state_id,
            }
        },
        None => state_id,
    };
    assert(becomes_known(state_id, info_view(known), change, r));
    r
}

/// The state that a state is mirrored into, by the registry.
pub fn flip_block_state(state_id: u16, axis: FlipAxis) -> (r: u16)
    ensures
        becomes(state_id, mirroring(axis), r),
{
    if state_id == 0 {
        return 0;
    }
    let ghost change = mirroring(axis);
    let known = describe(state_id);
    let r: u16 = match &known {
        Some(info) => {
            let wanted = mirror_state(info, axis);
            assert(change(info@) == info_view(wanted));
            match &wanted {
                Some(block) => resolve_or(block, state_id),
                None => state_id,
            }
        },
        None => state_id,
    };
    assert(becomes_known(state_id, info_view(known), change, r));
    r
}

} // verus!
