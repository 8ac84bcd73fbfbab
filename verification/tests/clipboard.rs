use pumpkinetica::assemble::{schematic_to_clipboard, try_schematic_to_clipboard};
use pumpkinetica::block_state::{
    flip_block_state, mirror_state, rotate_axis, rotate_block_state, rotate_facing, turn_state,
    FlipAxis,
};
use pumpkinetica::clipboard::{
    can_move, flip_clipboard, mirror_of, move_clipboard, rotate_clipboard, turn_of, Clipboard,
    Motion,
};
use pumpkinetica::commands::encode_save;
use pumpkinetica::grid::BlockPos;
use pumpkinetica::host::BlockStateInfo;
use pumpkinetica::names::NameMap;
use pumpkinetica::palette::{clipboard_to_schem_data, distinct_states, schem_data, write_state};
use pumpkinetica::resolve::{count_missing, settle_palette};
use pumpkinetica::schem::parse_schem;
use pumpkinetica::schematic::{PaletteEntry, Region, Schematic, TileEntity};

fn pos(x: i32, y: i32, z: i32) -> BlockPos {
    BlockPos { x, y, z }
}

fn clip(blocks: Vec<u16>, size: (i32, i32, i32)) -> Clipboard {
    Clipboard {
        name: "c".to_string(),
        blocks,
        tile_entities: vec![(pos(1, 0, 0), vec![9])],
        size_x: size.0,
        size_y: size.1,
        size_z: size.2,
        offset: pos(0, 0, 1),
    }
}

fn parts(c: &Clipboard) -> (Vec<u16>, Vec<(BlockPos, Vec<u8>)>, (i32, i32, i32), BlockPos) {
    (c.blocks.clone(), c.tile_entities.clone(), (c.size_x, c.size_y, c.size_z), c.offset)
}

fn turned(c: &mut Clipboard, m: Motion) {
    let states = c.blocks.clone();
    move_clipboard(c, m, &states);
}

#[test]
fn a_quarter_turn_goes_clockwise() {
    // Two columns from west to east, three rows from north to south.
    let mut c = clip(vec![1, 2, 3, 4, 5, 6], (2, 1, 3));
    turned(&mut c, Motion::Quarter);
    assert_eq!((c.size_x, c.size_y, c.size_z), (3, 1, 2));
    assert_eq!(c.blocks, vec![5, 3, 1, 6, 4, 2]);
    assert_eq!(c.tile_entities[0].0, pos(2, 0, 1));
    assert_eq!(c.offset, pos(1, 0, 0));
}

#[test]
fn motions_move_every_layer() {
    let mut c = clip((1..=12).collect(), (2, 2, 3));
    turned(&mut c, Motion::MirrorX);
    assert_eq!(c.blocks, vec![2, 1, 4, 3, 6, 5, 8, 7, 10, 9, 12, 11]);
    assert_eq!(c.tile_entities[0].0, pos(0, 0, 0));
    assert_eq!(c.offset, pos(1, 0, 1));
    let mut c = clip((1..=12).collect(), (2, 2, 3));
    turned(&mut c, Motion::MirrorZ);
    assert_eq!(c.blocks, vec![5, 6, 3, 4, 1, 2, 11, 12, 9, 10, 7, 8]);
    let mut c = clip((1..=12).collect(), (2, 2, 3));
    turned(&mut c, Motion::Half);
    assert_eq!(c.blocks, vec![6, 5, 4, 3, 2, 1, 12, 11, 10, 9, 8, 7]);
}

#[test]
fn motions_are_undone_by_their_reverse() {
    let original = clip((1..=12).collect(), (2, 2, 3));
    let pairs = [
        (Motion::Quarter, Motion::ThreeQuarters),
        (Motion::ThreeQuarters, Motion::Quarter),
        (Motion::Half, Motion::Half),
        (Motion::MirrorX, Motion::MirrorX),
        (Motion::MirrorZ, Motion::MirrorZ),
    ];
    for (m, back) in pairs {
        let mut c = clip((1..=12).collect(), (2, 2, 3));
        turned(&mut c, m);
        assert!(c.is_well_formed());
        turned(&mut c, back);
        assert_eq!(parts(&c), parts(&original));
    }
}

#[test]
fn quarter_turns_add_up() {
    let mut twice = clip((1..=12).collect(), (2, 2, 3));
    turned(&mut twice, Motion::Quarter);
    turned(&mut twice, Motion::Quarter);
    let mut half = clip((1..=12).collect(), (2, 2, 3));
    turned(&mut half, Motion::Half);
    assert_eq!(parts(&twice), parts(&half));
    turned(&mut twice, Motion::Quarter);
    turned(&mut twice, Motion::Quarter);
    assert_eq!(parts(&twice), parts(&clip((1..=12).collect(), (2, 2, 3))));
}

#[test]
fn a_turn_keeps_the_way_to_the_origin() {
    let mut c = clip((1..=6).collect(), (2, 1, 3));
    let before = (c.tile_entities[0].0.x - c.offset.x, c.tile_entities[0].0.z - c.offset.z);
    turned(&mut c, Motion::Quarter);
    let after = (c.tile_entities[0].0.x - c.offset.x, c.tile_entities[0].0.z - c.offset.z);
    assert_eq!(after, (-before.1, before.0));
}

#[test]
fn a_turned_clipboard_is_placed_around_the_same_origin() {
    let origin = pos(100, 64, -7);
    let (before, tiles) = clip((1..=6).collect(), (2, 1, 3)).to_work_queue(origin, false);
    let around = |p: BlockPos| pos(origin.x - (p.z - origin.z), p.y, origin.z + (p.x - origin.x));
    let mut c = clip((1..=6).collect(), (2, 1, 3));
    turned(&mut c, Motion::Quarter);
    let (after, turned_tiles) = c.to_work_queue(origin, false);
    assert_eq!(after.len(), before.len());
    for b in &before {
        let moved = after.iter().find(|a| a.state_id == b.state_id).unwrap();
        assert_eq!(moved.pos, around(b.pos));
    }
    assert_eq!(turned_tiles[0].pos, around(tiles[0].pos));
}

#[test]
fn a_region_lies_at_its_own_coordinates() {
    let s = schematic(vec![region([10, 5, -3], [-2, 1, 1], vec![1, 2])]);
    let maps = vec![vec![None, Some(7), Some(8)]];
    let c = schematic_to_clipboard("n".to_string(), &s, &maps).unwrap();
    let (q, t) = c.to_work_queue(pos(100, 200, 300), false);
    let placed: Vec<_> = q.iter().map(|b| (b.pos, b.state_id)).collect();
    assert_eq!(placed, vec![(pos(109, 205, 297), 7), (pos(110, 205, 297), 8)]);
    let tile = &s.regions[0].tile_entities[0];
    assert_eq!(t[0].pos, pos(109 + tile.x, 205 + tile.y, 297 + tile.z));
}

#[test]
fn blocks_take_their_new_states_along() {
    let mut c = clip(vec![1, 2], (2, 1, 1));
    move_clipboard(&mut c, Motion::MirrorX, &vec![10, 20]);
    assert_eq!(c.blocks, vec![20, 10]);
}

#[test]
fn far_positions_cannot_be_moved() {
    let mut c = clip(vec![1], (1, 1, 1));
    assert!(can_move(&c, Motion::Quarter));
    c.tile_entities[0].0 = pos(0, 0, -i32::MAX);
    assert!(can_move(&c, Motion::Quarter));
    c.tile_entities[0].0 = pos(0, 0, i32::MIN);
    assert!(!can_move(&c, Motion::Quarter));
    assert!(!can_move(&c, Motion::Half));
    assert!(can_move(&c, Motion::ThreeQuarters));
    assert!(can_move(&c, Motion::MirrorX));
    assert!(!can_move(&c, Motion::MirrorZ));
    c.tile_entities.clear();
    c.offset = pos(i32::MIN, 0, 0);
    assert!(!can_move(&c, Motion::MirrorX));
}

#[test]
fn air_is_turned_without_the_registry() {
    assert_eq!(rotate_block_state(0, 90), 0);
    assert_eq!(flip_block_state(0, FlipAxis::X), 0);
    let mut c = clip(vec![0, 0, 0, 0, 0, 0], (2, 1, 3));
    rotate_clipboard(&mut c, 90);
    assert_eq!((c.size_x, c.size_z), (3, 2));
    flip_clipboard(&mut c, FlipAxis::Z);
    assert_eq!(c.offset, pos(1, 0, 1));
    let before = parts(&c);
    rotate_clipboard(&mut c, 45);
    rotate_clipboard(&mut c, 360);
    assert_eq!(parts(&c), before);
    assert_eq!(turn_of(270), Some(Motion::ThreeQuarters));
    assert_eq!(turn_of(0), None);
    assert_eq!(mirror_of(FlipAxis::Z), Motion::MirrorZ);
}

#[test]
fn directions_turn_clockwise() {
    assert_eq!(rotate_facing("north", 90), Some("east"));
    assert_eq!(rotate_facing("west", 90), Some("north"));
    assert_eq!(rotate_facing("west", 270), Some("south"));
    assert_eq!(rotate_facing("south", 180), Some("north"));
    assert_eq!(rotate_facing("east", -90), Some("north"));
    assert_eq!(rotate_facing("east", 89), Some("east"));
    assert_eq!(rotate_facing("east", -89), Some("east"));
    assert_eq!(rotate_facing("up", 90), None);
    assert_eq!(rotate_axis("x", 90), Some("z"));
    assert_eq!(rotate_axis("z", 270), Some("x"));
    assert_eq!(rotate_axis("y", 90), None);
    assert_eq!(rotate_axis("x", 180), None);
    assert_eq!(rotate_axis("x", -90), Some("z"));
}

fn block(name: &str, p: &[(&str, &str)]) -> BlockStateInfo {
    BlockStateInfo {
        name: name.to_string(),
        properties: p.iter().map(|(k, v)| (k.to_string(), v.to_string())).collect(),
    }
}

fn shown(b: &Option<BlockStateInfo>) -> String {
    format!("{b:?}")
}

#[test]
fn block_states_turn() {
    let stairs = block("minecraft:oak_stairs", &[("facing", "north"), ("half", "top")]);
    assert_eq!(
        shown(&turn_state(&stairs, 90)),
        shown(&Some(block("minecraft:oak_stairs", &[("facing", "east"), ("half", "top")])))
    );
    let log = block("minecraft:oak_log", &[("axis", "x")]);
    assert_eq!(
        shown(&turn_state(&log, 270)),
        shown(&Some(block("minecraft:oak_log", &[("axis", "z")])))
    );
    assert!(turn_state(&log, 180).is_none());
    let sign = block("minecraft:oak_sign", &[("rotation", "14")]);
    assert_eq!(
        shown(&turn_state(&sign, 90)),
        shown(&Some(block("minecraft:oak_sign", &[("rotation", "2")])))
    );
    let far = block("minecraft:oak_sign", &[("rotation", "-1")]);
    assert_eq!(
        shown(&turn_state(&far, 90)),
        shown(&Some(block("minecraft:oak_sign", &[("rotation", "3")])))
    );
    let largest = block("minecraft:oak_sign", &[("rotation", "2147483647")]);
    assert_eq!(
        shown(&turn_state(&largest, 90)),
        shown(&Some(block("minecraft:oak_sign", &[("rotation", "3")])))
    );
    assert!(turn_state(&block("minecraft:oak_sign", &[("rotation", "x")]), 90).is_none());
    assert!(turn_state(&block("minecraft:stone", &[]), 90).is_none());
    let twice = block("a", &[("facing", "north"), ("b", "1"), ("facing", "south")]);
    assert_eq!(
        shown(&turn_state(&twice, 90)),
        shown(&Some(block("a", &[("facing", "west"), ("b", "1")])))
    );
}

#[test]
fn block_states_turn_back() {
    let b = block("a", &[("facing", "west"), ("axis", "z"), ("rotation", "7"), ("c", "d")]);
    for d in [90, 180, 270] {
        let there = turn_state(&b, d).unwrap();
        assert_eq!(shown(&turn_state(&there, 360 - d)), shown(&Some(block(
            "a",
            &[("facing", "west"), ("axis", "z"), ("rotation", "7"), ("c", "d")],
        ))));
    }
}

#[test]
fn block_states_are_mirrored() {
    let b = block("a", &[("facing", "east")]);
    let there = mirror_state(&b, FlipAxis::X).unwrap();
    assert_eq!(there.properties[0].1, "west");
    assert_eq!(shown(&mirror_state(&there, FlipAxis::X)), shown(&Some(b)));
    assert!(mirror_state(&there, FlipAxis::Z).is_none());
    let n = block("a", &[("facing", "north")]);
    assert_eq!(mirror_state(&n, FlipAxis::Z).unwrap().properties[0].1, "south");
    assert!(mirror_state(&n, FlipAxis::X).is_none());
    assert!(mirror_state(&block("a", &[("axis", "x")]), FlipAxis::X).is_none());
}

fn region(position: [i32; 3], size: [i32; 3], block_indices: Vec<u16>) -> Region {
    Region {
        name: "r".to_string(),
        position,
        size,
        palette: vec![],
        block_indices,
        tile_entities: vec![TileEntity { x: 1, y: 0, z: 0, raw_nbt: vec![1, 2] }],
    }
}

fn schematic(regions: Vec<Region>) -> Schematic {
    Schematic { name: "s".to_string(), regions }
}

#[test]
fn regions_are_put_together() {
    // The second region lies one to the west of the first and overlaps it.
    let s = schematic(vec![
        region([10, 5, 5], [2, 1, 1], vec![1, 1]),
        region([10, 5, 5], [-2, 1, 1], vec![1, 0]),
    ]);
    let maps = vec![vec![Some(0), Some(7)], vec![None, Some(8)]];
    let c = schematic_to_clipboard("n".to_string(), &s, &maps).unwrap();
    assert_eq!((c.size_x, c.size_y, c.size_z), (3, 1, 1));
    assert_eq!(c.blocks, vec![8, 7, 7]);
    assert_eq!(c.offset, pos(-9, -5, -5));
    assert_eq!(
        c.tile_entities,
        vec![(pos(2, 0, 0), vec![1, 2]), (pos(1, 0, 0), vec![1, 2])]
    );
    assert_eq!(c.name, "n");
    assert!(c.is_well_formed());
    let later_wins = vec![vec![Some(0), Some(7)], vec![Some(9), Some(8)]];
    let c = schematic_to_clipboard("n".to_string(), &s, &later_wins).unwrap();
    assert_eq!(c.blocks, vec![8, 9, 7]);
}

#[test]
fn missing_indices_and_states_are_air() {
    let s = schematic(vec![region([0, 0, 0], [2, 2, 1], vec![1, 9])]);
    let c = schematic_to_clipboard("n".to_string(), &s, &vec![vec![None, Some(4)]]).unwrap();
    assert_eq!(c.blocks, vec![4, 0, 0, 0]);
}

#[test]
fn schematics_that_make_no_clipboard_are_refused() {
    let err = |s: &Schematic, maps: &Vec<Vec<Option<u16>>>| {
        schematic_to_clipboard("n".to_string(), s, maps).unwrap_err()
    };
    assert_eq!(err(&schematic(vec![]), &vec![]), "Schematic has no regions");
    assert_eq!(
        err(&schematic(vec![region([0, 0, 0], [0, 1, 1], vec![])]), &vec![vec![]]),
        "Schematic bounding box too large (0 blocks)"
    );
    let far = schematic(vec![
        region([0, 0, 0], [1, 1, 1], vec![]),
        region([10000, 99, 99], [1, 1, 1], vec![]),
    ]);
    assert_eq!(
        err(&far, &vec![vec![], vec![]]),
        "Schematic bounding box too large (100010000 blocks)"
    );
}

#[test]
fn numbers_that_do_not_fit_give_no_clipboard() {
    let none = |s: &Schematic, maps: &Vec<Vec<Option<u16>>>| {
        try_schematic_to_clipboard("n".to_string(), s, maps).is_none()
    };
    let one = vec![vec![]];
    assert!(none(&schematic(vec![region([0, 0, 0], [i32::MIN, 1, 1], vec![])]), &one));
    assert!(none(&schematic(vec![region([i32::MAX, 0, 0], [1, 1, 1], vec![])]), &one));
    assert!(none(&schematic(vec![region([i32::MIN, 0, 0], [-1, 1, 1], vec![])]), &one));
    assert!(none(&schematic(vec![region([i32::MIN, 0, 0], [1, 1, 1], vec![])]), &one));
    assert!(none(&schematic(vec![region([0, 0, 0], [1, 1, 1], vec![])]), &vec![]));
    let mut far = region([0, 0, 0], [1, 1, 1], vec![]);
    far.position = [5, 0, 0];
    far.tile_entities[0].x = i32::MAX;
    let spread = schematic(vec![region([4, 0, 0], [1, 1, 1], vec![]), far]);
    assert!(none(&spread, &vec![vec![], vec![]]));
}

fn entry(name: &str) -> PaletteEntry {
    PaletteEntry { name: name.to_string(), properties: NameMap::new() }
}

#[test]
fn palettes_are_settled_with_a_fallback() {
    let p = vec![entry("minecraft:air"), entry("air"), entry("a"), entry("b")];
    let answers = vec![None, Some(3), Some(4), None];
    assert_eq!(
        settle_palette(&p, &answers, Some(9)),
        vec![Some(0), Some(0), Some(4), Some(9)]
    );
    assert_eq!(settle_palette(&p, &answers, None), vec![Some(0), Some(0), Some(4), None]);
    assert_eq!(count_missing(&p, &answers), 1);
    assert_eq!(count_missing(&p, &vec![None, None, None, None]), 2);
}

#[test]
fn a_clipboard_becomes_a_palette() {
    let blocks = vec![5, 0, 5, 6, 7, 8, 0];
    let states = distinct_states(&blocks);
    assert_eq!(states, vec![5, 0, 6, 7, 8]);
    let infos = vec![
        Some(block("minecraft:lever", &[("face", "wall"), ("powered", "false")])),
        Some(block("ignored", &[])),
        None,
        Some(block("minecraft:sand", &[])),
        None,
    ];
    let (palette, indices, missing) = schem_data(&blocks, &states, &infos);
    assert_eq!(
        palette.entries,
        vec![
            ("minecraft:lever[face=wall,powered=false]".to_string(), 0),
            ("minecraft:air".to_string(), 1),
            ("minecraft:stone".to_string(), 2),
            ("minecraft:sand".to_string(), 3),
        ]
    );
    assert_eq!(indices, vec![0, 1, 0, 2, 3, 2, 1]);
    assert_eq!(missing, 2);
    assert_eq!(write_state(&block("a", &[])), "a");
    let (palette, indices, missing) = clipboard_to_schem_data(&clip(vec![0, 0], (2, 1, 1)));
    assert_eq!(palette.entries, vec![("minecraft:air".to_string(), 0)]);
    assert_eq!((indices, missing), (vec![0, 0], 0));
}

#[test]
fn broken_clipboards_are_recognised() {
    assert!(clip(vec![1, 2], (2, 1, 1)).is_well_formed());
    assert!(!clip(vec![1], (2, 1, 1)).is_well_formed());
    assert!(!clip(vec![], (0, 1, 1)).is_well_formed());
    assert!(!clip(vec![1], (-1, -1, 1)).is_well_formed());
    assert!(!clip(vec![], (i32::MAX, i32::MAX, i32::MAX)).is_well_formed());
}

#[test]
fn a_saved_clipboard_loads() {
    let c = clip(vec![0, 3, 4, 3, 0, 4], (3, 2, 1));
    let states = distinct_states(&c.blocks);
    let infos = vec![
        None,
        Some(block("minecraft:chest", &[("facing", "north"), ("type", "single")])),
        Some(block("minecraft:stone", &[])),
    ];
    let (palette, indices, missing) = schem_data(&c.blocks, &states, &infos);
    let job =
        encode_save("box", &palette, &indices, (c.size_x, c.size_y, c.size_z), missing).unwrap();
    assert_eq!(job.filename, "box.schem");
    let s = parse_schem(&job.bytes, &job.filename).unwrap();
    let answers: Vec<Option<u16>> = s.regions[0]
        .palette
        .iter()
        .map(|p| match (p.name.as_str(), p.properties.entries.len()) {
            ("minecraft:chest", 2) => Some(3),
            ("minecraft:stone", 0) => Some(4),
            _ => None,
        })
        .collect();
    let map = settle_palette(&s.regions[0].palette, &answers, None);
    let back = schematic_to_clipboard("box".to_string(), &s, &vec![map]).unwrap();
    assert_eq!(back.blocks, c.blocks);
    assert_eq!((back.size_x, back.size_y, back.size_z), (3, 2, 1));
    assert_eq!(back.offset, pos(0, 0, 0));
}
