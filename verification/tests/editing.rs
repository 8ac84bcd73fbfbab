use std::cell::RefCell;
use std::collections::HashMap;

use pumpkinetica::clipboard::Clipboard;
use pumpkinetica::commands::finish_copy;
use pumpkinetica::grid::BlockPos;
use pumpkinetica::history::{
    history_step, run_history_op, store_operation, BlockSnapshot, PlayerHistory, UndoEntry,
};
use pumpkinetica::names::NameMap;
use pumpkinetica::nbt::NbtValue;
use pumpkinetica::nbt_read::parse_nbt;
use pumpkinetica::nbt_write::serialize_nbt_value;
use pumpkinetica::paste::PasteState;
use pumpkinetica::placement::{count_filled, BlockPlacement, TileEntityPlacement};
use pumpkinetica::selection::{
    is_wand, normalize_item_name, selection_bounds, set_corner, wand_click, Click, Selection,
};
use pumpkinetica::survey::{
    fill_queue, find_matching, read_selection_chunk_batched, to_named_root, Area,
};

fn pos(x: i32, y: i32, z: i32) -> BlockPos {
    BlockPos { x, y, z }
}

fn put(x: i32, y: i32, z: i32, state_id: u16) -> BlockPlacement {
    BlockPlacement { pos: pos(x, y, z), state_id }
}

/// A state for every position.
fn state_at(p: BlockPos) -> u16 {
    ((p.x.rem_euclid(5) + 5 * p.y.rem_euclid(5) + 25 * p.z.rem_euclid(5)) % 7) as u16
}

#[test]
fn a_selection_is_read_chunk_by_chunk() {
    let area = Area { min: pos(-3, 10, 14), max: pos(2, 11, 17) };
    let opened = RefCell::new(vec![]);
    let entities = RefCell::new(vec![]);
    let (blocks, tiles) = read_selection_chunk_batched(
        |cx, cz| {
            opened.borrow_mut().push((cx, cz));
            if cx == 0 {
                Some((cx, cz))
            } else {
                None
            }
        },
        |c: &(i32, i32), p: BlockPos| {
            assert!((0..16).contains(&p.x) && (0..16).contains(&p.z));
            state_at(pos(c.0 * 16 + p.x, p.y, c.1 * 16 + p.z))
        },
        |p| {
            assert!(p.x < 0);
            state_at(p)
        },
        |p: BlockPos| {
            entities.borrow_mut().push(p);
            if p == pos(-1, 11, 16) {
                Some(vec![10, 7])
            } else {
                None
            }
        },
        area,
    );
    assert_eq!(opened.into_inner(), vec![(-1, 0), (-1, 1), (0, 0), (0, 1)]);
    assert_eq!(blocks.len(), 6 * 2 * 4);
    for (i, b) in blocks.iter().enumerate() {
        let i = i as i32;
        let p = pos(-3 + i % 6, 10 + i / 24, 14 + i / 6 % 4);
        assert_eq!(*b, state_at(p));
    }
    let asked = entities.into_inner();
    assert_eq!(asked.len(), blocks.iter().filter(|b| **b != 0).count());
    assert!(asked.iter().all(|p| state_at(*p) != 0));
    assert_eq!(tiles, vec![(pos(2, 1, 2), vec![10, 0, 0, 7])]);
    assert_eq!(count_filled(&blocks), asked.len());
}

#[test]
fn every_block_entity_is_listed_once() {
    let area = Area { min: pos(-2, 0, 15), max: pos(1, 1, 16) };
    let (blocks, tiles) = read_selection_chunk_batched(
        |_, _| None::<u8>,
        |_: &u8, _: BlockPos| 0,
        state_at,
        |p: BlockPos| Some(vec![10, p.x as u8, p.y as u8, p.z as u8]),
        area,
    );
    assert_eq!(tiles.len(), count_filled(&blocks));
    for (i, b) in blocks.iter().enumerate() {
        let i = i as i32;
        let rel = pos(i % 4, i / 8, i / 4 % 2);
        let here: Vec<_> = tiles.iter().filter(|t| t.0 == rel).collect();
        assert_eq!(here.len(), if *b != 0 { 1 } else { 0 });
        for t in here {
            let data = vec![10, 0, 0, (rel.x - 2) as u8, rel.y as u8, (rel.z + 15) as u8];
            assert_eq!(t.1, data);
        }
    }
}

#[test]
fn every_matching_block_is_found_once() {
    let area = Area { min: pos(-20, 0, -1), max: pos(20, 2, 33) };
    let found = find_matching(
        |_, _| Some(()),
        |_: &(), _| 3,
        |_| 0,
        area,
        3,
        4,
    );
    let mut places: Vec<_> = found.iter().map(|p| (p.pos.x, p.pos.y, p.pos.z)).collect();
    assert_eq!(places.len(), 41 * 3 * 35);
    assert!(found.iter().all(|p| p.state_id == 4));
    places.sort();
    places.dedup();
    assert_eq!(places.len(), 41 * 3 * 35);
    let some = find_matching(|_, _| None, |_: &(), _| 0, state_at, area, 2, 9);
    let expected = (-20..=20)
        .flat_map(|x| (0..=2).flat_map(move |y| (-1..=33).map(move |z| pos(x, y, z))))
        .filter(|p| state_at(*p) == 2)
        .count();
    assert_eq!(some.len(), expected);
    assert!(some.iter().all(|p| state_at(p.pos) == 2));
    assert!(find_matching(|_, _| None, |_: &(), _| 0, |_| 1, area, 2, 9).is_empty());
}

#[test]
fn a_copy_pastes_where_it_was() {
    let area = Area { min: pos(15, 0, 15), max: pos(16, 1, 16) };
    let (blocks, tiles) = read_selection_chunk_batched(
        |_, _| None,
        |_: &(), _| 0,
        state_at,
        |_| None,
        area,
    );
    let (clip, notice) = finish_copy(blocks, tiles, (2, 2, 2));
    assert!(clip.is_well_formed());
    assert_eq!(clip.name, "clipboard");
    let (queue, _) = clip.to_work_queue(area.min, true);
    for p in &queue {
        assert_eq!(p.state_id, state_at(p.pos));
    }
    assert_eq!(notice.text, format!("Copied {} blocks (2x2x2)", queue.len()));
}

#[test]
fn an_empty_name_is_put_behind_the_first_byte() {
    assert_eq!(to_named_root(vec![]), Vec::<u8>::new());
    assert_eq!(to_named_root(vec![10]), vec![10, 0, 0]);
    let v = NbtValue::Compound(NameMap {
        entries: vec![("Items".to_string(), NbtValue::Byte(1))],
    });
    let file = serialize_nbt_value(&v);
    let mut nameless = file.clone();
    nameless.drain(1..3);
    let named = to_named_root(nameless);
    assert_eq!(named, file);
    assert_eq!(format!("{:?}", parse_nbt(&named).unwrap()), format!("{v:?}"));
}

#[test]
fn a_filling_covers_the_box() {
    let q = fill_queue(Area { min: pos(1, 2, 3), max: pos(2, 3, 3) }, 9);
    assert_eq!(q, vec![put(1, 2, 3, 9), put(2, 2, 3, 9), put(1, 3, 3, 9), put(2, 3, 3, 9)]);
    let q = fill_queue(
        Area { min: pos(i32::MAX, i32::MIN, 0), max: pos(i32::MAX, i32::MIN, 0) },
        1,
    );
    assert_eq!(q, vec![put(i32::MAX, i32::MIN, 0, 1)]);
}

fn clip() -> Clipboard {
    Clipboard {
        name: "c".to_string(),
        blocks: vec![1, 0, 2, 3, 0, 0, 0, 4],
        tile_entities: vec![(pos(1, 1, 1), vec![5])],
        size_x: 2,
        size_y: 2,
        size_z: 2,
        offset: pos(1, 0, -1),
    }
}

#[test]
fn a_clipboard_is_queued() {
    let c = clip();
    let (q, t) = c.to_work_queue(pos(10, 20, 30), true);
    assert_eq!(
        q,
        vec![put(10, 20, 30, 1), put(10, 20, 31, 2), put(11, 20, 31, 3), put(11, 21, 31, 4)]
    );
    assert_eq!((t[0].pos, t[0].nbt.clone()), (pos(11, 21, 31), vec![5]));
    let (q, t) = c.to_work_queue(pos(10, 20, 30), false);
    assert_eq!(q[0], put(9, 20, 31, 1));
    assert_eq!(t[0].pos, pos(10, 21, 32));
    assert!(c.try_work_queue(pos(i32::MAX, 0, 0), true).is_none());
    assert!(c.try_work_queue(pos(i32::MAX - 1, 0, 0), true).is_some());
    assert!(c.try_work_queue(pos(i32::MIN, 0, 0), false).is_none());
}

struct World {
    blocks: HashMap<(i32, i32, i32), u16>,
}

impl World {
    fn get(&self, p: BlockPos) -> u16 {
        *self.blocks.get(&(p.x, p.y, p.z)).unwrap_or(&0)
    }

    fn run(&mut self, mut s: PasteState, n: usize) -> (PasteState, Vec<(usize, usize)>) {
        let mut ticks = vec![];
        loop {
            let t = s.plan_tick(n);
            let mut found = vec![];
            for p in &s.blocks[t.from..t.to] {
                found.push(self.get(p.pos));
                self.blocks.insert((p.pos.x, p.pos.y, p.pos.z), p.state_id);
            }
            ticks.push((t.to - t.from, t.tile_to - t.tile_from));
            s.finish_tick(t, &found);
            if t.finished {
                return (s, ticks);
            }
        }
    }
}

fn tiles(n: i32) -> Vec<TileEntityPlacement> {
    (0..n).map(|i| TileEntityPlacement { pos: pos(i, 0, 0), nbt: vec![] }).collect()
}

#[test]
fn blocks_are_placed_over_several_ticks() {
    let mut w = World { blocks: HashMap::new() };
    let queue: Vec<_> = (0..5).map(|i| put(i, 0, 0, i as u16 + 1)).collect();
    let (s, ticks) = w.run(PasteState::new(queue.clone(), tiles(3), true, 100), 2);
    assert_eq!(ticks, vec![(2, 0), (2, 0), (1, 2), (0, 1), (0, 0)]);
    assert_eq!((s.block_idx, s.te_idx), (5, 3));
    assert!(queue.iter().all(|p| w.get(p.pos) == p.state_id));
    let (_, ticks) = w.run(PasteState::new(queue.clone(), vec![], true, 100), 5);
    assert_eq!(ticks, vec![(5, 0)]);
    let (_, ticks) = w.run(PasteState::new(queue, tiles(1), false, 100), usize::MAX);
    assert_eq!(ticks, vec![(5, 1), (0, 0)]);
    let (_, ticks) = w.run(PasteState::new(vec![], vec![], true, 100), 1);
    assert_eq!(ticks, vec![(0, 0)]);
}

#[test]
fn an_undo_puts_the_world_back_and_a_redo_repeats() {
    let mut w = World { blocks: HashMap::from([((0, 0, 0), 7), ((1, 0, 0), 8)]) };
    let queue: Vec<_> = (0..4).map(|i| put(i, 0, 0, 20 + i as u16)).collect();
    let (s, _) = w.run(PasteState::new(queue, vec![], true, 4), 3);
    let after: Vec<u16> = (0..4).map(|i| w.get(pos(i, 0, 0))).collect();
    assert_eq!(after, vec![20, 21, 22, 23]);
    let entry = s.into_undo("Set a".to_string(), "overworld".to_string()).unwrap();
    let mut histories = NameMap::new();
    store_operation(&mut histories, "p", entry, 20);
    let undo = run_history_op(&mut histories, "p", true).unwrap();
    assert_eq!(undo.message, "Undoing: Set a (4 blocks)...");
    assert_eq!((undo.description.as_str(), undo.dimension.as_str()), ("Undo: Set a", "overworld"));
    w.run(PasteState::new(undo.queue, vec![], false, 4), 3);
    let back: Vec<u16> = (0..4).map(|i| w.get(pos(i, 0, 0))).collect();
    assert_eq!(back, vec![7, 8, 0, 0]);
    let redo = run_history_op(&mut histories, "p", false).unwrap();
    assert_eq!(redo.message, "Redoing: Set a (4 blocks)...");
    assert_eq!(redo.description, "Redo: Set a");
    w.run(PasteState::new(redo.queue, vec![], false, 4), 3);
    let again: Vec<u16> = (0..4).map(|i| w.get(pos(i, 0, 0))).collect();
    assert_eq!(again, after);
}

#[test]
fn large_operations_are_not_recorded() {
    let queue = || (0..4).map(|i| put(i, 0, 0, 1)).collect::<Vec<_>>();
    assert!(PasteState::new(queue(), vec![], true, 4).record_undo);
    assert!(!PasteState::new(queue(), vec![], true, 3).record_undo);
    assert!(!PasteState::new(queue(), vec![], false, 9).record_undo);
    let mut w = World { blocks: HashMap::new() };
    let (s, _) = w.run(PasteState::new(queue(), vec![], true, 3), 9);
    assert!(s.into_undo(String::new(), String::new()).is_none());
    let (s, _) = w.run(PasteState::new(vec![], tiles(1), true, 3), 9);
    assert!(s.into_undo(String::new(), String::new()).is_none());
}

fn entry(name: &str) -> UndoEntry {
    UndoEntry {
        description: name.to_string(),
        dimension: "d".to_string(),
        old_states: vec![BlockSnapshot { pos: pos(1, 2, 3), state_id: 4 }],
        new_states: vec![],
    }
}

fn names(h: &PlayerHistory) -> (Vec<&str>, Vec<&str>) {
    (
        h.undo_stack.iter().map(|e| e.description.as_str()).collect(),
        h.redo_stack.iter().map(|e| e.description.as_str()).collect(),
    )
}

#[test]
fn a_history_is_bounded() {
    let mut h = PlayerHistory::new();
    for n in ["a", "b", "c"] {
        h.push_undo(entry(n), 2);
    }
    assert_eq!(names(&h), (vec!["b", "c"], vec![]));
    let mut none = PlayerHistory::new();
    none.push_undo(entry("a"), 0);
    none.push_undo(entry("b"), 0);
    assert_eq!(names(&none), (vec![], vec![]));
}

#[test]
fn a_lower_limit_drops_the_oldest_operations() {
    let mut h = PlayerHistory::new();
    for n in ["a", "b", "c", "d", "e"] {
        h.push_undo(entry(n), 5);
    }
    h.push_undo(entry("f"), 2);
    assert_eq!(names(&h), (vec!["e", "f"], vec![]));
    h.push_undo(entry("g"), 0);
    assert_eq!(names(&h), (vec![], vec![]));
    let mut m = NameMap::new();
    store_operation(&mut m, "p", entry("a"), 0);
    assert_eq!(run_history_op(&mut m, "p", true).unwrap_err(), "Nothing to undo.");
}

#[test]
fn undo_and_redo_move_operations() {
    let mut m = NameMap::new();
    assert_eq!(run_history_op(&mut m, "p", true).unwrap_err(), "Nothing to undo.");
    store_operation(&mut m, "p", entry("a"), 5);
    store_operation(&mut m, "q", entry("x"), 5);
    store_operation(&mut m, "p", entry("b"), 5);
    assert_eq!(run_history_op(&mut m, "p", false).unwrap_err(), "Nothing to redo.");
    let step = run_history_op(&mut m, "p", true).unwrap();
    assert_eq!(step.queue, vec![put(1, 2, 3, 4)]);
    assert_eq!(names(m.get("p").unwrap()), (vec!["a"], vec!["b"]));
    run_history_op(&mut m, "p", false).unwrap();
    assert_eq!(names(m.get("p").unwrap()), (vec!["a", "b"], vec![]));
    run_history_op(&mut m, "p", true).unwrap();
    store_operation(&mut m, "p", entry("c"), 5);
    assert_eq!(names(m.get("p").unwrap()), (vec!["a", "c"], vec![]));
    assert_eq!(names(m.get("q").unwrap()), (vec!["x"], vec![]));
    assert_eq!(history_step(&entry("z"), false).queue, vec![]);
}

#[test]
fn a_selection_has_bounds() {
    let s = Selection { pos1: pos(3, -2, 5), pos2: pos(-1, 4, 5) };
    assert_eq!(s.bounds(), (pos(-1, -2, 5), pos(3, 4, 5)));
    assert_eq!(s.dimensions(), (5, 7, 1));
    assert_eq!(s.volume(), 35);
    assert!(s.is_countable());
    let swapped = Selection { pos1: s.pos2, pos2: s.pos1 };
    assert_eq!(swapped.bounds(), s.bounds());
    let far = Selection { pos1: pos(i32::MIN, 0, 0), pos2: pos(0, 0, 0) };
    assert!(!far.is_countable());
    let huge = Selection { pos1: pos(0, 0, 0), pos2: pos(i32::MAX - 1, i32::MAX - 1, 9) };
    assert!(!huge.is_countable());
    let large = Selection { pos1: pos(0, 0, 0), pos2: pos(i32::MAX - 1, i32::MAX - 1, 0) };
    assert_eq!(large.volume(), 4611686014132420609);
}

#[test]
fn a_selection_is_looked_up() {
    let mut m = NameMap::new();
    assert_eq!(selection_bounds(None, "p", 9).unwrap_err(), "No selection set.");
    assert_eq!(
        selection_bounds(Some(&m), "p", 9).unwrap_err(),
        "No selection set. Use wand or /schematic pos1/pos2."
    );
    assert_eq!(set_corner(&mut m, "p", true, pos(0, 0, 0)), "Pos1 set to (0, 0, 0)");
    assert_eq!(m.get("p"), Some(&Selection { pos1: pos(0, 0, 0), pos2: pos(0, 0, 0) }));
    assert_eq!(set_corner(&mut m, "p", false, pos(-1, 2, 3)), "Pos2 set to (-1, 2, 3)");
    let b = selection_bounds(Some(&m), "p", 24).unwrap();
    assert_eq!((b.min, b.max), (pos(-1, 0, 0), pos(0, 2, 3)));
    assert_eq!((b.size, b.volume), ((2, 3, 4), 24));
    assert_eq!(
        selection_bounds(Some(&m), "p", 23).unwrap_err(),
        "Selection too large (24 blocks, max 23)."
    );
    let mut other = NameMap::new();
    set_corner(&mut other, "p", false, pos(-1, 2, 3));
    set_corner(&mut other, "p", true, pos(0, 0, 0));
    assert_eq!(other.get("p"), m.get("p"));
}

#[test]
fn the_wand_sets_corners() {
    assert_eq!(normalize_item_name("minecraft:wooden_axe"), "wooden_axe");
    assert_eq!(normalize_item_name("other:wooden_axe"), "other:wooden_axe");
    let wand = "minecraft:wooden_axe";
    let p = Some(pos(1, 2, 3));
    assert!(is_wand(Some("wooden_axe"), wand));
    assert!(!is_wand(Some("stone_axe"), wand));
    assert!(!is_wand(None, wand));
    assert_eq!(wand_click(Some(wand), wand, p, Click::Left), Some((true, pos(1, 2, 3))));
    assert_eq!(
        wand_click(Some("wooden_axe"), wand, p, Click::Right),
        Some((false, pos(1, 2, 3)))
    );
    assert_eq!(wand_click(Some(wand), wand, p, Click::Other), None);
    assert_eq!(wand_click(Some(wand), wand, None, Click::Left), None);
    assert_eq!(wand_click(Some("stick"), wand, p, Click::Left), None);
    assert_eq!(wand_click(None, wand, p, Click::Left), None);
}
