use pumpkinetica::block_state::FlipAxis;
use pumpkinetica::clipboard::Clipboard;
use pumpkinetica::commands::{
    encode_save, filename_for, is_safe_filename, load, load_path, parse_axis, parse_degrees, save, settle_fill,
    settle_load, start_paste, tell_completed, tell_fill, tell_flipped, tell_replace, tell_rotated,
    tell_saved, Refusal, SaveJob,
};
use pumpkinetica::config::PluginConfig;
use pumpkinetica::grid::BlockPos;
use pumpkinetica::listing::{is_schematic_name, list_files, sort_names, tell_files};
use pumpkinetica::messages::{
    help_lines, plugin_version, tell_info, tell_loaded, tell_reloaded, tell_status, tell_wand,
    Level, Notice,
};
use pumpkinetica::names::NameMap;
use pumpkinetica::nbt::NbtValue;
use pumpkinetica::schem::parse_schem;
use pumpkinetica::schem_write::{build_schem_nbt, write_schem_bytes};
use pumpkinetica::schematic::Schematic;
use pumpkinetica::selection::{set_corner, Selection};

fn clip(blocks: Vec<u16>) -> Clipboard {
    Clipboard {
        name: "hut".to_string(),
        size_x: blocks.len() as i32,
        size_y: 1,
        size_z: 1,
        blocks,
        tile_entities: vec![],
        offset: BlockPos { x: 5, y: 5, z: 5 },
    }
}

fn lines(n: &[Notice]) -> Vec<(Level, &str)> {
    n.iter().map(|n| (n.level, n.text.as_str())).collect()
}

fn skipping() -> PluginConfig {
    PluginConfig { fallback_block: "skip".to_string(), ..PluginConfig::default() }
}

fn air_file() -> Vec<u8> {
    let mut palette: NameMap<u16> = NameMap::new();
    palette.insert("minecraft:air".to_string(), 0);
    write_schem_bytes(&build_schem_nbt(&palette, &[0, 0], (2, 1, 1))).unwrap()
}

#[test]
fn file_names_are_checked() {
    for n in ["a", "a.schem", "a b", ".a", "a.", "ä"] {
        assert!(is_safe_filename(n), "{n}");
    }
    for n in ["", "..", "a/b", "a\\b", "a..b", "../a", "a\0"] {
        assert!(!is_safe_filename(n), "{n:?}");
    }
    assert_eq!(load_path("data/s", "a.schem").unwrap(), "data/s/a.schem");
    assert!(
        matches!(load_path("data/s", "../a"), Err(Refusal::Message(m)) if m == "Invalid file name.")
    );
}

#[test]
fn a_file_is_loaded() {
    let l = load(&air_file(), "sky.schem", &skipping()).unwrap().unwrap();
    assert_eq!((l.clip.name.as_str(), l.clip.blocks.clone()), ("sky", vec![0, 0]));
    assert_eq!(
        lines(&l.notices),
        vec![(Level::Success, "Loaded 'sky' - 1 region(s), 0 blocks")]
    );
}

#[test]
fn files_that_do_not_load_are_refused() {
    let e = load(b"", "a.schem", &skipping()).unwrap().unwrap_err();
    assert_eq!(e.level, Level::Error);
    assert!(e.text.starts_with("Parse error: GZIP decode failed: "));
    let empty = NbtValue::Compound(NameMap {
        entries: vec![(
            "Regions".to_string(),
            NbtValue::Compound(NameMap { entries: vec![] }),
        )],
    });
    let e = load(&write_schem_bytes(&empty).unwrap(), "a.litematic", &skipping())
        .unwrap()
        .unwrap_err();
    assert_eq!(lines(&[e]), vec![(Level::Error, "Cannot load: Schematic has no regions")]);
    let mut palette: NameMap<u16> = NameMap::new();
    palette.insert("minecraft:air[".to_string(), 0);
    let bad = write_schem_bytes(&build_schem_nbt(&palette, &[0], (1, 1, 1))).unwrap();
    assert!(load(&bad, "a.schem", &skipping()).is_none());
}

#[test]
fn unknown_block_types_are_reported() {
    assert_eq!(
        lines(&tell_loaded("n", 2, 30, 4, true, "skip")),
        vec![
            (Level::Success, "Loaded 'n' - 2 region(s), 30 blocks"),
            (
                Level::Warn,
                "4 block type(s) skipped (unsupported). Use /schematic info for details."
            ),
        ]
    );
    assert_eq!(
        lines(&tell_loaded("n", 2, 30, 4, false, "minecraft:dirt"))[1],
        (
            Level::Warn,
            "4 block type(s) replaced with minecraft:dirt. Use /schematic info for details."
        )
    );
    let s = Schematic { name: "n".to_string(), regions: vec![] };
    let l = settle_load(&s, Some(1), 1, Some(Ok(clip(vec![0, 3]))), "f").unwrap().unwrap();
    assert_eq!(lines(&l.notices)[0].1, "Loaded 'n' - 0 region(s), 1 blocks");
    assert_eq!(l.notices.len(), 2);
    assert!(settle_load(&s, None, 0, None, "f").is_none());
}

#[test]
fn a_paste_starts() {
    let c = clip(vec![3, 0, 4]);
    let at = BlockPos { x: 1, y: -2, z: 3 };
    let job = start_paste(Some(&c), at, 3, 4).unwrap().unwrap();
    assert_eq!(job.queue.len(), 2);
    assert_eq!(job.queue[1].pos, BlockPos { x: 3, y: -2, z: 3 });
    assert_eq!(job.description, "Paste 'hut' at (1, -2, 3)");
    assert_eq!(lines(&[job.notice]), vec![(Level::Info, "Pasting 'hut' (2 blocks)...")]);
    match start_paste(Some(&c), at, 4, 4).unwrap().unwrap_err() {
        Refusal::Message(t) => assert_eq!(t, "Server is busy. Please wait and try again."),
        _ => panic!("no message"),
    }
    match start_paste(None, at, 0, 4).unwrap().unwrap_err() {
        Refusal::Failure(t) => {
            assert_eq!(t, "Nothing to paste. Use /schematic copy or /schematic load <file>")
        }
        _ => panic!("no failure"),
    }
    let edge = BlockPos { x: i32::MAX, y: 0, z: 0 };
    assert!(start_paste(Some(&c), edge, 0, 4).is_none());
}

#[test]
fn a_clipboard_is_saved() {
    let job = save("sky", Some(&clip(vec![0, 0, 0]))).unwrap();
    assert_eq!(job.filename, "sky.schem");
    let back = parse_schem(&job.bytes, &job.filename).unwrap();
    assert_eq!(back.regions[0].size, [3, 1, 1]);
    assert_eq!(
        lines(&tell_saved(&job)),
        vec![(
            Level::Success,
            format!("Saved 'sky.schem' ({} bytes)", job.bytes.len()).as_str()
        )]
    );
    match save("a/b", Some(&clip(vec![0]))).unwrap_err() {
        Refusal::Message(t) => assert_eq!(t, "Invalid schematic name."),
        _ => panic!("no message"),
    }
    match save("a", None).unwrap_err() {
        Refusal::Failure(t) => assert_eq!(t, "No clipboard. Use /schematic copy first."),
        _ => panic!("no failure"),
    }
    assert_eq!(filename_for("a.schem"), "a.schem");
    assert_eq!(filename_for("a"), "a.schem");
    let missing = encode_save("x", &NameMap::new(), &[], (0, 0, 0), 2).unwrap();
    assert_eq!(
        lines(&tell_saved(&missing))[1],
        (Level::Warn, "2 block type(s) could not be identified and were saved as stone.")
    );
    let told = tell_saved(&SaveJob { filename: "f".to_string(), bytes: vec![1, 2], unresolved: 0 });
    assert_eq!(lines(&told), vec![(Level::Success, "Saved 'f' (2 bytes)")]);
}

#[test]
fn angles_and_axes_are_read() {
    for (t, d) in [("90", 90), ("180", 180), ("270", 270), ("+90", 90), ("0090", 90)] {
        assert_eq!(parse_degrees(t).unwrap(), d);
    }
    for t in ["0", "360", "-90", "45", "", "90°", "x"] {
        match parse_degrees(t).unwrap_err() {
            Refusal::Message(m) => assert_eq!(m, "Degrees must be 90, 180, or 270."),
            _ => panic!("no message"),
        }
    }
    assert_eq!(parse_axis("x").unwrap(), FlipAxis::X);
    assert_eq!(parse_axis("Z").unwrap(), FlipAxis::Z);
    match parse_axis("y").unwrap_err() {
        Refusal::Message(m) => assert_eq!(m, "Axis must be x or z."),
        _ => panic!("no message"),
    }
    assert_eq!(tell_rotated(90, &clip(vec![0, 0])).text, "Rotated 90°. Size: 2x1x1");
    assert_eq!(tell_flipped("X").text, "Flipped along X axis.");
}

#[test]
fn a_fill_needs_a_block_and_a_selection() {
    let mut m: NameMap<Selection> = NameMap::new();
    assert_eq!(settle_fill("a", None, Some(&m), "p", 9).unwrap_err(), "Unknown block: a");
    assert_eq!(
        settle_fill("a", Some(1), Some(&m), "p", 9).unwrap_err(),
        "No selection set. Use wand or /schematic pos1/pos2."
    );
    set_corner(&mut m, "p", true, BlockPos { x: 1, y: 1, z: 1 });
    let (id, b) = settle_fill("a", Some(7), Some(&m), "p", 9).unwrap();
    assert_eq!((id, b.volume), (7, 1));
}

#[test]
fn edits_are_announced() {
    let t = tell_fill("stone", 12);
    assert_eq!((t.description.as_str(), t.notice.text.as_str()), (
        "Set stone",
        "Setting 12 blocks to stone..."
    ));
    let t = tell_replace("a", "b", 3).unwrap();
    assert_eq!((t.description.as_str(), t.notice.text.as_str()), (
        "Replace a -> b",
        "Replacing 3 blocks: a -> b..."
    ));
    let n = tell_replace("a", "b", 0).unwrap_err();
    assert_eq!((n.level, n.text.as_str()), (Level::Warn, "No matching blocks found."));
    assert_eq!(tell_completed("Set a").text, "Completed: Set a");
}

#[test]
fn files_are_listed() {
    for n in ["a.schem", "a.b.litematic", "x.litematica"] {
        assert!(is_schematic_name(n), "{n}");
    }
    for n in ["a", ".schem", "a.schem.bak", "a.SCHEM", "schem", "", "a."] {
        assert!(!is_schematic_name(n), "{n}");
    }
    let names: Vec<String> =
        ["b.schem", "ä.schem", "a.txt", "B.schem", "b.litematic", "b.schem"]
            .iter()
            .map(|s| s.to_string())
            .collect();
    let mut expected = names.clone();
    expected.sort();
    assert_eq!(sort_names(names.clone()), expected);
    expected.retain(|n| !n.ends_with(".txt"));
    let files = list_files(&names);
    assert_eq!(files, expected);
    assert_eq!(
        lines(&tell_files(&files[..2].to_vec())),
        vec![
            (Level::Info, "Available schematics (2):"),
            (Level::Detail, "  - B.schem"),
            (Level::Detail, "  - b.litematic"),
        ]
    );
    assert_eq!(lines(&tell_files(&vec![])), vec![(Level::Warn, "No schematics found.")]);
}

#[test]
fn the_player_is_told() {
    assert_eq!(
        lines(&tell_info(&clip(vec![1, 0]))),
        vec![
            (Level::Info, "Schematic: hut"),
            (Level::Detail, "  2x1x1, 1 blocks, 0 tile entities"),
        ]
    );
    assert_eq!(
        lines(&[tell_status(0), tell_status(3)]),
        vec![
            (Level::Info, "No active paste operations."),
            (Level::Warn, "3 paste operation(s) in progress."),
        ]
    );
    assert_eq!(
        tell_reloaded(&PluginConfig::default()).text,
        "Config reloaded. Wand: minecraft:wooden_axe, blocks/tick: 4096, max pastes: 4"
    );
    assert_eq!(
        tell_wand("a").text,
        "Gave selection wand (a). Left-click: pos1, Right-click: pos2"
    );
    assert_eq!(plugin_version(), "0.2.0");
    assert_eq!(help_lines().len(), 16);
    assert_eq!(help_lines()[3], ("/schem info", "Show details of loaded schematic"));
}

#[test]
fn settings_have_defaults() {
    let c = PluginConfig::default();
    assert_eq!(c.fallback_block, "minecraft:cobblestone");
    assert_eq!((c.blocks_per_tick, c.max_concurrent_pastes, c.max_undo_history), (4096, 4, 20));
    assert_eq!((c.max_selection_volume, c.max_undo_volume), (10_000_000, 1_000_000));
    assert!(!c.debug && !c.ipc_allow_external_paths && c.ipc_allowed_paste_dirs.is_empty());
}
