use pumpkinetica::block_string::{is_well_bracketed, parse_block_state_string};
use pumpkinetica::litematica::{litematica_from_nbt, parse_litematica};
use pumpkinetica::names::NameMap;
use pumpkinetica::nbt::NbtValue;
use pumpkinetica::nbt_read::parse_nbt;
use pumpkinetica::nbt_write::serialize_nbt_value;
use pumpkinetica::packing::unpack_litematica;
use pumpkinetica::schem::{
    is_schem_readable, parse_schem, parse_schematic, schem_from_nbt, try_parse_schematic,
};
use pumpkinetica::schem_write::{build_schem_nbt, write_schem_bytes};
use pumpkinetica::schematic::{checked_volume, Region};

fn compound(entries: Vec<(&str, NbtValue)>) -> NbtValue {
    NbtValue::Compound(NameMap {
        entries: entries.into_iter().map(|(k, v)| (k.to_string(), v)).collect(),
    })
}

fn triple(x: i32, y: i32, z: i32) -> NbtValue {
    compound(vec![("x", NbtValue::Int(x)), ("y", NbtValue::Int(y)), ("z", NbtValue::Int(z))])
}

fn text(s: &str) -> NbtValue {
    NbtValue::String(s.to_string())
}

fn zipped(v: &NbtValue) -> Vec<u8> {
    write_schem_bytes(v).unwrap()
}

fn region() -> Vec<(&'static str, NbtValue)> {
    vec![
        ("Position", triple(1, 2, 3)),
        ("Size", triple(-2, 1, 2)),
        (
            "BlockStatePalette",
            NbtValue::List(vec![
                compound(vec![("Name", text("minecraft:air"))]),
                compound(vec![
                    ("Name", text("minecraft:oak_stairs")),
                    (
                        "Properties",
                        compound(vec![("facing", text("north")), ("n", NbtValue::Int(1))]),
                    ),
                ]),
            ]),
        ),
        ("BlockStates", NbtValue::LongArray(vec![0b01_00_01_10])),
        (
            "TileEntities",
            NbtValue::List(vec![compound(vec![
                ("x", NbtValue::Int(1)),
                ("id", text("minecraft:chest")),
            ])]),
        ),
    ]
}

fn litematic(region: NbtValue) -> NbtValue {
    compound(vec![
        ("Metadata", compound(vec![("Name", text("House"))])),
        ("Regions", compound(vec![("main", region), ("note", NbtValue::Byte(1))])),
    ])
}

#[test]
fn a_litematica_file_is_read() {
    let data = zipped(&litematic(compound(region())));
    let s = parse_litematica(&data).unwrap();
    assert_eq!(s.name, "House");
    assert_eq!(s.regions.len(), 1);
    let r = &s.regions[0];
    assert_eq!(r.name, "main");
    assert_eq!(r.position, [1, 2, 3]);
    assert_eq!(r.size, [-2, 1, 2]);
    assert_eq!(r.palette.len(), 2);
    assert_eq!(r.palette[1].name, "minecraft:oak_stairs");
    assert_eq!(
        r.palette[1].properties.entries,
        vec![("facing".to_string(), "north".to_string())]
    );
    assert_eq!(r.block_indices, vec![2, 1, 0, 1]);
    assert_eq!((r.tile_entities[0].x, r.tile_entities[0].y, r.tile_entities[0].z), (1, 0, 0));
    assert_eq!(r.abs_size(), [2, 1, 2]);
    assert_eq!(r.get_block_index(1, 0, 1), 3);
    assert_eq!(r.get_palette_index(0, 0, 0), 2);
    assert_eq!(r.get_palette_index(1, 0, 1), 1);
    assert_eq!(r.get_palette_index(1, 0, 2), 0);
    let by_name = parse_schematic(&data, "house.litematic").unwrap();
    assert_eq!(by_name.name, "House");
}

#[test]
fn the_data_of_a_block_entity_reads_back() {
    let s = litematica_from_nbt(&serialize_nbt_value(&litematic(compound(region())))).unwrap();
    let raw = &s.regions[0].tile_entities[0].raw_nbt;
    assert_eq!(
        format!("{:?}", parse_nbt(raw).unwrap()),
        format!(
            "{:?}",
            compound(vec![("x", NbtValue::Int(1)), ("id", text("minecraft:chest"))])
        )
    );
}

#[test]
fn a_litematica_file_without_a_name_is_unknown() {
    let file = compound(vec![("Regions", compound(vec![]))]);
    let s = litematica_from_nbt(&serialize_nbt_value(&file)).unwrap();
    assert_eq!(s.name, "unknown");
    assert!(s.regions.is_empty());
}

#[test]
fn broken_litematica_files_are_refused() {
    let err = |v: &NbtValue| litematica_from_nbt(&serialize_nbt_value(v)).unwrap_err();
    assert_eq!(err(&compound(vec![])), "Missing 'Regions' tag");
    let without = |name: &str| {
        let rest: Vec<_> = region().into_iter().filter(|e| e.0 != name).collect();
        err(&litematic(compound(rest)))
    };
    assert_eq!(without("Position"), "Missing 'Position'");
    assert_eq!(without("Size"), "Missing 'Size'");
    assert_eq!(without("BlockStatePalette"), "Missing BlockStatePalette");
    assert_eq!(without("BlockStates"), "Missing or invalid 'BlockStates' (expected LongArray)");
    let sized = |size: NbtValue| {
        let mut r: Vec<_> = region().into_iter().filter(|e| e.0 != "Size").collect();
        r.push(("Size", size));
        err(&litematic(compound(r)))
    };
    assert_eq!(sized(compound(vec![])), "Missing 'Size.x'");
    assert_eq!(sized(compound(vec![("x", NbtValue::Int(1))])), "Missing 'Size.y'");
    assert_eq!(
        sized(compound(vec![("x", NbtValue::Int(1)), ("y", NbtValue::Int(1))])),
        "Missing 'Size.z'"
    );
    assert_eq!(sized(triple(i32::MIN, i32::MIN, i32::MIN)), "Dimension overflow");
    assert_eq!(
        sized(triple(1000, 1000, -68)),
        "Schematic too large (68000000 blocks, max 67108864)"
    );
    assert!(parse_litematica(b"no gzip").unwrap_err().starts_with("GZIP decode failed: "));
}

#[test]
fn volumes_are_bounded() {
    assert_eq!(checked_volume([-2, 3, 4]), Ok(24));
    assert_eq!(checked_volume([0, 3, 4]), Ok(0));
    assert_eq!(checked_volume([67108864, 1, 1]), Ok(67108864));
    assert_eq!(
        checked_volume([67108865, 1, 1]),
        Err("Schematic too large (67108865 blocks, max 67108864)".to_string())
    );
    assert_eq!(
        checked_volume([i32::MIN, i32::MIN, 2]),
        Err("Dimension overflow".to_string())
    );
}

#[test]
fn indices_are_unpacked_tightly() {
    assert_eq!(unpack_litematica(&[0b11_10_01_00], 3, 4), vec![0, 1, 2, 3]);
    assert_eq!(unpack_litematica(&[0b1_0000_1111], 17, 2), vec![15, 8]);
    let indices: Vec<u64> = (0..30).map(|i| (i * 7) % 32).collect();
    let mut words = [0u64; 3];
    for (i, v) in indices.iter().enumerate() {
        for b in 0..5 {
            if v >> b & 1 == 1 {
                let at = i * 5 + b;
                words[at / 64] |= 1 << (at % 64);
            }
        }
    }
    let packed: Vec<i64> = words.iter().map(|w| *w as i64).collect();
    let expected: Vec<u16> = indices.iter().map(|v| *v as u16).collect();
    assert_eq!(unpack_litematica(&packed, 32, 30), expected);
    assert_eq!(unpack_litematica(&packed[..2], 32, 26)[25], 0);
    assert_eq!(unpack_litematica(&[], 1, 2), vec![0, 0]);
}

#[test]
fn a_block_state_is_taken_apart() {
    let (name, p) = parse_block_state_string("minecraft:oak_stairs[facing=north, half = top ,x]");
    assert_eq!(name, "minecraft:oak_stairs");
    assert_eq!(
        p.entries,
        vec![
            ("facing".to_string(), "north".to_string()),
            ("half".to_string(), "top".to_string())
        ]
    );
    let (name, p) = parse_block_state_string("minecraft:stone");
    assert_eq!((name.as_str(), p.entries.len()), ("minecraft:stone", 0));
    let (name, p) = parse_block_state_string("a[k=1,k=2=3]");
    assert_eq!(name, "a");
    assert_eq!(p.entries, vec![("k".to_string(), "2=3".to_string())]);
    let (_, p) = parse_block_state_string("a[k=,=v]");
    let expected = [("k", ""), ("", "v")].map(|(k, v)| (k.to_string(), v.to_string()));
    assert_eq!(p.entries, expected.to_vec());
    assert!(is_well_bracketed("a[]"));
    assert!(is_well_bracketed("ä"));
    assert!(!is_well_bracketed("a["));
    assert!(!is_well_bracketed("a[b=ä"));
}

fn schem(extra: Vec<(&'static str, NbtValue)>) -> Vec<(&'static str, NbtValue)> {
    let mut v = vec![
        ("Width", NbtValue::Short(2)),
        ("Height", NbtValue::Short(1)),
        ("Length", NbtValue::Short(2)),
    ];
    v.extend(extra);
    v
}

fn flat() -> Vec<(&'static str, NbtValue)> {
    schem(vec![
        (
            "Palette",
            compound(vec![
                ("minecraft:stone", NbtValue::Int(2)),
                ("minecraft:lever[face=wall]", NbtValue::Int(0)),
                ("minecraft:dirt", NbtValue::Int(-1)),
                ("minecraft:sand", NbtValue::Byte(1)),
            ]),
        ),
        ("BlockData", NbtValue::ByteArray(vec![0, 2, 1, 2])),
        (
            "TileEntities",
            NbtValue::List(vec![
                compound(vec![("Pos", NbtValue::IntArray(vec![1, 0, 1]))]),
                compound(vec![("x", NbtValue::Int(7)), ("Pos", NbtValue::IntArray(vec![1]))]),
            ]),
        ),
    ])
}

#[test]
fn a_schem_file_is_read() {
    let data = zipped(&compound(flat()));
    let s = parse_schem(&data, "hut.schem").unwrap();
    assert_eq!(s.name, "hut");
    let r = &s.regions[0];
    assert_eq!((r.name.as_str(), r.position, r.size), ("main", [0, 0, 0], [2, 1, 2]));
    let names: Vec<&str> = r.palette.iter().map(|p| p.name.as_str()).collect();
    assert_eq!(names, vec!["minecraft:lever", "minecraft:air", "minecraft:stone"]);
    assert_eq!(
        r.palette[0].properties.entries,
        vec![("face".to_string(), "wall".to_string())]
    );
    assert_eq!(r.block_indices, vec![0, 2, 1, 2]);
    let places: Vec<_> = r.tile_entities.iter().map(|t| (t.x, t.y, t.z)).collect();
    assert_eq!(places, vec![(1, 0, 1), (7, 0, 0)]);
}

#[test]
fn the_layouts_of_schem_files_are_told_apart() {
    let blocks = compound(vec![
        ("Palette", compound(vec![("minecraft:stone", NbtValue::Int(0))])),
        ("Data", NbtValue::ByteArray(vec![0, 0, 0, 0])),
        ("BlockEntities", NbtValue::List(vec![compound(vec![])])),
        ("TileEntities", NbtValue::List(vec![])),
    ]);
    let v3 = compound(vec![("Schematic", compound(schem(vec![("Blocks", blocks)])))]);
    let s = schem_from_nbt(&serialize_nbt_value(&v3), "a").unwrap();
    assert_eq!(s.name, "a");
    assert_eq!(s.regions[0].palette[0].name, "minecraft:stone");
    assert_eq!(s.regions[0].tile_entities.len(), 1);
    let bare = compound(schem(vec![
        ("Palette", compound(vec![])),
        ("BlockData", NbtValue::ByteArray(vec![0, 0, 0, 0])),
    ]));
    let s = schem_from_nbt(&serialize_nbt_value(&bare), "a").unwrap();
    assert_eq!(s.regions[0].palette.len(), 1);
    assert_eq!(s.regions[0].palette[0].name, "minecraft:air");
}

#[test]
fn there_is_one_index_per_block() {
    let with = |data: Vec<i8>| {
        let v = compound(schem(vec![
            ("Palette", compound(vec![])),
            ("BlockData", NbtValue::ByteArray(data)),
        ]));
        schem_from_nbt(&serialize_nbt_value(&v), "a").map(|mut s| s.regions.remove(0).block_indices)
    };
    let short = Err("Unexpected end of varint data".to_string());
    assert_eq!(with(vec![]), short);
    assert_eq!(with(vec![1, 2, 3]), short);
    assert_eq!(with(vec![1, -127, 1, 3]), short);
    assert_eq!(with(vec![1, 2, 3, 4]), Ok(vec![1, 2, 3, 4]));
    assert_eq!(with(vec![1, 2, 3, 4, 5, -1]), Ok(vec![1, 2, 3, 4]));
    let mut r: Vec<_> = region().into_iter().filter(|e| e.0 != "BlockStates").collect();
    r.push(("BlockStates", NbtValue::LongArray(vec![])));
    let s = litematica_from_nbt(&serialize_nbt_value(&litematic(compound(r)))).unwrap();
    assert_eq!(s.regions[0].block_indices, vec![0, 0, 0, 0]);
}

#[test]
fn what_is_no_compound_is_no_block_entity() {
    let mut r: Vec<_> = region().into_iter().filter(|e| e.0 != "TileEntities").collect();
    r.push(("TileEntities", NbtValue::List(vec![NbtValue::Int(1), NbtValue::Int(2)])));
    let s = litematica_from_nbt(&serialize_nbt_value(&litematic(compound(r)))).unwrap();
    assert!(s.regions[0].tile_entities.is_empty());
    let mut f: Vec<_> = flat().into_iter().filter(|e| e.0 != "TileEntities").collect();
    f.push(("TileEntities", NbtValue::Int(1)));
    let s = schem_from_nbt(&serialize_nbt_value(&compound(f)), "a").unwrap();
    assert!(s.regions[0].tile_entities.is_empty());
}

#[test]
fn broken_schem_files_are_refused() {
    let err = |v: Vec<(&'static str, NbtValue)>| {
        schem_from_nbt(&serialize_nbt_value(&compound(v)), "a").unwrap_err()
    };
    let without = |name: &str| err(flat().into_iter().filter(|e| e.0 != name).collect());
    assert_eq!(without("Width"), "Missing Width");
    assert_eq!(without("Height"), "Missing Height");
    assert_eq!(without("Length"), "Missing Length");
    assert_eq!(without("Palette"), "Missing Palette");
    assert_eq!(without("BlockData"), "Missing BlockData");
    assert_eq!(err(schem(vec![("Blocks", compound(vec![]))])), "Missing Blocks.Palette");
    assert_eq!(
        err(schem(vec![("Blocks", compound(vec![("Palette", compound(vec![]))]))])),
        "Missing Blocks.Data"
    );
    assert_eq!(
        err(schem(vec![
            ("Palette", compound(vec![("minecraft:stone", NbtValue::Int(65536))])),
            ("BlockData", NbtValue::ByteArray(vec![])),
        ])),
        "Palette too large (65537 entries)"
    );
    assert_eq!(
        err(schem(vec![
            ("Palette", compound(vec![])),
            ("BlockData", NbtValue::ByteArray(vec![-1])),
        ])),
        "Unexpected end of varint data"
    );
    assert!(parse_schem(b"", "a.schem").unwrap_err().starts_with("GZIP decode failed: "));
}

#[test]
fn unreadable_block_states_are_noticed() {
    let bad = compound(schem(vec![
        ("Palette", compound(vec![("minecraft:stone[", NbtValue::Int(0))])),
        ("BlockData", NbtValue::ByteArray(vec![])),
    ]));
    assert!(!is_schem_readable(&serialize_nbt_value(&bad)));
    assert!(try_parse_schematic(&zipped(&bad), "a.schem").is_none());
    let unused = compound(schem(vec![
        ("Palette", compound(vec![("minecraft:stone[", NbtValue::Int(-1))])),
        ("BlockData", NbtValue::ByteArray(vec![0, 0, 0, 0])),
    ]));
    assert!(is_schem_readable(&serialize_nbt_value(&unused)));
    assert!(try_parse_schematic(&zipped(&unused), "a.schem").unwrap().is_ok());
    assert!(try_parse_schematic(&zipped(&bad), "a.litematic").unwrap().is_err());
}

#[test]
fn a_saved_schematic_loads() {
    let mut palette: NameMap<u16> = NameMap::new();
    palette.insert("minecraft:air".to_string(), 0);
    palette.insert("minecraft:oak_log[axis=y]".to_string(), 1);
    palette.insert("minecraft:stone".to_string(), 2);
    let indices: Vec<u16> = vec![0, 1, 2, 2, 1, 0];
    let nbt = build_schem_nbt(&palette, &indices, (3, 2, 1));
    match &nbt {
        NbtValue::Compound(m) => {
            let names: Vec<&str> = m.entries.iter().map(|e| e.0.as_str()).collect();
            assert_eq!(
                names,
                vec![
                    "Version", "DataVersion", "Width", "Height", "Length", "Palette", "BlockData",
                    "Metadata"
                ]
            );
            assert_eq!(format!("{:?}", m.entries[0].1), "Int(2)");
            assert_eq!(format!("{:?}", m.entries[1].1), "Int(3837)");
        }
        _ => panic!("no compound"),
    }
    let bytes = write_schem_bytes(&nbt).unwrap();
    assert_eq!(&bytes[..2], &[0x1f, 0x8b]);
    let s = parse_schematic(&bytes, "tower.schem").unwrap();
    assert_eq!(s.name, "tower");
    let r: &Region = &s.regions[0];
    assert_eq!(r.size, [3, 2, 1]);
    assert_eq!(r.block_indices, indices);
    let names: Vec<&str> = r.palette.iter().map(|p| p.name.as_str()).collect();
    assert_eq!(names, vec!["minecraft:air", "minecraft:oak_log", "minecraft:stone"]);
}

#[test]
fn a_size_is_cut_to_sixteen_bits() {
    let nbt = build_schem_nbt(&NameMap::new(), &[], (65537, 32768, -1));
    match nbt {
        NbtValue::Compound(m) => {
            assert_eq!(format!("{:?}", m.entries[2].1), "Short(1)");
            assert_eq!(format!("{:?}", m.entries[3].1), "Short(-32768)");
            assert_eq!(format!("{:?}", m.entries[4].1), "Short(-1)");
        }
        _ => panic!("no compound"),
    }
}
