use pumpkinetica::clipboard::Clipboard;
use pumpkinetica::config::PluginConfig;
use pumpkinetica::grid::BlockPos;
use pumpkinetica::ipc::{
    bad_payload, check_capacity, check_len, encode_reply, list_failed, not_initialized,
    op_capabilities, op_info, op_list, op_paste, op_status, pick_source, read_failed, reply_for,
    route, settle_external, settle_info, settle_paste, AppError, HostPath, JsonField, Op, Source,
};
use pumpkinetica::names::NameMap;
use pumpkinetica::schem_write::{build_schem_nbt, write_schem_bytes};
use pumpkinetica::schematic::Schematic;
use serde_json::Value;

fn json(r: Result<Vec<(String, JsonField)>, AppError>) -> Value {
    serde_json::from_slice(&encode_reply(r).unwrap()).unwrap()
}

fn error(e: AppError) -> (&'static str, String) {
    (e.code, e.message)
}

fn air_file() -> Vec<u8> {
    let mut palette: NameMap<u16> = NameMap::new();
    palette.insert("minecraft:air".to_string(), 0);
    write_schem_bytes(&build_schem_nbt(&palette, &[0, 0], (2, 1, 1))).unwrap()
}

fn skipping() -> PluginConfig {
    PluginConfig { fallback_block: "skip".to_string(), ..PluginConfig::default() }
}

fn clip(blocks: Vec<u16>) -> Clipboard {
    Clipboard {
        name: "hut".to_string(),
        size_x: blocks.len() as i32,
        size_y: 1,
        size_z: 1,
        blocks,
        tile_entities: vec![],
        offset: BlockPos { x: 0, y: 0, z: 0 },
    }
}

#[test]
fn large_requests_are_refused() {
    assert!(check_len(65536).is_ok());
    assert_eq!(
        check_len(65537).unwrap_err(),
        "message too large: 65537 bytes (max 65536)"
    );
}

#[test]
fn requests_are_routed_by_kind() {
    assert_eq!(route("pumpkinetica:capabilities/v1"), Ok(Op::Capabilities));
    assert_eq!(route("pumpkinetica:list/v1"), Ok(Op::List));
    assert_eq!(route("pumpkinetica:info/v1"), Ok(Op::Info));
    assert_eq!(route("pumpkinetica:paste/v1"), Ok(Op::Paste));
    assert_eq!(route("pumpkinetica:status/v1"), Ok(Op::Status));
    assert_eq!(
        route("pumpkinetica:paste/v2"),
        Err("unsupported kind: pumpkinetica:paste/v2".to_string())
    );
}

#[test]
fn replies_are_json_objects() {
    let caps = json(Ok(op_capabilities(true)));
    assert_eq!(caps["ok"], Value::Bool(true));
    assert_eq!(caps["version"], Value::from("0.2.0"));
    assert_eq!(caps["external_paths"], Value::Bool(true));
    let kinds = caps["kinds"].as_array().unwrap();
    assert_eq!(kinds.len(), 5);
    assert!(kinds.iter().all(|k| route(k.as_str().unwrap()).is_ok()));
    let list = json(Ok(op_list(vec!["a".to_string(), "\"".to_string()])));
    assert_eq!(list["schematics"], Value::from(vec!["a", "\""]));
    let status = encode_reply(Ok(op_status(1, 4))).unwrap();
    assert_eq!(status, b"{\"active_pastes\":1,\"max_concurrent\":4,\"ok\":true}".to_vec());
}

#[test]
fn a_refusal_has_a_code_and_a_message() {
    let r = json(Err(AppError::new("BUSY", "wait".to_string())));
    assert_eq!(r["ok"], Value::Bool(false));
    assert_eq!(r["code"], Value::from("BUSY"));
    assert_eq!(r["message"], Value::from("wait"));
    assert_eq!(r.as_object().unwrap().len(), 3);
    assert_eq!(reply_for(Ok(vec![])).len(), 1);
    assert_eq!(error(not_initialized()).0, "NOT_INITIALIZED");
    assert_eq!(error(list_failed("x")), ("IO", "read dir: x".to_string()));
    assert_eq!(error(read_failed("x")), ("NOT_FOUND", "read file: x".to_string()));
    assert_eq!(error(bad_payload("x")), ("BAD_REQUEST", "payload: x".to_string()));
    assert!(check_capacity(3, 4).is_ok());
    assert_eq!(
        error(check_capacity(4, 4).unwrap_err()),
        ("BUSY", "max concurrent pastes reached".to_string())
    );
}

#[test]
fn a_source_is_a_name_or_a_path() {
    let mut c = PluginConfig::default();
    let refused = |s: Option<&str>, p: Option<&str>, d: Option<&str>, c: &PluginConfig| {
        error(pick_source(s, p, d, c).unwrap_err())
    };
    assert_eq!(
        refused(Some("a"), Some("b"), Some("d"), &c),
        ("BAD_REQUEST", "specify either 'schematic' or 'path', not both".to_string())
    );
    assert_eq!(
        refused(None, None, Some("d"), &c),
        ("BAD_REQUEST", "missing 'schematic' or 'path'".to_string())
    );
    assert_eq!(
        refused(Some("../a"), None, Some("d"), &c),
        ("BAD_REQUEST", "invalid file name".to_string())
    );
    assert_eq!(
        refused(Some("a"), None, None, &c),
        ("NOT_INITIALIZED", "plugin not initialized".to_string())
    );
    match pick_source(Some("a.schem"), None, Some("data/s"), &c).unwrap() {
        Source::Named(p, d) => {
            assert_eq!((p.as_str(), d.as_str()), ("data/s/a.schem", "a.schem"))
        }
        _ => panic!("no name"),
    }
    assert_eq!(
        refused(None, Some("/a"), Some("d"), &c),
        ("PATH_DISABLED", "external paths are disabled on this server".to_string())
    );
    c.ipc_allow_external_paths = true;
    assert_eq!(refused(None, Some(""), None, &c), ("BAD_REQUEST", "invalid path".to_string()));
    assert_eq!(
        refused(None, Some("a\0"), None, &c),
        ("BAD_REQUEST", "invalid path".to_string())
    );
    assert_eq!(
        refused(None, Some("/a"), None, &c),
        ("PATH_DENIED", "no allowed paste directories are configured".to_string())
    );
    c.ipc_allowed_paste_dirs.push("/srv".to_string());
    match pick_source(None, Some("/srv/a"), None, &c).unwrap() {
        Source::External(p) => assert_eq!(p, "/srv/a"),
        _ => panic!("no path"),
    }
}

#[test]
fn a_path_must_lie_in_an_allowed_directory() {
    let path = |is_file: bool, inside: Vec<bool>, text: Option<&str>| {
        settle_external(Ok(HostPath { is_file, inside, text: text.map(|t| t.to_string()) }))
    };
    assert_eq!(
        path(true, vec![false, true], Some("/srv/b/castle.schem")).unwrap(),
        ("/srv/b/castle.schem".to_string(), "castle.schem".to_string())
    );
    assert_eq!(path(true, vec![true], Some("C:\\b\\c.schem")).unwrap().1, "c.schem");
    assert_eq!(path(true, vec![true], Some("plain")).unwrap().1, "plain");
    assert_eq!(path(true, vec![true], Some("a/")).unwrap().1, "a/");
    assert_eq!(
        error(path(false, vec![true], Some("/a")).unwrap_err()),
        ("BAD_REQUEST", "path is not a file".to_string())
    );
    assert_eq!(
        error(path(true, vec![false], Some("/a")).unwrap_err()),
        ("PATH_DENIED", "path is outside all allowed directories".to_string())
    );
    assert_eq!(
        error(path(true, vec![], Some("/a")).unwrap_err()),
        ("PATH_DENIED", "path is outside all allowed directories".to_string())
    );
    assert_eq!(
        error(path(true, vec![true], None).unwrap_err()),
        ("BAD_REQUEST", "path is not valid UTF-8".to_string())
    );
    assert_eq!(
        error(settle_external(Err("gone".to_string())).unwrap_err()),
        ("NOT_FOUND", "resolve path: gone".to_string())
    );
}

#[test]
fn a_file_is_described() {
    let info = json(op_info(&air_file(), "sky.schem", &skipping()).unwrap());
    assert_eq!(info["name"], Value::from("sky"));
    assert_eq!(info["regions"], Value::from(1));
    assert_eq!(info["blocks"], Value::from(0));
    assert_eq!(info["unresolved"], Value::from(0));
    let e = error(op_info(b"", "a.schem", &skipping()).unwrap().unwrap_err());
    assert_eq!(e.0, "PARSE");
    assert!(e.1.starts_with("parse: GZIP decode failed: "));
    let s = Schematic { name: "n".to_string(), regions: vec![] };
    let e = settle_info(&s, 0, Some(Err("bad".to_string()))).unwrap().unwrap_err();
    assert_eq!(error(e), ("INVALID_SCHEMATIC", "bad".to_string()));
    let f = json(settle_info(&s, 2, Some(Ok(clip(vec![1, 0, 2])))).unwrap());
    assert_eq!(f["blocks"], Value::from(2));
    assert_eq!(f["unresolved"], Value::from(2));
    assert!(settle_info(&s, 0, None).is_none());
}

#[test]
fn a_paste_is_accepted() {
    let at = BlockPos { x: 1, y: 2, z: 3 };
    let p = settle_paste(Some(Ok(clip(vec![4, 0]))), at, "tester").unwrap().unwrap();
    assert_eq!(p.queue.len(), 1);
    assert_eq!(p.queue[0].pos, at);
    assert_eq!(p.owner, "ipc:tester");
    assert_eq!(p.description, "IPC paste 'hut' at (1, 2, 3)");
    let reply = json(Ok(p.reply));
    assert_eq!(reply["accepted"], Value::Bool(true));
    assert_eq!(reply["blocks"], Value::from(1));
    let e = settle_paste(Some(Err("bad".to_string())), at, "t").unwrap().unwrap_err();
    assert_eq!(error(e), ("INVALID_SCHEMATIC", "bad".to_string()));
    let edge = BlockPos { x: i32::MAX, y: 0, z: 0 };
    assert!(settle_paste(Some(Ok(clip(vec![1, 1]))), edge, "t").is_none());
    assert!(settle_paste(None, at, "t").is_none());
    let sky = op_paste(&air_file(), "sky.schem", &skipping(), at, "t").unwrap().unwrap();
    assert!(sky.queue.is_empty());
    assert_eq!(
        error(op_paste(b"x", "a.schem", &skipping(), at, "t").unwrap().unwrap_err()).0,
        "PARSE"
    );
}
