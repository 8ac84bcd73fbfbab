//! Requests of other plugins, and the replies.
use vstd::prelude::*;
use vstd::string::*;

use crate::clipboard::Clipboard;
use crate::commands::{is_safe_filename, may_count, safe_name};
use crate::config::PluginConfig;
use crate::grid::BlockPos;
use crate::listing::last_place;
use crate::messages::{between, joined_text};
use crate::placement::{
    block_queue, count_filled, filled, placeable, queued_tiles, tile_queue, BlockPlacement,
    TileEntityPlacement,
};
use crate::resolve::{
    build_clipboard, count_unresolved, fallback_resolves, may_build, resolve_fallback_block,
};
use crate::schem::{schem_file_readable, schematic_file, try_parse_schematic};
use crate::schematic::Schematic;
use crate::selection::{pos_text, push_pos, text_view};
use crate::text::{chars_of, contains_char, decimal, ends_with, push_decimal, same};

verus! {

/// The largest request, in bytes.
pub const MAX_MESSAGE_LEN: usize = 65536;

/// A request that was refused: a code for programs and a message for people.
#[derive(Debug)]
pub struct AppError {
    pub code: &'static str,
    pub message: String,
}

impl View for AppError {
    type V = (Seq<char>, Seq<char>);

    open spec fn view(&self) -> (Seq<char>, Seq<char>) {
        (self.code@, self.message@)
    }
}

impl AppError {
    /// A refusal.
    pub fn new(code: &'static str, message: String) -> (r: Self)
        ensures
            r@ == (code@, message@),
    {
        AppError { code, message }
    }
}

/// Rejects a request that is too large before anything is made of it.
pub fn check_len(len: usize) -> (r: Result<(), String>)
    ensures
        match r {
            Ok(_) => len <= MAX_MESSAGE_LEN,
            Err(e) => len > MAX_MESSAGE_LEN && e@ == "message too large: "@ + decimal(len as int)
                + " bytes (max 65536)"@,
        },
{
    if len > MAX_MESSAGE_LEN {
        let mut e = "message too large: ".to_string();
        push_decimal(&mut e, len as u64);
        e.append(" bytes (max 65536)");
        return Err(e);
    }
    Ok(())
}

/// What a request asks for.
#[derive(Clone, Copy, Debug, PartialEq, Eq, Structural)]
pub enum Op {
    Capabilities,
    List,
    Info,
    Paste,
    Status,
}

/// What a request of some kind asks for.
pub open spec fn op_of(kind: Seq<char>) -> Option<Op> {
    if kind == "pumpkinetica:capabilities/v1"@ {
        Some(Op::Capabilities)
    } else if kind == "pumpkinetica:list/v1"@ {
        Some(Op::List)
    } else if kind == "pumpkinetica:info/v1"@ {
        Some(Op::Info)
    } else if kind == "pumpkinetica:paste/v1"@ {
        Some(Op::Paste)
    } else if kind == "pumpkinetica:status/v1"@ {
        Some(Op::Status)
    } else {
        None
    }
}

/// What a request of some kind asks for. An unknown kind is no request.
pub fn route(kind: &str) -> (r: Result<Op, String>)
    ensures
        match (r, op_of(kind@)) {
            (Ok(op), Some(o)) => op == o,
            (Err(e), None) => e@ == "unsupported kind: "@ + kind@,
            _ => false,
        },
{
    if same(kind, "pumpkinetica:capabilities/v1") {
        Ok(Op::Capabilities)
    } else if same(kind, "pumpkinetica:list/v1") {
        Ok(Op::List)
    } else if same(kind, "pumpkinetica:info/v1") {
        Ok(Op::Info)
    } else if same(kind, "pumpkinetica:paste/v1") {
        Ok(Op::Paste)
    } else if same(kind, "pumpkinetica:status/v1") {
        Ok(Op::Status)
    } else {
        Err(joined_text("unsupported kind: ", kind))
    }
}

/// The value of a field of a reply.
#[derive(Debug)]
pub enum JsonField {
    Bool(bool),
    Num(u64),
    Text(String),
    List(Vec<String>),
}

/// The value of a field of a reply.
pub enum JsonView {
    Bool(bool),
    Num(u64),
    Text(Seq<char>),
    List(Seq<Seq<char>>),
}

impl View for JsonField {
    type V = JsonView;

    open spec fn view(&self) -> JsonView {
        match self {
            JsonField::Bool(b) => JsonView::Bool(*b),
            JsonField::Num(n) => JsonView::Num(*n),
            JsonField::Text(t) => JsonView::Text(t@),
            JsonField::List(l) => JsonView::List(l@.map_values(|s: String| s@)),
        }
    }
}

/// The fields of a reply.
pub open spec fn fields_view(s: Seq<(String, JsonField)>) -> Seq<(Seq<char>, JsonView)> {
    s.map_values(|e: (String, JsonField)| (e.0@, e.1@))
}

/// Puts a field behind others.
fn push_field(fields: &mut Vec<(String, JsonField)>, name: &str, value: JsonField)
    ensures
        fields_view(final(fields)@) == fields_view(old(fields)@).push((name@, value@)),
{
    let ghost before = fields_view(fields@);
    let ghost e = (name@, value@);
    fields.push((name.to_owned(), value));
    assert(fields_view(fields@) =~= before.push(e));
}

/// No fields.
fn no_fields() -> (r: Vec<(String, JsonField)>)
    ensures
        fields_view(r@) == Seq::<(Seq<char>, JsonView)>::empty(),
{
    let r: Vec<(String, JsonField)> = Vec::new();
    assert(fields_view(r@) =~= Seq::empty());
    r
}

/// The bytes of a JSON object with the given fields, or the message of the error.
pub uninterp spec fn json_object(fields: Seq<(Seq<char>, JsonView)>) -> Result<Seq<u8>, Seq<char>>;

/// Calls `serde_json::to_vec` on an object with the given fields. Claimed: the outcome depends on
/// nothing but the fields. How an object is written is named, not described.
#[verifier::external_body]
fn write_json(fields: Vec<(String, JsonField)>) -> (r: Result<Vec<u8>, String>)
    ensures
        match (r, json_object(fields_view(fields@))) {
            (Ok(v), Ok(b)) => v@ == b,
            (Err(e), Err(m)) => e@ == m,
            _ => false,
        },
{
    let mut object = serde_json::Map::new();
    for (name, field) in fields {
        let value = match field {
            JsonField::Bool(b) => serde_json::Value::from(b),
            JsonField::Num(n) => serde_json::Value::from(n),
            JsonField::Text(t) => serde_json::Value::from(t),
            JsonField::List(l) => serde_json::Value::from(l),
        };
        object.insert(name, value);
    }
    serde_json::to_vec(&serde_json::Value::Object(object)).map_err(|e| e.to_string())
}

/// The fields of the reply to a request: those of the outcome and that it is well, or the code and
/// the message of the refusal and that it is not.
pub open spec fn reply_fields(
    result: Result<Seq<(Seq<char>, JsonView)>, (Seq<char>, Seq<char>)>,
) -> Seq<(Seq<char>, JsonView)> {
    match result {
        Ok(fields) => fields.push(("ok"@, JsonView::Bool(true))),
        Err((code, message)) => seq![
            ("ok"@, JsonView::Bool(false)),
            ("code"@, JsonView::Text(code)),
            ("message"@, JsonView::Text(message)),
        ],
    }
}

/// The outcome of a request.
pub open spec fn result_view(r: Result<Vec<(String, JsonField)>, AppError>) -> Result<
    Seq<(Seq<char>, JsonView)>,
    (Seq<char>, Seq<char>),
> {
    match r {
        Ok(fields) => Ok(fields_view(fields@)),
        Err(e) => Err(e@),
    }
}

/// The fields of the reply to a request.
pub fn reply_for(result: Result<Vec<(String, JsonField)>, AppError>) -> (r: Vec<
    (String, JsonField),
>)
    ensures
        fields_view(r@) == reply_fields(result_view(result)),
{
    match result {
        Ok(mut fields) => {
            push_field(&mut fields, "ok", JsonField::Bool(true));
            fields
        },
        Err(e) => {
            let mut fields = no_fields();
            push_field(&mut fields, "ok", JsonField::Bool(false));
            push_field(&mut fields, "code", JsonField::Text(e.code.to_owned()));
            push_field(&mut fields, "message", JsonField::Text(e.message));
            assert(fields_view(fields@) =~= reply_fields(result_view(result)));
            fields
        },
    }
}

/// The bytes of the reply to a request.
pub fn encode_reply(result: Result<Vec<(String, JsonField)>, AppError>) -> (r: Result<
    Vec<u8>,
    String,
>)
    ensures
        match (r, json_object(reply_fields(result_view(result)))) {
            (Ok(v), Ok(b)) => v@ == b,
            (Err(e), Err(m)) => e@ == "encode reply: "@ + m,
            _ => false,
        },
{
    match write_json(reply_for(result)) {
        Ok(bytes) => Ok(bytes),
        Err(e) => Err(joined_text("encode reply: ", e.as_str())),
    }
}

/// The kinds of requests.
pub open spec fn kinds() -> Seq<Seq<char>> {
    seq![
        "pumpkinetica:capabilities/v1"@,
        "pumpkinetica:list/v1"@,
        "pumpkinetica:info/v1"@,
        "pumpkinetica:paste/v1"@,
        "pumpkinetica:status/v1"@,
    ]
}

/// What the plugin can do for others.
pub fn op_capabilities(external_paths: bool) -> (r: Vec<(String, JsonField)>)
    ensures
        fields_view(r@) == seq![
            ("version"@, JsonView::Text("0.2.0"@)),
            ("kinds"@, JsonView::List(kinds())),
            ("external_paths"@, JsonView::Bool(external_paths)),
        ],
{
    let mut list: Vec<String> = Vec::new();
    list.push("pumpkinetica:capabilities/v1".to_string());
    list.push("pumpkinetica:list/v1".to_string());
    list.push("pumpkinetica:info/v1".to_string());
    list.push("pumpkinetica:paste/v1".to_string());
    list.push("pumpkinetica:status/v1".to_string());
    assert(list@.map_values(|s: String| s@) =~= kinds());
    let mut fields = no_fields();
    push_field(&mut fields, "version", JsonField::Text("0.2.0".to_string()));
    push_field(&mut fields, "kinds", JsonField::List(list));
    push_field(&mut fields, "external_paths", JsonField::Bool(external_paths));
    assert(fields_view(fields@) =~= seq![
        ("version"@, JsonView::Text("0.2.0"@)),
        ("kinds"@, JsonView::List(kinds())),
        ("external_paths"@, JsonView::Bool(external_paths)),
    ]);
    fields
}

/// The list of schematics.
pub fn op_list(names: Vec<String>) -> (r: Vec<(String, JsonField)>)
    ensures
        fields_view(r@) == seq![
            ("schematics"@, JsonView::List(names@.map_values(|s: String| s@))),
        ],
{
    let mut fields = no_fields();
    let ghost list = JsonView::List(names@.map_values(|s: String| s@));
    push_field(&mut fields, "schematics", JsonField::List(names));
    assert(fields_view(fields@) =~= seq![("schematics"@, list)]);
    fields
}

/// How many pastes are going on, and how many may.
pub fn op_status(active: usize, max_concurrent: usize) -> (r: Vec<(String, JsonField)>)
    ensures
        fields_view(r@) == seq![
            ("active_pastes"@, JsonView::Num(active as u64)),
            ("max_concurrent"@, JsonView::Num(max_concurrent as u64)),
        ],
{
    let mut fields = no_fields();
    push_field(&mut fields, "active_pastes", JsonField::Num(active as u64));
    push_field(&mut fields, "max_concurrent", JsonField::Num(max_concurrent as u64));
    assert(fields_view(fields@) =~= seq![
        ("active_pastes"@, JsonView::Num(active as u64)),
        ("max_concurrent"@, JsonView::Num(max_concurrent as u64)),
    ]);
    fields
}

/// The refusal before the plugin is set up.
pub fn not_initialized() -> (r: AppError)
    ensures
        r@ == ("NOT_INITIALIZED"@, "plugin not initialized"@),
{
    AppError::new("NOT_INITIALIZED", "plugin not initialized".to_string())
}

/// The refusal where the directory of schematics cannot be read.
pub fn list_failed(reason: &str) -> (r: AppError)
    ensures
        r@ == ("IO"@, "read dir: "@ + reason@),
{
    AppError::new("IO", joined_text("read dir: ", reason))
}

/// The refusal where a file cannot be read.
pub fn read_failed(reason: &str) -> (r: AppError)
    ensures
        r@ == ("NOT_FOUND"@, "read file: "@ + reason@),
{
    AppError::new("NOT_FOUND", joined_text("read file: ", reason))
}

/// The refusal of a request whose details cannot be understood.
pub fn bad_payload(reason: &str) -> (r: AppError)
    ensures
        r@ == ("BAD_REQUEST"@, "payload: "@ + reason@),
{
    AppError::new("BAD_REQUEST", joined_text("payload: ", reason))
}

/// Refuses a paste where as many are going on as may.
pub fn check_capacity(active: usize, max_concurrent: usize) -> (r: Result<(), AppError>)
    ensures
        match r {
            Ok(_) => active < max_concurrent,
            Err(e) => active >= max_concurrent && e@ == (
                "BUSY"@,
                "max concurrent pastes reached"@,
            ),
        },
{
    if active >= max_concurrent {
        Err(AppError::new("BUSY", "max concurrent pastes reached".to_string()))
    } else {
        Ok(())
    }
}

/// Where the schematic of a request is to be read.
#[derive(Debug)]
pub enum Source {
    /// A file in the directory of schematics, and the name under which it is known.
    Named(String, String),
    /// A path on the host that has yet to be looked up.
    External(String),
}

/// Where the schematic of a request is to be read, or why it is refused.
pub open spec fn source_of(
    schematic: Option<Seq<char>>,
    path: Option<Seq<char>>,
    dir: Option<Seq<char>>,
    allow_external: bool,
    allowed_dirs: int,
) -> Result<Result<(Seq<char>, Seq<char>), Seq<char>>, (Seq<char>, Seq<char>)> {
    match (schematic, path) {
        (Some(_), Some(_)) => Err(
            ("BAD_REQUEST"@, "specify either 'schematic' or 'path', not both"@),
        ),
        (None, None) => Err(("BAD_REQUEST"@, "missing 'schematic' or 'path'"@)),
        (Some(name), None) => if !safe_name(name) {
            Err(("BAD_REQUEST"@, "invalid file name"@))
        } else {
            match dir {
                None => Err(("NOT_INITIALIZED"@, "plugin not initialized"@)),
                Some(d) => Ok(Ok((d + "/"@ + name, name))),
            }
        },
        (None, Some(raw)) => if !allow_external {
            Err(("PATH_DISABLED"@, "external paths are disabled on this server"@))
        } else if raw.len() == 0 || raw.contains('\0') {
            Err(("BAD_REQUEST"@, "invalid path"@))
        } else if allowed_dirs == 0 {
            Err(("PATH_DENIED"@, "no allowed paste directories are configured"@))
        } else {
            Ok(Err(raw))
        },
    }
}

/// Where the schematic of a request is to be read: exactly one of a name in the directory of
/// schematics and a path on the host must be given.
pub fn pick_source(
    schematic: Option<&str>,
    path: Option<&str>,
    dir: Option<&str>,
    config: &PluginConfig,
) -> (r: Result<Source, AppError>)
    ensures
        match (
            r,
            source_of(
                text_view(schematic),
                text_view(path),
                text_view(dir),
                config.ipc_allow_external_paths,
                config.ipc_allowed_paste_dirs@.len() as int,
            ),
        ) {
            (Ok(Source::Named(p, d)), Ok(Ok((read, display)))) => p@ == read && d@ == display,
            (Ok(Source::External(p)), Ok(Err(raw))) => p@ == raw,
            (Err(e), Err(m)) => e@ == m,
            _ => false,
        },
{
    match (schematic, path) {
        (Some(_), Some(_)) => Err(
            AppError::new(
                "BAD_REQUEST",
                "specify either 'schematic' or 'path', not both".to_string(),
            ),
        ),
        (None, None) => Err(
            AppError::new("BAD_REQUEST", "missing 'schematic' or 'path'".to_string()),
        ),
        (Some(name), None) => {
            if !is_safe_filename(name) {
                return Err(AppError::new("BAD_REQUEST", "invalid file name".to_string()));
            }
            match dir {
                Some(d) => Ok(Source::Named(between(d, "/", name), name.to_owned())),
                None => Err(not_initialized()),
            }
        },
        (None, Some(raw)) => {
            if !config.ipc_allow_external_paths {
                return Err(
                    AppError::new(
                        "PATH_DISABLED",
                        "external paths are disabled on this server".to_string(),
                    ),
                );
            }
            if raw.unicode_len() == 0 || contains_char(raw, '\0') {
                return Err(AppError::new("BAD_REQUEST", "invalid path".to_string()));
            }
            if config.ipc_allowed_paste_dirs.len() == 0 {
                return Err(
                    AppError::new(
                        "PATH_DENIED",
                        "no allowed paste directories are configured".to_string(),
                    ),
                );
            }
            Ok(Source::External(raw.to_owned()))
        },
    }
}

/// What the host knows of a path: whether it leads to a file, whether that lies in each of the
/// allowed directories, and the path in full, if it is text.
#[derive(Debug)]
pub struct HostPath {
    pub is_file: bool,
    pub inside: Vec<bool>,
    pub text: Option<String>,
}

/// The last part of a path, or the whole path where nothing stands behind its last separator.
pub open spec fn display_of(path: Seq<char>) -> Seq<char> {
    let a = last_place(path, '/');
    let b = last_place(path, '\\');
    let tail = path.skip((if a < b {
        b
    } else {
        a
    }) + 1);
    if tail.len() == 0 {
        path
    } else {
        tail
    }
}

/// The last `c` is a `c`, and none stands behind it.
proof fn lemma_last_place(s: Seq<char>, c: char)
    ensures
        -1 <= last_place(s, c) < s.len(),
        last_place(s, c) >= 0 ==> s[last_place(s, c)] == c,
        forall|k: int| last_place(s, c) < k < s.len() ==> s[k] != c,
    decreases s.len(),
{
    if s.len() > 0 && s.last() != c {
        let t = s.drop_last();
        lemma_last_place(t, c);
        assert forall|k: int| last_place(s, c) < k < s.len() implies s[k] != c by {
            if k < t.len() {
                assert(s[k] == t[k]);
            }
        }
    }
}

/// The last part of a path.
fn display_name(path: &str) -> (r: String)
    ensures
        r@ == display_of(path@),
{
    let cs = chars_of(path);
    let n: usize = cs.len();
    let mut i: usize = n;
    proof {
        lemma_last_place(path@, '/');
        lemma_last_place(path@, '\\');
    }
    while i > 0 && cs[i - 1] != '/' && cs[i - 1] != '\\'
        invariant
            i <= n,
            n == cs@.len(),
            cs@ == path@,
            forall|k: int| i <= k < n ==> path@[k] != '/' && path@[k] != '\\',
        decreases i,
    {
        i -= 1;
    }
    if i == n {
        return path.to_owned();
    }
    assert(path@.subrange(i as int, n as int) =~= path@.skip(i as int));
    path.substring_char(i, n).to_owned()
}

/// Where a path on the host is read and under which name, or why it is refused.
pub open spec fn external_of(
    found: Result<(bool, Seq<bool>, Option<Seq<char>>), Seq<char>>,
) -> Result<(Seq<char>, Seq<char>), (Seq<char>, Seq<char>)> {
    match found {
        Err(e) => Err(("NOT_FOUND"@, "resolve path: "@ + e)),
        Ok((is_file, inside, text)) => if !is_file {
            Err(("BAD_REQUEST"@, "path is not a file"@))
        } else if !inside.contains(true) {
            Err(("PATH_DENIED"@, "path is outside all allowed directories"@))
        } else {
            match text {
                Some(p) => Ok((p, display_of(p))),
                None => Err(("BAD_REQUEST"@, "path is not valid UTF-8"@)),
            }
        },
    }
}

/// What the host knows of a path.
pub open spec fn found_view(found: Result<HostPath, String>) -> Result<
    (bool, Seq<bool>, Option<Seq<char>>),
    Seq<char>,
> {
    match found {
        Ok(p) => Ok(
            (
                p.is_file,
                p.inside@,
                match p.text {
                    Some(t) => Some(t@),
                    None => None,
                },
            ),
        ),
        Err(e) => Err(e@),
    }
}

/// Where a path on the host is read and under which name: it must be that of a file in an allowed
/// directory.
pub fn settle_external(found: Result<HostPath, String>) -> (r: Result<(String, String), AppError>)
    ensures
        match (r, external_of(found_view(found))) {
            (Ok((p, d)), Ok((read, display))) => p@ == read && d@ == display,
            (Err(e), Err(m)) => e@ == m,
            _ => false,
        },
{
    let p = match found {
        Ok(p) => p,
        Err(e) => return Err(AppError::new("NOT_FOUND", joined_text("resolve path: ", e.as_str()))),
    };
    if !p.is_file {
        return Err(AppError::new("BAD_REQUEST", "path is not a file".to_string()));
    }
    let mut permitted: bool = false;
    let mut i: usize = 0;
    while i < p.inside.len()
        invariant
            i <= p.inside@.len(),
            permitted == p.inside@.take(i as int).contains(true),
        decreases p.inside@.len() - i,
    {
        let ghost before = p.inside@.take(i as int);
        assert(p.inside@.take(i + 1) =~= before.push(p.inside@[i as int]));
        if p.inside[i] {
            permitted = true;
            assert(p.inside@.take(i + 1)[i as int]);
        } else if permitted {
            let ghost k = before.index_of(true);
            assert(p.inside@.take(i + 1)[k]);
        }
        i += 1;
    }
    assert(p.inside@.take(i as int) =~= p.inside@);
    if !permitted {
        return Err(
            AppError::new("PATH_DENIED", "path is outside all allowed directories".to_string()),
        );
    }
    match p.text {
        Some(t) => {
            let display = display_name(t.as_str());
            Ok((t, display))
        },
        None => Err(AppError::new("BAD_REQUEST", "path is not valid UTF-8".to_string())),
    }
}

/// What is said of a file, once it is read, its unknown block types are counted and its clipboard
/// is built.
pub open spec fn info_outcome(
    schematic: Schematic,
    unresolved: int,
    built: Option<Result<Clipboard, String>>,
    r: Option<Result<Vec<(String, JsonField)>, AppError>>,
) -> bool {
    match built {
        None => r is None,
        Some(Err(e)) => r matches Some(Err(a)) && a@ == ("INVALID_SCHEMATIC"@, e@),
        Some(Ok(clip)) => r matches Some(Ok(f)) && fields_view(f@) == seq![
            ("name"@, JsonView::Text(clip.name@)),
            ("regions"@, JsonView::Num(schematic.regions@.len() as u64)),
            ("blocks"@, JsonView::Num(filled(clip.blocks@).len() as u64)),
            ("unresolved"@, JsonView::Num(unresolved as u64)),
        ],
    }
}

/// What is said of a file.
pub fn settle_info(
    schematic: &Schematic,
    unresolved: usize,
    built: Option<Result<Clipboard, String>>,
) -> (r: Option<Result<Vec<(String, JsonField)>, AppError>>)
    ensures
        info_outcome(*schematic, unresolved as int, built, r),
{
    match built {
        None => None,
        Some(Err(e)) => Some(Err(AppError::new("INVALID_SCHEMATIC", e))),
        Some(Ok(clip)) => {
            let blocks: usize = count_filled(&clip.blocks);
            let mut fields = no_fields();
            push_field(&mut fields, "name", JsonField::Text(clip.name));
            push_field(&mut fields, "regions", JsonField::Num(schematic.regions.len() as u64));
            push_field(&mut fields, "blocks", JsonField::Num(blocks as u64));
            push_field(&mut fields, "unresolved", JsonField::Num(unresolved as u64));
            assert(fields_view(fields@) =~= seq![
                ("name"@, JsonView::Text(clip.name@)),
                ("regions"@, JsonView::Num(schematic.regions@.len() as u64)),
                ("blocks"@, JsonView::Num(filled(clip.blocks@).len() as u64)),
                ("unresolved"@, JsonView::Num(unresolved as u64)),
            ]);
            Some(Ok(fields))
        },
    }
}

/// Whether this may be said of a schematic, by the registry.
pub open spec fn may_inform(
    schematic: Schematic,
    fallback_block: Seq<char>,
    r: Option<Result<Vec<(String, JsonField)>, AppError>>,
) -> bool {
    exists|fallback: Option<u16>, unresolved: int, built: Option<Result<Clipboard, String>>|
        {
            &&& #[trigger] may_build(schematic.name@, schematic.regions@, fallback, built)
            &&& fallback_resolves(fallback_block, fallback)
            &&& #[trigger] may_count(schematic.regions@, unresolved)
            &&& info_outcome(schematic, unresolved, built, r)
        }
}

/// What is said of a file that was read. There is no outcome where a block state in the file
/// cannot be taken apart or a step leaves the range of machine integers.
pub fn op_info(data: &[u8], display: &str, config: &PluginConfig) -> (r: Option<
    Result<Vec<(String, JsonField)>, AppError>,
>)
    ensures
        if ends_with(display@, ".schem"@) && !schem_file_readable(data@) {
            r is None
        } else {
            match schematic_file(data@, display@) {
                Err(m) => r matches Some(Err(e)) && e@ == ("PARSE"@, "parse: "@ + m),
                Ok(s) => exists|schematic: Schematic|
                    schematic@ == s && #[trigger] may_inform(
                        schematic,
                        config.fallback_block@,
                        r,
                    ),
            }
        },
{
    let schematic = match try_parse_schematic(data, display) {
        None => return None,
        Some(Err(e)) => {
            return Some(Err(AppError::new("PARSE", joined_text("parse: ", e.as_str()))));
        },
        Some(Ok(s)) => s,
    };
    let unresolved: usize = count_unresolved(&schematic);
    assert(may_count(schematic.regions@, unresolved as int));
    let fallback: Option<u16> = resolve_fallback_block(config);
    let built = build_clipboard(&schematic, fallback);
    let ghost b = built;
    assert(may_build(schematic.name@, schematic.regions@, fallback, b));
    let r = settle_info(&schematic, unresolved, built);
    assert(info_outcome(schematic, unresolved as int, b, r));
    assert(may_inform(schematic, config.fallback_block@, r));
    r
}

/// A paste that another plugin asked for.
#[derive(Debug)]
pub struct IpcPaste {
    pub queue: Vec<BlockPlacement>,
    pub tile_entities: Vec<TileEntityPlacement>,
    pub owner: String,
    pub description: String,
    pub reply: Vec<(String, JsonField)>,
}

/// How a paste that another plugin asked for is described.
pub open spec fn ipc_description(name: Seq<char>, origin: BlockPos) -> Seq<char> {
    "IPC paste '"@ + name + "' at "@ + pos_text(origin)
}

/// What is pasted, once the clipboard is built.
pub open spec fn paste_outcome(
    built: Option<Result<Clipboard, String>>,
    origin: BlockPos,
    sender: Seq<char>,
    r: Option<Result<IpcPaste, AppError>>,
) -> bool {
    match built {
        None => r is None,
        Some(Err(e)) => r matches Some(Err(a)) && a@ == ("INVALID_SCHEMATIC"@, e@),
        Some(Ok(clip)) => if placeable(clip@, origin, true) {
            &&& r matches Some(Ok(p))
            &&& p.queue@ == block_queue(clip@, origin, true)
            &&& queued_tiles(p.tile_entities@) == tile_queue(clip@, origin, true)
            &&& p.owner@ == "ipc:"@ + sender
            &&& p.description@ == ipc_description(clip.name@, origin)
            &&& fields_view(p.reply@) == seq![
                ("accepted"@, JsonView::Bool(true)),
                ("blocks"@, JsonView::Num(block_queue(clip@, origin, true).len() as u64)),
            ]
        } else {
            r is None
        },
    }
}

/// What is pasted, once the clipboard is built: its lowest corner comes to lie at the origin.
pub fn settle_paste(
    built: Option<Result<Clipboard, String>>,
    origin: BlockPos,
    sender: &str,
) -> (r: Option<Result<IpcPaste, AppError>>)
    requires
        built matches Some(Ok(clip)) ==> clip@.wf(),
    ensures
        paste_outcome(built, origin, sender@, r),
{
    let clip = match built {
        None => return None,
        Some(Err(e)) => return Some(Err(AppError::new("INVALID_SCHEMATIC", e))),
        Some(Ok(clip)) => clip,
    };
    let (queue, tile_entities) = match clip.try_work_queue(origin, true) {
        Some(q) => q,
        None => return None,
    };
    let total: usize = queue.len();
    let mut description = "IPC paste '".to_string();
    description.append(clip.name.as_str());
    description.append("' at ");
    push_pos(&mut description, origin);
    let mut reply = no_fields();
    push_field(&mut reply, "accepted", JsonField::Bool(true));
    push_field(&mut reply, "blocks", JsonField::Num(total as u64));
    assert(fields_view(reply@) =~= seq![
        ("accepted"@, JsonView::Bool(true)),
        ("blocks"@, JsonView::Num(total as u64)),
    ]);
    Some(
        Ok(
            IpcPaste {
                queue,
                tile_entities,
                owner: joined_text("ipc:", sender),
                description,
                reply,
            },
        ),
    )
}

/// Whether a schematic may be pasted like this, by the registry.
pub open spec fn may_paste(
    schematic: Schematic,
    fallback_block: Seq<char>,
    origin: BlockPos,
    sender: Seq<char>,
    r: Option<Result<IpcPaste, AppError>>,
) -> bool {
    exists|fallback: Option<u16>, built: Option<Result<Clipboard, String>>|
        {
            &&& #[trigger] may_build(schematic.name@, schematic.regions@, fallback, built)
            &&& fallback_resolves(fallback_block, fallback)
            &&& paste_outcome(built, origin, sender, r)
        }
}

/// What is pasted of a file that was read. There is no outcome where a block state in the file
/// cannot be taken apart or a step leaves the range of machine integers.
pub fn op_paste(
    data: &[u8],
    display: &str,
    config: &PluginConfig,
    origin: BlockPos,
    sender: &str,
) -> (r: Option<Result<IpcPaste, AppError>>)
    ensures
        if ends_with(display@, ".schem"@) && !schem_file_readable(data@) {
            r is None
        } else {
            match schematic_file(data@, display@) {
                Err(m) => r matches Some(Err(e)) && e@ == ("PARSE"@, "parse: "@ + m),
                Ok(s) => exists|schematic: Schematic|
                    schematic@ == s && #[trigger] may_paste(
                        schematic,
                        config.fallback_block@,
                        origin,
                        sender@,
                        r,
                    ),
            }
        },
{
    let schematic = match try_parse_schematic(data, display) {
        None => return None,
        Some(Err(e)) => {
            return Some(Err(AppError::new("PARSE", joined_text("parse: ", e.as_str()))));
        },
        Some(Ok(s)) => s,
    };
    let fallback: Option<u16> = resolve_fallback_block(config);
    let built = build_clipboard(&schematic, fallback);
    let ghost b = built;
    assert(may_build(schematic.name@, schematic.regions@, fallback, b));
    let r = settle_paste(built, origin, sender);
    assert(may_paste(schematic, config.fallback_block@, origin, sender@, r));
    r
}

/// Every kind that the plugin announces is one that it understands.
pub proof fn law_announced_kinds_are_served(i: int)
    requires
        0 <= i < kinds().len(),
    ensures
        op_of(kinds()[i]) is Some,
{
}

/// A refused request is answered with `ok` false, a code and a message; any other with `ok` true.
pub proof fn law_reply_tells_success(
    result: Result<Seq<(Seq<char>, JsonView)>, (Seq<char>, Seq<char>)>,
)
    ensures
        match result {
            Ok(fields) => reply_fields(result).contains(("ok"@, JsonView::Bool(true))) && forall|
                i: int,
            |
                0 <= i < fields.len() ==> #[trigger] reply_fields(result)[i] == fields[i],
            Err((code, message)) => {
                &&& reply_fields(result).contains(("ok"@, JsonView::Bool(false)))
                &&& reply_fields(result).contains(("code"@, JsonView::Text(code)))
                &&& reply_fields(result).contains(("message"@, JsonView::Text(message)))
            },
        },
{
    let f = reply_fields(result);
    match result {
        Ok(fields) => {
            assert(f[fields.len() as int] == ("ok"@, JsonView::Bool(true)));
        },
        Err((code, message)) => {
            assert(f[0] == ("ok"@, JsonView::Bool(false)));
            assert(f[1] == ("code"@, JsonView::Text(code)));
            assert(f[2] == ("message"@, JsonView::Text(message)));
        },
    }
}

/// A path on the host is read only if it is that of a file in an allowed directory.
pub proof fn law_external_paths_stay_inside(
    found: Result<(bool, Seq<bool>, Option<Seq<char>>), Seq<char>>,
)
    ensures
        external_of(found) is Ok ==> (found matches Ok((is_file, inside, _)) && is_file
            && inside.contains(true)),
{
}

/// Without leave, or without allowed directories, no path on the host is looked up.
pub proof fn law_external_paths_need_leave(
    schematic: Option<Seq<char>>,
    path: Option<Seq<char>>,
    dir: Option<Seq<char>>,
    allow_external: bool,
    allowed_dirs: int,
)
    requires
        !allow_external || allowed_dirs == 0,
    ensures
        !(source_of(schematic, path, dir, allow_external, allowed_dirs) matches Ok(Err(_))),
{
}

} // verus!
