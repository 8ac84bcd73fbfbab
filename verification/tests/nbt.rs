use pumpkinetica::names::NameMap;
use pumpkinetica::nbt::{
    get_byte_array, get_compound, get_int, get_list, get_long_array, get_short, get_string,
    NbtValue,
};
use pumpkinetica::nbt_read::{
    checked_len, parse_nbt, read_i16, read_i32, read_i64, read_i8, read_string, read_tag, read_u8,
    Cursor,
};
use pumpkinetica::nbt_write::{nbt_tag_id, serialize_nbt_value, write_tag_payload};
use pumpkinetica::varint::{decode_varint_array, encode_varint_array};

fn compound(entries: Vec<(&str, NbtValue)>) -> NbtValue {
    NbtValue::Compound(map(entries))
}

fn map(entries: Vec<(&str, NbtValue)>) -> NameMap<NbtValue> {
    NameMap { entries: entries.into_iter().map(|(k, v)| (k.to_string(), v)).collect() }
}

fn shown(v: &NbtValue) -> String {
    format!("{v:?}")
}

fn every_kind() -> NbtValue {
    compound(vec![
        ("byte", NbtValue::Byte(-1)),
        ("short", NbtValue::Short(-2)),
        ("int", NbtValue::Int(i32::MIN)),
        ("long", NbtValue::Long(i64::MAX)),
        ("float", NbtValue::Float(1.5f32.to_bits())),
        ("double", NbtValue::Double((-0.0f64).to_bits())),
        ("bytes", NbtValue::ByteArray(vec![-128, 0, 127])),
        ("text", NbtValue::String("grün".to_string())),
        ("list", NbtValue::List(vec![NbtValue::Int(1), NbtValue::Int(2)])),
        ("none", NbtValue::List(vec![])),
        ("inner", compound(vec![("a", NbtValue::Byte(1))])),
        ("ints", NbtValue::IntArray(vec![1, -1])),
        ("longs", NbtValue::LongArray(vec![1, -1])),
    ])
}

#[test]
fn a_file_is_written_byte_by_byte() {
    let v = compound(vec![("x", NbtValue::Int(258)), ("s", NbtValue::String("é".to_string()))]);
    assert_eq!(
        serialize_nbt_value(&v),
        vec![
            10, 0, 0, 3, 0, 1, b'x', 0, 0, 1, 2, 8, 0, 1, b's', 0, 2, 0xc3, 0xa9, 0,
        ]
    );
    assert_eq!(serialize_nbt_value(&NbtValue::Int(1)), vec![10, 0, 0]);
}

#[test]
fn every_kind_of_value_reads_back() {
    let v = every_kind();
    let bytes = serialize_nbt_value(&v);
    let back = parse_nbt(&bytes).unwrap();
    assert_eq!(shown(&back), shown(&v));
    assert_eq!(serialize_nbt_value(&back), bytes);
}

#[test]
fn a_list_is_written_with_the_type_of_its_first_value() {
    let mut out = vec![];
    write_tag_payload(&mut out, &NbtValue::List(vec![NbtValue::Short(1)]));
    assert_eq!(out, vec![2, 0, 0, 0, 1, 0, 1]);
    let mut empty = vec![];
    write_tag_payload(&mut empty, &NbtValue::List(vec![]));
    assert_eq!(&empty[1..], &[0, 0, 0, 0]);
    let mut long = vec![];
    write_tag_payload(&mut long, &NbtValue::LongArray(vec![-2]));
    assert_eq!(long, vec![0, 0, 0, 1, 255, 255, 255, 255, 255, 255, 255, 254]);
}

#[test]
fn types_have_their_numbers() {
    let kinds = match every_kind() {
        NbtValue::Compound(m) => m.entries,
        _ => panic!("no compound"),
    };
    let ids: Vec<u8> = kinds.iter().map(|e| nbt_tag_id(&e.1)).collect();
    assert_eq!(ids, vec![1, 2, 3, 4, 5, 6, 7, 8, 9, 9, 10, 11, 12]);
}

#[test]
fn the_last_of_two_entries_of_one_name_counts() {
    let data = [10, 0, 0, 1, 0, 1, b'a', 5, 1, 0, 1, b'a', 6, 0];
    match parse_nbt(&data).unwrap() {
        NbtValue::Compound(m) => assert_eq!(format!("{:?}", m.entries), "[(\"a\", Byte(6))]"),
        _ => panic!("no compound"),
    }
}

#[test]
fn broken_files_are_refused() {
    let err = |d: &[u8]| parse_nbt(d).unwrap_err();
    assert_eq!(err(&[]), "failed to fill whole buffer");
    assert_eq!(err(&[3]), "Expected compound root, got tag type 3");
    assert_eq!(err(&[10, 0]), "failed to fill whole buffer");
    assert_eq!(err(&[10, 0, 0]), "failed to fill whole buffer");
    assert_eq!(err(&[10, 0, 0, 99, 0, 0]), "Unknown NBT tag type: 99");
    assert_eq!(err(&[10, 0xff, 0xff, 0]), "Negative NBT length");
    assert_eq!(err(&[10, 0, 9, 0]), "NBT length exceeds remaining data");
    assert_eq!(err(&[10, 0, 0, 7, 0, 0, 0xff, 0xff, 0xff, 0xff]), "Negative NBT length");
    assert_eq!(
        err(&[10, 0, 0, 7, 0, 0, 0, 0, 0, 9, 1]),
        "NBT length exceeds remaining data"
    );
    assert_eq!(err(&[10, 0, 0, 11, 0, 0, 0, 0, 0, 2, 0, 0, 0, 1]), "failed to fill whole buffer");
    let bad = String::from_utf8(vec![0xff]).unwrap_err().to_string();
    assert_eq!(err(&[10, 0, 1, 0xff, 0]), bad);
}

#[test]
fn numbers_are_read_from_their_bytes() {
    let data = [0xfe, 0x80, 0x01, 0xff, 0xff, 0xff, 0xfe, 1, 2, 3, 4, 5, 6, 7, 8, 0, 2, b'h', b'i'];
    let mut c = Cursor { data: &data, pos: 0 };
    assert_eq!(read_i8(&mut c), Ok(-2));
    assert_eq!(read_i16(&mut c), Ok(-32767));
    assert_eq!(read_i32(&mut c), Ok(-2));
    assert_eq!(read_i64(&mut c), Ok(0x0102030405060708));
    assert_eq!(read_string(&mut c), Ok("hi".to_string()));
    assert_eq!(c.remaining(), 0);
    assert_eq!(read_u8(&mut c), Err("failed to fill whole buffer".to_string()));
    let c = Cursor { data: &data, pos: 10 };
    assert_eq!(checked_len(9, &c), Ok(9));
    assert_eq!(checked_len(10, &c), Err("NBT length exceeds remaining data".to_string()));
    assert_eq!(checked_len(-1, &c), Err("Negative NBT length".to_string()));
}

#[test]
fn a_float_keeps_its_bits() {
    let data = 1.5f32.to_bits().to_be_bytes();
    let mut c = Cursor { data: &data, pos: 0 };
    match read_tag(&mut c, 5).unwrap() {
        NbtValue::Float(bits) => assert_eq!(f32::from_bits(bits), 1.5),
        _ => panic!("no float"),
    }
}

#[test]
fn entries_are_found_by_name_and_type() {
    let m = match every_kind() {
        NbtValue::Compound(m) => m,
        _ => panic!("no compound"),
    };
    assert_eq!(get_int(&m, "int"), Some(i32::MIN));
    assert_eq!(get_int(&m, "short"), None);
    assert_eq!(get_short(&m, "short"), Some(-2));
    assert_eq!(get_string(&m, "text"), Some("grün".to_string()));
    assert_eq!(get_string(&m, "gone"), None);
    assert_eq!(get_list(&m, "list").unwrap().len(), 2);
    assert_eq!(get_byte_array(&m, "bytes"), Some(vec![-128, 0, 127]));
    assert_eq!(get_long_array(&m, "longs"), Ok(vec![1, -1]));
    assert_eq!(
        get_long_array(&m, "ints"),
        Err("Missing or invalid 'ints' (expected LongArray)".to_string())
    );
    assert!(get_compound(&m, "inner").is_some());
    assert!(get_compound(&m, "list").is_none());
}

#[test]
fn numbers_of_variable_length_read_back() {
    let all: Vec<u16> = vec![0, 1, 127, 128, 300, 16383, 16384, 65535];
    let bytes = encode_varint_array(&all);
    assert_eq!(
        bytes,
        vec![0, 1, 127, -128, 1, -84, 2, -1, 127, -128, -128, 1, -1, -1, 3]
    );
    assert_eq!(decode_varint_array(&bytes, all.len()), Ok(all.clone()));
    assert_eq!(decode_varint_array(&bytes, 3), Ok(vec![0, 1, 127]));
    let mut longer = bytes.clone();
    longer.extend([-1, 5]);
    assert_eq!(decode_varint_array(&longer, all.len()), Ok(all.clone()));
    assert_eq!(decode_varint_array(&[5], 3), Ok(vec![5]));
}

#[test]
fn broken_numbers_of_variable_length_are_refused() {
    assert_eq!(
        decode_varint_array(&[-128], 1),
        Err("Unexpected end of varint data".to_string())
    );
    assert_eq!(
        decode_varint_array(&[-128, -128, -128, -128, -128, 1], 1),
        Err("Varint too large".to_string())
    );
    assert_eq!(decode_varint_array(&[-128, -128, -128, -128, 1], 1), Ok(vec![0]));
}
