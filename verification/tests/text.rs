use pumpkinetica::names::NameMap;
use pumpkinetica::text::{
    chars_of, contains_char, decimal_i64, decimal_u64, has_suffix, is_white_space, parse_i32, same,
    trim_suffixes, without_prefix,
};

#[test]
fn numbers_are_written_in_decimal() {
    assert_eq!(decimal_u64(0), "0");
    assert_eq!(decimal_u64(1207), "1207");
    assert_eq!(decimal_u64(u64::MAX), u64::MAX.to_string());
    assert_eq!(decimal_i64(-40), "-40");
    assert_eq!(decimal_i64(i64::MIN), i64::MIN.to_string());
}

#[test]
fn numbers_are_read_like_the_standard_library_does() {
    let texts = [
        "0", "-0", "+7", "90", "-90", "2147483647", "2147483648", "-2147483648", "-2147483649", "",
        "+", "-", "--1", "+-1", "1 ", " 1", "1_0", "0x10", "007", "99999999999999999999", "9٣", "12a",
    ];
    for t in texts {
        assert_eq!(parse_i32(t), t.parse::<i32>().ok(), "{t:?}");
    }
}

#[test]
fn written_numbers_read_back() {
    for n in [i32::MIN, -17, -1, 0, 1, 15, 270, i32::MAX] {
        assert_eq!(parse_i32(&decimal_i64(n as i64)), Some(n));
    }
}

#[test]
fn white_space_is_that_of_unicode() {
    for u in 0..=0x10ffffu32 {
        if let Some(c) = char::from_u32(u) {
            assert_eq!(is_white_space(c), c.is_whitespace(), "{u:#x}");
        }
    }
}

#[test]
fn texts_are_compared_by_their_characters() {
    assert!(same("größe", "größe"));
    assert!(!same("a", "b"));
    assert!(!same("a", "aa"));
    assert!(!same("aa", "a"));
    assert_eq!(chars_of("aä"), vec!['a', 'ä']);
    assert!(contains_char("a/b", '/'));
    assert!(!contains_char("ab", '/'));
}

#[test]
fn suffixes_are_found_and_trimmed() {
    assert!(has_suffix("a.schem", ".schem"));
    assert!(has_suffix(".schem", ".schem"));
    assert!(!has_suffix("schem", ".schem"));
    assert!(!has_suffix("a.SCHEM", ".schem"));
    assert_eq!(trim_suffixes("a.schem", ".schem"), "a");
    assert_eq!(trim_suffixes("a.schem.schem", ".schem"), "a");
    assert_eq!(trim_suffixes("a.schematic", ".schem"), "a.schematic");
    assert_eq!(trim_suffixes("ä.schem", ".schem"), "ä");
}

#[test]
fn a_prefix_is_left_out_once() {
    assert_eq!(without_prefix("minecraft:stone", "minecraft:"), "stone");
    assert_eq!(without_prefix("minecraft:minecraft:a", "minecraft:"), "minecraft:a");
    assert_eq!(without_prefix("stone", "minecraft:"), "stone");
    assert_eq!(without_prefix("mine", "minecraft:"), "mine");
}

#[test]
fn a_map_keeps_the_place_of_a_name() {
    let mut m: NameMap<u16> = NameMap::new();
    m.insert("a".to_string(), 1);
    m.insert("b".to_string(), 2);
    m.insert("a".to_string(), 3);
    assert_eq!(m.entries, vec![("a".to_string(), 3), ("b".to_string(), 2)]);
    assert_eq!(m.get("a"), Some(&3));
    assert_eq!(m.position("b"), Some(1));
    assert_eq!(m.get("c"), None);
}

#[test]
fn a_removed_name_is_forgotten_and_the_others_stay() {
    let mut map: NameMap<u16> = NameMap::new();
    map.insert("steve".to_string(), 1);
    map.insert("alex".to_string(), 2);
    map.insert("noor".to_string(), 3);
    assert_eq!(map.remove("alex"), Some(2));
    assert_eq!(map.remove("alex"), None);
    assert_eq!(map.get("alex"), None);
    assert_eq!(map.get("steve"), Some(&1));
    assert_eq!(map.get("noor"), Some(&3));
}
