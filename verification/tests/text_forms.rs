use item_collection::delimited::{append_terminated, compose_key, join, split, split_once};
use item_collection::string_map::StringMap;
use item_collection::text::{
    append_decimal, append_signed_decimal, chars_of, parse_signed, parse_unsigned, signed_text,
    unsigned_text,
};

fn parts(texts: &[&str]) -> Vec<String> {
    texts.iter().map(|t| t.to_string()).collect()
}

#[test]
fn numerals_have_no_leading_zeros() {
    assert_eq!(unsigned_text(0), "0");
    assert_eq!(unsigned_text(1907), "1907");
    assert_eq!(unsigned_text(u64::MAX), u64::MAX.to_string());
    assert_eq!(signed_text(0), "0");
    assert_eq!(signed_text(-42), "-42");
    assert_eq!(signed_text(i64::MIN), i64::MIN.to_string());
    assert_eq!(signed_text(i64::MAX), i64::MAX.to_string());
}

#[test]
fn numerals_are_appended() {
    let mut s = String::from("n=");
    append_decimal(&mut s, 305);
    assert_eq!(s, "n=305");
    append_signed_decimal(&mut s, -7);
    assert_eq!(s, "n=305-7");
}

#[test]
fn unsigned_numerals_are_read_like_integers() {
    for s in [
        "0", "00", "17", "+17", "-0", "-1", "", "+", "1x", " 1", "18446744073709551615",
        "18446744073709551616", "0018446744073709551615", "+-1",
    ] {
        assert_eq!(parse_unsigned(s), s.parse::<u64>().ok(), "{s}");
    }
}

#[test]
fn signed_numerals_are_read_like_integers() {
    for s in [
        "0", "-0", "17", "+17", "-17", "", "-", "--1", "1x", "9223372036854775807",
        "9223372036854775808", "-9223372036854775808", "-9223372036854775809",
    ] {
        assert_eq!(parse_signed(s), s.parse::<i64>().ok(), "{s}");
    }
}

#[test]
fn numbers_are_read_back() {
    for n in [0, 1, 9, 10, 99, 100, u64::MAX] {
        assert_eq!(parse_unsigned(&unsigned_text(n)), Some(n));
    }
    for n in [0, -1, 9, -10, i64::MIN, i64::MAX] {
        assert_eq!(parse_signed(&signed_text(n)), Some(n));
    }
}

#[test]
fn characters_are_listed() {
    assert_eq!(chars_of("aß#"), vec!['a', 'ß', '#']);
    assert_eq!(chars_of(""), Vec::<char>::new());
}

#[test]
fn join_puts_the_separator_between() {
    assert_eq!(join(&parts(&["a", "b", "c"]), " AND "), "a AND b AND c");
    assert_eq!(join(&parts(&["a"]), ", "), "a");
    assert_eq!(join(&parts(&[]), ", "), "");
}

#[test]
fn composite_keys_end_with_the_delimiter() {
    assert_eq!(compose_key(&parts(&["Todo", "t1"])), "Todo#t1#");
    assert_eq!(compose_key(&parts(&["Todo"])), "Todo#");
    assert_eq!(compose_key(&parts(&[])), "#");
    let mut s = String::from("Todo#");
    append_terminated(&mut s, "t1");
    assert_eq!(s, "Todo#t1#");
}

#[test]
fn split_gives_all_pieces() {
    assert_eq!(split("Todo#t1#"), parts(&["Todo", "t1", ""]));
    assert_eq!(split(""), parts(&[""]));
    assert_eq!(split("#"), parts(&["", ""]));
    assert_eq!(split("abc"), parts(&["abc"]));
}

#[test]
fn split_once_cuts_at_the_first_delimiter() {
    assert_eq!(
        split_once("2#{\"String\":\"a#b\"}"),
        Some(("2".to_string(), "{\"String\":\"a#b\"}".to_string()))
    );
    assert_eq!(split_once("none"), None);
    assert_eq!(split_once("#"), Some((String::new(), String::new())));
}

#[test]
fn composite_keys_are_split_back() {
    let key = parts(&["Comment", "t1", "c9"]);
    let mut pieces = split(&compose_key(&key));
    assert_eq!(pieces.pop(), Some(String::new()));
    assert_eq!(pieces, key);
}

#[test]
fn partial_keys_are_prefixes() {
    let full = compose_key(&parts(&["Todo", "t1"]));
    assert!(full.starts_with("Todo#"));
    assert!(!full.starts_with("To#"));
    assert!(full.starts_with(&compose_key(&parts(&["Todo"]))));
}

#[test]
fn keys_of_different_models_differ() {
    let todo = compose_key(&parts(&["Todo", "1"]));
    let comment = compose_key(&parts(&["Comment", "1"]));
    let shifted = compose_key(&parts(&["Todo1"]));
    assert_ne!(todo, comment);
    assert_ne!(todo, shifted);
}

#[test]
fn string_map_keeps_one_value_for_each_key() {
    let mut map: StringMap<u32> = StringMap::new();
    assert_eq!(map.len(), 0);
    map.insert("a".to_string(), 1);
    map.insert("b".to_string(), 2);
    map.insert("a".to_string(), 3);
    assert_eq!(map.len(), 2);
    assert_eq!(map.get("a"), Some(&3));
    assert_eq!(map.get("c"), None);
    assert!(map.contains_key("b"));
    assert!(!map.contains_key("c"));
    assert_eq!(
        map.into_entries(),
        vec![("a".to_string(), 3), ("b".to_string(), 2)]
    );
}
