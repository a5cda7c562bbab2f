use ftwdb::columns::{decode_columns, encode_columns, maximum_encoded_bytes, minimum_encoded_bytes};
use ftwdb::json::{find_member, JsonValue};
use ftwdb::lz4::{has_short_runs, overlong_run_bytes};
use ftwdb::model::{FloatBits, Point};
use ftwdb::text::{is_blank, is_text_less, put_decimal, put_hex, put_signed_decimal, same_text};
use ftwdb::text_map::TextMap;
use ftwdb::text_scan::{
    characters, characters_are, lines, parse_signed, parse_small, parse_unsigned, split, text_of,
    trim, IntegerFault,
};
use ftwdb::varint::{put_signed, put_varint, take_varint};

fn points() -> Vec<Point> {
    (0..20_i64)
        .map(|index| Point {
            series_id: 3,
            valid_time: index * 1_000 - 7_000,
            valid_time_end: index * 1_000 - 6_000,
            knowledge_time: index * 1_000 - 9_000,
            change_time: 1 << 40,
            run_id: if index % 2 == 0 { u128::MAX } else { 5 },
            value: FloatBits((index as f64 / 3.0).to_bits()),
            quality: index as u32,
            flags: u32::MAX,
        })
        .collect()
}

#[test]
fn columns_give_back_the_points_they_were_made_of() {
    let all = points();
    let encoded = encode_columns(&all).unwrap();
    assert!(encoded.len() as u64 >= minimum_encoded_bytes(20));
    assert!(encoded.len() as u64 <= maximum_encoded_bytes(20));
    assert_eq!(decode_columns(&encoded, 3, 20).unwrap(), all);
    for count in (0..20).chain(21..40) {
        assert!(decode_columns(&encoded, 3, count).is_err());
    }
    assert!(decode_columns(&encoded[..encoded.len() - 1], 3, 20).is_err());
    let mut apart = points();
    apart[0].valid_time = i64::MIN;
    apart[1].valid_time = 1;
    assert_eq!(encode_columns(&apart), Err("timestamp delta overflows i64"));
    let mut longer = encoded.clone();
    longer.push(0);
    assert!(decode_columns(&longer, 3, 20).is_err());
}

#[test]
fn long_runs_are_found() {
    assert!(has_short_runs(&[]));
    let mut bytes = vec![0xff; overlong_run_bytes()];
    assert!(!has_short_runs(&bytes));
    assert!(has_short_runs(&bytes[1..]));
    bytes[overlong_run_bytes() / 2] = 0;
    assert!(has_short_runs(&bytes));
}

#[test]
fn varints_hold_seven_bits_a_byte() {
    let mut out = Vec::new();
    put_varint(&mut out, 300);
    assert_eq!(out, [0xac, 0x02]);
    assert_eq!(take_varint(&out, 0, 10), Ok((300, 2)));
    let mut out = Vec::new();
    put_signed(&mut out, -1);
    put_signed(&mut out, 1);
    assert_eq!(out, [1, 2]);
    assert!(take_varint(&[0x80], 0, 10).is_err());
    assert!(take_varint(&[0x80, 0x80, 0x80], 0, 2).is_err());
}

#[test]
fn texts_are_split_and_trimmed() {
    let text = characters("a,b,,c\r\nd\n");
    assert_eq!(split(&text, ',').len(), 4);
    let found: Vec<String> = lines(&text).iter().map(|line| text_of(line)).collect();
    assert_eq!(found, vec!["a,b,,c", "d"]);
    assert_eq!(text_of(&trim(&characters("\t x y \u{2003}"))), "x y");
    assert!(characters_are(&characters("abc"), "abc"));
    assert!(!characters_are(&characters("abc"), "abd"));
    assert!(is_blank(" \u{3000}\n") && !is_blank(" a "));
    assert!(is_text_less("a", "ab") && is_text_less("B", "a") && !is_text_less("a", "a"));
    assert!(same_text("\u{e5}", "\u{e5}") && !same_text("a", "A"));
}

#[test]
fn numbers_are_read_as_they_are_written() {
    let read = |text: &str| parse_unsigned(&characters(text));
    assert_eq!(read("+007"), Ok(7));
    assert_eq!(read(""), Err(IntegerFault::Empty));
    assert_eq!(read("+"), Err(IntegerFault::InvalidDigit));
    assert_eq!(read("1_0"), Err(IntegerFault::InvalidDigit));
    assert_eq!(read("18446744073709551616"), Err(IntegerFault::PosOverflow));
    assert_eq!(parse_signed(&characters("-9223372036854775808")), Ok(i64::MIN));
    assert_eq!(
        parse_signed(&characters("-9223372036854775809")),
        Err(IntegerFault::NegOverflow)
    );
    assert_eq!(parse_small(&characters("-7")), Ok(-7));
    assert_eq!(IntegerFault::Empty.text(), "cannot parse integer from empty string");

    let mut out = String::new();
    put_decimal(&mut out, u128::MAX);
    put_signed_decimal(&mut out, i64::MIN);
    put_hex(&mut out, 0xbeef, 6);
    assert_eq!(out, "340282366920938463463374607431768211455-922337203685477580800beef");
}

#[test]
fn text_maps_are_kept_in_key_order() {
    let mut map = TextMap::new();
    assert!(map.is_empty());
    map.insert("b".to_owned(), 1);
    map.insert("a".to_owned(), 2);
    map.insert("b".to_owned(), 3);
    assert_eq!(map.len(), 2);
    assert_eq!((map.key_at(0).as_str(), *map.value_at(0)), ("a", 2));
    assert_eq!(map.get("b"), Some(&3));
    assert_eq!(map.get("c"), None);
}

#[test]
fn members_of_json_objects_are_found() {
    let members = vec![
        ("points".to_owned(), JsonValue::Number(Some(12))),
        ("ok".to_owned(), JsonValue::Bool(true)),
        ("name".to_owned(), JsonValue::Text("x".to_owned())),
    ];
    assert_eq!(find_member(&members, "points"), Some(&JsonValue::Number(Some(12))));
    assert_eq!(find_member(&members, "ok"), Some(&JsonValue::Bool(true)));
    assert_eq!(find_member(&members, "missing"), None);
    assert_eq!(find_member(&members, "name"), Some(&JsonValue::Text("x".to_owned())));
}
