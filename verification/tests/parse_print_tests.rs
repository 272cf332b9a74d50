use cjson::manip::{
    cjson_add_item_to_array, cjson_create_array, cjson_create_number, cjson_create_raw,
    cjson_create_string,
};
use cjson::model::{new_item, CJson, CJSON_ARRAY, CJSON_NUMBER, CJSON_OBJECT, CJSON_STRING};
use cjson::parse::{cjson_parse, cjson_parse_with_length_opts, cjson_parse_with_opts};
use cjson::print::{
    cjson_min, cjson_print, cjson_print_buffered, cjson_print_preallocated, cjson_print_unformatted,
};

fn dec(t: &[u8]) -> u64 {
    std::str::from_utf8(t)
        .ok()
        .and_then(|s| s.parse::<f64>().ok())
        .unwrap_or(0.0)
        .to_bits()
}

fn close(a: u64, b: u64) -> bool {
    let x = f64::from_bits(a);
    let y = f64::from_bits(b);
    let m = if x.abs() > y.abs() { x.abs() } else { y.abs() };
    (x - y).abs() <= m * f64::EPSILON
}

fn parse(s: &[u8]) -> CJson {
    cjson_parse(s, &dec).ok().unwrap()
}

fn compact(c: &CJson) -> Vec<u8> {
    cjson_print_unformatted(c, &dec, &close).unwrap()
}

#[test]
fn parse_then_print_compact() {
    let doc = parse(br#" {"a": 1, "b": [true, false, null], "c": "x\ny"} "#);
    assert_eq!(doc.type_, CJSON_OBJECT);
    assert_eq!(doc.child.len(), 3);
    assert_eq!(compact(&doc), br#"{"a":1,"b":[true,false,null],"c":"x\ny"}"#.to_vec());
}

#[test]
fn print_formatted_layout() {
    let doc = parse(br#"{"a":1,"b":[1,2],"c":{}}"#);
    let text = cjson_print(&doc, &dec, &close).unwrap();
    assert_eq!(text, b"{\n\t\"a\":\t1,\n\t\"b\":\t[1, 2],\n\t\"c\":\t{\n\t}\n}".to_vec());
}

#[test]
fn print_numbers() {
    assert_eq!(compact(&parse(b"0.1")), b"0.1".to_vec());
    assert_eq!(compact(&parse(b"1e300")), b"1e+300".to_vec());
    assert_eq!(compact(&parse(b"3.141592653589793")), b"3.1415926535897931".to_vec());
    assert_eq!(compact(&parse(b"-0.0")), b"0".to_vec());
    assert_eq!(compact(&parse(b"123456789")), b"123456789".to_vec());
    assert_eq!(compact(&parse(b"1e10")), b"10000000000".to_vec());
    let nan = cjson_create_number(f64::NAN.to_bits());
    assert_eq!(compact(&nan), b"null".to_vec());
    let inf = cjson_create_number(f64::INFINITY.to_bits());
    assert_eq!(compact(&inf), b"null".to_vec());
}

#[test]
fn print_string_escapes() {
    let s = cjson_create_string(b"q\"b\\\x08\x0c\n\r\t\x01z");
    assert_eq!(compact(&s), b"\"q\\\"b\\\\\\b\\f\\n\\r\\t\\u0001z\"".to_vec());
    let t = cjson_create_string(b"ab\0cd");
    assert_eq!(compact(&t), b"\"ab\"".to_vec());
}

#[test]
fn print_raw_and_invalid() {
    let raw = cjson_create_raw(b"{\"x\" : 1}");
    assert_eq!(compact(&raw), b"{\"x\" : 1}".to_vec());
    let invalid = new_item(0);
    assert!(cjson_print_unformatted(&invalid, &dec, &close).is_none());
    let mut raw_none = new_item(128);
    raw_none.valuestring = None;
    assert!(cjson_print_unformatted(&raw_none, &dec, &close).is_none());
}

#[test]
fn print_nesting_limit() {
    let mut inner = cjson_create_array();
    for _ in 0..999 {
        let mut outer = cjson_create_array();
        cjson_add_item_to_array(&mut outer, inner);
        inner = outer;
    }
    assert_eq!(compact(&inner).len(), 2000);
    let mut outer = cjson_create_array();
    cjson_add_item_to_array(&mut outer, inner);
    assert!(cjson_print_unformatted(&outer, &dec, &close).is_none());
}

#[test]
fn print_buffered_and_preallocated() {
    let doc = parse(br#"{"k":[1,2,3]}"#);
    assert!(cjson_print_buffered(&doc, -1, false, &dec, &close).is_none());
    assert_eq!(cjson_print_buffered(&doc, 0, false, &dec, &close).unwrap(), br#"{"k":[1,2,3]}"#.to_vec());
    assert_eq!(cjson_print_buffered(&doc, 1, true, &dec, &close).unwrap(), cjson_print(&doc, &dec, &close).unwrap());
    let mut small = vec![0xCCu8; 8];
    assert!(!cjson_print_preallocated(&doc, &mut small, 8, false, &dec, &close));
    assert_eq!(small, vec![0xCCu8; 8]);
    let mut big = vec![0xCCu8; 64];
    assert!(cjson_print_preallocated(&doc, &mut big, 64, false, &dec, &close));
    assert_eq!(&big[..14], b"{\"k\":[1,2,3]}\0");
    assert_eq!(big[14], 0xCC);
    let mut neg = vec![1u8; 4];
    assert!(!cjson_print_preallocated(&doc, &mut neg, -1, false, &dec, &close));
}

#[test]
fn preallocated_needs_room_past_the_text() {
    let doc = parse(b"true");
    let mut b5 = vec![0u8; 5];
    assert!(!cjson_print_preallocated(&doc, &mut b5, 5, false, &dec, &close));
    let mut b6 = vec![0u8; 6];
    assert!(cjson_print_preallocated(&doc, &mut b6, 6, false, &dec, &close));
    assert_eq!(&b6[..5], b"true\0");
}

#[test]
fn parse_errors_and_positions() {
    assert_eq!(cjson_parse(b"[1,2", &dec).err().unwrap().position, 4);
    assert_eq!(cjson_parse(b"{\"a\" 1}", &dec).err().unwrap().position, 5);
    assert!(cjson_parse(b"", &dec).is_err());
    let (v, end) = cjson_parse_with_opts(b"[1] x", false, &dec).ok().unwrap();
    assert_eq!(v.type_, CJSON_ARRAY);
    assert_eq!(end, 3);
    assert!(cjson_parse_with_opts(b"[1] x", true, &dec).is_err());
    let (n, end) = cjson_parse_with_length_opts(b"12345", 2, false, &dec).ok().unwrap();
    assert_eq!(n.type_, CJSON_NUMBER);
    assert_eq!(n.valueint, 12);
    assert_eq!(end, 2);
}

#[test]
fn parse_strings_and_surrogates() {
    let s = parse(br#""\u00e9\ud83d\ude42\/""#);
    assert_eq!(s.type_, CJSON_STRING);
    assert_eq!(s.valuestring.unwrap(), "\u{e9}\u{1f642}/".as_bytes().to_vec());
}

#[test]
fn parse_nesting_limit() {
    let mut deep = Vec::new();
    for _ in 0..1000 {
        deep.push(b'[');
    }
    for _ in 0..1000 {
        deep.push(b']');
    }
    assert!(cjson_parse(&deep, &dec).is_ok());
    let mut deeper = vec![b'['];
    deeper.extend_from_slice(&deep);
    deeper.push(b']');
    assert!(cjson_parse(&deeper, &dec).is_err());
}

#[test]
fn roundtrip_parse_print_parse() {
    let text = br#"{"name":"x","list":[1,-2.5,1e-7,"s",{"deep":[[]]}],"t":true,"n":null}"#;
    let a = parse(text);
    let p = compact(&a);
    let b = parse(&p);
    assert_eq!(compact(&b), p);
    let f = cjson_print(&a, &dec, &close).unwrap();
    assert_eq!(compact(&parse(&f)), p);
}

#[test]
fn min_of_sizes() {
    assert_eq!(cjson_min(3, 5), 3);
    assert_eq!(cjson_min(9, 2), 2);
    assert_eq!(cjson_min(4, 4), 4);
}
