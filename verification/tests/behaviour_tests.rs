use cjson::fixtures::{gen_doc, Rng};
use cjson::float::{format_g, round_significant};
use cjson::manip::{cjson_compare, cjson_duplicate};
use cjson::model::{CJson, CJSON_OBJECT};
use cjson::parse::{
    cjson_parse, cjson_parse_with_opts, parse_array, parse_object, parse_string, parse_value, skip_utf8_bom,
    ParseBuffer,
};
use cjson::print::{cjson_print_unformatted, print_array, print_string_ptr, update_offset, PrintBuffer};
use cjson::utils::{
    cjson_utils_apply_patches_case_sensitive, cjson_utils_generate_merge_patch,
    cjson_utils_generate_patches_case_sensitive, cjson_utils_merge_patch,
};

fn dec(t: &[u8]) -> u64 {
    std::str::from_utf8(t)
        .ok()
        .and_then(|s| s.parse::<f64>().ok())
        .unwrap_or(0.0)
        .to_bits()
}

fn close(a: u64, b: u64) -> bool {
    let x = f64::from_bits(a);
    let y = f64::from_bits(b);
    let m = if x.abs() > y.abs() { x.abs() } else { y.abs() };
    (x - y).abs() <= m * f64::EPSILON
}

fn parse(s: &[u8]) -> CJson {
    cjson_parse(s, &dec).ok().unwrap()
}

fn compact(c: &CJson) -> Vec<u8> {
    cjson_print_unformatted(c, &dec, &close).unwrap()
}

fn growable() -> PrintBuffer {
    PrintBuffer { buffer: Vec::new(), offset: 0, length: 256, depth: 0, noalloc: false, format: false }
}

#[test]
fn comparing_a_document_with_itself_succeeds() {
    let dup = parse(br#"{"k":1,"k":2}"#);
    assert!(cjson_compare(&dup, &dup, true, &close));
    assert!(cjson_compare(&dup, &dup, false, &close));
    let copy = cjson_duplicate(&dup, true).unwrap();
    assert!(cjson_compare(&dup, &copy, true, &close));
    let nan = CJson {
        type_: 8,
        valuestring: None,
        valueint: 0,
        valuedouble: f64::NAN.to_bits(),
        string: None,
        child: Vec::new(),
    };
    assert!(cjson_compare(&nan, &nan, true, &close));
    let other = parse(br#"{"k":1,"k":3}"#);
    assert!(!cjson_compare(&dup, &other, true, &close));
}

#[test]
fn string_printer_leaves_the_offset() {
    let mut p = growable();
    let s = Some(vec![0x61, 0x22, 0x62, 0x5C, 0x0A, 0x01, 0x00]);
    assert!(print_string_ptr(&s, &mut p));
    assert_eq!(p.buffer, b"\"a\\\"b\\\\\\n\\u0001\"".to_vec());
    assert_eq!(p.buffer.len(), 16);
    assert_eq!(p.offset, 0);
    update_offset(&mut p);
    assert_eq!(p.offset, 16);
    // without a commit the next text is written over the last
    let mut q = growable();
    assert!(print_string_ptr(&Some(b"first".to_vec()), &mut q));
    assert!(print_string_ptr(&Some(b"x".to_vec()), &mut q));
    assert_eq!(q.buffer, b"\"x\"".to_vec());
    assert_eq!(q.offset, 0);
}

#[test]
fn array_printer_commits_all_but_the_closing_bracket() {
    let doc = parse(br#"[1,"a",[2]]"#);
    let mut p = growable();
    assert!(print_array(&doc, &mut p, &dec, &close));
    assert_eq!(p.buffer, b"[1,\"a\",[2]]".to_vec());
    assert_eq!(p.offset, p.buffer.len() - 1);
    // any node's children print as an array
    let obj = parse(br#"{"a":1,"b":true}"#);
    let mut q = growable();
    assert!(print_array(&obj, &mut q, &dec, &close));
    assert_eq!(q.buffer, b"[1,true]".to_vec());
}

#[test]
fn container_parsers_refuse_what_they_cannot_parse() {
    let text = b"{\"a\":1}";
    let mut b = ParseBuffer { content: text, length: text.len(), offset: 0, depth: 0 };
    assert!(parse_array(&mut b, &dec).is_none());
    assert_eq!(b.offset, 0);
    let mut deep = ParseBuffer { content: b"[]", length: 2, offset: 0, depth: 1000 };
    assert!(parse_array(&mut deep, &dec).is_none());
    let mut deep_o = ParseBuffer { content: b"{}", length: 2, offset: 0, depth: 1000 };
    assert!(parse_object(&mut deep_o, &dec).is_none());
    let mut ok = ParseBuffer { content: b"[1, 2]", length: 6, offset: 0, depth: 999 };
    let arr = parse_array(&mut ok, &dec).unwrap();
    assert_eq!(arr.child.len(), 2);
    assert_eq!(ok.offset, 6);
}

fn keys_distinct(n: &CJson) -> bool {
    if n.type_ & 0xFF == CJSON_OBJECT {
        for i in 0..n.child.len() {
            for j in 0..i {
                if n.child[i].string == n.child[j].string {
                    return false;
                }
            }
        }
    }
    n.child.iter().all(keys_distinct)
}

#[test]
fn generated_objects_have_distinct_keys() {
    let mut rng = Rng(0x9E37_79B9_7F4A_7C15);
    let mut checked = 0;
    for _ in 0..300 {
        let doc = gen_doc(&mut rng, 6);
        if let Ok(tree) = cjson_parse_with_opts(&doc, true, &dec) {
            assert!(keys_distinct(&tree.0));
            checked += 1;
        }
    }
    assert!(checked > 0);
}

#[test]
fn merge_patch_round_trip_keeps_unchanged_nulls() {
    let mut from = parse(br#"{"e":null}"#);
    let mut to = parse(br#"{"e":null,"a":1}"#);
    let patch = cjson_utils_generate_merge_patch(&mut from, Some(&mut to), &close).unwrap();
    assert_eq!(compact(&patch), br#"{"a":1}"#.to_vec());
    let merged = cjson_utils_merge_patch(Some(from), &patch).unwrap();
    assert!(cjson_compare(&merged, &to, true, &close));
    assert!(cjson_compare(&to, &merged, true, &close));
}

#[test]
fn patch_round_trip_with_keys_differing_by_case() {
    // removal detaches the first member whose key matches up to case
    let mut from = parse(br#"{"A":1,"a":2}"#);
    let mut to = parse(br#"{"A":1}"#);
    let patches = cjson_utils_generate_patches_case_sensitive(&mut from, &mut to, &close);
    assert_eq!(compact(&patches), br#"[{"op":"remove","path":"/a"}]"#.to_vec());
    let mut object = cjson_duplicate(&from, true).unwrap();
    assert_eq!(cjson_utils_apply_patches_case_sensitive(&mut object, &patches, &close), 0);
    assert_eq!(compact(&object), br#"{"a":2}"#.to_vec());
}

#[test]
fn format_g_at_precision_zero() {
    let mut out = Vec::new();
    format_g(0.0f64.to_bits(), 0, &mut out);
    assert_eq!(out, b"0".to_vec());
    let mut out = Vec::new();
    format_g(f64::NAN.to_bits(), 0, &mut out);
    assert_eq!(out, b"nan".to_vec());
    let mut out = Vec::new();
    format_g(f64::NEG_INFINITY.to_bits(), 0, &mut out);
    assert_eq!(out, b"-inf".to_vec());
}

#[test]
fn rounding_to_significant_digits_is_nearest_ties_to_even() {
    assert_eq!(round_significant(b"1250", 0, 2), (b"12".to_vec(), 0));
    assert_eq!(round_significant(b"1350", 0, 2), (b"14".to_vec(), 0));
    assert_eq!(round_significant(b"1251", 0, 2), (b"13".to_vec(), 0));
    assert_eq!(round_significant(b"1249", 0, 2), (b"12".to_vec(), 0));
    assert_eq!(round_significant(b"9960", 3, 2), (b"10".to_vec(), 4));
    assert_eq!(round_significant(b"9", i64::MAX, 3), (b"900".to_vec(), i64::MAX));
}

#[test]
fn patched_object_compares_equal_whatever_the_member_order() {
    // JSON Patch's first example: "add" appends the new member, and the
    // expected document lists it first; objects compare by key.
    let mut doc = parse(br#"{"foo":"bar"}"#);
    let patch = parse(br#"[{"op":"add","path":"/baz","value":"qux"}]"#);
    assert_eq!(cjson_utils_apply_patches_case_sensitive(&mut doc, &patch, &close), 0);
    assert_eq!(compact(&doc), br#"{"foo":"bar","baz":"qux"}"#.to_vec());
    let expected = parse(br#"{"baz":"qux","foo":"bar"}"#);
    assert!(cjson_compare(&doc, &expected, true, &close));
    assert!(cjson_compare(&expected, &doc, true, &close));
}

#[test]
fn lone_surrogate_escapes_are_rejected() {
    assert!(cjson_parse(br#""\uD800""#, &dec).is_err());
    assert!(cjson_parse(br#""\uDC00""#, &dec).is_err());
    assert!(cjson_parse(br#""\uD83D\u""#, &dec).is_err());
    let pair = parse(br#""\uD800\uDC00""#);
    assert_eq!(pair.valuestring, Some(vec![0xF0, 0x90, 0x80, 0x80]));
}

#[test]
fn printed_string_reads_back_with_the_string_parser() {
    let mut p = growable();
    let s = Some(vec![0x61, 0x22, 0x62, 0x5C, 0x0A, 0x01, 0xC3, 0xA9, 0x00, 0x7A]);
    assert!(print_string_ptr(&s, &mut p));
    let mut text = p.buffer.clone();
    text.push(0);
    let mut b = ParseBuffer { content: &text, length: text.len(), offset: 0, depth: 0 };
    let back = parse_string(&mut b).unwrap();
    assert_eq!(back, vec![0x61, 0x22, 0x62, 0x5C, 0x0A, 0x01, 0xC3, 0xA9]);
    assert_eq!(b.offset, p.buffer.len());
}

#[test]
fn comparison_is_symmetric() {
    let a = parse(br#"{"a":[1,"x",{"b":null}],"c":true}"#);
    let b = parse(br#"{"c":true,"a":[1,"x",{"b":null}]}"#);
    let c = parse(br#"{"c":true,"a":[1,"x",{"b":null,"d":1}]}"#);
    for cs in [true, false] {
        assert_eq!(cjson_compare(&a, &b, cs, &close), cjson_compare(&b, &a, cs, &close));
        assert!(cjson_compare(&a, &b, cs, &close));
        assert_eq!(cjson_compare(&a, &c, cs, &close), cjson_compare(&c, &a, cs, &close));
        assert!(!cjson_compare(&a, &c, cs, &close));
    }
}

#[test]
fn bom_is_skipped_only_at_the_start() {
    let text = b"\xEF\xBB\xBF[1] ";
    let mut b = ParseBuffer { content: text, length: text.len(), offset: 0, depth: 0 };
    assert!(skip_utf8_bom(&mut b));
    assert_eq!(b.offset, 3);
    let mut later = ParseBuffer { content: text, length: text.len(), offset: 1, depth: 0 };
    assert!(!skip_utf8_bom(&mut later));
    assert_eq!(later.offset, 1);
}

#[test]
fn scalars_parse_at_any_depth() {
    let mut b = ParseBuffer { content: b"true", length: 4, offset: 0, depth: 5000 };
    assert!(parse_value(&mut b, &dec).is_some());
    assert_eq!(b.offset, 4);
    let mut arr = ParseBuffer { content: b"[1]", length: 3, offset: 0, depth: 5000 };
    assert!(parse_value(&mut arr, &dec).is_none());
}

#[test]
fn duplicating_past_the_depth_limit_refuses_only_containers_with_children() {
    let leaf = parse(b"[]");
    assert!(cjson::manip::duplicate_rec(&leaf, cjson::model::CJSON_CIRCULAR_LIMIT + 5, true).is_some());
    let full = parse(b"[1]");
    assert!(cjson::manip::duplicate_rec(&full, cjson::model::CJSON_CIRCULAR_LIMIT + 5, true).is_none());
    assert!(cjson::manip::duplicate_rec(&full, cjson::model::CJSON_CIRCULAR_LIMIT - 1, true).is_some());
}

fn patch_round_trip(from_text: &[u8], to_text: &[u8]) -> (i32, CJson, CJson) {
    let mut from = parse(from_text);
    let mut to = parse(to_text);
    let patches = cjson_utils_generate_patches_case_sensitive(&mut from, &mut to, &close);
    let mut object = cjson_duplicate(&from, true).unwrap();
    let status = cjson_utils_apply_patches_case_sensitive(&mut object, &patches, &close);
    (status, object, to)
}

#[test]
fn generated_patches_restore_keys_with_tildes() {
    let (status, object, to) = patch_round_trip(
        br#"{"~":1,"x~":2,"k":{"~~":3},"gone~":0}"#,
        br#"{"~":5,"k":{"~~":4},"y~":6,"x~":2}"#,
    );
    assert_eq!(status, 0);
    assert!(cjson_compare(&object, &to, true, &close));
    assert!(cjson_compare(&to, &object, true, &close));
}

#[test]
fn escaped_slash_in_a_last_token_is_decoded_in_place() {
    // the pointer token `a~1b` is decoded in place to `a~/`, so the added
    // member gets that key and the round trip fails
    let (status, object, to) = patch_round_trip(b"{}", br#"{"a/b":1}"#);
    assert_eq!(status, 0);
    assert_eq!(compact(&object), br#"{"a~/":1}"#.to_vec());
    assert!(!cjson_compare(&object, &to, true, &close));
    // a key with `/` that the pointer only passes through is found
    let (status, object, to) = patch_round_trip(br#"{"a/b":{"c":1}}"#, br#"{"a/b":{"c":2}}"#);
    assert_eq!(status, 0);
    assert!(cjson_compare(&object, &to, true, &close));
}
