use cjson::manip::{
    case_insensitive_strcmp, cjson_add_bool_to_object, cjson_add_item_reference_to_array,
    cjson_add_item_to_array, cjson_add_item_to_object, cjson_add_item_to_object_cs,
    cjson_add_number_to_object, cjson_add_string_to_object, cjson_compare, cjson_create_array,
    cjson_create_bool, cjson_create_double_array, cjson_create_int_array, cjson_create_null,
    cjson_create_number, cjson_create_object, cjson_create_object_reference,
    cjson_create_string, cjson_create_string_array, cjson_create_true, cjson_delete_item_from_array,
    cjson_delete_item_from_object, cjson_detach_item_from_array, cjson_detach_item_from_object,
    cjson_detach_item_from_object_case_sensitive, cjson_duplicate, cjson_get_array_item,
    cjson_get_array_size, cjson_get_number_value, cjson_get_object_item,
    cjson_get_object_item_case_sensitive, cjson_get_string_value, cjson_has_object_item,
    cjson_insert_item_in_array, cjson_is_array, cjson_is_bool, cjson_is_false, cjson_is_invalid,
    cjson_is_null, cjson_is_number, cjson_is_object, cjson_is_raw, cjson_is_string, cjson_is_true,
    cjson_minify, cjson_replace_item_in_array, cjson_replace_item_in_object,
    cjson_set_number_helper, cjson_set_valuestring, cjson_version, NAN_BITS,
};
use cjson::model::{new_item, CJson, CJSON_IS_REFERENCE, CJSON_STRING, CJSON_STRING_IS_CONST};
use cjson::parse::cjson_parse;
use cjson::print::cjson_print_unformatted;

fn dec(t: &[u8]) -> u64 {
    std::str::from_utf8(t)
        .ok()
        .and_then(|s| s.parse::<f64>().ok())
        .unwrap_or(0.0)
        .to_bits()
}

fn close(a: u64, b: u64) -> bool {
    let x = f64::from_bits(a);
    let y = f64::from_bits(b);
    let m = if x.abs() > y.abs() { x.abs() } else { y.abs() };
    (x - y).abs() <= m * f64::EPSILON
}

fn parse(s: &[u8]) -> CJson {
    cjson_parse(s, &dec).ok().unwrap()
}

fn compact(c: &CJson) -> Vec<u8> {
    cjson_print_unformatted(c, &dec, &close).unwrap()
}

#[test]
fn build_an_object() {
    let mut o = cjson_create_object();
    assert!(cjson_add_string_to_object(&mut o, b"name", b"Jack"));
    assert!(cjson_add_number_to_object(&mut o, b"age", 42.0f64.to_bits()));
    assert!(cjson_add_bool_to_object(&mut o, b"ok", 1));
    let mut a = cjson_create_array();
    cjson_add_item_to_array(&mut a, cjson_create_null());
    cjson_add_item_to_array(&mut a, cjson_create_true());
    cjson_add_item_to_object(&mut o, b"list", a);
    assert_eq!(compact(&o), br#"{"name":"Jack","age":42,"ok":true,"list":[null,true]}"#.to_vec());
    assert_eq!(cjson_get_array_size(&o), 4);
}

#[test]
fn lookups_by_key_and_index() {
    let doc = parse(br#"{"Alpha":1,"beta":2,"alpha":3}"#);
    assert_eq!(cjson_get_object_item(&doc, b"ALPHA").unwrap().valueint, 1);
    assert_eq!(cjson_get_object_item_case_sensitive(&doc, b"alpha").unwrap().valueint, 3);
    assert!(cjson_get_object_item_case_sensitive(&doc, b"BETA").is_none());
    assert!(cjson_has_object_item(&doc, b"Beta"));
    assert!(!cjson_has_object_item(&doc, b"gamma"));
    let arr = parse(b"[10,20,30]");
    assert_eq!(cjson_get_array_item(&arr, 2).unwrap().valueint, 30);
    assert!(cjson_get_array_item(&arr, 3).is_none());
    assert!(cjson_get_array_item(&arr, -1).is_none());
}

#[test]
fn case_insensitive_compare_values() {
    assert_eq!(case_insensitive_strcmp(b"ABC", b"abc"), 0);
    assert!(case_insensitive_strcmp(b"abc", b"abd") < 0);
    assert_eq!(case_insensitive_strcmp(b"b", b"a"), 1);
    assert_eq!(case_insensitive_strcmp(b"ab\0x", b"AB\0y"), 0);
}

#[test]
fn detach_delete_insert_replace() {
    let mut arr = parse(b"[1,2,3]");
    let d = cjson_detach_item_from_array(&mut arr, 1).unwrap();
    assert_eq!(d.valueint, 2);
    assert_eq!(compact(&arr), b"[1,3]".to_vec());
    assert!(cjson_detach_item_from_array(&mut arr, 5).is_none());
    assert!(cjson_insert_item_in_array(&mut arr, 0, cjson_create_number(0f64.to_bits())));
    assert!(cjson_insert_item_in_array(&mut arr, 10, cjson_create_number(9f64.to_bits())));
    assert!(!cjson_insert_item_in_array(&mut arr, -1, cjson_create_null()));
    assert_eq!(compact(&arr), b"[0,1,3,9]".to_vec());
    assert!(cjson_replace_item_in_array(&mut arr, 1, cjson_create_string(b"x")));
    assert!(!cjson_replace_item_in_array(&mut arr, 4, cjson_create_null()));
    cjson_delete_item_from_array(&mut arr, 0);
    assert_eq!(compact(&arr), br#"["x",3,9]"#.to_vec());

    let mut obj = parse(br#"{"a":1,"B":2}"#);
    assert!(cjson_replace_item_in_object(&mut obj, b"b", cjson_create_true()));
    assert_eq!(compact(&obj), br#"{"a":1,"b":true}"#.to_vec());
    assert!(!cjson_replace_item_in_object(&mut obj, b"zz", cjson_create_true()));
    assert!(cjson_detach_item_from_object_case_sensitive(&mut obj, b"A").is_none());
    assert!(cjson_detach_item_from_object(&mut obj, b"A").is_some());
    cjson_delete_item_from_object(&mut obj, b"B");
    assert_eq!(compact(&obj), b"{}".to_vec());
}

#[test]
fn constant_keys_and_references() {
    let mut o = cjson_create_object();
    cjson_add_item_to_object_cs(&mut o, b"k", cjson_create_null());
    assert!(o.child[0].type_ & CJSON_STRING_IS_CONST != 0);
    let s = cjson_create_string(b"shared");
    let mut a = cjson_create_array();
    cjson_add_item_reference_to_array(&mut a, &s);
    assert!(a.child[0].type_ & CJSON_IS_REFERENCE != 0);
    assert_eq!(compact(&a), br#"["shared"]"#.to_vec());
    let members = parse(br#"{"x":1}"#).child;
    let r = cjson_create_object_reference(&members);
    assert_eq!(compact(&r), br#"{"x":1}"#.to_vec());
}

#[test]
fn arrays_of_values() {
    assert_eq!(compact(&cjson_create_int_array(&[1, -2, 3])), b"[1,-2,3]".to_vec());
    let d = [0.5f64.to_bits(), 2.0f64.to_bits()];
    assert_eq!(compact(&cjson_create_double_array(&d)), b"[0.5,2]".to_vec());
    let s = vec![b"a".to_vec(), b"b\0c".to_vec()];
    assert_eq!(compact(&cjson_create_string_array(&s)), br#"["a","b"]"#.to_vec());
    assert_eq!(compact(&cjson_create_int_array(&[])), b"[]".to_vec());
}

#[test]
fn numbers_and_strings_accessors() {
    let mut n = cjson_create_number(1e20f64.to_bits());
    assert_eq!(n.valueint, i32::MAX);
    assert_eq!(cjson_get_number_value(&n), 1e20f64.to_bits());
    assert_eq!(cjson_set_number_helper(&mut n, (-7.9f64).to_bits()), (-7.9f64).to_bits());
    assert_eq!(n.valueint, -7);
    assert_eq!(cjson_create_number((-1e20f64).to_bits()).valueint, i32::MIN);
    assert_eq!(cjson_create_number(f64::NAN.to_bits()).valueint, 0);
    let s = cjson_create_string(b"hi");
    assert_eq!(cjson_get_number_value(&s), NAN_BITS);
    assert_eq!(cjson_get_string_value(&s).unwrap(), b"hi".to_vec());
    assert!(cjson_get_string_value(&n).is_none());
    let mut t = cjson_create_string(b"old");
    assert_eq!(cjson_set_valuestring(&mut t, b"longer text").unwrap(), b"longer text".to_vec());
    assert_eq!(t.valuestring.clone().unwrap(), b"longer text".to_vec());
    let mut r = new_item(CJSON_STRING | CJSON_IS_REFERENCE);
    r.valuestring = Some(b"x".to_vec());
    assert!(cjson_set_valuestring(&mut r, b"y").is_none());
    let mut num = cjson_create_number(1f64.to_bits());
    assert!(cjson_set_valuestring(&mut num, b"y").is_none());
}

#[test]
fn type_predicates() {
    let doc = parse(br#"[false,true,null,1,"s",[],{}]"#);
    let k = &doc.child;
    assert!(cjson_is_false(&k[0]) && cjson_is_bool(&k[0]));
    assert!(cjson_is_true(&k[1]) && cjson_is_bool(&k[1]));
    assert!(cjson_is_null(&k[2]) && !cjson_is_bool(&k[2]));
    assert!(cjson_is_number(&k[3]));
    assert!(cjson_is_string(&k[4]));
    assert!(cjson_is_array(&k[5]));
    assert!(cjson_is_object(&k[6]));
    assert!(cjson_is_invalid(&new_item(0)));
    assert!(cjson_is_raw(&new_item(128)));
    assert!(cjson_create_bool(0).type_ == 1);
}

#[test]
fn duplicate_and_compare() {
    let doc = parse(br#"{"a":[1,2,{"b":"c"}],"d":null}"#);
    let copy = cjson_duplicate(&doc, true).unwrap();
    assert!(cjson_compare(&doc, &copy, true, &close));
    assert_eq!(compact(&copy), compact(&doc));
    let shallow = cjson_duplicate(&doc, false).unwrap();
    assert_eq!(compact(&shallow), b"{}".to_vec());
    let reordered = parse(br#"{"d":null,"A":[1,2,{"b":"c"}]}"#);
    assert!(cjson_compare(&doc, &reordered, false, &close));
    assert!(!cjson_compare(&doc, &reordered, true, &close));
    let other = parse(br#"{"a":[1,2],"d":null}"#);
    assert!(!cjson_compare(&doc, &other, true, &close));
    // a node of invalid type never compares equal, not even to itself
    let invalid = new_item(0);
    assert!(!cjson_compare(&invalid, &invalid, true, &close));
    assert!(!cjson_compare(&new_item(0), &new_item(0), true, &close));
    let mut other_invalid = new_item(0);
    other_invalid.valueint = 1;
    assert!(!cjson_compare(&new_item(0), &other_invalid, true, &close));
}

#[test]
fn minify_text() {
    let out = cjson_minify(b" { \"a\" : [ 1 , 2 ] , // note\n /* block */ \"b\\\" c\" : \"x y\" } ");
    assert_eq!(out, br#"{"a":[1,2],"b\" c":"x y"}"#.to_vec());
    assert_eq!(cjson_minify(b"[1]\0 2"), b"[1]".to_vec());
    assert_eq!(cjson_minify(b"/* open"), b"".to_vec());
    assert_eq!(cjson_minify(b"1 / 2"), b"12".to_vec());
}

#[test]
fn version_string() {
    assert_eq!(cjson_version(), "1.7.19");
}
