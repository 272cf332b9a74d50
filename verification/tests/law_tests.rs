use cjson::manip::{
    cjson_add_item_to_array, cjson_add_item_to_object, cjson_compare, cjson_create_number,
    cjson_create_string, cjson_delete_item_from_object, cjson_detach_item_from_array,
    cjson_duplicate, cjson_get_array_item, cjson_get_object_item,
    cjson_get_object_item_case_sensitive, cjson_insert_item_in_array,
    cjson_replace_item_in_array,
};
use cjson::model::{new_item, CJson, CJSON_NULL, CJSON_RAW};
use cjson::parse::{cjson_parse, cjson_parse_with_opts};
use cjson::print::{cjson_print, cjson_print_unformatted};
use cjson::utils::{
    cjson_utils_find_pointer_from_object_to, cjson_utils_get_pointer,
    cjson_utils_get_pointer_case_sensitive, cjson_utils_sort_object,
    cjson_utils_sort_object_case_sensitive,
};

fn dec(t: &[u8]) -> u64 {
    std::str::from_utf8(t)
        .ok()
        .and_then(|s| s.parse::<f64>().ok())
        .unwrap_or(0.0)
        .to_bits()
}

fn close(a: u64, b: u64) -> bool {
    let x = f64::from_bits(a);
    let y = f64::from_bits(b);
    let m = if x.abs() > y.abs() { x.abs() } else { y.abs() };
    (x - y).abs() <= m * f64::EPSILON
}

fn parse(s: &[u8]) -> CJson {
    cjson_parse(s, &dec).ok().unwrap()
}

fn compact(c: &CJson) -> Vec<u8> {
    cjson_print_unformatted(c, &dec, &close).unwrap()
}

const DOC: &[u8] = br#"{"name":"caf\u00e9 \"x\"\n","n":[0,-1,3.25,1e300,5e-324,123456789012],"o":{"t":true,"f":false,"z":null},"e":[],"eo":{},"k~/":"tab\there"}"#;

#[test]
fn printed_text_reads_back() {
    let doc = parse(DOC);
    for text in [compact(&doc), cjson_print(&doc, &dec, &close).unwrap()] {
        let back = parse(&text);
        assert!(cjson_compare(&doc, &back, true, &close));
        assert_eq!(compact(&back), compact(&doc));
        let (again, end) = cjson_parse_with_opts(&text, true, &dec).ok().unwrap();
        assert_eq!(end, text.len());
        assert!(cjson_compare(&again, &doc, true, &close));
    }
}

#[test]
fn reread_compares_equal_both_ways() {
    let doc = parse(br#"{"Key":[1.5,-0.1,7,"s"],"other":{"x":null,"y":true},"t":"a\u0000b"}"#);
    let back = parse(&cjson_print(&doc, &dec, &close).unwrap());
    for cs in [true, false] {
        assert!(cjson_compare(&back, &doc, cs, &close));
        assert!(cjson_compare(&doc, &back, cs, &close));
    }
    // a number that does not read back as itself breaks the equality
    let mut arr = cjson::manip::cjson_create_array();
    cjson_add_item_to_array(&mut arr, cjson_create_number(f64::NAN.to_bits()));
    let back = parse(&compact(&arr));
    assert!(!cjson_compare(&back, &arr, true, &close));
}

#[test]
fn printed_specials_read_back_as_null() {
    let mut arr = cjson::manip::cjson_create_array();
    cjson_add_item_to_array(&mut arr, cjson_create_number(f64::NAN.to_bits()));
    cjson_add_item_to_array(&mut arr, cjson_create_number(f64::NEG_INFINITY.to_bits()));
    let back = parse(&compact(&arr));
    assert_eq!(back.child.len(), 2);
    assert_eq!(back.child[0].type_, CJSON_NULL);
    assert_eq!(back.child[1].type_, CJSON_NULL);
}

#[test]
fn indented_and_compact_read_the_same() {
    let doc = parse(DOC);
    let a = parse(&compact(&doc));
    let b = parse(&cjson_print(&doc, &dec, &close).unwrap());
    assert_eq!(compact(&a), compact(&b));
    assert!(cjson_compare(&a, &b, true, &close));
}

#[test]
fn raw_nodes_do_not_read_back() {
    let mut arr = cjson::manip::cjson_create_array();
    let mut raw = new_item(CJSON_RAW);
    raw.valuestring = Some(b"[1,2]".to_vec());
    cjson_add_item_to_array(&mut arr, raw);
    let back = parse(&compact(&arr));
    assert_eq!(compact(&back), b"[[1,2]]".to_vec());
    assert_ne!(back.child[0].type_, CJSON_RAW);
}

#[test]
fn duplicate_compares_equal_both_ways() {
    let doc = parse(DOC);
    let copy = cjson_duplicate(&doc, true).unwrap();
    assert!(cjson_compare(&doc, &copy, true, &close));
    assert!(cjson_compare(&copy, &doc, true, &close));
    assert!(cjson_compare(&doc, &copy, false, &close));
    // duplicate keys defeat the member comparison, as the law's condition
    // says; a node-for-node copy still compares equal as the same document
    let dup_keys = parse(br#"{"a":1,"a":2}"#);
    let copy = cjson_duplicate(&dup_keys, true).unwrap();
    assert!(cjson_compare(&dup_keys, &copy, true, &close));
    let reordered = parse(br#"{"a":2,"a":1}"#);
    assert!(!cjson_compare(&dup_keys, &reordered, true, &close));
}

#[test]
fn sorted_members_are_in_key_order() {
    let mut o = parse(br#"{"delta":1,"Alpha":2,"charlie":3,"bravo":4,"Echo":5}"#);
    cjson_utils_sort_object(&mut o);
    assert_eq!(compact(&o), br#"{"Alpha":2,"bravo":4,"charlie":3,"delta":1,"Echo":5}"#.to_vec());
    let mut p = parse(br#"{"delta":1,"Alpha":2,"charlie":3,"bravo":4,"Echo":5}"#);
    cjson_utils_sort_object_case_sensitive(&mut p);
    assert_eq!(compact(&p), br#"{"Alpha":2,"Echo":5,"bravo":4,"charlie":3,"delta":1}"#.to_vec());
}

#[test]
fn found_pointer_leads_back() {
    let doc = parse(br#"{"a":{"b/c":[10,{"m~n":true}]},"x":[[1],[2,[3]]]}"#);
    let paths: [&[usize]; 6] = [&[0], &[0, 0], &[0, 0, 1], &[0, 0, 1, 0], &[1, 1, 1, 0], &[]];
    for path in paths {
        let pointer = cjson_utils_find_pointer_from_object_to(&doc, path).unwrap();
        let mut expected = &doc;
        for &k in path {
            expected = &expected.child[k];
        }
        let found = cjson_utils_get_pointer(&doc, &pointer).unwrap();
        assert_eq!(compact(found), compact(expected));
        let found_cs = cjson_utils_get_pointer_case_sensitive(&doc, &pointer).unwrap();
        assert_eq!(compact(found_cs), compact(expected));
    }
    assert_eq!(
        cjson_utils_find_pointer_from_object_to(&doc, &[0, 0, 1, 0]).unwrap(),
        b"/a/b~1c/1/m~0n".to_vec()
    );
}

#[test]
fn append_replace_insert_then_read() {
    let mut arr = parse(b"[1,2,3]");
    cjson_add_item_to_array(&mut arr, cjson_create_string(b"four"));
    assert_eq!(compact(cjson_get_array_item(&arr, 3).unwrap()), b"\"four\"".to_vec());
    let last = cjson_detach_item_from_array(&mut arr, 3).unwrap();
    assert_eq!(compact(&last), b"\"four\"".to_vec());
    assert_eq!(compact(&arr), b"[1,2,3]".to_vec());
    assert!(cjson_replace_item_in_array(&mut arr, 1, cjson_create_number(9.0f64.to_bits())));
    assert_eq!(compact(cjson_get_array_item(&arr, 1).unwrap()), b"9".to_vec());
    assert!(cjson_insert_item_in_array(&mut arr, 0, cjson_create_number(0.0f64.to_bits())));
    assert_eq!(compact(&arr), b"[0,1,9,3]".to_vec());
    let first = cjson_detach_item_from_array(&mut arr, 0).unwrap();
    assert_eq!(compact(&first), b"0".to_vec());
    assert_eq!(compact(&arr), b"[1,9,3]".to_vec());
}

#[test]
fn add_then_lookup_then_delete() {
    let mut o = parse(br#"{"a":1,"b":2}"#);
    let before = compact(&o);
    cjson_add_item_to_object(&mut o, b"New", cjson_create_string(b"v"));
    assert_eq!(compact(cjson_get_object_item(&o, b"new").unwrap()), b"\"v\"".to_vec());
    assert_eq!(compact(cjson_get_object_item_case_sensitive(&o, b"New").unwrap()), b"\"v\"".to_vec());
    assert!(cjson_get_object_item_case_sensitive(&o, b"new").is_none());
    cjson_delete_item_from_object(&mut o, b"NEW");
    assert_eq!(compact(&o), before);
}

#[test]
fn merge_of_generated_patch_restores_non_object() {
    let mut from = parse(br#"{"a":1,"b":[1]}"#);
    for to_text in [&b"[1,\"two\",{\"x\":null}]"[..], &b"\"text\""[..], &b"42"[..], &b"null"[..]] {
        let mut to = parse(to_text);
        let patch = cjson::utils::cjson_utils_generate_merge_patch(&mut from, Some(&mut to), &close).unwrap();
        assert_eq!(compact(&patch), compact(&to));
        let copy = cjson_duplicate(&from, true).unwrap();
        let merged = cjson::utils::cjson_utils_merge_patch(Some(copy), &patch).unwrap();
        assert!(cjson_compare(&merged, &to, true, &close));
        assert_eq!(compact(&merged), compact(&to));
    }
}

#[test]
fn duplicating_twice_changes_nothing() {
    let doc = parse(DOC);
    let once = cjson_duplicate(&doc, true).unwrap();
    let twice = cjson_duplicate(&once, true).unwrap();
    assert_eq!(compact(&once), compact(&twice));
    assert!(cjson_compare(&once, &twice, true, &close));
}

#[test]
fn merge_of_generated_patch_restores_object() {
    let cases: [(&[u8], &[u8]); 5] = [
        (br#"{"a":"b"}"#, br#"{"a":"c","b":1}"#),
        (br#"{"a":{"x":1,"y":[1,2]},"k":true}"#, br#"{"a":{"y":[2],"z":"new"},"m":false}"#),
        (br#"{"same":1}"#, br#"{"same":1}"#),
        (br#"[1,2]"#, br#"{"from":"array"}"#),
        (br#"{"gone":1,"kept":{"deep":{"v":3}}}"#, br#"{"kept":{"deep":{"v":4,"w":[]}}}"#),
    ];
    for (from_text, to_text) in cases {
        let mut from = parse(from_text);
        let mut to = parse(to_text);
        match cjson::utils::cjson_utils_generate_merge_patch(&mut from, Some(&mut to), &close) {
            Some(patch) => {
                let copy = cjson_duplicate(&from, true).unwrap();
                let merged = cjson::utils::cjson_utils_merge_patch(Some(copy), &patch).unwrap();
                assert!(cjson_compare(&merged, &to, true, &close));
                assert!(cjson_compare(&to, &merged, true, &close));
            }
            None => {
                assert!(cjson_compare(&from, &to, true, &close));
                assert!(cjson_compare(&to, &from, true, &close));
            }
        }
    }
}

#[test]
fn generated_patches_apply_to_the_target() {
    let cases: [(&[u8], &[u8]); 7] = [
        (br#"{"a":1,"b":[1,2,3],"c":"x","d":{"e":true}}"#, br#"{"a":2,"b":[1],"d":{"e":true,"f":null},"g":"new"}"#),
        (br#"{"B":1,"a":2}"#, br#"{"a":2,"b":3,"A":4}"#),
        (br#"[1,[2,{"k":[3]}],4]"#, br#"[1,[2,{"k":[3,5]}]]"#),
        (br#"{"x":{"y":{"z":1}}}"#, br#"{"x":{"y":[1,2]}}"#),
        (br#"{"n":1.5,"s":"a"}"#, br#"{"n":1.5,"s":"b"}"#),
        (br#"{"same":[true,false,null]}"#, br#"{"same":[true,false,null]}"#),
        (br#"3"#, br#"{"now":"an object"}"#),
    ];
    for (from_text, to_text) in cases {
        let mut from = parse(from_text);
        let mut to = parse(to_text);
        let expected = parse(to_text);
        let patches = cjson::utils::cjson_utils_generate_patches_case_sensitive(&mut from, &mut to, &close);
        let mut object = cjson_duplicate(&from, true).unwrap();
        assert_eq!(cjson::utils::cjson_utils_apply_patches_case_sensitive(&mut object, &patches, &close), 0);
        assert!(cjson_compare(&object, &expected, true, &close));
        assert!(cjson_compare(&expected, &object, true, &close));
        assert!(cjson_compare(&object, &to, true, &close));
        assert!(cjson_compare(&to, &object, true, &close));
    }
}
