use cjson::manip::{cjson_compare, cjson_duplicate, cjson_get_object_item};
use cjson::model::CJson;
use cjson::parse::cjson_parse;
use cjson::print::cjson_print_unformatted;
use cjson::utils::{
    cjson_utils_add_patch_to_array, cjson_utils_apply_patches,
    cjson_utils_apply_patches_case_sensitive, cjson_utils_find_pointer_from_object_to,
    cjson_utils_generate_merge_patch, cjson_utils_generate_patches,
    cjson_utils_generate_patches_case_sensitive, cjson_utils_get_pointer,
    cjson_utils_get_pointer_case_sensitive, cjson_utils_merge_patch, cjson_utils_sort_object,
    cjson_utils_sort_object_case_sensitive, decode_array_index_from_pointer, decode_pointer_inplace,
    pointer_encoded_length,
};

fn dec(t: &[u8]) -> u64 {
    std::str::from_utf8(t)
        .ok()
        .and_then(|s| s.parse::<f64>().ok())
        .unwrap_or(0.0)
        .to_bits()
}

fn close(a: u64, b: u64) -> bool {
    let x = f64::from_bits(a);
    let y = f64::from_bits(b);
    let m = if x.abs() > y.abs() { x.abs() } else { y.abs() };
    (x - y).abs() <= m * f64::EPSILON
}

fn try_parse(s: &[u8]) -> Option<CJson> {
    cjson_parse(s, &dec).ok()
}

fn parse(s: &[u8]) -> CJson {
    try_parse(s).unwrap()
}

fn compact_text(c: &CJson) -> Vec<u8> {
    cjson_print_unformatted(c, &dec, &close).unwrap()
}

fn trees_equal(a: &CJson, b: &CJson) -> bool {
    cjson_compare(a, b, true, &close)
}

fn merge_corpus() -> Vec<(&'static str, &'static str, &'static str)> {
    vec![
        (r#"{"a":"b"}"#, r#"{"a":"c"}"#, r#"{"a":"c"}"#),
        (r#"{"a":"b"}"#, r#"{"b":"c"}"#, r#"{"a":"b","b":"c"}"#),
        (r#"{"a":"b"}"#, r#"{"a":null}"#, "{}"),
        (r#"{"a":"b","b":"c"}"#, r#"{"a":null}"#, r#"{"b":"c"}"#),
        (r#"{"a":["b"]}"#, r#"{"a":"c"}"#, r#"{"a":"c"}"#),
        (r#"{"a":"c"}"#, r#"{"a":["b"]}"#, r#"{"a":["b"]}"#),
        (
            r#"{"a":{"b":"c"}}"#,
            r#"{"a":{"b":"d","c":null}}"#,
            r#"{"a":{"b":"d"}}"#,
        ),
        (r#"{"a":[{"b":"c"}]}"#, r#"{"a":[1]}"#, r#"{"a":[1]}"#),
        (r#"["a","b"]"#, r#"["c","d"]"#, r#"["c","d"]"#),
        (r#"{"a":"b"}"#, r#"["c"]"#, r#"["c"]"#),
        (r#"{"a":"foo"}"#, "null", "null"),
        (r#"{"a":"foo"}"#, r#""bar""#, r#""bar""#),
        (r#"{"e":null}"#, r#"{"a":1}"#, r#"{"e":null,"a":1}"#),
        (r#"[1,2]"#, r#"{"a":"b","c":null}"#, r#"{"a":"b"}"#),
        ("{}", r#"{"a":{"bb":{"ccc":null}}}"#, r#"{"a":{"bb":{}}}"#),
    ]
}

#[test]
fn merge_patch_matches_expected() {
    for (i, (a_str, b_str, expected_str)) in merge_corpus().iter().enumerate() {
        let target = parse(a_str.as_bytes());
        let patch = parse(b_str.as_bytes());
        let result = cjson_utils_merge_patch(Some(target), &patch);
        assert!(result.is_some(), "merge test {i}: MergePatch returned NULL");
        let result = result.unwrap();
        let expected = parse(expected_str.as_bytes());
        assert!(
            trees_equal(&result, &expected),
            "merge test {i} failed\n  got:      {}\n  expected: {}",
            String::from_utf8_lossy(&compact_text(&result)),
            expected_str,
        );
    }
}

#[test]
fn generate_merge_patch_roundtrip() {
    for (i, (a_str, _b_str, expected_str)) in merge_corpus().iter().enumerate() {
        let mut from = parse(a_str.as_bytes());
        let mut to = parse(expected_str.as_bytes());
        let patch = cjson_utils_generate_merge_patch(&mut from, Some(&mut to), &close);
        let applied = match patch {
            Some(p) => cjson_utils_merge_patch(Some(from), &p),
            None => None,
        };
        let expected = parse(expected_str.as_bytes());
        let applied = applied.unwrap();
        assert!(
            trees_equal(&applied, &expected),
            "gen merge roundtrip test {i} failed\n  got:      {}\n  expected: {}",
            String::from_utf8_lossy(&compact_text(&applied)),
            expected_str,
        );
    }
}

#[test]
fn get_pointer_rfc6901() {
    let json = br#"{
        "foo": ["bar", "baz"],
        "": 0,
        "a/b": 1,
        "c%d": 2,
        "e^f": 3,
        "g|h": 4,
        "i\\j": 5,
        "k\"l": 6,
        " ": 7,
        "m~n": 8
    }"#;
    let doc = parse(json);
    let cases: Vec<(&[u8], Option<&[u8]>)> = vec![
        (b"", None),
        (b"/foo", Some(b"[\"bar\",\"baz\"]")),
        (b"/foo/0", Some(b"\"bar\"")),
        (b"/", Some(b"0")),
        (b"/a~1b", Some(b"1")),
        (b"/c%d", Some(b"2")),
        (b"/ ", Some(b"7")),
        (b"/m~0n", Some(b"8")),
        (b"/nonexistent", None),
    ];
    for (ptr_str, expected) in &cases {
        let got = cjson_utils_get_pointer(&doc, ptr_str);
        if *ptr_str == b"" {
            assert_eq!(compact_text(got.unwrap()), compact_text(&doc), "GetPointer(\"\") should return root");
            continue;
        }
        if let Some(exp_val) = expected {
            assert!(got.is_some(), "GetPointer({:?}) returned NULL", String::from_utf8_lossy(ptr_str));
            assert_eq!(compact_text(got.unwrap()), *exp_val, "GetPointer({}) mismatch", String::from_utf8_lossy(ptr_str));
        } else {
            assert!(got.is_none(), "GetPointer({:?}) returned non-null", String::from_utf8_lossy(ptr_str));
        }
    }
}

#[test]
fn sort_object_alphabetical() {
    let json = br#"{"Q":1,"W":2,"E":3,"R":4,"T":5,"Y":6,"U":7,"I":8,"O":9,"P":10,
                     "A":11,"S":12,"D":13,"F":14,"G":15,"H":16,"J":17,"K":18,"L":19,
                     "Z":20,"X":21,"C":22,"V":23,"B":24,"N":25,"M":26}"#;
    let mut doc = parse(json);
    cjson_utils_sort_object(&mut doc);
    let mut prev_key: Vec<u8> = Vec::new();
    for child in doc.child.iter() {
        let key = child.string.clone().unwrap_or_default();
        assert!(key >= prev_key, "sort order violation");
        prev_key = key;
    }
    assert_eq!(doc.child.len(), 26);
}

#[test]
fn find_pointer_from_object_to_basic() {
    let doc = parse(br#"{"numbers":[1,2,3,4,5,6,7,8,9,0]}"#);
    let ptr = cjson_utils_find_pointer_from_object_to(&doc, &[0, 6]);
    assert_eq!(ptr.as_deref(), Some(b"/numbers/6".as_slice()));
    let ptr2 = cjson_utils_find_pointer_from_object_to(&doc, &[0]);
    assert_eq!(ptr2.as_deref(), Some(b"/numbers".as_slice()));
    let ptr3 = cjson_utils_find_pointer_from_object_to(&doc, &[]);
    assert_eq!(ptr3.as_deref(), Some(b"".as_slice()));
    assert!(cjson_utils_find_pointer_from_object_to(&doc, &[1]).is_none());
}

#[test]
fn find_pointer_with_escapes() {
    let doc = parse(br#"{"m~n":"val1","m/n":"val2"}"#);
    let ptr = cjson_utils_find_pointer_from_object_to(&doc, &[0]);
    assert_eq!(ptr.as_deref(), Some(b"/m~0n".as_slice()));
    let ptr2 = cjson_utils_find_pointer_from_object_to(&doc, &[1]);
    assert_eq!(ptr2.as_deref(), Some(b"/m~1n".as_slice()));
}

#[test]
fn add_patch_to_array() {
    let mut array = parse(b"[]");
    let value = parse(b"42");
    cjson_utils_add_patch_to_array(&mut array, b"add", b"/-", Some(&value));
    assert_eq!(compact_text(&array), b"[{\"op\":\"add\",\"path\":\"/-\",\"value\":42}]".to_vec());
}

struct Rng(u64);

impl Rng {
    fn next(&mut self) -> u64 {
        let mut x = self.0;
        x ^= x << 13;
        x ^= x >> 7;
        x ^= x << 17;
        self.0 = x;
        x
    }
    fn below(&mut self, n: usize) -> usize {
        (self.next() % n as u64) as usize
    }
}

fn random_json_string(rng: &mut Rng) -> String {
    let len = rng.below(8);
    let mut s = String::from('"');
    for _ in 0..len {
        let b = b'a' + (rng.below(26) as u8);
        if b == b'"' || b == b'\\' {
            s.push('\\');
        }
        s.push(b as char);
    }
    s.push('"');
    s
}

fn random_json(rng: &mut Rng, depth: usize) -> String {
    if depth > 4 {
        return match rng.below(3) {
            0 => "null".to_string(),
            1 => "true".to_string(),
            _ => random_json_string(rng),
        };
    }
    match rng.below(6) {
        0 => "null".to_string(),
        1 => "true".to_string(),
        2 => format!("{}", rng.next() as i64 % 1000),
        3 => random_json_string(rng),
        4 => {
            let n = rng.below(4);
            let mut s = '['.to_string();
            for i in 0..n {
                if i > 0 {
                    s.push(',');
                }
                s.push_str(&random_json(rng, depth + 1));
            }
            s.push(']');
            s
        }
        5 => {
            let n = rng.below(4);
            let mut s = '{'.to_string();
            for i in 0..n {
                if i > 0 {
                    s.push(',');
                }
                s.push('"');
                s.push((b'a' + i as u8) as char);
                s.push_str("\":");
                s.push_str(&random_json(rng, depth + 1));
            }
            s.push('}');
            s
        }
        _ => unreachable!(),
    }
}

#[test]
fn fuzz_sort_object_consistency() {
    let mut rng = Rng(0xDEAD_1234u64);
    for _ in 0..5000 {
        let json = random_json(&mut rng, 0);
        let (Some(mut doc1), Some(mut doc2)) = (try_parse(json.as_bytes()), try_parse(json.as_bytes())) else {
            continue;
        };
        cjson_utils_sort_object(&mut doc1);
        cjson_utils_sort_object(&mut doc2);
        assert_eq!(compact_text(&doc1), compact_text(&doc2), "SortObject non-idempotent for: {json}");
    }
}

#[test]
fn fuzz_apply_patches_consistency() {
    let mut rng = Rng(0xCAFE_BABEu64);
    for _ in 0..2000 {
        let doc_json = random_json(&mut rng, 0);
        let (Some(mut doc1), Some(mut doc2)) = (try_parse(doc_json.as_bytes()), try_parse(doc_json.as_bytes())) else {
            continue;
        };
        let patch = match rng.below(3) {
            0 => format!(r#"[{{"op":"add","path":"/fuzz","value":{}}}"#, random_json(&mut rng, 0)),
            1 => format!(r#"[{{"op":"add","path":"/{}","value":1}}]"#, random_json_string(&mut rng).trim_matches('"')),
            _ => "[]".to_string(),
        };
        let (Some(p1), Some(p2)) = (try_parse(patch.as_bytes()), try_parse(patch.as_bytes())) else {
            continue;
        };
        let rc1 = cjson_utils_apply_patches(&mut doc1, &p1, &close);
        let rc2 = cjson_utils_apply_patches(&mut doc2, &p2, &close);
        assert_eq!(rc1, rc2, "ApplyPatches rc mismatch for doc={doc_json}, patch={patch}");
        if rc1 == 0 && rc2 == 0 {
            assert_eq!(compact_text(&doc1), compact_text(&doc2), "ApplyPatches result mismatch");
        }
    }
}

#[test]
fn fuzz_merge_patch_consistency() {
    let mut rng = Rng(0xFACE_C0DEu64);
    for _ in 0..2000 {
        let a_json = random_json(&mut rng, 0);
        let b_json = random_json(&mut rng, 0);
        let (Some(a1), Some(b1), Some(a2), Some(b2)) = (
            try_parse(a_json.as_bytes()),
            try_parse(b_json.as_bytes()),
            try_parse(a_json.as_bytes()),
            try_parse(b_json.as_bytes()),
        ) else {
            continue;
        };
        let r1 = cjson_utils_merge_patch(Some(a1), &b1);
        let r2 = cjson_utils_merge_patch(Some(a2), &b2);
        assert_eq!(r1.is_none(), r2.is_none(), "MergePatch null mismatch");
        if let (Some(x), Some(y)) = (r1, r2) {
            assert_eq!(compact_text(&x), compact_text(&y), "MergePatch result mismatch");
        }
    }
}

#[test]
fn fuzz_pointer_lookup_consistency() {
    let mut rng = Rng(0xBEEF_1234u64);
    for _ in 0..2000 {
        let json = random_json(&mut rng, 0);
        let Some(doc) = try_parse(json.as_bytes()) else {
            continue;
        };
        for _ in 0..3 {
            let path = format!("/{}", random_json_string(&mut rng).trim_matches('"'));
            let r1 = cjson_utils_get_pointer(&doc, path.as_bytes());
            let r2 = cjson_utils_get_pointer(&doc, path.as_bytes());
            assert_eq!(r1.is_none(), r2.is_none(), "GetPointer null mismatch for {path}");
            if let (Some(x), Some(y)) = (r1, r2) {
                assert_eq!(compact_text(x), compact_text(y), "GetPointer result mismatch for {path}");
            }
        }
    }
}

#[test]
fn fuzz_find_pointer_consistency() {
    let mut rng = Rng(0xABCD_5678u64);
    for _ in 0..2000 {
        let json = random_json(&mut rng, 0);
        let Some(doc) = try_parse(json.as_bytes()) else {
            continue;
        };
        for i in 0..doc.child.len() {
            let p1 = cjson_utils_find_pointer_from_object_to(&doc, &[i]);
            let p2 = cjson_utils_find_pointer_from_object_to(&doc, &[i]);
            assert_eq!(p1, p2, "FindPointerFromObjectTo non-deterministic");
        }
    }
}

fn apply(doc: &str, patches: &str) -> (i32, Vec<u8>) {
    let mut d = parse(doc.as_bytes());
    let p = parse(patches.as_bytes());
    let rc = cjson_utils_apply_patches_case_sensitive(&mut d, &p, &close);
    (rc, compact_text(&d))
}

#[test]
fn apply_patch_operations() {
    assert_eq!(apply(r#"{"a":1}"#, r#"[{"op":"add","path":"/b","value":2}]"#), (0, br#"{"a":1,"b":2}"#.to_vec()));
    assert_eq!(apply(r#"{"a":1}"#, r#"[{"op":"remove","path":"/a"}]"#), (0, b"{}".to_vec()));
    assert_eq!(apply(r#"{"a":1}"#, r#"[{"op":"replace","path":"/a","value":5}]"#), (0, br#"{"a":5}"#.to_vec()));
    assert_eq!(apply(r#"{"a":1,"b":[]}"#, r#"[{"op":"move","from":"/a","path":"/b/0"}]"#), (0, br#"{"b":[1]}"#.to_vec()));
    assert_eq!(apply(r#"{"a":[1]}"#, r#"[{"op":"copy","from":"/a","path":"/c"}]"#), (0, br#"{"a":[1],"c":[1]}"#.to_vec()));
    assert_eq!(apply(r#"[1,2]"#, r#"[{"op":"add","path":"/-","value":3}]"#), (0, b"[1,2,3]".to_vec()));
    assert_eq!(apply(r#"[1,2]"#, r#"[{"op":"add","path":"/1","value":9}]"#), (0, b"[1,9,2]".to_vec()));
    assert_eq!(apply(r#"{"a":1}"#, r#"[{"op":"test","path":"/a","value":1}]"#).0, 0);
    assert_eq!(apply(r#"{"a":1}"#, r#"[{"op":"test","path":"/a","value":2}]"#).0, 1);
    assert_eq!(apply(r#"{"a":1}"#, r#"[{"op":"replace","path":"","value":[7]}]"#), (0, b"[7]".to_vec()));
}

#[test]
fn apply_patch_errors() {
    assert_eq!(apply(r#"{}"#, r#"{}"#).0, 1);
    assert_eq!(apply(r#"{}"#, r#"[{"op":"add","value":1}]"#).0, 2);
    assert_eq!(apply(r#"{}"#, r#"[{"op":"jump","path":"/a"}]"#).0, 3);
    assert_eq!(apply(r#"{"a":1}"#, r#"[{"op":"move","path":"/b"}]"#).0, 4);
    assert_eq!(apply(r#"{"a":1}"#, r#"[{"op":"move","from":"/x","path":"/b"}]"#).0, 5);
    assert_eq!(apply(r#"{}"#, r#"[{"op":"add","path":"/a"}]"#).0, 7);
    assert_eq!(apply(r#"{}"#, r#"[{"op":"add","path":"/x/y","value":1}]"#).0, 9);
    assert_eq!(apply(r#"[1]"#, r#"[{"op":"add","path":"/5","value":1}]"#).0, 10);
    assert_eq!(apply(r#"[1]"#, r#"[{"op":"add","path":"/x","value":1}]"#).0, 11);
    assert_eq!(apply(r#"{}"#, r#"[{"op":"remove","path":"/a"}]"#).0, 13);
    assert_eq!(apply(r#"{"a":1}"#, r#"[{"op":"add","path":"/b","value":2},{"op":"remove","path":"/z"}]"#), (13, br#"{"a":1,"b":2}"#.to_vec()));
}

#[test]
fn generate_patches_then_apply() {
    let mut from = parse(br#"{"a":1,"b":[1,2,3],"c":"x","d":{"e":true}}"#);
    let mut to = parse(br#"{"a":2,"b":[1],"d":{"e":true,"f":null},"g":"new"}"#);
    let patches = cjson_utils_generate_patches_case_sensitive(&mut from, &mut to, &close);
    let mut applied = cjson_duplicate(&from, true).unwrap();
    assert_eq!(cjson_utils_apply_patches_case_sensitive(&mut applied, &patches, &close), 0);
    assert!(trees_equal(&applied, &to));
    let mut again = cjson_duplicate(&from, true).unwrap();
    let same = cjson_utils_generate_patches(&mut from, &mut again, &close);
    assert_eq!(compact_text(&same), b"[]".to_vec());
    let p = cjson_utils_generate_patches(&mut parse(b"[1,2]"), &mut parse(b"[1]"), &close);
    assert_eq!(compact_text(&p), br#"[{"op":"remove","path":"/1"}]"#.to_vec());
}

#[test]
fn pointer_helpers() {
    assert_eq!(pointer_encoded_length(b"a/b~c"), 7);
    assert_eq!(decode_array_index_from_pointer(b"12/x", 0), Some(12));
    assert_eq!(decode_array_index_from_pointer(b"012", 0), None);
    assert_eq!(decode_array_index_from_pointer(b"0", 0), Some(0));
    assert_eq!(decode_array_index_from_pointer(b"1a", 0), None);
    let mut t = b"m~0n".to_vec();
    decode_pointer_inplace(&mut t);
    assert_eq!(t, b"m~0".to_vec());
    let mut u = b"a~1b".to_vec();
    decode_pointer_inplace(&mut u);
    assert_eq!(u, b"a~/".to_vec());
    let mut v = b"x~2y".to_vec();
    decode_pointer_inplace(&mut v);
    assert_eq!(v, b"x~2y".to_vec());
}

#[test]
fn case_sensitive_variants() {
    let doc = parse(br#"{"Key":1}"#);
    assert!(cjson_utils_get_pointer(&doc, b"/key").is_some());
    assert!(cjson_utils_get_pointer_case_sensitive(&doc, b"/key").is_none());
    let mut o = parse(br#"{"b":1,"B":2,"a":3}"#);
    cjson_utils_sort_object_case_sensitive(&mut o);
    assert_eq!(compact_text(&o), br#"{"B":2,"a":3,"b":1}"#.to_vec());
    assert!(cjson_get_object_item(&o, b"A").is_some());
}

#[test]
fn merge_patch_into_nothing() {
    let patch = parse(br#"{"a":{"b":null,"c":1}}"#);
    let r = cjson_utils_merge_patch(None, &patch).unwrap();
    assert_eq!(compact_text(&r), br#"{"a":{"c":1}}"#.to_vec());
    let none = cjson_utils_generate_merge_patch(&mut parse(b"{}"), None, &close).unwrap();
    assert_eq!(compact_text(&none), b"null".to_vec());
    assert!(cjson_utils_generate_merge_patch(&mut parse(br#"{"a":1}"#), Some(&mut parse(br#"{"a":1}"#)), &close).is_none());
}

#[test]
fn test_operation_sorts_what_it_compares() {
    let mut doc = parse(br#"{"b":1,"a":{"d":1,"c":2}}"#);
    let patches = parse(br#"[{"op":"test","path":"","value":{"a":{"c":2,"d":1},"b":1}}]"#);
    assert_eq!(cjson_utils_apply_patches(&mut doc, &patches, &close), 0);
    assert_eq!(compact_text(&doc), br#"{"a":{"c":2,"d":1},"b":1}"#.to_vec());

    let mut doc = parse(br#"{"z":{"y":1,"x":2},"b":[{"q":1,"p":2}],"a":0}"#);
    let patches = parse(br#"[{"op":"test","path":"","value":{"a":1,"b":[],"z":{}}}]"#);
    assert_eq!(cjson_utils_apply_patches(&mut doc, &patches, &close), 1);
    assert_eq!(compact_text(&doc), br#"{"a":0,"b":[{"q":1,"p":2}],"z":{"y":1,"x":2}}"#.to_vec());

    let mut doc = parse(br#"{"k":[{"y":1,"x":2},{"n":1,"m":2}],"j":{"s":1,"r":2}}"#);
    let patches = parse(br#"[{"op":"test","path":"/k","value":[{"x":2,"y":1},{"m":3}]}]"#);
    assert_eq!(cjson_utils_apply_patches(&mut doc, &patches, &close), 1);
    assert_eq!(compact_text(&doc), br#"{"k":[{"x":2,"y":1},{"m":2,"n":1}],"j":{"s":1,"r":2}}"#.to_vec());
}

#[test]
fn generating_patches_sorts_the_objects_it_reaches() {
    let mut from = parse(br#"{"z":{"q":1,"p":2},"b":[{"y":1,"x":2}],"a":{"n":1,"m":2}}"#);
    let mut to = parse(br#"{"c":{"s":1,"r":2},"b":[{"w":1,"v":2},{"u":1,"t":2}],"a":"flat"}"#);
    let patches = cjson_utils_generate_patches(&mut from, &mut to, &close);
    assert_eq!(compact_text(&from), br#"{"a":{"n":1,"m":2},"b":[{"x":2,"y":1}],"z":{"q":1,"p":2}}"#.to_vec());
    assert_eq!(compact_text(&to), br#"{"a":"flat","b":[{"v":2,"w":1},{"u":1,"t":2}],"c":{"s":1,"r":2}}"#.to_vec());
    let mut unsorted_from = parse(br#"{"z":{"q":1,"p":2},"b":[{"y":1,"x":2}],"a":{"n":1,"m":2}}"#);
    assert_eq!(cjson_utils_apply_patches(&mut unsorted_from, &patches, &close), 0);
    assert!(trees_equal(&unsorted_from, &to));
}

#[test]
fn generating_a_merge_patch_sorts_what_it_compares() {
    let mut from = parse(br#"{"b":1,"a":[{"y":1,"x":2}]}"#);
    let mut to = parse(br#"{"a":[{"y":1,"x":3}]}"#);
    let patch = cjson_utils_generate_merge_patch(&mut from, Some(&mut to), &close).unwrap();
    assert_eq!(compact_text(&patch), br#"{"a":[{"x":3,"y":1}],"b":null}"#.to_vec());
    assert_eq!(compact_text(&from), br#"{"a":[{"x":2,"y":1}],"b":1}"#.to_vec());
    assert_eq!(compact_text(&to), br#"{"a":[{"x":3,"y":1}]}"#.to_vec());
}
