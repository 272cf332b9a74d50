use cjson::fixtures::{gen_doc, medium_json, unsorted_json, with_nul, Rng};
use cjson::parse::{cjson_parse, cjson_parse_with_opts};
use cjson::print::cjson_print_unformatted;
use cjson::utils::cjson_utils_sort_object_case_sensitive;

fn dec(t: &[u8]) -> u64 {
    std::str::from_utf8(t)
        .ok()
        .and_then(|s| s.parse::<f64>().ok())
        .unwrap_or(0.0)
        .to_bits()
}

fn close(a: u64, b: u64) -> bool {
    let x = f64::from_bits(a);
    let y = f64::from_bits(b);
    let m = if x.abs() > y.abs() { x.abs() } else { y.abs() };
    (x - y).abs() <= m * f64::EPSILON
}

#[test]
fn with_nul_appends_terminator() {
    assert_eq!(with_nul(b"ab"), b"ab\0".to_vec());
    assert_eq!(with_nul(b""), b"\0".to_vec());
}

#[test]
fn medium_document_shape() {
    let m = medium_json();
    assert!(m.starts_with(b"{\"items\":[{\"id\":0,\"name\":\"item-00\",\"value\":0,\"flag\":true},{\"id\":1,"));
    assert!(m.ends_with(b"\"tags\":[\"a\",\"b\",\"c\"]}}"));
    let doc = cjson_parse(&m, &dec).ok().unwrap();
    assert_eq!(doc.child[0].child.len(), 64);
    assert_eq!(doc.child[0].child[63].child[2].valueint, 63 * 17);
    assert_eq!(cjson_print_unformatted(&doc, &dec, &close).unwrap(), m);
}

#[test]
fn unsorted_document_sorts() {
    let u = unsorted_json();
    assert!(u.starts_with(b"{\"key47\":47,\"key46\":46"));
    assert!(u.ends_with(b"\"key00\":0}"));
    let mut doc = cjson_parse(&u, &dec).ok().unwrap();
    cjson_utils_sort_object_case_sensitive(&mut doc);
    assert_eq!(doc.child[0].string.clone().unwrap(), b"key00".to_vec());
    assert_eq!(doc.child[47].valueint, 47);
}

#[test]
fn xorshift_sequence() {
    let mut r = Rng(1);
    assert_eq!(r.next(), 1082269761);
    assert_eq!(r.0, 1082269761);
    let mut s = Rng(1);
    assert_eq!(s.below(1000), 1082269761 % 1000);
}

#[test]
fn generated_documents_parse() {
    let mut rng = Rng(0x9E37_79B9_7F4A_7C15);
    // String bank entries are spliced in unescaped, so some documents are
    // deliberately malformed; scalar and escape-free documents parse.
    let mut parsed_ok = 0;
    for _ in 0..200 {
        let doc = gen_doc(&mut rng, 4);
        if cjson_parse_with_opts(&doc, true, &dec).is_ok() {
            parsed_ok += 1;
        }
    }
    assert!(parsed_ok > 0);
    assert!(parsed_ok < 200);
    let mut a = Rng(7);
    let mut b = Rng(7);
    assert_eq!(gen_doc(&mut a, 3), gen_doc(&mut b, 3));
    assert_eq!(a.0, b.0);
}
