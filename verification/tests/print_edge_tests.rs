//! Printing edge cases: special doubles, numbers that need 17 digits, raw
//! nodes, nesting at the limit, invalid types, control bytes and large
//! outputs, through every print entry point. The expected texts come from a
//! small model of cJSON's printing rules written here with std's exact
//! float formatting.

use cjson::manip::{
    cjson_add_item_to_array, cjson_add_item_to_object, cjson_create_array, cjson_create_number,
    cjson_create_object, cjson_create_raw, cjson_create_string,
};
use cjson::model::CJson;
use cjson::number::double_to_int;
use cjson::parse::cjson_parse_with_length_opts;
use cjson::print::{
    cjson_print, cjson_print_buffered, cjson_print_preallocated, cjson_print_unformatted,
};

fn dec(t: &[u8]) -> u64 {
    std::str::from_utf8(t)
        .ok()
        .and_then(|s| s.parse::<f64>().ok())
        .unwrap_or(0.0)
        .to_bits()
}

fn close(a: u64, b: u64) -> bool {
    let x = f64::from_bits(a);
    let y = f64::from_bits(b);
    let m = if x.abs() > y.abs() { x.abs() } else { y.abs() };
    (x - y).abs() <= m * f64::EPSILON
}

// ---- the model of the printed text ----------------------------------------

/// C's `%.<p>g` of a finite double.
fn pct_g(d: f64, p: usize) -> String {
    if d == 0.0 {
        return if d.is_sign_negative() { "-0".to_string() } else { "0".to_string() };
    }
    let s = format!("{:.*e}", p - 1, d);
    let (mant, exp) = s.split_once('e').unwrap();
    let x: i32 = exp.parse().unwrap();
    let digits: String = mant.chars().filter(|c| c.is_ascii_digit()).collect();
    let mut out = String::new();
    if d < 0.0 {
        out.push('-');
    }
    if x < -4 || x >= p as i32 {
        let rest = digits[1..].trim_end_matches('0');
        out.push_str(&digits[..1]);
        if !rest.is_empty() {
            out.push('.');
            out.push_str(rest);
        }
        out.push('e');
        out.push(if x < 0 { '-' } else { '+' });
        let m = x.abs();
        if m < 10 {
            out.push('0');
        }
        out.push_str(&m.to_string());
    } else if x >= 0 {
        let k = x as usize + 1;
        out.push_str(&digits[..k]);
        let frac = digits[k..].trim_end_matches('0');
        if !frac.is_empty() {
            out.push('.');
            out.push_str(frac);
        }
    } else {
        let mut frac = "0".repeat((-x - 1) as usize);
        frac.push_str(&digits);
        let frac = frac.trim_end_matches('0');
        out.push('0');
        if !frac.is_empty() {
            out.push('.');
            out.push_str(frac);
        }
    }
    out
}

/// cJSON's text for a number node.
fn number_text(d: f64, valueint: i32) -> Vec<u8> {
    if d.is_nan() || d.is_infinite() {
        return b"null".to_vec();
    }
    if d == valueint as f64 {
        return valueint.to_string().into_bytes();
    }
    let t15 = pct_g(d, 15);
    let back: f64 = t15.parse().unwrap();
    if close(back.to_bits(), d.to_bits()) {
        t15.into_bytes()
    } else {
        pct_g(d, 17).into_bytes()
    }
}

fn escaped(s: &[u8]) -> Vec<u8> {
    let mut out = vec![b'"'];
    for &c in s {
        match c {
            b'"' => out.extend_from_slice(b"\\\""),
            b'\\' => out.extend_from_slice(b"\\\\"),
            8 => out.extend_from_slice(b"\\b"),
            12 => out.extend_from_slice(b"\\f"),
            10 => out.extend_from_slice(b"\\n"),
            13 => out.extend_from_slice(b"\\r"),
            9 => out.extend_from_slice(b"\\t"),
            c if c < 32 => out.extend_from_slice(format!("\\u{:04x}", c).as_bytes()),
            c => out.push(c),
        }
    }
    out.push(b'"');
    out
}

/// The model's text of a tree at nesting depth `depth`; `None` where
/// printing refuses.
fn model(n: &CJson, depth: usize, fmt: bool) -> Option<Vec<u8>> {
    let t = n.type_ & 0xFF;
    match t {
        1 => Some(b"false".to_vec()),
        2 => Some(b"true".to_vec()),
        4 => Some(b"null".to_vec()),
        8 => Some(number_text(f64::from_bits(n.valuedouble), n.valueint)),
        16 => Some(escaped(n.valuestring.as_deref().unwrap_or(b""))),
        128 => n.valuestring.clone(),
        32 => {
            if depth >= 1000 {
                return None;
            }
            let mut out = vec![b'['];
            for (i, c) in n.child.iter().enumerate() {
                if i > 0 {
                    out.extend_from_slice(if fmt { b", " } else { b"," });
                }
                out.extend(model(c, depth + 1, fmt)?);
            }
            out.push(b']');
            Some(out)
        }
        64 => {
            if depth >= 1000 {
                return None;
            }
            let mut out = vec![b'{'];
            if fmt {
                out.push(b'\n');
            }
            for (i, c) in n.child.iter().enumerate() {
                if fmt {
                    out.extend(std::iter::repeat(b'\t').take(depth + 1));
                }
                out.extend(escaped(c.string.as_deref().unwrap_or(b"")));
                out.extend_from_slice(if fmt { b":\t" } else { b":" });
                out.extend(model(c, depth + 1, fmt)?);
                if i + 1 < n.child.len() {
                    out.push(b',');
                }
                if fmt {
                    out.push(b'\n');
                }
            }
            if fmt {
                out.extend(std::iter::repeat(b'\t').take(depth));
            }
            out.push(b'}');
            Some(out)
        }
        _ => None,
    }
}

/// Prints `item` with every entry point and checks each against the model:
/// the same text where the model prints, a failure where it refuses.
fn check_all_prints(item: &CJson, label: &str) {
    let compact = model(item, 0, false);
    let indented = model(item, 0, true);
    assert_eq!(cjson_print_unformatted(item, &dec, &close), compact, "{label}/PrintUnformatted");
    assert_eq!(cjson_print(item, &dec, &close), indented, "{label}/Print");
    for prebuffer in [0, 1, 2, 7, 255, 256, 257, 4096] {
        for fmt in [false, true] {
            let want = if fmt { &indented } else { &compact };
            let got = cjson_print_buffered(item, prebuffer, fmt, &dec, &close);
            assert_eq!(&got, want, "{label}/PrintBuffered({prebuffer},{fmt})");
        }
    }
    for size in [1usize, 2, 3, 7, 16, 64, 255, 1024, 8192] {
        for fmt in [false, true] {
            let want = if fmt { &indented } else { &compact };
            let mut buf = vec![0xCCu8; size];
            let ok = cjson_print_preallocated(item, &mut buf, size as i32, fmt, &dec, &close);
            match want {
                None => assert!(!ok, "{label}/PrintPreallocated({size},{fmt}) should fail"),
                Some(text) => {
                    if size < text.len() + 1 {
                        assert!(!ok, "{label}/PrintPreallocated({size},{fmt}) cannot fit");
                    }
                    if size >= text.len() + 64 {
                        assert!(ok, "{label}/PrintPreallocated({size},{fmt}) should fit");
                    }
                    if ok {
                        assert_eq!(&buf[..text.len()], &text[..], "{label}/PrintPreallocated({size},{fmt})");
                        assert_eq!(buf[text.len()], 0);
                    }
                }
            }
        }
    }
}

fn parse_terminated(input: &[u8]) -> Option<CJson> {
    let mut v = input.to_vec();
    v.push(0);
    let n = v.len();
    cjson_parse_with_length_opts(&v, n, true, &dec).ok().map(|(c, _)| c)
}

fn string_object(bytes: &[u8]) -> CJson {
    let mut o = cjson_create_object();
    cjson_add_item_to_object(&mut o, b"k", cjson_create_string(bytes));
    o
}

// ---- the cases ---------------------------------------------------------------

#[test]
fn print_edge_special_doubles() {
    for v in [
        f64::NAN,
        f64::INFINITY,
        f64::NEG_INFINITY,
        -0.0,
        0.0,
        5e-324,
        -5e-324,
        1.7976931348623157e308,
        -1.7976931348623157e308,
        1e308,
        -1e308,
        2.2250738585072014e-308,
    ] {
        let item = cjson_create_number(v.to_bits());
        assert_eq!(item.valueint, double_to_int(v.to_bits()));
        let want = model(&item, 0, false).unwrap();
        check_all_prints(&item, &format!("create_number({v:?})"));
        assert!(cjson_print_unformatted(&item, &dec, &close).is_some());
        if v.is_nan() || v.is_infinite() {
            assert_eq!(want, b"null".to_vec());
        }
    }
    assert_eq!(cjson_print_unformatted(&cjson_create_number((-0.0f64).to_bits()), &dec, &close).unwrap(), b"0".to_vec());
    assert_eq!(
        cjson_print_unformatted(&cjson_create_number(5e-324f64.to_bits()), &dec, &close).unwrap(),
        b"4.94065645841247e-324".to_vec()
    );
    assert_eq!(
        cjson_print_unformatted(&cjson_create_number(1e308f64.to_bits()), &dec, &close).unwrap(),
        b"1e+308".to_vec()
    );
}

#[test]
fn print_edge_numbers_via_parse() {
    let inputs: Vec<&[u8]> = vec![
        b"0",
        b"0.0",
        b"-0",
        b"-0.0",
        b"1.0000000000000004",
        b"1.0000000000000008",
        b"2.0000000000000004",
        b"1.9999999999999998",
        b"0.30000000000000004",
        b"0.1000000000000000001",
        b"3.141592653589793238462643383279502884197169399375105820974944",
        b"0.1234567890123456789",
        b"9876543210.123456789",
        b"123456789.123456789",
        b"1.234567890123456789e-10",
        b"123456789012345678901234567890.123456789",
        b"9007199254740991",
        b"9007199254740992",
        b"9007199254740993",
        b"9007199254740994",
        b"-9007199254740993",
        b"5e-324",
        b"-5e-324",
        b"4.9406564584124654e-324",
        b"2.2250738585072014e-308",
        b"1e-307",
        b"1e308",
        b"-1e308",
        b"1.7976931348623157e308",
        b"-1.7976931348623157e308",
    ];
    for input in inputs {
        let item = parse_terminated(input).unwrap();
        let d: f64 = std::str::from_utf8(input).unwrap().parse().unwrap();
        assert_eq!(item.valuedouble, d.to_bits());
        check_all_prints(&item, &format!("parse {}", String::from_utf8_lossy(input)));
    }
    // 15 digits read back within the epsilon comparison, so they are kept
    let third = parse_terminated(b"0.30000000000000004").unwrap();
    assert_eq!(cjson_print_unformatted(&third, &dec, &close).unwrap(), b"0.3".to_vec());
    // here 15 digits read back too far off, so 17 are printed
    let pi = parse_terminated(b"3.141592653589793238462643383279502884197169399375105820974944").unwrap();
    assert_eq!(cjson_print_unformatted(&pi, &dec, &close).unwrap(), b"3.1415926535897931".to_vec());
}

#[test]
fn print_edge_raw_nodes() {
    let raws: Vec<&[u8]> = vec![
        b"{\"key\":[1,2,3]}",
        b"[true,false,null]",
        b"42",
        b"",
        b"\"a quoted string\"",
        b"{\"nested\":{\"object\":{}}}",
    ];
    for raw in raws {
        let item = cjson_create_raw(raw);
        assert_eq!(cjson_print_unformatted(&item, &dec, &close).unwrap(), raw.to_vec());
        check_all_prints(&item, &format!("raw {:?}", String::from_utf8_lossy(raw)));
    }

    let mut obj = cjson_create_object();
    cjson_add_item_to_object(&mut obj, b"r", cjson_create_raw(b"{\"k\":[1,2]}"));
    assert_eq!(cjson_print(&obj, &dec, &close).unwrap(), b"{\n\t\"r\":\t{\"k\":[1,2]}\n}".to_vec());
    check_all_prints(&obj, "raw-in-object");

    let mut arr = cjson_create_array();
    cjson_add_item_to_array(&mut arr, cjson_create_raw(b"{\"k\":[1,2]}"));
    assert_eq!(cjson_print_unformatted(&arr, &dec, &close).unwrap(), b"[{\"k\":[1,2]}]".to_vec());
    check_all_prints(&arr, "raw-in-array");
}

fn object_chain(n: usize) -> CJson {
    let mut cur = cjson_create_object();
    for _ in 0..n {
        let mut o = cjson_create_object();
        cjson_add_item_to_object(&mut o, b"k", cur);
        cur = o;
    }
    cur
}

fn array_chain(n: usize) -> CJson {
    let mut cur = cjson_create_array();
    for _ in 0..n {
        let mut a = cjson_create_array();
        cjson_add_item_to_array(&mut a, cur);
        cur = a;
    }
    cur
}

#[test]
fn print_edge_nesting_limit() {
    for n in [500usize, 999, 1000, 1001, 1500] {
        let o = object_chain(n);
        let a = array_chain(n);
        if n <= 999 {
            assert!(cjson_print_unformatted(&o, &dec, &close).is_some());
            assert!(cjson_print(&a, &dec, &close).is_some());
        } else {
            assert!(cjson_print_unformatted(&o, &dec, &close).is_none());
            assert!(cjson_print(&a, &dec, &close).is_none());
        }
        check_all_prints(&o, &format!("object-chain({n})"));
        check_all_prints(&a, &format!("array-chain({n})"));
    }
}

#[test]
fn print_edge_invalid_type() {
    for input in [&b"123"[..], &b"\"abc\""[..], &b"{\"a\":1}"[..], &b"[1,2,3]"[..]] {
        let mut item = parse_terminated(input).unwrap();
        item.type_ = 0xFF;
        assert!(cjson_print(&item, &dec, &close).is_none());
        assert!(cjson_print_unformatted(&item, &dec, &close).is_none());
        check_all_prints(&item, &format!("invalid-type {:?}", input));
    }
}

#[test]
fn print_edge_control_byte_escapes() {
    let bytes: Vec<u8> = (1..=0x1F).collect();
    let obj = string_object(&bytes);
    let text = cjson_print_unformatted(&obj, &dec, &close).unwrap();
    assert_eq!(
        text,
        b"{\"k\":\"\\u0001\\u0002\\u0003\\u0004\\u0005\\u0006\\u0007\\b\\t\\n\\u000b\\f\\r\\u000e\\u000f\\u0010\\u0011\\u0012\\u0013\\u0014\\u0015\\u0016\\u0017\\u0018\\u0019\\u001a\\u001b\\u001c\\u001d\\u001e\\u001f\"}"
            .to_vec()
    );
    check_all_prints(&obj, "control-byte-string");

    let mut s = Vec::new();
    s.extend_from_slice(b"{\"c\":\"");
    for b in 1..=0x1Fu8 {
        s.push(b);
    }
    s.extend_from_slice(b"\"}");
    if let Some(parsed) = parse_terminated(&s) {
        assert_eq!(parsed.child[0].valuestring.as_deref(), Some(&bytes[..]));
        check_all_prints(&parsed, "control-bytes-in-text");
    }
}

#[test]
fn print_edge_large_outputs() {
    let mut arr = cjson_create_array();
    for i in 0..10_000u32 {
        cjson_add_item_to_array(&mut arr, cjson_create_number((i as f64).to_bits()));
    }
    let text = cjson_print_unformatted(&arr, &dec, &close).unwrap();
    assert!(text.starts_with(b"[0,1,2,3,"));
    assert!(text.ends_with(b",9998,9999]"));
    check_all_prints(&arr, "large-array");

    let big = vec![b'x'; 65536];
    let obj = string_object(&big);
    assert_eq!(cjson_print_unformatted(&obj, &dec, &close).unwrap().len(), 65536 + 8);
    check_all_prints(&obj, "large-string");
}
