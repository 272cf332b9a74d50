use cjson::float::{format_g, BigU32};

fn g(d: f64, p: usize) -> String {
    let mut out = Vec::new();
    format_g(d.to_bits(), p, &mut out);
    String::from_utf8(out).unwrap()
}

#[test]
fn print_number_test_cases() {
    assert_eq!(g(0.0, 15), "0");
    assert_eq!(g(-1.0, 15), "-1");
    assert_eq!(g(-32768.0, 15), "-32768");
    assert_eq!(g(-2147483648.0, 15), "-2147483648");
    assert_eq!(g(1.0, 15), "1");
    assert_eq!(g(32767.0, 15), "32767");
    assert_eq!(g(2147483647.0, 15), "2147483647");
    assert_eq!(g(0.123, 15), "0.123");
    assert_eq!(g(10e-10, 15), "1e-09");
    assert_eq!(g(10e11, 15), "1000000000000");
    assert_eq!(g(123e127, 15), "1.23e+129");
    assert_eq!(g(123e-128, 15), "1.23e-126");
    assert_eq!(g(3.1415926535897931, 15), "3.14159265358979");
    assert_eq!(g(3.1415926535897931, 17), "3.1415926535897931");
    assert_eq!(g(-0.0123, 15), "-0.0123");
    assert_eq!(g(-10e-10, 15), "-1e-09");
    assert_eq!(g(-10e20, 15), "-1e+21");
    assert_eq!(g(-123e127, 15), "-1.23e+129");
    assert_eq!(g(-123e-128, 15), "-1.23e-126");
}

#[test]
fn rounding_ties_half_even() {
    assert_eq!(g(0.125, 2), "0.12");
    assert_eq!(g(0.135, 2), "0.14");
    assert_eq!(g(9.99, 2), "10");
    assert_eq!(g(999.0, 2), "1e+03");
}

#[test]
fn extremes() {
    assert_eq!(g(f64::MIN_POSITIVE, 15), "2.2250738585072e-308");
    assert_eq!(g(f64::MAX, 15), "1.79769313486232e+308");
    assert_eq!(g(5e-324, 15), "4.94065645841247e-324");
}

#[test]
fn special_values_and_signed_zero() {
    assert_eq!(g(f64::NAN, 15), "nan");
    assert_eq!(g(f64::INFINITY, 15), "inf");
    assert_eq!(g(f64::NEG_INFINITY, 17), "-inf");
    assert_eq!(g(-0.0, 15), "-0");
}

#[test]
fn fixed_and_exponential_boundaries() {
    assert_eq!(g(0.0001, 15), "0.0001");
    assert_eq!(g(0.00001, 15), "1e-05");
    assert_eq!(g(1e14, 15), "100000000000000");
    assert_eq!(g(1e15, 15), "1e+15");
    assert_eq!(g(0.1, 17), "0.10000000000000001");
    assert_eq!(g(1.5, 1), "2");
    assert_eq!(g(2.5, 1), "2");
}

#[test]
fn exact_decimal_of_small_values() {
    // The digits are those of the scaled integer mantissa, trailing zeros included.
    let (digits, n) = cjson::float::exact_decimal(0.5f64.to_bits());
    let mut want = b"5".to_vec();
    want.extend(std::iter::repeat(b'0').take(52));
    assert_eq!(digits, want);
    assert_eq!(n, 0);
    let (digits, n) = cjson::float::exact_decimal(1024.0f64.to_bits());
    let mut want = b"1024".to_vec();
    want.extend(std::iter::repeat(b'0').take(42));
    assert_eq!(digits, want);
    assert_eq!(n, 4);
    let (digits, n) = cjson::float::exact_decimal(0.125f64.to_bits());
    let mut want = b"125".to_vec();
    want.extend(std::iter::repeat(b'0').take(52));
    assert_eq!(digits, want);
    assert_eq!(n, 0);
    let (digits, n) = cjson::float::exact_decimal(8.0f64.to_bits());
    let mut want = b"8".to_vec();
    want.extend(std::iter::repeat(b'0').take(49));
    assert_eq!(digits, want);
    assert_eq!(n, 1);
}

#[test]
fn round_significant_and_round_up() {
    let (sig, n) = cjson::float::round_significant(b"125", 0, 2);
    assert_eq!(sig, b"12".to_vec());
    assert_eq!(n, 0);
    let (sig, n) = cjson::float::round_significant(b"999", 1, 2);
    assert_eq!(sig, b"10".to_vec());
    assert_eq!(n, 2);
    let (sig, n) = cjson::float::round_significant(b"7", 1, 3);
    assert_eq!(sig, b"700".to_vec());
    assert_eq!(n, 1);
    let mut s = b"129".to_vec();
    let mut e: i64 = 5;
    cjson::float::round_up(&mut s, &mut e);
    assert_eq!(s, b"130".to_vec());
    assert_eq!(e, 5);
    let mut s = b"99".to_vec();
    cjson::float::round_up(&mut s, &mut e);
    assert_eq!(s, b"10".to_vec());
    assert_eq!(e, 6);
}

#[test]
fn write_exponent_pads_to_two_digits() {
    let mut out = Vec::new();
    cjson::float::write_exponent(&mut out, 5);
    assert_eq!(out, b"05".to_vec());
    let mut out = Vec::new();
    cjson::float::write_exponent(&mut out, 308);
    assert_eq!(out, b"308".to_vec());
    let mut out = Vec::new();
    cjson::float::write_exponent(&mut out, 0);
    assert_eq!(out, b"00".to_vec());
}

#[test]
fn big_integer_arithmetic() {
    let mut b = BigU32::from_u64(1);
    assert!(!b.is_zero());
    for _ in 0..30 {
        b.mul_small(10);
    }
    assert_eq!(b.to_decimal_digits(), b"1000000000000000000000000000000".to_vec());
    let r = b.divmod_1e9();
    assert_eq!(r, 0);
    assert_eq!(b.to_decimal_digits(), b"1000000000000000000000".to_vec());
    let mut c = BigU32::from_u64(3);
    c.shl_bits(70);
    assert_eq!(c.to_decimal_digits(), b"3541774862152233910272".to_vec());
    let z = BigU32::from_u64(0);
    assert!(z.is_zero());
    assert_eq!(z.to_decimal_digits(), b"0".to_vec());
}
