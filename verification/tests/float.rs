use strto::{c_str_len, decimal_outcome, scan_float, set_integer_errno, Errno, FloatFormat, FloatScan};

/// Converts with the library and a decimal parser, as `strtod` does,
/// returning the bit pattern of the result.
fn convert(s: &[u8], endoff: &mut usize, f: FloatFormat) -> (u64, Option<Errno>) {
    match scan_float(s, f) {
        FloatScan::Converted { bits, error, end } => {
            *endoff = end;
            (bits, error)
        }
        FloatScan::Decimal { start, end, .. } => {
            let tok = std::str::from_utf8(&s[start..end]).unwrap();
            let magnitude = match f {
                FloatFormat::Binary64 => tok.parse::<f64>().unwrap().to_bits(),
                FloatFormat::Binary32 => tok.parse::<f32>().unwrap().to_bits() as u64,
            };
            *endoff = end;
            decimal_outcome(s, magnitude, f).unwrap()
        }
    }
}

fn strtod_u_e(s: &[u8], endoff: &mut usize) -> (f64, Option<Errno>) {
    let (bits, error) = convert(s, endoff, FloatFormat::Binary64);
    (f64::from_bits(bits), error)
}

fn strtof_u_e(s: &[u8], endoff: &mut usize) -> (f32, Option<Errno>) {
    let (bits, error) = convert(s, endoff, FloatFormat::Binary32);
    (f32::from_bits(bits as u32), error)
}

fn atof(buf: &[u8]) -> f64 {
    let end = c_str_len(buf);
    let mut endoff = 0;
    strtod_u_e(&buf[..end], &mut endoff).0
}

fn strtod_n(s: &[u8]) -> f64 {
    let mut endoff = 0;
    let (value, error) = strtod_u_e(s, &mut endoff);
    set_integer_errno(error);
    value
}

fn strtof_n(s: &[u8]) -> f32 {
    let mut endoff = 0;
    let (value, error) = strtof_u_e(s, &mut endoff);
    set_integer_errno(error);
    value
}

#[test]
fn endoff_for_decimal_and_failed_conversions() {
    for (input, expected, end) in [
        ("", 0.0, 0),
        (" \t-", 0.0, 0),
        ("  +.x", 0.0, 0),
        ("  +12.5tail", 12.5, 7),
        ("  -0", -0.0, 4),
        ("1e+", 1.0, 1),
        ("1e-2rest", 0.01, 4),
        (".5.7", 0.5, 2),
    ] {
        let mut endoff = usize::MAX;
        let (value, _) = strtod_u_e(input.as_bytes(), &mut endoff);
        assert_eq!(endoff, end, "{input:?}");
        assert_eq!(value.to_bits(), f64::to_bits(expected), "{input:?}");
    }
}

#[test]
fn endoff_for_hexadecimal_and_exponents() {
    for (input, expected, end) in [
        ("0x", 0.0, 1),
        (" -0x.", -0.0, 3),
        ("0x0p2!", 0.0, 5),
        ("0x1p+", 1.0, 3),
        ("  +0X1.8p-2tail", 0.375, 11),
        ("0x1.0z", 1.0, 5),
        ("0x1p1024!", f64::INFINITY, 8),
        ("0x1p-1075!", 0.0, 9),
    ] {
        let mut endoff = usize::MAX;
        let (value, _) = strtod_u_e(input.as_bytes(), &mut endoff);
        assert_eq!(endoff, end, "{input:?}");
        assert_eq!(value.to_bits(), f64::to_bits(expected), "{input:?}");
    }
}

#[test]
fn endoff_for_infinity_and_nan() {
    for (input, end) in [
        ("INF!", 3),
        (" -InFiNiTy!", 10),
        ("infinite", 3),
        ("nan", 3),
        (" nan(123)tail", 9),
        ("nan(foo)tail", 8),
        ("nan()tail", 5),
        ("nan(abc", 3),
        ("nan(12-x)", 3),
    ] {
        let mut endoff = usize::MAX;
        let (value, _) = strtod_u_e(input.as_bytes(), &mut endoff);
        assert_eq!(endoff, end, "{input:?}");
        assert!(value.is_infinite() || value.is_nan(), "{input:?}");
    }
}

#[test]
fn atof_stops_at_nul() {
    assert_eq!(atof(b"  2.5\0ignored"), 2.5);
    assert_eq!(atof(b"-0x1p2\0ignored"), -4.0);
}

#[test]
fn range_errors_are_returned_without_setting_errno() {
    let old = errno::errno();
    errno::set_errno(errno::Errno(libc::EINVAL));
    for (input, expected_error) in [
        ("1e309", true),
        ("1e-324", true),
        ("5e-324", true),
        ("0x1p1024", true),
        ("0x1p-1075", true),
        ("0x1p-1074", false),
        ("0x1p-1023", false),
        ("0e-9999", false),
        ("2.2250738585072013e-308", false),
        ("inf", false),
    ] {
        let mut endoff = 0;
        let (_, error) = strtod_u_e(input.as_bytes(), &mut endoff);
        assert_eq!(
            error,
            expected_error.then_some(Errno(libc::ERANGE)),
            "{input}"
        );
        assert_eq!(errno::errno(), errno::Errno(libc::EINVAL), "{input}");
    }
    let exact_subnormal = format!("{:.1074}", f64::from_bits(1));
    let mut endoff = 0;
    let (value, error) = strtod_u_e(exact_subnormal.as_bytes(), &mut endoff);
    assert_eq!(value.to_bits(), 1);
    assert_eq!(endoff, exact_subnormal.len());
    assert_eq!(error, None);
    errno::set_errno(old);
}

#[test]
fn strtod_n_sets_errno_only_for_range_errors() {
    let old = errno::errno();
    errno::set_errno(errno::Errno(libc::EINVAL));
    assert_eq!(strtod_n(b"12.5"), 12.5);
    assert_eq!(errno::errno(), errno::Errno(libc::EINVAL));
    assert!(strtod_n(b"1e309").is_infinite());
    assert_eq!(errno::errno(), errno::Errno(libc::ERANGE));
    errno::set_errno(errno::Errno(libc::EINVAL));
    assert_eq!(strtod_n(b"-1e-9999").to_bits(), (-0.0f64).to_bits());
    assert_eq!(errno::errno(), errno::Errno(libc::ERANGE));
    errno::set_errno(errno::Errno(libc::EINVAL));
    assert!(atof(b"1e309\0").is_infinite());
    assert_eq!(errno::errno(), errno::Errno(libc::EINVAL));
    errno::set_errno(old);
}

#[test]
fn strtof_prefixes_and_special_values() {
    for (input, expected_bits, end) in [
        (" \t-", 0.0f32.to_bits(), 0),
        ("  +12.5tail", 12.5f32.to_bits(), 7),
        ("-0", (-0.0f32).to_bits(), 2),
        ("1e+", 1.0f32.to_bits(), 1),
        ("  +0X1.8p-2tail", 0.375f32.to_bits(), 11),
        ("0x", 0.0f32.to_bits(), 1),
        ("-InFiNiTy!", f32::NEG_INFINITY.to_bits(), 9),
        ("nan(123)tail", 0x7fc0_007b, 8),
        ("-nan(0x3fffff)", 0xffff_ffff, 14),
    ] {
        let mut endoff = usize::MAX;
        let (value, error) = strtof_u_e(input.as_bytes(), &mut endoff);
        assert_eq!(endoff, end, "{input:?}");
        assert_eq!(value.to_bits(), expected_bits, "{input:?}");
        assert_eq!(error, None, "{input:?}");
    }
}

#[test]
fn strtof_rounds_directly_to_f32() {
    for (input, bits) in [
        ("1.000000059604644775390625", 0x3f80_0000),
        ("1.0000000596046447753906250000001", 0x3f80_0001),
        ("0x1.000001p0", 0x3f80_0000),
        ("0x1.000001000001p0", 0x3f80_0001),
        ("0x1p-149", 1),
    ] {
        let mut endoff = 0;
        let (value, error) = strtof_u_e(input.as_bytes(), &mut endoff);
        assert_eq!(endoff, input.len(), "{input}");
        assert_eq!(value.to_bits(), bits, "{input}");
        assert_eq!(error, None, "{input}");
    }
}

#[test]
fn strtof_range_errors_and_errno() {
    let old = errno::errno();
    errno::set_errno(errno::Errno(libc::EINVAL));
    for (input, bits, range_error) in [
        ("1e39", f32::INFINITY.to_bits(), true),
        ("1e-46", 0, true),
        ("1e-45", 1, true),
        ("0x1p128", f32::INFINITY.to_bits(), true),
        ("0x1.fffffep127", f32::MAX.to_bits(), false),
        ("0x1.ffffffp127", f32::INFINITY.to_bits(), true),
        ("0x1p-150", 0, true),
        ("0x1p-149", 1, false),
        ("0x1.1p-149", 1, true),
        ("0e-9999", 0, false),
        ("inf", f32::INFINITY.to_bits(), false),
    ] {
        let mut endoff = 0;
        let (value, error) = strtof_u_e(input.as_bytes(), &mut endoff);
        assert_eq!(endoff, input.len(), "{input}");
        assert_eq!(value.to_bits(), bits, "{input}");
        assert_eq!(
            error,
            range_error.then_some(Errno(libc::ERANGE)),
            "{input}"
        );
        assert_eq!(errno::errno(), errno::Errno(libc::EINVAL), "{input}");
    }
    let exact_subnormal = format!("{:.149}", f32::from_bits(1));
    let mut endoff = 0;
    let (value, error) = strtof_u_e(exact_subnormal.as_bytes(), &mut endoff);
    assert_eq!(value.to_bits(), 1);
    assert_eq!(error, None);
    assert_eq!(endoff, exact_subnormal.len());

    assert!(strtof_n(b"1e39").is_infinite());
    assert_eq!(errno::errno(), errno::Errno(libc::ERANGE));
    errno::set_errno(errno::Errno(libc::EINVAL));
    assert_eq!(strtof_n(b"1.5"), 1.5);
    assert_eq!(errno::errno(), errno::Errno(libc::EINVAL));
    errno::set_errno(old);
}
