use strto::{
    ascii_digit, atoi, c_str_len, decimal_is_exact, decimal_outcome, hex, nan, scan_float,
    strtol_u_e, strtoll_u_e, strtoul_u_e, strtoull_base0_whole, strtoull_u_e, Errno, FloatFormat,
    FloatScan,
};

const QNAN64: u64 = 0x7FF8_0000_0000_0000;
const QNAN32: u64 = 0x7FC0_0000;

fn hex64(s: &str) -> (u64, Option<Errno>, usize) {
    let mut endoff = usize::MAX;
    let (bits, error) = hex(s.as_bytes(), &mut endoff, FloatFormat::Binary64);
    (bits, error, endoff)
}

#[test]
fn digits_of_every_base() {
    assert_eq!(ascii_digit(b'0'), Some(0));
    assert_eq!(ascii_digit(b'9'), Some(9));
    assert_eq!(ascii_digit(b'a'), Some(10));
    assert_eq!(ascii_digit(b'Z'), Some(35));
    assert_eq!(ascii_digit(b'.'), None);
    assert_eq!(ascii_digit(0), None);
}

#[test]
fn c_string_length() {
    assert_eq!(c_str_len(b"12\0ab"), 2);
    assert_eq!(c_str_len(b"abc"), 3);
    assert_eq!(c_str_len(b"\0"), 0);
    assert_eq!(c_str_len(b""), 0);
}

#[test]
fn invalid_bases_for_every_width() {
    for base in [-1, 1, 37, 100] {
        let mut endoff = 7;
        assert_eq!(strtol_u_e(b"12", &mut endoff, base), (0, Some(Errno(libc::EINVAL))));
        assert_eq!(endoff, 0);
        assert_eq!(strtoul_u_e(b"12", &mut endoff, base), (0, Some(Errno(libc::EINVAL))));
        assert_eq!(strtoll_u_e(b"12", &mut endoff, base), (0, Some(Errno(libc::EINVAL))));
        assert_eq!(strtoull_u_e(b"12", &mut endoff, base), (0, Some(Errno(libc::EINVAL))));
    }
    assert_eq!(Errno(libc::EINVAL), Errno(22));
    assert_eq!(Errno(libc::ERANGE), Errno(34));
}

#[test]
fn integer_conversions_in_bases() {
    let mut endoff = 0;
    assert_eq!(strtol_u_e(b"  -0x7fffffffffffffff", &mut endoff, 16), (-i64::MAX, None));
    assert_eq!(endoff, 21);
    assert_eq!(strtol_u_e(b"-9223372036854775808", &mut endoff, 10), (i64::MIN, None));
    assert_eq!(strtol_u_e(b"777", &mut endoff, 8), (511, None));
    assert_eq!(strtol_u_e(b"8", &mut endoff, 8), (0, None));
    assert_eq!(endoff, 0);
    assert_eq!(strtol_u_e(b"0X10", &mut endoff, 0), (16, None));
    assert_eq!(strtol_u_e(b"  0x", &mut endoff, 16), (0, None));
    assert_eq!(endoff, 3);
    assert_eq!(strtoul_u_e(b"-0", &mut endoff, 10), (0, None));
    assert_eq!(
        strtoul_u_e(b"99999999999999999999999", &mut endoff, 10),
        (u64::MAX, Some(Errno(libc::ERANGE)))
    );
    assert_eq!(endoff, 23);
    assert_eq!(
        strtoll_u_e(b"-99999999999999999999", &mut endoff, 0),
        (i64::MIN, Some(Errno(libc::ERANGE)))
    );
    assert_eq!(atoi(b"4294967297"), 1);
}

#[test]
fn nul_ends_an_integer() {
    let mut e1 = 0;
    let mut e2 = 0;
    assert_eq!(strtol_u_e(b"12\x0034", &mut e1, 10), strtol_u_e(b"12", &mut e2, 10));
    assert_eq!(e1, e2);
    assert_eq!(strtoul_u_e(b"-\x001", &mut e1, 10), (0, None));
    assert_eq!(e1, 0);
}

#[test]
fn only_the_reported_prefix_is_read() {
    let mut e1 = 0;
    let (value, error) = strtol_u_e(b"  0x1fzz", &mut e1, 0);
    assert_eq!((value, error, e1), (31, None, 6));
    let mut e2 = 0;
    assert_eq!(strtol_u_e(&b"  0x1fzz"[..e1], &mut e2, 0), (value, error));
    assert_eq!(e2, e1);
}

#[test]
fn the_integer_end_is_the_longest_prefix_read_whole() {
    for (input, base) in [
        (&b"  0x1fzz"[..], 0),
        (b"0x", 16),
        (b"0xg", 0),
        (b" -0778", 0),
        (b"+z", 36),
        (b"12", 1),
    ] {
        let mut end = 0;
        strtol_u_e(input, &mut end, base);
        for k in end + 1..=input.len() {
            let mut e = 0;
            strtol_u_e(&input[..k], &mut e, base);
            assert_ne!(e, k, "{input:?} cut at {k}");
        }
    }
}

#[test]
fn minus_negates_modulo_the_width() {
    let mut endoff = 0;
    assert_eq!(strtoul_u_e(b"-5", &mut endoff, 10), (u64::MAX - 4, None));
    assert_eq!(endoff, 2);
    assert_eq!(strtoul_u_e(b"5", &mut endoff, 10), (5, None));
    assert_eq!(strtol_u_e(b"-0x10", &mut endoff, 0), (-16, None));
    assert_eq!(endoff, 5);
}

#[test]
fn whole_strings_in_base_zero() {
    assert_eq!(strtoull_base0_whole(b""), Some(0));
    assert_eq!(strtoull_base0_whole(b"123"), Some(123));
    assert_eq!(strtoull_base0_whole(b"0x1f"), Some(31));
    assert_eq!(strtoull_base0_whole(b"0X1F"), Some(31));
    assert_eq!(strtoull_base0_whole(b"077"), Some(63));
    assert_eq!(strtoull_base0_whole(b"08"), None);
    assert_eq!(strtoull_base0_whole(b"0x"), None);
    assert_eq!(strtoull_base0_whole(b"12a"), None);
    assert_eq!(strtoull_base0_whole(b"18446744073709551616"), Some(u64::MAX));
    assert_eq!(strtoull_base0_whole(b"0xffffffffffffffffff"), Some(u64::MAX));
}

#[test]
fn nan_payloads() {
    let mut endoff = 99;
    assert_eq!(nan(b"(123)x", &mut endoff, FloatFormat::Binary64), QNAN64 | 123);
    assert_eq!(endoff, 5);
    let mut endoff = 99;
    assert_eq!(nan(b"", &mut endoff, FloatFormat::Binary64), QNAN64);
    assert_eq!(endoff, 99);
    let mut endoff = 99;
    assert_eq!(nan(b"(12", &mut endoff, FloatFormat::Binary64), QNAN64);
    assert_eq!(endoff, 99);
    let mut endoff = 99;
    assert_eq!(nan(b"()", &mut endoff, FloatFormat::Binary64), QNAN64);
    assert_eq!(endoff, 2);
    // only the bits below the quiet bit carry a payload
    let mut endoff = 0;
    assert_eq!(nan(b"(0x8000000000000)", &mut endoff, FloatFormat::Binary64), QNAN64);
    assert_eq!(nan(b"(0x8000000000001)", &mut endoff, FloatFormat::Binary64), QNAN64 | 1);
    assert_eq!(nan(b"(0x400001)", &mut endoff, FloatFormat::Binary32), QNAN32 | 1);
    assert_eq!(nan(b"(a_b)", &mut endoff, FloatFormat::Binary32), QNAN32);
    assert_eq!(endoff, 5);
}

#[test]
fn hexadecimal_bodies() {
    assert_eq!(hex64("1.8p1"), (3.0f64.to_bits(), None, 5));
    assert_eq!(hex64("p3"), (0, None, usize::MAX));
    assert_eq!(hex64("."), (0, None, usize::MAX));
    assert_eq!(hex64("0.0p99999999999999999999999"), (0, None, 27));
    assert_eq!(hex64("1p99999999999999999999999"), (f64::INFINITY.to_bits(), Some(Errno(libc::ERANGE)), 25));
    assert_eq!(hex64("1p-99999999999999999999999"), (0, Some(Errno(libc::ERANGE)), 26));
    assert_eq!(hex64("fffffffffffffffffffffffff"), ((0xfffffffffffffffffffffffffu128 as f64).to_bits(), None, 25));
    assert_eq!(hex64("1.fffffffffffff8p1023"), (f64::INFINITY.to_bits(), Some(Errno(libc::ERANGE)), 21));
    assert_eq!(hex64("1.fffffffffffffp1023"), (f64::MAX.to_bits(), None, 20));
    assert_eq!(hex64("0.0000000000001p-1022"), (1, None, 21));
}

#[test]
fn halfway_cases_round_to_even() {
    // 1 + 2^-53 lies halfway between 1 and its successor, whose last bit is odd
    assert_eq!(hex64("1.00000000000008p0").0, 1.0f64.to_bits());
    // 1 + 3·2^-53 lies halfway between two values; the even one is above
    assert_eq!(hex64("1.00000000000018p0").0, 0x3FF0_0000_0000_0002);
    // anything past halfway rounds up, however far down it lies
    assert_eq!(hex64("1.000000000000080000000000001p0").0, 0x3FF0_0000_0000_0001);
    // halfway between subnormals: 1.5 and 2.5 times the smallest
    assert_eq!(hex64("3p-1075"), (2, Some(Errno(libc::ERANGE)), 7));
    assert_eq!(hex64("5p-1075"), (2, Some(Errno(libc::ERANGE)), 7));
}

#[test]
fn representable_values_convert_exactly() {
    assert_eq!(hex64("1p0"), (1.0f64.to_bits(), None, 3));
    assert_eq!(hex64("1p-1022"), (f64::MIN_POSITIVE.to_bits(), None, 7));
    assert_eq!(hex64("8p-1077"), (1, None, 7));
    assert_eq!(hex64("1.fffffffffffffp1023"), (f64::MAX.to_bits(), None, 20));
}

#[test]
fn scans_of_each_kind() {
    assert_eq!(
        scan_float(b" -12.5e3x", FloatFormat::Binary64),
        FloatScan::Decimal { negative: true, start: 2, mantissa_end: 6, end: 8 }
    );
    assert_eq!(
        scan_float(b"-inf", FloatFormat::Binary32),
        FloatScan::Converted { bits: 0xFF80_0000, error: None, end: 4 }
    );
    assert_eq!(
        scan_float(b"-abc", FloatFormat::Binary64),
        FloatScan::Converted { bits: 0, error: None, end: 0 }
    );
    assert_eq!(
        scan_float(b"-0x", FloatFormat::Binary64),
        FloatScan::Converted { bits: 0x8000_0000_0000_0000, error: None, end: 2 }
    );
    assert_eq!(
        scan_float(b"NaN(7)", FloatFormat::Binary64),
        FloatScan::Converted { bits: QNAN64 | 7, error: None, end: 6 }
    );
}

#[test]
fn exactness_of_subnormal_tokens() {
    let exact = format!("{:.1074}", f64::from_bits(3));
    assert!(decimal_is_exact(exact.as_bytes(), 3, FloatFormat::Binary64));
    assert!(!decimal_is_exact(exact.as_bytes(), 2, FloatFormat::Binary64));
    let scaled = format!("{}e-1074", &exact[2..].trim_start_matches('0'));
    assert!(decimal_is_exact(scaled.as_bytes(), 3, FloatFormat::Binary64));
    assert!(!decimal_is_exact(b"1.5e-323", 3, FloatFormat::Binary64));
    assert!(!decimal_is_exact(b"5e-324", 1, FloatFormat::Binary64));
    assert!(!decimal_is_exact(b"1e99999999999999999999999999999999999999999", 1, FloatFormat::Binary64));
    assert!(!decimal_is_exact(b"1e-99999999999999999999999999999999999999999", 1, FloatFormat::Binary64));
    let exact32 = format!("{:.149}", f32::from_bits(5));
    assert!(decimal_is_exact(exact32.as_bytes(), 5, FloatFormat::Binary32));
    assert!(decimal_is_exact(format!("{}000", exact32).as_bytes(), 5, FloatFormat::Binary32));
}

#[test]
fn decimal_outcomes() {
    assert_eq!(decimal_outcome(b"0x1", 0, FloatFormat::Binary64), None);
    assert_eq!(decimal_outcome(b"inf", 0, FloatFormat::Binary64), None);
    assert_eq!(
        decimal_outcome(b"-2.5", 2.5f64.to_bits(), FloatFormat::Binary64),
        Some(((-2.5f64).to_bits(), None))
    );
    assert_eq!(
        decimal_outcome(b"0.000e5", 0, FloatFormat::Binary64),
        Some((0, None))
    );
    assert_eq!(
        decimal_outcome(b"1e-400", 0, FloatFormat::Binary64),
        Some((0, Some(Errno(libc::ERANGE))))
    );
    assert_eq!(
        decimal_outcome(b"1e400", f64::INFINITY.to_bits(), FloatFormat::Binary64),
        Some((f64::INFINITY.to_bits(), Some(Errno(libc::ERANGE))))
    );
}

#[test]
fn nul_ends_a_float() {
    for f in [FloatFormat::Binary64, FloatFormat::Binary32] {
        for (cut, whole) in [
            (&b"0x1.8p1"[..], &b"0x1.8p1\0p9"[..]),
            (b"nan(12", b"nan(12\0)"),
            (b"  -1.5", b"  -1.5\0e3"),
            (b"inf", b"inf\0inity"),
            (b"1e", b"1e\x005"),
            (b"", b"\x001"),
        ] {
            assert_eq!(scan_float(whole, f), scan_float(cut, f), "{whole:?}");
        }
    }
    assert_eq!(
        scan_float(b"nan(12\0)", FloatFormat::Binary64),
        FloatScan::Converted { bits: QNAN64, error: None, end: 3 }
    );
}

#[test]
fn minus_negates_a_float() {
    let sign64 = 0x8000_0000_0000_0000u64;
    let f = FloatFormat::Binary64;
    for body in ["0x1p3", "0x", "infinity", "nan(5)", "0x1p-1080"] {
        let plus = scan_float(body.as_bytes(), f);
        let minus = scan_float(format!("-{body}").as_bytes(), f);
        match plus {
            FloatScan::Converted { bits, error, end } => {
                assert!(bits < sign64);
                assert_eq!(minus, FloatScan::Converted { bits: bits + sign64, error, end: end + 1 }, "{body}");
            }
            FloatScan::Decimal { .. } => panic!("{body} is not decimal"),
        }
    }
    assert_eq!(
        scan_float(b"-0x1p3", f),
        FloatScan::Converted { bits: 0xC020_0000_0000_0000, error: None, end: 6 }
    );
    assert_eq!(scan_float(b"-abc", f), FloatScan::Converted { bits: 0, error: None, end: 0 });
    assert_eq!(
        scan_float(b"-12.5e1", f),
        FloatScan::Decimal { negative: true, start: 1, mantissa_end: 5, end: 7 }
    );
    assert_eq!(
        scan_float(b"12.5e1", f),
        FloatScan::Decimal { negative: false, start: 0, mantissa_end: 4, end: 6 }
    );
}

#[test]
fn only_the_reported_float_prefix_is_read() {
    for f in [FloatFormat::Binary64, FloatFormat::Binary32] {
        for input in [
            &b"  -12.5e+3tail"[..],
            b"1e+",
            b".5.7",
            b"0x1.8p-2tail",
            b"0x1p",
            b"INFINITE",
            b"-infinity!",
            b"nan(0x12)z",
            b"nan(abc",
            b"abc",
        ] {
            let whole = scan_float(input, f);
            let end = match whole {
                FloatScan::Converted { end, .. } => end,
                FloatScan::Decimal { end, .. } => end,
            };
            assert_eq!(scan_float(&input[..end], f), whole, "{input:?}");
        }
    }
    // `0x` with no digit: only the `0` is read, which scans as a decimal zero
    assert_eq!(
        scan_float(b" -0xz", FloatFormat::Binary64),
        FloatScan::Converted { bits: 0x8000_0000_0000_0000, error: None, end: 3 }
    );
    assert_eq!(
        scan_float(b" -0", FloatFormat::Binary64),
        FloatScan::Decimal { negative: true, start: 2, mantissa_end: 3, end: 3 }
    );
}

#[test]
fn the_end_is_the_longest_prefix_read_whole() {
    let end_of = |r: FloatScan| match r {
        FloatScan::Converted { end, .. } => end,
        FloatScan::Decimal { end, .. } => end,
    };
    for f in [FloatFormat::Binary64, FloatFormat::Binary32] {
        for input in [
            &b"  -12.5e+3tail"[..],
            b"1e+",
            b"0x",
            b"0x1p+",
            b"0x.p1",
            b"infinit",
            b"nan(12",
            b"nan(1)2",
            b".e5",
            b" - 1",
        ] {
            let end = end_of(scan_float(input, f));
            assert_eq!(end_of(scan_float(&input[..end], f)), end, "{input:?}");
            for k in end + 1..=input.len() {
                assert_ne!(end_of(scan_float(&input[..k], f)), k, "{input:?} cut at {k}");
            }
        }
    }
}
