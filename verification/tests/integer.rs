use strto::{
    atoi, atol, atoll, strtol, strtol_n, strtol_u_e, strtoll, strtoll_n, strtoll_u_e, strtoul,
    strtoul_n, strtoul_u_e, strtoull, strtoull_n, strtoull_u_e, Errno,
};

#[test]
fn integer_prefixes_and_bases() {
    for (input, base, expected, end) in [
        ("", 10, 0, 0),
        (" \t-", 10, 0, 0),
        ("\x0b-42\0ignored", 10, -42, 4),
        ("  +0x1f!", 0, 31, 7),
        ("077tail", 0, 63, 3),
        ("09", 0, 0, 1),
        ("0x", 0, 0, 1),
        ("0xg", 16, 0, 1),
        ("0b101", 0, 0, 1),
        ("0b101", 2, 0, 1),
        ("zZ", 36, 1295, 2),
        ("+12abc", 10, 12, 3),
    ] {
        let mut endoff = usize::MAX;
        let (value, error) = strtol_u_e(input.as_bytes(), &mut endoff, base);
        assert_eq!(value, expected, "{input:?}, base {base}");
        assert_eq!(endoff, end, "{input:?}, base {base}");
        assert_eq!(error, None, "{input:?}, base {base}");
    }
}

#[test]
fn integer_limits_and_unsigned_negation() {
    let long_max = libc::c_long::MAX as u128;
    let long_min = libc::c_long::MIN as i128;
    for (input, expected, error) in [
        (long_max.to_string(), libc::c_long::MAX, None),
        (
            (long_max + 1).to_string(),
            libc::c_long::MAX,
            Some(Errno(libc::ERANGE)),
        ),
        (long_min.to_string(), libc::c_long::MIN, None),
        (
            (long_min - 1).to_string(),
            libc::c_long::MIN,
            Some(Errno(libc::ERANGE)),
        ),
    ] {
        let mut endoff = 0;
        let (value, actual_error) = strtol_u_e(input.as_bytes(), &mut endoff, 10);
        assert_eq!(
            (value, actual_error, endoff),
            (expected, error, input.len()),
            "{input}"
        );
    }

    let ulong_max = libc::c_ulong::MAX as u128;
    for (input, expected, error) in [
        ("-1".to_owned(), libc::c_ulong::MAX, None),
        (ulong_max.to_string(), libc::c_ulong::MAX, None),
        (
            (ulong_max + 1).to_string(),
            libc::c_ulong::MAX,
            Some(Errno(libc::ERANGE)),
        ),
        (
            format!("-{}", ulong_max + 1),
            libc::c_ulong::MAX,
            Some(Errno(libc::ERANGE)),
        ),
    ] {
        let mut endoff = 0;
        let (value, actual_error) = strtoul_u_e(input.as_bytes(), &mut endoff, 10);
        assert_eq!(
            (value, actual_error, endoff),
            (expected, error, input.len()),
            "{input}"
        );
    }

    let mut endoff = 0;
    assert_eq!(
        strtoll_u_e(
            libc::c_longlong::MIN.to_string().as_bytes(),
            &mut endoff,
            10
        )
        .0,
        libc::c_longlong::MIN
    );
    assert_eq!(
        strtoull_u_e(b"-1", &mut endoff, 10),
        (libc::c_ulonglong::MAX, None)
    );
}

#[test]
fn integer_errno_and_wrappers() {
    let old = errno::errno();
    errno::set_errno(errno::Errno(libc::EACCES));
    let mut endoff = usize::MAX;
    assert_eq!(
        strtol_u_e(b"10", &mut endoff, 1),
        (0, Some(Errno(libc::EINVAL)))
    );
    assert_eq!(endoff, 0);
    assert_eq!(errno::errno(), errno::Errno(libc::EACCES));

    assert_eq!(strtol(b"-12tail", &mut endoff, 10), -12);
    assert_eq!(endoff, 3);
    assert_eq!(errno::errno(), errno::Errno(libc::EACCES));
    assert_eq!(strtoul(b"-1", &mut endoff, 10), libc::c_ulong::MAX);
    assert_eq!(strtoll(b"42", &mut endoff, 10), 42);
    assert_eq!(strtoull(b"42", &mut endoff, 10), 42);
    assert_eq!(strtol_n(b"42", 10), 42);
    assert_eq!(strtoul_n(b"42", 10), 42);
    assert_eq!(strtoll_n(b"42", 10), 42);
    assert_eq!(strtoull_n(b"42", 10), 42);

    assert_eq!(strtol(b"10", &mut endoff, 37), 0);
    assert_eq!(errno::errno(), errno::Errno(libc::EINVAL));
    errno::set_errno(errno::Errno(libc::EACCES));
    assert_eq!(
        strtol_n(format!("{}0", libc::c_long::MAX).as_bytes(), 10),
        libc::c_long::MAX
    );
    assert_eq!(errno::errno(), errno::Errno(libc::ERANGE));

    errno::set_errno(errno::Errno(libc::EACCES));
    assert_eq!(atoi(b"  -123\0ignored"), -123);
    assert_eq!(atol(b"  -123\0ignored"), -123);
    assert_eq!(atoll(b"  -123\0ignored"), -123);
    assert_eq!(
        atol(format!("{}0", libc::c_long::MAX).as_bytes()),
        libc::c_long::MAX
    );
    assert_eq!(errno::errno(), errno::Errno(libc::EACCES));
    errno::set_errno(old);
}
