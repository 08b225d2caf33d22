use softfp::os_version_check::{
    is_os_version_at_least, pack_os_version, parse_os_version, parse_usize, trim_trailing_nul,
    try_parse_os_version, try_parse_usize,
};

#[test]
fn test_general_available() {
    // whatever the running system's version is
    for current in [pack_os_version(10, 12, 0), pack_os_version(14, 3, 7), pack_os_version(26, 0, 0)] {
        // Lowest version always available.
        assert_eq!(is_os_version_at_least(current, 0, 0, 0), 1);
        // This high version never available.
        assert_eq!(is_os_version_at_least(current, 9999, 99, 99), 0);
    }
}

#[test]
fn versions_compare_part_by_part() {
    let current = pack_os_version(14, 3, 7);
    assert_eq!(is_os_version_at_least(current, 14, 3, 7), 1);
    assert_eq!(is_os_version_at_least(current, 14, 3, 6), 1);
    assert_eq!(is_os_version_at_least(current, 14, 2, 7), 1);
    assert_eq!(is_os_version_at_least(current, 13, 3, 7), 1);
    assert_eq!(is_os_version_at_least(current, 14, 3, 8), 0);
    assert_eq!(is_os_version_at_least(current, 14, 4, 7), 0);
    assert_eq!(is_os_version_at_least(current, 15, 3, 7), 0);
    assert_eq!(pack_os_version(14, 3, 7), 0x000e_0307);
    assert_eq!(pack_os_version(u16::MAX, u8::MAX, u8::MAX), u32::MAX);
}

#[test]
fn parse_version() {
    fn check(major: u16, minor: u8, patch: u8, version: &str) {
        assert_eq!(
            pack_os_version(major, minor, patch),
            parse_os_version(version.as_bytes()),
        )
    }

    check(0, 0, 0, "0");
    check(0, 0, 0, "0.0.0");
    check(1, 0, 0, "1");
    check(1, 2, 0, "1.2");
    check(1, 2, 3, "1.2.3");
    check(9999, 99, 99, "9999.99.99");

    // Check leading zeroes
    check(10, 0, 0, "010");
    check(10, 20, 0, "010.020");
    check(10, 20, 30, "010.020.030");
    check(10000, 100, 100, "000010000.00100.00100");
}

#[test]
fn what_is_no_version() {
    for bad in [
        "1.2.3.4", "A.B", "", ".", ".1", "1.", "1.2.", "100000", "1.1000", "1.1.1000", "1a",
        "1.2b", "1..2", "65536", "1.256", "1.2.256", "99999999999999999999999999", " 1",
    ] {
        assert_eq!(try_parse_os_version(bad.as_bytes()), None, "{bad:?}");
    }
    assert_eq!(try_parse_os_version(b"65535.255.255"), Some(u32::MAX));
    assert_eq!(try_parse_os_version(b"10.1"), Some(pack_os_version(10, 1, 0)));
}

#[test]
fn numbers_and_nuls() {
    assert_eq!(parse_usize(b"123.4"), (123, &b".4"[..]));
    assert_eq!(parse_usize(b"007"), (7, &b""[..]));
    assert_eq!(try_parse_usize(b"42abc"), Some((42, &b"abc"[..])));
    assert_eq!(try_parse_usize(b""), None);
    assert_eq!(try_parse_usize(b"x1"), None);
    assert_eq!(try_parse_usize(b"340282366920938463463374607431768211456"), None);
    assert_eq!(trim_trailing_nul(b"14.3\0\0\0"), b"14.3");
    assert_eq!(trim_trailing_nul(b"14\0.3\0"), b"14\0.3");
    assert_eq!(trim_trailing_nul(b"\0\0"), b"");
    assert_eq!(trim_trailing_nul(b""), b"");
    assert_eq!(trim_trailing_nul(b"abc"), b"abc");
}
