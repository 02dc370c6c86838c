//! Text, numbers in text, errors, and order.

use fio_ext4::decimal;
use fio_ext4::error::Error;
use fio_ext4::tar::{cstr, normalise};
use fio_ext4::text::{bytes_of, chars_of, latin1, parse_whole, push_decimal, same_text, string_of};

fn chars(s: &str) -> Vec<char> {
    s.chars().collect()
}

#[test]
fn malformed_bytes_are_repaired_and_valid_ones_are_not_touched() {
    assert_eq!(cstr(b"plain\0rest"), "plain");
    assert_eq!(cstr("grün\0".as_bytes()), "grün");
    assert_eq!(cstr(&[b'a', 0xff, b'b']), "a\u{fffd}b");
}

#[test]
fn text_goes_through_characters_and_back() {
    assert_eq!(string_of(&chars_of("a€b")), "a€b");
    assert_eq!(bytes_of("é"), [0xc3, 0xa9]);
    assert_eq!(latin1(&[65, 255]), ['A', 'ÿ']);
    assert!(same_text("x", "x") && !same_text("x", "xy"));
    let mut s = "n=".to_string();
    push_decimal(&mut s, 0);
    push_decimal(&mut s, 18446744073709551615);
    assert_eq!(s, "n=018446744073709551615");
    assert_eq!(normalise("./a/"), "a");
}

#[test]
fn whole_numbers_are_read_in_their_base() {
    assert_eq!(parse_whole(&chars("755"), 8, u64::MAX), Some(0o755));
    assert_eq!(parse_whole(&chars("8"), 8, u64::MAX), None);
    assert_eq!(parse_whole(&chars(""), 10, u64::MAX), None);
    assert_eq!(parse_whole(&chars("256"), 10, 255), None);
    assert_eq!(parse_whole(&chars("255"), 10, 255), Some(255));
}

/// Numbers as a double reads them, cut to whole ones.
#[test]
fn decimal_numbers_read_as_doubles_do() {
    for s in [
        "0", "1700000000", "1700000000.123456789", "1.5e3", "-3", "1e400", "18446744073709551615",
        "18446744073709551616", "9007199254740993", "9007199254740992.9999", ".5", "5.", "1E2",
        "+7", "inf", "-inf", "nan", "infinity", "0.9999999999999999999", "1e-400", "",
        "abc", "1.2.3", "e5", "1e", "--1", "1 ",
        "123456789012345678901234567890", "4503599627370497.5",
    ] {
        let want = s.parse::<f64>().ok().map(|x| x as u64);
        assert_eq!(decimal::parse(&chars(s)), want, "{s:?}");
    }
}

#[test]
fn errors_say_what_went_wrong() {
    let s = || "x".to_string();
    assert_eq!(Error::NotFound(s()).message(), "no such file or directory: x");
    assert_eq!(Error::NotADirectory(s()).message(), "not a directory: x");
    assert_eq!(Error::IsADirectory(s()).message(), "is a directory: x");
    assert_eq!(Error::AlreadyExists(s()).message(), "already exists: x");
    assert_eq!(Error::NotEmpty(s()).message(), "directory not empty: x");
    assert_eq!(Error::NoSpace.message(), "no space left on device");
    assert_eq!(Error::NoInodes.message(), "no inodes left on device");
    assert_eq!(Error::InvalidName(s()).message(), "invalid name: x");
    assert_eq!(Error::Unsupported(s()).message(), "unsupported: x");
    assert_eq!(Error::InvalidPath(s()).message(), "invalid path: x");
    assert_eq!(Error::Fs(s()).message(), "x");
    assert_eq!(Error::Io(s()).message(), "x");
}
