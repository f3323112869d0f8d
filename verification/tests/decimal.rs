use bittorrent_client::decimal::{parse_number, push_decimal};
use bittorrent_client::scalar::{parse_bytes, parse_integer};

fn written(n: u64) -> String {
    let mut out = b">".to_vec();
    push_decimal(&mut out, n);
    String::from_utf8(out).unwrap()
}

#[test]
fn numbers_are_written_without_padding() {
    assert_eq!(written(0), ">0");
    assert_eq!(written(7), ">7");
    assert_eq!(written(10), ">10");
    assert_eq!(written(32768), ">32768");
    assert_eq!(written(u64::MAX), ">18446744073709551615");
}

#[test]
fn numbers_are_read_up_to_the_first_byte_that_is_no_digit() {
    assert_eq!(parse_number(b"0", 0), Some((0, 1)));
    assert_eq!(parse_number(b"42:", 0), Some((42, 2)));
    assert_eq!(parse_number(b"xx123e", 2), Some((123, 5)));
    assert_eq!(parse_number(b"18446744073709551615", 0), Some((u64::MAX, 20)));
    assert_eq!(parse_number(b"0:", 0), Some((0, 1)));
}

#[test]
fn numbers_must_be_canonical_and_fit() {
    assert_eq!(parse_number(b"", 0), None);
    assert_eq!(parse_number(b"abc", 0), None);
    assert_eq!(parse_number(b"12", 2), None);
    assert_eq!(parse_number(b"12", 3), None);
    assert_eq!(parse_number(b"12", usize::MAX), None);
    assert_eq!(parse_number(b"00", 0), None);
    assert_eq!(parse_number(b"012", 0), None);
    assert_eq!(parse_number(b"18446744073709551616", 0), None);
    assert_eq!(parse_number(b"99999999999999999999", 0), None);
    assert_eq!(parse_number(b"184467440737095516150", 0), None);
}

#[test]
fn scalars_are_found_where_they_stand() {
    assert_eq!(parse_integer(b"i-42e", 0), Some((-42, 5)));
    assert_eq!(parse_integer(b"li7ee", 1), Some((7, 4)));
    assert_eq!(parse_integer(b"i7", 0), None);
    assert_eq!(parse_integer(b"i7e", 3), None);
    assert_eq!(parse_integer(b"i7e", usize::MAX), None);
    assert_eq!(parse_bytes(b"4:spam", 0), Some((2, 6)));
    assert_eq!(parse_bytes(b"xx0:", 2), Some((4, 4)));
    assert_eq!(parse_bytes(b"4:spa", 0), None);
    assert_eq!(parse_bytes(b"4:spam", 7), None);
}
