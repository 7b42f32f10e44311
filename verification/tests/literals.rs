use dither_rust::hex::{hex_byte, hex_digit, parse_colour};

#[test]
fn it_works() {
    let result = 2 + 2;
    assert_eq!(result, 4);
}

#[test]
fn parses_pure_red() {
    assert_eq!(parse_colour("FF0000"), Some([255, 0, 0]));
}

#[test]
fn rejects_non_hex_digits() {
    assert_eq!(parse_colour("ZZ0000"), None);
}

#[test]
fn rejects_short_literal() {
    assert_eq!(parse_colour("FF00"), None);
}

#[test]
fn reads_channels_in_order() {
    assert_eq!(parse_colour("000000"), Some([0, 0, 0]));
    assert_eq!(parse_colour("FFFFFF"), Some([255, 255, 255]));
    assert_eq!(parse_colour("0A141E"), Some([10, 20, 30]));
    assert_eq!(parse_colour("123456"), Some([0x12, 0x34, 0x56]));
    assert_eq!(parse_colour("789ABC"), Some([0x78, 0x9a, 0xbc]));
    assert_eq!(parse_colour("DEF019"), Some([0xde, 0xf0, 0x19]));
}

#[test]
fn digits_may_be_lower_case() {
    assert_eq!(parse_colour("ff0000"), Some([255, 0, 0]));
    assert_eq!(parse_colour("aBcDeF"), Some([0xab, 0xcd, 0xef]));
}

#[test]
fn rejects_any_other_length() {
    assert_eq!(parse_colour(""), None);
    assert_eq!(parse_colour("F"), None);
    assert_eq!(parse_colour("FF000"), None);
    assert_eq!(parse_colour("FF00000"), None);
    assert_eq!(parse_colour("FF0000FF"), None);
}

#[test]
fn rejects_anything_but_digits() {
    assert_eq!(parse_colour("#FF000"), None);
    assert_eq!(parse_colour("+F0000"), None);
    assert_eq!(parse_colour("FF 000"), None);
    assert_eq!(parse_colour("FF000G"), None);
    assert_eq!(parse_colour("FF00-1"), None);
    assert_eq!(parse_colour("ÀÀ0000"), None);
    assert_eq!(parse_colour("ＦＦ0000"), None);
}

#[test]
fn hex_digits_have_their_value() {
    for (i, c) in "0123456789abcdef".chars().enumerate() {
        assert_eq!(hex_digit(c), Some(i as u8));
        assert_eq!(hex_digit(c.to_ascii_uppercase()), Some(i as u8));
    }
    for c in ['g', 'G', '/', ':', '@', '`', ' ', 'é', '٣'] {
        assert_eq!(hex_digit(c), None);
    }
}

#[test]
fn two_digits_make_a_byte() {
    assert_eq!(hex_byte('0', '0'), Some(0));
    assert_eq!(hex_byte('7', 'f'), Some(127));
    assert_eq!(hex_byte('F', 'F'), Some(255));
    assert_eq!(hex_byte('1', '0'), Some(16));
    assert_eq!(hex_byte('x', '0'), None);
    assert_eq!(hex_byte('0', 'x'), None);
}
