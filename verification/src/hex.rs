//! Colour literals: six hexadecimal digits, `RRGGBB`.

use itertools::Itertools;
use vstd::prelude::*;

verus! {

/// The value of a hexadecimal digit, in either case; `None` for any other
/// character.
pub open spec fn spec_hex_digit(c: char) -> Option<int> {
    if '0' <= c <= '9' {
        Some(c as int - '0' as int)
    } else if 'a' <= c <= 'f' {
        Some(c as int - 'a' as int + 10)
    } else if 'A' <= c <= 'F' {
        Some(c as int - 'A' as int + 10)
    } else {
        None
    }
}

/// The byte written by the digits `high` and `low`, if both are digits.
pub open spec fn spec_hex_byte(high: char, low: char) -> Option<u8> {
    match (spec_hex_digit(high), spec_hex_digit(low)) {
        (Some(h), Some(l)) => Some((16 * h + l) as u8),
        _ => None,
    }
}

/// The colour that a literal denotes: the literal must consist of exactly
/// three digit pairs, which give red, green and blue in this order.
pub open spec fn spec_parse_colour(s: Seq<char>) -> Option<Seq<u8>> {
    if s.len() != 6 {
        None
    } else {
        match (spec_hex_byte(s[0], s[1]), spec_hex_byte(s[2], s[3]), spec_hex_byte(s[4], s[5])) {
            (Some(r), Some(g), Some(b)) => Some(seq![r, g, b]),
            _ => None,
        }
    }
}

/// Calls `Itertools::tuples` on the characters of `s`, which groups them
/// two by two in order and leaves out a last character that has no partner.
#[verifier::external_body]
fn char_pairs(s: &str) -> (pairs: Vec<(char, char)>)
    ensures
        pairs@.len() == s@.len() / 2,
        forall|i: int| 0 <= i < pairs@.len() ==> #[trigger] pairs@[i] == (s@[2 * i], s@[2 * i + 1]),
{
    s.chars().tuples().collect()
}

/// The value of a hexadecimal digit.
pub fn hex_digit(c: char) -> (r: Option<u8>)
    ensures
        match r {
            Some(d) => spec_hex_digit(c) == Some(d as int) && d < 16,
            None => spec_hex_digit(c) is None,
        },
{
    if '0' <= c && c <= '9' {
        Some((c as u32 - '0' as u32) as u8)
    } else if 'a' <= c && c <= 'f' {
        Some((c as u32 - 'a' as u32 + 10) as u8)
    } else if 'A' <= c && c <= 'F' {
        Some((c as u32 - 'A' as u32 + 10) as u8)
    } else {
        None
    }
}

/// The byte written by two hexadecimal digits.
pub fn hex_byte(high: char, low: char) -> (r: Option<u8>)
    ensures
        r == spec_hex_byte(high, low),
{
    match (hex_digit(high), hex_digit(low)) {
        (Some(h), Some(l)) => Some(16 * h + l),
        _ => None,
    }
}

/// Reads a colour literal of the form `RRGGBB`.
///
/// The literal is accepted if and only if it is six characters long and
/// each of them is a hexadecimal digit, upper or lower case.
pub fn parse_colour(str: &str) -> (r: Option<[u8; 3]>)
    ensures
        match r {
            Some(channels) => spec_parse_colour(str@) == Some(channels@),
            None => spec_parse_colour(str@) is None,
        },
{
    let pairs = char_pairs(str);
    if str.unicode_len() != 6 {
        return None;
    }
    let red = hex_byte(pairs[0].0, pairs[0].1);
    let green = hex_byte(pairs[1].0, pairs[1].1);
    let blue = hex_byte(pairs[2].0, pairs[2].1);
    match (red, green, blue) {
        (Some(r), Some(g), Some(b)) => {
            let channels = [r, g, b];
            assert(channels@ =~= seq![r, g, b]);
            Some(channels)
        },
        _ => None,
    }
}

} // verus!
