//! Hex colour codes: reading `#RRGGBB` into 8-bit channels and writing it back.
use vstd::prelude::*;
use vstd::string::StringSliceAdditionalSpecFns;

verus! {

/// A hex colour code that could not be read.
#[derive(Debug, Clone, Copy, PartialEq, Eq, Structural)]
pub enum ParseError {
    /// Fewer than six characters follow the optional `#`.
    TooShort,
    /// One of the six leading characters is not a hexadecimal digit.
    NotHex,
}

/// The value of an ASCII hexadecimal digit, either case.
pub open spec fn hex_digit_value(b: u8) -> Option<nat> {
    if 48 <= b <= 57 {
        Some((b - 48) as nat)
    } else if 65 <= b <= 70 {
        Some((b - 55) as nat)
    } else if 97 <= b <= 102 {
        Some((b - 87) as nat)
    } else {
        None
    }
}

pub open spec fn is_hex_digit(b: u8) -> bool {
    hex_digit_value(b) is Some
}

/// The bytes after an optional leading `#`.
pub open spec fn code_digits(s: Seq<u8>) -> Seq<u8> {
    if s.len() > 0 && s[0] == 35u8 {
        s.drop_first()
    } else {
        s
    }
}

/// The byte written by the two hex digits at `i` and `i + 1`.
pub open spec fn pair_value(d: Seq<u8>, i: int) -> u8 {
    (hex_digit_value(d[i])->0 * 16 + hex_digit_value(d[i + 1])->0) as u8
}

pub open spec fn all_hex6(d: Seq<u8>) -> bool {
    d.len() >= 6 && forall|i: int| 0 <= i < 6 ==> is_hex_digit(#[trigger] d[i])
}

/// What reading a colour code gives: three channels from the first six
/// digits, or the reason it fails.
pub open spec fn parse_code(s: Seq<u8>) -> Result<(u8, u8, u8), ParseError> {
    let d = code_digits(s);
    if d.len() < 6 {
        Err(ParseError::TooShort)
    } else if !all_hex6(d) {
        Err(ParseError::NotHex)
    } else {
        Ok((pair_value(d, 0), pair_value(d, 2), pair_value(d, 4)))
    }
}

/// The upper-case ASCII hex digit for a value below sixteen.
pub open spec fn hex_digit_char(v: nat) -> u8 {
    if v < 10 {
        (48 + v) as u8
    } else {
        (55 + v) as u8
    }
}

/// `#RRGGBB` with upper-case digits.
pub open spec fn hex_code(c: (u8, u8, u8)) -> Seq<u8> {
    seq![
        35u8,
        hex_digit_char(c.0 as nat / 16),
        hex_digit_char(c.0 as nat % 16),
        hex_digit_char(c.1 as nat / 16),
        hex_digit_char(c.1 as nat % 16),
        hex_digit_char(c.2 as nat / 16),
        hex_digit_char(c.2 as nat % 16),
    ]
}

/// A digit with upper-case letters.
pub open spec fn upper_digit(b: u8) -> u8 {
    if 97 <= b <= 102 {
        (b - 32) as u8
    } else {
        b
    }
}

fn digit_value(b: u8) -> (r: Option<u8>)
    ensures
        match r {
            Some(v) => hex_digit_value(b) == Some(v as nat) && v < 16,
            None => hex_digit_value(b) is None,
        },
{
    if 48 <= b && b <= 57 {
        Some(b - 48)
    } else if 65 <= b && b <= 70 {
        Some(b - 55)
    } else if 97 <= b && b <= 102 {
        Some(b - 87)
    } else {
        None
    }
}

fn read_pair(d: &[u8], i: usize) -> (r: Option<u8>)
    requires
        i + 1 < d@.len(),
    ensures
        match r {
            Some(v) => is_hex_digit(d@[i as int]) && is_hex_digit(d@[i + 1]) && v == pair_value(
                d@,
                i as int,
            ),
            None => !is_hex_digit(d@[i as int]) || !is_hex_digit(d@[i + 1]),
        },
{
    match (digit_value(d[i]), digit_value(d[i + 1])) {
        (Some(hi), Some(lo)) => Some(hi * 16 + lo),
        _ => None,
    }
}

/// Reads a colour code such as `#1E90FF` or `1e90ff` into its red, green and
/// blue channels. Characters after the sixth digit are ignored.
pub fn hex_to_rgb(hex: &str) -> (r: Result<(u8, u8, u8), ParseError>)
    ensures
        r == parse_code(hex.spec_bytes()),
{
    let bytes = hex.as_bytes();
    let start: usize = if bytes.len() > 0 && bytes[0] == 35u8 {
        1
    } else {
        0
    };
    let ghost d = code_digits(bytes@);
    if bytes.len() < start + 6 {
        return Err(ParseError::TooShort);
    }
    let ghost s = bytes@;
    assert(d =~= s.subrange(start as int, s.len() as int));
    let r = read_pair(bytes, start);
    let g = read_pair(bytes, start + 2);
    let b = read_pair(bytes, start + 4);
    assert(forall|i: int| 0 <= i < 6 ==> d[i] == s[start + i]);
    assert(r matches Some(v) ==> v == pair_value(d, 0));
    assert(g matches Some(v) ==> v == pair_value(d, 2));
    assert(b matches Some(v) ==> v == pair_value(d, 4));
    match (r, g, b) {
        (Some(r), Some(g), Some(b)) => {
            assert(all_hex6(d)) by {
                assert forall|i: int| 0 <= i < 6 implies is_hex_digit(#[trigger] d[i]) by {
                    if i == 0 || i == 1 {
                    } else if i == 2 || i == 3 {
                    } else {
                    }
                }
            }
            Ok((r, g, b))
        },
        _ => {
            assert(!all_hex6(d)) by {
                if r is None {
                    assert(!is_hex_digit(d[0]) || !is_hex_digit(d[1]));
                } else if g is None {
                    assert(!is_hex_digit(d[2]) || !is_hex_digit(d[3]));
                } else {
                    assert(!is_hex_digit(d[4]) || !is_hex_digit(d[5]));
                }
            }
            Err(ParseError::NotHex)
        },
    }
}

fn hex_digit_byte(v: u8) -> (r: u8)
    requires
        v < 16,
    ensures
        r == hex_digit_char(v as nat),
{
    if v < 10 {
        48 + v
    } else {
        55 + v
    }
}

/// Writes a colour as `#RRGGBB` with upper-case digits.
pub fn rgb_to_hex(c: (u8, u8, u8)) -> (r: Vec<u8>)
    ensures
        r@ == hex_code(c),
{
    let mut out: Vec<u8> = Vec::new();
    out.push(35u8);
    out.push(hex_digit_byte(c.0 / 16));
    out.push(hex_digit_byte(c.0 % 16));
    out.push(hex_digit_byte(c.1 / 16));
    out.push(hex_digit_byte(c.1 % 16));
    out.push(hex_digit_byte(c.2 / 16));
    out.push(hex_digit_byte(c.2 % 16));
    assert(out@ =~= hex_code(c));
    out
}

proof fn lemma_digit_round_trip(v: nat)
    requires
        v < 16,
    ensures
        hex_digit_value(hex_digit_char(v)) == Some(v),
{
}

proof fn lemma_char_round_trip(b: u8)
    requires
        is_hex_digit(b),
    ensures
        hex_digit_char(hex_digit_value(b)->0) == upper_digit(b),
{
}

/// Writing a colour as a hex code and reading it back gives the same colour.
pub proof fn lemma_hex_round_trip(c: (u8, u8, u8))
    ensures
        parse_code(hex_code(c)) == Ok::<(u8, u8, u8), ParseError>(c),
{
    let s = hex_code(c);
    let d = code_digits(s);
    assert(d =~= s.drop_first());
    lemma_digit_round_trip(c.0 as nat / 16);
    lemma_digit_round_trip(c.0 as nat % 16);
    lemma_digit_round_trip(c.1 as nat / 16);
    lemma_digit_round_trip(c.1 as nat % 16);
    lemma_digit_round_trip(c.2 as nat / 16);
    lemma_digit_round_trip(c.2 as nat % 16);
    assert(all_hex6(d));
}

/// Reading a six-digit hex code and writing the colour back gives the same
/// code, with a leading `#` and upper-case digits.
pub proof fn lemma_code_round_trip(s: Seq<u8>)
    requires
        code_digits(s).len() == 6,
        all_hex6(code_digits(s)),
    ensures
        parse_code(s) matches Ok(c) && hex_code(c) == seq![35u8] + code_digits(s).map_values(
            |b: u8| upper_digit(b),
        ),
{
    let d = code_digits(s);
    let c = parse_code(s)->Ok_0;
    assert forall|i: int| 0 <= i < 6 implies hex_digit_char(hex_digit_value(#[trigger] d[i])->0)
        == upper_digit(d[i]) by {
        lemma_char_round_trip(d[i]);
    }
    assert forall|i: int| 0 <= i < 6 implies (hex_digit_value(#[trigger] d[i])->0 < 16) by {}
    assert(c.0 as nat / 16 == hex_digit_value(d[0])->0 && c.0 as nat % 16 == hex_digit_value(
        d[1],
    )->0);
    assert(c.1 as nat / 16 == hex_digit_value(d[2])->0 && c.1 as nat % 16 == hex_digit_value(
        d[3],
    )->0);
    assert(c.2 as nat / 16 == hex_digit_value(d[4])->0 && c.2 as nat % 16 == hex_digit_value(
        d[5],
    )->0);
    assert(hex_code(c) =~= seq![35u8] + d.map_values(|b: u8| upper_digit(b)));
}

} // verus!
