//! RGBA colors with 8-bit channels.
use vstd::prelude::*;

verus! {

#[verifier::external_type_specification]
#[verifier::external_body]
pub struct ExParseIntError(std::num::ParseIntError);

/// An RGBA color; each channel runs from 0 to 255, and an alpha of 255 is
/// fully opaque.
#[derive(Copy, Clone, Debug, PartialEq, Eq, Structural)]
pub struct Color {
    pub r: u8,
    pub g: u8,
    pub b: u8,
    pub a: u8,
}

/// The value of a hexadecimal digit of either case.
pub open spec fn hex_digit(c: char) -> Option<int> {
    if '0' <= c && c <= '9' {
        Some(c as int - '0' as int)
    } else if 'a' <= c && c <= 'f' {
        Some(c as int - 'a' as int + 10)
    } else if 'A' <= c && c <= 'F' {
        Some(c as int - 'A' as int + 10)
    } else {
        None
    }
}

/// The value of a non-empty run of hexadecimal digits.
pub open spec fn hex_digits(s: Seq<char>) -> Option<int>
    decreases s.len(),
{
    if s.len() == 0 {
        None
    } else if s.len() == 1 {
        hex_digit(s[0])
    } else {
        match (hex_digits(s.drop_last()), hex_digit(s.last())) {
            (Some(high), Some(low)) => Some(high * 16 + low),
            _ => None,
        }
    }
}

/// The integer that `s` spells in base 16: an optional `+` or `-` followed by
/// digits, with no other characters, and within the range of `i32`.
pub open spec fn hex_i32(s: Seq<char>) -> Option<int> {
    let v = if s.len() > 0 && s[0] == '-' {
        match hex_digits(s.drop_first()) {
            Some(d) => Some(-d),
            None => None,
        }
    } else if s.len() > 0 && s[0] == '+' {
        hex_digits(s.drop_first())
    } else {
        hex_digits(s)
    };
    match v {
        Some(n) => if i32::MIN <= n <= i32::MAX {
            Some(n)
        } else {
            None
        },
        None => None,
    }
}

/// Division rounding toward zero, as Rust's `/` on signed integers.
pub open spec fn trunc_div(a: int, d: int) -> int {
    if a >= 0 {
        a / d
    } else {
        -((-a) / d)
    }
}

/// Remainder taking the sign of the dividend, as Rust's `%` on signed integers.
pub open spec fn trunc_rem(a: int, d: int) -> int {
    a - d * trunc_div(a, d)
}

/// The color that a packed `0xRRGGBB` value gives: blue from the low byte,
/// green from the next, red from what lies above; each channel keeps the low
/// eight bits of its part, and the color is opaque.
pub open spec fn color_of_packed(v: int) -> Color {
    let b = trunc_rem(v, 256);
    let g = trunc_rem(trunc_div(v - b, 256), 256);
    let r = trunc_div(v - g, 65536);
    Color { r: r as u8, g: g as u8, b: b as u8, a: 255 }
}

/// Relies on `i32::from_str_radix` with radix 16: it accepts exactly an
/// optional sign followed by one or more hexadecimal digits whose value fits
/// an `i32`, and returns that value.
#[verifier::external_body]
fn parse_hex_i32(s: &str) -> (r: Result<i32, std::num::ParseIntError>)
    ensures
        r is Ok <==> hex_i32(s@) is Some,
        r is Ok ==> hex_i32(s@) == Some(r->Ok_0 as int),
{
    i32::from_str_radix(s, 16)
}

fn div_toward_zero(a: i64, d: i64) -> (q: i64)
    requires
        d > 0,
        -0x1_0000_0000 <= a <= 0x1_0000_0000,
    ensures
        q == trunc_div(a as int, d as int),
        -0x1_0000_0000 <= q <= 0x1_0000_0000,
{
    if a >= 0 {
        a / d
    } else {
        -((-a) / d)
    }
}

impl Color {
    pub fn new(r: u8, g: u8, b: u8, a: u8) -> (c: Color)
        ensures
            c == (Color { r, g, b, a }),
    {
        Color { r, g, b, a }
    }

    pub open spec fn black_spec() -> Color {
        Color { r: 0, g: 0, b: 0, a: 255 }
    }

    #[verifier::when_used_as_spec(black_spec)]
    pub fn black() -> (c: Color)
        ensures
            c == (Color { r: 0, g: 0, b: 0, a: 255 }),
    {
        Color { r: 0, g: 0, b: 0, a: 255 }
    }

    pub open spec fn white_spec() -> Color {
        Color { r: 255, g: 255, b: 255, a: 255 }
    }

    #[verifier::when_used_as_spec(white_spec)]
    pub fn white() -> (c: Color)
        ensures
            c == (Color { r: 255, g: 255, b: 255, a: 255 }),
    {
        Color { r: 255, g: 255, b: 255, a: 255 }
    }

    pub open spec fn gray_spec() -> Color {
        Color { r: 150, g: 150, b: 150, a: 255 }
    }

    #[verifier::when_used_as_spec(gray_spec)]
    pub fn gray() -> (c: Color)
        ensures
            c == (Color { r: 150, g: 150, b: 150, a: 255 }),
    {
        Color { r: 150, g: 150, b: 150, a: 255 }
    }

    /// Fully transparent black.
    pub open spec fn transparent_spec() -> Color {
        Color { r: 0, g: 0, b: 0, a: 0 }
    }

    #[verifier::when_used_as_spec(transparent_spec)]
    pub fn transparent() -> (c: Color)
        ensures
            c == (Color { r: 0, g: 0, b: 0, a: 0 }),
    {
        Color { r: 0, g: 0, b: 0, a: 0 }
    }

    /// Reads an opaque color from hexadecimal text such as `"ff8000"`.
    pub fn from_hex(color_hex_str: &str) -> (r: Result<Color, std::num::ParseIntError>)
        ensures
            r is Ok <==> hex_i32(color_hex_str@) is Some,
            r is Ok ==> r->Ok_0 == color_of_packed(hex_i32(color_hex_str@)->0),
    {
        let color = match parse_hex_i32(color_hex_str) {
            Ok(v) => v as i64,
            Err(e) => {
                return Err(e);
            },
        };
        let q: i64 = div_toward_zero(color, 256);
        let b: i64 = color - 256 * q;
        let g0: i64 = div_toward_zero(color - b, 256);
        let g: i64 = g0 - 256 * div_toward_zero(g0, 256);
        let r: i64 = div_toward_zero(color - g, 65536);
        Ok(Color { r: r as u8, g: g as u8, b: b as u8, a: 255 })
    }
}

} // verus!
