//! Byte-fallback support: encoding a character as its UTF-8 bytes and
//! naming each byte by its `<0xXX>` vocabulary token (two uppercase hex
//! digits).

use vstd::prelude::*;
use vstd::utf8::char_is_scalar;
use vstd::utf8::encode_scalar;

verus! {

/// The character for hex digit `n` (uppercase for 10 to 15).
pub open spec fn spec_hex_char(n: u8) -> char {
    if n == 0 {
        '0'
    } else if n == 1 {
        '1'
    } else if n == 2 {
        '2'
    } else if n == 3 {
        '3'
    } else if n == 4 {
        '4'
    } else if n == 5 {
        '5'
    } else if n == 6 {
        '6'
    } else if n == 7 {
        '7'
    } else if n == 8 {
        '8'
    } else if n == 9 {
        '9'
    } else if n == 10 {
        'A'
    } else if n == 11 {
        'B'
    } else if n == 12 {
        'C'
    } else if n == 13 {
        'D'
    } else if n == 14 {
        'E'
    } else {
        'F'
    }
}

/// The characters of the fallback token that stands for byte `b`.
pub open spec fn byte_token_chars(b: u8) -> Seq<char> {
    seq!['<', '0', 'x', spec_hex_char(b / 16), spec_hex_char(b % 16), '>']
}

fn hex_digit_str(n: u8) -> (r: &'static str)
    requires
        n < 16,
    ensures
        r@ == seq![spec_hex_char(n)],
{
    proof {
        reveal_strlit("0");
        reveal_strlit("1");
        reveal_strlit("2");
        reveal_strlit("3");
        reveal_strlit("4");
        reveal_strlit("5");
        reveal_strlit("6");
        reveal_strlit("7");
        reveal_strlit("8");
        reveal_strlit("9");
        reveal_strlit("A");
        reveal_strlit("B");
        reveal_strlit("C");
        reveal_strlit("D");
        reveal_strlit("E");
        reveal_strlit("F");
    }
    let r: &'static str = if n == 0 {
        "0"
    } else if n == 1 {
        "1"
    } else if n == 2 {
        "2"
    } else if n == 3 {
        "3"
    } else if n == 4 {
        "4"
    } else if n == 5 {
        "5"
    } else if n == 6 {
        "6"
    } else if n == 7 {
        "7"
    } else if n == 8 {
        "8"
    } else if n == 9 {
        "9"
    } else if n == 10 {
        "A"
    } else if n == 11 {
        "B"
    } else if n == 12 {
        "C"
    } else if n == 13 {
        "D"
    } else if n == 14 {
        "E"
    } else {
        "F"
    };
    proof {
        assert(r@ =~= seq![spec_hex_char(n)]);
    }
    r
}

/// The `<0xXX>` fallback token string for byte `b`.
pub fn byte_token(b: u8) -> (r: String)
    ensures
        r@ == byte_token_chars(b),
{
    proof {
        reveal_strlit("<0x");
        reveal_strlit(">");
    }
    let mut s = String::from_str("<0x");
    s.append(hex_digit_str(b / 16));
    s.append(hex_digit_str(b % 16));
    s.append(">");
    proof {
        assert(s@ =~= byte_token_chars(b));
    }
    s
}

/// The UTF-8 encoding of one character, as `vstd::utf8::encode_scalar`
/// gives it.
pub fn utf8_encode_char(c: char) -> (r: Vec<u8>)
    ensures
        r@ == encode_scalar(c as u32),
        1 <= r@.len() <= 4,
{
    proof {
        char_is_scalar(c);
    }
    let u = c as u32;
    let mut v: Vec<u8> = Vec::new();
    if u <= 0x7F {
        v.push((u & 0x7F) as u8);
    } else if u <= 0x7FF {
        v.push(0xC0u8 | (((u >> 6u32) & 0x1F) as u8));
        v.push(0x80u8 | ((u & 0x3F) as u8));
    } else if u <= 0xFFFF {
        v.push(0xE0u8 | (((u >> 12u32) & 0x0F) as u8));
        v.push(0x80u8 | (((u >> 6u32) & 0x3F) as u8));
        v.push(0x80u8 | ((u & 0x3F) as u8));
    } else {
        v.push(0xF0u8 | (((u >> 18u32) & 0x7) as u8));
        v.push(0x80u8 | (((u >> 12u32) & 0x3F) as u8));
        v.push(0x80u8 | (((u >> 6u32) & 0x3F) as u8));
        v.push(0x80u8 | ((u & 0x3F) as u8));
    }
    proof {
        assert(v@ =~= encode_scalar(u));
    }
    v
}

} // verus!
