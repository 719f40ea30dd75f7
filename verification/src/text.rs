//! Verified text building: appending characters and decimal or
//! zero-padded hexadecimal numbers to a string.

use vstd::prelude::*;
use vstd::string::StringExecFns;

verus! {

/// Relies on `String::push`: appends the given character to the end of the
/// string.
#[verifier::external_body]
pub fn push_char(s: &mut String, c: char)
    ensures
        final(s)@ == old(s)@.push(c),
{
    s.push(c)
}

/// The decimal digit characters of a nonnegative number, most significant
/// first.
pub open spec fn dec_digits(n: int) -> Seq<char>
    decreases n,
{
    if n < 10 {
        seq![digit_char_of(n)]
    } else {
        dec_digits(n / 10).push(digit_char_of(n % 10))
    }
}

/// The character of one decimal digit.
pub open spec fn digit_char_of(d: int) -> char {
    ((0x30 + d) as u8) as char
}

/// The decimal text of a 32-bit signed number: a minus sign and the digits
/// of its magnitude.
pub open spec fn dec_str_i32(n: int) -> Seq<char> {
    if n < 0 {
        seq!['-'] + dec_digits(-n)
    } else {
        dec_digits(n)
    }
}

/// The character of one hexadecimal digit, lower case.
pub open spec fn hex_char_of(d: int) -> char {
    if d < 10 {
        ((0x30 + d) as u8) as char
    } else {
        ((0x61 + (d - 10)) as u8) as char
    }
}

/// The hexadecimal digit characters of a nonnegative number, most
/// significant first.
pub open spec fn hex_digits(n: int) -> Seq<char>
    decreases n,
{
    if n < 16 {
        seq![hex_char_of(n)]
    } else {
        hex_digits(n / 16).push(hex_char_of(n % 16))
    }
}

/// The hexadecimal text of a number, zero-padded to at least four digits.
pub open spec fn hex04(n: int) -> Seq<char> {
    if n < 0x10 {
        seq!['0', '0', '0'] + hex_digits(n)
    } else if n < 0x100 {
        seq!['0', '0'] + hex_digits(n)
    } else if n < 0x1000 {
        seq!['0'] + hex_digits(n)
    } else {
        hex_digits(n)
    }
}

/// Append the decimal digits of `v`.
pub fn push_u32_dec(out: &mut String, v: u32)
    ensures
        final(out)@ == old(out)@ + dec_digits(v as int),
    decreases v,
{
    if v < 10 {
        push_char(out, (0x30u8 + (v as u8)) as char);
        proof {
            assert(out@ =~= old(out)@ + dec_digits(v as int));
        }
    } else {
        push_u32_dec(out, v / 10);
        push_char(out, (0x30u8 + ((v % 10) as u8)) as char);
        proof {
            assert(out@ =~= old(out)@ + dec_digits(v as int));
        }
    }
}

/// Append the decimal text of `v`: a minus sign and the digits of its
/// magnitude.
pub fn push_i32_dec(out: &mut String, v: i32)
    ensures
        final(out)@ == old(out)@ + dec_str_i32(v as int),
{
    if v < 0 {
        push_char(out, '-');
        let mag: u32 = if v == i32::MIN {
            0x8000_0000u32
        } else {
            (-v) as u32
        };
        push_u32_dec(out, mag);
        proof {
            assert(out@ =~= old(out)@ + dec_str_i32(v as int));
        }
    } else {
        push_u32_dec(out, v as u32);
    }
}

/// Append the hexadecimal digits of `v`.
pub fn push_u64_hex(out: &mut String, v: u64)
    ensures
        final(out)@ == old(out)@ + hex_digits(v as int),
    decreases v,
{
    let d = (v % 16) as u8;
    let c = if d < 10 {
        (0x30u8 + d) as char
    } else {
        (0x61u8 + (d - 10)) as char
    };
    if v < 16 {
        push_char(out, c);
        proof {
            assert(out@ =~= old(out)@ + hex_digits(v as int));
        }
    } else {
        push_u64_hex(out, v / 16);
        push_char(out, c);
        proof {
            assert(out@ =~= old(out)@ + hex_digits(v as int));
        }
    }
}

/// Append the hexadecimal text of `v`, zero-padded to at least four
/// digits.
pub fn push_u64_hex04(out: &mut String, v: u64)
    ensures
        final(out)@ == old(out)@ + hex04(v as int),
{
    let ghost before = out@;
    if v < 0x10 {
        push_char(out, '0');
        push_char(out, '0');
        push_char(out, '0');
        proof {
            assert(out@ =~= before + seq!['0', '0', '0']);
        }
    } else if v < 0x100 {
        push_char(out, '0');
        push_char(out, '0');
        proof {
            assert(out@ =~= before + seq!['0', '0']);
        }
    } else if v < 0x1000 {
        push_char(out, '0');
        proof {
            assert(out@ =~= before + seq!['0']);
        }
    }
    push_u64_hex(out, v);
    proof {
        assert(out@ =~= before + hex04(v as int));
    }
}

} // verus!
