//! Byte classes shared by the two normalizers, and their branch-free tests.

use vstd::prelude::*;
use crate::ct::{and_bit, bit, eq_bit, in_range_bit, or_bit};
use crate::mode::CONSTANT_TIME;

verus! {

pub const SPACE: u8 = 0x20;

pub const TAB: u8 = 0x09;

pub const SLASH: u8 = 0x2f;

pub const BACKSLASH: u8 = 0x5c;

pub const PERCENT: u8 = 0x25;

pub const SEMICOLON: u8 = 0x3b;

pub const EQUALS: u8 = 0x3d;

pub const QUOTE: u8 = 0x22;

pub const DELETE: u8 = 0x7f;

/// Space or horizontal tab: the bytes that may surround a component.
pub open spec fn is_ws(b: u8) -> bool {
    b == SPACE || b == TAB
}

/// A path separator, in either style.
pub open spec fn is_sep(b: u8) -> bool {
    b == SLASH || b == BACKSLASH
}

/// An ASCII decimal digit.
pub open spec fn is_digit(b: u8) -> bool {
    0x30 <= b <= 0x39
}

/// An ASCII upper-case letter.
pub open spec fn is_upper(b: u8) -> bool {
    0x41 <= b <= 0x5a
}

/// A hexadecimal digit, in either case.
pub open spec fn is_hex(b: u8) -> bool {
    is_digit(b) || (0x41 <= b <= 0x46) || (0x61 <= b <= 0x66)
}

/// The upper-case form of a hexadecimal digit; other bytes are unchanged.
pub open spec fn hex_upper(b: u8) -> u8 {
    if 0x61 <= b <= 0x66 {
        (b - 0x20) as u8
    } else {
        b
    }
}

/// The lower-case form of an ASCII letter; other bytes are unchanged.
pub open spec fn lower(b: u8) -> u8 {
    if is_upper(b) {
        (b + 0x20) as u8
    } else {
        b
    }
}

/// A byte that may stand inside a reference: anything but a space, a
/// control byte or DEL. Bytes above 0x7f pass through untouched.
pub open spec fn is_ref_byte(b: u8) -> bool {
    b > SPACE && b != DELETE
}

/// A token byte of a media type: a letter, a digit, or one of
/// ``! # $ % & ' * + - . ^ _ ` | ~``.
pub open spec fn is_tchar(b: u8) -> bool {
    ||| b == 0x21
    ||| 0x23 <= b <= 0x27
    ||| 0x2a <= b <= 0x2b
    ||| 0x2d <= b <= 0x2e
    ||| 0x30 <= b <= 0x39
    ||| 0x41 <= b <= 0x5a
    ||| 0x5e <= b <= 0x7a
    ||| b == 0x7c
    ||| b == 0x7e
}

/// A byte that may stand inside a quoted parameter value: a tab, or
/// anything from a space up except DEL.
pub open spec fn is_qchar(b: u8) -> bool {
    b == TAB || (b >= SPACE && b != DELETE)
}

pub fn ws_bit(b: u8) -> (r: u8)
    ensures
        r == bit(is_ws(b)),
{
    or_bit(eq_bit(b, SPACE), eq_bit(b, TAB))
}

pub fn sep_bit(b: u8) -> (r: u8)
    ensures
        r == bit(is_sep(b)),
{
    or_bit(eq_bit(b, SLASH), eq_bit(b, BACKSLASH))
}

pub fn hex_bit(b: u8) -> (r: u8)
    ensures
        r == bit(is_hex(b)),
{
    or_bit(
        in_range_bit(b, 0x30, 0x39),
        or_bit(in_range_bit(b, 0x41, 0x46), in_range_bit(b, 0x61, 0x66)),
    )
}

pub fn ref_byte_bit(b: u8) -> (r: u8)
    ensures
        r == bit(is_ref_byte(b)),
{
    and_bit(in_range_bit(b, 0x21, 0xff), 1 - eq_bit(b, DELETE))
}

pub fn tchar_bit(b: u8) -> (r: u8)
    ensures
        r == bit(is_tchar(b)),
{
    let low: u8 = or_bit(
        or_bit(eq_bit(b, 0x21), in_range_bit(b, 0x23, 0x27)),
        or_bit(in_range_bit(b, 0x2a, 0x2b), in_range_bit(b, 0x2d, 0x2e)),
    );
    let mid: u8 = or_bit(
        or_bit(in_range_bit(b, 0x30, 0x39), in_range_bit(b, 0x41, 0x5a)),
        in_range_bit(b, 0x5e, 0x7a),
    );
    let high: u8 = or_bit(eq_bit(b, 0x7c), eq_bit(b, 0x7e));
    or_bit(or_bit(low, mid), high)
}

pub fn qchar_bit(b: u8) -> (r: u8)
    ensures
        r == bit(is_qchar(b)),
{
    or_bit(eq_bit(b, TAB), and_bit(in_range_bit(b, SPACE, 0xff), 1 - eq_bit(b, DELETE)))
}

/// Upper-cases a hexadecimal digit without branching.
pub fn to_hex_upper(b: u8) -> (r: u8)
    ensures
        r == hex_upper(b),
{
    b - 0x20 * in_range_bit(b, 0x61, 0x66)
}

/// Lower-cases an ASCII letter without branching.
pub fn to_lower(b: u8) -> (r: u8)
    ensures
        r == lower(b),
{
    b + 0x20 * in_range_bit(b, 0x41, 0x5a)
}

/// Whether `b` is a space or a tab, by comparison.
pub fn ws_byte_std(b: u8) -> (r: bool)
    ensures
        r == is_ws(b),
{
    b == SPACE || b == TAB
}

/// Whether `b` is a token byte, by comparison.
pub fn token_byte_std(b: u8) -> (r: bool)
    ensures
        r == is_tchar(b),
{
    b == 0x21 || (0x23 <= b && b <= 0x27) || (0x2a <= b && b <= 0x2b) || (0x2d <= b && b <= 0x2e)
        || (0x30 <= b && b <= 0x39) || (0x41 <= b && b <= 0x5a) || (0x5e <= b && b <= 0x7a) || b
        == 0x7c || b == 0x7e
}

/// Whether `b` may stand inside a quoted value, by comparison.
pub fn quoted_byte_std(b: u8) -> (r: bool)
    ensures
        r == is_qchar(b),
{
    b == TAB || (b >= SPACE && b != DELETE)
}

/// The lower-case form of `b`, by comparison.
pub fn lower_byte_std(b: u8) -> (r: u8)
    ensures
        r == lower(b),
{
    if 0x41 <= b && b <= 0x5a {
        b + 0x20
    } else {
        b
    }
}

/// Whether `b` is a space or a tab, tested as the execution mode asks.
pub fn ws_byte(b: u8) -> (r: bool)
    ensures
        r == is_ws(b),
{
    if CONSTANT_TIME {
        ws_bit(b) == 1
    } else {
        ws_byte_std(b)
    }
}

/// Whether `b` is a token byte, tested as the execution mode asks.
pub fn token_byte(b: u8) -> (r: bool)
    ensures
        r == is_tchar(b),
{
    if CONSTANT_TIME {
        tchar_bit(b) == 1
    } else {
        token_byte_std(b)
    }
}

/// Whether `b` may stand inside a quoted value, tested as the execution
/// mode asks.
pub fn quoted_byte(b: u8) -> (r: bool)
    ensures
        r == is_qchar(b),
{
    if CONSTANT_TIME {
        qchar_bit(b) == 1
    } else {
        quoted_byte_std(b)
    }
}

/// The lower-case form of `b`, computed as the execution mode asks.
pub fn lower_byte(b: u8) -> (r: u8)
    ensures
        r == lower(b),
{
    if CONSTANT_TIME {
        to_lower(b)
    } else {
        lower_byte_std(b)
    }
}

} // verus!
