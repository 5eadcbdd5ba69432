//! Branch-free selection and comparison on bytes.
//!
//! Every function here computes its result with arithmetic and bitwise
//! operations only; none branches on, or indexes memory by, the value of an
//! argument. Decisions are carried as a bit (`0` or `1`).

use vstd::prelude::*;

verus! {

/// `1` when the condition holds, `0` otherwise.
pub open spec fn bit(c: bool) -> u8 {
    if c {
        1
    } else {
        0
    }
}

/// The bit of `x != 0`.
pub fn nonzero_bit(x: u8) -> (r: u8)
    ensures
        r == bit(x != 0),
{
    let w: u32 = (x as u32) + 0xff;
    let t: u32 = w >> 8;
    assert(t == (if w >= 0x100 { 1u32 } else { 0u32 })) by (bit_vector)
        requires
            w <= 0x1fe,
            t == w >> 8,
    ;
    t as u8
}

/// The bit of `a == b`.
pub fn eq_bit(a: u8, b: u8) -> (r: u8)
    ensures
        r == bit(a == b),
{
    let x: u8 = a ^ b;
    assert((x == 0) == (a == b)) by (bit_vector)
        requires
            x == a ^ b,
    ;
    1 - nonzero_bit(x)
}

/// The bit of `a >= b`.
pub fn ge_bit(a: u8, b: u8) -> (r: u8)
    ensures
        r == bit(a >= b),
{
    let w: u32 = (a as u32) + 0x100 - (b as u32);
    let t: u32 = w >> 8;
    assert(t == (if w >= 0x100 { 1u32 } else { 0u32 })) by (bit_vector)
        requires
            w <= 0x1ff,
            t == w >> 8,
    ;
    t as u8
}

/// The bit of `lo <= x <= hi`.
pub fn in_range_bit(x: u8, lo: u8, hi: u8) -> (r: u8)
    ensures
        r == bit(lo <= x && x <= hi),
{
    and_bit(ge_bit(x, lo), ge_bit(hi, x))
}

/// Conjunction of two bits.
pub fn and_bit(p: u8, q: u8) -> (r: u8)
    requires
        p <= 1,
        q <= 1,
    ensures
        r == bit(p == 1 && q == 1),
{
    let r: u8 = p & q;
    assert(r == (if p == 1 && q == 1 { 1u8 } else { 0u8 })) by (bit_vector)
        requires
            p <= 1,
            q <= 1,
            r == p & q,
    ;
    r
}

/// Disjunction of two bits.
pub fn or_bit(p: u8, q: u8) -> (r: u8)
    requires
        p <= 1,
        q <= 1,
    ensures
        r == bit(p == 1 || q == 1),
{
    let r: u8 = p | q;
    assert(r == (if p == 1 || q == 1 { 1u8 } else { 0u8 })) by (bit_vector)
        requires
            p <= 1,
            q <= 1,
            r == p | q,
    ;
    r
}

/// Negation of a bit.
pub fn not_bit(p: u8) -> (r: u8)
    requires
        p <= 1,
    ensures
        r == bit(p == 0),
{
    1 - p
}

/// `a` when the bit is set, `b` when it is clear.
pub fn select(p: u8, a: u8, b: u8) -> (r: u8)
    requires
        p <= 1,
    ensures
        r == if p == 1 { a } else { b },
{
    let mask: u8 = (p * 0xff) as u8;
    let r: u8 = b ^ (mask & (a ^ b));
    assert(r == (if p == 1 { a } else { b })) by (bit_vector)
        requires
            mask == (if p == 1 { 0xffu8 } else { 0u8 }),
            r == b ^ (mask & (a ^ b)),
    ;
    r
}

/// The bit of `a >= b`, for indices.
pub fn ge_index_bit(a: usize, b: usize) -> (r: u8)
    ensures
        r == bit(a >= b),
{
    let w: u128 = (a as u128) + 0x1_0000_0000_0000_0000 - (b as u128);
    let t: u128 = w >> 64;
    assert(t == (if w >= 0x1_0000_0000_0000_0000 { 1u128 } else { 0u128 })) by (bit_vector)
        requires
            w <= 0x1_ffff_ffff_ffff_ffff,
            t == w >> 64,
    ;
    t as u8
}

/// `a` when the bit is set, `b` when it is clear, for indices.
pub fn select_index(p: u8, a: usize, b: usize) -> (r: usize)
    requires
        p <= 1,
    ensures
        r == if p == 1 { a } else { b },
{
    let x: u64 = a as u64;
    let y: u64 = b as u64;
    let mask: u64 = (p as u64) * 0xffff_ffff_ffff_ffff;
    let r: u64 = y ^ (mask & (x ^ y));
    assert(r == (if p == 1 { x } else { y })) by (bit_vector)
        requires
            mask == (if p == 1 { 0xffff_ffff_ffff_ffffu64 } else { 0u64 }),
            r == y ^ (mask & (x ^ y)),
    ;
    r as usize
}

} // verus!
