//! Binary-reflected Gray code of a given bit width.
//!
//! One mode maps its 6-bit Reed–Solomon symbols through this, another its
//! 3-bit data symbols.

use vstd::prelude::*;

verus! {

/// The low `bits` bits set.
pub open spec fn mask_of(bits: u32) -> u8 {
    if bits == 1 {
        0x01
    } else if bits == 2 {
        0x03
    } else if bits == 3 {
        0x07
    } else if bits == 4 {
        0x0f
    } else if bits == 5 {
        0x1f
    } else if bits == 6 {
        0x3f
    } else if bits == 7 {
        0x7f
    } else {
        0xff
    }
}

/// Every bit of `n` with its upper neighbour exclusive-ored in, kept to the
/// low `bits` bits.
pub open spec fn gray_of(n: u8, bits: u32) -> u8 {
    (n ^ (n >> 1)) & mask_of(bits)
}

fn mask(bits: u32) -> (m: u8)
    requires
        1 <= bits <= 8,
    ensures
        m == mask_of(bits),
{
    match bits {
        1 => 0x01,
        2 => 0x03,
        3 => 0x07,
        4 => 0x0f,
        5 => 0x1f,
        6 => 0x3f,
        7 => 0x7f,
        _ => 0xff,
    }
}

/// Forward Gray code, masked to the low `bits` bits of the result.
pub fn gray(n: u8, bits: u32) -> (g: u8)
    requires
        1 <= bits <= 8,
    ensures
        g == gray_of(n, bits),
        g <= mask_of(bits),
{
    let m: u8 = mask(bits);
    let g: u8 = (n ^ (n >> 1)) & m;
    assert(((n ^ (n >> 1)) & m) <= m) by (bit_vector);
    g
}

/// Inverse Gray code of the low `bits` bits of `g`: the one number of that
/// width whose Gray code they are.
pub fn inv_gray(g: u8, bits: u32) -> (n: u8)
    requires
        1 <= bits <= 8,
    ensures
        n <= mask_of(bits),
        gray_of(n, bits) == g & mask_of(bits),
{
    let m: u8 = mask(bits);
    let a: u8 = g & m;
    let b: u8 = a ^ (a >> 1);
    let c: u8 = b ^ (b >> 2);
    let n: u8 = c ^ (c >> 4);
    assert(n <= m && ((n ^ (n >> 1)) & m) == a) by (bit_vector)
        requires
            m == 1 || m == 3 || m == 7 || m == 15 || m == 31 || m == 63 || m == 127 || m == 255,
            a == g & m,
            b == a ^ (a >> 1),
            c == b ^ (b >> 2),
            n == c ^ (c >> 4),
    ;
    n
}

/// Decoding undoes encoding: a number of the width is the only one of the
/// width with its Gray code.
pub proof fn law_gray_is_injective(a: u8, b: u8, bits: u32)
    requires
        1 <= bits <= 8,
        a <= mask_of(bits),
        b <= mask_of(bits),
        gray_of(a, bits) == gray_of(b, bits),
    ensures
        a == b,
{
    let m = mask_of(bits);
    assert(m == 1 || m == 3 || m == 7 || m == 15 || m == 31 || m == 63 || m == 127 || m == 255);
    assert(a == b) by (bit_vector)
        requires
            m == 1 || m == 3 || m == 7 || m == 15 || m == 31 || m == 63 || m == 127 || m == 255,
            a <= m,
            b <= m,
            (a ^ (a >> 1)) & m == (b ^ (b >> 1)) & m,
    ;
}

/// The codes of adjacent numbers differ in exactly one bit.
pub proof fn law_adjacent_codes_differ_in_one_bit(n: u8, bits: u32)
    requires
        1 <= bits <= 8,
        n < mask_of(bits),
    ensures
        ({
            let x = gray_of(n, bits) ^ gray_of((n + 1) as u8, bits);
            x != 0 && x & ((x - 1) as u8) == 0
        }),
{
    let m = mask_of(bits);
    let k: u8 = (n + 1) as u8;
    let x = gray_of(n, bits) ^ gray_of(k, bits);
    assert(m == 1 || m == 3 || m == 7 || m == 15 || m == 31 || m == 63 || m == 127 || m == 255);
    assert(x != 0 && x & ((x - 1) as u8) == 0) by (bit_vector)
        requires
            m == 1 || m == 3 || m == 7 || m == 15 || m == 31 || m == 63 || m == 127 || m == 255,
            n < m,
            k == (n + 1) as u8,
            x == ((n ^ (n >> 1)) & m) ^ ((k ^ (k >> 1)) & m),
    ;
}

}
