//! Frequencies in megahertz, as double-precision arithmetic writes them.

use crate::text::{chars_of, dec_of, padded_left};
use crate::text::{dec, pad_left};
use vstd::arithmetic::power2::pow2;
use vstd::prelude::*;

verus! {

/// `n / d` to the nearest whole number, halves to the even one.
pub open spec fn half_even(n: nat, d: nat) -> nat {
    let q = n / d;
    let r = n % d;
    if 2 * r < d || (2 * r == d && q % 2 == 0) {
        q
    } else {
        q + 1
    }
}

/// How often `n` is doubled before it reaches `floor`.
pub open spec fn doublings(n: nat, floor: nat) -> nat
    decreases
        (if n < floor {
            floor - n
        } else {
            0
        }),
{
    if n == 0 || n >= floor {
        0
    } else {
        1 + doublings(2 * n, floor)
    }
}

/// How often `n` is halved before it is below `2^53`.
pub open spec fn halvings(n: nat) -> nat
    decreases n,
{
    if n < 0x20_0000_0000_0000 {
        0
    } else {
        1 + halvings(n / 2)
    }
}

/// The double-precision number nearest to a whole one.
pub open spec fn as_double(n: nat) -> nat {
    half_even(n, pow2(halvings(n))) * pow2(halvings(n))
}

/// A frequency in `parts` of a megahertz, as its double-precision quotient by
/// a million rounds to them.
pub open spec fn mhz_in(hz: nat, parts: nat) -> nat {
    let h = as_double(hz);
    let e = doublings(h, 0x10_0000_0000_0000 * 1_000_000);
    half_even((half_even((h * pow2(e)) as nat, 1_000_000) * parts) as nat, pow2(e))
}

/// A frequency in megahertz with `places` decimals, of which there are
/// `parts`.
pub open spec fn decimal_mhz(hz: nat, parts: nat, places: nat) -> Seq<char> {
    let t = mhz_in(hz, parts);
    dec(t / parts) + seq!['.'] + pad_left(dec(t % parts), places, '0')
}

fn round_half_even(n: u128, d: u128) -> (r: u128)
    requires
        0 < d < 0x1_0000_0000_0000_0000_0000_0000_0000,
    ensures
        r == half_even(n as nat, d as nat),
        r <= n as int / d as int + 1,
        r <= n + 1,
{
    let q: u128 = n / d;
    let m: u128 = n % d;
    assert(q <= n) by (nonlinear_arith)
        requires
            d > 0,
            q == n / d,
    ;
    if 2 * m < d || (2 * m == d && q % 2 == 0) {
        q
    } else {
        assert(q < n || n == 0 || d == 1) by (nonlinear_arith)
            requires
                d > 0,
                q == n / d,
        ;
        q + 1
    }
}

/// The double nearest to `hz`.
fn nearest_double(hz: u64) -> (h: u128)
    ensures
        h == as_double(hz as nat),
        h <= 0x4_0000_0000_0000_0000,
{
    let mut n: u64 = hz;
    let mut g: u128 = 1;
    let ghost mut k: nat = 0;
    proof {
        vstd::arithmetic::power2::lemma2_to64();
    }
    while n >= 0x20_0000_0000_0000
        invariant
            halvings(hz as nat) == k + halvings(n as nat),
            g == pow2(k),
            g * n <= hz,
            g >= 1,
            g == 1 || g <= hz,
        decreases n,
    {
        let n0: u64 = n;
        proof {
            vstd::arithmetic::power2::lemma_pow2_unfold(k + 1);
            assert(g * 2 * (n0 / 2) <= g * n0) by (nonlinear_arith)
                requires
                    g >= 1,
            ;
            assert(g * 2 <= hz) by (nonlinear_arith)
                requires
                    g >= 1,
                    n0 / 2 >= 1,
                    g * 2 * (n0 / 2) <= hz,
            ;
            k = k + 1;
        }
        n = n / 2;
        g = g * 2;
    }
    let q: u128 = round_half_even(hz as u128, g);
    proof {
        assert(q * g <= hz + g) by (nonlinear_arith)
            requires
                g >= 1,
                q <= hz as int / g as int + 1,
        ;
    }
    q * g
}

/// A frequency in `parts` of a megahertz.
fn in_parts(hz: u64, parts: u32) -> (r: u128)
    ensures
        r == mhz_in(hz as nat, parts as nat),
{
    let h: u128 = nearest_double(hz);
    let top: u128 = 0x10_0000_0000_0000 * 1_000_000;
    let mut v: u128 = h;
    let mut g: u128 = 1;
    let ghost mut e: nat = 0;
    proof {
        vstd::arithmetic::power2::lemma2_to64();
    }
    while v != 0 && v < top
        invariant
            top == 0x10_0000_0000_0000 * 1_000_000,
            doublings(h as nat, top as nat) == e + doublings(v as nat, top as nat),
            g == pow2(e),
            v == h * g,
            g >= 1,
            v <= 2 * top,
            g == 1 || g <= v,
        decreases
            (if v < top {
                top - v
            } else {
                0
            }),
    {
        proof {
            vstd::arithmetic::power2::lemma_pow2_unfold(e + 1);
            assert(h * (g * 2) == (h * g) * 2) by (nonlinear_arith);
            e = e + 1;
        }
        v = v * 2;
        g = g * 2;
    }
    let m: u128 = round_half_even(v, 1_000_000);
    assert(0 <= m * parts <= m * 0xffff_ffff) by (nonlinear_arith)
        requires
            0 <= m,
            0 <= parts <= 0xffff_ffff,
    ;
    round_half_even(m * parts as u128, g)
}

/// A frequency in megahertz, written out.
pub fn mhz_decimal(hz: u64, parts: u32, places: usize) -> (r: Vec<char>)
    requires
        parts > 0,
    ensures
        r@ == decimal_mhz(hz as nat, parts as nat, places as nat),
{
    let t: u128 = in_parts(hz, parts);
    let mut d = dec_of(t / parts as u128);
    d.push('.');
    let f = dec_of(t % parts as u128);
    let p = padded_left(f.as_slice(), places, '0');
    let mut pc = chars_of(p.as_str());
    let ghost d0 = d@;
    d.append(&mut pc);
    assert(d0 =~= dec(t as nat / parts as nat) + seq!['.']);
    d
}

proof fn lemma_doublings(n: nat, floor: nat)
    requires
        n > 0,
    ensures
        n * pow2(doublings(n, floor)) >= floor,
    decreases
        (if n < floor {
            floor - n
        } else {
            0
        }),
{
    vstd::arithmetic::power2::lemma2_to64();
    if n < floor {
        let k = doublings(2 * n, floor);
        lemma_doublings(2 * n, floor);
        vstd::arithmetic::power2::lemma_pow2_unfold(k + 1);
        assert(doublings(n, floor) == k + 1);
        assert(pow2(k + 1) == 2 * pow2(k));
        assert(n * (2 * pow2(k)) == (2 * n) * pow2(k)) by (nonlinear_arith);
    } else {
        assert(n * pow2(0) == n);
    }
}

/// Rounding is off by half the divisor at most.
proof fn lemma_half_even(n: nat, d: nat)
    requires
        d > 0,
    ensures
        -(d as int) <= 2 * (half_even(n, d) * d - n) <= d,
{
    let q = n as int / d as int;
    let r = n as int % d as int;
    vstd::arithmetic::div_mod::lemma_fundamental_div_mod(n as int, d as int);
    assert(q * d == n - r && (q + 1) * d == n - r + d) by (nonlinear_arith)
        requires
            n == d * q + r,
    ;
}

/// Nearer than half the divisor, rounding finds the whole number.
proof fn lemma_half_even_is(n: nat, d: nat, q: nat)
    requires
        d > 0,
        -(d as int) < 2 * (n - q * d) < d,
    ensures
        half_even(n, d) == q,
{
    let x = n - q * d;
    if x >= 0 {
        vstd::arithmetic::div_mod::lemma_fundamental_div_mod_converse(
            n as int,
            d as int,
            q as int,
            x,
        );
    } else {
        assert(n == (q - 1) * d + (x + d)) by (nonlinear_arith)
            requires
                x == n - q * d,
        ;
        vstd::arithmetic::div_mod::lemma_fundamental_div_mod_converse(
            n as int,
            d as int,
            q - 1,
            x + d,
        );
    }
}

/// To six decimals a frequency below 2^52 Hz is written to the hertz.
pub proof fn law_dials_are_written_to_the_hertz(hz: nat)
    requires
        hz < 0x10_0000_0000_0000,
    ensures
        mhz_in(hz, 1_000_000) == hz,
{
    vstd::arithmetic::power2::lemma2_to64();
    lemma_half_even_is(hz, 1, hz);
    assert(halvings(hz) == 0);
    assert(half_even(hz, pow2(0)) * pow2(0) == hz);
    let top: nat = 0x10_0000_0000_0000 * 1_000_000;
    let e = doublings(hz, top);
    let g = pow2(e);
    vstd::arithmetic::power2::lemma_pow2_pos(e);
    let m = half_even((hz * g) as nat, 1_000_000);
    lemma_half_even((hz * g) as nat, 1_000_000);
    if hz > 0 {
        lemma_doublings(hz, top);
        assert(g > 1_000_000) by (nonlinear_arith)
            requires
                hz * g >= 0x10_0000_0000_0000 * 1_000_000,
                0 < hz < 0x10_0000_0000_0000,
        ;
        lemma_half_even_is((m * 1_000_000) as nat, g, hz);
    } else {
        assert(hz * g == 0) by (nonlinear_arith)
            requires
                hz == 0,
        ;
        lemma_half_even_is((m * 1_000_000) as nat, g, 0);
    }
}

}
