//! Bit fields of a message held one bit per byte, most significant first.

use crate::radix::{digits, in_base, value};
use vstd::arithmetic::power::pow;
use vstd::prelude::*;

verus! {

/// The low bits of `msg`, one per byte.
pub open spec fn bits(msg: Seq<u8>) -> Seq<nat> {
    Seq::new(msg.len(), |i: int| (msg[i] % 2) as nat)
}

/// The unsigned number in the `len` bits from `start` on.
pub open spec fn field(msg: Seq<u8>, start: int, len: int) -> nat {
    value(bits(msg.subrange(start, start + len)), 2)
}

/// `msg` with `val` written over the `len` bits from `start` on.
pub open spec fn with_field(msg: Seq<u8>, start: int, len: nat, val: nat) -> Seq<u8> {
    Seq::new(
        msg.len(),
        |i: int|
            if start <= i < start + len {
                digits(val, 2, len)[i - start] as u8
            } else {
                msg[i]
            },
    )
}

pub proof fn lemma_pow2_values()
    ensures
        pow(2, 1) == 2,
        pow(2, 2) == 4,
        pow(2, 3) == 8,
        pow(2, 5) == 32,
        pow(2, 10) == 1024,
        pow(2, 12) == 4096,
        pow(2, 13) == 8192,
        pow(2, 15) == 32768,
        pow(2, 16) == 65536,
        pow(2, 22) == 4194304,
        pow(2, 23) == 8388608,
        pow(2, 24) == 16777216,
        pow(2, 25) == 33554432,
        pow(2, 28) == 268435456,
        pow(2, 58) == 288230376151711744,
        pow(2, 71) == 2361183241434822606848,
{
    reveal(pow);
    assert(pow(2, 10) == 1024) by {
        reveal_with_fuel(pow, 11);
    }
    assert(pow(2, 1) == 2 && pow(2, 2) == 4 && pow(2, 3) == 8 && pow(2, 5) == 32) by {
        reveal_with_fuel(pow, 6);
    }
    assert(pow(2, 20) == 1048576) by {
        vstd::arithmetic::power::lemma_pow_adds(2, 10, 10);
    }
    assert(pow(2, 12) == 4096) by {
        vstd::arithmetic::power::lemma_pow_adds(2, 10, 2);
    }
    assert(pow(2, 13) == 8192) by {
        vstd::arithmetic::power::lemma_pow_adds(2, 10, 3);
    }
    assert(pow(2, 15) == 32768) by {
        vstd::arithmetic::power::lemma_pow_adds(2, 10, 5);
    }
    assert(pow(2, 16) == 65536) by {
        vstd::arithmetic::power::lemma_pow_adds(2, 15, 1);
    }
    assert(pow(2, 22) == 4194304) by {
        vstd::arithmetic::power::lemma_pow_adds(2, 20, 2);
    }
    assert(pow(2, 23) == 8388608) by {
        vstd::arithmetic::power::lemma_pow_adds(2, 20, 3);
    }
    assert(pow(2, 24) == 16777216) by {
        vstd::arithmetic::power::lemma_pow_adds(2, 23, 1);
    }
    assert(pow(2, 25) == 33554432) by {
        vstd::arithmetic::power::lemma_pow_adds(2, 20, 5);
    }
    assert(pow(2, 28) == 268435456) by {
        vstd::arithmetic::power::lemma_pow_adds(2, 25, 3);
    }
    assert(pow(2, 56) == 72057594037927936) by {
        vstd::arithmetic::power::lemma_pow_adds(2, 28, 28);
    }
    assert(pow(2, 58) == 288230376151711744) by {
        vstd::arithmetic::power::lemma_pow_adds(2, 56, 2);
    }
    assert(pow(2, 71) == 2361183241434822606848) by {
        vstd::arithmetic::power::lemma_pow_adds(2, 58, 13);
    }
}

/// A field of `len` bits is below `2^len`.
pub proof fn lemma_field_bound(msg: Seq<u8>, start: int, len: int)
    requires
        0 <= start,
        0 <= len,
        start + len <= msg.len(),
    ensures
        field(msg, start, len) < pow(2, len as nat),
{
    let b = bits(msg.subrange(start, start + len));
    assert(in_base(b, 2));
    crate::radix::lemma_value_bound(b, 2);
}

/// A field written is the field read.
pub proof fn lemma_field_of_with_field(msg: Seq<u8>, start: int, len: nat, val: nat)
    requires
        0 <= start,
        start + len <= msg.len(),
        val < pow(2, len),
    ensures
        field(with_field(msg, start, len, val), start, len as int) == val,
{
    let d = digits(val, 2, len);
    crate::radix::lemma_digits_in_base(val, 2, len);
    crate::radix::lemma_value_of_digits(val, 2, len);
    let w = with_field(msg, start, len, val);
    let b = bits(w.subrange(start, start + len));
    assert forall|i: int| 0 <= i < len implies b[i] == d[i] by {
        assert(d[i] < 2);
        assert(w.subrange(start, start + len)[i] == d[i] as u8);
    }
    assert(b =~= d);
}

/// Writing a field leaves every field apart from it as it was.
pub proof fn lemma_field_elsewhere(
    msg: Seq<u8>,
    start: int,
    len: nat,
    val: nat,
    at: int,
    n: int,
)
    requires
        0 <= start,
        start + len <= msg.len(),
        0 <= at,
        0 <= n,
        at + n <= msg.len(),
        at + n <= start || start + len <= at,
    ensures
        field(with_field(msg, start, len, val), at, n) == field(msg, at, n),
{
    assert(with_field(msg, start, len, val).subrange(at, at + n) =~= msg.subrange(at, at + n));
}

/// Read `len` bits starting at `start`, most significant first.
pub fn read_bits(msg: &[u8], start: usize, len: usize) -> (n: u32)
    requires
        start + len <= msg.len(),
        len <= 28,
    ensures
        n == field(msg@, start as int, len as int),
        n < pow(2, len as nat),
{
    let mut n: u32 = 0;
    let mut i: usize = 0;
    proof {
        lemma_pow2_values();
        assert(msg@.subrange(start as int, start as int) =~= Seq::<u8>::empty());
        assert(bits(Seq::<u8>::empty()) =~= Seq::<nat>::empty());
    }
    while i < len
        invariant
            i <= len,
            len <= 28,
            start + len <= msg.len(),
            n == field(msg@, start as int, i as int),
        decreases len - i,
    {
        proof {
            lemma_field_bound(msg@, start as int, i as int);
            vstd::arithmetic::power::lemma_pow_increases(2, i as nat, 27);
            lemma_pow2_values();
            vstd::arithmetic::power::lemma_pow_adds(2, 25, 2);
            let b = bits(msg@.subrange(start as int, start + i + 1));
            assert(b.drop_last() =~= bits(msg@.subrange(start as int, start + i)));
        }
        n = n * 2 + (msg[start + i] % 2) as u32;
        i += 1;
    }
    proof {
        lemma_field_bound(msg@, start as int, len as int);
    }
    n
}

/// [`read_bits`] for the wide fields.
pub fn read_bits_wide(msg: &[u8], start: usize, len: usize) -> (n: u128)
    requires
        start + len <= msg.len(),
        len <= 71,
    ensures
        n == field(msg@, start as int, len as int),
        n < pow(2, len as nat),
{
    let mut n: u128 = 0;
    let mut i: usize = 0;
    proof {
        assert(msg@.subrange(start as int, start as int) =~= Seq::<u8>::empty());
        assert(bits(Seq::<u8>::empty()) =~= Seq::<nat>::empty());
    }
    while i < len
        invariant
            i <= len,
            len <= 71,
            start + len <= msg.len(),
            n == field(msg@, start as int, i as int),
        decreases len - i,
    {
        proof {
            lemma_field_bound(msg@, start as int, i as int);
            vstd::arithmetic::power::lemma_pow_increases(2, i as nat, 71);
            lemma_pow2_values();
            let b = bits(msg@.subrange(start as int, start + i + 1));
            assert(b.drop_last() =~= bits(msg@.subrange(start as int, start + i)));
        }
        n = n * 2 + (msg[start + i] % 2) as u128;
        i += 1;
    }
    proof {
        lemma_field_bound(msg@, start as int, len as int);
    }
    n
}

/// Write the `len` low bits of `val` from `start` on, most significant
/// first.
pub fn write_bits(msg: &mut [u8; 77], start: usize, len: usize, val: u128)
    requires
        start + len <= 77,
    ensures
        final(msg)@ == with_field(old(msg)@, start as int, len as nat, val as nat),
{
    let mut v: u128 = val;
    let mut k: usize = len;
    let ghost d = digits(val as nat, 2, len as nat);
    proof {
        crate::radix::lemma_digits_in_base(val as nat, 2, len as nat);
        assert(d.subrange(0, len as int) =~= d);
    }
    while k > 0
        invariant
            k <= len,
            start + len <= 77,
            d == digits(val as nat, 2, len as nat),
            d.len() == len,
            in_base(d, 2),
            d.subrange(0, k as int) == digits(v as nat, 2, k as nat),
            forall|i: int|
                0 <= i < 77 ==> #[trigger] msg@[i] == if start + k <= i < start + len {
                    d[i - start] as u8
                } else {
                    old(msg)@[i]
                },
        decreases k,
    {
        proof {
            let p = digits(v as nat / 2, 2, (k - 1) as nat);
            crate::radix::lemma_digits_len(v as nat / 2, 2, (k - 1) as nat);
            assert(d.subrange(0, k as int) == p.push(v as nat % 2));
            assert(d[k - 1] == d.subrange(0, k as int)[k - 1]);
            assert(d.subrange(0, k - 1) =~= d.subrange(0, k as int).drop_last());
            assert(p.push(v as nat % 2).drop_last() =~= p);
        }
        k -= 1;
        msg[start + k] = (v % 2) as u8;
        v = v / 2;
    }
    assert(msg@ =~= with_field(old(msg)@, start as int, len as nat, val as nat));
}

// ── Laws ────────────────────────────────────────────────────────────────────

/// A field is its bits in order, the most significant first: one bit more
/// doubles it and adds that bit.
pub proof fn law_fields_are_most_significant_first(msg: Seq<u8>, start: int, len: int)
    requires
        0 <= start,
        0 <= len,
        start + len < msg.len(),
    ensures
        field(msg, start, 0) == 0,
        field(msg, start, 1) == msg[start] % 2,
        field(msg, start, len + 1) == 2 * field(msg, start, len) + msg[start + len] % 2,
{
    assert(bits(msg.subrange(start, start)) =~= Seq::<nat>::empty());
    let one = bits(msg.subrange(start, start + 1));
    assert(one.drop_last() =~= Seq::<nat>::empty());
    assert(one.last() == (msg[start] % 2) as nat);
    assert(value(one, 2) == value(one.drop_last(), 2) * 2 + one.last());
    assert(value(one.drop_last(), 2) == 0);
    let b = bits(msg.subrange(start, start + len + 1));
    assert(b.drop_last() =~= bits(msg.subrange(start, start + len)));
    assert(b.last() == (msg[start + len] % 2) as nat);
}

/// A field in two parts: the first weighs as much as the second has room.
pub proof fn law_fields_join(msg: Seq<u8>, start: int, a: int, b: int)
    requires
        0 <= start,
        0 <= a,
        0 <= b,
        start + a + b <= msg.len(),
    ensures
        field(msg, start, a + b) == field(msg, start, a) * pow(2, b as nat) + field(
            msg,
            start + a,
            b,
        ),
    decreases b,
{
    reveal(pow);
    if b == 0 {
        assert(bits(msg.subrange(start + a, start + a)) =~= Seq::<nat>::empty());
    } else {
        law_fields_join(msg, start, a, b - 1);
        law_fields_are_most_significant_first(msg, start, a + b - 1);
        law_fields_are_most_significant_first(msg, start + a, b - 1);
        let f = field(msg, start, a) as int;
        let p = pow(2, (b - 1) as nat);
        assert(2 * (f * p) == f * (2 * p)) by (nonlinear_arith);
    }
}

}
