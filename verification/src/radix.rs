//! Positional notation: digit sequences and the numbers they stand for.

use vstd::arithmetic::power::pow;
use vstd::prelude::*;

verus! {

/// The number whose base-`b` digits are `d`, most significant first.
pub open spec fn value(d: Seq<nat>, b: nat) -> nat
    decreases d.len(),
{
    if d.len() == 0 {
        0
    } else {
        value(d.drop_last(), b) * b + d.last()
    }
}

/// The last `w` base-`b` digits of `n`, most significant first.
pub open spec fn digits(n: nat, b: nat, w: nat) -> Seq<nat>
    decreases w,
{
    if w == 0 {
        Seq::empty()
    } else {
        digits(n / b, b, (w - 1) as nat).push(n % b)
    }
}

/// Every digit is a base-`b` digit.
pub open spec fn in_base(d: Seq<nat>, b: nat) -> bool {
    forall|i: int| 0 <= i < d.len() ==> #[trigger] d[i] < b
}

pub proof fn lemma_digits_len(n: nat, b: nat, w: nat)
    requires
        b > 0,
    ensures
        digits(n, b, w).len() == w,
    decreases w,
{
    if w > 0 {
        lemma_digits_len(n / b, b, (w - 1) as nat);
    }
}

pub proof fn lemma_digits_in_base(n: nat, b: nat, w: nat)
    requires
        b > 0,
    ensures
        in_base(digits(n, b, w), b),
        digits(n, b, w).len() == w,
    decreases w,
{
    lemma_digits_len(n, b, w);
    if w > 0 {
        lemma_digits_in_base(n / b, b, (w - 1) as nat);
        let p = digits(n / b, b, (w - 1) as nat);
        assert(n % b < b) by (nonlinear_arith)
            requires
                b > 0,
        ;
        assert forall|i: int| 0 <= i < w implies #[trigger] digits(n, b, w)[i] < b by {
            if i < w - 1 {
                assert(digits(n, b, w)[i] == p[i]);
            }
        }
    }
}

/// Digits read back from the number they make.
pub proof fn lemma_digits_of_value(d: Seq<nat>, b: nat)
    requires
        b > 0,
        in_base(d, b),
    ensures
        digits(value(d, b), b, d.len()) == d,
    decreases d.len(),
{
    if d.len() > 0 {
        let h = d.drop_last();
        let v = value(h, b);
        let x = d.last();
        assert(x < b);
        assert((v * b + x) / b == v && (v * b + x) % b == x) by (nonlinear_arith)
            requires
                b > 0,
                x < b,
        ;
        assert(in_base(h, b)) by {
            assert forall|i: int| 0 <= i < h.len() implies #[trigger] h[i] < b by {
                assert(d[i] < b);
            }
        }
        lemma_digits_of_value(h, b);
        assert(digits(value(d, b), b, d.len()) =~= h.push(x));
        assert(h.push(x) =~= d);
    } else {
        assert(digits(value(d, b), b, d.len()) =~= d);
    }
}

/// A number read back from enough of its digits.
pub proof fn lemma_value_of_digits(n: nat, b: nat, w: nat)
    requires
        b > 0,
        n < pow(b as int, w),
    ensures
        value(digits(n, b, w), b) == n,
    decreases w,
{
    reveal(pow);
    if w > 0 {
        let m = n / b;
        let p = pow(b as int, (w - 1) as nat);
        assert(m < p) by (nonlinear_arith)
            requires
                b > 0,
                m == n / b,
                n < b * p,
        ;
        lemma_value_of_digits(m, b, (w - 1) as nat);
        assert(digits(n, b, w).drop_last() =~= digits(m, b, (w - 1) as nat));
        assert(m * b + n % b == n) by (nonlinear_arith)
            requires
                b > 0,
                m == n / b,
        ;
    }
}

pub proof fn lemma_value_bound(d: Seq<nat>, b: nat)
    requires
        b > 0,
        in_base(d, b),
    ensures
        value(d, b) < pow(b as int, d.len()),
    decreases d.len(),
{
    reveal(pow);
    if d.len() > 0 {
        let h = d.drop_last();
        assert(in_base(h, b)) by {
            assert forall|i: int| 0 <= i < h.len() implies #[trigger] h[i] < b by {
                assert(d[i] < b);
            }
        }
        lemma_value_bound(h, b);
        let v = value(h, b);
        let p = pow(b as int, h.len());
        let x = d.last();
        assert(x < b);
        assert(v * b + x < b * p) by (nonlinear_arith)
            requires
                b > 0,
                v < p,
                x < b,
        ;
    }
}

}
