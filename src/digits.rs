//! Positional numerals: the value of a big-endian digit sequence, and the
//! fixed-width numeral of a value.
use vstd::arithmetic::div_mod::{lemma_fundamental_div_mod_converse, lemma_mod_breakdown};
use vstd::arithmetic::power::{lemma_pow_positive, pow};
use vstd::prelude::*;

verus! {

/// The value of `d` read as a big-endian numeral in base `base`.
pub open spec fn be_value(d: Seq<u8>, base: nat) -> nat
    decreases d.len(),
{
    if d.len() == 0 {
        0
    } else {
        be_value(d.drop_last(), base) * base + d.last() as nat
    }
}

/// Every digit of `d` is below `base`.
pub open spec fn digits_below(d: Seq<u8>, base: nat) -> bool {
    forall|i: int| 0 <= i < d.len() ==> (#[trigger] d[i]) < base
}

/// `base` to the power `e`, as a natural number.
pub open spec fn power(base: nat, e: nat) -> nat {
    pow(base as int, e) as nat
}

/// The `w` lowest digits of `v` in base `base`, most significant first.
pub open spec fn fixed_digits(v: nat, base: nat, w: nat) -> Seq<u8>
    decreases w,
{
    if w == 0 {
        seq![]
    } else {
        fixed_digits(v / base, base, (w - 1) as nat).push((v % base) as u8)
    }
}

/// `k` zero digits.
pub open spec fn zeros(k: nat) -> Seq<u8> {
    Seq::new(k, |i: int| 0u8)
}

/// A numeral whose digits are below the base is below the base to the power
/// of its length.
pub proof fn lemma_value_below(d: Seq<u8>, base: nat)
    requires
        base >= 1,
        digits_below(d, base),
    ensures
        be_value(d, base) < power(base, d.len()),
    decreases d.len(),
{
    reveal(pow);
    if d.len() > 0 {
        let p = d.drop_last();
        assert(digits_below(p, base)) by {
            assert forall|i: int| 0 <= i < p.len() implies (#[trigger] p[i]) < base by {
                assert(p[i] == d[i]);
            }
        }
        lemma_value_below(p, base);
        lemma_pow_positive(base as int, p.len());
        let v = be_value(p, base);
        let q = power(base, p.len());
        let l = d.last() as nat;
        assert(l < base) by {
            assert(d[d.len() - 1] < base);
        }
        assert(v * base + l < q * base) by (nonlinear_arith)
            requires
                v < q,
                l < base,
        ;
        assert(power(base, d.len()) == q * base) by (nonlinear_arith)
            requires
                pow(base as int, d.len()) == base * pow(base as int, p.len()),
                q == pow(base as int, p.len()),
                q > 0,
        ;
    }
}

/// A numeral whose leading digit is not zero is at least the base to the
/// power of its length less one.
pub proof fn lemma_value_at_least(d: Seq<u8>, base: nat)
    requires
        base >= 1,
        d.len() >= 1,
        d[0] != 0,
    ensures
        be_value(d, base) >= power(base, (d.len() - 1) as nat),
    decreases d.len(),
{
    reveal(pow);
    if d.len() > 1 {
        let p = d.drop_last();
        assert(p[0] == d[0]);
        lemma_value_at_least(p, base);
        let v = be_value(p, base);
        let q = power(base, (p.len() - 1) as nat);
        lemma_pow_positive(base as int, (p.len() - 1) as nat);
        assert(v * base >= q * base) by (nonlinear_arith)
            requires
                v >= q,
        ;
        assert(power(base, p.len()) == q * base) by (nonlinear_arith)
            requires
                pow(base as int, p.len()) == base * pow(base as int, (p.len() - 1) as nat),
                q == pow(base as int, (p.len() - 1) as nat),
                q > 0,
        ;
    } else {
        assert(d.drop_last().len() == 0);
        assert(d.last() == d[0]);
    }
}

/// Zero digits in front of a numeral do not change its value.
pub proof fn lemma_leading_zeros(k: nat, d: Seq<u8>, base: nat)
    ensures
        be_value(zeros(k) + d, base) == be_value(d, base),
    decreases d.len(), k,
{
    let z = zeros(k) + d;
    if d.len() > 0 {
        assert(z.drop_last() =~= zeros(k) + d.drop_last());
        assert(z.last() == d.last());
        lemma_leading_zeros(k, d.drop_last(), base);
        assert(be_value(z, base) == be_value(z.drop_last(), base) * base + z.last() as nat);
        assert(be_value(d, base) == be_value(d.drop_last(), base) * base + d.last() as nat);
    } else if k > 0 {
        assert(z.drop_last() =~= zeros((k - 1) as nat) + d);
        assert(z.last() == 0);
        lemma_leading_zeros((k - 1) as nat, d, base);
        assert(be_value(z, base) == be_value(z.drop_last(), base) * base + z.last() as nat);
        assert(be_value(d, base) == 0);
        assert(be_value(z.drop_last(), base) == 0);
        assert(be_value(z.drop_last(), base) * base == 0) by (nonlinear_arith)
            requires
                be_value(z.drop_last(), base) == 0,
        ;
    } else {
        assert(zeros(k) + d =~= d);
    }
}

/// A numeral whose digits are below the base is the fixed-width numeral of
/// its own value.
pub proof fn lemma_numeral_is_fixed_digits(d: Seq<u8>, base: nat)
    requires
        2 <= base <= 256,
        digits_below(d, base),
    ensures
        fixed_digits(be_value(d, base), base, d.len()) == d,
    decreases d.len(),
{
    if d.len() > 0 {
        let p = d.drop_last();
        assert(digits_below(p, base)) by {
            assert forall|i: int| 0 <= i < p.len() implies (#[trigger] p[i]) < base by {
                assert(p[i] == d[i]);
            }
        }
        lemma_numeral_is_fixed_digits(p, base);
        let l = d.last() as int;
        assert(l < base) by {
            assert(d[d.len() - 1] < base);
        }
        let v = be_value(p, base) as int;
        lemma_fundamental_div_mod_converse(v * base + l, base as int, v, l);
        assert(fixed_digits(be_value(d, base), base, d.len()) =~= p.push(d.last()));
        assert(p.push(d.last()) =~= d);
    }
}

/// The fixed-width numeral of `v` has `w` digits below the base, and its
/// value is `v` modulo the base to the power `w`.
pub proof fn lemma_fixed_digits(v: nat, base: nat, w: nat)
    requires
        2 <= base <= 256,
    ensures
        fixed_digits(v, base, w).len() == w,
        digits_below(fixed_digits(v, base, w), base),
        be_value(fixed_digits(v, base, w), base) == v % power(base, w),
    decreases w,
{
    reveal(pow);
    let f = fixed_digits(v, base, w);
    if w == 0 {
        assert(v % 1 == 0);
    } else {
        let w1 = (w - 1) as nat;
        lemma_fixed_digits(v / base, base, w1);
        lemma_pow_positive(base as int, w1);
        assert(f.drop_last() =~= fixed_digits(v / base, base, w1));
        assert(f.last() == (v % base) as u8);
        assert(((v % base) as u8) as nat == v % base);
        let pw = power(base, w1);
        let r = (v / base) % pw;
        lemma_mod_breakdown(v as int, base as int, pw as int);
        assert(power(base, w) == base * pw);
        assert(be_value(f, base) == be_value(f.drop_last(), base) * base + f.last() as nat);
        assert(r * base == base * r) by (nonlinear_arith);
        assert forall|i: int| 0 <= i < f.len() implies (#[trigger] f[i]) < base by {
            if i < w1 {
                assert(f[i] == fixed_digits(v / base, base, w1)[i]);
            }
        }
    }
}

/// A value below the base to the power `w` is the value of its `w`-digit numeral.
pub proof fn lemma_fixed_digits_value(v: nat, base: nat, w: nat)
    requires
        2 <= base <= 256,
        v < power(base, w),
    ensures
        be_value(fixed_digits(v, base, w), base) == v,
{
    lemma_fixed_digits(v, base, w);
    vstd::arithmetic::div_mod::lemma_small_mod(v, power(base, w));
}

} // verus!
