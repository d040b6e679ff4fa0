//! The laws of the transform: the two directions undo each other.
use vstd::prelude::*;
use vstd::arithmetic::power::{lemma_pow_distributes, lemma_pow_multiplies, pow};
use crate::modular::{canonical, congruent, lemma_congruent_mul, lemma_mods, mods};
use crate::poly::{eval, intt_of, invertible, is_canonical, ntt_of, transformed};
use crate::roots::{geometric, lemma_omega_pair, lemma_pair_sum, root_pair};

verus! {

/// The sum over i below n of the value of `p` at a^i, times y^i.
pub open spec fn correlation(p: Seq<int>, a: int, y: int, n: nat) -> int
    decreases n,
{
    if n == 0 {
        0
    } else {
        correlation(p, a, y, (n - 1) as nat) + eval(p, pow(a, (n - 1) as nat)) * pow(
            y,
            (n - 1) as nat,
        )
    }
}

/// The coefficient of `p` at index `k`; zero beyond the end of `p`.
pub open spec fn coefficient(p: Seq<int>, k: int) -> int {
    if 0 <= k < p.len() {
        p[k]
    } else {
        0
    }
}

/// The last coefficient of `p` enters the sum as itself times a sum of
/// powers.
proof fn lemma_correlation_step(p: Seq<int>, a: int, y: int, n: nat)
    requires
        p.len() > 0,
    ensures
        correlation(p, a, y, n) == correlation(p.drop_last(), a, y, n) + p.last() * geometric(
            pow(a, (p.len() - 1) as nat) * y,
            n,
        ),
    decreases n,
{
    let m = (p.len() - 1) as nat;
    let c = p.last();
    let z = pow(a, m) * y;
    if n == 0 {
        assert(c * 0 == 0) by (nonlinear_arith);
    } else {
        let i = (n - 1) as nat;
        lemma_correlation_step(p, a, y, i);
        // (a^i)^m y^i = (a^m)^i y^i = (a^m y)^i
        lemma_pow_multiplies(a, i, m);
        lemma_pow_multiplies(a, m, i);
        assert(i * m == m * i) by (nonlinear_arith);
        lemma_pow_distributes(pow(a, m), y, i);
        let e0 = eval(p.drop_last(), pow(a, i));
        let t = pow(pow(a, i), m);
        let yi = pow(y, i);
        assert(eval(p, pow(a, i)) == e0 + c * t);
        assert(t * yi == pow(z, i));
        assert((e0 + c * t) * yi == e0 * yi + c * (t * yi)) by (nonlinear_arith);
        assert(c * (geometric(z, i) + pow(z, i)) == c * geometric(z, i) + c * pow(z, i))
            by (nonlinear_arith);
    }
}

/// The polynomial without coefficients has the value zero everywhere.
proof fn lemma_correlation_empty(p: Seq<int>, a: int, y: int, n: nat)
    requires
        p.len() == 0,
    ensures
        correlation(p, a, y, n) == 0,
    decreases n,
{
    if n > 0 {
        lemma_correlation_empty(p, a, y, (n - 1) as nat);
        assert(0 * pow(y, (n - 1) as nat) == 0) by (nonlinear_arith);
    }
}

/// For a pair of inverse roots a and b, the values of `p` at the powers of
/// a, summed against the powers of b^k, give 1024 times the coefficient of
/// `p` at k, modulo q.
proof fn lemma_correlation(p: Seq<int>, a: int, b: int, k: nat)
    requires
        root_pair(a, b),
        p.len() <= 1024,
        k < 1024,
    ensures
        congruent(correlation(p, a, pow(b, k), 1024), 1024 * coefficient(p, k as int)),
    decreases p.len(),
{
    let y = pow(b, k);
    if p.len() == 0 {
        lemma_correlation_empty(p, a, y, 1024);
    } else {
        let m = (p.len() - 1) as nat;
        let c = p.last();
        lemma_correlation(p.drop_last(), a, b, k);
        lemma_correlation_step(p, a, y, 1024);
        lemma_pair_sum(a, b, m, k);
        let g = geometric(pow(a, m) * y, 1024);
        if m == k {
            lemma_congruent_mul(c, c, g, 1024);
            assert(coefficient(p.drop_last(), k as int) == 0);
            assert(c * 1024 == 1024 * c);
        } else {
            lemma_congruent_mul(c, c, g, 0);
            assert(c * 0 == 0) by (nonlinear_arith);
            assert(coefficient(p.drop_last(), k as int) == coefficient(p, k as int));
        }
    }
}

/// A sequence that holds, modulo q, `scale` times the values of `p` at the
/// powers of a has as its own value at y `scale` times the sum of those
/// values against the powers of y.
proof fn lemma_eval_of_values(v: Seq<int>, p: Seq<int>, a: int, scale: int, y: int, n: nat)
    requires
        n <= v.len(),
        forall|i: int| 0 <= i < n ==> congruent(#[trigger] v[i], scale * eval(p, pow(a, i as nat))),
    ensures
        congruent(eval(v.take(n as int), y), scale * correlation(p, a, y, n)),
    decreases n,
{
    if n == 0 {
        assert(scale * 0 == 0) by (nonlinear_arith);
    } else {
        let i = (n - 1) as nat;
        lemma_eval_of_values(v, p, a, scale, y, i);
        let head = v.take(n as int);
        assert(head.drop_last() =~= v.take(i as int));
        assert(head.last() == v[i as int]);
        let e = eval(p, pow(a, i));
        lemma_congruent_mul(v[i as int], scale * e, pow(y, i), pow(y, i));
        assert(scale * (correlation(p, a, y, i) + e * pow(y, i)) == scale * correlation(p, a, y, i)
            + (scale * e) * pow(y, i)) by (nonlinear_arith);
    }
}

/// A transform at the powers of a, followed by one at the powers of its
/// inverse b, gives the polynomial back when the two scales and 1024
/// multiply to one.
pub proof fn lemma_transform_inverts(p: Seq<int>, a: int, sa: int, b: int, sb: int)
    requires
        is_canonical(p),
        root_pair(a, b),
        congruent(sa * sb * 1024, 1),
    ensures
        transformed(transformed(p, a, sa), b, sb) == p,
{
    let v = transformed(p, a, sa);
    let back = transformed(v, b, sb);
    assert forall|k: int| 0 <= k < 1024 implies back[k] == p[k] by {
        let y = pow(b, k as nat);
        assert forall|i: int| 0 <= i < 1024 implies congruent(
            #[trigger] v[i],
            sa * eval(p, pow(a, i as nat)),
        ) by {
            lemma_mods(sa * eval(p, pow(a, i as nat)));
        }
        lemma_eval_of_values(v, p, a, sa, y, 1024);
        assert(v.take(1024) =~= v);
        lemma_correlation(p, a, b, k as nat);
        let s = correlation(p, a, y, 1024);
        // sb * eval(v, y) = sb * sa * s = sb * sa * 1024 * p[k] = p[k], modulo q
        lemma_congruent_mul(sb, sb, eval(v, y), sa * s);
        lemma_congruent_mul(sa * sb, sa * sb, s, 1024 * p[k]);
        lemma_congruent_mul(sa * sb * 1024, 1, p[k], p[k]);
        assert(sb * (sa * s) == (sa * sb) * s) by (nonlinear_arith);
        assert((sa * sb) * (1024 * p[k]) == (sa * sb * 1024) * p[k]) by (nonlinear_arith);
        assert(congruent(sb * eval(v, y), p[k]));
        assert(canonical(p[k]));
    }
    assert(back =~= p);
}

/// Taking a polynomial to the values at the roots of unity and back gives
/// the polynomial.
pub proof fn lemma_intt_inverts_ntt(p: Seq<int>)
    requires
        is_canonical(p),
    ensures
        intt_of(ntt_of(p)) == p,
{
    lemma_omega_pair();
    lemma_transform_inverts(p, 49, 1, 1254, -12);
}

/// Taking values at the roots of unity to the polynomial and back gives
/// the values.
pub proof fn lemma_ntt_inverts_intt(h: Seq<int>)
    requires
        is_canonical(h),
    ensures
        ntt_of(intt_of(h)) == h,
{
    lemma_omega_pair();
    lemma_transform_inverts(h, 1254, -12, 49, 1);
}

/// Values that have inverses still have them after a trip to coefficient
/// form and back.
pub proof fn lemma_invertible_stable(p: Seq<int>)
    requires
        is_canonical(p),
        invertible(ntt_of(p)),
    ensures
        invertible(ntt_of(intt_of(ntt_of(p)))),
{
    lemma_intt_inverts_ntt(p);
}

} // verus!
