//! Products of polynomials modulo x^1024 - 1, and what the transform
//! makes of them: the product of the values.
use vstd::prelude::*;
use vstd::arithmetic::power::{lemma_pow_adds, lemma_pow_multiplies, lemma1_pow, pow};
use crate::modular::{canonical, congruent, lemma_congruent_mul, lemma_mods, mods};
use crate::ntt::lemma_intt_inverts_ntt;
use crate::poly::{eval, intt_of, is_canonical, ntt_of, pointwise, transformed};
use crate::roots::{lemma_omega_pair, lemma_pow_congruent};

verus! {

/// The sum over j below n of a[j] times b[i - j], the index of b taken
/// modulo 1024.
pub open spec fn cyclic_term(a: Seq<int>, b: Seq<int>, i: int, n: nat) -> int
    decreases n,
{
    if n == 0 {
        0
    } else {
        cyclic_term(a, b, i, (n - 1) as nat) + a[n - 1] * b[(i - (n - 1)) % 1024]
    }
}

/// The product of the polynomials `a` and `b` modulo x^1024 - 1, over the
/// integers.
pub open spec fn cyclic_product(a: Seq<int>, b: Seq<int>) -> Seq<int> {
    Seq::new(1024, |i: int| cyclic_term(a, b, i, 1024))
}

/// Each coefficient of `p` as a balanced residue.
pub open spec fn reduced(p: Seq<int>) -> Seq<int> {
    Seq::new(p.len(), |i: int| mods(p[i]))
}

/// `b` times x^m modulo x^1024 - 1: the coefficients moved round by m.
pub open spec fn rotated(b: Seq<int>, m: int) -> Seq<int> {
    Seq::new(1024, |i: int| b[(i - m) % 1024])
}

/// Each coefficient of `u` plus `c` times the same coefficient of `v`.
pub open spec fn added(u: Seq<int>, c: int, v: Seq<int>) -> Seq<int> {
    Seq::new(u.len(), |i: int| u[i] + c * v[i])
}

/// The value of a polynomial with a coefficient put in front.
proof fn lemma_eval_prepend(v: int, u: Seq<int>, x: int)
    ensures
        eval(seq![v] + u, x) == v + x * eval(u, x),
    decreases u.len(),
{
    reveal(pow);
    let s = seq![v] + u;
    if u.len() == 0 {
        assert(s.drop_last() =~= Seq::<int>::empty());
        assert(eval(s.drop_last(), x) == 0);
        assert(x * 0 == 0) by (nonlinear_arith);
        assert(v * 1 == v) by (nonlinear_arith);
    } else {
        lemma_eval_prepend(v, u.drop_last(), x);
        assert(s.drop_last() =~= seq![v] + u.drop_last());
        assert(s.last() == u.last());
        let e = (u.len() - 1) as nat;
        assert(pow(x, e + 1) == x * pow(x, e));
        assert(x * (eval(u.drop_last(), x) + u.last() * pow(x, e)) == x * eval(u.drop_last(), x)
            + u.last() * (x * pow(x, e))) by (nonlinear_arith);
    }
}

/// The value of a sum of polynomials is the sum of their values.
pub proof fn lemma_eval_added(u: Seq<int>, c: int, v: Seq<int>, x: int)
    requires
        u.len() == v.len(),
    ensures
        eval(added(u, c, v), x) == eval(u, x) + c * eval(v, x),
    decreases u.len(),
{
    if u.len() == 0 {
        assert(c * 0 == 0) by (nonlinear_arith);
    } else {
        lemma_eval_added(u.drop_last(), c, v.drop_last(), x);
        assert(added(u, c, v).drop_last() =~= added(u.drop_last(), c, v.drop_last()));
        let e = pow(x, (u.len() - 1) as nat);
        assert((u.last() + c * v.last()) * e == u.last() * e + c * (v.last() * e))
            by (nonlinear_arith);
        assert(c * (eval(v.drop_last(), x) + v.last() * e) == c * eval(v.drop_last(), x) + c * (
            v.last() * e)) by (nonlinear_arith);
    }
}

/// Polynomials with congruent coefficients have congruent values at
/// congruent points.
pub proof fn lemma_eval_congruent(u: Seq<int>, v: Seq<int>, x: int, y: int)
    requires
        u.len() == v.len(),
        forall|i: int| 0 <= i < u.len() ==> congruent(#[trigger] u[i], v[i]),
        congruent(x, y),
    ensures
        congruent(eval(u, x), eval(v, y)),
    decreases u.len(),
{
    if u.len() > 0 {
        lemma_eval_congruent(u.drop_last(), v.drop_last(), x, y);
        let e = (u.len() - 1) as nat;
        lemma_pow_congruent(x, y, e);
        assert(congruent(u[u.len() - 1], v[u.len() - 1]));
        lemma_congruent_mul(u.last(), v.last(), pow(x, e), pow(y, e));
    }
}

/// At a 1024th root of unity, moving the coefficients round by one
/// multiplies the value by the root.
proof fn lemma_eval_rotated_once(c: Seq<int>, x: int)
    requires
        c.len() == 1024,
        congruent(pow(x, 1024), 1),
    ensures
        congruent(eval(rotated(c, 1), x), x * eval(c, x)),
{
    let r = rotated(c, 1);
    assert(r =~= seq![c.last()] + c.drop_last());
    lemma_eval_prepend(c.last(), c.drop_last(), x);
    reveal(pow);
    assert(pow(x, 1024) == x * pow(x, 1023));
    lemma_congruent_mul(c.last(), c.last(), pow(x, 1024), 1);
    assert(x * (eval(c.drop_last(), x) + c.last() * pow(x, 1023)) == x * eval(c.drop_last(), x)
        + c.last() * (x * pow(x, 1023))) by (nonlinear_arith);
}

/// At a 1024th root of unity, moving the coefficients round by m
/// multiplies the value by the mth power of the root.
pub proof fn lemma_eval_rotated(b: Seq<int>, m: nat, x: int)
    requires
        b.len() == 1024,
        congruent(pow(x, 1024), 1),
    ensures
        congruent(eval(rotated(b, m as int), x), pow(x, m) * eval(b, x)),
    decreases m,
{
    reveal(pow);
    if m == 0 {
        assert(rotated(b, 0) =~= b);
        assert(1 * eval(b, x) == eval(b, x));
    } else {
        let prev = rotated(b, m - 1);
        lemma_eval_rotated(b, (m - 1) as nat, x);
        assert(rotated(prev, 1) =~= rotated(b, m as int)) by {
            assert forall|i: int| 0 <= i < 1024 implies rotated(prev, 1)[i] == rotated(
                b,
                m as int,
            )[i] by {
                let j = (i - 1) % 1024;
                assert((j - (m - 1)) % 1024 == (i - m) % 1024);
            }
        }
        lemma_eval_rotated_once(prev, x);
        lemma_congruent_mul(x, x, eval(prev, x), pow(x, (m - 1) as nat) * eval(b, x));
        assert(x * (pow(x, (m - 1) as nat) * eval(b, x)) == (x * pow(x, (m - 1) as nat)) * eval(
            b,
            x,
        )) by (nonlinear_arith);
    }
}

/// The product with only the first n coefficients of `a` taken.
pub open spec fn partial_product(a: Seq<int>, b: Seq<int>, n: nat) -> Seq<int> {
    Seq::new(1024, |i: int| cyclic_term(a, b, i, n))
}

/// The zero polynomial has the value zero everywhere.
proof fn lemma_eval_zero(n: nat, x: int)
    ensures
        eval(Seq::new(n, |i: int| 0int), x) == 0,
    decreases n,
{
    if n > 0 {
        lemma_eval_zero((n - 1) as nat, x);
        assert(Seq::new(n, |i: int| 0int).drop_last() =~= Seq::new((n - 1) as nat, |i: int| 0int));
        assert(0 * pow(x, (n - 1) as nat) == 0) by (nonlinear_arith);
    }
}

/// At a 1024th root of unity the value of a partial product is the
/// product of the values.
proof fn lemma_eval_partial_product(a: Seq<int>, b: Seq<int>, n: nat, x: int)
    requires
        a.len() == 1024,
        b.len() == 1024,
        n <= 1024,
        congruent(pow(x, 1024), 1),
    ensures
        congruent(eval(partial_product(a, b, n), x), eval(a.take(n as int), x) * eval(b, x)),
    decreases n,
{
    if n == 0 {
        assert(partial_product(a, b, 0) =~= Seq::new(1024, |i: int| 0int));
        lemma_eval_zero(1024, x);
        assert(a.take(0).len() == 0);
        assert(0 * eval(b, x) == 0) by (nonlinear_arith);
    } else {
        let m = (n - 1) as nat;
        lemma_eval_partial_product(a, b, m, x);
        let prev = partial_product(a, b, m);
        let rot = rotated(b, m as int);
        assert(partial_product(a, b, n) =~= added(prev, a[m as int], rot));
        lemma_eval_added(prev, a[m as int], rot, x);
        lemma_eval_rotated(b, m, x);
        lemma_congruent_mul(a[m as int], a[m as int], eval(rot, x), pow(x, m) * eval(b, x));
        let head = a.take(n as int);
        assert(head.drop_last() =~= a.take(m as int));
        assert(head.last() == a[m as int]);
        assert((eval(a.take(m as int), x) + a[m as int] * pow(x, m)) * eval(b, x) == eval(
            a.take(m as int),
            x,
        ) * eval(b, x) + a[m as int] * (pow(x, m) * eval(b, x))) by (nonlinear_arith);
    }
}

/// At a 1024th root of unity the value of a product modulo x^1024 - 1 is
/// the product of the values, modulo q.
pub proof fn lemma_eval_product(a: Seq<int>, b: Seq<int>, x: int)
    requires
        a.len() == 1024,
        b.len() == 1024,
        congruent(pow(x, 1024), 1),
    ensures
        congruent(eval(cyclic_product(a, b), x), eval(a, x) * eval(b, x)),
{
    lemma_eval_partial_product(a, b, 1024, x);
    assert(a.take(1024) =~= a);
    assert(partial_product(a, b, 1024) =~= cyclic_product(a, b));
}

/// Every power of 49 is a 1024th root of unity modulo q.
pub proof fn lemma_omega_power(i: nat)
    ensures
        congruent(pow(pow(49, i), 1024), 1),
{
    lemma_omega_pair();
    lemma_pow_adds(49, 512, 512);
    lemma_congruent_mul(pow(49, 512), -1, pow(49, 512), -1);
    lemma_pow_multiplies(49, i, 1024);
    lemma_pow_multiplies(49, 1024, i);
    assert(i * 1024 == 1024 * i);
    lemma_pow_congruent(pow(49, 1024), 1, i);
    lemma1_pow(i);
}

/// The transform of a reduced polynomial at one root of unity is the
/// value of the polynomial there, modulo q.
pub proof fn lemma_ntt_of_reduced(e: Seq<int>, i: int)
    requires
        e.len() == 1024,
        0 <= i < 1024,
    ensures
        congruent(ntt_of(reduced(e))[i], eval(e, pow(49, i as nat))),
{
    let x = pow(49, i as nat);
    assert forall|j: int| 0 <= j < 1024 implies congruent(#[trigger] reduced(e)[j], e[j]) by {
        lemma_mods(e[j]);
    }
    lemma_eval_congruent(reduced(e), e, x, x);
    lemma_mods(1 * eval(reduced(e), x));
}

/// The transform of a product modulo x^1024 - 1 is the pointwise product
/// of the transforms.
pub proof fn lemma_ntt_product(a: Seq<int>, b: Seq<int>)
    requires
        a.len() == 1024,
        b.len() == 1024,
    ensures
        ntt_of(reduced(cyclic_product(a, b))) == pointwise(ntt_of(a), ntt_of(b)),
{
    let c = cyclic_product(a, b);
    let left = ntt_of(reduced(c));
    let right = pointwise(ntt_of(a), ntt_of(b));
    assert forall|i: int| 0 <= i < 1024 implies left[i] == right[i] by {
        let x = pow(49, i as nat);
        lemma_omega_power(i as nat);
        lemma_ntt_of_reduced(c, i);
        lemma_eval_product(a, b, x);
        lemma_mods(eval(a, x));
        lemma_mods(eval(b, x));
        lemma_congruent_mul(mods(1 * eval(a, x)), eval(a, x), mods(1 * eval(b, x)), eval(b, x));
        lemma_mods(ntt_of(a)[i] * ntt_of(b)[i]);
    }
    assert(left =~= right);
}

/// The pointwise product of two transforms, taken back, is the product of
/// the two polynomials modulo x^1024 - 1 and modulo q.
pub proof fn lemma_convolution(a: Seq<int>, b: Seq<int>)
    requires
        a.len() == 1024,
        b.len() == 1024,
    ensures
        intt_of(pointwise(ntt_of(a), ntt_of(b))) == reduced(cyclic_product(a, b)),
{
    lemma_ntt_product(a, b);
    let c = reduced(cyclic_product(a, b));
    assert forall|i: int| 0 <= i < 1024 implies canonical(#[trigger] c[i]) by {
        lemma_mods(cyclic_product(a, b)[i]);
    }
    lemma_intt_inverts_ntt(c);
}

} // verus!
