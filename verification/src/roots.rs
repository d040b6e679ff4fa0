//! Sums of powers of the roots of unity modulo q, from which the laws of
//! the transform follow.
use vstd::prelude::*;
use vstd::arithmetic::power::{
    lemma1_pow, lemma_pow0, lemma_pow1, lemma_pow_adds, lemma_pow_distributes,
    lemma_pow_multiplies, pow,
};
use crate::modular::{congruent, lemma_congruent_mul};

verus! {

/// The sum of the first `n` powers of `x`.
pub open spec fn geometric(x: int, n: nat) -> int
    decreases n,
{
    if n == 0 {
        0
    } else {
        geometric(x, (n - 1) as nat) + pow(x, (n - 1) as nat)
    }
}

/// Two to the power `l`.
pub open spec fn two_to(l: nat) -> nat
    decreases l,
{
    if l == 0 {
        1
    } else {
        2 * two_to((l - 1) as nat)
    }
}

/// Whether `a` and `b` are inverse to each other modulo q and each is a
/// primitive 1024th root of unity: its 512th power is -1.
pub open spec fn root_pair(a: int, b: int) -> bool {
    &&& congruent(a * b, 1)
    &&& congruent(pow(a, 512), -1)
    &&& congruent(pow(b, 512), -1)
}

/// Powers of two are positive.
proof fn lemma_two_to_positive(l: nat)
    ensures
        two_to(l) > 0,
    decreases l,
{
    if l > 0 {
        lemma_two_to_positive((l - 1) as nat);
    }
}

/// Powers of congruent numbers are congruent.
pub proof fn lemma_pow_congruent(x: int, y: int, e: nat)
    requires
        congruent(x, y),
    ensures
        congruent(pow(x, e), pow(y, e)),
    decreases e,
{
    reveal(pow);
    if e > 0 {
        lemma_pow_congruent(x, y, (e - 1) as nat);
        lemma_congruent_mul(x, y, pow(x, (e - 1) as nat), pow(y, (e - 1) as nat));
    }
}

/// An odd power of -1 is -1.
proof fn lemma_pow_minus_one(e: nat)
    ensures
        e % 2 == 1 ==> pow(-1, e) == -1,
        e % 2 == 0 ==> pow(-1, e) == 1,
    decreases e,
{
    reveal(pow);
    if e > 0 {
        lemma_pow_minus_one((e - 1) as nat);
    }
}

/// The sum of n + m powers is the sum of n powers, and x to the n times
/// the sum of m powers.
proof fn lemma_geometric_split(x: int, n: nat, m: nat)
    ensures
        geometric(x, n + m) == geometric(x, n) + pow(x, n) * geometric(x, m),
    decreases m,
{
    if m == 0 {
        assert(pow(x, n) * 0 == 0) by (nonlinear_arith);
    } else {
        let m1 = (m - 1) as nat;
        lemma_geometric_split(x, n, m1);
        lemma_pow_adds(x, n, m1);
        assert(pow(x, n) * (geometric(x, m1) + pow(x, m1)) == pow(x, n) * geometric(x, m1) + pow(
            x,
            n,
        ) * pow(x, m1)) by (nonlinear_arith);
    }
}

/// The sum of 2n powers is the sum of n powers times 1 + x to the n.
proof fn lemma_geometric_double(x: int, n: nat)
    ensures
        geometric(x, 2 * n) == geometric(x, n) * (1 + pow(x, n)),
{
    lemma_geometric_split(x, n, n);
    assert(geometric(x, n) * (1 + pow(x, n)) == geometric(x, n) + pow(x, n) * geometric(x, n))
        by (nonlinear_arith);
}

/// Sums of powers of congruent numbers are congruent.
pub proof fn lemma_geometric_congruent(x: int, y: int, n: nat)
    requires
        congruent(x, y),
    ensures
        congruent(geometric(x, n), geometric(y, n)),
    decreases n,
{
    if n > 0 {
        lemma_geometric_congruent(x, y, (n - 1) as nat);
        lemma_pow_congruent(x, y, (n - 1) as nat);
    }
}

/// The sum of n powers of 1 is n.
pub proof fn lemma_geometric_one(n: nat)
    ensures
        geometric(1, n) == n,
    decreases n,
{
    if n > 0 {
        lemma_geometric_one((n - 1) as nat);
        lemma1_pow((n - 1) as nat);
    }
}

/// When z to the power 2^(l-1) is -1, the sum of the first 2^l powers of
/// z^d vanishes modulo q for every d that 2^l does not divide.
proof fn lemma_geometric_vanishes(z: int, d: nat, l: nat)
    requires
        l >= 1,
        congruent(pow(z, two_to((l - 1) as nat)), -1),
        d % two_to(l) != 0,
    ensures
        congruent(geometric(pow(z, d), two_to(l)), 0),
    decreases l,
{
    let h = two_to((l - 1) as nat);
    let x = pow(z, d);
    lemma_two_to_positive((l - 1) as nat);
    assert(two_to(l) == 2 * h);
    lemma_geometric_double(x, h);
    if d % 2 == 1 {
        // x^h = (z^h)^d = (-1)^d = -1
        lemma_pow_multiplies(z, d, h);
        lemma_pow_multiplies(z, h, d);
        assert(d * h == h * d) by (nonlinear_arith);
        lemma_pow_congruent(pow(z, h), -1, d);
        lemma_pow_minus_one(d);
        assert(congruent(1 + pow(x, h), 0));
        lemma_congruent_mul(geometric(x, h), geometric(x, h), 1 + pow(x, h), 0);
        assert(geometric(x, h) * 0 == 0) by (nonlinear_arith);
    } else {
        let e = (d / 2) as nat;
        assert(d == 2 * e);
        if l == 1 {
            assert(two_to(1) == 2) by {
                reveal_with_fuel(two_to, 2);
            }
            assert(false);
        }
        let h2 = two_to((l - 2) as nat);
        assert(h == 2 * h2);
        // z * z to the power 2^(l-2) is z to the power 2^(l-1)
        lemma_pow_multiplies(z, 2, h2);
        assert(pow(z, 2) == z * z) by {
            reveal_with_fuel(pow, 3);
            assert(z * (z * 1) == z * z) by (nonlinear_arith);
        }
        assert(pow(z * z, h2) == pow(z, h));
        // and z * z to the power e is x
        lemma_pow_multiplies(z, 2, e);
        assert(pow(z * z, e) == x);
        assert(e % h != 0) by {
            if e % h == 0 {
                vstd::arithmetic::div_mod::lemma_fundamental_div_mod(e as int, h as int);
                let k = (e as int) / (h as int);
                assert(e == h * k);
                assert(d == (2 * h) * k) by (nonlinear_arith)
                    requires
                        d == 2 * e,
                        e == h * k,
                ;
                vstd::arithmetic::div_mod::lemma_mod_multiples_basic(k, 2 * h as int);
                assert((2 * h) * k == k * (2 * h)) by (nonlinear_arith);
            }
        }
        lemma_geometric_vanishes(z * z, e, (l - 1) as nat);
        lemma_congruent_mul(geometric(x, h), 0, 1 + pow(x, h), 1 + pow(x, h));
        assert(0 * (1 + pow(x, h)) == 0) by (nonlinear_arith);
    }
}

/// For a primitive 1024th root of unity z, the sum of the first 1024
/// powers of z^d vanishes modulo q when d lies strictly between 0 and 1024.
pub proof fn lemma_root_sum_vanishes(z: int, d: nat)
    requires
        congruent(pow(z, 512), -1),
        0 < d < 1024,
    ensures
        congruent(geometric(pow(z, d), 1024), 0),
{
    assert(two_to(9) == 512 && two_to(10) == 1024) by {
        reveal_with_fuel(two_to, 11);
    }
    lemma_geometric_vanishes(z, d, 10);
}

/// For a pair of inverse roots a and b, the sum of the first 1024 powers
/// of a^m b^k is 1024 modulo q when m = k, and vanishes otherwise.
pub proof fn lemma_pair_sum(a: int, b: int, m: nat, k: nat)
    requires
        root_pair(a, b),
        m < 1024,
        k < 1024,
    ensures
        congruent(
            geometric(pow(a, m) * pow(b, k), 1024),
            if m == k {
                1024
            } else {
                0
            },
        ),
{
    let z = pow(a, m) * pow(b, k);
    if m == k {
        lemma_pow_distributes(a, b, k);
        lemma_pow_congruent(a * b, 1, k);
        lemma1_pow(k);
        lemma_geometric_congruent(z, 1, 1024);
        lemma_geometric_one(1024);
    } else if m > k {
        let d = (m - k) as nat;
        lemma_pow_adds(a, d, k);
        lemma_pow_distributes(a, b, k);
        lemma_pow_congruent(a * b, 1, k);
        lemma1_pow(k);
        assert(z == pow(a, d) * (pow(a, k) * pow(b, k))) by (nonlinear_arith)
            requires
                z == pow(a, m) * pow(b, k),
                pow(a, m) == pow(a, d) * pow(a, k),
        ;
        lemma_congruent_mul(pow(a, d), pow(a, d), pow(a, k) * pow(b, k), 1);
        lemma_geometric_congruent(z, pow(a, d), 1024);
        lemma_root_sum_vanishes(a, d);
    } else {
        let d = (k - m) as nat;
        lemma_pow_adds(b, d, m);
        lemma_pow_distributes(a, b, m);
        lemma_pow_congruent(a * b, 1, m);
        lemma1_pow(m);
        assert(z == pow(b, d) * (pow(a, m) * pow(b, m))) by (nonlinear_arith)
            requires
                z == pow(a, m) * pow(b, k),
                pow(b, k) == pow(b, d) * pow(b, m),
        ;
        lemma_congruent_mul(pow(b, d), pow(b, d), pow(a, m) * pow(b, m), 1);
        lemma_geometric_congruent(z, pow(b, d), 1024);
        lemma_root_sum_vanishes(b, d);
    }
}

/// Squaring: from x^e known modulo q to x^(2e).
proof fn lemma_pow_square(x: int, e: nat, c: int, c2: int)
    requires
        congruent(pow(x, e), c),
        congruent(c * c, c2),
    ensures
        congruent(pow(x, 2 * e), c2),
{
    lemma_pow_adds(x, e, e);
    lemma_congruent_mul(pow(x, e), c, pow(x, e), c);
}

/// 49 and 1254 are inverse to each other modulo q, and the 512th power of
/// each is -1.
pub proof fn lemma_omega_pair()
    ensures
        root_pair(49, 1254),
        root_pair(1254, 49),
{
    lemma_pow1(49);
    lemma_pow_square(49, 1, 49, 2401);
    lemma_pow_square(49, 2, 2401, 1260);
    lemma_pow_square(49, 4, 1260, 2319);
    lemma_pow_square(49, 8, 2319, 7468);
    lemma_pow_square(49, 16, 7468, 3542);
    lemma_pow_square(49, 32, 3542, 10984);
    lemma_pow_square(49, 64, 10984, 7143);
    lemma_pow_square(49, 128, 7143, 10810);
    lemma_pow_square(49, 256, 10810, 12288);
    lemma_pow1(1254);
    lemma_pow_square(1254, 1, 1254, 11813);
    lemma_pow_square(1254, 2, 11813, 5374);
    lemma_pow_square(1254, 4, 5374, 726);
    lemma_pow_square(1254, 8, 726, 10938);
    lemma_pow_square(1254, 16, 10938, 6429);
    lemma_pow_square(1254, 32, 6429, 4134);
    lemma_pow_square(1254, 64, 4134, 8246);
    lemma_pow_square(1254, 128, 8246, 1479);
    lemma_pow_square(1254, 256, 1479, 12288);
}

} // verus!
