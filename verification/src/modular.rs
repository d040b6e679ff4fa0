//! Arithmetic modulo the prime q = 12289, on balanced residues.
use vstd::prelude::*;
use vstd::arithmetic::div_mod::{
    lemma_fundamental_div_mod, lemma_mod_multiples_basic, lemma_mul_mod_noop_general,
};

verus! {

/// The modulus.
pub const Q: i32 = 12289;

/// The largest balanced residue: residues run from -6144 to 6144.
pub const HALF_Q: i32 = 6144;

/// Whether `x` is a balanced residue.
pub open spec fn canonical(x: int) -> bool {
    -6144 <= x <= 6144
}

/// Whether every number in `p` is a balanced residue.
pub open spec fn all_canonical(p: Seq<int>) -> bool {
    forall|i: int| 0 <= i < p.len() ==> canonical(#[trigger] p[i])
}

/// The balanced residue of `x` modulo q.
pub open spec fn mods(x: int) -> int {
    let r = x % 12289;
    if r > 6144 {
        r - 12289
    } else {
        r
    }
}

/// Whether `a` and `b` differ by a multiple of q.
pub open spec fn congruent(a: int, b: int) -> bool {
    a % 12289 == b % 12289
}

/// Whether `b` is the balanced residue that multiplies `a` to one.
pub open spec fn is_inverse(a: int, b: int) -> bool {
    canonical(b) && (a * b) % 12289 == 1
}

/// The inverse of `a` modulo q; zero has none and is given zero.
pub open spec fn inverse_of(a: int) -> int {
    if a % 12289 == 0 {
        0
    } else {
        choose|b: int| is_inverse(a, b)
    }
}

/// Products of congruent numbers are congruent.
pub proof fn lemma_congruent_mul(a: int, b: int, c: int, d: int)
    requires
        congruent(a, b),
        congruent(c, d),
    ensures
        congruent(a * c, b * d),
{
    lemma_mul_mod_noop_general(a, c, 12289);
    lemma_mul_mod_noop_general(b, d, 12289);
}

/// A balanced residue is congruent to the number it was taken from, and
/// congruent numbers have the same balanced residue.
pub proof fn lemma_mods(x: int)
    ensures
        canonical(mods(x)),
        congruent(mods(x), x),
        canonical(x) ==> mods(x) == x,
{
}

/// Reducing a factor first does not change the residue of a product.
pub proof fn lemma_mods_mul(a: int, b: int)
    ensures
        mods(mods(a) * b) == mods(a * b),
        mods(a * mods(b)) == mods(a * b),
        mods(mods(a) * mods(b)) == mods(a * b),
{
    lemma_congruent_mul(mods(a), a, b, b);
    lemma_congruent_mul(a, a, mods(b), b);
    lemma_congruent_mul(mods(a), a, mods(b), b);
}

/// q is prime: it is no product of two numbers greater than one.
pub proof fn lemma_q_prime(g: int, h: int)
    requires
        g * h == 12289,
        g > 0,
    ensures
        g == 1 || g == 12289,
{
    assert(0 < h <= 12289 && g <= 12289) by (nonlinear_arith)
        requires
            g * h == 12289,
            g > 0,
    ;
    let gu = g as u32;
    let hu = h as u32;
    assert(gu <= 12289 && hu <= 12289 && gu * hu == 12289 ==> gu == 1 || hu == 1) by (bit_vector);
    assert(gu * hu == g * h) by (nonlinear_arith)
        requires
            gu == g,
            hu == h,
    ;
    assert(h == 1 ==> g * h == g) by (nonlinear_arith);
}

/// A number has at most one inverse.
pub proof fn lemma_inverse_unique(a: int, b: int, c: int)
    requires
        is_inverse(a, b),
        is_inverse(a, c),
    ensures
        b == c,
{
    // b = b * 1 = b * (a * c) = (a * b) * c = c, modulo q
    lemma_congruent_mul(b, b, a * c, 1);
    lemma_congruent_mul(a * b, 1, c, c);
    assert(b * (a * c) == (a * b) * c) by (nonlinear_arith);
    assert(congruent(b, c));
}

/// The last remainder and the last coefficient of the extended Euclidean
/// algorithm, the coefficient kept as a balanced residue.
spec fn euclid(r0: int, r1: int, t0: int, t1: int) -> (int, int)
    decreases r1,
{
    if r1 <= 0 {
        (r0, t0)
    } else {
        euclid(r1, r0 % r1, t1, mods(t0 - (r0 / r1) * t1))
    }
}

/// What the algorithm maintains: each remainder is congruent to its
/// coefficient times `a`, and q and `a` are combinations of the remainders.
/// Returns the cofactors of q and of `a` over the last remainder.
proof fn lemma_euclid(
    a: int,
    r0: int,
    r1: int,
    t0: int,
    t1: int,
    al: int,
    be: int,
    ga: int,
    de: int,
) -> (co: (int, int))
    requires
        0 <= r1,
        0 < r0,
        congruent(r0, t0 * a),
        congruent(r1, t1 * a),
        12289 == al * r0 + be * r1,
        a == ga * r0 + de * r1,
    ensures
        euclid(r0, r1, t0, t1).0 > 0,
        12289 == co.0 * euclid(r0, r1, t0, t1).0,
        a == co.1 * euclid(r0, r1, t0, t1).0,
        congruent(euclid(r0, r1, t0, t1).0, euclid(r0, r1, t0, t1).1 * a),
    decreases r1,
{
    if r1 <= 0 {
        assert(be * r1 == 0 && de * r1 == 0) by (nonlinear_arith)
            requires
                r1 == 0,
        ;
        (al, ga)
    } else {
        let k = r0 / r1;
        let r2 = r0 % r1;
        let t2 = mods(t0 - k * t1);
        lemma_fundamental_div_mod(r0, r1);
        assert(r0 == r1 * k + r2);
        // r2 = r0 - k r1 is congruent to (t0 - k t1) a
        assert(congruent(r2, t2 * a)) by {
            lemma_congruent_mul(k, k, r1, t1 * a);
            lemma_congruent_mul(t2, t0 - k * t1, a, a);
            assert((t0 - k * t1) * a == t0 * a - k * (t1 * a)) by (nonlinear_arith);
            assert(r2 == r0 - k * r1) by (nonlinear_arith)
                requires
                    r0 == r1 * k + r2,
            ;
        }
        assert(12289 == (al * k + be) * r1 + al * r2) by (nonlinear_arith)
            requires
                12289 == al * r0 + be * r1,
                r0 == r1 * k + r2,
        ;
        assert(a == (ga * k + de) * r1 + ga * r2) by (nonlinear_arith)
            requires
                a == ga * r0 + de * r1,
                r0 == r1 * k + r2,
        ;
        lemma_euclid(a, r1, r2, t1, t2, al * k + be, al, ga * k + de, ga)
    }
}

/// For `a` between 1 and q - 1 the algorithm ends with the inverse of `a`.
proof fn lemma_euclid_inverts(a: int)
    requires
        0 < a < 12289,
    ensures
        euclid(12289, a, 0, 1).0 == 1,
        is_inverse(a, euclid(12289, a, 0, 1).1),
    decreases a,
{
    let co = lemma_euclid(a, 12289, a, 0, 1, 1, 0, 0, 1);
    let g = euclid(12289, a, 0, 1).0;
    let t = euclid(12289, a, 0, 1).1;
    assert(g <= a) by (nonlinear_arith)
        requires
            a == co.1 * g,
            g > 0,
            a > 0,
    ;
    assert(g * co.0 == 12289) by (nonlinear_arith)
        requires
            12289 == co.0 * g,
    ;
    lemma_q_prime(g, co.0);
    assert(t * a == a * t) by (nonlinear_arith);
    lemma_euclid_canonical(12289, a, 0, 1);
}

/// The last coefficient of the algorithm is a balanced residue.
proof fn lemma_euclid_canonical(r0: int, r1: int, t0: int, t1: int)
    requires
        canonical(t0),
        canonical(t1),
    ensures
        canonical(euclid(r0, r1, t0, t1).1),
    decreases r1,
{
    if r1 > 0 {
        lemma_euclid_canonical(r1, r0 % r1, t1, mods(t0 - (r0 / r1) * t1));
    }
}

/// Every number that q does not divide has an inverse, and `inverse_of`
/// is that inverse.
pub proof fn lemma_inverse_of(a: int)
    ensures
        canonical(inverse_of(a)),
        a % 12289 != 0 ==> is_inverse(a, inverse_of(a)),
{
    if a % 12289 != 0 {
        let r = a % 12289;
        lemma_euclid_inverts(r);
        let b = euclid(12289, r, 0, 1).1;
        lemma_congruent_mul(r, a, b, b);
        assert(is_inverse(a, b));
    }
}

/// An inverse is itself no multiple of q.
pub proof fn lemma_inverse_nonzero(a: int)
    requires
        a % 12289 != 0,
    ensures
        inverse_of(a) % 12289 != 0,
        inverse_of(a) != 0,
{
    lemma_inverse_of(a);
    let u = inverse_of(a);
    if u % 12289 == 0 {
        lemma_congruent_mul(a, a, u, 0);
        assert(a * 0 == 0) by (nonlinear_arith);
    }
}

/// The product of two numbers that q does not divide is no multiple of q.
pub proof fn lemma_unit_product(a: int, b: int)
    requires
        a % 12289 != 0,
        b % 12289 != 0,
    ensures
        (a * b) % 12289 != 0,
        mods(a * b) != 0,
{
    lemma_inverse_of(a);
    lemma_inverse_of(b);
    let u = inverse_of(a);
    let v = inverse_of(b);
    // (a b)(u v) = (a u)(b v) = 1, modulo q
    lemma_congruent_mul(a * u, 1, b * v, 1);
    assert((a * b) * (u * v) == (a * u) * (b * v)) by (nonlinear_arith);
    if (a * b) % 12289 == 0 {
        lemma_congruent_mul(a * b, 0, u * v, u * v);
        assert(0 * (u * v) == 0) by (nonlinear_arith);
    }
}

/// The balanced residue of `x`.
pub fn reduce(x: i64) -> (r: i32)
    ensures
        r == mods(x as int),
{
    // only numbers that are not negative are divided
    let r: i64 = if x >= 0 {
        x % 12289
    } else {
        12288 - (-(x + 1)) % 12289
    };
    if r > 6144 {
        (r - 12289) as i32
    } else {
        r as i32
    }
}

/// The inverse of `a` modulo q, by the extended Euclidean algorithm; zero
/// for a multiple of q.
pub fn invert(a: i32) -> (b: i32)
    ensures
        b == inverse_of(a as int),
{
    let residue: i32 = reduce(a as i64);
    if residue == 0 {
        return 0;
    }
    let start: i32 = if residue < 0 { residue + Q } else { residue };
    let mut r0: i32 = Q;
    let mut r1: i32 = start;
    let mut t0: i32 = 0;
    let mut t1: i32 = 1;
    while r1 != 0
        invariant
            0 <= r1 < 12289,
            0 < r0 <= 12289,
            canonical(t0 as int),
            canonical(t1 as int),
            euclid(r0 as int, r1 as int, t0 as int, t1 as int) == euclid(
                12289,
                start as int,
                0,
                1,
            ),
        decreases r1,
    {
        let k: i32 = r0 / r1;
        let r2: i32 = r0 % r1;
        assert(-100_000_000 <= k * t1 <= 100_000_000) by (nonlinear_arith)
            requires
                0 <= k <= 12289,
                -6144 <= t1 <= 6144,
        ;
        let t2: i32 = reduce(t0 as i64 - (k as i64) * (t1 as i64));
        r0 = r1;
        r1 = r2;
        t0 = t1;
        t1 = t2;
    }
    proof {
        lemma_euclid_inverts(start as int);
        lemma_inverse_of(a as int);
        lemma_congruent_mul(start as int, a as int, t0 as int, t0 as int);
        lemma_inverse_unique(a as int, t0 as int, inverse_of(a as int));
    }
    t0
}

} // verus!

