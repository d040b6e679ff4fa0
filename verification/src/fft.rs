//! The fast transform: the values of a polynomial at all the powers of a
//! root of unity, by splitting it into its even and its odd coefficients.
use vstd::prelude::*;
use vstd::arithmetic::power::{lemma_pow_adds, lemma_pow_distributes, pow};
use crate::modular::{
    all_canonical, canonical, congruent, lemma_congruent_mul, lemma_mods, mods, reduce,
};
use crate::poly::eval;
use crate::ring::lemma_eval_congruent;
use crate::roots::lemma_pow_congruent;

verus! {

/// The integers that a sequence of machine integers holds.
pub open spec fn ints(v: Seq<i32>) -> Seq<int> {
    Seq::new(v.len(), |i: int| v[i] as int)
}

/// The values of `p` at the first powers of `root`, as many as `p` has
/// coefficients.
pub open spec fn values_at(p: Seq<int>, root: int) -> Seq<int> {
    Seq::new(p.len(), |i: int| mods(eval(p, pow(root, i as nat))))
}

/// The coefficients of `p` at the even indices.
pub open spec fn evens(p: Seq<int>) -> Seq<int> {
    Seq::new(p.len() / 2, |j: int| p[2 * j])
}

/// The coefficients of `p` at the odd indices.
pub open spec fn odds(p: Seq<int>) -> Seq<int> {
    Seq::new(p.len() / 2, |j: int| p[2 * j + 1])
}

/// Whether `n` is a power of two.
pub open spec fn is_power_of_two(n: nat) -> bool
    decreases n,
{
    n == 1 || (n > 1 && n % 2 == 0 && is_power_of_two(n / 2))
}

/// A polynomial is its even part at x^2, plus x times its odd part at x^2.
pub proof fn lemma_eval_split(p: Seq<int>, x: int)
    requires
        p.len() % 2 == 0,
    ensures
        eval(p, x) == eval(evens(p), x * x) + x * eval(odds(p), x * x),
    decreases p.len(),
{
    if p.len() == 0 {
        assert(x * 0 == 0) by (nonlinear_arith);
    } else {
        let n = p.len();
        let m = (n / 2) as nat;
        let shorter = p.drop_last().drop_last();
        let a = p[n - 2];
        let b = p[n - 1];
        lemma_eval_split(shorter, x);
        assert(evens(p).drop_last() =~= evens(shorter));
        assert(odds(p).drop_last() =~= odds(shorter));
        assert(evens(p).last() == a);
        assert(odds(p).last() == b);
        assert(p.drop_last().last() == a);
        // (x^2)^(m-1) = x^(n-2), and x times it is x^(n-1)
        let e = (m - 1) as nat;
        let y = pow(x, (n - 2) as nat);
        assert(pow(x * x, e) == y) by {
            lemma_pow_distributes(x, x, e);
            lemma_pow_adds(x, e, e);
            assert(e + e == n - 2);
        }
        assert(pow(x, (n - 1) as nat) == x * y) by {
            reveal(pow);
        }
        let se = eval(evens(shorter), x * x);
        let so = eval(odds(shorter), x * x);
        assert(eval(p.drop_last(), x) == eval(shorter, x) + a * y);
        assert(eval(p, x) == eval(shorter, x) + a * y + b * (x * y));
        assert(eval(evens(p), x * x) == se + a * y);
        assert(eval(odds(p), x * x) == so + b * y);
        assert(x * (so + b * y) == x * so + b * (x * y)) by (nonlinear_arith);
    }
}

/// The value of a polynomial at congruent points is congruent.
proof fn lemma_eval_point(u: Seq<int>, x: int, y: int)
    requires
        congruent(x, y),
    ensures
        congruent(eval(u, x), eval(u, y)),
{
    lemma_eval_congruent(u, u, x, y);
}

/// One half of a butterfly: from the values of the two halves at the
/// square of a point to the value of the whole at the point.
proof fn lemma_butterfly(p: Seq<int>, x: int, square: int, e: int, o: int, w: int)
    requires
        p.len() % 2 == 0,
        congruent(square, x * x),
        congruent(e, eval(evens(p), square)),
        congruent(o, eval(odds(p), square)),
        congruent(w, x),
    ensures
        congruent(e + w * o, eval(p, x)),
{
    lemma_eval_point(evens(p), square, x * x);
    lemma_eval_point(odds(p), square, x * x);
    lemma_eval_split(p, x);
    lemma_congruent_mul(w, x, o, eval(odds(p), x * x));
}

/// The points of one butterfly: the power of the squared root is the
/// square of both points, and the second point is minus the first.
proof fn lemma_points(root: int, r2: int, i: nat, h: nat)
    requires
        congruent(r2, root * root),
        congruent(pow(root, h), -1),
    ensures
        congruent(pow(r2, i), pow(root, i) * pow(root, i)),
        congruent(pow(r2, i), pow(root, i + h) * pow(root, i + h)),
        congruent(pow(root, i + h), -pow(root, i)),
{
    let x = pow(root, i);
    let y = pow(root, i + h);
    lemma_pow_congruent(r2, root * root, i);
    lemma_pow_distributes(root, root, i);
    lemma_pow_adds(root, i, h);
    lemma_congruent_mul(x, x, pow(root, h), -1);
    assert(x * -1 == -x) by (nonlinear_arith);
    lemma_congruent_mul(y, -x, y, -x);
    assert((-x) * (-x) == x * x) by (nonlinear_arith);
}

/// The next power of the root, from the balanced residue of this one.
proof fn lemma_next_power(root: int, i: nat, w: int)
    requires
        w == mods(pow(root, i)),
    ensures
        mods(w * root) == mods(pow(root, i + 1)),
{
    let x = pow(root, i);
    lemma_mods(x);
    lemma_congruent_mul(w, x, root, root);
    assert(pow(root, i + 1) == root * x) by {
        reveal(pow);
    }
    assert(x * root == root * x) by (nonlinear_arith);
}

/// The lower output of a butterfly: the even value plus the twisted odd
/// value is the value of the whole at the point.
proof fn lemma_lower(p: Seq<int>, x: int, square: int, e: int, o: int, w: int, t: int)
    requires
        p.len() % 2 == 0,
        congruent(square, x * x),
        e == mods(eval(evens(p), square)),
        o == mods(eval(odds(p), square)),
        w == mods(x),
        t == mods(w * o),
    ensures
        mods(e + t) == mods(eval(p, x)),
{
    lemma_mods(eval(evens(p), square));
    lemma_mods(eval(odds(p), square));
    lemma_mods(x);
    lemma_mods(w * o);
    lemma_butterfly(p, x, square, e, o, w);
}

/// The upper output of a butterfly: the even value minus the twisted odd
/// value is the value of the whole at minus the point.
proof fn lemma_upper(p: Seq<int>, x: int, y: int, square: int, e: int, o: int, w: int, t: int)
    requires
        p.len() % 2 == 0,
        congruent(square, y * y),
        congruent(y, -x),
        e == mods(eval(evens(p), square)),
        o == mods(eval(odds(p), square)),
        w == mods(x),
        t == mods(w * o),
    ensures
        mods(e - t) == mods(eval(p, y)),
{
    lemma_mods(eval(evens(p), square));
    lemma_mods(eval(odds(p), square));
    lemma_mods(x);
    lemma_mods(w * o);
    assert(congruent(-w, y));
    lemma_butterfly(p, y, square, e, o, -w);
    assert((-w) * o == -(w * o)) by (nonlinear_arith);
}

/// A whole butterfly, on balanced residues: the sum and the difference of
/// the even value and the twisted odd value are the values of the whole at
/// the two points.
proof fn lemma_butterflies(
    p: Seq<int>,
    root: int,
    r2: int,
    i: nat,
    h: nat,
    e: int,
    o: int,
    w: int,
    t: int,
)
    requires
        p.len() == 2 * h,
        congruent(r2, root * root),
        congruent(pow(root, h), -1),
        e == mods(eval(evens(p), pow(r2, i))),
        o == mods(eval(odds(p), pow(r2, i))),
        w == mods(pow(root, i)),
        t == mods(w * o),
    ensures
        mods(e + t) == mods(eval(p, pow(root, i))),
        mods(e - t) == mods(eval(p, pow(root, i + h))),
        mods(w * root) == mods(pow(root, i + 1)),
{
    lemma_points(root, r2, i, h);
    lemma_lower(p, pow(root, i), pow(r2, i), e, o, w, t);
    lemma_upper(p, pow(root, i), pow(root, i + h), pow(r2, i), e, o, w, t);
    lemma_next_power(root, i, w);
}

/// The coefficients at the even and at the odd indices.
fn halves(p: &Vec<i32>) -> (r: (Vec<i32>, Vec<i32>))
    requires
        p@.len() % 2 == 0,
    ensures
        r.0@.len() == p@.len() / 2,
        r.1@.len() == p@.len() / 2,
        ints(r.0@) == evens(ints(p@)),
        ints(r.1@) == odds(ints(p@)),
{
    let h: usize = p.len() / 2;
    assert(p@.len() == 2 * h);
    let mut even: Vec<i32> = Vec::with_capacity(h);
    let mut odd: Vec<i32> = Vec::with_capacity(h);
    let mut j: usize = 0;
    while j < h
        invariant
            j <= h,
            p@.len() == 2 * h,
            2 * h <= usize::MAX,
            even@.len() == j,
            odd@.len() == j,
            forall|k: int| 0 <= k < j ==> even@[k] == p@[2 * k],
            forall|k: int| 0 <= k < j ==> odd@[k] == p@[2 * k + 1],
        decreases h - j,
    {
        even.push(p[2 * j]);
        odd.push(p[2 * j + 1]);
        j += 1;
    }
    assert(ints(even@) =~= evens(ints(p@)));
    assert(ints(odd@) =~= odds(ints(p@)));
    (even, odd)
}

/// The values of the polynomial `p` at the first powers of `root`, as many
/// as `p` has coefficients. The number of coefficients is a power of two,
/// and `root` to half that number is -1.
pub fn values(p: &Vec<i32>, root: i32) -> (out: Vec<i32>)
    requires
        is_power_of_two(p@.len()),
        p@.len() <= 1024,
        all_canonical(ints(p@)),
        canonical(root as int),
        p@.len() >= 2 ==> congruent(pow(root as int, p@.len() / 2), -1),
    ensures
        ints(out@) == values_at(ints(p@), root as int),
    decreases p@.len(),
{
    let n: usize = p.len();
    let ghost poly = ints(p@);
    if n == 1 {
        let mut out: Vec<i32> = Vec::with_capacity(1);
        out.push(p[0]);
        proof {
            let x = pow(root as int, 0);
            assert(x == 1) by {
                reveal(pow);
            }
            assert(pow(x, 0) == 1) by {
                reveal(pow);
            }
            assert(poly.drop_last().len() == 0);
            assert(eval(poly.drop_last(), x) == 0);
            assert(poly.last() == poly[0]);
            assert(canonical(poly[0]));
            assert(poly[0] * 1 == poly[0]) by (nonlinear_arith);
            assert(eval(poly, x) == poly[0]);
            assert(ints(out@) =~= values_at(poly, root as int));
        }
        return out;
    }
    let h: usize = n / 2;
    assert(n == 2 * h && h >= 1 && is_power_of_two(h as nat));
    let (even, odd) = halves(p);
    assert(-40_000_000 <= root * root <= 40_000_000) by (nonlinear_arith)
        requires
            -6144 <= root <= 6144,
    ;
    let r2: i32 = reduce((root as i64) * (root as i64));
    proof {
        lemma_mods(root * root);
        assert forall|k: int| 0 <= k < h implies canonical(#[trigger] evens(poly)[k]) && canonical(
            #[trigger] odds(poly)[k],
        ) by {
            assert(canonical(poly[2 * k]));
            assert(canonical(poly[2 * k + 1]));
        }
        if h >= 2 {
            // root^2 to the quarter is root to the half
            let q = (h / 2) as nat;
            lemma_pow_congruent(r2 as int, root * root, q);
            lemma_pow_distributes(root as int, root as int, q);
            lemma_pow_adds(root as int, q, q);
        }
    }
    let e = values(&even, r2);
    let o = values(&odd, r2);

    let mut out: Vec<i32> = Vec::with_capacity(n);
    let mut k: usize = 0;
    while k < n
        invariant
            k <= n,
            out@.len() == k,
        decreases n - k,
    {
        out.push(0);
        k += 1;
    }
    let mut w: i32 = 1;
    let mut i: usize = 0;
    let ghost pe = evens(poly);
    let ghost po = odds(poly);
    proof {
        assert(pow(root as int, 0) == 1) by {
            reveal(pow);
        }
        assert(ints(e@).len() == h && ints(o@).len() == h);
        assert forall|k: int| 0 <= k < h implies #[trigger] e@[k] == mods(
            eval(pe, pow(r2 as int, k as nat)),
        ) by {
            assert(ints(e@)[k] == values_at(pe, r2 as int)[k]);
        }
        assert forall|k: int| 0 <= k < h implies #[trigger] o@[k] == mods(
            eval(po, pow(r2 as int, k as nat)),
        ) by {
            assert(ints(o@)[k] == values_at(po, r2 as int)[k]);
        }
    }
    while i < h
        invariant
            i <= h,
            n == 2 * h,
            h >= 1,
            poly.len() == n,
            pe == evens(poly),
            po == odds(poly),
            out@.len() == n,
            e@.len() == h,
            o@.len() == h,
            forall|k: int|
                0 <= k < h ==> #[trigger] e@[k] == mods(eval(pe, pow(r2 as int, k as nat))),
            forall|k: int|
                0 <= k < h ==> #[trigger] o@[k] == mods(eval(po, pow(r2 as int, k as nat))),
            canonical(root as int),
            congruent(r2 as int, root * root),
            congruent(pow(root as int, h as nat), -1),
            w == mods(pow(root as int, i as nat)),
            forall|k: int|
                0 <= k < i ==> #[trigger] out@[k] == mods(eval(poly, pow(root as int, k as nat))),
            forall|k: int|
                h <= k < h + i ==> #[trigger] out@[k] == mods(
                    eval(poly, pow(root as int, k as nat)),
                ),
        decreases h - i,
    {
        let ei: i32 = e[i];
        let oi: i32 = o[i];
        proof {
            lemma_mods(eval(pe, pow(r2 as int, i as nat)));
            lemma_mods(eval(po, pow(r2 as int, i as nat)));
            lemma_mods(pow(root as int, i as nat));
            assert(-40_000_000 <= w * oi <= 40_000_000) by (nonlinear_arith)
                requires
                    -6144 <= w <= 6144,
                    -6144 <= oi <= 6144,
            ;
            assert(-40_000_000 <= w * root <= 40_000_000) by (nonlinear_arith)
                requires
                    -6144 <= w <= 6144,
                    -6144 <= root <= 6144,
            ;
            lemma_mods(w * oi);
        }
        let t: i32 = reduce((w as i64) * (oi as i64));
        let lower: i32 = reduce(ei as i64 + t as i64);
        let upper: i32 = reduce(ei as i64 - t as i64);
        out[i] = lower;
        out[i + h] = upper;
        proof {
            lemma_butterflies(
                poly,
                root as int,
                r2 as int,
                i as nat,
                h as nat,
                ei as int,
                oi as int,
                w as int,
                t as int,
            );
        }
        w = reduce((w as i64) * (root as i64));
        i += 1;
    }
    proof {
        assert(ints(out@) =~= values_at(poly, root as int));
    }
    out
}

} // verus!
