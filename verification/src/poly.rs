//! Polynomials of degree below 1024 with coefficients modulo q = 12289,
//! held as balanced residues, in coefficient form or as their values at
//! the 1024th roots of unity.
use vstd::prelude::*;
use vstd::arithmetic::power::pow;
use crate::fft::{ints, is_power_of_two, values, values_at};
use crate::modular::{
    all_canonical, canonical, congruent, inverse_of, invert, lemma_mods, lemma_mods_mul, mods,
    reduce, HALF_Q,
};
use crate::roots::lemma_omega_pair;
use crate::trits::{decode, encode, lemma_max_values, trits_of, trits_value, Trit};

verus! {

/// Coefficients in a polynomial.
pub const N: usize = 1024;

/// Trits that encode one coefficient.
pub const COEFF_TRITS: usize = 9;

/// A primitive 1024th root of unity modulo q.
pub const OMEGA: i32 = 49;

/// The inverse of that root.
pub const OMEGA_INV: i32 = 1254;

/// The inverse of 1024, as a balanced residue.
pub const N_INV: i32 = -12;

/// Whether `p` has 1024 coefficients, each a balanced residue.
pub open spec fn is_canonical(p: Seq<int>) -> bool {
    p.len() == N && all_canonical(p)
}

/// The value of the polynomial with coefficients `p` at `x`.
pub open spec fn eval(p: Seq<int>, x: int) -> int
    decreases p.len(),
{
    if p.len() == 0 {
        0
    } else {
        eval(p.drop_last(), x) + p.last() * pow(x, (p.len() - 1) as nat)
    }
}

/// The values of `p` at the powers of `root`, each times `scale`.
pub open spec fn transformed(p: Seq<int>, root: int, scale: int) -> Seq<int> {
    Seq::new(N as nat, |i: int| mods(scale * eval(p, pow(root, i as nat))))
}

/// The values of `p` at the 1024th roots of unity.
pub open spec fn ntt_of(p: Seq<int>) -> Seq<int> {
    transformed(p, OMEGA as int, 1)
}

/// The coefficients of the polynomial whose values at the roots of unity
/// are `p`.
pub open spec fn intt_of(p: Seq<int>) -> Seq<int> {
    transformed(p, OMEGA_INV as int, N_INV as int)
}

/// The polynomial whose first coefficients are the trits of `s` and whose
/// other coefficients are zero.
pub open spec fn small_of(s: Seq<Trit>) -> Seq<int> {
    Seq::new(
        N as nat,
        |i: int|
            if i < s.len() {
                s[i].value()
            } else {
                0
            },
    )
}

/// Whether `p` has 1024 coefficients, each -1, 0 or 1.
pub open spec fn is_small(p: Seq<int>) -> bool {
    p.len() == N && forall|i: int| 0 <= i < N ==> -1 <= #[trigger] p[i] <= 1
}

/// The coefficients that a trit string of 9216 trits encodes, nine trits
/// each.
pub open spec fn decoded(s: Seq<Trit>) -> Seq<int> {
    Seq::new(N as nat, |i: int| trits_value(s.subrange(9 * i, 9 * i + 9)))
}

/// The trits that encode the coefficients `p`, nine trits each.
pub open spec fn encoded(p: Seq<int>) -> Seq<Trit>
    decreases p.len(),
{
    if p.len() == 0 {
        Seq::empty()
    } else {
        encoded(p.drop_last()) + trits_of(p.last(), 9)
    }
}

/// Each coefficient of `p` reduced modulo 3.
pub open spec fn rounded(p: Seq<int>) -> Seq<Trit> {
    Seq::new(p.len(), |i: int| Trit::of(p[i]))
}

/// Each coefficient of `p` times three.
pub open spec fn tripled(p: Seq<int>) -> Seq<int> {
    Seq::new(p.len(), |i: int| mods(3 * p[i]))
}

/// Each coefficient of `a` times the same coefficient of `b`.
pub open spec fn pointwise(a: Seq<int>, b: Seq<int>) -> Seq<int> {
    Seq::new(a.len(), |i: int| mods(a[i] * b[i]))
}

/// Each coefficient of `a` plus `sign` times the same coefficient of `b`.
pub open spec fn combined(a: Seq<int>, b: Seq<int>, sign: int) -> Seq<int> {
    Seq::new(a.len(), |i: int| mods(a[i] + sign * b[i]))
}

/// Each coefficient of `p` inverted; a zero stays zero.
pub open spec fn inverted(p: Seq<int>) -> Seq<int> {
    Seq::new(p.len(), |i: int| inverse_of(p[i]))
}

/// Whether no coefficient of `p` is zero.
pub open spec fn invertible(p: Seq<int>) -> bool {
    forall|i: int| 0 <= i < p.len() ==> #[trigger] p[i] != 0
}

/// Every coefficient is encoded in nine trits.
pub proof fn lemma_encoded_len(p: Seq<int>)
    ensures
        encoded(p).len() == 9 * p.len(),
    decreases p.len(),
{
    if p.len() > 0 {
        lemma_encoded_len(p.drop_last());
        crate::trits::lemma_trits_of_len(p.last(), 9);
    }
}

/// Every transform gives balanced residues.
pub proof fn lemma_transformed_canonical(p: Seq<int>, root: int, scale: int)
    ensures
        is_canonical(transformed(p, root, scale)),
{
    let t = transformed(p, root, scale);
    assert forall|i: int| 0 <= i < N implies canonical(#[trigger] t[i]) by {
        lemma_mods(scale * eval(p, pow(root, i as nat)));
    }
}

/// A pointwise product of 1024 coefficients gives balanced residues.
pub proof fn lemma_pointwise_canonical(a: Seq<int>, b: Seq<int>)
    requires
        a.len() == N,
    ensures
        is_canonical(pointwise(a, b)),
{
    assert forall|i: int| 0 <= i < N implies canonical(#[trigger] pointwise(a, b)[i]) by {
        lemma_mods(a[i] * b[i]);
    }
}

/// The nine trits that encode coefficient `i` stand at their place in the
/// encoding.
pub proof fn lemma_encoded_window(p: Seq<int>, i: int)
    requires
        0 <= i < p.len(),
    ensures
        encoded(p).subrange(9 * i, 9 * i + 9) == trits_of(p[i], 9),
    decreases p.len(),
{
    let head = p.drop_last();
    lemma_encoded_len(head);
    lemma_encoded_len(p);
    crate::trits::lemma_trits_of_len(p.last(), 9);
    if i < p.len() - 1 {
        lemma_encoded_window(head, i);
        assert(encoded(p).subrange(9 * i, 9 * i + 9) =~= encoded(head).subrange(9 * i, 9 * i + 9));
    } else {
        assert(encoded(p).subrange(9 * i, 9 * i + 9) =~= trits_of(p.last(), 9));
    }
}

/// Decoding the encoding of a polynomial gives the polynomial.
pub proof fn lemma_decoded_encoded(p: Seq<int>)
    requires
        is_canonical(p),
    ensures
        encoded(p).len() == 9 * N,
        decoded(encoded(p)) == p,
{
    lemma_encoded_len(p);
    assert forall|i: int| 0 <= i < N implies decoded(encoded(p))[i] == p[i] by {
        lemma_encoded_window(p, i);
        assert(canonical(p[i]));
        lemma_max_values();
        crate::trits::lemma_value_of_trits(p[i], 9);
    }
    assert(decoded(encoded(p)) =~= p);
}

/// Encoding what a trit string of 9216 trits decodes to gives the string.
pub proof fn lemma_encoded_decoded(s: Seq<Trit>)
    requires
        s.len() == 9 * N,
    ensures
        encoded(decoded(s)) == s,
{
    let p = decoded(s);
    lemma_encoded_len(p);
    assert forall|k: int| 0 <= k < 9 * N implies encoded(p)[k] == s[k] by {
        let i = k / 9;
        lemma_encoded_window(p, i);
        let w = s.subrange(9 * i, 9 * i + 9);
        crate::trits::lemma_trits_of_value(w);
        assert(encoded(p).subrange(9 * i, 9 * i + 9)[k - 9 * i] == encoded(p)[k]);
        assert(w[k - 9 * i] == s[k]);
    }
    assert(encoded(p) =~= s);
}

/// A pointwise product of values that have inverses has inverses.
pub proof fn lemma_pointwise_invertible(a: Seq<int>, b: Seq<int>)
    requires
        is_canonical(a),
        is_canonical(b),
        invertible(a),
        invertible(b),
    ensures
        invertible(pointwise(a, b)),
{
    assert forall|i: int| 0 <= i < N implies #[trigger] pointwise(a, b)[i] != 0 by {
        assert(canonical(a[i]) && canonical(b[i]));
        assert(a[i] != 0 && b[i] != 0);
        crate::modular::lemma_unit_product(a[i], b[i]);
    }
}

/// The inverses of values that have inverses are balanced residues that
/// have inverses.
pub proof fn lemma_inverted_invertible(a: Seq<int>)
    requires
        is_canonical(a),
        invertible(a),
    ensures
        is_canonical(inverted(a)),
        invertible(inverted(a)),
{
    assert forall|i: int| 0 <= i < N implies canonical(#[trigger] inverted(a)[i]) && inverted(
        a,
    )[i] != 0 by {
        assert(canonical(a[i]));
        assert(a[i] != 0);
        crate::modular::lemma_inverse_of(a[i]);
        crate::modular::lemma_inverse_nonzero(a[i]);
    }
}

/// The small polynomial of a trit string is small.
pub proof fn lemma_small_of(s: Seq<Trit>)
    ensures
        is_small(small_of(s)),
        is_canonical(small_of(s)),
{
}

/// A polynomial: 1024 coefficients, each a balanced residue modulo q.
#[derive(Debug, Hash)]
pub struct Poly {
    c: Vec<i32>,
}

impl View for Poly {
    type V = Seq<int>;

    closed spec fn view(&self) -> Seq<int> {
        Seq::new(self.c@.len(), |i: int| self.c@[i] as int)
    }
}

impl Clone for Poly {
    /// A second polynomial with the same coefficients.
    fn clone(&self) -> (p: Self)
        ensures
            p@ == self@,
    {
        let c = self.c.clone();
        assert(c@ =~= self.c@);
        Poly { c }
    }
}

impl Poly {
    /// The polynomial has its 1024 coefficients, each a balanced residue.
    pub open spec fn wf(&self) -> bool {
        is_canonical(self@)
    }

    /// The zero polynomial.
    pub fn new() -> (p: Poly)
        ensures
            p.wf(),
            p@ == Seq::new(N as nat, |i: int| 0int),
    {
        let mut c: Vec<i32> = Vec::with_capacity(N);
        let mut i: usize = 0;
        while i < N
            invariant
                i <= N,
                c@.len() == i,
                forall|k: int| 0 <= k < i ==> c@[k] == 0,
            decreases N - i,
        {
            c.push(0);
            i += 1;
        }
        let p = Poly { c };
        assert(p@ =~= Seq::new(N as nat, |i: int| 0int));
        p
    }

    /// The coefficients, in a vector of their own.
    pub fn coefficients(&self) -> (v: Vec<i32>)
        ensures
            v@.len() == self@.len(),
            forall|i: int| 0 <= i < v@.len() ==> v@[i] as int == self@[i],
    {
        let v = self.c.clone();
        assert(v@ =~= self.c@);
        v
    }

    /// Sets the polynomial to the small polynomial of the trits of `s`.
    pub fn small_from_trits(&mut self, s: &[Trit])
        requires
            old(self).wf(),
            s@.len() <= N,
        ensures
            final(self).wf(),
            final(self)@ == small_of(s@),
    {
        let n: usize = s.len();
        let mut i: usize = 0;
        while i < N
            invariant
                i <= N,
                n == s@.len(),
                n <= N,
                self.c@.len() == N,
                forall|k: int| 0 <= k < i ==> self.c@[k] == small_of(s@)[k],
            decreases N - i,
        {
            let v: i32 = if i < n { s[i].to_i8() as i32 } else { 0 };
            self.c[i] = v;
            i += 1;
        }
        assert(self@ =~= small_of(s@));
    }

    /// Multiplies every coefficient by three.
    pub fn small_mul3(&mut self)
        requires
            old(self).wf(),
        ensures
            final(self).wf(),
            final(self)@ == tripled(old(self)@),
    {
        let mut i: usize = 0;
        while i < N
            invariant
                i <= N,
                self.c@.len() == N,
                old(self).wf(),
                forall|k: int| 0 <= k < i ==> self.c@[k] == tripled(old(self)@)[k],
                forall|k: int| i <= k < N ==> self.c@[k] == old(self)@[k],
            decreases N - i,
        {
            assert(canonical(old(self)@[i as int]));
            let v = reduce(3 * (self.c[i] as i64));
            self.c[i] = v;
            i += 1;
        }
        assert(self@ =~= tripled(old(self)@));
    }

    /// Adds one to the constant coefficient.
    pub fn small3_add1(&mut self)
        requires
            old(self).wf(),
        ensures
            final(self).wf(),
            final(self)@ == old(self)@.update(0, mods(old(self)@[0] + 1)),
    {
        assert(canonical(old(self)@[0]));
        let v = reduce(self.c[0] as i64 + 1);
        self.c[0] = v;
        assert(self@ =~= old(self)@.update(0, mods(old(self)@[0] + 1)));
        assert forall|i: int| 0 <= i < N implies canonical(#[trigger] self@[i]) by {
            if i > 0 {
                assert(canonical(old(self)@[i]));
            }
        }
    }

    /// Replaces the coefficients by `scale` times the values of the
    /// polynomial at the powers of `root`, a primitive 1024th root of
    /// unity.
    fn transform(&mut self, root: i32, scale: i32)
        requires
            old(self).wf(),
            canonical(root as int),
            canonical(scale as int),
            congruent(pow(root as int, 512), -1),
        ensures
            final(self).wf(),
            final(self)@ == transformed(old(self)@, root as int, scale as int),
    {
        let ghost p = self@;
        proof {
            assert(is_power_of_two(1024)) by {
                reveal_with_fuel(is_power_of_two, 12);
            }
            assert(ints(self.c@) =~= p);
        }
        let mut out = values(&self.c, root);
        assert(out@.len() == N) by {
            assert(ints(out@).len() == values_at(p, root as int).len());
        }
        assert forall|k: int| 0 <= k < N implies #[trigger] out@[k] == mods(
            eval(p, pow(root as int, k as nat)),
        ) by {
            assert(ints(out@)[k] == values_at(p, root as int)[k]);
        }
        let mut i: usize = 0;
        while i < N
            invariant
                i <= N,
                out@.len() == N,
                canonical(scale as int),
                forall|k: int|
                    0 <= k < i ==> #[trigger] out@[k] == mods(
                        scale * eval(p, pow(root as int, k as nat)),
                    ),
                forall|k: int|
                    i <= k < N ==> #[trigger] out@[k] == mods(eval(p, pow(root as int, k as nat))),
            decreases N - i,
        {
            let v: i32 = out[i];
            proof {
                lemma_mods(eval(p, pow(root as int, i as nat)));
                lemma_mods_mul(scale as int, eval(p, pow(root as int, i as nat)));
                assert(-40_000_000 <= scale * v <= 40_000_000) by (nonlinear_arith)
                    requires
                        -6144 <= scale <= 6144,
                        -6144 <= v <= 6144,
                ;
            }
            out[i] = reduce((scale as i64) * (v as i64));
            i += 1;
        }
        self.c = out;
        proof {
            assert(self@ =~= transformed(p, root as int, scale as int));
            lemma_transformed_canonical(p, root as int, scale as int);
        }
    }

    /// From coefficient form to the values at the roots of unity.
    pub fn ntt(&mut self)
        requires
            old(self).wf(),
        ensures
            final(self).wf(),
            final(self)@ == ntt_of(old(self)@),
    {
        proof {
            lemma_omega_pair();
        }
        self.transform(OMEGA, 1);
    }

    /// From the values at the roots of unity to coefficient form.
    pub fn intt(&mut self)
        requires
            old(self).wf(),
        ensures
            final(self).wf(),
            final(self)@ == intt_of(old(self)@),
    {
        proof {
            lemma_omega_pair();
        }
        self.transform(OMEGA_INV, N_INV);
    }

    /// Whether every coefficient has an inverse, that is, none is zero.
    pub fn has_inv(&self) -> (yes: bool)
        requires
            self.wf(),
        ensures
            yes == invertible(self@),
    {
        let mut zeros: usize = 0;
        let mut i: usize = 0;
        while i < N
            invariant
                i <= N,
                self.c@.len() == N,
                zeros <= i,
                (zeros == 0) == (forall|k: int| 0 <= k < i ==> #[trigger] self@[k] != 0),
            decreases N - i,
        {
            if self.c[i] == 0 {
                assert(self@[i as int] == 0);
                zeros = zeros + 1;
            }
            i += 1;
        }
        zeros == 0
    }

    /// Replaces every coefficient by its inverse; a zero stays zero.
    pub fn inv(&mut self)
        requires
            old(self).wf(),
        ensures
            final(self).wf(),
            final(self)@ == inverted(old(self)@),
    {
        let mut i: usize = 0;
        while i < N
            invariant
                i <= N,
                self.c@.len() == N,
                old(self).wf(),
                forall|k: int| 0 <= k < i ==> self.c@[k] == inverted(old(self)@)[k],
                forall|k: int| i <= k < N ==> self.c@[k] == old(self)@[k],
            decreases N - i,
        {
            assert(canonical(old(self)@[i as int]));
            let v = invert(self.c[i]);
            self.c[i] = v;
            i += 1;
        }
        assert(self@ =~= inverted(old(self)@));
        assert forall|k: int| 0 <= k < N implies canonical(#[trigger] self@[k]) by {
            crate::modular::lemma_inverse_of(old(self)@[k]);
        }
    }

    /// Multiplies every coefficient by the same coefficient of `other`.
    pub fn conv(&mut self, other: &Poly)
        requires
            old(self).wf(),
            other.wf(),
        ensures
            final(self).wf(),
            final(self)@ == pointwise(old(self)@, other@),
    {
        let mut i: usize = 0;
        while i < N
            invariant
                i <= N,
                self.c@.len() == N,
                other.c@.len() == N,
                old(self).wf(),
                other.wf(),
                forall|k: int| 0 <= k < i ==> self.c@[k] == pointwise(old(self)@, other@)[k],
                forall|k: int| i <= k < N ==> self.c@[k] == old(self)@[k],
            decreases N - i,
        {
            let a: i32 = self.c[i];
            let b: i32 = other.c[i];
            proof {
                assert(canonical(old(self)@[i as int]));
                assert(canonical(other@[i as int]));
                assert(-40_000_000 <= a * b <= 40_000_000) by (nonlinear_arith)
                    requires
                        -6144 <= a <= 6144,
                        -6144 <= b <= 6144,
                ;
            }
            let v = reduce((a as i64) * (b as i64));
            self.c[i] = v;
            i += 1;
        }
        assert(self@ =~= pointwise(old(self)@, other@));
    }

    /// Adds `sign` times the small polynomial of `s`.
    fn combine_small(&mut self, s: &[Trit], sign: i8)
        requires
            old(self).wf(),
            s@.len() <= N,
            sign == 1 || sign == -1,
        ensures
            final(self).wf(),
            final(self)@ == combined(old(self)@, small_of(s@), sign as int),
    {
        let n: usize = s.len();
        let mut i: usize = 0;
        while i < N
            invariant
                i <= N,
                n == s@.len(),
                n <= N,
                sign == 1 || sign == -1,
                self.c@.len() == N,
                old(self).wf(),
                forall|k: int|
                    0 <= k < i ==> self.c@[k] == combined(
                        old(self)@,
                        small_of(s@),
                        sign as int,
                    )[k],
                forall|k: int| i <= k < N ==> self.c@[k] == old(self)@[k],
            decreases N - i,
        {
            assert(canonical(old(self)@[i as int]));
            let t: i64 = if i < n { s[i].to_i8() as i64 } else { 0 };
            let signed: i64 = if sign == 1 { t } else { -t };
            assert(signed == sign * small_of(s@)[i as int]);
            let v = reduce(self.c[i] as i64 + signed);
            self.c[i] = v;
            i += 1;
        }
        assert(self@ =~= combined(old(self)@, small_of(s@), sign as int));
    }

    /// Adds the small polynomial of the trits of `s`.
    pub fn add_small(&mut self, s: &[Trit])
        requires
            old(self).wf(),
            s@.len() <= N,
        ensures
            final(self).wf(),
            final(self)@ == combined(old(self)@, small_of(s@), 1),
    {
        self.combine_small(s, 1);
    }

    /// Subtracts the small polynomial of the trits of `s`.
    pub fn sub_small(&mut self, s: &[Trit])
        requires
            old(self).wf(),
            s@.len() <= N,
        ensures
            final(self).wf(),
            final(self)@ == combined(old(self)@, small_of(s@), -1),
    {
        self.combine_small(s, -1);
    }

    /// Reads 9216 trits as 1024 coefficients of nine trits each. Succeeds,
    /// and takes the coefficients, exactly when each of them is a balanced
    /// residue; otherwise the polynomial is left as it was.
    pub fn from_trits(&mut self, s: &[Trit]) -> (ok: bool)
        requires
            old(self).wf(),
            s@.len() == 9 * N,
        ensures
            final(self).wf(),
            ok == is_canonical(decoded(s@)),
            ok ==> final(self)@ == decoded(s@),
            !ok ==> final(self)@ == old(self)@,
    {
        let mut c: Vec<i32> = Vec::with_capacity(N);
        let mut bad: usize = 0;
        let mut i: usize = 0;
        while i < N
            invariant
                i <= N,
                s@.len() == 9 * N,
                c@.len() == i,
                bad <= i,
                forall|k: int| 0 <= k < i ==> c@[k] == decoded(s@)[k],
                (bad == 0) == (forall|k: int| 0 <= k < i ==> canonical(#[trigger] decoded(s@)[k])),
            decreases N - i,
        {
            let window = vstd::slice::slice_subrange(s, 9 * i, 9 * i + 9);
            let v: i32 = decode(window);
            if v < -HALF_Q || v > HALF_Q {
                assert(!canonical(decoded(s@)[i as int]));
                bad = bad + 1;
            }
            c.push(v);
            i += 1;
        }
        if bad == 0 {
            self.c = c;
            assert(self@ =~= decoded(s@));
            true
        } else {
            false
        }
    }

    /// Writes the coefficients as 9216 trits, nine trits each.
    pub fn to_trits(&self, out: &mut [Trit])
        requires
            self.wf(),
            old(out)@.len() == 9 * N,
        ensures
            final(out)@ == encoded(self@),
            final(out)@.len() == 9 * N,
    {
        let mut i: usize = 0;
        assert(out@.take(0) =~= encoded(self@.take(0)));
        while i < N
            invariant
                i <= N,
                self.wf(),
                self.c@.len() == N,
                out@.len() == 9 * N,
                out@.take(9 * i) == encoded(self@.take(i as int)),
            decreases N - i,
        {
            let ghost before = out@;
            let v: i32 = self.c[i];
            proof {
                assert(canonical(self@[i as int]));
                lemma_max_values();
            }
            let (head, tail) = out.split_at_mut(9 * i);
            let (window, rest) = tail.split_at_mut(9);
            encode(window, v);
            proof {
                let next = self@.take(i as int + 1);
                assert(next.drop_last() =~= self@.take(i as int));
                assert(next.last() == v);
                crate::trits::lemma_trits_of_len(v as int, 9);
                assert(out@.take(9 * i + 9) =~= before.take(9 * i) + trits_of(v as int, 9));
            }
            i += 1;
        }
        assert(out@.take(9 * N as int) =~= out@);
        assert(self@.take(N as int) =~= self@);
    }

    /// Writes each coefficient reduced modulo 3 as one trit.
    pub fn round_to_trits(&self, out: &mut [Trit])
        requires
            self.wf(),
            old(out)@.len() == N,
        ensures
            final(out)@ == rounded(self@),
            final(out)@.len() == N,
    {
        let mut i: usize = 0;
        while i < N
            invariant
                i <= N,
                self.c@.len() == N,
                out@.len() == N,
                forall|k: int| 0 <= k < i ==> out@[k] == rounded(self@)[k],
            decreases N - i,
        {
            out[i] = Trit::from_i32(self.c[i]);
            i += 1;
        }
        assert(out@ =~= rounded(self@));
    }
}

} // verus!
