//! Why decapsulation gives back the key that was encapsulated.
use vstd::prelude::*;
use vstd::arithmetic::div_mod::lemma_mul_mod_noop_general;
use vstd::arithmetic::power::pow;
use crate::modular::{
    all_canonical, canonical, congruent, inverse_of, lemma_congruent_mul, lemma_inverse_of,
    lemma_mods, mods,
};
use crate::ntru::{
    capsule_of, decapsulated, encapsulated, made_from, one_plus_triple, opened, private_poly,
    product,
    public_poly, scaled_poly, sealed, suitable, KeyPair, KEY_SIZE, SK_SIZE,
};
use crate::ntt::{lemma_intt_inverts_ntt, lemma_ntt_inverts_intt};
use crate::prp::PRP;
use crate::poly::{
    combined, decoded, encoded, eval, intt_of, inverted, invertible, is_canonical, is_small,
    lemma_decoded_encoded, lemma_encoded_decoded, lemma_pointwise_canonical, lemma_small_of,
    lemma_transformed_canonical,
    ntt_of, pointwise, rounded, small_of, tripled,
};
use crate::ring::{
    added, cyclic_product, cyclic_term, lemma_eval_added, lemma_eval_congruent,
    lemma_eval_product, lemma_ntt_of_reduced, lemma_omega_power, reduced,
};
use crate::spongos::{
    lemma_decrypted_inverts_encrypted, lemma_encrypted_inverts_decrypted, lemma_output_len, Duplex,
};
use crate::trits::{zeros, Trit};

verus! {

/// What decapsulation rounds: r times 3g, plus the mask times 1 + 3f, as
/// polynomials over the integers modulo x^1024 - 1.
pub open spec fn noise(f: Seq<int>, g: Seq<int>, r: Seq<Trit>, m: Seq<Trit>) -> Seq<int> {
    added(
        cyclic_product(small_of(r), tripled(g)),
        1,
        cyclic_product(small_of(m), one_plus_triple(f)),
    )
}

/// A sum of products with multiples of three is a multiple of three.
proof fn lemma_term_triple(a: Seq<int>, b: Seq<int>, i: int, n: nat)
    requires
        b.len() == 1024,
        forall|l: int| 0 <= l < 1024 ==> (#[trigger] b[l]) % 3 == 0,
    ensures
        cyclic_term(a, b, i, n) % 3 == 0,
    decreases n,
{
    if n > 0 {
        lemma_term_triple(a, b, i, (n - 1) as nat);
        let l = (i - (n - 1)) % 1024;
        assert(b[l] % 3 == 0);
        lemma_mul_mod_noop_general(a[n - 1], b[l], 3);
        assert(((a[n - 1] % 3) * 0) == 0) by (nonlinear_arith);
    }
}

/// A sum of products with a polynomial that is 1 modulo three leaves the
/// other factor's coefficient, modulo three.
proof fn lemma_term_one(a: Seq<int>, b: Seq<int>, i: int, n: nat)
    requires
        b.len() == 1024,
        0 <= i < 1024,
        n <= 1024,
        b[0] % 3 == 1,
        forall|l: int| 1 <= l < 1024 ==> (#[trigger] b[l]) % 3 == 0,
    ensures
        cyclic_term(a, b, i, n) % 3 == (if i < n {
            a[i]
        } else {
            0
        }) % 3,
    decreases n,
{
    if n > 0 {
        lemma_term_one(a, b, i, (n - 1) as nat);
        let l = (i - (n - 1)) % 1024;
        lemma_mul_mod_noop_general(a[n - 1], b[l], 3);
        if i == n - 1 {
            assert(l == 0);
            assert((a[n - 1] % 3) * 1 == a[n - 1] % 3) by (nonlinear_arith);
        } else {
            assert(1 <= l < 1024);
            assert(b[l] % 3 == 0);
            assert(((a[n - 1] % 3) * 0) == 0) by (nonlinear_arith);
        }
    }
}

/// Modulo three the noise is the mask.
proof fn lemma_noise_mod_three(f: Seq<int>, g: Seq<int>, r: Seq<Trit>, m: Seq<Trit>, i: int)
    requires
        is_small(f),
        is_small(g),
        m.len() == 1024,
        0 <= i < 1024,
    ensures
        Trit::of(noise(f, g, r, m)[i]) == m[i],
{
    let g3 = tripled(g);
    let f1 = one_plus_triple(f);
    assert forall|l: int| 0 <= l < 1024 implies (#[trigger] g3[l]) % 3 == 0 by {
        assert(-1 <= g[l] <= 1);
    }
    assert(-1 <= f[0] <= 1);
    assert(f1[0] % 3 == 1);
    assert forall|l: int| 1 <= l < 1024 implies (#[trigger] f1[l]) % 3 == 0 by {
        assert(-1 <= f[l] <= 1);
    }
    lemma_term_triple(small_of(r), g3, i, 1024);
    lemma_term_one(small_of(m), f1, i, 1024);
}

/// The arithmetic of one value: from the congruences that hold at one root
/// of unity to the value that decapsulation finds there.
proof fn lemma_value_algebra(
    er: int,
    eg: int,
    em: int,
    ef: int,
    fp: int,
    gs: int,
    u: int,
    hi: int,
    nr: int,
    et: int,
    n1: int,
)
    requires
        congruent(fp, ef),
        congruent(gs, eg),
        congruent(fp * u, 1),
        congruent(hi, u * gs),
        congruent(nr, er),
        congruent(et, nr * hi),
        congruent(n1, et + em),
    ensures
        congruent(n1 * fp, er * eg + em * ef),
{
    // et = er u gs
    lemma_congruent_mul(nr, er, hi, u * gs);
    // n1 fp = (er u gs + em) fp
    lemma_congruent_mul(n1, er * (u * gs) + em, fp, fp);
    assert((er * (u * gs) + em) * fp == (er * gs) * (fp * u) + em * fp) by (nonlinear_arith);
    lemma_congruent_mul(er * gs, er * gs, fp * u, 1);
    lemma_congruent_mul(er, er, gs, eg);
    lemma_congruent_mul(em, em, fp, ef);
}

/// The transform of the noise at one root of unity.
proof fn lemma_noise_value(f: Seq<int>, g: Seq<int>, r: Seq<Trit>, m: Seq<Trit>, i: int)
    requires
        f.len() == 1024,
        g.len() == 1024,
        0 <= i < 1024,
    ensures
        ({
            let x = pow(49, i as nat);
            congruent(
                ntt_of(reduced(noise(f, g, r, m)))[i],
                eval(small_of(r), x) * eval(tripled(g), x) + eval(small_of(m), x) * eval(
                    one_plus_triple(f),
                    x,
                ),
            )
        }),
{
    let x = pow(49, i as nat);
    let rs = small_of(r);
    let ms = small_of(m);
    let g3 = tripled(g);
    let f1 = one_plus_triple(f);
    let left = cyclic_product(rs, g3);
    let right = cyclic_product(ms, f1);
    lemma_omega_power(i as nat);
    lemma_ntt_of_reduced(added(left, 1, right), i);
    lemma_eval_added(left, 1, right, x);
    lemma_eval_product(rs, g3, x);
    lemma_eval_product(ms, f1, x);
}

/// The transform of a masked polynomial at one root of unity.
proof fn lemma_masked_value(t: Seq<int>, m: Seq<Trit>, i: int)
    requires
        t.len() == 1024,
        0 <= i < 1024,
    ensures
        ({
            let x = pow(49, i as nat);
            congruent(
                ntt_of(combined(t, small_of(m), 1))[i],
                eval(t, x) + eval(small_of(m), x),
            )
        }),
{
    let x = pow(49, i as nat);
    let ms = small_of(m);
    let t1 = combined(t, ms, 1);
    assert forall|j: int| 0 <= j < 1024 implies congruent(#[trigger] t1[j], added(t, 1, ms)[j]) by {
        lemma_mods(t[j] + 1 * ms[j]);
    }
    lemma_eval_congruent(t1, added(t, 1, ms), x, x);
    lemma_eval_added(t, 1, ms, x);
    lemma_mods(1 * eval(t1, x));
}

/// The value of the product of the randomness and the public polynomial
/// at one root of unity.
proof fn lemma_product_value(r: Seq<Trit>, h: Seq<int>, i: int)
    requires
        h.len() == 1024,
        0 <= i < 1024,
    ensures
        ({
            let x = pow(49, i as nat);
            congruent(eval(product(r, h), x), ntt_of(small_of(r))[i] * h[i])
        }),
        congruent(ntt_of(small_of(r))[i], eval(small_of(r), pow(49, i as nat))),
{
    let x = pow(49, i as nat);
    let rs = small_of(r);
    let inner = pointwise(ntt_of(rs), h);
    let t = product(r, h);
    lemma_pointwise_canonical(ntt_of(rs), h);
    lemma_ntt_inverts_intt(inner);
    assert(ntt_of(t)[i] == inner[i]);
    lemma_mods(1 * eval(t, x));
    lemma_mods(1 * eval(rs, x));
    lemma_mods(ntt_of(rs)[i] * h[i]);
}

/// What decapsulation multiplies out is the noise, reduced modulo q: at
/// one root of unity.
proof fn lemma_unmasked_at(f: Seq<int>, g: Seq<int>, r: Seq<Trit>, m: Seq<Trit>, i: int)
    requires
        is_small(f),
        is_small(g),
        suitable(f, g),
        0 <= i < 1024,
    ensures
        pointwise(
            ntt_of(combined(product(r, public_poly(f, g)), small_of(m), 1)),
            private_poly(f),
        )[i] == ntt_of(reduced(noise(f, g, r, m)))[i],
{
    let x = pow(49, i as nat);
    let rs = small_of(r);
    let ms = small_of(m);
    let g3 = tripled(g);
    let f1 = one_plus_triple(f);
    let fpoly = private_poly(f);
    let gpoly = scaled_poly(g);
    let h = public_poly(f, g);
    let t = product(r, h);
    let t1 = combined(t, ms, 1);
    lemma_noise_value(f, g, r, m, i);
    lemma_masked_value(t, m, i);
    lemma_product_value(r, h, i);
    lemma_transformed_canonical(f1, 49, 1);
    lemma_mods(1 * eval(f1, x));
    lemma_mods(1 * eval(g3, x));
    let fp = fpoly[i];
    let gs = gpoly[i];
    let u = inverse_of(fp);
    assert(canonical(fp));
    assert(fp != 0);
    lemma_inverse_of(fp);
    lemma_mods(u * gs);
    assert(h[i] == mods(u * gs));
    lemma_value_algebra(
        eval(rs, x),
        eval(g3, x),
        eval(ms, x),
        eval(f1, x),
        fp,
        gs,
        u,
        h[i],
        ntt_of(rs)[i],
        eval(t, x),
        ntt_of(t1)[i],
    );
    lemma_mods(ntt_of(t1)[i] * fp);
    lemma_mods(1 * eval(reduced(noise(f, g, r, m)), x));
}

/// What decapsulation multiplies out is the noise, reduced modulo q.
proof fn lemma_unmasked(f: Seq<int>, g: Seq<int>, r: Seq<Trit>, m: Seq<Trit>)
    requires
        is_small(f),
        is_small(g),
        suitable(f, g),
        r.len() == 1024,
        m.len() == 1024,
    ensures
        intt_of(
            pointwise(
                ntt_of(combined(product(r, public_poly(f, g)), small_of(m), 1)),
                private_poly(f),
            ),
        ) == reduced(noise(f, g, r, m)),
{
    let e = noise(f, g, r, m);
    let left = pointwise(
        ntt_of(combined(product(r, public_poly(f, g)), small_of(m), 1)),
        private_poly(f),
    );
    let right = ntt_of(reduced(e));
    assert forall|i: int| 0 <= i < 1024 implies left[i] == right[i] by {
        lemma_unmasked_at(f, g, r, m, i);
    }
    assert(left =~= right);
    assert forall|j: int| 0 <= j < 1024 implies canonical(#[trigger] reduced(e)[j]) by {
        lemma_mods(e[j]);
    }
    lemma_intt_inverts_ntt(reduced(e));
}

/// Rounding what decapsulation multiplies out finds the mask, when no
/// coefficient of the noise leaves the range of the balanced residues.
proof fn lemma_rounding_finds_mask(f: Seq<int>, g: Seq<int>, r: Seq<Trit>, m: Seq<Trit>)
    requires
        is_small(f),
        is_small(g),
        suitable(f, g),
        r.len() == 1024,
        m.len() == 1024,
        all_canonical(noise(f, g, r, m)),
    ensures
        rounded(
            intt_of(
                pointwise(
                    ntt_of(combined(product(r, public_poly(f, g)), small_of(m), 1)),
                    private_poly(f),
                ),
            ),
        ) == m,
{
    let e = noise(f, g, r, m);
    lemma_unmasked(f, g, r, m);
    let kt = rounded(reduced(e));
    assert forall|i: int| 0 <= i < 1024 implies kt[i] == m[i] by {
        assert(canonical(e[i]));
        lemma_noise_mod_three(f, g, r, m, i);
    }
    assert(kt =~= m);
}

/// A masked polynomial is well-formed and survives encoding, and taking
/// the mask away again leaves the polynomial.
proof fn lemma_masking(t: Seq<int>, m: Seq<Trit>)
    requires
        is_canonical(t),
    ensures
        is_canonical(combined(t, small_of(m), 1)),
        decoded(encoded(combined(t, small_of(m), 1))) == combined(t, small_of(m), 1),
        combined(combined(t, small_of(m), 1), small_of(m), -1) == t,
{
    let ms = small_of(m);
    let t1 = combined(t, ms, 1);
    assert forall|i: int| 0 <= i < 1024 implies canonical(#[trigger] t1[i]) by {
        lemma_mods(t[i] + 1 * ms[i]);
    }
    lemma_decoded_encoded(t1);
    let back = combined(t1, ms, -1);
    assert forall|i: int| 0 <= i < 1024 implies back[i] == t[i] by {
        assert(canonical(t[i]));
    }
    assert(back =~= t);
}

/// A sponge that opens what a sponge in the same state sealed finds the
/// key and the tag, and ends in the same state.
proof fn lemma_opened_sealed<F: PRP>(s: Duplex<F>, t: Seq<int>, k: Seq<Trit>)
    requires
        k.len() == KEY_SIZE,
    ensures
        sealed(s, t, k).1.len() == SK_SIZE,
        opened(s, t, sealed(s, t, k).1) == (sealed(s, t, k).0, k, true),
{
    let bound = s.absorbed(encoded(t)).committed();
    let (after_key, body) = bound.encrypted(k);
    let (after_tag, tag) = after_key.squeezed((SK_SIZE - KEY_SIZE) as nat);
    let m = body + tag;
    lemma_output_len(bound, k);
    lemma_output_len(after_key, zeros((SK_SIZE - KEY_SIZE) as nat));
    assert(m.take(KEY_SIZE as int) =~= body);
    assert(m.skip(KEY_SIZE as int) =~= tag);
    lemma_decrypted_inverts_encrypted(bound, k);
}

/// Decapsulation with the private key of a pair, through a sponge in the
/// state in which encapsulation under the public key began, gives the key
/// back and leaves the sponge as encapsulation left it, provided that no
/// coefficient of the noise leaves the range of the balanced residues.
pub proof fn lemma_decap_inverts_encap<F: PRP>(
    s: Duplex<F>,
    f: Seq<int>,
    g: Seq<int>,
    r: Seq<Trit>,
    k: Seq<Trit>,
)
    requires
        is_small(f),
        is_small(g),
        suitable(f, g),
        r.len() == SK_SIZE,
        k.len() == KEY_SIZE,
        all_canonical(noise(f, g, r, sealed(s, product(r, public_poly(f, g)), k).1)),
    ensures
        decapsulated(s, private_poly(f), encapsulated(s, public_poly(f, g), r, k).1) == (
            encapsulated(s, public_poly(f, g), r, k).0,
            Some(k),
        ),
{
    let h = public_poly(f, g);
    let t = product(r, h);
    let m = sealed(s, t, k).1;
    let t1 = combined(t, small_of(m), 1);
    let y = encoded(t1);
    assert(encapsulated(s, h, r, k) == (sealed(s, t, k).0, y));
    lemma_opened_sealed(s, t, k);
    lemma_transformed_canonical(pointwise(ntt_of(small_of(r)), h), 1254, -12);
    lemma_masking(t, m);
    lemma_rounding_finds_mask(f, g, r, m);
    let kt = rounded(intt_of(pointwise(ntt_of(t1), private_poly(f))));
    assert(kt == m);
    assert(decoded(y) == t1);
    assert(combined(t1, small_of(kt), -1) == t);
    assert(decapsulated(s, private_poly(f), y) == (
        opened(s, t, m).0,
        if opened(s, t, m).2 {
            Some(opened(s, t, m).1)
        } else {
            None
        },
    ));
}

/// Decapsulation with the private key of a key pair, through a sponge in
/// the state in which encapsulation under its public key began, gives the
/// key back and leaves the sponge as encapsulation left it, provided that
/// no coefficient of the noise leaves the range of the balanced residues.
pub proof fn lemma_pair_decapsulates<F: PRP>(
    kp: KeyPair,
    g: Seq<int>,
    s: Duplex<F>,
    r: Seq<Trit>,
    k: Seq<Trit>,
)
    requires
        made_from(kp, g),
        r.len() == SK_SIZE,
        k.len() == KEY_SIZE,
        all_canonical(noise(small_of(kp.sk), g, r, sealed(s, product(r, kp.h), k).1)),
    ensures
        decapsulated(s, kp.f, encapsulated(s, kp.h, r, k).1) == (
            encapsulated(s, kp.h, r, k).0,
            Some(k),
        ),
{
    lemma_small_of(kp.sk);
    lemma_decap_inverts_encap(s, small_of(kp.sk), g, r, k);
}

/// Every capsule that decapsulation accepts is the capsule of the key it
/// gives, on some polynomial, sealed by a sponge in the state in which
/// decapsulation began; and decapsulation leaves the sponge as the sealing
/// would.
pub proof fn lemma_accepted_is_sealed<F: PRP>(s: Duplex<F>, f: Seq<int>, y: Seq<Trit>)
    requires
        y.len() == 9216,
        decapsulated(s, f, y).1.is_some(),
    ensures
        exists|t: Seq<int>|
            is_canonical(t) && #[trigger] capsule_of(s, t, decapsulated(s, f, y).1.unwrap()) == y
                && sealed(s, t, decapsulated(s, f, y).1.unwrap()).0 == decapsulated(s, f, y).0,
{
    let k = decapsulated(s, f, y).1.unwrap();
    let t1 = decoded(y);
    let kt = rounded(intt_of(pointwise(ntt_of(t1), f)));
    let t = combined(t1, small_of(kt), -1);
    // the sponge: what it decrypted it would encrypt again
    let bound = s.absorbed(encoded(t)).committed();
    lemma_encrypted_inverts_decrypted(bound, kt.take(KEY_SIZE as int));
    assert(kt.take(KEY_SIZE as int) + kt.skip(KEY_SIZE as int) =~= kt);
    assert(sealed(s, t, k) == (decapsulated(s, f, y).0, kt));
    // the polynomial: putting the mask back gives what was decoded
    assert forall|i: int| 0 <= i < 1024 implies canonical(#[trigger] t[i]) by {
        lemma_mods(t1[i] + (-1) * small_of(kt)[i]);
    }
    let again = combined(t, small_of(kt), 1);
    assert forall|i: int| 0 <= i < 1024 implies again[i] == t1[i] by {
        assert(canonical(t1[i]));
    }
    assert(again =~= t1);
    lemma_encoded_decoded(y);
    assert(capsule_of(s, t, k) == y);
}

/// The product of a number between -1 and 1 and a number of magnitude at
/// most `bound` has magnitude at most `bound`.
proof fn lemma_small_times(a: int, b: int, bound: int)
    requires
        -1 <= a <= 1,
        -bound <= b <= bound,
    ensures
        -bound <= a * b <= bound,
{
    assert(-bound <= a * b <= bound) by (nonlinear_arith)
        requires
            -1 <= a <= 1,
            -bound <= b <= bound,
    ;
}

/// A sum of products of a small polynomial with coefficients of magnitude
/// at most three has magnitude at most three for each product taken.
proof fn lemma_term_bound(a: Seq<int>, b: Seq<int>, i: int, n: nat)
    requires
        is_small(a),
        b.len() == 1024,
        forall|l: int| 0 <= l < 1024 ==> -3 <= #[trigger] b[l] <= 3,
        n <= 1024,
    ensures
        -3 * n <= cyclic_term(a, b, i, n) <= 3 * n,
    decreases n,
{
    if n > 0 {
        lemma_term_bound(a, b, i, (n - 1) as nat);
        let l = (i - (n - 1)) % 1024;
        assert(-3 <= b[l] <= 3);
        assert(-1 <= a[n - 1] <= 1);
        lemma_small_times(a[n - 1], b[l], 3);
    }
}

/// The same sum against 1 + 3f, for a small f with a zero at index `z`:
/// the constant coefficient may add one, and the zero takes three away.
proof fn lemma_term_bound_with_zero(a: Seq<int>, f: Seq<int>, i: int, z: int, n: nat)
    requires
        is_small(a),
        is_small(f),
        0 <= i < 1024,
        0 <= z < 1024,
        f[z] == 0,
        n <= 1024,
    ensures
        ({
            let extra = (if i < n {
                1int
            } else {
                0int
            }) - (if (i - z) % 1024 < n {
                3int
            } else {
                0int
            });
            -(3 * n + extra) <= cyclic_term(a, one_plus_triple(f), i, n) <= 3 * n + extra
        }),
    decreases n,
{
    if n > 0 {
        lemma_term_bound_with_zero(a, f, i, z, (n - 1) as nat);
        let j = n - 1;
        let l = (i - j) % 1024;
        let c = one_plus_triple(f)[l];
        assert(-1 <= f[l] <= 1);
        assert(-1 <= a[j] <= 1);
        assert((l == 0) == (j == i));
        assert((l == z) == (j == (i - z) % 1024));
        if l == z {
            if l == 0 {
                assert(c == 1);
                lemma_small_times(a[j], c, 1);
            } else {
                assert(c == 0);
                lemma_small_times(a[j], c, 0);
            }
        } else if l == 0 {
            assert(-4 <= c <= 4);
            lemma_small_times(a[j], c, 4);
        } else {
            assert(-3 <= c <= 3);
            lemma_small_times(a[j], c, 3);
        }
    }
}

/// When the small polynomial f has a zero among its coefficients, no
/// coefficient of the noise leaves the range of the balanced residues: its
/// magnitude is at most 3 * 1024 + 3 * 1023 + 1.
pub proof fn lemma_noise_in_range(f: Seq<int>, g: Seq<int>, r: Seq<Trit>, m: Seq<Trit>, z: int)
    requires
        is_small(f),
        is_small(g),
        0 <= z < 1024,
        f[z] == 0,
    ensures
        all_canonical(noise(f, g, r, m)),
{
    let e = noise(f, g, r, m);
    let g3 = tripled(g);
    lemma_small_of(r);
    lemma_small_of(m);
    assert forall|l: int| 0 <= l < 1024 implies -3 <= #[trigger] g3[l] <= 3 by {
        assert(-1 <= g[l] <= 1);
    }
    assert forall|i: int| 0 <= i < e.len() implies canonical(#[trigger] e[i]) by {
        lemma_term_bound(small_of(r), g3, i, 1024);
        lemma_term_bound_with_zero(small_of(m), f, i, z, 1024);
    }
}

/// Decapsulation with the private key of a key pair whose private trits
/// hold a zero, through a sponge in the state in which encapsulation under
/// its public key began, gives the key back and leaves the sponge as
/// encapsulation left it: for every randomness, every key and every state
/// of the sponge.
pub proof fn lemma_regular_pair_decapsulates<F: PRP>(
    kp: KeyPair,
    g: Seq<int>,
    z: int,
    s: Duplex<F>,
    r: Seq<Trit>,
    k: Seq<Trit>,
)
    requires
        made_from(kp, g),
        0 <= z < SK_SIZE,
        kp.sk[z] == Trit::Zero,
        r.len() == SK_SIZE,
        k.len() == KEY_SIZE,
    ensures
        decapsulated(s, kp.f, encapsulated(s, kp.h, r, k).1) == (
            encapsulated(s, kp.h, r, k).0,
            Some(k),
        ),
{
    lemma_small_of(kp.sk);
    lemma_noise_in_range(small_of(kp.sk), g, r, sealed(s, product(r, kp.h), k).1, z);
    lemma_pair_decapsulates(kp, g, s, r, k);
}

} // verus!
