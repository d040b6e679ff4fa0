//! The key-encapsulation mechanism: key generation, encapsulation of a
//! session key under a public key, and decapsulation with the private key.
use vstd::prelude::*;
use crate::err::Error;
use crate::modular::mods;
use crate::ntt::lemma_ntt_inverts_intt;
use crate::poly::{
    combined, decoded, encoded, intt_of, inverted, invertible, is_canonical, is_small,
    lemma_decoded_encoded, lemma_encoded_len, lemma_inverted_invertible,
    lemma_pointwise_canonical, lemma_pointwise_invertible, lemma_small_of,
    lemma_transformed_canonical, ntt_of, pointwise, rounded, small_of, tripled, Poly,
};
use crate::prng::{generated, lemma_generated_len, views, Prng, PRNG};
use crate::prp::{Spn, PRP};
use crate::spongos::{lemma_output_len, Duplex, Spongos};
use crate::trits::{
    all_pos, copy, drop, equals, inc, incremented, lemma_incremented_value, lemma_value_bound,
    max_value, take, trits_value, zeros, Trit, Trits,
};

verus! {

/// Trits in a public key.
pub const PK_SIZE: usize = 9216;

/// Trits in a public key identifier.
pub const PKID_SIZE: usize = 81;

/// Trits in a private key.
pub const SK_SIZE: usize = 1024;

/// Trits in a session key: as many as in a key of the sponge.
pub const KEY_SIZE: usize = crate::spongos::KEY_SIZE;

/// Trits in an encapsulated key.
pub const EKEY_SIZE: usize = 9216;

/// The polynomial 1 + 3f.
pub open spec fn one_plus_triple(f: Seq<int>) -> Seq<int> {
    tripled(f).update(0, mods(tripled(f)[0] + 1))
}

/// The private polynomial of the small polynomial `f`: the values of
/// 1 + 3f at the roots of unity.
pub open spec fn private_poly(f: Seq<int>) -> Seq<int> {
    ntt_of(one_plus_triple(f))
}

/// The values of 3g at the roots of unity.
pub open spec fn scaled_poly(g: Seq<int>) -> Seq<int> {
    ntt_of(tripled(g))
}

/// Whether the small polynomials `f` and `g` make a key pair: whether
/// 1 + 3f and 3g both have inverses.
pub open spec fn suitable(f: Seq<int>, g: Seq<int>) -> bool {
    invertible(private_poly(f)) && invertible(scaled_poly(g))
}

/// The public polynomial of `f` and `g`: the values of 3g / (1 + 3f) at the
/// roots of unity.
pub open spec fn public_poly(f: Seq<int>, g: Seq<int>) -> Seq<int> {
    pointwise(inverted(private_poly(f)), scaled_poly(g))
}

/// The public polynomial that the trits `pk` stand for, or why they stand
/// for none.
pub open spec fn parsed(pk: Seq<Trit>) -> Result<Seq<int>, Error> {
    if !is_canonical(decoded(pk)) {
        Err(Error::BadEncoding)
    } else if !invertible(ntt_of(decoded(pk))) {
        Err(Error::NotInvertible)
    } else {
        Ok(ntt_of(decoded(pk)))
    }
}

/// Tries the small polynomials `f` and `g` as a key pair. `f` becomes the
/// private polynomial and `g` the values of 3g; when both have inverses,
/// `h` becomes the public polynomial, and is left alone otherwise.
pub fn gen_step(f: &mut Poly, g: &mut Poly, h: &mut Poly) -> (ok: bool)
    requires
        old(f).wf(),
        old(g).wf(),
        old(h).wf(),
    ensures
        final(f).wf(),
        final(g).wf(),
        final(h).wf(),
        final(f)@ == private_poly(old(f)@),
        final(g)@ == scaled_poly(old(g)@),
        ok == suitable(old(f)@, old(g)@),
        ok ==> final(h)@ == public_poly(old(f)@, old(g)@),
        !ok ==> final(h)@ == old(h)@,
{
    // f := NTT(1 + 3f)
    f.small_mul3();
    f.small3_add1();
    f.ntt();

    // g := NTT(3g)
    g.small_mul3();
    g.ntt();

    let f_ok = f.has_inv();
    let g_ok = g.has_inv();
    if f_ok && g_ok {
        // h := NTT(3g / (1 + 3f))
        let mut quotient = f.clone();
        quotient.inv();
        quotient.conv(g);
        *h = quotient;
        true
    } else {
        false
    }
}

/// Reads a public polynomial from the trits `pk` of a public key, and
/// checks that each of its values has an inverse.
pub fn pk_from_trits(pk: &[Trit]) -> (res: Result<Poly, Error>)
    requires
        pk@.len() == PK_SIZE,
    ensures
        res matches Ok(h) ==> h.wf() && parsed(pk@) == Ok::<Seq<int>, Error>(h@),
        res matches Err(e) ==> parsed(pk@) == Err::<Seq<int>, Error>(e),
{
    let mut h = Poly::new();
    if h.from_trits(pk) {
        h.ntt();
        if h.has_inv() {
            Ok(h)
        } else {
            Err(Error::NotInvertible)
        }
    } else {
        Err(Error::BadEncoding)
    }
}

/// The product of the small polynomial of `r` and the polynomial whose
/// values at the roots of unity are `h`, in coefficient form.
pub open spec fn product(r: Seq<Trit>, h: Seq<int>) -> Seq<int> {
    intt_of(pointwise(ntt_of(small_of(r)), h))
}

/// The sponge after it has absorbed the trits of `t` and encrypted `k`,
/// and the mask: the encrypted key followed by the tag squeezed after it.
pub open spec fn sealed<F: PRP>(s: Duplex<F>, t: Seq<int>, k: Seq<Trit>) -> (
    Duplex<F>,
    Seq<Trit>,
) {
    let bound = s.absorbed(encoded(t)).committed();
    let (after_key, body) = bound.encrypted(k);
    let (after_tag, tag) = after_key.squeezed((SK_SIZE - KEY_SIZE) as nat);
    (after_tag, body + tag)
}

/// The capsule that carries the key `k` on the polynomial `t`: the trits
/// of `t` with the mask added.
pub open spec fn capsule_of<F: PRP>(s: Duplex<F>, t: Seq<int>, k: Seq<Trit>) -> Seq<Trit> {
    encoded(combined(t, small_of(sealed(s, t, k).1), 1))
}

/// The sponge after encapsulation, and the capsule: the key `k` under the
/// public polynomial `h` with the randomness `r`.
pub open spec fn encapsulated<F: PRP>(
    s: Duplex<F>,
    h: Seq<int>,
    r: Seq<Trit>,
    k: Seq<Trit>,
) -> (Duplex<F>, Seq<Trit>) {
    let t = product(r, h);
    (sealed(s, t, k).0, capsule_of(s, t, k))
}

/// The sponge after it has absorbed the trits of `t` and decrypted the
/// head of `kt`; the key that came out; and whether the tag squeezed after
/// it is the rest of `kt`.
pub open spec fn opened<F: PRP>(s: Duplex<F>, t: Seq<int>, kt: Seq<Trit>) -> (
    Duplex<F>,
    Seq<Trit>,
    bool,
) {
    let bound = s.absorbed(encoded(t)).committed();
    let (after_key, key) = bound.decrypted(kt.take(KEY_SIZE as int));
    let (after_tag, tag) = after_key.squeezed((SK_SIZE - KEY_SIZE) as nat);
    (after_tag, key, tag == kt.skip(KEY_SIZE as int))
}

/// What decapsulation makes of the polynomial of a capsule: the mask that
/// it rounds out of it, and the polynomial without the mask.
pub open spec fn unmasked(f: Seq<int>, y: Seq<Trit>) -> (Seq<int>, Seq<Trit>) {
    let t = decoded(y);
    let kt = rounded(intt_of(pointwise(ntt_of(t), f)));
    (combined(t, small_of(kt), -1), kt)
}

/// The trits that decapsulation decrypts out of a capsule that encodes a
/// polynomial, whether the tag then matches or not.
pub open spec fn decrypted_key<F: PRP>(s: Duplex<F>, f: Seq<int>, y: Seq<Trit>) -> Seq<Trit> {
    opened(s, unmasked(f, y).0, unmasked(f, y).1).1
}

/// The sponge after decapsulation of the capsule `y` with the private
/// polynomial `f`, and the key, if the capsule is accepted. A capsule that
/// encodes no polynomial leaves the sponge untouched.
pub open spec fn decapsulated<F: PRP>(s: Duplex<F>, f: Seq<int>, y: Seq<Trit>) -> (
    Duplex<F>,
    Option<Seq<Trit>>,
) {
    if !is_canonical(decoded(y)) {
        (s, None)
    } else {
        let (after, key, accepted) = opened(s, unmasked(f, y).0, unmasked(f, y).1);
        (
            after,
            if accepted {
                Some(key)
            } else {
                None
            },
        )
    }
}

/// Encapsulates the key `k` under the public polynomial `h`, through the
/// sponge `s`. The randomness is taken from the first 1024 trits of `y`,
/// which serve as scratch space until the capsule is written over the whole
/// of `y`.
pub fn encr_r<F: PRP>(s: &mut Spongos<F>, h: &Poly, k: &[Trit], y: &mut [Trit])
    requires
        old(s).wf(),
        h.wf(),
        k@.len() == KEY_SIZE,
        old(y)@.len() == EKEY_SIZE,
    ensures
        final(s).wf(),
        (final(s)@, final(y)@) == encapsulated(old(s)@, h@, old(y)@.take(SK_SIZE as int), k@),
        final(y)@.len() == EKEY_SIZE,
{
    let ghost r = y@.take(SK_SIZE as int);
    let mut t = Poly::new();

    // t(x) := r(x) * h(x)
    t.small_from_trits(take(y, SK_SIZE));
    t.ntt();
    t.conv(h);
    t.intt();

    // mask := AE(r * h; k), into the scratch space
    t.to_trits(y);
    s.absorb(y);
    s.commit();
    let ghost bound = s@;
    let ghost absorbed = y@;
    proof {
        lemma_encoded_len(product(r, h@));
    }
    let (scratch, rest) = y.split_at_mut(SK_SIZE);
    let (body, tag) = scratch.split_at_mut(KEY_SIZE);
    s.encr(k, body);
    let ghost after_key = s@;
    s.squeeze(tag);
    proof {
        lemma_output_len(bound, k@);
        lemma_output_len(after_key, zeros((SK_SIZE - KEY_SIZE) as nat));
        assert(y@.take(SK_SIZE as int) =~= sealed(old(s)@, product(r, h@), k@).1);
    }

    // y := r * h + mask
    t.add_small(take(y, SK_SIZE));
    t.to_trits(y);
}

/// Encapsulates the key `k` under the public key `pk` with public
/// polynomial `h`, through the sponge `s`, and puts the capsule into `y`.
/// The randomness comes from `prng` with `pk`, `k` and `n` as nonces.
pub fn encr_pk<F: PRP>(
    s: &mut Spongos<F>,
    prng: &Prng<F>,
    pk: &[Trit],
    h: &Poly,
    n: &[Trit],
    k: &[Trit],
    y: &mut [Trit],
)
    requires
        old(s).wf(),
        h.wf(),
        pk@.len() == PK_SIZE,
        k@.len() == KEY_SIZE,
        old(y)@.len() == EKEY_SIZE,
    ensures
        final(s).wf(),
        (final(s)@, final(y)@) == encapsulated(
            old(s)@,
            h@,
            generated::<F>(prng@, seq![pk@, k@, n@], SK_SIZE as nat),
            k@,
        ),
        final(y)@.len() == EKEY_SIZE,
{
    // the head of `y` holds the randomness
    let nonces = [pk, k, n];
    assert(views(nonces@) =~= seq![pk@, k@, n@]);
    let (r, rest) = y.split_at_mut(SK_SIZE);
    prng.gens(&nonces, r);
    proof {
        lemma_generated_len::<F>(prng@, seq![pk@, k@, n@], SK_SIZE as nat);
        let r = generated::<F>(prng@, seq![pk@, k@, n@], SK_SIZE as nat);
        assert(y@.take(SK_SIZE as int) =~= r);
    }
    encr_r(s, h, k, y);
}

/// Decapsulates the capsule `y` with the private polynomial `f` through
/// the sponge `s`. Returns whether the capsule is accepted. A capsule that
/// encodes no polynomial is rejected at once, and `k` and the sponge are
/// left alone. Of any other capsule the key is decrypted into `k` before
/// the tag is compared: `k` holds the decryption whether the capsule is
/// accepted or not, and is the key only if it is.
pub fn decr_r<F: PRP>(s: &mut Spongos<F>, f: &Poly, y: &[Trit], k: &mut [Trit]) -> (ok: bool)
    requires
        old(s).wf(),
        f.wf(),
        old(k)@.len() == KEY_SIZE,
        y@.len() == EKEY_SIZE,
    ensures
        final(s).wf(),
        final(s)@ == decapsulated(old(s)@, f@, y@).0,
        ok == decapsulated(old(s)@, f@, y@).1.is_some(),
        ok ==> final(k)@ == decapsulated(old(s)@, f@, y@).1.unwrap(),
        is_canonical(decoded(y@)) ==> final(k)@ == decrypted_key(old(s)@, f@, y@),
        !is_canonical(decoded(y@)) ==> final(k)@ == old(k)@,
        final(k)@.len() == KEY_SIZE,
{
    // t(x) := Y
    let mut t = Poly::new();
    if !t.from_trits(y) {
        return false;
    }
    // r(x) := t(x) * (1 + 3f(x)), then modulo 3
    let mut r = t.clone();
    r.ntt();
    r.conv(f);
    r.intt();
    let mut kt = Trits::zero(SK_SIZE);
    r.round_to_trits(kt.mut_slice());

    // t(x) := Y - r(x)
    t.sub_small(kt.slice());
    let mut rh = Trits::zero(EKEY_SIZE);
    t.to_trits(rh.mut_slice());

    // K := AD(rh; kt)
    s.absorb(rh.slice());
    s.commit();
    let ghost bound = s@;
    s.decr(take(kt.slice(), KEY_SIZE), k);
    proof {
        lemma_output_len(bound, kt@.take(KEY_SIZE as int));
    }
    let mut tag = Trits::zero(SK_SIZE - KEY_SIZE);
    s.squeeze(tag.mut_slice());
    equals(tag.slice(), drop(kt.slice(), KEY_SIZE))
}

/// Decapsulates the capsule `y` with the private key `sk` through the
/// sponge `s`. Returns whether the capsule is accepted. A capsule that
/// encodes no polynomial leaves `k` and the sponge alone; of any other, `k`
/// holds what was decrypted, which is the key only if the capsule is
/// accepted.
pub fn decr_sk<F: PRP>(
    s: &mut Spongos<F>,
    sk: &[Trit],
    y: &[Trit],
    k: &mut [Trit],
) -> (ok: bool)
    requires
        old(s).wf(),
        sk@.len() == SK_SIZE,
        old(k)@.len() == KEY_SIZE,
        y@.len() == EKEY_SIZE,
    ensures
        final(s).wf(),
        final(s)@ == decapsulated(old(s)@, private_poly(small_of(sk@)), y@).0,
        ok == decapsulated(old(s)@, private_poly(small_of(sk@)), y@).1.is_some(),
        ok ==> final(k)@ == decapsulated(old(s)@, private_poly(small_of(sk@)), y@).1.unwrap(),
        is_canonical(decoded(y@)) ==> final(k)@ == decrypted_key(
            old(s)@,
            private_poly(small_of(sk@)),
            y@,
        ),
        !is_canonical(decoded(y@)) ==> final(k)@ == old(k)@,
        final(k)@.len() == KEY_SIZE,
{
    let mut f = Poly::new();
    f.small_from_trits(sk);

    // f := NTT(1 + 3f)
    f.small_mul3();
    f.small3_add1();
    f.ntt();

    decr_r(s, &f, y, k)
}

/// A key pair as mathematical values: the private trits and polynomial,
/// the public trits and polynomial.
pub struct KeyPair {
    pub sk: Seq<Trit>,
    pub f: Seq<int>,
    pub pk: Seq<Trit>,
    pub h: Seq<int>,
}

/// The trits from which the small polynomials of one attempt are taken.
pub open spec fn candidate<F: PRP>(key: Seq<Trit>, nonce: Seq<Trit>, counter: Seq<Trit>) -> Seq<
    Trit,
> {
    generated::<F>(key, seq![nonce, counter], (2 * SK_SIZE) as nat)
}

/// The key pair of the first attempt that succeeds, counting on from
/// `counter`; none if the counter runs out first.
pub open spec fn generated_from<F: PRP>(
    key: Seq<Trit>,
    nonce: Seq<Trit>,
    counter: Seq<Trit>,
) -> Option<KeyPair>
    decreases max_value(counter.len()) - trits_value(counter),
{
    let r = candidate::<F>(key, nonce, counter);
    let f = small_of(r.take(SK_SIZE as int));
    let g = small_of(r.skip(SK_SIZE as int));
    if suitable(f, g) {
        Some(
            KeyPair {
                sk: r.take(SK_SIZE as int),
                f: private_poly(f),
                pk: encoded(intt_of(public_poly(f, g))),
                h: public_poly(f, g),
            },
        )
    } else if all_pos(counter) {
        None
    } else {
        proof {
            lemma_incremented_value(counter);
            lemma_value_bound(incremented(counter));
        }
        generated_from::<F>(key, nonce, incremented(counter))
    }
}

/// The key pair that `key` and `nonce` give: the counter starts at zero.
pub open spec fn generated_pair<F: PRP>(key: Seq<Trit>, nonce: Seq<Trit>) -> Option<KeyPair> {
    generated_from::<F>(key, nonce, zeros(PKID_SIZE as nat))
}

/// Looks for a key pair with `prng` and `nonce`, counting on from
/// `counter`. On success `sk` holds the private key and `f` its polynomial,
/// `pk` the public key and `h` its polynomial; otherwise the counter has
/// run out and all four are left alone.
pub fn gen_from<F: PRP>(
    prng: &Prng<F>,
    nonce: &[Trit],
    counter: Trits,
    f: &mut Poly,
    sk: &mut [Trit],
    h: &mut Poly,
    pk: &mut [Trit],
) -> (ok: bool)
    requires
        old(f).wf(),
        old(h).wf(),
        old(sk)@.len() == SK_SIZE,
        old(pk)@.len() == PK_SIZE,
    ensures
        final(f).wf(),
        final(h).wf(),
        ok == generated_from::<F>(prng@, nonce@, counter@).is_some(),
        ok ==> generated_from::<F>(prng@, nonce@, counter@).unwrap() == (KeyPair {
            sk: final(sk)@,
            f: final(f)@,
            pk: final(pk)@,
            h: final(h)@,
        }),
        !ok ==> final(sk)@ == old(sk)@ && final(f)@ == old(f)@ && final(pk)@ == old(pk)@
            && final(h)@ == old(h)@,
{
    let mut i = counter;
    let mut r = Trits::zero(2 * SK_SIZE);
    let mut g = Poly::new();
    let mut f_try = Poly::new();
    let mut h_try = Poly::new();
    let ghost width = i@.len();

    loop
        invariant
            i@.len() == width,
            r@.len() == 2 * SK_SIZE,
            g.wf(),
            f_try.wf(),
            h_try.wf(),
            f.wf(),
            h.wf(),
            sk@.len() == SK_SIZE,
            pk@.len() == PK_SIZE,
            sk@ == old(sk)@,
            pk@ == old(pk)@,
            f@ == old(f)@,
            h@ == old(h)@,
            generated_from::<F>(prng@, nonce@, i@) == generated_from::<F>(prng@, nonce@, counter@),
        decreases max_value(width) - trits_value(i@),
    {
        let nonces = [nonce, i.slice()];
        assert(views(nonces@) =~= seq![nonce@, i@]);
        prng.gens(&nonces, r.mut_slice());
        proof {
            lemma_generated_len::<F>(prng@, seq![nonce@, i@], (2 * SK_SIZE) as nat);
        }
        f_try.small_from_trits(take(r.slice(), SK_SIZE));
        g.small_from_trits(drop(r.slice(), SK_SIZE));

        if gen_step(&mut f_try, &mut g, &mut h_try) {
            let mut c = h_try.clone();
            c.intt();
            c.to_trits(pk);
            copy(take(r.slice(), SK_SIZE), sk);
            *f = f_try;
            *h = h_try;
            return true;
        }
        let ghost before = i@;
        let more = inc(i.mut_slice());
        proof {
            lemma_incremented_value(before);
            lemma_value_bound(i@);
        }
        if !more {
            return false;
        }
    }
}

/// Looks for a key pair with `prng` and `nonce`, the counter of 81 trits
/// starting at zero. On success `sk` holds the private key and `f` its
/// polynomial, `pk` the public key and `h` its polynomial; otherwise the
/// counter has run out and all four are left alone.
pub fn gen_r<F: PRP>(
    prng: &Prng<F>,
    nonce: &[Trit],
    f: &mut Poly,
    sk: &mut [Trit],
    h: &mut Poly,
    pk: &mut [Trit],
) -> (ok: bool)
    requires
        old(f).wf(),
        old(h).wf(),
        old(sk)@.len() == SK_SIZE,
        old(pk)@.len() == PK_SIZE,
    ensures
        final(f).wf(),
        final(h).wf(),
        ok == generated_pair::<F>(prng@, nonce@).is_some(),
        ok ==> generated_pair::<F>(prng@, nonce@).unwrap() == (KeyPair {
            sk: final(sk)@,
            f: final(f)@,
            pk: final(pk)@,
            h: final(h)@,
        }),
        !ok ==> final(sk)@ == old(sk)@ && final(f)@ == old(f)@ && final(pk)@ == old(pk)@
            && final(h)@ == old(h)@,
{
    gen_from(prng, nonce, Trits::zero(PKID_SIZE), f, sk, h, pk)
}

/// A private key: the secret trits `sk` and the polynomial kept ready for
/// decapsulation, the values of 1 + 3sk at the roots of unity. It cannot be
/// printed.
pub struct PrivateKey {
    sk: Trits,
    f: Poly,
}

impl View for PrivateKey {
    type V = Seq<Trit>;

    closed spec fn view(&self) -> Seq<Trit> {
        self.sk@
    }
}

/// A public key: its trits `pk` and the polynomial kept ready for
/// encapsulation, the values of `pk` at the roots of unity. The trits
/// determine the polynomial: two keys are the same when their trits are,
/// and keys with the same trits hash alike.
#[derive(Debug, Hash)]
pub struct PublicKey {
    pk: Trits,
    h: Poly,
}

impl View for PublicKey {
    type V = Seq<Trit>;

    closed spec fn view(&self) -> Seq<Trit> {
        self.pk@
    }
}

/// The identifier of a public key, as a buffer of its own: the first 81
/// trits of the key.
pub type Pkid = Trits;

impl Clone for PrivateKey {
    /// A second key with the same trits and polynomial.
    fn clone(&self) -> (key: Self)
        ensures
            key@ == self@,
            key.poly() == self.poly(),
    {
        PrivateKey { sk: self.sk.clone(), f: self.f.clone() }
    }
}

impl Clone for PublicKey {
    /// A second key with the same trits and polynomial.
    fn clone(&self) -> (key: Self)
        ensures
            key@ == self@,
            key.poly() == self.poly(),
    {
        PublicKey { pk: self.pk.clone(), h: self.h.clone() }
    }
}

impl PartialEq for PublicKey {
    /// Two public keys are the same when their trits are.
    fn eq(&self, other: &Self) -> (same: bool) {
        equals(self.pk.slice(), other.pk.slice())
    }
}

impl Eq for PublicKey {

}

impl vstd::std_specs::cmp::PartialEqSpecImpl for PublicKey {
    open spec fn obeys_eq_spec() -> bool {
        true
    }

    open spec fn eq_spec(&self, other: &Self) -> bool {
        self@ == other@
    }
}

/// Looks for a key pair with `prng` and `nonce`.
pub fn gen<F: PRP>(prng: &Prng<F>, nonce: &[Trit]) -> (res: Result<
    (PrivateKey, PublicKey),
    Error,
>)
    ensures
        match res {
            Ok((sk, pk)) => {
                &&& sk.wf()
                &&& pk.wf()
                &&& generated_pair::<F>(prng@, nonce@) == Some(
                    (KeyPair { sk: sk@, f: sk.poly(), pk: pk@, h: pk.poly() }),
                )
            },
            Err(e) => e == Error::GenExhausted && generated_pair::<F>(prng@, nonce@).is_none(),
        },
{
    let mut sk = PrivateKey { sk: Trits::zero(SK_SIZE), f: Poly::new() };
    let mut pk = PublicKey { pk: Trits::zero(PK_SIZE), h: Poly::new() };
    let ok = gen_r(prng, nonce, &mut sk.f, sk.sk.mut_slice(), &mut pk.h, pk.pk.mut_slice());
    if ok {
        proof {
            lemma_generated_pair::<F>(prng@, nonce@, zeros(PKID_SIZE as nat));
            let kp = generated_pair::<F>(prng@, nonce@).unwrap();
            let g = choose|g: Seq<int>| made_from(kp, g);
            lemma_made_from(kp, g);
        }
        Ok((sk, pk))
    } else {
        Err(Error::GenExhausted)
    }
}

/// Whether `kp` is the key pair of the small polynomial of its private
/// trits and the small polynomial `g`.
pub open spec fn made_from(kp: KeyPair, g: Seq<int>) -> bool {
    &&& is_small(g)
    &&& kp.sk.len() == SK_SIZE
    &&& suitable(small_of(kp.sk), g)
    &&& kp.f == private_poly(small_of(kp.sk))
    &&& kp.h == public_poly(small_of(kp.sk), g)
    &&& kp.pk == encoded(intt_of(kp.h))
}

/// The key pair of two small polynomials that suit: both polynomials are
/// well-formed and have inverses, and the public trits have the length of a
/// key and parse to the public polynomial.
pub proof fn lemma_made_from(kp: KeyPair, g: Seq<int>)
    requires
        made_from(kp, g),
    ensures
        is_canonical(kp.f),
        invertible(kp.f),
        is_canonical(kp.h),
        invertible(kp.h),
        kp.pk.len() == PK_SIZE,
        parsed(kp.pk) == Ok::<Seq<int>, Error>(kp.h),
{
    let f = small_of(kp.sk);
    lemma_transformed_canonical(one_plus_triple(f), 49, 1);
    lemma_transformed_canonical(tripled(g), 49, 1);
    lemma_inverted_invertible(private_poly(f));
    lemma_pointwise_canonical(inverted(private_poly(f)), scaled_poly(g));
    lemma_pointwise_invertible(inverted(private_poly(f)), scaled_poly(g));
    lemma_transformed_canonical(kp.h, 1254, -12);
    lemma_decoded_encoded(intt_of(kp.h));
    lemma_ntt_inverts_intt(kp.h);
}

/// Every generated key pair is the key pair of the small polynomial of its
/// private trits and of some other small polynomial.
pub proof fn lemma_generated_pair<F: PRP>(key: Seq<Trit>, nonce: Seq<Trit>, counter: Seq<Trit>)
    requires
        generated_from::<F>(key, nonce, counter).is_some(),
    ensures
        exists|g: Seq<int>| made_from(generated_from::<F>(key, nonce, counter).unwrap(), g),
    decreases max_value(counter.len()) - trits_value(counter),
{
    let r = candidate::<F>(key, nonce, counter);
    let f = small_of(r.take(SK_SIZE as int));
    let g = small_of(r.skip(SK_SIZE as int));
    if suitable(f, g) {
        lemma_generated_len::<F>(key, seq![nonce, counter], (2 * SK_SIZE) as nat);
        lemma_small_of(r.skip(SK_SIZE as int));
        assert(made_from(generated_from::<F>(key, nonce, counter).unwrap(), g));
    } else {
        lemma_incremented_value(counter);
        lemma_value_bound(incremented(counter));
        lemma_generated_pair::<F>(key, nonce, incremented(counter));
    }
}

impl PrivateKey {
    /// The polynomial kept with the key.
    pub closed spec fn poly(&self) -> Seq<int> {
        self.f@
    }

    /// The key has its 1024 trits, and its polynomial is the private
    /// polynomial of those trits and has inverses.
    pub open spec fn wf(&self) -> bool {
        &&& self@.len() == SK_SIZE
        &&& is_canonical(self.poly())
        &&& self.poly() == private_poly(small_of(self@))
        &&& invertible(self.poly())
    }

    /// Whether the private trits hold a zero. A key pair whose private key
    /// does gives back every key that is encapsulated under its public
    /// key, whatever the randomness and the state of the sponge.
    pub fn has_zero(&self) -> (yes: bool)
        ensures
            yes == (exists|z: int| 0 <= z < self@.len() && self@[z] == Trit::Zero),
    {
        let sk = self.sk.slice();
        let n: usize = sk.len();
        let mut zeros: usize = 0;
        let mut i: usize = 0;
        while i < n
            invariant
                i <= n,
                n == sk@.len(),
                zeros <= i,
                (zeros > 0) == (exists|z: int| 0 <= z < i && sk@[z] == Trit::Zero),
            decreases n - i,
        {
            if sk[i] == Trit::Zero {
                zeros = zeros + 1;
            }
            i += 1;
        }
        zeros > 0
    }

    /// Decapsulates the capsule `y` through the sponge `s`. Returns whether
    /// the capsule is accepted. A capsule that encodes no polynomial leaves
    /// `k` and the sponge alone; of any other, `k` holds what was
    /// decrypted, which is the key only if the capsule is accepted.
    pub fn decr_with_s<F: PRP>(
        &self,
        s: &mut Spongos<F>,
        y: &[Trit],
        k: &mut [Trit],
    ) -> (ok: bool)
        requires
            self.wf(),
            old(s).wf(),
            old(k)@.len() == KEY_SIZE,
            y@.len() == EKEY_SIZE,
        ensures
            final(s).wf(),
            final(s)@ == decapsulated(old(s)@, self.poly(), y@).0,
            ok == decapsulated(old(s)@, self.poly(), y@).1.is_some(),
            ok ==> final(k)@ == decapsulated(old(s)@, self.poly(), y@).1.unwrap(),
            is_canonical(decoded(y@)) ==> final(k)@ == decrypted_key(old(s)@, self.poly(), y@),
            !is_canonical(decoded(y@)) ==> final(k)@ == old(k)@,
            final(k)@.len() == KEY_SIZE,
    {
        decr_sk(s, self.sk.slice(), y, k)
    }

    /// Decapsulates the capsule `y` through a fresh sponge over the
    /// permutation that the library brings along. Returns whether the
    /// capsule is accepted. A capsule that encodes no polynomial leaves `k`
    /// alone; of any other, `k` holds what was decrypted, which is the key
    /// only if the capsule is accepted.
    pub fn decr(&self, y: &[Trit], k: &mut [Trit]) -> (ok: bool)
        requires
            self.wf(),
            old(k)@.len() == KEY_SIZE,
            y@.len() == EKEY_SIZE,
        ensures
            ok == decapsulated(Duplex::<Spn>::fresh(), self.poly(), y@).1.is_some(),
            ok ==> final(k)@ == decapsulated(Duplex::<Spn>::fresh(), self.poly(), y@).1.unwrap(),
            is_canonical(decoded(y@)) ==> final(k)@ == decrypted_key(
                Duplex::<Spn>::fresh(),
                self.poly(),
                y@,
            ),
            !is_canonical(decoded(y@)) ==> final(k)@ == old(k)@,
            final(k)@.len() == KEY_SIZE,
    {
        let mut s = Spongos::<Spn>::init();
        self.decr_with_s(&mut s, y, k)
    }
}

impl PublicKey {
    /// The polynomial kept with the key.
    pub closed spec fn poly(&self) -> Seq<int> {
        self.h@
    }

    /// The key has its 9216 trits, and its polynomial is the one that
    /// they encode, taken to the roots of unity, and has inverses.
    pub open spec fn wf(&self) -> bool {
        &&& self@.len() == PK_SIZE
        &&& is_canonical(self.poly())
        &&& parsed(self@) == Ok::<Seq<int>, Error>(self.poly())
    }

    /// The trits of the key.
    pub fn trits(&self) -> (t: &[Trit])
        ensures
            t@ == self@,
    {
        self.pk.slice()
    }

    /// Makes a public key of the trits `pk`. There is none if `pk` has not
    /// the length of a key, encodes no polynomial, or encodes one that has
    /// a value without inverse.
    pub fn from_trits(pk: Trits) -> (res: Option<PublicKey>)
        ensures
            res.is_some() == (pk@.len() == PK_SIZE && parsed(pk@).is_ok()),
            res matches Some(key) ==> key.wf() && key@ == pk@ && parsed(pk@) == Ok::<
                Seq<int>,
                Error,
            >(key.poly()),
    {
        if pk.size() == PK_SIZE {
            match pk_from_trits(pk.slice()) {
                Ok(h) => Some(PublicKey { pk, h }),
                Err(_) => None,
            }
        } else {
            None
        }
    }

    /// Makes a public key of a copy of the trits `pk`. There is none if
    /// `pk` has not the length of a key, encodes no polynomial, or encodes
    /// one that has a value without inverse.
    pub fn from_slice(pk: &[Trit]) -> (res: Option<PublicKey>)
        ensures
            res.is_some() == (pk@.len() == PK_SIZE && parsed(pk@).is_ok()),
            res matches Some(key) ==> key.wf() && key@ == pk@ && parsed(pk@) == Ok::<
                Seq<int>,
                Error,
            >(key.poly()),
    {
        if pk.len() == PK_SIZE {
            match pk_from_trits(pk) {
                Ok(h) => Some(PublicKey { pk: Trits::from_slice(pk), h }),
                Err(_) => None,
            }
        } else {
            None
        }
    }

    /// Computes the polynomial of the key again from its trits. Fails, and
    /// leaves the key alone, if the trits encode no polynomial or one that
    /// has a value without inverse.
    pub fn validate(&mut self) -> (ok: bool)
        requires
            old(self)@.len() == PK_SIZE,
        ensures
            final(self)@ == old(self)@,
            ok == parsed(old(self)@).is_ok(),
            ok ==> final(self).wf() && parsed(old(self)@) == Ok::<Seq<int>, Error>(
                final(self).poly(),
            ),
            !ok ==> final(self).poly() == old(self).poly(),
    {
        match pk_from_trits(self.pk.slice()) {
            Ok(h) => {
                self.h = h;
                true
            },
            Err(_) => false,
        }
    }

    /// The identifier of the key: its first 81 trits.
    pub fn id(&self) -> (t: &[Trit])
        requires
            self@.len() >= PKID_SIZE,
        ensures
            t@ == self@.take(PKID_SIZE as int),
    {
        take(self.pk.slice(), PKID_SIZE)
    }

    /// Encapsulates the key `k` through the sponge `s` and puts the capsule
    /// into `y`. The randomness comes from `prng` with the key's trits, `k`
    /// and `nonce`.
    pub fn encr_with_s<F: PRP>(
        &self,
        s: &mut Spongos<F>,
        prng: &Prng<F>,
        nonce: &[Trit],
        k: &[Trit],
        y: &mut [Trit],
    )
        requires
            self.wf(),
            old(s).wf(),
            k@.len() == KEY_SIZE,
            old(y)@.len() == EKEY_SIZE,
        ensures
            final(s).wf(),
            (final(s)@, final(y)@) == encapsulated(
                old(s)@,
                self.poly(),
                generated::<F>(prng@, seq![self@, k@, nonce@], SK_SIZE as nat),
                k@,
            ),
            final(y)@.len() == EKEY_SIZE,
    {
        encr_pk(s, prng, self.pk.slice(), &self.h, nonce, k, y);
    }

    /// Encapsulates the key `k` through a fresh sponge over the permutation
    /// that the library brings along, and puts the capsule into `y`. The
    /// randomness comes from `prng` with the key's trits, `k` and `nonce`.
    pub fn encr(&self, prng: &PRNG, nonce: &[Trit], k: &[Trit], y: &mut [Trit])
        requires
            self.wf(),
            k@.len() == KEY_SIZE,
            old(y)@.len() == EKEY_SIZE,
        ensures
            final(y)@ == encapsulated(
                Duplex::<Spn>::fresh(),
                self.poly(),
                generated::<Spn>(prng@, seq![self@, k@, nonce@], SK_SIZE as nat),
                k@,
            ).1,
            final(y)@.len() == EKEY_SIZE,
    {
        let mut s = Spongos::<Spn>::init();
        self.encr_with_s(&mut s, prng, nonce, k, y);
    }
}

} // verus!
