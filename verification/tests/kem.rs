use streams_ntru::err::Error;
use streams_ntru::ntru::{
    decr_r, decr_sk, encr_pk, encr_r, gen, gen_from, gen_r, gen_step, pk_from_trits, Pkid,
    PrivateKey, PublicKey, EKEY_SIZE, KEY_SIZE, PKID_SIZE, PK_SIZE, SK_SIZE,
};
use streams_ntru::poly::Poly;
use streams_ntru::prng::{self, PRNG};
use streams_ntru::prp::Spn;
use streams_ntru::spongos;
use streams_ntru::trits::{encode, Trit, Trits};

type Spongos = spongos::Spongos<Spn>;

fn trits_of(values: &[i32]) -> Trits {
    let mut t = Trits::zero(values.len());
    for (i, v) in values.iter().enumerate() {
        t.mut_slice()[i] = Trit::from_i32(*v);
    }
    t
}

fn patterned(n: usize, seed: i32) -> Trits {
    let mut x = (seed as u64).wrapping_mul(2654435761).wrapping_add(12345);
    let mut values = Vec::new();
    for _ in 0..n {
        x = x.wrapping_mul(6364136223846793005).wrapping_add(1442695040888963407);
        values.push(((x >> 33) % 3) as i32 - 1);
    }
    trits_of(&values)
}

/// What decapsulation decrypts out of the capsule `y` with the private key
/// that `prng` and `nonce` give, through a sponge in the state of `s`: the
/// steps of decapsulation up to the key, taken one by one.
fn decryption(s: &Spongos, prng: &PRNG, nonce: &[Trit], y: &[Trit]) -> Trits {
    let mut f = Poly::new();
    let mut h = Poly::new();
    let mut sk = Trits::zero(SK_SIZE);
    let mut pk = Trits::zero(PK_SIZE);
    assert!(gen_r(prng, nonce, &mut f, sk.mut_slice(), &mut h, pk.mut_slice()));

    let mut t = Poly::new();
    assert!(t.from_trits(y));
    let mut r = t.clone();
    r.ntt();
    r.conv(&f);
    r.intt();
    let mut kt = Trits::zero(SK_SIZE);
    r.round_to_trits(kt.mut_slice());
    t.sub_small(kt.slice());
    let mut rh = Trits::zero(EKEY_SIZE);
    t.to_trits(rh.mut_slice());

    let mut s = s.clone();
    s.absorb(rh.slice());
    s.commit();
    let mut key = Trits::zero(KEY_SIZE);
    s.decr(&kt.slice()[..KEY_SIZE], key.mut_slice());
    key
}

fn zero_keys() -> (PRNG, Trits, PrivateKey, PublicKey) {
    let prng_key = Trits::zero(prng::KEY_SIZE);
    let prng = PRNG::init(prng_key.slice());
    let nonce = Trits::zero(15);
    let (sk, pk) = gen(&prng, nonce.slice()).unwrap();
    (prng, nonce, sk, pk)
}

#[test]
fn encr_decr() {
    let prng_key = Trits::zero(prng::KEY_SIZE);
    let prng = PRNG::init(prng_key.slice());
    let nonce = Trits::zero(15);
    let k = Trits::zero(KEY_SIZE);
    let mut ek = Trits::zero(EKEY_SIZE);
    let mut dek = Trits::zero(KEY_SIZE);

    let (sk, pk) = gen(&prng, nonce.slice()).unwrap();

    pk.encr(&prng, nonce.slice(), k.slice(), ek.mut_slice());
    let ok = sk.decr(ek.slice(), dek.mut_slice());
    assert!(ok);
    assert!(k == dek);
}

#[test]
fn sizes_are_fixed() {
    assert_eq!(SK_SIZE, 1024);
    assert_eq!(PK_SIZE, 9216);
    assert_eq!(EKEY_SIZE, 9216);
    assert_eq!(KEY_SIZE, 243);
    assert_eq!(PKID_SIZE, 81);
    assert_eq!(prng::KEY_SIZE, 243);
}

#[test]
fn key_with_content_round_trips() {
    let prng_key = patterned(prng::KEY_SIZE, 1);
    let prng = PRNG::init(prng_key.slice());
    let gen_nonce = patterned(15, 2);
    let (sk, pk) = gen(&prng, gen_nonce.slice()).unwrap();

    let k = patterned(KEY_SIZE, 5);
    let encap_nonce = patterned(27, 7);
    let mut ek = Trits::zero(EKEY_SIZE);
    pk.encr(&prng, encap_nonce.slice(), k.slice(), ek.mut_slice());
    assert!(ek != Trits::zero(EKEY_SIZE));

    let mut dek = Trits::zero(KEY_SIZE);
    assert!(sk.decr(ek.slice(), dek.mut_slice()));
    assert_eq!(k, dek);
}

#[test]
fn sponges_cloned_at_the_boundary_agree() {
    let (prng, nonce, sk, pk) = zero_keys();
    let k = patterned(KEY_SIZE, 3);

    let mut s_e = Spongos::init();
    s_e.absorb(patterned(100, 4).slice());
    s_e.commit();
    let mut s_d = s_e.clone();

    let mut ek = Trits::zero(EKEY_SIZE);
    pk.encr_with_s(&mut s_e, &prng, nonce.slice(), k.slice(), ek.mut_slice());
    let mut dek = Trits::zero(KEY_SIZE);
    assert!(sk.decr_with_s(&mut s_d, ek.slice(), dek.mut_slice()));
    assert_eq!(k, dek);

    // both sponges end in the same state
    let mut out_e = Trits::zero(30);
    let mut out_d = Trits::zero(30);
    s_e.squeeze(out_e.mut_slice());
    s_d.squeeze(out_d.mut_slice());
    assert_eq!(out_e, out_d);
}

#[test]
fn a_sponge_in_another_state_rejects() {
    let (prng, nonce, sk, pk) = zero_keys();
    let k = patterned(KEY_SIZE, 3);
    let mut s_e = Spongos::init();
    s_e.absorb(patterned(100, 4).slice());
    s_e.commit();
    let mut ek = Trits::zero(EKEY_SIZE);
    pk.encr_with_s(&mut s_e, &prng, nonce.slice(), k.slice(), ek.mut_slice());

    let mut dek = patterned(KEY_SIZE, 8);
    assert!(!sk.decr(ek.slice(), dek.mut_slice()));
    // the capsule parses, so the buffer holds what a fresh sponge decrypted
    assert_eq!(dek, decryption(&Spongos::init(), &prng, nonce.slice(), ek.slice()));
    assert!(dek != k);
}

#[test]
fn capsule_tamper_is_rejected() {
    let (prng, nonce, sk, pk) = zero_keys();
    let k = Trits::zero(KEY_SIZE);
    let mut ek = Trits::zero(EKEY_SIZE);
    pk.encr(&prng, nonce.slice(), k.slice(), ek.mut_slice());

    let flipped = ek.slice()[0].succ();
    ek.mut_slice()[0] = flipped;
    let mut dek = patterned(KEY_SIZE, 1);
    let before = dek.clone();
    assert!(!sk.decr(ek.slice(), dek.mut_slice()));
    // the capsule still parses: the key was decrypted before the tag was
    // compared, and the buffer holds that decryption
    assert_eq!(dek, decryption(&Spongos::init(), &prng, nonce.slice(), ek.slice()));
    assert!(dek != before);
}

#[test]
fn an_accepted_capsule_leaves_the_key_it_decrypted() {
    let (prng, nonce, sk, pk) = zero_keys();
    let k = patterned(KEY_SIZE, 6);
    let mut ek = Trits::zero(EKEY_SIZE);
    pk.encr(&prng, nonce.slice(), k.slice(), ek.mut_slice());
    let mut dek = Trits::zero(KEY_SIZE);
    assert!(sk.decr(ek.slice(), dek.mut_slice()));
    assert_eq!(dek, k);
    assert_eq!(dek, decryption(&Spongos::init(), &prng, nonce.slice(), ek.slice()));
}

#[test]
fn any_flipped_trit_is_rejected() {
    let (prng, nonce, sk, pk) = zero_keys();
    let k = patterned(KEY_SIZE, 2);
    let mut ek = Trits::zero(EKEY_SIZE);
    pk.encr(&prng, nonce.slice(), k.slice(), ek.mut_slice());

    for at in [0usize, 1, 8, 9, 242, 243, 1023, 1024, 4607, 9207, 9215] {
        for step in 0..2 {
            let mut bad = ek.clone();
            let mut t = bad.slice()[at].succ();
            if step == 1 {
                t = t.succ();
            }
            bad.mut_slice()[at] = t;
            let mut dek = Trits::zero(KEY_SIZE);
            assert!(!sk.decr(bad.slice(), dek.mut_slice()), "trit {} step {}", at, step);
        }
    }
}

#[test]
fn key_mismatch_is_rejected() {
    let prng_key = Trits::zero(prng::KEY_SIZE);
    let prng = PRNG::init(prng_key.slice());
    let nonce1 = Trits::zero(15);
    let nonce2 = patterned(15, 1);
    let (sk1, pk1) = gen(&prng, nonce1.slice()).unwrap();
    let (sk2, pk2) = gen(&prng, nonce2.slice()).unwrap();
    assert!(pk1 != pk2);

    let k = Trits::zero(KEY_SIZE);
    let mut ek = Trits::zero(EKEY_SIZE);
    pk1.encr(&prng, nonce1.slice(), k.slice(), ek.mut_slice());

    let mut dek = Trits::zero(KEY_SIZE);
    assert!(!sk2.decr(ek.slice(), dek.mut_slice()));
    assert!(sk1.decr(ek.slice(), dek.mut_slice()));
}

#[test]
fn public_key_reparse() {
    let (prng, nonce, sk, pk) = zero_keys();
    let again = PublicKey::from_trits(Trits::from_slice(pk.trits())).unwrap();
    assert!(again == pk);
    let from_slice = PublicKey::from_slice(pk.trits()).unwrap();
    assert!(from_slice == pk);

    let k = patterned(KEY_SIZE, 4);
    let mut ek = Trits::zero(EKEY_SIZE);
    again.encr(&prng, nonce.slice(), k.slice(), ek.mut_slice());
    let mut dek = Trits::zero(KEY_SIZE);
    assert!(sk.decr(ek.slice(), dek.mut_slice()));
    assert_eq!(k, dek);

    // the reparsed key encapsulates as the generated one does
    let mut ek2 = Trits::zero(EKEY_SIZE);
    pk.encr(&prng, nonce.slice(), k.slice(), ek2.mut_slice());
    assert_eq!(ek, ek2);
}

#[test]
fn pkid_is_the_prefix() {
    let (_, _, _, pk) = zero_keys();
    let id: Pkid = Trits::from_slice(pk.id());
    assert_eq!(id.size(), PKID_SIZE);
    assert_eq!(pk.trits().len(), PK_SIZE);
    assert_eq!(pk.id().len(), PKID_SIZE);
    assert_eq!(pk.id(), &pk.trits()[..81]);
}

#[test]
fn public_keys_are_equal_by_their_trits() {
    let (_, _, _, pk) = zero_keys();
    let same = PublicKey::from_slice(pk.trits()).unwrap();
    assert!(pk == same);
    assert!(pk.clone() == pk);
}

#[test]
fn generation_is_deterministic() {
    let (_, _, sk1, pk1) = zero_keys();
    let (_, _, _sk2, pk2) = zero_keys();
    assert!(pk1 == pk2);
    let mut again = pk1.clone();
    assert!(again.validate());
    assert!(again == pk1);
    let _ = sk1;
}

#[test]
fn public_key_of_bad_size_is_refused() {
    assert!(PublicKey::from_trits(Trits::zero(PK_SIZE - 1)).is_none());
    assert!(PublicKey::from_trits(Trits::zero(PK_SIZE + 1)).is_none());
    assert!(PublicKey::from_slice(Trits::zero(0).slice()).is_none());
}

#[test]
fn public_key_without_inverse_is_refused() {
    // the zero polynomial has the value zero everywhere
    let zero = Trits::zero(PK_SIZE);
    assert!(PublicKey::from_trits(zero.clone()).is_none());
    assert!(PublicKey::from_slice(zero.slice()).is_none());
    assert_eq!(pk_from_trits(zero.slice()).err(), Some(Error::NotInvertible));
}

#[test]
fn public_key_with_a_coefficient_out_of_range_is_refused() {
    // nine trits +1 encode 9841, above 6144
    let mut pk = Trits::zero(PK_SIZE);
    for i in 0..9 {
        pk.mut_slice()[9 * 5 + i] = Trit::Pos;
    }
    assert_eq!(pk_from_trits(pk.slice()).err(), Some(Error::BadEncoding));
    assert!(PublicKey::from_trits(pk).is_none());
}

#[test]
fn public_key_of_the_constant_one_is_accepted() {
    // the polynomial 1 has the value 1 at every root of unity
    let mut pk = Trits::zero(PK_SIZE);
    pk.mut_slice()[0] = Trit::Pos;
    let h = pk_from_trits(pk.slice()).unwrap();
    assert!(h.coefficients().iter().all(|c| *c == 1));
    assert!(PublicKey::from_trits(pk).is_some());
}

#[test]
fn capsule_with_a_coefficient_out_of_range_is_rejected() {
    let (_, _, sk, _) = zero_keys();
    let mut y = Trits::zero(EKEY_SIZE);
    for i in 0..9 {
        y.mut_slice()[i] = Trit::Neg;
    }
    let mut dek = patterned(KEY_SIZE, 1);
    let before = dek.clone();
    assert!(!sk.decr(y.slice(), dek.mut_slice()));
    assert_eq!(dek, before);
}

#[test]
fn gen_step_on_small_polynomials() {
    // f = 0 and g = 1: 1 + 3f = 1 and 3g = 3, both with inverses, and h = 3
    let mut f = Poly::new();
    let mut g = Poly::new();
    g.small_from_trits(&[Trit::Pos]);
    let mut h = Poly::new();
    assert!(gen_step(&mut f, &mut g, &mut h));
    assert!(f.coefficients().iter().all(|c| *c == 1));
    assert!(g.coefficients().iter().all(|c| *c == 3));
    assert!(h.coefficients().iter().all(|c| *c == 3));

    // g = 0 has no inverse, and h is left alone
    let mut f = Poly::new();
    let mut g = Poly::new();
    let mut h = Poly::new();
    h.small_from_trits(&[Trit::Neg]);
    assert!(!gen_step(&mut f, &mut g, &mut h));
    assert_eq!(h.coefficients()[0], -1);
    assert!(h.coefficients()[1..].iter().all(|c| *c == 0));
}

#[test]
fn gen_r_fills_the_four_outputs() {
    let prng_key = Trits::zero(prng::KEY_SIZE);
    let prng = PRNG::init(prng_key.slice());
    let nonce = Trits::zero(15);
    let mut f = Poly::new();
    let mut h = Poly::new();
    let mut sk = Trits::zero(SK_SIZE);
    let mut pk = Trits::zero(PK_SIZE);
    assert!(gen_r(&prng, nonce.slice(), &mut f, sk.mut_slice(), &mut h, pk.mut_slice()));
    assert!(f.has_inv());
    assert!(h.has_inv());

    // the same pair as gen gives
    let (_, pk2) = gen(&prng, nonce.slice()).unwrap();
    assert_eq!(pk.slice(), pk2.trits());

    // the private trits alone decapsulate
    let k = patterned(KEY_SIZE, 6);
    let mut ek = Trits::zero(EKEY_SIZE);
    let mut s = Spongos::init();
    encr_pk(&mut s, &prng, pk.slice(), &h, nonce.slice(), k.slice(), ek.mut_slice());
    let mut dek = Trits::zero(KEY_SIZE);
    let mut s = Spongos::init();
    assert!(decr_sk(&mut s, sk.slice(), ek.slice(), dek.mut_slice()));
    assert_eq!(k, dek);
}

#[test]
fn encapsulation_depends_on_the_nonce() {
    let (prng, nonce, _, pk) = zero_keys();
    let k = Trits::zero(KEY_SIZE);
    let mut ek1 = Trits::zero(EKEY_SIZE);
    let mut ek2 = Trits::zero(EKEY_SIZE);
    pk.encr(&prng, nonce.slice(), k.slice(), ek1.mut_slice());
    pk.encr(&prng, patterned(15, 2).slice(), k.slice(), ek2.mut_slice());
    assert!(ek1 != ek2);
}

#[test]
fn encr_r_takes_its_randomness_from_the_buffer() {
    let (prng, nonce, _, pk) = zero_keys();
    let k = patterned(KEY_SIZE, 3);
    let h = pk_from_trits(pk.trits()).unwrap();

    let mut by_pk = Trits::zero(EKEY_SIZE);
    let mut s = Spongos::init();
    encr_pk(&mut s, &prng, pk.trits(), &h, nonce.slice(), k.slice(), by_pk.mut_slice());

    let mut by_r = patterned(EKEY_SIZE, 1);
    prng.gens(&[pk.trits(), k.slice(), nonce.slice()], &mut by_r.mut_slice()[..SK_SIZE]);
    let mut s = Spongos::init();
    encr_r(&mut s, &h, k.slice(), by_r.mut_slice());
    assert_eq!(by_pk, by_r);

    // other randomness gives another capsule for the same key
    let mut other = patterned(EKEY_SIZE, 2);
    let mut s = Spongos::init();
    encr_r(&mut s, &h, k.slice(), other.mut_slice());
    assert!(other != by_r);
}

#[test]
fn decr_r_with_the_private_polynomial() {
    let (prng, nonce, _, _) = zero_keys();
    let mut f = Poly::new();
    let mut h = Poly::new();
    let mut sk = Trits::zero(SK_SIZE);
    let mut pk = Trits::zero(PK_SIZE);
    assert!(gen_r(&prng, nonce.slice(), &mut f, sk.mut_slice(), &mut h, pk.mut_slice()));

    let k = patterned(KEY_SIZE, 9);
    let mut ek = Trits::zero(EKEY_SIZE);
    let mut s = Spongos::init();
    encr_pk(&mut s, &prng, pk.slice(), &h, nonce.slice(), k.slice(), ek.mut_slice());
    let mut dek = Trits::zero(KEY_SIZE);
    let mut s = Spongos::init();
    assert!(decr_r(&mut s, &f, ek.slice(), dek.mut_slice()));
    assert_eq!(k, dek);
}

#[test]
fn the_noise_of_a_capsule_is_small() {
    // what decapsulation rounds stays far inside the balanced residues
    let (prng, nonce, sk, pk) = zero_keys();
    let _ = sk;
    let k = patterned(KEY_SIZE, 3);
    let mut ek = Trits::zero(EKEY_SIZE);
    pk.encr(&prng, nonce.slice(), k.slice(), ek.mut_slice());
    let mut f = Poly::new();
    let mut h = Poly::new();
    let mut skt = Trits::zero(SK_SIZE);
    let mut pkt = Trits::zero(PK_SIZE);
    assert!(gen_r(&prng, nonce.slice(), &mut f, skt.mut_slice(), &mut h, pkt.mut_slice()));
    let mut t = Poly::new();
    assert!(t.from_trits(ek.slice()));
    t.ntt();
    t.conv(&f);
    t.intt();
    let largest = t.coefficients().iter().map(|c| c.abs()).max().unwrap();
    assert!(largest < 1000, "largest coefficient {}", largest);
}

#[test]
fn generation_gives_up_when_the_counter_runs_out() {
    let prng = PRNG::init(Trits::zero(prng::KEY_SIZE).slice());
    let top = trits_of(&[1; 81]);
    let mut given_up = 0;
    let mut found = 0;
    for seed in 0..60 {
        let mut nonce = Trits::zero(15);
        encode(&mut nonce.mut_slice()[..9], seed);
        let mut f = Poly::new();
        let mut h = Poly::new();
        let mut sk = patterned(SK_SIZE, 1);
        let mut pk = patterned(PK_SIZE, 2);
        // from the top of the counter there is one attempt and no more
        let counter = top.clone();
        if gen_from(&prng, nonce.slice(), counter, &mut f, sk.mut_slice(), &mut h, pk.mut_slice()) {
            found += 1;
            assert!(PublicKey::from_slice(pk.slice()).is_some());
        } else {
            given_up += 1;
            // the outputs are left alone
            assert_eq!(sk, patterned(SK_SIZE, 1));
            assert_eq!(pk, patterned(PK_SIZE, 2));
            assert_eq!(f.coefficients(), vec![0; 1024]);
            assert_eq!(h.coefficients(), vec![0; 1024]);
            // with the whole counter to go through, a pair is found
            assert!(gen(&prng, nonce.slice()).is_ok());
        }
    }
    assert!(found > 0);
    assert!(given_up > 0);
}

#[test]
fn generation_from_zero_is_gen_r() {
    let prng = PRNG::init(patterned(prng::KEY_SIZE, 3).slice());
    let nonce = patterned(15, 1);
    let mut f1 = Poly::new();
    let mut h1 = Poly::new();
    let mut sk1 = Trits::zero(SK_SIZE);
    let mut pk1 = Trits::zero(PK_SIZE);
    let mut f2 = Poly::new();
    let mut h2 = Poly::new();
    let mut sk2 = Trits::zero(SK_SIZE);
    let mut pk2 = Trits::zero(PK_SIZE);
    assert!(gen_r(&prng, nonce.slice(), &mut f1, sk1.mut_slice(), &mut h1, pk1.mut_slice()));
    assert!(gen_from(
        &prng,
        nonce.slice(),
        Trits::zero(81),
        &mut f2,
        sk2.mut_slice(),
        &mut h2,
        pk2.mut_slice()
    ));
    assert_eq!(sk1, sk2);
    assert_eq!(pk1, pk2);
    assert_eq!(f1.coefficients(), f2.coefficients());
    assert_eq!(h1.coefficients(), h2.coefficients());
}

#[test]
fn generated_private_keys_hold_a_zero() {
    let prng = PRNG::init(Trits::zero(prng::KEY_SIZE).slice());
    for seed in 0..5 {
        let mut nonce = Trits::zero(15);
        encode(&mut nonce.mut_slice()[..9], seed);
        let (sk, _) = gen(&prng, nonce.slice()).unwrap();
        assert!(sk.has_zero());
    }
}
