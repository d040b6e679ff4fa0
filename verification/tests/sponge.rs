use streams_ntru::prng::{self, PRNG};
use streams_ntru::prp::{transform, Spn, CAPACITY, PRP, RATE, ROUNDS, WIDTH};
use streams_ntru::spongos;
use streams_ntru::trits::{Trit, Trits};

type Spongos = spongos::Spongos<Spn>;

fn trits_of(values: &[i32]) -> Trits {
    let mut t = Trits::zero(values.len());
    for (i, v) in values.iter().enumerate() {
        t.mut_slice()[i] = Trit::from_i32(*v);
    }
    t
}

fn values_of(t: &[Trit]) -> Vec<i8> {
    t.iter().map(|x| x.to_i8()).collect()
}

fn patterned(n: usize, seed: i32) -> Trits {
    let mut x = (seed as u64).wrapping_mul(2654435761).wrapping_add(12345);
    let mut values = Vec::new();
    for _ in 0..n {
        x = x.wrapping_mul(6364136223846793005).wrapping_add(1442695040888963407);
        values.push(((x >> 33) % 3) as i32 - 1);
    }
    trits_of(&values)
}

fn squeezed(s: &mut Spongos, n: usize) -> Trits {
    let mut out = Trits::zero(n);
    s.squeeze(out.mut_slice());
    out
}

#[test]
fn permutation_sizes() {
    assert_eq!(RATE, 486);
    assert_eq!(CAPACITY, 243);
    assert_eq!(WIDTH, RATE + CAPACITY);
    assert_eq!(ROUNDS, 24);
    assert_eq!(spongos::KEY_SIZE, 243);
}

#[test]
fn permutation_of_the_zero_state() {
    let mut s = Trits::zero(WIDTH);
    transform(s.mut_slice());
    assert_eq!(values_of(&s.slice()[..12]), vec![1, -1, -1, 0, -1, -1, 0, -1, 0, -1, 1, -1]);
    assert_eq!(values_of(&s.slice()[726..]), vec![-1, 0, 0]);

    // the network behind the interface of a permutation is the same
    let mut t = Trits::zero(WIDTH);
    Spn::transform(t.mut_slice());
    assert_eq!(s, t);
}

#[test]
fn permutation_spreads_one_trit() {
    let mut a = Trits::zero(WIDTH);
    let mut b = Trits::zero(WIDTH);
    b.mut_slice()[WIDTH - 1] = Trit::Pos;
    transform(a.mut_slice());
    transform(b.mut_slice());
    let differing = (0..WIDTH).filter(|i| a.slice()[*i] != b.slice()[*i]).count();
    assert!(differing > WIDTH / 2, "only {} trits differ", differing);
}

#[test]
fn squeeze_after_absorb_and_commit() {
    let mut s = Spongos::init();
    s.absorb(trits_of(&[1, 0, -1]).slice());
    s.commit();
    assert_eq!(values_of(squeezed(&mut s, 9).slice()), vec![0, 1, 1, 1, 1, 1, 0, 0, 1]);
}

#[test]
fn fresh_sponge_encrypts_with_zero_keystream() {
    let mut s = Spongos::init();
    let x = trits_of(&[1, 1, -1, 0]);
    let mut y = Trits::zero(4);
    s.encr(x.slice(), y.mut_slice());
    assert_eq!(y, x);
}

#[test]
fn sponge_is_deterministic() {
    let a = patterned(700, 1);
    let k = patterned(50, 2);
    let mut sa = Spongos::init();
    let mut sb = Spongos::init();
    let mut outs = Vec::new();
    for s in [&mut sa, &mut sb] {
        s.absorb(a.slice());
        s.commit();
        let mut c = Trits::zero(50);
        s.encr(k.slice(), c.mut_slice());
        let t = squeezed(s, 600);
        s.commit();
        let u = squeezed(s, 10);
        outs.push((c, t, u));
    }
    assert_eq!(outs[0], outs[1]);
}

#[test]
fn a_cloned_sponge_continues_alike() {
    let mut s = Spongos::init();
    s.absorb(patterned(500, 3).slice());
    let mut t = s.clone();
    assert_eq!(squeezed(&mut s, 40), squeezed(&mut t, 40));
}

#[test]
fn split_absorb_equals_joined_absorb() {
    let a = patterned(300, 1);
    let b = patterned(400, 2);
    let mut joined = Trits::zero(700);
    joined.mut_slice()[..300].copy_from_slice(a.slice());
    joined.mut_slice()[300..].copy_from_slice(b.slice());

    let mut sa = Spongos::init();
    sa.absorb(a.slice());
    sa.absorb(b.slice());
    let mut sb = Spongos::init();
    sb.absorb(joined.slice());
    let mut sc = Spongos::init();
    sc.absorb(a.slice());
    sc.commit();
    sc.absorb(b.slice());

    sa.commit();
    sb.commit();
    sc.commit();
    let o1 = squeezed(&mut sa, 81);
    let o2 = squeezed(&mut sb, 81);
    let o3 = squeezed(&mut sc, 81);
    assert_eq!(o1, o2);
    assert!(o1 != o3);
}

#[test]
fn commit_always_permutes() {
    let mut sa = Spongos::init();
    let mut sb = Spongos::init();
    sb.commit();
    assert!(squeezed(&mut sa, 27) != squeezed(&mut sb, 27));
}

#[test]
fn decrypt_inverts_encrypt() {
    for n in [0usize, 1, 3, 485, 486, 487, 1000] {
        let x = patterned(n, 5);
        let mut enc = Spongos::init();
        enc.absorb(patterned(33, 1).slice());
        enc.commit();
        let mut dec = enc.clone();

        let mut y = Trits::zero(n);
        enc.encr(x.slice(), y.mut_slice());
        let mut back = Trits::zero(n);
        dec.decr(y.slice(), back.mut_slice());
        assert_eq!(back, x);
        if n > 3 {
            assert!(y != x);
        }
        assert_eq!(squeezed(&mut enc, 20), squeezed(&mut dec, 20));
    }
}

#[test]
fn in_place_forms_agree() {
    let x = patterned(600, 7);
    let mut sa = Spongos::init();
    sa.absorb(patterned(10, 1).slice());
    sa.commit();
    let mut sb = sa.clone();
    let mut sc = sa.clone();

    let mut y = Trits::zero(600);
    sa.encr(x.slice(), y.mut_slice());
    let mut z = x.clone();
    sb.encr_mut(z.mut_slice());
    assert_eq!(y, z);

    sc.decr_mut(z.mut_slice());
    assert_eq!(z, x);
}

#[test]
fn prng_output_for_the_zero_key() {
    let prng = PRNG::init(Trits::zero(prng::KEY_SIZE).slice());
    let nonce = Trits::zero(15);
    let mut out = Trits::zero(9);
    prng.gens(&[nonce.slice()], out.mut_slice());
    assert_eq!(values_of(out.slice()), vec![1, 0, 0, -1, 1, 1, 0, 0, -1]);
    prng.gens(&[], out.mut_slice());
    assert_eq!(values_of(out.slice()), vec![1, -1, -1, 0, -1, -1, 0, -1, 0]);
}

#[test]
fn prng_is_a_function_of_key_nonces_and_length() {
    let key = patterned(prng::KEY_SIZE, 4);
    let pa = PRNG::init(key.slice());
    let pb = PRNG::init(key.slice());
    let a = patterned(20, 1);
    let b = patterned(30, 2);

    let mut o1 = Trits::zero(1000);
    let mut o2 = patterned(1000, 9);
    pa.gens(&[a.slice(), b.slice()], o1.mut_slice());
    pb.gens(&[a.slice(), b.slice()], o2.mut_slice());
    assert_eq!(o1, o2);
    // a second call gives the same again
    pa.gens(&[a.slice(), b.slice()], o2.mut_slice());
    assert_eq!(o1, o2);

    // a shorter output is a prefix of a longer one
    let mut short = Trits::zero(100);
    pa.gens(&[a.slice(), b.slice()], short.mut_slice());
    assert_eq!(short.slice(), &o1.slice()[..100]);
}

#[test]
fn prng_nonce_order_matters() {
    let prng = PRNG::init(patterned(prng::KEY_SIZE, 4).slice());
    let a = patterned(20, 1);
    let b = patterned(30, 2);
    let mut ab = Trits::zero(243);
    let mut ba = Trits::zero(243);
    prng.gens(&[a.slice(), b.slice()], ab.mut_slice());
    prng.gens(&[b.slice(), a.slice()], ba.mut_slice());
    assert!(ab != ba);
}

#[test]
fn prng_separates_nonces() {
    let prng = PRNG::init(patterned(prng::KEY_SIZE, 4).slice());
    let a = patterned(20, 1);
    let b = patterned(30, 2);
    let mut joined = Trits::zero(50);
    joined.mut_slice()[..20].copy_from_slice(a.slice());
    joined.mut_slice()[20..].copy_from_slice(b.slice());
    let mut two = Trits::zero(81);
    let mut one = Trits::zero(81);
    prng.gens(&[a.slice(), b.slice()], two.mut_slice());
    prng.gens(&[joined.slice()], one.mut_slice());
    assert!(two != one);
}

#[test]
fn prng_key_matters() {
    let pa = PRNG::init(patterned(prng::KEY_SIZE, 4).slice());
    let pb = PRNG::init(patterned(prng::KEY_SIZE, 5).slice());
    let mut o1 = Trits::zero(81);
    let mut o2 = Trits::zero(81);
    pa.gens(&[], o1.mut_slice());
    pb.gens(&[], o2.mut_slice());
    assert!(o1 != o2);
}
