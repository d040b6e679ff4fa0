use streams_ntru::modular::{invert, reduce, HALF_Q, Q};
use streams_ntru::poly::{Poly, COEFF_TRITS, N, N_INV, OMEGA, OMEGA_INV};
use streams_ntru::trits::{encode, Trit, Trits};

fn trits_of(values: &[i32]) -> Trits {
    let mut t = Trits::zero(values.len());
    for (i, v) in values.iter().enumerate() {
        t.mut_slice()[i] = Trit::from_i32(*v);
    }
    t
}

fn poly_of(coefficients: &[i32]) -> Poly {
    let mut t = Trits::zero(COEFF_TRITS * N);
    for (i, c) in coefficients.iter().enumerate() {
        encode(&mut t.mut_slice()[9 * i..9 * i + 9], *c);
    }
    let mut p = Poly::new();
    assert!(p.from_trits(t.slice()));
    p
}

fn patterned_coefficients(seed: i64) -> Vec<i32> {
    (0..N as i64).map(|i| ((i * i * 31 + seed * i + 7 * seed) % 12289 - 6144) as i32).collect()
}

#[test]
fn constants() {
    assert_eq!(Q, 12289);
    assert_eq!(HALF_Q, 6144);
    assert_eq!(N, 1024);
    assert_eq!(COEFF_TRITS * N, 9216);
    assert_eq!((OMEGA as i64 * OMEGA_INV as i64) % 12289, 1);
    assert_eq!(reduce(N_INV as i64 * 1024), 1);
}

#[test]
fn balanced_residues() {
    assert_eq!(reduce(0), 0);
    assert_eq!(reduce(6144), 6144);
    assert_eq!(reduce(6145), -6144);
    assert_eq!(reduce(-6144), -6144);
    assert_eq!(reduce(-6145), 6144);
    assert_eq!(reduce(12289), 0);
    assert_eq!(reduce(12290), 1);
    assert_eq!(reduce(-12290), -1);
    assert_eq!(reduce(6144 * 6144), reduce((6144i64 * 6144) % 12289));
    assert_eq!(reduce(0x100_0000_0000), ((0x100_0000_0000i64 % 12289) as i32));
    assert_eq!(reduce(-0x100_0000_0000), -((0x100_0000_0000i64 % 12289) as i32));
    assert_eq!(reduce(i64::MAX), 2831);
    assert_eq!(reduce(i64::MIN), -2832);
    assert_eq!(reduce(-1), -1);
    assert_eq!(reduce(-12289), 0);
}

#[test]
fn inverses() {
    assert_eq!(invert(0), 0);
    assert_eq!(invert(1), 1);
    assert_eq!(invert(-1), -1);
    assert_eq!(invert(2), -6144);
    assert_eq!(invert(3), -4096);
    assert_eq!(invert(6144), -2);
    assert_eq!(invert(49), 1254);
    // what lies outside the balanced residues is reduced first
    assert_eq!(invert(12289), 0);
    assert_eq!(invert(-24578), 0);
    assert_eq!(invert(12290), 1);
    assert_eq!(invert(12291), -6144);
    assert_eq!(reduce(i32::MAX as i64 * invert(i32::MAX) as i64), 1);
    assert_eq!(reduce(i32::MIN as i64 * invert(i32::MIN) as i64), 1);
    for a in -6144i32..=6144 {
        if a != 0 {
            assert_eq!(reduce(a as i64 * invert(a) as i64), 1, "inverse of {}", a);
        }
    }
}

#[test]
fn new_is_zero() {
    let p = Poly::new();
    assert_eq!(p.coefficients(), vec![0; N]);
    assert!(!p.has_inv());
}

#[test]
fn small_polynomials() {
    let mut p = Poly::new();
    p.small_from_trits(trits_of(&[1, -1, 0, 1]).slice());
    let c = p.coefficients();
    assert_eq!(&c[..5], &[1, -1, 0, 1, 0]);
    assert!(c[5..].iter().all(|x| *x == 0));

    p.small_mul3();
    assert_eq!(&p.coefficients()[..5], &[3, -3, 0, 3, 0]);
    p.small3_add1();
    assert_eq!(&p.coefficients()[..5], &[4, -3, 0, 3, 0]);

    // a later call replaces every coefficient
    p.small_from_trits(trits_of(&[-1]).slice());
    assert_eq!(&p.coefficients()[..3], &[-1, 0, 0]);
    p.small_from_trits(&[]);
    assert_eq!(p.coefficients(), vec![0; N]);
}

#[test]
fn tripling_and_adding_reduce() {
    let mut c = vec![0; N];
    c[0] = 6144;
    c[1] = 4000;
    c[2] = -4000;
    let mut p = poly_of(&c);
    p.small_mul3();
    // 18432 - 12289, 12000 - 12289, -12000 + 12289
    assert_eq!(&p.coefficients()[..3], &[6143, -289, 289]);
    let mut p = poly_of(&c);
    p.small3_add1();
    assert_eq!(&p.coefficients()[..3], &[-6144, 4000, -4000]);
}

#[test]
fn ntt_of_simple_polynomials() {
    // the constant 1 has the value 1 everywhere
    let mut one = Poly::new();
    one.small_from_trits(trits_of(&[1]).slice());
    one.ntt();
    assert_eq!(one.coefficients(), vec![1; N]);
    assert!(one.has_inv());

    // x has the value 49^i at the ith root
    let mut x = Poly::new();
    x.small_from_trits(trits_of(&[0, 1]).slice());
    x.ntt();
    let v = x.coefficients();
    assert_eq!(&v[..5], &[1, 49, 2401, -5241, 1260]);
    assert_eq!(v[1023], 1254);
    assert_eq!(v[512], -1);

    // 1 + x + ... + x^1023 vanishes at every root but the first
    let mut all = Poly::new();
    all.small_from_trits(trits_of(&[1; 1024]).slice());
    all.ntt();
    let v = all.coefficients();
    assert_eq!(v[0], 1024);
    assert!(v[1..].iter().all(|c| *c == 0));
    assert!(!all.has_inv());
}

#[test]
fn intt_of_simple_values() {
    let mut p = poly_of(&vec![1; N]);
    p.intt();
    let c = p.coefficients();
    assert_eq!(c[0], 1);
    assert!(c[1..].iter().all(|x| *x == 0));
}

#[test]
fn ntt_round_trip() {
    for seed in [1i64, 2, 3] {
        let c = patterned_coefficients(seed);
        let mut p = poly_of(&c);
        p.ntt();
        assert!(p.coefficients() != c);
        p.intt();
        assert_eq!(p.coefficients(), c);

        let mut p = poly_of(&c);
        p.intt();
        p.ntt();
        assert_eq!(p.coefficients(), c);
    }
}

#[test]
fn invertibility_is_stable() {
    let mut c = vec![0; N];
    c[0] = 5;
    c[1] = 1;
    let mut h = poly_of(&c);
    h.ntt();
    assert!(h.has_inv());
    let before = h.coefficients();
    h.intt();
    h.ntt();
    assert!(h.has_inv());
    assert_eq!(h.coefficients(), before);
}

#[test]
fn inv_and_conv() {
    let c = patterned_coefficients(4);
    let p = poly_of(&c);
    let mut q = p.clone();
    q.inv();
    let mut prod = p.clone();
    prod.conv(&q);
    let ones: Vec<i32> = c.iter().map(|x| if *x == 0 { 0 } else { 1 }).collect();
    assert_eq!(prod.coefficients(), ones);

    let mut sq = p.clone();
    sq.conv(&p);
    let expected: Vec<i32> = c.iter().map(|x| reduce(*x as i64 * *x as i64)).collect();
    assert_eq!(sq.coefficients(), expected);
}

#[test]
fn conv_multiplies_polynomials() {
    // (1 + x) * (1 - x) = 1 - x^2, and x^1023 * x = 1
    let mut a = Poly::new();
    a.small_from_trits(trits_of(&[1, 1]).slice());
    let mut b = Poly::new();
    b.small_from_trits(trits_of(&[1, -1]).slice());
    a.ntt();
    b.ntt();
    a.conv(&b);
    a.intt();
    let c = a.coefficients();
    assert_eq!(&c[..4], &[1, 0, -1, 0]);
    assert!(c[4..].iter().all(|x| *x == 0));

    let mut top = vec![0; N];
    top[1023] = 1;
    let mut a = poly_of(&top);
    let mut x = Poly::new();
    x.small_from_trits(trits_of(&[0, 1]).slice());
    a.ntt();
    x.ntt();
    a.conv(&x);
    a.intt();
    let c = a.coefficients();
    assert_eq!(c[0], 1);
    assert!(c[1..].iter().all(|x| *x == 0));
}

#[test]
fn trits_round_trip() {
    let c = patterned_coefficients(5);
    let p = poly_of(&c);
    assert_eq!(p.coefficients(), c);
    let mut t = Trits::zero(9216);
    p.to_trits(t.mut_slice());
    let mut q = Poly::new();
    assert!(q.from_trits(t.slice()));
    assert_eq!(q.coefficients(), c);

    let mut c = vec![0; N];
    c[0] = 2;
    c[1023] = -6144;
    poly_of(&c).to_trits(t.mut_slice());
    let v: Vec<i8> = t.slice()[..9].iter().map(|x| x.to_i8()).collect();
    assert_eq!(v, vec![-1, 1, 0, 0, 0, 0, 0, 0, 0]);
    let mut last = Trits::zero(9);
    encode(last.mut_slice(), -6144);
    assert_eq!(&t.slice()[9207..], last.slice());
}

#[test]
fn from_trits_refuses_what_is_out_of_range() {
    for bad in [6145, -6145, 9841, -9841] {
        let mut t = Trits::zero(9216);
        encode(&mut t.mut_slice()[9 * 1023..], bad);
        let mut p = Poly::new();
        p.small_from_trits(trits_of(&[1, 1]).slice());
        let before = p.coefficients();
        assert!(!p.from_trits(t.slice()));
        assert_eq!(p.coefficients(), before);
    }
    for good in [6144, -6144] {
        let mut t = Trits::zero(9216);
        encode(&mut t.mut_slice()[9 * 1023..], good);
        let mut p = Poly::new();
        assert!(p.from_trits(t.slice()));
        assert_eq!(p.coefficients()[1023], good);
    }
}

#[test]
fn rounding_is_modulo_three() {
    let mut c = vec![0; N];
    c[..8].copy_from_slice(&[0, 1, 2, 3, 4, -1, -2, 6144]);
    c[1023] = -6144;
    let p = poly_of(&c);
    let mut t = Trits::zero(N);
    p.round_to_trits(t.mut_slice());
    let v: Vec<i8> = t.slice()[..8].iter().map(|x| x.to_i8()).collect();
    assert_eq!(v, vec![0, 1, -1, 0, 1, -1, 1, 0]);
    assert_eq!(t.slice()[1023], Trit::Zero);
    assert!(t.slice()[8..1023].iter().all(|x| *x == Trit::Zero));
}

#[test]
fn adding_and_subtracting_small() {
    let mut c = vec![0; N];
    c[0] = 6144;
    c[1] = -6144;
    c[2] = 10;
    let s = trits_of(&[1, -1, -1]);
    let mut p = poly_of(&c);
    p.add_small(s.slice());
    assert_eq!(&p.coefficients()[..4], &[-6144, 6144, 9, 0]);
    p.sub_small(s.slice());
    assert_eq!(p.coefficients(), c);
    p.sub_small(s.slice());
    assert_eq!(&p.coefficients()[..4], &[6143, -6143, 11, 0]);
}
