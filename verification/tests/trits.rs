use streams_ntru::trits::{
    advance, copy, decode, drop, encode, equals, get3, inc, put3, set_zero, take, Trit, Trits,
};

fn trits_of(values: &[i32]) -> Trits {
    let mut t = Trits::zero(values.len());
    for (i, v) in values.iter().enumerate() {
        t.mut_slice()[i] = Trit::from_i32(*v);
    }
    t
}

fn values_of(t: &[Trit]) -> Vec<i8> {
    t.iter().map(|x| x.to_i8()).collect()
}

#[test]
fn trit_values() {
    assert_eq!(Trit::Neg.to_i8(), -1);
    assert_eq!(Trit::Zero.to_i8(), 0);
    assert_eq!(Trit::Pos.to_i8(), 1);
    assert_eq!(Trit::from_i32(0), Trit::Zero);
    assert_eq!(Trit::from_i32(1), Trit::Pos);
    assert_eq!(Trit::from_i32(2), Trit::Neg);
    assert_eq!(Trit::from_i32(-1), Trit::Neg);
    assert_eq!(Trit::from_i32(-2), Trit::Pos);
    assert_eq!(Trit::from_i32(6144), Trit::Zero);
    assert_eq!(Trit::from_i32(-6143), Trit::Pos);
    assert_eq!(Trit::from_i32(i32::MAX), Trit::Pos);
    assert_eq!(Trit::from_i32(i32::MIN), Trit::Pos);
}

#[test]
fn trit_arithmetic_is_modulo_three() {
    let all = [Trit::Neg, Trit::Zero, Trit::Pos];
    for a in all {
        assert_eq!(a.succ(), Trit::from_i32(a.to_i8() as i32 + 1));
        for b in all {
            let (x, y) = (a.to_i8() as i32, b.to_i8() as i32);
            assert_eq!(a.plus(b), Trit::from_i32(x + y));
            assert_eq!(a.minus(b), Trit::from_i32(x - y));
            assert_eq!(a.times(b), Trit::from_i32(x * y));
            assert_eq!(a.plus(b).minus(b), a);
        }
    }
    assert_eq!(Trit::Pos.plus(Trit::Pos), Trit::Neg);
    assert_eq!(Trit::Neg.minus(Trit::Pos), Trit::Pos);
    assert_eq!(Trit::Neg.times(Trit::Neg), Trit::Pos);
}

#[test]
fn trytes_are_balanced_and_little_endian() {
    // 5 = -1 - 3 + 9
    let mut b = Trits::zero(3);
    put3(b.mut_slice(), 5);
    assert_eq!(values_of(b.slice()), vec![-1, -1, 1]);
    assert_eq!(get3(b.slice()), 5);
    put3(b.mut_slice(), 13);
    assert_eq!(values_of(b.slice()), vec![1, 1, 1]);
    put3(b.mut_slice(), -13);
    assert_eq!(values_of(b.slice()), vec![-1, -1, -1]);
    put3(b.mut_slice(), 0);
    assert_eq!(values_of(b.slice()), vec![0, 0, 0]);
    assert_eq!(get3(trits_of(&[1, 0, 0]).slice()), 1);
    assert_eq!(get3(trits_of(&[0, 1, 0]).slice()), 3);
    assert_eq!(get3(trits_of(&[0, 0, 1]).slice()), 9);
    assert_eq!(get3(trits_of(&[1, -1, 0]).slice()), -2);
}

#[test]
fn every_tryte_round_trips() {
    for d in -13i8..=13 {
        let mut b = Trits::zero(3);
        put3(b.mut_slice(), d);
        assert_eq!(get3(b.slice()), d);
    }
}

#[test]
fn put3_leaves_the_surroundings() {
    let mut b = trits_of(&[1, 1, 1, 1, 1, 1, 1]);
    put3(&mut b.mut_slice()[2..5], -4);
    assert_eq!(values_of(b.slice()), vec![1, 1, -1, -1, 0, 1, 1]);
}

#[test]
fn integers_of_nine_trits() {
    let mut b = Trits::zero(9);
    encode(b.mut_slice(), 6144);
    assert_eq!(decode(b.slice()), 6144);
    encode(b.mut_slice(), -6144);
    assert_eq!(decode(b.slice()), -6144);
    encode(b.mut_slice(), 9841);
    assert_eq!(values_of(b.slice()), vec![1; 9]);
    encode(b.mut_slice(), -9841);
    assert_eq!(values_of(b.slice()), vec![-1; 9]);
    encode(b.mut_slice(), 2);
    assert_eq!(values_of(b.slice()), vec![-1, 1, 0, 0, 0, 0, 0, 0, 0]);
    assert_eq!(decode(trits_of(&[0, 0, 0, 0, 0, 0, 0, 0, 1]).slice()), 6561);
    assert_eq!(decode(Trits::zero(0).slice()), 0);
    assert_eq!(decode(trits_of(&[1; 19]).slice()), 581130733);
}

#[test]
fn counter_steps_and_overflows() {
    let mut c = Trits::zero(2);
    let mut seen = vec![decode(c.slice())];
    while inc(c.mut_slice()) {
        seen.push(decode(c.slice()));
    }
    // from zero up to the top, 4, and then round to the bottom
    assert_eq!(seen, vec![0, 1, 2, 3, 4]);
    assert_eq!(values_of(c.slice()), vec![-1, -1]);

    let mut c = trits_of(&[1, 0, -1]);
    assert!(inc(c.mut_slice()));
    assert_eq!(values_of(c.slice()), vec![-1, 1, -1]);

    let mut c = trits_of(&[1, 1, 1]);
    assert!(!inc(c.mut_slice()));
    assert_eq!(values_of(c.slice()), vec![-1, -1, -1]);

    let mut c = trits_of(&[-1, -1]);
    assert!(inc(c.mut_slice()));
    assert_eq!(decode(c.slice()), -3);

    let mut empty = Trits::zero(0);
    assert!(!inc(empty.mut_slice()));
}

#[test]
fn buffers_and_slices() {
    let z = Trits::zero(5);
    assert_eq!(z.size(), 5);
    assert_eq!(values_of(z.slice()), vec![0; 5]);

    let a = trits_of(&[1, -1, 0, 1]);
    let b = Trits::from_slice(a.slice());
    assert_eq!(a, b);
    assert!(equals(a.slice(), b.slice()));
    assert!(!equals(a.slice(), &b.slice()[..3]));
    assert!(!equals(a.slice(), trits_of(&[1, -1, 0, -1]).slice()));
    assert!(equals(Trits::zero(0).slice(), Trits::zero(0).slice()));

    let mut c = Trits::zero(4);
    copy(a.slice(), c.mut_slice());
    assert_eq!(a, c);
    set_zero(c.mut_slice());
    assert_eq!(c, Trits::zero(4));
}

#[test]
fn taking_dropping_and_advancing() {
    let a = trits_of(&[1, -1, 0, 1, 1]);
    assert_eq!(values_of(take(a.slice(), 2)), vec![1, -1]);
    assert_eq!(values_of(drop(a.slice(), 2)), vec![0, 1, 1]);
    assert_eq!(take(a.slice(), 0).len(), 0);
    assert_eq!(drop(a.slice(), 5).len(), 0);
    assert_eq!(take(a.slice(), 5), a.slice());

    let mut b: &[Trit] = a.slice();
    let head = advance(&mut b, 3);
    assert_eq!(values_of(head), vec![1, -1, 0]);
    assert_eq!(values_of(b), vec![1, 1]);
    let head = advance(&mut b, 0);
    assert!(head.is_empty());
    let head = advance(&mut b, 2);
    assert_eq!(values_of(head), vec![1, 1]);
    assert!(b.is_empty());
}
