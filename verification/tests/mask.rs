use streams_ntru::err::Error;
use streams_ntru::mask::{unwrap3, unwrapn, wrap3, wrapn, Mask, Tryte};
use streams_ntru::prp::Spn;
use streams_ntru::spongos;
use streams_ntru::transport::single_message;
use streams_ntru::trits::{Trit, Trits};

type Spongos = spongos::Spongos<Spn>;

fn trits_of(values: &[i32]) -> Trits {
    let mut t = Trits::zero(values.len());
    for (i, v) in values.iter().enumerate() {
        t.mut_slice()[i] = Trit::from_i32(*v);
    }
    t
}

fn keyed() -> Spongos {
    let mut s = Spongos::init();
    s.absorb(trits_of(&[1, -1, 1, 0, 0, 1]).slice());
    s.commit();
    s
}

#[test]
fn unwrap3_on_two_trits_is_eof() {
    let mut s = keyed();
    let data = trits_of(&[1, -1]);
    let mut b: &[Trit] = data.slice();
    assert_eq!(unwrap3(&mut s, &mut b), Err(Error::Eof));
    // nothing was taken from the buffer, nothing went through the sponge
    assert_eq!(b.len(), 2);
    let mut fresh = keyed();
    let mut o1 = Trits::zero(9);
    let mut o2 = Trits::zero(9);
    s.squeeze(o1.mut_slice());
    fresh.squeeze(o2.mut_slice());
    assert_eq!(o1, o2);
}

#[test]
fn unwrapn_past_the_end_is_eof() {
    let mut s = keyed();
    let data = trits_of(&[1, -1, 0]);
    let mut b: &[Trit] = data.slice();
    let mut t = trits_of(&[1, 1, 1, 1]);
    assert_eq!(unwrapn(&mut s, &mut b, t.mut_slice()), Err(Error::Eof));
    assert_eq!(b.len(), 3);
    assert_eq!(t, trits_of(&[1, 1, 1, 1]));
    let mut t = Trits::zero(3);
    assert_eq!(unwrapn(&mut s, &mut b, t.mut_slice()), Ok(()));
    assert_eq!(b.len(), 0);
}

#[test]
fn wrap_then_unwrap() {
    let x = trits_of(&[1, 0, -1, -1, 1, 1, 0]);
    let mut enc = keyed();
    let mut dec = enc.clone();

    let mut buf = Trits::zero(3 + 7 + 3);
    let at = wrap3(&mut enc, buf.mut_slice(), 0, -7);
    assert_eq!(at, 3);
    let at = wrapn(&mut enc, buf.mut_slice(), at, x.slice());
    assert_eq!(at, 10);
    let at = wrap3(&mut enc, buf.mut_slice(), at, 13);
    assert_eq!(at, buf.size());

    let mut b: &[Trit] = buf.slice();
    assert_eq!(unwrap3(&mut dec, &mut b), Ok(-7));
    assert_eq!(b.len(), 10);
    let mut y = Trits::zero(7);
    assert_eq!(unwrapn(&mut dec, &mut b, y.mut_slice()), Ok(()));
    assert_eq!(y, x);
    assert_eq!(unwrap3(&mut dec, &mut b), Ok(13));
    assert!(b.is_empty());
    assert_eq!(unwrap3(&mut dec, &mut b), Err(Error::Eof));

    // both sponges end in the same state
    let mut o1 = Trits::zero(27);
    let mut o2 = Trits::zero(27);
    enc.squeeze(o1.mut_slice());
    dec.squeeze(o2.mut_slice());
    assert_eq!(o1, o2);
}

#[test]
fn wrap_writes_its_window_and_nothing_else() {
    let mut s = keyed();
    let mut buf = trits_of(&[1, -1, 0, 0, 0, -1, 1]);
    let next = wrap3(&mut s, buf.mut_slice(), 2, 5);
    assert_eq!(next, 5);
    assert_eq!(buf.size(), 7);
    assert_eq!(&buf.slice()[..2], &[Trit::Pos, Trit::Neg]);
    assert_eq!(&buf.slice()[5..], &[Trit::Neg, Trit::Pos]);
    // 5 is -1, -1, 1; the sponge has masked it
    assert!(buf.slice()[2..5] != [Trit::Neg, Trit::Neg, Trit::Pos]);

    // through a fresh sponge the keystream is zero
    let mut fresh = Spongos::init();
    let mut plain = trits_of(&[1, 1, 1, 1]);
    assert_eq!(wrap3(&mut fresh, plain.mut_slice(), 1, 5), 4);
    assert_eq!(plain, trits_of(&[1, -1, -1, 1]));

    // wrapn leaves what lies round its window alone, too
    let mut fresh = Spongos::init();
    let mut plain = trits_of(&[1, 1, 1, 1, 1]);
    assert_eq!(wrapn(&mut fresh, plain.mut_slice(), 2, trits_of(&[0, -1]).slice()), 4);
    assert_eq!(plain, trits_of(&[1, 1, 0, -1, 1]));
    assert_eq!(wrapn(&mut fresh, plain.mut_slice(), 5, &[]), 5);
}

#[test]
fn wrapping_in_two_steps_is_wrapping_joined() {
    let a = trits_of(&[1, 0, -1, 1]);
    let b = trits_of(&[-1, -1, 0]);
    let joined = trits_of(&[1, 0, -1, 1, -1, -1, 0]);
    let mut two = keyed();
    let mut one = keyed();
    let mut buf2 = Trits::zero(7);
    let mut buf1 = Trits::zero(7);
    let at = wrapn(&mut two, buf2.mut_slice(), 0, a.slice());
    wrapn(&mut two, buf2.mut_slice(), at, b.slice());
    wrapn(&mut one, buf1.mut_slice(), 0, joined.slice());
    assert_eq!(buf1, buf2);
    let mut o1 = Trits::zero(9);
    let mut o2 = Trits::zero(9);
    one.squeeze(o1.mut_slice());
    two.squeeze(o2.mut_slice());
    assert_eq!(o1, o2);
}

#[test]
fn every_tryte_survives_the_mask() {
    for d in -13i8..=13 {
        let mut enc = keyed();
        let mut dec = enc.clone();
        let mut buf = Trits::zero(3);
        assert_eq!(Tryte::new(d).wrap_mask(&mut enc, buf.mut_slice(), 0), 3);
        let mut b: &[Trit] = buf.slice();
        let got = Tryte::unwrap_mask_sized(&mut dec, &mut b).unwrap();
        assert_eq!(got.get(), d);
        assert_eq!(got, Tryte::new(d));
    }
}

#[test]
fn unwrap_mask_replaces_the_value() {
    let mut enc = keyed();
    let mut dec = enc.clone();
    let mut other = enc.clone();
    let mut buf = Trits::zero(3);
    Tryte::new(11).wrap_mask(&mut enc, buf.mut_slice(), 0);
    let mut b: &[Trit] = buf.slice();
    let mut v = Tryte::new(0);
    assert_eq!(v.unwrap_mask(&mut dec, &mut b), Ok(()));
    assert_eq!(v.get(), 11);
    // the value is the one that unwrap_mask_sized gives
    let mut again: &[Trit] = buf.slice();
    assert_eq!(Tryte::unwrap_mask_sized(&mut other, &mut again), Ok(v));
    // at the end of the buffer the value stays
    assert_eq!(v.unwrap_mask(&mut dec, &mut b), Err(Error::Eof));
    assert_eq!(v.get(), 11);
}

#[test]
fn exactly_one_message() {
    assert_eq!(single_message(vec![7u8]), Ok(7));
    assert_eq!(single_message(Vec::<u8>::new()), Err(Error::MessageNotFound));
    assert_eq!(single_message(vec![1u8, 2]), Err(Error::MoreThanOneMessage));
    assert_eq!(single_message(vec!["a", "b", "c"]), Err(Error::MoreThanOneMessage));
}
