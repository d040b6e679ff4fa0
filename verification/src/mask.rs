//! The `mask` command: values go into a buffer encrypted through a sponge
//! and come out of it decrypted through a sponge in the same state.
//!
//! Both sides move over a buffer of the caller and allocate nothing. The
//! writing side is handed the buffer and the index to write at, and gives
//! back the index behind what it wrote; the reading side is handed a slice
//! that it shortens from the front.
use vstd::prelude::*;
use crate::err::Error;
use crate::prp::PRP;
use crate::spongos::{
    lemma_decrypted_inverts_encrypted, lemma_encrypted_concat, lemma_output_len, Duplex, Spongos,
};
use crate::trits::{
    advance, get3, lemma_max_values, lemma_trits_of_len, lemma_value_of_trits, put3, trits_of,
    trits_value, Trit, Trits,
};

verus! {

/// Encodes the tryte `d` in the three trits of `b` from index `at` on and
/// encrypts it there. Returns the index behind them, from which the next
/// value is to be written; the other trits of `b` are left as they were.
pub fn wrap3<F: PRP>(s: &mut Spongos<F>, b: &mut [Trit], at: usize, d: i8) -> (next: usize)
    requires
        old(s).wf(),
        -13 <= d <= 13,
        at + 3 <= old(b)@.len(),
    ensures
        final(s).wf(),
        next == at + 3,
        final(s)@ == old(s)@.encrypted(trits_of(d as int, 3)).0,
        final(b)@ == old(b)@.take(at as int) + old(s)@.encrypted(trits_of(d as int, 3)).1 + old(
            b,
        )@.skip(at + 3),
        final(b)@.len() == old(b)@.len(),
{
    assert(at + 3 <= b.len());
    let next: usize = at + 3;
    let (head, tail) = b.split_at_mut(at);
    let (window, rest) = tail.split_at_mut(3);
    put3(window, d);
    s.encr_mut(window);
    proof {
        lemma_output_len(old(s)@, trits_of(d as int, 3));
        lemma_trits_of_len(d as int, 3);
        assert(head@ =~= old(b)@.take(at as int));
        assert(rest@ =~= old(b)@.skip(at + 3));
    }
    next
}

/// Encrypts the trits of `t` into the trits of `b` from index `at` on.
/// Returns the index behind them, from which the next value is to be
/// written; the other trits of `b` are left as they were.
pub fn wrapn<F: PRP>(s: &mut Spongos<F>, b: &mut [Trit], at: usize, t: &[Trit]) -> (next: usize)
    requires
        old(s).wf(),
        at + t@.len() <= old(b)@.len(),
    ensures
        final(s).wf(),
        next == at + t@.len(),
        final(s)@ == old(s)@.encrypted(t@).0,
        final(b)@ == old(b)@.take(at as int) + old(s)@.encrypted(t@).1 + old(b)@.skip(
            at + t@.len(),
        ),
        final(b)@.len() == old(b)@.len(),
{
    let n: usize = t.len();
    assert(at + n <= b.len());
    let next: usize = at + n;
    let (head, tail) = b.split_at_mut(at);
    let (window, rest) = tail.split_at_mut(n);
    s.encr(t, window);
    proof {
        lemma_output_len(old(s)@, t@);
        assert(head@ =~= old(b)@.take(at as int));
        assert(rest@ =~= old(b)@.skip(at + n));
    }
    next
}

/// Decrypts the next three trits of `b` and reads them as a tryte.
/// Fails, and changes nothing, when fewer than three trits are left.
pub fn unwrap3<F: PRP>(s: &mut Spongos<F>, b: &mut &[Trit]) -> (res: Result<i8, Error>)
    requires
        old(s).wf(),
    ensures
        final(s).wf(),
        match res {
            Ok(d) => {
                &&& old(b)@.len() >= 3
                &&& d == trits_value(old(s)@.decrypted(old(b)@.take(3)).1)
                &&& final(s)@ == old(s)@.decrypted(old(b)@.take(3)).0
                &&& final(b)@ == old(b)@.skip(3)
            },
            Err(e) => {
                &&& e == Error::Eof
                &&& old(b)@.len() < 3
                &&& final(s)@ == old(s)@
                &&& final(b)@ == old(b)@
            },
        },
{
    if b.len() < 3 {
        return Err(Error::Eof);
    }
    let window = advance(b, 3);
    let mut d = Trits::zero(3);
    s.decr(window, d.mut_slice());
    proof {
        lemma_output_len(old(s)@, old(b)@.take(3));
    }
    Ok(get3(d.slice()))
}

/// Decrypts the next trits of `b` into the whole of `t`. Fails, and
/// changes nothing, when `b` has fewer trits left than `t` holds.
pub fn unwrapn<F: PRP>(s: &mut Spongos<F>, b: &mut &[Trit], t: &mut [Trit]) -> (res: Result<
    (),
    Error,
>)
    requires
        old(s).wf(),
    ensures
        final(s).wf(),
        match res {
            Ok(_) => {
                let n = old(t)@.len() as int;
                &&& old(b)@.len() >= n
                &&& final(t)@ == old(s)@.decrypted(old(b)@.take(n)).1
                &&& final(t)@.len() == old(t)@.len()
                &&& final(s)@ == old(s)@.decrypted(old(b)@.take(n)).0
                &&& final(b)@ == old(b)@.skip(n)
            },
            Err(e) => {
                &&& e == Error::Eof
                &&& old(b)@.len() < old(t)@.len()
                &&& final(s)@ == old(s)@
                &&& final(b)@ == old(b)@
                &&& final(t)@ == old(t)@
            },
        },
{
    let n: usize = t.len();
    if b.len() < n {
        return Err(Error::Eof);
    }
    let window = advance(b, n);
    s.decr(window, t);
    Ok(())
}

/// A tryte: an integer between -13 and 13, three trits when encoded.
#[derive(Clone, Copy, Debug, PartialEq, Eq)]
pub struct Tryte {
    value: i8,
}

impl Tryte {
    /// The integer lies between -13 and 13.
    #[verifier::type_invariant]
    spec fn in_range(self) -> bool {
        -13 <= self.value <= 13
    }

    /// The tryte of the integer `value`.
    pub closed spec fn of(value: int) -> Tryte {
        Tryte { value: value as i8 }
    }

    /// The tryte of the integer `value`.
    pub fn new(value: i8) -> (t: Tryte)
        requires
            -13 <= value <= 13,
        ensures
            t == Tryte::of(value as int),
            t.value() == value,
    {
        Tryte { value }
    }

    /// The integer of the tryte.
    pub closed spec fn value(self) -> int {
        self.value as int
    }

    /// The integer of the tryte.
    pub fn get(self) -> (d: i8)
        ensures
            d == self.value(),
            -13 <= d <= 13,
    {
        proof {
            use_type_invariant(self);
        }
        self.value
    }
}

/// Values that can be masked: each has an encoding as a trit string of a
/// fixed length, which is what goes through the sponge.
pub trait Mask: Sized {
    /// The trits that stand for the value.
    spec fn encoding(&self) -> Seq<Trit>;

    /// The number of trits that stand for any value of the type.
    spec fn size() -> nat;

    /// The value that the trits `t` stand for.
    spec fn decoding(t: Seq<Trit>) -> Self;

    /// Encrypts the encoding of the value into the trits of `b` from index
    /// `at` on. Returns the index behind them, from which the next value is
    /// to be written; the other trits of `b` are left as they were.
    fn wrap_mask<F: PRP>(&self, s: &mut Spongos<F>, b: &mut [Trit], at: usize) -> (next: usize)
        requires
            old(s).wf(),
            at + Self::size() <= old(b)@.len(),
        ensures
            final(s).wf(),
            self.encoding().len() == Self::size(),
            next == at + Self::size(),
            final(s)@ == old(s)@.encrypted(self.encoding()).0,
            final(b)@ == old(b)@.take(at as int) + old(s)@.encrypted(self.encoding()).1 + old(
                b,
            )@.skip(at + Self::size()),
            final(b)@.len() == old(b)@.len(),
    ;

    /// Decrypts the next trits of `b` and replaces the value by the one
    /// that they stand for, which is the one that `unwrap_mask_sized`
    /// gives. Fails, and changes nothing, when `b` has too few trits left.
    fn unwrap_mask<F: PRP>(&mut self, s: &mut Spongos<F>, b: &mut &[Trit]) -> (res: Result<
        (),
        Error,
    >)
        requires
            old(s).wf(),
        ensures
            final(s).wf(),
            match res {
                Ok(_) => {
                    let n = Self::size() as int;
                    &&& old(b)@.len() >= n
                    &&& *final(self) == Self::decoding(old(s)@.decrypted(old(b)@.take(n)).1)
                    &&& final(self).encoding() == old(s)@.decrypted(old(b)@.take(n)).1
                    &&& final(s)@ == old(s)@.decrypted(old(b)@.take(n)).0
                    &&& final(b)@ == old(b)@.skip(n)
                },
                Err(e) => {
                    &&& e == Error::Eof
                    &&& old(b)@.len() < Self::size()
                    &&& final(s)@ == old(s)@
                    &&& final(b)@ == old(b)@
                    &&& *final(self) == *old(self)
                },
            },
    {
        match Self::unwrap_mask_sized(s, b) {
            Ok(v) => {
                *self = v;
                Ok(())
            },
            Err(e) => Err(e),
        }
    }

    /// Decrypts the next trits of `b` and gives the value that they stand
    /// for. Fails, and changes nothing, when `b` has too few trits left.
    fn unwrap_mask_sized<F: PRP>(s: &mut Spongos<F>, b: &mut &[Trit]) -> (res: Result<
        Self,
        Error,
    >)
        requires
            old(s).wf(),
        ensures
            final(s).wf(),
            match res {
                Ok(v) => {
                    let n = Self::size() as int;
                    &&& old(b)@.len() >= n
                    &&& v == Self::decoding(old(s)@.decrypted(old(b)@.take(n)).1)
                    &&& v.encoding() == old(s)@.decrypted(old(b)@.take(n)).1
                    &&& final(s)@ == old(s)@.decrypted(old(b)@.take(n)).0
                    &&& final(b)@ == old(b)@.skip(n)
                },
                Err(e) => {
                    &&& e == Error::Eof
                    &&& old(b)@.len() < Self::size()
                    &&& final(s)@ == old(s)@
                    &&& final(b)@ == old(b)@
                },
            },
    ;
}

impl Mask for Tryte {
    open spec fn encoding(&self) -> Seq<Trit> {
        trits_of(self.value(), 3)
    }

    open spec fn size() -> nat {
        3
    }

    open spec fn decoding(t: Seq<Trit>) -> Tryte {
        Tryte::of(trits_value(t))
    }

    fn wrap_mask<F: PRP>(&self, s: &mut Spongos<F>, b: &mut [Trit], at: usize) -> (next: usize) {
        proof {
            lemma_trits_of_len(self.value(), 3);
        }
        wrap3(s, b, at, self.get())
    }

    fn unwrap_mask_sized<F: PRP>(s: &mut Spongos<F>, b: &mut &[Trit]) -> (res: Result<
        Self,
        Error,
    >) {
        match unwrap3(s, b) {
            Ok(d) => {
                proof {
                    let out = old(s)@.decrypted(old(b)@.take(3)).1;
                    lemma_output_len(old(s)@, old(b)@.take(3));
                    crate::trits::lemma_trits_of_value(out);
                    crate::trits::lemma_value_bound(out);
                    lemma_max_values();
                }
                Ok(Tryte::new(d))
            },
            Err(e) => Err(e),
        }
    }
}

/// Unwrapping what was wrapped, with a sponge in the state that the
/// wrapping sponge started from, gives the trits back and leaves both
/// sponges in the same state.
pub proof fn lemma_unwrap_inverts_wrap<F: PRP>(s: Duplex<F>, x: Seq<Trit>)
    ensures
        s.encrypted(x).1.len() == x.len(),
        s.decrypted(s.encrypted(x).1).1 == x,
        s.decrypted(s.encrypted(x).1).0 == s.encrypted(x).0,
{
    lemma_decrypted_inverts_encrypted(s, x);
}

/// Wrapping two strings one behind the other writes the trits, and leaves
/// the sponge in the state, that wrapping them joined does.
pub proof fn lemma_wrap_concat<F: PRP>(s: Duplex<F>, a: Seq<Trit>, b: Seq<Trit>)
    ensures
        s.encrypted(a + b).0 == s.encrypted(a).0.encrypted(b).0,
        s.encrypted(a + b).1 == s.encrypted(a).1 + s.encrypted(a).0.encrypted(b).1,
{
    lemma_encrypted_concat(s, a, b);
}

/// Unwrapping a wrapped tryte gives the tryte back.
pub proof fn lemma_unwrap3_inverts_wrap3<F: PRP>(s: Duplex<F>, d: int)
    requires
        -13 <= d <= 13,
    ensures
        trits_value(s.decrypted(s.encrypted(trits_of(d, 3)).1).1) == d,
        s.decrypted(s.encrypted(trits_of(d, 3)).1).0 == s.encrypted(trits_of(d, 3)).0,
{
    lemma_decrypted_inverts_encrypted(s, trits_of(d, 3));
    lemma_max_values();
    lemma_value_of_trits(d, 3);
}

} // verus!
