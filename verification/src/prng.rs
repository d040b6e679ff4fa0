//! A deterministic generator of trits, keyed through the sponge.
use vstd::prelude::*;
use core::marker::PhantomData;
use crate::prp::{Spn, PRP};
use crate::spongos::{lemma_output_len, Duplex, Spongos};
use crate::trits::{zeros, Trit};

verus! {

/// Trits in a generator key.
pub const KEY_SIZE: usize = 243;

/// The sponge after the key has gone in.
pub open spec fn keyed<F: PRP>(key: Seq<Trit>) -> Duplex<F> {
    Duplex::<F>::fresh().absorbed(key).committed()
}

/// The sponge after each nonce in turn has been absorbed and committed.
pub open spec fn with_nonces<F: PRP>(d: Duplex<F>, nonces: Seq<Seq<Trit>>) -> Duplex<F>
    decreases nonces.len(),
{
    if nonces.len() == 0 {
        d
    } else {
        with_nonces(d, nonces.drop_last()).absorbed(nonces.last()).committed()
    }
}

/// The `n` trits that the generator with this key gives for these nonces.
pub open spec fn generated<F: PRP>(key: Seq<Trit>, nonces: Seq<Seq<Trit>>, n: nat) -> Seq<
    Trit,
> {
    with_nonces(keyed::<F>(key), nonces).squeezed(n).1
}

/// The trit strings behind a list of slices.
pub open spec fn views(nonces: Seq<&[Trit]>) -> Seq<Seq<Trit>> {
    Seq::new(nonces.len(), |i: int| nonces[i]@)
}

/// The generator gives as many trits as it is asked for.
pub proof fn lemma_generated_len<F: PRP>(key: Seq<Trit>, nonces: Seq<Seq<Trit>>, n: nat)
    ensures
        generated::<F>(key, nonces, n).len() == n,
{
    lemma_output_len(with_nonces(keyed::<F>(key), nonces), zeros(n));
}

/// The generator over the permutation `F`: it holds its key and nothing
/// else, so every output is a function of the key, the nonces and the
/// length asked for.
#[derive(Debug)]
pub struct Prng<F: PRP> {
    key: Vec<Trit>,
    prp: PhantomData<F>,
}

/// The generator over the permutation that the library brings along.
pub type PRNG = Prng<Spn>;

impl<F: PRP> View for Prng<F> {
    type V = Seq<Trit>;

    closed spec fn view(&self) -> Seq<Trit> {
        self.key@
    }
}

impl<F: PRP> Clone for Prng<F> {
    /// A second generator with the same key.
    fn clone(&self) -> (p: Self)
        ensures
            p@ == self@,
    {
        let key = self.key.clone();
        assert(key@ =~= self.key@);
        Prng { key, prp: PhantomData }
    }
}

impl<F: PRP> Prng<F> {
    /// A generator for `key`.
    pub fn init(key: &[Trit]) -> (p: Prng<F>)
        requires
            key@.len() == KEY_SIZE,
        ensures
            p@ == key@,
    {
        Prng { key: vstd::slice::slice_to_vec(key), prp: PhantomData }
    }

    /// Fills `out` with the trits that the key and the nonces, in their
    /// order, determine.
    pub fn gens(&self, nonces: &[&[Trit]], out: &mut [Trit])
        ensures
            final(out)@ == generated::<F>(self@, views(nonces@), old(out)@.len()),
            final(out)@.len() == old(out)@.len(),
    {
        let mut s = Spongos::<F>::init();
        s.absorb(self.key.as_slice());
        s.commit();
        let m: usize = nonces.len();
        let mut j: usize = 0;
        assert(views(nonces@).take(0) =~= Seq::<Seq<Trit>>::empty());
        while j < m
            invariant
                j <= m,
                m == nonces@.len(),
                s.wf(),
                s@ == with_nonces(keyed::<F>(self@), views(nonces@).take(j as int)),
            decreases m - j,
        {
            s.absorb(nonces[j]);
            s.commit();
            proof {
                let v = views(nonces@);
                assert(v.take(j as int + 1).drop_last() =~= v.take(j as int));
                assert(v.take(j as int + 1).last() == nonces@[j as int]@);
            }
            j += 1;
        }
        assert(views(nonces@).take(m as int) =~= views(nonces@));
        s.squeeze(out);
    }
}

} // verus!
