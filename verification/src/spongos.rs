//! The duplex sponge: absorb, squeeze, encrypt, decrypt and commit over
//! a permutation of [`crate::prp`].
use vstd::prelude::*;
use core::marker::PhantomData;
use crate::prp::{PRP, RATE, WIDTH};
use crate::trits::{copy, lemma_plus_minus, zeros, Trit};

verus! {

/// Trits in a session key.
pub const KEY_SIZE: usize = 243;

/// The sponge over the permutation `F` as a mathematical value: the trits
/// of its state and the cursor into the outer part.
pub struct Duplex<F> {
    pub state: Seq<Trit>,
    pub pos: int,
    pub prp: PhantomData<F>,
}

impl<F: PRP> Duplex<F> {
    /// The state has its full width and the cursor lies inside the rate.
    pub open spec fn wf(self) -> bool {
        self.state.len() == WIDTH && 0 <= self.pos < RATE
    }

    /// The sponge before anything has gone through it.
    pub open spec fn fresh() -> Duplex<F> {
        Duplex { state: zeros(WIDTH as nat), pos: 0, prp: PhantomData }
    }

    /// The sponge with `t` written at the cursor.
    pub open spec fn with(self, t: Trit) -> Duplex<F> {
        Duplex { state: self.state.update(self.pos, t), pos: self.pos, prp: PhantomData }
    }

    /// The trit under the cursor.
    pub open spec fn current(self) -> Trit {
        self.state[self.pos]
    }

    /// The cursor moved on by one trit; at the end of the rate the state is
    /// permuted and the cursor returns to the start.
    pub open spec fn moved(self) -> Duplex<F> {
        if self.pos + 1 == RATE {
            Duplex { state: F::permuted(self.state), pos: 0, prp: PhantomData }
        } else {
            Duplex { state: self.state, pos: self.pos + 1, prp: PhantomData }
        }
    }

    /// The state permuted and the cursor back at the start of the block.
    pub open spec fn committed(self) -> Duplex<F> {
        Duplex { state: F::permuted(self.state), pos: 0, prp: PhantomData }
    }

    /// After absorbing the trits of `x`, each added to the trit under the
    /// cursor.
    pub open spec fn absorbed(self, x: Seq<Trit>) -> Duplex<F>
        decreases x.len(),
    {
        if x.len() == 0 {
            self
        } else {
            let before = self.absorbed(x.drop_last());
            before.with(before.current().spec_plus(x.last())).moved()
        }
    }

    /// After squeezing `n` trits: the sponge, and the trits that came out.
    pub open spec fn squeezed(self, n: nat) -> (Duplex<F>, Seq<Trit>)
        decreases n,
    {
        if n == 0 {
            (self, Seq::empty())
        } else {
            let (before, out) = self.squeezed((n - 1) as nat);
            (before.moved(), out.push(before.current()))
        }
    }

    /// After encrypting the plaintext `x`: the sponge, and the ciphertext.
    /// Each ciphertext trit is the plaintext trit plus the trit under the
    /// cursor, and takes that trit's place in the state.
    pub open spec fn encrypted(self, x: Seq<Trit>) -> (Duplex<F>, Seq<Trit>)
        decreases x.len(),
    {
        if x.len() == 0 {
            (self, Seq::empty())
        } else {
            let (before, out) = self.encrypted(x.drop_last());
            let c = x.last().spec_plus(before.current());
            (before.with(c).moved(), out.push(c))
        }
    }

    /// After decrypting the ciphertext `y`: the sponge, and the plaintext.
    /// Each plaintext trit is the ciphertext trit minus the trit under the
    /// cursor, whose place in the state the ciphertext trit takes.
    pub open spec fn decrypted(self, y: Seq<Trit>) -> (Duplex<F>, Seq<Trit>)
        decreases y.len(),
    {
        if y.len() == 0 {
            (self, Seq::empty())
        } else {
            let (before, out) = self.decrypted(y.drop_last());
            let p = y.last().spec_minus(before.current());
            (before.with(y.last()).moved(), out.push(p))
        }
    }
}

/// One operation on a sponge, with its input.
pub enum Operation {
    Absorb(Seq<Trit>),
    Squeeze(nat),
    Encr(Seq<Trit>),
    Decr(Seq<Trit>),
    Commit,
}

impl<F: PRP> Duplex<F> {
    /// After one operation: the sponge, and what the operation put out.
    pub open spec fn applied(self, op: Operation) -> (Duplex<F>, Seq<Trit>) {
        match op {
            Operation::Absorb(x) => (self.absorbed(x), Seq::empty()),
            Operation::Squeeze(n) => self.squeezed(n),
            Operation::Encr(x) => self.encrypted(x),
            Operation::Decr(y) => self.decrypted(y),
            Operation::Commit => (self.committed(), Seq::empty()),
        }
    }

    /// After a sequence of operations: the sponge, and the outputs in order.
    pub open spec fn run(self, ops: Seq<Operation>) -> (Duplex<F>, Seq<Seq<Trit>>)
        decreases ops.len(),
    {
        if ops.len() == 0 {
            (self, Seq::empty())
        } else {
            let (before, outs) = self.run(ops.drop_last());
            let (after, out) = before.applied(ops.last());
            (after, outs.push(out))
        }
    }
}

/// Squeezing, encrypting and decrypting put out as many trits as they
/// were asked for or given.
pub proof fn lemma_output_len<F: PRP>(d: Duplex<F>, x: Seq<Trit>)
    ensures
        d.squeezed(x.len()).1.len() == x.len(),
        d.encrypted(x).1.len() == x.len(),
        d.decrypted(x).1.len() == x.len(),
    decreases x.len(),
{
    if x.len() > 0 {
        lemma_output_len(d, x.drop_last());
    }
}

/// Moving the cursor keeps a sponge well-formed.
pub proof fn lemma_moved_wf<F: PRP>(d: Duplex<F>, t: Trit)
    requires
        d.wf(),
    ensures
        d.with(t).moved().wf(),
        d.moved().wf(),
        d.committed().wf(),
{
    F::lemma_bijective(d.state);
    F::lemma_bijective(d.with(t).state);
}

/// Every operation keeps a sponge well-formed, and puts out as many trits
/// as it was asked for or given.
pub proof fn lemma_applied_wf<F: PRP>(d: Duplex<F>, op: Operation)
    requires
        d.wf(),
    ensures
        d.applied(op).0.wf(),
        op matches Operation::Squeeze(n) ==> d.applied(op).1.len() == n,
        op matches Operation::Encr(x) ==> d.applied(op).1.len() == x.len(),
        op matches Operation::Decr(y) ==> d.applied(op).1.len() == y.len(),
    decreases
        (match op {
            Operation::Absorb(x) => x.len(),
            Operation::Squeeze(n) => n,
            Operation::Encr(x) => x.len(),
            Operation::Decr(y) => y.len(),
            Operation::Commit => 0,
        }),
{
    match op {
        Operation::Absorb(x) => {
            if x.len() > 0 {
                lemma_applied_wf(d, Operation::Absorb(x.drop_last()));
                let before = d.absorbed(x.drop_last());
                lemma_moved_wf(before, before.current().spec_plus(x.last()));
            }
        },
        Operation::Squeeze(n) => {
            if n > 0 {
                lemma_applied_wf(d, Operation::Squeeze((n - 1) as nat));
                let before = d.squeezed((n - 1) as nat).0;
                lemma_moved_wf(before, Trit::Zero);
            }
        },
        Operation::Encr(x) => {
            if x.len() > 0 {
                lemma_applied_wf(d, Operation::Encr(x.drop_last()));
                let before = d.encrypted(x.drop_last()).0;
                lemma_moved_wf(before, x.last().spec_plus(before.current()));
            }
        },
        Operation::Decr(y) => {
            if y.len() > 0 {
                lemma_applied_wf(d, Operation::Decr(y.drop_last()));
                let before = d.decrypted(y.drop_last()).0;
                lemma_moved_wf(before, y.last());
            }
        },
        Operation::Commit => {
            lemma_moved_wf(d, Trit::Zero);
        },
    }
}

/// A well-formed sponge stays well-formed through any sequence of
/// operations.
pub proof fn lemma_run_wf<F: PRP>(d: Duplex<F>, ops: Seq<Operation>)
    requires
        d.wf(),
    ensures
        d.run(ops).0.wf(),
        d.run(ops).1.len() == ops.len(),
    decreases ops.len(),
{
    if ops.len() > 0 {
        lemma_run_wf(d, ops.drop_last());
        lemma_applied_wf(d.run(ops.drop_last()).0, ops.last());
    }
}

/// Two sponges in the same state, driven through the same operations, put
/// out the same trits and end in the same state.
pub proof fn lemma_deterministic<F: PRP>(a: Duplex<F>, b: Duplex<F>, ops: Seq<Operation>)
    requires
        a == b,
    ensures
        a.run(ops).1 == b.run(ops).1,
        a.run(ops).0 == b.run(ops).0,
        a.run(ops).0.committed() == b.run(ops).0.committed(),
{
}

/// Absorbing two strings one after the other is absorbing them joined.
pub proof fn lemma_absorbed_concat<F: PRP>(d: Duplex<F>, a: Seq<Trit>, b: Seq<Trit>)
    ensures
        d.absorbed(a).absorbed(b) == d.absorbed(a + b),
    decreases b.len(),
{
    if b.len() == 0 {
        assert(a + b =~= a);
    } else {
        lemma_absorbed_concat(d, a, b.drop_last());
        assert((a + b).drop_last() =~= a + b.drop_last());
    }
}

/// Absorbing moves the cursor on by the number of trits absorbed, round the
/// rate.
pub proof fn lemma_absorbed_pos<F: PRP>(d: Duplex<F>, x: Seq<Trit>)
    requires
        d.wf(),
    ensures
        d.absorbed(x).pos == (d.pos + x.len()) % (RATE as int),
    decreases x.len(),
{
    if x.len() > 0 {
        lemma_absorbed_pos(d, x.drop_last());
    }
}

/// A commit on a partial block is no empty step: after the same trits have
/// been absorbed behind it, the sponge that committed stands at another
/// place in its block than the sponge that did not, and so the two are in
/// different states.
pub proof fn lemma_commit_moves_cursor<F: PRP>(d: Duplex<F>, a: Seq<Trit>, b: Seq<Trit>)
    requires
        d.wf(),
        (d.pos + a.len()) % (RATE as int) != 0,
    ensures
        d.absorbed(a).committed().absorbed(b).pos != d.absorbed(a).absorbed(b).pos,
        d.absorbed(a).committed().absorbed(b) != d.absorbed(a + b),
{
    lemma_absorbed_pos(d, a);
    lemma_applied_wf(d, Operation::Absorb(a));
    lemma_moved_wf(d.absorbed(a), Trit::Zero);
    lemma_absorbed_pos(d.absorbed(a).committed(), b);
    lemma_absorbed_pos(d.absorbed(a), b);
    lemma_absorbed_concat(d, a, b);
}

/// Encrypting two strings one after the other is encrypting them joined:
/// the same ciphertext comes out and the sponge ends in the same state.
pub proof fn lemma_encrypted_concat<F: PRP>(d: Duplex<F>, a: Seq<Trit>, b: Seq<Trit>)
    ensures
        d.encrypted(a + b).0 == d.encrypted(a).0.encrypted(b).0,
        d.encrypted(a + b).1 == d.encrypted(a).1 + d.encrypted(a).0.encrypted(b).1,
    decreases b.len(),
{
    if b.len() == 0 {
        assert(a + b =~= a);
        assert(d.encrypted(a).1 + Seq::<Trit>::empty() =~= d.encrypted(a).1);
    } else {
        lemma_encrypted_concat(d, a, b.drop_last());
        assert((a + b).drop_last() =~= a + b.drop_last());
        let mid = d.encrypted(a).0;
        let (before, out) = mid.encrypted(b.drop_last());
        let c = b.last().spec_plus(before.current());
        assert(d.encrypted(a).1 + out.push(c) =~= (d.encrypted(a).1 + out).push(c));
    }
}

/// Decrypting two strings one after the other is decrypting them joined:
/// the same plaintext comes out and the sponge ends in the same state.
pub proof fn lemma_decrypted_concat<F: PRP>(d: Duplex<F>, a: Seq<Trit>, b: Seq<Trit>)
    ensures
        d.decrypted(a + b).0 == d.decrypted(a).0.decrypted(b).0,
        d.decrypted(a + b).1 == d.decrypted(a).1 + d.decrypted(a).0.decrypted(b).1,
    decreases b.len(),
{
    if b.len() == 0 {
        assert(a + b =~= a);
        assert(d.decrypted(a).1 + Seq::<Trit>::empty() =~= d.decrypted(a).1);
    } else {
        lemma_decrypted_concat(d, a, b.drop_last());
        assert((a + b).drop_last() =~= a + b.drop_last());
        let mid = d.decrypted(a).0;
        let (before, out) = mid.decrypted(b.drop_last());
        let p = b.last().spec_minus(before.current());
        assert(d.decrypted(a).1 + out.push(p) =~= (d.decrypted(a).1 + out).push(p));
    }
}

/// Decrypting what a sponge encrypted, with a sponge in the state that the
/// first one started from, gives the plaintext back and leaves both sponges
/// in the same state.
pub proof fn lemma_decrypted_inverts_encrypted<F: PRP>(d: Duplex<F>, x: Seq<Trit>)
    ensures
        d.encrypted(x).1.len() == x.len(),
        d.decrypted(d.encrypted(x).1) == (d.encrypted(x).0, x),
    decreases x.len(),
{
    if x.len() > 0 {
        let head = x.drop_last();
        lemma_decrypted_inverts_encrypted(d, head);
        let (before, out) = d.encrypted(head);
        let c = x.last().spec_plus(before.current());
        let y = out.push(c);
        assert(y.drop_last() =~= out);
        lemma_plus_minus(x.last(), before.current());
        assert(head.push(x.last()) =~= x);
    } else {
        assert(d.decrypted(Seq::<Trit>::empty()).1 =~= x);
    }
}

/// Encrypting what a sponge decrypted, with a sponge in the state that the
/// first one started from, gives the ciphertext back and leaves both
/// sponges in the same state.
pub proof fn lemma_encrypted_inverts_decrypted<F: PRP>(d: Duplex<F>, y: Seq<Trit>)
    ensures
        d.decrypted(y).1.len() == y.len(),
        d.encrypted(d.decrypted(y).1) == (d.decrypted(y).0, y),
    decreases y.len(),
{
    if y.len() > 0 {
        let head = y.drop_last();
        lemma_encrypted_inverts_decrypted(d, head);
        let (before, out) = d.decrypted(head);
        let p = y.last().spec_minus(before.current());
        let x = out.push(p);
        assert(x.drop_last() =~= out);
        lemma_plus_minus(y.last(), before.current());
        assert(head.push(y.last()) =~= y);
    } else {
        assert(d.encrypted(Seq::<Trit>::empty()).1 =~= y);
    }
}

/// The duplex sponge over the permutation `F`.
#[derive(Debug)]
pub struct Spongos<F: PRP> {
    state: Vec<Trit>,
    pos: usize,
    prp: PhantomData<F>,
}

impl<F: PRP> View for Spongos<F> {
    type V = Duplex<F>;

    closed spec fn view(&self) -> Duplex<F> {
        Duplex { state: self.state@, pos: self.pos as int, prp: PhantomData }
    }
}

impl<F: PRP> Clone for Spongos<F> {
    /// A second sponge in the same state.
    fn clone(&self) -> (s: Self)
        ensures
            s@ == self@,
    {
        let state = self.state.clone();
        assert(state@ =~= self.state@);
        Spongos { state, pos: self.pos, prp: PhantomData }
    }
}

impl<F: PRP> Spongos<F> {
    /// The state has its full width and the cursor lies inside the rate.
    pub open spec fn wf(&self) -> bool {
        self@.wf()
    }

    /// A sponge with zero state and the cursor at the start.
    pub fn init() -> (s: Spongos<F>)
        ensures
            s.wf(),
            s@ == Duplex::<F>::fresh(),
    {
        let mut state: Vec<Trit> = Vec::with_capacity(WIDTH);
        let mut i: usize = 0;
        while i < WIDTH
            invariant
                i <= WIDTH,
                state@.len() == i,
                forall|j: int| 0 <= j < i ==> state@[j] == Trit::Zero,
            decreases WIDTH - i,
        {
            state.push(Trit::Zero);
            i += 1;
        }
        assert(state@ =~= zeros(WIDTH as nat));
        Spongos { state, pos: 0, prp: PhantomData }
    }

    /// Writes `t` under the cursor and moves on.
    fn put(&mut self, t: Trit)
        requires
            old(self).wf(),
        ensures
            final(self).wf(),
            final(self)@ == old(self)@.with(t).moved(),
    {
        self.state[self.pos] = t;
        if self.pos + 1 == RATE {
            proof {
                F::lemma_bijective(self.state@);
            }
            F::transform(self.state.as_mut_slice());
            self.pos = 0;
        } else {
            self.pos = self.pos + 1;
        }
    }

    /// The trit under the cursor.
    fn peek(&self) -> (t: Trit)
        requires
            self.wf(),
        ensures
            t == self@.current(),
    {
        self.state[self.pos]
    }

    /// Permutes the state and returns the cursor to the start of the block.
    pub fn commit(&mut self)
        requires
            old(self).wf(),
        ensures
            final(self).wf(),
            final(self)@ == old(self)@.committed(),
    {
        proof {
            F::lemma_bijective(self.state@);
        }
        F::transform(self.state.as_mut_slice());
        self.pos = 0;
    }

    /// Absorbs the trits of `x`.
    pub fn absorb(&mut self, x: &[Trit])
        requires
            old(self).wf(),
        ensures
            final(self).wf(),
            final(self)@ == old(self)@.absorbed(x@),
    {
        let n: usize = x.len();
        let mut i: usize = 0;
        assert(x@.take(0) =~= Seq::<Trit>::empty());
        while i < n
            invariant
                i <= n,
                n == x@.len(),
                self.wf(),
                self@ == old(self)@.absorbed(x@.take(i as int)),
            decreases n - i,
        {
            let t = self.peek().plus(x[i]);
            self.put(t);
            proof {
                assert(x@.take(i as int + 1).drop_last() =~= x@.take(i as int));
            }
            i += 1;
        }
        assert(x@.take(n as int) =~= x@);
    }

    /// Fills `y` with trits squeezed out of the sponge.
    pub fn squeeze(&mut self, y: &mut [Trit])
        requires
            old(self).wf(),
        ensures
            final(self).wf(),
            (final(self)@, final(y)@) == old(self)@.squeezed(old(y)@.len()),
            final(y)@.len() == old(y)@.len(),
    {
        let n: usize = y.len();
        let mut i: usize = 0;
        assert(y@.take(0) =~= Seq::<Trit>::empty());
        while i < n
            invariant
                i <= n,
                n == y@.len(),
                n == old(y)@.len(),
                self.wf(),
                (self@, y@.take(i as int)) == old(self)@.squeezed(i as nat),
            decreases n - i,
        {
            let ghost before = y@;
            let ghost d = self@;
            let t = self.peek();
            y[i] = t;
            self.put(t);
            proof {
                assert(y@.take(i as int + 1) =~= before.take(i as int).push(t));
                assert(d.with(t).state =~= d.state);
            }
            i += 1;
        }
        assert(y@.take(n as int) =~= y@);
    }

    /// Encrypts `y` in place.
    pub fn encr_mut(&mut self, y: &mut [Trit])
        requires
            old(self).wf(),
        ensures
            final(self).wf(),
            (final(self)@, final(y)@) == old(self)@.encrypted(old(y)@),
            final(y)@.len() == old(y)@.len(),
    {
        let n: usize = y.len();
        let mut i: usize = 0;
        assert(y@.take(0) =~= Seq::<Trit>::empty());
        while i < n
            invariant
                i <= n,
                n == y@.len(),
                n == old(y)@.len(),
                self.wf(),
                (self@, y@.take(i as int)) == old(self)@.encrypted(old(y)@.take(i as int)),
                forall|k: int| i <= k < n ==> y@[k] == old(y)@[k],
            decreases n - i,
        {
            let ghost before = y@;
            let c = y[i].plus(self.peek());
            y[i] = c;
            self.put(c);
            proof {
                assert(y@.take(i as int + 1) =~= before.take(i as int).push(c));
                assert(old(y)@.take(i as int + 1).drop_last() =~= old(y)@.take(i as int));
            }
            i += 1;
        }
        assert(y@.take(n as int) =~= y@);
        assert(old(y)@.take(n as int) =~= old(y)@);
    }

    /// Encrypts the plaintext `x` into `y`, which has the same length.
    pub fn encr(&mut self, x: &[Trit], y: &mut [Trit])
        requires
            old(self).wf(),
            x@.len() == old(y)@.len(),
        ensures
            final(self).wf(),
            (final(self)@, final(y)@) == old(self)@.encrypted(x@),
            final(y)@.len() == old(y)@.len(),
    {
        copy(x, y);
        self.encr_mut(y);
    }

    /// Decrypts `x` in place.
    pub fn decr_mut(&mut self, x: &mut [Trit])
        requires
            old(self).wf(),
        ensures
            final(self).wf(),
            (final(self)@, final(x)@) == old(self)@.decrypted(old(x)@),
            final(x)@.len() == old(x)@.len(),
    {
        let n: usize = x.len();
        let mut i: usize = 0;
        assert(x@.take(0) =~= Seq::<Trit>::empty());
        while i < n
            invariant
                i <= n,
                n == x@.len(),
                n == old(x)@.len(),
                self.wf(),
                (self@, x@.take(i as int)) == old(self)@.decrypted(old(x)@.take(i as int)),
                forall|k: int| i <= k < n ==> x@[k] == old(x)@[k],
            decreases n - i,
        {
            let ghost before = x@;
            let c = x[i];
            let p = c.minus(self.peek());
            x[i] = p;
            self.put(c);
            proof {
                assert(x@.take(i as int + 1) =~= before.take(i as int).push(p));
                assert(old(x)@.take(i as int + 1).drop_last() =~= old(x)@.take(i as int));
            }
            i += 1;
        }
        assert(x@.take(n as int) =~= x@);
        assert(old(x)@.take(n as int) =~= old(x)@);
    }

    /// Decrypts the ciphertext `y` into `x`, which has the same length.
    pub fn decr(&mut self, y: &[Trit], x: &mut [Trit])
        requires
            old(self).wf(),
            y@.len() == old(x)@.len(),
        ensures
            final(self).wf(),
            (final(self)@, final(x)@) == old(self)@.decrypted(y@),
            final(x)@.len() == old(x)@.len(),
    {
        copy(y, x);
        self.decr_mut(x);
    }
}

} // verus!
