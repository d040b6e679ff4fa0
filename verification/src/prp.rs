//! The permutation under the sponge: what the sponge asks of it, and the
//! permutation that the library brings along.
//!
//! The sponge works over any permutation of the states of 729 trits that
//! implements [`PRP`]. The one here, [`Spn`], is a substitution-permutation
//! network: each round substitutes every tryte through a quadratic box,
//! adds the trits up along the state (forwards in even rounds, backwards in
//! odd ones) and adds a round constant to every trit. Every step can be
//! undone, so the whole is a bijection of the state space. It has the shape
//! of a ternary permutation and has not been cryptanalysed.
use vstd::prelude::*;
use crate::trits::{lemma_plus_minus, Trit};

verus! {

/// Trits of state that input and output pass through.
pub const RATE: usize = 486;

/// Trits of state that are never shown.
pub const CAPACITY: usize = 243;

/// Trits of state in all.
pub const WIDTH: usize = 729;

/// A permutation of the states of 729 trits.
pub trait PRP: Sized {
    /// The state that the permutation makes of `s`.
    spec fn permuted(s: Seq<Trit>) -> Seq<Trit>;

    /// The state of which the permutation makes `s`.
    spec fn unpermuted(s: Seq<Trit>) -> Seq<Trit>;

    /// The permutation is a bijection of the states: it can be undone, and
    /// everything undone can be done again.
    proof fn lemma_bijective(s: Seq<Trit>)
        requires
            s.len() == WIDTH,
        ensures
            Self::permuted(s).len() == WIDTH,
            Self::unpermuted(s).len() == WIDTH,
            Self::unpermuted(Self::permuted(s)) == s,
            Self::permuted(Self::unpermuted(s)) == s,
    ;

    /// Applies the permutation to a state.
    fn transform(s: &mut [Trit])
        requires
            old(s)@.len() == WIDTH,
        ensures
            final(s)@ == Self::permuted(old(s)@),
    ;
}

/// The substitution-permutation network of 24 rounds.
#[derive(Clone, Copy, Debug, PartialEq, Eq, Hash)]
pub struct Spn;

impl PRP for Spn {
    open spec fn permuted(s: Seq<Trit>) -> Seq<Trit> {
        self::permuted(s)
    }

    open spec fn unpermuted(s: Seq<Trit>) -> Seq<Trit> {
        self::unpermuted(s)
    }

    proof fn lemma_bijective(s: Seq<Trit>) {
        lemma_permuted_len(s);
        lemma_unrounds_len(s, ROUNDS as nat);
        lemma_permuted_bijective(s);
    }

    fn transform(s: &mut [Trit]) {
        self::transform(s);
    }
}

/// Rounds of the network.
pub const ROUNDS: usize = 24;

/// The substitution box: three trits to three trits.
pub open spec fn sbox(a: Trit, b: Trit, c: Trit) -> (Trit, Trit, Trit) {
    let a1 = a.spec_plus(b.spec_times(c));
    let b1 = b.spec_plus(a1.spec_times(c));
    let c1 = c.spec_plus(a1.spec_times(b1));
    (a1, b1, c1)
}

/// The trit at index `i` once the tryte around it has been through the box.
#[verifier::opaque]
pub open spec fn substituted_at(s: Seq<Trit>, i: int) -> Trit {
    let j = i - i % 3;
    let out = sbox(s[j], s[j + 1], s[j + 2]);
    if i % 3 == 0 {
        out.0
    } else if i % 3 == 1 {
        out.1
    } else {
        out.2
    }
}

/// The state with every tryte put through the box.
pub open spec fn substituted(s: Seq<Trit>) -> Seq<Trit> {
    Seq::new(s.len(), |i: int| substituted_at(s, i))
}

/// The sum of the trits of `s` up to and including index `i`.
pub open spec fn sum_up_to(s: Seq<Trit>, i: int) -> Trit
    decreases i,
{
    if i <= 0 {
        s[0]
    } else {
        sum_up_to(s, i - 1).spec_plus(s[i])
    }
}

/// The sum of the trits of `s` from index `i` to the end.
pub open spec fn sum_from(s: Seq<Trit>, i: int) -> Trit
    decreases s.len() - i,
{
    if i >= s.len() - 1 {
        s[i]
    } else {
        sum_from(s, i + 1).spec_plus(s[i])
    }
}

/// The state with each trit replaced by a running sum: from the front
/// when `forwards`, from the back otherwise.
pub open spec fn summed(s: Seq<Trit>, forwards: bool) -> Seq<Trit> {
    Seq::new(
        s.len(),
        |i: int|
            if forwards {
                sum_up_to(s, i)
            } else {
                sum_from(s, i)
            },
    )
}

/// The constant that round `r` adds at index `i`.
pub open spec fn round_trit(r: int, i: int) -> Trit {
    Trit::of((((729 * r + i + 1) * 2654435761) % 0x1_0000_0000) / 0x1_0000)
}

/// The state with the constants of round `r` added.
pub open spec fn keyed(s: Seq<Trit>, r: int) -> Seq<Trit> {
    Seq::new(s.len(), |i: int| s[i].spec_plus(round_trit(r, i)))
}

/// One round.
pub open spec fn round(s: Seq<Trit>, r: int) -> Seq<Trit> {
    keyed(summed(substituted(s), r % 2 == 0), r)
}

/// The first `k` rounds.
pub open spec fn rounds(s: Seq<Trit>, k: nat) -> Seq<Trit>
    decreases k,
{
    if k == 0 {
        s
    } else {
        round(rounds(s, (k - 1) as nat), k - 1)
    }
}

/// The network: all the rounds, on a state of 729 trits.
#[verifier::opaque]
pub open spec fn permuted(s: Seq<Trit>) -> Seq<Trit> {
    rounds(s, ROUNDS as nat)
}

/// The network keeps the length of the state.
pub proof fn lemma_permuted_len(s: Seq<Trit>)
    ensures
        permuted(s).len() == s.len(),
{
    reveal(permuted);
    lemma_rounds_len(s, ROUNDS as nat);
}

/// Rounds keep the length of the state.
pub proof fn lemma_rounds_len(s: Seq<Trit>, k: nat)
    ensures
        rounds(s, k).len() == s.len(),
    decreases k,
{
    if k > 0 {
        lemma_rounds_len(s, (k - 1) as nat);
    }
}

/// The substitution box undone.
pub open spec fn unbox(a: Trit, b: Trit, c: Trit) -> (Trit, Trit, Trit) {
    let c0 = c.spec_minus(a.spec_times(b));
    let b0 = b.spec_minus(a.spec_times(c0));
    let a0 = a.spec_minus(b0.spec_times(c0));
    (a0, b0, c0)
}

/// The trit at index `i` once the tryte around it has been through the box
/// backwards.
#[verifier::opaque]
pub open spec fn unsubstituted_at(s: Seq<Trit>, i: int) -> Trit {
    let j = i - i % 3;
    let out = unbox(s[j], s[j + 1], s[j + 2]);
    if i % 3 == 0 {
        out.0
    } else if i % 3 == 1 {
        out.1
    } else {
        out.2
    }
}

/// The state with every tryte put through the box backwards.
pub open spec fn unsubstituted(s: Seq<Trit>) -> Seq<Trit> {
    Seq::new(s.len(), |i: int| unsubstituted_at(s, i))
}

/// The state with each running sum replaced by the trit that was added
/// last.
pub open spec fn differenced(s: Seq<Trit>, forwards: bool) -> Seq<Trit> {
    Seq::new(
        s.len(),
        |i: int|
            if forwards {
                if i == 0 {
                    s[0]
                } else {
                    s[i].spec_minus(s[i - 1])
                }
            } else {
                if i == s.len() - 1 {
                    s[i]
                } else {
                    s[i].spec_minus(s[i + 1])
                }
            },
    )
}

/// The state with the constants of round `r` taken away.
pub open spec fn unkeyed(s: Seq<Trit>, r: int) -> Seq<Trit> {
    Seq::new(s.len(), |i: int| s[i].spec_minus(round_trit(r, i)))
}

/// One round undone.
pub open spec fn unround(s: Seq<Trit>, r: int) -> Seq<Trit> {
    unsubstituted(differenced(unkeyed(s, r), r % 2 == 0))
}

/// The first `k` rounds undone, the last of them first.
pub open spec fn unrounds(s: Seq<Trit>, k: nat) -> Seq<Trit>
    decreases k,
{
    if k == 0 {
        s
    } else {
        unrounds(unround(s, k - 1), (k - 1) as nat)
    }
}

/// The network undone.
pub open spec fn unpermuted(s: Seq<Trit>) -> Seq<Trit> {
    unrounds(s, ROUNDS as nat)
}

/// The box and the box undone cancel, in either order.
proof fn lemma_unbox(a: Trit, b: Trit, c: Trit)
    ensures
        unbox(sbox(a, b, c).0, sbox(a, b, c).1, sbox(a, b, c).2) == (a, b, c),
        sbox(unbox(a, b, c).0, unbox(a, b, c).1, unbox(a, b, c).2) == (a, b, c),
{
    let a1 = a.spec_plus(b.spec_times(c));
    let b1 = b.spec_plus(a1.spec_times(c));
    lemma_plus_minus(c, a1.spec_times(b1));
    lemma_plus_minus(b, a1.spec_times(c));
    lemma_plus_minus(a, b.spec_times(c));
    let c0 = c.spec_minus(a.spec_times(b));
    let b0 = b.spec_minus(a.spec_times(c0));
    lemma_plus_minus(a, b0.spec_times(c0));
    lemma_plus_minus(b, a.spec_times(c0));
    lemma_plus_minus(c, a.spec_times(b));
}

/// The trit that the box leaves at index `i`, from the tryte around it.
proof fn lemma_substituted_at(s: Seq<Trit>, i: int, a: Trit, b: Trit, c: Trit)
    requires
        0 <= i,
        s[i - i % 3] == a,
        s[i - i % 3 + 1] == b,
        s[i - i % 3 + 2] == c,
    ensures
        i % 3 == 0 ==> substituted_at(s, i) == sbox(a, b, c).0 && unsubstituted_at(s, i) == unbox(
            a,
            b,
            c,
        ).0,
        i % 3 == 1 ==> substituted_at(s, i) == sbox(a, b, c).1 && unsubstituted_at(s, i) == unbox(
            a,
            b,
            c,
        ).1,
        i % 3 == 2 ==> substituted_at(s, i) == sbox(a, b, c).2 && unsubstituted_at(s, i) == unbox(
            a,
            b,
            c,
        ).2,
{
    reveal(substituted_at);
    reveal(unsubstituted_at);
}

/// Putting the tryte around index `i` through the box and back, either way
/// round, leaves the trit at `i`.
proof fn lemma_unsubstituted_at(s: Seq<Trit>, i: int)
    requires
        s.len() % 3 == 0,
        0 <= i < s.len(),
    ensures
        unsubstituted_at(substituted(s), i) == s[i],
        substituted_at(unsubstituted(s), i) == s[i],
{
    let j = i - i % 3;
    let (a, b, c) = (s[j], s[j + 1], s[j + 2]);
    assert(j % 3 == 0 && (j + 1) % 3 == 1 && (j + 2) % 3 == 2);
    assert(j - j % 3 == j && (j + 1) - (j + 1) % 3 == j && (j + 2) - (j + 2) % 3 == j);
    lemma_substituted_at(s, j, a, b, c);
    lemma_substituted_at(s, j + 1, a, b, c);
    lemma_substituted_at(s, j + 2, a, b, c);
    lemma_unbox(a, b, c);
    let t = substituted(s);
    let u = unsubstituted(s);
    lemma_substituted_at(t, i, t[j], t[j + 1], t[j + 2]);
    lemma_substituted_at(u, i, u[j], u[j + 1], u[j + 2]);
}

/// Substituting and its undoing cancel, in either order.
proof fn lemma_unsubstituted(s: Seq<Trit>)
    requires
        s.len() % 3 == 0,
    ensures
        unsubstituted(substituted(s)) == s,
        substituted(unsubstituted(s)) == s,
{
    assert forall|i: int| 0 <= i < s.len() implies unsubstituted_at(substituted(s), i) == s[i]
        && substituted_at(unsubstituted(s), i) == s[i] by {
        lemma_unsubstituted_at(s, i);
    }
    assert(unsubstituted(substituted(s)) =~= s);
    assert(substituted(unsubstituted(s)) =~= s);
}

/// The running sum from the front of the differences is the state.
proof fn lemma_sum_of_differences_up(s: Seq<Trit>, i: int)
    requires
        0 <= i < s.len(),
    ensures
        sum_up_to(differenced(s, true), i) == s[i],
    decreases i,
{
    if i > 0 {
        lemma_sum_of_differences_up(s, i - 1);
        lemma_plus_minus(s[i], s[i - 1]);
    }
}

/// The running sum from the back of the differences is the state.
proof fn lemma_sum_of_differences_down(s: Seq<Trit>, i: int)
    requires
        0 <= i < s.len(),
    ensures
        sum_from(differenced(s, false), i) == s[i],
    decreases s.len() - i,
{
    if i < s.len() - 1 {
        lemma_sum_of_differences_down(s, i + 1);
        lemma_plus_minus(s[i], s[i + 1]);
    }
}

/// Summing and differencing cancel, in either order.
proof fn lemma_differenced(s: Seq<Trit>, forwards: bool)
    requires
        s.len() >= 1,
    ensures
        differenced(summed(s, forwards), forwards) == s,
        summed(differenced(s, forwards), forwards) == s,
{
    let t = summed(s, forwards);
    assert forall|i: int| 0 <= i < s.len() implies differenced(t, forwards)[i] == s[i] by {
        if forwards {
            if i > 0 {
                lemma_plus_minus(s[i], sum_up_to(s, i - 1));
            }
        } else {
            if i < s.len() - 1 {
                lemma_plus_minus(s[i], sum_from(s, i + 1));
            }
        }
    }
    assert(differenced(t, forwards) =~= s);
    assert forall|i: int| 0 <= i < s.len() implies summed(differenced(s, forwards), forwards)[i]
        == s[i] by {
        lemma_sum_of_differences_up(s, i);
        lemma_sum_of_differences_down(s, i);
    }
    assert(summed(differenced(s, forwards), forwards) =~= s);
}

/// Adding the constants and taking them away cancel, in either order.
proof fn lemma_unkeyed(s: Seq<Trit>, r: int)
    ensures
        unkeyed(keyed(s, r), r) == s,
        keyed(unkeyed(s, r), r) == s,
{
    assert forall|i: int| 0 <= i < s.len() implies unkeyed(keyed(s, r), r)[i] == s[i] && keyed(
        unkeyed(s, r),
        r,
    )[i] == s[i] by {
        lemma_plus_minus(s[i], round_trit(r, i));
    }
    assert(unkeyed(keyed(s, r), r) =~= s);
    assert(keyed(unkeyed(s, r), r) =~= s);
}

/// A round and its undoing cancel, in either order.
proof fn lemma_unround(s: Seq<Trit>, r: int)
    requires
        s.len() == WIDTH,
    ensures
        unround(round(s, r), r) == s,
        round(unround(s, r), r) == s,
        round(s, r).len() == WIDTH,
        unround(s, r).len() == WIDTH,
{
    let forwards = r % 2 == 0;
    lemma_unkeyed(summed(substituted(s), forwards), r);
    lemma_differenced(substituted(s), forwards);
    lemma_unsubstituted(s);
    lemma_unsubstituted(differenced(unkeyed(s, r), forwards));
    lemma_differenced(unkeyed(s, r), forwards);
    lemma_unkeyed(s, r);
}

/// Undoing rounds keeps the length of the state.
proof fn lemma_unrounds_len(s: Seq<Trit>, k: nat)
    ensures
        unrounds(s, k).len() == s.len(),
    decreases k,
{
    if k > 0 {
        lemma_unrounds_len(unround(s, k - 1), (k - 1) as nat);
    }
}

/// Rounds and their undoing cancel, in either order.
proof fn lemma_unrounds(s: Seq<Trit>, k: nat)
    requires
        s.len() == WIDTH,
    ensures
        unrounds(rounds(s, k), k) == s,
        rounds(unrounds(s, k), k) == s,
    decreases k,
{
    if k > 0 {
        let j = (k - 1) as nat;
        lemma_rounds_len(s, j);
        lemma_unround(rounds(s, j), j as int);
        lemma_unrounds(s, j);
        lemma_unround(s, j as int);
        lemma_unrounds(unround(s, j as int), j);
        lemma_unrounds_len(unround(s, j as int), j);
    }
}

/// The network is a bijection of the states of 729 trits: it can be
/// undone, and everything undone can be done again.
pub proof fn lemma_permuted_bijective(s: Seq<Trit>)
    requires
        s.len() == WIDTH,
    ensures
        unpermuted(permuted(s)) == s,
        permuted(unpermuted(s)) == s,
{
    reveal(permuted);
    lemma_unrounds(s, ROUNDS as nat);
}

/// Puts one tryte through the box.
fn substitute_tryte(a: Trit, b: Trit, c: Trit) -> (out: (Trit, Trit, Trit))
    ensures
        out == sbox(a, b, c),
{
    let a1 = a.plus(b.times(c));
    let b1 = b.plus(a1.times(c));
    let c1 = c.plus(a1.times(b1));
    (a1, b1, c1)
}

/// Puts every tryte of the state through the box.
fn substitute(s: &mut [Trit])
    requires
        old(s)@.len() == WIDTH,
    ensures
        final(s)@ == substituted(old(s)@),
{
    let mut j: usize = 0;
    while j < 243
        invariant
            j <= 243,
            s@.len() == WIDTH,
            old(s)@.len() == WIDTH,
            forall|i: int| 0 <= i < 3 * j ==> s@[i] == substituted(old(s)@)[i],
            forall|i: int| 3 * j <= i < WIDTH ==> s@[i] == old(s)@[i],
        decreases 243 - j,
    {
        let ghost before = s@;
        let base: usize = 3 * j;
        let a = s[base];
        let b = s[base + 1];
        let c = s[base + 2];
        let (a1, b1, c1) = substitute_tryte(a, b, c);
        s[base] = a1;
        s[base + 1] = b1;
        s[base + 2] = c1;
        proof {
            let want = substituted(old(s)@);
            assert(want[base as int] == a1 && want[base + 1] == b1 && want[base + 2] == c1) by {
                reveal(substituted_at);
            }
            assert forall|i: int| 0 <= i < 3 * (j + 1) implies s@[i] == want[i] by {
                if i < base {
                    assert(s@[i] == before[i]);
                }
            }
        }
        j += 1;
    }
    assert(s@ =~= substituted(old(s)@));
}

/// Replaces each trit by a running sum, from the front or from the back.
fn sum_along(s: &mut [Trit], forwards: bool)
    requires
        old(s)@.len() == WIDTH,
    ensures
        final(s)@ == summed(old(s)@, forwards),
{
    if forwards {
        let mut i: usize = 1;
        while i < WIDTH
            invariant
                1 <= i <= WIDTH,
                s@.len() == WIDTH,
                old(s)@.len() == WIDTH,
                forall|k: int| 0 <= k < i ==> s@[k] == sum_up_to(old(s)@, k),
                forall|k: int| i <= k < WIDTH ==> s@[k] == old(s)@[k],
            decreases WIDTH - i,
        {
            let t = s[i - 1].plus(s[i]);
            s[i] = t;
            i += 1;
        }
    } else {
        let mut i: usize = WIDTH - 1;
        while i > 0
            invariant
                i < WIDTH,
                s@.len() == WIDTH,
                old(s)@.len() == WIDTH,
                forall|k: int| i <= k < WIDTH ==> s@[k] == sum_from(old(s)@, k),
                forall|k: int| 0 <= k < i ==> s@[k] == old(s)@[k],
            decreases i,
        {
            i -= 1;
            let t = s[i + 1].plus(s[i]);
            s[i] = t;
        }
    }
    assert(s@ =~= summed(old(s)@, forwards));
}

/// The constant that round `r` adds at index `i`.
fn round_constant(r: usize, i: usize) -> (t: Trit)
    requires
        r < ROUNDS,
        i < WIDTH,
    ensures
        t == round_trit(r as int, i as int),
{
    let x: u64 = (729 * (r as u64) + (i as u64) + 1) * 2654435761;
    let y: u64 = (x % 0x1_0000_0000) / 0x1_0000;
    Trit::from_i32(y as i32)
}

/// Adds the constants of round `r`.
fn add_constants(s: &mut [Trit], r: usize)
    requires
        old(s)@.len() == WIDTH,
        r < ROUNDS,
    ensures
        final(s)@ == keyed(old(s)@, r as int),
{
    let mut i: usize = 0;
    while i < WIDTH
        invariant
            i <= WIDTH,
            r < ROUNDS,
            s@.len() == WIDTH,
            old(s)@.len() == WIDTH,
            forall|k: int| 0 <= k < i ==> s@[k] == keyed(old(s)@, r as int)[k],
            forall|k: int| i <= k < WIDTH ==> s@[k] == old(s)@[k],
        decreases WIDTH - i,
    {
        let t = s[i].plus(round_constant(r, i));
        s[i] = t;
        i += 1;
    }
    assert(s@ =~= keyed(old(s)@, r as int));
}

/// Applies the network to a state of 729 trits.
pub fn transform(s: &mut [Trit])
    requires
        old(s)@.len() == WIDTH,
    ensures
        final(s)@ == permuted(old(s)@),
{
    let mut r: usize = 0;
    while r < ROUNDS
        invariant
            r <= ROUNDS,
            s@.len() == WIDTH,
            s@ == rounds(old(s)@, r as nat),
        decreases ROUNDS - r,
    {
        substitute(s);
        sum_along(s, r % 2 == 0);
        add_constants(s, r);
        r += 1;
    }
    proof {
        reveal(permuted);
    }
}

} // verus!
