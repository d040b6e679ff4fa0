//! Balanced ternary digits, trit strings and the integers they encode.
use vstd::prelude::*;

verus! {

/// A balanced ternary digit: one of -1, 0, +1.
#[derive(Clone, Copy, Debug, PartialEq, Eq, Hash, Structural)]
pub enum Trit {
    Neg,
    Zero,
    Pos,
}

impl Trit {
    /// The integer a trit stands for.
    pub open spec fn value(self) -> int {
        match self {
            Trit::Neg => -1,
            Trit::Zero => 0,
            Trit::Pos => 1,
        }
    }

    /// The trit congruent to `v` modulo 3.
    pub open spec fn of(v: int) -> Trit {
        if v % 3 == 0 {
            Trit::Zero
        } else if v % 3 == 1 {
            Trit::Pos
        } else {
            Trit::Neg
        }
    }

    /// Sum modulo 3.
    pub open spec fn spec_plus(self, other: Trit) -> Trit {
        Trit::of(self.value() + other.value())
    }

    /// Difference modulo 3.
    pub open spec fn spec_minus(self, other: Trit) -> Trit {
        Trit::of(self.value() - other.value())
    }

    /// The trit with the opposite sign.
    pub open spec fn negated(self) -> Trit {
        match self {
            Trit::Neg => Trit::Pos,
            Trit::Zero => Trit::Zero,
            Trit::Pos => Trit::Neg,
        }
    }

    /// Product modulo 3.
    pub open spec fn spec_times(self, other: Trit) -> Trit {
        match self {
            Trit::Neg => other.negated(),
            Trit::Zero => Trit::Zero,
            Trit::Pos => other,
        }
    }

    /// The next trit in the cycle -1, 0, +1, -1.
    pub open spec fn spec_succ(self) -> Trit {
        Trit::of(self.value() + 1)
    }

    /// The integer of the trit.
    pub fn to_i8(self) -> (v: i8)
        ensures
            v == self.value(),
    {
        match self {
            Trit::Neg => -1,
            Trit::Zero => 0,
            Trit::Pos => 1,
        }
    }

    /// The trit congruent to `v` modulo 3.
    pub fn from_i32(v: i32) -> (t: Trit)
        ensures
            t == Trit::of(v as int),
    {
        // 3 * 2^30, so that the shifted value is never negative
        let shifted: i64 = v as i64 + 3221225472i64;
        let r: i64 = shifted % 3;
        if r == 0 {
            Trit::Zero
        } else if r == 1 {
            Trit::Pos
        } else {
            Trit::Neg
        }
    }

    /// Sum modulo 3.
    #[verifier::when_used_as_spec(spec_plus)]
    pub fn plus(self, other: Trit) -> (t: Trit)
        ensures
            t == self.spec_plus(other),
    {
        match (self, other) {
            (Trit::Zero, x) => x,
            (x, Trit::Zero) => x,
            (Trit::Pos, Trit::Pos) => Trit::Neg,
            (Trit::Neg, Trit::Neg) => Trit::Pos,
            _ => Trit::Zero,
        }
    }

    /// Difference modulo 3.
    #[verifier::when_used_as_spec(spec_minus)]
    pub fn minus(self, other: Trit) -> (t: Trit)
        ensures
            t == self.spec_minus(other),
    {
        match (self, other) {
            (x, Trit::Zero) => x,
            (Trit::Zero, Trit::Pos) => Trit::Neg,
            (Trit::Zero, Trit::Neg) => Trit::Pos,
            (Trit::Pos, Trit::Neg) => Trit::Neg,
            (Trit::Neg, Trit::Pos) => Trit::Pos,
            _ => Trit::Zero,
        }
    }

    /// Product modulo 3.
    #[verifier::when_used_as_spec(spec_times)]
    pub fn times(self, other: Trit) -> (t: Trit)
        ensures
            t == self.spec_times(other),
    {
        match (self, other) {
            (Trit::Zero, _) => Trit::Zero,
            (_, Trit::Zero) => Trit::Zero,
            (Trit::Pos, x) => x,
            (x, Trit::Pos) => x,
            _ => Trit::Pos,
        }
    }

    /// The next trit in the cycle -1, 0, +1, -1.
    #[verifier::when_used_as_spec(spec_succ)]
    pub fn succ(self) -> (t: Trit)
        ensures
            t == self.spec_succ(),
    {
        match self {
            Trit::Neg => Trit::Zero,
            Trit::Zero => Trit::Pos,
            Trit::Pos => Trit::Neg,
        }
    }
}

/// The integer that a trit string encodes, least significant trit first.
pub open spec fn trits_value(s: Seq<Trit>) -> int
    decreases s.len(),
{
    if s.len() == 0 {
        0
    } else {
        s[0].value() + 3 * trits_value(s.drop_first())
    }
}

/// The largest integer that `n` trits encode: (3^n - 1) / 2.
pub open spec fn max_value(n: nat) -> int
    decreases n,
{
    if n == 0 {
        0
    } else {
        3 * max_value((n - 1) as nat) + 1
    }
}

/// The `n` low trits of `v`, least significant first.
pub open spec fn trits_of(v: int, n: nat) -> Seq<Trit>
    decreases n,
{
    if n == 0 {
        Seq::empty()
    } else {
        seq![Trit::of(v)] + trits_of((v - Trit::of(v).value()) / 3, (n - 1) as nat)
    }
}

/// Whether every trit of `s` is +1.
pub open spec fn all_pos(s: Seq<Trit>) -> bool {
    forall|i: int| 0 <= i < s.len() ==> s[i] == Trit::Pos
}

/// The trit string that follows `s` when it is read as a counter; the
/// string of all +1 wraps round to all -1.
pub open spec fn incremented(s: Seq<Trit>) -> Seq<Trit>
    decreases s.len(),
{
    if s.len() == 0 {
        s
    } else if s[0] == Trit::Pos {
        seq![Trit::Neg] + incremented(s.drop_first())
    } else {
        s.update(0, s[0].spec_succ())
    }
}

/// A string of `n` zero trits.
pub open spec fn zeros(n: nat) -> Seq<Trit> {
    Seq::new(n, |i: int| Trit::Zero)
}

/// Adding a trit and taking it away again changes nothing, in either order.
pub proof fn lemma_plus_minus(a: Trit, b: Trit)
    ensures
        a.spec_plus(b).spec_minus(b) == a,
        a.spec_minus(b).spec_plus(b) == a,
{
}

/// The low `n` trits of an integer are `n` trits.
pub proof fn lemma_trits_of_len(v: int, n: nat)
    ensures
        trits_of(v, n).len() == n,
    decreases n,
{
    if n > 0 {
        lemma_trits_of_len((v - Trit::of(v).value()) / 3, (n - 1) as nat);
    }
}

/// The largest integers of a tryte, of nine trits and of eighteen.
pub proof fn lemma_max_values()
    ensures
        max_value(3) == 13,
        max_value(9) == 9841,
        max_value(18) == 193710244,
{
    assert(max_value(3) == 13) by {
        reveal_with_fuel(max_value, 4);
    }
    assert(max_value(9) == 9841) by {
        reveal_with_fuel(max_value, 7);
    }
    assert(max_value(15) == 7174453) by {
        reveal_with_fuel(max_value, 7);
    }
    assert(max_value(18) == 193710244) by {
        reveal_with_fuel(max_value, 4);
    }
}

/// More trits encode larger integers.
pub proof fn lemma_max_value_monotonic(a: nat, b: nat)
    requires
        a <= b,
    ensures
        0 <= max_value(a) <= max_value(b),
    decreases b,
{
    if b > 0 {
        if a < b {
            lemma_max_value_monotonic(a, (b - 1) as nat);
        } else {
            lemma_max_value_monotonic((a - 1) as nat, (b - 1) as nat);
        }
    }
}

/// A trit string of length n encodes an integer of magnitude at most
/// (3^n - 1) / 2.
pub proof fn lemma_value_bound(s: Seq<Trit>)
    ensures
        -max_value(s.len()) <= trits_value(s) <= max_value(s.len()),
    decreases s.len(),
{
    if s.len() > 0 {
        lemma_value_bound(s.drop_first());
    }
}

/// Encoding then decoding returns the integer, when it fits.
pub proof fn lemma_value_of_trits(v: int, n: nat)
    requires
        -max_value(n) <= v <= max_value(n),
    ensures
        trits_value(trits_of(v, n)) == v,
    decreases n,
{
    if n > 0 {
        let t = Trit::of(v);
        let rest = (v - t.value()) / 3;
        // v - t is a multiple of three, so nothing is lost in dividing
        assert(v == 3 * rest + t.value());
        assert(-max_value((n - 1) as nat) <= rest <= max_value((n - 1) as nat));
        lemma_value_of_trits(rest, (n - 1) as nat);
        let s = trits_of(v, n);
        assert(s[0] == t);
        assert(s.drop_first() =~= trits_of(rest, (n - 1) as nat));
    }
}

/// Decoding then encoding returns the trit string.
pub proof fn lemma_trits_of_value(s: Seq<Trit>)
    ensures
        trits_of(trits_value(s), s.len()) == s,
    decreases s.len(),
{
    if s.len() > 0 {
        let v = trits_value(s);
        lemma_trits_of_value(s.drop_first());
        assert(Trit::of(v) == s[0]);
        assert((v - s[0].value()) / 3 == trits_value(s.drop_first()));
        assert(trits_of(v, s.len()) =~= s);
    } else {
        assert(trits_of(0, 0) =~= s);
    }
}

/// Incrementing a counter that is not at its top adds one to its value.
pub proof fn lemma_incremented_value(s: Seq<Trit>)
    ensures
        incremented(s).len() == s.len(),
        !all_pos(s) ==> trits_value(incremented(s)) == trits_value(s) + 1,
        all_pos(s) ==> forall|i: int| 0 <= i < s.len() ==> incremented(s)[i] == Trit::Neg,
    decreases s.len(),
{
    if s.len() > 0 {
        let rest = s.drop_first();
        lemma_incremented_value(rest);
        if s[0] == Trit::Pos {
            let r = incremented(s);
            assert(r.drop_first() =~= incremented(rest));
            if !all_pos(s) {
                let i = choose|i: int| 0 <= i < s.len() && s[i] != Trit::Pos;
                assert(rest[i - 1] != Trit::Pos);
            } else {
                assert forall|i: int| 0 <= i < rest.len() implies rest[i] == Trit::Pos by {
                    assert(s[i + 1] == Trit::Pos);
                }
            }
        } else {
            let r = incremented(s);
            assert(r.drop_first() =~= rest);
        }
    }
}

/// Reads a trit string of at most 19 trits as an integer.
pub fn decode(b: &[Trit]) -> (v: i32)
    requires
        b@.len() <= 19,
    ensures
        v == trits_value(b@),
{
    let n: usize = b.len();
    let mut acc: i32 = 0;
    let mut i: usize = n;
    while i > 0
        invariant
            i <= n,
            n == b@.len(),
            n <= 19,
            acc == trits_value(b@.subrange(i as int, n as int)),
        decreases i,
    {
        proof {
            let tail = b@.subrange(i as int, n as int);
            let longer = b@.subrange(i as int - 1, n as int);
            assert(longer.drop_first() =~= tail);
            lemma_value_bound(tail);
            lemma_max_value_monotonic(tail.len(), 18);
            lemma_max_values();
        }
        i -= 1;
        acc = acc * 3 + b[i].to_i8() as i32;
    }
    assert(b@.subrange(0, n as int) =~= b@);
    acc
}

/// Writes the integer `v` over the whole of `b`, which must be long enough
/// to hold it and no longer than 19 trits.
pub fn encode(b: &mut [Trit], v: i32)
    requires
        old(b)@.len() <= 19,
        -max_value(old(b)@.len()) <= v <= max_value(old(b)@.len()),
    ensures
        final(b)@ == trits_of(v as int, old(b)@.len()),
        final(b)@.len() == old(b)@.len(),
{
    let n: usize = b.len();
    let mut rest: i32 = v;
    let mut i: usize = 0;
    while i < n
        invariant
            i <= n,
            n == b@.len(),
            trits_of(v as int, n as nat) == b@.take(i as int) + trits_of(
                rest as int,
                (n - i) as nat,
            ),
        decreases n - i,
    {
        let t = Trit::from_i32(rest);
        let ghost before = b@;
        b[i] = t;
        proof {
            lemma_trits_of_len(((rest - t.value()) / 3) as int, (n - i - 1) as nat);
            assert(b@.take(i as int + 1) =~= before.take(i as int) + seq![t]);
            assert(b@.take(i as int + 1) + trits_of((rest - t.value()) / 3, (n - i - 1) as nat)
                =~= before.take(i as int) + trits_of(rest as int, (n - i) as nat));
        }
        // rest - t is a multiple of 3: shift it above zero before dividing
        let shifted: i64 = rest as i64 - t.to_i8() as i64 + 3221225472i64;
        rest = (shifted / 3 - 1073741824i64) as i32;
        i += 1;
    }
    assert(b@.take(n as int) =~= b@);
    assert(trits_of(rest as int, 0) =~= Seq::<Trit>::empty());
}

/// Reads a tryte: three trits as an integer between -13 and 13.
pub fn get3(b: &[Trit]) -> (d: i8)
    requires
        b@.len() == 3,
    ensures
        d == trits_value(b@),
        -13 <= d <= 13,
{
    proof {
        lemma_value_bound(b@);
        lemma_max_values();
    }
    decode(b) as i8
}

/// Writes a tryte over a window of three trits.
pub fn put3(b: &mut [Trit], d: i8)
    requires
        old(b)@.len() == 3,
        -13 <= d <= 13,
    ensures
        final(b)@ == trits_of(d as int, 3),
        final(b)@.len() == 3,
{
    proof {
        lemma_max_values();
    }
    encode(b, d as i32);
}

/// Steps a counter of trits, least significant first, to its next value.
/// Returns false exactly when every trit was +1; the counter then wraps
/// round to all -1.
pub fn inc(b: &mut [Trit]) -> (ok: bool)
    ensures
        final(b)@ == incremented(old(b)@),
        final(b)@.len() == old(b)@.len(),
        ok == !all_pos(old(b)@),
{
    let n: usize = b.len();
    let mut i: usize = 0;
    proof {
        assert(old(b)@.subrange(0, n as int) =~= old(b)@);
        assert(b@.take(0) + incremented(old(b)@) =~= incremented(old(b)@));
    }
    while i < n
        invariant
            i <= n,
            n == b@.len(),
            n == old(b)@.len(),
            forall|j: int| 0 <= j < i ==> old(b)@[j] == Trit::Pos,
            b@.subrange(i as int, n as int) == old(b)@.subrange(i as int, n as int),
            incremented(old(b)@) == b@.take(i as int) + incremented(
                old(b)@.subrange(i as int, n as int),
            ),
        decreases n - i,
    {
        let ghost tail = old(b)@.subrange(i as int, n as int);
        let ghost before = b@;
        assert(tail[0] == old(b)@[i as int]);
        assert(before[i as int] == before.subrange(i as int, n as int)[0]);
        if b[i] == Trit::Pos {
            b[i] = Trit::Neg;
            proof {
                assert(tail.drop_first() =~= old(b)@.subrange(i as int + 1, n as int));
                assert(b@.take(i as int + 1) =~= before.take(i as int) + seq![Trit::Neg]);
                assert(b@.take(i as int + 1) + incremented(tail.drop_first()) =~= before.take(
                    i as int,
                ) + incremented(tail));
                assert(b@.subrange(i as int + 1, n as int) =~= before.subrange(
                    i as int,
                    n as int,
                ).drop_first());
            }
            i += 1;
        } else {
            let t = b[i].succ();
            b[i] = t;
            proof {
                assert(b@ =~= before.take(i as int) + tail.update(0, tail[0].spec_succ()));
            }
            return true;
        }
    }
    proof {
        assert(b@.take(n as int) =~= b@);
        assert(incremented(old(b)@.subrange(n as int, n as int)) =~= Seq::<Trit>::empty());
    }
    false
}

/// The first `n` trits of `s`.
pub fn take<'a>(s: &'a [Trit], n: usize) -> (head: &'a [Trit])
    requires
        n <= s@.len(),
    ensures
        head@ == s@.take(n as int),
{
    let head = vstd::slice::slice_subrange(s, 0, n);
    assert(s@.subrange(0, n as int) =~= s@.take(n as int));
    head
}

/// What is left of `s` without its first `n` trits.
pub fn drop<'a>(s: &'a [Trit], n: usize) -> (tail: &'a [Trit])
    requires
        n <= s@.len(),
    ensures
        tail@ == s@.skip(n as int),
{
    let tail = vstd::slice::slice_subrange(s, n, s.len());
    assert(s@.subrange(n as int, s@.len() as int) =~= s@.skip(n as int));
    tail
}

/// Takes the first `n` trits off `b`: they are returned, and `b` is left
/// with the rest.
pub fn advance<'a>(b: &mut &'a [Trit], n: usize) -> (head: &'a [Trit])
    requires
        n <= old(b)@.len(),
    ensures
        head@ == old(b)@.take(n as int),
        final(b)@ == old(b)@.skip(n as int),
{
    let whole: &'a [Trit] = *b;
    let head = take(whole, n);
    *b = self::drop(whole, n);
    head
}

/// Copies `src` over `dst`, which has the same length.
pub fn copy(src: &[Trit], dst: &mut [Trit])
    requires
        src@.len() == old(dst)@.len(),
    ensures
        final(dst)@ == src@,
{
    let n: usize = src.len();
    let mut i: usize = 0;
    while i < n
        invariant
            i <= n,
            n == src@.len(),
            n == dst@.len(),
            forall|j: int| 0 <= j < i ==> dst@[j] == src@[j],
        decreases n - i,
    {
        dst[i] = src[i];
        i += 1;
    }
    assert(dst@ =~= src@);
}

/// Sets every trit of `b` to zero.
pub fn set_zero(b: &mut [Trit])
    ensures
        final(b)@ == zeros(old(b)@.len()),
        final(b)@.len() == old(b)@.len(),
{
    let n: usize = b.len();
    let mut i: usize = 0;
    while i < n
        invariant
            i <= n,
            n == b@.len(),
            forall|j: int| 0 <= j < i ==> b@[j] == Trit::Zero,
        decreases n - i,
    {
        b[i] = Trit::Zero;
        i += 1;
    }
    assert(b@ =~= zeros(n as nat));
}

/// Whether two trit strings are the same. The whole of both strings is
/// read whatever they hold: the time taken depends on their lengths alone.
pub fn equals(a: &[Trit], b: &[Trit]) -> (same: bool)
    ensures
        same == (a@ == b@),
{
    if a.len() != b.len() {
        return false;
    }
    let n: usize = a.len();
    let mut differing: usize = 0;
    let mut i: usize = 0;
    assert(a@.take(0) =~= b@.take(0));
    while i < n
        invariant
            i <= n,
            n == a@.len(),
            n == b@.len(),
            differing <= i,
            (differing == 0) == (a@.take(i as int) == b@.take(i as int)),
        decreases n - i,
    {
        let here: usize = if a[i] == b[i] { 0 } else { 1 };
        proof {
            let a0 = a@.take(i as int);
            let b0 = b@.take(i as int);
            let a1 = a@.take(i as int + 1);
            let b1 = b@.take(i as int + 1);
            assert(a1.take(i as int) =~= a0);
            assert(b1.take(i as int) =~= b0);
            assert(a1[i as int] == a@[i as int]);
            assert(b1[i as int] == b@[i as int]);
            if differing == 0 && here == 0 {
                assert(a1 =~= a0.push(a@[i as int]));
                assert(b1 =~= b0.push(b@[i as int]));
            }
        }
        differing = differing + here;
        i += 1;
    }
    assert(a@.take(n as int) =~= a@);
    assert(b@.take(n as int) =~= b@);
    differing == 0
}

/// An owning trit buffer of fixed length.
#[derive(Debug, Hash)]
pub struct Trits {
    buf: Vec<Trit>,
}

impl View for Trits {
    type V = Seq<Trit>;

    closed spec fn view(&self) -> Seq<Trit> {
        self.buf@
    }
}

impl PartialEq for Trits {
    /// Two buffers are the same when they hold the same trits.
    fn eq(&self, other: &Self) -> (same: bool) {
        equals(self.buf.as_slice(), other.buf.as_slice())
    }
}

impl Eq for Trits {

}

impl vstd::std_specs::cmp::PartialEqSpecImpl for Trits {
    open spec fn obeys_eq_spec() -> bool {
        true
    }

    open spec fn eq_spec(&self, other: &Self) -> bool {
        self@ == other@
    }
}

impl Clone for Trits {
    /// A second buffer with the same trits.
    fn clone(&self) -> (t: Self)
        ensures
            t@ == self@,
    {
        let buf = self.buf.clone();
        assert(buf@ =~= self.buf@);
        Trits { buf }
    }
}

impl Trits {
    /// A buffer of `n` zero trits.
    pub fn zero(n: usize) -> (t: Trits)
        ensures
            t@ == zeros(n as nat),
    {
        let mut buf: Vec<Trit> = Vec::with_capacity(n);
        let mut i: usize = 0;
        while i < n
            invariant
                i <= n,
                buf@.len() == i,
                forall|j: int| 0 <= j < i ==> buf@[j] == Trit::Zero,
            decreases n - i,
        {
            buf.push(Trit::Zero);
            i += 1;
        }
        assert(buf@ =~= zeros(n as nat));
        Trits { buf }
    }

    /// A buffer holding a copy of `s`.
    pub fn from_slice(s: &[Trit]) -> (t: Trits)
        ensures
            t@ == s@,
    {
        Trits { buf: vstd::slice::slice_to_vec(s) }
    }

    /// The number of trits held.
    pub fn size(&self) -> (n: usize)
        ensures
            n == self@.len(),
    {
        self.buf.len()
    }

    /// A read-only view of the whole buffer.
    pub fn slice(&self) -> (s: &[Trit])
        ensures
            s@ == self@,
    {
        self.buf.as_slice()
    }

    /// An exclusive view of the whole buffer.
    pub fn mut_slice(&mut self) -> (s: &mut [Trit])
        ensures
            s@ == old(self)@,
            final(self)@ == final(s)@,
    {
        self.buf.as_mut_slice()
    }
}

} // verus!
