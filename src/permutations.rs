use vstd::prelude::*;

use vstd::arithmetic::div_mod::{lemma_fundamental_div_mod_converse};
use vstd::arithmetic::power::pow;

verus! {

/// The number a digit sequence stands for in base `n`, digit 0 least significant.
pub open spec fn value(d: Seq<nat>, n: nat) -> nat
    decreases d.len(),
{
    if d.len() == 0 {
        0
    } else {
        d[0] + n * value(d.drop_first(), n)
    }
}

/// The `len` base-`n` digits of `k`, least significant first.
pub open spec fn digits(k: nat, n: nat, len: nat) -> Seq<nat>
    decreases len,
{
    if len == 0 {
        Seq::empty()
    } else {
        seq![k % n] + digits(k / n, n, (len - 1) as nat)
    }
}

/// Every digit of `d` is below `n`.
pub open spec fn valid_digits(d: Seq<nat>, n: nat) -> bool {
    forall|i: int| 0 <= i < d.len() ==> #[trigger] d[i] < n
}

/// The symbols of `alphabet` that the digits `d` select.
pub open spec fn spell(alphabet: Seq<u8>, d: Seq<nat>) -> Seq<u8> {
    Seq::new(d.len(), |i: int| alphabet[d[i] as int])
}

/// Number of tuples of length `len` over `alphabet`.
pub open spec fn total(alphabet: Seq<u8>, len: nat) -> nat {
    pow(alphabet.len() as int, len) as nat
}

/// The tuple emitted at position `k`: the symbols at the base-N digits of `k`.
pub open spec fn nth_tuple(alphabet: Seq<u8>, len: nat, k: nat) -> Seq<u8> {
    spell(alphabet, digits(k, alphabet.len(), len))
}

/// Whether `t` is a tuple of length `len` drawn from `alphabet`.
pub open spec fn in_product(alphabet: Seq<u8>, len: nat, t: Seq<u8>) -> bool {
    &&& t.len() == len
    &&& forall|i: int| 0 <= i < t.len() ==> alphabet.contains(#[trigger] t[i])
}

proof fn lemma_value_bound(d: Seq<nat>, n: nat)
    requires
        valid_digits(d, n),
    ensures
        value(d, n) < pow(n as int, d.len()),
    decreases d.len(),
{
    if d.len() > 0 {
        let t = d.drop_first();
        assert(valid_digits(t, n)) by {
            assert forall|i: int| 0 <= i < t.len() implies #[trigger] t[i] < n by {
                assert(t[i] == d[i + 1]);
            }
        }
        lemma_value_bound(t, n);
        assert(d[0] < n);
        let v = value(t, n);
        let p = pow(n as int, t.len());
        assert(pow(n as int, d.len()) == n * p) by {
            vstd::arithmetic::power::lemma_pow_adds(n as int, 1, t.len());
            vstd::arithmetic::power::lemma_pow1(n as int);
        }
        assert(d[0] + n * v < n * p) by (nonlinear_arith)
            requires
                d[0] < n,
                v < p,
                v >= 0,
        ;
    } else {
        vstd::arithmetic::power::lemma_pow0(n as int);
    }
}

proof fn lemma_digits_of_value(d: Seq<nat>, n: nat)
    requires
        n > 0,
        valid_digits(d, n),
    ensures
        digits(value(d, n), n, d.len()) == d,
    decreases d.len(),
{
    if d.len() > 0 {
        let t = d.drop_first();
        assert(valid_digits(t, n)) by {
            assert forall|i: int| 0 <= i < t.len() implies #[trigger] t[i] < n by {
                assert(t[i] == d[i + 1]);
            }
        }
        lemma_digits_of_value(t, n);
        let v = value(t, n);
        let k = value(d, n);
        assert(k == v * n + d[0]) by (nonlinear_arith)
            requires
                k == d[0] + n * v,
        ;
        lemma_fundamental_div_mod_converse(k as int, n as int, v as int, d[0] as int);
        assert(digits(k, n, d.len()) =~= d);
    }
}

proof fn lemma_value_of_digits(k: nat, n: nat, len: nat)
    requires
        n > 0,
        k < pow(n as int, len),
    ensures
        value(digits(k, n, len), n) == k,
        valid_digits(digits(k, n, len), n),
        digits(k, n, len).len() == len,
    decreases len,
{
    if len == 0 {
        assert(pow(n as int, 0) == 1) by {
            vstd::arithmetic::power::lemma_pow0(n as int);
        }
    } else {
        let q = k / n;
        let p = pow(n as int, (len - 1) as nat);
        assert(pow(n as int, len) == n * p) by {
            vstd::arithmetic::power::lemma_pow_adds(n as int, 1, (len - 1) as nat);
            vstd::arithmetic::power::lemma_pow1(n as int);
        }
        assert(q < p) by (nonlinear_arith)
            requires
                q == k / n,
                k < n * p,
                n > 0,
        ;
        lemma_value_of_digits(q, n, (len - 1) as nat);
        let d = digits(k, n, len);
        assert(d.drop_first() =~= digits(q, n, (len - 1) as nat));
        assert(k == (k % n) + n * q) by (nonlinear_arith)
            requires
                q == k / n,
                n > 0,
        ;
        assert(valid_digits(d, n)) by {
            assert forall|i: int| 0 <= i < d.len() implies #[trigger] d[i] < n by {
                if i > 0 {
                    assert(d[i] == d.drop_first()[i - 1]);
                }
            }
        }
    }
}

/// The odometer step at slot `i`: slots below `i` go back to zero and slot
/// `i` goes up by one.
pub open spec fn advance(d: Seq<nat>, i: int) -> Seq<nat> {
    Seq::new(
        d.len(),
        |k: int|
            if k < i {
                0
            } else if k == i {
                d[i] + 1
            } else {
                d[k]
            },
    )
}

proof fn lemma_advance(d: Seq<nat>, n: nat, i: int)
    requires
        valid_digits(d, n),
        0 <= i < d.len(),
        forall|k: int| 0 <= k < i ==> d[k] == n - 1,
        d[i] + 1 < n,
    ensures
        value(advance(d, i), n) == value(d, n) + 1,
        valid_digits(advance(d, i), n),
    decreases i,
{
    let e = advance(d, i);
    let t = d.drop_first();
    assert(valid_digits(t, n)) by {
        assert forall|k: int| 0 <= k < t.len() implies #[trigger] t[k] < n by {
            assert(t[k] == d[k + 1]);
        }
    }
    if i == 0 {
        assert(e.drop_first() =~= t);
    } else {
        assert(e.drop_first() =~= advance(t, i - 1));
        assert forall|k: int| 0 <= k < i - 1 implies t[k] == n - 1 by {
            assert(t[k] == d[k + 1]);
        }
        lemma_advance(t, n, i - 1);
        let v = value(t, n);
        assert(d[0] == n - 1);
        assert(0 + n * (v + 1) == (n - 1) + n * v + 1) by (nonlinear_arith)
            requires
                n >= 1,
        ;
    }
}

proof fn lemma_value_all_last(d: Seq<nat>, n: nat)
    requires
        n > 0,
        forall|k: int| 0 <= k < d.len() ==> d[k] == n - 1,
    ensures
        value(d, n) + 1 == pow(n as int, d.len()),
    decreases d.len(),
{
    if d.len() == 0 {
        vstd::arithmetic::power::lemma_pow0(n as int);
    } else {
        let t = d.drop_first();
        assert forall|k: int| 0 <= k < t.len() implies t[k] == n - 1 by {
            assert(t[k] == d[k + 1]);
        }
        lemma_value_all_last(t, n);
        reveal(pow);
        let v = value(t, n);
        assert((n - 1) + n * v + 1 == n * (v + 1)) by (nonlinear_arith)
            requires
                n >= 1,
        ;
    }
}

proof fn lemma_value_zeros(d: Seq<nat>, n: nat)
    requires
        forall|k: int| 0 <= k < d.len() ==> d[k] == 0,
    ensures
        value(d, n) == 0,
    decreases d.len(),
{
    if d.len() > 0 {
        let t = d.drop_first();
        assert forall|k: int| 0 <= k < t.len() implies t[k] == 0 by {
            assert(t[k] == d[k + 1]);
        }
        lemma_value_zeros(t, n);
        assert(n * value(t, n) == 0) by (nonlinear_arith)
            requires
                value(t, n) == 0,
        ;
    }
}

proof fn lemma_pow_zero_base(len: nat)
    requires
        len > 0,
    ensures
        pow(0, len) == 0,
{
    reveal(pow);
    assert(pow(0, len) == 0 * pow(0, (len - 1) as nat));
}

/// The tuple at any position below the total is a tuple of the product.
pub proof fn lemma_nth_tuple_in_product(alphabet: Seq<u8>, len: nat, k: nat)
    requires
        k < total(alphabet, len),
    ensures
        in_product(alphabet, len, nth_tuple(alphabet, len, k)),
{
    let n = alphabet.len();
    if n == 0 && len > 0 {
        lemma_pow_zero_base(len);
    } else if n == 0 {
        assert(digits(k, n, len) =~= Seq::<nat>::empty());
    } else {
        vstd::arithmetic::power::lemma_pow_positive(n as int, len);
        lemma_value_of_digits(k, n, len);
        let d = digits(k, n, len);
        let t = nth_tuple(alphabet, len, k);
        assert forall|i: int| 0 <= i < t.len() implies alphabet.contains(#[trigger] t[i]) by {
            assert(d[i] < n);
            assert(t[i] == alphabet[d[i] as int]);
        }
    }
}

/// Completeness of the enumeration: every tuple of `len` symbols drawn from
/// `alphabet` is the tuple emitted at some position below N^len.
pub proof fn lemma_enumeration_complete(alphabet: Seq<u8>, len: nat, t: Seq<u8>)
    requires
        in_product(alphabet, len, t),
    ensures
        exists|k: nat| k < total(alphabet, len) && #[trigger] nth_tuple(alphabet, len, k) == t,
{
    let n = alphabet.len();
    if len == 0 {
        vstd::arithmetic::power::lemma_pow0(n as int);
        assert(nth_tuple(alphabet, len, 0) =~= t);
    } else {
        assert(alphabet.contains(t[0]));
        let d = Seq::new(
            len,
            |i: int| (choose|j: int| 0 <= j < alphabet.len() && alphabet[j] == t[i]) as nat,
        );
        assert forall|i: int| 0 <= i < len implies #[trigger] d[i] < n && alphabet[d[i] as int]
            == t[i] by {
            assert(alphabet.contains(t[i]));
        }
        assert(valid_digits(d, n));
        let k = value(d, n);
        lemma_value_bound(d, n);
        lemma_digits_of_value(d, n);
        assert(nth_tuple(alphabet, len, k) =~= t);
    }
}

/// Distinctness of the enumeration: over an alphabet without repeated
/// symbols, different positions below N^len hold different tuples.
pub proof fn lemma_enumeration_distinct(alphabet: Seq<u8>, len: nat, k1: nat, k2: nat)
    requires
        alphabet.no_duplicates(),
        k1 < total(alphabet, len),
        k2 < total(alphabet, len),
        k1 != k2,
    ensures
        nth_tuple(alphabet, len, k1) != nth_tuple(alphabet, len, k2),
{
    let n = alphabet.len();
    if n == 0 {
        if len > 0 {
            lemma_pow_zero_base(len);
        } else {
            vstd::arithmetic::power::lemma_pow0(0);
        }
    } else {
        vstd::arithmetic::power::lemma_pow_positive(n as int, len);
        lemma_value_of_digits(k1, n, len);
        lemma_value_of_digits(k2, n, len);
        let d1 = digits(k1, n, len);
        let d2 = digits(k2, n, len);
        assert(d1 != d2);
        assert(exists|i: int| 0 <= i < len && d1[i] != d2[i]) by {
            if forall|i: int| 0 <= i < len ==> d1[i] == d2[i] {
                assert(d1 =~= d2);
            }
        }
        let i = choose|i: int| 0 <= i < len && d1[i] != d2[i];
        assert(d1[i] < n && d2[i] < n);
        assert(nth_tuple(alphabet, len, k1)[i] != nth_tuple(alphabet, len, k2)[i]);
    }
}

/// An empty alphabet yields no tuple of positive length.
pub proof fn lemma_empty_alphabet(len: nat)
    requires
        len >= 1,
    ensures
        total(Seq::<u8>::empty(), len) == 0,
{
    lemma_pow_zero_base(len);
}

/// Every tuple of a fixed length over an alphabet, one at a time, in
/// mixed-radix order with slot 0 as the fastest-changing digit.
pub struct Permutations {
    alphabet: Vec<u8>,
    length: usize,
    indices: Vec<usize>,
    started: bool,
    exhausted: bool,
    emitted: Ghost<nat>,
}

impl Permutations {
    /// The alphabet that tuples are drawn from.
    pub closed spec fn alphabet(&self) -> Seq<u8> {
        self.alphabet@
    }

    /// The length of each tuple.
    pub closed spec fn tuple_len(&self) -> nat {
        self.length as nat
    }

    /// How many tuples have been handed out so far.
    pub closed spec fn emitted(&self) -> nat {
        self.emitted@
    }

    /// The current position as digits.
    spec fn position(&self) -> Seq<nat> {
        self.indices@.map_values(|v: usize| v as nat)
    }

    /// The enumerator's internal invariant.
    pub closed spec fn wf(&self) -> bool {
        let n = self.alphabet@.len();
        &&& self.indices@.len() == self.length
        &&& self.emitted@ <= total(self.alphabet@, self.length as nat)
        &&& !self.started ==> {
            &&& self.emitted@ == 0
            &&& !self.exhausted
            &&& forall|k: int| 0 <= k < self.length ==> #[trigger] self.indices@[k] == 0
        }
        &&& self.started && !self.exhausted ==> {
            &&& self.emitted@ >= 1
            &&& valid_digits(self.position(), n)
            &&& value(self.position(), n) + 1 == self.emitted@
        }
        &&& self.exhausted ==> self.emitted@ == total(self.alphabet@, self.length as nat)
    }

    /// An enumerator of all tuples of `length` symbols of `alphabet`, before its first tuple.
    pub fn new(alphabet: Vec<u8>, length: usize) -> (r: Permutations)
        ensures
            r.wf(),
            r.alphabet() == alphabet@,
            r.tuple_len() == length,
            r.emitted() == 0,
    {
        let mut indices: Vec<usize> = Vec::new();
        for k in 0..length
            invariant
                indices@.len() == k,
                forall|t: int| 0 <= t < k ==> #[trigger] indices@[t] == 0,
        {
            indices.push(0);
        }
        Permutations { alphabet, length, indices, started: false, exhausted: false, emitted: Ghost(0) }
    }

    fn spell_position(&self) -> (r: Vec<u8>)
        requires
            self.indices@.len() == self.length,
            valid_digits(self.position(), self.alphabet@.len()),
        ensures
            r@ == spell(self.alphabet@, self.position()),
    {
        let mut r: Vec<u8> = Vec::new();
        for k in 0..self.length
            invariant
                self.indices@.len() == self.length,
                valid_digits(self.position(), self.alphabet@.len()),
                r@ =~= spell(self.alphabet@, self.position()).subrange(0, k as int),
        {
            assert(self.position()[k as int] < self.alphabet@.len());
            r.push(self.alphabet[self.indices[k]]);
        }
        r
    }

    /// The next tuple, or `None` once all of them have been handed out.
    pub fn next(&mut self) -> (r: Option<Vec<u8>>)
        requires
            old(self).wf(),
        ensures
            final(self).wf(),
            final(self).alphabet() == old(self).alphabet(),
            final(self).tuple_len() == old(self).tuple_len(),
            old(self).emitted() < total(old(self).alphabet(), old(self).tuple_len()) ==> {
                &&& final(self).emitted() == old(self).emitted() + 1
                &&& r matches Some(t) && t@ == nth_tuple(
                    old(self).alphabet(),
                    old(self).tuple_len(),
                    old(self).emitted(),
                )
            },
            old(self).emitted() >= total(old(self).alphabet(), old(self).tuple_len()) ==> {
                &&& final(self).emitted() == old(self).emitted()
                &&& r is None
            },
    {
        let ghost n = self.alphabet@.len();
        let ghost len = self.length as nat;
        if self.exhausted {
            return None;
        }
        if !self.started {
            self.started = true;
            if self.alphabet.len() == 0 && self.length > 0 {
                proof {
                    lemma_pow_zero_base(len);
                }
                self.exhausted = true;
                return None;
            }
            proof {
                lemma_value_zeros(self.position(), n);
                if n > 0 {
                    vstd::arithmetic::power::lemma_pow_positive(n as int, len);
                    lemma_digits_of_value(self.position(), n);
                } else {
                    vstd::arithmetic::power::lemma_pow0(0);
                    assert(self.position() =~= digits(0, n, len));
                }
            }
            self.emitted = Ghost(1);
            return Some(self.spell_position());
        }
        if self.alphabet.len() == 0 {
            proof {
                if len > 0 {
                    assert(self.position()[0] < n);
                }
                vstd::arithmetic::power::lemma_pow0(0);
            }
            self.exhausted = true;
            return None;
        }
        let last = self.alphabet.len() - 1;
        let mut i: usize = 0;
        while i < self.length && self.indices[i] == last
            invariant
                self.wf(),
                self.started && !self.exhausted,
                i <= self.length,
                last + 1 == n,
                forall|k: int| 0 <= k < i ==> self.position()[k] == n - 1,
            decreases self.length - i,
        {
            i = i + 1;
        }
        if i == self.length {
            proof {
                lemma_value_all_last(self.position(), n);
            }
            self.exhausted = true;
            return None;
        }
        let ghost before = self.position();
        let ghost pre = *self;
        let mut k: usize = 0;
        while k < i
            invariant
                k <= i < self.length,
                self.indices@.len() == self.length,
                before.len() == self.length,
                self.alphabet == pre.alphabet,
                self.length == pre.length,
                self.started == pre.started,
                self.exhausted == pre.exhausted,
                self.emitted == pre.emitted,
                forall|t: int| 0 <= t < k ==> self.indices@[t] == 0,
                forall|t: int| k <= t < self.length ==> self.indices@[t] == before[t],
            decreases i - k,
        {
            self.indices.set(k, 0);
            k = k + 1;
        }
        assert(before[i as int] < n && before[i as int] != last);
        let bumped = self.indices[i] + 1;
        self.indices.set(i, bumped);
        proof {
            lemma_advance(before, n, i as int);
            assert(self.position() =~= advance(before, i as int));
            lemma_value_bound(self.position(), n);
            lemma_digits_of_value(self.position(), n);
        }
        self.emitted = Ghost(self.emitted@ + 1);
        Some(self.spell_position())
    }
}

} // verus!
