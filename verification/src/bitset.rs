//! Fixed-size bit sets used as variable domains.

use vstd::prelude::*;
use vstd::set_lib::{lemma_int_range, lemma_len_subset, set_int_range};

verus! {

/// Whether bit `b` of `w` is set.
pub open spec fn bit(w: u64, b: u64) -> bool {
    (w >> b) & 1u64 == 1u64
}

proof fn lemma_bit_zero(j: u64)
    by (bit_vector)
    ensures
        !bit(0u64, j),
{
}

proof fn lemma_bit_set(w: u64, k: u64, j: u64)
    by (bit_vector)
    requires
        k < 64,
        j < 64,
    ensures
        bit(w | (1u64 << k), j) == (j == k || bit(w, j)),
{
}

proof fn lemma_bit_clear(w: u64, k: u64, j: u64)
    by (bit_vector)
    requires
        k < 64,
        j < 64,
    ensures
        bit(w & !(1u64 << k), j) == (j != k && bit(w, j)),
{
}

proof fn lemma_bit_test(w: u64, k: u64)
    by (bit_vector)
    requires
        k < 64,
    ensures
        ((w & (1u64 << k)) != 0u64) == bit(w, k),
{
}

proof fn lemma_bit_and(a: u64, b: u64, j: u64)
    by (bit_vector)
    requires
        j < 64,
    ensures
        bit(a & b, j) == (bit(a, j) && bit(b, j)),
{
}

proof fn lemma_bit_or(a: u64, b: u64, j: u64)
    by (bit_vector)
    requires
        j < 64,
    ensures
        bit(a | b, j) == (bit(a, j) || bit(b, j)),
{
}

proof fn lemma_bit_and_not(a: u64, b: u64, j: u64)
    by (bit_vector)
    requires
        j < 64,
    ensures
        bit(a & !b, j) == (bit(a, j) && !bit(b, j)),
{
}

proof fn lemma_bit_shift(w: u64, s: u64, j: u64)
    by (bit_vector)
    requires
        s < 64,
        j < 64,
    ensures
        j + s < 64 ==> bit(w >> s, j) == bit(w, (j + s) as u64),
        j + s >= 64 ==> !bit(w >> s, j),
{
}

/// A set of integers that all lie in `[0, n)` is finite and has at most `n` members.
pub proof fn lemma_bounded_set(s: Set<int>, n: int)
    requires
        0 <= n,
        forall|v: int| s.contains(v) ==> 0 <= v < n,
    ensures
        s.finite(),
        s.len() <= n,
{
    lemma_int_range(0, n);
    assert(s.subset_of(set_int_range(0, n)));
    lemma_len_subset(s, set_int_range(0, n));
}

/// A fixed-size bit set backed by `W` words of 64 bits; it holds values below `W * 64`.
#[derive(Clone, Copy, PartialEq, Eq)]
pub struct BitSet<const W: usize> {
    words: [u64; W],
}

impl<const W: usize> View for BitSet<W> {
    type V = Set<int>;

    open spec fn view(&self) -> Set<int> {
        Set::new(|v: int| self.has(v))
    }
}

impl<const W: usize> BitSet<W> {
    /// The number of words is small enough that every value of the set fits in a `usize`.
    #[verifier::type_invariant]
    pub open spec fn word_bound(self) -> bool {
        W <= usize::MAX / 64
    }

    /// Whether `v` lies in the range of values that a set of `W` words can hold.
    pub open spec fn in_range(v: int) -> bool {
        0 <= v < W * 64
    }

    /// Whether value `v` is a member.
    pub closed spec fn has(self, v: int) -> bool {
        &&& Self::in_range(v)
        &&& bit(self.words@[v / 64], (v % 64) as u64)
    }

    /// The members below `k`.
    spec fn below(self, k: int) -> Set<int> {
        Set::new(|v: int| self.has(v) && v < k)
    }

    /// Every member lies in range, so the set is finite and has at most `W * 64` members.
    pub proof fn lemma_finite(self)
        ensures
            self@.finite(),
            self@.len() <= W * 64,
            forall|v: int| #[trigger] self@.contains(v) ==> Self::in_range(v),
    {
        lemma_bounded_set(self@, W * 64);
    }

    proof fn lemma_below_step(self, k: int)
        requires
            0 <= k,
        ensures
            self.below(k).finite(),
            self.below(k + 1) == (if self.has(k) {
                self.below(k).insert(k)
            } else {
                self.below(k)
            }),
            !self.below(k).contains(k),
    {
        lemma_bounded_set(self.below(k), k);
        if self.has(k) {
            assert(self.below(k + 1) =~= self.below(k).insert(k));
        } else {
            assert(self.below(k + 1) =~= self.below(k));
        }
    }

    /// Whether `v` is a member, read from word `v / 64`.
    proof fn lemma_has_word(self, wi: int, b: u64)
        requires
            0 <= wi < W,
            b < 64,
        ensures
            self.has(wi * 64 + b) == bit(self.words@[wi], b),
    {
        let v = wi * 64 + b;
        assert(v / 64 == wi && v % 64 == b) by (nonlinear_arith)
            requires
                v == wi * 64 + b,
                0 <= wi,
                b < 64,
        ;
        assert(0 <= v < W * 64) by (nonlinear_arith)
            requires
                v == wi * 64 + b,
                0 <= wi < W,
                b < 64,
        ;
    }

    /// Splitting a value into its word index and bit index.
    proof fn lemma_split(v: int)
        requires
            Self::in_range(v),
        ensures
            0 <= v / 64 < W,
            0 <= v % 64 < 64,
            v == (v / 64) * 64 + v % 64,
    {
        assert(0 <= v / 64 < W) by (nonlinear_arith)
            requires
                0 <= v < W * 64,
        ;
    }

    /// Create an empty bitset.
    pub fn empty() -> (s: Self)
        requires
            W <= usize::MAX / 64,
        ensures
            s@ == Set::<int>::empty(),
    {
        let words: [u64; W] = vstd::array::array_fill_for_copy_types(0u64);
        let s = BitSet { words };
        proof {
            assert forall|v: int| !s.has(v) by {
                if Self::in_range(v) {
                    Self::lemma_split(v);
                    lemma_bit_zero((v % 64) as u64);
                }
            }
            assert(s@ =~= Set::<int>::empty());
        }
        s
    }

    /// The number of values a set of `W` words can hold.
    pub fn capacity() -> (n: usize)
        requires
            W <= usize::MAX / 64,
        ensures
            n == W * 64,
    {
        W * 64
    }

    /// Create a bitset holding every value below `n` that the set can hold.
    pub fn full(n: usize) -> (s: Self)
        requires
            W <= usize::MAX / 64,
        ensures
            s@ == Set::new(|v: int| 0 <= v < n && Self::in_range(v)),
    {
        let mut s = Self::empty();
        let mut i: usize = 0;
        while i < n && i / 64 < W
            invariant
                W <= usize::MAX / 64,
                i <= n,
                i <= W * 64,
                s@ == Set::new(|v: int| 0 <= v < i),
            decreases n - i,
        {
            s.insert(i);
            proof {
                assert(Self::in_range(i as int)) by (nonlinear_arith)
                    requires
                        i / 64 < W,
                ;
            }
            i = i + 1;
            assert(s@ =~= Set::new(|v: int| 0 <= v < i));
        }
        proof {
            if i < n {
                assert(i >= W * 64) by (nonlinear_arith)
                    requires
                        i / 64 >= W,
                ;
            }
        }
        assert(s@ =~= Set::new(|v: int| 0 <= v < n && Self::in_range(v)));
        s
    }

    /// Insert a value into the set; a value beyond the set's range is ignored.
    pub fn insert(&mut self, value: usize)
        ensures
            final(self)@ == (if Self::in_range(value as int) {
                old(self)@.insert(value as int)
            } else {
                old(self)@
            }),
    {
        proof {
            use_type_invariant(&*self);
        }
        if value / 64 < W {
            let wi = value / 64;
            let b = (value % 64) as u64;
            let w = self.words[wi];
            let nw = w | (1u64 << b);
            self.words[wi] = nw;
            proof {
                assert(Self::in_range(value as int)) by (nonlinear_arith)
                    requires
                        value / 64 < W,
                ;
                assert forall|v: int| #[trigger] self.has(v) == (v == value || old(self).has(v)) by {
                    if Self::in_range(v) {
                        Self::lemma_split(v);
                        if v / 64 == wi {
                            lemma_bit_set(w, b, (v % 64) as u64);
                        }
                    }
                }
                assert(self@ =~= old(self)@.insert(value as int));
            }
        } else {
            proof {
                assert(!Self::in_range(value as int)) by (nonlinear_arith)
                    requires
                        value / 64 >= W,
                ;
            }
        }
    }

    /// Remove a value from the set. Returns true if the value was present.
    pub fn remove(&mut self, value: usize) -> (was_present: bool)
        ensures
            was_present == old(self)@.contains(value as int),
            final(self)@ == old(self)@.remove(value as int),
    {
        proof {
            use_type_invariant(&*self);
        }
        if value / 64 < W {
            let wi = value / 64;
            let b = (value % 64) as u64;
            let w = self.words[wi];
            let mask = 1u64 << b;
            let was_set = (w & mask) != 0;
            self.words[wi] = w & !mask;
            proof {
                Self::lemma_split(value as int);
                lemma_bit_test(w, b);
                assert forall|v: int| #[trigger] self.has(v) == (v != value && old(self).has(v)) by {
                    if Self::in_range(v) {
                        Self::lemma_split(v);
                        if v / 64 == wi {
                            lemma_bit_clear(w, b, (v % 64) as u64);
                        }
                    }
                }
                assert(self@ =~= old(self)@.remove(value as int));
            }
            was_set
        } else {
            proof {
                assert(!Self::in_range(value as int)) by (nonlinear_arith)
                    requires
                        value / 64 >= W,
                ;
                assert(self@ =~= old(self)@.remove(value as int));
            }
            false
        }
    }

    /// Check if a value is in the set.
    pub fn contains(&self, value: usize) -> (present: bool)
        ensures
            present == self@.contains(value as int),
    {
        if value / 64 < W {
            let b = (value % 64) as u64;
            let w = self.words[value / 64];
            proof {
                Self::lemma_split(value as int);
                lemma_bit_test(w, b);
            }
            (w & (1u64 << b)) != 0
        } else {
            proof {
                assert(!Self::in_range(value as int)) by (nonlinear_arith)
                    requires
                        value / 64 >= W,
                ;
            }
            false
        }
    }

    /// Number of values in the set.
    pub fn count(&self) -> (n: usize)
        ensures
            n == self@.len(),
    {
        proof {
            use_type_invariant(self);
        }
        assert(W * 64 <= usize::MAX) by (nonlinear_arith)
            requires
                W <= usize::MAX / 64,
        ;
        let mut n: usize = 0;
        let mut wi: usize = 0;
        assert(self.below(0) =~= Set::<int>::empty());
        while wi < W
            invariant
                W <= usize::MAX / 64,
                W * 64 <= usize::MAX,
                wi <= W,
                n == self.below(wi * 64).len(),
                n <= wi * 64,
            decreases W - wi,
        {
            let w = self.words[wi];
            let mut b: u64 = 0;
            while b < 64
                invariant
                    W <= usize::MAX / 64,
                    W * 64 <= usize::MAX,
                    wi < W,
                    w == self.words@[wi as int],
                    b <= 64,
                    n == self.below(wi * 64 + b).len(),
                    n <= wi * 64 + b,
                decreases 64 - b,
            {
                proof {
                    self.lemma_below_step(wi * 64 + b);
                    self.lemma_has_word(wi as int, b);
                    assert(wi * 64 + b + 1 <= W * 64) by (nonlinear_arith)
                        requires
                            wi < W,
                            b < 64,
                    ;
                }
                if (w >> b) & 1u64 == 1u64 {
                    n = n + 1;
                }
                b = b + 1;
            }
            wi = wi + 1;
        }
        proof {
            assert(self.below(W * 64) =~= self@);
        }
        n
    }

    /// Check if the set is empty.
    pub fn is_empty(&self) -> (empty: bool)
        ensures
            empty == (self@ == Set::<int>::empty()),
    {
        let mut wi: usize = 0;
        while wi < W
            invariant
                wi <= W,
                forall|v: int| 0 <= v < wi * 64 ==> !#[trigger] self.has(v),
            decreases W - wi,
        {
            let w = self.words[wi];
            if w != 0 {
                proof {
                    vstd::std_specs::bits::axiom_u64_trailing_zeros(w);
                    let tz = vstd::std_specs::bits::u64_trailing_zeros(w) as u64;
                    self.lemma_has_word(wi as int, tz);
                    assert(self@.contains(wi * 64 + tz));
                }
                return false;
            }
            proof {
                assert forall|v: int| 0 <= v < (wi + 1) * 64 implies !#[trigger] self.has(v) by {
                    if v >= wi * 64 {
                        Self::lemma_split(v);
                        assert(v / 64 == wi) by (nonlinear_arith)
                            requires
                                wi * 64 <= v < (wi + 1) * 64,
                        ;
                        lemma_bit_zero((v % 64) as u64);
                    }
                }
            }
            wi = wi + 1;
        }
        assert(self@ =~= Set::<int>::empty());
        true
    }

    /// Check if the set contains exactly one value.
    pub fn is_singleton(&self) -> (single: bool)
        ensures
            single == (self@.len() == 1),
    {
        self.count() == 1
    }

    /// Get the single value if this is a singleton set.
    pub fn singleton_value(&self) -> (r: Option<usize>)
        ensures
            r is Some <==> self@.len() == 1,
            r matches Some(v) ==> self@ == set![v as int],
    {
        if self.is_singleton() {
            let m = self.min_value();
            proof {
                self.lemma_finite();
                let v = m->0 as int;
                assert(self@.remove(v).len() == 0);
                assert(self@.remove(v) =~= Set::<int>::empty());
                assert(self@ =~= set![v]);
            }
            m
        } else {
            None
        }
    }

    /// Get the smallest value in the set.
    pub fn min_value(&self) -> (r: Option<usize>)
        ensures
            r is None <==> self@ == Set::<int>::empty(),
            r matches Some(v) ==> self@.contains(v as int) && forall|x: int|
                #[trigger] self@.contains(x) ==> v <= x,
    {
        let mut it = self.iter();
        let r = it.next();
        proof {
            if r is None {
                assert(self@ =~= Set::<int>::empty());
            }
        }
        r
    }

    /// An iterator over the values of the set in increasing order.
    pub fn iter(&self) -> (it: BitSetIter<'_, W>)
        ensures
            it.set() == *self,
            it.position() == 0,
            it.wf(),
    {
        BitSetIter { bitset: self, word_idx: 0, bit_idx: 0 }
    }

    /// The values of the set in increasing order: a full walk of its iterator, which
    /// yields every member once, in increasing order, and as many values as `count` gives.
    pub fn to_vec(&self) -> (values: Vec<usize>)
        ensures
            forall|i: int, j: int| 0 <= i < j < values.len() ==> values[i] < values[j],
            forall|v: int| self@.contains(v) <==> exists|i: int|
                0 <= i < values.len() && values[i] == v,
            values.len() == self@.len(),
    {
        let mut values: Vec<usize> = Vec::new();
        let mut it = self.iter();
        loop
            invariant
                it.set() == *self,
                it.wf(),
                forall|i: int, j: int| 0 <= i < j < values.len() ==> values[i] < values[j],
                forall|i: int| 0 <= i < values.len() ==> values[i] < it.position(),
                forall|v: int|
                    (self@.contains(v) && v < it.position()) <==> exists|i: int|
                        0 <= i < values.len() && values[i] == v,
                it.position() <= W * 64,
            decreases W * 64 - it.position(),
        {
            let ghost prev = it.position();
            match it.next() {
                Some(v) => {
                    proof {
                        assert forall|x: int|
                            (self@.contains(x) && x < it.position()) implies exists|i: int|
                                0 <= i < values.len() + 1 && values@.push(v)[i] == x by {
                            if x < prev {
                                let i = choose|i: int| 0 <= i < values.len() && values[i] == x;
                                assert(values@.push(v)[i] == x);
                            } else {
                                assert(x == v);
                                assert(values@.push(v)[values.len() as int] == x);
                            }
                        }
                    }
                    values.push(v);
                },
                None => {
                    assert forall|v: int| self@.contains(v) implies v < prev by {
                        if v >= prev {
                            assert(false);
                        }
                    }
                    proof {
                        let ints = values@.map_values(|x: usize| x as int);
                        assert(ints.no_duplicates()) by {
                            assert forall|i: int, j: int| 0 <= i < ints.len() && 0 <= j < ints.len() && i != j
                                implies ints[i] != ints[j] by {
                                if i < j {
                                    assert(values[i] < values[j]);
                                } else {
                                    assert(values[j] < values[i]);
                                }
                            }
                        }
                        assert(ints.to_set() =~= self@) by {
                            assert forall|v: int| ints.to_set().contains(v) <==> self@.contains(v) by {
                                if self@.contains(v) {
                                    let i = choose|i: int| 0 <= i < values.len() && values[i] == v;
                                    assert(ints[i] == v);
                                }
                                if ints.to_set().contains(v) {
                                    let i = choose|i: int| 0 <= i < ints.len() && ints[i] == v;
                                    assert(values[i] == v);
                                }
                            }
                        }
                        ints.unique_seq_to_set();
                    }
                    return values;
                },
            }
        }
    }

    /// Intersect with another bitset in place.
    pub fn intersect_with(&mut self, other: &Self)
        ensures
            final(self)@ == old(self)@.intersect(other@),
    {
        proof {
            use_type_invariant(&*self);
        }
        let mut wi: usize = 0;
        while wi < W
            invariant
                wi <= W,
                W <= usize::MAX / 64,
                forall|j: int| 0 <= j < wi ==> self.words@[j] == old(self).words@[j] & other.words@[j],
                forall|j: int| wi <= j < W ==> self.words@[j] == old(self).words@[j],
            decreases W - wi,
        {
            let a = self.words[wi];
            self.words[wi] = a & other.words[wi];
            wi = wi + 1;
        }
        proof {
            assert forall|v: int| #[trigger] self.has(v) == (old(self).has(v) && other.has(v)) by {
                if Self::in_range(v) {
                    Self::lemma_split(v);
                    lemma_bit_and(old(self).words@[v / 64], other.words@[v / 64], (v % 64) as u64);
                }
            }
            assert(self@ =~= old(self)@.intersect(other@));
        }
    }

    /// Union with another bitset in place.
    pub fn union_with(&mut self, other: &Self)
        ensures
            final(self)@ == old(self)@.union(other@),
    {
        proof {
            use_type_invariant(&*self);
        }
        let mut wi: usize = 0;
        while wi < W
            invariant
                wi <= W,
                W <= usize::MAX / 64,
                forall|j: int| 0 <= j < wi ==> self.words@[j] == old(self).words@[j] | other.words@[j],
                forall|j: int| wi <= j < W ==> self.words@[j] == old(self).words@[j],
            decreases W - wi,
        {
            let a = self.words[wi];
            self.words[wi] = a | other.words[wi];
            wi = wi + 1;
        }
        proof {
            assert forall|v: int| #[trigger] self.has(v) == (old(self).has(v) || other.has(v)) by {
                if Self::in_range(v) {
                    Self::lemma_split(v);
                    lemma_bit_or(old(self).words@[v / 64], other.words@[v / 64], (v % 64) as u64);
                }
            }
            assert(self@ =~= old(self)@.union(other@));
        }
    }

    /// Subtract another bitset from this one.
    pub fn subtract(&mut self, other: &Self)
        ensures
            final(self)@ == old(self)@.difference(other@),
    {
        proof {
            use_type_invariant(&*self);
        }
        let mut wi: usize = 0;
        while wi < W
            invariant
                wi <= W,
                W <= usize::MAX / 64,
                forall|j: int| 0 <= j < wi ==> self.words@[j] == old(self).words@[j] & !other.words@[j],
                forall|j: int| wi <= j < W ==> self.words@[j] == old(self).words@[j],
            decreases W - wi,
        {
            let a = self.words[wi];
            self.words[wi] = a & !other.words[wi];
            wi = wi + 1;
        }
        proof {
            assert forall|v: int| #[trigger] self.has(v) == (old(self).has(v) && !other.has(v)) by {
                if Self::in_range(v) {
                    Self::lemma_split(v);
                    lemma_bit_and_not(old(self).words@[v / 64], other.words@[v / 64], (v % 64) as u64);
                }
            }
            assert(self@ =~= old(self)@.difference(other@));
        }
    }
}

/// Iterator over the values of a [`BitSet`] in increasing order.
pub struct BitSetIter<'a, const W: usize> {
    bitset: &'a BitSet<W>,
    word_idx: usize,
    bit_idx: usize,
}

impl<'a, const W: usize> BitSetIter<'a, W> {
    /// The set being walked.
    pub closed spec fn set(self) -> BitSet<W> {
        *self.bitset
    }

    /// The value from which the walk goes on.
    pub closed spec fn position(self) -> int {
        self.word_idx * 64 + self.bit_idx
    }

    /// The iterator's position is a word boundary plus a bit below 64.
    pub closed spec fn wf(self) -> bool {
        &&& self.word_idx <= W
        &&& self.bit_idx < 64
        &&& self.word_idx == W ==> self.bit_idx == 0
    }

    /// The smallest value of the set at or after the current position, if any.
    pub fn next(&mut self) -> (r: Option<usize>)
        requires
            old(self).wf(),
        ensures
            final(self).wf(),
            final(self).set() == old(self).set(),
            match r {
                Some(v) => {
                    &&& old(self).set()@.contains(v as int)
                    &&& old(self).position() <= v
                    &&& forall|x: int|
                        old(self).position() <= x < v ==> !#[trigger] old(self).set()@.contains(x)
                    &&& final(self).position() == v + 1
                },
                None => {
                    &&& forall|x: int|
                        old(self).position() <= x ==> !#[trigger] old(self).set()@.contains(x)
                    &&& final(self).position() == W * 64
                },
            },
    {
        proof {
            use_type_invariant(self.bitset);
        }
        let ghost start = self.position();
        assert(W * 64 <= usize::MAX) by (nonlinear_arith)
            requires
                W <= usize::MAX / 64,
        ;
        while self.word_idx < W
            invariant
                W <= usize::MAX / 64,
                self.wf(),
                self.bitset == old(self).bitset,
                start == old(self).position(),
                start <= self.position(),
                forall|x: int| start <= x < self.position() ==> !#[trigger] self.set()@.contains(x),
            decreases W - self.word_idx,
        {
            assert(self.word_idx * 64 + 63 <= usize::MAX) by (nonlinear_arith)
                requires
                    self.word_idx < W,
                    W <= usize::MAX / 64,
            ;
            let word = self.bitset.words[self.word_idx];
            let masked = word >> (self.bit_idx as u64);
            let ghost wi = self.word_idx as int;
            let ghost bi = self.bit_idx as int;
            if masked != 0 {
                let tz = masked.trailing_zeros() as usize;
                proof {
                    vstd::std_specs::bits::axiom_u64_trailing_zeros(masked);
                    lemma_bit_shift(word, bi as u64, tz as u64);
                    assert(bit(masked, tz as u64));
                    assert forall|x: int| start <= x < wi * 64 + bi + tz implies !#[trigger] self.set()@.contains(x) by {
                        if x >= wi * 64 + bi {
                            let j = (x - wi * 64 - bi) as u64;
                            assert((masked >> j) & 1u64 == 0u64);
                            lemma_bit_shift(word, bi as u64, j);
                            self.bitset.lemma_has_word(wi, (bi + j) as u64);
                        }
                    }
                    assert(self.set() == old(self).set());
                    self.bitset.lemma_has_word(wi, (bi + tz) as u64);
                    assert(wi * 64 + bi + tz < W * 64) by (nonlinear_arith)
                        requires
                            wi < W,
                            bi + tz < 64,
                    ;
                }
                self.bit_idx = self.bit_idx + tz;
                let value = self.word_idx * 64 + self.bit_idx;
                self.bit_idx = self.bit_idx + 1;
                if self.bit_idx >= 64 {
                    self.word_idx = self.word_idx + 1;
                    self.bit_idx = 0;
                }
                return Some(value);
            }
            proof {
                assert forall|x: int| start <= x < (wi + 1) * 64 implies !#[trigger] self.set()@.contains(x) by {
                    if x >= wi * 64 + bi {
                        let j = (x - wi * 64 - bi) as u64;
                        lemma_bit_zero(j);
                        lemma_bit_shift(word, bi as u64, j);
                        self.bitset.lemma_has_word(wi, (bi + j) as u64);
                    }
                }
            }
            let ghost before = self.set();
            self.word_idx = self.word_idx + 1;
            self.bit_idx = 0;
            assert(self.set() == before);
        }
        proof {
            assert(self.set() == old(self).set());
            assert forall|x: int| start <= x implies !#[trigger] self.set()@.contains(x) by {
                if x >= W * 64 {
                    self.set().lemma_finite();
                }
            }
        }
        None
    }
}

} // verus!
