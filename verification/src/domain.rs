//! Variable domains and the model that the contracts speak of.

use vstd::prelude::*;
use crate::bitset::BitSet;

verus! {

/// A variable's domain: the set of values it can take.
pub type Domain<const W: usize> = BitSet<W>;

/// Snapshot of all domains for backtracking.
pub struct DomainSnapshot<const W: usize> {
    pub(crate) domains: Vec<Domain<W>>,
}

impl<const W: usize> View for DomainSnapshot<W> {
    type V = Seq<Set<int>>;

    closed spec fn view(&self) -> Seq<Set<int>> {
        views(self.domains@)
    }
}

impl<const W: usize> DomainSnapshot<W> {
    /// Record the given domains.
    pub fn new(domains: Vec<Domain<W>>) -> (s: Self)
        ensures
            s@ == views(domains@),
    {
        DomainSnapshot { domains }
    }

    /// A copy of the recorded domains.
    pub fn domains(&self) -> (ds: Vec<Domain<W>>)
        ensures
            views(ds@) == self@,
    {
        copy_domains(&self.domains)
    }

    /// The number of variables recorded.
    pub fn len(&self) -> (n: usize)
        ensures
            n == self@.len(),
    {
        self.domains.len()
    }
}

/// A copy of a sequence of domains.
pub fn copy_domains<const W: usize>(ds: &Vec<BitSet<W>>) -> (c: Vec<BitSet<W>>)
    ensures
        c@ == ds@,
{
    let mut c: Vec<BitSet<W>> = Vec::new();
    let mut i: usize = 0;
    while i < ds.len()
        invariant
            i <= ds.len(),
            c@ == ds@.take(i as int),
        decreases ds.len() - i,
    {
        c.push(ds[i]);
        i = i + 1;
        assert(c@ =~= ds@.take(i as int));
    }
    assert(ds@.take(ds.len() as int) =~= ds@);
    c
}

/// The sets of values that a sequence of domains stands for.
pub open spec fn views<const W: usize>(ds: Seq<BitSet<W>>) -> Seq<Set<int>> {
    ds.map_values(|d: BitSet<W>| d@)
}

/// `values` gives every variable a value taken from its domain.
pub open spec fn consistent(values: Seq<int>, doms: Seq<Set<int>>) -> bool {
    &&& values.len() == doms.len()
    &&& forall|i: int| 0 <= i < values.len() ==> #[trigger] doms[i].contains(values[i])
}

/// Every domain of `after` is a subset of the same variable's domain in `before`.
pub open spec fn shrinks(after: Seq<Set<int>>, before: Seq<Set<int>>) -> bool {
    &&& after.len() == before.len()
    &&& forall|i: int| 0 <= i < after.len() ==> #[trigger] after[i].subset_of(before[i])
}

/// Every variable outside `vars` keeps its domain.
pub open spec fn unchanged_outside(after: Seq<Set<int>>, before: Seq<Set<int>>, vars: Seq<usize>) -> bool {
    forall|i: int|
        0 <= i < after.len() && !vars.contains(i as usize) ==> #[trigger] after[i] == before[i]
}

/// Every variable of `vars` names a domain.
pub open spec fn in_bounds(vars: Seq<usize>, n: nat) -> bool {
    forall|k: int| 0 <= k < vars.len() ==> #[trigger] vars[k] < n
}

/// Every variable of `vars` has a nonempty domain.
pub open spec fn nonempty_on(doms: Seq<Set<int>>, vars: Seq<usize>) -> bool {
    forall|k: int| 0 <= k < vars.len() ==> #[trigger] doms[vars[k] as int].len() > 0
}

/// Every variable of `vars` has exactly one value left.
pub open spec fn decided_on(doms: Seq<Set<int>>, vars: Seq<usize>) -> bool {
    forall|k: int| 0 <= k < vars.len() ==> #[trigger] doms[vars[k] as int].len() == 1
}

/// All domains are finite.
pub open spec fn all_finite(doms: Seq<Set<int>>) -> bool {
    forall|i: int| 0 <= i < doms.len() ==> #[trigger] doms[i].finite()
}

/// The total number of values left over all domains.
pub open spec fn total_size(doms: Seq<Set<int>>) -> nat
    decreases doms.len(),
{
    if doms.len() == 0 {
        0
    } else {
        total_size(doms.drop_last()) + doms.last().len()
    }
}

/// The domains of bit sets are finite, and their values are those a bit set can hold.
pub proof fn lemma_views_finite<const W: usize>(ds: Seq<BitSet<W>>)
    ensures
        all_finite(views(ds)),
        views(ds).len() == ds.len(),
        forall|i: int, v: int| 0 <= i < ds.len() && #[trigger] views(ds)[i].contains(v) ==> BitSet::<W>::in_range(v),
{
    assert forall|i: int| 0 <= i < views(ds).len() implies #[trigger] views(ds)[i].finite() by {
        ds[i].lemma_finite();
    }
    assert forall|i: int, v: int| 0 <= i < ds.len() && #[trigger] views(ds)[i].contains(v) implies BitSet::<W>::in_range(v) by {
        ds[i].lemma_finite();
    }
}

/// Shrinking finite domains never increases the total size, and shrinking one strictly decreases it.
pub proof fn lemma_total_size_shrinks(after: Seq<Set<int>>, before: Seq<Set<int>>)
    requires
        shrinks(after, before),
        all_finite(before),
    ensures
        total_size(after) <= total_size(before),
        (exists|i: int| 0 <= i < after.len() && #[trigger] after[i] != before[i]) ==> total_size(after)
            < total_size(before),
    decreases after.len(),
{
    if after.len() > 0 {
        let n = after.len() - 1;
        assert(shrinks(after.drop_last(), before.drop_last()));
        lemma_total_size_shrinks(after.drop_last(), before.drop_last());
        assert(after[n].subset_of(before[n]));
        assert(before[n].finite());
        vstd::set_lib::lemma_len_subset(after[n], before[n]);
        if after[n] != before[n] {
            assert(exists|x: int| before[n].contains(x) && !after[n].contains(x)) by {
                if !(exists|x: int| before[n].contains(x) && !after[n].contains(x)) {
                    assert(after[n] =~= before[n]);
                }
            }
            let x = choose|x: int| before[n].contains(x) && !after[n].contains(x);
            assert(after[n].subset_of(before[n].remove(x)));
            vstd::set_lib::lemma_len_subset(after[n], before[n].remove(x));
        }
        if exists|i: int| 0 <= i < after.len() && #[trigger] after[i] != before[i] {
            let i = choose|i: int| 0 <= i < after.len() && #[trigger] after[i] != before[i];
            if i < n {
                assert(after.drop_last()[i] != before.drop_last()[i]);
            }
        }
    }
}

/// Remove `value` from the domain of `var`.
pub fn remove_value<const W: usize>(domains: &mut Vec<BitSet<W>>, var: usize, value: usize) -> (was_present: bool)
    requires
        var < old(domains).len(),
    ensures
        final(domains)@.len() == old(domains)@.len(),
        views(final(domains)@) == views(old(domains)@).update(var as int, old(domains)@[var as int]@.remove(value as int)),
        was_present == old(domains)@[var as int]@.contains(value as int),
{
    let mut d = domains[var];
    let r = d.remove(value);
    domains.set(var, d);
    assert(views(domains@) =~= views(old(domains)@).update(var as int, old(domains)@[var as int]@.remove(value as int)));
    r
}

/// Replace the domain of `var` by `d`.
pub fn set_domain<const W: usize>(domains: &mut Vec<BitSet<W>>, var: usize, d: BitSet<W>)
    requires
        var < old(domains).len(),
    ensures
        final(domains)@.len() == old(domains)@.len(),
        views(final(domains)@) == views(old(domains)@).update(var as int, d@),
{
    domains.set(var, d);
    assert(views(domains@) =~= views(old(domains)@).update(var as int, d@));
}

} // verus!
