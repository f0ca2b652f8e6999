//! The constraint trait and the built-in constraints.

use vstd::prelude::*;
use crate::bitset::BitSet;
use crate::domain::{all_finite, consistent, decided_on, in_bounds, lemma_views_finite, nonempty_on, remove_value, set_domain, shrinks, unchanged_outside, views};
use crate::error::Contradiction;

verus! {

/// A constraint between variables. Implementations prune impossible values
/// from variable domains during propagation.
///
/// The contract of `propagate` is what the propagation engine and the search rely on:
/// domains only shrink, only the scope's domains change, no value that takes part in an
/// assignment satisfying the constraint is removed, a success leaves every scope domain
/// nonempty, a success on a scope whose domains are all single values means that those
/// values satisfy the constraint, and an error means that no assignment within the
/// given domains satisfies it.
pub trait Constraint<const W: usize> {
    /// The variables the constraint involves.
    spec fn scope_view(&self) -> Seq<usize>;

    /// Whether an assignment of values to all variables satisfies the constraint.
    spec fn holds(&self, values: Seq<int>) -> bool;

    /// Pruning would find nothing to remove from `d` and no contradiction in it.
    spec fn stable(&self, d: Seq<Set<int>>) -> bool;

    /// Whether the constraint is stable depends on the domains of its scope alone.
    proof fn lemma_stable_frame(&self, d1: Seq<Set<int>>, d2: Seq<Set<int>>)
        requires
            in_bounds(self.scope_view(), d1.len()),
            d1.len() == d2.len(),
            forall|k: int| 0 <= k < self.scope_view().len() ==> #[trigger] d1[self.scope_view()[k] as int] == d2[self.scope_view()[k] as int],
        ensures
            self.stable(d1) == self.stable(d2),
    ;

    /// The variable indices this constraint involves.
    fn scope(&self) -> (vars: &[usize])
        ensures
            vars@ == self.scope_view(),
    ;

    /// Prune impossible values from the given domains.
    /// Returns `Err(Contradiction)` if any domain becomes empty.
    fn propagate(&self, domains: &mut Vec<BitSet<W>>) -> (r: Result<(), Contradiction>)
        requires
            in_bounds(self.scope_view(), old(domains)@.len()),
        ensures
            shrinks(views(final(domains)@), views(old(domains)@)),
            unchanged_outside(views(final(domains)@), views(old(domains)@), self.scope_view()),
            forall|a: Seq<int>|
                consistent(a, views(old(domains)@)) && #[trigger] self.holds(a) ==> consistent(
                    a,
                    views(final(domains)@),
                ),
            r is Ok ==> nonempty_on(views(final(domains)@), self.scope_view()),
            r is Ok && decided_on(views(final(domains)@), self.scope_view()) ==> forall|a: Seq<int>|
                consistent(a, views(final(domains)@)) ==> #[trigger] self.holds(a),
            r is Err ==> forall|a: Seq<int>|
                consistent(a, views(old(domains)@)) ==> !#[trigger] self.holds(a),
            r is Ok ==> self.stable(views(final(domains)@)),
            forall|q: Seq<Set<int>>|
                #[trigger] self.stable(q) && shrinks(q, views(old(domains)@)) && nonempty_on(q, self.scope_view())
                    ==> r is Ok && shrinks(q, views(final(domains)@)),
            r matches Err(c) ==> self.scope_view().len() == 0 || (self.scope_view().contains(c.variable)
                && views(final(domains)@)[c.variable as int].len() == 0),
    ;
}

/// The only value of a domain that holds exactly one.
pub open spec fn the_value(s: Set<int>) -> int {
    s.choose()
}

/// A finite set with one member is the singleton of its chosen member.
pub proof fn lemma_single(s: Set<int>)
    requires
        s.finite(),
        s.len() == 1,
    ensures
        s.contains(the_value(s)),
        s == set![the_value(s)],
        forall|x: int| #[trigger] s.contains(x) ==> x == the_value(s),
{
    Set::lemma_is_singleton(s);
    assert(s.contains(s.choose()));
    assert(s =~= set![the_value(s)]);
}

/// A finite set is empty exactly when it has no members.
pub proof fn lemma_empty_len(s: Set<int>)
    requires
        s.finite(),
    ensures
        (s.len() == 0) == (s == Set::<int>::empty()),
{
    if s.len() == 0 {
        s.lemma_len0_is_empty();
    }
}

/// The chosen value of a singleton is its member.
pub proof fn lemma_the_value_of(v: int)
    ensures
        the_value(set![v]) == v,
        set![v].len() == 1,
        set![v].finite(),
{
    let s = set![v];
    assert(s.len() == 1);
    lemma_single(s);
    assert(s.contains(the_value(s)));
}

/// A nonempty part of a finite set that lies within `{v}` is `{v}`.
pub proof fn lemma_within_single(s: Set<int>, big: Set<int>, v: int)
    requires
        big.finite(),
        s.subset_of(big),
        s.subset_of(set![v]),
        s.len() > 0,
    ensures
        s == set![v],
        s.len() == 1,
        the_value(s) == v,
{
    vstd::set_lib::lemma_set_subset_finite(big, s);
    if !s.contains(v) {
        assert(s =~= Set::<int>::empty());
    }
    assert(s =~= set![v]);
    lemma_the_value_of(v);
}

/// A finite set that holds a nonempty part has members.
pub proof fn lemma_nonempty_within(q: Set<int>, big: Set<int>)
    requires
        big.finite(),
        q.subset_of(big),
        q.len() > 0,
    ensures
        big.len() > 0,
{
    vstd::set_lib::lemma_len_subset(q, big);
}

/// Remove the value of `from` from the domain of `to`, when `from` holds a single value.
pub open spec fn drop_if_single(d: Seq<Set<int>>, from: int, to: int) -> Seq<Set<int>> {
    if d[from].len() == 1 {
        d.update(to, d[to].remove(the_value(d[from])))
    } else {
        d
    }
}

/// Two variables must take different values.
pub struct NotEqual {
    scope: [usize; 2],
}

impl NotEqual {
    /// The first variable.
    pub closed spec fn first(self) -> usize {
        self.scope@[0]
    }

    /// The second variable.
    pub closed spec fn second(self) -> usize {
        self.scope@[1]
    }

    /// A constraint that `a` and `b` differ.
    pub fn new(a: usize, b: usize) -> (c: Self)
        ensures
            c.first() == a,
            c.second() == b,
    {
        Self { scope: [a, b] }
    }

    /// The variables of the constraint.
    pub open spec fn vars(self) -> Seq<usize> {
        seq![self.first(), self.second()]
    }

    /// Whether the two variables take different values.
    pub open spec fn satisfied(self, values: Seq<int>) -> bool {
        values[self.first() as int] != values[self.second() as int]
    }

    /// The domains after one round of pruning: the single value of the first variable
    /// leaves the second, then the single value of the second leaves the first.
    pub open spec fn pruned(self, d: Seq<Set<int>>) -> Seq<Set<int>> {
        drop_if_single(drop_if_single(d, self.first() as int, self.second() as int), self.second() as int, self.first() as int)
    }

    /// Pruning has nothing to remove: neither variable's single value is left to the other.
    pub open spec fn quiet(self, d: Seq<Set<int>>) -> bool {
        &&& d[self.first() as int].len() == 1 ==> !d[self.second() as int].contains(the_value(d[self.first() as int]))
        &&& d[self.second() as int].len() == 1 ==> !d[self.first() as int].contains(the_value(d[self.second() as int]))
    }

    /// Pruning that leaves both domains nonempty leaves nothing more to prune.
    proof fn lemma_pruned_quiet(self, d: Seq<Set<int>>)
        requires
            all_finite(d),
            self.first() < d.len(),
            self.second() < d.len(),
            self.pruned(d)[self.first() as int].len() > 0,
            self.pruned(d)[self.second() as int].len() > 0,
        ensures
            self.quiet(self.pruned(d)),
    {
        let a = self.first() as int;
        let b = self.second() as int;
        let d1 = drop_if_single(d, a, b);
        let r = self.pruned(d);
        if a == b {
            if d[a].len() == 1 {
                lemma_single(d[a]);
                assert(d1[a] =~= Set::<int>::empty());
                assert(r[a] =~= Set::<int>::empty());
            }
        } else {
            if d[a].len() == 1 {
                lemma_single(d[a]);
                let x = the_value(d[a]);
                assert(d1[a] == d[a]);
                if r[a].len() == 1 {
                    assert(r[a].subset_of(d[a]));
                    lemma_within_single(r[a], d[a], x);
                    assert(r[b] == d1[b]);
                    assert(!r[b].contains(x));
                }
            } else {
                assert(d1 == d);
                if d[b].len() == 1 {
                    lemma_single(d[b]);
                    let y = the_value(d[b]);
                    if r[a].len() == 1 {
                        lemma_single(r[a]);
                        assert(r[a].contains(the_value(r[a])));
                        assert(r[b] == d[b]);
                    }
                }
            }
            if r[b].len() == 1 {
                assert(r[b] == d1[b]);
            }
        }
    }

    /// Every nonempty narrowing of `d` with nothing to prune lies within the pruned
    /// domains.
    proof fn lemma_quiet_within_pruned(self, d: Seq<Set<int>>, q: Seq<Set<int>>)
        requires
            all_finite(d),
            self.first() < d.len(),
            self.second() < d.len(),
            shrinks(q, d),
            q[self.first() as int].len() > 0,
            q[self.second() as int].len() > 0,
            self.quiet(q),
        ensures
            shrinks(q, self.pruned(d)),
    {
        let a = self.first() as int;
        let b = self.second() as int;
        let d1 = drop_if_single(d, a, b);
        if d[a].len() == 1 {
            lemma_single(d[a]);
            let x = the_value(d[a]);
            assert(q[a].subset_of(d[a]));
            lemma_within_single(q[a], d[a], x);
            assert(!q[b].contains(x));
            assert forall|i: int| 0 <= i < q.len() implies #[trigger] q[i].subset_of(d1[i]) by {
                assert(q[i].subset_of(d[i]));
                if i == b {
                    assert forall|e: int| q[i].contains(e) implies d1[i].contains(e) by {
                        assert(d[i].contains(e));
                    }
                }
            }
        }
        assert(shrinks(q, d1));
        assert(d1[b].finite()) by {
            vstd::set_lib::lemma_set_subset_finite(d[b], d1[b]);
        }
        if d1[b].len() == 1 {
            lemma_single(d1[b]);
            let y = the_value(d1[b]);
            assert(q[b].subset_of(d1[b]));
            lemma_within_single(q[b], d1[b], y);
            assert(!q[a].contains(y));
            let r = self.pruned(d);
            assert forall|i: int| 0 <= i < q.len() implies #[trigger] q[i].subset_of(r[i]) by {
                assert(q[i].subset_of(d1[i]));
                if i == a {
                    assert forall|e: int| q[i].contains(e) implies r[i].contains(e) by {
                        assert(d1[i].contains(e));
                    }
                }
            }
        }
    }
}

impl<const W: usize> Constraint<W> for NotEqual {
    open spec fn scope_view(&self) -> Seq<usize> {
        self.vars()
    }

    open spec fn holds(&self, values: Seq<int>) -> bool {
        self.satisfied(values)
    }

    open spec fn stable(&self, d: Seq<Set<int>>) -> bool {
        self.quiet(d)
    }

    proof fn lemma_stable_frame(&self, d1: Seq<Set<int>>, d2: Seq<Set<int>>) {
        assert(self.vars()[0] == self.first() && self.vars()[1] == self.second());
        assert(d1[self.first() as int] == d2[self.first() as int]);
        assert(d1[self.second() as int] == d2[self.second() as int]);
    }

    fn scope(&self) -> (vars: &[usize]) {
        assert(self.scope@ =~= self.vars());
        self.scope.as_slice()
    }

    fn propagate(&self, domains: &mut Vec<BitSet<W>>) -> (r: Result<(), Contradiction>)
        ensures
            views(final(domains)@) == self.pruned(views(old(domains)@)),
            r == (if views(final(domains)@)[self.second() as int].len() == 0 {
                Err(Contradiction { variable: self.second() })
            } else if views(final(domains)@)[self.first() as int].len() == 0 {
                Err(Contradiction { variable: self.first() })
            } else {
                Ok(())
            }),
    {
        let a = self.scope[0];
        let b = self.scope[1];
        let ghost d0 = views(domains@);
        proof {
            assert(self.vars().contains(a) && self.vars().contains(b)) by {
                assert(self.vars()[0] == a && self.vars()[1] == b);
            }
            assert(in_bounds(self.vars(), d0.len()));
            assert(a < d0.len() && b < d0.len()) by {
                assert(self.vars()[0] == a && self.vars()[1] == b);
            }
            lemma_views_finite(domains@);
        }
        if let Some(v) = domains[a].singleton_value() {
            remove_value(domains, b, v);
            proof {
                lemma_single(d0[a as int]);
            }
        }
        let ghost d1 = views(domains@);
        assert(d1 == drop_if_single(d0, a as int, b as int));
        if let Some(w) = domains[b].singleton_value() {
            remove_value(domains, a, w);
            proof {
                domains@[b as int].lemma_finite();
                lemma_single(d1[b as int]);
            }
        }
        let ghost d2 = views(domains@);
        assert(d2 == drop_if_single(d1, b as int, a as int));
        proof {
            lemma_views_finite(domains@);
            // no solution is removed
            assert forall|x: Seq<int>| consistent(x, d0) && #[trigger] self.satisfied(x) implies consistent(x, d2) by {
                assert(d0[a as int].contains(x[a as int]) && d0[b as int].contains(x[b as int]));
                if d0[a as int].len() == 1 {
                    lemma_single(d0[a as int]);
                }
                assert(consistent(x, d1));
                if d1[b as int].len() == 1 {
                    lemma_single(d1[b as int]);
                }
            }
            assert(unchanged_outside(d2, d0, self.vars()));
            assert(shrinks(d2, d0));
        }
        let empty_b = domains[b].is_empty();
        let empty_a = domains[a].is_empty();
        proof {
            domains@[a as int].lemma_finite();
            domains@[b as int].lemma_finite();
            lemma_empty_len(d2[a as int]);
            lemma_empty_len(d2[b as int]);
            if !empty_a && !empty_b {
                assert(nonempty_on(d2, self.vars()));
                // values that are decided on both sides differ
                if decided_on(d2, self.vars()) {
                    assert(d2[a as int].len() == 1 && d2[b as int].len() == 1) by {
                        assert(self.vars()[0] == a && self.vars()[1] == b);
                    }
                    lemma_single(d2[a as int]);
                    lemma_single(d2[b as int]);
                    if d0[a as int].len() == 1 {
                        lemma_single(d0[a as int]);
                        assert(the_value(d2[a as int]) == the_value(d0[a as int]));
                    } else {
                        assert(d1 == d0);
                        lemma_single(d1[b as int]);
                    }
                    assert forall|x: Seq<int>| consistent(x, d2) implies #[trigger] self.satisfied(x) by {
                        assert(d2[a as int].contains(x[a as int]) && d2[b as int].contains(x[b as int]));
                    }
                }
            } else {
                assert forall|x: Seq<int>| consistent(x, d0) implies !#[trigger] self.satisfied(x) by {
                    if self.satisfied(x) {
                        assert(consistent(x, d2));
                        assert(d2[a as int].contains(x[a as int]) && d2[b as int].contains(x[b as int]));
                    }
                }
            }
        }
        proof {
            if d2[a as int].len() > 0 && d2[b as int].len() > 0 {
                self.lemma_pruned_quiet(d0);
            }
            assert forall|q: Seq<Set<int>>| #[trigger] self.quiet(q) && shrinks(q, d0) && nonempty_on(q, self.vars())
                implies d2[a as int].len() > 0 && d2[b as int].len() > 0 && shrinks(q, d2) by {
                assert(self.vars()[0] == a && self.vars()[1] == b);
                assert(q[a as int].len() > 0 && q[b as int].len() > 0);
                self.lemma_quiet_within_pruned(d0, q);
                lemma_nonempty_within(q[a as int], d2[a as int]);
                lemma_nonempty_within(q[b as int], d2[b as int]);
            }
        }
        if empty_b {
            return Err(Contradiction { variable: b });
        }
        if empty_a {
            return Err(Contradiction { variable: a });
        }
        Ok(())
    }
}


/// Variable A's value must be less than variable B's value.
pub struct LessThan {
    scope: [usize; 2],
}

impl LessThan {
    /// The smaller variable.
    pub closed spec fn first(self) -> usize {
        self.scope@[0]
    }

    /// The larger variable.
    pub closed spec fn second(self) -> usize {
        self.scope@[1]
    }

    /// The variables of the constraint.
    pub open spec fn vars(self) -> Seq<usize> {
        seq![self.first(), self.second()]
    }

    /// Whether the first variable's value is below the second's.
    pub open spec fn satisfied(self, values: Seq<int>) -> bool {
        values[self.first() as int] < values[self.second() as int]
    }

    /// A constraint that `a`'s value is less than `b`'s.
    pub fn new(a: usize, b: usize) -> (c: Self)
        ensures
            c.first() == a,
            c.second() == b,
    {
        Self { scope: [a, b] }
    }

    /// The domains after pruning: the first variable keeps the values below some value of
    /// the second, then the second keeps the values above some value left to the first. A
    /// variable that must be less than itself loses every value.
    pub open spec fn pruned(self, d: Seq<Set<int>>) -> Seq<Set<int>> {
        let a = self.first() as int;
        let b = self.second() as int;
        if a == b {
            d.update(a, Set::empty())
        } else {
            let d1 = d.update(a, Set::new(|x: int| d[a].contains(x) && exists|w: int| d[b].contains(w) && x < w));
            d1.update(b, Set::new(|y: int| d1[b].contains(y) && exists|u: int| d1[a].contains(u) && u < y))
        }
    }

    /// Pruning has nothing to remove: the variables differ, every value of the first has
    /// a larger value of the second, and every value of the second a smaller one of the
    /// first.
    #[verifier::opaque]
    pub open spec fn quiet(self, d: Seq<Set<int>>) -> bool {
        let a = self.first() as int;
        let b = self.second() as int;
        &&& a != b
        &&& forall|x: int| #[trigger] d[a].contains(x) ==> exists|w: int| d[b].contains(w) && x < w
        &&& forall|y: int| #[trigger] d[b].contains(y) ==> exists|u: int| d[a].contains(u) && u < y
    }

    /// Pruning that leaves the first domain nonempty leaves nothing more to prune.
    proof fn lemma_pruned_quiet(self, d: Seq<Set<int>>)
        requires
            self.first() < d.len(),
            self.second() < d.len(),
            self.pruned(d)[self.first() as int].len() > 0,
        ensures
            self.quiet(self.pruned(d)),
    {
        reveal(LessThan::quiet);
        let a = self.first() as int;
        let b = self.second() as int;
        let r = self.pruned(d);
        if a == b {
            assert(r[a] == Set::<int>::empty());
        } else {
            let d1 = d.update(a, Set::new(|x: int| d[a].contains(x) && exists|w: int| d[b].contains(w) && x < w));
            assert forall|x: int| #[trigger] r[a].contains(x) implies exists|w: int| r[b].contains(w) && x < w by {
                assert(d1[a].contains(x));
                let w = choose|w: int| d[b].contains(w) && x < w;
                assert(r[b].contains(w));
            }
            assert forall|y: int| #[trigger] r[b].contains(y) implies exists|u: int| r[a].contains(u) && u < y by {
                let u = choose|u: int| d1[a].contains(u) && u < y;
                assert(r[a].contains(u));
            }
        }
    }

    /// What one round of pruning gives: nothing more to prune where the first domain
    /// stays nonempty, and room for every nonempty narrowing with nothing to prune.
    proof fn lemma_prune_outcome(self, d0: Seq<Set<int>>, d2: Seq<Set<int>>)
        requires
            self.first() < d0.len(),
            self.second() < d0.len(),
            d2 == self.pruned(d0),
            all_finite(d2),
        ensures
            d2[self.first() as int].len() > 0 ==> self.quiet(d2),
            forall|q: Seq<Set<int>>| #[trigger] self.quiet(q) && shrinks(q, d0) && nonempty_on(q, self.vars())
                ==> d2[self.first() as int].len() > 0 && d2[self.second() as int].len() > 0 && shrinks(q, d2),
    {
        let a = self.first() as int;
        let b = self.second() as int;
        if d2[a].len() > 0 {
            self.lemma_pruned_quiet(d0);
        }
        assert forall|q: Seq<Set<int>>| #[trigger] self.quiet(q) && shrinks(q, d0) && nonempty_on(q, self.vars())
            implies d2[a].len() > 0 && d2[b].len() > 0 && shrinks(q, d2) by {
            assert(self.vars()[0] == self.first() && self.vars()[1] == self.second());
            assert(q[a].len() > 0 && q[b].len() > 0);
            self.lemma_quiet_within_pruned(d0, q);
            lemma_nonempty_within(q[a], d2[a]);
            lemma_nonempty_within(q[b], d2[b]);
        }
    }

    /// Every narrowing of `d` with nothing to prune lies within the pruned domains.
    proof fn lemma_quiet_within_pruned(self, d: Seq<Set<int>>, q: Seq<Set<int>>)
        requires
            self.first() < d.len(),
            self.second() < d.len(),
            shrinks(q, d),
            self.quiet(q),
        ensures
            shrinks(q, self.pruned(d)),
    {
        reveal(LessThan::quiet);
        let a = self.first() as int;
        let b = self.second() as int;
        let r = self.pruned(d);
        let d1 = d.update(a, Set::new(|x: int| d[a].contains(x) && exists|w: int| d[b].contains(w) && x < w));
        assert forall|x: int| q[a].contains(x) implies r[a].contains(x) by {
            let w = choose|w: int| q[b].contains(w) && x < w;
            assert(q[b].subset_of(d[b]));
            assert(d[b].contains(w));
            assert(q[a].subset_of(d[a]));
        }
        assert forall|y: int| q[b].contains(y) implies r[b].contains(y) by {
            let u = choose|u: int| q[a].contains(u) && u < y;
            assert(r[a].contains(u));
            assert(d1[a].contains(u));
            assert(q[b].subset_of(d[b]));
        }
        assert forall|i: int| 0 <= i < q.len() implies #[trigger] q[i].subset_of(r[i]) by {
            assert(q[i].subset_of(d[i]));
        }
    }
}

impl<const W: usize> Constraint<W> for LessThan {
    open spec fn scope_view(&self) -> Seq<usize> {
        self.vars()
    }

    open spec fn holds(&self, values: Seq<int>) -> bool {
        self.satisfied(values)
    }

    open spec fn stable(&self, d: Seq<Set<int>>) -> bool {
        self.quiet(d)
    }

    proof fn lemma_stable_frame(&self, d1: Seq<Set<int>>, d2: Seq<Set<int>>) {
        reveal(LessThan::quiet);
        assert(self.vars()[0] == self.first() && self.vars()[1] == self.second());
        assert(d1[self.first() as int] == d2[self.first() as int]);
        assert(d1[self.second() as int] == d2[self.second() as int]);
    }

    fn scope(&self) -> (vars: &[usize]) {
        assert(self.scope@ =~= self.vars());
        self.scope.as_slice()
    }

    fn propagate(&self, domains: &mut Vec<BitSet<W>>) -> (r: Result<(), Contradiction>)
        ensures
            views(final(domains)@) == self.pruned(views(old(domains)@)),
            r == (if views(final(domains)@)[self.first() as int].len() == 0 {
                Err(Contradiction { variable: self.first() })
            } else if views(final(domains)@)[self.second() as int].len() == 0 {
                Err(Contradiction { variable: self.second() })
            } else {
                Ok(())
            }),
    {
        let a = self.scope[0];
        let b = self.scope[1];
        let ghost d0 = views(domains@);
        proof {
            assert(self.scope@[0] == a && self.scope@[1] == b);
            assert(self.vars().contains(a) && self.vars().contains(b)) by {
                assert(self.vars()[0] == a && self.vars()[1] == b);
            }
            assert(a < d0.len() && b < d0.len()) by {
                assert(self.vars()[0] == a && self.vars()[1] == b);
            }
            lemma_views_finite(domains@);
        }
        let probe = domains[a];
        proof {
            use_type_invariant(&probe);
        }
        if a == b {
            set_domain(domains, a, BitSet::empty());
            proof {
                lemma_views_finite(domains@);
                assert(views(domains@) == self.pruned(d0));
                assert(views(domains@)[a as int].len() == 0);
                assert forall|x: Seq<int>| consistent(x, d0) implies !#[trigger] self.satisfied(x) by {}
                assert(shrinks(views(domains@), d0));
                assert forall|q: Seq<Set<int>>| #[trigger] self.quiet(q) implies false by {
                    reveal(LessThan::quiet);
                }
            }
            return Err(Contradiction { variable: a });
        }
        // the first variable keeps the values below the largest value of the second
        let bvals = domains[b].to_vec();
        let mut da = domains[a];
        if bvals.len() > 0 {
            let maxb = bvals[bvals.len() - 1];
            let below = BitSet::<W>::full(maxb);
            da.intersect_with(&below);
            proof {
                assert forall|x: int| #[trigger] da@.contains(x) == (d0[a as int].contains(x) && exists|w: int| d0[b as int].contains(w) && x < w) by {
                    if d0[a as int].contains(x) && exists|w: int| d0[b as int].contains(w) && x < w {
                        let w = choose|w: int| d0[b as int].contains(w) && x < w;
                        let i = choose|i: int| 0 <= i < bvals.len() && bvals[i] == w;
                        if i < bvals.len() - 1 {
                            assert(bvals[i] < bvals[bvals.len() - 1]);
                        }
                        domains@[a as int].lemma_finite();
                    }
                    if da@.contains(x) {
                        assert(d0[b as int].contains(maxb as int)) by {
                            assert(bvals[bvals.len() - 1] == maxb);
                        }
                    }
                }
            }
        } else {
            da = BitSet::empty();
            proof {
                assert forall|w: int| !d0[b as int].contains(w) by {
                    if d0[b as int].contains(w) {
                        let i = choose|i: int| 0 <= i < bvals.len() && bvals[i] == w;
                    }
                }
            }
        }
        set_domain(domains, a, da);
        let ghost d1 = views(domains@);
        proof {
            assert(d1[a as int] =~= Set::new(|x: int| d0[a as int].contains(x) && exists|w: int| d0[b as int].contains(w) && x < w));
            assert(d1 == d0.update(a as int, Set::new(|x: int| d0[a as int].contains(x) && exists|w: int| d0[b as int].contains(w) && x < w)));
        }
        // the second variable keeps the values above the smallest value of the first
        let mut db = domains[b];
        match domains[a].min_value() {
            Some(mina) => {
                let upto = BitSet::<W>::full(mina + 1);
                let ghost db0 = db;
                db.subtract(&upto);
                proof {
                    da.lemma_finite();
                    db0.lemma_finite();
                    assert(db0@ == d1[b as int]);
                    assert forall|y: int| #[trigger] db@.contains(y) == (d1[b as int].contains(y) && exists|u: int| d1[a as int].contains(u) && u < y) by {
                        if d1[b as int].contains(y) && exists|u: int| d1[a as int].contains(u) && u < y {
                            let u = choose|u: int| d1[a as int].contains(u) && u < y;
                            assert(mina <= u);
                        }
                        if db@.contains(y) {
                            assert(d1[a as int].contains(mina as int));
                        }
                    }
                }
            },
            None => {
                db = BitSet::empty();
            },
        }
        set_domain(domains, b, db);
        let ghost d2 = views(domains@);
        proof {
            assert(d2[b as int] =~= Set::new(|y: int| d1[b as int].contains(y) && exists|u: int| d1[a as int].contains(u) && u < y));
            assert(d2 =~= self.pruned(d0));
            lemma_views_finite(domains@);
            assert(shrinks(d2, d0));
            assert(unchanged_outside(d2, d0, self.vars()));
            assert forall|x: Seq<int>| consistent(x, d0) && #[trigger] self.satisfied(x) implies consistent(x, d2) by {
                assert(d0[a as int].contains(x[a as int]) && d0[b as int].contains(x[b as int]));
                assert(d1[a as int].contains(x[a as int]));
                assert(consistent(x, d1));
            }
            lemma_empty_len(d2[a as int]);
            lemma_empty_len(d2[b as int]);
            if d2[a as int].len() > 0 && d2[b as int].len() > 0 {
                assert(nonempty_on(d2, self.vars()));
                if decided_on(d2, self.vars()) {
                    assert(d2[a as int].len() == 1 && d2[b as int].len() == 1) by {
                        assert(self.vars()[0] == a && self.vars()[1] == b);
                    }
                    lemma_single(d2[a as int]);
                    lemma_single(d2[b as int]);
                    assert forall|x: Seq<int>| consistent(x, d2) implies #[trigger] self.satisfied(x) by {
                        assert(d2[a as int].contains(x[a as int]) && d2[b as int].contains(x[b as int]));
                        let u = choose|u: int| d1[a as int].contains(u) && u < x[b as int];
                        assert(d2[a as int].contains(u));
                    }
                }
            } else {
                assert forall|x: Seq<int>| consistent(x, d0) implies !#[trigger] self.satisfied(x) by {
                    if self.satisfied(x) {
                        assert(consistent(x, d2));
                        assert(d2[a as int].contains(x[a as int]) && d2[b as int].contains(x[b as int]));
                    }
                }
            }
        }
        proof {
            self.lemma_prune_outcome(d0, d2);
        }
        if domains[a].is_empty() {
            return Err(Contradiction { variable: a });
        }
        if domains[b].is_empty() {
            return Err(Contradiction { variable: b });
        }
        Ok(())
    }
}

/// If variable A = val_a, then variable B must be in allowed_b set.
pub struct Implication<const W: usize> {
    scope: [usize; 2],
    pub val_a: usize,
    pub allowed_b: BitSet<W>,
}

impl<const W: usize> Implication<W> {
    /// The variable whose value triggers the rule.
    pub closed spec fn first(self) -> usize {
        self.scope@[0]
    }

    /// The variable that the rule restricts.
    pub closed spec fn second(self) -> usize {
        self.scope@[1]
    }

    /// The value of A that triggers the rule.
    pub closed spec fn trigger_value(self) -> usize {
        self.val_a
    }

    /// The values allowed to B when the rule fires.
    pub closed spec fn allowed(self) -> Set<int> {
        self.allowed_b@
    }

    /// The variables of the constraint.
    pub open spec fn vars(self) -> Seq<usize> {
        seq![self.first(), self.second()]
    }

    /// Whether `A = val_a` implies that B's value is allowed.
    pub open spec fn satisfied(self, values: Seq<int>) -> bool {
        values[self.first() as int] == self.trigger_value() ==> self.allowed().contains(values[self.second() as int])
    }

    /// A constraint that `a = val_a` implies `b ∈ allowed_b`.
    pub fn new(a: usize, val_a: usize, b: usize, allowed_b: BitSet<W>) -> (c: Self)
        ensures
            c.first() == a,
            c.second() == b,
            c.trigger_value() == val_a,
            c.allowed() == allowed_b@,
    {
        Self { scope: [a, b], val_a, allowed_b }
    }

    /// The domains after pruning: when A holds only `val_a`, B keeps only allowed values.
    pub open spec fn pruned(self, d: Seq<Set<int>>) -> Seq<Set<int>> {
        if d[self.first() as int] == set![self.trigger_value() as int] {
            d.update(self.second() as int, d[self.second() as int].intersect(self.allowed()))
        } else {
            d
        }
    }

    /// Pruning has nothing to remove: once the first variable holds the trigger value
    /// alone, the second holds allowed values only.
    pub open spec fn quiet(self, d: Seq<Set<int>>) -> bool {
        d[self.first() as int] == set![self.trigger_value() as int] ==> d[self.second() as int].subset_of(self.allowed())
    }

    /// Pruning leaves nothing more to prune.
    proof fn lemma_pruned_quiet(self, d: Seq<Set<int>>)
        requires
            self.first() < d.len(),
            self.second() < d.len(),
        ensures
            self.quiet(self.pruned(d)),
    {
        let a = self.first() as int;
        let b = self.second() as int;
        let r = self.pruned(d);
        if d[a] == set![self.val_a as int] && r[a] == set![self.val_a as int] {
            assert forall|e: int| r[b].contains(e) implies self.allowed_b@.contains(e) by {
                if a == b {
                    assert(r[a] == d[a].intersect(self.allowed_b@));
                }
            }
        }
    }

    /// Every narrowing of `d` with nothing to prune, whose first domain is nonempty, lies
    /// within the pruned domains.
    proof fn lemma_quiet_within_pruned(self, d: Seq<Set<int>>, q: Seq<Set<int>>)
        requires
            all_finite(d),
            self.first() < d.len(),
            self.second() < d.len(),
            shrinks(q, d),
            q[self.first() as int].len() > 0,
            self.quiet(q),
        ensures
            shrinks(q, self.pruned(d)),
    {
        let a = self.first() as int;
        let b = self.second() as int;
        let r = self.pruned(d);
        if d[a] == set![self.val_a as int] {
            assert(q[a].subset_of(d[a]));
            lemma_within_single(q[a], d[a], self.val_a as int);
            assert forall|i: int| 0 <= i < q.len() implies #[trigger] q[i].subset_of(r[i]) by {
                assert(q[i].subset_of(d[i]));
                if i == b {
                    assert forall|e: int| q[i].contains(e) implies r[i].contains(e) by {
                        assert(d[i].contains(e));
                        assert(self.allowed_b@.contains(e));
                    }
                }
            }
        }
    }
}

impl<const W: usize> Constraint<W> for Implication<W> {
    open spec fn scope_view(&self) -> Seq<usize> {
        self.vars()
    }

    open spec fn stable(&self, d: Seq<Set<int>>) -> bool {
        self.quiet(d)
    }

    proof fn lemma_stable_frame(&self, d1: Seq<Set<int>>, d2: Seq<Set<int>>) {
        assert(self.vars()[0] == self.first() && self.vars()[1] == self.second());
        assert(d1[self.first() as int] == d2[self.first() as int]);
        assert(d1[self.second() as int] == d2[self.second() as int]);
    }

    open spec fn holds(&self, values: Seq<int>) -> bool {
        self.satisfied(values)
    }

    fn scope(&self) -> (vars: &[usize]) {
        assert(self.scope@ =~= self.vars());
        self.scope.as_slice()
    }

    fn propagate(&self, domains: &mut Vec<BitSet<W>>) -> (r: Result<(), Contradiction>)
        ensures
            views(final(domains)@) == self.pruned(views(old(domains)@)),
            views(final(domains)@)[self.first() as int] == set![self.trigger_value() as int]
                ==> views(final(domains)@)[self.second() as int].subset_of(self.allowed()),
            r == (if views(final(domains)@)[self.second() as int].len() == 0 {
                Err(Contradiction { variable: self.second() })
            } else if views(final(domains)@)[self.first() as int].len() == 0 {
                Err(Contradiction { variable: self.first() })
            } else {
                Ok(())
            }),
    {
        let a = self.scope[0];
        let b = self.scope[1];
        let ghost d0 = views(domains@);
        proof {
            assert(self.scope@[0] == a && self.scope@[1] == b);
            assert(a < d0.len() && b < d0.len()) by {
                assert(self.vars()[0] == a && self.vars()[1] == b);
            }
            lemma_views_finite(domains@);
        }
        let single = domains[a].singleton_value();
        let fires = match single {
            Some(v) => v == self.val_a,
            None => false,
        };
        proof {
            domains@[a as int].lemma_finite();
            if d0[a as int] == set![self.val_a as int] {
                assert(d0[a as int].len() == 1);
                let v = single->0;
                assert(set![v as int].contains(self.val_a as int));
            }
            if fires {
                assert(d0[a as int] == set![self.val_a as int]);
            }
        }
        if fires {
            let mut db = domains[b];
            db.intersect_with(&self.allowed_b);
            set_domain(domains, b, db);
        }
        let ghost d2 = views(domains@);
        proof {
            assert(d2 =~= self.pruned(d0));
            lemma_views_finite(domains@);
            assert(shrinks(d2, d0));
            assert(unchanged_outside(d2, d0, self.vars()));
            assert forall|x: Seq<int>| consistent(x, d0) && #[trigger] self.satisfied(x) implies consistent(x, d2) by {
                assert(d0[a as int].contains(x[a as int]));
            }
            lemma_empty_len(d2[a as int]);
            lemma_empty_len(d2[b as int]);
            if d2[a as int].len() > 0 && d2[b as int].len() > 0 {
                assert(nonempty_on(d2, self.vars()));
                if decided_on(d2, self.vars()) {
                    assert(d2[a as int].len() == 1 && d2[b as int].len() == 1) by {
                        assert(self.vars()[0] == a && self.vars()[1] == b);
                    }
                    lemma_single(d2[a as int]);
                    lemma_single(d2[b as int]);
                    assert forall|x: Seq<int>| consistent(x, d2) implies #[trigger] self.satisfied(x) by {
                        assert(d2[a as int].contains(x[a as int]) && d2[b as int].contains(x[b as int]));
                        if x[a as int] == self.val_a && a != b {
                            assert(d2[a as int] == d0[a as int]);
                            assert(d0[a as int] =~= set![self.val_a as int]);
                        }
                    }
                }
            } else {
                assert forall|x: Seq<int>| consistent(x, d0) implies !#[trigger] self.satisfied(x) by {
                    if self.satisfied(x) {
                        assert(consistent(x, d2));
                        assert(d2[a as int].contains(x[a as int]) && d2[b as int].contains(x[b as int]));
                    }
                }
            }
        }
        proof {
            self.lemma_pruned_quiet(d0);
            assert forall|q: Seq<Set<int>>| #[trigger] self.quiet(q) && shrinks(q, d0) && nonempty_on(q, self.vars())
                implies d2[a as int].len() > 0 && d2[b as int].len() > 0 && shrinks(q, d2) by {
                assert(self.vars()[0] == a && self.vars()[1] == b);
                assert(q[a as int].len() > 0 && q[b as int].len() > 0);
                self.lemma_quiet_within_pruned(d0, q);
                lemma_nonempty_within(q[a as int], d2[a as int]);
                lemma_nonempty_within(q[b as int], d2[b as int]);
            }
        }
        if domains[b].is_empty() {
            return Err(Contradiction { variable: b });
        }
        if domains[a].is_empty() {
            return Err(Contradiction { variable: a });
        }
        Ok(())
    }
}


/// The first position of `vars` whose domain is empty, if any.
pub fn first_empty<const W: usize>(domains: &Vec<BitSet<W>>, vars: &[usize]) -> (r: Option<usize>)
    requires
        in_bounds(vars@, domains@.len()),
    ensures
        match r {
            Some(k) => {
                &&& k < vars@.len()
                &&& views(domains@)[vars@[k as int] as int].len() == 0
                &&& forall|j: int| 0 <= j < k ==> #[trigger] views(domains@)[vars@[j] as int].len() > 0
            },
            None => nonempty_on(views(domains@), vars@),
        },
{
    let mut k: usize = 0;
    while k < vars.len()
        invariant
            in_bounds(vars@, domains@.len()),
            k <= vars.len(),
            forall|j: int| 0 <= j < k ==> #[trigger] views(domains@)[vars@[j] as int].len() > 0,
        decreases vars.len() - k,
    {
        let empty = domains[vars[k]].is_empty();
        proof {
            domains@[vars@[k as int] as int].lemma_finite();
            lemma_empty_len(views(domains@)[vars@[k as int] as int]);
        }
        if empty {
            return Some(k);
        }
        k = k + 1;
    }
    None
}

/// All variables in scope must take different values.
pub struct AllDifferent {
    pub variables: Vec<usize>,
}

impl AllDifferent {
    /// A constraint that the variables all take different values.
    pub fn new(variables: &[usize]) -> (c: Self)
        ensures
            c.variables@ == variables@,
    {
        Self { variables: vstd::slice::slice_to_vec(variables) }
    }

    /// The variables of the constraint.
    pub open spec fn vars(self) -> Seq<usize> {
        self.variables@
    }

    /// Whether any two positions of the scope take different values.
    pub open spec fn satisfied(self, values: Seq<int>) -> bool {
        forall|i: int, j: int|
            0 <= i < j < self.variables@.len() ==> values[#[trigger] self.variables@[i] as int] != values[#[trigger] self.variables@[j] as int]
    }

    /// No value decided at one position is left at another.
    pub open spec fn distinct_decided(self, d: Seq<Set<int>>) -> bool {
        forall|i: int, j: int|
            0 <= i < self.variables@.len() && 0 <= j < self.variables@.len() && i != j
                && #[trigger] d[self.variables@[i] as int].len() == 1
                ==> !#[trigger] d[self.variables@[j] as int].contains(the_value(d[self.variables@[i] as int]))
    }

    /// `r` narrows `d`, keeps a value for every variable of the scope, and leaves no
    /// decided value at another position.
    pub open spec fn closed_narrowing(self, r: Seq<Set<int>>, d: Seq<Set<int>>) -> bool {
        &&& shrinks(r, d)
        &&& nonempty_on(r, self.vars())
        &&& self.distinct_decided(r)
    }

    /// In such a narrowing of finite domains, a position whose domain lies within `{v}`
    /// holds `v` alone, so no other position holds `v`.
    proof fn lemma_decided_excludes(self, r: Seq<Set<int>>, d: Seq<Set<int>>, i: int, j: int, v: int)
        requires
            self.closed_narrowing(r, d),
            all_finite(d),
            in_bounds(self.vars(), d.len()),
            0 <= i < self.vars().len(),
            0 <= j < self.vars().len(),
            i != j,
            r[self.vars()[i] as int].subset_of(set![v]),
        ensures
            !r[self.vars()[j] as int].contains(v),
    {
        let x = self.vars()[i] as int;
        assert(r[x].subset_of(d[x]));
        vstd::set_lib::lemma_set_subset_finite(d[x], r[x]);
        assert(r[x].len() > 0);
        if !r[x].contains(v) {
            assert(r[x] =~= Set::<int>::empty());
        }
        assert(r[x] =~= set![v]);
        assert(r[x].len() == 1);
        lemma_single(r[x]);
        assert(the_value(r[x]) == v);
    }
}

impl<const W: usize> Constraint<W> for AllDifferent {
    open spec fn scope_view(&self) -> Seq<usize> {
        self.vars()
    }

    open spec fn holds(&self, values: Seq<int>) -> bool {
        self.satisfied(values)
    }

    open spec fn stable(&self, d: Seq<Set<int>>) -> bool {
        self.distinct_decided(d)
    }

    proof fn lemma_stable_frame(&self, d1: Seq<Set<int>>, d2: Seq<Set<int>>) {
        let vs = self.variables@;
        assert forall|i: int| 0 <= i < vs.len() implies #[trigger] d1[vs[i] as int] == d2[vs[i] as int] by {
            assert(self.vars()[i] == vs[i]);
        }
        if self.distinct_decided(d1) {
            assert forall|i: int, j: int|
                0 <= i < vs.len() && 0 <= j < vs.len() && i != j && #[trigger] d2[vs[i] as int].len() == 1
                    implies !#[trigger] d2[vs[j] as int].contains(the_value(d2[vs[i] as int])) by {
                assert(d1[vs[i] as int] == d2[vs[i] as int]);
                assert(d1[vs[j] as int] == d2[vs[j] as int]);
            }
        }
        if self.distinct_decided(d2) {
            assert forall|i: int, j: int|
                0 <= i < vs.len() && 0 <= j < vs.len() && i != j && #[trigger] d1[vs[i] as int].len() == 1
                    implies !#[trigger] d1[vs[j] as int].contains(the_value(d1[vs[i] as int])) by {
                assert(d1[vs[i] as int] == d2[vs[i] as int]);
                assert(d1[vs[j] as int] == d2[vs[j] as int]);
            }
        }
    }

    fn scope(&self) -> (vars: &[usize]) {
        self.variables.as_slice()
    }

    fn propagate(&self, domains: &mut Vec<BitSet<W>>) -> (r: Result<(), Contradiction>)
        ensures
            r is Ok ==> self.distinct_decided(views(final(domains)@)),
            r is Ok ==> forall|q: Seq<Set<int>>| #[trigger] self.closed_narrowing(q, views(old(domains)@))
                ==> shrinks(q, views(final(domains)@)),
            r is Err ==> forall|q: Seq<Set<int>>| !#[trigger] self.closed_narrowing(q, views(old(domains)@)),
            match r {
                Ok(()) => nonempty_on(views(final(domains)@), self.vars()),
                Err(c) => exists|k: int| 0 <= k < self.vars().len() && self.vars()[k] == c.variable
                    && #[trigger] views(final(domains)@)[self.vars()[k] as int].len() == 0,
            },
    {
        let vars = self.variables.as_slice();
        let n = vars.len();
        let ghost d0 = views(domains@);
        let ghost vs = vars@;
        proof {
            lemma_views_finite(domains@);
        }
        loop
            invariant
                vars@ == vs,
                vs == self.vars(),
                n == vs.len(),
                in_bounds(vs, domains@.len()),
                domains@.len() == d0.len(),
                d0 == views(old(domains)@),
                all_finite(d0),
                shrinks(views(domains@), d0),
                unchanged_outside(views(domains@), d0, vs),
                forall|x: Seq<int>| consistent(x, d0) && #[trigger] self.satisfied(x) ==> consistent(x, views(domains@)),
                forall|q: Seq<Set<int>>| #[trigger] self.closed_narrowing(q, d0) ==> shrinks(q, views(domains@)),
            ensures
                vars@ == vs,
                forall|q: Seq<Set<int>>| #[trigger] self.closed_narrowing(q, d0) ==> shrinks(q, views(domains@)),
                in_bounds(vs, domains@.len()),
                domains@.len() == d0.len(),
                shrinks(views(domains@), d0),
                unchanged_outside(views(domains@), d0, vs),
                forall|x: Seq<int>| consistent(x, d0) && #[trigger] self.satisfied(x) ==> consistent(x, views(domains@)),
                self.distinct_decided(views(domains@)),
            decreases crate::domain::total_size(views(domains@)),
        {
            let ghost dp = views(domains@);
            proof {
                lemma_views_finite(domains@);
            }
            let mut changed = false;
            let mut i: usize = 0;
            while i < n
                invariant
                    vars@ == vs,
                    vs == self.vars(),
                    n == vs.len(),
                    in_bounds(vs, domains@.len()),
                    domains@.len() == d0.len(),
                    all_finite(d0),
                    all_finite(dp),
                    dp.len() == d0.len(),
                    shrinks(views(domains@), dp),
                    shrinks(dp, d0),
                    shrinks(views(domains@), d0),
                    unchanged_outside(views(domains@), d0, vs),
                    forall|x: Seq<int>| consistent(x, d0) && #[trigger] self.satisfied(x) ==> consistent(x, views(domains@)),
                    forall|q: Seq<Set<int>>| #[trigger] self.closed_narrowing(q, d0) ==> shrinks(q, views(domains@)),
                    i <= n,
                    !changed ==> views(domains@) == dp,
                    changed ==> exists|u: int, e: int| 0 <= u < dp.len() && dp[u].contains(e) && !#[trigger] views(domains@)[u].contains(e),
                    !changed ==> forall|i2: int, j: int|
                        0 <= i2 < i && 0 <= j < n && i2 != j && #[trigger] dp[vs[i2] as int].len() == 1
                            ==> !#[trigger] dp[vs[j] as int].contains(the_value(dp[vs[i2] as int])),
                decreases n - i,
            {
                let single = domains[vars[i]].singleton_value();
                if let Some(v) = single {
                    let ghost di = views(domains@);
                    proof {
                        domains@[vs[i as int] as int].lemma_finite();
                        lemma_single(di[vs[i as int] as int]);
                        assert(the_value(di[vs[i as int] as int]) == v) by {
                            assert(set![v as int].contains(the_value(di[vs[i as int] as int])));
                        }
                    }
                    let mut j: usize = 0;
                    while j < n
                        invariant
                            vars@ == vs,
                            vs == self.vars(),
                            n == vs.len(),
                            i < n,
                            in_bounds(vs, domains@.len()),
                            domains@.len() == d0.len(),
                            all_finite(d0),
                            di[vs[i as int] as int] == set![v as int],
                            views(domains@)[vs[i as int] as int] == set![v as int] || changed,
                            shrinks(views(domains@), di),
                            shrinks(di, dp),
                            shrinks(dp, d0),
                            shrinks(views(domains@), d0),
                            unchanged_outside(views(domains@), d0, vs),
                            forall|x: Seq<int>| consistent(x, d0) && #[trigger] self.satisfied(x) ==> consistent(x, views(domains@)),
                            forall|x: Seq<int>| consistent(x, d0) && #[trigger] self.satisfied(x) ==> consistent(x, di),
                            forall|q: Seq<Set<int>>| #[trigger] self.closed_narrowing(q, d0) ==> shrinks(q, views(domains@)),
                            !changed ==> di == dp,
                            j <= n,
                            !changed ==> views(domains@) == dp,
                            changed ==> exists|u: int, e: int| 0 <= u < dp.len() && dp[u].contains(e) && !#[trigger] views(domains@)[u].contains(e),
                            shrinks(views(domains@), dp),
                            !changed ==> forall|j2: int| 0 <= j2 < j && j2 != i ==> !#[trigger] dp[vs[j2] as int].contains(v as int),
                        decreases n - j,
                    {
                        if j != i {
                            let ghost dj = views(domains@);
                            let removed = remove_value(domains, vars[j], v);
                            proof {
                                let x = vs[j as int] as int;
                                assert(views(domains@) == dj.update(x, dj[x].remove(v as int)));
                                assert forall|y: Seq<int>| consistent(y, d0) && #[trigger] self.satisfied(y) implies consistent(y, views(domains@)) by {
                                    assert(consistent(y, dj));
                                    assert(consistent(y, di));
                                    assert(di[vs[i as int] as int].contains(y[vs[i as int] as int]));
                                    assert(y[vs[i as int] as int] == v);
                                    if i < j {
                                        assert(y[vs[i as int] as int] != y[vs[j as int] as int]);
                                    } else {
                                        assert(y[vs[j as int] as int] != y[vs[i as int] as int]);
                                    }
                                    assert forall|u: int| 0 <= u < y.len() implies #[trigger] views(domains@)[u].contains(y[u]) by {
                                        assert(dj[u].contains(y[u]));
                                    }
                                }
                                assert forall|q: Seq<Set<int>>| #[trigger] self.closed_narrowing(q, d0) implies shrinks(q, views(domains@)) by {
                                    assert(shrinks(q, dj));
                                    let xi = vs[i as int] as int;
                                    assert(q[xi].subset_of(dj[xi]));
                                    assert(dj[xi].subset_of(di[xi]));
                                    assert(q[xi].subset_of(set![v as int])) by {
                                        assert forall|e: int| q[xi].contains(e) implies set![v as int].contains(e) by {
                                            assert(dj[xi].contains(e));
                                            assert(di[xi].contains(e));
                                        }
                                    }
                                    self.lemma_decided_excludes(q, d0, i as int, j as int, v as int);
                                    assert forall|u: int| 0 <= u < d0.len() implies #[trigger] q[u].subset_of(views(domains@)[u]) by {
                                        assert(q[u].subset_of(dj[u]));
                                        if u == x {
                                            assert forall|e: int| q[u].contains(e) implies views(domains@)[u].contains(e) by {
                                                assert(dj[u].contains(e));
                                            }
                                        }
                                    }
                                }
                                assert forall|u: int| 0 <= u < d0.len() implies #[trigger] views(domains@)[u].subset_of(dp[u]) by {
                                    assert(dj[u].subset_of(dp[u]));
                                }
                                assert forall|u: int| 0 <= u < d0.len() implies #[trigger] views(domains@)[u].subset_of(d0[u]) by {
                                    assert(dj[u].subset_of(d0[u]));
                                }
                                assert forall|u: int| 0 <= u < d0.len() implies #[trigger] views(domains@)[u].subset_of(di[u]) by {
                                    assert(dj[u].subset_of(di[u]));
                                }
                                if removed {
                                    if !changed {
                                        assert(dp[x].contains(v as int));
                                        assert(!views(domains@)[x].contains(v as int));
                                    }
                                }
                                if changed {
                                    let (u, e) = choose|u: int, e: int| 0 <= u < dp.len() && dp[u].contains(e) && !#[trigger] dj[u].contains(e);
                                    assert(!views(domains@)[u].contains(e));
                                }
                                if vs[j as int] == vs[i as int] {
                                    if !changed {
                                        assert(dj[x].contains(v as int));
                                    }
                                } else {
                                    assert(views(domains@)[vs[i as int] as int] == dj[vs[i as int] as int]);
                                }
                                if !removed {
                                    assert(dj[x].remove(v as int) =~= dj[x]);
                                    assert(views(domains@) =~= dj);
                                }
                            }
                            if removed {
                                changed = true;
                            }
                        }
                        j = j + 1;
                    }
                    proof {
                        if !changed {
                            assert forall|i2: int, j: int|
                                0 <= i2 < i + 1 && 0 <= j < n && i2 != j && #[trigger] dp[vs[i2] as int].len() == 1
                                    implies !#[trigger] dp[vs[j] as int].contains(the_value(dp[vs[i2] as int])) by {
                                if i2 == i {
                                    assert(the_value(dp[vs[i as int] as int]) == v);
                                }
                            }
                        }
                    }
                } else {
                    proof {
                        if !changed {
                            domains@[vs[i as int] as int].lemma_finite();
                            assert(dp[vs[i as int] as int].len() != 1);
                        }
                    }
                }
                i = i + 1;
            }
            proof {
                lemma_views_finite(domains@);
                if changed {
                    let (u, e) = choose|u: int, e: int| 0 <= u < dp.len() && dp[u].contains(e) && !#[trigger] views(domains@)[u].contains(e);
                    assert(views(domains@)[u] != dp[u]);
                }
                crate::domain::lemma_total_size_shrinks(views(domains@), dp);
                lemma_views_finite(old(domains)@);
            }
            if !changed {
                break;
            }
        }
        let ghost df = views(domains@);
        let empty = first_empty(domains, vars);
        proof {
            lemma_views_finite(domains@);
            assert(df == views(domains@));
            if empty is None {
                assert(nonempty_on(df, vs));
                if decided_on(df, vs) {
                    assert forall|x: Seq<int>| consistent(x, df) implies #[trigger] self.satisfied(x) by {
                        assert forall|i: int, j: int| 0 <= i < j < vs.len() implies x[#[trigger] vs[i] as int] != x[#[trigger] vs[j] as int] by {
                            assert(df[vs[i] as int].len() == 1);
                            lemma_single(df[vs[i] as int]);
                            assert(df[vs[i] as int].contains(x[vs[i] as int]));
                            assert(df[vs[j] as int].contains(x[vs[j] as int]));
                            assert(!df[vs[j] as int].contains(the_value(df[vs[i] as int])));
                        }
                    }
                }
            } else {
                let k = empty->0;
                assert forall|q: Seq<Set<int>>| !#[trigger] self.closed_narrowing(q, d0) by {
                    if self.closed_narrowing(q, d0) {
                        let xk = vs[k as int] as int;
                        assert(q[xk].subset_of(df[xk]));
                        lemma_empty_len(df[xk]);
                        assert(q[xk].subset_of(d0[xk]));
                        vstd::set_lib::lemma_set_subset_finite(d0[xk], q[xk]);
                        assert(q[xk] =~= Set::<int>::empty());
                        assert(q[xk].len() > 0);
                    }
                }
                assert forall|x: Seq<int>| consistent(x, d0) implies !#[trigger] self.satisfied(x) by {
                    if self.satisfied(x) {
                        assert(consistent(x, df));
                        assert(df[vs[k as int] as int].contains(x[vs[k as int] as int]));
                    }
                }
            }
        }
        proof {
            assert forall|q: Seq<Set<int>>|
                #[trigger] self.distinct_decided(q) && shrinks(q, d0) && nonempty_on(q, self.vars())
                implies empty is None && shrinks(q, views(domains@)) by {
                assert(self.closed_narrowing(q, d0));
            }
        }
        match empty {
            Some(k) => Err(Contradiction { variable: vars[k] }),
            None => Ok(()),
        }
    }
}


/// The number of `true` entries.
pub open spec fn count_true(s: Seq<bool>) -> nat
    decreases s.len(),
{
    if s.len() == 0 {
        0
    } else {
        count_true(s.drop_last()) + if s.last() { 1nat } else { 0nat }
    }
}

/// Counting the entries of a prefix one more entry at a time.
proof fn lemma_count_take(s: Seq<bool>, i: int)
    requires
        0 <= i < s.len(),
    ensures
        count_true(s.take(i + 1)) == count_true(s.take(i)) + if s[i] { 1nat } else { 0nat },
{
    assert(s.take(i + 1).drop_last() =~= s.take(i));
}

/// When every entry of `s` implies that of `t`, `s` counts no more, and it counts as many
/// only when the entries are the same.
proof fn lemma_count_sub(s: Seq<bool>, t: Seq<bool>)
    requires
        s.len() == t.len(),
        forall|i: int| 0 <= i < s.len() && #[trigger] s[i] ==> t[i],
    ensures
        count_true(s) <= count_true(t),
        count_true(s) == count_true(t) ==> forall|i: int| 0 <= i < s.len() && #[trigger] t[i] ==> s[i],
    decreases s.len(),
{
    if s.len() > 0 {
        let n = s.len() - 1;
        assert forall|i: int| 0 <= i < s.drop_last().len() && #[trigger] s.drop_last()[i] implies t.drop_last()[i] by {
            assert(s[i]);
        }
        lemma_count_sub(s.drop_last(), t.drop_last());
        if count_true(s) == count_true(t) {
            assert forall|i: int| 0 <= i < s.len() && #[trigger] t[i] implies s[i] by {
                if i < n {
                    assert(t.drop_last()[i]);
                }
            }
        }
    }
}

/// Exactly N variables in scope must take a specific value.
pub struct ExactlyN {
    pub variables: Vec<usize>,
    pub value: usize,
    pub count: usize,
}

impl ExactlyN {
    /// A constraint that exactly `count` of the variables take `value`.
    pub fn new(variables: &[usize], value: usize, count: usize) -> (c: Self)
        ensures
            c.variables@ == variables@,
            c.value == value,
            c.count == count,
    {
        Self { variables: vstd::slice::slice_to_vec(variables), value, count }
    }

    /// The variables of the constraint.
    pub open spec fn vars(self) -> Seq<usize> {
        self.variables@
    }

    /// Which positions of the scope take the value.
    pub open spec fn occurrences(self, values: Seq<int>) -> Seq<bool> {
        Seq::new(self.variables@.len(), |i: int| values[self.variables@[i] as int] == self.value)
    }

    /// Which positions of the scope must take the value.
    pub open spec fn musts(self, d: Seq<Set<int>>) -> Seq<bool> {
        Seq::new(self.variables@.len(), |i: int| d[self.variables@[i] as int] == set![self.value as int])
    }

    /// Which positions of the scope can take the value.
    pub open spec fn cans(self, d: Seq<Set<int>>) -> Seq<bool> {
        Seq::new(self.variables@.len(), |i: int| d[self.variables@[i] as int].contains(self.value as int))
    }

    /// Whether exactly `count` positions take the value.
    pub open spec fn satisfied(self, values: Seq<int>) -> bool {
        count_true(self.occurrences(values)) == self.count
    }

    /// Whether the counts of positions that must and can take the value rule out every assignment.
    pub open spec fn out_of_reach(self, d: Seq<Set<int>>) -> bool {
        count_true(self.musts(d)) > self.count || count_true(self.cans(d)) < self.count
    }

    /// The domains after pruning: when the count cannot be met, the first variable's
    /// domain is emptied; when as many positions must take the value as needed, the
    /// others lose it; when only as many can take it as needed, they all take it.
    pub open spec fn pruned(self, d: Seq<Set<int>>) -> Seq<Set<int>> {
        if self.out_of_reach(d) {
            if self.variables@.len() > 0 {
                d.update(self.variables@[0] as int, Set::empty())
            } else {
                d
            }
        } else if count_true(self.musts(d)) == self.count {
            Seq::new(d.len(), |x: int|
                if self.variables@.contains(x as usize) && d[x] != set![self.value as int] {
                    d[x].remove(self.value as int)
                } else {
                    d[x]
                })
        } else if count_true(self.cans(d)) == self.count {
            Seq::new(d.len(), |x: int|
                if self.variables@.contains(x as usize) && d[x].contains(self.value as int) {
                    set![self.value as int]
                } else {
                    d[x]
                })
        } else {
            d
        }
    }

    /// The variable a contradiction found by counting reports.
    pub open spec fn counting_culprit(self) -> usize {
        if self.variables@.len() > 0 {
            self.variables@[0]
        } else {
            0
        }
    }

    /// A must position takes the value and a position that takes it can take it.
    proof fn lemma_counts(self, d: Seq<Set<int>>, values: Seq<int>)
        requires
            consistent(values, d),
            in_bounds(self.vars(), d.len()),
        ensures
            count_true(self.musts(d)) <= count_true(self.occurrences(values)),
            count_true(self.occurrences(values)) <= count_true(self.cans(d)),
            count_true(self.musts(d)) == count_true(self.occurrences(values)) ==> forall|i: int|
                0 <= i < self.vars().len() && #[trigger] self.occurrences(values)[i] ==> self.musts(d)[i],
            count_true(self.occurrences(values)) == count_true(self.cans(d)) ==> forall|i: int|
                0 <= i < self.vars().len() && #[trigger] self.cans(d)[i] ==> self.occurrences(values)[i],
    {
        let vs = self.variables@;
        assert forall|i: int| 0 <= i < vs.len() && #[trigger] self.musts(d)[i] implies self.occurrences(values)[i] by {
            assert(d[vs[i] as int].contains(values[vs[i] as int]));
            assert(set![self.value as int].contains(values[vs[i] as int]));
        }
        lemma_count_sub(self.musts(d), self.occurrences(values));
        assert forall|i: int| 0 <= i < vs.len() && #[trigger] self.occurrences(values)[i] implies self.cans(d)[i] by {
            assert(d[vs[i] as int].contains(values[vs[i] as int]));
        }
        lemma_count_sub(self.occurrences(values), self.cans(d));
    }

    /// Pruning has nothing to remove and the counts leave room for an assignment: when
    /// as many positions must, or can, take the value as needed, every position that can
    /// take it must.
    pub open spec fn quiet(self, d: Seq<Set<int>>) -> bool {
        &&& !self.out_of_reach(d)
        &&& (count_true(self.musts(d)) == self.count || count_true(self.cans(d)) == self.count)
            ==> forall|i: int| 0 <= i < self.vars().len() && #[trigger] self.cans(d)[i] ==> self.musts(d)[i]
    }

    /// Pruning domains whose counts leave room leaves nothing more to prune.
    proof fn lemma_pruned_quiet(self, d: Seq<Set<int>>)
        requires
            in_bounds(self.vars(), d.len()),
            !self.out_of_reach(d),
        ensures
            self.quiet(self.pruned(d)),
    {
        let vs = self.variables@;
        let r = self.pruned(d);
        let val = self.value as int;
        if count_true(self.musts(d)) == self.count {
            assert forall|i: int| 0 <= i < vs.len() implies #[trigger] self.musts(r)[i] == self.musts(d)[i]
                && (self.cans(r)[i] == self.musts(d)[i]) by {
                let x = vs[i] as int;
                assert(vs.contains(vs[i]));
                if d[x] != set![val] {
                    assert(!r[x].contains(val));
                    assert(r[x] != set![val]) by {
                        assert(set![val].contains(val));
                    }
                }
            }
            assert(self.musts(r) =~= self.musts(d));
            assert(self.cans(r) =~= self.musts(d));
        } else if count_true(self.cans(d)) == self.count {
            assert forall|i: int| 0 <= i < vs.len() implies #[trigger] self.musts(r)[i] == self.cans(d)[i]
                && (self.cans(r)[i] == self.cans(d)[i]) by {
                let x = vs[i] as int;
                assert(vs.contains(vs[i]));
                if !d[x].contains(val) {
                    assert(r[x] == d[x]);
                    assert(r[x] != set![val]) by {
                        assert(set![val].contains(val));
                    }
                } else {
                    assert(set![val].contains(val));
                }
            }
            assert(self.musts(r) =~= self.cans(d));
            assert(self.cans(r) =~= self.cans(d));
        }
    }

    /// In a narrowing that keeps every domain of the scope nonempty, a position that
    /// must take the value still must, and one that can take it could before; so the
    /// counts only move apart.
    proof fn lemma_counts_narrow(self, d: Seq<Set<int>>, q: Seq<Set<int>>)
        requires
            in_bounds(self.vars(), d.len()),
            all_finite(d),
            shrinks(q, d),
            nonempty_on(q, self.vars()),
        ensures
            forall|i: int| 0 <= i < self.vars().len() && #[trigger] self.musts(d)[i] ==> self.musts(q)[i],
            forall|i: int| 0 <= i < self.vars().len() && #[trigger] self.cans(q)[i] ==> self.cans(d)[i],
            count_true(self.musts(d)) <= count_true(self.musts(q)),
            count_true(self.cans(q)) <= count_true(self.cans(d)),
    {
        let vs = self.variables@;
        let val = self.value as int;
        assert forall|i: int| 0 <= i < vs.len() && #[trigger] self.musts(d)[i] implies self.musts(q)[i] by {
            let x = vs[i] as int;
            assert(q[x].subset_of(d[x]));
            assert(q[x].len() > 0);
            lemma_within_single(q[x], d[x], val);
        }
        assert forall|i: int| 0 <= i < vs.len() && #[trigger] self.cans(q)[i] implies self.cans(d)[i] by {
            let x = vs[i] as int;
            assert(q[x].subset_of(d[x]));
        }
        lemma_count_sub(self.musts(d), self.musts(q));
        lemma_count_sub(self.cans(q), self.cans(d));
    }

    /// A narrowing with nothing to prune, keeping every domain of the scope nonempty,
    /// lies within the pruned domains, and its existence means the counts leave room.
    proof fn lemma_quiet_within_pruned(self, d: Seq<Set<int>>, q: Seq<Set<int>>)
        requires
            in_bounds(self.vars(), d.len()),
            all_finite(d),
            shrinks(q, d),
            nonempty_on(q, self.vars()),
            self.quiet(q),
            d.len() <= usize::MAX,
        ensures
            !self.out_of_reach(d),
            shrinks(q, self.pruned(d)),
    {
        let vs = self.variables@;
        let val = self.value as int;
        let r = self.pruned(d);
        self.lemma_counts_narrow(d, q);
        if count_true(self.musts(d)) == self.count {
            lemma_count_sub(self.musts(d), self.musts(q));
            assert forall|x: int| 0 <= x < q.len() implies #[trigger] q[x].subset_of(r[x]) by {
                assert(q[x].subset_of(d[x]));
                if vs.contains(x as usize) && d[x] != set![val] {
                    let i = choose|i: int| 0 <= i < vs.len() && vs[i] == x as usize;
                    assert(vs[i] as int == x);
                    if q[x].contains(val) {
                        assert(self.cans(q)[i]);
                        assert(self.musts(q)[i]);
                        assert(self.musts(d)[i]);
                    }
                    assert forall|e: int| q[x].contains(e) implies r[x].contains(e) by {
                        assert(d[x].contains(e));
                    }
                }
            }
        } else if count_true(self.cans(d)) == self.count {
            lemma_count_sub(self.cans(q), self.cans(d));
            assert forall|x: int| 0 <= x < q.len() implies #[trigger] q[x].subset_of(r[x]) by {
                assert(q[x].subset_of(d[x]));
                if vs.contains(x as usize) && d[x].contains(val) {
                    let i = choose|i: int| 0 <= i < vs.len() && vs[i] == x as usize;
                    assert(vs[i] as int == x);
                    assert(self.cans(d)[i]);
                    assert(self.cans(q)[i]);
                    assert(self.musts(q)[i]);
                    assert(q[x] == set![val]);
                }
            }
        }
    }
}

impl<const W: usize> Constraint<W> for ExactlyN {
    open spec fn scope_view(&self) -> Seq<usize> {
        self.vars()
    }

    open spec fn holds(&self, values: Seq<int>) -> bool {
        self.satisfied(values)
    }

    open spec fn stable(&self, d: Seq<Set<int>>) -> bool {
        self.quiet(d)
    }

    proof fn lemma_stable_frame(&self, d1: Seq<Set<int>>, d2: Seq<Set<int>>) {
        let vs = self.variables@;
        assert forall|i: int| 0 <= i < vs.len() implies #[trigger] d1[vs[i] as int] == d2[vs[i] as int] by {
            assert(self.vars()[i] == vs[i]);
        }
        assert(self.musts(d1) =~= self.musts(d2));
        assert(self.cans(d1) =~= self.cans(d2));
    }

    fn scope(&self) -> (vars: &[usize]) {
        self.variables.as_slice()
    }

    fn propagate(&self, domains: &mut Vec<BitSet<W>>) -> (r: Result<(), Contradiction>)
        ensures
            views(final(domains)@) == self.pruned(views(old(domains)@)),
            self.out_of_reach(views(old(domains)@)) ==> r == Err::<(), Contradiction>(Contradiction { variable: self.counting_culprit() }),
            r is Ok ==> (
                crate::laws::positions_where(self.variables@, views(final(domains)@), |s: Set<int>| s.contains(self.value as int)) == self.count
                || crate::laws::positions_where(self.variables@, views(final(domains)@), |s: Set<int>| s == set![self.value as int]) == self.count)
                ==> forall|j: int| 0 <= j < self.variables@.len()
                    && #[trigger] views(final(domains)@)[self.variables@[j] as int].contains(self.value as int)
                    ==> views(final(domains)@)[self.variables@[j] as int] == set![self.value as int],
            !self.out_of_reach(views(old(domains)@)) ==> match r {
                Ok(()) => nonempty_on(views(final(domains)@), self.vars()),
                Err(c) => exists|k: int| 0 <= k < self.vars().len() && self.vars()[k] == c.variable
                    && #[trigger] views(final(domains)@)[self.vars()[k] as int].len() == 0,
            },
    {
        let vars = self.variables.as_slice();
        let n = vars.len();
        let value = self.value;
        let ghost d0 = views(domains@);
        let ghost vs = vars@;
        let dlen = domains.len();
        proof {
            lemma_views_finite(domains@);
        }
        // count the positions that must and that can take the value
        let mut must: usize = 0;
        let mut can: usize = 0;
        let mut i: usize = 0;
        while i < n
            invariant
                vars@ == vs,
                vs == self.vars(),
                n == vs.len(),
                in_bounds(vs, domains@.len()),
                d0 == views(domains@),
                value == self.value,
                i <= n,
                must == count_true(self.musts(d0).take(i as int)),
                can == count_true(self.cans(d0).take(i as int)),
                must <= i,
                can <= i,
            decreases n - i,
        {
            let x = vars[i];
            let single = domains[x].singleton_value();
            let is_must = match single {
                Some(v) => v == value,
                None => false,
            };
            let is_can = domains[x].contains(value);
            proof {
                lemma_count_take(self.musts(d0), i as int);
                lemma_count_take(self.cans(d0), i as int);
                domains@[x as int].lemma_finite();
                if d0[x as int] == set![value as int] {
                    assert(d0[x as int].len() == 1);
                    assert(set![single->0 as int].contains(value as int));
                }
            }
            if is_must {
                must = must + 1;
            }
            if is_can {
                can = can + 1;
            }
            i = i + 1;
        }
        proof {
            assert(self.musts(d0).take(n as int) =~= self.musts(d0));
            assert(self.cans(d0).take(n as int) =~= self.cans(d0));
        }
        if must > self.count || can < self.count {
            proof {
                if n == 0 {
                    assert(views(domains@) =~= self.pruned(d0));
                }
                assert forall|x: Seq<int>| consistent(x, d0) implies !#[trigger] self.satisfied(x) by {
                    self.lemma_counts(d0, x);
                }
            }
            proof {
                lemma_views_finite(old(domains)@);
                assert(self.out_of_reach(d0));
                assert forall|q: Seq<Set<int>>| #[trigger] self.quiet(q) && shrinks(q, d0) && nonempty_on(q, self.vars())
                    implies false by {
                    self.lemma_quiet_within_pruned(d0, q);
                }
            }
            let culprit = if n > 0 { vars[0] } else { 0 };
            if n > 0 {
                proof {
                    assert(vs[0] == culprit);
                    assert(culprit < domains@.len());
                }
                let first = domains[culprit];
                proof {
                    use_type_invariant(&first);
                }
                set_domain(domains, culprit, BitSet::empty());
                proof {
                    assert(views(domains@) =~= self.pruned(d0));
                    assert(views(domains@)[culprit as int] =~= Set::<int>::empty());
                    assert(vs[0] == culprit);
                    assert(vs.contains(culprit));
                }
            }
            return Err(Contradiction { variable: culprit });
        }
        if must == self.count {
            let mut i: usize = 0;
            while i < n
                invariant
                    vars@ == vs,
                    vs == self.vars(),
                    n == vs.len(),
                    in_bounds(vs, domains@.len()),
                    domains@.len() == d0.len(),
                    d0.len() == dlen,
                    value == self.value,
                    all_finite(d0),
                    i <= n,
                    views(domains@) == Seq::new(d0.len(), |x: int|
                        if vs.take(i as int).contains(x as usize) && d0[x] != set![value as int] {
                            d0[x].remove(value as int)
                        } else {
                            d0[x]
                        }),
                decreases n - i,
            {
                let x = vars[i];
                let single = domains[x].singleton_value();
                let keep = match single {
                    Some(v) => v == value,
                    None => false,
                };
                let ghost dc = views(domains@);
                proof {
                    domains@[x as int].lemma_finite();
                    assert(vs.take(i + 1) =~= vs.take(i as int).push(x));
                    assert(dc[x as int] == (if vs.take(i as int).contains(x) && d0[x as int] != set![value as int] {
                        d0[x as int].remove(value as int)
                    } else {
                        d0[x as int]
                    }));
                    if d0[x as int] == set![value as int] {
                        assert(dc[x as int] == d0[x as int]);
                        assert(dc[x as int].len() == 1);
                        assert(set![single->0 as int].contains(value as int));
                    } else {
                        if keep {
                            assert(dc[x as int] == set![value as int]);
                            assert(dc[x as int].contains(value as int));
                            assert(dc[x as int] == d0[x as int]);
                        }
                    }
                }
                if !keep {
                    remove_value(domains, x, value);
                }
                proof {
                    assert forall|u: int| 0 <= u < d0.len() implies #[trigger] views(domains@)[u] == (
                        if vs.take(i + 1).contains(u as usize) && d0[u] != set![value as int] {
                            d0[u].remove(value as int)
                        } else {
                            d0[u]
                        }) by {
                        vstd::seq_lib::lemma_seq_contains_after_push(vs.take(i as int), x, u as usize);
                        assert(dc[u] == (if vs.take(i as int).contains(u as usize) && d0[u] != set![value as int] {
                            d0[u].remove(value as int)
                        } else {
                            d0[u]
                        }));
                        if u == x as int {
                            if !keep {
                                assert(d0[u].remove(value as int).remove(value as int) =~= d0[u].remove(value as int));
                            }
                        } else {
                            assert(views(domains@)[u] == dc[u]);
                        }
                    }
                    assert(views(domains@) =~= Seq::new(d0.len(), |u: int|
                        if vs.take(i + 1).contains(u as usize) && d0[u] != set![value as int] {
                            d0[u].remove(value as int)
                        } else {
                            d0[u]
                        }));
                }
                i = i + 1;
            }
            proof {
                assert(vs.take(n as int) =~= vs);
                assert(views(domains@) =~= self.pruned(d0));
            }
        } else if can == self.count {
            let mut i: usize = 0;
            while i < n
                invariant
                    vars@ == vs,
                    vs == self.vars(),
                    n == vs.len(),
                    in_bounds(vs, domains@.len()),
                    domains@.len() == d0.len(),
                    d0.len() == dlen,
                    value == self.value,
                    all_finite(d0),
                    i <= n,
                    views(domains@) == Seq::new(d0.len(), |x: int|
                        if vs.take(i as int).contains(x as usize) && d0[x].contains(value as int) {
                            set![value as int]
                        } else {
                            d0[x]
                        }),
                decreases n - i,
            {
                let x = vars[i];
                let has = domains[x].contains(value);
                let ghost dc = views(domains@);
                proof {
                    assert(vs.take(i + 1) =~= vs.take(i as int).push(x));
                    assert(dc[x as int] == (if vs.take(i as int).contains(x) && d0[x as int].contains(value as int) {
                        set![value as int]
                    } else {
                        d0[x as int]
                    }));
                    assert(set![value as int].contains(value as int));
                    assert(has == d0[x as int].contains(value as int));
                }
                if has {
                    let probe = domains[x];
                    proof {
                        use_type_invariant(&probe);
                        domains@[x as int].lemma_finite();
                    }
                    let mut only = BitSet::empty();
                    only.insert(value);
                    proof {
                        assert(only@ =~= set![value as int]);
                    }
                    set_domain(domains, x, only);
                }
                proof {
                    assert forall|u: int| 0 <= u < d0.len() implies #[trigger] views(domains@)[u] == (
                        if vs.take(i + 1).contains(u as usize) && d0[u].contains(value as int) {
                            set![value as int]
                        } else {
                            d0[u]
                        }) by {
                        vstd::seq_lib::lemma_seq_contains_after_push(vs.take(i as int), x, u as usize);
                        assert(dc[u] == (if vs.take(i as int).contains(u as usize) && d0[u].contains(value as int) {
                            set![value as int]
                        } else {
                            d0[u]
                        }));
                        if u != x as int {
                            assert(views(domains@)[u] == dc[u]);
                        }
                    }
                    assert(views(domains@) =~= Seq::new(d0.len(), |u: int|
                        if vs.take(i + 1).contains(u as usize) && d0[u].contains(value as int) {
                            set![value as int]
                        } else {
                            d0[u]
                        }));
                }
                i = i + 1;
            }
            proof {
                assert(vs.take(n as int) =~= vs);
                assert(views(domains@) =~= self.pruned(d0));
            }
        } else {
            proof {
                assert(views(domains@) =~= self.pruned(d0));
            }
        }
        let ghost df = views(domains@);
        proof {
            lemma_views_finite(domains@);
            let must_s = self.musts(d0);
            let can_s = self.cans(d0);
            assert forall|i: int| 0 <= i < vs.len() && #[trigger] must_s[i] implies can_s[i] by {
                assert(set![value as int].contains(value as int));
            }
            lemma_count_sub(must_s, can_s);
            assert(shrinks(df, d0)) by {
                assert forall|u: int| 0 <= u < df.len() implies #[trigger] df[u].subset_of(d0[u]) by {
                    if count_true(must_s) != self.count && count_true(can_s) == self.count
                        && vs.contains(u as usize) && d0[u].contains(value as int) {
                        assert(set![value as int].subset_of(d0[u]));
                    }
                }
            }
            assert(unchanged_outside(df, d0, vs));
            // no solution is lost
            assert forall|x: Seq<int>| consistent(x, d0) && #[trigger] self.satisfied(x) implies consistent(x, df) by {
                self.lemma_counts(d0, x);
                assert forall|u: int| 0 <= u < x.len() implies #[trigger] df[u].contains(x[u]) by {
                    assert(d0[u].contains(x[u]));
                    if vs.contains(u as usize) {
                        let k = choose|k: int| 0 <= k < vs.len() && vs[k] == u as usize;
                        if count_true(must_s) == self.count {
                            if d0[u] != set![value as int] {
                                assert(!must_s[k]);
                                assert(!self.occurrences(x)[k]);
                            }
                        } else if count_true(can_s) == self.count {
                            if d0[u].contains(value as int) {
                                assert(can_s[k]);
                                assert(self.occurrences(x)[k]);
                            }
                        }
                    }
                }
            }
        }
        let empty = first_empty(domains, vars);
        proof {
            if empty is None {
                if decided_on(df, vs) {
                    let must_s = self.musts(d0);
                    let can_s = self.cans(d0);
                    assert forall|x: Seq<int>| consistent(x, df) implies #[trigger] self.satisfied(x) by {
                        let occ = self.occurrences(x);
                        if count_true(must_s) == self.count {
                            assert forall|k: int| 0 <= k < vs.len() implies #[trigger] occ[k] == must_s[k] by {
                                let u = vs[k] as int;
                                assert(vs.contains(u as usize));
                                assert(df[u].contains(x[u]));
                                if d0[u] == set![value as int] {
                                    assert(df[u] == d0[u]);
                                }
                            }
                            assert(occ =~= must_s);
                        } else if count_true(can_s) == self.count {
                            assert forall|k: int| 0 <= k < vs.len() implies #[trigger] occ[k] == can_s[k] by {
                                let u = vs[k] as int;
                                assert(vs.contains(u as usize));
                                assert(df[u].contains(x[u]));
                                if d0[u].contains(value as int) {
                                    assert(df[u] == set![value as int]);
                                }
                            }
                            assert(occ =~= can_s);
                        } else {
                            // some position can take the value without having to: it is not decided
                            assert(count_true(must_s) < count_true(can_s));
                            if !(exists|k: int| 0 <= k < vs.len() && #[trigger] can_s[k] && !must_s[k]) {
                                assert(can_s =~= must_s);
                            }
                            let k = choose|k: int| 0 <= k < vs.len() && #[trigger] can_s[k] && !must_s[k];
                            let u = vs[k] as int;
                            assert(df[u] == d0[u]);
                            assert(df[u].len() == 1);
                            lemma_single(df[u]);
                            assert(d0[u] =~= set![value as int]);
                        }
                    }
                }
            } else {
                let k = empty->0;
                assert forall|x: Seq<int>| consistent(x, d0) implies !#[trigger] self.satisfied(x) by {
                    if self.satisfied(x) {
                        assert(consistent(x, df));
                        assert(df[vs[k as int] as int].contains(x[vs[k as int] as int]));
                    }
                }
            }
        }
        proof {
            lemma_views_finite(old(domains)@);
            lemma_views_finite(domains@);
            assert(!self.out_of_reach(d0));
            if empty is None {
                self.lemma_pruned_quiet(d0);
                crate::laws::law_exactly_n_counts::<W>(*self, df);
            }
            assert forall|q: Seq<Set<int>>| #[trigger] self.quiet(q) && shrinks(q, d0) && nonempty_on(q, self.vars())
                implies empty is None && shrinks(q, df) by {
                self.lemma_quiet_within_pruned(d0, q);
                if empty is Some {
                    let k = empty->0;
                    let u = vs[k as int] as int;
                    assert(q[u].len() > 0);
                    lemma_nonempty_within(q[u], df[u]);
                }
            }
        }
        match empty {
            Some(k) => Err(Contradiction { variable: vars[k] }),
            None => Ok(()),
        }
    }
}


/// Explicit table of allowed value tuples.
pub struct Table {
    pub variables: Vec<usize>,
    pub allowed: Vec<Vec<usize>>,
}

/// `row` gives each position of `vars` the value that `values` gives its variable.
pub open spec fn row_matches(row: Seq<usize>, vars: Seq<usize>, values: Seq<int>) -> bool {
    &&& row.len() == vars.len()
    &&& forall|i: int| 0 <= i < vars.len() ==> values[vars[i] as int] == #[trigger] row[i]
}

/// `row` can still be taken within the domains: its values lie in the domains and it
/// gives a variable that occurs twice the same value.
pub open spec fn row_live(row: Seq<usize>, vars: Seq<usize>, d: Seq<Set<int>>) -> bool {
    &&& row.len() == vars.len()
    &&& forall|i: int| 0 <= i < vars.len() ==> d[vars[i] as int].contains(#[trigger] row[i] as int)
    &&& forall|i: int, j: int|
        0 <= i < vars.len() && 0 <= j < vars.len() && vars[i] == vars[j] ==> #[trigger] row[i] == #[trigger] row[j]
}

/// A tuple that can be taken within narrower domains can be taken within the wider ones.
proof fn lemma_row_live_narrow(row: Seq<usize>, vars: Seq<usize>, q: Seq<Set<int>>, d: Seq<Set<int>>)
    requires
        in_bounds(vars, d.len()),
        shrinks(q, d),
        row_live(row, vars, q),
    ensures
        row_live(row, vars, d),
{
    assert forall|i: int| 0 <= i < vars.len() implies d[vars[i] as int].contains(#[trigger] row[i] as int) by {
        assert(q[vars[i] as int].subset_of(d[vars[i] as int]));
        assert(q[vars[i] as int].contains(row[i] as int));
    }
}

impl Table {
    /// A constraint that the variables take one of the allowed tuples.
    pub fn new(variables: &[usize], allowed: Vec<Vec<usize>>) -> (c: Self)
        ensures
            c.variables@ == variables@,
            c.allowed == allowed,
    {
        Self { variables: vstd::slice::slice_to_vec(variables), allowed }
    }

    /// The variables of the constraint.
    pub open spec fn vars(self) -> Seq<usize> {
        self.variables@
    }

    /// The allowed tuples.
    pub open spec fn rows(self) -> Seq<Seq<usize>> {
        self.allowed@.map_values(|r: Vec<usize>| r@)
    }

    /// Whether the values of the scope form an allowed tuple.
    pub open spec fn satisfied(self, values: Seq<int>) -> bool {
        exists|t: int| 0 <= t < self.rows().len() && row_matches(#[trigger] self.rows()[t], self.vars(), values)
    }

    /// Whether some allowed tuple can still be taken.
    pub open spec fn any_live(self, d: Seq<Set<int>>) -> bool {
        exists|t: int| 0 <= t < self.rows().len() && row_live(#[trigger] self.rows()[t], self.vars(), d)
    }

    /// The values that the tuples that can still be taken give position `i`.
    pub open spec fn supports(self, d: Seq<Set<int>>, i: int) -> Set<int> {
        Set::new(|v: int| exists|t: int|
            0 <= t < self.rows().len() && row_live(#[trigger] self.rows()[t], self.vars(), d) && self.rows()[t][i] == v)
    }

    /// The domains after pruning: each variable keeps the values that, at each of its
    /// positions, some tuple that can still be taken gives it.
    pub open spec fn pruned(self, d: Seq<Set<int>>) -> Seq<Set<int>> {
        Seq::new(d.len(), |x: int| Set::new(|v: int|
            d[x].contains(v) && forall|i: int|
                0 <= i < self.vars().len() && self.vars()[i] == x ==> #[trigger] self.supports(d, i).contains(v)))
    }

    /// Whether `row` can still be taken.
    fn row_is_live<const W: usize>(domains: &Vec<BitSet<W>>, vars: &[usize], row: &Vec<usize>) -> (live: bool)
        requires
            in_bounds(vars@, domains@.len()),
        ensures
            live == row_live(row@, vars@, views(domains@)),
    {
        let n = vars.len();
        if row.len() != n {
            return false;
        }
        let mut i: usize = 0;
        while i < n
            invariant
                n == vars@.len(),
                row@.len() == n,
                in_bounds(vars@, domains@.len()),
                i <= n,
                forall|k: int| 0 <= k < i ==> views(domains@)[vars@[k] as int].contains(#[trigger] row@[k] as int),
            decreases n - i,
        {
            if !domains[vars[i]].contains(row[i]) {
                return false;
            }
            i = i + 1;
        }
        let mut i: usize = 0;
        while i < n
            invariant
                n == vars@.len(),
                row@.len() == n,
                i <= n,
                forall|a: int, b: int|
                    0 <= a < i && 0 <= b < n && vars@[a] == vars@[b] ==> #[trigger] row@[a] == #[trigger] row@[b],
            decreases n - i,
        {
            let mut j: usize = 0;
            while j < n
                invariant
                    n == vars@.len(),
                    row@.len() == n,
                    i < n,
                    j <= n,
                    forall|a: int, b: int|
                        0 <= a < i && 0 <= b < n && vars@[a] == vars@[b] ==> #[trigger] row@[a] == #[trigger] row@[b],
                    forall|b: int| 0 <= b < j && vars@[i as int] == vars@[b] ==> row@[i as int] == #[trigger] row@[b],
                decreases n - j,
            {
                if vars[i] == vars[j] && row[i] != row[j] {
                    return false;
                }
                j = j + 1;
            }
            i = i + 1;
        }
        true
    }

    /// Pruning has nothing to remove: every value of a position is given to it by some
    /// tuple that can still be taken; and a constraint over no variable has such a tuple.
    pub open spec fn quiet(self, d: Seq<Set<int>>) -> bool {
        &&& forall|i: int, v: int| 0 <= i < self.vars().len() && d[self.vars()[i] as int].contains(v)
            ==> #[trigger] self.supports(d, i).contains(v)
        &&& (self.vars().len() > 0 || self.any_live(d))
    }

    /// Pruning domains where some tuple can be taken leaves nothing more to prune: a
    /// tuple that could be taken before still can.
    proof fn lemma_pruned_quiet(self, d: Seq<Set<int>>)
        requires
            in_bounds(self.vars(), d.len()),
            self.any_live(d),
        ensures
            self.quiet(self.pruned(d)),
    {
        let vs = self.vars();
        let rs = self.rows();
        let r = self.pruned(d);
        assert forall|t: int| 0 <= t < rs.len() && row_live(#[trigger] rs[t], vs, d) implies row_live(rs[t], vs, r) by {
            assert forall|k: int| 0 <= k < vs.len() implies r[vs[k] as int].contains(#[trigger] rs[t][k] as int) by {
                let x = vs[k] as int;
                assert(d[x].contains(rs[t][k] as int));
                assert forall|k2: int| 0 <= k2 < vs.len() && vs[k2] == x implies #[trigger] self.supports(d, k2).contains(rs[t][k] as int) by {
                    assert(rs[t][k2] == rs[t][k]);
                }
            }
        }
        assert forall|i: int, v: int| 0 <= i < vs.len() && r[vs[i] as int].contains(v) implies #[trigger] self.supports(r, i).contains(v) by {
            assert(self.supports(d, i).contains(v));
            let t = choose|t: int| 0 <= t < rs.len() && row_live(#[trigger] rs[t], vs, d) && rs[t][i] == v;
            assert(row_live(rs[t], vs, r));
        }
        if vs.len() == 0 {
            let t = choose|t: int| 0 <= t < rs.len() && row_live(#[trigger] rs[t], vs, d);
            assert(row_live(rs[t], vs, r));
        }
    }

    /// A narrowing with nothing to prune, keeping every domain of the scope nonempty,
    /// lies within the pruned domains, and some tuple can be taken within `d`.
    proof fn lemma_quiet_within_pruned(self, d: Seq<Set<int>>, q: Seq<Set<int>>)
        requires
            in_bounds(self.vars(), d.len()),
            all_finite(d),
            shrinks(q, d),
            nonempty_on(q, self.vars()),
            self.quiet(q),
        ensures
            self.any_live(d),
            shrinks(q, self.pruned(d)),
    {
        let vs = self.vars();
        let rs = self.rows();
        let r = self.pruned(d);
        assert forall|i: int, v: int| 0 <= i < vs.len() && q[vs[i] as int].contains(v) implies #[trigger] self.supports(d, i).contains(v) by {
            assert(self.supports(q, i).contains(v));
            let t = choose|t: int| 0 <= t < rs.len() && row_live(#[trigger] rs[t], vs, q) && rs[t][i] == v;
            lemma_row_live_narrow(rs[t], vs, q, d);
        }
        assert forall|x: int| 0 <= x < q.len() implies #[trigger] q[x].subset_of(r[x]) by {
            assert forall|v: int| q[x].contains(v) implies r[x].contains(v) by {
                assert(q[x].subset_of(d[x]));
                assert forall|i: int| 0 <= i < vs.len() && vs[i] == x implies #[trigger] self.supports(d, i).contains(v) by {
                    assert(q[vs[i] as int].contains(v));
                }
            }
        }
        if vs.len() == 0 {
            let t = choose|t: int| 0 <= t < rs.len() && row_live(#[trigger] rs[t], vs, q);
            lemma_row_live_narrow(rs[t], vs, q, d);
        } else {
            let x = vs[0] as int;
            assert(q[x].len() > 0);
            assert(q[x].subset_of(d[x]));
            vstd::set_lib::lemma_set_subset_finite(d[x], q[x]);
            let v = q[x].choose();
            assert(q[x].contains(v));
            assert(self.supports(q, 0).contains(v));
            let t = choose|t: int| 0 <= t < rs.len() && row_live(#[trigger] rs[t], vs, q) && rs[t][0] == v;
            lemma_row_live_narrow(rs[t], vs, q, d);
        }
    }
}

impl<const W: usize> Constraint<W> for Table {
    open spec fn scope_view(&self) -> Seq<usize> {
        self.vars()
    }

    open spec fn holds(&self, values: Seq<int>) -> bool {
        self.satisfied(values)
    }

    open spec fn stable(&self, d: Seq<Set<int>>) -> bool {
        self.quiet(d)
    }

    proof fn lemma_stable_frame(&self, d1: Seq<Set<int>>, d2: Seq<Set<int>>) {
        let vs = self.variables@;
        let rs = self.rows();
        assert forall|i: int| 0 <= i < vs.len() implies #[trigger] d1[vs[i] as int] == d2[vs[i] as int] by {
            assert(self.vars()[i] == vs[i]);
        }
        assert forall|t: int| 0 <= t < rs.len() implies #[trigger] row_live(rs[t], vs, d1) == row_live(rs[t], vs, d2) by {
            if row_live(rs[t], vs, d1) {
                assert forall|k: int| 0 <= k < vs.len() implies d2[vs[k] as int].contains(#[trigger] rs[t][k] as int) by {
                    assert(d1[vs[k] as int].contains(rs[t][k] as int));
                }
            }
            if row_live(rs[t], vs, d2) {
                assert forall|k: int| 0 <= k < vs.len() implies d1[vs[k] as int].contains(#[trigger] rs[t][k] as int) by {
                    assert(d2[vs[k] as int].contains(rs[t][k] as int));
                }
            }
        }
        assert forall|i: int| 0 <= i < vs.len() implies #[trigger] self.supports(d1, i) == self.supports(d2, i) by {
            assert(self.supports(d1, i) =~= self.supports(d2, i));
        }
        if self.any_live(d1) {
            let t = choose|t: int| 0 <= t < rs.len() && row_live(#[trigger] rs[t], vs, d1);
            assert(row_live(rs[t], vs, d2));
        }
        if self.any_live(d2) {
            let t = choose|t: int| 0 <= t < rs.len() && row_live(#[trigger] rs[t], vs, d2);
            assert(row_live(rs[t], vs, d1));
        }
        if self.quiet(d1) {
            assert forall|i: int, v: int| 0 <= i < vs.len() && d2[vs[i] as int].contains(v)
                implies #[trigger] self.supports(d2, i).contains(v) by {
                assert(d1[vs[i] as int].contains(v));
                assert(self.supports(d1, i).contains(v));
                assert(self.supports(d1, i) == self.supports(d2, i));
            }
        }
        if self.quiet(d2) {
            assert forall|i: int, v: int| 0 <= i < vs.len() && d1[vs[i] as int].contains(v)
                implies #[trigger] self.supports(d1, i).contains(v) by {
                assert(d2[vs[i] as int].contains(v));
                assert(self.supports(d2, i).contains(v));
                assert(self.supports(d1, i) == self.supports(d2, i));
            }
        }
    }

    fn scope(&self) -> (vars: &[usize]) {
        self.variables.as_slice()
    }

    fn propagate(&self, domains: &mut Vec<BitSet<W>>) -> (r: Result<(), Contradiction>)
        ensures
            views(final(domains)@) == self.pruned(views(old(domains)@)),
            match r {
                Ok(()) => nonempty_on(views(final(domains)@), self.vars()) && self.any_live(views(old(domains)@)),
                Err(c) => (exists|k: int| 0 <= k < self.vars().len() && self.vars()[k] == c.variable
                    && #[trigger] views(final(domains)@)[self.vars()[k] as int].len() == 0)
                    || (nonempty_on(views(final(domains)@), self.vars()) && !self.any_live(views(old(domains)@)) && c.variable == 0),
            },
    {
        let vars = self.variables.as_slice();
        let n = vars.len();
        let rows = &self.allowed;
        let ghost d0 = views(domains@);
        let ghost vs = vars@;
        let ghost rs = self.rows();
        let ghost ds0 = domains@;
        proof {
            lemma_views_finite(domains@);
        }
        // which tuples can still be taken
        let mut live: Vec<bool> = Vec::new();
        let mut any = false;
        let mut t: usize = 0;
        while t < rows.len()
            invariant
                vars@ == vs,
                vs == self.vars(),
                rs == self.rows(),
                *rows == self.allowed,
                in_bounds(vs, domains@.len()),
                d0 == views(domains@),
                t <= rows.len(),
                live@.len() == t,
                forall|k: int| 0 <= k < t ==> #[trigger] live@[k] == row_live(rs[k], vs, d0),
                any <==> exists|k: int| 0 <= k < t && row_live(#[trigger] rs[k], vs, d0),
            decreases rows.len() - t,
        {
            let l = Self::row_is_live(domains, vars, &rows[t]);
            proof {
                assert(rs[t as int] == rows@[t as int]@);
            }
            live.push(l);
            if l {
                any = true;
            }
            t = t + 1;
        }
        proof {
            assert(any == self.any_live(d0));
        }
        // prune each position by the values that live tuples give it
        let mut i: usize = 0;
        proof {
            let target = Seq::new(d0.len(), |x: int| Set::new(|v: int|
                d0[x].contains(v) && forall|k: int|
                    0 <= k < 0 && vs[k] == x ==> #[trigger] self.supports(d0, k).contains(v)));
            assert forall|x: int| 0 <= x < d0.len() implies #[trigger] target[x] == d0[x] by {
                assert(target[x] =~= d0[x]);
            }
            assert(views(domains@) =~= target);
        }
        while i < n
            invariant
                vars@ == vs,
                vs == self.vars(),
                n == vs.len(),
                rs == self.rows(),
                *rows == self.allowed,
                live@.len() == rs.len(),
                forall|k: int| 0 <= k < rs.len() ==> #[trigger] live@[k] == row_live(rs[k], vs, d0),
                in_bounds(vs, domains@.len()),
                domains@.len() == d0.len(),
                all_finite(d0),
                d0 == views(ds0),
                i <= n,
                views(domains@) == Seq::new(d0.len(), |x: int| Set::new(|v: int|
                    d0[x].contains(v) && forall|k: int|
                        0 <= k < i && vs[k] == x ==> #[trigger] self.supports(d0, k).contains(v))),
            decreases n - i,
        {
            let probe = domains[vars[i]];
            proof {
                use_type_invariant(&probe);
            }
            let mut supp = BitSet::<W>::empty();
            let mut t: usize = 0;
            while t < rows.len()
                invariant
                    vars@ == vs,
                    vs == self.vars(),
                    n == vs.len(),
                    i < n,
                    rs == self.rows(),
                    *rows == self.allowed,
                    live@.len() == rs.len(),
                    forall|k: int| 0 <= k < rs.len() ==> #[trigger] live@[k] == row_live(rs[k], vs, d0),
                    in_bounds(vs, d0.len()),
                    all_finite(d0),
                    d0 == views(ds0),
                    t <= rows.len(),
                    supp@ == Set::new(|v: int| exists|k: int| 0 <= k < t && row_live(#[trigger] rs[k], vs, d0) && rs[k][i as int] == v),
                decreases rows.len() - t,
            {
                if live[t] {
                    proof {
                        assert(rs[t as int] == rows@[t as int]@);
                        assert(d0[vs[i as int] as int].contains(rs[t as int][i as int] as int));
                    }
                    let ghost before = supp@;
                    supp.insert(rows[t][i]);
                    proof {
                        let x = vs[i as int] as int;
                        assert(d0[x].finite());
                        assert(BitSet::<W>::in_range(rs[t as int][i as int] as int)) by {
                            ds0[x].lemma_finite();
                        }
                        assert(supp@ =~= Set::new(|v: int| exists|k: int| 0 <= k < t + 1 && row_live(#[trigger] rs[k], vs, d0) && rs[k][i as int] == v)) by {
                            assert forall|v: int| supp@.contains(v) implies exists|k: int| 0 <= k < t + 1 && row_live(#[trigger] rs[k], vs, d0) && rs[k][i as int] == v by {
                                if v == rs[t as int][i as int] as int {
                                    assert(row_live(rs[t as int], vs, d0));
                                } else {
                                    assert(before.contains(v));
                                }
                            }
                        }
                    }
                } else {
                    proof {
                        assert(supp@ =~= Set::new(|v: int| exists|k: int| 0 <= k < t + 1 && row_live(#[trigger] rs[k], vs, d0) && rs[k][i as int] == v));
                    }
                }
                t = t + 1;
            }
            proof {
                assert(supp@ =~= self.supports(d0, i as int));
            }
            let x = vars[i];
            let ghost dc = views(domains@);
            let mut d = domains[x];
            d.intersect_with(&supp);
            set_domain(domains, x, d);
            proof {
                assert forall|u: int| 0 <= u < d0.len() implies #[trigger] views(domains@)[u] == Set::new(|v: int|
                    d0[u].contains(v) && forall|k: int|
                        0 <= k < i + 1 && vs[k] == u ==> #[trigger] self.supports(d0, k).contains(v)) by {
                    assert(dc[u] == Set::new(|v: int|
                        d0[u].contains(v) && forall|k: int|
                            0 <= k < i && vs[k] == u ==> #[trigger] self.supports(d0, k).contains(v)));
                    if u == x as int {
                        assert(views(domains@)[u] =~= Set::new(|v: int|
                            d0[u].contains(v) && forall|k: int|
                                0 <= k < i + 1 && vs[k] == u ==> #[trigger] self.supports(d0, k).contains(v)));
                    } else {
                        assert(views(domains@)[u] == dc[u]);
                        assert(dc[u] =~= Set::new(|v: int|
                            d0[u].contains(v) && forall|k: int|
                                0 <= k < i + 1 && vs[k] == u ==> #[trigger] self.supports(d0, k).contains(v)));
                    }
                }
                assert(views(domains@) =~= Seq::new(d0.len(), |x: int| Set::new(|v: int|
                    d0[x].contains(v) && forall|k: int|
                        0 <= k < i + 1 && vs[k] == x ==> #[trigger] self.supports(d0, k).contains(v))));
            }
            i = i + 1;
        }
        let ghost df = views(domains@);
        proof {
            assert(df =~= self.pruned(d0));
            lemma_views_finite(domains@);
            assert(shrinks(df, d0));
            assert forall|u: int| 0 <= u < df.len() && !vs.contains(u as usize) implies #[trigger] df[u] == d0[u] by {
                assert(df[u] =~= d0[u]);
            }
            // every solution takes a tuple that can still be taken
            assert forall|x: Seq<int>| consistent(x, d0) && #[trigger] self.satisfied(x) implies consistent(x, df) by {
                let t = choose|t: int| 0 <= t < rs.len() && row_matches(#[trigger] rs[t], vs, x);
                assert(row_live(rs[t], vs, d0)) by {
                    assert forall|a: int| 0 <= a < vs.len() implies d0[vs[a] as int].contains(#[trigger] rs[t][a] as int) by {
                        assert(d0[vs[a] as int].contains(x[vs[a] as int]));
                    }
                    assert forall|a: int, b: int|
                        0 <= a < vs.len() && 0 <= b < vs.len() && vs[a] == vs[b] implies #[trigger] rs[t][a] == #[trigger] rs[t][b] by {
                        assert(x[vs[a] as int] == rs[t][a]);
                        assert(x[vs[b] as int] == rs[t][b]);
                    }
                }
                assert forall|u: int| 0 <= u < x.len() implies #[trigger] df[u].contains(x[u]) by {
                    assert(d0[u].contains(x[u]));
                    assert forall|k: int| 0 <= k < vs.len() && vs[k] == u implies #[trigger] self.supports(d0, k).contains(x[u]) by {
                        assert(x[vs[k] as int] == rs[t][k]);
                    }
                }
            }
        }
        let empty = first_empty(domains, vars);
        proof {
            if empty is None && any {
                if decided_on(df, vs) {
                    let t = choose|t: int| 0 <= t < rs.len() && row_live(#[trigger] rs[t], vs, d0);
                    assert forall|x: Seq<int>| consistent(x, df) implies #[trigger] self.satisfied(x) by {
                        assert forall|a: int| 0 <= a < vs.len() implies x[vs[a] as int] == #[trigger] rs[t][a] by {
                            let u = vs[a] as int;
                            assert(df[u].len() == 1);
                            lemma_single(df[u]);
                            assert(df[u].contains(x[u]));
                            assert(df[u].contains(rs[t][a] as int)) by {
                                assert(d0[u].contains(rs[t][a] as int));
                                assert forall|k: int| 0 <= k < vs.len() && vs[k] == u implies #[trigger] self.supports(d0, k).contains(rs[t][a] as int) by {
                                    assert(rs[t][k] == rs[t][a]);
                                }
                            }
                        }
                        assert(row_matches(rs[t], vs, x));
                    }
                }
            } else if empty is Some {
                let k = empty->0;
                assert forall|x: Seq<int>| consistent(x, d0) implies !#[trigger] self.satisfied(x) by {
                    if self.satisfied(x) {
                        assert(consistent(x, df));
                        assert(df[vs[k as int] as int].contains(x[vs[k as int] as int]));
                    }
                }
            } else {
                assert forall|x: Seq<int>| consistent(x, d0) implies !#[trigger] self.satisfied(x) by {
                    if self.satisfied(x) {
                        let t = choose|t: int| 0 <= t < rs.len() && row_matches(#[trigger] rs[t], vs, x);
                        assert(row_live(rs[t], vs, d0)) by {
                            assert forall|a: int| 0 <= a < vs.len() implies d0[vs[a] as int].contains(#[trigger] rs[t][a] as int) by {
                                assert(d0[vs[a] as int].contains(x[vs[a] as int]));
                            }
                            assert forall|a: int, b: int|
                                0 <= a < vs.len() && 0 <= b < vs.len() && vs[a] == vs[b] implies #[trigger] rs[t][a] == #[trigger] rs[t][b] by {
                                assert(x[vs[a] as int] == rs[t][a]);
                                assert(x[vs[b] as int] == rs[t][b]);
                            }
                        }
                    }
                }
            }
        }
        proof {
            lemma_views_finite(old(domains)@);
            lemma_views_finite(domains@);
            if empty is None && any {
                self.lemma_pruned_quiet(d0);
            }
            assert forall|q: Seq<Set<int>>| #[trigger] self.quiet(q) && shrinks(q, d0) && nonempty_on(q, self.vars())
                implies empty is None && any && shrinks(q, df) by {
                self.lemma_quiet_within_pruned(d0, q);
                if empty is Some {
                    let k = empty->0;
                    let u = vs[k as int] as int;
                    assert(q[u].len() > 0);
                    lemma_nonempty_within(q[u], df[u]);
                }
            }
        }
        proof {
            let df = views(domains@);
            if empty is Some {
                let k = empty->0 as int;
                assert(vs.contains(vs[k]));
            }
            assert(any == self.any_live(d0));
            if vs.len() > 0 && !self.any_live(d0) {
                assert(df[vs[0] as int] =~= Set::<int>::empty()) by {
                    assert forall|v: int| !df[vs[0] as int].contains(v) by {
                        if df[vs[0] as int].contains(v) {
                            assert(self.supports(d0, 0).contains(v));
                            let t = choose|t: int|
                                0 <= t < rs.len() && row_live(#[trigger] rs[t], vs, d0) && rs[t][0] == v;
                            assert(self.any_live(d0));
                        }
                    }
                }
                assert(df[vs[0] as int].len() == 0);
                if empty is None {
                    assert(df[vs[0] as int].len() > 0);
                }
            }
        }
        match empty {
            Some(k) => Err(Contradiction { variable: vars[k] }),
            None => if any {
                Ok(())
            } else {
                Err(Contradiction { variable: 0 })
            },
        }
    }
}

} // verus!
