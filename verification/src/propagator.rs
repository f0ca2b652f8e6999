//! AC-3 arc consistency propagation engine.

use vstd::prelude::*;
use std::collections::VecDeque;
use crate::bitset::BitSet;
use crate::constraint::Constraint;
use crate::domain::{consistent, decided_on, in_bounds, lemma_views_finite, nonempty_on, shrinks, views, all_finite};
use crate::error::Contradiction;

verus! {

/// Every constraint's scope names domains.
pub open spec fn scopes_in_bounds<const W: usize, C: Constraint<W>>(cs: Seq<C>, n: nat) -> bool {
    forall|ci: int| 0 <= ci < cs.len() ==> in_bounds(#[trigger] cs[ci].scope_view(), n)
}

/// `values` satisfies every constraint.
pub open spec fn all_hold<const W: usize, C: Constraint<W>>(cs: Seq<C>, values: Seq<int>) -> bool {
    forall|ci: int| 0 <= ci < cs.len() ==> #[trigger] cs[ci].holds(values)
}

/// `values` is a solution of the constraints within the domains.
pub open spec fn is_solution<const W: usize, C: Constraint<W>>(
    cs: Seq<C>,
    doms: Seq<Set<int>>,
    values: Seq<int>,
) -> bool {
    consistent(values, doms) && all_hold(cs, values)
}

/// Every solution within `before` lies within `after`.
pub open spec fn keeps_solutions<const W: usize, C: Constraint<W>>(
    cs: Seq<C>,
    before: Seq<Set<int>>,
    after: Seq<Set<int>>,
) -> bool {
    forall|a: Seq<int>| #[trigger] is_solution(cs, before, a) ==> consistent(a, after)
}

/// There is no solution within `doms`.
pub open spec fn no_solution<const W: usize, C: Constraint<W>>(cs: Seq<C>, doms: Seq<Set<int>>) -> bool {
    forall|a: Seq<int>| !#[trigger] is_solution(cs, doms, a)
}

/// The constraint's scope is nonempty, the constraint finds nothing to prune, and once
/// its scope is decided its values satisfy it.
pub open spec fn settled<const W: usize, C: Constraint<W>>(c: C, doms: Seq<Set<int>>) -> bool {
    &&& nonempty_on(doms, c.scope_view())
    &&& c.stable(doms)
    &&& decided_on(doms, c.scope_view()) ==> forall|a: Seq<int>|
        consistent(a, doms) ==> #[trigger] c.holds(a)
}

/// `q` lies within `d`, keeps a value for every variable of every constraint, and no
/// constraint finds anything to prune in it: a common fixpoint of the constraints within `d`.
pub open spec fn fixpoint_within<const W: usize, C: Constraint<W>>(cs: Seq<C>, q: Seq<Set<int>>, d: Seq<Set<int>>) -> bool {
    &&& shrinks(q, d)
    &&& forall|ci: int| 0 <= ci < cs.len() ==> nonempty_on(q, #[trigger] cs[ci].scope_view()) && cs[ci].stable(q)
}

/// Every common fixpoint within `before` lies within `after`.
pub open spec fn keeps_fixpoints<const W: usize, C: Constraint<W>>(cs: Seq<C>, before: Seq<Set<int>>, after: Seq<Set<int>>) -> bool {
    forall|q: Seq<Set<int>>| #[trigger] fixpoint_within(cs, q, before) ==> shrinks(q, after)
}

/// No common fixpoint lies within `d`.
pub open spec fn no_fixpoint<const W: usize, C: Constraint<W>>(cs: Seq<C>, d: Seq<Set<int>>) -> bool {
    forall|q: Seq<Set<int>>| !#[trigger] fixpoint_within(cs, q, d)
}

/// Whether some variable of `vars` occurs in the scope of `c`.
pub open spec fn touches<const W: usize, C: Constraint<W>>(c: C, vars: Seq<usize>) -> bool {
    exists|k: int| 0 <= k < vars.len() && c.scope_view().contains(#[trigger] vars[k])
}

/// The variables whose domain differs between `before` and `after`, in increasing order.
pub open spec fn lists_changed(list: Seq<usize>, before: Seq<Set<int>>, after: Seq<Set<int>>) -> bool {
    &&& forall|i: int, j: int| 0 <= i < j < list.len() ==> list[i] < list[j]
    &&& forall|i: int| 0 <= i < list.len() ==> #[trigger] list[i] < before.len() && after[list[i] as int] != before[list[i] as int]
    &&& forall|v: int| 0 <= v < before.len() && #[trigger] after[v] != before[v] ==> list.contains(v as usize)
}

/// A contradiction names a variable whose domain is now empty; a constraint over no
/// variable, which names none, is the one exception.
pub open spec fn names_empty<const W: usize, C: Constraint<W>>(cs: Seq<C>, after: Seq<Set<int>>, c: Contradiction) -> bool {
    ||| c.variable < after.len() && after[c.variable as int].len() == 0
    ||| exists|ci: int| 0 <= ci < cs.len() && (#[trigger] cs[ci]).scope_view().len() == 0
}

/// The outcome of a propagation run from `before` to `after` over the constraints `cs`:
/// domains only shrink, every solution and every common fixpoint stays, a success lists
/// the variables whose domain changed, and an error means that there is no solution and
/// no common fixpoint.
pub open spec fn propagation_outcome<const W: usize, C: Constraint<W>>(
    cs: Seq<C>,
    before: Seq<Set<int>>,
    after: Seq<Set<int>>,
    r: Result<Vec<usize>, Contradiction>,
) -> bool {
    &&& shrinks(after, before)
    &&& keeps_solutions(cs, before, after)
    &&& keeps_fixpoints(cs, before, after)
    &&& match r {
        Ok(list) => lists_changed(list@, before, after),
        Err(c) => no_solution(cs, before) && no_fixpoint(cs, before) && names_empty(cs, after, c),
    }
}

/// Settledness carries over to smaller domains that agree on the constraint's scope.
proof fn lemma_settled_frame<const W: usize, C: Constraint<W>>(c: C, d1: Seq<Set<int>>, d2: Seq<Set<int>>)
    requires
        shrinks(d2, d1),
        in_bounds(c.scope_view(), d1.len()),
        forall|k: int| 0 <= k < c.scope_view().len() ==> #[trigger] d2[c.scope_view()[k] as int] == d1[c.scope_view()[k] as int],
        settled(c, d1),
    ensures
        settled(c, d2),
{
    let s = c.scope_view();
    c.lemma_stable_frame(d1, d2);
    assert forall|k: int| 0 <= k < s.len() implies #[trigger] d2[s[k] as int].len() > 0 by {
        assert(d2[s[k] as int] == d1[s[k] as int]);
    }
    if decided_on(d2, s) {
        assert forall|k: int| 0 <= k < s.len() implies #[trigger] d1[s[k] as int].len() == 1 by {
            assert(d2[s[k] as int] == d1[s[k] as int]);
        }
        assert forall|a: Seq<int>| consistent(a, d2) implies #[trigger] c.holds(a) by {
            assert forall|i: int| 0 <= i < a.len() implies #[trigger] d1[i].contains(a[i]) by {
                assert(d2[i].subset_of(d1[i]));
                assert(d2[i].contains(a[i]));
            }
        }
    }
}

/// Arc consistency propagator using the AC-3 algorithm.
pub struct Propagator {
    /// Queue of constraint indices to re-check.
    worklist: VecDeque<usize>,
    /// How many times a constraint has been asked to prune.
    calls: Ghost<nat>,
}

/// A queue without repeats of indices below `n` holds at most `n` of them.
proof fn lemma_queue_len(q: Seq<usize>, n: nat)
    requires
        q.no_duplicates(),
        forall|k: int| 0 <= k < q.len() ==> #[trigger] q[k] < n,
    ensures
        q.len() <= n,
{
    let ints = q.map_values(|x: usize| x as int);
    assert(ints.no_duplicates()) by {
        assert forall|i: int, j: int| 0 <= i < ints.len() && 0 <= j < ints.len() && i != j implies ints[i] != ints[j] by {
            assert(q[i] != q[j]);
        }
    }
    ints.unique_seq_to_set();
    vstd::set_lib::lemma_int_range(0, n as int);
    assert(ints.to_set().subset_of(vstd::set_lib::set_int_range(0, n as int))) by {
        assert forall|v: int| ints.to_set().contains(v) implies vstd::set_lib::set_int_range(0, n as int).contains(v) by {
            let k = choose|k: int| 0 <= k < ints.len() && ints[k] == v;
            assert(q[k] < n);
        }
    }
    vstd::set_lib::lemma_len_subset(ints.to_set(), vstd::set_lib::set_int_range(0, n as int));
}

/// One round of the worklist keeps within the budget: a round takes a constraint off
/// the queue and calls it once; the queue grows back only when a domain shrank, and then
/// to at most `clen` entries.
proof fn lemma_round_budget(calls: nat, head: nat, after: nat, clen: nat, tb: nat, ta: nat, shrank: bool)
    by (nonlinear_arith)
    requires
        head >= 1,
        ta <= tb,
        after <= clen,
        shrank ==> ta < tb,
        !shrank ==> after <= head - 1,
    ensures
        calls + 1 + after + clen * ta <= calls + head + clen * tb,
{
}

impl Propagator {
    /// The constraint indices waiting to be re-checked.
    pub closed spec fn queue(self) -> Seq<usize> {
        self.worklist@
    }

    /// How many times, over the propagator's life, a constraint has been asked to prune.
    pub closed spec fn calls(self) -> nat {
        self.calls@
    }

    /// Create a new propagator.
    pub fn new() -> (p: Self)
        ensures
            p.queue().len() == 0,
            p.calls() == 0,
    {
        Self { worklist: VecDeque::new(), calls: Ghost(0) }
    }

    /// For each variable, the constraints whose scope holds it.
    fn index_scopes<const W: usize, C: Constraint<W>>(n: usize, constraints: &[C]) -> (vc: Vec<Vec<usize>>)
        requires
            scopes_in_bounds(constraints@, n as nat),
        ensures
            vc.len() == n,
            forall|v: int, k: int| 0 <= v < n && 0 <= k < vc[v].len() ==> #[trigger] vc[v]@[k] < constraints.len(),
            forall|v: usize, ci: int|
                v < n && 0 <= ci < constraints.len() && #[trigger] constraints@[ci].scope_view().contains(v)
                    ==> vc[v as int]@.contains(ci as usize),
            forall|v: int, k: int| 0 <= v < n && 0 <= k < vc[v].len()
                ==> constraints@[#[trigger] vc[v]@[k] as int].scope_view().contains(v as usize),
    {
        let mut vc: Vec<Vec<usize>> = Vec::new();
        let mut v: usize = 0;
        while v < n
            invariant
                v <= n,
                vc.len() == v,
                forall|u: int| 0 <= u < v ==> #[trigger] vc[u].len() == 0,
            decreases n - v,
        {
            vc.push(Vec::new());
            v = v + 1;
        }
        let mut ci: usize = 0;
        while ci < constraints.len()
            invariant
                scopes_in_bounds(constraints@, n as nat),
                ci <= constraints.len(),
                vc.len() == n,
                forall|v: int, k: int| 0 <= v < n && 0 <= k < vc[v].len() ==> #[trigger] vc[v]@[k] < constraints.len(),
                forall|v: usize, cj: int|
                    v < n && 0 <= cj < ci && #[trigger] constraints@[cj].scope_view().contains(v)
                        ==> vc[v as int]@.contains(cj as usize),
                forall|v: int, k: int| 0 <= v < n && 0 <= k < vc[v].len()
                    ==> constraints@[#[trigger] vc[v]@[k] as int].scope_view().contains(v as usize),
            decreases constraints.len() - ci,
        {
            let scope = constraints[ci].scope();
            let mut i: usize = 0;
            proof {
                assert(in_bounds(constraints@[ci as int].scope_view(), n as nat));
            }
            while i < scope.len()
                invariant
                    in_bounds(constraints@[ci as int].scope_view(), n as nat),
                    scope@ == constraints@[ci as int].scope_view(),
                    ci < constraints.len(),
                    i <= scope.len(),
                    vc.len() == n,
                    forall|v: int, k: int| 0 <= v < n && 0 <= k < vc[v].len() ==> #[trigger] vc[v]@[k] < constraints.len(),
                    forall|v: usize, cj: int|
                        v < n && 0 <= cj < ci && #[trigger] constraints@[cj].scope_view().contains(v)
                            ==> vc[v as int]@.contains(cj as usize),
                    forall|k: int| 0 <= k < i ==> vc[scope@[k] as int]@.contains(ci),
                    forall|v: int, k: int| 0 <= v < n && 0 <= k < vc[v].len()
                        ==> constraints@[#[trigger] vc[v]@[k] as int].scope_view().contains(v as usize),
                decreases scope.len() - i,
            {
                let v = scope[i];
                let ghost before = vc@;
                vc[v].push(ci);
                proof {
                    assert(vc[v as int]@[vc[v as int].len() - 1] == ci);
                    assert(scope@[i as int] == v);
                    assert forall|u: int, k: int| 0 <= u < n && 0 <= k < vc[u].len()
                        implies constraints@[#[trigger] vc[u]@[k] as int].scope_view().contains(u as usize) by {
                        if u == v as int && k == vc[u].len() - 1 {
                            assert(scope@.contains(v));
                        } else {
                            assert(vc[u]@[k] == before[u]@[k]);
                        }
                    }
                    assert forall|u: usize, cj: int|
                        u < n && 0 <= cj < ci && #[trigger] constraints@[cj].scope_view().contains(u)
                            implies vc[u as int]@.contains(cj as usize) by {
                        assert(before[u as int]@.contains(cj as usize));
                        let k = choose|k: int| 0 <= k < before[u as int]@.len() && before[u as int]@[k] == cj as usize;
                        assert(vc[u as int]@[k] == cj as usize);
                    }
                    assert forall|k: int| 0 <= k < i + 1 implies vc[scope@[k] as int]@.contains(ci) by {
                        if k < i {
                            let u = scope@[k] as int;
                            assert(before[u]@.contains(ci));
                            let j = choose|j: int| 0 <= j < before[u]@.len() && before[u]@[j] == ci;
                            assert(vc[u]@[j] == ci);
                        }
                    }
                }
                i = i + 1;
            }
            proof {
                assert forall|v: usize, cj: int|
                    v < n && 0 <= cj < ci + 1 && #[trigger] constraints@[cj].scope_view().contains(v)
                        implies vc[v as int]@.contains(cj as usize) by {
                    if cj == ci {
                        let k = choose|k: int| 0 <= k < scope@.len() && scope@[k] == v;
                        assert(vc[scope@[k] as int]@.contains(ci));
                    }
                }
            }
            ci = ci + 1;
        }
        vc
    }

    /// Run the worklist to its end, starting from the queue already in `self.worklist`.
    fn run<const W: usize, C: Constraint<W>>(
        &mut self,
        domains: &mut Vec<BitSet<W>>,
        constraints: &[C],
        vc: &Vec<Vec<usize>>,
        in_worklist: &mut Vec<bool>,
        changed: &mut Vec<bool>,
        settles: Ghost<spec_fn(int) -> bool>,
    ) -> (r: Result<(), Contradiction>)
        requires
            scopes_in_bounds(constraints@, old(domains)@.len()),
            vc.len() == old(domains)@.len(),
            forall|v: int, k: int|
                0 <= v < vc.len() && 0 <= k < vc[v].len() ==> #[trigger] vc[v]@[k] < constraints.len(),
            forall|v: usize, ci: int|
                v < vc.len() && 0 <= ci < constraints.len() && #[trigger] constraints@[ci].scope_view().contains(v)
                    ==> vc[v as int]@.contains(ci as usize),
            old(in_worklist)@.len() == constraints.len(),
            forall|ci: int| 0 <= ci < constraints.len() ==> (#[trigger] old(in_worklist)@[ci] <==> old(self).worklist@.contains(ci as usize)),
            forall|k: int| 0 <= k < old(self).worklist@.len() ==> #[trigger] old(self).worklist@[k] < constraints.len(),
            old(self).worklist@.no_duplicates(),
            old(changed)@.len() == old(domains)@.len(),
            forall|v: int| 0 <= v < old(changed)@.len() ==> !#[trigger] old(changed)@[v],
            forall|ci: int| 0 <= ci < constraints.len() && #[trigger] settles@(ci) && !old(in_worklist)@[ci]
                ==> settled(constraints@[ci], views(old(domains)@)),
        ensures
            shrinks(views(final(domains)@), views(old(domains)@)),
            keeps_solutions(constraints@, views(old(domains)@), views(final(domains)@)),
            keeps_fixpoints(constraints@, views(old(domains)@), views(final(domains)@)),
            final(changed)@.len() == old(domains)@.len(),
            match r {
                Ok(()) => {
                    &&& final(self).worklist@.len() == 0
                    &&& forall|v: int| 0 <= v < final(changed)@.len() ==> (#[trigger] final(changed)@[v] <==> views(final(domains)@)[v] != views(old(domains)@)[v])
                    &&& forall|ci: int| 0 <= ci < constraints.len() && #[trigger] settles@(ci)
                        ==> settled(constraints@[ci], views(final(domains)@))
                },
                Err(c) => no_solution(constraints@, views(old(domains)@)) && no_fixpoint(constraints@, views(old(domains)@))
                    && names_empty(constraints@, views(final(domains)@), c),
            },
            (forall|k: int| 0 <= k < old(self).worklist@.len()
                ==> settled(constraints@[#[trigger] old(self).worklist@[k] as int], views(old(domains)@)))
                ==> r is Ok && views(final(domains)@) == views(old(domains)@),
            final(self).calls@ <= old(self).calls@ + old(self).worklist@.len()
                + constraints@.len() * crate::domain::total_size(views(old(domains)@)),
    {
        let ghost budget: nat = self.calls@ + self.worklist@.len()
            + constraints@.len() * crate::domain::total_size(views(domains@));
        let ghost quiet = forall|k: int| 0 <= k < self.worklist@.len()
            ==> settled(constraints@[#[trigger] self.worklist@[k] as int], views(domains@));
        let ghost d0 = views(domains@);
        let ghost cs = constraints@;
        let ghost n = domains@.len();
        let clen = constraints.len();
        proof {
            lemma_views_finite(domains@);
        }
        while self.worklist.len() > 0
            invariant
                d0 == views(old(domains)@),
                cs == constraints@,
                cs.len() == clen,
                scopes_in_bounds(cs, n),
                domains@.len() == n,
                vc.len() == n,
                forall|v: int, k: int|
                    0 <= v < vc.len() && 0 <= k < vc[v].len() ==> #[trigger] vc[v]@[k] < cs.len(),
                forall|v: usize, ci: int|
                    v < vc.len() && 0 <= ci < cs.len() && #[trigger] cs[ci].scope_view().contains(v)
                        ==> vc[v as int]@.contains(ci as usize),
                in_worklist@.len() == cs.len(),
                forall|ci: int| 0 <= ci < cs.len() ==> (#[trigger] in_worklist@[ci] <==> self.worklist@.contains(ci as usize)),
                forall|k: int| 0 <= k < self.worklist@.len() ==> #[trigger] self.worklist@[k] < cs.len(),
                self.worklist@.no_duplicates(),
                changed@.len() == n,
                forall|v: int| 0 <= v < n ==> (#[trigger] changed@[v] <==> views(domains@)[v] != d0[v]),
                shrinks(views(domains@), d0),
                all_finite(d0),
                all_finite(views(domains@)),
                keeps_solutions(cs, d0, views(domains@)),
                keeps_fixpoints(cs, d0, views(domains@)),
                forall|ci: int| 0 <= ci < cs.len() && #[trigger] settles@(ci) && !in_worklist@[ci]
                    ==> settled(cs[ci], views(domains@)),
                quiet == (forall|k: int| 0 <= k < old(self).worklist@.len()
                    ==> settled(constraints@[#[trigger] old(self).worklist@[k] as int], views(old(domains)@))),
                budget == old(self).calls@ + old(self).worklist@.len()
                    + constraints@.len() * crate::domain::total_size(views(old(domains)@)),
                self.calls@ + self.worklist@.len() + clen * crate::domain::total_size(views(domains@)) <= budget,
                quiet ==> views(domains@) == d0,
                quiet ==> forall|k: int| 0 <= k < self.worklist@.len()
                    ==> settled(cs[#[trigger] self.worklist@[k] as int], d0),
            decreases crate::domain::total_size(views(domains@)), self.worklist@.len(),
        {
            let ghost wl_head = self.worklist@;
            let ghost inw_head = in_worklist@;
            let ci = self.worklist.pop_front().unwrap();
            in_worklist.set(ci, false);
            proof {
                assert(ci == wl_head[0]);
                assert(self.worklist@ == wl_head.subrange(1, wl_head.len() as int));
                assert forall|cj: int| 0 <= cj < cs.len() implies (#[trigger] in_worklist@[cj] <==> self.worklist@.contains(cj as usize)) by {
                    if self.worklist@.contains(cj as usize) {
                        let j = choose|j: int| 0 <= j < self.worklist@.len() && self.worklist@[j] == cj as usize;
                        assert(wl_head[j + 1] == cj as usize);
                        assert(wl_head.contains(cj as usize));
                        assert(cj != ci);
                    }
                    if cj != ci && inw_head[cj] {
                        assert(wl_head.contains(cj as usize));
                        let j = choose|j: int| 0 <= j < wl_head.len() && wl_head[j] == cj as usize;
                        assert(j != 0);
                        assert(self.worklist@[j - 1] == cj as usize);
                    }
                }
            }
            let constraint = &constraints[ci];
            let scope = constraint.scope();
            let ghost db = views(domains@);
            let ghost wl_mid = self.worklist@;
            proof {
                assert(self.worklist@.contains(ci) ==> true);
                assert(in_bounds(cs[ci as int].scope_view(), n));
            }
            let mut old_sizes: Vec<usize> = Vec::new();
            let mut i: usize = 0;
            while i < scope.len()
                invariant
                    i <= scope.len(),
                    scope@ == cs[ci as int].scope_view(),
                    in_bounds(scope@, n),
                    domains@.len() == n,
                    old_sizes.len() == i,
                    forall|k: int| 0 <= k < i ==> #[trigger] old_sizes@[k] == views(domains@)[scope@[k] as int].len(),
                decreases scope.len() - i,
            {
                old_sizes.push(domains[scope[i]].count());
                i = i + 1;
            }
            proof {
                if quiet {
                    assert(settled(cs[wl_head[0] as int], d0));
                    assert(shrinks(db, db));
                }
            }
            let ghost c_before = self.calls@;
            self.calls = Ghost(self.calls@ + 1);
            let res = constraint.propagate(domains);
            let ghost da = views(domains@);
            proof {
                if quiet {
                    assert(res is Ok && shrinks(db, da));
                    assert forall|v: int| 0 <= v < n implies #[trigger] da[v] == db[v] by {
                        assert(da[v].subset_of(db[v]));
                        assert(db[v].subset_of(da[v]));
                        assert(da[v] =~= db[v]);
                    }
                    assert(da =~= db);
                }
                lemma_views_finite(domains@);
                crate::domain::lemma_total_size_shrinks(da, db);
                // every solution survives
                assert forall|a: Seq<int>| #[trigger] is_solution(cs, d0, a) implies consistent(a, da) by {
                    assert(consistent(a, db));
                    assert(cs[ci as int].holds(a));
                }
                assert forall|v: int| 0 <= v < n implies #[trigger] da[v].subset_of(d0[v]) by {
                    assert(da[v].subset_of(db[v]));
                    assert(db[v].subset_of(d0[v]));
                }
                assert forall|q: Seq<Set<int>>| #[trigger] fixpoint_within(cs, q, d0) implies res is Ok && shrinks(q, da) by {
                    assert(shrinks(q, db));
                    assert(nonempty_on(q, cs[ci as int].scope_view()) && cs[ci as int].stable(q));
                }
            }
            match res {
                Err(c) => {
                    proof {
                        assert forall|a: Seq<int>| !#[trigger] is_solution(cs, d0, a) by {
                            if is_solution(cs, d0, a) {
                                assert(consistent(a, db));
                                assert(cs[ci as int].holds(a));
                            }
                        }
                        assert forall|q: Seq<Set<int>>| !#[trigger] fixpoint_within(cs, q, d0) by {
                            if fixpoint_within(cs, q, d0) {
                                assert(res is Ok);
                            }
                        }
                    }
                    proof {
                        if cs[ci as int].scope_view().len() == 0 {
                            assert(exists|cj: int| 0 <= cj < cs.len() && (#[trigger] cs[cj]).scope_view().len() == 0);
                        } else {
                            assert(cs[ci as int].scope_view().contains(c.variable));
                            assert(c.variable < n);
                        }
                    }
                    proof {
                        lemma_queue_len(wl_head, clen as nat);
                        lemma_round_budget(c_before, wl_head.len(), wl_mid.len(), clen as nat,
                            crate::domain::total_size(db), crate::domain::total_size(da), false);
                    }
                    return Err(c);
                },
                Ok(()) => {},
            }
            let ghost mut pushed = false;
            let mut i: usize = 0;
            while i < scope.len()
                invariant
                    i <= scope.len(),
                    cs == constraints@,
                    cs.len() == clen,
                    ci < cs.len(),
                    scope@ == cs[ci as int].scope_view(),
                    in_bounds(scope@, n),
                    domains@.len() == n,
                    da == views(domains@),
                    old_sizes.len() == scope.len(),
                    forall|k: int| 0 <= k < scope.len() ==> #[trigger] old_sizes@[k] == db[scope@[k] as int].len(),
                    all_finite(db),
                    vc.len() == n,
                    forall|v: int, k: int|
                        0 <= v < vc.len() && 0 <= k < vc[v].len() ==> #[trigger] vc[v]@[k] < cs.len(),
                    in_worklist@.len() == cs.len(),
                    !in_worklist@[ci as int],
                    forall|cj: int| 0 <= cj < cs.len() ==> (#[trigger] in_worklist@[cj] <==> self.worklist@.contains(cj as usize)),
                    forall|k: int| 0 <= k < self.worklist@.len() ==> #[trigger] self.worklist@[k] < cs.len(),
                    self.worklist@.no_duplicates(),
                    d0 == views(old(domains)@),
                    forall|k: int| 0 <= k < wl_mid.len() ==> #[trigger] self.worklist@.contains(wl_mid[k]),
                    pushed ==> exists|v: int| 0 <= v < n && #[trigger] da[v] != db[v],
                    quiet ==> da == db && db == d0 && settled(cs[ci as int], d0),
                    budget == old(self).calls@ + old(self).worklist@.len()
                        + constraints@.len() * crate::domain::total_size(views(old(domains)@)),
                    c_before + wl_head.len() + clen * crate::domain::total_size(db) <= budget,
                    self.calls@ == c_before + 1,
                    wl_head.len() >= 1,
                    wl_mid.len() == wl_head.len() - 1,
                    crate::domain::total_size(da) <= crate::domain::total_size(db),
                    (exists|v: int| 0 <= v < n && #[trigger] da[v] != db[v])
                        ==> crate::domain::total_size(da) < crate::domain::total_size(db),
                    quiet == (forall|k: int| 0 <= k < old(self).worklist@.len()
                        ==> settled(constraints@[#[trigger] old(self).worklist@[k] as int], views(old(domains)@))),
                    !pushed ==> self.worklist@ == wl_mid,
                    changed@.len() == n,
                    forall|v: int| 0 <= v < n && !scope@.subrange(0, i as int).contains(v as usize)
                        ==> (#[trigger] changed@[v] <==> db[v] != d0[v]),
                    forall|v: int| 0 <= v < n && scope@.subrange(0, i as int).contains(v as usize)
                        ==> (#[trigger] changed@[v] <==> da[v] != d0[v]),
                    shrinks(da, db),
                    shrinks(db, d0),
                    shrinks(da, d0),
                    keeps_solutions(cs, d0, da),
                    keeps_fixpoints(cs, d0, da),
                    all_finite(da),
                    nonempty_on(da, scope@.subrange(0, i as int)),
                    forall|k: int, cj: int|
                        0 <= k < i && 0 <= cj < cs.len() && cj != ci
                            && da[scope@[k] as int] != db[scope@[k] as int]
                            && #[trigger] vc[scope@[k] as int]@.contains(cj as usize)
                            ==> in_worklist@[cj],
                decreases scope.len() - i,
            {
                let v = scope[i];
                if domains[v].is_empty() {
                    proof {
                        lemma_views_finite(domains@);
                        crate::constraint::lemma_empty_len(da[v as int]);
                        if quiet {
                            assert(scope@[i as int] == v);
                            assert(d0[v as int].len() > 0);
                        }
                        lemma_queue_len(self.worklist@, clen as nat);
                        lemma_round_budget(c_before, wl_head.len(), self.worklist@.len(), clen as nat,
                            crate::domain::total_size(db), crate::domain::total_size(da), pushed);
                        assert forall|a: Seq<int>| !#[trigger] is_solution(cs, d0, a) by {
                            if is_solution(cs, d0, a) {
                                assert(consistent(a, da));
                                assert(da[v as int].contains(a[v as int]));
                            }
                        }
                        assert forall|q: Seq<Set<int>>| !#[trigger] fixpoint_within(cs, q, d0) by {
                            if fixpoint_within(cs, q, d0) {
                                assert(shrinks(q, da));
                                assert(nonempty_on(q, cs[ci as int].scope_view()));
                                assert(scope@[i as int] == v);
                                assert(q[v as int].len() > 0);
                                assert(q[v as int].subset_of(da[v as int]));
                                crate::constraint::lemma_nonempty_within(q[v as int], da[v as int]);
                            }
                        }
                    }
                    return Err(Contradiction { variable: v });
                }
                let cur = domains[v].count();
                proof {
                    crate::constraint::lemma_empty_len(da[v as int]);
                    assert(da[v as int].subset_of(db[v as int]));
                    vstd::set_lib::lemma_len_subset(da[v as int], db[v as int]);
                    if cur == old_sizes[i as int] {
                        vstd::set_lib::lemma_subset_equality(da[v as int], db[v as int]);
                    }
                }
                let ghost wl_before = self.worklist@;
                let ghost inw_before = in_worklist@;
                let ghost ch_before = changed@;
                if cur < old_sizes[i] {
                    changed.set(v, true);
                    let others = &vc[v];
                    let mut k: usize = 0;
                    while k < others.len()
                        invariant
                            self.calls@ == c_before + 1,
                            k <= others.len(),
                            others@ == vc[v as int]@,
                            cs == constraints@,
                            cs.len() == clen,
                            forall|j: int| 0 <= j < others.len() ==> #[trigger] others@[j] < cs.len(),
                            ci < cs.len(),
                            in_worklist@.len() == cs.len(),
                            !in_worklist@[ci as int],
                            forall|cj: int| 0 <= cj < cs.len() ==> (#[trigger] in_worklist@[cj] <==> self.worklist@.contains(cj as usize)),
                            forall|j: int| 0 <= j < self.worklist@.len() ==> #[trigger] self.worklist@[j] < cs.len(),
                            self.worklist@.no_duplicates(),
                            forall|j: int| 0 <= j < wl_before.len() ==> #[trigger] self.worklist@.contains(wl_before[j]),
                            forall|cj: int| 0 <= cj < cs.len() && #[trigger] inw_before[cj] ==> in_worklist@[cj],
                            forall|j: int| 0 <= j < k && others@[j] != ci ==> #[trigger] in_worklist@[others@[j] as int],
                        decreases others.len() - k,
                    {
                        let other = others[k];
                        if other != ci && !in_worklist[other] {
                            let ghost wb = self.worklist@;
                            let ghost ib = in_worklist@;
                            self.worklist.push_back(other);
                            in_worklist.set(other, true);
                            proof {
                                assert(self.worklist@ == wb.push(other));
                                assert(!wb.contains(other));
                                assert forall|a: int, b: int| 0 <= a < self.worklist@.len() && 0 <= b < self.worklist@.len() && a != b
                                    implies self.worklist@[a] != self.worklist@[b] by {
                                    if b == wb.len() {
                                        assert(wb[a] != other);
                                    } else if a == wb.len() {
                                        assert(wb[b] != other);
                                    }
                                }
                                assert(in_worklist@ == ib.update(other as int, true));
                                assert(self.worklist@[wb.len() as int] == other);
                                assert forall|cj: int| 0 <= cj < cs.len() implies (#[trigger] in_worklist@[cj] <==> self.worklist@.contains(cj as usize)) by {
                                    vstd::seq_lib::lemma_seq_contains_after_push(wb, other, cj as usize);
                                    if cj as usize != other {
                                        assert(in_worklist@[cj] == ib[cj]);
                                        assert(ib[cj] <==> wb.contains(cj as usize));
                                        assert(wb.push(other).contains(cj as usize) == wb.contains(cj as usize));
                                    } else {
                                        assert(in_worklist@[cj]);
                                        assert(wb.push(other).contains(cj as usize));
                                    }
                                    assert(in_worklist@[cj] <==> wb.push(other).contains(cj as usize));
                                }
                                assert forall|j: int| 0 <= j < wl_before.len() implies #[trigger] self.worklist@.contains(wl_before[j]) by {
                                    let x = wl_before[j];
                                    assert(wb.contains(x));
                                    let m = choose|m: int| 0 <= m < wb.len() && wb[m] == x;
                                    assert(self.worklist@[m] == x);
                                }
                            }
                        }
                        k = k + 1;
                    }
                    proof {
                        pushed = true;
                        assert forall|cj: int| 0 <= cj < cs.len() && cj != ci && #[trigger] vc[v as int]@.contains(cj as usize)
                            implies in_worklist@[cj] by {
                            let j = choose|j: int| 0 <= j < vc[v as int]@.len() && vc[v as int]@[j] == cj as usize;
                            assert(others@[j] == cj as usize);
                            assert(cj <= usize::MAX);
                            assert(others@[j] != ci);
                            assert(in_worklist@[others@[j] as int]);
                        }
                    }
                }
                proof {
                    assert(scope@.subrange(0, i + 1) =~= scope@.subrange(0, i as int).push(v));
                    assert forall|u: int| 0 <= u < n && !scope@.subrange(0, i + 1).contains(u as usize)
                        implies (#[trigger] changed@[u] <==> db[u] != d0[u]) by {
                        vstd::seq_lib::lemma_seq_contains_after_push(scope@.subrange(0, i as int), v, u as usize);
                        assert(!scope@.subrange(0, i as int).contains(u as usize));
                        assert(changed@[u] == ch_before[u]);
                    }
                    assert forall|u: int| 0 <= u < n && scope@.subrange(0, i + 1).contains(u as usize)
                        implies (#[trigger] changed@[u] <==> da[u] != d0[u]) by {
                        vstd::seq_lib::lemma_seq_contains_after_push(scope@.subrange(0, i as int), v, u as usize);
                        if u != v {
                            assert(scope@.subrange(0, i as int).contains(u as usize));
                            assert(changed@[u] == ch_before[u]);
                        }
                        assert(da[u].subset_of(db[u]));
                        assert(db[u].subset_of(d0[u]));
                        if da[u] != db[u] && da[u] == d0[u] {
                            assert(db[u] =~= d0[u]);
                        }
                    }
                    assert forall|kk: int| 0 <= kk < i + 1 implies #[trigger] da[scope@.subrange(0, i + 1)[kk] as int].len() > 0 by {
                        if kk < i {
                            assert(scope@.subrange(0, i + 1)[kk] == scope@.subrange(0, i as int)[kk]);
                        }
                    }
                    assert forall|kk: int, cj: int|
                        0 <= kk < i + 1 && 0 <= cj < cs.len() && cj != ci
                            && da[scope@[kk] as int] != db[scope@[kk] as int]
                            && #[trigger] vc[scope@[kk] as int]@.contains(cj as usize)
                            implies in_worklist@[cj] by {
                        if kk == i {
                            assert(vc[v as int]@.contains(cj as usize));
                        } else {
                            assert(inw_before[cj]);
                        }
                    }
                    assert forall|k: int| 0 <= k < wl_mid.len() implies #[trigger] self.worklist@.contains(wl_mid[k]) by {
                        let x = wl_mid[k];
                        assert(wl_before.contains(x));
                        let m = choose|m: int| 0 <= m < wl_before.len() && wl_before[m] == x;
                    }
                }
                i = i + 1;
            }
            proof {
                assert(scope@.subrange(0, scope@.len() as int) =~= scope@);
                assert forall|v: int| 0 <= v < n implies (#[trigger] changed@[v] <==> da[v] != d0[v]) by {
                    if !scope@.contains(v as usize) {
                        assert(da[v] == db[v]);
                    }
                }
                // the constraints left out of the worklist keep their settledness
                assert forall|cj: int| 0 <= cj < cs.len() && #[trigger] settles@(cj) && !in_worklist@[cj]
                    implies settled(cs[cj], da) by {
                    if cj == ci {
                        assert(settled(cs[ci as int], da));
                    } else {
                        assert(!wl_mid.contains(cj as usize)) by {
                            if wl_mid.contains(cj as usize) {
                                let k = choose|k: int| 0 <= k < wl_mid.len() && wl_mid[k] == cj as usize;
                                assert(self.worklist@.contains(wl_mid[k]));
                            }
                        }
                        assert(!inw_head[cj]) by {
                            if inw_head[cj] {
                                assert(wl_head.contains(cj as usize));
                                let j = choose|j: int| 0 <= j < wl_head.len() && wl_head[j] == cj as usize;
                                assert(j != 0);
                                assert(wl_mid[j - 1] == cj as usize);
                            }
                        }
                        assert(settled(cs[cj], db));
                        assert(in_bounds(cs[cj].scope_view(), n));
                        assert forall|k: int| 0 <= k < cs[cj].scope_view().len() implies
                            #[trigger] da[cs[cj].scope_view()[k] as int] == db[cs[cj].scope_view()[k] as int] by {
                            let u = cs[cj].scope_view()[k];
                            assert(cs[cj].scope_view().contains(u));
                            assert(vc[u as int]@.contains(cj as usize));
                            if scope@.contains(u) {
                                let kk = choose|kk: int| 0 <= kk < scope@.len() && scope@[kk] == u;
                                assert(vc[scope@[kk] as int]@.contains(cj as usize));
                            }
                        }
                        lemma_settled_frame(cs[cj], db, da);
                    }
                }
                if pushed {
                    let v = choose|v: int| 0 <= v < n && #[trigger] da[v] != db[v];
                    assert(exists|v: int| 0 <= v < da.len() && #[trigger] da[v] != db[v]);
                }
                lemma_queue_len(self.worklist@, clen as nat);
                lemma_round_budget(c_before, wl_head.len(), self.worklist@.len(), clen as nat,
                    crate::domain::total_size(db), crate::domain::total_size(da), pushed);
                if quiet {
                    assert(self.worklist@ == wl_mid);
                    assert forall|k: int| 0 <= k < self.worklist@.len() implies settled(cs[#[trigger] self.worklist@[k] as int], d0) by {
                        assert(self.worklist@[k] == wl_head[k + 1]);
                    }
                }
            }
        }
        Ok(())
    }

    /// The indices whose flag is set, in increasing order.
    fn flagged(flags: &Vec<bool>) -> (list: Vec<usize>)
        ensures
            forall|i: int, j: int| 0 <= i < j < list.len() ==> list[i] < list[j],
            forall|i: int| 0 <= i < list.len() ==> #[trigger] list@[i] < flags.len() && flags@[list@[i] as int],
            forall|v: int| 0 <= v < flags.len() && #[trigger] flags@[v] ==> list@.contains(v as usize),
    {
        let mut list: Vec<usize> = Vec::new();
        let mut v: usize = 0;
        while v < flags.len()
            invariant
                v <= flags.len(),
                forall|i: int, j: int| 0 <= i < j < list.len() ==> list[i] < list[j],
                forall|i: int| 0 <= i < list.len() ==> list[i] < v,
                forall|i: int| 0 <= i < list.len() ==> #[trigger] list@[i] < flags.len() && flags@[list@[i] as int],
                forall|u: int| 0 <= u < v && #[trigger] flags@[u] ==> list@.contains(u as usize),
            decreases flags.len() - v,
        {
            if flags[v] {
                let ghost before = list@;
                list.push(v);
                proof {
                    assert forall|u: int| 0 <= u < v + 1 && #[trigger] flags@[u] implies list@.contains(u as usize) by {
                        vstd::seq_lib::lemma_seq_contains_after_push(before, v, u as usize);
                    }
                }
            }
            v = v + 1;
        }
        list
    }

    /// Run propagation to fixpoint.
    /// Returns the set of variable indices whose domains changed.
    pub fn propagate<const W: usize, C: Constraint<W>>(
        &mut self,
        domains: &mut Vec<BitSet<W>>,
        constraints: &[C],
    ) -> (r: Result<Vec<usize>, Contradiction>)
        requires
            scopes_in_bounds(constraints@, old(domains)@.len()),
        ensures
            propagation_outcome(constraints@, views(old(domains)@), views(final(domains)@), r),
            r is Ok ==> forall|ci: int| 0 <= ci < constraints@.len() ==> settled(#[trigger] constraints@[ci], views(final(domains)@)),
            r is Ok ==> final(self).queue().len() == 0,
            final(self).calls() <= old(self).calls()
                + constraints@.len() * (1 + crate::domain::total_size(views(old(domains)@))),
    {
        let ghost c0 = self.calls@;
        let n = domains.len();
        let vc = Self::index_scopes(n, constraints);
        self.worklist.clear();
        let mut in_worklist: Vec<bool> = Vec::new();
        let mut i: usize = 0;
        while i < constraints.len()
            invariant
                i <= constraints.len(),
                self.calls@ == c0,
                self.worklist@.len() == i,
                in_worklist@.len() == i,
                forall|k: int| 0 <= k < i ==> #[trigger] self.worklist@[k] == k,
                forall|k: int| 0 <= k < i ==> #[trigger] in_worklist@[k],
            decreases constraints.len() - i,
        {
            self.worklist.push_back(i);
            in_worklist.push(true);
            i = i + 1;
        }
        proof {
            assert forall|ci: int| 0 <= ci < constraints.len() implies (#[trigger] in_worklist@[ci] <==> self.worklist@.contains(ci as usize)) by {
                assert(self.worklist@[ci] == ci);
            }
        }
        let mut changed: Vec<bool> = Vec::new();
        let mut v: usize = 0;
        while v < n
            invariant
                v <= n,
                changed@.len() == v,
                forall|k: int| 0 <= k < v ==> !#[trigger] changed@[k],
            decreases n - v,
        {
            changed.push(false);
            v = v + 1;
        }
        let ghost all: spec_fn(int) -> bool = |ci: int| true;
        let ghost d0 = views(domains@);
        assert(d0 == views(old(domains)@));
        let res = self.run(&mut *domains, constraints, &vc, &mut in_worklist, &mut changed, Ghost(all));
        assert(keeps_solutions(constraints@, d0, views(domains@)));
        proof {
            let t = crate::domain::total_size(d0);
            let m = constraints@.len();
            assert(m + m * t == m * (1 + t)) by (nonlinear_arith);
        }
        match res {
            Err(c) => Err(c),
            Ok(()) => {
                let list = Self::flagged(&changed);
                assert(changed@.len() == d0.len());
                assert(forall|v: int| 0 <= v < d0.len() ==> (changed@[v] <==> views(domains@)[v] != d0[v]));
                proof {
                    assert forall|v: int| 0 <= v < views(old(domains)@).len() && #[trigger] views(domains@)[v] != views(old(domains)@)[v]
                        implies list@.contains(v as usize) by {
                        assert(changed@[v]);
                    }
                    assert forall|ci: int| 0 <= ci < constraints@.len() implies settled(#[trigger] constraints@[ci], views(domains@)) by {
                        assert(all(ci));
                    }
                }
                Ok(list)
            },
        }
    }

    /// Incremental propagation: only re-check constraints involving the given variables.
    pub fn propagate_incremental<const W: usize, C: Constraint<W>>(
        &mut self,
        domains: &mut Vec<BitSet<W>>,
        constraints: &[C],
        changed_vars: &[usize],
    ) -> (r: Result<Vec<usize>, Contradiction>)
        requires
            scopes_in_bounds(constraints@, old(domains)@.len()),
            in_bounds(changed_vars@, old(domains)@.len()),
        ensures
            propagation_outcome(constraints@, views(old(domains)@), views(final(domains)@), r),
            r is Ok ==> forall|ci: int|
                0 <= ci < constraints@.len() && (touches(#[trigger] constraints@[ci], changed_vars@)
                    || settled(constraints@[ci], views(old(domains)@)))
                    ==> settled(constraints@[ci], views(final(domains)@)),
            r is Ok ==> final(self).queue().len() == 0,
            (forall|ci: int| 0 <= ci < constraints@.len() && touches(#[trigger] constraints@[ci], changed_vars@)
                ==> settled(constraints@[ci], views(old(domains)@)))
                ==> (r matches Ok(list) && list@.len() == 0) && views(final(domains)@) == views(old(domains)@),
            final(self).calls() <= old(self).calls()
                + constraints@.len() * (1 + crate::domain::total_size(views(old(domains)@))),
    {
        let ghost c0 = self.calls@;
        let n = domains.len();
        let vc = Self::index_scopes(n, constraints);
        self.worklist.clear();
        let mut in_worklist: Vec<bool> = Vec::new();
        let mut i: usize = 0;
        while i < constraints.len()
            invariant
                i <= constraints.len(),
                in_worklist@.len() == i,
                forall|k: int| 0 <= k < i ==> !#[trigger] in_worklist@[k],
            decreases constraints.len() - i,
        {
            in_worklist.push(false);
            i = i + 1;
        }
        let ghost cs = constraints@;
        let clen = constraints.len();
        let mut k: usize = 0;
        while k < changed_vars.len()
            invariant
                cs == constraints@,
                cs.len() == clen,
                self.calls@ == c0,
                in_bounds(changed_vars@, n as nat),
                k <= changed_vars.len(),
                vc.len() == n,
                forall|v: int, j: int| 0 <= v < n && 0 <= j < vc[v].len() ==> #[trigger] vc[v]@[j] < cs.len(),
                in_worklist@.len() == cs.len(),
                forall|ci: int| 0 <= ci < cs.len() ==> (#[trigger] in_worklist@[ci] <==> self.worklist@.contains(ci as usize)),
                forall|j: int| 0 <= j < self.worklist@.len() ==> #[trigger] self.worklist@[j] < cs.len(),
                self.worklist@.no_duplicates(),
                forall|kk: int, ci: int| 0 <= kk < k && 0 <= ci < cs.len() && #[trigger] vc[changed_vars@[kk] as int]@.contains(ci as usize)
                    ==> in_worklist@[ci],
                forall|v: int, j: int| 0 <= v < n && 0 <= j < vc[v].len()
                    ==> cs[#[trigger] vc[v]@[j] as int].scope_view().contains(v as usize),
                forall|m: int| 0 <= m < self.worklist@.len() ==> touches(cs[#[trigger] self.worklist@[m] as int], changed_vars@),
            decreases changed_vars.len() - k,
        {
            let v = changed_vars[k];
            let others = &vc[v];
            let mut j: usize = 0;
            let ghost inw_start = in_worklist@;
            while j < others.len()
                invariant
                    cs == constraints@,
                    cs.len() == clen,
                    self.calls@ == c0,
                    others@ == vc[v as int]@,
                    forall|m: int| 0 <= m < others.len() ==> #[trigger] others@[m] < cs.len(),
                    j <= others.len(),
                    in_worklist@.len() == cs.len(),
                    forall|ci: int| 0 <= ci < cs.len() ==> (#[trigger] in_worklist@[ci] <==> self.worklist@.contains(ci as usize)),
                    forall|m: int| 0 <= m < self.worklist@.len() ==> #[trigger] self.worklist@[m] < cs.len(),
                    self.worklist@.no_duplicates(),
                    forall|ci: int| 0 <= ci < cs.len() && #[trigger] inw_start[ci] ==> in_worklist@[ci],
                    forall|m: int| 0 <= m < j ==> #[trigger] in_worklist@[others@[m] as int],
                    v < n,
                    v == changed_vars@[k as int],
                    k < changed_vars@.len(),
                    forall|m: int| 0 <= m < others.len() ==> cs[#[trigger] others@[m] as int].scope_view().contains(v),
                    forall|m: int| 0 <= m < self.worklist@.len() ==> touches(cs[#[trigger] self.worklist@[m] as int], changed_vars@),
                decreases others.len() - j,
            {
                let ci = others[j];
                if !in_worklist[ci] {
                    let ghost wb = self.worklist@;
                    let ghost ib = in_worklist@;
                    self.worklist.push_back(ci);
                    in_worklist.set(ci, true);
                    proof {
                        assert(self.worklist@ == wb.push(ci));
                        assert(!wb.contains(ci));
                        assert(cs[ci as int].scope_view().contains(changed_vars@[k as int]));
                        assert forall|m: int| 0 <= m < self.worklist@.len() implies touches(cs[#[trigger] self.worklist@[m] as int], changed_vars@) by {
                            if m < wb.len() {
                                assert(self.worklist@[m] == wb[m]);
                            }
                        }
                        assert forall|a: int, b: int| 0 <= a < self.worklist@.len() && 0 <= b < self.worklist@.len() && a != b
                            implies self.worklist@[a] != self.worklist@[b] by {
                            if b == wb.len() {
                                assert(wb[a] != ci);
                            } else if a == wb.len() {
                                assert(wb[b] != ci);
                            }
                        }
                        assert forall|cj: int| 0 <= cj < cs.len() implies (#[trigger] in_worklist@[cj] <==> self.worklist@.contains(cj as usize)) by {
                            vstd::seq_lib::lemma_seq_contains_after_push(wb, ci, cj as usize);
                            if cj as usize != ci {
                                assert(in_worklist@[cj] == ib[cj]);
                            } else {
                                assert(in_worklist@[cj]);
                            }
                        }
                    }
                }
                j = j + 1;
            }
            proof {
                assert forall|kk: int, ci: int| 0 <= kk < k + 1 && 0 <= ci < cs.len() && #[trigger] vc[changed_vars@[kk] as int]@.contains(ci as usize)
                    implies in_worklist@[ci] by {
                    if kk == k {
                        let m = choose|m: int| 0 <= m < others@.len() && others@[m] == ci as usize;
                        assert(in_worklist@[others@[m] as int]);
                    } else {
                        assert(inw_start[ci]);
                    }
                }
            }
            k = k + 1;
        }
        let mut changed: Vec<bool> = Vec::new();
        let mut v: usize = 0;
        while v < n
            invariant
                v <= n,
                changed@.len() == v,
                forall|k: int| 0 <= k < v ==> !#[trigger] changed@[k],
            decreases n - v,
        {
            changed.push(false);
            v = v + 1;
        }
        let ghost d0 = views(domains@);
        let ghost chosen: spec_fn(int) -> bool = |ci: int| touches(cs[ci], changed_vars@) || settled(cs[ci], d0);
        proof {
            assert forall|ci: int| 0 <= ci < cs.len() && #[trigger] chosen(ci) && !in_worklist@[ci]
                implies settled(cs[ci], d0) by {
                if touches(cs[ci], changed_vars@) {
                    let kk = choose|kk: int| 0 <= kk < changed_vars@.len() && cs[ci].scope_view().contains(#[trigger] changed_vars@[kk]);
                    let u = changed_vars@[kk];
                    assert(vc[u as int]@.contains(ci as usize));
                }
            }
        }
        proof {
            if forall|ci: int| 0 <= ci < cs.len() && touches(#[trigger] cs[ci], changed_vars@) ==> settled(cs[ci], d0) {
                assert forall|m: int| 0 <= m < self.worklist@.len() implies settled(cs[#[trigger] self.worklist@[m] as int], d0) by {
                    assert(touches(cs[self.worklist@[m] as int], changed_vars@));
                }
            }
        }
        proof {
            lemma_queue_len(self.worklist@, clen as nat);
            let t = crate::domain::total_size(d0);
            let m = clen as nat;
            assert(m + m * t == m * (1 + t)) by (nonlinear_arith);
        }
        match self.run(&mut *domains, constraints, &vc, &mut in_worklist, &mut changed, Ghost(chosen)) {
            Err(c) => Err(c),
            Ok(()) => {
                let list = Self::flagged(&changed);
                proof {
                    if views(domains@) == d0 && list@.len() > 0 {
                        assert(changed@[list@[0] as int]);
                    }
                    assert forall|v: int| 0 <= v < views(old(domains)@).len() && #[trigger] views(domains@)[v] != views(old(domains)@)[v]
                        implies list@.contains(v as usize) by {
                        assert(changed@[v]);
                    }
                    assert forall|ci: int|
                        0 <= ci < constraints@.len() && (touches(#[trigger] constraints@[ci], changed_vars@)
                            || settled(constraints@[ci], d0))
                        implies settled(constraints@[ci], views(domains@)) by {
                        assert(chosen(ci));
                    }
                }
                Ok(list)
            },
        }
    }
}

} // verus!
