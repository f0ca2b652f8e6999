//! Main constraint solver.

use vstd::prelude::*;
use crate::bitset::BitSet;
use crate::backtrack::BacktrackStrategy;
use crate::config::{Heuristic, SolverConfig};
use crate::constraint::{Constraint, the_value, lemma_single};
use crate::domain::{all_finite, Domain, DomainSnapshot, consistent, copy_domains, in_bounds, lemma_views_finite, set_domain, shrinks, views, total_size, lemma_total_size_shrinks};
use crate::error::{Contradiction, SolveError};
use crate::rng::shuffle;
use rand::rngs::SmallRng;
use crate::propagator::{Propagator, fixpoint_within, names_empty, keeps_fixpoints, no_fixpoint, is_solution, keeps_solutions, no_solution, scopes_in_bounds, settled, touches};
use crate::rule::Rule;

verus! {

/// A solution: mapping from variable index to assigned value.
#[derive(Debug)]
pub struct Solution {
    pub values: Vec<usize>,
}

/// Result of a successful solve.
#[derive(Debug)]
pub struct SolveResult {
    pub solution: Solution,
    pub propagation_rounds: usize,
    pub backtracks: usize,
}

/// The values of the domains, each read as its only member.
pub open spec fn decided_values(doms: Seq<Set<int>>) -> Seq<int> {
    Seq::new(doms.len(), |i: int| the_value(doms[i]))
}

/// The values of a solution, as integers.
pub open spec fn as_ints(values: Seq<usize>) -> Seq<int> {
    values.map_values(|x: usize| x as int)
}

/// Every domain holds exactly one value.
pub open spec fn all_decided(doms: Seq<Set<int>>) -> bool {
    forall|i: int| 0 <= i < doms.len() ==> #[trigger] doms[i].len() == 1
}

/// The outcome of running propagation over all constraints from `before` to `after`:
/// domains only shrink, every solution and every common fixpoint of the constraints
/// stays, a success settles every constraint, and a failure means there is no solution
/// and no common fixpoint within `before`.
pub open spec fn run_outcome<const W: usize, C: Constraint<W>>(
    cs: Seq<C>,
    before: Seq<Set<int>>,
    after: Seq<Set<int>>,
    ok: bool,
) -> bool {
    &&& narrows_keeping(cs, before, after)
    &&& ok ==> forall|ci: int| 0 <= ci < cs.len() ==> settled(#[trigger] cs[ci], after)
    &&& !ok ==> no_solution(cs, before) && no_fixpoint(cs, before)
}

/// `after` lies within `before` and keeps every solution and every common fixpoint of
/// the constraints that lies within `before`.
pub open spec fn narrows_keeping<const W: usize, C: Constraint<W>>(
    cs: Seq<C>,
    before: Seq<Set<int>>,
    after: Seq<Set<int>>,
) -> bool {
    &&& shrinks(after, before)
    &&& keeps_solutions(cs, before, after)
    &&& keeps_fixpoints(cs, before, after)
}

/// A propagation run from domains that narrow `start` keeping its solutions and
/// fixpoints has the same outcome as one from `start`.
pub proof fn lemma_outcome_from<const W: usize, C: Constraint<W>>(
    cs: Seq<C>,
    start: Seq<Set<int>>,
    mid: Seq<Set<int>>,
    after: Seq<Set<int>>,
    ok: bool,
)
    requires
        narrows_keeping(cs, start, mid),
        run_outcome(cs, mid, after, ok),
    ensures
        run_outcome(cs, start, after, ok),
{
    assert forall|u: int| 0 <= u < start.len() implies #[trigger] after[u].subset_of(start[u]) by {
        assert(after[u].subset_of(mid[u]));
        assert(mid[u].subset_of(start[u]));
    }
    assert forall|a: Seq<int>| #[trigger] is_solution(cs, start, a) implies consistent(a, after) by {
        assert(consistent(a, mid));
        assert(is_solution(cs, mid, a));
    }
    assert forall|q: Seq<Set<int>>| #[trigger] fixpoint_within(cs, q, start) implies shrinks(q, after) by {
        assert(shrinks(q, mid));
        assert(fixpoint_within(cs, q, mid));
    }
    if !ok {
        assert forall|a: Seq<int>| !#[trigger] is_solution(cs, start, a) by {
            if is_solution(cs, start, a) {
                assert(consistent(a, mid));
                assert(is_solution(cs, mid, a));
            }
        }
        assert forall|q: Seq<Set<int>>| !#[trigger] fixpoint_within(cs, q, start) by {
            if fixpoint_within(cs, q, start) {
                assert(shrinks(q, mid));
                assert(forall|ci: int| 0 <= ci < cs.len() ==> crate::domain::nonempty_on(q, #[trigger] cs[ci].scope_view()) && cs[ci].stable(q));
                assert(fixpoint_within(cs, q, mid));
                assert(!fixpoint_within(cs, q, mid));
            }
        }
    }
}

/// Fixing variable `var` to `value` and propagating, from domains that narrow `start`
/// keeping its solutions and fixpoints, has the outcome of a propagation run from `start`
/// with that variable fixed in the same way.
pub proof fn lemma_fixing_keeps<const W: usize, C: Constraint<W>>(
    cs: Seq<C>,
    start: Seq<Set<int>>,
    cur: Seq<Set<int>>,
    var: int,
    value: int,
    after: Seq<Set<int>>,
    ok: bool,
)
    requires
        narrows_keeping(cs, start, cur),
        0 <= var < start.len(),
        start[var].contains(value),
        run_outcome(cs, cur.update(var, set![value]), after, ok),
    ensures
        run_outcome(cs, start.update(var, set![value]), after, ok),
{
    let fixed_start = start.update(var, set![value]);
    let fixed_cur = cur.update(var, set![value]);
    assert(narrows_keeping(cs, fixed_start, fixed_cur)) by {
        assert forall|u: int| 0 <= u < fixed_start.len() implies #[trigger] fixed_cur[u].subset_of(fixed_start[u]) by {
            if u != var {
                assert(cur[u].subset_of(start[u]));
            }
        }
        assert forall|a: Seq<int>| #[trigger] is_solution(cs, fixed_start, a) implies consistent(a, fixed_cur) by {
            assert forall|u: int| 0 <= u < a.len() implies #[trigger] start[u].contains(a[u]) by {
                assert(fixed_start[u].contains(a[u]));
            }
            assert(is_solution(cs, start, a));
            assert(consistent(a, cur));
            assert forall|u: int| 0 <= u < a.len() implies #[trigger] fixed_cur[u].contains(a[u]) by {
                if u != var {
                    assert(cur[u].contains(a[u]));
                } else {
                    assert(fixed_start[u].contains(a[u]));
                }
            }
        }
        assert forall|q: Seq<Set<int>>| #[trigger] fixpoint_within(cs, q, fixed_start) implies shrinks(q, fixed_cur) by {
            assert forall|u: int| 0 <= u < start.len() implies #[trigger] q[u].subset_of(start[u]) by {
                assert(q[u].subset_of(fixed_start[u]));
                if u == var {
                    assert(fixed_start[u].subset_of(start[u]));
                }
            }
            assert(fixpoint_within(cs, q, start));
            assert(shrinks(q, cur));
            assert forall|u: int| 0 <= u < fixed_cur.len() implies #[trigger] q[u].subset_of(fixed_cur[u]) by {
                if u != var {
                    assert(q[u].subset_of(cur[u]));
                } else {
                    assert(q[u].subset_of(fixed_start[u]));
                }
            }
        }
    }
    lemma_outcome_from(cs, fixed_start, fixed_cur, after, ok);
}

/// When every domain is decided and every constraint is settled, the decided values
/// form a solution.
pub proof fn lemma_decided_is_solution<const W: usize, C: Constraint<W>>(cs: Seq<C>, doms: Seq<Set<int>>)
    requires
        all_decided(doms),
        forall|i: int| 0 <= i < doms.len() ==> #[trigger] doms[i].finite(),
        scopes_in_bounds(cs, doms.len()),
        forall|ci: int| 0 <= ci < cs.len() ==> settled(#[trigger] cs[ci], doms),
    ensures
        is_solution(cs, doms, decided_values(doms)),
{
    let a = decided_values(doms);
    assert forall|i: int| 0 <= i < a.len() implies #[trigger] doms[i].contains(a[i]) by {
        lemma_single(doms[i]);
    }
    assert forall|ci: int| 0 <= ci < cs.len() implies #[trigger] cs[ci].holds(a) by {
        assert(settled(cs[ci], doms));
        let s = cs[ci].scope_view();
        assert(in_bounds(s, doms.len()));
        assert forall|k: int| 0 <= k < s.len() implies #[trigger] doms[s[k] as int].len() == 1 by {}
    }
}

/// How many domains hold two values or more: the variables still open to a choice.
pub open spec fn open_count(doms: Seq<Set<int>>) -> nat
    decreases doms.len(),
{
    if doms.len() == 0 {
        0
    } else {
        open_count(doms.drop_last()) + if doms.last().len() >= 2 { 1nat } else { 0nat }
    }
}

/// At most every domain is open.
proof fn lemma_open_count_bound(doms: Seq<Set<int>>)
    ensures
        open_count(doms) <= doms.len(),
    decreases doms.len(),
{
    if doms.len() > 0 {
        lemma_open_count_bound(doms.drop_last());
    }
}

/// Narrowing finite domains opens none, and narrowing an open domain to at most one
/// value closes one.
proof fn lemma_open_count_shrinks(after: Seq<Set<int>>, before: Seq<Set<int>>, var: int)
    requires
        shrinks(after, before),
        all_finite(before),
    ensures
        open_count(after) <= open_count(before),
        0 <= var < before.len() && before[var].len() >= 2 && after[var].len() <= 1 ==> open_count(after) < open_count(before),
    decreases before.len(),
{
    if before.len() > 0 {
        let n = before.len() - 1;
        assert forall|i: int| 0 <= i < n implies #[trigger] after.drop_last()[i].subset_of(before.drop_last()[i]) by {
            assert(after[i].subset_of(before[i]));
        }
        assert forall|i: int| 0 <= i < n implies #[trigger] before.drop_last()[i].finite() by {
            assert(before[i].finite());
        }
        lemma_open_count_shrinks(after.drop_last(), before.drop_last(), var);
        assert(after[n].subset_of(before[n]));
        vstd::set_lib::lemma_len_subset(after[n], before[n]);
    }
}

/// The constraint solver. Its constraints are of type `C`: the built-in ones by default,
/// or a type of the user's own that implements `Constraint` (an enum that holds the
/// built-in constraints beside custom ones, for instance).
pub struct Solver<const W: usize, C = Rule<W>> {
    domains: Vec<Domain<W>>,
    constraints: Vec<C>,
    propagator: Propagator,
    config: SolverConfig,
    settled_upto: usize,
    /// How many descents the last search with restarts, or without backtracking, made.
    descents: Ghost<nat>,
}

impl<const W: usize> Solver<W> {
    /// Create a new solver with `num_variables` variables, each with domain [0, domain_size),
    /// for the built-in constraints.
    pub fn new(num_variables: usize, domain_size: usize, config: SolverConfig) -> (s: Self)
        requires
            W <= usize::MAX / 64,
        ensures
            s.doms().len() == num_variables,
            forall|i: int| 0 <= i < num_variables ==> #[trigger] s.doms()[i] == Set::new(
                |v: int| 0 <= v < domain_size && BitSet::<W>::in_range(v),
            ),
            s.wf(),
            s.scopes_fit(),
            s.rules() == Seq::<Rule<W>>::empty(),
            s.configuration() == config,
    {
        Self::new_custom(num_variables, domain_size, config)
    }
}

impl<const W: usize, C: Constraint<W>> Solver<W, C> {
    /// The constraints that the last propagation covered are settled.
    pub closed spec fn wf(self) -> bool {
        &&& W <= usize::MAX / 64
        &&& self.settled_upto <= self.constraints@.len()
        &&& forall|ci: int| 0 <= ci < self.settled_upto ==> settled(#[trigger] self.constraints@[ci], views(self.domains@))
    }

    /// Every constraint names existing variables only; propagating and searching need it.
    pub closed spec fn scopes_fit(self) -> bool {
        scopes_in_bounds(self.constraints@, self.domains@.len())
    }

    /// The current domains.
    pub closed spec fn doms(self) -> Seq<Set<int>> {
        views(self.domains@)
    }

    /// The constraints added so far.
    pub closed spec fn rules(self) -> Seq<C> {
        self.constraints@
    }

    /// How many descents the last search made where the configuration restarts from the
    /// propagated domains after a failed descent, or does not backtrack at all.
    pub closed spec fn descents(self) -> nat {
        self.descents@
    }

    /// The configuration the solver was made with.
    pub closed spec fn configuration(self) -> SolverConfig {
        self.config
    }

    /// `later` is this solver after calls on it: it has the same number of variables and
    /// the same configuration, and its constraints begin with this solver's, in order.
    pub open spec fn follows(self, later: Self) -> bool {
        &&& later.doms().len() == self.doms().len()
        &&& later.configuration() == self.configuration()
        &&& self.rules().len() <= later.rules().len()
        &&& forall|k: int| 0 <= k < self.rules().len() ==> #[trigger] later.rules()[k] == self.rules()[k]
    }

    /// The domains are finite and hold only values a bit set can hold.
    pub proof fn lemma_doms_small(self)
        ensures
            all_finite(self.doms()),
            forall|i: int, v: int| 0 <= i < self.doms().len() && #[trigger] self.doms()[i].contains(v) ==> BitSet::<W>::in_range(v),
    {
        lemma_views_finite(self.domains@);
    }

    /// Create a new solver with `num_variables` variables, each with domain [0, domain_size),
    /// for constraints of type `C`.
    pub fn new_custom(num_variables: usize, domain_size: usize, config: SolverConfig) -> (s: Self)
        requires
            W <= usize::MAX / 64,
        ensures
            s.doms().len() == num_variables,
            forall|i: int| 0 <= i < num_variables ==> #[trigger] s.doms()[i] == Set::new(
                |v: int| 0 <= v < domain_size && BitSet::<W>::in_range(v),
            ),
            s.wf(),
            s.scopes_fit(),
            s.rules() == Seq::<C>::empty(),
            s.configuration() == config,
    {
        let mut domains: Vec<Domain<W>> = Vec::new();
        let mut i: usize = 0;
        while i < num_variables
            invariant
                W <= usize::MAX / 64,
                i <= num_variables,
                domains.len() == i,
                forall|j: int| 0 <= j < i ==> #[trigger] domains@[j]@ == Set::new(
                    |v: int| 0 <= v < domain_size && BitSet::<W>::in_range(v),
                ),
            decreases num_variables - i,
        {
            domains.push(BitSet::full(domain_size));
            i = i + 1;
        }
        Self { domains, constraints: Vec::new(), propagator: Propagator::new(), config, settled_upto: 0, descents: Ghost(0) }
    }

    /// Add a constraint to the solver: any value that converts into the solver's
    /// constraint type. It may name variables the solver lacks; propagating and searching
    /// then need it to be left out.
    pub fn add_constraint<T>(&mut self, constraint: T)
        where C: From<T>,
        requires
            old(self).wf(),
            <C as vstd::std_specs::convert::FromSpec<T>>::obeys_from_spec(),
        ensures
            final(self).wf(),
            old(self).follows(*final(self)),
            final(self).scopes_fit() == (old(self).scopes_fit()
                && in_bounds(<C as vstd::std_specs::convert::FromSpec<T>>::from_spec(constraint).scope_view(), old(self).doms().len())),
            final(self).doms() == old(self).doms(),
            final(self).rules() == old(self).rules().push(<C as vstd::std_specs::convert::FromSpec<T>>::from_spec(constraint)),
            final(self).configuration() == old(self).configuration(),
    {
        let rule = C::from(constraint);
        self.constraints.push(rule);
        proof {
            if old(self).scopes_fit() && in_bounds(rule.scope_view(), old(self).doms().len()) {
                assert forall|ci: int| 0 <= ci < self.constraints@.len() implies in_bounds(#[trigger] self.constraints@[ci].scope_view(), self.domains@.len()) by {
                    if ci < old(self).constraints@.len() {
                        assert(self.constraints@[ci] == old(self).constraints@[ci]);
                    }
                }
            }
            if self.scopes_fit() {
                let last = old(self).constraints@.len() as int;
                assert(in_bounds(self.constraints@[last].scope_view(), self.domains@.len()));
                assert forall|ci: int| 0 <= ci < old(self).constraints@.len() implies in_bounds(#[trigger] old(self).constraints@[ci].scope_view(), old(self).domains@.len()) by {
                    assert(self.constraints@[ci] == old(self).constraints@[ci]);
                    assert(in_bounds(self.constraints@[ci].scope_view(), self.domains@.len()));
                }
            }
            assert forall|ci: int| 0 <= ci < self.settled_upto implies settled(#[trigger] self.constraints@[ci], views(self.domains@)) by {
                assert(self.constraints@[ci] == old(self).constraints@[ci]);
            }
        }
    }

    /// Propagate over all constraints and record that they are settled when it succeeds.
    fn propagate_all(&mut self) -> (r: Result<(), Contradiction>)
        requires
            scopes_in_bounds(old(self).constraints@, old(self).domains@.len()),
            W <= usize::MAX / 64,
        ensures
            final(self).wf(),
            final(self).descents() == old(self).descents(),
            final(self).scopes_fit(),
            final(self).rules() == old(self).rules(),
            final(self).configuration() == old(self).configuration(),
            run_outcome(old(self).rules(), old(self).doms(), final(self).doms(), r is Ok),
            r matches Err(c) ==> names_empty(final(self).rules(), final(self).doms(), c),
    {
        self.settled_upto = 0;
        let r = self.propagator.propagate(&mut self.domains, self.constraints.as_slice());
        match r {
            Ok(_) => {
                self.settled_upto = self.constraints.len();
                Ok(())
            },
            Err(c) => Err(c),
        }
    }

    /// Fix a variable to a specific value.
    pub fn assign(&mut self, variable: usize, value: usize) -> (r: Result<(), Contradiction>)
        requires
            old(self).wf(),
            old(self).scopes_fit(),
            variable < old(self).doms().len(),
        ensures
            final(self).wf(),
            final(self).descents() == old(self).descents(),
            old(self).follows(*final(self)),
            final(self).doms().len() == old(self).doms().len(),
            final(self).scopes_fit(),
            final(self).rules() == old(self).rules(),
            final(self).configuration() == old(self).configuration(),
            run_outcome(
                old(self).rules(),
                old(self).doms().update(
                    variable as int,
                    if BitSet::<W>::in_range(value as int) { set![value as int] } else { Set::<int>::empty() },
                ),
                final(self).doms(),
                r is Ok,
            ),
            r matches Err(c) ==> names_empty(final(self).rules(), final(self).doms(), c),
    {
        self.settled_upto = 0;
        let mut d = BitSet::empty();
        d.insert(value);
        set_domain(&mut self.domains, variable, d);
        proof {
            assert(views(self.domains@).len() == views(old(self).domains@).len());
            assert(self.domains@.len() == old(self).domains@.len());
            assert(d@ =~= (if BitSet::<W>::in_range(value as int) { set![value as int] } else { Set::<int>::empty() }));
        }
        self.propagate_all()
    }

    /// Run propagation only (no search). Returns whether every variable is decided.
    pub fn propagate(&mut self) -> (r: Result<bool, Contradiction>)
        requires
            old(self).wf(),
            old(self).scopes_fit(),
        ensures
            final(self).wf(),
            old(self).follows(*final(self)),
            final(self).doms().len() == old(self).doms().len(),
            final(self).scopes_fit(),
            final(self).rules() == old(self).rules(),
            final(self).configuration() == old(self).configuration(),
            run_outcome(old(self).rules(), old(self).doms(), final(self).doms(), r is Ok),
            r matches Ok(solved) ==> solved == all_decided(final(self).doms()),
            r matches Ok(true) ==> is_solution(final(self).rules(), final(self).doms(), decided_values(final(self).doms())),
            r matches Err(c) ==> names_empty(final(self).rules(), final(self).doms(), c),
    {
        match self.propagate_all() {
            Ok(()) => {
                let solved = self.is_solved();
                proof {
                    if solved {
                        lemma_views_finite(self.domains@);
                        lemma_decided_is_solution(self.rules(), self.doms());
                    }
                }
                Ok(solved)
            },
            Err(c) => Err(c),
        }
    }

    /// Get the current domain of a variable.
    pub fn domain(&self, variable: usize) -> (d: &Domain<W>)
        requires
            variable < self.doms().len(),
        ensures
            d@ == self.doms()[variable as int],
    {
        &self.domains[variable]
    }

    /// Get all current domains.
    pub fn domains(&self) -> (ds: &[Domain<W>])
        ensures
            views(ds@) == self.doms(),
    {
        self.domains.as_slice()
    }

    /// Check if all variables are solved (singleton domains).
    pub fn is_solved(&self) -> (solved: bool)
        ensures
            solved == all_decided(self.doms()),
    {
        let mut i: usize = 0;
        while i < self.domains.len()
            invariant
                i <= self.domains.len(),
                forall|j: int| 0 <= j < i ==> #[trigger] self.doms()[j].len() == 1,
            decreases self.domains.len() - i,
        {
            if !self.domains[i].is_singleton() {
                assert(self.doms()[i as int].len() != 1);
                return false;
            }
            i = i + 1;
        }
        true
    }

    /// Number of variables.
    pub fn num_variables(&self) -> (n: usize)
        ensures
            n == self.doms().len(),
    {
        self.domains.len()
    }

    /// Record the current domains.
    pub fn snapshot(&self) -> (snap: DomainSnapshot<W>)
        ensures
            snap@ == self.doms(),
    {
        DomainSnapshot::new(copy_domains(&self.domains))
    }

    /// Put back domains recorded from this solver.
    pub fn restore(&mut self, snap: &DomainSnapshot<W>)
        requires
            old(self).wf(),
            snap@.len() == old(self).doms().len(),
        ensures
            final(self).wf(),
            final(self).descents() == old(self).descents(),
            old(self).follows(*final(self)),
            final(self).scopes_fit() == old(self).scopes_fit(),
            final(self).doms() == snap@,
            final(self).rules() == old(self).rules(),
            final(self).configuration() == old(self).configuration(),
    {
        self.settled_upto = 0;
        self.domains = snap.domains();
    }

    /// The variable to branch on: one with at least two values left, chosen by the
    /// configured heuristic; none when every domain holds at most one value.
    fn select_variable(&self) -> (r: Option<usize>)
        ensures
            match r {
                Some(v) => {
                    &&& v < self.doms().len()
                    &&& self.doms()[v as int].len() >= 2
                    &&& self.config.heuristic == Heuristic::MinDomain ==> forall|u: int|
                        0 <= u < self.doms().len() && #[trigger] self.doms()[u].len() >= 2 ==> self.doms()[v as int].len() <= self.doms()[u].len()
                    &&& self.config.heuristic == Heuristic::FirstUnsolved ==> forall|u: int|
                        0 <= u < v ==> #[trigger] self.doms()[u].len() < 2
                },
                None => forall|u: int| 0 <= u < self.doms().len() ==> #[trigger] self.doms()[u].len() < 2,
            },
    {
        let first_only = match self.config.heuristic {
            Heuristic::MinDomain => false,
            Heuristic::FirstUnsolved => true,
        };
        let mut best: Option<usize> = None;
        let mut best_size: usize = 0;
        let mut i: usize = 0;
        while i < self.domains.len()
            invariant
                i <= self.domains.len(),
                first_only == (self.config.heuristic == Heuristic::FirstUnsolved),
                match best {
                    Some(v) => {
                        &&& v < i
                        &&& best_size == self.doms()[v as int].len()
                        &&& best_size >= 2
                        &&& forall|u: int| 0 <= u < i && #[trigger] self.doms()[u].len() >= 2 ==> best_size <= self.doms()[u].len()
                    },
                    None => forall|u: int| 0 <= u < i ==> #[trigger] self.doms()[u].len() < 2,
                },
                first_only ==> best is None,
            decreases self.domains.len() - i,
        {
            let size = self.domains[i].count();
            if size >= 2 {
                let better = match best {
                    Some(_) => size < best_size,
                    None => true,
                };
                if better {
                    if first_only {
                        return Some(i);
                    }
                    best = Some(i);
                    best_size = size;
                }
            }
            i = i + 1;
        }
        best
    }

    /// Depth-first search with chronological backtracking from domains on which every
    /// constraint is settled.
    fn search(
        &mut self,
        rng: &mut SmallRng,
        depth: usize,
        max_depth: usize,
        rounds: &mut usize,
        backtracks: &mut usize,
    ) -> (r: Result<(), SolveError>)
        requires
            old(self).wf(),
            old(self).scopes_fit(),
            forall|ci: int| 0 <= ci < old(self).rules().len() ==> settled(#[trigger] old(self).rules()[ci], old(self).doms()),
        ensures
            final(self).wf(),
            final(self).scopes_fit(),
            final(self).rules() == old(self).rules(),
            final(self).configuration() == old(self).configuration(),
            match r {
                Ok(()) => {
                    &&& shrinks(final(self).doms(), old(self).doms())
                    &&& all_decided(final(self).doms())
                    &&& is_solution(final(self).rules(), final(self).doms(), decided_values(final(self).doms()))
                },
                Err(e) => {
                    &&& final(self).doms() == old(self).doms()
                    &&& e == SolveError::Unsatisfiable || e == SolveError::BacktrackLimitExceeded
                    &&& e == SolveError::Unsatisfiable ==> no_solution(old(self).rules(), old(self).doms())
                    &&& e == SolveError::BacktrackLimitExceeded ==> open_count(old(self).doms()) + depth > max_depth
                },
            },
        decreases total_size(views(old(self).domains@)),
    {
        let ghost d0 = self.doms();
        let ghost cs = self.rules();
        proof {
            lemma_views_finite(self.domains@);
        }
        match self.select_variable() {
            None => {
                if self.is_solved() {
                    proof {
                        lemma_decided_is_solution(cs, d0);
                    }
                    Ok(())
                } else {
                    proof {
                        let u = choose|u: int| 0 <= u < d0.len() && #[trigger] d0[u].len() != 1;
                        assert(d0[u].len() == 0);
                        crate::constraint::lemma_empty_len(d0[u]);
                        assert forall|a: Seq<int>| !#[trigger] is_solution(cs, d0, a) by {
                            if is_solution(cs, d0, a) {
                                assert(d0[u].contains(a[u]));
                            }
                        }
                    }
                    Err(SolveError::Unsatisfiable)
                }
            },
            Some(var) => {
                proof {
                    lemma_open_count_shrinks(d0, d0, var as int);
                    assert(open_count(d0) >= 1) by {
                        lemma_open_count_shrinks(d0.update(var as int, Set::<int>::empty()), d0, var as int);
                    }
                }
                if depth >= max_depth {
                    return Err(SolveError::BacktrackLimitExceeded);
                }
                let snap = self.snapshot();
                let mut values = self.domains[var].to_vec();
                let ghost listed = values@;
                shuffle(&mut values, rng);
                let mut k: usize = 0;
                while k < values.len()
                    invariant
                        self.wf(),
                        self.scopes_fit(),
                        self.rules() == cs,
                        cs == old(self).rules(),
                        self.configuration() == old(self).configuration(),
                        self.doms() == d0,
                        snap@ == d0,
                        var < d0.len(),
                        d0[var as int].len() >= 2,
                        all_finite(d0),
                        depth < max_depth,
                        forall|ci: int| 0 <= ci < cs.len() ==> settled(#[trigger] cs[ci], d0),
                        forall|x: usize| #[trigger] values@.contains(x) <==> listed.contains(x),
                        forall|v: int| d0[var as int].contains(v) <==> exists|i: int| 0 <= i < listed.len() && listed[i] == v,
                        forall|a: Seq<int>, k2: int|
                            #[trigger] is_solution(cs, d0, a) && 0 <= k2 < k ==> a[var as int] != #[trigger] values@[k2] as int,
                        d0 == views(old(self).domains@),
                    decreases values.len() - k,
                {
                    let value = values[k];
                    proof {
                        assert(values@.contains(value));
                        assert(listed.contains(value));
                        let i = choose|i: int| 0 <= i < listed.len() && listed[i] == value;
                        assert(d0[var as int].contains(value as int));
                        old(self).domains@[var as int].lemma_finite();
                    }
                    *rounds = rounds.saturating_add(1);
                    let attempt = self.assign(var, value);
                    let ghost branch = d0.update(var as int, set![value as int]);
                    let ghost post = self.doms();
                    let mut failed = false;
                    match attempt {
                        Err(_) => {
                            failed = true;
                        },
                        Ok(()) => {
                            proof {
                                lemma_views_finite(self.domains@);
                                assert(set![value as int].subset_of(d0[var as int]));
                                assert(shrinks(branch, d0));
                                assert forall|u: int| 0 <= u < d0.len() implies #[trigger] post[u].subset_of(d0[u]) by {
                                    assert(post[u].subset_of(branch[u]));
                                    assert(branch[u].subset_of(d0[u]));
                                }
                                // the domain of `var` went from two or more values to at most one
                                assert(d0[var as int] != post[var as int]) by {
                                    if d0[var as int] == post[var as int] {
                                        assert(post[var as int].subset_of(branch[var as int]));
                                        assert(post[var as int].subset_of(set![value as int]));
                                        vstd::set_lib::lemma_len_subset(post[var as int], set![value as int]);
                                    }
                                }
                                lemma_total_size_shrinks(post, d0);
                            }
                            match self.search(rng, depth + 1, max_depth, rounds, backtracks) {
                                Ok(()) => {
                                    proof {
                                        assert forall|u: int| 0 <= u < d0.len() implies #[trigger] self.doms()[u].subset_of(d0[u]) by {
                                            assert(self.doms()[u].subset_of(post[u]));
                                            assert(post[u].subset_of(branch[u]));
                                            assert(branch[u].subset_of(d0[u]));
                                        }
                                    }
                                    return Ok(());
                                },
                                Err(SolveError::BacktrackLimitExceeded) => {
                                    proof {
                                        assert(post[var as int].subset_of(branch[var as int]));
                                        assert(branch[var as int] == set![value as int]);
                                        assert(post[var as int].subset_of(set![value as int]));
                                        vstd::set_lib::lemma_len_subset(post[var as int], set![value as int]);
                                        lemma_open_count_shrinks(post, d0, var as int);
                                    }
                                    self.restore(&snap);
                                    return Err(SolveError::BacktrackLimitExceeded);
                                },
                                Err(_) => {
                                    proof {
                                        assert forall|a: Seq<int>| !#[trigger] is_solution(cs, branch, a) by {
                                            if is_solution(cs, branch, a) {
                                                assert(consistent(a, post));
                                                assert(is_solution(cs, post, a));
                                            }
                                        }
                                    }
                                    failed = true;
                                },
                            }
                        },
                    }
                    // no solution takes `value` for `var`
                    proof {
                        assert(no_solution(cs, branch));
                        assert forall|a: Seq<int>, k2: int|
                            #[trigger] is_solution(cs, d0, a) && 0 <= k2 < k + 1 implies a[var as int] != #[trigger] values@[k2] as int by {
                            if k2 == k && a[var as int] == value as int {
                                assert(is_solution(cs, branch, a)) by {
                                    assert forall|u: int| 0 <= u < a.len() implies #[trigger] branch[u].contains(a[u]) by {
                                        assert(d0[u].contains(a[u]));
                                    }
                                }
                            }
                        }
                    }
                    *backtracks = backtracks.saturating_add(1);
                    self.restore(&snap);
                    k = k + 1;
                }
                proof {
                    assert forall|a: Seq<int>| !#[trigger] is_solution(cs, d0, a) by {
                        if is_solution(cs, d0, a) {
                            assert(d0[var as int].contains(a[var as int]));
                            let i = choose|i: int| 0 <= i < listed.len() && listed[i] == a[var as int];
                            assert(listed.contains(listed[i]));
                            assert(values@.contains(listed[i]));
                            let k2 = choose|k2: int| 0 <= k2 < values@.len() && values@[k2] == listed[i];
                            assert(a[var as int] != values@[k2] as int);
                        }
                    }
                }
                Err(SolveError::Unsatisfiable)
            },
        }
    }

    /// Descend by assigning values in the generator's order, without going back; true when
    /// the descent reaches a solution.
    fn dive(&mut self, rng: &mut SmallRng, rounds: &mut usize) -> (found: bool)
        requires
            old(self).wf(),
            old(self).scopes_fit(),
            forall|ci: int| 0 <= ci < old(self).rules().len() ==> settled(#[trigger] old(self).rules()[ci], old(self).doms()),
        ensures
            final(self).wf(),
            final(self).descents() == old(self).descents(),
            final(self).scopes_fit(),
            final(self).rules() == old(self).rules(),
            final(self).configuration() == old(self).configuration(),
            final(self).doms().len() == old(self).doms().len(),
            shrinks(final(self).doms(), old(self).doms()),
            found ==> {
                &&& all_decided(final(self).doms())
                &&& is_solution(final(self).rules(), final(self).doms(), decided_values(final(self).doms()))
            },
            !found ==> no_solution(final(self).rules(), final(self).doms()),
            *final(rounds) <= *old(rounds) + old(self).doms().len(),
    {
        let ghost d0 = self.doms();
        let ghost cs = self.rules();
        proof {
            lemma_views_finite(self.domains@);
            lemma_open_count_bound(d0);
        }
        loop
            invariant
                self.descents() == old(self).descents(),
                *rounds + open_count(self.doms()) <= *old(rounds) + open_count(d0),
                open_count(d0) <= d0.len(),
                self.wf(),
                self.scopes_fit(),
                self.rules() == cs,
                cs == old(self).rules(),
                self.configuration() == old(self).configuration(),
                d0 == old(self).doms(),
                shrinks(self.doms(), d0),
                all_finite(self.doms()),
                forall|ci: int| 0 <= ci < cs.len() ==> settled(#[trigger] cs[ci], self.doms()),
            decreases total_size(self.doms()),
        {
            let ghost before = self.doms();
            match self.select_variable() {
                None => {
                    if self.is_solved() {
                        proof {
                            lemma_decided_is_solution(cs, self.doms());
                        }
                        return true;
                    }
                    proof {
                        let u = choose|u: int| 0 <= u < before.len() && #[trigger] before[u].len() != 1;
                        assert(before[u].len() == 0);
                        crate::constraint::lemma_empty_len(before[u]);
                        assert forall|a: Seq<int>| !#[trigger] is_solution(cs, before, a) by {
                            if is_solution(cs, before, a) {
                                assert(before[u].contains(a[u]));
                            }
                        }
                    }
                    return false;
                },
                Some(var) => {
                    let mut values = self.domains[var].to_vec();
                    let ghost listed = values@;
                    shuffle(&mut values, rng);
                    proof {
                        assert(before[var as int].len() >= 2);
                        crate::constraint::lemma_empty_len(before[var as int]);
                        let x = before[var as int].choose();
                        assert(before[var as int].contains(x));
                        let i = choose|i: int| 0 <= i < listed.len() && listed[i] == x;
                        assert(listed.contains(listed[i]));
                        assert(values@.contains(listed[i]));
                        assert(values@.len() > 0);
                        assert(values@.contains(values@[0]));
                    }
                    let value = values[0];
                    proof {
                        assert(listed.contains(value));
                        let i = choose|i: int| 0 <= i < listed.len() && listed[i] == value;
                        assert(before[var as int].contains(value as int));
                        self.domains@[var as int].lemma_finite();
                    }
                    proof {
                        lemma_open_count_shrinks(before, before, var as int);
                        assert(open_count(before) >= 1) by {
                            lemma_open_count_shrinks(before.update(var as int, Set::<int>::empty()), before, var as int);
                        }
                    }
                    *rounds = rounds.saturating_add(1);
                    let ghost branch = before.update(var as int, set![value as int]);
                    match self.assign(var, value) {
                        Ok(()) => {
                            proof {
                                lemma_views_finite(self.domains@);
                                assert forall|u: int| 0 <= u < d0.len() implies #[trigger] self.doms()[u].subset_of(d0[u]) by {
                                    assert(self.doms()[u].subset_of(branch[u]));
                                    assert(before[u].subset_of(d0[u]));
                                }
                                assert forall|u: int| 0 <= u < d0.len() implies #[trigger] self.doms()[u].subset_of(before[u]) by {
                                    assert(self.doms()[u].subset_of(branch[u]));
                                }
                                assert(before[var as int] != self.doms()[var as int]) by {
                                    if before[var as int] == self.doms()[var as int] {
                                        assert(self.doms()[var as int].subset_of(branch[var as int]));
                                        vstd::set_lib::lemma_len_subset(self.doms()[var as int], set![value as int]);
                                    }
                                }
                                lemma_total_size_shrinks(self.doms(), before);
                                assert(self.doms()[var as int].subset_of(branch[var as int]));
                                assert(branch[var as int] == set![value as int]);
                                vstd::set_lib::lemma_len_subset(self.doms()[var as int], set![value as int]);
                                lemma_open_count_shrinks(self.doms(), before, var as int);
                            }
                        },
                        Err(_) => {
                            proof {
                                assert(self.domains@.len() == before.len());
                                assert forall|u: int| 0 <= u < d0.len() implies #[trigger] self.doms()[u].subset_of(d0[u]) by {
                                    assert(self.doms()[u].subset_of(branch[u]));
                                    assert(before[u].subset_of(d0[u]));
                                }
                                assert forall|a: Seq<int>| !#[trigger] is_solution(cs, self.doms(), a) by {
                                    if is_solution(cs, self.doms(), a) {
                                        assert forall|u: int| 0 <= u < a.len() implies #[trigger] branch[u].contains(a[u]) by {
                                            assert(self.doms()[u].subset_of(branch[u]));
                                        }
                                        assert(is_solution(cs, branch, a));
                                    }
                                }
                            }
                            return false;
                        },
                    }
                },
            }
        }
    }

    /// Full solve: propagation + backtracking search.
    pub fn solve(&mut self, rng: &mut SmallRng) -> (r: Result<SolveResult, SolveError>)
        requires
            old(self).wf(),
            old(self).scopes_fit(),
        ensures
            final(self).wf(),
            old(self).follows(*final(self)),
            final(self).doms().len() == old(self).doms().len(),
            final(self).scopes_fit(),
            final(self).rules() == old(self).rules(),
            final(self).configuration() == old(self).configuration(),
            shrinks(final(self).doms(), old(self).doms()),
            match r {
                Ok(res) => {
                    &&& res.solution.values@.len() == old(self).doms().len()
                    &&& forall|i: int| 0 <= i < final(self).doms().len() ==> #[trigger] final(self).doms()[i] == set![res.solution.values@[i] as int]
                    &&& is_solution(old(self).rules(), old(self).doms(), as_ints(res.solution.values@))
                },
                Err(e) => {
                    &&& keeps_solutions(old(self).rules(), old(self).doms(), final(self).doms())
                    &&& (e is Contradiction || e is Unsatisfiable) ==> no_solution(old(self).rules(), old(self).doms())
                },
            },
            (old(self).configuration().backtrack matches BacktrackStrategy::Chronological { max_depth }
                && max_depth >= old(self).doms().len()) ==> !(r matches Err(SolveError::BacktrackLimitExceeded)),
            old(self).configuration().backtrack is NoBacktrack ==> (r matches Ok(res) ==> res.backtracks == 0
                && res.propagation_rounds <= 1 + old(self).doms().len()),
            old(self).configuration().backtrack matches BacktrackStrategy::Restart { max_restarts }
                ==> (r matches Ok(res) ==> res.backtracks <= max_restarts),
            old(self).configuration().backtrack matches BacktrackStrategy::Restart { max_restarts } ==> {
                &&& r matches Err(SolveError::BacktrackLimitExceeded) ==> final(self).descents() == max_restarts + 1
                &&& r matches Ok(res) ==> res.backtracks + 1 == final(self).descents()
            },
            old(self).configuration().backtrack is NoBacktrack ==> {
                &&& final(self).descents() <= 1
                &&& r matches Err(SolveError::BacktrackLimitExceeded) ==> final(self).descents() == 1
                &&& r is Ok ==> final(self).descents() == 1
            },
    {
        self.descents = Ghost(0);
        let ghost d0 = self.doms();
        let ghost cs = self.rules();
        let mut rounds: usize = 1;
        let mut backtracks: usize = 0;
        match self.propagate_all() {
            Err(c) => {
                return Err(SolveError::Contradiction(c));
            },
            Ok(()) => {},
        }
        let ghost d1 = self.doms();
        proof {
            lemma_views_finite(self.domains@);
        }
        // an empty domain rules out every solution
        let mut i: usize = 0;
        while i < self.domains.len()
            invariant
                i <= self.domains.len(),
                self.wf(),
                self.scopes_fit(),
                self.rules() == cs,
                cs == old(self).rules(),
                self.configuration() == old(self).configuration(),
                d0 == old(self).doms(),
                self.descents() == 0,
                self.doms() == d1,
                shrinks(d1, d0),
                keeps_solutions(cs, d0, d1),
                all_finite(d1),
                forall|u: int| 0 <= u < i ==> #[trigger] d1[u].len() > 0,
            decreases self.domains.len() - i,
        {
            if self.domains[i].is_empty() {
                proof {
                    assert forall|a: Seq<int>| !#[trigger] is_solution(cs, d0, a) by {
                        if is_solution(cs, d0, a) {
                            assert(consistent(a, d1));
                            assert(d1[i as int].contains(a[i as int]));
                        }
                    }
                }
                return Err(SolveError::Unsatisfiable);
            }
            proof {
                crate::constraint::lemma_empty_len(d1[i as int]);
            }
            i = i + 1;
        }
        let snap = self.snapshot();
        proof {
            lemma_open_count_bound(d1);
        }
        let result = match self.config.backtrack {
            BacktrackStrategy::Chronological { max_depth } => {
                self.search(rng, 0, max_depth, &mut rounds, &mut backtracks)
            },
            BacktrackStrategy::NoBacktrack => self.restarts(rng, 0, &snap, &mut rounds, &mut backtracks),
            BacktrackStrategy::Restart { max_restarts } => self.restarts(rng, max_restarts, &snap, &mut rounds, &mut backtracks),
        };
        proof {
            lemma_views_finite(self.domains@);
            match result {
                Ok(()) => {
                    assert forall|u: int| 0 <= u < d0.len() implies #[trigger] self.doms()[u].subset_of(d0[u]) by {
                        assert(self.doms()[u].subset_of(d1[u]));
                        assert(d1[u].subset_of(d0[u]));
                    }
                },
                Err(e) => {
                    if e is Unsatisfiable {
                        assert forall|a: Seq<int>| !#[trigger] is_solution(cs, d0, a) by {
                            if is_solution(cs, d0, a) {
                                assert(consistent(a, d1));
                                assert(is_solution(cs, d1, a));
                            }
                        }
                    }
                },
            }
        }
        match result {
            Ok(()) => {
                let ghost df = self.doms();
                let mut values: Vec<usize> = Vec::new();
                let mut i: usize = 0;
                while i < self.domains.len()
                    invariant
                        i <= self.domains.len(),
                        self.doms() == df,
                        all_decided(df),
                        all_finite(df),
                        values@.len() == i,
                        forall|k: int| 0 <= k < i ==> #[trigger] values@[k] as int == the_value(df[k]),
                    decreases self.domains.len() - i,
                {
                    proof {
                        crate::constraint::lemma_empty_len(df[i as int]);
                    }
                    let v = self.domains[i].min_value().unwrap();
                    proof {
                        lemma_single(df[i as int]);
                    }
                    values.push(v);
                    i = i + 1;
                }
                proof {
                    assert(as_ints(values@) =~= decided_values(df));
                    assert forall|i: int| 0 <= i < df.len() implies #[trigger] df[i] == set![values@[i] as int] by {
                        lemma_single(df[i]);
                    }
                    let a = as_ints(values@);
                    assert(is_solution(cs, df, a));
                    assert forall|u: int| 0 <= u < a.len() implies #[trigger] d0[u].contains(a[u]) by {
                        assert(df[u].contains(a[u]));
                        assert(df[u].subset_of(d0[u]));
                    }
                }
                Ok(SolveResult { solution: Solution { values }, propagation_rounds: rounds, backtracks })
            },
            Err(e) => Err(e),
        }
    }

    /// Descents from the recorded domains, starting over after each failure, at most
    /// `max_restarts` times over.
    fn restarts(
        &mut self,
        rng: &mut SmallRng,
        max_restarts: usize,
        snap: &DomainSnapshot<W>,
        rounds: &mut usize,
        backtracks: &mut usize,
    ) -> (r: Result<(), SolveError>)
        requires
            old(self).wf(),
            old(self).scopes_fit(),
            snap@ == old(self).doms(),
            forall|ci: int| 0 <= ci < old(self).rules().len() ==> settled(#[trigger] old(self).rules()[ci], old(self).doms()),
            *old(backtracks) + max_restarts <= usize::MAX,
        ensures
            final(self).wf(),
            final(self).scopes_fit(),
            final(self).rules() == old(self).rules(),
            final(self).configuration() == old(self).configuration(),
            match r {
                Ok(()) => {
                    &&& shrinks(final(self).doms(), old(self).doms())
                    &&& all_decided(final(self).doms())
                    &&& is_solution(final(self).rules(), final(self).doms(), decided_values(final(self).doms()))
                },
                Err(e) => final(self).doms() == old(self).doms() && e == SolveError::BacktrackLimitExceeded,
            },
            *final(backtracks) <= *old(backtracks) + max_restarts,
            r is Err ==> final(self).descents() == old(self).descents() + max_restarts + 1,
            r is Ok ==> old(self).descents() < final(self).descents() <= old(self).descents() + max_restarts + 1
                && *final(backtracks) + old(self).descents() + 1 == *old(backtracks) + final(self).descents(),
            max_restarts == 0 ==> *final(rounds) <= *old(rounds) + old(self).doms().len(),
    {
        let ghost d1 = self.doms();
        let ghost cs = self.rules();
        let mut attempt: usize = 0;
        loop
            invariant
                self.wf(),
                self.scopes_fit(),
                self.rules() == cs,
                cs == old(self).rules(),
                self.configuration() == old(self).configuration(),
                self.doms() == d1,
                d1 == old(self).doms(),
                snap@ == d1,
                attempt <= max_restarts,
                *backtracks == *old(backtracks) + attempt,
                *old(backtracks) + max_restarts <= usize::MAX,
                self.descents() == old(self).descents() + attempt,
                max_restarts == 0 ==> *rounds == *old(rounds),
                forall|ci: int| 0 <= ci < cs.len() ==> settled(#[trigger] cs[ci], d1),
            decreases max_restarts - attempt,
        {
            self.descents = Ghost(self.descents@ + 1);
            if self.dive(rng, rounds) {
                return Ok(());
            }
            self.restore(snap);
            if attempt >= max_restarts {
                return Err(SolveError::BacktrackLimitExceeded);
            }
            attempt = attempt + 1;
            *backtracks = backtracks.saturating_add(1);
        }
    }

    /// Run incremental propagation after adding new constraints: only the constraints that
    /// share a variable with a constraint added since the last propagation are re-checked.
    /// Returns whether every variable is decided.
    pub fn propagate_incremental(&mut self) -> (r: Result<bool, Contradiction>)
        requires
            old(self).wf(),
            old(self).scopes_fit(),
        ensures
            final(self).wf(),
            old(self).follows(*final(self)),
            final(self).doms().len() == old(self).doms().len(),
            final(self).scopes_fit(),
            final(self).rules() == old(self).rules(),
            final(self).configuration() == old(self).configuration(),
            run_outcome(old(self).rules(), old(self).doms(), final(self).doms(), r is Ok),
            r matches Ok(solved) ==> solved == all_decided(final(self).doms()),
            r matches Ok(true) ==> is_solution(final(self).rules(), final(self).doms(), decided_values(final(self).doms())),
            r matches Err(c) ==> names_empty(final(self).rules(), final(self).doms(), c),
    {
        let ghost cs = self.rules();
        let ghost d0 = self.doms();
        let start = self.settled_upto;
        let mut seeds: Vec<usize> = Vec::new();
        let mut unscoped = false;
        let mut ci: usize = start;
        while ci < self.constraints.len()
            invariant
                self.wf(),
                self.scopes_fit(),
                self.rules() == cs,
                self.doms() == d0,
                start <= ci <= self.constraints.len(),
                in_bounds(seeds@, d0.len()),
                forall|cj: int| start <= cj < ci && (#[trigger] cs[cj]).scope_view().len() > 0 ==> touches(cs[cj], seeds@),
                !unscoped ==> forall|cj: int| start <= cj < ci ==> (#[trigger] cs[cj]).scope_view().len() > 0,
            decreases self.constraints.len() - ci,
        {
            let scope = self.constraints[ci].scope();
            proof {
                assert(in_bounds(cs[ci as int].scope_view(), d0.len()));
            }
            if scope.len() == 0 {
                unscoped = true;
            }
            let ghost before = seeds@;
            let mut k: usize = 0;
            while k < scope.len()
                invariant
                    scope@ == cs[ci as int].scope_view(),
                    in_bounds(scope@, d0.len()),
                    k <= scope.len(),
                    in_bounds(seeds@, d0.len()),
                    seeds@.len() == before.len() + k,
                    forall|m: int| 0 <= m < before.len() ==> seeds@[m] == #[trigger] before[m],
                    forall|m: int| 0 <= m < k ==> seeds@[before.len() + m] == #[trigger] scope@[m],
                decreases scope.len() - k,
            {
                seeds.push(scope[k]);
                k = k + 1;
            }
            proof {
                assert forall|cj: int| start <= cj < ci + 1 && (#[trigger] cs[cj]).scope_view().len() > 0 implies touches(cs[cj], seeds@) by {
                    if cj == ci {
                        let m = before.len() as int;
                        assert(seeds@[m] == scope@[0]);
                        assert(cs[cj].scope_view().contains(seeds@[m]));
                    } else {
                        let m = choose|m: int| 0 <= m < before.len() && cs[cj].scope_view().contains(#[trigger] before[m]);
                        assert(seeds@[m] == before[m]);
                    }
                }
            }
            ci = ci + 1;
        }
        if unscoped {
            return self.propagate();
        }
        self.settled_upto = 0;
        let r = self.propagator.propagate_incremental(&mut self.domains, self.constraints.as_slice(), seeds.as_slice());
        match r {
            Ok(_) => {
                self.settled_upto = self.constraints.len();
                proof {
                    assert forall|cj: int| 0 <= cj < cs.len() implies settled(#[trigger] cs[cj], self.doms()) by {
                        if cj >= start {
                            assert(cs[cj].scope_view().len() > 0);
                        }
                    }
                }
                let solved = self.is_solved();
                proof {
                    if solved {
                        lemma_views_finite(self.domains@);
                        lemma_decided_is_solution(self.rules(), self.doms());
                    }
                }
                Ok(solved)
            },
            Err(c) => Err(c),
        }
    }
}

} // verus!
