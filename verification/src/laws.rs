//! Properties that tie several operations of the solver together.

use vstd::prelude::*;
use crate::domain::consistent;
use crate::domain::shrinks;
use crate::propagator::{fixpoint_within, is_solution, settled};
use crate::constraint::{count_true, Constraint, ExactlyN, Implication};
use crate::rule::Rule;
use crate::solver::{run_outcome, Solver};

verus! {

/// Propagation, whether it succeeds or fails, changes no solution: the assignments that
/// solve the constraints within the domains afterwards are exactly those that solved
/// them before.
pub proof fn law_propagation_keeps_solution_set<const W: usize>(
    cs: Seq<Rule<W>>,
    before: Seq<Set<int>>,
    after: Seq<Set<int>>,
    ok: bool,
)
    requires
        run_outcome(cs, before, after, ok),
    ensures
        forall|a: Seq<int>| #[trigger] is_solution(cs, after, a) <==> is_solution(cs, before, a),
{
    assert forall|a: Seq<int>| #[trigger] is_solution(cs, after, a) <==> is_solution(cs, before, a) by {
        if is_solution(cs, after, a) {
            assert forall|i: int| 0 <= i < a.len() implies #[trigger] before[i].contains(a[i]) by {
                assert(after[i].subset_of(before[i]));
                assert(after[i].contains(a[i]));
            }
            assert(consistent(a, before));
        }
        if is_solution(cs, before, a) {
            if !ok {
                assert(!is_solution(cs, before, a));
            }
            assert(consistent(a, after));
        }
    }
}

/// A successful propagation over all constraints leaves a common fixpoint of the
/// constraints (every constraint keeps a value for each of its variables and finds
/// nothing to prune) within the starting domains, and every other one lies within it:
/// it leaves the greatest common fixpoint.
pub proof fn law_propagation_gives_greatest_fixpoint<const W: usize>(
    cs: Seq<Rule<W>>,
    before: Seq<Set<int>>,
    after: Seq<Set<int>>,
)
    requires
        run_outcome(cs, before, after, true),
    ensures
        fixpoint_within(cs, after, before),
        forall|q: Seq<Set<int>>| #[trigger] fixpoint_within(cs, q, before) ==> shrinks(q, after),
{
    assert forall|ci: int| 0 <= ci < cs.len() implies
        crate::domain::nonempty_on(after, #[trigger] cs[ci].scope_view()) && cs[ci].stable(after) by {
        assert(settled(cs[ci], after));
    }
}

/// Two propagations from the same domains, such as an incremental one and a full one,
/// agree: both succeed or both fail, where they succeed they leave the same domains,
/// and either way they leave the same solutions.
pub proof fn law_incremental_matches_full<const W: usize>(
    cs: Seq<Rule<W>>,
    before: Seq<Set<int>>,
    incremental: Seq<Set<int>>,
    incremental_ok: bool,
    full: Seq<Set<int>>,
    full_ok: bool,
)
    requires
        run_outcome(cs, before, incremental, incremental_ok),
        run_outcome(cs, before, full, full_ok),
    ensures
        incremental_ok == full_ok,
        incremental_ok ==> incremental == full,
        forall|a: Seq<int>| #[trigger] is_solution(cs, incremental, a) <==> is_solution(cs, full, a),
{
    if incremental_ok {
        law_propagation_gives_greatest_fixpoint(cs, before, incremental);
        assert(fixpoint_within(cs, incremental, before));
    }
    if full_ok {
        law_propagation_gives_greatest_fixpoint(cs, before, full);
        assert(fixpoint_within(cs, full, before));
    }
    if incremental_ok && full_ok {
        assert(shrinks(incremental, full));
        assert(shrinks(full, incremental));
        assert forall|i: int| 0 <= i < full.len() implies #[trigger] incremental[i] == full[i] by {
            assert(incremental[i].subset_of(full[i]));
            assert(full[i].subset_of(incremental[i]));
            assert(incremental[i] =~= full[i]);
        }
        assert(incremental =~= full);
    }
    law_propagation_keeps_solution_set(cs, before, incremental, incremental_ok);
    law_propagation_keeps_solution_set(cs, before, full, full_ok);
    assert forall|a: Seq<int>| #[trigger] is_solution(cs, incremental, a) <==> is_solution(cs, full, a) by {
        assert(is_solution(cs, incremental, a) <==> is_solution(cs, before, a));
        assert(is_solution(cs, full, a) <==> is_solution(cs, before, a));
    }
}

/// Calls on a solver, whatever they return, keep its number of variables and its
/// configuration and only add constraints after the ones it has: over any sequence of
/// calls, each of which leaves a solver that follows the one before, the last solver
/// follows the first.
pub proof fn law_calls_keep_variables<const W: usize, C: Constraint<W>>(trace: Seq<Solver<W, C>>)
    requires
        trace.len() > 0,
        forall|k: int| 0 <= k < trace.len() - 1 ==> #[trigger] trace[k].follows(trace[k + 1]),
    ensures
        trace[0].follows(trace.last()),
        trace.last().doms().len() == trace[0].doms().len(),
    decreases trace.len(),
{
    if trace.len() > 1 {
        let front = trace.drop_last();
        assert forall|k: int| 0 <= k < front.len() - 1 implies #[trigger] front[k].follows(front[k + 1]) by {
            assert(front[k] == trace[k] && front[k + 1] == trace[k + 1]);
            assert(trace[k].follows(trace[k + 1]));
        }
        law_calls_keep_variables(front);
        let a = trace[0];
        let b = front.last();
        let c = trace.last();
        let m = trace.len() - 2;
        assert(b == trace[m]);
        assert(trace[m].follows(trace[m + 1]));
        assert(c == trace[m + 1]);
        assert forall|k: int| 0 <= k < a.rules().len() implies #[trigger] c.rules()[k] == a.rules()[k] by {
            assert(b.rules()[k] == a.rules()[k]);
            assert(c.rules()[k] == b.rules()[k]);
        }
    }
}

/// How many positions of `vars` have a domain in `d` for which `p` holds.
pub open spec fn positions_where(vars: Seq<usize>, d: Seq<Set<int>>, p: spec_fn(Set<int>) -> bool) -> nat
    decreases vars.len(),
{
    if vars.len() == 0 {
        0
    } else {
        positions_where(vars.drop_last(), d, p) + if p(d[vars.last() as int]) { 1nat } else { 0nat }
    }
}

/// Counting the positions one by one gives the number of marked entries.
proof fn lemma_positions_count(vars: Seq<usize>, d: Seq<Set<int>>, p: spec_fn(Set<int>) -> bool)
    ensures
        positions_where(vars, d, p) == count_true(Seq::new(vars.len(), |i: int| p(d[vars[i] as int]))),
    decreases vars.len(),
{
    let marks = Seq::new(vars.len(), |i: int| p(d[vars[i] as int]));
    if vars.len() > 0 {
        lemma_positions_count(vars.drop_last(), d, p);
        assert(marks.drop_last() =~= Seq::new(vars.drop_last().len(), |i: int| p(d[vars.drop_last()[i] as int])));
    }
}

/// The counting rule of `ExactlyN`: on domains where it finds nothing to prune (which
/// is what a successful propagation leaves), no more scope positions are fixed to the
/// value than the count and no fewer can take it; and once as many can take the value
/// as the count, or as many are fixed to it, every position that can take the value is
/// fixed to it (the others have lost it).
pub proof fn law_exactly_n_counts<const W: usize>(c: ExactlyN, d: Seq<Set<int>>)
    requires
        <ExactlyN as Constraint<W>>::stable(&c, d),
    ensures
        positions_where(c.variables@, d, |s: Set<int>| s == set![c.value as int]) <= c.count,
        c.count <= positions_where(c.variables@, d, |s: Set<int>| s.contains(c.value as int)),
        (positions_where(c.variables@, d, |s: Set<int>| s.contains(c.value as int)) == c.count
            || positions_where(c.variables@, d, |s: Set<int>| s == set![c.value as int]) == c.count)
            ==> forall|j: int| 0 <= j < c.variables@.len() && #[trigger] d[c.variables@[j] as int].contains(c.value as int)
                ==> d[c.variables@[j] as int] == set![c.value as int],
{
    let has = |s: Set<int>| s.contains(c.value as int);
    let only = |s: Set<int>| s == set![c.value as int];
    lemma_positions_count(c.variables@, d, has);
    lemma_positions_count(c.variables@, d, only);
    assert(Seq::new(c.variables@.len(), |i: int| has(d[c.variables@[i] as int])) =~= c.cans(d));
    assert(Seq::new(c.variables@.len(), |i: int| only(d[c.variables@[i] as int])) =~= c.musts(d));
    assert forall|j: int| 0 <= j < c.variables@.len() && #[trigger] d[c.variables@[j] as int].contains(c.value as int)
        && (count_true(c.cans(d)) == c.count || count_true(c.musts(d)) == c.count)
        implies d[c.variables@[j] as int] == set![c.value as int] by {
        assert(c.cans(d)[j]);
        assert(c.musts(d)[j]);
    }
}

/// The rule of `Implication`: on domains where it finds nothing to prune (which is what
/// a successful propagation leaves), once the first variable holds only the trigger
/// value, the second holds allowed values only, however many.
pub proof fn law_implication_fires<const W: usize>(c: Implication<W>, d: Seq<Set<int>>)
    requires
        <Implication<W> as Constraint<W>>::stable(&c, d),
    ensures
        d[c.first() as int] == set![c.trigger_value() as int] ==> d[c.second() as int].subset_of(c.allowed()),
{
}

} // verus!
