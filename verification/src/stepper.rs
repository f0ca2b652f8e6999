//! A search that advances one step at a time, so that it can be shown as it goes.
//!
//! Each call of [`Stepper::step`] does one thing (propagate, choose a variable and try a
//! value, or go back to the last choice point) and reports it as a [`StepEvent`].

use vstd::prelude::*;
use rand::rngs::SmallRng;
use crate::bitset::BitSet;
use crate::constraint::the_value;
use crate::domain::{DomainSnapshot, consistent};
use crate::propagator::{all_hold, is_solution, no_solution};
use crate::rng::{seeded, shuffle};
use crate::rule::Rule;
use crate::solver::{Solver, all_decided, as_ints, decided_values, run_outcome};

verus! {

/// Where a step-through search stands.
#[derive(PartialEq, Eq, Structural, Clone, Copy, Debug)]
pub enum StepState {
    /// Propagation runs next.
    Propagating,
    /// A variable is chosen next.
    Selecting,
    /// A value is tried for the chosen variable next.
    Assigning,
    /// The search goes back to its last choice point next.
    Backtracking,
    /// Every variable is decided.
    Solved,
    /// No choice point is left to go back to.
    Failed,
}

/// What one step did.
#[derive(Debug)]
pub enum StepEvent {
    /// Every variable is decided; the value of each (0 for one without a single value).
    Solved { values: Vec<usize> },
    /// The search ran out of choices.
    Contradiction,
    /// The search goes back; the number of open choice points.
    Backtrack { depth: usize },
    /// `variable` was given `value`; its domain afterwards, in increasing order.
    Assigned { variable: usize, value: usize, domain: Vec<usize> },
    /// Propagation left `variable` with the fewest values among the undecided ones; its
    /// domain, in increasing order.
    Propagated { variable: usize, domain: Vec<usize> },
}

/// A choice point: the domains before a value was tried for `variable`, and the values
/// of that variable not tried yet.
struct BacktrackFrame<const W: usize> {
    domains: DomainSnapshot<W>,
    variable: usize,
    remaining_values: Vec<usize>,
}

/// A choice point as values: domains, variable and untried values.
pub type Frame = (Seq<Set<int>>, usize, Seq<usize>);

/// The value each variable shows: its only value, or 0 where it has none or several.
pub open spec fn shown_values(doms: Seq<Set<int>>) -> Seq<int> {
    Seq::new(doms.len(), |i: int| if doms[i].len() == 1 { the_value(doms[i]) } else { 0 })
}

/// `list` holds the members of `d` in increasing order.
pub open spec fn lists(d: Set<int>, list: Seq<usize>) -> bool {
    &&& forall|i: int, j: int| 0 <= i < j < list.len() ==> list[i] < list[j]
    &&& forall|v: int| d.contains(v) <==> exists|i: int| 0 <= i < list.len() && list[i] == v
}

/// `list` holds each member of `d` once, in some order.
pub open spec fn holds_once(d: Set<int>, list: Seq<usize>) -> bool {
    &&& list.no_duplicates()
    &&& forall|v: int| d.contains(v) <==> exists|i: int| 0 <= i < list.len() && list[i] == v
}

/// The variables below `n` whose domains do not hold exactly one value, in order.
pub open spec fn undecided_upto(doms: Seq<Set<int>>, n: int) -> Seq<usize>
    decreases n,
{
    if n <= 0 {
        Seq::<usize>::empty()
    } else if doms[n - 1].len() != 1 {
        undecided_upto(doms, n - 1).push((n - 1) as usize)
    } else {
        undecided_upto(doms, n - 1)
    }
}

/// A variable counts in the choice: any variable, or with `only_open` one whose domain
/// holds at least two values.
pub open spec fn eligible(doms: Seq<Set<int>>, v: usize, only_open: bool) -> bool {
    !only_open || (doms[v as int].len() != 1 && doms[v as int] != Set::<int>::empty())
}

/// Position `k` of `cands` names the first of the eligible variables with the fewest
/// values.
pub open spec fn first_smallest(doms: Seq<Set<int>>, cands: Seq<usize>, k: int, only_open: bool) -> bool {
    &&& 0 <= k < cands.len()
    &&& eligible(doms, cands[k], only_open)
    &&& forall|j: int| 0 <= j < cands.len() && eligible(doms, #[trigger] cands[j], only_open)
        ==> doms[cands[k] as int].len() <= doms[cands[j] as int].len()
    &&& forall|j: int| 0 <= j < k && eligible(doms, #[trigger] cands[j], only_open)
        ==> doms[cands[k] as int].len() < doms[cands[j] as int].len()
}

/// The event reports every variable's shown value.
pub open spec fn reports_solved(ev: StepEvent, doms: Seq<Set<int>>) -> bool {
    ev matches StepEvent::Solved { values } && as_ints(values@) == shown_values(doms)
}

/// The event reports a backtrack with `depth` open choice points.
pub open spec fn reports_backtrack(ev: StepEvent, depth: int) -> bool {
    ev matches StepEvent::Backtrack { depth: d } && d == depth
}

/// The event reports that `var` was given `value` and now has domain `d`.
pub open spec fn reports_assigned(ev: StepEvent, var: usize, value: usize, d: Set<int>) -> bool {
    ev matches StepEvent::Assigned { variable, value: v, domain } && variable == var && v == value && lists(d, domain@)
}

/// The domains with `var` fixed to `value`.
pub open spec fn fixed(doms: Seq<Set<int>>, var: usize, value: usize) -> Seq<Set<int>> {
    doms.update(var as int, set![value as int])
}


/// After a value was tried for `var` from the domains `tried`: success leaves the search
/// to propagate and reports the assignment; failure leaves it to go back.
pub open spec fn tried_outcome<const W: usize>(
    cs: Seq<Rule<W>>,
    tried: Seq<Set<int>>,
    post: Stepper<W>,
    var: usize,
    value: usize,
    ev: StepEvent,
) -> bool {
    if ev is Assigned {
        &&& post.phase() == StepState::Propagating
        &&& run_outcome(cs, tried, post.doms(), true)
        &&& reports_assigned(ev, var, value, post.doms()[var as int])
    } else {
        &&& post.phase() == StepState::Backtracking
        &&& run_outcome(cs, tried, post.doms(), false)
        &&& reports_backtrack(ev, post.frames().len() as int)
    }
}

/// Trying a value for `var`: with an empty domain the search goes back at once;
/// otherwise a choice point records the domains and the values left untried, and one
/// value of the domain is assigned.
pub open spec fn assign_outcome<const W: usize>(pre: Stepper<W>, post: Stepper<W>, var: usize, ev: StepEvent) -> bool {
    let d = pre.doms()[var as int];
    if d == Set::<int>::empty() {
        &&& post.phase() == StepState::Backtracking
        &&& post.doms() == pre.doms()
        &&& post.frames() == pre.frames()
        &&& reports_backtrack(ev, pre.frames().len() as int)
    } else {
        exists|value: usize, rest: Seq<usize>|
            #![trigger fixed(pre.doms(), var, value), rest.push(value)]
            {
                &&& holds_once(d, rest.push(value))
                &&& post.frames() == pre.frames().push((pre.doms(), var, rest))
                &&& tried_outcome(pre.rules(), fixed(pre.doms(), var, value), post, var, value, ev)
            }
    }
}


/// The last choice point is gone: with none left the search has failed, otherwise it
/// keeps going back.
pub open spec fn popped<const W: usize>(left: Seq<Frame>, post: Stepper<W>, ev: StepEvent) -> bool {
    &&& post.frames() == left
    &&& if left.len() == 0 {
        post.phase() == StepState::Failed && ev is Contradiction
    } else {
        post.phase() == StepState::Backtracking && reports_backtrack(ev, left.len() as int)
    }
}

/// Going back to the last choice point: its domains come back and its next untried
/// value is assigned; a choice point with no value left is dropped.
pub open spec fn backtrack_outcome<const W: usize>(pre: Stepper<W>, post: Stepper<W>, ev: StepEvent) -> bool {
    let fs = pre.frames();
    if fs.len() == 0 {
        &&& post.phase() == StepState::Failed
        &&& ev is Contradiction
        &&& post.doms() == pre.doms()
        &&& post.frames() == fs
    } else {
        let snap = fs.last().0;
        let var = fs.last().1;
        let rem = fs.last().2;
        if rem.len() > 0 {
            let value = rem.last();
            let rest = rem.drop_last();
            let tried = fixed(snap, var, value);
            if ev is Assigned {
                &&& post.phase() == StepState::Propagating
                &&& post.frames() == fs.update(fs.len() - 1, (snap, var, rest))
                &&& run_outcome(pre.rules(), tried, post.doms(), true)
                &&& reports_assigned(ev, var, value, post.doms()[var as int])
            } else {
                &&& no_solution(pre.rules(), tried)
                &&& post.doms() == snap
                &&& if rest.len() == 0 {
                    popped(fs.drop_last(), post, ev)
                } else {
                    &&& post.frames() == fs.update(fs.len() - 1, (snap, var, rest))
                    &&& post.phase() == StepState::Backtracking
                    &&& reports_backtrack(ev, fs.len() as int)
                }
            }
        } else {
            &&& post.doms() == snap
            &&& popped(fs.drop_last(), post, ev)
        }
    }
}

/// Propagating: the domains become what propagation leaves. A success that decides
/// every variable solves the puzzle; another success lists the undecided variables and
/// reports the first with the fewest values; a failure sends the search back.
pub open spec fn propagate_outcome<const W: usize>(pre: Stepper<W>, post: Stepper<W>, ev: StepEvent) -> bool {
    &&& post.frames() == pre.frames()
    &&& post.current() == pre.current()
    &&& run_outcome(pre.rules(), pre.doms(), post.doms(), !(ev is Backtrack))
    &&& match ev {
        StepEvent::Solved { .. } => {
            &&& post.phase() == StepState::Solved
            &&& all_decided(post.doms())
            &&& reports_solved(ev, post.doms())
            &&& is_solution(pre.rules(), post.doms(), decided_values(post.doms()))
            &&& post.pending() == pre.pending()
        },
        StepEvent::Propagated { variable, domain } => {
            &&& post.phase() == StepState::Selecting
            &&& !all_decided(post.doms())
            &&& post.pending() == undecided_upto(post.doms(), post.doms().len() as int)
            &&& exists|k: int| first_smallest(post.doms(), post.pending(), k, false) && post.pending()[k] == variable
            &&& lists(post.doms()[variable as int], domain@)
        },
        StepEvent::Backtrack { depth } => {
            &&& post.phase() == StepState::Backtracking
            &&& depth == pre.frames().len()
            &&& post.pending() == pre.pending()
        },
        _ => false,
    }
}

/// Choosing a variable: the first undecided one with the fewest values gets a value
/// tried; with none left, the puzzle is solved if every variable is decided, and the
/// search goes back otherwise.
pub open spec fn select_outcome<const W: usize>(pre: Stepper<W>, post: Stepper<W>, ev: StepEvent) -> bool {
    if exists|k: int| first_smallest(pre.doms(), pre.pending(), k, true) {
        exists|k: int|
            #![trigger first_smallest(pre.doms(), pre.pending(), k, true)]
            {
                &&& first_smallest(pre.doms(), pre.pending(), k, true)
                &&& post.current() == Some(pre.pending()[k])
                &&& assign_outcome(pre, post, pre.pending()[k], ev)
            }
    } else {
        &&& post.doms() == pre.doms()
        &&& post.frames() == pre.frames()
        &&& post.current() == pre.current()
        &&& if all_decided(pre.doms()) {
            post.phase() == StepState::Solved && reports_solved(ev, pre.doms())
        } else {
            post.phase() == StepState::Backtracking && reports_backtrack(ev, pre.frames().len() as int)
        }
    }
}

/// Nothing about the search changed.
pub open spec fn unchanged<const W: usize>(pre: Stepper<W>, post: Stepper<W>) -> bool {
    &&& post.phase() == pre.phase()
    &&& post.doms() == pre.doms()
    &&& post.frames() == pre.frames()
    &&& post.pending() == pre.pending()
    &&& post.current() == pre.current()
}

/// One step, by what the search was to do next.
pub open spec fn step_outcome<const W: usize>(pre: Stepper<W>, post: Stepper<W>, ev: StepEvent) -> bool {
    match pre.phase() {
        StepState::Solved => unchanged(pre, post) && reports_solved(ev, pre.doms()),
        StepState::Failed => unchanged(pre, post) && ev is Contradiction,
        StepState::Backtracking => {
            &&& post.pending() == pre.pending()
            &&& post.current() == pre.current()
            &&& backtrack_outcome(pre, post, ev)
        },
        StepState::Propagating => propagate_outcome(pre, post, ev),
        StepState::Selecting => post.pending() == pre.pending() && select_outcome(pre, post, ev),
        StepState::Assigning => {
            &&& post.pending() == pre.pending()
            &&& match pre.current() {
                Some(v) => post.current() == pre.current() && assign_outcome(pre, post, v, ev),
                None => select_outcome(pre, post, ev),
            }
        },
    }
}

/// Every variable below `n` that is not listed as undecided has exactly one value.
pub proof fn lemma_undecided(doms: Seq<Set<int>>, n: int)
    requires
        0 <= n <= doms.len(),
    ensures
        forall|i: int| 0 <= i < n && doms[i].len() != 1 ==> undecided_upto(doms, n).contains(i as usize),
    decreases n,
{
    if n > 0 {
        lemma_undecided(doms, n - 1);
        let prev = undecided_upto(doms, n - 1);
        assert forall|i: int| 0 <= i < n && doms[i].len() != 1 implies undecided_upto(doms, n).contains(i as usize) by {
            if i < n - 1 {
                let k = choose|k: int| 0 <= k < prev.len() && prev[k] == i as usize;
                if doms[n - 1].len() != 1 {
                    assert(prev.push((n - 1) as usize)[k] == i as usize);
                }
            } else {
                assert(prev.push((n - 1) as usize)[prev.len() as int] == i as usize);
            }
        }
    }
}


/// How many of the first `n` domains hold exactly one value.
pub open spec fn decided_count(doms: Seq<Set<int>>, n: int) -> nat
    decreases n,
{
    if n <= 0 {
        0
    } else {
        decided_count(doms, n - 1) + if doms[n - 1].len() == 1 { 1nat } else { 0nat }
    }
}

/// The state of a search as shown: each variable's value where it has only one, each
/// domain in increasing order, whether every variable is decided and how many are.
pub struct BoardView {
    pub values: Vec<Option<usize>>,
    pub domains: Vec<Vec<usize>>,
    pub solved: bool,
    pub decided: usize,
}

/// `view` shows the domains `doms`.
pub open spec fn shows(view: BoardView, doms: Seq<Set<int>>) -> bool {
    &&& view.values@.len() == doms.len()
    &&& view.domains@.len() == doms.len()
    &&& forall|i: int| 0 <= i < doms.len() ==> (#[trigger] view.values@[i] is Some <==> doms[i].len() == 1)
    &&& forall|i: int| 0 <= i < doms.len() ==> (#[trigger] view.values@[i] matches Some(v) ==> doms[i] == set![v as int])
    &&& forall|i: int| 0 <= i < doms.len() ==> lists(doms[i], #[trigger] view.domains@[i]@)
    &&& view.solved == all_decided(doms)
    &&& view.decided == decided_count(doms, doms.len() as int)
}

/// `a` lies within the choice point's domains and takes one of its untried values.
pub open spec fn in_frame(a: Seq<int>, f: Frame) -> bool {
    &&& consistent(a, f.0)
    &&& exists|k: int| 0 <= k < f.2.len() && #[trigger] f.2[k] as int == a[f.1 as int]
}

/// Some choice point still holds `a`.
pub open spec fn held_by_frames(a: Seq<int>, fs: Seq<Frame>) -> bool {
    exists|i: int| 0 <= i < fs.len() && in_frame(a, #[trigger] fs[i])
}


/// A solution within `d` that gives `var` the value `value` is a solution within `d`
/// with `var` fixed to `value`.
proof fn lemma_solution_fixed<const W: usize>(cs: Seq<Rule<W>>, d: Seq<Set<int>>, a: Seq<int>, var: usize, value: usize)
    requires
        is_solution(cs, d, a),
        var < d.len(),
        a[var as int] == value,
    ensures
        is_solution(cs, fixed(d, var, value), a),
{
    let t = fixed(d, var, value);
    assert forall|i: int| 0 <= i < a.len() implies #[trigger] t[i].contains(a[i]) by {
        if i != var as int {
            assert(d[i].contains(a[i]));
        }
    }
}

/// Choice points that held a solution still hold it with one more pushed.
proof fn lemma_held_push(a: Seq<int>, fs: Seq<Frame>, f: Frame)
    ensures
        held_by_frames(a, fs) ==> held_by_frames(a, fs.push(f)),
        in_frame(a, f) ==> held_by_frames(a, fs.push(f)),
{
    if held_by_frames(a, fs) {
        let i = choose|i: int| 0 <= i < fs.len() && in_frame(a, #[trigger] fs[i]);
        assert(fs.push(f)[i] == fs[i]);
    }
    if in_frame(a, f) {
        assert(fs.push(f)[fs.len() as int] == f);
    }
}

/// Replacing the last choice point keeps what the others hold.
proof fn lemma_held_replace_last(a: Seq<int>, fs: Seq<Frame>, f: Frame)
    requires
        fs.len() > 0,
    ensures
        held_by_frames(a, fs) && !in_frame(a, fs.last()) ==> held_by_frames(a, fs.update(fs.len() - 1, f)),
        held_by_frames(a, fs) && !in_frame(a, fs.last()) ==> held_by_frames(a, fs.drop_last()),
        in_frame(a, f) ==> held_by_frames(a, fs.update(fs.len() - 1, f)),
{
    let last = fs.len() - 1;
    if held_by_frames(a, fs) && !in_frame(a, fs.last()) {
        let i = choose|i: int| 0 <= i < fs.len() && in_frame(a, #[trigger] fs[i]);
        assert(i != last);
        assert(fs.update(last, f)[i] == fs[i]);
        assert(fs.drop_last()[i] == fs[i]);
    }
    if in_frame(a, f) {
        assert(fs.update(last, f)[last] == f);
    }
}

/// Trying the last untried value of a choice point: a solution held by it either takes
/// that value, and is then kept by a successful try (a failed try has none), or takes
/// one of the values still untried.
proof fn lemma_try_value<const W: usize>(
    cs: Seq<Rule<W>>,
    a: Seq<int>,
    snap: Seq<Set<int>>,
    var: usize,
    rem: Seq<usize>,
    after: Seq<Set<int>>,
    ok: bool,
)
    requires
        all_hold(cs, a),
        in_frame(a, (snap, var, rem)),
        var < snap.len(),
        rem.len() > 0,
        run_outcome(cs, fixed(snap, var, rem.last()), after, ok),
    ensures
        (ok && consistent(a, after)) || in_frame(a, (snap, var, rem.drop_last())),
{
    let k = choose|k: int| 0 <= k < rem.len() && #[trigger] rem[k] as int == a[var as int];
    if k == rem.len() - 1 {
        assert(is_solution(cs, snap, a));
        lemma_solution_fixed(cs, snap, a, var, rem.last());
        let t = fixed(snap, var, rem.last());
        assert(is_solution(cs, t, a));
        if !ok {
            assert(!is_solution(cs, t, a));
        }
        assert(consistent(a, after));
    } else {
        let f: Frame = (snap, var, rem.drop_last());
        assert(rem.drop_last()[k] == rem[k]);
        assert(f.2[k] as int == a[f.1 as int]);
        assert(in_frame(a, f));
    }
}


/// Trying a value for `var`, with the others kept at a new choice point: every solution
/// within `d` or held by the old choice points is kept by a successful try or held by
/// the choice points afterwards.
proof fn lemma_assign_complete<const W: usize>(
    cs: Seq<Rule<W>>,
    start: Seq<Set<int>>,
    d: Seq<Set<int>>,
    fs: Seq<Frame>,
    var: usize,
    value: usize,
    rest: Seq<usize>,
    after: Seq<Set<int>>,
    ok: bool,
)
    requires
        forall|a: Seq<int>| #[trigger] is_solution(cs, start, a) ==> consistent(a, d) || held_by_frames(a, fs),
        var < d.len(),
        holds_once(d[var as int], rest.push(value)),
        run_outcome(cs, fixed(d, var, value), after, ok),
    ensures
        forall|a: Seq<int>| #[trigger] is_solution(cs, start, a)
            ==> (ok && consistent(a, after)) || held_by_frames(a, fs.push((d, var, rest))),
{
    let rem = rest.push(value);
    assert(rem.drop_last() =~= rest);
    assert(rem.last() == value);
    assert forall|a: Seq<int>| #[trigger] is_solution(cs, start, a)
        implies (ok && consistent(a, after)) || held_by_frames(a, fs.push((d, var, rest))) by {
        lemma_held_push(a, fs, (d, var, rest));
        if !held_by_frames(a, fs) {
            assert(consistent(a, d));
            assert(d[var as int].contains(a[var as int]));
            let i = choose|i: int| 0 <= i < rem.len() && rem[i] == a[var as int];
            let f: Frame = (d, var, rem);
            assert(f.2[i] as int == a[f.1 as int]);
            assert(in_frame(a, f));
            lemma_try_value(cs, a, d, var, rem, after, ok);
        }
    }
}


/// Going back to the last choice point and trying its last untried value: every
/// solution held by the choice points is kept by a successful try or still held, with
/// that value marked as tried; and when no value is left untried there, the other
/// choice points hold it.
proof fn lemma_retry_complete<const W: usize>(
    cs: Seq<Rule<W>>,
    start: Seq<Set<int>>,
    fs: Seq<Frame>,
    after: Seq<Set<int>>,
    ok: bool,
)
    requires
        forall|a: Seq<int>| #[trigger] is_solution(cs, start, a) ==> held_by_frames(a, fs),
        fs.len() > 0,
        fs.last().2.len() > 0,
        fs.last().1 < fs.last().0.len(),
        run_outcome(cs, fixed(fs.last().0, fs.last().1, fs.last().2.last()), after, ok),
    ensures
        forall|a: Seq<int>| #[trigger] is_solution(cs, start, a) ==> (ok && consistent(a, after))
            || held_by_frames(a, fs.update(fs.len() - 1, (fs.last().0, fs.last().1, fs.last().2.drop_last()))),
        fs.last().2.len() == 1 ==> forall|a: Seq<int>| #[trigger] is_solution(cs, start, a)
            ==> (ok && consistent(a, after)) || held_by_frames(a, fs.drop_last()),
{
    let top = fs.last();
    let f: Frame = (top.0, top.1, top.2.drop_last());
    assert forall|a: Seq<int>| #[trigger] is_solution(cs, start, a) implies (ok && consistent(a, after))
        || held_by_frames(a, fs.update(fs.len() - 1, f)) by {
        lemma_held_replace_last(a, fs, f);
        if in_frame(a, top) {
            lemma_try_value(cs, a, top.0, top.1, top.2, after, ok);
        }
    }
    if top.2.len() == 1 {
        assert forall|a: Seq<int>| #[trigger] is_solution(cs, start, a)
            implies (ok && consistent(a, after)) || held_by_frames(a, fs.drop_last()) by {
            lemma_held_replace_last(a, fs, f);
            if in_frame(a, top) {
                lemma_try_value(cs, a, top.0, top.1, top.2, after, ok);
                assert(!in_frame(a, f));
            }
        }
    }
}

/// A choice point with no untried value holds nothing.
proof fn lemma_drop_spent(a: Seq<int>, fs: Seq<Frame>)
    requires
        fs.len() > 0,
        fs.last().2.len() == 0,
        held_by_frames(a, fs),
    ensures
        held_by_frames(a, fs.drop_last()),
{
    lemma_held_replace_last(a, fs, fs.last());
}

/// A search that advances one step at a time.
pub struct Stepper<const W: usize> {
    origin: Ghost<Seq<Set<int>>>,
    solver: Solver<W>,
    rng: SmallRng,
    state: StepState,
    unresolved: Vec<usize>,
    current_var: Option<usize>,
    backtrack_stack: Vec<BacktrackFrame<W>>,
    depth: usize,
}

impl<const W: usize> Stepper<W> {
    /// What the search does next.
    pub closed spec fn phase(self) -> StepState {
        self.state
    }

    /// The current domains.
    pub closed spec fn doms(self) -> Seq<Set<int>> {
        self.solver.doms()
    }

    /// The constraints.
    pub closed spec fn rules(self) -> Seq<Rule<W>> {
        self.solver.rules()
    }

    /// The open choice points, the latest last.
    pub closed spec fn frames(self) -> Seq<Frame> {
        self.backtrack_stack@.map_values(|f: BacktrackFrame<W>| (f.domains@, f.variable, f.remaining_values@))
    }

    /// The variables the next choice is made among.
    pub closed spec fn pending(self) -> Seq<usize> {
        self.unresolved@
    }

    /// The variable chosen last.
    pub closed spec fn current(self) -> Option<usize> {
        self.current_var
    }

    /// The domains the search started from.
    pub closed spec fn start_doms(self) -> Seq<Set<int>> {
        self.origin@
    }

    /// No solution within the domains the search started from has been passed over:
    /// each lies within the current domains, unless the search is going back, or is held
    /// by a choice point; a failed search has none. A choice is made among the undecided
    /// variables, and a value is tried for a chosen one.
    pub closed spec fn complete(self) -> bool {
        &&& forall|a: Seq<int>| #[trigger] is_solution(self.solver.rules(), self.origin@, a) ==> match self.state {
            StepState::Failed => false,
            StepState::Backtracking => held_by_frames(a, self.frames()),
            _ => consistent(a, self.solver.doms()) || held_by_frames(a, self.frames()),
        }
        &&& self.state == StepState::Selecting ==> self.unresolved@ == undecided_upto(self.solver.doms(), self.solver.doms().len() as int)
        &&& self.state == StepState::Assigning ==> self.current_var is Some
    }

    /// A failed search had no solution to find within the domains it started from.
    pub proof fn lemma_failed_means_unsolvable(self)
        requires
            self.wf(),
            self.phase() == StepState::Failed,
        ensures
            no_solution(self.rules(), self.start_doms()),
    {
        assert forall|a: Seq<int>| !#[trigger] is_solution(self.rules(), self.start_doms(), a) by {
            if is_solution(self.rules(), self.start_doms(), a) {
                assert(is_solution(self.solver.rules(), self.origin@, a));
            }
        }
    }

    /// The solver is sound, the depth counts the choice points, and every variable and
    /// recorded domain list belongs to the problem.
    pub closed spec fn wf(self) -> bool {
        self.shape() && self.complete()
    }

    /// The structure the search relies on, whatever its progress.
    closed spec fn shape(self) -> bool {
        let n = self.solver.doms().len();
        &&& self.solver.wf()
        &&& self.solver.scopes_fit()
        &&& self.depth == self.backtrack_stack@.len()
        &&& forall|i: int| 0 <= i < self.backtrack_stack@.len() ==> {
            &&& (#[trigger] self.backtrack_stack@[i]).domains@.len() == n
            &&& self.backtrack_stack@[i].variable < n
            &&& forall|j: int| 0 <= j < self.backtrack_stack@[i].remaining_values@.len()
                ==> BitSet::<W>::in_range(#[trigger] self.backtrack_stack@[i].remaining_values@[j] as int)
        }
        &&& forall|i: int| 0 <= i < self.unresolved@.len() ==> #[trigger] self.unresolved@[i] < n
        &&& self.current_var matches Some(v) ==> v < n
    }

    /// The shown value of every variable.
    fn shown(&self) -> (values: Vec<usize>)
        requires
            self.shape(),
        ensures
            as_ints(values@) == shown_values(self.doms()),
    {
        let n = self.solver.num_variables();
        let mut values: Vec<usize> = Vec::new();
        let mut i: usize = 0;
        while i < n
            invariant
                n == self.doms().len(),
                i <= n,
                values@.len() == i,
                forall|j: int| 0 <= j < i ==> #[trigger] values@[j] as int == shown_values(self.doms())[j],
            decreases n - i,
        {
            let v = match self.solver.domain(i).singleton_value() {
                Some(v) => v,
                None => 0,
            };
            proof {
                if self.doms()[i as int].len() == 1 {
                    let d = self.doms()[i as int];
                    assert(d.contains(v as int));
                    assert(d.contains(the_value(d)));
                }
            }
            values.push(v);
            i = i + 1;
        }
        assert(as_ints(values@) =~= shown_values(self.doms()));
        values
    }

    /// The values of `var`'s domain in increasing order.
    fn listing(&self, var: usize) -> (list: Vec<usize>)
        requires
            var < self.doms().len(),
        ensures
            lists(self.doms()[var as int], list@),
    {
        self.solver.domain(var).to_vec()
    }

    /// The variables whose domains do not hold exactly one value, in order.
    fn undecided(&self) -> (vars: Vec<usize>)
        requires
            self.shape(),
        ensures
            vars@ == undecided_upto(self.doms(), self.doms().len() as int),
            forall|i: int| 0 <= i < vars@.len() ==> #[trigger] vars@[i] < self.doms().len(),
    {
        let n = self.solver.num_variables();
        let mut vars: Vec<usize> = Vec::new();
        let mut i: usize = 0;
        while i < n
            invariant
                n == self.doms().len(),
                i <= n,
                vars@ == undecided_upto(self.doms(), i as int),
                forall|j: int| 0 <= j < vars@.len() ==> #[trigger] vars@[j] < i,
            decreases n - i,
        {
            if !self.solver.domain(i).is_singleton() {
                vars.push(i);
            }
            i = i + 1;
        }
        vars
    }

    /// The first of the eligible variables among `cands` with the fewest values.
    fn smallest(&self, cands: &Vec<usize>, only_open: bool) -> (r: Option<usize>)
        requires
            self.shape(),
            forall|i: int| 0 <= i < cands@.len() ==> #[trigger] cands@[i] < self.doms().len(),
        ensures
            match r {
                Some(v) => exists|k: int| first_smallest(self.doms(), cands@, k, only_open) && cands@[k] == v,
                None => forall|j: int| 0 <= j < cands@.len() ==> !eligible(self.doms(), #[trigger] cands@[j], only_open),
            },
    {
        let mut best: Option<usize> = None;
        let mut best_count: usize = 0;
        let mut i: usize = 0;
        while i < cands.len()
            invariant
                self.shape(),
                forall|j: int| 0 <= j < cands@.len() ==> #[trigger] cands@[j] < self.doms().len(),
                i <= cands@.len(),
                match best {
                    Some(k) => k < i && first_smallest(self.doms(), cands@.take(i as int), k as int, only_open)
                        && best_count == self.doms()[cands@[k as int] as int].len(),
                    None => forall|j: int| 0 <= j < i ==> !eligible(self.doms(), #[trigger] cands@[j], only_open),
                },
            decreases cands@.len() - i,
        {
            let v = cands[i];
            let d = self.solver.domain(v);
            let ok = !only_open || (!d.is_singleton() && !d.is_empty());
            let ghost prefix = cands@.take(i as int);
            let ghost next = cands@.take(i + 1);
            if ok {
                let c = d.count();
                match best {
                    Some(k) => {
                        if c < best_count {
                            best = Some(i);
                            best_count = c;
                            proof {
                                assert forall|j: int| 0 <= j < next.len() && eligible(self.doms(), #[trigger] next[j], only_open)
                                    implies self.doms()[next[i as int] as int].len() <= self.doms()[next[j] as int].len() by {
                                    if j < i {
                                        assert(prefix[j] == next[j]);
                                    }
                                }
                                assert forall|j: int| 0 <= j < i && eligible(self.doms(), #[trigger] next[j], only_open)
                                    implies self.doms()[next[i as int] as int].len() < self.doms()[next[j] as int].len() by {
                                    assert(prefix[j] == next[j]);
                                }
                            }
                        } else {
                            proof {
                                assert forall|j: int| 0 <= j < next.len() && eligible(self.doms(), #[trigger] next[j], only_open)
                                    implies self.doms()[next[k as int] as int].len() <= self.doms()[next[j] as int].len() by {
                                    if j < i {
                                        assert(prefix[j] == next[j]);
                                    }
                                }
                                assert forall|j: int| 0 <= j < k && eligible(self.doms(), #[trigger] next[j], only_open)
                                    implies self.doms()[next[k as int] as int].len() < self.doms()[next[j] as int].len() by {
                                    assert(prefix[j] == next[j]);
                                }
                            }
                        }
                    },
                    None => {
                        best = Some(i);
                        best_count = c;
                        proof {
                            assert forall|j: int| 0 <= j < next.len() && eligible(self.doms(), #[trigger] next[j], only_open)
                                implies self.doms()[next[i as int] as int].len() <= self.doms()[next[j] as int].len() by {
                                if j < i {
                                    assert(next[j] == cands@[j]);
                                }
                            }
                            assert forall|j: int| 0 <= j < i && eligible(self.doms(), #[trigger] next[j], only_open)
                                implies self.doms()[next[i as int] as int].len() < self.doms()[next[j] as int].len() by {
                                assert(next[j] == cands@[j]);
                            }
                        }
                    },
                }
            } else {
                proof {
                    match best {
                        Some(k) => {
                            assert forall|j: int| 0 <= j < next.len() && eligible(self.doms(), #[trigger] next[j], only_open)
                                implies self.doms()[next[k as int] as int].len() <= self.doms()[next[j] as int].len() by {
                                if j < i {
                                    assert(prefix[j] == next[j]);
                                }
                            }
                            assert forall|j: int| 0 <= j < k && eligible(self.doms(), #[trigger] next[j], only_open)
                                implies self.doms()[next[k as int] as int].len() < self.doms()[next[j] as int].len() by {
                                assert(prefix[j] == next[j]);
                            }
                        },
                        None => {},
                    }
                }
            }
            i = i + 1;
        }
        proof {
            assert(cands@.take(cands@.len() as int) =~= cands@);
        }
        match best {
            Some(k) => Some(cands[k]),
            None => None,
        }
    }

    /// Try a value for `var`: shuffle its values, keep the others at a new choice point
    /// and assign the last of them.
    fn do_assign(&mut self, var: usize) -> (ev: StepEvent)
        requires
            old(self).wf(),
            var < old(self).doms().len(),
        ensures
            final(self).wf(),
            final(self).rules() == old(self).rules(),
            final(self).start_doms() == old(self).start_doms(),
            final(self).doms().len() == old(self).doms().len(),
            final(self).pending() == old(self).pending(),
            final(self).current() == old(self).current(),
            assign_outcome(*old(self), *final(self), var, ev),
    {
        let mut values = self.listing(var);
        proof {
            self.solver.lemma_doms_small();
        }
        if values.len() == 0 {
            let ghost pre0 = *self;
            proof {
                let d = self.doms()[var as int];
                assert(d =~= Set::<int>::empty());
            }
            self.state = StepState::Backtracking;
            proof {
                assert forall|a: Seq<int>| #[trigger] is_solution(self.solver.rules(), self.origin@, a)
                    implies held_by_frames(a, self.frames()) by {
                    assert(is_solution(pre0.solver.rules(), pre0.origin@, a));
                    if consistent(a, pre0.solver.doms()) {
                        assert(pre0.solver.doms()[var as int].contains(a[var as int]));
                    }
                }
            }
            return StepEvent::Backtrack { depth: self.depth };
        }
        let ghost pre = *self;
        let ghost sorted = values@;
        let ghost d = self.doms()[var as int];
        shuffle(&mut values, &mut self.rng);
        let ghost shuffled = values@;
        let value = values.pop().unwrap();
        proof {
            assert(shuffled =~= values@.push(value));
            assert(sorted.no_duplicates());
            sorted.lemma_multiset_has_no_duplicates();
            shuffled.lemma_multiset_has_no_duplicates_conv();
            assert forall|v: int| d.contains(v) <==> exists|i: int| 0 <= i < shuffled.len() && shuffled[i] == v by {
                if d.contains(v) {
                    let i = choose|i: int| 0 <= i < sorted.len() && sorted[i] == v;
                    assert(sorted.contains(sorted[i]));
                    assert(shuffled.contains(sorted[i]));
                }
                if exists|i: int| 0 <= i < shuffled.len() && shuffled[i] == v {
                    let i = choose|i: int| 0 <= i < shuffled.len() && shuffled[i] == v;
                    assert(shuffled.contains(shuffled[i]));
                    assert(sorted.contains(shuffled[i]));
                }
            }
            assert(d.contains(value as int)) by {
                assert(shuffled[shuffled.len() - 1] == value);
            }
            assert(BitSet::<W>::in_range(value as int));
            assert forall|j: int| 0 <= j < values@.len() implies BitSet::<W>::in_range(#[trigger] values@[j] as int) by {
                assert(shuffled[j] == values@[j]);
                assert(shuffled.contains(shuffled[j]));
                assert(sorted.contains(shuffled[j]));
                let i = choose|i: int| 0 <= i < sorted.len() && sorted[i] == shuffled[j];
                assert(d.contains(sorted[i] as int));
                assert(pre.doms()[var as int].contains(sorted[i] as int));
            }
        }
        let snap = self.solver.snapshot();
        self.backtrack_stack.push(BacktrackFrame { domains: snap, variable: var, remaining_values: values });
        self.depth = self.backtrack_stack.len();
        proof {
            assert(self.frames() =~= pre.frames().push((pre.doms(), var, values@)));
        }
        let r = self.solver.assign(var, value);
        proof {
            assert(fixed(pre.doms(), var, value) == pre.doms().update(
                var as int,
                if BitSet::<W>::in_range(value as int) { set![value as int] } else { Set::<int>::empty() },
            ));
            assert(holds_once(d, values@.push(value)));
            assert forall|a: Seq<int>| #[trigger] is_solution(pre.solver.rules(), pre.origin@, a)
                implies consistent(a, pre.doms()) || held_by_frames(a, pre.frames()) by {
            }
            lemma_assign_complete(pre.solver.rules(), pre.origin@, pre.doms(), pre.frames(), var, value, values@,
                self.doms(), r is Ok);
        }
        match r {
            Ok(()) => {
                let domain = self.listing(var);
                self.state = StepState::Propagating;
                let ev = StepEvent::Assigned { variable: var, value, domain };
                proof {
                    assert(holds_once(d, values@.push(value)));
                    assert(tried_outcome(pre.rules(), fixed(pre.doms(), var, value), *self, var, value, ev));
                }
                ev
            },
            Err(_) => {
                self.state = StepState::Backtracking;
                let ev = StepEvent::Backtrack { depth: self.depth };
                proof {
                    assert(holds_once(d, values@.push(value)));
                    assert(tried_outcome(pre.rules(), fixed(pre.doms(), var, value), *self, var, value, ev));
                }
                ev
            },
        }
    }

    /// Go back to the last choice point and try its next value.
    fn do_backtrack(&mut self) -> (ev: StepEvent)
        requires
            old(self).wf(),
            old(self).phase() == StepState::Backtracking,
        ensures
            final(self).wf(),
            final(self).rules() == old(self).rules(),
            final(self).start_doms() == old(self).start_doms(),
            final(self).doms().len() == old(self).doms().len(),
            final(self).pending() == old(self).pending(),
            final(self).current() == old(self).current(),
            backtrack_outcome(*old(self), *final(self), ev),
    {
        let ghost pre = *self;
        let ghost fs = pre.frames();
        let ghost cs = pre.solver.rules();
        let ghost start = pre.origin@;
        proof {
            assert forall|a: Seq<int>| #[trigger] is_solution(cs, start, a) implies held_by_frames(a, fs) by {
            }
        }
        match self.backtrack_stack.pop() {
            None => {
                self.state = StepState::Failed;
                proof {
                    assert forall|a: Seq<int>| #[trigger] is_solution(cs, start, a) implies false by {
                        assert(held_by_frames(a, fs));
                    }
                }
                StepEvent::Contradiction
            },
            Some(mut frame) => {
                let var = frame.variable;
                let ghost frame_before = frame;
                let ghost snap = frame.domains@;
                let ghost rem = frame.remaining_values@;
                proof {
                    assert(fs.last() == (snap, var, rem));
                    assert(self.frames() =~= fs.drop_last());
                    assert(pre.backtrack_stack@[fs.len() - 1] == frame_before);
                    assert(var < snap.len());
                }
                match frame.remaining_values.pop() {
                    Some(value) => {
                        let ghost rest = frame.remaining_values@;
                        proof {
                            assert(value == rem.last());
                            assert(rest =~= rem.drop_last());
                            assert(pre.backtrack_stack@[fs.len() - 1] == frame_before);
                            assert(BitSet::<W>::in_range(rem[rem.len() - 1] as int));
                        }
                        self.solver.restore(&frame.domains);
                        let r = self.solver.assign(var, value);
                        proof {
                            assert(fixed(snap, var, value) == snap.update(
                                var as int,
                                if BitSet::<W>::in_range(value as int) { set![value as int] } else { Set::<int>::empty() },
                            ));
                            lemma_retry_complete(cs, start, fs, self.doms(), r is Ok);
                        }
                        match r {
                            Ok(()) => {
                                self.backtrack_stack.push(frame);
                                proof {
                                    assert(self.frames() =~= fs.update(fs.len() - 1, (snap, var, rest)));
                                }
                                self.state = StepState::Propagating;
                                let domain = self.listing(var);
                                proof {
                                    assert forall|a: Seq<int>| #[trigger] is_solution(self.solver.rules(), self.origin@, a)
                                        implies consistent(a, self.solver.doms()) || held_by_frames(a, self.frames()) by {
                                        assert(is_solution(cs, start, a));
                                    }
                                }
                                StepEvent::Assigned { variable: var, value, domain }
                            },
                            Err(_) => {
                                self.solver.restore(&frame.domains);
                                if frame.remaining_values.len() == 0 {
                                    self.depth = self.backtrack_stack.len();
                                    proof {
                                        assert(rem.len() == 1);
                                        assert forall|a: Seq<int>| #[trigger] is_solution(self.solver.rules(), self.origin@, a)
                                            implies held_by_frames(a, self.frames()) by {
                                            assert(is_solution(cs, start, a));
                                        }
                                    }
                                    if self.backtrack_stack.len() == 0 {
                                        self.state = StepState::Failed;
                                        proof {
                                            assert forall|a: Seq<int>| #[trigger] is_solution(self.solver.rules(), self.origin@, a)
                                                implies false by {
                                                assert(held_by_frames(a, self.frames()));
                                            }
                                        }
                                        return StepEvent::Contradiction;
                                    }
                                    StepEvent::Backtrack { depth: self.depth }
                                } else {
                                    self.backtrack_stack.push(frame);
                                    proof {
                                        assert(self.frames() =~= fs.update(fs.len() - 1, (snap, var, rest)));
                                        assert forall|a: Seq<int>| #[trigger] is_solution(self.solver.rules(), self.origin@, a)
                                            implies held_by_frames(a, self.frames()) by {
                                            assert(is_solution(cs, start, a));
                                        }
                                    }
                                    StepEvent::Backtrack { depth: self.depth }
                                }
                            },
                        }
                    },
                    None => {
                        self.solver.restore(&frame.domains);
                        self.depth = self.backtrack_stack.len();
                        proof {
                            assert forall|a: Seq<int>| #[trigger] is_solution(self.solver.rules(), self.origin@, a)
                                implies held_by_frames(a, self.frames()) by {
                                assert(is_solution(cs, start, a));
                                lemma_drop_spent(a, fs);
                            }
                        }
                        if self.backtrack_stack.len() == 0 {
                            self.state = StepState::Failed;
                            proof {
                                assert forall|a: Seq<int>| #[trigger] is_solution(self.solver.rules(), self.origin@, a)
                                    implies false by {
                                    assert(held_by_frames(a, self.frames()));
                                }
                            }
                            return StepEvent::Contradiction;
                        }
                        StepEvent::Backtrack { depth: self.depth }
                    },
                }
            },
        }
    }

    /// Choose the first undecided variable with the fewest values and try a value for it.
    fn select_step(&mut self) -> (ev: StepEvent)
        requires
            old(self).wf(),
            old(self).phase() == StepState::Selecting,
        ensures
            final(self).wf(),
            final(self).rules() == old(self).rules(),
            final(self).start_doms() == old(self).start_doms(),
            final(self).doms().len() == old(self).doms().len(),
            final(self).pending() == old(self).pending(),
            select_outcome(*old(self), *final(self), ev),
    {
        let ghost pre = *self;
        let ghost cs = pre.solver.rules();
        let ghost start = pre.origin@;
        let best = self.smallest(&self.unresolved, true);
        match best {
            Some(var) => {
                self.current_var = Some(var);
                self.state = StepState::Assigning;
                let ghost mid = *self;
                proof {
                    assert forall|a: Seq<int>| #[trigger] is_solution(self.solver.rules(), self.origin@, a)
                        implies consistent(a, self.solver.doms()) || held_by_frames(a, self.frames()) by {
                        assert(is_solution(cs, start, a));
                    }
                }
                let ev = self.do_assign(var);
                proof {
                    let k = choose|k: int| first_smallest(pre.doms(), pre.pending(), k, true) && pre.pending()[k] == var;
                    assert(first_smallest(pre.doms(), pre.pending(), k, true));
                    assert(assign_outcome(mid, *self, var, ev));
                    assert(mid.doms() == pre.doms() && mid.frames() == pre.frames() && mid.rules() == pre.rules());
                    assert(assign_outcome(pre, *self, var, ev));
                }
                ev
            },
            None => {
                proof {
                    if exists|k: int| first_smallest(pre.doms(), pre.pending(), k, true) {
                        let k = choose|k: int| first_smallest(pre.doms(), pre.pending(), k, true);
                        assert(eligible(pre.doms(), pre.pending()[k], true));
                    }
                }
                if self.solver.is_solved() {
                    self.state = StepState::Solved;
                    proof {
                        assert forall|a: Seq<int>| #[trigger] is_solution(self.solver.rules(), self.origin@, a)
                            implies consistent(a, self.solver.doms()) || held_by_frames(a, self.frames()) by {
                            assert(is_solution(cs, start, a));
                        }
                    }
                    StepEvent::Solved { values: self.shown() }
                } else {
                    self.state = StepState::Backtracking;
                    let n = self.solver.num_variables();
                    proof {
                        let d = pre.doms();
                        assert(n == d.len());
                        lemma_undecided(d, d.len() as int);
                        let u = choose|u: int| 0 <= u < d.len() && #[trigger] d[u].len() != 1;
                        let k = choose|k: int| 0 <= k < pre.pending().len() && pre.pending()[k] == u as usize;
                        assert(pre.pending() == undecided_upto(d, d.len() as int));
                        assert(u < d.len());
                        assert(pre.pending()[k] as int == u);
                        assert(!eligible(d, pre.pending()[k], true));
                        assert(d[u] == Set::<int>::empty());
                        assert forall|a: Seq<int>| #[trigger] is_solution(self.solver.rules(), self.origin@, a)
                            implies held_by_frames(a, self.frames()) by {
                            assert(is_solution(cs, start, a));
                            if consistent(a, d) {
                                assert(d[u].contains(a[u]));
                            }
                        }
                    }
                    StepEvent::Backtrack { depth: self.depth }
                }
            },
        }
    }

    /// Run propagation and report what it left.
    fn propagate_step(&mut self) -> (ev: StepEvent)
        requires
            old(self).wf(),
            old(self).phase() == StepState::Propagating,
        ensures
            final(self).wf(),
            final(self).rules() == old(self).rules(),
            final(self).start_doms() == old(self).start_doms(),
            final(self).doms().len() == old(self).doms().len(),
            propagate_outcome(*old(self), *final(self), ev),
    {
        let ghost pre = *self;
        let ghost cs = pre.solver.rules();
        let ghost start = pre.origin@;
        let r = self.solver.propagate();
        proof {
            assert forall|a: Seq<int>| #[trigger] is_solution(cs, start, a)
                implies (r is Ok && consistent(a, self.solver.doms())) || held_by_frames(a, self.frames()) by {
                if consistent(a, pre.doms()) {
                    assert(is_solution(cs, pre.doms(), a));
                }
            }
        }
        match r {
            Ok(true) => {
                self.state = StepState::Solved;
                StepEvent::Solved { values: self.shown() }
            },
            Ok(false) => {
                self.unresolved = self.undecided();
                let report = match self.smallest(&self.unresolved, false) {
                    Some(v) => v,
                    None => {
                        proof {
                            lemma_undecided(self.doms(), self.doms().len() as int);
                            let i = choose|i: int| 0 <= i < self.doms().len() && #[trigger] self.doms()[i].len() != 1;
                            let k = choose|k: int| 0 <= k < self.pending().len() && self.pending()[k] == i as usize;
                            assert(eligible(self.doms(), self.pending()[k], false));
                        }
                        0
                    },
                };
                let domain = self.listing(report);
                self.state = StepState::Selecting;
                StepEvent::Propagated { variable: report, domain }
            },
            Err(_) => {
                self.state = StepState::Backtracking;
                StepEvent::Backtrack { depth: self.depth }
            },
        }
    }

    /// Do one step of the search and report it. A contradiction is reported only when no
    /// solution lies within the domains the search started from.
    pub fn step(&mut self) -> (ev: StepEvent)
        requires
            old(self).wf(),
        ensures
            final(self).wf(),
            final(self).rules() == old(self).rules(),
            final(self).start_doms() == old(self).start_doms(),
            final(self).doms().len() == old(self).doms().len(),
            step_outcome(*old(self), *final(self), ev),
            ev is Contradiction ==> no_solution(final(self).rules(), final(self).start_doms()),
    {
        let ev = self.step_event();
        proof {
            if ev is Contradiction {
                self.lemma_failed_means_unsolvable();
            }
        }
        ev
    }

    /// One step of the search, by what it was to do next.
    fn step_event(&mut self) -> (ev: StepEvent)
        requires
            old(self).wf(),
        ensures
            final(self).wf(),
            final(self).rules() == old(self).rules(),
            final(self).start_doms() == old(self).start_doms(),
            final(self).doms().len() == old(self).doms().len(),
            step_outcome(*old(self), *final(self), ev),
    {
        match self.state {
            StepState::Solved => StepEvent::Solved { values: self.shown() },
            StepState::Failed => StepEvent::Contradiction,
            StepState::Backtracking => self.do_backtrack(),
            StepState::Propagating => self.propagate_step(),
            StepState::Selecting => self.select_step(),
            StepState::Assigning => match self.current_var {
                Some(var) => self.do_assign(var),
                None => {
                    let ghost pre = *self;
                    self.state = StepState::Selecting;
                    let ghost mid = *self;
                    let ev = self.select_step();
                    proof {
                        assert(mid.doms() == pre.doms() && mid.frames() == pre.frames() && mid.pending() == pre.pending() && mid.current() == pre.current());
                    }
                    ev
                },
            },
        }
    }

    /// Start a step-through search on `solver` with a generator seeded from `seed`:
    /// propagate once, whatever comes of it, and list the undecided variables; with none
    /// the search is solved already, otherwise a variable is chosen next.
    pub fn start(solver: Solver<W>, seed: u64) -> (s: Self)
        requires
            solver.wf(),
            solver.scopes_fit(),
        ensures
            s.wf(),
            s.rules() == solver.rules(),
            run_outcome(solver.rules(), solver.doms(), s.doms(), true)
                || run_outcome(solver.rules(), solver.doms(), s.doms(), false),
            s.pending() == undecided_upto(s.doms(), s.doms().len() as int),
            s.phase() == (if s.pending().len() == 0 { StepState::Solved } else { StepState::Selecting }),
            s.frames() == Seq::<Frame>::empty(),
            s.current() is None,
            s.start_doms() == s.doms(),
    {
        let mut solver = solver;
        let _ = solver.propagate();
        let ghost origin = solver.doms();
        let mut s = Stepper {
            origin: Ghost(origin),
            solver,
            rng: seeded(seed),
            state: StepState::Selecting,
            unresolved: Vec::new(),
            current_var: None,
            backtrack_stack: Vec::new(),
            depth: 0,
        };
        s.unresolved = s.undecided();
        if s.unresolved.len() == 0 {
            s.state = StepState::Solved;
        }
        proof {
            assert(s.frames() =~= Seq::<Frame>::empty());
        }
        s
    }

    /// The current state, as shown.
    pub fn view(&self) -> (v: BoardView)
        requires
            self.wf(),
        ensures
            shows(v, self.doms()),
    {
        let n = self.solver.num_variables();
        let mut values: Vec<Option<usize>> = Vec::new();
        let mut domains: Vec<Vec<usize>> = Vec::new();
        let mut decided: usize = 0;
        let mut i: usize = 0;
        while i < n
            invariant
                n == self.doms().len(),
                i <= n,
                values@.len() == i,
                domains@.len() == i,
                decided == decided_count(self.doms(), i as int),
                decided <= i,
                forall|j: int| 0 <= j < i ==> (#[trigger] values@[j] is Some <==> self.doms()[j].len() == 1),
                forall|j: int| 0 <= j < i ==> (#[trigger] values@[j] matches Some(v) ==> self.doms()[j] == set![v as int]),
                forall|j: int| 0 <= j < i ==> lists(self.doms()[j], #[trigger] domains@[j]@),
            decreases n - i,
        {
            let d = self.solver.domain(i);
            let single = d.singleton_value();
            if single.is_some() {
                decided = decided + 1;
            }
            values.push(single);
            domains.push(d.to_vec());
            i = i + 1;
        }
        let solved = self.solver.is_solved();
        BoardView { values, domains, solved, decided }
    }
}

} // verus!
