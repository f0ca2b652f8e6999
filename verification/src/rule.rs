//! The built-in constraints gathered into one type that a solver stores.

use vstd::prelude::*;
use crate::bitset::BitSet;
use crate::constraint::{AllDifferent, Constraint, ExactlyN, Implication, LessThan, NotEqual, Table};
use crate::domain::{consistent, decided_on, views};
use crate::error::Contradiction;

verus! {

/// Any of the built-in constraints.
pub enum Rule<const W: usize> {
    /// Two variables take different values.
    NotEqual(NotEqual),
    /// All variables of the scope take different values.
    AllDifferent(AllDifferent),
    /// One variable's value is below another's.
    LessThan(LessThan),
    /// Exactly N variables take a given value.
    ExactlyN(ExactlyN),
    /// The variables take one of the allowed tuples.
    Table(Table),
    /// One variable's value restricts another's.
    Implication(Implication<W>),
}

impl<const W: usize> Rule<W> {
    /// The variables of the constraint.
    pub open spec fn vars(self) -> Seq<usize> {
        match self {
            Rule::NotEqual(c) => c.vars(),
            Rule::AllDifferent(c) => c.vars(),
            Rule::LessThan(c) => c.vars(),
            Rule::ExactlyN(c) => c.vars(),
            Rule::Table(c) => c.vars(),
            Rule::Implication(c) => c.vars(),
        }
    }

    /// Whether an assignment satisfies the constraint.
    pub open spec fn satisfied(self, values: Seq<int>) -> bool {
        match self {
            Rule::NotEqual(c) => c.satisfied(values),
            Rule::AllDifferent(c) => c.satisfied(values),
            Rule::LessThan(c) => c.satisfied(values),
            Rule::ExactlyN(c) => c.satisfied(values),
            Rule::Table(c) => c.satisfied(values),
            Rule::Implication(c) => c.satisfied(values),
        }
    }
}

impl<const W: usize> Constraint<W> for Rule<W> {
    open spec fn scope_view(&self) -> Seq<usize> {
        self.vars()
    }

    open spec fn holds(&self, values: Seq<int>) -> bool {
        self.satisfied(values)
    }

    open spec fn stable(&self, d: Seq<Set<int>>) -> bool {
        match self {
            Rule::NotEqual(c) => <NotEqual as Constraint<W>>::stable(c, d),
            Rule::AllDifferent(c) => <AllDifferent as Constraint<W>>::stable(c, d),
            Rule::LessThan(c) => <LessThan as Constraint<W>>::stable(c, d),
            Rule::ExactlyN(c) => <ExactlyN as Constraint<W>>::stable(c, d),
            Rule::Table(c) => <Table as Constraint<W>>::stable(c, d),
            Rule::Implication(c) => <Implication<W> as Constraint<W>>::stable(c, d),
        }
    }

    proof fn lemma_stable_frame(&self, d1: Seq<Set<int>>, d2: Seq<Set<int>>) {
        match self {
            Rule::NotEqual(c) => <NotEqual as Constraint<W>>::lemma_stable_frame(c, d1, d2),
            Rule::AllDifferent(c) => <AllDifferent as Constraint<W>>::lemma_stable_frame(c, d1, d2),
            Rule::LessThan(c) => <LessThan as Constraint<W>>::lemma_stable_frame(c, d1, d2),
            Rule::ExactlyN(c) => <ExactlyN as Constraint<W>>::lemma_stable_frame(c, d1, d2),
            Rule::Table(c) => <Table as Constraint<W>>::lemma_stable_frame(c, d1, d2),
            Rule::Implication(c) => <Implication<W> as Constraint<W>>::lemma_stable_frame(c, d1, d2),
        }
    }

    fn scope(&self) -> (vars: &[usize]) {
        match self {
            Rule::NotEqual(c) => <NotEqual as Constraint<W>>::scope(c),
            Rule::AllDifferent(c) => <AllDifferent as Constraint<W>>::scope(c),
            Rule::LessThan(c) => <LessThan as Constraint<W>>::scope(c),
            Rule::ExactlyN(c) => <ExactlyN as Constraint<W>>::scope(c),
            Rule::Table(c) => <Table as Constraint<W>>::scope(c),
            Rule::Implication(c) => <Implication<W> as Constraint<W>>::scope(c),
        }
    }

    fn propagate(&self, domains: &mut Vec<BitSet<W>>) -> (r: Result<(), Contradiction>) {
        let ghost d0 = views(domains@);
        let r = match self {
            Rule::NotEqual(c) => <NotEqual as Constraint<W>>::propagate(c, domains),
            Rule::AllDifferent(c) => <AllDifferent as Constraint<W>>::propagate(c, domains),
            Rule::LessThan(c) => <LessThan as Constraint<W>>::propagate(c, domains),
            Rule::ExactlyN(c) => <ExactlyN as Constraint<W>>::propagate(c, domains),
            Rule::Table(c) => <Table as Constraint<W>>::propagate(c, domains),
            Rule::Implication(c) => <Implication<W> as Constraint<W>>::propagate(c, domains),
        };
        proof {
            assert forall|a: Seq<int>| consistent(a, d0) && #[trigger] self.holds(a) implies consistent(a, views(domains@)) by {
                match self {
                    Rule::NotEqual(c) => assert(<NotEqual as Constraint<W>>::holds(c, a)),
                    Rule::AllDifferent(c) => assert(<AllDifferent as Constraint<W>>::holds(c, a)),
                    Rule::LessThan(c) => assert(<LessThan as Constraint<W>>::holds(c, a)),
                    Rule::ExactlyN(c) => assert(<ExactlyN as Constraint<W>>::holds(c, a)),
                    Rule::Table(c) => assert(<Table as Constraint<W>>::holds(c, a)),
                    Rule::Implication(c) => assert(<Implication<W> as Constraint<W>>::holds(c, a)),
                }
            }
            if r is Ok && decided_on(views(domains@), self.scope_view()) {
                assert forall|a: Seq<int>| consistent(a, views(domains@)) implies #[trigger] self.holds(a) by {
                    match self {
                        Rule::NotEqual(c) => assert(<NotEqual as Constraint<W>>::holds(c, a)),
                        Rule::AllDifferent(c) => assert(<AllDifferent as Constraint<W>>::holds(c, a)),
                        Rule::LessThan(c) => assert(<LessThan as Constraint<W>>::holds(c, a)),
                        Rule::ExactlyN(c) => assert(<ExactlyN as Constraint<W>>::holds(c, a)),
                        Rule::Table(c) => assert(<Table as Constraint<W>>::holds(c, a)),
                        Rule::Implication(c) => assert(<Implication<W> as Constraint<W>>::holds(c, a)),
                    }
                }
            }
            if r is Err {
                assert forall|a: Seq<int>| consistent(a, d0) implies !#[trigger] self.holds(a) by {
                    match self {
                        Rule::NotEqual(c) => assert(!<NotEqual as Constraint<W>>::holds(c, a)),
                        Rule::AllDifferent(c) => assert(!<AllDifferent as Constraint<W>>::holds(c, a)),
                        Rule::LessThan(c) => assert(!<LessThan as Constraint<W>>::holds(c, a)),
                        Rule::ExactlyN(c) => assert(!<ExactlyN as Constraint<W>>::holds(c, a)),
                        Rule::Table(c) => assert(!<Table as Constraint<W>>::holds(c, a)),
                        Rule::Implication(c) => assert(!<Implication<W> as Constraint<W>>::holds(c, a)),
                    }
                }
            }
        }
        r
    }
}

impl<const W: usize> From<NotEqual> for Rule<W> {
    fn from(c: NotEqual) -> (r: Self) {
        Rule::NotEqual(c)
    }
}

impl<const W: usize> vstd::std_specs::convert::FromSpecImpl<NotEqual> for Rule<W> {
    open spec fn obeys_from_spec() -> bool {
        true
    }

    open spec fn from_spec(c: NotEqual) -> Self {
        Rule::NotEqual(c)
    }
}

impl<const W: usize> From<AllDifferent> for Rule<W> {
    fn from(c: AllDifferent) -> (r: Self) {
        Rule::AllDifferent(c)
    }
}

impl<const W: usize> vstd::std_specs::convert::FromSpecImpl<AllDifferent> for Rule<W> {
    open spec fn obeys_from_spec() -> bool {
        true
    }

    open spec fn from_spec(c: AllDifferent) -> Self {
        Rule::AllDifferent(c)
    }
}

impl<const W: usize> From<LessThan> for Rule<W> {
    fn from(c: LessThan) -> (r: Self) {
        Rule::LessThan(c)
    }
}

impl<const W: usize> vstd::std_specs::convert::FromSpecImpl<LessThan> for Rule<W> {
    open spec fn obeys_from_spec() -> bool {
        true
    }

    open spec fn from_spec(c: LessThan) -> Self {
        Rule::LessThan(c)
    }
}

impl<const W: usize> From<ExactlyN> for Rule<W> {
    fn from(c: ExactlyN) -> (r: Self) {
        Rule::ExactlyN(c)
    }
}

impl<const W: usize> vstd::std_specs::convert::FromSpecImpl<ExactlyN> for Rule<W> {
    open spec fn obeys_from_spec() -> bool {
        true
    }

    open spec fn from_spec(c: ExactlyN) -> Self {
        Rule::ExactlyN(c)
    }
}

impl<const W: usize> From<Table> for Rule<W> {
    fn from(c: Table) -> (r: Self) {
        Rule::Table(c)
    }
}

impl<const W: usize> vstd::std_specs::convert::FromSpecImpl<Table> for Rule<W> {
    open spec fn obeys_from_spec() -> bool {
        true
    }

    open spec fn from_spec(c: Table) -> Self {
        Rule::Table(c)
    }
}

impl<const W: usize> From<Implication<W>> for Rule<W> {
    fn from(c: Implication<W>) -> (r: Self) {
        Rule::Implication(c)
    }
}

impl<const W: usize> vstd::std_specs::convert::FromSpecImpl<Implication<W>> for Rule<W> {
    open spec fn obeys_from_spec() -> bool {
        true
    }

    open spec fn from_spec(c: Implication<W>) -> Self {
        Rule::Implication(c)
    }
}

} // verus!
