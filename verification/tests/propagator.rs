use rulebound::{AllDifferent, Constraint, Domain, LessThan, NotEqual, Propagator};

#[test]
fn propagate_chain() {
    // A={1}, B={1,2}, C={1,2} with A!=B, B!=C
    // After propagation: A={1}, B={2}, C={1}
    let mut domains = vec![Domain::<1>::empty(); 3];
    domains[0].insert(1);
    domains[1].insert(1);
    domains[1].insert(2);
    domains[2].insert(1);
    domains[2].insert(2);

    let c0 = NotEqual::new(0, 1);
    let c1 = NotEqual::new(1, 2);
    let constraints = vec![c0, c1];

    let mut prop = Propagator::new();
    let changed = prop.propagate(&mut domains, &constraints).unwrap();

    assert_eq!(domains[0].singleton_value(), Some(1));
    assert_eq!(domains[1].singleton_value(), Some(2));
    assert_eq!(domains[2].singleton_value(), Some(1));
    assert!(!changed.is_empty());
}

#[test]
fn propagate_detects_contradiction() {
    // A={1}, B={1}, A!=B -> contradiction
    let mut domains = vec![Domain::<1>::empty(); 2];
    domains[0].insert(1);
    domains[1].insert(1);
    let c = NotEqual::new(0, 1);
    let constraints = vec![c];
    let mut prop = Propagator::new();
    assert!(prop.propagate(&mut domains, &constraints).is_err());
}

#[test]
fn propagate_incremental_only_touches_relevant() {
    // 3 vars, 2 constraints: A!=B, B!=C. Only seed with var B changed.
    let mut domains = vec![Domain::<1>::empty(); 3];
    domains[0].insert(1);
    domains[0].insert(2);
    domains[1].insert(1); // B is singleton
    domains[2].insert(1);
    domains[2].insert(2);

    let c0 = NotEqual::new(0, 1);
    let c1 = NotEqual::new(1, 2);
    let constraints = vec![c0, c1];

    let mut prop = Propagator::new();
    let changed = prop.propagate_incremental(&mut domains, &constraints, &[1]).unwrap();

    assert!(!domains[0].contains(1)); // A lost 1
    assert!(!domains[2].contains(1)); // C lost 1
    assert!(changed.contains(&0));
    assert!(changed.contains(&2));
}

#[test]
fn changed_list_is_sorted_and_exact() {
    let mut domains = vec![Domain::<1>::full(3); 4];
    domains[3] = Domain::<1>::empty();
    domains[3].insert(0);
    let constraints = vec![NotEqual::new(3, 1), NotEqual::new(0, 2)];
    let mut prop = Propagator::new();
    let changed = prop.propagate(&mut domains, &constraints).unwrap();
    assert_eq!(changed, vec![1]);
    assert_eq!(domains[1].to_vec(), vec![1, 2]);
}

#[test]
fn incremental_leaves_untouched_constraints_alone() {
    // only the constraint on variable 3 is re-checked
    let mut domains = vec![Domain::<1>::full(2); 4];
    domains[0] = Domain::<1>::empty();
    domains[0].insert(0);
    domains[3] = Domain::<1>::empty();
    domains[3].insert(1);
    let constraints = vec![NotEqual::new(0, 1), NotEqual::new(3, 2)];
    let mut prop = Propagator::new();
    let changed = prop.propagate_incremental(&mut domains, &constraints, &[3]).unwrap();
    assert_eq!(changed, vec![2]);
    assert_eq!(domains[1].count(), 2);
    assert_eq!(domains[2].to_vec(), vec![0]);
}

fn set_of(values: &[usize]) -> Domain<1> {
    let mut d = Domain::<1>::empty();
    for &v in values {
        d.insert(v);
    }
    d
}

#[test]
fn all_different_removes_only_what_decided_values_force() {
    let c = AllDifferent::new(&[0, 1, 2]);
    let mut domains = vec![set_of(&[1, 2]), set_of(&[1, 2]), set_of(&[1, 2])];
    <AllDifferent as Constraint<1>>::propagate(&c, &mut domains).unwrap();
    for d in &domains {
        assert_eq!(d.to_vec(), vec![1, 2]);
    }
    let mut domains = vec![set_of(&[0]), set_of(&[0, 1]), set_of(&[1, 2])];
    <AllDifferent as Constraint<1>>::propagate(&c, &mut domains).unwrap();
    assert_eq!(domains[0].to_vec(), vec![0]);
    assert_eq!(domains[1].to_vec(), vec![1]);
    assert_eq!(domains[2].to_vec(), vec![2]);
    let mut domains = vec![set_of(&[3]), set_of(&[3]), set_of(&[1, 2, 3])];
    assert!(<AllDifferent as Constraint<1>>::propagate(&c, &mut domains).is_err());
}

#[test]
fn propagation_keeps_every_solution() {
    // x0 < x1 < x2 over 0..4: the solutions are (0,1,2), (0,1,3), (0,2,3), (1,2,3).
    let mut domains = vec![set_of(&[0, 1, 2, 3]); 3];
    let constraints = vec![LessThan::new(0, 1), LessThan::new(1, 2)];
    let mut prop = Propagator::new();
    prop.propagate(&mut domains, &constraints).unwrap();
    for sol in [[0, 1, 2], [0, 1, 3], [0, 2, 3], [1, 2, 3]] {
        for (v, &x) in sol.iter().enumerate() {
            assert!(domains[v].contains(x));
        }
    }
    assert_eq!(domains[0].to_vec(), vec![0, 1]);
    assert_eq!(domains[1].to_vec(), vec![1, 2]);
    assert_eq!(domains[2].to_vec(), vec![2, 3]);
}

#[test]
fn incremental_leaves_settled_domains_alone() {
    // A={1}, B={1,2}, C={1,2}; only B!=C involves C, and it has nothing to prune
    let mut domains = vec![Domain::<1>::empty(); 3];
    domains[0].insert(1);
    domains[1].insert(1);
    domains[1].insert(2);
    domains[2].insert(1);
    domains[2].insert(2);
    let constraints = vec![NotEqual::new(0, 1), NotEqual::new(1, 2)];
    let before = domains.clone();
    let mut prop = Propagator::new();
    let changed = prop.propagate_incremental(&mut domains, &constraints, &[2]).unwrap();
    assert!(changed.is_empty());
    assert!(domains == before);
}

#[test]
fn a_contradiction_names_an_emptied_variable() {
    let mut domains = vec![Domain::<1>::empty(); 3];
    domains[0].insert(2);
    domains[1].insert(2);
    domains[2].insert(0);
    domains[2].insert(1);
    let constraints = vec![NotEqual::new(0, 1)];
    let mut prop = Propagator::new();
    let c = prop.propagate(&mut domains, &constraints).unwrap_err();
    assert!(c.variable < 2);
    assert!(domains[c.variable].is_empty());
}

#[test]
fn exactly_n_out_of_reach_empties_its_first_variable() {
    // two variables, only one can take 1, but two must
    let mut domains = vec![Domain::<1>::empty(); 2];
    domains[0].insert(0);
    domains[0].insert(1);
    domains[1].insert(0);
    let constraints = vec![rulebound::ExactlyN::new(&[0, 1], 1, 2)];
    let mut prop = Propagator::new();
    let c = prop.propagate(&mut domains, &constraints).unwrap_err();
    assert_eq!(c.variable, 0);
    assert!(domains[0].is_empty());
    assert_eq!(domains[1].to_vec(), vec![0]);
}
