use ferment_constraints::culture::{Culture, CultureBuilder};
use ferment_constraints::relation::{Constraint, Relation};

#[test]
fn prune_domain_removes_unsupported() {
    let mut c = Culture::new("x", vec![1, 2, 3, 4, 5]);
    let neighbor = vec![1, 3, 5];
    let removed = c.prune_domain(&neighbor, &|v, n| v == n);
    assert_eq!(removed, 2);
    assert_eq!(c.domain, vec![1, 3, 5]);
}

#[test]
fn prune_domain_with_inequality_constraint() {
    let mut c = Culture::new("x", vec![1, 2, 3]);
    let neighbor = vec![2];
    let removed = c.prune_domain(&neighbor, &|v, n| v != n);
    assert_eq!(removed, 1);
    assert_eq!(c.domain, vec![1, 3]);
}

#[test]
fn new_culture_keeps_id_and_domain() {
    let c = Culture::new("x", vec![1, 2, 3]);
    assert_eq!(c.id, "x");
    assert_eq!(c.domain_size(), 3);
    assert!(c.is_alive());
}

#[test]
fn empty_domain_means_dead() {
    let c = Culture::new("x", vec![]);
    assert!(!c.is_alive());
    assert_eq!(c.domain_size(), 0);
}

#[test]
fn builder_produces_equivalent_culture() {
    let direct = Culture::new("x", vec![1, 2]);
    let built = CultureBuilder::new("x").domain(vec![1, 2]).build();
    assert_eq!(direct.id, built.id);
    assert_eq!(direct.domain, built.domain);
}

#[test]
fn builder_without_domain_builds_dead_culture() {
    let built = CultureBuilder::new("y").build();
    assert_eq!(built.id, "y");
    assert!(built.domain.is_empty());
}

#[test]
fn prune_keeps_order_and_duplicates() {
    let mut c = Culture::new("x", vec![5, 1, 5, 3, 1]);
    let removed = c.prune_domain(&[4], &|v, n| v < n);
    assert_eq!(removed, 2);
    assert_eq!(c.domain, vec![1, 3, 1]);
}

#[test]
fn prune_against_empty_neighbor_kills() {
    let mut c = Culture::new("x", vec![1, 2]);
    let removed = c.prune_domain(&[], &|v, n| v != n);
    assert_eq!(removed, 2);
    assert!(!c.is_alive());
}

#[test]
fn prune_domain_with_arbitrary_closure() {
    let mut c = Culture::new("x", vec![1, 2, 3, 4]);
    let removed = c.prune_domain(&[3, 4], &|v, n| v + n == 5);
    assert_eq!(removed, 2);
    assert_eq!(c.domain, vec![1, 2]);
}

#[test]
fn constraints_check_closures_and_relations() {
    assert!(Relation::Less.check(1, 2));
    assert!(!Relation::Greater.check(1, 2));
    let sum_five = |a: i32, b: i32| a + b == 5;
    assert!(sum_five.check(2, 3));
    assert!(!sum_five.check(2, 2));
}

#[test]
fn relations_evaluate() {
    assert!(Relation::Equal.holds(2, 2));
    assert!(!Relation::NotEqual.holds(2, 2));
    assert!(Relation::Less.holds(1, 2));
    assert!(Relation::LessOrEqual.holds(2, 2));
    assert!(Relation::Greater.holds(3, 2));
    assert!(!Relation::GreaterOrEqual.holds(1, 2));
    assert!(Relation::NonAttacking(1).holds(0, 2));
    assert!(!Relation::NonAttacking(2).holds(0, 2));
    assert!(!Relation::NonAttacking(2).holds(3, 3));
    assert!(Relation::NonAttacking(1).holds(i32::MIN, i32::MAX));
}
