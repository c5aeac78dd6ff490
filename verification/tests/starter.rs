use ferment_constraints::relation::Relation;
use ferment_constraints::starter::{Starter, CSP};

fn names(v: &[&str]) -> Vec<String> {
    v.iter().map(|s| s.to_string()).collect()
}

#[test]
fn seed_creates_culture_per_variable() {
    let csp = CSP::inequality_csp(
        names(&["a", "b", "c"]),
        vec![vec![1, 2], vec![1, 2], vec![1, 2]],
        vec![("a".into(), "b".into()), ("b".into(), "c".into())],
    );
    let consortium = Starter::seed(&csp);
    assert_eq!(consortium.cultures.len(), 3);
    assert_eq!(consortium.interactions.len(), 2);
}

#[test]
fn n_queens_small() {
    let csp = CSP::n_queens(4);
    assert_eq!(csp.num_variables(), 4);
    assert_eq!(csp.num_constraints(), 6); // C(4,2)
}

#[test]
fn full_pipeline_inequality_csp() {
    let csp = CSP::inequality_csp(
        names(&["x", "y"]),
        vec![vec![1, 2], vec![1, 2]],
        vec![("x".into(), "y".into())],
    );
    let consortium = Starter::seed_and_ferment(&csp, 50);
    assert!(!consortium.has_dead());
}

#[test]
fn n_queens_names_domains_and_pairs() {
    let csp = CSP::n_queens(12);
    assert_eq!(csp.variables[0], "q0");
    assert_eq!(csp.variables[11], "q11");
    assert_eq!(csp.domains[3], (0..12).collect::<Vec<i32>>());
    assert_eq!(csp.num_constraints(), 66);
    assert_eq!(csp.constraint_pairs[0], ("q0".to_string(), "q1".to_string(), 1));
    assert_eq!(csp.constraint_pairs[11], ("q1".to_string(), "q2".to_string(), 1));
    assert_eq!(csp.predicate_descriptions, names(&["a != b", "not same row or diagonal"]));
}

#[test]
fn n_queens_zero_is_empty() {
    let csp = CSP::n_queens(0);
    assert_eq!(csp.num_variables(), 0);
    assert_eq!(csp.num_constraints(), 0);
}

#[test]
fn inequality_csp_uses_predicate_zero() {
    let csp = CSP::inequality_csp(names(&["a", "b"]), vec![vec![1], vec![2]], vec![("a".into(), "b".into())]);
    assert_eq!(csp.constraint_pairs, vec![("a".to_string(), "b".to_string(), 0)]);
    assert_eq!(csp.predicate_descriptions, names(&["a != b"]));
}

#[test]
fn build_predicates_reads_descriptions() {
    let csp = CSP::new(
        names(&["a"]),
        vec![vec![1]],
        vec![],
        names(&["a != b", "a < b", "a <= b", "a > b", "a >= b", "diagonal", "anything"]),
    );
    let preds = Starter::build_predicates(&csp);
    assert_eq!(
        preds,
        vec![
            Relation::NotEqual,
            Relation::Less,
            Relation::LessOrEqual,
            Relation::Greater,
            Relation::GreaterOrEqual,
            Relation::NotEqual,
            Relation::NotEqual,
        ]
    );
}

#[test]
fn ferment_constraints_read_descriptions() {
    let csp = CSP::new(
        names(&["a", "b"]),
        vec![vec![1], vec![2]],
        vec![
            ("a".into(), "b".into(), 0),
            ("a".into(), "b".into(), 1),
            ("a".into(), "b".into(), 2),
            ("a".into(), "b".into(), 3),
        ],
        names(&["a != b", "a <= b", "diagonal", "a > b"]),
    );
    let cs = Starter::ferment_constraints(&csp);
    let rels: Vec<Relation> = cs.iter().map(|c| c.2).collect();
    // each pair ferments with the predicate it names
    assert_eq!(rels, vec![Relation::NotEqual, Relation::LessOrEqual, Relation::NotEqual, Relation::Greater]);
}

#[test]
fn overlap_counts_shared_values() {
    let csp = CSP::inequality_csp(
        names(&["a", "b"]),
        vec![vec![1, 2, 3], vec![3, 4, 5]],
        vec![("a".into(), "b".into())],
    );
    assert_eq!(Starter::overlap(&csp, "a", "b"), Some((1, 3, 3)));
    // unknown names fall back to the first variable
    assert_eq!(Starter::overlap(&csp, "zz", "a"), Some((3, 3, 3)));
}

#[test]
fn overlap_without_domain_is_none() {
    let csp = CSP::inequality_csp(names(&["a", "b"]), vec![vec![1]], vec![]);
    assert_eq!(Starter::overlap(&csp, "b", "a"), None);
}

#[test]
fn seed_pairs_variables_with_domains() {
    let csp = CSP::inequality_csp(names(&["a", "b", "c"]), vec![vec![1], vec![2]], vec![]);
    let consortium = Starter::seed(&csp);
    assert_eq!(consortium.cultures.len(), 2);
    assert_eq!(consortium.cultures[1].id, "b");
    assert_eq!(consortium.cultures[1].domain, vec![2]);
}
