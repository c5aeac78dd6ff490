use ferment_constraints::bake::{Assignments, BakeResult, Baker};
use ferment_constraints::certificate::ConvergenceProof;
use ferment_constraints::consortium::Consortium;
use ferment_constraints::culture::Culture;
use ferment_constraints::relation::Relation;
use ferment_constraints::starter::{Starter, CSP};

fn names(v: &[&str]) -> Vec<String> {
    v.iter().map(|s| s.to_string()).collect()
}

/// Total population of a consortium: the natural log of each domain size.
fn population(c: &Consortium) -> f64 {
    c.cultures.iter().map(|k| if k.domain.is_empty() { 0.0 } else { (k.domain.len() as f64).ln() }).sum()
}

/// The bake of a fermented pipeline, with its certificate.
fn certified(initial: Consortium, fermented: Consortium, mut result: BakeResult) -> BakeResult {
    let bounded = population(&fermented) <= population(&initial) + 1e-10;
    result.proof = Some(ConvergenceProof::prove(&initial, &fermented, bounded));
    result
}

fn solve(csp: &CSP, max_iterations: usize) -> BakeResult {
    let (initial, fermented, result) = Baker::solve_without_populations(csp, max_iterations);
    certified(initial, fermented, result)
}

#[test]
fn empty_domain_detected_as_unsatisfiable() {
    let result = BakeResult {
        solved: false,
        assignments: Assignments::new(),
        unsatisfied: vec!["constraint_0".into()],
        proof: None,
        iterations: 1,
    };
    assert!(result.is_unsatisfiable());
}

#[test]
fn bake_reads_singletons_and_checks_constraints() {
    let csp = CSP::new(
        names(&["a", "b"]),
        vec![vec![1, 2], vec![1, 2]],
        vec![("a".into(), "b".into(), 0)],
        names(&["a < b"]),
    );
    let mut consortium = Starter::seed(&csp);
    let constraints = Baker::solve_constraints(&csp);
    consortium.ferment_until_converged_with(&constraints, 100);
    let result = Baker::bake(&consortium, &csp);
    assert!(result.solved);
    assert_eq!(result.assigned_count(), 2);
    assert_eq!(result.get("a"), Some(1));
    assert_eq!(result.get("b"), Some(2));
    assert!(result.unsatisfied.is_empty());
    assert!(result.proof.is_none());
}

#[test]
fn bake_reports_violated_constraint() {
    let csp = CSP::inequality_csp(names(&["a", "b"]), vec![vec![1], vec![1]], vec![("a".into(), "b".into())]);
    let consortium = Starter::seed(&csp);
    let result = Baker::bake(&consortium, &csp);
    assert!(!result.solved);
    assert_eq!(result.unsatisfied, vec!["0: a ↔ b".to_string()]);
    assert!(result.assignments.is_empty());
    assert_eq!(result.get("a"), None);
    assert!(result.is_unsatisfiable());
}

#[test]
fn bake_reports_unassigned_constraint() {
    let csp = CSP::inequality_csp(
        names(&["a", "b"]),
        vec![vec![1, 2], vec![1]],
        vec![("b".into(), "a".into()), ("a".into(), "b".into())],
    );
    let consortium = Starter::seed(&csp);
    let result = Baker::bake(&consortium, &csp);
    assert!(!result.solved);
    assert_eq!(result.assigned_count(), 0);
    assert_eq!(
        result.unsatisfied,
        vec!["0: b ↔ a (unassigned)".to_string(), "1: a ↔ b (unassigned)".to_string()]
    );
}

#[test]
fn bake_dead_consortium_is_unsolved() {
    let csp = CSP::inequality_csp(names(&["a"]), vec![vec![1]], vec![]);
    let consortium = Consortium::new(vec![Culture::new("a", vec![1]), Culture::new("b", vec![])], vec![]);
    let result = Baker::bake(&consortium, &csp);
    assert_eq!(result.assigned_count(), 0);
    assert!(!result.solved);
    assert!(result.is_unsatisfiable());
    assert!(result.unsatisfied.is_empty());
}

#[test]
fn later_singleton_overwrites_earlier() {
    let csp = CSP::inequality_csp(names(&["a"]), vec![vec![1]], vec![]);
    let consortium = Consortium::new(vec![Culture::new("a", vec![1]), Culture::new("a", vec![5])], vec![]);
    let result = Baker::bake(&consortium, &csp);
    assert_eq!(result.get("a"), Some(5));
    assert_eq!(result.assigned_count(), 1);
    assert!(result.solved);
}

#[test]
fn assignments_insert_and_get() {
    let mut m = Assignments::new();
    assert!(m.is_empty());
    m.insert("x".to_string(), 42);
    m.insert("y".to_string(), 7);
    m.insert("x".to_string(), 3);
    assert_eq!(m.len(), 2);
    assert_eq!(m.get("x"), Some(3));
    assert_eq!(m.get("y"), Some(7));
    assert_eq!(m.get("z"), None);
    assert_eq!(m.entries()[0], ("x".to_string(), 3));
}

#[test]
fn solve_constraints_read_descriptions() {
    let csp = CSP::new(
        names(&["a", "b"]),
        vec![vec![1], vec![2]],
        vec![
            ("a".into(), "b".into(), 0),
            ("a".into(), "b".into(), 1),
            ("a".into(), "b".into(), 9),
        ],
        names(&["a < b", "a <= b"]),
    );
    let rels: Vec<Relation> = Baker::solve_constraints(&csp).iter().map(|c| c.2).collect();
    // each pair ferments with the predicate it names; a missing one with that of ""
    assert_eq!(rels, vec![Relation::Less, Relation::LessOrEqual, Relation::NotEqual]);
}

#[test]
fn queen_constraints_use_row_distance() {
    let (csp, constraints, bake_csp) = Baker::n_queens_setup(4);
    assert_eq!(csp.num_constraints(), 6);
    assert_eq!(constraints[0], ("q0".to_string(), "q1".to_string(), Relation::NonAttacking(1)));
    assert_eq!(constraints[2], ("q0".to_string(), "q3".to_string(), Relation::NonAttacking(3)));
    assert_eq!(constraints[5], ("q2".to_string(), "q3".to_string(), Relation::NonAttacking(1)));
    assert_eq!(bake_csp.constraint_pairs[2], ("q0".to_string(), "q3".to_string(), 0));
    assert_eq!(bake_csp.predicate_descriptions, names(&["a != b"]));
    assert_eq!(bake_csp.variables, csp.variables);
}

#[test]
fn queen_constraints_parse_signed_rows() {
    let csp = CSP::new(
        names(&["x", "y"]),
        vec![vec![1], vec![2]],
        vec![("q-3".into(), "q+4".into(), 1), ("qz".into(), "q7".into(), 1)],
        names(&["a != b", "diagonal"]),
    );
    let cs = Baker::queen_constraints(&csp);
    assert_eq!(cs[0].2, Relation::NonAttacking(7));
    // an unreadable row counts as row 0
    assert_eq!(cs[1].2, Relation::NonAttacking(7));
}

#[test]
fn n_queens_pipeline_with_certificate() {
    let (csp, constraints, bake_csp) = Baker::n_queens_setup(4);
    let initial = Starter::seed(&csp);
    let mut consortium = initial.clone();
    consortium.ferment_until_converged_with(&constraints, 200);
    let proof = ConvergenceProof::prove(&initial, &consortium, true);
    assert!(proof.verify());
    let result = Baker::bake(&consortium, &bake_csp);
    assert!(result.iterations >= 1);
    assert!(!consortium.has_dead());
}

#[test]
fn bake_extracts_correct_solution() {
    // a < b with domains [1,2] — AC-3 can fully solve this
    let csp = CSP::new(
        vec!["a".into(), "b".into()],
        vec![vec![1, 2], vec![1, 2]],
        vec![("a".into(), "b".into(), 0)],
        vec!["a < b".into()],
    );
    let result = solve(&csp, 100);
    assert!(result.solved);
    assert_eq!(result.assigned_count(), 2);
    let a = result.get("a").unwrap();
    let b = result.get("b").unwrap();
    assert!(a < b);
}

#[test]
fn bake_detects_unsatisfiable() {
    let csp = CSP::inequality_csp(
        vec!["a".into(), "b".into()],
        vec![vec![1], vec![1]],
        vec![("a".into(), "b".into())],
    );
    let result = solve(&csp, 100);
    assert!(!result.solved);
    assert!(!result.unsatisfied.is_empty());
}

#[test]
fn full_pipeline_line_graph_3_colors() {
    let colors = vec![0, 1, 2];
    let csp = CSP::inequality_csp(
        vec!["a".into(), "b".into(), "c".into()],
        vec![colors.clone(), colors.clone(), colors.clone()],
        vec![("a".into(), "b".into()), ("b".into(), "c".into())],
    );
    let result = solve(&csp, 100);
    if result.solved {
        assert_ne!(result.get("a").unwrap(), result.get("b").unwrap());
        assert_ne!(result.get("b").unwrap(), result.get("c").unwrap());
    }
}

#[test]
fn n_queens_4_makes_progress() {
    let (csp, constraints, bake_csp) = Baker::n_queens_setup(4);
    let (initial, fermented, result) = Baker::ferment_and_bake(&csp, &constraints, &bake_csp, 200);
    let result = certified(initial, fermented, result);
    let proof = result.proof.as_ref().unwrap();
    assert!(proof.verify());
}

#[test]
fn result_has_proof() {
    let csp = CSP::inequality_csp(
        vec!["a".into(), "b".into()],
        vec![vec![1, 2], vec![1, 2]],
        vec![("a".into(), "b".into())],
    );
    let result = solve(&csp, 100);
    assert!(result.proof.is_some());
    let proof = result.proof.unwrap();
    assert!(proof.verify());
}

#[test]
fn solve_ferments_greater_than_with_its_predicate() {
    let csp = CSP::new(
        names(&["a", "b"]),
        vec![vec![1, 2], vec![1, 2]],
        vec![("a".into(), "b".into(), 0)],
        names(&["a > b"]),
    );
    let (initial, fermented, result) = Baker::solve_without_populations(&csp, 100);
    assert!(result.solved);
    assert_eq!(result.get("a"), Some(2));
    assert_eq!(result.get("b"), Some(1));
    assert!(result.proof.is_none());
    assert_eq!(initial.total_domain_size(), 4);
    assert_eq!(fermented.total_domain_size(), 2);
    assert_eq!(fermented.iteration, 1);
}

#[test]
fn solve_ferments_at_most_with_its_predicate() {
    // a <= b over a = [2, 3], b = [1, 2]: a keeps 2, b keeps 2
    let csp = CSP::new(
        names(&["a", "b"]),
        vec![vec![2, 3], vec![1, 2]],
        vec![("a".into(), "b".into(), 0)],
        names(&["a <= b"]),
    );
    let (_, fermented, result) = Baker::solve_without_populations(&csp, 100);
    assert_eq!(fermented.cultures[0].domain, vec![2]);
    assert_eq!(fermented.cultures[1].domain, vec![2]);
    assert!(result.solved);
}

#[test]
fn unsolved_pipeline_keeps_no_assignments() {
    let csp = CSP::inequality_csp(names(&["a", "b"]), vec![vec![1, 2], vec![1, 2]], vec![("a".into(), "b".into())]);
    let (_, fermented, result) = Baker::solve_without_populations(&csp, 100);
    assert_eq!(fermented.total_domain_size(), 4);
    assert!(!result.solved);
    assert!(result.is_unsatisfiable());
    assert_eq!(result.unsatisfied, vec!["0: a ↔ b (unassigned)".to_string()]);
}
