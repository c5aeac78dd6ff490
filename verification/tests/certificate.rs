use ferment_constraints::certificate::{ConvergenceBound, ConvergenceProof};
use ferment_constraints::consortium::ConsortiumBuilder;
use ferment_constraints::culture::Culture;
use ferment_constraints::relation::Relation;
use ferment_constraints::starter::{Starter, CSP};

#[test]
fn proof_detects_unsatisfiable() {
    let initial = ConsortiumBuilder::new()
        .culture(Culture::new("a", vec![]))
        .build();
    let proof = ConvergenceProof::prove(&initial, &initial, true);
    assert_eq!(proof.bound, ConvergenceBound::Unsatisfiable);
}

#[test]
fn theoretical_bound_formula() {
    // n=3, d=3 -> bound = 3^2 * 3^2 = 81
    let n = 3;
    let d = 3;
    assert_eq!(n * n * d * d, 81);
}

#[test]
fn proof_summary_readable() {
    let proof = ConvergenceProof {
        converged: true,
        iterations: 5,
        n: 3,
        d: 4,
        total_reduction: 8,
        theoretical_bound: 144,
        bound: ConvergenceBound::AC3Equivalent,
        population_bounded: true,
        monotone_reduction: true,
    };
    let s = proof.summary();
    assert!(s.contains("converged=true"));
    assert!(s.contains("iterations=5"));
}

#[test]
fn self_consistent_proof_passes_verify() {
    let proof = ConvergenceProof {
        converged: true,
        iterations: 2,
        n: 2,
        d: 2,
        total_reduction: 2,
        theoretical_bound: 16,
        bound: ConvergenceBound::AC3Equivalent,
        population_bounded: true,
        monotone_reduction: true,
    };
    assert!(proof.verify());
}

#[test]
fn summary_is_exact() {
    let proof = ConvergenceProof {
        converged: false,
        iterations: 12,
        n: 3,
        d: 4,
        total_reduction: 0,
        theoretical_bound: 144,
        bound: ConvergenceBound::Divergent,
        population_bounded: false,
        monotone_reduction: true,
    };
    assert_eq!(
        proof.summary(),
        "ConvergenceProof: converged=false, iterations=12, n=3, d=4, reduction=0, \
         bound=O(n²d²)=Divergent, theoretical_bound=144, pop_bounded=false, monotone=true"
    );
}

#[test]
fn proof_for_converged_consortium() {
    let csp = CSP::inequality_csp(
        vec!["a".into(), "b".into()],
        vec![vec![1, 2], vec![1, 2]],
        vec![("a".into(), "b".into())],
    );
    let initial = Starter::seed(&csp);
    let mut fin = initial.clone();
    let constraints: Vec<(String, String, Box<dyn Fn(i32, i32) -> bool>)> = vec![
        ("a".into(), "b".into(), Box::new(|a, b| a != b)),
    ];
    fin.ferment_until_converged(&constraints, 100);
    let proof = ConvergenceProof::prove(&initial, &fin, true);
    assert!(proof.verify());
    assert!(proof.population_bounded);
    assert!(proof.monotone_reduction);
    assert_eq!(proof.n, 2);
    assert_eq!(proof.d, 2);
    assert_eq!(proof.theoretical_bound, 16);
    assert_eq!(proof.total_reduction, 0);
    assert!(!proof.converged);
    assert_eq!(proof.bound, ConvergenceBound::Divergent);
    assert_eq!(proof.iterations, 2);
}

#[test]
fn prove_classifies_accelerated() {
    let csp = CSP::inequality_csp(
        vec!["a".into(), "b".into()],
        vec![vec![1, 2], vec![1, 2]],
        vec![("a".into(), "b".into())],
    );
    let initial = Starter::seed(&csp);
    let mut fin = initial.clone();
    fin.ferment_until_converged_with(&[("a".into(), "b".into(), Relation::Less)], 100);
    let proof = ConvergenceProof::prove(&initial, &fin, false);
    assert!(proof.converged);
    assert_eq!(proof.total_reduction, 2);
    assert_eq!(proof.bound, ConvergenceBound::Accelerated);
    assert!(!proof.population_bounded);
    assert!(proof.verify());
}

#[test]
fn verify_rejects_inconsistent_certificates() {
    let base = ConvergenceProof {
        converged: true,
        iterations: 1,
        n: 1,
        d: 1,
        total_reduction: 0,
        theoretical_bound: 1,
        bound: ConvergenceBound::Divergent,
        population_bounded: true,
        monotone_reduction: true,
    };
    assert!(!base.verify());
    let unsat = ConvergenceProof { bound: ConvergenceBound::Unsatisfiable, ..base };
    assert!(!unsat.verify());
    let grown = ConvergenceProof { bound: ConvergenceBound::AC3Equivalent, monotone_reduction: false, ..base };
    assert!(!grown.verify());
    let open = ConvergenceProof { converged: false, ..grown };
    assert!(open.verify());
}
