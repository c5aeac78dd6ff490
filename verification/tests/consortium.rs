use ferment_constraints::consortium::{Consortium, ConsortiumBuilder, Interaction};
use ferment_constraints::culture::Culture;
use ferment_constraints::relation::Relation;

fn pair(a: &str, b: &str, r: Relation) -> (String, String, Relation) {
    (a.to_string(), b.to_string(), r)
}

#[test]
fn two_cultures_compete_shared_resource() {
    let a = Culture::new("a", vec![1, 2, 3]);
    let b = Culture::new("b", vec![2, 3, 4]);
    let mut consortium = ConsortiumBuilder::new()
        .cultures(vec![a, b])
        .interaction("a", "b")
        .build();
    let constraints: Vec<(String, String, Box<dyn Fn(i32, i32) -> bool>)> = vec![
        ("a".into(), "b".into(), Box::new(|a, b| a != b)),
    ];
    let iters = consortium.ferment_until_converged(&constraints, 100);
    assert!(consortium.total_domain_size() > 0);
    assert!(iters < 100);
}

#[test]
fn consortium_converges_for_trivial_csp() {
    let a = Culture::new("a", vec![1, 2]);
    let b = Culture::new("b", vec![1, 2]);
    let mut consortium = ConsortiumBuilder::new()
        .cultures(vec![a, b])
        .interaction("a", "b")
        .build();
    let constraints: Vec<(String, String, Box<dyn Fn(i32, i32) -> bool>)> = vec![
        ("a".into(), "b".into(), Box::new(|a, b| a < b)),
    ];
    consortium.ferment_until_converged(&constraints, 100);
    let ca = consortium.get_culture("a").unwrap();
    let cb = consortium.get_culture("b").unwrap();
    assert_eq!(ca.domain, vec![1]);
    assert_eq!(cb.domain, vec![2]);
}

#[test]
fn is_converged_when_all_singletons() {
    let a = Culture::new("a", vec![1]);
    let b = Culture::new("b", vec![2]);
    let consortium = ConsortiumBuilder::new().cultures(vec![a, b]).build();
    assert!(consortium.is_converged());
}

#[test]
fn not_converged_with_multi_value_domains() {
    let a = Culture::new("a", vec![1, 2]);
    let consortium = ConsortiumBuilder::new().cultures(vec![a]).build();
    assert!(!consortium.is_converged());
}

#[test]
fn has_dead_detects_empty_domain() {
    let a = Culture::new("a", vec![]);
    let consortium = ConsortiumBuilder::new().cultures(vec![a]).build();
    assert!(consortium.has_dead());
}

#[test]
fn graph_coloring_3_nodes_2_colors() {
    let colors = vec![0, 1];
    let a = Culture::new("a", colors.clone());
    let b = Culture::new("b", colors.clone());
    let c = Culture::new("c", colors.clone());
    let mut consortium = ConsortiumBuilder::new()
        .cultures(vec![a, b, c])
        .interaction("a", "b")
        .interaction("b", "c")
        .interaction("a", "c")
        .build();
    let constraints: Vec<(String, String, Box<dyn Fn(i32, i32) -> bool>)> = vec![
        ("a".into(), "b".into(), Box::new(|a, b| a != b)),
        ("b".into(), "c".into(), Box::new(|a, b| a != b)),
        ("a".into(), "c".into(), Box::new(|a, b| a != b)),
    ];
    consortium.ferment_until_converged(&constraints, 100);
    assert!(consortium.total_domain_size() > 0);
}

#[test]
fn graph_coloring_line_3_nodes_2_colors() {
    let colors = vec![0, 1];
    let a = Culture::new("a", colors.clone());
    let b = Culture::new("b", colors.clone());
    let c = Culture::new("c", colors.clone());
    let mut consortium = ConsortiumBuilder::new()
        .cultures(vec![a, b, c])
        .interaction("a", "b")
        .interaction("b", "c")
        .build();
    let constraints: Vec<(String, String, Box<dyn Fn(i32, i32) -> bool>)> = vec![
        ("a".into(), "b".into(), Box::new(|a, b| a != b)),
        ("b".into(), "c".into(), Box::new(|a, b| a != b)),
    ];
    consortium.ferment_until_converged(&constraints, 100);
    assert!(!consortium.has_dead());
}

#[test]
fn ferment_step_counts_pruned_values() {
    let mut consortium = Consortium::new(
        vec![Culture::new("a", vec![1, 2, 3]), Culture::new("b", vec![1, 2])],
        vec![Interaction::new("a", "b")],
    );
    let before = consortium.total_domain_size();
    let pruned = consortium.ferment_step_with(&[pair("a", "b", Relation::Less)]);
    // a < b keeps a = 1 only; b keeps 2 only
    assert_eq!(pruned, 3);
    assert_eq!(before - consortium.total_domain_size(), pruned);
    assert_eq!(consortium.iteration, 1);
    assert_eq!(consortium.cultures[0].domain, vec![1]);
    assert_eq!(consortium.cultures[1].domain, vec![2]);
}

#[test]
fn ferment_step_without_constraints_prunes_nothing() {
    let mut consortium = Consortium::new(
        vec![Culture::new("a", vec![1, 2]), Culture::new("b", vec![1, 2])],
        vec![Interaction::new("a", "b")],
    );
    let none: [(String, String, Relation); 0] = [];
    assert_eq!(consortium.ferment_step_with(&none), 0);
    assert_eq!(consortium.cultures[0].domain, vec![1, 2]);
}

#[test]
fn ferment_step_ignores_interaction_with_missing_culture() {
    let mut consortium = Consortium::new(
        vec![Culture::new("a", vec![1, 2])],
        vec![Interaction::new("a", "zz")],
    );
    assert_eq!(consortium.ferment_step_with(&[pair("a", "zz", Relation::Less)]), 0);
    assert_eq!(consortium.cultures[0].domain, vec![1, 2]);
}

#[test]
fn reversed_constraint_applies_in_stored_order() {
    // The constraint is stated for (b, a) but the interaction is (a, b):
    // the relation is applied with a's value first.
    let mut consortium = Consortium::new(
        vec![Culture::new("a", vec![1, 2]), Culture::new("b", vec![1, 2])],
        vec![Interaction::new("a", "b")],
    );
    consortium.ferment_step_with(&[pair("b", "a", Relation::Less)]);
    assert_eq!(consortium.cultures[0].domain, vec![1]);
    assert_eq!(consortium.cultures[1].domain, vec![2]);
}

#[test]
fn fixpoint_stops_after_two_rounds() {
    // Already arc consistent: the first round prunes nothing, the second
    // round confirms it and stops.
    let mut consortium = Consortium::new(
        vec![Culture::new("a", vec![1, 2]), Culture::new("b", vec![1, 2])],
        vec![Interaction::new("a", "b")],
    );
    let n = consortium.ferment_until_converged_with(&[pair("a", "b", Relation::NotEqual)], 100);
    assert_eq!(n, 2);
    assert_eq!(consortium.iteration, 2);
    assert_eq!(consortium.total_domain_size(), 4);
}

#[test]
fn ferment_until_converged_respects_max_iterations() {
    let mut consortium = Consortium::new(
        vec![Culture::new("a", vec![1, 2, 3, 4]), Culture::new("b", vec![1, 2, 3, 4])],
        vec![Interaction::new("a", "b")],
    );
    let n = consortium.ferment_until_converged_with(&[pair("a", "b", Relation::Less)], 1);
    assert_eq!(n, 1);
    assert_eq!(consortium.cultures[0].domain, vec![1, 2, 3]);
    assert_eq!(consortium.cultures[1].domain, vec![2, 3, 4]);
}

#[test]
fn chain_of_less_than_converges() {
    let mut consortium = Consortium::new(
        vec![
            Culture::new("a", vec![1, 2, 3]),
            Culture::new("b", vec![1, 2, 3]),
            Culture::new("c", vec![1, 2, 3]),
        ],
        vec![Interaction::new("a", "b"), Interaction::new("b", "c")],
    );
    let n = consortium.ferment_until_converged_with(
        &[pair("a", "b", Relation::Less), pair("b", "c", Relation::Less)],
        100,
    );
    assert!(consortium.is_converged());
    assert_eq!(consortium.cultures[0].domain, vec![1]);
    assert_eq!(consortium.cultures[1].domain, vec![2]);
    assert_eq!(consortium.cultures[2].domain, vec![3]);
    // at most one round more than the nine starting values
    assert_eq!(n, 2);
    assert!(n <= 9 + 1);
}

#[test]
fn each_constraint_of_a_round_prunes_the_current_domain() {
    // Both constraints on `a` take effect in the same round.
    let mut consortium = Consortium::new(
        vec![Culture::new("a", vec![1, 2, 3]), Culture::new("b", vec![1]), Culture::new("c", vec![3])],
        vec![Interaction::new("a", "b"), Interaction::new("a", "c")],
    );
    let pruned = consortium.ferment_step_with(&[
        pair("a", "b", Relation::NotEqual),
        pair("a", "c", Relation::NotEqual),
    ]);
    assert_eq!(pruned, 2);
    assert_eq!(consortium.get_culture("a").unwrap().domain, vec![2]);
    assert_eq!(consortium.get_culture("b").unwrap().domain, vec![1]);
    assert_eq!(consortium.get_culture("c").unwrap().domain, vec![3]);
}

#[test]
fn ferment_until_converged_counts_rounds_of_this_call() {
    let mut consortium = Consortium::new(
        vec![Culture::new("a", vec![1, 2]), Culture::new("b", vec![1, 2])],
        vec![Interaction::new("a", "b")],
    );
    let constraints = [pair("a", "b", Relation::Less)];
    let first = consortium.ferment_until_converged_with(&constraints, 100);
    assert_eq!(first, 1);
    assert!(consortium.is_converged());
    let second = consortium.ferment_until_converged_with(&constraints, 100);
    assert_eq!(second, 0);
    assert_eq!(consortium.iteration, 1);
}

#[test]
fn should_stop_before_and_after_a_round() {
    let mut consortium = Consortium::new(
        vec![Culture::new("a", vec![1, 2]), Culture::new("b", vec![1, 2])],
        vec![Interaction::new("a", "b")],
    );
    assert!(!consortium.should_stop(0, false));
    assert!(!consortium.should_stop(0, true));
    let none: [(String, String, Relation); 0] = [];
    consortium.ferment_step_with(&none);
    consortium.ferment_step_with(&none);
    assert!(consortium.should_stop(0, true));
    assert!(!consortium.should_stop(1, true));
    let settled = Consortium::new(vec![Culture::new("a", vec![1])], vec![]);
    assert!(settled.should_stop(5, false));
    let dead = Consortium::new(vec![Culture::new("a", vec![1, 2]), Culture::new("b", vec![])], vec![]);
    assert!(dead.should_stop(5, false));
}

#[test]
fn ferment_step_takes_arbitrary_closures() {
    // a + b == 5 over a = [1..4], b = [3, 4]: a keeps 1 and 2, b keeps both
    let mut consortium = Consortium::new(
        vec![Culture::new("a", vec![1, 2, 3, 4]), Culture::new("b", vec![3, 4])],
        vec![Interaction::new("a", "b")],
    );
    let constraints = vec![("a".to_string(), "b".to_string(), |x: i32, y: i32| x + y == 5)];
    let pruned = consortium.ferment_step(&constraints);
    assert_eq!(pruned, 2);
    assert_eq!(consortium.cultures[0].domain, vec![1, 2]);
    assert_eq!(consortium.cultures[1].domain, vec![3, 4]);
}

#[test]
fn get_culture_finds_first_with_id() {
    let consortium = Consortium::new(
        vec![Culture::new("a", vec![1]), Culture::new("a", vec![2])],
        vec![],
    );
    assert_eq!(consortium.get_culture("a").unwrap().domain, vec![1]);
    assert!(consortium.get_culture("b").is_none());
}

#[test]
fn get_culture_mut_changes_culture() {
    let mut consortium = Consortium::new(vec![Culture::new("a", vec![1, 2])], vec![]);
    consortium.get_culture_mut("a").unwrap().domain = vec![7];
    assert_eq!(consortium.cultures[0].domain, vec![7]);
    assert!(consortium.get_culture_mut("b").is_none());
}

#[test]
fn interaction_partner_and_involves() {
    let i = Interaction::new("x", "y");
    assert!(i.involves("x"));
    assert!(i.involves("y"));
    assert!(!i.involves("z"));
    assert_eq!(i.partner("x"), Some("y"));
    assert_eq!(i.partner("y"), Some("x"));
    assert_eq!(i.partner("z"), None);
}

#[test]
fn fitness_updates_count_live_partners() {
    let consortium = Consortium::new(
        vec![
            Culture::new("a", vec![1]),
            Culture::new("b", vec![]),
            Culture::new("c", vec![1, 2]),
        ],
        vec![
            Interaction::new("a", "b"),
            Interaction::new("a", "c"),
            Interaction::new("c", "zz"),
        ],
    );
    let updates = consortium.fitness_updates();
    assert_eq!(updates.len(), 3);
    assert_eq!(updates[0], ("a".to_string(), 1, 2));
    assert_eq!(updates[1], ("b".to_string(), 0, 1));
    assert_eq!(updates[2], ("c".to_string(), 1, 2));
}

#[test]
fn builder_collects_in_order() {
    let consortium = ConsortiumBuilder::default()
        .culture(Culture::new("a", vec![1]))
        .culture(Culture::new("b", vec![2]))
        .interactions(vec![Interaction::new("a", "b")])
        .build();
    assert_eq!(consortium.cultures.len(), 2);
    assert_eq!(consortium.cultures[1].id, "b");
    assert_eq!(consortium.interactions.len(), 1);
    assert_eq!(consortium.iteration, 0);
}
