//! Baking: reading a solution out of a fermented consortium.
use vstd::prelude::*;
use crate::certificate::ConvergenceProof;
use crate::consortium::{Consortium, relation_text, relation_fns, constraint_text, lemma_relation_text, some_dead, run, total_size};
use crate::culture::Culture;
use crate::relation::{Relation, abs_int, lemma_relation_meaning};
use crate::starter::{CSP, predicate_relation, description_relation, texts_domains, seeded_culture_ok, seed_ids, seed_domains, lemma_total_size_prefix_domains, texts, pair_view, Starter, is_n_queens, is_inequality_form, queen_pairs, queen_name, queen_row_pairs};
use crate::text::{decimal, parse_i32, parse_i32_str, push_decimal, same_text, lemma_parse_decimal};

verus! {

/// Variable assignments: each variable name at most once, with its value.
pub struct Assignments {
    entries: Vec<(String, i32)>,
}

/// The position of `name` in a list of assignments.
pub open spec fn position_of(m: Seq<(Seq<char>, i32)>, name: Seq<char>) -> Option<int>
    decreases m.len(),
{
    if m.len() == 0 {
        None
    } else if m.last().0 == name {
        Some(m.len() - 1)
    } else {
        position_of(m.drop_last(), name)
    }
}

/// The value assigned to `name`, if any.
pub open spec fn lookup(m: Seq<(Seq<char>, i32)>, name: Seq<char>) -> Option<i32> {
    match position_of(m, name) {
        Some(i) => Some(m[i].1),
        None => None,
    }
}

/// Assigns `value` to `name`: replaces the value of a name already
/// assigned, in place; appends a new name.
pub open spec fn upsert(m: Seq<(Seq<char>, i32)>, name: Seq<char>, value: i32) -> Seq<(Seq<char>, i32)> {
    match position_of(m, name) {
        Some(i) => m.update(i, (name, value)),
        None => m.push((name, value)),
    }
}

/// Whether no name occurs twice.
pub open spec fn distinct_names(m: Seq<(Seq<char>, i32)>) -> bool {
    forall|i: int, j: int| 0 <= i < j < m.len() ==> #[trigger] m[i].0 != #[trigger] m[j].0
}

/// Position lookup finds the entry with that name, when there is one.
pub proof fn lemma_position_of(m: Seq<(Seq<char>, i32)>, name: Seq<char>)
    ensures
        match position_of(m, name) {
            Some(i) => 0 <= i < m.len() && m[i].0 == name,
            None => forall|j: int| 0 <= j < m.len() ==> m[j].0 != name,
        },
    decreases m.len(),
{
    if m.len() > 0 && m.last().0 != name {
        let rest = m.drop_last();
        lemma_position_of(rest, name);
        match position_of(rest, name) {
            Some(i) => {
                assert(m[i] == rest[i]);
            },
            None => {
                assert forall|j: int| 0 <= j < m.len() implies m[j].0 != name by {
                    if j < m.len() - 1 {
                        assert(m[j] == rest[j]);
                    }
                }
            },
        }
    }
}

proof fn lemma_upsert_distinct(m: Seq<(Seq<char>, i32)>, name: Seq<char>, value: i32)
    requires
        distinct_names(m),
    ensures
        distinct_names(upsert(m, name, value)),
        lookup(upsert(m, name, value), name) == Some(value),
{
    lemma_position_of(m, name);
    let u = upsert(m, name, value);
    lemma_position_of(u, name);
    match position_of(m, name) {
        Some(i) => {
            assert forall|a: int, b: int| 0 <= a < b < u.len() implies #[trigger] u[a].0 != #[trigger] u[b].0 by {
                if a != i && b != i {
                    assert(u[a] == m[a] && u[b] == m[b]);
                } else if a == i {
                    assert(u[b] == m[b]);
                } else {
                    assert(u[a] == m[a]);
                }
            }
            lemma_position_unique(u, name, i);
        },
        None => {
            assert forall|a: int, b: int| 0 <= a < b < u.len() implies #[trigger] u[a].0 != #[trigger] u[b].0 by {
                if b < m.len() {
                    assert(u[a] == m[a] && u[b] == m[b]);
                } else {
                    assert(u[a] == m[a]);
                }
            }
            lemma_position_unique(u, name, u.len() - 1);
        },
    }
}

/// With distinct names, the position of a name is where it stands.
proof fn lemma_position_unique(m: Seq<(Seq<char>, i32)>, name: Seq<char>, i: int)
    requires
        distinct_names(m),
        0 <= i < m.len(),
        m[i].0 == name,
    ensures
        position_of(m, name) == Some(i),
    decreases m.len(),
{
    if m.last().0 != name {
        assert(i < m.len() - 1);
        assert(distinct_names(m.drop_last()));
        lemma_position_unique(m.drop_last(), name, i);
    } else if i != m.len() - 1 {
        assert(m[i].0 != m[m.len() - 1].0);
    }
}

impl View for Assignments {
    type V = Seq<(Seq<char>, i32)>;

    closed spec fn view(&self) -> Seq<(Seq<char>, i32)> {
        self.entries@.map_values(|e: (String, i32)| (e.0@, e.1))
    }
}

impl Assignments {
    #[verifier::type_invariant]
    spec fn names_distinct(self) -> bool {
        distinct_names(self@)
    }

    /// No assignments.
    pub fn new() -> (m: Assignments)
        ensures
            m@ == Seq::<(Seq<char>, i32)>::empty(),
    {
        let m = Assignments { entries: Vec::new() };
        assert(m@ =~= Seq::<(Seq<char>, i32)>::empty());
        m
    }

    /// Finds the entry of `name`.
    fn find(&self, name: &str) -> (r: Option<usize>)
        ensures
            match r {
                Some(i) => position_of(self@, name@) == Some(i as int),
                None => position_of(self@, name@) is None,
            },
    {
        proof {
            use_type_invariant(self);
            lemma_position_of(self@, name@);
        }
        let mut i: usize = 0;
        while i < self.entries.len()
            invariant
                i <= self@.len(),
                self@.len() == self.entries@.len(),
                distinct_names(self@),
                forall|j: int| 0 <= j < i ==> self@[j].0 != name@,
                match position_of(self@, name@) {
                    Some(p) => 0 <= p < self@.len() && self@[p].0 == name@,
                    None => true,
                },
            decreases self@.len() - i,
        {
            if same_text(self.entries[i].0.as_str(), name) {
                proof {
                    assert(self@[i as int].0 == name@);
                    lemma_position_unique(self@, name@, i as int);
                }
                return Some(i);
            }
            i = i + 1;
        }
        None
    }

    /// Assigns `value` to `name` (see `upsert`).
    pub fn insert(&mut self, name: String, value: i32)
        ensures
            final(self)@ == upsert(old(self)@, name@, value),
    {
        proof {
            use_type_invariant(&*self);
            lemma_upsert_distinct(self@, name@, value);
            lemma_position_of(self@, name@);
        }
        let ghost target = upsert(self@, name@, value);
        let found = self.find(name.as_str());
        let mut entries: Vec<(String, i32)> = Vec::new();
        std::mem::swap(&mut entries, &mut self.entries);
        match found {
            Some(i) => {
                let mut entry = (name, value);
                proof {
                    assert(entries@.update(i as int, entry).map_values(|e: (String, i32)| (e.0@, e.1)) =~= target);
                }
                entries.set_and_swap(i, &mut entry);
            },
            None => {
                proof {
                    assert(entries@.push((name, value)).map_values(|e: (String, i32)| (e.0@, e.1)) =~= target);
                }
                entries.push((name, value));
            },
        }
        self.entries = entries;
    }

    /// The value assigned to `name`, if any.
    pub fn get(&self, name: &str) -> (r: Option<i32>)
        ensures
            r == lookup(self@, name@),
    {
        proof {
            lemma_position_of(self@, name@);
        }
        match self.find(name) {
            Some(i) => {
                assert(self@[i as int] == (self.entries@[i as int].0@, self.entries@[i as int].1));
                Some(self.entries[i].1)
            },
            None => None,
        }
    }

    /// Number of variables assigned.
    pub fn len(&self) -> (n: usize)
        ensures
            n == self@.len(),
    {
        self.entries.len()
    }

    /// Whether no variable is assigned.
    pub fn is_empty(&self) -> (b: bool)
        ensures
            b == (self@.len() == 0),
    {
        self.entries.len() == 0
    }

    /// The assignments in the order their names were first assigned.
    pub fn entries(&self) -> (r: &Vec<(String, i32)>)
        ensures
            r@.map_values(|e: (String, i32)| (e.0@, e.1)) == self@,
            distinct_names(self@),
    {
        proof {
            use_type_invariant(self);
        }
        &self.entries
    }
}

/// Result of baking a fermented consortium.
pub struct BakeResult {
    /// Whether the CSP is fully solved (all variables assigned, all constraints satisfied)
    pub solved: bool,
    /// Variable assignments (variable name to value)
    pub assignments: Assignments,
    /// Names of constraints that remain unsatisfied
    pub unsatisfied: Vec<String>,
    /// Convergence certificate for the fermentation
    pub proof: Option<ConvergenceProof>,
    /// Total fermentation iterations
    pub iterations: usize,
}

impl BakeResult {
    /// Whether the bake found the CSP to be unsatisfiable: unsolved, with
    /// no variable assigned.
    pub fn is_unsatisfiable(&self) -> (b: bool)
        ensures
            b == (!self.solved && self.assignments@.len() == 0),
    {
        !self.solved && self.assignments.is_empty()
    }

    /// Number of variables successfully assigned.
    pub fn assigned_count(&self) -> (n: usize)
        ensures
            n == self.assignments@.len(),
    {
        self.assignments.len()
    }

    /// Get a specific assignment.
    pub fn get(&self, variable: &str) -> (r: Option<i32>)
        ensures
            r == lookup(self.assignments@, variable@),
    {
        self.assignments.get(variable)
    }
}

/// The assignments read from the cultures: every culture with a single
/// value assigns it to its id, in order, later ids overwriting earlier ones.
pub open spec fn singleton_assignments(cs: Seq<Culture>) -> Seq<(Seq<char>, i32)>
    decreases cs.len(),
{
    if cs.len() == 0 {
        seq![]
    } else {
        let m = singleton_assignments(cs.drop_last());
        let c = cs.last();
        if c.domain@.len() == 1 {
            upsert(m, c.id@, c.domain@[0])
        } else {
            m
        }
    }
}

/// The label of constraint `i` between `a` and `b`.
pub open spec fn constraint_label(i: nat, a: Seq<char>, b: Seq<char>) -> Seq<char> {
    decimal(i) + ": "@ + a + " ↔ "@ + b
}

/// What constraint `i` adds to the unsatisfied list: its label when both
/// variables are assigned and its predicate exists and fails on their values;
/// its label marked unassigned when a variable is unassigned; nothing otherwise.
pub open spec fn constraint_report(
    i: nat,
    p: (Seq<char>, Seq<char>, usize),
    rels: Seq<Relation>,
    m: Seq<(Seq<char>, i32)>,
) -> Seq<Seq<char>> {
    match (lookup(m, p.0), lookup(m, p.1)) {
        (Some(av), Some(bv)) => if p.2 < rels.len() && !rels[p.2 as int].relates(av, bv) {
            seq![constraint_label(i, p.0, p.1)]
        } else {
            seq![]
        },
        _ => seq![constraint_label(i, p.0, p.1) + " (unassigned)"@],
    }
}

/// The unsatisfied list for the first `k` constraint pairs.
pub open spec fn unsatisfied_upto(
    ps: Seq<(Seq<char>, Seq<char>, usize)>,
    rels: Seq<Relation>,
    m: Seq<(Seq<char>, i32)>,
    k: nat,
) -> Seq<Seq<char>>
    decreases k,
{
    if k == 0 {
        seq![]
    } else {
        unsatisfied_upto(ps, rels, m, (k - 1) as nat) + constraint_report(
            (k - 1) as nat,
            ps[k - 1],
            rels,
            m,
        )
    }
}

/// The relations that checking a CSP's constraints uses.
pub open spec fn check_relations(csp: &CSP) -> Seq<Relation> {
    Seq::new(csp.predicate_descriptions@.len(), |i: int| predicate_relation(csp.predicate_descriptions@[i]@))
}

/// The description a constraint pair names, or the empty text.
pub open spec fn description_of(csp: &CSP, idx: usize) -> Seq<char> {
    if idx < csp.predicate_descriptions@.len() {
        csp.predicate_descriptions@[idx as int]@
    } else {
        Seq::empty()
    }
}

/// The constraints that solving a CSP ferments with: each pair with the
/// relation of the predicate it names, that of the empty description when
/// it names none.
pub open spec fn solve_constraints_of(csp: &CSP) -> Seq<(Seq<char>, Seq<char>, Relation)> {
    Seq::new(
        csp.constraint_pairs@.len(),
        |k: int|
            (
                csp.constraint_pairs@[k].0@,
                csp.constraint_pairs@[k].1@,
                predicate_relation(description_of(csp, csp.constraint_pairs@[k].2)),
            ),
    )
}

/// The row a queen's name stands for: the name without its first character,
/// read as a decimal `i32`, or 0 when that fails.
pub open spec fn queen_row_of(name: Seq<char>) -> int {
    match parse_i32(name.drop_first()) {
        Some(v) => v as int,
        None => 0,
    }
}

/// Whether the queen constraints of `ps` can be built: names start with a
/// one-byte character, and row distances fit in `i32`.
pub open spec fn queen_names_ok(ps: Seq<(Seq<char>, Seq<char>, usize)>) -> bool {
    forall|k: int|
        0 <= k < ps.len() ==> {
            let p = #[trigger] ps[k];
            &&& p.0.len() > 0 && (p.0[0] as int) < 128
            &&& p.1.len() > 0 && (p.1[0] as int) < 128
            &&& abs_int(queen_row_of(p.0) - queen_row_of(p.1)) <= i32::MAX
        }
}

/// The constraints that solving n-queens ferments with: two queens are
/// non-attacking for the distance of their rows.
pub open spec fn queen_constraints_of(ps: Seq<(Seq<char>, Seq<char>, usize)>) -> Seq<(Seq<char>, Seq<char>, Relation)> {
    Seq::new(
        ps.len(),
        |k: int|
            (
                ps[k].0,
                ps[k].1,
                Relation::NonAttacking(abs_int(queen_row_of(ps[k].0) - queen_row_of(ps[k].1)) as i32),
            ),
    )
}

/// The row a queen's name stands for (see `queen_row_of`).
fn queen_row(name: &String) -> (r: i32)
    requires
        name@.len() > 0,
    ensures
        r as int == queen_row_of(name@),
{
    let s = name.as_str();
    let rest = s.substring_char(1, s.unicode_len());
    assert(rest@ =~= name@.drop_first());
    match parse_i32_str(rest) {
        Some(v) => v,
        None => 0,
    }
}

/// What baking `consortium` against `csp` gives (see `Baker::bake`).
pub open spec fn is_bake_of(r: BakeResult, consortium: Consortium, csp: CSP) -> bool {
    let m = singleton_assignments(consortium.cultures@);
    &&& texts(r.unsatisfied@) == unsatisfied_upto(
        pair_view(csp.constraint_pairs@),
        check_relations(&csp),
        m,
        csp.constraint_pairs@.len(),
    )
    &&& r.solved == (r.unsatisfied@.len() == 0 && m.len() == csp.variables@.len() && !some_dead(consortium.domains()))
    &&& r.solved ==> r.assignments@ == m
    &&& !r.solved ==> r.assignments@.len() == 0
    &&& r.proof is None
    &&& r.iterations == consortium.iteration
}

/// Extracts solutions from fermented consortia.
pub struct Baker;

impl Baker {
    /// Bake a fermented consortium: every culture with a single value
    /// assigns it; every constraint is checked against those assignments
    /// with the predicates of `Starter::build_predicates`; the CSP is solved
    /// when no constraint is reported, every variable is assigned and no
    /// culture is dead. A solved result carries the assignments; an unsolved
    /// one carries none.
    pub fn bake(consortium: &Consortium, csp: &CSP) -> (r: BakeResult)
        ensures
            texts(r.unsatisfied@) == unsatisfied_upto(
                pair_view(csp.constraint_pairs@),
                check_relations(csp),
                singleton_assignments(consortium.cultures@),
                csp.constraint_pairs@.len(),
            ),
            r.solved == (r.unsatisfied@.len() == 0
                && singleton_assignments(consortium.cultures@).len() == csp.variables@.len()
                && !some_dead(consortium.domains())),
            r.solved ==> r.assignments@ == singleton_assignments(consortium.cultures@),
            !r.solved ==> r.assignments@.len() == 0,
            r.proof is None,
            r.iterations == consortium.iteration,
    {
        let mut assignments = Assignments::new();
        let mut i: usize = 0;
        while i < consortium.cultures.len()
            invariant
                i <= consortium.cultures@.len(),
                assignments@ == singleton_assignments(consortium.cultures@.take(i as int)),
            decreases consortium.cultures@.len() - i,
        {
            let culture = &consortium.cultures[i];
            proof {
                assert(consortium.cultures@.take(i + 1).drop_last() =~= consortium.cultures@.take(i as int));
                assert(consortium.cultures@.take(i + 1).last() == *culture);
            }
            if culture.domain.len() == 1 {
                assignments.insert(culture.id.clone(), culture.domain[0]);
            }
            i = i + 1;
        }
        proof {
            assert(consortium.cultures@.take(i as int) =~= consortium.cultures@);
        }
        let predicates = Starter::build_predicates(csp);
        proof {
            assert(predicates@ =~= check_relations(csp));
        }
        let ghost ps = pair_view(csp.constraint_pairs@);
        let ghost rels = check_relations(csp);
        let mut unsatisfied: Vec<String> = Vec::new();
        let mut k: usize = 0;
        while k < csp.constraint_pairs.len()
            invariant
                k <= csp.constraint_pairs@.len(),
                ps == pair_view(csp.constraint_pairs@),
                rels == check_relations(csp),
                predicates@ == rels,
                texts(unsatisfied@) == unsatisfied_upto(ps, rels, assignments@, k as nat),
            decreases csp.constraint_pairs@.len() - k,
        {
            let pair = &csp.constraint_pairs[k];
            let ghost before = texts(unsatisfied@);
            let mut label = String::new();
            push_decimal(&mut label, k);
            label.append(": ");
            label.append(pair.0.as_str());
            label.append(" ↔ ");
            label.append(pair.1.as_str());
            assert(label@ =~= constraint_label(k as nat, pair.0@, pair.1@));
            let av = assignments.get(pair.0.as_str());
            let bv = assignments.get(pair.1.as_str());
            assert(ps[k as int] == (pair.0@, pair.1@, pair.2));
            match (av, bv) {
                (Some(a), Some(b)) => {
                    if pair.2 < predicates.len() {
                        if !predicates[pair.2].holds(a, b) {
                            unsatisfied.push(label);
                        }
                    }
                },
                _ => {
                    label.append(" (unassigned)");
                    unsatisfied.push(label);
                },
            }
            proof {
                assert(texts(unsatisfied@) =~= before + constraint_report(k as nat, ps[k as int], rels, assignments@));
            }
            k = k + 1;
        }
        let solved = unsatisfied.len() == 0 && assignments.len() == csp.variables.len() && !consortium.has_dead();
        if !solved {
            assignments = Assignments::new();
        }
        BakeResult { solved, assignments, unsatisfied, proof: None, iterations: consortium.iteration }
    }

    /// Seed a consortium from `csp`, ferment it under `constraints` until
    /// convergence or `max_iterations` rounds, and bake it against
    /// `bake_csp`. Returns the seeded consortium, the fermented one and the
    /// bake; its certificate is `ConvergenceProof::prove` of the two
    /// consortia, whose population flag the caller measures.
    pub fn ferment_and_bake(
        csp: &CSP,
        constraints: &[(String, String, Relation)],
        bake_csp: &CSP,
        max_iterations: usize,
    ) -> (r: (Consortium, Consortium, BakeResult))
        requires
            total_size(texts_domains(csp)) <= usize::MAX,
        ensures
            seeded_culture_ok(csp, r.0.cultures@),
            r.0.interactions@.len() == csp.constraint_pairs@.len(),
            forall|k: int|
                0 <= k < r.0.interactions@.len() ==> (#[trigger] r.0.interactions@[k]).a@
                    == csp.constraint_pairs@[k].0@ && r.0.interactions@[k].b@ == csp.constraint_pairs@[k].1@,
            r.0.iteration == 0,
            r.1.interactions@ == r.0.interactions@,
            r.1.ids() == r.0.ids(),
            (r.1.domains(), r.1.iteration as int) == run(
                r.0.ids(),
                r.0.interactions@,
                relation_fns(relation_text(constraints@)),
                r.0.domains(),
                0,
                max_iterations as nat,
            ),
            is_bake_of(r.2, r.1, *bake_csp),
    {
        let initial = Starter::seed(csp);
        proof {
            assert(initial.domains() =~= seed_domains(csp));
            lemma_total_size_prefix_domains(csp);
            lemma_relation_text(constraints@);
        }
        let mut fermented = initial.copy();
        fermented.ferment_until_converged_with(constraints, max_iterations);
        let result = Self::bake(&fermented, bake_csp);
        (initial, fermented, result)
    }

    /// Solving a CSP without its floating-point bookkeeping: the seeded
    /// consortium fermented under `solve_constraints` until convergence or
    /// `max_iterations` rounds, and baked against the CSP (see
    /// `ferment_and_bake`).
    pub fn solve_without_populations(csp: &CSP, max_iterations: usize) -> (r: (Consortium, Consortium, BakeResult))
        requires
            total_size(texts_domains(csp)) <= usize::MAX,
        ensures
            seeded_culture_ok(csp, r.0.cultures@),
            r.0.ids() == seed_ids(csp),
            r.0.domains() == seed_domains(csp),
            r.0.iteration == 0,
            r.1.interactions@ == r.0.interactions@,
            r.1.ids() == seed_ids(csp),
            (r.1.domains(), r.1.iteration as int) == run(
                seed_ids(csp),
                r.0.interactions@,
                relation_fns(solve_constraints_of(csp)),
                seed_domains(csp),
                0,
                max_iterations as nat,
            ),
            is_bake_of(r.2, r.1, *csp),
    {
        let constraints = Self::solve_constraints(csp);
        let r = Self::ferment_and_bake(csp, constraints.as_slice(), csp, max_iterations);
        proof {
            assert(r.0.ids() =~= seed_ids(csp));
            assert(r.0.domains() =~= seed_domains(csp));
        }
        r
    }

    /// The constraints that solving a CSP ferments with: each pair with the
    /// relation of the predicate it names, as `Starter::build_predicates`
    /// builds it; that of the empty description when the index names none.
    pub fn solve_constraints(csp: &CSP) -> (r: Vec<(String, String, Relation)>)
        ensures
            relation_text(r@) == solve_constraints_of(csp),
    {
        let mut r: Vec<(String, String, Relation)> = Vec::new();
        let mut k: usize = 0;
        while k < csp.constraint_pairs.len()
            invariant
                k <= csp.constraint_pairs@.len(),
                relation_text(r@) == solve_constraints_of(csp).take(k as int),
            decreases csp.constraint_pairs@.len() - k,
        {
            let p = &csp.constraint_pairs[k];
            let rel = if p.2 < csp.predicate_descriptions.len() {
                description_relation(csp.predicate_descriptions[p.2].as_str())
            } else {
                proof {
                    reveal_strlit("");
                    assert(""@ =~= Seq::<char>::empty());
                }
                description_relation("")
            };
            let ghost before = relation_text(r@);
            r.push((p.0.clone(), p.1.clone(), rel));
            proof {
                assert(relation_text(r@) =~= before.push(solve_constraints_of(csp)[k as int]));
                assert(solve_constraints_of(csp).take(k + 1) =~= solve_constraints_of(csp).take(k as int).push(
                    solve_constraints_of(csp)[k as int],
                ));
            }
            k = k + 1;
        }
        proof {
            assert(solve_constraints_of(csp).take(k as int) =~= solve_constraints_of(csp));
        }
        r
    }

    /// The constraints that solving n-queens ferments with (see
    /// `queen_constraints_of`).
    pub fn queen_constraints(csp: &CSP) -> (r: Vec<(String, String, Relation)>)
        requires
            queen_names_ok(pair_view(csp.constraint_pairs@)),
        ensures
            relation_text(r@) == queen_constraints_of(pair_view(csp.constraint_pairs@)),
    {
        let ghost ps = pair_view(csp.constraint_pairs@);
        let mut r: Vec<(String, String, Relation)> = Vec::new();
        let mut k: usize = 0;
        while k < csp.constraint_pairs.len()
            invariant
                k <= csp.constraint_pairs@.len(),
                ps == pair_view(csp.constraint_pairs@),
                queen_names_ok(ps),
                relation_text(r@) == queen_constraints_of(ps).take(k as int),
            decreases csp.constraint_pairs@.len() - k,
        {
            let p = &csp.constraint_pairs[k];
            assert(ps[k as int] == (p.0@, p.1@, p.2));
            let a_row = queen_row(&p.0);
            let b_row = queen_row(&p.1);
            let diff: i64 = (a_row as i64) - (b_row as i64);
            let dist: i64 = if diff < 0 { 0 - diff } else { diff };
            let row_diff: i32 = dist as i32;
            let ghost before = relation_text(r@);
            r.push((p.0.clone(), p.1.clone(), Relation::NonAttacking(row_diff)));
            proof {
                assert(relation_text(r@) =~= before.push(queen_constraints_of(ps)[k as int]));
                assert(queen_constraints_of(ps).take(k + 1) =~= queen_constraints_of(ps).take(k as int).push(
                    queen_constraints_of(ps)[k as int],
                ));
            }
            k = k + 1;
        }
        proof {
            assert(queen_constraints_of(ps).take(k as int) =~= queen_constraints_of(ps));
        }
        r
    }
}

/// Every constraint of the first `m` rows of n-queens joins two named rows.
proof fn lemma_queen_pairs_form(m: nat, n: nat)
    ensures
        forall|k: int|
            0 <= k < queen_pairs(m, n).len() ==> exists|i: nat, j: nat|
                #[trigger] queen_pairs(m, n)[k] == (queen_name(i), queen_name(j), 1usize),
    decreases m,
{
    if m > 0 {
        lemma_queen_pairs_form((m - 1) as nat, n);
        let rest = queen_pairs((m - 1) as nat, n);
        let row = crate::starter::queen_row_pairs((m - 1) as nat, n);
        assert(queen_pairs(m, n) == rest + row);
        assert forall|k: int| 0 <= k < queen_pairs(m, n).len() implies exists|i: nat, j: nat|
            #[trigger] queen_pairs(m, n)[k] == (queen_name(i), queen_name(j), 1usize) by {
            if k < rest.len() {
                assert(queen_pairs(m, n)[k] == rest[k]);
            } else {
                let t = k - rest.len();
                assert(queen_pairs(m, n)[k] == row[t]);
                assert(row[t] == (queen_name((m - 1) as nat), queen_name((m + t) as nat), 1usize));
            }
        }
    }
}

/// The row of a queen's name is its row number, when that fits in `i32`.
proof fn lemma_queen_row_of_name(i: nat)
    ensures
        queen_name(i).len() > 0,
        queen_name(i)[0] == 'q',
        0 <= queen_row_of(queen_name(i)) <= i32::MAX,
{
    assert(queen_name(i).drop_first() =~= decimal(i));
    lemma_parse_decimal(i);
}

/// The n-queens constraints can always be built.
pub proof fn lemma_n_queens_names_ok(n: nat)
    ensures
        queen_names_ok(queen_pairs(n, n)),
{
    lemma_queen_pairs_form(n, n);
    let ps = queen_pairs(n, n);
    assert forall|k: int| 0 <= k < ps.len() implies {
        let p = #[trigger] ps[k];
        &&& p.0.len() > 0 && (p.0[0] as int) < 128
        &&& p.1.len() > 0 && (p.1[0] as int) < 128
        &&& abs_int(queen_row_of(p.0) - queen_row_of(p.1)) <= i32::MAX
    } by {
        let (i, j) = choose|i: nat, j: nat| ps[k] == (queen_name(i), queen_name(j), 1usize);
        lemma_queen_row_of_name(i);
        lemma_queen_row_of_name(j);
    }
}

/// Copies strings, keeping their text.
fn copy_texts(v: &Vec<String>) -> (r: Vec<String>)
    ensures
        texts(r@) == texts(v@),
{
    let mut r: Vec<String> = Vec::new();
    let mut i: usize = 0;
    while i < v.len()
        invariant
            i <= v@.len(),
            r@.len() == i,
            forall|j: int| 0 <= j < i ==> #[trigger] r@[j]@ == v@[j]@,
        decreases v@.len() - i,
    {
        r.push(v[i].clone());
        i = i + 1;
    }
    assert(texts(r@) =~= texts(v@));
    r
}

/// Copies domains, keeping their values.
fn copy_domains(v: &Vec<Vec<i32>>) -> (r: Vec<Vec<i32>>)
    ensures
        r@.len() == v@.len(),
        forall|i: int| 0 <= i < v@.len() ==> #[trigger] r@[i]@ == v@[i]@,
{
    let mut r: Vec<Vec<i32>> = Vec::new();
    let mut i: usize = 0;
    while i < v.len()
        invariant
            i <= v@.len(),
            r@.len() == i,
            forall|j: int| 0 <= j < i ==> #[trigger] r@[j]@ == v@[j]@,
        decreases v@.len() - i,
    {
        r.push(v[i].clone());
        i = i + 1;
    }
    r
}

impl Baker {
    /// What solving n-queens starts from: the n-queens CSP, the constraints
    /// fermentation applies to it (queens pairwise non-attacking), and the
    /// inequality form of the CSP that the result is baked against.
    pub fn n_queens_setup(n: usize) -> (r: (CSP, Vec<(String, String, Relation)>, CSP))
        ensures
            is_n_queens(r.0, n as nat),
            relation_text(r.1@) == queen_constraints_of(pair_view(r.0.constraint_pairs@)),
            is_inequality_form(r.0, r.2),
    {
        let csp = CSP::n_queens(n);
        proof {
            lemma_n_queens_names_ok(n as nat);
        }
        let constraints = Self::queen_constraints(&csp);
        let mut edges: Vec<(String, String)> = Vec::new();
        let mut k: usize = 0;
        while k < csp.constraint_pairs.len()
            invariant
                k <= csp.constraint_pairs@.len(),
                edges@.len() == k,
                forall|j: int|
                    0 <= j < k ==> (#[trigger] edges@[j]).0@ == csp.constraint_pairs@[j].0@
                        && edges@[j].1@ == csp.constraint_pairs@[j].1@,
            decreases csp.constraint_pairs@.len() - k,
        {
            edges.push((csp.constraint_pairs[k].0.clone(), csp.constraint_pairs[k].1.clone()));
            k = k + 1;
        }
        let bake_csp = CSP::inequality_csp(copy_texts(&csp.variables), copy_domains(&csp.domains), edges);
        proof {
            assert(pair_view(bake_csp.constraint_pairs@) =~= Seq::new(
                csp.constraint_pairs@.len(),
                |k: int| (csp.constraint_pairs@[k].0@, csp.constraint_pairs@[k].1@, 0usize),
            ));
            reveal_strlit("a != b");
            assert(texts(bake_csp.predicate_descriptions@) =~= seq!["a != b"@]);
        }
        (csp, constraints, bake_csp)
    }
}

/// A bake with no unsatisfied constraint satisfies every constraint: both
/// of its variables are assigned and, when its predicate exists, the
/// predicate holds of their values.
pub proof fn lemma_solved_satisfies(
    ps: Seq<(Seq<char>, Seq<char>, usize)>,
    rels: Seq<Relation>,
    m: Seq<(Seq<char>, i32)>,
    k: nat,
)
    requires
        k <= ps.len(),
        unsatisfied_upto(ps, rels, m, k).len() == 0,
    ensures
        forall|q: int|
            0 <= q < k ==> {
                let p = #[trigger] ps[q];
                &&& lookup(m, p.0) is Some
                &&& lookup(m, p.1) is Some
                &&& p.2 < rels.len() ==> rels[p.2 as int].relates(lookup(m, p.0)->0, lookup(m, p.1)->0)
            },
    decreases k,
{
    if k > 0 {
        lemma_solved_satisfies(ps, rels, m, (k - 1) as nat);
    }
}

/// Conversely, a bake reports no constraint when every constraint has both
/// variables assigned and, when its predicate exists, the predicate holds of
/// their values.
pub proof fn lemma_satisfied_reports_nothing(
    ps: Seq<(Seq<char>, Seq<char>, usize)>,
    rels: Seq<Relation>,
    m: Seq<(Seq<char>, i32)>,
    k: nat,
)
    requires
        k <= ps.len(),
        forall|q: int|
            0 <= q < k ==> {
                let p = #[trigger] ps[q];
                &&& lookup(m, p.0) is Some
                &&& lookup(m, p.1) is Some
                &&& p.2 < rels.len() ==> rels[p.2 as int].relates(lookup(m, p.0)->0, lookup(m, p.1)->0)
            },
    ensures
        unsatisfied_upto(ps, rels, m, k).len() == 0,
    decreases k,
{
    if k > 0 {
        lemma_satisfied_reports_nothing(ps, rels, m, (k - 1) as nat);
        let p = ps[k - 1];
        assert(lookup(m, p.0) is Some && lookup(m, p.1) is Some);
    }
}

/// Every constraint of the first `m` rows of n-queens joins a row `i < m`
/// to a later row `j < n`.
proof fn lemma_queen_pairs_rows(m: nat, n: nat)
    ensures
        forall|k: int|
            0 <= k < queen_pairs(m, n).len() ==> exists|i: nat, j: nat|
                i < m && i < j < n && #[trigger] queen_pairs(m, n)[k] == (queen_name(i), queen_name(j), 1usize),
    decreases m,
{
    if m > 0 {
        lemma_queen_pairs_rows((m - 1) as nat, n);
        let rest = queen_pairs((m - 1) as nat, n);
        let row = queen_row_pairs((m - 1) as nat, n);
        assert(queen_pairs(m, n) == rest + row);
        assert forall|k: int| 0 <= k < queen_pairs(m, n).len() implies exists|i: nat, j: nat|
            i < m && i < j < n && #[trigger] queen_pairs(m, n)[k] == (queen_name(i), queen_name(j), 1usize) by {
            if k < rest.len() {
                assert(queen_pairs(m, n)[k] == rest[k]);
            } else {
                let t = k - rest.len();
                assert(queen_pairs(m, n)[k] == row[t]);
                assert(row[t] == (queen_name((m - 1) as nat), queen_name((m + t) as nat), 1usize));
            }
        }
    }
}

/// The row a queen's name stands for is its row number.
proof fn lemma_queen_row_of_name_exact(i: nat)
    requires
        i <= i32::MAX,
    ensures
        queen_row_of(queen_name(i)) == i,
{
    assert(queen_name(i).drop_first() =~= decimal(i));
    lemma_parse_decimal(i);
}

/// The n-queens constraints ask that no two queens attack: each constraint
/// joins two named rows `i < j < n`, and when it joins rows `i` and `j`
/// it accepts the column `v` of row `i` and `w` of row `j` exactly when
/// they differ and are not `j - i` apart in either direction (no shared
/// diagonal).
pub proof fn lemma_queen_constraint_non_attacking(n: nat, k: int)
    requires
        n <= i32::MAX,
        0 <= k < queen_constraints_of(queen_pairs(n, n)).len(),
    ensures
        ({
            let c = queen_constraints_of(queen_pairs(n, n))[k];
            &&& exists|i: nat, j: nat| #![trigger queen_name(i), queen_name(j)] i < j < n && c.0 == queen_name(i) && c.1 == queen_name(j)
            &&& forall|i: nat, j: nat|
                i <= i32::MAX && j <= i32::MAX && c.0 == #[trigger] queen_name(i) && c.1 == #[trigger] queen_name(j)
                    ==> i < j < n
            &&& forall|i: nat, j: nat, v: i32, w: i32|
                i <= i32::MAX && j <= i32::MAX && c.0 == #[trigger] queen_name(i) && c.1 == #[trigger] queen_name(j)
                    ==> (#[trigger] c.2.relates(v, w) <==> (v != w && v - w != j - i && w - v != j - i))
        }),
{
    let ps = queen_pairs(n, n);
    let c = queen_constraints_of(ps)[k];
    lemma_queen_pairs_rows(n, n);
    let (i0, j0) = choose|i: nat, j: nat| i < n && i < j < n && #[trigger] ps[k] == (queen_name(i), queen_name(j), 1usize);
    assert(c.0 == queen_name(i0) && c.1 == queen_name(j0));
    lemma_queen_row_of_name_exact(i0);
    lemma_queen_row_of_name_exact(j0);
    let d = (j0 - i0) as i32;
    assert(c.2 == Relation::NonAttacking(d));
    assert forall|i: nat, j: nat|
        i <= i32::MAX && j <= i32::MAX && c.0 == #[trigger] queen_name(i) && c.1 == #[trigger] queen_name(j)
            implies i == i0 && j == j0 by {
        lemma_queen_row_of_name_exact(i);
        lemma_queen_row_of_name_exact(j);
    }
    assert forall|i: nat, j: nat, v: i32, w: i32|
        i <= i32::MAX && j <= i32::MAX && c.0 == #[trigger] queen_name(i) && c.1 == #[trigger] queen_name(j)
            implies (#[trigger] c.2.relates(v, w) <==> (v != w && v - w != j - i && w - v != j - i)) by {
        assert(queen_name(i) == queen_name(i0) && queen_name(j) == queen_name(j0));
        lemma_relation_meaning(v, w, d);
    }
}


/// The assignments read from the cultures name each variable once; every
/// culture with a single value has its id assigned; and every assignment is
/// the single value of a culture with that id.
pub proof fn lemma_singleton_assignments(cs: Seq<Culture>)
    ensures
        distinct_names(singleton_assignments(cs)),
        forall|i: int|
            0 <= i < cs.len() && (#[trigger] cs[i]).domain@.len() == 1 ==> lookup(
                singleton_assignments(cs),
                cs[i].id@,
            ) is Some,
        forall|name: Seq<char>|
            #[trigger] lookup(singleton_assignments(cs), name) is Some ==> exists|i: int|
                0 <= i < cs.len() && cs[i].id@ == name && cs[i].domain@ == seq![
                    lookup(singleton_assignments(cs), name)->0,
                ],
    decreases cs.len(),
{
    if cs.len() > 0 {
        let rest = cs.drop_last();
        lemma_singleton_assignments(rest);
        let m = singleton_assignments(rest);
        let c = cs.last();
        let last = cs.len() - 1;
        let mm = singleton_assignments(cs);
        if c.domain@.len() == 1 {
            lemma_upsert_distinct(m, c.id@, c.domain@[0]);
        }
        lemma_position_of(m, c.id@);
        assert forall|i: int| 0 <= i < cs.len() && (#[trigger] cs[i]).domain@.len() == 1 implies lookup(mm, cs[i].id@) is Some by {
            if i < last {
                assert(cs[i] == rest[i]);
                lemma_lookup_upsert(m, c.id@, c.domain@[0], cs[i].id@);
            }
        }
        assert forall|name: Seq<char>| #[trigger] lookup(mm, name) is Some implies exists|i: int|
            0 <= i < cs.len() && cs[i].id@ == name && cs[i].domain@ == seq![lookup(mm, name)->0] by {
            let v = lookup(mm, name)->0;
            if c.domain@.len() == 1 && name == c.id@ {
                assert(c.domain@ =~= seq![c.domain@[0]]);
                assert(cs[last] == c);
            } else {
                if c.domain@.len() == 1 {
                    lemma_lookup_upsert(m, c.id@, c.domain@[0], name);
                }
                assert(lookup(m, name) == Some(v));
                let i = choose|i: int| 0 <= i < rest.len() && rest[i].id@ == name && rest[i].domain@ == seq![v];
                assert(cs[i] == rest[i]);
            }
        }
    }
}

/// Assigning one name leaves the others as they were.
proof fn lemma_lookup_upsert(m: Seq<(Seq<char>, i32)>, name: Seq<char>, value: i32, other: Seq<char>)
    ensures
        lookup(upsert(m, name, value), other) == if other == name {
            Some(value)
        } else {
            lookup(m, other)
        },
    decreases m.len(),
{
    lemma_position_of(m, name);
    lemma_position_of(m, other);
    let u = upsert(m, name, value);
    lemma_position_of(u, other);
    match position_of(m, name) {
        Some(i) => {
            lemma_upsert_update_position(m, name, value, other, i);
        },
        None => {
            assert(u == m.push((name, value)));
            assert(u.drop_last() =~= m);
        },
    }
}

/// Replacing the entry of `name` in place keeps every position lookup.
proof fn lemma_upsert_update_position(m: Seq<(Seq<char>, i32)>, name: Seq<char>, value: i32, other: Seq<char>, i: int)
    requires
        0 <= i < m.len(),
        m[i].0 == name,
    ensures
        position_of(m.update(i, (name, value)), other) == position_of(m, other),
    decreases m.len(),
{
    let u = m.update(i, (name, value));
    if m.len() > 0 {
        if i < m.len() - 1 {
            assert(u.drop_last() =~= m.drop_last().update(i, (name, value)));
            assert(u.last() == m.last());
            if m.last().0 != other {
                lemma_upsert_update_position(m.drop_last(), name, value, other, i);
            }
        } else {
            assert(u.drop_last() =~= m.drop_last());
        }
    }
}

} // verus!
