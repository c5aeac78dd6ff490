//! CSP specifications, and seeding a consortium from one.
use vstd::prelude::*;
use crate::consortium::{
    Consortium, Interaction, index_of, run, total_size, relation_text, relation_fns, lemma_relation_text,
};
use crate::culture::Culture;
use crate::relation::Relation;
use crate::text::{decimal, has_substring, push_decimal, str_contains, same_text};

verus! {

/// A constraint satisfaction problem: variables with domains, and binary
/// constraints that name a predicate by its index in the descriptions.
pub struct CSP {
    /// Variable names
    pub variables: Vec<String>,
    /// Domain for each variable (parallel to variables)
    pub domains: Vec<Vec<i32>>,
    /// Binary constraints as (var_a, var_b, predicate_index)
    pub constraint_pairs: Vec<(String, String, usize)>,
    /// Predicate descriptions, indexed by predicate index
    pub predicate_descriptions: Vec<String>,
}

/// The views of a sequence of strings.
pub open spec fn texts(v: Seq<String>) -> Seq<Seq<char>> {
    Seq::new(v.len(), |i: int| v[i]@)
}

/// The name of the queen on row `i`: `q` followed by `i` in decimal.
pub open spec fn queen_name(i: nat) -> Seq<char> {
    seq!['q'] + decimal(i)
}

/// The values `0, 1, ..., hi - 1` (none when `hi <= 0`).
pub open spec fn value_range(hi: i32) -> Seq<i32> {
    Seq::new(if hi > 0 { hi as nat } else { 0 }, |j: int| j as i32)
}

/// The constraints of row `i` against every later row `j < n`, in order of `j`.
pub open spec fn queen_row_pairs(i: nat, n: nat) -> Seq<(Seq<char>, Seq<char>, usize)> {
    Seq::new(if i < n { (n - i - 1) as nat } else { 0 }, |k: int| (queen_name(i), queen_name((i + 1 + k) as nat), 1usize))
}

/// The constraints of the rows before `m`, row after row.
pub open spec fn queen_pairs(m: nat, n: nat) -> Seq<(Seq<char>, Seq<char>, usize)>
    decreases m,
{
    if m == 0 {
        seq![]
    } else {
        queen_pairs((m - 1) as nat, n) + queen_row_pairs((m - 1) as nat, n)
    }
}

/// Whether `csp` is the n-queens CSP (see `CSP::n_queens`).
pub open spec fn is_n_queens(csp: CSP, n: nat) -> bool {
    &&& texts(csp.variables@) == Seq::new(n, |i: int| queen_name(i as nat))
    &&& csp.domains@.len() == n
    &&& forall|i: int| 0 <= i < n ==> (#[trigger] csp.domains@[i])@ == value_range(n as i32)
    &&& pair_view(csp.constraint_pairs@) == queen_pairs(n, n)
    &&& texts(csp.predicate_descriptions@) == seq!["a != b"@, "not same row or diagonal"@]
}

/// Whether `dst` is `src` with every constraint turned into an inequality:
/// same variables and domains, each pair with predicate 0, described `a != b`.
pub open spec fn is_inequality_form(src: CSP, dst: CSP) -> bool {
    &&& texts(dst.variables@) == texts(src.variables@)
    &&& dst.domains@.len() == src.domains@.len()
    &&& forall|i: int| 0 <= i < src.domains@.len() ==> (#[trigger] dst.domains@[i])@ == src.domains@[i]@
    &&& pair_view(dst.constraint_pairs@) == Seq::new(
        src.constraint_pairs@.len(),
        |k: int| (src.constraint_pairs@[k].0@, src.constraint_pairs@[k].1@, 0usize),
    )
    &&& texts(dst.predicate_descriptions@) == seq!["a != b"@]
}

/// Constraint pairs as plain values.
pub open spec fn pair_view(ps: Seq<(String, String, usize)>) -> Seq<(Seq<char>, Seq<char>, usize)> {
    ps.map_values(|p: (String, String, usize)| (p.0@, p.1@, p.2))
}

/// The relation a predicate description stands for when predicates are built.
pub open spec fn predicate_relation(d: Seq<char>) -> Relation {
    if has_substring(d, "!="@) {
        Relation::NotEqual
    } else if has_substring(d, "<"@) && !has_substring(d, "<="@) {
        Relation::Less
    } else if has_substring(d, "<="@) {
        Relation::LessOrEqual
    } else if has_substring(d, ">"@) && !has_substring(d, ">="@) {
        Relation::Greater
    } else if has_substring(d, ">="@) {
        Relation::GreaterOrEqual
    } else {
        Relation::NotEqual
    }
}

/// The relation of a predicate description is decided by the operator text
/// it contains, whatever surrounds it: `!=` gives inequality; otherwise `<`
/// without `<=` gives less-than and `<=` at-most; otherwise `>` without `>=`
/// gives greater-than and `>=` at-least; a description with none of `!=`,
/// `<` and `>` gives inequality.
pub proof fn lemma_description_operator(d: Seq<char>)
    ensures
        has_substring(d, "!="@) ==> predicate_relation(d) == Relation::NotEqual,
        !has_substring(d, "!="@) && has_substring(d, "<"@) && !has_substring(d, "<="@) ==> predicate_relation(d)
            == Relation::Less,
        !has_substring(d, "!="@) && has_substring(d, "<="@) ==> predicate_relation(d) == Relation::LessOrEqual,
        !has_substring(d, "!="@) && !has_substring(d, "<"@) && has_substring(d, ">"@) && !has_substring(d, ">="@)
            ==> predicate_relation(d) == Relation::Greater,
        !has_substring(d, "!="@) && !has_substring(d, "<"@) && has_substring(d, ">="@) ==> predicate_relation(d)
            == Relation::GreaterOrEqual,
        !has_substring(d, "!="@) && !has_substring(d, "<"@) && !has_substring(d, ">"@) ==> predicate_relation(d)
            == Relation::NotEqual,
{
    lemma_two_char_operator(d, "<="@, "<"@);
    lemma_two_char_operator(d, ">="@, ">"@);
}

/// A text that contains a two-character operator contains its first character.
proof fn lemma_two_char_operator(d: Seq<char>, op: Seq<char>, first: Seq<char>)
    requires
        (op == "<="@ && first == "<"@) || (op == ">="@ && first == ">"@),
    ensures
        has_substring(d, op) ==> has_substring(d, first),
{
    reveal_strlit("<=");
    reveal_strlit("<");
    reveal_strlit(">=");
    reveal_strlit(">");
    if has_substring(d, op) {
        let i = choose|i: int| 0 <= i && i + op.len() <= d.len() && #[trigger] d.subrange(i, i + op.len()) == op;
        assert(d.subrange(i, i + 1) =~= first) by {
            assert(d.subrange(i, i + op.len())[0] == op[0]);
        }
    }
}

/// The constraints that seeding and fermenting a CSP applies: each pair
/// with the relation of the predicate it names.
pub open spec fn ferment_constraints_of(csp: &CSP) -> Seq<(Seq<char>, Seq<char>, Relation)> {
    Seq::new(
        csp.constraint_pairs@.len(),
        |k: int|
            (
                csp.constraint_pairs@[k].0@,
                csp.constraint_pairs@[k].1@,
                predicate_relation(csp.predicate_descriptions@[csp.constraint_pairs@[k].2 as int]@),
            ),
    )
}

/// The number of values of `da` that also occur in `db`.
pub open spec fn shared_count(da: Seq<i32>, db: Seq<i32>) -> nat {
    da.filter(|v: i32| db.contains(v)).len()
}

/// The position of variable `name`, or 0 when no variable has that name.
pub open spec fn position_or_first(vars: Seq<Seq<char>>, name: Seq<char>) -> int {
    match index_of(vars, name) {
        Some(i) => i,
        None => 0,
    }
}

/// Whether `cs` are the cultures seeded from `csp`: variables and domains
/// paired in order, as many as both have.
pub open spec fn seeded_culture_ok(csp: &CSP, cs: Seq<Culture>) -> bool {
    &&& cs.len() == if csp.variables@.len() <= csp.domains@.len() { csp.variables@.len() } else { csp.domains@.len() }
    &&& forall|i: int| 0 <= i < cs.len() ==> (#[trigger] cs[i]).id@ == csp.variables@[i]@ && cs[i].domain@ == csp.domains@[i]@
}

impl CSP {
    /// A CSP with the given variables, domains, constraints and predicate
    /// descriptions. Each variable needs a domain.
    pub fn new(
        variables: Vec<String>,
        domains: Vec<Vec<i32>>,
        constraint_pairs: Vec<(String, String, usize)>,
        predicate_descriptions: Vec<String>,
    ) -> (csp: CSP)
        requires
            variables@.len() == domains@.len(),
        ensures
            csp.variables@ == variables@,
            csp.domains@ == domains@,
            csp.constraint_pairs@ == constraint_pairs@,
            csp.predicate_descriptions@ == predicate_descriptions@,
    {
        CSP { variables, domains, constraint_pairs, predicate_descriptions }
    }

    /// A CSP whose constraints are all inequalities (graph colouring):
    /// every edge becomes a constraint with predicate 0, described `a != b`.
    pub fn inequality_csp(
        variables: Vec<String>,
        domains: Vec<Vec<i32>>,
        edges: Vec<(String, String)>,
    ) -> (csp: CSP)
        ensures
            csp.variables@ == variables@,
            csp.domains@ == domains@,
            csp.constraint_pairs@.len() == edges@.len(),
            forall|k: int|
                0 <= k < edges@.len() ==> (#[trigger] csp.constraint_pairs@[k]).0 == edges@[k].0
                    && csp.constraint_pairs@[k].1 == edges@[k].1 && csp.constraint_pairs@[k].2 == 0,
            csp.predicate_descriptions@.len() == 1,
            csp.predicate_descriptions@[0]@ == "a != b"@,
    {
        let mut pairs: Vec<(String, String, usize)> = Vec::new();
        let mut k: usize = 0;
        while k < edges.len()
            invariant
                k <= edges@.len(),
                pairs@.len() == k,
                forall|j: int|
                    0 <= j < k ==> (#[trigger] pairs@[j]).0 == edges@[j].0 && pairs@[j].1 == edges@[j].1
                        && pairs@[j].2 == 0,
            decreases edges@.len() - k,
        {
            pairs.push((edges[k].0.clone(), edges[k].1.clone(), 0));
            k = k + 1;
        }
        let mut descriptions: Vec<String> = Vec::new();
        descriptions.push(String::from_str("a != b"));
        CSP { variables, domains, constraint_pairs: pairs, predicate_descriptions: descriptions }
    }

    /// The n-queens CSP: variables `q0 .. q{n-1}`, each with domain
    /// `0 .. n`, and one constraint with predicate 1 for every pair of rows
    /// `i < j`, in order of `i` then `j`.
    pub fn n_queens(n: usize) -> (csp: CSP)
        ensures
            is_n_queens(csp, n as nat),
    {
        let mut vars: Vec<String> = Vec::new();
        let mut i: usize = 0;
        while i < n
            invariant
                i <= n,
                vars@.len() == i,
                texts(vars@) == Seq::new(i as nat, |j: int| queen_name(j as nat)),
            decreases n - i,
        {
            let ghost before = vars@;
            vars.push(queen_name_string(i));
            proof {
                assert forall|j: int| 0 <= j < i implies vars@[j]@ == queen_name(j as nat) by {
                    assert(vars@[j] == before[j]);
                    assert(texts(before)[j] == queen_name(j as nat));
                }
                assert(texts(vars@) =~= Seq::new((i + 1) as nat, |j: int| queen_name(j as nat)));
            }
            i = i + 1;
        }
        let hi: i32 = n as i32;
        let mut domains: Vec<Vec<i32>> = Vec::new();
        let mut i: usize = 0;
        while i < n
            invariant
                i <= n,
                hi == n as i32,
                domains@.len() == i,
                forall|j: int| 0 <= j < i ==> (#[trigger] domains@[j])@ == value_range(hi),
            decreases n - i,
        {
            let mut d: Vec<i32> = Vec::new();
            let mut v: i32 = 0;
            while v < hi
                invariant
                    0 <= v,
                    hi > 0 ==> v <= hi,
                    hi <= 0 ==> v == 0,
                    d@ == Seq::new(v as nat, |j: int| j as i32),
                decreases hi - v,
            {
                d.push(v);
                proof {
                    assert(d@ =~= Seq::new((v + 1) as nat, |j: int| j as i32));
                }
                v = v + 1;
            }
            proof {
                assert(d@ =~= value_range(hi));
            }
            domains.push(d);
            i = i + 1;
        }
        let mut pairs: Vec<(String, String, usize)> = Vec::new();
        let mut i: usize = 0;
        while i < n
            invariant
                i <= n,
                pair_view(pairs@) == queen_pairs(i as nat, n as nat),
            decreases n - i,
        {
            let mut j: usize = i + 1;
            while j < n
                invariant
                    i < n,
                    i + 1 <= j <= n,
                    pair_view(pairs@) == queen_pairs(i as nat, n as nat) + queen_row_pairs(i as nat, n as nat).take(j - i - 1),
                decreases n - j,
            {
                let ghost before = pair_view(pairs@);
                pairs.push((queen_name_string(i), queen_name_string(j), 1));
                proof {
                    assert(queen_row_pairs(i as nat, n as nat).take(j - i) =~= queen_row_pairs(i as nat, n as nat).take(j - i - 1).push(
                        (queen_name(i as nat), queen_name(j as nat), 1usize),
                    ));
                    assert(pair_view(pairs@) =~= before.push((queen_name(i as nat), queen_name(j as nat), 1usize)));
                }
                j = j + 1;
            }
            proof {
                assert(queen_row_pairs(i as nat, n as nat).take(n - i - 1) =~= queen_row_pairs(i as nat, n as nat));
            }
            i = i + 1;
        }
        let mut descriptions: Vec<String> = Vec::new();
        descriptions.push(String::from_str("a != b"));
        descriptions.push(String::from_str("not same row or diagonal"));
        proof {
            assert(texts(descriptions@) =~= seq!["a != b"@, "not same row or diagonal"@]);
        }
        CSP { variables: vars, domains, constraint_pairs: pairs, predicate_descriptions: descriptions }
    }

    /// Number of variables.
    pub fn num_variables(&self) -> (n: usize)
        ensures
            n == self.variables@.len(),
    {
        self.variables.len()
    }

    /// Number of constraints.
    pub fn num_constraints(&self) -> (n: usize)
        ensures
            n == self.constraint_pairs@.len(),
    {
        self.constraint_pairs.len()
    }
}

/// The name of the queen on row `i`.
fn queen_name_string(i: usize) -> (s: String)
    ensures
        s@ == queen_name(i as nat),
{
    let mut s = String::from_str("q");
    proof {
        reveal_strlit("q");
    }
    push_decimal(&mut s, i);
    s
}

/// Finds the first variable named `name`.
fn find_variable(vars: &Vec<String>, name: &str) -> (r: Option<usize>)
    ensures
        match r {
            Some(i) => index_of(texts(vars@), name@) == Some(i as int),
            None => index_of(texts(vars@), name@) is None,
        },
{
    let ghost ts = texts(vars@);
    let mut i: usize = 0;
    while i < vars.len()
        invariant
            i <= vars@.len(),
            ts == texts(vars@),
            crate::consortium::first_index_from(ts, name@, 0) == crate::consortium::first_index_from(ts, name@, i as int),
        decreases vars@.len() - i,
    {
        if same_text(vars[i].as_str(), name) {
            assert(ts[i as int] == name@);
            return Some(i);
        }
        i = i + 1;
    }
    None
}

/// The relation a predicate description stands for when predicates are built.
pub(crate) fn description_relation(d: &str) -> (r: Relation)
    ensures
        r == predicate_relation(d@),
{
    if str_contains(d, "!=") {
        Relation::NotEqual
    } else if str_contains(d, "<") && !str_contains(d, "<=") {
        Relation::Less
    } else if str_contains(d, "<=") {
        Relation::LessOrEqual
    } else if str_contains(d, ">") && !str_contains(d, ">=") {
        Relation::Greater
    } else if str_contains(d, ">=") {
        Relation::GreaterOrEqual
    } else {
        Relation::NotEqual
    }
}

/// Seeds a consortium from a CSP specification.
pub struct Starter;

impl Starter {
    /// A consortium from a CSP: one culture per variable (with its domain,
    /// pairing variables and domains in order) and one interaction per
    /// constraint pair, before any fermentation.
    pub fn seed(csp: &CSP) -> (c: Consortium)
        ensures
            seeded_culture_ok(csp, c.cultures@),
            c.interactions@.len() == csp.constraint_pairs@.len(),
            forall|k: int|
                0 <= k < c.interactions@.len() ==> (#[trigger] c.interactions@[k]).a@
                    == csp.constraint_pairs@[k].0@ && c.interactions@[k].b@ == csp.constraint_pairs@[k].1@,
            c.iteration == 0,
    {
        let mut cultures: Vec<Culture> = Vec::new();
        let mut i: usize = 0;
        while i < csp.variables.len() && i < csp.domains.len()
            invariant
                i <= csp.variables@.len(),
                i <= csp.domains@.len(),
                cultures@.len() == i,
                forall|j: int|
                    0 <= j < i ==> (#[trigger] cultures@[j]).id@ == csp.variables@[j]@
                        && cultures@[j].domain@ == csp.domains@[j]@,
            decreases csp.variables@.len() - i,
        {
            cultures.push(Culture { id: csp.variables[i].clone(), domain: csp.domains[i].clone() });
            i = i + 1;
        }
        let mut interactions: Vec<Interaction> = Vec::new();
        let mut k: usize = 0;
        while k < csp.constraint_pairs.len()
            invariant
                k <= csp.constraint_pairs@.len(),
                interactions@.len() == k,
                forall|j: int|
                    0 <= j < k ==> (#[trigger] interactions@[j]).a@ == csp.constraint_pairs@[j].0@
                        && interactions@[j].b@ == csp.constraint_pairs@[j].1@,
            decreases csp.constraint_pairs@.len() - k,
        {
            let p = &csp.constraint_pairs[k];
            interactions.push(Interaction { a: p.0.clone(), b: p.1.clone() });
            k = k + 1;
        }
        Consortium::new(cultures, interactions)
    }

    /// The overlap between the domains of the variables `a` and `b`, from
    /// which an interaction's strength is derived: each name is looked up
    /// as the first variable with that name (the first variable when none
    /// has it); `None` when either position has no domain, otherwise how
    /// many values of `a`'s domain occur in `b`'s, and the two domain sizes.
    pub fn overlap(csp: &CSP, a: &str, b: &str) -> (r: Option<(usize, usize, usize)>)
        ensures
            ({
                let ia = position_or_first(texts(csp.variables@), a@);
                let ib = position_or_first(texts(csp.variables@), b@);
                if ia < csp.domains@.len() && ib < csp.domains@.len() {
                    r == Some(
                        (
                            shared_count(csp.domains@[ia]@, csp.domains@[ib]@) as usize,
                            csp.domains@[ia]@.len() as usize,
                            csp.domains@[ib]@.len() as usize,
                        ),
                    )
                } else {
                    r is None
                }
            }),
    {
        let ia = match find_variable(&csp.variables, a) {
            Some(i) => i,
            None => 0,
        };
        let ib = match find_variable(&csp.variables, b) {
            Some(i) => i,
            None => 0,
        };
        if ia >= csp.domains.len() || ib >= csp.domains.len() {
            return None;
        }
        let da = &csp.domains[ia];
        let db = &csp.domains[ib];
        let ghost pred = |v: i32| db@.contains(v);
        let mut shared: usize = 0;
        let mut k: usize = 0;
        while k < da.len()
            invariant
                k <= da@.len(),
                pred == (|v: i32| db@.contains(v)),
                shared == da@.take(k as int).filter(pred).len(),
                shared <= k,
            decreases da@.len() - k,
        {
            let v = da[k];
            proof {
                reveal(Seq::filter);
                assert(da@.take(k + 1).drop_last() =~= da@.take(k as int));
                assert(da@.take(k + 1).last() == v);
            }
            let mut found = false;
            let mut t: usize = 0;
            while t < db.len()
                invariant
                    t <= db@.len(),
                    found == (exists|u: int| 0 <= u < t && db@[u] == v),
                decreases db@.len() - t,
            {
                if db[t] == v {
                    found = true;
                }
                t = t + 1;
            }
            if found {
                shared = shared + 1;
            }
            k = k + 1;
        }
        proof {
            assert(da@.take(da@.len() as int) =~= da@);
        }
        Some((shared, da.len(), db.len()))
    }

    /// The relation of each predicate description, in order: `!=` gives
    /// inequality; otherwise `<` (without `<=`) gives less-than, `<=` gives
    /// at-most, `>` (without `>=`) greater-than, `>=` at-least; anything
    /// else, diagonals included, inequality.
    pub fn build_predicates(csp: &CSP) -> (r: Vec<Relation>)
        ensures
            r@.len() == csp.predicate_descriptions@.len(),
            forall|i: int|
                0 <= i < r@.len() ==> #[trigger] r@[i] == predicate_relation(
                    csp.predicate_descriptions@[i]@,
                ),
    {
        let mut r: Vec<Relation> = Vec::new();
        let mut i: usize = 0;
        while i < csp.predicate_descriptions.len()
            invariant
                i <= csp.predicate_descriptions@.len(),
                r@.len() == i,
                forall|j: int| 0 <= j < i ==> #[trigger] r@[j] == predicate_relation(csp.predicate_descriptions@[j]@),
            decreases csp.predicate_descriptions@.len() - i,
        {
            r.push(description_relation(csp.predicate_descriptions[i].as_str()));
            i = i + 1;
        }
        r
    }

    /// The constraints that seeding and fermenting applies: each pair with
    /// the relation of the predicate it names, as `build_predicates` builds it.
    pub fn ferment_constraints(csp: &CSP) -> (r: Vec<(String, String, Relation)>)
        requires
            forall|k: int|
                0 <= k < csp.constraint_pairs@.len() ==> (#[trigger] csp.constraint_pairs@[k]).2
                    < csp.predicate_descriptions@.len(),
        ensures
            relation_text(r@) == ferment_constraints_of(csp),
    {
        let mut r: Vec<(String, String, Relation)> = Vec::new();
        let mut k: usize = 0;
        while k < csp.constraint_pairs.len()
            invariant
                k <= csp.constraint_pairs@.len(),
                forall|q: int|
                    0 <= q < csp.constraint_pairs@.len() ==> (#[trigger] csp.constraint_pairs@[q]).2
                        < csp.predicate_descriptions@.len(),
                relation_text(r@) == ferment_constraints_of(csp).take(k as int),
            decreases csp.constraint_pairs@.len() - k,
        {
            let p = &csp.constraint_pairs[k];
            let d = csp.predicate_descriptions[p.2].as_str();
            let rel = description_relation(d);
            let ghost before = relation_text(r@);
            r.push((p.0.clone(), p.1.clone(), rel));
            proof {
                assert(relation_text(r@) =~= before.push(ferment_constraints_of(csp)[k as int]));
                assert(ferment_constraints_of(csp).take(k + 1) =~= ferment_constraints_of(csp).take(k as int).push(
                    ferment_constraints_of(csp)[k as int],
                ));
            }
            k = k + 1;
        }
        proof {
            assert(ferment_constraints_of(csp).take(k as int) =~= ferment_constraints_of(csp));
        }
        r
    }

    /// Seed a consortium from a CSP and ferment it until convergence or
    /// `max_iterations` rounds, under `ferment_constraints`. Every constraint
    /// must name an existing predicate.
    pub fn seed_and_ferment(csp: &CSP, max_iterations: usize) -> (c: Consortium)
        requires
            forall|k: int|
                0 <= k < csp.constraint_pairs@.len() ==> (#[trigger] csp.constraint_pairs@[k]).2
                    < csp.predicate_descriptions@.len(),
            total_size(texts_domains(csp)) <= usize::MAX,
        ensures
            (c.domains(), c.iteration as int) == run(
                seed_ids(csp),
                c.interactions@,
                relation_fns(ferment_constraints_of(csp)),
                seed_domains(csp),
                0,
                max_iterations as nat,
            ),
            c.ids() == seed_ids(csp),
            c.interactions@.len() == csp.constraint_pairs@.len(),
            forall|k: int|
                0 <= k < c.interactions@.len() ==> (#[trigger] c.interactions@[k]).a@
                    == csp.constraint_pairs@[k].0@ && c.interactions@[k].b@ == csp.constraint_pairs@[k].1@,
    {
        let mut consortium = Self::seed(csp);
        let constraints = Self::ferment_constraints(csp);
        proof {
            assert(consortium.domains() =~= seed_domains(csp));
            assert(consortium.ids() =~= seed_ids(csp));
            lemma_total_size_prefix_domains(csp);
            lemma_relation_text(constraints@);
        }
        consortium.ferment_until_converged_with(constraints.as_slice(), max_iterations);
        consortium
    }
}

/// The domains of a CSP's variables, as plain values.
pub open spec fn texts_domains(csp: &CSP) -> Seq<Seq<i32>> {
    Seq::new(csp.domains@.len(), |i: int| csp.domains@[i]@)
}

/// The number of cultures a seed has: one per variable that has a domain.
pub open spec fn seed_len(csp: &CSP) -> nat {
    if csp.variables@.len() <= csp.domains@.len() {
        csp.variables@.len()
    } else {
        csp.domains@.len()
    }
}

/// The ids of a seeded consortium.
pub open spec fn seed_ids(csp: &CSP) -> Seq<Seq<char>> {
    Seq::new(seed_len(csp), |i: int| csp.variables@[i]@)
}

/// The domains of a seeded consortium.
pub open spec fn seed_domains(csp: &CSP) -> Seq<Seq<i32>> {
    Seq::new(seed_len(csp), |i: int| csp.domains@[i]@)
}

pub proof fn lemma_total_size_prefix_domains(csp: &CSP)
    ensures
        total_size(seed_domains(csp)) <= total_size(texts_domains(csp)),
{
    crate::consortium::lemma_total_size_prefix(texts_domains(csp), seed_len(csp) as int);
    assert(texts_domains(csp).take(seed_len(csp) as int) =~= seed_domains(csp));
}

/// The first `m` rows of n-queens hold `m * (2n - m - 1) / 2` constraints;
/// all `n` rows hold `n * (n - 1) / 2`, one per pair of rows.
pub proof fn lemma_queen_pairs_len(m: nat, n: nat)
    requires
        m <= n,
    ensures
        2 * queen_pairs(m, n).len() == m * (2 * n - m - 1),
        m == n ==> 2 * queen_pairs(m, n).len() == n * (n - 1),
    decreases m,
{
    if m > 0 {
        lemma_queen_pairs_len((m - 1) as nat, n);
        let k = (m - 1) as nat;
        assert(queen_row_pairs(k, n).len() == n - k - 1);
        assert(2 * queen_pairs(m, n).len() == k * (2 * n - k - 1) + 2 * (n - k - 1));
        assert(k * (2 * n - k - 1) + 2 * (n - k - 1) == m * (2 * n - m - 1)) by (nonlinear_arith)
            requires
                k + 1 == m,
                m <= n,
        ;
    } else {
        assert(0 * (2 * n - 0 - 1) == 0) by (nonlinear_arith);
    }
    if m == n {
        assert(n * (2 * n - n - 1) == n * (n - 1)) by (nonlinear_arith);
    }
}

} // verus!
