//! A consortium of cultures linked by interactions, and mutualistic AC-3
//! fermentation over their domains.
use vstd::prelude::*;
use crate::culture::{Culture, revise, revise_domain, supported};
use crate::relation::{Constraint, Relation, callable, relation_of};
use crate::text::same_text;
use crate::fermentation::{shrinks, arc_consistent, lemma_step_shrinks, lemma_run, lemma_unsettled_total};

verus! {

/// An interaction between two cultures: a binary constraint seen as a
/// shared resource.
#[derive(Debug, Clone)]
pub struct Interaction {
    pub a: String,
    pub b: String,
}

impl Interaction {
    /// An interaction between the cultures `a` and `b`.
    pub fn new(a: &str, b: &str) -> (i: Interaction)
        ensures
            i.a@ == a@,
            i.b@ == b@,
    {
        Interaction { a: String::from_str(a), b: String::from_str(b) }
    }

    /// Whether the culture `id` takes part in this interaction.
    pub fn involves(&self, id: &str) -> (r: bool)
        ensures
            r == involves_id(*self, id@),
    {
        same_text(self.a.as_str(), id) || same_text(self.b.as_str(), id)
    }

    /// The other culture of the interaction, seen from `id`.
    pub fn partner(&self, id: &str) -> (r: Option<&str>)
        ensures
            self.a@ == id@ ==> (r matches Some(p) && p@ == self.b@),
            self.a@ != id@ && self.b@ == id@ ==> (r matches Some(p) && p@ == self.a@),
            !involves_id(*self, id@) ==> r is None,
    {
        if same_text(self.a.as_str(), id) {
            Some(self.b.as_str())
        } else if same_text(self.b.as_str(), id) {
            Some(self.a.as_str())
        } else {
            None
        }
    }
}

/// Whether the culture `id` takes part in `inter`.
pub open spec fn involves_id(inter: Interaction, id: Seq<char>) -> bool {
    inter.a@ == id || inter.b@ == id
}

/// The other culture of `inter`, seen from `id`.
pub open spec fn partner_of(inter: Interaction, id: Seq<char>) -> Seq<char> {
    if inter.a@ == id {
        inter.b@
    } else {
        inter.a@
    }
}

/// The ids of a sequence of cultures.
pub open spec fn ids_of(cs: Seq<Culture>) -> Seq<Seq<char>> {
    Seq::new(cs.len(), |i: int| cs[i].id@)
}

/// The domains of a sequence of cultures.
pub open spec fn domains_of(cs: Seq<Culture>) -> Seq<Seq<i32>> {
    Seq::new(cs.len(), |i: int| cs[i].domain@)
}

/// The first position at or after `k` whose id is `id`.
pub open spec fn first_index_from(ids: Seq<Seq<char>>, id: Seq<char>, k: int) -> Option<int>
    decreases ids.len() - k,
{
    if k < 0 || k >= ids.len() {
        None
    } else if ids[k] == id {
        Some(k)
    } else {
        first_index_from(ids, id, k + 1)
    }
}

/// The first position whose id is `id`: the culture that a lookup by id finds.
pub open spec fn index_of(ids: Seq<Seq<char>>, id: Seq<char>) -> Option<int> {
    first_index_from(ids, id, 0)
}

/// The total number of values over all domains.
pub open spec fn total_size(ds: Seq<Seq<i32>>) -> nat
    decreases ds.len(),
{
    if ds.len() == 0 {
        0
    } else {
        total_size(ds.drop_last()) + ds.last().len()
    }
}

/// The prune tasks that the constraints of `cs` stored under the key
/// `(x, y)` ask of culture `ix` against its partner `iy`: a task
/// `(ix, iy, r, forward)` keeps the values of `ix` that have a partner in the
/// domain of `iy` under `r`. A constraint `(p, q, r)` is stored under
/// `(p, q)` and again under `(q, p)`, and always applies `r` with the value
/// of `ix` first when `forward`.
pub open spec fn key_tasks(
    cs: Seq<(Seq<char>, Seq<char>, spec_fn(i32, i32) -> bool)>,
    x: Seq<char>,
    y: Seq<char>,
    ix: int,
    iy: int,
    forward: bool,
) -> Seq<(int, int, spec_fn(i32, i32) -> bool, bool)>
    decreases cs.len(),
{
    if cs.len() == 0 {
        seq![]
    } else {
        let c = cs.last();
        let t = (ix, iy, c.2, forward);
        key_tasks(cs.drop_last(), x, y, ix, iy, forward) + (if c.0 == x && c.1 == y {
            seq![t]
        } else {
            seq![]
        }) + (if c.1 == x && c.0 == y {
            seq![t]
        } else {
            seq![]
        })
    }
}

/// The prune tasks of one interaction: first culture `a` against `b`, then
/// `b` against `a`; none unless both cultures exist.
pub open spec fn interaction_tasks(
    ids: Seq<Seq<char>>,
    cs: Seq<(Seq<char>, Seq<char>, spec_fn(i32, i32) -> bool)>,
    inter: Interaction,
) -> Seq<(int, int, spec_fn(i32, i32) -> bool, bool)> {
    match (index_of(ids, inter.a@), index_of(ids, inter.b@)) {
        (Some(ia), Some(ib)) => key_tasks(cs, inter.a@, inter.b@, ia, ib, true) + key_tasks(
            cs,
            inter.b@,
            inter.a@,
            ib,
            ia,
            false,
        ),
        _ => seq![],
    }
}

/// All prune tasks of one fermentation round, in the order of the interactions.
pub open spec fn all_tasks(
    ids: Seq<Seq<char>>,
    cs: Seq<(Seq<char>, Seq<char>, spec_fn(i32, i32) -> bool)>,
    inters: Seq<Interaction>,
) -> Seq<(int, int, spec_fn(i32, i32) -> bool, bool)>
    decreases inters.len(),
{
    if inters.len() == 0 {
        seq![]
    } else {
        all_tasks(ids, cs, inters.drop_last()) + interaction_tasks(ids, cs, inters.last())
    }
}

/// One prune task: the culture's current domain keeps the values that have
/// a partner in the partner's domain as it was at the start of the round.
pub open spec fn apply_task(
    start: Seq<Seq<i32>>,
    d: Seq<Seq<i32>>,
    t: (int, int, spec_fn(i32, i32) -> bool, bool),
) -> Seq<Seq<i32>> {
    d.update(t.0, revise(d[t.0], start[t.1], t.2, t.3))
}

/// Prune tasks applied in order, each to the domains the earlier ones left.
pub open spec fn apply_tasks(
    start: Seq<Seq<i32>>,
    d: Seq<Seq<i32>>,
    ts: Seq<(int, int, spec_fn(i32, i32) -> bool, bool)>,
) -> Seq<Seq<i32>>
    decreases ts.len(),
{
    if ts.len() == 0 {
        d
    } else {
        apply_tasks(start, apply_task(start, d, ts[0]), ts.drop_first())
    }
}

/// The domains after one round of mutualistic AC-3 fermentation: every
/// culture is pruned against every constraint of every interaction it takes
/// part in, its partners' domains taken as they were when the round began.
pub open spec fn step_domains(
    ids: Seq<Seq<char>>,
    ds: Seq<Seq<i32>>,
    inters: Seq<Interaction>,
    cs: Seq<(Seq<char>, Seq<char>, spec_fn(i32, i32) -> bool)>,
) -> Seq<Seq<i32>> {
    apply_tasks(ds, ds, all_tasks(ids, cs, inters))
}

/// Whether every domain holds at most one value.
pub open spec fn all_settled(ds: Seq<Seq<i32>>) -> bool {
    forall|i: int| 0 <= i < ds.len() ==> #[trigger] ds[i].len() <= 1
}

/// Whether some domain is empty.
pub open spec fn some_dead(ds: Seq<Seq<i32>>) -> bool {
    exists|i: int| 0 <= i < ds.len() && #[trigger] ds[i].len() == 0
}

/// Fermentation until convergence, as the domains and the iteration counter
/// it ends with: before each round it stops when every domain is settled or
/// some domain is empty; after a round that pruned nothing it stops once the
/// counter exceeds one; it runs at most `fuel` rounds.
pub open spec fn run(
    ids: Seq<Seq<char>>,
    inters: Seq<Interaction>,
    cs: Seq<(Seq<char>, Seq<char>, spec_fn(i32, i32) -> bool)>,
    ds: Seq<Seq<i32>>,
    it: int,
    fuel: nat,
) -> (Seq<Seq<i32>>, int)
    decreases fuel,
{
    if fuel == 0 || all_settled(ds) || some_dead(ds) {
        (ds, it)
    } else {
        let nd = step_domains(ids, ds, inters, cs);
        if total_size(nd) == total_size(ds) && it + 1 > 1 {
            (nd, it + 1)
        } else {
            run(ids, inters, cs, nd, it + 1, (fuel - 1) as nat)
        }
    }
}

/// The number of interactions of `inters` that involve `id`.
pub open spec fn involving_count(inters: Seq<Interaction>, id: Seq<char>) -> nat
    decreases inters.len(),
{
    if inters.len() == 0 {
        0
    } else {
        involving_count(inters.drop_last(), id) + if involves_id(inters.last(), id) {
            1nat
        } else {
            0nat
        }
    }
}

/// Whether `inter` counts as satisfied for the culture `id` whose domain
/// has `own_len` values: its partner exists and both domains are non-empty.
pub open spec fn satisfied_by(
    ids: Seq<Seq<char>>,
    ds: Seq<Seq<i32>>,
    inter: Interaction,
    id: Seq<char>,
    own_len: nat,
) -> bool {
    involves_id(inter, id) && match index_of(ids, partner_of(inter, id)) {
        Some(p) => own_len > 0 && ds[p].len() > 0,
        None => false,
    }
}

/// The number of interactions of `inters` that count as satisfied for `id`.
pub open spec fn satisfied_count(
    ids: Seq<Seq<char>>,
    ds: Seq<Seq<i32>>,
    inters: Seq<Interaction>,
    id: Seq<char>,
    own_len: nat,
) -> nat
    decreases inters.len(),
{
    if inters.len() == 0 {
        0
    } else {
        satisfied_count(ids, ds, inters.drop_last(), id, own_len) + if satisfied_by(
            ids,
            ds,
            inters.last(),
            id,
            own_len,
        ) {
            1nat
        } else {
            0nat
        }
    }
}

/// Prune tasks as plain values, each with the relation of its constraint.
pub open spec fn task_view<C: Constraint>(ts: Seq<(usize, usize, &C, bool)>) -> Seq<(int, int, spec_fn(i32, i32) -> bool, bool)> {
    ts.map_values(|t: (usize, usize, &C, bool)| (t.0 as int, t.1 as int, relation_of(*t.2), t.3))
}

/// Constraints with their variable names as plain values and each
/// constraint as the relation it stands for.
pub open spec fn constraint_text<C: Constraint>(cs: Seq<(String, String, C)>) -> Seq<(Seq<char>, Seq<char>, spec_fn(i32, i32) -> bool)> {
    cs.map_values(|c: (String, String, C)| (c.0@, c.1@, relation_of(c.2)))
}

/// Constraints given by named relations, with their variable names as plain values.
pub open spec fn relation_text(cs: Seq<(String, String, Relation)>) -> Seq<(Seq<char>, Seq<char>, Relation)> {
    cs.map_values(|c: (String, String, Relation)| (c.0@, c.1@, c.2))
}

/// Named-relation constraints with each relation as the predicate it stands for.
pub open spec fn relation_fns(cs: Seq<(Seq<char>, Seq<char>, Relation)>) -> Seq<(Seq<char>, Seq<char>, spec_fn(i32, i32) -> bool)> {
    cs.map_values(|c: (Seq<char>, Seq<char>, Relation)| (c.0, c.1, relation_of(c.2)))
}

/// Fermenting with named relations is fermenting with the predicates they stand for.
pub proof fn lemma_relation_text(cs: Seq<(String, String, Relation)>)
    ensures
        constraint_text(cs) == relation_fns(relation_text(cs)),
{
    assert(constraint_text(cs) =~= relation_fns(relation_text(cs)));
}

/// Whether every constraint of `cs` can be evaluated (see `Constraint::admissible`).
pub open spec fn all_admissible<C: Constraint>(cs: Seq<(String, String, C)>) -> bool {
    forall|k: int| 0 <= k < cs.len() ==> (#[trigger] cs[k]).2.admissible()
}

/// Whether every constraint closure of `cs` is `callable`.
pub open spec fn all_callable<F: Fn(i32, i32) -> bool>(cs: Seq<(String, String, F)>) -> bool {
    forall|k: int| 0 <= k < cs.len() ==> callable(#[trigger] cs[k].2)
}

/// Multiple cultures coexisting. Resource competition drives arc consistency.
#[derive(Debug, Clone)]
pub struct Consortium {
    pub cultures: Vec<Culture>,
    pub interactions: Vec<Interaction>,
    /// Rounds of fermentation performed so far
    pub iteration: usize,
}

proof fn lemma_first_index_from(ids: Seq<Seq<char>>, id: Seq<char>, k: int)
    requires
        0 <= k,
    ensures
        match first_index_from(ids, id, k) {
            Some(i) => k <= i < ids.len() && ids[i] == id && forall|j: int|
                k <= j < i ==> ids[j] != id,
            None => forall|j: int| k <= j < ids.len() ==> ids[j] != id,
        },
    decreases ids.len() - k,
{
    if k < ids.len() && ids[k] != id {
        lemma_first_index_from(ids, id, k + 1);
    }
}

/// What a lookup by id finds: the first culture with that id, if any.
pub proof fn lemma_index_of(ids: Seq<Seq<char>>, id: Seq<char>)
    ensures
        match index_of(ids, id) {
            Some(i) => 0 <= i < ids.len() && ids[i] == id && forall|j: int|
                0 <= j < i ==> ids[j] != id,
            None => forall|j: int| 0 <= j < ids.len() ==> ids[j] != id,
        },
{
    lemma_first_index_from(ids, id, 0);
}

proof fn lemma_total_size_update(ds: Seq<Seq<i32>>, i: int, nd: Seq<i32>)
    requires
        0 <= i < ds.len(),
    ensures
        total_size(ds.update(i, nd)) + ds[i].len() == total_size(ds) + nd.len(),
    decreases ds.len(),
{
    if i < ds.len() - 1 {
        lemma_total_size_update(ds.drop_last(), i, nd);
        assert(ds.update(i, nd).drop_last() =~= ds.drop_last().update(i, nd));
    } else {
        assert(ds.update(i, nd).drop_last() =~= ds.drop_last());
    }
}

/// Every task of `key_tasks` names `ix` and `iy`.
proof fn lemma_key_tasks_index(
    cs: Seq<(Seq<char>, Seq<char>, spec_fn(i32, i32) -> bool)>,
    x: Seq<char>,
    y: Seq<char>,
    ix: int,
    iy: int,
    forward: bool,
)
    ensures
        forall|k: int|
            0 <= k < key_tasks(cs, x, y, ix, iy, forward).len() ==> (#[trigger] key_tasks(
                cs,
                x,
                y,
                ix,
                iy,
                forward,
            )[k]).0 == ix && key_tasks(cs, x, y, ix, iy, forward)[k].1 == iy,
    decreases cs.len(),
{
    if cs.len() > 0 {
        lemma_key_tasks_index(cs.drop_last(), x, y, ix, iy, forward);
        let c = cs.last();
        let t = (ix, iy, c.2, forward);
        let rest = key_tasks(cs.drop_last(), x, y, ix, iy, forward);
        let s1: Seq<(int, int, spec_fn(i32, i32) -> bool, bool)> = if c.0 == x && c.1 == y { seq![t] } else { seq![] };
        let s2: Seq<(int, int, spec_fn(i32, i32) -> bool, bool)> = if c.1 == x && c.0 == y { seq![t] } else { seq![] };
        let all = key_tasks(cs, x, y, ix, iy, forward);
        assert(all == rest + s1 + s2);
        assert forall|k: int| 0 <= k < all.len() implies (#[trigger] all[k]).0 == ix && all[k].1 == iy by {
            if k < rest.len() {
                assert(all[k] == rest[k]);
            } else if k < rest.len() + s1.len() {
                assert(all[k] == s1[k - rest.len()]);
            } else {
                assert(all[k] == s2[k - rest.len() - s1.len()]);
            }
        }
    }
}

/// Every task of a round names two existing cultures.
pub proof fn lemma_all_tasks_index(
    ids: Seq<Seq<char>>,
    cs: Seq<(Seq<char>, Seq<char>, spec_fn(i32, i32) -> bool)>,
    inters: Seq<Interaction>,
)
    ensures
        forall|k: int|
            0 <= k < all_tasks(ids, cs, inters).len() ==> 0 <= (#[trigger] all_tasks(ids, cs, inters)[k]).0
                < ids.len() && 0 <= all_tasks(ids, cs, inters)[k].1 < ids.len(),
    decreases inters.len(),
{
    if inters.len() > 0 {
        lemma_all_tasks_index(ids, cs, inters.drop_last());
        let inter = inters.last();
        lemma_index_of(ids, inter.a@);
        lemma_index_of(ids, inter.b@);
        let rest = all_tasks(ids, cs, inters.drop_last());
        let last = interaction_tasks(ids, cs, inter);
        let all = all_tasks(ids, cs, inters);
        assert(all == rest + last);
        match (index_of(ids, inter.a@), index_of(ids, inter.b@)) {
            (Some(ia), Some(ib)) => {
                lemma_key_tasks_index(cs, inter.a@, inter.b@, ia, ib, true);
                lemma_key_tasks_index(cs, inter.b@, inter.a@, ib, ia, false);
                let ka = key_tasks(cs, inter.a@, inter.b@, ia, ib, true);
                let kb = key_tasks(cs, inter.b@, inter.a@, ib, ia, false);
                assert(last == ka + kb);
                assert forall|k: int| 0 <= k < all.len() implies 0 <= (#[trigger] all[k]).0 < ids.len() && 0
                    <= all[k].1 < ids.len() by {
                    if k < rest.len() {
                        assert(all[k] == rest[k]);
                    } else if k < rest.len() + ka.len() {
                        assert(all[k] == ka[k - rest.len()]);
                    } else {
                        assert(all[k] == kb[k - rest.len() - ka.len()]);
                    }
                }
            },
            _ => {
                assert(all =~= rest);
            },
        }
    }
}

/// Finds the first culture whose id is `id`.
fn find_index(cultures: &Vec<Culture>, id: &str) -> (r: Option<usize>)
    ensures
        match r {
            Some(i) => index_of(ids_of(cultures@), id@) == Some(i as int),
            None => index_of(ids_of(cultures@), id@) is None,
        },
{
    let ghost ids = ids_of(cultures@);
    let mut i: usize = 0;
    while i < cultures.len()
        invariant
            i <= cultures@.len(),
            ids == ids_of(cultures@),
            first_index_from(ids, id@, 0) == first_index_from(ids, id@, i as int),
        decreases cultures@.len() - i,
    {
        if same_text(cultures[i].id.as_str(), id) {
            assert(ids[i as int] == id@);
            return Some(i);
        }
        i = i + 1;
    }
    None
}

/// Collects the tasks stored under the key `(x, y)`, as `key_tasks` says.
fn collect_key_tasks<'a, C: Constraint>(
    out: &mut Vec<(usize, usize, &'a C, bool)>,
    cs: &'a [(String, String, C)],
    x: &String,
    y: &String,
    ix: usize,
    iy: usize,
    forward: bool,
)
    ensures
        task_view(final(out)@) == task_view(old(out)@) + key_tasks(
            constraint_text(cs@),
            x@,
            y@,
            ix as int,
            iy as int,
            forward,
        ),
        (all_admissible(cs@) && forall|k: int| 0 <= k < old(out)@.len() ==> (#[trigger] old(out)@[k]).2.admissible())
            ==> forall|k: int| 0 <= k < final(out)@.len() ==> (#[trigger] final(out)@[k]).2.admissible(),
{
    let ghost start = task_view(out@);
    let ghost adm0 = forall|k: int| 0 <= k < out@.len() ==> (#[trigger] out@[k]).2.admissible();
    let ghost ct = constraint_text(cs@);
    let mut j: usize = 0;
    while j < cs.len()
        invariant
            j <= cs@.len(),
            ct == constraint_text(cs@),
            task_view(out@) == start + key_tasks(ct.take(j as int), x@, y@, ix as int, iy as int, forward),
            adm0 == (forall|k: int| 0 <= k < old(out)@.len() ==> (#[trigger] old(out)@[k]).2.admissible()),
            (all_admissible(cs@) && adm0) ==> forall|k: int| 0 <= k < out@.len() ==> (#[trigger] out@[k]).2.admissible(),
        decreases cs@.len() - j,
    {
        let c = &cs[j];
        let ghost before = task_view(out@);
        if c.0 == *x && c.1 == *y {
            out.push((ix, iy, &c.2, forward));
        }
        let ghost mid = task_view(out@);
        if c.1 == *x && c.0 == *y {
            out.push((ix, iy, &c.2, forward));
        }
        proof {
            let t = (ix as int, iy as int, relation_of(c.2), forward);
            assert(ct.take(j + 1).drop_last() =~= ct.take(j as int));
            assert(ct.take(j + 1).last() == (c.0@, c.1@, relation_of(c.2)));
            if c.0@ == x@ && c.1@ == y@ {
                assert(mid =~= before + seq![t]);
            } else {
                assert(mid =~= before);
            }
            if c.1@ == x@ && c.0@ == y@ {
                assert(task_view(out@) =~= mid + seq![t]);
            } else {
                assert(task_view(out@) =~= mid);
            }
            assert(task_view(out@) =~= start + key_tasks(ct.take(j + 1), x@, y@, ix as int, iy as int, forward));
        }
        j = j + 1;
    }
    proof {
        assert(ct.take(ct.len() as int) =~= ct);
    }
}

impl Consortium {
    /// Create a new consortium with the given cultures and interactions.
    pub fn new(cultures: Vec<Culture>, interactions: Vec<Interaction>) -> (c: Consortium)
        ensures
            c.cultures@ == cultures@,
            c.interactions@ == interactions@,
            c.iteration == 0,
    {
        Consortium { cultures, interactions, iteration: 0 }
    }

    /// The ids of the cultures, in order.
    pub open spec fn ids(&self) -> Seq<Seq<char>> {
        ids_of(self.cultures@)
    }

    /// The domains of the cultures, in order.
    pub open spec fn domains(&self) -> Seq<Seq<i32>> {
        domains_of(self.cultures@)
    }

    /// A copy with the same cultures, interactions and counter.
    pub(crate) fn copy(&self) -> (c: Consortium)
        ensures
            c.ids() == self.ids(),
            c.domains() == self.domains(),
            c.interactions@ == self.interactions@,
            c.iteration == self.iteration,
    {
        let mut cultures: Vec<Culture> = Vec::new();
        let mut i: usize = 0;
        while i < self.cultures.len()
            invariant
                i <= self.cultures@.len(),
                cultures@.len() == i,
                forall|j: int|
                    0 <= j < i ==> (#[trigger] cultures@[j]).id == self.cultures@[j].id && cultures@[j].domain@
                        == self.cultures@[j].domain@,
            decreases self.cultures@.len() - i,
        {
            let c = &self.cultures[i];
            let domain = c.domain.clone();
            assert(domain@ =~= c.domain@);
            cultures.push(Culture { id: c.id.clone(), domain });
            i = i + 1;
        }
        let mut interactions: Vec<Interaction> = Vec::new();
        let mut k: usize = 0;
        while k < self.interactions.len()
            invariant
                k <= self.interactions@.len(),
                interactions@.len() == k,
                forall|j: int| 0 <= j < k ==> #[trigger] interactions@[j] == self.interactions@[j],
            decreases self.interactions@.len() - k,
        {
            let inter = &self.interactions[k];
            interactions.push(Interaction { a: inter.a.clone(), b: inter.b.clone() });
            k = k + 1;
        }
        let c = Consortium { cultures, interactions, iteration: self.iteration };
        assert(c.ids() =~= self.ids());
        assert(c.domains() =~= self.domains());
        assert(c.interactions@ =~= self.interactions@);
        c
    }

    /// The position of the first culture that carries `id`.
    pub fn culture_index(&self, id: &str) -> (r: Option<usize>)
        ensures
            match r {
                Some(i) => index_of(self.ids(), id@) == Some(i as int),
                None => index_of(self.ids(), id@) is None,
            },
    {
        find_index(&self.cultures, id)
    }

    /// Get a culture by id: the first one that carries it.
    pub fn get_culture(&self, id: &str) -> (r: Option<&Culture>)
        ensures
            match index_of(self.ids(), id@) {
                Some(i) => r == Some(&self.cultures@[i]),
                None => r is None,
            },
    {
        proof {
            lemma_index_of(self.ids(), id@);
        }
        match find_index(&self.cultures, id) {
            Some(i) => Some(&self.cultures[i]),
            None => None,
        }
    }

    /// Whether all cultures have converged (domains reduced to 1 or 0 values).
    pub fn is_converged(&self) -> (b: bool)
        ensures
            b == all_settled(self.domains()),
    {
        let mut i: usize = 0;
        while i < self.cultures.len()
            invariant
                i <= self.cultures@.len(),
                forall|k: int| 0 <= k < i ==> #[trigger] self.cultures@[k].domain@.len() <= 1,
            decreases self.cultures@.len() - i,
        {
            if self.cultures[i].domain.len() > 1 {
                assert(self.domains()[i as int].len() > 1);
                return false;
            }
            i = i + 1;
        }
        assert forall|k: int| 0 <= k < self.domains().len() implies #[trigger] self.domains()[k].len() <= 1 by {
            assert(self.cultures@[k].domain@.len() <= 1);
        }
        true
    }

    /// Whether any culture has died (empty domain: unsatisfiability detected).
    pub fn has_dead(&self) -> (b: bool)
        ensures
            b == some_dead(self.domains()),
    {
        let mut i: usize = 0;
        while i < self.cultures.len()
            invariant
                i <= self.cultures@.len(),
                forall|k: int| 0 <= k < i ==> #[trigger] self.cultures@[k].domain@.len() != 0,
            decreases self.cultures@.len() - i,
        {
            if self.cultures[i].domain.len() == 0 {
                assert(self.domains()[i as int].len() == 0);
                return true;
            }
            i = i + 1;
        }
        assert forall|k: int| 0 <= k < self.domains().len() implies #[trigger] self.domains()[k].len() != 0 by {
            assert(self.cultures@[k].domain@.len() != 0);
        }
        false
    }

    /// Total remaining domain size across all cultures.
    pub fn total_domain_size(&self) -> (n: usize)
        requires
            total_size(self.domains()) <= usize::MAX,
        ensures
            n == total_size(self.domains()),
    {
        let ghost ds = self.domains();
        let mut n: usize = 0;
        let mut i: usize = 0;
        while i < self.cultures.len()
            invariant
                i <= self.cultures@.len(),
                ds == self.domains(),
                total_size(ds) <= usize::MAX,
                n == total_size(ds.take(i as int)),
            decreases self.cultures@.len() - i,
        {
            proof {
                assert(ds.take(i + 1).drop_last() =~= ds.take(i as int));
                lemma_total_size_prefix(ds, i + 1);
            }
            n = n + self.cultures[i].domain.len();
            i = i + 1;
        }
        proof {
            assert(ds.take(i as int) =~= ds);
        }
        n
    }

    /// The prune tasks of one round.
    fn collect_tasks<'a, C: Constraint>(&self, constraints: &'a [(String, String, C)]) -> (ts: Vec<(usize, usize, &'a C, bool)>)
        ensures
            task_view(ts@) == all_tasks(self.ids(), constraint_text(constraints@), self.interactions@),
            all_admissible(constraints@) ==> forall|k: int| 0 <= k < ts@.len() ==> (#[trigger] ts@[k]).2.admissible(),
    {
        let ghost ids = self.ids();
        let ghost ct = constraint_text(constraints@);
        let mut ts: Vec<(usize, usize, &'a C, bool)> = Vec::new();
        let mut k: usize = 0;
        while k < self.interactions.len()
            invariant
                k <= self.interactions@.len(),
                ids == self.ids(),
                ct == constraint_text(constraints@),
                task_view(ts@) == all_tasks(ids, ct, self.interactions@.take(k as int)),
                all_admissible(constraints@) ==> forall|q: int| 0 <= q < ts@.len() ==> (#[trigger] ts@[q]).2.admissible(),
            decreases self.interactions@.len() - k,
        {
            let inter = &self.interactions[k];
            let ghost before = task_view(ts@);
            let ia = find_index(&self.cultures, inter.a.as_str());
            let ib = find_index(&self.cultures, inter.b.as_str());
            match (ia, ib) {
                (Some(ia), Some(ib)) => {
                    collect_key_tasks(&mut ts, constraints, &inter.a, &inter.b, ia, ib, true);
                    collect_key_tasks(&mut ts, constraints, &inter.b, &inter.a, ib, ia, false);
                },
                _ => {},
            }
            proof {
                assert(self.interactions@.take(k + 1).drop_last() =~= self.interactions@.take(k as int));
                assert(self.interactions@.take(k + 1).last() == *inter);
                assert(task_view(ts@) =~= before + interaction_tasks(ids, ct, *inter));
            }
            k = k + 1;
        }
        proof {
            assert(self.interactions@.take(k as int) =~= self.interactions@);
        }
        ts
    }

    /// Applies prune tasks in order, as `apply_tasks` says, partners' domains
    /// taken from the start; returns how many values they removed in all.
    fn apply_round<C: Constraint>(&mut self, ts: &Vec<(usize, usize, &C, bool)>) -> (removed: usize)
        requires
            forall|k: int| 0 <= k < ts@.len() ==> (#[trigger] ts@[k]).2.admissible(),
            forall|k: int|
                0 <= k < ts@.len() ==> (#[trigger] ts@[k]).0 < old(self).cultures@.len() && ts@[k].1
                    < old(self).cultures@.len(),
            total_size(old(self).domains()) <= usize::MAX,
        ensures
            final(self).interactions == old(self).interactions,
            final(self).iteration == old(self).iteration,
            final(self).ids() == old(self).ids(),
            final(self).domains() == apply_tasks(old(self).domains(), old(self).domains(), task_view(ts@)),
            removed + total_size(final(self).domains()) == total_size(old(self).domains()),
    {
        let ghost ds0 = self.domains();
        let ghost ids0 = self.ids();
        let ghost tv = task_view(ts@);
        let mut start: Vec<Vec<i32>> = Vec::new();
        let mut i: usize = 0;
        while i < self.cultures.len()
            invariant
                i <= self.cultures@.len(),
                ds0 == self.domains(),
                start@.len() == i,
                forall|j: int| 0 <= j < i ==> (#[trigger] start@[j])@ == ds0[j],
            decreases self.cultures@.len() - i,
        {
            start.push(self.cultures[i].domain.clone());
            i = i + 1;
        }
        let mut removed: usize = 0;
        let mut k: usize = 0;
        proof {
            assert(tv.skip(0) =~= tv);
        }
        while k < ts.len()
            invariant
                k <= ts@.len(),
                tv == task_view(ts@),
                forall|q: int|
                    0 <= q < ts@.len() ==> (#[trigger] ts@[q]).0 < ds0.len() && ts@[q].1 < ds0.len(),
                forall|q: int| 0 <= q < ts@.len() ==> (#[trigger] ts@[q]).2.admissible(),
                start@.len() == ds0.len(),
                forall|j: int| 0 <= j < ds0.len() ==> (#[trigger] start@[j])@ == ds0[j],
                ds0.len() == self.cultures@.len(),
                self.ids() == ids0,
                ids0 == old(self).ids(),
                self.interactions == old(self).interactions,
                self.iteration == old(self).iteration,
                ds0 == old(self).domains(),
                apply_tasks(ds0, self.domains(), tv.skip(k as int)) == apply_tasks(ds0, ds0, tv),
                total_size(ds0) <= usize::MAX,
                removed + total_size(self.domains()) == total_size(ds0),
            decreases ts@.len() - k,
        {
            let t = ts[k];
            let i = t.0;
            let ghost d = self.domains();
            let nd = revise_domain(self.cultures[i].domain.as_slice(), start[t.1].as_slice(), t.2, t.3);
            proof {
                assert(tv[k as int] == (i as int, t.1 as int, relation_of(*t.2), t.3));
                assert(tv.skip(k as int)[0] == tv[k as int]);
                assert(tv.skip(k as int).drop_first() =~= tv.skip(k + 1));
                assert(d[i as int] == self.cultures@[i as int].domain@);
                d[i as int].lemma_filter_len(|v: i32| supported(relation_of(*t.2), v, ds0[t.1 as int], t.3));
                lemma_total_size_update(d, i as int, nd@);
            }
            let cur = self.cultures[i].domain.len();
            removed = removed + (cur - nd.len());
            let mut c = Culture { id: String::new(), domain: Vec::new() };
            self.cultures.set_and_swap(i, &mut c);
            c.domain = nd;
            self.cultures.set_and_swap(i, &mut c);
            proof {
                assert(self.domains() =~= apply_task(ds0, d, tv[k as int]));
                assert(self.ids() =~= ids0);
            }
            k = k + 1;
        }
        proof {
            assert(tv.skip(k as int) =~= Seq::<(int, int, spec_fn(i32, i32) -> bool, bool)>::empty());
        }
        removed
    }

    /// One round of fermentation with constraints of any `Constraint` type,
    /// such as named `Relation`s (see `ferment_step`).
    pub fn ferment_step_with<C: Constraint>(&mut self, constraints: &[(String, String, C)]) -> (pruned: usize)
        requires
            all_admissible(constraints@),
            old(self).iteration < usize::MAX,
            total_size(old(self).domains()) <= usize::MAX,
        ensures
            final(self).interactions == old(self).interactions,
            final(self).ids() == old(self).ids(),
            final(self).domains() == step_domains(
                old(self).ids(),
                old(self).domains(),
                old(self).interactions@,
                constraint_text(constraints@),
            ),
            final(self).iteration == old(self).iteration + 1,
            pruned + total_size(final(self).domains()) == total_size(old(self).domains()),
            shrinks(final(self).domains(), old(self).domains()),
    {
        proof {
            lemma_step_shrinks(self.ids(), self.domains(), self.interactions@, constraint_text(constraints@));
        }
        let ts = self.collect_tasks(constraints);
        proof {
            lemma_all_tasks_index(self.ids(), constraint_text(constraints@), self.interactions@);
            assert forall|k: int| 0 <= k < ts@.len() implies (#[trigger] ts@[k]).0 < self.cultures@.len()
                && ts@[k].1 < self.cultures@.len() by {
                assert(task_view(ts@)[k] == (ts@[k].0 as int, ts@[k].1 as int, relation_of(*ts@[k].2), ts@[k].3));
            }
        }
        let pruned = self.apply_round(&ts);
        self.iteration = self.iteration + 1;
        pruned
    }

    /// Perform one round of mutualistic AC-3 fermentation: for each
    /// interaction and each of its constraints `(a, b, f)`, both cultures
    /// prune the values that lost every partner in the other's domain as it
    /// was when the round began, `f` taking the value of `a` first. Returns
    /// the number of values pruned.
    pub fn ferment_step<F: Fn(i32, i32) -> bool>(&mut self, constraints: &[(String, String, F)]) -> (pruned: usize)
        requires
            all_callable(constraints@),
            old(self).iteration < usize::MAX,
            total_size(old(self).domains()) <= usize::MAX,
        ensures
            final(self).interactions == old(self).interactions,
            final(self).ids() == old(self).ids(),
            final(self).domains() == step_domains(
                old(self).ids(),
                old(self).domains(),
                old(self).interactions@,
                constraint_text(constraints@),
            ),
            final(self).iteration == old(self).iteration + 1,
            pruned + total_size(final(self).domains()) == total_size(old(self).domains()),
            shrinks(final(self).domains(), old(self).domains()),
    {
        self.ferment_step_with(constraints)
    }

    /// Get a mutable reference to a culture by id: the first one that carries it.
    pub fn get_culture_mut(&mut self, id: &str) -> (r: Option<&mut Culture>)
        ensures
            match index_of(old(self).ids(), id@) {
                Some(i) => match r {
                    Some(c) => *c == old(self).cultures@[i] && final(self).cultures@ == old(
                        self,
                    ).cultures@.update(i, *final(c)) && final(self).interactions == old(
                        self,
                    ).interactions && final(self).iteration == old(self).iteration,
                    None => false,
                },
                None => r is None && *final(self) == *old(self),
            },
    {
        proof {
            lemma_index_of(self.ids(), id@);
        }
        match find_index(&self.cultures, id) {
            Some(i) => Some(&mut self.cultures[i]),
            None => None,
        }
    }

    /// For each culture in order: its id, how many of its interactions count
    /// as satisfied (the partner exists and both domains are non-empty), and
    /// how many interactions involve it. Fitness is the ratio of the two.
    pub fn fitness_updates(&self) -> (r: Vec<(String, usize, usize)>)
        ensures
            r@.len() == self.cultures@.len(),
            forall|i: int|
                0 <= i < r@.len() ==> (#[trigger] r@[i]).0@ == self.cultures@[i].id@ && r@[i].1
                    == satisfied_count(
                    self.ids(),
                    self.domains(),
                    self.interactions@,
                    self.cultures@[i].id@,
                    self.cultures@[i].domain@.len(),
                ) && r@[i].2 == involving_count(self.interactions@, self.cultures@[i].id@),
    {
        let ghost ids = self.ids();
        let ghost ds = self.domains();
        let ghost inters = self.interactions@;
        let mut r: Vec<(String, usize, usize)> = Vec::new();
        let mut i: usize = 0;
        while i < self.cultures.len()
            invariant
                i <= self.cultures@.len(),
                ids == self.ids(),
                ds == self.domains(),
                inters == self.interactions@,
                r@.len() == i,
                forall|j: int|
                    0 <= j < i ==> (#[trigger] r@[j]).0@ == self.cultures@[j].id@ && r@[j].1
                        == satisfied_count(ids, ds, inters, self.cultures@[j].id@, self.cultures@[j].domain@.len())
                        && r@[j].2 == involving_count(inters, self.cultures@[j].id@),
            decreases self.cultures@.len() - i,
        {
            let culture = &self.cultures[i];
            let id = culture.id.as_str();
            let own_len = culture.domain.len();
            let mut sat: usize = 0;
            let mut tot: usize = 0;
            let mut k: usize = 0;
            while k < self.interactions.len()
                invariant
                    k <= inters.len(),
                    ids == self.ids(),
                    ds == self.domains(),
                    inters == self.interactions@,
                    id@ == culture.id@,
                    own_len == culture.domain@.len(),
                    sat <= k,
                    tot <= k,
                    sat == satisfied_count(ids, ds, inters.take(k as int), id@, own_len as nat),
                    tot == involving_count(inters.take(k as int), id@),
                decreases inters.len() - k,
            {
                let inter = &self.interactions[k];
                proof {
                    assert(inters.take(k + 1).drop_last() =~= inters.take(k as int));
                    assert(inters.take(k + 1).last() == *inter);
                }
                if inter.involves(id) {
                    tot = tot + 1;
                    match inter.partner(id) {
                        Some(pid) => {
                            let found = find_index(&self.cultures, pid);
                            proof {
                                lemma_index_of(ids, pid@);
                                assert(pid@ == partner_of(*inter, id@));
                            }
                            match found {
                                Some(p) => {
                                    if own_len > 0 && self.cultures[p].domain.len() > 0 {
                                        sat = sat + 1;
                                    }
                                    proof {
                                        assert(ds[p as int] == self.cultures@[p as int].domain@);
                                    }
                                },
                                None => {},
                            }
                        },
                        None => {},
                    }
                }
                k = k + 1;
            }
            proof {
                assert(inters.take(k as int) =~= inters);
            }
            r.push((culture.id.clone(), sat, tot));
            i = i + 1;
        }
        r
    }

    /// The stopping rule of fermentation. Before a round
    /// (`after_round == false`) it stops when every domain has at most one
    /// value or some domain is empty; after a round that pruned `pruned`
    /// values it stops when the round pruned nothing and the iteration
    /// counter exceeds one.
    pub fn should_stop(&self, pruned: usize, after_round: bool) -> (b: bool)
        ensures
            b == if after_round {
                pruned == 0 && self.iteration > 1
            } else {
                all_settled(self.domains()) || some_dead(self.domains())
            },
    {
        if after_round {
            pruned == 0 && self.iteration > 1
        } else {
            self.is_converged() || self.has_dead()
        }
    }

    /// Fermentation until convergence with constraints of any `Constraint`
    /// type, such as named `Relation`s (see `ferment_until_converged`).
    pub fn ferment_until_converged_with<C: Constraint>(
        &mut self,
        constraints: &[(String, String, C)],
        max_iterations: usize,
    ) -> (n: usize)
        requires
            all_admissible(constraints@),
            total_size(old(self).domains()) <= usize::MAX,
            old(self).iteration + max_iterations <= usize::MAX || old(self).iteration + total_size(
                old(self).domains(),
            ) + 1 <= usize::MAX,
        ensures
            final(self).interactions == old(self).interactions,
            final(self).ids() == old(self).ids(),
            (final(self).domains(), final(self).iteration as int) == run(
                old(self).ids(),
                old(self).interactions@,
                constraint_text(constraints@),
                old(self).domains(),
                old(self).iteration as int,
                max_iterations as nat,
            ),
            n == final(self).iteration - old(self).iteration,
            shrinks(final(self).domains(), old(self).domains()),
            n <= total_size(old(self).domains()) + 1,
            n == max_iterations || all_settled(final(self).domains()) || some_dead(final(self).domains())
                || arc_consistent(final(self).ids(), final(self).domains(), final(self).interactions@, constraint_text(constraints@)),
    {
        proof {
            lemma_run(
                self.ids(),
                self.interactions@,
                constraint_text(constraints@),
                self.domains(),
                self.iteration as int,
                max_iterations as nat,
            );
        }
        let ghost ids = self.ids();
        let ghost inters = self.interactions@;
        let ghost ct = constraint_text(constraints@);
        let ghost goal = run(ids, inters, ct, self.domains(), self.iteration as int, max_iterations as nat);
        let ghost it0 = self.iteration as int;
        let ghost total0 = total_size(self.domains());
        let mut n: usize = 0;
        while n < max_iterations
            invariant
                n <= max_iterations,
                self.ids() == ids,
                ids == old(self).ids(),
                inters == old(self).interactions@,
                ct == constraint_text(constraints@),
                goal == run(ids, inters, ct, old(self).domains(), old(self).iteration as int, max_iterations as nat),
                shrinks(goal.0, old(self).domains()),
                goal.1 - old(self).iteration <= total_size(old(self).domains()) + 1,
                goal.1 - old(self).iteration == max_iterations || all_settled(goal.0) || some_dead(goal.0)
                    || arc_consistent(ids, goal.0, inters, ct),
                total_size(self.domains()) <= total0,
                self.interactions == old(self).interactions,
                inters == self.interactions@,
                self.iteration == it0 + n,
                it0 == old(self).iteration,
                total0 == total_size(old(self).domains()),
                total0 <= usize::MAX,
                it0 + max_iterations <= usize::MAX || it0 + total0 + 1 <= usize::MAX,
                n + total_size(self.domains()) <= total0 + 1,
                run(ids, inters, ct, self.domains(), self.iteration as int, (max_iterations - n) as nat) == goal,
                all_admissible(constraints@),
            decreases max_iterations - n,
        {
            if self.should_stop(0, false) {
                return n;
            }
            proof {
                lemma_unsettled_total(self.domains());
            }
            let ghost before = self.domains();
            let ghost it_before = self.iteration as int;
            let pruned = self.ferment_step_with(constraints);
            proof {
                assert(self.domains() == step_domains(ids, before, inters, ct));
                assert(run(ids, inters, ct, before, it_before, (max_iterations - n) as nat) == (if total_size(self.domains()) == total_size(before) && it_before + 1 > 1 {
                    (self.domains(), it_before + 1)
                } else {
                    run(ids, inters, ct, self.domains(), it_before + 1, (max_iterations - n - 1) as nat)
                }));
                if pruned == 0 && !(self.iteration > 1) {
                    assert(n == 0);
                    assert(total_size(self.domains()) == total_size(before));
                } else if pruned != 0 {
                    assert(total_size(self.domains()) < total_size(before));
                }
            }
            n = n + 1;
            if self.should_stop(pruned, true) {
                return n;
            }
        }
        n
    }

    /// Run fermentation until convergence or `max_iterations` rounds, as
    /// `should_stop` decides. Returns the number of rounds performed.
    pub fn ferment_until_converged<F: Fn(i32, i32) -> bool>(
        &mut self,
        constraints: &[(String, String, F)],
        max_iterations: usize,
    ) -> (n: usize)
        requires
            all_callable(constraints@),
            total_size(old(self).domains()) <= usize::MAX,
            old(self).iteration + max_iterations <= usize::MAX || old(self).iteration + total_size(
                old(self).domains(),
            ) + 1 <= usize::MAX,
        ensures
            final(self).interactions == old(self).interactions,
            final(self).ids() == old(self).ids(),
            (final(self).domains(), final(self).iteration as int) == run(
                old(self).ids(),
                old(self).interactions@,
                constraint_text(constraints@),
                old(self).domains(),
                old(self).iteration as int,
                max_iterations as nat,
            ),
            n == final(self).iteration - old(self).iteration,
            shrinks(final(self).domains(), old(self).domains()),
            n <= total_size(old(self).domains()) + 1,
            n == max_iterations || all_settled(final(self).domains()) || some_dead(final(self).domains())
                || arc_consistent(final(self).ids(), final(self).domains(), final(self).interactions@, constraint_text(constraints@)),
    {
        self.ferment_until_converged_with(constraints, max_iterations)
    }
}

pub proof fn lemma_total_size_prefix(ds: Seq<Seq<i32>>, k: int)
    requires
        0 <= k <= ds.len(),
    ensures
        total_size(ds.take(k)) <= total_size(ds),
    decreases ds.len() - k,
{
    if k < ds.len() {
        lemma_total_size_prefix(ds, k + 1);
        assert(ds.take(k + 1).drop_last() =~= ds.take(k));
    } else {
        assert(ds.take(k) =~= ds);
    }
}

/// Builder for a consortium with a fluent API.
#[derive(Debug, Clone)]
pub struct ConsortiumBuilder {
    cultures: Vec<Culture>,
    interactions: Vec<Interaction>,
}

impl ConsortiumBuilder {
    /// The cultures gathered so far.
    pub closed spec fn spec_cultures(&self) -> Seq<Culture> {
        self.cultures@
    }

    /// The interactions gathered so far.
    pub closed spec fn spec_interactions(&self) -> Seq<Interaction> {
        self.interactions@
    }

    /// A builder with no cultures and no interactions.
    pub fn new() -> (b: ConsortiumBuilder)
        ensures
            b.spec_cultures() == Seq::<Culture>::empty(),
            b.spec_interactions() == Seq::<Interaction>::empty(),
    {
        ConsortiumBuilder { cultures: Vec::new(), interactions: Vec::new() }
    }

    /// Add one culture at the end.
    pub fn culture(self, culture: Culture) -> (b: ConsortiumBuilder)
        ensures
            b.spec_cultures() == self.spec_cultures().push(culture),
            b.spec_interactions() == self.spec_interactions(),
    {
        let mut b = self;
        b.cultures.push(culture);
        b
    }

    /// Replace the cultures.
    pub fn cultures(self, cultures: Vec<Culture>) -> (b: ConsortiumBuilder)
        ensures
            b.spec_cultures() == cultures@,
            b.spec_interactions() == self.spec_interactions(),
    {
        ConsortiumBuilder { cultures, interactions: self.interactions }
    }

    /// Add an interaction between `a` and `b` at the end.
    pub fn interaction(self, a: &str, b: &str) -> (r: ConsortiumBuilder)
        ensures
            r.spec_cultures() == self.spec_cultures(),
            r.spec_interactions().len() == self.spec_interactions().len() + 1,
            r.spec_interactions().drop_last() == self.spec_interactions(),
            r.spec_interactions().last().a@ == a@,
            r.spec_interactions().last().b@ == b@,
    {
        let mut r = self;
        r.interactions.push(Interaction::new(a, b));
        proof {
            assert(r.interactions@.drop_last() =~= self.interactions@);
        }
        r
    }

    /// Replace the interactions.
    pub fn interactions(self, interactions: Vec<Interaction>) -> (b: ConsortiumBuilder)
        ensures
            b.spec_cultures() == self.spec_cultures(),
            b.spec_interactions() == interactions@,
    {
        ConsortiumBuilder { cultures: self.cultures, interactions }
    }

    /// The consortium with the cultures and interactions gathered so far,
    /// before any fermentation.
    pub fn build(self) -> (c: Consortium)
        ensures
            c.cultures@ == self.spec_cultures(),
            c.interactions@ == self.spec_interactions(),
            c.iteration == 0,
    {
        Consortium::new(self.cultures, self.interactions)
    }
}

impl Default for ConsortiumBuilder {
    fn default() -> (b: ConsortiumBuilder)
        ensures
            b.spec_cultures() == Seq::<Culture>::empty(),
            b.spec_interactions() == Seq::<Interaction>::empty(),
    {
        ConsortiumBuilder::new()
    }
}

} // verus!
