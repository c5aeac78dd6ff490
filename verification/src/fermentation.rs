//! What fermentation guarantees: domains only shrink, a round that prunes
//! nothing leaves the consortium arc consistent, and fermentation stops.
use vstd::prelude::*;
use crate::consortium::{
    Interaction, index_of, key_tasks, interaction_tasks, all_tasks, apply_task, apply_tasks, step_domains,
    total_size, run, all_settled, some_dead, lemma_index_of, lemma_all_tasks_index,
};
use crate::culture::{revise, supported};
use crate::subsequence::{
    is_subsequence, lemma_filter_subsequence, lemma_subsequence_refl, lemma_subsequence_trans,
    lemma_subsequence_len, lemma_subsequence_full, lemma_filter_keeps_all, lemma_filter_all,
};

verus! {

/// Whether constraint `c` is stored under the pair of variables `x`, `y`,
/// in either order.
pub open spec fn matches_pair(c: (Seq<char>, Seq<char>, spec_fn(i32, i32) -> bool), x: Seq<char>, y: Seq<char>) -> bool {
    (c.0 == x && c.1 == y) || (c.1 == x && c.0 == y)
}

/// Arc consistency: for every interaction whose two cultures exist and every
/// constraint stored under their pair, each value of the first culture has a
/// partner in the second (value first), and each value of the second has a
/// partner in the first (value second).
pub open spec fn arc_consistent(
    ids: Seq<Seq<char>>,
    ds: Seq<Seq<i32>>,
    inters: Seq<Interaction>,
    cs: Seq<(Seq<char>, Seq<char>, spec_fn(i32, i32) -> bool)>,
) -> bool {
    forall|t: int, k: int|
        0 <= t < inters.len() && 0 <= k < cs.len() && #[trigger] matches_pair(
            cs[k],
            inters[t].a@,
            inters[t].b@,
        ) ==> match (index_of(ids, inters[t].a@), index_of(ids, inters[t].b@)) {
            (Some(ia), Some(ib)) => (forall|j: int|
                0 <= j < ds[ia].len() ==> supported(cs[k].2, #[trigger] ds[ia][j], ds[ib], true))
                && (forall|j: int|
                0 <= j < ds[ib].len() ==> supported(cs[k].2, #[trigger] ds[ib][j], ds[ia], false)),
            _ => true,
        }
}

/// Whether each domain of `nd` is a subsequence of the same domain of `ds`.
pub open spec fn shrinks(nd: Seq<Seq<i32>>, ds: Seq<Seq<i32>>) -> bool {
    nd.len() == ds.len() && forall|i: int| 0 <= i < ds.len() ==> is_subsequence(#[trigger] nd[i], ds[i])
}

/// The task that interaction `t` asks of one of its cultures under constraint `k`.
pub open spec fn is_round_task(
    ids: Seq<Seq<char>>,
    inters: Seq<Interaction>,
    cs: Seq<(Seq<char>, Seq<char>, spec_fn(i32, i32) -> bool)>,
    task: (int, int, spec_fn(i32, i32) -> bool, bool),
) -> bool {
    exists|t: int, k: int|
        0 <= t < inters.len() && 0 <= k < cs.len() && #[trigger] matches_pair(cs[k], inters[t].a@, inters[t].b@)
            && match (index_of(ids, inters[t].a@), index_of(ids, inters[t].b@)) {
            (Some(ia), Some(ib)) => task == (ia, ib, cs[k].2, true) || task == (ib, ia, cs[k].2, false),
            _ => false,
        }
}

/// Whether task `t` keeps the whole domain it names: every value of that
/// culture has a partner in the partner's starting domain.
pub open spec fn task_keeps_all(start: Seq<Seq<i32>>, d: Seq<Seq<i32>>, t: (int, int, spec_fn(i32, i32) -> bool, bool)) -> bool {
    revise(d[t.0], start[t.1], t.2, t.3) == d[t.0]
}

/// Whether every task names two existing cultures.
pub open spec fn tasks_valid(ts: Seq<(int, int, spec_fn(i32, i32) -> bool, bool)>, n: int) -> bool {
    forall|q: int| 0 <= q < ts.len() ==> 0 <= (#[trigger] ts[q]).0 < n && 0 <= ts[q].1 < n
}

/// Each task stored under `(x, y)` comes from a constraint stored there.
proof fn lemma_key_tasks_from(
    cs: Seq<(Seq<char>, Seq<char>, spec_fn(i32, i32) -> bool)>,
    x: Seq<char>,
    y: Seq<char>,
    ix: int,
    iy: int,
    forward: bool,
)
    ensures
        forall|q: int|
            0 <= q < key_tasks(cs, x, y, ix, iy, forward).len() ==> exists|k: int|
                0 <= k < cs.len() && matches_pair(cs[k], x, y) && #[trigger] key_tasks(cs, x, y, ix, iy, forward)[q]
                    == (ix, iy, cs[k].2, forward),
    decreases cs.len(),
{
    if cs.len() > 0 {
        let rest_cs = cs.drop_last();
        lemma_key_tasks_from(rest_cs, x, y, ix, iy, forward);
        let c = cs.last();
        let p = (ix, iy, c.2, forward);
        let rest = key_tasks(rest_cs, x, y, ix, iy, forward);
        let s1: Seq<(int, int, spec_fn(i32, i32) -> bool, bool)> = if c.0 == x && c.1 == y { seq![p] } else { seq![] };
        let s2: Seq<(int, int, spec_fn(i32, i32) -> bool, bool)> = if c.1 == x && c.0 == y { seq![p] } else { seq![] };
        let all = key_tasks(cs, x, y, ix, iy, forward);
        assert(all == rest + s1 + s2);
        assert forall|q: int| 0 <= q < all.len() implies exists|k: int|
            0 <= k < cs.len() && matches_pair(cs[k], x, y) && #[trigger] all[q] == (ix, iy, cs[k].2, forward) by {
            if q < rest.len() {
                assert(all[q] == rest[q]);
                let k = choose|k: int|
                    0 <= k < rest_cs.len() && matches_pair(rest_cs[k], x, y) && rest[q] == (ix, iy, rest_cs[k].2, forward);
                assert(cs[k] == rest_cs[k]);
            } else {
                let k = cs.len() - 1;
                if q < rest.len() + s1.len() {
                    assert(all[q] == s1[q - rest.len()]);
                } else {
                    assert(all[q] == s2[q - rest.len() - s1.len()]);
                }
                assert(matches_pair(cs[k], x, y));
            }
        }
    }
}

/// Each constraint stored under `(x, y)` asks for its task.
proof fn lemma_key_tasks_has(
    cs: Seq<(Seq<char>, Seq<char>, spec_fn(i32, i32) -> bool)>,
    x: Seq<char>,
    y: Seq<char>,
    ix: int,
    iy: int,
    forward: bool,
    k: int,
)
    requires
        0 <= k < cs.len(),
        matches_pair(cs[k], x, y),
    ensures
        key_tasks(cs, x, y, ix, iy, forward).contains((ix, iy, cs[k].2, forward)),
    decreases cs.len(),
{
    let rest_cs = cs.drop_last();
    let c = cs.last();
    let p = (ix, iy, c.2, forward);
    let rest = key_tasks(rest_cs, x, y, ix, iy, forward);
    let s1: Seq<(int, int, spec_fn(i32, i32) -> bool, bool)> = if c.0 == x && c.1 == y { seq![p] } else { seq![] };
    let s2: Seq<(int, int, spec_fn(i32, i32) -> bool, bool)> = if c.1 == x && c.0 == y { seq![p] } else { seq![] };
    let all = key_tasks(cs, x, y, ix, iy, forward);
    assert(all == rest + s1 + s2);
    if k < cs.len() - 1 {
        assert(rest_cs[k] == cs[k]);
        lemma_key_tasks_has(rest_cs, x, y, ix, iy, forward, k);
        let q = choose|q: int| 0 <= q < rest.len() && rest[q] == (ix, iy, cs[k].2, forward);
        assert(all[q] == rest[q]);
    } else if c.0 == x && c.1 == y {
        assert(all[rest.len() as int] == p);
    } else {
        assert(all[(rest.len() + s1.len()) as int] == p);
    }
}

/// Every task of a round is one that an interaction asks of one of its
/// cultures under a constraint stored under its pair.
proof fn lemma_round_tasks_from(
    ids: Seq<Seq<char>>,
    inters: Seq<Interaction>,
    cs: Seq<(Seq<char>, Seq<char>, spec_fn(i32, i32) -> bool)>,
)
    ensures
        forall|q: int|
            0 <= q < all_tasks(ids, cs, inters).len() ==> is_round_task(
                ids,
                inters,
                cs,
                #[trigger] all_tasks(ids, cs, inters)[q],
            ),
    decreases inters.len(),
{
    if inters.len() > 0 {
        let rest_i = inters.drop_last();
        lemma_round_tasks_from(ids, rest_i, cs);
        let t = inters.len() - 1;
        let inter = inters.last();
        let rest = all_tasks(ids, cs, rest_i);
        let last = interaction_tasks(ids, cs, inter);
        let all = all_tasks(ids, cs, inters);
        assert(all == rest + last);
        assert forall|q: int| 0 <= q < all.len() implies is_round_task(ids, inters, cs, #[trigger] all[q]) by {
            if q < rest.len() {
                assert(all[q] == rest[q]);
                let (t0, k0) = choose|t0: int, k0: int|
                    0 <= t0 < rest_i.len() && 0 <= k0 < cs.len() && #[trigger] matches_pair(cs[k0], rest_i[t0].a@, rest_i[t0].b@)
                        && match (index_of(ids, rest_i[t0].a@), index_of(ids, rest_i[t0].b@)) {
                        (Some(ia), Some(ib)) => rest[q] == (ia, ib, cs[k0].2, true) || rest[q] == (ib, ia, cs[k0].2, false),
                        _ => false,
                    };
                assert(inters[t0] == rest_i[t0]);
                assert(matches_pair(cs[k0], inters[t0].a@, inters[t0].b@));
            } else {
                match (index_of(ids, inter.a@), index_of(ids, inter.b@)) {
                    (Some(ia), Some(ib)) => {
                        let ka = key_tasks(cs, inter.a@, inter.b@, ia, ib, true);
                        let kb = key_tasks(cs, inter.b@, inter.a@, ib, ia, false);
                        assert(last == ka + kb);
                        lemma_key_tasks_from(cs, inter.a@, inter.b@, ia, ib, true);
                        lemma_key_tasks_from(cs, inter.b@, inter.a@, ib, ia, false);
                        let r = q - rest.len();
                        if r < ka.len() {
                            assert(all[q] == ka[r]);
                            let k = choose|k: int|
                                0 <= k < cs.len() && matches_pair(cs[k], inter.a@, inter.b@) && ka[r] == (ia, ib, cs[k].2, true);
                            assert(matches_pair(cs[k], inters[t].a@, inters[t].b@));
                        } else {
                            assert(all[q] == kb[r - ka.len()]);
                            let k = choose|k: int|
                                0 <= k < cs.len() && matches_pair(cs[k], inter.b@, inter.a@) && kb[r - ka.len()] == (ib, ia, cs[k].2, false);
                            assert(matches_pair(cs[k], inters[t].a@, inters[t].b@));
                        }
                    },
                    _ => {
                        assert(last.len() == 0);
                    },
                }
            }
        }
    }
}

/// Every task that an interaction asks of one of its cultures under a
/// constraint stored under its pair is among the round's tasks.
proof fn lemma_round_tasks_has(
    ids: Seq<Seq<char>>,
    inters: Seq<Interaction>,
    cs: Seq<(Seq<char>, Seq<char>, spec_fn(i32, i32) -> bool)>,
    t: int,
    k: int,
)
    requires
        0 <= t < inters.len(),
        0 <= k < cs.len(),
        matches_pair(cs[k], inters[t].a@, inters[t].b@),
        index_of(ids, inters[t].a@) is Some,
        index_of(ids, inters[t].b@) is Some,
    ensures
        ({
            let ia = index_of(ids, inters[t].a@)->0;
            let ib = index_of(ids, inters[t].b@)->0;
            &&& all_tasks(ids, cs, inters).contains((ia, ib, cs[k].2, true))
            &&& all_tasks(ids, cs, inters).contains((ib, ia, cs[k].2, false))
        }),
    decreases inters.len(),
{
    let rest_i = inters.drop_last();
    let inter = inters.last();
    let rest = all_tasks(ids, cs, rest_i);
    let last = interaction_tasks(ids, cs, inter);
    let all = all_tasks(ids, cs, inters);
    assert(all == rest + last);
    let ia = index_of(ids, inters[t].a@)->0;
    let ib = index_of(ids, inters[t].b@)->0;
    let pa = (ia, ib, cs[k].2, true);
    let pb = (ib, ia, cs[k].2, false);
    if t < inters.len() - 1 {
        assert(rest_i[t] == inters[t]);
        lemma_round_tasks_has(ids, rest_i, cs, t, k);
        let qa = choose|q: int| 0 <= q < rest.len() && rest[q] == pa;
        let qb = choose|q: int| 0 <= q < rest.len() && rest[q] == pb;
        assert(all[qa] == rest[qa]);
        assert(all[qb] == rest[qb]);
    } else {
        let ka = key_tasks(cs, inter.a@, inter.b@, ia, ib, true);
        let kb = key_tasks(cs, inter.b@, inter.a@, ib, ia, false);
        assert(last == ka + kb);
        lemma_key_tasks_has(cs, inter.a@, inter.b@, ia, ib, true, k);
        assert(matches_pair(cs[k], inter.b@, inter.a@));
        lemma_key_tasks_has(cs, inter.b@, inter.a@, ib, ia, false, k);
        let qa = choose|q: int| 0 <= q < ka.len() && ka[q] == pa;
        let qb = choose|q: int| 0 <= q < kb.len() && kb[q] == pb;
        assert(all[rest.len() as int + qa] == pa);
        assert(all[(rest.len() + ka.len()) as int + qb] == pb);
    }
}

/// One task leaves every domain a subsequence of what it was.
proof fn lemma_apply_task_shrinks(start: Seq<Seq<i32>>, d: Seq<Seq<i32>>, t: (int, int, spec_fn(i32, i32) -> bool, bool))
    requires
        d.len() == start.len(),
        0 <= t.0 < d.len(),
        0 <= t.1 < d.len(),
    ensures
        shrinks(apply_task(start, d, t), d),
{
    let nd = apply_task(start, d, t);
    assert forall|i: int| 0 <= i < d.len() implies is_subsequence(#[trigger] nd[i], d[i]) by {
        if i == t.0 {
            lemma_filter_subsequence(d[i], |v: i32| supported(t.2, v, start[t.1], t.3));
        } else {
            assert(nd[i] == d[i]);
            lemma_subsequence_refl(d[i]);
        }
    }
}

/// Applying tasks leaves every domain a subsequence of what it was.
proof fn lemma_apply_tasks_shrinks(start: Seq<Seq<i32>>, d: Seq<Seq<i32>>, ts: Seq<(int, int, spec_fn(i32, i32) -> bool, bool)>)
    requires
        d.len() == start.len(),
        tasks_valid(ts, d.len() as int),
    ensures
        shrinks(apply_tasks(start, d, ts), d),
    decreases ts.len(),
{
    if ts.len() == 0 {
        assert forall|i: int| 0 <= i < d.len() implies is_subsequence(#[trigger] d[i], d[i]) by {
            lemma_subsequence_refl(d[i]);
        }
    } else {
        let d1 = apply_task(start, d, ts[0]);
        lemma_apply_task_shrinks(start, d, ts[0]);
        let rest = ts.drop_first();
        assert(tasks_valid(rest, d.len() as int)) by {
            assert forall|q: int| 0 <= q < rest.len() implies 0 <= (#[trigger] rest[q]).0 < d.len() && 0 <= rest[q].1 < d.len() by {
                assert(rest[q] == ts[q + 1]);
            }
        }
        lemma_apply_tasks_shrinks(start, d1, rest);
        let f = apply_tasks(start, d1, rest);
        assert forall|i: int| 0 <= i < d.len() implies is_subsequence(#[trigger] f[i], d[i]) by {
            lemma_subsequence_trans(f[i], d1[i], d[i]);
        }
    }
}

/// Applying tasks changes nothing exactly when every task keeps the whole
/// domain it names.
proof fn lemma_apply_tasks_fixed(start: Seq<Seq<i32>>, d: Seq<Seq<i32>>, ts: Seq<(int, int, spec_fn(i32, i32) -> bool, bool)>)
    requires
        d.len() == start.len(),
        tasks_valid(ts, d.len() as int),
    ensures
        apply_tasks(start, d, ts) == d <==> forall|q: int| 0 <= q < ts.len() ==> task_keeps_all(start, d, #[trigger] ts[q]),
    decreases ts.len(),
{
    if ts.len() > 0 {
        let t = ts[0];
        let d1 = apply_task(start, d, t);
        let rest = ts.drop_first();
        assert(tasks_valid(rest, d.len() as int)) by {
            assert forall|q: int| 0 <= q < rest.len() implies 0 <= (#[trigger] rest[q]).0 < d.len() && 0 <= rest[q].1 < d.len() by {
                assert(rest[q] == ts[q + 1]);
            }
        }
        lemma_apply_task_shrinks(start, d, t);
        lemma_apply_tasks_shrinks(start, d1, rest);
        if task_keeps_all(start, d, t) {
            assert(d1 =~= d);
            lemma_apply_tasks_fixed(start, d, rest);
            assert((forall|q: int| 0 <= q < ts.len() ==> task_keeps_all(start, d, #[trigger] ts[q])) <==> (forall|q: int|
                0 <= q < rest.len() ==> task_keeps_all(start, d, #[trigger] rest[q]))) by {
                assert forall|q: int| 0 <= q < rest.len() implies rest[q] == ts[q + 1] by {}
                assert forall|q: int|
                    (forall|r: int| 0 <= r < rest.len() ==> task_keeps_all(start, d, #[trigger] rest[r])) && 0 <= q < ts.len()
                    implies task_keeps_all(start, d, #[trigger] ts[q]) by {
                    if q > 0 {
                        assert(ts[q] == rest[q - 1]);
                    }
                }
            }
        } else {
            // The first task shrinks its domain, and nothing afterwards grows it back.
            let f = apply_tasks(start, d1, rest);
            if f == d {
                let i = t.0;
                lemma_subsequence_len(f[i], d1[i]);
                lemma_subsequence_len(d1[i], d[i]);
                lemma_subsequence_full(d1[i], d[i]);
                assert(false);
            }
        }
    }
}

/// Domains only shrink: after a fermentation round every domain is a
/// subsequence of what it was (values are only removed, never added or
/// reordered), and the total number of values does not grow.
pub proof fn lemma_step_shrinks(
    ids: Seq<Seq<char>>,
    ds: Seq<Seq<i32>>,
    inters: Seq<Interaction>,
    cs: Seq<(Seq<char>, Seq<char>, spec_fn(i32, i32) -> bool)>,
)
    requires
        ids.len() == ds.len(),
    ensures
        shrinks(step_domains(ids, ds, inters, cs), ds),
        total_size(step_domains(ids, ds, inters, cs)) <= total_size(ds),
{
    lemma_all_tasks_index(ids, cs, inters);
    lemma_apply_tasks_shrinks(ds, ds, all_tasks(ids, cs, inters));
    lemma_shrinks_total(step_domains(ids, ds, inters, cs), ds);
}

/// Shrunk domains hold no more values in all.
pub proof fn lemma_shrinks_total(nd: Seq<Seq<i32>>, ds: Seq<Seq<i32>>)
    requires
        shrinks(nd, ds),
    ensures
        total_size(nd) <= total_size(ds),
        total_size(nd) == total_size(ds) ==> nd == ds,
    decreases ds.len(),
{
    if ds.len() > 0 {
        let n1 = nd.drop_last();
        let d1 = ds.drop_last();
        assert forall|i: int| 0 <= i < d1.len() implies is_subsequence(#[trigger] n1[i], d1[i]) by {
            assert(n1[i] == nd[i] && d1[i] == ds[i]);
        }
        lemma_shrinks_total(n1, d1);
        assert(is_subsequence(nd[nd.len() - 1], ds[ds.len() - 1]));
        lemma_subsequence_len(nd.last(), ds.last());
        if total_size(nd) == total_size(ds) {
            lemma_subsequence_full(nd.last(), ds.last());
            assert(nd =~= ds) by {
                assert forall|i: int| 0 <= i < ds.len() implies nd[i] == ds[i] by {
                    if i < ds.len() - 1 {
                        assert(n1[i] == nd[i] && d1[i] == ds[i]);
                    }
                }
            }
        }
    }
}

/// A fermentation round changes nothing exactly when the consortium is arc
/// consistent.
pub proof fn lemma_fixpoint_iff_arc_consistent(
    ids: Seq<Seq<char>>,
    ds: Seq<Seq<i32>>,
    inters: Seq<Interaction>,
    cs: Seq<(Seq<char>, Seq<char>, spec_fn(i32, i32) -> bool)>,
)
    requires
        ids.len() == ds.len(),
    ensures
        step_domains(ids, ds, inters, cs) == ds <==> arc_consistent(ids, ds, inters, cs),
{
    let ts = all_tasks(ids, cs, inters);
    lemma_all_tasks_index(ids, cs, inters);
    lemma_round_tasks_from(ids, inters, cs);
    lemma_apply_tasks_fixed(ds, ds, ts);
    if step_domains(ids, ds, inters, cs) == ds {
        assert forall|t: int, k: int|
            0 <= t < inters.len() && 0 <= k < cs.len() && #[trigger] matches_pair(cs[k], inters[t].a@, inters[t].b@) implies
            match (index_of(ids, inters[t].a@), index_of(ids, inters[t].b@)) {
                (Some(ia), Some(ib)) => (forall|j: int|
                    0 <= j < ds[ia].len() ==> supported(cs[k].2, #[trigger] ds[ia][j], ds[ib], true))
                    && (forall|j: int|
                    0 <= j < ds[ib].len() ==> supported(cs[k].2, #[trigger] ds[ib][j], ds[ia], false)),
                _ => true,
            } by {
            lemma_index_of(ids, inters[t].a@);
            lemma_index_of(ids, inters[t].b@);
            match (index_of(ids, inters[t].a@), index_of(ids, inters[t].b@)) {
                (Some(ia), Some(ib)) => {
                    lemma_round_tasks_has(ids, inters, cs, t, k);
                    let pa = (ia, ib, cs[k].2, true);
                    let pb = (ib, ia, cs[k].2, false);
                    let qa = choose|q: int| 0 <= q < ts.len() && ts[q] == pa;
                    let qb = choose|q: int| 0 <= q < ts.len() && ts[q] == pb;
                    assert(task_keeps_all(ds, ds, ts[qa]));
                    assert(task_keeps_all(ds, ds, ts[qb]));
                    lemma_filter_keeps_all(ds[ia], |v: i32| supported(cs[k].2, v, ds[ib], true));
                    lemma_filter_keeps_all(ds[ib], |v: i32| supported(cs[k].2, v, ds[ia], false));
                },
                _ => {},
            }
        }
    }
    if arc_consistent(ids, ds, inters, cs) {
        assert forall|q: int| 0 <= q < ts.len() implies task_keeps_all(ds, ds, #[trigger] ts[q]) by {
            let p = ts[q];
            let (t, k) = choose|t: int, k: int|
                0 <= t < inters.len() && 0 <= k < cs.len() && #[trigger] matches_pair(cs[k], inters[t].a@, inters[t].b@)
                    && match (index_of(ids, inters[t].a@), index_of(ids, inters[t].b@)) {
                    (Some(ia), Some(ib)) => p == (ia, ib, cs[k].2, true) || p == (ib, ia, cs[k].2, false),
                    _ => false,
                };
            let ia = index_of(ids, inters[t].a@)->0;
            let ib = index_of(ids, inters[t].b@)->0;
            if p == (ia, ib, cs[k].2, true) {
                lemma_filter_all(ds[ia], |v: i32| supported(cs[k].2, v, ds[ib], true));
            } else {
                lemma_filter_all(ds[ib], |v: i32| supported(cs[k].2, v, ds[ia], false));
            }
        }
    }
}

/// A domain never holds more values than all domains together.
proof fn lemma_total_size_element(ds: Seq<Seq<i32>>, i: int)
    requires
        0 <= i < ds.len(),
    ensures
        ds[i].len() <= total_size(ds),
    decreases ds.len(),
{
    if i < ds.len() - 1 {
        lemma_total_size_element(ds.drop_last(), i);
        assert(ds.drop_last()[i] == ds[i]);
    }
}

/// Domains that are not all settled hold at least two values in all.
pub proof fn lemma_unsettled_total(ds: Seq<Seq<i32>>)
    requires
        !all_settled(ds),
    ensures
        total_size(ds) >= 2,
{
    let i = choose|i: int| 0 <= i < ds.len() && !(ds[i].len() <= 1);
    lemma_total_size_element(ds, i);
}

/// What fermentation until convergence guarantees, from domains `ds` with
/// counter `it` and at most `fuel` rounds: it ends with domains that are
/// subsequences of the starting ones; it runs at most `fuel` rounds and at
/// most one more round than there are values (each round but the last
/// removes a value, and a first round that removes none is followed by one
/// that ends the run); and unless it used up every round it ends converged,
/// with an empty domain, or arc consistent.
pub proof fn lemma_run(
    ids: Seq<Seq<char>>,
    inters: Seq<Interaction>,
    cs: Seq<(Seq<char>, Seq<char>, spec_fn(i32, i32) -> bool)>,
    ds: Seq<Seq<i32>>,
    it: int,
    fuel: nat,
)
    requires
        ids.len() == ds.len(),
        it >= 0,
    ensures
        ({
            let (fd, fit) = run(ids, inters, cs, ds, it, fuel);
            &&& shrinks(fd, ds)
            &&& total_size(fd) <= total_size(ds)
            &&& it <= fit <= it + fuel
            &&& fit - it <= total_size(ds) + 1
            &&& (fit - it == fuel || all_settled(fd) || some_dead(fd) || arc_consistent(ids, fd, inters, cs))
        }),
    decreases fuel,
{
    let (fd, fit) = run(ids, inters, cs, ds, it, fuel);
    if fuel == 0 || all_settled(ds) || some_dead(ds) {
        assert forall|i: int| 0 <= i < ds.len() implies is_subsequence(#[trigger] ds[i], ds[i]) by {
            lemma_subsequence_refl(ds[i]);
        }
    } else {
        let nd = step_domains(ids, ds, inters, cs);
        lemma_step_shrinks(ids, ds, inters, cs);
        lemma_shrinks_total(nd, ds);
        lemma_unsettled_total(ds);
        if total_size(nd) == total_size(ds) && it + 1 > 1 {
            assert(nd == ds);
            lemma_fixpoint_iff_arc_consistent(ids, ds, inters, cs);
        } else if total_size(nd) == total_size(ds) {
            // A first round that pruned nothing: the next round starts from
            // the same domains and ends the run.
            assert(it == 0);
            assert(nd == ds);
            lemma_fixpoint_iff_arc_consistent(ids, ds, inters, cs);
            assert forall|i: int| 0 <= i < ds.len() implies is_subsequence(#[trigger] ds[i], ds[i]) by {
                lemma_subsequence_refl(ds[i]);
            }
            let f1 = (fuel - 1) as nat;
            if f1 > 0 {
                assert(run(ids, inters, cs, ds, 1, f1) == (ds, 2int));
            } else {
                assert(run(ids, inters, cs, ds, 1, f1) == (ds, 1int));
            }
        } else {
            lemma_run(ids, inters, cs, nd, it + 1, (fuel - 1) as nat);
            assert forall|i: int| 0 <= i < ds.len() implies is_subsequence(#[trigger] fd[i], ds[i]) by {
                lemma_subsequence_trans(fd[i], nd[i], ds[i]);
            }
        }
    }
}

} // verus!
