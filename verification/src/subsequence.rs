//! Subsequences: what is left of a sequence once some of its values are
//! dropped, the rest kept in order.
use vstd::prelude::*;

verus! {

/// `f` places each value of `a` at a position of `b` holding it, positions
/// strictly increasing.
pub open spec fn embeds(a: Seq<i32>, b: Seq<i32>, f: Seq<int>) -> bool {
    &&& f.len() == a.len()
    &&& forall|i: int| 0 <= i < a.len() ==> 0 <= #[trigger] f[i] < b.len() && a[i] == b[f[i]]
    &&& forall|i: int, j: int| 0 <= i < j < a.len() ==> #[trigger] f[i] < #[trigger] f[j]
}

/// Whether `a` is `b` with some values dropped and the rest kept in order.
pub open spec fn is_subsequence(a: Seq<i32>, b: Seq<i32>) -> bool {
    exists|f: Seq<int>| embeds(a, b, f)
}

/// Every sequence is a subsequence of itself.
pub proof fn lemma_subsequence_refl(a: Seq<i32>)
    ensures
        is_subsequence(a, a),
{
    let f = Seq::new(a.len(), |i: int| i);
    assert(embeds(a, a, f));
}

/// A subsequence of a subsequence is a subsequence.
pub proof fn lemma_subsequence_trans(a: Seq<i32>, b: Seq<i32>, c: Seq<i32>)
    requires
        is_subsequence(a, b),
        is_subsequence(b, c),
    ensures
        is_subsequence(a, c),
{
    let f = choose|f: Seq<int>| embeds(a, b, f);
    let g = choose|g: Seq<int>| embeds(b, c, g);
    let h = Seq::new(a.len(), |i: int| g[f[i]]);
    assert forall|i: int, j: int| 0 <= i < j < a.len() implies #[trigger] h[i] < #[trigger] h[j] by {
        assert(f[i] < f[j]);
    }
    assert forall|i: int| 0 <= i < a.len() implies 0 <= #[trigger] h[i] < c.len() && a[i] == c[h[i]] by {
        assert(0 <= f[i] < b.len());
    }
    assert(embeds(a, c, h));
}

/// What a filter keeps is a subsequence.
pub proof fn lemma_filter_subsequence(s: Seq<i32>, pred: spec_fn(i32) -> bool)
    ensures
        is_subsequence(s.filter(pred), s),
    decreases s.len(),
{
    reveal(Seq::filter);
    if s.len() == 0 {
        lemma_subsequence_refl(s);
    } else {
        let rest = s.drop_last();
        lemma_filter_subsequence(rest, pred);
        let fr = rest.filter(pred);
        let f = choose|f: Seq<int>| embeds(fr, rest, f);
        assert(embeds(fr, s, f)) by {
            assert forall|i: int| 0 <= i < fr.len() implies 0 <= #[trigger] f[i] < s.len() && fr[i] == s[f[i]] by {
                assert(rest[f[i]] == s[f[i]]);
            }
        }
        if pred(s.last()) {
            let a = fr.push(s.last());
            let g = f.push(s.len() - 1);
            assert forall|i: int| 0 <= i < a.len() implies 0 <= #[trigger] g[i] < s.len() && a[i] == s[g[i]] by {
                if i < fr.len() {
                    assert(g[i] == f[i] && a[i] == fr[i]);
                }
            }
            assert forall|i: int, j: int| 0 <= i < j < a.len() implies #[trigger] g[i] < #[trigger] g[j] by {
                if j < fr.len() {
                    assert(g[i] == f[i] && g[j] == f[j]);
                } else {
                    assert(g[i] == f[i]);
                }
            }
            assert(embeds(a, s, g));
        }
    }
}

/// Positions of an embedding grow at least one by one from the front and
/// leave room for the rest at the back.
proof fn lemma_embedding_room(a: Seq<i32>, b: Seq<i32>, f: Seq<int>, i: int)
    requires
        embeds(a, b, f),
        0 <= i < a.len(),
    ensures
        i <= f[i] <= b.len() - a.len() + i,
    decreases a.len() - i,
{
    lemma_embedding_front(a, b, f, i);
    if i < a.len() - 1 {
        lemma_embedding_room(a, b, f, i + 1);
        assert(f[i] < f[i + 1]);
    }
}

proof fn lemma_embedding_front(a: Seq<i32>, b: Seq<i32>, f: Seq<int>, i: int)
    requires
        embeds(a, b, f),
        0 <= i < a.len(),
    ensures
        i <= f[i],
    decreases i,
{
    if i > 0 {
        lemma_embedding_front(a, b, f, i - 1);
        assert(f[i - 1] < f[i]);
    }
}

/// A subsequence is no longer than the sequence it comes from.
pub proof fn lemma_subsequence_len(a: Seq<i32>, b: Seq<i32>)
    requires
        is_subsequence(a, b),
    ensures
        a.len() <= b.len(),
{
    let f = choose|f: Seq<int>| embeds(a, b, f);
    if a.len() > 0 {
        lemma_embedding_room(a, b, f, 0);
    }
}

/// A subsequence as long as the sequence it comes from is that sequence.
pub proof fn lemma_subsequence_full(a: Seq<i32>, b: Seq<i32>)
    requires
        is_subsequence(a, b),
        a.len() == b.len(),
    ensures
        a == b,
{
    let f = choose|f: Seq<int>| embeds(a, b, f);
    assert forall|i: int| 0 <= i < a.len() implies a[i] == b[i] by {
        lemma_embedding_room(a, b, f, i);
    }
    assert(a =~= b);
}

/// A filter that keeps as many values as there are keeps every value.
pub proof fn lemma_filter_keeps_all(s: Seq<i32>, pred: spec_fn(i32) -> bool)
    requires
        s.filter(pred).len() == s.len(),
    ensures
        forall|k: int| 0 <= k < s.len() ==> pred(#[trigger] s[k]),
        s.filter(pred) == s,
    decreases s.len(),
{
    reveal(Seq::filter);
    if s.len() > 0 {
        let rest = s.drop_last();
        rest.lemma_filter_len(pred);
        if !pred(s.last()) {
            assert(false);
        }
        lemma_filter_keeps_all(rest, pred);
        assert forall|k: int| 0 <= k < s.len() implies pred(#[trigger] s[k]) by {
            if k < s.len() - 1 {
                assert(s[k] == rest[k]);
            }
        }
        assert(s.filter(pred) =~= s);
    }
}

/// A filter whose predicate holds of every value keeps the whole sequence.
pub proof fn lemma_filter_all(s: Seq<i32>, pred: spec_fn(i32) -> bool)
    requires
        forall|k: int| 0 <= k < s.len() ==> pred(#[trigger] s[k]),
    ensures
        s.filter(pred) == s,
    decreases s.len(),
{
    reveal(Seq::filter);
    if s.len() > 0 {
        let rest = s.drop_last();
        assert forall|k: int| 0 <= k < rest.len() implies pred(#[trigger] rest[k]) by {
            assert(rest[k] == s[k]);
        }
        lemma_filter_all(rest, pred);
        assert(pred(s[s.len() - 1]));
        assert(s.filter(pred) =~= s);
    }
}

} // verus!
