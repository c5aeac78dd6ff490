//! A culture: one constraint variable and the values still feasible for it.
use vstd::prelude::*;
use crate::relation::{Constraint, callable, relation_of};
use crate::subsequence::{is_subsequence, lemma_filter_subsequence};

verus! {

/// A constraint "culture": a constraint variable and its remaining domain.
#[derive(Debug, Clone)]
pub struct Culture {
    /// Unique identifier, maps to a CSP variable name
    pub id: String,
    /// Domain: the remaining feasible values for this variable
    pub domain: Vec<i32>,
}

/// Whether `v` has a partner in `other` under `r`: `r(v, w)` for some `w`
/// when `forward`, `r(w, v)` for some `w` otherwise.
pub open spec fn supported(r: spec_fn(i32, i32) -> bool, v: i32, other: Seq<i32>, forward: bool) -> bool {
    exists|k: int|
        0 <= k < other.len() && (if forward {
            r(v, #[trigger] other[k])
        } else {
            r(other[k], v)
        })
}

/// The values of `dom` that keep a partner in `other` under `r`, in their order.
pub open spec fn revise(dom: Seq<i32>, other: Seq<i32>, r: spec_fn(i32, i32) -> bool, forward: bool) -> Seq<i32> {
    dom.filter(|v: i32| supported(r, v, other, forward))
}

/// Whether `v` has a partner in `other` under the constraint `c` (see `supported`).
pub fn has_support<C: Constraint>(c: &C, v: i32, other: &[i32], forward: bool) -> (res: bool)
    requires
        c.admissible(),
    ensures
        res == supported(relation_of(*c), v, other@, forward),
{
    let ghost r = relation_of(*c);
    let mut k: usize = 0;
    while k < other.len()
        invariant
            k <= other@.len(),
            c.admissible(),
            r == relation_of(*c),
            forall|j: int|
                0 <= j < k ==> !(if forward {
                    r(v, #[trigger] other@[j])
                } else {
                    r(other@[j], v)
                }),
        decreases other@.len() - k,
    {
        let w = other[k];
        let ok = if forward { c.check(v, w) } else { c.check(w, v) };
        if ok {
            assert(other@[k as int] == w);
            return true;
        }
        k = k + 1;
    }
    false
}

/// The values of `dom` that keep a partner in `other` under the constraint `c`.
pub fn revise_domain<C: Constraint>(dom: &[i32], other: &[i32], c: &C, forward: bool) -> (res: Vec<i32>)
    requires
        c.admissible(),
    ensures
        res@ == revise(dom@, other@, relation_of(*c), forward),
{
    let ghost pred = |v: i32| supported(relation_of(*c), v, other@, forward);
    let mut res: Vec<i32> = Vec::new();
    let mut i: usize = 0;
    while i < dom.len()
        invariant
            i <= dom@.len(),
            c.admissible(),
            pred == (|v: i32| supported(relation_of(*c), v, other@, forward)),
            res@ == dom@.take(i as int).filter(pred),
        decreases dom@.len() - i,
    {
        let v = dom[i];
        proof {
            reveal(Seq::filter);
            assert(dom@.take(i + 1).drop_last() =~= dom@.take(i as int));
            assert(dom@.take(i + 1).last() == v);
        }
        if has_support(c, v, other, forward) {
            res.push(v);
        }
        i = i + 1;
    }
    proof {
        assert(dom@.take(dom@.len() as int) =~= dom@);
    }
    res
}

impl Culture {
    /// Create a new culture with the given id and domain.
    pub fn new(id: &str, domain: Vec<i32>) -> (c: Culture)
        ensures
            c.id@ == id@,
            c.domain@ == domain@,
    {
        Culture { id: String::from_str(id), domain }
    }

    /// Current domain size.
    pub fn domain_size(&self) -> (n: usize)
        ensures
            n == self.domain@.len(),
    {
        self.domain.len()
    }

    /// Whether this culture is still viable (non-empty domain).
    pub fn is_alive(&self) -> (b: bool)
        ensures
            b == (self.domain@.len() > 0),
    {
        self.domain.len() != 0
    }

    /// Remove the values `v` for which `constraint(v, n)` holds of no `n`
    /// in `neighbor_domain`. Returns the number of values removed.
    pub fn prune_domain<F: Fn(i32, i32) -> bool>(&mut self, neighbor_domain: &[i32], constraint: &F) -> (removed: usize)
        requires
            callable(*constraint),
        ensures
            final(self).id == old(self).id,
            final(self).domain@ == revise(old(self).domain@, neighbor_domain@, relation_of(*constraint), true),
            removed == old(self).domain@.len() - final(self).domain@.len(),
            is_subsequence(final(self).domain@, old(self).domain@),
    {
        let before = self.domain.len();
        let kept = revise_domain(self.domain.as_slice(), neighbor_domain, constraint, true);
        proof {
            old(self).domain@.lemma_filter_len(|v: i32| supported(relation_of(*constraint), v, neighbor_domain@, true));
            lemma_filter_subsequence(old(self).domain@, |v: i32| supported(relation_of(*constraint), v, neighbor_domain@, true));
        }
        let removed = before - kept.len();
        self.domain = kept;
        removed
    }
}

/// Builder for cultures with a fluent API.
#[derive(Debug, Clone)]
pub struct CultureBuilder {
    id: String,
    domain: Vec<i32>,
}

impl CultureBuilder {
    /// The id that the built culture will carry.
    pub closed spec fn spec_id(&self) -> Seq<char> {
        self.id@
    }

    /// The domain that the built culture will carry.
    pub closed spec fn spec_domain(&self) -> Seq<i32> {
        self.domain@
    }

    /// Start a culture with the given id and an empty domain.
    pub fn new(id: &str) -> (b: CultureBuilder)
        ensures
            b.spec_id() == id@,
            b.spec_domain() == Seq::<i32>::empty(),
    {
        CultureBuilder { id: String::from_str(id), domain: Vec::new() }
    }

    /// Set the domain.
    pub fn domain(self, domain: Vec<i32>) -> (b: CultureBuilder)
        ensures
            b.spec_id() == self.spec_id(),
            b.spec_domain() == domain@,
    {
        CultureBuilder { id: self.id, domain }
    }

    /// The culture with the id and domain set so far.
    pub fn build(self) -> (c: Culture)
        ensures
            c.id@ == self.spec_id(),
            c.domain@ == self.spec_domain(),
    {
        Culture { id: self.id, domain: self.domain }
    }
}

} // verus!
