//! Convergence certificates for fermented consortia.
use vstd::prelude::*;
use crate::consortium::{Consortium, Interaction, all_settled, some_dead, total_size, run};
use crate::fermentation::lemma_run;
use crate::text::{bool_text, decimal, push_bool, push_decimal};

verus! {

/// Convergence bound: the complexity class a fermentation run reached.
#[derive(Debug, Clone, Copy, PartialEq, Eq, Structural)]
pub enum ConvergenceBound {
    /// Converges in O(n²d²) matching standard AC-3
    AC3Equivalent,
    /// Converges faster due to mutualistic acceleration
    Accelerated,
    /// Did not converge within bounds
    Divergent,
    /// Unsatisfiable detected (empty domain)
    Unsatisfiable,
}

/// Certificate of convergence for a fermented consortium.
#[derive(Debug, Clone, Copy)]
pub struct ConvergenceProof {
    /// Whether the consortium converged
    pub converged: bool,
    /// Number of iterations to convergence
    pub iterations: usize,
    /// Number of variables (cultures)
    pub n: usize,
    /// Maximum initial domain size
    pub d: usize,
    /// Total domain reduction achieved
    pub total_reduction: usize,
    /// Theoretical bound: n² * d²
    pub theoretical_bound: usize,
    /// The bound classification
    pub bound: ConvergenceBound,
    /// Whether population was bounded throughout
    pub population_bounded: bool,
    /// Whether domain reduction was monotone
    pub monotone_reduction: bool,
}

/// The largest domain size (0 when there are no domains).
pub open spec fn max_size(ds: Seq<Seq<i32>>) -> nat
    decreases ds.len(),
{
    if ds.len() == 0 {
        0
    } else if max_size(ds.drop_last()) >= ds.last().len() {
        max_size(ds.drop_last())
    } else {
        ds.last().len()
    }
}

/// The classification of a run: unsatisfiable when a domain is empty;
/// otherwise, when converged, accelerated if it took at most `n * d`
/// iterations within the bound and AC-3 equivalent else; divergent when not
/// converged.
pub open spec fn classify(dead: bool, converged: bool, iterations: nat, bound: nat, nd: nat) -> ConvergenceBound {
    if dead {
        ConvergenceBound::Unsatisfiable
    } else if converged && iterations <= bound {
        if iterations <= nd {
            ConvergenceBound::Accelerated
        } else {
            ConvergenceBound::AC3Equivalent
        }
    } else if converged {
        ConvergenceBound::AC3Equivalent
    } else {
        ConvergenceBound::Divergent
    }
}

/// The name of a bound, as summaries print it.
pub open spec fn bound_name(b: ConvergenceBound) -> Seq<char> {
    match b {
        ConvergenceBound::AC3Equivalent => "AC3Equivalent"@,
        ConvergenceBound::Accelerated => "Accelerated"@,
        ConvergenceBound::Divergent => "Divergent"@,
        ConvergenceBound::Unsatisfiable => "Unsatisfiable"@,
    }
}

/// The summary line of a certificate.
pub open spec fn summary_text(p: ConvergenceProof) -> Seq<char> {
    "ConvergenceProof: converged="@ + bool_text(p.converged) + ", iterations="@ + decimal(
        p.iterations as nat,
    ) + ", n="@ + decimal(p.n as nat) + ", d="@ + decimal(p.d as nat) + ", reduction="@ + decimal(
        p.total_reduction as nat,
    ) + ", bound=O(n²d²)="@ + bound_name(p.bound) + ", theoretical_bound="@ + decimal(
        p.theoretical_bound as nat,
    ) + ", pop_bounded="@ + bool_text(p.population_bounded) + ", monotone="@ + bool_text(
        p.monotone_reduction,
    )
}

/// Whether a certificate is self-consistent: a converged run is neither
/// divergent nor unsatisfiable, and its reduction is monotone.
pub open spec fn consistent(p: ConvergenceProof) -> bool {
    !(p.converged && p.bound == ConvergenceBound::Divergent) && !(p.bound
        == ConvergenceBound::Unsatisfiable && p.converged) && !(!p.monotone_reduction && p.converged)
}

/// The certificate for a run from the domains `initial` to the domains
/// `fin`, after `iterations` rounds: n is the number of final cultures, d the
/// largest initial domain, the bound n²d², the reduction the drop in total
/// domain size (0 if it grew), converged when every final domain is settled,
/// monotone when the total did not grow; `population_bounded` is recorded
/// as given.
pub open spec fn certificate_of(
    initial: Seq<Seq<i32>>,
    fin: Seq<Seq<i32>>,
    iterations: usize,
    population_bounded: bool,
) -> ConvergenceProof {
    let n = fin.len();
    let d = max_size(initial);
    let it = total_size(initial);
    let ft = total_size(fin);
    let converged = all_settled(fin);
    ConvergenceProof {
        converged,
        iterations,
        n: n as usize,
        d: d as usize,
        total_reduction: (if ft <= it { it - ft } else { 0 }) as usize,
        theoretical_bound: (n * n * d * d) as usize,
        bound: classify(some_dead(fin), converged, iterations as nat, n * n * d * d, n * d),
        population_bounded,
        monotone_reduction: ft <= it,
    }
}

/// The arithmetic of `prove` stays within `usize`: `n * n * d * d`, computed
/// left to right, does not overflow.
pub open spec fn bound_fits(n: nat, d: nat) -> bool {
    &&& n * n <= usize::MAX
    &&& n * n * d <= usize::MAX
    &&& n * n * d * d <= usize::MAX
}

/// The largest domain size of the cultures.
fn max_domain_size(c: &Consortium) -> (m: usize)
    ensures
        m == max_size(c.domains()),
{
    let ghost ds = c.domains();
    let mut m: usize = 0;
    let mut i: usize = 0;
    while i < c.cultures.len()
        invariant
            i <= c.cultures@.len(),
            ds == c.domains(),
            m == max_size(ds.take(i as int)),
        decreases c.cultures@.len() - i,
    {
        proof {
            assert(ds.take(i + 1).drop_last() =~= ds.take(i as int));
        }
        let len = c.cultures[i].domain.len();
        if len > m {
            m = len;
        }
        i = i + 1;
    }
    proof {
        assert(ds.take(i as int) =~= ds);
    }
    m
}

proof fn lemma_nd_fits(n: nat, d: nat)
    requires
        bound_fits(n, d),
    ensures
        n * d <= usize::MAX,
{
    if n > 0 {
        assert(n * d <= n * n * d) by (nonlinear_arith)
            requires
                n > 0,
        ;
    } else {
        assert(n * d == 0) by (nonlinear_arith)
            requires
                n == 0,
        ;
    }
}

impl ConvergenceProof {
    /// Certificate for a consortium fermented from `initial` into `final_consortium`.
    /// `population_bounded` records whether the final total population stayed
    /// within the initial one.
    pub fn prove(initial_consortium: &Consortium, final_consortium: &Consortium, population_bounded: bool) -> (p: ConvergenceProof)
        requires
            total_size(initial_consortium.domains()) <= usize::MAX,
            total_size(final_consortium.domains()) <= usize::MAX,
            bound_fits(final_consortium.domains().len(), max_size(initial_consortium.domains())),
        ensures
            p == certificate_of(
                initial_consortium.domains(),
                final_consortium.domains(),
                final_consortium.iteration,
                population_bounded,
            ),
    {
        let n = final_consortium.cultures.len();
        let d = max_domain_size(initial_consortium);
        let initial_total = initial_consortium.total_domain_size();
        let final_total = final_consortium.total_domain_size();
        let total_reduction = if final_total <= initial_total { initial_total - final_total } else { 0 };
        proof {
            lemma_nd_fits(n as nat, d as nat);
        }
        let theoretical_bound = n * n * d * d;
        let converged = final_consortium.is_converged();
        let has_dead = final_consortium.has_dead();
        let bound = if has_dead {
            ConvergenceBound::Unsatisfiable
        } else if converged && final_consortium.iteration <= theoretical_bound {
            if final_consortium.iteration <= n * d {
                ConvergenceBound::Accelerated
            } else {
                ConvergenceBound::AC3Equivalent
            }
        } else if converged {
            ConvergenceBound::AC3Equivalent
        } else {
            ConvergenceBound::Divergent
        };
        let monotone_reduction = final_total <= initial_total;
        ConvergenceProof {
            converged,
            iterations: final_consortium.iteration,
            n,
            d,
            total_reduction,
            theoretical_bound,
            bound,
            population_bounded,
            monotone_reduction,
        }
    }

    /// Whether the certificate is self-consistent (see `consistent`).
    pub fn verify(&self) -> (b: bool)
        ensures
            b == consistent(*self),
    {
        if self.converged && self.bound == ConvergenceBound::Divergent {
            return false;
        }
        if self.bound == ConvergenceBound::Unsatisfiable && self.converged {
            return false;
        }
        if !self.monotone_reduction && self.converged {
            return false;
        }
        true
    }

    /// Human-readable summary.
    pub fn summary(&self) -> (s: String)
        ensures
            s@ == summary_text(*self),
    {
        let mut s = String::from_str("ConvergenceProof: converged=");
        push_bool(&mut s, self.converged);
        s.append(", iterations=");
        push_decimal(&mut s, self.iterations);
        s.append(", n=");
        push_decimal(&mut s, self.n);
        s.append(", d=");
        push_decimal(&mut s, self.d);
        s.append(", reduction=");
        push_decimal(&mut s, self.total_reduction);
        s.append(", bound=O(n²d²)=");
        let name = match self.bound {
            ConvergenceBound::AC3Equivalent => "AC3Equivalent",
            ConvergenceBound::Accelerated => "Accelerated",
            ConvergenceBound::Divergent => "Divergent",
            ConvergenceBound::Unsatisfiable => "Unsatisfiable",
        };
        s.append(name);
        s.append(", theoretical_bound=");
        push_decimal(&mut s, self.theoretical_bound);
        s.append(", pop_bounded=");
        push_bool(&mut s, self.population_bounded);
        s.append(", monotone=");
        push_bool(&mut s, self.monotone_reduction);
        s
    }
}

/// A certificate is consistent exactly when its run did not end converged
/// with an empty domain or with more values than it began with; an empty
/// final domain always classifies the run as unsatisfiable.
pub proof fn lemma_certificate_consistency(
    initial: Seq<Seq<i32>>,
    fin: Seq<Seq<i32>>,
    iterations: usize,
    population_bounded: bool,
)
    ensures
        consistent(certificate_of(initial, fin, iterations, population_bounded)) <==> !(all_settled(fin) && (
        some_dead(fin) || total_size(fin) > total_size(initial))),
        some_dead(fin) ==> certificate_of(initial, fin, iterations, population_bounded).bound
            == ConvergenceBound::Unsatisfiable,
{
}

/// The certificate of a fermentation run records a monotone reduction, and
/// it is consistent unless the run ended converged with an empty domain.
pub proof fn lemma_fermentation_certificate(
    ids: Seq<Seq<char>>,
    inters: Seq<Interaction>,
    cs: Seq<(Seq<char>, Seq<char>, spec_fn(i32, i32) -> bool)>,
    ds: Seq<Seq<i32>>,
    it: int,
    fuel: nat,
    population_bounded: bool,
)
    requires
        ids.len() == ds.len(),
        0 <= it,
        run(ids, inters, cs, ds, it, fuel).1 <= usize::MAX,
    ensures
        ({
            let (fd, fit) = run(ids, inters, cs, ds, it, fuel);
            let p = certificate_of(ds, fd, fit as usize, population_bounded);
            &&& p.monotone_reduction
            &&& (consistent(p) <==> !(all_settled(fd) && some_dead(fd)))
        }),
{
    lemma_run(ids, inters, cs, ds, it, fuel);
    let (fd, fit) = run(ids, inters, cs, ds, it, fuel);
    lemma_certificate_consistency(ds, fd, fit as usize, population_bounded);
}

/// The largest domain size is an upper bound on every domain size and, when
/// there is a domain, the size of one of them; with none it is 0.
pub proof fn lemma_max_size(ds: Seq<Seq<i32>>)
    ensures
        forall|i: int| 0 <= i < ds.len() ==> #[trigger] ds[i].len() <= max_size(ds),
        ds.len() > 0 ==> exists|i: int| 0 <= i < ds.len() && #[trigger] ds[i].len() == max_size(ds),
        ds.len() == 0 ==> max_size(ds) == 0,
    decreases ds.len(),
{
    if ds.len() > 0 {
        let rest = ds.drop_last();
        lemma_max_size(rest);
        assert forall|i: int| 0 <= i < ds.len() implies #[trigger] ds[i].len() <= max_size(ds) by {
            if i < rest.len() {
                assert(ds[i] == rest[i]);
            }
        }
        if max_size(rest) >= ds.last().len() && rest.len() > 0 {
            let i = choose|i: int| 0 <= i < rest.len() && #[trigger] rest[i].len() == max_size(rest);
            assert(ds[i] == rest[i]);
        } else {
            assert(ds[ds.len() - 1].len() == max_size(ds));
        }
    }
}

/// How a certificate classifies a run, read from the domains it started and
/// ended with (n final cultures, d the largest initial domain size):
/// unsatisfiable when a final domain is empty; otherwise, when every final
/// domain holds one value, accelerated within n·d iterations and AC-3
/// equivalent beyond; divergent when no final domain is empty and one still
/// holds two or more values. It records whether every final domain holds at
/// most one value, the iterations, whether the values shrank in total and by
/// how many (0 when they grew), and, when n²d² fits, n, n²d² and (with at
/// least one culture) d.
pub proof fn lemma_certificate_bound(
    initial: Seq<Seq<i32>>,
    fin: Seq<Seq<i32>>,
    iterations: usize,
    population_bounded: bool,
)
    ensures
        ({
            let p = certificate_of(initial, fin, iterations, population_bounded);
            let nd = fin.len() * max_size(initial);
            &&& (exists|i: int| 0 <= i < fin.len() && #[trigger] fin[i].len() == 0) ==> p.bound
                == ConvergenceBound::Unsatisfiable
            &&& (forall|i: int| 0 <= i < fin.len() ==> #[trigger] fin[i].len() == 1) && iterations <= nd
                ==> p.bound == ConvergenceBound::Accelerated
            &&& (forall|i: int| 0 <= i < fin.len() ==> #[trigger] fin[i].len() == 1) && iterations > nd
                ==> p.bound == ConvergenceBound::AC3Equivalent
            &&& (forall|i: int| 0 <= i < fin.len() ==> #[trigger] fin[i].len() >= 1) && (exists|i: int|
                0 <= i < fin.len() && #[trigger] fin[i].len() >= 2) ==> p.bound == ConvergenceBound::Divergent
            &&& p.converged == (forall|i: int| 0 <= i < fin.len() ==> #[trigger] fin[i].len() <= 1)
            &&& p.monotone_reduction == (total_size(fin) <= total_size(initial))
            &&& total_size(initial) <= usize::MAX ==> p.total_reduction + total_size(fin) == total_size(initial)
                || (p.total_reduction == 0 && total_size(fin) > total_size(initial))
            &&& p.iterations == iterations
            &&& p.population_bounded == population_bounded
            &&& bound_fits(fin.len(), max_size(initial)) ==> p.n == fin.len() && p.theoretical_bound == nd * nd
            &&& bound_fits(fin.len(), max_size(initial)) && fin.len() > 0 ==> p.d == max_size(initial)
        }),
{
    let n = fin.len();
    let d = max_size(initial);
    assert(n * d <= n * n * d * d) by (nonlinear_arith);
    assert(n * d * (n * d) == n * n * d * d) by (nonlinear_arith);
    let p = certificate_of(initial, fin, iterations, population_bounded);
    if exists|i: int| 0 <= i < fin.len() && #[trigger] fin[i].len() == 0 {
        assert(some_dead(fin));
    }
    if (forall|i: int| 0 <= i < fin.len() ==> #[trigger] fin[i].len() >= 1) {
        assert(!some_dead(fin));
    }
    if exists|i: int| 0 <= i < fin.len() && #[trigger] fin[i].len() >= 2 {
        assert(!all_settled(fin));
    }
    if bound_fits(n, d) {
        assert(n <= n * n) by (nonlinear_arith);
        if n > 0 {
            assert(d <= n * n * d) by (nonlinear_arith)
                requires
                    n > 0;
        }
    }
}

/// There are at most n·d values in n domains of at most d values each.
pub proof fn lemma_total_within_n_d(ds: Seq<Seq<i32>>)
    ensures
        total_size(ds) <= ds.len() * max_size(ds),
    decreases ds.len(),
{
    if ds.len() > 0 {
        let rest = ds.drop_last();
        lemma_total_within_n_d(rest);
        let m1 = max_size(rest);
        let m = max_size(ds);
        assert(m1 <= m && ds.last().len() <= m);
        assert(rest.len() * m1 <= rest.len() * m) by (nonlinear_arith)
            requires
                m1 <= m,
        ;
        assert(rest.len() * m + m == ds.len() * m) by (nonlinear_arith)
            requires
                rest.len() + 1 == ds.len(),
        ;
    }
}

/// Fermentation from n domains of at most d values runs at most n·d + 1
/// rounds, well within the n²d² bound of AC-3.
pub proof fn lemma_rounds_within_bound(
    ids: Seq<Seq<char>>,
    inters: Seq<Interaction>,
    cs: Seq<(Seq<char>, Seq<char>, spec_fn(i32, i32) -> bool)>,
    ds: Seq<Seq<i32>>,
    it: int,
    fuel: nat,
)
    requires
        ids.len() == ds.len(),
        0 <= it,
    ensures
        run(ids, inters, cs, ds, it, fuel).1 - it <= ds.len() * max_size(ds) + 1,
{
    lemma_run(ids, inters, cs, ds, it, fuel);
    lemma_total_within_n_d(ds);
}

} // verus!
