//! Eigenvector centrality by degree-weighted power iteration: every node
//! starts at one half; each synchronous sweep replaces a node's score by the
//! sum of its neighbors' previous scores divided by their degrees; the
//! iteration stops early once the largest per-node change drops below the
//! tolerance, and the final scores are divided by their maximum.

use vstd::prelude::*;

use crate::graph::Graph;
use crate::normalize::{all_wf, max_normalized, normalize_by_max, spec_max_index};
use crate::rational::{
    frac_abs_diff, frac_add, frac_div, frac_eq, frac_le, frac_one, frac_wf, frac_zero,
    lemma_frac_abs_diff_congruence, lemma_frac_abs_diff_wf, lemma_frac_add_congruence,
    lemma_frac_add_wf, lemma_frac_div_congruence_dividend, lemma_frac_eq_pos,
    lemma_frac_eq_trans, lemma_frac_le_congruence, lemma_frac_le_trans, lemma_gcd_spec_one,
    gcd_spec, spec_checked_abs_diff, spec_checked_add, spec_checked_div, Frac, Rational,
};
use crate::normalize::lemma_frac_div_congruence;
use crate::CentralityError;

verus! {

/// The exact value of the first `k` neighbor terms of one synchronous sweep
/// at node `v`: each neighbor contributes its previous score divided by its
/// own degree.
pub open spec fn sweep_partial(g: Graph, prev: Seq<Frac>, v: int, k: int) -> Frac
    decreases k,
{
    if k <= 0 {
        frac_zero()
    } else {
        let u = g.adj_spec()[v][k - 1] as int;
        frac_add(
            sweep_partial(g, prev, v, k - 1),
            frac_div(prev[u], Frac { n: g.degree_spec(u) as int, d: 1 }),
        )
    }
}

/// One full synchronous sweep value at node `v`.
pub open spec fn sweep_value(g: Graph, prev: Seq<Frac>, v: int) -> Frac {
    sweep_partial(g, prev, v, g.degree_spec(v) as int)
}

/// One full synchronous sweep over all nodes.
pub open spec fn sweep(g: Graph, prev: Seq<Frac>) -> Seq<Frac> {
    Seq::new(prev.len(), |v: int| sweep_value(g, prev, v))
}

/// The starting vector: one half for every node.
pub open spec fn half_start(n: nat) -> Seq<Frac> {
    Seq::new(n as nat, |v: int| Frac { n: 1, d: 2 })
}

/// The power iteration after `k` synchronous sweeps.
pub open spec fn iterate(g: Graph, k: nat) -> Seq<Frac>
    decreases k,
{
    if k == 0 {
        half_start(g.node_count_spec())
    } else {
        sweep(g, iterate(g, (k - 1) as nat))
    }
}

/// Partial sweep values over well-formed scores are well formed: every
/// divisor is a neighbor's degree, which well-formedness makes positive.
proof fn lemma_sweep_partial_wf(g: Graph, prev: Seq<Frac>, v: int, k: int)
    requires
        g.wf(),
        prev.len() == g.node_count_spec(),
        forall|i: int| 0 <= i < prev.len() ==> frac_wf(#[trigger] prev[i]),
        0 <= v < g.node_count_spec(),
        0 <= k <= g.degree_spec(v),
    ensures
        frac_wf(sweep_partial(g, prev, v, k)),
    decreases k,
{
    if k > 0 {
        lemma_sweep_partial_wf(g, prev, v, k - 1);
        let u = g.adj_spec()[v][k - 1] as int;
        assert(g.adj_spec()[v][k - 1] == g.adj@[v]@[k - 1]);
        assert(0 <= u < g.node_count_spec() && g.degree_spec(u) >= 1);
        let t = Frac { n: g.degree_spec(u) as int, d: 1 };
        let dv = frac_div(prev[u], t);
        assert(frac_wf(dv)) by (nonlinear_arith)
            requires
                prev[u].n >= 0,
                prev[u].d >= 1,
                t.n >= 1,
                t.d == 1,
                dv == (Frac { n: prev[u].n * t.d, d: prev[u].d * t.n }),
        ;
        lemma_frac_add_wf(sweep_partial(g, prev, v, k - 1), dv);
    }
}

/// Every iterate has one well-formed value per node.
proof fn lemma_iterate_wf(g: Graph, k: nat)
    requires
        g.wf(),
    ensures
        iterate(g, k).len() == g.node_count_spec(),
        forall|i: int|
            0 <= i < g.node_count_spec() ==> frac_wf(#[trigger] iterate(g, k)[i]),
    decreases k,
{
    if k > 0 {
        lemma_iterate_wf(g, (k - 1) as nat);
        assert forall|i: int|
            0 <= i < g.node_count_spec() implies frac_wf(#[trigger] iterate(g, k)[i]) by {
            lemma_sweep_partial_wf(g, iterate(g, (k - 1) as nat), i, g.degree_spec(i) as int);
        }
    }
}

/// The starting scores as the executable code holds them: one half each.
pub open spec fn spec_half_vec(n: nat) -> Seq<Rational> {
    Seq::new(n, |v: int| Rational { num: 1, den: 2 })
}

/// The first `k` neighbor terms of one sweep at node `v`, through the
/// executable checked arithmetic: `None` once a reduced intermediate
/// leaves `u64`.
pub open spec fn spec_sweep_node(g: Graph, prev: Seq<Rational>, v: int, k: int) -> Option<
    Rational,
>
    decreases k,
{
    if k <= 0 {
        Option::Some(Rational { num: 0, den: 1 })
    } else {
        match spec_sweep_node(g, prev, v, k - 1) {
            Option::Some(sum) => {
                let u = g.adj_spec()[v][k - 1] as int;
                let dur = Rational { num: g.degree_spec(u) as u64, den: 1 };
                match spec_checked_div(prev[u], dur) {
                    Option::Some(term) => spec_checked_add(sum, term),
                    Option::None => Option::None,
                }
            },
            Option::None => Option::None,
        }
    }
}

/// The first `j` nodes of one full synchronous sweep.
pub open spec fn spec_sweep_vec(g: Graph, prev: Seq<Rational>, j: int) -> Option<Seq<Rational>>
    decreases j,
{
    if j <= 0 {
        Option::Some(Seq::empty())
    } else {
        match spec_sweep_vec(g, prev, j - 1) {
            Option::Some(pre) => match spec_sweep_node(
                g,
                prev,
                j - 1,
                g.degree_spec(j - 1) as int,
            ) {
                Option::Some(sc) => Option::Some(pre.push(sc)),
                Option::None => Option::None,
            },
            Option::None => Option::None,
        }
    }
}

/// The largest per-node change over the first `j` nodes, as the executable
/// scan computes it.
pub open spec fn spec_max_diff(
    prev: Seq<Rational>,
    next: Seq<Rational>,
    j: int,
) -> Option<Rational>
    decreases j,
{
    if j <= 0 {
        Option::Some(Rational { num: 0, den: 1 })
    } else {
        match spec_max_diff(prev, next, j - 1) {
            Option::Some(mx) => match spec_checked_abs_diff(prev[j - 1], next[j - 1]) {
                Option::Some(d) => Option::Some(
                    if !frac_le(d.v(), mx.v()) {
                        d
                    } else {
                        mx
                    },
                ),
                Option::None => Option::None,
            },
            Option::None => Option::None,
        }
    }
}

/// The scores the iteration holds when it stops: synchronous sweeps applied
/// until the largest change drops below the tolerance or the budget runs
/// out, through the executable checked arithmetic.
pub open spec fn spec_eigen_loop(
    g: Graph,
    scores: Seq<Rational>,
    remaining: nat,
    tol: Rational,
) -> Option<Seq<Rational>>
    decreases remaining,
{
    if remaining == 0 {
        Option::Some(scores)
    } else {
        match spec_sweep_vec(g, scores, g.node_count_spec() as int) {
            Option::Some(next) => match spec_max_diff(scores, next, g.node_count_spec() as int) {
                Option::Some(mx) => if !frac_le(tol.v(), mx.v()) {
                    Option::Some(next)
                } else {
                    spec_eigen_loop(g, next, (remaining - 1) as nat, tol)
                },
                Option::None => Option::None,
            },
            Option::None => Option::None,
        }
    }
}

/// Once a node's partial sweep has overflowed, the full sweep has.
proof fn lemma_spec_sweep_node_none(g: Graph, prev: Seq<Rational>, v: int, k: int, k2: int)
    requires
        0 <= k <= k2,
        spec_sweep_node(g, prev, v, k) is None,
    ensures
        spec_sweep_node(g, prev, v, k2) is None,
    decreases k2,
{
    if k2 > k {
        lemma_spec_sweep_node_none(g, prev, v, k, k2 - 1);
    }
}

/// Once one node's sweep has overflowed, the sweep vector has.
proof fn lemma_spec_sweep_vec_none(g: Graph, prev: Seq<Rational>, j: int, j2: int)
    requires
        0 <= j <= j2,
        spec_sweep_vec(g, prev, j) is None,
    ensures
        spec_sweep_vec(g, prev, j2) is None,
    decreases j2,
{
    if j2 > j {
        lemma_spec_sweep_vec_none(g, prev, j, j2 - 1);
    }
}

/// Once the difference scan has overflowed it stays overflowed.
proof fn lemma_spec_max_diff_none(prev: Seq<Rational>, next: Seq<Rational>, j: int, j2: int)
    requires
        0 <= j <= j2,
        spec_max_diff(prev, next, j) is None,
    ensures
        spec_max_diff(prev, next, j2) is None,
    decreases j2,
{
    if j2 > j {
        lemma_spec_max_diff_none(prev, next, j, j2 - 1);
    }
}

/// Whether the `k`-th sweep moved every node's score by less than `tol`.
pub open spec fn settled(g: Graph, k: nat, tol: Frac) -> bool {
    forall|v: int|
        0 <= v < g.node_count_spec() ==> !frac_le(
            tol,
            #[trigger] frac_abs_diff(iterate(g, (k - 1) as nat)[v], iterate(g, k)[v]),
        )
}

/// What the returned scores are: the `t`-th iterate of the sweep, divided
/// by its maximal entry, found at witness index `m`.
pub open spec fn iterate_normalized(g: Graph, out: Seq<Rational>, t: int, m: int) -> bool {
    &&& 0 <= m < g.node_count_spec()
    &&& iterate(g, t as nat)[m].n >= 1
    &&& forall|i: int|
        0 <= i < g.node_count_spec() ==> frac_le(
            #[trigger] iterate(g, t as nat)[i],
            iterate(g, t as nat)[m],
        )
    &&& forall|i: int|
        0 <= i < g.node_count_spec() ==> frac_eq(
            (#[trigger] out[i]).v(),
            frac_div(iterate(g, t as nat)[i], iterate(g, t as nat)[m]),
        )
}

/// What `eigenvector_centrality_normalized` returns, as a function of its
/// three inputs alone: the stopped iterate of the checked power sweep,
/// divided by its maximal entry; the degeneracies and any overflow of the
/// checked arithmetic reported as the matching errors.
pub open spec fn eigen_result(
    g: Graph,
    max_iterations: usize,
    tolerance: Rational,
    r: Result<Vec<Rational>, CentralityError>,
) -> bool {
    let fin = spec_eigen_loop(g, spec_half_vec(g.node_count_spec()), max_iterations as nat, tolerance);
    &&& (g.node_count_spec() == 0 ==> r is Err && r->Err_0 == CentralityError::TooFewNodes)
    &&& (g.node_count_spec() >= 1 ==> match fin {
        Option::None => r is Err && r->Err_0 == CentralityError::Overflow,
        Option::Some(fs) => ({
            let t = fs[spec_max_index(fs, fs.len() as int)];
            &&& (t.num == 0 ==> r is Err && r->Err_0 == CentralityError::ZeroNormalizer)
            &&& (t.num >= 1 && (forall|j: int|
                0 <= j < fs.len() ==> (#[trigger] spec_checked_div(fs[j], t)) is Some)
                ==> r is Ok && r->Ok_0@.len() == fs.len() && (forall|j: int|
                0 <= j < fs.len() ==> #[trigger] spec_checked_div(fs[j], t) == Option::Some(
                    r->Ok_0@[j],
                )))
            &&& (t.num >= 1 && !(forall|j: int|
                0 <= j < fs.len() ==> (#[trigger] spec_checked_div(fs[j], t)) is Some)
                ==> r is Err && r->Err_0 == CentralityError::Overflow)
        }),
    })
}

/// Re-running the computation with the same graph, cap and tolerance gives
/// the identical mapping, errors included: the contract pins the whole
/// result as a function of the three inputs.
pub proof fn lemma_eigenvector_result_deterministic(
    g: Graph,
    max_iterations: usize,
    tolerance: Rational,
    r1: Result<Vec<Rational>, CentralityError>,
    r2: Result<Vec<Rational>, CentralityError>,
)
    requires
        eigen_result(g, max_iterations, tolerance, r1),
        eigen_result(g, max_iterations, tolerance, r2),
    ensures
        r1 is Ok <==> r2 is Ok,
        r1 is Ok ==> r1->Ok_0@ == r2->Ok_0@,
        r1 is Err ==> r1->Err_0 == r2->Err_0,
{
    let fin = spec_eigen_loop(g, spec_half_vec(g.node_count_spec()), max_iterations as nat, tolerance);
    if g.node_count_spec() >= 1 && fin is Some {
        let fs = fin->0;
        let t = fs[spec_max_index(fs, fs.len() as int)];
        if t.num >= 1 {
            if forall|j: int|
                0 <= j < fs.len() ==> (#[trigger] spec_checked_div(fs[j], t)) is Some {
                assert(r1 is Ok && r2 is Ok);
                assert forall|j: int|
                    0 <= j < fs.len() implies #[trigger] r1->Ok_0@[j] == r2->Ok_0@[j] by {
                    assert(spec_checked_div(fs[j], t) == Option::Some(r1->Ok_0@[j]));
                    assert(spec_checked_div(fs[j], t) == Option::Some(r2->Ok_0@[j]));
                }
                assert(r1->Ok_0@ =~= r2->Ok_0@);
            }
        }
    }
}

/// Re-running the computation on an unchanged graph with the same iteration
/// cap and tolerance gives the same score at every node: the contract pins
/// the stopping sweep and the normalized values, so the result is a pure
/// function of the three inputs.
pub proof fn lemma_eigenvector_deterministic(
    g: Graph,
    max_iterations: usize,
    tolerance: Rational,
    out1: Seq<Rational>,
    out2: Seq<Rational>,
    t1: int,
    m1: int,
    t2: int,
    m2: int,
    v: int,
)
    requires
        g.wf(),
        tolerance.wf(),
        max_iterations >= 1,
        out1.len() == g.node_count_spec(),
        out2.len() == g.node_count_spec(),
        all_wf(out1),
        all_wf(out2),
        1 <= t1 <= max_iterations,
        forall|j: int| 1 <= j < t1 ==> !(#[trigger] settled(g, j as nat, tolerance.v())),
        t1 < max_iterations ==> settled(g, t1 as nat, tolerance.v()),
        iterate_normalized(g, out1, t1, m1),
        1 <= t2 <= max_iterations,
        forall|j: int| 1 <= j < t2 ==> !(#[trigger] settled(g, j as nat, tolerance.v())),
        t2 < max_iterations ==> settled(g, t2 as nat, tolerance.v()),
        iterate_normalized(g, out2, t2, m2),
        0 <= v < g.node_count_spec(),
    ensures
        frac_eq(out1[v].v(), out2[v].v()),
{
    if t1 < t2 {
        assert(settled(g, t1 as nat, tolerance.v()));
        assert(!settled(g, t1 as nat, tolerance.v()));
    }
    if t2 < t1 {
        assert(settled(g, t2 as nat, tolerance.v()));
        assert(!settled(g, t2 as nat, tolerance.v()));
    }
    assert(t1 == t2);
    let itr = iterate(g, t1 as nat);
    lemma_iterate_wf(g, t1 as nat);
    assert(frac_le(itr[m1], itr[m2]) && frac_le(itr[m2], itr[m1]));
    assert(frac_eq(itr[m1], itr[m2]));
    let e1 = frac_div(itr[v], itr[m1]);
    let e2 = frac_div(itr[v], itr[m2]);
    assert(frac_wf(e1)) by (nonlinear_arith)
        requires
            itr[v].n >= 0,
            itr[v].d >= 1,
            itr[m1].n >= 1,
            itr[m1].d >= 1,
            e1 == (Frac { n: itr[v].n * itr[m1].d, d: itr[v].d * itr[m1].n }),
    ;
    assert(frac_wf(e2)) by (nonlinear_arith)
        requires
            itr[v].n >= 0,
            itr[v].d >= 1,
            itr[m2].n >= 1,
            itr[m2].d >= 1,
            e2 == (Frac { n: itr[v].n * itr[m2].d, d: itr[v].d * itr[m2].n }),
    ;
    lemma_frac_div_congruence(itr[v], itr[m1], itr[m2]);
    lemma_frac_eq_trans(out1[v].v(), e1, e2);
    lemma_frac_eq_trans(out1[v].v(), e2, out2[v].v());
}

/// `n` scores of one half: the iteration's starting vector.
fn half_scores(n: usize) -> (r: Vec<Rational>)
    ensures
        r@.len() == n,
        all_wf(r@),
        forall|i: int| 0 <= i < n ==> (#[trigger] r@[i]).num >= 1,
        forall|i: int| 0 <= i < n ==> frac_eq((#[trigger] r@[i]).v(), Frac { n: 1, d: 2 }),
        r@ == spec_half_vec(n as nat),
{
    let mut r: Vec<Rational> = Vec::new();
    let mut i: usize = 0;
    while i < n
        invariant
            i <= n,
            r@.len() == i,
            all_wf(r@),
            forall|k: int| 0 <= k < i ==> (#[trigger] r@[k]).num >= 1,
            forall|k: int| 0 <= k < i ==> frac_eq((#[trigger] r@[k]).v(), Frac { n: 1, d: 2 }),
            forall|k: int| 0 <= k < i ==> (#[trigger] r@[k]) == (Rational { num: 1, den: 2 }),
        decreases n - i,
    {
        let half = Rational::new(1, 2);
        proof {
            lemma_frac_eq_pos(half, Frac { n: 1, d: 2 });
            lemma_gcd_spec_one(2);
            assert(1int % 2 == 1);
            assert(gcd_spec(1, 2) == gcd_spec(2, 1));
            assert(gcd_spec(1, 2) == 1);
            assert(half.num as int == 1int / 1 && half.den as int == 2int / 1);
            lemma_gcd_spec_one(1);
            assert(half == (Rational { num: 1, den: 2 }));
        }
        r.push(half);
        i = i + 1;
    }
    proof {
        assert(r@ =~= spec_half_vec(n as nat));
    }
    r
}

/// Iterate `new(v) = sum over neighbors u of score(u) / degree(u)` from the
/// all-halves vector, for at most `max_iterations` synchronous sweeps,
/// stopping early when no score moved by `tolerance` or more; then divide
/// every score by the largest, so the maximum normalized score is exactly
/// one and every score lies in `[0, 1]`.
///
/// A neighbor always has a degree of at least one (its list holds the other
/// end of the very edge it is seen through), so the division by a
/// neighbor's degree cannot hit zero.  An empty graph is rejected; a graph
/// whose scores all iterate to zero (no node touches an edge) is reported
/// as `ZeroNormalizer`; exhausting the word size is reported as `Overflow`.
#[verifier::rlimit(80)]
#[verifier::spinoff_prover]
pub fn eigenvector_centrality_normalized(
    g: &Graph,
    max_iterations: usize,
    tolerance: Rational,
) -> (r: Result<Vec<Rational>, CentralityError>)
    requires
        g.wf(),
        max_iterations >= 1,
        tolerance.wf(),
    ensures
        match r {
            Ok(out) => {
                &&& g.node_count_spec() >= 1
                &&& out@.len() == g.node_count_spec()
                &&& all_wf(out@)
                &&& exists|m: int|
                    0 <= m < out@.len() && frac_eq((#[trigger] out@[m]).v(), frac_one())
                &&& forall|i: int|
                    0 <= i < out@.len() ==> frac_le((#[trigger] out@[i]).v(), frac_one())
                &&& forall|v: int|
                    0 <= v < g.node_count_spec() && g.degree_spec(v) == 0
                        ==> (#[trigger] out@[v]).num == 0
                &&& exists|v: int| 0 <= v < g.node_count_spec() && (#[trigger] g.degree_spec(v))
                    >= 1
                &&& exists|t: int, m: int|
                    1 <= t <= max_iterations && (forall|j: int|
                        1 <= j < t ==> !(#[trigger] settled(*g, j as nat, tolerance.v()))) && (
                    t < max_iterations ==> settled(*g, t as nat, tolerance.v()))
                        && #[trigger] iterate_normalized(*g, out@, t, m)
            },
            Err(e) => (e == CentralityError::TooFewNodes && g.node_count_spec() == 0) || e
                == CentralityError::Overflow || (e == CentralityError::ZeroNormalizer
                && forall|v: int| 0 <= v < g.node_count_spec() ==> g.degree_spec(v) == 0),
        },
        eigen_result(*g, max_iterations, tolerance, r),
{
    let n = g.node_count();
    if n == 0 {
        return Err(CentralityError::TooFewNodes);
    }
    let mut scores = half_scores(n);
    let mut it: usize = 0;
    let mut converged = false;
    while it < max_iterations && !converged
        invariant
            g.wf(),
            n == g.node_count_spec(),
            n >= 1,
            tolerance.wf(),
            it <= max_iterations,
            scores@.len() == n,
            all_wf(scores@),
            forall|v: int|
                0 <= v < n && g.degree_spec(v) >= 1 ==> (#[trigger] scores@[v]).num >= 1,
            converged ==> it >= 1,
            it >= 1 ==> forall|v: int|
                0 <= v < n && g.degree_spec(v) == 0 ==> (#[trigger] scores@[v]).num == 0,
            forall|v: int|
                0 <= v < n ==> frac_eq(
                    (#[trigger] scores@[v]).v(),
                    iterate(*g, it as nat)[v],
                ),
            if converged {
                spec_eigen_loop(
                    *g,
                    spec_half_vec(g.node_count_spec()),
                    max_iterations as nat,
                    tolerance,
                ) == Option::Some(scores@)
            } else {
                spec_eigen_loop(
                    *g,
                    spec_half_vec(g.node_count_spec()),
                    max_iterations as nat,
                    tolerance,
                ) == spec_eigen_loop(*g, scores@, (max_iterations - it) as nat, tolerance)
            },
            !converged ==> forall|j: int|
                1 <= j <= it ==> !(#[trigger] settled(*g, j as nat, tolerance.v())),
            converged ==> settled(*g, it as nat, tolerance.v()) && forall|j: int|
                1 <= j < it ==> !(#[trigger] settled(*g, j as nat, tolerance.v())),
        decreases max_iterations - it,
    {
        let mut new_scores: Vec<Rational> = Vec::new();
        let mut j: usize = 0;
        while j < n
            invariant
                g.wf(),
                n == g.node_count_spec(),
                j <= n,
                scores@.len() == n,
                all_wf(scores@),
                forall|v: int|
                    0 <= v < n && g.degree_spec(v) >= 1 ==> (#[trigger] scores@[v]).num >= 1,
                new_scores@.len() == j,
                all_wf(new_scores@),
                forall|v: int|
                    0 <= v < j && g.degree_spec(v) >= 1 ==> (#[trigger] new_scores@[v]).num
                        >= 1,
                forall|v: int|
                    0 <= v < j && g.degree_spec(v) == 0 ==> (#[trigger] new_scores@[v]).num
                        == 0,
                forall|v: int|
                    0 <= v < n ==> frac_eq(
                        (#[trigger] scores@[v]).v(),
                        iterate(*g, it as nat)[v],
                    ),
                forall|v: int|
                    0 <= v < j ==> frac_eq(
                        (#[trigger] new_scores@[v]).v(),
                        sweep_value(*g, iterate(*g, it as nat), v),
                    ),
                it < max_iterations && !converged,
                spec_eigen_loop(
                    *g,
                    spec_half_vec(g.node_count_spec()),
                    max_iterations as nat,
                    tolerance,
                ) == spec_eigen_loop(*g, scores@, (max_iterations - it) as nat, tolerance),
                spec_sweep_vec(*g, scores@, j as int) == Option::Some(new_scores@),
            decreases n - j,
        {
            let mut sum = Rational::zero();
            let dj = g.degree(j);
            let mut k: usize = 0;
            while k < dj
                invariant
                    g.wf(),
                    n == g.node_count_spec(),
                    j < n,
                    dj == g.degree_spec(j as int),
                    k <= dj,
                    scores@.len() == n,
                    all_wf(scores@),
                    forall|v: int|
                        0 <= v < n && g.degree_spec(v) >= 1 ==> (#[trigger] scores@[v]).num
                            >= 1,
                    sum.wf(),
                    k >= 1 ==> sum.num >= 1,
                    k == 0 ==> sum.num == 0,
                    forall|v: int|
                        0 <= v < n ==> frac_eq(
                            (#[trigger] scores@[v]).v(),
                            iterate(*g, it as nat)[v],
                        ),
                    frac_eq(sum.v(), sweep_partial(*g, iterate(*g, it as nat), j as int, k as int)),
                    it < max_iterations && !converged,
                    spec_eigen_loop(
                        *g,
                        spec_half_vec(g.node_count_spec()),
                        max_iterations as nat,
                        tolerance,
                    ) == spec_eigen_loop(*g, scores@, (max_iterations - it) as nat, tolerance),
                    spec_sweep_vec(*g, scores@, j as int) == Option::Some(new_scores@),
                    spec_sweep_node(*g, scores@, j as int, k as int) == Option::Some(sum),
                decreases dj - k,
            {
                let u = g.neighbor(j, k);
                let du = g.degree(u);
                let dur = Rational::new(du as u64, 1);
                proof {
                    lemma_gcd_spec_one(du as int);
                    lemma_gcd_spec_one(1);
                    assert(dur == (Rational { num: g.degree_spec(u as int) as u64, den: 1 }));
                }
                let term = match scores[u].checked_div(dur) {
                    Some(c) => c,
                    None => {
                        proof {
                            assert(spec_sweep_node(*g, scores@, j as int, k as int + 1)
                                is None);
                            lemma_spec_sweep_node_none(
                                *g,
                                scores@,
                                j as int,
                                k as int + 1,
                                dj as int,
                            );
                            assert(spec_sweep_vec(*g, scores@, j as int + 1) is None);
                            lemma_spec_sweep_vec_none(*g, scores@, j as int + 1, n as int);
                            assert(spec_eigen_loop(
                                *g,
                                scores@,
                                (max_iterations - it) as nat,
                                tolerance,
                            ) is None);
                        }
                        return Err(CentralityError::Overflow);
                    },
                };
                proof {
                    // the neighbor's degree is at least one, so its score
                    // is positive and so is the term it contributes
                    assert(scores@[u as int].num >= 1);
                    let f = frac_div(scores@[u as int].v(), dur.v());
                    assert(f.n >= 1 && f.d >= 1) by (nonlinear_arith)
                        requires
                            f.n == scores@[u as int].v().n * dur.v().d,
                            f.d == scores@[u as int].v().d * dur.v().n,
                            scores@[u as int].v().n >= 1,
                            scores@[u as int].v().d >= 1,
                            dur.v().n >= 1,
                            dur.v().d >= 1,
                    ;
                    lemma_frac_eq_pos(term, f);
                }
                let new_sum = match sum.checked_add(term) {
                    Some(c) => c,
                    None => {
                        proof {
                            assert(spec_sweep_node(*g, scores@, j as int, k as int + 1)
                                is None);
                            lemma_spec_sweep_node_none(
                                *g,
                                scores@,
                                j as int,
                                k as int + 1,
                                dj as int,
                            );
                            assert(spec_sweep_vec(*g, scores@, j as int + 1) is None);
                            lemma_spec_sweep_vec_none(*g, scores@, j as int + 1, n as int);
                            assert(spec_eigen_loop(
                                *g,
                                scores@,
                                (max_iterations - it) as nat,
                                tolerance,
                            ) is None);
                        }
                        return Err(CentralityError::Overflow);
                    },
                };
                proof {
                    let f = frac_add(sum.v(), term.v());
                    assert(f.n >= 1 && f.d >= 1) by (nonlinear_arith)
                        requires
                            f.n == sum.v().n * term.v().d + term.v().n * sum.v().d,
                            f.d == sum.v().d * term.v().d,
                            sum.v().n >= 0,
                            sum.v().d >= 1,
                            term.v().n >= 1,
                            term.v().d >= 1,
                    ;
                    lemma_frac_eq_pos(new_sum, f);
                    // the term equals the model's term for neighbor k
                    let prevm = iterate(*g, it as nat);
                    lemma_iterate_wf(*g, it as nat);
                    let uu = u as int;
                    let modt = Frac { n: g.degree_spec(uu) as int, d: 1 };
                    let d1 = frac_div(scores@[uu].v(), dur.v());
                    let d2 = frac_div(prevm[uu], dur.v());
                    let d3 = frac_div(prevm[uu], modt);
                    assert(frac_wf(d1)) by (nonlinear_arith)
                        requires
                            scores@[uu].v().n >= 0,
                            scores@[uu].v().d >= 1,
                            dur.v().n >= 1,
                            dur.v().d >= 1,
                            d1 == (Frac {
                                n: scores@[uu].v().n * dur.v().d,
                                d: scores@[uu].v().d * dur.v().n,
                            }),
                    ;
                    assert(frac_wf(d2)) by (nonlinear_arith)
                        requires
                            prevm[uu].n >= 0,
                            prevm[uu].d >= 1,
                            dur.v().n >= 1,
                            dur.v().d >= 1,
                            d2 == (Frac { n: prevm[uu].n * dur.v().d, d: prevm[uu].d * dur.v().n }),
                    ;
                    assert(frac_wf(d3)) by (nonlinear_arith)
                        requires
                            prevm[uu].n >= 0,
                            prevm[uu].d >= 1,
                            modt.n >= 1,
                            modt.d == 1,
                            d3 == (Frac { n: prevm[uu].n * modt.d, d: prevm[uu].d * modt.n }),
                    ;
                    lemma_frac_div_congruence_dividend(scores@[uu].v(), prevm[uu], dur.v());
                    lemma_frac_div_congruence(prevm[uu], dur.v(), modt);
                    lemma_frac_eq_trans(term.v(), d1, d2);
                    lemma_frac_eq_trans(term.v(), d2, d3);
                    // and the new sum equals the next partial sum
                    let pk = sweep_partial(*g, prevm, j as int, k as int);
                    let pk1 = sweep_partial(*g, prevm, j as int, k as int + 1);
                    lemma_sweep_partial_wf(*g, prevm, j as int, k as int);
                    lemma_sweep_partial_wf(*g, prevm, j as int, k as int + 1);
                    assert(g.adj_spec()[j as int][k as int] == u);
                    assert(pk1 == frac_add(pk, d3));
                    lemma_frac_add_congruence(sum.v(), pk, term.v());
                    lemma_frac_add_wf(sum.v(), term.v());
                    lemma_frac_add_wf(pk, term.v());
                    lemma_frac_eq_trans(
                        new_sum.v(),
                        frac_add(sum.v(), term.v()),
                        frac_add(pk, term.v()),
                    );
                    assert(frac_add(pk, term.v()) == frac_add(term.v(), pk));
                    assert(frac_add(pk, d3) == frac_add(d3, pk));
                    lemma_frac_add_congruence(term.v(), d3, pk);
                    lemma_frac_add_wf(d3, pk);
                    lemma_frac_eq_trans(new_sum.v(), frac_add(term.v(), pk), frac_add(d3, pk));
                    assert(spec_sweep_node(*g, scores@, j as int, k as int + 1)
                        == Option::Some(new_sum));
                }
                sum = new_sum;
                k = k + 1;
            }
            proof {
                assert(frac_eq(sum.v(), sweep_value(*g, iterate(*g, it as nat), j as int)));
                assert(spec_sweep_vec(*g, scores@, j as int + 1) == Option::Some(
                    new_scores@.push(sum),
                ));
            }
            new_scores.push(sum);
            j = j + 1;
        }
        proof {
            assert forall|v: int|
                0 <= v < n implies frac_eq(
                (#[trigger] new_scores@[v]).v(),
                iterate(*g, (it + 1) as nat)[v],
            ) by {
                lemma_iterate_wf(*g, it as nat);
                assert(iterate(*g, (it + 1) as nat) == sweep(*g, iterate(*g, it as nat)));
                assert(iterate(*g, it as nat).len() == n);
                assert(iterate(*g, (it + 1) as nat)[v] == sweep_value(
                    *g,
                    iterate(*g, it as nat),
                    v,
                ));
            }
        }
        let mut maxdiff = Rational::zero();
        let mut j2: usize = 0;
        while j2 < n
            invariant
                g.wf(),
                n == g.node_count_spec(),
                j2 <= n,
                scores@.len() == n,
                all_wf(scores@),
                new_scores@.len() == n,
                all_wf(new_scores@),
                forall|v: int|
                    0 <= v < n && g.degree_spec(v) >= 1 ==> (#[trigger] new_scores@[v]).num
                        >= 1,
                forall|v: int|
                    0 <= v < n && g.degree_spec(v) == 0 ==> (#[trigger] new_scores@[v]).num
                        == 0,
                maxdiff.wf(),
                forall|v: int|
                    0 <= v < n ==> frac_eq(
                        (#[trigger] scores@[v]).v(),
                        iterate(*g, it as nat)[v],
                    ),
                forall|v: int|
                    0 <= v < n ==> frac_eq(
                        (#[trigger] new_scores@[v]).v(),
                        iterate(*g, (it + 1) as nat)[v],
                    ),
                forall|v: int|
                    0 <= v < j2 ==> frac_le(
                        #[trigger] frac_abs_diff(
                            iterate(*g, it as nat)[v],
                            iterate(*g, (it + 1) as nat)[v],
                        ),
                        maxdiff.v(),
                    ),
                maxdiff.v() == frac_zero() || exists|v: int|
                    0 <= v < j2 && frac_eq(
                        maxdiff.v(),
                        #[trigger] frac_abs_diff(
                            iterate(*g, it as nat)[v],
                            iterate(*g, (it + 1) as nat)[v],
                        ),
                    ),
                it < max_iterations && !converged,
                spec_eigen_loop(
                    *g,
                    spec_half_vec(g.node_count_spec()),
                    max_iterations as nat,
                    tolerance,
                ) == spec_eigen_loop(*g, scores@, (max_iterations - it) as nat, tolerance),
                spec_sweep_vec(*g, scores@, n as int) == Option::Some(new_scores@),
                spec_max_diff(scores@, new_scores@, j2 as int) == Option::Some(maxdiff),
            decreases n - j2,
        {
            let d = match scores[j2].checked_abs_diff(new_scores[j2]) {
                Some(c) => c,
                None => {
                    proof {
                        assert(spec_max_diff(scores@, new_scores@, j2 as int + 1) is None);
                        lemma_spec_max_diff_none(scores@, new_scores@, j2 as int + 1, n as int);
                        assert(spec_eigen_loop(
                            *g,
                            scores@,
                            (max_iterations - it) as nat,
                            tolerance,
                        ) is None);
                    }
                    return Err(CentralityError::Overflow);
                },
            };
            proof {
                lemma_iterate_wf(*g, it as nat);
                lemma_iterate_wf(*g, (it + 1) as nat);
                let v = j2 as int;
                let md = frac_abs_diff(
                    iterate(*g, it as nat)[v],
                    iterate(*g, (it + 1) as nat)[v],
                );
                lemma_frac_abs_diff_congruence(
                    scores@[v].v(),
                    iterate(*g, it as nat)[v],
                    new_scores@[v].v(),
                    iterate(*g, (it + 1) as nat)[v],
                );
                lemma_frac_abs_diff_wf(scores@[v].v(), new_scores@[v].v());
                lemma_frac_abs_diff_wf(
                    iterate(*g, it as nat)[v],
                    iterate(*g, (it + 1) as nat)[v],
                );
                lemma_frac_eq_trans(
                    d.v(),
                    frac_abs_diff(scores@[v].v(), new_scores@[v].v()),
                    md,
                );
            }
            let ghost oldmax = maxdiff;
            if maxdiff.lt(d) {
                maxdiff = d;
            }
            proof {
                assert(spec_max_diff(scores@, new_scores@, j2 as int + 1) == Option::Some(
                    maxdiff,
                ));
                lemma_iterate_wf(*g, it as nat);
                lemma_iterate_wf(*g, (it + 1) as nat);
                assert forall|v: int|
                    0 <= v < j2 + 1 implies frac_le(
                    #[trigger] frac_abs_diff(
                        iterate(*g, it as nat)[v],
                        iterate(*g, (it + 1) as nat)[v],
                    ),
                    maxdiff.v(),
                ) by {
                    let md = frac_abs_diff(
                        iterate(*g, it as nat)[v],
                        iterate(*g, (it + 1) as nat)[v],
                    );
                    lemma_frac_abs_diff_wf(
                        iterate(*g, it as nat)[v],
                        iterate(*g, (it + 1) as nat)[v],
                    );
                    if maxdiff != oldmax {
                        // the new maximum is this node's difference
                        if v < j2 as int {
                            lemma_frac_le_trans(md, oldmax.v(), maxdiff.v());
                        } else {
                            lemma_frac_le_congruence(md, md, maxdiff.v());
                        }
                    } else {
                        if v == j2 as int {
                            lemma_frac_le_congruence(maxdiff.v(), d.v(), md);
                        }
                    }
                }
            }
            j2 = j2 + 1;
        }
        let conv_now = maxdiff.lt(tolerance);
        proof {
            assert(spec_sweep_vec(*g, scores@, n as int) == Option::Some(new_scores@));
            assert(spec_max_diff(scores@, new_scores@, n as int) == Option::Some(maxdiff));
            if conv_now {
                assert(spec_eigen_loop(*g, scores@, (max_iterations - it) as nat, tolerance)
                    == Option::Some(new_scores@));
            } else {
                assert(spec_eigen_loop(*g, scores@, (max_iterations - it) as nat, tolerance)
                    == spec_eigen_loop(
                    *g,
                    new_scores@,
                    (max_iterations - it - 1) as nat,
                    tolerance,
                ));
            }
            lemma_iterate_wf(*g, it as nat);
            lemma_iterate_wf(*g, (it + 1) as nat);
            let tol = tolerance.v();
            if conv_now {
                assert forall|v: int|
                    0 <= v < n implies !frac_le(
                    tol,
                    #[trigger] frac_abs_diff(
                        iterate(*g, it as nat)[v],
                        iterate(*g, (it + 1) as nat)[v],
                    ),
                ) by {
                    let md = frac_abs_diff(
                        iterate(*g, it as nat)[v],
                        iterate(*g, (it + 1) as nat)[v],
                    );
                    lemma_frac_abs_diff_wf(
                        iterate(*g, it as nat)[v],
                        iterate(*g, (it + 1) as nat)[v],
                    );
                    if frac_le(tol, md) {
                        lemma_frac_le_trans(tol, md, maxdiff.v());
                    }
                }
                assert(settled(*g, (it + 1) as nat, tol));
            } else {
                if maxdiff.v() == frac_zero() {
                    let md = frac_abs_diff(
                        iterate(*g, it as nat)[0],
                        iterate(*g, (it + 1) as nat)[0],
                    );
                    lemma_frac_abs_diff_wf(
                        iterate(*g, it as nat)[0],
                        iterate(*g, (it + 1) as nat)[0],
                    );
                    assert(frac_le(tol, md)) by (nonlinear_arith)
                        requires
                            tol.n * 1 <= 0 * tol.d,
                            tol.n >= 0,
                            tol.d >= 1,
                            md.n >= 0,
                            md.d >= 1,
                    ;
                } else {
                    let w = choose|v: int|
                        0 <= v < n && frac_eq(
                            maxdiff.v(),
                            frac_abs_diff(
                                iterate(*g, it as nat)[v],
                                iterate(*g, (it + 1) as nat)[v],
                            ),
                        );
                    let md = frac_abs_diff(
                        iterate(*g, it as nat)[w],
                        iterate(*g, (it + 1) as nat)[w],
                    );
                    lemma_frac_abs_diff_wf(
                        iterate(*g, it as nat)[w],
                        iterate(*g, (it + 1) as nat)[w],
                    );
                    lemma_frac_le_congruence(tol, maxdiff.v(), md);
                }
                assert(!settled(*g, (it + 1) as nat, tol));
            }
        }
        scores = new_scores;
        if conv_now {
            converged = true;
        }
        it = it + 1;
    }
    proof {
        assert(it >= 1);
        if !converged {
            assert((max_iterations - it) as nat == 0);
        }
        assert(spec_eigen_loop(
            *g,
            spec_half_vec(g.node_count_spec()),
            max_iterations as nat,
            tolerance,
        ) == Option::Some(scores@));
    }
    let r = normalize_by_max(&scores);
    proof {
        if r is Err && r->Err_0 == CentralityError::ZeroNormalizer {
            assert forall|v: int| 0 <= v < n implies g.degree_spec(v) == 0 by {
                assert(scores@[v].num == 0);
            }
        }
        if r is Ok {
            let i = choose|i: int| 0 <= i < scores@.len() && scores@[i].num >= 1;
            assert(g.degree_spec(i) >= 1);
            let out = r->Ok_0;
            let mm = choose|mm: int| max_normalized(scores@, out@, mm);
            assert(frac_eq(out@[mm].v(), frac_one()));
            // restate the normalization over the model iterate
            lemma_iterate_wf(*g, it as nat);
            let itr = iterate(*g, it as nat);
            assert(scores@[mm].num >= 1) by (nonlinear_arith)
                requires
                    scores@[i].v().n * scores@[mm].v().d <= scores@[mm].v().n * scores@[i].v().d,
                    scores@[i].v().n >= 1,
                    scores@[i].v().d >= 1,
                    scores@[mm].v().d >= 1,
                    scores@[mm].v().n == scores@[mm].num,
            ;
            assert(itr[mm].n >= 1) by (nonlinear_arith)
                requires
                    scores@[mm].v().n * itr[mm].d == itr[mm].n * scores@[mm].v().d,
                    scores@[mm].v().n >= 1,
                    scores@[mm].v().d >= 1,
                    itr[mm].d >= 1,
            ;
            assert forall|q: int| 0 <= q < n implies frac_le(#[trigger] itr[q], itr[mm]) by {
                lemma_frac_le_congruence(scores@[mm].v(), scores@[q].v(), itr[q]);
                lemma_frac_le_congruence(itr[q], scores@[mm].v(), itr[mm]);
            }
            assert forall|q: int|
                0 <= q < n implies frac_eq(
                (#[trigger] out@[q]).v(),
                frac_div(itr[q], itr[mm]),
            ) by {
                let e1 = frac_div(scores@[q].v(), scores@[mm].v());
                let e2 = frac_div(itr[q], scores@[mm].v());
                let e3 = frac_div(itr[q], itr[mm]);
                assert(frac_wf(e1)) by (nonlinear_arith)
                    requires
                        scores@[q].v().n >= 0,
                        scores@[q].v().d >= 1,
                        scores@[mm].v().n >= 1,
                        scores@[mm].v().d >= 1,
                        e1 == (Frac {
                            n: scores@[q].v().n * scores@[mm].v().d,
                            d: scores@[q].v().d * scores@[mm].v().n,
                        }),
                ;
                assert(frac_wf(e2)) by (nonlinear_arith)
                    requires
                        itr[q].n >= 0,
                        itr[q].d >= 1,
                        scores@[mm].v().n >= 1,
                        scores@[mm].v().d >= 1,
                        e2 == (Frac {
                            n: itr[q].n * scores@[mm].v().d,
                            d: itr[q].d * scores@[mm].v().n,
                        }),
                ;
                assert(frac_wf(e3)) by (nonlinear_arith)
                    requires
                        itr[q].n >= 0,
                        itr[q].d >= 1,
                        itr[mm].n >= 1,
                        itr[mm].d >= 1,
                        e3 == (Frac { n: itr[q].n * itr[mm].d, d: itr[q].d * itr[mm].n }),
                ;
                lemma_frac_div_congruence_dividend(scores@[q].v(), itr[q], scores@[mm].v());
                lemma_frac_div_congruence(itr[q], scores@[mm].v(), itr[mm]);
                lemma_frac_eq_trans(out@[q].v(), e1, e2);
                lemma_frac_eq_trans(out@[q].v(), e2, e3);
            }
            assert(iterate_normalized(*g, out@, it as int, mm));
            assert(1 <= it as int <= max_iterations);
        }
    }
    r
}

} // verus!
