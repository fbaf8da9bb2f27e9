//! Betweenness centrality by Brandes' method: one breadth-first traversal
//! per source counting shortest paths, a backward pass accumulating each
//! node's dependency, and a final division of every total by the sum of all
//! totals so the scores form a distribution.

use vstd::prelude::*;

use crate::graph::Graph;
use crate::normalize::{all_wf, fracs, normalize_by_sum, spec_sum_fold};
use crate::rational::{
    frac_eq, frac_one, frac_sum, lemma_gcd_spec_one, spec_checked_add, spec_checked_div,
    spec_checked_mul, Rational,
};
use crate::CentralityError;

verus! {

/// The state of one source's breadth-first traversal: hop distances (the
/// node count standing for "not reached"), shortest-path counts, the
/// finishing order, and how many of its entries have been processed.
pub struct SearchState {
    pub dist: Seq<u64>,
    pub sigma: Seq<u64>,
    pub order: Seq<usize>,
    pub head: int,
}

/// The traversal state before any node is processed: the source at distance
/// zero with one path to itself, everything else unreached.
pub open spec fn bfs_init(g: Graph, s: int) -> SearchState {
    SearchState {
        dist: Seq::new(
            g.node_count_spec(),
            |v: int|
                if v == s {
                    0u64
                } else {
                    g.node_count_spec() as u64
                },
        ),
        sigma: Seq::new(
            g.node_count_spec(),
            |v: int|
                if v == s {
                    1u64
                } else {
                    0u64
                },
        ),
        order: seq![s as usize],
        head: 0,
    }
}

/// Processing the first `k` incident edges of node `v`: a first visit sets
/// distance and path count and enqueues; another shortest path adds the
/// path counts, or overflows.
pub open spec fn bfs_edges(g: Graph, st: SearchState, v: int, k: int) -> Option<SearchState>
    decreases k,
{
    if k <= 0 {
        Option::Some(st)
    } else {
        match bfs_edges(g, st, v, k - 1) {
            Option::Some(st0) => {
                let w = g.adj_spec()[v][k - 1] as int;
                let dw = st0.dist[w];
                let dvv = st0.dist[v];
                if dw == g.node_count_spec() as u64 {
                    Option::Some(
                        SearchState {
                            dist: st0.dist.update(w, (dvv + 1) as u64),
                            sigma: st0.sigma.update(w, st0.sigma[v]),
                            order: st0.order.push(w as usize),
                            head: st0.head,
                        },
                    )
                } else if dw == (dvv + 1) as u64 {
                    if st0.sigma[w] + st0.sigma[v] > u64::MAX {
                        Option::None
                    } else {
                        Option::Some(
                            SearchState {
                                dist: st0.dist,
                                sigma: st0.sigma.update(w, (st0.sigma[w] + st0.sigma[v]) as u64),
                                order: st0.order,
                                head: st0.head,
                            },
                        )
                    }
                } else {
                    Option::Some(st0)
                }
            },
            Option::None => Option::None,
        }
    }
}

/// Dequeuing one node: all its incident edges, then the head advances.
pub open spec fn bfs_step(g: Graph, st: SearchState) -> Option<SearchState> {
    let v = st.order[st.head] as int;
    match bfs_edges(g, st, v, g.degree_spec(v) as int) {
        Option::Some(st1) => Option::Some(
            SearchState { dist: st1.dist, sigma: st1.sigma, order: st1.order, head: st1.head + 1 },
        ),
        Option::None => Option::None,
    }
}

/// Running the traversal until the queue empties or the fuel runs out.
pub open spec fn bfs_run(g: Graph, st: SearchState, fuel: nat) -> Option<SearchState>
    decreases fuel,
{
    if st.head >= st.order.len() || fuel == 0 {
        Option::Some(st)
    } else {
        match bfs_step(g, st) {
            Option::Some(st2) => bfs_run(g, st2, (fuel - 1) as nat),
            Option::None => Option::None,
        }
    }
}

/// `n` zero scores, as the executable code builds them.
pub open spec fn zero_scores(n: nat) -> Seq<Rational> {
    Seq::new(n, |v: int| Rational { num: 0, den: 1 })
}

/// The backward pass over the first `k` incident edges of popped node `v`:
/// each neighbor one hop nearer the source collects its share of the
/// dependency, through the executable checked arithmetic.
pub open spec fn dep_edges(
    g: Graph,
    st: SearchState,
    delta: Seq<Rational>,
    v: int,
    k: int,
) -> Option<Seq<Rational>>
    decreases k,
{
    if k <= 0 {
        Option::Some(delta)
    } else {
        match dep_edges(g, st, delta, v, k - 1) {
            Option::Some(d0) => {
                let w = g.adj_spec()[v][k - 1] as int;
                let dvv = st.dist[v];
                if dvv >= 1 && st.dist[w] == (dvv - 1) as u64 {
                    let swr = Rational { num: st.sigma[w], den: 1 };
                    let svr = Rational { num: st.sigma[v], den: 1 };
                    match spec_checked_div(swr, svr) {
                        Option::Some(ratio) => match spec_checked_add(
                            Rational { num: 1, den: 1 },
                            d0[v],
                        ) {
                            Option::Some(op) => match spec_checked_mul(ratio, op) {
                                Option::Some(c) => match spec_checked_add(d0[w], c) {
                                    Option::Some(dn) => Option::Some(d0.update(w, dn)),
                                    Option::None => Option::None,
                                },
                                Option::None => Option::None,
                            },
                            Option::None => Option::None,
                        },
                        Option::None => Option::None,
                    }
                } else {
                    Option::Some(d0)
                }
            },
            Option::None => Option::None,
        }
    }
}

/// Processing the finishing order from its end down to position `idx`:
/// dependencies flow backward and every popped non-source node adds its
/// dependency to its running total.
pub open spec fn dep_pass(
    g: Graph,
    st: SearchState,
    s: int,
    idx: int,
    delta0: Seq<Rational>,
    bc0: Seq<Rational>,
) -> Option<(Seq<Rational>, Seq<Rational>)>
    decreases st.order.len() - idx,
{
    if idx >= st.order.len() {
        Option::Some((delta0, bc0))
    } else {
        match dep_pass(g, st, s, idx + 1, delta0, bc0) {
            Option::Some(p) => {
                let v = st.order[idx] as int;
                match dep_edges(g, st, p.0, v, g.degree_spec(v) as int) {
                    Option::Some(d2) => if v != s {
                        match spec_checked_add(p.1[v], d2[v]) {
                            Option::Some(b) => Option::Some((d2, p.1.update(v, b))),
                            Option::None => Option::None,
                        }
                    } else {
                        Option::Some((d2, p.1))
                    },
                    Option::None => Option::None,
                }
            },
            Option::None => Option::None,
        }
    }
}

/// The accumulated totals after the first `s` sources, through the
/// executable traversal and arithmetic.
pub open spec fn bc_fold(g: Graph, s: int) -> Option<Seq<Rational>>
    decreases s,
{
    if s <= 0 {
        Option::Some(zero_scores(g.node_count_spec()))
    } else {
        match bc_fold(g, s - 1) {
            Option::Some(bc0) => match bfs_run(g, bfs_init(g, s - 1), g.node_count_spec()) {
                Option::Some(st) => match dep_pass(
                    g,
                    st,
                    s - 1,
                    0,
                    zero_scores(g.node_count_spec()),
                    bc0,
                ) {
                    Option::Some(p) => Option::Some(p.1),
                    Option::None => Option::None,
                },
                Option::None => Option::None,
            },
            Option::None => Option::None,
        }
    }
}

/// Once one edge's processing has overflowed, the whole dequeue has.
proof fn lemma_bfs_edges_none(g: Graph, st: SearchState, v: int, k: int, k2: int)
    requires
        0 <= k <= k2,
        bfs_edges(g, st, v, k) is None,
    ensures
        bfs_edges(g, st, v, k2) is None,
    decreases k2,
{
    if k2 > k {
        lemma_bfs_edges_none(g, st, v, k, k2 - 1);
    }
}

/// Once one edge's processing has overflowed, the whole pop has.
proof fn lemma_dep_edges_none(
    g: Graph,
    st: SearchState,
    delta: Seq<Rational>,
    v: int,
    k: int,
    k2: int,
)
    requires
        0 <= k <= k2,
        dep_edges(g, st, delta, v, k) is None,
    ensures
        dep_edges(g, st, delta, v, k2) is None,
    decreases k2,
{
    if k2 > k {
        lemma_dep_edges_none(g, st, delta, v, k, k2 - 1);
    }
}

/// Once the backward pass has overflowed at some position, it has
/// overflowed at every earlier position too.
proof fn lemma_dep_pass_none(
    g: Graph,
    st: SearchState,
    s: int,
    idx2: int,
    idx: int,
    delta0: Seq<Rational>,
    bc0: Seq<Rational>,
)
    requires
        idx2 <= idx,
        dep_pass(g, st, s, idx, delta0, bc0) is None,
    ensures
        dep_pass(g, st, s, idx2, delta0, bc0) is None,
    decreases idx - idx2,
{
    if idx2 < idx {
        lemma_dep_pass_none(g, st, s, idx2 + 1, idx, delta0, bc0);
    }
}

/// Once one source has overflowed, the fold over all sources has.
proof fn lemma_bc_fold_none(g: Graph, s: int, s2: int)
    requires
        0 <= s <= s2,
        bc_fold(g, s) is None,
    ensures
        bc_fold(g, s2) is None,
    decreases s2,
{
    if s2 > s {
        lemma_bc_fold_none(g, s, s2 - 1);
    }
}

/// A duplicate-free sequence of node identities below `n` has at most `n`
/// entries.
proof fn lemma_bounded_nodup_len(s: Seq<usize>, n: int)
    requires
        n >= 0,
        s.no_duplicates(),
        forall|i: int| 0 <= i < s.len() ==> (#[trigger] s[i]) < n,
    ensures
        s.len() <= n,
{
    let ints = s.map_values(|w: usize| w as int);
    assert(ints.no_duplicates()) by {
        assert forall|i: int, j: int|
            0 <= i < ints.len() && 0 <= j < ints.len() && i != j implies ints[i] != ints[j] by {
            assert(s[i] != s[j]);
        }
    }
    ints.unique_seq_to_set();
    let st = ints.to_set();
    let range = vstd::set_lib::set_int_range(0, n);
    vstd::set_lib::lemma_int_range(0, n);
    assert(st.subset_of(range)) by {
        assert forall|w: int| st.contains(w) implies range.contains(w) by {
            let k = choose|k: int| 0 <= k < ints.len() && ints[k] == w;
            assert(s[k] < n);
        }
    }
    vstd::set_lib::lemma_len_subset(st, range);
}

/// `n` zero scores.
fn zeros(n: usize) -> (r: Vec<Rational>)
    ensures
        r@.len() == n,
        forall|i: int| 0 <= i < n ==> (#[trigger] r@[i]).num == 0 && r@[i].den == 1,
        all_wf(r@),
        r@ == zero_scores(n as nat),
{
    let mut r: Vec<Rational> = Vec::new();
    let mut i: usize = 0;
    while i < n
        invariant
            i <= n,
            r@.len() == i,
            forall|k: int| 0 <= k < i ==> (#[trigger] r@[k]).num == 0 && r@[k].den == 1,
            all_wf(r@),
        decreases n - i,
    {
        r.push(Rational::zero());
        proof {
            assert(r@[i as int] == (Rational { num: 0, den: 1 }));
        }
        i = i + 1;
    }
    proof {
        assert(r@ =~= zero_scores(n as nat));
    }
    r
}

/// `n` copies of a `u64`.
fn filled(n: usize, val: u64) -> (r: Vec<u64>)
    ensures
        r@.len() == n,
        forall|i: int| 0 <= i < n ==> (#[trigger] r@[i]) == val,
{
    let mut r: Vec<u64> = Vec::new();
    let mut i: usize = 0;
    while i < n
        invariant
            i <= n,
            r@.len() == i,
            forall|k: int| 0 <= k < i ==> (#[trigger] r@[k]) == val,
        decreases n - i,
    {
        r.push(val);
        i = i + 1;
    }
    r
}

/// What `betweenness_centrality` returns, as a function of the graph alone:
/// the accumulated totals of the per-source traversals, divided by their
/// sum; the all-zero-totals degeneracy reported as `ZeroNormalizer`; any
/// overflow of the checked arithmetic reported as `Overflow`.
pub open spec fn betweenness_result(g: Graph, r: Result<Vec<Rational>, CentralityError>) -> bool {
    let totals = bc_fold(g, g.node_count_spec() as int);
    &&& (totals is None ==> r is Err && r->Err_0 == CentralityError::Overflow)
    &&& (totals matches Option::Some(tot) ==> ({
        let fold = spec_sum_fold(tot, tot.len() as int);
        &&& (fold is None ==> r is Err && r->Err_0 == CentralityError::Overflow)
        &&& (fold matches Option::Some(t) ==> {
            &&& (t.num == 0 ==> r is Err && r->Err_0 == CentralityError::ZeroNormalizer)
            &&& (t.num >= 1 && (forall|j: int|
                0 <= j < tot.len() ==> (#[trigger] spec_checked_div(tot[j], t)) is Some)
                ==> r is Ok && r->Ok_0@.len() == tot.len() && (forall|j: int|
                0 <= j < tot.len() ==> #[trigger] spec_checked_div(tot[j], t) == Option::Some(
                    r->Ok_0@[j],
                )))
            &&& (t.num >= 1 && !(forall|j: int|
                0 <= j < tot.len() ==> (#[trigger] spec_checked_div(tot[j], t)) is Some)
                ==> r is Err && r->Err_0 == CentralityError::Overflow)
        })
    }))
}

/// Re-running the computation on an unchanged graph returns the identical
/// mapping: the contract pins the whole result, errors included, as a
/// function of the graph alone.
pub proof fn lemma_betweenness_deterministic(
    g: Graph,
    r1: Result<Vec<Rational>, CentralityError>,
    r2: Result<Vec<Rational>, CentralityError>,
)
    requires
        betweenness_result(g, r1),
        betweenness_result(g, r2),
    ensures
        r1 is Ok <==> r2 is Ok,
        r1 is Ok ==> r1->Ok_0@ == r2->Ok_0@,
        r1 is Err ==> r1->Err_0 == r2->Err_0,
{
    let totals = bc_fold(g, g.node_count_spec() as int);
    if totals is Some {
        let tot = totals->0;
        let fold = spec_sum_fold(tot, tot.len() as int);
        if fold is Some {
            let t = fold->0;
            if t.num >= 1 {
                if forall|j: int|
                    0 <= j < tot.len() ==> (#[trigger] spec_checked_div(tot[j], t)) is Some {
                    assert(r1 is Ok && r2 is Ok);
                    assert forall|j: int|
                        0 <= j < tot.len() implies #[trigger] r1->Ok_0@[j] == r2->Ok_0@[j] by {
                        assert(spec_checked_div(tot[j], t) == Option::Some(r1->Ok_0@[j]));
                        assert(spec_checked_div(tot[j], t) == Option::Some(r2->Ok_0@[j]));
                    }
                    assert(r1->Ok_0@ =~= r2->Ok_0@);
                }
            }
        }
    }
}

/// For every node, the fraction of all-pairs shortest paths that run through
/// it, normalized so all scores sum to exactly one.
///
/// A node that touches no edge lies on no path, so its score is exactly
/// zero.  A graph in which no node lies strictly between two others (so
/// every accumulated total is zero) is reported as `ZeroNormalizer` rather
/// than divided by zero; exhausting the word size is reported as `Overflow`.
#[verifier::rlimit(80)]
#[verifier::spinoff_prover]
pub fn betweenness_centrality(g: &Graph) -> (r: Result<Vec<Rational>, CentralityError>)
    requires
        g.wf(),
    ensures
        match r {
            Ok(out) => {
                &&& out@.len() == g.node_count_spec()
                &&& all_wf(out@)
                &&& frac_eq(frac_sum(fracs(out@)), frac_one())
                &&& forall|v: int|
                    0 <= v < g.node_count_spec() && g.degree_spec(v) == 0 ==> (#[trigger] out@[v]).num
                        == 0
            },
            Err(e) => e == CentralityError::Overflow || e == CentralityError::ZeroNormalizer,
        },
        betweenness_result(*g, r),
{
    let n = g.node_count();
    let mut bc = zeros(n);
    let mut s: usize = 0;
    while s < n
        invariant
            g.wf(),
            n == g.node_count_spec(),
            s <= n,
            bc@.len() == n,
            all_wf(bc@),
            forall|v: int|
                0 <= v < n && g.degree_spec(v) == 0 ==> (#[trigger] bc@[v]).num == 0,
            bc_fold(*g, s as int) == Option::Some(bc@),
        decreases n - s,
    {
        let ghost bc_in = bc@;
        // Breadth-first traversal from s: hop distances and shortest-path
        // counts.  A distance equal to n marks a node not yet reached; every
        // true distance stays below n.
        let mut dist = filled(n, n as u64);
        let mut sigma = filled(n, 0u64);
        let mut order: Vec<usize> = Vec::new();
        order.push(s);
        dist.set(s, 0);
        sigma.set(s, 1);
        proof {
            assert(order@.len() == 1 && order@[0] == s);
            assert forall|v: int| 0 <= v < n implies ((#[trigger] dist@[v] as int) < n
                <==> order@.contains(v as usize)) by {
                if v == s as int {
                    assert(order@[0] == s);
                } else {
                    assert(dist@[v] == n as u64);
                    if order@.contains(v as usize) {
                        let j = choose|j: int| 0 <= j < order@.len() && order@[j] == v as usize;
                        assert(j == 0);
                    }
                }
            }
        }
        proof {
            assert(dist@ =~= bfs_init(*g, s as int).dist);
            assert(sigma@ =~= bfs_init(*g, s as int).sigma);
            assert(order@ =~= bfs_init(*g, s as int).order);
        }
        let mut head: usize = 0;
        while head < order.len()
            invariant
                g.wf(),
                n == g.node_count_spec(),
                s < n,
                dist@.len() == n,
                sigma@.len() == n,
                1 <= order@.len() <= n,
                head <= order@.len(),
                order@[0] == s,
                order@.no_duplicates(),
                forall|i: int| 0 <= i < order@.len() ==> (#[trigger] order@[i]) < n,
                forall|i: int|
                    0 <= i < order@.len() ==> (dist@[#[trigger] order@[i] as int] as int) <= i,
                forall|i: int|
                    0 <= i < order@.len() ==> sigma@[#[trigger] order@[i] as int] >= 1,
                forall|i: int|
                    1 <= i < order@.len() ==> g.degree_spec(#[trigger] order@[i] as int) >= 1,
                forall|v: int| 0 <= v < n ==> (#[trigger] dist@[v] as int) <= n,
                forall|v: int|
                    0 <= v < n ==> ((#[trigger] dist@[v] as int) < n <==> order@.contains(
                        v as usize,
                    )),
                bfs_run(*g, bfs_init(*g, s as int), n as nat) == bfs_run(
                    *g,
                    SearchState { dist: dist@, sigma: sigma@, order: order@, head: head as int },
                    (n - head) as nat,
                ),
                bc@ == bc_in,
                bc_fold(*g, s as int) == Option::Some(bc_in),
            decreases n - head,
        {
            let v = order[head];
            let dv = g.degree(v);
            let ghost bst = SearchState {
                dist: dist@,
                sigma: sigma@,
                order: order@,
                head: head as int,
            };
            let mut k: usize = 0;
            while k < dv
                invariant
                    g.wf(),
                    n == g.node_count_spec(),
                    s < n,
                    v < n,
                    dv == g.degree_spec(v as int),
                    k <= dv,
                    head < order@.len(),
                    order@[head as int] == v,
                    dist@.len() == n,
                    sigma@.len() == n,
                    1 <= order@.len() <= n,
                    order@[0] == s,
                    order@.no_duplicates(),
                    forall|i: int| 0 <= i < order@.len() ==> (#[trigger] order@[i]) < n,
                    forall|i: int|
                        0 <= i < order@.len() ==> (dist@[#[trigger] order@[i] as int] as int)
                            <= i,
                    forall|i: int|
                        0 <= i < order@.len() ==> sigma@[#[trigger] order@[i] as int] >= 1,
                    forall|i: int|
                        1 <= i < order@.len() ==> g.degree_spec(#[trigger] order@[i] as int)
                            >= 1,
                    forall|w: int| 0 <= w < n ==> (#[trigger] dist@[w] as int) <= n,
                    forall|w: int|
                        0 <= w < n ==> ((#[trigger] dist@[w] as int) < n <==> order@.contains(
                            w as usize,
                        )),
                    bst.head == head as int,
                    bst.order[head as int] == v,
                    head < bst.order.len(),
                    bst.order.len() <= order@.len(),
                    bfs_run(*g, bfs_init(*g, s as int), n as nat) == bfs_run(
                        *g,
                        bst,
                        (n - head) as nat,
                    ),
                    bfs_edges(*g, bst, v as int, k as int) == Option::Some(
                        SearchState {
                            dist: dist@,
                            sigma: sigma@,
                            order: order@,
                            head: head as int,
                        },
                    ),
                    bc@ == bc_in,
                    bc_fold(*g, s as int) == Option::Some(bc_in),
                decreases dv - k,
            {
                let w = g.neighbor(v, k);
                let dw = dist[w];
                let dvv = dist[v];
                if dw == n as u64 {
                    // first visit: one hop farther than v
                    let ghost old_order = order@;
                    let ghost old_dist = dist@;
                    proof {
                        assert(!old_order.contains(w));
                        assert(old_order[head as int] == v);
                        assert((old_dist[order@[head as int] as int] as int) <= head as int);
                        assert((dvv as int) <= head as int);
                        lemma_bounded_nodup_len(old_order.push(w), n as int);
                    }
                    order.push(w);
                    dist.set(w, dvv + 1);
                    sigma.set(w, sigma[v]);
                    proof {
                        assert(order@ == old_order.push(w));
                        assert(order@.len() <= n);
                        assert(((dvv + 1) as int) < n);
                        assert(order@[order@.len() - 1] == w);
                        assert(forall|i: int|
                            0 <= i < order@.len() - 1 ==> #[trigger] order@[i] == old_order[i]);
                        assert(order@.no_duplicates()) by {
                            assert forall|i: int, j: int|
                                0 <= i < order@.len() && 0 <= j < order@.len() && i != j
                                implies order@[i] != order@[j] by {
                                if i < order@.len() - 1 && j < order@.len() - 1 {
                                    assert(old_order[i] != old_order[j]);
                                } else if i == order@.len() - 1 {
                                    assert(order@[i] == w);
                                    assert(order@[j] == old_order[j]);
                                    assert(old_order.contains(old_order[j]));
                                } else {
                                    assert(order@[j] == w);
                                    assert(order@[i] == old_order[i]);
                                    assert(old_order.contains(old_order[i]));
                                }
                            }
                        }
                        assert forall|x: int| 0 <= x < n implies ((#[trigger] dist@[x] as int) < n
                            <==> order@.contains(x as usize)) by {
                            if x == w as int {
                                assert((dist@[x] as int) < n);
                                assert(order@.contains(x as usize));
                            } else {
                                assert(dist@[x] == old_dist[x]);
                                if order@.contains(x as usize) {
                                    let j = choose|j: int|
                                        0 <= j < order@.len() && order@[j] == x as usize;
                                    assert(j < order@.len() - 1);
                                    assert(old_order[j] == x as usize);
                                    assert(old_order.contains(x as usize));
                                }
                                if old_order.contains(x as usize) {
                                    let j = choose|j: int|
                                        0 <= j < old_order.len() && old_order[j] == x as usize;
                                    assert(order@[j] == x as usize);
                                    assert(order@.contains(x as usize));
                                }
                            }
                        }
                        assert forall|i: int|
                            0 <= i < order@.len() implies (dist@[#[trigger] order@[i] as int]
                            as int) <= i by {
                            if i < order@.len() - 1 {
                                assert(order@[i] == old_order[i]);
                                assert(order@[i] != w);
                            }
                        }
                        assert forall|i: int|
                            0 <= i < order@.len() implies sigma@[#[trigger] order@[i] as int]
                            >= 1 by {
                            if i < order@.len() - 1 {
                                assert(order@[i] == old_order[i]);
                            }
                        }
                        assert forall|i: int|
                            1 <= i < order@.len() implies g.degree_spec(
                            #[trigger] order@[i] as int) >= 1 by {
                            if i < order@.len() - 1 {
                                assert(order@[i] == old_order[i]);
                            } else {
                                assert(order@[i] == w);
                            }
                        }
                        assert(bfs_edges(*g, bst, v as int, k as int + 1) == Option::Some(
                            SearchState {
                                dist: dist@,
                                sigma: sigma@,
                                order: order@,
                                head: head as int,
                            },
                        )) by {
                            assert(dist@ =~= old_dist.update(w as int, (dvv + 1) as u64));
                            assert(order@ =~= old_order.push(w));
                        }
                    }
                } else if dw == dvv + 1 {
                    // another shortest path into w
                    let sv = sigma[v];
                    let sw = sigma[w];
                    if sw > u64::MAX - sv {
                        proof {
                            assert(bfs_edges(*g, bst, v as int, k as int + 1) is None);
                            lemma_bfs_edges_none(*g, bst, v as int, k as int + 1, dv as int);
                            assert(bfs_step(*g, bst) is None);
                            assert(bfs_run(*g, bst, (n - head) as nat) is None);
                            assert(bc_fold(*g, s as int + 1) is None);
                            lemma_bc_fold_none(*g, s as int + 1, n as int);
                        }
                        return Err(CentralityError::Overflow);
                    }
                    let ghost old_sigma = sigma@;
                    sigma.set(w, sw + sv);
                    proof {
                        assert(bfs_edges(*g, bst, v as int, k as int + 1) == Option::Some(
                            SearchState {
                                dist: dist@,
                                sigma: sigma@,
                                order: order@,
                                head: head as int,
                            },
                        )) by {
                            assert(sigma@ =~= old_sigma.update(w as int, (sw + sv) as u64));
                        }
                    }
                } else {
                    proof {
                        assert(bfs_edges(*g, bst, v as int, k as int + 1) == Option::Some(
                            SearchState {
                                dist: dist@,
                                sigma: sigma@,
                                order: order@,
                                head: head as int,
                            },
                        ));
                    }
                }
                k = k + 1;
            }
            proof {
                assert(bfs_step(*g, bst) == Option::Some(
                    SearchState {
                        dist: dist@,
                        sigma: sigma@,
                        order: order@,
                        head: head as int + 1,
                    },
                ));
                assert(bfs_run(*g, bst, (n - head) as nat) == bfs_run(
                    *g,
                    SearchState {
                        dist: dist@,
                        sigma: sigma@,
                        order: order@,
                        head: head as int + 1,
                    },
                    (n - head - 1) as nat,
                ));
            }
            head = head + 1;
        }
        let ghost stf = SearchState {
            dist: dist@,
            sigma: sigma@,
            order: order@,
            head: head as int,
        };
        proof {
            assert(bfs_run(*g, stf, (n - head) as nat) == Option::Some(stf));
            assert(bfs_run(*g, bfs_init(*g, s as int), n as nat) == Option::Some(stf));
        }
        // Backward dependency accumulation in reverse finishing order.
        let mut delta = zeros(n);
        let mut idx: usize = order.len();
        while idx > 0
            invariant
                g.wf(),
                n == g.node_count_spec(),
                s < n,
                idx <= order@.len(),
                dist@.len() == n,
                sigma@.len() == n,
                1 <= order@.len() <= n,
                order@[0] == s,
                forall|i: int| 0 <= i < order@.len() ==> (#[trigger] order@[i]) < n,
                forall|i: int|
                    0 <= i < order@.len() ==> sigma@[#[trigger] order@[i] as int] >= 1,
                forall|i: int|
                    1 <= i < order@.len() ==> g.degree_spec(#[trigger] order@[i] as int) >= 1,
                forall|w: int| 0 <= w < n ==> (#[trigger] dist@[w] as int) <= n,
                forall|w: int|
                    0 <= w < n ==> ((#[trigger] dist@[w] as int) < n <==> order@.contains(
                        w as usize,
                    )),
                delta@.len() == n,
                all_wf(delta@),
                forall|w: int|
                    0 <= w < n && g.degree_spec(w) == 0 ==> (#[trigger] delta@[w]).num == 0,
                bc@.len() == n,
                all_wf(bc@),
                forall|w: int|
                    0 <= w < n && g.degree_spec(w) == 0 ==> (#[trigger] bc@[w]).num == 0,
                stf.dist == dist@ && stf.sigma == sigma@ && stf.order == order@,
                dep_pass(*g, stf, s as int, idx as int, zero_scores(n as nat), bc_in)
                    == Option::Some((delta@, bc@)),
                bc_fold(*g, s as int) == Option::Some(bc_in),
                bfs_run(*g, bfs_init(*g, s as int), n as nat) == Option::Some(stf),
            decreases idx,
        {
            idx = idx - 1;
            let v = order[idx];
            let dvv = dist[v];
            let dv = g.degree(v);
            let ghost delta_in = delta@;
            let ghost bcv = bc@;
            let mut k: usize = 0;
            while k < dv
                invariant
                    g.wf(),
                    n == g.node_count_spec(),
                    s < n,
                    v < n,
                    idx < order@.len(),
                    order@[idx as int] == v,
                    dvv == dist@[v as int],
                    dv == g.degree_spec(v as int),
                    k <= dv,
                    dist@.len() == n,
                    sigma@.len() == n,
                    1 <= order@.len() <= n,
                    order@[0] == s,
                    forall|i: int| 0 <= i < order@.len() ==> (#[trigger] order@[i]) < n,
                    forall|i: int|
                        0 <= i < order@.len() ==> sigma@[#[trigger] order@[i] as int] >= 1,
                    forall|i: int|
                        1 <= i < order@.len() ==> g.degree_spec(#[trigger] order@[i] as int)
                            >= 1,
                    forall|w: int| 0 <= w < n ==> (#[trigger] dist@[w] as int) <= n,
                    forall|w: int|
                        0 <= w < n ==> ((#[trigger] dist@[w] as int) < n <==> order@.contains(
                            w as usize,
                        )),
                    delta@.len() == n,
                    all_wf(delta@),
                    forall|w: int|
                        0 <= w < n && g.degree_spec(w) == 0 ==> (#[trigger] delta@[w]).num == 0,
                    bc@.len() == n,
                    all_wf(bc@),
                    forall|w: int|
                        0 <= w < n && g.degree_spec(w) == 0 ==> (#[trigger] bc@[w]).num == 0,
                    stf.dist == dist@ && stf.sigma == sigma@ && stf.order == order@,
                    bc@ == bcv,
                    dep_pass(*g, stf, s as int, idx as int + 1, zero_scores(n as nat), bc_in)
                        == Option::Some((delta_in, bcv)),
                    dep_edges(*g, stf, delta_in, v as int, k as int) == Option::Some(delta@),
                    bc_fold(*g, s as int) == Option::Some(bc_in),
                    bfs_run(*g, bfs_init(*g, s as int), n as nat) == Option::Some(stf),
                decreases dv - k,
            {
                let w = g.neighbor(v, k);
                // only neighbors one hop nearer the source lie on shortest
                // paths into v
                if dvv >= 1 && dist[w] == dvv - 1 {
                    proof {
                        assert(order@.contains(v)) by {
                            assert(order@[idx as int] == v);
                        }
                        assert((dist@[w as int] as int) < n);
                        assert(order@.contains(w));
                        let jv = choose|j: int| 0 <= j < order@.len() && order@[j] == v;
                        assert(sigma@[order@[jv] as int] >= 1);
                        let jw = choose|j: int| 0 <= j < order@.len() && order@[j] == w;
                        assert(sigma@[order@[jw] as int] >= 1);
                    }
                    let sw = Rational::new(sigma[w], 1);
                    let sv = Rational::new(sigma[v], 1);
                    proof {
                        lemma_gcd_spec_one(sigma@[w as int] as int);
                        lemma_gcd_spec_one(sigma@[v as int] as int);
                        lemma_gcd_spec_one(1);
                        assert(sw == (Rational { num: stf.sigma[w as int], den: 1 }));
                        assert(sv == (Rational { num: stf.sigma[v as int], den: 1 }));
                    }
                    let ratio = match sw.checked_div(sv) {
                        Some(c) => c,
                        None => {
                            proof {
                                assert(dep_edges(*g, stf, delta_in, v as int, k as int + 1)
                                    is None);
                                lemma_dep_edges_none(
                                    *g,
                                    stf,
                                    delta_in,
                                    v as int,
                                    k as int + 1,
                                    dv as int,
                                );
                                assert(dep_pass(
                                    *g,
                                    stf,
                                    s as int,
                                    idx as int,
                                    zero_scores(n as nat),
                                    bc_in,
                                ) is None);
                                lemma_dep_pass_none(
                                    *g,
                                    stf,
                                    s as int,
                                    0,
                                    idx as int,
                                    zero_scores(n as nat),
                                    bc_in,
                                );
                                assert(bc_fold(*g, s as int + 1) is None);
                                lemma_bc_fold_none(*g, s as int + 1, n as int);
                            }
                            return Err(CentralityError::Overflow);
                        },
                    };
                    let one_plus = match Rational::one().checked_add(delta[v]) {
                        Some(c) => c,
                        None => {
                            proof {
                                assert(dep_edges(*g, stf, delta_in, v as int, k as int + 1)
                                    is None);
                                lemma_dep_edges_none(
                                    *g,
                                    stf,
                                    delta_in,
                                    v as int,
                                    k as int + 1,
                                    dv as int,
                                );
                                assert(dep_pass(
                                    *g,
                                    stf,
                                    s as int,
                                    idx as int,
                                    zero_scores(n as nat),
                                    bc_in,
                                ) is None);
                                lemma_dep_pass_none(
                                    *g,
                                    stf,
                                    s as int,
                                    0,
                                    idx as int,
                                    zero_scores(n as nat),
                                    bc_in,
                                );
                                assert(bc_fold(*g, s as int + 1) is None);
                                lemma_bc_fold_none(*g, s as int + 1, n as int);
                            }
                            return Err(CentralityError::Overflow);
                        },
                    };
                    let c = match ratio.checked_mul(one_plus) {
                        Some(c) => c,
                        None => {
                            proof {
                                assert(dep_edges(*g, stf, delta_in, v as int, k as int + 1)
                                    is None);
                                lemma_dep_edges_none(
                                    *g,
                                    stf,
                                    delta_in,
                                    v as int,
                                    k as int + 1,
                                    dv as int,
                                );
                                assert(dep_pass(
                                    *g,
                                    stf,
                                    s as int,
                                    idx as int,
                                    zero_scores(n as nat),
                                    bc_in,
                                ) is None);
                                lemma_dep_pass_none(
                                    *g,
                                    stf,
                                    s as int,
                                    0,
                                    idx as int,
                                    zero_scores(n as nat),
                                    bc_in,
                                );
                                assert(bc_fold(*g, s as int + 1) is None);
                                lemma_bc_fold_none(*g, s as int + 1, n as int);
                            }
                            return Err(CentralityError::Overflow);
                        },
                    };
                    let dnew = match delta[w].checked_add(c) {
                        Some(c) => c,
                        None => {
                            proof {
                                assert(dep_edges(*g, stf, delta_in, v as int, k as int + 1)
                                    is None);
                                lemma_dep_edges_none(
                                    *g,
                                    stf,
                                    delta_in,
                                    v as int,
                                    k as int + 1,
                                    dv as int,
                                );
                                assert(dep_pass(
                                    *g,
                                    stf,
                                    s as int,
                                    idx as int,
                                    zero_scores(n as nat),
                                    bc_in,
                                ) is None);
                                lemma_dep_pass_none(
                                    *g,
                                    stf,
                                    s as int,
                                    0,
                                    idx as int,
                                    zero_scores(n as nat),
                                    bc_in,
                                );
                                assert(bc_fold(*g, s as int + 1) is None);
                                lemma_bc_fold_none(*g, s as int + 1, n as int);
                            }
                            return Err(CentralityError::Overflow);
                        },
                    };
                    let ghost old_delta = delta@;
                    delta.set(w, dnew);
                    proof {
                        assert(dep_edges(*g, stf, delta_in, v as int, k as int + 1)
                            == Option::Some(delta@)) by {
                            assert(delta@ =~= old_delta.update(w as int, dnew));
                        }
                    }
                } else {
                    proof {
                        assert(dep_edges(*g, stf, delta_in, v as int, k as int + 1)
                            == Option::Some(delta@));
                    }
                }
                k = k + 1;
            }
            if v != s {
                proof {
                    assert(order@[idx as int] == v && idx >= 1);
                    assert(g.degree_spec(v as int) >= 1);
                }
                let bnew = match bc[v].checked_add(delta[v]) {
                    Some(c) => c,
                    None => {
                        proof {
                            assert(dep_pass(
                                *g,
                                stf,
                                s as int,
                                idx as int,
                                zero_scores(n as nat),
                                bc_in,
                            ) is None);
                            lemma_dep_pass_none(
                                *g,
                                stf,
                                s as int,
                                0,
                                idx as int,
                                zero_scores(n as nat),
                                bc_in,
                            );
                            assert(bc_fold(*g, s as int + 1) is None);
                            lemma_bc_fold_none(*g, s as int + 1, n as int);
                        }
                        return Err(CentralityError::Overflow);
                    },
                };
                let ghost old_bc = bc@;
                bc.set(v, bnew);
                proof {
                    assert(dep_pass(*g, stf, s as int, idx as int, zero_scores(n as nat), bc_in)
                        == Option::Some((delta@, bc@))) by {
                        assert(bc@ =~= old_bc.update(v as int, bnew));
                    }
                }
            } else {
                proof {
                    assert(dep_pass(*g, stf, s as int, idx as int, zero_scores(n as nat), bc_in)
                        == Option::Some((delta@, bc@)));
                }
            }
        }
        proof {
            assert(dep_pass(*g, stf, s as int, 0, zero_scores(n as nat), bc_in)
                == Option::Some((delta@, bc@)));
            assert(bc_fold(*g, s as int + 1) == Option::Some(bc@));
        }
        s = s + 1;
    }
    proof {
        assert(bc_fold(*g, n as int) == Option::Some(bc@));
    }
    normalize_by_sum(&bc)
}

} // verus!
