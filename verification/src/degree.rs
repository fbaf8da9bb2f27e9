//! Degree centrality: each node's score is its degree divided by `n - 1`.

use vstd::prelude::*;

use crate::graph::Graph;
use crate::rational::{
    frac_eq, frac_le, frac_one, frac_wf, frac_zero, lemma_frac_eq_trans, Frac, Rational,
};
use crate::CentralityError;

verus! {

/// The exact degree-centrality fraction of node `v`.
pub open spec fn degree_score(g: Graph, v: int) -> Frac {
    Frac { n: g.degree_spec(v) as int, d: g.node_count_spec() - 1 }
}

/// Score every node as `degree / (n - 1)`.  A graph with fewer than two
/// nodes is rejected: the denominator would not be positive.
pub fn degree_centrality(g: &Graph) -> (r: Result<Vec<Rational>, CentralityError>)
    requires
        g.wf(),
    ensures
        match r {
            Ok(out) => {
                &&& g.node_count_spec() >= 2
                &&& out@.len() == g.node_count_spec()
                &&& forall|v: int|
                    0 <= v < g.node_count_spec() ==> (#[trigger] out@[v]).wf() && frac_eq(
                        out@[v].v(),
                        degree_score(*g, v),
                    )
            },
            Err(e) => e == CentralityError::TooFewNodes && g.node_count_spec() < 2,
        },
{
    let n = g.node_count();
    if n < 2 {
        return Err(CentralityError::TooFewNodes);
    }
    let mut out: Vec<Rational> = Vec::new();
    let mut v: usize = 0;
    while v < n
        invariant
            g.wf(),
            2 <= n == g.node_count_spec(),
            v <= n,
            out@.len() == v,
            forall|k: int|
                0 <= k < v ==> (#[trigger] out@[k]).wf() && frac_eq(
                    out@[k].v(),
                    degree_score(*g, k),
                ),
        decreases n - v,
    {
        let d = g.degree(v);
        let score = Rational::new(d as u64, (n - 1) as u64);
        out.push(score);
        v = v + 1;
    }
    Ok(out)
}

/// Recomputing degree centrality on an unchanged graph returns the same
/// value at every node: the contract pins each score to the graph alone, so
/// the computation is a pure function of the graph.
pub proof fn lemma_degree_centrality_deterministic(
    g: Graph,
    out1: Seq<Rational>,
    out2: Seq<Rational>,
    v: int,
)
    requires
        g.wf(),
        g.node_count_spec() >= 2,
        out1.len() == g.node_count_spec(),
        out2.len() == g.node_count_spec(),
        forall|k: int|
            0 <= k < g.node_count_spec() ==> (#[trigger] out1[k]).wf() && frac_eq(
                out1[k].v(),
                degree_score(g, k),
            ),
        forall|k: int|
            0 <= k < g.node_count_spec() ==> (#[trigger] out2[k]).wf() && frac_eq(
                out2[k].v(),
                degree_score(g, k),
            ),
        0 <= v < g.node_count_spec(),
    ensures
        frac_eq(out1[v].v(), out2[v].v()),
{
    let dg = degree_score(g, v);
    assert(frac_wf(dg));
    assert(frac_eq(dg, out2[v].v()));
    lemma_frac_eq_trans(out1[v].v(), dg, out2[v].v());
}

/// On a graph without self-loops or parallel edges every degree-centrality
/// score lies between zero and one: a node can touch at most the `n - 1`
/// other nodes.
pub proof fn lemma_degree_scores_in_unit_range(g: Graph, out: Seq<Rational>, v: int)
    requires
        g.wf(),
        g.simple(),
        g.node_count_spec() >= 2,
        out.len() == g.node_count_spec(),
        forall|k: int|
            0 <= k < g.node_count_spec() ==> (#[trigger] out[k]).wf() && frac_eq(
                out[k].v(),
                degree_score(g, k),
            ),
        0 <= v < g.node_count_spec(),
    ensures
        frac_le(frac_zero(), out[v].v()),
        frac_le(out[v].v(), frac_one()),
{
    lemma_neighbors_at_most_others(g, v);
    let sc = out[v].v();
    let dg = degree_score(g, v);
    assert(frac_le(frac_zero(), sc)) by (nonlinear_arith)
        requires
            sc.n >= 0,
            sc.d >= 1,
    ;
    // sc ~ dg and dg.n <= dg.d, so sc.n <= sc.d
    assert(sc.n <= sc.d) by (nonlinear_arith)
        requires
            sc.n * dg.d == dg.n * sc.d,
            dg.n <= dg.d,
            dg.d >= 1,
            sc.d >= 1,
            sc.n >= 0,
            dg.n >= 0,
    ;
}

/// In a simple graph a node has at most `n - 1` neighbors.
proof fn lemma_neighbors_at_most_others(g: Graph, v: int)
    requires
        g.wf(),
        g.simple(),
        0 <= v < g.node_count_spec(),
    ensures
        g.degree_spec(v) <= g.node_count_spec() - 1,
{
    let n = g.node_count_spec() as int;
    let row = g.adj_spec()[v];
    let others = Set::new(|w: int| 0 <= w < n && w != v);
    assert(row.no_duplicates() && forall|k: int| 0 <= k < row.len() ==> #[trigger] row[k] != v);
    let ints = row.map_values(|w: usize| w as int);
    assert(ints.no_duplicates()) by {
        assert forall|i: int, j: int|
            0 <= i < ints.len() && 0 <= j < ints.len() && i != j implies ints[i] != ints[j] by {
            assert(row[i] != row[j]);
        }
    }
    ints.unique_seq_to_set();
    let st = ints.to_set();
    assert(st.len() == ints.len());
    assert(st.subset_of(others)) by {
        assert forall|w: int| st.contains(w) implies others.contains(w) by {
            let k = choose|k: int| 0 <= k < ints.len() && ints[k] == w;
            assert(row[k] != v && row[k] < n);
        }
    }
    assert(others.finite() && others.len() == n - 1) by {
        lemma_int_range_minus_one(n, v);
    }
    vstd::set_lib::lemma_len_subset(st, others);
}

/// The set of node identities other than `v` has `n - 1` elements.
proof fn lemma_int_range_minus_one(n: int, v: int)
    requires
        n >= 1,
        0 <= v < n,
    ensures
        Set::new(|w: int| 0 <= w < n && w != v).finite(),
        Set::new(|w: int| 0 <= w < n && w != v).len() == n - 1,
{
    let range = vstd::set_lib::set_int_range(0, n);
    vstd::set_lib::lemma_int_range(0, n);
    let others = Set::new(|w: int| 0 <= w < n && w != v);
    assert(others =~= range.remove(v));
    assert(range.contains(v));
    assert(range.remove(v).len() == range.len() - 1);
}

} // verus!
