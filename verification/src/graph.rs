//! The in-memory undirected multigraph the centrality computations read:
//! one label per node and an adjacency list per node.  An edge between two
//! distinct nodes appears in both endpoints' lists; a self-loop appears once
//! in its node's list, so a node's degree is the length of its list.

use vstd::prelude::*;

verus! {

/// How many entries of `s` equal `x`.
pub open spec fn occ(s: Seq<usize>, x: usize) -> nat
    decreases s.len(),
{
    if s.len() == 0 {
        0
    } else {
        occ(s.drop_last(), x) + if s.last() == x {
            1nat
        } else {
            0nat
        }
    }
}

/// Counting distributes over `push`.
proof fn lemma_occ_push(s: Seq<usize>, y: usize, x: usize)
    ensures
        occ(s.push(y), x) == occ(s, x) + if y == x {
            1nat
        } else {
            0nat
        },
{
    assert(s.push(y).drop_last() == s);
    assert(s.push(y).last() == y);
}

/// A value that no entry can equal is never counted.
proof fn lemma_occ_absent(s: Seq<usize>, x: usize, n: int)
    requires
        forall|i: int| 0 <= i < s.len() ==> (#[trigger] s[i] as int) < n,
        x as int >= n,
    ensures
        occ(s, x) == 0,
    decreases s.len(),
{
    if s.len() > 0 {
        assert(forall|i: int|
            0 <= i < s.drop_last().len() ==> #[trigger] s.drop_last()[i] == s[i]);
        lemma_occ_absent(s.drop_last(), x, n);
        assert(s.last() == s[s.len() - 1]);
    }
}

pub struct Graph {
    pub labels: Vec<String>,
    pub adj: Vec<Vec<usize>>,
}

impl Graph {
    /// Number of nodes.
    pub open spec fn node_count_spec(self) -> nat {
        self.adj@.len()
    }

    /// Adjacency as a sequence of neighbor sequences.
    pub open spec fn adj_spec(self) -> Seq<Seq<usize>> {
        self.adj@.map_values(|row: Vec<usize>| row@)
    }

    pub open spec fn labels_spec(self) -> Seq<String> {
        self.labels@
    }

    /// Degree of node `v`: how many incident edge ends its list holds.
    pub open spec fn degree_spec(self, v: int) -> nat {
        self.adj@[v]@.len()
    }

    /// Every neighbor entry names an existing node whose own list is
    /// non-empty (an edge is visible from both endpoints, and from a
    /// self-loop's only endpoint).
    pub open spec fn wf(self) -> bool {
        &&& self.labels@.len() == self.adj@.len()
        &&& forall|u: int, k: int|
            0 <= u < self.adj@.len() && 0 <= k < self.adj@[u]@.len() ==> #[trigger] self.adj@[u]@[k]
                < self.adj@.len() && self.adj@[self.adj@[u]@[k] as int]@.len() >= 1
        &&& self.symmetric()
    }

    /// Undirected symmetry: an edge between two distinct nodes appears in
    /// both endpoints' lists the same number of times, so every edge is
    /// visitable from either endpoint.
    pub open spec fn symmetric(self) -> bool {
        forall|u: usize, v: usize|
            u < self.adj@.len() && v < self.adj@.len() && u != v ==> #[trigger] occ(
                self.adj@[u as int]@,
                v,
            ) == occ(self.adj@[v as int]@, u)
    }

    /// No parallel edges and no self-loops.
    pub open spec fn simple(self) -> bool {
        forall|u: int|
            0 <= u < self.adj@.len() ==> (#[trigger] self.adj@[u]@).no_duplicates() && (forall|
                k: int,
            |
                0 <= k < self.adj@[u]@.len() ==> #[trigger] self.adj@[u]@[k] != u)
    }

    pub fn new() -> (g: Graph)
        ensures
            g.wf(),
            g.node_count_spec() == 0,
    {
        Graph { labels: Vec::new(), adj: Vec::new() }
    }

    /// Add an isolated node and return its ordinal identity.
    pub fn add_node(&mut self, label: String) -> (id: usize)
        requires
            old(self).wf(),
        ensures
            final(self).wf(),
            id == old(self).node_count_spec(),
            final(self).node_count_spec() == old(self).node_count_spec() + 1,
            final(self).labels_spec() == old(self).labels_spec().push(label),
            final(self).degree_spec(id as int) == 0,
            forall|u: int|
                0 <= u < old(self).node_count_spec() ==> final(self).adj_spec()[u]
                    == old(self).adj_spec()[u],
    {
        let id = self.adj.len();
        self.labels.push(label);
        self.adj.push(Vec::new());
        assert forall|u: int, k: int|
            0 <= u < self.adj@.len() && 0 <= k < self.adj@[u]@.len() implies #[trigger] self
            .adj@[u]@[k] < self.adj@.len() && self.adj@[self.adj@[u]@[k] as int]@.len() >= 1 by {
            assert(u < old(self).adj@.len() ==> self.adj@[u]@ == old(self).adj@[u]@);
        }
        proof {
            assert forall|u: usize, v: usize|
                u < self.adj@.len() && v < self.adj@.len() && u != v implies #[trigger] occ(
                self.adj@[u as int]@,
                v,
            ) == occ(self.adj@[v as int]@, u) by {
                if u < id && v < id {
                    assert(self.adj@[u as int]@ == old(self).adj@[u as int]@);
                    assert(self.adj@[v as int]@ == old(self).adj@[v as int]@);
                } else if u == id {
                    assert(self.adj@[u as int]@ =~= Seq::<usize>::empty());
                    assert(occ(self.adj@[u as int]@, v) == 0);
                    lemma_occ_absent(self.adj@[v as int]@, u, id as int);
                } else {
                    assert(self.adj@[v as int]@ =~= Seq::<usize>::empty());
                    assert(occ(self.adj@[v as int]@, u) == 0);
                    lemma_occ_absent(self.adj@[u as int]@, v, id as int);
                }
            }
        }
        id
    }

    /// Add an undirected edge.  Between distinct nodes it becomes one entry
    /// in each endpoint's list; a self-loop becomes a single entry.
    pub fn add_edge(&mut self, u: usize, v: usize)
        requires
            old(self).wf(),
            u < old(self).node_count_spec(),
            v < old(self).node_count_spec(),
        ensures
            final(self).wf(),
            final(self).node_count_spec() == old(self).node_count_spec(),
            final(self).labels_spec() == old(self).labels_spec(),
            u != v ==> final(self).adj_spec()[u as int] == old(self).adj_spec()[u as int].push(v)
                && final(self).adj_spec()[v as int] == old(self).adj_spec()[v as int].push(u),
            u == v ==> final(self).adj_spec()[u as int] == old(self).adj_spec()[u as int].push(v),
            forall|w: int|
                0 <= w < final(self).node_count_spec() && w != u && w != v
                    ==> final(self).adj_spec()[w] == old(self).adj_spec()[w],
    {
        let ghost before = self.adj@;
        let row = &mut self.adj[u];
        row.push(v);
        if u != v {
            let row2 = &mut self.adj[v];
            row2.push(u);
        }
        assert forall|w: int, k: int|
            0 <= w < self.adj@.len() && 0 <= k < self.adj@[w]@.len() implies #[trigger] self
            .adj@[w]@[k] < self.adj@.len() && self.adj@[self.adj@[w]@[k] as int]@.len() >= 1 by {
            assert(w != u && w != v ==> self.adj@[w]@ == before[w]@);
        }
        proof {
            assert forall|x: usize, y: usize|
                x < self.adj@.len() && y < self.adj@.len() && x != y implies #[trigger] occ(
                self.adj@[x as int]@,
                y,
            ) == occ(self.adj@[y as int]@, x) by {
                assert(occ(old(self).adj@[x as int]@, y) == occ(old(self).adj@[y as int]@, x));
                assert(before[x as int]@ == old(self).adj@[x as int]@);
                assert(before[y as int]@ == old(self).adj@[y as int]@);
                if u != v {
                    assert(self.adj@[u as int]@ == before[u as int]@.push(v));
                    assert(self.adj@[v as int]@ == before[v as int]@.push(u));
                    lemma_occ_push(before[u as int]@, v, y);
                    lemma_occ_push(before[u as int]@, v, x);
                    lemma_occ_push(before[v as int]@, u, y);
                    lemma_occ_push(before[v as int]@, u, x);
                } else {
                    assert(self.adj@[u as int]@ == before[u as int]@.push(v));
                    lemma_occ_push(before[u as int]@, v, y);
                    lemma_occ_push(before[u as int]@, v, x);
                }
                if x != u && x != v {
                    assert(self.adj@[x as int]@ == before[x as int]@);
                }
                if y != u && y != v {
                    assert(self.adj@[y as int]@ == before[y as int]@);
                }
            }
        }
    }

    pub fn node_count(&self) -> (n: usize)
        ensures
            n == self.node_count_spec(),
    {
        self.adj.len()
    }

    pub fn degree(&self, v: usize) -> (d: usize)
        requires
            self.wf(),
            v < self.node_count_spec(),
        ensures
            d == self.degree_spec(v as int),
    {
        self.adj[v].len()
    }

    /// The `k`-th neighbor of `v`.  Well-formedness promises the neighbor
    /// exists and itself touches at least one edge.
    pub fn neighbor(&self, v: usize, k: usize) -> (w: usize)
        requires
            self.wf(),
            v < self.node_count_spec(),
            k < self.degree_spec(v as int),
        ensures
            w == self.adj_spec()[v as int][k as int],
            w < self.node_count_spec(),
            self.degree_spec(w as int) >= 1,
    {
        self.adj[v][k]
    }

    pub fn label(&self, v: usize) -> (l: &String)
        requires
            self.wf(),
            v < self.node_count_spec(),
        ensures
            l == self.labels_spec()[v as int],
    {
        &self.labels[v]
    }
}

} // verus!
