use centrality::betweenness::betweenness_centrality;
use centrality::degree::degree_centrality;
use centrality::eigenvector::eigenvector_centrality_normalized;
use centrality::graph::Graph;
use centrality::ranker::rank_descending;
use centrality::rational::Rational;
use centrality::CentralityError;

/// The six-node scenario: A-B, B-C, C-A, D-A, E-C, F-A, all undirected.
fn generate_graph() -> Graph {
    let mut graph = Graph::new();
    let a = graph.add_node("A".to_string());
    let b = graph.add_node("B".to_string());
    let c = graph.add_node("C".to_string());
    let d = graph.add_node("D".to_string());
    let e = graph.add_node("E".to_string());
    let f = graph.add_node("F".to_string());
    graph.add_edge(a, b);
    graph.add_edge(b, c);
    graph.add_edge(c, a);
    graph.add_edge(d, a);
    graph.add_edge(e, c);
    graph.add_edge(f, a);
    graph
}

fn as_f64(r: Rational) -> f64 {
    r.num as f64 / r.den as f64
}

#[test]
fn test_degree_centrality() {
    let graph = generate_graph();
    let degree_centrality_data = degree_centrality(&graph).unwrap();
    let sorted_deg_centrality = rank_descending(&degree_centrality_data);
    let max_degree_centrality_score = as_f64(sorted_deg_centrality[0].1);
    assert_eq!(max_degree_centrality_score, 0.8);
}

#[test]
fn test_eigenvector_centrality() {
    let graph = generate_graph();
    let eig_centrality_data =
        eigenvector_centrality_normalized(&graph, 50, Rational::new(1, 200)).unwrap();
    let sorted_eig_centrality = rank_descending(&eig_centrality_data);
    let max_eig_centrality_score = as_f64(sorted_eig_centrality[0].1);
    assert_eq!(max_eig_centrality_score, 1.0);
}

#[test]
fn test_between_centrality() {
    let graph = generate_graph();
    let btw_centrality_data = betweenness_centrality(&graph).unwrap();
    let sorted_btw_centrality = rank_descending(&btw_centrality_data);
    let max = sorted_btw_centrality[0].1;
    // Node A carries 14 of the 22 ordered-pair dependencies, so its share is
    // 7/11.  The value 0.5319148936170213 (= 25/47) that is sometimes quoted
    // for this graph arises only from a backward pass that skips the
    // distance filter, inverts the sigma ratio and accumulates once per
    // edge; the distance-filtered accumulation implemented here yields 7/11.
    assert_eq!(max.num * 11, 7 * max.den);
}

#[test]
fn scenario_exact_degree_scores() {
    let graph = generate_graph();
    let scores = degree_centrality(&graph).unwrap();
    let expected = [(4u64, 5u64), (2, 5), (3, 5), (1, 5), (1, 5), (1, 5)];
    for (i, &(n, d)) in expected.iter().enumerate() {
        assert_eq!(scores[i].num * d, n * scores[i].den);
    }
}

#[test]
fn scenario_betweenness_max_is_node_a() {
    let graph = generate_graph();
    let scores = betweenness_centrality(&graph).unwrap();
    let ranked = rank_descending(&scores);
    assert_eq!(ranked[0].0, 0);
    assert_eq!(graph.label(ranked[0].0).as_str(), "A");
}

#[test]
fn degree_scores_stay_in_unit_range_on_simple_graph() {
    let graph = generate_graph();
    let scores = degree_centrality(&graph).unwrap();
    for s in scores.iter() {
        let v = as_f64(*s);
        assert!(0.0 <= v && v <= 1.0);
    }
}

#[test]
fn degree_counts_self_loop_once() {
    let mut graph = Graph::new();
    let a = graph.add_node("A".to_string());
    let b = graph.add_node("B".to_string());
    graph.add_edge(a, b);
    graph.add_edge(a, a);
    let scores = degree_centrality(&graph).unwrap();
    // degree(A) = 2 over n - 1 = 1
    assert_eq!(as_f64(scores[0]), 2.0);
    assert_eq!(as_f64(scores[1]), 1.0);
}

#[test]
fn degree_rejects_tiny_graphs() {
    let empty = Graph::new();
    assert_eq!(degree_centrality(&empty), Err(CentralityError::TooFewNodes));
    let mut one = Graph::new();
    one.add_node("A".to_string());
    assert_eq!(degree_centrality(&one), Err(CentralityError::TooFewNodes));
}

#[test]
fn eigenvector_max_is_exactly_one_with_any_edge() {
    let mut graph = Graph::new();
    let a = graph.add_node("A".to_string());
    let b = graph.add_node("B".to_string());
    graph.add_node("C".to_string());
    graph.add_edge(a, b);
    let scores = eigenvector_centrality_normalized(&graph, 50, Rational::new(1, 200)).unwrap();
    let best = rank_descending(&scores)[0].1;
    assert_eq!(best.num, best.den);
}

#[test]
fn eigenvector_rejects_empty_and_edgeless_graphs() {
    let empty = Graph::new();
    assert_eq!(
        eigenvector_centrality_normalized(&empty, 50, Rational::new(1, 200)),
        Err(CentralityError::TooFewNodes)
    );
    let mut edgeless = Graph::new();
    edgeless.add_node("A".to_string());
    edgeless.add_node("B".to_string());
    assert_eq!(
        eigenvector_centrality_normalized(&edgeless, 50, Rational::new(1, 200)),
        Err(CentralityError::ZeroNormalizer)
    );
}

#[test]
fn betweenness_scores_sum_to_one() {
    let graph = generate_graph();
    let scores = betweenness_centrality(&graph).unwrap();
    let sum: f64 = scores.iter().map(|s| as_f64(*s)).sum();
    assert!((sum - 1.0).abs() < 1e-12);
}

#[test]
fn betweenness_rejects_graph_with_no_intermediate_nodes() {
    // a triangle: every pair is adjacent, so no node lies between any two
    let mut graph = Graph::new();
    let a = graph.add_node("A".to_string());
    let b = graph.add_node("B".to_string());
    let c = graph.add_node("C".to_string());
    graph.add_edge(a, b);
    graph.add_edge(b, c);
    graph.add_edge(c, a);
    assert_eq!(
        betweenness_centrality(&graph),
        Err(CentralityError::ZeroNormalizer)
    );
}

#[test]
fn disconnected_nodes_contribute_nothing_to_betweenness() {
    // path A-B-C in one component, edge D-E and isolated F elsewhere
    let mut graph = Graph::new();
    let a = graph.add_node("A".to_string());
    let b = graph.add_node("B".to_string());
    let c = graph.add_node("C".to_string());
    let d = graph.add_node("D".to_string());
    let e = graph.add_node("E".to_string());
    graph.add_node("F".to_string());
    graph.add_edge(a, b);
    graph.add_edge(b, c);
    graph.add_edge(d, e);
    let scores = betweenness_centrality(&graph).unwrap();
    // all dependency flows through B, which takes the whole distribution
    assert_eq!(scores[1].num, scores[1].den);
    assert_eq!(scores[0].num, 0);
    assert_eq!(scores[2].num, 0);
    assert_eq!(scores[3].num, 0);
    assert_eq!(scores[4].num, 0);
    assert_eq!(scores[5].num, 0);
}

#[test]
fn computations_are_idempotent() {
    let graph = generate_graph();
    let d1 = degree_centrality(&graph).unwrap();
    let d2 = degree_centrality(&graph).unwrap();
    assert_eq!(d1, d2);
    let e1 = eigenvector_centrality_normalized(&graph, 50, Rational::new(1, 200)).unwrap();
    let e2 = eigenvector_centrality_normalized(&graph, 50, Rational::new(1, 200)).unwrap();
    assert_eq!(e1, e2);
    let b1 = betweenness_centrality(&graph).unwrap();
    let b2 = betweenness_centrality(&graph).unwrap();
    assert_eq!(b1, b2);
}

#[test]
fn ranker_sorts_descending_and_keeps_every_node() {
    let scores = vec![
        Rational::new(1, 2),
        Rational::new(3, 4),
        Rational::new(1, 4),
        Rational::new(3, 4),
    ];
    let ranked = rank_descending(&scores);
    assert_eq!(ranked.len(), 4);
    for w in ranked.windows(2) {
        assert!(as_f64(w[0].1) >= as_f64(w[1].1));
    }
    let mut ids: Vec<usize> = ranked.iter().map(|p| p.0).collect();
    ids.sort();
    assert_eq!(ids, vec![0, 1, 2, 3]);
}

#[test]
fn rational_arithmetic_is_exact_and_reduced() {
    let a = Rational::new(6, 8);
    assert_eq!((a.num, a.den), (3, 4));
    let b = a.checked_add(Rational::new(1, 4)).unwrap();
    assert_eq!((b.num, b.den), (1, 1));
    let c = Rational::new(2, 3).checked_mul(Rational::new(3, 4)).unwrap();
    assert_eq!((c.num, c.den), (1, 2));
    let d = Rational::new(1, 2).checked_div(Rational::new(1, 3)).unwrap();
    assert_eq!((d.num, d.den), (3, 2));
    let e = Rational::new(1, 3).checked_abs_diff(Rational::new(1, 2)).unwrap();
    assert_eq!((e.num, e.den), (1, 6));
}
