use graph_analytics::{
    average_degree, clustering_coefficient, clustering_coefficients, connectivity_search,
    degree_distribution, densest_subgraph, global_clustering_coefficient, Graph, Ratio,
};

fn value(r: Ratio) -> f64 {
    r.num as f64 / r.den as f64
}

fn graph_of(edges: &[(&str, &str)]) -> Graph {
    let mut g = Graph::new();
    for (a, b) in edges {
        g.add_edge(a.to_string(), b.to_string());
    }
    g
}

fn triangle() -> Graph {
    graph_of(&[("A", "B"), ("B", "C"), ("C", "A")])
}

#[test]
fn test_degree_distribution() {
    let graph = graph_of(&[("A", "B"), ("A", "C")]);
    let distribution = degree_distribution(&graph);
    assert_eq!(distribution.get(&1), Some(&2));
    assert_eq!(distribution.get(&2), Some(&1));
}

#[test]
fn test_average_degree() {
    let graph = graph_of(&[("A", "B"), ("B", "C")]);
    let avg_degree = value(average_degree(&graph));
    assert!((avg_degree - 1.333).abs() < 0.001);
}

#[test]
fn test_densest_subgraph() {
    let graph = triangle();
    let (subgraph, density) = densest_subgraph(&graph);
    assert_eq!(subgraph.len(), 3);
    assert!((value(density) - 1.0).abs() < 0.001);
}

#[test]
fn test_shortest_path() {
    let mut graph = Graph::new();
    graph.add_edge("A".to_string(), "B".to_string());
    graph.add_edge("B".to_string(), "C".to_string());
    let path = graph.shortest_path("A", "C").unwrap();
    assert_eq!(path, vec!["A", "B", "C"]);
}

#[test]
fn test_clustering_coefficient() {
    let graph = triangle();
    let coefficient = clustering_coefficient(&graph, "A").unwrap();
    assert!((value(coefficient) - 1.0).abs() < 0.001);
}

#[test]
fn test_global_clustering_coefficient() {
    let graph = triangle();
    let coefficient = value(global_clustering_coefficient(&graph));
    assert!((coefficient - 1.0).abs() < 0.001);
}

#[test]
fn test_average_clustering_coefficient() {
    let graph = triangle();
    let all = clustering_coefficients(&graph);
    let coefficient = all.iter().map(|r| value(*r)).sum::<f64>() / all.len() as f64;
    assert!((coefficient - 1.0).abs() < 0.001);
}

#[test]
fn neighbours_are_symmetric() {
    let graph = graph_of(&[("A", "B"), ("C", "A"), ("D", "D")]);
    let n = graph.num_vertices_exec();
    for i in 0..n {
        for &j in graph.neighbors(i) {
            assert!(graph.neighbors(j).contains(&i));
        }
    }
    assert_eq!(graph.shortest_path("B", "A").unwrap(), vec!["B", "A"]);
    assert_eq!(graph.shortest_path("A", "B").unwrap(), vec!["A", "B"]);
}

#[test]
fn adding_an_edge_twice_changes_nothing() {
    let mut graph = graph_of(&[("A", "B"), ("B", "C")]);
    let before = degree_distribution(&graph);
    graph.add_edge("A".to_string(), "B".to_string());
    graph.add_edge("B".to_string(), "A".to_string());
    assert_eq!(degree_distribution(&graph), before);
    assert_eq!(graph.num_vertices_exec(), 3);
    assert_eq!(graph.neighbors(0).len(), 1);
}

#[test]
fn vertices_are_numbered_in_order_of_appearance() {
    let graph = graph_of(&[("x", "y"), ("z", "x")]);
    assert_eq!(graph.label(0), "x");
    assert_eq!(graph.label(1), "y");
    assert_eq!(graph.label(2), "z");
    assert_eq!(graph.neighbors(0), &vec![1, 2]);
}

#[test]
fn shortest_path_takes_the_short_route() {
    let graph = graph_of(&[("A", "B"), ("B", "C"), ("C", "D"), ("D", "E"), ("A", "F"), ("F", "E")]);
    assert_eq!(graph.shortest_path("A", "E").unwrap(), vec!["A", "F", "E"]);
    assert_eq!(graph.shortest_path("C", "F").unwrap().len(), 4);
}

#[test]
fn shortest_path_to_itself_is_one_vertex() {
    let graph = graph_of(&[("A", "B")]);
    assert_eq!(graph.shortest_path("A", "A").unwrap(), vec!["A"]);
}

#[test]
fn shortest_path_missing_or_disconnected() {
    let graph = graph_of(&[("A", "B"), ("C", "D")]);
    assert_eq!(graph.shortest_path("A", "Z"), None);
    assert_eq!(graph.shortest_path("Z", "A"), None);
    assert_eq!(graph.shortest_path("A", "D"), None);
    assert_eq!(Graph::new().shortest_path("A", "A"), None);
}

#[test]
fn connectivity_over_a_partition() {
    // players 0, 1 share one club; 1, 2 another; 3 is alone
    let adj = vec![vec![0, 1], vec![0, 1, 2], vec![1, 2], vec![3]];
    assert_eq!(connectivity_search(&adj, 0, 2), Some(vec![0, 1, 2]));
    assert_eq!(connectivity_search(&adj, 2, 2), Some(vec![2]));
    assert_eq!(connectivity_search(&adj, 0, 3), None);
}

#[test]
fn average_degree_of_empty_graph_is_zero() {
    let r = average_degree(&Graph::new());
    assert_eq!(r, Ratio { num: 0, den: 1 });
    let r = average_degree(&graph_of(&[("A", "B"), ("B", "C")]));
    assert_eq!(r, Ratio { num: 4, den: 3 });
}

#[test]
fn degree_distribution_of_a_cycle() {
    let d = degree_distribution(&triangle());
    assert_eq!(d.get(&2), Some(&3));
    assert_eq!(d.len(), 1);
    assert!(degree_distribution(&Graph::new()).is_empty());
}

#[test]
fn clustering_of_low_degree_and_missing_vertices() {
    let graph = graph_of(&[("A", "B"), ("B", "C")]);
    assert_eq!(clustering_coefficient(&graph, "A"), Some(Ratio { num: 0, den: 1 }));
    assert_eq!(clustering_coefficient(&graph, "B"), Some(Ratio { num: 0, den: 2 }));
    assert_eq!(clustering_coefficient(&graph, "Q"), None);
}

#[test]
fn clustering_of_a_triangle_with_a_tail() {
    let graph = graph_of(&[("A", "B"), ("B", "C"), ("C", "A"), ("C", "D")]);
    assert_eq!(clustering_coefficient(&graph, "C"), Some(Ratio { num: 2, den: 6 }));
    assert_eq!(clustering_coefficient(&graph, "A"), Some(Ratio { num: 2, den: 2 }));
    assert_eq!(global_clustering_coefficient(&graph), Ratio { num: 6, den: 10 });
    let all = clustering_coefficients(&graph);
    assert_eq!(all.len(), 4);
    assert_eq!(all[3], Ratio { num: 0, den: 1 });
}

#[test]
fn triangle_coefficients_are_exact() {
    let graph = triangle();
    assert_eq!(global_clustering_coefficient(&graph), Ratio { num: 6, den: 6 });
    for r in clustering_coefficients(&graph) {
        assert_eq!(r, Ratio { num: 2, den: 2 });
    }
}

#[test]
fn global_clustering_without_triplets_is_zero() {
    assert_eq!(global_clustering_coefficient(&Graph::new()), Ratio { num: 0, den: 1 });
    let graph = graph_of(&[("A", "B")]);
    assert_eq!(global_clustering_coefficient(&graph), Ratio { num: 0, den: 1 });
}

#[test]
fn densest_subgraph_exact_values() {
    let (labels, density) = densest_subgraph(&triangle());
    assert_eq!(labels, vec!["A", "B", "C"]);
    assert_eq!(density, Ratio { num: 3, den: 3 });
    let (labels, density) = densest_subgraph(&Graph::new());
    assert!(labels.is_empty());
    assert_eq!(density, Ratio { num: 0, den: 1 });
    let (labels, density) = densest_subgraph(&graph_of(&[("A", "B"), ("B", "C")]));
    assert_eq!(labels, vec!["B", "A", "C"]);
    assert_eq!(density, Ratio { num: 2, den: 3 });
}

#[test]
fn self_loop_is_counted_once() {
    let graph = graph_of(&[("A", "A"), ("A", "B")]);
    assert_eq!(graph.neighbors(0).len(), 2);
    assert_eq!(degree_distribution(&graph).get(&2), Some(&1));
    assert_eq!(clustering_coefficient(&graph, "A"), Some(Ratio { num: 3, den: 2 }));
}
