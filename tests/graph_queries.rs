use social_graph::graph::{Coordinate, Graph};
use social_graph::record::{split_record, Record};

fn rec(s: &str, t: &str, w: i64) -> Record {
    Record { source: s.to_string(), target: t.to_string(), weight: w }
}

fn chain() -> Graph {
    let mut g = Graph::new();
    g.load_from_records(&vec![rec("A", "B", 5000), rec("B", "C", 3000)]);
    g
}

fn names(g: &Graph) -> Vec<String> {
    g.nodes.iter().map(|n| n.name.clone()).collect()
}

#[test]
fn example_chain_counts_and_paths() {
    let g = chain();
    assert_eq!(g.node_count(), 3);
    assert_eq!(g.edge_count(), 1);
    let p = g.get_path("A", "C").unwrap();
    assert_eq!(p.path, vec!["A".to_string(), "B".to_string(), "C".to_string()]);
    assert_eq!(p.hops, 2);
    assert!(g.get_path("C", "A").is_none());
}

#[test]
fn example_circle_of_b() {
    let g = chain();
    let c = g.get_circle("B").unwrap();
    assert_eq!(c.len(), 1);
    assert_eq!(c[0].name, "C");
    assert_eq!(c[0].weight, 3000);
    assert!(g.get_circle("Z").is_none());
}

#[test]
fn load_twice_gives_same_topology() {
    let recs = vec![rec("x", "y", 1), rec("y", "z", 2), rec("x", "z", 3), rec("z", "x", 4)];
    let mut g1 = Graph::new();
    g1.load_from_records(&recs);
    let mut g2 = Graph::new();
    g2.load_from_records(&recs);
    g2.load_from_records(&recs);
    assert_eq!(names(&g1), names(&g2));
    assert_eq!(g1.adj, g2.adj);
    assert_eq!(g1.node_count(), g2.node_count());
    assert_eq!(g1.edge_count(), g2.edge_count());
}

#[test]
fn load_clears_previous_state() {
    let mut g = chain();
    g.load_from_records(&vec![rec("P", "Q", 7)]);
    assert_eq!(names(&g), vec!["P".to_string(), "Q".to_string()]);
    assert_eq!(g.adj, vec![vec![(1usize, 7i64)], vec![]]);
}

#[test]
fn duplicate_edges_accumulate() {
    let mut g = Graph::new();
    g.load_from_records(&vec![rec("A", "B", 1), rec("A", "B", 2), rec("B", "A", 3)]);
    assert_eq!(g.adj[0], vec![(1usize, 1i64), (1usize, 2i64)]);
    assert_eq!(g.edge_count(), 1);
    let info = g.get_info("A").unwrap();
    assert_eq!(info.index, 0);
    assert_eq!(info.connections, 2);
}

#[test]
fn shortest_path_prefers_fewest_hops() {
    let mut g = Graph::new();
    g.load_from_records(&vec![
        rec("s", "a", 1),
        rec("a", "b", 1),
        rec("b", "t", 1),
        rec("s", "t", 100),
    ]);
    let p = g.get_path("s", "t").unwrap();
    assert_eq!(p.hops, 1);
    assert_eq!(p.path, vec!["s".to_string(), "t".to_string()]);
    let same = g.get_path("a", "a").unwrap();
    assert_eq!(same.hops, 0);
    assert_eq!(same.path, vec!["a".to_string()]);
    assert!(g.get_path("s", "nobody").is_none());
}

#[test]
fn reachable_layers_are_disjoint_and_cover() {
    let mut g = Graph::new();
    g.load_from_records(&vec![
        rec("a", "b", 1),
        rec("a", "c", 1),
        rec("b", "d", 1),
        rec("c", "d", 1),
        rec("d", "e", 1),
        rec("f", "a", 1),
    ]);
    assert_eq!(g.get_reachable("a", 0).unwrap(), vec!["a".to_string()]);
    assert_eq!(g.get_reachable("a", 1).unwrap(), vec!["b".to_string(), "c".to_string()]);
    assert_eq!(g.get_reachable("a", 2).unwrap(), vec!["d".to_string()]);
    assert_eq!(g.get_reachable("a", 3).unwrap(), vec!["e".to_string()]);
    assert!(g.get_reachable("a", 4).unwrap().is_empty());
    assert!(g.get_reachable("a", 100).unwrap().is_empty());
    let mut all: Vec<String> = Vec::new();
    for h in 0..6 {
        all.extend(g.get_reachable("a", h).unwrap());
    }
    all.sort();
    assert_eq!(all, vec!["a", "b", "c", "d", "e"]);
    assert!(g.get_reachable("zz", 1).is_none());
}

#[test]
fn analyze_tiers_partition_nodes() {
    let mut g = Graph::new();
    g.load_from_records(&vec![
        rec("a", "b", 1000),
        rec("b", "c", 5000),
        rec("c", "d", 3000),
        rec("c", "a", 3000),
        rec("d", "e", 2000),
        rec("e", "a", 2000),
        rec("e", "b", 0),
    ]);
    let r = g.analyze();
    assert_eq!(r.core.len(), 1);
    assert_eq!(r.active.len(), 2);
    assert_eq!(r.edge.len(), 2);
    assert_eq!(r.core[0].name, "c");
    assert_eq!(r.core[0].weight_sum, 6000);
    assert_eq!(r.core[0].degree, 2);
    assert_eq!(r.active[0].name, "b");
    assert_eq!(r.active[1].name, "e");
    assert_eq!(r.active[1].degree, 2);
    assert_eq!(r.edge[0].name, "d");
    assert_eq!(r.edge[1].name, "a");
}

#[test]
fn analyze_small_and_empty_graphs() {
    let g = Graph::new();
    let r = g.analyze();
    assert!(r.core.is_empty() && r.active.is_empty() && r.edge.is_empty());
    let g = chain();
    let r = g.analyze();
    assert_eq!(r.core.len(), 0);
    assert_eq!(r.active.len(), 1);
    assert_eq!(r.edge.len(), 2);
    assert_eq!(r.active[0].name, "A");
    assert_eq!(r.edge[0].name, "B");
    assert_eq!(r.edge[1].name, "C");
}

fn placed() -> Graph {
    let mut g = Graph::new();
    g.update_node_at("o", Coordinate { x: 0, y: 0 });
    g.update_node_at("far", Coordinate { x: 900, y: 1200 });
    g.update_node_at("near", Coordinate { x: 300, y: 400 });
    g.update_node_at("tie", Coordinate { x: 500, y: 0 });
    g.update_node_at("close", Coordinate { x: 0, y: 100 });
    g
}

#[test]
fn distance_is_squared_euclidean() {
    let g = placed();
    assert_eq!(g.distance(0, 2), 250000);
    assert_eq!(g.distance(2, 0), 250000);
    assert_eq!(g.distance(1, 1), 0);
}

#[test]
fn nearby_sorted_within_radius_excluding_self() {
    let g = placed();
    let r = g.get_nearby("o", 250000).unwrap();
    let got: Vec<(String, u64)> = r.iter().map(|p| (p.name.clone(), p.dist_sq)).collect();
    assert_eq!(
        got,
        vec![("close".to_string(), 10000), ("near".to_string(), 250000), ("tie".to_string(), 250000)]
    );
    assert!(g.get_nearby("o", 9999).unwrap().is_empty());
    assert_eq!(g.get_nearby("o", u64::MAX).unwrap().len(), 4);
    assert!(g.get_nearby("missing", 10).is_none());
}

#[test]
fn update_node_keeps_first_location() {
    let mut g = Graph::new();
    assert_eq!(g.update_node_at("a", Coordinate { x: 1, y: 2 }), 0);
    assert_eq!(g.update_node_at("a", Coordinate { x: 3, y: 4 }), 0);
    assert_eq!(g.nodes[0].loc, Coordinate { x: 1, y: 2 });
    assert_eq!(g.update_node("a"), 0);
    assert_eq!(g.update_node("b"), 1);
    assert!(g.nodes[1].loc.x < 10000 && g.nodes[1].loc.y < 10000);
    assert_eq!(g.adj.len(), 2);
}

#[test]
fn info_reports_position_location_degree() {
    let mut g = Graph::new();
    g.update_node_at("a", Coordinate { x: 5, y: 6 });
    g.load_from_records(&vec![]);
    assert!(g.get_info("a").is_none());
    let g = chain();
    let i = g.get_info("B").unwrap();
    assert_eq!(i.name, "B");
    assert_eq!(i.index, 1);
    assert_eq!(i.connections, 1);
    assert_eq!(i.loc, g.nodes[1].loc);
}

#[test]
fn graph_data_keeps_forward_entries() {
    let mut g = Graph::new();
    g.load_from_records(&vec![rec("a", "b", 1), rec("b", "a", 2), rec("b", "c", 3), rec("c", "a", 4)]);
    let d = g.graph_data();
    assert_eq!(d.nodes.len(), 3);
    assert_eq!(d.nodes[2].name, "c");
    let e: Vec<(String, String, i64)> =
        d.edges.iter().map(|e| (e.source.clone(), e.target.clone(), e.weight)).collect();
    assert_eq!(e, vec![("a".to_string(), "b".to_string(), 1), ("b".to_string(), "c".to_string(), 3)]);
}

#[test]
fn split_record_fields() {
    let r = split_record("  A , B ,5.5 ").unwrap();
    assert_eq!(r, ("A".to_string(), "B".to_string(), "5.5".to_string()));
    assert!(split_record("").is_none());
    assert!(split_record("   ").is_none());
    assert!(split_record("A,B").is_none());
    assert!(split_record("A,B,1,2").is_none());
    assert_eq!(split_record(",,").unwrap(), (String::new(), String::new(), String::new()));
}
