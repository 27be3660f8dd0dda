use gph::arrange::{arrange, collect_nodes, ensure_node, graph_edges, node_entry, node_index};
use gph::ast::{Arrow, Shape};
use gph::crossings::minimize_crossings;
use gph::layout::{assign_layers, insert_dummies, remove_cycles, NodeEntry, RawEdge};
use gph::pipeline::lex_and_parse;
use gph::svg::{arrow_style, escape_xml};

fn edge(from: usize, to: usize) -> RawEdge {
    RawEdge { from, to, label: None, arrow: Arrow::Normal, reversed: false }
}

fn declared(label: &str) -> NodeEntry {
    NodeEntry { label: label.to_string(), shape: Shape::Box, dummy: false }
}

fn pairs(edges: &[RawEdge]) -> Vec<(usize, usize, bool)> {
    edges.iter().map(|e| (e.from, e.to, e.reversed)).collect()
}

#[test]
fn remove_cycles_turns_the_back_edge_of_a_two_cycle() {
    let mut edges = vec![edge(0, 1), edge(1, 0)];
    remove_cycles(&mut edges, 2);
    assert_eq!(pairs(&edges), vec![(0, 1, false), (0, 1, true)]);
}

#[test]
fn remove_cycles_leaves_an_acyclic_graph_alone() {
    let mut edges = vec![edge(0, 1), edge(1, 2), edge(0, 2)];
    remove_cycles(&mut edges, 3);
    assert_eq!(pairs(&edges), vec![(0, 1, false), (1, 2, false), (0, 2, false)]);
}

#[test]
fn remove_cycles_breaks_a_three_cycle_once() {
    let mut edges = vec![edge(0, 1), edge(1, 2), edge(2, 0)];
    remove_cycles(&mut edges, 3);
    assert_eq!(pairs(&edges), vec![(0, 1, false), (1, 2, false), (0, 2, true)]);
}

#[test]
fn remove_cycles_keeps_the_label_of_a_turned_edge() {
    let mut edges = vec![edge(0, 1), RawEdge { from: 1, to: 0, label: Some("back".to_string()), arrow: Arrow::Thick, reversed: false }];
    remove_cycles(&mut edges, 2);
    assert_eq!(edges[1].label.as_deref(), Some("back"));
    assert_eq!(edges[1].arrow, Arrow::Thick);
    assert!(edges[1].reversed);
}

#[test]
fn assign_layers_uses_the_longest_path() {
    // 0 -> 1 -> 2 and a shortcut 0 -> 2: node 2 sits two layers down.
    let edges = vec![edge(0, 1), edge(1, 2), edge(0, 2)];
    assert_eq!(assign_layers(3, &edges), vec![0, 1, 2]);
}

#[test]
fn assign_layers_puts_every_source_on_the_top_layer() {
    let edges = vec![edge(0, 2), edge(1, 2), edge(2, 3)];
    assert_eq!(assign_layers(5, &edges), vec![0, 0, 1, 2, 0]);
}

#[test]
fn insert_dummies_splits_a_long_edge_by_layer() {
    let orig = vec![edge(0, 1), edge(1, 2), edge(0, 2)];
    let mut entries = vec![declared("a"), declared("b"), declared("c")];
    let mut unit = vec![edge(0, 1), edge(1, 2), edge(0, 2)];
    let mut layers = vec![0, 1, 2];
    let chains = insert_dummies(&mut entries, &mut unit, &mut layers, &orig);
    assert_eq!(chains, vec![vec![0, 1], vec![1, 2], vec![0, 3, 2]]);
    assert_eq!(layers, vec![0, 1, 2, 1]);
    assert_eq!(entries.len(), 4);
    assert!(entries[3].dummy);
    assert_eq!(entries[3].label, "");
    assert_eq!(entries[3].shape, Shape::Box);
    assert_eq!(pairs(&unit), vec![(0, 1, false), (1, 2, false), (3, 2, false), (0, 3, false)]);
}

#[test]
fn insert_dummies_numbers_dummies_in_edge_order() {
    let orig = vec![edge(0, 1), edge(2, 1)];
    let mut entries = vec![declared("a"), declared("b"), declared("c")];
    let mut unit = vec![edge(0, 1), edge(2, 1)];
    let mut layers = vec![0, 3, 1];
    let chains = insert_dummies(&mut entries, &mut unit, &mut layers, &orig);
    assert_eq!(chains, vec![vec![0, 3, 4, 1], vec![2, 5, 1]]);
    assert_eq!(layers, vec![0, 3, 1, 1, 2, 2]);
    assert_eq!(pairs(&unit), vec![(4, 1, false), (5, 1, false), (0, 3, false), (3, 4, false), (2, 5, false)]);
}

#[test]
fn minimize_crossings_uncrosses_two_edges() {
    let mut layers = vec![vec![0, 1], vec![2, 3]];
    let edges = vec![edge(0, 3), edge(1, 2)];
    minimize_crossings(&mut layers, &edges, 4);
    assert_eq!(layers, vec![vec![0, 1], vec![3, 2]]);
}

#[test]
fn minimize_crossings_breaks_ties_by_node_index() {
    // Both nodes of the second layer hang below node 0: equal barycentres.
    let mut layers = vec![vec![0], vec![2, 1]];
    let edges = vec![edge(0, 2), edge(0, 1)];
    minimize_crossings(&mut layers, &edges, 1);
    assert_eq!(layers, vec![vec![0], vec![1, 2]]);
}

#[test]
fn minimize_crossings_orders_by_mean_position() {
    // Node 3 hangs below node 2, node 4 below node 1 and node 5 below nodes 0
    // and 2: barycentres 2, 1 and 1, the tie going to the lower index.
    let mut layers = vec![vec![0, 1, 2], vec![3, 4, 5]];
    let edges = vec![edge(2, 3), edge(1, 4), edge(0, 5), edge(2, 5)];
    minimize_crossings(&mut layers, &edges, 1);
    assert_eq!(layers, vec![vec![0, 1, 2], vec![4, 5, 3]]);
}

#[test]
fn minimize_crossings_with_no_nodes_changes_nothing() {
    let mut layers: Vec<Vec<usize>> = vec![vec![], vec![]];
    minimize_crossings(&mut layers, &vec![], 4);
    assert_eq!(layers, vec![Vec::<usize>::new(), Vec::new()]);
}

#[test]
fn nodes_are_collected_in_order_of_first_mention() {
    let g = lex_and_parse("(graph lr (b \"B\") (-> a b c) (-> c a))").unwrap();
    assert_eq!(collect_nodes(&g), vec!["b".to_string(), "a".to_string(), "c".to_string()]);
}

#[test]
fn ensure_node_adds_an_id_once() {
    let mut ids: Vec<String> = Vec::new();
    ensure_node("x", &mut ids);
    ensure_node("y", &mut ids);
    ensure_node("x", &mut ids);
    assert_eq!(ids, vec!["x".to_string(), "y".to_string()]);
    assert_eq!(node_index(&ids, "y"), 1);
}

#[test]
fn node_entry_takes_the_last_label_and_shape() {
    let g = lex_and_parse("(graph lr (a \"One\" round) (a \"Two\") (b))").unwrap();
    let a = node_entry(&g.stmts, &"a".to_string());
    assert_eq!(a.label, "Two");
    assert_eq!(a.shape, Shape::Box);
    assert!(!a.dummy);
    let c = node_entry(&g.stmts, &"c".to_string());
    assert_eq!(c.label, "c");
    assert_eq!(c.shape, Shape::Box);
}

#[test]
fn graph_edges_has_one_edge_per_hop_labelled_last() {
    let g = lex_and_parse("(graph lr (-> a b c \"go\"))").unwrap();
    let ids = collect_nodes(&g);
    let edges = graph_edges(&g, &ids);
    assert_eq!(pairs(&edges), vec![(0, 1, false), (1, 2, false)]);
    assert_eq!(edges[0].label, None);
    assert_eq!(edges[1].label.as_deref(), Some("go"));
}

#[test]
fn arrange_lays_a_chain_with_a_shortcut() {
    let g = lex_and_parse("(graph lr (-> a b c) (-> a c))").unwrap();
    let a = arrange(&g);
    assert_eq!(a.entries.len(), 4);
    assert_eq!(a.layers, vec![0, 1, 2, 1]);
    assert_eq!(a.chains, vec![vec![0, 1], vec![1, 2], vec![0, 3, 2]]);
    assert_eq!(a.layer_nodes, vec![vec![0], vec![1, 3], vec![2]]);
    assert!(a.edges.iter().all(|e| !e.reversed));
}

#[test]
fn arrange_breaks_a_cycle() {
    let g = lex_and_parse("(graph td (-> a b a))").unwrap();
    let a = arrange(&g);
    assert_eq!(pairs(&a.edges), vec![(0, 1, false), (0, 1, true)]);
    assert_eq!(a.layers, vec![0, 1]);
    assert_eq!(a.layer_nodes, vec![vec![0], vec![1]]);
}

#[test]
fn arrange_of_an_empty_graph_is_empty() {
    let g = lex_and_parse("(graph lr)").unwrap();
    let a = arrange(&g);
    assert!(a.entries.is_empty());
    assert!(a.layer_nodes.is_empty());
}

#[test]
fn escape_xml_writes_entities() {
    assert_eq!(escape_xml("a<b & \"c\">"), "a&lt;b &amp; &quot;c&quot;&gt;");
    assert_eq!(escape_xml("&lt;"), "&amp;lt;");
}

#[test]
fn arrow_styles_match_their_markers() {
    assert_eq!(arrow_style(Arrow::Normal), ("black", "", "1.5", "arr-normal"));
    assert_eq!(arrow_style(Arrow::Dotted), ("#555", "6 4", "1.5", "arr-dotted"));
    assert_eq!(arrow_style(Arrow::Thick), ("#333", "", "3", "arr-thick"));
    assert_eq!(arrow_style(Arrow::Cross).3, "arr-cross");
}

#[test]
fn every_chain_descends_one_layer_per_step() {
    let g = lex_and_parse("(graph lr (-> a b c d) (-> a d) (-> b d) (-> a c))").unwrap();
    let a = arrange(&g);
    assert_eq!(a.chains.len(), 6);
    for chain in &a.chains {
        for w in chain.windows(2) {
            assert_eq!(a.layers[w[1]], a.layers[w[0]] + 1);
        }
    }
}

#[test]
fn ordering_only_permutes_each_layer() {
    let mut layers = vec![vec![0, 1, 2], vec![3, 4, 5], vec![6, 7]];
    let before = layers.clone();
    let edges = vec![edge(0, 5), edge(1, 3), edge(2, 4), edge(3, 7), edge(5, 6), edge(4, 6)];
    minimize_crossings(&mut layers, &edges, 4);
    assert_eq!(layers.len(), before.len());
    for (after, was) in layers.iter().zip(before.iter()) {
        let mut a = after.clone();
        let mut b = was.clone();
        a.sort();
        b.sort();
        assert_eq!(a, b);
    }
    assert_eq!(layers, vec![vec![2, 0, 1], vec![4, 5, 3], vec![6, 7]]);
}

#[test]
fn every_entry_is_drawn_once_in_its_own_layer() {
    let g = lex_and_parse("(graph lr (-> a b c d e) (-> a e) (-> b e) (-> e a))").unwrap();
    let a = arrange(&g);
    assert_eq!(a.layers.len(), a.entries.len());
    for (i, &l) in a.layers.iter().enumerate() {
        assert!(l < a.layer_nodes.len());
        for (k, layer) in a.layer_nodes.iter().enumerate() {
            let count = layer.iter().filter(|&&x| x == i).count();
            assert_eq!(count, if k == l { 1 } else { 0 });
        }
    }
}

#[test]
fn remove_cycles_turns_each_edge_into_the_search_path() {
    // From 0 the search walks 0 -> 1 -> 2; both edges out of 2 point back into the path.
    let mut edges = vec![edge(0, 1), edge(1, 2), edge(2, 1), edge(2, 0)];
    remove_cycles(&mut edges, 3);
    assert_eq!(pairs(&edges), vec![(0, 1, false), (1, 2, false), (1, 2, true), (0, 2, true)]);
}
