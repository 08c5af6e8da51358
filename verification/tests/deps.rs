use qtcloud_code_cli::detect::depgraph::{
    build_dep_graph, file_to_module_path, forward_dep_slice, reverse_dep_chain, reverse_dep_slice,
};

fn files() -> Vec<(String, String)> {
    vec![
        ("/p/src/main.rs".to_string(), "mod config;\nmod detector;\nfn main() {}".to_string()),
        ("/p/src/config.rs".to_string(), "use crate::detector::Finding;".to_string()),
        ("/p/src/detector/mod.rs".to_string(), "pub mod long_function;\npub use crate::config::X;".to_string()),
    ]
}

#[test]
fn graph_edges_and_closed_nodes() {
    let g = build_dep_graph("/p", &files());
    for (a, b) in &g.edges {
        assert!(g.nodes.contains(a));
        assert!(g.nodes.contains(b));
    }
    let mut sorted = g.nodes.clone();
    sorted.sort();
    sorted.dedup();
    assert_eq!(g.nodes, sorted);
    assert!(g.edges.contains(&("config".to_string(), "detector".to_string())));
}

#[test]
fn slices_are_dual() {
    let g = build_dep_graph("/p", &files());
    for a in &g.nodes {
        for b in forward_dep_slice(&g, a) {
            assert!(reverse_dep_slice(&g, a).contains(&b));
        }
    }
    assert_eq!(forward_dep_slice(&g, "detector"), vec!["", "config"]);
    let chains = reverse_dep_chain(&g, "detector");
    assert!(!chains.is_empty());
}

#[test]
fn module_paths() {
    assert_eq!(file_to_module_path("/p/src/main.rs", "/p"), "");
    assert_eq!(file_to_module_path("/p/src/detector/mod.rs", "/p"), "detector");
    assert_eq!(file_to_module_path("/p/src/a/b.rs", "/p"), "a::b");
}

#[test]
fn forward_slice_lists_direct_dependents() {
    let g = qtcloud_code_cli::detect::depgraph::DepGraph {
        nodes: vec!["a".to_string(), "b".to_string()],
        edges: vec![("a".to_string(), "b".to_string())],
    };
    assert_eq!(forward_dep_slice(&g, "a"), Vec::<String>::new());
    assert_eq!(forward_dep_slice(&g, "b"), vec!["a"]);
}

#[test]
fn reverse_chains_are_complete() {
    let e = |a: &str, b: &str| (a.to_string(), b.to_string());
    let g = qtcloud_code_cli::detect::depgraph::DepGraph {
        nodes: vec![],
        edges: vec![e("a", "t"), e("b", "a"), e("c", "b"), e("t", "c")],
    };
    let chains = reverse_dep_chain(&g, "t");
    let want: Vec<Vec<String>> = vec![
        vec!["a", "t"],
        vec!["b", "a", "t"],
        vec!["c", "b", "a", "t"],
        vec!["t", "c", "b", "a", "t"],
    ]
    .into_iter()
    .map(|c| c.into_iter().map(|x| x.to_string()).collect())
    .collect();
    assert_eq!(chains, want);
}

#[test]
fn every_reverse_chain_follows_reverse_slices() {
    let e = |a: &str, b: &str| (a.to_string(), b.to_string());
    let g = qtcloud_code_cli::detect::depgraph::DepGraph {
        nodes: vec![],
        edges: vec![e("a", "t"), e("b", "t"), e("c", "a"), e("c", "b"), e("d", "c")],
    };
    let chains = reverse_dep_chain(&g, "t");
    assert_eq!(chains.len(), 6);
    for c in &chains {
        assert!(c.len() >= 2);
        assert_eq!(c.last().map(|s| s.as_str()), Some("t"));
        for k in 0..c.len() - 1 {
            assert!(reverse_dep_slice(&g, &c[k + 1]).contains(&c[k]));
        }
    }
}

#[test]
fn reverse_chains_close_cycles() {
    let e = |a: &str, b: &str| (a.to_string(), b.to_string());
    let g = qtcloud_code_cli::detect::depgraph::DepGraph { nodes: vec![], edges: vec![e("a", "t"), e("t", "a")] };
    let chains = reverse_dep_chain(&g, "t");
    assert_eq!(chains, vec![vec!["a".to_string(), "t".to_string()], vec!["t".to_string(), "a".to_string(), "t".to_string()]]);
    let g2 = qtcloud_code_cli::detect::depgraph::DepGraph { nodes: vec![], edges: vec![e("t", "t::sub")] };
    assert_eq!(reverse_dep_chain(&g2, "t"), vec![vec!["t".to_string(), "t".to_string()]]);
}
