//! Topological ordering scenarios.
use mlmd_core::graph::{Block, Edge, Graph};
use mlmd_core::graph_utils::{topo_sort, topo_sort_ids};
use mlmd_core::nodes::SourceLoc;
use mlmd_core::strmap::StrMap;


fn dummy_loc() -> SourceLoc {
    SourceLoc {
        line: 0,
        col: 0,
        offset: 0,
    }
}

fn make_block(id: &str) -> Block {
    Block {
        id: id.to_string(),
        block_type: "Dummy".to_string(),
        params: StrMap::new(),
        input_shapes: vec![],
        output_shapes: vec![],
        param_count: None,
        show_depth: None,
        loc: dummy_loc(),
    }
}

#[test]
fn test_topo_sort_simple() {
    let b0 = make_block("b0");
    let b1 = make_block("b1");
    let b2 = make_block("b2");

    // b0 -> b1 -> b2
    let graph = Graph {
        blocks: vec![b0, b1.copy_block(), b2.copy_block()],
        edges: vec![
            Edge {
                from: "b0".to_string(),
                to: "b1".to_string(),
                tensor_name: None,
                shape: None,
            },
            Edge {
                from: "b1".to_string(),
                to: "b2".to_string(),
                tensor_name: None,
                shape: None,
            },
        ],
        groups: vec![],
    };

    let sorted = topo_sort(&graph);
    let ids: Vec<&str> = sorted.iter().map(|b| b.id.as_str()).collect();
    assert_eq!(ids, vec!["b0", "b1", "b2"]);
}

#[test]
fn test_topo_sort_ids_acyclic() {
    let blocks = vec![make_block("b0"), make_block("b1"), make_block("b2")];
    let edges = vec![
        Edge {
            from: "b0".to_string(),
            to: "b1".to_string(),
            tensor_name: None,
            shape: None,
        },
        Edge {
            from: "b0".to_string(),
            to: "b2".to_string(),
            tensor_name: None,
            shape: None,
        },
    ];

    let result = topo_sort_ids(&blocks, &edges);
    assert!(result.is_some());
    let ids = result.unwrap();
    assert_eq!(ids[0], "b0");
}

#[test]
fn test_topo_sort_ids_cycle() {
    let blocks = vec![make_block("b0"), make_block("b1")];
    let edges = vec![
        Edge {
            from: "b0".to_string(),
            to: "b1".to_string(),
            tensor_name: None,
            shape: None,
        },
        Edge {
            from: "b1".to_string(),
            to: "b0".to_string(),
            tensor_name: None,
            shape: None,
        },
    ];

    let result = topo_sort_ids(&blocks, &edges);
    assert!(result.is_none());
}


fn edge_between(from: &str, to: &str) -> Edge {
    Edge { from: from.to_string(), to: to.to_string(), tensor_name: None, shape: None }
}

#[test]
fn dfs_order_puts_sources_first_when_blocks_are_listed_backwards() {
    // Blocks listed last-to-first; a diamond a -> {b, c} -> d.
    let graph = Graph {
        blocks: vec![make_block("d"), make_block("c"), make_block("b"), make_block("a")],
        edges: vec![edge_between("c", "d"), edge_between("b", "d"), edge_between("a", "c"), edge_between("a", "b")],
        groups: vec![],
    };
    let sorted = topo_sort(&graph);
    let ids: Vec<&str> = sorted.iter().map(|b| b.id.as_str()).collect();
    assert_eq!(ids.len(), 4);
    for e in &graph.edges {
        let p = ids.iter().position(|x| *x == e.from).unwrap();
        let q = ids.iter().position(|x| *x == e.to).unwrap();
        assert!(p < q);
    }
}

#[test]
fn topo_sort_ids_refuses_repeated_ids() {
    let blocks = vec![make_block("b0"), make_block("b0")];
    assert!(topo_sort_ids(&blocks, &[]).is_none());
}

#[test]
fn topo_sort_ids_puts_sources_first_in_a_chain() {
    let blocks = vec![make_block("c"), make_block("b"), make_block("a")];
    let edges = vec![edge_between("a", "b"), edge_between("b", "c")];
    let order = topo_sort_ids(&blocks, &edges).unwrap();
    assert_eq!(order, vec!["a".to_string(), "b".to_string(), "c".to_string()]);
}
