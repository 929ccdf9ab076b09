//! Scenarios for the individual lint rules.
#![allow(unused_imports)]
use std::collections::HashMap;

use mlmd_core::block::{BlockDef, BlockRegistry, ParamSpec, ParamType};
use mlmd_core::graph::{copy_params, Block, Edge, Graph, Shape};
use mlmd_core::lint::{
    check_cycles, check_duplicate_tensor_names, check_missing_params, check_missing_plugins, check_shapes,
    check_undefined_tensor_refs, check_unused_tensors, LintDiagnostic, Severity,
};
use mlmd_core::nodes::{BarewordVal, ListVal, NumberVal, ParamValue, ShapeVal, SourceLoc};
use mlmd_core::strmap::StrMap;

fn smap(entries: Vec<(String, ParamValue)>) -> StrMap<ParamValue> {
    let mut m = StrMap::new();
    for (k, v) in entries {
        m.insert(k, v);
    }
    m
}


// ------------------------------------------------------------------
// Helpers
// ------------------------------------------------------------------

fn dummy_loc() -> SourceLoc {
    SourceLoc {
        line: 0,
        col: 0,
        offset: 0,
    }
}

fn make_block(id: &str, block_type: &str) -> Block {
    Block {
        id: id.to_string(),
        block_type: block_type.to_string(),
        params: StrMap::new(),
        input_shapes: Vec::new(),
        output_shapes: Vec::new(),
        param_count: None,
        show_depth: None,
        loc: dummy_loc(),
    }
}

fn make_block_with_params(
    id: &str,
    block_type: &str,
    params: StrMap<ParamValue>,
) -> Block {
    Block {
        id: id.to_string(),
        block_type: block_type.to_string(),
        params,
        input_shapes: Vec::new(),
        output_shapes: Vec::new(),
        param_count: None,
        show_depth: None,
        loc: dummy_loc(),
    }
}

fn make_edge(from: &str, to: &str) -> Edge {
    Edge {
        from: from.to_string(),
        to: to.to_string(),
        tensor_name: None,
        shape: None,
    }
}

fn make_edge_with_name(from: &str, to: &str, name: &str) -> Edge {
    Edge {
        from: from.to_string(),
        to: to.to_string(),
        tensor_name: Some(name.to_string()),
        shape: None,
    }
}

fn p_num(value: f64) -> ParamValue {
    ParamValue::Number(Box::new(NumberVal {
        kind: "number".to_string(),
        text: format!("{}", value),
        loc: dummy_loc(),
    }))
}

fn p_shape(dims: Vec<usize>) -> ParamValue {
    ParamValue::Shape(Box::new(ShapeVal {
        kind: "shape".to_string(),
        dims,
        loc: dummy_loc(),
    }))
}

fn p_bareword(s: &str) -> ParamValue {
    ParamValue::Bareword(Box::new(BarewordVal {
        kind: "bareword".to_string(),
        value: s.to_string(),
        loc: dummy_loc(),
    }))
}

fn p_list(items: Vec<ParamValue>) -> ParamValue {
    ParamValue::List(Box::new(ListVal {
        kind: "list".to_string(),
        items,
        loc: dummy_loc(),
    }))
}

// ------------------------------------------------------------------
// Mock BlockDef implementations
// ------------------------------------------------------------------

struct MockInput;
impl BlockDef for MockInput {
    fn name(&self) -> &str {
        "Input"
    }
    fn params(&self) -> &[ParamSpec] {
        &[]
    }
    fn infer_shape(
        &self,
        _inputs: &[Shape],
        params: &StrMap<ParamValue>,
    ) -> Result<Vec<Shape>, String> {
        let dims = params
            .get("dims")
            .and_then(|v| {
                if let ParamValue::Shape(s) = v {
                    Some(s.dims.clone())
                } else {
                    None
                }
            })
            .unwrap_or_default();
        Ok(vec![dims])
    }
}

struct MockReLU;
impl BlockDef for MockReLU {
    fn name(&self) -> &str {
        "ReLU"
    }
    fn params(&self) -> &[ParamSpec] {
        &[]
    }
    fn infer_shape(
        &self,
        inputs: &[Shape],
        _params: &StrMap<ParamValue>,
    ) -> Result<Vec<Shape>, String> {
        Ok(inputs.to_vec())
    }
}

struct MockAdd;
impl BlockDef for MockAdd {
    fn name(&self) -> &str {
        "Add"
    }
    fn params(&self) -> &[ParamSpec] {
        &[]
    }
    fn infer_shape(
        &self,
        inputs: &[Shape],
        _params: &StrMap<ParamValue>,
    ) -> Result<Vec<Shape>, String> {
        if inputs.is_empty() {
            return Err("Add requires inputs".to_string());
        }
        Ok(vec![inputs[0].clone()])
    }
}

struct MockConv2d;
impl BlockDef for MockConv2d {
    fn name(&self) -> &str {
        "Conv2d"
    }
    fn params(&self) -> &[ParamSpec] {
        let specs: Vec<ParamSpec> = {
            vec![
                ParamSpec {
                    name: "kernel".into(),
                    param_type: ParamType::Number,
                    required: true,
                    default: None,
                },
                ParamSpec {
                    name: "out_channels".into(),
                    param_type: ParamType::Number,
                    required: true,
                    default: None,
                },
            ]
        };
        Box::leak(Box::new(specs))
    }
    fn infer_shape(
        &self,
        _inputs: &[Shape],
        params: &StrMap<ParamValue>,
    ) -> Result<Vec<Shape>, String> {
        let _kernel = params
            .get("kernel")
            .and_then(|v| {
                if let ParamValue::Number(n) = v {
                    Some(n.text.parse::<f64>().unwrap() as usize)
                } else {
                    None
                }
            })
            .ok_or_else(|| "Conv2d missing kernel".to_string())?;
        let _out_ch = params
            .get("out_channels")
            .and_then(|v| {
                if let ParamValue::Number(n) = v {
                    Some(n.text.parse::<f64>().unwrap() as usize)
                } else {
                    None
                }
            })
            .ok_or_else(|| "Conv2d missing out_channels".to_string())?;
        Ok(vec![vec![]])
    }
}

fn make_registry() -> BlockRegistry {
    let mut reg = BlockRegistry::new();
    reg.register(Box::new(MockInput));
    reg.register(Box::new(MockReLU));
    reg.register(Box::new(MockAdd));
    reg.register(Box::new(MockConv2d));
    reg
}

// ==============================================================
// Rule: check_cycles
// ==============================================================

#[test]
fn test_check_cycles_no_cycle() {
    let graph = Graph {
        blocks: vec![make_block("a", "ReLU"), make_block("b", "ReLU")],
        edges: vec![make_edge("a", "b")],
        groups: vec![],
    };
    assert!(check_cycles(&graph).is_empty());
}

#[test]
fn test_check_cycles_simple() {
    let graph = Graph {
        blocks: vec![make_block("a", "ReLU"), make_block("b", "ReLU")],
        edges: vec![make_edge("a", "b"), make_edge("b", "a")],
        groups: vec![],
    };
    let diags = check_cycles(&graph);
    assert_eq!(diags.len(), 2);
    for d in &diags {
        assert_eq!(d.rule, "cycle");
        assert_eq!(d.severity, Severity::Error);
    }
}

#[test]
fn test_check_cycles_three() {
    // a -> b -> c -> a
    let graph = Graph {
        blocks: vec![
            make_block("a", "ReLU"),
            make_block("b", "ReLU"),
            make_block("c", "ReLU"),
        ],
        edges: vec![
            make_edge("a", "b"),
            make_edge("b", "c"),
            make_edge("c", "a"),
        ],
        groups: vec![],
    };
    let diags = check_cycles(&graph);
    assert_eq!(diags.len(), 3);
}

// ==============================================================
// Rule: check_missing_plugins
// ==============================================================

#[test]
fn test_check_missing_plugins_unknown() {
    let registry = make_registry();
    let graph = Graph {
        blocks: vec![make_block("b0", "NonExistentBlock")],
        edges: vec![],
        groups: vec![],
    };
    let diags = check_missing_plugins(&graph, &registry);
    assert_eq!(diags.len(), 1);
    assert_eq!(diags[0].rule, "missing-plugin");
    assert!(diags[0].message.contains("NonExistentBlock"));
}

#[test]
fn test_check_missing_plugins_known() {
    let registry = make_registry();
    let graph = Graph {
        blocks: vec![make_block("b0", "ReLU")],
        edges: vec![],
        groups: vec![],
    };
    let diags = check_missing_plugins(&graph, &registry);
    assert_eq!(diags.len(), 0);
}

// ==============================================================
// Rule: check_missing_params
// ==============================================================

#[test]
fn test_check_missing_params_missing() {
    let registry = make_registry();
    // Conv2d without kernel
    let graph = Graph {
        blocks: vec![make_block("b0", "Conv2d")],
        edges: vec![],
        groups: vec![],
    };
    let diags = check_missing_params(&graph, &registry);
    assert!(!diags.is_empty());
    assert!(diags.iter().any(|d| d.message.contains("kernel")));
}

#[test]
fn test_check_missing_params_present() {
    let registry = make_registry();
    let mut params = StrMap::new();
    params.insert("kernel".to_string(), p_num(3.0));
    params.insert("out_channels".to_string(), p_num(64.0));
    let graph = Graph {
        blocks: vec![make_block_with_params("b0", "Conv2d", params)],
        edges: vec![],
        groups: vec![],
    };
    let diags = check_missing_params(&graph, &registry);
    assert_eq!(diags.len(), 0);
}

#[test]
fn test_check_missing_params_unknown_block_skipped() {
    let registry = make_registry();
    // Unknown block type should be skipped (no BlockDef to check params against)
    let graph = Graph {
        blocks: vec![make_block("b0", "NonExistent")],
        edges: vec![],
        groups: vec![],
    };
    let diags = check_missing_params(&graph, &registry);
    assert_eq!(diags.len(), 0);
}

// ==============================================================
// Rule: check_shapes
// ==============================================================

#[test]
fn test_check_shapes_add_mismatch() {
    let registry = make_registry();
    let mut pa = StrMap::new();
    pa.insert("dims".to_string(), p_shape(vec![3, 32, 32]));
    let mut pb = StrMap::new();
    pb.insert("dims".to_string(), p_shape(vec![3, 64, 64]));
    let graph = Graph {
        blocks: vec![
            make_block_with_params("b0", "Input", pa),
            make_block_with_params("b1", "Input", pb),
            make_block("b2", "Add"),
        ],
        edges: vec![make_edge("b0", "b2"), make_edge("b1", "b2")],
        groups: vec![],
    };
    let diags = check_shapes(&graph, &registry);
    let shape_diags: Vec<_> = diags
        .iter()
        .filter(|d| d.rule == "shape-mismatch")
        .collect();
    assert!(!shape_diags.is_empty(), "expected shape mismatch diags");
}

#[test]
fn test_check_shapes_add_compatible() {
    let registry = make_registry();
    let mut p = StrMap::new();
    p.insert("dims".to_string(), p_shape(vec![3, 32, 32]));
    let graph = Graph {
        blocks: vec![
            make_block_with_params("b0", "Input", copy_params(&p)),
            make_block_with_params("b1", "Input", p),
            make_block("b2", "Add"),
        ],
        edges: vec![make_edge("b0", "b2"), make_edge("b1", "b2")],
        groups: vec![],
    };
    let diags = check_shapes(&graph, &registry);
    let shape_diags: Vec<_> = diags
        .iter()
        .filter(|d| d.rule == "shape-mismatch")
        .collect();
    assert_eq!(shape_diags.len(), 0);
}

// ==============================================================
// Rule: check_duplicate_tensor_names
// ==============================================================

#[test]
fn test_duplicate_tensor_names_different_sources() {
    let graph = Graph {
        blocks: vec![
            make_block("b0", "ReLU"),
            make_block("b1", "ReLU"),
            make_block("b2", "Add"),
        ],
        edges: vec![
            make_edge_with_name("b0", "b2", "feat"),
            make_edge_with_name("b1", "b2", "feat"),
        ],
        groups: vec![],
    };
    let diags = check_duplicate_tensor_names(&graph);
    assert_eq!(diags.len(), 1);
    assert!(diags[0].message.contains("feat"));
}

#[test]
fn test_duplicate_tensor_names_same_source() {
    let graph = Graph {
        blocks: vec![
            make_block("b0", "ReLU"),
            make_block("b1", "ReLU"),
            make_block("b2", "Add"),
        ],
        edges: vec![
            make_edge_with_name("b0", "b1", "feat"),
            make_edge_with_name("b0", "b2", "feat"),
        ],
        groups: vec![],
    };
    let diags = check_duplicate_tensor_names(&graph);
    assert_eq!(diags.len(), 0);
}

#[test]
fn test_duplicate_tensor_names_no_edges() {
    let graph = Graph {
        blocks: vec![],
        edges: vec![],
        groups: vec![],
    };
    let diags = check_duplicate_tensor_names(&graph);
    assert_eq!(diags.len(), 0);
}

// ==============================================================
// Rule: check_undefined_tensor_refs
// ==============================================================

#[test]
fn test_undefined_tensor_refs_undefined() {
    // Block with list param containing bareword referencing undefined tensor
    let mut params = StrMap::new();
    params.insert(
        "sources".to_string(),
        p_list(vec![p_bareword("undefined_name")]),
    );
    let graph = Graph {
        blocks: vec![make_block_with_params("b0", "Add", params)],
        edges: vec![],
        groups: vec![],
    };
    let diags = check_undefined_tensor_refs(&graph);
    assert!(!diags.is_empty());
    assert!(diags[0].message.contains("undefined_name"));
}

#[test]
fn test_undefined_tensor_refs_defined() {
    let mut params = StrMap::new();
    params.insert("sources".to_string(), p_list(vec![p_bareword("my_tensor")]));
    let graph = Graph {
        blocks: vec![make_block_with_params("b0", "Add", params)],
        edges: vec![make_edge_with_name("b0", "b0", "my_tensor")],
        groups: vec![],
    };
    let diags = check_undefined_tensor_refs(&graph);
    assert_eq!(diags.len(), 0);
}

#[test]
fn test_undefined_tensor_refs_no_list_params() {
    let graph = Graph {
        blocks: vec![make_block("b0", "ReLU")],
        edges: vec![],
        groups: vec![],
    };
    let diags = check_undefined_tensor_refs(&graph);
    assert_eq!(diags.len(), 0);
}

// ==============================================================
// Rule: check_unused_tensors
// ==============================================================

#[test]
fn test_unused_tensors_no_downstream() {
    let graph = Graph {
        blocks: vec![make_block("b0", "Input")],
        edges: vec![make_edge_with_name("b0", "nonexistent", "orphan")],
        groups: vec![],
    };
    let diags = check_unused_tensors(&graph);
    assert!(!diags.is_empty());
    assert_eq!(diags[0].severity, Severity::Warning);
    assert!(diags[0].message.contains("orphan"));
}

#[test]
fn test_unused_tensors_has_downstream() {
    let graph = Graph {
        blocks: vec![make_block("b0", "Input"), make_block("b1", "ReLU")],
        edges: vec![make_edge_with_name("b0", "b1", "active")],
        groups: vec![],
    };
    let diags = check_unused_tensors(&graph);
    assert_eq!(diags.len(), 0);
}

#[test]
fn test_unused_tensors_no_tensor_names() {
    let graph = Graph {
        blocks: vec![make_block("b0", "Input"), make_block("b1", "ReLU")],
        edges: vec![make_edge("b0", "b1")],
        groups: vec![],
    };
    let diags = check_unused_tensors(&graph);
    assert_eq!(diags.len(), 0);
}


#[test]
fn cycle_report_leaves_out_blocks_behind_the_cycle() {
    // a <-> b, and c only downstream of the cycle; d -> d is a self-loop
    let graph = Graph {
        blocks: vec![
            make_block("a", "ReLU"),
            make_block("b", "ReLU"),
            make_block("c", "ReLU"),
            make_block("d", "ReLU"),
        ],
        edges: vec![make_edge("a", "b"), make_edge("b", "a"), make_edge("b", "c"), make_edge("d", "d")],
        groups: vec![],
    };
    let diags = check_cycles(&graph);
    let msgs: Vec<&str> = diags.iter().map(|d| d.message.as_str()).collect();
    assert_eq!(
        msgs,
        vec![
            "Block \"ReLU\" (a) is part of a cycle",
            "Block \"ReLU\" (b) is part of a cycle",
            "Block \"ReLU\" (d) is part of a cycle",
        ]
    );
}
