//! Scenarios for the Candle code generator.
#![allow(unused_imports)]
use mlmd_core::candle::CandleCodegen;
use mlmd_core::codegen::{CodegenRegistry, CodegenTarget, TargetRegistry};
use mlmd_core::graph::{Block, Edge, Graph, Group};
use mlmd_core::nodes::SourceLoc;
use mlmd_core::strmap::StrMap;


fn dummy_loc() -> SourceLoc {
    SourceLoc {
        line: 0,
        col: 0,
        offset: 0,
    }
}

fn make_linear_graph() -> Graph {
    Graph {
        blocks: vec![
            Block {
                id: "inp".to_string(),
                block_type: "Input".to_string(),
                params: StrMap::new(),
                input_shapes: vec![],
                output_shapes: vec![vec![1, 28, 28]],
                param_count: None,
                show_depth: None,
                loc: dummy_loc(),
            },
            Block {
                id: "out".to_string(),
                block_type: "Output".to_string(),
                params: StrMap::new(),
                input_shapes: vec![vec![10]],
                output_shapes: vec![],
                param_count: None,
                show_depth: None,
                loc: dummy_loc(),
            },
        ],
        edges: vec![Edge {
            from: "inp".to_string(),
            to: "out".to_string(),
            tensor_name: None,
            shape: None,
        }],
        groups: vec![],
    }
}

#[test]
fn candle_test_name_and_extension() {
    let target = CandleCodegen;
    assert_eq!(target.name(), "candle");
    assert_eq!(target.file_extension(), "_candle.rs");
}

#[test]
fn candle_test_generate_simple_graph() {
    let graph = make_linear_graph();
    let target = CandleCodegen;
    let files = target.generate(&graph, &CodegenRegistry::new());
    assert_eq!(files.len(), 1, "should generate one file");

    let file = &files[0];
    assert!(file.path.ends_with("_candle.rs"));
    assert!(file
        .content
        .starts_with("// This file was generated by mlmd. Do not edit."));
    assert!(file.content.contains("pub struct Model {"));
    assert!(file.content.contains("impl Model {"));
    assert!(file.content.contains("pub fn new(weights: VarBuilder)"));
    assert!(file.content.contains("pub fn with_scopes("));
    assert!(file.content.contains("pub fn forward(&self,"));
}

#[test]
fn test_generate_with_group_name() {
    let mut graph = make_linear_graph();
    graph.groups = vec![Group {
        path: vec!["MyModel".to_string()],
        block_ids: vec![],
    }];
    let target = CandleCodegen;
    let files = target.generate(&graph, &CodegenRegistry::new());
    assert!(files[0].content.contains("pub struct MyModel {"));
}

#[test]
fn test_generate_no_test_when_no_output_shape() {
    let graph = Graph {
        blocks: vec![Block {
            id: "inp".to_string(),
            block_type: "Input".to_string(),
            params: StrMap::new(),
            input_shapes: vec![],
            output_shapes: vec![vec![1, 28, 28]],
            param_count: None,
            show_depth: None,
            loc: dummy_loc(),
        }],
        edges: vec![],
        groups: vec![],
    };
    let target = CandleCodegen;
    let files = target.generate(&graph, &CodegenRegistry::new());
    // Should generate model without test module
    assert_eq!(files.len(), 1);
    assert!(!files[0].content.contains("#[cfg(test)]"));
}

#[test]
fn candle_test_register_and_get() {
    let mut targets = TargetRegistry::new();
    CandleCodegen::register(&mut targets);
    let target = targets.get_target("candle");
    assert!(target.is_some());
    assert_eq!(target.unwrap().name(), "candle");
}

#[test]
fn test_generate_test_module_content() {
    let graph = make_linear_graph();
    let target = CandleCodegen;
    let files = target.generate(&graph, &CodegenRegistry::new());
    let content = &files[0].content;
    // With output shape [10], test module should be generated
    assert!(content.contains("#[cfg(test)]"));
    assert!(content.contains("fn test_forward()"));
    assert!(content.contains("fn test_save_load()"));
    assert!(content.contains("Tensor::randn"));
    assert!(content.contains("assert_eq!(output.dims(), &[1, 10])"));
}


fn relu_chain(tensor_name: Option<String>) -> Graph {
    let mut g = make_linear_graph();
    g.blocks.insert(
        1,
        Block {
            id: "act".to_string(),
            block_type: "ReLU".to_string(),
            params: StrMap::new(),
            input_shapes: vec![],
            output_shapes: vec![],
            param_count: None,
            show_depth: None,
            loc: dummy_loc(),
        },
    );
    g.edges = vec![
        Edge {
            from: "inp".to_string(),
            to: "act".to_string(),
            tensor_name: None,
            shape: None,
        },
        Edge {
            from: "act".to_string(),
            to: "out".to_string(),
            tensor_name,
            shape: None,
        },
    ];
    g
}

#[test]
fn candle_forward_passes_unregistered_layer_through() {
    let files = CandleCodegen.generate(&relu_chain(None), &CodegenRegistry::new());
    assert_eq!(files.len(), 1);
    let c = &files[0].content;
    assert!(c.contains("    pub fn forward(&self,\n        x: &Tensor\n    ) -> Result<Tensor> {\n        let x /* ReLU — custom block, passthrough in generated code */\n        Ok(x)\n    }"));
    assert!(!c.contains("Err("));
}

#[test]
fn candle_forward_returns_the_named_tensor() {
    let files = CandleCodegen.generate(&relu_chain(Some("h".to_string())), &CodegenRegistry::new());
    let c = &files[0].content;
    assert!(c.contains("        let x /* ReLU — custom block, passthrough in generated code */\n        Ok(h)\n    }"));
}
