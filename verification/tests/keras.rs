//! Scenarios for the Keras code generator.
#![allow(unused_imports)]
use mlmd_core::keras::{register_all_codegen_targets, KerasCodegen};
use mlmd_core::codegen::{CodegenRegistry, CodegenTarget, TargetRegistry};
use mlmd_core::graph::{Block, Edge, Graph, Group};
use mlmd_core::nodes::SourceLoc;
use mlmd_core::strmap::StrMap;

fn dummy_loc() -> SourceLoc {
    SourceLoc {
        line: 0,
        col: 0,
        offset: 0,
    }
}

fn make_linear_graph() -> Graph {
    Graph {
        blocks: vec![
            Block {
                id: "inp".to_string(),
                block_type: "Input".to_string(),
                params: StrMap::new(),
                input_shapes: vec![],
                output_shapes: vec![vec![1, 28, 28]],
                param_count: None,
                show_depth: None,
                loc: dummy_loc(),
            },
            Block {
                id: "out".to_string(),
                block_type: "Output".to_string(),
                params: StrMap::new(),
                input_shapes: vec![vec![10]],
                output_shapes: vec![],
                param_count: None,
                show_depth: None,
                loc: dummy_loc(),
            },
        ],
        edges: vec![Edge {
            from: "inp".to_string(),
            to: "out".to_string(),
            tensor_name: None,
            shape: None,
        }],
        groups: vec![],
    }
}

#[test]
fn keras_test_name_and_extension() {
    let target = KerasCodegen;
    assert_eq!(target.name(), "keras");
    assert_eq!(target.file_extension(), "keras.py");
}

#[test]
fn keras_test_generate_simple_graph() {
    let graph = make_linear_graph();
    let target = KerasCodegen;
    let files = target.generate(&graph, &CodegenRegistry::new());
    assert_eq!(files.len(), 2, "should generate model and test files");

    // Model file
    let model_file = &files[0];
    assert!(model_file.path.ends_with(".keras.py"));
    assert!(model_file.content.contains("def build_model():"));
    assert!(model_file.content.contains("keras.Input"));
    assert!(model_file.content.contains("keras.Model("));

    // Test file
    let test_file = &files[1];
    assert!(test_file.path.ends_with(".keras.test.py"));
    assert!(test_file.content.contains("def test_build_model()"));
    assert!(test_file.content.contains("tf.random.normal"));
}

#[test]
fn test_generate_no_test_when_no_shapes() {
    let graph = Graph {
        blocks: vec![
            Block {
                id: "inp".to_string(),
                block_type: "Input".to_string(),
                params: StrMap::new(),
                input_shapes: vec![],
                output_shapes: vec![],
                param_count: None,
                show_depth: None,
                loc: dummy_loc(),
            },
        ],
        edges: vec![],
        groups: vec![],
    };
    let target = KerasCodegen;
    let files = target.generate(&graph, &CodegenRegistry::new());
    assert!(!files.is_empty());
}

#[test]
fn keras_test_register_and_get() {
    let mut targets = TargetRegistry::new();
    KerasCodegen::register(&mut targets);
    let target = targets.get_target("keras");
    assert!(target.is_some());
    assert_eq!(target.unwrap().name(), "keras");
}


#[test]
fn registering_targets_twice_keeps_one_of_each() {
    let mut targets = TargetRegistry::new();
    register_all_codegen_targets(&mut targets);
    register_all_codegen_targets(&mut targets);
    KerasCodegen::register(&mut targets);
    assert_eq!(targets.targets.len(), 2);
    assert_eq!(targets.get_target("keras").unwrap().name(), "keras");
    assert_eq!(targets.get_target("candle").unwrap().name(), "candle");
}
