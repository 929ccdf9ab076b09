//! Errors, plugin bookkeeping, contexts and node counting.
use mlmd_core::codegen::{replace_str, to_snake_case};
use mlmd_core::context::{CodegenContext, RenderContext};
use mlmd_core::edit::{apply_changes, apply_incremental_change, utf16_char_index_exec, TextChange};
use mlmd_core::graph::{Block, Edge};
use mlmd_core::strmap::StrMap;
use mlmd_core::navigate::{Position, Range};
use mlmd_core::style::{assign_layers, is_long_range, block_category, block_colors, layer_rows, layout_order, param_summary, shape_label, short_param_key};
use mlmd_core::error::MlmdError;
use mlmd_core::graph::Graph;
use mlmd_core::graph_builder::{build_graph, count_nodes};
use mlmd_core::block::BlockRegistry;
use mlmd_core::shape::infer_shapes;
use mlmd_core::parser::parse;
use mlmd_core::plugin::{all_dynamic_plugins, is_wasm_path, register_plugin_from_path, PluginFormat, PluginSources};
use mlmd_core::tokenizer::tokenize;
use mlmd_core::lint::{format_report_line, LintDiagnostic, Severity};
use mlmd_core::nodes::SourceLoc;

#[test]
fn error_messages() {
    assert_eq!(MlmdError::ParseError("x".to_string()).message(), "parse error: x");
    assert_eq!(MlmdError::ShapeError("s".to_string()).message(), "shape error: s");
    assert_eq!(MlmdError::UnknownBlockType("Foo".to_string()).message(), "unknown block type: Foo");
    assert_eq!(MlmdError::CycleDetected.message(), "cycle detected in graph");
    assert_eq!(MlmdError::ConfigError("c".to_string()).message(), "config error: c");
    assert_eq!(MlmdError::PluginError("p".to_string()).message(), "plugin error: p");
}

#[test]
fn wasm_paths() {
    assert!(is_wasm_path("plugins/scale.wasm"));
    assert!(is_wasm_path(".wasm"));
    assert!(!is_wasm_path("libscale.so"));
    assert!(!is_wasm_path("wasm"));
}

#[test]
fn plugin_sources_recorded_on_success_only() {
    let mut sources = PluginSources::new();
    let r = register_plugin_from_path("a.wasm", &mut sources, |f, _p| {
        assert_eq!(f, PluginFormat::Wasm);
        Ok("Scale".to_string())
    });
    assert_eq!(r, Ok("Scale".to_string()));
    let r2 = register_plugin_from_path("b.so", &mut sources, |f, _p| {
        assert_eq!(f, PluginFormat::Native);
        Err("no symbol".to_string())
    });
    assert_eq!(r2, Err("no symbol".to_string()));
    let r3 = register_plugin_from_path("c.so", &mut sources, |_f, _p| Ok("Shift".to_string()));
    assert!(r3.is_ok());
    let all = all_dynamic_plugins(&sources);
    assert_eq!(
        all,
        vec![
            ("Scale".to_string(), "a.wasm (wasm)".to_string()),
            ("Shift".to_string(), "c.so".to_string())
        ]
    );
}

#[test]
fn contexts_keep_their_inputs() {
    let r = RenderContext::new(42, "dark");
    assert_eq!(r.total_params, 42);
    assert_eq!(r.class_name, "dark");
    let c = CodegenContext::new("keras", Graph { blocks: vec![], edges: vec![], groups: vec![] });
    assert_eq!(c.target, "keras");
    assert!(c.block_graph.blocks.is_empty());
}

#[test]
fn node_count_includes_group_bodies() {
    let src = "[[ G ]]\nInput -> Output\n";
    let tokens = tokenize(src);
    let pr = parse(&tokens);
    let n = count_nodes(&pr.nodes).unwrap();
    assert!(n >= pr.nodes.len());
    let empty = count_nodes(&[]).unwrap();
    assert_eq!(empty, 0);
}

fn edge(from: &str, to: &str) -> Edge {
    Edge { from: from.to_string(), to: to.to_string(), tensor_name: None, shape: None }
}

#[test]
fn layers_follow_longest_path() {
    let ids: Vec<String> = vec!["a".into(), "b".into(), "c".into(), "d".into()];
    let edges = vec![edge("a", "b"), edge("b", "c"), edge("a", "c"), edge("c", "d")];
    let layers = assign_layers(&ids, &edges);
    assert_eq!(*layers.get("a").unwrap(), 0);
    assert_eq!(*layers.get("b").unwrap(), 1);
    assert_eq!(*layers.get("c").unwrap(), 2);
    assert_eq!(*layers.get("d").unwrap(), 3);
}

#[test]
fn layers_of_isolated_blocks_are_zero() {
    let ids: Vec<String> = vec!["x".into(), "y".into()];
    let layers = assign_layers(&ids, &[]);
    assert_eq!(*layers.get("x").unwrap(), 0);
    assert_eq!(*layers.get("y").unwrap(), 0);
    assert_eq!(layers.len(), 2);
}

#[test]
fn categories_and_colors() {
    assert_eq!(block_category("Add"), "merge");
    assert_eq!(block_category("ReLU"), "activation");
    assert_eq!(block_category("Conv2d"), "default");
    assert_eq!(block_colors("Concat"), ("#ede9fe".to_string(), "#7c3aed".to_string()));
    assert_eq!(block_colors("Softmax"), ("#dcfce7".to_string(), "#16a34a".to_string()));
    assert_eq!(block_colors("Linear"), ("#dbeafe".to_string(), "#2563eb".to_string()));
}

#[test]
fn shape_labels() {
    assert_eq!(shape_label(&[1, 28, 28]), "(1,28,28)");
    assert_eq!(shape_label(&[]), "()");
}

#[test]
fn utf16_char_indices() {
    assert_eq!(utf16_char_index_exec("a😀z", 0), Some(0));
    assert_eq!(utf16_char_index_exec("a😀z", 2), Some(1));
    assert_eq!(utf16_char_index_exec("a😀z", 3), Some(2));
    assert_eq!(utf16_char_index_exec("a😀z", 4), Some(3));
    assert_eq!(utf16_char_index_exec("a😀z", 5), None);
}

fn range(sl: u32, sc: u32, el: u32, ec: u32) -> Range {
    Range { start: Position { line: sl, character: sc }, end: Position { line: el, character: ec } }
}

#[test]
fn incremental_change_replaces_range() {
    let doc = "Input -> A\nA -> Output\n";
    assert_eq!(
        apply_incremental_change(doc, &range(0, 9, 0, 10), "B").as_deref(),
        Some("Input -> B\nA -> Output")
    );
    assert_eq!(
        apply_incremental_change(doc, &range(0, 6, 1, 5), "").as_deref(),
        Some("Input Output")
    );
    assert_eq!(apply_incremental_change(doc, &range(3, 0, 3, 0), "x"), None);
    assert_eq!(apply_incremental_change(doc, &range(0, 99, 0, 99), "x"), None);
}

#[test]
fn grammar_url_replaced_keeping_indent() {
    let toml = "[grammars.mlmd]\n  repository = \"https://example.com/grammar\"\nname = \"x\"";
    let out = mlmd_core::install::update_grammar_url(toml, "file:///g");
    assert_eq!(out, "[grammars.mlmd]\n  grammar = \"file:///g\"\nname = \"x\"");
}

#[test]
fn grammar_url_appended_when_missing() {
    let out = mlmd_core::install::update_grammar_url("name = \"x\"\n", "file:///g");
    assert_eq!(out, "name = \"x\"\n\n# grammar URL updated by install command\ngrammar = \"file:///g\"");
}

#[test]
fn repeated_block_types_get_distinct_ids() {
    let pr = parse(&tokenize("Conv2d -> Conv2d -> ReLU -> Conv2d"));
    let g = build_graph(&pr.nodes);
    let ids: Vec<&str> = g.blocks.iter().map(|b| b.id.as_str()).collect();
    assert_eq!(ids, vec!["Conv2d_0", "Conv2d_1", "ReLU_0", "Conv2d_2"]);
    for i in 0..ids.len() {
        for j in (i + 1)..ids.len() {
            assert_ne!(ids[i], ids[j]);
        }
    }
}

#[test]
fn inference_keeps_blocks_and_edges() {
    let pr = parse(&tokenize("Input(shape=[1, 3]) -> Linear -> ReLU"));
    let g = build_graph(&pr.nodes);
    let reg = BlockRegistry::new();
    let res = infer_shapes(&g, &reg);
    assert_eq!(res.graph.blocks.len(), g.blocks.len());
    for (a, b) in res.graph.blocks.iter().zip(g.blocks.iter()) {
        assert_eq!(a.id, b.id);
        assert_eq!(a.block_type, b.block_type);
    }
    assert_eq!(res.graph.edges.len(), g.edges.len());
    for (a, b) in res.graph.edges.iter().zip(g.edges.iter()) {
        assert_eq!(a.from, b.from);
        assert_eq!(a.to, b.to);
    }
}

#[test]
fn empty_change_keeps_document() {
    let doc = "Input(shape=[1]) -> ReLU\n[x] -> Output";
    for (line, col) in [(0u32, 0u32), (0, 5), (0, 24), (1, 3), (1, 13)] {
        assert_eq!(apply_incremental_change(doc, &range(line, col, line, col), ""), Some(doc.to_string()));
    }
    assert_eq!(apply_incremental_change(doc, &range(0, 25, 0, 25), ""), None);
    assert_eq!(apply_incremental_change(doc, &range(2, 0, 2, 0), ""), None);
}

#[test]
fn edges_and_groups_name_existing_blocks() {
    let src = "[[ Net ]]\nInput(shape=[4]) -> Linear -> [a]\n[a, missing] -> Add -> Output";
    let pr = parse(&tokenize(src));
    let g = build_graph(&pr.nodes);
    let has = |id: &str| g.blocks.iter().any(|b| b.id == id);
    assert!(!g.edges.is_empty());
    for e in &g.edges {
        assert!(has(&e.from) && has(&e.to));
    }
    for grp in &g.groups {
        for id in &grp.block_ids {
            assert!(has(id));
        }
    }
    assert!(g.edges.iter().all(|e| e.tensor_name.as_deref() != Some("missing")));
}

#[test]
fn parameter_summary_abbreviates_known_names() {
    let keys = vec!["filters".to_string(), "kernel_size".to_string(), "bias".to_string(), "num_heads".to_string()];
    let values = vec!["32".to_string(), "3".to_string(), "true".to_string(), "8".to_string()];
    assert_eq!(param_summary(&keys, &values), "f=32 k=3 bias=true h=8");
    assert_eq!(param_summary(&vec![], &vec![]), "");
    assert_eq!(short_param_key("dropout"), "drop");
    assert_eq!(short_param_key("in_features"), "in");
    assert_eq!(short_param_key("alpha"), "alpha");
}

#[test]
fn report_lines_name_severity_rule_and_place() {
    let d = LintDiagnostic {
        severity: Severity::Error,
        message: "Cycle detected in graph".to_string(),
        loc: SourceLoc { line: 3, col: 12, offset: 40 },
        rule: "cycle".to_string(),
    };
    assert_eq!(format_report_line(&d), "ERROR [cycle] at 3:12: Cycle detected in graph");
    let w = LintDiagnostic {
        severity: Severity::Warning,
        message: "unused".to_string(),
        loc: SourceLoc { line: 0, col: 0, offset: 0 },
        rule: "unused-tensor".to_string(),
    };
    assert_eq!(format_report_line(&w), "WARNING [unused-tensor] at 0:0: unused");
}

#[test]
fn changes_apply_in_order_and_bad_ranges_are_skipped() {
    let changes = vec![
        TextChange { range: Some(range(0, 0, 0, 5)), text: "Output".to_string() },
        TextChange { range: Some(range(7, 0, 7, 1)), text: "x".to_string() },
        TextChange { range: Some(range(0, 6, 0, 6)), text: "!".to_string() },
    ];
    assert_eq!(apply_changes("Input -> ReLU", &changes), "Output! -> ReLU");
    let replace_all = vec![
        TextChange { range: Some(range(0, 0, 0, 1)), text: "Z".to_string() },
        TextChange { range: None, text: "ReLU".to_string() },
    ];
    assert_eq!(apply_changes("abc", &replace_all), "ReLU");
    assert_eq!(apply_changes("abc", &vec![]), "abc");
}

#[test]
fn rows_group_ids_by_layer_from_the_lowest() {
    // a -> b -> d, a -> c: layers a=0, b=1, c=1, d=2
    let pr = parse(&tokenize("A -> [a]\n[a] -> B -> D\n[a] -> C"));
    let g = build_graph(&pr.nodes);
    let order = layout_order(&g.blocks, &g.edges);
    assert_eq!(order.len(), 4);
    for e in &g.edges {
        let p = order.iter().position(|x| *x == e.from).unwrap();
        let q = order.iter().position(|x| *x == e.to).unwrap();
        assert!(p < q);
    }
    let layers = assign_layers(&order, &g.edges);
    let (ls, rows) = layer_rows(&order, &layers);
    assert_eq!(ls, vec![0, 1, 2]);
    assert_eq!(rows[0], vec!["A_0".to_string()]);
    let mut mid = rows[1].clone();
    mid.sort();
    assert_eq!(mid, vec!["B_0".to_string(), "C_0".to_string()]);
    assert_eq!(rows[2], vec!["D_0".to_string()]);
}

#[test]
fn cyclic_graph_is_laid_out_in_block_order() {
    let blocks = vec![plain_block("x"), plain_block("y")];
    let edges = vec![edge("x", "y"), edge("y", "x")];
    assert_eq!(layout_order(&blocks, &edges), vec!["x".to_string(), "y".to_string()]);
}

fn plain_block(id: &str) -> Block {
    Block {
        id: id.to_string(),
        block_type: "Dummy".to_string(),
        params: StrMap::new(),
        input_shapes: vec![],
        output_shapes: vec![],
        param_count: None,
        show_depth: None,
        loc: SourceLoc { line: 0, col: 0, offset: 0 },
    }
}

#[test]
fn snake_case_lowers_the_first_character_only() {
    assert_eq!(to_snake_case("Conv2d_0"), "conv2d_0");
    assert_eq!(to_snake_case("ÉLan"), "éLan");
    assert_eq!(to_snake_case("already"), "already");
    assert_eq!(to_snake_case(""), "");
}

#[test]
fn replace_with_empty_pattern_surrounds_every_character() {
    assert_eq!(replace_str("abc", "", "-"), "-a-b-c-");
    assert_eq!(replace_str("", "", "-"), "-");
    assert_eq!(replace_str("vb.pp(\"c\")x", "vb.pp(\"c\")", "w"), "wx");
}

#[test]
fn long_range_edges_climb_more_than_two_layers() {
    assert!(is_long_range(0, 3));
    assert!(is_long_range(2, 6));
    assert!(!is_long_range(0, 2));
    assert!(!is_long_range(4, 1));
}

#[test]
fn grammar_url_update_twice_is_update_once() {
    for toml in [
        "[grammars.mlmd]\n  repository = \"https://example.com/grammar\"\nname = \"x\"",
        "name = \"x\"\n",
        "",
    ] {
        let once = mlmd_core::install::update_grammar_url(toml, "file:///g");
        let twice = mlmd_core::install::update_grammar_url(&once, "file:///g");
        assert_eq!(once, twice);
    }
}
