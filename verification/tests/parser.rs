//! Parser scenarios.
use mlmd_core::nodes::{ASTNode, ParamValue};
use mlmd_core::parser::{parse, ParseResult};
use mlmd_core::tokenizer::tokenize;


fn parse_source(src: &str) -> ParseResult {
    let tokens = tokenize(src);
    parse(&tokens)
}

// ---- block declarations -----------------------------------------------

#[test]
fn test_bare_block_no_params() {
    let result = parse_source("ReLU");
    assert_eq!(result.errors.len(), 0);
    assert_eq!(result.nodes.len(), 1);
    match &result.nodes[0] {
        ASTNode::Block(b) => {
            assert_eq!(b.block_type, "ReLU");
            assert_eq!(b.params.len(), 0);
        }
        _ => panic!("expected Block node"),
    }
}

#[test]
fn test_block_with_number_params() {
    let result = parse_source("Conv2d(kernel=5, filters=6)");
    assert_eq!(result.errors.len(), 0);
    match &result.nodes[0] {
        ASTNode::Block(b) => {
            assert_eq!(b.block_type, "Conv2d");
            assert_eq!(b.params.len(), 2);
            assert_eq!(b.params[0].name, "kernel");
            match &b.params[0].value {
                ParamValue::Number(v) => assert_eq!(v.text.parse::<f64>().unwrap(), 5.0),
                _ => panic!("expected number"),
            }
            assert_eq!(b.params[1].name, "filters");
            match &b.params[1].value {
                ParamValue::Number(v) => assert_eq!(v.text.parse::<f64>().unwrap(), 6.0),
                _ => panic!("expected number"),
            }
        }
        _ => panic!("expected Block node"),
    }
}

#[test]
fn test_block_with_float_param() {
    let result = parse_source("Dropout(rate=0.5)");
    assert_eq!(result.errors.len(), 0);
    match &result.nodes[0] {
        ASTNode::Block(b) => {
            assert_eq!(b.params[0].name, "rate");
            match &b.params[0].value {
                ParamValue::Number(v) => assert_eq!(v.text.parse::<f64>().unwrap(), 0.5),
                _ => panic!("expected number"),
            }
        }
        _ => panic!("expected Block node"),
    }
}

#[test]
fn test_block_with_negative_number_param() {
    let result = parse_source("Foo(x=-3)");
    assert_eq!(result.errors.len(), 0);
    match &result.nodes[0] {
        ASTNode::Block(b) => {
            assert_eq!(b.params[0].name, "x");
            match &b.params[0].value {
                ParamValue::Number(v) => assert_eq!(v.text.parse::<f64>().unwrap(), -3.0),
                _ => panic!("expected number"),
            }
        }
        _ => panic!("expected Block node"),
    }
}

#[test]
fn test_block_with_string_param() {
    let result = parse_source(r#"Layer(name="encoder")"#);
    assert_eq!(result.errors.len(), 0);
    match &result.nodes[0] {
        ASTNode::Block(b) => {
            assert_eq!(b.params[0].name, "name");
            match &b.params[0].value {
                ParamValue::String(v) => assert_eq!(v.value, "encoder"),
                _ => panic!("expected string"),
            }
        }
        _ => panic!("expected Block node"),
    }
}

#[test]
fn test_block_with_bool_params() {
    let result = parse_source("BN(affine=true, track=false)");
    assert_eq!(result.errors.len(), 0);
    match &result.nodes[0] {
        ASTNode::Block(b) => {
            assert_eq!(b.params[0].name, "affine");
            match &b.params[0].value {
                ParamValue::Bool(v) => assert_eq!(v.value, true),
                _ => panic!("expected bool"),
            }
            assert_eq!(b.params[1].name, "track");
            match &b.params[1].value {
                ParamValue::Bool(v) => assert_eq!(v.value, false),
                _ => panic!("expected bool"),
            }
        }
        _ => panic!("expected Block node"),
    }
}

#[test]
fn test_block_with_bareword_param() {
    let result = parse_source("Conv2d(padding=same)");
    assert_eq!(result.errors.len(), 0);
    match &result.nodes[0] {
        ASTNode::Block(b) => {
            assert_eq!(b.params[0].name, "padding");
            match &b.params[0].value {
                ParamValue::Bareword(v) => assert_eq!(v.value, "same"),
                _ => panic!("expected bareword"),
            }
        }
        _ => panic!("expected Block node"),
    }
}

#[test]
fn test_block_with_shape_param() {
    let result = parse_source("Input(shape=(1,28,28))");
    assert_eq!(result.errors.len(), 0);
    match &result.nodes[0] {
        ASTNode::Block(b) => {
            assert_eq!(b.block_type, "Input");
            assert_eq!(b.params[0].name, "shape");
            match &b.params[0].value {
                ParamValue::Shape(v) => {
                    assert_eq!(v.dims, vec![1, 28, 28]);
                }
                _ => panic!("expected shape"),
            }
        }
        _ => panic!("expected Block node"),
    }
}

#[test]
fn test_block_with_list_param() {
    let result = parse_source("MultiScale(filters=[64,128,256])");
    assert_eq!(result.errors.len(), 0);
    match &result.nodes[0] {
        ASTNode::Block(b) => {
            assert_eq!(b.params[0].name, "filters");
            match &b.params[0].value {
                ParamValue::List(l) => {
                    assert_eq!(l.items.len(), 3);
                    match &l.items[0] {
                        ParamValue::Number(v) => assert_eq!(v.text.parse::<f64>().unwrap(), 64.0),
                        _ => panic!("expected number"),
                    }
                    match &l.items[1] {
                        ParamValue::Number(v) => assert_eq!(v.text.parse::<f64>().unwrap(), 128.0),
                        _ => panic!("expected number"),
                    }
                    match &l.items[2] {
                        ParamValue::Number(v) => assert_eq!(v.text.parse::<f64>().unwrap(), 256.0),
                        _ => panic!("expected number"),
                    }
                }
                _ => panic!("expected list"),
            }
        }
        _ => panic!("expected Block node"),
    }
}

#[test]
fn test_multiple_blocks_on_separate_lines() {
    let result = parse_source("Conv2d(filters=32)\nReLU\nMaxPool(size=2)");
    assert_eq!(result.errors.len(), 0);
    assert_eq!(result.nodes.len(), 3);
    match &result.nodes[0] {
        ASTNode::Block(b) => assert_eq!(b.block_type, "Conv2d"),
        _ => panic!("expected Block"),
    }
    match &result.nodes[1] {
        ASTNode::Block(b) => assert_eq!(b.block_type, "ReLU"),
        _ => panic!("expected Block"),
    }
    match &result.nodes[2] {
        ASTNode::Block(b) => assert_eq!(b.block_type, "MaxPool"),
        _ => panic!("expected Block"),
    }
}

#[test]
fn test_comments() {
    let result = parse_source("# a comment\nReLU");
    assert_eq!(result.errors.len(), 0);
    assert_eq!(result.nodes.len(), 2);
    match &result.nodes[0] {
        ASTNode::Comment(c) => {
            assert_eq!(c.text, "a comment");
        }
        _ => panic!("expected Comment"),
    }
    match &result.nodes[1] {
        ASTNode::Block(_) => {}
        _ => panic!("expected Block"),
    }
}

#[test]
fn test_skips_faulty_lines_and_continues() {
    let result = parse_source("Conv2d(filters=32)\n=bad\nReLU");
    assert!(result.errors.len() > 0);
    let blocks: Vec<&str> = result
        .nodes
        .iter()
        .filter_map(|n| match n {
            ASTNode::Block(b) => Some(b.block_type.as_str()),
            _ => None,
        })
        .collect();
    assert!(blocks.contains(&"Conv2d"));
    assert!(blocks.contains(&"ReLU"));
}

#[test]
fn test_recovers_after_missing_closing_paren() {
    let result = parse_source("Bad(x=1\nReLU");
    assert!(result.errors.len() > 0);
    let blocks: Vec<&str> = result
        .nodes
        .iter()
        .filter_map(|n| match n {
            ASTNode::Block(b) => Some(b.block_type.as_str()),
            _ => None,
        })
        .collect();
    assert!(blocks.contains(&"ReLU"));
}

#[test]
fn test_records_correct_loc_for_block() {
    let result = parse_source("ReLU");
    match &result.nodes[0] {
        ASTNode::Block(b) => {
            assert_eq!(b.loc.line, 1);
            assert_eq!(b.loc.col, 1);
        }
        _ => panic!("expected Block"),
    }
}

// ---- arrow chains -----------------------------------------------------

#[test]
fn test_simple_oneliner_chain() {
    let result = parse_source("Input -> ReLU -> Output");
    assert_eq!(result.errors.len(), 0);
    assert_eq!(result.nodes.len(), 3);
    match &result.nodes[0] {
        ASTNode::Block(b) => assert_eq!(b.block_type, "Input"),
        _ => panic!("expected Block"),
    }
    match &result.nodes[1] {
        ASTNode::Block(b) => assert_eq!(b.block_type, "ReLU"),
        _ => panic!("expected Block"),
    }
    match &result.nodes[2] {
        ASTNode::Block(b) => assert_eq!(b.block_type, "Output"),
        _ => panic!("expected Block"),
    }
}

#[test]
fn test_block_to_single_tensor_name() {
    let result = parse_source("Conv2d(kernel=3) -> [skip]");
    assert_eq!(result.errors.len(), 0);
    assert_eq!(result.nodes.len(), 2);
    match &result.nodes[0] {
        ASTNode::Block(b) => assert_eq!(b.block_type, "Conv2d"),
        _ => panic!("expected Block"),
    }
    match &result.nodes[1] {
        ASTNode::TensorName(tn) => {
            assert_eq!(tn.names, vec!["skip"]);
        }
        _ => panic!("expected TensorName"),
    }
}

#[test]
fn test_block_to_fork() {
    let result = parse_source("ReLU -> [skip, main]");
    assert_eq!(result.errors.len(), 0);
    assert_eq!(result.nodes.len(), 2);
    match &result.nodes[1] {
        ASTNode::TensorName(tn) => {
            assert_eq!(tn.names, vec!["skip", "main"]);
        }
        _ => panic!("expected TensorName"),
    }
}

#[test]
fn test_join_a_b_to_block() {
    let result = parse_source("[skip, main] -> Add");
    assert_eq!(result.errors.len(), 0);
    assert_eq!(result.nodes.len(), 1);
    match &result.nodes[0] {
        ASTNode::TensorJoin(tj) => {
            assert_eq!(tj.sources, vec!["skip", "main"]);
            assert_eq!(tj.target.block_type, "Add");
        }
        _ => panic!("expected TensorJoin"),
    }
}

#[test]
fn test_long_chain_with_tensor_name() {
    let result = parse_source("Input -> Conv2d(kernel=1) -> ReLU -> [skip]");
    assert_eq!(result.errors.len(), 0);
    assert_eq!(result.nodes.len(), 4);
    match &result.nodes[0] {
        ASTNode::Block(b) => assert_eq!(b.block_type, "Input"),
        _ => panic!("expected Block"),
    }
    match &result.nodes[1] {
        ASTNode::Block(b) => assert_eq!(b.block_type, "Conv2d"),
        _ => panic!("expected Block"),
    }
    match &result.nodes[2] {
        ASTNode::Block(b) => assert_eq!(b.block_type, "ReLU"),
        _ => panic!("expected Block"),
    }
    match &result.nodes[3] {
        ASTNode::TensorName(tn) => assert_eq!(tn.names, vec!["skip"]),
        _ => panic!("expected TensorName"),
    }
}

#[test]
fn test_standalone_block_no_chain() {
    let result = parse_source("Conv2d(kernel=3, stride=1)");
    assert_eq!(result.errors.len(), 0);
    assert_eq!(result.nodes.len(), 1);
    match &result.nodes[0] {
        ASTNode::Block(b) => assert_eq!(b.block_type, "Conv2d"),
        _ => panic!("expected Block"),
    }
}

// ---- groups -----------------------------------------------------------

#[test]
fn test_single_level_group_no_body() {
    let result = parse_source("[[ Encoder ]]");
    assert_eq!(result.errors.len(), 0);
    assert_eq!(result.nodes.len(), 1);
    match &result.nodes[0] {
        ASTNode::Group(g) => {
            assert_eq!(g.path, vec!["Encoder"]);
            assert_eq!(g.body.len(), 0);
        }
        _ => panic!("expected Group"),
    }
}

#[test]
fn test_nested_group_path() {
    let result = parse_source("[[ Encoder > Block1 ]]");
    assert_eq!(result.errors.len(), 0);
    assert_eq!(result.nodes.len(), 1);
    match &result.nodes[0] {
        ASTNode::Group(g) => {
            assert_eq!(g.path, vec!["Encoder", "Block1"]);
        }
        _ => panic!("expected Group"),
    }
}

#[test]
fn test_three_level_group_path() {
    let result = parse_source("[[ A > B > C ]]");
    assert_eq!(result.errors.len(), 0);
    assert_eq!(result.nodes.len(), 1);
    match &result.nodes[0] {
        ASTNode::Group(g) => {
            assert_eq!(g.path, vec!["A", "B", "C"]);
        }
        _ => panic!("expected Group"),
    }
}

#[test]
fn test_group_body_contains_block_nodes() {
    let result = parse_source("[[ Encoder ]]\nConv2d (kernel_size=3)\nReLU\n");
    assert_eq!(result.errors.len(), 0);
    assert_eq!(result.nodes.len(), 1);
    match &result.nodes[0] {
        ASTNode::Group(g) => {
            assert_eq!(g.body.len(), 2);
            match &g.body[0] {
                ASTNode::Block(b) => assert_eq!(b.block_type, "Conv2d"),
                _ => panic!("expected Block in group body"),
            }
            match &g.body[1] {
                ASTNode::Block(b) => assert_eq!(b.block_type, "ReLU"),
                _ => panic!("expected Block in group body"),
            }
        }
        _ => panic!("expected Group"),
    }
}

#[test]
fn test_group_body_ends_at_next_group() {
    let src = "[[ GroupA ]]\nConv2d (kernel_size=3)\n[[ GroupB ]]\nReLU\n";
    let result = parse_source(src);
    assert_eq!(result.errors.len(), 0);
    assert_eq!(result.nodes.len(), 2);
    match &result.nodes[0] {
        ASTNode::Group(a) => {
            assert_eq!(a.path, vec!["GroupA"]);
            assert_eq!(a.body.len(), 1);
        }
        _ => panic!("expected Group"),
    }
    match &result.nodes[1] {
        ASTNode::Group(b) => {
            assert_eq!(b.path, vec!["GroupB"]);
            assert_eq!(b.body.len(), 1);
        }
        _ => panic!("expected Group"),
    }
}

#[test]
fn test_comment_line() {
    let result = parse_source("# this is a comment");
    assert_eq!(result.errors.len(), 0);
    assert_eq!(result.nodes.len(), 1);
    match &result.nodes[0] {
        ASTNode::Comment(c) => {
            assert_eq!(c.text, "this is a comment");
        }
        _ => panic!("expected Comment"),
    }
}

#[test]
fn test_preserves_comments_in_group_body() {
    let src = "[[ Section ]]\n# a comment\nReLU\n";
    let result = parse_source(src);
    assert_eq!(result.errors.len(), 0);
    match &result.nodes[0] {
        ASTNode::Group(g) => {
            assert_eq!(g.body.len(), 2);
            match &g.body[0] {
                ASTNode::Comment(c) => assert_eq!(c.text, "a comment"),
                _ => panic!("expected Comment in group body"),
            }
            match &g.body[1] {
                ASTNode::Block(_) => {}
                _ => panic!("expected Block in group body"),
            }
        }
        _ => panic!("expected Group"),
    }
}

// ---- multi-line chains ------------------------------------------------

#[test]
fn test_lenet_style_multi_line_chain() {
    let src = "Input (shape=(1,28,28))\n    -> Conv2d (kernel_size=5, filters=6)\n    -> Tanh ()";
    let result = parse_source(src);
    assert_eq!(result.errors.len(), 0);
    assert_eq!(result.nodes.len(), 3);
    match &result.nodes[0] {
        ASTNode::Block(b) => assert_eq!(b.block_type, "Input"),
        _ => panic!("expected Block"),
    }
    match &result.nodes[1] {
        ASTNode::Block(b) => assert_eq!(b.block_type, "Conv2d"),
        _ => panic!("expected Block"),
    }
    match &result.nodes[2] {
        ASTNode::Block(b) => assert_eq!(b.block_type, "Tanh"),
        _ => panic!("expected Block"),
    }
}

#[test]
fn test_multi_line_chain_ending_in_fork() {
    let src = "Input (shape=(256,56,56))\n    -> [main, skip]";
    let result = parse_source(src);
    assert_eq!(result.errors.len(), 0);
    assert_eq!(result.nodes.len(), 2);
    match &result.nodes[1] {
        ASTNode::TensorName(tn) => {
            assert_eq!(tn.names, vec!["main", "skip"]);
        }
        _ => panic!("expected TensorName"),
    }
}

// ---- Lenet-5 example --------------------------------------------------

#[test]
fn test_lenet5_without_error() {
    let src = "Input (shape=(1,28,28))
-> Conv2d (kernel_size=5, filters=6)    -> Tanh ()
-> AvgPool (kernel_size=2, stride=2)
-> Conv2d (kernel_size=5, filters=16)   -> Tanh ()
-> AvgPool (kernel_size=2, stride=2)
-> Flatten () -> Linear (out_features=120) -> Tanh ()
-> Linear (out_features=84) -> Tanh ()
-> Linear (out_features=10) -> Softmax ()";
    let result = parse_source(src);
    assert_eq!(result.errors.len(), 0);
}

// ---- ResNet bottleneck example ----------------------------------------

#[test]
fn test_resnet_bottleneck_without_error() {
    let src = "[[ ResNet50 > Bottleneck ]]

Input (shape=(256, 56, 56)) -> [main, skip]

main -> Conv2d (kernel_size=1, filters=64)  -> BatchNorm () -> ReLU ()
-> Conv2d (kernel_size=3, filters=64, padding=same) -> BatchNorm () -> ReLU ()
-> Conv2d (kernel_size=1, filters=256)  -> BatchNorm () -> [main_out]

skip -> Conv2d (kernel_size=1, filters=256) -> BatchNorm () -> [skip_out]

[main_out, skip_out] -> Add () -> ReLU ()";
    let result = parse_source(src);
    assert_eq!(result.errors.len(), 0);
}

// ---- Attention head example -------------------------------------------

#[test]
fn test_attention_head_without_error() {
    let src = "Input (shape=(512, 64)) -> [query]
Input (shape=(512, 64)) -> [key]
Input (shape=(512, 64)) -> [value]

query -> Linear (out_features=64, bias=false) -> [q_proj]
key   -> Linear (out_features=64, bias=false) -> [k_proj]
value -> Linear (out_features=64, bias=false) -> [v_proj]

[q_proj, k_proj] -> MatMul () -> Mul (scalar=0.125) -> Softmax (dim=-1) -> [attn]

[attn, v_proj] -> MatMul () -> Linear (out_features=64)";
    let result = parse_source(src);
    assert_eq!(result.errors.len(), 0);
}

// ---- ResNet bottleneck pattern (fork + join) --------------------------

#[test]
fn test_resnet_bottleneck_pattern() {
    let src = "Input -> Conv2d(kernel=1) -> ReLU -> [skip]
Input -> Conv2d(kernel=3) -> ReLU -> [main]
[skip, main] -> Add -> Output";
    let result = parse_source(src);
    assert_eq!(result.errors.len(), 0);
    assert_eq!(result.nodes.len(), 10);

    // Line 1: Input, Conv2d, ReLU, TensorName[skip]
    match &result.nodes[0] {
        ASTNode::Block(b) => assert_eq!(b.block_type, "Input"),
        _ => panic!("expected Block"),
    }
    match &result.nodes[1] {
        ASTNode::Block(b) => assert_eq!(b.block_type, "Conv2d"),
        _ => panic!("expected Block"),
    }
    match &result.nodes[2] {
        ASTNode::Block(b) => assert_eq!(b.block_type, "ReLU"),
        _ => panic!("expected Block"),
    }
    match &result.nodes[3] {
        ASTNode::TensorName(tn) => assert_eq!(tn.names, vec!["skip"]),
        _ => panic!("expected TensorName"),
    }

    // Line 2: Input, Conv2d, ReLU, TensorName[main]
    match &result.nodes[4] {
        ASTNode::Block(b) => assert_eq!(b.block_type, "Input"),
        _ => panic!("expected Block"),
    }
    match &result.nodes[5] {
        ASTNode::Block(b) => assert_eq!(b.block_type, "Conv2d"),
        _ => panic!("expected Block"),
    }
    match &result.nodes[6] {
        ASTNode::Block(b) => assert_eq!(b.block_type, "ReLU"),
        _ => panic!("expected Block"),
    }
    match &result.nodes[7] {
        ASTNode::TensorName(tn) => assert_eq!(tn.names, vec!["main"]),
        _ => panic!("expected TensorName"),
    }

    // Line 3: TensorJoin([skip,main] -> Add), Output
    match &result.nodes[8] {
        ASTNode::TensorJoin(tj) => {
            assert_eq!(tj.sources, vec!["skip", "main"]);
            assert_eq!(tj.target.block_type, "Add");
        }
        _ => panic!("expected TensorJoin"),
    }
    match &result.nodes[9] {
        ASTNode::Block(b) => assert_eq!(b.block_type, "Output"),
        _ => panic!("expected Block"),
    }
}

// ---- empty input ------------------------------------------------------

#[test]
fn parser_test_empty_input() {
    let result = parse_source("");
    assert_eq!(result.errors.len(), 0);
    assert_eq!(result.nodes.len(), 0);
}

// ---- error cases ------------------------------------------------------

#[test]
fn test_unexpected_token_at_start_of_line() {
    let result = parse_source("=bad");
    assert_eq!(result.errors.len(), 1);
}

#[test]
fn test_malformed_param_missing_equals() {
    let result = parse_source("Block(x 5)");
    // x is parsed as param name, then 5 without = is an error
    // actually, x would be consumed as param name, no = follows, so parse_param errors
    assert!(result.errors.len() > 0);
}

#[test]
fn test_shape_with_non_number() {
    let result = parse_source("Block(s=(x,))");
    assert!(result.errors.len() > 0);
}

#[test]
fn test_list_unclosed_bracket() {
    let result = parse_source("MultiScale(filters=[64)");
    assert!(result.errors.len() > 0);
}

// ---- multi-line param lists -------------------------------------------

#[test]
fn test_multi_line_params() {
    let src = "Block(\n  x=1,\n  y=2)";
    let result = parse_source(src);
    assert_eq!(result.errors.len(), 0);
    match &result.nodes[0] {
        ASTNode::Block(b) => {
            assert_eq!(b.params.len(), 2);
            assert_eq!(b.params[0].name, "x");
            assert_eq!(b.params[1].name, "y");
        }
        _ => panic!("expected Block"),
    }
}

