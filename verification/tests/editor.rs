//! Editor features: go to declaration, uses, hover, completions and
//! diagnostics.
use mlmd_core::block::{BlockDef, BlockRegistry, ParamSpec, ParamType};
use mlmd_core::completions::{get_completions, named_tensors, CompletionKind};
use mlmd_core::diagnostics::{source_loc_to_position, validate_document};
use mlmd_core::graph::Shape;
use mlmd_core::lint::Severity;
use mlmd_core::navigate::{get_definition, get_hover, get_references, hover_markdown, split_lines, Position};
use mlmd_core::nodes::{ParamValue, SourceLoc};
use mlmd_core::strmap::StrMap;

struct MockConv;

impl BlockDef for MockConv {
    fn name(&self) -> &str {
        "Conv2d"
    }
    fn params(&self) -> &[ParamSpec] {
        let specs: Vec<ParamSpec> = vec![
            ParamSpec { name: "kernel".into(), param_type: ParamType::Number, required: true, default: None },
            ParamSpec { name: "padding".into(), param_type: ParamType::Bareword, required: false, default: None },
        ];
        Box::leak(Box::new(specs))
    }
    fn infer_shape(&self, inputs: &[Shape], _params: &StrMap<ParamValue>) -> Result<Vec<Shape>, String> {
        Ok(inputs.to_vec())
    }
}

fn registry() -> BlockRegistry {
    let mut r = BlockRegistry::new();
    r.register(Box::new(MockConv));
    r
}

#[test]
fn lines_split_like_str_lines() {
    assert_eq!(split_lines("a\r\nb\n\nc\n"), vec!["a", "b", "", "c"]);
    assert_eq!(split_lines(""), Vec::<String>::new());
}

#[test]
fn definition_of_declared_tensor() {
    let doc = "Input -> [x]\nx -> Output\n";
    let loc = get_definition(doc, "file:///m.mlmd", &Position { line: 1, character: 0 }).unwrap();
    assert_eq!(loc.uri, "file:///m.mlmd");
    assert_eq!(loc.range.start, Position { line: 0, character: 10 });
    assert_eq!(loc.range.end, Position { line: 0, character: 11 });
}

#[test]
fn definition_missing_for_undeclared_word() {
    let doc = "Input -> Output\n";
    assert!(get_definition(doc, "u", &Position { line: 0, character: 1 }).is_none());
    assert!(get_definition(doc, "u", &Position { line: 5, character: 0 }).is_none());
}

#[test]
fn definition_column_counts_bytes() {
    let doc = "é -> [x]\nx\n";
    let loc = get_definition(doc, "u", &Position { line: 1, character: 0 }).unwrap();
    assert_eq!(loc.range.start.character, 7);
}

#[test]
fn references_in_all_lists() {
    let doc = "A -> [a, b]\n[a, b] -> Add()\n";
    let refs = get_references(doc, "u", &Position { line: 1, character: 1 });
    let cols: Vec<(u32, u32)> = refs.iter().map(|l| (l.range.start.line, l.range.start.character)).collect();
    assert_eq!(cols, vec![(0, 6), (1, 1)]);
}

#[test]
fn references_empty_off_word() {
    let doc = "A -> [a]\n";
    assert!(get_references(doc, "u", &Position { line: 0, character: 1 }).is_empty());
}

#[test]
fn hover_text_lists_parameters() {
    let r = registry();
    let text = get_hover("Conv2d(kernel=3)", &Position { line: 0, character: 2 }, &r).unwrap();
    assert_eq!(text, "**Conv2d**\n```\nparams:\n  `kernel`: number\n  `padding`: bareword?\n```");
    assert!(get_hover("Other", &Position { line: 0, character: 1 }, &r).is_none());
}

#[test]
fn hover_markdown_without_params() {
    assert_eq!(hover_markdown("X", &[]), "**X**\n```\nparams:\n  _(none)_\n```");
}

#[test]
fn completions_inside_brackets_offer_tensors() {
    let r = registry();
    let items = get_completions("Input -> [x, y]\n[", 1, 1, &r);
    let labels: Vec<&str> = items.iter().map(|i| i.label.as_str()).collect();
    assert_eq!(labels, vec!["x", "y"]);
    assert!(items.iter().all(|i| i.kind == CompletionKind::Variable));
}

#[test]
fn completions_after_arrow_offer_block_types() {
    let r = registry();
    let items = get_completions("Input -> ", 0, 9, &r);
    let labels: Vec<&str> = items.iter().map(|i| i.label.as_str()).collect();
    assert_eq!(labels, vec!["Conv2d"]);
    assert_eq!(items[0].kind, CompletionKind::Class);
}

#[test]
fn completions_inside_parens_offer_parameters() {
    let r = registry();
    let items = get_completions("Conv2d(", 0, 7, &r);
    let labels: Vec<&str> = items.iter().map(|i| i.label.as_str()).collect();
    assert_eq!(labels, vec!["kernel", "padding"]);
    assert_eq!(items[0].insert_text.as_deref(), Some("kernel="));
    assert_eq!(items[0].kind, CompletionKind::Property);
}

#[test]
fn completions_nothing_mid_line() {
    let r = registry();
    assert!(get_completions("Input x", 0, 7, &r).is_empty());
}

#[test]
fn named_tensors_trim_and_skip_empty() {
    assert_eq!(named_tensors("A -> [ p , , q ]\nB -> [r]"), vec!["p", "q", "r"]);
    assert!(named_tensors("[a] -> B").is_empty());
    assert!(named_tensors("A -> B\n[x] -> C").is_empty());
    assert_eq!(named_tensors("A ->\t [y]"), vec!["y"]);
    assert!(named_tensors("A -> [z\n]").is_empty());
}

#[test]
fn position_from_source_location() {
    let p = source_loc_to_position(&SourceLoc { line: 3, col: 5, offset: 0 });
    assert_eq!(p, Position { line: 2, character: 4 });
    let z = source_loc_to_position(&SourceLoc { line: 0, col: 0, offset: 0 });
    assert_eq!(z, Position { line: 0, character: 0 });
}

#[test]
fn validate_reports_parse_errors_only() {
    let diags = validate_document("Conv2d(kernel=", &registry());
    assert!(!diags.is_empty());
    for d in &diags {
        assert_eq!(d.severity, Severity::Error);
        assert_eq!(d.source, "mlmd");
        assert_eq!(d.range.end.character, d.range.start.character + 1);
    }
}

#[test]
fn validate_lints_clean_parse() {
    let diags = validate_document("Input -> Mystery -> Output\n", &registry());
    assert!(diags.iter().any(|d| d.message.contains("Mystery")));
    for d in &diags {
        assert_eq!(d.range.start, d.range.end);
    }
}
