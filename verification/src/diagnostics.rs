//! Editor diagnostics: parse errors and lint findings of a document, as
//! messages at zero-based positions.
use vstd::prelude::*;
use vstd::string::StringSliceAdditionalSpecFns;

use crate::block::{BlockDef, BlockRegistry};
use crate::graph::Graph;
use crate::graph_builder::{build_graph, count_nodes, node_total, spec_build_graph};
use crate::lint::{cycle_report, diags_view, dup_name_diags, lint, lint_all, missing_plugin_diags, param_report, shape_report, tensor_names, undefined_ref_diags, unused_tensor_diags, LintDiagnostic, LintV, Severity};
use crate::navigate::{Position, Range};
use crate::nodes::SourceLoc;
use crate::parser::{parse, spec_parse, well_terminated};
use crate::text::{clone_string, dedup, string_of};
use crate::tokenizer::{spec_tokenize, tokenize, toks_view};

verus! {

/// A message about a span of a document.
#[derive(Debug)]
pub struct Diagnostic {
    pub range: Range,
    pub severity: Severity,
    pub message: String,
    /// Always `mlmd`.
    pub source: String,
}

/// The zero-based position of a one-based source location.
pub open spec fn loc_position(loc: SourceLoc) -> Position {
    Position {
        line: (if loc.line == 0 { 0 } else { loc.line - 1 }) as u32,
        character: (if loc.col == 0 { 0 } else { loc.col - 1 }) as u32,
    }
}

/// Converts a one-based source location to a zero-based position.
pub fn source_loc_to_position(loc: &SourceLoc) -> (r: Position)
    ensures
        r == loc_position(*loc),
{
    let line: usize = if loc.line == 0 { 0 } else { loc.line - 1 };
    let col: usize = if loc.col == 0 { 0 } else { loc.col - 1 };
    Position { line: line as u32, character: col as u32 }
}

/// Whether `d` reports `message` with `severity` over `range`.
pub open spec fn diag_is(d: Diagnostic, range: Range, severity: Severity, message: Seq<char>) -> bool {
    &&& d.range == range
    &&& d.severity == severity
    &&& d.message@ == message
    &&& d.source@ == "mlmd"@
}

/// The empty span at a lint finding's location.
pub open spec fn lint_range(loc: SourceLoc) -> Range {
    Range { start: loc_position(loc), end: loc_position(loc) }
}

/// The span of one character at a parse error's location.
pub open spec fn parse_error_range(loc: SourceLoc) -> Range {
    let p = loc_position(loc);
    Range {
        start: p,
        end: Position {
            line: p.line,
            character: if p.character == u32::MAX { 0 } else { (p.character + 1) as u32 },
        },
    }
}

/// A lint finding as a diagnostic.
pub fn to_lsp_diagnostic(d: &LintDiagnostic) -> (r: Diagnostic)
    ensures
        diag_is(r, lint_range(d.loc), d.severity, d.message@),
{
    let p = source_loc_to_position(&d.loc);
    Diagnostic {
        range: Range { start: p, end: p },
        severity: d.severity,
        message: clone_string(&d.message),
        source: string_of("mlmd"),
    }
}

/// Whether `ds` is what [`lint`] may report for `graph` with the block
/// definitions `defs`.
pub open spec fn linted(graph: Graph, defs: Map<Seq<char>, Box<dyn BlockDef>>, ds: Seq<LintV>) -> bool {
    exists|cycles: Seq<LintV>, params: Seq<LintV>, shapes: Seq<LintV>|
        #![trigger lint_all(graph.blocks@, graph.view_graph(), defs.dom(), cycles, params, shapes)]
        cycle_report(graph.view_graph(), cycles) && param_report(graph.view_graph(), defs, params) && (
        cycles.len() == 0 ==> shape_report(graph.view_graph(), defs, shapes)) && ds == lint_all(
            graph.blocks@,
            graph.view_graph(),
            defs.dom(),
            cycles,
            params,
            shapes,
        )
}

/// `lint` reports what the rules report one after the other: the findings
/// that the rules may give when each is run on its own, concatenated in rule
/// order (the shape findings only when there is no cycle), are a report
/// that `lint` may give; and every report of `lint` starts with exactly the
/// cycle findings.
pub proof fn law_lint_concatenates_rules(
    graph: Graph,
    defs: Map<Seq<char>, Box<dyn BlockDef>>,
    cycles: Seq<LintV>,
    params: Seq<LintV>,
    shapes: Seq<LintV>,
    ds: Seq<LintV>,
)
    requires
        cycle_report(graph.view_graph(), cycles),
        param_report(graph.view_graph(), defs, params),
        cycles.len() == 0 ==> shape_report(graph.view_graph(), defs, shapes),
    ensures
        linted(
            graph,
            defs,
            cycles + missing_plugin_diags(graph.view_graph().blocks, defs.dom()) + params + (if cycles.len() == 0 {
                shapes
            } else {
                Seq::empty()
            }) + dup_name_diags(graph.view_graph().edges, dedup(tensor_names(graph.view_graph().edges)))
                + undefined_ref_diags(graph.blocks@, tensor_names(graph.view_graph().edges)) + unused_tensor_diags(
                graph.view_graph().blocks,
                graph.view_graph().edges,
            ),
        ),
        linted(graph, defs, ds) ==> ds.take(cycles.len() as int) == cycles,
{
    let g = graph.view_graph();
    assert(lint_all(graph.blocks@, g, defs.dom(), cycles, params, shapes) == cycles + missing_plugin_diags(
        g.blocks,
        defs.dom(),
    ) + params + (if cycles.len() == 0 {
        shapes
    } else {
        Seq::empty()
    }) + dup_name_diags(g.edges, dedup(tensor_names(g.edges))) + undefined_ref_diags(graph.blocks@, tensor_names(g.edges))
        + unused_tensor_diags(g.blocks, g.edges));
    if linted(graph, defs, ds) {
        let (c2, p2, s2) = choose|c2: Seq<LintV>, p2: Seq<LintV>, s2: Seq<LintV>|
            #![trigger lint_all(graph.blocks@, g, defs.dom(), c2, p2, s2)]
            cycle_report(g, c2) && param_report(g, defs, p2) && (c2.len() == 0 ==> shape_report(g, defs, s2)) && ds
                == lint_all(graph.blocks@, g, defs.dom(), c2, p2, s2);
        assert(c2 == cycles);
        assert(ds.take(cycles.len() as int) =~= cycles);
    }
}

/// Checks a document: every parse error becomes an error diagnostic one
/// character wide; when there is none, the document's graph is built and
/// linted, and each finding becomes a diagnostic at its location.
pub fn validate_document(source: &str, registry: &BlockRegistry) -> (r: Vec<Diagnostic>)
    requires
        source.spec_bytes().len() < usize::MAX,
    ensures
        ({
            let (nv, ev) = spec_parse(spec_tokenize(source.spec_bytes()));
            &&& r@.len() >= ev.len()
            &&& forall|j: int|
                0 <= j < ev.len() ==> diag_is(
                    #[trigger] r@[j],
                    parse_error_range(ev[j].loc),
                    Severity::Error,
                    ev[j].message,
                )
            &&& ev.len() > 0 ==> r@.len() == ev.len()
            &&& (ev.len() == 0 && node_total(nv) + 1 < usize::MAX) ==> exists|g: Graph, ld: Seq<LintV>|
                {
                    &&& g.view_graph() == spec_build_graph(nv)
                    &&& linted(g, registry.blocks.map(), ld)
                    &&& r@.len() == ld.len()
                    &&& forall|j: int|
                        0 <= j < ld.len() ==> diag_is(
                            #[trigger] r@[j],
                            lint_range(ld[j].loc),
                            ld[j].severity,
                            ld[j].message,
                        )
                }
            &&& (ev.len() == 0 && node_total(nv) + 1 >= usize::MAX) ==> r@.len() == 0
        }),
{
    let tokens = tokenize(source);
    proof {
        assert(toks_view(tokens@).last() == tokens@.last().tview());
        assert(well_terminated(toks_view(tokens@)));
    }
    let pr = parse(&tokens);
    let ghost ev = crate::parser::errs_view(pr.errors@);
    let ghost nv = crate::nodes::nodes_view(pr.nodes@);
    let mut out: Vec<Diagnostic> = Vec::new();
    let mut i: usize = 0;
    while i < pr.errors.len()
        invariant
            ev == crate::parser::errs_view(pr.errors@),
            i <= pr.errors@.len(),
            out@.len() == i,
            forall|j: int|
                0 <= j < i ==> diag_is(#[trigger] out@[j], parse_error_range(ev[j].loc), Severity::Error, ev[j].message),
        decreases pr.errors@.len() - i,
    {
        let e = &pr.errors[i];
        let p = source_loc_to_position(&e.loc);
        let c: u32 = if p.character == u32::MAX { 0 } else { p.character + 1 };
        out.push(Diagnostic {
            range: Range { start: p, end: Position { line: p.line, character: c } },
            severity: Severity::Error,
            message: clone_string(&e.message),
            source: string_of("mlmd"),
        });
        i = i + 1;
    }
    if pr.errors.len() == 0 {
        match count_nodes(pr.nodes.as_slice()) {
            Some(t) => {
                if t < usize::MAX - 1 {
                    let graph = build_graph(pr.nodes.as_slice());
                    let ld = lint(&graph, registry);
                    let ghost ldv = diags_view(ld@);
                    let mut k: usize = 0;
                    while k < ld.len()
                        invariant
                            ldv == diags_view(ld@),
                            k <= ld@.len(),
                            out@.len() == k,
                            forall|j: int|
                                0 <= j < k ==> diag_is(#[trigger] out@[j], lint_range(ldv[j].loc), ldv[j].severity, ldv[j].message),
                        decreases ld@.len() - k,
                    {
                        out.push(to_lsp_diagnostic(&ld[k]));
                        k = k + 1;
                    }
                    proof {
                        assert(linted(graph, registry.blocks.map(), ldv));
                    }
                }
            },
            None => {},
        }
    }
    out
}

} // verus!
