//! Linting a graph: cycles, unknown block types, missing parameters, shape
//! mismatches and tensor-name problems.
use vstd::prelude::*;

use crate::block::{BlockDef, BlockRegistry, ParamSpec};
use crate::graph::{Block, BlockV, EdgeV, Graph, GraphV, blocks_view, edges_view, shapes_view};
use crate::graph_utils::{block_ids, find_id, find_last, last_with_id, ids_of, is_topo_order, lemma_on_cycle_reaches, on_cycle, reaches_self, resolve_edges, resolves, topo_sort_ids};
use crate::nodes::{ParamValue, PV, SourceLoc};
use crate::shape::{InferV, ShapeErrV, cycle_message, has_id, infer_shapes, infer_view, infers, shape_errors_view, unknown_type_message};
use crate::text::{clone_string, decimal, dedup, dedup_strings, join, join_strings, lemma_dedup, push_str, push_unique, str_eq, string_of, strs_view, usize_to_string};

verus! {

/// How serious a diagnostic is.
#[derive(Debug, Clone, Copy, PartialEq, Eq, Structural)]
pub enum Severity {
    Error,
    Warning,
}

/// One finding of the linter.
#[derive(Debug, Clone)]
pub struct LintDiagnostic {
    pub severity: Severity,
    pub message: String,
    pub loc: SourceLoc,
    pub rule: String,
}

/// The model of a [`LintDiagnostic`].
pub struct LintV {
    pub severity: Severity,
    pub message: Seq<char>,
    pub loc: SourceLoc,
    pub rule: Seq<char>,
}

pub open spec fn diags_view(ds: Seq<LintDiagnostic>) -> Seq<LintV> {
    Seq::new(
        ds.len(),
        |i: int| LintV { severity: ds[i].severity, message: ds[i].message@, loc: ds[i].loc, rule: ds[i].rule@ },
    )
}

pub open spec fn zero_loc() -> SourceLoc {
    SourceLoc { line: 0, col: 0, offset: 0 }
}

pub open spec fn lv(severity: Severity, message: Seq<char>, loc: SourceLoc, rule: Seq<char>) -> LintV {
    LintV { severity, message, loc, rule }
}

fn diag(severity: Severity, message: String, loc: SourceLoc, rule: &str) -> (r: LintDiagnostic)
    ensures
        r.severity == severity,
        r.message@ == message@,
        r.loc == loc,
        r.rule@ == rule@,
{
    LintDiagnostic { severity, message, loc, rule: string_of(rule) }
}

fn push_diag(ds: &mut Vec<LintDiagnostic>, d: LintDiagnostic)
    ensures
        diags_view(final(ds)@) == diags_view(old(ds)@).push(
            LintV { severity: d.severity, message: d.message@, loc: d.loc, rule: d.rule@ },
        ),
{
    let ghost before = diags_view(ds@);
    let ghost dv = LintV { severity: d.severity, message: d.message@, loc: d.loc, rule: d.rule@ };
    ds.push(d);
    proof {
        assert(diags_view(ds@) =~= before.push(dv));
    }
}

fn append_diags(ds: &mut Vec<LintDiagnostic>, more: Vec<LintDiagnostic>)
    ensures
        diags_view(final(ds)@) == diags_view(old(ds)@) + diags_view(more@),
{
    let ghost before = diags_view(ds@);
    let mut more = more;
    let ghost mv = more@;
    ds.append(&mut more);
    proof {
        assert(diags_view(ds@) =~= before + diags_view(mv));
    }
}

// ---------------------------------------------------------------------------
// Rule: unused named tensors
// ---------------------------------------------------------------------------

/// A warning for each named edge whose destination is not a block.
pub open spec fn unused_tensor_diags(bs: Seq<BlockV>, es: Seq<EdgeV>) -> Seq<LintV>
    decreases es.len(),
{
    if es.len() == 0 {
        Seq::empty()
    } else {
        let rest = unused_tensor_diags(bs, es.drop_last());
        let e = es.last();
        match e.tensor_name {
            Some(n) => if !has_id(bs, e.to) {
                rest.push(
                    lv(
                        Severity::Warning,
                        "Named tensor \""@ + n + "\" is created but never consumed"@,
                        zero_loc(),
                        "unused-tensor"@,
                    ),
                )
            } else {
                rest
            },
            None => rest,
        }
    }
}

/// Whether an edge names a tensor but leads to no block of `bs`.
pub open spec fn dangling_named(bs: Seq<BlockV>) -> spec_fn(EdgeV) -> bool {
    |e: EdgeV| e.tensor_name is Some && !has_id(bs, e.to)
}

/// Every named edge that leads to no block gives one unused-tensor
/// warning naming its tensor, in edge order, and no other edge gives one:
/// the warnings correspond one to one to those edges.
pub proof fn law_unused_tensor_warnings(bs: Seq<BlockV>, es: Seq<EdgeV>)
    ensures
        unused_tensor_diags(bs, es).len() == es.filter(dangling_named(bs)).len(),
        forall|j: int|
            0 <= j < es.filter(dangling_named(bs)).len() ==> #[trigger] unused_tensor_diags(bs, es)[j] == lv(
                Severity::Warning,
                "Named tensor \""@ + es.filter(dangling_named(bs))[j].tensor_name->0 + "\" is created but never consumed"@,
                zero_loc(),
                "unused-tensor"@,
            ),
    decreases es.len(),
{
    reveal(Seq::filter);
    if es.len() > 0 {
        law_unused_tensor_warnings(bs, es.drop_last());
    }
}

/// Named tensors whose destination block does not exist produce warnings.
pub fn check_unused_tensors(graph: &Graph) -> (r: Vec<LintDiagnostic>)
    ensures
        diags_view(r@) == unused_tensor_diags(blocks_view(graph.blocks@), edges_view(graph.edges@)),
{
    let ghost bs = blocks_view(graph.blocks@);
    let ghost es = edges_view(graph.edges@);
    let mut diags: Vec<LintDiagnostic> = Vec::new();
    let mut k: usize = 0;
    proof {
        assert(es.take(0) =~= Seq::<EdgeV>::empty());
        assert(diags_view(diags@) =~= Seq::<LintV>::empty());
    }
    while k < graph.edges.len()
        invariant
            k <= graph.edges@.len(),
            bs == blocks_view(graph.blocks@),
            es == edges_view(graph.edges@),
            diags_view(diags@) == unused_tensor_diags(bs, es.take(k as int)),
        decreases graph.edges@.len() - k,
    {
        proof {
            assert(es.take(k + 1).drop_last() =~= es.take(k as int));
            assert(es.take(k + 1).last() == es[k as int]);
        }
        let e = &graph.edges[k];
        match &e.tensor_name {
            Some(name) => {
                match crate::shape::find_block_index(&graph.blocks, &e.to) {
                    Some(bi) => {
                        proof {
                            assert(bs[bi as int].id == e.to@);
                        }
                    },
                    None => {
                        let mut m = string_of("Named tensor \"");
                        push_str(&mut m, name.as_str());
                        push_str(&mut m, "\" is created but never consumed");
                        push_diag(&mut diags, diag(Severity::Warning, m, SourceLoc::zero(), "unused-tensor"));
                    },
                }
            },
            None => {},
        }
        k = k + 1;
    }
    proof {
        assert(es.take(k as int) =~= es);
    }
    diags
}

// ---------------------------------------------------------------------------
// Rule: missing plugins
// ---------------------------------------------------------------------------

/// An error for each block whose type has no definition.
pub open spec fn missing_plugin_diags(bs: Seq<BlockV>, names: Set<Seq<char>>) -> Seq<LintV>
    decreases bs.len(),
{
    if bs.len() == 0 {
        Seq::empty()
    } else {
        let rest = missing_plugin_diags(bs.drop_last(), names);
        let b = bs.last();
        if !names.contains(b.block_type) {
            rest.push(lv(Severity::Error, unknown_type_message(b.block_type), b.loc, "missing-plugin"@))
        } else {
            rest
        }
    }
}

/// Blocks of a type that the registry does not know.
pub fn check_missing_plugins(graph: &Graph, registry: &BlockRegistry) -> (r: Vec<LintDiagnostic>)
    ensures
        diags_view(r@) == missing_plugin_diags(blocks_view(graph.blocks@), registry.blocks.map().dom()),
{
    let ghost bs = blocks_view(graph.blocks@);
    let ghost names = registry.blocks.map().dom();
    let mut diags: Vec<LintDiagnostic> = Vec::new();
    let mut i: usize = 0;
    proof {
        assert(bs.take(0) =~= Seq::<BlockV>::empty());
        assert(diags_view(diags@) =~= Seq::<LintV>::empty());
    }
    while i < graph.blocks.len()
        invariant
            i <= graph.blocks@.len(),
            bs == blocks_view(graph.blocks@),
            names == registry.blocks.map().dom(),
            diags_view(diags@) == missing_plugin_diags(bs.take(i as int), names),
        decreases graph.blocks@.len() - i,
    {
        proof {
            assert(bs.take(i + 1).drop_last() =~= bs.take(i as int));
            assert(bs.take(i + 1).last() == bs[i as int]);
        }
        let b = &graph.blocks[i];
        if !registry.contains(b.block_type.as_str()) {
            let mut m = string_of("Unknown block type: \"");
            push_str(&mut m, b.block_type.as_str());
            push_str(&mut m, "\"");
            push_diag(&mut diags, diag(Severity::Error, m, b.loc, "missing-plugin"));
        }
        i = i + 1;
    }
    proof {
        assert(bs.take(i as int) =~= bs);
    }
    diags
}

// ---------------------------------------------------------------------------
// Rule: missing required parameters
// ---------------------------------------------------------------------------

/// What the linter reads of a parameter specification.
pub struct ParamSpecV {
    pub name: Seq<char>,
    pub required: bool,
}

pub open spec fn specs_view(s: Seq<ParamSpec>) -> Seq<ParamSpecV> {
    Seq::new(s.len(), |i: int| ParamSpecV { name: s[i].name@, required: s[i].required })
}

/// The errors for block `b`'s required parameters (of `specs`) that it lacks.
pub open spec fn block_param_diags(b: BlockV, specs: Seq<ParamSpecV>) -> Seq<LintV>
    decreases specs.len(),
{
    if specs.len() == 0 {
        Seq::empty()
    } else {
        let rest = block_param_diags(b, specs.drop_last());
        let sp = specs.last();
        if sp.required && !b.params.contains_key(sp.name) {
            rest.push(
                lv(
                    Severity::Error,
                    "Block \""@ + b.block_type + "\" ("@ + b.id + ") is missing required param \""@ + sp.name
                        + "\""@,
                    b.loc,
                    "missing-param"@,
                ),
            )
        } else {
            rest
        }
    }
}

/// The missing-parameter errors of all blocks of a known type; `specs[i]`
/// is what the definition of block `i`'s type lists.
pub open spec fn missing_param_diags(bs: Seq<BlockV>, names: Set<Seq<char>>, specs: Seq<Seq<ParamSpecV>>) -> Seq<LintV>
    decreases bs.len(),
{
    if bs.len() == 0 || specs.len() != bs.len() {
        Seq::empty()
    } else {
        let rest = missing_param_diags(bs.drop_last(), names, specs.drop_last());
        if names.contains(bs.last().block_type) {
            rest + block_param_diags(bs.last(), specs.last())
        } else {
            rest
        }
    }
}

/// For each block with a definition, the required parameters it lacks.
pub fn check_missing_params(graph: &Graph, registry: &BlockRegistry) -> (r: Vec<LintDiagnostic>)
    ensures
        param_report(graph.view_graph(), registry.blocks.map(), diags_view(r@)),
{
    let ghost bs = blocks_view(graph.blocks@);
    let ghost defs = registry.blocks.map();
    let ghost names = registry.blocks.map().dom();
    let ghost mut specs: Seq<Seq<ParamSpecV>> = Seq::empty();
    let mut diags: Vec<LintDiagnostic> = Vec::new();
    let mut i: usize = 0;
    proof {
        assert(bs.take(0) =~= Seq::<BlockV>::empty());
        assert(diags_view(diags@) =~= Seq::<LintV>::empty());
    }
    while i < graph.blocks.len()
        invariant
            i <= graph.blocks@.len(),
            bs == blocks_view(graph.blocks@),
            names == registry.blocks.map().dom(),
            defs == registry.blocks.map(),
            specs_fit(bs.take(i as int), defs, specs),
            diags_view(diags@) == missing_param_diags(bs.take(i as int), names, specs),
        decreases graph.blocks@.len() - i,
    {
        let b = &graph.blocks[i];
        let ghost bv = b.view_block();
        let ghost mut sv: Seq<ParamSpecV> = Seq::empty();
        match registry.get(b.block_type.as_str()) {
            Some(def) => {
                let ps = def.params();
                proof {
                    sv = specs_view(ps@);
                    assert(bv == bs[i as int]);
                    assert(*def == defs[bv.block_type]);
                }
                let ghost d0 = diags_view(diags@);
                let mut j: usize = 0;
                proof {
                    assert(sv.take(0) =~= Seq::<ParamSpecV>::empty());
                    assert(d0 + block_param_diags(bv, sv.take(0)) =~= d0);
                }
                while j < ps.len()
                    invariant
                        j <= ps@.len(),
                        sv == specs_view(ps@),
                        bv == b.view_block(),
                        diags_view(diags@) == d0 + block_param_diags(bv, sv.take(j as int)),
                    decreases ps@.len() - j,
                {
                    proof {
                        assert(sv.take(j + 1).drop_last() =~= sv.take(j as int));
                        assert(sv.take(j + 1).last() == sv[j as int]);
                    }
                    let sp = &ps[j];
                    if sp.required && !b.params.contains_key(sp.name.as_str()) {
                        let mut m = string_of("Block \"");
                        push_str(&mut m, b.block_type.as_str());
                        push_str(&mut m, "\" (");
                        push_str(&mut m, b.id.as_str());
                        push_str(&mut m, ") is missing required param \"");
                        push_str(&mut m, sp.name.as_str());
                        push_str(&mut m, "\"");
                        let ghost dd = diags_view(diags@);
                        push_diag(&mut diags, diag(Severity::Error, m, b.loc, "missing-param"));
                        proof {
                            assert(diags_view(diags@) =~= d0 + block_param_diags(bv, sv.take(j + 1)));
                        }
                    }
                    j = j + 1;
                }
                proof {
                    assert(sv.take(j as int) =~= sv);
                }
            },
            None => {},
        }
        proof {
            let ns = specs.push(sv);
            assert(bs.take(i + 1).drop_last() =~= bs.take(i as int));
            assert(bs.take(i + 1).last() == bs[i as int]);
            assert(ns.drop_last() =~= specs);
            assert(bv == bs[i as int]);
            assert forall|q: int|
                0 <= q < bs.take(i + 1).len() && defs.contains_key((#[trigger] bs.take(i + 1)[q]).block_type)
                    && defs[bs.take(i + 1)[q].block_type].obeys_block_spec() implies ns[q] == specs_view(
                defs[bs.take(i + 1)[q].block_type].spec_params(),
            ) by {
                if q < i {
                    assert(bs.take(i + 1)[q] == bs.take(i as int)[q]);
                    assert(ns[q] == specs[q]);
                }
            }
            specs = ns;
        }
        i = i + 1;
    }
    proof {
        assert(bs.take(i as int) =~= bs);
        assert(specs.len() == bs.len());
        assert(graph.view_graph().blocks == bs);
        assert(specs_fit(bs, defs, specs));
        assert(missing_param_diags(graph.view_graph().blocks, names, specs) == diags_view(diags@));
    }
    diags
}

/// Whether `specs[i]` is what the registered definition of block `i`'s
/// type lists, for each block whose definition publishes its parameters
/// (nothing for a type without a definition).
pub open spec fn specs_fit(bs: Seq<BlockV>, defs: Map<Seq<char>, Box<dyn BlockDef>>, specs: Seq<Seq<ParamSpecV>>) -> bool {
    &&& specs.len() == bs.len()
    &&& forall|i: int|
        0 <= i < bs.len() && defs.contains_key((#[trigger] bs[i]).block_type) && defs[bs[i].block_type].obeys_block_spec()
            ==> specs[i] == specs_view(defs[bs[i].block_type].spec_params())
}

/// The missing-parameter errors of `g`, for what the registered definitions
/// `defs` list.
pub open spec fn param_report(g: GraphV, defs: Map<Seq<char>, Box<dyn BlockDef>>, d: Seq<LintV>) -> bool {
    exists|specs: Seq<Seq<ParamSpecV>>|
        #![trigger missing_param_diags(g.blocks, defs.dom(), specs)]
        specs_fit(g.blocks, defs, specs) && d == missing_param_diags(g.blocks, defs.dom(), specs)
}

// ---------------------------------------------------------------------------
// Rule: duplicate tensor names
// ---------------------------------------------------------------------------

/// The tensor names of the edges, in edge order.
pub open spec fn tensor_names(es: Seq<EdgeV>) -> Seq<Seq<char>>
    decreases es.len(),
{
    if es.len() == 0 {
        Seq::empty()
    } else {
        match es.last().tensor_name {
            Some(n) => tensor_names(es.drop_last()).push(n),
            None => tensor_names(es.drop_last()),
        }
    }
}

/// The sources of the edges named `name`, in edge order.
pub open spec fn sources_of(es: Seq<EdgeV>, name: Seq<char>) -> Seq<Seq<char>>
    decreases es.len(),
{
    if es.len() == 0 {
        Seq::empty()
    } else {
        let rest = sources_of(es.drop_last(), name);
        if es.last().tensor_name == Some(name) {
            rest.push(es.last().from)
        } else {
            rest
        }
    }
}

/// The count in a duplicate-name error is the number of distinct blocks
/// that produce the tensor: the size of the set of its sources.
pub proof fn law_duplicate_count(es: Seq<EdgeV>, name: Seq<char>)
    ensures
        dedup(sources_of(es, name)).len() == sources_of(es, name).to_set().len(),
{
    let s = sources_of(es, name);
    lemma_dedup(s);
    dedup(s).unique_seq_to_set();
    assert(dedup(s).to_set() =~= s.to_set());
}

/// An error for each of `names` that more than one block defines.
pub open spec fn dup_name_diags(es: Seq<EdgeV>, names: Seq<Seq<char>>) -> Seq<LintV>
    decreases names.len(),
{
    if names.len() == 0 {
        Seq::empty()
    } else {
        let rest = dup_name_diags(es, names.drop_last());
        let n = names.last();
        let k = dedup(sources_of(es, n)).len();
        if k > 1 {
            rest.push(
                lv(
                    Severity::Error,
                    "Tensor name \""@ + n + "\" is defined by "@ + decimal(k) + " different blocks"@,
                    zero_loc(),
                    "duplicate-tensor-name"@,
                ),
            )
        } else {
            rest
        }
    }
}

/// The names each defined by edges from more than one block.
pub fn check_duplicate_tensor_names(graph: &Graph) -> (r: Vec<LintDiagnostic>)
    ensures
        diags_view(r@) == dup_name_diags(edges_view(graph.edges@), dedup(tensor_names(edges_view(graph.edges@)))),
{
    let ghost es = edges_view(graph.edges@);
    let mut names: Vec<String> = Vec::new();
    let mut k: usize = 0;
    proof {
        assert(es.take(0) =~= Seq::<EdgeV>::empty());
        assert(strs_view(names@) =~= Seq::<Seq<char>>::empty());
    }
    while k < graph.edges.len()
        invariant
            k <= graph.edges@.len(),
            es == edges_view(graph.edges@),
            strs_view(names@) == dedup(tensor_names(es.take(k as int))),
        decreases graph.edges@.len() - k,
    {
        proof {
            assert(es.take(k + 1).drop_last() =~= es.take(k as int));
            assert(es.take(k + 1).last() == es[k as int]);
        }
        match &graph.edges[k].tensor_name {
            Some(n) => {
                proof {
                    let tn = tensor_names(es.take(k as int));
                    assert(tn.push(n@).drop_last() =~= tn);
                }
                push_unique(&mut names, n);
            },
            None => {},
        }
        k = k + 1;
    }
    proof {
        assert(es.take(k as int) =~= es);
    }
    let ghost nv = strs_view(names@);
    let mut diags: Vec<LintDiagnostic> = Vec::new();
    let mut i: usize = 0;
    proof {
        assert(nv.take(0) =~= Seq::<Seq<char>>::empty());
        assert(diags_view(diags@) =~= Seq::<LintV>::empty());
    }
    while i < names.len()
        invariant
            i <= names@.len(),
            es == edges_view(graph.edges@),
            nv == strs_view(names@),
            diags_view(diags@) == dup_name_diags(es, nv.take(i as int)),
        decreases names@.len() - i,
    {
        let name = &names[i];
        let mut srcs: Vec<String> = Vec::new();
        let mut j: usize = 0;
        proof {
            assert(es.take(0) =~= Seq::<EdgeV>::empty());
            assert(strs_view(srcs@) =~= Seq::<Seq<char>>::empty());
        }
        while j < graph.edges.len()
            invariant
                j <= graph.edges@.len(),
                es == edges_view(graph.edges@),
                strs_view(srcs@) == dedup(sources_of(es.take(j as int), name@)),
            decreases graph.edges@.len() - j,
        {
            proof {
                assert(es.take(j + 1).drop_last() =~= es.take(j as int));
                assert(es.take(j + 1).last() == es[j as int]);
            }
            let e = &graph.edges[j];
            match &e.tensor_name {
                Some(n) => {
                    if str_eq(n.as_str(), name.as_str()) {
                        proof {
                            let so = sources_of(es.take(j as int), name@);
                            assert(so.push(e.from@).drop_last() =~= so);
                        }
                        push_unique(&mut srcs, &e.from);
                    }
                },
                None => {},
            }
            j = j + 1;
        }
        proof {
            assert(es.take(j as int) =~= es);
            assert(nv.take(i + 1).drop_last() =~= nv.take(i as int));
            assert(nv.take(i + 1).last() == name@);
        }
        if srcs.len() > 1 {
            let mut m = string_of("Tensor name \"");
            push_str(&mut m, name.as_str());
            push_str(&mut m, "\" is defined by ");
            let count = usize_to_string(srcs.len());
            push_str(&mut m, count.as_str());
            push_str(&mut m, " different blocks");
            push_diag(&mut diags, diag(Severity::Error, m, SourceLoc::zero(), "duplicate-tensor-name"));
        }
        i = i + 1;
    }
    proof {
        assert(nv.take(i as int) =~= nv);
    }
    diags
}

// ---------------------------------------------------------------------------
// Rule: undefined tensor references
// ---------------------------------------------------------------------------

/// An error for each bareword item of a list that names no tensor.
pub open spec fn item_diags(items: Seq<PV>, defined: Seq<Seq<char>>, loc: SourceLoc) -> Seq<LintV>
    decreases items.len(),
{
    if items.len() == 0 {
        Seq::empty()
    } else {
        let rest = item_diags(items.drop_last(), defined, loc);
        match items.last() {
            PV::Bareword { value, .. } => if !defined.contains(value) {
                rest.push(
                    lv(Severity::Error, "Undefined tensor reference: \""@ + value + "\""@, loc, "undefined-tensor-ref"@),
                )
            } else {
                rest
            },
            _ => rest,
        }
    }
}

/// The undefined references in the list parameters `keys` of `m`.
pub open spec fn key_diags(keys: Seq<Seq<char>>, m: Map<Seq<char>, PV>, defined: Seq<Seq<char>>, loc: SourceLoc) -> Seq<LintV>
    decreases keys.len(),
{
    if keys.len() == 0 {
        Seq::empty()
    } else {
        let rest = key_diags(keys.drop_last(), m, defined, loc);
        match m[keys.last()] {
            PV::List { items, .. } => rest + item_diags(items, defined, loc),
            _ => rest,
        }
    }
}

/// The undefined references of all blocks, parameters in the order the
/// block's map lists them.
pub open spec fn undefined_ref_diags(bs: Seq<Block>, defined: Seq<Seq<char>>) -> Seq<LintV>
    decreases bs.len(),
{
    if bs.len() == 0 {
        Seq::empty()
    } else {
        let b = bs.last();
        undefined_ref_diags(bs.drop_last(), defined) + key_diags(
            b.params.key_seq(),
            crate::graph::param_map_view(b.params),
            defined,
            b.loc,
        )
    }
}

/// Whether `name` is one of `names`.
fn contains_name(names: &Vec<String>, name: &String) -> (r: bool)
    ensures
        r == strs_view(names@).contains(name@),
{
    match find_id(names, name) {
        Some(i) => {
            proof {
                assert(strs_view(names@)[i as int] == name@);
            }
            true
        },
        None => false,
    }
}

/// Bareword list items that name no tensor of the graph.
pub fn check_undefined_tensor_refs(graph: &Graph) -> (r: Vec<LintDiagnostic>)
    ensures
        diags_view(r@) == undefined_ref_diags(graph.blocks@, tensor_names(edges_view(graph.edges@))),
{
    let ghost es = edges_view(graph.edges@);
    let mut defined: Vec<String> = Vec::new();
    let mut k: usize = 0;
    proof {
        assert(es.take(0) =~= Seq::<EdgeV>::empty());
        assert(strs_view(defined@) =~= Seq::<Seq<char>>::empty());
    }
    while k < graph.edges.len()
        invariant
            k <= graph.edges@.len(),
            es == edges_view(graph.edges@),
            strs_view(defined@) == tensor_names(es.take(k as int)),
        decreases graph.edges@.len() - k,
    {
        proof {
            assert(es.take(k + 1).drop_last() =~= es.take(k as int));
            assert(es.take(k + 1).last() == es[k as int]);
        }
        match &graph.edges[k].tensor_name {
            Some(n) => {
                let ghost before = strs_view(defined@);
                defined.push(clone_string(n));
                proof {
                    assert(strs_view(defined@) =~= before.push(n@));
                }
            },
            None => {},
        }
        k = k + 1;
    }
    proof {
        assert(es.take(k as int) =~= es);
    }
    let ghost dv = strs_view(defined@);
    let mut diags: Vec<LintDiagnostic> = Vec::new();
    let mut i: usize = 0;
    proof {
        assert(graph.blocks@.take(0) =~= Seq::<Block>::empty());
        assert(diags_view(diags@) =~= Seq::<LintV>::empty());
    }
    while i < graph.blocks.len()
        invariant
            i <= graph.blocks@.len(),
            dv == strs_view(defined@),
            diags_view(diags@) == undefined_ref_diags(graph.blocks@.take(i as int), dv),
        decreases graph.blocks@.len() - i,
    {
        let b = &graph.blocks[i];
        let keys = b.params.keys();
        let ghost ks = b.params.key_seq();
        let ghost m = crate::graph::param_map_view(b.params);
        let ghost d0 = diags_view(diags@);
        let mut j: usize = 0;
        proof {
            assert(ks.take(0) =~= Seq::<Seq<char>>::empty());
            assert(d0 + key_diags(ks.take(0), m, dv, b.loc) =~= d0);
        }
        while j < keys.len()
            invariant
                j <= keys@.len(),
                strs_view(keys@) == ks,
                ks == b.params.key_seq(),
                m == crate::graph::param_map_view(b.params),
                forall|kk: Seq<char>| b.params.map().contains_key(kk) <==> ks.contains(kk),
                dv == strs_view(defined@),
                diags_view(diags@) == d0 + key_diags(ks.take(j as int), m, dv, b.loc),
            decreases keys@.len() - j,
        {
            proof {
                assert(ks.take(j + 1).drop_last() =~= ks.take(j as int));
                assert(ks.take(j + 1).last() == ks[j as int]);
                assert(ks.contains(ks[j as int]));
            }
            match b.params.get(keys[j].as_str()) {
                Some(v) => {
                    match v {
                        ParamValue::List(l) => {
                            let ghost items = match v.pv() {
                                PV::List { items, .. } => items,
                                _ => Seq::empty(),
                            };
                            proof {
                                assert(m[ks[j as int]] == v.pv());
                            }
                            let ghost d1 = diags_view(diags@);
                            let mut q: usize = 0;
                            proof {
                                assert(items.take(0) =~= Seq::<PV>::empty());
                                assert(d1 + item_diags(items.take(0), dv, b.loc) =~= d1);
                            }
                            while q < l.items.len()
                                invariant
                                    q <= l.items@.len(),
                                    items.len() == l.items@.len(),
                                    forall|z: int| 0 <= z < l.items@.len() ==> items[z] == l.items@[z].pv(),
                                    dv == strs_view(defined@),
                                    diags_view(diags@) == d1 + item_diags(items.take(q as int), dv, b.loc),
                                decreases l.items@.len() - q,
                            {
                                proof {
                                    assert(items.take(q + 1).drop_last() =~= items.take(q as int));
                                    assert(items.take(q + 1).last() == items[q as int]);
                                }
                                match &l.items[q] {
                                    ParamValue::Bareword(bw) => {
                                        if !contains_name(&defined, &bw.value) {
                                            let mut msg = string_of("Undefined tensor reference: \"");
                                            push_str(&mut msg, bw.value.as_str());
                                            push_str(&mut msg, "\"");
                                            push_diag(&mut diags, diag(Severity::Error, msg, b.loc, "undefined-tensor-ref"));
                                            proof {
                                                assert(diags_view(diags@) =~= d1 + item_diags(items.take(q + 1), dv, b.loc));
                                            }
                                        }
                                    },
                                    _ => {},
                                }
                                q = q + 1;
                            }
                            proof {
                                assert(items.take(q as int) =~= items);
                                assert(key_diags(ks.take(j + 1), m, dv, b.loc) == key_diags(ks.take(j as int), m, dv, b.loc)
                                    + item_diags(items, dv, b.loc));
                                assert(diags_view(diags@) =~= d0 + key_diags(ks.take(j + 1), m, dv, b.loc));
                            }
                        },
                        _ => {},
                    }
                },
                None => {},
            }
            j = j + 1;
        }
        proof {
            assert(ks.take(j as int) =~= ks);
            assert(graph.blocks@.take(i + 1).drop_last() =~= graph.blocks@.take(i as int));
            assert(graph.blocks@.take(i + 1).last() == graph.blocks@[i as int]);
        }
        i = i + 1;
    }
    proof {
        assert(graph.blocks@.take(i as int) =~= graph.blocks@);
    }
    diags
}

// ---------------------------------------------------------------------------
// Rule: shape compatibility
// ---------------------------------------------------------------------------

/// The dimensions of a shape joined by commas.
pub open spec fn dims_text(d: Seq<usize>) -> Seq<char> {
    join(Seq::new(d.len(), |i: int| decimal(d[i] as nat)), ","@)
}

/// A lint error for each inference error other than the cycle error, at the
/// location of the block it names.
pub open spec fn error_diags(bs: Seq<BlockV>, errs: Seq<ShapeErrV>) -> Seq<LintV>
    decreases errs.len(),
{
    if errs.len() == 0 {
        Seq::empty()
    } else {
        let rest = error_diags(bs, errs.drop_last());
        let e = errs.last();
        if e.message == cycle_message() {
            rest
        } else {
            let loc = match last_with_id(bs, e.block_id) {
                Some(b) => b.loc,
                None => zero_loc(),
            };
            rest.push(lv(Severity::Error, e.message, loc, "shape-mismatch"@))
        }
    }
}

/// An error for each of `ins` that differs from `first`.
pub open spec fn mismatch_diags(b: BlockV, first: Seq<usize>, ins: Seq<Seq<usize>>) -> Seq<LintV>
    decreases ins.len(),
{
    if ins.len() == 0 {
        Seq::empty()
    } else {
        let rest = mismatch_diags(b, first, ins.drop_last());
        if ins.last() != first {
            rest.push(
                lv(
                    Severity::Error,
                    "Block \""@ + b.block_type + "\" ("@ + b.id + "): input shape ["@ + dims_text(ins.last())
                        + "] does not match expected ["@ + dims_text(first) + "]"@,
                    b.loc,
                    "shape-mismatch"@,
                ),
            )
        } else {
            rest
        }
    }
}

/// For each block of a known type whose single output equals its first of
/// several inputs (an element-wise operation), an error for each input that
/// differs from the first.
pub open spec fn merge_diags(bs: Seq<BlockV>, names: Set<Seq<char>>, inferred: Seq<BlockV>) -> Seq<LintV>
    decreases bs.len(),
{
    if bs.len() == 0 {
        Seq::empty()
    } else {
        let rest = merge_diags(bs.drop_last(), names, inferred);
        let b = bs.last();
        if !names.contains(b.block_type) {
            rest
        } else {
            match last_with_id(inferred, b.id) {
                None => rest,
                Some(ib) => if ib.input_shapes.len() < 2 {
                    rest
                } else if ib.output_shapes.len() == 1 && ib.output_shapes[0] == ib.input_shapes[0] {
                    rest + mismatch_diags(
                        b,
                        ib.input_shapes[0],
                        ib.input_shapes.subrange(1, ib.input_shapes.len() as int),
                    )
                } else {
                    rest
                },
            }
        }
    }
}

/// The shape diagnostics of `g` for the inference result `res`.
pub open spec fn shape_diags(g: GraphV, names: Set<Seq<char>>, res: InferV) -> Seq<LintV> {
    error_diags(g.blocks, res.errors) + merge_diags(g.blocks, names, res.blocks)
}

/// The shape diagnostics, for what the block definitions answer.
pub open spec fn shape_report(g: GraphV, defs: Map<Seq<char>, Box<dyn BlockDef>>, d: Seq<LintV>) -> bool {
    exists|res: InferV|
        #![trigger shape_diags(g, defs.dom(), res)]
        infers(g, defs, res) && d == shape_diags(g, defs.dom(), res)
}

/// A shape's dimensions joined by commas.
fn dims_string(d: &Vec<usize>) -> (r: String)
    ensures
        r@ == dims_text(d@),
{
    let mut parts: Vec<String> = Vec::new();
    let mut i: usize = 0;
    while i < d.len()
        invariant
            i <= d@.len(),
            strs_view(parts@) == Seq::new(i as nat, |k: int| decimal(d@[k] as nat)),
        decreases d@.len() - i,
    {
        let ghost before = strs_view(parts@);
        let ds = usize_to_string(d[i]);
        parts.push(ds);
        proof {
            assert(strs_view(parts@) =~= before.push(ds@));
            assert(strs_view(parts@) =~= Seq::new((i + 1) as nat, |k: int| decimal(d@[k] as nat)));
        }
        i = i + 1;
    }
    join_strings(&parts, ",")
}

/// Whether two shapes are equal.
fn same_shape(a: &Vec<usize>, b: &Vec<usize>) -> (r: bool)
    ensures
        r == (a@ == b@),
{
    if a.len() != b.len() {
        return false;
    }
    let mut i: usize = 0;
    while i < a.len()
        invariant
            a@.len() == b@.len(),
            i <= a@.len(),
            forall|k: int| 0 <= k < i ==> a@[k] == b@[k],
        decreases a@.len() - i,
    {
        if a[i] != b[i] {
            return false;
        }
        i = i + 1;
    }
    assert(a@ =~= b@);
    true
}

/// Shape problems: the errors of shape inference, and inputs of an
/// element-wise block (output equal to its first input) that differ from
/// the first input.
pub fn check_shapes(graph: &Graph, registry: &BlockRegistry) -> (r: Vec<LintDiagnostic>)
    ensures
        shape_report(graph.view_graph(), registry.blocks.map(), diags_view(r@)),
{
    let ghost g = graph.view_graph();
    let ghost names = registry.blocks.map().dom();
    let result = infer_shapes(graph, registry);
    let ghost res = infer_view(result.graph.blocks@, result.graph.edges@, result.errors@);
    let ghost errs = res.errors;
    let mut diags: Vec<LintDiagnostic> = Vec::new();
    let mut k: usize = 0;
    proof {
        assert(errs.take(0) =~= Seq::<ShapeErrV>::empty());
        assert(diags_view(diags@) =~= Seq::<LintV>::empty());
    }
    while k < result.errors.len()
        invariant
            k <= result.errors@.len(),
            errs == shape_errors_view(result.errors@),
            g == graph.view_graph(),
            diags_view(diags@) == error_diags(g.blocks, errs.take(k as int)),
        decreases result.errors@.len() - k,
    {
        proof {
            assert(errs.take(k + 1).drop_last() =~= errs.take(k as int));
            assert(errs.take(k + 1).last() == errs[k as int]);
        }
        let e = &result.errors[k];
        if !str_eq(e.message.as_str(), "Cycle detected in graph") {
            let loc = match find_last(&graph.blocks, &e.block_id) {
                Some(bi) => graph.blocks[bi].loc,
                None => SourceLoc::zero(),
            };
            push_diag(&mut diags, diag(Severity::Error, clone_string(&e.message), loc, "shape-mismatch"));
        }
        k = k + 1;
    }
    proof {
        assert(errs.take(k as int) =~= errs);
    }
    let ghost d0 = diags_view(diags@);
    let ghost rbs = res.blocks;
    let mut i: usize = 0;
    proof {
        assert(g.blocks.take(0) =~= Seq::<BlockV>::empty());
        assert(d0 + merge_diags(g.blocks.take(0), names, rbs) =~= d0);
    }
    while i < graph.blocks.len()
        invariant
            i <= graph.blocks@.len(),
            g == graph.view_graph(),
            names == registry.blocks.map().dom(),
            rbs == blocks_view(result.graph.blocks@),
            diags_view(diags@) == d0 + merge_diags(g.blocks.take(i as int), names, rbs),
        decreases graph.blocks@.len() - i,
    {
        proof {
            assert(g.blocks.take(i + 1).drop_last() =~= g.blocks.take(i as int));
            assert(g.blocks.take(i + 1).last() == g.blocks[i as int]);
        }
        let b = &graph.blocks[i];
        if registry.contains(b.block_type.as_str()) {
            match find_last(&result.graph.blocks, &b.id) {
                Some(ii) => {
                    let ib = &result.graph.blocks[ii];
                    let ins = &ib.input_shapes;
                    if ins.len() >= 2 && ib.output_shapes.len() == 1 && same_shape(&ib.output_shapes[0], &ins[0]) {
                        let ghost insv = shapes_view(ins@);
                        let ghost rest = insv.subrange(1, insv.len() as int);
                        let ghost d1 = diags_view(diags@);
                        let first = &ins[0];
                        let mut q: usize = 1;
                        proof {
                            assert(rest.take(0) =~= Seq::<Seq<usize>>::empty());
                            assert(d1 + mismatch_diags(b.view_block(), first@, rest.take(0)) =~= d1);
                        }
                        while q < ins.len()
                            invariant
                                1 <= q <= ins@.len(),
                                insv == shapes_view(ins@),
                                rest == insv.subrange(1, insv.len() as int),
                                first@ == insv[0],
                                diags_view(diags@) == d1 + mismatch_diags(b.view_block(), first@, rest.take(q - 1)),
                            decreases ins@.len() - q,
                        {
                            proof {
                                assert(rest.take(q as int).drop_last() =~= rest.take(q - 1));
                                assert(rest.take(q as int).last() == insv[q as int]);
                            }
                            if !same_shape(&ins[q], first) {
                                let mut m = string_of("Block \"");
                                push_str(&mut m, b.block_type.as_str());
                                push_str(&mut m, "\" (");
                                push_str(&mut m, b.id.as_str());
                                push_str(&mut m, "): input shape [");
                                let a = dims_string(&ins[q]);
                                push_str(&mut m, a.as_str());
                                push_str(&mut m, "] does not match expected [");
                                let f = dims_string(first);
                                push_str(&mut m, f.as_str());
                                push_str(&mut m, "]");
                                push_diag(&mut diags, diag(Severity::Error, m, b.loc, "shape-mismatch"));
                                proof {
                                    assert(diags_view(diags@) =~= d1 + mismatch_diags(b.view_block(), first@, rest.take(q as int)));
                                }
                            }
                            q = q + 1;
                        }
                        proof {
                            assert(rest.take(q - 1) =~= rest);
                            assert(diags_view(diags@) =~= d0 + merge_diags(g.blocks.take(i + 1), names, rbs));
                        }
                    }
                },
                None => {},
            }
        }
        i = i + 1;
    }
    proof {
        assert(g.blocks.take(i as int) =~= g.blocks);
        assert(shape_diags(g, names, res) == diags_view(diags@));
    }
    diags
}

// ---------------------------------------------------------------------------
// Rule: cycles
// ---------------------------------------------------------------------------

/// The ids of `g` that lie on a cycle.
pub open spec fn cycle_ids(g: GraphV) -> Set<Seq<char>> {
    Set::new(|x: Seq<char>| on_cycle(ids_of(g.blocks), g.edges, x))
}

/// An error for each block whose id is in `cyc`.
pub open spec fn cycle_diags(bs: Seq<BlockV>, cyc: Set<Seq<char>>) -> Seq<LintV>
    decreases bs.len(),
{
    if bs.len() == 0 {
        Seq::empty()
    } else {
        let rest = cycle_diags(bs.drop_last(), cyc);
        let b = bs.last();
        if cyc.contains(b.id) {
            rest.push(
                lv(
                    Severity::Error,
                    "Block \""@ + b.block_type + "\" ("@ + b.id + ") is part of a cycle"@,
                    b.loc,
                    "cycle"@,
                ),
            )
        } else {
            rest
        }
    }
}

/// The cycle diagnostics of `g`: one per block that lies on a cycle, in
/// block order.
pub open spec fn cycle_report(g: GraphV, d: Seq<LintV>) -> bool {
    d == cycle_diags(g.blocks, cycle_ids(g))
}

/// One error for each block that lies on a cycle (a walk along edges leads
/// from it back to it); blocks only downstream of a cycle are not reported.
pub fn check_cycles(graph: &Graph) -> (r: Vec<LintDiagnostic>)
    ensures
        cycle_report(graph.view_graph(), diags_view(r@)),
{
    let ghost g = graph.view_graph();
    let ghost ids = ids_of(g.blocks);
    let ghost cyc = cycle_ids(g);
    let idv = block_ids(graph.blocks.as_slice());
    let nodes = dedup_strings(&idv);
    proof {
        lemma_dedup(ids);
    }
    let pairs = resolve_edges(&nodes, graph.edges.as_slice());
    let ghost nv = strs_view(nodes@);
    let n = nodes.len();
    let mut diags: Vec<LintDiagnostic> = Vec::new();
    let mut i: usize = 0;
    proof {
        assert(g.blocks.take(0) =~= Seq::<BlockV>::empty());
        assert(diags_view(diags@) =~= Seq::<LintV>::empty());
        assert forall|r: int| 0 <= r < pairs@.len() implies (#[trigger] pairs@[r]).0 < n && pairs@[r].1 < n by {}
    }
    while i < graph.blocks.len()
        invariant
            i <= graph.blocks@.len(),
            g == graph.view_graph(),
            ids == ids_of(g.blocks),
            cyc == cycle_ids(g),
            nv == strs_view(nodes@),
            n == nodes@.len(),
            nv.no_duplicates(),
            forall|x: Seq<char>| nv.contains(x) <==> ids.contains(x),
            resolves(nv, g.edges, pairs@),
            forall|r: int| 0 <= r < pairs@.len() ==> (#[trigger] pairs@[r]).0 < n && pairs@[r].1 < n,
            diags_view(diags@) == cycle_diags(g.blocks.take(i as int), cyc),
        decreases graph.blocks@.len() - i,
    {
        proof {
            assert(g.blocks.take(i + 1).drop_last() =~= g.blocks.take(i as int));
            assert(g.blocks.take(i + 1).last() == g.blocks[i as int]);
            assert(ids[i as int] == g.blocks[i as int].id);
            assert(ids.contains(ids[i as int]));
        }
        let b = &graph.blocks[i];
        match find_id(&nodes, &b.id) {
            Some(k) => {
                let on = reaches_self(k, n, &pairs);
                proof {
                    assert(nv[k as int] == b.id@);
                    lemma_on_cycle_reaches(ids, nv, g.edges, pairs@, k as int);
                    assert(cyc.contains(b.id@) == on);
                }
                if on {
                    let mut m = string_of("Block \"");
                    push_str(&mut m, b.block_type.as_str());
                    push_str(&mut m, "\" (");
                    push_str(&mut m, b.id.as_str());
                    push_str(&mut m, ") is part of a cycle");
                    push_diag(&mut diags, diag(Severity::Error, m, b.loc, "cycle"));
                }
            },
            None => {
                proof {
                    assert(nv.contains(b.id@));
                    let w = choose|w: int| 0 <= w < nv.len() && nv[w] == b.id@;
                    assert(nodes@[w]@ == b.id@);
                }
            },
        }
        i = i + 1;
    }
    proof {
        assert(g.blocks.take(i as int) =~= g.blocks);
    }
    diags
}

// ---------------------------------------------------------------------------
// All rules
// ---------------------------------------------------------------------------

/// The diagnostics of all rules in order, given the cycle, parameter and
/// shape diagnostics; shape checks are left out when there are cycles.
pub open spec fn lint_all(
    blocks: Seq<Block>,
    g: GraphV,
    names: Set<Seq<char>>,
    cycles: Seq<LintV>,
    params: Seq<LintV>,
    shapes: Seq<LintV>,
) -> Seq<LintV> {
    cycles + missing_plugin_diags(g.blocks, names) + params + (if cycles.len() == 0 {
        shapes
    } else {
        Seq::empty()
    }) + dup_name_diags(g.edges, dedup(tensor_names(g.edges))) + undefined_ref_diags(blocks, tensor_names(g.edges))
        + unused_tensor_diags(g.blocks, g.edges)
}

/// Runs all lint rules: cycles first; then unknown block types, missing
/// parameters, shape compatibility (skipped when there are cycles),
/// duplicate tensor names, undefined tensor references and unused tensors.
pub fn lint(graph: &Graph, registry: &BlockRegistry) -> (r: Vec<LintDiagnostic>)
    ensures
        exists|cycles: Seq<LintV>, params: Seq<LintV>, shapes: Seq<LintV>|
            #![trigger lint_all(graph.blocks@, graph.view_graph(), registry.blocks.map().dom(), cycles, params, shapes)]
            cycle_report(graph.view_graph(), cycles) && param_report(graph.view_graph(), registry.blocks.map(), params)
                && (cycles.len() == 0 ==> shape_report(graph.view_graph(), registry.blocks.map(), shapes))
                && diags_view(r@) == lint_all(
                graph.blocks@,
                graph.view_graph(),
                registry.blocks.map().dom(),
                cycles,
                params,
                shapes,
            ),
{
    let ghost g = graph.view_graph();
    let ghost names = registry.blocks.map().dom();
    let mut diags: Vec<LintDiagnostic> = Vec::new();
    let cycle_errors = check_cycles(graph);
    let has_cycles = cycle_errors.len() > 0;
    let ghost c = diags_view(cycle_errors@);
    append_diags(&mut diags, cycle_errors);
    append_diags(&mut diags, check_missing_plugins(graph, registry));
    let pd = check_missing_params(graph, registry);
    let ghost p = diags_view(pd@);
    append_diags(&mut diags, pd);
    let ghost mut sh: Seq<LintV> = Seq::empty();
    if !has_cycles {
        let sd = check_shapes(graph, registry);
        proof {
            sh = diags_view(sd@);
        }
        append_diags(&mut diags, sd);
    }
    append_diags(&mut diags, check_duplicate_tensor_names(graph));
    append_diags(&mut diags, check_undefined_tensor_refs(graph));
    append_diags(&mut diags, check_unused_tensors(graph));
    proof {
        if has_cycles {
            assert(c.len() > 0);
        }
        assert(diags_view(diags@) =~= lint_all(graph.blocks@, g, names, c, p, sh));
    }
    diags
}

/// The word that a report line starts with for `sev`.
pub open spec fn severity_word(sev: Severity) -> Seq<char> {
    match sev {
        Severity::Error => "ERROR"@,
        Severity::Warning => "WARNING"@,
    }
}

/// A finding as one line of a report: `SEVERITY [rule] at line:col: message`.
pub open spec fn report_line(d: LintDiagnostic) -> Seq<char> {
    severity_word(d.severity) + " ["@ + d.rule@ + "] at "@ + decimal(d.loc.line as nat) + ":"@ + decimal(
        d.loc.col as nat,
    ) + ": "@ + d.message@
}

/// The report line of a finding, such as
/// `ERROR [missing-param] at 3:5: Block "Conv2d" is missing required param "kernel"`.
pub fn format_report_line(d: &LintDiagnostic) -> (r: String)
    ensures
        r@ == report_line(*d),
{
    let mut out = match d.severity {
        Severity::Error => string_of("ERROR"),
        Severity::Warning => string_of("WARNING"),
    };
    push_str(&mut out, " [");
    push_str(&mut out, d.rule.as_str());
    push_str(&mut out, "] at ");
    let line = usize_to_string(d.loc.line);
    push_str(&mut out, line.as_str());
    push_str(&mut out, ":");
    let col = usize_to_string(d.loc.col);
    push_str(&mut out, col.as_str());
    push_str(&mut out, ": ");
    push_str(&mut out, d.message.as_str());
    proof {
        reveal_strlit("ERROR");
        reveal_strlit("WARNING");
        reveal_strlit(" [");
        reveal_strlit("] at ");
        reveal_strlit(":");
        reveal_strlit(": ");
    }
    out
}

} // verus!
