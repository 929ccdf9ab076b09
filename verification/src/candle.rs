//! The Candle (Rust) code-generation target.
use vstd::prelude::*;

use crate::codegen::{RegisteredTarget, BlockCodegenResult, CandleInitOrString, CodegenRegistry, CodegenTarget, GeneratedFile, InitV, TargetRegistry, indent_lines, indented, replace_all, snake_case, to_snake_case};
use crate::graph_builder::named_view;
use crate::keras::{input_vars_of, next_count};
use crate::graph::{Block, BlockV, EdgeV, Graph, GraphV, Shape, blocks_view, edges_view, shapes_view};
use crate::graph_utils::{acyclic, adjacency_entry, build_adjacency, ids_of, inputs_of, last_with_id, outputs_of, topo_sort, NodeInfo};
use crate::strmap::StrMap;
use crate::text::{clone_string, decimal, join, join_strings, lemma_join_append, push_str, str_eq, string_of, strs_view, usize_to_string};

verus! {

// ---------------------------------------------------------------------------
// Shared pieces
// ---------------------------------------------------------------------------

/// The model (class) name: the first segment of the first group's path,
/// else "Model".
pub open spec fn class_name_of(g: GraphV) -> Seq<char> {
    if g.groups.len() > 0 && g.groups[0].path.len() > 0 {
        g.groups[0].path[0]
    } else {
        "Model"@
    }
}

/// The class name of a graph.
pub fn model_class_name(graph: &Graph) -> (r: String)
    ensures
        r@ == class_name_of(graph.view_graph()),
{
    if graph.groups.len() > 0 && graph.groups[0].path.len() > 0 {
        clone_string(&graph.groups[0].path[0])
    } else {
        string_of("Model")
    }
}

/// The tensor name of the last named edge leaving `id`, if any.
pub open spec fn named_output(es: Seq<EdgeV>, id: Seq<char>) -> Option<Seq<char>>
    decreases es.len(),
{
    if es.len() == 0 {
        None
    } else if es.last().from == id && es.last().tensor_name is Some {
        es.last().tensor_name
    } else {
        named_output(es.drop_last(), id)
    }
}

/// The tensor name of the last named edge leaving `id`, if any.
pub fn find_named_output(graph: &Graph, id: &String) -> (r: Option<String>)
    ensures
        match r {
            Some(n) => named_output(edges_view(graph.edges@), id@) == Some(n@),
            None => named_output(edges_view(graph.edges@), id@) is None,
        },
{
    let ghost es = edges_view(graph.edges@);
    let mut k: usize = graph.edges.len();
    proof {
        assert(es.take(k as int) =~= es);
    }
    while k > 0
        invariant
            k <= graph.edges@.len(),
            es == edges_view(graph.edges@),
            named_output(es, id@) == named_output(es.take(k as int), id@),
        decreases k,
    {
        proof {
            assert(es.take(k as int).drop_last() =~= es.take(k - 1));
            assert(es.take(k as int).last() == es[k - 1]);
        }
        let e = &graph.edges[k - 1];
        if str_eq(e.from.as_str(), id.as_str()) {
            match &e.tensor_name {
                Some(n) => {
                    return Some(clone_string(n));
                },
                None => {},
            }
        }
        k = k - 1;
    }
    None
}

/// The `k`-th variable name: `x`, then `x2`, `x3`, ...
pub open spec fn var_name(k: nat) -> Seq<char> {
    if k == 1 {
        "x"@
    } else {
        "x"@ + decimal(k)
    }
}

pub fn var_name_exec(k: usize) -> (r: String)
    ensures
        r@ == var_name(k as nat),
{
    if k == 1 {
        string_of("x")
    } else {
        let mut s = string_of("x");
        let d = usize_to_string(k);
        push_str(&mut s, d.as_str());
        s
    }
}

/// The code for a block without a generator: its first input passed through.
pub open spec fn fallback_forward(block_type: Seq<char>, input_vars: Seq<Seq<char>>) -> Seq<char> {
    (if input_vars.len() > 0 {
        input_vars[0]
    } else {
        "x"@
    }) + " /* "@ + block_type + " — custom block, passthrough in generated code */"@
}

/// Code for a block that has no generator for the target: no init, and a
/// forward line that passes the first input through.
pub fn fallback_codegen(block: &Block, input_vars: &Vec<String>) -> (r: BlockCodegenResult)
    ensures
        r.init is None,
        r.forward@ == fallback_forward(block.block_type@, strs_view(input_vars@)),
{
    let mut f = if input_vars.len() > 0 {
        clone_string(&input_vars[0])
    } else {
        string_of("x")
    };
    push_str(&mut f, " /* ");
    push_str(&mut f, block.block_type.as_str());
    push_str(&mut f, " — custom block, passthrough in generated code */");
    BlockCodegenResult { init: None, forward: f }
}

/// Whether `f` can be the forward code of `block` for `target`: the
/// pass-through of its first input when no generator is registered; what
/// the registered generator gives for the block and its input and output
/// variables when that generator publishes it.
pub open spec fn forward_fits(
    codegens: CodegenRegistry,
    target: Seq<char>,
    block: BlockV,
    input_vars: Seq<Seq<char>>,
    output_vars: Seq<Seq<char>>,
    f: Seq<char>,
) -> bool {
    if !codegens.has(block.block_type, target) {
        f == fallback_forward(block.block_type, input_vars)
    } else {
        let gen = codegens.by_type.map()[block.block_type].map()[target];
        gen.obeys_codegen_spec() ==> f == gen.spec_codegen(block, input_vars, output_vars).forward
    }
}

/// Whether `init` can be the init part of `block`'s code for `target`: none
/// when no generator is registered; what the registered generator gives for
/// the block and its input and output variables when that generator
/// publishes it.
pub open spec fn init_fits(
    codegens: CodegenRegistry,
    target: Seq<char>,
    block: BlockV,
    input_vars: Seq<Seq<char>>,
    output_vars: Seq<Seq<char>>,
    init: Option<InitV>,
) -> bool {
    if !codegens.has(block.block_type, target) {
        init is None
    } else {
        let gen = codegens.by_type.map()[block.block_type].map()[target];
        gen.obeys_codegen_spec() ==> init == gen.spec_codegen(block, input_vars, output_vars).init
    }
}

/// The block's code from its generator for `target`, or the fallback.
pub fn block_code(
    codegens: &CodegenRegistry,
    target: &str,
    block: &Block,
    input_vars: &Vec<String>,
    output_vars: &Vec<String>,
) -> (r: BlockCodegenResult)
    ensures
        forward_fits(
            *codegens,
            target@,
            block.view_block(),
            strs_view(input_vars@),
            strs_view(output_vars@),
            r.forward@,
        ),
        init_fits(
            *codegens,
            target@,
            block.view_block(),
            strs_view(input_vars@),
            strs_view(output_vars@),
            r.cview().init,
        ),
        !codegens.has(block.block_type@, target@) ==> r.init is None && r.forward@ == fallback_forward(
            block.block_type@,
            strs_view(input_vars@),
        ),
{
    match codegens.get_block_codegen(block.block_type.as_str(), target) {
        Some(g) => g.codegen(block, input_vars.as_slice(), output_vars.as_slice()),
        None => fallback_codegen(block, input_vars),
    }
}

/// `[1]` followed by the dimensions of `s`: the shape with a batch
/// dimension.
pub open spec fn batched(s: Seq<usize>) -> Seq<usize> {
    seq![1usize] + s
}

pub fn batched_exec(s: &Shape) -> (r: Shape)
    ensures
        r@ == batched(s@),
{
    let mut out: Vec<usize> = Vec::new();
    out.push(1);
    let mut i: usize = 0;
    while i < s.len()
        invariant
            i <= s@.len(),
            out@ == batched(s@.take(i as int)),
        decreases s@.len() - i,
    {
        out.push(s[i]);
        proof {
            assert(batched(s@.take(i + 1)) =~= batched(s@.take(i as int)).push(s@[i as int]));
        }
        i = i + 1;
    }
    proof {
        assert(s@.take(i as int) =~= s@);
    }
    out
}

/// The batched first output shapes of the `Input` blocks that have one, in
/// order.
pub open spec fn test_input_shapes(bs: Seq<BlockV>) -> Seq<Seq<usize>>
    decreases bs.len(),
{
    if bs.len() == 0 {
        Seq::empty()
    } else {
        let rest = test_input_shapes(bs.drop_last());
        let b = bs.last();
        if b.block_type == "Input"@ && b.output_shapes.len() > 0 {
            rest.push(batched(b.output_shapes[0]))
        } else {
            rest
        }
    }
}

/// The batched first input shape of the first `Output` block, if it has one.
pub open spec fn test_output_shape(bs: Seq<BlockV>) -> Option<Seq<usize>>
    decreases bs.len(),
{
    if bs.len() == 0 {
        None
    } else if bs[0].block_type == "Output"@ {
        if bs[0].input_shapes.len() > 0 {
            Some(batched(bs[0].input_shapes[0]))
        } else {
            None
        }
    } else {
        test_output_shape(bs.drop_first())
    }
}

pub fn collect_test_inputs(sorted: &Vec<Block>) -> (r: Vec<Shape>)
    ensures
        shapes_view(r@) == test_input_shapes(blocks_view(sorted@)),
{
    let ghost bs = blocks_view(sorted@);
    let mut out: Vec<Shape> = Vec::new();
    let mut i: usize = 0;
    proof {
        assert(bs.take(0) =~= Seq::<BlockV>::empty());
        assert(shapes_view(out@) =~= Seq::<Seq<usize>>::empty());
    }
    while i < sorted.len()
        invariant
            i <= sorted@.len(),
            bs == blocks_view(sorted@),
            shapes_view(out@) == test_input_shapes(bs.take(i as int)),
        decreases sorted@.len() - i,
    {
        proof {
            assert(bs.take(i + 1).drop_last() =~= bs.take(i as int));
            assert(bs.take(i + 1).last() == bs[i as int]);
        }
        let b = &sorted[i];
        if str_eq(b.block_type.as_str(), "Input") && b.output_shapes.len() > 0 {
            let s = batched_exec(&b.output_shapes[0]);
            let ghost before = shapes_view(out@);
            out.push(s);
            proof {
                assert(shapes_view(out@) =~= before.push(s@));
            }
        }
        i = i + 1;
    }
    proof {
        assert(bs.take(i as int) =~= bs);
    }
    out
}

pub fn find_test_output(sorted: &Vec<Block>) -> (r: Option<Shape>)
    ensures
        match r {
            Some(s) => test_output_shape(blocks_view(sorted@)) == Some(s@),
            None => test_output_shape(blocks_view(sorted@)) is None,
        },
{
    let ghost bs = blocks_view(sorted@);
    let mut i: usize = 0;
    proof {
        assert(bs.skip(0) =~= bs);
    }
    while i < sorted.len()
        invariant
            i <= sorted@.len(),
            bs == blocks_view(sorted@),
            test_output_shape(bs) == test_output_shape(bs.skip(i as int)),
        decreases sorted@.len() - i,
    {
        proof {
            assert(bs.skip(i as int).drop_first() =~= bs.skip(i + 1));
            assert(bs.skip(i as int)[0] == bs[i as int]);
        }
        let b = &sorted[i];
        if str_eq(b.block_type.as_str(), "Output") {
            if b.input_shapes.len() > 0 {
                return Some(batched_exec(&b.input_shapes[0]));
            } else {
                return None;
            }
        }
        i = i + 1;
    }
    None
}

/// The dimensions joined with `", "`.
pub open spec fn dims_list(d: Seq<usize>) -> Seq<char> {
    join(Seq::new(d.len(), |i: int| decimal(d[i] as nat)), ", "@)
}

pub fn dims_list_exec(d: &Shape) -> (r: String)
    ensures
        r@ == dims_list(d@),
{
    let mut parts: Vec<String> = Vec::new();
    let mut i: usize = 0;
    while i < d.len()
        invariant
            i <= d@.len(),
            strs_view(parts@) == Seq::new(i as nat, |k: int| decimal(d@[k] as nat)),
        decreases d@.len() - i,
    {
        let ghost before = strs_view(parts@);
        let ds = usize_to_string(d[i]);
        parts.push(ds);
        proof {
            assert(strs_view(parts@) =~= before.push(ds@));
            assert(strs_view(parts@) =~= Seq::new((i + 1) as nat, |k: int| decimal(d@[k] as nat)));
        }
        i = i + 1;
    }
    join_strings(&parts, ", ")
}

/// Whether `c` is white space (Unicode `White_Space`, as `char::is_whitespace`).
pub open spec fn is_ws(c: char) -> bool {
    ||| c == '\t' || c == '\n' || c == '\u{B}' || c == '\u{C}' || c == '\r' || c == ' '
    ||| c == '\u{85}' || c == '\u{A0}' || c == '\u{1680}'
    ||| ('\u{2000}' <= c && c <= '\u{200A}')
    ||| c == '\u{2028}' || c == '\u{2029}' || c == '\u{202F}' || c == '\u{205F}' || c == '\u{3000}'
}

pub fn is_ws_exec(c: char) -> (r: bool)
    ensures
        r == is_ws(c),
{
    c == '\t' || c == '\n' || c == '\u{B}' || c == '\u{C}' || c == '\r' || c == ' ' || c == '\u{85}' || c
        == '\u{A0}' || c == '\u{1680}' || ('\u{2000}' <= c && c <= '\u{200A}') || c == '\u{2028}' || c
        == '\u{2029}' || c == '\u{202F}' || c == '\u{205F}' || c == '\u{3000}'
}

/// The first index at or after `i` that is not white space (or the length).
pub open spec fn skip_ws(s: Seq<char>, i: int) -> int
    decreases s.len() - i,
{
    if i >= s.len() || !is_ws(s[i]) {
        i
    } else {
        skip_ws(s, i + 1)
    }
}

/// The end of `s[..j]` without trailing white space, not below `lo`.
pub open spec fn trim_end_at(s: Seq<char>, lo: int, j: int) -> int
    decreases j - lo,
{
    if j <= lo || !is_ws(s[j - 1]) {
        j
    } else {
        trim_end_at(s, lo, j - 1)
    }
}

/// `s` without leading and trailing white space.
pub open spec fn trim_ws(s: Seq<char>) -> Seq<char> {
    let a = skip_ws(s, 0);
    let b = trim_end_at(s, a, s.len() as int);
    s.subrange(a, b)
}

/// `s` up to its first `:` (all of it when there is none).
pub open spec fn before_colon(s: Seq<char>) -> Seq<char> {
    if exists|i: int| 0 <= i < s.len() && s[i] == ':' {
        s.subrange(0, choose|i: int| 0 <= i < s.len() && s[i] == ':' && forall|j: int| 0 <= j < i ==> s[j] != ':')
    } else {
        s
    }
}

/// The variable of a parameter declaration such as `x: &Tensor`.
pub open spec fn param_var(p: Seq<char>) -> Seq<char> {
    trim_ws(before_colon(p))
}

pub proof fn lemma_skip_ws(s: Seq<char>, i: int)
    requires
        0 <= i <= s.len(),
    ensures
        i <= skip_ws(s, i) <= s.len(),
    decreases s.len() - i,
{
    if i < s.len() && is_ws(s[i]) {
        lemma_skip_ws(s, i + 1);
    }
}

pub proof fn lemma_trim_end(s: Seq<char>, lo: int, j: int)
    requires
        0 <= lo <= j <= s.len(),
    ensures
        lo <= trim_end_at(s, lo, j) <= j,
    decreases j - lo,
{
    if j > lo && is_ws(s[j - 1]) {
        lemma_trim_end(s, lo, j - 1);
    }
}

/// The variable name of a parameter declaration: the text before the first
/// `:`, trimmed.
pub fn param_var_exec(p: &String) -> (r: String)
    ensures
        r@ == param_var(p@),
{
    let n = p.unicode_len();
    let ghost s = p@;
    let mut e: usize = 0;
    while e < n && p.get_char(e) != ':'
        invariant
            e <= n,
            n == s.len(),
            s == p@,
            forall|j: int| 0 <= j < e ==> s[j] != ':',
        decreases n - e,
    {
        e = e + 1;
    }
    let ghost bc = s.subrange(0, e as int);
    proof {
        if e < n {
            assert(s[e as int] == ':');
            let c = choose|i: int| 0 <= i < s.len() && s[i] == ':' && forall|j: int| 0 <= j < i ==> s[j] != ':';
            if c < e {
                assert(s[c] != ':');
            }
            if c > e {
                assert(s[e as int] != ':');
            }
            assert(before_colon(s) == bc);
        } else {
            assert(bc =~= s);
            assert(before_colon(s) == bc);
        }
    }
    let mut a: usize = 0;
    while a < e && is_ws_exec(p.get_char(a))
        invariant
            a <= e,
            e <= n,
            n == s.len(),
            s == p@,
            bc == s.subrange(0, e as int),
            skip_ws(bc, 0) == skip_ws(bc, a as int),
        decreases e - a,
    {
        a = a + 1;
    }
    let mut b: usize = e;
    proof {
        lemma_skip_ws(bc, 0);
        assert(skip_ws(bc, a as int) == a);
    }
    while b > a && is_ws_exec(p.get_char(b - 1))
        invariant
            a <= b <= e,
            e <= n,
            n == s.len(),
            s == p@,
            bc == s.subrange(0, e as int),
            trim_end_at(bc, a as int, e as int) == trim_end_at(bc, a as int, b as int),
        decreases b,
    {
        b = b - 1;
    }
    proof {
        assert(trim_end_at(bc, a as int, b as int) == b);
        assert(trim_ws(bc) =~= s.subrange(a as int, b as int));
    }
    let r = p.as_str().substring_char(a, b);
    string_of(r)
}

/// A shape as a Rust slice literal: `&[1, 28, 28]`, or `&[]`.
pub open spec fn format_shape(s: Seq<usize>) -> Seq<char> {
    if s.len() == 0 {
        "&[]"@
    } else {
        "&["@ + dims_list(s) + "]"@
    }
}

pub fn format_shape_exec(s: &Shape) -> (r: String)
    ensures
        r@ == format_shape(s@),
{
    if s.len() == 0 {
        string_of("&[]")
    } else {
        let mut r = string_of("&[");
        let d = dims_list_exec(s);
        push_str(&mut r, d.as_str());
        push_str(&mut r, "]");
        r
    }
}

/// The test module appended to generated Candle code: a forward-shape test
/// and a save/load round trip, with one random input per forward parameter.
/// Empty without an output shape or without forward parameters.
pub open spec fn candle_test_module(
    class_name: Seq<char>,
    params: Seq<Seq<char>>,
    input_shapes: Seq<Seq<usize>>,
    output_shape: Option<Seq<usize>>,
) -> Seq<char> {
    match output_shape {
        None => Seq::empty(),
        Some(out) => if params.len() == 0 {
            Seq::empty()
        } else {
            let names = Seq::new(params.len(), |i: int| param_var(params[i]));
            let shapes = if params.len() != input_shapes.len() {
                Seq::new(
                    params.len(),
                    |i: int|
                        if input_shapes.len() > 0 {
                            input_shapes[0]
                        } else {
                            Seq::<usize>::empty()
                        },
                )
            } else {
                input_shapes
            };
            let input_tensors = join(
                Seq::new(
                    names.len(),
                    |i: int|
                        "        let "@ + names[i] + " = candle_core::Tensor::randn(0f32, 1.0, "@ + format_shape(
                            shapes[i],
                        ) + ", &dev)?;"@,
                ),
                "\n"@,
            );
            let forward_args_str = join(Seq::new(names.len(), |i: int| "&"@ + names[i]), ", "@);
            let output_shape_slice = format_shape(out);
            "\n\n#[allow(warnings)]\n#[cfg(test)]\nmod tests {\n    use super::*;\n    use candle_nn::VarMap;\n\n    fn setup() -> (candle_core::Device, VarMap, candle_nn::VarBuilder<'static>) {\n        let dev = candle_core::Device::Cpu;\n        let varmap = VarMap::new();\n        let vb = candle_nn::VarBuilder::from_varmap(&varmap, candle_core::DType::F32, &dev);\n        (dev, varmap, vb)\n    }\n\n    #[test]\n    fn test_forward() -> candle_core::Result<()> {\n        let (dev, _varmap, vb) = setup();\n        let model = "@ + class_name + "::new(vb)?;\n"@ + input_tensors + "\n        let output = model.forward("@ + forward_args_str + ")?;\n        assert_eq!(output.dims(), "@ + output_shape_slice + ");\n        Ok(())\n    }\n\n    #[test]\n    fn test_save_load() -> candle_core::Result<()> {\n        let (dev, varmap, vb) = setup();\n        let model = "@ + class_name + "::new(vb)?;\n"@ + input_tensors + "\n        let output_before = model.forward("@ + forward_args_str + ")?;\n\n        let dir = std::env::temp_dir().join(\"mlmd-e2e\");\n        std::fs::create_dir_all(&dir).expect(\"failed to create temp dir\");\n        let path = dir.join(\""@ + class_name + ".safetensors\");\n        let _ = std::fs::remove_file(&path);\n        varmap.save(&path)?;\n\n        let mut varmap2 = VarMap::new();\n        let vb2 = candle_nn::VarBuilder::from_varmap(&varmap2, candle_core::DType::F32, &dev);\n        let model2 = "@ + class_name + "::new(vb2)?;\n        varmap2.load(&path)?;\n        let output_after = model2.forward("@ + forward_args_str + ")?;\n\n        let diff = (output_before - &output_after)?.abs()?.sum_all()?;\n        assert!(diff.to_vec0::<f32>()? < 1e-5);\n\n        let _ = std::fs::remove_file(&path);\n        Ok(())\n    }\n}\n"@
        },
    }
}

/// The test module appended to generated Candle code.
pub fn generate_test_module(
    class_name: &str,
    forward_params: &Vec<String>,
    input_shapes: &Vec<Shape>,
    output_shape: &Option<Shape>,
) -> (r: String)
    ensures
        r@ == candle_test_module(class_name@, strs_view(forward_params@), shapes_view(input_shapes@), match output_shape {
            Some(s) => Some(s@),
            None => None,
        }),
{
    let out = match output_shape {
        Some(o) => o,
        None => {
            return String::new();
        },
    };
    if forward_params.len() == 0 {
        return String::new();
    }
    let ghost params = strs_view(forward_params@);
    let ghost ins = shapes_view(input_shapes@);
    let ghost names = Seq::new(params.len(), |i: int| param_var(params[i]));
    let ghost shapes = if params.len() != ins.len() {
        Seq::new(params.len(), |i: int| if ins.len() > 0 { ins[0] } else { Seq::<usize>::empty() })
    } else {
        ins
    };
    let n = forward_params.len();
    let mut tensor_lines: Vec<String> = Vec::new();
    let mut args: Vec<String> = Vec::new();
    let mut i: usize = 0;
    while i < n
        invariant
            i <= n,
            n == forward_params@.len(),
            params == strs_view(forward_params@),
            ins == shapes_view(input_shapes@),
            names == Seq::new(params.len(), |i: int| param_var(params[i])),
            shapes == if params.len() != ins.len() {
                Seq::new(params.len(), |i: int| if ins.len() > 0 { ins[0] } else { Seq::<usize>::empty() })
            } else {
                ins
            },
            strs_view(tensor_lines@) == Seq::new(
                i as nat,
                |k: int|
                    "        let "@ + names[k] + " = candle_core::Tensor::randn(0f32, 1.0, "@ + format_shape(shapes[k])
                        + ", &dev)?;"@,
            ),
            strs_view(args@) == Seq::new(i as nat, |k: int| "&"@ + names[k]),
        decreases n - i,
    {
        let name = param_var_exec(&forward_params[i]);
        let shape_text = if n != input_shapes.len() {
            if input_shapes.len() > 0 {
                format_shape_exec(&input_shapes[0])
            } else {
                string_of("&[]")
            }
        } else {
            format_shape_exec(&input_shapes[i])
        };
        proof {
            if n != input_shapes.len() && input_shapes.len() == 0 {
                assert(shapes[i as int] =~= Seq::<usize>::empty());
            }
            assert(shape_text@ == format_shape(shapes[i as int]));
        }
        let mut line = string_of("        let ");
        push_str(&mut line, name.as_str());
        push_str(&mut line, " = candle_core::Tensor::randn(0f32, 1.0, ");
        push_str(&mut line, shape_text.as_str());
        push_str(&mut line, ", &dev)?;");
        let ghost t0 = strs_view(tensor_lines@);
        let ghost lv = line@;
        tensor_lines.push(line);
        let mut arg = string_of("&");
        push_str(&mut arg, name.as_str());
        let ghost a0 = strs_view(args@);
        let ghost av = arg@;
        args.push(arg);
        proof {
            assert(strs_view(tensor_lines@) =~= t0.push(lv));
            assert(strs_view(args@) =~= a0.push(av));
            assert(strs_view(tensor_lines@) =~= Seq::new(
                (i + 1) as nat,
                |k: int|
                    "        let "@ + names[k] + " = candle_core::Tensor::randn(0f32, 1.0, "@ + format_shape(shapes[k])
                        + ", &dev)?;"@,
            ));
            assert(strs_view(args@) =~= Seq::new((i + 1) as nat, |k: int| "&"@ + names[k]));
        }
        i = i + 1;
    }
    let input_tensors = join_strings(&tensor_lines, "\n");
    let forward_args_str = join_strings(&args, ", ");
    let output_shape_slice = format_shape_exec(out);
    let class_name = string_of(class_name);
    let mut s = String::new();
    push_str(&mut s, "\n\n#[allow(warnings)]\n#[cfg(test)]\nmod tests {\n    use super::*;\n    use candle_nn::VarMap;\n\n    fn setup() -> (candle_core::Device, VarMap, candle_nn::VarBuilder<'static>) {\n        let dev = candle_core::Device::Cpu;\n        let varmap = VarMap::new();\n        let vb = candle_nn::VarBuilder::from_varmap(&varmap, candle_core::DType::F32, &dev);\n        (dev, varmap, vb)\n    }\n\n    #[test]\n    fn test_forward() -> candle_core::Result<()> {\n        let (dev, _varmap, vb) = setup();\n        let model = ");
    push_str(&mut s, class_name.as_str());
    push_str(&mut s, "::new(vb)?;\n");
    push_str(&mut s, input_tensors.as_str());
    push_str(&mut s, "\n        let output = model.forward(");
    push_str(&mut s, forward_args_str.as_str());
    push_str(&mut s, ")?;\n        assert_eq!(output.dims(), ");
    push_str(&mut s, output_shape_slice.as_str());
    push_str(&mut s, ");\n        Ok(())\n    }\n\n    #[test]\n    fn test_save_load() -> candle_core::Result<()> {\n        let (dev, varmap, vb) = setup();\n        let model = ");
    push_str(&mut s, class_name.as_str());
    push_str(&mut s, "::new(vb)?;\n");
    push_str(&mut s, input_tensors.as_str());
    push_str(&mut s, "\n        let output_before = model.forward(");
    push_str(&mut s, forward_args_str.as_str());
    push_str(&mut s, ")?;\n\n        let dir = std::env::temp_dir().join(\"mlmd-e2e\");\n        std::fs::create_dir_all(&dir).expect(\"failed to create temp dir\");\n        let path = dir.join(\"");
    push_str(&mut s, class_name.as_str());
    push_str(&mut s, ".safetensors\");\n        let _ = std::fs::remove_file(&path);\n        varmap.save(&path)?;\n\n        let mut varmap2 = VarMap::new();\n        let vb2 = candle_nn::VarBuilder::from_varmap(&varmap2, candle_core::DType::F32, &dev);\n        let model2 = ");
    push_str(&mut s, class_name.as_str());
    push_str(&mut s, "::new(vb2)?;\n        varmap2.load(&path)?;\n        let output_after = model2.forward(");
    push_str(&mut s, forward_args_str.as_str());
    push_str(&mut s, ")?;\n\n        let diff = (output_before - &output_after)?.abs()?.sum_all()?;\n        assert!(diff.to_vec0::<f32>()? < 1e-5);\n\n        let _ = std::fs::remove_file(&path);\n        Ok(())\n    }\n}\n");
    s
}

// ---------------------------------------------------------------------------
// The generated file
// ---------------------------------------------------------------------------

/// How many of the `Input` blocks of `bs` have no named output.
pub open spec fn unnamed_inputs(bs: Seq<BlockV>, es: Seq<EdgeV>) -> nat
    decreases bs.len(),
{
    if bs.len() == 0 {
        0
    } else {
        let b = bs.last();
        unnamed_inputs(bs.drop_last(), es) + if b.block_type == "Input"@ && named_output(es, b.id) is None {
            1nat
        } else {
            0nat
        }
    }
}

/// The forward parameter of each `Input` block, in order: its tensor name,
/// else `x`, `x2`, ... counting the unnamed ones.
pub open spec fn input_param_names(bs: Seq<BlockV>, es: Seq<EdgeV>) -> Seq<Seq<char>>
    decreases bs.len(),
{
    if bs.len() == 0 {
        Seq::empty()
    } else {
        let b = bs.last();
        let rest = input_param_names(bs.drop_last(), es);
        if b.block_type == "Input"@ {
            rest.push(
                match named_output(es, b.id) {
                    Some(n) => n,
                    None => var_name(unnamed_inputs(bs, es)),
                },
            )
        } else {
            rest
        }
    }
}

proof fn lemma_var_name_injective(a: nat, b: nat)
    requires
        a >= 1,
        b >= 1,
        var_name(a) == var_name(b),
    ensures
        a == b,
{
    reveal_strlit("x");
    crate::graph_builder::lemma_decimal_digits(a);
    crate::graph_builder::lemma_decimal_digits(b);
    if a != 1 && b != 1 {
        let da = decimal(a);
        let db = decimal(b);
        assert(var_name(a).subrange(1, var_name(a).len() as int) =~= da);
        assert(var_name(b).subrange(1, var_name(b).len() as int) =~= db);
        crate::graph_builder::lemma_decimal_injective(a, b);
    } else if a == 1 && b != 1 {
        assert(var_name(b).len() >= 2);
    } else if b == 1 && a != 1 {
        assert(var_name(a).len() >= 2);
    }
}

/// Where a forward parameter name comes from: the tensor an `Input` block of
/// `bs` names, or one of the first `count` generated names.
pub open spec fn param_source(bs: Seq<BlockV>, es: Seq<EdgeV>, x: Seq<char>, count: nat) -> bool {
    ||| exists|i: int| 0 <= i < bs.len() && bs[i].block_type == "Input"@ && named_output(es, bs[i].id) == Some(x)
    ||| exists|k: nat| 1 <= k <= count && x == var_name(k)
}

proof fn lemma_unnamed_grows(bs: Seq<BlockV>, es: Seq<EdgeV>)
    requires
        bs.len() > 0,
    ensures
        unnamed_inputs(bs, es) >= unnamed_inputs(bs.drop_last(), es),
{
}

proof fn lemma_param_names(bs: Seq<BlockV>, es: Seq<EdgeV>)
    requires
        forall|i: int, j: int|
            #![trigger bs[i], bs[j]]
            0 <= i < j < bs.len() && bs[i].block_type == "Input"@ && bs[j].block_type == "Input"@ && named_output(
                es,
                bs[i].id,
            ) is Some ==> named_output(es, bs[i].id) != named_output(es, bs[j].id),
        forall|i: int, k: nat|
            #![trigger bs[i], var_name(k)]
            0 <= i < bs.len() && bs[i].block_type == "Input"@ && k >= 1 ==> named_output(es, bs[i].id) != Some(
                var_name(k),
            ),
    ensures
        input_param_names(bs, es).no_duplicates(),
        forall|q: int|
            0 <= q < input_param_names(bs, es).len() ==> param_source(
                bs,
                es,
                #[trigger] input_param_names(bs, es)[q],
                unnamed_inputs(bs, es),
            ),
        forall|k: nat| 1 <= k <= unnamed_inputs(bs, es) ==> input_param_names(bs, es).contains(#[trigger] var_name(k)),
    decreases bs.len(),
{
    if bs.len() > 0 {
        let d = bs.drop_last();
        let n = bs.len() - 1;
        assert forall|i: int, j: int|
            #![trigger d[i], d[j]]
            0 <= i < j < d.len() && d[i].block_type == "Input"@ && d[j].block_type == "Input"@ && named_output(
                es,
                d[i].id,
            ) is Some implies named_output(es, d[i].id) != named_output(es, d[j].id) by {
            assert(d[i] == bs[i] && d[j] == bs[j]);
        }
        assert forall|i: int, k: nat|
            #![trigger d[i], var_name(k)]
            0 <= i < d.len() && d[i].block_type == "Input"@ && k >= 1 implies named_output(es, d[i].id) != Some(
                var_name(k),
            ) by {
            assert(d[i] == bs[i]);
        }
        lemma_param_names(d, es);
        let rest = input_param_names(d, es);
        let names = input_param_names(bs, es);
        let b = bs.last();
        let u = unnamed_inputs(bs, es);
        let u0 = unnamed_inputs(d, es);
        if b.block_type == "Input"@ {
            let x = match named_output(es, b.id) {
                Some(nm) => nm,
                None => var_name(u),
            };
            assert(names == rest.push(x));
            assert(!rest.contains(x)) by {
                if rest.contains(x) {
                    let q = choose|q: int| 0 <= q < rest.len() && rest[q] == x;
                    if exists|i: int|
                        0 <= i < d.len() && d[i].block_type == "Input"@ && named_output(es, d[i].id) == Some(#[trigger] rest[q]) {
                        let i = choose|i: int|
                            0 <= i < d.len() && d[i].block_type == "Input"@ && named_output(es, d[i].id) == Some(#[trigger] rest[q]);
                        assert(d[i] == bs[i]);
                        match named_output(es, b.id) {
                            Some(nm) => {
                                assert(named_output(es, bs[i].id) != named_output(es, bs[n].id));
                            },
                            None => {
                                assert(named_output(es, bs[i].id) != Some(var_name(u)));
                            },
                        }
                    } else {
                        let k = choose|k: nat| 1 <= k <= u0 && rest[q] == var_name(k);
                        match named_output(es, b.id) {
                            Some(nm) => {
                                assert(named_output(es, bs[n].id) != Some(var_name(k)));
                            },
                            None => {
                                assert(u == u0 + 1);
                                lemma_var_name_injective(k, u);
                            },
                        }
                    }
                }
            }
            assert forall|q: int| 0 <= q < names.len() implies param_source(bs, es, #[trigger] names[q], u) by {
                if q < rest.len() {
                    assert(names[q] == rest[q]);
                    if exists|i: int|
                        0 <= i < d.len() && d[i].block_type == "Input"@ && named_output(es, d[i].id) == Some(#[trigger] rest[q]) {
                        let i = choose|i: int|
                            0 <= i < d.len() && d[i].block_type == "Input"@ && named_output(es, d[i].id) == Some(#[trigger] rest[q]);
                        assert(d[i] == bs[i]);
                    } else {
                        let k = choose|k: nat| 1 <= k <= u0 && rest[q] == var_name(k);
                    }
                } else {
                    assert(names[q] == x);
                    match named_output(es, b.id) {
                        Some(nm) => {
                            assert(bs[n] == b);
                        },
                        None => {},
                    }
                }
            }
            assert forall|k: nat| 1 <= k <= u implies names.contains(#[trigger] var_name(k)) by {
                if k <= u0 {
                    assert(rest.contains(var_name(k)));
                    let q = choose|q: int| 0 <= q < rest.len() && rest[q] == var_name(k);
                    assert(names[q] == var_name(k));
                } else {
                    assert(named_output(es, b.id) is None);
                    assert(names[rest.len() as int] == var_name(k));
                }
            }
        } else {
            assert(names == rest);
            assert(u == u0);
            assert forall|q: int| 0 <= q < names.len() implies param_source(bs, es, #[trigger] names[q], u) by {
                if exists|i: int|
                    0 <= i < d.len() && d[i].block_type == "Input"@ && named_output(es, d[i].id) == Some(#[trigger] rest[q]) {
                    let i = choose|i: int|
                        0 <= i < d.len() && d[i].block_type == "Input"@ && named_output(es, d[i].id) == Some(#[trigger] rest[q]);
                    assert(d[i] == bs[i]);
                }
            }
        }
    }
}

/// Whether a block is an `Input` block that names no tensor.
pub open spec fn unnamed_input(es: Seq<EdgeV>) -> spec_fn(BlockV) -> bool {
    |b: BlockV| b.block_type == "Input"@ && named_output(es, b.id) is None
}

/// Whether a block is an `Input` block.
pub open spec fn input_block() -> spec_fn(BlockV) -> bool {
    |b: BlockV| b.block_type == "Input"@
}

proof fn lemma_input_counts(bs: Seq<BlockV>, es: Seq<EdgeV>)
    ensures
        unnamed_inputs(bs, es) == bs.filter(unnamed_input(es)).len(),
        input_param_names(bs, es).len() == bs.filter(input_block()).len(),
    decreases bs.len(),
{
    reveal(Seq::filter);
    if bs.len() > 0 {
        lemma_input_counts(bs.drop_last(), es);
    }
}

proof fn lemma_params_decl_distinct(bs: Seq<BlockV>, es: Seq<EdgeV>)
    requires
        input_param_names(bs, es).no_duplicates(),
    ensures
        candle_forward_params(bs, es).no_duplicates(),
{
    let names = input_param_names(bs, es);
    let ps = candle_forward_params(bs, es);
    let t = ": &Tensor"@;
    assert forall|a: int, b: int| 0 <= a < ps.len() && 0 <= b < ps.len() && a != b implies ps[a] != ps[b] by {
        if ps[a] == ps[b] {
            assert(ps[a] == names[a] + t && ps[b] == names[b] + t);
            assert((names[a] + t).len() == names[a].len() + t.len());
            assert((names[b] + t).len() == names[b].len() + t.len());
            assert(names[a] =~= ps[a].subrange(0, names[a].len() as int));
            assert(names[b] =~= ps[b].subrange(0, names[b].len() as int));
        }
    }
}

proof fn lemma_param_sources(bs: Seq<BlockV>, es: Seq<EdgeV>)
    requires
        forall|q: int|
            0 <= q < input_param_names(bs, es).len() ==> param_source(
                bs,
                es,
                #[trigger] input_param_names(bs, es)[q],
                unnamed_inputs(bs, es),
            ),
        forall|k: nat| 1 <= k <= unnamed_inputs(bs, es) ==> input_param_names(bs, es).contains(#[trigger] var_name(k)),
    ensures
        input_param_names(bs, es).len() == bs.filter(input_block()).len(),
        forall|k: nat|
            1 <= k <= bs.filter(unnamed_input(es)).len() ==> input_param_names(bs, es).contains(#[trigger] var_name(k)),
        forall|q: int|
            0 <= q < input_param_names(bs, es).len() ==> param_source(
                bs,
                es,
                #[trigger] input_param_names(bs, es)[q],
                bs.filter(unnamed_input(es)).len(),
            ),
{
    lemma_input_counts(bs, es);
}

proof fn lemma_param_positions(bs: Seq<BlockV>, es: Seq<EdgeV>)
    ensures
        forall|p: int|
            0 <= p < bs.len() && (#[trigger] bs[p]).block_type == "Input"@ ==> input_param_names(bs, es)[bs.take(
                p,
            ).filter(input_block()).len() as int] == match named_output(es, bs[p].id) {
                Some(n) => n,
                None => var_name(bs.take(p + 1).filter(unnamed_input(es)).len()),
            },
    decreases bs.len(),
{
    if bs.len() > 0 {
        let d = bs.drop_last();
        let n = bs.len() - 1;
        lemma_param_positions(d, es);
        lemma_input_counts(d, es);
        lemma_input_counts(bs, es);
        assert(bs.take(n) =~= d);
        assert(bs.take(n + 1) =~= bs);
        assert forall|p: int|
            0 <= p < bs.len() && (#[trigger] bs[p]).block_type == "Input"@ implies input_param_names(bs, es)[bs.take(
                p,
            ).filter(input_block()).len() as int] == match named_output(es, bs[p].id) {
                Some(nm) => nm,
                None => var_name(bs.take(p + 1).filter(unnamed_input(es)).len()),
            } by {
            if p < n {
                assert(d[p] == bs[p]);
                assert(d.take(p) =~= bs.take(p));
                assert(d.take(p + 1) =~= bs.take(p + 1));
                lemma_filter_prefix_len(d, p, input_block());
                lemma_input_counts(d, es);
            }
        }
    }
}

proof fn lemma_filter_prefix_len(s: Seq<BlockV>, p: int, f: spec_fn(BlockV) -> bool)
    requires
        0 <= p < s.len(),
        f(s[p]),
    ensures
        s.take(p).filter(f).len() < s.filter(f).len(),
    decreases s.len(),
{
    reveal(Seq::filter);
    let d = s.drop_last();
    if p < s.len() - 1 {
        assert(d[p] == s[p]);
        assert(d.take(p) =~= s.take(p));
        lemma_filter_prefix_len(d, p, f);
    } else {
        assert(s.take(p) =~= d);
    }
}

/// The forward parameters of the `Input` blocks never collide when the
/// tensors they name are distinct and none is one of the generated names
/// `x`, `x2`, `x3`, ...: there is one parameter per `Input` block, in block
/// order; a block naming a tensor gets that name, and the `k`-th block
/// naming none gets the `k`-th generated name (`x`, `x2`, `x3`, ...).
pub proof fn law_forward_params_distinct(bs: Seq<BlockV>, es: Seq<EdgeV>)
    requires
        forall|i: int, j: int|
            #![trigger bs[i], bs[j]]
            0 <= i < j < bs.len() && bs[i].block_type == "Input"@ && bs[j].block_type == "Input"@ && named_output(
                es,
                bs[i].id,
            ) is Some ==> named_output(es, bs[i].id) != named_output(es, bs[j].id),
        forall|i: int, k: nat|
            #![trigger bs[i], var_name(k)]
            0 <= i < bs.len() && bs[i].block_type == "Input"@ && k >= 1 ==> named_output(es, bs[i].id) != Some(
                var_name(k),
            ),
    ensures
        input_param_names(bs, es).no_duplicates(),
        candle_forward_params(bs, es).no_duplicates(),
        input_param_names(bs, es).len() == bs.filter(input_block()).len(),
        forall|k: nat|
            1 <= k <= bs.filter(unnamed_input(es)).len() ==> input_param_names(bs, es).contains(#[trigger] var_name(k)),
        forall|q: int|
            0 <= q < input_param_names(bs, es).len() ==> param_source(
                bs,
                es,
                #[trigger] input_param_names(bs, es)[q],
                bs.filter(unnamed_input(es)).len(),
            ),
        forall|p: int|
            0 <= p < bs.len() && (#[trigger] bs[p]).block_type == "Input"@ ==> input_param_names(bs, es)[bs.take(
                p,
            ).filter(input_block()).len() as int] == match named_output(es, bs[p].id) {
                Some(n) => n,
                None => var_name(bs.take(p + 1).filter(unnamed_input(es)).len()),
            },
{
    lemma_param_names(bs, es);
    lemma_param_sources(bs, es);
    lemma_param_positions(bs, es);
    lemma_params_decl_distinct(bs, es);
}

/// The forward parameter declarations (`name: &Tensor`).
pub open spec fn candle_forward_params(bs: Seq<BlockV>, es: Seq<EdgeV>) -> Seq<Seq<char>> {
    let names = input_param_names(bs, es);
    Seq::new(names.len(), |i: int| names[i] + ": &Tensor"@)
}

/// The parameter lines of `forward`.
pub open spec fn forward_param_block(params: Seq<Seq<char>>) -> Seq<char> {
    if params.len() == 0 {
        "        // no inputs defined"@
    } else {
        "        "@ + join(params, ",\n        "@)
    }
}

/// The parts of a generated Candle model that come from the blocks' code.
pub struct CandleSections {
    pub struct_fields: Seq<Seq<char>>,
    pub scope_args: Seq<Seq<char>>,
    pub scope_params: Seq<Seq<char>>,
    pub init_lines: Seq<Seq<char>>,
    pub ok_fields: Seq<Seq<char>>,
    pub forward_lines: Seq<Seq<char>>,
}

/// The lines of a generated Candle model.
/// The first lines of a generated Candle model, up to its struct line.
pub open spec fn candle_header(class_name: Seq<char>) -> Seq<Seq<char>> {
    seq![
        "// This file was generated by mlmd. Do not edit."@,
        Seq::empty(),
        "#[allow(warnings)]"@,
        "use candle_core::{ModuleT, Result, Tensor};"@,
        "use candle_nn::{Module, VarBuilder};"@,
        Seq::empty(),
        "#[allow(warnings)]"@,
        "pub struct "@ + class_name + " {"@,
    ]
}

pub open spec fn candle_lines(class_name: Seq<char>, params: Seq<Seq<char>>, sec: CandleSections) -> Seq<Seq<char>> {
    candle_header(class_name) + sec.struct_fields + seq![
        "}"@,
        Seq::empty(),
        "#[allow(warnings)]"@,
        "impl "@ + class_name + " {"@,
        "    /// Create model with auto-generated weight scope names."@,
        "    /// Use ["@ + class_name + "::with_scopes] for custom scope names."@,
        "    pub fn new(weights: VarBuilder) -> Result<Self> {"@,
        "        Self::with_scopes(weights,"@,
    ] + sec.scope_args + seq![
        "        )"@,
        "    }"@,
        Seq::empty(),
        "    /// Create model with custom weight-loading scope names."@,
        "    pub fn with_scopes("@,
        "        weights: VarBuilder,"@,
    ] + sec.scope_params + seq!["    ) -> Result<Self> {"@] + sec.init_lines + seq!["        Ok(Self {"@] + sec.ok_fields
        + seq![
        "        })"@,
        "    }"@,
        Seq::empty(),
        "    pub fn forward(&self,"@,
        forward_param_block(params),
        "    ) -> Result<Tensor> {"@,
    ] + sec.forward_lines + seq!["    }"@, "}"@]
}

/// The content of a generated Candle model file: its lines, a final
/// newline, and the test module.
pub open spec fn candle_content(class_name: Seq<char>, bs: Seq<BlockV>, es: Seq<EdgeV>, sec: CandleSections) -> Seq<char> {
    let params = candle_forward_params(bs, es);
    join(candle_lines(class_name, params, sec), "\n"@) + "\n"@ + candle_test_module(
        class_name,
        params,
        test_input_shapes(bs),
        test_output_shape(bs),
    )
}

/// What the depth-first order guarantees of `bs`: one block per distinct id
/// of the graph, each the last block with that id.
pub open spec fn dfs_blocks(g: GraphV, bs: Seq<BlockV>) -> bool {
    let o = ids_of(bs);
    &&& o.no_duplicates()
    &&& forall|x: Seq<char>| o.contains(x) <==> ids_of(g.blocks).contains(x)
    &&& forall|p: int| 0 <= p < bs.len() ==> last_with_id(g.blocks, o[p]) == Some(bs[p])
    &&& acyclic(g) ==> forall|k: int|
        0 <= k < g.edges.len() && ids_of(g.blocks).contains((#[trigger] g.edges[k]).from) && ids_of(g.blocks).contains(
            g.edges[k].to,
        ) ==> exists|p: int, q: int| 0 <= p < q < o.len() && o[p] == g.edges[k].from && o[q] == g.edges[k].to
}

fn push_line(lines: &mut Vec<String>, l: &str)
    ensures
        strs_view(final(lines)@) == strs_view(old(lines)@).push(l@),
{
    let ghost before = strs_view(lines@);
    lines.push(string_of(l));
    proof {
        assert(strs_view(lines@) =~= before.push(l@));
    }
}

fn push_owned(lines: &mut Vec<String>, l: String)
    ensures
        strs_view(final(lines)@) == strs_view(old(lines)@).push(l@),
{
    let ghost before = strs_view(lines@);
    let ghost lv = l@;
    lines.push(l);
    proof {
        assert(strs_view(lines@) =~= before.push(lv));
    }
}

fn append_lines(lines: &mut Vec<String>, more: &Vec<String>)
    ensures
        strs_view(final(lines)@) == strs_view(old(lines)@) + strs_view(more@),
{
    let ghost before = strs_view(lines@);
    let mut i: usize = 0;
    while i < more.len()
        invariant
            i <= more@.len(),
            strs_view(lines@) == before + strs_view(more@).take(i as int),
        decreases more@.len() - i,
    {
        push_owned(lines, clone_string(&more[i]));
        proof {
            assert(strs_view(more@).take(i + 1) =~= strs_view(more@).take(i as int).push(more@[i as int]@));
        }
        i = i + 1;
    }
    proof {
        assert(strs_view(more@).take(i as int) =~= strs_view(more@));
    }
}

fn concat2(a: &str, b: &str) -> (r: String)
    ensures
        r@ == a@ + b@,
{
    let mut r = string_of(a);
    push_str(&mut r, b);
    r
}

fn concat3(a: &str, b: &str, c: &str) -> (r: String)
    ensures
        r@ == a@ + b@ + c@,
{
    let mut r = string_of(a);
    push_str(&mut r, b);
    push_str(&mut r, c);
    r
}

/// The forward parameters of the `Input` blocks of `sorted`.
fn collect_forward_params(graph: &Graph, sorted: &Vec<Block>) -> (r: (Vec<String>, Vec<String>))
    ensures
        strs_view(r.0@) == input_param_names(blocks_view(sorted@), edges_view(graph.edges@)),
        strs_view(r.1@) == candle_forward_params(blocks_view(sorted@), edges_view(graph.edges@)),
{
    let ghost bs = blocks_view(sorted@);
    let ghost es = edges_view(graph.edges@);
    let mut names: Vec<String> = Vec::new();
    let mut params: Vec<String> = Vec::new();
    let mut unnamed: usize = 0;
    let mut i: usize = 0;
    proof {
        assert(bs.take(0) =~= Seq::<BlockV>::empty());
        assert(strs_view(names@) =~= Seq::<Seq<char>>::empty());
        assert(strs_view(params@) =~= Seq::<Seq<char>>::empty());
    }
    while i < sorted.len()
        invariant
            i <= sorted@.len(),
            bs == blocks_view(sorted@),
            es == edges_view(graph.edges@),
            unnamed == unnamed_inputs(bs.take(i as int), es),
            unnamed <= i,
            strs_view(names@) == input_param_names(bs.take(i as int), es),
            strs_view(params@) == Seq::new(strs_view(names@).len(), |k: int| strs_view(names@)[k] + ": &Tensor"@),
        decreases sorted@.len() - i,
    {
        proof {
            assert(bs.take(i + 1).drop_last() =~= bs.take(i as int));
            assert(bs.take(i + 1).last() == bs[i as int]);
        }
        let b = &sorted[i];
        if str_eq(b.block_type.as_str(), "Input") {
            let name = match find_named_output(graph, &b.id) {
                Some(n) => n,
                None => {
                    unnamed = unnamed + 1;
                    var_name_exec(unnamed)
                },
            };
            let p = concat2(name.as_str(), ": &Tensor");
            let ghost n0 = strs_view(names@);
            let ghost p0 = strs_view(params@);
            let ghost nm = name@;
            push_owned(&mut params, p);
            push_owned(&mut names, name);
            proof {
                assert(strs_view(names@) == n0.push(nm));
                assert(strs_view(params@) == p0.push(nm + ": &Tensor"@));
                assert(strs_view(params@) =~= Seq::new(strs_view(names@).len(), |k: int| strs_view(names@)[k] + ": &Tensor"@));
            }
        }
        i = i + 1;
    }
    proof {
        assert(bs.take(i as int) =~= bs);
        assert(strs_view(params@) =~= candle_forward_params(bs, es));
    }
    (names, params)
}

/// Whether a block runs through a code generator: it is neither an `Input`
/// nor an `Output` block.
pub open spec fn is_layer(b: BlockV) -> bool {
    b.block_type != "Input"@ && b.block_type != "Output"@
}

/// The weight scope that a Candle init body names for block `id`.
pub open spec fn scope_pattern(id: Seq<char>) -> Seq<char> {
    "vb.pp(\""@ + id + "\")"@
}

/// Sections with no lines.
pub open spec fn empty_sections() -> CandleSections {
    CandleSections {
        struct_fields: Seq::empty(),
        scope_args: Seq::empty(),
        scope_params: Seq::empty(),
        init_lines: Seq::empty(),
        ok_fields: Seq::empty(),
        forward_lines: Seq::empty(),
    }
}

/// The sections after block `b`, whose generator gave the init part `init`:
/// a Candle init of a layer adds its field, its body with the weight scope
/// renamed to the scope parameter, its field in `Ok(Self { .. })` and its
/// scope argument and parameter.
pub open spec fn init_step(sec: CandleSections, b: BlockV, init: Option<InitV>) -> CandleSections {
    match init {
        Some(InitV::Candle { field, body }) => if is_layer(b) {
            CandleSections {
                struct_fields: sec.struct_fields.push("    "@ + field + ","@),
                init_lines: sec.init_lines.push(
                    indented(replace_all(body, scope_pattern(b.id), "weights.pp("@ + snake_case(b.id) + ")"@), "        "@),
                ),
                ok_fields: sec.ok_fields.push("            "@ + b.id + ","@),
                scope_args: sec.scope_args.push("        \""@ + b.id + "\","@),
                scope_params: sec.scope_params.push("        "@ + snake_case(param_var(field)) + ": &str,"@),
                ..sec
            }
        } else {
            sec
        },
        _ => sec,
    }
}

/// The sections (all but the forward lines) from the init parts `inits` of
/// the blocks `bs`.
pub open spec fn init_sections(bs: Seq<BlockV>, inits: Seq<Option<InitV>>) -> CandleSections
    decreases bs.len(),
{
    if bs.len() == 0 {
        empty_sections()
    } else {
        init_step(init_sections(bs.drop_last(), inits.drop_last()), bs.last(), inits.last())
    }
}

/// Whether `inits` are the init parts that the blocks' Candle generators
/// give, asked with no variables.
pub open spec fn inits_fit(bs: Seq<BlockV>, inits: Seq<Option<InitV>>, codegens: CodegenRegistry) -> bool {
    &&& inits.len() == bs.len()
    &&& forall|j: int|
        0 <= j < bs.len() && is_layer(#[trigger] bs[j]) ==> init_fits(
            codegens,
            "candle"@,
            bs[j],
            Seq::empty(),
            Seq::empty(),
            inits[j],
        )
}

/// What generating a Candle `forward` has built after some blocks: the
/// variable holding each block's output, the counter of fresh variable
/// names, how many `Input` blocks were met, and the lines.
pub struct CandleForward {
    pub vars: Map<Seq<char>, Seq<char>>,
    pub counter: usize,
    pub seen: nat,
    pub lines: Seq<Seq<char>>,
}

/// The state before the first block.
pub open spec fn forward_start() -> CandleForward {
    CandleForward { vars: Map::empty(), counter: 0, seen: 0, lines: Seq::empty() }
}

/// The counter after naming the outputs of layer `b`: a fresh name is
/// taken for several outputs, and for one output when the block names no
/// tensor and does not feed exactly one block.
pub open spec fn candle_out_count(es: Seq<EdgeV>, st: CandleForward, b: BlockV) -> usize {
    if b.output_shapes.len() <= 1 {
        if named_output(es, b.id) is None && outputs_of(es, b.id).len() != 1 {
            next_count(st.counter)
        } else {
            st.counter
        }
    } else {
        next_count(st.counter)
    }
}

/// The output variables handed to layer `b`'s generator: the tensor it
/// names, else `x` when it feeds exactly one block, else a fresh name; for
/// several outputs a fresh base name with `_0`, `_1`, ...
pub open spec fn candle_output_vars(es: Seq<EdgeV>, st: CandleForward, b: BlockV) -> Seq<Seq<char>> {
    let c = candle_out_count(es, st, b);
    if b.output_shapes.len() <= 1 {
        seq![
            match named_output(es, b.id) {
                Some(n) => n,
                None => if outputs_of(es, b.id).len() == 1 {
                    "x"@
                } else {
                    var_name(c as nat)
                },
            },
        ]
    } else {
        Seq::new(b.output_shapes.len(), |k: int| var_name(c as nat) + "_"@ + decimal(k as nat))
    }
}

/// A layer's statement: its code, with `let ` in front unless it starts so.
pub open spec fn let_line(fwd: Seq<char>) -> Seq<char> {
    if fwd.len() >= 4 && fwd.subrange(0, 4) == "let "@ {
        fwd
    } else {
        "let "@ + fwd
    }
}

/// The state after block `b`; `names` are the forward parameters of the
/// `Input` blocks in order and `fwd` the code the block's generator gave.
/// An `Input` block's output is its parameter; an `Output` block returns
/// its first input; a layer adds its statement.
pub open spec fn forward_step(
    es: Seq<EdgeV>,
    names: Seq<Seq<char>>,
    st: CandleForward,
    b: BlockV,
    fwd: Seq<char>,
) -> CandleForward {
    let ivs = input_vars_of(st.vars, inputs_of(es, b.id));
    if b.block_type == "Input"@ {
        CandleForward {
            vars: st.vars.insert(
                b.id,
                if st.seen < names.len() {
                    names[st.seen as int]
                } else {
                    "x"@
                },
            ),
            seen: st.seen + 1,
            ..st
        }
    } else if b.block_type == "Output"@ {
        CandleForward {
            lines: st.lines.push(
                "        Ok("@ + (if ivs.len() > 0 {
                    ivs[0]
                } else {
                    "x"@
                }) + ")"@,
            ),
            ..st
        }
    } else {
        CandleForward {
            vars: st.vars.insert(b.id, candle_output_vars(es, st, b)[0]),
            counter: candle_out_count(es, st, b),
            lines: st.lines.push(indented(let_line(fwd), "        "@)),
            ..st
        }
    }
}

/// The state after the blocks `bs`, block `j` having forward code `fwds[j]`.
pub open spec fn forward_run(
    es: Seq<EdgeV>,
    names: Seq<Seq<char>>,
    bs: Seq<BlockV>,
    fwds: Seq<Seq<char>>,
) -> CandleForward
    decreases bs.len(),
{
    if bs.len() == 0 {
        forward_start()
    } else {
        forward_step(es, names, forward_run(es, names, bs.drop_last(), fwds.drop_last()), bs.last(), fwds.last())
    }
}

#[verifier::opaque]
/// Whether the forward code `fwds` is what the blocks' Candle generators
/// give for each layer and its input and output variables (the
/// pass-through of its first input for a layer with no generator).
pub open spec fn candle_forwards_fit(
    es: Seq<EdgeV>,
    names: Seq<Seq<char>>,
    bs: Seq<BlockV>,
    fwds: Seq<Seq<char>>,
    codegens: CodegenRegistry,
) -> bool {
    &&& fwds.len() == bs.len()
    &&& forall|j: int|
        0 <= j < bs.len() && is_layer(#[trigger] bs[j]) ==> forward_fits(
            codegens,
            "candle"@,
            bs[j],
            input_vars_of(forward_run(es, names, bs.take(j), fwds.take(j)).vars, inputs_of(es, bs[j].id)),
            candle_output_vars(es, forward_run(es, names, bs.take(j), fwds.take(j)), bs[j]),
            fwds[j],
        )
}

/// The Candle file for graph `g`: the blocks `bs` in depth-first order,
/// `inits` and `fwds` the init parts and forward code their generators
/// gave, and `files` what was generated from them.
pub open spec fn candle_generated(
    g: GraphV,
    codegens: CodegenRegistry,
    bs: Seq<BlockV>,
    inits: Seq<Option<InitV>>,
    fwds: Seq<Seq<char>>,
    files: Seq<GeneratedFile>,
) -> bool {
    let names = input_param_names(bs, g.edges);
    let sec = CandleSections { forward_lines: forward_run(g.edges, names, bs, fwds).lines, ..init_sections(bs, inits) };
    &&& dfs_blocks(g, bs)
    &&& inits_fit(bs, inits, codegens)
    &&& candle_forwards_fit(g.edges, names, bs, fwds, codegens)
    &&& files.len() == 1
    &&& files[0].path@ == class_name_of(g) + "_candle.rs"@
    &&& files[0].content@ == candle_content(class_name_of(g), bs, g.edges, sec)
}

proof fn lemma_input_params(bs: Seq<BlockV>, es: Seq<EdgeV>)
    ensures
        input_param_names(bs, es).len() > 0 <==> exists|p: int|
            0 <= p < bs.len() && (#[trigger] bs[p]).block_type == "Input"@,
    decreases bs.len(),
{
    if bs.len() > 0 {
        lemma_input_params(bs.drop_last(), es);
        if exists|p: int| 0 <= p < bs.len() && (#[trigger] bs[p]).block_type == "Input"@ {
            let p = choose|p: int| 0 <= p < bs.len() && (#[trigger] bs[p]).block_type == "Input"@;
            if p < bs.len() - 1 {
                assert(bs.drop_last()[p] == bs[p]);
            }
        }
        if exists|p: int| 0 <= p < bs.len() - 1 && (#[trigger] bs.drop_last()[p]).block_type == "Input"@ {
            let p = choose|p: int| 0 <= p < bs.len() - 1 && (#[trigger] bs.drop_last()[p]).block_type == "Input"@;
            assert(bs[p] == bs.drop_last()[p]);
        }
    }
}

/// A generated Candle model file starts with the generated-file header and
/// the struct line of the model, and ends with its test module, which is
/// there exactly when the blocks have an `Input` block and the first
/// `Output` block has an input shape.
pub proof fn law_candle_file_layout(
    g: GraphV,
    codegens: CodegenRegistry,
    bs: Seq<BlockV>,
    inits: Seq<Option<InitV>>,
    fwds: Seq<Seq<char>>,
    files: Seq<GeneratedFile>,
)
    requires
        candle_generated(g, codegens, bs, inits, fwds, files),
    ensures
        ({
            let content = files[0].content@;
            let head = join(candle_header(class_name_of(g)), "\n"@);
            let test = candle_test_module(
                class_name_of(g),
                candle_forward_params(bs, g.edges),
                test_input_shapes(bs),
                test_output_shape(bs),
            );
            &&& content.len() >= head.len() + test.len()
            &&& content.take(head.len() as int) == head
            &&& content.subrange(content.len() - test.len(), content.len() as int) == test
            &&& test.len() > 0 <==> ((exists|p: int| 0 <= p < bs.len() && (#[trigger] bs[p]).block_type == "Input"@)
                && test_output_shape(bs) is Some)
        }),
{
    let cn = class_name_of(g);
    let names = input_param_names(bs, g.edges);
    let params = candle_forward_params(bs, g.edges);
    let sec = CandleSections { forward_lines: forward_run(g.edges, names, bs, fwds).lines, ..init_sections(bs, inits) };
    let lines = candle_lines(cn, params, sec);
    let hd = candle_header(cn);
    let rest = lines.subrange(8, lines.len() as int);
    assert(lines =~= hd + rest);
    assert(rest.len() > 0);
    lemma_join_append(hd, rest, "\n"@);
    let head = join(hd, "\n"@);
    let test = candle_test_module(cn, params, test_input_shapes(bs), test_output_shape(bs));
    let content = files[0].content@;
    assert(content == head + ("\n"@ + join(rest, "\n"@) + "\n"@ + test)) by {
        assert(content =~= head + ("\n"@ + join(rest, "\n"@) + "\n"@ + test));
    }
    assert(content.take(head.len() as int) =~= head);
    assert(content.subrange(content.len() - test.len(), content.len() as int) =~= test);
    lemma_input_params(bs, g.edges);
    assert(params.len() == names.len());
    if test_output_shape(bs) is Some && params.len() > 0 {
        reveal_strlit("::new(vb)?;\n");
        assert(test.len() > 0);
    }
}

proof fn lemma_candle_fit_push(
    es: Seq<EdgeV>,
    names: Seq<Seq<char>>,
    bs: Seq<BlockV>,
    fw: Seq<Seq<char>>,
    j: int,
    f: Seq<char>,
    codegens: CodegenRegistry,
)
    requires
        0 <= j < bs.len(),
        fw.len() == j,
        candle_forwards_fit(es, names, bs.take(j), fw, codegens),
        is_layer(bs[j]) ==> forward_fits(
            codegens,
            "candle"@,
            bs[j],
            input_vars_of(forward_run(es, names, bs.take(j), fw).vars, inputs_of(es, bs[j].id)),
            candle_output_vars(es, forward_run(es, names, bs.take(j), fw), bs[j]),
            f,
        ),
    ensures
        candle_forwards_fit(es, names, bs.take(j + 1), fw.push(f), codegens),
        forward_run(es, names, bs.take(j + 1), fw.push(f)) == forward_step(
            es,
            names,
            forward_run(es, names, bs.take(j), fw),
            bs[j],
            f,
        ),
{
    reveal(candle_forwards_fit);
    let bs1 = bs.take(j + 1);
    let fw1 = fw.push(f);
    assert(bs1.drop_last() =~= bs.take(j));
    assert(fw1.drop_last() =~= fw);
    assert(bs1.last() == bs[j]);
    assert forall|jj: int| 0 <= jj < bs1.len() && is_layer(#[trigger] bs1[jj]) implies forward_fits(
        codegens,
        "candle"@,
        bs1[jj],
        input_vars_of(forward_run(es, names, bs1.take(jj), fw1.take(jj)).vars, inputs_of(es, bs1[jj].id)),
        candle_output_vars(es, forward_run(es, names, bs1.take(jj), fw1.take(jj)), bs1[jj]),
        fw1[jj],
    ) by {
        if jj < j {
            assert(bs1.take(jj) =~= bs.take(j).take(jj));
            assert(fw1.take(jj) =~= fw.take(jj));
            assert(bs1[jj] == bs.take(j)[jj]);
            assert(fw1[jj] == fw[jj]);
        } else {
            assert(bs1.take(jj) =~= bs.take(j));
            assert(fw1.take(jj) =~= fw);
        }
    }
}

/// One block's init part for the Candle model: the lines it adds to the
/// struct fields, the init body, the fields of `Ok(Self { .. })` and the
/// weight scopes.
fn candle_init_block(
    codegens: &CodegenRegistry,
    b: &Block,
    struct_fields: &mut Vec<String>,
    init_lines: &mut Vec<String>,
    ok_fields: &mut Vec<String>,
    scope_args: &mut Vec<String>,
    scope_params: &mut Vec<String>,
) -> (init: Ghost<Option<InitV>>)
    ensures
        ({
            let sec = CandleSections {
                struct_fields: strs_view(old(struct_fields)@),
                scope_args: strs_view(old(scope_args)@),
                scope_params: strs_view(old(scope_params)@),
                init_lines: strs_view(old(init_lines)@),
                ok_fields: strs_view(old(ok_fields)@),
                forward_lines: Seq::empty(),
            };
            let sec2 = init_step(sec, b.view_block(), init@);
            &&& strs_view(final(struct_fields)@) == sec2.struct_fields
            &&& strs_view(final(init_lines)@) == sec2.init_lines
            &&& strs_view(final(ok_fields)@) == sec2.ok_fields
            &&& strs_view(final(scope_args)@) == sec2.scope_args
            &&& strs_view(final(scope_params)@) == sec2.scope_params
            &&& is_layer(b.view_block()) ==> init_fits(
                *codegens,
                "candle"@,
                b.view_block(),
                Seq::empty(),
                Seq::empty(),
                init@,
            )
        }),
{
    let ghost mut iv: Option<InitV> = None;
    if !str_eq(b.block_type.as_str(), "Input") && !str_eq(b.block_type.as_str(), "Output") {
        let no_vars: Vec<String> = Vec::new();
        let result = block_code(codegens, "candle", b, &no_vars, &no_vars);
        proof {
            iv = result.cview().init;
            assert(strs_view(no_vars@) =~= Seq::<Seq<char>>::empty());
        }
        match &result.init {
            Some(CandleInitOrString::Candle(ci)) => {
                push_owned(struct_fields, concat3("    ", ci.field.as_str(), ","));
                let snake = to_snake_case(b.id.as_str());
                let pat = concat3("vb.pp(\"", b.id.as_str(), "\")");
                let rep = concat3("weights.pp(", snake.as_str(), ")");
                let body = crate::codegen::replace_str(ci.body.as_str(), pat.as_str(), rep.as_str());
                push_owned(init_lines, indent_lines(body.as_str(), "        "));
                push_owned(ok_fields, concat3("            ", b.id.as_str(), ","));
                push_owned(scope_args, concat3("        \"", b.id.as_str(), "\","));
                let field_name = param_var_exec(&ci.field);
                let scope_name = to_snake_case(field_name.as_str());
                push_owned(scope_params, concat3("        ", scope_name.as_str(), ": &str,"));
            },
            _ => {},
        }
    }
    Ghost(iv)
}

/// One block of the Candle `forward`: the variable of its output, and its
/// statement.
fn candle_forward_block(
    graph: &Graph,
    codegens: &CodegenRegistry,
    info: &NodeInfo,
    b: &Block,
    param_names: &Vec<String>,
    block_output_var: &mut StrMap<String>,
    var_counter: &mut usize,
    seen: &mut usize,
    forward_lines: &mut Vec<String>,
) -> (fwd: Ghost<Seq<char>>)
    requires
        strs_view(info.inputs@) == inputs_of(edges_view(graph.edges@), b.id@),
        strs_view(info.outputs@) == outputs_of(edges_view(graph.edges@), b.id@),
        *old(seen) < usize::MAX,
    ensures
        ({
            let es = edges_view(graph.edges@);
            let st = CandleForward {
                vars: named_view(*old(block_output_var)),
                counter: *old(var_counter),
                seen: *old(seen) as nat,
                lines: strs_view(old(forward_lines)@),
            };
            let st2 = forward_step(es, strs_view(param_names@), st, b.view_block(), fwd@);
            &&& named_view(*final(block_output_var)) == st2.vars
            &&& *final(var_counter) == st2.counter
            &&& *final(seen) == st2.seen
            &&& strs_view(final(forward_lines)@) == st2.lines
            &&& is_layer(b.view_block()) ==> forward_fits(
                *codegens,
                "candle"@,
                b.view_block(),
                input_vars_of(st.vars, inputs_of(es, b.id@)),
                candle_output_vars(es, st, b.view_block()),
                fwd@,
            )
        }),
{
    let ghost es = edges_view(graph.edges@);
    let ghost names = strs_view(param_names@);
    let ghost st = CandleForward {
        vars: named_view(*block_output_var),
        counter: *var_counter,
        seen: *seen as nat,
        lines: strs_view(forward_lines@),
    };
    let ghost bv = b.view_block();
    let ghost ivs = input_vars_of(st.vars, inputs_of(es, bv.id));
    let ghost mut f: Seq<char> = Seq::empty();
    let mut input_vars: Vec<String> = Vec::new();
    let mut k: usize = 0;
    while k < info.inputs.len()
        invariant
            k <= info.inputs@.len(),
            strs_view(info.inputs@) == inputs_of(es, bv.id),
            named_view(*block_output_var) == st.vars,
            strs_view(input_vars@) == ivs.take(k as int),
            ivs == input_vars_of(st.vars, inputs_of(es, bv.id)),
        decreases info.inputs@.len() - k,
    {
        let ghost iv0 = strs_view(input_vars@);
        proof {
            assert(strs_view(info.inputs@)[k as int] == info.inputs@[k as int]@);
        }
        match block_output_var.get(info.inputs[k].as_str()) {
            Some(v) => input_vars.push(clone_string(v)),
            None => input_vars.push(string_of("x")),
        }
        proof {
            assert(strs_view(input_vars@) =~= iv0.push(ivs[k as int]));
            assert(ivs.take(k + 1) =~= ivs.take(k as int).push(ivs[k as int]));
        }
        k = k + 1;
    }
    proof {
        assert(ivs.take(k as int) =~= ivs);
        reveal_strlit("Input");
        reveal_strlit("Output");
    }
    if str_eq(b.block_type.as_str(), "Input") {
        let v = if *seen < param_names.len() {
            clone_string(&param_names[*seen])
        } else {
            string_of("x")
        };
        proof {
            if (*seen as int) < names.len() {
                assert(names[*seen as int] == param_names@[*seen as int]@);
            }
        }
        block_output_var.insert(clone_string(&b.id), v);
        *seen = *seen + 1;
    } else if str_eq(b.block_type.as_str(), "Output") {
        let ret = if input_vars.len() > 0 {
            clone_string(&input_vars[0])
        } else {
            string_of("x")
        };
        proof {
            if input_vars@.len() > 0 {
                assert(strs_view(input_vars@)[0] == input_vars@[0]@);
            }
        }
        push_owned(forward_lines, concat3("        Ok(", ret.as_str(), ")"));
    } else {
        let ghost c = candle_out_count(es, st, bv);
        let ghost ovs = candle_output_vars(es, st, bv);
        let out_count = b.output_shapes.len();
        let mut output_vars: Vec<String> = Vec::new();
        proof {
            assert(out_count == bv.output_shapes.len());
            assert(strs_view(info.outputs@).len() == info.outputs@.len());
        }
        if out_count <= 1 {
            let v = match find_named_output(graph, &b.id) {
                Some(n) => n,
                None => {
                    if info.outputs.len() == 1 {
                        string_of("x")
                    } else {
                        *var_counter = if *var_counter < usize::MAX {
                            *var_counter + 1
                        } else {
                            *var_counter
                        };
                        var_name_exec(*var_counter)
                    }
                },
            };
            let ghost vv = v@;
            output_vars.push(v);
            proof {
                assert(strs_view(output_vars@) =~= seq![vv]);
            }
        } else {
            *var_counter = if *var_counter < usize::MAX {
                *var_counter + 1
            } else {
                *var_counter
            };
            let base = var_name_exec(*var_counter);
            let mut k2: usize = 0;
            while k2 < out_count
                invariant
                    k2 <= out_count,
                    strs_view(output_vars@) == Seq::new(k2 as nat, |q: int| base@ + "_"@ + decimal(q as nat)),
                decreases out_count - k2,
            {
                let idx = usize_to_string(k2);
                let v = concat3(base.as_str(), "_", idx.as_str());
                let ghost o0 = strs_view(output_vars@);
                let ghost vv = v@;
                output_vars.push(v);
                proof {
                    assert(strs_view(output_vars@) =~= o0.push(vv));
                    assert(strs_view(output_vars@) =~= Seq::new((k2 + 1) as nat, |q: int| base@ + "_"@ + decimal(q as nat)));
                }
                k2 = k2 + 1;
            }
        }
        proof {
            assert(*var_counter == c);
            assert(strs_view(output_vars@) =~= ovs);
            assert(output_vars@.len() > 0);
            assert(strs_view(output_vars@)[0] == output_vars@[0]@);
        }
        block_output_var.insert(clone_string(&b.id), clone_string(&output_vars[0]));
        let result = block_code(codegens, "candle", b, &input_vars, &output_vars);
        let line = if starts_with_let(result.forward.as_str()) {
            clone_string(&result.forward)
        } else {
            concat2("let ", result.forward.as_str())
        };
        push_owned(forward_lines, indent_lines(line.as_str(), "        "));
        proof {
            reveal_strlit("candle");
            reveal_strlit("x");
            f = result.forward@;
        }
    }
    proof {
        assert(named_view(*block_output_var) =~= forward_step(es, names, st, bv, f).vars);
    }
    Ghost(f)
}

/// The file generated for the Candle target.
///
/// One file, `{class}_candle.rs`: the model struct with the fields and
/// weight scopes that the blocks' generators declare, a `forward` taking the
/// inputs as parameters and running the blocks in depth-first order, and
/// the test module.
#[verifier::rlimit(100)]
pub fn generate_candle(graph: &Graph, codegens: &CodegenRegistry) -> (r: Vec<GeneratedFile>)
    ensures
        exists|bs: Seq<BlockV>, inits: Seq<Option<InitV>>, fwds: Seq<Seq<char>>|
            #![trigger candle_generated(graph.view_graph(), *codegens, bs, inits, fwds, r@)]
            candle_generated(graph.view_graph(), *codegens, bs, inits, fwds, r@),
{
    let ghost g = graph.view_graph();
    let ghost es = g.edges;
    let adj = build_adjacency(graph);
    let sorted = topo_sort(graph);
    let ghost bs = blocks_view(sorted@);
    let mut struct_fields: Vec<String> = Vec::new();
    let mut init_lines: Vec<String> = Vec::new();
    let mut ok_fields: Vec<String> = Vec::new();
    let mut scope_args: Vec<String> = Vec::new();
    let mut scope_params: Vec<String> = Vec::new();
    let ghost mut inits: Seq<Option<InitV>> = Seq::empty();
    proof {
        assert(bs.take(0) =~= Seq::<BlockV>::empty());
        assert(strs_view(struct_fields@) =~= Seq::<Seq<char>>::empty());
        assert(strs_view(init_lines@) =~= Seq::<Seq<char>>::empty());
        assert(strs_view(ok_fields@) =~= Seq::<Seq<char>>::empty());
        assert(strs_view(scope_args@) =~= Seq::<Seq<char>>::empty());
        assert(strs_view(scope_params@) =~= Seq::<Seq<char>>::empty());
    }
    let mut i: usize = 0;
    while i < sorted.len()
        invariant
            i <= sorted@.len(),
            bs == blocks_view(sorted@),
            inits_fit(bs.take(i as int), inits, *codegens),
            ({
                let sec = init_sections(bs.take(i as int), inits);
                &&& strs_view(struct_fields@) == sec.struct_fields
                &&& strs_view(init_lines@) == sec.init_lines
                &&& strs_view(ok_fields@) == sec.ok_fields
                &&& strs_view(scope_args@) == sec.scope_args
                &&& strs_view(scope_params@) == sec.scope_params
            }),
        decreases sorted@.len() - i,
    {
        let ig = candle_init_block(
            codegens,
            &sorted[i],
            &mut struct_fields,
            &mut init_lines,
            &mut ok_fields,
            &mut scope_args,
            &mut scope_params,
        );
        proof {
            let inits1 = inits.push(ig@);
            let bs1 = bs.take(i + 1);
            assert(bs1.drop_last() =~= bs.take(i as int));
            assert(inits1.drop_last() =~= inits);
            assert(bs1.last() == bs[i as int]);
            assert(bs[i as int] == sorted@[i as int].view_block());
            assert forall|jj: int| 0 <= jj < bs1.len() && is_layer(#[trigger] bs1[jj]) implies init_fits(
                *codegens,
                "candle"@,
                bs1[jj],
                Seq::empty(),
                Seq::empty(),
                inits1[jj],
            ) by {
                if jj < i {
                    assert(bs1[jj] == bs.take(i as int)[jj]);
                    assert(inits1[jj] == inits[jj]);
                }
            }
            inits = inits1;
        }
        i = i + 1;
    }
    proof {
        assert(bs.take(i as int) =~= bs);
    }
    let (param_names, forward_params) = collect_forward_params(graph, &sorted);
    let ghost names = strs_view(param_names@);
    let mut block_output_var: StrMap<String> = StrMap::new();
    let mut var_counter: usize = 0;
    let mut seen: usize = 0;
    let mut forward_lines: Vec<String> = Vec::new();
    let ghost mut fw: Seq<Seq<char>> = Seq::empty();
    proof {
        reveal(candle_forwards_fit);
        assert(named_view(block_output_var) =~= Map::<Seq<char>, Seq<char>>::empty());
        assert(strs_view(forward_lines@) =~= Seq::<Seq<char>>::empty());
    }
    let mut j: usize = 0;
    while j < sorted.len()
        invariant
            j <= sorted@.len(),
            g == graph.view_graph(),
            es == g.edges,
            bs == blocks_view(sorted@),
            dfs_blocks(g, bs),
            names == strs_view(param_names@),
            forall|id: Seq<char>| adj.map().contains_key(id) <==> ids_of(g.blocks).contains(id),
            forall|id: Seq<char>| #[trigger] adj.map().contains_key(id) ==> adjacency_entry(g, id, adj.map()[id]),
            fw.len() == j,
            seen <= j,
            candle_forwards_fit(es, names, bs.take(j as int), fw, *codegens),
            ({
                let st = forward_run(es, names, bs.take(j as int), fw);
                &&& named_view(block_output_var) == st.vars
                &&& var_counter == st.counter
                &&& seen == st.seen
                &&& strs_view(forward_lines@) == st.lines
            }),
        decreases sorted@.len() - j,
    {
        let b = &sorted[j];
        let ghost bv = bs[j as int];
        let ghost mut f: Seq<char> = Seq::empty();
        proof {
            assert(bv == b.view_block());
            assert(ids_of(bs)[j as int] == bv.id);
            assert(ids_of(bs).contains(bv.id));
            assert(ids_of(g.blocks).contains(bv.id));
            assert(adj.map().contains_key(b.id@));
        }
        match adj.get(b.id.as_str()) {
            Some(info) => {
                proof {
                    assert(adjacency_entry(g, b.id@, *info));
                }
                let fg = candle_forward_block(
                    graph,
                    codegens,
                    info,
                    b,
                    &param_names,
                    &mut block_output_var,
                    &mut var_counter,
                    &mut seen,
                    &mut forward_lines,
                );
                proof {
                    f = fg@;
                }
            },
            None => {
                proof {
                    assert(false);
                }
            },
        }
        proof {
            let fw1 = fw.push(f);
            lemma_candle_fit_push(es, names, bs, fw, j as int, f, *codegens);
            assert(named_view(block_output_var) =~= forward_run(es, names, bs.take(j + 1), fw1).vars);
            fw = fw1;
        }
        j = j + 1;
    }
    proof {
        assert(bs.take(j as int) =~= bs);
    }
    let class_name = model_class_name(graph);
    let ghost cn = class_name@;
    let ghost params = strs_view(forward_params@);
    let param_block = if forward_params.len() == 0 {
        string_of("        // no inputs defined")
    } else {
        let joined = join_strings(&forward_params, ",\n        ");
        concat2("        ", joined.as_str())
    };
    let ghost sec = CandleSections {
        struct_fields: strs_view(struct_fields@),
        scope_args: strs_view(scope_args@),
        scope_params: strs_view(scope_params@),
        init_lines: strs_view(init_lines@),
        ok_fields: strs_view(ok_fields@),
        forward_lines: strs_view(forward_lines@),
    };
    let mut lines: Vec<String> = Vec::new();
    push_line(&mut lines, "// This file was generated by mlmd. Do not edit.");
    push_line(&mut lines, "");
    push_line(&mut lines, "#[allow(warnings)]");
    push_line(&mut lines, "use candle_core::{ModuleT, Result, Tensor};");
    push_line(&mut lines, "use candle_nn::{Module, VarBuilder};");
    push_line(&mut lines, "");
    push_line(&mut lines, "#[allow(warnings)]");
    push_owned(&mut lines, concat3("pub struct ", class_name.as_str(), " {"));
    append_lines(&mut lines, &struct_fields);
    push_line(&mut lines, "}");
    push_line(&mut lines, "");
    push_line(&mut lines, "#[allow(warnings)]");
    push_owned(&mut lines, concat3("impl ", class_name.as_str(), " {"));
    push_line(&mut lines, "    /// Create model with auto-generated weight scope names.");
    push_owned(&mut lines, concat3("    /// Use [", class_name.as_str(), "::with_scopes] for custom scope names."));
    push_line(&mut lines, "    pub fn new(weights: VarBuilder) -> Result<Self> {");
    push_line(&mut lines, "        Self::with_scopes(weights,");
    append_lines(&mut lines, &scope_args);
    push_line(&mut lines, "        )");
    push_line(&mut lines, "    }");
    push_line(&mut lines, "");
    push_line(&mut lines, "    /// Create model with custom weight-loading scope names.");
    push_line(&mut lines, "    pub fn with_scopes(");
    push_line(&mut lines, "        weights: VarBuilder,");
    append_lines(&mut lines, &scope_params);
    push_line(&mut lines, "    ) -> Result<Self> {");
    append_lines(&mut lines, &init_lines);
    push_line(&mut lines, "        Ok(Self {");
    append_lines(&mut lines, &ok_fields);
    push_line(&mut lines, "        })");
    push_line(&mut lines, "    }");
    push_line(&mut lines, "");
    push_line(&mut lines, "    pub fn forward(&self,");
    push_owned(&mut lines, param_block);
    push_line(&mut lines, "    ) -> Result<Tensor> {");
    append_lines(&mut lines, &forward_lines);
    push_line(&mut lines, "    }");
    push_line(&mut lines, "}");
    proof {
        reveal_strlit("");
        assert(""@ =~= Seq::<char>::empty());
        assert(strs_view(lines@) =~= candle_lines(cn, params, sec));
    }
    let mut content = join_strings(&lines, "\n");
    push_str(&mut content, "\n");
    let test_inputs = collect_test_inputs(&sorted);
    let test_output = find_test_output(&sorted);
    let test_module = generate_test_module(class_name.as_str(), &forward_params, &test_inputs, &test_output);
    push_str(&mut content, test_module.as_str());
    proof {
        assert(shapes_view(test_inputs@) == test_input_shapes(bs));
        assert(content@ == candle_content(cn, bs, g.edges, sec));
        assert(sec == CandleSections { forward_lines: forward_run(es, names, bs, fw).lines, ..init_sections(bs, inits) });
    }
    let path = concat2(class_name.as_str(), "_candle.rs");
    let mut files: Vec<GeneratedFile> = Vec::new();
    files.push(GeneratedFile { path, content });
    proof {
        assert(candle_generated(g, *codegens, bs, inits, fw, files@));
    }
    files
}

/// Whether `s` starts with `let `.
fn starts_with_let(s: &str) -> (r: bool)
    ensures
        r == (s@.len() >= 4 && s@.subrange(0, 4) == "let "@),
{
    proof {
        reveal_strlit("let ");
    }
    let n = s.unicode_len();
    if n < 4 {
        return false;
    }
    let r = s.get_char(0) == 'l' && s.get_char(1) == 'e' && s.get_char(2) == 't' && s.get_char(3) == ' ';
    proof {
        if r {
            assert(s@.subrange(0, 4) =~= "let "@);
        } else {
            if s@.subrange(0, 4) == "let "@ {
                assert(s@.subrange(0, 4)[0] == 'l');
                assert(s@.subrange(0, 4)[1] == 'e');
                assert(s@.subrange(0, 4)[2] == 't');
                assert(s@.subrange(0, 4)[3] == ' ');
            }
        }
    }
    r
}

/// The Candle (Rust) target.
pub struct CandleCodegen;

impl CandleCodegen {
    /// Registers this target under the name "candle", unless a target of that
    /// name is registered already: registering again changes nothing.
    pub fn register(targets: &mut TargetRegistry)
        ensures
            old(targets).targets.map().contains_key("candle"@) ==> *final(targets) == *old(targets),
            !old(targets).targets.map().contains_key("candle"@) ==> {
                &&& final(targets).targets.key_seq() == old(targets).targets.key_seq().push("candle"@)
                &&& final(targets).targets.map().dom() == old(targets).targets.map().dom().insert("candle"@)
                &&& forall|k: Seq<char>|
                    k != "candle"@ && #[trigger] old(targets).targets.map().contains_key(k) ==> final(targets).targets.map()[k] == old(targets).targets.map()[k]
                &&& final(targets).targets.map()["candle"@].target.obeys_target_spec()
                &&& final(targets).targets.map()["candle"@].target.spec_target_name() == "candle"@
            },
    {
        if targets.targets.contains_key("candle") {
            return;
        }
        let name = string_of("candle");
        proof {
            reveal_strlit("candle");
        }
        assert(name@ == "candle"@);
        let e = RegisteredTarget { target: Box::new(CandleCodegen) };
        targets.targets.insert(name, e);
        proof {
            assert(targets.targets.map().dom() =~= old(targets).targets.map().dom().insert("candle"@));
        }
    }
}

impl CodegenTarget for CandleCodegen {
    open spec fn obeys_target_spec(&self) -> bool {
        true
    }

    open spec fn spec_target_name(&self) -> Seq<char> {
        "candle"@
    }

    fn name(&self) -> (r: &'static str)
        ensures
            r@ == "candle"@,
    {
        "candle"
    }

    fn file_extension(&self) -> (r: &'static str)
        ensures
            r@ == "_candle.rs"@,
    {
        "_candle.rs"
    }

    fn generate(&self, graph: &Graph, codegens: &CodegenRegistry) -> (r: Vec<GeneratedFile>)
        ensures
            exists|bs: Seq<BlockV>, inits: Seq<Option<InitV>>, fwds: Seq<Seq<char>>|
                #![trigger candle_generated(graph.view_graph(), *codegens, bs, inits, fwds, r@)]
                candle_generated(graph.view_graph(), *codegens, bs, inits, fwds, r@),
    {
        generate_candle(graph, codegens)
    }
}

} // verus!
