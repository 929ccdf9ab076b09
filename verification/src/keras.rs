//! The Keras (Python) code-generation target.
use vstd::prelude::*;

use crate::candle::{block_code, class_name_of, fallback_forward, forward_fits, named_output, var_name, dfs_blocks, dims_list, dims_list_exec, find_named_output, find_test_output, model_class_name, collect_test_inputs, test_input_shapes, test_output_shape, var_name_exec};
use crate::codegen::{RegisteredTarget, CodegenRegistry, CodegenTarget, GeneratedFile, TargetRegistry};
use crate::graph::{Block, BlockV, EdgeV, Graph, GraphV, Shape, blocks_view, edges_view, shapes_view};
use crate::graph_builder::named_view;
use crate::graph_utils::{adjacency_entry, build_adjacency, ids_of, inputs_of, outputs_of, topo_sort, NodeInfo};
use crate::strmap::StrMap;
use crate::text::{clone_string, decimal, join, join_strings, push_str, str_eq, string_of, strs_view, usize_to_string};

verus! {

/// A comment listing shapes: `  # [1, 28, 28], [10]`, or nothing.
pub open spec fn shape_comment_text(shapes: Seq<Seq<usize>>) -> Seq<char> {
    if shapes.len() == 0 {
        Seq::empty()
    } else {
        "  # "@ + join(Seq::new(shapes.len(), |i: int| "["@ + dims_list(shapes[i]) + "]"@), ", "@)
    }
}

/// The shape comment of a list of shapes.
pub fn shape_comment(shapes: &Vec<Shape>) -> (r: String)
    ensures
        r@ == shape_comment_text(shapes_view(shapes@)),
{
    if shapes.len() == 0 {
        return String::new();
    }
    let ghost sv = shapes_view(shapes@);
    let mut parts: Vec<String> = Vec::new();
    let mut i: usize = 0;
    while i < shapes.len()
        invariant
            i <= shapes@.len(),
            sv == shapes_view(shapes@),
            strs_view(parts@) == Seq::new(i as nat, |k: int| "["@ + dims_list(sv[k]) + "]"@),
        decreases shapes@.len() - i,
    {
        let mut p = string_of("[");
        let d = dims_list_exec(&shapes[i]);
        push_str(&mut p, d.as_str());
        push_str(&mut p, "]");
        let ghost before = strs_view(parts@);
        let ghost pv = p@;
        parts.push(p);
        proof {
            assert(strs_view(parts@) =~= before.push(pv));
            assert(strs_view(parts@) =~= Seq::new((i + 1) as nat, |k: int| "["@ + dims_list(sv[k]) + "]"@));
        }
        i = i + 1;
    }
    let joined = join_strings(&parts, ", ");
    let mut r = string_of("  # ");
    push_str(&mut r, joined.as_str());
    r
}

/// The name of the `i`-th test input: `x`, then `x2`, `x3`, ...
pub open spec fn test_input_var(i: nat) -> Seq<char> {
    if i == 0 {
        "x"@
    } else {
        "x"@ + decimal(i + 1)
    }
}

/// The pytest file for a generated Keras model: random inputs of the
/// batched input shapes, and a check of the output shape. None without an
/// input shape or an output shape.
///
/// The arguments of the model call are the second whitespace-separated word
/// of each input line, which is always `=`.
pub open spec fn keras_test_content(bs: Seq<BlockV>) -> Option<Seq<char>> {
    let ins = test_input_shapes(bs);
    match test_output_shape(bs) {
        None => None,
        Some(out) => if ins.len() == 0 {
            None
        } else {
            let input_lines = Seq::new(
                ins.len(),
                |i: int| "    "@ + test_input_var(i as nat) + " = tf.random.normal(("@ + dims_list(ins[i]) + ",))"@,
            );
            let args = Seq::new(ins.len(), |i: int| "="@);
            Some(
                "import pytest\nimport tensorflow as tf\n\n\ndef test_build_model():\n    model = build_model()\n"@
                    + join(input_lines, "\n"@) + "\n    output = model("@ + join(args, ", "@)
                    + ", training=False)\n    assert output.shape == ("@ + dims_list(out) + ",)\n"@,
            )
        },
    }
}

/// The pytest file for the generated Keras model of `sorted`.
pub fn generate_keras_test(sorted: &Vec<Block>) -> (r: Option<String>)
    ensures
        match r {
            Some(s) => keras_test_content(blocks_view(sorted@)) == Some(s@),
            None => keras_test_content(blocks_view(sorted@)) is None,
        },
{
    let ghost bs = blocks_view(sorted@);
    let ins = collect_test_inputs(sorted);
    let out = match find_test_output(sorted) {
        Some(o) => o,
        None => return None,
    };
    if ins.len() == 0 {
        return None;
    }
    let ghost insv = shapes_view(ins@);
    let mut lines: Vec<String> = Vec::new();
    let mut args: Vec<String> = Vec::new();
    let mut i: usize = 0;
    while i < ins.len()
        invariant
            i <= ins@.len(),
            insv == shapes_view(ins@),
            strs_view(lines@) == Seq::new(
                i as nat,
                |k: int| "    "@ + test_input_var(k as nat) + " = tf.random.normal(("@ + dims_list(insv[k]) + ",))"@,
            ),
            strs_view(args@) == Seq::new(i as nat, |k: int| "="@),
        decreases ins@.len() - i,
    {
        let var = if i == 0 {
            string_of("x")
        } else {
            let mut v = string_of("x");
            let d = usize_to_string(i + 1);
            push_str(&mut v, d.as_str());
            v
        };
        proof {
            assert(var@ == test_input_var(i as nat));
        }
        let mut line = string_of("    ");
        push_str(&mut line, var.as_str());
        push_str(&mut line, " = tf.random.normal((");
        let d = dims_list_exec(&ins[i]);
        push_str(&mut line, d.as_str());
        push_str(&mut line, ",))");
        let ghost l0 = strs_view(lines@);
        let ghost lv = line@;
        lines.push(line);
        let ghost a0 = strs_view(args@);
        let eq = string_of("=");
        let ghost eqv = eq@;
        args.push(eq);
        proof {
            assert(strs_view(lines@) =~= l0.push(lv));
            assert(strs_view(lines@) =~= Seq::new(
                (i + 1) as nat,
                |k: int| "    "@ + test_input_var(k as nat) + " = tf.random.normal(("@ + dims_list(insv[k]) + ",))"@,
            ));
            assert(strs_view(args@) =~= a0.push(eqv));
            assert(strs_view(args@) =~= Seq::new((i + 1) as nat, |k: int| "="@));
        }
        i = i + 1;
    }
    let joined_lines = join_strings(&lines, "\n");
    let joined_args = join_strings(&args, ", ");
    let out_str = dims_list_exec(&out);
    let mut s = string_of("import pytest\nimport tensorflow as tf\n\n\ndef test_build_model():\n    model = build_model()\n");
    push_str(&mut s, joined_lines.as_str());
    push_str(&mut s, "\n    output = model(");
    push_str(&mut s, joined_args.as_str());
    push_str(&mut s, ", training=False)\n    assert output.shape == (");
    push_str(&mut s, out_str.as_str());
    push_str(&mut s, ",)\n");
    Some(s)
}

/// What generating a Keras model has built after some blocks: the variable
/// holding each block's output, the counter of fresh variable names, the
/// model's input and output variables and the body lines.
pub struct KerasState {
    pub vars: Map<Seq<char>, Seq<char>>,
    pub counter: usize,
    pub input_var: Seq<char>,
    pub output_var: Seq<char>,
    pub body: Seq<Seq<char>>,
}

/// The state before the first block.
pub open spec fn keras_start() -> KerasState {
    KerasState { vars: Map::empty(), counter: 0, input_var: "inputs"@, output_var: "x"@, body: Seq::empty() }
}

/// The counter after one more fresh name (it stays at its largest value).
pub open spec fn next_count(c: usize) -> usize {
    if c < usize::MAX {
        (c + 1) as usize
    } else {
        c
    }
}

/// The variable holding the output of block `id`, `x` when none does yet.
pub open spec fn var_of(vars: Map<Seq<char>, Seq<char>>, id: Seq<char>) -> Seq<char> {
    if vars.contains_key(id) {
        vars[id]
    } else {
        "x"@
    }
}

/// The variables holding the outputs of the blocks `ins`.
pub open spec fn input_vars_of(vars: Map<Seq<char>, Seq<char>>, ins: Seq<Seq<char>>) -> Seq<Seq<char>> {
    Seq::new(ins.len(), |k: int| var_of(vars, ins[k]))
}

/// The shape an `Input` block declares: its first output shape without the
/// batch size, or `None`.
pub open spec fn keras_input_shape(b: BlockV) -> Seq<char> {
    if b.output_shapes.len() > 0 && b.output_shapes[0].len() > 1 {
        dims_list(b.output_shapes[0].subrange(1, b.output_shapes[0].len() as int))
    } else {
        "None"@
    }
}

/// An `Input` block becomes a `keras.Input` line whose shape is the block's
/// first output shape without its leading (batch) dimension, followed by
/// the comment of its output shapes; the block's output variable becomes
/// the model's input.
pub proof fn law_keras_input_drops_batch(es: Seq<EdgeV>, st: KerasState, b: BlockV, fwd: Seq<char>)
    requires
        b.block_type == "Input"@,
        b.output_shapes.len() > 0,
        b.output_shapes[0].len() > 1,
    ensures
        keras_step(es, st, b, fwd).body == st.body.push(
            "    "@ + keras_step(es, st, b, fwd).input_var + " = keras.Input(shape=("@ + dims_list(
                b.output_shapes[0].drop_first(),
            ) + ",))"@ + shape_comment_text(b.output_shapes),
        ),
        keras_step(es, st, b, fwd).vars == st.vars.insert(b.id, keras_step(es, st, b, fwd).input_var),
{
    assert(b.output_shapes[0].subrange(1, b.output_shapes[0].len() as int) =~= b.output_shapes[0].drop_first());
}

/// The state after block `b`, whose generated forward code is `fwd` (used
/// for blocks other than `Input` and `Output`).
pub open spec fn keras_step(es: Seq<EdgeV>, st: KerasState, b: BlockV, fwd: Seq<char>) -> KerasState {
    let ivs = input_vars_of(st.vars, inputs_of(es, b.id));
    if b.block_type == "Input"@ {
        let out = match named_output(es, b.id) {
            Some(n) => n,
            None => st.input_var,
        };
        KerasState {
            vars: st.vars.insert(b.id, out),
            input_var: out,
            body: st.body.push(
                "    "@ + out + " = keras.Input(shape=("@ + keras_input_shape(b) + ",))"@ + shape_comment_text(
                    b.output_shapes,
                ),
            ),
            ..st
        }
    } else if b.block_type == "Output"@ {
        KerasState {
            output_var: if ivs.len() > 0 {
                ivs[0]
            } else {
                "x"@
            },
            body: st.body.push("    # output"@ + shape_comment_text(b.input_shapes)),
            ..st
        }
    } else {
        let c1 = keras_out_count(es, st, b);
        KerasState {
            vars: st.vars.insert(b.id, keras_out_var(es, st, b)),
            counter: if b.output_shapes.len() <= 1 {
                c1
            } else {
                next_count(c1)
            },
            body: st.body.push("    "@ + fwd + shape_comment_text(b.output_shapes)),
            ..st
        }
    }
}

/// The counter after naming the output variable of block `b`: a fresh
/// name is taken when the block names no tensor and feeds several blocks.
pub open spec fn keras_out_count(es: Seq<EdgeV>, st: KerasState, b: BlockV) -> usize {
    if named_output(es, b.id) is None && outputs_of(es, b.id).len() > 1 {
        next_count(st.counter)
    } else {
        st.counter
    }
}

/// The variable holding the output of block `b`: the tensor it names, else
/// `x` when it feeds at most one block, else a fresh name.
pub open spec fn keras_out_var(es: Seq<EdgeV>, st: KerasState, b: BlockV) -> Seq<char> {
    match named_output(es, b.id) {
        Some(n) => n,
        None => if outputs_of(es, b.id).len() <= 1 {
            "x"@
        } else {
            var_name(keras_out_count(es, st, b) as nat)
        },
    }
}

/// The output variables handed to block `b`'s generator: its output
/// variable, or for several outputs a fresh base name with `_0`, `_1`, ...
pub open spec fn keras_output_vars(es: Seq<EdgeV>, st: KerasState, b: BlockV) -> Seq<Seq<char>> {
    if b.output_shapes.len() <= 1 {
        seq![keras_out_var(es, st, b)]
    } else {
        let base = var_name(next_count(keras_out_count(es, st, b)) as nat);
        Seq::new(b.output_shapes.len(), |k: int| base + "_"@ + decimal(k as nat))
    }
}

/// The state after the blocks `bs`, block `j` having forward code `fwds[j]`.
pub open spec fn keras_run(es: Seq<EdgeV>, bs: Seq<BlockV>, fwds: Seq<Seq<char>>) -> KerasState
    decreases bs.len(),
{
    if bs.len() == 0 {
        keras_start()
    } else {
        keras_step(es, keras_run(es, bs.drop_last(), fwds.drop_last()), bs.last(), fwds.last())
    }
}

#[verifier::opaque]
/// Whether the forward code `fwds` is what the blocks' Keras generators give
/// for each block and its input and output variables (the pass-through of
/// its first input for a block with no generator).
pub open spec fn keras_forwards_fit(
    es: Seq<EdgeV>,
    bs: Seq<BlockV>,
    fwds: Seq<Seq<char>>,
    codegens: CodegenRegistry,
) -> bool {
    &&& fwds.len() == bs.len()
    &&& forall|j: int|
        0 <= j < bs.len() && (#[trigger] bs[j]).block_type != "Input"@ && bs[j].block_type != "Output"@
            ==> forward_fits(
            codegens,
            "keras"@,
            bs[j],
            input_vars_of(keras_run(es, bs.take(j), fwds.take(j)).vars, inputs_of(es, bs[j].id)),
            keras_output_vars(es, keras_run(es, bs.take(j), fwds.take(j)), bs[j]),
            fwds[j],
        )
}

/// The lines of a generated Keras model: the imports, `build_model` with the
/// blocks' lines, and the returned model.
pub open spec fn keras_content(body: Seq<Seq<char>>, input_var: Seq<char>, output_var: Seq<char>) -> Seq<char> {
    join(
        seq![
            "import tensorflow as tf"@,
            "from tensorflow import keras"@,
            Seq::empty(),
            Seq::empty(),
            "def build_model():"@,
        ] + body + seq!["    return keras.Model(inputs="@ + input_var + ", outputs="@ + output_var + ")"@],
        "\n"@,
    ) + "\n"@
}

/// The Keras files for graph `g`: the blocks `bs` in depth-first order,
/// `fwds` the forward code their generators gave, and `files` what was
/// generated from them.
pub open spec fn keras_generated(
    g: GraphV,
    codegens: CodegenRegistry,
    bs: Seq<BlockV>,
    fwds: Seq<Seq<char>>,
    files: Seq<GeneratedFile>,
) -> bool {
    let st = keras_run(g.edges, bs, fwds);
    &&& dfs_blocks(g, bs)
    &&& keras_forwards_fit(g.edges, bs, fwds, codegens)
    &&& files.len() >= 1
    &&& files[0].path@ == class_name_of(g) + ".keras.py"@
    &&& files[0].content@ == keras_content(st.body, st.input_var, st.output_var)
    &&& match keras_test_content(bs) {
        Some(t) => files.len() == 2 && files[1].path@ == class_name_of(g) + ".keras.test.py"@ && files[1].content@
            == t,
        None => files.len() == 1,
    }
}

proof fn lemma_keras_fit_push(
    es: Seq<EdgeV>,
    bs: Seq<BlockV>,
    fw: Seq<Seq<char>>,
    j: int,
    f: Seq<char>,
    codegens: CodegenRegistry,
)
    requires
        0 <= j < bs.len(),
        fw.len() == j,
        keras_forwards_fit(es, bs.take(j), fw, codegens),
        (bs[j].block_type != "Input"@ && bs[j].block_type != "Output"@) ==> forward_fits(
            codegens,
            "keras"@,
            bs[j],
            input_vars_of(keras_run(es, bs.take(j), fw).vars, inputs_of(es, bs[j].id)),
            keras_output_vars(es, keras_run(es, bs.take(j), fw), bs[j]),
            f,
        ),
    ensures
        keras_forwards_fit(es, bs.take(j + 1), fw.push(f), codegens),
        keras_run(es, bs.take(j + 1), fw.push(f)) == keras_step(es, keras_run(es, bs.take(j), fw), bs[j], f),
{
    reveal(keras_forwards_fit);
    let bs1 = bs.take(j + 1);
    let fw1 = fw.push(f);
    assert(bs1.drop_last() =~= bs.take(j));
    assert(fw1.drop_last() =~= fw);
    assert(bs1.last() == bs[j]);
    assert forall|jj: int|
        0 <= jj < bs1.len() && (#[trigger] bs1[jj]).block_type != "Input"@ && bs1[jj].block_type != "Output"@
            implies forward_fits(
            codegens,
            "keras"@,
            bs1[jj],
            input_vars_of(keras_run(es, bs1.take(jj), fw1.take(jj)).vars, inputs_of(es, bs1[jj].id)),
            keras_output_vars(es, keras_run(es, bs1.take(jj), fw1.take(jj)), bs1[jj]),
            fw1[jj],
        ) by {
        if jj < j {
            assert(bs1.take(jj) =~= bs.take(j).take(jj));
            assert(fw1.take(jj) =~= fw.take(jj));
            assert(bs1[jj] == bs.take(j)[jj]);
            assert(fw1[jj] == fw[jj]);
        } else {
            assert(bs1.take(jj) =~= bs.take(j));
            assert(fw1.take(jj) =~= fw);
        }
    }
}

/// One block of a generated Keras model: its line of `build_model`, and
/// the variables it updates.
fn keras_block(
    graph: &Graph,
    codegens: &CodegenRegistry,
    info: &NodeInfo,
    b: &Block,
    block_output_var: &mut StrMap<String>,
    var_counter: &mut usize,
    input_var: &mut String,
    output_var: &mut String,
    body: &mut Vec<String>,
) -> (fwd: Ghost<Seq<char>>)
    requires
        strs_view(info.inputs@) == inputs_of(edges_view(graph.edges@), b.id@),
        strs_view(info.outputs@) == outputs_of(edges_view(graph.edges@), b.id@),
    ensures
        ({
            let es = edges_view(graph.edges@);
            let st = KerasState {
                vars: named_view(*old(block_output_var)),
                counter: *old(var_counter),
                input_var: old(input_var)@,
                output_var: old(output_var)@,
                body: strs_view(old(body)@),
            };
            let st2 = keras_step(es, st, b.view_block(), fwd@);
            &&& named_view(*final(block_output_var)) == st2.vars
            &&& *final(var_counter) == st2.counter
            &&& final(input_var)@ == st2.input_var
            &&& final(output_var)@ == st2.output_var
            &&& strs_view(final(body)@) == st2.body
            &&& (b.view_block().block_type != "Input"@ && b.view_block().block_type != "Output"@) ==> forward_fits(
                *codegens,
                "keras"@,
                b.view_block(),
                input_vars_of(st.vars, inputs_of(es, b.id@)),
                keras_output_vars(es, st, b.view_block()),
                fwd@,
            )
        }),
{
    let ghost es = edges_view(graph.edges@);
    let ghost st = KerasState {
        vars: named_view(*block_output_var),
        counter: *var_counter,
        input_var: input_var@,
        output_var: output_var@,
        body: strs_view(body@),
    };
    let ghost bv = b.view_block();
    let ghost ivs = input_vars_of(st.vars, inputs_of(es, bv.id));
    let ghost mut f: Seq<char> = Seq::empty();
    let mut input_vars: Vec<String> = Vec::new();
    let mut k: usize = 0;
    while k < info.inputs.len()
        invariant
            k <= info.inputs@.len(),
            strs_view(info.inputs@) == inputs_of(es, bv.id),
            named_view(*block_output_var) == st.vars,
            strs_view(input_vars@) == ivs.take(k as int),
            ivs == input_vars_of(st.vars, inputs_of(es, bv.id)),
        decreases info.inputs@.len() - k,
    {
        let ghost iv0 = strs_view(input_vars@);
        proof {
            assert(strs_view(info.inputs@)[k as int] == info.inputs@[k as int]@);
        }
        match block_output_var.get(info.inputs[k].as_str()) {
            Some(v) => input_vars.push(clone_string(v)),
            None => input_vars.push(string_of("x")),
        }
        proof {
            assert(strs_view(input_vars@) =~= iv0.push(ivs[k as int]));
            assert(ivs.take(k + 1) =~= ivs.take(k as int).push(ivs[k as int]));
        }
        k = k + 1;
    }
    proof {
        assert(ivs.take(k as int) =~= ivs);
        reveal_strlit("Input");
        reveal_strlit("Output");
    }
    if str_eq(b.block_type.as_str(), "Input") {
        let mut shape_str = string_of("None");
        if b.output_shapes.len() > 0 && b.output_shapes[0].len() > 1 {
            let first = &b.output_shapes[0];
            let mut spatial: Vec<usize> = Vec::new();
            let mut q: usize = 1;
            while q < first.len()
                invariant
                    1 <= q <= first@.len(),
                    spatial@ == first@.subrange(1, q as int),
                decreases first@.len() - q,
            {
                spatial.push(first[q]);
                proof {
                    assert(first@.subrange(1, q + 1) =~= first@.subrange(1, q as int).push(first@[q as int]));
                }
                q = q + 1;
            }
            shape_str = dims_list_exec(&spatial);
            proof {
                assert(shapes_view(b.output_shapes@)[0] == first@);
            }
        }
        let out_var = match find_named_output(graph, &b.id) {
            Some(n) => n,
            None => clone_string(input_var),
        };
        block_output_var.insert(clone_string(&b.id), clone_string(&out_var));
        let sc = shape_comment(&b.output_shapes);
        let mut line = string_of("    ");
        push_str(&mut line, out_var.as_str());
        push_str(&mut line, " = keras.Input(shape=(");
        push_str(&mut line, shape_str.as_str());
        push_str(&mut line, ",))");
        push_str(&mut line, sc.as_str());
        let ghost b0 = strs_view(body@);
        let ghost lv = line@;
        body.push(line);
        *input_var = out_var;
        proof {
            reveal_strlit("None");
            reveal_strlit("    ");
            reveal_strlit(" = keras.Input(shape=(");
            reveal_strlit(",))");
            assert(strs_view(body@) =~= b0.push(lv));
        }
    } else if str_eq(b.block_type.as_str(), "Output") {
        *output_var = if input_vars.len() > 0 {
            clone_string(&input_vars[0])
        } else {
            string_of("x")
        };
        let sc = shape_comment(&b.input_shapes);
        let mut line = string_of("    # output");
        push_str(&mut line, sc.as_str());
        let ghost b0 = strs_view(body@);
        let ghost lv = line@;
        body.push(line);
        proof {
            reveal_strlit("    # output");
            assert(strs_view(body@) =~= b0.push(lv));
            if input_vars@.len() > 0 {
                assert(strs_view(input_vars@)[0] == input_vars@[0]@);
            }
        }
    } else {
        let named = find_named_output(graph, &b.id);
        let single = info.outputs.len() <= 1;
        proof {
            assert(strs_view(info.outputs@).len() == info.outputs@.len());
        }
        let out_var = match named {
            Some(n) => n,
            None => {
                if single {
                    string_of("x")
                } else {
                    *var_counter = if *var_counter < usize::MAX {
                        *var_counter + 1
                    } else {
                        *var_counter
                    };
                    var_name_exec(*var_counter)
                }
            },
        };
        block_output_var.insert(clone_string(&b.id), clone_string(&out_var));
        let out_count = b.output_shapes.len();
        let mut output_vars: Vec<String> = Vec::new();
        proof {
            assert(*var_counter == keras_out_count(es, st, bv));
            assert(out_var@ == keras_out_var(es, st, bv));
            assert(out_count == bv.output_shapes.len());
        }
        if out_count <= 1 {
            let ghost ov = out_var@;
            output_vars.push(out_var);
            proof {
                assert(strs_view(output_vars@) =~= seq![ov]);
            }
        } else {
            *var_counter = if *var_counter < usize::MAX {
                *var_counter + 1
            } else {
                *var_counter
            };
            let base = var_name_exec(*var_counter);
            let mut k2: usize = 0;
            while k2 < out_count
                invariant
                    k2 <= out_count,
                    strs_view(output_vars@) == Seq::new(k2 as nat, |k: int| base@ + "_"@ + decimal(k as nat)),
                decreases out_count - k2,
            {
                let idx = usize_to_string(k2);
                let mut v = clone_string(&base);
                push_str(&mut v, "_");
                push_str(&mut v, idx.as_str());
                let ghost o0 = strs_view(output_vars@);
                let ghost vv = v@;
                output_vars.push(v);
                proof {
                    reveal_strlit("_");
                    assert(strs_view(output_vars@) =~= o0.push(vv));
                    assert(strs_view(output_vars@) =~= Seq::new((k2 + 1) as nat, |k: int| base@ + "_"@ + decimal(k as nat)));
                }
                k2 = k2 + 1;
            }
        }
        proof {
            assert(strs_view(output_vars@) == keras_output_vars(es, st, bv));
        }
        let result = block_code(codegens, "keras", b, &input_vars, &output_vars);
        let sc = shape_comment(&b.output_shapes);
        let mut line = string_of("    ");
        push_str(&mut line, result.forward.as_str());
        push_str(&mut line, sc.as_str());
        let ghost b0 = strs_view(body@);
        let ghost lv = line@;
        body.push(line);
        proof {
            reveal_strlit("keras");
            reveal_strlit("x");
            reveal_strlit("    ");
            f = result.forward@;
            assert(strs_view(body@) =~= b0.push(lv));
        }
    }

    proof {
        assert(named_view(*block_output_var) =~= keras_step(es, st, bv, f).vars);
    }
    Ghost(f)
}

/// The files generated for the Keras target: `{model}.keras.py` with
/// `build_model`, and `{model}.keras.test.py` when the graph has input and
/// output shapes.
#[verifier::rlimit(100)]
pub fn generate_keras(graph: &Graph, codegens: &CodegenRegistry) -> (r: Vec<GeneratedFile>)
    ensures
        exists|bs: Seq<BlockV>, fwds: Seq<Seq<char>>|
            #![trigger keras_run(graph.view_graph().edges, bs, fwds)]
            keras_generated(graph.view_graph(), *codegens, bs, fwds, r@),
{
    let ghost g = graph.view_graph();
    let ghost es = g.edges;
    let adj = build_adjacency(graph);
    let sorted = topo_sort(graph);
    let ghost bs = blocks_view(sorted@);
    let mut body: Vec<String> = Vec::new();
    let mut block_output_var: StrMap<String> = StrMap::new();
    let mut var_counter: usize = 0;
    let mut input_var = string_of("inputs");
    let mut output_var = string_of("x");
    let ghost mut fw: Seq<Seq<char>> = Seq::empty();
    proof {
        reveal(keras_forwards_fit);
        assert(bs.take(0) =~= Seq::<BlockV>::empty());
        assert(named_view(block_output_var) =~= Map::<Seq<char>, Seq<char>>::empty());
        assert(strs_view(body@) =~= Seq::<Seq<char>>::empty());
    }
    let mut j: usize = 0;
    while j < sorted.len()
        invariant
            j <= sorted@.len(),
            g == graph.view_graph(),
            es == g.edges,
            bs == blocks_view(sorted@),
            dfs_blocks(g, bs),
            forall|id: Seq<char>| adj.map().contains_key(id) <==> ids_of(g.blocks).contains(id),
            forall|id: Seq<char>| #[trigger] adj.map().contains_key(id) ==> adjacency_entry(g, id, adj.map()[id]),
            fw.len() == j,
            keras_forwards_fit(es, bs.take(j as int), fw, *codegens),
            ({
                let st = keras_run(es, bs.take(j as int), fw);
                &&& named_view(block_output_var) == st.vars
                &&& var_counter == st.counter
                &&& input_var@ == st.input_var
                &&& output_var@ == st.output_var
                &&& strs_view(body@) == st.body
            }),
        decreases sorted@.len() - j,
    {
        let b = &sorted[j];
        let ghost bv = bs[j as int];
        let ghost mut f: Seq<char> = Seq::empty();
        proof {
            assert(bv == b.view_block());
            assert(ids_of(bs)[j as int] == bv.id);
            assert(ids_of(bs).contains(bv.id));
            assert(ids_of(g.blocks).contains(bv.id));
            assert(adj.map().contains_key(b.id@));
        }
        match adj.get(b.id.as_str()) {
            Some(info) => {
                proof {
                    assert(adjacency_entry(g, b.id@, *info));
                }
                let fg = keras_block(
                    graph,
                    codegens,
                    info,
                    b,
                    &mut block_output_var,
                    &mut var_counter,
                    &mut input_var,
                    &mut output_var,
                    &mut body,
                );
                proof {
                    f = fg@;
                }
            },
            None => {
                proof {
                    assert(false);
                }
            },
        }
        proof {
            let fw1 = fw.push(f);
            lemma_keras_fit_push(es, bs, fw, j as int, f, *codegens);
            assert(named_view(block_output_var) =~= keras_run(es, bs.take(j + 1), fw1).vars);
            fw = fw1;
        }
        j = j + 1;
    }
    proof {
        assert(bs.take(j as int) =~= bs);
    }
    let model_name = model_class_name(graph);
    let mut lines: Vec<String> = Vec::new();
    lines.push(string_of("import tensorflow as tf"));
    lines.push(string_of("from tensorflow import keras"));
    lines.push(String::new());
    lines.push(String::new());
    lines.push(string_of("def build_model():"));
    let ghost head = strs_view(lines@);
    let mut i: usize = 0;
    while i < body.len()
        invariant
            i <= body@.len(),
            strs_view(lines@) == head + strs_view(body@).take(i as int),
        decreases body@.len() - i,
    {
        let ghost before = strs_view(lines@);
        let l = clone_string(&body[i]);
        lines.push(l);
        proof {
            assert(strs_view(lines@) =~= before.push(body@[i as int]@));
            assert(strs_view(body@).take(i + 1) =~= strs_view(body@).take(i as int).push(body@[i as int]@));
        }
        i = i + 1;
    }
    let mut ret = string_of("    return keras.Model(inputs=");
    push_str(&mut ret, input_var.as_str());
    push_str(&mut ret, ", outputs=");
    push_str(&mut ret, output_var.as_str());
    push_str(&mut ret, ")");
    let ghost before = strs_view(lines@);
    let ghost rv = ret@;
    lines.push(ret);
    proof {
        reveal_strlit("");
        assert(strs_view(body@).take(i as int) =~= strs_view(body@));
        assert(strs_view(lines@) =~= before.push(rv));
        assert(strs_view(lines@) =~= seq![
            "import tensorflow as tf"@,
            "from tensorflow import keras"@,
            Seq::empty(),
            Seq::empty(),
            "def build_model():"@,
        ] + strs_view(body@) + seq!["    return keras.Model(inputs="@ + input_var@ + ", outputs="@ + output_var@ + ")"@]);
    }
    let mut content = join_strings(&lines, "\n");
    push_str(&mut content, "\n");
    let mut path = clone_string(&model_name);
    push_str(&mut path, ".keras.py");
    let mut files: Vec<GeneratedFile> = Vec::new();
    files.push(GeneratedFile { path, content });
    match generate_keras_test(&sorted) {
        Some(tc) => {
            let mut tp = clone_string(&model_name);
            push_str(&mut tp, ".keras.test.py");
            files.push(GeneratedFile { path: tp, content: tc });
        },
        None => {},
    }
    proof {
        assert(dfs_blocks(g, bs));
        assert(files@[0].content@ == keras_content(strs_view(body@), input_var@, output_var@));
        assert(keras_generated(g, *codegens, bs, fw, files@));
    }
    files
}

/// The Keras (Python) target.
pub struct KerasCodegen;

impl KerasCodegen {
    /// Registers this target under the name "keras", unless a target of that
    /// name is registered already: registering again changes nothing.
    pub fn register(targets: &mut TargetRegistry)
        ensures
            old(targets).targets.map().contains_key("keras"@) ==> *final(targets) == *old(targets),
            !old(targets).targets.map().contains_key("keras"@) ==> {
                &&& final(targets).targets.key_seq() == old(targets).targets.key_seq().push("keras"@)
                &&& final(targets).targets.map().dom() == old(targets).targets.map().dom().insert("keras"@)
                &&& forall|k: Seq<char>|
                    k != "keras"@ && #[trigger] old(targets).targets.map().contains_key(k) ==> final(targets).targets.map()[k] == old(targets).targets.map()[k]
                &&& final(targets).targets.map()["keras"@].target.obeys_target_spec()
                &&& final(targets).targets.map()["keras"@].target.spec_target_name() == "keras"@
            },
    {
        if targets.targets.contains_key("keras") {
            return;
        }
        let name = string_of("keras");
        proof {
            reveal_strlit("keras");
        }
        assert(name@ == "keras"@);
        let e = RegisteredTarget { target: Box::new(KerasCodegen) };
        targets.targets.insert(name, e);
        proof {
            assert(targets.targets.map().dom() =~= old(targets).targets.map().dom().insert("keras"@));
        }
    }
}

impl CodegenTarget for KerasCodegen {
    open spec fn obeys_target_spec(&self) -> bool {
        true
    }

    open spec fn spec_target_name(&self) -> Seq<char> {
        "keras"@
    }

    fn name(&self) -> (r: &'static str)
        ensures
            r@ == "keras"@,
    {
        "keras"
    }

    fn file_extension(&self) -> (r: &'static str)
        ensures
            r@ == "keras.py"@,
    {
        "keras.py"
    }

    fn generate(&self, graph: &Graph, codegens: &CodegenRegistry) -> (r: Vec<GeneratedFile>)
        ensures
            exists|bs: Seq<BlockV>, fwds: Seq<Seq<char>>|
                #![trigger keras_run(graph.view_graph().edges, bs, fwds)]
                keras_generated(graph.view_graph(), *codegens, bs, fwds, r@),
    {
        generate_keras(graph, codegens)
    }
}

/// Registers the built-in code-generation targets (Keras and Candle).
pub fn register_all_codegen_targets(targets: &mut TargetRegistry)
    ensures
        final(targets).targets.map().contains_key("keras"@),
        final(targets).targets.map().contains_key("candle"@),
        old(targets).targets.map().contains_key("keras"@) && old(targets).targets.map().contains_key("candle"@)
            ==> *final(targets) == *old(targets),
        final(targets).targets.map().dom() == old(targets).targets.map().dom().insert("keras"@).insert("candle"@),
        forall|k: Seq<char>|
            k != "keras"@ && k != "candle"@ && #[trigger] old(targets).targets.map().contains_key(k)
                ==> final(targets).targets.map()[k] == old(targets).targets.map()[k],
        !old(targets).targets.map().contains_key("keras"@) ==> final(targets).targets.map()["keras"@].target.obeys_target_spec()
            && final(targets).targets.map()["keras"@].target.spec_target_name() == "keras"@,
        !old(targets).targets.map().contains_key("candle"@) ==> final(targets).targets.map()["candle"@].target.obeys_target_spec()
            && final(targets).targets.map()["candle"@].target.spec_target_name() == "candle"@,
{
    KerasCodegen::register(targets);
    let ghost mid = *targets;
    proof {
        assert(mid.targets.map().contains_key("keras"@));
    }
    crate::candle::CandleCodegen::register(targets);
    proof {
        reveal_strlit("keras");
        reveal_strlit("candle");
        assert("keras"@.len() == 5 && "candle"@.len() == 6);
        assert("keras"@ != "candle"@);
        assert(targets.targets.map().contains_key("keras"@));
        assert(targets.targets.map().dom() =~= old(targets).targets.map().dom().insert("keras"@).insert("candle"@));
        assert forall|k: Seq<char>|
            k != "keras"@ && k != "candle"@ && #[trigger] old(targets).targets.map().contains_key(k) implies targets.targets.map()[k]
                == old(targets).targets.map()[k] by {
            assert(mid.targets.map().contains_key(k));
            assert(mid.targets.map()[k] == old(targets).targets.map()[k]);
            assert(targets.targets.map()[k] == mid.targets.map()[k]);
        }
        if !old(targets).targets.map().contains_key("keras"@) {
            assert(targets.targets.map()["keras"@] == mid.targets.map()["keras"@]);
        }
    }
}


} // verus!
