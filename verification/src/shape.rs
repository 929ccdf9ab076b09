//! Shape inference: walking the graph in topological order and asking each
//! block's definition for its output shapes.
use vstd::prelude::*;

use crate::block::{BlockDef, BlockRegistry};
use crate::graph::{Block, BlockV, Edge, EdgeV, Graph, GraphV, Shape, blocks_view, clone_shape, edges_view, param_map_view, shapes_view};
use crate::graph_utils::{ids_of, is_topo_order, topo_sort_ids};
use crate::text::{clone_string, push_str, str_eq, string_of};

verus! {

/// A problem found while inferring shapes.
#[derive(Debug, Clone, PartialEq)]
pub struct ShapeError {
    pub block_id: String,
    pub message: String,
}

/// The model of a [`ShapeError`].
pub struct ShapeErrV {
    pub block_id: Seq<char>,
    pub message: Seq<char>,
}

pub open spec fn shape_errors_view(es: Seq<ShapeError>) -> Seq<ShapeErrV> {
    Seq::new(es.len(), |i: int| ShapeErrV { block_id: es[i].block_id@, message: es[i].message@ })
}

/// The graph with its shapes filled in, and the problems found.
#[derive(Debug)]
pub struct ShapeResult {
    pub graph: Graph,
    pub errors: Vec<ShapeError>,
}

/// What a block definition answered for one block: the inferred shapes (or
/// its message), its drawing preference and its parameter count.
pub struct OutcomeV {
    pub result: Result<Seq<Seq<usize>>, Seq<char>>,
    pub show_depth: bool,
    pub param_count: Option<usize>,
}

/// The blocks, edges and errors during inference.
pub struct InferV {
    pub blocks: Seq<BlockV>,
    pub edges: Seq<EdgeV>,
    pub errors: Seq<ShapeErrV>,
}

/// The first shape of a list, or the empty shape.
pub open spec fn first_or_empty(s: Seq<Seq<usize>>) -> Seq<usize> {
    if s.len() > 0 {
        s[0]
    } else {
        Seq::empty()
    }
}

/// The index of the block with id `id`.
pub open spec fn index_of_id(bs: Seq<BlockV>, id: Seq<char>) -> int {
    choose|i: int| 0 <= i < bs.len() && bs[i].id == id
}

pub open spec fn has_id(bs: Seq<BlockV>, id: Seq<char>) -> bool {
    exists|i: int| 0 <= i < bs.len() && bs[i].id == id
}

/// The shape an edge carries into its destination: its own shape when set,
/// else the first output of its source, else the empty shape.
pub open spec fn edge_input(bs: Seq<BlockV>, e: EdgeV) -> Seq<usize> {
    match e.shape {
        Some(s) => s,
        None => if has_id(bs, e.from) {
            first_or_empty(bs[index_of_id(bs, e.from)].output_shapes)
        } else {
            Seq::empty()
        },
    }
}

/// The input shapes of block `id`: one per edge into it, in edge order.
pub open spec fn incoming_shapes(bs: Seq<BlockV>, es: Seq<EdgeV>, id: Seq<char>) -> Seq<Seq<usize>>
    decreases es.len(),
{
    if es.len() == 0 {
        Seq::empty()
    } else {
        let rest = incoming_shapes(bs, es.drop_last(), id);
        if es.last().to == id {
            rest.push(edge_input(bs, es.last()))
        } else {
            rest
        }
    }
}

/// The message for a block type that has no definition.
pub open spec fn unknown_type_message(t: Seq<char>) -> Seq<char> {
    "Unknown block type: \""@ + t + "\""@
}

/// Block `id` inferred: its inputs gathered, its definition's answer (or
/// the unknown-type error) recorded, and its first output shape put on the
/// edges that leave it.
pub open spec fn infer_step(st: InferV, names: Set<Seq<char>>, id: Seq<char>, out: OutcomeV) -> InferV {
    let i = index_of_id(st.blocks, id);
    let b = st.blocks[i];
    let known = names.contains(b.block_type);
    let inputs = incoming_shapes(st.blocks, st.edges, id);
    let outs = if known {
        match out.result {
            Ok(s) => s,
            Err(_) => Seq::empty(),
        }
    } else {
        Seq::empty()
    };
    let errors = if !known {
        st.errors.push(ShapeErrV { block_id: id, message: unknown_type_message(b.block_type) })
    } else {
        match out.result {
            Ok(_) => st.errors,
            Err(m) => st.errors.push(ShapeErrV { block_id: id, message: m }),
        }
    };
    let nb = BlockV {
        input_shapes: inputs,
        output_shapes: outs,
        show_depth: Some(if known { out.show_depth } else { true }),
        param_count: if known { out.param_count } else { b.param_count },
        ..b
    };
    InferV {
        blocks: st.blocks.update(i, nb),
        edges: Seq::new(
            st.edges.len(),
            |k: int|
                if st.edges[k].from == id {
                    EdgeV { shape: Some(first_or_empty(outs)), ..st.edges[k] }
                } else {
                    st.edges[k]
                },
        ),
        errors,
    }
}

/// The blocks of `order` inferred in turn, block `k` with answer `outs[k]`.
pub open spec fn infer_all(st: InferV, names: Set<Seq<char>>, order: Seq<Seq<char>>, outs: Seq<OutcomeV>) -> InferV
    decreases order.len(),
{
    if order.len() == 0 || outs.len() != order.len() {
        st
    } else {
        infer_step(
            infer_all(st, names, order.drop_last(), outs.drop_last()),
            names,
            order.last(),
            outs.last(),
        )
    }
}

/// A block with no shapes yet.
pub open spec fn reset_block(b: BlockV) -> BlockV {
    BlockV { input_shapes: Seq::empty(), output_shapes: Seq::empty(), ..b }
}

/// An edge with no shape yet.
pub open spec fn reset_edge(e: EdgeV) -> EdgeV {
    EdgeV { shape: None, ..e }
}

/// The graph's blocks and edges with all shapes cleared, and no errors.
pub open spec fn reset_state(g: GraphV) -> InferV {
    InferV {
        blocks: Seq::new(g.blocks.len(), |i: int| reset_block(g.blocks[i])),
        edges: Seq::new(g.edges.len(), |i: int| reset_edge(g.edges[i])),
        errors: Seq::empty(),
    }
}

pub open spec fn cycle_message() -> Seq<char> {
    "Cycle detected in graph"@
}

/// Whether `out` is what the registered definition of block `id`'s type
/// answers for the block's incoming shapes and its parameters, when the
/// type has a definition that publishes its answers.
pub open spec fn outcome_fits(st: InferV, defs: Map<Seq<char>, Box<dyn BlockDef>>, id: Seq<char>, out: OutcomeV) -> bool {
    let b = st.blocks[index_of_id(st.blocks, id)];
    (defs.contains_key(b.block_type) && defs[b.block_type].obeys_block_spec()) ==> out.result == defs[b.block_type].spec_infer(
        incoming_shapes(st.blocks, st.edges, id),
        b.params,
    )
}

/// Whether each answer `outs[k]` is what the definitions give for block
/// `order[k]` in the state reached before it.
pub open spec fn outcomes_fit(
    st: InferV,
    defs: Map<Seq<char>, Box<dyn BlockDef>>,
    order: Seq<Seq<char>>,
    outs: Seq<OutcomeV>,
) -> bool {
    forall|k: int|
        0 <= k < order.len() ==> outcome_fits(
            infer_all(st, defs.dom(), order.take(k), outs.take(k)),
            defs,
            #[trigger] order[k],
            outs[k],
        )
}

/// What inferring the shapes of `g` with the registered definitions `defs`
/// gives: without a topological order, the cleared graph and the cycle
/// error; else the blocks inferred in a topological order, each with the
/// output shapes (or the message) its definition gives for its incoming
/// shapes and parameters.
pub open spec fn infers(g: GraphV, defs: Map<Seq<char>, Box<dyn BlockDef>>, res: InferV) -> bool {
    let init = reset_state(g);
    if forall|order: Seq<Seq<char>>| !is_topo_order(ids_of(g.blocks), g.edges, order) {
        &&& res.blocks == init.blocks
        &&& res.edges == init.edges
        &&& res.errors == seq![ShapeErrV { block_id: Seq::empty(), message: cycle_message() }]
    } else {
        exists|order: Seq<Seq<char>>, outs: Seq<OutcomeV>|
            #![trigger infer_all(init, defs.dom(), order, outs)]
            is_topo_order(ids_of(g.blocks), g.edges, order) && outs.len() == order.len() && outcomes_fit(
                init,
                defs,
                order,
                outs,
            ) && res == infer_all(init, defs.dom(), order, outs)
    }
}

pub open spec fn infer_view(blocks: Seq<Block>, edges: Seq<Edge>, errors: Seq<ShapeError>) -> InferV {
    InferV { blocks: blocks_view(blocks), edges: edges_view(edges), errors: shape_errors_view(errors) }
}

/// The index of the block with id `id`, if any.
pub fn find_block_index(blocks: &Vec<Block>, id: &String) -> (r: Option<usize>)
    ensures
        match r {
            Some(i) => i < blocks@.len() && blocks@[i as int].id@ == id@,
            None => !has_id(blocks_view(blocks@), id@),
        },
{
    let mut i: usize = 0;
    while i < blocks.len()
        invariant
            i <= blocks@.len(),
            forall|j: int| 0 <= j < i ==> blocks@[j].id@ != id@,
        decreases blocks@.len() - i,
    {
        if str_eq(blocks[i].id.as_str(), id.as_str()) {
            return Some(i);
        }
        i = i + 1;
    }
    proof {
        if has_id(blocks_view(blocks@), id@) {
            let j = choose|j: int| 0 <= j < blocks_view(blocks@).len() && blocks_view(blocks@)[j].id == id@;
            assert(blocks@[j].id@ == id@);
        }
    }
    None
}

/// With distinct ids, the block found is the one with that id.
proof fn lemma_index_of(bs: Seq<BlockV>, i: int)
    requires
        ids_of(bs).no_duplicates(),
        0 <= i < bs.len(),
    ensures
        has_id(bs, bs[i].id),
        index_of_id(bs, bs[i].id) == i,
{
    let j = index_of_id(bs, bs[i].id);
    assert(ids_of(bs)[i] == bs[i].id);
    if j != i {
        assert(ids_of(bs)[j] == bs[j].id);
    }
}

/// The input shapes of the block `id`, one per edge into it.
fn gather_inputs(blocks: &Vec<Block>, edges: &Vec<Edge>, id: &String) -> (r: Vec<Shape>)
    requires
        ids_of(blocks_view(blocks@)).no_duplicates(),
    ensures
        shapes_view(r@) == incoming_shapes(blocks_view(blocks@), edges_view(edges@), id@),
{
    let ghost bv = blocks_view(blocks@);
    let ghost ev = edges_view(edges@);
    let mut out: Vec<Shape> = Vec::new();
    let mut k: usize = 0;
    proof {
        assert(ev.take(0) =~= Seq::<EdgeV>::empty());
        assert(shapes_view(out@) =~= Seq::<Seq<usize>>::empty());
    }
    while k < edges.len()
        invariant
            k <= edges@.len(),
            bv == blocks_view(blocks@),
            ev == edges_view(edges@),
            ids_of(bv).no_duplicates(),
            shapes_view(out@) == incoming_shapes(bv, ev.take(k as int), id@),
        decreases edges@.len() - k,
    {
        proof {
            assert(ev.take(k + 1).drop_last() =~= ev.take(k as int));
            assert(ev.take(k + 1).last() == ev[k as int]);
        }
        let e = &edges[k];
        if str_eq(e.to.as_str(), id.as_str()) {
            let shape: Shape = match &e.shape {
                Some(s) => clone_shape(s),
                None => match find_block_index(blocks, &e.from) {
                    Some(j) => {
                        proof {
                            lemma_index_of(bv, j as int);
                        }
                        if blocks[j].output_shapes.len() > 0 {
                            clone_shape(&blocks[j].output_shapes[0])
                        } else {
                            Vec::new()
                        }
                    },
                    None => Vec::new(),
                },
            };
            proof {
                assert(shape@ == edge_input(bv, ev[k as int]));
            }
            let ghost before = shapes_view(out@);
            out.push(shape);
            proof {
                assert(shapes_view(out@) =~= before.push(shape@));
            }
        }
        k = k + 1;
    }
    proof {
        assert(ev.take(k as int) =~= ev);
    }
    out
}

/// The answer of a definition as a model.
pub open spec fn result_view(r: Result<Vec<Shape>, String>) -> Result<Seq<Seq<usize>>, Seq<char>> {
    match r {
        Ok(s) => Ok(shapes_view(s@)),
        Err(m) => Err(m@),
    }
}

/// Infers block `id`: gathers its inputs, asks its definition (or records
/// that the type is unknown), and puts its first output on its out-edges.
fn infer_block(
    blocks: &mut Vec<Block>,
    edges: &mut Vec<Edge>,
    errors: &mut Vec<ShapeError>,
    registry: &BlockRegistry,
    id: &String,
) -> (out: Ghost<OutcomeV>)
    requires
        ids_of(blocks_view(old(blocks)@)).no_duplicates(),
        has_id(blocks_view(old(blocks)@), id@),
    ensures
        infer_view(final(blocks)@, final(edges)@, final(errors)@) == infer_step(
            infer_view(old(blocks)@, old(edges)@, old(errors)@),
            registry.blocks.map().dom(),
            id@,
            out@,
        ),
        outcome_fits(infer_view(old(blocks)@, old(edges)@, old(errors)@), registry.blocks.map(), id@, out@),
        ids_of(blocks_view(final(blocks)@)) == ids_of(blocks_view(old(blocks)@)),
{
    let ghost st = infer_view(blocks@, edges@, errors@);
    let ghost names = registry.blocks.map().dom();
    let idx = match find_block_index(blocks, id) {
        Some(i) => i,
        None => {
            proof {
                assert(false);
            }
            0
        },
    };
    proof {
        lemma_index_of(st.blocks, idx as int);
    }
    let inputs = gather_inputs(blocks, edges, id);
    let mut nb = blocks[idx].copy_block();
    nb.input_shapes = inputs;
    let ghost mut outcome = OutcomeV { result: Ok(Seq::empty()), show_depth: true, param_count: None };
    let outs: Vec<Shape>;
    match registry.get(nb.block_type.as_str()) {
        Some(def) => {
            let res = def.infer_shape(nb.input_shapes.as_slice(), &nb.params);
            let sd = def.show_depth();
            let pc = def.param_count(nb.input_shapes.as_slice(), &nb.params);
            proof {
                outcome = OutcomeV { result: result_view(res), show_depth: sd, param_count: pc };
                assert(*def == registry.blocks.map()[nb.block_type@]);
                assert(nb.block_type@ == st.blocks[idx as int].block_type);
                assert(param_map_view(nb.params) == st.blocks[idx as int].params);
            }
            match res {
                Ok(shapes) => {
                    outs = shapes;
                },
                Err(msg) => {
                    let ghost m = msg@;
                    let ghost e0 = shape_errors_view(errors@);
                    errors.push(ShapeError { block_id: clone_string(id), message: msg });
                    proof {
                        assert(shape_errors_view(errors@) =~= e0.push(ShapeErrV { block_id: id@, message: m }));
                    }
                    outs = Vec::new();
                },
            }
            nb.show_depth = Some(sd);
            nb.param_count = pc;
        },
        None => {
            let mut m = string_of("Unknown block type: \"");
            push_str(&mut m, nb.block_type.as_str());
            push_str(&mut m, "\"");
            let ghost e0 = shape_errors_view(errors@);
            let ghost mv = m@;
            errors.push(ShapeError { block_id: clone_string(id), message: m });
            proof {
                assert(mv == unknown_type_message(nb.block_type@));
                assert(shape_errors_view(errors@) =~= e0.push(ShapeErrV { block_id: id@, message: mv }));
            }
            outs = Vec::new();
            nb.show_depth = Some(true);
        },
    }
    let first: Shape = if outs.len() > 0 {
        clone_shape(&outs[0])
    } else {
        Vec::new()
    };
    proof {
        if outs@.len() == 0 {
            assert(shapes_view(outs@) =~= Seq::<Seq<usize>>::empty());
        }
        assert(first@ == first_or_empty(shapes_view(outs@)));
    }
    nb.output_shapes = outs;
    let ghost b0 = blocks_view(blocks@);
    blocks.set(idx, nb);
    proof {
        assert(blocks_view(blocks@) =~= b0.update(idx as int, nb.view_block()));
    }
    let ghost e0 = edges_view(edges@);
    let mut k: usize = 0;
    while k < edges.len()
        invariant
            k <= edges@.len(),
            edges@.len() == e0.len(),
            forall|j: int|
                0 <= j < e0.len() ==> #[trigger] edges_view(edges@)[j] == if j < k && e0[j].from == id@ {
                    EdgeV { shape: Some(first@), ..e0[j] }
                } else {
                    e0[j]
                },
        decreases edges@.len() - k,
    {
        if str_eq(edges[k].from.as_str(), id.as_str()) {
            let mut e = edges[k].copy_edge();
            e.shape = Some(clone_shape(&first));
            let ghost ed = edges_view(edges@);
            edges.set(k, e);
            proof {
                assert forall|j: int| 0 <= j < e0.len() implies #[trigger] edges_view(edges@)[j] == if j < k + 1 && e0[j].from == id@ {
                    EdgeV { shape: Some(first@), ..e0[j] }
                } else {
                    e0[j]
                } by {
                    if j != k as int {
                        assert(edges_view(edges@)[j] == ed[j]);
                    }
                }
            }
        }
        k = k + 1;
    }
    proof {
        let target = infer_step(st, names, id@, outcome);
        assert(edges_view(edges@) =~= target.edges);
        assert(blocks_view(blocks@) =~= target.blocks);
        assert(shape_errors_view(errors@) =~= target.errors);
        assert(ids_of(blocks_view(blocks@)) =~= ids_of(b0));
    }
    Ghost(outcome)
}

/// Infers the shapes of the graph's blocks in topological order.
///
/// Returns a copy of the graph with `input_shapes`, `output_shapes`,
/// `show_depth` and `param_count` of each block and the `shape` of each edge
/// filled in: a block's inputs are the shapes of the edges into it, its
/// outputs what its definition infers (none, with an error, when the type is
/// unknown or the definition reports a problem), and every edge leaving it
/// carries its first output. A graph without a topological order gets the
/// single error "Cycle detected in graph" and no shapes.
pub fn infer_shapes(graph: &Graph, registry: &BlockRegistry) -> (r: ShapeResult)
    ensures
        r.graph.view_graph().groups == graph.view_graph().groups,
        infers(graph.view_graph(), registry.blocks.map(), infer_view(r.graph.blocks@, r.graph.edges@, r.errors@)),
{
    let ghost g = graph.view_graph();
    let ghost init = reset_state(g);
    let ghost names = registry.blocks.map().dom();
    let mut blocks: Vec<Block> = Vec::new();
    let mut i: usize = 0;
    while i < graph.blocks.len()
        invariant
            i <= graph.blocks@.len(),
            g == graph.view_graph(),
            init == reset_state(g),
            blocks_view(blocks@) == init.blocks.take(i as int),
        decreases graph.blocks@.len() - i,
    {
        let mut b = graph.blocks[i].copy_block();
        b.input_shapes = Vec::new();
        b.output_shapes = Vec::new();
        let ghost before = blocks_view(blocks@);
        blocks.push(b);
        proof {
            assert(shapes_view(b.input_shapes@) =~= Seq::<Seq<usize>>::empty());
            assert(shapes_view(b.output_shapes@) =~= Seq::<Seq<usize>>::empty());
            assert(blocks_view(blocks@) =~= before.push(reset_block(g.blocks[i as int])));
            assert(init.blocks.take(i + 1) =~= init.blocks.take(i as int).push(reset_block(g.blocks[i as int])));
        }
        i = i + 1;
    }
    let mut edges: Vec<Edge> = Vec::new();
    let mut j: usize = 0;
    while j < graph.edges.len()
        invariant
            j <= graph.edges@.len(),
            g == graph.view_graph(),
            init == reset_state(g),
            edges_view(edges@) == init.edges.take(j as int),
        decreases graph.edges@.len() - j,
    {
        let mut e = graph.edges[j].copy_edge();
        e.shape = None;
        let ghost before = edges_view(edges@);
        edges.push(e);
        proof {
            assert(edges_view(edges@) =~= before.push(reset_edge(g.edges[j as int])));
            assert(init.edges.take(j + 1) =~= init.edges.take(j as int).push(reset_edge(g.edges[j as int])));
        }
        j = j + 1;
    }
    let groups = graph.copy_graph().groups;
    let mut errors: Vec<ShapeError> = Vec::new();
    proof {
        assert(blocks_view(blocks@) =~= init.blocks);
        assert(edges_view(edges@) =~= init.edges);
        assert(shape_errors_view(errors@) =~= init.errors);
        assert(ids_of(blocks_view(blocks@)) =~= ids_of(g.blocks));
        assert(edges_view(edges@).len() == g.edges.len());
    }
    let order = match topo_sort_ids(blocks.as_slice(), edges.as_slice()) {
        Some(o) => o,
        None => {
            proof {
                assert forall|order: Seq<Seq<char>>| !is_topo_order(ids_of(g.blocks), g.edges, order) by {
                    if is_topo_order(ids_of(g.blocks), g.edges, order) {
                        lemma_topo_reset(ids_of(g.blocks), g.edges, init.edges, order);
                    }
                }
            }
            let ghost e0 = shape_errors_view(errors@);
            errors.push(ShapeError { block_id: String::new(), message: string_of("Cycle detected in graph") });
            proof {
                assert(shape_errors_view(errors@) =~= seq![ShapeErrV { block_id: Seq::empty(), message: cycle_message() }]);
            }
            return ShapeResult { graph: Graph { blocks, edges, groups }, errors };
        },
    };
    let ghost ov = crate::text::strs_view(order@);
    proof {
        lemma_topo_reset_back(ids_of(g.blocks), g.edges, init.edges, ov);
        crate::graph_utils::lemma_order_needs_distinct(ids_of(g.blocks), g.edges, ov);
    }
    let ghost mut outs: Seq<OutcomeV> = Seq::empty();
    let mut k: usize = 0;
    proof {
        assert(ov.take(0) =~= Seq::<Seq<char>>::empty());
    }
    while k < order.len()
        invariant
            k <= order@.len(),
            ov == crate::text::strs_view(order@),
            is_topo_order(ids_of(g.blocks), g.edges, ov),
            ids_of(g.blocks).no_duplicates(),
            ids_of(blocks_view(blocks@)) == ids_of(g.blocks),
            outs.len() == k,
            names == registry.blocks.map().dom(),
            infer_view(blocks@, edges@, errors@) == infer_all(init, names, ov.take(k as int), outs),
            outcomes_fit(init, registry.blocks.map(), ov.take(k as int), outs),
        decreases order@.len() - k,
    {
        proof {
            assert(ov.contains(ov[k as int]));
            assert(ids_of(g.blocks).contains(ov[k as int]));
            let m = choose|m: int| 0 <= m < ids_of(g.blocks).len() && ids_of(g.blocks)[m] == ov[k as int];
            assert(blocks_view(blocks@)[m].id == ov[k as int]);
            assert(has_id(blocks_view(blocks@), order@[k as int]@));
        }
        let ghost before = infer_view(blocks@, edges@, errors@);
        let out = infer_block(&mut blocks, &mut edges, &mut errors, registry, &order[k]);
        proof {
            let nk = ov.take(k + 1);
            let no = outs.push(out@);
            assert(nk.drop_last() =~= ov.take(k as int));
            assert(nk.last() == ov[k as int]);
            assert(no.drop_last() =~= outs);
            assert forall|j: int| 0 <= j < nk.len() implies outcome_fits(
                infer_all(init, registry.blocks.map().dom(), nk.take(j), no.take(j)),
                registry.blocks.map(),
                #[trigger] nk[j],
                no[j],
            ) by {
                if j < k {
                    assert(nk.take(j) =~= ov.take(k as int).take(j));
                    assert(no.take(j) =~= outs.take(j));
                    assert(nk[j] == ov.take(k as int)[j]);
                    assert(no[j] == outs[j]);
                } else {
                    assert(nk.take(j) =~= ov.take(k as int));
                    assert(no.take(j) =~= outs);
                    assert(nk[j] == order@[k as int]@);
                }
            }
            outs = no;
        }
        k = k + 1;
    }
    proof {
        assert(ov.take(k as int) =~= ov);
    }
    ShapeResult { graph: Graph { blocks, edges, groups }, errors }
}

/// Clearing edge shapes keeps the edge ends, so the orders are the same.
proof fn lemma_topo_reset(ids: Seq<Seq<char>>, es: Seq<EdgeV>, rs: Seq<EdgeV>, order: Seq<Seq<char>>)
    requires
        rs.len() == es.len(),
        forall|k: int| 0 <= k < es.len() ==> #[trigger] rs[k] == reset_edge(es[k]),
        is_topo_order(ids, es, order),
    ensures
        is_topo_order(ids, rs, order),
{
    reveal(crate::graph_utils::edges_forward);
    assert forall|k: int, i: int, j: int|
        #![trigger rs[k], order[i], order[j]]
        0 <= k < rs.len() && 0 <= i < order.len() && 0 <= j < order.len() && order[i] == rs[k].from
            && order[j] == rs[k].to implies i < j by {
        assert(es[k].from == rs[k].from);
        assert(es[k].to == rs[k].to);
    }
}

proof fn lemma_topo_reset_back(ids: Seq<Seq<char>>, es: Seq<EdgeV>, rs: Seq<EdgeV>, order: Seq<Seq<char>>)
    requires
        rs.len() == es.len(),
        forall|k: int| 0 <= k < es.len() ==> #[trigger] rs[k] == reset_edge(es[k]),
        is_topo_order(ids, rs, order),
    ensures
        is_topo_order(ids, es, order),
{
    reveal(crate::graph_utils::edges_forward);
    assert forall|k: int, i: int, j: int|
        #![trigger es[k], order[i], order[j]]
        0 <= k < es.len() && 0 <= i < order.len() && 0 <= j < order.len() && order[i] == es[k].from
            && order[j] == es[k].to implies i < j by {
        assert(es[k].from == rs[k].from);
        assert(es[k].to == rs[k].to);
    }
}


// ---------------------------------------------------------------------------
// What inference leaves alone
// ---------------------------------------------------------------------------

/// Whether `a` and `b` are the same block apart from what inference fills
/// in: id, type, parameters and location agree.
pub open spec fn same_block(a: BlockV, b: BlockV) -> bool {
    &&& a.id == b.id
    &&& a.block_type == b.block_type
    &&& a.params == b.params
    &&& a.loc == b.loc
}

/// Whether `a` and `b` are the same edge apart from its shape.
pub open spec fn same_edge(a: EdgeV, b: EdgeV) -> bool {
    &&& a.from == b.from
    &&& a.to == b.to
    &&& a.tensor_name == b.tensor_name
}

/// Whether `x` has the blocks and edges of `y`, shapes aside.
pub open spec fn same_structure(x: InferV, y: InferV) -> bool {
    &&& x.blocks.len() == y.blocks.len()
    &&& forall|i: int| 0 <= i < x.blocks.len() ==> same_block(#[trigger] x.blocks[i], y.blocks[i])
    &&& x.edges.len() == y.edges.len()
    &&& forall|k: int| 0 <= k < x.edges.len() ==> same_edge(#[trigger] x.edges[k], y.edges[k])
}

proof fn lemma_infer_all_structure(st: InferV, names: Set<Seq<char>>, order: Seq<Seq<char>>, outs: Seq<OutcomeV>)
    requires
        forall|x: Seq<char>| order.contains(x) ==> has_id(st.blocks, x),
    ensures
        same_structure(infer_all(st, names, order, outs), st),
    decreases order.len(),
{
    if order.len() == 0 || outs.len() != order.len() {
    } else {
        let o1 = order.drop_last();
        assert forall|x: Seq<char>| o1.contains(x) implies has_id(st.blocks, x) by {
            let k = choose|k: int| 0 <= k < o1.len() && o1[k] == x;
            assert(order[k] == x);
            assert(order.contains(x));
        }
        lemma_infer_all_structure(st, names, o1, outs.drop_last());
        let mid = infer_all(st, names, o1, outs.drop_last());
        let id = order.last();
        assert(order.contains(id)) by {
            assert(order[order.len() - 1] == id);
        }
        let j = choose|j: int| 0 <= j < st.blocks.len() && st.blocks[j].id == id;
        assert(same_block(mid.blocks[j], st.blocks[j]));
        assert(has_id(mid.blocks, id));
        let i = index_of_id(mid.blocks, id);
        let r = infer_step(mid, names, id, outs.last());
        assert(r == infer_all(st, names, order, outs));
        assert forall|q: int| 0 <= q < r.blocks.len() implies same_block(#[trigger] r.blocks[q], st.blocks[q]) by {
            assert(same_block(mid.blocks[q], st.blocks[q]));
        }
        assert forall|k: int| 0 <= k < r.edges.len() implies same_edge(#[trigger] r.edges[k], st.edges[k]) by {
            assert(same_edge(mid.edges[k], st.edges[k]));
        }
    }
}

/// Shape inference fills in shapes, parameter counts and drawing
/// preferences only: the blocks keep their ids, types, parameters and
/// locations, in the same order, and the edges their ends and names.
pub proof fn law_inference_keeps_structure(g: GraphV, defs: Map<Seq<char>, Box<dyn BlockDef>>, res: InferV)
    requires
        infers(g, defs, res),
    ensures
        same_structure(res, reset_state(g)),
        res.blocks.len() == g.blocks.len(),
        forall|i: int| 0 <= i < res.blocks.len() ==> same_block(#[trigger] res.blocks[i], g.blocks[i]),
        res.edges.len() == g.edges.len(),
        forall|k: int| 0 <= k < res.edges.len() ==> same_edge(#[trigger] res.edges[k], g.edges[k]),
{
    let init = reset_state(g);
    if forall|order: Seq<Seq<char>>| !is_topo_order(ids_of(g.blocks), g.edges, order) {
    } else {
        let names = defs.dom();
        let (order, outs) = choose|order: Seq<Seq<char>>, outs: Seq<OutcomeV>|
            is_topo_order(ids_of(g.blocks), g.edges, order) && outs.len() == order.len() && outcomes_fit(
                init,
                defs,
                order,
                outs,
            ) && res == infer_all(init, defs.dom(), order, outs);
        assert forall|x: Seq<char>| order.contains(x) implies has_id(init.blocks, x) by {
            assert(ids_of(g.blocks).contains(x));
            let k = choose|k: int| 0 <= k < ids_of(g.blocks).len() && ids_of(g.blocks)[k] == x;
            assert(init.blocks[k].id == x);
        }
        lemma_infer_all_structure(init, names, order, outs);
    }
    assert forall|i: int| 0 <= i < res.blocks.len() implies same_block(#[trigger] res.blocks[i], g.blocks[i]) by {
        assert(same_block(res.blocks[i], init.blocks[i]));
    }
    assert forall|k: int| 0 <= k < res.edges.len() implies same_edge(#[trigger] res.edges[k], g.edges[k]) by {
        assert(same_edge(res.edges[k], init.edges[k]));
    }
}

} // verus!
