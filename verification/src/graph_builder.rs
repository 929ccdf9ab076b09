//! Turning the parsed document into a [`Graph`]: block ids, chain edges,
//! named tensors, joins and groups.
use vstd::prelude::*;

use crate::graph::{Block, BlockV, Edge, EdgeV, Graph, GraphV, Group, GroupV, blocks_view, edges_view, groups_view, param_map_view};
use crate::shape::has_id;
use crate::nodes::{ASTNode, BlockDecl, BlockDeclV, GroupDecl, NodeV, PV, Param, ParamV, ParamValue, nodes_view, params_view};
use crate::strmap::StrMap;
use crate::text::{clone_string, clone_strings, decimal, digit_char, push_str, str_eq, strs_view, usize_to_string};

verus! {

// ---------------------------------------------------------------------------
// Model
// ---------------------------------------------------------------------------

/// The state of graph construction.
pub struct BuildV {
    pub blocks: Seq<BlockV>,
    pub edges: Seq<EdgeV>,
    pub groups: Seq<GroupV>,
    /// How many blocks of each type exist so far
    pub counts: Map<Seq<char>, usize>,
    /// Tensor name to the id of the block that produced it
    pub named: Map<Seq<char>, Seq<char>>,
    /// The last block of the current chain
    pub tail: Option<Seq<char>>,
}

pub open spec fn empty_build() -> BuildV {
    BuildV {
        blocks: Seq::empty(),
        edges: Seq::empty(),
        groups: Seq::empty(),
        counts: Map::empty(),
        named: Map::empty(),
        tail: None,
    }
}

/// How many blocks of type `t` exist.
pub open spec fn count_of(counts: Map<Seq<char>, usize>, t: Seq<char>) -> nat {
    if counts.contains_key(t) {
        counts[t] as nat
    } else {
        0
    }
}

/// The id of the `n`-th block of type `t`, counting from 0: `"{t}_{n}"`.
pub open spec fn block_id(t: Seq<char>, n: nat) -> Seq<char> {
    t + "_"@ + decimal(n)
}

/// A parameter list as a map; a later parameter of the same name wins.
pub open spec fn record(ps: Seq<ParamV>) -> Map<Seq<char>, PV>
    decreases ps.len(),
{
    if ps.len() == 0 {
        Map::empty()
    } else {
        record(ps.drop_last()).insert(ps.last().name, ps.last().value)
    }
}

/// The id that the next block of `decl`'s type gets.
pub open spec fn next_id(st: BuildV, decl: BlockDeclV) -> Seq<char> {
    block_id(decl.block_type, count_of(st.counts, decl.block_type))
}

/// A fresh block for `decl` (nothing inferred yet).
pub open spec fn fresh_block(decl: BlockDeclV, id: Seq<char>) -> BlockV {
    BlockV {
        id,
        block_type: decl.block_type,
        params: record(decl.params),
        input_shapes: Seq::empty(),
        output_shapes: Seq::empty(),
        param_count: None,
        show_depth: None,
        loc: decl.loc,
    }
}

/// The groups with `id` appended to every group whose index is on `stack`.
pub open spec fn add_to_groups(groups: Seq<GroupV>, stack: Seq<usize>, id: Seq<char>) -> Seq<GroupV> {
    Seq::new(
        groups.len(),
        |j: int|
            if stack.contains(j as usize) {
                GroupV { path: groups[j].path, block_ids: groups[j].block_ids.push(id) }
            } else {
                groups[j]
            },
    )
}

/// Adds the block for `decl`: its id, the block itself and its group
/// memberships.
pub open spec fn add_block(st: BuildV, decl: BlockDeclV, stack: Seq<usize>) -> BuildV {
    let n = count_of(st.counts, decl.block_type);
    let id = block_id(decl.block_type, n);
    BuildV {
        blocks: st.blocks.push(fresh_block(decl, id)),
        groups: add_to_groups(st.groups, stack, id),
        counts: st.counts.insert(decl.block_type, (n + 1) as usize),
        ..st
    }
}

/// `named` with each of `names` bound to `id`.
pub open spec fn name_all(named: Map<Seq<char>, Seq<char>>, names: Seq<Seq<char>>, id: Seq<char>) -> Map<Seq<char>, Seq<char>>
    decreases names.len(),
{
    if names.len() == 0 {
        named
    } else {
        name_all(named, names.drop_last(), id).insert(names.last(), id)
    }
}

/// The edges of a join into `to`: one per source that names a tensor, in
/// the order of the sources.
pub open spec fn join_edges(named: Map<Seq<char>, Seq<char>>, sources: Seq<Seq<char>>, to: Seq<char>) -> Seq<EdgeV>
    decreases sources.len(),
{
    if sources.len() == 0 {
        Seq::empty()
    } else {
        let src = sources.last();
        let rest = join_edges(named, sources.drop_last(), to);
        if named.contains_key(src) {
            rest.push(EdgeV { from: named[src], to, tensor_name: Some(src), shape: None })
        } else {
            rest
        }
    }
}

/// One node of the document applied to the state.
pub open spec fn step(st: BuildV, n: NodeV, stack: Seq<usize>) -> BuildV
    decreases n,
{
    match n {
        NodeV::Comment { .. } => st,
        NodeV::Block(decl) => {
            let id = next_id(st, decl);
            let st1 = add_block(st, decl, stack);
            BuildV {
                edges: match st.tail {
                    Some(t) => st1.edges.push(EdgeV { from: t, to: id, tensor_name: None, shape: None }),
                    None => st1.edges,
                },
                tail: Some(id),
                ..st1
            }
        },
        NodeV::TensorName { names, .. } => match st.tail {
            Some(t) => BuildV { named: name_all(st.named, names, t), ..st },
            None => st,
        },
        NodeV::TensorJoin { sources, target, .. } => {
            let id = next_id(st, target);
            let st1 = add_block(st, target, stack);
            BuildV { edges: st1.edges + join_edges(st1.named, sources, id), tail: Some(id), ..st1 }
        },
        NodeV::Group { path, body, .. } => {
            let idx = st.groups.len() as usize;
            let st1 = BuildV { groups: st.groups.push(GroupV { path, block_ids: Seq::empty() }), ..st };
            process(st1, body, stack.push(idx))
        },
    }
}

/// The nodes `ns` applied in order.
pub open spec fn process(st: BuildV, ns: Seq<NodeV>, stack: Seq<usize>) -> BuildV
    decreases ns,
{
    if ns.len() == 0 {
        st
    } else {
        step(process(st, ns.drop_last(), stack), ns[ns.len() - 1], stack)
    }
}

/// Whether a block of type `Input` has the id `id`.
pub open spec fn is_input_id(blocks: Seq<BlockV>, id: Seq<char>) -> bool {
    exists|i: int| 0 <= i < blocks.len() && blocks[i].id == id && blocks[i].block_type == "Input"@
}

/// The edges that do not join two `Input` blocks, in order.
pub open spec fn kept_edges(blocks: Seq<BlockV>, es: Seq<EdgeV>) -> Seq<EdgeV>
    decreases es.len(),
{
    if es.len() == 0 {
        Seq::empty()
    } else {
        let e = es.last();
        let rest = kept_edges(blocks, es.drop_last());
        if is_input_id(blocks, e.from) && is_input_id(blocks, e.to) {
            rest
        } else {
            rest.push(e)
        }
    }
}

/// The graph that the nodes `ns` describe.
pub open spec fn spec_build_graph(ns: Seq<NodeV>) -> GraphV {
    let st = process(empty_build(), ns, Seq::empty());
    GraphV { blocks: st.blocks, edges: kept_edges(st.blocks, st.edges), groups: st.groups }
}

/// The number of nodes of `ns`, those inside groups included.
pub open spec fn node_total(ns: Seq<NodeV>) -> nat
    decreases ns,
{
    if ns.len() == 0 {
        0
    } else {
        node_total(ns.drop_last()) + node_size(ns[ns.len() - 1])
    }
}

/// The number of nodes in `n`, itself included.
pub open spec fn node_size(n: NodeV) -> nat
    decreases n,
{
    match n {
        NodeV::Group { body, .. } => 1 + node_total(body),
        _ => 1,
    }
}

// ---------------------------------------------------------------------------
// Lemmas
// ---------------------------------------------------------------------------

proof fn lemma_total_take(ns: Seq<NodeV>, i: int)
    requires
        0 <= i <= ns.len(),
    ensures
        node_total(ns.take(i)) <= node_total(ns),
    decreases ns.len(),
{
    if i == ns.len() {
        assert(ns.take(i) =~= ns);
    } else {
        assert(ns.drop_last().take(i) =~= ns.take(i));
        lemma_total_take(ns.drop_last(), i);
    }
}

proof fn lemma_take_step(ns: Seq<NodeV>, i: int)
    requires
        0 <= i < ns.len(),
    ensures
        ns.take(i + 1).drop_last() == ns.take(i),
        ns.take(i + 1)[i] == ns[i],
        node_total(ns.take(i + 1)) == node_total(ns.take(i)) + node_size(ns[i]),
        forall|st: BuildV, stack: Seq<usize>|
            #![trigger process(st, ns.take(i + 1), stack)]
            process(st, ns.take(i + 1), stack) == step(process(st, ns.take(i), stack), ns[i], stack),
{
    assert(ns.take(i + 1).drop_last() =~= ns.take(i));
}

// ---------------------------------------------------------------------------
// Executable construction
// ---------------------------------------------------------------------------

struct BuildState {
    blocks: Vec<Block>,
    edges: Vec<Edge>,
    groups: Vec<Group>,
    type_count: StrMap<usize>,
    named_tensors: StrMap<String>,
    current_tail: Option<String>,
}

pub open spec fn named_view(m: StrMap<String>) -> Map<Seq<char>, Seq<char>> {
    m.map().map_values(|s: String| s@)
}

pub open spec fn opt_str_view(o: Option<String>) -> Option<Seq<char>> {
    match o {
        Some(s) => Some(s@),
        None => None,
    }
}

/// The group indices on the stack are distinct and name existing groups.
pub open spec fn stack_ok(stack: Seq<usize>, ngroups: nat) -> bool {
    &&& stack.no_duplicates()
    &&& forall|k: int| 0 <= k < stack.len() ==> (#[trigger] stack[k]) < ngroups
}

impl BuildState {
    spec fn sv(&self) -> BuildV {
        BuildV {
            blocks: blocks_view(self.blocks@),
            edges: edges_view(self.edges@),
            groups: groups_view(self.groups@),
            counts: self.type_count.map(),
            named: named_view(self.named_tensors),
            tail: opt_str_view(self.current_tail),
        }
    }

    /// No type has been counted more often than there are blocks.
    spec fn counts_ok(&self) -> bool {
        forall|k: Seq<char>|
            #[trigger] self.type_count.map().contains_key(k) ==> self.type_count.map()[k] <= self.blocks@.len()
    }
}

/// The parameter list as a map; a later parameter of the same name wins.
fn params_to_record(params: &Vec<Param>) -> (r: StrMap<ParamValue>)
    ensures
        param_map_view(r) == record(params_view(params@)),
{
    let ghost pv = params_view(params@);
    let mut m: StrMap<ParamValue> = StrMap::new();
    let mut i: usize = 0;
    proof {
        assert(pv.take(0) =~= Seq::<ParamV>::empty());
        assert(param_map_view(m) =~= Map::<Seq<char>, PV>::empty());
    }
    while i < params.len()
        invariant
            i <= params@.len(),
            pv == params_view(params@),
            param_map_view(m) == record(pv.take(i as int)),
        decreases params@.len() - i,
    {
        let ghost before = m.map();
        let p = &params[i];
        m.insert(clone_string(&p.name), p.value.deep_clone());
        proof {
            assert(pv.take(i + 1).drop_last() =~= pv.take(i as int));
            assert(param_map_view(m) =~= param_map_view_of(before).insert(p.name@, p.value.pv()));
        }
        i = i + 1;
    }
    proof {
        assert(pv.take(i as int) =~= pv);
    }
    m
}

pub open spec fn param_map_view_of(m: Map<Seq<char>, ParamValue>) -> Map<Seq<char>, PV> {
    m.map_values(|v: ParamValue| v.pv())
}

/// The id `"{block_type}_{n}"` for the next block of this type; counts it.
fn make_block_id(state: &mut BuildState, block_type: &String) -> (r: String)
    requires
        old(state).counts_ok(),
        old(state).blocks@.len() < usize::MAX,
    ensures
        r@ == block_id(block_type@, count_of(old(state).sv().counts, block_type@)),
        final(state).type_count.map() == old(state).type_count.map().insert(
            block_type@,
            (count_of(old(state).sv().counts, block_type@) + 1) as usize,
        ),
        final(state).blocks == old(state).blocks,
        final(state).edges == old(state).edges,
        final(state).groups == old(state).groups,
        final(state).named_tensors == old(state).named_tensors,
        final(state).current_tail == old(state).current_tail,
{
    let count: usize = match state.type_count.get(block_type.as_str()) {
        Some(c) => *c,
        None => 0,
    };
    let mut id = clone_string(block_type);
    push_str(&mut id, "_");
    let digits = usize_to_string(count);
    push_str(&mut id, digits.as_str());
    state.type_count.insert(clone_string(block_type), count + 1);
    id
}

/// Adds the block for `decl` to the state and to every group on the stack;
/// returns its id.
fn add_block_exec(state: &mut BuildState, decl: &BlockDecl, group_stack: &Vec<usize>) -> (r: String)
    requires
        old(state).counts_ok(),
        old(state).blocks@.len() + 1 < usize::MAX,
        stack_ok(group_stack@, old(state).groups@.len()),
    ensures
        r@ == next_id(old(state).sv(), decl.bview()),
        final(state).sv() == add_block(old(state).sv(), decl.bview(), group_stack@),
        final(state).counts_ok(),
        final(state).blocks@.len() == old(state).blocks@.len() + 1,
        final(state).groups@.len() == old(state).groups@.len(),
{
    let ghost st0 = state.sv();
    let id = make_block_id(state, &decl.block_type);
    let block = Block {
        id: clone_string(&id),
        block_type: clone_string(&decl.block_type),
        params: params_to_record(&decl.params),
        input_shapes: Vec::new(),
        output_shapes: Vec::new(),
        param_count: None,
        show_depth: None,
        loc: decl.loc,
    };
    proof {
        assert(crate::graph::shapes_view(block.input_shapes@) =~= Seq::<Seq<usize>>::empty());
    }
    let ghost bs0 = state.blocks@;
    state.blocks.push(block);
    proof {
        assert(blocks_view(state.blocks@) =~= blocks_view(bs0).push(fresh_block(decl.bview(), id@)));
    }
    let ghost g0 = groups_view(state.groups@);
    let ng = state.groups.len();
    let ghost bs1 = state.blocks@;
    let ghost es1 = state.edges@;
    let ghost tc1 = state.type_count;
    let ghost nt1 = state.named_tensors;
    let ghost ct1 = state.current_tail;
    let mut j: usize = 0;
    proof {
        assert(group_stack@.take(0) =~= Seq::<usize>::empty());
        assert(groups_view(state.groups@) =~= add_to_groups(g0, group_stack@.take(0), id@));
    }
    while j < group_stack.len()
        invariant
            j <= group_stack@.len(),
            ng == g0.len(),
            state.blocks@ == bs1,
            state.edges@ == es1,
            state.type_count == tc1,
            state.named_tensors == nt1,
            state.current_tail == ct1,
            stack_ok(group_stack@, g0.len()),
            state.groups@.len() == g0.len(),
            groups_view(state.groups@) == add_to_groups(g0, group_stack@.take(j as int), id@),
        decreases group_stack@.len() - j,
    {
        let gi = group_stack[j];
        let ghost before = groups_view(state.groups@);
        let ghost old_groups = state.groups@;
        let mut g = state.groups[gi].copy_group();
        g.block_ids.push(clone_string(&id));
        proof {
            assert(strs_view(g.block_ids@) =~= before[gi as int].block_ids.push(id@));
        }
        state.groups.set(gi, g);
        proof {
            assert forall|k: int| 0 <= k < g0.len() implies groups_view(state.groups@)[k]
                == add_to_groups(g0, group_stack@.take(j + 1), id@)[k] by {
                assert(group_stack@.take(j + 1) =~= group_stack@.take(j as int).push(gi));
                if k == gi as int {
                    assert(k as usize == gi);
                    assert(groups_view(state.groups@)[k] == GroupV { path: g0[k].path, block_ids: g0[k].block_ids.push(id@) });
                    assert(!group_stack@.take(j as int).contains(gi)) by {
                        if group_stack@.take(j as int).contains(gi) {
                            let sj = group_stack@.take(j as int);
                            let m = choose|m: int| 0 <= m < sj.len() && sj[m] == gi;
                            assert(group_stack@[m] == group_stack@[j as int]);
                        }
                    }
                    assert(group_stack@.take(j + 1).contains(gi)) by {
                        assert(group_stack@.take(j + 1)[j as int] == gi);
                    }
                } else {
                    let ku = k as usize;
                    assert(ku != gi);
                    if group_stack@.take(j as int).contains(ku) {
                        let sj = group_stack@.take(j as int);
                        let m = choose|m: int| 0 <= m < sj.len() && sj[m] == ku;
                        assert(group_stack@.take(j + 1)[m] == ku);
                    }
                    if group_stack@.take(j + 1).contains(ku) {
                        let sj = group_stack@.take(j + 1);
                        let m = choose|m: int| 0 <= m < sj.len() && sj[m] == ku;
                        assert(m != j);
                        assert(group_stack@.take(j as int)[m] == ku);
                    }
                    assert(group_stack@.take(j + 1).contains(ku) == group_stack@.take(j as int).contains(ku));
                    assert(state.groups@[k] == old_groups[k]);
                    assert(groups_view(state.groups@)[k] == before[k]);
                }
            }
            assert(groups_view(state.groups@) =~= add_to_groups(g0, group_stack@.take(j + 1), id@));
        }
        j = j + 1;
    }
    proof {
        assert(group_stack@.take(j as int) =~= group_stack@);
        let target = add_block(st0, decl.bview(), group_stack@);
        assert(state.sv().blocks == target.blocks);
        assert(state.sv().edges == target.edges);
        assert(state.sv().groups == target.groups);
        assert(state.sv().counts == target.counts);
        assert(state.sv().named == target.named);
        assert(state.sv().tail == target.tail);
    }
    id
}

/// Walks `nodes` in order, recursing into group bodies.
fn process_nodes(state: &mut BuildState, nodes: &[ASTNode], group_stack: &mut Vec<usize>)
    requires
        old(state).counts_ok(),
        old(state).blocks@.len() + node_total(nodes_view(nodes@)) + 1 < usize::MAX,
        stack_ok(old(group_stack)@, old(state).groups@.len()),
    ensures
        final(state).sv() == process(old(state).sv(), nodes_view(nodes@), old(group_stack)@),
        final(group_stack)@ == old(group_stack)@,
        final(state).counts_ok(),
        final(state).blocks@.len() <= old(state).blocks@.len() + node_total(nodes_view(nodes@)),
        final(state).groups@.len() >= old(state).groups@.len(),
    decreases node_total(nodes_view(nodes@)),
{
    let ghost nv = nodes_view(nodes@);
    let ghost st0 = state.sv();
    let ghost b0 = state.blocks@.len();
    let ghost stack0 = group_stack@;
    let ghost ng0 = state.groups@.len();
    let mut i: usize = 0;
    proof {
        assert(nv.take(0) =~= Seq::<NodeV>::empty());
    }
    while i < nodes.len()
        invariant
            i <= nodes@.len(),
            nv == nodes_view(nodes@),
            group_stack@ == stack0,
            state.sv() == process(st0, nv.take(i as int), stack0),
            state.counts_ok(),
            state.blocks@.len() <= b0 + node_total(nv.take(i as int)),
            b0 + node_total(nv) + 1 < usize::MAX,
            stack_ok(stack0, state.groups@.len()),
            state.groups@.len() >= ng0,
        decreases nodes@.len() - i,
    {
        proof {
            lemma_take_step(nv, i as int);
            lemma_total_take(nv, i + 1);
        }
        let ghost sti = state.sv();
        let ghost gl = state.groups@.len();
        match &nodes[i] {
            ASTNode::Comment(_) => {},
            ASTNode::Block(decl) => {
                let block_id = add_block_exec(state, decl, group_stack);
                let ghost e1 = state.edges@;
                match &state.current_tail {
                    Some(tail) => {
                        let e = Edge {
                            from: clone_string(tail),
                            to: clone_string(&block_id),
                            tensor_name: None,
                            shape: None,
                        };
                        state.edges.push(e);
                        proof {
                            assert(edges_view(state.edges@) =~= edges_view(e1).push(e.view_edge()));
                        }
                    },
                    None => {},
                }
                state.current_tail = Some(block_id);
            },
            ASTNode::TensorName(tn) => {
                match &state.current_tail {
                    Some(tail) => {
                        let tail = clone_string(tail);
                        let mut k: usize = 0;
                        proof {
                            assert(strs_view(tn.names@).take(0) =~= Seq::<Seq<char>>::empty());
                        }
                        while k < tn.names.len()
                            invariant
                                k <= tn.names@.len(),
                                state.sv().blocks == sti.blocks,
                                state.sv().edges == sti.edges,
                                state.sv().groups == sti.groups,
                                state.sv().counts == sti.counts,
                                state.sv().tail == sti.tail,
                                state.groups@.len() == gl,
                                state.blocks@.len() == sti.blocks.len(),
                                state.counts_ok(),
                                sti.tail == Some(tail@),
                                state.sv().named == name_all(sti.named, strs_view(tn.names@).take(k as int), tail@),
                            decreases tn.names@.len() - k,
                        {
                            let ghost nm0 = state.named_tensors.map();
                            state.named_tensors.insert(clone_string(&tn.names[k]), clone_string(&tail));
                            proof {
                                assert(strs_view(tn.names@).take(k + 1).drop_last() =~= strs_view(tn.names@).take(k as int));
                                assert(named_view(state.named_tensors) =~= nm0.map_values(|s: String| s@).insert(tn.names@[k as int]@, tail@));
                            }
                            k = k + 1;
                        }
                        proof {
                            assert(strs_view(tn.names@).take(k as int) =~= strs_view(tn.names@));
                        }
                    },
                    None => {},
                }
            },
            ASTNode::TensorJoin(tj) => {
                let block_id = add_block_exec(state, &tj.target, group_stack);
                let ghost st1 = state.sv();
                let ghost e1 = state.edges@;
                let mut k: usize = 0;
                proof {
                    assert(strs_view(tj.sources@).take(0) =~= Seq::<Seq<char>>::empty());
                    assert(edges_view(state.edges@) =~= edges_view(e1) + join_edges(st1.named, strs_view(tj.sources@).take(0), block_id@));
                }
                while k < tj.sources.len()
                    invariant
                        k <= tj.sources@.len(),
                        state.sv().blocks == st1.blocks,
                        state.sv().groups == st1.groups,
                        state.sv().counts == st1.counts,
                        state.sv().named == st1.named,
                        state.sv().tail == st1.tail,
                        state.groups@.len() == gl,
                        state.blocks@.len() == st1.blocks.len(),
                        state.counts_ok(),
                        edges_view(state.edges@) == edges_view(e1) + join_edges(st1.named, strs_view(tj.sources@).take(k as int), block_id@),
                    decreases tj.sources@.len() - k,
                {
                    let src = &tj.sources[k];
                    let ghost es = edges_view(state.edges@);
                    proof {
                        assert(strs_view(tj.sources@).take(k + 1).drop_last() =~= strs_view(tj.sources@).take(k as int));
                        assert(strs_view(tj.sources@).take(k + 1).last() == src@);
                    }
                    match state.named_tensors.get(src.as_str()) {
                        Some(from_id) => {
                            let e = Edge {
                                from: clone_string(from_id),
                                to: clone_string(&block_id),
                                tensor_name: Some(clone_string(src)),
                                shape: None,
                            };
                            let ghost ev = e.view_edge();
                            state.edges.push(e);
                            proof {
                                assert(edges_view(state.edges@) =~= es.push(ev));
                            }
                        },
                        None => {},
                    }
                    k = k + 1;
                }
                proof {
                    assert(strs_view(tj.sources@).take(k as int) =~= strs_view(tj.sources@));
                }
                state.current_tail = Some(block_id);
            },
            ASTNode::Group(g) => {
                let group_idx = state.groups.len();
                let ghost gs0 = state.groups@;
                let newg = Group { path: clone_strings(&g.path), block_ids: Vec::new() };
                proof {
                    assert(strs_view(newg.block_ids@) =~= Seq::<Seq<char>>::empty());
                }
                state.groups.push(newg);
                proof {
                    assert(groups_view(state.groups@) =~= groups_view(gs0).push(GroupV { path: strs_view(g.path@), block_ids: Seq::empty() }));
                    assert(nodes_view(g.body@) =~= match nv[i as int] { NodeV::Group { body, .. } => body, _ => Seq::empty() });
                }
                group_stack.push(group_idx);
                proof {
                    assert forall|k: int| 0 <= k < group_stack@.len() implies (#[trigger] group_stack@[k]) < state.groups@.len() by {
                        if k < stack0.len() {
                            assert(group_stack@[k] == stack0[k]);
                        }
                    }
                    assert(group_stack@.no_duplicates()) by {
                        assert forall|a: int, b: int| 0 <= a < b < group_stack@.len() implies group_stack@[a] != group_stack@[b] by {
                            if b == stack0.len() {
                                assert(group_stack@[a] == stack0[a]);
                            } else {
                                assert(stack0[a] != stack0[b]);
                            }
                        }
                    }
                }
                process_nodes(state, g.body.as_slice(), group_stack);
                group_stack.pop();
                proof {
                    assert(group_stack@ =~= stack0);
                }
            },
        }
        i = i + 1;
    }
    proof {
        assert(nv.take(i as int) =~= nv);
    }
}

/// Whether a block of type `Input` has the id `id`.
fn is_input(blocks: &Vec<Block>, id: &String) -> (r: bool)
    ensures
        r == is_input_id(blocks_view(blocks@), id@),
{
    let mut i: usize = 0;
    while i < blocks.len()
        invariant
            i <= blocks@.len(),
            forall|j: int|
                0 <= j < i ==> !(blocks@[j].id@ == id@ && blocks@[j].block_type@ == "Input"@),
        decreases blocks@.len() - i,
    {
        if str_eq(blocks[i].id.as_str(), id.as_str()) && str_eq(blocks[i].block_type.as_str(), "Input") {
            proof {
                assert(blocks_view(blocks@)[i as int].id == id@);
            }
            return true;
        }
        i = i + 1;
    }
    proof {
        if is_input_id(blocks_view(blocks@), id@) {
            let j = choose|j: int|
                0 <= j < blocks_view(blocks@).len() && blocks_view(blocks@)[j].id == id@
                    && blocks_view(blocks@)[j].block_type == "Input"@;
            assert(blocks@[j].id@ == id@);
        }
    }
    false
}

/// Builds the graph that a parsed document describes.
///
/// Blocks get ids `"{type}_{n}"` counted per type; each block is wired
/// from the block before it in the chain; `[name]` names the last block;
/// a join wires one edge from each named source; groups collect the ids of
/// the blocks declared inside them (nested groups included). Finally every
/// edge from one `Input` block to another is dropped.
pub fn build_graph(nodes: &[ASTNode]) -> (r: Graph)
    requires
        node_total(nodes_view(nodes@)) + 1 < usize::MAX,
    ensures
        r.view_graph() == spec_build_graph(nodes_view(nodes@)),
{
    let mut state = BuildState {
        blocks: Vec::new(),
        edges: Vec::new(),
        groups: Vec::new(),
        type_count: StrMap::new(),
        named_tensors: StrMap::new(),
        current_tail: None,
    };
    let mut group_stack: Vec<usize> = Vec::new();
    proof {
        assert(blocks_view(state.blocks@) =~= Seq::<BlockV>::empty());
        assert(edges_view(state.edges@) =~= Seq::<EdgeV>::empty());
        assert(groups_view(state.groups@) =~= Seq::<GroupV>::empty());
        assert(named_view(state.named_tensors) =~= Map::<Seq<char>, Seq<char>>::empty());
        assert(state.sv() == empty_build());
        assert(group_stack@ =~= Seq::<usize>::empty());
    }
    process_nodes(&mut state, nodes, &mut group_stack);
    let ghost st = state.sv();
    let mut kept: Vec<Edge> = Vec::new();
    let mut i: usize = 0;
    proof {
        assert(st.edges.take(0) =~= Seq::<EdgeV>::empty());
        assert(edges_view(kept@) =~= Seq::<EdgeV>::empty());
    }
    while i < state.edges.len()
        invariant
            i <= state.edges@.len(),
            st == state.sv(),
            edges_view(kept@) == kept_edges(st.blocks, st.edges.take(i as int)),
        decreases state.edges@.len() - i,
    {
        let e = &state.edges[i];
        let from_is_input = is_input(&state.blocks, &e.from);
        let to_is_input = is_input(&state.blocks, &e.to);
        proof {
            assert(st.edges.take(i + 1).drop_last() =~= st.edges.take(i as int));
            assert(st.edges.take(i + 1).last() == e.view_edge());
        }
        if !(from_is_input && to_is_input) {
            let ghost k0 = edges_view(kept@);
            kept.push(e.copy_edge());
            proof {
                assert(edges_view(kept@) =~= k0.push(e.view_edge()));
            }
        }
        i = i + 1;
    }
    proof {
        assert(st.edges.take(i as int) =~= st.edges);
    }
    Graph { blocks: state.blocks, edges: kept, groups: state.groups }
}

proof fn lemma_kept_edges(blocks: Seq<BlockV>, es: Seq<EdgeV>)
    ensures
        forall|k: int|
            0 <= k < kept_edges(blocks, es).len() ==> !(is_input_id(blocks, (#[trigger] kept_edges(blocks, es)[k]).from)
                && is_input_id(blocks, kept_edges(blocks, es)[k].to)),
        forall|k: int|
            0 <= k < kept_edges(blocks, es).len() ==> es.contains(#[trigger] kept_edges(blocks, es)[k]),
    decreases es.len(),
{
    if es.len() > 0 {
        lemma_kept_edges(blocks, es.drop_last());
        let rest = kept_edges(blocks, es.drop_last());
        assert forall|k: int| 0 <= k < rest.len() implies es.contains(#[trigger] rest[k]) by {
            let m = choose|m: int| 0 <= m < es.drop_last().len() && es.drop_last()[m] == rest[k];
            assert(es[m] == rest[k]);
        }
        assert(es[es.len() - 1] == es.last());
    }
}

/// No edge of a built graph joins two `Input` blocks, and every edge of it
/// is one that the document's chains and joins wired.
pub proof fn law_no_input_to_input_edge(ns: Seq<NodeV>)
    ensures
        ({
            let g = spec_build_graph(ns);
            let st = process(empty_build(), ns, Seq::empty());
            &&& forall|k: int|
                0 <= k < g.edges.len() ==> !(is_input_id(g.blocks, (#[trigger] g.edges[k]).from)
                    && is_input_id(g.blocks, g.edges[k].to))
            &&& forall|k: int| 0 <= k < g.edges.len() ==> st.edges.contains(#[trigger] g.edges[k])
        }),
{
    let st = process(empty_build(), ns, Seq::empty());
    lemma_kept_edges(st.blocks, st.edges);
}


/// The number of nodes of `nodes`, groups and their bodies included, when
/// it fits in a `usize`.
#[verifier::loop_isolation(false)]
pub fn count_nodes(nodes: &[ASTNode]) -> (r: Option<usize>)
    ensures
        match r {
            Some(n) => n == node_total(nodes_view(nodes@)),
            None => node_total(nodes_view(nodes@)) > usize::MAX,
        },
    decreases nodes@,
{
    let ghost nv = nodes_view(nodes@);
    let mut total: usize = 0;
    let mut i: usize = 0;
    proof {
        assert(nv.take(0) =~= Seq::<NodeV>::empty());
    }
    while i < nodes.len()
        invariant
            nv == nodes_view(nodes@),
            i <= nodes@.len(),
            total == node_total(nv.take(i as int)),
        decreases nodes@.len() - i,
    {
        proof {
            lemma_take_step(nv, i as int);
            lemma_total_take(nv, i + 1);
        }
        let size: usize = match &nodes[i] {
            ASTNode::Group(g) => {
                proof {
                    let ghost gd: GroupDecl = **g;
                    assert(decreases_to!(nodes@ => nodes@[i as int]));
                    assert(decreases_to!(nodes@[i as int] => gd));
                    assert(decreases_to!(gd => gd.body));
                    assert(decreases_to!(gd.body => gd.body@));
                    assert(nodes_view(gd.body@) =~= nv[i as int]->Group_body);
                }
                match count_nodes(g.body.as_slice()) {
                    Some(t) => {
                        if t == usize::MAX {
                            return None;
                        }
                        t + 1
                    },
                    None => {
                        return None;
                    },
                }
            },
            _ => 1,
        };
        assert(size == node_size(nv[i as int]));
        match total.checked_add(size) {
            Some(t) => {
                total = t;
            },
            None => {
                return None;
            },
        }
        i = i + 1;
    }
    proof {
        assert(nv.take(nodes@.len() as int) =~= nv);
    }
    Some(total)
}


// ---------------------------------------------------------------------------
// Block ids are unique
// ---------------------------------------------------------------------------

/// How many blocks of `bs` have type `t`.
pub open spec fn type_count(bs: Seq<BlockV>, t: Seq<char>) -> nat
    decreases bs.len(),
{
    if bs.len() == 0 {
        0
    } else {
        type_count(bs.drop_last(), t) + if bs.last().block_type == t {
            1nat
        } else {
            0nat
        }
    }
}

/// Every block is numbered among the blocks of its type in order, and the
/// counts are how many blocks of each type there are.
pub open spec fn ids_numbered(st: BuildV) -> bool {
    &&& forall|t: Seq<char>| #[trigger] count_of(st.counts, t) == type_count(st.blocks, t)
    &&& forall|i: int|
        0 <= i < st.blocks.len() ==> #[trigger] st.blocks[i].id == block_id(
            st.blocks[i].block_type,
            type_count(st.blocks.take(i), st.blocks[i].block_type),
        )
}

pub proof fn lemma_decimal_digits(n: nat)
    ensures
        decimal(n).len() >= 1,
        forall|k: int| 0 <= k < decimal(n).len() ==> #[trigger] decimal(n)[k] != '_',
    decreases n,
{
    if n >= 10 {
        lemma_decimal_digits(n / 10);
        let d = decimal(n / 10);
        assert forall|k: int| 0 <= k < decimal(n).len() implies #[trigger] decimal(n)[k] != '_' by {
            if k < d.len() {
                assert(decimal(n)[k] == d[k]);
            }
        }
    }
}

pub proof fn lemma_decimal_injective(a: nat, b: nat)
    requires
        decimal(a) == decimal(b),
    ensures
        a == b,
    decreases a,
{
    lemma_decimal_digits(a);
    lemma_decimal_digits(b);
    if a >= 10 && b >= 10 {
        lemma_decimal_digits(a / 10);
        let pa = decimal(a / 10);
        let pb = decimal(b / 10);
        assert(decimal(a) == pa.push(digit_char(a % 10)));
        assert(decimal(b) == pb.push(digit_char(b % 10)));
        assert(pa.push(digit_char(a % 10))[pa.len() as int] == digit_char(a % 10));
        assert(pb.push(digit_char(b % 10))[pb.len() as int] == digit_char(b % 10));
        assert(pa.len() == pb.len());
        assert(decimal(a).drop_last() =~= decimal(a / 10));
        assert(decimal(b).drop_last() =~= decimal(b / 10));
        lemma_decimal_injective(a / 10, b / 10);
        assert(digit_char(a % 10) == digit_char(b % 10));
        lemma_digit_injective(a % 10, b % 10);
        assert(a == (a / 10) * 10 + a % 10);
        assert(b == (b / 10) * 10 + b % 10);
    } else if a >= 10 {
        lemma_decimal_digits(a / 10);
        assert(decimal(a).len() >= 2);
    } else if b >= 10 {
        lemma_decimal_digits(b / 10);
        assert(decimal(b).len() >= 2);
    } else {
        assert(decimal(a) == seq![digit_char(a)]);
        assert(decimal(b) == seq![digit_char(b)]);
        assert(seq![digit_char(a)][0] == digit_char(a));
        assert(seq![digit_char(b)][0] == digit_char(b));
        lemma_digit_injective(a, b);
    }
}

proof fn lemma_digit_injective(a: nat, b: nat)
    requires
        a < 10,
        b < 10,
        digit_char(a) == digit_char(b),
    ensures
        a == b,
{
}

proof fn lemma_block_id_injective(t1: Seq<char>, n1: nat, t2: Seq<char>, n2: nat)
    requires
        block_id(t1, n1) == block_id(t2, n2),
    ensures
        t1 == t2,
        n1 == n2,
{
    reveal_strlit("_");
    let s = block_id(t1, n1);
    let d1 = decimal(n1);
    let d2 = decimal(n2);
    lemma_decimal_digits(n1);
    lemma_decimal_digits(n2);
    assert(s.len() == t1.len() + 1 + d1.len());
    assert(s.len() == t2.len() + 1 + d2.len());
    if d1.len() < d2.len() {
        let p = t1.len() as int;
        assert(s[p] == '_');
        assert(block_id(t2, n2)[p] == d2[p - t2.len() - 1]);
    } else if d2.len() < d1.len() {
        let p = t2.len() as int;
        assert(block_id(t2, n2)[p] == '_');
        assert(s[p] == d1[p - t1.len() - 1]);
    }
    assert(d1.len() == d2.len());
    assert(t1 =~= s.take(t1.len() as int));
    assert(t2 =~= s.take(t2.len() as int));
    assert(d1 =~= s.skip(t1.len() as int + 1));
    assert(d2 =~= s.skip(t2.len() as int + 1));
    lemma_decimal_injective(n1, n2);
}

proof fn lemma_type_count_bound(bs: Seq<BlockV>, t: Seq<char>)
    ensures
        type_count(bs, t) <= bs.len(),
    decreases bs.len(),
{
    if bs.len() > 0 {
        lemma_type_count_bound(bs.drop_last(), t);
    }
}

/// A block of type `t` at index `i` is counted by every longer prefix.
proof fn lemma_type_count_grows(bs: Seq<BlockV>, i: int, j: int, t: Seq<char>)
    requires
        0 <= i < j <= bs.len(),
        bs[i].block_type == t,
    ensures
        type_count(bs.take(i), t) + 1 <= type_count(bs.take(j), t),
    decreases j - i,
{
    assert(bs.take(j).drop_last() =~= bs.take(j - 1));
    if j == i + 1 {
        assert(bs.take(j).last() == bs[i]);
    } else {
        lemma_type_count_grows(bs, i, j - 1, t);
    }
}

proof fn lemma_numbered_distinct(bs: Seq<BlockV>)
    requires
        forall|i: int|
            0 <= i < bs.len() ==> #[trigger] bs[i].id == block_id(bs[i].block_type, type_count(bs.take(i), bs[i].block_type)),
    ensures
        forall|i: int, j: int| 0 <= i < j < bs.len() ==> bs[i].id != bs[j].id,
{
    assert forall|i: int, j: int| 0 <= i < j < bs.len() implies bs[i].id != bs[j].id by {
        let ti = bs[i].block_type;
        let tj = bs[j].block_type;
        if bs[i].id == bs[j].id {
            assert(bs[i].id == block_id(ti, type_count(bs.take(i), ti)));
            assert(bs[j].id == block_id(tj, type_count(bs.take(j), tj)));
            lemma_block_id_injective(ti, type_count(bs.take(i), ti), tj, type_count(bs.take(j), tj));
            lemma_type_count_grows(bs, i, j, ti);
        }
    }
}

proof fn lemma_add_block_numbered(st: BuildV, decl: BlockDeclV, stack: Seq<usize>)
    requires
        ids_numbered(st),
        st.blocks.len() + 1 < usize::MAX,
    ensures
        ids_numbered(add_block(st, decl, stack)),
        add_block(st, decl, stack).blocks.len() == st.blocks.len() + 1,
{
    let t = decl.block_type;
    let n = count_of(st.counts, t);
    let st2 = add_block(st, decl, stack);
    lemma_type_count_bound(st.blocks, t);
    assert(n == type_count(st.blocks, t));
    assert(st2.blocks.drop_last() =~= st.blocks);
    assert forall|u: Seq<char>| #[trigger] count_of(st2.counts, u) == type_count(st2.blocks, u) by {
        assert(count_of(st.counts, u) == type_count(st.blocks, u));
    }
    assert forall|i: int| 0 <= i < st2.blocks.len() implies #[trigger] st2.blocks[i].id == block_id(
        st2.blocks[i].block_type,
        type_count(st2.blocks.take(i), st2.blocks[i].block_type),
    ) by {
        if i < st.blocks.len() {
            assert(st2.blocks.take(i) =~= st.blocks.take(i));
            assert(st2.blocks[i] == st.blocks[i]);
        } else {
            assert(st2.blocks.take(i) =~= st.blocks);
        }
    }
}

proof fn lemma_step_numbered(st: BuildV, n: NodeV, stack: Seq<usize>)
    requires
        ids_numbered(st),
        st.blocks.len() + node_size(n) < usize::MAX,
    ensures
        ids_numbered(step(st, n, stack)),
        step(st, n, stack).blocks.len() <= st.blocks.len() + node_size(n),
    decreases n,
{
    match n {
        NodeV::Comment { .. } => {},
        NodeV::Block(decl) => {
            lemma_add_block_numbered(st, decl, stack);
        },
        NodeV::TensorName { .. } => {},
        NodeV::TensorJoin { target, .. } => {
            lemma_add_block_numbered(st, target, stack);
        },
        NodeV::Group { path, body, .. } => {
            let idx = st.groups.len() as usize;
            let st1 = BuildV { groups: st.groups.push(GroupV { path, block_ids: Seq::empty() }), ..st };
            lemma_process_numbered(st1, body, stack.push(idx));
        },
    }
}

proof fn lemma_process_numbered(st: BuildV, ns: Seq<NodeV>, stack: Seq<usize>)
    requires
        ids_numbered(st),
        st.blocks.len() + node_total(ns) < usize::MAX,
    ensures
        ids_numbered(process(st, ns, stack)),
        process(st, ns, stack).blocks.len() <= st.blocks.len() + node_total(ns),
    decreases ns,
{
    if ns.len() > 0 {
        lemma_process_numbered(st, ns.drop_last(), stack);
        let mid = process(st, ns.drop_last(), stack);
        lemma_step_numbered(mid, ns[ns.len() - 1], stack);
    }
}

/// Every block of a built graph has the id `{type}_{n}`, `n` counting the
/// blocks of its type before it, and so its own id.
pub proof fn law_block_ids_distinct(ns: Seq<NodeV>)
    requires
        node_total(ns) + 1 < usize::MAX,
    ensures
        forall|i: int|
            0 <= i < spec_build_graph(ns).blocks.len() ==> #[trigger] spec_build_graph(ns).blocks[i].id == block_id(
                spec_build_graph(ns).blocks[i].block_type,
                type_count(spec_build_graph(ns).blocks.take(i), spec_build_graph(ns).blocks[i].block_type),
            ),
        forall|i: int, j: int|
            0 <= i < j < spec_build_graph(ns).blocks.len() ==> spec_build_graph(ns).blocks[i].id
                != spec_build_graph(ns).blocks[j].id,
{
    let st0 = empty_build();
    assert forall|t: Seq<char>| #[trigger] count_of(st0.counts, t) == type_count(st0.blocks, t) by {}
    lemma_process_numbered(st0, ns, Seq::empty());
    let st = process(st0, ns, Seq::empty());
    lemma_numbered_distinct(st.blocks);
}

// ---------------------------------------------------------------------------
// Every id in a built graph names one of its blocks
// ---------------------------------------------------------------------------

/// Every id that the construction state holds (edge ends, the chain's
/// tail, named tensors, group members) names one of its blocks.
pub open spec fn refs_ok(st: BuildV) -> bool {
    &&& forall|k: int|
        0 <= k < st.edges.len() ==> has_id(st.blocks, (#[trigger] st.edges[k]).from) && has_id(
            st.blocks,
            st.edges[k].to,
        )
    &&& match st.tail {
        Some(t) => has_id(st.blocks, t),
        None => true,
    }
    &&& forall|s: Seq<char>| #[trigger] st.named.contains_key(s) ==> has_id(st.blocks, st.named[s])
    &&& forall|g: int, k: int|
        0 <= g < st.groups.len() && 0 <= k < st.groups[g].block_ids.len() ==> has_id(
            st.blocks,
            #[trigger] st.groups[g].block_ids[k],
        )
}

proof fn lemma_has_id_push(bs: Seq<BlockV>, b: BlockV)
    ensures
        has_id(bs.push(b), b.id),
        forall|x: Seq<char>| has_id(bs, x) ==> #[trigger] has_id(bs.push(b), x),
{
    assert(bs.push(b)[bs.len() as int] == b);
    assert forall|x: Seq<char>| has_id(bs, x) implies #[trigger] has_id(bs.push(b), x) by {
        let i = choose|i: int| 0 <= i < bs.len() && bs[i].id == x;
        assert(bs.push(b)[i] == bs[i]);
    }
}

proof fn lemma_add_block_refs(st: BuildV, decl: BlockDeclV, stack: Seq<usize>)
    requires
        refs_ok(st),
    ensures
        refs_ok(add_block(st, decl, stack)),
        has_id(add_block(st, decl, stack).blocks, next_id(st, decl)),
        forall|x: Seq<char>| has_id(st.blocks, x) ==> #[trigger] has_id(add_block(st, decl, stack).blocks, x),
        add_block(st, decl, stack).named == st.named,
        add_block(st, decl, stack).edges == st.edges,
        add_block(st, decl, stack).tail == st.tail,
{
    let id = next_id(st, decl);
    let st2 = add_block(st, decl, stack);
    lemma_has_id_push(st.blocks, fresh_block(decl, id));
    assert forall|g: int, k: int|
        0 <= g < st2.groups.len() && 0 <= k < st2.groups[g].block_ids.len() implies has_id(
        st2.blocks,
        #[trigger] st2.groups[g].block_ids[k],
    ) by {
        if stack.contains(g as usize) && k == st.groups[g].block_ids.len() {
            assert(st2.groups[g].block_ids[k] == id);
        } else {
            assert(st2.groups[g].block_ids[k] == st.groups[g].block_ids[k]);
        }
    }
}

proof fn lemma_name_all_values(named: Map<Seq<char>, Seq<char>>, names: Seq<Seq<char>>, id: Seq<char>)
    ensures
        forall|s: Seq<char>|
            #[trigger] name_all(named, names, id).contains_key(s) ==> name_all(named, names, id)[s] == id || (
            named.contains_key(s) && name_all(named, names, id)[s] == named[s]),
    decreases names.len(),
{
    if names.len() > 0 {
        lemma_name_all_values(named, names.drop_last(), id);
        let rest = name_all(named, names.drop_last(), id);
        let all = name_all(named, names, id);
        assert(all == rest.insert(names.last(), id));
        assert forall|s: Seq<char>| #[trigger] all.contains_key(s) implies all[s] == id || (named.contains_key(s)
            && all[s] == named[s]) by {
            if s != names.last() {
                assert(rest.contains_key(s));
                assert(all[s] == rest[s]);
            }
        }
    }
}

proof fn lemma_join_edges_ends(named: Map<Seq<char>, Seq<char>>, sources: Seq<Seq<char>>, to: Seq<char>)
    ensures
        forall|k: int|
            0 <= k < join_edges(named, sources, to).len() ==> (#[trigger] join_edges(named, sources, to)[k]).to
                == to && exists|s: Seq<char>|
                named.contains_key(s) && join_edges(named, sources, to)[k].from == named[s],
    decreases sources.len(),
{
    if sources.len() > 0 {
        lemma_join_edges_ends(named, sources.drop_last(), to);
        let rest = join_edges(named, sources.drop_last(), to);
        let je = join_edges(named, sources, to);
        assert forall|k: int| 0 <= k < je.len() implies (#[trigger] je[k]).to == to && exists|s: Seq<char>|
            named.contains_key(s) && je[k].from == named[s] by {
            if k < rest.len() {
                assert(je[k] == rest[k]);
            } else {
                let src = sources.last();
                assert(named.contains_key(src) && je[k].from == named[src]);
            }
        }
    }
}

proof fn lemma_step_refs(st: BuildV, n: NodeV, stack: Seq<usize>)
    requires
        refs_ok(st),
    ensures
        refs_ok(step(st, n, stack)),
    decreases n,
{
    match n {
        NodeV::Comment { .. } => {},
        NodeV::Block(decl) => {
            lemma_add_block_refs(st, decl, stack);
            let st2 = step(st, n, stack);
            let st1 = add_block(st, decl, stack);
            assert forall|k: int| 0 <= k < st2.edges.len() implies has_id(st2.blocks, (#[trigger] st2.edges[k]).from)
                && has_id(st2.blocks, st2.edges[k].to) by {
                if k < st1.edges.len() {
                    assert(st2.edges[k] == st1.edges[k]);
                }
            }
        },
        NodeV::TensorName { names, .. } => {
            match st.tail {
                Some(t) => {
                    lemma_name_all_values(st.named, names, t);
                },
                None => {},
            }
        },
        NodeV::TensorJoin { sources, target, .. } => {
            let id = next_id(st, target);
            lemma_add_block_refs(st, target, stack);
            let st1 = add_block(st, target, stack);
            lemma_join_edges_ends(st1.named, sources, id);
            let je = join_edges(st1.named, sources, id);
            let st2 = step(st, n, stack);
            assert forall|k: int| 0 <= k < st2.edges.len() implies has_id(st2.blocks, (#[trigger] st2.edges[k]).from)
                && has_id(st2.blocks, st2.edges[k].to) by {
                if k < st1.edges.len() {
                    assert(st2.edges[k] == st1.edges[k]);
                } else {
                    assert(st2.edges[k] == je[k - st1.edges.len()]);
                    let s = choose|s: Seq<char>| st1.named.contains_key(s) && je[k - st1.edges.len()].from == st1.named[s];
                    assert(st1.named.contains_key(s));
                }
            }
        },
        NodeV::Group { path, body, .. } => {
            let idx = st.groups.len() as usize;
            let st1 = BuildV { groups: st.groups.push(GroupV { path, block_ids: Seq::empty() }), ..st };
            assert forall|g: int, k: int|
                0 <= g < st1.groups.len() && 0 <= k < st1.groups[g].block_ids.len() implies has_id(
                st1.blocks,
                #[trigger] st1.groups[g].block_ids[k],
            ) by {
                assert(g < st.groups.len());
                assert(st1.groups[g] == st.groups[g]);
            }
            lemma_process_refs(st1, body, stack.push(idx));
        },
    }
}

proof fn lemma_process_refs(st: BuildV, ns: Seq<NodeV>, stack: Seq<usize>)
    requires
        refs_ok(st),
    ensures
        refs_ok(process(st, ns, stack)),
    decreases ns,
{
    if ns.len() > 0 {
        lemma_process_refs(st, ns.drop_last(), stack);
        lemma_step_refs(process(st, ns.drop_last(), stack), ns[ns.len() - 1], stack);
    }
}

/// Every edge of a built graph starts and ends at blocks of the graph, and
/// every member of a group is a block of the graph.
pub proof fn law_graph_refs_name_blocks(ns: Seq<NodeV>)
    ensures
        ({
            let g = spec_build_graph(ns);
            &&& forall|k: int|
                0 <= k < g.edges.len() ==> has_id(g.blocks, (#[trigger] g.edges[k]).from) && has_id(
                    g.blocks,
                    g.edges[k].to,
                )
            &&& forall|i: int, k: int|
                0 <= i < g.groups.len() && 0 <= k < g.groups[i].block_ids.len() ==> has_id(
                    g.blocks,
                    #[trigger] g.groups[i].block_ids[k],
                )
        }),
{
    let st0 = empty_build();
    lemma_process_refs(st0, ns, Seq::empty());
    let st = process(st0, ns, Seq::empty());
    lemma_kept_edges(st.blocks, st.edges);
    let g = spec_build_graph(ns);
    assert forall|k: int| 0 <= k < g.edges.len() implies has_id(g.blocks, (#[trigger] g.edges[k]).from) && has_id(
        g.blocks,
        g.edges[k].to,
    ) by {
        assert(st.edges.contains(g.edges[k]));
        let m = choose|m: int| 0 <= m < st.edges.len() && st.edges[m] == g.edges[k];
        assert(has_id(st.blocks, st.edges[m].from));
    }
}

} // verus!
