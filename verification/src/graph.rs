//! The directed graph that a document describes: blocks, data-flow edges
//! and groups.
use vstd::prelude::*;

use crate::nodes::{ParamValue, PV, SourceLoc};
use crate::strmap::StrMap;
use crate::text::{clone_string, clone_strings, strs_view};

verus! {

/// A tensor shape: one size per dimension.
pub type Shape = Vec<usize>;

/// The model of a list of shapes.
pub open spec fn shapes_view(s: Seq<Shape>) -> Seq<Seq<usize>> {
    Seq::new(s.len(), |i: int| s[i]@)
}

/// A single computational node of the graph.
#[derive(Debug)]
pub struct Block {
    /// Unique generated id, e.g. "Conv2d_0"
    pub id: String,
    /// Layer type, e.g. "Conv2d"
    pub block_type: String,
    /// Resolved parameters
    pub params: StrMap<ParamValue>,
    /// Filled in by shape inference
    pub input_shapes: Vec<Shape>,
    /// Filled in by shape inference; a block may have several outputs
    pub output_shapes: Vec<Shape>,
    /// Filled in by shape inference: the block's parameter count
    pub param_count: Option<usize>,
    /// Whether the drawn height follows the channel depth
    pub show_depth: Option<bool>,
    /// Where the block was declared
    pub loc: SourceLoc,
}

/// The model of a [`Block`].
pub struct BlockV {
    pub id: Seq<char>,
    pub block_type: Seq<char>,
    pub params: Map<Seq<char>, PV>,
    pub input_shapes: Seq<Seq<usize>>,
    pub output_shapes: Seq<Seq<usize>>,
    pub param_count: Option<usize>,
    pub show_depth: Option<bool>,
    pub loc: SourceLoc,
}

/// The model of a parameter map: each value by its model.
pub open spec fn param_map_view(m: StrMap<ParamValue>) -> Map<Seq<char>, PV> {
    m.map().map_values(|v: ParamValue| v.pv())
}

impl Block {
    pub open spec fn view_block(self) -> BlockV {
        BlockV {
            id: self.id@,
            block_type: self.block_type@,
            params: param_map_view(self.params),
            input_shapes: shapes_view(self.input_shapes@),
            output_shapes: shapes_view(self.output_shapes@),
            param_count: self.param_count,
            show_depth: self.show_depth,
            loc: self.loc,
        }
    }
}

pub open spec fn blocks_view(bs: Seq<Block>) -> Seq<BlockV> {
    Seq::new(bs.len(), |i: int| bs[i].view_block())
}

/// A directed data-flow edge between two blocks.
#[derive(Debug, Clone)]
pub struct Edge {
    /// Id of the source block
    pub from: String,
    /// Id of the destination block
    pub to: String,
    /// The tensor name when the edge comes from a `[name]` reference
    pub tensor_name: Option<String>,
    /// Filled in by shape inference
    pub shape: Option<Shape>,
}

/// The model of an [`Edge`].
pub struct EdgeV {
    pub from: Seq<char>,
    pub to: Seq<char>,
    pub tensor_name: Option<Seq<char>>,
    pub shape: Option<Seq<usize>>,
}

impl Edge {
    pub open spec fn view_edge(self) -> EdgeV {
        EdgeV {
            from: self.from@,
            to: self.to@,
            tensor_name: match self.tensor_name {
                Some(n) => Some(n@),
                None => None,
            },
            shape: match self.shape {
                Some(s) => Some(s@),
                None => None,
            },
        }
    }

    /// A copy of this edge.
    pub fn copy_edge(&self) -> (r: Edge)
        ensures
            r.view_edge() == self.view_edge(),
    {
        Edge {
            from: clone_string(&self.from),
            to: clone_string(&self.to),
            tensor_name: match &self.tensor_name {
                Some(n) => Some(clone_string(n)),
                None => None,
            },
            shape: match &self.shape {
                Some(s) => Some(s.clone()),
                None => None,
            },
        }
    }
}

pub open spec fn edges_view(es: Seq<Edge>) -> Seq<EdgeV> {
    Seq::new(es.len(), |i: int| es[i].view_edge())
}

/// A named group of blocks.
#[derive(Debug, Clone)]
pub struct Group {
    /// Hierarchical path, e.g. ["ResNet50", "Bottleneck"]
    pub path: Vec<String>,
    /// Ids of the blocks that belong to the group
    pub block_ids: Vec<String>,
}

/// The model of a [`Group`].
pub struct GroupV {
    pub path: Seq<Seq<char>>,
    pub block_ids: Seq<Seq<char>>,
}

impl Group {
    pub open spec fn view_group(self) -> GroupV {
        GroupV { path: strs_view(self.path@), block_ids: strs_view(self.block_ids@) }
    }

    /// A copy of this group.
    pub fn copy_group(&self) -> (r: Group)
        ensures
            r.view_group() == self.view_group(),
    {
        Group { path: clone_strings(&self.path), block_ids: clone_strings(&self.block_ids) }
    }
}

pub open spec fn groups_view(gs: Seq<Group>) -> Seq<GroupV> {
    Seq::new(gs.len(), |i: int| gs[i].view_group())
}

/// The graph that the rest of the library works on.
#[derive(Debug)]
pub struct Graph {
    pub blocks: Vec<Block>,
    pub edges: Vec<Edge>,
    pub groups: Vec<Group>,
}

/// The model of a [`Graph`].
pub struct GraphV {
    pub blocks: Seq<BlockV>,
    pub edges: Seq<EdgeV>,
    pub groups: Seq<GroupV>,
}

impl Graph {
    pub open spec fn view_graph(self) -> GraphV {
        GraphV {
            blocks: blocks_view(self.blocks@),
            edges: edges_view(self.edges@),
            groups: groups_view(self.groups@),
        }
    }
}

/// A copy of a shape.
pub fn clone_shape(s: &Shape) -> (r: Shape)
    ensures
        r@ == s@,
{
    let mut out: Vec<usize> = Vec::new();
    let mut i: usize = 0;
    while i < s.len()
        invariant
            i <= s@.len(),
            out@ == s@.take(i as int),
        decreases s@.len() - i,
    {
        out.push(s[i]);
        proof {
            assert(s@.take(i + 1) =~= s@.take(i as int).push(s@[i as int]));
        }
        i = i + 1;
    }
    proof {
        assert(s@.take(i as int) =~= s@);
    }
    out
}

/// A copy of a list of shapes.
pub fn clone_shapes(s: &Vec<Shape>) -> (r: Vec<Shape>)
    ensures
        shapes_view(r@) == shapes_view(s@),
{
    let mut out: Vec<Shape> = Vec::new();
    let mut i: usize = 0;
    while i < s.len()
        invariant
            i <= s@.len(),
            shapes_view(out@) == shapes_view(s@).take(i as int),
        decreases s@.len() - i,
    {
        let ghost before = shapes_view(out@);
        out.push(clone_shape(&s[i]));
        proof {
            assert(shapes_view(out@) =~= before.push(s@[i as int]@));
            assert(shapes_view(s@).take(i + 1) =~= shapes_view(s@).take(i as int).push(s@[i as int]@));
        }
        i = i + 1;
    }
    proof {
        assert(shapes_view(s@).take(i as int) =~= shapes_view(s@));
    }
    out
}

/// A copy of a parameter map.
pub fn copy_params(m: &StrMap<ParamValue>) -> (r: StrMap<ParamValue>)
    ensures
        param_map_view(r) == param_map_view(*m),
{
    let keys = m.keys();
    let mut out: StrMap<ParamValue> = StrMap::new();
    let mut i: usize = 0;
    while i < keys.len()
        invariant
            i <= keys@.len(),
            strs_view(keys@) == m.key_seq(),
            m.key_seq().no_duplicates(),
            forall|k: Seq<char>| m.map().contains_key(k) <==> m.key_seq().contains(k),
            forall|k: Seq<char>|
                #[trigger] param_map_view(out).contains_key(k) <==> m.key_seq().take(i as int).contains(k),
            forall|k: Seq<char>|
                #[trigger] param_map_view(out).contains_key(k) ==> param_map_view(out)[k] == param_map_view(*m)[k],
        decreases keys@.len() - i,
    {
        let key = &keys[i];
        proof {
            assert(m.key_seq()[i as int] == key@);
            assert(m.key_seq().contains(key@));
        }
        match m.get(key.as_str()) {
            Some(v) => {
                let ghost before = param_map_view(out);
                out.insert(clone_string(key), v.deep_clone());
                proof {
                    assert(param_map_view(out) =~= before.insert(key@, v.pv()));
                    assert(m.key_seq().take(i + 1) =~= m.key_seq().take(i as int).push(key@));
                    assert forall|k: Seq<char>| #[trigger] param_map_view(out).contains_key(k) <==> m.key_seq().take(i + 1).contains(k) by {
                        crate::text::lemma_push_contains(m.key_seq().take(i as int), key@, k);
                    }
                }
            },
            None => {},
        }
        proof {
            assert(m.key_seq().take(i + 1) =~= m.key_seq().take(i as int).push(key@));
            assert forall|k: Seq<char>| #[trigger] param_map_view(out).contains_key(k) <==> m.key_seq().take(i + 1).contains(k) by {
                crate::text::lemma_push_contains(m.key_seq().take(i as int), key@, k);
            }
        }
        i = i + 1;
    }
    proof {
        assert(m.key_seq().take(i as int) =~= m.key_seq());
        assert(param_map_view(out) =~= param_map_view(*m));
    }
    out
}

impl Block {
    /// A copy of this block.
    pub fn copy_block(&self) -> (r: Block)
        ensures
            r.view_block() == self.view_block(),
    {
        Block {
            id: clone_string(&self.id),
            block_type: clone_string(&self.block_type),
            params: copy_params(&self.params),
            input_shapes: clone_shapes(&self.input_shapes),
            output_shapes: clone_shapes(&self.output_shapes),
            param_count: self.param_count,
            show_depth: self.show_depth,
            loc: self.loc,
        }
    }
}

impl Graph {
    /// A copy of this graph.
    pub fn copy_graph(&self) -> (r: Graph)
        ensures
            r.view_graph() == self.view_graph(),
    {
        let mut blocks: Vec<Block> = Vec::new();
        let mut i: usize = 0;
        while i < self.blocks.len()
            invariant
                i <= self.blocks@.len(),
                blocks_view(blocks@) == blocks_view(self.blocks@).take(i as int),
            decreases self.blocks@.len() - i,
        {
            let ghost before = blocks_view(blocks@);
            blocks.push(self.blocks[i].copy_block());
            proof {
                assert(blocks_view(blocks@) =~= before.push(self.blocks@[i as int].view_block()));
                assert(blocks_view(blocks@) =~= blocks_view(self.blocks@).take(i + 1));
            }
            i = i + 1;
        }
        let mut edges: Vec<Edge> = Vec::new();
        let mut j: usize = 0;
        while j < self.edges.len()
            invariant
                j <= self.edges@.len(),
                edges_view(edges@) == edges_view(self.edges@).take(j as int),
            decreases self.edges@.len() - j,
        {
            let ghost before = edges_view(edges@);
            edges.push(self.edges[j].copy_edge());
            proof {
                assert(edges_view(edges@) =~= before.push(self.edges@[j as int].view_edge()));
                assert(edges_view(edges@) =~= edges_view(self.edges@).take(j + 1));
            }
            j = j + 1;
        }
        let mut groups: Vec<Group> = Vec::new();
        let mut k: usize = 0;
        while k < self.groups.len()
            invariant
                k <= self.groups@.len(),
                groups_view(groups@) == groups_view(self.groups@).take(k as int),
            decreases self.groups@.len() - k,
        {
            let ghost before = groups_view(groups@);
            groups.push(self.groups[k].copy_group());
            proof {
                assert(groups_view(groups@) =~= before.push(self.groups@[k as int].view_group()));
                assert(groups_view(groups@) =~= groups_view(self.groups@).take(k + 1));
            }
            k = k + 1;
        }
        proof {
            assert(blocks_view(blocks@) =~= blocks_view(self.blocks@));
            assert(edges_view(edges@) =~= edges_view(self.edges@));
            assert(groups_view(groups@) =~= groups_view(self.groups@));
        }
        Graph { blocks, edges, groups }
    }
}

} // verus!
