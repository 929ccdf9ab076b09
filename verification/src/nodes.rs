//! Abstract syntax tree of an `.mlmd` document: source locations, parameter
//! values and the node kinds produced by the parser.
//!
//! Numbers are kept as the numeral written in the source (for example `-3`
//! or `0.125`); [`NumberVal::to_usize`] gives the integer value that shape
//! and dimension logic reads from them.
use vstd::prelude::*;
use vstd::string::StringExecFns;

use crate::text::{clone_string, strs_view};

verus! {

/// A position in the source text: 1-based line and column, 0-based byte
/// offset.
#[derive(Debug, Clone, Copy, PartialEq, Eq, Structural)]
pub struct SourceLoc {
    pub line: usize,
    pub col: usize,
    pub offset: usize,
}

impl SourceLoc {
    /// The location `(0, 0, 0)` used for values that have no source text.
    pub fn zero() -> (r: SourceLoc)
        ensures
            r.line == 0 && r.col == 0 && r.offset == 0,
    {
        SourceLoc { line: 0, col: 0, offset: 0 }
    }
}

// ---------------------------------------------------------------------------
// Parameter values
// ---------------------------------------------------------------------------

/// A numeric parameter value, kept as the numeral written in the source.
#[derive(Debug, Clone)]
pub struct NumberVal {
    pub kind: String,
    pub text: String,
    pub loc: SourceLoc,
}

#[derive(Debug, Clone)]
pub struct StringVal {
    pub kind: String,
    pub value: String,
    pub loc: SourceLoc,
}

#[derive(Debug, Clone)]
pub struct BoolVal {
    pub kind: String,
    pub value: bool,
    pub loc: SourceLoc,
}

#[derive(Debug, Clone)]
pub struct BarewordVal {
    pub kind: String,
    pub value: String,
    pub loc: SourceLoc,
}

#[derive(Debug, Clone)]
pub struct ShapeVal {
    pub kind: String,
    pub dims: Vec<usize>,
    pub loc: SourceLoc,
}

#[derive(Debug)]
pub struct ListVal {
    pub kind: String,
    pub items: Vec<ParamValue>,
    pub loc: SourceLoc,
}

/// A parameter value: the discriminated union of the value kinds above.
#[derive(Debug)]
pub enum ParamValue {
    Number(Box<NumberVal>),
    String(Box<StringVal>),
    Bool(Box<BoolVal>),
    Bareword(Box<BarewordVal>),
    Shape(Box<ShapeVal>),
    List(Box<ListVal>),
}

/// Mathematical model of a [`ParamValue`]: every string by its characters.
pub enum PV {
    Number { kind: Seq<char>, text: Seq<char>, loc: SourceLoc },
    Str { kind: Seq<char>, value: Seq<char>, loc: SourceLoc },
    Bool { kind: Seq<char>, value: bool, loc: SourceLoc },
    Bareword { kind: Seq<char>, value: Seq<char>, loc: SourceLoc },
    Shape { kind: Seq<char>, dims: Seq<usize>, loc: SourceLoc },
    List { kind: Seq<char>, items: Seq<PV>, loc: SourceLoc },
}

impl ParamValue {
    /// The model of this value.
    pub open spec fn pv(self) -> PV
        decreases self,
    {
        match self {
            ParamValue::Number(v) => PV::Number { kind: v.kind@, text: v.text@, loc: v.loc },
            ParamValue::String(v) => PV::Str { kind: v.kind@, value: v.value@, loc: v.loc },
            ParamValue::Bool(v) => PV::Bool { kind: v.kind@, value: v.value, loc: v.loc },
            ParamValue::Bareword(v) => PV::Bareword { kind: v.kind@, value: v.value@, loc: v.loc },
            ParamValue::Shape(v) => PV::Shape { kind: v.kind@, dims: v.dims@, loc: v.loc },
            ParamValue::List(v) => PV::List {
                kind: v.kind@,
                items: Seq::new(
                    v.items@.len(),
                    |i: int|
                        if 0 <= i < v.items@.len() {
                            v.items@[i].pv()
                        } else {
                            PV::Bool { kind: Seq::empty(), value: false, loc: v.loc }
                        },
                ),
                loc: v.loc,
            },
        }
    }

    /// A human-readable type name for this value.
    pub fn kind_name(&self) -> (r: &'static str)
        ensures
            r@ == pv_type_name(self.pv()),
    {
        match self {
            ParamValue::Number(_) => "number",
            ParamValue::String(_) => "string",
            ParamValue::Bool(_) => "bool",
            ParamValue::Bareword(_) => "bareword",
            ParamValue::Shape(_) => "shape",
            ParamValue::List(_) => "list",
        }
    }

    /// The source location of this value.
    pub fn loc(&self) -> (r: SourceLoc)
        ensures
            r == pv_loc(self.pv()),
    {
        match self {
            ParamValue::Number(v) => v.loc,
            ParamValue::String(v) => v.loc,
            ParamValue::Bool(v) => v.loc,
            ParamValue::Bareword(v) => v.loc,
            ParamValue::Shape(v) => v.loc,
            ParamValue::List(v) => v.loc,
        }
    }

    /// A copy of this value with the same model.
    #[verifier::loop_isolation(false)]
    pub fn deep_clone(&self) -> (r: ParamValue)
        ensures
            r.pv() == self.pv(),
        decreases self,
    {
        let r = match self {
            ParamValue::Number(v) => ParamValue::Number(
                Box::new(NumberVal { kind: clone_string(&v.kind), text: clone_string(&v.text), loc: v.loc }),
            ),
            ParamValue::String(v) => ParamValue::String(
                Box::new(StringVal { kind: clone_string(&v.kind), value: clone_string(&v.value), loc: v.loc }),
            ),
            ParamValue::Bool(v) => ParamValue::Bool(
                Box::new(BoolVal { kind: clone_string(&v.kind), value: v.value, loc: v.loc }),
            ),
            ParamValue::Bareword(v) => ParamValue::Bareword(
                Box::new(BarewordVal { kind: clone_string(&v.kind), value: clone_string(&v.value), loc: v.loc }),
            ),
            ParamValue::Shape(v) => {
                let mut dims: Vec<usize> = Vec::new();
                let mut i: usize = 0;
                while i < v.dims.len()
                    invariant
                        i <= v.dims.len(),
                        dims@ == v.dims@.take(i as int),
                    decreases v.dims.len() - i,
                {
                    dims.push(v.dims[i]);
                    i = i + 1;
                }
                assert(v.dims@.take(v.dims@.len() as int) == v.dims@);
                ParamValue::Shape(Box::new(ShapeVal { kind: clone_string(&v.kind), dims, loc: v.loc }))
            },
            ParamValue::List(v) => {
                let mut items: Vec<ParamValue> = Vec::new();
                let mut i: usize = 0;
                while i < v.items.len()
                    invariant
                        i <= v.items.len(),
                        items@.len() == i,
                        forall|j: int| 0 <= j < i ==> (#[trigger] items@[j]).pv() == v.items@[j].pv(),
                    decreases v.items.len() - i,
                {
                    proof {
                        let ghost lv: ListVal = **v;
                        assert(decreases_to!(*self => lv));
                        assert(decreases_to!(lv => lv.items));
                        assert(decreases_to!(lv.items => lv.items@));
                        assert(decreases_to!(lv.items@ => lv.items@[i as int]));
                    }
                    let c = v.items[i].deep_clone();
                    items.push(c);
                    i = i + 1;
                }
                ParamValue::List(Box::new(ListVal { kind: clone_string(&v.kind), items, loc: v.loc }))
            },
        };
        proof {
            if let ParamValue::List(v) = self {
                assert(r.pv()->items =~= self.pv()->items);
            }
        }
        r
    }
}

pub open spec fn pv_type_name(v: PV) -> Seq<char> {
    match v {
        PV::Number { .. } => "number"@,
        PV::Str { .. } => "string"@,
        PV::Bool { .. } => "bool"@,
        PV::Bareword { .. } => "bareword"@,
        PV::Shape { .. } => "shape"@,
        PV::List { .. } => "list"@,
    }
}

pub open spec fn pv_loc(v: PV) -> SourceLoc {
    match v {
        PV::Number { loc, .. } => loc,
        PV::Str { loc, .. } => loc,
        PV::Bool { loc, .. } => loc,
        PV::Bareword { loc, .. } => loc,
        PV::Shape { loc, .. } => loc,
        PV::List { loc, .. } => loc,
    }
}

impl NumberVal {
    pub fn new(text: String, loc: SourceLoc) -> (r: Self)
        ensures
            r.kind@ == "number"@,
            r.text@ == text@,
            r.loc == loc,
    {
        NumberVal { kind: String::from_str("number"), text, loc }
    }
}

impl StringVal {
    pub fn new(value: String, loc: SourceLoc) -> (r: Self)
        ensures
            r.kind@ == "string"@,
            r.value@ == value@,
            r.loc == loc,
    {
        StringVal { kind: String::from_str("string"), value, loc }
    }
}

impl BoolVal {
    pub fn new(value: bool, loc: SourceLoc) -> (r: Self)
        ensures
            r.kind@ == "bool"@,
            r.value == value,
            r.loc == loc,
    {
        BoolVal { kind: String::from_str("bool"), value, loc }
    }
}

impl BarewordVal {
    pub fn new(value: String, loc: SourceLoc) -> (r: Self)
        ensures
            r.kind@ == "bareword"@,
            r.value@ == value@,
            r.loc == loc,
    {
        BarewordVal { kind: String::from_str("bareword"), value, loc }
    }
}

impl ShapeVal {
    pub fn new(dims: Vec<usize>, loc: SourceLoc) -> (r: Self)
        ensures
            r.kind@ == "shape"@,
            r.dims@ == dims@,
            r.loc == loc,
    {
        ShapeVal { kind: String::from_str("shape"), dims, loc }
    }
}

impl ListVal {
    pub fn new(items: Vec<ParamValue>, loc: SourceLoc) -> (r: Self)
        ensures
            r.kind@ == "list"@,
            r.items@ == items@,
            r.loc == loc,
    {
        ListVal { kind: String::from_str("list"), items, loc }
    }
}

// ---------------------------------------------------------------------------
// Parameters and AST nodes
// ---------------------------------------------------------------------------

/// A named parameter `name=value` of a block declaration.
#[derive(Debug)]
pub struct Param {
    pub name: String,
    pub value: ParamValue,
    pub loc: SourceLoc,
}

pub struct ParamV {
    pub name: Seq<char>,
    pub value: PV,
    pub loc: SourceLoc,
}

impl Param {
    pub open spec fn pview(self) -> ParamV {
        ParamV { name: self.name@, value: self.value.pv(), loc: self.loc }
    }

    pub fn deep_clone(&self) -> (r: Param)
        ensures
            r.pview() == self.pview(),
    {
        Param { name: clone_string(&self.name), value: self.value.deep_clone(), loc: self.loc }
    }
}

pub open spec fn params_view(ps: Seq<Param>) -> Seq<ParamV> {
    Seq::new(ps.len(), |i: int| ps[i].pview())
}

#[derive(Debug)]
pub struct BlockDecl {
    pub kind: String,
    pub block_type: String,
    pub params: Vec<Param>,
    pub loc: SourceLoc,
}

pub struct BlockDeclV {
    pub kind: Seq<char>,
    pub block_type: Seq<char>,
    pub params: Seq<ParamV>,
    pub loc: SourceLoc,
}

impl BlockDecl {
    pub open spec fn bview(self) -> BlockDeclV {
        BlockDeclV {
            kind: self.kind@,
            block_type: self.block_type@,
            params: params_view(self.params@),
            loc: self.loc,
        }
    }

    pub fn new(block_type: String, params: Vec<Param>, loc: SourceLoc) -> (r: Self)
        ensures
            r.kind@ == "block"@,
            r.block_type@ == block_type@,
            r.params@ == params@,
            r.loc == loc,
    {
        BlockDecl { kind: String::from_str("block"), block_type, params, loc }
    }
}

#[derive(Debug, Clone)]
pub struct TensorName {
    pub kind: String,
    pub names: Vec<String>,
    pub loc: SourceLoc,
}

impl TensorName {
    pub fn new(names: Vec<String>, loc: SourceLoc) -> (r: Self)
        ensures
            r.kind@ == "tensor_name"@,
            r.names@ == names@,
            r.loc == loc,
    {
        TensorName { kind: String::from_str("tensor_name"), names, loc }
    }
}

#[derive(Debug)]
pub struct TensorJoin {
    pub kind: String,
    pub sources: Vec<String>,
    pub target: BlockDecl,
    pub loc: SourceLoc,
}

impl TensorJoin {
    pub fn new(sources: Vec<String>, target: BlockDecl, loc: SourceLoc) -> (r: Self)
        ensures
            r.kind@ == "tensor_join"@,
            r.sources@ == sources@,
            r.target == target,
            r.loc == loc,
    {
        TensorJoin { kind: String::from_str("tensor_join"), sources, target, loc }
    }
}

#[derive(Debug)]
pub struct GroupDecl {
    pub kind: String,
    pub path: Vec<String>,
    pub body: Vec<ASTNode>,
    pub loc: SourceLoc,
}

impl GroupDecl {
    pub fn new(path: Vec<String>, body: Vec<ASTNode>, loc: SourceLoc) -> (r: Self)
        ensures
            r.kind@ == "group"@,
            r.path@ == path@,
            r.body@ == body@,
            r.loc == loc,
    {
        GroupDecl { kind: String::from_str("group"), path, body, loc }
    }
}

#[derive(Debug, Clone)]
pub struct Comment {
    pub kind: String,
    pub text: String,
    pub loc: SourceLoc,
}

impl Comment {
    pub fn new(text: String, loc: SourceLoc) -> (r: Self)
        ensures
            r.kind@ == "comment"@,
            r.text@ == text@,
            r.loc == loc,
    {
        Comment { kind: String::from_str("comment"), text, loc }
    }
}

/// A top-level (or group-body) statement of the document.
#[derive(Debug)]
pub enum ASTNode {
    Block(Box<BlockDecl>),
    TensorName(Box<TensorName>),
    TensorJoin(Box<TensorJoin>),
    Group(Box<GroupDecl>),
    Comment(Box<Comment>),
}

/// Mathematical model of an [`ASTNode`].
pub enum NodeV {
    Block(BlockDeclV),
    TensorName { kind: Seq<char>, names: Seq<Seq<char>>, loc: SourceLoc },
    TensorJoin { kind: Seq<char>, sources: Seq<Seq<char>>, target: BlockDeclV, loc: SourceLoc },
    Group { kind: Seq<char>, path: Seq<Seq<char>>, body: Seq<NodeV>, loc: SourceLoc },
    Comment { kind: Seq<char>, text: Seq<char>, loc: SourceLoc },
}

impl ASTNode {
    pub open spec fn nview(self) -> NodeV
        decreases self,
    {
        match self {
            ASTNode::Block(b) => NodeV::Block(b.bview()),
            ASTNode::TensorName(t) => NodeV::TensorName {
                kind: t.kind@,
                names: strs_view(t.names@),
                loc: t.loc,
            },
            ASTNode::TensorJoin(t) => NodeV::TensorJoin {
                kind: t.kind@,
                sources: strs_view(t.sources@),
                target: t.target.bview(),
                loc: t.loc,
            },
            ASTNode::Group(g) => NodeV::Group {
                kind: g.kind@,
                path: strs_view(g.path@),
                body: Seq::new(
                    g.body@.len(),
                    |i: int|
                        if 0 <= i < g.body@.len() {
                            g.body@[i].nview()
                        } else {
                            NodeV::Comment { kind: Seq::empty(), text: Seq::empty(), loc: g.loc }
                        },
                ),
                loc: g.loc,
            },
            ASTNode::Comment(c) => NodeV::Comment { kind: c.kind@, text: c.text@, loc: c.loc },
        }
    }

    /// The source location of this node.
    pub fn loc(&self) -> (r: SourceLoc)
        ensures
            r == node_loc(self.nview()),
    {
        match self {
            ASTNode::Block(n) => n.loc,
            ASTNode::TensorName(n) => n.loc,
            ASTNode::TensorJoin(n) => n.loc,
            ASTNode::Group(n) => n.loc,
            ASTNode::Comment(n) => n.loc,
        }
    }
}

pub open spec fn node_loc(n: NodeV) -> SourceLoc {
    match n {
        NodeV::Block(b) => b.loc,
        NodeV::TensorName { loc, .. } => loc,
        NodeV::TensorJoin { loc, .. } => loc,
        NodeV::Group { loc, .. } => loc,
        NodeV::Comment { loc, .. } => loc,
    }
}

pub open spec fn nodes_view(ns: Seq<ASTNode>) -> Seq<NodeV> {
    Seq::new(ns.len(), |i: int| ns[i].nview())
}

} // verus!
