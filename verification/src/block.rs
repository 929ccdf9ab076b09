//! Block definitions: parameter specifications, the interface every block
//! type implements, and the registry that shape inference and linting read.
use vstd::prelude::*;

use crate::graph::{param_map_view, shapes_view, Shape};
use crate::nodes::{BarewordVal, BoolVal, NumberVal, ParamValue, ShapeVal, SourceLoc, StringVal, PV};
use crate::strmap::StrMap;
use crate::text::{str_eq, string_of};

verus! {

/// The kind of value a parameter takes.
#[derive(Debug, Clone, Copy, PartialEq, Eq, Structural)]
pub enum ParamType {
    Number,
    String,
    Bool,
    Shape,
    List,
    Bareword,
}

/// The name of a parameter type.
pub open spec fn param_type_name(t: ParamType) -> Seq<char> {
    match t {
        ParamType::Number => "number"@,
        ParamType::String => "string"@,
        ParamType::Bool => "bool"@,
        ParamType::Shape => "shape"@,
        ParamType::List => "list"@,
        ParamType::Bareword => "bareword"@,
    }
}

impl ParamType {
    /// The parameter type with the given name, if any.
    pub fn from_str(s: &str) -> (r: Option<ParamType>)
        ensures
            match r {
                Some(t) => s@ == param_type_name(t),
                None => forall|t: ParamType| s@ != param_type_name(t),
            },
    {
        if str_eq(s, "number") {
            Some(ParamType::Number)
        } else if str_eq(s, "string") {
            Some(ParamType::String)
        } else if str_eq(s, "bool") {
            Some(ParamType::Bool)
        } else if str_eq(s, "shape") {
            Some(ParamType::Shape)
        } else if str_eq(s, "list") {
            Some(ParamType::List)
        } else if str_eq(s, "bareword") {
            Some(ParamType::Bareword)
        } else {
            proof {
                assert forall|t: ParamType| s@ != param_type_name(t) by {
                    match t {
                        ParamType::Number => {},
                        ParamType::String => {},
                        ParamType::Bool => {},
                        ParamType::Shape => {},
                        ParamType::List => {},
                        ParamType::Bareword => {},
                    }
                }
            }
            None
        }
    }

    /// The name of this parameter type.
    pub fn as_str(&self) -> (r: &'static str)
        ensures
            r@ == param_type_name(*self),
    {
        match self {
            ParamType::Number => "number",
            ParamType::String => "string",
            ParamType::Bool => "bool",
            ParamType::Shape => "shape",
            ParamType::List => "list",
            ParamType::Bareword => "bareword",
        }
    }
}

/// Different parameter types have different names.
pub proof fn lemma_param_type_names_distinct(a: ParamType, b: ParamType)
    ensures
        param_type_name(a) == param_type_name(b) ==> a == b,
{
    reveal_strlit("number");
    reveal_strlit("string");
    reveal_strlit("bool");
    reveal_strlit("shape");
    reveal_strlit("list");
    reveal_strlit("bareword");
    assert("number"@.len() == 6 && "number"@[0] == 'n');
    assert("string"@.len() == 6 && "string"@[0] == 's');
    assert("bool"@.len() == 4 && "bool"@[0] == 'b');
    assert("shape"@.len() == 5 && "shape"@[0] == 's');
    assert("list"@.len() == 4 && "list"@[0] == 'l');
    assert("bareword"@.len() == 8 && "bareword"@[0] == 'b');
    if param_type_name(a) == param_type_name(b) {
        assert(param_type_name(a).len() == param_type_name(b).len());
        assert(param_type_name(a)[0] == param_type_name(b)[0]);
    }
}

/// Reading back the name of a parameter type gives the type again, and a
/// name that reads as a type is that type's name.
pub proof fn law_param_type_round_trip(t: ParamType, s: Seq<char>)
    ensures
        (forall|u: ParamType| param_type_name(t) == param_type_name(u) ==> u == t),
        (s == param_type_name(t)) ==> (forall|u: ParamType| s == param_type_name(u) ==> u == t),
{
    assert forall|u: ParamType| param_type_name(t) == param_type_name(u) implies u == t by {
        lemma_param_type_names_distinct(t, u);
    }
}

/// The specification of one parameter of a block type.
#[derive(Debug)]
pub struct ParamSpec {
    pub name: String,
    pub param_type: ParamType,
    pub required: bool,
    pub default: Option<ParamValue>,
}

/// Builds a [`ParamSpec`] from its name and type; created by the
/// constructors on `ParamSpec`.
#[derive(Debug)]
pub struct ParamSpecBuilder {
    pub name: String,
    pub param_type: ParamType,
}

impl ParamSpec {
    /// A builder for a number parameter.
    pub fn number(name: &str) -> (r: ParamSpecBuilder)
        ensures
            r.name@ == name@,
            r.param_type == ParamType::Number,
    {
        ParamSpecBuilder { name: string_of(name), param_type: ParamType::Number }
    }

    /// A builder for a string parameter.
    pub fn string(name: &str) -> (r: ParamSpecBuilder)
        ensures
            r.name@ == name@,
            r.param_type == ParamType::String,
    {
        ParamSpecBuilder { name: string_of(name), param_type: ParamType::String }
    }

    /// A builder for a boolean parameter.
    pub fn boolean(name: &str) -> (r: ParamSpecBuilder)
        ensures
            r.name@ == name@,
            r.param_type == ParamType::Bool,
    {
        ParamSpecBuilder { name: string_of(name), param_type: ParamType::Bool }
    }

    /// A builder for a shape parameter.
    pub fn shape(name: &str) -> (r: ParamSpecBuilder)
        ensures
            r.name@ == name@,
            r.param_type == ParamType::Shape,
    {
        ParamSpecBuilder { name: string_of(name), param_type: ParamType::Shape }
    }

    /// A builder for a bareword parameter.
    pub fn bareword(name: &str) -> (r: ParamSpecBuilder)
        ensures
            r.name@ == name@,
            r.param_type == ParamType::Bareword,
    {
        ParamSpecBuilder { name: string_of(name), param_type: ParamType::Bareword }
    }

    /// A builder for a list parameter.
    pub fn list(name: &str) -> (r: ParamSpecBuilder)
        ensures
            r.name@ == name@,
            r.param_type == ParamType::List,
    {
        ParamSpecBuilder { name: string_of(name), param_type: ParamType::List }
    }
}

impl ParamSpecBuilder {
    /// A required parameter (no default).
    pub fn required(self) -> (r: ParamSpec)
        ensures
            r.name == self.name,
            r.param_type == self.param_type,
            r.required,
            r.default is None,
    {
        ParamSpec { name: self.name, param_type: self.param_type, required: true, default: None }
    }

    /// An optional parameter without a default.
    pub fn optional(self) -> (r: ParamSpec)
        ensures
            r.name == self.name,
            r.param_type == self.param_type,
            !r.required,
            r.default is None,
    {
        ParamSpec { name: self.name, param_type: self.param_type, required: false, default: None }
    }

    /// An optional parameter whose default is the number written `numeral`.
    pub fn default_num(self, numeral: &str) -> (r: ParamSpec)
        ensures
            r.name == self.name,
            r.param_type == self.param_type,
            !r.required,
            r.default matches Some(d) && d.pv() == (PV::Number {
                kind: "number"@,
                text: numeral@,
                loc: SourceLoc { line: 0, col: 0, offset: 0 },
            }),
    {
        let v = ParamValue::Number(Box::new(NumberVal::new(string_of(numeral), SourceLoc::zero())));
        ParamSpec { name: self.name, param_type: self.param_type, required: false, default: Some(v) }
    }

    /// An optional parameter with a string default.
    pub fn default_str(self, value: &str) -> (r: ParamSpec)
        ensures
            r.name == self.name,
            r.param_type == self.param_type,
            !r.required,
            r.default matches Some(d) && d.pv() == (PV::Str {
                kind: "string"@,
                value: value@,
                loc: SourceLoc { line: 0, col: 0, offset: 0 },
            }),
    {
        let v = ParamValue::String(Box::new(StringVal::new(string_of(value), SourceLoc::zero())));
        ParamSpec { name: self.name, param_type: self.param_type, required: false, default: Some(v) }
    }

    /// An optional parameter with a boolean default.
    pub fn default_bool(self, value: bool) -> (r: ParamSpec)
        ensures
            r.name == self.name,
            r.param_type == self.param_type,
            !r.required,
            r.default matches Some(d) && d.pv() == (PV::Bool {
                kind: "bool"@,
                value: value,
                loc: SourceLoc { line: 0, col: 0, offset: 0 },
            }),
    {
        let v = ParamValue::Bool(Box::new(BoolVal::new(value, SourceLoc::zero())));
        ParamSpec { name: self.name, param_type: self.param_type, required: false, default: Some(v) }
    }

    /// An optional parameter with a bareword default.
    pub fn default_bareword(self, value: &str) -> (r: ParamSpec)
        ensures
            r.name == self.name,
            r.param_type == self.param_type,
            !r.required,
            r.default matches Some(d) && d.pv() == (PV::Bareword {
                kind: "bareword"@,
                value: value@,
                loc: SourceLoc { line: 0, col: 0, offset: 0 },
            }),
    {
        let v = ParamValue::Bareword(Box::new(BarewordVal::new(string_of(value), SourceLoc::zero())));
        ParamSpec { name: self.name, param_type: self.param_type, required: false, default: Some(v) }
    }

    /// An optional parameter with a shape default.
    pub fn default_shape(self, dims: Vec<usize>) -> (r: ParamSpec)
        ensures
            r.name == self.name,
            r.param_type == self.param_type,
            !r.required,
            r.default matches Some(d) && d.pv() == (PV::Shape {
                kind: "shape"@,
                dims: dims@,
                loc: SourceLoc { line: 0, col: 0, offset: 0 },
            }),
    {
        let v = ParamValue::Shape(Box::new(ShapeVal::new(dims, SourceLoc::zero())));
        ParamSpec { name: self.name, param_type: self.param_type, required: false, default: Some(v) }
    }
}

/// What every block type provides; implemented by the built-in blocks and
/// by plugins.
pub trait BlockDef {
    /// Whether this block type publishes what its methods answer through the
    /// spec functions below. A block type written without them does not, and
    /// then nothing is claimed of its answers.
    open spec fn obeys_block_spec(&self) -> bool {
        false
    }

    /// The block type name that `name` gives, for a block type that obeys.
    open spec fn spec_name(&self) -> Seq<char> {
        Seq::empty()
    }

    /// The parameters that `params` lists, for a block type that obeys.
    open spec fn spec_params(&self) -> Seq<ParamSpec> {
        Seq::empty()
    }

    /// What `infer_shape` answers for input shapes `inputs` and parameters
    /// `params`, for a block type that obeys: the output shapes, or a message.
    open spec fn spec_infer(&self, inputs: Seq<Seq<usize>>, params: Map<Seq<char>, PV>) -> Result<
        Seq<Seq<usize>>,
        Seq<char>,
    > {
        Err(Seq::empty())
    }

    /// The block type name, e.g. "Conv2d".
    fn name(&self) -> (r: &str)
        ensures
            self.obeys_block_spec() ==> r@ == self.spec_name(),
    ;

    /// The parameters of this block type.
    fn params(&self) -> (r: &[ParamSpec])
        ensures
            self.obeys_block_spec() ==> r@ == self.spec_params(),
    ;

    /// The output shapes for the given input shapes and parameters.
    fn infer_shape(&self, inputs: &[Shape], params: &StrMap<ParamValue>) -> (r: Result<Vec<Shape>, String>)
        ensures
            self.obeys_block_spec() ==> match r {
                Ok(v) => self.spec_infer(shapes_view(inputs@), param_map_view(*params)) == Ok::<Seq<Seq<usize>>, Seq<char>>(
                    shapes_view(v@),
                ),
                Err(m) => self.spec_infer(shapes_view(inputs@), param_map_view(*params)) == Err::<Seq<Seq<usize>>, Seq<char>>(
                    m@,
                ),
            },
    ;

    /// The number of learnable parameters, when the block type knows it.
    /// Unless a block type says otherwise, the count is not known.
    fn param_count(&self, inputs: &[Shape], params: &StrMap<ParamValue>) -> (r: Option<usize>)
        default_ensures
            r is None,
    {
        None
    }

    /// Whether the drawn height follows the channel depth; unless a block
    /// type says otherwise, it does.
    fn show_depth(&self) -> (r: bool)
        default_ensures
            r,
    {
        true
    }

    /// The number of tensor inputs; `None` for a variable number. Unless a
    /// block type says otherwise, one.
    fn num_inputs(&self) -> (r: Option<usize>)
        default_ensures
            r == Some(1usize),
    {
        Some(1)
    }

    /// The number of tensor outputs; `None` for a variable number. Unless a
    /// block type says otherwise, one.
    fn num_outputs(&self) -> (r: Option<usize>)
        default_ensures
            r == Some(1usize),
    {
        Some(1)
    }
}

/// The block definitions that shape inference and linting consult, by name.
pub struct BlockRegistry {
    pub blocks: StrMap<Box<dyn BlockDef>>,
}

impl BlockRegistry {
    /// An empty registry.
    pub fn new() -> (r: Self)
        ensures
            r.blocks.map() == Map::<Seq<char>, Box<dyn BlockDef>>::empty(),
    {
        BlockRegistry { blocks: StrMap::new() }
    }

    /// Registers `def` under its own name, replacing an earlier definition
    /// of that name.
    pub fn register(&mut self, def: Box<dyn BlockDef>)
        ensures
            exists|name: Seq<char>|
                #![trigger old(self).blocks.map().insert(name, def)]
                (def.obeys_block_spec() ==> name == def.spec_name()) && final(self).blocks.map() == old(
                    self,
                ).blocks.map().insert(name, def),
    {
        let name = string_of(def.name());
        self.blocks.insert(name, def);
    }

    /// The definition registered under `name`, if any.
    pub fn get(&self, name: &str) -> (r: Option<&Box<dyn BlockDef>>)
        ensures
            match r {
                Some(d) => self.blocks.map().contains_key(name@) && *d == self.blocks.map()[name@],
                None => !self.blocks.map().contains_key(name@),
            },
    {
        self.blocks.get(name)
    }

    /// Whether a definition is registered under `name`.
    pub fn contains(&self, name: &str) -> (r: bool)
        ensures
            r == self.blocks.map().contains_key(name@),
    {
        self.blocks.contains_key(name)
    }
}

/// The names of all registered block types, in registration order.
pub fn all_block_names(registry: &BlockRegistry) -> (r: Vec<String>)
    ensures
        crate::text::strs_view(r@) == registry.blocks.key_seq(),
        registry.blocks.key_seq().no_duplicates(),
        forall|k: Seq<char>| registry.blocks.map().contains_key(k) <==> registry.blocks.key_seq().contains(k),
{
    registry.blocks.keys()
}

} // verus!
