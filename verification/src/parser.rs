//! Parser: turns the token list into AST nodes, recovering from errors line
//! by line.
//!
//! The model of the parser is a family of spec functions over the token
//! models (`TokV`), one per parsing routine, each taking the position and the
//! errors so far and giving the result, the new position and the errors.
//! [`parse`] is proved to compute exactly `spec_parse`.
use vstd::prelude::*;

use crate::nodes::{nodes_view, params_view, Param, GroupDecl, ASTNode, BarewordVal, BlockDecl, BlockDeclV, BoolVal, ListVal, NodeV, NumberVal, ParamV, ParamValue, PV, ShapeVal, SourceLoc, StringVal, TensorJoin};
use crate::text::{clone_string, push_str, string_of, strs_view};
use crate::tokenizer::{toks_view, TokV, Token, TokenType};

verus! {

// ---------------------------------------------------------------------------
// ParseError / ParseResult
// ---------------------------------------------------------------------------

#[derive(Debug, Clone, PartialEq)]
pub struct ParseError {
    pub message: String,
    pub loc: SourceLoc,
}

impl ParseError {
    pub fn new(message: &str, loc: SourceLoc) -> (r: Self)
        ensures
            r.message@ == message@,
            r.loc == loc,
    {
        ParseError { message: string_of(message), loc }
    }
}

/// Mathematical model of a [`ParseError`].
pub struct ErrV {
    pub message: Seq<char>,
    pub loc: SourceLoc,
}

pub open spec fn errs_view(es: Seq<ParseError>) -> Seq<ErrV> {
    Seq::new(es.len(), |i: int| ErrV { message: es[i].message@, loc: es[i].loc })
}

#[derive(Debug)]
pub struct ParseResult {
    pub nodes: Vec<ASTNode>,
    pub errors: Vec<ParseError>,
}

// ---------------------------------------------------------------------------
// Model of the parser
// ---------------------------------------------------------------------------

/// The name that `{:?}` prints for a token type.
pub open spec fn tt_name(t: TokenType) -> Seq<char> {
    match t {
        TokenType::Arrow => "Arrow"@,
        TokenType::LBracket => "LBracket"@,
        TokenType::RBracket => "RBracket"@,
        TokenType::LParen => "LParen"@,
        TokenType::RParen => "RParen"@,
        TokenType::Comma => "Comma"@,
        TokenType::Equals => "Equals"@,
        TokenType::Gt => "Gt"@,
        TokenType::GroupOpen => "GroupOpen"@,
        TokenType::GroupClose => "GroupClose"@,
        TokenType::Ident => "Ident"@,
        TokenType::Number => "Number"@,
        TokenType::String => "String"@,
        TokenType::Bool => "Bool"@,
        TokenType::Newline => "Newline"@,
        TokenType::Comment => "Comment"@,
        TokenType::Eof => "Eof"@,
    }
}

/// A token list the parser accepts: not empty and ending with EOF.
pub open spec fn well_terminated(t: Seq<TokV>) -> bool {
    t.len() > 0 && t.last().ty == TokenType::Eof
}

pub open spec fn err(message: Seq<char>, loc: SourceLoc) -> ErrV {
    ErrV { message, loc }
}

/// The position after advancing from `p` (the last token is never passed).
pub open spec fn adv(t: Seq<TokV>, p: int) -> int {
    if p < t.len() - 1 {
        p + 1
    } else {
        p
    }
}

/// `p` moved past any newline tokens.
pub open spec fn skip_nl(t: Seq<TokV>, p: int) -> int
    decreases t.len() - p,
{
    if 0 <= p < t.len() - 1 && t[p].ty == TokenType::Newline {
        skip_nl(t, p + 1)
    } else {
        p
    }
}

/// Recovery: `p` moved past the rest of the line and its newline.
pub open spec fn skip_line(t: Seq<TokV>, p: int) -> int
    decreases t.len() - p,
{
    if 0 <= p < t.len() - 1 && t[p].ty != TokenType::Newline && t[p].ty != TokenType::Eof {
        skip_line(t, p + 1)
    } else if 0 <= p < t.len() && t[p].ty == TokenType::Newline {
        adv(t, p)
    } else {
        p
    }
}

/// The first position after `p` that is not a newline token (or the length).
pub open spec fn after_newlines(t: Seq<TokV>, p: int) -> int
    decreases t.len() - p,
{
    if 0 <= p < t.len() && t[p].ty == TokenType::Newline {
        after_newlines(t, p + 1)
    } else {
        p
    }
}

/// Whether the newline at `p` is followed (after more newlines) by an arrow,
/// which continues a chain on the next line.
pub open spec fn continues_on_next_line(t: Seq<TokV>, p: int) -> bool {
    let la = after_newlines(t, p + 1);
    la < t.len() && t[la].ty == TokenType::Arrow
}

/// The integer that `value as usize` gives for the number written `v`: the
/// integer part, or 0 for a negative number, saturating at `usize::MAX`.
pub open spec fn numeral_usize(v: Seq<char>) -> usize {
    if v.len() > 0 && v[0] == '-' {
        0
    } else {
        let d = int_part_value(v, 0, 0);
        if d > usize::MAX {
            usize::MAX
        } else {
            d as usize
        }
    }
}

/// The value of the leading decimal digits of `v` from index `i`, given the
/// value `acc` of the digits before.
pub open spec fn int_part_value(v: Seq<char>, i: int, acc: nat) -> nat
    decreases v.len() - i,
{
    if 0 <= i < v.len() && '0' <= v[i] <= '9' {
        int_part_value(v, i + 1, acc * 10 + (v[i] as nat - 48) as nat)
    } else {
        acc
    }
}

/// Shape dimensions from `p` (after the opening parenthesis): the dimensions,
/// where the loop stopped, and the error if one was met.
pub open spec fn shape_dims(t: Seq<TokV>, p: int, dims: Seq<usize>) -> (Seq<usize>, int, Option<ErrV>)
    decreases t.len() - p,
{
    if !(0 <= p < t.len()) {
        (dims, p, None)
    } else if t[p].ty == TokenType::RParen || t[p].ty == TokenType::Eof || t[p].ty == TokenType::Newline {
        (dims, p, None)
    } else if t[p].ty == TokenType::Number {
        let d = numeral_usize(t[p].value);
        let p1 = adv(t, p);
        if 0 <= p1 < t.len() && t[p1].ty == TokenType::Comma {
            let p2 = adv(t, p1);
            if p2 > p {
                shape_dims(t, p2, dims.push(d))
            } else {
                (dims.push(d), p2, None)
            }
        } else {
            (dims.push(d), p1, None)
        }
    } else {
        (dims, p, Some(err("Expected number in shape, got "@ + tt_name(t[p].ty), t[p].loc)))
    }
}

/// A parameter value at `p`: the value (if it parsed), the new position and
/// the errors.
pub open spec fn param_value(t: Seq<TokV>, p: int, errs: Seq<ErrV>) -> (Option<PV>, int, Seq<ErrV>)
    decreases t.len() - p, 1int,
{
    if !(0 <= p < t.len()) {
        (None, p, errs)
    } else {
        let tk = t[p];
        if tk.ty == TokenType::LParen {
            let (dims, q, e) = shape_dims(t, adv(t, p), Seq::empty());
            match e {
                Some(e) => (None, q, errs.push(e)),
                None => if 0 <= q < t.len() && t[q].ty == TokenType::RParen {
                    (Some(PV::Shape { kind: "shape"@, dims, loc: tk.loc }), adv(t, q), errs)
                } else {
                    (None, q, errs.push(err("Expected ) to close shape"@, t[q].loc)))
                },
            }
        } else if tk.ty == TokenType::LBracket {
            if adv(t, p) > p {
                let (items, q, errs2) = list_items(t, adv(t, p), errs, Seq::empty());
                match items {
                    None => (None, q, errs2),
                    Some(items) => if 0 <= q < t.len() && t[q].ty == TokenType::RBracket {
                        (Some(PV::List { kind: "list"@, items, loc: tk.loc }), adv(t, q), errs2)
                    } else {
                        (None, q, errs2.push(err("Expected ] to close list"@, t[q].loc)))
                    },
                }
            } else {
                (None, p, errs)
            }
        } else if tk.ty == TokenType::Number {
            (Some(PV::Number { kind: "number"@, text: tk.value, loc: tk.loc }), adv(t, p), errs)
        } else if tk.ty == TokenType::String {
            (Some(PV::Str { kind: "string"@, value: tk.value, loc: tk.loc }), adv(t, p), errs)
        } else if tk.ty == TokenType::Bool {
            (Some(PV::Bool { kind: "bool"@, value: tk.value == "true"@, loc: tk.loc }), adv(t, p), errs)
        } else if tk.ty == TokenType::Ident {
            (Some(PV::Bareword { kind: "bareword"@, value: tk.value, loc: tk.loc }), adv(t, p), errs)
        } else {
            (
                None,
                p,
                errs.push(
                    err(
                        "Unexpected token "@ + tt_name(tk.ty) + " ("@ + tk.value + ") in param value"@,
                        tk.loc,
                    ),
                ),
            )
        }
    }
}

/// The items of a list from `p` (after the opening bracket).
pub open spec fn list_items(t: Seq<TokV>, p: int, errs: Seq<ErrV>, items: Seq<PV>) -> (Option<Seq<PV>>, int, Seq<ErrV>)
    decreases t.len() - p, 2int,
{
    if !(0 <= p < t.len()) {
        (Some(items), p, errs)
    } else if t[p].ty == TokenType::RBracket || t[p].ty == TokenType::Eof || t[p].ty == TokenType::Newline {
        (Some(items), p, errs)
    } else {
        let (v, q, errs2) = param_value(t, p, errs);
        match v {
            None => (None, q, errs2),
            Some(v) => if 0 <= q < t.len() && t[q].ty == TokenType::Comma {
                let q2 = adv(t, q);
                if q2 > p {
                    list_items(t, q2, errs2, items.push(v))
                } else {
                    (Some(items.push(v)), q2, errs2)
                }
            } else {
                (Some(items.push(v)), q, errs2)
            },
        }
    }
}

/// A parameter `name=value` at `p`.
pub open spec fn param(t: Seq<TokV>, p: int, errs: Seq<ErrV>) -> (Option<ParamV>, int, Seq<ErrV>) {
    if !(0 <= p < t.len()) {
        (None, p, errs)
    } else if t[p].ty != TokenType::Ident {
        (None, p, errs.push(err("Expected param name, got "@ + tt_name(t[p].ty), t[p].loc)))
    } else {
        let name_tok = t[p];
        let p1 = adv(t, p);
        if t[p1].ty != TokenType::Equals {
            (None, p1, errs.push(err("Expected = after param name \""@ + name_tok.value + "\""@, t[p1].loc)))
        } else {
            let (v, q, errs2) = param_value(t, adv(t, p1), errs);
            match v {
                None => (None, q, errs2),
                Some(v) => (Some(ParamV { name: name_tok.value, value: v, loc: name_tok.loc }), q, errs2),
            }
        }
    }
}

/// The parameters of a parameter list from `p` (after the opening
/// parenthesis), newlines allowed between them.
pub open spec fn params_loop(t: Seq<TokV>, p: int, errs: Seq<ErrV>, ps: Seq<ParamV>) -> (Option<Seq<ParamV>>, int, Seq<ErrV>)
    decreases t.len() - p,
{
    let q = skip_nl(t, p);
    if !(0 <= q < t.len()) || q < p {
        (Some(ps), q, errs)
    } else if t[q].ty == TokenType::RParen || t[q].ty == TokenType::Eof {
        (Some(ps), q, errs)
    } else {
        let (pr, q1, errs2) = param(t, q, errs);
        match pr {
            None => (None, q1, errs2),
            Some(pr) => if 0 <= q1 < t.len() && t[q1].ty == TokenType::Comma {
                let q2 = adv(t, q1);
                if q2 > p {
                    params_loop(t, q2, errs2, ps.push(pr))
                } else {
                    (Some(ps.push(pr)), q2, errs2)
                }
            } else {
                (Some(ps.push(pr)), q1, errs2)
            },
        }
    }
}

/// A block declaration whose name token `ident` has been consumed; `p` is
/// the position after it.
pub open spec fn block_decl(t: Seq<TokV>, p: int, errs: Seq<ErrV>, ident: TokV) -> (Option<BlockDeclV>, int, Seq<ErrV>) {
    if 0 <= p < t.len() && t[p].ty == TokenType::LParen {
        let (ps, q, errs2) = params_loop(t, adv(t, p), errs, Seq::empty());
        match ps {
            None => (None, q, errs2),
            Some(ps) => if 0 <= q < t.len() && t[q].ty == TokenType::RParen {
                (
                    Some(BlockDeclV { kind: "block"@, block_type: ident.value, params: ps, loc: ident.loc }),
                    adv(t, q),
                    errs2,
                )
            } else {
                (None, q, errs2.push(err("Expected ) to close param list"@, t[q].loc)))
            },
        }
    } else {
        (Some(BlockDeclV { kind: "block"@, block_type: ident.value, params: Seq::empty(), loc: ident.loc }), p, errs)
    }
}

/// Names of a bracket list from `p` (after the opening bracket), up to the
/// closing bracket.
pub open spec fn names_loop(t: Seq<TokV>, p: int, names: Seq<Seq<char>>) -> (Seq<Seq<char>>, int, Option<ErrV>)
    decreases t.len() - p,
{
    if !(0 <= p < t.len()) {
        (names, p, None)
    } else if t[p].ty == TokenType::RBracket || t[p].ty == TokenType::Eof || t[p].ty == TokenType::Newline {
        (names, p, None)
    } else if t[p].ty == TokenType::Ident {
        let p1 = adv(t, p);
        if 0 <= p1 < t.len() && t[p1].ty == TokenType::Comma {
            let p2 = adv(t, p1);
            if p2 > p {
                names_loop(t, p2, names.push(t[p].value))
            } else {
                (names.push(t[p].value), p2, None)
            }
        } else {
            (names.push(t[p].value), p1, None)
        }
    } else {
        (names, p, Some(err("Expected identifier in bracket list, got "@ + tt_name(t[p].ty), t[p].loc)))
    }
}

pub open spec fn bracket_names(t: Seq<TokV>, p: int, errs: Seq<ErrV>) -> (Option<Seq<Seq<char>>>, int, Seq<ErrV>) {
    let (names, q, e) = names_loop(t, p, Seq::empty());
    match e {
        Some(e) => (None, q, errs.push(e)),
        None => if 0 <= q < t.len() && t[q].ty == TokenType::RBracket {
            (Some(names), adv(t, q), errs)
        } else {
            (None, q, errs.push(err("Expected ] to close tensor name list"@, t[q].loc)))
        },
    }
}

/// The node a chain emits for a block: a join when the chain started from a
/// tensor list.
pub open spec fn emit(current: BlockDeclV, sources: Option<Seq<Seq<char>>>) -> NodeV {
    match sources {
        Some(srcs) => NodeV::TensorJoin { kind: "tensor_join"@, sources: srcs, target: current, loc: current.loc },
        None => NodeV::Block(current),
    }
}

/// The position of the next arrow of a chain at `p`, if the chain goes on.
pub open spec fn chain_arrow(t: Seq<TokV>, p: int) -> Option<int> {
    if 0 <= p < t.len() && t[p].ty == TokenType::Newline {
        if continues_on_next_line(t, p) {
            Some(after_newlines(t, p + 1))
        } else {
            None
        }
    } else if 0 <= p < t.len() && t[p].ty == TokenType::Arrow {
        Some(p)
    } else {
        None
    }
}

/// The tail of a chain after the block `current` at `p`: the new position,
/// the errors and the emitted nodes.
pub open spec fn chain_tail(
    t: Seq<TokV>,
    p: int,
    errs: Seq<ErrV>,
    current: BlockDeclV,
    sources: Option<Seq<Seq<char>>>,
    out: Seq<NodeV>,
) -> (int, Seq<ErrV>, Seq<NodeV>)
    decreases t.len() - p,
{
    match chain_arrow(t, p) {
        None => {
            let out2 = out.push(emit(current, sources));
            let q = if 0 <= p < t.len() && t[p].ty == TokenType::Newline {
                adv(t, p)
            } else {
                p
            };
            (q, errs, out2)
        },
        Some(a) => {
            let p1 = adv(t, a);
            if !(0 <= p1 < t.len()) {
                (p1, errs, out)
            } else {
                let next = t[p1];
                if next.ty == TokenType::LBracket {
                    let (names, q, errs2) = bracket_names(t, adv(t, p1), errs);
                    match names {
                        None => (skip_line(t, q), errs2, out),
                        Some(names) => {
                            let out2 = out.push(emit(current, sources)).push(
                                NodeV::TensorName { kind: "tensor_name"@, names, loc: next.loc },
                            );
                            let q2 = if 0 <= q < t.len() && t[q].ty == TokenType::Newline {
                                adv(t, q)
                            } else {
                                q
                            };
                            (q2, errs2, out2)
                        },
                    }
                } else if next.ty == TokenType::Ident {
                    let (b, q, errs2) = block_decl(t, adv(t, p1), errs, next);
                    match b {
                        None => (skip_line(t, q), errs2, out),
                        Some(b) => if q > p {
                            chain_tail(t, q, errs2, b, None, out.push(emit(current, sources)))
                        } else {
                            (q, errs2, out)
                        },
                    }
                } else {
                    (
                        skip_line(t, p1),
                        errs.push(err("Expected block or [ after ->, got "@ + tt_name(next.ty), next.loc)),
                        out,
                    )
                }
            }
        },
    }
}

/// The path of a group declaration from `p` (after `[[`): the path (if it
/// parsed), the position and the errors.
pub open spec fn group_path(t: Seq<TokV>, p: int, errs: Seq<ErrV>, path: Seq<Seq<char>>) -> (Option<Seq<Seq<char>>>, int, Seq<ErrV>)
    decreases t.len() - p,
{
    if !(0 <= p < t.len()) {
        (None, p, errs)
    } else if t[p].ty == TokenType::Gt {
        let p1 = adv(t, p);
        if t[p1].ty != TokenType::Ident {
            (None, skip_line(t, p1), errs.push(err("Expected group name segment after >"@, t[p1].loc)))
        } else {
            let p2 = adv(t, p1);
            if p2 > p {
                group_path(t, p2, errs, path.push(t[p1].value))
            } else {
                (None, p2, errs)
            }
        }
    } else if t[p].ty != TokenType::GroupClose {
        (None, skip_line(t, p), errs.push(err("Expected ]] to close group declaration"@, t[p].loc)))
    } else {
        let p1 = adv(t, p);
        let p2 = if t[p1].ty == TokenType::Comment {
            adv(t, p1)
        } else {
            p1
        };
        let p3 = if 0 <= p2 < t.len() && t[p2].ty == TokenType::Newline {
            adv(t, p2)
        } else {
            p2
        };
        (Some(path), p3, errs)
    }
}

pub open spec fn group_decl(t: Seq<TokV>, p: int, errs: Seq<ErrV>) -> (Option<Seq<Seq<char>>>, int, Seq<ErrV>) {
    if !(0 <= p < t.len()) {
        (None, p, errs)
    } else if t[p].ty != TokenType::Ident {
        (None, skip_line(t, p), errs.push(err("Expected group name after [["@, t[p].loc)))
    } else {
        group_path(t, adv(t, p), errs, seq![t[p].value])
    }
}

/// A line that starts with a tensor list at `p0`: `[a, b] -> block ...`.
pub open spec fn join_line(t: Seq<TokV>, p0: int, errs: Seq<ErrV>, out: Seq<NodeV>) -> (int, Seq<ErrV>, Seq<NodeV>) {
    let (names, q, errs2) = bracket_names(t, adv(t, p0), errs);
    match names {
        None => (skip_line(t, q), errs2, out),
        Some(names) => if t[q].ty != TokenType::Arrow {
            (skip_line(t, q), errs2.push(err("Expected -> after tensor list"@, t[q].loc)), out)
        } else {
            let q1 = adv(t, q);
            if t[q1].ty != TokenType::Ident {
                (
                    skip_line(t, q1),
                    errs2.push(err("Expected block name after ->, got "@ + tt_name(t[q1].ty), t[q1].loc)),
                    out,
                )
            } else {
                let (b, q2, errs3) = block_decl(t, adv(t, q1), errs2, t[q1]);
                match b {
                    None => (skip_line(t, q2), errs3, out),
                    Some(b) => chain_tail(t, q2, errs3, b, Some(names), out),
                }
            }
        },
    }
}

/// A line that starts with the block name at `p0`: a block alone, or the head
/// of a chain.
pub open spec fn block_line(t: Seq<TokV>, p0: int, errs: Seq<ErrV>, out: Seq<NodeV>) -> (int, Seq<ErrV>, Seq<NodeV>) {
    let tk = t[p0];
    let (b, q, errs2) = block_decl(t, adv(t, p0), errs, tk);
    match b {
        None => (skip_line(t, q), errs2, out),
        Some(b) => if 0 <= q < t.len() && t[q].ty == TokenType::Arrow {
            chain_tail(t, q, errs2, b, None, out)
        } else if 0 <= q < t.len() && t[q].ty == TokenType::Newline && continues_on_next_line(t, q) {
            chain_tail(t, q, errs2, b, None, out)
        } else {
            let q2 = if 0 <= q < t.len() && t[q].ty == TokenType::Newline {
                adv(t, q)
            } else {
                q
            };
            (q2, errs2, out.push(NodeV::Block(b)))
        },
    }
}

/// A line that opens a group at `p0`: the declaration and the lines of its
/// body.
pub open spec fn group_line(t: Seq<TokV>, p0: int, errs: Seq<ErrV>, out: Seq<NodeV>) -> (int, Seq<ErrV>, Seq<NodeV>)
    decreases t.len() - p0, 0int,
{
    let (path, q, errs2) = group_decl(t, adv(t, p0), errs);
    match path {
        None => (q, errs2, out),
        Some(path) => if p0 < q <= t.len() {
            let (q2, errs3, body) = group_body(t, q, errs2, Seq::empty());
            (q2, errs3, out.push(NodeV::Group { kind: "group"@, path, body, loc: t[p0].loc }))
        } else {
            (q, errs2, out)
        },
    }
}

/// One line (statement) at `p`: the new position, errors and output nodes.
pub open spec fn parse_line(t: Seq<TokV>, p: int, errs: Seq<ErrV>, out: Seq<NodeV>) -> (int, Seq<ErrV>, Seq<NodeV>)
    decreases t.len() - p, 1int,
{
    let p0 = skip_nl(t, p);
    if !(0 <= p0 < t.len()) || p0 < p {
        (p0, errs, out)
    } else {
        let tk = t[p0];
        if tk.ty == TokenType::Eof {
            (p0, errs, out)
        } else if tk.ty == TokenType::Comment {
            let p1 = adv(t, p0);
            let p2 = if t[p1].ty == TokenType::Newline {
                adv(t, p1)
            } else {
                p1
            };
            (p2, errs, out.push(NodeV::Comment { kind: "comment"@, text: tk.value, loc: tk.loc }))
        } else if tk.ty == TokenType::GroupOpen {
            group_line(t, p0, errs, out)
        } else if tk.ty == TokenType::LBracket {
            join_line(t, p0, errs, out)
        } else if tk.ty == TokenType::Ident {
            block_line(t, p0, errs, out)
        } else {
            (
                skip_line(t, p0),
                errs.push(err("Unexpected token "@ + tt_name(tk.ty) + " at start of line"@, tk.loc)),
                out,
            )
        }
    }
}

/// The body of a group from `p`: lines up to the next group or the end.
pub open spec fn group_body(t: Seq<TokV>, p: int, errs: Seq<ErrV>, body: Seq<NodeV>) -> (int, Seq<ErrV>, Seq<NodeV>)
    decreases t.len() - p, 2int,
{
    if !(0 <= p < t.len()) || t[p].ty == TokenType::Eof || t[p].ty == TokenType::GroupOpen {
        (p, errs, body)
    } else {
        let p1 = skip_nl(t, p);
        if !(0 <= p1 < t.len()) || p1 < p || t[p1].ty == TokenType::Eof || t[p1].ty == TokenType::GroupOpen {
            (p1, errs, body)
        } else {
            let (q, errs2, body2) = parse_line(t, p1, errs, body);
            if p < q <= t.len() {
                group_body(t, q, errs2, body2)
            } else {
                (q, errs2, body2)
            }
        }
    }
}

/// All lines from `p` to the end.
pub open spec fn parse_all(t: Seq<TokV>, p: int, errs: Seq<ErrV>, out: Seq<NodeV>) -> (Seq<NodeV>, Seq<ErrV>)
    decreases t.len() - p,
{
    if !(0 <= p < t.len()) || t[p].ty == TokenType::Eof {
        (out, errs)
    } else {
        let (q, errs2, out2) = parse_line(t, p, errs, out);
        if p < q <= t.len() {
            parse_all(t, q, errs2, out2)
        } else {
            (out2, errs2)
        }
    }
}

/// The nodes and errors that parsing the token list `t` gives.
pub open spec fn spec_parse(t: Seq<TokV>) -> (Seq<NodeV>, Seq<ErrV>) {
    parse_all(t, 0, Seq::empty(), Seq::empty())
}

} // verus!

verus! {

// ---------------------------------------------------------------------------
// Executable parser
// ---------------------------------------------------------------------------

/// The name that `{:?}` prints for a token type.
pub fn token_type_name(t: TokenType) -> (r: &'static str)
    ensures
        r@ == tt_name(t),
{
    match t {
        TokenType::Arrow => "Arrow",
        TokenType::LBracket => "LBracket",
        TokenType::RBracket => "RBracket",
        TokenType::LParen => "LParen",
        TokenType::RParen => "RParen",
        TokenType::Comma => "Comma",
        TokenType::Equals => "Equals",
        TokenType::Gt => "Gt",
        TokenType::GroupOpen => "GroupOpen",
        TokenType::GroupClose => "GroupClose",
        TokenType::Ident => "Ident",
        TokenType::Number => "Number",
        TokenType::String => "String",
        TokenType::Bool => "Bool",
        TokenType::Newline => "Newline",
        TokenType::Comment => "Comment",
        TokenType::Eof => "Eof",
    }
}

/// `text as usize` for a number written `text`: its integer part, 0 for a
/// negative number, saturating at `usize::MAX`.
pub fn numeral_to_usize(text: &str) -> (r: usize)
    ensures
        r == numeral_usize(text@),
{
    let n = text.unicode_len();
    if n > 0 && text.get_char(0) == '-' {
        return 0;
    }
    let mut i: usize = 0;
    let mut acc: usize = 0;
    let mut saturated = false;
    let ghost mut exact: nat = 0;
    while i < n && text.get_char(i) >= '0' && text.get_char(i) <= '9'
        invariant
            n == text@.len(),
            i <= n,
            int_part_value(text@, i as int, exact) == int_part_value(text@, 0, 0),
            saturated ==> exact > usize::MAX,
            !saturated ==> acc == exact,
        decreases n - i,
    {
        let c = text.get_char(i);
        let d = (c as u32 - 48) as usize;
        proof {
            exact = exact * 10 + (c as nat - 48) as nat;
        }
        if !saturated {
            if acc > (usize::MAX - d) / 10 {
                saturated = true;
                proof {
                    assert(exact > usize::MAX) by (nonlinear_arith)
                        requires
                            acc > (usize::MAX - d) / 10,
                            exact == acc * 10 + d,
                            d <= 9,
                    ;
                }
            } else {
                proof {
                    assert(acc * 10 + d <= usize::MAX) by (nonlinear_arith)
                        requires
                            acc <= (usize::MAX - d) / 10,
                            d <= 9,
                    ;
                }
                acc = acc * 10 + d;
            }
        } else {
            proof {
                assert(exact > usize::MAX) by (nonlinear_arith)
                    requires
                        exact == 10 * ((exact - d) / 10) + d,
                        (exact - d) / 10 > usize::MAX,
                ;
            }
        }
        i = i + 1;
    }
    if saturated {
        usize::MAX
    } else {
        acc
    }
}

impl NumberVal {
    /// The integer that this number gives as a dimension or count (`as usize`).
    pub fn to_usize(&self) -> (r: usize)
        ensures
            r == numeral_usize(self.text@),
    {
        numeral_to_usize(self.text.as_str())
    }
}

/// The names of an optional list of strings.
pub open spec fn opt_strs_view(o: Option<Vec<String>>) -> Option<Seq<Seq<char>>> {
    match o {
        Some(s) => Some(strs_view(s@)),
        None => None,
    }
}

pub open spec fn pvs_view(items: Seq<ParamValue>) -> Seq<PV> {
    Seq::new(items.len(), |i: int| items[i].pv())
}

proof fn lemma_errs_push(es: Seq<ParseError>, e: ParseError)
    ensures
        errs_view(es.push(e)) == errs_view(es).push(ErrV { message: e.message@, loc: e.loc }),
{
    assert(errs_view(es.push(e)) =~= errs_view(es).push(ErrV { message: e.message@, loc: e.loc }));
}

fn push_node(out: &mut Vec<ASTNode>, n: ASTNode)
    ensures
        nodes_view(final(out)@) == nodes_view(old(out)@).push(n.nview()),
{
    let ghost before = out@;
    out.push(n);
    assert(nodes_view(out@) =~= nodes_view(before).push(n.nview()));
}

/// The node a chain emits for `current`.
fn emit_node(current: BlockDecl, sources: &Option<Vec<String>>) -> (r: ASTNode)
    ensures
        r.nview() == emit(
            current.bview(),
            match sources {
                Some(s) => Some(strs_view(s@)),
                None => None,
            },
        ),
{
    match sources {
        Some(srcs) => {
            let loc = current.loc;
            let srcs2 = crate::text::clone_strings(srcs);
            ASTNode::TensorJoin(Box::new(TensorJoin::new(srcs2, current, loc)))
        },
        None => ASTNode::Block(Box::new(current)),
    }
}

struct Parser<'a> {
    tokens: &'a [Token],
    pos: usize,
    errors: Vec<ParseError>,
}

impl<'a> Parser<'a> {
    spec fn tv(&self) -> Seq<TokV> {
        toks_view(self.tokens@)
    }

    spec fn ev(&self) -> Seq<ErrV> {
        errs_view(self.errors@)
    }

    spec fn wf(&self) -> bool {
        well_terminated(self.tv()) && self.pos < self.tokens@.len()
    }

    fn new(tokens: &'a [Token]) -> (r: Self)
        requires
            well_terminated(toks_view(tokens@)),
        ensures
            r.wf(),
            r.tokens == tokens,
            r.pos == 0,
            r.ev() == Seq::<ErrV>::empty(),
    {
        let r = Parser { tokens, pos: 0, errors: Vec::new() };
        assert(r.ev() =~= Seq::<ErrV>::empty());
        r
    }

    fn peek(&self) -> (r: &'a Token)
        requires
            self.wf(),
        ensures
            r.tview() == self.tv()[self.pos as int],
    {
        &self.tokens[self.pos]
    }

    fn advance(&mut self) -> (r: &'a Token)
        requires
            old(self).wf(),
        ensures
            final(self).wf(),
            final(self).tokens == old(self).tokens,
            final(self).errors == old(self).errors,
            final(self).pos == adv(old(self).tv(), old(self).pos as int),
            r.tview() == old(self).tv()[old(self).pos as int],
    {
        let t = &self.tokens[self.pos];
        if self.pos < self.tokens.len() - 1 {
            self.pos = self.pos + 1;
        }
        t
    }

    fn eat(&mut self, token_type: TokenType) -> (r: Option<&'a Token>)
        requires
            old(self).wf(),
        ensures
            final(self).wf(),
            final(self).tokens == old(self).tokens,
            final(self).errors == old(self).errors,
            old(self).tv()[old(self).pos as int].ty == token_type ==> r is Some && r->0.tview() == old(
                self,
            ).tv()[old(self).pos as int] && final(self).pos == adv(old(self).tv(), old(self).pos as int),
            old(self).tv()[old(self).pos as int].ty != token_type ==> r is None && final(self).pos == old(
                self,
            ).pos,
    {
        if self.peek().token_type == token_type {
            Some(self.advance())
        } else {
            None
        }
    }

    fn error(&mut self, message: String, loc: SourceLoc)
        requires
            old(self).wf(),
        ensures
            final(self).wf(),
            final(self).tokens == old(self).tokens,
            final(self).pos == old(self).pos,
            final(self).ev() == old(self).ev().push(err(message@, loc)),
    {
        let e = ParseError { message, loc };
        proof {
            lemma_errs_push(self.errors@, e);
        }
        self.errors.push(e);
    }

    fn skip_to_next_line(&mut self)
        requires
            old(self).wf(),
        ensures
            final(self).wf(),
            final(self).tokens == old(self).tokens,
            final(self).errors == old(self).errors,
            final(self).pos == skip_line(old(self).tv(), old(self).pos as int),
            final(self).pos >= old(self).pos,
    {
        while self.peek().token_type != TokenType::Newline && self.peek().token_type != TokenType::Eof
            invariant
                self.wf(),
                self.tokens == old(self).tokens,
                self.errors == old(self).errors,
                self.pos >= old(self).pos,
                skip_line(self.tv(), self.pos as int) == skip_line(old(self).tv(), old(self).pos as int),
            decreases self.tokens@.len() - self.pos,
        {
            self.advance();
        }
        self.eat(TokenType::Newline);
    }

    fn skip_newlines(&mut self)
        requires
            old(self).wf(),
        ensures
            final(self).wf(),
            final(self).tokens == old(self).tokens,
            final(self).errors == old(self).errors,
            final(self).pos == skip_nl(old(self).tv(), old(self).pos as int),
            final(self).pos >= old(self).pos,
            final(self).tv()[final(self).pos as int].ty != TokenType::Newline,
    {
        while self.peek().token_type == TokenType::Newline
            invariant
                self.wf(),
                self.tokens == old(self).tokens,
                self.errors == old(self).errors,
                self.pos >= old(self).pos,
                skip_nl(self.tv(), self.pos as int) == skip_nl(old(self).tv(), old(self).pos as int),
            decreases self.tokens@.len() - self.pos,
        {
            self.advance();
        }
    }

    #[verifier::loop_isolation(false)]
    fn parse_param_value(&mut self) -> (r: Option<ParamValue>)
        requires
            old(self).wf(),
        ensures
            final(self).wf(),
            final(self).tokens == old(self).tokens,
            final(self).pos >= old(self).pos,
            ({
                let (v, q, e) = param_value(old(self).tv(), old(self).pos as int, old(self).ev());
                &&& final(self).pos == q
                &&& final(self).ev() == e
                &&& match r {
                    Some(x) => v == Some(x.pv()),
                    None => v is None,
                }
            }),
            r is Some ==> final(self).pos > old(self).pos,
        decreases old(self).tokens@.len() - old(self).pos,
    {
        let t = self.peek();
        let ghost tv = self.tv();
        let ghost p = self.pos as int;
        let ghost e0 = self.ev();
        if t.token_type == TokenType::LParen {
            let loc = t.loc;
            self.advance();
            let mut dims: Vec<usize> = Vec::new();
            let ghost target = shape_dims(tv, self.pos as int, Seq::empty());
            while self.peek().token_type != TokenType::RParen && self.peek().token_type
                != TokenType::Eof && self.peek().token_type != TokenType::Newline
                invariant
                    self.wf(),
                    self.tokens == old(self).tokens,
                    self.ev() == e0,
                    self.pos > p,
                    shape_dims(tv, self.pos as int, dims@) == target,
                decreases self.tokens@.len() - self.pos,
            {
                let num_tok = self.eat(TokenType::Number);
                match num_tok {
                    Some(n) => {
                        let v = numeral_to_usize(n.value.as_str());
                        dims.push(v);
                    },
                    None => {
                        let got = self.peek();
                        let mut m = string_of("Expected number in shape, got ");
                        push_str(&mut m, token_type_name(got.token_type));
                        self.error(m, got.loc);
                        return None;
                    },
                }
                if self.eat(TokenType::Comma).is_none() {
                    break;
                }
            }
            if self.eat(TokenType::RParen).is_none() {
                let got = self.peek();
                self.error(string_of("Expected ) to close shape"), got.loc);
                return None;
            }
            return Some(ParamValue::Shape(Box::new(ShapeVal::new(dims, loc))));
        }
        if t.token_type == TokenType::LBracket {
            let loc = t.loc;
            self.advance();
            let mut items: Vec<ParamValue> = Vec::new();
            let ghost target = list_items(tv, self.pos as int, e0, Seq::empty());
            assert(pvs_view(items@) =~= Seq::<PV>::empty());
            while self.peek().token_type != TokenType::RBracket && self.peek().token_type
                != TokenType::Eof && self.peek().token_type != TokenType::Newline
                invariant
                    self.wf(),
                    self.tokens == old(self).tokens,
                    self.pos > p,
                    list_items(tv, self.pos as int, self.ev(), pvs_view(items@)) == target,
                decreases self.tokens@.len() - self.pos,
            {
                let val = self.parse_param_value();
                match val {
                    Some(v) => {
                        let ghost before = items@;
                        items.push(v);
                        assert(pvs_view(items@) =~= pvs_view(before).push(v.pv()));
                    },
                    None => return None,
                }
                if self.eat(TokenType::Comma).is_none() {
                    break;
                }
            }
            if self.eat(TokenType::RBracket).is_none() {
                let got = self.peek();
                self.error(string_of("Expected ] to close list"), got.loc);
                return None;
            }
            let r = ParamValue::List(Box::new(ListVal::new(items, loc)));
            assert(r.pv()->items =~= pvs_view(items@));
            return Some(r);
        }
        if t.token_type == TokenType::Number {
            self.advance();
            return Some(ParamValue::Number(Box::new(NumberVal::new(clone_string(&t.value), t.loc))));
        }
        if t.token_type == TokenType::String {
            self.advance();
            return Some(ParamValue::String(Box::new(StringVal::new(clone_string(&t.value), t.loc))));
        }
        if t.token_type == TokenType::Bool {
            self.advance();
            let b = crate::text::str_eq(t.value.as_str(), "true");
            return Some(ParamValue::Bool(Box::new(BoolVal::new(b, t.loc))));
        }
        if t.token_type == TokenType::Ident {
            self.advance();
            return Some(ParamValue::Bareword(Box::new(BarewordVal::new(clone_string(&t.value), t.loc))));
        }
        let mut m = string_of("Unexpected token ");
        push_str(&mut m, token_type_name(t.token_type));
        push_str(&mut m, " (");
        push_str(&mut m, t.value.as_str());
        push_str(&mut m, ") in param value");
        self.error(m, t.loc);
        None
    }


    #[verifier::loop_isolation(false)]
    fn parse_param(&mut self) -> (r: Option<Param>)
        requires
            old(self).wf(),
        ensures
            final(self).wf(),
            final(self).tokens == old(self).tokens,
            final(self).pos >= old(self).pos,
            ({
                let (v, q, e) = param(old(self).tv(), old(self).pos as int, old(self).ev());
                &&& final(self).pos == q
                &&& final(self).ev() == e
                &&& match r {
                    Some(x) => v == Some(x.pview()),
                    None => v is None,
                }
            }),
            r is Some ==> final(self).pos > old(self).pos,
    {
        let name_tok = match self.eat(TokenType::Ident) {
            Some(t) => t,
            None => {
                let got = self.peek();
                let mut m = string_of("Expected param name, got ");
                push_str(&mut m, token_type_name(got.token_type));
                self.error(m, got.loc);
                return None;
            },
        };
        if self.eat(TokenType::Equals).is_none() {
            let got = self.peek();
            let mut m = string_of("Expected = after param name \"");
            push_str(&mut m, name_tok.value.as_str());
            push_str(&mut m, "\"");
            self.error(m, got.loc);
            return None;
        }
        let value = match self.parse_param_value() {
            Some(v) => v,
            None => return None,
        };
        Some(Param { name: clone_string(&name_tok.value), value, loc: name_tok.loc })
    }

    #[verifier::loop_isolation(false)]
    fn parse_block_decl(&mut self, ident_tok: &Token) -> (r: Option<BlockDecl>)
        requires
            old(self).wf(),
        ensures
            final(self).wf(),
            final(self).tokens == old(self).tokens,
            final(self).pos >= old(self).pos,
            ({
                let (v, q, e) = block_decl(old(self).tv(), old(self).pos as int, old(self).ev(), ident_tok.tview());
                &&& final(self).pos == q
                &&& final(self).ev() == e
                &&& match r {
                    Some(x) => v == Some(x.bview()),
                    None => v is None,
                }
            }),
    {
        let ghost tv = self.tv();
        let ghost p0 = self.pos as int;
        let mut params: Vec<Param> = Vec::new();
        assert(params_view(params@) =~= Seq::<ParamV>::empty());
        if self.eat(TokenType::LParen).is_some() {
            let ghost target = params_loop(tv, self.pos as int, self.ev(), Seq::empty());
            loop
                invariant
                    self.wf(),
                    self.tokens == old(self).tokens,
                    self.pos > p0,
                    params_loop(tv, self.pos as int, self.ev(), params_view(params@)) == target,
                decreases self.tokens@.len() - self.pos,
            {
                let ghost start = self.pos as int;
                self.skip_newlines();
                if self.peek().token_type == TokenType::RParen || self.peek().token_type == TokenType::Eof {
                    break;
                }
                let param = self.parse_param();
                match param {
                    Some(pr) => {
                        let ghost before = params@;
                        params.push(pr);
                        assert(params_view(params@) =~= params_view(before).push(pr.pview()));
                    },
                    None => return None,
                }
                if self.eat(TokenType::Comma).is_none() {
                    break;
                }
            }
            if self.eat(TokenType::RParen).is_none() {
                let got = self.peek();
                self.error(string_of("Expected ) to close param list"), got.loc);
                return None;
            }
        }
        Some(BlockDecl::new(clone_string(&ident_tok.value), params, ident_tok.loc))
    }

    #[verifier::loop_isolation(false)]
    fn parse_bracket_names(&mut self) -> (r: Option<Vec<String>>)
        requires
            old(self).wf(),
        ensures
            final(self).wf(),
            final(self).tokens == old(self).tokens,
            final(self).pos >= old(self).pos,
            ({
                let (v, q, e) = bracket_names(old(self).tv(), old(self).pos as int, old(self).ev());
                &&& final(self).pos == q
                &&& final(self).ev() == e
                &&& match r {
                    Some(x) => v == Some(strs_view(x@)),
                    None => v is None,
                }
            }),
    {
        let ghost tv = self.tv();
        let ghost p0 = self.pos as int;
        let mut names: Vec<String> = Vec::new();
        let ghost target = names_loop(tv, p0, Seq::empty());
        assert(strs_view(names@) =~= Seq::<Seq<char>>::empty());
        while self.peek().token_type != TokenType::RBracket && self.peek().token_type != TokenType::Eof
            && self.peek().token_type != TokenType::Newline
            invariant
                self.wf(),
                self.tokens == old(self).tokens,
                self.errors == old(self).errors,
                self.pos >= p0,
                names_loop(tv, self.pos as int, strs_view(names@)) == target,
            decreases self.tokens@.len() - self.pos,
        {
            let name_tok = self.eat(TokenType::Ident);
            match name_tok {
                Some(t) => {
                    let ghost before = names@;
                    names.push(clone_string(&t.value));
                    assert(strs_view(names@) =~= strs_view(before).push(t.value@));
                },
                None => {
                    let got = self.peek();
                    let mut m = string_of("Expected identifier in bracket list, got ");
                    push_str(&mut m, token_type_name(got.token_type));
                    self.error(m, got.loc);
                    return None;
                },
            }
            if self.eat(TokenType::Comma).is_none() {
                break;
            }
        }
        if self.eat(TokenType::RBracket).is_none() {
            let got = self.peek();
            self.error(string_of("Expected ] to close tensor name list"), got.loc);
            return None;
        }
        Some(names)
    }

    #[verifier::loop_isolation(false)]
    fn parse_chain_tail(
        &mut self,
        first_block: BlockDecl,
        pending_sources: Option<Vec<String>>,
        out: &mut Vec<ASTNode>,
    )
        requires
            old(self).wf(),
        ensures
            final(self).wf(),
            final(self).tokens == old(self).tokens,
            final(self).pos >= old(self).pos,
            ({
                let (q, e, o) = chain_tail(
                    old(self).tv(),
                    old(self).pos as int,
                    old(self).ev(),
                    first_block.bview(),
                    opt_strs_view(pending_sources),
                    nodes_view(old(out)@),
                );
                &&& final(self).pos == q
                &&& final(self).ev() == e
                &&& nodes_view(final(out)@) == o
            }),
    {
        let ghost tv = self.tv();
        let ghost target = chain_tail(
            tv,
            self.pos as int,
            self.ev(),
            first_block.bview(),
            opt_strs_view(pending_sources),
            nodes_view(out@),
        );
        let ghost p0 = self.pos as int;
        let mut current_block = first_block;
        let mut sources: Option<Vec<String>> = pending_sources;
        loop
            invariant
                self.wf(),
                self.tokens == old(self).tokens,
                self.pos >= p0,
                chain_tail(
                    tv,
                    self.pos as int,
                    self.ev(),
                    current_block.bview(),
                    opt_strs_view(sources),
                    nodes_view(out@),
                ) == target,
            decreases self.tokens@.len() - self.pos,
        {
            let ghost start = self.pos as int;
            if self.peek().token_type == TokenType::Newline {
                let mut lookahead = self.pos + 1;
                while lookahead < self.tokens.len() && self.tokens[lookahead].token_type == TokenType::Newline
                    invariant
                        self.wf(),
                        start < lookahead <= self.tokens@.len(),
                        after_newlines(tv, lookahead as int) == after_newlines(tv, start + 1),
                    decreases self.tokens@.len() - lookahead,
                {
                    lookahead = lookahead + 1;
                }
                if lookahead >= self.tokens.len() || self.tokens[lookahead].token_type != TokenType::Arrow {
                    break;
                }
                proof {
                    lemma_skip_nl_after(tv, start);
                }
                self.skip_newlines();
            }
            if self.peek().token_type != TokenType::Arrow {
                break;
            }
            self.advance();
            let next = self.peek();
            if next.token_type == TokenType::LBracket {
                let loc = next.loc;
                self.advance();
                let names = self.parse_bracket_names();
                let names = match names {
                    Some(n) => n,
                    None => {
                        self.skip_to_next_line();
                        return;
                    },
                };
                let node = emit_node(current_block, &sources);
                push_node(out, node);
                push_node(out, ASTNode::TensorName(Box::new(crate::nodes::TensorName::new(names, loc))));
                self.eat(TokenType::Newline);
                return;
            }
            if next.token_type == TokenType::Ident {
                self.advance();
                let next_block = self.parse_block_decl(next);
                let next_block = match next_block {
                    Some(b) => b,
                    None => {
                        self.skip_to_next_line();
                        return;
                    },
                };
                let node = emit_node(current_block, &sources);
                push_node(out, node);
                sources = None;
                current_block = next_block;
                continue;
            }
            let mut m = string_of("Expected block or [ after ->, got ");
            push_str(&mut m, token_type_name(next.token_type));
            self.error(m, next.loc);
            self.skip_to_next_line();
            return;
        }
        let node = emit_node(current_block, &sources);
        push_node(out, node);
        self.eat(TokenType::Newline);
    }

    #[verifier::loop_isolation(false)]
    fn parse_group_decl(&mut self, loc: SourceLoc) -> (r: Option<GroupDecl>)
        requires
            old(self).wf(),
        ensures
            final(self).wf(),
            final(self).tokens == old(self).tokens,
            final(self).pos >= old(self).pos,
            ({
                let (v, q, e) = group_decl(old(self).tv(), old(self).pos as int, old(self).ev());
                &&& final(self).pos == q
                &&& final(self).ev() == e
                &&& match r {
                    Some(g) => v == Some(strs_view(g.path@)) && g.body@.len() == 0 && g.loc == loc
                        && g.kind@ == "group"@,
                    None => v is None,
                }
            }),
    {
        let ghost tv = self.tv();
        let mut path: Vec<String> = Vec::new();
        let first = self.eat(TokenType::Ident);
        let first = match first {
            Some(t) => t,
            None => {
                let got = self.peek();
                self.error(string_of("Expected group name after [["), got.loc);
                self.skip_to_next_line();
                return None;
            },
        };
        path.push(clone_string(&first.value));
        let ghost target = group_decl(tv, old(self).pos as int, old(self).ev());
        assert(strs_view(path@) =~= seq![first.value@]);
        while self.peek().token_type == TokenType::Gt
            invariant
                self.wf(),
                self.tokens == old(self).tokens,
                self.pos >= old(self).pos,
                group_path(tv, self.pos as int, self.ev(), strs_view(path@)) == target,
            decreases self.tokens@.len() - self.pos,
        {
            self.advance();
            let seg = self.eat(TokenType::Ident);
            let seg = match seg {
                Some(t) => t,
                None => {
                    let got = self.peek();
                    self.error(string_of("Expected group name segment after >"), got.loc);
                    self.skip_to_next_line();
                    return None;
                },
            };
            let ghost before = path@;
            path.push(clone_string(&seg.value));
            assert(strs_view(path@) =~= strs_view(before).push(seg.value@));
        }
        if self.eat(TokenType::GroupClose).is_none() {
            let got = self.peek();
            self.error(string_of("Expected ]] to close group declaration"), got.loc);
            self.skip_to_next_line();
            return None;
        }
        self.eat(TokenType::Comment);
        self.eat(TokenType::Newline);
        let body: Vec<ASTNode> = Vec::new();
        Some(GroupDecl::new(path, body, loc))
    }

    #[verifier::loop_isolation(false)]
    fn parse_group_line(&mut self, tk: &Token, out: &mut Vec<ASTNode>)
        requires
            old(self).wf(),
            old(self).tv()[old(self).pos as int] == tk.tview(),
            tk.token_type == TokenType::GroupOpen,
        ensures
            final(self).wf(),
            final(self).tokens == old(self).tokens,
            final(self).pos > old(self).pos,
            ({
                let (q, e, o) = group_line(old(self).tv(), old(self).pos as int, old(self).ev(), nodes_view(old(out)@));
                &&& final(self).pos == q
                &&& final(self).ev() == e
                &&& nodes_view(final(out)@) == o
            }),
        decreases old(self).tokens@.len() - old(self).pos, 0int,
    {
        let ghost tv = self.tv();
        let ghost p0 = self.pos as int;
        self.advance();
        let group = self.parse_group_decl(tk.loc);
        let mut group = match group {
            Some(g) => g,
            None => return,
        };
        let ghost gpos = self.pos as int;
        let ghost path0 = group.path;
        let ghost target = group_body(tv, self.pos as int, self.ev(), Seq::empty());
        assert(nodes_view(group.body@) =~= Seq::<NodeV>::empty());
        while self.peek().token_type != TokenType::Eof && self.peek().token_type != TokenType::GroupOpen
            invariant
                self.wf(),
                self.tokens == old(self).tokens,
                self.pos >= gpos,
                gpos > p0,
                group.loc == tk.loc,
                group.kind@ == "group"@,
                group.path == path0,
                group_body(tv, self.pos as int, self.ev(), nodes_view(group.body@)) == target,
            decreases self.tokens@.len() - self.pos,
        {
            self.skip_newlines();
            if self.peek().token_type == TokenType::Eof || self.peek().token_type == TokenType::GroupOpen {
                break;
            }
            self.parse_line(&mut group.body);
        }
        let ghost gv = group;
        let node = ASTNode::Group(Box::new(group));
        assert(node.nview()->body =~= nodes_view(gv.body@));
        push_node(out, node);
    }

    #[verifier::loop_isolation(false)]
    fn parse_join_line(&mut self, out: &mut Vec<ASTNode>)
        requires
            old(self).wf(),
            old(self).tv()[old(self).pos as int].ty == TokenType::LBracket,
        ensures
            final(self).wf(),
            final(self).tokens == old(self).tokens,
            final(self).pos > old(self).pos,
            ({
                let (q, e, o) = join_line(old(self).tv(), old(self).pos as int, old(self).ev(), nodes_view(old(out)@));
                &&& final(self).pos == q
                &&& final(self).ev() == e
                &&& nodes_view(final(out)@) == o
            }),
    {
        self.advance();
        let names = self.parse_bracket_names();
        let names = match names {
            Some(n) => n,
            None => {
                self.skip_to_next_line();
                return;
            },
        };
        if self.eat(TokenType::Arrow).is_none() {
            let got = self.peek();
            self.error(string_of("Expected -> after tensor list"), got.loc);
            self.skip_to_next_line();
            return;
        }
        let ident_tok = self.eat(TokenType::Ident);
        let ident_tok = match ident_tok {
            Some(it) => it,
            None => {
                let got = self.peek();
                let mut m = string_of("Expected block name after ->, got ");
                push_str(&mut m, token_type_name(got.token_type));
                self.error(m, got.loc);
                self.skip_to_next_line();
                return;
            },
        };
        let block = self.parse_block_decl(ident_tok);
        let block = match block {
            Some(b) => b,
            None => {
                self.skip_to_next_line();
                return;
            },
        };
        self.parse_chain_tail(block, Some(names), out);
    }

    #[verifier::loop_isolation(false)]
    fn parse_block_line(&mut self, tk: &Token, out: &mut Vec<ASTNode>)
        requires
            old(self).wf(),
            old(self).tv()[old(self).pos as int] == tk.tview(),
            tk.token_type == TokenType::Ident,
        ensures
            final(self).wf(),
            final(self).tokens == old(self).tokens,
            final(self).pos > old(self).pos,
            ({
                let (q, e, o) = block_line(old(self).tv(), old(self).pos as int, old(self).ev(), nodes_view(old(out)@));
                &&& final(self).pos == q
                &&& final(self).ev() == e
                &&& nodes_view(final(out)@) == o
            }),
    {
        let ghost tv = self.tv();
        self.advance();
        let block_decl = self.parse_block_decl(tk);
        let block_decl = match block_decl {
            Some(b) => b,
            None => {
                self.skip_to_next_line();
                return;
            },
        };
        if self.peek().token_type == TokenType::Arrow {
            self.parse_chain_tail(block_decl, None, out);
            return;
        }
        if self.peek().token_type == TokenType::Newline {
            let ghost q = self.pos as int;
            let n = self.tokens.len();
            assert(self.pos < n);
            let mut lookahead = self.pos + 1;
            while lookahead < self.tokens.len() && self.tokens[lookahead].token_type == TokenType::Newline
                invariant
                    self.wf(),
                    q < lookahead <= self.tokens@.len(),
                    after_newlines(tv, lookahead as int) == after_newlines(tv, q + 1),
                decreases self.tokens@.len() - lookahead,
            {
                lookahead = lookahead + 1;
            }
            if lookahead < self.tokens.len() && self.tokens[lookahead].token_type == TokenType::Arrow {
                self.parse_chain_tail(block_decl, None, out);
                return;
            }
        }
        push_node(out, ASTNode::Block(Box::new(block_decl)));
        self.eat(TokenType::Newline);
    }

    fn parse_line(&mut self, out: &mut Vec<ASTNode>)
        requires
            old(self).wf(),
        ensures
            final(self).wf(),
            final(self).tokens == old(self).tokens,
            final(self).pos >= old(self).pos,
            old(self).tv()[old(self).pos as int].ty != TokenType::Eof ==> final(self).pos > old(self).pos,
            ({
                let (q, e, o) = parse_line(old(self).tv(), old(self).pos as int, old(self).ev(), nodes_view(old(out)@));
                &&& final(self).pos == q
                &&& final(self).ev() == e
                &&& nodes_view(final(out)@) == o
            }),
        decreases old(self).tokens@.len() - old(self).pos, 1int,
    {
        let ghost tv = self.tv();
        self.skip_newlines();
        let t = self.peek();
        if t.token_type == TokenType::Eof {
            return;
        }
        if t.token_type == TokenType::Comment {
            self.advance();
            push_node(out, ASTNode::Comment(Box::new(crate::nodes::Comment::new(clone_string(&t.value), t.loc))));
            self.eat(TokenType::Newline);
            return;
        }
        if t.token_type == TokenType::GroupOpen {
            self.parse_group_line(t, out);
            return;
        }
        if t.token_type == TokenType::LBracket {
            self.parse_join_line(out);
            return;
        }
        if t.token_type == TokenType::Ident {
            self.parse_block_line(t, out);
            return;
        }
        let mut m = string_of("Unexpected token ");
        push_str(&mut m, token_type_name(t.token_type));
        push_str(&mut m, " at start of line");
        self.error(m, t.loc);
        proof {
            let p0 = self.pos as int;
            assert(p0 < tv.len() - 1);
            assert(skip_line(tv, p0) == skip_line(tv, p0 + 1));
        }
        self.advance();
        self.skip_to_next_line();
    }

    fn parse_all(self) -> (r: ParseResult)
        requires
            self.wf(),
            self.pos == 0,
            self.ev() == Seq::<ErrV>::empty(),
        ensures
            (nodes_view(r.nodes@), errs_view(r.errors@)) == spec_parse(self.tv()),
    {
        let ghost tv = self.tv();
        let mut st = self;
        let mut nodes: Vec<ASTNode> = Vec::new();
        assert(nodes_view(nodes@) =~= Seq::<NodeV>::empty());
        while st.peek().token_type != TokenType::Eof
            invariant
                st.wf(),
                st.tv() == tv,
                parse_all(tv, st.pos as int, st.ev(), nodes_view(nodes@)) == spec_parse(tv),
            decreases st.tokens@.len() - st.pos,
        {
            st.parse_line(&mut nodes);
        }
        ParseResult { nodes, errors: st.errors }
    }
}

/// Skipping newlines from a newline lands where the newlines end.
pub proof fn lemma_skip_nl_after(t: Seq<TokV>, p: int)
    requires
        well_terminated(t),
        0 <= p < t.len(),
        t[p].ty == TokenType::Newline,
    ensures
        skip_nl(t, p) == after_newlines(t, p + 1),
    decreases t.len() - p,
{
    assert(p < t.len() - 1);
    if t[p + 1].ty == TokenType::Newline {
        lemma_skip_nl_after(t, p + 1);
    } else {
        assert(skip_nl(t, p + 1) == p + 1);
        assert(after_newlines(t, p + 1) == p + 1);
    }
    assert(skip_nl(t, p) == skip_nl(t, p + 1));
}

/// Parses a token list into AST nodes, collecting errors and recovering at
/// the next line after each one.
///
/// The token list must end with an EOF token (as [`crate::tokenizer::tokenize`]
/// gives).
pub fn parse(tokens: &[Token]) -> (r: ParseResult)
    requires
        well_terminated(toks_view(tokens@)),
    ensures
        (nodes_view(r.nodes@), errs_view(r.errors@)) == spec_parse(toks_view(tokens@)),
{
    let parser = Parser::new(tokens);
    parser.parse_all()
}

} // verus!
