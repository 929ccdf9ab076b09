//! Code generation: generated files, the per-block code generators that
//! plugins provide, the targets, and text helpers shared by the targets.
use vstd::prelude::*;

use crate::graph::{Block, BlockV, Graph};
use crate::strmap::StrMap;
use crate::text::{push_char, push_str, string_of, strs_view};
use vstd::string::StrSliceExecFns;

verus! {

/// A generated source file.
#[derive(Debug, Clone)]
pub struct GeneratedFile {
    /// Output path of the file
    pub path: String,
    /// Source code
    pub content: String,
}

/// The init declaration of a block for the Candle (Rust) target.
#[derive(Debug, Clone)]
pub struct CandleInit {
    /// Struct field declaration
    pub field: String,
    /// Init body statement
    pub body: String,
}

/// The init part of a block's generated code.
#[derive(Debug, Clone)]
pub enum CandleInitOrString {
    Plain(String),
    Candle(CandleInit),
}

/// The code a block generator produces for one block.
#[derive(Debug, Clone)]
pub struct BlockCodegenResult {
    /// Optional init-time declaration (`None` for stateless blocks)
    pub init: Option<CandleInitOrString>,
    /// The forward-pass code
    pub forward: String,
}

/// The model of a block's init part.
pub enum InitV {
    Plain(Seq<char>),
    Candle { field: Seq<char>, body: Seq<char> },
}

/// The model of a [`BlockCodegenResult`].
pub struct CodegenV {
    pub init: Option<InitV>,
    pub forward: Seq<char>,
}

impl BlockCodegenResult {
    pub open spec fn cview(&self) -> CodegenV {
        CodegenV {
            init: match self.init {
                None => None,
                Some(CandleInitOrString::Plain(s)) => Some(InitV::Plain(s@)),
                Some(CandleInitOrString::Candle(c)) => Some(InitV::Candle { field: c.field@, body: c.body@ }),
            },
            forward: self.forward@,
        }
    }
}

/// Generates the code of one block for one target; provided by plugins.
pub trait BlockCodegen {
    /// Whether this generator publishes what `codegen` answers through
    /// `spec_codegen`. A generator written without it does not, and then
    /// nothing is claimed of its answers.
    open spec fn obeys_codegen_spec(&self) -> bool {
        false
    }

    /// What `codegen` gives for a block and its input and output variables,
    /// for a generator that obeys.
    open spec fn spec_codegen(&self, block: BlockV, input_vars: Seq<Seq<char>>, output_vars: Seq<Seq<char>>) -> CodegenV {
        CodegenV { init: None, forward: Seq::empty() }
    }

    fn codegen(&self, block: &Block, input_vars: &[String], output_vars: &[String]) -> (r: BlockCodegenResult)
        ensures
            self.obeys_codegen_spec() ==> r.cview() == self.spec_codegen(
                block.view_block(),
                strs_view(input_vars@),
                strs_view(output_vars@),
            ),
    ;
}

/// The block code generators, by block type and target.
pub struct CodegenRegistry {
    pub by_type: StrMap<StrMap<Box<dyn BlockCodegen>>>,
}

impl CodegenRegistry {
    /// A registry with no generators.
    pub fn new() -> (r: Self)
        ensures
            r.by_type.map() == Map::<Seq<char>, StrMap<Box<dyn BlockCodegen>>>::empty(),
    {
        CodegenRegistry { by_type: StrMap::new() }
    }

    /// Whether a generator is registered for `block_type` and `target`.
    pub open spec fn has(&self, block_type: Seq<char>, target: Seq<char>) -> bool {
        self.by_type.map().contains_key(block_type) && self.by_type.map()[block_type].map().contains_key(target)
    }

    /// The generator registered for `block_type` and `target`, if any.
    pub fn get_block_codegen(&self, block_type: &str, target: &str) -> (r: Option<&Box<dyn BlockCodegen>>)
        ensures
            r is Some <==> self.has(block_type@, target@),
            r is Some ==> *r->0 == self.by_type.map()[block_type@].map()[target@],
    {
        match self.by_type.get(block_type) {
            Some(targets) => targets.get(target),
            None => None,
        }
    }
}

/// A code-generation target.
pub trait CodegenTarget {
    /// Whether this target publishes its name through `spec_target_name`.
    /// A target written without it does not, and then nothing is claimed of
    /// its name.
    open spec fn obeys_target_spec(&self) -> bool {
        false
    }

    /// The name that `name` gives, for a target that obeys.
    open spec fn spec_target_name(&self) -> Seq<char> {
        Seq::empty()
    }

    /// The target's name, e.g. "candle".
    fn name(&self) -> (r: &'static str)
        ensures
            self.obeys_target_spec() ==> r@ == self.spec_target_name(),
    ;

    /// The suffix of generated file names.
    fn file_extension(&self) -> &'static str;

    /// The files generated for `graph`, using the block generators of
    /// `codegens`.
    fn generate(&self, graph: &Graph, codegens: &CodegenRegistry) -> Vec<GeneratedFile>;
}

/// A target as the registry holds it.
pub struct RegisteredTarget {
    pub target: Box<dyn CodegenTarget>,
}

/// The code-generation targets, by name.
pub struct TargetRegistry {
    pub targets: StrMap<RegisteredTarget>,
}

impl TargetRegistry {
    /// A registry with no targets.
    pub fn new() -> (r: Self)
        ensures
            r.targets.map() == Map::<Seq<char>, RegisteredTarget>::empty(),
    {
        TargetRegistry { targets: StrMap::new() }
    }

    /// Registers `target` under `name`, replacing an earlier one.
    pub fn register_target(&mut self, name: &str, target: Box<dyn CodegenTarget>)
        ensures
            final(self).targets.map() == old(self).targets.map().insert(name@, RegisteredTarget { target }),
            final(self).targets.key_seq() == if old(self).targets.map().contains_key(name@) {
                old(self).targets.key_seq()
            } else {
                old(self).targets.key_seq().push(name@)
            },
    {
        self.targets.insert(string_of(name), RegisteredTarget { target });
    }

    /// The target registered under `name`, if any.
    pub fn get_target(&self, name: &str) -> (r: Option<&Box<dyn CodegenTarget>>)
        ensures
            r is Some <==> self.targets.map().contains_key(name@),
            r is Some ==> *r->0 == self.targets.map()[name@].target,
    {
        match self.targets.get(name) {
            Some(e) => Some(&e.target),
            None => None,
        }
    }
}

// ---------------------------------------------------------------------------
// Text helpers
// ---------------------------------------------------------------------------

/// The index of the first newline of `s` at or after `i`, or the length.
pub open spec fn next_newline(s: Seq<char>, i: int) -> int
    decreases s.len() - i,
{
    if i >= s.len() || s[i] == '\n' {
        i
    } else {
        next_newline(s, i + 1)
    }
}

/// A line without its trailing carriage return.
pub open spec fn strip_cr(l: Seq<char>) -> Seq<char> {
    if l.len() > 0 && l.last() == '\r' {
        l.drop_last()
    } else {
        l
    }
}

/// The lines of `s` from position `i`: split at `\n`, a `\r` before the
/// `\n` removed, no line after a final `\n`.
pub open spec fn lines_from(s: Seq<char>, i: int) -> Seq<Seq<char>>
    decreases s.len() - i,
{
    if i >= s.len() || i < 0 {
        Seq::empty()
    } else {
        let k = next_newline(s, i);
        proof {
            lemma_next_newline(s, i);
        }
        if k >= s.len() {
            seq![s.subrange(i, s.len() as int)]
        } else {
            seq![strip_cr(s.subrange(i, k))] + lines_from(s, k + 1)
        }
    }
}

/// The lines of `s`, as `str::lines` splits them.
pub open spec fn lines_of(s: Seq<char>) -> Seq<Seq<char>> {
    lines_from(s, 0)
}

/// Each non-empty line prefixed with `indent`, joined by newlines.
pub open spec fn indented(s: Seq<char>, indent: Seq<char>) -> Seq<char> {
    let ls = lines_of(s);
    crate::text::join(
        Seq::new(ls.len(), |i: int| if ls[i].len() == 0 { Seq::empty() } else { indent + ls[i] }),
        "\n"@,
    )
}

pub proof fn lemma_next_newline(s: Seq<char>, i: int)
    requires
        0 <= i <= s.len(),
    ensures
        i <= next_newline(s, i) <= s.len(),
        next_newline(s, i) < s.len() ==> s[next_newline(s, i)] == '\n',
        forall|j: int| i <= j < next_newline(s, i) ==> s[j] != '\n',
    decreases s.len() - i,
{
    if i < s.len() && s[i] != '\n' {
        lemma_next_newline(s, i + 1);
    }
}

/// Indents each non-empty line of `s` by `indent`.
pub fn indent_lines(s: &str, indent: &str) -> (r: String)
    ensures
        r@ == indented(s@, indent@),
{
    let n = s.unicode_len();
    let ghost cs = s@;
    let mut parts: Vec<String> = Vec::new();
    let mut i: usize = 0;
    let ghost mut done: Seq<Seq<char>> = Seq::empty();
    while i < n
        invariant
            n == cs.len(),
            cs == s@,
            i <= n,
            lines_of(cs) == done + lines_from(cs, i as int),
            strs_view(parts@) == Seq::new(done.len(), |q: int| if done[q].len() == 0 { Seq::empty() } else { indent@ + done[q] }),
        decreases n - i,
    {
        proof {
            lemma_next_newline(cs, i as int);
        }
        let mut line = String::new();
        let mut j: usize = i;
        while j < n && s.get_char(j) != '\n'
            invariant
                i <= j <= n,
                n == cs.len(),
                cs == s@,
                next_newline(cs, j as int) == next_newline(cs, i as int),
                forall|q: int| i <= q < j ==> cs[q] != '\n',
                line@ == cs.subrange(i as int, j as int),
            decreases n - j,
        {
            let c = s.get_char(j);
            push_char(&mut line, c);
            proof {
                assert(cs.subrange(i as int, j + 1) =~= cs.subrange(i as int, j as int).push(c));
            }
            j = j + 1;
        }
        proof {
            assert(next_newline(cs, j as int) == j);
            assert(j == next_newline(cs, i as int));
        }
        let ghost lv = if j >= n { line@ } else { strip_cr(line@) };
        if j < n {
            let len = line.unicode_len();
            if len > 0 && line.get_char(len - 1) == '\r' {
                let mut t = String::new();
                let mut q: usize = 0;
                while q < len - 1
                    invariant
                        len == line@.len(),
                        q <= len - 1,
                        t@ == line@.subrange(0, q as int),
                    decreases len - 1 - q,
                {
                    let c = line.get_char(q);
                    push_char(&mut t, c);
                    proof {
                        assert(line@.subrange(0, q + 1) =~= line@.subrange(0, q as int).push(c));
                    }
                    q = q + 1;
                }
                proof {
                    assert(t@ =~= line@.drop_last());
                }
                line = t;
            }
        }
        proof {
            assert(line@ == lv);
        }
        let mut out = String::new();
        if line.unicode_len() > 0 {
            push_str(&mut out, indent);
            push_str(&mut out, line.as_str());
        }
        let ghost before = strs_view(parts@);
        let ghost ov = out@;
        parts.push(out);
        proof {
            let nd = done.push(lv);
            assert(strs_view(parts@) =~= before.push(ov));
            assert(ov == if lv.len() == 0 { Seq::<char>::empty() } else { indent@ + lv });
            assert(strs_view(parts@) =~= Seq::new(nd.len(), |q: int| if nd[q].len() == 0 { Seq::empty() } else { indent@ + nd[q] }));
            if j >= n {
                assert(lines_from(cs, i as int) == seq![lv]);
                assert(lines_from(cs, n as int) =~= Seq::<Seq<char>>::empty());
                assert(done + lines_from(cs, i as int) =~= nd + lines_from(cs, n as int));
            } else {
                assert(lines_from(cs, i as int) == seq![lv] + lines_from(cs, j + 1));
                assert(done + lines_from(cs, i as int) =~= nd + lines_from(cs, j + 1));
            }
            done = nd;
        }
        i = if j >= n { n } else { j + 1 };
    }
    proof {
        assert(lines_from(cs, i as int) =~= Seq::<Seq<char>>::empty());
        assert(lines_of(cs) =~= done);
    }
    crate::text::join_strings(&parts, "\n")
}

/// `c` in lower case, as `char::to_lowercase` gives it.
pub uninterp spec fn lowercase_of(c: char) -> Seq<char>;

/// `char::to_lowercase` from std, collected into a string: the documented
/// lower-case mapping. The claim is that it depends on `c` alone and maps
/// ASCII letters as ASCII does (upper case to lower, anything else ASCII
/// unchanged).
#[verifier::external_body]
fn char_to_lowercase(c: char) -> (r: String)
    ensures
        r@ == lowercase_of(c),
        ('A' <= c <= 'Z') ==> r@ == seq![((c as u32) + 32) as char],
        ((c as u32) < 128 && !('A' <= c <= 'Z')) ==> r@ == seq![c],
{
    c.to_lowercase().collect()
}

/// `name` with its first character in lower case.
pub open spec fn snake_case(name: Seq<char>) -> Seq<char> {
    if name.len() == 0 {
        Seq::empty()
    } else {
        lowercase_of(name[0]) + name.subrange(1, name.len() as int)
    }
}

/// The name with its first character in lower case.
pub fn to_snake_case(name: &str) -> (r: String)
    ensures
        r@ == snake_case(name@),
{
    let n = name.unicode_len();
    if n == 0 {
        return String::new();
    }
    let mut r = char_to_lowercase(name.get_char(0));
    let rest = name.substring_char(1, n);
    push_str(&mut r, rest);
    r
}

/// `s` with `rep` after each of its characters.
pub open spec fn after_each(s: Seq<char>, rep: Seq<char>) -> Seq<char>
    decreases s.len(),
{
    if s.len() == 0 {
        Seq::empty()
    } else {
        seq![s[0]] + rep + after_each(s.subrange(1, s.len() as int), rep)
    }
}

/// `s` with each occurrence of `pat`, left to right and not overlapping,
/// replaced by `rep`; an empty `pat` occurs before and after every
/// character.
pub open spec fn replace_all(s: Seq<char>, pat: Seq<char>, rep: Seq<char>) -> Seq<char>
    decreases s.len(),
{
    if pat.len() == 0 {
        rep + after_each(s, rep)
    } else if s.len() < pat.len() {
        s
    } else if s.subrange(0, pat.len() as int) == pat {
        rep + replace_all(s.subrange(pat.len() as int, s.len() as int), pat, rep)
    } else {
        seq![s[0]] + replace_all(s.subrange(1, s.len() as int), pat, rep)
    }
}

/// Whether `pat` occurs in `s` at position `i`.
fn occurs_at(s: &str, n: usize, i: usize, pat: &str, m: usize) -> (r: bool)
    requires
        n == s@.len(),
        m == pat@.len(),
        i <= n,
    ensures
        r == (i + m <= n && s@.subrange(i as int, i + m) == pat@),
{
    if m > n - i {
        return false;
    }
    let mut k: usize = 0;
    while k < m
        invariant
            i + m <= n,
            n == s@.len(),
            m == pat@.len(),
            k <= m,
            forall|q: int| 0 <= q < k ==> s@[i + q] == pat@[q],
        decreases m - k,
    {
        if s.get_char(i + k) != pat.get_char(k) {
            return false;
        }
        k = k + 1;
    }
    assert(s@.subrange(i as int, i + m) =~= pat@);
    true
}

/// `s` with every occurrence of `pat` replaced by `rep`, left to right.
pub fn replace_str(s: &str, pat: &str, rep: &str) -> (r: String)
    ensures
        r@ == replace_all(s@, pat@, rep@),
{
    let n = s.unicode_len();
    let m = pat.unicode_len();
    if m == 0 {
        let mut out = string_of(rep);
        let mut i: usize = 0;
        proof {
            assert(s@.subrange(0, n as int) =~= s@);
        }
        while i < n
            invariant
                n == s@.len(),
                m == pat@.len(),
                m == 0,
                i <= n,
                replace_all(s@, pat@, rep@) == out@ + after_each(s@.subrange(i as int, n as int), rep@),
            decreases n - i,
        {
            let ghost rest = s@.subrange(i as int, n as int);
            let c = s.get_char(i);
            let ghost o0 = out@;
            push_char(&mut out, c);
            push_str(&mut out, rep);
            proof {
                assert(rest.subrange(1, rest.len() as int) =~= s@.subrange(i + 1, n as int));
                assert(rest[0] == c);
                assert(o0 + (seq![c] + rep@ + after_each(s@.subrange(i + 1, n as int), rep@)) =~= out@ + after_each(s@.subrange(i + 1, n as int), rep@));
            }
            i = i + 1;
        }
        proof {
            assert(s@.subrange(i as int, n as int) =~= Seq::<char>::empty());
            assert(out@ + Seq::<char>::empty() =~= out@);
        }
        return out;
    }
    let mut out = String::new();
    let mut i: usize = 0;
    proof {
        assert(s@.subrange(0, n as int) =~= s@);
        assert(out@ + replace_all(s@, pat@, rep@) =~= replace_all(s@, pat@, rep@));
    }
    while i < n
        invariant
            n == s@.len(),
            m == pat@.len(),
            m > 0,
            i <= n,
            replace_all(s@, pat@, rep@) == out@ + replace_all(s@.subrange(i as int, n as int), pat@, rep@),
        decreases n - i,
    {
        let ghost rest = s@.subrange(i as int, n as int);
        if occurs_at(s, n, i, pat, m) {
            let ghost o0 = out@;
            push_str(&mut out, rep);
            proof {
                assert(o0 + (rep@ + replace_all(s@.subrange(i + m, n as int), pat@, rep@)) =~= out@ + replace_all(s@.subrange(i + m, n as int), pat@, rep@));
                assert(rest.subrange(0, m as int) =~= s@.subrange(i as int, i + m));
                assert(rest.subrange(m as int, rest.len() as int) =~= s@.subrange(i + m, n as int));
            }
            i = i + m;
        } else {
            let c = s.get_char(i);
            let ghost o0 = out@;
            push_char(&mut out, c);
            proof {
                assert(o0 + (seq![c] + replace_all(s@.subrange(i + 1, n as int), pat@, rep@)) =~= out@ + replace_all(s@.subrange(i + 1, n as int), pat@, rep@));
                if rest.len() >= m {
                    assert(rest.subrange(0, m as int) =~= s@.subrange(i as int, i + m));
                }
                assert(rest.subrange(1, rest.len() as int) =~= s@.subrange(i + 1, n as int));
                assert(rest[0] == c);
            }
            i = i + 1;
        }
    }
    proof {
        assert(s@.subrange(i as int, n as int) =~= Seq::<char>::empty());
        assert(out@ + Seq::<char>::empty() =~= out@);
    }
    out
}

} // verus!
