//! Completion suggestions: what the cursor stands in (a tensor list, a
//! parameter list, or where a block type goes), and the items offered there.
use vstd::prelude::*;

use crate::block::{BlockRegistry, ParamSpec};
use crate::candle::{is_ws, is_ws_exec, lemma_skip_ws, skip_ws, trim_end_at, trim_ws};
use crate::codegen::lines_of;
use crate::navigate::{chars_of, find_arrow, lemma_find_arrow, lemma_next_char, next_char, segments, split_from, split_lines};
use crate::text::{push_char, push_str, strs_view};

verus! {

// ---------------------------------------------------------------------------
// Character classes of std
// ---------------------------------------------------------------------------

/// Whether `c` has the Unicode `Alphabetic` property.
pub uninterp spec fn unicode_alphabetic(c: char) -> bool;

/// Whether `c` has a Unicode numeric general category (`Nd`, `Nl`, `No`).
pub uninterp spec fn unicode_numeric(c: char) -> bool;

/// `char::is_alphabetic` from std. The claim is that the answer depends on
/// `c` alone and that, among ASCII characters, exactly the letters are
/// alphabetic.
#[verifier::external_body]
fn char_is_alphabetic(c: char) -> (r: bool)
    ensures
        r == unicode_alphabetic(c),
        (c as u32) < 128 ==> (r <==> (('a' <= c && c <= 'z') || ('A' <= c && c <= 'Z'))),
{
    c.is_alphabetic()
}

/// `char::is_numeric` from std. The claim is that the answer depends on `c`
/// alone and that, among ASCII characters, exactly the digits are numeric.
#[verifier::external_body]
fn char_is_numeric(c: char) -> (r: bool)
    ensures
        r == unicode_numeric(c),
        (c as u32) < 128 ==> (r <==> ('0' <= c && c <= '9')),
{
    c.is_numeric()
}

/// `char::is_alphanumeric`: alphabetic or numeric.
pub open spec fn alphanumeric(c: char) -> bool {
    unicode_alphabetic(c) || unicode_numeric(c)
}

fn char_is_alphanumeric(c: char) -> (r: bool)
    ensures
        r == alphanumeric(c),
{
    char_is_alphabetic(c) || char_is_numeric(c)
}

// ---------------------------------------------------------------------------
// Searching backwards
// ---------------------------------------------------------------------------

/// The last index below `n` where `c` stands.
pub open spec fn rfind_char(s: Seq<char>, c: char, n: int) -> Option<int>
    decreases n,
{
    if n <= 0 {
        None
    } else if s[n - 1] == c {
        Some(n - 1)
    } else {
        rfind_char(s, c, n - 1)
    }
}

/// The last index where `->` starts, the whole arrow lying below `n`.
pub open spec fn rfind_arrow(s: Seq<char>, n: int) -> Option<int>
    decreases n,
{
    if n < 2 {
        None
    } else if s[n - 2] == '-' && s[n - 1] == '>' {
        Some(n - 2)
    } else {
        rfind_arrow(s, n - 1)
    }
}

proof fn lemma_rfind_char(s: Seq<char>, c: char, n: int)
    ensures
        rfind_char(s, c, n) matches Some(k) ==> 0 <= k < n && s[k] == c,
    decreases n,
{
    if n > 0 && s[n - 1] != c {
        lemma_rfind_char(s, c, n - 1);
    }
}

proof fn lemma_rfind_arrow(s: Seq<char>, n: int)
    ensures
        rfind_arrow(s, n) matches Some(k) ==> 0 <= k && k + 2 <= n,
    decreases n,
{
    if n >= 2 && !(s[n - 2] == '-' && s[n - 1] == '>') {
        lemma_rfind_arrow(s, n - 1);
    }
}

fn rfind_char_exec(s: &Vec<char>, c: char) -> (r: Option<usize>)
    ensures
        match r {
            Some(k) => rfind_char(s@, c, s@.len() as int) == Some(k as int) && k < s@.len(),
            None => rfind_char(s@, c, s@.len() as int) == None::<int>,
        },
{
    let mut n = s.len();
    while n > 0 && s[n - 1] != c
        invariant
            n <= s@.len(),
            rfind_char(s@, c, s@.len() as int) == rfind_char(s@, c, n as int),
        decreases n,
    {
        n = n - 1;
    }
    if n == 0 {
        None
    } else {
        Some(n - 1)
    }
}

fn rfind_arrow_exec(s: &Vec<char>) -> (r: Option<usize>)
    ensures
        match r {
            Some(k) => rfind_arrow(s@, s@.len() as int) == Some(k as int) && k + 2 <= s@.len(),
            None => rfind_arrow(s@, s@.len() as int) == None::<int>,
        },
{
    let mut n = s.len();
    while n >= 2 && !(s[n - 2] == '-' && s[n - 1] == '>')
        invariant
            n <= s@.len(),
            rfind_arrow(s@, s@.len() as int) == rfind_arrow(s@, n as int),
        decreases n,
    {
        n = n - 1;
    }
    if n < 2 {
        None
    } else {
        Some(n - 2)
    }
}

// ---------------------------------------------------------------------------
// Identifiers
// ---------------------------------------------------------------------------

/// A non-empty run of letters, digits and `_`, not starting with a digit.
pub open spec fn valid_ident(s: Seq<char>) -> bool {
    &&& s.len() > 0
    &&& forall|i: int| 0 <= i < s.len() ==> alphanumeric(#[trigger] s[i]) || s[i] == '_'
    &&& (unicode_alphabetic(s[0]) || s[0] == '_')
}

fn valid_ident_exec(s: &Vec<char>) -> (r: bool)
    ensures
        r == valid_ident(s@),
{
    if s.len() == 0 {
        return false;
    }
    let mut i: usize = 0;
    while i < s.len()
        invariant
            i <= s@.len(),
            forall|j: int| 0 <= j < i ==> alphanumeric(#[trigger] s@[j]) || s@[j] == '_',
        decreases s@.len() - i,
    {
        if !(char_is_alphanumeric(s[i]) || s[i] == '_') {
            return false;
        }
        i = i + 1;
    }
    char_is_alphabetic(s[0]) || s[0] == '_'
}

/// `s` without its trailing white space.
pub open spec fn trim_end_ws(s: Seq<char>) -> Seq<char> {
    s.subrange(0, trim_end_at(s, 0, s.len() as int))
}

/// The last index where white space stands.
pub open spec fn last_ws(s: Seq<char>, n: int) -> Option<int>
    decreases n,
{
    if n <= 0 {
        None
    } else if is_ws(s[n - 1]) {
        Some(n - 1)
    } else {
        last_ws(s, n - 1)
    }
}

/// The text after the last white-space character (all of `s` when there is
/// none), as `rsplit(char::is_whitespace).next()` gives it.
pub open spec fn last_word(s: Seq<char>) -> Seq<char> {
    match last_ws(s, s.len() as int) {
        Some(k) => s.subrange(k + 1, s.len() as int),
        None => s,
    }
}

/// The block type named before an opening parenthesis: the identifier after
/// the last `->`, else the last word.
pub open spec fn block_type_before_paren(before: Seq<char>) -> Option<Seq<char>> {
    let t = trim_end_ws(before);
    let after = match rfind_arrow(t, t.len() as int) {
        Some(p) => trim_ws(t.subrange(p + 2, t.len() as int)),
        None => Seq::empty(),
    };
    if rfind_arrow(t, t.len() as int) is Some && after.len() > 0 && valid_ident(after) {
        Some(after)
    } else if valid_ident(last_word(t)) {
        Some(last_word(t))
    } else {
        None
    }
}

fn sub_range(s: &Vec<char>, a: usize, b: usize) -> (r: Vec<char>)
    requires
        a <= b <= s@.len(),
    ensures
        r@ == s@.subrange(a as int, b as int),
{
    let mut out: Vec<char> = Vec::new();
    let mut i = a;
    while i < b
        invariant
            a <= i <= b <= s@.len(),
            out@ == s@.subrange(a as int, i as int),
        decreases b - i,
    {
        out.push(s[i]);
        assert(out@ =~= s@.subrange(a as int, i + 1));
        i = i + 1;
    }
    out
}

fn trim_end_exec(s: &Vec<char>) -> (r: Vec<char>)
    ensures
        r@ == trim_end_ws(s@),
{
    let mut b = s.len();
    while b > 0 && is_ws_exec(s[b - 1])
        invariant
            b <= s@.len(),
            trim_end_at(s@, 0, s@.len() as int) == trim_end_at(s@, 0, b as int),
        decreases b,
    {
        b = b - 1;
    }
    sub_range(s, 0, b)
}

fn trim_exec(s: &Vec<char>) -> (r: Vec<char>)
    ensures
        r@ == trim_ws(s@),
{
    let n = s.len();
    let mut a: usize = 0;
    while a < n && is_ws_exec(s[a])
        invariant
            a <= n,
            n == s@.len(),
            skip_ws(s@, 0) == skip_ws(s@, a as int),
        decreases n - a,
    {
        a = a + 1;
    }
    proof {
        lemma_skip_ws(s@, 0);
        assert(skip_ws(s@, a as int) == a);
    }
    let mut b: usize = n;
    while b > a && is_ws_exec(s[b - 1])
        invariant
            a <= b <= n,
            n == s@.len(),
            trim_end_at(s@, a as int, n as int) == trim_end_at(s@, a as int, b as int),
        decreases b,
    {
        b = b - 1;
    }
    sub_range(s, a, b)
}

fn last_word_exec(s: &Vec<char>) -> (r: Vec<char>)
    ensures
        r@ == last_word(s@),
{
    let mut n = s.len();
    while n > 0 && !is_ws_exec(s[n - 1])
        invariant
            n <= s@.len(),
            last_ws(s@, s@.len() as int) == last_ws(s@, n as int),
        decreases n,
    {
        n = n - 1;
    }
    if n == 0 {
        sub_range(s, 0, s.len())
    } else {
        sub_range(s, n, s.len())
    }
}

/// The block type named before an opening parenthesis.
fn block_type_before_paren_exec(before: &Vec<char>) -> (r: Option<Vec<char>>)
    ensures
        match r {
            Some(v) => block_type_before_paren(before@) == Some(v@),
            None => block_type_before_paren(before@) == None::<Seq<char>>,
        },
{
    let t = trim_end_exec(before);
    let ra = rfind_arrow_exec(&t);
    match ra {
        Some(p) => {
            let tl = t.len();
            assert(p + 2 <= tl);
            let rest = sub_range(&t, p + 2, tl);
            let after = trim_exec(&rest);
            if after.len() > 0 && valid_ident_exec(&after) {
                return Some(after);
            }
        },
        None => {},
    }
    let w = last_word_exec(&t);
    if valid_ident_exec(&w) {
        Some(w)
    } else {
        None
    }
}


// ---------------------------------------------------------------------------
// Tensor names declared in a document
// ---------------------------------------------------------------------------

/// The non-empty trimmed pieces of `segs`, in order.
pub open spec fn nonempty_trimmed(segs: Seq<Seq<char>>) -> Seq<Seq<char>>
    decreases segs.len(),
{
    if segs.len() == 0 {
        Seq::empty()
    } else {
        nonempty_trimmed(segs.drop_last()) + if trim_ws(segs.last()).len() > 0 {
            seq![trim_ws(segs.last())]
        } else {
            Seq::<Seq<char>>::empty()
        }
    }
}

proof fn lemma_nonempty_trimmed_push(a: Seq<Seq<char>>, x: Seq<char>)
    ensures
        nonempty_trimmed(a.push(x)) == nonempty_trimmed(a) + if trim_ws(x).len() > 0 {
            seq![trim_ws(x)]
        } else {
            Seq::<Seq<char>>::empty()
        },
{
    assert(a.push(x).drop_last() =~= a);
}

/// The first index at or after `i` that is not a space or a tab (or the
/// length).
pub open spec fn blanks_end(s: Seq<char>, i: int) -> int
    decreases s.len() - i,
{
    if i >= s.len() || (s[i] != ' ' && s[i] != '\t') {
        i
    } else {
        blanks_end(s, i + 1)
    }
}

pub proof fn lemma_blanks_end(s: Seq<char>, i: int)
    requires
        0 <= i <= s.len(),
    ensures
        i <= blanks_end(s, i) <= s.len(),
    decreases s.len() - i,
{
    if i < s.len() && (s[i] == ' ' || s[i] == '\t') {
        lemma_blanks_end(s, i + 1);
    }
}

/// The first index at or after `i` holding `]` or a newline (or the
/// length): where a name list that opens on this line must close.
pub open spec fn list_end(s: Seq<char>, i: int) -> int
    decreases s.len() - i,
{
    if i >= s.len() || s[i] == ']' || s[i] == '\n' {
        i
    } else {
        list_end(s, i + 1)
    }
}

pub proof fn lemma_list_end(s: Seq<char>, i: int)
    requires
        0 <= i <= s.len(),
    ensures
        i <= list_end(s, i) <= s.len(),
    decreases s.len() - i,
{
    if i < s.len() && s[i] != ']' && s[i] != '\n' {
        lemma_list_end(s, i + 1);
    }
}

/// The names declared by `-> [..]` in `s` from index `pos` on: after an
/// arrow, past spaces and tabs on the same line, a `[` whose list closes
/// with `]` on that line; each comma-separated entry, trimmed, when not
/// empty.
pub open spec fn named_from(s: Seq<char>, pos: int) -> Seq<Seq<char>>
    decreases s.len() + 1 - pos,
{
    if pos < 0 || pos > s.len() {
        Seq::empty()
    } else {
        let a = find_arrow(s, pos);
        proof {
            lemma_find_arrow(s, pos);
        }
        if a >= s.len() {
            Seq::empty()
        } else {
            let aa = a + 2;
            let b = blanks_end(s, aa);
            proof {
                lemma_blanks_end(s, aa);
            }
            if b >= s.len() || s[b] != '[' {
                named_from(s, aa)
            } else {
                let c = list_end(s, b + 1);
                proof {
                    lemma_list_end(s, b + 1);
                }
                if c >= s.len() || s[c] != ']' {
                    named_from(s, b + 1)
                } else {
                    nonempty_trimmed(segments(s.subrange(b + 1, c))) + named_from(s, c + 1)
                }
            }
        }
    }
}

fn blanks_end_from(s: &Vec<char>, i: usize) -> (r: usize)
    requires
        i <= s@.len(),
    ensures
        r == blanks_end(s@, i as int),
{
    let mut j = i;
    while j < s.len() && (s[j] == ' ' || s[j] == '\t')
        invariant
            i <= j <= s@.len(),
            blanks_end(s@, i as int) == blanks_end(s@, j as int),
        decreases s@.len() - j,
    {
        j = j + 1;
    }
    j
}

fn list_end_from(s: &Vec<char>, i: usize) -> (r: usize)
    requires
        i <= s@.len(),
    ensures
        r == list_end(s@, i as int),
{
    let mut j = i;
    while j < s.len() && s[j] != ']' && s[j] != '\n'
        invariant
            i <= j <= s@.len(),
            list_end(s@, i as int) == list_end(s@, j as int),
        decreases s@.len() - j,
    {
        j = j + 1;
    }
    j
}

fn find_arrow_from(s: &Vec<char>, i: usize) -> (r: usize)
    requires
        i <= s@.len(),
    ensures
        r == find_arrow(s@, i as int),
{
    let mut j = i;
    while j < s.len() && j + 1 < s.len() && !(s[j] == '-' && s[j + 1] == '>')
        invariant
            i <= j <= s@.len(),
            find_arrow(s@, i as int) == find_arrow(s@, j as int),
        decreases s@.len() - j,
    {
        j = j + 1;
    }
    if j < s.len() && j + 1 < s.len() {
        j
    } else {
        s.len()
    }
}

fn next_char_from(s: &Vec<char>, c: char, i: usize) -> (r: usize)
    requires
        i <= s@.len(),
    ensures
        r == next_char(s@, c, i as int),
{
    let mut j = i;
    while j < s.len() && s[j] != c
        invariant
            i <= j <= s@.len(),
            next_char(s@, c, i as int) == next_char(s@, c, j as int),
        decreases s@.len() - j,
    {
        j = j + 1;
    }
    j
}

/// Appends the non-empty trimmed comma-separated pieces of `content`.
fn push_trimmed_segments(out: &mut Vec<String>, content: &Vec<char>)
    ensures
        strs_view(final(out)@) == strs_view(old(out)@) + nonempty_trimmed(segments(content@)),
{
    let n = content.len();
    let ghost cs = content@;
    let ghost start = strs_view(out@);
    let mut i: usize = 0;
    let mut more = true;
    let ghost mut done: Seq<Seq<char>> = Seq::empty();
    while more
        invariant
            n == cs.len(),
            cs == content@,
            i <= n,
            more ==> segments(cs) == done + split_from(cs, i as int),
            !more ==> segments(cs) == done,
            strs_view(out@) == start + nonempty_trimmed(done),
        decreases if more { n + 2 - i } else { 0 },
    {
        proof {
            lemma_next_char(cs, ',', i as int);
        }
        let k = next_char_from(content, ',', i);
        let seg = sub_range(content, i, k);
        let t = trim_exec(&seg);
        let ghost before = strs_view(out@);
        if t.len() > 0 {
            let mut st = String::new();
            let mut q: usize = 0;
            while q < t.len()
                invariant
                    q <= t@.len(),
                    st@ == t@.take(q as int),
                decreases t@.len() - q,
            {
                push_char(&mut st, t[q]);
                assert(st@ =~= t@.take(q + 1));
                q = q + 1;
            }
            assert(t@.take(t@.len() as int) =~= t@);
            out.push(st);
            assert(strs_view(out@) =~= before.push(t@));
        }
        proof {
            let nd = done.push(seg@);
            lemma_nonempty_trimmed_push(done, seg@);
            assert(strs_view(out@) =~= start + nonempty_trimmed(nd));
            if k >= n {
                assert(split_from(cs, i as int) == seq![seg@]);
                assert(done + split_from(cs, i as int) =~= nd);
            } else {
                assert(split_from(cs, i as int) == seq![seg@] + split_from(cs, k + 1));
                assert(done + split_from(cs, i as int) =~= nd + split_from(cs, k + 1));
            }
            done = nd;
        }
        if k >= n {
            more = false;
        } else {
            i = k + 1;
        }
    }
}

/// The tensor names that the `-> [..]` lists of `source` declare, in order.
pub fn named_tensors(source: &str) -> (r: Vec<String>)
    ensures
        strs_view(r@) == named_from(source@, 0),
{
    let cs = chars_of(source);
    let n = cs.len();
    let mut out: Vec<String> = Vec::new();
    let mut pos: usize = 0;
    while pos <= n
        invariant
            n == cs@.len(),
            cs@ == source@,
            named_from(cs@, 0) == strs_view(out@) + named_from(cs@, pos as int),
        decreases n + 1 - pos,
    {
        proof {
            lemma_find_arrow(cs@, pos as int);
        }
        let a = find_arrow_from(&cs, pos);
        if a >= n {
            proof {
                assert(named_from(cs@, pos as int) =~= Seq::<Seq<char>>::empty());
                assert(strs_view(out@) + named_from(cs@, pos as int) =~= strs_view(out@));
            }
            return out;
        }
        let aa = a + 2;
        proof {
            lemma_blanks_end(cs@, aa as int);
        }
        let b = blanks_end_from(&cs, aa);
        if b >= n || cs[b] != '[' {
            pos = aa;
        } else {
            proof {
                lemma_list_end(cs@, b + 1);
            }
            let c = list_end_from(&cs, b + 1);
            if c >= n || cs[c] != ']' {
                pos = b + 1;
            } else {
                let content = sub_range(&cs, b + 1, c);
                let ghost before = strs_view(out@);
                push_trimmed_segments(&mut out, &content);
                proof {
                    assert(named_from(cs@, pos as int) == nonempty_trimmed(segments(content@)) + named_from(cs@, c + 1));
                    assert(before + named_from(cs@, pos as int) =~= strs_view(out@) + named_from(cs@, c + 1));
                }
                pos = c + 1;
            }
        }
    }
    proof {
        assert(named_from(cs@, pos as int) =~= Seq::<Seq<char>>::empty());
        assert(strs_view(out@) + named_from(cs@, pos as int) =~= strs_view(out@));
    }
    out
}


// ---------------------------------------------------------------------------
// Where the cursor stands
// ---------------------------------------------------------------------------

/// The first `k` lines, each followed by a newline.
pub open spec fn prefix_text(ls: Seq<Seq<char>>, k: int) -> Seq<char>
    decreases k,
{
    if k <= 0 {
        Seq::empty()
    } else {
        prefix_text(ls, k - 1) + ls[k - 1] + "\n"@
    }
}

/// The document text up to the cursor: the lines before the cursor's line,
/// each with its newline, then the first `character` characters of the
/// cursor's line (nothing when the line does not exist).
pub open spec fn up_to_cursor(ls: Seq<Seq<char>>, line: nat, character: nat) -> Seq<char> {
    if line < ls.len() {
        prefix_text(ls, line as int) + ls[line as int].take(
            if character <= ls[line as int].len() {
                character as int
            } else {
                ls[line as int].len() as int
            },
        )
    } else {
        prefix_text(ls, ls.len() as int)
    }
}

/// The cursor's line, or nothing when it does not exist.
pub open spec fn current_line(ls: Seq<Seq<char>>, line: nat) -> Seq<char> {
    if line < ls.len() {
        ls[line as int]
    } else {
        Seq::empty()
    }
}

/// Whether the last `[` comes after the last `]` (or there is no `]`).
pub open spec fn bracket_open(u: Seq<char>) -> bool {
    match rfind_char(u, '[', u.len() as int) {
        Some(ob) => match rfind_char(u, ']', u.len() as int) {
            Some(cb) => ob > cb,
            None => true,
        },
        None => false,
    }
}

/// The last `(` when it comes after the last `)` (or there is no `)`).
pub open spec fn open_paren(u: Seq<char>) -> Option<int> {
    match rfind_char(u, '(', u.len() as int) {
        Some(op) => match rfind_char(u, ')', u.len() as int) {
            Some(cp) => if op > cp {
                Some(op)
            } else {
                None
            },
            None => Some(op),
        },
        None => None,
    }
}

/// Whether character `k` of `cs` starts at byte `b`.
pub open spec fn starts_at_byte(cs: Seq<char>, k: int, b: nat) -> bool {
    0 <= k <= cs.len() && crate::lsp::byte_offset(cs, k) == b
}

/// The characters of `cs` before byte `b`.
pub open spec fn chars_before_byte(cs: Seq<char>, b: nat) -> Seq<char> {
    cs.take(choose|k: int| starts_at_byte(cs, k, b))
}

/// Whether a block type goes where the text `before` ends: after an arrow
/// followed only by identifier characters and white space, or on a line
/// that is blank so far.
pub open spec fn block_type_slot(before: Seq<char>) -> bool {
    match rfind_arrow(before, before.len() as int) {
        Some(i) => forall|j: int|
            i + 2 <= j < before.len() ==> is_ws(#[trigger] before[j]) || alphanumeric(before[j]) || before[j]
                == '_',
        None => skip_ws(before, 0) == before.len(),
    }
}

/// What the cursor stands in.
pub enum CompletionContext {
    /// Inside `[...]`: tensor names are offered.
    InsideBrackets,
    /// Inside the parameter list of a block of this type.
    InsideParens { block_type: String },
    /// Where a block type name goes.
    BlockType,
    /// Nothing to offer.
    NoContext,
}

/// The model of a [`CompletionContext`].
pub enum ContextV {
    InsideBrackets,
    InsideParens(Seq<char>),
    BlockType,
    NoContext,
}

impl CompletionContext {
    pub open spec fn ctx_view(self) -> ContextV {
        match self {
            CompletionContext::InsideBrackets => ContextV::InsideBrackets,
            CompletionContext::InsideParens { block_type } => ContextV::InsideParens(block_type@),
            CompletionContext::BlockType => ContextV::BlockType,
            CompletionContext::NoContext => ContextV::NoContext,
        }
    }
}

/// Whether the context decision gets to look at the cursor's line itself
/// (neither an open bracket nor a parameter list decided it).
pub open spec fn reaches_line_check(ls: Seq<Seq<char>>, line: nat, character: nat) -> bool {
    let u = up_to_cursor(ls, line, character);
    !bracket_open(u) && !(open_paren(u) is Some && block_type_before_paren(u.take(open_paren(u)->0)) is Some)
}

/// The completion context at `character` of line `line`.
pub open spec fn context_at(ls: Seq<Seq<char>>, line: nat, character: nat) -> ContextV {
    let u = up_to_cursor(ls, line, character);
    if bracket_open(u) {
        ContextV::InsideBrackets
    } else if open_paren(u) is Some && block_type_before_paren(u.take(open_paren(u)->0)) is Some {
        ContextV::InsideParens(block_type_before_paren(u.take(open_paren(u)->0))->0)
    } else if block_type_slot(chars_before_byte(current_line(ls, line), character)) {
        ContextV::BlockType
    } else {
        ContextV::NoContext
    }
}

proof fn lemma_byte_offset_mono(cs: Seq<char>, i: int, j: int)
    requires
        0 <= i < j <= cs.len(),
    ensures
        crate::lsp::byte_offset(cs, i) < crate::lsp::byte_offset(cs, j),
    decreases j - i,
{
    crate::lsp::lemma_utf16_take_step(cs, j - 1);
    crate::lsp::lemma_scalar_width(cs[j - 1]);
    if i < j - 1 {
        lemma_byte_offset_mono(cs, i, j - 1);
    }
}

/// The characters of `line` before byte `character`, which must start a
/// character.
fn chars_before(line: &Vec<char>, character: u32) -> (r: Vec<char>)
    requires
        exists|k: int| starts_at_byte(line@, k, character as nat),
    ensures
        r@ == chars_before_byte(line@, character as nat),
{
    let ghost cs = line@;
    let ghost k0 = choose|k: int| starts_at_byte(cs, k, character as nat);
    let target: u64 = character as u64;
    let mut i: usize = 0;
    let mut b: u64 = 0;
    proof {
        assert(cs.take(0) =~= Seq::<char>::empty());
        assert(vstd::utf8::encode_utf8(Seq::<char>::empty()) =~= Seq::<u8>::empty());
    }
    while i < line.len() && b < target
        invariant
            cs == line@,
            starts_at_byte(cs, k0, character as nat),
            target == character,
            i <= k0,
            b == crate::lsp::byte_offset(cs, i as int),
            b <= target,
        decreases k0 - i,
    {
        let ch = line[i];
        let code: u32 = ch as u32;
        proof {
            crate::lsp::lemma_utf16_take_step(cs, i as int);
            crate::lsp::lemma_scalar_width(ch);
            if i as int == k0 {
                assert(false);
            }
            if i + 1 < k0 {
                lemma_byte_offset_mono(cs, i + 1, k0);
            }
        }
        let w: u64 = if code < 0x80 {
            1
        } else if code < 0x800 {
            2
        } else if code < 0x10000 {
            3
        } else {
            4
        };
        b = b + w;
        i = i + 1;
        proof {
            if (i as int) < k0 {
                lemma_byte_offset_mono(cs, i as int, k0);
            }
        }
    }
    proof {
        if (i as int) < k0 {
            lemma_byte_offset_mono(cs, i as int, k0);
        }
        assert(i as int == k0);
    }
    sub_range(line, 0, i)
}


fn string_from_chars(v: &Vec<char>) -> (r: String)
    ensures
        r@ == v@,
{
    let mut st = String::new();
    let mut q: usize = 0;
    while q < v.len()
        invariant
            q <= v@.len(),
            st@ == v@.take(q as int),
        decreases v@.len() - q,
    {
        push_char(&mut st, v[q]);
        assert(st@ =~= v@.take(q + 1));
        q = q + 1;
    }
    assert(v@.take(v@.len() as int) =~= v@);
    st
}

fn append_chars(u: &mut Vec<char>, v: &Vec<char>, k: usize)
    requires
        k <= v@.len(),
    ensures
        final(u)@ == old(u)@ + v@.take(k as int),
{
    let ghost u0 = u@;
    let mut q: usize = 0;
    while q < k
        invariant
            k <= v@.len(),
            q <= k,
            u@ == u0 + v@.take(q as int),
        decreases k - q,
    {
        u.push(v[q]);
        assert(u@ =~= u0 + v@.take(q + 1));
        q = q + 1;
    }
}

fn block_type_slot_exec(before: &Vec<char>) -> (r: bool)
    ensures
        r == block_type_slot(before@),
{
    let ra = rfind_arrow_exec(before);
    match ra {
        Some(i) => {
            let bl = before.len();
            assert(i + 2 <= bl);
            let mut j = i + 2;
            while j < before.len()
                invariant
                    rfind_arrow(before@, before@.len() as int) == Some(i as int),
                    i + 2 <= j <= before@.len(),
                    forall|q: int| i + 2 <= q < j ==> is_ws(#[trigger] before@[q]) || alphanumeric(before@[q]) || before@[q] == '_',
                decreases before@.len() - j,
            {
                let c = before[j];
                if !(is_ws_exec(c) || char_is_alphanumeric(c) || c == '_') {
                    return false;
                }
                j = j + 1;
            }
            true
        },
        None => {
            let n = before.len();
            let mut a: usize = 0;
            while a < n && is_ws_exec(before[a])
                invariant
                    a <= n,
                    n == before@.len(),
                    skip_ws(before@, 0) == skip_ws(before@, a as int),
                decreases n - a,
            {
                a = a + 1;
            }
            proof {
                lemma_skip_ws(before@, 0);
            }
            a == n
        },
    }
}

/// The completion context at `character` (a byte column) of line `line`.
pub fn detect_context(lines: &Vec<String>, line: u32, character: u32) -> (r: CompletionContext)
    requires
        reaches_line_check(strs_view(lines@), line as nat, character as nat) ==> exists|k: int|
            starts_at_byte(current_line(strs_view(lines@), line as nat), k, character as nat),
    ensures
        r.ctx_view() == context_at(strs_view(lines@), line as nat, character as nat),
{
    let ghost ls = strs_view(lines@);
    let n = lines.len();
    let li = line as usize;
    let k = if li < n { li } else { n };
    let mut u: Vec<char> = Vec::new();
    let mut i: usize = 0;
    while i < k
        invariant
            ls == strs_view(lines@),
            k <= lines@.len(),
            i <= k,
            u@ == prefix_text(ls, i as int),
        decreases k - i,
    {
        let cs = chars_of(lines[i].as_str());
        let cl = cs.len();
        append_chars(&mut u, &cs, cl);
        u.push('\n');
        proof {
            reveal_strlit("\n");
            assert(cs@.take(cl as int) =~= cs@);
            assert(ls[i as int] == lines@[i as int]@);
            assert(u@ =~= prefix_text(ls, i + 1));
        }
        i = i + 1;
    }
    let cur: Vec<char> = if li < n {
        chars_of(lines[li].as_str())
    } else {
        Vec::new()
    };
    proof {
        if (li as int) < ls.len() {
            assert(ls[li as int] == lines@[li as int]@);
        }
        assert(cur@ == current_line(ls, line as nat));
    }
    if li < n {
        let take = if (character as usize) <= cur.len() {
            character as usize
        } else {
            cur.len()
        };
        append_chars(&mut u, &cur, take);
    }
    assert(u@ == up_to_cursor(ls, line as nat, character as nat));
    let ob = rfind_char_exec(&u, '[');
    let cb = rfind_char_exec(&u, ']');
    match ob {
        Some(o) => {
            let inside = match cb {
                Some(c) => o > c,
                None => true,
            };
            if inside {
                return CompletionContext::InsideBrackets;
            }
        },
        None => {},
    }
    let op = rfind_char_exec(&u, '(');
    let cp = rfind_char_exec(&u, ')');
    match op {
        Some(o) => {
            let open = match cp {
                Some(c) => o > c,
                None => true,
            };
            if open {
                let bp = sub_range(&u, 0, o);
                assert(bp@ == u@.take(o as int));
                match block_type_before_paren_exec(&bp) {
                    Some(bt) => {
                        return CompletionContext::InsideParens { block_type: string_from_chars(&bt) };
                    },
                    None => {},
                }
            }
        },
        None => {},
    }
    let before = chars_before(&cur, character);
    if block_type_slot_exec(&before) {
        CompletionContext::BlockType
    } else {
        CompletionContext::NoContext
    }
}

/// The kind of a completion item.
#[derive(Clone, Copy, Debug, PartialEq, Eq, Structural)]
pub enum CompletionKind {
    /// A tensor name.
    Variable,
    /// A parameter name.
    Property,
    /// A block type.
    Class,
}

/// One suggestion.
#[derive(Debug)]
pub struct CompletionItem {
    pub label: String,
    pub kind: CompletionKind,
    pub insert_text: Option<String>,
}

/// Whether `item` offers `label` of kind `kind` with the insertion text `insert`.
pub open spec fn item_is(item: CompletionItem, label: Seq<char>, kind: CompletionKind, insert: Option<Seq<char>>) -> bool {
    &&& item.label@ == label
    &&& item.kind == kind
    &&& crate::svg::opt_view(item.insert_text) == insert
}

/// Whether `items` offer the parameters `ps`: each name, inserted with `=`.
pub open spec fn param_items(items: Seq<CompletionItem>, ps: Seq<ParamSpec>) -> bool {
    &&& items.len() == ps.len()
    &&& forall|j: int|
        0 <= j < ps.len() ==> item_is(
            #[trigger] items[j],
            ps[j].name@,
            CompletionKind::Property,
            Some(ps[j].name@ + "="@),
        )
}

/// The suggestions at `character` (a byte column) of line `line`: tensor
/// names inside brackets, the parameters of the block type inside its
/// parameter list, the registered block types where a block type goes.
pub fn get_completions(doc_source: &str, line: u32, character: u32, registry: &BlockRegistry) -> (r: Vec<CompletionItem>)
    requires
        reaches_line_check(lines_of(doc_source@), line as nat, character as nat) ==> exists|k: int|
            starts_at_byte(current_line(lines_of(doc_source@), line as nat), k, character as nat),
    ensures
        match context_at(lines_of(doc_source@), line as nat, character as nat) {
            ContextV::InsideBrackets => {
                let names = named_from(doc_source@, 0);
                &&& r@.len() == names.len()
                &&& forall|j: int|
                    0 <= j < names.len() ==> item_is(#[trigger] r@[j], names[j], CompletionKind::Variable, None)
            },
            ContextV::InsideParens(bt) => if registry.blocks.map().contains_key(bt) {
                &&& exists|ps: Seq<ParamSpec>| #[trigger] param_items(r@, ps)
                &&& registry.blocks.map()[bt].obeys_block_spec() ==> param_items(
                    r@,
                    registry.blocks.map()[bt].spec_params(),
                )
            } else {
                r@.len() == 0
            },
            ContextV::BlockType => {
                let names = registry.blocks.key_seq();
                &&& r@.len() == names.len()
                &&& forall|j: int|
                    0 <= j < names.len() ==> item_is(#[trigger] r@[j], names[j], CompletionKind::Class, None)
            },
            ContextV::NoContext => r@.len() == 0,
        },
{
    let lines = split_lines(doc_source);
    let context = detect_context(&lines, line, character);
    let mut out: Vec<CompletionItem> = Vec::new();
    match context {
        CompletionContext::InsideBrackets => {
            let names = named_tensors(doc_source);
            let ghost nv = strs_view(names@);
            let mut i: usize = 0;
            while i < names.len()
                invariant
                    nv == strs_view(names@),
                    i <= names@.len(),
                    out@.len() == i,
                    forall|j: int| 0 <= j < i ==> item_is(#[trigger] out@[j], nv[j], CompletionKind::Variable, None),
                decreases names@.len() - i,
            {
                out.push(CompletionItem {
                    label: crate::text::clone_string(&names[i]),
                    kind: CompletionKind::Variable,
                    insert_text: None,
                });
                i = i + 1;
            }
        },
        CompletionContext::InsideParens { block_type } => {
            match registry.get(block_type.as_str()) {
                Some(def) => {
                    let params = def.params();
                    let mut i: usize = 0;
                    while i < params.len()
                        invariant
                            i <= params@.len(),
                            out@.len() == i,
                            forall|j: int|
                                0 <= j < i ==> item_is(
                                    #[trigger] out@[j],
                                    params@[j].name@,
                                    CompletionKind::Property,
                                    Some(params@[j].name@ + "="@),
                                ),
                        decreases params@.len() - i,
                    {
                        let mut ins = crate::text::clone_string(&params[i].name);
                        push_str(&mut ins, "=");
                        out.push(CompletionItem {
                            label: crate::text::clone_string(&params[i].name),
                            kind: CompletionKind::Property,
                            insert_text: Some(ins),
                        });
                        i = i + 1;
                    }
                    assert(param_items(out@, params@));
                },
                None => {},
            }
        },
        CompletionContext::BlockType => {
            let names = crate::block::all_block_names(registry);
            let ghost nv = strs_view(names@);
            let mut i: usize = 0;
            while i < names.len()
                invariant
                    nv == strs_view(names@),
                    i <= names@.len(),
                    out@.len() == i,
                    forall|j: int| 0 <= j < i ==> item_is(#[trigger] out@[j], nv[j], CompletionKind::Class, None),
                decreases names@.len() - i,
            {
                out.push(CompletionItem {
                    label: crate::text::clone_string(&names[i]),
                    kind: CompletionKind::Class,
                    insert_text: None,
                });
                i = i + 1;
            }
        },
        CompletionContext::NoContext => {},
    }
    out
}

} // verus!
