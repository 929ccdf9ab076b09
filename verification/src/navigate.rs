//! Editor navigation: go to the declaration of a tensor name, find its
//! uses, and describe a block type under the cursor.
use vstd::prelude::*;
use vstd::utf8::encode_utf8;

use crate::candle::{is_ws_exec, lemma_skip_ws, skip_ws, trim_end_at, trim_ws};
use crate::codegen::{lemma_next_newline, lines_from, lines_of, next_newline, strip_cr};
use crate::lsp::word_at_position;
use crate::text::{push_char, strs_view};

verus! {

// ---------------------------------------------------------------------------
// Searching in a line
// ---------------------------------------------------------------------------

/// The first index at or after `i` where `c` stands (or the length).
pub open spec fn next_char(s: Seq<char>, c: char, i: int) -> int
    decreases s.len() - i,
{
    if i >= s.len() || s[i] == c {
        i
    } else {
        next_char(s, c, i + 1)
    }
}

pub proof fn lemma_next_char(s: Seq<char>, c: char, i: int)
    requires
        0 <= i <= s.len(),
    ensures
        i <= next_char(s, c, i) <= s.len(),
        next_char(s, c, i) < s.len() ==> s[next_char(s, c, i)] == c,
        forall|j: int| i <= j < next_char(s, c, i) ==> s[j] != c,
    decreases s.len() - i,
{
    if i < s.len() && s[i] != c {
        lemma_next_char(s, c, i + 1);
    }
}

/// The first index at or after `i` where `->` starts (or the length).
pub open spec fn find_arrow(s: Seq<char>, i: int) -> int
    decreases s.len() - i,
{
    if i + 1 >= s.len() {
        s.len() as int
    } else if s[i] == '-' && s[i + 1] == '>' {
        i
    } else {
        find_arrow(s, i + 1)
    }
}

pub proof fn lemma_find_arrow(s: Seq<char>, i: int)
    requires
        0 <= i <= s.len(),
    ensures
        i <= find_arrow(s, i) <= s.len(),
        find_arrow(s, i) < s.len() ==> find_arrow(s, i) + 1 < s.len() && s[find_arrow(s, i)] == '-'
            && s[find_arrow(s, i) + 1] == '>',
    decreases s.len() - i,
{
    if i + 1 < s.len() && !(s[i] == '-' && s[i + 1] == '>') {
        lemma_find_arrow(s, i + 1);
    }
}

/// The first index at or after `i` where `pat` occurs.
pub open spec fn find_sub(s: Seq<char>, pat: Seq<char>, i: int) -> Option<int>
    decreases s.len() + 1 - i,
{
    if i < 0 || i + pat.len() > s.len() {
        None
    } else if s.subrange(i, i + pat.len()) == pat {
        Some(i)
    } else {
        find_sub(s, pat, i + 1)
    }
}

/// The pieces of `s` from index `i` on, split at commas (as `str::split(',')`).
pub open spec fn split_from(s: Seq<char>, i: int) -> Seq<Seq<char>>
    decreases s.len() - i,
{
    if i > s.len() || i < 0 {
        Seq::empty()
    } else {
        let k = next_char(s, ',', i);
        proof {
            lemma_next_char(s, ',', i);
        }
        if k >= s.len() {
            seq![s.subrange(i, s.len() as int)]
        } else {
            seq![s.subrange(i, k)] + split_from(s, k + 1)
        }
    }
}

/// The comma-separated pieces of `s`.
pub open spec fn segments(s: Seq<char>) -> Seq<Seq<char>> {
    split_from(s, 0)
}

/// How many of `segs`, trimmed, equal `name`.
pub open spec fn count_named(segs: Seq<Seq<char>>, name: Seq<char>) -> nat
    decreases segs.len(),
{
    if segs.len() == 0 {
        0
    } else {
        count_named(segs.drop_last(), name) + if trim_ws(segs.last()) == name {
            1nat
        } else {
            0nat
        }
    }
}

proof fn lemma_count_named_append(a: Seq<Seq<char>>, b: Seq<Seq<char>>, name: Seq<char>)
    ensures
        count_named(a + b, name) == count_named(a, name) + count_named(b, name),
    decreases b.len(),
{
    if b.len() == 0 {
        assert(a + b =~= a);
    } else {
        assert((a + b).drop_last() =~= a + b.drop_last());
        lemma_count_named_append(a, b.drop_last(), name);
    }
}

proof fn lemma_count_named_bound(a: Seq<Seq<char>>, name: Seq<char>)
    ensures
        count_named(a, name) <= a.len(),
    decreases a.len(),
{
    if a.len() > 0 {
        lemma_count_named_bound(a.drop_last(), name);
    }
}

// ---------------------------------------------------------------------------
// Executable helpers on characters
// ---------------------------------------------------------------------------

/// The characters of `s`.
pub fn chars_of(s: &str) -> (r: Vec<char>)
    ensures
        r@ == s@,
{
    let n = s.unicode_len();
    let mut out: Vec<char> = Vec::new();
    let mut i: usize = 0;
    while i < n
        invariant
            n == s@.len(),
            i <= n,
            out@ == s@.take(i as int),
        decreases n - i,
    {
        out.push(s.get_char(i));
        assert(out@ =~= s@.take(i + 1));
        i = i + 1;
    }
    assert(s@.take(n as int) =~= s@);
    out
}

fn next_char_exec(s: &Vec<char>, c: char, i: usize) -> (r: usize)
    requires
        i <= s@.len(),
    ensures
        r == next_char(s@, c, i as int),
{
    let mut j = i;
    while j < s.len() && s[j] != c
        invariant
            i <= j <= s@.len(),
            next_char(s@, c, i as int) == next_char(s@, c, j as int),
        decreases s@.len() - j,
    {
        j = j + 1;
    }
    j
}

fn find_arrow_exec(s: &Vec<char>, i: usize) -> (r: usize)
    requires
        i <= s@.len(),
    ensures
        r == find_arrow(s@, i as int),
{
    let mut j = i;
    while j < s.len() && j + 1 < s.len() && !(s[j] == '-' && s[j + 1] == '>')
        invariant
            i <= j <= s@.len(),
            find_arrow(s@, i as int) == find_arrow(s@, j as int),
        decreases s@.len() - j,
    {
        j = j + 1;
    }
    if j < s.len() && j + 1 < s.len() {
        j
    } else {
        s.len()
    }
}

/// The characters `s[a..b]`.
fn sub_chars(s: &Vec<char>, a: usize, b: usize) -> (r: Vec<char>)
    requires
        a <= b <= s@.len(),
    ensures
        r@ == s@.subrange(a as int, b as int),
{
    let mut out: Vec<char> = Vec::new();
    let mut i = a;
    while i < b
        invariant
            a <= i <= b <= s@.len(),
            out@ == s@.subrange(a as int, i as int),
        decreases b - i,
    {
        out.push(s[i]);
        assert(out@ =~= s@.subrange(a as int, i + 1));
        i = i + 1;
    }
    out
}

pub proof fn lemma_find_sub(s: Seq<char>, pat: Seq<char>, i: int)
    ensures
        find_sub(s, pat, i) matches Some(k) ==> i <= k && k + pat.len() <= s.len() && s.subrange(k, k
            + pat.len()) == pat,
    decreases s.len() + 1 - i,
{
    if !(i < 0 || i + pat.len() > s.len()) && s.subrange(i, i + pat.len()) != pat {
        lemma_find_sub(s, pat, i + 1);
    }
}

/// Whether `s[a..b]` equals `t`.
fn range_eq(s: &Vec<char>, a: usize, b: usize, t: &Vec<char>) -> (r: bool)
    requires
        a <= b <= s@.len(),
    ensures
        r == (s@.subrange(a as int, b as int) == t@),
{
    if b - a != t.len() {
        return false;
    }
    let mut i: usize = 0;
    while i < t.len()
        invariant
            b - a == t@.len(),
            a <= b <= s@.len(),
            i <= t@.len(),
            forall|j: int| 0 <= j < i ==> s@[a + j] == t@[j],
        decreases t@.len() - i,
    {
        if s[a + i] != t[i] {
            assert(s@.subrange(a as int, b as int)[i as int] != t@[i as int]);
            return false;
        }
        i = i + 1;
    }
    assert(s@.subrange(a as int, b as int) =~= t@);
    true
}

/// Whether `s`, trimmed, equals `t`.
fn trimmed_eq(s: &Vec<char>, t: &Vec<char>) -> (r: bool)
    ensures
        r == (trim_ws(s@) == t@),
{
    let n = s.len();
    let mut a: usize = 0;
    while a < n && is_ws_exec(s[a])
        invariant
            a <= n,
            n == s@.len(),
            skip_ws(s@, 0) == skip_ws(s@, a as int),
        decreases n - a,
    {
        a = a + 1;
    }
    proof {
        lemma_skip_ws(s@, 0);
        assert(skip_ws(s@, a as int) == a);
    }
    let mut b: usize = n;
    while b > a && is_ws_exec(s[b - 1])
        invariant
            a <= b <= n,
            n == s@.len(),
            trim_end_at(s@, a as int, n as int) == trim_end_at(s@, a as int, b as int),
        decreases b,
    {
        b = b - 1;
    }
    assert(trim_end_at(s@, a as int, b as int) == b);
    range_eq(s, a, b, t)
}

/// How many comma-separated pieces of `content`, trimmed, equal `name`.
fn count_named_exec(content: &Vec<char>, name: &Vec<char>) -> (r: usize)
    requires
        content@.len() < usize::MAX,
    ensures
        r == count_named(segments(content@), name@),
{
    let n = content.len();
    let ghost cs = content@;
    let mut i: usize = 0;
    let mut count: usize = 0;
    let mut more = true;
    let ghost mut done: Seq<Seq<char>> = Seq::empty();
    while more
        invariant
            n == cs.len(),
            n < usize::MAX,
            cs == content@,
            i <= n,
            more ==> segments(cs) == done + split_from(cs, i as int),
            !more ==> segments(cs) == done,
            count == count_named(done, name@),
            count <= done.len(),
            more ==> done.len() <= i,
        decreases if more { n + 2 - i } else { 0 },
    {
        proof {
            lemma_next_char(cs, ',', i as int);
        }
        let k = next_char_exec(content, ',', i);
        let seg = sub_chars(content, i, k);
        let hit = trimmed_eq(&seg, name);
        proof {
            assert(count_named(done.push(seg@), name@) == count_named(done, name@) + if hit { 1nat } else { 0nat }) by {
                assert(done.push(seg@).drop_last() =~= done);
            }
            lemma_count_named_bound(done.push(seg@), name@);
        }
        if hit {
            count = count + 1;
        }
        proof {
            let nd = done.push(seg@);
            if k >= n {
                assert(split_from(cs, i as int) == seq![seg@]);
                assert(done + split_from(cs, i as int) =~= nd);
            } else {
                assert(split_from(cs, i as int) == seq![seg@] + split_from(cs, k + 1));
                assert(done + split_from(cs, i as int) =~= nd + split_from(cs, k + 1));
            }
            done = nd;
        }
        if k >= n {
            more = false;
        } else {
            i = k + 1;
        }
    }
    count
}


/// The first occurrence of `pat` in `s`.
pub fn find_sub_exec(s: &Vec<char>, pat: &Vec<char>) -> (r: Option<usize>)
    ensures
        match r {
            Some(k) => find_sub(s@, pat@, 0) == Some(k as int) && k + pat@.len() <= s@.len(),
            None => find_sub(s@, pat@, 0) == None::<int>,
        },
{
    proof {
        lemma_find_sub(s@, pat@, 0);
    }
    let n = s.len();
    let m = pat.len();
    if m > n {
        return None;
    }
    let mut i: usize = 0;
    while i <= n - m
        invariant
            n == s@.len(),
            m == pat@.len(),
            m <= n,
            i <= n - m,
            find_sub(s@, pat@, 0) == find_sub(s@, pat@, i as int),
        decreases n - m + 1 - i,
    {
        if range_eq(s, i, i + m, pat) {
            return Some(i);
        }
        if i == n - m {
            assert(find_sub(s@, pat@, i + 1) == None::<int>);
            return None;
        }
        i = i + 1;
    }
    None
}

// ---------------------------------------------------------------------------
// Declarations and uses of a tensor name on one line
// ---------------------------------------------------------------------------

/// The column (a character index) of `content`'s first occurrence of
/// `name`, counted from `start`; `start` itself when there is none.
pub open spec fn name_col(content: Seq<char>, name: Seq<char>, start: int) -> int {
    match find_sub(content, name, 0) {
        Some(f) => start + f,
        None => start,
    }
}

/// Where, from index `pos` of the line `s` on, `name` is declared: the
/// first `-> [..]` list with a comma-separated entry equal to `name`
/// (trimmed); the result is the character index of `name`'s first
/// occurrence in that list.
pub open spec fn def_col(s: Seq<char>, name: Seq<char>, pos: int) -> Option<int>
    decreases s.len() + 1 - pos,
{
    if pos < 0 || pos > s.len() {
        None
    } else {
        let a = find_arrow(s, pos);
        proof {
            lemma_find_arrow(s, pos);
        }
        if a >= s.len() {
            None
        } else {
            let aa = a + 2;
            let b = next_char(s, '[', aa);
            proof {
                lemma_next_char(s, '[', aa);
            }
            if b >= s.len() {
                def_col(s, name, aa)
            } else {
                let c = next_char(s, ']', b + 1);
                proof {
                    lemma_next_char(s, ']', b + 1);
                }
                if c >= s.len() {
                    def_col(s, name, b + 1)
                } else {
                    let content = s.subrange(b + 1, c);
                    if count_named(segments(content), name) > 0 {
                        Some(name_col(content, name, b + 1))
                    } else {
                        def_col(s, name, c + 1)
                    }
                }
            }
        }
    }
}

/// The columns (character indices) of the uses of `name` in the `[..]`
/// lists of the line `s` from index `pos` on: for each list, one entry per
/// comma-separated item equal to `name` (trimmed), each at `name`'s first
/// occurrence in that list.
pub open spec fn ref_cols(s: Seq<char>, name: Seq<char>, pos: int) -> Seq<int>
    decreases s.len() + 1 - pos,
{
    if pos < 0 || pos > s.len() {
        Seq::empty()
    } else {
        let b = next_char(s, '[', pos);
        proof {
            lemma_next_char(s, '[', pos);
        }
        if b >= s.len() {
            Seq::empty()
        } else {
            let c = next_char(s, ']', b + 1);
            proof {
                lemma_next_char(s, ']', b + 1);
            }
            if c >= s.len() {
                ref_cols(s, name, b + 1)
            } else {
                let content = s.subrange(b + 1, c);
                let k = count_named(segments(content), name);
                let here = match find_sub(content, name, 0) {
                    Some(f) => Seq::new(k, |j: int| b + 1 + f),
                    None => Seq::empty(),
                };
                here + ref_cols(s, name, c + 1)
            }
        }
    }
}

/// The declaration column of `name` on the line `cs`.
fn def_col_exec(cs: &Vec<char>, name: &Vec<char>) -> (r: Option<usize>)
    ensures
        match r {
            Some(k) => def_col(cs@, name@, 0) == Some(k as int),
            None => def_col(cs@, name@, 0) == None::<int>,
        },
{
    let n = cs.len();
    let mut pos: usize = 0;
    while pos <= n
        invariant
            n == cs@.len(),
            def_col(cs@, name@, 0) == def_col(cs@, name@, pos as int),
        decreases n + 1 - pos,
    {
        proof {
            lemma_find_arrow(cs@, pos as int);
        }
        let a = find_arrow_exec(cs, pos);
        if a >= n {
            return None;
        }
        let aa = a + 2;
        proof {
            lemma_next_char(cs@, '[', aa as int);
        }
        let b = next_char_exec(cs, '[', aa);
        if b >= n {
            pos = aa;
        } else {
            proof {
                lemma_next_char(cs@, ']', b + 1);
            }
            let c = next_char_exec(cs, ']', b + 1);
            if c >= n {
                pos = b + 1;
            } else {
                let content = sub_chars(cs, b + 1, c);
                let k = count_named_exec(&content, name);
                if k > 0 {
                    let f = find_sub_exec(&content, name);
                    let col = match f {
                        Some(x) => b + 1 + x,
                        None => b + 1,
                    };
                    return Some(col);
                }
                pos = c + 1;
            }
        }
    }
    None
}

/// The use columns of `name` on the line `cs`.
fn ref_cols_exec(cs: &Vec<char>, name: &Vec<char>) -> (r: Vec<usize>)
    ensures
        r@.len() == ref_cols(cs@, name@, 0).len(),
        forall|j: int| 0 <= j < r@.len() ==> r@[j] as int == ref_cols(cs@, name@, 0)[j],
{
    let n = cs.len();
    let mut pos: usize = 0;
    let mut out: Vec<usize> = Vec::new();
    let ghost mut done: Seq<int> = Seq::empty();
    while pos <= n
        invariant
            n == cs@.len(),
            ref_cols(cs@, name@, 0) == done + ref_cols(cs@, name@, pos as int),
            out@.len() == done.len(),
            forall|j: int| 0 <= j < out@.len() ==> out@[j] as int == done[j],
        decreases n + 1 - pos,
    {
        proof {
            lemma_next_char(cs@, '[', pos as int);
        }
        let b = next_char_exec(cs, '[', pos);
        if b >= n {
            proof {
                assert(ref_cols(cs@, name@, pos as int) =~= Seq::<int>::empty());
                assert(done + ref_cols(cs@, name@, pos as int) =~= done);
            }
            return out;
        }
        proof {
            lemma_next_char(cs@, ']', b + 1);
        }
        let c = next_char_exec(cs, ']', b + 1);
        if c >= n {
            pos = b + 1;
        } else {
            let content = sub_chars(cs, b + 1, c);
            let k = count_named_exec(&content, name);
            let f = find_sub_exec(&content, name);
            let ghost here: Seq<int> = match find_sub(content@, name@, 0) {
                Some(ff) => Seq::new(k as nat, |j: int| b + 1 + ff),
                None => Seq::empty(),
            };
            match f {
                Some(x) => {
                    let col = b + 1 + x;
                    let mut t: usize = 0;
                    while t < k
                        invariant
                            t <= k,
                            out@.len() == done.len() + t,
                            forall|j: int| 0 <= j < done.len() ==> out@[j] as int == done[j],
                            forall|j: int| done.len() <= j < out@.len() ==> out@[j] == col,
                        decreases k - t,
                    {
                        out.push(col);
                        t = t + 1;
                    }
                },
                None => {},
            }
            proof {
                assert(ref_cols(cs@, name@, pos as int) == here + ref_cols(cs@, name@, c + 1));
                let nd = done + here;
                assert forall|j: int| 0 <= j < out@.len() implies out@[j] as int == nd[j] by {
                    if j >= done.len() {
                        assert(nd[j] == here[j - done.len()]);
                    }
                }
                assert(done + ref_cols(cs@, name@, pos as int) =~= nd + ref_cols(cs@, name@, c + 1));
                done = nd;
            }
            pos = c + 1;
        }
    }
    proof {
        assert(ref_cols(cs@, name@, pos as int) =~= Seq::<int>::empty());
        assert(done + ref_cols(cs@, name@, pos as int) =~= done);
    }
    out
}


// ---------------------------------------------------------------------------
// Documents
// ---------------------------------------------------------------------------

/// The lines of `s`, as `str::lines` gives them.
pub fn split_lines(s: &str) -> (r: Vec<String>)
    ensures
        strs_view(r@) == lines_of(s@),
{
    let cs = chars_of(s);
    let n = cs.len();
    let mut out: Vec<String> = Vec::new();
    let mut i: usize = 0;
    while i < n
        invariant
            n == cs@.len(),
            cs@ == s@,
            i <= n,
            lines_of(cs@) == strs_view(out@) + lines_from(cs@, i as int),
        decreases n - i,
    {
        proof {
            lemma_next_newline(cs@, i as int);
        }
        let mut j: usize = i;
        while j < n && cs[j] != '\n'
            invariant
                i <= j <= n,
                n == cs@.len(),
                next_newline(cs@, j as int) == next_newline(cs@, i as int),
            decreases n - j,
        {
            j = j + 1;
        }
        let e: usize = if j < n && j > i && cs[j - 1] == '\r' {
            j - 1
        } else {
            j
        };
        let mut line = String::new();
        let mut q: usize = i;
        while q < e
            invariant
                i <= q <= e <= n,
                n == cs@.len(),
                line@ == cs@.subrange(i as int, q as int),
            decreases e - q,
        {
            push_char(&mut line, cs[q]);
            assert(line@ =~= cs@.subrange(i as int, q + 1));
            q = q + 1;
        }
        let ghost lv = line@;
        let ghost before = strs_view(out@);
        out.push(line);
        proof {
            assert(strs_view(out@) =~= before.push(lv));
            if j >= n {
                assert(lines_from(cs@, i as int) == seq![lv]);
                assert(lines_from(cs@, n as int) =~= Seq::<Seq<char>>::empty());
                assert(before + lines_from(cs@, i as int) =~= before.push(lv) + lines_from(cs@, n as int));
            } else {
                assert(strip_cr(cs@.subrange(i as int, j as int)) =~= lv);
                assert(lines_from(cs@, i as int) == seq![lv] + lines_from(cs@, j + 1));
                assert(before + lines_from(cs@, i as int) =~= before.push(lv) + lines_from(cs@, j + 1));
            }
        }
        i = if j >= n { n } else { j + 1 };
    }
    proof {
        assert(lines_from(cs@, i as int) =~= Seq::<Seq<char>>::empty());
        assert(lines_of(cs@) =~= strs_view(out@));
    }
    out
}

/// The byte offset in the UTF-8 encoding of `line` of character `k`.
pub fn byte_col(line: &str, k: usize) -> (r: usize)
    requires
        k <= line@.len(),
    ensures
        r == crate::lsp::byte_offset(line@, k as int),
{
    let total = line.as_bytes().len();
    let ghost cs = line@;
    let mut i: usize = 0;
    let mut b: usize = 0;
    proof {
        assert(cs.take(0) =~= Seq::<char>::empty());
    }
    while i < k
        invariant
            cs == line@,
            k <= cs.len(),
            i <= k,
            b == crate::lsp::byte_offset(cs, i as int),
            b <= encode_utf8(cs).len(),
            total == encode_utf8(cs).len(),
        decreases k - i,
    {
        let ch = line.get_char(i);
        let code: u32 = ch as u32;
        proof {
            crate::lsp::lemma_utf16_take_step(cs, i as int);
            crate::lsp::lemma_scalar_width(ch);
            crate::lsp::lemma_encode_prefix_len(cs, i as int + 1);
        }
        let w: usize = if code < 0x80 {
            1
        } else if code < 0x800 {
            2
        } else if code < 0x10000 {
            3
        } else {
            4
        };
        b = b + w;
        i = i + 1;
    }
    b
}

/// A position in a document: a line and a column, both from 0.
#[derive(Clone, Copy, Debug, PartialEq, Eq, Structural)]
pub struct Position {
    pub line: u32,
    pub character: u32,
}

/// A span between two positions.
#[derive(Clone, Copy, Debug, PartialEq, Eq, Structural)]
pub struct Range {
    pub start: Position,
    pub end: Position,
}

/// A span in the document named by `uri`.
#[derive(Debug)]
pub struct Location {
    pub uri: String,
    pub range: Range,
}

/// The identifier under the cursor at `p`, in the lines `ls`.
pub open spec fn cursor_word(ls: Seq<Seq<char>>, p: Position) -> Option<Seq<char>> {
    if (p.line as int) < ls.len() {
        crate::lsp::word_under(ls[p.line as int], p.character as nat)
    } else {
        None
    }
}

/// The first line, from index `i` on, that declares `name`, with the column.
pub open spec fn definition_in(ls: Seq<Seq<char>>, name: Seq<char>, i: int) -> Option<(int, int)>
    decreases ls.len() - i,
{
    if i < 0 || i >= ls.len() {
        None
    } else {
        match def_col(ls[i], name, 0) {
            Some(c) => Some((i, c)),
            None => definition_in(ls, name, i + 1),
        }
    }
}

/// The uses of `name` in the lines from index `i` on: line and column.
pub open spec fn references_in(ls: Seq<Seq<char>>, name: Seq<char>, i: int) -> Seq<(int, int)>
    decreases ls.len() - i,
{
    if i < 0 || i >= ls.len() {
        Seq::empty()
    } else {
        let cols = ref_cols(ls[i], name, 0);
        Seq::new(cols.len(), |j: int| (i, cols[j])) + references_in(ls, name, i + 1)
    }
}

/// Whether `l` spans `len` bytes from character `c` of line `li` of `ls`,
/// in the document `uri`.
pub open spec fn location_at(l: Location, uri: Seq<char>, ls: Seq<Seq<char>>, li: int, c: int, len: nat) -> bool {
    let b = crate::lsp::byte_offset(ls[li], c);
    &&& l.uri@ == uri
    &&& l.range.start.line == li as u32
    &&& l.range.start.character == b as u32
    &&& l.range.end.line == li as u32
    &&& l.range.end.character == (b + len) as u32
}

fn make_location(uri: &str, line: &String, li: usize, c: usize, len: usize) -> (r: Location)
    requires
        c <= line@.len(),
    ensures
        r.uri@ == uri@,
        r.range.start.line == li as u32,
        r.range.start.character == crate::lsp::byte_offset(line@, c as int) as u32,
        r.range.end.line == li as u32,
        r.range.end.character == (crate::lsp::byte_offset(line@, c as int) + len) as u32,
{
    let b = byte_col(line.as_str(), c);
    let e: u128 = b as u128 + len as u128;
    Location {
        uri: crate::text::string_of(uri),
        range: Range {
            start: Position { line: li as u32, character: b as u32 },
            end: Position { line: li as u32, character: e as u32 },
        },
    }
}

/// The word under the cursor, if the cursor's line exists.
fn cursor_word_exec(lines: &Vec<String>, position: &Position) -> (r: Option<String>)
    ensures
        crate::svg::opt_view(r) == cursor_word(strs_view(lines@), *position),
{
    let pl = position.line as usize;
    if pl >= lines.len() {
        return None;
    }
    let w = word_at_position(lines[pl].as_str(), position.character);
    proof {
        match &w {
            Some(x) => {
                crate::lsp::lemma_word_result(lines@[pl as int]@, position.character as nat, Some(x@));
            },
            None => {
                crate::lsp::lemma_word_result(lines@[pl as int]@, position.character as nat, None);
            },
        }
        assert(strs_view(lines@)[pl as int] == lines@[pl as int]@);
    }
    w
}

/// Where the tensor name under the cursor is declared: the first line with
/// a `-> [..]` list holding it, at the name's first occurrence in that list.
pub fn get_definition(doc_source: &str, uri: &str, position: &Position) -> (r: Option<Location>)
    ensures
        ({
            let ls = lines_of(doc_source@);
            let cw = cursor_word(ls, *position);
            if cw is Some && cw->0.len() > 0 {
                match definition_in(ls, cw->0, 0) {
                    Some((li, c)) => r is Some && location_at(r->0, uri@, ls, li, c, cw->0.len()),
                    None => r is None,
                }
            } else {
                r is None
            }
        }),
{
    let lines = split_lines(doc_source);
    let ghost ls = strs_view(lines@);
    let cwr = cursor_word_exec(&lines, position);
    let w = match cwr {
        Some(w) => w,
        None => return None,
    };
    assert(cursor_word(ls, *position) == Some(w@));
    let wlen = w.unicode_len();
    if wlen == 0 {
        return None;
    }
    let name = chars_of(w.as_str());
    let mut li: usize = 0;
    while li < lines.len()
        invariant
            ls == strs_view(lines@),
            ls == lines_of(doc_source@),
            cursor_word(ls, *position) == Some(w@),
            w@.len() > 0,
            name@ == w@,
            wlen == w@.len(),
            li <= lines@.len(),
            definition_in(ls, w@, 0) == definition_in(ls, w@, li as int),
        decreases lines@.len() - li,
    {
        let cs = chars_of(lines[li].as_str());
        proof {
            assert(ls[li as int] == lines@[li as int]@);
        }
        match def_col_exec(&cs, &name) {
            Some(c) => {
                proof {
                    lemma_def_col_bound(cs@, name@, 0);
                    assert(ls[li as int] == lines@[li as int]@);
                    assert(definition_in(ls, w@, li as int) == Some((li as int, c as int)));
                }
                let loc = make_location(uri, &lines[li], li, c, wlen);
                assert(location_at(loc, uri@, ls, li as int, c as int, w@.len()));
                return Some(loc);
            },
            None => {},
        }
        li = li + 1;
    }
    None
}

proof fn lemma_def_col_bound(s: Seq<char>, name: Seq<char>, pos: int)
    ensures
        def_col(s, name, pos) matches Some(c) ==> 0 <= c <= s.len(),
    decreases s.len() + 1 - pos,
{
    if !(pos < 0 || pos > s.len()) {
        lemma_find_arrow(s, pos);
        let a = find_arrow(s, pos);
        if a < s.len() {
            let aa = a + 2;
            lemma_next_char(s, '[', aa);
            let b = next_char(s, '[', aa);
            if b >= s.len() {
                lemma_def_col_bound(s, name, aa);
            } else {
                lemma_next_char(s, ']', b + 1);
                let c = next_char(s, ']', b + 1);
                if c >= s.len() {
                    lemma_def_col_bound(s, name, b + 1);
                } else {
                    let content = s.subrange(b + 1, c);
                    lemma_find_sub(content, name, 0);
                    lemma_def_col_bound(s, name, c + 1);
                }
            }
        }
    }
}


proof fn lemma_ref_cols_bound(s: Seq<char>, name: Seq<char>, pos: int)
    ensures
        forall|j: int| 0 <= j < ref_cols(s, name, pos).len() ==> 0 <= #[trigger] ref_cols(s, name, pos)[j] <= s.len(),
    decreases s.len() + 1 - pos,
{
    if !(pos < 0 || pos > s.len()) {
        lemma_next_char(s, '[', pos);
        let b = next_char(s, '[', pos);
        if b < s.len() {
            lemma_next_char(s, ']', b + 1);
            let c = next_char(s, ']', b + 1);
            if c >= s.len() {
                lemma_ref_cols_bound(s, name, b + 1);
                assert(ref_cols(s, name, pos) == ref_cols(s, name, b + 1));
            } else {
                let content = s.subrange(b + 1, c);
                lemma_find_sub(content, name, 0);
                lemma_ref_cols_bound(s, name, c + 1);
                let k = count_named(segments(content), name);
                let here = match find_sub(content, name, 0) {
                    Some(f) => Seq::new(k, |j: int| b + 1 + f),
                    None => Seq::empty(),
                };
                let rest = ref_cols(s, name, c + 1);
                assert(ref_cols(s, name, pos) == here + rest);
                assert forall|j: int| 0 <= j < ref_cols(s, name, pos).len() implies 0 <= #[trigger] ref_cols(s, name, pos)[j] <= s.len() by {
                    if j < here.len() {
                        assert(ref_cols(s, name, pos)[j] == here[j]);
                    } else {
                        assert(ref_cols(s, name, pos)[j] == rest[j - here.len()]);
                    }
                }
            }
        }
    }
}

/// Every use of the tensor name under the cursor: for each `[..]` list and
/// each comma-separated item equal to the name, the name's first occurrence
/// in that list; lines in order.
pub fn get_references(doc_source: &str, uri: &str, position: &Position) -> (r: Vec<Location>)
    ensures
        ({
            let ls = lines_of(doc_source@);
            let cw = cursor_word(ls, *position);
            if cw is Some && cw->0.len() > 0 {
                let refs = references_in(ls, cw->0, 0);
                &&& r@.len() == refs.len()
                &&& forall|j: int|
                    0 <= j < refs.len() ==> location_at(
                        #[trigger] r@[j],
                        uri@,
                        ls,
                        refs[j].0,
                        refs[j].1,
                        cw->0.len(),
                    )
            } else {
                r@.len() == 0
            }
        }),
{
    let lines = split_lines(doc_source);
    let ghost ls = strs_view(lines@);
    let cwr = cursor_word_exec(&lines, position);
    let w = match cwr {
        Some(w) => w,
        None => return Vec::new(),
    };
    assert(cursor_word(ls, *position) == Some(w@));
    let wlen = w.unicode_len();
    if wlen == 0 {
        return Vec::new();
    }
    let name = chars_of(w.as_str());
    let mut out: Vec<Location> = Vec::new();
    let ghost mut done: Seq<(int, int)> = Seq::empty();
    let mut li: usize = 0;
    while li < lines.len()
        invariant
            ls == strs_view(lines@),
            ls == lines_of(doc_source@),
            cursor_word(ls, *position) == Some(w@),
            name@ == w@,
            wlen == w@.len(),
            li <= lines@.len(),
            references_in(ls, w@, 0) == done + references_in(ls, w@, li as int),
            out@.len() == done.len(),
            forall|j: int| 0 <= j < done.len() ==> location_at(#[trigger] out@[j], uri@, ls, done[j].0, done[j].1, w@.len()),
        decreases lines@.len() - li,
    {
        let cs = chars_of(lines[li].as_str());
        proof {
            assert(ls[li as int] == lines@[li as int]@);
            lemma_ref_cols_bound(cs@, name@, 0);
        }
        let cols = ref_cols_exec(&cs, &name);
        let ghost rc = ref_cols(cs@, name@, 0);
        let ghost here = Seq::new(rc.len(), |j: int| (li as int, rc[j]));
        let mut t: usize = 0;
        while t < cols.len()
            invariant
                ls == strs_view(lines@),
                li < lines@.len(),
                cs@ == lines@[li as int]@,
                ls[li as int] == cs@,
                rc == ref_cols(cs@, name@, 0),
                here == Seq::new(rc.len(), |j: int| (li as int, rc[j])),
                cols@.len() == rc.len(),
                forall|j: int| 0 <= j < cols@.len() ==> cols@[j] as int == rc[j],
                forall|j: int| 0 <= j < rc.len() ==> 0 <= #[trigger] rc[j] <= cs@.len(),
                wlen == w@.len(),
                t <= cols@.len(),
                out@.len() == done.len() + t,
                forall|j: int| 0 <= j < done.len() ==> location_at(#[trigger] out@[j], uri@, ls, done[j].0, done[j].1, w@.len()),
                forall|j: int| 0 <= j < t ==> location_at(#[trigger] out@[done.len() + j], uri@, ls, here[j].0, here[j].1, w@.len()),
            decreases cols@.len() - t,
        {
            let c = cols[t];
            assert(rc[t as int] == c);
            let loc = make_location(uri, &lines[li], li, c, wlen);
            out.push(loc);
            t = t + 1;
        }
        proof {
            assert(references_in(ls, w@, li as int) == here + references_in(ls, w@, li + 1));
            let nd = done + here;
            assert forall|j: int| 0 <= j < nd.len() implies location_at(#[trigger] out@[j], uri@, ls, nd[j].0, nd[j].1, w@.len()) by {
                if j >= done.len() {
                    let q = j - done.len();
                    assert(out@[done.len() + q] == out@[j]);
                }
            }
            assert(done + references_in(ls, w@, li as int) =~= nd + references_in(ls, w@, li + 1));
            done = nd;
        }
        li = li + 1;
    }
    proof {
        assert(references_in(ls, w@, li as int) =~= Seq::<(int, int)>::empty());
        assert(done + references_in(ls, w@, li as int) =~= done);
    }
    out
}

// ---------------------------------------------------------------------------
// Hover
// ---------------------------------------------------------------------------

/// One parameter line of a hover text: name, type, and `?` when optional.
pub open spec fn hover_param_line(p: crate::block::ParamSpec) -> Seq<char> {
    "  `"@ + p.name@ + "`: "@ + crate::block::param_type_name(p.param_type) + if p.required {
        Seq::empty()
    } else {
        "?"@
    }
}

/// The hover text of a block type: its name in bold and its parameters.
pub open spec fn hover_text(name: Seq<char>, params: Seq<crate::block::ParamSpec>) -> Seq<char> {
    let section = if params.len() == 0 {
        "  _(none)_"@
    } else {
        crate::text::join(Seq::new(params.len(), |i: int| hover_param_line(params[i])), "\n"@)
    };
    "**"@ + name + "**\n```\nparams:\n"@ + section + "\n```"@
}

/// The Markdown that describes a block type with the given name and
/// parameters.
pub fn hover_markdown(name: &str, params: &[crate::block::ParamSpec]) -> (r: String)
    ensures
        r@ == hover_text(name@, params@),
{
    let mut lines: Vec<String> = Vec::new();
    let mut i: usize = 0;
    while i < params.len()
        invariant
            i <= params@.len(),
            lines@.len() == i,
            forall|j: int| 0 <= j < i ==> (#[trigger] lines@[j])@ == hover_param_line(params@[j]),
        decreases params@.len() - i,
    {
        let p = &params[i];
        let mut l = String::new();
        crate::text::push_str(&mut l, "  `");
        crate::text::push_str(&mut l, p.name.as_str());
        crate::text::push_str(&mut l, "`: ");
        crate::text::push_str(&mut l, p.param_type.as_str());
        if !p.required {
            crate::text::push_str(&mut l, "?");
        }
        proof {
            assert(l@ =~= hover_param_line(params@[i as int]));
        }
        lines.push(l);
        i = i + 1;
    }
    let section = if params.len() == 0 {
        crate::text::string_of("  _(none)_")
    } else {
        assert(strs_view(lines@) =~= Seq::new(params@.len(), |k: int| hover_param_line(params@[k])));
        crate::text::join_strings(&lines, "\n")
    };
    let mut out = String::new();
    crate::text::push_str(&mut out, "**");
    crate::text::push_str(&mut out, name);
    crate::text::push_str(&mut out, "**\n```\nparams:\n");
    crate::text::push_str(&mut out, section.as_str());
    crate::text::push_str(&mut out, "\n```");
    out
}

/// Hover text for the block type under the cursor, when the registry has
/// one by that name.
pub fn get_hover(doc_source: &str, position: &Position, registry: &crate::block::BlockRegistry) -> (r: Option<String>)
    ensures
        ({
            let cw = cursor_word(lines_of(doc_source@), *position);
            &&& r is Some <==> (cw is Some && registry.blocks.map().contains_key(cw->0))
            &&& r matches Some(t) ==> exists|name: Seq<char>, ps: Seq<crate::block::ParamSpec>|
                t@ == hover_text(name, ps)
            &&& (r is Some && registry.blocks.map()[cw->0].obeys_block_spec()) ==> r->0@ == hover_text(
                registry.blocks.map()[cw->0].spec_name(),
                registry.blocks.map()[cw->0].spec_params(),
            )
        }),
{
    let lines = split_lines(doc_source);
    let cwr = cursor_word_exec(&lines, position);
    let w = match cwr {
        Some(w) => w,
        None => return None,
    };
    match registry.get(w.as_str()) {
        Some(def) => {
            let name = def.name();
            let params = def.params();
            Some(hover_markdown(name, params))
        },
        None => None,
    }
}

} // verus!
