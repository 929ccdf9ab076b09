//! Tokenizer: turns `.mlmd` source text into a flat list of tokens.
//!
//! The source is scanned byte by byte.  The model of the scan is the spec
//! function [`lex`], a small-step description of one scanning step per
//! call; [`tokenize`] is proved to compute exactly `spec_tokenize`, and to
//! keep the laws stated in its contract.
use vstd::prelude::*;
use vstd::string::StringSliceAdditionalSpecFns;
use vstd::utf8::*;

use crate::nodes::SourceLoc;
use crate::text::{byte_is_alpha, byte_is_digit, byte_is_word, is_alpha_byte, is_digit_byte, is_word_byte, push_char, string_of};

verus! {

// ---------------------------------------------------------------------------
// Token types
// ---------------------------------------------------------------------------

#[derive(Debug, Clone, Copy, PartialEq, Eq, Structural)]
pub enum TokenType {
    Arrow,
    LBracket,
    RBracket,
    LParen,
    RParen,
    Comma,
    Equals,
    Gt,
    GroupOpen,
    GroupClose,
    Ident,
    Number,
    String,
    Bool,
    Newline,
    Comment,
    Eof,
}

/// A token: its type, its text and where it starts.
#[derive(Debug, Clone, PartialEq)]
pub struct Token {
    pub token_type: TokenType,
    pub value: String,
    pub loc: SourceLoc,
}

/// Mathematical model of a [`Token`].
pub struct TokV {
    pub ty: TokenType,
    pub value: Seq<char>,
    pub loc: SourceLoc,
}

impl Token {
    pub open spec fn tview(self) -> TokV {
        TokV { ty: self.token_type, value: self.value@, loc: self.loc }
    }

    pub fn new(token_type: TokenType, value: &str, loc: SourceLoc) -> (r: Self)
        ensures
            r.token_type == token_type,
            r.value@ == value@,
            r.loc == loc,
    {
        Token { token_type, value: crate::text::string_of(value), loc }
    }
}

pub open spec fn toks_view(ts: Seq<Token>) -> Seq<TokV> {
    Seq::new(ts.len(), |i: int| ts[i].tview())
}

pub proof fn lemma_toks_view_push(ts: Seq<Token>, t: Token)
    ensures
        toks_view(ts.push(t)) == toks_view(ts).push(t.tview()),
{
    assert(toks_view(ts.push(t)) =~= toks_view(ts).push(t.tview()));
}

// ---------------------------------------------------------------------------
// Model of the scan
// ---------------------------------------------------------------------------

/// The characters of the bytes `s[a..b]`, each byte read as the character
/// with that code.
pub open spec fn chars_of(s: Seq<u8>, a: int, b: int) -> Seq<char> {
    Seq::new((b - a) as nat, |i: int| s[a + i] as char)
}

pub open spec fn mk_loc(line: int, col: int, offset: int) -> SourceLoc {
    SourceLoc { line: line as usize, col: col as usize, offset: offset as usize }
}

pub open spec fn tok(ty: TokenType, value: Seq<char>, line: int, col: int, offset: int) -> TokV {
    TokV { ty, value, loc: mk_loc(line, col, offset) }
}

/// Space or tab.
pub open spec fn is_blank(b: u8) -> bool {
    b == 32 || b == 9
}

/// Newline, carriage return, space or tab.
pub open spec fn is_ws_nl(b: u8) -> bool {
    b == 10 || b == 13 || b == 32 || b == 9
}

/// `char::is_whitespace`: the characters with the Unicode `White_Space`
/// property.
pub open spec fn is_ws_char(c: char) -> bool {
    ||| ('\t' <= c && c <= '\r')
    ||| c == ' '
    ||| c == '\u{85}'
    ||| c == '\u{A0}'
    ||| c == '\u{1680}'
    ||| ('\u{2000}' <= c && c <= '\u{200A}')
    ||| c == '\u{2028}'
    ||| c == '\u{2029}'
    ||| c == '\u{202F}'
    ||| c == '\u{205F}'
    ||| c == '\u{3000}'
}

pub open spec fn trim_start(x: Seq<char>) -> Seq<char>
    decreases x.len(),
{
    if x.len() > 0 && is_ws_char(x[0]) {
        trim_start(x.drop_first())
    } else {
        x
    }
}

pub open spec fn trim_end(x: Seq<char>) -> Seq<char>
    decreases x.len(),
{
    if x.len() > 0 && is_ws_char(x.last()) {
        trim_end(x.drop_last())
    } else {
        x
    }
}

/// `str::trim`.
pub open spec fn trim(x: Seq<char>) -> Seq<char> {
    trim_end(trim_start(x))
}

/// End of a run of newlines and blanks starting at `p`, with the line and
/// column reached there.
pub open spec fn nl_run(s: Seq<u8>, p: int, line: int, col: int) -> (int, int, int)
    decreases s.len() - p,
{
    if 0 <= p < s.len() && is_ws_nl(s[p]) {
        if s[p] == 10 {
            nl_run(s, p + 1, line + 1, 1)
        } else {
            nl_run(s, p + 1, line, col + 1)
        }
    } else {
        (p, line, col)
    }
}

/// First index at or after `p` holding a newline or carriage return (or the
/// end of the text).
pub open spec fn comment_end(s: Seq<u8>, p: int) -> int
    decreases s.len() - p,
{
    if 0 <= p < s.len() && s[p] != 10 && s[p] != 13 {
        comment_end(s, p + 1)
    } else {
        p
    }
}

/// The character that an escape `\b` stands for.
pub open spec fn unescape(b: u8) -> char {
    if b == 110 {
        '\n'
    } else if b == 116 {
        '\t'
    } else if b == 114 {
        '\r'
    } else {
        b as char
    }
}

/// Scan of a string literal body starting at `p` (after the opening quote):
/// the index after the literal and its value.
pub open spec fn lex_string(s: Seq<u8>, p: int, acc: Seq<char>) -> (int, Seq<char>)
    decreases s.len() - p,
{
    if p < 0 || p >= s.len() {
        (p, acc)
    } else if s[p] == 34 {
        (p + 1, acc)
    } else if s[p] == 92 {
        if p + 1 < s.len() {
            lex_string(s, p + 2, acc.push(unescape(s[p + 1])))
        } else {
            (p + 1, acc)
        }
    } else {
        lex_string(s, p + 1, acc.push(s[p] as char))
    }
}

pub open spec fn digits_end(s: Seq<u8>, p: int) -> int
    decreases s.len() - p,
{
    if 0 <= p < s.len() && is_digit_byte(s[p]) {
        digits_end(s, p + 1)
    } else {
        p
    }
}

pub open spec fn word_end(s: Seq<u8>, p: int) -> int
    decreases s.len() - p,
{
    if 0 <= p < s.len() && is_word_byte(s[p]) {
        word_end(s, p + 1)
    } else {
        p
    }
}

/// End of a numeral whose digits start at `p`: digits, then an optional `.`
/// followed by at least one digit and more digits.
pub open spec fn number_end(s: Seq<u8>, p: int) -> int {
    let e = digits_end(s, p);
    if e + 1 < s.len() && s[e] == 46 && is_digit_byte(s[e + 1]) {
        digits_end(s, e + 1)
    } else {
        e
    }
}

/// Whether a `-` directly followed by a digit starts a negative number: the
/// last token other than newlines and comments is `=`, `(` or `,`, or there
/// is none.
pub open spec fn allows_unary(ts: Seq<TokV>) -> bool
    decreases ts.len(),
{
    if ts.len() == 0 {
        true
    } else if ts.last().ty == TokenType::Newline || ts.last().ty == TokenType::Comment {
        allows_unary(ts.drop_last())
    } else {
        ts.last().ty == TokenType::Equals || ts.last().ty == TokenType::LParen || ts.last().ty
            == TokenType::Comma
    }
}

/// The token type of a one-byte token, if `b` is one.
pub open spec fn single_type(b: u8) -> Option<TokenType> {
    if b == 91 {
        Some(TokenType::LBracket)
    } else if b == 93 {
        Some(TokenType::RBracket)
    } else if b == 40 {
        Some(TokenType::LParen)
    } else if b == 41 {
        Some(TokenType::RParen)
    } else if b == 44 {
        Some(TokenType::Comma)
    } else if b == 61 {
        Some(TokenType::Equals)
    } else if b == 62 {
        Some(TokenType::Gt)
    } else {
        None
    }
}

/// The token type of a two-byte token starting at `p`, if there is one.
pub open spec fn double_type(s: Seq<u8>, p: int) -> Option<TokenType> {
    if p + 1 < s.len() {
        if s[p] == 45 && s[p + 1] == 62 {
            Some(TokenType::Arrow)
        } else if s[p] == 91 && s[p + 1] == 91 {
            Some(TokenType::GroupOpen)
        } else if s[p] == 93 && s[p + 1] == 93 {
            Some(TokenType::GroupClose)
        } else {
            None
        }
    } else {
        None
    }
}

pub open spec fn true_chars() -> Seq<char> {
    seq!['t', 'r', 'u', 'e']
}

pub open spec fn false_chars() -> Seq<char> {
    seq!['f', 'a', 'l', 's', 'e']
}

#[verifier::opaque]
/// One scanning step from byte `p` at (`line`, `col`), with `last_nl` telling
/// whether the last thing scanned was a newline run that emitted a token,
/// and `ts` the tokens so far; the result is the complete token list.
pub open spec fn lex(s: Seq<u8>, p: int, line: int, col: int, last_nl: bool, ts: Seq<TokV>) -> Seq<TokV>
    decreases s.len() - p,
{
    if p < 0 || p >= s.len() {
        ts.push(tok(TokenType::Eof, Seq::empty(), line, col, p))
    } else {
        let ch = s[p];
        if is_blank(ch) {
            lex(s, p + 1, line, col + 1, last_nl, ts)
        } else if ch == 10 || ch == 13 {
            let (e, l2, c2) = nl_run(s, p, line, col);
            let ts2 = if !last_nl {
                ts.push(tok(TokenType::Newline, seq!['\n'], line, col, p))
            } else {
                ts
            };
            if p < e <= s.len() {
                lex(s, e, l2, c2, true, ts2)
            } else {
                ts2
            }
        } else if ch == 35 {
            let e = comment_end(s, p + 1);
            let text = trim(decode_utf8(s.subrange(p + 1, e)));
            if p < e <= s.len() {
                lex(s, e, line, col + (e - p), false, ts.push(tok(TokenType::Comment, text, line, col, p)))
            } else {
                ts
            }
        } else if double_type(s, p) is Some {
            lex(
                s,
                p + 2,
                line,
                col + 2,
                false,
                ts.push(tok(double_type(s, p)->0, chars_of(s, p, p + 2), line, col, p)),
            )
        } else if single_type(ch) is Some {
            lex(
                s,
                p + 1,
                line,
                col + 1,
                false,
                ts.push(tok(single_type(ch)->0, chars_of(s, p, p + 1), line, col, p)),
            )
        } else if ch == 34 {
            let (e, v) = lex_string(s, p + 1, Seq::empty());
            if p < e <= s.len() {
                lex(s, e, line, col + (e - p), false, ts.push(tok(TokenType::String, v, line, col, p)))
            } else {
                ts
            }
        } else if (ch == 45 && p + 1 < s.len() && is_digit_byte(s[p + 1]) && allows_unary(ts))
            || is_digit_byte(ch) {
            let start = if ch == 45 {
                p + 1
            } else {
                p
            };
            let e = number_end(s, start);
            if p < e <= s.len() {
                lex(
                    s,
                    e,
                    line,
                    col + (e - p),
                    false,
                    ts.push(tok(TokenType::Number, chars_of(s, p, e), line, col, p)),
                )
            } else {
                ts
            }
        } else if is_alpha_byte(ch) || ch == 95 {
            let e = word_end(s, p);
            let v = chars_of(s, p, e);
            let ty = if v == true_chars() || v == false_chars() {
                TokenType::Bool
            } else {
                TokenType::Ident
            };
            if p < e <= s.len() {
                lex(s, e, line, col + (e - p), false, ts.push(tok(ty, v, line, col, p)))
            } else {
                ts
            }
        } else {
            lex(s, p + 1, line, col + 1, false, ts)
        }
    }
}

/// The tokens of the bytes `s`.
pub open spec fn spec_tokenize(s: Seq<u8>) -> Seq<TokV> {
    lex(s, 0, 1, 1, false, Seq::empty())
}

// ---------------------------------------------------------------------------
// Laws kept by the scan
// ---------------------------------------------------------------------------

/// Token types whose text is the source text at their offset.
pub open spec fn is_verbatim(ty: TokenType) -> bool {
    ty != TokenType::Comment && ty != TokenType::String && ty != TokenType::Newline && ty
        != TokenType::Eof
}

#[verifier::opaque]
/// What each token tells of the source at its offset: a verbatim token's
/// text is the source there; a newline token stands on a `\n` or `\r`; other
/// tokens start inside the source.
pub open spec fn token_fits(s: Seq<u8>, t: TokV) -> bool {
    &&& (t.loc.offset as int) < s.len()
    &&& is_verbatim(t.ty) ==> t.value.len() > 0 && t.loc.offset + t.value.len() <= s.len()
        && t.value == chars_of(s, t.loc.offset as int, t.loc.offset + t.value.len())
        && forall|k: int| t.loc.offset <= k < t.loc.offset + t.value.len() ==> #[trigger] s[k] < 128
    &&& t.ty == TokenType::Newline ==> t.value == seq!['\n'] && (s[t.loc.offset as int] == 10
        || s[t.loc.offset as int] == 13)
    &&& t.ty == TokenType::Comment ==> s[t.loc.offset as int] == 35
    &&& t.ty == TokenType::String ==> s[t.loc.offset as int] == 34
}

/// The text of a verbatim token is the source's bytes at its offset: they
/// are ASCII, and the text's UTF-8 encoding is exactly those bytes.
pub proof fn law_verbatim_bytes(s: Seq<u8>, t: TokV)
    requires
        token_fits(s, t),
        is_verbatim(t.ty),
    ensures
        encode_utf8(t.value) == s.subrange(t.loc.offset as int, t.loc.offset + t.value.len()),
        forall|k: int| t.loc.offset <= k < t.loc.offset + t.value.len() ==> #[trigger] s[k] < 128,
{
    reveal(token_fits);
    let a = t.loc.offset as int;
    let v = t.value;
    assert(is_ascii_chars(v)) by {
        assert forall|i: int| 0 <= i < v.len() implies '\0' <= #[trigger] v[i] <= '\u{7f}' by {
            assert(v[i] == s[a + i] as char);
            assert(s[a + i] < 128);
        }
    }
    is_ascii_chars_encode_utf8(v);
    assert forall|i: int| 0 <= i < v.len() implies encode_utf8(v)[i] == s[a + i] by {
        assert(v[i] == s[a + i] as char);
        assert(s[a + i] < 128);
        assert(v[i] as u8 == encode_utf8(v)[i]);
    }
    assert(encode_utf8(v) =~= s.subrange(a, a + v.len()));
}

/// Two newline tokens are adjacent only where some byte between them is
/// neither a blank nor a line break.
pub open spec fn newlines_collapsed(s: Seq<u8>, ts: Seq<TokV>) -> bool {
    forall|i: int, j: int|
        #![trigger ts[i], ts[j]]
        0 <= i && j == i + 1 && j < ts.len() && ts[i].ty == TokenType::Newline && ts[j].ty
            == TokenType::Newline ==> exists|k: int|
            ts[i].loc.offset < k < ts[j].loc.offset && !is_ws_nl(#[trigger] s[k])
}

pub open spec fn offsets_increasing(ts: Seq<TokV>) -> bool {
    forall|i: int, j: int| 0 <= i < j < ts.len() ==> ts[i].loc.offset < ts[j].loc.offset
}

// ---------------------------------------------------------------------------
// Lemmas on the helper scans
// ---------------------------------------------------------------------------

proof fn lemma_nl_run(s: Seq<u8>, p: int, line: int, col: int)
    requires
        0 <= p <= s.len(),
        line >= 1,
        col >= 1,
    ensures
        p <= nl_run(s, p, line, col).0 <= s.len(),
        p < s.len() && is_ws_nl(s[p]) ==> p < nl_run(s, p, line, col).0,
        forall|k: int| p <= k < nl_run(s, p, line, col).0 ==> is_ws_nl(#[trigger] s[k]),
        line <= nl_run(s, p, line, col).1 <= line + (nl_run(s, p, line, col).0 - p),
        1 <= nl_run(s, p, line, col).2 <= col + (nl_run(s, p, line, col).0 - p),
    decreases s.len() - p,
{
    if 0 <= p < s.len() && is_ws_nl(s[p]) {
        if s[p] == 10 {
            lemma_nl_run(s, p + 1, line + 1, 1);
        } else {
            lemma_nl_run(s, p + 1, line, col + 1);
        }
    }
}

proof fn lemma_comment_end(s: Seq<u8>, p: int)
    requires
        0 <= p <= s.len(),
    ensures
        p <= comment_end(s, p) <= s.len(),
    decreases s.len() - p,
{
    if 0 <= p < s.len() && s[p] != 10 && s[p] != 13 {
        lemma_comment_end(s, p + 1);
    }
}

proof fn lemma_lex_string(s: Seq<u8>, p: int, acc: Seq<char>)
    requires
        0 <= p <= s.len(),
    ensures
        p <= lex_string(s, p, acc).0 <= s.len(),
        p < s.len() ==> p < lex_string(s, p, acc).0,
    decreases s.len() - p,
{
    if p < s.len() && s[p] != 34 {
        if s[p] == 92 {
            if p + 1 < s.len() {
                lemma_lex_string(s, p + 2, acc.push(unescape(s[p + 1])));
            }
        } else {
            lemma_lex_string(s, p + 1, acc.push(s[p] as char));
        }
    }
}

proof fn lemma_digits_end(s: Seq<u8>, p: int)
    requires
        0 <= p <= s.len(),
    ensures
        p <= digits_end(s, p) <= s.len(),
        p < s.len() && is_digit_byte(s[p]) ==> p < digits_end(s, p),
        forall|k: int| p <= k < digits_end(s, p) ==> is_digit_byte(#[trigger] s[k]),
    decreases s.len() - p,
{
    if 0 <= p < s.len() && is_digit_byte(s[p]) {
        lemma_digits_end(s, p + 1);
    }
}

proof fn lemma_word_end(s: Seq<u8>, p: int)
    requires
        0 <= p <= s.len(),
    ensures
        p <= word_end(s, p) <= s.len(),
        p < s.len() && is_word_byte(s[p]) ==> p < word_end(s, p),
        forall|k: int| p <= k < word_end(s, p) ==> is_word_byte(#[trigger] s[k]),
    decreases s.len() - p,
{
    if 0 <= p < s.len() && is_word_byte(s[p]) {
        lemma_word_end(s, p + 1);
    }
}

proof fn lemma_number_ascii(s: Seq<u8>, p: int, start: int)
    requires
        0 <= p < s.len(),
        start == p || (start == p + 1 && s[p] == 45),
        start <= s.len(),
        is_digit_byte(s[p]) || s[p] == 45,
    ensures
        forall|k: int| p <= k < number_end(s, start) ==> #[trigger] s[k] < 128,
{
    lemma_digits_end(s, start);
    let e = digits_end(s, start);
    if e + 1 < s.len() && s[e] == 46 && is_digit_byte(s[e + 1]) {
        lemma_digits_end(s, e + 1);
    }
}

proof fn lemma_word_ascii(s: Seq<u8>, p: int)
    requires
        0 <= p <= s.len(),
    ensures
        forall|k: int| p <= k < word_end(s, p) ==> #[trigger] s[k] < 128,
{
    lemma_word_end(s, p);
    assert forall|k: int| p <= k < word_end(s, p) implies #[trigger] s[k] < 128 by {
        assert(is_word_byte(s[k]));
    }
}

proof fn lemma_trim_start(x: Seq<char>, a: int)
    requires
        0 <= a <= x.len(),
        forall|k: int| 0 <= k < a ==> is_ws_char(#[trigger] x[k]),
        a == x.len() || !is_ws_char(x[a]),
    ensures
        trim_start(x) == x.subrange(a, x.len() as int),
    decreases a,
{
    if a > 0 {
        let y = x.drop_first();
        assert forall|k: int| 0 <= k < a - 1 implies is_ws_char(#[trigger] y[k]) by {
            assert(y[k] == x[k + 1]);
        }
        if a - 1 < y.len() {
            assert(y[a - 1] == x[a]);
        }
        lemma_trim_start(y, a - 1);
        assert(y.subrange(a - 1, y.len() as int) =~= x.subrange(a, x.len() as int));
    } else {
        assert(x.subrange(0, x.len() as int) =~= x);
    }
}

proof fn lemma_trim_end(x: Seq<char>, b: int)
    requires
        0 <= b <= x.len(),
        forall|k: int| b <= k < x.len() ==> is_ws_char(#[trigger] x[k]),
        b == 0 || !is_ws_char(x[b - 1]),
    ensures
        trim_end(x) == x.subrange(0, b),
    decreases x.len() - b,
{
    if b < x.len() {
        let y = x.drop_last();
        assert forall|k: int| b <= k < y.len() implies is_ws_char(#[trigger] y[k]) by {
            assert(y[k] == x[k]);
        }
        if b > 0 {
            assert(y[b - 1] == x[b - 1]);
        }
        lemma_trim_end(y, b);
        assert(y.subrange(0, b) =~= x.subrange(0, b));
    } else {
        assert(x.subrange(0, b) =~= x);
    }
}

/// In valid UTF-8, an ASCII byte starts a character and the byte after it
/// starts the next.
proof fn lemma_ascii_boundary(b: Seq<u8>, i: int)
    requires
        valid_utf8(b),
        0 <= i < b.len(),
        b[i] < 128,
    ensures
        is_char_boundary(b, i),
        is_char_boundary(b, i + 1),
    decreases b.len(),
{
    reveal_with_fuel(is_char_boundary, 2);
    let l = length_of_first_scalar(b);
    let t = pop_first_scalar(b);
    assert(valid_first_scalar(b) && valid_utf8(t));
    assert(1 <= l <= 4 && l <= b.len());
    assert(t.len() == b.len() - l);
    if i == 0 {
        assert(is_leading_byte_width_1(b[0]));
        assert(l == 1);
    } else {
        assert(i >= l) by {
            if i < l {
                assert(is_continuation_byte(b[i]));
            }
        }
        assert(t[i - l] == b[i]);
        lemma_ascii_boundary(t, i - l);
    }
}

// ---------------------------------------------------------------------------
// One step of the model per scanning branch
// ---------------------------------------------------------------------------

proof fn lemma_lex_end(s: Seq<u8>, p: int, line: int, col: int, nl: bool, ts: Seq<TokV>)
    requires
        p == s.len(),
    ensures
        lex(s, p, line, col, nl, ts) == ts.push(tok(TokenType::Eof, Seq::empty(), line, col, p)),
{
    reveal(lex);
}

proof fn lemma_lex_blank(s: Seq<u8>, p: int, line: int, col: int, nl: bool, ts: Seq<TokV>)
    requires
        0 <= p < s.len(),
        is_blank(s[p]),
    ensures
        lex(s, p, line, col, nl, ts) == lex(s, p + 1, line, col + 1, nl, ts),
{
    reveal(lex);
}

proof fn lemma_lex_newline(s: Seq<u8>, p: int, line: int, col: int, nl: bool, ts: Seq<TokV>)
    requires
        0 <= p < s.len(),
        s[p] == 10 || s[p] == 13,
        p < nl_run(s, p, line, col).0 <= s.len(),
    ensures
        lex(s, p, line, col, nl, ts) == lex(
            s,
            nl_run(s, p, line, col).0,
            nl_run(s, p, line, col).1,
            nl_run(s, p, line, col).2,
            true,
            if !nl {
                ts.push(tok(TokenType::Newline, seq!['\n'], line, col, p))
            } else {
                ts
            },
        ),
{
    reveal(lex);
}

proof fn lemma_lex_comment(s: Seq<u8>, p: int, line: int, col: int, nl: bool, ts: Seq<TokV>)
    requires
        0 <= p < s.len(),
        s[p] == 35,
        p < comment_end(s, p + 1) <= s.len(),
    ensures
        lex(s, p, line, col, nl, ts) == lex(
            s,
            comment_end(s, p + 1),
            line,
            col + (comment_end(s, p + 1) - p),
            false,
            ts.push(
                tok(TokenType::Comment, trim(decode_utf8(s.subrange(p + 1, comment_end(s, p + 1)))), line, col, p),
            ),
        ),
{
    reveal(lex);
}

proof fn lemma_lex_double(s: Seq<u8>, p: int, line: int, col: int, nl: bool, ts: Seq<TokV>)
    requires
        0 <= p < s.len(),
        s[p] != 10 && s[p] != 13 && s[p] != 35 && !is_blank(s[p]),
        double_type(s, p) is Some,
    ensures
        lex(s, p, line, col, nl, ts) == lex(
            s,
            p + 2,
            line,
            col + 2,
            false,
            ts.push(tok(double_type(s, p)->0, chars_of(s, p, p + 2), line, col, p)),
        ),
{
    reveal(lex);
}

proof fn lemma_lex_single(s: Seq<u8>, p: int, line: int, col: int, nl: bool, ts: Seq<TokV>)
    requires
        0 <= p < s.len(),
        s[p] != 10 && s[p] != 13 && s[p] != 35 && !is_blank(s[p]),
        double_type(s, p) is None,
        single_type(s[p]) is Some,
    ensures
        lex(s, p, line, col, nl, ts) == lex(
            s,
            p + 1,
            line,
            col + 1,
            false,
            ts.push(tok(single_type(s[p])->0, chars_of(s, p, p + 1), line, col, p)),
        ),
{
    reveal(lex);
}

proof fn lemma_lex_string_step(s: Seq<u8>, p: int, line: int, col: int, nl: bool, ts: Seq<TokV>)
    requires
        0 <= p < s.len(),
        s[p] == 34,
        double_type(s, p) is None,
        p < lex_string(s, p + 1, Seq::empty()).0 <= s.len(),
    ensures
        lex(s, p, line, col, nl, ts) == lex(
            s,
            lex_string(s, p + 1, Seq::empty()).0,
            line,
            col + (lex_string(s, p + 1, Seq::empty()).0 - p),
            false,
            ts.push(tok(TokenType::String, lex_string(s, p + 1, Seq::empty()).1, line, col, p)),
        ),
{
    reveal(lex);
}

proof fn lemma_lex_number(s: Seq<u8>, p: int, line: int, col: int, nl: bool, ts: Seq<TokV>, start: int)
    requires
        0 <= p < s.len(),
        s[p] != 10 && s[p] != 13 && s[p] != 35 && !is_blank(s[p]) && s[p] != 34,
        double_type(s, p) is None,
        single_type(s[p]) is None,
        (s[p] == 45 && p + 1 < s.len() && is_digit_byte(s[p + 1]) && allows_unary(ts)) || is_digit_byte(s[p]),
        start == if s[p] == 45 { p + 1 } else { p },
        p < number_end(s, start) <= s.len(),
    ensures
        lex(s, p, line, col, nl, ts) == lex(
            s,
            number_end(s, start),
            line,
            col + (number_end(s, start) - p),
            false,
            ts.push(tok(TokenType::Number, chars_of(s, p, number_end(s, start)), line, col, p)),
        ),
{
    reveal(lex);
}

proof fn lemma_lex_word(s: Seq<u8>, p: int, line: int, col: int, nl: bool, ts: Seq<TokV>, ty: TokenType)
    requires
        0 <= p < s.len(),
        s[p] != 10 && s[p] != 13 && s[p] != 35 && !is_blank(s[p]) && s[p] != 34,
        double_type(s, p) is None,
        single_type(s[p]) is None,
        !((s[p] == 45 && p + 1 < s.len() && is_digit_byte(s[p + 1]) && allows_unary(ts)) || is_digit_byte(s[p])),
        is_alpha_byte(s[p]) || s[p] == 95,
        p < word_end(s, p) <= s.len(),
        ty == if chars_of(s, p, word_end(s, p)) == true_chars() || chars_of(s, p, word_end(s, p)) == false_chars() {
            TokenType::Bool
        } else {
            TokenType::Ident
        },
    ensures
        lex(s, p, line, col, nl, ts) == lex(
            s,
            word_end(s, p),
            line,
            col + (word_end(s, p) - p),
            false,
            ts.push(tok(ty, chars_of(s, p, word_end(s, p)), line, col, p)),
        ),
{
    reveal(lex);
}

proof fn lemma_lex_unknown(s: Seq<u8>, p: int, line: int, col: int, nl: bool, ts: Seq<TokV>)
    requires
        0 <= p < s.len(),
        s[p] != 10 && s[p] != 13 && s[p] != 35 && !is_blank(s[p]) && s[p] != 34,
        double_type(s, p) is None,
        single_type(s[p]) is None,
        !((s[p] == 45 && p + 1 < s.len() && is_digit_byte(s[p + 1]) && allows_unary(ts)) || is_digit_byte(s[p])),
        !(is_alpha_byte(s[p]) || s[p] == 95),
    ensures
        lex(s, p, line, col, nl, ts) == lex(s, p + 1, line, col + 1, false, ts),
{
    reveal(lex);
}

// ---------------------------------------------------------------------------
// Executable scan

// ---------------------------------------------------------------------------

/// `char::is_whitespace`.
fn char_is_ws(c: char) -> (r: bool)
    ensures
        r == is_ws_char(c),
{
    ('\t' <= c && c <= '\r') || c == ' ' || c == '\u{85}' || c == '\u{A0}' || c == '\u{1680}' || ('\u{2000}'
        <= c && c <= '\u{200A}') || c == '\u{2028}' || c == '\u{2029}' || c == '\u{202F}' || c == '\u{205F}'
        || c == '\u{3000}'
}

/// Whether the last token other than newlines and comments permits a unary
/// minus.
fn allows_unary_minus(tokens: &Vec<Token>) -> (r: bool)
    ensures
        r == allows_unary(toks_view(tokens@)),
{
    let mut i: usize = tokens.len();
    assert(toks_view(tokens@).take(tokens@.len() as int) =~= toks_view(tokens@));
    while i > 0
        invariant
            i <= tokens@.len(),
            allows_unary(toks_view(tokens@).take(i as int)) == allows_unary(toks_view(tokens@)),
        decreases i,
    {
        let ghost tv = toks_view(tokens@).take(i as int);
        assert(tv.drop_last() =~= toks_view(tokens@).take(i - 1));
        match tokens[i - 1].token_type {
            TokenType::Newline | TokenType::Comment => {
                i = i - 1;
            },
            TokenType::Equals | TokenType::LParen | TokenType::Comma => {
                return true;
            },
            _ => {
                return false;
            },
        }
    }
    assert(toks_view(tokens@).take(0) =~= Seq::<TokV>::empty());
    true
}

fn push_token(tokens: &mut Vec<Token>, t: Token)
    ensures
        final(tokens)@ == old(tokens)@.push(t),
        toks_view(final(tokens)@) == toks_view(old(tokens)@).push(t.tview()),
{
    proof {
        lemma_toks_view_push(tokens@, t);
    }
    tokens.push(t);
}

/// The characters of `src[a..b]` as a string.
fn chars_string(src: &[u8], a: usize, b: usize) -> (r: String)
    requires
        a <= b <= src@.len(),
    ensures
        r@ == chars_of(src@, a as int, b as int),
{
    let mut out = String::new();
    let mut i: usize = a;
    while i < b
        invariant
            a <= i <= b,
            b <= src@.len(),
            out@ == chars_of(src@, a as int, i as int),
        decreases b - i,
    {
        push_char(&mut out, src[i] as char);
        assert(chars_of(src@, a as int, i + 1) =~= chars_of(src@, a as int, i as int).push(src@[i as int] as char));
        i = i + 1;
    }
    out
}

fn byte_is_ws_nl(b: u8) -> (r: bool)
    ensures
        r == is_ws_nl(b),
{
    b == 10 || b == 13 || b == 32 || b == 9
}

/// Scans a run of newlines and blanks from `pos`.
fn scan_newlines(src: &[u8], pos: usize, line: usize, col: usize) -> (r: (usize, usize, usize))
    requires
        pos < src@.len() < usize::MAX,
        is_ws_nl(src@[pos as int]),
        1 <= line <= pos + 1,
        1 <= col <= pos + 1,
    ensures
        (r.0 as int, r.1 as int, r.2 as int) == nl_run(src@, pos as int, line as int, col as int),
        pos < r.0 <= src@.len(),
        1 <= r.1 <= r.0 + 1,
        1 <= r.2 <= r.0 + 1,
        forall|k: int| pos <= k < r.0 ==> is_ws_nl(#[trigger] src@[k]),
{
    let ghost s = src@;
    proof {
        lemma_nl_run(s, pos as int, line as int, col as int);
    }
    let ghost target = nl_run(s, pos as int, line as int, col as int);
    let mut p = pos;
    let mut l = line;
    let mut c = col;
    while p < src.len() && byte_is_ws_nl(src[p])
        invariant
            s == src@,
            pos <= p <= s.len(),
            s.len() < usize::MAX,
            1 <= l <= p + 1,
            1 <= c <= p + 1,
            nl_run(s, p as int, l as int, c as int) == target,
        decreases s.len() - p,
    {
        if src[p] == 10 {
            l = l + 1;
            c = 1;
        } else {
            c = c + 1;
        }
        p = p + 1;
    }
    (p, l, c)
}

/// Scans a comment whose `#` stands at `pos`: the end of the comment and its
/// text, decoded as characters and trimmed.
fn scan_comment(source: &str, src: &[u8], pos: usize) -> (r: (usize, String))
    requires
        src@ == source.spec_bytes(),
        pos < src@.len(),
        src@[pos as int] == 35,
    ensures
        r.0 as int == comment_end(src@, pos + 1),
        pos < r.0 <= src@.len(),
        r.1@ == trim(decode_utf8(src@.subrange(pos + 1, r.0 as int))),
{
    let ghost s = src@;
    let len = src.len();
    let e0 = pos + 1;
    let mut e = e0;
    proof {
        lemma_comment_end(s, e0 as int);
    }
    while e < len && src[e] != 10 && src[e] != 13
        invariant
            e0 <= e <= len,
            len == s.len(),
            s == src@,
            comment_end(s, e as int) == comment_end(s, e0 as int),
        decreases len - e,
    {
        e = e + 1;
    }
    proof {
        encode_utf8_valid_utf8(source@);
        lemma_ascii_boundary(s, pos as int);
        is_char_boundary_start_end_of_seq(s);
        if e < len {
            lemma_ascii_boundary(s, e as int);
        }
    }
    let (_, rest) = source.split_at(pos + 1);
    let ghost rb = rest.spec_bytes();
    proof {
        valid_utf8_split(s, pos + 1);
        assert(rb == s.subrange(pos + 1, len as int));
        is_char_boundary_start_end_of_seq(rb);
        if e < len {
            assert(rb[e - pos - 1] == s[e as int]);
            lemma_ascii_boundary(rb, e - pos - 1);
        } else {
            assert(e - pos - 1 == rb.len());
        }
    }
    let (body, _) = rest.split_at(e - pos - 1);
    proof {
        assert(body.spec_bytes() =~= s.subrange(pos + 1, e as int));
        encode_utf8_decode_utf8(body@);
        assert(decode_utf8(body.spec_bytes()) == body@);
    }
    let ghost x = body@;
    let n = body.unicode_len();
    let mut a: usize = 0;
    while a < n && char_is_ws(body.get_char(a))
        invariant
            a <= n,
            n == x.len(),
            x == body@,
            forall|k: int| 0 <= k < a ==> is_ws_char(#[trigger] x[k]),
        decreases n - a,
    {
        a = a + 1;
    }
    let mut b: usize = n;
    while b > a && char_is_ws(body.get_char(b - 1))
        invariant
            a <= b <= n,
            n == x.len(),
            x == body@,
            forall|k: int| b <= k < n ==> is_ws_char(#[trigger] x[k]),
        decreases b,
    {
        b = b - 1;
    }
    proof {
        lemma_trim_start(x, a as int);
        let y = x.subrange(a as int, n as int);
        assert forall|k: int| b - a <= k < y.len() implies is_ws_char(#[trigger] y[k]) by {
            assert(y[k] == x[k + a]);
        }
        if b > a {
            assert(y[b - a - 1] == x[b - 1]);
        }
        lemma_trim_end(y, b - a);
        assert(y.subrange(0, b - a) =~= x.subrange(a as int, b as int));
    }
    let text = body.substring_char(a, b);
    (e, string_of(text))
}

/// Scans a string literal whose opening quote stands at `pos`.
fn scan_string(src: &[u8], pos: usize) -> (r: (usize, String))
    requires
        pos < src@.len(),
    ensures
        (r.0 as int, r.1@) == lex_string(src@, pos + 1, Seq::empty()),
        pos < r.0 <= src@.len(),
{
    let ghost s = src@;
    let len = src.len();
    let mut p = pos + 1;
    let mut value = String::new();
    let ghost target = lex_string(s, pos + 1, Seq::empty());
    proof {
        lemma_lex_string(s, pos + 1, Seq::empty());
    }
    while p < len && src[p] != 34
        invariant
            pos < p <= len,
            len == s.len(),
            s == src@,
            lex_string(s, p as int, value@) == target,
        decreases len - p,
    {
        if src[p] == 92 {
            if p + 1 < len {
                let esc = src[p + 1];
                let c = if esc == 110 {
                    '\n'
                } else if esc == 116 {
                    '\t'
                } else if esc == 114 {
                    '\r'
                } else {
                    esc as char
                };
                push_char(&mut value, c);
                p = p + 2;
            } else {
                p = p + 1;
            }
        } else {
            push_char(&mut value, src[p] as char);
            p = p + 1;
        }
    }
    if p < len {
        p = p + 1;
    }
    (p, value)
}

fn scan_digits(src: &[u8], start: usize) -> (r: usize)
    requires
        start <= src@.len(),
    ensures
        r as int == digits_end(src@, start as int),
        start <= r <= src@.len(),
{
    let ghost s = src@;
    let mut e = start;
    proof {
        lemma_digits_end(s, start as int);
    }
    while e < src.len() && byte_is_digit(src[e])
        invariant
            start <= e <= s.len(),
            s == src@,
            digits_end(s, e as int) == digits_end(s, start as int),
        decreases s.len() - e,
    {
        e = e + 1;
    }
    e
}

/// Scans a numeral whose digits start at `start`.
fn scan_number(src: &[u8], start: usize) -> (r: usize)
    requires
        start < src@.len() < usize::MAX,
        is_digit_byte(src@[start as int]),
    ensures
        r as int == number_end(src@, start as int),
        start < r <= src@.len(),
{
    proof {
        lemma_digits_end(src@, start as int);
    }
    let e = scan_digits(src, start);
    if e + 1 < src.len() && src[e] == 46 && byte_is_digit(src[e + 1]) {
        scan_digits(src, e + 1)
    } else {
        e
    }
}

fn scan_word(src: &[u8], pos: usize) -> (r: usize)
    requires
        pos < src@.len(),
        is_word_byte(src@[pos as int]),
    ensures
        r as int == word_end(src@, pos as int),
        pos < r <= src@.len(),
{
    let ghost s = src@;
    let mut e = pos;
    proof {
        lemma_word_end(s, pos as int);
    }
    while e < src.len() && byte_is_word(src[e])
        invariant
            pos <= e <= s.len(),
            s == src@,
            word_end(s, e as int) == word_end(s, pos as int),
        decreases s.len() - e,
    {
        e = e + 1;
    }
    e
}

/// The invariant of the scan at byte `pos`, over the tokens so far.
pub open spec fn scan_inv(s: Seq<u8>, pos: int, last_nl: bool, tv: Seq<TokV>) -> bool {
    &&& forall|i: int| 0 <= i < tv.len() ==> (#[trigger] tv[i]).ty != TokenType::Eof
        && token_fits(s, tv[i]) && tv[i].loc.offset < pos
    &&& offsets_increasing(tv)
    &&& newlines_collapsed(s, tv)
    &&& last_nl ==> tv.len() > 0 && tv.last().ty == TokenType::Newline && forall|k: int|
        tv.last().loc.offset <= k < pos ==> is_ws_nl(#[trigger] s[k])
    &&& !last_nl && tv.len() > 0 && tv.last().ty == TokenType::Newline ==> exists|k: int|
        tv.last().loc.offset < k < pos && !is_ws_nl(#[trigger] s[k])
}

/// Scans the source string and produces a flat vector of tokens.
///
/// - Spaces and tabs are skipped (but not newlines).
/// - A run of newlines, carriage returns, spaces and tabs gives a single
///   NEWLINE token, located at its first byte; a second run right after it
///   gives none unless something else was scanned in between.
/// - Comments start with `#` and run to the end of the line; the stored value
///   is the comment text, trimmed.
/// - Two-character tokens (`->`, `[[`, `]]`) are checked before
///   single-character ones, so `[[` is always GROUP_OPEN.
/// - A `-` directly followed by a digit starts a negative number only when the
///   last token other than NEWLINE and COMMENT is EQUALS, LPAREN or COMMA, or
///   there is none.
/// - Strings support the escapes `\n`, `\t`, `\r`; any other escaped byte
///   stands for itself.
/// - The identifier scanner gives BOOL for `true` and `false`.
/// - Unknown bytes are skipped.
/// - An EOF token is always appended as the final token.
#[verifier::rlimit(50)]
pub fn tokenize(source: &str) -> (r: Vec<Token>)
    requires
        source.spec_bytes().len() < usize::MAX,
    ensures
        toks_view(r@) == spec_tokenize(source.spec_bytes()),
        r@.len() >= 1,
        r@.last().token_type == TokenType::Eof,
        r@.last().loc.offset == source.spec_bytes().len(),
        r@.last().value@.len() == 0,
        forall|i: int| 0 <= i < r@.len() - 1 ==> (#[trigger] toks_view(r@)[i]).ty != TokenType::Eof
            && token_fits(source.spec_bytes(), toks_view(r@)[i]),
        offsets_increasing(toks_view(r@)),
        newlines_collapsed(source.spec_bytes(), toks_view(r@)),
{
    let src = source.as_bytes();
    let len = src.len();
    let ghost s = src@;
    let mut tokens: Vec<Token> = Vec::new();
    let mut pos: usize = 0;
    let mut line: usize = 1;
    let mut col: usize = 1;
    let mut last_newline_emitted = false;
    assert(toks_view(tokens@) =~= Seq::<TokV>::empty());

    while pos < len
        invariant
            s == src@,
            s == source.spec_bytes(),
            len == s.len(),
            len < usize::MAX,
            pos <= len,
            1 <= line <= pos + 1,
            1 <= col <= pos + 1,
            lex(s, pos as int, line as int, col as int, last_newline_emitted, toks_view(tokens@))
                == spec_tokenize(s),
            scan_inv(s, pos as int, last_newline_emitted, toks_view(tokens@)),
        decreases len - pos,
    {
        let ch = src[pos];
        let ghost old_tokens = tokens@;
        let ghost p0 = pos as int;
        let ghost l0 = line as int;
        let ghost c0 = col as int;
        let ghost nl0 = last_newline_emitted;
        let ghost tv0 = toks_view(tokens@);
        if ch == 32 || ch == 9 {
            proof {
                lemma_lex_blank(s, p0, l0, c0, nl0, tv0);
            }
            pos = pos + 1;
            col = col + 1;
            continue;
        }
        if ch == 10 || ch == 13 {
            let loc = SourceLoc { line, col, offset: pos };
            let (e, l2, c2) = scan_newlines(src, pos, line, col);
            proof {
                lemma_lex_newline(s, p0, l0, c0, nl0, tv0);
            }
            if !last_newline_emitted {
                let mut v = String::new();
                push_char(&mut v, '\n');
                let t = Token { token_type: TokenType::Newline, value: v, loc };
                push_token(&mut tokens, t);
                last_newline_emitted = true;
                proof {
                    reveal(token_fits);
                    lemma_newline_pushed(s, tv0, toks_view(tokens@), p0, e as int);
                }
            }
            pos = e;
            line = l2;
            col = c2;
            continue;
        }
        last_newline_emitted = false;
        // Comment
        if ch == 35 {
            let loc = SourceLoc { line, col, offset: pos };
            let (e, text) = scan_comment(source, src, pos);
            let t = Token { token_type: TokenType::Comment, value: text, loc };
            proof {
                lemma_lex_comment(s, p0, l0, c0, nl0, tv0);
                reveal(token_fits);
            }
            push_token(&mut tokens, t);
            col = col + (e - pos);
            pos = e;
            proof {
                lemma_tokens_grow(s, tv0, toks_view(tokens@), p0, pos as int);
            }
            continue;
        }
        // Two-character tokens
        if pos + 1 < len {
            let c2 = src[pos + 1];
            let two: Option<TokenType> = if ch == 45 && c2 == 62 {
                Some(TokenType::Arrow)
            } else if ch == 91 && c2 == 91 {
                Some(TokenType::GroupOpen)
            } else if ch == 93 && c2 == 93 {
                Some(TokenType::GroupClose)
            } else {
                None
            };
            if let Some(ty) = two {
                let loc = SourceLoc { line, col, offset: pos };
                let v = chars_string(src, pos, pos + 2);
                let t = Token { token_type: ty, value: v, loc };
                proof {
                    lemma_lex_double(s, p0, l0, c0, nl0, tv0);
                    reveal(token_fits);
                }
                push_token(&mut tokens, t);
                pos = pos + 2;
                col = col + 2;
                proof {
                    lemma_tokens_grow(s, tv0, toks_view(tokens@), p0, pos as int);
                }
                continue;
            }
        }
        let loc = SourceLoc { line, col, offset: pos };
        // Single-character tokens
        let one: Option<TokenType> = if ch == 91 {
            Some(TokenType::LBracket)
        } else if ch == 93 {
            Some(TokenType::RBracket)
        } else if ch == 40 {
            Some(TokenType::LParen)
        } else if ch == 41 {
            Some(TokenType::RParen)
        } else if ch == 44 {
            Some(TokenType::Comma)
        } else if ch == 61 {
            Some(TokenType::Equals)
        } else if ch == 62 {
            Some(TokenType::Gt)
        } else {
            None
        };
        if let Some(ty) = one {
            let v = chars_string(src, pos, pos + 1);
            let t = Token { token_type: ty, value: v, loc };
            proof {
                lemma_lex_single(s, p0, l0, c0, nl0, tv0);
                reveal(token_fits);
            }
            push_token(&mut tokens, t);
            pos = pos + 1;
            col = col + 1;
            proof {
                lemma_tokens_grow(s, tv0, toks_view(tokens@), p0, pos as int);
            }
            continue;
        }
        // String
        if ch == 34 {
            let (e, value) = scan_string(src, pos);
            let t = Token { token_type: TokenType::String, value, loc };
            proof {
                lemma_lex_string_step(s, p0, l0, c0, nl0, tv0);
                reveal(token_fits);
            }
            push_token(&mut tokens, t);
            col = col + (e - pos);
            pos = e;
            proof {
                lemma_tokens_grow(s, tv0, toks_view(tokens@), p0, pos as int);
            }
            continue;
        }
        // Number (possibly negative)
        let is_neg = ch == 45 && pos + 1 < len && byte_is_digit(src[pos + 1]) && allows_unary_minus(
            &tokens,
        );
        if is_neg || byte_is_digit(ch) {
            let start = if is_neg {
                pos + 1
            } else {
                pos
            };
            let e = scan_number(src, start);
            let v = chars_string(src, pos, e);
            let t = Token { token_type: TokenType::Number, value: v, loc };
            proof {
                lemma_lex_number(s, p0, l0, c0, nl0, tv0, start as int);
                lemma_number_ascii(s, p0, start as int);
                reveal(token_fits);
            }
            push_token(&mut tokens, t);
            col = col + (e - pos);
            pos = e;
            proof {
                lemma_tokens_grow(s, tv0, toks_view(tokens@), p0, pos as int);
            }
            continue;
        }
        // Identifier / bool
        if byte_is_alpha(ch) || ch == 95 {
            let e = scan_word(src, pos);
            let is_bool = is_true_false(src, pos, e);
            let v = chars_string(src, pos, e);
            let ty = if is_bool {
                TokenType::Bool
            } else {
                TokenType::Ident
            };
            let t = Token { token_type: ty, value: v, loc };
            proof {
                lemma_lex_word(s, p0, l0, c0, nl0, tv0, ty);
                lemma_word_ascii(s, p0);
                reveal(token_fits);
            }
            push_token(&mut tokens, t);
            col = col + (e - pos);
            pos = e;
            proof {
                lemma_tokens_grow(s, tv0, toks_view(tokens@), p0, pos as int);
            }
            continue;
        }
        // Unknown byte: skipped
        proof {
            lemma_lex_unknown(s, p0, l0, c0, nl0, tv0);
        }
        pos = pos + 1;
        col = col + 1;
        proof {
            if tokens@.len() > 0 && tokens@.last().token_type == TokenType::Newline {
                assert(!is_ws_nl(s[p0]));
            }
        }
    }
    let eof_loc = SourceLoc { line, col, offset: pos };
    let t = Token { token_type: TokenType::Eof, value: String::new(), loc: eof_loc };
    let ghost before = tokens@;
    proof {
        lemma_lex_end(s, pos as int, line as int, col as int, last_newline_emitted, toks_view(tokens@));
    }
    push_token(&mut tokens, t);
    proof {
        lemma_eof_pushed(s, toks_view(before), toks_view(tokens@), pos as int);
    }
    tokens
}

proof fn lemma_eof_pushed(s: Seq<u8>, otv: Seq<TokV>, tv: Seq<TokV>, p: int)
    requires
        tv == otv.push(tv.last()),
        tv.last().loc.offset == p,
        tv.last().ty == TokenType::Eof,
        scan_inv(s, p, false, otv) || scan_inv(s, p, true, otv),
    ensures
        offsets_increasing(tv),
        newlines_collapsed(s, tv),
        forall|i: int| 0 <= i < tv.len() - 1 ==> (#[trigger] tv[i]).ty != TokenType::Eof
            && token_fits(s, tv[i]),
{
    assert forall|i: int, j: int| 0 <= i < j < tv.len() implies tv[i].loc.offset < tv[j].loc.offset by {
        assert(tv[i] == otv[i]);
        if j < otv.len() {
            assert(tv[j] == otv[j]);
        }
    }
    assert forall|i: int, j: int|
        #![trigger tv[i], tv[j]]
        0 <= i && j == i + 1 && j < tv.len() && tv[i].ty == TokenType::Newline && tv[j].ty
            == TokenType::Newline implies exists|k: int|
        tv[i].loc.offset < k < tv[j].loc.offset && !is_ws_nl(#[trigger] s[k]) by {
        assert(tv[i] == otv[i]);
        assert(tv[j] == otv[j]);
    }
    assert forall|i: int| 0 <= i < tv.len() - 1 implies (#[trigger] tv[i]).ty != TokenType::Eof
        && token_fits(s, tv[i]) by {
        assert(tv[i] == otv[i]);
    }
}

/// After a newline token has been pushed at `p0`, with blanks and line
/// breaks up to `p1`, the bookkeeping laws still hold.
proof fn lemma_newline_pushed(s: Seq<u8>, otv: Seq<TokV>, tv: Seq<TokV>, p0: int, p1: int)
    requires
        0 <= p0 < p1 <= s.len(),
        tv == otv.push(tv.last()),
        tv.last().loc.offset == p0,
        tv.last().ty == TokenType::Newline,
        token_fits(s, tv.last()),
        forall|k: int| p0 <= k < p1 ==> is_ws_nl(#[trigger] s[k]),
        scan_inv(s, p0, false, otv),
    ensures
        scan_inv(s, p1, true, tv),
{
    assert forall|i: int| 0 <= i < tv.len() implies (#[trigger] tv[i]).ty != TokenType::Eof
        && token_fits(s, tv[i]) && tv[i].loc.offset < p1 by {
        if i < otv.len() {
            assert(tv[i] == otv[i]);
        }
    }
    assert forall|i: int, j: int| 0 <= i < j < tv.len() implies tv[i].loc.offset < tv[j].loc.offset by {
        assert(tv[i] == otv[i]);
        if j < otv.len() {
            assert(tv[j] == otv[j]);
        }
    }
    assert forall|i: int, j: int|
        #![trigger tv[i], tv[j]]
        0 <= i && j == i + 1 && j < tv.len() && tv[i].ty == TokenType::Newline && tv[j].ty
            == TokenType::Newline implies exists|k: int|
        tv[i].loc.offset < k < tv[j].loc.offset && !is_ws_nl(#[trigger] s[k]) by {
        assert(tv[i] == otv[i]);
        if j < otv.len() {
            assert(tv[j] == otv[j]);
        } else {
            assert(otv.last() == otv[i]);
        }
    }
}

/// After a token other than a newline has been pushed at `p0` and the scan
/// moved to `p1 > p0`, the bookkeeping laws still hold.
proof fn lemma_tokens_grow(s: Seq<u8>, otv: Seq<TokV>, tv: Seq<TokV>, p0: int, p1: int)
    requires
        0 <= p0 < p1 <= s.len(),
        tv == otv.push(tv.last()),
        tv.last().loc.offset == p0,
        tv.last().ty != TokenType::Eof,
        tv.last().ty != TokenType::Newline,
        token_fits(s, tv.last()),
        scan_inv(s, p0, false, otv) || scan_inv(s, p0, true, otv),
    ensures
        scan_inv(s, p1, false, tv),
{
    assert forall|i: int| 0 <= i < tv.len() implies (#[trigger] tv[i]).ty != TokenType::Eof
        && token_fits(s, tv[i]) && tv[i].loc.offset < p1 by {
        if i < otv.len() {
            assert(tv[i] == otv[i]);
        }
    }
    assert forall|i: int, j: int| 0 <= i < j < tv.len() implies tv[i].loc.offset < tv[j].loc.offset by {
        assert(tv[i] == otv[i]);
        if j < otv.len() {
            assert(tv[j] == otv[j]);
        }
    }
    assert forall|i: int, j: int|
        #![trigger tv[i], tv[j]]
        0 <= i && j == i + 1 && j < tv.len() && tv[i].ty == TokenType::Newline && tv[j].ty
            == TokenType::Newline implies exists|k: int|
        tv[i].loc.offset < k < tv[j].loc.offset && !is_ws_nl(#[trigger] s[k]) by {
        assert(tv[i] == otv[i]);
        assert(tv[j] == otv[j]);
    }
}

/// Whether `src[a..b]` reads `true` or `false`.
fn is_true_false(src: &[u8], a: usize, b: usize) -> (r: bool)
    requires
        a <= b <= src@.len(),
    ensures
        r == (chars_of(src@, a as int, b as int) == true_chars() || chars_of(src@, a as int, b as int)
            == false_chars()),
{
    let ghost v = chars_of(src@, a as int, b as int);
    if b - a == 4 {
        let r = src[a] == 116 && src[a + 1] == 114 && src[a + 2] == 117 && src[a + 3] == 101;
        proof {
            if r {
                assert(v =~= true_chars());
            } else {
                if v == true_chars() {
                    assert(v[0] == 't' && v[1] == 'r' && v[2] == 'u' && v[3] == 'e');
                }
            }
            assert(v.len() != false_chars().len());
        }
        r
    } else if b - a == 5 {
        let r = src[a] == 102 && src[a + 1] == 97 && src[a + 2] == 108 && src[a + 3] == 115 && src[a
            + 4] == 101;
        proof {
            if r {
                assert(v =~= false_chars());
            } else {
                if v == false_chars() {
                    assert(v[0] == 'f' && v[1] == 'a' && v[2] == 'l' && v[3] == 's' && v[4] == 'e');
                }
            }
            assert(v.len() != true_chars().len());
        }
        r
    } else {
        proof {
            assert(v.len() != true_chars().len());
            assert(v.len() != false_chars().len());
        }
        false
    }
}

} // verus!
