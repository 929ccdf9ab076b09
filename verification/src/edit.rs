//! Applying an editor's change (a range of the document replaced by new
//! text) to the stored document.
use vstd::prelude::*;

use crate::codegen::{lines_from, lines_of, next_newline, strip_cr};
use crate::completions::prefix_text;
use crate::lsp::{byte_offset, lemma_unit_in_char_unique, lemma_utf16_monotone, lemma_utf16_take_step, unit_in_char, utf16_len};
use vstd::utf8::encode_utf8;
use crate::navigate::{split_lines, Position, Range};
use crate::text::{clone_string, push_char, push_str, string_of, strs_view};

verus! {

/// The index of the character of `cs` where UTF-16 offset `off` lands:
/// 0 for offset 0, the character holding the offset, or the length for the
/// offset just past the end; `None` beyond that.
pub open spec fn utf16_char_index(cs: Seq<char>, off: nat) -> Option<int> {
    if off == 0 {
        Some(0)
    } else if exists|i: int| unit_in_char(cs, off, i) {
        Some(choose|i: int| unit_in_char(cs, off, i))
    } else if off == utf16_len(cs) {
        Some(cs.len() as int)
    } else {
        None
    }
}

/// The character index where UTF-16 offset `off` of `line` lands.
pub fn utf16_char_index_exec(line: &str, off: u32) -> (r: Option<usize>)
    ensures
        match r {
            Some(i) => utf16_char_index(line@, off as nat) == Some(i as int) && i <= line@.len(),
            None => utf16_char_index(line@, off as nat) == None::<int>,
        },
{
    if off == 0 {
        return Some(0);
    }
    let ghost cs = line@;
    let n = line.unicode_len();
    let mut i: usize = 0;
    let mut count: u64 = 0;
    let target: u64 = off as u64;
    proof {
        assert(cs.take(0) =~= Seq::<char>::empty());
    }
    while i < n
        invariant
            cs == line@,
            n == cs.len(),
            i <= n,
            count == utf16_len(cs.take(i as int)),
            count <= target,
            target == off,
            off > 0,
        decreases n - i,
    {
        let ch = line.get_char(i);
        let code: u32 = ch as u32;
        let units: u64 = if code >= 0x10000 {
            2
        } else {
            1
        };
        proof {
            lemma_utf16_take_step(cs, i as int);
        }
        if count + units > target {
            proof {
                assert(unit_in_char(cs, off as nat, i as int));
                let j = choose|j: int| unit_in_char(cs, off as nat, j);
                lemma_unit_in_char_unique(cs, off as nat, i as int, j);
            }
            return Some(i);
        }
        count = count + units;
        i = i + 1;
    }
    proof {
        assert(cs.take(n as int) =~= cs);
        assert forall|j: int| !unit_in_char(cs, off as nat, j) by {
            if unit_in_char(cs, off as nat, j) {
                lemma_utf16_monotone(cs, j + 1, n as int);
            }
        }
    }
    if count == target {
        Some(n)
    } else {
        None
    }
}

/// Newline and line for each of the lines of `ls` from index `k` on.
pub open spec fn suffix_text(ls: Seq<Seq<char>>, k: int) -> Seq<char>
    decreases ls.len() - k,
{
    if k < 0 || k >= ls.len() {
        Seq::empty()
    } else {
        "\n"@ + ls[k] + suffix_text(ls, k + 1)
    }
}

/// The document after `range` of `source` (lines and UTF-16 columns) is
/// replaced by `new_text`; `None` when a line of the range does not exist or
/// a column lies past its line.
pub open spec fn applied_change(source: Seq<char>, range: Range, new_text: Seq<char>) -> Option<Seq<char>> {
    let ls = lines_of(source);
    let sl = range.start.line as int;
    let el = range.end.line as int;
    if sl >= ls.len() || el >= ls.len() {
        None
    } else {
        match (utf16_char_index(ls[sl], range.start.character as nat), utf16_char_index(ls[el], range.end.character as nat)) {
            (Some(a), Some(b)) => Some(
                prefix_text(ls, sl) + ls[sl].take(a) + new_text + ls[el].skip(b) + suffix_text(ls, el + 1),
            ),
            _ => None,
        }
    }
}

/// Replaces `range` of `source` by `new_text`; the lines are rejoined with
/// `\n`.
pub fn apply_incremental_change(source: &str, range: &Range, new_text: &str) -> (r: Option<String>)
    ensures
        match r {
            Some(t) => applied_change(source@, *range, new_text@) == Some(t@),
            None => applied_change(source@, *range, new_text@) == None::<Seq<char>>,
        },
{
    let lines = split_lines(source);
    let ghost ls = strs_view(lines@);
    let start_line = range.start.line as usize;
    let end_line = range.end.line as usize;
    if start_line >= lines.len() || end_line >= lines.len() {
        return None;
    }
    proof {
        assert(ls[start_line as int] == lines@[start_line as int]@);
        assert(ls[end_line as int] == lines@[end_line as int]@);
    }
    let a = match utf16_char_index_exec(lines[start_line].as_str(), range.start.character) {
        Some(a) => a,
        None => return None,
    };
    let b = match utf16_char_index_exec(lines[end_line].as_str(), range.end.character) {
        Some(b) => b,
        None => return None,
    };
    let mut result = String::new();
    let mut i: usize = 0;
    while i < start_line
        invariant
            ls == strs_view(lines@),
            start_line < lines@.len(),
            i <= start_line,
            result@ == prefix_text(ls, i as int),
        decreases start_line - i,
    {
        push_str(&mut result, lines[i].as_str());
        push_char(&mut result, '\n');
        proof {
            reveal_strlit("\n");
            assert(ls[i as int] == lines@[i as int]@);
            assert(result@ =~= prefix_text(ls, i + 1));
        }
        i = i + 1;
    }
    let sline = lines[start_line].as_str();
    let head = sline.substring_char(0, a);
    push_str(&mut result, head);
    push_str(&mut result, new_text);
    let eline = lines[end_line].as_str();
    let en = eline.unicode_len();
    let tail = eline.substring_char(b, en);
    push_str(&mut result, tail);
    proof {
        assert(head@ =~= ls[start_line as int].take(a as int));
        assert(tail@ =~= ls[end_line as int].skip(b as int));
    }
    let ghost mid = result@;
    let mut j: usize = end_line + 1;
    proof {
        assert(suffix_text(ls, (end_line + 1) as int) == suffix_text(ls, j as int));
    }
    let ghost mut done: Seq<char> = Seq::empty();
    while j < lines.len()
        invariant
            ls == strs_view(lines@),
            end_line < j <= lines@.len(),
            result@ == mid + done,
            suffix_text(ls, end_line + 1) == done + suffix_text(ls, j as int),
        decreases lines@.len() - j,
    {
        push_char(&mut result, '\n');
        push_str(&mut result, lines[j].as_str());
        proof {
            reveal_strlit("\n");
            assert(ls[j as int] == lines@[j as int]@);
            let nd = done + "\n"@ + ls[j as int];
            assert(result@ =~= mid + nd);
            assert(suffix_text(ls, j as int) == "\n"@ + ls[j as int] + suffix_text(ls, j + 1));
            assert(done + suffix_text(ls, j as int) =~= nd + suffix_text(ls, j + 1));
            done = nd;
        }
        j = j + 1;
    }
    proof {
        assert(suffix_text(ls, j as int) =~= Seq::<char>::empty());
        assert(done + suffix_text(ls, j as int) =~= done);
    }
    Some(result)
}

/// A document without carriage returns and without a final newline.
pub open spec fn plain_document(s: Seq<char>) -> bool {
    &&& forall|i: int| 0 <= i < s.len() ==> s[i] != '\r'
    &&& (s.len() == 0 || s.last() != '\n')
}

/// Cutting the lines at line `k` and rejoining them gives the same text,
/// whichever line is cut.
proof fn lemma_rejoin_at(ls: Seq<Seq<char>>, k: int)
    requires
        0 <= k < ls.len(),
    ensures
        prefix_text(ls, k) + ls[k] + suffix_text(ls, k + 1) == ls[0] + suffix_text(ls, 1),
    decreases k,
{
    if k > 0 {
        lemma_rejoin_at(ls, k - 1);
        assert(suffix_text(ls, k) == "\n"@ + ls[k] + suffix_text(ls, k + 1));
        assert(prefix_text(ls, k) == prefix_text(ls, k - 1) + ls[k - 1] + "\n"@);
        assert(prefix_text(ls, k) + ls[k] + suffix_text(ls, k + 1) =~= prefix_text(ls, k - 1)
            + ls[k - 1] + suffix_text(ls, k));
    }
}

/// The newline-joined tail of lines does not see a line put in front.
proof fn lemma_suffix_shift(x: Seq<char>, m: Seq<Seq<char>>, j: int)
    requires
        0 <= j,
    ensures
        suffix_text(seq![x] + m, j + 1) == suffix_text(m, j),
    decreases m.len() - j,
{
    let l = seq![x] + m;
    if j < m.len() {
        lemma_suffix_shift(x, m, j + 1);
        assert(l[j + 1] == m[j]);
    }
}

/// The lines of a plain text from `i` on, rejoined with newlines, give the
/// text from `i` on.
proof fn lemma_lines_rejoin(s: Seq<char>, i: int)
    requires
        plain_document(s),
        0 <= i < s.len(),
    ensures
        lines_from(s, i).len() > 0,
        lines_from(s, i)[0] + suffix_text(lines_from(s, i), 1) == s.subrange(i, s.len() as int),
    decreases s.len() - i,
{
    let k = next_newline(s, i);
    crate::codegen::lemma_next_newline(s, i);
    let l = lines_from(s, i);
    if k >= s.len() {
        assert(l == seq![s.subrange(i, s.len() as int)]);
        assert(suffix_text(l, 1) == Seq::<char>::empty());
        assert(l[0] + suffix_text(l, 1) =~= s.subrange(i, s.len() as int));
    } else {
        assert(k + 1 < s.len());
        let m = lines_from(s, k + 1);
        lemma_lines_rejoin(s, k + 1);
        let head = s.subrange(i, k);
        assert(head.len() == 0 || head.last() != '\r') by {
            if head.len() > 0 {
                assert(head.last() == s[k - 1]);
            }
        }
        assert(strip_cr(head) == head);
        assert(l == seq![head] + m);
        lemma_suffix_shift(head, m, 0);
        assert(suffix_text(l, 1) == "\n"@ + l[1] + suffix_text(l, 2));
        lemma_suffix_shift(head, m, 1);
        assert(l[1] == m[0]);
        assert(suffix_text(l, 2) == suffix_text(m, 1));
        assert(l[0] + suffix_text(l, 1) =~= head + "\n"@ + (m[0] + suffix_text(m, 1)));
        assert(s.subrange(i, s.len() as int) =~= head + "\n"@ + s.subrange(k + 1, s.len() as int)) by {
            reveal_strlit("\n");
            assert(s[k] == '\n');
        }
    }
}

/// Whether `at` names a line of `source` and a UTF-16 column of that line.
pub open spec fn position_exists(source: Seq<char>, at: Position) -> bool {
    &&& (at.line as int) < lines_of(source).len()
    &&& utf16_char_index(lines_of(source)[at.line as int], at.character as nat) is Some
}

/// An edit that replaces an empty range by nothing gives the document back
/// unchanged, for a document without carriage returns or a final newline;
/// it is refused exactly when the position does not exist.
pub proof fn law_empty_change_keeps_document(source: Seq<char>, at: Position)
    requires
        plain_document(source),
    ensures
        position_exists(source, at) ==> applied_change(source, (Range { start: at, end: at }), Seq::empty())
            == Some(source),
        !position_exists(source, at) ==> applied_change(source, (Range { start: at, end: at }), Seq::empty())
            is None,
{
    let ls = lines_of(source);
    let l = at.line as int;
    if l < ls.len() {
        let line = ls[l];
        match utf16_char_index(line, at.character as nat) {
            Some(a) => {
                assert(0 <= a <= line.len()) by {
                    if at.character != 0 && exists|i: int| unit_in_char(line, at.character as nat, i) {
                        let j = choose|i: int| unit_in_char(line, at.character as nat, i);
                        assert(unit_in_char(line, at.character as nat, j));
                    }
                }
                assert(source.len() > 0) by {
                    if source.len() == 0 {
                        assert(lines_from(source, 0) == Seq::<Seq<char>>::empty());
                    }
                }
                lemma_lines_rejoin(source, 0);
                lemma_rejoin_at(ls, l);
                assert(line.take(a) + Seq::<char>::empty() + line.skip(a) =~= line);
                assert(prefix_text(ls, l) + line.take(a) + Seq::<char>::empty() + line.skip(a) + suffix_text(ls, l + 1)
                    =~= prefix_text(ls, l) + line + suffix_text(ls, l + 1));
                assert(source.subrange(0, source.len() as int) =~= source);
            },
            None => {},
        }
    }
}

/// One change that an editor reports: a range and the text that replaces
/// it, or, with no range, the whole new document.
pub struct TextChange {
    pub range: Option<Range>,
    pub text: String,
}

/// The model of a list of changes.
pub open spec fn changes_view(cs: Seq<TextChange>) -> Seq<(Option<Range>, Seq<char>)> {
    Seq::new(cs.len(), |i: int| (cs[i].range, cs[i].text@))
}

/// The document after the changes `cs`, in order: a ranged change that
/// cannot be applied leaves the document as it was.
pub open spec fn applied_changes(source: Seq<char>, cs: Seq<(Option<Range>, Seq<char>)>) -> Seq<char>
    decreases cs.len(),
{
    if cs.len() == 0 {
        source
    } else {
        let prev = applied_changes(source, cs.drop_last());
        match cs.last().0 {
            Some(r) => match applied_change(prev, r, cs.last().1) {
                Some(t) => t,
                None => prev,
            },
            None => cs.last().1,
        }
    }
}

/// Applies the changes of one edit notification to the stored document.
pub fn apply_changes(source: &str, changes: &Vec<TextChange>) -> (r: String)
    ensures
        r@ == applied_changes(source@, changes_view(changes@)),
{
    let ghost cv = changes_view(changes@);
    let mut doc = string_of(source);
    let mut i: usize = 0;
    while i < changes.len()
        invariant
            i <= changes@.len(),
            cv == changes_view(changes@),
            doc@ == applied_changes(source@, cv.take(i as int)),
        decreases changes@.len() - i,
    {
        proof {
            assert(cv.take(i + 1).drop_last() =~= cv.take(i as int));
            assert(cv.take(i + 1).last() == (changes@[i as int].range, changes@[i as int].text@));
        }
        match changes[i].range {
            Some(range) => {
                match apply_incremental_change(doc.as_str(), &range, changes[i].text.as_str()) {
                    Some(t) => {
                        doc = t;
                    },
                    None => {},
                }
            },
            None => {
                doc = clone_string(&changes[i].text);
            },
        }
        i = i + 1;
    }
    proof {
        assert(cv.take(changes@.len() as int) =~= cv);
    }
    doc
}

proof fn lemma_encode_concat(a: Seq<char>, b: Seq<char>)
    ensures
        encode_utf8(a + b) == encode_utf8(a) + encode_utf8(b),
    decreases a.len(),
{
    if a.len() > 0 {
        assert((a + b).drop_first() =~= a.drop_first() + b);
        assert((a + b)[0] == a[0]);
        lemma_encode_concat(a.drop_first(), b);
        assert(encode_utf8(a + b) =~= encode_utf8(a) + encode_utf8(b));
    } else {
        assert(a + b =~= b);
        assert(encode_utf8(a) =~= Seq::<u8>::empty());
        assert(encode_utf8(a) + encode_utf8(b) =~= encode_utf8(b));
    }
}

proof fn lemma_some_unit(cs: Seq<char>, off: nat)
    requires
        0 < off < utf16_len(cs),
    ensures
        exists|i: int| unit_in_char(cs, off, i),
    decreases cs.len(),
{
    let n = cs.len() as int;
    let d = cs.drop_last();
    assert(cs.take(n) =~= cs);
    assert(cs.take(n - 1) =~= d);
    if off < utf16_len(d) {
        lemma_some_unit(d, off);
        let i = choose|i: int| unit_in_char(d, off, i);
        assert(d.take(i) =~= cs.take(i));
        assert(d.take(i + 1) =~= cs.take(i + 1));
        assert(unit_in_char(cs, off, i));
    } else {
        assert(unit_in_char(cs, off, n - 1));
    }
}

/// An edit's columns land on the same places counted in characters as in
/// bytes: a UTF-16 column exists exactly up to the line's UTF-16 length; it
/// lands at the character after those whose UTF-16 length is at most the
/// column, before the character that takes it past the column (as the byte
/// index `utf16_offset_to_byte_index` gives); and the characters before and
/// after it encode to the bytes before and after that byte index.
pub proof fn law_edit_columns_in_bytes(line: Seq<char>, off: nat)
    ensures
        utf16_char_index(line, off) is Some <==> off <= utf16_len(line),
        utf16_char_index(line, off) matches Some(a) ==> {
            &&& 0 <= a <= line.len()
            &&& utf16_len(line.take(a)) <= off
            &&& (a == line.len() || off < utf16_len(line.take(a + 1)))
            &&& encode_utf8(line.take(a)) == encode_utf8(line).take(byte_offset(line, a) as int)
            &&& encode_utf8(line.skip(a)) == encode_utf8(line).skip(byte_offset(line, a) as int)
        },
{
    let n = line.len() as int;
    assert(line.take(n) =~= line);
    if off == 0 {
        assert(line.take(0) =~= Seq::<char>::empty());
        if n > 0 {
            lemma_utf16_take_step(line, 0);
        }
    } else if exists|i: int| unit_in_char(line, off, i) {
        let i = choose|i: int| unit_in_char(line, off, i);
        lemma_utf16_monotone(line, i + 1, n);
    } else if off < utf16_len(line) {
        lemma_some_unit(line, off);
    }
    match utf16_char_index(line, off) {
        Some(a) => {
            if off > 0 && exists|i: int| unit_in_char(line, off, i) {
                let i = choose|i: int| unit_in_char(line, off, i);
                lemma_utf16_monotone(line, i + 1, n);
            }
            assert(0 <= a <= n);
            lemma_encode_concat(line.take(a), line.skip(a));
            assert(line.take(a) + line.skip(a) =~= line);
            let e = encode_utf8(line);
            let k = byte_offset(line, a) as int;
            assert(e.take(k) =~= encode_utf8(line.take(a)));
            assert(e.skip(k) =~= encode_utf8(line.skip(a)));
        },
        None => {},
    }
}

} // verus!
