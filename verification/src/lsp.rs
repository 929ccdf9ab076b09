//! Editor helpers: mapping LSP (UTF-16) positions into UTF-8 text and
//! finding the identifier under the cursor.
use vstd::prelude::*;
use vstd::string::StrSliceExecFns;
use vstd::string::StringSliceAdditionalSpecFns;
use vstd::utf8::{encode_scalar, encode_utf8, encode_utf8_first_scalar, encode_utf8_valid_utf8, is_char_boundary, pop_first_scalar};
use crate::text::{is_word_byte, byte_is_word, push_char};

verus! {

/// The number of UTF-16 code units that encode `c`.
pub open spec fn utf16_units(c: char) -> nat {
    if c as u32 >= 0x10000 {
        2
    } else {
        1
    }
}

/// The number of UTF-16 code units that encode the characters `cs`.
pub open spec fn utf16_len(cs: Seq<char>) -> nat
    decreases cs.len(),
{
    if cs.len() == 0 {
        0
    } else {
        utf16_len(cs.drop_last()) + utf16_units(cs.last())
    }
}

/// The byte offset in the UTF-8 encoding of `cs` at which character `i` starts.
pub open spec fn byte_offset(cs: Seq<char>, i: int) -> nat {
    encode_utf8(cs.take(i)).len()
}

/// Whether UTF-16 offset `off` falls inside character `i` of `cs`.
pub open spec fn unit_in_char(cs: Seq<char>, off: nat, i: int) -> bool {
    0 <= i < cs.len() && utf16_len(cs.take(i)) <= off < utf16_len(cs.take(i + 1))
}

proof fn lemma_encode_push(s: Seq<char>, c: char)
    ensures
        encode_utf8(s.push(c)) == encode_utf8(s) + encode_scalar(c as u32),
    decreases s.len(),
{
    if s.len() == 0 {
        assert(s.push(c).drop_first() =~= Seq::<char>::empty());
        assert(encode_utf8(Seq::<char>::empty()) =~= Seq::<u8>::empty());
        assert(encode_utf8(s.push(c)) =~= encode_scalar(c as u32));
    } else {
        assert(s.push(c).drop_first() =~= s.drop_first().push(c));
        lemma_encode_push(s.drop_first(), c);
        assert(encode_utf8(s.push(c)) =~= encode_utf8(s) + encode_scalar(c as u32));
    }
}

pub proof fn lemma_scalar_width(c: char)
    ensures
        encode_scalar(c as u32).len() == (if (c as u32) < 0x80 {
            1int
        } else if (c as u32) < 0x800 {
            2int
        } else if (c as u32) < 0x10000 {
            3int
        } else {
            4int
        }),
{
    vstd::utf8::char_is_scalar(c);
}

pub proof fn lemma_utf16_take_step(cs: Seq<char>, i: int)
    requires
        0 <= i < cs.len(),
    ensures
        utf16_len(cs.take(i + 1)) == utf16_len(cs.take(i)) + utf16_units(cs[i]),
        byte_offset(cs, i + 1) == byte_offset(cs, i) + encode_scalar(cs[i] as u32).len(),
{
    assert(cs.take(i + 1).drop_last() =~= cs.take(i));
    assert(cs.take(i + 1) =~= cs.take(i).push(cs[i]));
    lemma_encode_push(cs.take(i), cs[i]);
}

pub proof fn lemma_utf16_monotone(cs: Seq<char>, i: int, j: int)
    requires
        0 <= i <= j <= cs.len(),
    ensures
        utf16_len(cs.take(i)) + (j - i) <= utf16_len(cs.take(j)),
    decreases j - i,
{
    if i < j {
        lemma_utf16_take_step(cs, j - 1);
        lemma_utf16_monotone(cs, i, j - 1);
    }
}

/// Only one character holds a given UTF-16 offset.
pub proof fn lemma_unit_in_char_unique(cs: Seq<char>, off: nat, i: int, j: int)
    requires
        unit_in_char(cs, off, i),
        unit_in_char(cs, off, j),
    ensures
        i == j,
{
    if i < j {
        lemma_utf16_monotone(cs, i + 1, j);
    } else if j < i {
        lemma_utf16_monotone(cs, j + 1, i);
    }
}

/// The byte offset where character `i` of `cs` starts is a character
/// boundary of its UTF-8 encoding.
pub proof fn lemma_byte_offset_boundary(cs: Seq<char>, i: int)
    requires
        0 <= i <= cs.len(),
    ensures
        is_char_boundary(encode_utf8(cs), byte_offset(cs, i) as int),
    decreases i,
{
    encode_utf8_valid_utf8(cs);
    if i > 0 {
        let b = encode_utf8(cs);
        encode_utf8_first_scalar(cs);
        assert(pop_first_scalar(b) =~= encode_utf8(cs.drop_first()));
        assert(cs.take(i).drop_first() =~= cs.drop_first().take(i - 1));
        assert(cs.take(i)[0] == cs[0]);
        assert(encode_utf8(cs.take(i)) == encode_scalar(cs[0] as u32) + encode_utf8(cs.drop_first().take(i - 1)));
        lemma_byte_offset_boundary(cs.drop_first(), i - 1);
        lemma_encode_prefix_len(cs, i);
        assert(byte_offset(cs, i) as int <= b.len());
    }
}

/// Converts an LSP character offset (UTF-16 code units) to a byte offset into
/// `text`.
///
/// Offset 0 gives byte 0; an offset inside a character (the middle of a
/// surrogate pair too) gives the byte where that character starts; the offset
/// just past the last character gives the length of `text`; anything beyond
/// gives `None`. So the answer is some exactly up to the text's UTF-16
/// length, and is then the character boundary after the characters whose
/// UTF-16 length is at most the offset, before the character that takes it
/// past the offset.
pub fn utf16_offset_to_byte_index(text: &str, utf16_offset: u32) -> (r: Option<usize>)
    ensures
        utf16_offset == 0 ==> r == Some(0usize),
        utf16_offset > 0 ==> match r {
            Some(b) => {
                ||| exists|i: int|
                    unit_in_char(text@, utf16_offset as nat, i) && b == byte_offset(text@, i)
                ||| (utf16_offset == utf16_len(text@) && b == text.spec_bytes().len())
            },
            None => utf16_offset > utf16_len(text@),
        },
        r is Some <==> utf16_offset <= utf16_len(text@),
        r matches Some(b) ==> exists|i: int|
            0 <= i <= text@.len() && b == byte_offset(text@, i) && is_char_boundary(text.spec_bytes(), b as int)
                && utf16_len(text@.take(i)) <= utf16_offset && (i == text@.len() || utf16_offset < utf16_len(
                text@.take(i + 1),
            )),
        forall|b: int|
            #![trigger utf16_target(text@, utf16_offset as nat, b)]
            0 <= b < text.spec_bytes().len() ==> (r == Some(b as usize) <==> utf16_target(
                text@,
                utf16_offset as nat,
                b,
            )),
{
    let r = utf16_index(text, utf16_offset);
    let total = text.as_bytes().len();
    proof {
        let cs = text@;
        let off = utf16_offset as nat;
        assert(total == text.spec_bytes().len());
        assert forall|b: int|
            #![trigger utf16_target(cs, off, b)]
            0 <= b < text.spec_bytes().len() implies (r == Some(b as usize) <==> utf16_target(cs, off, b)) by {
            match r {
                Some(rb) => {
                    if off > 0 {
                        if exists|i: int| unit_in_char(cs, off, i) && rb == byte_offset(cs, i) {
                            assert(utf16_target(cs, off, rb as int));
                            if utf16_target(cs, off, b) {
                                lemma_target_unique(cs, off, rb as int, b);
                            }
                        } else {
                            lemma_no_target_past_end(cs, off, b);
                        }
                    }
                },
                None => {
                    lemma_no_target_past_end(cs, off, b);
                },
            }
        }
        assert(cs.take(cs.len() as int) =~= cs);
        match r {
            Some(b) => {
                if utf16_offset == 0 {
                    assert(cs.take(0) =~= Seq::<char>::empty());
                    assert(encode_utf8(Seq::<char>::empty()) =~= Seq::<u8>::empty());
                    lemma_byte_offset_boundary(cs, 0);
                    if cs.len() > 0 {
                        lemma_utf16_take_step(cs, 0);
                    }
                    assert(utf16_len(cs.take(0)) == 0);
                    if cs.len() > 0 {
                        lemma_utf16_monotone(cs, 1, cs.len() as int);
                    }
                } else if exists|i: int| unit_in_char(cs, utf16_offset as nat, i) && b == byte_offset(cs, i) {
                    let i = choose|i: int| unit_in_char(cs, utf16_offset as nat, i) && b == byte_offset(cs, i);
                    lemma_byte_offset_boundary(cs, i);
                    lemma_utf16_monotone(cs, i + 1, cs.len() as int);
                } else {
                    lemma_byte_offset_boundary(cs, cs.len() as int);
                }
            },
            None => {},
        }
    }
    r
}

fn utf16_index(text: &str, utf16_offset: u32) -> (r: Option<usize>)
    ensures
        utf16_offset == 0 ==> r == Some(0usize),
        utf16_offset > 0 ==> match r {
            Some(b) => {
                ||| exists|i: int|
                    unit_in_char(text@, utf16_offset as nat, i) && b == byte_offset(text@, i)
                ||| (utf16_offset == utf16_len(text@) && b == text.spec_bytes().len())
            },
            None => utf16_offset > utf16_len(text@),
        },
{
    if utf16_offset == 0 {
        return Some(0);
    }
    let n = text.unicode_len();
    let total = text.as_bytes().len();
    let ghost cs = text@;
    let mut i: usize = 0;
    let mut count: u64 = 0;
    let mut byte_idx: usize = 0;
    let off: u64 = utf16_offset as u64;
    proof {
        assert(cs.take(0) =~= Seq::<char>::empty());
    }
    while i < n
        invariant
            n == cs.len(),
            cs == text@,
            i <= n,
            count == utf16_len(cs.take(i as int)),
            count <= off,
            off == utf16_offset,
            byte_idx == byte_offset(cs, i as int),
            byte_idx <= encode_utf8(cs).len(),
            encode_utf8(cs) == text.spec_bytes(),
            total == encode_utf8(cs).len(),
        decreases n - i,
    {
        let ch = text.get_char(i);
        let code: u32 = ch as u32;
        let units: u64 = if code >= 0x10000 {
            2
        } else {
            1
        };
        proof {
            lemma_utf16_take_step(cs, i as int);
            lemma_scalar_width(ch);
            lemma_encode_prefix_len(cs, i as int + 1);
        }
        if count + units > off {
            return Some(byte_idx);
        }
        count = count + units;
        let w: usize = if code < 0x80 {
            1
        } else if code < 0x800 {
            2
        } else if code < 0x10000 {
            3
        } else {
            4
        };
        byte_idx = byte_idx + w;
        i = i + 1;
    }
    proof {
        assert(cs.take(n as int) =~= cs);
    }
    if count == off {
        Some(text.len())
    } else {
        None
    }
}

/// The encoding of a prefix is no longer than the encoding of the whole.
pub proof fn lemma_encode_prefix_len(cs: Seq<char>, i: int)
    requires
        0 <= i <= cs.len(),
    ensures
        encode_utf8(cs.take(i)).len() <= encode_utf8(cs).len(),
    decreases cs.len() - i,
{
    if i < cs.len() {
        lemma_utf16_take_step(cs, i);
        lemma_encode_prefix_len(cs, i + 1);
    } else {
        assert(cs.take(i) =~= cs);
    }
}

/// Whether `b` can be part of an identifier: an ASCII letter or digit, or `_`.
pub fn is_word_char(b: u8) -> (r: bool)
    ensures
        r == is_word_byte(b),
{
    byte_is_word(b)
}

/// Whether byte `b` is where UTF-16 offset `off` of `cs` lands: byte 0 for
/// offset 0, else the start of the character that holds the offset.
pub open spec fn utf16_target(cs: Seq<char>, off: nat, b: int) -> bool {
    ||| (off == 0 && b == 0)
    ||| (off > 0 && exists|i: int| unit_in_char(cs, off, i) && b == byte_offset(cs, i))
}

/// Past the last character no offset lands in a character.
proof fn lemma_no_target_past_end(cs: Seq<char>, off: nat, at: int)
    requires
        off > 0,
        off >= utf16_len(cs),
    ensures
        !utf16_target(cs, off, at),
{
    if utf16_target(cs, off, at) {
        let i = choose|i: int| unit_in_char(cs, off, i) && at == byte_offset(cs, i);
        lemma_utf16_monotone(cs, i + 1, cs.len() as int);
        assert(cs.take(cs.len() as int) =~= cs);
    }
}

/// Two bytes where the same offset lands are the same byte.
proof fn lemma_target_unique(cs: Seq<char>, off: nat, at: int, b: int)
    requires
        utf16_target(cs, off, at),
        utf16_target(cs, off, b),
    ensures
        at == b,
{
    if off > 0 {
        let i = choose|i: int| unit_in_char(cs, off, i) && at == byte_offset(cs, i);
        let j = choose|j: int| unit_in_char(cs, off, j) && b == byte_offset(cs, j);
        lemma_unit_in_char_unique(cs, off, i, j);
    }
}

/// Whether `[start, end)` is the maximal run of identifier bytes of `bytes`
/// around index `at`.
pub open spec fn word_span(bytes: Seq<u8>, at: int, start: int, end: int) -> bool {
    &&& 0 <= start <= at < end <= bytes.len()
    &&& forall|k: int| start <= k < end ==> is_word_byte(#[trigger] bytes[k])
    &&& (start == 0 || !is_word_byte(bytes[start - 1]))
    &&& (end == bytes.len() || !is_word_byte(bytes[end]))
}

/// The characters of a run of ASCII bytes.
pub open spec fn ascii_chars(bytes: Seq<u8>) -> Seq<char> {
    Seq::new(bytes.len(), |k: int| bytes[k] as char)
}

/// The identifier under the LSP position `character` of `line`.
///
/// The position is converted to a byte index; when a word character stands
/// there, the whole run of word characters around it is returned.
#[verifier::loop_isolation(false)]
pub fn word_at_position(line: &str, character: u32) -> (r: Option<String>)
    ensures
        ({
            let bytes = line.spec_bytes();
            match r {
                Some(w) => exists|at: int, start: int, end: int|
                    {
                        &&& utf16_target(line@, character as nat, at)
                        &&& word_span(bytes, at, start, end)
                        &&& w@ == ascii_chars(bytes.subrange(start, end))
                    },
                None => forall|at: int|
                    #![trigger bytes[at]]
                    0 <= at < bytes.len() && is_word_byte(bytes[at]) ==> !utf16_target(
                        line@,
                        character as nat,
                        at,
                    ),
            }
        }),
{
    let r0 = utf16_offset_to_byte_index(line, character);
    let byte_idx = match r0 {
        Some(b) => b,
        None => {
            proof {
                assert forall|at: int|
                    0 <= at < line.spec_bytes().len() && is_word_byte(line.spec_bytes()[at]) implies
                    !utf16_target(line@, character as nat, at) by {
                    if utf16_target(line@, character as nat, at) {
                        lemma_no_target_past_end(line@, character as nat, at);
                    }
                }
            }
            return None;
        },
    };
    let bytes = line.as_bytes();
    let n = bytes.len();
    proof {
        if character > 0 && !utf16_target(line@, character as nat, byte_idx as int) {
            assert(byte_idx == n);
        }
    }
    if byte_idx >= n {
        proof {
            assert forall|at: int| 0 <= at < bytes@.len() && is_word_byte(bytes@[at]) implies
                !utf16_target(line@, character as nat, at) by {
                if utf16_target(line@, character as nat, at) {
                    if utf16_target(line@, character as nat, byte_idx as int) {
                        lemma_target_unique(line@, character as nat, at, byte_idx as int);
                    } else {
                        lemma_no_target_past_end(line@, character as nat, at);
                    }
                }
            }
        }
        return None;
    }
    assert(utf16_target(line@, character as nat, byte_idx as int));
    if !is_word_char(bytes[byte_idx]) {
        proof {
            assert forall|at: int| 0 <= at < bytes@.len() && is_word_byte(bytes@[at]) implies
                !utf16_target(line@, character as nat, at) by {
                if utf16_target(line@, character as nat, at) {
                    lemma_target_unique(line@, character as nat, at, byte_idx as int);
                }
            }
        }
        return None;
    }
    let mut start = byte_idx;
    while start > 0
        invariant
            start <= byte_idx < n,
            n == bytes@.len(),
            forall|k: int| start <= k <= byte_idx ==> is_word_byte(#[trigger] bytes@[k]),
        decreases start,
    {
        if is_word_char(bytes[start - 1]) {
            start = start - 1;
        } else {
            break;
        }
    }
    let mut end = byte_idx + 1;
    while end < n
        invariant
            byte_idx < end <= n,
            n == bytes@.len(),
            forall|k: int| byte_idx <= k < end ==> is_word_byte(#[trigger] bytes@[k]),
        decreases n - end,
    {
        if is_word_char(bytes[end]) {
            end = end + 1;
        } else {
            break;
        }
    }
    let mut w = String::new();
    let mut k = start;
    while k < end
        invariant
            start <= k <= end <= n,
            n == bytes@.len(),
            w@ == ascii_chars(bytes@.subrange(start as int, k as int)),
        decreases end - k,
    {
        let c = bytes[k] as char;
        proof {
            assert(ascii_chars(bytes@.subrange(start as int, k + 1)) =~= ascii_chars(bytes@.subrange(start as int, k as int)).push(c));
        }
        push_char(&mut w, c);
        k = k + 1;
    }
    proof {
        assert(word_span(bytes@, byte_idx as int, start as int, end as int));
    }
    Some(w)
}


/// The identifier under LSP position `character` of the line `cs`, as
/// [`word_at_position`] finds it.
pub open spec fn word_under(cs: Seq<char>, character: nat) -> Option<Seq<char>> {
    let bytes = encode_utf8(cs);
    if exists|at: int, start: int, end: int|
        utf16_target(cs, character, at) && word_span(bytes, at, start, end) {
        let (at, start, end) = choose|at: int, start: int, end: int|
            utf16_target(cs, character, at) && word_span(bytes, at, start, end);
        Some(ascii_chars(bytes.subrange(start, end)))
    } else {
        None
    }
}

/// Around a given byte there is one maximal run of identifier bytes.
proof fn lemma_word_span_unique(bytes: Seq<u8>, at: int, s1: int, e1: int, s2: int, e2: int)
    requires
        word_span(bytes, at, s1, e1),
        word_span(bytes, at, s2, e2),
    ensures
        s1 == s2,
        e1 == e2,
{
    if s1 < s2 {
        assert(is_word_byte(bytes[s2 - 1]));
    }
    if s2 < s1 {
        assert(is_word_byte(bytes[s1 - 1]));
    }
    if e1 < e2 {
        assert(is_word_byte(bytes[e1]));
    }
    if e2 < e1 {
        assert(is_word_byte(bytes[e2]));
    }
}

/// What [`word_at_position`] returns is [`word_under`] of the line.
pub proof fn lemma_word_result(cs: Seq<char>, character: nat, r: Option<Seq<char>>)
    requires
        ({
            let bytes = encode_utf8(cs);
            match r {
                Some(w) => exists|at: int, start: int, end: int|
                    {
                        &&& utf16_target(cs, character, at)
                        &&& word_span(bytes, at, start, end)
                        &&& w == ascii_chars(bytes.subrange(start, end))
                    },
                None => forall|at: int|
                    #![trigger bytes[at]]
                    0 <= at < bytes.len() && is_word_byte(bytes[at]) ==> !utf16_target(cs, character, at),
            }
        }),
    ensures
        r == word_under(cs, character),
{
    let bytes = encode_utf8(cs);
    match r {
        Some(w) => {
            let (at, start, end) = choose|at: int, start: int, end: int|
                {
                    &&& utf16_target(cs, character, at)
                    &&& word_span(bytes, at, start, end)
                    &&& w == ascii_chars(bytes.subrange(start, end))
                };
            assert(utf16_target(cs, character, at) && word_span(bytes, at, start, end));
            let (a2, s2, e2) = choose|a2: int, s2: int, e2: int|
                utf16_target(cs, character, a2) && word_span(bytes, a2, s2, e2);
            lemma_target_unique(cs, character, at, a2);
            lemma_word_span_unique(bytes, at, start, end, s2, e2);
        },
        None => {
            if exists|at: int, start: int, end: int|
                utf16_target(cs, character, at) && word_span(bytes, at, start, end) {
                let (at, start, end) = choose|at: int, start: int, end: int|
                    utf16_target(cs, character, at) && word_span(bytes, at, start, end);
                assert(is_word_byte(bytes[at]));
            }
        },
    }
}

} // verus!
