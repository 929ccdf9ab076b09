//! Small verified text utilities shared by the tokenizer, parser, code
//! generators and editor helpers.
use vstd::prelude::*;
use vstd::string::StringExecFns;

verus! {

/// The model of a sequence of strings: each string by its characters.
pub open spec fn strs_view(v: Seq<String>) -> Seq<Seq<char>> {
    Seq::new(v.len(), |i: int| v[i]@)
}

/// `String::push` from std: appends one character.
#[verifier::external_body]
pub(crate) fn push_char(s: &mut String, c: char)
    ensures
        final(s)@ == old(s)@.push(c),
{
    s.push(c);
}

/// Appends a string slice.
pub fn push_str(s: &mut String, t: &str)
    ensures
        final(s)@ == old(s)@ + t@,
{
    s.append(t);
}

/// What a sequence holds after a push.
pub proof fn lemma_push_contains<A>(s: Seq<A>, x: A, k: A)
    ensures
        s.push(x).contains(k) <==> (s.contains(k) || k == x),
{
    if s.push(x).contains(k) {
        let m = choose|m: int| 0 <= m < s.push(x).len() && s.push(x)[m] == k;
        if m < s.len() {
            assert(s[m] == k);
        }
    }
    if s.contains(k) {
        let m = choose|m: int| 0 <= m < s.len() && s[m] == k;
        assert(s.push(x)[m] == k);
    }
    if k == x {
        assert(s.push(x)[s.len() as int] == k);
    }
}

/// A copy of `s` with the same characters.
pub fn clone_string(s: &String) -> (r: String)
    ensures
        r@ == s@,
{
    s.clone()
}

/// A copy of a list of strings.
pub fn clone_strings(v: &Vec<String>) -> (r: Vec<String>)
    ensures
        strs_view(r@) == strs_view(v@),
{
    let mut out: Vec<String> = Vec::new();
    let mut i: usize = 0;
    while i < v.len()
        invariant
            i <= v.len(),
            out@.len() == i,
            forall|j: int| 0 <= j < i ==> (#[trigger] out@[j])@ == v@[j]@,
        decreases v.len() - i,
    {
        out.push(clone_string(&v[i]));
        i = i + 1;
    }
    assert(strs_view(out@) =~= strs_view(v@));
    out
}

/// A new `String` holding `t`.
pub fn string_of(t: &str) -> (r: String)
    ensures
        r@ == t@,
{
    String::from_str(t)
}

/// Whether two strings have the same characters.
pub fn str_eq(a: &str, b: &str) -> (r: bool)
    ensures
        r == (a@ == b@),
{
    let n = a.unicode_len();
    if n != b.unicode_len() {
        return false;
    }
    let mut i: usize = 0;
    while i < n
        invariant
            n == a@.len(),
            n == b@.len(),
            i <= n,
            forall|j: int| 0 <= j < i ==> a@[j] == b@[j],
        decreases n - i,
    {
        if a.get_char(i) != b.get_char(i) {
            return false;
        }
        i = i + 1;
    }
    assert(a@ =~= b@);
    true
}

pub open spec fn is_digit_byte(b: u8) -> bool {
    48 <= b <= 57
}

pub open spec fn is_alpha_byte(b: u8) -> bool {
    (65 <= b <= 90) || (97 <= b <= 122)
}

/// ASCII letter, digit or underscore.
pub open spec fn is_word_byte(b: u8) -> bool {
    is_alpha_byte(b) || is_digit_byte(b) || b == 95
}

/// `u8::is_ascii_digit`.
pub fn byte_is_digit(b: u8) -> (r: bool)
    ensures
        r == is_digit_byte(b),
{
    b >= 48 && b <= 57
}

/// `u8::is_ascii_alphabetic`.
pub fn byte_is_alpha(b: u8) -> (r: bool)
    ensures
        r == is_alpha_byte(b),
{
    (b >= 65 && b <= 90) || (b >= 97 && b <= 122)
}

/// ASCII alphanumeric or `_`.
pub fn byte_is_word(b: u8) -> (r: bool)
    ensures
        r == is_word_byte(b),
{
    byte_is_alpha(b) || byte_is_digit(b) || b == 95
}

/// The decimal digits of `n`, most significant first, without leading zeros
/// (`"0"` for zero).
pub open spec fn decimal(n: nat) -> Seq<char>
    decreases n,
{
    if n < 10 {
        seq![digit_char(n)]
    } else {
        decimal(n / 10).push(digit_char(n % 10))
    }
}

pub open spec fn digit_char(d: nat) -> char {
    (48 + d) as char
}

/// `usize::to_string`: the decimal representation of `n`.
pub fn usize_to_string(n: usize) -> (r: String)
    ensures
        r@ == decimal(n as nat),
{
    let mut digits: Vec<char> = Vec::new();
    let mut m: usize = n;
    // digits holds the low-order digits of n, least significant first
    while m >= 10
        invariant
            m <= n,
            decimal(n as nat) == decimal(m as nat) + Seq::new(digits@.len(), |i: int| digits@[digits@.len() - 1 - i]),
        decreases m,
    {
        let d = m % 10;
        let ghost old_digits = digits@;
        let ghost old_m = m;
        digits.push(((48 + d) as u8) as char);
        m = m / 10;
        proof {
            assert(decimal(old_m as nat) == decimal(m as nat).push(digit_char((old_m % 10) as nat)));
            assert(((48 + d) as u8) as char == digit_char(d as nat));
            let rev_old = Seq::new(old_digits.len(), |i: int| old_digits[old_digits.len() - 1 - i]);
            let rev_new = Seq::new(digits@.len(), |i: int| digits@[digits@.len() - 1 - i]);
            assert(rev_new =~= seq![digit_char(d as nat)] + rev_old);
            assert(decimal(m as nat).push(digit_char(d as nat)) + rev_old
                =~= decimal(m as nat) + (seq![digit_char(d as nat)] + rev_old));
        }
    }
    let mut s = String::new();
    push_char(&mut s, ((48 + m) as u8) as char);
    proof {
        assert(decimal(m as nat) == seq![digit_char(m as nat)]);
        assert(((48 + m) as u8) as char == digit_char(m as nat));
    }
    let mut k: usize = digits.len();
    while k > 0
        invariant
            k <= digits@.len(),
            decimal(n as nat) == decimal(m as nat) + Seq::new(digits@.len(), |i: int| digits@[digits@.len() - 1 - i]),
            decimal(m as nat) == seq![digit_char(m as nat)],
            s@ == decimal(m as nat) + Seq::new((digits@.len() - k) as nat, |i: int| digits@[digits@.len() - 1 - i]),
        decreases k,
    {
        k = k - 1;
        let ghost old_s = s@;
        push_char(&mut s, digits[k]);
        proof {
            let a = Seq::new((digits@.len() - k - 1) as nat, |i: int| digits@[digits@.len() - 1 - i]);
            let b = Seq::new((digits@.len() - k) as nat, |i: int| digits@[digits@.len() - 1 - i]);
            assert(b =~= a.push(digits@[k as int]));
            assert(s@ =~= decimal(m as nat) + b);
        }
    }
    proof {
        let b = Seq::new(digits@.len(), |i: int| digits@[digits@.len() - 1 - i]);
        assert(Seq::new((digits@.len() - 0) as nat, |i: int| digits@[digits@.len() - 1 - i]) =~= b);
    }
    s
}

/// Joins the strings of `parts` with `sep` between consecutive ones.
pub open spec fn join(parts: Seq<Seq<char>>, sep: Seq<char>) -> Seq<char>
    decreases parts.len(),
{
    if parts.len() == 0 {
        Seq::empty()
    } else if parts.len() == 1 {
        parts[0]
    } else {
        join(parts.drop_last(), sep) + sep + parts.last()
    }
}

/// `Vec<String>::join(sep)`.
pub fn join_strings(parts: &Vec<String>, sep: &str) -> (r: String)
    ensures
        r@ == join(strs_view(parts@), sep@),
{
    let mut out = String::new();
    let mut i: usize = 0;
    while i < parts.len()
        invariant
            i <= parts.len(),
            out@ == join(strs_view(parts@).take(i as int), sep@),
        decreases parts.len() - i,
    {
        let ghost pv = strs_view(parts@);
        proof {
            assert(pv.take(i + 1).drop_last() =~= pv.take(i as int));
            assert(pv.take(i + 1).last() == parts@[i as int]@);
        }
        if i > 0 {
            push_str(&mut out, sep);
        } else {
            assert(pv.take(1) =~= seq![parts@[0]@]);
        }
        push_str(&mut out, parts[i].as_str());
        i = i + 1;
    }
    assert(strs_view(parts@).take(parts@.len() as int) =~= strs_view(parts@));
    out
}

/// `s` without repeats, each item where it first occurs.
pub open spec fn dedup(s: Seq<Seq<char>>) -> Seq<Seq<char>>
    decreases s.len(),
{
    if s.len() == 0 {
        Seq::empty()
    } else {
        let r = dedup(s.drop_last());
        if r.contains(s.last()) {
            r
        } else {
            r.push(s.last())
        }
    }
}

/// Appends `s` to `v` unless it is already there.
pub fn push_unique(v: &mut Vec<String>, s: &String)
    ensures
        strs_view(final(v)@) == if strs_view(old(v)@).contains(s@) {
            strs_view(old(v)@)
        } else {
            strs_view(old(v)@).push(s@)
        },
{
    match find_str(v, s) {
        Some(i) => {
            proof {
                assert(strs_view(v@)[i as int] == s@);
            }
        },
        None => {
            let ghost before = strs_view(v@);
            proof {
                assert(!before.contains(s@));
            }
            v.push(clone_string(s));
            proof {
                assert(strs_view(v@) =~= before.push(s@));
            }
        },
    }
}

pub proof fn lemma_dedup(s: Seq<Seq<char>>)
    ensures
        dedup(s).no_duplicates(),
        forall|x: Seq<char>| dedup(s).contains(x) <==> s.contains(x),
    decreases s.len(),
{
    if s.len() > 0 {
        lemma_dedup(s.drop_last());
        let r = dedup(s.drop_last());
        assert forall|x: Seq<char>| dedup(s).contains(x) <==> s.contains(x) by {
            lemma_push_contains(r, s.last(), x);
            lemma_push_contains(s.drop_last(), s.last(), x);
            assert(s.drop_last().push(s.last()) =~= s);
        }
        if !r.contains(s.last()) {
            assert(dedup(s).no_duplicates()) by {
                assert forall|a: int, b: int| 0 <= a < dedup(s).len() && 0 <= b < dedup(s).len() && a != b implies dedup(s)[a] != dedup(s)[b] by {
                    if a < r.len() && b < r.len() {
                        assert(r[a] != r[b]);
                    } else if a == r.len() {
                        assert(r.contains(r[b]));
                    } else {
                        assert(r.contains(r[a]));
                    }
                }
            }
        }
    }
}

/// The strings of `v` without repeats, each where it first occurs.
pub fn dedup_strings(v: &Vec<String>) -> (r: Vec<String>)
    ensures
        strs_view(r@) == dedup(strs_view(v@)),
{
    let ghost sv = strs_view(v@);
    let mut out: Vec<String> = Vec::new();
    let mut i: usize = 0;
    proof {
        assert(sv.take(0) =~= Seq::<Seq<char>>::empty());
        assert(strs_view(out@) =~= Seq::<Seq<char>>::empty());
    }
    while i < v.len()
        invariant
            i <= v@.len(),
            sv == strs_view(v@),
            strs_view(out@) == dedup(sv.take(i as int)),
        decreases v@.len() - i,
    {
        proof {
            assert(sv.take(i + 1).drop_last() =~= sv.take(i as int));
            assert(sv.take(i + 1).last() == sv[i as int]);
        }
        push_unique(&mut out, &v[i]);
        i = i + 1;
    }
    proof {
        assert(sv.take(i as int) =~= sv);
    }
    out
}

/// The position of `s` in `v`, if any.
pub fn find_str(v: &Vec<String>, s: &String) -> (r: Option<usize>)
    ensures
        match r {
            Some(i) => i < v@.len() && v@[i as int]@ == s@,
            None => forall|i: int| 0 <= i < v@.len() ==> v@[i]@ != s@,
        },
{
    let mut i: usize = 0;
    while i < v.len()
        invariant
            i <= v@.len(),
            forall|j: int| 0 <= j < i ==> v@[j]@ != s@,
        decreases v@.len() - i,
    {
        if str_eq(v[i].as_str(), s.as_str()) {
            return Some(i);
        }
        i = i + 1;
    }
    None
}

/// Joining two non-empty lists is joining each, with the separator between.
pub proof fn lemma_join_append(a: Seq<Seq<char>>, b: Seq<Seq<char>>, sep: Seq<char>)
    requires
        a.len() > 0,
        b.len() > 0,
    ensures
        join(a + b, sep) == join(a, sep) + sep + join(b, sep),
    decreases b.len(),
{
    assert((a + b).last() == b.last());
    if b.len() == 1 {
        assert((a + b).drop_last() =~= a);
        assert(join(b, sep) == b[0]);
    } else {
        lemma_join_append(a, b.drop_last(), sep);
        assert((a + b).drop_last() =~= a + b.drop_last());
        assert(join(a, sep) + sep + join(b.drop_last(), sep) + sep + b.last() =~= join(a, sep) + sep + (join(
            b.drop_last(),
            sep,
        ) + sep + b.last()));
    }
}

/// A list of at least two parts joins as its first part, the separator and
/// the join of the others.
pub proof fn lemma_join_first(m: Seq<Seq<char>>, sep: Seq<char>)
    requires
        m.len() >= 2,
    ensures
        join(m, sep) == m[0] + sep + join(m.drop_first(), sep),
{
    let h = seq![m[0]];
    lemma_join_append(h, m.drop_first(), sep);
    assert(h + m.drop_first() =~= m);
    assert(join(h, sep) == m[0]);
}

} // verus!
