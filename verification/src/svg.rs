//! A string-based SVG writer: XML escaping, attribute lists in a fixed
//! order, and a builder of nested groups rendered to a document.
use vstd::prelude::*;

use crate::strmap::StrMap;
use crate::text::{clone_string, push_char, push_str, strs_view};

verus! {

// ---------------------------------------------------------------------------
// XML escaping
// ---------------------------------------------------------------------------

/// The escaped form of one character.
pub open spec fn escape_char(c: char) -> Seq<char> {
    if c == '&' {
        seq!['&', 'a', 'm', 'p', ';']
    } else if c == '<' {
        seq!['&', 'l', 't', ';']
    } else if c == '>' {
        seq!['&', 'g', 't', ';']
    } else if c == '"' {
        seq!['&', 'q', 'u', 'o', 't', ';']
    } else if c == '\'' {
        seq!['&', '#', '3', '9', ';']
    } else {
        seq![c]
    }
}

/// `s` with each character replaced by its escaped form.
pub open spec fn escaped(s: Seq<char>) -> Seq<char>
    decreases s.len(),
{
    if s.len() == 0 {
        Seq::empty()
    } else {
        escaped(s.drop_last()) + escape_char(s.last())
    }
}

/// Escapes the five XML special characters of `s`.
pub fn escape_xml(s: &str) -> (r: String)
    ensures
        r@ == escaped(s@),
{
    let n = s.unicode_len();
    let mut out = String::new();
    let mut i: usize = 0;
    while i < n
        invariant
            n == s@.len(),
            i <= n,
            out@ == escaped(s@.take(i as int)),
        decreases n - i,
    {
        let c = s.get_char(i);
        proof {
            assert(s@.take(i + 1).drop_last() =~= s@.take(i as int));
            assert(s@.take(i + 1).last() == c);
        }
        if c == '&' {
            proof { reveal_strlit("&amp;"); }
            push_str(&mut out, "&amp;");
        } else if c == '<' {
            proof { reveal_strlit("&lt;"); }
            push_str(&mut out, "&lt;");
        } else if c == '>' {
            proof { reveal_strlit("&gt;"); }
            push_str(&mut out, "&gt;");
        } else if c == '"' {
            proof { reveal_strlit("&quot;"); }
            push_str(&mut out, "&quot;");
        } else if c == '\'' {
            proof { reveal_strlit("&#39;"); }
            push_str(&mut out, "&#39;");
        } else {
            push_char(&mut out, c);
        }
        i = i + 1;
    }
    assert(s@.take(n as int) =~= s@);
    out
}

/// Escaped text holds no `<`, `>`, `"` or `'`: whatever a label or an
/// attribute value holds, it cannot close a tag or an attribute.
pub proof fn law_escaped_has_no_markup(s: Seq<char>)
    ensures
        forall|i: int|
            0 <= i < escaped(s).len() ==> {
                let c = #[trigger] escaped(s)[i];
                c != '<' && c != '>' && c != '"' && c != '\''
            },
    decreases s.len(),
{
    if s.len() > 0 {
        law_escaped_has_no_markup(s.drop_last());
        let p = escaped(s.drop_last());
        let e = escape_char(s.last());
        assert(escaped(s) == p + e);
        assert forall|i: int| 0 <= i < escaped(s).len() implies {
            let c = #[trigger] escaped(s)[i];
            c != '<' && c != '>' && c != '"' && c != '\''
        } by {
            if i < p.len() {
                assert(escaped(s)[i] == p[i]);
            } else {
                assert(escaped(s)[i] == e[i - p.len()]);
            }
        }
    }
}

// ---------------------------------------------------------------------------
// The order of strings
// ---------------------------------------------------------------------------

/// `a` comes before `b` in the lexicographic order of their characters.
pub open spec fn str_lt(a: Seq<char>, b: Seq<char>) -> bool
    decreases a.len(),
{
    if a.len() == 0 {
        b.len() > 0
    } else if b.len() == 0 {
        false
    } else if a[0] != b[0] {
        a[0] < b[0]
    } else {
        str_lt(a.drop_first(), b.drop_first())
    }
}

/// No string comes before itself, and of two strings at most one comes first.
pub proof fn lemma_str_lt_asym(a: Seq<char>, b: Seq<char>)
    ensures
        !str_lt(a, a),
        str_lt(a, b) ==> !str_lt(b, a),
    decreases a.len(),
{
    if a.len() > 0 {
        lemma_str_lt_asym(a.drop_first(), a.drop_first());
        if b.len() > 0 {
            lemma_str_lt_asym(a.drop_first(), b.drop_first());
        }
    }
}

/// The order is transitive.
pub proof fn lemma_str_lt_trans(a: Seq<char>, b: Seq<char>, c: Seq<char>)
    requires
        str_lt(a, b),
        str_lt(b, c),
    ensures
        str_lt(a, c),
    decreases a.len(),
{
    if a.len() > 0 && b.len() > 0 && c.len() > 0 && a[0] == b[0] && b[0] == c[0] {
        lemma_str_lt_trans(a.drop_first(), b.drop_first(), c.drop_first());
    }
}

/// Of two different strings one comes first.
pub proof fn lemma_str_lt_total(a: Seq<char>, b: Seq<char>)
    requires
        a != b,
    ensures
        str_lt(a, b) || str_lt(b, a),
    decreases a.len(),
{
    if a.len() > 0 && b.len() > 0 && a[0] == b[0] {
        if a.drop_first() == b.drop_first() {
            assert(a =~= seq![a[0]] + a.drop_first());
            assert(b =~= seq![b[0]] + b.drop_first());
        }
        lemma_str_lt_total(a.drop_first(), b.drop_first());
    } else if a.len() == 0 && b.len() == 0 {
        assert(a =~= b);
    } else if a.len() > 0 && b.len() > 0 {
    }
}

/// A common prefix does not decide the order.
proof fn lemma_str_lt_skip(a: Seq<char>, b: Seq<char>, i: int)
    requires
        0 <= i <= a.len(),
        i <= b.len(),
        forall|j: int| 0 <= j < i ==> a[j] == b[j],
    ensures
        str_lt(a, b) == str_lt(a.skip(i), b.skip(i)),
    decreases i,
{
    if i == 0 {
        assert(a.skip(0) =~= a);
        assert(b.skip(0) =~= b);
    } else {
        assert(a[0] == b[0]);
        lemma_str_lt_skip(a.drop_first(), b.drop_first(), i - 1);
        assert(a.drop_first().skip(i - 1) =~= a.skip(i));
        assert(b.drop_first().skip(i - 1) =~= b.skip(i));
    }
}

/// Whether `a` comes before `b` in the order of `String`'s comparison.
pub fn string_less(a: &str, b: &str) -> (r: bool)
    ensures
        r == str_lt(a@, b@),
{
    let n = a.unicode_len();
    let m = b.unicode_len();
    let mut i: usize = 0;
    while i < n && i < m
        invariant
            n == a@.len(),
            m == b@.len(),
            i <= n,
            i <= m,
            forall|j: int| 0 <= j < i ==> a@[j] == b@[j],
        decreases n - i,
    {
        let ca = a.get_char(i);
        let cb = b.get_char(i);
        if ca != cb {
            proof {
                lemma_str_lt_skip(a@, b@, i as int);
                assert(a@.skip(i as int)[0] == ca);
                assert(b@.skip(i as int)[0] == cb);
            }
            return ca < cb;
        }
        i = i + 1;
    }
    proof {
        lemma_str_lt_skip(a@, b@, i as int);
    }
    i == n && i < m
}

/// Every string of `ks` comes before each later one.
pub open spec fn strictly_sorted(ks: Seq<Seq<char>>) -> bool {
    forall|i: int, j: int| 0 <= i < j < ks.len() ==> str_lt(#[trigger] ks[i], #[trigger] ks[j])
}

/// The keys of `m` in increasing order.
pub fn sorted_keys<T>(m: &StrMap<T>) -> (r: Vec<String>)
    ensures
        strictly_sorted(strs_view(r@)),
        forall|k: Seq<char>| strs_view(r@).contains(k) <==> m.key_seq().contains(k),
        forall|k: Seq<char>| m.map().contains_key(k) <==> m.key_seq().contains(k),
{
    let keys = m.keys();
    let ghost ks = strs_view(keys@);
    let mut out: Vec<String> = Vec::new();
    let mut i: usize = 0;
    while i < keys.len()
        invariant
            ks == strs_view(keys@),
            ks == m.key_seq(),
            ks.no_duplicates(),
            i <= keys.len(),
            strictly_sorted(strs_view(out@)),
            forall|k: Seq<char>| strs_view(out@).contains(k) <==> ks.take(i as int).contains(k),
        decreases keys.len() - i,
    {
        let k = &keys[i];
        let ghost kv = k@;
        let ghost ov = strs_view(out@);
        assert(!ov.contains(kv)) by {
            if ov.contains(kv) {
                assert(ks.take(i as int).contains(kv));
                let t = choose|t: int| 0 <= t < i && ks.take(i as int)[t] == kv;
                assert(ks[t] == ks[i as int]);
            }
        }
        let mut j: usize = 0;
        while j < out.len() && !string_less(k.as_str(), out[j].as_str())
            invariant
                ov == strs_view(out@),
                kv == k@,
                j <= out.len(),
                forall|t: int| 0 <= t < j ==> !str_lt(kv, #[trigger] ov[t]),
            decreases out.len() - j,
        {
            j = j + 1;
        }
        let ghost jj = j as int;
        proof {
            assert forall|t: int| 0 <= t < jj implies str_lt(#[trigger] ov[t], kv) by {
                assert(ov[t] != kv) by {
                    assert(ov.contains(ov[t]));
                }
                lemma_str_lt_total(ov[t], kv);
            }
            assert forall|t: int| jj <= t < ov.len() implies str_lt(kv, #[trigger] ov[t]) by {
                if t > jj {
                    lemma_str_lt_trans(kv, ov[jj], ov[t]);
                }
            }
        }
        out.insert(j, clone_string(k));
        proof {
            let nv = strs_view(out@);
            ov.insert_ensures(jj, kv);
            assert(nv =~= ov.insert(jj, kv));
            assert forall|a: int, b: int| 0 <= a < b < nv.len() implies str_lt(#[trigger] nv[a], #[trigger] nv[b]) by {
                if b < jj {
                } else if b == jj {
                } else if a < jj {
                    assert(nv[b] == ov[b - 1]);
                    lemma_str_lt_trans(ov[a], kv, ov[b - 1]);
                } else if a == jj {
                    assert(nv[b] == ov[b - 1]);
                } else {
                    assert(nv[a] == ov[a - 1]);
                    assert(nv[b] == ov[b - 1]);
                }
            }
            assert(ks.take(i + 1) =~= ks.take(i as int).push(kv));
            assert forall|x: Seq<char>| nv.contains(x) <==> ks.take(i + 1).contains(x) by {
                crate::text::lemma_push_contains(ks.take(i as int), kv, x);
                if nv.contains(x) {
                    let t = choose|t: int| 0 <= t < nv.len() && nv[t] == x;
                    if t < jj {
                        assert(ov[t] == x);
                    } else if t > jj {
                        assert(ov[t - 1] == x);
                    }
                }
                if ov.contains(x) {
                    let t = choose|t: int| 0 <= t < ov.len() && ov[t] == x;
                    if t < jj {
                        assert(nv[t] == x);
                    } else {
                        assert(nv[t + 1] == x);
                    }
                }
                if x == kv {
                    assert(nv[jj] == x);
                }
            }
        }
        i = i + 1;
    }
    assert(ks.take(keys@.len() as int) =~= ks);
    out
}

/// Strictly increasing lists with the same members are equal: the order of
/// attributes is fixed by the set of their names.
pub proof fn law_sorted_unique(a: Seq<Seq<char>>, b: Seq<Seq<char>>)
    requires
        strictly_sorted(a),
        strictly_sorted(b),
        forall|k: Seq<char>| a.contains(k) <==> b.contains(k),
    ensures
        a == b,
    decreases a.len() + b.len(),
{
    if a.len() == 0 || b.len() == 0 {
        if a.len() > 0 {
            assert(a.contains(a[0]));
        }
        if b.len() > 0 {
            assert(b.contains(b[0]));
        }
        assert(a =~= b);
    } else {
        let la = a.last();
        let lb = b.last();
        assert(a.contains(la));
        assert(b.contains(lb));
        // the largest members agree
        if la != lb {
            lemma_str_lt_total(la, lb);
            if str_lt(la, lb) {
                let t = choose|t: int| 0 <= t < a.len() && a[t] == lb;
                if t < a.len() - 1 {
                    assert(str_lt(lb, la));
                    lemma_str_lt_asym(la, lb);
                } else {
                    lemma_str_lt_asym(la, la);
                }
            } else {
                let t = choose|t: int| 0 <= t < b.len() && b[t] == la;
                if t < b.len() - 1 {
                    assert(str_lt(la, lb));
                    lemma_str_lt_asym(lb, la);
                } else {
                    lemma_str_lt_asym(lb, lb);
                }
            }
        }
        let a1 = a.drop_last();
        let b1 = b.drop_last();
        assert forall|k: Seq<char>| a1.contains(k) <==> b1.contains(k) by {
            if a1.contains(k) {
                let t = choose|t: int| 0 <= t < a1.len() && a1[t] == k;
                assert(a.contains(k));
                assert(str_lt(k, la));
                lemma_str_lt_asym(k, k);
                let u = choose|u: int| 0 <= u < b.len() && b[u] == k;
                assert(u < b.len() - 1);
                assert(b1[u] == k);
            }
            if b1.contains(k) {
                let t = choose|t: int| 0 <= t < b1.len() && b1[t] == k;
                assert(b.contains(k));
                assert(str_lt(k, lb));
                lemma_str_lt_asym(k, k);
                let u = choose|u: int| 0 <= u < a.len() && a[u] == k;
                assert(u < a.len() - 1);
                assert(a1[u] == k);
            }
        }
        law_sorted_unique(a1, b1);
        assert(a =~= a1.push(la));
        assert(b =~= b1.push(lb));
    }
}


// ---------------------------------------------------------------------------
// Attribute lists
// ---------------------------------------------------------------------------

/// The values of a string map, each by its characters.
pub open spec fn string_values(m: StrMap<String>) -> Map<Seq<char>, Seq<char>> {
    m.map().map_values(|v: String| v@)
}

/// The members of `keys` in increasing order.
pub open spec fn sorted_order(keys: Seq<Seq<char>>) -> Seq<Seq<char>> {
    choose|ks: Seq<Seq<char>>|
        strictly_sorted(ks) && forall|k: Seq<char>| #[trigger] ks.contains(k) <==> keys.contains(k)
}

/// One attribute: a space, the name, `=`, and the escaped value in quotes.
pub open spec fn attr_text(name: Seq<char>, value: Seq<char>) -> Seq<char> {
    " "@ + name + "=\""@ + escaped(value) + "\""@
}

/// The attributes named in `ks`, in that order, with their values in `vals`.
pub open spec fn attr_list(ks: Seq<Seq<char>>, vals: Map<Seq<char>, Seq<char>>) -> Seq<char>
    decreases ks.len(),
{
    if ks.len() == 0 {
        Seq::empty()
    } else {
        attr_list(ks.drop_last(), vals) + attr_text(ks.last(), vals[ks.last()])
    }
}

/// The attribute text of an optional map: its entries sorted by name.
pub open spec fn opt_attrs(opts: Option<StrMap<String>>) -> Seq<char> {
    match opts {
        Some(m) => attr_list(sorted_order(m.key_seq()), string_values(m)),
        None => Seq::empty(),
    }
}

/// The attribute text of `opts`: one ` name="value"` per entry, in
/// increasing order of the names, values escaped.
pub fn attrs(opts: Option<&StrMap<String>>) -> (r: String)
    ensures
        r@ == opt_attrs(match opts {
            Some(m) => Some(*m),
            None => None,
        }),
{
    match opts {
        None => String::new(),
        Some(m) => {
            let ks = sorted_keys(m);
            let ghost kv = strs_view(ks@);
            proof {
                let so = sorted_order(m.key_seq());
                assert(strictly_sorted(so) && forall|k: Seq<char>| #[trigger] so.contains(k) <==> m.key_seq().contains(k));
                law_sorted_unique(kv, so);
            }
            let mut out = String::new();
            let mut i: usize = 0;
            while i < ks.len()
                invariant
                    kv == strs_view(ks@),
                    forall|k: Seq<char>| kv.contains(k) <==> m.key_seq().contains(k),
                    forall|k: Seq<char>| m.map().contains_key(k) <==> m.key_seq().contains(k),
                    i <= ks.len(),
                    out@ == attr_list(kv.take(i as int), string_values(*m)),
                decreases ks.len() - i,
            {
                proof {
                    assert(kv.take(i + 1).drop_last() =~= kv.take(i as int));
                    assert(kv.take(i + 1).last() == ks@[i as int]@);
                    assert(kv.contains(kv[i as int]));
                }
                let v = m.get(ks[i].as_str());
                match v {
                    Some(val) => {
                        push_str(&mut out, " ");
                        push_str(&mut out, ks[i].as_str());
                        push_str(&mut out, "=\"");
                        let e = escape_xml(val.as_str());
                        push_str(&mut out, e.as_str());
                        push_str(&mut out, "\"");
                    },
                    None => {},
                }
                i = i + 1;
            }
            assert(kv.take(ks@.len() as int) =~= kv);
            out
        },
    }
}


/// The attributes an arrow gets unless its options name them.
pub open spec fn arrow_defaults() -> Map<Seq<char>, Seq<char>> {
    map![
        "stroke"@ => "#333"@,
        "stroke-width"@ => "2"@,
        "fill"@ => "none"@,
        "marker-end"@ => "url(#arrowhead)"@,
    ]
}

/// Adds `value` under `key` unless `key` is present.
fn insert_default(m: &mut StrMap<String>, key: &str, value: &str)
    ensures
        string_values(*final(m)) == if string_values(*old(m)).contains_key(key@) {
            string_values(*old(m))
        } else {
            string_values(*old(m)).insert(key@, value@)
        },
{
    if !m.contains_key(key) {
        m.insert(crate::text::string_of(key), crate::text::string_of(value));
        proof {
            assert(string_values(*m) =~= string_values(*old(m)).insert(key@, value@));
        }
    }
}

/// The options of an arrow: those given, and the arrow's defaults for the
/// names they leave out.
pub fn arrow_attrs(opts: Option<StrMap<String>>) -> (r: StrMap<String>)
    ensures
        string_values(r) == arrow_defaults().union_prefer_right(
            match opts {
                Some(m) => string_values(m),
                None => Map::empty(),
            },
        ),
{
    let mut merged = match opts {
        Some(m) => m,
        None => StrMap::new(),
    };
    let ghost m0 = string_values(merged);
    insert_default(&mut merged, "stroke", "#333");
    let ghost m1 = string_values(merged);
    insert_default(&mut merged, "stroke-width", "2");
    let ghost m2 = string_values(merged);
    insert_default(&mut merged, "fill", "none");
    let ghost m3 = string_values(merged);
    insert_default(&mut merged, "marker-end", "url(#arrowhead)");
    proof {
        reveal_strlit("stroke");
        reveal_strlit("stroke-width");
        reveal_strlit("fill");
        reveal_strlit("marker-end");
        let d = arrow_defaults();
        let fin = string_values(merged);
        let target = d.union_prefer_right(m0);
        assert("stroke"@.len() == 6);
        assert("stroke-width"@.len() == 12);
        assert("fill"@.len() == 4);
        assert("marker-end"@.len() == 10);
        assert("stroke"@ != "stroke-width"@);
        assert("stroke"@ != "fill"@);
        assert("stroke"@ != "marker-end"@);
        assert("stroke-width"@ != "fill"@);
        assert("stroke-width"@ != "marker-end"@);
        assert("fill"@ != "marker-end"@);
        assert forall|k: Seq<char>| #[trigger] fin.contains_key(k) <==> target.contains_key(k) by {}
        assert forall|k: Seq<char>| #[trigger] fin.contains_key(k) implies fin[k] == target[k] by {}
        assert(fin =~= target);
    }
    merged
}

// ---------------------------------------------------------------------------
// The builder
// ---------------------------------------------------------------------------

/// The definitions of the arrowhead marker that every document carries.
pub const ARROWHEAD_MARKER: &'static str = "<defs>\n  <marker id=\"arrowhead\" markerWidth=\"7\" markerHeight=\"5\" refX=\"7\" refY=\"2.5\" markerUnits=\"userSpaceOnUse\" orient=\"auto\">\n    <polygon points=\"0 0, 7 2.5, 0 5\" fill=\"#94a3b8\" />\n  </marker>\n</defs>";

/// One piece of a builder's content: finished markup, or a nested group.
pub enum SvgPart {
    Markup(String),
    Group { id: String, transform: Option<String>, parts: Vec<SvgPart> },
}

/// A string-based SVG builder: elements in the order they were added, and
/// nested groups.
pub struct SvgBuilder {
    parts: Vec<SvgPart>,
    group_id: Option<String>,
    transform: Option<String>,
    width: u32,
    height: u32,
}

/// The characters of an optional string.
pub open spec fn opt_view(s: Option<String>) -> Option<Seq<char>> {
    match s {
        Some(t) => Some(t@),
        None => None,
    }
}

/// A `<g>` element: its id and optional transform escaped, then its lines.
pub open spec fn group_text(id: Seq<char>, transform: Option<Seq<char>>, lines: Seq<Seq<char>>) -> Seq<char> {
    "<g id=\""@ + escaped(id) + "\""@ + match transform {
        Some(t) => " transform=\""@ + escaped(t) + "\""@,
        None => Seq::empty(),
    } + ">\n"@ + crate::text::join(lines, "\n"@) + "\n</g>"@
}

/// A `<path>` element.
pub open spec fn path_text(d: Seq<char>, attrs: Seq<char>) -> Seq<char> {
    "<path d=\""@ + d + "\""@ + attrs + " />"@
}

/// A whole document: the root element with the canvas size, the arrowhead
/// marker, then the lines.
pub open spec fn document_text(width: u32, height: u32, lines: Seq<Seq<char>>) -> Seq<char> {
    "<svg xmlns=\"http://www.w3.org/2000/svg\" viewBox=\"0 0 "@ + crate::text::decimal(width as nat)
        + " "@ + crate::text::decimal(height as nat) + "\" width=\""@ + crate::text::decimal(
        width as nat,
    ) + "\" height=\""@ + crate::text::decimal(height as nat) + "\">\n"@ + ARROWHEAD_MARKER@
        + "\n"@ + crate::text::join(lines, "\n"@) + "\n</svg>"@
}

/// The rendered lines of a group's parts.
pub closed spec fn group_lines(p: SvgPart) -> Seq<Seq<char>>
    decreases p, 0nat,
{
    match p {
        SvgPart::Markup(_) => Seq::empty(),
        SvgPart::Group { id, transform, parts } => Seq::new(
            parts@.len(),
            |i: int|
                if 0 <= i < parts@.len() {
                    part_text(parts@[i])
                } else {
                    Seq::empty()
                },
        ),
    }
}

/// The markup that a part renders to.
pub closed spec fn part_text(p: SvgPart) -> Seq<char>
    decreases p, 1nat,
{
    match p {
        SvgPart::Markup(s) => s@,
        SvgPart::Group { id, transform, parts } => group_text(id@, opt_view(transform), group_lines(p)),
    }
}

impl SvgBuilder {
    /// The rendered line of each part, in order.
    pub closed spec fn lines(self) -> Seq<Seq<char>> {
        Seq::new(self.parts@.len(), |i: int| part_text(self.parts@[i]))
    }

    /// The canvas width.
    pub closed spec fn width_v(self) -> u32 {
        self.width
    }

    /// The canvas height.
    pub closed spec fn height_v(self) -> u32 {
        self.height
    }

    /// The id of a group builder.
    pub closed spec fn group_id_v(self) -> Option<Seq<char>> {
        opt_view(self.group_id)
    }

    /// The transform of a group builder.
    pub closed spec fn transform_v(self) -> Option<Seq<char>> {
        opt_view(self.transform)
    }

    /// A root builder with the given canvas size and no content.
    pub fn new(width: u32, height: u32) -> (r: Self)
        ensures
            r.lines() == Seq::<Seq<char>>::empty(),
            r.width_v() == width,
            r.height_v() == height,
            r.group_id_v() == None::<Seq<char>>,
            r.transform_v() == None::<Seq<char>>,
    {
        let r = SvgBuilder { parts: Vec::new(), group_id: None, transform: None, width, height };
        assert(r.lines() =~= Seq::<Seq<char>>::empty());
        r
    }

    /// A group builder with no content.
    fn new_child(width: u32, height: u32, group_id: String, transform: Option<String>) -> (r: Self)
        ensures
            r.lines() == Seq::<Seq<char>>::empty(),
            r.width_v() == width,
            r.height_v() == height,
            r.group_id_v() == Some(group_id@),
            r.transform_v() == opt_view(transform),
    {
        let r = SvgBuilder { parts: Vec::new(), group_id: Some(group_id), transform, width, height };
        assert(r.lines() =~= Seq::<Seq<char>>::empty());
        r
    }

    /// Appends finished markup as the next element.
    pub fn push_element(&mut self, markup: String)
        ensures
            final(self).lines() == old(self).lines().push(markup@),
            final(self).width_v() == old(self).width_v(),
            final(self).height_v() == old(self).height_v(),
            final(self).group_id_v() == old(self).group_id_v(),
            final(self).transform_v() == old(self).transform_v(),
    {
        let ghost m = markup@;
        self.parts.push(SvgPart::Markup(markup));
        assert(self.lines() =~= old(self).lines().push(m));
    }

    /// Adds a `<path>` element with the drawing commands `d`.
    pub fn path(&mut self, d: &str, opts: Option<StrMap<String>>) -> (r: &mut Self)
        ensures
            r.lines() == old(self).lines().push(path_text(d@, opt_attrs(opts))),
            r.width_v() == old(self).width_v(),
            r.height_v() == old(self).height_v(),
            r.group_id_v() == old(self).group_id_v(),
            r.transform_v() == old(self).transform_v(),
            *final(self) == *final(r),
    {
        let a = attrs(match &opts {
            Some(m) => Some(m),
            None => None,
        });
        let mut markup = String::new();
        push_str(&mut markup, "<path d=\"");
        push_str(&mut markup, d);
        push_str(&mut markup, "\"");
        push_str(&mut markup, a.as_str());
        push_str(&mut markup, " />");
        self.push_element(markup);
        self
    }

    /// Adds a `<g>` element with id `id` and optional `transform`, whose
    /// content `f` adds to the builder it is handed.
    pub fn group<F>(&mut self, id: &str, transform: Option<&str>, f: F) -> (r: &mut Self) where
        F: FnOnce(&mut SvgBuilder),

        requires
            forall|b: &mut SvgBuilder| call_requires(f, (b,)),
        ensures
            exists|b0: &mut SvgBuilder|
                #![trigger call_ensures(f, (b0,), ())]
                {
                    &&& b0.lines() == Seq::<Seq<char>>::empty()
                    &&& b0.width_v() == old(self).width_v()
                    &&& b0.height_v() == old(self).height_v()
                    &&& b0.group_id_v() == Some(id@)
                    &&& b0.transform_v() == match transform {
                        Some(t) => Some(t@),
                        None => None::<Seq<char>>,
                    }
                    &&& call_ensures(f, (b0,), ())
                    &&& r.lines() == old(self).lines().push(
                        group_text(id@, b0.transform_v(), final(b0).lines()),
                    )
                },
            r.width_v() == old(self).width_v(),
            r.height_v() == old(self).height_v(),
            r.group_id_v() == old(self).group_id_v(),
            r.transform_v() == old(self).transform_v(),
            *final(self) == *final(r),
    {
        let t: Option<String> = match transform {
            Some(s) => Some(crate::text::string_of(s)),
            None => None,
        };
        let mut child = SvgBuilder::new_child(self.width, self.height, crate::text::string_of(id), t);
        f(&mut child);
        let ghost lines = child.lines();
        let t2: Option<String> = match transform {
            Some(s) => Some(crate::text::string_of(s)),
            None => None,
        };
        let part = SvgPart::Group { id: crate::text::string_of(id), transform: t2, parts: child.parts };
        proof {
            assert(part_text(part) == group_text(id@, opt_view(t2), lines)) by {
                assert(group_lines(part) =~= lines);
            }
        }
        let ghost pt = part_text(part);
        self.parts.push(part);
        assert(self.lines() =~= old(self).lines().push(pt));
        self
    }
}

/// Renders one part.
#[verifier::loop_isolation(false)]
fn part_markup(p: &SvgPart) -> (r: String)
    ensures
        r@ == part_text(*p),
    decreases p,
{
    match p {
        SvgPart::Markup(s) => {
            clone_string(s)
        },
        SvgPart::Group { id, transform, parts } => {
            let mut lines: Vec<String> = Vec::new();
            let mut i: usize = 0;
            while i < parts.len()
                invariant
                    i <= parts@.len(),
                    lines@.len() == i,
                    forall|j: int| 0 <= j < i ==> (#[trigger] lines@[j])@ == part_text(parts@[j]),
                decreases parts@.len() - i,
            {
                proof {
                    assert(decreases_to!(*p => *parts));
                    assert(decreases_to!(*parts => parts@));
                    assert(decreases_to!(parts@ => parts@[i as int]));
                }
                let m = part_markup(&parts[i]);
                lines.push(m);
                i = i + 1;
            }
            let ghost lv = Seq::new(
                parts@.len(),
                |k: int|
                    if 0 <= k < parts@.len() {
                        part_text(parts@[k])
                    } else {
                        Seq::empty()
                    },
            );
            assert(strs_view(lines@) =~= lv);
            let inner = crate::text::join_strings(&lines, "\n");
            let mut out = String::new();
            push_str(&mut out, "<g id=\"");
            let id_text = escape_xml(id.as_str());
            push_str(&mut out, id_text.as_str());
            push_str(&mut out, "\"");
            match transform {
                Some(t) => {
                    push_str(&mut out, " transform=\"");
                    let e = escape_xml(t.as_str());
                    push_str(&mut out, e.as_str());
                    push_str(&mut out, "\"");
                },
                None => {},
            }
            push_str(&mut out, ">\n");
            push_str(&mut out, inner.as_str());
            push_str(&mut out, "\n</g>");
            assert(group_lines(*p) =~= lv);
            assert(out@ =~= group_text(id@, opt_view(*transform), lv));
            out
        },
    }
}

impl SvgBuilder {
    /// The lines of all parts joined by newlines.
    fn render(&self) -> (r: String)
        ensures
            r@ == crate::text::join(self.lines(), "\n"@),
    {
        let mut lines: Vec<String> = Vec::new();
        let mut i: usize = 0;
        while i < self.parts.len()
            invariant
                i <= self.parts@.len(),
                lines@.len() == i,
                forall|j: int| 0 <= j < i ==> (#[trigger] lines@[j])@ == part_text(self.parts@[j]),
            decreases self.parts@.len() - i,
        {
            let m = part_markup(&self.parts[i]);
            lines.push(m);
            i = i + 1;
        }
        assert(strs_view(lines@) =~= self.lines());
        crate::text::join_strings(&lines, "\n")
    }

    /// The full SVG document: namespace, view box and size, the arrowhead
    /// marker definitions, and all elements.
    pub fn to_string(&self) -> (r: String)
        ensures
            r@ == document_text(self.width_v(), self.height_v(), self.lines()),
    {
        let inner = self.render();
        let w = crate::text::usize_to_string(self.width as usize);
        let h = crate::text::usize_to_string(self.height as usize);
        let mut out = String::new();
        push_str(&mut out, "<svg xmlns=\"http://www.w3.org/2000/svg\" viewBox=\"0 0 ");
        push_str(&mut out, w.as_str());
        push_str(&mut out, " ");
        push_str(&mut out, h.as_str());
        push_str(&mut out, "\" width=\"");
        push_str(&mut out, w.as_str());
        push_str(&mut out, "\" height=\"");
        push_str(&mut out, h.as_str());
        push_str(&mut out, "\">\n");
        push_str(&mut out, ARROWHEAD_MARKER);
        push_str(&mut out, "\n");
        push_str(&mut out, inner.as_str());
        push_str(&mut out, "\n</svg>");
        out
    }
}

} // verus!
