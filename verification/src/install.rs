//! Pointing an editor extension's manifest at a local grammar.
use vstd::prelude::*;

use crate::candle::{is_ws, is_ws_exec, lemma_skip_ws, skip_ws};
use crate::codegen::{lemma_next_newline, lines_from, lines_of, next_newline, strip_cr};
use crate::navigate::{chars_of, find_sub, find_sub_exec, lemma_find_sub, split_lines};
use crate::text::{join, lemma_join_append, lemma_join_first, push_char, push_str, string_of, strs_view};

verus! {

/// Whether `pat` occurs in `s`.
pub open spec fn contains_text(s: Seq<char>, pat: Seq<char>) -> bool {
    find_sub(s, pat, 0) is Some
}

/// A line that names the grammar's location: it mentions `grammar` and a
/// URL or the grammar directory.
pub open spec fn grammar_url_line(l: Seq<char>) -> bool {
    contains_text(l, "grammar"@) && (contains_text(l, "http"@) || contains_text(l, "file://"@)
        || contains_text(l, "grammars/mlmd"@))
}

/// The grammar line pointing at `url`, indented like `l`.
pub open spec fn grammar_line(l: Seq<char>, url: Seq<char>) -> Seq<char> {
    l.take(skip_ws(l, 0)) + "grammar = \""@ + url + "\""@
}

/// A line after the update: a grammar location line with an `=` is
/// replaced, any other line kept.
pub open spec fn updated_line(l: Seq<char>, url: Seq<char>) -> Seq<char> {
    if grammar_url_line(l) && contains_text(l, "="@) {
        grammar_line(l, url)
    } else {
        l
    }
}

/// The manifest after the update: each line updated; when no line named
/// the grammar's location, a comment and a grammar line are added.
pub open spec fn updated_manifest(content: Seq<char>, url: Seq<char>) -> Seq<char> {
    let ls = lines_of(content);
    let mapped = Seq::new(ls.len(), |i: int| updated_line(ls[i], url));
    if exists|i: int| 0 <= i < ls.len() && grammar_url_line(#[trigger] ls[i]) {
        join(mapped, "\n"@)
    } else {
        join(mapped.push("\n# grammar URL updated by install command\ngrammar = \""@ + url + "\""@), "\n"@)
    }
}

fn contains_exec(l: &Vec<char>, pat: &str) -> (r: bool)
    ensures
        r == contains_text(l@, pat@),
{
    let p = chars_of(pat);
    find_sub_exec(l, &p).is_some()
}

/// Replaces the grammar URL of an extension manifest with `file_url`.
pub fn update_grammar_url(content: &str, file_url: &str) -> (r: String)
    ensures
        r@ == updated_manifest(content@, file_url@),
{
    let lines = split_lines(content);
    let ghost ls = strs_view(lines@);
    let mut out: Vec<String> = Vec::new();
    let mut found = false;
    let mut i: usize = 0;
    while i < lines.len()
        invariant
            ls == strs_view(lines@),
            i <= lines@.len(),
            strs_view(out@) == Seq::new(i as nat, |k: int| updated_line(ls[k], file_url@)),
            found <==> exists|k: int| 0 <= k < i && grammar_url_line(#[trigger] ls[k]),
        decreases lines@.len() - i,
    {
        let cs = chars_of(lines[i].as_str());
        proof {
            assert(ls[i as int] == lines@[i as int]@);
        }
        let is_url_line = contains_exec(&cs, "grammar") && (contains_exec(&cs, "http") || contains_exec(&cs, "file://")
            || contains_exec(&cs, "grammars/mlmd"));
        let mut nl: String;
        if is_url_line {
            found = true;
            if contains_exec(&cs, "=") {
                let n = cs.len();
                let mut a: usize = 0;
                while a < n && is_ws_exec(cs[a])
                    invariant
                        a <= n,
                        n == cs@.len(),
                        skip_ws(cs@, 0) == skip_ws(cs@, a as int),
                    decreases n - a,
                {
                    a = a + 1;
                }
                proof {
                    lemma_skip_ws(cs@, 0);
                    assert(skip_ws(cs@, a as int) == a);
                }
                nl = String::new();
                let mut q: usize = 0;
                while q < a
                    invariant
                        q <= a <= n,
                        n == cs@.len(),
                        nl@ == cs@.take(q as int),
                    decreases a - q,
                {
                    push_char(&mut nl, cs[q]);
                    assert(nl@ =~= cs@.take(q + 1));
                    q = q + 1;
                }
                push_str(&mut nl, "grammar = \"");
                push_str(&mut nl, file_url);
                push_str(&mut nl, "\"");
            } else {
                nl = crate::text::clone_string(&lines[i]);
            }
        } else {
            nl = crate::text::clone_string(&lines[i]);
        }
        let ghost before = strs_view(out@);
        let ghost nv = nl@;
        assert(nv == updated_line(ls[i as int], file_url@));
        out.push(nl);
        proof {
            assert(strs_view(out@) =~= before.push(nv));
            assert(strs_view(out@) =~= Seq::new((i + 1) as nat, |k: int| updated_line(ls[k], file_url@)));
            if is_url_line {
                assert(grammar_url_line(ls[i as int]));
            }
            assert((exists|k: int| 0 <= k < i + 1 && grammar_url_line(#[trigger] ls[k])) <==> (
                (exists|k: int| 0 <= k < i && grammar_url_line(#[trigger] ls[k])) || grammar_url_line(ls[i as int])));
        }
        i = i + 1;
    }
    if !found {
        let mut extra = string_of("\n# grammar URL updated by install command\ngrammar = \"");
        push_str(&mut extra, file_url);
        push_str(&mut extra, "\"");
        let ghost before = strs_view(out@);
        let ghost ev = extra@;
        out.push(extra);
        assert(strs_view(out@) =~= before.push(ev));
    }
    crate::text::join_strings(&out, "\n")
}

/// Whether `l` holds neither a line break nor a carriage return.
pub open spec fn one_line(l: Seq<char>) -> bool {
    forall|k: int| 0 <= k < l.len() ==> l[k] != '\n' && l[k] != '\r'
}

proof fn lemma_find_sub_at(s: Seq<char>, pat: Seq<char>, p: int, i: int)
    requires
        0 <= i <= p,
        p + pat.len() <= s.len(),
        s.subrange(p, p + pat.len()) == pat,
    ensures
        find_sub(s, pat, i) is Some,
    decreases p - i,
{
    if s.subrange(i, i + pat.len()) != pat {
        lemma_find_sub_at(s, pat, p, i + 1);
    }
}

proof fn lemma_contains_middle(a: Seq<char>, pat: Seq<char>, b: Seq<char>)
    ensures
        contains_text(a + pat + b, pat),
{
    let s = a + pat + b;
    assert(s.subrange(a.len() as int, (a.len() + pat.len()) as int) =~= pat);
    lemma_find_sub_at(s, pat, a.len() as int, 0);
}

proof fn lemma_find_sub_absent(s: Seq<char>, pat: Seq<char>, c: char, i: int)
    requires
        pat.contains(c),
        !s.contains(c),
    ensures
        find_sub(s, pat, i) is None,
    decreases s.len() + 1 - i,
{
    if !(i < 0 || i + pat.len() > s.len()) {
        if s.subrange(i, i + pat.len()) == pat {
            let q = choose|q: int| 0 <= q < pat.len() && pat[q] == c;
            assert(s.subrange(i, i + pat.len())[q] == s[i + q]);
            assert(s.contains(c));
        }
        lemma_find_sub_absent(s, pat, c, i + 1);
    }
}

proof fn lemma_skip_ws_all(s: Seq<char>, i: int)
    requires
        0 <= i <= s.len(),
    ensures
        forall|j: int| i <= j < skip_ws(s, i) ==> is_ws(#[trigger] s[j]),
    decreases s.len() - i,
{
    if i < s.len() && is_ws(s[i]) {
        lemma_skip_ws_all(s, i + 1);
    }
}

proof fn lemma_skip_ws_to(s: Seq<char>, i: int, w: int)
    requires
        0 <= i <= w < s.len(),
        forall|j: int| i <= j < w ==> is_ws(#[trigger] s[j]),
        !is_ws(s[w]),
    ensures
        skip_ws(s, i) == w,
    decreases w - i,
{
    if i < w {
        lemma_skip_ws_to(s, i + 1, w);
    }
}

proof fn lemma_next_newline_at(s: Seq<char>, i: int, j: int)
    requires
        0 <= i <= j <= s.len(),
        forall|k: int| i <= k < j ==> s[k] != '\n',
        j == s.len() || s[j] == '\n',
    ensures
        next_newline(s, i) == j,
    decreases j - i,
{
    if i < j {
        lemma_next_newline_at(s, i + 1, j);
    }
}

proof fn lemma_lines_join(s: Seq<char>, i: int, m: Seq<Seq<char>>)
    requires
        0 <= i <= s.len(),
        s.subrange(i, s.len() as int) == join(m, "\n"@),
        forall|q: int| 0 <= q < m.len() ==> one_line(#[trigger] m[q]),
        m.len() == 0 || m.last().len() > 0,
    ensures
        lines_from(s, i) == m,
    decreases m.len(),
{
    reveal_strlit("\n");
    if m.len() == 0 {
        assert(s.subrange(i, s.len() as int).len() == 0);
    } else if m.len() == 1 {
        assert(one_line(m[0]));
        assert forall|k: int| i <= k < s.len() implies s[k] != '\n' by {
            assert(s[k] == s.subrange(i, s.len() as int)[k - i]);
        }
        lemma_next_newline_at(s, i, s.len() as int);
    } else {
        let rest = m.drop_first();
        lemma_join_first(m, "\n"@);
        let k = i + m[0].len();
        assert(s.subrange(i, s.len() as int).len() == m[0].len() + 1 + join(rest, "\n"@).len());
        assert(one_line(m[0]));
        assert forall|q: int| i <= q < k implies s[q] != '\n' by {
            assert(s[q] == s.subrange(i, s.len() as int)[q - i]);
        }
        assert(s[k] == s.subrange(i, s.len() as int)[k - i]);
        lemma_next_newline_at(s, i, k);
        assert(s.subrange(i, k) =~= m[0]);
        assert(strip_cr(m[0]) == m[0]);
        assert(s.subrange(k + 1, s.len() as int) =~= join(rest, "\n"@)) by {
            let jr = join(rest, "\n"@);
            assert forall|j: int| 0 <= j < jr.len() implies s.subrange(k + 1, s.len() as int)[j] == jr[j] by {
                assert(s.subrange(k + 1, s.len() as int)[j] == s[k + 1 + j]);
                assert(s[k + 1 + j] == s.subrange(i, s.len() as int)[m[0].len() + 1 + j]);
                assert((m[0] + "\n"@ + jr)[m[0].len() + 1 + j] == jr[j]);
            }
        }
        assert forall|q: int| 0 <= q < rest.len() implies one_line(#[trigger] rest[q]) by {
            assert(rest[q] == m[q + 1]);
        }
        lemma_lines_join(s, k + 1, rest);
        assert(lines_from(s, i) =~= m);
    }
}

proof fn lemma_lines_clean(s: Seq<char>, i: int)
    requires
        0 <= i,
        forall|k: int| 0 <= k < s.len() ==> s[k] != '\r',
    ensures
        forall|q: int| 0 <= q < lines_from(s, i).len() ==> one_line(#[trigger] lines_from(s, i)[q]),
    decreases s.len() - i,
{
    if i < s.len() {
        let k = next_newline(s, i);
        lemma_next_newline(s, i);
        let l = s.subrange(i, k);
        if k < s.len() {
            lemma_lines_clean(s, k + 1);
            assert(one_line(strip_cr(l)));
            let ls = lines_from(s, i);
            assert(ls == seq![strip_cr(l)] + lines_from(s, k + 1));
            assert forall|q: int| 0 <= q < ls.len() implies one_line(#[trigger] ls[q]) by {
                if q > 0 {
                    assert(ls[q] == lines_from(s, k + 1)[q - 1]);
                }
            }
        } else {
            assert(one_line(s.subrange(i, s.len() as int)));
        }
    }
}

proof fn lemma_updated_line(l: Seq<char>, url: Seq<char>)
    requires
        one_line(l),
        one_line(url),
        contains_text(url, "file://"@),
    ensures
        one_line(updated_line(l, url)),
        grammar_url_line(updated_line(l, url)) == grammar_url_line(l),
        updated_line(updated_line(l, url), url) == updated_line(l, url),
        l.len() > 0 ==> updated_line(l, url).len() > 0,
{
    if grammar_url_line(l) && contains_text(l, "="@) {
        reveal_strlit("grammar = \"");
        reveal_strlit("\"");
        reveal_strlit("grammar");
        reveal_strlit("=");
        reveal_strlit(" = \"");
        reveal_strlit("grammar ");
        reveal_strlit(" \"");
        reveal_strlit("file://");
        let w = skip_ws(l, 0);
        lemma_skip_ws(l, 0);
        lemma_skip_ws_all(l, 0);
        let ind = l.take(w);
        let g = grammar_line(l, url);
        assert(one_line(g));
        lemma_contains_middle(ind, "grammar"@, " = \""@ + url + "\""@);
        assert(g =~= ind + "grammar"@ + (" = \""@ + url + "\""@));
        lemma_contains_middle(ind + "grammar "@, "="@, " \""@ + url + "\""@);
        assert(g =~= ind + "grammar "@ + "="@ + (" \""@ + url + "\""@));
        lemma_find_sub(url, "file://"@, 0);
        let f = find_sub(url, "file://"@, 0)->0;
        let p = w + 11 + f;
        assert(g.subrange(p, p + 7) =~= url.subrange(f, f + 7));
        lemma_find_sub_at(g, "file://"@, p, 0);
        assert forall|j: int| 0 <= j < w implies is_ws(#[trigger] g[j]) by {
            assert(g[j] == l[j]);
        }
        assert(g[w] == 'g');
        lemma_skip_ws_to(g, 0, w);
        assert(g.take(w) =~= ind);
    }
}

/// Updating the grammar URL a second time with the same URL changes nothing,
/// for a manifest without carriage returns or a trailing empty line and a
/// `file://` URL on one line.
pub proof fn law_grammar_update_idempotent(content: Seq<char>, url: Seq<char>)
    requires
        forall|k: int| 0 <= k < content.len() ==> content[k] != '\r',
        lines_of(content).len() == 0 || lines_of(content).last().len() > 0,
        one_line(url),
        contains_text(url, "file://"@),
    ensures
        updated_manifest(updated_manifest(content, url), url) == updated_manifest(content, url),
{
    reveal_strlit("\n");
    let ls = lines_of(content);
    lemma_lines_clean(content, 0);
    let mapped = Seq::new(ls.len(), |i: int| updated_line(ls[i], url));
    assert forall|q: int| 0 <= q < mapped.len() implies one_line(#[trigger] mapped[q]) && grammar_url_line(mapped[q])
        == grammar_url_line(ls[q]) && updated_line(mapped[q], url) == mapped[q] by {
        assert(one_line(ls[q]));
        lemma_updated_line(ls[q], url);
    }
    if ls.len() > 0 {
        lemma_updated_line(ls.last(), url);
        assert(mapped.last() == updated_line(ls.last(), url));
    }
    let first = updated_manifest(content, url);
    if exists|i: int| 0 <= i < ls.len() && grammar_url_line(#[trigger] ls[i]) {
        assert(first == join(mapped, "\n"@));
        assert(first.subrange(0, first.len() as int) =~= first);
        lemma_lines_join(first, 0, mapped);
        let i0 = choose|i: int| 0 <= i < ls.len() && grammar_url_line(#[trigger] ls[i]);
        assert(grammar_url_line(mapped[i0]));
        let again = Seq::new(mapped.len(), |i: int| updated_line(mapped[i], url));
        assert(again =~= mapped);
    } else {
        let cmt = "# grammar URL updated by install command"@;
        let gl = "grammar = \""@ + url + "\""@;
        reveal_strlit("# grammar URL updated by install command");
        reveal_strlit("\n# grammar URL updated by install command\ngrammar = \"");
        reveal_strlit("grammar = \"");
        reveal_strlit("\"");
        let extra = "\n# grammar URL updated by install command\ngrammar = \""@ + url + "\""@;
        let tail = seq![Seq::<char>::empty(), cmt, gl];
        let m = mapped + tail;
        reveal_strlit(" = \"");
        reveal_strlit("grammar ");
        reveal_strlit(" \"");
        reveal_strlit("grammar");
        reveal_strlit("=");
        reveal_strlit("file://");
        assert(join(tail, "\n"@) =~= extra) by {
            assert(tail.drop_last().drop_last() =~= seq![Seq::<char>::empty()]);
            assert(tail.drop_last() =~= seq![Seq::<char>::empty(), cmt]);
            assert(join(tail.drop_last().drop_last(), "\n"@) == Seq::<char>::empty());
            assert(join(tail.drop_last(), "\n"@) == Seq::<char>::empty() + "\n"@ + cmt);
            assert(join(tail, "\n"@) == Seq::<char>::empty() + "\n"@ + cmt + "\n"@ + gl);
        }
        if mapped.len() > 0 {
            lemma_join_append(mapped, tail, "\n"@);
            assert(mapped.push(extra).drop_last() =~= mapped);
        } else {
            assert(m =~= tail);
            assert(mapped.push(extra) =~= seq![extra]);
        }
        assert(first == join(m, "\n"@));
        assert(one_line(cmt));
        assert(one_line(gl));
        assert forall|q: int| 0 <= q < m.len() implies one_line(#[trigger] m[q]) by {
            if q < mapped.len() {
                assert(m[q] == mapped[q]);
            }
        }
        assert(first.subrange(0, first.len() as int) =~= first);
        lemma_lines_join(first, 0, m);
        // the appended grammar line names a file URL
        lemma_contains_middle(Seq::empty(), "grammar"@, " = \""@ + url + "\""@);
        assert(gl =~= Seq::<char>::empty() + "grammar"@ + (" = \""@ + url + "\""@));
        assert(grammar_url_line(gl)) by {
            lemma_find_sub(url, "file://"@, 0);
            let f = find_sub(url, "file://"@, 0)->0;
            assert(gl.subrange(11 + f, 18 + f) =~= url.subrange(f, f + 7));
            lemma_find_sub_at(gl, "file://"@, 11 + f, 0);
        }
        assert(m[m.len() - 1] == gl);
        // the comment line names no URL
        reveal_strlit("http");
        reveal_strlit("file://");
        reveal_strlit("grammars/mlmd");
        assert(!cmt.contains('h')) by {
            assert forall|k: int| 0 <= k < cmt.len() implies cmt[k] != 'h' by {}
        }
        assert(!cmt.contains('f')) by {
            assert forall|k: int| 0 <= k < cmt.len() implies cmt[k] != 'f' by {}
        }
        assert(!cmt.contains('/')) by {
            assert forall|k: int| 0 <= k < cmt.len() implies cmt[k] != '/' by {}
        }
        assert("http"@[0] == 'h');
        assert("file://"@[0] == 'f');
        assert("grammars/mlmd"@[8] == '/');
        lemma_find_sub_absent(cmt, "http"@, 'h', 0);
        lemma_find_sub_absent(cmt, "file://"@, 'f', 0);
        lemma_find_sub_absent(cmt, "grammars/mlmd"@, '/', 0);
        assert(!grammar_url_line(cmt));
        assert(!grammar_url_line(Seq::<char>::empty()));
        // the appended grammar line is already in its updated form
        lemma_contains_middle("grammar "@, "="@, " \""@ + url + "\""@);
        assert(gl =~= "grammar "@ + "="@ + (" \""@ + url + "\""@));
        assert(gl[0] == 'g');
        lemma_skip_ws_to(gl, 0, 0);
        assert(updated_line(gl, url) =~= gl);
        let again = Seq::new(m.len(), |i: int| updated_line(m[i], url));
        assert forall|q: int| 0 <= q < m.len() implies again[q] == m[q] by {
            if q < mapped.len() {
                assert(m[q] == mapped[q]);
                assert(!grammar_url_line(ls[q]));
            } else if q == mapped.len() {
                assert(m[q] == Seq::<char>::empty());
            } else if q == mapped.len() + 1 {
                assert(m[q] == cmt);
            }
        }
        assert(again =~= m);
    }
}

} // verus!
