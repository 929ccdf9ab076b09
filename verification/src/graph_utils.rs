//! Orderings of a graph's blocks.
use vstd::prelude::*;

use crate::graph::{Block, BlockV, Edge, EdgeV, Graph, GraphV, blocks_view, edges_view};
use crate::strmap::StrMap;
use crate::text::{clone_string, str_eq, strs_view};

verus! {

/// The ids of the blocks, in order.
pub open spec fn ids_of(bs: Seq<BlockV>) -> Seq<Seq<char>> {
    Seq::new(bs.len(), |i: int| bs[i].id)
}

/// Whether `order` lists each of `ids` once and puts the source of every
/// edge before its destination.
pub open spec fn is_topo_order(ids: Seq<Seq<char>>, es: Seq<EdgeV>, order: Seq<Seq<char>>) -> bool {
    &&& order.len() == ids.len()
    &&& order.no_duplicates()
    &&& forall|x: Seq<char>| order.contains(x) <==> ids.contains(x)
    &&& edges_forward(es, order)
}

/// Whether the source of every edge stands before its destination in `order`.
#[verifier::opaque]
pub open spec fn edges_forward(es: Seq<EdgeV>, order: Seq<Seq<char>>) -> bool {
    forall|k: int, i: int, j: int|
        #![trigger es[k], order[i], order[j]]
        0 <= k < es.len() && 0 <= i < order.len() && 0 <= j < order.len() && order[i] == es[k].from
            && order[j] == es[k].to ==> i < j
}

/// A topological order exists only for distinct ids.
pub proof fn lemma_order_needs_distinct(ids: Seq<Seq<char>>, es: Seq<EdgeV>, order: Seq<Seq<char>>)
    requires
        is_topo_order(ids, es, order),
    ensures
        ids.no_duplicates(),
{
    order.unique_seq_to_set();
    assert(order.to_set() =~= ids.to_set()) by {
        assert forall|x: Seq<char>| order.to_set().contains(x) <==> ids.to_set().contains(x) by {
            assert(order.contains(x) <==> ids.contains(x));
        }
    }
    ids.lemma_cardinality_of_set();
    if !ids.no_duplicates() {
        let (a, b) = choose|a: int, b: int| 0 <= a < ids.len() && 0 <= b < ids.len() && a != b && ids[a] == ids[b];
        let (lo, hi) = if a < b { (a, b) } else { (b, a) };
        let rest = ids.remove(hi);
        assert(rest.to_set() =~= ids.to_set()) by {
            assert forall|x: Seq<char>| ids.to_set().contains(x) implies rest.to_set().contains(x) by {
                let m = choose|m: int| 0 <= m < ids.len() && ids[m] == x;
                if m == hi {
                    assert(rest[lo] == x);
                } else if m < hi {
                    assert(rest[m] == x);
                } else {
                    assert(rest[m - 1] == x);
                }
            }
            assert forall|x: Seq<char>| rest.to_set().contains(x) implies ids.to_set().contains(x) by {
                let m = choose|m: int| 0 <= m < rest.len() && rest[m] == x;
                if m < hi {
                    assert(ids[m] == x);
                } else {
                    assert(ids[m + 1] == x);
                }
            }
        }
        rest.lemma_cardinality_of_set();
    }
}

/// Edges resolved to block indices: `pairs[r]` is `(a, b)` for an edge from
/// block `a` to block `b`, and every edge between known blocks is there.
pub open spec fn resolves(ids: Seq<Seq<char>>, es: Seq<EdgeV>, pairs: Seq<(usize, usize)>) -> bool {
    &&& forall|r: int|
        0 <= r < pairs.len() ==> {
            &&& (#[trigger] pairs[r]).0 < ids.len()
            &&& pairs[r].1 < ids.len()
            &&& exists|k: int|
                0 <= k < es.len() && es[k].from == ids[pairs[r].0 as int] && es[k].to == ids[pairs[r].1 as int]
        }
    &&& forall|k: int, a: int, b: int|
        #![trigger es[k], ids[a], ids[b]]
        0 <= k < es.len() && 0 <= a < ids.len() && 0 <= b < ids.len() && es[k].from == ids[a]
            && es[k].to == ids[b] ==> exists|r: int|
            0 <= r < pairs.len() && pairs[r] == (a as usize, b as usize)
}

/// No order exists once every remaining block waits on a remaining block.
/// Block `v` has an edge from a block that is not placed.
pub open spec fn waits_on_unplaced(ids: Seq<Seq<char>>, es: Seq<EdgeV>, placed: Seq<bool>, v: int) -> bool {
    exists|a: int, k: int|
        0 <= a < ids.len() && !placed[a] && 0 <= k < es.len() && es[k].from == ids[a] && es[k].to == ids[v]
}

/// Every remaining block waits on an edge from a remaining block.
pub open spec fn stuck(ids: Seq<Seq<char>>, es: Seq<EdgeV>, placed: Seq<bool>) -> bool {
    forall|v: int| 0 <= v < ids.len() && !placed[v] ==> #[trigger] waits_on_unplaced(ids, es, placed, v)
}

/// Node `w` has a pair from a node that is not placed.
pub open spec fn pending(pairs: Seq<(usize, usize)>, placed: Seq<bool>, w: int) -> bool {
    exists|q: int| 0 <= q < pairs.len() && pairs[q].1 == w && !placed[pairs[q].0 as int]
}

proof fn lemma_stuck_no_order(
    ids: Seq<Seq<char>>,
    es: Seq<EdgeV>,
    placed: Seq<bool>,
    order: Seq<Seq<char>>,
    j: int,
    u: int,
)
    requires
        placed.len() == ids.len(),
        stuck(ids, es, placed),
        forall|a: int| 0 <= a < ids.len() ==> order.contains(#[trigger] ids[a]),
        0 <= u < ids.len(),
        !placed[u],
        0 <= j < order.len(),
        order[j] == ids[u],
    ensures
        !edges_forward(es, order),
    decreases j,
{
    if edges_forward(es, order) {
        assert(waits_on_unplaced(ids, es, placed, u));
        let (a, k) = choose|a: int, k: int|
            0 <= a < ids.len() && !placed[a] && 0 <= k < es.len() && es[k].from == ids[a] && es[k].to
                == ids[u];
        assert(order.contains(ids[a]));
        let i = choose|i: int| 0 <= i < order.len() && order[i] == ids[a];
        assert(i < j) by {
            reveal(edges_forward);
        }
        lemma_stuck_no_order(ids, es, placed, order, i, a);
    }
}

/// The ids of the blocks, in order.
pub fn block_ids(blocks: &[Block]) -> (r: Vec<String>)
    ensures
        strs_view(r@) == ids_of(blocks_view(blocks@)),
{
    let mut out: Vec<String> = Vec::new();
    let mut i: usize = 0;
    while i < blocks.len()
        invariant
            i <= blocks@.len(),
            strs_view(out@) == ids_of(blocks_view(blocks@)).take(i as int),
        decreases blocks@.len() - i,
    {
        let ghost before = strs_view(out@);
        out.push(clone_string(&blocks[i].id));
        proof {
            assert(strs_view(out@) =~= before.push(blocks@[i as int].id@));
            assert(ids_of(blocks_view(blocks@)).take(i + 1) =~= ids_of(blocks_view(blocks@)).take(i as int).push(blocks@[i as int].id@));
        }
        i = i + 1;
    }
    proof {
        assert(ids_of(blocks_view(blocks@)).take(i as int) =~= ids_of(blocks_view(blocks@)));
    }
    out
}

/// The position of `id` in `ids`, if any.
pub fn find_id(ids: &Vec<String>, id: &String) -> (r: Option<usize>)
    ensures
        match r {
            Some(i) => i < ids@.len() && ids@[i as int]@ == id@,
            None => forall|i: int| 0 <= i < ids@.len() ==> ids@[i]@ != id@,
        },
{
    let mut i: usize = 0;
    while i < ids.len()
        invariant
            i <= ids@.len(),
            forall|j: int| 0 <= j < i ==> ids@[j]@ != id@,
        decreases ids@.len() - i,
    {
        if str_eq(ids[i].as_str(), id.as_str()) {
            return Some(i);
        }
        i = i + 1;
    }
    None
}

/// Whether two of the blocks share an id.
fn has_duplicate_ids(blocks: &[Block]) -> (r: bool)
    ensures
        r == !ids_of(blocks_view(blocks@)).no_duplicates(),
{
    let ghost ids = ids_of(blocks_view(blocks@));
    let n = blocks.len();
    let mut i: usize = 0;
    while i < n
        invariant
            n == blocks@.len(),
            ids == ids_of(blocks_view(blocks@)),
            i <= n,
            forall|a: int, b: int| 0 <= a < b < n && a < i ==> ids[a] != ids[b],
        decreases n - i,
    {
        let mut j: usize = i + 1;
        while j < n
            invariant
                n == blocks@.len(),
                ids == ids_of(blocks_view(blocks@)),
                i < j <= n,
                forall|a: int, b: int| 0 <= a < b < n && a < i ==> ids[a] != ids[b],
                forall|b: int| i < b < j ==> ids[i as int] != ids[b],
            decreases n - j,
        {
            if str_eq(blocks[i].id.as_str(), blocks[j].id.as_str()) {
                assert(ids[i as int] == ids[j as int]);
                return true;
            }
            j = j + 1;
        }
        i = i + 1;
    }
    assert(ids.no_duplicates()) by {
        assert forall|a: int, b: int| 0 <= a < ids.len() && 0 <= b < ids.len() && a != b implies ids[a] != ids[b] by {
            if a > b {
                assert(ids[b] != ids[a]);
            }
        }
    }
    false
}

/// The edges between known ids, as pairs of indices into `idv`, in order.
pub fn resolve_edges(idv: &Vec<String>, edges: &[Edge]) -> (pairs: Vec<(usize, usize)>)
    requires
        strs_view(idv@).no_duplicates(),
    ensures
        resolves(strs_view(idv@), edges_view(edges@), pairs@),
{
    let ghost ids = strs_view(idv@);
    let ghost es = edges_view(edges@);
    let mut pairs: Vec<(usize, usize)> = Vec::new();
    let mut k: usize = 0;
    while k < edges.len()
        invariant
            ids == strs_view(idv@),
            es == edges_view(edges@),
            ids.no_duplicates(),
            k <= edges@.len(),
            forall|r: int|
                0 <= r < pairs@.len() ==> {
                    &&& (#[trigger] pairs@[r]).0 < ids.len()
                    &&& pairs@[r].1 < ids.len()
                    &&& exists|kk: int|
                        0 <= kk < es.len() && es[kk].from == ids[pairs@[r].0 as int] && es[kk].to
                            == ids[pairs@[r].1 as int]
                },
            forall|kk: int, a: int, b: int|
                #![trigger es[kk], ids[a], ids[b]]
                0 <= kk < k && 0 <= a < ids.len() && 0 <= b < ids.len() && es[kk].from == ids[a]
                    && es[kk].to == ids[b] ==> exists|r: int|
                    0 <= r < pairs@.len() && pairs@[r] == (a as usize, b as usize),
        decreases edges@.len() - k,
    {
        let e = &edges[k];
        let fi = find_id(idv, &e.from);
        let ti = find_id(idv, &e.to);
        let ghost p0 = pairs@;
        match (fi, ti) {
            (Some(a), Some(b)) => {
                pairs.push((a, b));
                proof {
                    assert(pairs@[p0.len() as int] == (a, b));
                    assert(ids[a as int] == es[k as int].from);
                    assert forall|kk: int, x: int, y: int|
                        #![trigger es[kk], ids[x], ids[y]]
                        0 <= kk < k + 1 && 0 <= x < ids.len() && 0 <= y < ids.len() && es[kk].from == ids[x]
                            && es[kk].to == ids[y] implies exists|r: int|
                            0 <= r < pairs@.len() && pairs@[r] == (x as usize, y as usize) by {
                        if kk < k {
                            let r = choose|r: int| 0 <= r < p0.len() && p0[r] == (x as usize, y as usize);
                            assert(pairs@[r] == p0[r]);
                        } else {
                            assert(ids[x] == ids[a as int]);
                            assert(ids[y] == ids[b as int]);
                            assert(x == a as int);
                            assert(y == b as int);
                            assert(pairs@[p0.len() as int] == (x as usize, y as usize));
                        }
                    }
                    assert forall|r: int| 0 <= r < pairs@.len() implies {
                        &&& (#[trigger] pairs@[r]).0 < ids.len()
                        &&& pairs@[r].1 < ids.len()
                        &&& exists|kk: int|
                            0 <= kk < es.len() && es[kk].from == ids[pairs@[r].0 as int] && es[kk].to
                                == ids[pairs@[r].1 as int]
                    } by {
                        if r < p0.len() {
                            assert(pairs@[r] == p0[r]);
                        } else {
                            assert(es[k as int].from == ids[pairs@[r].0 as int]);
                        }
                    }
                }
            },
            _ => {
                proof {
                    assert forall|kk: int, x: int, y: int|
                        #![trigger es[kk], ids[x], ids[y]]
                        0 <= kk < k + 1 && 0 <= x < ids.len() && 0 <= y < ids.len() && es[kk].from == ids[x]
                            && es[kk].to == ids[y] implies exists|r: int|
                            0 <= r < pairs@.len() && pairs@[r] == (x as usize, y as usize) by {
                        if kk == k {
                            assert(idv@[x]@ == ids[x]);
                            assert(idv@[y]@ == ids[y]);
                        }
                    }
                }
            },
        }
        k = k + 1;
    }
    pairs
}

/// What taking ready nodes gives: distinct nodes below `n`, each after the
/// sources of its edges; `placed` marks them.
pub open spec fn kahn_ok(n: nat, pairs: Seq<(usize, usize)>, result: Seq<usize>, placed: Seq<bool>) -> bool {
    &&& placed.len() == n
    &&& result.len() <= n
    &&& result.no_duplicates()
    &&& forall|p: int| 0 <= p < result.len() ==> (#[trigger] result[p]) < n
    &&& forall|v: int| 0 <= v < n ==> (placed[v] <==> result.contains(v as usize))
    &&& forall|r: int|
        0 <= r < pairs.len() && placed[(#[trigger] pairs[r]).1 as int] ==> placed[pairs[r].0 as int]
    &&& forall|r: int, p: int, q: int|
        #![trigger pairs[r], result[p], result[q]]
        0 <= r < pairs.len() && 0 <= p < result.len() && 0 <= q < result.len() && result[p] == pairs[r].0
            && result[q] == pairs[r].1 ==> p < q
}

/// Repeatedly takes every node whose incoming pairs all come from taken
/// nodes, until a pass takes none.
pub fn take_ready(n: usize, pairs: &Vec<(usize, usize)>) -> (r: (Vec<usize>, Vec<bool>))
    requires
        forall|r: int| 0 <= r < pairs@.len() ==> (#[trigger] pairs@[r]).0 < n && pairs@[r].1 < n,
    ensures
        kahn_ok(n as nat, pairs@, r.0@, r.1@),
        forall|w: int| 0 <= w < n && !r.1@[w] ==> #[trigger] pending(pairs@, r.1@, w),
{
    let mut placed: Vec<bool> = Vec::new();
    let mut v0: usize = 0;
    while v0 < n
        invariant
            v0 <= n,
            placed@.len() == v0,
            forall|v: int| 0 <= v < v0 ==> !placed@[v],
        decreases n - v0,
    {
        placed.push(false);
        v0 = v0 + 1;
    }
    let mut result: Vec<usize> = Vec::new();
    loop
        invariant
            forall|r: int| 0 <= r < pairs@.len() ==> (#[trigger] pairs@[r]).0 < n && pairs@[r].1 < n,
            kahn_ok(n as nat, pairs@, result@, placed@),
        ensures
            kahn_ok(n as nat, pairs@, result@, placed@),
            forall|w: int| 0 <= w < n && !placed@[w] ==> #[trigger] pending(pairs@, placed@, w),
        decreases n - result@.len(),
    {
        let start_len = result.len();
        let mut v: usize = 0;
        while v < n
            invariant
                forall|r: int| 0 <= r < pairs@.len() ==> (#[trigger] pairs@[r]).0 < n && pairs@[r].1 < n,
                kahn_ok(n as nat, pairs@, result@, placed@),
                start_len <= result@.len(),
                v <= n,
                result@.len() == start_len ==> forall|w: int|
                    0 <= w < v && !placed@[w] ==> #[trigger] pending(pairs@, placed@, w),
            decreases n - v,
        {
            if !placed[v] {
                let mut ready = true;
                let mut r: usize = 0;
                while r < pairs.len()
                    invariant
                        placed@.len() == n,
                        v < n,
                        r <= pairs@.len(),
                        ready ==> forall|rr: int|
                            0 <= rr < r && (#[trigger] pairs@[rr]).1 == v ==> placed@[pairs@[rr].0 as int],
                        !ready ==> pending(pairs@, placed@, v as int),
                        forall|rr: int| 0 <= rr < pairs@.len() ==> (#[trigger] pairs@[rr]).0 < n && pairs@[rr].1 < n,
                    decreases pairs@.len() - r,
                {
                    let (a, b) = pairs[r];
                    if b == v && !placed[a] {
                        ready = false;
                    }
                    r = r + 1;
                }
                if ready {
                    let ghost res0 = result@;
                    let ghost pl0 = placed@;
                    proof {
                        assert(!res0.contains(v));
                        lemma_len_bound(res0, n as int, v as int);
                    }
                    result.push(v);
                    placed.set(v, true);
                    proof {
                        lemma_place(n as nat, pairs@, res0, pl0, v);
                    }
                }
            }
            v = v + 1;
        }
        if result.len() == start_len {
            break;
        }
    }
    (result, placed)
}

proof fn lemma_place(n: nat, pairs: Seq<(usize, usize)>, res0: Seq<usize>, pl0: Seq<bool>, v: usize)
    requires
        n <= usize::MAX,
        forall|r: int| 0 <= r < pairs.len() ==> (#[trigger] pairs[r]).0 < n && pairs[r].1 < n,
        kahn_ok(n, pairs, res0, pl0),
        res0.len() < n,
        v < n,
        !pl0[v as int],
        forall|rr: int| 0 <= rr < pairs.len() && (#[trigger] pairs[rr]).1 == v ==> pl0[pairs[rr].0 as int],
    ensures
        kahn_ok(n, pairs, res0.push(v), pl0.update(v as int, true)),
{
    let result = res0.push(v);
    let placed = pl0.update(v as int, true);
    assert forall|w: int| 0 <= w < n implies (placed[w] <==> result.contains(w as usize)) by {
        if w == v as int {
            assert(result[res0.len() as int] == v);
        } else {
            assert(w as usize != v);
            if result.contains(w as usize) {
                let p = choose|p: int| 0 <= p < result.len() && result[p] == w as usize;
                assert(p < res0.len());
                assert(res0[p] == w as usize);
            }
            if res0.contains(w as usize) {
                let p = choose|p: int| 0 <= p < res0.len() && res0[p] == w as usize;
                assert(result[p] == w as usize);
            }
        }
    }
    assert forall|r: int| 0 <= r < pairs.len() && placed[(#[trigger] pairs[r]).1 as int] implies placed[pairs[r].0 as int] by {
        if pairs[r].1 == v {
            assert(pl0[pairs[r].0 as int]);
        } else {
            assert(placed[pairs[r].1 as int] == pl0[pairs[r].1 as int]);
            assert(pl0[pairs[r].0 as int]);
        }
    }
    assert forall|r: int, p: int, q: int|
        #![trigger pairs[r], result[p], result[q]]
        0 <= r < pairs.len() && 0 <= p < result.len() && 0 <= q < result.len() && result[p] == pairs[r].0
            && result[q] == pairs[r].1 implies p < q by {
        if q == res0.len() {
            if p == res0.len() {
                assert(pl0[pairs[r].0 as int]);
                assert(res0.contains(v));
            } else {
                assert(res0[p] == pairs[r].0);
            }
        } else if p == res0.len() {
            assert(res0[q] == pairs[r].1);
            assert(res0.contains(pairs[r].1));
            assert(pl0[pairs[r].1 as int]);
            assert(pl0[pairs[r].0 as int]);
            assert(res0.contains(v));
        } else {
            assert(res0[p] == result[p]);
            assert(res0[q] == result[q]);
        }
    }
    assert(result.no_duplicates()) by {
        assert forall|p: int, q: int| 0 <= p < result.len() && 0 <= q < result.len() && p != q implies result[p] != result[q] by {
            if q == res0.len() {
                assert(res0[p] == result[p]);
            } else if p == res0.len() {
                assert(res0[q] == result[q]);
            } else {
                assert(res0[p] == result[p]);
                assert(res0[q] == result[q]);
            }
        }
    }
}

/// Orders the block ids so that every edge goes forward (Kahn's method:
/// repeatedly take the blocks whose predecessors are all taken).
///
/// Returns `None` exactly when no such order exists: the graph has a cycle
/// (edges to or from unknown ids are ignored) or two blocks share an id.
pub fn topo_sort_ids(blocks: &[Block], edges: &[Edge]) -> (r: Option<Vec<String>>)
    ensures
        match r {
            Some(order) => is_topo_order(ids_of(blocks_view(blocks@)), edges_view(edges@), strs_view(order@)),
            None => forall|order: Seq<Seq<char>>|
                !is_topo_order(ids_of(blocks_view(blocks@)), edges_view(edges@), order),
        },
{
    let ghost ids = ids_of(blocks_view(blocks@));
    let ghost es = edges_view(edges@);
    let n = blocks.len();
    if has_duplicate_ids(blocks) {
        proof {
            assert forall|order: Seq<Seq<char>>| !is_topo_order(ids, es, order) by {
                if is_topo_order(ids, es, order) {
                    lemma_order_needs_distinct(ids, es, order);
                }
            }
        }
        return None;
    }
    let idv = block_ids(blocks);
    let pairs = resolve_edges(&idv, edges);
    let (result, placed) = take_ready(n, &pairs);
    if result.len() < n {
        proof {
            lemma_no_order_when_short(ids, es, pairs@, result@, placed@);
        }
        return None;
    }
    let mut out: Vec<String> = Vec::new();
    let mut p: usize = 0;
    while p < n
        invariant
            n == blocks@.len(),
            ids == ids_of(blocks_view(blocks@)),
            result@.len() == n,
            p <= n,
            forall|q: int| 0 <= q < result@.len() ==> (#[trigger] result@[q]) < n,
            strs_view(out@) == Seq::new(p as nat, |q: int| ids[result@[q] as int]),
        decreases n - p,
    {
        let ghost o0 = strs_view(out@);
        let idx = result[p];
        let c = clone_string(&blocks[idx].id);
        out.push(c);
        proof {
            assert(ids[idx as int] == blocks@[idx as int].id@);
            assert(strs_view(out@) =~= o0.push(c@));
            assert(strs_view(out@) =~= Seq::new((p + 1) as nat, |q: int| ids[result@[q] as int]));
        }
        p = p + 1;
    }
    proof {
        lemma_order_from_result(ids, es, pairs@, result@, placed@, strs_view(out@));
    }
    Some(out)
}

proof fn lemma_no_order_when_short(
    ids: Seq<Seq<char>>,
    es: Seq<EdgeV>,
    pairs: Seq<(usize, usize)>,
    result: Seq<usize>,
    placed: Seq<bool>,
)
    requires
        resolves(ids, es, pairs),
        kahn_ok(ids.len(), pairs, result, placed),
        forall|w: int| 0 <= w < ids.len() && !placed[w] ==> #[trigger] pending(pairs, placed, w),
        result.len() < ids.len(),
        ids.len() <= usize::MAX,
    ensures
        forall|order: Seq<Seq<char>>| !is_topo_order(ids, es, order),
{
    let n = ids.len();
    assert(stuck(ids, es, placed)) by {
        assert forall|v: int| 0 <= v < ids.len() && !placed[v] implies #[trigger] waits_on_unplaced(ids, es, placed, v) by {
            assert(pending(pairs, placed, v));
            let q = choose|q: int| 0 <= q < pairs.len() && pairs[q].1 == v && !placed[pairs[q].0 as int];
            assert(pairs[q].0 < ids.len());
            let a = pairs[q].0 as int;
            let k = choose|k: int|
                0 <= k < es.len() && es[k].from == ids[pairs[q].0 as int] && es[k].to == ids[pairs[q].1 as int];
            assert(0 <= a < ids.len() && !placed[a] && 0 <= k < es.len() && es[k].from == ids[a] && es[k].to == ids[v]);
        }
    }
    lemma_exists_missing(result, n as int);
    let w = choose|w: usize| (w as int) < n && !result.contains(w);
    assert(!placed[w as int]);
    let u = w as int;
    assert forall|order: Seq<Seq<char>>| !is_topo_order(ids, es, order) by {
        if is_topo_order(ids, es, order) {
            assert forall|a: int| 0 <= a < ids.len() implies order.contains(#[trigger] ids[a]) by {
                assert(ids.contains(ids[a]));
            }
            assert(order.contains(ids[u]));
            let j = choose|j: int| 0 <= j < order.len() && order[j] == ids[u];
            lemma_stuck_no_order(ids, es, placed, order, j, u);
        }
    }
}

proof fn lemma_order_from_result(
    ids: Seq<Seq<char>>,
    es: Seq<EdgeV>,
    pairs: Seq<(usize, usize)>,
    result: Seq<usize>,
    placed: Seq<bool>,
    order: Seq<Seq<char>>,
)
    requires
        ids.no_duplicates(),
        resolves(ids, es, pairs),
        kahn_ok(ids.len(), pairs, result, placed),
        result.len() == ids.len(),
        ids.len() <= usize::MAX,
        order == Seq::new(ids.len(), |q: int| ids[result[q] as int]),
    ensures
        is_topo_order(ids, es, order),
{
    let n = ids.len();
    assert(order.no_duplicates()) by {
        assert forall|a: int, b: int| 0 <= a < order.len() && 0 <= b < order.len() && a != b implies order[a] != order[b] by {
            assert(result[a] != result[b]);
        }
    }
    assert forall|x: Seq<char>| order.contains(x) <==> ids.contains(x) by {
        if order.contains(x) {
            let q = choose|q: int| 0 <= q < order.len() && order[q] == x;
            assert(ids[result[q] as int] == x);
        }
        if ids.contains(x) {
            let w = choose|w: int| 0 <= w < ids.len() && ids[w] == x;
            lemma_all_placed(result, n as int, w);
            let q = choose|q: int| 0 <= q < result.len() && result[q] == w as usize;
            assert(order[q] == x);
        }
    }
    assert(edges_forward(es, order)) by {
        reveal(edges_forward);
    assert forall|kk: int, a: int, b: int|
        #![trigger es[kk], order[a], order[b]]
        0 <= kk < es.len() && 0 <= a < order.len() && 0 <= b < order.len() && order[a] == es[kk].from
            && order[b] == es[kk].to implies a < b by {
        let x = result[a] as int;
        let y = result[b] as int;
        assert(ids[x] == es[kk].from);
        assert(ids[y] == es[kk].to);
        let r = choose|r: int| 0 <= r < pairs.len() && pairs[r] == (x as usize, y as usize);
        assert(result[a] == pairs[r].0);
    }
    }
}

/// A list of `n` distinct indices below `n` holds every index below `n`.
proof fn lemma_all_placed(s: Seq<usize>, n: int, w: int)
    requires
        s.len() == n,
        s.no_duplicates(),
        forall|p: int| 0 <= p < s.len() ==> (#[trigger] s[p]) < n,
        0 <= w < n,
        n <= usize::MAX,
    ensures
        s.contains(w as usize),
{
    if !s.contains(w as usize) {
        let full = Set::new(|x: usize| (x as int) < n);
        let sset = s.to_set();
        s.unique_seq_to_set();
        lemma_usize_range_len(n);
        assert(full.contains(w as usize));
        assert(sset.subset_of(full.remove(w as usize)));
        vstd::set_lib::lemma_len_subset(sset, full.remove(w as usize));
    }
}

/// A list of distinct indices below `n` that misses one is shorter than `n`.
proof fn lemma_len_bound(s: Seq<usize>, n: int, w: int)
    requires
        s.no_duplicates(),
        forall|p: int| 0 <= p < s.len() ==> (#[trigger] s[p]) < n,
        0 <= w < n,
        n <= usize::MAX,
        !s.contains(w as usize),
    ensures
        s.len() < n,
{
    let full = Set::new(|x: usize| (x as int) < n);
    let sset = s.to_set();
    s.unique_seq_to_set();
    lemma_usize_range_len(n);
    assert(full.contains(w as usize));
    assert(sset.subset_of(full.remove(w as usize)));
    vstd::set_lib::lemma_len_subset(sset, full.remove(w as usize));
}

/// A list of distinct indices below `n` shorter than `n` misses one.
proof fn lemma_exists_missing(s: Seq<usize>, n: int)
    requires
        s.no_duplicates(),
        forall|p: int| 0 <= p < s.len() ==> (#[trigger] s[p]) < n,
        s.len() < n,
        n <= usize::MAX,
    ensures
        exists|w: usize| (w as int) < n && !s.contains(w),
{
    if forall|w: usize| (w as int) < n ==> s.contains(w) {
        let full = Set::new(|x: usize| (x as int) < n);
        let sset = s.to_set();
        s.unique_seq_to_set();
        lemma_usize_range_len(n);
        assert(full.subset_of(sset)) by {
            assert forall|x: usize| full.contains(x) implies sset.contains(x) by {
                assert(s.contains(x));
            }
        }
        s.lemma_cardinality_of_set();
        vstd::set_lib::lemma_len_subset(full, sset);
    }
}

proof fn lemma_usize_range_len(n: int)
    requires
        0 <= n,
        n <= usize::MAX + 1,
    ensures
        Set::new(|x: usize| (x as int) < n).finite(),
        Set::new(|x: usize| (x as int) < n).len() == n,
    decreases n,
{
    let s = Set::new(|x: usize| (x as int) < n);
    if n == 0 {
        assert(s =~= Set::empty());
    } else {
        lemma_usize_range_len(n - 1);
        let t = Set::new(|x: usize| (x as int) < n - 1);
        assert(s =~= t.insert((n - 1) as usize));
    }
}

/// The last block with id `id`, if any.
pub open spec fn last_with_id(bs: Seq<BlockV>, id: Seq<char>) -> Option<BlockV>
    decreases bs.len(),
{
    if bs.len() == 0 {
        None
    } else if bs.last().id == id {
        Some(bs.last())
    } else {
        last_with_id(bs.drop_last(), id)
    }
}

/// The last block with id `id`, if any.
pub fn find_last(blocks: &Vec<Block>, id: &String) -> (r: Option<usize>)
    ensures
        match r {
            Some(i) => i < blocks@.len() && last_with_id(blocks_view(blocks@), id@) == Some(
                blocks@[i as int].view_block(),
            ),
            None => last_with_id(blocks_view(blocks@), id@) is None,
        },
{
    let ghost bs = blocks_view(blocks@);
    let mut i: usize = blocks.len();
    proof {
        assert(bs.take(i as int) =~= bs);
    }
    while i > 0
        invariant
            i <= blocks@.len(),
            bs == blocks_view(blocks@),
            last_with_id(bs, id@) == last_with_id(bs.take(i as int), id@),
        decreases i,
    {
        proof {
            assert(bs.take(i as int).drop_last() =~= bs.take(i - 1));
            assert(bs.take(i as int).last() == bs[i - 1]);
        }
        if str_eq(blocks[i - 1].id.as_str(), id.as_str()) {
            return Some(i - 1);
        }
        i = i - 1;
    }
    None
}

// ---------------------------------------------------------------------------
// Adjacency
// ---------------------------------------------------------------------------

/// A block with the ids of the blocks that feed it and that it feeds.
#[derive(Debug)]
pub struct NodeInfo {
    pub block: Block,
    /// Ids of the blocks that feed into this block
    pub inputs: Vec<String>,
    /// Ids of the blocks this block feeds into
    pub outputs: Vec<String>,
}

/// The sources of the edges into `id`, in edge order.
pub open spec fn inputs_of(es: Seq<EdgeV>, id: Seq<char>) -> Seq<Seq<char>>
    decreases es.len(),
{
    if es.len() == 0 {
        Seq::empty()
    } else {
        let rest = inputs_of(es.drop_last(), id);
        if es.last().to == id {
            rest.push(es.last().from)
        } else {
            rest
        }
    }
}

/// The destinations of the edges out of `id`, in edge order.
pub open spec fn outputs_of(es: Seq<EdgeV>, id: Seq<char>) -> Seq<Seq<char>>
    decreases es.len(),
{
    if es.len() == 0 {
        Seq::empty()
    } else {
        let rest = outputs_of(es.drop_last(), id);
        if es.last().from == id {
            rest.push(es.last().to)
        } else {
            rest
        }
    }
}

/// What the adjacency of a graph holds for block id `id`.
pub open spec fn adjacency_entry(g: GraphV, id: Seq<char>, info: NodeInfo) -> bool {
    &&& last_with_id(g.blocks, id) == Some(info.block.view_block())
    &&& strs_view(info.inputs@) == inputs_of(g.edges, id)
    &&& strs_view(info.outputs@) == outputs_of(g.edges, id)
}

fn collect_inputs(edges: &Vec<Edge>, id: &String) -> (r: Vec<String>)
    ensures
        strs_view(r@) == inputs_of(edges_view(edges@), id@),
{
    let ghost es = edges_view(edges@);
    let mut out: Vec<String> = Vec::new();
    let mut k: usize = 0;
    proof {
        assert(es.take(0) =~= Seq::<EdgeV>::empty());
        assert(strs_view(out@) =~= Seq::<Seq<char>>::empty());
    }
    while k < edges.len()
        invariant
            k <= edges@.len(),
            es == edges_view(edges@),
            strs_view(out@) == inputs_of(es.take(k as int), id@),
        decreases edges@.len() - k,
    {
        proof {
            assert(es.take(k + 1).drop_last() =~= es.take(k as int));
            assert(es.take(k + 1).last() == es[k as int]);
        }
        if str_eq(edges[k].to.as_str(), id.as_str()) {
            let ghost before = strs_view(out@);
            out.push(clone_string(&edges[k].from));
            proof {
                assert(strs_view(out@) =~= before.push(es[k as int].from));
            }
        }
        k = k + 1;
    }
    proof {
        assert(es.take(k as int) =~= es);
    }
    out
}

fn collect_outputs(edges: &Vec<Edge>, id: &String) -> (r: Vec<String>)
    ensures
        strs_view(r@) == outputs_of(edges_view(edges@), id@),
{
    let ghost es = edges_view(edges@);
    let mut out: Vec<String> = Vec::new();
    let mut k: usize = 0;
    proof {
        assert(es.take(0) =~= Seq::<EdgeV>::empty());
        assert(strs_view(out@) =~= Seq::<Seq<char>>::empty());
    }
    while k < edges.len()
        invariant
            k <= edges@.len(),
            es == edges_view(edges@),
            strs_view(out@) == outputs_of(es.take(k as int), id@),
        decreases edges@.len() - k,
    {
        proof {
            assert(es.take(k + 1).drop_last() =~= es.take(k as int));
            assert(es.take(k + 1).last() == es[k as int]);
        }
        if str_eq(edges[k].from.as_str(), id.as_str()) {
            let ghost before = strs_view(out@);
            out.push(clone_string(&edges[k].to));
            proof {
                assert(strs_view(out@) =~= before.push(es[k as int].to));
            }
        }
        k = k + 1;
    }
    proof {
        assert(es.take(k as int) =~= es);
    }
    out
}

/// The adjacency of the graph: for each block id, the (last) block with that
/// id and the ids of the blocks on its incoming and outgoing edges.
pub fn build_adjacency(graph: &Graph) -> (r: StrMap<NodeInfo>)
    ensures
        forall|id: Seq<char>| r.map().contains_key(id) <==> ids_of(graph.view_graph().blocks).contains(id),
        forall|id: Seq<char>|
            #[trigger] r.map().contains_key(id) ==> adjacency_entry(graph.view_graph(), id, r.map()[id]),
{
    let ghost g = graph.view_graph();
    let ghost ids = ids_of(g.blocks);
    let mut m: StrMap<NodeInfo> = StrMap::new();
    let mut i: usize = 0;
    while i < graph.blocks.len()
        invariant
            i <= graph.blocks@.len(),
            g == graph.view_graph(),
            ids == ids_of(g.blocks),
            forall|id: Seq<char>| m.map().contains_key(id) <==> ids.take(i as int).contains(id),
            forall|id: Seq<char>| #[trigger] m.map().contains_key(id) ==> adjacency_entry(g, id, m.map()[id]),
        decreases graph.blocks@.len() - i,
    {
        let id = &graph.blocks[i].id;
        let bi = match find_last(&graph.blocks, id) {
            Some(x) => x,
            None => {
                proof {
                    lemma_last_with_id_some(g.blocks, i as int);
                }
                i
            },
        };
        proof {
            lemma_last_with_id_some(g.blocks, i as int);
        }
        let info = NodeInfo {
            block: graph.blocks[bi].copy_block(),
            inputs: collect_inputs(&graph.edges, id),
            outputs: collect_outputs(&graph.edges, id),
        };
        let ghost old_map = m.map();
        m.insert(clone_string(id), info);
        proof {
            assert(ids.take(i + 1) =~= ids.take(i as int).push(ids[i as int]));
            assert forall|x: Seq<char>| m.map().contains_key(x) <==> ids.take(i + 1).contains(x) by {
                crate::text::lemma_push_contains(ids.take(i as int), ids[i as int], x);
            }
        }
        i = i + 1;
    }
    proof {
        assert(ids.take(i as int) =~= ids);
    }
    m
}

proof fn lemma_last_with_id_some(bs: Seq<BlockV>, i: int)
    requires
        0 <= i < bs.len(),
    ensures
        last_with_id(bs, bs[i].id) is Some,
    decreases bs.len(),
{
    if bs.last().id != bs[i].id {
        assert(i < bs.len() - 1);
        lemma_last_with_id_some(bs.drop_last(), i);
        assert(bs.drop_last()[i] == bs[i]);
    }
}

// ---------------------------------------------------------------------------
// Depth-first order
// ---------------------------------------------------------------------------

/// The number of `true` entries.
pub open spec fn count_true(s: Seq<bool>) -> nat
    decreases s.len(),
{
    if s.len() == 0 {
        0
    } else {
        count_true(s.drop_last()) + if s.last() {
            1nat
        } else {
            0nat
        }
    }
}

pub proof fn lemma_count_true_bound(s: Seq<bool>)
    ensures
        count_true(s) <= s.len(),
    decreases s.len(),
{
    if s.len() > 0 {
        lemma_count_true_bound(s.drop_last());
    }
}

pub proof fn lemma_count_true_set(s: Seq<bool>, i: int)
    requires
        0 <= i < s.len(),
        !s[i],
    ensures
        count_true(s.update(i, true)) == count_true(s) + 1,
    decreases s.len(),
{
    let t = s.update(i, true);
    if i == s.len() - 1 {
        assert(t.drop_last() =~= s.drop_last());
    } else {
        assert(t.drop_last() =~= s.drop_last().update(i, true));
        lemma_count_true_set(s.drop_last(), i);
    }
}

pub proof fn lemma_count_true_mono(a: Seq<bool>, b: Seq<bool>)
    requires
        a.len() == b.len(),
        forall|i: int| 0 <= i < a.len() && a[i] ==> b[i],
    ensures
        count_true(a) <= count_true(b),
    decreases a.len(),
{
    if a.len() > 0 {
        lemma_count_true_mono(a.drop_last(), b.drop_last());
    }
}

/// The DFS state: visited marks, the finished nodes in order, and the nodes
/// still in progress (visited, not finished) being exactly `stack`.
pub open spec fn dfs_ok(visited: Seq<bool>, result: Seq<usize>, stack: Set<usize>) -> bool {
    &&& result.no_duplicates()
    &&& forall|p: int| 0 <= p < result.len() ==> (#[trigger] result[p]) < visited.len() && visited[result[p] as int]
    &&& forall|v: int| 0 <= v < visited.len() ==> ((visited[v] && !result.contains(v as usize)) <==> stack.contains(v as usize))
}

/// Whether `rank` grows along every input link: each input of node `a`
/// has a smaller rank than `a` (so the links form no cycle).
pub open spec fn ranked(inputs: Seq<Vec<usize>>, rank: spec_fn(usize) -> nat) -> bool {
    forall|a: int, b: int|
        0 <= a < inputs.len() && 0 <= b < inputs[a]@.len() ==> rank(#[trigger] inputs[a]@[b]) < rank(a as usize)
}

/// Whether `x` occurs in `result` before position `p`.
pub open spec fn occurs_before(result: Seq<usize>, p: int, x: usize) -> bool {
    exists|q: int| 0 <= q < p && result[q] == x
}

/// Every node of `result` comes after all of its inputs.
pub open spec fn inputs_first(result: Seq<usize>, inputs: Seq<Vec<usize>>) -> bool {
    forall|p: int, b: int|
        0 <= p < result.len() && 0 <= b < inputs[result[p] as int]@.len() ==> occurs_before(
            result,
            p,
            #[trigger] inputs[result[p] as int]@[b],
        )
}

proof fn lemma_inputs_first_push(r: Seq<usize>, v: usize, inputs: Seq<Vec<usize>>)
    requires
        inputs_first(r, inputs),
        forall|b: int| 0 <= b < inputs[v as int]@.len() ==> r.contains(#[trigger] inputs[v as int]@[b]),
    ensures
        inputs_first(r.push(v), inputs),
{
    let res = r.push(v);
    assert forall|p: int, b: int| 0 <= p < res.len() && 0 <= b < inputs[res[p] as int]@.len() implies occurs_before(
        res,
        p,
        #[trigger] inputs[res[p] as int]@[b],
    ) by {
        if p < r.len() {
            assert(res[p] == r[p]);
            assert(occurs_before(r, p, inputs[r[p] as int]@[b]));
            let q = choose|q: int| 0 <= q < p && r[q] == inputs[r[p] as int]@[b];
            assert(res[q] == r[q]);
        } else {
            assert(res[p] == v);
            assert(r.contains(inputs[v as int]@[b]));
            let q = choose|q: int| 0 <= q < r.len() && r[q] == inputs[v as int]@[b];
            assert(res[q] == r[q]);
        }
    }
}

/// Visits node `v`: its inputs first, then `v` itself.
fn visit(
    v: usize,
    inputs: &Vec<Vec<usize>>,
    visited: &mut Vec<bool>,
    result: &mut Vec<usize>,
    Ghost(stack): Ghost<Set<usize>>,
    Ghost(rank): Ghost<spec_fn(usize) -> nat>,
)
    requires
        ranked(inputs@, rank) ==> (forall|s: usize| #[trigger] stack.contains(s) ==> rank(s) > rank(v)),
        ranked(inputs@, rank) ==> inputs_first(old(result)@, inputs@),
        v < old(visited)@.len(),
        inputs@.len() == old(visited)@.len(),
        forall|a: int, b: int| 0 <= a < inputs@.len() && 0 <= b < inputs@[a]@.len() ==> (#[trigger] inputs@[a]@[b]) < inputs@.len(),
        dfs_ok(old(visited)@, old(result)@, stack),
    ensures
        final(visited)@.len() == old(visited)@.len(),
        forall|i: int| 0 <= i < old(visited)@.len() && old(visited)@[i] ==> final(visited)@[i],
        final(visited)@[v as int],
        dfs_ok(final(visited)@, final(result)@, stack),
        old(result)@.len() <= final(result)@.len(),
        final(result)@.take(old(result)@.len() as int) == old(result)@,
        !old(visited)@[v as int] ==> final(result)@.contains(v),
        ranked(inputs@, rank) ==> inputs_first(final(result)@, inputs@),
    decreases old(visited)@.len() - count_true(old(visited)@),
{
    if visited[v] {
        proof {
            assert(result@.take(result@.len() as int) =~= result@);
        }
        return;
    }
    let ghost v0 = visited@;
    let ghost r0 = result@;
    let nvis = visited.len();
    proof {
        lemma_count_true_set(v0, v as int);
        lemma_count_true_bound(v0.update(v as int, true));
        assert(!stack.contains(v));
    }
    visited.set(v, true);
    let ghost st2 = stack.insert(v);
    proof {
        assert forall|w: int| 0 <= w < visited@.len() implies ((visited@[w] && !result@.contains(w as usize)) <==> st2.contains(w as usize)) by {
            assert(w <= usize::MAX);
            if w != v as int {
                assert(w as usize != v);
                assert(visited@[w] == v0[w]);
            }
            if w == v as int {
                assert(!r0.contains(v)) by {
                    if r0.contains(v) {
                        let p = choose|p: int| 0 <= p < r0.len() && r0[p] == v;
                        assert(v0[r0[p] as int]);
                    }
                }
            }
        }
    }
    let mut k: usize = 0;
    while k < inputs[v].len()
        invariant
            v < visited@.len(),
            inputs@.len() == visited@.len(),
            visited@.len() == v0.len(),
            forall|a: int, b: int| 0 <= a < inputs@.len() && 0 <= b < inputs@[a]@.len() ==> (#[trigger] inputs@[a]@[b]) < inputs@.len(),
            k <= inputs@[v as int]@.len(),
            visited@[v as int],
            forall|i: int| 0 <= i < v0.len() && v0[i] ==> visited@[i],
            dfs_ok(visited@, result@, st2),
            r0.len() <= result@.len(),
            result@.take(r0.len() as int) == r0,
            count_true(visited@) >= count_true(v0) + 1,
            v0 == old(visited)@,
            st2 == stack.insert(v),
            !stack.contains(v),
            forall|b: int| 0 <= b < k ==> visited@[#[trigger] inputs@[v as int]@[b] as int],
            ranked(inputs@, rank) ==> inputs_first(result@, inputs@),
            ranked(inputs@, rank) ==> (forall|s: usize| #[trigger] stack.contains(s) ==> rank(s) > rank(v)),
        decreases inputs@[v as int]@.len() - k,
    {
        let w = inputs[v][k];
        let ghost vk = visited@;
        let ghost rk = result@;
        proof {
            lemma_count_true_bound(visited@);
        }
        proof {
            if ranked(inputs@, rank) {
                assert(rank(w) < rank(v));
                assert forall|s: usize| #[trigger] st2.contains(s) implies rank(s) > rank(w) by {
                    if s != v {
                        assert(stack.contains(s));
                    }
                }
            }
        }
        visit(w, inputs, visited, result, Ghost(st2), Ghost(rank));
        proof {
            assert forall|b: int| 0 <= b < k + 1 implies visited@[#[trigger] inputs@[v as int]@[b] as int] by {
                if b < k {
                    assert(vk[inputs@[v as int]@[b] as int]);
                }
            }
            lemma_count_true_mono(vk, visited@);
            assert(result@.take(r0.len() as int) =~= rk.take(r0.len() as int)) by {
                assert forall|q: int| 0 <= q < r0.len() implies result@[q] == rk[q] by {
                    assert(result@.take(rk.len() as int)[q] == rk[q]);
                }
            }
        }
        k = k + 1;
    }
    let ghost r1 = result@;
    proof {
        assert(!r1.contains(v));
    }
    result.push(v);
    proof {
        assert(result@.take(r0.len() as int) =~= r1.take(r0.len() as int));
        assert(result@[r1.len() as int] == v);
        assert(result@.no_duplicates()) by {
            assert forall|a: int, b: int| 0 <= a < result@.len() && 0 <= b < result@.len() && a != b implies result@[a] != result@[b] by {
                if a < r1.len() && b < r1.len() {
                    assert(r1[a] != r1[b]);
                } else if a == r1.len() {
                    assert(r1.contains(r1[b]));
                } else {
                    assert(r1.contains(r1[a]));
                }
            }
        }
        assert forall|w: int| 0 <= w < visited@.len() implies ((visited@[w] && !result@.contains(w as usize)) <==> stack.contains(w as usize)) by {
            crate::text::lemma_push_contains(r1, v, w as usize);
        }
        if ranked(inputs@, rank) {
            assert forall|b: int| 0 <= b < inputs@[v as int]@.len() implies r1.contains(
                #[trigger] inputs@[v as int]@[b],
            ) by {
                let u = inputs@[v as int]@[b];
                assert(visited@[u as int]);
                assert(rank(u) < rank(v));
                assert(!st2.contains(u)) by {
                    if st2.contains(u) && u != v {
                        assert(stack.contains(u));
                    }
                }
            }
            lemma_inputs_first_push(r1, v, inputs@);
        }
    }
}

/// Whether a node with id `x` is visited.
pub open spec fn node_visited(nv: Seq<Seq<char>>, visited: Seq<bool>, x: Seq<char>) -> bool {
    exists|w: int| 0 <= w < nv.len() && nv[w] == x && visited[w]
}

/// The nodes of a list of ids that `from` lists, as indices into `nodes`
/// (unknown ids are left out).
fn known_indices(nodes: &Vec<String>, from: &Vec<String>) -> (r: Vec<usize>)
    ensures
        forall|b: int|
            0 <= b < r@.len() ==> (#[trigger] r@[b]) < nodes@.len() && strs_view(from@).contains(
                nodes@[r@[b] as int]@,
            ),
        forall|k: int|
            0 <= k < from@.len() && strs_view(nodes@).contains(#[trigger] strs_view(from@)[k]) ==> exists|b: int|
                0 <= b < r@.len() && nodes@[r@[b] as int]@ == strs_view(from@)[k],
{
    let ghost fv = strs_view(from@);
    let ghost nv = strs_view(nodes@);
    let mut out: Vec<usize> = Vec::new();
    let mut k: usize = 0;
    while k < from.len()
        invariant
            k <= from@.len(),
            fv == strs_view(from@),
            nv == strs_view(nodes@),
            forall|b: int|
                0 <= b < out@.len() ==> (#[trigger] out@[b]) < nodes@.len() && fv.contains(nodes@[out@[b] as int]@),
            forall|j: int|
                0 <= j < k && nv.contains(#[trigger] fv[j]) ==> exists|b: int|
                    0 <= b < out@.len() && nodes@[out@[b] as int]@ == fv[j],
        decreases from@.len() - k,
    {
        proof {
            assert(fv[k as int] == from@[k as int]@);
        }
        match find_id(nodes, &from[k]) {
            Some(i) => {
                let ghost o0 = out@;
                out.push(i);
                proof {
                    assert(out@[o0.len() as int] == i);
                    assert forall|b: int| 0 <= b < out@.len() implies (#[trigger] out@[b]) < nodes@.len()
                        && fv.contains(nodes@[out@[b] as int]@) by {
                        if b < o0.len() {
                            assert(out@[b] == o0[b]);
                        } else {
                            assert(fv[k as int] == nodes@[i as int]@);
                        }
                    }
                    assert forall|j: int| 0 <= j < k + 1 && nv.contains(#[trigger] fv[j]) implies exists|b: int|
                        0 <= b < out@.len() && nodes@[out@[b] as int]@ == fv[j] by {
                        if j < k {
                            let b = choose|b: int| 0 <= b < o0.len() && nodes@[o0[b] as int]@ == fv[j];
                            assert(out@[b] == o0[b]);
                        } else {
                            assert(nodes@[out@[o0.len() as int] as int]@ == fv[j]);
                        }
                    }
                }
            },
            None => {
                proof {
                    assert(!nv.contains(fv[k as int])) by {
                        if nv.contains(fv[k as int]) {
                            let w = choose|w: int| 0 <= w < nv.len() && nv[w] == fv[k as int];
                            assert(nodes@[w]@ == from@[k as int]@);
                        }
                    }
                }
            },
        }
        k = k + 1;
    }
    out
}

proof fn lemma_inputs_of_members(es: Seq<EdgeV>, id: Seq<char>)
    ensures
        forall|x: Seq<char>|
            #[trigger] inputs_of(es, id).contains(x) <==> exists|k: int|
                0 <= k < es.len() && es[k].to == id && es[k].from == x,
    decreases es.len(),
{
    if es.len() > 0 {
        let init = es.drop_last();
        lemma_inputs_of_members(init, id);
        let rest = inputs_of(init, id);
        let all = inputs_of(es, id);
        assert forall|x: Seq<char>| #[trigger] all.contains(x) <==> exists|k: int|
            0 <= k < es.len() && es[k].to == id && es[k].from == x by {
            if all.contains(x) {
                let i = choose|i: int| 0 <= i < all.len() && all[i] == x;
                if i < rest.len() {
                    assert(all[i] == rest[i]);
                    assert(rest.contains(x));
                    let k = choose|k: int| 0 <= k < init.len() && init[k].to == id && init[k].from == x;
                    assert(es[k] == init[k]);
                } else {
                    assert(es[es.len() - 1] == es.last());
                }
            }
            if exists|k: int| 0 <= k < es.len() && es[k].to == id && es[k].from == x {
                let k = choose|k: int| 0 <= k < es.len() && es[k].to == id && es[k].from == x;
                if k < init.len() {
                    assert(init[k] == es[k]);
                    assert(rest.contains(x));
                    let i = choose|i: int| 0 <= i < rest.len() && rest[i] == x;
                    assert(all[i] == rest[i]);
                } else {
                    assert(es.last() == es[k]);
                    assert(all[all.len() - 1] == x);
                }
            }
        }
    }
}

/// Whether `rank` grows along every edge between blocks of `g`.
pub open spec fn edges_ranked(g: GraphV, rank: spec_fn(Seq<char>) -> nat) -> bool {
    forall|k: int|
        0 <= k < g.edges.len() && ids_of(g.blocks).contains((#[trigger] g.edges[k]).from) && ids_of(
            g.blocks,
        ).contains(g.edges[k].to) ==> rank(g.edges[k].from) < rank(g.edges[k].to)
}

/// Whether the edges between blocks of `g` form no cycle: some ranking of
/// the ids grows along every one of them.
pub open spec fn acyclic(g: GraphV) -> bool {
    exists|rank: spec_fn(Seq<char>) -> nat| edges_ranked(g, rank)
}

/// The blocks in depth-first post-order: each block after the blocks that
/// feed it (as far as the graph has no cycle), one block per distinct id
/// (the last block with that id), starting from the blocks in their order.
pub fn topo_sort(graph: &Graph) -> (r: Vec<Block>)
    ensures
        ({
            let g = graph.view_graph();
            let o = ids_of(blocks_view(r@));
            &&& o.no_duplicates()
            &&& forall|x: Seq<char>| o.contains(x) <==> ids_of(g.blocks).contains(x)
            &&& forall|p: int| 0 <= p < r@.len() ==> last_with_id(g.blocks, o[p]) == Some(r@[p].view_block())
            &&& acyclic(g) ==> forall|k: int|
                0 <= k < g.edges.len() && ids_of(g.blocks).contains((#[trigger] g.edges[k]).from) && ids_of(
                    g.blocks,
                ).contains(g.edges[k].to) ==> exists|p: int, q: int|
                    0 <= p < q < o.len() && o[p] == g.edges[k].from && o[q] == g.edges[k].to
        }),
{
    let ghost g = graph.view_graph();
    let ghost ids = ids_of(g.blocks);
    let idv = block_ids(graph.blocks.as_slice());
    let nodes = crate::text::dedup_strings(&idv);
    let ghost nv = strs_view(nodes@);
    proof {
        crate::text::lemma_dedup(ids);
    }
    let n = nodes.len();
    let mut inputs: Vec<Vec<usize>> = Vec::new();
    let mut a: usize = 0;
    while a < n
        invariant
            a <= n,
            n == nodes@.len(),
            inputs@.len() == a,
            g == graph.view_graph(),
            nv == strs_view(nodes@),
            forall|x: int, b: int| 0 <= x < inputs@.len() && 0 <= b < inputs@[x]@.len() ==> (#[trigger] inputs@[x]@[b]) < n,
            forall|x: int, b: int|
                0 <= x < inputs@.len() && 0 <= b < inputs@[x]@.len() ==> inputs_of(g.edges, nv[x]).contains(
                    nv[#[trigger] inputs@[x]@[b] as int],
                ),
            forall|x: int, y: Seq<char>|
                0 <= x < inputs@.len() && #[trigger] inputs_of(g.edges, nv[x]).contains(y) && nv.contains(y)
                    ==> exists|b: int| 0 <= b < inputs@[x]@.len() && nv[inputs@[x]@[b] as int] == y,
        decreases n - a,
    {
        let ins = collect_inputs(&graph.edges, &nodes[a]);
        let ki = known_indices(&nodes, &ins);
        let ghost i0 = inputs@;
        proof {
            assert(nodes@[a as int]@ == nv[a as int]);
            assert forall|b: int| 0 <= b < ki@.len() implies inputs_of(g.edges, nv[a as int]).contains(
                nv[#[trigger] ki@[b] as int],
            ) by {
                assert(nv[ki@[b] as int] == nodes@[ki@[b] as int]@);
            }
            assert forall|y: Seq<char>| #[trigger] inputs_of(g.edges, nv[a as int]).contains(y) && nv.contains(y) implies exists|b: int|
                0 <= b < ki@.len() && nv[ki@[b] as int] == y by {
                let k = choose|k: int| 0 <= k < strs_view(ins@).len() && strs_view(ins@)[k] == y;
                assert(strs_view(nodes@).contains(strs_view(ins@)[k]));
                let b = choose|b: int| 0 <= b < ki@.len() && nodes@[ki@[b] as int]@ == strs_view(ins@)[k];
                assert(nv[ki@[b] as int] == nodes@[ki@[b] as int]@);
            }
        }
        inputs.push(ki);
        proof {
            assert forall|x: int, b: int| 0 <= x < inputs@.len() && 0 <= b < inputs@[x]@.len() implies inputs_of(
                g.edges,
                nv[x],
            ).contains(nv[#[trigger] inputs@[x]@[b] as int]) by {
                if x < a {
                    assert(inputs@[x] == i0[x]);
                }
            }
            assert forall|x: int, y: Seq<char>|
                0 <= x < inputs@.len() && #[trigger] inputs_of(g.edges, nv[x]).contains(y) && nv.contains(y) implies exists|b: int|
                0 <= b < inputs@[x]@.len() && nv[inputs@[x]@[b] as int] == y by {
                if x < a {
                    assert(inputs@[x] == i0[x]);
                    let b = choose|b: int| 0 <= b < i0[x]@.len() && nv[i0[x]@[b] as int] == y;
                } else {
                    assert(inputs@[x] == ki);
                    assert(inputs_of(g.edges, nv[a as int]).contains(y));
                    let b = choose|b: int| 0 <= b < ki@.len() && nv[ki@[b] as int] == y;
                }
            }
        }
        a = a + 1;
    }
    let ghost grank = choose|r: spec_fn(Seq<char>) -> nat| edges_ranked(g, r);
    let ghost rank = |i: usize| grank(nv[i as int]);
    proof {
        if acyclic(g) {
            assert forall|x: int, b: int| 0 <= x < inputs@.len() && 0 <= b < inputs@[x]@.len() implies rank(
                #[trigger] inputs@[x]@[b],
            ) < rank(x as usize) by {
                let u = inputs@[x]@[b];
                lemma_inputs_of_members(g.edges, nv[x]);
                assert(inputs_of(g.edges, nv[x]).contains(nv[u as int]));
                let k = choose|k: int| 0 <= k < g.edges.len() && g.edges[k].to == nv[x] && g.edges[k].from == nv[u as int];
                assert(nv.contains(nv[u as int]));
                assert(nv.contains(nv[x]));
            }
        }
    }
    let mut visited: Vec<bool> = Vec::new();
    let mut z: usize = 0;
    while z < n
        invariant
            z <= n,
            visited@.len() == z,
            forall|i: int| 0 <= i < z ==> !visited@[i],
        decreases n - z,
    {
        visited.push(false);
        z = z + 1;
    }
    let mut result: Vec<usize> = Vec::new();
    proof {
        assert(dfs_ok(visited@, result@, Set::empty()));
    }
    let mut i: usize = 0;
    while i < graph.blocks.len()
        invariant
            i <= graph.blocks@.len(),
            g == graph.view_graph(),
            ids == ids_of(g.blocks),
            nv == strs_view(nodes@),
            nv.no_duplicates(),
            forall|x: Seq<char>| nv.contains(x) <==> ids.contains(x),
            n == nodes@.len(),
            inputs@.len() == n,
            visited@.len() == n,
            forall|x: int, b: int| 0 <= x < inputs@.len() && 0 <= b < inputs@[x]@.len() ==> (#[trigger] inputs@[x]@[b]) < n,
            dfs_ok(visited@, result@, Set::empty()),
            forall|j: int| 0 <= j < i ==> #[trigger] node_visited(nv, visited@, ids[j]),
            ranked(inputs@, rank) ==> inputs_first(result@, inputs@),
        decreases graph.blocks@.len() - i,
    {
        proof {
            assert(ids[i as int] == g.blocks[i as int].id);
            assert(ids.contains(ids[i as int]));
        }
        match find_id(&nodes, &graph.blocks[i].id) {
            Some(w) => {
                let ghost vb = visited@;
                visit(w, &inputs, &mut visited, &mut result, Ghost(Set::empty()), Ghost(rank));
                proof {
                    assert forall|j: int| 0 <= j < i + 1 implies #[trigger] node_visited(nv, visited@, ids[j]) by {
                        if j < i {
                            assert(node_visited(nv, vb, ids[j]));
                            let w2 = choose|w2: int| 0 <= w2 < nv.len() && nv[w2] == ids[j] && vb[w2];
                            assert(visited@[w2]);
                        } else {
                            assert(nv[w as int] == ids[j]);
                        }
                    }
                }
            },
            None => {
                proof {
                    assert(nv.contains(ids[i as int]));
                    let w2 = choose|w2: int| 0 <= w2 < nv.len() && nv[w2] == ids[i as int];
                    assert(nodes@[w2]@ == graph.blocks@[i as int].id@);
                }
            },
        }
        i = i + 1;
    }
    let ghost res = result@;
    proof {
        if acyclic(g) {
            assert forall|k: int|
                0 <= k < g.edges.len() && ids.contains((#[trigger] g.edges[k]).from) && ids.contains(g.edges[k].to)
                implies exists|p: int, q: int|
                0 <= p < q < res.len() && nv[res[p] as int] == g.edges[k].from && nv[res[q] as int] == g.edges[k].to by {
                let e = g.edges[k];
                let j = choose|j: int| 0 <= j < ids.len() && ids[j] == e.to;
                assert(node_visited(nv, visited@, ids[j]));
                let x = choose|x: int| 0 <= x < nv.len() && nv[x] == ids[j] && visited@[x];
                assert(res.contains(x as usize));
                let q = choose|q: int| 0 <= q < res.len() && res[q] == x as usize;
                lemma_inputs_of_members(g.edges, nv[x]);
                assert(inputs_of(g.edges, nv[x]).contains(e.from));
                assert(nv.contains(e.from));
                let b = choose|b: int| 0 <= b < inputs@[x]@.len() && nv[inputs@[x]@[b] as int] == e.from;
                assert(inputs_first(res, inputs@));
                assert(0 <= b < inputs@[res[q] as int]@.len());
                assert(occurs_before(res, q, inputs@[res[q] as int]@[b]));
                let p = choose|p: int| 0 <= p < q && res[p] == inputs@[res[q] as int]@[b];
                assert(nv[res[p] as int] == e.from);
            }
        }
    }
    let mut out: Vec<Block> = Vec::new();
    let mut p: usize = 0;
    while p < result.len()
        invariant
            p <= result@.len(),
            res == result@,
            g == graph.view_graph(),
            nv == strs_view(nodes@),
            n == nodes@.len(),
            forall|q: int| 0 <= q < res.len() ==> (#[trigger] res[q]) < n,
            out@.len() == p,
            forall|q: int| 0 <= q < p ==> out@[q].id@ == nv[res[q] as int] && last_with_id(g.blocks, nv[res[q] as int]) == Some(#[trigger] out@[q].view_block()),
            forall|x: Seq<char>| nv.contains(x) <==> ids_of(g.blocks).contains(x),
            acyclic(g) ==> forall|k: int|
                0 <= k < g.edges.len() && ids_of(g.blocks).contains((#[trigger] g.edges[k]).from) && ids_of(
                    g.blocks,
                ).contains(g.edges[k].to) ==> exists|p: int, q: int|
                    0 <= p < q < res.len() && nv[res[p] as int] == g.edges[k].from && nv[res[q] as int] == g.edges[k].to,
        decreases result@.len() - p,
    {
        let v = result[p];
        proof {
            assert(nv.contains(nv[v as int]));
            let j = choose|j: int| 0 <= j < ids_of(g.blocks).len() && ids_of(g.blocks)[j] == nv[v as int];
            lemma_last_with_id_some(g.blocks, j);
        }
        match find_last(&graph.blocks, &nodes[v]) {
            Some(bi) => {
                let b = graph.blocks[bi].copy_block();
                proof {
                    lemma_last_with_id_is(g.blocks, nv[v as int]);
                }
                out.push(b);
            },
            None => {
                proof {
                    assert(false);
                }
            },
        }
        p = p + 1;
    }
    proof {
        let o = ids_of(blocks_view(out@));
        assert(o =~= Seq::new(res.len(), |q: int| nv[res[q] as int]));
        if acyclic(g) {
            assert forall|k: int|
                0 <= k < g.edges.len() && ids_of(g.blocks).contains((#[trigger] g.edges[k]).from) && ids_of(
                    g.blocks,
                ).contains(g.edges[k].to) implies exists|p: int, q: int|
                0 <= p < q < o.len() && o[p] == g.edges[k].from && o[q] == g.edges[k].to by {
                let (p, q) = choose|p: int, q: int|
                    0 <= p < q < res.len() && nv[res[p] as int] == g.edges[k].from && nv[res[q] as int] == g.edges[k].to;
                assert(o[p] == nv[res[p] as int]);
                assert(o[q] == nv[res[q] as int]);
            }
        }
        assert(o.no_duplicates()) by {
            assert forall|a2: int, b2: int| 0 <= a2 < o.len() && 0 <= b2 < o.len() && a2 != b2 implies o[a2] != o[b2] by {
                assert(res[a2] != res[b2]);
            }
        }
        assert forall|x: Seq<char>| o.contains(x) <==> ids.contains(x) by {
            if o.contains(x) {
                let q = choose|q: int| 0 <= q < o.len() && o[q] == x;
                assert(nv.contains(nv[res[q] as int]));
            }
            if ids.contains(x) {
                let j = choose|j: int| 0 <= j < ids.len() && ids[j] == x;
                assert(node_visited(nv, visited@, ids[j]));
                let w = choose|w: int| 0 <= w < nv.len() && nv[w] == ids[j] && visited@[w];
                assert(res.contains(w as usize));
                let q = choose|q: int| 0 <= q < res.len() && res[q] == w as usize;
                assert(o[q] == x);
            }
        }
    }
    out
}

proof fn lemma_last_with_id_is(bs: Seq<BlockV>, id: Seq<char>)
    requires
        last_with_id(bs, id) is Some,
    ensures
        last_with_id(bs, id)->0.id == id,
    decreases bs.len(),
{
    if bs.len() > 0 && bs.last().id != id {
        lemma_last_with_id_is(bs.drop_last(), id);
    }
}

// ---------------------------------------------------------------------------
// Cycles
// ---------------------------------------------------------------------------

/// Whether some edge of `es` goes from `a` to `b`.
pub open spec fn edge_between(es: Seq<EdgeV>, a: Seq<char>, b: Seq<char>) -> bool {
    exists|k: int| 0 <= k < es.len() && es[k].from == a && es[k].to == b
}

/// Whether `p` is a walk through ids of `ids` along edges of `es`.
pub open spec fn is_walk(ids: Seq<Seq<char>>, es: Seq<EdgeV>, p: Seq<Seq<char>>) -> bool {
    &&& forall|i: int| 0 <= i < p.len() ==> ids.contains(#[trigger] p[i])
    &&& forall|i: int| 0 <= i < p.len() - 1 ==> edge_between(es, #[trigger] p[i], p[i + 1])
}

/// Whether id `x` lies on a cycle: a walk of at least one edge leads from
/// `x` back to `x`.
pub open spec fn on_cycle(ids: Seq<Seq<char>>, es: Seq<EdgeV>, x: Seq<char>) -> bool {
    exists|p: Seq<Seq<char>>| p.len() >= 2 && p[0] == x && p.last() == x && is_walk(ids, es, p)
}

/// Whether `(a, b)` is one of `pairs`.
pub open spec fn is_pair(pairs: Seq<(usize, usize)>, a: usize, b: usize) -> bool {
    exists|r: int| 0 <= r < pairs.len() && pairs[r] == (a, b)
}

/// Whether `q` is a walk along `pairs`.
pub open spec fn pair_walk(pairs: Seq<(usize, usize)>, q: Seq<usize>) -> bool {
    forall|i: int| 0 <= i < q.len() - 1 ==> is_pair(pairs, #[trigger] q[i], q[i + 1])
}

/// Whether a walk of at least one pair leads from `a` to `b`.
pub open spec fn reaches(pairs: Seq<(usize, usize)>, a: usize, b: usize) -> bool {
    exists|q: Seq<usize>| q.len() >= 2 && q[0] == a && q.last() == b && pair_walk(pairs, q)
}

proof fn lemma_walk_push(pairs: Seq<(usize, usize)>, q: Seq<usize>, b: usize)
    requires
        q.len() >= 1,
        pair_walk(pairs, q),
        is_pair(pairs, q.last(), b),
    ensures
        pair_walk(pairs, q.push(b)),
{
    let q2 = q.push(b);
    assert forall|i: int| 0 <= i < q2.len() - 1 implies is_pair(pairs, #[trigger] q2[i], q2[i + 1]) by {
        if i < q.len() - 1 {
            assert(q2[i] == q[i] && q2[i + 1] == q[i + 1]);
        } else {
            assert(q2[i] == q.last() && q2[i + 1] == b);
        }
    }
}

proof fn lemma_closed_reach(pairs: Seq<(usize, usize)>, v: usize, mark: Seq<bool>, q: Seq<usize>)
    requires
        q.len() >= 2,
        q[0] == v,
        pair_walk(pairs, q),
        forall|r: int| 0 <= r < pairs.len() ==> (#[trigger] pairs[r]).0 < mark.len() && pairs[r].1 < mark.len(),
        forall|r: int| 0 <= r < pairs.len() && (#[trigger] pairs[r]).0 == v ==> mark[pairs[r].1 as int],
        forall|r: int| 0 <= r < pairs.len() && mark[(#[trigger] pairs[r]).0 as int] ==> mark[pairs[r].1 as int],
    ensures
        mark[q.last() as int],
    decreases q.len(),
{
    let n = q.len();
    assert(is_pair(pairs, q[n - 2], q[n - 1]));
    let r = choose|r: int| 0 <= r < pairs.len() && pairs[r] == (q[n - 2], q[n - 1]);
    if n == 2 {
        assert(pairs[r].0 == v);
    } else {
        let q1 = q.drop_last();
        assert forall|i: int| 0 <= i < q1.len() - 1 implies is_pair(pairs, #[trigger] q1[i], q1[i + 1]) by {
            assert(q1[i] == q[i] && q1[i + 1] == q[i + 1]);
        }
        lemma_closed_reach(pairs, v, mark, q1);
        assert(mark[pairs[r].0 as int]);
    }
}

/// Whether a walk of at least one pair leads from node `v` back to `v`.
pub fn reaches_self(v: usize, n: usize, pairs: &Vec<(usize, usize)>) -> (r: bool)
    requires
        v < n,
        forall|i: int| 0 <= i < pairs@.len() ==> (#[trigger] pairs@[i]).0 < n && pairs@[i].1 < n,
    ensures
        r == reaches(pairs@, v, v),
{
    let ghost ps = pairs@;
    let mut mark: Vec<bool> = Vec::new();
    let mut z: usize = 0;
    while z < n
        invariant
            z <= n,
            mark@.len() == z,
            forall|w: int| 0 <= w < z ==> !mark@[w],
        decreases n - z,
    {
        mark.push(false);
        z = z + 1;
    }
    let mut k: usize = 0;
    while k < pairs.len()
        invariant
            ps == pairs@,
            v < n,
            mark@.len() == n,
            k <= ps.len(),
            forall|i: int| 0 <= i < ps.len() ==> (#[trigger] ps[i]).0 < n && ps[i].1 < n,
            forall|w: int| 0 <= w < n && #[trigger] mark@[w] ==> reaches(ps, v, w as usize),
            forall|r: int| 0 <= r < k && (#[trigger] ps[r]).0 == v ==> mark@[ps[r].1 as int],
        decreases ps.len() - k,
    {
        let (a, b) = pairs[k];
        if a == v {
            proof {
                let q = seq![v, b];
                assert(is_pair(ps, v, b));
                assert(q[0] == v && q[1] == b && q.last() == b);
                assert(pair_walk(ps, q));
                assert(reaches(ps, v, b));
            }
            mark.set(b, true);
        }
        k = k + 1;
    }
    let mut changed = true;
    proof {
        lemma_count_true_bound(mark@);
    }
    while changed
        invariant
            ps == pairs@,
            v < n,
            mark@.len() == n,
            count_true(mark@) <= n,
            forall|i: int| 0 <= i < ps.len() ==> (#[trigger] ps[i]).0 < n && ps[i].1 < n,
            forall|w: int| 0 <= w < n && #[trigger] mark@[w] ==> reaches(ps, v, w as usize),
            forall|r: int| 0 <= r < ps.len() && (#[trigger] ps[r]).0 == v ==> mark@[ps[r].1 as int],
            !changed ==> forall|r: int|
                0 <= r < ps.len() && mark@[(#[trigger] ps[r]).0 as int] ==> mark@[ps[r].1 as int],
        decreases n - count_true(mark@) + if changed {
            1int
        } else {
            0int
        },
    {
        let ghost m0 = mark@;
        changed = false;
        let mut r: usize = 0;
        while r < pairs.len()
            invariant
                ps == pairs@,
                v < n,
                mark@.len() == n,
                m0.len() == n,
                r <= ps.len(),
                forall|i: int| 0 <= i < ps.len() ==> (#[trigger] ps[i]).0 < n && ps[i].1 < n,
                forall|w: int| 0 <= w < n && #[trigger] mark@[w] ==> reaches(ps, v, w as usize),
                forall|w: int| 0 <= w < n && m0[w] ==> #[trigger] mark@[w],
                forall|i: int| 0 <= i < ps.len() && (#[trigger] ps[i]).0 == v ==> mark@[ps[i].1 as int],
                changed ==> count_true(mark@) > count_true(m0),
                !changed ==> mark@ == m0,
                !changed ==> forall|i: int|
                    0 <= i < r && mark@[(#[trigger] ps[i]).0 as int] ==> mark@[ps[i].1 as int],
            decreases ps.len() - r,
        {
            let (a, b) = pairs[r];
            if mark[a] && !mark[b] {
                let ghost mb = mark@;
                proof {
                    let q = choose|q: Seq<usize>| q.len() >= 2 && q[0] == v && q.last() == a && pair_walk(ps, q);
                    assert(is_pair(ps, a, b));
                    lemma_walk_push(ps, q, b);
                    assert(q.push(b).last() == b);
                    assert(reaches(ps, v, b));
                    lemma_count_true_set(mb, b as int);
                    lemma_count_true_mono(m0, mb);
                }
                mark.set(b, true);
                changed = true;
            }
            r = r + 1;
        }
        proof {
            lemma_count_true_bound(mark@);
        }
    }
    proof {
        if reaches(ps, v, v) {
            let q = choose|q: Seq<usize>| q.len() >= 2 && q[0] == v && q.last() == v && pair_walk(ps, q);
            lemma_closed_reach(ps, v, mark@, q);
        }
    }
    mark[v]
}

/// An id of `nodes` lies on a cycle of `es` exactly when its index reaches
/// itself along the resolved pairs.
pub proof fn lemma_on_cycle_reaches(
    ids: Seq<Seq<char>>,
    nodes: Seq<Seq<char>>,
    es: Seq<EdgeV>,
    pairs: Seq<(usize, usize)>,
    v: int,
)
    requires
        nodes.no_duplicates(),
        forall|x: Seq<char>| nodes.contains(x) <==> ids.contains(x),
        resolves(nodes, es, pairs),
        0 <= v < nodes.len(),
        nodes.len() <= usize::MAX,
    ensures
        on_cycle(ids, es, nodes[v]) == reaches(pairs, v as usize, v as usize),
{
    if reaches(pairs, v as usize, v as usize) {
        let q = choose|q: Seq<usize>| q.len() >= 2 && q[0] == v as usize && q.last() == v as usize && pair_walk(pairs, q);
        assert forall|i: int| 0 <= i < q.len() implies (#[trigger] q[i]) < nodes.len() by {
            if i < q.len() - 1 {
                assert(is_pair(pairs, q[i], q[i + 1]));
            } else {
                assert(q[i] == v as usize);
            }
        }
        let p = Seq::new(q.len(), |i: int| nodes[q[i] as int]);
        assert forall|i: int| 0 <= i < p.len() implies ids.contains(#[trigger] p[i]) by {
            assert(nodes.contains(nodes[q[i] as int]));
        }
        assert forall|i: int| 0 <= i < p.len() - 1 implies edge_between(es, #[trigger] p[i], p[i + 1]) by {
            assert(is_pair(pairs, q[i], q[i + 1]));
            let r = choose|r: int| 0 <= r < pairs.len() && pairs[r] == (q[i], q[i + 1]);
            assert(pairs[r].0 == q[i] && pairs[r].1 == q[i + 1]);
        }
        assert(p[0] == nodes[v] && p.last() == nodes[v]);
        assert(is_walk(ids, es, p));
    }
    if on_cycle(ids, es, nodes[v]) {
        let p = choose|p: Seq<Seq<char>>| p.len() >= 2 && p[0] == nodes[v] && p.last() == nodes[v] && is_walk(ids, es, p);
        assert forall|i: int| 0 <= i < p.len() implies nodes.contains(#[trigger] p[i]) by {
            assert(ids.contains(p[i]));
        }
        let q = Seq::new(p.len(), |i: int| (choose|w: int| 0 <= w < nodes.len() && nodes[w] == p[i]) as usize);
        assert forall|i: int| 0 <= i < q.len() implies (#[trigger] q[i]) < nodes.len() && nodes[q[i] as int] == p[i] by {
            assert(nodes.contains(p[i]));
            let w = choose|w: int| 0 <= w < nodes.len() && nodes[w] == p[i];
            assert(q[i] == w as usize);
        }
        assert forall|i: int| 0 <= i < q.len() - 1 implies is_pair(pairs, #[trigger] q[i], q[i + 1]) by {
            assert(edge_between(es, p[i], p[i + 1]));
            let k = choose|k: int| 0 <= k < es.len() && es[k].from == p[i] && es[k].to == p[i + 1];
            assert(nodes[q[i] as int] == p[i] && nodes[q[i + 1] as int] == p[i + 1]);
            assert(es[k].from == nodes[q[i] as int] && es[k].to == nodes[q[i + 1] as int]);
        }
        assert(q[0] == v as usize) by {
            assert(nodes[q[0] as int] == nodes[v]);
        }
        assert(q.last() == v as usize) by {
            assert(nodes[q[q.len() - 1] as int] == nodes[v]);
        }
        assert(pair_walk(pairs, q));
    }
}

/// Where `x` goes among `o`: after the leading ids ranked below it.
pub open spec fn rank_pos(o: Seq<Seq<char>>, x: Seq<char>, rank: spec_fn(Seq<char>) -> nat) -> int
    decreases o.len(),
{
    if o.len() == 0 || rank(x) <= rank(o[0]) {
        0
    } else {
        1 + rank_pos(o.drop_first(), x, rank)
    }
}

/// `ids` ordered by `rank`, by insertion.
pub open spec fn rank_sorted(ids: Seq<Seq<char>>, rank: spec_fn(Seq<char>) -> nat) -> Seq<Seq<char>>
    decreases ids.len(),
{
    if ids.len() == 0 {
        Seq::empty()
    } else {
        let o = rank_sorted(ids.drop_last(), rank);
        let p = rank_pos(o, ids.last(), rank);
        o.take(p).push(ids.last()) + o.skip(p)
    }
}

proof fn lemma_rank_pos(o: Seq<Seq<char>>, x: Seq<char>, rank: spec_fn(Seq<char>) -> nat)
    requires
        forall|i: int, j: int| 0 <= i < j < o.len() ==> rank(o[i]) <= rank(o[j]),
    ensures
        0 <= rank_pos(o, x, rank) <= o.len(),
        forall|i: int| 0 <= i < rank_pos(o, x, rank) ==> rank(#[trigger] o[i]) < rank(x),
        forall|i: int| rank_pos(o, x, rank) <= i < o.len() ==> rank(x) <= rank(#[trigger] o[i]),
    decreases o.len(),
{
    if o.len() > 0 && !(rank(x) <= rank(o[0])) {
        let t = o.drop_first();
        assert forall|i: int, j: int| 0 <= i < j < t.len() implies rank(t[i]) <= rank(t[j]) by {
            assert(t[i] == o[i + 1] && t[j] == o[j + 1]);
        }
        lemma_rank_pos(t, x, rank);
        let p = rank_pos(o, x, rank);
        assert forall|i: int| 0 <= i < p implies rank(#[trigger] o[i]) < rank(x) by {
            if i > 0 {
                assert(o[i] == t[i - 1]);
            }
        }
        assert forall|i: int| p <= i < o.len() implies rank(x) <= rank(#[trigger] o[i]) by {
            assert(o[i] == t[i - 1]);
        }
    } else if o.len() > 0 {
        assert forall|i: int| 0 <= i < o.len() implies rank(x) <= rank(#[trigger] o[i]) by {
            if i > 0 {
                assert(rank(o[0]) <= rank(o[i]));
            }
        }
    }
}

proof fn lemma_rank_sorted(ids: Seq<Seq<char>>, rank: spec_fn(Seq<char>) -> nat)
    requires
        ids.no_duplicates(),
    ensures
        rank_sorted(ids, rank).len() == ids.len(),
        rank_sorted(ids, rank).no_duplicates(),
        forall|x: Seq<char>| rank_sorted(ids, rank).contains(x) <==> ids.contains(x),
        forall|i: int, j: int|
            0 <= i < j < rank_sorted(ids, rank).len() ==> rank(rank_sorted(ids, rank)[i]) <= rank(
                rank_sorted(ids, rank)[j],
            ),
    decreases ids.len(),
{
    if ids.len() > 0 {
        let d = ids.drop_last();
        assert forall|a: int, b: int| 0 <= a < d.len() && 0 <= b < d.len() && a != b implies d[a] != d[b] by {
            assert(d[a] == ids[a] && d[b] == ids[b]);
        }
        lemma_rank_sorted(d, rank);
        let o0 = rank_sorted(d, rank);
        let x = ids.last();
        lemma_rank_pos(o0, x, rank);
        let p = rank_pos(o0, x, rank);
        let o = o0.take(p).push(x) + o0.skip(p);
        assert(o == rank_sorted(ids, rank));
        assert(o.len() == o0.len() + 1);
        assert(forall|i: int| 0 <= i < p ==> o[i] == o0[i]);
        assert(o[p] == x);
        assert(forall|i: int| p < i < o.len() ==> o[i] == o0[i - 1]);
        assert(!d.contains(x)) by {
            if d.contains(x) {
                let m = choose|m: int| 0 <= m < d.len() && d[m] == x;
                assert(ids[m] == ids[ids.len() - 1]);
            }
        }
        assert(!o0.contains(x));
        assert forall|y: Seq<char>| o.contains(y) <==> ids.contains(y) by {
            if o.contains(y) {
                let m = choose|m: int| 0 <= m < o.len() && o[m] == y;
                if m < p {
                    assert(o0[m] == y);
                    assert(o0.contains(y));
                    assert(d.contains(y));
                    let q = choose|q: int| 0 <= q < d.len() && d[q] == y;
                    assert(d[q] == ids[q]);
                    assert(ids[q] == y);
                } else if m == p {
                    assert(ids[ids.len() - 1] == y);
                } else {
                    assert(o0[m - 1] == y);
                    assert(o0.contains(y));
                    assert(d.contains(y));
                    let q = choose|q: int| 0 <= q < d.len() && d[q] == y;
                    assert(d[q] == ids[q]);
                    assert(ids[q] == y);
                }
            }
            if ids.contains(y) {
                let m = choose|m: int| 0 <= m < ids.len() && ids[m] == y;
                if m == ids.len() - 1 {
                    assert(o[p] == y);
                } else {
                    assert(d[m] == y);
                    assert(d.contains(y));
                    assert(o0.contains(y));
                    let q = choose|q: int| 0 <= q < o0.len() && o0[q] == y;
                    if q < p {
                        assert(o[q] == y);
                    } else {
                        assert(o[q + 1] == y);
                    }
                }
            }
        }
        assert forall|a: int, b: int| 0 <= a < o.len() && 0 <= b < o.len() && a != b implies o[a] != o[b] by {
            if a == p {
                if b < p {
                    assert(o0.contains(o[b]));
                } else {
                    assert(o0[b - 1] == o[b]);
                }
            } else if b == p {
                if a < p {
                    assert(o0[a] == o[a]);
                } else {
                    assert(o0[a - 1] == o[a]);
                }
            } else {
                let a0 = if a < p { a } else { a - 1 };
                let b0 = if b < p { b } else { b - 1 };
                assert(o[a] == o0[a0] && o[b] == o0[b0]);
            }
        }
        assert forall|i: int, j: int| 0 <= i < j < o.len() implies rank(o[i]) <= rank(o[j]) by {
            if j < p {
                assert(o[i] == o0[i] && o[j] == o0[j]);
            } else if j == p {
                assert(o[i] == o0[i]);
            } else if i < p {
                assert(o[i] == o0[i] && o[j] == o0[j - 1]);
            } else if i == p {
                assert(o[j] == o0[j - 1]);
            } else {
                assert(o[i] == o0[i - 1] && o[j] == o0[j - 1]);
            }
        }
    }
}

/// A topological order of the blocks exists (so `topo_sort_ids` succeeds)
/// exactly when their ids are distinct and the edges between them form no
/// cycle.
pub proof fn law_topo_order_exists(g: GraphV)
    ensures
        (exists|order: Seq<Seq<char>>| is_topo_order(ids_of(g.blocks), g.edges, order)) <==> (ids_of(
            g.blocks,
        ).no_duplicates() && acyclic(g)),
{
    let ids = ids_of(g.blocks);
    let es = g.edges;
    if exists|order: Seq<Seq<char>>| is_topo_order(ids, es, order) {
        let order = choose|order: Seq<Seq<char>>| is_topo_order(ids, es, order);
        lemma_order_needs_distinct(ids, es, order);
        let rank = |x: Seq<char>| (choose|i: int| 0 <= i < order.len() && order[i] == x) as nat;
        assert(edges_ranked(g, rank)) by {
            reveal(edges_forward);
            assert forall|k: int|
                0 <= k < es.len() && ids.contains((#[trigger] es[k]).from) && ids.contains(es[k].to) implies rank(
                es[k].from,
            ) < rank(es[k].to) by {
                assert(order.contains(es[k].from) && order.contains(es[k].to));
                let i = choose|i: int| 0 <= i < order.len() && order[i] == es[k].from;
                let j = choose|j: int| 0 <= j < order.len() && order[j] == es[k].to;
                assert(order[i] == es[k].from && order[j] == es[k].to);
                assert(i < j);
            }
        }
    }
    if ids.no_duplicates() && acyclic(g) {
        let rank = choose|rank: spec_fn(Seq<char>) -> nat| edges_ranked(g, rank);
        lemma_rank_sorted(ids, rank);
        let order = rank_sorted(ids, rank);
        assert(edges_forward(es, order)) by {
            reveal(edges_forward);
            assert forall|k: int, i: int, j: int|
                #![trigger es[k], order[i], order[j]]
                0 <= k < es.len() && 0 <= i < order.len() && 0 <= j < order.len() && order[i] == es[k].from
                    && order[j] == es[k].to implies i < j by {
                assert(order.contains(es[k].from) && order.contains(es[k].to));
                assert(ids.contains(es[k].from) && ids.contains(es[k].to));
                assert(rank(es[k].from) < rank(es[k].to));
                if j < i {
                    assert(rank(order[j]) <= rank(order[i]));
                }
            }
        }
        assert(is_topo_order(ids, es, order));
    }
}

} // verus!
