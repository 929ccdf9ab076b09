//! The parts of drawing a graph that need no geometry: the layer of each
//! block, the colour category of a block type, and shape labels.
use vstd::prelude::*;

use crate::graph::{blocks_view, edges_view, Block, Edge, EdgeV};
use crate::graph_utils::{block_ids, ids_of, is_topo_order, topo_sort_ids};
use crate::strmap::StrMap;
use crate::text::{clone_string, decimal, join, push_str, str_eq, string_of, strs_view};

verus! {

// ---------------------------------------------------------------------------
// Layers
// ---------------------------------------------------------------------------

/// The layer recorded for `id`, 0 when none is.
pub open spec fn layer_of(m: Map<Seq<char>, int>, id: Seq<char>) -> int {
    if m.contains_key(id) {
        m[id]
    } else {
        0
    }
}

/// Pushes the targets of the edges of `es` that leave `id` to at least
/// layer `cur + 1`, edge by edge.
pub open spec fn relax(m: Map<Seq<char>, int>, id: Seq<char>, cur: int, es: Seq<EdgeV>) -> Map<Seq<char>, int>
    decreases es.len(),
{
    if es.len() == 0 {
        m
    } else {
        let m1 = relax(m, id, cur, es.drop_last());
        let e = es.last();
        if e.from == id && layer_of(m1, e.to) < cur + 1 {
            m1.insert(e.to, cur + 1)
        } else {
            m1
        }
    }
}

/// Every id of `ids` at layer 0.
pub open spec fn zero_layers(ids: Seq<Seq<char>>) -> Map<Seq<char>, int> {
    Map::new(|k: Seq<char>| ids.contains(k), |k: Seq<char>| 0int)
}

/// The layers after the first `k` ids of `ids` have pushed their successors.
pub open spec fn layers_upto(ids: Seq<Seq<char>>, es: Seq<EdgeV>, k: int) -> Map<Seq<char>, int>
    decreases k,
{
    if k <= 0 {
        zero_layers(ids)
    } else {
        let m = layers_upto(ids, es, k - 1);
        relax(m, ids[k - 1], layer_of(m, ids[k - 1]), es)
    }
}

/// The layers of a map of `usize` values.
pub open spec fn int_values(m: StrMap<usize>) -> Map<Seq<char>, int> {
    m.map().map_values(|v: usize| v as int)
}

proof fn lemma_relax_bound(m: Map<Seq<char>, int>, id: Seq<char>, cur: int, es: Seq<EdgeV>, b: int)
    requires
        forall|k: Seq<char>| m.contains_key(k) ==> 0 <= #[trigger] m[k] <= b,
        0 <= cur,
        cur + 1 <= b,
    ensures
        forall|k: Seq<char>| relax(m, id, cur, es).contains_key(k) ==> 0 <= #[trigger] relax(m, id, cur, es)[k] <= b,
    decreases es.len(),
{
    if es.len() > 0 {
        lemma_relax_bound(m, id, cur, es.drop_last(), b);
        let m1 = relax(m, id, cur, es.drop_last());
        let r = relax(m, id, cur, es);
        assert forall|k: Seq<char>| r.contains_key(k) implies 0 <= #[trigger] r[k] <= b by {
            if m1.contains_key(k) {
                assert(0 <= m1[k] <= b);
            }
        }
    }
}

proof fn lemma_relax_grows(m: Map<Seq<char>, int>, id: Seq<char>, cur: int, es: Seq<EdgeV>, key: Seq<char>)
    ensures
        layer_of(relax(m, id, cur, es), key) >= layer_of(m, key),
        (forall|k: int| 0 <= k < es.len() && (#[trigger] es[k]).from == id ==> es[k].to != key) ==> layer_of(
            relax(m, id, cur, es),
            key,
        ) == layer_of(m, key),
    decreases es.len(),
{
    if es.len() > 0 {
        lemma_relax_grows(m, id, cur, es.drop_last(), key);
        if forall|k: int| 0 <= k < es.len() && (#[trigger] es[k]).from == id ==> es[k].to != key {
            assert forall|k: int| 0 <= k < es.drop_last().len() && (#[trigger] es.drop_last()[k]).from == id implies es.drop_last()[k].to != key by {
                assert(es.drop_last()[k] == es[k]);
            }
        }
    }
}

proof fn lemma_relax_lifts(m: Map<Seq<char>, int>, id: Seq<char>, cur: int, es: Seq<EdgeV>, k: int)
    requires
        0 <= k < es.len(),
        es[k].from == id,
    ensures
        layer_of(relax(m, id, cur, es), es[k].to) >= cur + 1,
    decreases es.len(),
{
    let m1 = relax(m, id, cur, es.drop_last());
    if k < es.len() - 1 {
        assert(es.drop_last()[k] == es[k]);
        lemma_relax_lifts(m, id, cur, es.drop_last(), k);
        assert(layer_of(relax(m, id, cur, es), es[k].to) >= layer_of(m1, es[k].to));
    }
}

proof fn lemma_relax_source(m: Map<Seq<char>, int>, id: Seq<char>, cur: int, es: Seq<EdgeV>, key: Seq<char>)
    ensures
        layer_of(relax(m, id, cur, es), key) == layer_of(m, key) || (layer_of(relax(m, id, cur, es), key) == cur + 1
            && exists|k: int| 0 <= k < es.len() && (#[trigger] es[k]).from == id && es[k].to == key),
    decreases es.len(),
{
    if es.len() > 0 {
        lemma_relax_source(m, id, cur, es.drop_last(), key);
        let m1 = relax(m, id, cur, es.drop_last());
        if layer_of(m1, key) != layer_of(m, key) {
            let k = choose|k: int| 0 <= k < es.drop_last().len() && (#[trigger] es.drop_last()[k]).from == id
                && es.drop_last()[k].to == key;
            assert(es[k] == es.drop_last()[k]);
        }
        let e = es.last();
        if e.from == id && layer_of(m1, e.to) < cur + 1 && e.to == key {
            assert(es[es.len() - 1] == e);
        }
    }
}

proof fn lemma_layers_tight_upto(ids: Seq<Seq<char>>, es: Seq<EdgeV>, n: int)
    requires
        0 <= n <= ids.len(),
        forall|k: int, i: int, j: int|
            #![trigger es[k], ids[i], ids[j]]
            0 <= k < es.len() && 0 <= i < ids.len() && 0 <= j < ids.len() && ids[i] == es[k].from
                && ids[j] == es[k].to ==> i < j,
    ensures
        forall|x: Seq<char>|
            #[trigger] layer_of(layers_upto(ids, es, n), x) > 0 ==> exists|k: int, j: int|
                0 <= k < es.len() && 0 <= j < n && ids[j] == es[k].from && es[k].to == x && layer_of(
                    layers_upto(ids, es, n),
                    x,
                ) == layer_of(layers_upto(ids, es, n), ids[j]) + 1,
    decreases n,
{
    if n > 0 {
        let i = n - 1;
        lemma_layers_tight_upto(ids, es, i);
        let m = layers_upto(ids, es, i);
        let id = ids[i];
        let cur = layer_of(m, id);
        let m2 = layers_upto(ids, es, n);
        assert(m2 == relax(m, id, cur, es));
        assert forall|k: int| 0 <= k < es.len() && (#[trigger] es[k]).from == id implies es[k].to != id by {
            if es[k].to == id {
                assert(ids[i] == es[k].from && ids[i] == es[k].to);
            }
        }
        lemma_relax_grows(m, id, cur, es, id);
        assert forall|x: Seq<char>| #[trigger] layer_of(m2, x) > 0 implies exists|k: int, j: int|
            0 <= k < es.len() && 0 <= j < n && ids[j] == es[k].from && es[k].to == x && layer_of(m2, x) == layer_of(
                m2,
                ids[j],
            ) + 1 by {
            lemma_relax_source(m, id, cur, es, x);
            if layer_of(m2, x) == layer_of(m, x) {
                assert(layer_of(m, x) > 0);
                let (k, j) = choose|k: int, j: int|
                    0 <= k < es.len() && 0 <= j < i && ids[j] == es[k].from && es[k].to == x && layer_of(m, x)
                        == layer_of(m, ids[j]) + 1;
                assert forall|q: int| 0 <= q < es.len() && (#[trigger] es[q]).from == id implies es[q].to != ids[j] by {
                    if es[q].to == ids[j] {
                        assert(ids[i] == es[q].from && ids[j] == es[q].to);
                    }
                }
                lemma_relax_grows(m, id, cur, es, ids[j]);
                assert(0 <= k < es.len() && 0 <= j < n && ids[j] == es[k].from && es[k].to == x && layer_of(m2, x)
                    == layer_of(m2, ids[j]) + 1);
            } else {
                let k = choose|k: int| 0 <= k < es.len() && (#[trigger] es[k]).from == id && es[k].to == x;
                assert(ids[i] == es[k].from);
                assert(0 <= k < es.len() && 0 <= i < n && ids[i] == es[k].from && es[k].to == x && layer_of(m2, x)
                    == layer_of(m2, ids[i]) + 1);
            }
        }
    } else {
        assert forall|x: Seq<char>| #[trigger] layer_of(layers_upto(ids, es, 0), x) == 0 by {}
    }
}

proof fn lemma_layers_nonneg(ids: Seq<Seq<char>>, es: Seq<EdgeV>, n: int)
    requires
        0 <= n <= ids.len(),
    ensures
        forall|x: Seq<char>| #[trigger] layer_of(layers_upto(ids, es, n), x) >= 0,
    decreases n,
{
    if n > 0 {
        lemma_layers_nonneg(ids, es, n - 1);
        let m = layers_upto(ids, es, n - 1);
        assert forall|x: Seq<char>| #[trigger] layer_of(layers_upto(ids, es, n), x) >= 0 by {
            lemma_relax_grows(m, ids[n - 1], layer_of(m, ids[n - 1]), es, x);
        }
    }
}

/// When the ids come in an order where every edge between two of them goes
/// forward, the layers are the longest paths from a source: every edge
/// leaving one of them ends at least one layer below its source, no layer
/// is negative, and a block above layer 0 sits exactly one layer below one
/// of the blocks that feed it.
pub proof fn law_layers_follow_edges(ids: Seq<Seq<char>>, es: Seq<EdgeV>)
    requires
        forall|k: int, i: int, j: int|
            #![trigger es[k], ids[i], ids[j]]
            0 <= k < es.len() && 0 <= i < ids.len() && 0 <= j < ids.len() && ids[i] == es[k].from
                && ids[j] == es[k].to ==> i < j,
    ensures
        forall|k: int|
            0 <= k < es.len() && ids.contains((#[trigger] es[k]).from) ==> layer_of(
                layers_upto(ids, es, ids.len() as int),
                es[k].to,
            ) >= layer_of(layers_upto(ids, es, ids.len() as int), es[k].from) + 1,
        forall|x: Seq<char>|
            #[trigger] layer_of(layers_upto(ids, es, ids.len() as int), x) > 0 ==> exists|k: int|
                0 <= k < es.len() && ids.contains(es[k].from) && es[k].to == x && layer_of(
                    layers_upto(ids, es, ids.len() as int),
                    x,
                ) == layer_of(layers_upto(ids, es, ids.len() as int), #[trigger] es[k].from) + 1,
        forall|x: Seq<char>| #[trigger] layer_of(layers_upto(ids, es, ids.len() as int), x) >= 0,
{
    lemma_layers_follow_upto(ids, es, ids.len() as int);
    lemma_layers_tight_upto(ids, es, ids.len() as int);
    let lm = layers_upto(ids, es, ids.len() as int);
    assert forall|x: Seq<char>| #[trigger] layer_of(lm, x) > 0 implies exists|k: int|
        0 <= k < es.len() && ids.contains(es[k].from) && es[k].to == x && layer_of(lm, x) == layer_of(
            lm,
            #[trigger] es[k].from,
        ) + 1 by {
        let (k, j) = choose|k: int, j: int|
            0 <= k < es.len() && 0 <= j < ids.len() && ids[j] == es[k].from && es[k].to == x && layer_of(lm, x)
                == layer_of(lm, ids[j]) + 1;
        assert(ids.contains(es[k].from));
    }
    lemma_layers_nonneg(ids, es, ids.len() as int);
    assert forall|k: int| 0 <= k < es.len() && ids.contains((#[trigger] es[k]).from) implies layer_of(
        layers_upto(ids, es, ids.len() as int),
        es[k].to,
    ) >= layer_of(layers_upto(ids, es, ids.len() as int), es[k].from) + 1 by {
        let j = choose|j: int| 0 <= j < ids.len() && ids[j] == es[k].from;
        assert(ids[j] == es[k].from);
    }
}

proof fn lemma_layers_follow_upto(ids: Seq<Seq<char>>, es: Seq<EdgeV>, n: int)
    requires
        0 <= n <= ids.len(),
        forall|k: int, i: int, j: int|
            #![trigger es[k], ids[i], ids[j]]
            0 <= k < es.len() && 0 <= i < ids.len() && 0 <= j < ids.len() && ids[i] == es[k].from
                && ids[j] == es[k].to ==> i < j,
    ensures
        forall|k: int, j: int|
            #![trigger es[k], ids[j]]
            0 <= k < es.len() && 0 <= j < n && ids[j] == es[k].from ==> layer_of(
                layers_upto(ids, es, n),
                es[k].to,
            ) >= layer_of(layers_upto(ids, es, n), ids[j]) + 1,
    decreases n,
{
    if n > 0 {
        let i = n - 1;
        lemma_layers_follow_upto(ids, es, i);
        let m = layers_upto(ids, es, i);
        let id = ids[i];
        let cur = layer_of(m, id);
        let m2 = layers_upto(ids, es, n);
        assert(m2 == relax(m, id, cur, es));
        // the layer of `id` itself does not move: no edge leads from it to it
        assert forall|k: int| 0 <= k < es.len() && (#[trigger] es[k]).from == id implies es[k].to != id by {
            if es[k].to == id {
                assert(ids[i] == es[k].from && ids[i] == es[k].to);
            }
        }
        lemma_relax_grows(m, id, cur, es, id);
        assert forall|k: int, j: int|
            #![trigger es[k], ids[j]]
            0 <= k < es.len() && 0 <= j < n && ids[j] == es[k].from implies layer_of(m2, es[k].to)
                >= layer_of(m2, ids[j]) + 1 by {
            if j == i {
                lemma_relax_lifts(m, id, cur, es, k);
            } else {
                lemma_relax_grows(m, id, cur, es, es[k].to);
                assert forall|q: int| 0 <= q < es.len() && (#[trigger] es[q]).from == id implies es[q].to != ids[j] by {
                    if es[q].to == ids[j] {
                        assert(ids[i] == es[q].from && ids[j] == es[q].to);
                    }
                }
                lemma_relax_grows(m, id, cur, es, ids[j]);
            }
        }
    }
}

/// The layer of each block: all start at 0; then, taking the ids in order,
/// every edge leaving a block lifts its target to at least one more than
/// that block's layer (the longest path from a source when the ids are in
/// topological order).
pub fn assign_layers(block_ids: &Vec<String>, edges: &[Edge]) -> (r: StrMap<usize>)
    ensures
        int_values(r) == layers_upto(strs_view(block_ids@), edges_view(edges@), block_ids@.len() as int),
{
    let ghost ids = strs_view(block_ids@);
    let ghost es = edges_view(edges@);
    let mut layer: StrMap<usize> = StrMap::new();
    let mut i: usize = 0;
    while i < block_ids.len()
        invariant
            ids == strs_view(block_ids@),
            i <= block_ids@.len(),
            int_values(layer) == Map::new(|k: Seq<char>| ids.take(i as int).contains(k), |k: Seq<char>| 0int),
        decreases block_ids@.len() - i,
    {
        let ghost before = int_values(layer);
        let key = clone_string(&block_ids[i]);
        assert(key@ == ids[i as int]);
        layer.insert(key, 0);
        proof {
            assert(int_values(layer) =~= before.insert(ids[i as int], 0int));
            assert(ids.take(i + 1) =~= ids.take(i as int).push(ids[i as int]));
            assert forall|k: Seq<char>| ids.take(i + 1).contains(k) <==> (ids.take(i as int).contains(k) || k == ids[i as int]) by {
                crate::text::lemma_push_contains(ids.take(i as int), ids[i as int], k);
            }
            let target = Map::new(|k: Seq<char>| ids.take(i + 1).contains(k), |k: Seq<char>| 0int);
            assert forall|k: Seq<char>| #[trigger] int_values(layer).contains_key(k) <==> target.contains_key(k) by {
                crate::text::lemma_push_contains(ids.take(i as int), ids[i as int], k);
            }
            assert forall|k: Seq<char>| #[trigger] int_values(layer).contains_key(k) implies int_values(layer)[k] == target[k] by {
                crate::text::lemma_push_contains(ids.take(i as int), ids[i as int], k);
            }
            assert(int_values(layer) =~= target);
        }
        i = i + 1;
    }
    proof {
        assert(ids.take(block_ids@.len() as int) =~= ids);
        assert(int_values(layer) =~= zero_layers(ids));
    }
    let n = block_ids.len();
    let mut j: usize = 0;
    while j < n
        invariant
            ids == strs_view(block_ids@),
            es == edges_view(edges@),
            n == block_ids@.len(),
            j <= n,
            int_values(layer) == layers_upto(ids, es, j as int),
            forall|k: Seq<char>| int_values(layer).contains_key(k) ==> 0 <= #[trigger] int_values(layer)[k] <= j,
        decreases n - j,
    {
        let id = &block_ids[j];
        let cur: usize = match layer.get(id.as_str()) {
            Some(v) => *v,
            None => 0,
        };
        let ghost m0 = int_values(layer);
        assert(cur as int == layer_of(m0, ids[j as int]));
        assert(cur <= j);
        let mut q: usize = 0;
        while q < edges.len()
            invariant
                ids == strs_view(block_ids@),
                es == edges_view(edges@),
                j < n,
                n == block_ids@.len(),
                cur <= j,
                id@ == ids[j as int],
                q <= edges@.len(),
                int_values(layer) == relax(m0, ids[j as int], cur as int, es.take(q as int)),
            decreases edges@.len() - q,
        {
            let e = &edges[q];
            proof {
                assert(es.take(q + 1).drop_last() =~= es.take(q as int));
                assert(es.take(q + 1).last() == e.view_edge());
            }
            if str_eq(e.from.as_str(), id.as_str()) {
                let dst_val: usize = match layer.get(e.to.as_str()) {
                    Some(v) => *v,
                    None => 0,
                };
                if dst_val < cur + 1 {
                    let ghost mb = int_values(layer);
                    layer.insert(clone_string(&e.to), cur + 1);
                    proof {
                        assert(int_values(layer) =~= mb.insert(e.to@, cur + 1));
                    }
                }
            }
            q = q + 1;
        }
        proof {
            assert(es.take(edges@.len() as int) =~= es);
            lemma_relax_bound(m0, ids[j as int], cur as int, es, j + 1);
        }
        j = j + 1;
    }
    layer
}

// ---------------------------------------------------------------------------
// Colours and labels
// ---------------------------------------------------------------------------

/// Block types drawn as merges.
pub open spec fn merge_types() -> Seq<Seq<char>> {
    seq!["Add"@, "Mul"@, "Sub"@, "Div"@, "Concat"@, "MatMul"@]
}

/// Block types drawn as activations.
pub open spec fn activation_types() -> Seq<Seq<char>> {
    seq!["ReLU"@, "GELU"@, "Sigmoid"@, "Tanh"@, "LeakyReLU"@, "ELU"@, "Swish"@, "Mish"@, "Softmax"@, "LogSoftmax"@]
}

/// The drawing category of a block type.
pub open spec fn category(block_type: Seq<char>) -> Seq<char> {
    if merge_types().contains(block_type) {
        "merge"@
    } else if activation_types().contains(block_type) {
        "activation"@
    } else {
        "default"@
    }
}

fn one_of(s: &str, options: &Vec<&str>) -> (r: bool)
    ensures
        r == Seq::new(options@.len(), |i: int| options@[i]@).contains(s@),
{
    let ghost ov = Seq::new(options@.len(), |i: int| options@[i]@);
    let mut i: usize = 0;
    while i < options.len()
        invariant
            ov == Seq::new(options@.len(), |i: int| options@[i]@),
            i <= options@.len(),
            forall|j: int| 0 <= j < i ==> ov[j] != s@,
        decreases options@.len() - i,
    {
        if str_eq(s, options[i]) {
            assert(ov[i as int] == s@);
            return true;
        }
        i = i + 1;
    }
    false
}

/// The drawing category of a block type: `merge`, `activation` or `default`.
pub fn block_category(block_type: &str) -> (r: &'static str)
    ensures
        r@ == category(block_type@),
{
    let merges = vec!["Add", "Mul", "Sub", "Div", "Concat", "MatMul"];
    let acts = vec!["ReLU", "GELU", "Sigmoid", "Tanh", "LeakyReLU", "ELU", "Swish", "Mish", "Softmax", "LogSoftmax"];
    proof {
        assert(Seq::new(merges@.len(), |i: int| merges@[i]@) =~= merge_types());
        assert(Seq::new(acts@.len(), |i: int| acts@[i]@) =~= activation_types());
    }
    if one_of(block_type, &merges) {
        "merge"
    } else if one_of(block_type, &acts) {
        "activation"
    } else {
        "default"
    }
}

/// The fill and stroke colours of a block type.
pub open spec fn colors(block_type: Seq<char>) -> (Seq<char>, Seq<char>) {
    if category(block_type) == "merge"@ {
        ("#ede9fe"@, "#7c3aed"@)
    } else if category(block_type) == "activation"@ {
        ("#dcfce7"@, "#16a34a"@)
    } else {
        ("#dbeafe"@, "#2563eb"@)
    }
}

/// The fill and stroke colours of a block type, by its category.
pub fn block_colors(block_type: &str) -> (r: (String, String))
    ensures
        (r.0@, r.1@) == colors(block_type@),
{
    let c = block_category(block_type);
    if str_eq(c, "merge") {
        (string_of("#ede9fe"), string_of("#7c3aed"))
    } else if str_eq(c, "activation") {
        (string_of("#dcfce7"), string_of("#16a34a"))
    } else {
        (string_of("#dbeafe"), string_of("#2563eb"))
    }
}

/// A shape as a label: its sizes separated by commas, in parentheses.
pub open spec fn shape_text(shape: Seq<usize>) -> Seq<char> {
    "("@ + join(Seq::new(shape.len(), |i: int| decimal(shape[i] as nat)), ","@) + ")"@
}

/// The label of a shape, such as `(1,28,28)`.
pub fn shape_label(shape: &[usize]) -> (r: String)
    ensures
        r@ == shape_text(shape@),
{
    let mut parts: Vec<String> = Vec::new();
    let mut i: usize = 0;
    while i < shape.len()
        invariant
            i <= shape@.len(),
            strs_view(parts@) == Seq::new(i as nat, |k: int| decimal(shape@[k] as nat)),
        decreases shape@.len() - i,
    {
        let d = crate::text::usize_to_string(shape[i]);
        let ghost before = strs_view(parts@);
        let ghost dv = d@;
        parts.push(d);
        proof {
            assert(strs_view(parts@) =~= before.push(dv));
            assert(strs_view(parts@) =~= Seq::new((i + 1) as nat, |k: int| decimal(shape@[k] as nat)));
        }
        i = i + 1;
    }
    let inner = crate::text::join_strings(&parts, ",");
    let mut out = string_of("(");
    push_str(&mut out, inner.as_str());
    push_str(&mut out, ")");
    out
}

/// The (name, short name) pairs that a diagram abbreviates.
pub open spec fn short_names() -> Seq<(Seq<char>, Seq<char>)> {
    seq![
        ("filters"@, "f"@),
        ("kernel"@, "k"@),
        ("kernel_size"@, "k"@),
        ("out_features"@, "out"@),
        ("in_features"@, "in"@),
        ("stride"@, "s"@),
        ("padding"@, "p"@),
        ("groups"@, "g"@),
        ("num_heads"@, "h"@),
        ("dropout"@, "drop"@),
    ]
}

/// The short name of the first pair of `pairs` named `name`, or `name`.
pub open spec fn short_in(pairs: Seq<(Seq<char>, Seq<char>)>, name: Seq<char>) -> Seq<char>
    decreases pairs.len(),
{
    if pairs.len() == 0 {
        name
    } else if pairs[0].0 == name {
        pairs[0].1
    } else {
        short_in(pairs.drop_first(), name)
    }
}

/// The name a diagram shows for parameter `name`.
pub open spec fn short_key(name: Seq<char>) -> Seq<char> {
    short_in(short_names(), name)
}

/// The name a diagram shows for parameter `name`: `f` for `filters`, `k`
/// for `kernel` and `kernel_size`, and so on; other names unchanged.
pub fn short_param_key(name: &str) -> (r: String)
    ensures
        r@ == short_key(name@),
{
    let longs = vec!["filters", "kernel", "kernel_size", "out_features", "in_features", "stride", "padding", "groups", "num_heads", "dropout"];
    let shorts = vec!["f", "k", "k", "out", "in", "s", "p", "g", "h", "drop"];
    let ghost pairs = short_names();
    proof {
        reveal_strlit("filters");
        reveal_strlit("kernel");
        reveal_strlit("kernel_size");
        reveal_strlit("out_features");
        reveal_strlit("in_features");
        reveal_strlit("stride");
        reveal_strlit("padding");
        reveal_strlit("groups");
        reveal_strlit("num_heads");
        reveal_strlit("dropout");
        assert forall|j: int| 0 <= j < 10 implies #[trigger] pairs[j] == (longs@[j]@, shorts@[j]@) by {}
        assert(pairs.skip(0) =~= pairs);
    }
    let mut i: usize = 0;
    while i < longs.len()
        invariant
            longs@.len() == 10,
            shorts@.len() == 10,
            pairs == short_names(),
            forall|j: int| 0 <= j < 10 ==> #[trigger] pairs[j] == (longs@[j]@, shorts@[j]@),
            i <= 10,
            short_key(name@) == short_in(pairs.skip(i as int), name@),
        decreases 10 - i,
    {
        let ghost rest = pairs.skip(i as int);
        proof {
            assert(rest[0] == pairs[i as int]);
            assert(rest.drop_first() =~= pairs.skip(i + 1));
        }
        if str_eq(name, longs[i]) {
            return string_of(shorts[i]);
        }
        i = i + 1;
    }
    proof {
        assert(pairs.skip(10).len() == 0);
    }
    string_of(name)
}

/// A short summary of parameters: `key=value` for each pair, keys
/// abbreviated, separated by spaces.
pub open spec fn summary_text(keys: Seq<Seq<char>>, values: Seq<Seq<char>>) -> Seq<char> {
    join(Seq::new(keys.len(), |i: int| short_key(keys[i]) + "="@ + values[i]), " "@)
}

/// The summary of parameters named `keys` whose values read `values`,
/// such as `k=5 f=6`.
pub fn param_summary(keys: &Vec<String>, values: &Vec<String>) -> (r: String)
    requires
        keys@.len() == values@.len(),
    ensures
        r@ == summary_text(strs_view(keys@), strs_view(values@)),
{
    let ghost kv = strs_view(keys@);
    let ghost vv = strs_view(values@);
    let mut parts: Vec<String> = Vec::new();
    let mut i: usize = 0;
    while i < keys.len()
        invariant
            i <= keys@.len(),
            keys@.len() == values@.len(),
            kv == strs_view(keys@),
            vv == strs_view(values@),
            strs_view(parts@) == Seq::new(i as nat, |j: int| short_key(kv[j]) + "="@ + vv[j]),
        decreases keys@.len() - i,
    {
        let mut part = short_param_key(keys[i].as_str());
        push_str(&mut part, "=");
        push_str(&mut part, values[i].as_str());
        let ghost p0 = parts@;
        proof {
            assert(strs_view(p0).len() == i);
        }
        parts.push(part);
        proof {
            reveal_strlit("=");
            assert(kv[i as int] == keys@[i as int]@);
            assert(vv[i as int] == values@[i as int]@);
            assert(strs_view(parts@) =~= Seq::new((i + 1) as nat, |j: int| short_key(kv[j]) + "="@ + vv[j])) by {
                assert forall|j: int| 0 <= j < i + 1 implies strs_view(parts@)[j] == short_key(kv[j]) + "="@ + vv[j] by {
                    if j < i {
                        assert(parts@[j] == p0[j]);
                        assert(strs_view(p0)[j] == p0[j]@);
                    }
                }
            }
        }
        i = i + 1;
    }
    proof {
        assert(strs_view(parts@) =~= Seq::new(kv.len(), |j: int| short_key(kv[j]) + "="@ + vv[j]));
    }
    crate::text::join_strings(&parts, " ")
}

// ---------------------------------------------------------------------------
// Rows of a diagram
// ---------------------------------------------------------------------------

/// The ids to lay out, in order: a topological order of the blocks, or the
/// blocks' own order when the graph has none.
pub fn layout_order(blocks: &[Block], edges: &[Edge]) -> (r: Vec<String>)
    ensures
        (exists|o: Seq<Seq<char>>| is_topo_order(ids_of(blocks_view(blocks@)), edges_view(edges@), o))
            ==> is_topo_order(ids_of(blocks_view(blocks@)), edges_view(edges@), strs_view(r@)),
        !(exists|o: Seq<Seq<char>>| is_topo_order(ids_of(blocks_view(blocks@)), edges_view(edges@), o))
            ==> strs_view(r@) == ids_of(blocks_view(blocks@)),
{
    match topo_sort_ids(blocks, edges) {
        Some(order) => order,
        None => block_ids(blocks),
    }
}

/// The ids of `order` on layer `l`, in order.
pub open spec fn row_of(order: Seq<Seq<char>>, m: Map<Seq<char>, int>, l: int) -> Seq<Seq<char>>
    decreases order.len(),
{
    if order.len() == 0 {
        Seq::empty()
    } else {
        let rest = row_of(order.drop_last(), m, l);
        if layer_of(m, order.last()) == l {
            rest.push(order.last())
        } else {
            rest
        }
    }
}

/// Whether `ls` lists the layers of the ids of `order`, each once, from the
/// lowest up.
pub open spec fn layer_list(order: Seq<Seq<char>>, m: Map<Seq<char>, int>, ls: Seq<usize>) -> bool {
    &&& forall|a: int, b: int| 0 <= a < b < ls.len() ==> ls[a] < ls[b]
    &&& forall|j: int| 0 <= j < ls.len() ==> layer_used(order, m, #[trigger] ls[j] as int)
    &&& forall|i: int| 0 <= i < order.len() ==> layer_listed(ls, layer_of(m, #[trigger] order[i]))
}

/// Whether some id of `order` is on layer `l`.
pub open spec fn layer_used(order: Seq<Seq<char>>, m: Map<Seq<char>, int>, l: int) -> bool {
    exists|i: int| 0 <= i < order.len() && layer_of(m, order[i]) == l
}

/// Whether `ls` lists layer `l`.
pub open spec fn layer_listed(ls: Seq<usize>, l: int) -> bool {
    exists|j: int| 0 <= j < ls.len() && ls[j] as int == l
}

/// The layer of `id` in `layers`, 0 when it has none.
fn layer_at(layers: &StrMap<usize>, id: &str) -> (r: usize)
    ensures
        r as int == layer_of(int_values(*layers), id@),
{
    match layers.get(id) {
        Some(v) => *v,
        None => 0,
    }
}

/// Adds `v` to the strictly increasing list `ls`, keeping it strictly
/// increasing.
fn insert_sorted(ls: &mut Vec<usize>, v: usize)
    requires
        forall|a: int, b: int| 0 <= a < b < old(ls)@.len() ==> old(ls)@[a] < old(ls)@[b],
    ensures
        forall|a: int, b: int| 0 <= a < b < final(ls)@.len() ==> final(ls)@[a] < final(ls)@[b],
        forall|x: usize| #[trigger] final(ls)@.contains(x) <==> (old(ls)@.contains(x) || x == v),
{
    let mut p: usize = 0;
    while p < ls.len() && ls[p] < v
        invariant
            p <= ls@.len(),
            ls@ == old(ls)@,
            forall|a: int| 0 <= a < p ==> ls@[a] < v,
        decreases ls@.len() - p,
    {
        p = p + 1;
    }
    if p < ls.len() && ls[p] == v {
        return;
    }
    let ghost l0 = ls@;
    ls.insert(p, v);
    proof {
        assert forall|a: int, b: int| 0 <= a < b < ls@.len() implies ls@[a] < ls@[b] by {
            if b < p {
                assert(ls@[a] == l0[a] && ls@[b] == l0[b]);
            } else if b == p {
                assert(ls@[a] == l0[a]);
            } else if a < p {
                assert(ls@[a] == l0[a] && ls@[b] == l0[b - 1]);
                assert(l0[p as int] >= v);
                if b - 1 > p {
                    assert(l0[p as int] < l0[b - 1]);
                }
            } else if a == p {
                assert(ls@[b] == l0[b - 1]);
                assert(l0[p as int] > v);
                if b - 1 > p {
                    assert(l0[p as int] < l0[b - 1]);
                }
            } else {
                assert(ls@[a] == l0[a - 1] && ls@[b] == l0[b - 1]);
            }
        }
        assert forall|x: usize| #[trigger] ls@.contains(x) <==> (l0.contains(x) || x == v) by {
            if ls@.contains(x) {
                let i = choose|i: int| 0 <= i < ls@.len() && ls@[i] == x;
                if i < p {
                    assert(l0[i] == x);
                } else if i > p {
                    assert(l0[i - 1] == x);
                }
            }
            if l0.contains(x) {
                let i = choose|i: int| 0 <= i < l0.len() && l0[i] == x;
                if i < p {
                    assert(ls@[i] == x);
                } else {
                    assert(ls@[i + 1] == x);
                }
            }
            if x == v {
                assert(ls@[p as int] == v);
            }
        }
    }
}

/// The rows of a diagram: the layers of the ids of `order` from the lowest
/// up, and for each layer the ids of `order` on it, in order.
pub fn layer_rows(order: &Vec<String>, layers: &StrMap<usize>) -> (r: (Vec<usize>, Vec<Vec<String>>))
    ensures
        layer_list(strs_view(order@), int_values(*layers), r.0@),
        r.1@.len() == r.0@.len(),
        forall|j: int|
            0 <= j < r.1@.len() ==> strs_view(#[trigger] r.1@[j]@) == row_of(
                strs_view(order@),
                int_values(*layers),
                r.0@[j] as int,
            ),
{
    let ghost ov = strs_view(order@);
    let ghost m = int_values(*layers);
    let n = order.len();
    let mut vals: Vec<usize> = Vec::new();
    let mut ls: Vec<usize> = Vec::new();
    let mut i: usize = 0;
    while i < n
        invariant
            n == order@.len(),
            ov == strs_view(order@),
            m == int_values(*layers),
            i <= n,
            vals@.len() == i,
            forall|k: int| 0 <= k < i ==> #[trigger] vals@[k] as int == layer_of(m, ov[k]),
            forall|a: int, b: int| 0 <= a < b < ls@.len() ==> ls@[a] < ls@[b],
            forall|x: usize| #[trigger] ls@.contains(x) <==> exists|k: int| 0 <= k < i && vals@[k] == x,
        decreases n - i,
    {
        let v = layer_at(layers, order[i].as_str());
        proof {
            assert(ov[i as int] == order@[i as int]@);
        }
        let ghost l0 = ls@;
        let ghost v0 = vals@;
        vals.push(v);
        insert_sorted(&mut ls, v);
        proof {
            assert forall|k: int| 0 <= k < i + 1 implies #[trigger] vals@[k] as int == layer_of(m, ov[k]) by {
                if k < i {
                    assert(vals@[k] == v0[k]);
                }
            }
            assert forall|x: usize| #[trigger] ls@.contains(x) <==> exists|k: int| 0 <= k < i + 1 && vals@[k] == x by {
                if ls@.contains(x) {
                    if l0.contains(x) {
                        let k = choose|k: int| 0 <= k < i && v0[k] == x;
                        assert(vals@[k] == x);
                    } else {
                        assert(vals@[i as int] == x);
                    }
                }
                if exists|k: int| 0 <= k < i + 1 && vals@[k] == x {
                    let k = choose|k: int| 0 <= k < i + 1 && vals@[k] == x;
                    if k < i {
                        assert(v0[k] == x);
                        assert(l0.contains(x));
                    }
                }
            }
        }
        i = i + 1;
    }
    proof {
        assert forall|jj: int| 0 <= jj < ls@.len() implies layer_used(ov, m, #[trigger] ls@[jj] as int) by {
            assert(ls@.contains(ls@[jj]));
            let t = choose|t: int| 0 <= t < n && vals@[t] == ls@[jj];
            assert(vals@[t] as int == layer_of(m, ov[t]));
        }
        assert forall|t: int| 0 <= t < ov.len() implies layer_listed(ls@, layer_of(m, #[trigger] ov[t])) by {
            assert(vals@[t] as int == layer_of(m, ov[t]));
            assert(ls@.contains(vals@[t]));
            let jj = choose|jj: int| 0 <= jj < ls@.len() && ls@[jj] == vals@[t];
        }
        assert(layer_list(ov, m, ls@));
    }
    let mut rows: Vec<Vec<String>> = Vec::new();
    let mut j: usize = 0;
    while j < ls.len()
        invariant
            layer_list(ov, m, ls@),
            n == order@.len(),
            ov == strs_view(order@),
            m == int_values(*layers),
            vals@.len() == n,
            forall|k: int| 0 <= k < n ==> #[trigger] vals@[k] as int == layer_of(m, ov[k]),
            j <= ls@.len(),
            rows@.len() == j,
            forall|q: int| 0 <= q < j ==> strs_view(#[trigger] rows@[q]@) == row_of(ov, m, ls@[q] as int),
        decreases ls@.len() - j,
    {
        let l = ls[j];
        let mut row: Vec<String> = Vec::new();
        let mut k: usize = 0;
        while k < n
            invariant
                n == order@.len(),
                ov == strs_view(order@),
                vals@.len() == n,
                forall|t: int| 0 <= t < n ==> #[trigger] vals@[t] as int == layer_of(m, ov[t]),
                k <= n,
                strs_view(row@) == row_of(ov.take(k as int), m, l as int),
            decreases n - k,
        {
            proof {
                assert(ov.take(k + 1).drop_last() =~= ov.take(k as int));
                assert(ov.take(k + 1).last() == ov[k as int]);
                assert(vals@[k as int] as int == layer_of(m, ov[k as int]));
            }
            if vals[k] == l {
                let ghost r0 = row@;
                row.push(clone_string(&order[k]));
                proof {
                    assert(strs_view(row@) =~= strs_view(r0).push(ov[k as int]));
                }
            }
            k = k + 1;
        }
        proof {
            assert(ov.take(n as int) =~= ov);
        }
        let ghost rs0 = rows@;
        rows.push(row);
        proof {
            assert forall|q: int| 0 <= q < j + 1 implies strs_view(#[trigger] rows@[q]@) == row_of(ov, m, ls@[q] as int) by {
                if q < j {
                    assert(rows@[q] == rs0[q]);
                }
            }
        }
        j = j + 1;
    }
    (ls, rows)
}

/// Whether an edge from layer `from_layer` to layer `to_layer` is drawn as
/// a long-range edge: it climbs more than two layers.
pub fn is_long_range(from_layer: usize, to_layer: usize) -> (r: bool)
    ensures
        r == (to_layer > from_layer + 2),
{
    to_layer > from_layer && to_layer - from_layer > 2
}

} // verus!
