//! From a flowchart to its layered arrangement: the nodes in order of first
//! mention, one edge per hop of each chain, cycles broken, layers assigned,
//! long edges split by dummy nodes and each layer ordered against crossings.
use vstd::prelude::*;
use crate::ast::{opt_view, strings_view, stmts_view, Arrow, Graph, Shape, SpecEdge, SpecStmt, Stmt};
use crate::crossings::{
    crossing_order, law_crossing_order_permutes, layer_top, layers_view, lemma_layer_top_bound, minimize_crossings,
};
use crate::layout::{
    acyclic, assign_layers, copy_label, dummies_placed, edges_within, insert_dummies, longest_path_layers, ranked_by,
    remove_cycles, searched, NodeEntry, RawEdge,
};
use crate::text::same_text;

verus! {

/// The node ids a statement mentions, in order.
pub open spec fn stmt_mentions(s: SpecStmt) -> Seq<Seq<char>> {
    match s {
        SpecStmt::Node(n) => seq![n.id],
        SpecStmt::Edge(e) => e.chain,
    }
}

/// The node ids the statements mention, in order.
pub open spec fn mentions(stmts: Seq<SpecStmt>) -> Seq<Seq<char>>
    decreases stmts.len(),
{
    if stmts.len() == 0 {
        Seq::empty()
    } else {
        mentions(stmts.drop_last()) + stmt_mentions(stmts.last())
    }
}

/// The distinct ids of `ids`, in order of first occurrence.
pub open spec fn first_seen(ids: Seq<Seq<char>>) -> Seq<Seq<char>>
    decreases ids.len(),
{
    if ids.len() == 0 {
        Seq::empty()
    } else {
        let f = first_seen(ids.drop_last());
        if f.contains(ids.last()) {
            f
        } else {
            f.push(ids.last())
        }
    }
}

/// The label the last labelled declaration of `id` gives it.
pub open spec fn declared_label(stmts: Seq<SpecStmt>, id: Seq<char>) -> Option<Seq<char>>
    decreases stmts.len(),
{
    if stmts.len() == 0 {
        None
    } else {
        match stmts.last() {
            SpecStmt::Node(n) if n.id == id && n.label is Some => n.label,
            _ => declared_label(stmts.drop_last(), id),
        }
    }
}

/// The shape the last declaration of `id` gives it, a box if none does.
pub open spec fn declared_shape(stmts: Seq<SpecStmt>, id: Seq<char>) -> Shape
    decreases stmts.len(),
{
    if stmts.len() == 0 {
        Shape::Box
    } else {
        match stmts.last() {
            SpecStmt::Node(n) if n.id == id => n.shape,
            _ => declared_shape(stmts.drop_last(), id),
        }
    }
}

/// A hop of an edge chain: from, to, label (on the last hop only) and arrow.
pub type SpecHop = (Seq<char>, Seq<char>, Option<Seq<char>>, Arrow);

/// The hops of one chain.
pub open spec fn chain_hops(e: SpecEdge) -> Seq<SpecHop> {
    if e.chain.len() >= 1 {
        Seq::new(
            (e.chain.len() - 1) as nat,
            |i: int| (e.chain[i], e.chain[i + 1], if i == e.chain.len() - 2 { e.label } else { None }, e.arrow),
        )
    } else {
        Seq::empty()
    }
}

/// The hops of all chains, in order.
pub open spec fn graph_hops(stmts: Seq<SpecStmt>) -> Seq<SpecHop>
    decreases stmts.len(),
{
    if stmts.len() == 0 {
        Seq::empty()
    } else {
        graph_hops(stmts.drop_last()) + match stmts.last() {
            SpecStmt::Edge(e) => chain_hops(e),
            SpecStmt::Node(_) => Seq::empty(),
        }
    }
}

/// Every chain names at least one node.
pub open spec fn chains_nonempty(stmts: Seq<SpecStmt>) -> bool {
    forall|i: int| 0 <= i < stmts.len() ==> (#[trigger] stmts[i] matches SpecStmt::Edge(e) ==> e.chain.len() >= 1)
}

/// The edge `r` between node indices draws the hop `h` among the nodes `ids`.
pub open spec fn draws(ids: Seq<Seq<char>>, r: RawEdge, h: SpecHop) -> bool {
    &&& r.from < ids.len()
    &&& r.to < ids.len()
    &&& ids[r.from as int] == h.0
    &&& ids[r.to as int] == h.1
    &&& opt_view(r.label) == h.2
    &&& r.arrow == h.3
    &&& !r.reversed
}

proof fn lemma_first_seen(ids: Seq<Seq<char>>)
    ensures
        first_seen(ids).no_duplicates(),
        forall|i: int| 0 <= i < ids.len() ==> first_seen(ids).contains(#[trigger] ids[i]),
        forall|x: Seq<char>| #[trigger] first_seen(ids).contains(x) ==> ids.contains(x),
    decreases ids.len(),
{
    if ids.len() > 0 {
        let d = ids.drop_last();
        let f = first_seen(d);
        let l = ids.last();
        lemma_first_seen(d);
        if !f.contains(l) {
            assert(first_seen(ids) == f.push(l));
            assert forall|a: int, b: int| 0 <= a < b < f.push(l).len() implies f.push(l)[a] != f.push(l)[b] by {
                if b == f.len() {
                    assert(f.push(l)[a] == f[a]);
                }
            }
        }
        assert forall|i: int| 0 <= i < ids.len() implies first_seen(ids).contains(#[trigger] ids[i]) by {
            if i < ids.len() - 1 {
                assert(d[i] == ids[i]);
                assert(f.contains(d[i]));
                if !f.contains(l) {
                    let j = choose|j: int| 0 <= j < f.len() && f[j] == d[i];
                    assert(f.push(l)[j] == f[j]);
                }
            } else if !f.contains(l) {
                assert(f.push(l)[f.len() as int] == l);
            }
        }
        assert forall|x: Seq<char>| #[trigger] first_seen(ids).contains(x) implies ids.contains(x) by {
            if f.contains(x) {
                assert(d.contains(x));
                let i = choose|i: int| 0 <= i < d.len() && d[i] == x;
                assert(ids[i] == x);
            } else {
                let j = choose|j: int| 0 <= j < first_seen(ids).len() && first_seen(ids)[j] == x;
                assert(j == f.len());
                assert(ids[ids.len() - 1] == x);
            }
        }
    }
}

/// Add `id` to the known nodes unless it is there already.
pub fn ensure_node(id: &str, node_ids: &mut Vec<String>)
    ensures
        strings_view(final(node_ids)@) == if strings_view(old(node_ids)@).contains(id@) {
            strings_view(old(node_ids)@)
        } else {
            strings_view(old(node_ids)@).push(id@)
        },
{
    let n = node_ids.len();
    let mut i: usize = 0;
    while i < n
        invariant
            i <= n,
            n == node_ids@.len(),
            forall|k: int| 0 <= k < i ==> (#[trigger] node_ids@[k])@ != id@,
        decreases n - i,
    {
        if same_text(node_ids[i].as_str(), id) {
            proof {
                assert(strings_view(node_ids@)[i as int] == id@);
            }
            return;
        }
        i += 1;
    }
    proof {
        assert(!strings_view(node_ids@).contains(id@)) by {
            if strings_view(node_ids@).contains(id@) {
                let k = choose|k: int| 0 <= k < n && strings_view(node_ids@)[k] == id@;
                assert(node_ids@[k]@ == id@);
            }
        }
    }
    let ghost before = node_ids@;
    node_ids.push(id.to_string());
    proof {
        assert(strings_view(node_ids@) =~= strings_view(before).push(id@));
    }
}

/// The index of `id` among the known nodes.
pub fn node_index(node_ids: &Vec<String>, id: &str) -> (k: usize)
    requires
        strings_view(node_ids@).contains(id@),
    ensures
        k < node_ids@.len(),
        node_ids@[k as int]@ == id@,
{
    let n = node_ids.len();
    let mut i: usize = 0;
    while i < n
        invariant
            i <= n,
            n == node_ids@.len(),
            strings_view(node_ids@).contains(id@),
            forall|k: int| 0 <= k < i ==> (#[trigger] node_ids@[k])@ != id@,
        decreases n - i,
    {
        if same_text(node_ids[i].as_str(), id) {
            return i;
        }
        i += 1;
    }
    proof {
        let k = choose|k: int| 0 <= k < n && strings_view(node_ids@)[k] == id@;
        assert(node_ids@[k]@ == id@);
    }
    0
}

proof fn lemma_mentions_contains(stmts: Seq<SpecStmt>)
    ensures
        forall|j: int, k: int| 0 <= j < stmts.len() && 0 <= k < stmt_mentions(stmts[j]).len() ==>
            mentions(stmts).contains(#[trigger] stmt_mentions(stmts[j])[k]),
    decreases stmts.len(),
{
    if stmts.len() > 0 {
        let d = stmts.drop_last();
        lemma_mentions_contains(d);
        let md = mentions(d);
        let ml = stmt_mentions(stmts.last());
        assert forall|j: int, k: int| 0 <= j < stmts.len() && 0 <= k < stmt_mentions(stmts[j]).len() implies
            mentions(stmts).contains(#[trigger] stmt_mentions(stmts[j])[k]) by {
            let x = stmt_mentions(stmts[j])[k];
            if j < stmts.len() - 1 {
                assert(d[j] == stmts[j]);
                assert(md.contains(x));
                let t = choose|t: int| 0 <= t < md.len() && md[t] == x;
                assert((md + ml)[t] == x);
            } else {
                assert((md + ml)[md.len() + k] == x);
            }
        }
    }
}

/// The graph's nodes in order of first mention.
pub fn collect_nodes(graph: &Graph) -> (ids: Vec<String>)
    ensures
        strings_view(ids@) == first_seen(mentions(stmts_view(graph.stmts@))),
{
    let ghost sv = stmts_view(graph.stmts@);
    let mut ids: Vec<String> = Vec::new();
    let n = graph.stmts.len();
    let mut i: usize = 0;
    proof {
        assert(sv.subrange(0, 0) =~= Seq::<SpecStmt>::empty());
        assert(strings_view(ids@) =~= Seq::<Seq<char>>::empty());
    }
    while i < n
        invariant
            i <= n,
            n == graph.stmts@.len(),
            sv == stmts_view(graph.stmts@),
            strings_view(ids@) == first_seen(mentions(sv.subrange(0, i as int))),
        decreases n - i,
    {
        let ghost done = mentions(sv.subrange(0, i as int));
        proof {
            assert(sv.subrange(0, i + 1).drop_last() =~= sv.subrange(0, i as int));
            assert(sv.subrange(0, i + 1).last() == sv[i as int]);
        }
        match &graph.stmts[i] {
            Stmt::Node(nd) => {
                proof {
                    assert((done + seq![nd.id@]).drop_last() =~= done);
                }
                ensure_node(nd.id.as_str(), &mut ids);
            },
            Stmt::Edge(e) => {
                let c = e.chain.len();
                let mut k: usize = 0;
                proof {
                    assert(done + strings_view(e.chain@).subrange(0, 0) =~= done);
                }
                while k < c
                    invariant
                        k <= c,
                        c == e.chain@.len(),
                        strings_view(ids@) == first_seen(done + strings_view(e.chain@).subrange(0, k as int)),
                    decreases c - k,
                {
                    proof {
                        let cv = strings_view(e.chain@);
                        assert((done + cv.subrange(0, k + 1)).drop_last() =~= done + cv.subrange(0, k as int));
                        assert((done + cv.subrange(0, k + 1)).last() == e.chain@[k as int]@);
                    }
                    ensure_node(e.chain[k].as_str(), &mut ids);
                    k += 1;
                }
                proof {
                    assert(strings_view(e.chain@).subrange(0, c as int) =~= strings_view(e.chain@));
                }
            },
        }
        i += 1;
    }
    proof {
        assert(sv.subrange(0, n as int) =~= sv);
    }
    ids
}

/// The label and shape the declarations give `id`: the last label given (the
/// id itself if none is) and the last shape given (a box if none is).
pub fn node_entry(stmts: &Vec<Stmt>, id: &String) -> (e: NodeEntry)
    ensures
        e.label@ == match declared_label(stmts_view(stmts@), id@) {
            Some(l) => l,
            None => id@,
        },
        e.shape == declared_shape(stmts_view(stmts@), id@),
        !e.dummy,
{
    let ghost sv = stmts_view(stmts@);
    let mut label: Option<String> = None;
    let mut shape = Shape::Box;
    let n = stmts.len();
    let mut i: usize = 0;
    while i < n
        invariant
            i <= n,
            n == stmts@.len(),
            sv == stmts_view(stmts@),
            opt_view(label) == declared_label(sv.subrange(0, i as int), id@),
            shape == declared_shape(sv.subrange(0, i as int), id@),
        decreases n - i,
    {
        proof {
            assert(sv.subrange(0, i + 1).drop_last() =~= sv.subrange(0, i as int));
            assert(sv.subrange(0, i + 1).last() == sv[i as int]);
        }
        match &stmts[i] {
            Stmt::Node(nd) => {
                if same_text(nd.id.as_str(), id.as_str()) {
                    if nd.label.is_some() {
                        label = crate::ast::copy_opt_string(&nd.label);
                    }
                    shape = nd.shape;
                }
            },
            Stmt::Edge(_) => {},
        }
        i += 1;
    }
    proof {
        assert(sv.subrange(0, n as int) =~= sv);
    }
    let text = match label {
        Some(l) => l,
        None => id.clone(),
    };
    NodeEntry { label: text, shape: shape, dummy: false }
}

/// One edge per hop of each chain, between node indices in `ids`.
pub fn graph_edges(graph: &Graph, ids: &Vec<String>) -> (edges: Vec<RawEdge>)
    requires
        strings_view(ids@) == first_seen(mentions(stmts_view(graph.stmts@))),
        chains_nonempty(stmts_view(graph.stmts@)),
    ensures
        edges@.len() == graph_hops(stmts_view(graph.stmts@)).len(),
        forall|k: int| 0 <= k < edges@.len() ==> draws(strings_view(ids@), #[trigger] edges@[k], graph_hops(stmts_view(graph.stmts@))[k]),
        edges_within(edges@, ids@.len() as int),
{
    let ghost sv = stmts_view(graph.stmts@);
    let ghost iv = strings_view(ids@);
    proof {
        lemma_mentions_contains(sv);
        lemma_first_seen(mentions(sv));
    }
    let mut out: Vec<RawEdge> = Vec::new();
    let n = graph.stmts.len();
    let mut i: usize = 0;
    while i < n
        invariant
            i <= n,
            n == graph.stmts@.len(),
            sv == stmts_view(graph.stmts@),
            iv == strings_view(ids@),
            iv == first_seen(mentions(sv)),
            chains_nonempty(sv),
            forall|j: int, k: int| 0 <= j < sv.len() && 0 <= k < stmt_mentions(sv[j]).len() ==>
                mentions(sv).contains(#[trigger] stmt_mentions(sv[j])[k]),
            forall|x: Seq<char>| mentions(sv).contains(x) ==> #[trigger] iv.contains(x),
            out@.len() == graph_hops(sv.subrange(0, i as int)).len(),
            forall|k: int| 0 <= k < out@.len() ==> draws(iv, #[trigger] out@[k], graph_hops(sv.subrange(0, i as int))[k]),
        decreases n - i,
    {
        let ghost before = graph_hops(sv.subrange(0, i as int));
        proof {
            assert(sv.subrange(0, i + 1).drop_last() =~= sv.subrange(0, i as int));
            assert(sv.subrange(0, i + 1).last() == sv[i as int]);
        }
        match &graph.stmts[i] {
            Stmt::Node(_) => {
                proof {
                    assert(graph_hops(sv.subrange(0, i + 1)) =~= before);
                }
            },
            Stmt::Edge(e) => {
                let ghost hops = chain_hops(e@);
                let c = e.chain.len();
                proof {
                    assert(sv[i as int] matches SpecStmt::Edge(x) ==> x.chain.len() >= 1);
                    assert(graph_hops(sv.subrange(0, i + 1)) == before + hops);
                    assert forall|t: int| 0 <= t < c implies #[trigger] iv.contains(e.chain@[t]@) by {
                        assert(stmt_mentions(sv[i as int])[t] == e.chain@[t]@);
                        assert(mentions(sv).contains(stmt_mentions(sv[i as int])[t]));
                    }
                }
                let mut k: usize = 0;
                while k + 1 < c
                    invariant
                        c >= 1,
                        k + 1 <= c,
                        c == e.chain@.len(),
                        sv[i as int] == SpecStmt::Edge(e@),
                        hops == chain_hops(e@),
                        hops.len() == c - 1,
                        iv == strings_view(ids@),
                        forall|t: int| 0 <= t < c ==> #[trigger] iv.contains(e.chain@[t]@),
                        out@.len() == before.len() + k,
                        forall|t: int| 0 <= t < out@.len() ==> draws(iv, #[trigger] out@[t], (before + hops)[t]),
                    decreases c - k,
                {
                    let from = node_index(ids, e.chain[k].as_str());
                    let to = node_index(ids, e.chain[k + 1].as_str());
                    let label = if k + 2 == c { crate::ast::copy_opt_string(&e.label) } else { None };
                    let r = RawEdge { from: from, to: to, label: label, arrow: e.arrow, reversed: false };
                    proof {
                        assert((before + hops)[before.len() + k] == hops[k as int]);
                    }
                    out.push(r);
                    k += 1;
                }
            },
        }
        i += 1;
    }
    proof {
        assert(sv.subrange(0, n as int) =~= sv);
    }
    out
}

/// The layered arrangement of a flowchart.
pub struct Arrangement {
    /// The nodes, in order of first mention, then the dummy nodes.
    pub entries: Vec<NodeEntry>,
    /// One edge per hop, some turned around to break cycles.
    pub edges: Vec<RawEdge>,
    /// The layer of each entry.
    pub layers: Vec<usize>,
    /// Per edge, the entries that draw it, dummies included.
    pub chains: Vec<Vec<usize>>,
    /// The edges between adjacent layers that ordering the layers weighs.
    pub unit_edges: Vec<RawEdge>,
    /// The entries of each layer, in drawing order.
    pub layer_nodes: Vec<Vec<usize>>,
}

/// The entry `e` is the declared node `id`.
pub open spec fn declared_entry(stmts: Seq<SpecStmt>, id: Seq<char>, e: NodeEntry) -> bool {
    &&& e.label@ == match declared_label(stmts, id) {
        Some(l) => l,
        None => id,
    }
    &&& e.shape == declared_shape(stmts, id)
    &&& !e.dummy
}

/// The edge `e` draws the hop `h`, in its direction or turned around.
pub open spec fn draws_either(ids: Seq<Seq<char>>, e: RawEdge, h: SpecHop) -> bool {
    ||| draws(ids, e, h)
    ||| e.reversed && draws(ids, RawEdge { from: e.to, to: e.from, label: e.label, arrow: e.arrow, reversed: false }, h)
}

/// The entries of layer `l` among the first `upto`, in order.
pub open spec fn bucket(ls: Seq<usize>, l: int, upto: int) -> Seq<usize>
    decreases upto,
{
    if upto <= 0 {
        Seq::empty()
    } else {
        let b = bucket(ls, l, upto - 1);
        if ls[upto - 1] == l {
            b.push((upto - 1) as usize)
        } else {
            b
        }
    }
}

/// The entries of each of the first `count` layers, in order.
pub open spec fn buckets(ls: Seq<usize>, count: int) -> Seq<Seq<usize>> {
    Seq::new(count as nat, |l: int| bucket(ls, l, ls.len() as int))
}

/// `rank` decreases along every hop.
pub open spec fn ranks_hops(rank: spec_fn(Seq<char>) -> int, hops: Seq<SpecHop>) -> bool {
    forall|k: int| 0 <= k < hops.len() ==> rank((#[trigger] hops[k]).0) > rank(hops[k].1)
}

/// The hops form no cycle: some ranking of node ids decreases along each.
pub open spec fn hops_acyclic(hops: Seq<SpecHop>) -> bool {
    exists|rank: spec_fn(Seq<char>) -> int| #[trigger] ranks_hops(rank, hops)
}

/// No hop joins a node to itself.
pub open spec fn hops_distinct(hops: Seq<SpecHop>) -> bool {
    forall|k: int| 0 <= k < hops.len() ==> (#[trigger] hops[k]).0 != hops[k].1
}

fn copy_edges(v: &Vec<RawEdge>) -> (r: Vec<RawEdge>)
    ensures
        r@ == v@,
{
    let mut r: Vec<RawEdge> = Vec::new();
    let n = v.len();
    let mut i: usize = 0;
    while i < n
        invariant
            i <= n,
            n == v@.len(),
            r@ == v@.subrange(0, i as int),
        decreases n - i,
    {
        let e = &v[i];
        r.push(RawEdge { from: e.from, to: e.to, label: copy_label(&e.label), arrow: e.arrow, reversed: e.reversed });
        i += 1;
    }
    proof {
        assert(v@.subrange(0, n as int) =~= v@);
    }
    r
}

fn copy_indices(v: &Vec<usize>) -> (r: Vec<usize>)
    ensures
        r@ == v@,
{
    let mut r: Vec<usize> = Vec::new();
    let n = v.len();
    let mut i: usize = 0;
    while i < n
        invariant
            i <= n,
            n == v@.len(),
            r@ == v@.subrange(0, i as int),
        decreases n - i,
    {
        r.push(v[i]);
        i += 1;
    }
    proof {
        assert(v@.subrange(0, n as int) =~= v@);
    }
    r
}

/// One more than the largest layer.
fn layer_count(ls: &Vec<usize>) -> (c: usize)
    requires
        forall|i: int| 0 <= i < ls@.len() ==> #[trigger] ls@[i] < usize::MAX,
    ensures
        c == layer_top(ls@),
{
    let n = ls.len();
    let mut c: usize = 0;
    let mut i: usize = 0;
    while i < n
        invariant
            i <= n,
            n == ls@.len(),
            forall|k: int| 0 <= k < ls@.len() ==> #[trigger] ls@[k] < usize::MAX,
            c == layer_top(ls@.subrange(0, i as int)),
        decreases n - i,
    {
        proof {
            assert(ls@.subrange(0, i + 1).drop_last() =~= ls@.subrange(0, i as int));
            assert(ls@[i as int] < usize::MAX);
        }
        if ls[i] + 1 > c {
            c = ls[i] + 1;
        }
        i += 1;
    }
    proof {
        assert(ls@.subrange(0, n as int) =~= ls@);
    }
    c
}

/// The entries of each of the first `count` layers, in order.
fn group_layers(ls: &Vec<usize>, count: usize) -> (groups: Vec<Vec<usize>>)
    ensures
        groups@.len() == count,
        layers_view(groups@) == buckets(ls@, count as int),
{
    let n = ls.len();
    let mut groups: Vec<Vec<usize>> = Vec::new();
    let mut l: usize = 0;
    while l < count
        invariant
            l <= count,
            n == ls@.len(),
            groups@.len() == l,
            forall|a: int| 0 <= a < l ==> (#[trigger] groups@[a])@ == bucket(ls@, a, n as int),
        decreases count - l,
    {
        let mut b: Vec<usize> = Vec::new();
        let mut i: usize = 0;
        while i < n
            invariant
                i <= n,
                n == ls@.len(),
                b@ == bucket(ls@, l as int, i as int),
            decreases n - i,
        {
            if ls[i] == l {
                b.push(i);
            }
            i += 1;
        }
        groups.push(b);
        l += 1;
    }
    proof {
        assert(layers_view(groups@) =~= buckets(ls@, count as int));
    }
    groups
}

proof fn lemma_bucket_bound(ls: Seq<usize>, l: int, upto: int)
    requires
        upto <= ls.len(),
    ensures
        forall|i: int| 0 <= i < bucket(ls, l, upto).len() ==> #[trigger] bucket(ls, l, upto)[i] < upto,
    decreases upto,
{
    if upto > 0 {
        lemma_bucket_bound(ls, l, upto - 1);
        let b = bucket(ls, l, upto - 1);
        if ls[upto - 1] == l {
            assert forall|i: int| 0 <= i < b.push((upto - 1) as usize).len() implies #[trigger] b.push((upto - 1) as usize)[i]
                < upto by {
                if i < b.len() {
                    assert(b.push((upto - 1) as usize)[i] == b[i]);
                }
            }
        }
    }
}

/// Arrange a flowchart in layers: its nodes in order of first mention, one
/// edge per hop of each chain, cycles broken by turning edges around,
/// longest-path layers, dummy nodes on long edges, and four sweeps of
/// barycentric ordering. A graph without nodes gives an empty arrangement.
#[verifier::spinoff_prover]
#[verifier::rlimit(60)]
pub fn arrange(graph: &Graph) -> (a: Arrangement)
    requires
        chains_nonempty(stmts_view(graph.stmts@)),
    ensures
        ({
            let sv = stmts_view(graph.stmts@);
            let ids = first_seen(mentions(sv));
            let n = ids.len() as int;
            let hops = graph_hops(sv);
            &&& n == 0 ==> a.entries@.len() == 0 && a.edges@.len() == 0 && a.layers@.len() == 0 && a.chains@.len() == 0
                && a.unit_edges@.len() == 0 && a.layer_nodes@.len() == 0
            &&& n > 0 ==> {
                &&& a.entries@.len() >= n
                &&& a.layers@.len() >= n
                &&& a.layers@.len() == a.entries@.len()
                &&& forall|k: int| 0 <= k < a.layers@.len() ==> #[trigger] a.layers@[k] < a.layer_nodes@.len()
                &&& forall|k: int| 0 <= k < n ==> declared_entry(sv, ids[k], #[trigger] a.entries@[k])
                &&& a.edges@.len() == hops.len()
                &&& forall|k: int| 0 <= k < hops.len() ==> draws_either(ids, #[trigger] a.edges@[k], hops[k])
                &&& exists|d: Seq<RawEdge>| #[trigger] searched(d, n, a.edges@) && d.len() == hops.len() && forall|k: int|
                    0 <= k < hops.len() ==> draws(ids, #[trigger] d[k], hops[k])
                &&& edges_within(a.edges@, n)
                &&& hops_distinct(hops) ==> acyclic(a.edges@, n)
                &&& hops_acyclic(hops) ==> forall|k: int| 0 <= k < hops.len() ==> draws(ids, #[trigger] a.edges@[k], hops[k])
                &&& acyclic(a.edges@, n) ==> longest_path_layers(a.edges@, a.layers@.subrange(0, n))
                &&& dummies_placed(
                    a.edges@,
                    a.layers@.subrange(0, n),
                    a.entries@.subrange(0, n),
                    a.entries@,
                    a.edges@,
                    a.unit_edges@,
                    a.layers@,
                    a.chains@.map_values(|c: Vec<usize>| c@),
                )
                &&& layers_view(a.layer_nodes@) == crossing_order(
                    buckets(a.layers@, layer_top(a.layers@.subrange(0, n))),
                    a.unit_edges@,
                    4,
                )
            }
        }),
{
    let ghost sv = stmts_view(graph.stmts@);
    let ids = collect_nodes(graph);
    let ghost iv = strings_view(ids@);
    let mut raw = graph_edges(graph, &ids);
    let n = ids.len();
    if n == 0 {
        return Arrangement {
            entries: Vec::new(),
            edges: Vec::new(),
            layers: Vec::new(),
            chains: Vec::new(),
            unit_edges: Vec::new(),
            layer_nodes: Vec::new(),
        };
    }
    proof {
        lemma_first_seen(mentions(sv));
    }
    let ghost drawn = raw@;
    proof {
        let hops = graph_hops(sv);
        if hops_acyclic(hops) {
            let rank = choose|rank: spec_fn(Seq<char>) -> int| #[trigger] ranks_hops(rank, hops);
            let rs = Seq::new(n as nat, |i: int| rank(iv[i]));
            assert forall|k: int| 0 <= k < drawn.len() implies rs[(#[trigger] drawn[k]).from as int] > rs[drawn[k].to as int] by {
                assert(draws(iv, drawn[k], hops[k]));
                assert(rank(hops[k].0) > rank(hops[k].1));
            }
            assert(ranked_by(drawn, rs));
            assert(rs.len() == n as int);
            assert(acyclic(drawn, n as int));
        }
    }
    remove_cycles(&mut raw, n);
    proof {
        let hops = graph_hops(sv);
        assert(searched(drawn, n as int, raw@));
        assert forall|k: int| 0 <= k < hops.len() implies draws_either(iv, #[trigger] raw@[k], hops[k]) by {
            assert(draws(iv, drawn[k], hops[k]));
        }
        if hops_distinct(hops) {
            assert forall|k: int| 0 <= k < drawn.len() implies (#[trigger] drawn[k]).from != drawn[k].to by {
                assert(draws(iv, drawn[k], hops[k]));
            }
        }
    }
    let layers = assign_layers(n, &raw);
    let mut entries: Vec<NodeEntry> = Vec::new();
    let mut i: usize = 0;
    while i < n
        invariant
            i <= n,
            n == ids@.len(),
            iv == strings_view(ids@),
            sv == stmts_view(graph.stmts@),
            entries@.len() == i,
            forall|k: int| 0 <= k < i ==> declared_entry(sv, iv[k], #[trigger] entries@[k]),
        decreases n - i,
    {
        let e = node_entry(&graph.stmts, &ids[i]);
        entries.push(e);
        i += 1;
    }
    let ghost ent0 = entries@;
    let mut unit_edges = copy_edges(&raw);
    let mut entry_layers = copy_indices(&layers);
    let chains = insert_dummies(&mut entries, &mut unit_edges, &mut entry_layers, &raw);
    let ghost cv = chains@.map_values(|c: Vec<usize>| c@);
    proof {
        crate::layout::lemma_dummies_keep(raw@, layers@, ent0, entries@, raw@, unit_edges@, entry_layers@, cv);
        assert forall|k: int| 0 <= k < layers@.len() implies #[trigger] layers@[k] < usize::MAX by {
            assert(layers@[k] == entry_layers@[k]);
        }
    }
    let num_layers = layer_count(&layers);
    let total = entry_layers.len();
    let mut layer_nodes = group_layers(&entry_layers, num_layers);
    proof {
        assert forall|l: int, i: int| 0 <= l < layer_nodes@.len() && 0 <= i < layer_nodes@[l]@.len() implies
            #[trigger] layer_nodes@[l]@[i] < usize::MAX by {
            lemma_bucket_bound(entry_layers@, l, entry_layers@.len() as int);
            assert(layers_view(layer_nodes@)[l] == layer_nodes@[l]@);
            assert(buckets(entry_layers@, num_layers as int)[l] == bucket(entry_layers@, l, entry_layers@.len() as int));
            assert(layer_nodes@[l]@ == bucket(entry_layers@, l, entry_layers@.len() as int));
        }
    }
    let ghost grouped = layers_view(layer_nodes@);
    minimize_crossings(&mut layer_nodes, &unit_edges, 4);
    proof {
        law_crossing_order_permutes(grouped, unit_edges@, 4);
        assert(layer_nodes@.len() == num_layers);
        lemma_layer_top_bound(layers@);
        crate::layout::lemma_dummy_layers(raw@, layers@, ent0, entries@, raw@, unit_edges@, entry_layers@, cv);
        assert forall|k: int| 0 <= k < entry_layers@.len() implies #[trigger] entry_layers@[k] < layer_nodes@.len() by {
            if k < n {
                assert(entry_layers@.subrange(0, n as int)[k] == entry_layers@[k]);
            } else {
                let j = choose|j: int| 0 <= j < layers@.len() && entry_layers@[k] < layers@[j];
            }
        }
        assert forall|k: int| 0 <= k < n implies declared_entry(sv, iv[k], #[trigger] entries@[k]) by {
            assert(entries@.subrange(0, n as int)[k] == entries@[k]);
            assert(declared_entry(sv, iv[k], ent0[k]));
        }
    }
    Arrangement {
        entries: entries,
        edges: raw,
        layers: entry_layers,
        chains: chains,
        unit_edges: unit_edges,
        layer_nodes: layer_nodes,
    }
}

proof fn lemma_bucket_count(ls: Seq<usize>, l: int, upto: int, i: int)
    requires
        0 <= upto <= ls.len(),
        0 <= i < ls.len(),
        ls.len() <= usize::MAX,
    ensures
        bucket(ls, l, upto).to_multiset().count(i as usize) == if i < upto && ls[i] == l { 1nat } else { 0nat },
    decreases upto,
{
    broadcast use vstd::seq_lib::group_to_multiset_ensures;

    if upto > 0 {
        lemma_bucket_count(ls, l, upto - 1, i);
        let b = bucket(ls, l, upto - 1);
        if ls[upto - 1] == l {
            assert(b.push((upto - 1) as usize).to_multiset() == b.to_multiset().insert((upto - 1) as usize));
            if i != upto - 1 {
                assert((i as usize) != ((upto - 1) as usize));
            }
        }
    }
}

/// Grouping entries by layer and ordering the layers draws every entry exactly
/// once: an entry on one of the first `count` layers appears once in its own
/// layer and in no other.
pub proof fn law_entries_drawn_once(ls: Seq<usize>, count: int, edges: Seq<RawEdge>, passes: int)
    requires
        ls.len() <= usize::MAX,
    ensures
        crossing_order(buckets(ls, count), edges, passes).len() == buckets(ls, count).len(),
        forall|i: int, l: int| 0 <= i < ls.len() && 0 <= l < count ==> #[trigger] crossing_order(buckets(ls, count), edges, passes)[l].to_multiset().count(
            i as usize,
        ) == if ls[i] == l { 1nat } else { 0nat },
{
    law_crossing_order_permutes(buckets(ls, count), edges, passes);
    assert forall|i: int, l: int| 0 <= i < ls.len() && 0 <= l < count implies #[trigger] crossing_order(buckets(ls, count), edges, passes)[l].to_multiset().count(
        i as usize,
    ) == if ls[i] == l { 1nat } else { 0nat } by {
        lemma_bucket_count(ls, l, ls.len() as int, i);
        assert(buckets(ls, count)[l] == bucket(ls, l, ls.len() as int));
    }
}

} // verus!
