//! The layered (Sugiyama-style) arrangement of a flowchart: cycle removal by
//! depth-first search, longest-path layering, dummy nodes for long edges, and
//! barycentric ordering within layers.
use vstd::prelude::*;
use crate::ast::{Arrow, Shape};

verus! {

/// One hop of an edge chain between node indices; `reversed` when cycle
/// removal turned it around.
pub struct RawEdge {
    pub from: usize,
    pub to: usize,
    pub label: Option<String>,
    pub arrow: Arrow,
    pub reversed: bool,
}

/// `e` with its direction turned around and marked as reversed.
pub open spec fn turned(e: RawEdge) -> RawEdge {
    RawEdge { from: e.to, to: e.from, label: e.label, arrow: e.arrow, reversed: true }
}

/// Every edge joins two of the `n` nodes.
pub open spec fn edges_within(edges: Seq<RawEdge>, n: int) -> bool {
    forall|i: int| 0 <= i < edges.len() ==> (#[trigger] edges[i]).from < n && edges[i].to < n
}

/// No edge joins a node to itself.
pub open spec fn no_self_loops(edges: Seq<RawEdge>) -> bool {
    forall|i: int| 0 <= i < edges.len() ==> (#[trigger] edges[i]).from != edges[i].to
}

/// `rank` decreases along every edge, so the edges form no cycle.
pub open spec fn ranked_by(edges: Seq<RawEdge>, rank: Seq<int>) -> bool {
    forall|i: int| 0 <= i < edges.len() ==> rank[(#[trigger] edges[i]).from as int] > rank[edges[i].to as int]
}

/// The edges form no cycle: some ranking of the nodes decreases along each.
pub open spec fn acyclic(edges: Seq<RawEdge>, n: int) -> bool {
    exists|rank: Seq<int>| rank.len() == n && ranked_by(edges, rank)
}

/// Along the search's stack, `rank` strictly decreases from bottom to top.
pub open spec fn stack_descends(stack: Seq<(usize, usize)>, rank: Seq<int>) -> bool {
    forall|a: int, b: int| 0 <= a < b < stack.len() ==> rank[(#[trigger] stack[a]).0 as int] > rank[(#[trigger] stack[b]).0 as int]
}

/// While the input has no cycle, the search has turned nothing and its stack
/// descends in a ranking of the input.
pub open spec fn untouched_while_acyclic(
    edges: Seq<RawEdge>,
    orig: Seq<RawEdge>,
    stack: Seq<(usize, usize)>,
    rank: Seq<int>,
    n: int,
) -> bool {
    acyclic(orig, n) ==> {
        &&& rank.len() == n
        &&& ranked_by(orig, rank)
        &&& edges == orig
        &&& stack_descends(stack, rank)
    }
}

/// A node the search has not reached.
pub const WHITE: u8 = 0;

/// A node on the search's stack.
pub const GRAY: u8 = 1;

/// A node the search has finished.
pub const BLACK: u8 = 2;

/// What the depth-first search knows of the stack: each entry a gray node at its
/// position, with the next edge index to scan from it.
pub open spec fn stack_ok(stack: Seq<(usize, usize)>, color: Seq<u8>, pos: Seq<int>, n: int, m: int) -> bool {
    &&& forall|k: int| 0 <= k < stack.len() ==> (#[trigger] stack[k]).0 < n && stack[k].1 <= m
        && color[stack[k].0 as int] == GRAY && pos[stack[k].0 as int] == k
    &&& forall|x: int| 0 <= x < n && #[trigger] color[x] == GRAY ==> 0 <= pos[x] < stack.len() && stack[pos[x]].0
        == x
}

/// Whether the search has looked at edge `i` yet: its source is finished, or on
/// the stack with the scan past `i`.
pub open spec fn examined(i: int, src: int, color: Seq<u8>, stack: Seq<(usize, usize)>, pos: Seq<int>) -> bool {
    color[src] == BLACK || (color[src] == GRAY && i < stack[pos[src]].1)
}

/// An examined edge from `a` to `b` (not a loop) keeps the search's order:
/// finished nodes point to finished nodes that finished earlier, stacked nodes
/// point up the stack or to finished nodes, and no finished node points to a
/// stacked one.
pub open spec fn edge_ordered(a: int, b: int, color: Seq<u8>, pos: Seq<int>, fin: Seq<int>) -> bool {
    a == b || {
        &&& color[a] != WHITE
        &&& color[b] != WHITE
        &&& (color[a] == BLACK && color[b] == BLACK ==> fin[a] > fin[b])
        &&& (color[a] == GRAY && color[b] == GRAY ==> pos[a] < pos[b])
        &&& !(color[a] == BLACK && color[b] == GRAY)
    }
}

/// The state of the edges during the search: examined edges are kept or turned
/// and ordered, the others untouched.
pub open spec fn edges_state(
    edges: Seq<RawEdge>,
    orig: Seq<RawEdge>,
    color: Seq<u8>,
    stack: Seq<(usize, usize)>,
    pos: Seq<int>,
    fin: Seq<int>,
) -> bool {
    &&& edges.len() == orig.len()
    &&& forall|i: int| 0 <= i < edges.len() ==> {
        if examined(i, orig[i].from as int, color, stack, pos) {
            &&& (edges[i] == orig[i] || edges[i] == turned(orig[i]))
            &&& edge_ordered((#[trigger] edges[i]).from as int, edges[i].to as int, color, pos, fin)
        } else {
            edges[i] == orig[i]
        }
    }
}

/// The number of unvisited nodes.
pub open spec fn count_white(c: Seq<u8>) -> nat
    decreases c.len(),
{
    if c.len() == 0 {
        0
    } else {
        count_white(c.drop_last()) + if c.last() == WHITE {
            1nat
        } else {
            0nat
        }
    }
}

proof fn lemma_count_white_visit(c: Seq<u8>, x: int, v: u8)
    requires
        0 <= x < c.len(),
        c[x] == WHITE,
        v != WHITE,
    ensures
        count_white(c.update(x, v)) + 1 == count_white(c),
    decreases c.len(),
{
    let d = c.update(x, v);
    if x == c.len() - 1 {
        assert(d.drop_last() =~= c.drop_last());
    } else {
        assert(d.drop_last() =~= c.drop_last().update(x, v));
        lemma_count_white_visit(c.drop_last(), x, v);
    }
}

proof fn lemma_count_white_keep(c: Seq<u8>, x: int, v: u8)
    requires
        0 <= x < c.len(),
        c[x] != WHITE,
        v != WHITE,
    ensures
        count_white(c.update(x, v)) == count_white(c),
    decreases c.len(),
{
    let d = c.update(x, v);
    if x == c.len() - 1 {
        assert(d.drop_last() =~= c.drop_last());
    } else {
        assert(d.drop_last() =~= c.drop_last().update(x, v));
        lemma_count_white_keep(c.drop_last(), x, v);
    }
}

/// The scanning work left on the stack: each entry's unscanned edges, and one to pop it.
pub open spec fn stack_weight(s: Seq<(usize, usize)>, m: int) -> int
    decreases s.len(),
{
    if s.len() == 0 {
        0
    } else {
        stack_weight(s.drop_last(), m) + (m - s.last().1 + 1)
    }
}

proof fn lemma_stack_weight_nonneg(s: Seq<(usize, usize)>, m: int)
    requires
        forall|k: int| 0 <= k < s.len() ==> (#[trigger] s[k]).1 <= m,
    ensures
        stack_weight(s, m) >= 0,
    decreases s.len(),
{
    if s.len() > 0 {
        let d = s.drop_last();
        assert forall|k: int| 0 <= k < d.len() implies (#[trigger] d[k]).1 <= m by {
            assert(d[k] == s[k]);
        }
        lemma_stack_weight_nonneg(d, m);
    }
}

proof fn lemma_stack_weight_advance(s: Seq<(usize, usize)>, m: int, e: (usize, usize))
    requires
        s.len() > 0,
        e.1 == s.last().1 + 1,
    ensures
        stack_weight(s.update(s.len() - 1, e), m) == stack_weight(s, m) - 1,
{
    assert(s.update(s.len() - 1, e).drop_last() =~= s.drop_last());
}

proof fn lemma_stack_weight_push(s: Seq<(usize, usize)>, m: int, e: (usize, usize))
    ensures
        stack_weight(s.push(e), m) == stack_weight(s, m) + (m - e.1 + 1),
{
    assert(s.push(e).drop_last() =~= s);
}

pub(crate) fn copy_label(l: &Option<String>) -> (r: Option<String>)
    ensures
        r == *l,
{
    match l {
        Some(s) => Some(s.clone()),
        None => None,
    }
}

/// The facts the search keeps between steps.
pub open spec fn search_ok(
    edges: Seq<RawEdge>,
    orig: Seq<RawEdge>,
    color: Seq<u8>,
    stack: Seq<(usize, usize)>,
    pos: Seq<int>,
    fin: Seq<int>,
    clock: int,
    n: int,
) -> bool {
    &&& color.len() == n
    &&& pos.len() == n
    &&& fin.len() == n
    &&& orig.len() <= usize::MAX
    &&& edges_within(orig, n)
    &&& forall|x: int| 0 <= x < n ==> #[trigger] color[x] <= BLACK
    &&& forall|x: int| 0 <= x < n && #[trigger] color[x] == BLACK ==> fin[x] < clock
    &&& stack_ok(stack, color, pos, n, orig.len() as int)
    &&& edges_state(edges, orig, color, stack, pos, fin)
}

/// Scanning past an edge that does not start at the top node changes nothing else.
#[verifier::spinoff_prover]
proof fn lemma_scan_other(
    edges: Seq<RawEdge>,
    orig: Seq<RawEdge>,
    color: Seq<u8>,
    stack: Seq<(usize, usize)>,
    pos: Seq<int>,
    fin: Seq<int>,
    clock: int,
    n: int,
)
    requires
        search_ok(edges, orig, color, stack, pos, fin, clock, n),
        stack.len() > 0,
        stack.last().1 < orig.len(),
        orig[stack.last().1 as int].from != stack.last().0,
    ensures
        search_ok(
            edges,
            orig,
            color,
            stack.update(stack.len() - 1, (stack.last().0, (stack.last().1 + 1) as usize)),
            pos,
            fin,
            clock,
            n,
        ),
{
    let top = stack.len() - 1;
    let u = stack.last().0 as int;
    let s2 = stack.update(top, (stack.last().0, (stack.last().1 + 1) as usize));
    assert(stack[top] == stack.last());
    assert forall|k: int| 0 <= k < s2.len() implies (#[trigger] s2[k]).0 < n && s2[k].1 <= orig.len()
        && color[s2[k].0 as int] == GRAY && pos[s2[k].0 as int] == k by {
        assert(stack[k].0 < n);
    }
    assert forall|i: int| 0 <= i < edges.len() implies examined(i, orig[i].from as int, color, s2, pos)
        == examined(i, orig[i].from as int, color, stack, pos) by {
        let src = orig[i].from as int;
        assert(edges_within(orig, n) ==> orig[i].from < n);
        if color[src] == GRAY {
            assert(stack[pos[src]].0 == src);
            if pos[src] == top {
                assert(src == u);
                assert(i != stack.last().1);
            }
        }
    }
}

/// Examining an edge from the top node to a finished node keeps it as it is.
#[verifier::spinoff_prover]
proof fn lemma_scan_finished(
    edges: Seq<RawEdge>,
    orig: Seq<RawEdge>,
    color: Seq<u8>,
    stack: Seq<(usize, usize)>,
    pos: Seq<int>,
    fin: Seq<int>,
    clock: int,
    n: int,
)
    requires
        search_ok(edges, orig, color, stack, pos, fin, clock, n),
        stack.len() > 0,
        stack.last().1 < orig.len(),
        orig[stack.last().1 as int].from == stack.last().0,
        color[orig[stack.last().1 as int].to as int] == BLACK,
    ensures
        search_ok(
            edges,
            orig,
            color,
            stack.update(stack.len() - 1, (stack.last().0, (stack.last().1 + 1) as usize)),
            pos,
            fin,
            clock,
            n,
        ),
{
    let top = stack.len() - 1;
    let u = stack.last().0 as int;
    let j = stack.last().1 as int;
    let s2 = stack.update(top, (stack.last().0, (stack.last().1 + 1) as usize));
    assert(stack[top] == stack.last());
    assert forall|k: int| 0 <= k < s2.len() implies (#[trigger] s2[k]).0 < n && s2[k].1 <= orig.len()
        && color[s2[k].0 as int] == GRAY && pos[s2[k].0 as int] == k by {
        assert(stack[k].0 < n);
    }
    assert(pos[u] == top);
    assert(!examined(j, u, color, stack, pos));
    assert(edges[j] == orig[j]);
    assert forall|i: int| 0 <= i < edges.len() implies {
        if examined(i, orig[i].from as int, color, s2, pos) {
            &&& (edges[i] == orig[i] || edges[i] == turned(orig[i]))
            &&& edge_ordered((#[trigger] edges[i]).from as int, edges[i].to as int, color, pos, fin)
        } else {
            edges[i] == orig[i]
        }
    } by {
        let src = orig[i].from as int;
        assert(orig[i].from < n);
        if i != j {
            if color[src] == GRAY {
                assert(stack[pos[src]].0 == src);
            }
            assert(examined(i, src, color, s2, pos) == examined(i, src, color, stack, pos));
        }
    }
}

/// Examining an edge from the top node to a node on the stack turns it around.
#[verifier::spinoff_prover]
proof fn lemma_scan_stacked(
    edges: Seq<RawEdge>,
    orig: Seq<RawEdge>,
    color: Seq<u8>,
    stack: Seq<(usize, usize)>,
    pos: Seq<int>,
    fin: Seq<int>,
    clock: int,
    n: int,
)
    requires
        search_ok(edges, orig, color, stack, pos, fin, clock, n),
        stack.len() > 0,
        stack.last().1 < orig.len(),
        orig[stack.last().1 as int].from == stack.last().0,
        color[orig[stack.last().1 as int].to as int] == GRAY,
    ensures
        search_ok(
            edges.update(stack.last().1 as int, turned(orig[stack.last().1 as int])),
            orig,
            color,
            stack.update(stack.len() - 1, (stack.last().0, (stack.last().1 + 1) as usize)),
            pos,
            fin,
            clock,
            n,
        ),
{
    let top = stack.len() - 1;
    let u = stack.last().0 as int;
    let j = stack.last().1 as int;
    let v = orig[j].to as int;
    let s2 = stack.update(top, (stack.last().0, (stack.last().1 + 1) as usize));
    let e2 = edges.update(j, turned(orig[j]));
    assert(stack[top] == stack.last());
    assert forall|k: int| 0 <= k < s2.len() implies (#[trigger] s2[k]).0 < n && s2[k].1 <= orig.len()
        && color[s2[k].0 as int] == GRAY && pos[s2[k].0 as int] == k by {
        assert(stack[k].0 < n);
    }
    assert(pos[u] == top);
    assert(orig[j].to < n);
    if v != u {
        assert(stack[pos[v]].0 == v);
        assert(pos[v] != top);
        assert(pos[v] < top);
    }
    assert(edge_ordered(v, u, color, pos, fin));
    assert forall|i: int| 0 <= i < e2.len() implies {
        if examined(i, orig[i].from as int, color, s2, pos) {
            &&& (e2[i] == orig[i] || e2[i] == turned(orig[i]))
            &&& edge_ordered((#[trigger] e2[i]).from as int, e2[i].to as int, color, pos, fin)
        } else {
            e2[i] == orig[i]
        }
    } by {
        let src = orig[i].from as int;
        assert(orig[i].from < n);
        if i != j {
            if color[src] == GRAY {
                assert(stack[pos[src]].0 == src);
            }
            assert(examined(i, src, color, s2, pos) == examined(i, src, color, stack, pos));
            assert(e2[i] == edges[i]);
        }
    }
    assert forall|i: int| 0 <= i < e2.len() implies (#[trigger] e2[i]).from < n && e2[i].to < n by {
        assert(orig[i].from < n);
    }
}

/// Examining an edge from the top node to an unvisited node pushes that node.
#[verifier::spinoff_prover]
#[verifier::rlimit(30)]
proof fn lemma_scan_new(
    edges: Seq<RawEdge>,
    orig: Seq<RawEdge>,
    color: Seq<u8>,
    stack: Seq<(usize, usize)>,
    pos: Seq<int>,
    fin: Seq<int>,
    clock: int,
    n: int,
)
    requires
        search_ok(edges, orig, color, stack, pos, fin, clock, n),
        stack.len() > 0,
        stack.last().1 < orig.len(),
        orig[stack.last().1 as int].from == stack.last().0,
        color[orig[stack.last().1 as int].to as int] == WHITE,
    ensures
        search_ok(
            edges,
            orig,
            color.update(orig[stack.last().1 as int].to as int, GRAY),
            stack.update(stack.len() - 1, (stack.last().0, (stack.last().1 + 1) as usize)).push(
                (orig[stack.last().1 as int].to, 0usize),
            ),
            pos.update(orig[stack.last().1 as int].to as int, stack.len() as int),
            fin,
            clock,
            n,
        ),
{
    let top = stack.len() - 1;
    let u = stack.last().0 as int;
    let j = stack.last().1 as int;
    let v = orig[j].to as int;
    let s2 = stack.update(top, (stack.last().0, (stack.last().1 + 1) as usize)).push((orig[j].to, 0usize));
    let c2 = color.update(v, GRAY);
    let p2 = pos.update(v, stack.len() as int);
    assert(stack[top] == stack.last());
    assert(orig[j].to < n);
    assert(pos[u] == top);
    assert forall|k: int| 0 <= k < s2.len() implies (#[trigger] s2[k]).0 < n && s2[k].1 <= orig.len()
        && c2[s2[k].0 as int] == GRAY && p2[s2[k].0 as int] == k by {
        if k < stack.len() {
            assert(stack[k].0 < n);
            assert(color[stack[k].0 as int] == GRAY);
            assert(stack[k].0 != v);
        }
    }
    assert forall|x: int| 0 <= x < n && #[trigger] c2[x] == GRAY implies 0 <= p2[x] < s2.len() && s2[p2[x]].0
        == x by {
        if x != v {
            assert(color[x] == GRAY);
        }
    }
    assert forall|x: int| 0 <= x < n && #[trigger] c2[x] == BLACK implies fin[x] < clock by {
        if x != v {
            assert(color[x] == BLACK);
        }
    }
    assert forall|x: int| 0 <= x < n implies #[trigger] c2[x] <= BLACK by {
        if x != v {
            assert(color[x] <= BLACK);
        }
    }
    assert(!examined(j, u, color, stack, pos));
    assert(edges[j] == orig[j]);
    assert forall|i: int| 0 <= i < edges.len() implies {
        if examined(i, orig[i].from as int, c2, s2, p2) {
            &&& (edges[i] == orig[i] || edges[i] == turned(orig[i]))
            &&& edge_ordered((#[trigger] edges[i]).from as int, edges[i].to as int, c2, p2, fin)
        } else {
            edges[i] == orig[i]
        }
    } by {
        let src = orig[i].from as int;
        assert(orig[i].from < n);
        if i == j {
            assert(examined(i, src, c2, s2, p2));
            assert(edges[i].from as int == u && edges[i].to as int == v);
            assert(edge_ordered(u, v, c2, p2, fin));
        } else if src == v {
            assert(!examined(i, src, color, stack, pos));
            assert(!examined(i, src, c2, s2, p2));
        } else {
            if color[src] == GRAY {
                assert(stack[pos[src]].0 == src);
                assert(s2[p2[src]] == stack[pos[src]] || p2[src] == top);
            }
            assert(examined(i, src, c2, s2, p2) == examined(i, src, color, stack, pos));
            if examined(i, src, color, stack, pos) {
                let a = edges[i].from as int;
                let b = edges[i].to as int;
                assert(edge_ordered(a, b, color, pos, fin));
                if a != b {
                    assert(a != v && b != v);
                }
            }
        }
    }
}

/// Popping a node whose edges are all examined finishes it.
#[verifier::spinoff_prover]
#[verifier::rlimit(30)]
proof fn lemma_pop(
    edges: Seq<RawEdge>,
    orig: Seq<RawEdge>,
    color: Seq<u8>,
    stack: Seq<(usize, usize)>,
    pos: Seq<int>,
    fin: Seq<int>,
    clock: int,
    n: int,
)
    requires
        search_ok(edges, orig, color, stack, pos, fin, clock, n),
        stack.len() > 0,
        stack.last().1 == orig.len(),
    ensures
        search_ok(
            edges,
            orig,
            color.update(stack.last().0 as int, BLACK),
            stack.drop_last(),
            pos,
            fin.update(stack.last().0 as int, clock),
            clock + 1,
            n,
        ),
{
    let top = stack.len() - 1;
    let u = stack.last().0 as int;
    let s2 = stack.drop_last();
    let c2 = color.update(u, BLACK);
    let f2 = fin.update(u, clock);
    assert(stack[top] == stack.last());
    assert(u < n);
    assert(pos[u] == top);
    assert forall|k: int| 0 <= k < s2.len() implies (#[trigger] s2[k]).0 < n && s2[k].1 <= orig.len()
        && c2[s2[k].0 as int] == GRAY && pos[s2[k].0 as int] == k by {
        assert(s2[k] == stack[k]);
        assert(stack[k].0 < n);
        assert(pos[stack[k].0 as int] == k);
    }
    assert forall|x: int| 0 <= x < n && #[trigger] c2[x] == GRAY implies 0 <= pos[x] < s2.len() && s2[pos[x]].0
        == x by {
        assert(color[x] == GRAY);
        assert(stack[pos[x]].0 == x);
    }
    assert forall|x: int| 0 <= x < n && #[trigger] c2[x] == BLACK implies f2[x] < clock + 1 by {
        if x != u {
            assert(color[x] == BLACK);
        }
    }
    assert forall|x: int| 0 <= x < n implies #[trigger] c2[x] <= BLACK by {
        if x != u {
            assert(color[x] <= BLACK);
        }
    }
    assert forall|i: int| 0 <= i < edges.len() implies {
        if examined(i, orig[i].from as int, c2, s2, pos) {
            &&& (edges[i] == orig[i] || edges[i] == turned(orig[i]))
            &&& edge_ordered((#[trigger] edges[i]).from as int, edges[i].to as int, c2, pos, f2)
        } else {
            edges[i] == orig[i]
        }
    } by {
        let src = orig[i].from as int;
        assert(orig[i].from < n);
        if src == u {
            assert(examined(i, src, color, stack, pos));
        } else if color[src] == GRAY {
            assert(stack[pos[src]].0 == src);
            assert(pos[src] != top);
            assert(s2[pos[src]] == stack[pos[src]]);
        }
        assert(examined(i, src, c2, s2, pos) == examined(i, src, color, stack, pos));
        if examined(i, src, color, stack, pos) {
            let a = edges[i].from as int;
            let b = edges[i].to as int;
            assert(edge_ordered(a, b, color, pos, fin));
            if a != b {
                if a == u {
                    if color[b] == GRAY {
                        assert(stack[pos[b]].0 == b);
                        assert(pos[b] < stack.len());
                    }
                    assert(color[b] == BLACK);
                }
            }
        }
    }
}

/// Starting a search from an unvisited node, with nothing on the stack, pushes it.
#[verifier::spinoff_prover]
proof fn lemma_start(
    edges: Seq<RawEdge>,
    orig: Seq<RawEdge>,
    color: Seq<u8>,
    pos: Seq<int>,
    fin: Seq<int>,
    clock: int,
    n: int,
    start: usize,
)
    requires
        search_ok(edges, orig, color, seq![], pos, fin, clock, n),
        start < n,
        color[start as int] == WHITE,
        forall|y: int| 0 <= y < n ==> #[trigger] color[y] != GRAY,
    ensures
        search_ok(edges, orig, color.update(start as int, GRAY), seq![(start, 0usize)], pos.update(start as int, 0), fin, clock, n),
{
    let s = start as int;
    let c2 = color.update(s, GRAY);
    let p2 = pos.update(s, 0);
    let st: Seq<(usize, usize)> = seq![(start, 0usize)];
    let empty: Seq<(usize, usize)> = seq![];
    assert forall|x: int| 0 <= x < n && #[trigger] c2[x] == GRAY implies 0 <= p2[x] < st.len() && st[p2[x]].0 == x by {
        if x != s {
            assert(color[x] == GRAY);
        }
    }
    assert forall|x: int| 0 <= x < n && #[trigger] c2[x] == BLACK implies fin[x] < clock by {
        if x != s {
            assert(color[x] == BLACK);
        }
    }
    assert forall|x: int| 0 <= x < n implies #[trigger] c2[x] <= BLACK by {
        if x != s {
            assert(color[x] <= BLACK);
        }
    }
    assert forall|i: int| 0 <= i < edges.len() implies {
        if examined(i, orig[i].from as int, c2, st, p2) {
            &&& (edges[i] == orig[i] || edges[i] == turned(orig[i]))
            &&& edge_ordered((#[trigger] edges[i]).from as int, edges[i].to as int, c2, p2, fin)
        } else {
            edges[i] == orig[i]
        }
    } by {
        let src = orig[i].from as int;
        assert(orig[i].from < n);
        if src == s {
            assert(!examined(i, src, color, empty, pos));
            assert(!examined(i, src, c2, st, p2));
        } else {
            assert(color[src] != GRAY);
            assert(examined(i, src, c2, st, p2) == examined(i, src, color, empty, pos));
            if examined(i, src, color, empty, pos) {
                let a = edges[i].from as int;
                let b = edges[i].to as int;
                assert(edge_ordered(a, b, color, pos, fin));
                if a != b {
                    assert(a != s && b != s);
                }
            }
        }
    }
}

/// What the cycle-breaking search holds between steps: the edges (some
/// turned), each node's colour, the stack of nodes with the next edge index to
/// scan from each, and the next node to start a search from.
pub struct SearchState {
    pub edges: Seq<RawEdge>,
    pub color: Seq<u8>,
    pub stack: Seq<(usize, usize)>,
    pub start: int,
}

/// One step of the depth-first search over `orig` on `n` nodes. With a node on
/// the stack it scans that node's next edge (edges taken in index order): an
/// edge into a node on the stack is turned around, one into an unreached node
/// pushes that node; with the edges all scanned the node is finished and
/// popped. With an empty stack it starts from the next unreached node, in
/// index order. A finished search stays as it is.
pub open spec fn search_step(orig: Seq<RawEdge>, n: int, s: SearchState) -> SearchState {
    if s.stack.len() > 0 {
        let top = s.stack.len() - 1;
        let u = s.stack[top].0;
        let j = s.stack[top].1;
        if j < orig.len() {
            let adv = s.stack.update(top, (u, (j + 1) as usize));
            if orig[j as int].from == u {
                let v = s.edges[j as int].to;
                if s.color[v as int] == GRAY {
                    SearchState { edges: s.edges.update(j as int, turned(s.edges[j as int])), stack: adv, ..s }
                } else if s.color[v as int] == WHITE {
                    SearchState { color: s.color.update(v as int, GRAY), stack: adv.push((v, 0usize)), ..s }
                } else {
                    SearchState { stack: adv, ..s }
                }
            } else {
                SearchState { stack: adv, ..s }
            }
        } else {
            SearchState { color: s.color.update(u as int, BLACK), stack: s.stack.drop_last(), ..s }
        }
    } else if s.start < n {
        if s.color[s.start] == WHITE {
            SearchState {
                color: s.color.update(s.start, GRAY),
                stack: seq![(s.start as usize, 0usize)],
                start: s.start + 1,
                ..s
            }
        } else {
            SearchState { start: s.start + 1, ..s }
        }
    } else {
        s
    }
}

/// The search after `k` steps from its start: all nodes unreached.
pub open spec fn search_after(orig: Seq<RawEdge>, n: int, k: nat) -> SearchState
    decreases k,
{
    if k == 0 {
        SearchState { edges: orig, color: Seq::new(n as nat, |i: int| WHITE), stack: seq![], start: 0 }
    } else {
        search_step(orig, n, search_after(orig, n, (k - 1) as nat))
    }
}

/// The search has finished: nothing on the stack and no node left to start from.
pub open spec fn search_done(s: SearchState, n: int) -> bool {
    s.stack.len() == 0 && s.start >= n
}

/// `edges` are what the search over `orig` leaves when it finishes.
pub open spec fn searched(orig: Seq<RawEdge>, n: int, edges: Seq<RawEdge>) -> bool {
    exists|k: nat| #[trigger] search_done(search_after(orig, n, k), n) && search_after(orig, n, k).edges == edges
}

proof fn lemma_search_stays(orig: Seq<RawEdge>, n: int, k: nat, k2: nat)
    requires
        search_done(search_after(orig, n, k), n),
        k <= k2,
    ensures
        search_after(orig, n, k2) == search_after(orig, n, k),
    decreases k2 - k,
{
    if k < k2 {
        lemma_search_stays(orig, n, k, (k2 - 1) as nat);
    }
}

/// The search leaves one outcome: the edges it leaves are determined.
pub proof fn lemma_searched_unique(orig: Seq<RawEdge>, n: int, e1: Seq<RawEdge>, e2: Seq<RawEdge>)
    requires
        searched(orig, n, e1),
        searched(orig, n, e2),
    ensures
        e1 == e2,
{
    let k1 = choose|k: nat| #[trigger] search_done(search_after(orig, n, k), n) && search_after(orig, n, k).edges == e1;
    let k2 = choose|k: nat| #[trigger] search_done(search_after(orig, n, k), n) && search_after(orig, n, k).edges == e2;
    if k1 <= k2 {
        lemma_search_stays(orig, n, k1, k2);
    } else {
        lemma_search_stays(orig, n, k2, k1);
    }
}

/// Turn around the back edges that a depth-first search from each unvisited
/// node (in index order) meets, so that the edges form no cycle. Each edge is
/// kept or turned around (and marked reversed); when no edge joins a node to
/// itself, the result is acyclic.
pub fn remove_cycles(edges: &mut Vec<RawEdge>, n: usize)
    requires
        edges_within(old(edges)@, n as int),
    ensures
        final(edges)@.len() == old(edges)@.len(),
        forall|i: int|
            0 <= i < old(edges)@.len() ==> #[trigger] final(edges)@[i] == old(edges)@[i] || final(edges)@[i]
                == turned(old(edges)@[i]),
        edges_within(final(edges)@, n as int),
        no_self_loops(old(edges)@) ==> acyclic(final(edges)@, n as int),
        acyclic(old(edges)@, n as int) ==> final(edges)@ == old(edges)@,
        searched(old(edges)@, n as int, final(edges)@),
{
    let ghost orig = edges@;
    let m = edges.len();
    let mut origin: Vec<usize> = Vec::new();
    let mut i: usize = 0;
    while i < m
        invariant
            i <= m,
            m == orig.len(),
            edges@ == orig,
            origin@.len() == i,
            forall|k: int| 0 <= k < i ==> origin@[k] == orig[k].from,
        decreases m - i,
    {
        origin.push(edges[i].from);
        i += 1;
    }
    let mut color: Vec<u8> = Vec::new();
    let mut x: usize = 0;
    while x < n
        invariant
            x <= n,
            color@.len() == x,
            forall|k: int| 0 <= k < x ==> color@[k] == WHITE,
        decreases n - x,
    {
        color.push(WHITE);
        x += 1;
    }
    let ghost mut pos: Seq<int> = Seq::new(n as nat, |k: int| 0int);
    let ghost mut fin: Seq<int> = Seq::new(n as nat, |k: int| 0int);
    let ghost mut clock: int = 0;
    let mut stack: Vec<(usize, usize)> = Vec::new();
    let ghost rank: Seq<int> = if acyclic(orig, n as int) {
        choose|r: Seq<int>| r.len() == n && ranked_by(orig, r)
    } else {
        Seq::empty()
    };
    let ghost mut steps: nat = 0;
    proof {
        assert(color@ =~= Seq::new(n as nat, |i: int| WHITE));
    }
    let mut start: usize = 0;
    while start < n
        invariant
            start <= n,
            search_after(orig, n as int, steps) == (SearchState { edges: edges@, color: color@, stack: stack@, start: start as int }),
            untouched_while_acyclic(edges@, orig, stack@, rank, n as int),
            m == orig.len(),
            origin@.len() == m,
            forall|k: int| 0 <= k < m ==> origin@[k] == orig[k].from,
            stack@.len() == 0,
            search_ok(edges@, orig, color@, stack@, pos, fin, clock, n as int),
            forall|y: int| 0 <= y < start ==> #[trigger] color@[y] != WHITE,
            forall|y: int| 0 <= y < n ==> #[trigger] color@[y] != GRAY,
        decreases n - start,
    {
        if color[start] == WHITE {
            proof {
                lemma_count_white_visit(color@, start as int, GRAY);
                lemma_start(edges@, orig, color@, pos, fin, clock, n as int, start);
                pos = pos.update(start as int, 0);
            }
            color.set(start, GRAY);
            stack.push((start, 0));
            proof {
                assert(stack@ =~= seq![(start, 0usize)]);
                steps = steps + 1;
            }
            while stack.len() > 0
                invariant
                    start < n,
                    search_after(orig, n as int, steps) == (SearchState { edges: edges@, color: color@, stack: stack@, start: start + 1 }),
                    untouched_while_acyclic(edges@, orig, stack@, rank, n as int),
                    m == orig.len(),
                    origin@.len() == m,
                    forall|k: int| 0 <= k < m ==> origin@[k] == orig[k].from,
                    search_ok(edges@, orig, color@, stack@, pos, fin, clock, n as int),
                    forall|y: int| 0 <= y <= start ==> #[trigger] color@[y] != WHITE,
                decreases count_white(color@), stack_weight(stack@, m as int),
            {
                proof {
                    lemma_stack_weight_nonneg(stack@, m as int);
                }
                let top = stack.len() - 1;
                let (u, j) = stack[top];
                proof {
                    assert(stack@[top as int] == stack@.last());
                }
                if j < m {
                    if origin[j] == u {
                        let v = edges[j].to;
                        proof {
                            assert(pos[u as int] == top);
                            assert(!examined(j as int, u as int, color@, stack@, pos));
                            assert(edges@[j as int] == orig[j as int]);
                        }
                        if color[v] == GRAY {
                            proof {
                                if acyclic(orig, n as int) {
                                    let p = pos[v as int];
                                    assert(stack@[p].0 == v);
                                    assert(stack@[top as int].0 == u);
                                    assert(rank[u as int] > rank[v as int]);
                                    if p < top {
                                        assert(rank[stack@[p].0 as int] > rank[stack@[top as int].0 as int]);
                                    }
                                    assert(false);
                                }
                                lemma_scan_stacked(edges@, orig, color@, stack@, pos, fin, clock, n as int);
                                lemma_stack_weight_advance(stack@, m as int, (u, (j + 1) as usize));
                            }
                            let e = RawEdge {
                                from: edges[j].to,
                                to: edges[j].from,
                                label: copy_label(&edges[j].label),
                                arrow: edges[j].arrow,
                                reversed: true,
                            };
                            edges.set(j, e);
                            stack.set(top, (u, j + 1));
                        } else if color[v] == WHITE {
                            proof {
                                lemma_scan_new(edges@, orig, color@, stack@, pos, fin, clock, n as int);
                                lemma_count_white_visit(color@, v as int, GRAY);
                                pos = pos.update(v as int, stack@.len() as int);
                            }
                            let ghost before = stack@;
                            stack.set(top, (u, j + 1));
                            color.set(v, GRAY);
                            stack.push((v, 0));
                            proof {
                                if acyclic(orig, n as int) {
                                    assert(rank[u as int] > rank[v as int]);
                                    assert forall|a: int, b: int| 0 <= a < b < stack@.len() implies rank[(#[trigger] stack@[a]).0 as int]
                                        > rank[(#[trigger] stack@[b]).0 as int] by {
                                        if b == stack@.len() - 1 {
                                            if a < top {
                                                assert(rank[before[a].0 as int] > rank[before[top as int].0 as int]);
                                            }
                                        } else {
                                            assert(stack@[a].0 == before[a].0 && stack@[b].0 == before[b].0);
                                        }
                                    }
                                }
                            }
                        } else {
                            proof {
                                lemma_scan_finished(edges@, orig, color@, stack@, pos, fin, clock, n as int);
                                lemma_stack_weight_advance(stack@, m as int, (u, (j + 1) as usize));
                            }
                            stack.set(top, (u, j + 1));
                        }
                    } else {
                        proof {
                            lemma_scan_other(edges@, orig, color@, stack@, pos, fin, clock, n as int);
                            lemma_stack_weight_advance(stack@, m as int, (u, (j + 1) as usize));
                        }
                        stack.set(top, (u, j + 1));
                    }
                } else {
                    proof {
                        lemma_pop(edges@, orig, color@, stack@, pos, fin, clock, n as int);
                        lemma_count_white_keep(color@, u as int, BLACK);
                        assert(stack@.drop_last().push(stack@.last()) =~= stack@);
                        lemma_stack_weight_push(stack@.drop_last(), m as int, stack@.last());
                        fin = fin.update(u as int, clock);
                        clock = clock + 1;
                    }
                    color.set(u, BLACK);
                    stack.pop();
                }
                proof {
                    lemma_stack_weight_nonneg(stack@, m as int);
                    steps = steps + 1;
                }
            }
        } else {
            proof {
                steps = steps + 1;
            }
        }
        start += 1;
    }
    proof {
        assert(search_done(search_after(orig, n as int, steps), n as int));
    }
    proof {
        assert forall|y: int| 0 <= y < n implies #[trigger] color@[y] == BLACK by {
            assert(color@[y] != WHITE && color@[y] != GRAY && color@[y] <= BLACK);
        }
        assert forall|k: int| 0 <= k < m implies edges@[k] == orig[k] || edges@[k] == turned(orig[k]) by {
            assert(orig[k].from < n);
            assert(examined(k, orig[k].from as int, color@, stack@, pos));
        }
        assert forall|k: int| 0 <= k < m implies (#[trigger] edges@[k]).from < n && edges@[k].to < n by {
            assert(orig[k].from < n);
            assert(examined(k, orig[k].from as int, color@, stack@, pos));
        }
        if no_self_loops(orig) {
            assert forall|k: int| 0 <= k < m implies fin[(#[trigger] edges@[k]).from as int] > fin[edges@[k].to as int] by {
                assert(orig[k].from < n);
                assert(orig[k].from != orig[k].to);
                assert(examined(k, orig[k].from as int, color@, stack@, pos));
                assert(edges@[k].from != edges@[k].to);
            }
            assert(ranked_by(edges@, fin));
        }
    }
}

/// Each edge goes down at least one layer, and a node below the top layer sits
/// exactly one below the deepest of its predecessors: longest-path layering.
pub open spec fn longest_path_layers(edges: Seq<RawEdge>, layer: Seq<usize>) -> bool {
    &&& forall|i: int| 0 <= i < edges.len() ==> layer[(#[trigger] edges[i]).to as int] >= layer[edges[i].from as int] + 1
    &&& forall|v: int| 0 <= v < layer.len() ==> #[trigger] layer[v] == 0 || exists|i: int|
        0 <= i < edges.len() && (#[trigger] edges[i]).to == v && layer[v] == layer[edges[i].from as int] + 1
}

/// The number of edges among the first `upto` into `v` not yet marked done.
pub open spec fn undone_into(edges: Seq<RawEdge>, done: Seq<bool>, v: int, upto: int) -> nat
    decreases upto,
{
    if upto <= 0 {
        0
    } else {
        undone_into(edges, done, v, upto - 1) + if edges[upto - 1].to == v && !done[upto - 1] {
            1nat
        } else {
            0nat
        }
    }
}

proof fn lemma_undone_mark(edges: Seq<RawEdge>, done: Seq<bool>, v: int, upto: int, k: int)
    requires
        0 <= k < upto,
        upto <= done.len(),
        !done[k],
    ensures
        edges[k].to == v ==> undone_into(edges, done.update(k, true), v, upto) + 1 == undone_into(edges, done, v, upto),
        edges[k].to != v ==> undone_into(edges, done.update(k, true), v, upto) == undone_into(edges, done, v, upto),
    decreases upto,
{
    if upto - 1 > k {
        lemma_undone_mark(edges, done, v, upto - 1, k);
        assert(done.update(k, true)[upto - 1] == done[upto - 1]);
    } else {
        lemma_undone_same(edges, done, done.update(k, true), v, k);
    }
}

proof fn lemma_undone_same(edges: Seq<RawEdge>, d1: Seq<bool>, d2: Seq<bool>, v: int, upto: int)
    requires
        forall|i: int| 0 <= i < upto ==> d1[i] == d2[i],
    ensures
        undone_into(edges, d1, v, upto) == undone_into(edges, d2, v, upto),
    decreases upto,
{
    if upto > 0 {
        lemma_undone_same(edges, d1, d2, v, upto - 1);
    }
}

proof fn lemma_undone_zero(edges: Seq<RawEdge>, done: Seq<bool>, v: int, upto: int)
    ensures
        undone_into(edges, done, v, upto) == 0 <==> forall|i: int| 0 <= i < upto && #[trigger] edges[i].to == v ==> done[i],
    decreases upto,
{
    if upto > 0 {
        lemma_undone_zero(edges, done, v, upto - 1);
        if undone_into(edges, done, v, upto) == 0 {
            assert forall|i: int| 0 <= i < upto && #[trigger] edges[i].to == v implies done[i] by {
                if i < upto - 1 {
                } else {
                }
            }
        }
    }
}

proof fn lemma_undone_bound(edges: Seq<RawEdge>, done: Seq<bool>, v: int, upto: int)
    requires
        upto >= 0,
    ensures
        undone_into(edges, done, v, upto) <= upto,
    decreases upto,
{
    if upto > 0 {
        lemma_undone_bound(edges, done, v, upto - 1);
    }
}

/// Among the nodes marked `bad`, one of highest rank.
proof fn lemma_max_rank(rank: Seq<int>, bad: Seq<bool>, n: int) -> (x: int)
    requires
        0 <= n <= bad.len(),
        exists|y: int| 0 <= y < n && bad[y],
    ensures
        0 <= x < n,
        bad[x],
        forall|y: int| 0 <= y < n && bad[y] ==> rank[y] <= rank[x],
    decreases n,
{
    if exists|y: int| 0 <= y < n - 1 && bad[y] {
        let x0 = lemma_max_rank(rank, bad, n - 1);
        if bad[n - 1] && rank[n - 1] > rank[x0] {
            n - 1
        } else {
            x0
        }
    } else {
        n - 1
    }
}

/// The layers so far: every done edge goes down a layer, and a node below the
/// top sits one below a done predecessor.
pub open spec fn layers_so_far(edges: Seq<RawEdge>, done: Seq<bool>, layer: Seq<usize>) -> bool {
    &&& forall|i: int| 0 <= i < edges.len() && #[trigger] done[i] ==> layer[edges[i].to as int] >= layer[edges[i].from as int] + 1
    &&& forall|v: int| 0 <= v < layer.len() ==> #[trigger] layer[v] == 0 || exists|i: int|
        0 <= i < edges.len() && done[i] && (#[trigger] edges[i]).to == v && layer[v] == layer[edges[i].from as int] + 1
}

/// The facts Kahn's algorithm keeps while it scans the edges out of `u`, the
/// queue's entry `h`: the queue holds each node at most once, exactly the nodes
/// whose incoming edges are all done; an edge is done once its source has been
/// taken from the queue (or, out of `u`, scanned); layers stay within `h + 1`.
pub open spec fn kahn_ok(
    edges: Seq<RawEdge>,
    n: int,
    queue: Seq<usize>,
    qpos: Seq<int>,
    enq: Seq<bool>,
    done: Seq<bool>,
    in_deg: Seq<usize>,
    layer: Seq<usize>,
    h: int,
    u: int,
    k: int,
) -> bool {
    &&& edges_within(edges, n)
    &&& n <= usize::MAX
    &&& qpos.len() == n && enq.len() == n && in_deg.len() == n && layer.len() == n && done.len() == edges.len()
    &&& 0 <= h <= queue.len() <= n
    &&& forall|j: int| 0 <= j < queue.len() ==> (#[trigger] queue[j]) < n && enq[queue[j] as int] && qpos[queue[j] as int] == j
    &&& forall|x: int| 0 <= x < n && #[trigger] enq[x] ==> 0 <= qpos[x] < queue.len() && queue[qpos[x]] == x
    &&& forall|i: int| 0 <= i < edges.len() ==> #[trigger] done[i] == ((enq[edges[i].from as int] && qpos[edges[i].from as int]
        < h) || (edges[i].from == u && i < k))
    &&& forall|v: int| 0 <= v < n ==> #[trigger] in_deg[v] == undone_into(edges, done, v, edges.len() as int)
    &&& forall|v: int| 0 <= v < n ==> #[trigger] enq[v] == (in_deg[v] == 0)
    &&& layers_so_far(edges, done, layer)
    &&& forall|x: int| 0 <= x < n ==> #[trigger] layer[x] <= h + 1
    &&& forall|x: int| 0 <= x < n ==> #[trigger] layer[x] < n
}

/// Marking the edge `k` out of the node `u` being scanned done lowers its
/// target's count, pulls the target down, and queues it once its count is zero.
#[verifier::spinoff_prover]
#[verifier::rlimit(60)]
proof fn lemma_relax(
    edges: Seq<RawEdge>,
    n: int,
    queue: Seq<usize>,
    qpos: Seq<int>,
    enq: Seq<bool>,
    done: Seq<bool>,
    in_deg: Seq<usize>,
    layer: Seq<usize>,
    h: int,
    k: int,
)
    requires
        0 <= h < queue.len(),
        kahn_ok(edges, n, queue, qpos, enq, done, in_deg, layer, h, queue[h] as int, k),
        layer[queue[h] as int] <= h,
        0 <= k < edges.len(),
        edges[k].from == queue[h],
    ensures
        ({
            let u = queue[h] as int;
            let v = edges[k].to as int;
            let d2 = done.update(k, true);
            let i2 = in_deg.update(v, (in_deg[v] - 1) as usize);
            let l2 = layer.update(v, if layer[u] + 1 > layer[v] { (layer[u] + 1) as usize } else { layer[v] });
            &&& v != u
            &&& in_deg[v] >= 1
            &&& layer[u] + 1 <= usize::MAX
            &&& if in_deg[v] == 1 {
                kahn_ok(edges, n, queue.push(v as usize), qpos.update(v, queue.len() as int), enq.update(v, true), d2, i2, l2, h, u, k + 1)
            } else {
                kahn_ok(edges, n, queue, qpos, enq, d2, i2, l2, h, u, k + 1)
            }
        }),
{
    let u = queue[h] as int;
    let v = edges[k].to as int;
    let m = edges.len() as int;
    assert(edges[k].from < n && edges[k].to < n);
    assert(enq[u]);
    assert(qpos[u] == h);
    assert(!done[k]);
    let d2 = done.update(k, true);
    lemma_undone_zero(edges, done, v, m);
    lemma_undone_mark(edges, done, v, m, k);
    assert(in_deg[v] >= 1);
    assert(v != u) by {
        if v == u {
            assert(in_deg[u] == 0);
        }
    }
    assert(!enq[v]);
    assert(queue.len() < n) by {
        assert forall|j: int| 0 <= j < queue.len() implies (#[trigger] queue[j]) != v as usize by {
            assert(enq[queue[j] as int]);
        }
        lemma_queue_short(queue, qpos, n, v);
    }
    lemma_undone_bound(edges, done, v, m);
    let i2 = in_deg.update(v, (in_deg[v] - 1) as usize);
    let l2 = layer.update(v, if layer[u] + 1 > layer[v] { (layer[u] + 1) as usize } else { layer[v] });
    assert forall|w: int| 0 <= w < n implies #[trigger] i2[w] == undone_into(edges, d2, w, m) by {
        lemma_undone_mark(edges, done, w, m, k);
    }
    // the target is not finished, so no done edge leaves it
    assert forall|i: int| 0 <= i < m && #[trigger] done[i] implies edges[i].from != v by {
        if edges[i].from == v {
            assert(enq[v] || (edges[i].from == u));
        }
    }
    assert(layers_so_far(edges, d2, l2)) by {
        assert forall|i: int| 0 <= i < m && #[trigger] d2[i] implies l2[edges[i].to as int] >= l2[edges[i].from as int] + 1 by {
            if i != k {
                assert(done[i]);
                assert(edges[i].from != v);
            }
        }
        assert forall|w: int| 0 <= w < l2.len() implies #[trigger] l2[w] == 0 || exists|i: int|
            0 <= i < m && d2[i] && (#[trigger] edges[i]).to == w && l2[w] == l2[edges[i].from as int] + 1 by {
            if w == v {
                if layer[u] + 1 > layer[v] {
                    assert(d2[k] && edges[k].to == w && l2[w] == l2[edges[k].from as int] + 1);
                } else if layer[v] != 0 {
                    let i = choose|i: int| 0 <= i < m && done[i] && (#[trigger] edges[i]).to == v && layer[v] == layer[edges[i].from as int] + 1;
                    assert(edges[i].from != v);
                    assert(d2[i] && edges[i].to == w && l2[w] == l2[edges[i].from as int] + 1);
                }
            } else if layer[w] != 0 {
                let i = choose|i: int| 0 <= i < m && done[i] && (#[trigger] edges[i]).to == w && layer[w] == layer[edges[i].from as int] + 1;
                assert(edges[i].from != v);
                assert(d2[i] && edges[i].to == w && l2[w] == l2[edges[i].from as int] + 1);
            }
        }
    }
    if in_deg[v] == 1 {
        let q2 = queue.push(v as usize);
        let p2 = qpos.update(v, queue.len() as int);
        let e2 = enq.update(v, true);
        assert forall|j: int| 0 <= j < q2.len() implies (#[trigger] q2[j]) < n && e2[q2[j] as int] && p2[q2[j] as int] == j by {
            if j < queue.len() {
                assert(queue[j] < n && enq[queue[j] as int]);
                assert(queue[j] as int != v);
            }
        }
        assert forall|x: int| 0 <= x < n && #[trigger] e2[x] implies 0 <= p2[x] < q2.len() && q2[p2[x]] == x by {
            if x != v {
                assert(enq[x]);
            }
        }
        assert forall|i: int| 0 <= i < m implies #[trigger] d2[i] == ((e2[edges[i].from as int] && p2[edges[i].from as int] < h) || (edges[i].from == u && i < k + 1)) by {
            assert(edges[i].from < n);
            if edges[i].from as int == v {
                assert(!done[i]);
            }
        }
    } else {
        assert forall|i: int| 0 <= i < m implies #[trigger] d2[i] == ((enq[edges[i].from as int] && qpos[edges[i].from as int] < h) || (edges[i].from == u && i < k + 1)) by {
            assert(edges[i].from < n);
        }
    }
}

/// A queue of distinct nodes below `n` that misses `v` is shorter than `n`.
proof fn lemma_queue_short(queue: Seq<usize>, qpos: Seq<int>, n: int, v: int)
    requires
        0 <= v < n,
        qpos.len() == n,
        forall|j: int| 0 <= j < queue.len() ==> (#[trigger] queue[j]) < n && qpos[queue[j] as int] == j,
        forall|j: int| 0 <= j < queue.len() ==> (#[trigger] queue[j]) != v as usize,
    ensures
        queue.len() < n,
{
    let qi = queue.map_values(|x: usize| x as int);
    assert(qi.no_duplicates()) by {
        assert forall|a: int, b: int| 0 <= a < qi.len() && 0 <= b < qi.len() && a != b implies qi[a] != qi[b] by {
            assert(qpos[queue[a] as int] == a);
            assert(qpos[queue[b] as int] == b);
        }
    }
    qi.unique_seq_to_set();
    let range = vstd::set_lib::set_int_range(0, n).remove(v);
    vstd::set_lib::lemma_int_range(0, n);
    assert(qi.to_set().subset_of(range)) by {
        assert forall|x: int| qi.to_set().contains(x) implies range.contains(x) by {
            let j = choose|j: int| 0 <= j < qi.len() && qi[j] == x;
            assert(queue[j] < n && queue[j] != v as usize);
        }
    }
    vstd::set_lib::lemma_len_subset(qi.to_set(), range);
}

/// With every queued node taken and the edges acyclic, every node was queued.
proof fn lemma_all_queued(edges: Seq<RawEdge>, n: int, enq: Seq<bool>, done: Seq<bool>, in_deg: Seq<usize>)
    requires
        acyclic(edges, n),
        edges_within(edges, n),
        enq.len() == n,
        done.len() == edges.len(),
        forall|i: int| 0 <= i < edges.len() ==> #[trigger] done[i] == enq[edges[i].from as int],
        forall|v: int| 0 <= v < n ==> #[trigger] in_deg[v] == undone_into(edges, done, v, edges.len() as int),
        forall|v: int| 0 <= v < n ==> #[trigger] enq[v] == (in_deg[v] == 0),
    ensures
        forall|x: int| 0 <= x < n ==> #[trigger] enq[x],
{
    let rank = choose|rank: Seq<int>| rank.len() == n && ranked_by(edges, rank);
    if exists|y: int| 0 <= y < n && !enq[y] {
        let bad = enq.map_values(|b: bool| !b);
        assert(exists|y: int| 0 <= y < n && bad[y]) by {
            let y = choose|y: int| 0 <= y < n && !enq[y];
            assert(bad[y]);
        }
        let x = lemma_max_rank(rank, bad, n);
        assert(!enq[x]);
        lemma_undone_zero(edges, done, x, edges.len() as int);
        let i = choose|i: int| 0 <= i < edges.len() && #[trigger] edges[i].to == x && !done[i];
        let y = edges[i].from as int;
        assert(edges[i].from < n);
        assert(bad[y]);
        assert(rank[y] > rank[x]);
    }
}

/// Longest-path layering by Kahn's algorithm: a node's layer is one below its
/// deepest predecessor, sources on layer 0. For acyclic edges every node is
/// reached and the layering is exact; nodes on a cycle are never reached.
pub fn assign_layers(n: usize, edges: &Vec<RawEdge>) -> (layer: Vec<usize>)
    requires
        edges_within(edges@, n as int),
    ensures
        layer@.len() == n,
        forall|y: int| 0 <= y < n ==> #[trigger] layer@[y] < n,
        acyclic(edges@, n as int) ==> longest_path_layers(edges@, layer@),
{
    let m = edges.len();
    let ghost es = edges@;
    let ghost none: Seq<bool> = Seq::new(m as nat, |i: int| false);
    let mut in_deg: Vec<usize> = Vec::new();
    let mut layer: Vec<usize> = Vec::new();
    let mut x: usize = 0;
    while x < n
        invariant
            x <= n,
            in_deg@.len() == x,
            layer@.len() == x,
            forall|y: int| 0 <= y < x ==> #[trigger] in_deg@[y] == 0,
            forall|y: int| 0 <= y < x ==> #[trigger] layer@[y] == 0,
        decreases n - x,
    {
        in_deg.push(0);
        layer.push(0);
        x += 1;
    }
    let mut i: usize = 0;
    while i < m
        invariant
            i <= m,
            m == es.len(),
            es == edges@,
            edges_within(es, n as int),
            none.len() == m,
            forall|k: int| 0 <= k < m ==> !none[k],
            in_deg@.len() == n,
            layer@.len() == n,
            forall|y: int| 0 <= y < n ==> #[trigger] layer@[y] == 0,
            forall|v: int| 0 <= v < n ==> #[trigger] in_deg@[v] == undone_into(es, none, v, i as int),
        decreases m - i,
    {
        let t = edges[i].to;
        proof {
            lemma_undone_bound(es, none, t as int, i as int);
            assert forall|v: int| 0 <= v < n implies undone_into(es, none, v, i + 1) == undone_into(es, none, v, i as int)
                + if es[i as int].to == v { 1nat } else { 0nat } by {}
        }
        in_deg.set(t, in_deg[t] + 1);
        i += 1;
    }
    let mut queue: Vec<usize> = Vec::new();
    let ghost mut qpos: Seq<int> = Seq::new(n as nat, |y: int| 0int);
    let ghost mut enq: Seq<bool> = Seq::new(n as nat, |y: int| false);
    let ghost mut done: Seq<bool> = none;
    let mut x: usize = 0;
    while x < n
        invariant
            x <= n,
            m == es.len(),
            es == edges@,
            edges_within(es, n as int),
            done.len() == m,
            forall|k: int| 0 <= k < m ==> !done[k],
            in_deg@.len() == n,
            layer@.len() == n,
            forall|y: int| 0 <= y < n ==> #[trigger] layer@[y] == 0,
            forall|v: int| 0 <= v < n ==> #[trigger] in_deg@[v] == undone_into(es, done, v, m as int),
            qpos.len() == n,
            enq.len() == n,
            queue@.len() <= x,
            forall|j: int| 0 <= j < queue@.len() ==> (#[trigger] queue@[j]) < x && enq[queue@[j] as int] && qpos[queue@[j] as int] == j,
            forall|y: int| 0 <= y < n && #[trigger] enq[y] ==> 0 <= qpos[y] < queue@.len() && queue@[qpos[y]] == y,
            forall|y: int| 0 <= y < n ==> #[trigger] enq[y] == (y < x && in_deg@[y] == 0),
        decreases n - x,
    {
        if in_deg[x] == 0 {
            proof {
                qpos = qpos.update(x as int, queue@.len() as int);
                enq = enq.update(x as int, true);
            }
            queue.push(x);
        }
        x += 1;
    }
    let mut head: usize = 0;
    proof {
        assert(layers_so_far(es, done, layer@));
    }
    while head < queue.len()
        invariant
            m == es.len(),
            es == edges@,
            kahn_ok(es, n as int, queue@, qpos, enq, done, in_deg@, layer@, head as int, 0, 0),
            forall|y: int| 0 <= y < n ==> #[trigger] layer@[y] <= head,
        decreases n - head,
    {
        let u = queue[head];
        let h = head;
        head += 1;
        proof {
            assert(enq[u as int] && qpos[u as int] == h);
            assert forall|k: int| 0 <= k < m implies #[trigger] done[k] == ((enq[es[k].from as int] && qpos[es[k].from as int] < h)
                || (es[k].from == u && k < 0)) by {}
        }
        let mut k: usize = 0;
        while k < m
            invariant
                m == es.len(),
                es == edges@,
                h < queue@.len(),
                queue@[h as int] == u,
                head == h + 1,
                kahn_ok(es, n as int, queue@, qpos, enq, done, in_deg@, layer@, h as int, u as int, k as int),
                layer@[u as int] <= h,
                k <= m,
            decreases m - k,
        {
            if edges[k].from == u {
                let v = edges[k].to;
                proof {
                    lemma_relax(es, n as int, queue@, qpos, enq, done, in_deg@, layer@, h as int, k as int);
                }
                let lu = layer[u];
                if lu + 1 > layer[v] {
                    layer.set(v, lu + 1);
                }
                let left = in_deg[v] - 1;
                in_deg.set(v, left);
                proof {
                    done = done.update(k as int, true);
                }
                if left == 0 {
                    proof {
                        qpos = qpos.update(v as int, queue@.len() as int);
                        enq = enq.update(v as int, true);
                    }
                    queue.push(v);
                }
            } else {
                proof {
                    assert forall|j: int| 0 <= j < m implies #[trigger] done[j] == ((enq[es[j].from as int] && qpos[es[j].from as int] < h)
                        || (es[j].from == u && j < k + 1)) by {
                        if j == k {
                        }
                    }
                }
            }
            k += 1;
        }
        proof {
            assert forall|j: int| 0 <= j < m implies #[trigger] done[j] == ((enq[es[j].from as int] && qpos[es[j].from as int] < head)
                || (es[j].from == 0 && j < 0)) by {
                assert(es[j].from < n);
                if es[j].from == u {
                    assert(qpos[u as int] == h);
                }
            }
        }
    }
    proof {
        if acyclic(es, n as int) {
            assert forall|j: int| 0 <= j < m implies #[trigger] done[j] == enq[es[j].from as int] by {
                assert(es[j].from < n);
            }
            lemma_all_queued(es, n as int, enq, done, in_deg@);
            assert forall|j: int| 0 <= j < m implies #[trigger] done[j] by {
                assert(es[j].from < n);
                assert(enq[es[j].from as int]);
            }
            assert forall|j: int| 0 <= j < es.len() implies layer@[(#[trigger] es[j]).to as int] >= layer@[es[j].from as int] + 1 by {
                assert(done[j]);
            }
        }
    }
    layer
}

/// A node of the layered drawing: a declared node, or a dummy that carries a
/// long edge through a layer.
pub struct NodeEntry {
    pub label: String,
    pub shape: Shape,
    pub dummy: bool,
}

/// How many layers the edge `e` descends (none if it does not descend).
pub open spec fn span(layers: Seq<usize>, e: RawEdge) -> int {
    if layers[e.to as int] > layers[e.from as int] {
        layers[e.to as int] - layers[e.from as int]
    } else {
        0
    }
}

/// The dummy nodes the edge `e` needs: one per layer it crosses.
pub open spec fn extra(layers: Seq<usize>, e: RawEdge) -> int {
    if span(layers, e) > 1 {
        span(layers, e) - 1
    } else {
        0
    }
}

/// The dummy nodes the first `i` edges need.
pub open spec fn dummies_before(edges: Seq<RawEdge>, layers: Seq<usize>, i: int) -> int
    decreases i,
{
    if i <= 0 {
        0
    } else {
        dummies_before(edges, layers, i - 1) + extra(layers, edges[i - 1])
    }
}

/// The `d`-th dummy node (from 1) of edge `i`, when dummies are numbered from
/// `base` in edge order.
pub open spec fn dummy_index(edges: Seq<RawEdge>, layers: Seq<usize>, base: int, i: int, d: int) -> int {
    base + dummies_before(edges, layers, i) + d - 1
}

/// The node chain that draws edge `i`: its source, one dummy per layer
/// crossed, and its target.
pub open spec fn chain_of(edges: Seq<RawEdge>, layers: Seq<usize>, base: int, i: int) -> Seq<usize> {
    let e = edges[i];
    let s = span(layers, e);
    if s <= 1 {
        seq![e.from, e.to]
    } else {
        Seq::new(
            (s + 1) as nat,
            |k: int|
                if k == 0 {
                    e.from
                } else if k == s {
                    e.to
                } else {
                    dummy_index(edges, layers, base, i, k) as usize
                },
        )
    }
}

/// The unit edge into the `d`-th dummy of edge `e`, from the one before it (or
/// from the source).
pub open spec fn dummy_hop(edges: Seq<RawEdge>, layers: Seq<usize>, base: int, i: int, d: int) -> RawEdge {
    RawEdge {
        from: if d == 1 {
            edges[i].from
        } else {
            dummy_index(edges, layers, base, i, d - 1) as usize
        },
        to: dummy_index(edges, layers, base, i, d) as usize,
        label: None,
        arrow: Arrow::Normal,
        reversed: false,
    }
}

/// The last hop of a long edge: from its last dummy to its target.
pub open spec fn last_hop(edges: Seq<RawEdge>, layers: Seq<usize>, base: int, i: int, e: RawEdge) -> RawEdge {
    RawEdge {
        from: dummy_index(edges, layers, base, i, span(layers, edges[i]) - 1) as usize,
        to: edges[i].to,
        label: e.label,
        arrow: e.arrow,
        reversed: e.reversed,
    }
}

/// A dummy entry: no label, a box, marked as dummy.
pub open spec fn is_dummy_entry(e: NodeEntry) -> bool {
    e.label@ == Seq::<char>::empty() && e.shape == Shape::Box && e.dummy
}

pub proof fn lemma_dummies_step(edges: Seq<RawEdge>, layers: Seq<usize>, i: int)
    requires
        0 <= i,
    ensures
        dummies_before(edges, layers, i + 1) == dummies_before(edges, layers, i) + extra(layers, edges[i]),
        dummies_before(edges, layers, i) >= 0,
    decreases i,
{
    if i > 0 {
        lemma_dummies_step(edges, layers, i - 1);
    }
}

proof fn lemma_dummies_mono(edges: Seq<RawEdge>, layers: Seq<usize>, i: int, j: int)
    requires
        0 <= i <= j,
    ensures
        dummies_before(edges, layers, i) <= dummies_before(edges, layers, j),
    decreases j - i,
{
    if i < j {
        lemma_dummies_mono(edges, layers, i, j - 1);
        lemma_dummies_step(edges, layers, j - 1);
    }
}

proof fn lemma_dummies_prefix(edges: Seq<RawEdge>, layers: Seq<usize>, i: int)
    requires
        0 <= i,
    ensures
        forall|j: int| 0 <= j <= i ==> #[trigger] dummies_before(edges, layers, j) >= 0,
        forall|j: int| 0 <= j < i ==> #[trigger] dummies_before(edges, layers, j) + extra(layers, edges[j])
            <= dummies_before(edges, layers, i),
{
    assert forall|j: int| 0 <= j <= i implies #[trigger] dummies_before(edges, layers, j) >= 0 by {
        lemma_dummies_step(edges, layers, j);
    }
    assert forall|j: int| 0 <= j < i implies #[trigger] dummies_before(edges, layers, j) + extra(layers, edges[j])
        <= dummies_before(edges, layers, i) by {
        lemma_dummies_step(edges, layers, j);
        lemma_dummies_mono(edges, layers, j + 1, i);
    }
}

/// What giving long edges dummy nodes does. With `es` the edges, `ls` the
/// layers of the first nodes, `ent0`, `efc0` the entries and unit edges before
/// and `ent`, `efc`, `lay` after: the dummies are appended as entries (their
/// layers appended too), one per layer crossed, in edge order; the unit hops
/// into them are appended to the unit edges, and a long edge's own unit edge
/// becomes its last hop; `chains` gives, per edge, the nodes that draw it.
#[verifier::opaque]
pub open spec fn dummies_placed(
    es: Seq<RawEdge>,
    ls: Seq<usize>,
    ent0: Seq<NodeEntry>,
    ent: Seq<NodeEntry>,
    efc0: Seq<RawEdge>,
    efc: Seq<RawEdge>,
    lay: Seq<usize>,
    chains: Seq<Seq<usize>>,
) -> bool {
    let m = es.len() as int;
    let base = ent0.len() as int;
    let nl = ls.len() as int;
    let ne = efc0.len() as int;
    let total = dummies_before(es, ls, m);
    &&& ent.len() == base + total
    &&& forall|k: int| 0 <= k < base ==> #[trigger] ent[k] == ent0[k]
    &&& forall|k: int| base <= k < base + total ==> is_dummy_entry(#[trigger] ent[k])
    &&& lay.len() == nl + total
    &&& forall|k: int| 0 <= k < nl ==> #[trigger] lay[k] == ls[k]
    &&& forall|i: int, d: int| 0 <= i < m && 1 <= d < span(ls, es[i]) ==>
        #[trigger] lay[dummy_index(es, ls, nl, i, d)] == ls[es[i].from as int] + d
    &&& chains.len() == m
    &&& forall|i: int| 0 <= i < m ==> #[trigger] chains[i] == chain_of(es, ls, base, i)
    &&& efc.len() == ne + total
    &&& forall|k: int| m <= k < ne ==> #[trigger] efc[k] == efc0[k]
    &&& forall|i: int| 0 <= i < m ==> #[trigger] efc[i] == if span(ls, es[i]) <= 1 {
        efc0[i]
    } else {
        last_hop(es, ls, base, i, efc0[i])
    }
    &&& forall|i: int, d: int| 0 <= i < m && 1 <= d < span(ls, es[i]) ==>
        #[trigger] efc[dummy_index(es, ls, ne, i, d)] == dummy_hop(es, ls, base, i, d)
}

/// Placing dummies keeps the entries and layers there were, and adds to them.
pub proof fn lemma_dummies_keep(
    es: Seq<RawEdge>,
    ls: Seq<usize>,
    ent0: Seq<NodeEntry>,
    ent: Seq<NodeEntry>,
    efc0: Seq<RawEdge>,
    efc: Seq<RawEdge>,
    lay: Seq<usize>,
    chains: Seq<Seq<usize>>,
)
    requires
        dummies_placed(es, ls, ent0, ent, efc0, efc, lay, chains),
    ensures
        ent.len() >= ent0.len(),
        lay.len() >= ls.len(),
        efc.len() >= efc0.len(),
        ent.subrange(0, ent0.len() as int) == ent0,
        lay.subrange(0, ls.len() as int) == ls,
        ent.len() - ent0.len() == lay.len() - ls.len(),
{
    reveal(dummies_placed);
    lemma_dummies_step(es, ls, es.len() as int);
    assert(ent.subrange(0, ent0.len() as int) =~= ent0);
    assert(lay.subrange(0, ls.len() as int) =~= ls);
}

/// Give every edge that descends more than one layer a dummy node on each layer
/// it crosses: dummies are appended to `entries` (with their layer appended to
/// `layers`), the unit hops into them are appended to `edges_for_crossings`, and
/// the edge's own entry there becomes the last hop. Returns, per edge of
/// `orig_edges`, the chain of nodes that draws it.
pub fn insert_dummies(
    entries: &mut Vec<NodeEntry>,
    edges_for_crossings: &mut Vec<RawEdge>,
    layers: &mut Vec<usize>,
    orig_edges: &Vec<RawEdge>,
) -> (chains: Vec<Vec<usize>>)
    requires
        edges_within(orig_edges@, old(layers)@.len() as int),
        old(edges_for_crossings)@.len() >= orig_edges@.len(),
    ensures
        dummies_placed(
            orig_edges@,
            old(layers)@,
            old(entries)@,
            final(entries)@,
            old(edges_for_crossings)@,
            final(edges_for_crossings)@,
            final(layers)@,
            chains@.map_values(|c: Vec<usize>| c@),
        ),
{
    let ghost es = orig_edges@;
    let ghost ls = layers@;
    let ghost ent0 = entries@;
    let ghost efc0 = edges_for_crossings@;
    let m = orig_edges.len();
    let base = entries.len();
    let nl = layers.len();
    let ne = edges_for_crossings.len();
    let mut chains: Vec<Vec<usize>> = Vec::new();
    let mut i: usize = 0;
    while i < m
        invariant
            i <= m,
            m == es.len(),
            es == orig_edges@,
            edges_within(es, nl as int),
            nl == ls.len(),
            base == ent0.len(),
            ne == efc0.len(),
            ne >= m,
            ({
                let t = dummies_before(es, ls, i as int);
                &&& entries@.len() == base + t
                &&& layers@.len() == nl + t
                &&& edges_for_crossings@.len() == ne + t
            }),
            forall|k: int| 0 <= k < base ==> #[trigger] entries@[k] == ent0[k],
            forall|k: int| base <= k < entries@.len() ==> is_dummy_entry(#[trigger] entries@[k]),
            forall|k: int| 0 <= k < nl ==> #[trigger] layers@[k] == ls[k],
            forall|j: int, d: int| 0 <= j < i && 1 <= d < span(ls, es[j]) ==>
                #[trigger] layers@[dummy_index(es, ls, nl as int, j, d)] == ls[es[j].from as int] + d,
            chains@.len() == i,
            forall|j: int| 0 <= j < i ==> (#[trigger] chains@[j])@ == chain_of(es, ls, base as int, j),
            forall|k: int| i <= k < ne ==> #[trigger] edges_for_crossings@[k] == efc0[k],
            forall|j: int| 0 <= j < i ==> #[trigger] edges_for_crossings@[j] == if span(ls, es[j]) <= 1 {
                efc0[j]
            } else {
                last_hop(es, ls, base as int, j, efc0[j])
            },
            forall|j: int, d: int| 0 <= j < i && 1 <= d < span(ls, es[j]) ==>
                #[trigger] edges_for_crossings@[dummy_index(es, ls, ne as int, j, d)] == dummy_hop(es, ls, base as int, j, d),
        decreases m - i,
    {
        proof {
            lemma_dummies_step(es, ls, i as int);
            lemma_dummies_prefix(es, ls, i as int);
        }
        let from = orig_edges[i].from;
        let to = orig_edges[i].to;
        let lf = layers[from];
        let lt = layers[to];
        let sp: usize = if lt > lf { lt - lf } else { 0 };
        if sp <= 1 {
            let mut c: Vec<usize> = Vec::new();
            c.push(from);
            c.push(to);
            proof {
                assert(c@ =~= chain_of(es, ls, base as int, i as int));
            }
            chains.push(c);
        } else {
            let mut prev = from;
            let mut c: Vec<usize> = Vec::new();
            c.push(from);
            let mut d: usize = 1;
            while d < sp
                invariant
                    1 <= d <= sp,
                    sp == span(ls, es[i as int]),
                    sp > 1,
                    i < m,
                    m == es.len(),
                    es == orig_edges@,
                    edges_within(es, nl as int),
                    nl == ls.len(),
                    base == ent0.len(),
                    ne == efc0.len(),
                    ne >= m,
                    from == es[i as int].from,
                    to == es[i as int].to,
                    lf == ls[from as int],
                    lt == ls[to as int],
                    forall|j: int| 0 <= j <= i ==> #[trigger] dummies_before(es, ls, j) >= 0,
                    forall|j: int| 0 <= j < i ==> #[trigger] dummies_before(es, ls, j) + extra(ls, es[j])
                        <= dummies_before(es, ls, i as int),
                    ({
                        let t = dummies_before(es, ls, i as int) + d - 1;
                        &&& entries@.len() == base + t
                        &&& layers@.len() == nl + t
                        &&& edges_for_crossings@.len() == ne + t
                    }),
                    prev == if d == 1 { from } else { dummy_index(es, ls, base as int, i as int, d as int - 1) as usize },
                    c@.len() == d,
                    forall|k: int| 0 <= k < d ==> #[trigger] c@[k] == chain_of(es, ls, base as int, i as int)[k],
                    forall|k: int| 0 <= k < base ==> #[trigger] entries@[k] == ent0[k],
                    forall|k: int| base <= k < entries@.len() ==> is_dummy_entry(#[trigger] entries@[k]),
                    forall|k: int| 0 <= k < nl ==> #[trigger] layers@[k] == ls[k],
                    forall|j: int, e: int| 0 <= j < i && 1 <= e < span(ls, es[j]) ==>
                        #[trigger] layers@[dummy_index(es, ls, nl as int, j, e)] == ls[es[j].from as int] + e,
                    forall|e: int| 1 <= e < d ==>
                        #[trigger] layers@[dummy_index(es, ls, nl as int, i as int, e)] == ls[from as int] + e,
                    chains@.len() == i,
                    forall|j: int| 0 <= j < i ==> (#[trigger] chains@[j])@ == chain_of(es, ls, base as int, j),
                    forall|k: int| i <= k < ne ==> #[trigger] edges_for_crossings@[k] == efc0[k],
                    forall|j: int| 0 <= j < i ==> #[trigger] edges_for_crossings@[j] == if span(ls, es[j]) <= 1 {
                        efc0[j]
                    } else {
                        last_hop(es, ls, base as int, j, efc0[j])
                    },
                    forall|j: int, e: int| 0 <= j < i && 1 <= e < span(ls, es[j]) ==>
                        #[trigger] edges_for_crossings@[dummy_index(es, ls, ne as int, j, e)] == dummy_hop(es, ls, base as int, j, e),
                    forall|e: int| 1 <= e < d ==>
                        #[trigger] edges_for_crossings@[dummy_index(es, ls, ne as int, i as int, e)] == dummy_hop(es, ls, base as int, i as int, e),
                decreases sp - d,
            {
                let dummy_idx = entries.len();
                entries.push(NodeEntry { label: String::new(), shape: Shape::Box, dummy: true });
                layers.push(lf + d);
                edges_for_crossings.push(RawEdge { from: prev, to: dummy_idx, label: None, arrow: Arrow::Normal, reversed: false });
                c.push(dummy_idx);
                prev = dummy_idx;
                d += 1;
            }
            c.push(to);
            proof {
                assert(c@ =~= chain_of(es, ls, base as int, i as int));
            }
            chains.push(c);
            let old_e = &edges_for_crossings[i];
            let e = RawEdge {
                from: prev,
                to: to,
                label: copy_label(&old_e.label),
                arrow: old_e.arrow,
                reversed: old_e.reversed,
            };
            edges_for_crossings.set(i, e);
        }
        i += 1;
    }
    proof {
        reveal(dummies_placed);
        let cv = chains@.map_values(|c: Vec<usize>| c@);
        assert forall|j: int| 0 <= j < m implies #[trigger] cv[j] == chain_of(es, ls, base as int, j) by {
            assert(chains@[j]@ == chain_of(es, ls, base as int, j));
        }
    }
    chains
}

/// Once long edges carry dummy nodes on a longest-path layering, every chain
/// descends exactly one layer per step: each edge is drawn by hops between
/// adjacent layers.
pub proof fn law_chains_descend_one_layer(
    es: Seq<RawEdge>,
    ls: Seq<usize>,
    ent0: Seq<NodeEntry>,
    ent: Seq<NodeEntry>,
    efc0: Seq<RawEdge>,
    efc: Seq<RawEdge>,
    lay: Seq<usize>,
    chains: Seq<Seq<usize>>,
)
    requires
        edges_within(es, ls.len() as int),
        ent0.len() == ls.len(),
        longest_path_layers(es, ls),
        dummies_placed(es, ls, ent0, ent, efc0, efc, lay, chains),
        lay.len() <= usize::MAX,
    ensures
        forall|i: int, j: int| 0 <= i < es.len() && 0 <= j < chains[i].len() - 1 ==>
            lay[#[trigger] chains[i][j + 1] as int] == lay[chains[i][j] as int] + 1,
{
    reveal(dummies_placed);
    let nl = ls.len() as int;
    lemma_dummies_step(es, ls, es.len() as int);
    lemma_dummies_prefix(es, ls, es.len() as int);
    assert forall|i: int, j: int| 0 <= i < es.len() && 0 <= j < chains[i].len() - 1 implies
        lay[#[trigger] chains[i][j + 1] as int] == lay[chains[i][j] as int] + 1 by {
        let e = es[i];
        let sp = span(ls, e);
        assert(e.from < nl && e.to < nl);
        assert(ls[e.to as int] >= ls[e.from as int] + 1);
        assert(lay[e.from as int] == ls[e.from as int]);
        assert(lay[e.to as int] == ls[e.to as int]);
        if sp <= 1 {
            assert(chains[i] == seq![e.from, e.to]);
            assert(j == 0);
        } else {
            let c = chain_of(es, ls, nl, i);
            assert(chains[i] == c);
            assert(c.len() == sp + 1);
            assert(dummies_before(es, ls, i) + sp - 1 <= dummies_before(es, ls, es.len() as int));
            if j >= 1 {
                assert(c[j] == dummy_index(es, ls, nl, i, j) as usize);
                assert(lay[dummy_index(es, ls, nl, i, j)] == ls[e.from as int] + j);
            } else {
                assert(c[j] == e.from);
            }
            if j + 1 < sp {
                assert(c[j + 1] == dummy_index(es, ls, nl, i, j + 1) as usize);
                assert(lay[dummy_index(es, ls, nl, i, j + 1)] == ls[e.from as int] + j + 1);
            } else {
                assert(c[j + 1] == e.to);
            }
        }
    }
}

proof fn lemma_dummy_cover(es: Seq<RawEdge>, ls: Seq<usize>, m: int, k: int) -> (id: (int, int))
    requires
        0 <= m <= es.len(),
        0 <= k < dummies_before(es, ls, m),
    ensures
        0 <= id.0 < m,
        1 <= id.1 < span(ls, es[id.0]),
        dummies_before(es, ls, id.0) + id.1 - 1 == k,
    decreases m,
{
    lemma_dummies_step(es, ls, m - 1);
    if k < dummies_before(es, ls, m - 1) {
        lemma_dummy_cover(es, ls, m - 1, k)
    } else {
        (m - 1, k - dummies_before(es, ls, m - 1) + 1)
    }
}

/// Every dummy lies on a layer above some node's: the layer of the target of
/// the edge it carries.
pub proof fn lemma_dummy_layers(
    es: Seq<RawEdge>,
    ls: Seq<usize>,
    ent0: Seq<NodeEntry>,
    ent: Seq<NodeEntry>,
    efc0: Seq<RawEdge>,
    efc: Seq<RawEdge>,
    lay: Seq<usize>,
    chains: Seq<Seq<usize>>,
)
    requires
        edges_within(es, ls.len() as int),
        dummies_placed(es, ls, ent0, ent, efc0, efc, lay, chains),
    ensures
        forall|k: int| ls.len() <= k < lay.len() ==> exists|j: int| 0 <= j < ls.len() && #[trigger] lay[k] < ls[j],
{
    reveal(dummies_placed);
    let nl = ls.len() as int;
    assert forall|k: int| nl <= k < lay.len() implies exists|j: int| 0 <= j < ls.len() && #[trigger] lay[k] < ls[j] by {
        let (i, d) = lemma_dummy_cover(es, ls, es.len() as int, k - nl);
        assert(dummy_index(es, ls, nl, i, d) == k);
        let t = es[i].to as int;
        assert(lay[k] == ls[es[i].from as int] + d);
        assert(lay[k] < ls[t]);
    }
}

} // verus!
