//! Ordering the nodes within each layer by barycentres, to reduce edge
//! crossings: sweeps alternate downward (a node is pulled towards its sources)
//! and upward (towards its targets), and each layer is sorted by the mean
//! position of the nodes that pull it, ties going to the lower node index.
use vstd::prelude::*;
use vstd::relations::{sorted_by, total_ordering};
use crate::layout::RawEdge;

verus! {

/// In a sweep, edge `e` pulls node `n` when both its ends lie below `top`
/// and it enters `n` (downward sweep) or leaves it (upward sweep).
pub open spec fn pulls(e: RawEdge, n: int, top: int, down: bool) -> bool {
    &&& e.from < top
    &&& e.to < top
    &&& if down { e.to == n } else { e.from == n }
}

/// The node at the far end of a pulling edge.
pub open spec fn far_end(e: RawEdge, down: bool) -> int {
    if down { e.from as int } else { e.to as int }
}

/// How many of the first `k` edges pull `n`.
pub open spec fn pull_count(edges: Seq<RawEdge>, n: int, top: int, down: bool, k: int) -> int
    decreases k,
{
    if k <= 0 {
        0
    } else {
        pull_count(edges, n, top, down, k - 1) + if pulls(edges[k - 1], n, top, down) { 1int } else { 0int }
    }
}

/// The positions of the far ends of the first `k` edges that pull `n`, summed.
pub open spec fn pull_sum(edges: Seq<RawEdge>, pos: Seq<usize>, n: int, top: int, down: bool, k: int) -> int
    decreases k,
{
    if k <= 0 {
        0
    } else {
        pull_sum(edges, pos, n, top, down, k - 1) + if pulls(edges[k - 1], n, top, down) {
            pos[far_end(edges[k - 1], down)] as int
        } else {
            0int
        }
    }
}

/// The barycentre of `n` as a fraction (sum, count): the mean position of the
/// nodes that pull it, or its own position when none does.
pub open spec fn barycentre(edges: Seq<RawEdge>, pos: Seq<usize>, n: int, top: int, down: bool) -> (int, int) {
    let c = pull_count(edges, n, top, down, edges.len() as int);
    if c == 0 {
        (pos[n] as int, 1)
    } else {
        (pull_sum(edges, pos, n, top, down, edges.len() as int), c)
    }
}

/// `a` goes no later than `b`: a smaller barycentre, or an equal one and an
/// index no larger.
pub open spec fn goes_before(edges: Seq<RawEdge>, pos: Seq<usize>, top: int, down: bool, a: usize, b: usize) -> bool {
    let (sa, ca) = barycentre(edges, pos, a as int, top, down);
    let (sb, cb) = barycentre(edges, pos, b as int, top, down);
    sa * cb < sb * ca || (sa * cb == sb * ca && a <= b)
}

/// Each node of `t` gets its index in `t` as its position, in order, so a
/// later occurrence wins.
pub open spec fn write_ranks(pos: Seq<usize>, t: Seq<usize>) -> Seq<usize>
    decreases t.len(),
{
    if t.len() == 0 {
        pos
    } else {
        write_ranks(pos, t.drop_last()).update(t.last() as int, (t.len() - 1) as usize)
    }
}

/// The positions before the first sweep: each node's index in its layer,
/// layers taken in order, starting from all zero.
pub open spec fn initial_ranks(layers: Seq<Seq<usize>>, top: int) -> Seq<usize>
    decreases layers.len(),
{
    if layers.len() == 0 {
        Seq::new(top as nat, |i: int| 0usize)
    } else {
        write_ranks(initial_ranks(layers.drop_last(), top), layers.last())
    }
}

/// One more than the largest node of a layer (zero for an empty layer).
pub open spec fn layer_top(t: Seq<usize>) -> int
    decreases t.len(),
{
    if t.len() == 0 {
        0
    } else {
        let r = layer_top(t.drop_last());
        if t.last() + 1 > r { t.last() + 1 } else { r }
    }
}

/// One more than the largest node of any layer (zero if there is none).
pub open spec fn layers_top(layers: Seq<Seq<usize>>) -> int
    decreases layers.len(),
{
    if layers.len() == 0 {
        0
    } else {
        let r = layers_top(layers.drop_last());
        let t = layer_top(layers.last());
        if t > r { t } else { r }
    }
}

/// The layers sorted in pass `p` over `w + 1` layers: a downward pass takes
/// layers 1 to `w` in order, an upward pass layers `w - 1` down to 0.
pub open spec fn sweep_order(p: int, w: int) -> Seq<(int, bool)> {
    if p % 2 == 0 {
        Seq::new(w as nat, |j: int| (1 + j, true))
    } else {
        Seq::new(w as nat, |j: int| (w - 1 - j, false))
    }
}

/// The layer steps of the first `passes` passes.
pub open spec fn schedule(passes: int, w: int) -> Seq<(int, bool)>
    decreases passes,
{
    if passes <= 0 {
        Seq::empty()
    } else {
        schedule(passes - 1, w) + sweep_order(passes - 1, w)
    }
}

/// The layers as sequences.
pub open spec fn layers_view(v: Seq<Vec<usize>>) -> Seq<Seq<usize>> {
    v.map_values(|t: Vec<usize>| t@)
}

/// Comparing two fractions by whole parts, then by cross-multiplied remainders,
/// agrees with comparing them by cross-multiplying.
proof fn lemma_compare_split(s1: int, c1: int, q1: int, r1: int, s2: int, c2: int, q2: int, r2: int)
    requires
        c1 > 0,
        c2 > 0,
        0 <= r1 < c1,
        0 <= r2 < c2,
        s1 == q1 * c1 + r1,
        s2 == q2 * c2 + r2,
    ensures
        (s1 * c2 < s2 * c1) == (q1 < q2 || (q1 == q2 && r1 * c2 < r2 * c1)),
        (s1 * c2 == s2 * c1) == (q1 == q2 && r1 * c2 == r2 * c1),
{
    let p = c1 * c2;
    assert(s1 * c2 == q1 * p + r1 * c2) by (nonlinear_arith)
        requires s1 == q1 * c1 + r1, p == c1 * c2;
    assert(s2 * c1 == q2 * p + r2 * c1) by (nonlinear_arith)
        requires s2 == q2 * c2 + r2, p == c1 * c2;
    assert(0 <= r1 * c2 < p) by (nonlinear_arith)
        requires 0 <= r1 < c1, c2 > 0, p == c1 * c2;
    assert(0 <= r2 * c1 < p) by (nonlinear_arith)
        requires 0 <= r2 < c2, c1 > 0, p == c1 * c2;
    if q1 < q2 {
        assert(q1 * p + p <= q2 * p) by (nonlinear_arith)
            requires q1 < q2, p > 0;
    } else if q1 > q2 {
        assert(q2 * p + p <= q1 * p) by (nonlinear_arith)
            requires q1 > q2, p > 0;
    }
}

/// Fraction order with index tie-break is transitive.
proof fn lemma_before_trans(s1: int, c1: int, n1: int, s2: int, c2: int, n2: int, s3: int, c3: int, n3: int)
    requires
        c1 > 0,
        c2 > 0,
        c3 > 0,
        s1 * c2 < s2 * c1 || (s1 * c2 == s2 * c1 && n1 <= n2),
        s2 * c3 < s3 * c2 || (s2 * c3 == s3 * c2 && n2 <= n3),
    ensures
        s1 * c3 < s3 * c1 || (s1 * c3 == s3 * c1 && n1 <= n3),
{
    let a = s2 * c1 - s1 * c2;
    let b = s3 * c2 - s2 * c3;
    assert(c2 * (s3 * c1 - s1 * c3) == c3 * a + c1 * b) by (nonlinear_arith)
        requires a == s2 * c1 - s1 * c2, b == s3 * c2 - s2 * c3;
    assert(c3 * a >= 0 && c1 * b >= 0) by (nonlinear_arith)
        requires a >= 0, b >= 0, c1 > 0, c3 > 0;
    if a > 0 || b > 0 {
        assert(c3 * a + c1 * b > 0) by (nonlinear_arith)
            requires a >= 0, b >= 0, a > 0 || b > 0, c1 > 0, c3 > 0;
        assert(s3 * c1 - s1 * c3 > 0) by (nonlinear_arith)
            requires c2 * (s3 * c1 - s1 * c3) > 0, c2 > 0;
    } else {
        assert(c3 * a + c1 * b == 0) by (nonlinear_arith)
            requires a == 0, b == 0;
        assert(s3 * c1 - s1 * c3 == 0) by (nonlinear_arith)
            requires c2 * (s3 * c1 - s1 * c3) == 0, c2 > 0;
    }
}

/// The barycentre order as a relation.
pub open spec fn bary_leq(edges: Seq<RawEdge>, pos: Seq<usize>, top: int, down: bool) -> spec_fn(usize, usize) -> bool {
    |a: usize, b: usize| goes_before(edges, pos, top, down, a, b)
}

/// Sorting layer `l` in a sweep: the layer is put in barycentre order (by the
/// positions before the step), and its nodes take their new indices as
/// positions.
pub open spec fn sweep_layer(
    st: (Seq<Seq<usize>>, Seq<usize>),
    l: int,
    down: bool,
    edges: Seq<RawEdge>,
    top: int,
) -> (Seq<Seq<usize>>, Seq<usize>) {
    let t = st.0[l].sort_by(bary_leq(edges, st.1, top, down));
    (st.0.update(l, t), write_ranks(st.1, t))
}

/// The layers and positions after the steps of `sched`, in order.
pub open spec fn run_sweeps(
    st: (Seq<Seq<usize>>, Seq<usize>),
    sched: Seq<(int, bool)>,
    edges: Seq<RawEdge>,
    top: int,
) -> (Seq<Seq<usize>>, Seq<usize>)
    decreases sched.len(),
{
    if sched.len() == 0 {
        st
    } else {
        let prev = run_sweeps(st, sched.drop_last(), edges, top);
        sweep_layer(prev, sched.last().0, sched.last().1, edges, top)
    }
}

/// The number of layers after the first, and so of steps in one pass.
pub open spec fn steps_per_pass(layer_count: int) -> int {
    if layer_count >= 1 { layer_count - 1 } else { 0 }
}

/// The layers after `passes` alternating sweeps (none if no layer holds a node).
pub open spec fn crossing_order(layers: Seq<Seq<usize>>, edges: Seq<RawEdge>, passes: int) -> Seq<Seq<usize>> {
    let top = layers_top(layers);
    if top == 0 {
        layers
    } else {
        let start = (layers, initial_ranks(layers, top));
        run_sweeps(start, schedule(passes, steps_per_pass(layers.len() as int)), edges, top).0
    }
}

proof fn lemma_pull_count_nonneg(edges: Seq<RawEdge>, n: int, top: int, down: bool, k: int)
    ensures
        0 <= pull_count(edges, n, top, down, k),
    decreases k,
{
    if k > 0 {
        lemma_pull_count_nonneg(edges, n, top, down, k - 1);
    }
}

proof fn lemma_bary_count_pos(edges: Seq<RawEdge>, pos: Seq<usize>, n: int, top: int, down: bool)
    ensures
        barycentre(edges, pos, n, top, down).1 > 0,
{
    lemma_pull_count_nonneg(edges, n, top, down, edges.len() as int);
}

/// The barycentre order is a total order on node indices.
proof fn lemma_bary_total(edges: Seq<RawEdge>, pos: Seq<usize>, top: int, down: bool)
    ensures
        total_ordering(bary_leq(edges, pos, top, down)),
{
    let r = bary_leq(edges, pos, top, down);
    assert forall|x: usize, y: usize, z: usize| #[trigger] r(x, y) && #[trigger] r(y, z) implies r(x, z) by {
        let bx = barycentre(edges, pos, x as int, top, down);
        let by = barycentre(edges, pos, y as int, top, down);
        let bz = barycentre(edges, pos, z as int, top, down);
        lemma_bary_count_pos(edges, pos, x as int, top, down);
        lemma_bary_count_pos(edges, pos, y as int, top, down);
        lemma_bary_count_pos(edges, pos, z as int, top, down);
        lemma_before_trans(bx.0, bx.1, x as int, by.0, by.1, y as int, bz.0, bz.1, z as int);
    }
}

/// `k` holds the barycentre `b` as whole part, remainder and count.
pub open spec fn key_of(k: (u128, u128, u128), b: (int, int)) -> bool {
    &&& k.2 == b.1
    &&& k.0 * k.2 + k.1 == b.0
    &&& k.1 < k.2
    &&& k.2 <= usize::MAX
}

/// The barycentre of `n`, as whole part, remainder and count.
fn pull_key(n: usize, pos: &Vec<usize>, edges: &Vec<RawEdge>, top: usize, down: bool) -> (k: (u128, u128, u128))
    requires
        n < top,
        pos@.len() == top,
    ensures
        key_of(k, barycentre(edges@, pos@, n as int, top as int, down)),
{
    let m = edges.len();
    let mut sum: u128 = 0;
    let mut cnt: usize = 0;
    let mut k: usize = 0;
    while k < m
        invariant
            k <= m,
            m == edges@.len(),
            n < top,
            pos@.len() == top,
            cnt <= k,
            cnt == pull_count(edges@, n as int, top as int, down, k as int),
            sum == pull_sum(edges@, pos@, n as int, top as int, down, k as int),
            sum <= cnt * 0x1_0000_0000_0000_0000,
        decreases m - k,
    {
        let e = &edges[k];
        let hit = if down { e.to == n } else { e.from == n };
        if e.from < top && e.to < top && hit {
            let far = if down { e.from } else { e.to };
            sum = sum + pos[far] as u128;
            cnt = cnt + 1;
        }
        k += 1;
    }
    if cnt == 0 {
        (pos[n] as u128, 0, 1)
    } else {
        let c = cnt as u128;
        let q = sum / c;
        let r = sum % c;
        proof {
            vstd::arithmetic::div_mod::lemma_fundamental_div_mod(sum as int, c as int);
            vstd::arithmetic::div_mod::lemma_mod_bound(sum as int, c as int);
            vstd::arithmetic::mul::lemma_mul_is_commutative(c as int, q as int);
        }
        (q, r, c)
    }
}

/// Whether a node with barycentre key `a` and index `na` goes no later than one
/// with key `b` and index `nb`.
fn key_le(a: (u128, u128, u128), na: usize, b: (u128, u128, u128), nb: usize) -> (r: bool)
    requires
        a.1 < a.2 <= usize::MAX,
        b.1 < b.2 <= usize::MAX,
    ensures
        r == (a.0 < b.0 || (a.0 == b.0 && (a.1 * b.2 < b.1 * a.2 || (a.1 * b.2 == b.1 * a.2 && na <= nb)))),
{
    if a.0 != b.0 {
        return a.0 < b.0;
    }
    proof {
        assert(a.1 * b.2 < 0x1_0000_0000_0000_0000_0000_0000_0000_0000) by (nonlinear_arith)
            requires a.1 < usize::MAX, b.2 <= usize::MAX, usize::MAX < 0x1_0000_0000_0000_0000;
        assert(b.1 * a.2 < 0x1_0000_0000_0000_0000_0000_0000_0000_0000) by (nonlinear_arith)
            requires b.1 < usize::MAX, a.2 <= usize::MAX, usize::MAX < 0x1_0000_0000_0000_0000;
    }
    let x = a.1 * b.2;
    let y = b.1 * a.2;
    x < y || (x == y && na <= nb)
}

proof fn lemma_key_order(
    ka: (u128, u128, u128),
    na: usize,
    kb: (u128, u128, u128),
    nb: usize,
    edges: Seq<RawEdge>,
    pos: Seq<usize>,
    top: int,
    down: bool,
)
    requires
        key_of(ka, barycentre(edges, pos, na as int, top, down)),
        key_of(kb, barycentre(edges, pos, nb as int, top, down)),
    ensures
        (ka.0 < kb.0 || (ka.0 == kb.0 && (ka.1 * kb.2 < kb.1 * ka.2 || (ka.1 * kb.2 == kb.1 * ka.2 && na <= nb))))
            == goes_before(edges, pos, top, down, na, nb),
{
    let ba = barycentre(edges, pos, na as int, top, down);
    let bb = barycentre(edges, pos, nb as int, top, down);
    lemma_compare_split(ba.0, ba.1, ka.0 as int, ka.1 as int, bb.0, bb.1, kb.0 as int, kb.1 as int);
}

proof fn lemma_swap_multiset(s: Seq<usize>, i: int, j: int)
    requires
        0 <= i < s.len(),
        0 <= j < s.len(),
    ensures
        s.update(i, s[j]).update(j, s[i]).to_multiset() =~= s.to_multiset(),
{
    broadcast use vstd::seq_lib::group_to_multiset_ensures;
    broadcast use vstd::multiset::group_multiset_axioms;

    let s1 = s.update(i, s[j]);
    assert(s1.to_multiset() == s.to_multiset().insert(s[j]).remove(s[i]));
    assert(s1.update(j, s[i]).to_multiset() == s1.to_multiset().insert(s[i]).remove(s1[j]));
    if i == j {
        assert(s.update(i, s[j]).update(j, s[i]) =~= s);
    } else {
        assert(s1[j] == s[j]);
    }
}

/// The nodes of `layer` in barycentre order, by the positions `pos`.
fn order_layer(layer: &Vec<usize>, pos: &Vec<usize>, edges: &Vec<RawEdge>, top: usize, down: bool) -> (t: Vec<usize>)
    requires
        forall|i: int| 0 <= i < layer@.len() ==> #[trigger] layer@[i] < top,
        pos@.len() == top,
    ensures
        t@ == layer@.sort_by(bary_leq(edges@, pos@, top as int, down)),
        forall|i: int| 0 <= i < t@.len() ==> #[trigger] t@[i] < top,
{
    let ghost leq = bary_leq(edges@, pos@, top as int, down);
    let n = layer.len();
    let mut t: Vec<usize> = Vec::new();
    let mut keys: Vec<(u128, u128, u128)> = Vec::new();
    let mut i: usize = 0;
    while i < n
        invariant
            i <= n,
            n == layer@.len(),
            pos@.len() == top,
            forall|k: int| 0 <= k < n ==> #[trigger] layer@[k] < top,
            t@ == layer@.subrange(0, i as int),
            keys@.len() == i,
            forall|k: int| 0 <= k < i ==> key_of(#[trigger] keys@[k], barycentre(edges@, pos@, t@[k] as int, top as int, down)),
        decreases n - i,
    {
        let x = layer[i];
        let k = pull_key(x, pos, edges, top, down);
        t.push(x);
        keys.push(k);
        i += 1;
    }
    proof {
        assert(t@ =~= layer@);
        lemma_bary_total(edges@, pos@, top as int, down);
    }
    let mut i: usize = 1;
    while i < n
        invariant
            n == layer@.len(),
            t@.len() == n,
            keys@.len() == n,
            t@.to_multiset() == layer@.to_multiset(),
            forall|k: int| 0 <= k < n ==> #[trigger] t@[k] < top,
            forall|k: int| 0 <= k < n ==> key_of(#[trigger] keys@[k], barycentre(edges@, pos@, t@[k] as int, top as int, down)),
            total_ordering(leq),
            leq == bary_leq(edges@, pos@, top as int, down),
            forall|a: int, b: int| 0 <= a < b < i && b < n ==> #[trigger] leq(t@[a], t@[b]),
        decreases n - i,
    {
        let mut j: usize = i;
        while j > 0 && !key_le(keys[j - 1], t[j - 1], keys[j], t[j])
            invariant
                0 <= j <= i < n,
                n == layer@.len(),
                t@.len() == n,
                keys@.len() == n,
                t@.to_multiset() == layer@.to_multiset(),
                forall|k: int| 0 <= k < n ==> #[trigger] t@[k] < top,
                forall|k: int| 0 <= k < n ==> key_of(#[trigger] keys@[k], barycentre(edges@, pos@, t@[k] as int, top as int, down)),
                total_ordering(leq),
                leq == bary_leq(edges@, pos@, top as int, down),
                forall|a: int, b: int| 0 <= a < b < j ==> #[trigger] leq(t@[a], t@[b]),
                forall|a: int, b: int| j < a < b <= i ==> #[trigger] leq(t@[a], t@[b]),
                forall|a: int, b: int| 0 <= a < j && j < b <= i ==> #[trigger] leq(t@[a], t@[b]),
                forall|b: int| j < b <= i ==> #[trigger] leq(t@[j as int], t@[b]),
            decreases j,
        {
            proof {
                lemma_key_order(keys@[j - 1], t@[j - 1], keys@[j as int], t@[j as int], edges@, pos@, top as int, down);
                lemma_swap_multiset(t@, j - 1, j as int);
            }
            let a = t[j - 1];
            let b = t[j];
            let ka = keys[j - 1];
            let kb = keys[j];
            t.set(j - 1, b);
            t.set(j, a);
            keys.set(j - 1, kb);
            keys.set(j, ka);
            j -= 1;
        }
        proof {
            if j > 0 {
                lemma_key_order(keys@[j - 1], t@[j - 1], keys@[j as int], t@[j as int], edges@, pos@, top as int, down);
                assert(leq(t@[j - 1], t@[j as int]));
            }
            assert forall|a: int, b: int| 0 <= a < b < i + 1 && b < n implies #[trigger] leq(t@[a], t@[b]) by {
                if b == j && a < j - 1 {
                    assert(leq(t@[a], t@[j - 1]));
                }
            }
        }
        i += 1;
    }
    proof {
        assert(sorted_by(t@, leq)) by {
            assert forall|a: int, b: int| 0 <= a < b < t@.len() implies #[trigger] leq(t@[a], t@[b]) by {
                if n > 0 {
                    assert(b < n);
                }
            }
        }
        layer@.lemma_sort_by_ensures(leq);
        vstd::seq_lib::lemma_sorted_unique(t@, layer@.sort_by(leq), leq);
    }
    t
}

/// Give each node of `t` its index in `t` as its position.
fn write_ranks_into(pos: &mut Vec<usize>, t: &Vec<usize>)
    requires
        forall|i: int| 0 <= i < t@.len() ==> #[trigger] t@[i] < old(pos)@.len(),
    ensures
        final(pos)@ == write_ranks(old(pos)@, t@),
        final(pos)@.len() == old(pos)@.len(),
{
    let ghost p0 = pos@;
    let n = t.len();
    let mut r: usize = 0;
    while r < n
        invariant
            r <= n,
            n == t@.len(),
            pos@.len() == p0.len(),
            forall|i: int| 0 <= i < n ==> #[trigger] t@[i] < p0.len(),
            pos@ == write_ranks(p0, t@.subrange(0, r as int)),
        decreases n - r,
    {
        proof {
            let next = t@.subrange(0, r + 1);
            assert(next.drop_last() =~= t@.subrange(0, r as int));
        }
        pos.set(t[r], r);
        r += 1;
    }
    proof {
        assert(t@.subrange(0, n as int) =~= t@);
    }
}

pub proof fn lemma_layer_top_bound(t: Seq<usize>)
    ensures
        forall|i: int| 0 <= i < t.len() ==> #[trigger] t[i] < layer_top(t),
        0 <= layer_top(t),
    decreases t.len(),
{
    if t.len() > 0 {
        lemma_layer_top_bound(t.drop_last());
        assert forall|i: int| 0 <= i < t.len() implies #[trigger] t[i] < layer_top(t) by {
            if i < t.len() - 1 {
                assert(t.drop_last()[i] == t[i]);
            }
        }
    }
}

proof fn lemma_layers_top_bound(layers: Seq<Seq<usize>>)
    ensures
        forall|l: int, i: int| 0 <= l < layers.len() && 0 <= i < layers[l].len() ==> #[trigger] layers[l][i] < layers_top(layers),
        0 <= layers_top(layers),
    decreases layers.len(),
{
    if layers.len() > 0 {
        lemma_layers_top_bound(layers.drop_last());
        lemma_layer_top_bound(layers.last());
        assert forall|l: int, i: int| 0 <= l < layers.len() && 0 <= i < layers[l].len() implies #[trigger] layers[l][i]
            < layers_top(layers) by {
            if l < layers.len() - 1 {
                assert(layers.drop_last()[l] == layers[l]);
            }
        }
    }
}

/// One more than the largest node of any layer.
fn top_of(layers: &Vec<Vec<usize>>) -> (top: usize)
    requires
        forall|l: int, i: int| 0 <= l < layers@.len() && 0 <= i < layers@[l]@.len() ==> #[trigger] layers@[l]@[i] < usize::MAX,
    ensures
        top == layers_top(layers_view(layers@)),
{
    let ghost lv = layers_view(layers@);
    let nl = layers.len();
    let mut top: usize = 0;
    let mut l: usize = 0;
    while l < nl
        invariant
            l <= nl,
            nl == layers@.len(),
            lv == layers_view(layers@),
            forall|a: int, i: int| 0 <= a < layers@.len() && 0 <= i < layers@[a]@.len() ==> #[trigger] layers@[a]@[i] < usize::MAX,
            top == layers_top(lv.subrange(0, l as int)),
        decreases nl - l,
    {
        let t = &layers[l];
        let n = t.len();
        let mut lt: usize = 0;
        let mut i: usize = 0;
        while i < n
            invariant
                i <= n,
                l < nl,
                nl == layers@.len(),
                *t == layers@[l as int],
                n == t@.len(),
                forall|a: int, k: int| 0 <= a < layers@.len() && 0 <= k < layers@[a]@.len() ==> #[trigger] layers@[a]@[k] < usize::MAX,
                lt == layer_top(t@.subrange(0, i as int)),
            decreases n - i,
        {
            proof {
                assert(t@.subrange(0, i + 1).drop_last() =~= t@.subrange(0, i as int));
                assert(layers@[l as int]@[i as int] < usize::MAX);
            }
            if t[i] + 1 > lt {
                lt = t[i] + 1;
            }
            i += 1;
        }
        proof {
            assert(t@.subrange(0, n as int) =~= t@);
            assert(lv.subrange(0, l + 1).drop_last() =~= lv.subrange(0, l as int));
            assert(lv[l as int] == t@);
        }
        if lt > top {
            top = lt;
        }
        l += 1;
    }
    proof {
        assert(lv.subrange(0, nl as int) =~= lv);
    }
    top
}

/// Reorder the nodes within each layer to reduce crossings: `passes`
/// alternating sweeps (downward first), each sorting every layer but the first
/// (downward) or last (upward) by barycentre, ties to the lower node index.
/// Positions start as each node's index in its layer and follow each sort.
pub fn minimize_crossings(layer_nodes: &mut Vec<Vec<usize>>, edges: &Vec<RawEdge>, passes: usize)
    requires
        forall|l: int, i: int| 0 <= l < old(layer_nodes)@.len() && 0 <= i < old(layer_nodes)@[l]@.len() ==>
            #[trigger] old(layer_nodes)@[l]@[i] < usize::MAX,
    ensures
        layers_view(final(layer_nodes)@) == crossing_order(layers_view(old(layer_nodes)@), edges@, passes as int),
{
    let ghost lv0 = layers_view(layer_nodes@);
    let num_layers = layer_nodes.len();
    let top = top_of(layer_nodes);
    if top == 0 {
        return;
    }
    proof {
        lemma_layers_top_bound(lv0);
    }
    let mut pos: Vec<usize> = Vec::new();
    let mut x: usize = 0;
    while x < top
        invariant
            x <= top,
            pos@ == Seq::new(x as nat, |i: int| 0usize),
        decreases top - x,
    {
        pos.push(0);
        proof {
            assert(pos@ =~= Seq::new((x + 1) as nat, |i: int| 0usize));
        }
        x += 1;
    }
    let mut l: usize = 0;
    while l < num_layers
        invariant
            l <= num_layers,
            num_layers == layer_nodes@.len(),
            lv0 == layers_view(layer_nodes@),
            top == layers_top(lv0),
            forall|a: int, i: int| 0 <= a < lv0.len() && 0 <= i < lv0[a].len() ==> #[trigger] lv0[a][i] < top,
            pos@ == initial_ranks(lv0.subrange(0, l as int), top as int),
            pos@.len() == top,
        decreases num_layers - l,
    {
        proof {
            assert(lv0.subrange(0, l + 1).drop_last() =~= lv0.subrange(0, l as int));
            assert(lv0[l as int] == layer_nodes@[l as int]@);
            assert forall|i: int| 0 <= i < layer_nodes@[l as int]@.len() implies #[trigger] layer_nodes@[l as int]@[i] < pos@.len() by {
                assert(lv0[l as int][i] < top);
            }
        }
        write_ranks_into(&mut pos, &layer_nodes[l]);
        l += 1;
    }
    proof {
        assert(lv0.subrange(0, num_layers as int) =~= lv0);
        assert forall|a: int, i: int| 0 <= a < layer_nodes@.len() && 0 <= i < layer_nodes@[a]@.len() implies
            #[trigger] layer_nodes@[a]@[i] < top by {
            assert(lv0[a][i] == layer_nodes@[a]@[i]);
        }
    }
    let w: usize = num_layers - 1;
    let ghost start = (lv0, initial_ranks(lv0, top as int));
    let mut pass: usize = 0;
    while pass < passes
        invariant
            pass <= passes,
            num_layers == layer_nodes@.len(),
            num_layers >= 1,
            w == num_layers - 1,
            w == steps_per_pass(lv0.len() as int),
            lv0.len() == num_layers,
            pos@.len() == top,
            forall|a: int, i: int| 0 <= a < layer_nodes@.len() && 0 <= i < layer_nodes@[a]@.len() ==> #[trigger] layer_nodes@[a]@[i] < top,
            (layers_view(layer_nodes@), pos@) == run_sweeps(start, schedule(pass as int, w as int), edges@, top as int),
        decreases passes - pass,
    {
        let down = pass % 2 == 0;
        let ghost sched = schedule(pass as int, w as int);
        let ghost order = sweep_order(pass as int, w as int);
        let mut j: usize = 0;
        while j < w
            invariant
                j <= w,
                num_layers == layer_nodes@.len(),
                w == num_layers - 1,
                pos@.len() == top,
                down == (pass % 2 == 0),
                order == sweep_order(pass as int, w as int),
                order.len() == w,
                forall|a: int, i: int| 0 <= a < layer_nodes@.len() && 0 <= i < layer_nodes@[a]@.len() ==> #[trigger] layer_nodes@[a]@[i] < top,
                (layers_view(layer_nodes@), pos@) == run_sweeps(start, sched + order.subrange(0, j as int), edges@, top as int),
            decreases w - j,
        {
            let l = if down { 1 + j } else { w - 1 - j };
            proof {
                let done = sched + order.subrange(0, j as int);
                let next = sched + order.subrange(0, j + 1);
                assert(next.drop_last() =~= done);
                assert(next.last() == (l as int, down));
                assert forall|i: int| 0 <= i < layer_nodes@[l as int]@.len() implies #[trigger] layer_nodes@[l as int]@[i] < top by {}
            }
            let t = order_layer(&layer_nodes[l], &pos, edges, top, down);
            write_ranks_into(&mut pos, &t);
            let ghost before = layer_nodes@;
            layer_nodes.set(l, t);
            proof {
                assert(layers_view(layer_nodes@) =~= layers_view(before).update(l as int, t@));
            }
            j += 1;
        }
        proof {
            assert(order.subrange(0, w as int) =~= order);
            assert(schedule(pass + 1, w as int) == sched + order);
        }
        pass += 1;
    }
}

proof fn lemma_schedule_in_range(passes: int, w: int)
    requires
        w >= 0,
    ensures
        forall|k: int| 0 <= k < schedule(passes, w).len() ==> 0 <= (#[trigger] schedule(passes, w)[k]).0 <= w,
    decreases passes,
{
    if passes > 0 {
        lemma_schedule_in_range(passes - 1, w);
        let a = schedule(passes - 1, w);
        let b = sweep_order(passes - 1, w);
        assert forall|k: int| 0 <= k < schedule(passes, w).len() implies 0 <= (#[trigger] schedule(passes, w)[k]).0 <= w by {
            if k >= a.len() {
                assert(schedule(passes, w)[k] == b[k - a.len()]);
            } else {
                assert(schedule(passes, w)[k] == a[k]);
            }
        }
    }
}

proof fn lemma_sweeps_permute(
    st: (Seq<Seq<usize>>, Seq<usize>),
    sched: Seq<(int, bool)>,
    edges: Seq<RawEdge>,
    top: int,
)
    requires
        forall|k: int| 0 <= k < sched.len() ==> 0 <= (#[trigger] sched[k]).0 < st.0.len(),
    ensures
        run_sweeps(st, sched, edges, top).0.len() == st.0.len(),
        forall|l: int| 0 <= l < st.0.len() ==> (#[trigger] run_sweeps(st, sched, edges, top).0[l]).to_multiset()
            == st.0[l].to_multiset(),
    decreases sched.len(),
{
    if sched.len() > 0 {
        let d = sched.drop_last();
        assert forall|k: int| 0 <= k < d.len() implies 0 <= (#[trigger] d[k]).0 < st.0.len() by {
            assert(d[k] == sched[k]);
        }
        lemma_sweeps_permute(st, d, edges, top);
        let prev = run_sweeps(st, d, edges, top);
        let (l, down) = sched.last();
        let leq = bary_leq(edges, prev.1, top, down);
        lemma_bary_total(edges, prev.1, top, down);
        prev.0[l].lemma_sort_by_ensures(leq);
        assert(0 <= l < st.0.len()) by {
            assert(sched[sched.len() - 1] == sched.last());
        }
    }
}

/// Ordering layers against crossings only reorders them: there are as many
/// layers as before, and each holds exactly the nodes it held.
pub proof fn law_crossing_order_permutes(layers: Seq<Seq<usize>>, edges: Seq<RawEdge>, passes: int)
    ensures
        crossing_order(layers, edges, passes).len() == layers.len(),
        forall|l: int| 0 <= l < layers.len() ==> (#[trigger] crossing_order(layers, edges, passes)[l]).to_multiset()
            == layers[l].to_multiset(),
{
    let top = layers_top(layers);
    if top != 0 {
        let w = steps_per_pass(layers.len() as int);
        assert(layers.len() >= 1);
        lemma_schedule_in_range(passes, w);
        let sched = schedule(passes, w);
        lemma_sweeps_permute((layers, initial_ranks(layers, top)), sched, edges, top);
    }
}

} // verus!
