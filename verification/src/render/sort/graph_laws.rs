//! What the topological sort promises of its result as a whole.

use vstd::prelude::*;

use crate::render::sort::graph::{
    comes_before, earlier, fifo_order_with, has_edge, is_fifo_order, is_permutation, ready_at,
    used_by, waits,
};

verus! {

/// `v` is a node and has a predecessor in `s`.
pub open spec fn waits_within(adj: Seq<Seq<u32>>, s: Set<u32>, v: u32) -> bool {
    v < adj.len() && exists|u: u32| s.contains(u) && #[trigger] has_edge(adj, u as int, v)
}

/// Every member of `s` is a node and has a predecessor in `s`.
pub open spec fn mutually_waiting(adj: Seq<Seq<u32>>, s: Set<u32>) -> bool {
    forall|v: u32| s.contains(v) ==> #[trigger] waits_within(adj, s, v)
}

/// `v` lies on a cycle, or can be reached from one.
pub open spec fn stuck(adj: Seq<Seq<u32>>, v: u32) -> bool {
    exists|s: Set<u32>| #[trigger] mutually_waiting(adj, s) && s.contains(v)
}

/// Every edge leads from an earlier node to a later one.
pub open spec fn respects_edges(adj: Seq<Seq<u32>>, order: Seq<u32>) -> bool {
    forall|u: u32, v: u32| #[trigger] has_edge(adj, u as int, v) ==> comes_before(order, u, v)
}

/// The position of a node of a permutation.
proof fn lemma_position(order: Seq<u32>, n: nat, v: u32) -> (p: int)
    requires
        is_permutation(order, n),
        v < n,
    ensures
        0 <= p < n,
        order[p] == v,
{
    assert(order.contains(v));
    choose|p: int| 0 <= p < order.len() && order[p] == v
}

/// The two orders agree on their first `i` positions: then the node that the
/// first one has at position `i` is ordered by the second one too, at the same
/// moment.
proof fn lemma_same_moment(
    adj: Seq<Seq<u32>>,
    a: Seq<u32>,
    ka: nat,
    ma: Seq<(int, int)>,
    b: Seq<u32>,
    kb: nat,
    mb: Seq<(int, int)>,
    i: int,
) -> (p: int)
    requires
        fifo_order_with(adj, a, ka, ma),
        fifo_order_with(adj, b, kb, mb),
        adj.len() <= u32::MAX as nat + 1,
        0 <= i < ka,
        i <= kb,
        forall|j: int| 0 <= j < i ==> #[trigger] a[j] == b[j],
    ensures
        i <= p < kb,
        b[p] == a[i],
        mb[p] == ma[i],
{
    let v = a[i];
    let p = lemma_position(b, adj.len(), v);
    assert(ma[i].0 < i && ready_at(adj, a, v, ma[i]));
    if p < i {
        assert(a[p] == b[p]);
    }
    if p >= kb {
        assert(waits(adj, b, kb, p));
        let q = choose|q: int|
            kb <= q < b.len() && has_edge(adj, (#[trigger] b[q]) as int, b[p]);
        let u = b[q] as int;
        let m = choose|m: int| 0 <= m < adj[u].len() && adj[u][m] == v;
        assert(adj[u][m] == v);
        assert(used_by(a, u, m, ma[i]));
        let j = choose|j: int|
            0 <= j < a.len() && #[trigger] a[j] == u && (j < ma[i].0 || (j == ma[i].0 && m
                <= ma[i].1));
        assert(a[j] == b[j]);
    }
    assert(ready_at(adj, b, v, mb[p]));
    if ma[i].0 >= 0 {
        let u = a[ma[i].0] as int;
        assert(adj[u][ma[i].1] == v);
        assert(used_by(b, u, ma[i].1, mb[p]));
        let j = choose|j: int|
            0 <= j < b.len() && #[trigger] b[j] == u && (j < mb[p].0 || (j == mb[p].0 && ma[i].1
                <= mb[p].1));
        assert(a[ma[i].0] == b[ma[i].0]);
        assert(j == ma[i].0);
    }
    if mb[p].0 >= 0 {
        let u = b[mb[p].0] as int;
        assert(adj[u][mb[p].1] == v);
        assert(used_by(a, u, mb[p].1, ma[i]));
        let j = choose|j: int|
            0 <= j < a.len() && #[trigger] a[j] == u && (j < ma[i].0 || (j == ma[i].0 && mb[p].1
                <= ma[i].1));
        assert(a[j] == b[j]);
        assert(j == mb[p].0);
    }
    p
}

proof fn lemma_agree(
    adj: Seq<Seq<u32>>,
    a: Seq<u32>,
    ka: nat,
    ma: Seq<(int, int)>,
    b: Seq<u32>,
    kb: nat,
    mb: Seq<(int, int)>,
    i: int,
)
    requires
        fifo_order_with(adj, a, ka, ma),
        fifo_order_with(adj, b, kb, mb),
        adj.len() <= u32::MAX as nat + 1,
        0 <= i <= ka,
    ensures
        i <= kb,
        forall|j: int| 0 <= j < i ==> #[trigger] a[j] == b[j],
    decreases i,
{
    if i > 0 {
        lemma_agree(adj, a, ka, ma, b, kb, mb, i - 1);
        let p = lemma_same_moment(adj, a, ka, ma, b, kb, mb, i - 1);
        assert forall|j: int| 0 <= j < i - 1 implies #[trigger] b[j] == a[j] by {
            assert(a[j] == b[j]);
        }
        let q = lemma_same_moment(adj, b, kb, mb, a, ka, ma, i - 1);
        if p > i - 1 {
            assert(earlier(mb[i - 1], mb[p]));
            if q > i - 1 {
                assert(earlier(ma[i - 1], ma[q]));
            }
        }
    }
}

proof fn lemma_same_tail(a: Seq<u32>, b: Seq<u32>, n: nat, k: nat, i: int)
    requires
        is_permutation(a, n),
        is_permutation(b, n),
        k <= i <= n,
        forall|j: int| 0 <= j < k ==> #[trigger] a[j] == b[j],
        forall|x: int, y: int| k <= x < y < n ==> #[trigger] a[x] < #[trigger] a[y],
        forall|x: int, y: int| k <= x < y < n ==> #[trigger] b[x] < #[trigger] b[y],
    ensures
        forall|j: int| 0 <= j < i ==> #[trigger] a[j] == b[j],
    decreases i,
{
    if i > k {
        lemma_same_tail(a, b, n, k, i - 1);
        let p = lemma_position(b, n, a[i - 1]);
        let q = lemma_position(a, n, b[i - 1]);
        if p < i - 1 {
            assert(a[p] == b[p]);
        }
        if q < i - 1 {
            assert(a[q] == b[q]);
        }
        if p > i - 1 {
            assert(b[i - 1] < b[p]);
            if q > i - 1 {
                assert(a[i - 1] < a[q]);
            }
        }
    }
}

/// The topological sort has one result only: a graph determines its order.
pub proof fn law_fifo_order_unique(adj: Seq<Seq<u32>>, a: Seq<u32>, b: Seq<u32>)
    requires
        adj.len() <= u32::MAX as nat + 1,
        is_fifo_order(adj, a),
        is_fifo_order(adj, b),
    ensures
        a == b,
{
    let (ka, ma) = choose|k: nat, moments: Seq<(int, int)>| #[trigger]
        fifo_order_with(adj, a, k, moments);
    let (kb, mb) = choose|k: nat, moments: Seq<(int, int)>| #[trigger]
        fifo_order_with(adj, b, k, moments);
    lemma_agree(adj, a, ka, ma, b, kb, mb, ka as int);
    lemma_agree(adj, b, kb, mb, a, ka, ma, kb as int);
    lemma_same_tail(a, b, adj.len(), ka, adj.len() as int);
    assert(a =~= b);
}

/// A node among the first `k` is not stuck.
proof fn lemma_ordered_not_stuck(
    adj: Seq<Seq<u32>>,
    order: Seq<u32>,
    k: nat,
    moments: Seq<(int, int)>,
    s: Set<u32>,
    i: int,
)
    requires
        fifo_order_with(adj, order, k, moments),
        mutually_waiting(adj, s),
        0 <= i < k,
    ensures
        !s.contains(order[i]),
    decreases i,
{
    let v = order[i];
    if s.contains(v) {
        assert(waits_within(adj, s, v));
        let u = choose|u: u32| s.contains(u) && #[trigger] has_edge(adj, u as int, v);
        let m = choose|m: int| 0 <= m < adj[u as int].len() && adj[u as int][m] == v;
        assert(moments[i].0 < i && ready_at(adj, order, v, moments[i]));
        assert(adj[u as int][m] == v);
        assert(used_by(order, u as int, m, moments[i]));
        let j = choose|j: int|
            0 <= j < order.len() && #[trigger] order[j] == u && (j < moments[i].0 || (j
                == moments[i].0 && m <= moments[i].1));
        lemma_ordered_not_stuck(adj, order, k, moments, s, j);
    }
}

/// The stuck nodes are those behind the first `k`.
proof fn lemma_stuck_is_tail(
    adj: Seq<Seq<u32>>,
    order: Seq<u32>,
    k: nat,
    moments: Seq<(int, int)>,
    p: int,
)
    requires
        fifo_order_with(adj, order, k, moments),
        0 <= p < order.len(),
    ensures
        stuck(adj, order[p]) <==> p >= k,
{
    if p < k {
        if stuck(adj, order[p]) {
            let s = choose|s: Set<u32>| #[trigger]
                mutually_waiting(adj, s) && s.contains(order[p]);
            lemma_ordered_not_stuck(adj, order, k, moments, s, p);
        }
    } else {
        let s = Set::new(|v: u32| exists|q: int| k <= q < order.len() && #[trigger] order[q] == v);
        assert forall|v: u32| s.contains(v) implies #[trigger] waits_within(adj, s, v) by {
            let q = choose|q: int| k <= q < order.len() && #[trigger] order[q] == v;
            assert(waits(adj, order, k, q));
            let r = choose|r: int|
                k <= r < order.len() && has_edge(adj, (#[trigger] order[r]) as int, order[q]);
            assert(s.contains(order[r]) && has_edge(adj, order[r] as int, v));
        }
        assert(s.contains(order[p]));
        assert(mutually_waiting(adj, s));
    }
}

/// A node that is not stuck stands behind all its predecessors, whatever
/// cycles the rest of the graph has.
pub proof fn law_unstuck_node_follows_predecessors(
    adj: Seq<Seq<u32>>,
    order: Seq<u32>,
    u: u32,
    v: u32,
)
    requires
        is_fifo_order(adj, order),
        has_edge(adj, u as int, v),
        v < adj.len(),
        !stuck(adj, v),
    ensures
        comes_before(order, u, v),
{
    let (k, moments) = choose|k: nat, moments: Seq<(int, int)>| #[trigger]
        fifo_order_with(adj, order, k, moments);
    let i = lemma_position(order, adj.len(), v);
    lemma_stuck_is_tail(adj, order, k, moments, i);
    assert(moments[i].0 < i && ready_at(adj, order, v, moments[i]));
    let m = choose|m: int| 0 <= m < adj[u as int].len() && adj[u as int][m] == v;
    assert(adj[u as int][m] == v);
    assert(used_by(order, u as int, m, moments[i]));
    let j = choose|j: int|
        0 <= j < order.len() && #[trigger] order[j] == u && (j < moments[i].0 || (j
            == moments[i].0 && m <= moments[i].1));
    assert(order[j] == u && order[i] == v);
}

/// Stuck nodes come last, in index order.
pub proof fn law_stuck_nodes_come_last(adj: Seq<Seq<u32>>, order: Seq<u32>, u: u32, v: u32)
    requires
        is_fifo_order(adj, order),
        u < adj.len(),
        v < adj.len(),
        stuck(adj, v),
        !stuck(adj, u) || u < v,
    ensures
        comes_before(order, u, v),
{
    let (k, moments) = choose|k: nat, moments: Seq<(int, int)>| #[trigger]
        fifo_order_with(adj, order, k, moments);
    let i = lemma_position(order, adj.len(), u);
    let j = lemma_position(order, adj.len(), v);
    lemma_stuck_is_tail(adj, order, k, moments, i);
    lemma_stuck_is_tail(adj, order, k, moments, j);
    if i >= k {
        if j < i {
            assert(order[j] < order[i]);
        }
    }
    assert(order[i] == u && order[j] == v && i < j);
}

/// Where no node is stuck, every edge is respected.
pub proof fn law_acyclic_graph_is_ordered(adj: Seq<Seq<u32>>, order: Seq<u32>)
    requires
        is_fifo_order(adj, order),
        crate::render::sort::graph::targets_in_range(adj),
        forall|v: u32| v < adj.len() ==> !#[trigger] stuck(adj, v),
    ensures
        respects_edges(adj, order),
{
    assert forall|u: u32, v: u32| #[trigger] has_edge(adj, u as int, v) implies comes_before(
        order,
        u,
        v,
    ) by {
        let m = choose|m: int| 0 <= m < adj[u as int].len() && adj[u as int][m] == v;
        assert(adj[u as int][m] < adj.len());
        assert(!stuck(adj, v));
        law_unstuck_node_follows_predecessors(adj, order, u, v);
    }
}

/// No node stands in a set of mutually waiting nodes when some order respects
/// every edge.
proof fn lemma_order_unsticks(
    adj: Seq<Seq<u32>>,
    some: Seq<u32>,
    s: Set<u32>,
    p: int,
)
    requires
        is_permutation(some, adj.len()),
        respects_edges(adj, some),
        mutually_waiting(adj, s),
        0 <= p < some.len(),
    ensures
        !s.contains(some[p]),
    decreases p,
{
    let v = some[p];
    if s.contains(v) {
        assert(waits_within(adj, s, v));
        let u = choose|u: u32| s.contains(u) && #[trigger] has_edge(adj, u as int, v);
        assert(comes_before(some, u, v));
        let (i, j) = choose|i: int, j: int|
            0 <= i < j < some.len() && #[trigger] some[i] == u && #[trigger] some[j] == v;
        assert(j == p);
        lemma_order_unsticks(adj, some, s, i);
    }
}

/// If the nodes can be ordered along the edges at all, the sort does so.
pub proof fn law_sort_finds_an_order(adj: Seq<Seq<u32>>, order: Seq<u32>, some: Seq<u32>)
    requires
        is_fifo_order(adj, order),
        crate::render::sort::graph::targets_in_range(adj),
        is_permutation(some, adj.len()),
        respects_edges(adj, some),
    ensures
        respects_edges(adj, order),
{
    assert forall|v: u32| v < adj.len() implies !#[trigger] stuck(adj, v) by {
        if stuck(adj, v) {
            let s = choose|s: Set<u32>| #[trigger] mutually_waiting(adj, s) && s.contains(v);
            let p = lemma_position(some, adj.len(), v);
            lemma_order_unsticks(adj, some, s, p);
        }
    }
    law_acyclic_graph_is_ordered(adj, order);
}

/// Nodes without predecessors come first, in index order.
pub proof fn law_sources_come_first(adj: Seq<Seq<u32>>, order: Seq<u32>, x: u32, y: u32)
    requires
        is_fifo_order(adj, order),
        x < adj.len(),
        y < adj.len(),
        forall|p: u32| !#[trigger] has_edge(adj, p as int, x),
        (exists|q: u32| #[trigger] has_edge(adj, q as int, y)) || x < y,
    ensures
        comes_before(order, x, y),
{
    let (k, moments) = choose|k: nat, moments: Seq<(int, int)>| #[trigger]
        fifo_order_with(adj, order, k, moments);
    let i = lemma_position(order, adj.len(), x);
    let j = lemma_position(order, adj.len(), y);
    if i >= k {
        assert(waits(adj, order, k, i));
        let r = choose|r: int|
            k <= r < order.len() && has_edge(adj, (#[trigger] order[r]) as int, order[i]);
        assert(has_edge(adj, order[r] as int, x));
    }
    assert(ready_at(adj, order, x, moments[i]));
    if moments[i].0 >= 0 {
        let p = order[moments[i].0];
        assert(adj[p as int].contains(x));
        assert(has_edge(adj, p as int, x));
    }
    if j < k {
        assert(ready_at(adj, order, y, moments[j]));
        if exists|q: u32| #[trigger] has_edge(adj, q as int, y) {
            let q = choose|q: u32| #[trigger] has_edge(adj, q as int, y);
            let m = choose|m: int| 0 <= m < adj[q as int].len() && adj[q as int][m] == y;
            assert(adj[q as int][m] == y);
            assert(used_by(order, q as int, m, moments[j]));
        }
        if j < i {
            assert(earlier(moments[j], moments[i]));
        }
    }
    assert(i != j) by {
        if i == j {
            let q = choose|q: u32| #[trigger] has_edge(adj, q as int, y);
            assert(has_edge(adj, q as int, x));
        }
    }
    assert(order[i] == x && order[j] == y && i < j);
}

/// First in, first out: of two nodes that wait for others, the one whose
/// predecessors have all had their turn earlier comes earlier.
pub proof fn law_first_ready_comes_first(
    adj: Seq<Seq<u32>>,
    order: Seq<u32>,
    x: u32,
    y: u32,
    q: u32,
)
    requires
        is_fifo_order(adj, order),
        x < adj.len(),
        y < adj.len(),
        !stuck(adj, x),
        !stuck(adj, y),
        has_edge(adj, q as int, y),
        forall|p: u32| #[trigger] has_edge(adj, p as int, x) ==> comes_before(order, p, q),
    ensures
        comes_before(order, x, y),
{
    let (k, moments) = choose|k: nat, moments: Seq<(int, int)>| #[trigger]
        fifo_order_with(adj, order, k, moments);
    let i = lemma_position(order, adj.len(), x);
    let j = lemma_position(order, adj.len(), y);
    lemma_stuck_is_tail(adj, order, k, moments, i);
    lemma_stuck_is_tail(adj, order, k, moments, j);
    let t = lemma_position(order, adj.len(), q);
    assert(ready_at(adj, order, x, moments[i]));
    assert(ready_at(adj, order, y, moments[j]));
    if moments[i].0 >= 0 {
        let p = order[moments[i].0];
        assert(adj[p as int].contains(x));
        assert(has_edge(adj, p as int, x));
        assert(comes_before(order, p, q));
        assert(moments[i].0 < t);
    }
    let m = choose|m: int| 0 <= m < adj[q as int].len() && adj[q as int][m] == y;
    assert(adj[q as int][m] == y);
    assert(used_by(order, q as int, m, moments[j]));
    assert(moments[j].0 >= t);
    assert(earlier(moments[i], moments[j]));
    if j < i {
        assert(earlier(moments[j], moments[i]));
    }
    assert(order[i] == x && order[j] == y && i < j);
}

/// Nodes that one and the same node has made ready come in the order in which its
/// edges lead to them, the last edge to each deciding.
pub proof fn law_edges_are_passed_in_order(
    adj: Seq<Seq<u32>>,
    order: Seq<u32>,
    x: u32,
    y: u32,
    q: u32,
    m: int,
)
    requires
        is_fifo_order(adj, order),
        x < adj.len(),
        y < adj.len(),
        !stuck(adj, x),
        !stuck(adj, y),
        q < adj.len(),
        0 <= m < adj[q as int].len(),
        adj[q as int][m] == y,
        forall|p: u32| #[trigger]
            has_edge(adj, p as int, x) ==> p == q || comes_before(order, p, q),
        forall|e: int| 0 <= e < adj[q as int].len() && #[trigger] adj[q as int][e] == x ==> e < m,
    ensures
        comes_before(order, x, y),
{
    let (k, moments) = choose|k: nat, moments: Seq<(int, int)>| #[trigger]
        fifo_order_with(adj, order, k, moments);
    let i = lemma_position(order, adj.len(), x);
    let j = lemma_position(order, adj.len(), y);
    lemma_stuck_is_tail(adj, order, k, moments, i);
    lemma_stuck_is_tail(adj, order, k, moments, j);
    let t = lemma_position(order, adj.len(), q);
    assert(ready_at(adj, order, x, moments[i]));
    assert(ready_at(adj, order, y, moments[j]));
    if moments[i].0 >= 0 {
        let p = order[moments[i].0];
        assert(adj[p as int].contains(x));
        assert(has_edge(adj, p as int, x));
        assert(moments[i].0 <= t);
    }
    assert(used_by(order, q as int, m, moments[j]));
    assert(earlier(moments[i], moments[j]));
    if j < i {
        assert(earlier(moments[j], moments[i]));
    }
    assert(order[i] == x && order[j] == y && i < j);
}

} // verus!
