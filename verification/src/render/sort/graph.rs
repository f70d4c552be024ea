//! Small directed graph and Kahn's topological sort.
//!
//! The isometric sorter turns pairwise "A is drawn before B" constraints into
//! edges of a [`Graph`]; [`topological_sort`] threads them into one draw
//! order. A cyclic graph has no such order. The sort then still returns every
//! node once: the nodes that can be ordered come first, and the others follow
//! in index order.

use vstd::prelude::*;

verus! {

/// Directed graph over the nodes `0..n`, stored as adjacency lists.
pub struct Graph {
    pub n: usize,
    /// `edges[from]` lists the targets of the edges that leave `from`.
    pub edges: Vec<Vec<u32>>,
}

/// How often `v` occurs in `s`.
pub open spec fn occurrences(s: Seq<u32>, v: u32) -> nat
    decreases s.len(),
{
    if s.len() == 0 {
        0
    } else {
        occurrences(s.drop_last(), v) + if s.last() == v {
            1nat
        } else {
            0nat
        }
    }
}

/// Number of edges into `v` that leave one of the nodes `0..upto` that is not
/// listed in `done`.
pub open spec fn open_edges(adj: Seq<Seq<u32>>, done: Seq<u32>, v: u32, upto: nat) -> nat
    decreases upto,
{
    if upto == 0 {
        0
    } else {
        open_edges(adj, done, v, (upto - 1) as nat) + if done.contains((upto - 1) as u32) {
            0nat
        } else {
            occurrences(adj[upto - 1], v)
        }
    }
}

/// Number of edges into `v`, parallel edges counted one by one.
pub open spec fn in_degree(adj: Seq<Seq<u32>>, v: u32) -> nat {
    open_edges(adj, Seq::empty(), v, adj.len())
}

/// Number of edges of the whole graph.
pub open spec fn edge_total(adj: Seq<Seq<u32>>) -> nat
    decreases adj.len(),
{
    if adj.len() == 0 {
        0
    } else {
        edge_total(adj.drop_last()) + adj.last().len()
    }
}

/// Every edge leads to a node of the graph.
pub open spec fn targets_in_range(adj: Seq<Seq<u32>>) -> bool {
    forall|u: int, k: int|
        0 <= u < adj.len() && 0 <= k < adj[u].len() ==> (#[trigger] adj[u][k]) < adj.len()
}

/// There is an edge `u -> v`.
pub open spec fn has_edge(adj: Seq<Seq<u32>>, u: int, v: u32) -> bool {
    0 <= u < adj.len() && adj[u].contains(v)
}

/// `order` lists each of `0..n` exactly once.
pub open spec fn is_permutation(order: Seq<u32>, n: nat) -> bool {
    &&& order.len() == n
    &&& order.no_duplicates()
    &&& forall|i: int| 0 <= i < n ==> (#[trigger] order[i]) < n
    &&& forall|v: u32| v < n ==> order.contains(v)
}

/// `u` stands before `v` in `order`.
pub open spec fn comes_before(order: Seq<u32>, u: u32, v: u32) -> bool {
    exists|i: int, j: int|
        0 <= i < j < order.len() && #[trigger] order[i] == u && #[trigger] order[j] == v
}

/// The moment at which a node becomes ready: the position in the order of the
/// node whose edge was the last one into it, and the index of that edge in the
/// adjacency list. A node without predecessors is ready from the start; its
/// moment is `(-1, its own number)`.
pub open spec fn ready_at(
    adj: Seq<Seq<u32>>,
    order: Seq<u32>,
    v: u32,
    moment: (int, int),
) -> bool {
    &&& forall|u: int, m: int|
        0 <= u < adj.len() && 0 <= m < adj[u].len() && #[trigger] adj[u][m] == v
            ==> used_by(order, u, m, moment)
    &&& if moment.0 < 0 {
        moment == (-1int, v as int)
    } else {
        &&& moment.0 < order.len()
        &&& 0 <= order[moment.0] < adj.len()
        &&& 0 <= moment.1 < adj[order[moment.0] as int].len()
        &&& adj[order[moment.0] as int][moment.1] == v
    }
}

/// The edge with index `m` in the list of node `u` is passed at `moment` or
/// before it, where the nodes are taken in the given order.
pub open spec fn used_by(order: Seq<u32>, u: int, m: int, moment: (int, int)) -> bool {
    exists|j: int|
        0 <= j < order.len() && #[trigger] order[j] == u && (j < moment.0 || (j == moment.0 && m
            <= moment.1))
}

/// Lexicographic order on moments.
pub open spec fn earlier(a: (int, int), b: (int, int)) -> bool {
    a.0 < b.0 || (a.0 == b.0 && a.1 < b.1)
}

/// The node at position `j` has a predecessor at position `k` or behind it.
pub open spec fn waits(adj: Seq<Seq<u32>>, order: Seq<u32>, k: nat, j: int) -> bool {
    exists|i: int| k <= i < order.len() && has_edge(adj, (#[trigger] order[i]) as int, order[j])
}

/// `order` is the result of the first-in first-out topological sort, with its
/// first `k` nodes properly ordered; `moments` are the moments at which those
/// became ready.
pub open spec fn fifo_order_with(
    adj: Seq<Seq<u32>>,
    order: Seq<u32>,
    k: nat,
    moments: Seq<(int, int)>,
) -> bool {
    &&& is_permutation(order, adj.len())
    &&& k <= order.len()
    &&& moments.len() == k
    // The first k nodes: each one stands behind all its predecessors, and they
    // are taken in the order in which they became ready.
    &&& forall|i: int|
        0 <= i < k ==> (#[trigger] moments[i]).0 < i && ready_at(adj, order, order[i], moments[i])
    &&& forall|i: int, j: int|
        0 <= i < j < k ==> earlier(#[trigger] moments[i], #[trigger] moments[j])
    // The others: each one waits for another of them, and they stand in index
    // order.
    &&& forall|j: int| k <= j < order.len() ==> #[trigger] waits(adj, order, k, j)
    &&& forall|i: int, j: int|
        k <= i < j < order.len() ==> #[trigger] order[i] < #[trigger] order[j]
}

/// `order` is the result of the first-in first-out topological sort of `adj`.
/// This determines `order`: see `graph_laws::law_fifo_order_unique`.
pub open spec fn is_fifo_order(adj: Seq<Seq<u32>>, order: Seq<u32>) -> bool {
    exists|k: nat, moments: Seq<(int, int)>| #[trigger] fifo_order_with(adj, order, k, moments)
}

impl Graph {
    /// The adjacency lists.
    pub open spec fn adj(&self) -> Seq<Seq<u32>> {
        Seq::new(self.edges@.len(), |u: int| self.edges@[u]@)
    }

    /// There is one adjacency list per node and every edge leads to a node.
    pub open spec fn wf(&self) -> bool {
        &&& self.edges@.len() == self.n
        &&& targets_in_range(self.adj())
    }

    /// A graph with the nodes `0..n` and no edges.
    pub fn with_nodes(n: usize) -> (g: Self)
        ensures
            g.n == n,
            g.wf(),
            g.adj() == Seq::new(n as nat, |u: int| Seq::<u32>::empty()),
    {
        let mut edges: Vec<Vec<u32>> = Vec::new();
        let mut i: usize = 0;
        while i < n
            invariant
                i <= n,
                edges@.len() == i,
                forall|u: int| 0 <= u < i ==> (#[trigger] edges@[u])@ == Seq::<u32>::empty(),
            decreases n - i,
        {
            edges.push(Vec::new());
            i += 1;
        }
        let g = Graph { n, edges };
        assert(g.adj() =~= Seq::new(n as nat, |u: int| Seq::<u32>::empty()));
        g
    }

    /// Adds the edge `from -> to`. Parallel edges are kept.
    pub fn add_edge(&mut self, from: u32, to: u32)
        requires
            old(self).wf(),
            from < old(self).n,
            to < old(self).n,
        ensures
            final(self).wf(),
            final(self).n == old(self).n,
            final(self).adj() == old(self).adj().update(
                from as int,
                old(self).adj()[from as int].push(to),
            ),
    {
        self.edges[from as usize].push(to);
        assert(self.adj() =~= old(self).adj().update(
            from as int,
            old(self).adj()[from as int].push(to),
        ));
        assert forall|u: int, k: int|
            0 <= u < self.adj().len() && 0 <= k < self.adj()[u].len() implies (
        #[trigger] self.adj()[u][k]) < self.adj().len() by {
            if u == from && k == old(self).adj()[u].len() {
            } else {
                assert(self.adj()[u][k] == old(self).adj()[u][k]);
            }
        }
    }

    /// The number of edges, parallel ones counted one by one.
    pub fn edge_count(&self) -> (count: usize)
        requires
            edge_total(self.adj()) <= usize::MAX,
        ensures
            count == edge_total(self.adj()),
    {
        let mut count: usize = 0;
        let mut i: usize = 0;
        assert(self.adj().take(0) =~= Seq::empty());
        while i < self.edges.len()
            invariant
                i <= self.edges@.len(),
                count == edge_total(self.adj().take(i as int)),
                edge_total(self.adj()) <= usize::MAX,
            decreases self.edges@.len() - i,
        {
            proof {
                assert(self.adj().take(i + 1).drop_last() =~= self.adj().take(i as int));
                assert(self.adj().take(i + 1).last() == self.edges@[i as int]@);
                lemma_edge_total_take(self.adj(), i + 1);
            }
            count += self.edges[i].len();
            i += 1;
        }
        assert(self.adj().take(i as int) =~= self.adj());
        count
    }
}

proof fn lemma_edge_total_take(adj: Seq<Seq<u32>>, k: int)
    requires
        0 <= k <= adj.len(),
    ensures
        edge_total(adj.take(k)) <= edge_total(adj),
    decreases adj.len() - k,
{
    if k == adj.len() {
        assert(adj.take(k) =~= adj);
    } else {
        lemma_edge_total_take(adj, k + 1);
        assert(adj.take(k + 1).drop_last() =~= adj.take(k));
    }
}

proof fn lemma_occurrences_take(s: Seq<u32>, v: u32, k: int)
    requires
        0 <= k <= s.len(),
    ensures
        occurrences(s.take(k), v) <= occurrences(s, v),
        k < s.len() ==> occurrences(s.take(k + 1), v) == occurrences(s.take(k), v) + if s[k] == v {
            1nat
        } else {
            0nat
        },
        occurrences(s.take(k), v) == occurrences(s, v) ==> forall|m: int|
            k <= m < s.len() ==> #[trigger] s[m] != v,
    decreases s.len() - k,
{
    if k == s.len() {
        assert(s.take(k) =~= s);
    } else {
        lemma_occurrences_take(s, v, k + 1);
        assert(s.take(k + 1).drop_last() =~= s.take(k));
        assert(s.take(k + 1).last() == s[k]);
    }
}

proof fn lemma_occurrences_none(s: Seq<u32>, v: u32)
    ensures
        occurrences(s, v) == 0 <==> !s.contains(v),
    decreases s.len(),
{
    if s.len() > 0 {
        lemma_occurrences_none(s.drop_last(), v);
        assert(s.drop_last().push(s.last()) =~= s);
        if s.contains(v) {
            let i = choose|i: int| 0 <= i < s.len() && s[i] == v;
            if i < s.len() - 1 {
                assert(s.drop_last()[i] == v);
            }
        }
        if s.drop_last().contains(v) {
            let i = choose|i: int| 0 <= i < s.len() - 1 && s.drop_last()[i] == v;
            assert(s[i] == v);
        }
    }
}

/// Taking one more node out leaves out exactly its own edges.
proof fn lemma_open_edges_push(
    adj: Seq<Seq<u32>>,
    done: Seq<u32>,
    node: u32,
    v: u32,
    upto: nat,
)
    requires
        !done.contains(node),
        upto <= u32::MAX as nat + 1,
    ensures
        open_edges(adj, done.push(node), v, upto) + (if node < upto {
            occurrences(adj[node as int], v)
        } else {
            0
        }) == open_edges(adj, done, v, upto),
    decreases upto,
{
    if upto > 0 {
        lemma_open_edges_push(adj, done, node, v, (upto - 1) as nat);
        let u = (upto - 1) as u32;
        let pushed = done.push(node);
        assert(pushed[done.len() as int] == node);
        if done.contains(u) {
            let i = choose|i: int| 0 <= i < done.len() && done[i] == u;
            assert(pushed[i] == u);
        }
        if pushed.contains(u) {
            let i = choose|i: int| 0 <= i < pushed.len() && pushed[i] == u;
            if i < done.len() {
                assert(done[i] == u);
            }
        }
        assert(pushed.contains(u) <==> done.contains(u) || u == node);
    }
}

proof fn lemma_open_edges_none(adj: Seq<Seq<u32>>, done: Seq<u32>, v: u32, upto: nat)
    requires
        upto <= u32::MAX as nat + 1,
    ensures
        open_edges(adj, done, v, upto) == 0 <==> forall|u: int|
            0 <= u < upto && !done.contains(u as u32) ==> !(#[trigger] adj[u]).contains(v),
    decreases upto,
{
    if upto > 0 {
        lemma_open_edges_none(adj, done, v, (upto - 1) as nat);
        lemma_occurrences_none(adj[upto - 1], v);
        if open_edges(adj, done, v, upto) == 0 {
            assert forall|u: int| 0 <= u < upto && !done.contains(u as u32) implies !(
            #[trigger] adj[u]).contains(v) by {
                if u < upto - 1 {
                }
            }
        }
    }
}

proof fn lemma_open_edges_prefix(adj: Seq<Seq<u32>>, done: Seq<u32>, v: u32, a: nat, b: nat)
    requires
        a <= b,
    ensures
        open_edges(adj, done, v, a) <= open_edges(adj, done, v, b),
    decreases b,
{
    if a < b {
        lemma_open_edges_prefix(adj, done, v, a, (b - 1) as nat);
    }
}

/// A list without repetitions that holds exactly `0..n` has `n` entries.
proof fn lemma_permutation_len(s: Seq<u32>, n: nat)
    requires
        s.no_duplicates(),
        n <= u32::MAX as nat + 1,
        forall|v: u32| s.contains(v) <==> v < n,
    ensures
        s.len() == n,
    decreases n,
{
    if n == 0 {
        if s.len() > 0 {
            assert(s.contains(s[0]));
        }
    } else {
        let last = (n - 1) as u32;
        assert(s.contains(last));
        let p = choose|i: int| 0 <= i < s.len() && s[i] == last;
        let t = s.remove(p);
        assert(t.no_duplicates());
        assert forall|v: u32| t.contains(v) <==> v < n - 1 by {
            if t.contains(v) {
                let i = choose|i: int| 0 <= i < t.len() && t[i] == v;
                let j = if i < p { i } else { i + 1 };
                assert(s[j] == v);
                assert(s.contains(v));
            }
            if v < n - 1 {
                assert(s.contains(v));
                let j = choose|j: int| 0 <= j < s.len() && s[j] == v;
                let i = if j < p { j } else { j - 1 };
                assert(t[i] == v);
            }
        }
        lemma_permutation_len(t, (n - 1) as nat);
    }
}

proof fn lemma_ready_at_extend(
    adj: Seq<Seq<u32>>,
    order: Seq<u32>,
    longer: Seq<u32>,
    v: u32,
    moment: (int, int),
)
    requires
        ready_at(adj, order, v, moment),
        order.is_prefix_of(longer),
    ensures
        ready_at(adj, longer, v, moment),
{
    assert forall|j: int| 0 <= j < order.len() implies order[j] == longer[j] by {
        assert(longer.subrange(0, order.len() as int)[j] == longer[j]);
    }
    assert forall|u: int, m: int|
        0 <= u < adj.len() && 0 <= m < adj[u].len() && #[trigger] adj[u][m] == v implies used_by(
        longer,
        u,
        m,
        moment,
    ) by {
        assert(used_by(order, u, m, moment));
        let j = choose|j: int|
            0 <= j < order.len() && #[trigger] order[j] == u && (j < moment.0 || (j == moment.0
                && m <= moment.1));
        assert(longer[j] == u);
    }
}

/// State of the sort between two steps: `queue` holds the ready nodes in the
/// order in which they became ready; the edges of the first `head` of them are
/// passed, those of node `queue[head]` up to index `k`.
spec fn sorting(
    adj: Seq<Seq<u32>>,
    queue: Seq<u32>,
    moments: Seq<(int, int)>,
    at: (int, int),
) -> bool {
    &&& queue.no_duplicates()
    &&& forall|i: int| 0 <= i < queue.len() ==> (#[trigger] queue[i]) < adj.len()
    &&& moments.len() == queue.len()
    &&& forall|i: int|
        0 <= i < queue.len() ==> (#[trigger] moments[i]).0 < i && earlier(moments[i], at)
            && ready_at(adj, queue, queue[i], moments[i])
    &&& forall|i: int, j: int|
        0 <= i < j < queue.len() ==> earlier(#[trigger] moments[i], #[trigger] moments[j])
}

/// One more node becomes ready.
proof fn lemma_sorting_push(
    adj: Seq<Seq<u32>>,
    queue: Seq<u32>,
    moments: Seq<(int, int)>,
    at: (int, int),
    v: u32,
    next: (int, int),
)
    requires
        sorting(adj, queue, moments, at),
        !queue.contains(v),
        v < adj.len(),
        at.0 < queue.len(),
        earlier(at, next),
        ready_at(adj, queue, v, at),
    ensures
        sorting(adj, queue.push(v), moments.push(at), next),
{
    let q = queue.push(v);
    let ms = moments.push(at);
    assert(queue.is_prefix_of(q)) by {
        assert(q.subrange(0, queue.len() as int) =~= queue);
    }
    assert forall|i: int| 0 <= i < q.len() implies (#[trigger] ms[i]).0 < i && earlier(ms[i], next)
        && ready_at(adj, q, q[i], ms[i]) by {
        if i < queue.len() {
            assert(ms[i] == moments[i]);
            lemma_ready_at_extend(adj, queue, q, q[i], ms[i]);
        } else {
            lemma_ready_at_extend(adj, queue, q, v, at);
        }
    }
    assert forall|i: int, j: int| 0 <= i < j < q.len() implies earlier(
        #[trigger] ms[i],
        #[trigger] ms[j],
    ) by {
        assert(ms[i] == moments[i]);
        if j < queue.len() {
            assert(ms[j] == moments[j]);
        }
    }
    assert forall|i: int, j: int| 0 <= i < q.len() && 0 <= j < q.len() && i != j implies q[i]
        != q[j] by {
        if i == queue.len() {
            assert(queue.contains(queue[j]));
        } else if j == queue.len() {
            assert(queue.contains(queue[i]));
        }
    }
}

/// Kahn's algorithm with a first-in first-out queue.
///
/// Returns a permutation of the nodes. As far as the graph allows it, a node
/// stands behind all nodes that have an edge to it. Nodes on a cycle, and
/// those that can only be reached through one, come last, in index order.
pub fn topological_sort(graph: &Graph) -> (order: Vec<u32>)
    requires
        graph.wf(),
        graph.n <= u32::MAX,
        forall|v: u32| v < graph.n ==> #[trigger] in_degree(graph.adj(), v) <= u32::MAX,
    ensures
        is_fifo_order(graph.adj(), order@),
{
    let n: usize = graph.n;
    let ghost adj = graph.adj();
    let mut in_degree: Vec<u32> = Vec::new();
    let mut i: usize = 0;
    while i < n
        invariant
            i <= n,
            in_degree@.len() == i,
            forall|v: int| 0 <= v < i ==> #[trigger] in_degree@[v] == 0,
        decreases n - i,
    {
        in_degree.push(0);
        i += 1;
    }
    let mut from: usize = 0;
    while from < n
        invariant
            graph.wf(),
            n == graph.n,
            n <= u32::MAX,
            adj == graph.adj(),
            from <= n,
            in_degree@.len() == n,
            forall|v: u32| v < n ==> #[trigger] self::in_degree(adj, v) <= u32::MAX,
            forall|v: u32|
                v < n ==> #[trigger] in_degree@[v as int] == open_edges(
                    adj,
                    Seq::empty(),
                    v,
                    from as nat,
                ),
        decreases n - from,
    {
        let list: &Vec<u32> = &graph.edges[from];
        assert(adj[from as int] == list@);
        let mut k: usize = 0;
        assert(list@.take(0) =~= Seq::<u32>::empty());
        while k < list.len()
            invariant
                graph.wf(),
                n == graph.n,
                n <= u32::MAX,
                adj == graph.adj(),
                from < n,
                list@ == adj[from as int],
                k <= list@.len(),
                in_degree@.len() == n,
                forall|v: u32| v < n ==> #[trigger] self::in_degree(adj, v) <= u32::MAX,
                forall|v: u32|
                    v < n ==> #[trigger] in_degree@[v as int] == open_edges(
                        adj,
                        Seq::empty(),
                        v,
                        from as nat,
                    ) + occurrences(list@.take(k as int), v),
            decreases list@.len() - k,
        {
            let to: u32 = list[k];
            assert(adj[from as int][k as int] == to);
            proof {
                lemma_occurrences_take(list@, to, k as int);
                lemma_occurrences_take(list@, to, k + 1);
                lemma_open_edges_prefix(adj, Seq::empty(), to, (from + 1) as nat, n as nat);
                assert(!Seq::<u32>::empty().contains(from as u32));
                assert(self::in_degree(adj, to) <= u32::MAX);
                assert forall|v: u32| v < n implies occurrences(#[trigger] list@.take(k + 1), v)
                    == occurrences(list@.take(k as int), v) + if v == to {
                    1nat
                } else {
                    0nat
                } by {
                    lemma_occurrences_take(list@, v, k as int);
                }
            }
            let ghost before = in_degree@;
            in_degree.set(to as usize, in_degree[to as usize] + 1);
            assert forall|v: u32| v < n implies #[trigger] in_degree@[v as int] == open_edges(
                adj,
                Seq::empty(),
                v,
                from as nat,
            ) + occurrences(list@.take(k + 1), v) by {
                assert(before[v as int] == open_edges(adj, Seq::empty(), v, from as nat)
                    + occurrences(list@.take(k as int), v));
            }
            k += 1;
        }
        assert(list@.take(k as int) =~= list@);
        assert(!Seq::<u32>::empty().contains(from as u32));
        from += 1;
    }

    let mut queue: Vec<u32> = Vec::new();
    let ghost mut moments: Seq<(int, int)> = Seq::empty();
    let mut i: u32 = 0;
    while (i as usize) < n
        invariant
            n == graph.n,
            n <= u32::MAX,
            adj == graph.adj(),
            adj.len() == n,
            i <= n,
            in_degree@.len() == n,
            forall|v: u32|
                v < n ==> #[trigger] in_degree@[v as int] == open_edges(
                    adj,
                    Seq::empty(),
                    v,
                    n as nat,
                ),
            sorting(adj, queue@, moments, (-1, i as int)),
            forall|v: u32|
                #![trigger queue@.contains(v)]
                queue@.contains(v) <==> v < i && in_degree@[v as int] == 0,
        decreases n - i,
    {
        let ghost before = queue@;
        if in_degree[i as usize] == 0 {
            proof {
                lemma_open_edges_none(adj, Seq::empty(), i, n as nat);
                assert forall|u: int, m: int|
                    0 <= u < adj.len() && 0 <= m < adj[u].len() && #[trigger] adj[u][m]
                        == i implies used_by(queue@, u, m, (-1, i as int)) by {
                    assert(!Seq::<u32>::empty().contains(u as u32));
                    assert(adj[u].contains(i));
                }
                lemma_sorting_push(
                    adj,
                    queue@,
                    moments,
                    (-1, i as int),
                    i,
                    (-1, i + 1),
                );
                moments = moments.push((-1, i as int));
            }
            queue.push(i);
        } else {
            assert(sorting(adj, queue@, moments, (-1, i + 1)));
        }
        assert forall|v: u32|
            #![trigger queue@.contains(v)]
            queue@.contains(v) <==> v < i + 1 && in_degree@[v as int] == 0 by {
            lemma_contains_push(before, i, v);
        }
        i += 1;
    }

    let mut order: Vec<u32> = Vec::new();
    let mut head: usize = 0;
    assert(queue@.take(0) =~= Seq::<u32>::empty());
    assert(sorting(adj, queue@, moments, (0, 0)));
    while head < queue.len()
        invariant
            graph.wf(),
            n == graph.n,
            n <= u32::MAX,
            adj == graph.adj(),
            in_degree@.len() == n,
            head <= queue@.len(),
            order@ == queue@.take(head as int),
            forall|v: u32|
                v < n ==> #[trigger] in_degree@[v as int] == open_edges(
                    adj,
                    queue@.take(head as int),
                    v,
                    n as nat,
                ),
            sorting(adj, queue@, moments, (head as int, 0)),
            forall|v: u32|
                #![trigger queue@.contains(v)]
                queue@.contains(v) <==> v < n && in_degree@[v as int] == 0,
        decreases n - head,
    {
        proof {
            lemma_queue_len(queue@, n as nat);
        }
        let node: u32 = queue[head];
        let ghost done = queue@.take(head as int);
        let ghost at_head = head as int;
        head += 1;
        order.push(node);
        let list: &Vec<u32> = &graph.edges[node as usize];
        assert(adj[node as int] == list@);
        let ghost now = done.push(node);
        assert(queue@.take(head as int) =~= now);
        proof {
            assert(!done.contains(node)) by {
                if done.contains(node) {
                    let j = choose|j: int| 0 <= j < done.len() && done[j] == node;
                    assert(queue@[j] == queue@[at_head]);
                }
            }
            assert(list@.take(0) =~= Seq::<u32>::empty());
            assert forall|v: u32| v < n implies #[trigger] in_degree@[v as int] + occurrences(
                list@.take(0),
                v,
            ) == open_edges(adj, now, v, n as nat) + occurrences(list@, v) by {
                lemma_open_edges_push(adj, done, node, v, n as nat);
            }
        }
        let mut k: usize = 0;
        while k < list.len()
            invariant
                graph.wf(),
                n == graph.n,
                n <= u32::MAX,
                adj == graph.adj(),
                in_degree@.len() == n,
                node < n,
                list@ == adj[node as int],
                k <= list@.len(),
                at_head + 1 == head,
                0 <= at_head < queue@.len(),
                queue@[at_head] == node,
                now == queue@.take(head as int),
                order@ == queue@.take(head as int),
                forall|v: u32|
                    v < n ==> #[trigger] in_degree@[v as int] + occurrences(list@.take(k as int), v)
                        == open_edges(adj, now, v, n as nat) + occurrences(list@, v),
                sorting(adj, queue@, moments, (at_head, k as int)),
                forall|v: u32|
                    #![trigger queue@.contains(v)]
                    queue@.contains(v) <==> v < n && in_degree@[v as int] == 0,
            decreases list@.len() - k,
        {
            let to: u32 = list[k];
            assert(adj[node as int][k as int] == to);
            let ghost before = in_degree@;
            let ghost old_queue = queue@;
            proof {
                lemma_occurrences_take(list@, to, k as int);
                lemma_occurrences_take(list@, to, k + 1);
                assert forall|v: u32| v < n implies occurrences(#[trigger] list@.take(k + 1), v)
                    == occurrences(list@.take(k as int), v) + if v == to {
                    1nat
                } else {
                    0nat
                } by {
                    lemma_occurrences_take(list@, v, k as int);
                }
                assert(before[to as int] + occurrences(list@.take(k as int), to) == open_edges(
                    adj,
                    now,
                    to,
                    n as nat,
                ) + occurrences(list@, to));
                assert(!queue@.contains(to));
            }
            let d: u32 = in_degree[to as usize] - 1;
            in_degree.set(to as usize, d);
            assert forall|v: u32| v < n implies #[trigger] in_degree@[v as int] + occurrences(
                list@.take(k + 1),
                v,
            ) == open_edges(adj, now, v, n as nat) + occurrences(list@, v) by {
                assert(before[v as int] + occurrences(list@.take(k as int), v) == open_edges(
                    adj,
                    now,
                    v,
                    n as nat,
                ) + occurrences(list@, v));
            }
            if d == 0 {
                proof {
                    assert(in_degree@[to as int] + occurrences(list@.take(k + 1), to)
                        == open_edges(adj, now, to, n as nat) + occurrences(list@, to));
                    lemma_open_edges_none(adj, now, to, n as nat);
                    assert forall|u: int, m: int|
                        0 <= u < adj.len() && 0 <= m < adj[u].len() && #[trigger] adj[u][m]
                            == to implies used_by(queue@, u, m, (at_head, k as int)) by {
                        assert(adj[u].contains(to));
                        assert(now.contains(u as u32));
                        let j = choose|j: int| 0 <= j < now.len() && now[j] == u as u32;
                        assert(queue@[j] == u);
                        if j == at_head {
                            assert(u == node);
                            assert(list@[m] == to);
                            assert(m <= k);
                        }
                    }
                    lemma_sorting_push(
                        adj,
                        queue@,
                        moments,
                        (at_head, k as int),
                        to,
                        (at_head, k + 1),
                    );
                    moments = moments.push((at_head, k as int));
                }
                queue.push(to);
                assert(queue@.take(head as int) =~= now);
            } else {
                assert(sorting(adj, queue@, moments, (at_head, k + 1)));
            }
            assert forall|v: u32|
                #![trigger queue@.contains(v)]
                queue@.contains(v) <==> v < n && in_degree@[v as int] == 0 by {
                lemma_contains_push(old_queue, to, v);
                assert(old_queue.contains(v) <==> v < n && before[v as int] == 0);
            }
            k += 1;
        }
        assert(list@.take(k as int) =~= list@);
        assert forall|v: u32| v < n implies #[trigger] in_degree@[v as int] == open_edges(
            adj,
            queue@.take(head as int),
            v,
            n as nat,
        ) by {
            assert(in_degree@[v as int] + occurrences(list@.take(k as int), v) == open_edges(
                adj,
                now,
                v,
                n as nat,
            ) + occurrences(list@, v));
        }
        assert(sorting(adj, queue@, moments, (head as int, 0)));
    }
    assert(queue@.take(head as int) =~= queue@);

    let ghost ordered = order@;
    let mut i: u32 = 0;
    while (i as usize) < n
        invariant
            n == graph.n,
            n <= u32::MAX,
            i <= n,
            in_degree@.len() == n,
            ordered.len() <= order@.len(),
            ordered == order@.take(ordered.len() as int),
            forall|j: int| ordered.len() <= j < order@.len() ==> (#[trigger] order@[j]) < i,
            forall|a: int, b: int|
                ordered.len() <= a < b < order@.len() ==> #[trigger] order@[a] < #[trigger] order@[b],
            forall|j: int|
                ordered.len() <= j < order@.len() ==> in_degree@[(#[trigger] order@[j]) as int] > 0,
            forall|v: u32|
                #![trigger order@.contains(v)]
                order@.contains(v) <==> ordered.contains(v) || (v < i && in_degree@[v as int] > 0),
        decreases n - i,
    {
        let ghost before = order@;
        if in_degree[i as usize] > 0 {
            order.push(i);
            assert(order@.take(ordered.len() as int) =~= ordered);
        }
        assert forall|v: u32|
            #![trigger order@.contains(v)]
            order@.contains(v) <==> ordered.contains(v) || (v < i + 1 && in_degree@[v as int]
                > 0) by {
            lemma_contains_push(before, i, v);
        }
        i += 1;
    }
    proof {
        let k = ordered.len();
        assert forall|v: u32| order@.contains(v) <==> v < n by {
            assert(ordered.contains(v) <==> v < n && in_degree@[v as int] == 0);
        }
        assert forall|a: int, b: int|
            0 <= a < order@.len() && 0 <= b < order@.len() && a != b implies order@[a]
            != order@[b] by {
            if a < k {
                assert(order@[a] == ordered[a]);
                assert(ordered.contains(ordered[a]));
            }
            if b < k {
                assert(order@[b] == ordered[b]);
                assert(ordered.contains(ordered[b]));
            }
        }
        lemma_permutation_len(order@, n as nat);
        assert forall|a: int| 0 <= a < n implies (#[trigger] order@[a]) < n by {
            assert(order@.contains(order@[a]));
        }
        assert(is_permutation(order@, adj.len()));
        assert(ordered.is_prefix_of(order@));
        assert forall|a: int| 0 <= a < k implies (#[trigger] moments[a]).0 < a && ready_at(
            adj,
            order@,
            order@[a],
            moments[a],
        ) by {
            assert(order@[a] == ordered[a]);
            lemma_ready_at_extend(adj, ordered, order@, order@[a], moments[a]);
        }
        assert forall|b: int| k <= b < order@.len() implies #[trigger] waits(
            adj,
            order@,
            k,
            b,
        ) by {
            let v = order@[b];
            assert(in_degree@[v as int] > 0);
            assert(in_degree@[v as int] == open_edges(adj, ordered, v, n as nat));
            lemma_open_edges_none(adj, ordered, v, n as nat);
            let u = choose|u: int|
                0 <= u < n && !ordered.contains(u as u32) && (#[trigger] adj[u]).contains(v);
            assert(order@.contains(u as u32));
            let a = choose|a: int| 0 <= a < order@.len() && order@[a] == u as u32;
            if a < k {
                assert(ordered[a] == order@[a]);
                assert(ordered.contains(u as u32));
            }
            assert(has_edge(adj, order@[a] as int, order@[b]));
        }
        assert(fifo_order_with(adj, order@, k, moments));
    }
    order
}

proof fn lemma_contains_push(s: Seq<u32>, x: u32, v: u32)
    ensures
        s.push(x).contains(v) <==> s.contains(v) || v == x,
{
    let t = s.push(x);
    assert(t[s.len() as int] == x);
    if s.contains(v) {
        let i = choose|i: int| 0 <= i < s.len() && s[i] == v;
        assert(t[i] == v);
    }
    if t.contains(v) {
        let i = choose|i: int| 0 <= i < t.len() && t[i] == v;
        if i < s.len() {
            assert(s[i] == v);
        }
    }
}

/// A list of nodes without repetitions is no longer than the number of nodes.
proof fn lemma_queue_len(s: Seq<u32>, n: nat)
    requires
        s.no_duplicates(),
        forall|i: int| 0 <= i < s.len() ==> (#[trigger] s[i]) < n,
    ensures
        s.len() <= n,
    decreases n,
{
    if n == 0 {
        if s.len() > 0 {
            assert(s[0] < n);
        }
    } else if exists|i: int| 0 <= i < s.len() && s[i] == n - 1 {
        let p = choose|i: int| 0 <= i < s.len() && s[i] == n - 1;
        let t = s.remove(p);
        assert forall|i: int| 0 <= i < t.len() implies (#[trigger] t[i]) < n - 1 by {
            let j = if i < p { i } else { i + 1 };
            assert(t[i] == s[j]);
            assert(s[j] != s[p]);
        }
        lemma_queue_len(t, (n - 1) as nat);
    } else {
        assert forall|i: int| 0 <= i < s.len() implies (#[trigger] s[i]) < n - 1 by {
            assert(s[i] != n - 1);
        }
        lemma_queue_len(s, (n - 1) as nat);
    }
}

} // verus!
