//! The left-to-right sweep, as mathematics.

use vstd::prelude::*;

use crate::render::sort::graph::{edge_total, in_degree, open_edges, targets_in_range};
use crate::render::sort::iso_rect::{behind, IsoBounds};

verus! {

/// The bounds, each with its own position as index.
pub open spec fn stamped(bounds: Seq<IsoBounds>) -> Seq<IsoBounds> {
    Seq::new(bounds.len(), |i: int| (IsoBounds { index: i as u32, ..bounds[i] }))
}

/// `a` is swept before `b`: from left to right, and in input order where two
/// begin at the same place.
pub open spec fn swept_before(a: IsoBounds, b: IsoBounds) -> bool {
    a.left() < b.left() || (a.left() == b.left() && a.index < b.index)
}

/// `by_left` lists the stamped bounds in the order of the sweep.
pub open spec fn is_sweep_order(bounds: Seq<IsoBounds>, by_left: Seq<IsoBounds>) -> bool {
    &&& by_left.len() == bounds.len()
    &&& forall|i: int|
        0 <= i < by_left.len() ==> (#[trigger] by_left[i]).index < bounds.len() && by_left[i]
            == stamped(bounds)[by_left[i].index as int]
    &&& forall|i: int, j: int|
        0 <= i < j < by_left.len() ==> swept_before(#[trigger] by_left[i], #[trigger] by_left[j])
}

/// Every index names a node, and no two are the same.
pub open spec fn distinct_indices(rects: Seq<IsoBounds>, n: nat) -> bool {
    &&& forall|i: int| 0 <= i < rects.len() ==> (#[trigger] rects[i]).index < n
    &&& forall|i: int, j: int|
        0 <= i < j < rects.len() ==> (#[trigger] rects[i]).index != (#[trigger] rects[j]).index
}

/// The active footprints that reach past `left`, in the same order.
pub open spec fn kept_active(active: Seq<IsoBounds>, left: int) -> Seq<IsoBounds>
    decreases active.len(),
{
    if active.len() == 0 {
        Seq::empty()
    } else if active.last().right() > left {
        kept_active(active.drop_last(), left).push(active.last())
    } else {
        kept_active(active.drop_last(), left)
    }
}

/// Where bisection of `xs[lo..hi]` places `b`: behind the probed elements that
/// lie behind it.
pub open spec fn search_slot(xs: Seq<IsoBounds>, b: IsoBounds, lo: int, hi: int) -> int
    decreases hi - lo,
{
    if lo >= hi {
        lo
    } else {
        let mid = (lo + hi) / 2;
        if behind(xs[mid], b) {
            search_slot(xs, b, mid + 1, hi)
        } else {
            search_slot(xs, b, lo, mid)
        }
    }
}

/// The adjacency lists with the edge `from -> to` added.
pub open spec fn with_edge(adj: Seq<Seq<u32>>, from: u32, to: u32) -> Seq<Seq<u32>> {
    adj.update(from as int, adj[from as int].push(to))
}

/// State of the sweep: the active footprints in depth order, and the links made
/// so far.
pub struct SweepState {
    pub active: Seq<IsoBounds>,
    pub adj: Seq<Seq<u32>>,
}

/// The links that `rect` gets at the given place of the active list.
pub open spec fn link_neighbours(
    adj: Seq<Seq<u32>>,
    kept: Seq<IsoBounds>,
    slot: int,
    rect: IsoBounds,
) -> Seq<Seq<u32>> {
    let with_prev = if slot > 0 {
        with_edge(adj, kept[slot - 1].index, rect.index)
    } else {
        adj
    };
    if slot < kept.len() {
        with_edge(with_prev, rect.index, kept[slot].index)
    } else {
        with_prev
    }
}

/// One step of the sweep: what `rect` has passed is dropped; `rect` is linked
/// to its neighbours in depth and becomes active.
pub open spec fn sweep_step(state: SweepState, rect: IsoBounds) -> SweepState {
    let kept = kept_active(state.active, rect.left());
    let slot = search_slot(kept, rect, 0, kept.len() as int);
    SweepState {
        active: kept.insert(slot, rect),
        adj: link_neighbours(state.adj, kept, slot, rect),
    }
}

/// The sweep over `by_left`, in a graph of `n` nodes.
pub open spec fn sweep(by_left: Seq<IsoBounds>, n: nat) -> SweepState
    decreases by_left.len(),
{
    if by_left.len() == 0 {
        SweepState {
            active: Seq::empty(),
            adj: Seq::new(n, |u: int| Seq::<u32>::empty()),
        }
    } else {
        sweep_step(sweep(by_left.drop_last(), n), by_left.last())
    }
}

/// The graph of all links.
pub open spec fn sweep_graph(by_left: Seq<IsoBounds>) -> Seq<Seq<u32>> {
    sweep(by_left, by_left.len()).adj
}

/// Bisection ends between an element that lies behind `b` and one that does
/// not.
pub proof fn lemma_search_slot(xs: Seq<IsoBounds>, b: IsoBounds, lo: int, hi: int)
    requires
        0 <= lo <= hi <= xs.len(),
    ensures
        lo <= search_slot(xs, b, lo, hi) <= hi,
        search_slot(xs, b, lo, hi) > lo ==> behind(xs[search_slot(xs, b, lo, hi) - 1], b),
        search_slot(xs, b, lo, hi) < hi ==> !behind(xs[search_slot(xs, b, lo, hi)], b),
    decreases hi - lo,
{
    if lo < hi {
        let mid = (lo + hi) / 2;
        if behind(xs[mid], b) {
            lemma_search_slot(xs, b, mid + 1, hi);
        } else {
            lemma_search_slot(xs, b, lo, mid);
        }
    }
}

/// Exactly the members that reach past `left` are kept.
pub proof fn lemma_kept_members(active: Seq<IsoBounds>, left: int)
    ensures
        forall|r: IsoBounds| #[trigger]
            kept_active(active, left).contains(r) <==> active.contains(r) && r.right() > left,
        kept_active(active, left).len() <= active.len(),
    decreases active.len(),
{
    if active.len() > 0 {
        let rest = active.drop_last();
        lemma_kept_members(rest, left);
        assert forall|r: IsoBounds| #[trigger]
            kept_active(active, left).contains(r) <==> active.contains(r) && r.right() > left by {
            lemma_contains_pushed(rest, active.last(), r);
            lemma_contains_pushed(kept_active(rest, left), active.last(), r);
            assert(rest.push(active.last()) =~= active);
            assert(kept_active(rest, left).contains(r) <==> rest.contains(r) && r.right() > left);
        }
    }
}

pub proof fn lemma_contains_pushed(s: Seq<IsoBounds>, x: IsoBounds, r: IsoBounds)
    ensures
        s.push(x).contains(r) <==> s.contains(r) || r == x,
{
    let t = s.push(x);
    assert(t[s.len() as int] == x);
    if s.contains(r) {
        let i = choose|i: int| 0 <= i < s.len() && s[i] == r;
        assert(t[i] == r);
    }
    if t.contains(r) {
        let i = choose|i: int| 0 <= i < t.len() && t[i] == r;
        if i < s.len() {
            assert(s[i] == r);
        }
    }
}

/// Dropping a member that does not reach past `left` makes no difference.
pub proof fn lemma_kept_remove(active: Seq<IsoBounds>, left: int, pos: int)
    requires
        0 <= pos < active.len(),
        active[pos].right() <= left,
    ensures
        kept_active(active.remove(pos), left) == kept_active(active, left),
    decreases active.len(),
{
    if pos == active.len() - 1 {
        assert(active.remove(pos) =~= active.drop_last());
    } else {
        lemma_kept_remove(active.drop_last(), left, pos);
        assert(active.remove(pos).drop_last() =~= active.drop_last().remove(pos));
    }
}

/// Where every member reaches past `left`, all are kept.
pub proof fn lemma_kept_all(active: Seq<IsoBounds>, left: int)
    requires
        forall|i: int| 0 <= i < active.len() ==> (#[trigger] active[i]).right() > left,
    ensures
        kept_active(active, left) == active,
    decreases active.len(),
{
    if active.len() > 0 {
        lemma_kept_all(active.drop_last(), left);
        assert(active.drop_last().push(active.last()) =~= active);
    }
}

proof fn lemma_kept_distinct(active: Seq<IsoBounds>, left: int, n: nat)
    requires
        distinct_indices(active, n),
    ensures
        distinct_indices(kept_active(active, left), n),
    decreases active.len(),
{
    if active.len() > 0 {
        let rest = active.drop_last();
        lemma_kept_distinct(rest, left, n);
        lemma_kept_members(rest, left);
        let kept = kept_active(rest, left);
        assert forall|i: int| 0 <= i < kept.len() implies (#[trigger] kept[i]).index
            != active.last().index by {
            assert(kept.contains(kept[i]));
            let j = choose|j: int| 0 <= j < rest.len() && rest[j] == kept[i];
            assert(active[j] == kept[i]);
        }
    }
}

/// The active list of a sweep: members of what was swept, with distinct
/// indices.
pub open spec fn active_of(active: Seq<IsoBounds>, swept: Seq<IsoBounds>, n: nat) -> bool {
    &&& distinct_indices(active, n)
    &&& forall|i: int| 0 <= i < active.len() ==> swept.contains(#[trigger] active[i])
}

pub proof fn lemma_contains_inserted(s: Seq<IsoBounds>, at: int, x: IsoBounds, r: IsoBounds)
    requires
        0 <= at <= s.len(),
    ensures
        s.insert(at, x).contains(r) <==> s.contains(r) || r == x,
{
    let t = s.insert(at, x);
    assert(t[at] == x);
    if s.contains(r) {
        let i = choose|i: int| 0 <= i < s.len() && s[i] == r;
        assert(t[if i < at { i } else { i + 1 }] == r);
    }
    if t.contains(r) {
        let i = choose|i: int| 0 <= i < t.len() && t[i] == r;
        if i < at {
            assert(s[i] == r);
        } else if i > at {
            assert(s[i - 1] == r);
        }
    }
}

/// A step keeps the active list in shape, and its links join nodes.
pub proof fn lemma_step_shape(state: SweepState, swept: Seq<IsoBounds>, rect: IsoBounds, n: nat)
    requires
        state.adj.len() == n,
        targets_in_range(state.adj),
        active_of(state.active, swept, n),
        distinct_indices(swept.push(rect), n),
    ensures
        sweep_step(state, rect).adj.len() == n,
        targets_in_range(sweep_step(state, rect).adj),
        active_of(sweep_step(state, rect).active, swept.push(rect), n),
        distinct_indices(kept_active(state.active, rect.left()), n),
        forall|i: int|
            0 <= i < kept_active(state.active, rect.left()).len() ==> (
            #[trigger] kept_active(state.active, rect.left())[i]).index != rect.index,
{
    let kept = kept_active(state.active, rect.left());
    let slot = search_slot(kept, rect, 0, kept.len() as int);
    lemma_search_slot(kept, rect, 0, kept.len() as int);
    lemma_kept_members(state.active, rect.left());
    lemma_kept_distinct(state.active, rect.left(), n);
    let all = swept.push(rect);
    assert(all[swept.len() as int] == rect);
    assert forall|i: int| 0 <= i < kept.len() implies swept.contains(#[trigger] kept[i])
        && kept[i].index != rect.index by {
        assert(kept.contains(kept[i]));
        let j = choose|j: int| 0 <= j < state.active.len() && state.active[j] == kept[i];
        assert(swept.contains(state.active[j]));
        let k = choose|k: int| 0 <= k < swept.len() && swept[k] == kept[i];
        assert(all[k] == kept[i]);
    }
    let after = sweep_step(state, rect);
    assert forall|i: int| 0 <= i < after.active.len() implies all.contains(
        #[trigger] after.active[i],
    ) by {
        if i == slot {
            lemma_contains_pushed(swept, rect, rect);
        } else {
            let k = if i < slot { i } else { i - 1 };
            assert(after.active[i] == kept[k]);
            lemma_contains_pushed(swept, rect, kept[k]);
        }
    }
    assert forall|i: int, j: int| 0 <= i < j < after.active.len() implies (
    #[trigger] after.active[i]).index != (#[trigger] after.active[j]).index by {
        let a = if i < slot { i } else { i - 1 };
        let b = if j < slot { j } else { j - 1 };
        if i != slot && j != slot {
            assert(after.active[i] == kept[a] && after.active[j] == kept[b]);
        } else if i == slot {
            assert(after.active[j] == kept[b]);
        } else {
            assert(after.active[i] == kept[a]);
        }
    }
    assert forall|i: int| 0 <= i < after.active.len() implies (#[trigger] after.active[i]).index
        < n by {
        if i != slot {
            let k = if i < slot { i } else { i - 1 };
            assert(after.active[i] == kept[k]);
        }
    }
    let mid = if slot > 0 {
        with_edge(state.adj, kept[slot - 1].index, rect.index)
    } else {
        state.adj
    };
    if slot > 0 {
        lemma_with_edge_range(state.adj, kept[slot - 1].index, rect.index);
    }
    if slot < kept.len() {
        lemma_with_edge_range(mid, rect.index, kept[slot].index);
    }
}

proof fn lemma_with_edge_range(adj: Seq<Seq<u32>>, from: u32, to: u32)
    requires
        targets_in_range(adj),
        from < adj.len(),
        to < adj.len(),
    ensures
        targets_in_range(with_edge(adj, from, to)),
{
    let after = with_edge(adj, from, to);
    assert forall|u: int, k: int| 0 <= u < after.len() && 0 <= k < after[u].len() implies (
    #[trigger] after[u][k]) < after.len() by {
        if u == from && k == adj[u].len() {
        } else {
            assert(after[u][k] == adj[u][k]);
        }
    }
}

pub proof fn lemma_distinct_prefix(rects: Seq<IsoBounds>, n: nat)
    requires
        rects.len() > 0,
        distinct_indices(rects, n),
    ensures
        distinct_indices(rects.drop_last(), n),
        rects.drop_last().push(rects.last()) == rects,
{
    assert(rects.drop_last().push(rects.last()) =~= rects);
    let rest = rects.drop_last();
    assert forall|i: int, j: int| 0 <= i < j < rest.len() implies (#[trigger] rest[i]).index != (
    #[trigger] rest[j]).index by {
        assert(rest[i] == rects[i] && rest[j] == rects[j]);
    }
}

/// The sweep links nodes of the graph only.
pub proof fn lemma_sweep_shape(by_left: Seq<IsoBounds>, n: nat)
    requires
        distinct_indices(by_left, n),
    ensures
        sweep(by_left, n).adj.len() == n,
        targets_in_range(sweep(by_left, n).adj),
        active_of(sweep(by_left, n).active, by_left, n),
    decreases by_left.len(),
{
    if by_left.len() > 0 {
        lemma_distinct_prefix(by_left, n);
        lemma_sweep_shape(by_left.drop_last(), n);
        lemma_step_shape(sweep(by_left.drop_last(), n), by_left.drop_last(), by_left.last(), n);
    }
}

proof fn lemma_open_edges_with_edge(
    adj: Seq<Seq<u32>>,
    from: u32,
    to: u32,
    v: u32,
    upto: nat,
)
    requires
        from < adj.len(),
        upto <= adj.len(),
    ensures
        open_edges(with_edge(adj, from, to), Seq::empty(), v, upto) == open_edges(
            adj,
            Seq::empty(),
            v,
            upto,
        ) + if from < upto && v == to {
            1nat
        } else {
            0nat
        },
    decreases upto,
{
    if upto > 0 {
        lemma_open_edges_with_edge(adj, from, to, v, (upto - 1) as nat);
        assert(!Seq::<u32>::empty().contains((upto - 1) as u32));
        if from == upto - 1 {
            let list = adj[from as int].push(to);
            assert(list.drop_last() =~= adj[from as int]);
        }
    }
}

proof fn lemma_edge_total_with_edge(adj: Seq<Seq<u32>>, from: u32, to: u32)
    requires
        from < adj.len(),
    ensures
        edge_total(with_edge(adj, from, to)) == edge_total(adj) + 1,
    decreases adj.len(),
{
    let after = with_edge(adj, from, to);
    if from == adj.len() - 1 {
        assert(after.drop_last() =~= adj.drop_last());
    } else {
        lemma_edge_total_with_edge(adj.drop_last(), from, to);
        assert(after.drop_last() =~= with_edge(adj.drop_last(), from, to));
    }
}

proof fn lemma_empty_graph(n: nat, v: u32, upto: nat)
    requires
        upto <= n,
    ensures
        open_edges(Seq::new(n, |u: int| Seq::<u32>::empty()), Seq::empty(), v, upto) == 0,
    decreases upto,
{
    if upto > 0 {
        lemma_empty_graph(n, v, (upto - 1) as nat);
    }
}

proof fn lemma_empty_graph_total(n: nat)
    ensures
        edge_total(Seq::new(n, |u: int| Seq::<u32>::empty())) == 0,
    decreases n,
{
    if n > 0 {
        lemma_empty_graph_total((n - 1) as nat);
        assert(Seq::new(n, |u: int| Seq::<u32>::empty()).drop_last() =~= Seq::new(
            (n - 1) as nat,
            |u: int| Seq::<u32>::empty(),
        ));
    }
}

/// Each step gives a node at most one more predecessor.
pub proof fn lemma_sweep_in_degree(by_left: Seq<IsoBounds>, n: nat, v: u32)
    requires
        distinct_indices(by_left, n),
    ensures
        in_degree(sweep(by_left, n).adj, v) <= by_left.len(),
    decreases by_left.len(),
{
    if by_left.len() == 0 {
        lemma_empty_graph(n, v, n);
    } else {
        lemma_distinct_prefix(by_left, n);
        let state = sweep(by_left.drop_last(), n);
        let rect = by_left.last();
        lemma_sweep_in_degree(by_left.drop_last(), n, v);
        lemma_sweep_shape(by_left.drop_last(), n);
        lemma_step_shape(state, by_left.drop_last(), rect, n);
        let kept = kept_active(state.active, rect.left());
        let slot = search_slot(kept, rect, 0, kept.len() as int);
        lemma_search_slot(kept, rect, 0, kept.len() as int);
        if slot > 0 {
            lemma_open_edges_with_edge(state.adj, kept[slot - 1].index, rect.index, v, n);
        }
        let mid = if slot > 0 {
            with_edge(state.adj, kept[slot - 1].index, rect.index)
        } else {
            state.adj
        };
        if slot < kept.len() {
            lemma_open_edges_with_edge(mid, rect.index, kept[slot].index, v, n);
        }
    }
}

/// The sweep makes at most two links per footprint.
pub proof fn law_sweep_links_at_most_two_per_footprint(by_left: Seq<IsoBounds>, n: nat)
    requires
        distinct_indices(by_left, n),
    ensures
        edge_total(sweep(by_left, n).adj) <= 2 * by_left.len(),
    decreases by_left.len(),
{
    if by_left.len() == 0 {
        lemma_empty_graph_total(n);
    } else {
        lemma_distinct_prefix(by_left, n);
        let state = sweep(by_left.drop_last(), n);
        let rect = by_left.last();
        law_sweep_links_at_most_two_per_footprint(by_left.drop_last(), n);
        lemma_sweep_shape(by_left.drop_last(), n);
        lemma_step_shape(state, by_left.drop_last(), rect, n);
        let kept = kept_active(state.active, rect.left());
        let slot = search_slot(kept, rect, 0, kept.len() as int);
        lemma_search_slot(kept, rect, 0, kept.len() as int);
        if slot > 0 {
            lemma_edge_total_with_edge(state.adj, kept[slot - 1].index, rect.index);
        }
        let mid = if slot > 0 {
            with_edge(state.adj, kept[slot - 1].index, rect.index)
        } else {
            state.adj
        };
        if slot < kept.len() {
            lemma_edge_total_with_edge(mid, rect.index, kept[slot].index);
        }
    }
}

/// The sweep meets every sprite with its own corners, from left to right, and those
/// that begin at the same place in input order.
pub proof fn law_sweep_goes_from_left_to_right(
    bounds: Seq<IsoBounds>,
    by_left: Seq<IsoBounds>,
    i: int,
    j: int,
)
    requires
        is_sweep_order(bounds, by_left),
        0 <= i < j < by_left.len(),
    ensures
        ({
            let a = by_left[i];
            let b = by_left[j];
            let a_left = a.iso_x1 - a.iso_y2;
            let b_left = b.iso_x1 - b.iso_y2;
            &&& by_left.len() == bounds.len()
            &&& a.index < bounds.len()
            &&& a.iso_x1 == bounds[a.index as int].iso_x1
            &&& a.iso_y1 == bounds[a.index as int].iso_y1
            &&& a.iso_x2 == bounds[a.index as int].iso_x2
            &&& a.iso_y2 == bounds[a.index as int].iso_y2
            &&& a_left < b_left || (a_left == b_left && a.index < b.index)
        }),
{
}

/// Stamping numbers the sprites in input order and leaves their corners alone.
pub proof fn law_stamp_is_position(bounds: Seq<IsoBounds>, i: int)
    requires
        bounds.len() <= u32::MAX,
        0 <= i < bounds.len(),
    ensures
        stamped(bounds).len() == bounds.len(),
        stamped(bounds)[i].index == i,
        stamped(bounds)[i].iso_x1 == bounds[i].iso_x1,
        stamped(bounds)[i].iso_y1 == bounds[i].iso_y1,
        stamped(bounds)[i].iso_x2 == bounds[i].iso_x2,
        stamped(bounds)[i].iso_y2 == bounds[i].iso_y2,
{
}

/// A sprite stays active as long as its right end lies past where the sweep has
/// come to, and the active ones keep their order.
pub proof fn law_active_until_passed(active: Seq<IsoBounds>, left: int)
    ensures
        kept_active(active, left) == active.filter(|r: IsoBounds| r.iso_x2 - r.iso_y1 > left),
    decreases active.len(),
{
    reveal(Seq::filter);
    if active.len() > 0 {
        law_active_until_passed(active.drop_last(), left);
    }
}

/// In a list in depth order, the slot parts what lies behind the sprite from what
/// does not.
pub proof fn law_slot_parts_the_list(xs: Seq<IsoBounds>, b: IsoBounds, lo: int, hi: int, i: int)
    requires
        0 <= lo <= i < hi <= xs.len(),
        forall|p: int, q: int|
            0 <= p < q < xs.len() && behind(#[trigger] xs[q], b) ==> behind(#[trigger] xs[p], b),
    ensures
        behind(xs[i], b) <==> i < search_slot(xs, b, lo, hi),
    decreases hi - lo,
{
    let mid = (lo + hi) / 2;
    lemma_search_slot(xs, b, lo, hi);
    if behind(xs[mid], b) {
        if i > mid {
            law_slot_parts_the_list(xs, b, mid + 1, hi, i);
        } else {
            lemma_search_slot(xs, b, mid + 1, hi);
        }
    } else {
        if i < mid {
            law_slot_parts_the_list(xs, b, lo, mid, i);
        } else {
            lemma_search_slot(xs, b, lo, mid);
        }
    }
}

/// Whatever the list, the search goes by the middle one of what is left: the slot
/// lies past it if it lies behind the sprite, and no further than it if not.
pub proof fn law_search_goes_by_the_middle(xs: Seq<IsoBounds>, b: IsoBounds, lo: int, hi: int)
    requires
        0 <= lo < hi <= xs.len(),
    ensures
        behind(xs[(lo + hi) / 2], b) ==> (lo + hi) / 2 < search_slot(xs, b, lo, hi) <= hi,
        !behind(xs[(lo + hi) / 2], b) ==> lo <= search_slot(xs, b, lo, hi) <= (lo + hi) / 2,
        behind(xs[(lo + hi) / 2], b) ==> search_slot(xs, b, lo, hi) == search_slot(
            xs,
            b,
            (lo + hi) / 2 + 1,
            hi,
        ),
        !behind(xs[(lo + hi) / 2], b) ==> search_slot(xs, b, lo, hi) == search_slot(
            xs,
            b,
            lo,
            (lo + hi) / 2,
        ),
{
    let mid = (lo + hi) / 2;
    if behind(xs[mid], b) {
        lemma_search_slot(xs, b, mid + 1, hi);
    } else {
        lemma_search_slot(xs, b, lo, mid);
    }
}

/// A sprite that joins is linked to its two neighbours in depth and to nobody else:
/// from the one in front of which it comes, at the end of that one's links, and to
/// the one that comes in front of it.
pub proof fn law_newcomer_is_linked_to_neighbours(
    adj: Seq<Seq<u32>>,
    kept: Seq<IsoBounds>,
    slot: int,
    rect: IsoBounds,
    u: int,
)
    requires
        0 <= slot <= kept.len(),
        forall|i: int| 0 <= i < kept.len() ==> (#[trigger] kept[i]).index != rect.index,
        forall|i: int| 0 <= i < kept.len() ==> (#[trigger] kept[i]).index < adj.len(),
        rect.index < adj.len(),
        0 <= u < adj.len(),
    ensures
        ({
            let linked = link_neighbours(adj, kept, slot, rect);
            &&& linked.len() == adj.len()
            &&& slot > 0 && u == kept[slot - 1].index ==> linked[u] == adj[u].push(rect.index)
            &&& slot < kept.len() && u == rect.index ==> linked[u] == adj[u].push(kept[slot].index)
            &&& !(slot > 0 && u == kept[slot - 1].index) && !(slot < kept.len() && u == rect.index)
                ==> linked[u] == adj[u]
        }),
{
    if slot > 0 {
        assert(kept[slot - 1].index != rect.index);
    }
}

/// One step of the sweep: the newcomer takes its slot among those that are still
/// active, and the others keep their order.
pub proof fn law_step_takes_its_slot(state: SweepState, rect: IsoBounds)
    ensures
        ({
            let kept = state.active.filter(
                |r: IsoBounds| r.iso_x2 - r.iso_y1 > rect.iso_x1 - rect.iso_y2,
            );
            let slot = search_slot(kept, rect, 0, kept.len() as int);
            let next = sweep_step(state, rect);
            &&& next.active.len() == kept.len() + 1
            &&& next.active[slot] == rect
            &&& next.active.remove(slot) == kept
            &&& next.adj == link_neighbours(state.adj, kept, slot, rect)
        }),
{
    law_active_until_passed(state.active, rect.iso_x1 - rect.iso_y2);
    let kept = kept_active(state.active, rect.left());
    let slot = search_slot(kept, rect, 0, kept.len() as int);
    lemma_search_slot(kept, rect, 0, kept.len() as int);
    assert(kept.insert(slot, rect).remove(slot) =~= kept);
}

/// The sweep begins with nothing active and no link, and takes the sprites one by
/// one.
pub proof fn law_sweep_takes_sprites_in_turn(by_left: Seq<IsoBounds>, rect: IsoBounds, n: nat)
    ensures
        sweep(Seq::empty(), n).active.len() == 0,
        sweep(Seq::empty(), n).adj.len() == n,
        forall|u: int| 0 <= u < n ==> (#[trigger] sweep(Seq::empty(), n).adj[u]).len() == 0,
        sweep(by_left.push(rect), n) == sweep_step(sweep(by_left, n), rect),
        sweep_graph(by_left) == sweep(by_left, by_left.len()).adj,
{
    assert(by_left.push(rect).drop_last() =~= by_left);
}

/// Every edge counts once, and a graph without edges has none.
pub proof fn law_edges_are_counted_one_by_one(adj: Seq<Seq<u32>>, from: u32, to: u32, n: nat)
    requires
        from < adj.len(),
    ensures
        edge_total(with_edge(adj, from, to)) == edge_total(adj) + 1,
        edge_total(Seq::new(n, |u: int| Seq::<u32>::empty())) == 0,
{
    lemma_edge_total_with_edge(adj, from, to);
    lemma_empty_graph_total(n);
}

} // verus!
