//! What the iso-rectangle sorter promises of the draw order.

use vstd::prelude::*;

use crate::render::sort::graph::{
    comes_before, fifo_order_with, has_edge, is_fifo_order, is_permutation, targets_in_range,
};
use crate::render::sort::graph_laws::{
    law_acyclic_graph_is_ordered, law_fifo_order_unique, mutually_waiting, respects_edges, stuck, waits_within,
};
use crate::render::sort::iso_rect::{behind, lemma_sweep_order_distinct, IsoBounds};
use crate::render::sort::sweep::{
    active_of, distinct_indices, is_sweep_order, kept_active, lemma_contains_inserted,
    lemma_distinct_prefix, lemma_kept_members,
    lemma_search_slot, lemma_step_shape, lemma_sweep_shape, link_neighbours, search_slot, stamped,
    sweep, sweep_graph, sweep_step, swept_before, with_edge, SweepState,
};

verus! {

/// The two sprites overlap in screen x.
pub open spec fn overlaps(a: IsoBounds, b: IsoBounds) -> bool {
    a.left() < b.right() && b.left() < a.right()
}

/// Right end of the covered screen range, where a range covers at least the
/// place at which it begins.
pub open spec fn span_end(r: IsoBounds) -> int {
    if r.right() > r.left() {
        r.right()
    } else {
        r.left() + 1
    }
}

/// The two screen ranges share a place. For footprints with a positive extent
/// this is [`overlaps`].
pub open spec fn spans_meet(a: IsoBounds, b: IsoBounds) -> bool {
    a.left() < span_end(b) && b.left() < span_end(a)
}

/// Among any three sprites whose screen ranges meet, the depth relation is
/// transitive.
pub open spec fn depth_consistent(rects: Seq<IsoBounds>) -> bool {
    forall|i: int, j: int, k: int|
        #![trigger behind(rects[i], rects[j]), behind(rects[j], rects[k])]
        0 <= i < rects.len() && 0 <= j < rects.len() && 0 <= k < rects.len() && spans_meet(
            rects[i],
            rects[j],
        ) && spans_meet(rects[j], rects[k]) && spans_meet(rects[i], rects[k]) && behind(
            rects[i],
            rects[j],
        ) && behind(rects[j], rects[k]) ==> behind(rects[i], rects[k])
}

/// Of any two sprites that overlap, the one that lies behind is drawn first.
pub open spec fn draws_back_to_front(bounds: Seq<IsoBounds>, order: Seq<u32>) -> bool {
    forall|u: u32, v: u32|
        #![trigger behind(stamped(bounds)[u as int], stamped(bounds)[v as int])]
        u < bounds.len() && v < bounds.len() && overlaps(
            stamped(bounds)[u as int],
            stamped(bounds)[v as int],
        ) && behind(stamped(bounds)[u as int], stamped(bounds)[v as int]) ==> comes_before(
            order,
            u,
            v,
        )
}

spec fn edge_at(adj: Seq<Seq<u32>>, path: Seq<u32>, i: int) -> bool {
    has_edge(adj, path[i] as int, path[i + 1])
}

spec fn is_path(adj: Seq<Seq<u32>>, path: Seq<u32>, u: u32, v: u32) -> bool {
    &&& path.len() >= 2
    &&& path[0] == u
    &&& path.last() == v
    &&& forall|i: int| 0 <= i < path.len() - 1 ==> #[trigger] edge_at(adj, path, i)
}

/// Edges lead from `u` to `v`.
spec fn reaches(adj: Seq<Seq<u32>>, u: u32, v: u32) -> bool {
    exists|path: Seq<u32>| is_path(adj, path, u, v)
}

proof fn lemma_reaches_edge(adj: Seq<Seq<u32>>, u: u32, v: u32)
    requires
        has_edge(adj, u as int, v),
    ensures
        reaches(adj, u, v),
{
    let path = seq![u, v];
    assert(edge_at(adj, path, 0));
    assert(is_path(adj, path, u, v));
}

proof fn lemma_reaches_join(adj: Seq<Seq<u32>>, u: u32, v: u32, w: u32)
    requires
        reaches(adj, u, v),
        reaches(adj, v, w),
    ensures
        reaches(adj, u, w),
{
    let a = choose|path: Seq<u32>| is_path(adj, path, u, v);
    let b = choose|path: Seq<u32>| is_path(adj, path, v, w);
    let path = a.drop_last() + b;
    assert forall|i: int| 0 <= i < path.len() - 1 implies #[trigger] edge_at(adj, path, i) by {
        if i < a.len() - 1 {
            assert(edge_at(adj, a, i));
            assert(path[i] == a[i]);
            if i + 1 < a.len() - 1 {
                assert(path[i + 1] == a[i + 1]);
            } else {
                assert(path[i + 1] == b[0]);
            }
        } else {
            let j = i - (a.len() - 1);
            assert(edge_at(adj, b, j));
            assert(path[i] == b[j] && path[i + 1] == b[j + 1]);
        }
    }
    assert(path.last() == w);
    assert(is_path(adj, path, u, w));
}

proof fn lemma_reaches_more_edges(small: Seq<Seq<u32>>, large: Seq<Seq<u32>>, u: u32, v: u32)
    requires
        reaches(small, u, v),
        forall|x: u32, y: u32| #[trigger]
            has_edge(small, x as int, y) ==> has_edge(large, x as int, y),
    ensures
        reaches(large, u, v),
{
    let path = choose|path: Seq<u32>| is_path(small, path, u, v);
    assert forall|i: int| 0 <= i < path.len() - 1 implies #[trigger] edge_at(large, path, i) by {
        assert(edge_at(small, path, i));
        assert(has_edge(small, path[i] as int, path[i + 1]));
    }
    assert(is_path(large, path, u, v));
}

proof fn lemma_comes_before_join(order: Seq<u32>, u: u32, v: u32, w: u32)
    requires
        order.no_duplicates(),
        comes_before(order, u, v),
        comes_before(order, v, w),
    ensures
        comes_before(order, u, w),
{
    let (a, b) = choose|i: int, j: int|
        0 <= i < j < order.len() && #[trigger] order[i] == u && #[trigger] order[j] == v;
    let (c, d) = choose|i: int, j: int|
        0 <= i < j < order.len() && #[trigger] order[i] == v && #[trigger] order[j] == w;
    assert(b == c);
    assert(order[a] == u && order[d] == w && a < d);
}

/// An order that respects the edges respects every path.
proof fn lemma_path_respected(
    adj: Seq<Seq<u32>>,
    order: Seq<u32>,
    path: Seq<u32>,
    u: u32,
    v: u32,
)
    requires
        respects_edges(adj, order),
        order.no_duplicates(),
        is_path(adj, path, u, v),
    ensures
        comes_before(order, u, v),
    decreases path.len(),
{
    assert(edge_at(adj, path, 0));
    assert(has_edge(adj, path[0] as int, path[1]));
    if path.len() > 2 {
        let rest = path.drop_first();
        assert forall|i: int| 0 <= i < rest.len() - 1 implies #[trigger] edge_at(adj, rest, i) by {
            assert(edge_at(adj, path, i + 1));
            assert(rest[i] == path[i + 1] && rest[i + 1] == path[i + 2]);
        }
        lemma_path_respected(adj, order, rest, path[1], v);
        lemma_comes_before_join(order, u, path[1], v);
    }
}

/// An edge stands between footprints whose ranges meet, from the one behind.
spec fn edge_is_sound(s: Seq<IsoBounds>, u: u32, v: u32) -> bool {
    &&& u < s.len()
    &&& v < s.len()
    &&& behind(s[u as int], s[v as int])
    &&& spans_meet(s[u as int], s[v as int])
}

spec fn edges_are_sound(s: Seq<IsoBounds>, adj: Seq<Seq<u32>>) -> bool {
    forall|u: u32, v: u32| #[trigger] has_edge(adj, u as int, v) ==> edge_is_sound(s, u, v)
}

/// The rest: the active list is in depth order and linked through, it holds
/// all that reach past the last footprint, and of any two overlapping
/// footprints the one behind reaches the other.
spec fn swept_well(s: Seq<IsoBounds>, prefix: Seq<IsoBounds>, state: SweepState) -> bool {
    &&& edges_are_sound(s, state.adj)
    &&& forall|i: int, j: int|
        0 <= i < j < state.active.len() ==> behind(
            #[trigger] state.active[i],
            #[trigger] state.active[j],
        ) && reaches(state.adj, state.active[i].index, state.active[j].index)
    &&& forall|x: int|
        0 <= x < prefix.len() && (#[trigger] prefix[x]).right() > prefix.last().left()
            ==> state.active.contains(prefix[x])
    &&& forall|x: int, y: int|
        0 <= x < prefix.len() && 0 <= y < prefix.len() && overlaps(prefix[x], prefix[y])
            && #[trigger] behind(prefix[x], prefix[y]) ==> reaches(
            state.adj,
            prefix[x].index,
            prefix[y].index,
        )
}

/// What is kept stands in the same order as before.
proof fn lemma_kept_order(active: Seq<IsoBounds>, left: int, i: int, j: int) -> (at: (int, int))
    requires
        0 <= i < j < kept_active(active, left).len(),
    ensures
        0 <= at.0 < at.1 < active.len(),
        active[at.0] == kept_active(active, left)[i],
        active[at.1] == kept_active(active, left)[j],
    decreases active.len(),
{
    let rest = active.drop_last();
    let kept = kept_active(rest, left);
    if j < kept.len() {
        lemma_kept_order(rest, left, i, j)
    } else {
        lemma_kept_members(rest, left);
        assert(kept.contains(kept[i]));
        let a = choose|a: int| 0 <= a < rest.len() && rest[a] == kept[i];
        (a, active.len() - 1)
    }
}

proof fn lemma_has_edge_with_edge(adj: Seq<Seq<u32>>, from: u32, to: u32, u: u32, v: u32)
    requires
        from < adj.len(),
    ensures
        has_edge(with_edge(adj, from, to), u as int, v) <==> has_edge(adj, u as int, v) || (u
            == from && v == to),
{
    let after = with_edge(adj, from, to);
    if u == from {
        let list = adj[u as int];
        let longer = list.push(to);
        assert(longer[list.len() as int] == to);
        if list.contains(v) {
            let i = choose|i: int| 0 <= i < list.len() && list[i] == v;
            assert(longer[i] == v);
        }
        if longer.contains(v) {
            let i = choose|i: int| 0 <= i < longer.len() && longer[i] == v;
            if i < list.len() {
                assert(list[i] == v);
            }
        }
    }
}

/// Which edges a step adds.
proof fn lemma_linked_edges(
    adj: Seq<Seq<u32>>,
    kept: Seq<IsoBounds>,
    slot: int,
    rect: IsoBounds,
    u: u32,
    v: u32,
)
    requires
        rect.index < adj.len(),
        forall|i: int| 0 <= i < kept.len() ==> (#[trigger] kept[i]).index < adj.len(),
        0 <= slot <= kept.len(),
    ensures
        has_edge(link_neighbours(adj, kept, slot, rect), u as int, v) <==> {
            ||| has_edge(adj, u as int, v)
            ||| slot > 0 && u == kept[slot - 1].index && v == rect.index
            ||| slot < kept.len() && u == rect.index && v == kept[slot].index
        },
{
    let mid = if slot > 0 {
        with_edge(adj, kept[slot - 1].index, rect.index)
    } else {
        adj
    };
    if slot > 0 {
        lemma_has_edge_with_edge(adj, kept[slot - 1].index, rect.index, u, v);
    }
    if slot < kept.len() {
        lemma_has_edge_with_edge(mid, rect.index, kept[slot].index, u, v);
    }
}

/// The footprint in front of the kept list finds its place in depth order.
proof fn lemma_slot_is_depth_order(
    s: Seq<IsoBounds>,
    kept: Seq<IsoBounds>,
    rect: IsoBounds,
    i: int,
)
    requires
        depth_consistent(s),
        rect.index < s.len(),
        rect == s[rect.index as int],
        forall|k: int|
            0 <= k < kept.len() ==> (#[trigger] kept[k]).index < s.len() && kept[k]
                == s[kept[k].index as int] && kept[k].index != rect.index && kept[k].left()
                <= rect.left() < kept[k].right(),
        forall|a: int, b: int|
            0 <= a < b < kept.len() ==> behind(#[trigger] kept[a], #[trigger] kept[b]),
        0 <= i < kept.len(),
    ensures
        i < search_slot(kept, rect, 0, kept.len() as int) ==> behind(kept[i], rect),
        i >= search_slot(kept, rect, 0, kept.len() as int) ==> behind(rect, kept[i]),
{
    let slot = search_slot(kept, rect, 0, kept.len() as int);
    lemma_search_slot(kept, rect, 0, kept.len() as int);
    let at = kept[i];
    if i < slot - 1 {
        let prev = kept[slot - 1];
        assert(behind(kept[i], kept[slot - 1]));
        assert(behind(s[at.index as int], s[prev.index as int]) && behind(
            s[prev.index as int],
            s[rect.index as int],
        ));
    } else if i > slot {
        let next = kept[slot];
        assert(behind(kept[slot], kept[i]));
        assert(behind(rect, next));
        assert(behind(s[rect.index as int], s[next.index as int]) && behind(
            s[next.index as int],
            s[at.index as int],
        ));
    }
}

/// One step of the sweep keeps everything well.
#[verifier::rlimit(40)]
proof fn lemma_step_well(
    s: Seq<IsoBounds>,
    prefix: Seq<IsoBounds>,
    state: SweepState,
    rect: IsoBounds,
)
    requires
        depth_consistent(s),
        swept_well(s, prefix, state),
        state.adj.len() == s.len(),
        targets_in_range(state.adj),
        distinct_indices(prefix.push(rect), s.len()),
        active_of(state.active, prefix, s.len()),
        rect == s[rect.index as int],
        forall|x: int|
            0 <= x < prefix.len() ==> #[trigger] prefix[x] == s[prefix[x].index as int]
                && prefix[x].left() <= rect.left(),
        prefix.len() > 0 ==> prefix.last().left() <= rect.left(),
    ensures
        swept_well(s, prefix.push(rect), sweep_step(state, rect)),
{
    let n = s.len();
    let left = rect.left();
    let kept = kept_active(state.active, left);
    let slot = search_slot(kept, rect, 0, kept.len() as int);
    let after = sweep_step(state, rect);
    let all = prefix.push(rect);
    lemma_step_shape(state, prefix, rect, n);
    lemma_search_slot(kept, rect, 0, kept.len() as int);
    lemma_kept_members(state.active, left);
    assert(all[prefix.len() as int] == rect);
    assert forall|k: int| 0 <= k < kept.len() implies (#[trigger] kept[k]).index < s.len()
        && kept[k] == s[kept[k].index as int] && kept[k].index != rect.index && kept[k].left()
        <= rect.left() < kept[k].right() by {
        assert(kept.contains(kept[k]));
        let j = choose|j: int| 0 <= j < state.active.len() && state.active[j] == kept[k];
        assert(prefix.contains(state.active[j]));
        let x = choose|x: int| 0 <= x < prefix.len() && prefix[x] == kept[k];
        assert(prefix[x].left() <= rect.left());
    }
    assert forall|a: int, b: int| 0 <= a < b < kept.len() implies behind(
        #[trigger] kept[a],
        #[trigger] kept[b],
    ) && reaches(state.adj, kept[a].index, kept[b].index) by {
        let at = lemma_kept_order(state.active, left, a, b);
        assert(behind(state.active[at.0], state.active[at.1]));
    }
    assert forall|u: u32, v: u32| #[trigger] has_edge(state.adj, u as int, v) implies has_edge(
        after.adj,
        u as int,
        v,
    ) by {
        lemma_linked_edges(state.adj, kept, slot, rect, u, v);
    }
    lemma_step_edges_sound(s, prefix, state, rect);
    // The new footprint against each kept one.
    assert forall|k: int| 0 <= k < kept.len() implies {
        &&& k < slot ==> behind(#[trigger] kept[k], rect) && reaches(
            after.adj,
            kept[k].index,
            rect.index,
        )
        &&& k >= slot ==> behind(rect, kept[k]) && reaches(after.adj, rect.index, kept[k].index)
    } by {
        lemma_slot_is_depth_order(s, kept, rect, k);
        if k < slot {
            lemma_linked_edges(
                state.adj,
                kept,
                slot,
                rect,
                kept[slot - 1].index,
                rect.index,
            );
            lemma_reaches_edge(after.adj, kept[slot - 1].index, rect.index);
            if k < slot - 1 {
                assert(behind(kept[k], kept[slot - 1]));
                lemma_reaches_more_edges(
                    state.adj,
                    after.adj,
                    kept[k].index,
                    kept[slot - 1].index,
                );
                lemma_reaches_join(after.adj, kept[k].index, kept[slot - 1].index, rect.index);
            }
        } else {
            lemma_linked_edges(state.adj, kept, slot, rect, rect.index, kept[slot].index);
            lemma_reaches_edge(after.adj, rect.index, kept[slot].index);
            if k > slot {
                assert(behind(kept[slot], kept[k]));
                lemma_reaches_more_edges(state.adj, after.adj, kept[slot].index, kept[k].index);
                lemma_reaches_join(after.adj, rect.index, kept[slot].index, kept[k].index);
            }
        }
    }
    assert forall|i: int, j: int| 0 <= i < j < after.active.len() implies behind(
        #[trigger] after.active[i],
        #[trigger] after.active[j],
    ) && reaches(after.adj, after.active[i].index, after.active[j].index) by {
        let a = if i < slot { i } else { i - 1 };
        let b = if j < slot { j } else { j - 1 };
        if i == slot {
            assert(after.active[j] == kept[b]);
        } else if j == slot {
            assert(after.active[i] == kept[a]);
        } else {
            assert(after.active[i] == kept[a] && after.active[j] == kept[b]);
            assert(behind(kept[a], kept[b]));
            lemma_reaches_more_edges(state.adj, after.adj, kept[a].index, kept[b].index);
        }
    }
    assert forall|x: int|
        0 <= x < all.len() && (#[trigger] all[x]).right() > all.last().left() implies after.active.contains(
    all[x]) by {
        lemma_contains_inserted(kept, slot, rect, all[x]);
        if x < prefix.len() {
            assert(all[x] == prefix[x]);
            assert(state.active.contains(prefix[x]));
            assert(kept.contains(prefix[x]));
        }
    }
    assert forall|x: int, y: int|
        0 <= x < all.len() && 0 <= y < all.len() && overlaps(all[x], all[y]) && #[trigger] behind(
            all[x],
            all[y],
        ) implies reaches(after.adj, all[x].index, all[y].index) by {
        if x < prefix.len() && y < prefix.len() {
            assert(all[x] == prefix[x] && all[y] == prefix[y]);
            assert(behind(prefix[x], prefix[y]));
            lemma_reaches_more_edges(state.adj, after.adj, all[x].index, all[y].index);
        } else if x < prefix.len() {
            assert(all[x] == prefix[x]);
            assert(state.active.contains(prefix[x]));
            assert(kept.contains(prefix[x]));
            let k = choose|k: int| 0 <= k < kept.len() && kept[k] == prefix[x];
            assert(behind(kept[k], rect));
        } else if y < prefix.len() {
            assert(all[y] == prefix[y]);
            assert(state.active.contains(prefix[y]));
            assert(kept.contains(prefix[y]));
            let k = choose|k: int| 0 <= k < kept.len() && kept[k] == prefix[y];
            assert(behind(rect, kept[k]));
        }
    }
}

/// What holds of the first `t` footprints of a sweep.
proof fn lemma_prefix(bounds: Seq<IsoBounds>, by_left: Seq<IsoBounds>, t: int)
    requires
        is_sweep_order(bounds, by_left),
        0 < t <= by_left.len(),
    ensures
        ({
            let s = stamped(bounds);
            let n = bounds.len();
            let prefix = by_left.take(t - 1);
            let rect = by_left[t - 1];
            &&& by_left.take(t) == prefix.push(rect)
            &&& by_left.take(t).drop_last() == prefix
            &&& distinct_indices(prefix.push(rect), n)
            &&& sweep(prefix, n).adj.len() == n
            &&& targets_in_range(sweep(prefix, n).adj)
            &&& active_of(sweep(prefix, n).active, prefix, n)
            &&& rect == s[rect.index as int]
            &&& forall|x: int|
                0 <= x < prefix.len() ==> #[trigger] prefix[x] == s[prefix[x].index as int]
                    && prefix[x].left() <= rect.left()
        }),
{
    let s = stamped(bounds);
    let n = bounds.len();
    let prefix = by_left.take(t - 1);
    let rect = by_left[t - 1];
    let next = by_left.take(t);
    assert(next.drop_last() =~= prefix);
    assert(prefix.push(rect) =~= next);
    lemma_sweep_order_distinct(bounds, by_left);
    assert forall|a: int, b: int| 0 <= a < b < next.len() implies (#[trigger] next[a]).index != (
    #[trigger] next[b]).index by {
        assert(next[a] == by_left[a] && next[b] == by_left[b]);
    }
    assert(distinct_indices(next, n));
    lemma_distinct_prefix(next, n);
    lemma_sweep_shape(prefix, n);
    assert forall|x: int| 0 <= x < prefix.len() implies #[trigger] prefix[x]
        == s[prefix[x].index as int] && prefix[x].left() <= rect.left() by {
        assert(prefix[x] == by_left[x]);
        assert(swept_before(by_left[x], by_left[t - 1]));
    }
}

proof fn lemma_sweep_well(bounds: Seq<IsoBounds>, by_left: Seq<IsoBounds>, t: int)
    requires
        bounds.len() <= u32::MAX,
        is_sweep_order(bounds, by_left),
        depth_consistent(stamped(bounds)),
        0 <= t <= by_left.len(),
    ensures
        swept_well(
            stamped(bounds),
            by_left.take(t),
            sweep(by_left.take(t), bounds.len()),
        ),
    decreases t,
{
    let s = stamped(bounds);
    let n = bounds.len();
    if t == 0 {
        let adj = sweep(by_left.take(0), n).adj;
        assert forall|u: u32, v: u32| #[trigger] has_edge(adj, u as int, v) implies edge_is_sound(
            s,
            u,
            v,
        ) by {
            assert(adj[u as int] == Seq::<u32>::empty());
        }
    } else {
        lemma_sweep_well(bounds, by_left, t - 1);
        let prefix = by_left.take(t - 1);
        let rect = by_left[t - 1];
        lemma_prefix(bounds, by_left, t);
        lemma_step_well(s, prefix, sweep(prefix, n), rect);
    }
}

/// Among finitely many footprints, one has nothing behind it that it meets.
proof fn lemma_backmost(s: Seq<IsoBounds>, members: Seq<u32>) -> (m: int)
    requires
        depth_consistent(s),
        forall|i: int| 0 <= i < s.len() ==> (#[trigger] s[i]).index == i,
        forall|i: int| 0 <= i < members.len() ==> (#[trigger] members[i]) < s.len(),
        members.len() > 0,
    ensures
        0 <= m < members.len(),
        forall|p: int| 0 <= p < members.len() ==> !edge_is_sound(s, #[trigger] members[p], members[m]),
    decreases members.len(),
{
    let r = lemma_first_to_end(s, members);
    if members.len() == 1 {
        assert(!behind(s[members[0] as int], s[members[0] as int]));
        0
    } else {
        let rest = members.remove(r);
        assert forall|i: int| 0 <= i < rest.len() implies (#[trigger] rest[i]) < s.len() by {
            let k = if i < r { i } else { i + 1 };
            assert(rest[i] == members[k]);
        }
        let q = lemma_backmost(s, rest);
        let m = if q < r { q } else { q + 1 };
        assert(rest[q] == members[m]);
        let rr = s[members[r] as int];
        let rm = s[members[m] as int];
        if !edge_is_sound(s, members[r], members[m]) {
            assert forall|p: int| 0 <= p < members.len() implies !edge_is_sound(
                s,
                #[trigger] members[p],
                members[m],
            ) by {
                if p != r {
                    let k = if p < r { p } else { p - 1 };
                    assert(rest[k] == members[p]);
                }
            }
            m
        } else {
            assert forall|p: int| 0 <= p < members.len() implies !edge_is_sound(
                s,
                #[trigger] members[p],
                members[r],
            ) by {
                if p == r {
                    assert(!behind(rr, rr));
                } else if edge_is_sound(s, members[p], members[r]) {
                    let k = if p < r { p } else { p - 1 };
                    assert(rest[k] == members[p]);
                    let rp = s[members[p] as int];
                    // All three cover the place before the end of `r`.
                    assert(span_end(rr) <= span_end(rp));
                    assert(span_end(rr) <= span_end(rm));
                    assert(spans_meet(rp, rm));
                    assert(behind(s[members[p] as int], s[members[r] as int]) && behind(
                        s[members[r] as int],
                        s[members[m] as int],
                    ));
                    assert(edge_is_sound(s, rest[k], rest[q]));
                }
            }
            r
        }
    }
}

/// The member whose range ends first.
proof fn lemma_first_to_end(s: Seq<IsoBounds>, members: Seq<u32>) -> (r: int)
    requires
        members.len() > 0,
    ensures
        0 <= r < members.len(),
        forall|p: int|
            0 <= p < members.len() ==> span_end(s[members[r] as int]) <= span_end(
                s[(#[trigger] members[p]) as int],
            ),
    decreases members.len(),
{
    if members.len() == 1 {
        0
    } else {
        let q = lemma_first_to_end(s, members.drop_last());
        let last = members.len() - 1;
        assert forall|p: int| 0 <= p < last implies span_end(s[members[q] as int]) <= span_end(
            s[(#[trigger] members[p]) as int],
        ) by {
            assert(members.drop_last()[p] == members[p]);
        }
        if span_end(s[members[last] as int]) < span_end(s[members[q] as int]) {
            last
        } else {
            q
        }
    }
}

/// The members of `set` below `n`, listed.
spec fn listed(set: Set<u32>, n: nat) -> Seq<u32>
    decreases n,
{
    if n == 0 {
        Seq::empty()
    } else if set.contains((n - 1) as u32) {
        listed(set, (n - 1) as nat).push((n - 1) as u32)
    } else {
        listed(set, (n - 1) as nat)
    }
}

proof fn lemma_listed(set: Set<u32>, n: nat)
    requires
        n <= u32::MAX as nat + 1,
    ensures
        forall|i: int|
            0 <= i < listed(set, n).len() ==> set.contains(#[trigger] listed(set, n)[i])
                && listed(set, n)[i] < n,
        forall|v: u32| v < n && set.contains(v) ==> #[trigger] listed(set, n).contains(v),
    decreases n,
{
    if n > 0 {
        let rest = listed(set, (n - 1) as nat);
        lemma_listed(set, (n - 1) as nat);
        assert forall|v: u32| v < n && set.contains(v) implies #[trigger] listed(set, n).contains(
            v,
        ) by {
            if v < n - 1 {
                assert(rest.contains(v));
                let i = choose|i: int| 0 <= i < rest.len() && rest[i] == v;
                assert(listed(set, n)[i] == v);
            } else {
                assert(listed(set, n)[rest.len() as int] == v);
            }
        }
    }
}

/// Consistent footprints leave no node stuck.
proof fn lemma_sound_edges_unstuck(s: Seq<IsoBounds>, adj: Seq<Seq<u32>>, v: u32)
    requires
        s.len() <= u32::MAX,
        adj.len() == s.len(),
        depth_consistent(s),
        forall|i: int| 0 <= i < s.len() ==> (#[trigger] s[i]).index == i,
        edges_are_sound(s, adj),
    ensures
        !stuck(adj, v),
{
    if stuck(adj, v) {
        let set = choose|set: Set<u32>| #[trigger] mutually_waiting(adj, set) && set.contains(v);
        assert(waits_within(adj, set, v));
        let members = listed(set, s.len());
        lemma_listed(set, s.len());
        assert(members.contains(v));
        let m = lemma_backmost(s, members);
        assert(waits_within(adj, set, members[m]));
        let u = choose|u: u32|
            set.contains(u) && #[trigger] has_edge(adj, u as int, members[m]);
        assert(edge_is_sound(s, u, members[m]));
        assert(members.contains(u));
        let p = choose|p: int| 0 <= p < members.len() && members[p] == u;
        assert(edge_is_sound(s, members[p], members[m]));
    }
}

/// Where the depth relation is consistent, the sorter draws overlapping sprites
/// back to front.
///
/// Consistency cannot be dropped: see [`law_inconsistent_depth_has_no_order`].
/// [`law_disjoint_footprints_are_consistent`] and
/// [`law_equal_squares_are_consistent`] say where it holds.
pub proof fn law_sorter_draws_back_to_front(
    bounds: Seq<IsoBounds>,
    by_left: Seq<IsoBounds>,
    order: Seq<u32>,
)
    requires
        bounds.len() <= u32::MAX,
        depth_consistent(stamped(bounds)),
        is_sweep_order(bounds, by_left),
        is_fifo_order(sweep_graph(by_left), order),
    ensures
        draws_back_to_front(bounds, order),
{
    let s = stamped(bounds);
    let n = bounds.len();
    let adj = sweep_graph(by_left);
    assert(by_left.take(n as int) =~= by_left);
    lemma_sweep_well(bounds, by_left, n as int);
    lemma_sweep_order_distinct(bounds, by_left);
    lemma_sweep_shape(by_left, n);
    assert forall|v: u32| v < adj.len() implies !#[trigger] stuck(adj, v) by {
        lemma_sound_edges_unstuck(s, adj, v);
    }
    law_acyclic_graph_is_ordered(adj, order);
    assert(is_permutation(order, n)) by {
        let (k, moments) = choose|k: nat, moments: Seq<(int, int)>| #[trigger]
            fifo_order_with(adj, order, k, moments);
    }
    assert forall|u: u32, v: u32|
        #![trigger behind(stamped(bounds)[u as int], stamped(bounds)[v as int])]
        u < bounds.len() && v < bounds.len() && overlaps(
            stamped(bounds)[u as int],
            stamped(bounds)[v as int],
        ) && behind(
            stamped(bounds)[u as int],
            stamped(bounds)[v as int],
        ) implies comes_before(order, u, v) by {
        let x = lemma_swept(bounds, by_left, u);
        let y = lemma_swept(bounds, by_left, v);
        assert(behind(by_left[x], by_left[y]));
        let path = choose|path: Seq<u32>| is_path(adj, path, u, v);
        lemma_path_respected(adj, order, path, u, v);
    }
}

/// Distinct numbers below `n`, `n` of them, are all numbers below `n`.
proof fn lemma_all_numbers(f: Seq<u32>, n: nat, v: u32)
    requires
        f.len() == n,
        f.no_duplicates(),
        forall|i: int| 0 <= i < n ==> (#[trigger] f[i]) < n,
        v < n,
    ensures
        f.contains(v),
    decreases n,
{
    let last = n - 1;
    if f.contains(last as u32) {
        let p = choose|p: int| 0 <= p < n && f[p] == last as u32;
        if v != last {
            let rest = f.remove(p);
            assert forall|i: int| 0 <= i < rest.len() implies (#[trigger] rest[i]) < n - 1 by {
                let k = if i < p { i } else { i + 1 };
                assert(rest[i] == f[k]);
                assert(f[k] != f[p]);
            }
            lemma_all_numbers(rest, (n - 1) as nat, v);
            let i = choose|i: int| 0 <= i < rest.len() && rest[i] == v;
            assert(f[if i < p { i } else { i + 1 }] == v);
        }
    } else {
        // n distinct numbers below n - 1: too many.
        let rest = f.drop_last();
        assert forall|i: int| 0 <= i < n implies (#[trigger] f[i]) < last by {
            assert(f.contains(f[i]));
        }
        if n == 1 {
            assert(f[0] < last);
        } else {
            lemma_all_numbers(rest, (n - 1) as nat, f[last]);
            let i = choose|i: int| 0 <= i < rest.len() && rest[i] == f[last];
            assert(f[i] == f[last]);
        }
    }
}

/// Every sprite is swept.
proof fn lemma_swept(bounds: Seq<IsoBounds>, by_left: Seq<IsoBounds>, u: u32) -> (x: int)
    requires
        is_sweep_order(bounds, by_left),
        u < bounds.len(),
    ensures
        0 <= x < by_left.len(),
        by_left[x] == stamped(bounds)[u as int],
        by_left[x].index == u,
{
    lemma_sweep_order_distinct(bounds, by_left);
    let f = Seq::new(by_left.len(), |i: int| by_left[i].index);
    assert forall|i: int, j: int| 0 <= i < f.len() && 0 <= j < f.len() && i != j implies f[i]
        != f[j] by {
        assert(by_left[i].index != by_left[j].index);
    }
    assert forall|i: int| 0 <= i < f.len() implies (#[trigger] f[i]) < f.len() by {
        assert(by_left[i].index < by_left.len());
    }
    lemma_all_numbers(f, f.len(), u);
    let x = choose|x: int| 0 <= x < f.len() && f[x] == u;
    assert(by_left[x].index == u);
    x
}

/// The order of the sweep is determined by the bounds.
pub proof fn law_sweep_order_unique(bounds: Seq<IsoBounds>, a: Seq<IsoBounds>, b: Seq<IsoBounds>)
    requires
        is_sweep_order(bounds, a),
        is_sweep_order(bounds, b),
    ensures
        a == b,
{
    lemma_sweep_orders_agree(bounds, a, b, a.len() as int);
    assert(a =~= b);
}

proof fn lemma_sweep_orders_agree(
    bounds: Seq<IsoBounds>,
    a: Seq<IsoBounds>,
    b: Seq<IsoBounds>,
    i: int,
)
    requires
        is_sweep_order(bounds, a),
        is_sweep_order(bounds, b),
        0 <= i <= a.len(),
    ensures
        forall|j: int| 0 <= j < i ==> #[trigger] a[j] == b[j],
    decreases i,
{
    if i > 0 {
        lemma_sweep_orders_agree(bounds, a, b, i - 1);
        let p = lemma_swept(bounds, b, a[i - 1].index);
        let q = lemma_swept(bounds, a, b[i - 1].index);
        assert(b[p] == a[i - 1]);
        assert(a[q] == b[i - 1]);
        if p < i - 1 {
            assert(a[p] == b[p]);
            assert(swept_before(a[p], a[i - 1]));
        }
        if q < i - 1 {
            assert(a[q] == b[q]);
            assert(swept_before(b[q], b[i - 1]));
        }
        if p > i - 1 {
            assert(swept_before(b[i - 1], b[p]));
            if q > i - 1 {
                assert(swept_before(a[i - 1], a[q]));
            }
        }
    }
}

/// Three overlapping sprites of which each lies behind the next: no order
/// draws all of them back to front.
pub proof fn law_inconsistent_depth_has_no_order(
    bounds: Seq<IsoBounds>,
    order: Seq<u32>,
    u: u32,
    v: u32,
    w: u32,
)
    requires
        is_permutation(order, bounds.len()),
        u < bounds.len() && v < bounds.len() && w < bounds.len(),
        overlaps(stamped(bounds)[u as int], stamped(bounds)[v as int]),
        overlaps(stamped(bounds)[v as int], stamped(bounds)[w as int]),
        overlaps(stamped(bounds)[w as int], stamped(bounds)[u as int]),
        behind(stamped(bounds)[u as int], stamped(bounds)[v as int]),
        behind(stamped(bounds)[v as int], stamped(bounds)[w as int]),
        behind(stamped(bounds)[w as int], stamped(bounds)[u as int]),
    ensures
        !draws_back_to_front(bounds, order),
{
    if draws_back_to_front(bounds, order) {
        lemma_comes_before_join(order, u, v, w);
        lemma_comes_before_join(order, u, w, u);
    }
}

/// Edges of a step join footprints whose ranges meet, also where depths
/// contradict one another.
proof fn lemma_step_edges_sound(
    s: Seq<IsoBounds>,
    prefix: Seq<IsoBounds>,
    state: SweepState,
    rect: IsoBounds,
)
    requires
        edges_are_sound(s, state.adj),
        state.adj.len() == s.len(),
        targets_in_range(state.adj),
        distinct_indices(prefix.push(rect), s.len()),
        active_of(state.active, prefix, s.len()),
        rect == s[rect.index as int],
        forall|x: int|
            0 <= x < prefix.len() ==> #[trigger] prefix[x] == s[prefix[x].index as int]
                && prefix[x].left() <= rect.left(),
    ensures
        edges_are_sound(s, sweep_step(state, rect).adj),
{
    let left = rect.left();
    let kept = kept_active(state.active, left);
    let slot = search_slot(kept, rect, 0, kept.len() as int);
    let after = sweep_step(state, rect);
    lemma_step_shape(state, prefix, rect, s.len());
    lemma_search_slot(kept, rect, 0, kept.len() as int);
    lemma_kept_members(state.active, left);
    assert(prefix.push(rect)[prefix.len() as int] == rect);
    assert forall|k: int| 0 <= k < kept.len() implies (#[trigger] kept[k]).index < s.len()
        && kept[k] == s[kept[k].index as int] && kept[k].left() <= left < kept[k].right() by {
        assert(kept.contains(kept[k]));
        let j = choose|j: int| 0 <= j < state.active.len() && state.active[j] == kept[k];
        assert(prefix.contains(state.active[j]));
        let x = choose|x: int| 0 <= x < prefix.len() && prefix[x] == kept[k];
        assert(prefix[x].left() <= left);
    }
    assert forall|u: u32, v: u32| #[trigger] has_edge(after.adj, u as int, v) implies edge_is_sound(
        s,
        u,
        v,
    ) by {
        lemma_linked_edges(state.adj, kept, slot, rect, u, v);
        if !has_edge(state.adj, u as int, v) {
            if slot > 0 && u == kept[slot - 1].index && v == rect.index {
                assert(kept[slot - 1].left() <= left < kept[slot - 1].right());
            } else {
                assert(kept[slot].left() <= left < kept[slot].right());
                assert(behind(rect, kept[slot]));
            }
        }
    }
}

proof fn lemma_sweep_edges_sound(bounds: Seq<IsoBounds>, by_left: Seq<IsoBounds>, t: int)
    requires
        bounds.len() <= u32::MAX,
        is_sweep_order(bounds, by_left),
        0 <= t <= by_left.len(),
    ensures
        edges_are_sound(stamped(bounds), sweep(by_left.take(t), bounds.len()).adj),
    decreases t,
{
    let s = stamped(bounds);
    let n = bounds.len();
    if t == 0 {
        let adj = sweep(by_left.take(0), n).adj;
        assert forall|u: u32, v: u32| #[trigger] has_edge(adj, u as int, v) implies edge_is_sound(
            s,
            u,
            v,
        ) by {
            assert(adj[u as int] == Seq::<u32>::empty());
        }
    } else {
        lemma_sweep_edges_sound(bounds, by_left, t - 1);
        let prefix = by_left.take(t - 1);
        let rect = by_left[t - 1];
        lemma_prefix(bounds, by_left, t);
        lemma_step_edges_sound(s, prefix, sweep(prefix, n), rect);
    }
}

/// Whatever the depths, the sweep links only sprites that share a place on the
/// screen's x axis, from the one behind to the one in front.
pub proof fn law_links_join_overlapping_sprites(
    bounds: Seq<IsoBounds>,
    by_left: Seq<IsoBounds>,
    u: u32,
    v: u32,
)
    requires
        bounds.len() <= u32::MAX,
        is_sweep_order(bounds, by_left),
        has_edge(sweep_graph(by_left), u as int, v),
    ensures
        u < bounds.len(),
        v < bounds.len(),
        behind(stamped(bounds)[u as int], stamped(bounds)[v as int]),
        spans_meet(stamped(bounds)[u as int], stamped(bounds)[v as int]),
{
    lemma_sweep_edges_sound(bounds, by_left, by_left.len() as int);
    assert(by_left.take(by_left.len() as int) =~= by_left);
}

/// Of two different sprites exactly one lies behind the other.
pub proof fn law_one_of_two_lies_behind(a: IsoBounds, b: IsoBounds)
    requires
        a.index != b.index,
    ensures
        behind(a, b) <==> !behind(b, a),
{
}

/// The two footprints have the same corners.
pub open spec fn same_footprint(a: IsoBounds, b: IsoBounds) -> bool {
    a.iso_x1 == b.iso_x1 && a.iso_y1 == b.iso_y1 && a.iso_x2 == b.iso_x2 && a.iso_y2 == b.iso_y2
}

/// Of two sprites with the same footprint, the one with the lower index lies
/// behind.
pub proof fn law_ties_go_by_index(a: IsoBounds, b: IsoBounds)
    requires
        same_footprint(a, b),
    ensures
        behind(a, b) <==> a.index < b.index,
{
}

/// The sort is stable: sprites with the same footprint are drawn in input
/// order. The footprint covers some of the screen, so that the two overlap, and
/// the depth relation is consistent.
pub proof fn law_equal_footprints_keep_input_order(
    bounds: Seq<IsoBounds>,
    by_left: Seq<IsoBounds>,
    order: Seq<u32>,
    u: u32,
    v: u32,
)
    requires
        bounds.len() <= u32::MAX,
        depth_consistent(stamped(bounds)),
        is_sweep_order(bounds, by_left),
        is_fifo_order(sweep_graph(by_left), order),
        u < v < bounds.len(),
        same_footprint(bounds[u as int], bounds[v as int]),
        bounds[u as int].left() < bounds[u as int].right(),
    ensures
        comes_before(order, u, v),
{
    law_sorter_draws_back_to_front(bounds, by_left, order);
    law_ties_go_by_index(stamped(bounds)[u as int], stamped(bounds)[v as int]);
    assert(overlaps(stamped(bounds)[u as int], stamped(bounds)[v as int]));
}

/// The order depends on the corners alone: neither what a sorter did before nor
/// the indices that the caller hands in have an influence.
pub proof fn law_order_depends_on_corners_alone(
    a: Seq<IsoBounds>,
    b: Seq<IsoBounds>,
    a_by_left: Seq<IsoBounds>,
    b_by_left: Seq<IsoBounds>,
    a_order: Seq<u32>,
    b_order: Seq<u32>,
)
    requires
        a.len() == b.len() <= u32::MAX,
        forall|i: int| 0 <= i < a.len() ==> same_footprint(#[trigger] a[i], b[i]),
        is_sweep_order(a, a_by_left),
        is_fifo_order(sweep_graph(a_by_left), a_order),
        is_sweep_order(b, b_by_left),
        is_fifo_order(sweep_graph(b_by_left), b_order),
    ensures
        a_order == b_order,
{
    assert(stamped(a) =~= stamped(b)) by {
        assert forall|i: int| 0 <= i < a.len() implies #[trigger] stamped(a)[i] == stamped(
            b,
        )[i] by {
            assert(same_footprint(a[i], b[i]));
        }
    }
    assert(is_sweep_order(a, b_by_left));
    law_sweep_order_unique(a, a_by_left, b_by_left);
    lemma_sweep_order_distinct(a, a_by_left);
    lemma_sweep_shape(a_by_left, a.len());
    law_fifo_order_unique(sweep_graph(a_by_left), a_order, b_order);
}

/// A footprint has a positive size.
pub open spec fn has_extent(r: IsoBounds) -> bool {
    r.iso_x1 < r.iso_x2 && r.iso_y1 < r.iso_y2
}

/// The two footprints share no area.
pub open spec fn disjoint(a: IsoBounds, b: IsoBounds) -> bool {
    a.iso_x2 <= b.iso_x1 || b.iso_x2 <= a.iso_x1 || a.iso_y2 <= b.iso_y1 || b.iso_y2 <= a.iso_y1
}

/// Where the line `x - y = d / 2` enters and leaves a footprint, in half units
/// of x.
spec fn enters(r: IsoBounds, d: int) -> int {
    if 2 * r.iso_x1 >= 2 * r.iso_y1 + d {
        2 * r.iso_x1
    } else {
        2 * r.iso_y1 + d
    }
}

spec fn leaves(r: IsoBounds, d: int) -> int {
    if 2 * r.iso_x2 <= 2 * r.iso_y2 + d {
        2 * r.iso_x2
    } else {
        2 * r.iso_y2 + d
    }
}

/// On a line of sight through both, the footprint behind is left before the
/// other is entered.
proof fn lemma_behind_along_line(a: IsoBounds, b: IsoBounds, d: int)
    requires
        has_extent(a),
        has_extent(b),
        disjoint(a, b),
        2 * a.left() < d < 2 * a.right(),
        2 * b.left() < d < 2 * b.right(),
    ensures
        behind(a, b) <==> leaves(a, d) <= enters(b, d),
        enters(a, d) < leaves(a, d),
        enters(b, d) < leaves(b, d),
{
}

/// Of two overlapping sprites with separate footprints, the one behind is the
/// one that ends before the other begins, in x or in y.
pub proof fn law_behind_is_separation(a: IsoBounds, b: IsoBounds)
    requires
        has_extent(a),
        has_extent(b),
        disjoint(a, b),
        overlaps(a, b),
    ensures
        behind(a, b) <==> a.iso_x2 <= b.iso_x1 || a.iso_y2 <= b.iso_y1,
{
}

/// For footprints with a positive extent, sharing a place is overlapping.
pub proof fn law_spans_meet_is_overlap(a: IsoBounds, b: IsoBounds)
    requires
        has_extent(a),
        has_extent(b),
    ensures
        spans_meet(a, b) <==> overlaps(a, b),
{
}

/// Sprites whose footprints do not share area never occlude one another in a
/// circle.
pub proof fn law_disjoint_footprints_are_consistent(rects: Seq<IsoBounds>)
    requires
        forall|i: int| 0 <= i < rects.len() ==> has_extent(#[trigger] rects[i]),
        forall|i: int, j: int|
            0 <= i < j < rects.len() ==> disjoint(#[trigger] rects[i], #[trigger] rects[j]),
        forall|i: int, j: int|
            0 <= i < j < rects.len() ==> (#[trigger] rects[i]).index != (#[trigger] rects[j]).index,
    ensures
        depth_consistent(rects),
{
    assert forall|i: int, j: int, k: int|
        #![trigger behind(rects[i], rects[j]), behind(rects[j], rects[k])]
        0 <= i < rects.len() && 0 <= j < rects.len() && 0 <= k < rects.len() && spans_meet(
            rects[i],
            rects[j],
        ) && spans_meet(rects[j], rects[k]) && spans_meet(rects[i], rects[k]) && behind(
            rects[i],
            rects[j],
        ) && behind(rects[j], rects[k]) implies behind(rects[i], rects[k]) by {
        let a = rects[i];
        let b = rects[j];
        let c = rects[k];
        assert(i != j && j != k && i != k);
        assert(disjoint(a, b) && disjoint(b, c) && disjoint(a, c));
        assert(has_extent(a) && has_extent(b) && has_extent(c));
        let ab = if a.left() >= b.left() { a.left() } else { b.left() };
        let place = if ab >= c.left() { ab } else { c.left() };
        let d = 2 * place + 1;
        lemma_behind_along_line(a, b, d);
        lemma_behind_along_line(b, c, d);
        lemma_behind_along_line(a, c, d);
    }
}

/// Square footprints of one size never occlude one another in a circle, also
/// where they share area.
pub proof fn law_equal_squares_are_consistent(rects: Seq<IsoBounds>, size: int)
    requires
        forall|i: int|
            0 <= i < rects.len() ==> (#[trigger] rects[i]).iso_x2 - rects[i].iso_x1 == size
                && rects[i].iso_y2 - rects[i].iso_y1 == size,
    ensures
        depth_consistent(rects),
{
    assert forall|i: int, j: int, k: int|
        #![trigger behind(rects[i], rects[j]), behind(rects[j], rects[k])]
        0 <= i < rects.len() && 0 <= j < rects.len() && 0 <= k < rects.len() && spans_meet(
            rects[i],
            rects[j],
        ) && spans_meet(rects[j], rects[k]) && spans_meet(rects[i], rects[k]) && behind(
            rects[i],
            rects[j],
        ) && behind(rects[j], rects[k]) implies behind(rects[i], rects[k]) by {
        let a = rects[i];
        let b = rects[j];
        let c = rects[k];
        assert(a.iso_x2 - a.iso_x1 == size && b.iso_x2 - b.iso_x1 == size && c.iso_x2 - c.iso_x1
            == size);
        assert(behind(a, b) <==> a.iso_x2 + a.iso_y2 < b.iso_x2 + b.iso_y2 || (a.iso_x2
            + a.iso_y2 == b.iso_x2 + b.iso_y2 && a.index < b.index));
        assert(behind(b, c) <==> b.iso_x2 + b.iso_y2 < c.iso_x2 + c.iso_y2 || (b.iso_x2
            + b.iso_y2 == c.iso_x2 + c.iso_y2 && b.index < c.index));
        assert(behind(a, c) <==> a.iso_x2 + a.iso_y2 < c.iso_x2 + c.iso_y2 || (a.iso_x2
            + a.iso_y2 == c.iso_x2 + c.iso_y2 && a.index < c.index));
    }
}

/// Which of two sprites lies behind goes by four differences of their corners,
/// whether their footprints share area or not: each sprite is taken at the axis
/// on which it lies farthest in front of the other, and the one that lies less
/// far in front is behind. Where they are even, it is the one of the smaller
/// number.
pub proof fn law_less_far_in_front_is_behind(a: IsoBounds, b: IsoBounds)
    ensures
        ({
            let ax = a.iso_x1 - b.iso_x2;
            let ay = a.iso_y1 - b.iso_y2;
            let bx = b.iso_x1 - a.iso_x2;
            let by = b.iso_y1 - a.iso_y2;
            // Both of a's differences are below one of b's.
            &&& (ax < bx || ax < by) && (ay < bx || ay < by) ==> behind(a, b) && !behind(b, a)
            // One of a's differences is above both of b's.
            &&& (ax > bx && ax > by) || (ay > bx && ay > by) ==> behind(b, a) && !behind(a, b)
            // The larger ones are even.
            &&& (ax >= ay && bx >= by && ax == bx) || (ax >= ay && by >= bx && ax == by) || (ay
                >= ax && bx >= by && ay == bx) || (ay >= ax && by >= bx && ay == by) ==> {
                &&& behind(a, b) <==> a.index < b.index
                &&& behind(b, a) <==> b.index < a.index
            }
        }),
{
}

/// Of two squares, wherever they lie and whatever their sizes, the one whose
/// middle is farther back lies behind. `x1 + x2 + y1 + y2` is four times how far
/// to the front the middle lies.
pub proof fn law_square_with_farther_middle_is_behind(a: IsoBounds, b: IsoBounds)
    requires
        a.iso_x2 - a.iso_x1 == a.iso_y2 - a.iso_y1,
        b.iso_x2 - b.iso_x1 == b.iso_y2 - b.iso_y1,
        a.iso_x1 + a.iso_x2 + a.iso_y1 + a.iso_y2 < b.iso_x1 + b.iso_x2 + b.iso_y1 + b.iso_y2,
    ensures
        behind(a, b),
        !behind(b, a),
{
}

/// A footprint inside another lies behind it where it keeps to the back corner,
/// and in front of it where it keeps to the front corner.
pub proof fn law_nested_footprint(inner: IsoBounds, outer: IsoBounds)
    requires
        inner.iso_x2 - inner.iso_x1 < outer.iso_x2 - outer.iso_x1,
        inner.iso_y2 - inner.iso_y1 < outer.iso_y2 - outer.iso_y1,
        inner.iso_x2 - inner.iso_x1 < outer.iso_y2 - outer.iso_y1,
        inner.iso_y2 - inner.iso_y1 < outer.iso_x2 - outer.iso_x1,
    ensures
        inner.iso_x1 == outer.iso_x1 && inner.iso_y1 == outer.iso_y1 ==> behind(inner, outer),
        inner.iso_x2 == outer.iso_x2 && inner.iso_y2 == outer.iso_y2 ==> behind(outer, inner),
{
}

/// Moving both sprites by the same way changes nothing, nor does it matter
/// which of the two axes is called x.
pub proof fn law_depth_is_relative(
    a: IsoBounds,
    b: IsoBounds,
    c: IsoBounds,
    d: IsoBounds,
    dx: int,
    dy: int,
)
    requires
        c.index == a.index,
        d.index == b.index,
    ensures
        c.iso_x1 == a.iso_x1 + dx && c.iso_x2 == a.iso_x2 + dx && c.iso_y1 == a.iso_y1 + dy
            && c.iso_y2 == a.iso_y2 + dy && d.iso_x1 == b.iso_x1 + dx && d.iso_x2 == b.iso_x2 + dx
            && d.iso_y1 == b.iso_y1 + dy && d.iso_y2 == b.iso_y2 + dy ==> (behind(a, b) <==> behind(
            c,
            d,
        )),
        c.iso_x1 == a.iso_y1 && c.iso_x2 == a.iso_y2 && c.iso_y1 == a.iso_x1 && c.iso_y2 == a.iso_x2
            && d.iso_x1 == b.iso_y1 && d.iso_x2 == b.iso_y2 && d.iso_y1 == b.iso_x1 && d.iso_y2
            == b.iso_x2 ==> (behind(a, b) <==> behind(c, d)),
{
}

/// The screen range of a sprite is what its footprint covers: a place `(x, y)`
/// is drawn at `x - y`, the range holds every place of the footprint, and both
/// its ends are corners of it.
pub proof fn law_span_covers_footprint(r: IsoBounds, x: int, y: int)
    requires
        r.iso_x1 <= x <= r.iso_x2,
        r.iso_y1 <= y <= r.iso_y2,
    ensures
        r.left() <= x - y <= r.right(),
        r.left() == r.iso_x1 - r.iso_y2,
        r.right() == r.iso_x2 - r.iso_y1,
{
}

/// Squares of any sizes never occlude one another in a circle, nested or not.
pub proof fn law_squares_are_consistent(rects: Seq<IsoBounds>)
    requires
        forall|i: int|
            0 <= i < rects.len() ==> (#[trigger] rects[i]).iso_x2 - rects[i].iso_x1
                == rects[i].iso_y2 - rects[i].iso_y1,
    ensures
        depth_consistent(rects),
{
    assert forall|i: int, j: int, k: int|
        #![trigger behind(rects[i], rects[j]), behind(rects[j], rects[k])]
        0 <= i < rects.len() && 0 <= j < rects.len() && 0 <= k < rects.len() && spans_meet(
            rects[i],
            rects[j],
        ) && spans_meet(rects[j], rects[k]) && spans_meet(rects[i], rects[k]) && behind(
            rects[i],
            rects[j],
        ) && behind(rects[j], rects[k]) implies behind(rects[i], rects[k]) by {
        lemma_squares_go_by_middles(rects[i], rects[j]);
        lemma_squares_go_by_middles(rects[j], rects[k]);
        lemma_squares_go_by_middles(rects[i], rects[k]);
    }
}

proof fn lemma_squares_go_by_middles(a: IsoBounds, b: IsoBounds)
    requires
        a.iso_x2 - a.iso_x1 == a.iso_y2 - a.iso_y1,
        b.iso_x2 - b.iso_x1 == b.iso_y2 - b.iso_y1,
    ensures
        ({
            let a_middle = a.iso_x1 + a.iso_x2 + a.iso_y1 + a.iso_y2;
            let b_middle = b.iso_x1 + b.iso_x2 + b.iso_y1 + b.iso_y2;
            behind(a, b) <==> a_middle < b_middle || (a_middle == b_middle && a.index < b.index)
        }),
{
}

/// Of two squares that overlap on the screen, wherever they lie and whatever their
/// sizes, the sorter puts the one whose middle is farther back first; if both are
/// equally far back, the one that comes first in the input.
pub proof fn law_squares_are_drawn_by_their_middles(
    bounds: Seq<IsoBounds>,
    by_left: Seq<IsoBounds>,
    order: Seq<u32>,
    u: u32,
    v: u32,
)
    requires
        bounds.len() <= u32::MAX,
        forall|i: int|
            0 <= i < bounds.len() ==> (#[trigger] bounds[i]).iso_x2 - bounds[i].iso_x1
                == bounds[i].iso_y2 - bounds[i].iso_y1,
        is_sweep_order(bounds, by_left),
        is_fifo_order(sweep_graph(by_left), order),
        u < bounds.len(),
        v < bounds.len(),
        ({
            let a = bounds[u as int];
            let b = bounds[v as int];
            let a_middle = a.iso_x1 + a.iso_x2 + a.iso_y1 + a.iso_y2;
            let b_middle = b.iso_x1 + b.iso_x2 + b.iso_y1 + b.iso_y2;
            &&& a.iso_x1 - a.iso_y2 < b.iso_x2 - b.iso_y1
            &&& b.iso_x1 - b.iso_y2 < a.iso_x2 - a.iso_y1
            &&& a_middle < b_middle || (a_middle == b_middle && u < v)
        }),
    ensures
        comes_before(order, u, v),
{
    let s = stamped(bounds);
    assert forall|i: int| 0 <= i < s.len() implies (#[trigger] s[i]).iso_x2 - s[i].iso_x1
        == s[i].iso_y2 - s[i].iso_y1 by {
        assert(bounds[i].iso_x2 - bounds[i].iso_x1 == bounds[i].iso_y2 - bounds[i].iso_y1);
    }
    law_squares_are_consistent(s);
    law_sorter_draws_back_to_front(bounds, by_left, order);
    assert(s[u as int].iso_x2 - s[u as int].iso_x1 == s[u as int].iso_y2 - s[u as int].iso_y1);
    assert(s[v as int].iso_x2 - s[v as int].iso_x1 == s[v as int].iso_y2 - s[v as int].iso_y1);
    lemma_squares_go_by_middles(s[u as int], s[v as int]);
    assert(behind(s[u as int], s[v as int]));
}

} // verus!
