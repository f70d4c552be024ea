//! Footprints and the iso-rectangle sorter.
//!
//! In an isometric scene the depth of two sprites can only be compared where
//! they overlap on screen. Sorting by one coordinate turns that partial
//! relation into a total one and goes wrong for large footprints. The sorter
//! works in three steps instead:
//!
//! 1. Each footprint covers a range `[iso_left, iso_right)` of the screen's x
//!    axis, in logic units.
//! 2. A sweep from left to right keeps the footprints that reach past the
//!    current one, in depth order, and links each new footprint to its two
//!    neighbours in that list.
//! 3. A topological sort of the links gives the draw order.
//!
//! Coordinates are integers: logic units in whatever fixed-point scale the
//! caller uses, the same for all footprints.

use vstd::prelude::*;

use crate::render::sort::depth_laws::{
    depth_consistent, draws_back_to_front, law_sorter_draws_back_to_front,
};
use crate::render::sort::graph::{in_degree, is_fifo_order, topological_sort, Graph};
use crate::render::sort::sweep::{
    distinct_indices, is_sweep_order, kept_active, lemma_contains_inserted, lemma_distinct_prefix,
    lemma_kept_all,
    lemma_kept_remove, lemma_search_slot, lemma_step_shape, lemma_sweep_in_degree,
    lemma_sweep_shape, search_slot, stamped, sweep, sweep_graph, swept_before,
};
use crate::render::sort::ISorter;

verus! {

/// Footprint of a sprite in logic space.
#[derive(Clone, Copy, Debug, PartialEq, Eq, Structural)]
pub struct IsoBounds {
    /// Back corner.
    pub iso_x1: i32,
    pub iso_y1: i32,
    /// Front corner.
    pub iso_x2: i32,
    pub iso_y2: i32,
    /// Position of the sprite in the input; set by the sorter.
    pub index: u32,
}

impl IsoBounds {
    /// Left end of the covered screen range.
    pub open spec fn left(&self) -> int {
        self.iso_x1 - self.iso_y2
    }

    /// Right end of the covered screen range.
    pub open spec fn right(&self) -> int {
        self.iso_x2 - self.iso_y1
    }

    /// Bounds of a sprite with the given front corner and footprint size.
    pub fn from_grid(grid: (i32, i32), grid_size: (i32, i32)) -> (b: Self)
        requires
            i32::MIN <= grid.0 - grid_size.0 <= i32::MAX,
            i32::MIN <= grid.1 - grid_size.1 <= i32::MAX,
        ensures
            b.iso_x1 == grid.0 - grid_size.0,
            b.iso_y1 == grid.1 - grid_size.1,
            b.iso_x2 == grid.0,
            b.iso_y2 == grid.1,
            b.index == 0,
    {
        IsoBounds {
            iso_x1: grid.0 - grid_size.0,
            iso_y1: grid.1 - grid_size.1,
            iso_x2: grid.0,
            iso_y2: grid.1,
            index: 0,
        }
    }

    pub fn iso_left(&self) -> (left: i64)
        ensures
            left == self.left(),
    {
        self.iso_x1 as i64 - self.iso_y2 as i64
    }

    pub fn iso_right(&self) -> (right: i64)
        ensures
            right == self.right(),
    {
        self.iso_x2 as i64 - self.iso_y1 as i64
    }
}

/// What has a footprint.
pub trait IsoSortable {
    /// The footprint.
    spec fn footprint(&self) -> IsoBounds;

    /// The corners of the footprint can be represented.
    spec fn footprint_fits(&self) -> bool;

    fn iso_bounds(&self) -> (b: IsoBounds)
        requires
            self.footprint_fits(),
        ensures
            b == self.footprint(),
    ;
}

/// How far `a` lies in front of `b`, along the axis on which it does so most.
pub open spec fn front_gap(a: IsoBounds, b: IsoBounds) -> int {
    let dx = a.iso_x1 - b.iso_x2;
    let dy = a.iso_y1 - b.iso_y2;
    if dx >= dy {
        dx
    } else {
        dy
    }
}

/// `a` lies behind `b`: of two overlapping sprites, it is drawn first. Where
/// the geometry does not tell, the one that comes first in the input lies behind.
pub open spec fn behind(a: IsoBounds, b: IsoBounds) -> bool {
    front_gap(a, b) < front_gap(b, a) || (front_gap(a, b) == front_gap(b, a) && a.index < b.index)
}

pub(crate) fn front_gap_of(a: &IsoBounds, b: &IsoBounds) -> (gap: i64)
    ensures
        gap == front_gap(*a, *b),
{
    let dx: i64 = a.iso_x1 as i64 - b.iso_x2 as i64;
    let dy: i64 = a.iso_y1 as i64 - b.iso_y2 as i64;
    if dx >= dy {
        dx
    } else {
        dy
    }
}

/// Positive if `a` lies in front of `b`, negative if behind, and zero only if
/// neither the geometry nor the index tells them apart.
pub fn depth_compare(a: &IsoBounds, b: &IsoBounds) -> (sign: i32)
    ensures
        sign == -1 <==> behind(*a, *b),
        sign == 1 <==> behind(*b, *a),
        sign == 0 <==> !behind(*a, *b) && !behind(*b, *a),
        -1 <= sign <= 1,
{
    let a_term: i64 = front_gap_of(a, b);
    let b_term: i64 = front_gap_of(b, a);
    if a_term > b_term {
        1
    } else if a_term < b_term {
        -1
    } else if a.index < b.index {
        -1
    } else if a.index > b.index {
        1
    } else {
        0
    }
}

/// The place for `b` in a list in depth order: in front of everything that
/// lies behind it.
pub fn lower_bound_by_depth(xs: &[IsoBounds], b: &IsoBounds) -> (slot: usize)
    ensures
        slot == search_slot(xs@, *b, 0, xs@.len() as int),
        slot <= xs@.len(),
        slot > 0 ==> behind(xs@[slot - 1], *b),
        slot < xs@.len() ==> !behind(xs@[slot as int], *b),
{
    let mut lo: usize = 0;
    let mut hi: usize = xs.len();
    while lo < hi
        invariant
            lo <= hi <= xs@.len(),
            search_slot(xs@, *b, lo as int, hi as int) == search_slot(
                xs@,
                *b,
                0,
                xs@.len() as int,
            ),
        decreases hi - lo,
    {
        let mid: usize = lo + (hi - lo) / 2;
        if depth_compare(&xs[mid], b) < 0 {
            lo = mid + 1;
        } else {
            hi = mid;
        }
    }
    proof {
        lemma_search_slot(xs@, *b, 0, xs@.len() as int);
    }
    lo
}

/// `a` is passed by the sweep before `b`.
spec fn passed_before(a: IsoBounds, b: IsoBounds) -> bool {
    a.right() < b.right() || (a.right() == b.right() && a.index < b.index)
}

spec fn in_passing_order(rects: Seq<IsoBounds>) -> bool {
    forall|i: int, j: int|
        0 <= i < j < rects.len() ==> passed_before(#[trigger] rects[i], #[trigger] rects[j])
}

/// Sorts footprints by the three steps above. Its lists are kept between calls
/// to save allocations; they do not influence the result.
pub struct IsometricRectangleSorter {
    by_left_scratch: Vec<IsoBounds>,
    active_by_depth: Vec<IsoBounds>,
    active_by_right: Vec<IsoBounds>,
}

impl Default for IsometricRectangleSorter {
    fn default() -> (sorter: Self)
        ensures
            sorter.keeps_nothing(),
    {
        Self::new()
    }
}

impl IsometricRectangleSorter {
    /// The two active lists hold the same footprints.
    closed spec fn lists_agree(&self, n: nat) -> bool {
        &&& distinct_indices(self.active_by_depth@, n)
        &&& in_passing_order(self.active_by_right@)
        &&& forall|r: IsoBounds| #[trigger]
            self.active_by_right@.contains(r) <==> self.active_by_depth@.contains(r)
    }

    pub fn new() -> (sorter: Self)
        ensures
            sorter.keeps_nothing(),
    {
        IsometricRectangleSorter {
            by_left_scratch: Vec::new(),
            active_by_depth: Vec::new(),
            active_by_right: Vec::new(),
        }
    }

    /// No footprint of an earlier call is kept.
    pub closed spec fn keeps_nothing(&self) -> bool {
        &&& self.by_left_scratch@.len() == 0
        &&& self.active_by_depth@.len() == 0
        &&& self.active_by_right@.len() == 0
    }

    /// Drops the active footprint with the given index from the depth list.
    fn drop_by_index(&mut self, evicted: &IsoBounds, Ghost(n): Ghost<nat>) -> (pos: usize)
        requires
            distinct_indices(old(self).active_by_depth@, n),
            old(self).active_by_depth@.contains(*evicted),
        ensures
            pos < old(self).active_by_depth@.len(),
            old(self).active_by_depth@[pos as int] == *evicted,
            final(self).active_by_depth@ == old(self).active_by_depth@.remove(pos as int),
            final(self).active_by_right@ == old(self).active_by_right@,
            final(self).by_left_scratch@ == old(self).by_left_scratch@,
    {
        let len: usize = self.active_by_depth.len();
        let mut pos: usize = 0;
        let ghost at = choose|i: int|
            0 <= i < self.active_by_depth@.len() && self.active_by_depth@[i] == *evicted;
        while self.active_by_depth[pos].index != evicted.index
            invariant
                distinct_indices(self.active_by_depth@, n),
                pos <= at < self.active_by_depth@.len(),
                len == self.active_by_depth@.len(),
                self.active_by_depth@[at] == *evicted,
                self.active_by_depth@ == old(self).active_by_depth@,
                self.active_by_right@ == old(self).active_by_right@,
                self.by_left_scratch@ == old(self).by_left_scratch@,
            decreases at - pos,
        {
            pos += 1;
        }
        assert(pos == at);
        self.active_by_depth.remove(pos);
        pos
    }

    /// Drops every active footprint that does not reach past `left`.
    fn evict_passed(&mut self, left: i64, Ghost(n): Ghost<nat>)
        requires
            old(self).lists_agree(n),
        ensures
            final(self).lists_agree(n),
            final(self).active_by_depth@ == kept_active(old(self).active_by_depth@, left as int),
            final(self).by_left_scratch@ == old(self).by_left_scratch@,
    {
        while self.active_by_right.len() > 0 && self.active_by_right[0].iso_right() <= left
            invariant
                self.lists_agree(n),
                kept_active(self.active_by_depth@, left as int) == kept_active(
                    old(self).active_by_depth@,
                    left as int,
                ),
                self.by_left_scratch@ == old(self).by_left_scratch@,
            decreases self.active_by_right@.len(),
        {
            let ghost by_right = self.active_by_right@;
            let ghost by_depth = self.active_by_depth@;
            assert(by_right.contains(by_right[0]));
            let evicted: IsoBounds = self.active_by_right.remove(0);
            let pos: usize = self.drop_by_index(&evicted, Ghost(n));
            proof {
                lemma_kept_remove(by_depth, left as int, pos as int);
                lemma_remove_keeps_distinct(by_depth, n, pos as int);
                lemma_remove_member(by_right, 0);
                assert(in_passing_order(self.active_by_right@));
                assert forall|i: int, j: int| 0 <= i < j < by_depth.len() implies by_depth[i]
                    != by_depth[j] by {
                    assert(by_depth[i].index != by_depth[j].index);
                }
                lemma_remove_member(by_depth, pos as int);
                assert forall|r: IsoBounds| #[trigger]
                    self.active_by_right@.contains(r) <==> self.active_by_depth@.contains(r) by {
                    assert(by_right.contains(r) <==> by_depth.contains(r));
                }
            }
        }
        proof {
            let by_right = self.active_by_right@;
            let by_depth = self.active_by_depth@;
            assert forall|i: int| 0 <= i < by_depth.len() implies (#[trigger] by_depth[i]).right()
                > left by {
                assert(by_depth.contains(by_depth[i]));
                assert(by_right.contains(by_depth[i]));
                let j = choose|j: int| 0 <= j < by_right.len() && by_right[j] == by_depth[i];
                if j > 0 {
                    assert(passed_before(by_right[0], by_right[j]));
                }
            }
            lemma_kept_all(by_depth, left as int);
        }
    }

    /// Makes `rect` active, at the given place of the depth list.
    fn activate(&mut self, rect: &IsoBounds, slot: usize, Ghost(n): Ghost<nat>)
        requires
            old(self).lists_agree(n),
            slot <= old(self).active_by_depth@.len(),
            rect.index < n,
            forall|i: int|
                0 <= i < old(self).active_by_depth@.len() ==> (
                #[trigger] old(self).active_by_depth@[i]).index != rect.index,
        ensures
            final(self).lists_agree(n),
            final(self).active_by_depth@ == old(self).active_by_depth@.insert(slot as int, *rect),
            final(self).by_left_scratch@ == old(self).by_left_scratch@,
    {
        let right: i64 = rect.iso_right();
        let mut lo: usize = 0;
        let mut hi: usize = self.active_by_right.len();
        let ghost by_right = self.active_by_right@;
        let ghost by_depth = self.active_by_depth@;
        while lo < hi
            invariant
                lo <= hi <= self.active_by_right@.len(),
                self.active_by_right@ == by_right,
                self.active_by_depth@ == by_depth,
                self.by_left_scratch@ == old(self).by_left_scratch@,
                right == rect.right(),
                in_passing_order(by_right),
                forall|i: int| 0 <= i < lo ==> passed_before(#[trigger] by_right[i], *rect),
                forall|i: int|
                    hi <= i < by_right.len() ==> !passed_before(#[trigger] by_right[i], *rect),
            decreases hi - lo,
        {
            let mid: usize = lo + (hi - lo) / 2;
            let probe: i64 = self.active_by_right[mid].iso_right();
            if probe < right || (probe == right && self.active_by_right[mid].index < rect.index) {
                assert forall|i: int| 0 <= i < mid + 1 implies passed_before(
                    #[trigger] by_right[i],
                    *rect,
                ) by {
                    if i < mid {
                        assert(passed_before(by_right[i], by_right[mid as int]));
                    }
                }
                lo = mid + 1;
            } else {
                assert forall|i: int| mid <= i < by_right.len() implies !passed_before(
                    #[trigger] by_right[i],
                    *rect,
                ) by {
                    if i > mid {
                        assert(passed_before(by_right[mid as int], by_right[i]));
                    }
                }
                hi = mid;
            }
        }
        self.active_by_right.insert(lo, *rect);
        self.active_by_depth.insert(slot, *rect);
        proof {
            let r2 = self.active_by_right@;
            let d2 = self.active_by_depth@;
            assert forall|i: int| 0 <= i < by_right.len() implies (#[trigger] by_right[i]).index
                != rect.index by {
                assert(by_right.contains(by_right[i]));
                assert(by_depth.contains(by_right[i]));
            }
            assert forall|i: int, j: int| 0 <= i < j < r2.len() implies passed_before(
                #[trigger] r2[i],
                #[trigger] r2[j],
            ) by {
                let a = if i < lo { i } else { i - 1 };
                let b = if j < lo { j } else { j - 1 };
                if i != lo {
                    assert(r2[i] == by_right[a]);
                }
                if j != lo {
                    assert(r2[j] == by_right[b]);
                }
            }
            assert forall|i: int, j: int| 0 <= i < j < d2.len() implies (#[trigger] d2[i]).index
                != (#[trigger] d2[j]).index by {
                let a = if i < slot { i } else { i - 1 };
                let b = if j < slot { j } else { j - 1 };
                if i != slot {
                    assert(d2[i] == by_depth[a]);
                }
                if j != slot {
                    assert(d2[j] == by_depth[b]);
                }
            }
            assert forall|i: int| 0 <= i < d2.len() implies (#[trigger] d2[i]).index < n by {
                let a = if i < slot { i } else { i - 1 };
                if i != slot {
                    assert(d2[i] == by_depth[a]);
                }
            }
            assert forall|r: IsoBounds| #[trigger] r2.contains(r) <==> d2.contains(r) by {
                lemma_contains_inserted(by_right, lo as int, *rect, r);
                lemma_contains_inserted(
                    by_depth,
                    slot as int,
                    *rect,
                    r,
                );
                assert(by_right.contains(r) <==> by_depth.contains(r));
            }
        }
    }

    /// The links of the sweep over `by_left`.
    pub fn build_graph(&mut self, by_left: &[IsoBounds]) -> (graph: Graph)
        requires
            distinct_indices(by_left@, by_left@.len()),
        ensures
            graph.wf(),
            graph.n == by_left@.len(),
            graph.adj() == sweep_graph(by_left@),
    {
        self.active_by_depth.clear();
        self.active_by_right.clear();
        let n: usize = by_left.len();
        let mut graph: Graph = Graph::with_nodes(n);
        let mut i: usize = 0;
        assert(by_left@.take(0) =~= Seq::empty());
        while i < n
            invariant
                n == by_left@.len(),
                i <= n,
                distinct_indices(by_left@, n as nat),
                graph.wf(),
                graph.n == n,
                self.lists_agree(n as nat),
                graph.adj() == sweep(by_left@.take(i as int), n as nat).adj,
                self.active_by_depth@ == sweep(by_left@.take(i as int), n as nat).active,
            decreases n - i,
        {
            let rect: IsoBounds = by_left[i];
            let ghost done = by_left@.take(i as int);
            let ghost before = sweep(done, n as nat);
            let ghost kept = kept_active(before.active, rect.left());
            proof {
                let next = by_left@.take(i + 1);
                assert(next.drop_last() =~= done);
                assert(next.last() == rect);
                assert(done.push(rect) =~= next);
                assert forall|a: int, b: int| 0 <= a < b < next.len() implies (
                #[trigger] next[a]).index != (#[trigger] next[b]).index by {
                    assert(next[a] == by_left@[a] && next[b] == by_left@[b]);
                }
                assert(distinct_indices(next, n as nat));
                lemma_distinct_prefix(next, n as nat);
                lemma_sweep_shape(done, n as nat);
                lemma_step_shape(before, done, rect, n as nat);
            }
            self.evict_passed(rect.iso_left(), Ghost(n as nat));
            let slot: usize = lower_bound_by_depth(&self.active_by_depth, &rect);
            if slot > 0 {
                let prev: u32 = self.active_by_depth[slot - 1].index;
                graph.add_edge(prev, rect.index);
            }
            if slot < self.active_by_depth.len() {
                let next: u32 = self.active_by_depth[slot].index;
                graph.add_edge(rect.index, next);
            }
            self.activate(&rect, slot, Ghost(n as nat));
            i += 1;
        }
        assert(by_left@.take(n as int) =~= by_left@);
        graph
    }
}

proof fn lemma_remove_keeps_distinct(rects: Seq<IsoBounds>, n: nat, pos: int)
    requires
        distinct_indices(rects, n),
        0 <= pos < rects.len(),
    ensures
        distinct_indices(rects.remove(pos), n),
{
    let rest = rects.remove(pos);
    assert forall|i: int, j: int| 0 <= i < j < rest.len() implies (#[trigger] rest[i]).index != (
    #[trigger] rest[j]).index by {
        let a = if i < pos { i } else { i + 1 };
        let b = if j < pos { j } else { j + 1 };
        assert(rest[i] == rects[a] && rest[j] == rects[b]);
    }
    assert forall|i: int| 0 <= i < rest.len() implies (#[trigger] rest[i]).index < n by {
        let a = if i < pos { i } else { i + 1 };
        assert(rest[i] == rects[a]);
    }
}

proof fn lemma_remove_member(rects: Seq<IsoBounds>, pos: int)
    requires
        0 <= pos < rects.len(),
        forall|i: int, j: int| 0 <= i < j < rects.len() ==> rects[i] != rects[j],
    ensures
        forall|r: IsoBounds| #[trigger]
            rects.remove(pos).contains(r) <==> rects.contains(r) && r != rects[pos],
{
    let rest = rects.remove(pos);
    assert forall|r: IsoBounds| #[trigger] rest.contains(r) <==> rects.contains(r) && r
        != rects[pos] by {
        if rest.contains(r) {
            let i = choose|i: int| 0 <= i < rest.len() && rest[i] == r;
            let a = if i < pos { i } else { i + 1 };
            assert(rects[a] == r);
        }
        if rects.contains(r) && r != rects[pos] {
            let a = choose|a: int| 0 <= a < rects.len() && rects[a] == r;
            let i = if a < pos { a } else { a - 1 };
            assert(rest[i] == r);
        }
    }
}

/// Merge sort of `bounds[lo..hi]` by the left end; equal ones keep their order.
fn sort_left_to_right(bounds: &Vec<IsoBounds>, lo: usize, hi: usize) -> (by_left: Vec<IsoBounds>)
    requires
        lo <= hi <= bounds@.len() <= u32::MAX,
        forall|i: int| 0 <= i < bounds@.len() ==> (#[trigger] bounds@[i]).index == i,
    ensures
        by_left@.len() == hi - lo,
        forall|i: int|
            0 <= i < by_left@.len() ==> lo <= (#[trigger] by_left@[i]).index < hi && by_left@[i]
                == bounds@[by_left@[i].index as int],
        forall|i: int, j: int|
            0 <= i < j < by_left@.len() ==> swept_before(
                #[trigger] by_left@[i],
                #[trigger] by_left@[j],
            ),
    decreases hi - lo,
{
    let mut merged: Vec<IsoBounds> = Vec::new();
    if hi - lo <= 1 {
        if lo < hi {
            merged.push(bounds[lo]);
        }
        return merged;
    }
    let mid: usize = lo + (hi - lo) / 2;
    let first: Vec<IsoBounds> = sort_left_to_right(bounds, lo, mid);
    let second: Vec<IsoBounds> = sort_left_to_right(bounds, mid, hi);
    let mut a: usize = 0;
    let mut b: usize = 0;
    while a < first.len() || b < second.len()
        invariant
            lo <= mid <= hi <= bounds@.len() <= u32::MAX,
            a <= first@.len(),
            b <= second@.len(),
            merged@.len() == a + b,
            forall|i: int|
                0 <= i < first@.len() ==> lo <= (#[trigger] first@[i]).index < mid && first@[i]
                    == bounds@[first@[i].index as int],
            forall|i: int, j: int|
                0 <= i < j < first@.len() ==> swept_before(
                    #[trigger] first@[i],
                    #[trigger] first@[j],
                ),
            forall|i: int|
                0 <= i < second@.len() ==> mid <= (#[trigger] second@[i]).index < hi && second@[i]
                    == bounds@[second@[i].index as int],
            forall|i: int, j: int|
                0 <= i < j < second@.len() ==> swept_before(
                    #[trigger] second@[i],
                    #[trigger] second@[j],
                ),
            forall|i: int|
                0 <= i < merged@.len() ==> lo <= (#[trigger] merged@[i]).index < hi && merged@[i]
                    == bounds@[merged@[i].index as int],
            forall|i: int, j: int|
                0 <= i < j < merged@.len() ==> swept_before(
                    #[trigger] merged@[i],
                    #[trigger] merged@[j],
                ),
            forall|i: int, j: int|
                0 <= i < merged@.len() && a <= j < first@.len() ==> swept_before(
                    #[trigger] merged@[i],
                    #[trigger] first@[j],
                ),
            forall|i: int, j: int|
                0 <= i < merged@.len() && b <= j < second@.len() ==> swept_before(
                    #[trigger] merged@[i],
                    #[trigger] second@[j],
                ),
        decreases first@.len() - a + (second@.len() - b),
    {
        if b == second.len() || (a < first.len() && first[a].iso_left() <= second[b].iso_left()) {
            assert forall|j: int| b <= j < second@.len() implies swept_before(
                first@[a as int],
                #[trigger] second@[j],
            ) by {
                if j > b {
                    assert(swept_before(second@[b as int], second@[j]));
                }
            }
            merged.push(first[a]);
            a += 1;
        } else {
            assert forall|j: int| a <= j < first@.len() implies swept_before(
                second@[b as int],
                #[trigger] first@[j],
            ) by {
                if j > a {
                    assert(swept_before(first@[a as int], first@[j]));
                }
            }
            merged.push(second[b]);
            b += 1;
        }
    }
    merged
}

/// A sweep order has distinct indices.
pub proof fn lemma_sweep_order_distinct(bounds: Seq<IsoBounds>, by_left: Seq<IsoBounds>)
    requires
        is_sweep_order(bounds, by_left),
    ensures
        distinct_indices(by_left, by_left.len()),
{
    assert forall|i: int, j: int| 0 <= i < j < by_left.len() implies (#[trigger] by_left[i]).index
        != (#[trigger] by_left[j]).index by {
        assert(swept_before(by_left[i], by_left[j]));
        assert(by_left[i] == stamped(bounds)[by_left[i].index as int]);
        assert(by_left[j] == stamped(bounds)[by_left[j].index as int]);
    }
}

impl ISorter for IsometricRectangleSorter {
    /// The first-in first-out topological order of the links that the sweep
    /// makes. Overlapping sprites come out back to front, unless their depths
    /// contradict one another.
    fn sort(&mut self, bounds: &[IsoBounds]) -> (order: Vec<u32>)
        ensures
            exists|by_left: Seq<IsoBounds>| #[trigger]
                is_sweep_order(bounds@, by_left) && is_fifo_order(sweep_graph(by_left), order@),
            depth_consistent(stamped(bounds@)) ==> draws_back_to_front(bounds@, order@),
    {
        let mut scratch: Vec<IsoBounds> = Vec::new();
        let mut i: usize = 0;
        while i < bounds.len()
            invariant
                bounds@.len() <= u32::MAX,
                i <= bounds@.len(),
                scratch@.len() == i,
                forall|j: int| 0 <= j < i ==> #[trigger] scratch@[j] == stamped(bounds@)[j],
            decreases bounds@.len() - i,
        {
            let b: IsoBounds = bounds[i];
            scratch.push(IsoBounds { index: i as u32, ..b });
            i += 1;
        }
        assert(scratch@ =~= stamped(bounds@));
        let by_left: Vec<IsoBounds> = sort_left_to_right(&scratch, 0, scratch.len());
        assert(is_sweep_order(bounds@, by_left@));
        proof {
            lemma_sweep_order_distinct(bounds@, by_left@);
        }
        let graph: Graph = self.build_graph(&by_left);
        proof {
            assert forall|v: u32| v < graph.n implies #[trigger] in_degree(graph.adj(), v)
                <= u32::MAX by {
                lemma_sweep_in_degree(by_left@, by_left@.len(), v);
            }
        }
        let order: Vec<u32> = topological_sort(&graph);
        proof {
            if depth_consistent(stamped(bounds@)) {
                law_sorter_draws_back_to_front(bounds@, by_left@, order@);
            }
        }
        self.by_left_scratch = by_left;
        order
    }
}

/// How far a sprite lies in front of another is the larger of the two differences
/// of its back corner and the other's front corner.
pub proof fn law_front_gap_is_larger_difference(a: IsoBounds, b: IsoBounds)
    ensures
        front_gap(a, b) >= a.iso_x1 - b.iso_x2,
        front_gap(a, b) >= a.iso_y1 - b.iso_y2,
        front_gap(a, b) == a.iso_x1 - b.iso_x2 || front_gap(a, b) == a.iso_y1 - b.iso_y2,
{
}

} // verus!
