use crate::cell::{all_indices, strictly_ascending, TileSet, MAX_TILES};
use crate::constraints::{
    all_accept, all_symmetric_pairwise, compatible, lemma_accepted_next_to, lemma_retained, relation_of,
    some_related, symmetric_pairwise, lemma_retained_full, lemma_retained_idempotent, retained, snapshot_view,
    Constraint, TileConstraints,
};
use crate::position::Position;
use crate::WfcError;
use std::collections::VecDeque;
use vstd::prelude::*;

verus! {

/// The abstract state of a board.
pub ghost struct BoardView {
    pub width: nat,
    pub height: nat,
    pub num_tiles: nat,
    /// The possibility set of each cell, in row-major order.
    pub cells: Seq<Seq<u8>>,
}

/// A well-formed possibility set over `n` tiles.
pub open spec fn cell_wf(c: Seq<u8>, n: nat) -> bool {
    &&& strictly_ascending(c)
    &&& forall|j: int| 0 <= j < c.len() ==> c[j] < n
}

/// Whether `q` is one of the four cardinal neighbours of `p`.
pub open spec fn adjacent(p: Position, q: Position) -> bool {
    ||| q.y == p.y && (q.x == p.x - 1 || q.x == p.x + 1)
    ||| q.x == p.x && (q.y == p.y - 1 || q.y == p.y + 1)
}

/// Whether `r` is a neighbour of `q` in one of the directions `d..4`.
pub open spec fn neighbour_from(q: Position, r: Position, d: int) -> bool {
    exists|e: int| d <= e < 4 && #[trigger] q.cardinal_neighbours_spec()[e] == r
}

/// Whether some position in `queue` has `r` as a neighbour.
pub open spec fn pending(queue: Seq<Position>, r: Position) -> bool {
    exists|k: int| 0 <= k < queue.len() && adjacent(#[trigger] queue[k], r)
}

/// Whether, under symmetric pairwise constraints, tile `u` (one of `n`
/// tiles) is compatible with every one of the `n` tiles.
pub open spec fn universal_tile<T, K: Constraint<T>>(cs: Seq<K>, n: nat, u: u8) -> bool {
    &&& all_symmetric_pairwise::<T, K>(cs)
    &&& u < n
    &&& forall|t: u8| t < n ==> #[trigger] compatible::<T, K>(cs, u, t)
}

/// Every tile of `a` is also in `b`.
pub open spec fn subset_of(a: Seq<u8>, b: Seq<u8>) -> bool {
    forall|t: u8| a.contains(t) ==> b.contains(t)
}

/// The sum of the entropies of all cells.
pub open spec fn total_entropy(cells: Seq<Seq<u8>>) -> nat
    decreases cells.len(),
{
    if cells.len() == 0 {
        0
    } else {
        total_entropy(cells.drop_last()) + cells.last().len()
    }
}

pub proof fn lemma_total_update(cells: Seq<Seq<u8>>, i: int, v: Seq<u8>)
    requires
        0 <= i < cells.len(),
    ensures
        total_entropy(cells.update(i, v)) == total_entropy(cells) - cells[i].len() + v.len(),
    decreases cells.len(),
{
    let u = cells.update(i, v);
    if i == cells.len() - 1 {
        assert(u.drop_last() =~= cells.drop_last());
    } else {
        lemma_total_update(cells.drop_last(), i, v);
        assert(u.drop_last() =~= cells.drop_last().update(i, v));
    }
}

/// A fresh board of `m` cells over `n` tiles has total entropy `m * n`.
/// Every collapse step lowers the total entropy by at least one and
/// propagation never raises it, so a collapse takes at most
/// `width * height * tiles` steps.
pub proof fn lemma_initial_entropy(m: nat, n: nat)
    ensures
        total_entropy(Seq::new(m, |i: int| all_indices(n))) == m * n,
    decreases m,
{
    if m > 0 {
        let s = Seq::new(m, |i: int| all_indices(n));
        assert(s.drop_last() =~= Seq::new((m - 1) as nat, |i: int| all_indices(n)));
        lemma_initial_entropy((m - 1) as nat, n);
        assert(s.last().len() == n);
        assert(total_entropy(s) == total_entropy(s.drop_last()) + s.last().len());
        assert((m - 1) * n + n == m * n) by (nonlinear_arith)
            requires
                m > 0,
        ;
    } else {
        assert(m * n == 0) by (nonlinear_arith)
            requires
                m == 0,
        ;
    }
}

proof fn lemma_index_bounds(w: int, h: int, x: int, y: int)
    requires
        0 <= x < w,
        0 <= y < h,
    ensures
        0 <= y * w + x < w * h,
        w <= w * h,
        h <= w * h,
{
    assert(0 <= y * w + x < w * h) by (nonlinear_arith)
        requires
            0 <= x < w,
            0 <= y < h,
    ;
    assert(w <= w * h && h <= w * h) by (nonlinear_arith)
        requires
            0 <= x < w,
            0 <= y < h,
    ;
}

proof fn lemma_position_of_index(w: int, h: int, i: int)
    requires
        0 <= i < w * h,
        0 < w,
    ensures
        0 <= i % w < w,
        0 <= i / w < h,
        (i / w) * w + i % w == i,
{
    vstd::arithmetic::div_mod::lemma_fundamental_div_mod(i, w);
    vstd::arithmetic::div_mod::lemma_mod_bound(i, w);
    vstd::arithmetic::div_mod::lemma_div_pos_is_pos(i, w);
    let q = i / w;
    let r = i % w;
    assert(q < h) by (nonlinear_arith)
        requires
            i == w * q + r,
            0 <= r,
            i < w * h,
            0 < w,
    ;
    assert(q * w == w * q) by (nonlinear_arith);
}

impl BoardView {
    pub open spec fn in_bounds(self, p: Position) -> bool {
        0 <= p.x < self.width && 0 <= p.y < self.height
    }

    /// The row-major index of `p`.
    pub open spec fn index(self, p: Position) -> int {
        p.y * self.width + p.x
    }

    /// The position of the row-major index `i`.
    pub open spec fn position(self, i: int) -> Position {
        Position { x: (i % self.width as int) as isize, y: (i / self.width as int) as isize }
    }

    pub open spec fn cell(self, p: Position) -> Seq<u8> {
        self.cells[self.index(p)]
    }

    /// The snapshot of `q` if it lies on the board.
    pub open spec fn snapshot_of(self, q: Position) -> Seq<(Seq<u8>, Position)> {
        if self.in_bounds(q) {
            seq![(self.cell(q), q)]
        } else {
            Seq::empty()
        }
    }

    /// The possibility sets and positions of the in-bounds cardinal
    /// neighbours of `p`, in the order left, right, up, down.
    pub open spec fn snapshots(self, p: Position) -> Seq<(Seq<u8>, Position)> {
        let n = p.cardinal_neighbours_spec();
        self.snapshot_of(n[0]) + self.snapshot_of(n[1]) + self.snapshot_of(n[2]) + self.snapshot_of(
            n[3],
        )
    }

    /// The result of the cell-update algorithm at `p`.
    pub open spec fn update<T, K: Constraint<T>>(self, cs: Seq<K>, tiles: Seq<T>, p: Position) -> Seq<u8> {
        retained(cs, self.cell(p), p, self.snapshots(p), tiles)
    }

    pub open spec fn wf(self) -> bool {
        &&& self.cells.len() == self.width * self.height
        &&& self.width <= isize::MAX
        &&& self.height <= isize::MAX
        &&& self.width * self.height <= isize::MAX
        &&& self.num_tiles <= MAX_TILES
        &&& forall|i: int| 0 <= i < self.cells.len() ==> #[trigger] cell_wf(self.cells[i], self.num_tiles)
    }

    /// An in-bounds position has an index on the board, and its cell is well formed.
    pub proof fn lemma_in_bounds(self, p: Position)
        requires
            self.wf(),
            self.in_bounds(p),
        ensures
            0 <= self.index(p) < self.cells.len(),
            cell_wf(self.cell(p), self.num_tiles),
    {
        lemma_index_bounds(self.width as int, self.height as int, p.x as int, p.y as int);
    }

    /// Every index of the board is the index of an in-bounds position.
    pub proof fn lemma_position(self, i: int)
        requires
            self.wf(),
            0 <= i < self.cells.len(),
        ensures
            self.in_bounds(self.position(i)),
            self.index(self.position(i)) == i,
    {
        if self.width == 0 {
            assert(self.width * self.height == 0);
        }
        lemma_position_of_index(self.width as int, self.height as int, i);
    }

    /// Distinct in-bounds positions have distinct indices.
    pub proof fn lemma_index_injective(self, p: Position, q: Position)
        requires
            self.in_bounds(p),
            self.in_bounds(q),
            p != q,
        ensures
            self.index(p) != self.index(q),
    {
        let w = self.width as int;
        if p.y == q.y {
            assert(p.x != q.x);
        } else if p.y < q.y {
            assert(p.y * w + p.x < q.y * w + q.x) by (nonlinear_arith)
                requires
                    0 <= p.x < w,
                    0 <= q.x,
                    p.y < q.y,
            ;
        } else {
            assert(q.y * w + q.x < p.y * w + p.x) by (nonlinear_arith)
                requires
                    0 <= q.x < w,
                    0 <= p.x,
                    q.y < p.y,
            ;
        }
    }

    /// The non-collapsed set is empty exactly when no cell admits more than
    /// one tile.
    pub proof fn lemma_non_collapsed_empty(self)
        requires
            self.wf(),
        ensures
            self.fully_collapsed() <==> self.non_collapsed() == Set::<Position>::empty(),
    {
        if self.fully_collapsed() {
            assert forall|p: Position| !self.non_collapsed().contains(p) by {
                if self.in_bounds(p) {
                    self.lemma_in_bounds(p);
                }
            }
            assert(self.non_collapsed() =~= Set::<Position>::empty());
        } else {
            let i = choose|i: int| 0 <= i < self.cells.len() && !(#[trigger] self.cells[i].len() <= 1);
            self.lemma_position(i);
            assert(self.non_collapsed().contains(self.position(i)));
        }
    }

    /// Whether the cell at `p`, or one of its neighbours, differs between
    /// this board and `now`.
    pub open spec fn changed_near(self, now: BoardView, p: Position) -> bool {
        ||| now.cell(p) != self.cell(p)
        ||| exists|x: Position| self.in_bounds(x) && #[trigger] adjacent(x, p) && now.cell(x) != self.cell(x)
    }

    /// Whether propagation from `start`, which turned this board into `now`,
    /// owes a settled cell at `p`: `p` lies on the board, and its cell was
    /// settled already, or neighbours `start`, or it or a neighbour changed.
    pub open spec fn owed<T, K: Constraint<T>>(
        self,
        now: BoardView,
        cs: Seq<K>,
        tiles: Seq<T>,
        start: Position,
        p: Position,
    ) -> bool {
        self.in_bounds(p) && (self.settled(cs, tiles, p) || adjacent(start, p) || self.changed_near(now, p))
    }

    /// Whether the cell at `p` is collapsed or unchanged by the cell-update
    /// algorithm.
    pub open spec fn settled<T, K: Constraint<T>>(self, cs: Seq<K>, tiles: Seq<T>, p: Position) -> bool {
        self.cell(p).len() == 1 || self.update(cs, tiles, p) == self.cell(p)
    }

    /// The neighbours of an in-bounds position, in their fixed order, are
    /// exactly its adjacent positions.
    pub proof fn lemma_neighbours(self, q: Position, r: Position)
        requires
            self.wf(),
            self.in_bounds(q),
        ensures
            adjacent(q, r) <==> neighbour_from(q, r, 0),
            forall|e: int| 0 <= e < 4 ==> adjacent(q, #[trigger] q.cardinal_neighbours_spec()[e]),
    {
        self.lemma_in_bounds(q);
        lemma_index_bounds(self.width as int, self.height as int, q.x as int, q.y as int);
        let n = q.cardinal_neighbours_spec();
        if adjacent(q, r) {
            if r.y == q.y && r.x == q.x - 1 {
                assert(n[0] == r);
            } else if r.y == q.y && r.x == q.x + 1 {
                assert(n[1] == r);
            } else if r.x == q.x && r.y == q.y - 1 {
                assert(n[2] == r);
            } else {
                assert(n[3] == r);
            }
        }
    }

    /// Whether the cell at `p` is settled depends only on `p`'s own cell and
    /// the cells of its neighbours.
    pub proof fn lemma_settled_frame<T, K: Constraint<T>>(self, other: BoardView, cs: Seq<K>, tiles: Seq<T>, p: Position)
        requires
            self.wf(),
            other.wf(),
            self.width == other.width,
            self.height == other.height,
            self.in_bounds(p),
            forall|q: Position| self.in_bounds(q) && adjacent(p, q) ==> self.cell(q) == other.cell(q),
        ensures
            self.snapshots(p) == other.snapshots(p),
            self.cell(p) == other.cell(p) ==> self.settled(cs, tiles, p) == other.settled(cs, tiles, p),
    {
        let n = p.cardinal_neighbours_spec();
        assert forall|e: int| 0 <= e < 4 implies self.snapshot_of(#[trigger] n[e]) == other.snapshot_of(n[e]) by {
            self.lemma_neighbours(p, n[e]);
        }
        assert(self.snapshot_of(n[0]) == other.snapshot_of(n[0]));
        assert(self.snapshot_of(n[1]) == other.snapshot_of(n[1]));
        assert(self.snapshot_of(n[2]) == other.snapshot_of(n[2]));
        assert(self.snapshot_of(n[3]) == other.snapshot_of(n[3]));
    }

    /// Whether every tile of the cell at `p` is compatible with the tile of
    /// the collapsed cell at `x`.
    pub open spec fn fits_collapsed<T, K: Constraint<T>>(self, cs: Seq<K>, p: Position, x: Position) -> bool {
        forall|t: u8| self.cell(p).contains(t) ==> #[trigger] compatible::<T, K>(cs, t, self.cell(x)[0])
    }

    /// Whether the pair of neighbours `p`, `x` is in order: when `x` is
    /// collapsed, the cell at `p` fits it, unless `p` is not collapsed and
    /// still waits for propagation (a neighbour in `queue`, or a direction
    /// from `d` on around `q`).
    pub open spec fn near_ok<T, K: Constraint<T>>(
        self,
        cs: Seq<K>,
        queue: Seq<Position>,
        q: Position,
        d: int,
        p: Position,
        x: Position,
    ) -> bool {
        (self.in_bounds(p) && self.in_bounds(x) && adjacent(p, x) && self.cell(x).len() == 1) ==> (
        self.fits_collapsed::<T, K>(cs, p, x) || (self.cell(p).len() != 1 && (pending(queue, p)
            || neighbour_from(q, p, d))))
    }

    /// Whether every cell fits each of its collapsed neighbours.
    pub open spec fn fits_neighbours<T, K: Constraint<T>>(self, cs: Seq<K>) -> bool {
        forall|p: Position, x: Position| #[trigger] self.near_ok::<T, K>(cs, Seq::empty(), p, 4, p, x)
    }

    /// A board without collapsed cells fits trivially.
    pub proof fn lemma_fits_without_collapsed<T, K: Constraint<T>>(self, cs: Seq<K>)
        requires
            self.wf(),
            forall|i: int| 0 <= i < self.cells.len() ==> #[trigger] self.cells[i].len() != 1,
        ensures
            self.fits_neighbours::<T, K>(cs),
    {
        assert forall|p: Position, x: Position| #[trigger] self.near_ok::<T, K>(cs, Seq::empty(), p, 4, p, x) by {
            if self.in_bounds(x) {
                self.lemma_in_bounds(x);
            }
        }
    }

    /// An in-bounds neighbour `x` of `p` appears in `p`'s snapshots.
    pub proof fn lemma_snapshot_has(self, p: Position, x: Position)
        requires
            self.wf(),
            self.in_bounds(p),
            self.in_bounds(x),
            adjacent(p, x),
        ensures
            exists|i: int| 0 <= i < self.snapshots(p).len() && #[trigger] self.snapshots(p)[i] == (self.cell(x), x),
    {
        self.lemma_neighbours(p, x);
        let n = p.cardinal_neighbours_spec();
        let s0 = self.snapshot_of(n[0]);
        let s1 = self.snapshot_of(n[1]);
        let s2 = self.snapshot_of(n[2]);
        let s3 = self.snapshot_of(n[3]);
        let all = self.snapshots(p);
        assert(all == s0 + s1 + s2 + s3);
        let e = choose|e: int| 0 <= e < 4 && #[trigger] n[e] == x;
        if e == 0 {
            assert(all[0] == (self.cell(x), x));
        } else if e == 1 {
            assert(all[s0.len() as int] == (self.cell(x), x));
        } else if e == 2 {
            assert(all[(s0.len() + s1.len()) as int] == (self.cell(x), x));
        } else {
            assert(all[(s0.len() + s1.len() + s2.len()) as int] == (self.cell(x), x));
        }
    }

    /// Each of `p`'s snapshots is the cell of an in-bounds neighbour.
    pub proof fn lemma_snapshot_is(self, p: Position, i: int)
        requires
            self.wf(),
            self.in_bounds(p),
            0 <= i < self.snapshots(p).len(),
        ensures
            exists|x: Position|
                self.in_bounds(x) && adjacent(p, x) && #[trigger] self.snapshots(p)[i] == (self.cell(x), x),
    {
        let n = p.cardinal_neighbours_spec();
        self.lemma_neighbours(p, n[0]);
        let s0 = self.snapshot_of(n[0]);
        let s1 = self.snapshot_of(n[1]);
        let s2 = self.snapshot_of(n[2]);
        let s3 = self.snapshot_of(n[3]);
        let all = self.snapshots(p);
        assert(all == s0 + s1 + s2 + s3);
        assert(adjacent(p, n[0]) && adjacent(p, n[1]) && adjacent(p, n[2]) && adjacent(p, n[3]));
        if i < s0.len() {
            assert(all[i] == s0[i]);
        } else if i < s0.len() + s1.len() {
            assert(all[i] == s1[i - s0.len()]);
        } else if i < s0.len() + s1.len() + s2.len() {
            assert(all[i] == s2[i - s0.len() - s1.len()]);
        } else {
            assert(all[i] == s3[i - s0.len() - s1.len() - s2.len()]);
        }
    }

    /// Under symmetric pairwise constraints, a tile that the cell-update
    /// algorithm keeps at `pos` is compatible, both ways, with the tile of
    /// every collapsed neighbour.
    pub proof fn lemma_kept_fits<T, K: Constraint<T>>(self, cs: Seq<K>, tiles: Seq<T>, pos: Position, x: Position, t: u8)
        requires
            all_symmetric_pairwise::<T, K>(cs),
            self.wf(),
            self.in_bounds(pos),
            self.in_bounds(x),
            adjacent(pos, x),
            self.cell(x).len() == 1,
            self.update(cs, tiles, pos).contains(t),
        ensures
            compatible::<T, K>(cs, t, self.cell(x)[0]),
            compatible::<T, K>(cs, self.cell(x)[0], t),
    {
        lemma_retained(cs, self.cell(pos), pos, self.snapshots(pos), tiles);
        self.lemma_snapshot_has(pos, x);
        let i = choose|i: int| 0 <= i < self.snapshots(pos).len() && #[trigger] self.snapshots(pos)[i] == (self.cell(x), x);
        assert(self.cell(x) =~= seq![self.cell(x)[0]]);
        lemma_accepted_next_to(cs, t, pos, self.snapshots(pos), tiles, i, self.cell(x)[0]);
    }

    /// On a fully collapsed board on which every cell fits its neighbours,
    /// every symmetric pairwise constraint accepts each placed tile given the
    /// placed tiles of its neighbours.
    pub proof fn lemma_placed_accepted<T, K: Constraint<T>>(self, cs: Seq<K>, tiles: Seq<T>, p: Position)
        requires
            self.wf(),
            all_symmetric_pairwise::<T, K>(cs),
            self.fits_neighbours::<T, K>(cs),
            forall|i: int| 0 <= i < self.cells.len() ==> #[trigger] self.cells[i].len() == 1,
            self.in_bounds(p),
        ensures
            all_accept(cs, self.cell(p)[0], p, self.snapshots(p), tiles),
    {
        let t = self.cell(p)[0];
        let snaps = self.snapshots(p);
        self.lemma_in_bounds(p);
        assert(self.cell(p).len() == 1);
        assert(self.cell(p).contains(t));
        assert forall|k: int| 0 <= k < cs.len() implies #[trigger] cs[k].accepts(t, p, snaps, tiles) by {
            assert(symmetric_pairwise::<T, K>(cs[k]));
            let rel = relation_of::<T, K>(cs[k]);
            assert forall|i: int| 0 <= i < snaps.len() implies #[trigger] some_related(rel, t, snaps[i].0) by {
                self.lemma_snapshot_is(p, i);
                let x = choose|x: Position|
                    self.in_bounds(x) && adjacent(p, x) && #[trigger] self.snapshots(p)[i] == (self.cell(x), x);
                self.lemma_in_bounds(x);
                assert(self.cell(x).len() == 1);
                assert(self.near_ok::<T, K>(cs, Seq::empty(), p, 4, p, x));
                assert(compatible::<T, K>(cs, t, self.cell(x)[0]));
                assert(rel(t, snaps[i].0[0]));
            }
        }
    }

    /// Whether `p` lies on the board and its cell is not collapsed.
    pub open spec fn open_at(self, p: Position) -> bool {
        self.in_bounds(p) && self.cell(p).len() != 1
    }

    /// The first neighbour of `s`, in the fixed order, that is open.
    pub open spec fn first_open(self, s: Position) -> Option<Position> {
        let n = s.cardinal_neighbours_spec();
        if self.open_at(n[0]) {
            Some(n[0])
        } else if self.open_at(n[1]) {
            Some(n[1])
        } else if self.open_at(n[2]) {
            Some(n[2])
        } else if self.open_at(n[3]) {
            Some(n[3])
        } else {
            None
        }
    }

    /// Whether the board has at least two cells and two tiles, and every
    /// cell admits every tile.
    pub open spec fn fresh(self) -> bool {
        &&& self.num_tiles >= 2
        &&& self.cells.len() >= 2
        &&& forall|i: int| 0 <= i < self.cells.len() ==> #[trigger] self.cells[i] == all_indices(self.num_tiles)
    }

    /// Whether no two of the `n` tiles are compatible.
    pub open spec fn nothing_fits<T, K: Constraint<T>>(self, cs: Seq<K>) -> bool {
        &&& all_symmetric_pairwise::<T, K>(cs)
        &&& forall|a: u8, b: u8| a < self.num_tiles && b < self.num_tiles ==> !#[trigger] compatible::<T, K>(cs, a, b)
    }

    /// Whether every cell that is not collapsed still admits tile `u`.
    pub open spec fn keeps(self, u: u8) -> bool {
        forall|i: int| 0 <= i < self.cells.len() ==> #[trigger] self.cells[i].len() == 1 || self.cells[i].contains(u)
    }

    /// Whether some tile compatible with every tile is still admitted by
    /// every cell that is not collapsed.
    pub open spec fn has_universal<T, K: Constraint<T>>(self, cs: Seq<K>) -> bool {
        exists|u: u8| universal_tile::<T, K>(cs, self.num_tiles, u) && #[trigger] self.keeps(u)
    }

    /// The cell-update algorithm never drops a universal tile while every
    /// cell admits some tile.
    pub proof fn lemma_universal_kept<T, K: Constraint<T>>(self, cs: Seq<K>, tiles: Seq<T>, pos: Position, u: u8)
        requires
            self.wf(),
            self.no_empty_cell(),
            universal_tile::<T, K>(cs, self.num_tiles, u),
            self.in_bounds(pos),
            self.cell(pos).contains(u),
        ensures
            self.update(cs, tiles, pos).contains(u),
    {
        let snaps = self.snapshots(pos);
        lemma_retained(cs, self.cell(pos), pos, snaps, tiles);
        assert forall|k: int| 0 <= k < cs.len() implies #[trigger] cs[k].accepts(u, pos, snaps, tiles) by {
            assert(symmetric_pairwise::<T, K>(cs[k]));
            let rel = relation_of::<T, K>(cs[k]);
            assert(cs[k].accepts(u, pos, snaps, tiles) == crate::constraints::all_related(rel, u, snaps));
            assert forall|i: int| 0 <= i < snaps.len() implies #[trigger] some_related(rel, u, snaps[i].0) by {
                self.lemma_snapshot_is(pos, i);
                let x = choose|x: Position|
                    self.in_bounds(x) && adjacent(pos, x) && #[trigger] self.snapshots(pos)[i] == (self.cell(x), x);
                self.lemma_in_bounds(x);
                assert(self.cells[self.index(x)].len() > 0);
                let c = self.cell(x)[0];
                assert(cell_wf(self.cell(x), self.num_tiles));
                assert(compatible::<T, K>(cs, u, c));
                assert(rel(u, snaps[i].0[0]));
            }
        }
    }

    /// Every cell still admits some tile.
    pub open spec fn no_empty_cell(self) -> bool {
        forall|i: int| 0 <= i < self.cells.len() ==> #[trigger] self.cells[i].len() > 0
    }

    /// No cell admits more than one tile.
    pub open spec fn fully_collapsed(self) -> bool {
        forall|i: int| 0 <= i < self.cells.len() ==> #[trigger] self.cells[i].len() <= 1
    }

    /// The positions whose cells still admit more than one tile.
    pub open spec fn non_collapsed(self) -> Set<Position> {
        Set::new(|p: Position| self.in_bounds(p) && self.cell(p).len() > 1)
    }
}

/// The possibility sets and positions of owned neighbour snapshots.
pub open spec fn owned_view(o: Seq<(Vec<u8>, Position)>) -> Seq<(Seq<u8>, Position)> {
    o.map_values(|e: (Vec<u8>, Position)| (e.0@, e.1))
}

/// Borrows each owned snapshot as a slice.
fn borrow_snapshots<'a>(owned: &'a Vec<(Vec<u8>, Position)>) -> (r: Vec<(&'a [u8], Position)>)
    ensures
        snapshot_view(r@) == owned_view(owned@),
{
    let mut out: Vec<(&'a [u8], Position)> = Vec::with_capacity(owned.len());
    let mut i: usize = 0;
    while i < owned.len()
        invariant
            i <= owned@.len(),
            snapshot_view(out@) == owned_view(owned@.take(i as int)),
        decreases owned@.len() - i,
    {
        let ghost before = out@;
        let tiles = owned[i].0.as_slice();
        assert(tiles@ == owned@[i as int].0@);
        out.push((tiles, owned[i].1));
        i += 1;
        assert(snapshot_view(out@) =~= snapshot_view(before).push((tiles@, owned@[i - 1].1)));
        assert(owned_view(owned@.take(i as int)) =~= owned_view(owned@.take(i - 1)).push(
            (owned@[i - 1].0@, owned@[i - 1].1),
        ));
        assert(snapshot_view(out@) =~= owned_view(owned@.take(i as int)));
    }
    assert(owned@.take(i as int) =~= owned@);
    out
}

/// The grid of cells, with the worklist that propagation reuses. `C` is
/// the representation of a cell's possibility set.
pub struct Board<C> {
    width: usize,
    height: usize,
    num_tiles: usize,
    cells: Vec<C>,
    propagation_queue: VecDeque<Position>,
}

impl<C: TileSet> View for Board<C> {
    type V = BoardView;

    closed spec fn view(&self) -> BoardView {
        BoardView {
            width: self.width as nat,
            height: self.height as nat,
            num_tiles: self.num_tiles as nat,
            cells: self.cells@.map_values(|c: C| c.tiles()),
        }
    }
}

impl<C: TileSet> Board<C> {
    /// The board is well formed and its worklist is empty.
    pub closed spec fn wf(&self) -> bool {
        &&& self@.wf()
        &&& self.propagation_queue@.len() == 0
    }

    pub proof fn lemma_wf(&self)
        requires
            self.wf(),
        ensures
            self@.wf(),
    {
    }

    /// A `width` by `height` board on which every cell admits all
    /// `num_tiles` tiles.
    pub fn new(width: usize, height: usize, num_tiles: usize) -> (r: Board<C>)
        requires
            num_tiles <= MAX_TILES,
            width <= isize::MAX,
            height <= isize::MAX,
            width * height <= isize::MAX,
        ensures
            r.wf(),
            r@.width == width,
            r@.height == height,
            r@.num_tiles == num_tiles,
            r@.cells == Seq::new((width * height) as nat, |i: int| all_indices(num_tiles as nat)),
            r@.fully_collapsed() <==> (num_tiles <= 1 || width * height == 0),
            num_tiles > 1 ==> r@.non_collapsed() == Set::new(|p: Position| r@.in_bounds(p)),
            num_tiles <= 1 ==> r@.non_collapsed() == Set::<Position>::empty(),
    {
        let n = width * height;
        let mut cells: Vec<C> = Vec::with_capacity(n);
        let mut i: usize = 0;
        while i < n
            invariant
                n == width * height,
                num_tiles <= MAX_TILES,
                i <= n,
                cells@.len() == i,
                forall|j: int| 0 <= j < i ==> #[trigger] cells@[j].tiles() == all_indices(num_tiles as nat),
            decreases n - i,
        {
            cells.push(C::full(num_tiles));
            i += 1;
        }
        let r = Board { width, height, num_tiles, cells, propagation_queue: VecDeque::new() };
        assert(r@.cells =~= Seq::new((width * height) as nat, |i: int| all_indices(num_tiles as nat)));
        assert forall|j: int| 0 <= j < r@.cells.len() implies #[trigger] cell_wf(r@.cells[j], num_tiles as nat) by {
            assert(r@.cells[j] == all_indices(num_tiles as nat));
        }
        proof {
            if num_tiles > 1 && width * height > 0 {
                assert(r@.cells[0].len() == num_tiles);
            }
            assert forall|p: Position| r@.non_collapsed().contains(p) <==> r@.in_bounds(p) && num_tiles > 1 by {
                if r@.in_bounds(p) {
                    r@.lemma_in_bounds(p);
                    assert(r@.cell(p).len() == num_tiles);
                }
            }
            if num_tiles > 1 {
                assert(r@.non_collapsed() =~= Set::new(|p: Position| r@.in_bounds(p)));
            } else {
                assert(r@.non_collapsed() =~= Set::<Position>::empty());
            }
        }
        r
    }

    pub fn pos_in_bounds(&self, pos: Position) -> (r: bool)
        requires
            self@.wf(),
        ensures
            r == self@.in_bounds(pos),
    {
        pos.x >= 0 && pos.y >= 0 && pos.x < self.width as isize && pos.y < self.height as isize
    }

    fn index_of(&self, pos: Position) -> (r: usize)
        requires
            self@.wf(),
            self@.in_bounds(pos),
        ensures
            r == self@.index(pos),
            r < self@.cells.len(),
    {
        proof {
            lemma_index_bounds(self.width as int, self.height as int, pos.x as int, pos.y as int);
        }
        (pos.y as usize) * self.width + (pos.x as usize)
    }

    fn position_of(&self, i: usize) -> (r: Position)
        requires
            self@.wf(),
            i < self@.cells.len(),
        ensures
            r == self@.position(i as int),
            self@.in_bounds(r),
            self@.index(r) == i,
    {
        proof {
            if self.width == 0 {
                assert(self.width * self.height == 0);
            }
            lemma_position_of_index(self.width as int, self.height as int, i as int);
        }
        Position { x: (i % self.width) as isize, y: (i / self.width) as isize }
    }

    /// The cell at an in-bounds position.
    pub fn get_cell(&self, pos: Position) -> (r: &C)
        requires
            self@.wf(),
            self@.in_bounds(pos),
        ensures
            r.tiles() == self@.cell(pos),
    {
        let i = self.index_of(pos);
        &self.cells[i]
    }

    fn push_snapshot(&self, out: &mut Vec<(Vec<u8>, Position)>, q: Position)
        requires
            self@.wf(),
        ensures
            owned_view(final(out)@) == owned_view(old(out)@) + self@.snapshot_of(q),
    {
        if self.pos_in_bounds(q) {
            let i = self.index_of(q);
            let ghost before = out@;
            out.push((self.cells[i].tile_list(), q));
            assert(owned_view(out@) =~= owned_view(before) + self@.snapshot_of(q));
        } else {
            assert(owned_view(out@) =~= owned_view(out@) + self@.snapshot_of(q));
        }
    }

    /// The snapshots of the in-bounds cardinal neighbours of `pos`.
    fn snapshots(&self, pos: Position) -> (r: Vec<(Vec<u8>, Position)>)
        requires
            self@.wf(),
            self@.in_bounds(pos),
        ensures
            owned_view(r@) == self@.snapshots(pos),
    {
        proof {
            lemma_index_bounds(self.width as int, self.height as int, pos.x as int, pos.y as int);
        }
        let n = pos.cardinal_neighbours();
        let mut out: Vec<(Vec<u8>, Position)> = Vec::new();
        assert(owned_view(out@) =~= Seq::empty());
        self.push_snapshot(&mut out, n[0]);
        self.push_snapshot(&mut out, n[1]);
        self.push_snapshot(&mut out, n[2]);
        self.push_snapshot(&mut out, n[3]);
        assert(owned_view(out@) =~= self@.snapshots(pos));
        out
    }

    /// Fixes the cell at `position` to the single tile `index`.
    pub fn collapse_position(&mut self, position: Position, index: u8)
        requires
            old(self).wf(),
            old(self)@.in_bounds(position),
            index < old(self)@.num_tiles,
        ensures
            final(self).wf(),
            final(self)@.width == old(self)@.width,
            final(self)@.height == old(self)@.height,
            final(self)@.num_tiles == old(self)@.num_tiles,
            final(self)@.cells == old(self)@.cells.update(old(self)@.index(position), seq![index]),
    {
        let i = self.index_of(position);
        let cell = C::single(index);
        let ghost before = self@;
        self.cells.set(i, cell);
        assert(self@.cells =~= before.cells.update(i as int, seq![index]));
        assert forall|j: int| 0 <= j < self@.cells.len() implies #[trigger] cell_wf(self@.cells[j], self@.num_tiles) by {
            if j != i {
                assert(self@.cells[j] == before.cells[j]);
            }
        }
    }

    /// Whether no cell admits more than one tile.
    pub fn collapsed(&self) -> (r: bool)
        requires
            self@.wf(),
        ensures
            r == self@.fully_collapsed(),
    {
        let mut i: usize = 0;
        while i < self.cells.len()
            invariant
                i <= self@.cells.len(),
                forall|j: int| 0 <= j < i ==> #[trigger] self@.cells[j].len() <= 1,
            decreases self@.cells.len() - i,
        {
            if self.cells[i].count() > 1 {
                assert(self@.cells[i as int].len() > 1);
                return false;
            }
            i += 1;
        }
        true
    }

    /// The first position, in row-major order, of least entropy among the
    /// cells that admit more than one tile; `None` when there is none.
    pub fn get_min_entropy_position(&self) -> (r: Option<Position>)
        requires
            self@.wf(),
        ensures
            r is None <==> self@.fully_collapsed(),
            r matches Some(p) ==> {
                &&& self@.in_bounds(p)
                &&& self@.cell(p).len() > 1
                &&& forall|i: int|
                    0 <= i < self@.cells.len() && #[trigger] self@.cells[i].len() > 1
                        ==> self@.cell(p).len() <= self@.cells[i].len()
                &&& forall|i: int|
                    0 <= i < self@.index(p) && #[trigger] self@.cells[i].len() > 1
                        ==> self@.cell(p).len() < self@.cells[i].len()
            },
    {
        let mut best: Option<(usize, usize)> = None;
        let mut i: usize = 0;
        while i < self.cells.len()
            invariant
                i <= self@.cells.len(),
                best is None ==> forall|j: int| 0 <= j < i ==> #[trigger] self@.cells[j].len() <= 1,
                best matches Some((b, e)) ==> {
                    &&& b < i
                    &&& e == self@.cells[b as int].len()
                    &&& e > 1
                    &&& forall|j: int|
                        0 <= j < i && #[trigger] self@.cells[j].len() > 1 ==> e <= self@.cells[j].len()
                    &&& forall|j: int|
                        0 <= j < b && #[trigger] self@.cells[j].len() > 1 ==> e < self@.cells[j].len()
                },
            decreases self@.cells.len() - i,
        {
            let e = self.cells[i].count();
            if e > 1 {
                match best {
                    None => {
                        best = Some((i, e));
                    },
                    Some((_, be)) => {
                        if e < be {
                            best = Some((i, e));
                        }
                    },
                }
            }
            i += 1;
        }
        match best {
            None => None,
            Some((b, _)) => Some(self.position_of(b)),
        }
    }

    /// Propagates a change at `collapsed_position` through the board with a
    /// FIFO worklist: each in-bounds, non-collapsed neighbour of a popped
    /// position is reduced by the cell-update algorithm, and pushed when it
    /// lost a tile. Fails at the first cell left without any tile. On
    /// success every cell that was settled before, and every neighbour of
    /// `collapsed_position`, is settled.
    pub fn propagate<T, K: Constraint<T>>(
        &mut self,
        collapsed_position: Position,
        tile_constraints: &TileConstraints<K>,
        all_tiles: &[T],
    ) -> (r: Result<(), WfcError>)
        requires
            old(self).wf(),
            old(self)@.in_bounds(collapsed_position),
        ensures
            final(self).wf(),
            final(self)@.width == old(self)@.width,
            final(self)@.height == old(self)@.height,
            final(self)@.num_tiles == old(self)@.num_tiles,
            final(self)@.cells.len() == old(self)@.cells.len(),
            forall|i: int|
                0 <= i < old(self)@.cells.len() ==> #[trigger] subset_of(
                    final(self)@.cells[i],
                    old(self)@.cells[i],
                ),
            forall|i: int|
                0 <= i < old(self)@.cells.len() && #[trigger] old(self)@.cells[i].len() <= 1
                    ==> final(self)@.cells[i] == old(self)@.cells[i],
            forall|i: int|
                0 <= i < old(self)@.cells.len() && #[trigger] old(self)@.cells[i].len() > 0
                    ==> final(self)@.cells[i].len() > 0,
            total_entropy(final(self)@.cells) <= total_entropy(old(self)@.cells),
            r is Ok ==> forall|p: Position|
                #[trigger] old(self)@.owed(final(self)@, tile_constraints@, all_tiles@, collapsed_position, p)
                    ==> final(self)@.settled(tile_constraints@, all_tiles@, p),
            old(self)@.no_empty_cell() && old(self)@.nothing_fits::<T, K>(tile_constraints@) && old(self)@.cell(
                collapsed_position,
            ).len() == 1 && old(self)@.first_open(collapsed_position) is Some ==> r == Err::<(), WfcError>(
                WfcError::CellHasZeroEntropy(old(self)@.first_open(collapsed_position)->Some_0),
            ),
            old(self)@.no_empty_cell() && old(self)@.has_universal::<T, K>(tile_constraints@) ==> r is Ok
                && final(self)@.has_universal::<T, K>(tile_constraints@),
            r is Ok && all_symmetric_pairwise::<T, K>(tile_constraints@) && (forall|p: Position, x: Position|
                #[trigger] old(self)@.near_ok::<T, K>(tile_constraints@, seq![collapsed_position], p, 4, p, x))
                ==> final(self)@.fits_neighbours::<T, K>(tile_constraints@),
            r matches Err(e) ==> e matches WfcError::CellHasZeroEntropy(p) && final(self)@.in_bounds(p)
                && final(self)@.update(tile_constraints@, all_tiles@, p).len() == 0
                && final(self)@.cell(p).len() != 1 && (old(self)@.no_empty_cell() ==> final(self)@.cell(p).len() > 1),
    {
        let ghost start = self@;
        let ghost cs = tile_constraints@;
        let ghost ts = all_tiles@;
        let ghost hyp = all_symmetric_pairwise::<T, K>(cs) && forall|p: Position, x: Position|
            #[trigger] start.near_ok::<T, K>(cs, seq![collapsed_position], p, 4, p, x);
        let ghost hu = start.no_empty_cell() && start.has_universal::<T, K>(cs);
        let ghost u: u8 = if hu {
            choose|u: u8| universal_tile::<T, K>(cs, start.num_tiles, u) && #[trigger] start.keeps(u)
        } else {
            0
        };
        let ghost hz = start.no_empty_cell() && start.nothing_fits::<T, K>(cs) && start.cell(collapsed_position).len()
            == 1 && start.first_open(collapsed_position) is Some;
        self.propagation_queue.push_back(collapsed_position);
        assert(self.propagation_queue@ =~= seq![collapsed_position]);
        assert forall|p: Position| #[trigger] start.owed(self@, cs, ts, collapsed_position, p) implies self@.settled(
            cs,
            ts,
            p,
        ) || pending(self.propagation_queue@, p) by {
            if adjacent(collapsed_position, p) {
                assert(self.propagation_queue@[0] == collapsed_position);
            }
        }
        loop
            invariant
                self@.wf(),
                start == old(self)@,
                cs == tile_constraints@,
                ts == all_tiles@,
                self@.width == start.width,
                self@.height == start.height,
                self@.num_tiles == start.num_tiles,
                self@.cells.len() == start.cells.len(),
                forall|k: int|
                    0 <= k < self.propagation_queue@.len() ==> self@.in_bounds(
                        #[trigger] self.propagation_queue@[k],
                    ),
                forall|i: int|
                    0 <= i < start.cells.len() ==> #[trigger] subset_of(self@.cells[i], start.cells[i]),
                forall|i: int|
                    0 <= i < start.cells.len() && #[trigger] start.cells[i].len() <= 1 ==> self@.cells[i]
                        == start.cells[i],
                forall|i: int|
                    0 <= i < start.cells.len() && #[trigger] start.cells[i].len() > 0
                        ==> self@.cells[i].len() > 0,
                total_entropy(self@.cells) <= total_entropy(start.cells),
                forall|p: Position|
                    #[trigger] start.owed(self@, cs, ts, collapsed_position, p) ==> self@.settled(cs, ts, p)
                        || pending(self.propagation_queue@, p),
                hyp ==> all_symmetric_pairwise::<T, K>(cs),
                hyp ==> forall|p: Position, x: Position|
                    #[trigger] self@.near_ok::<T, K>(cs, self.propagation_queue@, p, 4, p, x),
                hu ==> start.no_empty_cell() && universal_tile::<T, K>(cs, start.num_tiles, u) && self@.keeps(u),
                hu == (start.no_empty_cell() && start.has_universal::<T, K>(cs)),
                hz == (start.no_empty_cell() && start.nothing_fits::<T, K>(cs) && start.cell(collapsed_position).len()
                    == 1 && start.first_open(collapsed_position) is Some),
                hz ==> self@ == start && self.propagation_queue@ == seq![collapsed_position],
            ensures
                self.wf(),
                self@.width == start.width,
                self@.height == start.height,
                self@.num_tiles == start.num_tiles,
                self@.cells.len() == start.cells.len(),
                forall|i: int|
                    0 <= i < start.cells.len() ==> #[trigger] subset_of(self@.cells[i], start.cells[i]),
                forall|i: int|
                    0 <= i < start.cells.len() && #[trigger] start.cells[i].len() <= 1 ==> self@.cells[i]
                        == start.cells[i],
                forall|i: int|
                    0 <= i < start.cells.len() && #[trigger] start.cells[i].len() > 0
                        ==> self@.cells[i].len() > 0,
                total_entropy(self@.cells) <= total_entropy(start.cells),
                forall|p: Position|
                    #[trigger] start.owed(self@, cs, ts, collapsed_position, p) ==> self@.settled(cs, ts, p),
                hyp ==> self@.fits_neighbours::<T, K>(cs),
                hu ==> universal_tile::<T, K>(cs, start.num_tiles, u) && self@.keeps(u),
            decreases total_entropy(self@.cells), self.propagation_queue@.len(),
        {
            let ghost queue_before = self.propagation_queue@;
            let q = match self.propagation_queue.pop_front() {
                Some(q) => q,
                None => {
                    assert(self.propagation_queue@ =~= Seq::<Position>::empty());
                    break;
                },
            };
            let ghost t0 = total_entropy(self@.cells);
            let ghost l0 = self.propagation_queue@.len();
            proof {
                lemma_index_bounds(self.width as int, self.height as int, q.x as int, q.y as int);
                assert(self@.in_bounds(queue_before[0]));
                assert forall|p: Position| #[trigger] start.owed(self@, cs, ts, collapsed_position, p) implies self@.settled(
                    cs,
                    ts,
                    p,
                ) || pending(self.propagation_queue@, p) || neighbour_from(q, p, 0) by {
                    if !self@.settled(cs, ts, p) {
                        let k = choose|k: int| 0 <= k < queue_before.len() && adjacent(#[trigger] queue_before[k], p);
                        if k == 0 {
                            self@.lemma_neighbours(q, p);
                        } else {
                            assert(self.propagation_queue@[k - 1] == queue_before[k]);
                        }
                    }
                }
                if hyp {
                    assert forall|p: Position, x: Position| #[trigger] self@.near_ok::<T, K>(
                        cs,
                        self.propagation_queue@,
                        q,
                        0,
                        p,
                        x,
                    ) by {
                        assert(self@.near_ok::<T, K>(cs, queue_before, p, 4, p, x));
                        if pending(queue_before, p) && !pending(self.propagation_queue@, p) {
                            let k = choose|k: int| 0 <= k < queue_before.len() && adjacent(#[trigger] queue_before[k], p);
                            if k == 0 {
                                self@.lemma_neighbours(q, p);
                            } else {
                                assert(self.propagation_queue@[k - 1] == queue_before[k]);
                            }
                        }
                    }
                }
            }
            let neighbours = q.cardinal_neighbours();
            let mut d: usize = 0;
            while d < 4
                invariant
                    d <= 4,
                    self@.wf(),
                    start == old(self)@,
                    cs == tile_constraints@,
                    ts == all_tiles@,
                    self@.in_bounds(q),
                    neighbours@ == q.cardinal_neighbours_spec(),
                    self@.width == start.width,
                    self@.height == start.height,
                    self@.num_tiles == start.num_tiles,
                    self@.cells.len() == start.cells.len(),
                    forall|k: int|
                        0 <= k < self.propagation_queue@.len() ==> self@.in_bounds(
                            #[trigger] self.propagation_queue@[k],
                        ),
                    forall|i: int|
                        0 <= i < start.cells.len() ==> #[trigger] subset_of(
                            self@.cells[i],
                            start.cells[i],
                        ),
                    forall|i: int|
                        0 <= i < start.cells.len() && #[trigger] start.cells[i].len() <= 1
                            ==> self@.cells[i] == start.cells[i],
                    forall|i: int|
                        0 <= i < start.cells.len() && #[trigger] start.cells[i].len() > 0
                            ==> self@.cells[i].len() > 0,
                    total_entropy(self@.cells) <= t0,
                    t0 <= total_entropy(start.cells),
                    total_entropy(self@.cells) < t0 || self.propagation_queue@.len() == l0,
                    forall|p: Position|
                        #[trigger] start.owed(self@, cs, ts, collapsed_position, p) ==> self@.settled(cs, ts, p)
                            || pending(self.propagation_queue@, p) || neighbour_from(q, p, d as int),
                    hyp ==> all_symmetric_pairwise::<T, K>(cs),
                    hyp ==> forall|p: Position, x: Position|
                        #[trigger] self@.near_ok::<T, K>(cs, self.propagation_queue@, q, d as int, p, x),
                    hu ==> start.no_empty_cell() && universal_tile::<T, K>(cs, start.num_tiles, u) && self@.keeps(u),
                    hu == (start.no_empty_cell() && start.has_universal::<T, K>(cs)),
                    hz == (start.no_empty_cell() && start.nothing_fits::<T, K>(cs) && start.cell(collapsed_position).len()
                        == 1 && start.first_open(collapsed_position) is Some),
                    hz ==> self@ == start && q == collapsed_position && forall|e: int|
                        0 <= e < d ==> !start.open_at(#[trigger] q.cardinal_neighbours_spec()[e]),
                decreases 4 - d,
            {
                let pos = neighbours[d];
                let ghost before = self@;
                let ghost queue_mid = self.propagation_queue@;
                let ghost dd = d as int;
                d += 1;
                proof {
                    assert forall|p: Position| #[trigger] start.owed(before, cs, ts, collapsed_position, p) implies before.settled(
                        cs,
                        ts,
                        p,
                    ) || pending(queue_mid, p) || neighbour_from(q, p, d as int) || p == pos by {
                        if neighbour_from(q, p, dd) && !neighbour_from(q, p, d as int) {
                            let e = choose|e: int| dd <= e < 4 && #[trigger] q.cardinal_neighbours_spec()[e] == p;
                            assert(e == dd);
                        }
                    }
                    if hyp {
                        assert forall|p: Position, x: Position| p != pos implies #[trigger] before.near_ok::<T, K>(
                            cs,
                            queue_mid,
                            q,
                            d as int,
                            p,
                            x,
                        ) by {
                            assert(before.near_ok::<T, K>(cs, queue_mid, q, dd, p, x));
                            if neighbour_from(q, p, dd) && !neighbour_from(q, p, d as int) {
                                let e = choose|e: int| dd <= e < 4 && #[trigger] q.cardinal_neighbours_spec()[e] == p;
                                assert(e == dd);
                            }
                        }
                    }
                }
                if !self.pos_in_bounds(pos) {
                    proof {
                        assert(hz ==> !start.open_at(q.cardinal_neighbours_spec()[dd]));
                        if hyp {
                            assert forall|p: Position, x: Position| #[trigger] self@.near_ok::<T, K>(
                                cs,
                                self.propagation_queue@,
                                q,
                                d as int,
                                p,
                                x,
                            ) by {
                                if p != pos {
                                    assert(before.near_ok::<T, K>(cs, queue_mid, q, d as int, p, x));
                                }
                            }
                        }
                    }
                    continue;
                }
                let ri = self.index_of(pos);
                let entropy = self.cells[ri].count();
                if entropy == 1 {
                    proof {
                        before.lemma_in_bounds(pos);
                        assert(hz ==> !start.open_at(q.cardinal_neighbours_spec()[dd]));
                        if hyp {
                            assert forall|p: Position, x: Position| #[trigger] self@.near_ok::<T, K>(
                                cs,
                                self.propagation_queue@,
                                q,
                                d as int,
                                p,
                                x,
                            ) by {
                                if p != pos {
                                    assert(before.near_ok::<T, K>(cs, queue_mid, q, d as int, p, x));
                                } else {
                                    assert(before.near_ok::<T, K>(cs, queue_mid, q, dd, p, x));
                                    assert(before.cell(pos).len() == 1);
                                }
                            }
                        }
                    }
                    continue;
                }
                let new_indices = {
                    let owned = self.snapshots(pos);
                    let snaps = borrow_snapshots(&owned);
                    let current = self.cells[ri].tile_list();
                    tile_constraints.update_cell(current.as_slice(), pos, snaps.as_slice(), all_tiles)
                };
                proof {
                    lemma_retained(cs, before.cells[ri as int], pos, before.snapshots(pos), ts);
                    if hz {
                        before.lemma_in_bounds(pos);
                        before.lemma_in_bounds(collapsed_position);
                        before.lemma_neighbours(q, pos);
                        assert(adjacent(q, pos));
                        assert forall|t: u8| !new_indices@.contains(t) by {
                            if new_indices@.contains(t) {
                                assert(before.cell(pos).contains(t));
                                let j = choose|j: int| 0 <= j < before.cell(pos).len() && before.cell(pos)[j] == t;
                                assert(cell_wf(before.cell(pos), before.num_tiles));
                                assert(cell_wf(before.cell(collapsed_position), before.num_tiles));
                                before.lemma_kept_fits(cs, ts, pos, collapsed_position, t);
                                assert(!compatible::<T, K>(cs, t, before.cell(collapsed_position)[0]));
                            }
                        }
                        if new_indices@.len() > 0 {
                            assert(new_indices@.contains(new_indices@[0]));
                        }
                        assert(start.open_at(pos));
                        assert(start.first_open(collapsed_position) == Some(pos));
                    }
                }
                if new_indices.len() == 0 {
                    self.propagation_queue.clear();
                    assert(self@ == before);
                    proof {
                        before.lemma_in_bounds(pos);
                        if start.no_empty_cell() {
                            assert(start.cells[before.index(pos)].len() > 0);
                        }
                        if hu {
                            assert forall|i: int| 0 <= i < before.cells.len() implies #[trigger] before.cells[i].len() > 0 by {
                                assert(start.cells[i].len() > 0);
                            }
                            assert(before.cells[before.index(pos)].len() == 1 || before.cells[before.index(pos)].contains(u));
                            before.lemma_universal_kept(cs, ts, pos, u);
                            assert(new_indices@.contains(u));
                        }
                    }
                    return Err(WfcError::CellHasZeroEntropy(pos));
                }
                if new_indices.len() < entropy {
                    assert(cell_wf(before.cells[ri as int], before.num_tiles));
                    assert(strictly_ascending(new_indices@));
                    assert forall|m: int| 0 <= m < new_indices@.len() implies #[trigger] new_indices@[m]
                        < before.num_tiles by {
                        assert(new_indices@.contains(new_indices@[m]));
                        let k = choose|k: int|
                            0 <= k < before.cells[ri as int].len() && before.cells[ri as int][k]
                                == new_indices@[m];
                    }
                    let cell = C::from_ascending(new_indices.as_slice());
                    proof {
                        lemma_total_update(before.cells, ri as int, new_indices@);
                    }
                    self.cells.set(ri, cell);
                    assert(self@.cells =~= before.cells.update(ri as int, new_indices@));
                    assert forall|j: int| 0 <= j < self@.cells.len() implies #[trigger] cell_wf(
                        self@.cells[j],
                        self@.num_tiles,
                    ) by {
                        if j == ri {
                            assert(cell_wf(before.cells[j], before.num_tiles));
                        } else {
                            assert(self@.cells[j] == before.cells[j]);
                        }
                    }
                    assert forall|j: int| 0 <= j < start.cells.len() implies #[trigger] subset_of(
                        self@.cells[j],
                        start.cells[j],
                    ) by {
                        if j == ri {
                            assert(subset_of(before.cells[j], start.cells[j]));
                        } else {
                            assert(self@.cells[j] == before.cells[j]);
                        }
                    }
                    proof {
                        if hu {
                            let now = self@;
                            assert forall|i: int| 0 <= i < now.cells.len() implies #[trigger] now.cells[i].len() == 1
                                || now.cells[i].contains(u) by {
                                if i == ri {
                                    if new_indices@.len() != 1 {
                                        assert(before.cells[i].len() == 1 || before.cells[i].contains(u));
                                        assert forall|j: int| 0 <= j < before.cells.len() implies #[trigger] before.cells[j].len() > 0 by {
                                            assert(start.cells[j].len() > 0);
                                        }
                                        before.lemma_in_bounds(pos);
                                        before.lemma_universal_kept(cs, ts, pos, u);
                                    }
                                } else {
                                    assert(now.cells[i] == before.cells[i]);
                                }
                            }
                        }
                    }
                    self.propagation_queue.push_back(pos);
                    proof {
                        let after = self@;
                        assert forall|p: Position| #[trigger] start.owed(after, cs, ts, collapsed_position, p) implies after.settled(
                            cs,
                            ts,
                            p,
                        ) || pending(self.propagation_queue@, p) || neighbour_from(q, p, d as int) by {
                            assert forall|x: Position| after.in_bounds(x) && x != pos implies after.cell(x)
                                == before.cell(x) by {
                                before.lemma_index_injective(x, pos);
                                before.lemma_in_bounds(x);
                            }
                            before.lemma_in_bounds(pos);
                            if p == pos {
                                after.lemma_settled_frame(before, cs, ts, pos);
                                lemma_retained_idempotent(cs, before.cell(pos), pos, before.snapshots(pos), ts);
                            } else if adjacent(pos, p) {
                                assert(self.propagation_queue@[queue_mid.len() as int] == pos);
                            } else {
                                assert(after.cell(p) == before.cell(p));
                                if start.changed_near(after, p) {
                                    if after.cell(p) == start.cell(p) {
                                        let x = choose|x: Position|
                                            start.in_bounds(x) && #[trigger] adjacent(x, p) && after.cell(x)
                                                != start.cell(x);
                                        assert(x != pos);
                                        assert(after.cell(x) == before.cell(x));
                                    }
                                    assert(start.changed_near(before, p));
                                }
                                assert(start.owed(before, cs, ts, collapsed_position, p));
                                after.lemma_settled_frame(before, cs, ts, p);
                                if pending(queue_mid, p) {
                                    let k = choose|k: int| 0 <= k < queue_mid.len() && adjacent(#[trigger] queue_mid[k], p);
                                    assert(self.propagation_queue@[k] == queue_mid[k]);
                                }
                            }
                        }
                        if hyp {
                            assert forall|x: Position| after.in_bounds(x) && x != pos implies after.cell(x)
                                == before.cell(x) by {
                                before.lemma_index_injective(x, pos);
                                before.lemma_in_bounds(x);
                            }
                            before.lemma_in_bounds(pos);
                            assert(after.cell(pos) == new_indices@);
                            assert forall|p: Position, x: Position| #[trigger] after.near_ok::<T, K>(
                                cs,
                                self.propagation_queue@,
                                q,
                                d as int,
                                p,
                                x,
                            ) by {
                                if after.in_bounds(p) && after.in_bounds(x) && adjacent(p, x) && after.cell(x).len() == 1 {
                                    if p == pos {
                                        assert(after.cell(x) == before.cell(x));
                                        assert forall|t: u8| after.cell(pos).contains(t) implies #[trigger] compatible::<T, K>(
                                            cs,
                                            t,
                                            after.cell(x)[0],
                                        ) by {
                                            before.lemma_kept_fits(cs, ts, pos, x, t);
                                        }
                                    } else if x == pos {
                                        if after.cell(p).len() == 1 {
                                            assert(after.cell(p) == before.cell(p));
                                            let b = after.cell(pos)[0];
                                            assert(after.cell(pos).contains(b));
                                            assert(before.cell(p) =~= seq![before.cell(p)[0]]);
                                            before.lemma_kept_fits(cs, ts, pos, p, b);
                                            assert forall|t: u8| after.cell(p).contains(t) implies #[trigger] compatible::<T, K>(
                                                cs,
                                                t,
                                                after.cell(x)[0],
                                            ) by {
                                                assert(t == before.cell(p)[0]);
                                            }
                                        } else {
                                            assert(self.propagation_queue@[queue_mid.len() as int] == pos);
                                        }
                                    } else {
                                        assert(after.cell(p) == before.cell(p));
                                        assert(after.cell(x) == before.cell(x));
                                        assert(before.near_ok::<T, K>(cs, queue_mid, q, d as int, p, x));
                                        if pending(queue_mid, p) {
                                            let k = choose|k: int| 0 <= k < queue_mid.len() && adjacent(#[trigger] queue_mid[k], p);
                                            assert(self.propagation_queue@[k] == queue_mid[k]);
                                        }
                                    }
                                }
                            }
                        }
                    }
                } else {
                    proof {
                        lemma_retained_full(cs, before.cells[ri as int], pos, before.snapshots(pos), ts);
                        if hyp {
                            assert forall|p: Position, x: Position| #[trigger] self@.near_ok::<T, K>(
                                cs,
                                self.propagation_queue@,
                                q,
                                d as int,
                                p,
                                x,
                            ) by {
                                if p != pos {
                                    assert(before.near_ok::<T, K>(cs, queue_mid, q, d as int, p, x));
                                } else if before.in_bounds(x) && adjacent(pos, x) && before.cell(x).len() == 1 {
                                    assert forall|t: u8| before.cell(pos).contains(t) implies #[trigger] compatible::<T, K>(
                                        cs,
                                        t,
                                        before.cell(x)[0],
                                    ) by {
                                        before.lemma_kept_fits(cs, ts, pos, x, t);
                                    }
                                }
                            }
                        }
                    }
                }
            }
            proof {
                if hz {
                    let n = q.cardinal_neighbours_spec();
                    assert(!start.open_at(n[0]) && !start.open_at(n[1]) && !start.open_at(n[2]) && !start.open_at(n[3]));
                    assert(start.first_open(collapsed_position) is None);
                }
                if hyp {
                    assert forall|p: Position, x: Position| #[trigger] self@.near_ok::<T, K>(
                        cs,
                        self.propagation_queue@,
                        p,
                        4,
                        p,
                        x,
                    ) by {
                        assert(self@.near_ok::<T, K>(cs, self.propagation_queue@, q, 4, p, x));
                    }
                }
            }
        }
        Ok(())
    }

    /// The tile of every cell with its position, in row-major order.
    pub fn get_collapsed_indices(&self) -> (r: Vec<(Position, usize)>)
        requires
            self@.wf(),
            forall|i: int| 0 <= i < self@.cells.len() ==> #[trigger] self@.cells[i].len() == 1,
        ensures
            r@.len() == self@.cells.len(),
            forall|k: int|
                0 <= k < r@.len() ==> #[trigger] r@[k] == (self@.position(k), self@.cells[k][0] as usize),
    {
        let mut out: Vec<(Position, usize)> = Vec::with_capacity(self.cells.len());
        let mut i: usize = 0;
        while i < self.cells.len()
            invariant
                self@.wf(),
                forall|i: int| 0 <= i < self@.cells.len() ==> #[trigger] self@.cells[i].len() == 1,
                i <= self@.cells.len(),
                out@.len() == i,
                forall|k: int|
                    0 <= k < i ==> #[trigger] out@[k] == (self@.position(k), self@.cells[k][0] as usize),
            decreases self@.cells.len() - i,
        {
            let p = self.position_of(i);
            assert(self@.cells[i as int] == self.cells@[i as int].tiles());
            let list = self.cells[i].tile_list();
            let t = list[0];
            out.push((p, t as usize));
            i += 1;
        }
        out
    }
}

} // verus!
