//! Wave function collapse over a rectangular grid of tiles.

pub mod arraycell;
pub mod bitcell;
pub mod board;
pub mod cell;
pub mod constraints;
pub mod playground;
pub mod position;
pub mod random;

pub use crate::arraycell::ArrayCell;
pub use crate::bitcell::BitCell;
pub use crate::board::Board;
pub use crate::cell::{Cell, TileSet};
pub use crate::constraints::{Constraint, PossibleNeighbours, TileConstraints};
pub use crate::position::Position;
pub use crate::random::Random;

use crate::board::{adjacent, lemma_total_update, subset_of, total_entropy, universal_tile, BoardView};
use crate::constraints::{
    all_accept, all_symmetric_pairwise, compatible, find_tile, has_tile, is_first_match, lemma_compatible_symmetric,
    lemma_retained_unconstrained,
};
use crate::cell::{all_indices, strictly_ascending, MAX_TILES};
use crate::random::{lemma_weight_sum_nonneg, lemma_weight_sum_zero, weight_sum};
use std::hash::Hash;
use vstd::prelude::*;
use vstd::std_specs::cmp::PartialEqSpec;

verus! {

/// The ways a configuration or a collapse can fail.
#[derive(Clone, Copy, Debug, PartialEq, Eq, Structural)]
pub enum WfcError {
    /// More tiles were given than a cell can hold.
    TooManyTiles { max: usize, was: usize },
    /// No tile is left for the cell at this position.
    CellHasZeroEntropy(Position),
    /// The weights do not fit the tiles, sum to zero, or overflow a `u32`;
    /// or every tile still possible at a chosen cell has weight zero.
    InvalidWeights,
    /// A seeded tile value is not in the tile list.
    UnknownTile,
    /// A seeded position lies outside the board.
    PositionOutOfBounds(Position),
}

/// The weights of the tiles `idx`, in their order.
pub open spec fn gather(w: Seq<u32>, idx: Seq<u8>) -> Seq<u32> {
    idx.map_values(|i: u8| w[i as int])
}

/// The weights of distinct tiles never sum to more than all weights.
pub proof fn lemma_gather_sum(w: Seq<u32>, idx: Seq<u8>)
    requires
        strictly_ascending(idx),
        forall|j: int| 0 <= j < idx.len() ==> #[trigger] idx[j] < w.len(),
    ensures
        weight_sum(gather(w, idx)) <= weight_sum(w),
    decreases w.len(),
{
    if w.len() == 0 {
        if idx.len() > 0 {
            assert(idx[0] < w.len());
        }
        assert(gather(w, idx) =~= Seq::<u32>::empty());
    } else {
        let n1 = (w.len() - 1) as int;
        let wd = w.drop_last();
        lemma_weight_sum_nonneg(gather(w, idx));
        if idx.len() > 0 && idx.last() == n1 {
            let id = idx.drop_last();
            assert forall|j: int| 0 <= j < id.len() implies #[trigger] id[j] < wd.len() by {
                assert(idx[j] < idx[idx.len() - 1]);
            }
            assert(gather(w, idx).drop_last() =~= gather(wd, id));
            lemma_gather_sum(wd, id);
        } else {
            assert forall|j: int| 0 <= j < idx.len() implies #[trigger] idx[j] < wd.len() by {
                if j < idx.len() - 1 {
                    assert(idx[j] < idx[idx.len() - 1]);
                }
                assert(idx[idx.len() - 1] < w.len());
            }
            assert(gather(w, idx) =~= gather(wd, idx));
            lemma_gather_sum(wd, idx);
        }
    }
}

/// Whether every seed lies on the board and names a known tile.
pub open spec fn seeds_valid<T: PartialEq>(board: BoardView, tiles: Seq<T>, seeds: Seq<(Position, T)>) -> bool {
    forall|k: int| 0 <= k < seeds.len() ==> board.in_bounds(#[trigger] seeds[k].0) && has_tile(tiles, seeds[k].1)
}

/// Whether no seed after the `k`-th one, and before the `n`-th, has its position.
pub open spec fn last_before<T>(seeds: Seq<(Position, T)>, k: int, n: int) -> bool {
    forall|m: int| k < m < n ==> #[trigger] seeds[m].0 != seeds[k].0
}

/// Whether `b` is a board that propagation can reach from `w`'s board and
/// on which the cell-update algorithm leaves no tile at `p`: `b` has the
/// same size and tiles, no empty cell, every cell a part of the cell it had
/// on `w`'s board, and at `p` a cell that is not collapsed.
pub open spec fn contradiction_at<T, K: Constraint<T>>(b: BoardView, w: WfcView<T, K>, p: Position) -> bool {
    &&& b.wf()
    &&& b.width == w.board.width
    &&& b.height == w.board.height
    &&& b.num_tiles == w.board.num_tiles
    &&& b.cells.len() == w.board.cells.len()
    &&& b.no_empty_cell()
    &&& forall|i: int| 0 <= i < b.cells.len() ==> #[trigger] subset_of(b.cells[i], w.board.cells[i])
    &&& b.in_bounds(p)
    &&& b.cell(p).len() > 1
    &&& b.update(w.constraints, w.tiles, p).len() == 0
}

/// Whether one of the seeds before the `k`-th lies at `p`.
pub open spec fn seeded_before<T>(seeds: Seq<(Position, T)>, p: Position, k: int) -> bool {
    exists|m: int| 0 <= m < k && #[trigger] seeds[m].0 == p
}

/// Whether one of the seeds from the `k`-th on lies next to `p`.
pub open spec fn next_to_seed<T>(seeds: Seq<(Position, T)>, p: Position, k: int) -> bool {
    exists|m: int| k <= m < seeds.len() && #[trigger] adjacent(seeds[m].0, p)
}

/// Whether seeding `seeds` on `w` owes a settled cell at `p`: `p` lies on
/// the board and its cell was settled already or lies next to a seed.
pub open spec fn owed_by_seeds<T, K: Constraint<T>>(w: WfcView<T, K>, seeds: Seq<(Position, T)>, p: Position) -> bool {
    w.board.in_bounds(p) && (w.board.settled(w.constraints, w.tiles, p) || next_to_seed(seeds, p, 0))
}

/// Whether `b` is a fully collapsed board that propagation can reach from
/// `w`'s board, whose tiles are those of `v` in row-major order, and on
/// which every constraint accepts each placed tile given the placed tiles of
/// its neighbours.
pub open spec fn solved_by<T: Clone, K: Constraint<T>>(b: BoardView, w: WfcView<T, K>, v: Seq<(Position, T)>) -> bool {
    &&& b.wf()
    &&& b.width == w.board.width
    &&& b.height == w.board.height
    &&& b.cells.len() == w.board.cells.len()
    &&& v.len() == b.cells.len()
    &&& forall|i: int|
        0 <= i < b.cells.len() ==> {
            &&& #[trigger] b.cells[i].len() == 1
            &&& subset_of(b.cells[i], w.board.cells[i])
            &&& b.cells[i][0] < w.tiles.len()
            &&& cloned(w.tiles[b.cells[i][0] as int], v[i].1)
        }
    &&& forall|p: Position| b.in_bounds(p) ==> #[trigger] all_accept(w.constraints, b.cell(p)[0], p, b.snapshots(p), w.tiles)
}

/// A solver fresh from the builder over at least two tiles has no
/// collapsed cell, so every cell fits its neighbours: with symmetric
/// pairwise constraints, such as `PossibleNeighbours`, a successful
/// `collapse` of it places only tiles that every constraint accepts.
pub proof fn lemma_built_fits<T, K: Constraint<T>, C: TileSet>(b: BuilderView<T, K>, w: Wfc<T, K, C>)
    requires
        built_from(b, Ok::<Wfc<T, K, C>, WfcError>(w)),
        b.tiles.len() >= 2,
    ensures
        w@.board.fits_neighbours::<T, K>(w@.constraints),
{
    w.board.lemma_wf();
    assert forall|i: int| 0 <= i < w@.board.cells.len() implies #[trigger] w@.board.cells[i].len() != 1 by {
        assert(w@.board.cells[i] == all_indices(b.tiles.len()));
    }
    w@.board.lemma_fits_without_collapsed::<T, K>(w@.constraints);
}

/// A solver fresh from the builder over at least two tiles and two cells
/// is fresh: every cell admits every tile.
pub proof fn lemma_built_fresh<T, K: Constraint<T>, C: TileSet>(b: BuilderView<T, K>, w: Wfc<T, K, C>)
    requires
        built_from(b, Ok::<Wfc<T, K, C>, WfcError>(w)),
        b.tiles.len() >= 2,
        b.width * b.height >= 2,
    ensures
        w@.board.fresh(),
{
    w.board.lemma_wf();
}

/// On a solver fresh from the builder every cell admits every tile, so a
/// tile compatible with every tile makes propagation infallible: with
/// positive weights `collapse` of it succeeds.
pub proof fn lemma_built_universal<T, K: Constraint<T>, C: TileSet>(b: BuilderView<T, K>, w: Wfc<T, K, C>, u: u8)
    requires
        built_from(b, Ok::<Wfc<T, K, C>, WfcError>(w)),
        universal_tile::<T, K>(w@.constraints, b.tiles.len(), u),
    ensures
        w@.board.has_universal::<T, K>(w@.constraints),
{
    w.board.lemma_wf();
    assert forall|i: int| 0 <= i < w@.board.cells.len() implies #[trigger] w@.board.cells[i].len() == 1
        || w@.board.cells[i].contains(u) by {
        assert(w@.board.cells[i] == all_indices(b.tiles.len()));
        assert(w@.board.cells[i][u as int] == u);
    }
    assert(w@.board.keeps(u));
}

/// Where the first propagation on a fresh board fails when no two tiles
/// are compatible: next to the first cell, to its right, or below it on a
/// board one cell wide.
pub open spec fn first_failure(b: BoardView) -> Position {
    if b.width >= 2 {
        Position { x: 1, y: 0 }
    } else {
        Position { x: 0, y: 1 }
    }
}

/// Whether some board `b` solves `w` with the tiles `v` (see [solved_by]).
pub open spec fn has_solution<T: Clone, K: Constraint<T>>(w: WfcView<T, K>, v: Seq<(Position, T)>) -> bool {
    exists|b: BoardView| #[trigger] solved_by(b, w, v)
}

/// Whether `t` is a clone of the tile of one of the indices in `cell`.
pub open spec fn placed_from<T: Clone>(cell: Seq<u8>, tiles: Seq<T>, t: T) -> bool {
    exists|c: u8| cell.contains(c) && c < tiles.len() && cloned(tiles[c as int], t)
}

/// The weights used when none are given: one for each tile.
pub open spec fn uniform_weights(n: nat) -> Seq<u32> {
    Seq::new(n, |i: int| 1u32)
}

/// Whether `w` is a usable weight vector for `n` tiles.
pub open spec fn valid_weights(w: Seq<u32>, n: nat) -> bool {
    &&& w.len() == n
    &&& 0 < weight_sum(w) <= u32::MAX
}

/// The abstract configuration held by a builder.
pub ghost struct BuilderView<T, K> {
    pub width: nat,
    pub height: nat,
    pub tiles: Seq<T>,
    pub constraints: Seq<K>,
    pub weights: Option<Seq<u32>>,
}

impl<T, K> BuilderView<T, K> {
    /// The weights a solver built from this configuration uses.
    pub open spec fn effective_weights(self) -> Seq<u32> {
        match self.weights {
            Some(w) => w,
            None => uniform_weights(self.tiles.len()),
        }
    }
}

/// Collects the configuration of a [Wfc].
pub struct WfcBuilder<T, K> {
    width: usize,
    height: usize,
    tiles: Vec<T>,
    tile_constraints: TileConstraints<K>,
    random: Random,
    weights: Option<Vec<u32>>,
}

impl<T, K> View for WfcBuilder<T, K> {
    type V = BuilderView<T, K>;

    closed spec fn view(&self) -> BuilderView<T, K> {
        BuilderView {
            width: self.width as nat,
            height: self.height as nat,
            tiles: self.tiles@,
            constraints: self.tile_constraints@,
            weights: match self.weights {
                Some(w) => Some(w@),
                None => None,
            },
        }
    }
}

impl<T, K> WfcBuilder<T, K> {
    /// A builder for a `width` by `height` board over `tiles`, with no
    /// constraint, uniform weights and a seed from system entropy.
    pub fn new(width: usize, height: usize, tiles: Vec<T>) -> (r: Self)
        ensures
            r@.width == width,
            r@.height == height,
            r@.tiles == tiles@,
            r@.constraints == Seq::<K>::empty(),
            r@.weights is None,
    {
        WfcBuilder {
            width,
            height,
            tiles,
            tile_constraints: TileConstraints::new(),
            random: Random::new(),
            weights: None,
        }
    }

    /// Seeds the random choices with a hash of `seed`, which makes the
    /// collapse reproducible.
    pub fn with_seed<S: Hash>(self, seed: S) -> (r: Self)
        ensures
            r@ == self@,
    {
        let mut b = self;
        b.random = Random::from_seed(seed);
        b
    }

    /// Sets one weight per tile, aligned with the tile list.
    pub fn with_weights(self, tile_weights: Vec<u32>) -> (r: Self)
        ensures
            r@ == (BuilderView { weights: Some(tile_weights@), ..self@ }),
    {
        let mut b = self;
        b.weights = Some(tile_weights);
        b
    }

    /// Appends a constraint to the list.
    pub fn with_constraint(self, constraint: K) -> (r: Self)
        ensures
            r@ == (BuilderView { constraints: self@.constraints.push(constraint), ..self@ }),
    {
        let mut b = self;
        b.tile_constraints.add_constraint(constraint);
        b
    }

    /// Validates the configuration and creates a [Wfc] whose cells are [Cell]s.
    pub fn build(self) -> (r: Result<Wfc<T, K, Cell>, WfcError>)
        requires
            self@.width <= isize::MAX,
            self@.height <= isize::MAX,
            self@.width * self@.height <= isize::MAX,
        ensures
            built_from(self@, r),
    {
        self.build_with::<Cell>()
    }

    /// Validates the configuration and creates a [Wfc] whose cells use the
    /// representation `C`.
    pub fn build_with<C: TileSet>(self) -> (r: Result<Wfc<T, K, C>, WfcError>)
        requires
            self@.width <= isize::MAX,
            self@.height <= isize::MAX,
            self@.width * self@.height <= isize::MAX,
        ensures
            built_from(self@, r),
    {
        let n = self.tiles.len();
        if n > MAX_TILES {
            return Err(WfcError::TooManyTiles { max: MAX_TILES, was: n });
        }
        let weights = match self.weights {
            Some(w) => w,
            None => {
                let mut w: Vec<u32> = Vec::with_capacity(n);
                let mut i: usize = 0;
                while i < n
                    invariant
                        i <= n,
                        w@ == Seq::new(i as nat, |k: int| 1u32),
                    decreases n - i,
                {
                    w.push(1);
                    i += 1;
                    assert(w@ =~= Seq::new(i as nat, |k: int| 1u32));
                }
                w
            },
        };
        if weights.len() != n {
            return Err(WfcError::InvalidWeights);
        }
        let mut sum: u64 = 0;
        let mut i: usize = 0;
        while i < n
            invariant
                n == weights@.len(),
                n <= MAX_TILES,
                i <= n,
                sum == weight_sum(weights@.take(i as int)),
                sum <= i * (u32::MAX as int),
            decreases n - i,
        {
            assert(weights@.take(i + 1).drop_last() =~= weights@.take(i as int));
            sum = sum + weights[i] as u64;
            i += 1;
        }
        assert(weights@.take(n as int) =~= weights@);
        if sum == 0 || sum > u32::MAX as u64 {
            return Err(WfcError::InvalidWeights);
        }
        let board = Board::<C>::new(self.width, self.height, n);
        Ok(
            Wfc {
                board,
                tiles: self.tiles,
                tile_constraints: self.tile_constraints,
                random: self.random,
                weights,
            },
        )
    }
}

/// What building from the configuration `b` yields: the capacity error
/// when there are too many tiles, else the weights error when the weights
/// are unusable, else a solver over a board on which every cell admits
/// every tile.
pub open spec fn built_from<T, K, C: TileSet>(b: BuilderView<T, K>, r: Result<Wfc<T, K, C>, WfcError>) -> bool {
    &&& b.tiles.len() > MAX_TILES ==> r == Err::<Wfc<T, K, C>, WfcError>(
        WfcError::TooManyTiles { max: MAX_TILES, was: b.tiles.len() as usize },
    )
    &&& b.tiles.len() <= MAX_TILES && !valid_weights(b.effective_weights(), b.tiles.len())
        ==> r == Err::<Wfc<T, K, C>, WfcError>(WfcError::InvalidWeights)
    &&& b.tiles.len() <= MAX_TILES && valid_weights(b.effective_weights(), b.tiles.len()) ==> (r matches Ok(w)
        && {
        &&& w.wf()
        &&& w@.board.width == b.width
        &&& w@.board.height == b.height
        &&& w@.tiles == b.tiles
        &&& w@.constraints == b.constraints
        &&& w@.weights == b.effective_weights()
        &&& w@.board.cells == Seq::new((b.width * b.height) as nat, |i: int| all_indices(b.tiles.len()))
    })
}

/// The abstract state of a solver.
pub ghost struct WfcView<T, K> {
    pub board: BoardView,
    pub tiles: Seq<T>,
    pub constraints: Seq<K>,
    pub weights: Seq<u32>,
}

/// Runs the wave function collapse; `C` is the representation of a cell.
pub struct Wfc<T, K, C> {
    board: Board<C>,
    tiles: Vec<T>,
    tile_constraints: TileConstraints<K>,
    random: Random,
    weights: Vec<u32>,
}

impl<T, K, C: TileSet> View for Wfc<T, K, C> {
    type V = WfcView<T, K>;

    closed spec fn view(&self) -> WfcView<T, K> {
        WfcView {
            board: self.board@,
            tiles: self.tiles@,
            constraints: self.tile_constraints@,
            weights: self.weights@,
        }
    }
}

impl<T, K, C: TileSet> Wfc<T, K, C> {
    /// The solver's invariant: a well-formed board over exactly the tiles,
    /// no cell without a tile, and one weight per tile with a sum that
    /// fits a `u32`.
    pub closed spec fn wf(&self) -> bool {
        &&& self.board.wf()
        &&& self.board@.num_tiles == self.tiles@.len()
        &&& self.board@.no_empty_cell()
        &&& self.weights@.len() == self.tiles@.len()
        &&& weight_sum(self.weights@) <= u32::MAX
    }

    /// Draws a tile for the cell at `pos`, weighted by the tile weights of
    /// the tiles still possible there.
    fn choose_next_index(&mut self, pos: Position) -> (r: Result<u8, WfcError>)
        requires
            old(self).wf(),
            old(self)@.board.in_bounds(pos),
        ensures
            final(self).wf(),
            final(self)@ == old(self)@,
            r matches Ok(i) ==> old(self)@.board.cell(pos).contains(i) && old(self)@.weights[i as int] > 0,
            r is Err <==> weight_sum(gather(old(self)@.weights, old(self)@.board.cell(pos))) == 0,
            r matches Err(e) ==> e == WfcError::InvalidWeights && forall|k: int|
                0 <= k < old(self)@.board.cell(pos).len() ==> old(self)@.weights[
                #[trigger] old(self)@.board.cell(pos)[k] as int] == 0,
    {
        proof {
            self.board.lemma_wf();
            self.board@.lemma_in_bounds(pos);
        }
        let cell = self.board.get_cell(pos);
        let possible_indices = cell.tile_list();
        let ghost idx = possible_indices@;
        let mut possible_weights: Vec<u32> = Vec::with_capacity(possible_indices.len());
        let mut k: usize = 0;
        while k < possible_indices.len()
            invariant
                idx == possible_indices@,
                idx == self.board@.cell(pos),
                crate::board::cell_wf(idx, self.board@.num_tiles),
                self.board@.num_tiles == self.weights@.len(),
                k <= idx.len(),
                possible_weights@ == gather(self.weights@, idx.take(k as int)),
            decreases idx.len() - k,
        {
            possible_weights.push(self.weights[possible_indices[k] as usize]);
            k += 1;
            assert(possible_weights@ =~= gather(self.weights@, idx.take(k as int)));
        }
        assert(idx.take(k as int) =~= idx);
        proof {
            lemma_gather_sum(self.weights@, idx);
            lemma_weight_sum_zero(possible_weights@);
        }
        match self.random.choose_weighted(possible_weights.as_slice(), possible_indices.as_slice()) {
            Some(i) => {
                proof {
                    let j = choose|j: int|
                        0 <= j < idx.len() && possible_weights@[j] > 0 && idx[j] == i;
                    assert(idx.contains(i));
                }
                Ok(i)
            },
            None => {
                assert forall|k: int| 0 <= k < idx.len() implies self.weights@[#[trigger] idx[k] as int] == 0 by {
                    assert(possible_weights@[k] == 0);
                }
                Err(WfcError::InvalidWeights)
            },
        }
    }
}

impl<T: Clone, K: Constraint<T>, C: TileSet> Wfc<T, K, C> {
    /// Collapses cells until every cell holds one tile: picks the first
    /// cell of least entropy, draws one of its tiles by weight, fixes it and
    /// propagates. Returns each position with its tile, in row-major order.
    pub fn collapse(self) -> (r: Result<Vec<(Position, T)>, WfcError>)
        requires
            self.wf(),
        ensures
            r matches Ok(v) ==> v@.len() == self@.board.width * self@.board.height,
            r matches Ok(v) ==> forall|k: int|
                0 <= k < v@.len() ==> #[trigger] v@[k].0 == self@.board.position(k)
                    && self@.board.in_bounds(v@[k].0),
            r matches Ok(v) ==> forall|k: int|
                0 <= k < v@.len() ==> #[trigger] placed_from(self@.board.cells[k], self@.tiles, v@[k].1),
            self@.board.fully_collapsed() ==> r is Ok,
            self@.board.has_universal::<T, K>(self@.constraints) && (forall|t: int|
                0 <= t < self@.weights.len() ==> #[trigger] self@.weights[t] > 0) ==> r is Ok,
            self@.board.fresh() && self@.board.nothing_fits::<T, K>(self@.constraints) && (forall|t: int|
                0 <= t < self@.weights.len() ==> #[trigger] self@.weights[t] > 0) ==> r == Err::<
                Vec<(Position, T)>,
                WfcError,
            >(WfcError::CellHasZeroEntropy(first_failure(self@.board))),
            r is Ok && all_symmetric_pairwise::<T, K>(self@.constraints) && self@.board.fits_neighbours::<T, K>(
                self@.constraints,
            ) ==> has_solution(self@, r->Ok_0@),
            r matches Err(e) ==> {
                ||| e matches WfcError::CellHasZeroEntropy(p) && exists|b: BoardView|
                    #[trigger] contradiction_at(b, self@, p)
                ||| e == WfcError::InvalidWeights && exists|t: int|
                    0 <= t < self@.weights.len() && #[trigger] self@.weights[t] == 0
            },
            self@.constraints.len() == 0 && (forall|t: int| 0 <= t < self@.weights.len() ==> #[trigger] self@.weights[t] > 0)
                ==> r is Ok,
    {
        let mut wfc = self;
        let ghost hyp = all_symmetric_pairwise::<T, K>(self@.constraints) && self@.board.fits_neighbours::<T, K>(
            self@.constraints,
        );
        let ghost hz = self@.board.fresh() && self@.board.nothing_fits::<T, K>(self@.constraints) && (forall|t: int|
            0 <= t < self@.weights.len() ==> #[trigger] self@.weights[t] > 0);
        let ghost hw = self@.board.has_universal::<T, K>(self@.constraints) && (forall|t: int|
            0 <= t < self@.weights.len() ==> #[trigger] self@.weights[t] > 0);
        proof {
            self.board.lemma_wf();
        }
        loop
            invariant
                wfc.wf(),
                wfc@.tiles == self@.tiles,
                wfc@.weights == self@.weights,
                wfc@.constraints == self@.constraints,
                wfc@.board.width == self@.board.width,
                wfc@.board.height == self@.board.height,
                wfc@.board.num_tiles == self@.board.num_tiles,
                wfc@.board.cells.len() == self@.board.cells.len(),
                forall|i: int|
                    0 <= i < self@.board.cells.len() ==> #[trigger] subset_of(wfc@.board.cells[i], self@.board.cells[i]),
                self@.board.fully_collapsed() ==> wfc@.board == self@.board,
                hyp ==> wfc@.board.fits_neighbours::<T, K>(self@.constraints),
                hyp ==> all_symmetric_pairwise::<T, K>(self@.constraints),
                hyp == (all_symmetric_pairwise::<T, K>(self@.constraints) && self@.board.fits_neighbours::<T, K>(
                    self@.constraints,
                )),
                hw == (self@.board.has_universal::<T, K>(self@.constraints) && (forall|t: int|
                    0 <= t < self@.weights.len() ==> #[trigger] self@.weights[t] > 0)),
                hw ==> wfc@.board.has_universal::<T, K>(self@.constraints),
                hz == (self@.board.fresh() && self@.board.nothing_fits::<T, K>(self@.constraints) && (forall|t: int|
                    0 <= t < self@.weights.len() ==> #[trigger] self@.weights[t] > 0)),
                hz ==> wfc@.board == self@.board,
            ensures
                wfc.wf(),
                wfc@.tiles == self@.tiles,
                wfc@.board.width == self@.board.width,
                wfc@.board.height == self@.board.height,
                wfc@.board.cells.len() == self@.board.cells.len(),
                forall|i: int|
                    0 <= i < self@.board.cells.len() ==> #[trigger] subset_of(wfc@.board.cells[i], self@.board.cells[i]),
                wfc@.board.fully_collapsed(),
                hyp ==> wfc@.board.fits_neighbours::<T, K>(self@.constraints),
                !hz,
                hz == (self@.board.fresh() && self@.board.nothing_fits::<T, K>(self@.constraints) && (forall|t: int|
                    0 <= t < self@.weights.len() ==> #[trigger] self@.weights[t] > 0)),
            decreases total_entropy(wfc@.board.cells),
        {
            proof {
                wfc.board.lemma_wf();
            }
            let pos = match wfc.board.get_min_entropy_position() {
                Some(p) => p,
                None => {
                    proof {
                        if hz {
                            assert(self@.board.cells[0] == all_indices(self@.board.num_tiles));
                            assert(wfc@.board.cells[0].len() > 1);
                        }
                    }
                    break;
                },
            };
            let ghost before = wfc@.board;
            let index = match wfc.choose_next_index(pos) {
                Ok(i) => i,
                Err(e) => {
                    proof {
                        before.lemma_in_bounds(pos);
                        assert(before.cell(pos).len() > 0);
                        let t = before.cell(pos)[0] as int;
                        assert(self@.weights[t] == 0);
                    }
                    return Err(e);
                },
            };
            proof {
                before.lemma_in_bounds(pos);
                let k = choose|k: int| 0 <= k < before.cell(pos).len() && before.cell(pos)[k] == index;
                lemma_total_update(before.cells, before.index(pos), seq![index]);
            }
            wfc.board.collapse_position(pos, index);
            proof {
                assert forall|i: int| 0 <= i < wfc@.board.cells.len() implies #[trigger] wfc@.board.cells[i].len() > 0 by {
                    if i != before.index(pos) {
                        assert(wfc@.board.cells[i] == before.cells[i]);
                    }
                }
                assert forall|i: int| 0 <= i < self@.board.cells.len() implies #[trigger] subset_of(
                    wfc@.board.cells[i],
                    self@.board.cells[i],
                ) by {
                    assert(subset_of(before.cells[i], self@.board.cells[i]));
                    if i == before.index(pos) {
                        assert forall|t: u8| wfc@.board.cells[i].contains(t) implies self@.board.cells[i].contains(t) by {
                            assert(wfc@.board.cells[i] == seq![index]);
                            if wfc@.board.cells[i].contains(t) {
                                assert(t == index);
                            }
                        }
                    } else {
                        assert(wfc@.board.cells[i] == before.cells[i]);
                    }
                }
            }
            let ghost mid = wfc@.board;
            proof {
                if hz {
                    let b0 = self@.board;
                    assert(b0.cells[0] == all_indices(b0.num_tiles));
                    before.lemma_in_bounds(pos);
                    if before.index(pos) > 0 {
                        assert(before.cells[0].len() > 1);
                        assert(before.cell(pos) == all_indices(b0.num_tiles));
                    }
                    let w = b0.width as int;
                    assert(pos.x == 0 && pos.y == 0) by (nonlinear_arith)
                        requires
                            pos.y * w + pos.x == 0,
                            0 <= pos.x,
                            0 <= pos.y,
                            1 <= w,
                    ;
                    assert forall|y: Position| mid.in_bounds(y) && y != pos implies mid.cell(y) == before.cell(y) by {
                        before.lemma_in_bounds(y);
                        before.lemma_index_injective(y, pos);
                    }
                    let f = first_failure(b0);
                    assert(mid.in_bounds(f)) by {
                        if b0.width < 2 {
                            assert(b0.width * b0.height >= 2);
                            assert(b0.height >= 2) by (nonlinear_arith)
                                requires
                                    b0.width <= 1,
                                    b0.width * b0.height >= 2,
                            ;
                        }
                    }
                    before.lemma_in_bounds(f);
                    assert(mid.cell(f) == all_indices(b0.num_tiles));
                    let n = pos.cardinal_neighbours_spec();
                    assert(!mid.in_bounds(n[0]) && !mid.in_bounds(n[2]));
                    assert(mid.first_open(pos) == Some(f));
                    assert forall|i: int| 0 <= i < mid.cells.len() implies #[trigger] mid.cells[i].len() > 0 by {
                        if i != before.index(pos) {
                            assert(mid.cells[i] == before.cells[i]);
                        }
                    }
                }
            }
            proof {
                if hw {
                    let u = choose|u: u8| universal_tile::<T, K>(self@.constraints, before.num_tiles, u) && #[trigger] before.keeps(u);
                    assert forall|i: int| 0 <= i < mid.cells.len() implies #[trigger] mid.cells[i].len() == 1
                        || mid.cells[i].contains(u) by {
                        if i != before.index(pos) {
                            assert(mid.cells[i] == before.cells[i]);
                        }
                    }
                    assert(mid.keeps(u));
                    assert(mid.has_universal::<T, K>(self@.constraints));
                }
            }
            proof {
                if hyp {
                    let cs = self@.constraints;
                    assert forall|y: Position| mid.in_bounds(y) && y != pos implies mid.cell(y) == before.cell(y) by {
                        before.lemma_in_bounds(y);
                        before.lemma_index_injective(y, pos);
                    }
                    assert(mid.cell(pos) == seq![index]);
                    assert forall|p: Position, x: Position| #[trigger] mid.near_ok::<T, K>(cs, seq![pos], p, 4, p, x) by {
                        if mid.in_bounds(p) && mid.in_bounds(x) && adjacent(p, x) && mid.cell(x).len() == 1 {
                            if x == pos {
                                if mid.cell(p).len() == 1 {
                                    let c = before.cell(p)[0];
                                    assert(before.near_ok::<T, K>(cs, Seq::empty(), pos, 4, pos, p));
                                    assert(compatible::<T, K>(cs, index, c));
                                    lemma_compatible_symmetric::<T, K>(cs, index, c);
                                    assert forall|t: u8| mid.cell(p).contains(t) implies #[trigger] compatible::<T, K>(
                                        cs,
                                        t,
                                        mid.cell(x)[0],
                                    ) by {
                                        assert(mid.cell(p) =~= seq![c]);
                                    }
                                } else {
                                    assert(seq![pos][0] == pos);
                                }
                            } else if p == pos {
                                assert(before.near_ok::<T, K>(cs, Seq::empty(), pos, 4, pos, x));
                                assert forall|t: u8| mid.cell(p).contains(t) implies #[trigger] compatible::<T, K>(
                                    cs,
                                    t,
                                    mid.cell(x)[0],
                                ) by {
                                    assert(t == index);
                                }
                            } else {
                                assert(before.near_ok::<T, K>(cs, Seq::empty(), p, 4, p, x));
                            }
                        }
                    }
                }
            }
            match wfc.board.propagate(pos, &wfc.tile_constraints, wfc.tiles.as_slice()) {
                Ok(()) => {},
                Err(e) => {
                    proof {
                        wfc.board.lemma_wf();
                        let b = wfc@.board;
                        if let WfcError::CellHasZeroEntropy(p) = e {
                            assert forall|i: int| 0 <= i < b.cells.len() implies #[trigger] b.cells[i].len() > 0 by {
                                assert(mid.cells[i].len() > 0);
                            }
                            assert forall|i: int| 0 <= i < b.cells.len() implies #[trigger] subset_of(
                                b.cells[i],
                                self@.board.cells[i],
                            ) by {
                                assert(subset_of(b.cells[i], mid.cells[i]));
                                assert(subset_of(mid.cells[i], self@.board.cells[i]));
                            }
                            assert(contradiction_at(b, self@, p));
                            if self@.constraints.len() == 0 {
                                b.lemma_in_bounds(p);
                                assert(mid.cells[b.index(p)].len() > 0);
                                lemma_retained_unconstrained(self@.constraints, b.cell(p), p, b.snapshots(p), self@.tiles);
                            }
                        }
                    }
                    return Err(e);
                },
            }
            proof {
                assert forall|i: int| 0 <= i < wfc@.board.cells.len() implies #[trigger] wfc@.board.cells[i].len() > 0 by {
                    assert(mid.cells[i].len() > 0);
                }
                assert forall|i: int| 0 <= i < self@.board.cells.len() implies #[trigger] subset_of(
                    wfc@.board.cells[i],
                    self@.board.cells[i],
                ) by {
                    assert(subset_of(wfc@.board.cells[i], mid.cells[i]));
                    assert(subset_of(mid.cells[i], self@.board.cells[i]));
                }
                assert(wfc.board.wf());
                assert(wfc@.board.num_tiles == wfc@.tiles.len());
                assert(wfc@.board.no_empty_cell());
                assert(wfc@.weights.len() == wfc@.tiles.len());
            }
        }
        proof {
            wfc.board.lemma_wf();
            assert forall|i: int| 0 <= i < wfc@.board.cells.len() implies #[trigger] wfc@.board.cells[i].len() == 1 by {
                assert(wfc@.board.cells[i].len() > 0);
                assert(wfc@.board.cells[i].len() <= 1);
            }
        }
        proof {
            wfc.board.lemma_wf();
        }
        let indices = wfc.board.get_collapsed_indices();
        let mut out: Vec<(Position, T)> = Vec::with_capacity(indices.len());
        let mut k: usize = 0;
        while k < indices.len()
            invariant
                wfc.wf(),
                wfc@.tiles == self@.tiles,
                wfc@.board.width == self@.board.width,
                wfc@.board.height == self@.board.height,
                indices@.len() == wfc@.board.cells.len(),
                wfc@.board.cells.len() == self@.board.cells.len(),
                forall|i: int|
                    0 <= i < self@.board.cells.len() ==> #[trigger] subset_of(wfc@.board.cells[i], self@.board.cells[i]),
                forall|m: int|
                    0 <= m < indices@.len() ==> #[trigger] indices@[m] == (
                        wfc@.board.position(m),
                        wfc@.board.cells[m][0] as usize,
                    ),
                k <= indices@.len(),
                out@.len() == k,
                forall|m: int|
                    0 <= m < k ==> #[trigger] out@[m].0 == self@.board.position(m)
                        && self@.board.in_bounds(out@[m].0),
                forall|m: int|
                    0 <= m < k ==> #[trigger] placed_from(self@.board.cells[m], self@.tiles, out@[m].1),
                forall|m: int|
                    0 <= m < k ==> cloned(self@.tiles[wfc@.board.cells[m][0] as int], #[trigger] out@[m].1),
                hyp ==> wfc@.board.fits_neighbours::<T, K>(self@.constraints),
                hyp ==> all_symmetric_pairwise::<T, K>(self@.constraints),
                hyp == (all_symmetric_pairwise::<T, K>(self@.constraints) && self@.board.fits_neighbours::<T, K>(
                    self@.constraints,
                )),
                wfc@.constraints == self@.constraints,
            decreases indices@.len() - k,
        {
            let (p, t) = indices[k];
            proof {
                wfc.board.lemma_wf();
                assert(crate::board::cell_wf(wfc@.board.cells[k as int], wfc@.board.num_tiles));
                assert(wfc@.board.cells[k as int].len() > 0);
                wfc@.board.lemma_position(k as int);
            }
            let tile = wfc.tiles[t].clone();
            out.push((p, tile));
            proof {
                assert(cloned(self@.tiles[t as int], out@[k as int].1));
                let c = wfc@.board.cells[k as int][0];
                assert(wfc@.board.cells[k as int].contains(c));
                assert(subset_of(wfc@.board.cells[k as int], self@.board.cells[k as int]));
                assert(placed_from(self@.board.cells[k as int], self@.tiles, out@[k as int].1));
            }
            k += 1;
        }
        proof {
            wfc.board.lemma_wf();
            assert(out@.len() == self@.board.width * self@.board.height);
            if hyp {
                let b = wfc@.board;
                assert forall|i: int| 0 <= i < b.cells.len() implies {
                    &&& #[trigger] b.cells[i].len() == 1
                    &&& subset_of(b.cells[i], self@.board.cells[i])
                    &&& b.cells[i][0] < self@.tiles.len()
                    &&& cloned(self@.tiles[b.cells[i][0] as int], out@[i].1)
                } by {
                    assert(crate::board::cell_wf(b.cells[i], b.num_tiles));
                }
                assert forall|p: Position| b.in_bounds(p) implies #[trigger] all_accept(
                    self@.constraints,
                    b.cell(p)[0],
                    p,
                    b.snapshots(p),
                    self@.tiles,
                ) by {
                    b.lemma_placed_accepted(self@.constraints, self@.tiles, p);
                }
                assert(solved_by(b, self@, out@));
            }
            assert(all_symmetric_pairwise::<T, K>(self@.constraints) && self@.board.fits_neighbours::<T, K>(
                self@.constraints,
            ) ==> has_solution(self@, out@));
        }
        Ok(out)
    }
}

impl<T: PartialEq, K: Constraint<T>, C: TileSet> Wfc<T, K, C> {
    /// The index of the tile of every seed; or the error of the first seed
    /// that lies off the board or names an unknown tile.
    fn seed_indices(&self, tiles: &Vec<(Position, T)>) -> (r: Result<Vec<u8>, WfcError>)
        requires
            self.wf(),
            T::obeys_eq_spec(),
        ensures
            r is Ok <==> seeds_valid(self@.board, self@.tiles, tiles@),
            r matches Ok(ix) ==> ix@.len() == tiles@.len() && forall|m: int|
                0 <= m < tiles@.len() ==> self@.board.in_bounds(#[trigger] tiles@[m].0) && is_first_match(
                    self@.tiles,
                    tiles@[m].1,
                    ix@[m] as int,
                ),
            r matches Err(e) ==> e == WfcError::UnknownTile || e is PositionOutOfBounds,
            r matches Err(WfcError::PositionOutOfBounds(p)) ==> exists|k: int|
                0 <= k < tiles@.len() && #[trigger] tiles@[k].0 == p && !self@.board.in_bounds(p),
            r == Err::<Vec<u8>, WfcError>(WfcError::UnknownTile) ==> exists|k: int|
                0 <= k < tiles@.len() && !has_tile(self@.tiles, #[trigger] tiles@[k].1),
    {
        let n = tiles.len();
        let mut indices: Vec<u8> = Vec::with_capacity(n);
        let mut k: usize = 0;
        while k < n
            invariant
                self.wf(),
                T::obeys_eq_spec(),
                n == tiles@.len(),
                k <= n,
                indices@.len() == k,
                forall|m: int|
                    0 <= m < k ==> self@.board.in_bounds(#[trigger] tiles@[m].0) && is_first_match(
                        self@.tiles,
                        tiles@[m].1,
                        indices@[m] as int,
                    ),
            decreases n - k,
        {
            proof {
                self.board.lemma_wf();
            }
            let pos = tiles[k].0;
            if !self.board.pos_in_bounds(pos) {
                assert(!seeds_valid(self@.board, self@.tiles, tiles@));
                return Err(WfcError::PositionOutOfBounds(pos));
            }
            match find_tile(self.tiles.as_slice(), &tiles[k].1) {
                Some(j) => {
                    indices.push(j as u8);
                },
                None => {
                    assert(!seeds_valid(self@.board, self@.tiles, tiles@));
                    return Err(WfcError::UnknownTile);
                },
            }
            k += 1;
        }
        assert forall|m: int| 0 <= m < tiles@.len() implies self@.board.in_bounds(#[trigger] tiles@[m].0)
            && has_tile(self@.tiles, tiles@[m].1) by {
            assert(k == n);
            assert(self@.board.in_bounds(tiles@[m].0));
            let j = indices@[m] as int;
            assert(self@.tiles[j].eq_spec(&tiles@[m].1));
        }
        Ok(indices)
    }

    /// Pre-seeds the board: checks every seed, then collapses every seeded
    /// position to its tile, and only then propagates from each of them.
    pub fn collapse_tiles(&mut self, tiles: Vec<(Position, T)>) -> (r: Result<(), WfcError>)
        requires
            old(self).wf(),
            T::obeys_eq_spec(),
        ensures
            final(self).wf(),
            final(self)@.tiles == old(self)@.tiles,
            final(self)@.weights == old(self)@.weights,
            final(self)@.constraints == old(self)@.constraints,
            final(self)@.board.width == old(self)@.board.width,
            final(self)@.board.height == old(self)@.board.height,
            !seeds_valid(old(self)@.board, old(self)@.tiles, tiles@) <==> (r matches Err(e) && (e
                == WfcError::UnknownTile || e is PositionOutOfBounds)),
            !seeds_valid(old(self)@.board, old(self)@.tiles, tiles@) ==> final(self)@ == old(self)@,
            r matches Err(WfcError::PositionOutOfBounds(p)) ==> exists|k: int|
                0 <= k < tiles@.len() && #[trigger] tiles@[k].0 == p && !old(self)@.board.in_bounds(p),
            r == Err::<(), WfcError>(WfcError::UnknownTile) ==> exists|k: int|
                0 <= k < tiles@.len() && !has_tile(old(self)@.tiles, #[trigger] tiles@[k].1),
            old(self)@.constraints.len() == 0 && seeds_valid(old(self)@.board, old(self)@.tiles, tiles@)
                ==> r is Ok,
            r matches Err(WfcError::CellHasZeroEntropy(p)) ==> final(self)@.board.in_bounds(p)
                && final(self)@.board.update(final(self)@.constraints, final(self)@.tiles, p).len()
                == 0,
            r is Ok ==> forall|p: Position|
                #[trigger] owed_by_seeds(old(self)@, tiles@, p) ==> final(self)@.board.settled(
                    old(self)@.constraints,
                    old(self)@.tiles,
                    p,
                ),
            r is Ok ==> forall|p: Position|
                old(self)@.board.in_bounds(p) && !seeded_before(tiles@, p, tiles@.len() as int) ==> subset_of(
                    #[trigger] final(self)@.board.cell(p),
                    old(self)@.board.cell(p),
                ),
            r is Ok ==> forall|k: int|
                0 <= k < tiles@.len() && #[trigger] last_before(tiles@, k, tiles@.len() as int)
                    ==> exists|j: int|
                    is_first_match(old(self)@.tiles, tiles@[k].1, j) && final(self)@.board.cell(
                        tiles@[k].0,
                    ) == seq![j as u8],
    {
        let n = tiles.len();
        let indices = match self.seed_indices(&tiles) {
            Ok(ix) => ix,
            Err(e) => {
                return Err(e);
            },
        };
        let ghost start = self@;
        proof {
            self.board.lemma_wf();
        }
        let mut k: usize = 0;
        while k < n
            invariant
                self.wf(),
                start == old(self)@,
                start.board.wf(),
                n == tiles@.len(),
                indices@.len() == n,
                k <= n,
                self@.tiles == start.tiles,
                self@.weights == start.weights,
                self@.constraints == start.constraints,
                self@.board.width == start.board.width,
                self@.board.height == start.board.height,
                forall|m: int|
                    0 <= m < n ==> self@.board.in_bounds(#[trigger] tiles@[m].0) && is_first_match(
                        self@.tiles,
                        tiles@[m].1,
                        indices@[m] as int,
                    ),
                forall|m: int|
                    0 <= m < k && #[trigger] last_before(tiles@, m, k as int) ==> self@.board.cell(
                        tiles@[m].0,
                    ) == seq![indices@[m]],
                forall|x: Position|
                    start.board.in_bounds(x) && !seeded_before(tiles@, x, k as int) ==> #[trigger] self@.board.cell(x)
                        == start.board.cell(x),
                forall|x: Position|
                    start.board.in_bounds(x) && seeded_before(tiles@, x, k as int) ==> #[trigger] self@.board.cell(
                        x,
                    ).len() == 1,
            decreases n - k,
        {
            proof {
                self.board.lemma_wf();
            }
            let pos = tiles[k].0;
            let ghost before = self@.board;
            proof {
                before.lemma_in_bounds(pos);
            }
            self.board.collapse_position(pos, indices[k]);
            proof {
                assert forall|x: Position| start.board.in_bounds(x) && x != pos implies #[trigger] self@.board.cell(x)
                    == before.cell(x) by {
                    before.lemma_in_bounds(x);
                    before.lemma_index_injective(x, pos);
                }
                assert(self@.board.cell(pos).len() == 1);
                assert forall|x: Position| start.board.in_bounds(x) && !seeded_before(tiles@, x, k + 1) implies #[trigger] self@.board.cell(x)
                    == start.board.cell(x) by {
                    assert(tiles@[k as int].0 != x);
                    assert(!seeded_before(tiles@, x, k as int));
                }
                assert forall|x: Position| start.board.in_bounds(x) && seeded_before(tiles@, x, k + 1) implies #[trigger] self@.board.cell(
                    x).len() == 1 by {
                    if x != pos {
                        let m = choose|m: int| 0 <= m < k + 1 && #[trigger] tiles@[m].0 == x;
                        assert(seeded_before(tiles@, x, k as int));
                    }
                }
                assert forall|i: int| 0 <= i < self@.board.cells.len() implies #[trigger] self@.board.cells[i].len() > 0 by {
                    if i != before.index(pos) {
                        assert(self@.board.cells[i] == before.cells[i]);
                    }
                }
                assert forall|m: int|
                    0 <= m < k + 1 && #[trigger] last_before(tiles@, m, k + 1) implies self@.board.cell(
                    tiles@[m].0) == seq![indices@[m]] by {
                    if m < k {
                        assert(tiles@[k as int].0 != tiles@[m].0);
                        assert(last_before(tiles@, m, k as int));
                        assert(before.in_bounds(tiles@[m].0));
                        before.lemma_in_bounds(tiles@[m].0);
                        before.lemma_index_injective(tiles@[k as int].0, tiles@[m].0);
                        assert(before.cell(tiles@[m].0) == seq![indices@[m]]);
                    } else {
                        assert(m == k);
                        assert(tiles@[m].0 == pos);
                    }
                }
            }
            k += 1;
        }
        proof {
            self.board.lemma_wf();
            let cs = start.constraints;
            let ts = start.tiles;
            assert forall|p: Position| #[trigger] owed_by_seeds(start, tiles@, p) implies self@.board.settled(cs, ts, p)
                || next_to_seed(tiles@, p, 0) by {
                if !next_to_seed(tiles@, p, 0) && !seeded_before(tiles@, p, n as int) {
                    assert forall|x: Position| self@.board.in_bounds(x) && adjacent(p, x) implies self@.board.cell(x)
                        == start.board.cell(x) by {
                        if seeded_before(tiles@, x, n as int) {
                            let m = choose|m: int| 0 <= m < n && #[trigger] tiles@[m].0 == x;
                            assert(adjacent(tiles@[m].0, p));
                        }
                    }
                    self@.board.lemma_settled_frame(start.board, cs, ts, p);
                }
            }
        }
        let mut k: usize = 0;
        while k < n
            invariant
                self.wf(),
                start == old(self)@,
                start.board.wf(),
                forall|p: Position|
                    #[trigger] owed_by_seeds(start, tiles@, p) ==> self@.board.settled(start.constraints, start.tiles, p)
                        || next_to_seed(tiles@, p, k as int),
                forall|x: Position|
                    start.board.in_bounds(x) && !seeded_before(tiles@, x, n as int) ==> subset_of(
                        #[trigger] self@.board.cell(x),
                        start.board.cell(x),
                    ),
                n == tiles@.len(),
                indices@.len() == n,
                k <= n,
                self@.tiles == start.tiles,
                self@.weights == start.weights,
                self@.constraints == start.constraints,
                self@.board.width == start.board.width,
                self@.board.height == start.board.height,
                forall|m: int|
                    0 <= m < n ==> self@.board.in_bounds(#[trigger] tiles@[m].0) && is_first_match(
                        self@.tiles,
                        tiles@[m].1,
                        indices@[m] as int,
                    ),
                forall|m: int|
                    0 <= m < n && #[trigger] last_before(tiles@, m, n as int) ==> self@.board.cell(
                        tiles@[m].0,
                    ) == seq![indices@[m]],
            decreases n - k,
        {
            proof {
                self.board.lemma_wf();
            }
            let pos = tiles[k].0;
            let ghost before = self@.board;
            match self.board.propagate(pos, &self.tile_constraints, self.tiles.as_slice()) {
                Ok(()) => {},
                Err(e) => {
                    proof {
                        assert forall|i: int| 0 <= i < self@.board.cells.len() implies #[trigger] self@.board.cells[i].len() > 0 by {
                            assert(before.cells[i].len() > 0);
                        }
                        if let WfcError::CellHasZeroEntropy(p) = e {
                            if start.constraints.len() == 0 {
                                self.board.lemma_wf();
                                let b = self@.board;
                                b.lemma_in_bounds(p);
                                assert(b.cells[b.index(p)].len() > 0);
                                lemma_retained_unconstrained(start.constraints, b.cell(p), p, b.snapshots(p), start.tiles);
                            }
                        }
                    }
                    return Err(e);
                },
            }
            proof {
                assert forall|i: int| 0 <= i < self@.board.cells.len() implies #[trigger] self@.board.cells[i].len() > 0 by {
                    assert(before.cells[i].len() > 0);
                }
                assert forall|m: int|
                    0 <= m < n && #[trigger] last_before(tiles@, m, n as int) implies self@.board.cell(
                    tiles@[m].0) == seq![indices@[m]] by {
                    before.lemma_in_bounds(tiles@[m].0);
                    assert(before.cells[before.index(tiles@[m].0)].len() <= 1);
                }
                let cs = start.constraints;
                let ts = start.tiles;
                assert forall|p: Position| #[trigger] owed_by_seeds(start, tiles@, p) implies self@.board.settled(cs, ts, p)
                    || next_to_seed(tiles@, p, k + 1) by {
                    if !next_to_seed(tiles@, p, k + 1) {
                        if next_to_seed(tiles@, p, k as int) {
                            let m = choose|m: int| k <= m < n && #[trigger] adjacent(tiles@[m].0, p);
                            assert(m == k);
                            assert(adjacent(pos, p));
                        }
                        assert(before.in_bounds(p));
                        assert(before.owed(self@.board, cs, ts, pos, p));
                    }
                }
                assert forall|x: Position|
                    start.board.in_bounds(x) && !seeded_before(tiles@, x, n as int) implies subset_of(
                    #[trigger] self@.board.cell(x),
                    start.board.cell(x),
                ) by {
                    before.lemma_in_bounds(x);
                    assert(subset_of(self@.board.cells[before.index(x)], before.cells[before.index(x)]));
                    assert(subset_of(before.cell(x), start.board.cell(x)));
                }
            }
            k += 1;
        }
        Ok(())
    }
}

} // verus!
