use crate::cell::{strictly_ascending, MAX_TILES};
use crate::position::Position;
use vstd::prelude::*;
use vstd::std_specs::cmp::PartialEqSpec;

verus! {

/// The possibility sets and positions of a cell's in-bounds neighbours.
pub open spec fn snapshot_view(n: Seq<(&[u8], Position)>) -> Seq<(Seq<u8>, Position)> {
    n.map_values(|e: (&[u8], Position)| (e.0@, e.1))
}

/// A rule on which tiles may stay possible at a position, judged only from
/// the candidate tile, its position, its neighbours' possibility sets and
/// the tile values.
pub trait Constraint<T> {
    /// Whether `tile` may stay possible at `pos`.
    spec fn accepts(
        &self,
        tile: u8,
        pos: Position,
        neighbours: Seq<(Seq<u8>, Position)>,
        tiles: Seq<T>,
    ) -> bool;

    fn valid(
        &self,
        tile_to_check: (u8, Position),
        neighbours: &[(&[u8], Position)],
        tiles: &[T],
    ) -> (r: bool)
        ensures
            r == self.accepts(tile_to_check.0, tile_to_check.1, snapshot_view(neighbours@), tiles@),
    ;
}

/// Whether `j` is the first index of `tiles` whose value equals `t`.
pub open spec fn is_first_match<T: PartialEq>(tiles: Seq<T>, t: T, j: int) -> bool {
    &&& 0 <= j < tiles.len()
    &&& tiles[j].eq_spec(&t)
    &&& forall|i: int| 0 <= i < j ==> !tiles[i].eq_spec(&t)
}

/// Whether some value of `tiles` equals `t`.
pub open spec fn has_tile<T: PartialEq>(tiles: Seq<T>, t: T) -> bool {
    exists|j: int| 0 <= j < tiles.len() && tiles[j].eq_spec(&t)
}

/// The index of the first tile equal to `t`, if there is one.
pub fn find_tile<T: PartialEq>(tiles: &[T], t: &T) -> (r: Option<usize>)
    requires
        T::obeys_eq_spec(),
    ensures
        r matches Some(j) ==> is_first_match(tiles@, *t, j as int),
        r is None <==> !has_tile(tiles@, *t),
{
    let mut j: usize = 0;
    while j < tiles.len()
        invariant
            T::obeys_eq_spec(),
            j <= tiles@.len(),
            forall|i: int| 0 <= i < j ==> !tiles@[i].eq_spec(t),
        decreases tiles@.len() - j,
    {
        if tiles[j].eq(t) {
            return Some(j);
        }
        j += 1;
    }
    None
}

/// Whether the unordered pair `{a, b}` occurs in `pairs`.
pub open spec fn allows(pairs: Seq<(u8, u8)>, a: u8, b: u8) -> bool {
    exists|k: int| 0 <= k < pairs.len() && (pairs[k] == (a, b) || pairs[k] == (b, a))
}

/// Whether some tile of `candidates` may lie next to `tile`.
pub open spec fn admits_some(pairs: Seq<(u8, u8)>, tile: u8, candidates: Seq<u8>) -> bool {
    exists|j: int| 0 <= j < candidates.len() && allows(pairs, tile, #[trigger] candidates[j])
}

/// Whether every neighbour still admits some tile that may lie next to `tile`.
pub open spec fn neighbours_admit(
    pairs: Seq<(u8, u8)>,
    tile: u8,
    neighbours: Seq<(Seq<u8>, Position)>,
) -> bool {
    forall|i: int| 0 <= i < neighbours.len() ==> #[trigger] admits_some(pairs, tile, neighbours[i].0)
}

/// A constraint listing which tiles may lie next to each other.
#[derive(Clone, Debug)]
pub struct PossibleNeighbours {
    allowed_neighbours: Vec<(u8, u8)>,
}

impl View for PossibleNeighbours {
    type V = Seq<(u8, u8)>;

    closed spec fn view(&self) -> Seq<(u8, u8)> {
        self.allowed_neighbours@
    }
}

impl PossibleNeighbours {
    /// Maps pairs of tile values to pairs of tile indices; each
    /// value must occur in `all_tiles`.
    pub fn new<T: PartialEq>(allowed_neighbours: &[(T, T)], all_tiles: &[T]) -> (r: Self)
        requires
            T::obeys_eq_spec(),
            all_tiles@.len() <= MAX_TILES,
            forall|k: int| 0 <= k < allowed_neighbours@.len() ==> has_tile(all_tiles@, #[trigger] allowed_neighbours@[k].0),
            forall|k: int| 0 <= k < allowed_neighbours@.len() ==> has_tile(all_tiles@, #[trigger] allowed_neighbours@[k].1),
        ensures
            r@.len() == allowed_neighbours@.len(),
            forall|k: int| 0 <= k < r@.len() ==> {
                &&& is_first_match(all_tiles@, allowed_neighbours@[k].0, #[trigger] r@[k].0 as int)
                &&& is_first_match(all_tiles@, allowed_neighbours@[k].1, r@[k].1 as int)
            },
    {
        let mut pairs: Vec<(u8, u8)> = Vec::new();
        let mut k: usize = 0;
        while k < allowed_neighbours.len()
            invariant
                T::obeys_eq_spec(),
                all_tiles@.len() <= MAX_TILES,
                forall|k: int| 0 <= k < allowed_neighbours@.len() ==> has_tile(all_tiles@, #[trigger] allowed_neighbours@[k].0),
                forall|k: int| 0 <= k < allowed_neighbours@.len() ==> has_tile(all_tiles@, #[trigger] allowed_neighbours@[k].1),
                k <= allowed_neighbours@.len(),
                pairs@.len() == k,
                forall|i: int| 0 <= i < k ==> {
                    &&& is_first_match(all_tiles@, allowed_neighbours@[i].0, #[trigger] pairs@[i].0 as int)
                    &&& is_first_match(all_tiles@, allowed_neighbours@[i].1, pairs@[i].1 as int)
                },
            decreases allowed_neighbours@.len() - k,
        {
            let a = find_tile(all_tiles, &allowed_neighbours[k].0);
            let b = find_tile(all_tiles, &allowed_neighbours[k].1);
            assert(has_tile(all_tiles@, allowed_neighbours@[k as int].0));
            assert(has_tile(all_tiles@, allowed_neighbours@[k as int].1));
            match (a, b) {
                (Some(a), Some(b)) => {
                    pairs.push((a as u8, b as u8));
                },
                _ => {},
            }
            k += 1;
        }
        PossibleNeighbours { allowed_neighbours: pairs }
    }

    fn allowed(&self, a: u8, b: u8) -> (r: bool)
        ensures
            r == allows(self@, a, b),
    {
        let mut k: usize = 0;
        while k < self.allowed_neighbours.len()
            invariant
                k <= self@.len(),
                forall|i: int| 0 <= i < k ==> !(self@[i] == (a, b) || self@[i] == (b, a)),
            decreases self@.len() - k,
        {
            let (p, q) = self.allowed_neighbours[k];
            if (p == a && q == b) || (p == b && q == a) {
                return true;
            }
            k += 1;
        }
        false
    }

    /// Whether some tile of `candidates` may lie next to `tile`.
    fn admits_any(&self, tile: u8, candidates: &[u8]) -> (r: bool)
        ensures
            r == admits_some(self@, tile, candidates@),
    {
        let mut j: usize = 0;
        while j < candidates.len()
            invariant
                j <= candidates@.len(),
                forall|i: int| 0 <= i < j ==> !allows(self@, tile, #[trigger] candidates@[i]),
            decreases candidates@.len() - j,
        {
            if self.allowed(tile, candidates[j]) {
                return true;
            }
            j += 1;
        }
        false
    }
}

impl<T> Constraint<T> for PossibleNeighbours {
    open spec fn accepts(
        &self,
        tile: u8,
        pos: Position,
        neighbours: Seq<(Seq<u8>, Position)>,
        tiles: Seq<T>,
    ) -> bool {
        neighbours_admit(self@, tile, neighbours)
    }

    fn valid(
        &self,
        tile_to_check: (u8, Position),
        neighbours: &[(&[u8], Position)],
        tiles: &[T],
    ) -> (r: bool) {
        let tile = tile_to_check.0;
        let ghost view = snapshot_view(neighbours@);
        let mut i: usize = 0;
        while i < neighbours.len()
            invariant
                i <= neighbours@.len(),
                tile == tile_to_check.0,
                view == snapshot_view(neighbours@),
                forall|m: int| 0 <= m < i ==> #[trigger] admits_some(self@, tile, view[m].0),
            decreases neighbours@.len() - i,
        {
            let (candidates, _) = neighbours[i];
            assert(view[i as int].0 == candidates@);
            if !self.admits_any(tile, candidates) {
                assert(!admits_some(self@, tile, view[i as int].0));
                assert(!neighbours_admit(self@, tile, view));
                return false;
            }
            i += 1;
        }
        true
    }
}

/// Whether every constraint of `cs` accepts `tile` at `pos`.
pub open spec fn all_accept<T, K: Constraint<T>>(
    cs: Seq<K>,
    tile: u8,
    pos: Position,
    neighbours: Seq<(Seq<u8>, Position)>,
    tiles: Seq<T>,
) -> bool {
    forall|k: int| 0 <= k < cs.len() ==> #[trigger] cs[k].accepts(tile, pos, neighbours, tiles)
}

/// The tiles of `cell`, in their order, that every constraint accepts.
pub open spec fn retained<T, K: Constraint<T>>(
    cs: Seq<K>,
    cell: Seq<u8>,
    pos: Position,
    neighbours: Seq<(Seq<u8>, Position)>,
    tiles: Seq<T>,
) -> Seq<u8>
    decreases cell.len(),
{
    if cell.len() == 0 {
        Seq::empty()
    } else {
        let rest = retained(cs, cell.drop_last(), pos, neighbours, tiles);
        if all_accept(cs, cell.last(), pos, neighbours, tiles) {
            rest.push(cell.last())
        } else {
            rest
        }
    }
}

/// What is retained is a part of the cell: no tile is ever added, the
/// ascending order is kept, and a tile stays exactly when all constraints
/// accept it.
pub proof fn lemma_retained<T, K: Constraint<T>>(
    cs: Seq<K>,
    cell: Seq<u8>,
    pos: Position,
    neighbours: Seq<(Seq<u8>, Position)>,
    tiles: Seq<T>,
)
    ensures
        ({
            let r = retained(cs, cell, pos, neighbours, tiles);
            &&& r.len() <= cell.len()
            &&& forall|t: u8| r.contains(t) <==> (cell.contains(t) && all_accept(cs, t, pos, neighbours, tiles))
            &&& strictly_ascending(cell) ==> strictly_ascending(r)
        }),
    decreases cell.len(),
{
    if cell.len() > 0 {
        let init = cell.drop_last();
        lemma_retained(cs, init, pos, neighbours, tiles);
        let rest = retained(cs, init, pos, neighbours, tiles);
        let r = retained(cs, cell, pos, neighbours, tiles);
        assert forall|t: u8| cell.contains(t) <==> (init.contains(t) || t == cell.last()) by {
            if cell.contains(t) {
                let i = choose|i: int| 0 <= i < cell.len() && cell[i] == t;
                if i < cell.len() - 1 {
                    assert(init[i] == t);
                }
            }
            if init.contains(t) {
                let i = choose|i: int| 0 <= i < init.len() && init[i] == t;
                assert(cell[i] == t);
            }
        }
        if all_accept(cs, cell.last(), pos, neighbours, tiles) {
            assert forall|t: u8| r.contains(t) <==> (rest.contains(t) || t == cell.last()) by {
                if r.contains(t) {
                    let i = choose|i: int| 0 <= i < r.len() && r[i] == t;
                    if i < rest.len() {
                        assert(rest[i] == t);
                    }
                }
                if rest.contains(t) {
                    let i = choose|i: int| 0 <= i < rest.len() && rest[i] == t;
                    assert(r[i] == t);
                }
                if t == cell.last() {
                    assert(r[r.len() - 1] == t);
                }
            }
            if strictly_ascending(cell) {
                assert forall|i: int| 0 <= i < rest.len() implies rest[i] < cell.last() by {
                    assert(rest.contains(rest[i]));
                    let j = choose|j: int| 0 <= j < init.len() && init[j] == rest[i];
                    assert(cell[j] == init[j]);
                }
                assert forall|i: int, j: int| 0 <= i < j < r.len() implies r[i] < r[j] by {
                    if j < rest.len() {
                        assert(r[i] == rest[i] && r[j] == rest[j]);
                    } else {
                        assert(r[i] == rest[i]);
                    }
                }
            }
        }
    }
}

/// With no constraint every tile is kept.
pub proof fn lemma_retained_unconstrained<T, K: Constraint<T>>(
    cs: Seq<K>,
    cell: Seq<u8>,
    pos: Position,
    neighbours: Seq<(Seq<u8>, Position)>,
    tiles: Seq<T>,
)
    requires
        cs.len() == 0,
    ensures
        retained(cs, cell, pos, neighbours, tiles) == cell,
    decreases cell.len(),
{
    if cell.len() > 0 {
        lemma_retained_unconstrained(cs, cell.drop_last(), pos, neighbours, tiles);
        assert(cell.drop_last().push(cell.last()) =~= cell);
    }
}

/// Filtering twice keeps what filtering once kept.
pub proof fn lemma_retained_idempotent<T, K: Constraint<T>>(
    cs: Seq<K>,
    cell: Seq<u8>,
    pos: Position,
    neighbours: Seq<(Seq<u8>, Position)>,
    tiles: Seq<T>,
)
    ensures
        retained(cs, retained(cs, cell, pos, neighbours, tiles), pos, neighbours, tiles) == retained(
            cs,
            cell,
            pos,
            neighbours,
            tiles,
        ),
    decreases cell.len(),
{
    if cell.len() > 0 {
        lemma_retained_idempotent(cs, cell.drop_last(), pos, neighbours, tiles);
        let rest = retained(cs, cell.drop_last(), pos, neighbours, tiles);
        if all_accept(cs, cell.last(), pos, neighbours, tiles) {
            assert(rest.push(cell.last()).drop_last() =~= rest);
        }
    }
}

/// A filter that drops nothing leaves the cell as it was.
pub proof fn lemma_retained_full<T, K: Constraint<T>>(
    cs: Seq<K>,
    cell: Seq<u8>,
    pos: Position,
    neighbours: Seq<(Seq<u8>, Position)>,
    tiles: Seq<T>,
)
    requires
        retained(cs, cell, pos, neighbours, tiles).len() == cell.len(),
    ensures
        retained(cs, cell, pos, neighbours, tiles) == cell,
    decreases cell.len(),
{
    if cell.len() > 0 {
        let init = cell.drop_last();
        lemma_retained(cs, init, pos, neighbours, tiles);
        if all_accept(cs, cell.last(), pos, neighbours, tiles) {
            lemma_retained_full(cs, init, pos, neighbours, tiles);
            assert(init.push(cell.last()) =~= cell);
        }
    }
}

/// Whether `rel` is symmetric.
pub open spec fn symmetric(rel: spec_fn(u8, u8) -> bool) -> bool {
    forall|a: u8, b: u8| #[trigger] rel(a, b) == rel(b, a)
}

/// Whether some tile of `candidates` is related to `t` by `rel`.
pub open spec fn some_related(rel: spec_fn(u8, u8) -> bool, t: u8, candidates: Seq<u8>) -> bool {
    exists|j: int| 0 <= j < candidates.len() && rel(t, #[trigger] candidates[j])
}

/// Whether every neighbour admits some tile related to `t` by `rel`.
pub open spec fn all_related(rel: spec_fn(u8, u8) -> bool, t: u8, neighbours: Seq<(Seq<u8>, Position)>) -> bool {
    forall|i: int| 0 <= i < neighbours.len() ==> #[trigger] some_related(rel, t, neighbours[i].0)
}

/// Whether `c` accepts a tile exactly when every neighbour admits some tile
/// related to it by `rel`, whatever the position and the tile values.
pub open spec fn pairwise_by<T, K: Constraint<T>>(c: K, rel: spec_fn(u8, u8) -> bool) -> bool {
    forall|t: u8, pos: Position, nbrs: Seq<(Seq<u8>, Position)>, tiles: Seq<T>|
        #[trigger] c.accepts(t, pos, nbrs, tiles) == all_related(rel, t, nbrs)
}

/// Whether `c` is a pairwise constraint with a symmetric relation.
pub open spec fn symmetric_pairwise<T, K: Constraint<T>>(c: K) -> bool {
    exists|rel: spec_fn(u8, u8) -> bool| symmetric(rel) && pairwise_by::<T, K>(c, rel)
}

/// The symmetric relation of a symmetric pairwise constraint.
pub open spec fn relation_of<T, K: Constraint<T>>(c: K) -> spec_fn(u8, u8) -> bool {
    choose|rel: spec_fn(u8, u8) -> bool| symmetric(rel) && pairwise_by::<T, K>(c, rel)
}

/// Whether every constraint of `cs` is symmetric and pairwise.
pub open spec fn all_symmetric_pairwise<T, K: Constraint<T>>(cs: Seq<K>) -> bool {
    forall|k: int| 0 <= k < cs.len() ==> #[trigger] symmetric_pairwise::<T, K>(cs[k])
}

/// Whether the relation of every constraint of `cs` relates `a` to `b`.
pub open spec fn compatible<T, K: Constraint<T>>(cs: Seq<K>, a: u8, b: u8) -> bool {
    forall|k: int| 0 <= k < cs.len() ==> (#[trigger] relation_of::<T, K>(cs[k]))(a, b)
}

/// `PossibleNeighbours` relates two tiles when their unordered pair is
/// allowed, and that relation is symmetric.
pub proof fn lemma_possible_neighbours_pairwise<T>(pn: PossibleNeighbours)
    ensures
        symmetric_pairwise::<T, PossibleNeighbours>(pn),
{
    let rel = |a: u8, b: u8| allows(pn@, a, b);
    assert forall|a: u8, b: u8| #[trigger] rel(a, b) == rel(b, a) by {
        if allows(pn@, a, b) {
            let k = choose|k: int| 0 <= k < pn@.len() && (pn@[k] == (a, b) || pn@[k] == (b, a));
        }
        if allows(pn@, b, a) {
            let k = choose|k: int| 0 <= k < pn@.len() && (pn@[k] == (b, a) || pn@[k] == (a, b));
        }
    }
    assert forall|t: u8, pos: Position, nbrs: Seq<(Seq<u8>, Position)>, tiles: Seq<T>|
        #[trigger] pn.accepts(t, pos, nbrs, tiles) == all_related(rel, t, nbrs) by {
        assert forall|i: int| 0 <= i < nbrs.len() implies #[trigger] admits_some(pn@, t, nbrs[i].0) == some_related(rel, t, nbrs[i].0) by {
            if admits_some(pn@, t, nbrs[i].0) {
                let j = choose|j: int| 0 <= j < nbrs[i].0.len() && allows(pn@, t, #[trigger] nbrs[i].0[j]);
                assert(rel(t, nbrs[i].0[j]));
            }
            if some_related(rel, t, nbrs[i].0) {
                let j = choose|j: int| 0 <= j < nbrs[i].0.len() && rel(t, #[trigger] nbrs[i].0[j]);
                assert(allows(pn@, t, nbrs[i].0[j]));
            }
        }
        if neighbours_admit(pn@, t, nbrs) {
            assert forall|i: int| 0 <= i < nbrs.len() implies #[trigger] some_related(rel, t, nbrs[i].0) by {
                assert(admits_some(pn@, t, nbrs[i].0));
            }
        }
        if all_related(rel, t, nbrs) {
            assert forall|i: int| 0 <= i < nbrs.len() implies #[trigger] admits_some(pn@, t, nbrs[i].0) by {
                assert(some_related(rel, t, nbrs[i].0));
            }
        }
    }
    assert(symmetric(rel) && pairwise_by::<T, PossibleNeighbours>(pn, rel));
}

/// The relation of a `PossibleNeighbours` constraint is its set of allowed
/// unordered pairs.
pub proof fn lemma_possible_neighbours_relation<T>(pn: PossibleNeighbours, a: u8, b: u8)
    ensures
        relation_of::<T, PossibleNeighbours>(pn)(a, b) == allows(pn@, a, b),
{
    lemma_possible_neighbours_pairwise::<T>(pn);
    let rel = relation_of::<T, PossibleNeighbours>(pn);
    let pos = Position { x: 0, y: 0 };
    let nbrs = seq![(seq![b], pos)];
    let tiles = Seq::<T>::empty();
    assert(pn.accepts(a, pos, nbrs, tiles) == all_related(rel, a, nbrs));
    assert(nbrs[0].0[0] == b);
    if rel(a, b) {
        assert(some_related(rel, a, nbrs[0].0));
        assert(all_related(rel, a, nbrs));
        assert(admits_some(pn@, a, nbrs[0].0));
    }
    if allows(pn@, a, b) {
        assert(admits_some(pn@, a, nbrs[0].0));
        assert(neighbours_admit(pn@, a, nbrs));
        assert(some_related(rel, a, nbrs[0].0));
    }
}

/// A list of `PossibleNeighbours` constraints is symmetric and pairwise.
pub proof fn lemma_possible_neighbours_list<T>(cs: Seq<PossibleNeighbours>)
    ensures
        all_symmetric_pairwise::<T, PossibleNeighbours>(cs),
{
    assert forall|k: int| 0 <= k < cs.len() implies #[trigger] symmetric_pairwise::<T, PossibleNeighbours>(cs[k]) by {
        lemma_possible_neighbours_pairwise::<T>(cs[k]);
    }
}

/// Under symmetric pairwise constraints, a tile that every constraint
/// accepts next to the single tile `b` is compatible with `b`, both ways.
pub proof fn lemma_accepted_next_to<T, K: Constraint<T>>(
    cs: Seq<K>,
    t: u8,
    pos: Position,
    neighbours: Seq<(Seq<u8>, Position)>,
    tiles: Seq<T>,
    i: int,
    b: u8,
)
    requires
        all_symmetric_pairwise::<T, K>(cs),
        all_accept(cs, t, pos, neighbours, tiles),
        0 <= i < neighbours.len(),
        neighbours[i].0 == seq![b],
    ensures
        compatible::<T, K>(cs, t, b),
        compatible::<T, K>(cs, b, t),
{
    assert forall|k: int| 0 <= k < cs.len() implies (#[trigger] relation_of::<T, K>(cs[k]))(t, b)
        && relation_of::<T, K>(cs[k])(b, t) by {
        assert(symmetric_pairwise::<T, K>(cs[k]));
        let rel = relation_of::<T, K>(cs[k]);
        assert(cs[k].accepts(t, pos, neighbours, tiles));
        assert(some_related(rel, t, neighbours[i].0));
        let j = choose|j: int| 0 <= j < neighbours[i].0.len() && rel(t, #[trigger] neighbours[i].0[j]);
        assert(neighbours[i].0[j] == b);
        assert(rel(b, t) == rel(t, b));
    }
}

/// Compatibility under symmetric pairwise constraints goes both ways.
pub proof fn lemma_compatible_symmetric<T, K: Constraint<T>>(cs: Seq<K>, a: u8, b: u8)
    requires
        all_symmetric_pairwise::<T, K>(cs),
        compatible::<T, K>(cs, a, b),
    ensures
        compatible::<T, K>(cs, b, a),
{
    assert forall|k: int| 0 <= k < cs.len() implies (#[trigger] relation_of::<T, K>(cs[k]))(b, a) by {
        assert(symmetric_pairwise::<T, K>(cs[k]));
        let rel = relation_of::<T, K>(cs[k]);
        assert(rel(a, b));
        assert(rel(b, a) == rel(a, b));
    }
}

/// The ordered list of constraints configured for a solver.
pub struct TileConstraints<K> {
    constraints: Vec<K>,
}

impl<K> View for TileConstraints<K> {
    type V = Seq<K>;

    closed spec fn view(&self) -> Seq<K> {
        self.constraints@
    }
}

impl<K> TileConstraints<K> {
    pub fn new() -> (r: Self)
        ensures
            r@ == Seq::<K>::empty(),
    {
        TileConstraints { constraints: Vec::new() }
    }

    pub fn add_constraint(&mut self, constraint: K)
        ensures
            final(self)@ == old(self)@.push(constraint),
    {
        self.constraints.push(constraint);
    }

    /// The tiles of `cell_tiles`, in their order, that every constraint
    /// accepts at `cell_position` given the neighbour snapshots.
    pub fn update_cell<T>(
        &self,
        cell_tiles: &[u8],
        cell_position: Position,
        neighbours: &[(&[u8], Position)],
        tiles: &[T],
    ) -> (r: Vec<u8>) where K: Constraint<T>
        ensures
            r@ == retained(self@, cell_tiles@, cell_position, snapshot_view(neighbours@), tiles@),
    {
        let ghost nv = snapshot_view(neighbours@);
        let mut result: Vec<u8> = Vec::new();
        let mut i: usize = 0;
        while i < cell_tiles.len()
            invariant
                i <= cell_tiles@.len(),
                nv == snapshot_view(neighbours@),
                result@ == retained(self@, cell_tiles@.take(i as int), cell_position, nv, tiles@),
            decreases cell_tiles@.len() - i,
        {
            let tile = cell_tiles[i];
            let mut keep = true;
            let mut k: usize = 0;
            while keep && k < self.constraints.len()
                invariant
                    k <= self@.len(),
                    nv == snapshot_view(neighbours@),
                    keep ==> forall|m: int| 0 <= m < k ==> #[trigger] self@[m].accepts(tile, cell_position, nv, tiles@),
                    !keep ==> !all_accept(self@, tile, cell_position, nv, tiles@),
                decreases self@.len() - k,
            {
                if !self.constraints[k].valid((tile, cell_position), neighbours, tiles) {
                    assert(!self@[k as int].accepts(tile, cell_position, nv, tiles@));
                    keep = false;
                }
                k += 1;
            }
            assert(cell_tiles@.take(i + 1).drop_last() =~= cell_tiles@.take(i as int));
            if keep {
                result.push(tile);
            }
            i += 1;
        }
        assert(cell_tiles@.take(i as int) =~= cell_tiles@);
        result
    }
}

impl<K> Default for TileConstraints<K> {
    fn default() -> (r: Self)
        ensures
            r@ == Seq::<K>::empty(),
    {
        TileConstraints::new()
    }
}

} // verus!
