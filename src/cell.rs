use vstd::prelude::*;

verus! {

/// The largest number of distinct tiles a board can hold.
pub const MAX_TILES: usize = 128;

/// A sequence of tile indices in strictly ascending order.
pub open spec fn strictly_ascending(s: Seq<u8>) -> bool {
    forall|i: int, j: int| 0 <= i < j < s.len() ==> s[i] < s[j]
}

/// Two strictly ascending sequences with the same elements are equal.
pub proof fn lemma_ascending_unique(a: Seq<u8>, b: Seq<u8>)
    requires
        strictly_ascending(a),
        strictly_ascending(b),
        forall|t: u8| a.contains(t) <==> b.contains(t),
    ensures
        a == b,
    decreases a.len(),
{
    if a.len() == 0 {
        if b.len() > 0 {
            assert(b.contains(b[0]));
        }
        assert(b =~= a);
    } else {
        assert(a.contains(a[0]));
        assert(b.contains(b[0]));
        let j = choose|j: int| 0 <= j < b.len() && b[j] == a[0];
        let i = choose|i: int| 0 <= i < a.len() && a[i] == b[0];
        assert(a[0] == b[0]);
        let a1 = a.subrange(1, a.len() as int);
        let b1 = b.subrange(1, b.len() as int);
        assert forall|t: u8| a1.contains(t) <==> b1.contains(t) by {
            if a1.contains(t) {
                let k = choose|k: int| 0 <= k < a1.len() && a1[k] == t;
                assert(a[k + 1] == t);
                assert(b.contains(t));
                let m = choose|m: int| 0 <= m < b.len() && b[m] == t;
                assert(m != 0);
                assert(b1[m - 1] == t);
            }
            if b1.contains(t) {
                let k = choose|k: int| 0 <= k < b1.len() && b1[k] == t;
                assert(b[k + 1] == t);
                assert(a.contains(t));
                let m = choose|m: int| 0 <= m < a.len() && a[m] == t;
                assert(m != 0);
                assert(a1[m - 1] == t);
            }
        }
        lemma_ascending_unique(a1, b1);
        assert(a =~= seq![a[0]] + a1);
        assert(b =~= seq![b[0]] + b1);
    }
}

/// The tile indices `0, 1, ..., n - 1`.
pub open spec fn all_indices(n: nat) -> Seq<u8> {
    Seq::new(n, |i: int| i as u8)
}

/// A representation of the set of tile indices still possible at one grid
/// position, as the board uses it. Every representation holds at most
/// `MAX_TILES` tiles and lists them in ascending order.
pub trait TileSet: Sized {
    /// The possible tile indices, in ascending order.
    spec fn tiles(&self) -> Seq<u8>;

    /// A set of all `num_tiles` tiles.
    fn full(num_tiles: usize) -> (r: Self)
        requires
            num_tiles <= MAX_TILES,
        ensures
            r.tiles() == all_indices(num_tiles as nat),
    ;

    /// The set of the single tile `index`.
    fn single(index: u8) -> (r: Self)
        requires
            index < MAX_TILES,
        ensures
            r.tiles() == seq![index],
    ;

    /// The set of the tiles of an ascending list.
    fn from_ascending(indices: &[u8]) -> (r: Self)
        requires
            strictly_ascending(indices@),
            forall|k: int| 0 <= k < indices@.len() ==> #[trigger] indices@[k] < MAX_TILES,
        ensures
            r.tiles() == indices@,
    ;

    /// The number of possible tiles.
    fn count(&self) -> (r: usize)
        ensures
            r == self.tiles().len(),
    ;

    /// The possible tiles as a list, in ascending order.
    fn tile_list(&self) -> (r: Vec<u8>)
        ensures
            r@ == self.tiles(),
    ;
}

/// The set of tile indices that are still possible at one grid position,
/// held as a list in ascending order.
#[derive(Clone, Debug)]
pub struct Cell {
    indices: Vec<u8>,
}

impl View for Cell {
    type V = Seq<u8>;

    closed spec fn view(&self) -> Seq<u8> {
        self.indices@
    }
}

impl Cell {
    pub open spec fn wf(&self) -> bool {
        strictly_ascending(self@)
    }

    /// A cell in which every one of `num_tiles` tiles is possible.
    pub fn new(num_tiles: usize) -> (r: Cell)
        requires
            num_tiles <= MAX_TILES,
        ensures
            r.wf(),
            r@ == all_indices(num_tiles as nat),
    {
        let mut indices: Vec<u8> = Vec::with_capacity(num_tiles);
        let mut i: usize = 0;
        while i < num_tiles
            invariant
                i <= num_tiles <= MAX_TILES,
                indices@ == all_indices(i as nat),
            decreases num_tiles - i,
        {
            indices.push(i as u8);
            i += 1;
            assert(indices@ =~= all_indices(i as nat));
        }
        Cell { indices }
    }

    /// The number of tiles that are still possible.
    pub fn entropy(&self) -> (r: usize)
        ensures
            r == self@.len(),
    {
        self.indices.len()
    }

    /// The possible tile indices, in ascending order.
    pub fn get_possible_indices(&self) -> (r: &[u8])
        ensures
            r@ == self@,
    {
        self.indices.as_slice()
    }

    /// Fixes the cell to the single tile `index`.
    pub fn collapse(&mut self, index: u8)
        ensures
            final(self)@ == seq![index],
            final(self).wf(),
    {
        self.indices.clear();
        self.indices.push(index);
        assert(self@ =~= seq![index]);
    }

    /// Replaces the possible tiles with those of `indices`; repeats are
    /// ignored and the order of `indices` does not matter.
    pub fn set_indices(&mut self, indices: &[u8])
        ensures
            final(self).wf(),
            final(self)@.to_set() == indices@.to_set(),
            strictly_ascending(indices@) ==> final(self)@ == indices@,
    {
        let mut present: Vec<bool> = vec![false; 256];
        let mut k: usize = 0;
        while k < indices.len()
            invariant
                present@.len() == 256,
                k <= indices@.len(),
                forall|v: int| 0 <= v < 256 ==> (present@[v] <==> exists|j: int|
                    0 <= j < k && indices@[j] == v),
            decreases indices@.len() - k,
        {
            let v = indices[k];
            present.set(v as usize, true);
            k += 1;
            assert forall|w: int| 0 <= w < 256 implies (present@[w] <==> exists|j: int|
                0 <= j < k && indices@[j] == w) by {
                if w == v as int {
                    assert(indices@[k - 1] == w);
                } else if present@[w] {
                    let j = choose|j: int| 0 <= j < k - 1 && indices@[j] == w;
                    assert(0 <= j < k && indices@[j] == w);
                }
            }
        }
        let mut out: Vec<u8> = Vec::new();
        let mut v: usize = 0;
        while v < 256
            invariant
                present@.len() == 256,
                v <= 256,
                forall|w: int| 0 <= w < 256 ==> (present@[w] <==> exists|j: int|
                    0 <= j < indices@.len() && indices@[j] == w),
                strictly_ascending(out@),
                forall|i: int| 0 <= i < out@.len() ==> out@[i] < v,
                forall|w: u8| (w as int) < v ==> (out@.contains(w) <==> present@[w as int]),
            decreases 256 - v,
        {
            let ghost prev = out@;
            if present[v] {
                out.push(v as u8);
            }
            v += 1;
            assert forall|w: u8| (w as int) < v implies (out@.contains(w) <==> present@[w as int]) by {
                if w as int == v - 1 {
                    if present@[w as int] {
                        assert(out@[out@.len() - 1] == w);
                    } else {
                        assert(out@ == prev);
                        if out@.contains(w) {
                            let i = choose|i: int| 0 <= i < prev.len() && prev[i] == w;
                        }
                    }
                } else if out@ != prev {
                    assert(out@ == prev.push((v - 1) as u8));
                    if prev.contains(w) {
                        let i = choose|i: int| 0 <= i < prev.len() && prev[i] == w;
                        assert(out@[i] == w);
                    }
                    if out@.contains(w) {
                        let i = choose|i: int| 0 <= i < out@.len() && out@[i] == w;
                        assert(i < prev.len());
                        assert(prev[i] == w);
                    }
                }
            }
        }
        assert forall|w: u8| out@.to_set().contains(w) <==> indices@.to_set().contains(w) by {
            if indices@.to_set().contains(w) {
                let j = choose|j: int| 0 <= j < indices@.len() && indices@[j] == w;
                assert(present@[w as int]);
            }
        }
        assert(out@.to_set() =~= indices@.to_set());
        proof {
            if strictly_ascending(indices@) {
                assert forall|t: u8| out@.contains(t) <==> indices@.contains(t) by {
                assert(out@.to_set().contains(t) == out@.contains(t));
                assert(indices@.to_set().contains(t) == indices@.contains(t));
            }
                lemma_ascending_unique(out@, indices@);
            }
        }
        self.indices = out;
    }

    /// The one remaining tile of a collapsed cell.
    pub fn get_collapsed_index(&self) -> (r: u8)
        requires
            self@.len() == 1,
        ensures
            r == self@[0],
    {
        self.indices[0]
    }

    pub fn is_collapsed(&self) -> (r: bool)
        ensures
            r == (self@.len() == 1),
    {
        self.indices.len() == 1
    }
}

impl TileSet for Cell {
    open spec fn tiles(&self) -> Seq<u8> {
        self@
    }

    fn full(num_tiles: usize) -> (r: Self) {
        Cell::new(num_tiles)
    }

    fn single(index: u8) -> (r: Self) {
        let mut c = Cell::new(0);
        c.collapse(index);
        c
    }

    fn from_ascending(indices: &[u8]) -> (r: Self) {
        let mut c = Cell::new(0);
        c.set_indices(indices);
        c
    }

    fn count(&self) -> (r: usize) {
        self.entropy()
    }

    fn tile_list(&self) -> (r: Vec<u8>) {
        let src = self.get_possible_indices();
        let mut out: Vec<u8> = Vec::with_capacity(src.len());
        let mut i: usize = 0;
        while i < src.len()
            invariant
                i <= src@.len(),
                out@ == src@.take(i as int),
            decreases src@.len() - i,
        {
            out.push(src[i]);
            i += 1;
            assert(out@ =~= src@.take(i as int));
        }
        assert(src@.take(i as int) =~= src@);
        out
    }
}

} // verus!
