use crate::cell::{all_indices, strictly_ascending, TileSet, MAX_TILES};
use vstd::prelude::*;

verus! {

/// A possibility set held as a fixed-capacity array of tile indices with a
/// length prefix; only the first `len` entries are in use.
#[derive(Clone, Copy, Debug)]
pub struct ArrayCell {
    len: usize,
    indices: [u8; 128],
}

impl ArrayCell {
    #[verifier::type_invariant]
    spec fn inv(&self) -> bool {
        self.len <= MAX_TILES
    }
}

impl View for ArrayCell {
    type V = Seq<u8>;

    closed spec fn view(&self) -> Seq<u8> {
        self.indices@.take(if self.len <= MAX_TILES { self.len as int } else { MAX_TILES as int })
    }
}

impl ArrayCell {
    /// Copies the tiles of `indices`, which must fit the array.
    fn from_slice(indices: &[u8]) -> (r: ArrayCell)
        requires
            indices@.len() <= MAX_TILES,
        ensures
            r@ == indices@,
    {
        let mut array: [u8; 128] = [0u8; 128];
        let mut i: usize = 0;
        while i < indices.len()
            invariant
                i <= indices@.len() <= MAX_TILES,
                array@.len() == 128,
                array@.take(i as int) == indices@.take(i as int),
            decreases indices@.len() - i,
        {
            array[i] = indices[i];
            i += 1;
            assert(array@.take(i as int) =~= indices@.take(i as int));
        }
        assert(indices@.take(i as int) =~= indices@);
        ArrayCell { len: indices.len(), indices: array }
    }
}

impl TileSet for ArrayCell {
    open spec fn tiles(&self) -> Seq<u8> {
        self@
    }

    fn full(num_tiles: usize) -> (r: Self) {
        let mut array: [u8; 128] = [0u8; 128];
        let mut i: usize = 0;
        while i < num_tiles
            invariant
                i <= num_tiles <= MAX_TILES,
                array@.len() == 128,
                array@.take(i as int) == all_indices(i as nat),
            decreases num_tiles - i,
        {
            let ghost prev = array@;
            array[i] = i as u8;
            i += 1;
            assert forall|j: int| 0 <= j < i implies array@[j] == j as u8 by {
                if j < i - 1 {
                    assert(prev.take(i - 1)[j] == all_indices((i - 1) as nat)[j]);
                }
            }
            assert(array@.take(i as int) =~= all_indices(i as nat));
        }
        let r = ArrayCell { len: num_tiles, indices: array };
        assert(r@ == all_indices(num_tiles as nat));
        r
    }

    fn single(index: u8) -> (r: Self) {
        let mut array: [u8; 128] = [0u8; 128];
        array[0] = index;
        let r = ArrayCell { len: 1, indices: array };
        assert(r@ =~= seq![index]);
        r
    }

    fn from_ascending(indices: &[u8]) -> (r: Self) {
        proof {
            if indices@.len() > MAX_TILES {
                let s = indices@;
                assert forall|k: int| 0 <= k <= MAX_TILES implies s[k] >= k by {
                    lemma_ascending_lower_bound(s, k);
                }
                assert(s[MAX_TILES as int] < MAX_TILES);
            }
        }
        ArrayCell::from_slice(indices)
    }

    fn count(&self) -> (r: usize) {
        proof {
            use_type_invariant(self);
        }
        self.len
    }

    fn tile_list(&self) -> (r: Vec<u8>) {
        proof {
            use_type_invariant(self);
        }
        let mut out: Vec<u8> = Vec::with_capacity(self.len);
        let mut i: usize = 0;
        while i < self.len
            invariant
                self.len <= MAX_TILES,
                i <= self.len,
                out@ == self@.take(i as int),
            decreases self.len - i,
        {
            out.push(self.indices[i]);
            i += 1;
            assert(out@ =~= self@.take(i as int));
        }
        assert(self@.take(i as int) =~= self@);
        out
    }
}

/// In a strictly ascending sequence of indices the `k`-th is at least `k`.
proof fn lemma_ascending_lower_bound(s: Seq<u8>, k: int)
    requires
        strictly_ascending(s),
        0 <= k < s.len(),
    ensures
        s[k] >= k,
    decreases k,
{
    if k > 0 {
        lemma_ascending_lower_bound(s, k - 1);
    }
}

} // verus!
