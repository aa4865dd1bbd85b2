use crate::cell::{all_indices, lemma_ascending_unique, strictly_ascending, TileSet, MAX_TILES};
use vstd::prelude::*;

verus! {

/// Whether bit `i` of `b` is set.
pub open spec fn has_bit(b: u128, i: u128) -> bool {
    (b >> i) & 1 == 1
}

/// The positions below `m` of the bits set in `b`, in ascending order.
pub open spec fn bits_below(b: u128, m: nat) -> Seq<u8>
    decreases m,
{
    if m == 0 {
        Seq::empty()
    } else {
        let s = bits_below(b, (m - 1) as nat);
        if has_bit(b, (m - 1) as u128) {
            s.push((m - 1) as u8)
        } else {
            s
        }
    }
}

/// The set bits below `m` come in ascending order, each exactly once.
pub proof fn lemma_bits_below(b: u128, m: nat)
    requires
        m <= 128,
    ensures
        strictly_ascending(bits_below(b, m)),
        forall|t: u8| bits_below(b, m).contains(t) <==> (t < m && has_bit(b, t as u128)),
    decreases m,
{
    if m > 0 {
        let k = (m - 1) as nat;
        lemma_bits_below(b, k);
        let s = bits_below(b, k);
        let r = bits_below(b, m);
        if has_bit(b, k as u128) {
            assert forall|i: int| 0 <= i < s.len() implies s[i] < k by {
                assert(s.contains(s[i]));
            }
            assert forall|t: u8| r.contains(t) <==> (s.contains(t) || t == k) by {
                if r.contains(t) {
                    let i = choose|i: int| 0 <= i < r.len() && r[i] == t;
                    if i < s.len() {
                        assert(s[i] == t);
                    }
                }
                if s.contains(t) {
                    let i = choose|i: int| 0 <= i < s.len() && s[i] == t;
                    assert(r[i] == t);
                }
                if t == k {
                    assert(r[r.len() - 1] == t);
                }
            }
            assert forall|i: int, j: int| 0 <= i < j < r.len() implies r[i] < r[j] by {
                if j < s.len() {
                    assert(r[i] == s[i] && r[j] == s[j]);
                } else {
                    assert(r[i] == s[i]);
                }
            }
        }
    }
}

/// The bits of `(1 << n) - 1` are exactly those below `n`.
proof fn lemma_low_mask(n: u128)
    by (bit_vector)
    requires
        n < 128,
    ensures
        forall|i: u128| i < 128 ==> (#[trigger] has_bit(((1u128 << n) - 1) as u128, i) <==> i < n),
{
}

proof fn lemma_full_mask()
    by (bit_vector)
    ensures
        forall|i: u128| i < 128 ==> #[trigger] has_bit(u128::MAX, i),
{
}

proof fn lemma_no_bit()
    by (bit_vector)
    ensures
        forall|i: u128| i < 128 ==> !#[trigger] has_bit(0u128, i),
{
}

proof fn lemma_single_bit(k: u128)
    by (bit_vector)
    requires
        k < 128,
    ensures
        forall|i: u128| i < 128 ==> (#[trigger] has_bit(1u128 << k, i) <==> i == k),
{
}

proof fn lemma_set_bit(a: u128, k: u128)
    by (bit_vector)
    requires
        k < 128,
    ensures
        forall|i: u128| i < 128 ==> (#[trigger] has_bit(a | (1u128 << k), i) <==> (has_bit(a, i) || i == k)),
{
}

/// A possibility set held as one bit per tile index in a 128-bit word.
#[derive(Clone, Copy, Debug)]
pub struct BitCell {
    bits: u128,
}

impl View for BitCell {
    type V = Seq<u8>;

    closed spec fn view(&self) -> Seq<u8> {
        bits_below(self.bits, 128)
    }
}

impl BitCell {
    /// A cell in which every one of `num_tiles` tiles is possible.
    pub fn new(num_tiles: usize) -> (r: BitCell)
        requires
            num_tiles <= MAX_TILES,
        ensures
            r@ == all_indices(num_tiles as nat),
    {
        let bits: u128 = if num_tiles == 128 {
            u128::MAX
        } else {
            let n = num_tiles as u128;
            assert(1u128 << n >= 1) by (bit_vector)
                requires
                    n < 128,
            ;
            (1u128 << n) - 1
        };
        proof {
            if num_tiles == 128 {
                lemma_full_mask();
            } else {
                lemma_low_mask(num_tiles as u128);
            }
            lemma_bits_below(bits, 128);
            let a = all_indices(num_tiles as nat);
            assert forall|t: u8| bits_below(bits, 128).contains(t) <==> a.contains(t) by {
                if t < num_tiles {
                    assert(a[t as int] == t);
                }
                if a.contains(t) {
                    let i = choose|i: int| 0 <= i < a.len() && a[i] == t;
                }
            }
            lemma_ascending_unique(bits_below(bits, 128), a);
        }
        BitCell { bits }
    }

    /// The possible tile indices, in ascending order.
    pub fn get_possible_indices(&self) -> (r: Vec<u8>)
        ensures
            r@ == self@,
    {
        let mut out: Vec<u8> = Vec::new();
        let mut i: u32 = 0;
        while i < 128
            invariant
                i <= 128,
                out@ == bits_below(self.bits, i as nat),
            decreases 128 - i,
        {
            if (self.bits >> i as u128) & 1 == 1 {
                out.push(i as u8);
            }
            i += 1;
        }
        out
    }

    /// The number of tiles that are still possible.
    pub fn entropy(&self) -> (r: usize)
        ensures
            r == self@.len(),
    {
        let mut count: usize = 0;
        let mut i: u32 = 0;
        while i < 128
            invariant
                i <= 128,
                count == bits_below(self.bits, i as nat).len(),
                count <= i,
            decreases 128 - i,
        {
            if (self.bits >> i as u128) & 1 == 1 {
                count += 1;
            }
            i += 1;
        }
        count
    }

    /// Fixes the cell to the single tile `index`.
    pub fn collapse(&mut self, index: u8)
        requires
            index < MAX_TILES,
        ensures
            final(self)@ == seq![index],
    {
        let bits: u128 = 1u128 << index as u128;
        proof {
            lemma_single_bit(index as u128);
            lemma_bits_below(bits, 128);
            assert forall|t: u8| bits_below(bits, 128).contains(t) <==> seq![index].contains(t) by {
                if t == index {
                    assert(seq![index][0] == t);
                }
            }
            lemma_ascending_unique(bits_below(bits, 128), seq![index]);
        }
        self.bits = bits;
    }

    /// Replaces the possible tiles with those of `indices`; repeats are
    /// ignored and the order of `indices` does not matter.
    pub fn set_indices(&mut self, indices: &[u8])
        requires
            forall|k: int| 0 <= k < indices@.len() ==> #[trigger] indices@[k] < MAX_TILES,
        ensures
            final(self)@.to_set() == indices@.to_set(),
            strictly_ascending(indices@) ==> final(self)@ == indices@,
    {
        let mut bits: u128 = 0;
        let mut k: usize = 0;
        proof {
            lemma_no_bit();
        }
        while k < indices.len()
            invariant
                k <= indices@.len(),
                forall|k: int| 0 <= k < indices@.len() ==> #[trigger] indices@[k] < MAX_TILES,
                forall|i: u128| i < 128 ==> (#[trigger] has_bit(bits, i) <==> exists|j: int|
                    0 <= j < k && indices@[j] == i),
            decreases indices@.len() - k,
        {
            let v = indices[k];
            proof {
                lemma_set_bit(bits, v as u128);
            }
            let ghost prev = bits;
            bits = bits | (1u128 << v as u128);
            k += 1;
            assert forall|i: u128| i < 128 implies (#[trigger] has_bit(bits, i) <==> exists|j: int|
                0 <= j < k && indices@[j] == i) by {
                if has_bit(prev, i) {
                    let j = choose|j: int| 0 <= j < k - 1 && indices@[j] == i;
                }
                if i == v as u128 {
                    assert(indices@[k - 1] == i);
                }
                if exists|j: int| 0 <= j < k && indices@[j] == i {
                    let j = choose|j: int| 0 <= j < k && indices@[j] == i;
                    if j < k - 1 {
                        assert(has_bit(prev, i));
                    }
                }
            }
        }
        proof {
            lemma_bits_below(bits, 128);
            let r = bits_below(bits, 128);
            assert forall|t: u8| r.contains(t) <==> indices@.contains(t) by {
                if indices@.contains(t) {
                    let j = choose|j: int| 0 <= j < indices@.len() && indices@[j] == t;
                    assert(has_bit(bits, t as u128));
                }
                if r.contains(t) {
                    assert(has_bit(bits, t as u128));
                }
            }
            assert(r.to_set() =~= indices@.to_set());
            if strictly_ascending(indices@) {
                lemma_ascending_unique(r, indices@);
            }
        }
        self.bits = bits;
    }

    /// The one remaining tile of a collapsed cell.
    pub fn get_collapsed_index(&self) -> (r: u8)
        requires
            self@.len() == 1,
        ensures
            r == self@[0],
    {
        let all = self.get_possible_indices();
        all[0]
    }

    pub fn is_collapsed(&self) -> (r: bool)
        ensures
            r == (self@.len() == 1),
    {
        self.entropy() == 1
    }
}

impl TileSet for BitCell {
    open spec fn tiles(&self) -> Seq<u8> {
        self@
    }

    fn full(num_tiles: usize) -> (r: Self) {
        BitCell::new(num_tiles)
    }

    fn single(index: u8) -> (r: Self) {
        let mut c = BitCell::new(0);
        c.collapse(index);
        c
    }

    fn from_ascending(indices: &[u8]) -> (r: Self) {
        let mut c = BitCell::new(0);
        c.set_indices(indices);
        c
    }

    fn count(&self) -> (r: usize) {
        self.entropy()
    }

    fn tile_list(&self) -> (r: Vec<u8>) {
        self.get_possible_indices()
    }
}

} // verus!
