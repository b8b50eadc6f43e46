//! A flat bit set over a fixed range of indices.

use vstd::prelude::*;

verus! {

/// Which bit of `bits` stands for index `i`: word `i / 64`, bit `i % 64`.
pub open spec fn nth_bit(bits: Seq<u64>, i: int) -> bool {
    (bits[i / 64] >> ((i % 64) as u64)) & 1 == 1
}

/// A set of indices below a fixed bound `n`, packed 64 to a word.
pub struct BitSet {
    bits: Vec<u64>,
    n: usize,
}

impl View for BitSet {
    type V = Seq<bool>;

    closed spec fn view(&self) -> Seq<bool> {
        Seq::new(self.n as nat, |i: int| nth_bit(self.bits@, i))
    }
}

impl BitSet {
    /// The words cover every index below `n`.
    pub closed spec fn wf(&self) -> bool {
        self.bits@.len() == (self.n + 63) / 64
    }

    /// A bit set over `0..n`, with every bit clear.
    pub fn new(n: usize) -> (r: BitSet)
        requires
            n + 63 <= usize::MAX,
        ensures
            r.wf(),
            r@.len() == n,
            forall|i: int| 0 <= i < n ==> !r@[i],
    {
        let words: usize = (n + 63) / 64;
        let mut bits: Vec<u64> = Vec::new();
        let mut w: usize = 0;
        while w < words
            invariant
                w <= words,
                bits@.len() == w,
                forall|j: int| 0 <= j < w ==> bits@[j] == 0u64,
            decreases words - w,
        {
            bits.push(0u64);
            w = w + 1;
        }
        proof {
            assert forall|i: int| 0 <= i < n implies !nth_bit(bits@, i) by {
                lemma_bit_index(i, n as int, words as int);
                let cc = (i % 64) as u64;
                assert((0u64 >> cc) & 1 == 0u64) by (bit_vector);
            }
        }
        BitSet { bits, n }
    }

    /// Whether index `idx` is in the set.
    pub fn test(&self, idx: usize) -> (r: bool)
        requires
            self.wf(),
            idx < self@.len(),
        ensures
            r == self@[idx as int],
    {
        let w: usize = idx / 64;
        let b: usize = idx % 64;
        proof {
            lemma_bit_index(idx as int, self.n as int, self.bits@.len() as int);
        }
        (self.bits[w] >> (b as u64)) & 1 == 1
    }

    /// Puts index `idx` into the set.
    pub fn set(&mut self, idx: usize)
        requires
            old(self).wf(),
            idx < old(self)@.len(),
        ensures
            final(self).wf(),
            final(self)@ == old(self)@.update(idx as int, true),
    {
        let w: usize = idx / 64;
        let b: usize = idx % 64;
        proof {
            lemma_bit_index(idx as int, self.n as int, self.bits@.len() as int);
        }
        let word: u64 = self.bits[w] | (1u64 << (b as u64));
        let ghost old_bits = self.bits@;
        self.bits[w] = word;
        proof {
            assert forall|i: int| 0 <= i < self.n implies self@[i] == old(self)@.update(
                idx as int,
                true,
            )[i] by {
                lemma_bit_index(i, self.n as int, self.bits@.len() as int);
                let x = old_bits[i / 64];
                let bb = (b % 64) as u64;
                let cc = (i % 64) as u64;
                if i / 64 == w {
                    if i == idx {
                        assert(bb < 64 ==> ((x | (1u64 << bb)) >> bb) & 1 == 1) by (bit_vector);
                    } else {
                        assert(i % 64 != b % 64) by {
                            vstd::arithmetic::div_mod::lemma_fundamental_div_mod(i, 64);
                            vstd::arithmetic::div_mod::lemma_fundamental_div_mod(idx as int, 64);
                        }
                        assert(bb < 64 && cc < 64 && bb != cc ==> ((x | (1u64 << bb)) >> cc) & 1 == (
                        x >> cc) & 1) by (bit_vector);
                    }
                }
            }
            assert(self@ =~= old(self)@.update(idx as int, true));
        }
    }
}

/// For an index `i` below `n`, the word `i / 64` lies below `(n + 63) / 64`.
proof fn lemma_bit_index(i: int, n: int, words: int)
    requires
        0 <= i < n,
        words == (n + 63) / 64,
    ensures
        0 <= i / 64 < words,
        0 <= i % 64 < 64,
{
    vstd::arithmetic::div_mod::lemma_fundamental_div_mod(i, 64);
    vstd::arithmetic::div_mod::lemma_fundamental_div_mod(n + 63, 64);
    vstd::arithmetic::div_mod::lemma_mod_division_less_than_divisor(i, 64);
    vstd::arithmetic::div_mod::lemma_mod_division_less_than_divisor(n + 63, 64);
}

} // verus!
