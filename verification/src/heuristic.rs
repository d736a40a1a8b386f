use vstd::prelude::*;

verus! {

use crate::row::Row;
use crate::row::zero_count;

/// An evaluator that scores every board the same; it makes a search or a
/// rollout depend on merge scores alone.
pub struct NullHeuristic;

/// Fourth power of a rank, the base of the monotonicity penalty.
pub open spec fn pow4(r: u8) -> int {
    (r as int) * (r as int) * (r as int) * (r as int)
}

/// Fold state of the merge-potential scan over a row: the last tile seen
/// (zeroes are skipped), how many tiles so far equal it, and the merge
/// potential already banked. A maximal run of `n >= 2` equal tiles, zeroes
/// ignored, banks `n`.
pub open spec fn merge_scan(s: Seq<u8>) -> (u8, nat, nat)
    decreases s.len(),
{
    if s.len() == 0 {
        (0u8, 0nat, 0nat)
    } else {
        let (prev, counter, merges) = merge_scan(s.drop_last());
        let r = s.last();
        if r == 0 {
            (prev, counter, merges)
        } else if prev == r {
            (prev, counter + 1, merges)
        } else if counter > 0 {
            (r, 0nat, merges + 1 + counter)
        } else {
            (r, 0nat, merges)
        }
    }
}

/// How many tiles of the row would take part in a merge if it were
/// compacted: the banked runs plus a still-open one.
pub open spec fn merge_potential_of(s: Seq<u8>) -> nat {
    let (prev, counter, merges) = merge_scan(s);
    if counter > 0 {
        merges + 1 + counter
    } else {
        merges
    }
}

/// The two monotonicity penalties of the first `n` cells of a row: the sum
/// of fourth-power drops along rising pairs and along falling pairs.
pub open spec fn mono_penalties_of(s: Seq<u8>, n: int) -> (int, int)
    decreases n,
{
    if n <= 1 {
        (0int, 0int)
    } else {
        let (l, r) = mono_penalties_of(s, n - 1);
        if s[n - 2] > s[n - 1] {
            (l + pow4(s[n - 2]) - pow4(s[n - 1]), r)
        } else {
            (l, r + pow4(s[n - 1]) - pow4(s[n - 2]))
        }
    }
}

proof fn lemma_pow4_mono(a: u8, b: u8)
    by (nonlinear_arith)
    requires
        a <= b,
    ensures
        pow4(a) <= pow4(b),
        pow4(a) >= 0,
{
}

impl Row {
    /// How many cells of the row are empty.
    pub fn empty_count(&self) -> (r: u32)
        ensures
            r as nat == zero_count(self@),
            r <= 4,
    {
        proof {
            assert(self@.take(0) =~= Seq::<u8>::empty());
        }
        let mut count: u32 = 0;
        let mut i: u8 = 0;
        while i < 4
            invariant
                i <= 4,
                count as nat == zero_count(self@.take(i as int)),
                count <= i,
            decreases 4 - i,
        {
            proof {
                assert(self@.take(i as int + 1).drop_last() =~= self@.take(i as int));
                assert(self@.take(i as int + 1).last() == self@[i as int]);
            }
            if self.get(i) == 0 {
                count = count + 1;
            }
            i = i + 1;
        }
        proof {
            assert(self@.take(4) =~= self@);
        }
        count
    }

    /// How many tiles of the row would merge if it were compacted, counting
    /// each tile of a run of equal ranks (zeroes in between are skipped).
    pub fn merge_potential(&self) -> (r: u32)
        ensures
            r as nat == merge_potential_of(self@),
    {
        proof {
            assert(self@.take(0) =~= Seq::<u8>::empty());
        }
        let mut prev: u8 = 0;
        let mut counter: u32 = 0;
        let mut merges: u32 = 0;
        let mut i: u8 = 0;
        while i < 4
            invariant
                i <= 4,
                prev == merge_scan(self@.take(i as int)).0,
                counter as nat == merge_scan(self@.take(i as int)).1,
                merges as nat == merge_scan(self@.take(i as int)).2,
                merges + counter <= i,
            decreases 4 - i,
        {
            proof {
                assert(self@.take(i as int + 1).drop_last() =~= self@.take(i as int));
                assert(self@.take(i as int + 1).last() == self@[i as int]);
            }
            let rank = self.get(i);
            if rank != 0 {
                if prev == rank {
                    counter = counter + 1;
                } else if counter > 0 {
                    merges = merges + 1 + counter;
                    counter = 0;
                    prev = rank;
                } else {
                    prev = rank;
                }
            }
            i = i + 1;
        }
        proof {
            assert(self@.take(4) =~= self@);
        }
        if counter > 0 {
            merges + 1 + counter
        } else {
            merges
        }
    }

    /// The row's two monotonicity penalties: the first punishes drops when
    /// reading left to right, the second punishes rises, each by the
    /// difference of fourth powers of the pair's ranks.
    pub fn monotonicity_penalties(&self) -> (r: (u32, u32))
        ensures
            r.0 as int == mono_penalties_of(self@, 4).0,
            r.1 as int == mono_penalties_of(self@, 4).1,
    {
        proof {
            crate::row::lemma_row_ranks_valid(*self);
        }
        let mut left: u32 = 0;
        let mut right: u32 = 0;
        let mut i: u8 = 1;
        while i < 4
            invariant
                1 <= i <= 4,
                crate::row::ranks_valid(self@),
                left as int == mono_penalties_of(self@, i as int).0,
                right as int == mono_penalties_of(self@, i as int).1,
                left <= 50625 * (i as int),
                right <= 50625 * (i as int),
            decreases 4 - i,
        {
            let prev = self.get(i - 1);
            let next = self.get(i);
            proof {
                assert((prev as u32) * (prev as u32) <= 225 && (next as u32) * (next as u32)
                    <= 225) by (nonlinear_arith)
                    requires
                        prev <= 15,
                        next <= 15,
                ;
            }
            let p2 = (prev as u32) * (prev as u32);
            let n2 = (next as u32) * (next as u32);
            proof {
                assert(p2 * p2 <= 50625 && n2 * n2 <= 50625) by (nonlinear_arith)
                    requires
                        p2 <= 225,
                        n2 <= 225,
                ;
            }
            let p4 = p2 * p2;
            let n4 = n2 * n2;
            proof {
                lemma_pow4_mono(prev, 15);
                lemma_pow4_mono(next, 15);
                if prev > next {
                    lemma_pow4_mono(next, prev);
                } else {
                    lemma_pow4_mono(prev, next);
                }
                assert(p4 as int == pow4(prev)) by (nonlinear_arith)
                    requires
                        p2 == (prev as u32) * (prev as u32),
                        p4 == p2 * p2,
                        prev <= 15,
                ;
                assert(n4 as int == pow4(next)) by (nonlinear_arith)
                    requires
                        n2 == (next as u32) * (next as u32),
                        n4 == n2 * n2,
                        next <= 15,
                ;
            }
            if prev > next {
                left = left + (p4 - n4);
            } else {
                right = right + (n4 - p4);
            }
            i = i + 1;
        }
        (left, right)
    }
}

} // verus!
