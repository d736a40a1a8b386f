use vstd::prelude::*;

verus! {

use vstd::arithmetic::power2::pow2;
use vstd::arithmetic::power2::lemma2_to64;
use vstd::arithmetic::power2::lemma_pow2_adds;
use vstd::arithmetic::power2::lemma_pow2_strictly_increases;

/// Sum of the tile values of a sequence of ranks, where a rank r cell is
/// worth 2^r (so an empty cell, rank 0, is worth 1).
pub open spec fn rank_values(s: Seq<u8>) -> nat
    decreases s.len(),
{
    if s.len() == 0 {
        0
    } else {
        rank_values(s.drop_last()) + pow2(s.last() as nat)
    }
}

/// How many cells of `s` are empty (rank 0).
pub open spec fn zero_count(s: Seq<u8>) -> nat
    decreases s.len(),
{
    if s.len() == 0 {
        0
    } else {
        zero_count(s.drop_last()) + if s.last() == 0 {
            1nat
        } else {
            0nat
        }
    }
}

/// How many cells of `s` hold a tile (rank >= 1).
pub open spec fn filled_count(s: Seq<u8>) -> nat
    decreases s.len(),
{
    if s.len() == 0 {
        0
    } else {
        filled_count(s.drop_last()) + if s.last() == 0 {
            0nat
        } else {
            1nat
        }
    }
}

/// All cells of `s` hold a representable rank.
pub open spec fn ranks_valid(s: Seq<u8>) -> bool {
    forall|i: int| 0 <= i < s.len() ==> #[trigger] s[i] <= 15
}

/// 1 when the cell is empty, else 0.
pub open spec fn empty_bit(v: u8) -> nat {
    if v == 0 {
        1
    } else {
        0
    }
}

/// 1 when the cell holds a tile, else 0.
pub open spec fn tile_bit(v: u8) -> nat {
    if v == 0 {
        0
    } else {
        1
    }
}

/// Replacing one cell trades its old value for the new one in every count.
pub proof fn lemma_counts_update(s: Seq<u8>, i: int, v: u8)
    requires
        0 <= i < s.len(),
    ensures
        rank_values(s.update(i, v)) + pow2(s[i] as nat) == rank_values(s) + pow2(v as nat),
        zero_count(s.update(i, v)) + empty_bit(s[i]) == zero_count(s) + empty_bit(v),
        filled_count(s.update(i, v)) + tile_bit(s[i]) == filled_count(s) + tile_bit(v),
    decreases s.len(),
{
    if i == s.len() - 1 {
        assert(s.update(i, v).drop_last() =~= s.drop_last());
        assert(s.update(i, v).last() == v);
    } else {
        lemma_counts_update(s.drop_last(), i, v);
        assert(s.update(i, v).drop_last() =~= s.drop_last().update(i, v));
        assert(s.update(i, v).last() == s.last());
    }
}

/// The sum of tile values of a valid board part lies between one and 2^15
/// per cell.
pub proof fn lemma_rank_values_bound(s: Seq<u8>)
    requires
        ranks_valid(s),
    ensures
        s.len() <= rank_values(s) <= 32768 * s.len(),
    decreases s.len(),
{
    lemma2_to64();
    if s.len() > 0 {
        lemma_rank_values_bound(s.drop_last());
        vstd::arithmetic::power2::lemma_pow2_pos(s.last() as nat);
        if (s.last() as nat) < 15 {
            lemma_pow2_strictly_increases(s.last() as nat, 15);
        }
    }
}

pub proof fn lemma_counts_len(s: Seq<u8>)
    ensures
        filled_count(s) + zero_count(s) == s.len(),
    decreases s.len(),
{
    if s.len() > 0 {
        lemma_counts_len(s.drop_last());
    }
}

pub proof fn lemma_counts_concat(a: Seq<u8>, b: Seq<u8>)
    ensures
        rank_values(a + b) == rank_values(a) + rank_values(b),
        zero_count(a + b) == zero_count(a) + zero_count(b),
        filled_count(a + b) == filled_count(a) + filled_count(b),
    decreases b.len(),
{
    if b.len() == 0 {
        assert(a + b =~= a);
    } else {
        lemma_counts_concat(a, b.drop_last());
        assert((a + b).drop_last() =~= a + b.drop_last());
        assert((a + b).last() == b.last());
    }
}

proof fn lemma_counts_push(s: Seq<u8>, v: u8)
    ensures
        rank_values(s.push(v)) == rank_values(s) + pow2(v as nat),
        zero_count(s.push(v)) == zero_count(s) + if v == 0 {
            1nat
        } else {
            0nat
        },
        filled_count(s.push(v)) == filled_count(s) + if v == 0 {
            0nat
        } else {
            1nat
        },
{
    assert(s.push(v).drop_last() =~= s);
    assert(s.push(v).last() == v);
}

proof fn lemma_zeros(n: nat)
    ensures
        rank_values(Seq::new(n, |i: int| 0u8)) == n,
        zero_count(Seq::new(n, |i: int| 0u8)) == n,
        filled_count(Seq::new(n, |i: int| 0u8)) == 0,
    decreases n,
{
    let z = Seq::new(n, |i: int| 0u8);
    if n > 0 {
        lemma_zeros((n - 1) as nat);
        assert(z.drop_last() =~= Seq::new((n - 1) as nat, |i: int| 0u8));
        lemma2_to64();
    }
}

/// Rank stored in 4-bit field `i` of the packed word `w` (field 0 in the low bits).
pub open spec fn rank_of(w: u16, i: int) -> u8 {
    ((w >> ((4 * (i as u16)) as u16)) & 0xf) as u8
}

/// The four ranks of `s` in reverse order.
pub open spec fn rev4(s: Seq<u8>) -> Seq<u8> {
    Seq::new(4, |i: int| s[3 - i])
}

/// A row of four tile ranks, packed as four 4-bit fields of a 16-bit word,
/// index 0 in the low bits. Rank 0 is an empty cell; rank r >= 1 stands for
/// the tile of value 2^r.
#[derive(Clone, Copy, PartialEq, Eq, Structural)]
pub struct Row {
    pub raw: u16,
}

/// The four ranks packed in the word `w`.
pub open spec fn packed_ranks(w: u16) -> Seq<u8> {
    Seq::new(4, |i: int| rank_of(w, i))
}

impl View for Row {
    type V = Seq<u8>;

    open spec fn view(&self) -> Seq<u8> {
        packed_ranks(self.raw)
    }
}

proof fn bv_zero_row(k: u16)
    by (bit_vector)
    requires
        k < 4,
    ensures
        (0u16 >> ((4 * k) as u16)) & 0xf == 0,
{
}

proof fn bv_field_bound(w: u16, k: u16)
    by (bit_vector)
    requires
        k < 4,
    ensures
        (w >> ((4 * k) as u16)) & 0xf < 16,
{
}

proof fn bv_set_field(w: u16, v: u16, i: u16, r: u8, k: u16)
    by (bit_vector)
    requires
        i < 4,
        k < 4,
        r < 16,
        v == (w & !(0xfu16 << ((4 * i) as u16))) | ((r as u16) << ((4 * i) as u16)),
    ensures
        (v >> ((4 * k) as u16)) & 0xf == if k == i {
            r as u16
        } else {
            (w >> ((4 * k) as u16)) & 0xf
        },
{
}

proof fn bv_reverse_fields(w: u16, v: u16)
    by (bit_vector)
    requires
        v == ((w & 0x000f) << 12u16) | ((w & 0x00f0) << 4u16) | ((w & 0x0f00) >> 4u16) | ((w
            & 0xf000) >> 12u16),
    ensures
        (v >> 0u16) & 0xf == (w >> 12u16) & 0xf,
        (v >> 4u16) & 0xf == (w >> 8u16) & 0xf,
        (v >> 8u16) & 0xf == (w >> 4u16) & 0xf,
        (v >> 12u16) & 0xf == (w >> 0u16) & 0xf,
{
}

proof fn bv_row_eq(x: u16, y: u16)
    by (bit_vector)
    requires
        ((x >> 0u16) & 0xf) as u8 == ((y >> 0u16) & 0xf) as u8,
        ((x >> 4u16) & 0xf) as u8 == ((y >> 4u16) & 0xf) as u8,
        ((x >> 8u16) & 0xf) as u8 == ((y >> 8u16) & 0xf) as u8,
        ((x >> 12u16) & 0xf) as u8 == ((y >> 12u16) & 0xf) as u8,
    ensures
        x == y,
{
}

impl Row {
    pub fn new() -> (r: Self)
        ensures
            r.raw == 0,
            r@ == Seq::new(4, |i: int| 0u8),
    {
        let r = Self { raw: 0 };
        proof {
            assert forall|i: int| 0 <= i < 4 implies rank_of(0u16, i) == 0u8 by {
                bv_zero_row(i as u16);
            }
            assert(r@ =~= Seq::new(4, |i: int| 0u8));
        }
        r
    }

    pub fn from_raw(r: u16) -> (res: Self)
        ensures
            res.raw == r,
    {
        Self { raw: r }
    }

    pub fn get(&self, i: u8) -> (r: u8)
        requires
            i < 4,
        ensures
            r == self@[i as int],
            r < 16,
    {
        let shift: u16 = i as u16 * 4;
        let r = ((self.raw >> shift) & 0x0f) as u8;
        proof {
            bv_field_bound(self.raw, i as u16);
            assert(shift == (4 * (i as u16)) as u16);
        }
        r
    }

    pub fn set(&mut self, i: u8, r: u8)
        requires
            i < 4,
            r < 16,
        ensures
            final(self)@ == old(self)@.update(i as int, r),
    {
        let pos: u16 = i as u16 * 4;
        let masked_raw = self.raw & !(0xfu16 << pos);
        let mod_raw = masked_raw | ((r as u16) << pos);
        proof {
            let w = self.raw;
            assert(pos == (4 * (i as u16)) as u16);
            assert forall|k: int| 0 <= k < 4 implies rank_of(mod_raw, k) == old(self)@.update(
                i as int,
                r,
            )[k] by {
                bv_set_field(w, mod_raw, i as u16, r, k as u16);
            }
        }
        self.raw = mod_raw;
        proof {
            assert(self@ =~= old(self)@.update(i as int, r));
        }
    }

    /// Slide all tiles toward index 0, merging adjacent equal ranks pairwise
    /// left to right; returns the score earned by merges and the new row.
    pub fn shift_left(&self) -> (res: (u32, Self))
        ensures
            res.1@ == slide_seq(self@),
            res.0 as nat == slide_score(self@),
    {
        proof {
            lemma_row_ranks_valid(*self);
        }
        let mut score: u32 = 0;
        let mut top: u8 = 0;
        let mut tmp: u8 = 0;
        let mut row: Self = *self;
        let mut i: u8 = 0;
        proof {
            assert(self@.take(0) =~= Seq::<u8>::empty());
        }
        while i < 4
            invariant
                i <= 4,
                top <= i,
                tmp <= 15,
                tmp != 0 ==> top < i,
                ranks_valid(self@),
                slide_state(self@.take(i as int)).0.len() == top as int,
                slide_state(self@.take(i as int)).1 == tmp,
                slide_state(self@.take(i as int)).2 == score as nat,
                forall|k: int|
                    0 <= k < top as int ==> row@[k] == #[trigger] slide_state(
                        self@.take(i as int),
                    ).0[k],
                forall|k: int| top as int <= k < i as int ==> row@[k] == 0,
                forall|k: int| i as int <= k < 4 ==> row@[k] == self@[k],
            decreases 4 - i,
        {
            let ghost pre = self@.take(i as int);
            proof {
                lemma_slide_facts(pre);
                assert(self@.take(i as int + 1).drop_last() =~= pre);
                assert(self@.take(i as int + 1).last() == self@[i as int]);
            }
            let tile = self.get(i);
            if tile != 0 {
                row.set(i, 0);
                if tmp != 0 && tile == tmp && tmp != 15 {
                    let merged = tile + 1;
                    row.set(top, merged);
                    top = top + 1;
                    proof {
                        lemma2_to64();
                        if (merged as nat) < 15 {
                            lemma_pow2_strictly_increases(merged as nat, 15);
                        }
                        vstd::bits::lemma_u32_shl_is_mul(1u32, merged as u32);
                        assert(pre.len() <= 3);
                    }
                    score = score + (1u32 << (merged as u32));
                    tmp = 0;
                } else if tmp != 0 {
                    row.set(top, tmp);
                    top = top + 1;
                    tmp = tile;
                } else {
                    tmp = tile;
                }
            }
            i = i + 1;
        }
        proof {
            assert(self@.take(4) =~= self@);
        }
        if tmp != 0 {
            row.set(top, tmp);
        }
        proof {
            lemma_slide_facts(self@);
            lemma_slide_seq_basic(self@);
            let (out, pend, sc) = slide_state(self@);
            let full = slide_full(self@);
            assert forall|k: int| 0 <= k < 4 implies row@[k] == slide_seq(self@)[k] by {
                if k < full.len() {
                    if k < out.len() {
                        assert(full[k] == out[k]);
                    } else {
                        assert(full[k] == pend);
                    }
                    assert(slide_seq(self@)[k] == full[k]);
                } else {
                    assert(slide_seq(self@)[k] == 0);
                }
            }
            assert(row@ =~= slide_seq(self@));
        }
        (score, row)
    }

    /// Slide all tiles toward index 3: computed by reversing the row,
    /// sliding leftward, and reversing back, so the rightward transform is
    /// the mirror of the leftward one by construction.
    pub fn shift_right(&self) -> (res: (u32, Self))
        ensures
            res.1@ == rev4(slide_seq(rev4(self@))),
            res.0 as nat == slide_score(rev4(self@)),
    {
        let rev = self.reverse();
        let (score, shifted) = rev.shift_left();
        (score, shifted.reverse())
    }

    /// The row with its four fields in reverse order.
    pub fn reverse(&self) -> (r: Self)
        ensures
            r@ == rev4(self@),
    {
        let raw = self.raw;
        let p1 = (raw & 0x000f) << 12u16;
        let p2 = (raw & 0x00f0) << 4u16;
        let p3 = (raw & 0x0f00) >> 4u16;
        let p4 = (raw & 0xf000) >> 12u16;
        let res = Self { raw: p1 | p2 | p3 | p4 };
        proof {
            bv_reverse_fields(raw, res.raw);
            assert(res@ =~= rev4(self@));
        }
        res
    }
}

/// Two rows with the same four ranks are the same packed word.
pub proof fn lemma_row_view_injective(a: Row, b: Row)
    requires
        a@ == b@,
    ensures
        a == b,
{
    assert forall|k: int| 0 <= k < 4 implies rank_of(a.raw, k) == rank_of(b.raw, k) by {
        assert(a@[k] == rank_of(a.raw, k));
        assert(b@[k] == rank_of(b.raw, k));
    }
    assert(((a.raw >> 0u16) & 0xf) as u8 == ((b.raw >> 0u16) & 0xf) as u8) by {
        assert(rank_of(a.raw, 0) == rank_of(b.raw, 0));
    }
    assert(((a.raw >> 4u16) & 0xf) as u8 == ((b.raw >> 4u16) & 0xf) as u8) by {
        assert(rank_of(a.raw, 1) == rank_of(b.raw, 1));
    }
    assert(((a.raw >> 8u16) & 0xf) as u8 == ((b.raw >> 8u16) & 0xf) as u8) by {
        assert(rank_of(a.raw, 2) == rank_of(b.raw, 2));
    }
    assert(((a.raw >> 12u16) & 0xf) as u8 == ((b.raw >> 12u16) & 0xf) as u8) by {
        assert(rank_of(a.raw, 3) == rank_of(b.raw, 3));
    }
    bv_row_eq(a.raw, b.raw);
}

/// Fold state of the leftward slide/merge scan: the compacted tiles so far,
/// the pending rank not yet placed (0 when none), and the score earned.
/// Scanning goes left to right; a tile equal to the pending rank merges with
/// it into a tile one rank higher, worth 2^(new rank) points. Rank 15 is the
/// largest representable rank, so two rank-15 tiles do not merge.
pub open spec fn slide_state(s: Seq<u8>) -> (Seq<u8>, u8, nat)
    decreases s.len(),
{
    if s.len() == 0 {
        (Seq::empty(), 0u8, 0nat)
    } else {
        let (out, pend, sc) = slide_state(s.drop_last());
        let t = s.last();
        if t == 0 {
            (out, pend, sc)
        } else if pend != 0 && t == pend && pend != 15 {
            (out.push((t + 1) as u8), 0u8, sc + pow2((t + 1) as nat))
        } else if pend != 0 {
            (out.push(pend), t, sc)
        } else {
            (out, t, sc)
        }
    }
}

/// The pending rank as a sequence: empty when none.
pub open spec fn pend_seq(p: u8) -> Seq<u8> {
    if p == 0 {
        Seq::empty()
    } else {
        seq![p]
    }
}

/// The compacted tiles of `s`, pending rank included, without the padding.
pub open spec fn slide_full(s: Seq<u8>) -> Seq<u8> {
    slide_state(s).0 + pend_seq(slide_state(s).1)
}

/// The result of sliding `s` leftward: the compacted tiles padded with
/// empty cells back to the input length.
pub open spec fn slide_seq(s: Seq<u8>) -> Seq<u8> {
    let pad = s.len() - slide_full(s).len();
    slide_full(s) + Seq::new(
        (if 0 <= pad {
            pad
        } else {
            0
        }) as nat,
        |i: int| 0u8,
    )
}

/// The score earned by sliding `s` leftward.
pub open spec fn slide_score(s: Seq<u8>) -> nat {
    slide_state(s).2
}

pub open spec fn pend_bit(p: u8) -> int {
    if p == 0 {
        0
    } else {
        1
    }
}

pub open spec fn pend_value(p: u8) -> nat {
    if p == 0 {
        0
    } else {
        pow2(p as nat)
    }
}

/// The invariants of the slide scan: ranks stay representable, the output
/// never outgrows the tiles consumed, the score stays small, tile values are
/// never lost, and a scan that fills its whole input back up must have been
/// the identity.
pub proof fn lemma_slide_facts(s: Seq<u8>)
    requires
        ranks_valid(s),
    ensures
        ({
            let (out, pend, sc) = slide_state(s);
            &&& pend <= 15
            &&& forall|k: int| 0 <= k < out.len() ==> 1 <= #[trigger] out[k] <= 15
            &&& out.len() + pend_bit(pend) <= filled_count(s)
            &&& sc <= 32768 * s.len()
            &&& rank_values(out) + pend_value(pend) + (s.len() - out.len() - pend_bit(pend))
                >= rank_values(s)
            &&& out.len() + pend_bit(pend) == s.len() ==> out + pend_seq(pend) == s
        }),
    decreases s.len(),
{
    lemma2_to64();
    if s.len() > 0 {
        let prev = s.drop_last();
        lemma_slide_facts(prev);
        lemma_counts_len(prev);
        let (out0, pend0, sc0) = slide_state(prev);
        let (out, pend, sc) = slide_state(s);
        let t = s.last();
        assert(t <= 15);
        if t == 0 {
            if out.len() + pend_bit(pend) == s.len() {
                assert(out0.len() + pend_bit(pend0) <= filled_count(prev) <= prev.len());
            }
        } else if pend0 != 0 && t == pend0 && pend0 != 15 {
            lemma_counts_push(out0, (t + 1) as u8);
            lemma_pow2_adds(t as nat, 1);
            if ((t + 1) as nat) < 15 {
                lemma_pow2_strictly_increases((t + 1) as nat, 15);
            }
            if out.len() + pend_bit(pend) == s.len() {
                assert(out0.len() + pend_bit(pend0) <= prev.len());
            }
        } else if pend0 != 0 {
            lemma_counts_push(out0, pend0);
            if out.len() + pend_bit(pend) == s.len() {
                assert(out0 + pend_seq(pend0) == prev);
                assert(out0.push(pend0) + pend_seq(t) =~= (out0 + pend_seq(pend0)).push(t));
                assert(prev.push(t) =~= s);
            }
        } else {
            if out.len() + pend_bit(pend) == s.len() {
                assert(out0 + pend_seq(pend0) == prev);
                assert(out0 + pend_seq(pend0) =~= out0);
                assert(out0 + pend_seq(t) =~= prev.push(t));
                assert(prev.push(t) =~= s);
            }
        }
    }
}

proof fn lemma_zero_count_of_filled(s: Seq<u8>)
    requires
        forall|k: int| 0 <= k < s.len() ==> 1 <= #[trigger] s[k],
    ensures
        zero_count(s) == 0,
        filled_count(s) == s.len(),
    decreases s.len(),
{
    if s.len() > 0 {
        lemma_zero_count_of_filled(s.drop_last());
    }
}

/// What a leftward slide does to a row as a whole: it keeps the length,
/// keeps ranks representable, never loses tile value, never fills an empty
/// cell, and can only change a row that ends up with an empty cell.
pub proof fn lemma_slide_seq_basic(s: Seq<u8>)
    requires
        ranks_valid(s),
    ensures
        slide_seq(s).len() == s.len(),
        ranks_valid(slide_seq(s)),
        rank_values(slide_seq(s)) >= rank_values(s),
        filled_count(slide_seq(s)) <= filled_count(s),
        zero_count(slide_seq(s)) >= zero_count(s),
        zero_count(slide_seq(s)) == 0 ==> slide_seq(s) == s,
        slide_score(s) <= 32768 * s.len(),
{
    lemma_slide_facts(s);
    lemma_counts_len(s);
    let (out, pend, sc) = slide_state(s);
    let full = slide_full(s);
    assert(full.len() == out.len() + pend_bit(pend));
    let pad = (s.len() - full.len()) as nat;
    let zs = Seq::new(pad, |i: int| 0u8);
    assert(slide_seq(s) == full + zs);
    lemma_counts_concat(out, pend_seq(pend));
    if pend != 0 {
        assert(pend_seq(pend).drop_last() =~= Seq::<u8>::empty());
        assert(pend_seq(pend).last() == pend);
        assert(rank_values(Seq::<u8>::empty()) == 0);
        assert(zero_count(Seq::<u8>::empty()) == 0);
        assert(filled_count(Seq::<u8>::empty()) == 0);
        assert(rank_values(pend_seq(pend)) == pow2(pend as nat));
        assert(zero_count(pend_seq(pend)) == 0);
        assert(filled_count(pend_seq(pend)) == 1);
    }
    assert(forall|k: int| 0 <= k < full.len() ==> 1 <= #[trigger] full[k] <= 15);
    lemma_zero_count_of_filled(full);
    lemma_zeros(pad);
    lemma_counts_concat(full, zs);
    assert(zero_count(slide_seq(s)) == pad);
    assert(rank_values(slide_seq(s)) == rank_values(out) + pend_value(pend) + pad);
    if zero_count(slide_seq(s)) == 0 {
        assert(full == s);
        assert(slide_seq(s) =~= s);
    }
    assert(ranks_valid(slide_seq(s)));
}

/// Every view of a packed row holds representable ranks.
pub proof fn lemma_row_ranks_valid(r: Row)
    ensures
        ranks_valid(r@),
{
    assert forall|i: int| 0 <= i < 4 implies #[trigger] r@[i] <= 15 by {
        bv_field_bound(r.raw, i as u16);
    }
}

/// Reversing a row twice gives the row back.
pub proof fn lemma_rev4_involution(s: Seq<u8>)
    requires
        s.len() == 4,
    ensures
        rev4(rev4(s)) == s,
{
    assert(rev4(rev4(s)) =~= s);
}

/// Reversing a packed row twice gives the same packed word back: if `b`
/// reverses `a` and `c` reverses `b`, then `c` is `a`.
pub proof fn lemma_reverse_involution(a: Row, b: Row, c: Row)
    requires
        b@ == rev4(a@),
        c@ == rev4(b@),
    ensures
        c == a,
{
    lemma_rev4_involution(a@);
    lemma_row_view_injective(c, a);
}

} // verus!
