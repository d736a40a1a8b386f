use vstd::prelude::*;

verus! {

use crate::row::Row;
use crate::row::rank_of;
use crate::row::rev4;
use crate::row::slide_seq;
use crate::row::slide_score;
use crate::row::ranks_valid;
use crate::row::lemma_slide_seq_basic;
use crate::row::lemma_row_view_injective;
use crate::row::rank_values;
use crate::row::zero_count;
use crate::row::filled_count;
use crate::row::empty_bit;
use crate::row::tile_bit;
use vstd::arithmetic::power2::pow2;
use vstd::arithmetic::power2::lemma2_to64;
use vstd::arithmetic::power2::lemma_pow2_strictly_increases;

/// A move that changed the board, together with the board it produced
/// (before any tile spawn) and the score it earned.
pub struct MoveRecord {
    pub m: Move,
    pub board_after: Board,
    pub score: u32,
}

/// The four moves of the game. A move only selects which board transform to
/// apply; it has no state of its own.
#[derive(Clone, Copy, Debug, PartialEq, Eq, Structural)]
pub enum Move {
    Left,
    Right,
    Up,
    Down,
}

/// The move encoded by the integer `i`.
pub open spec fn move_of_int(i: int) -> Move {
    if i == 0 {
        Move::Up
    } else if i == 1 {
        Move::Down
    } else if i == 2 {
        Move::Left
    } else {
        Move::Right
    }
}

/// The integer encoding the move `m`.
pub open spec fn int_of_move(m: Move) -> int {
    match m {
        Move::Up => 0,
        Move::Down => 1,
        Move::Left => 2,
        Move::Right => 3,
    }
}

impl Move {
    pub fn from_int(i: u32) -> (m: Move)
        requires
            i < 4,
        ensures
            m == move_of_int(i as int),
    {
        match i {
            0 => Move::Up,
            1 => Move::Down,
            2 => Move::Left,
            _ => Move::Right,
        }
    }

    pub fn to_int(&self) -> (i: u32)
        ensures
            i == int_of_move(*self),
            move_of_int(i as int) == *self,
    {
        match self {
            Move::Up => 0,
            Move::Down => 1,
            Move::Left => 2,
            Move::Right => 3,
        }
    }

    /// A uniformly random move.
    pub fn rand(rng: &mut fastrand::Rng) -> Move {
        Move::from_int(crate::rng::rng_u32_below(rng, 4))
    }

    /// All four moves.
    pub fn all() -> (r: [Move; 4])
        ensures
            r@ == seq![Move::Up, Move::Down, Move::Left, Move::Right],
    {
        let r = [Move::Up, Move::Down, Move::Left, Move::Right];
        proof {
            assert(r@ =~= seq![Move::Up, Move::Down, Move::Left, Move::Right]);
        }
        r
    }
}

/// Rank stored in 4-bit field `i` of the packed word `w` (field 0 in the low
/// bits). Field `4*r + c` is the cell in row `r`, column `c`.
pub open spec fn nib(w: u64, i: int) -> u8 {
    ((w >> ((4 * (i as u64)) as u64)) & 0xf) as u8
}

/// A 4x4 grid of tile ranks packed as sixteen 4-bit fields of a 64-bit word,
/// row-major, row 0 in the low bits. Every 4-bit field is a valid rank, so
/// any 64-bit word is a well-formed board.
#[derive(Clone, Copy, PartialEq, Eq, Hash, Structural)]
pub struct Board {
    pub raw: u64,
}

impl View for Board {
    type V = Seq<u8>;

    open spec fn view(&self) -> Seq<u8> {
        Seq::new(16, |i: int| nib(self.raw, i))
    }
}

proof fn bv_zero_board(k: u64)
    by (bit_vector)
    requires
        k < 16,
    ensures
        (0u64 >> ((4 * k) as u64)) & 0xf == 0,
{
}

proof fn bv_board_field_bound(w: u64, k: u64)
    by (bit_vector)
    requires
        k < 16,
    ensures
        (w >> ((4 * k) as u64)) & 0xf < 16,
{
}

proof fn bv_board_set_field(w: u64, v: u64, i: u64, x: u8, k: u64)
    by (bit_vector)
    requires
        i < 16,
        k < 16,
        v == (w & !(0xfu64 << ((4 * i) as u64))) | (((x & 0x0f) as u64) << ((4 * i) as u64)),
    ensures
        (v >> ((4 * k) as u64)) & 0xf == if k == i {
            (x & 0x0f) as u64
        } else {
            (w >> ((4 * k) as u64)) & 0xf
        },
{
}

proof fn bv_board_get_row(w: u64, i: u64, k: u16)
    by (bit_vector)
    requires
        i < 4,
        k < 4,
    ensures
        ((((w >> ((16 * i) as u64)) & 0xffff) as u16) >> ((4 * k) as u16)) & 0xf == ((w >> ((4 * (
        4 * i + k as u64)) as u64)) & 0xf) as u16,
{
}

proof fn bv_board_set_row(w: u64, v: u64, r: u16, i: u64, k: u64)
    by (bit_vector)
    requires
        i < 4,
        k < 16,
        v == (w & !(0xffffu64 << ((16 * i) as u64))) | ((r as u64) << ((16 * i) as u64)),
    ensures
        (v >> ((4 * k) as u64)) & 0xf == if k / 4 == i {
            ((r >> ((4 * ((k % 4) as u16)) as u16)) & 0xf) as u64
        } else {
            (w >> ((4 * k) as u64)) & 0xf
        },
{
}

proof fn bv_get_col(w: u64, sh: u64, v: u64, i: u64, k: u16)
    by (bit_vector)
    requires
        i < 4,
        k < 4,
        sh == (w & (0x000f000f000f000fu64 << ((4 * i) as u64))) >> ((4 * i) as u64),
        v == (sh & 0xf) | ((sh & 0x000f0000) >> 12u64) | ((sh & 0x000f00000000) >> 24u64) | ((sh
            & 0x000f000000000000) >> 36u64),
    ensures
        ((v as u16) >> ((4 * k) as u16)) & 0xf == ((w >> ((4 * (4 * (k as u64) + i)) as u64))
            & 0xf) as u16,
{
}

proof fn bv_set_col(w: u64, p: u64, v: u64, r: u16, i: u64, k: u64)
    by (bit_vector)
    requires
        i < 4,
        k < 16,
        p == ((((r & 0xf000) >> 12u16) as u64) << 48u64) | ((((r & 0x0f00) >> 8u16) as u64)
            << 32u64) | ((((r & 0x00f0) >> 4u16) as u64) << 16u64) | ((r & 0x000f) as u64),
        v == (w & !(0x000f000f000f000fu64 << ((4 * i) as u64))) | (p << ((4 * i) as u64)),
    ensures
        (v >> ((4 * k) as u64)) & 0xf == if k % 4 == i {
            ((r >> ((4 * ((k / 4) as u16)) as u16)) & 0xf) as u64
        } else {
            (w >> ((4 * k) as u64)) & 0xf
        },
{
}

proof fn bv_board_eq(x: u64, y: u64)
    by (bit_vector)
    requires
        nib(x, 0) == nib(y, 0),
        nib(x, 1) == nib(y, 1),
        nib(x, 2) == nib(y, 2),
        nib(x, 3) == nib(y, 3),
        nib(x, 4) == nib(y, 4),
        nib(x, 5) == nib(y, 5),
        nib(x, 6) == nib(y, 6),
        nib(x, 7) == nib(y, 7),
        nib(x, 8) == nib(y, 8),
        nib(x, 9) == nib(y, 9),
        nib(x, 10) == nib(y, 10),
        nib(x, 11) == nib(y, 11),
        nib(x, 12) == nib(y, 12),
        nib(x, 13) == nib(y, 13),
        nib(x, 14) == nib(y, 14),
        nib(x, 15) == nib(y, 15),
    ensures
        x == y,
{
}

/// The board mirrored across its main diagonal: cell (r, c) moves to (c, r).
pub open spec fn transpose_seq(s: Seq<u8>) -> Seq<u8> {
    Seq::new(16, |k: int| s[4 * (k % 4) + k / 4])
}

/// Each row of the board reversed: cell (r, c) moves to (r, 3 - c).
pub open spec fn flip_h_seq(s: Seq<u8>) -> Seq<u8> {
    Seq::new(16, |k: int| s[4 * (k / 4) + 3 - (k % 4)])
}

/// The rows of the board in reverse order: cell (r, c) moves to (3 - r, c).
pub open spec fn flip_v_seq(s: Seq<u8>) -> Seq<u8> {
    Seq::new(16, |k: int| s[4 * (3 - k / 4) + k % 4])
}

/// A quarter turn clockwise: a transpose followed by a horizontal mirror.
pub open spec fn cw_seq(s: Seq<u8>) -> Seq<u8> {
    flip_h_seq(transpose_seq(s))
}

/// A quarter turn counter-clockwise: a transpose followed by a vertical mirror.
pub open spec fn ccw_seq(s: Seq<u8>) -> Seq<u8> {
    flip_v_seq(transpose_seq(s))
}

/// `k` quarter turns clockwise.
pub open spec fn rot_cw_n(s: Seq<u8>, k: nat) -> Seq<u8>
    decreases k,
{
    if k == 0 {
        s
    } else {
        cw_seq(rot_cw_n(s, (k - 1) as nat))
    }
}

/// The largest rank in `s` (0 on an empty board).
pub open spec fn max_rank(s: Seq<u8>) -> u8
    decreases s.len(),
{
    if s.len() == 0 {
        0
    } else {
        let m = max_rank(s.drop_last());
        if s.last() > m {
            s.last()
        } else {
            m
        }
    }
}

/// Some cell of `s` holds rank `v`.
pub open spec fn has_rank(s: Seq<u8>, v: u8) -> bool {
    exists|i: int| 0 <= i < s.len() && s[i] == v
}

/// How many of the ranks `1..r` occur in `s`.
pub open spec fn distinct_upto(s: Seq<u8>, r: int) -> nat
    decreases r,
{
    if r <= 1 {
        0
    } else {
        distinct_upto(s, r - 1) + if has_rank(s, (r - 1) as u8) {
            1nat
        } else {
            0nat
        }
    }
}

/// How many distinct nonzero ranks occur in `s`.
pub open spec fn distinct_ranks(s: Seq<u8>) -> nat {
    distinct_upto(s, 16)
}

/// Row `r` of a board, as its sequence of four ranks.
pub open spec fn row_of(s: Seq<u8>, r: int) -> Seq<u8> {
    s.subrange(4 * r, 4 * r + 4)
}

/// The board with every row slid leftward.
pub open spec fn slide_board(s: Seq<u8>) -> Seq<u8> {
    Seq::new(16, |k: int| slide_seq(row_of(s, k / 4))[k % 4])
}

/// The total score of sliding the first `n` rows leftward.
pub open spec fn slide_scores_upto(s: Seq<u8>, n: int) -> nat
    decreases n,
{
    if n <= 0 {
        0
    } else {
        slide_scores_upto(s, n - 1) + slide_score(row_of(s, n - 1))
    }
}

/// The total score of sliding all four rows leftward.
pub open spec fn slide_board_score(s: Seq<u8>) -> nat {
    slide_scores_upto(s, 4)
}

/// The board with every row slid rightward: each row is reversed, slid
/// leftward, and reversed back.
pub open spec fn slide_board_r(s: Seq<u8>) -> Seq<u8> {
    Seq::new(16, |k: int| rev4(slide_seq(rev4(row_of(s, k / 4))))[k % 4])
}

/// The total score of sliding the first `n` rows rightward.
pub open spec fn slide_scores_r_upto(s: Seq<u8>, n: int) -> nat
    decreases n,
{
    if n <= 0 {
        0
    } else {
        slide_scores_r_upto(s, n - 1) + slide_score(rev4(row_of(s, n - 1)))
    }
}

/// The total score of sliding all four rows rightward.
pub open spec fn slide_board_r_score(s: Seq<u8>) -> nat {
    slide_scores_r_upto(s, 4)
}

/// What each move does to the sixteen ranks of a board. Up and Down rotate
/// the board so the move becomes a leftward slide, then rotate back.
pub open spec fn board_move(m: Move, s: Seq<u8>) -> Seq<u8> {
    match m {
        Move::Left => slide_board(s),
        Move::Right => slide_board_r(s),
        Move::Up => cw_seq(slide_board(ccw_seq(s))),
        Move::Down => ccw_seq(slide_board(cw_seq(s))),
    }
}

/// The score each move earns.
pub open spec fn board_move_score(m: Move, s: Seq<u8>) -> nat {
    match m {
        Move::Left => slide_board_score(s),
        Move::Right => slide_board_r_score(s),
        Move::Up => slide_board_score(ccw_seq(s)),
        Move::Down => slide_board_score(cw_seq(s)),
    }
}

/// No move changes the board: the game is over.
pub open spec fn is_terminal(s: Seq<u8>) -> bool {
    &&& board_move(Move::Up, s) == s
    &&& board_move(Move::Down, s) == s
    &&& board_move(Move::Left, s) == s
    &&& board_move(Move::Right, s) == s
}

proof fn bv_transpose(w: u64, s1: u64, v: u64)
    by (bit_vector)
    requires
        s1 == (w & 0xf0f00f0ff0f00f0f) | ((w & 0x0000f0f00000f0f0) << 12u64) | ((w
            & 0x0f0f00000f0f0000) >> 12u64),
        v == (s1 & 0xff00ff0000ff00ff) | ((s1 & 0x00000000ff00ff00) << 24u64) | ((s1
            & 0x00ff00ff00000000) >> 24u64),
    ensures
        nib(v, 0) == nib(w, 0),
        nib(v, 1) == nib(w, 4),
        nib(v, 2) == nib(w, 8),
        nib(v, 3) == nib(w, 12),
        nib(v, 4) == nib(w, 1),
        nib(v, 5) == nib(w, 5),
        nib(v, 6) == nib(w, 9),
        nib(v, 7) == nib(w, 13),
        nib(v, 8) == nib(w, 2),
        nib(v, 9) == nib(w, 6),
        nib(v, 10) == nib(w, 10),
        nib(v, 11) == nib(w, 14),
        nib(v, 12) == nib(w, 3),
        nib(v, 13) == nib(w, 7),
        nib(v, 14) == nib(w, 11),
        nib(v, 15) == nib(w, 15),
{
}

proof fn bv_flip_h(w: u64, v: u64)
    by (bit_vector)
    requires
        v == ((w & 0x000f000f000f000f) << 12u64) | ((w & 0x00f000f000f000f0) << 4u64) | ((w
            & 0x0f000f000f000f00) >> 4u64) | ((w & 0xf000f000f000f000) >> 12u64),
    ensures
        nib(v, 0) == nib(w, 3),
        nib(v, 1) == nib(w, 2),
        nib(v, 2) == nib(w, 1),
        nib(v, 3) == nib(w, 0),
        nib(v, 4) == nib(w, 7),
        nib(v, 5) == nib(w, 6),
        nib(v, 6) == nib(w, 5),
        nib(v, 7) == nib(w, 4),
        nib(v, 8) == nib(w, 11),
        nib(v, 9) == nib(w, 10),
        nib(v, 10) == nib(w, 9),
        nib(v, 11) == nib(w, 8),
        nib(v, 12) == nib(w, 15),
        nib(v, 13) == nib(w, 14),
        nib(v, 14) == nib(w, 13),
        nib(v, 15) == nib(w, 12),
{
}

proof fn bv_flip_v(w: u64, v: u64)
    by (bit_vector)
    requires
        v == ((w & 0x000000000000ffff) << 48u64) | ((w & 0x00000000ffff0000) << 16u64) | ((w
            & 0x0000ffff00000000) >> 16u64) | ((w & 0xffff000000000000) >> 48u64),
    ensures
        nib(v, 0) == nib(w, 12),
        nib(v, 1) == nib(w, 13),
        nib(v, 2) == nib(w, 14),
        nib(v, 3) == nib(w, 15),
        nib(v, 4) == nib(w, 8),
        nib(v, 5) == nib(w, 9),
        nib(v, 6) == nib(w, 10),
        nib(v, 7) == nib(w, 11),
        nib(v, 8) == nib(w, 4),
        nib(v, 9) == nib(w, 5),
        nib(v, 10) == nib(w, 6),
        nib(v, 11) == nib(w, 7),
        nib(v, 12) == nib(w, 0),
        nib(v, 13) == nib(w, 1),
        nib(v, 14) == nib(w, 2),
        nib(v, 15) == nib(w, 3),
{
}

/// Where a clockwise turn takes each cell: cell (r, c) comes from (3 - c, r).
pub proof fn lemma_cw_index(s: Seq<u8>, k: int)
    requires
        s.len() == 16,
        0 <= k < 16,
    ensures
        cw_seq(s)[k] == s[4 * (3 - k % 4) + k / 4],
{
    let j = 4 * (k / 4) + 3 - k % 4;
    assert(0 <= j < 16);
    assert(cw_seq(s)[k] == transpose_seq(s)[j]);
    assert(j / 4 == k / 4);
    assert(j % 4 == 3 - k % 4);
    assert(transpose_seq(s)[j] == s[4 * (j % 4) + j / 4]);
}

/// Where a counter-clockwise turn takes each cell: cell (r, c) comes from (c, 3 - r).
pub proof fn lemma_ccw_index(s: Seq<u8>, k: int)
    requires
        s.len() == 16,
        0 <= k < 16,
    ensures
        ccw_seq(s)[k] == s[4 * (k % 4) + 3 - k / 4],
{
    let j = 4 * (3 - k / 4) + k % 4;
    assert(0 <= j < 16);
    assert(ccw_seq(s)[k] == transpose_seq(s)[j]);
    assert(j / 4 == 3 - k / 4);
    assert(j % 4 == k % 4);
    assert(transpose_seq(s)[j] == s[4 * (j % 4) + j / 4]);
}

proof fn lemma_cw_cw_index(a: Seq<u8>, b: Seq<u8>, c: Seq<u8>, k: int)
    requires
        a.len() == 16,
        b == cw_seq(a),
        c == cw_seq(b),
        0 <= k < 16,
    ensures
        c[k] == a[15 - k],
{
    lemma_cw_index(b, k);
    let m = 4 * (3 - k % 4) + k / 4;
    lemma_cw_index(a, m);
    assert(m % 4 == k / 4);
    assert(m / 4 == 3 - k % 4);
    assert(4 * (3 - m % 4) + m / 4 == 15 - k);
}

/// A quarter turn one way undoes a quarter turn the other way, and four
/// quarter turns the same way give the board back.
#[verifier::rlimit(100)]
pub proof fn lemma_rotation_group(s: Seq<u8>)
    requires
        s.len() == 16,
    ensures
        cw_seq(ccw_seq(s)) == s,
        ccw_seq(cw_seq(s)) == s,
        cw_seq(cw_seq(cw_seq(cw_seq(s)))) == s,
{
    assert forall|k: int| 0 <= k < 16 implies cw_seq(ccw_seq(s))[k] == s[k] by {
        lemma_cw_index(ccw_seq(s), k);
        let m = 4 * (3 - k % 4) + k / 4;
        lemma_ccw_index(s, m);
        assert(m % 4 == k / 4);
        assert(m / 4 == 3 - k % 4);
        assert(4 * (m % 4) + 3 - m / 4 == k);
    }
    assert(cw_seq(ccw_seq(s)) =~= s);
    assert forall|k: int| 0 <= k < 16 implies ccw_seq(cw_seq(s))[k] == s[k] by {
        lemma_ccw_index(cw_seq(s), k);
        let m = 4 * (k % 4) + 3 - k / 4;
        lemma_cw_index(s, m);
        assert(m % 4 == 3 - k / 4);
        assert(m / 4 == k % 4);
        assert(4 * (3 - m % 4) + m / 4 == k);
    }
    assert(ccw_seq(cw_seq(s)) =~= s);
    let t2 = cw_seq(cw_seq(s));
    let t4 = cw_seq(cw_seq(t2));
    assert forall|k: int| 0 <= k < 16 implies t4[k] == s[k] by {
        lemma_cw_cw_index(t2, cw_seq(t2), t4, k);
        lemma_cw_cw_index(s, cw_seq(s), t2, 15 - k);
    }
    assert(t4 =~= s);
}

proof fn lemma_counts16(s: Seq<u8>)
    requires
        s.len() == 16,
    ensures
        rank_values(s) == pow2(s[0] as nat) + pow2(s[1] as nat) + pow2(s[2] as nat) + pow2(
            s[3] as nat,
        ) + pow2(s[4] as nat) + pow2(s[5] as nat) + pow2(s[6] as nat) + pow2(s[7] as nat) + pow2(
            s[8] as nat,
        ) + pow2(s[9] as nat) + pow2(s[10] as nat) + pow2(s[11] as nat) + pow2(s[12] as nat)
            + pow2(s[13] as nat) + pow2(s[14] as nat) + pow2(s[15] as nat),
        zero_count(s) == empty_bit(s[0]) + empty_bit(s[1]) + empty_bit(s[2]) + empty_bit(s[3])
            + empty_bit(s[4]) + empty_bit(s[5]) + empty_bit(s[6]) + empty_bit(s[7]) + empty_bit(
            s[8],
        ) + empty_bit(s[9]) + empty_bit(s[10]) + empty_bit(s[11]) + empty_bit(s[12]) + empty_bit(
            s[13],
        ) + empty_bit(s[14]) + empty_bit(s[15]),
        filled_count(s) == tile_bit(s[0]) + tile_bit(s[1]) + tile_bit(s[2]) + tile_bit(s[3])
            + tile_bit(s[4]) + tile_bit(s[5]) + tile_bit(s[6]) + tile_bit(s[7]) + tile_bit(s[8])
            + tile_bit(s[9]) + tile_bit(s[10]) + tile_bit(s[11]) + tile_bit(s[12]) + tile_bit(
            s[13],
        ) + tile_bit(s[14]) + tile_bit(s[15]),
{
    let s15 = s.drop_last();
    let s14 = s15.drop_last();
    let s13 = s14.drop_last();
    let s12 = s13.drop_last();
    let s11 = s12.drop_last();
    let s10 = s11.drop_last();
    let s9 = s10.drop_last();
    let s8 = s9.drop_last();
    let s7 = s8.drop_last();
    let s6 = s7.drop_last();
    let s5 = s6.drop_last();
    let s4 = s5.drop_last();
    let s3 = s4.drop_last();
    let s2 = s3.drop_last();
    let s1 = s2.drop_last();
    let s0 = s1.drop_last();
    assert(rank_values(s) == rank_values(s15) + pow2(s[15] as nat) && zero_count(s) == zero_count(
        s15,
    ) + empty_bit(s[15]) && filled_count(s) == filled_count(s15) + tile_bit(s[15]));
    assert(rank_values(s15) == rank_values(s14) + pow2(s[14] as nat) && zero_count(s15)
        == zero_count(s14) + empty_bit(s[14]) && filled_count(s15) == filled_count(s14) + tile_bit(
        s[14],
    ));
    assert(rank_values(s14) == rank_values(s13) + pow2(s[13] as nat) && zero_count(s14)
        == zero_count(s13) + empty_bit(s[13]) && filled_count(s14) == filled_count(s13) + tile_bit(
        s[13],
    ));
    assert(rank_values(s13) == rank_values(s12) + pow2(s[12] as nat) && zero_count(s13)
        == zero_count(s12) + empty_bit(s[12]) && filled_count(s13) == filled_count(s12) + tile_bit(
        s[12],
    ));
    assert(rank_values(s12) == rank_values(s11) + pow2(s[11] as nat) && zero_count(s12)
        == zero_count(s11) + empty_bit(s[11]) && filled_count(s12) == filled_count(s11) + tile_bit(
        s[11],
    ));
    assert(rank_values(s11) == rank_values(s10) + pow2(s[10] as nat) && zero_count(s11)
        == zero_count(s10) + empty_bit(s[10]) && filled_count(s11) == filled_count(s10) + tile_bit(
        s[10],
    ));
    assert(rank_values(s10) == rank_values(s9) + pow2(s[9] as nat) && zero_count(s10)
        == zero_count(s9) + empty_bit(s[9]) && filled_count(s10) == filled_count(s9) + tile_bit(
        s[9],
    ));
    assert(rank_values(s9) == rank_values(s8) + pow2(s[8] as nat) && zero_count(s9) == zero_count(
        s8,
    ) + empty_bit(s[8]) && filled_count(s9) == filled_count(s8) + tile_bit(s[8]));
    assert(rank_values(s8) == rank_values(s7) + pow2(s[7] as nat) && zero_count(s8) == zero_count(
        s7,
    ) + empty_bit(s[7]) && filled_count(s8) == filled_count(s7) + tile_bit(s[7]));
    assert(rank_values(s7) == rank_values(s6) + pow2(s[6] as nat) && zero_count(s7) == zero_count(
        s6,
    ) + empty_bit(s[6]) && filled_count(s7) == filled_count(s6) + tile_bit(s[6]));
    assert(rank_values(s6) == rank_values(s5) + pow2(s[5] as nat) && zero_count(s6) == zero_count(
        s5,
    ) + empty_bit(s[5]) && filled_count(s6) == filled_count(s5) + tile_bit(s[5]));
    assert(rank_values(s5) == rank_values(s4) + pow2(s[4] as nat) && zero_count(s5) == zero_count(
        s4,
    ) + empty_bit(s[4]) && filled_count(s5) == filled_count(s4) + tile_bit(s[4]));
    assert(rank_values(s4) == rank_values(s3) + pow2(s[3] as nat) && zero_count(s4) == zero_count(
        s3,
    ) + empty_bit(s[3]) && filled_count(s4) == filled_count(s3) + tile_bit(s[3]));
    assert(rank_values(s3) == rank_values(s2) + pow2(s[2] as nat) && zero_count(s3) == zero_count(
        s2,
    ) + empty_bit(s[2]) && filled_count(s3) == filled_count(s2) + tile_bit(s[2]));
    assert(rank_values(s2) == rank_values(s1) + pow2(s[1] as nat) && zero_count(s2) == zero_count(
        s1,
    ) + empty_bit(s[1]) && filled_count(s2) == filled_count(s1) + tile_bit(s[1]));
    assert(rank_values(s1) == rank_values(s0) + pow2(s[0] as nat) && zero_count(s1) == zero_count(
        s0,
    ) + empty_bit(s[0]) && filled_count(s1) == filled_count(s0) + tile_bit(s[0]));
    assert(s0.len() == 0);
    assert(rank_values(s0) == 0 && zero_count(s0) == 0 && filled_count(s0) == 0);
}

/// Rotating a board moves its cells around without changing what they hold,
/// so every count over the cells is unchanged.
proof fn lemma_counts_rot(s: Seq<u8>)
    requires
        s.len() == 16,
    ensures
        rank_values(cw_seq(s)) == rank_values(s),
        zero_count(cw_seq(s)) == zero_count(s),
        filled_count(cw_seq(s)) == filled_count(s),
        rank_values(ccw_seq(s)) == rank_values(s),
        zero_count(ccw_seq(s)) == zero_count(s),
        filled_count(ccw_seq(s)) == filled_count(s),
{
    let t = cw_seq(s);
    let u = ccw_seq(s);
    lemma_counts16(s);
    lemma_counts16(t);
    lemma_counts16(u);
    assert forall|k: int| 0 <= k < 16 implies t[k] == s[4 * (3 - k % 4) + k / 4] by {
        lemma_cw_index(s, k);
    }
    assert forall|k: int| 0 <= k < 16 implies u[k] == s[4 * (k % 4) + 3 - k / 4] by {
        lemma_ccw_index(s, k);
    }
}

/// A rotated board holds the same ranks, each still representable.
proof fn lemma_ranks_valid_rot(s: Seq<u8>)
    requires
        s.len() == 16,
        ranks_valid(s),
    ensures
        ranks_valid(cw_seq(s)),
        ranks_valid(ccw_seq(s)),
{
    assert forall|k: int| 0 <= k < 16 implies #[trigger] cw_seq(s)[k] <= 15 by {
        lemma_cw_index(s, k);
    }
    assert forall|k: int| 0 <= k < 16 implies #[trigger] ccw_seq(s)[k] <= 15 by {
        lemma_ccw_index(s, k);
    }
}

proof fn lemma_counts4(x: Seq<u8>)
    requires
        x.len() == 4,
    ensures
        rank_values(x) == pow2(x[0] as nat) + pow2(x[1] as nat) + pow2(x[2] as nat) + pow2(
            x[3] as nat,
        ),
        zero_count(x) == empty_bit(x[0]) + empty_bit(x[1]) + empty_bit(x[2]) + empty_bit(x[3]),
        filled_count(x) == tile_bit(x[0]) + tile_bit(x[1]) + tile_bit(x[2]) + tile_bit(x[3]),
{
    reveal_with_fuel(rank_values, 5);
    reveal_with_fuel(zero_count, 5);
    reveal_with_fuel(filled_count, 5);
}

proof fn lemma_counts_rev4(x: Seq<u8>)
    requires
        x.len() == 4,
    ensures
        rank_values(rev4(x)) == rank_values(x),
        zero_count(rev4(x)) == zero_count(x),
        filled_count(rev4(x)) == filled_count(x),
{
    lemma_counts4(x);
    lemma_counts4(rev4(x));
}

/// Sliding every row leftward keeps the board's shape, never loses tile
/// value, never fills an empty cell, and can only change a board that ends
/// up with an empty cell.
pub proof fn lemma_slide_board_counts(s: Seq<u8>)
    requires
        s.len() == 16,
        ranks_valid(s),
    ensures
        slide_board(s).len() == 16,
        ranks_valid(slide_board(s)),
        rank_values(slide_board(s)) >= rank_values(s),
        filled_count(slide_board(s)) <= filled_count(s),
        zero_count(slide_board(s)) >= zero_count(s),
        slide_board(s) != s ==> zero_count(slide_board(s)) >= 1,
{
    let t = slide_board(s);
    let r0 = row_of(s, 0);
    let r1 = row_of(s, 1);
    let r2 = row_of(s, 2);
    let r3 = row_of(s, 3);
    assert forall|j: int, k: int| 0 <= j < 4 && 0 <= k < 4 implies #[trigger] row_of(s, j)[k]
        <= 15 by {
        assert(row_of(s, j)[k] == s[4 * j + k]);
    }
    lemma_slide_seq_basic(r0);
    lemma_slide_seq_basic(r1);
    lemma_slide_seq_basic(r2);
    lemma_slide_seq_basic(r3);
    assert(s =~= r0 + r1 + r2 + r3);
    assert forall|k: int| 0 <= k < 16 implies t[k] == (slide_seq(r0) + slide_seq(r1) + slide_seq(
        r2,
    ) + slide_seq(r3))[k] by {
        assert(t[k] == slide_seq(row_of(s, k / 4))[k % 4]);
    }
    assert(t =~= slide_seq(r0) + slide_seq(r1) + slide_seq(r2) + slide_seq(r3));
    crate::row::lemma_counts_concat(r0, r1);
    crate::row::lemma_counts_concat(r0 + r1, r2);
    crate::row::lemma_counts_concat(r0 + r1 + r2, r3);
    crate::row::lemma_counts_concat(slide_seq(r0), slide_seq(r1));
    crate::row::lemma_counts_concat(slide_seq(r0) + slide_seq(r1), slide_seq(r2));
    crate::row::lemma_counts_concat(slide_seq(r0) + slide_seq(r1) + slide_seq(r2), slide_seq(r3));
    assert forall|k: int| 0 <= k < 16 implies #[trigger] t[k] <= 15 by {
        assert(t[k] == slide_seq(row_of(s, k / 4))[k % 4]);
    }
    if t != s {
        if slide_seq(r0) == r0 && slide_seq(r1) == r1 && slide_seq(r2) == r2 && slide_seq(r3)
            == r3 {
            assert(t =~= s);
        }
        assert(zero_count(t) >= 1);
    }
}

proof fn lemma_slide_rev_row(rj: Seq<u8>)
    requires
        rj.len() == 4,
        ranks_valid(rj),
    ensures
        rev4(slide_seq(rev4(rj))).len() == 4,
        rank_values(rev4(slide_seq(rev4(rj)))) >= rank_values(rj),
        filled_count(rev4(slide_seq(rev4(rj)))) <= filled_count(rj),
        zero_count(rev4(slide_seq(rev4(rj)))) >= zero_count(rj),
        rev4(slide_seq(rev4(rj))) != rj ==> zero_count(rev4(slide_seq(rev4(rj)))) >= 1,
        forall|k: int| 0 <= k < 4 ==> #[trigger] rev4(slide_seq(rev4(rj)))[k] <= 15,
{
    let v = rev4(rj);
    assert forall|k: int| 0 <= k < 4 implies #[trigger] v[k] <= 15 by {
        assert(v[k] == rj[3 - k]);
    }
    lemma_slide_seq_basic(v);
    let w = slide_seq(v);
    let mj = rev4(w);
    lemma_counts_rev4(rj);
    lemma_counts_rev4(w);
    assert forall|k: int| 0 <= k < 4 implies #[trigger] mj[k] <= 15 by {
        assert(mj[k] == w[3 - k]);
    }
    if mj != rj {
        if zero_count(w) == 0 {
            assert(w == v);
            crate::row::lemma_rev4_involution(rj);
            assert(mj =~= rj);
        }
    }
}

/// The same facts for the rightward slide, through each row's reversal.
pub proof fn lemma_slide_board_r_counts(s: Seq<u8>)
    requires
        s.len() == 16,
        ranks_valid(s),
    ensures
        slide_board_r(s).len() == 16,
        ranks_valid(slide_board_r(s)),
        rank_values(slide_board_r(s)) >= rank_values(s),
        filled_count(slide_board_r(s)) <= filled_count(s),
        zero_count(slide_board_r(s)) >= zero_count(s),
        slide_board_r(s) != s ==> zero_count(slide_board_r(s)) >= 1,
{
    let t = slide_board_r(s);
    assert forall|j: int, k: int| 0 <= j < 4 && 0 <= k < 4 implies #[trigger] row_of(s, j)[k]
        <= 15 by {
        assert(row_of(s, j)[k] == s[4 * j + k]);
    }
    assert forall|j: int, k: int| 0 <= j < 4 && 0 <= k < 4 implies #[trigger] rev4(
        row_of(s, j),
    )[k] <= 15 by {
        assert(rev4(row_of(s, j))[k] == row_of(s, j)[3 - k]);
        assert(row_of(s, j)[3 - k] == s[4 * j + (3 - k)]);
    }
    let m0 = rev4(slide_seq(rev4(row_of(s, 0))));
    let m1 = rev4(slide_seq(rev4(row_of(s, 1))));
    let m2 = rev4(slide_seq(rev4(row_of(s, 2))));
    let m3 = rev4(slide_seq(rev4(row_of(s, 3))));
    lemma_slide_rev_row(row_of(s, 0));
    lemma_slide_rev_row(row_of(s, 1));
    lemma_slide_rev_row(row_of(s, 2));
    lemma_slide_rev_row(row_of(s, 3));
    assert(s =~= row_of(s, 0) + row_of(s, 1) + row_of(s, 2) + row_of(s, 3));
    assert forall|k: int| 0 <= k < 16 implies t[k] == (m0 + m1 + m2 + m3)[k] by {
        assert(t[k] == rev4(slide_seq(rev4(row_of(s, k / 4))))[k % 4]);
    }
    assert(t =~= m0 + m1 + m2 + m3);
    crate::row::lemma_counts_concat(row_of(s, 0), row_of(s, 1));
    crate::row::lemma_counts_concat(row_of(s, 0) + row_of(s, 1), row_of(s, 2));
    crate::row::lemma_counts_concat(row_of(s, 0) + row_of(s, 1) + row_of(s, 2), row_of(s, 3));
    crate::row::lemma_counts_concat(m0, m1);
    crate::row::lemma_counts_concat(m0 + m1, m2);
    crate::row::lemma_counts_concat(m0 + m1 + m2, m3);
    assert forall|k: int| 0 <= k < 16 implies #[trigger] t[k] <= 15 by {
        assert(t[k] == rev4(slide_seq(rev4(row_of(s, k / 4))))[k % 4]);
    }
    if t != s {
        if m0 == row_of(s, 0) && m1 == row_of(s, 1) && m2 == row_of(s, 2) && m3 == row_of(s, 3) {
            assert(t =~= s);
        }
        assert(zero_count(t) >= 1);
    }
}

proof fn lemma_slide_scores_bound(s: Seq<u8>)
    requires
        s.len() == 16,
        ranks_valid(s),
    ensures
        slide_board_score(s) <= 524288,
        slide_board_r_score(s) <= 524288,
{
    assert forall|j: int, k: int| 0 <= j < 4 && 0 <= k < 4 implies #[trigger] row_of(s, j)[k]
        <= 15 by {
        assert(row_of(s, j)[k] == s[4 * j + k]);
    }
    assert forall|j: int, k: int| 0 <= j < 4 && 0 <= k < 4 implies #[trigger] rev4(
        row_of(s, j),
    )[k] <= 15 by {
        assert(rev4(row_of(s, j))[k] == row_of(s, j)[3 - k]);
        assert(row_of(s, j)[3 - k] == s[4 * j + (3 - k)]);
    }
    lemma_slide_seq_basic(row_of(s, 0));
    lemma_slide_seq_basic(row_of(s, 1));
    lemma_slide_seq_basic(row_of(s, 2));
    lemma_slide_seq_basic(row_of(s, 3));
    lemma_slide_seq_basic(rev4(row_of(s, 0)));
    lemma_slide_seq_basic(rev4(row_of(s, 1)));
    lemma_slide_seq_basic(rev4(row_of(s, 2)));
    lemma_slide_seq_basic(rev4(row_of(s, 3)));
    assert(slide_scores_upto(s, 4) == slide_scores_upto(s, 3) + slide_score(row_of(s, 3)));
    assert(slide_scores_upto(s, 3) == slide_scores_upto(s, 2) + slide_score(row_of(s, 2)));
    assert(slide_scores_upto(s, 2) == slide_scores_upto(s, 1) + slide_score(row_of(s, 1)));
    assert(slide_scores_upto(s, 1) == slide_scores_upto(s, 0) + slide_score(row_of(s, 0)));
    assert(slide_scores_r_upto(s, 4) == slide_scores_r_upto(s, 3) + slide_score(
        rev4(row_of(s, 3)),
    ));
    assert(slide_scores_r_upto(s, 3) == slide_scores_r_upto(s, 2) + slide_score(
        rev4(row_of(s, 2)),
    ));
    assert(slide_scores_r_upto(s, 2) == slide_scores_r_upto(s, 1) + slide_score(
        rev4(row_of(s, 1)),
    ));
    assert(slide_scores_r_upto(s, 1) == slide_scores_r_upto(s, 0) + slide_score(
        rev4(row_of(s, 0)),
    ));
}

/// The score of one move is at most 2^15 per merged pair, two pairs per row.
pub proof fn lemma_board_move_score_bound(m: Move, s: Seq<u8>)
    requires
        s.len() == 16,
        ranks_valid(s),
    ensures
        board_move_score(m, s) <= 524288,
{
    match m {
        Move::Left => {
            lemma_slide_scores_bound(s);
        },
        Move::Right => {
            lemma_slide_scores_bound(s);
        },
        Move::Up => {
            lemma_ranks_valid_rot(s);
            lemma_slide_scores_bound(ccw_seq(s));
        },
        Move::Down => {
            lemma_ranks_valid_rot(s);
            lemma_slide_scores_bound(cw_seq(s));
        },
    }
}

/// Conservation: a move never lowers the sum of tile values, never increases
/// the number of occupied cells, and a move that changes the board always
/// leaves an empty cell behind.
pub proof fn lemma_move_conservation(m: Move, s: Seq<u8>)
    requires
        s.len() == 16,
        ranks_valid(s),
    ensures
        board_move(m, s).len() == 16,
        ranks_valid(board_move(m, s)),
        rank_values(board_move(m, s)) >= rank_values(s),
        filled_count(board_move(m, s)) <= filled_count(s),
        board_move(m, s) != s ==> zero_count(board_move(m, s)) >= 1,
{
    match m {
        Move::Left => {
            lemma_slide_board_counts(s);
        },
        Move::Right => {
            lemma_slide_board_r_counts(s);
        },
        Move::Up => {
            let u = ccw_seq(s);
            lemma_ranks_valid_rot(s);
            lemma_counts_rot(s);
            lemma_slide_board_counts(u);
            let x = slide_board(u);
            lemma_ranks_valid_rot(x);
            lemma_counts_rot(x);
            lemma_rotation_group(s);
            if board_move(m, s) != s {
                if x == u {
                    assert(cw_seq(x) == cw_seq(ccw_seq(s)));
                }
                assert(zero_count(x) >= 1);
            }
        },
        Move::Down => {
            let u = cw_seq(s);
            lemma_ranks_valid_rot(s);
            lemma_counts_rot(s);
            lemma_slide_board_counts(u);
            let x = slide_board(u);
            lemma_ranks_valid_rot(x);
            lemma_counts_rot(x);
            lemma_rotation_group(s);
            if board_move(m, s) != s {
                if x == u {
                    assert(ccw_seq(x) == ccw_seq(cw_seq(s)));
                }
                assert(zero_count(x) >= 1);
            }
        },
    }
}

/// Two boards with the same sixteen ranks are the same packed word.
pub proof fn lemma_board_view_injective(a: Board, b: Board)
    requires
        a@ == b@,
    ensures
        a == b,
{
    assert forall|k: int| 0 <= k < 16 implies nib(a.raw, k) == nib(b.raw, k) by {
        assert(a@[k] == b@[k]);
        assert(a@[k] == nib(a.raw, k));
        assert(b@[k] == nib(b.raw, k));
    }
    bv_board_eq(a.raw, b.raw);
}

/// Every view of a packed board holds representable ranks.
pub proof fn lemma_board_ranks_valid(b: Board)
    ensures
        crate::row::ranks_valid(b@),
{
    assert forall|i: int| 0 <= i < 16 implies #[trigger] b@[i] <= 15 by {
        bv_board_field_bound(b.raw, i as u64);
    }
}

impl Board {
    /// The empty board.
    pub fn new() -> (b: Self)
        ensures
            b.raw == 0,
            b@ == Seq::new(16, |i: int| 0u8),
    {
        let b = Self { raw: 0 };
        proof {
            assert forall|i: int| 0 <= i < 16 implies nib(0u64, i) == 0u8 by {
                bv_zero_board(i as u64);
            }
            assert(b@ =~= Seq::new(16, |i: int| 0u8));
        }
        b
    }

    pub fn from_raw(raw: u64) -> (b: Self)
        ensures
            b.raw == raw,
    {
        Self { raw }
    }

    /// The rank of cell `i` (row-major).
    pub fn at(&self, i: u8) -> (r: u8)
        requires
            i < 16,
        ensures
            r == self@[i as int],
            r < 16,
    {
        let shift: u64 = i as u64 * 4;
        let r = ((self.raw >> shift) & 0x0f) as u8;
        proof {
            bv_board_field_bound(self.raw, i as u64);
            assert(shift == (4 * (i as u64)) as u64);
        }
        r
    }

    /// The rank of the cell in row `i`, column `j`.
    pub fn get(&self, i: u8, j: u8) -> (r: u8)
        requires
            i < 4,
            j < 4,
        ensures
            r == self@[4 * i as int + j as int],
            r < 16,
    {
        self.at(i * 4 + j)
    }

    /// Set cell `i` (row-major) to the rank in the low four bits of `val`.
    pub fn set(&mut self, i: u8, val: u8)
        requires
            i < 16,
        ensures
            final(self)@ == old(self)@.update(i as int, val & 0x0f),
    {
        let shift: u64 = i as u64 * 4;
        let mod_raw = (self.raw & !(0xfu64 << shift)) | (((val & 0x0f) as u64) << shift);
        proof {
            let w = self.raw;
            assert(shift == (4 * (i as u64)) as u64);
            assert forall|k: int| 0 <= k < 16 implies nib(mod_raw, k) == old(self)@.update(
                i as int,
                val & 0x0f,
            )[k] by {
                bv_board_set_field(w, mod_raw, i as u64, val, k as u64);
            }
        }
        self.raw = mod_raw;
        proof {
            assert(self@ =~= old(self)@.update(i as int, val & 0x0f));
        }
    }

    /// Row `i` of the board as a packed row.
    pub fn get_row(&self, i: u8) -> (r: Row)
        requires
            i < 4,
        ensures
            r@ == self@.subrange(4 * i as int, 4 * i as int + 4),
    {
        let shift: u64 = i as u64 * 16;
        let raw = ((self.raw >> shift) & 0xffff) as u16;
        let r = Row::from_raw(raw);
        proof {
            assert(shift == (16 * (i as u64)) as u64);
            assert forall|k: int| 0 <= k < 4 implies r@[k] == self@[4 * i as int + k] by {
                bv_board_get_row(self.raw, i as u64, k as u16);
                bv_board_field_bound(self.raw, (4 * i + k) as u64);
            }
            assert(r@ =~= self@.subrange(4 * i as int, 4 * i as int + 4));
        }
        r
    }

    /// Slide every row leftward; the summed merge score if the board
    /// changed, or no move if it is bit-identical before and after.
    pub fn move_left(&mut self) -> (res: Option<u32>)
        ensures
            final(self)@ == slide_board(old(self)@),
            res.is_some() <==> slide_board(old(self)@) != old(self)@,
            res matches Some(sc) ==> sc as nat == slide_board_score(old(self)@),
    {
        proof {
            lemma_board_ranks_valid(*self);
        }
        let mut score: u32 = 0;
        let mut did_move = false;
        let mut r: u8 = 0;
        while r < 4
            invariant
                r <= 4,
                ranks_valid(old(self)@),
                forall|k: int| 0 <= k < 4 * r as int ==> self@[k] == slide_board(old(self)@)[k],
                forall|k: int| 4 * r as int <= k < 16 ==> self@[k] == old(self)@[k],
                score as nat == slide_scores_upto(old(self)@, r as int),
                score <= 131072 * r as nat,
                did_move <==> exists|j: int|
                    0 <= j < r as int && slide_seq(#[trigger] row_of(old(self)@, j)) != row_of(
                        old(self)@,
                        j,
                    ),
            decreases 4 - r,
        {
            let ghost orow = row_of(old(self)@, r as int);
            proof {
                assert forall|k: int| 0 <= k < orow.len() implies #[trigger] orow[k] <= 15 by {
                    assert(orow[k] == old(self)@[4 * r as int + k]);
                }
                lemma_slide_seq_basic(orow);
            }
            let oldrow = self.get_row(r);
            proof {
                assert(oldrow@ =~= orow);
            }
            let (sd, newrow) = oldrow.shift_left();
            if newrow.raw != oldrow.raw {
                did_move = true;
            }
            proof {
                if newrow.raw == oldrow.raw {
                    assert(newrow@ == oldrow@);
                }
                if newrow@ == oldrow@ {
                    lemma_row_view_injective(newrow, oldrow);
                }
            }
            self.set_row(r, newrow);
            score = score + sd;
            r = r + 1;
            proof {
                assert forall|k: int| 0 <= k < 4 * r as int implies self@[k] == slide_board(
                    old(self)@,
                )[k] by {
                    if k >= 4 * (r - 1) {
                        assert(self@[k] == newrow@[k - 4 * (r - 1)]);
                        assert(slide_board(old(self)@)[k] == slide_seq(
                            row_of(old(self)@, k / 4),
                        )[k % 4]);
                        assert(k / 4 == r - 1);
                        assert(k % 4 == k - 4 * (r - 1));
                    }
                }
            }
        }
        proof {
            assert forall|k: int| 0 <= k < 16 implies self@[k] == slide_board(old(self)@)[k] by {}
            assert(self@ =~= slide_board(old(self)@));
            if did_move {
                let j = choose|j: int|
                    0 <= j < 4 && slide_seq(#[trigger] row_of(old(self)@, j)) != row_of(
                        old(self)@,
                        j,
                    );
                if slide_board(old(self)@) == old(self)@ {
                    let sj = row_of(old(self)@, j);
                    lemma_slide_seq_basic(sj);
                    assert forall|k: int| 0 <= k < 4 implies slide_seq(sj)[k] == sj[k] by {
                        let i = 4 * j + k;
                        assert(slide_board(old(self)@)[i] == old(self)@[i]);
                        assert(i / 4 == j);
                        assert(i % 4 == k);
                        assert(sj[k] == old(self)@[i]);
                    }
                    assert(slide_seq(sj) =~= sj);
                }
            } else {
                assert forall|k: int| 0 <= k < 16 implies slide_board(old(self)@)[k] == old(
                    self,
                )@[k] by {
                    let j = k / 4;
                    assert(slide_seq(row_of(old(self)@, j)) == row_of(old(self)@, j));
                    assert(row_of(old(self)@, j)[k % 4] == old(self)@[k]);
                }
                assert(slide_board(old(self)@) =~= old(self)@);
            }
        }
        if did_move {
            Some(score)
        } else {
            None
        }
    }

    /// Slide every row rightward, by each row's reversal before and after a
    /// leftward slide; same result convention as `move_left`.
    pub fn move_right(&mut self) -> (res: Option<u32>)
        ensures
            final(self)@ == slide_board_r(old(self)@),
            res.is_some() <==> slide_board_r(old(self)@) != old(self)@,
            res matches Some(sc) ==> sc as nat == slide_board_r_score(old(self)@),
    {
        proof {
            lemma_board_ranks_valid(*self);
        }
        let mut score: u32 = 0;
        let mut did_move = false;
        let mut r: u8 = 0;
        while r < 4
            invariant
                r <= 4,
                ranks_valid(old(self)@),
                forall|k: int| 0 <= k < 4 * r as int ==> self@[k] == slide_board_r(old(self)@)[k],
                forall|k: int| 4 * r as int <= k < 16 ==> self@[k] == old(self)@[k],
                score as nat == slide_scores_r_upto(old(self)@, r as int),
                score <= 131072 * r as nat,
                did_move <==> exists|j: int|
                    0 <= j < r as int && rev4(
                        slide_seq(rev4(#[trigger] row_of(old(self)@, j))),
                    ) != row_of(old(self)@, j),
            decreases 4 - r,
        {
            let ghost orow = row_of(old(self)@, r as int);
            proof {
                assert forall|k: int| 0 <= k < orow.len() implies #[trigger] orow[k] <= 15 by {
                    assert(orow[k] == old(self)@[4 * r as int + k]);
                }
                assert(rev4(orow).len() == 4);
                assert forall|k: int| 0 <= k < rev4(orow).len() implies #[trigger] rev4(
                    orow,
                )[k] <= 15 by {
                    assert(rev4(orow)[k] == orow[3 - k]);
                }
                lemma_slide_seq_basic(rev4(orow));
            }
            let oldrow = self.get_row(r);
            proof {
                assert(oldrow@ =~= orow);
            }
            let (sd, newrow) = oldrow.shift_right();
            if newrow.raw != oldrow.raw {
                did_move = true;
            }
            proof {
                if newrow.raw == oldrow.raw {
                    assert(newrow@ == oldrow@);
                }
                if newrow@ == oldrow@ {
                    lemma_row_view_injective(newrow, oldrow);
                }
            }
            self.set_row(r, newrow);
            score = score + sd;
            r = r + 1;
            proof {
                assert forall|k: int| 0 <= k < 4 * r as int implies self@[k] == slide_board_r(
                    old(self)@,
                )[k] by {
                    if k >= 4 * (r - 1) {
                        assert(self@[k] == newrow@[k - 4 * (r - 1)]);
                        assert(slide_board_r(old(self)@)[k] == rev4(
                            slide_seq(rev4(row_of(old(self)@, k / 4))),
                        )[k % 4]);
                        assert(k / 4 == r - 1);
                        assert(k % 4 == k - 4 * (r - 1));
                    }
                }
            }
        }
        proof {
            assert(self@ =~= slide_board_r(old(self)@));
            if did_move {
                let j = choose|j: int|
                    0 <= j < 4 && rev4(slide_seq(rev4(#[trigger] row_of(old(self)@, j)))) != row_of(
                        old(self)@,
                        j,
                    );
                if slide_board_r(old(self)@) == old(self)@ {
                    let sj = row_of(old(self)@, j);
                    assert forall|k: int| 0 <= k < 4 implies rev4(slide_seq(rev4(sj)))[k]
                        == sj[k] by {
                        let i = 4 * j + k;
                        assert(slide_board_r(old(self)@)[i] == old(self)@[i]);
                        assert(i / 4 == j);
                        assert(i % 4 == k);
                        assert(sj[k] == old(self)@[i]);
                    }
                    assert(rev4(slide_seq(rev4(sj))) =~= sj);
                }
            } else {
                assert forall|k: int| 0 <= k < 16 implies slide_board_r(old(self)@)[k] == old(
                    self,
                )@[k] by {
                    let j = k / 4;
                    assert(rev4(slide_seq(rev4(row_of(old(self)@, j)))) == row_of(old(self)@, j));
                    assert(row_of(old(self)@, j)[k % 4] == old(self)@[k]);
                }
                assert(slide_board_r(old(self)@) =~= old(self)@);
            }
        }
        if did_move {
            Some(score)
        } else {
            None
        }
    }

    /// `move_left` through the precomputed table: each row's transform is an
    /// indexed read instead of a re-derived scan.
    pub fn move_left_with(&mut self, cache: &crate::cache::MoveCache) -> (res: Option<u32>)
        requires
            cache.wf(),
        ensures
            final(self)@ == slide_board(old(self)@),
            res.is_some() <==> slide_board(old(self)@) != old(self)@,
            res matches Some(sc) ==> sc as nat == slide_board_score(old(self)@),
    {
        proof {
            lemma_board_ranks_valid(*self);
        }
        let mut score: u32 = 0;
        let mut did_move = false;
        let mut r: u8 = 0;
        while r < 4
            invariant
                r <= 4,
                cache.wf(),
                ranks_valid(old(self)@),
                forall|k: int| 0 <= k < 4 * r as int ==> self@[k] == slide_board(old(self)@)[k],
                forall|k: int| 4 * r as int <= k < 16 ==> self@[k] == old(self)@[k],
                score as nat == slide_scores_upto(old(self)@, r as int),
                score <= 131072 * r as nat,
                did_move <==> exists|j: int|
                    0 <= j < r as int && slide_seq(#[trigger] row_of(old(self)@, j)) != row_of(
                        old(self)@,
                        j,
                    ),
            decreases 4 - r,
        {
            let ghost orow = row_of(old(self)@, r as int);
            proof {
                assert forall|k: int| 0 <= k < orow.len() implies #[trigger] orow[k] <= 15 by {
                    assert(orow[k] == old(self)@[4 * r as int + k]);
                }
                lemma_slide_seq_basic(orow);
            }
            let oldrow = self.get_row(r);
            proof {
                assert(oldrow@ =~= orow);
            }
            let (sd, newrow) = cache.get_left(oldrow);
            if newrow.raw != oldrow.raw {
                did_move = true;
            }
            proof {
                if newrow.raw == oldrow.raw {
                    assert(newrow@ == oldrow@);
                }
                if newrow@ == oldrow@ {
                    lemma_row_view_injective(newrow, oldrow);
                }
            }
            self.set_row(r, newrow);
            score = score + sd;
            r = r + 1;
            proof {
                assert forall|k: int| 0 <= k < 4 * r as int implies self@[k] == slide_board(
                    old(self)@,
                )[k] by {
                    if k >= 4 * (r - 1) {
                        assert(self@[k] == newrow@[k - 4 * (r - 1)]);
                        assert(slide_board(old(self)@)[k] == slide_seq(
                            row_of(old(self)@, k / 4),
                        )[k % 4]);
                        assert(k / 4 == r - 1);
                        assert(k % 4 == k - 4 * (r - 1));
                    }
                }
            }
        }
        proof {
            assert(self@ =~= slide_board(old(self)@));
            if did_move {
                let j = choose|j: int|
                    0 <= j < 4 && slide_seq(#[trigger] row_of(old(self)@, j)) != row_of(
                        old(self)@,
                        j,
                    );
                if slide_board(old(self)@) == old(self)@ {
                    let sj = row_of(old(self)@, j);
                    lemma_slide_seq_basic(sj);
                    assert forall|k: int| 0 <= k < 4 implies slide_seq(sj)[k] == sj[k] by {
                        let i = 4 * j + k;
                        assert(slide_board(old(self)@)[i] == old(self)@[i]);
                        assert(i / 4 == j);
                        assert(i % 4 == k);
                        assert(sj[k] == old(self)@[i]);
                    }
                    assert(slide_seq(sj) =~= sj);
                }
            } else {
                assert forall|k: int| 0 <= k < 16 implies slide_board(old(self)@)[k] == old(
                    self,
                )@[k] by {
                    let j = k / 4;
                    assert(slide_seq(row_of(old(self)@, j)) == row_of(old(self)@, j));
                    assert(row_of(old(self)@, j)[k % 4] == old(self)@[k]);
                }
                assert(slide_board(old(self)@) =~= old(self)@);
            }
        }
        if did_move {
            Some(score)
        } else {
            None
        }
    }

    /// `move_right` through the precomputed table.
    pub fn move_right_with(&mut self, cache: &crate::cache::MoveCache) -> (res: Option<u32>)
        requires
            cache.wf(),
        ensures
            final(self)@ == slide_board_r(old(self)@),
            res.is_some() <==> slide_board_r(old(self)@) != old(self)@,
            res matches Some(sc) ==> sc as nat == slide_board_r_score(old(self)@),
    {
        proof {
            lemma_board_ranks_valid(*self);
        }
        let mut score: u32 = 0;
        let mut did_move = false;
        let mut r: u8 = 0;
        while r < 4
            invariant
                r <= 4,
                cache.wf(),
                ranks_valid(old(self)@),
                forall|k: int| 0 <= k < 4 * r as int ==> self@[k] == slide_board_r(old(self)@)[k],
                forall|k: int| 4 * r as int <= k < 16 ==> self@[k] == old(self)@[k],
                score as nat == slide_scores_r_upto(old(self)@, r as int),
                score <= 131072 * r as nat,
                did_move <==> exists|j: int|
                    0 <= j < r as int && rev4(
                        slide_seq(rev4(#[trigger] row_of(old(self)@, j))),
                    ) != row_of(old(self)@, j),
            decreases 4 - r,
        {
            let ghost orow = row_of(old(self)@, r as int);
            proof {
                assert forall|k: int| 0 <= k < orow.len() implies #[trigger] orow[k] <= 15 by {
                    assert(orow[k] == old(self)@[4 * r as int + k]);
                }
                assert(rev4(orow).len() == 4);
                assert forall|k: int| 0 <= k < rev4(orow).len() implies #[trigger] rev4(
                    orow,
                )[k] <= 15 by {
                    assert(rev4(orow)[k] == orow[3 - k]);
                }
                lemma_slide_seq_basic(rev4(orow));
            }
            let oldrow = self.get_row(r);
            proof {
                assert(oldrow@ =~= orow);
            }
            let (sd, newrow) = cache.get_right(oldrow);
            if newrow.raw != oldrow.raw {
                did_move = true;
            }
            proof {
                if newrow.raw == oldrow.raw {
                    assert(newrow@ == oldrow@);
                }
                if newrow@ == oldrow@ {
                    lemma_row_view_injective(newrow, oldrow);
                }
            }
            self.set_row(r, newrow);
            score = score + sd;
            r = r + 1;
            proof {
                assert forall|k: int| 0 <= k < 4 * r as int implies self@[k] == slide_board_r(
                    old(self)@,
                )[k] by {
                    if k >= 4 * (r - 1) {
                        assert(self@[k] == newrow@[k - 4 * (r - 1)]);
                        assert(slide_board_r(old(self)@)[k] == rev4(
                            slide_seq(rev4(row_of(old(self)@, k / 4))),
                        )[k % 4]);
                        assert(k / 4 == r - 1);
                        assert(k % 4 == k - 4 * (r - 1));
                    }
                }
            }
        }
        proof {
            assert(self@ =~= slide_board_r(old(self)@));
            if did_move {
                let j = choose|j: int|
                    0 <= j < 4 && rev4(slide_seq(rev4(#[trigger] row_of(old(self)@, j)))) != row_of(
                        old(self)@,
                        j,
                    );
                if slide_board_r(old(self)@) == old(self)@ {
                    let sj = row_of(old(self)@, j);
                    assert forall|k: int| 0 <= k < 4 implies rev4(slide_seq(rev4(sj)))[k]
                        == sj[k] by {
                        let i = 4 * j + k;
                        assert(slide_board_r(old(self)@)[i] == old(self)@[i]);
                        assert(i / 4 == j);
                        assert(i % 4 == k);
                        assert(sj[k] == old(self)@[i]);
                    }
                    assert(rev4(slide_seq(rev4(sj))) =~= sj);
                }
            } else {
                assert forall|k: int| 0 <= k < 16 implies slide_board_r(old(self)@)[k] == old(
                    self,
                )@[k] by {
                    let j = k / 4;
                    assert(rev4(slide_seq(rev4(row_of(old(self)@, j)))) == row_of(old(self)@, j));
                    assert(row_of(old(self)@, j)[k % 4] == old(self)@[k]);
                }
                assert(slide_board_r(old(self)@) =~= old(self)@);
            }
        }
        if did_move {
            Some(score)
        } else {
            None
        }
    }

    /// `make_move` through the precomputed table; the result and the new
    /// board are exactly those of `make_move`.
    pub fn make_move_with(&mut self, cache: &crate::cache::MoveCache, m: Move) -> (res: Option<
        u32,
    >)
        requires
            cache.wf(),
        ensures
            final(self)@ == board_move(m, old(self)@),
            res.is_some() <==> board_move(m, old(self)@) != old(self)@,
            res matches Some(sc) ==> sc as nat == board_move_score(m, old(self)@),
            res.is_none() ==> *final(self) == *old(self),
    {
        let res = match m {
            Move::Left => self.move_left_with(cache),
            Move::Right => self.move_right_with(cache),
            Move::Up => {
                self.counterclockwise();
                let res = self.move_left_with(cache);
                self.clockwise();
                proof {
                    lemma_rotation_group(old(self)@);
                    let x = slide_board(ccw_seq(old(self)@));
                    lemma_rotation_group(x);
                    assert(ccw_seq(cw_seq(x)) == x);
                    if cw_seq(x) == old(self)@ {
                        assert(ccw_seq(cw_seq(x)) == ccw_seq(old(self)@));
                    }
                }
                res
            },
            Move::Down => {
                self.clockwise();
                let res = self.move_left_with(cache);
                self.counterclockwise();
                proof {
                    lemma_rotation_group(old(self)@);
                    let x = slide_board(cw_seq(old(self)@));
                    lemma_rotation_group(x);
                    assert(cw_seq(ccw_seq(x)) == x);
                    if ccw_seq(x) == old(self)@ {
                        assert(cw_seq(ccw_seq(x)) == cw_seq(old(self)@));
                    }
                }
                res
            },
        };
        proof {
            if res.is_none() {
                lemma_board_view_injective(*self, *old(self));
            }
        }
        res
    }

    /// Slide every column upward: rotate counter-clockwise, slide leftward,
    /// rotate back.
    pub fn move_up(&mut self) -> (res: Option<u32>)
        ensures
            final(self)@ == board_move(Move::Up, old(self)@),
            res.is_some() <==> board_move(Move::Up, old(self)@) != old(self)@,
            res matches Some(sc) ==> sc as nat == board_move_score(Move::Up, old(self)@),
    {
        self.counterclockwise();
        let res = self.move_left();
        self.clockwise();
        proof {
            lemma_rotation_group(old(self)@);
            let x = slide_board(ccw_seq(old(self)@));
            lemma_rotation_group(x);
            assert(ccw_seq(cw_seq(x)) == x);
            if cw_seq(x) == old(self)@ {
                assert(ccw_seq(cw_seq(x)) == ccw_seq(old(self)@));
            }
        }
        res
    }

    /// Slide every column downward: rotate clockwise, slide leftward,
    /// rotate back.
    pub fn move_down(&mut self) -> (res: Option<u32>)
        ensures
            final(self)@ == board_move(Move::Down, old(self)@),
            res.is_some() <==> board_move(Move::Down, old(self)@) != old(self)@,
            res matches Some(sc) ==> sc as nat == board_move_score(Move::Down, old(self)@),
    {
        self.clockwise();
        let res = self.move_left();
        self.counterclockwise();
        proof {
            lemma_rotation_group(old(self)@);
            let x = slide_board(cw_seq(old(self)@));
            lemma_rotation_group(x);
            assert(cw_seq(ccw_seq(x)) == x);
            if ccw_seq(x) == old(self)@ {
                assert(cw_seq(ccw_seq(x)) == cw_seq(old(self)@));
            }
        }
        res
    }

    /// Apply the given move. Returns the merge score earned if the move
    /// changed the board, and no move otherwise; an unchanged board is the
    /// sole legality signal.
    pub fn make_move(&mut self, m: Move) -> (res: Option<u32>)
        ensures
            final(self)@ == board_move(m, old(self)@),
            res.is_some() <==> board_move(m, old(self)@) != old(self)@,
            res matches Some(sc) ==> sc as nat == board_move_score(m, old(self)@),
            res.is_none() ==> *final(self) == *old(self),
    {
        let res = match m {
            Move::Up => self.move_up(),
            Move::Down => self.move_down(),
            Move::Left => self.move_left(),
            Move::Right => self.move_right(),
        };
        proof {
            if res.is_none() {
                lemma_board_view_injective(*self, *old(self));
            }
        }
        res
    }

    /// The sum of all sixteen tile values, a rank `r` cell counting 2^r, so
    /// each empty cell contributes 1 and an empty board sums to 16.
    pub fn sum_tile(&self) -> (r: u32)
        ensures
            r as nat == crate::row::rank_values(self@),
            r >= 16,
    {
        proof {
            lemma_board_ranks_valid(*self);
            assert(self@.take(0) =~= Seq::<u8>::empty());
        }
        let mut sum: u32 = 0;
        let mut i: u8 = 0;
        while i < 16
            invariant
                i <= 16,
                ranks_valid(self@),
                sum as nat == crate::row::rank_values(self@.take(i as int)),
                sum <= 32768 * i as nat,
                sum >= i,
            decreases 16 - i,
        {
            let rank = self.at(i);
            proof {
                lemma2_to64();
                if (rank as nat) < 15 {
                    lemma_pow2_strictly_increases(rank as nat, 15);
                }
                vstd::bits::lemma_u32_shl_is_mul(1u32, rank as u32);
                assert(self@.take(i as int + 1).drop_last() =~= self@.take(i as int));
                assert(self@.take(i as int + 1).last() == self@[i as int]);
                vstd::arithmetic::power2::lemma_pow2_pos(rank as nat);
            }
            sum = sum + (1u32 << (rank as u32));
            i = i + 1;
        }
        proof {
            assert(self@.take(16) =~= self@);
        }
        sum
    }

    /// The largest rank on the board.
    pub fn log_max_tile(&self) -> (r: u8)
        ensures
            r == max_rank(self@),
            r < 16,
    {
        proof {
            lemma_board_ranks_valid(*self);
            assert(self@.take(0) =~= Seq::<u8>::empty());
        }
        let mut mx: u8 = 0;
        let mut i: u8 = 0;
        while i < 16
            invariant
                i <= 16,
                ranks_valid(self@),
                mx == max_rank(self@.take(i as int)),
                mx < 16,
            decreases 16 - i,
        {
            let rank = self.at(i);
            proof {
                assert(self@.take(i as int + 1).drop_last() =~= self@.take(i as int));
                assert(self@.take(i as int + 1).last() == self@[i as int]);
            }
            if rank > mx {
                mx = rank;
            }
            i = i + 1;
        }
        proof {
            assert(self@.take(16) =~= self@);
        }
        mx
    }

    /// The value of the largest tile on the board (1 on an empty board,
    /// by the convention that rank 0 is worth 2^0).
    pub fn max_tile(&self) -> (r: u32)
        ensures
            r as nat == pow2(max_rank(self@) as nat),
    {
        let mx = self.log_max_tile();
        proof {
            lemma2_to64();
            if (mx as nat) < 15 {
                lemma_pow2_strictly_increases(mx as nat, 15);
            }
            vstd::bits::lemma_u32_shl_is_mul(1u32, mx as u32);
        }
        1u32 << (mx as u32)
    }

    /// How many cells are empty.
    pub fn num_empty(&self) -> (r: u32)
        ensures
            r as nat == crate::row::zero_count(self@),
            r <= 16,
    {
        proof {
            assert(self@.take(0) =~= Seq::<u8>::empty());
        }
        let mut count: u32 = 0;
        let mut i: u8 = 0;
        while i < 16
            invariant
                i <= 16,
                count as nat == crate::row::zero_count(self@.take(i as int)),
                count <= i,
            decreases 16 - i,
        {
            proof {
                assert(self@.take(i as int + 1).drop_last() =~= self@.take(i as int));
                assert(self@.take(i as int + 1).last() == self@[i as int]);
            }
            if self.at(i) == 0 {
                count = count + 1;
            }
            i = i + 1;
        }
        proof {
            assert(self@.take(16) =~= self@);
        }
        count
    }

    /// Whether some cell holds rank `v`.
    pub fn has_tile(&self, v: u8) -> (r: bool)
        requires
            v < 16,
        ensures
            r == has_rank(self@, v),
    {
        let mut i: u8 = 0;
        let mut found = false;
        while i < 16
            invariant
                i <= 16,
                found <==> exists|k: int| 0 <= k < i as int && self@[k] == v,
            decreases 16 - i,
        {
            if self.at(i) == v {
                found = true;
            }
            i = i + 1;
        }
        found
    }

    /// How many distinct nonzero ranks occur on the board.
    pub fn distinct_tiles(&self) -> (r: u32)
        ensures
            r as nat == distinct_ranks(self@),
            r <= 15,
    {
        let mut count: u32 = 0;
        let mut v: u8 = 1;
        while v < 16
            invariant
                1 <= v <= 16,
                count as nat == distinct_upto(self@, v as int),
                count < v,
            decreases 16 - v,
        {
            if self.has_tile(v) {
                count = count + 1;
            }
            v = v + 1;
        }
        count
    }

    /// The depth limit used when none is configured: boards with more
    /// distinct ranks get deeper search, with a floor of 3.
    pub fn default_depth_limit(&self) -> (d: u32)
        ensures
            d as int == if distinct_ranks(self@) >= 5 {
                distinct_ranks(self@) - 2
            } else {
                3int
            },
    {
        let dt = self.distinct_tiles();
        if dt >= 5 {
            dt - 2
        } else {
            3
        }
    }

    /// Build a board from a length-16 array of ranks (row-major), for
    /// embedding contexts that hand the engine a plain integer array.
    pub fn from_arr(arr: &[i32]) -> (b: Board)
        requires
            arr@.len() == 16,
            forall|i: int| 0 <= i < 16 ==> 0 <= #[trigger] arr@[i] < 16,
        ensures
            b@.len() == 16,
            forall|i: int| 0 <= i < 16 ==> #[trigger] b@[i] as int == arr@[i],
    {
        let mut b = Board::new();
        let mut i: u8 = 0;
        while i < 16
            invariant
                i <= 16,
                arr@.len() == 16,
                forall|k: int| 0 <= k < 16 ==> 0 <= #[trigger] arr@[k] < 16,
                forall|k: int| 0 <= k < i as int ==> #[trigger] b@[k] as int == arr@[k],
                forall|k: int| i as int <= k < 16 ==> #[trigger] b@[k] == 0,
            decreases 16 - i,
        {
            let v = arr[i as usize];
            let rank = v as u8;
            proof {
                assert(rank & 0x0f == rank) by (bit_vector)
                    requires
                        rank < 16,
                ;
            }
            b.set(i, rank);
            i = i + 1;
        }
        b
    }

    /// The board's sixteen ranks as a plain integer array (row-major).
    pub fn to_arr(&self) -> (r: Vec<i32>)
        ensures
            r@.len() == 16,
            forall|i: int| 0 <= i < 16 ==> #[trigger] r@[i] == self@[i] as i32,
    {
        let mut out: Vec<i32> = Vec::new();
        let mut i: u8 = 0;
        while i < 16
            invariant
                i <= 16,
                out@.len() == i as int,
                forall|k: int| 0 <= k < i as int ==> #[trigger] out@[k] == self@[k] as i32,
            decreases 16 - i,
        {
            out.push(self.at(i) as i32);
            i = i + 1;
        }
        out
    }

    /// Apply the given move and, if it changed the board, record the move,
    /// the board reached (before any tile spawn), and the score earned.
    pub fn make_move_and_record(&mut self, m: Move) -> (res: Option<MoveRecord>)
        ensures
            final(self)@ == board_move(m, old(self)@),
            res.is_some() <==> board_move(m, old(self)@) != old(self)@,
            res matches Some(rec) ==> rec.m == m && rec.board_after == *final(self)
                && rec.score as nat == board_move_score(m, old(self)@),
    {
        match self.make_move(m) {
            Some(score) => Some(
                MoveRecord { m, board_after: *self, score },
            ),
            None => None,
        }
    }

    /// Place a random tile on a uniformly chosen empty cell: rank 1 with
    /// probability 9/10 and rank 2 with probability 1/10. A full board is
    /// left unchanged. Whatever the generator returns, the new board is the
    /// old one with a single empty cell set to rank 1 or 2.
    pub fn add_random_tile(&mut self, rng: &mut fastrand::Rng)
        ensures
            crate::row::zero_count(old(self)@) == 0 ==> final(self)@ == old(self)@,
            crate::row::zero_count(old(self)@) > 0 ==> exists|i: int|
                0 <= i < 16 && old(self)@[i] == 0 && (final(self)@ == old(self)@.update(i, 1u8)
                    || final(self)@ == old(self)@.update(i, 2u8)),
    {
        proof {
            assert(self@.take(0) =~= Seq::<u8>::empty());
        }
        let mut empty_spaces: Vec<u8> = Vec::new();
        let mut i: u8 = 0;
        while i < 16
            invariant
                i <= 16,
                self.raw == old(self).raw,
                forall|k: int|
                    0 <= k < empty_spaces@.len() ==> 0 <= #[trigger] empty_spaces@[k] < 16
                        && self@[empty_spaces@[k] as int] == 0,
                crate::row::zero_count(self@.take(i as int)) == empty_spaces@.len(),
            decreases 16 - i,
        {
            proof {
                assert(self@.take(i as int + 1).drop_last() =~= self@.take(i as int));
                assert(self@.take(i as int + 1).last() == self@[i as int]);
            }
            if self.at(i) == 0 {
                empty_spaces.push(i);
            }
            i = i + 1;
        }
        proof {
            assert(self@.take(16) =~= self@);
        }
        if empty_spaces.len() > 0 {
            let pick = empty_spaces[crate::rng::rng_usize_below(rng, empty_spaces.len())];
            let val: u8 = if crate::rng::rng_u8_below(rng, 10) != 0 {
                1
            } else {
                2
            };
            let ghost cell = pick as int;
            self.set(pick, val);
            proof {
                assert(val & 0x0f == val) by (bit_vector)
                    requires
                        val == 1 || val == 2,
                ;
                assert(old(self)@[cell] == 0);
                assert(final(self)@ == old(self)@.update(cell, val));
            }
        }
    }

    /// The game is over exactly when none of the four moves changes the board.
    pub fn game_ended(&self) -> (r: bool)
        ensures
            r == is_terminal(self@),
    {
        let mut b0: Board = *self;
        let r0 = b0.make_move(Move::Up);
        let mut b1: Board = *self;
        let r1 = b1.make_move(Move::Down);
        let mut b2: Board = *self;
        let r2 = b2.make_move(Move::Left);
        let mut b3: Board = *self;
        let r3 = b3.make_move(Move::Right);
        r0.is_none() && r1.is_none() && r2.is_none() && r3.is_none()
    }

    /// Column `i` of the board as a packed row: entry `k` is the cell in
    /// row `k`, column `i`.
    pub fn _get_col(&self, i: u8) -> (r: Row)
        requires
            i < 4,
        ensures
            forall|k: int| 0 <= k < 4 ==> #[trigger] r@[k] == self@[4 * k + i as int],
    {
        let selector: u64 = 0x000f000f000f000fu64 << ((i as u64) * 4);
        let raw = self.raw;
        let selected_raw = raw & selector;
        let shifted_raw = selected_raw >> ((i as u64) * 4);
        let col = (shifted_raw & 0xf) | ((shifted_raw & 0x000f0000) >> 12u64) | ((shifted_raw
            & 0x000f00000000) >> 24u64) | ((shifted_raw & 0x000f000000000000) >> 36u64);
        let r = Row::from_raw(col as u16);
        proof {
            assert((i as u64) * 4 == (4 * (i as u64)) as u64);
            assert forall|k: int| 0 <= k < 4 implies #[trigger] r@[k] == self@[4 * k
                + i as int] by {
                bv_get_col(raw, shifted_raw, col, i as u64, k as u16);
                bv_board_field_bound(raw, (4 * k + i) as u64);
            }
        }
        r
    }

    /// Replace column `i` of the board with the four ranks of `val`.
    pub fn _set_col(&mut self, i: u8, val: Row)
        requires
            i < 4,
        ensures
            forall|k: int|
                0 <= k < 16 ==> final(self)@[k] == if k % 4 == i as int {
                    val@[k / 4]
                } else {
                    old(self)@[k]
                },
    {
        let raw = self.raw;
        let v = val.raw;
        let selector: u64 = 0x000f000f000f000fu64 << ((i as u64) * 4);
        let deletor = !selector;
        let masked_raw = raw & deletor;
        let v1 = ((v & 0xf000) >> 12u16) as u64;
        let v2 = ((v & 0x0f00) >> 8u16) as u64;
        let v3 = ((v & 0x00f0) >> 4u16) as u64;
        let v4 = (v & 0x000f) as u64;
        let val_placed = (v1 << 48u64) | (v2 << 32u64) | (v3 << 16u64) | v4;
        let final_raw = masked_raw | (val_placed << ((i as u64) * 4));
        proof {
            assert((i as u64) * 4 == (4 * (i as u64)) as u64);
            assert forall|k: int| 0 <= k < 16 implies nib(final_raw, k) == (if k % 4 == i as int {
                rank_of(v, k / 4)
            } else {
                nib(raw, k)
            }) by {
                bv_set_col(raw, val_placed, final_raw, v, i as u64, k as u64);
                if k % 4 == i as int {
                    assert((k as u64) % 4 == i as u64);
                    assert(((k as u64) / 4) as u16 == (k / 4) as u16);
                } else {
                    assert((k as u64) % 4 != i as u64);
                }
            }
        }
        self.raw = final_raw;
    }

    /// Mirror the board across its main diagonal by masked bit shuffles.
    pub fn transpose(&mut self)
        ensures
            final(self)@ == transpose_seq(old(self)@),
    {
        let w = self.raw;
        let step1 = (w & 0xf0f00f0ff0f00f0f) | ((w & 0x0000f0f00000f0f0) << 12u64) | ((w
            & 0x0f0f00000f0f0000) >> 12u64);
        let step2 = (step1 & 0xff00ff0000ff00ff) | ((step1 & 0x00000000ff00ff00) << 24u64) | ((
        step1 & 0x00ff00ff00000000) >> 24u64);
        self.raw = step2;
        proof {
            bv_transpose(w, step1, step2);
            assert(self@ =~= transpose_seq(old(self)@));
        }
    }

    /// Reverse each row of the board.
    pub fn flip_horizontal(&mut self)
        ensures
            final(self)@ == flip_h_seq(old(self)@),
    {
        let w = self.raw;
        self.raw = ((w & 0x000f000f000f000f) << 12u64) | ((w & 0x00f000f000f000f0) << 4u64) | ((w
            & 0x0f000f000f000f00) >> 4u64) | ((w & 0xf000f000f000f000) >> 12u64);
        proof {
            bv_flip_h(w, self.raw);
            assert(self@ =~= flip_h_seq(old(self)@));
        }
    }

    /// Reverse the order of the board's rows.
    pub fn flip_vertical(&mut self)
        ensures
            final(self)@ == flip_v_seq(old(self)@),
    {
        let w = self.raw;
        self.raw = ((w & 0x000000000000ffff) << 48u64) | ((w & 0x00000000ffff0000) << 16u64) | ((w
            & 0x0000ffff00000000) >> 16u64) | ((w & 0xffff000000000000) >> 48u64);
        proof {
            bv_flip_v(w, self.raw);
            assert(self@ =~= flip_v_seq(old(self)@));
        }
    }

    /// Rotate the board a quarter turn clockwise.
    pub fn clockwise(&mut self)
        ensures
            final(self)@ == cw_seq(old(self)@),
    {
        self.transpose();
        self.flip_horizontal();
    }

    /// Rotate the board a quarter turn counter-clockwise.
    pub fn counterclockwise(&mut self)
        ensures
            final(self)@ == ccw_seq(old(self)@),
    {
        self.transpose();
        self.flip_vertical();
    }

    /// Rotate the board `n % 4` quarter turns clockwise.
    pub fn rotate(&mut self, n: u32)
        ensures
            final(self)@ == rot_cw_n(old(self)@, (n % 4) as nat),
    {
        let turns = n % 4;
        let mut i: u32 = 0;
        while i < turns
            invariant
                i <= turns,
                turns < 4,
                self@ == rot_cw_n(old(self)@, i as nat),
            decreases turns - i,
        {
            self.clockwise();
            i = i + 1;
        }
    }

    /// Replace row `i` of the board with `row`.
    pub fn set_row(&mut self, i: u8, row: Row)
        requires
            i < 4,
        ensures
            final(self)@ == old(self)@.subrange(0, 4 * i as int) + row@ + old(self)@.subrange(
                4 * i as int + 4,
                16,
            ),
            forall|k: int|
                0 <= k < 16 ==> final(self)@[k] == if 4 * i as int <= k < 4 * i as int + 4 {
                    row@[k - 4 * i as int]
                } else {
                    old(self)@[k]
                },
    {
        let shift: u64 = i as u64 * 16;
        let mod_raw = (self.raw & !(0xffffu64 << shift)) | ((row.raw as u64) << shift);
        proof {
            let w = self.raw;
            assert(shift == (16 * (i as u64)) as u64);
            assert forall|k: int| 0 <= k < 16 implies nib(mod_raw, k) == (if 4 * i as int <= k < 4
                * i as int + 4 {
                rank_of(row.raw, k - 4 * i as int)
            } else {
                nib(w, k)
            }) by {
                bv_board_set_row(w, mod_raw, row.raw, i as u64, k as u64);
                if 4 * i as int <= k < 4 * i as int + 4 {
                    assert(k as u64 / 4 == i as u64);
                    assert((k % 4) as u16 == (k - 4 * i as int) as u16);
                    assert((k as u64) % 4 == (k % 4) as u64);
                } else {
                    assert(k as u64 / 4 != i as u64);
                }
            }
        }
        self.raw = mod_raw;
        proof {
            assert(self@ =~= old(self)@.subrange(0, 4 * i as int) + row@ + old(self)@.subrange(
                4 * i as int + 4,
                16,
            ));
        }
    }
}

} // verus!
