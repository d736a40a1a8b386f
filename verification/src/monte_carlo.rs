use vstd::prelude::*;

verus! {

use crate::board::Board;
use crate::board::Move;
use crate::board::board_move;
use crate::board::is_terminal;
use crate::board::lemma_move_conservation;
use crate::board::lemma_board_move_score_bound;
use crate::board::lemma_board_ranks_valid;
use crate::row::rank_values;
use crate::row::zero_count;
use crate::row::lemma_rank_values_bound;
use crate::row::lemma_counts_update;
use vstd::arithmetic::power2::lemma2_to64;

/// Which number a random playout reports: the final sum of tile values, the
/// final largest tile, the merge score earned, or the number of moves made.
#[derive(Clone)]
pub enum MonteCarloMetric {
    Sum,
    MaxTile,
    Score,
    Moves,
}

/// A player that scores each candidate move by running many random playouts
/// from the board it produces.
#[derive(Clone)]
pub struct MonteCarloPlayer {
    niter: u32,
    metric: MonteCarloMetric,
}

impl MonteCarloPlayer {
    pub fn new(niter: u32, metric: MonteCarloMetric) -> Self {
        Self { niter, metric }
    }

    pub fn default() -> Self {
        Self { niter: 200, metric: MonteCarloMetric::Sum }
    }

    /// Pick the move whose playouts score best, or no move when every
    /// candidate scores zero. A move is only ever returned if it changes
    /// the board, and a finished game yields no move.
    pub fn next_move(&self, b: &Board) -> (res: Option<Move>)
        ensures
            res matches Some(m) ==> board_move(m, b@) != b@,
            is_terminal(b@) ==> res.is_none(),
    {
        let moves = Move::all();
        let mut best: Option<Move> = None;
        let mut best_score: u32 = 0;
        let mut i: usize = 0;
        while i < 4
            invariant
                i <= 4,
                moves@ == seq![Move::Up, Move::Down, Move::Left, Move::Right],
                best_score > 0 ==> (best matches Some(m) && board_move(m, b@) != b@),
                best_score == 0 ==> best is None,
                is_terminal(b@) ==> best_score == 0,
            decreases 4 - i,
        {
            let m = moves[i];
            let s = self.explore_move(b, m);
            proof {
                if is_terminal(b@) {
                    assert(board_move(m, b@) == b@);
                }
            }
            if s > 0 && s >= best_score {
                best = Some(m);
                best_score = s;
            }
            i = i + 1;
        }
        if best_score == 0 {
            None
        } else {
            best
        }
    }

    /// The playout score of one candidate move: zero when the move does not
    /// change the board; otherwise the move's own merge score plus the sum
    /// of `niter` random playouts from the resulting position, saturated to
    /// a 32-bit count.
    pub fn explore_move(&self, b: &Board, m: Move) -> (r: u32)
        ensures
            board_move(m, b@) == b@ ==> r == 0,
    {
        let mut bc: Board = *b;
        let score0 = match bc.make_move(m) {
            Some(s) => s,
            None => {
                return 0;
            },
        };
        let mut rng = crate::rng::rng_new();
        bc.add_random_tile(&mut rng);
        let mut total: u64 = score0 as u64;
        let mut i: u32 = 0;
        while i < self.niter
            invariant
                total <= 0xffff_ffff + (i as u64) * 0xffff_ffff,
                i <= self.niter,
            decreases self.niter - i,
        {
            let run = self.random_run(&bc);
            total = total + (run as u64);
            i = i + 1;
        }
        if total > 0xffff_ffff {
            u32::MAX
        } else {
            total as u32
        }
    }

    /// One random playout: make uniformly random moves, spawning a tile
    /// after each one that changes the board, until four random probes in a
    /// row fail (an approximation of the game being over); then report the
    /// chosen metric. Every move that changes the board raises the sum of
    /// tile values, which is bounded, so the playout terminates.
    pub fn random_run(&self, b: &Board) -> u32 {
        let mut bc: Board = *b;
        let mut nmoves: u32 = 0;
        let mut score: u64 = 0;
        let mut fails: u8 = 0;
        let mut rng = crate::rng::rng_new();
        proof {
            lemma_board_ranks_valid(bc);
            lemma_rank_values_bound(bc@);
        }
        while fails < 4
            invariant
                fails <= 4,
                nmoves + 16 <= rank_values(bc@),
                rank_values(bc@) <= 524288,
                score <= 524288 * (nmoves as u64),
            decreases 524288 - rank_values(bc@), 4 - fails,
        {
            let mv = Move::rand(&mut rng);
            let ghost pre = bc@;
            proof {
                lemma_board_ranks_valid(bc);
                lemma_move_conservation(mv, pre);
                lemma_board_move_score_bound(mv, pre);
            }
            match bc.make_move(mv) {
                Some(delta) => {
                    let ghost moved = bc@;
                    score = score + (delta as u64);
                    nmoves = nmoves + 1;
                    bc.add_random_tile(&mut rng);
                    fails = 0;
                    proof {
                        lemma2_to64();
                        assert(zero_count(moved) >= 1);
                        let i = choose|i: int|
                            0 <= i < 16 && moved[i] == 0 && (bc@ == moved.update(i, 1u8) || bc@
                                == moved.update(i, 2u8));
                        if bc@ == moved.update(i, 1u8) {
                            lemma_counts_update(moved, i, 1u8);
                        } else {
                            lemma_counts_update(moved, i, 2u8);
                        }
                        assert(rank_values(bc@) > rank_values(pre));
                        lemma_board_ranks_valid(bc);
                        lemma_rank_values_bound(bc@);
                    }
                },
                None => {
                    fails = fails + 1;
                },
            }
        }
        match self.metric {
            MonteCarloMetric::Sum => bc.sum_tile(),
            MonteCarloMetric::MaxTile => bc.max_tile(),
            MonteCarloMetric::Score => {
                if score > 0xffff_ffff {
                    u32::MAX
                } else {
                    score as u32
                }
            },
            MonteCarloMetric::Moves => nmoves,
        }
    }
}

} // verus!
