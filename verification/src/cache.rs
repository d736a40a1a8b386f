use vstd::prelude::*;

verus! {

use crate::row::Row;
use crate::row::packed_ranks;
use crate::row::rev4;
use crate::row::slide_seq;
use crate::row::slide_score;

/// One entry of the move table: the row a leftward slide produces and the
/// score the slide earns.
#[derive(Clone, Copy)]
pub struct MoveCacheElem {
    pub after: Row,
    pub score: u32,
}

/// A dense table over all 65,536 row patterns, built once, holding each
/// pattern's leftward slide result so that a board move is an indexed read
/// instead of a re-derived scan.
pub struct MoveCache {
    left_cache: Vec<MoveCacheElem>,
}

impl MoveCache {
    /// The table is total, and entry `r` holds the slide of the pattern `r`.
    pub closed spec fn wf(&self) -> bool {
        &&& self.left_cache@.len() == 0x10000
        &&& forall|r: int|
            0 <= r < 0x10000 ==> (#[trigger] self.left_cache@[r]).after@ == slide_seq(
                packed_ranks(r as u16),
            ) && self.left_cache@[r].score as nat == slide_score(packed_ranks(r as u16))
    }

    /// Build the table by sliding every possible row pattern once.
    pub fn new() -> (c: Self)
        ensures
            c.wf(),
    {
        let mut left_cache: Vec<MoveCacheElem> = Vec::new();
        let mut i: u32 = 0;
        while i < 0x10000
            invariant
                i <= 0x10000,
                left_cache@.len() == i as int,
                forall|r: int|
                    0 <= r < i as int ==> (#[trigger] left_cache@[r]).after@ == slide_seq(
                        packed_ranks(r as u16),
                    ) && left_cache@[r].score as nat == slide_score(packed_ranks(r as u16)),
            decreases 0x10000 - i,
        {
            let row = Row::from_raw(i as u16);
            let (score, after) = row.shift_left();
            left_cache.push(MoveCacheElem { after, score });
            i = i + 1;
        }
        Self { left_cache }
    }

    /// The leftward slide of `row`, read from the table.
    pub fn get_left(&self, row: Row) -> (res: (u32, Row))
        requires
            self.wf(),
        ensures
            res.1@ == slide_seq(row@),
            res.0 as nat == slide_score(row@),
    {
        let e = self.left_cache[row.raw as usize];
        (e.score, e.after)
    }

    /// The rightward slide of `row`: the table is consulted for the reversed
    /// pattern and the result reversed back.
    pub fn get_right(&self, row: Row) -> (res: (u32, Row))
        requires
            self.wf(),
        ensures
            res.1@ == rev4(slide_seq(rev4(row@))),
            res.0 as nat == slide_score(rev4(row@)),
    {
        let rev = row.reverse();
        let e = self.left_cache[rev.raw as usize];
        (e.score, e.after.reverse())
    }
}

} // verus!
