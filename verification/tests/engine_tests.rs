use engine2048::{Board, MonteCarloMetric, MonteCarloPlayer, Move, MoveCache, Row};

// A full board with no equal neighbours in any row or column: no move can
// change it.
const STUCK_RAW: u64 = 0x1234432112344321;

#[test]
fn left_merges_distant_pair() {
    // Ranks [2, 0, 0, 2] slide left to [3, 0, 0, 0] and earn 2^3 = 8 points.
    let row = Row::from_raw(0x2002);
    let (score, after) = row.shift_left();
    assert_eq!(after.raw, 0x0003);
    assert_eq!(score, 8);

    let mut b = Board::new();
    b.set_row(0, row);
    let res = b.make_move(Move::Left);
    assert_eq!(res, Some(8));
    assert_eq!(b.get_row(0).raw, 0x0003);
}

#[test]
fn right_is_mirror_of_left() {
    let row = Row::from_raw(0x2002);
    let (score, after) = row.shift_right();
    assert_eq!(after.raw, 0x3000);
    assert_eq!(score, 8);

    // The mirror identity on a concrete pattern: reversing, sliding left,
    // and reversing back gives exactly the rightward slide.
    let row = Row::from_raw(0x1023);
    let (ls, lres) = row.reverse().shift_left();
    let (rs, rres) = row.shift_right();
    assert_eq!(rs, ls);
    assert_eq!(rres.raw, lres.reverse().raw);
}

#[test]
fn reverse_twice_is_identity() {
    for raw in [0x0000u16, 0x1234, 0xffff, 0x2002, 0x0301] {
        let row = Row::from_raw(raw);
        assert_eq!(row.reverse().reverse().raw, raw);
    }
}

#[test]
fn rotate_four_times_is_identity() {
    let raw = 0x4312752186532731;
    let mut b = Board::from_raw(raw);
    for _ in 0..4 {
        b.clockwise();
    }
    assert_eq!(b.raw, raw);

    let mut b = Board::from_raw(raw);
    b.clockwise();
    b.counterclockwise();
    assert_eq!(b.raw, raw);

    let mut b = Board::from_raw(raw);
    b.rotate(4);
    assert_eq!(b.raw, raw);
    b.rotate(1);
    let mut c = Board::from_raw(raw);
    c.clockwise();
    assert_eq!(b.raw, c.raw);
}

#[test]
fn noop_move_returns_absence() {
    let mut b = Board::from_raw(STUCK_RAW);
    for i in 0..4 {
        let res = b.make_move(Move::from_int(i));
        assert!(res.is_none());
        assert_eq!(b.raw, STUCK_RAW);
    }
    assert!(b.game_ended());
}

#[test]
fn empty_board_is_terminal() {
    let b = Board::new();
    assert!(b.game_ended());
    let mut c = Board::new();
    c.set(5, 1);
    assert!(!c.game_ended());
}

#[test]
fn moves_conserve_value_sum() {
    // A move that changes the board never lowers the sum of tile values and
    // never raises the number of occupied cells.
    let samples = [0x1000011111000101u64, 0x0000000000002002, 0x1234000012340000];
    for raw in samples {
        for i in 0..4 {
            let mut b = Board::from_raw(raw);
            let before_sum = b.sum_tile();
            let before_filled = 16 - b.num_empty();
            if b.make_move(Move::from_int(i)).is_some() {
                assert!(b.sum_tile() >= before_sum);
                assert!(16 - b.num_empty() <= before_filled);
            }
        }
    }
}

#[test]
fn spawn_distribution_is_ninety_ten() {
    // One empty cell, many spawns: the rank-2 tile must appear close to 10%
    // of the time.
    let mut base = Board::from_raw(!0u64); // every cell rank 15
    base.set(7, 0);
    let mut rng = fastrand::Rng::with_seed(0x5eed_cafe);
    let iterations = 20000;
    let mut twos = 0;
    for _ in 0..iterations {
        let mut b = base;
        b.add_random_tile(&mut rng);
        match b.at(7) {
            1 => {}
            2 => twos += 1,
            other => panic!("spawned rank {other}"),
        }
    }
    let share = twos as f64 / iterations as f64;
    assert!(share > 0.08 && share < 0.12, "rank-2 share was {share}");
}

#[test]
fn full_board_spawn_is_noop() {
    let mut b = Board::from_raw(STUCK_RAW);
    let mut rng = fastrand::Rng::with_seed(1);
    b.add_random_tile(&mut rng);
    assert_eq!(b.raw, STUCK_RAW);
}

#[test]
fn move_cache_matches_direct_transform() {
    let cache = MoveCache::new();
    for raw in [0x0011u16, 0x2002, 0x1234, 0x0000, 0xffff] {
        let row = Row::from_raw(raw);
        let (ds, dr) = row.shift_left();
        let (cs, cr) = cache.get_left(row);
        assert_eq!(cs, ds);
        assert_eq!(cr.raw, dr.raw);
        let (ds, dr) = row.shift_right();
        let (cs, cr) = cache.get_right(row);
        assert_eq!(cs, ds);
        assert_eq!(cr.raw, dr.raw);
    }
    // [1, 1, 0, 0] merges into a 4-tile at the left, or at the right.
    let (s, r) = cache.get_left(Row::from_raw(0x0011));
    assert_eq!((s, r.raw), (4, 0x0002));
    let (s, r) = cache.get_right(Row::from_raw(0x0011));
    assert_eq!((s, r.raw), (4, 0x2000));
}

#[test]
fn cached_moves_match_direct_moves() {
    let cache = MoveCache::new();
    let samples = [0x1000011111000101u64, 0x2002, STUCK_RAW, 0, 0x4312752186532731];
    for raw in samples {
        for i in 0..4 {
            let m = Move::from_int(i);
            let mut direct = Board::from_raw(raw);
            let mut cached = Board::from_raw(raw);
            assert_eq!(direct.make_move(m), cached.make_move_with(&cache, m));
            assert_eq!(direct.raw, cached.raw);
        }
    }
}

#[test]
fn largest_rank_does_not_merge() {
    // Rank 15 is the largest representable rank; two such tiles stay apart.
    let row = Row::from_raw(0x00ff);
    let (score, after) = row.shift_left();
    assert_eq!(after.raw, 0x00ff);
    assert_eq!(score, 0);
}

#[test]
fn aggregates() {
    let mut b = Board::new();
    b.set(0, 3);
    b.set(5, 3);
    b.set(10, 7);
    assert_eq!(b.num_empty(), 13);
    assert_eq!(b.distinct_tiles(), 2);
    assert_eq!(b.log_max_tile(), 7);
    assert_eq!(b.max_tile(), 128);
    assert_eq!(b.sum_tile(), 13 + 8 + 8 + 128);

    assert_eq!(Board::new().max_tile(), 1);
    assert_eq!(Board::new().distinct_tiles(), 0);
}

#[test]
fn depth_limit_policy() {
    assert_eq!(Board::new().default_depth_limit(), 3);
    let mut b = Board::new();
    for (i, rank) in [1u8, 2, 3, 4, 5, 6].iter().enumerate() {
        b.set(i as u8, *rank);
    }
    assert_eq!(b.distinct_tiles(), 6);
    assert_eq!(b.default_depth_limit(), 4);
}

#[test]
fn array_round_trip() {
    let arr: Vec<i32> = vec![0, 1, 2, 3, 4, 5, 6, 7, 8, 9, 10, 11, 12, 13, 14, 15];
    let b = Board::from_arr(&arr);
    for i in 0..16 {
        assert_eq!(b.at(i), i);
    }
    assert_eq!(b.to_arr(), arr);
}

#[test]
fn move_record_carries_score_and_board() {
    let mut b = Board::new();
    b.set_row(0, Row::from_raw(0x2002));
    let rec = b.make_move_and_record(Move::Left).unwrap();
    assert!(matches!(rec.m, Move::Left));
    assert_eq!(rec.score, 8);
    assert_eq!(rec.board_after.raw, b.raw);

    let mut stuck = Board::from_raw(STUCK_RAW);
    assert!(stuck.make_move_and_record(Move::Left).is_none());
}

#[test]
fn row_heuristic_metrics() {
    let row = Row::from_raw(0x2002); // ranks [2, 0, 0, 2]
    assert_eq!(row.empty_count(), 2);
    assert_eq!(row.merge_potential(), 2);

    let row = Row::from_raw(0x0123); // ranks [3, 2, 1, 0]
    let (left, right) = row.monotonicity_penalties();
    assert_eq!(left, (81 - 16) + (16 - 1) + (1 - 0));
    assert_eq!(right, 0);

    let row = Row::from_raw(0x1111);
    assert_eq!(row.merge_potential(), 4);
    assert_eq!(row.empty_count(), 0);
    assert_eq!(row.monotonicity_penalties(), (0, 0));
}

#[test]
fn monte_carlo_player() {
    let player = MonteCarloPlayer::new(10, MonteCarloMetric::Sum);
    assert!(player.next_move(&Board::from_raw(STUCK_RAW)).is_none());

    let mut b = Board::new();
    b.set(0, 1);
    let mv = player.next_move(&b).expect("a legal move exists");
    let mut c = b;
    assert!(c.make_move(mv).is_some());

    assert_eq!(player.explore_move(&Board::from_raw(STUCK_RAW), Move::Left), 0);
}
