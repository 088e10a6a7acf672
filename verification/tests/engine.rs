use rusthello_lib::{
    ai_eval_iddfs, ai_eval_till_end, ai_eval_with_depth, evaluate_to_depth,
    find_best_move_bit_board, line_to_string, move_bit_board, my_board_eval, select_best,
    valid_moves_set, BitBoard, Coord, Score,
};

/// The standard opening: dark on e4 and d5, light on d4 and e5.
fn opening() -> (u64, u64) {
    let bl = (1u64 << 28) | (1u64 << 35);
    let wh = (1u64 << 27) | (1u64 << 36);
    (bl, wh)
}

/// Plain unpruned negamax over the real board operations, as a
/// reference for the solver.
fn brute_end_value(my: u64, opp: u64) -> i64 {
    let moves = valid_moves_set(my, opp);
    if moves == 0 {
        if valid_moves_set(opp, my) == 0 {
            return my.count_ones() as i64 - opp.count_ones() as i64;
        }
        return -brute_end_value(opp, my);
    }
    let mut best = i64::MIN;
    let mut rest = moves;
    while rest != 0 {
        let disk = 1u64 << rest.trailing_zeros();
        rest ^= disk;
        let (nmy, nopp) = move_bit_board(my, opp, disk);
        let v = -brute_end_value(nopp, nmy);
        if v > best {
            best = v;
        }
    }
    best
}

/// Deterministic playout taking lowest-index moves until at most
/// `target` squares stay empty; returns that position, mover first.
fn playout_until_empties(target: u32) -> (u64, u64) {
    let (mut my, mut opp) = opening();
    loop {
        if 64 - my.count_ones() - opp.count_ones() <= target {
            return (my, opp);
        }
        let moves = valid_moves_set(my, opp);
        if moves == 0 {
            if valid_moves_set(opp, my) == 0 {
                return (my, opp);
            }
            std::mem::swap(&mut my, &mut opp);
            continue;
        }
        let disk = 1u64 << moves.trailing_zeros();
        let (nmy, nopp) = move_bit_board(my, opp, disk);
        my = nopp;
        opp = nmy;
    }
}

#[test]
fn evaluator_scores_the_opening_by_mobility() {
    let (bl, wh) = opening();
    // Four legal moves and empty edges: two discs' worth of mobility,
    // in half-disc units.
    assert_eq!(my_board_eval(bl, wh), 4);
    assert_eq!(my_board_eval(wh, bl), 4);
}

#[test]
fn evaluator_rewards_full_edges() {
    // A full bottom row owns both of its corners, and one disc of each
    // side column.
    assert_eq!(my_board_eval(0xff00000000000000, 0), 144);
}

#[test]
fn finished_game_returns_exact_differential() {
    // One lone disc: neither side can move, dark is up by one.
    let board = BitBoard(1, 0, true);
    assert_eq!(evaluate_to_depth(board, 5), Score::Ended(1));
    assert_eq!(evaluate_to_depth(BitBoard(1, 0, false), 5), Score::Ended(-1));
    assert_eq!(find_best_move_bit_board(board), None);
    // A full dark board.
    assert_eq!(evaluate_to_depth(BitBoard(u64::MAX, 0, true), 3), Score::Ended(64));
}

#[test]
fn forced_pass_negates_the_swapped_verdict() {
    // Dark on b1, light on a1: dark cannot move, light can take c1.
    let bl = 1u64 << 1;
    let wh = 1u64;
    assert_ne!(valid_moves_set(wh, bl), 0);
    assert_eq!(valid_moves_set(bl, wh), 0);
    for depth in 1usize..=4 {
        let dark = evaluate_to_depth(BitBoard(bl, wh, true), depth);
        let light = evaluate_to_depth(BitBoard(bl, wh, false), depth);
        let negated = match light {
            Score::Running(v) => Score::Running(-v),
            Score::Ended(d) => Score::Ended(-d),
        };
        assert_eq!(dark, negated);
    }
}

#[test]
fn opening_children_are_symmetric_at_depth_four() {
    let (bl, wh) = opening();
    let mut rest = valid_moves_set(bl, wh);
    let mut values = Vec::new();
    while rest != 0 {
        let disk = 1u64 << rest.trailing_zeros();
        rest ^= disk;
        let (nmy, nopp) = move_bit_board(bl, wh, disk);
        // The opponent moves next in the child position.
        values.push(evaluate_to_depth(BitBoard(nmy, nopp, false), 4));
    }
    assert_eq!(values.len(), 4);
    // The four opening moves lead to rotations of one position, so all
    // four verdicts agree, and none is an exact (game-over) verdict.
    for v in &values {
        assert_eq!(*v, values[0]);
        assert!(matches!(*v, Score::Running(_)));
    }
}

#[test]
fn chosen_opening_move_is_one_of_the_four() {
    let (bl, wh) = opening();
    let legal = valid_moves_set(bl, wh);
    let c = find_best_move_bit_board(BitBoard(bl, wh, true)).expect("opening has moves");
    assert!(c.row < 8 && c.col < 8);
    assert_ne!(legal & (1u64 << (8 * c.row + c.col)), 0);
}

#[test]
fn solver_agrees_with_unpruned_minimax() {
    let (my, opp) = playout_until_empties(9);
    assert!(valid_moves_set(my, opp) != 0);
    let expected = brute_end_value(my, opp);
    let moves = valid_moves_set(my, opp);
    let mut entries = Vec::new();
    let mut nnodes = 0u64;
    ai_eval_till_end(my, opp, moves, &mut entries, false, &mut nnodes);
    assert!(entries.len() >= 1);
    // Entries come best first: the first child score is what the best
    // move concedes to the opponent.
    match entries[0].1 {
        Score::Ended(e) => assert_eq!(-(e as i64), expected),
        Score::Running(_) => panic!("solver verdicts are exact"),
    }
    // Every listed verdict is the true value of its child position.
    for (c, s) in &entries {
        let disk = 1u64 << (8 * c.row + c.col);
        assert_ne!(moves & disk, 0);
        let (nmy, nopp) = move_bit_board(my, opp, disk);
        match s {
            Score::Ended(e) => assert_eq!(*e as i64, brute_end_value(nopp, nmy)),
            Score::Running(_) => panic!("solver verdicts are exact"),
        }
    }
}

#[test]
fn lock_mode_lists_exact_verdicts_and_finds_a_safe_move() {
    let (my, opp) = playout_until_empties(9);
    let moves = valid_moves_set(my, opp);
    assert!(moves != 0);
    let mut entries = Vec::new();
    let mut nnodes = 0u64;
    ai_eval_till_end(my, opp, moves, &mut entries, true, &mut nnodes);
    assert!(entries.len() >= 1);
    assert!(entries.len() as u32 <= moves.count_ones());
    // Every listed verdict is exact even under lock pruning, and no
    // square is listed twice.
    for (c, s) in &entries {
        let disk = 1u64 << (8 * c.row + c.col);
        assert_ne!(moves & disk, 0);
        let (nmy, nopp) = move_bit_board(my, opp, disk);
        match s {
            Score::Ended(e) => assert_eq!(*e as i64, brute_end_value(nopp, nmy)),
            Score::Running(_) => panic!("solver verdicts are exact"),
        }
    }
    for i in 0..entries.len() {
        for j in i + 1..entries.len() {
            assert_ne!(entries[i].0, entries[j].0);
        }
    }
    // Whenever the mover has a non-losing move, lock mode proves one.
    if brute_end_value(my, opp) >= 0 {
        assert!(entries.iter().any(|(_, s)| matches!(s, Score::Ended(e) if *e <= 0)));
    }
}

#[test]
fn midgame_listing_covers_every_move_in_order() {
    let (bl, wh) = opening();
    let moves = valid_moves_set(bl, wh);
    let mut entries = Vec::new();
    ai_eval_with_depth(bl, wh, 2, moves, &mut entries);
    assert_eq!(entries.len(), 4);
    let mut seen = 0u64;
    for (c, _) in &entries {
        let disk = 1u64 << (8 * c.row + c.col);
        assert_ne!(moves & disk, 0);
        seen |= disk;
    }
    assert_eq!(seen, moves);
    for w in entries.windows(2) {
        assert!(rusthello_lib::score_le(w[0].1, w[1].1));
    }
}

#[test]
fn jitter_stays_within_five_per_cent() {
    let (bl, wh) = opening();
    let exact = match evaluate_to_depth(BitBoard(bl, wh, true), 3) {
        Score::Running(v) => v,
        Score::Ended(_) => panic!("the opening is not finished"),
    };
    for _ in 0..40 {
        let (s, _line) = ai_eval_iddfs(bl, wh, 3);
        match s {
            Score::Running(w) => {
                assert!(20 * (w - exact).abs() <= exact.abs() + 20);
            },
            Score::Ended(_) => panic!("the opening is not finished"),
        }
    }
}

#[test]
fn select_best_takes_the_smallest_verdict() {
    let entries = vec![
        (Coord::new(0, 0), Score::Running(5)),
        (Coord::new(1, 1), Score::Ended(-3)),
        (Coord::new(2, 2), Score::Running(-9)),
    ];
    let best = select_best(&entries).expect("entries are nonempty");
    assert_eq!((best.0.row, best.0.col), (1, 1));
    assert_eq!(select_best(&Vec::<(Coord, Score)>::new()), None);
}

#[test]
fn line_rendering_lists_each_move() {
    assert_eq!(line_to_string(&[]), "");
    let line = [Coord::new(2, 3), Coord::new(8, 8), Coord::new(4, 5)];
    assert_eq!(line_to_string(&line), " - d3 Pass f5");
}

#[test]
fn engines_finish_a_game_within_sixty_plies() {
    let (mut bl, mut wh) = opening();
    let mut turn = true;
    let mut plies = 0u32;
    loop {
        assert!(plies <= 60, "game ran too long");
        let before = bl.count_ones() + wh.count_ones();
        match find_best_move_bit_board(BitBoard(bl, wh, turn)) {
            Some(c) => {
                let disk = 1u64 << (8 * c.row + c.col);
                let (my, opp) = if turn { (bl, wh) } else { (wh, bl) };
                assert_ne!(valid_moves_set(my, opp) & disk, 0);
                let (nmy, nopp) = move_bit_board(my, opp, disk);
                if turn {
                    bl = nmy;
                    wh = nopp;
                } else {
                    wh = nmy;
                    bl = nopp;
                }
                // Each move adds exactly one disc.
                assert_eq!(bl.count_ones() + wh.count_ones(), before + 1);
                plies += 1;
                turn = !turn;
            },
            None => {
                let (my, opp) = if turn { (bl, wh) } else { (wh, bl) };
                assert_eq!(valid_moves_set(my, opp), 0);
                if valid_moves_set(opp, my) == 0 {
                    break;
                }
                // A forced pass: the count must not change.
                assert_eq!(bl.count_ones() + wh.count_ones(), before);
                turn = !turn;
            },
        }
    }
    assert!(bl.count_ones() + wh.count_ones() <= 64);
}
