use rusthello_lib::{
    coord_to_string, disk_to_coord, get_score_diff, get_tempo, move_bit_board, negate_score,
    score_le, score_lt, show_bit_board, valid_moves_set, BitBoard, Coord, Score,
};

/// The standard opening: dark on e4 and d5, light on d4 and e5.
fn opening() -> (u64, u64) {
    let bl = (1u64 << 28) | (1u64 << 35);
    let wh = (1u64 << 27) | (1u64 << 36);
    (bl, wh)
}

/// Brute-force reference move generator: for every vacant square walk
/// the eight compass directions and look for a run of enemy discs
/// ending on an own disc.
fn brute_legal_moves(my: u64, opp: u64) -> u64 {
    let mut result = 0u64;
    for r in 0i64..8 {
        for c in 0i64..8 {
            let idx = (r * 8 + c) as u64;
            if (my | opp) >> idx & 1 == 1 {
                continue;
            }
            let mut found = false;
            for dr in -1i64..=1 {
                for dc in -1i64..=1 {
                    if dr == 0 && dc == 0 {
                        continue;
                    }
                    let mut k = 1i64;
                    loop {
                        let rr = r + k * dr;
                        let cc = c + k * dc;
                        if rr < 0 || rr > 7 || cc < 0 || cc > 7 {
                            break;
                        }
                        let j = (rr * 8 + cc) as u64;
                        if opp >> j & 1 == 1 {
                            k += 1;
                            continue;
                        }
                        if my >> j & 1 == 1 && k > 1 {
                            found = true;
                        }
                        break;
                    }
                }
            }
            if found {
                result |= 1u64 << idx;
            }
        }
    }
    result
}

/// Deterministic playout: both sides always take their lowest-index
/// legal move.  Returns every position reached, mover first.
fn lowest_move_playout() -> Vec<(u64, u64)> {
    let (mut my, mut opp) = opening();
    let mut positions = vec![(my, opp)];
    loop {
        let moves = valid_moves_set(my, opp);
        if moves == 0 {
            if valid_moves_set(opp, my) == 0 {
                break;
            }
            std::mem::swap(&mut my, &mut opp);
            positions.push((my, opp));
            continue;
        }
        let disk = 1u64 << moves.trailing_zeros();
        let (nmy, nopp) = move_bit_board(my, opp, disk);
        my = nopp;
        opp = nmy;
        positions.push((my, opp));
    }
    positions
}

#[test]
fn opening_moves_of_dark() {
    let (bl, wh) = opening();
    let expected = (1u64 << 19) | (1u64 << 26) | (1u64 << 37) | (1u64 << 44);
    assert_eq!(valid_moves_set(bl, wh), expected);
    assert_eq!(valid_moves_set(wh, bl).count_ones(), 4);
    // Degenerate boards offer no move at all.
    assert_eq!(valid_moves_set(0, 0), 0);
    assert_eq!(valid_moves_set(u64::MAX, 0), 0);
    assert_eq!(valid_moves_set(bl, 0), 0);
}

#[test]
fn generator_matches_brute_force_scan() {
    let (bl, wh) = opening();
    assert_eq!(valid_moves_set(bl, wh), brute_legal_moves(bl, wh));
    for (my, opp) in lowest_move_playout() {
        assert_eq!(valid_moves_set(my, opp), brute_legal_moves(my, opp));
        assert_eq!(valid_moves_set(opp, my), brute_legal_moves(opp, my));
    }
}

#[test]
fn moves_conserve_discs() {
    for (my, opp) in lowest_move_playout() {
        let mut moves = valid_moves_set(my, opp);
        while moves != 0 {
            let disk = 1u64 << moves.trailing_zeros();
            moves ^= disk;
            let (nmy, nopp) = move_bit_board(my, opp, disk);
            assert_eq!(
                nmy.count_ones() + nopp.count_ones(),
                my.count_ones() + opp.count_ones() + 1
            );
            assert_eq!(nmy & nopp, 0);
            assert_eq!(nopp & my, 0);
            assert_eq!(nmy | nopp, my | opp | disk);
        }
    }
}

#[test]
fn applying_the_first_opening_move() {
    let (bl, wh) = opening();
    // Dark plays d3: the light disc on d4 flips.
    let (nmy, nopp) = move_bit_board(bl, wh, 1u64 << 19);
    assert_eq!(nmy, (1u64 << 19) | (1u64 << 27) | (1u64 << 28) | (1u64 << 35));
    assert_eq!(nopp, 1u64 << 36);
}

#[test]
fn score_diff_and_tempo() {
    let (bl, wh) = opening();
    assert_eq!(get_score_diff(bl, wh), 0);
    assert_eq!(get_tempo(bl, wh), 4);
    assert_eq!(get_score_diff(0xff, 0), 8);
    assert_eq!(get_tempo(0xff00, 0xff), 16);
}

#[test]
fn coordinates_render_in_algebraic_notation() {
    assert_eq!(coord_to_string(Coord::new(0, 0)), "a1");
    assert_eq!(coord_to_string(Coord::new(4, 3)), "d5");
    assert_eq!(coord_to_string(Coord::new(7, 7)), "h8");
    assert_eq!(coord_to_string(Coord::new(8, 8)), "Pass");
}

#[test]
fn single_discs_name_their_square() {
    let c = disk_to_coord(1u64 << 35);
    assert_eq!((c.row, c.col), (4, 3));
    let p = disk_to_coord(0);
    assert_eq!((p.row, p.col), (8, 8));
    let a = disk_to_coord(1);
    assert_eq!((a.row, a.col), (0, 0));
}

#[test]
fn score_negation_mirrors_both_kinds() {
    assert_eq!(negate_score(Score::Running(10)), Score::Running(-10));
    assert_eq!(negate_score(Score::Ended(-5)), Score::Ended(5));
}

#[test]
fn selection_order_prefers_proven_results() {
    // A proven opponent loss beats every estimate, which beats a
    // proven opponent win; within one kind the number decides.
    assert!(score_lt(Score::Ended(-2), Score::Running(-1000)));
    assert!(score_lt(Score::Running(1000), Score::Ended(1)));
    assert!(score_lt(Score::Ended(0), Score::Running(-50)));
    assert!(score_lt(Score::Running(-3), Score::Running(7)));
    assert!(score_lt(Score::Ended(-8), Score::Ended(-2)));
    assert!(score_le(Score::Running(4), Score::Running(4)));
    assert!(!score_le(Score::Running(5), Score::Running(4)));
}

#[test]
fn board_rendering_shows_every_disc() {
    let (bl, wh) = opening();
    let text = show_bit_board(BitBoard(bl, wh, true));
    let chars: Vec<char> = text.chars().collect();
    assert_eq!(chars.len(), 228);
    for r in 0usize..8 {
        for c in 0usize..8 {
            let idx = (r * 8 + c) as u64;
            let expected = if bl >> idx & 1 == 1 {
                'X'
            } else if wh >> idx & 1 == 1 {
                'O'
            } else {
                ' '
            };
            assert_eq!(chars[38 + 19 * r + 2 + 2 * c], expected);
        }
    }
    let full: String = [
        " |A B C D E F G H \n",
        "-+----------------\n",
        "1|                \n",
        "2|                \n",
        "3|                \n",
        "4|      O X       \n",
        "5|      X O       \n",
        "6|                \n",
        "7|                \n",
        "8|                \n",
        "  (X: Black,  O: White)\n",
        " Black to move",
    ]
    .concat();
    assert_eq!(text, full);
}
