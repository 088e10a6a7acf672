//! Root dispatcher: scores every legal root move and picks the best.
//!
//! The phase is chosen by the number of empty squares: above the
//! endgame threshold each root move is scored by the fixed-depth
//! midgame search at increasing depths, the last depth replacing the
//! earlier ones; at or below it the exact solver runs in lock mode.
//! The move whose child verdict is smallest in the selection order —
//! best for the mover — is returned.

use vstd::prelude::*;

use crate::bit_board::{move_bit_board, spec_move_my, spec_move_opp, spec_valid_moves,
    valid_moves_set, BitBoard};
use crate::bits::{bit64, lemma_pop64_bound, pop64};
use crate::endgame::{ai_eval_till_end, end_entry_ok};
use crate::score::{disk_to_coord, score_lt, spec_score_le, Coord, Score};
use crate::search::{ai_eval_iddfs, lemma_clear_bit, lemma_valid_moves_vacant, spec_jitter,
    spec_midgame};

verus! {

/// Number of empty squares at or below which the exact solver takes
/// over from the heuristic search.  A tunable engine constant: larger
/// values spend much more time for exact play earlier.
pub const ENDGAME_LENGTH: u64 = 12;

/// Depth of the deepest midgame round.  A tunable engine constant:
/// each extra round multiplies the search cost by the branching
/// factor.
pub const USUAL_DEPTH: usize = 3;

/// The coordinate names a set square of `moves`.
pub open spec fn coord_legal(moves: u64, c: Coord) -> bool {
    exists|kb: u64| kb < 64 && #[trigger] bit64(moves, kb) && c.row == kb / 8 && c.col == kb % 8
}

/// One scored root move of the midgame search: its square is a legal
/// move and its verdict is the fixed-depth value of the child
/// position, jittered within five per cent when heuristic.
pub open spec fn mid_entry_ok(
    my: u64,
    opp: u64,
    moves: u64,
    depth: nat,
    e: (Coord, Score),
) -> bool {
    exists|kb: u64|
        kb < 64 && #[trigger] bit64(moves, kb) && e.0.row == kb / 8 && e.0.col == kb % 8 && (
        match spec_midgame(spec_move_opp(my, opp, 1u64 << kb), spec_move_my(my, opp, 1u64 << kb), depth) {
            Score::Ended(v) => e.1 == Score::Ended(v),
            Score::Running(v) => exists|j: int|
                950 <= j <= 1050 && e.1 == Score::Running(spec_jitter(v as int, j) as i64),
        })
}

/// Sorts scored moves by the selection order, keeping exactly the same
/// entries.
fn sort_scored(v: Vec<(Coord, Score)>) -> (r: Vec<(Coord, Score)>)
    ensures
        r@.len() == v@.len(),
        forall|a: int, b: int|
            0 <= a <= b < r@.len() ==> spec_score_le(
                (#[trigger] r@[a]).1,
                (#[trigger] r@[b]).1,
            ),
        forall|x: (Coord, Score)| r@.contains(x) <==> v@.contains(x),
{
    let mut rem = v;
    let mut out: Vec<(Coord, Score)> = Vec::new();
    let ghost orig = rem@;
    while rem.len() > 0
        invariant
            out@.len() + rem@.len() == orig.len(),
            forall|a: int, b: int|
                0 <= a <= b < out@.len() ==> spec_score_le(
                    (#[trigger] out@[a]).1,
                    (#[trigger] out@[b]).1,
                ),
            forall|a: int, b: int|
                0 <= a < out@.len() && 0 <= b < rem@.len() ==> spec_score_le(
                    (#[trigger] out@[a]).1,
                    (#[trigger] rem@[b]).1,
                ),
            forall|x: (Coord, Score)| (out@.contains(x) || rem@.contains(x)) <==> orig.contains(x),
        decreases rem@.len(),
    {
        let mut mi: usize = 0;
        let mut i: usize = 1;
        while i < rem.len()
            invariant
                mi < i <= rem@.len(),
                rem@.len() > 0,
                forall|j: int|
                    0 <= j < i ==> spec_score_le(rem@[mi as int].1, (#[trigger] rem@[j]).1),
            decreases rem@.len() - i,
        {
            if score_lt(rem[i].1, rem[mi].1) {
                mi = i;
            } else {
                proof {
                    crate::score::lemma_score_order_total(rem@[mi as int].1, rem@[i as int].1);
                }
            }
            i = i + 1;
        }
        let ghost rem_old = rem@;
        let ghost out_old = out@;
        let e = rem.remove(mi);
        out.push(e);
        proof {
            assert forall|x: (Coord, Score)| (out@.contains(x) || rem@.contains(x))
                <==> orig.contains(x) by {
                crate::endgame::lemma_remove_contains(rem_old, mi as int, x);
                assert(out@ == out_old.push(e));
                if out_old.contains(x) {
                    let w = choose|w: int| 0 <= w < out_old.len() && out_old[w] == x;
                    assert(out@[w] == x);
                }
                if x == e {
                    assert(out@[out_old.len() as int] == x);
                }
                if out@.contains(x) {
                    let w = choose|w: int| 0 <= w < out@.len() && out@[w] == x;
                    if w < out_old.len() {
                        assert(out_old[w] == x);
                    } else {
                        assert(x == e);
                    }
                }
            }
            assert forall|b: int| 0 <= b < rem@.len() implies spec_score_le(
                e.1,
                (#[trigger] rem@[b]).1,
            ) by {
                if b < mi as int {
                    assert(rem@[b] == rem_old[b]);
                } else {
                    assert(rem@[b] == rem_old[b + 1]);
                }
            }
        }
    }
    out
}

/// Scores every legal root move by the midgame search at the given
/// depth and fills `moves_and_scores` with the results, best first.
/// Each verdict is the fixed-depth value of the position after the
/// move, from the opponent's perspective, with random jitter on
/// heuristic leaves; exact verdicts are never jittered.
pub fn ai_eval_with_depth(
    my: u64,
    opp: u64,
    depth: usize,
    moves: u64,
    moves_and_scores: &mut Vec<(Coord, Score)>,
)
    requires
        my & opp == 0,
        moves == spec_valid_moves(my, opp),
    ensures
        forall|i: int|
            0 <= i < final(moves_and_scores)@.len() ==> mid_entry_ok(
                my,
                opp,
                moves,
                depth as nat,
                #[trigger] final(moves_and_scores)@[i],
            ),
        final(moves_and_scores)@.len() == pop64(moves),
        moves != 0 ==> final(moves_and_scores)@.len() >= 1,
        forall|kb: u64|
            kb < 64 && #[trigger] bit64(moves, kb) ==> exists|i: int|
                0 <= i < final(moves_and_scores)@.len()
                    && (#[trigger] final(moves_and_scores)@[i]).0 == (Coord {
                    row: (kb / 8) as usize,
                    col: (kb % 8) as usize,
                }),
        forall|a: int, b: int|
            0 <= a <= b < final(moves_and_scores)@.len() ==> spec_score_le(
                (#[trigger] final(moves_and_scores)@[a]).1,
                (#[trigger] final(moves_and_scores)@[b]).1,
            ),
{
    let mut collected: Vec<(Coord, Score)> = Vec::new();
    let mut rest = moves;
    let ghost mut idx: int = 0;
    proof {
        lemma_valid_moves_vacant(my, opp);
    }
    while rest != 0
        invariant
            my & opp == 0,
            moves == spec_valid_moves(my, opp),
            moves & (my | opp) == 0,
            0 <= idx <= 64,
            forall|j: u64| j < 64 ==> ((#[trigger] bit64(rest, j)) == (j as int >= idx && bit64(
                moves,
                j,
            ))),
            forall|i: int|
                0 <= i < collected@.len() ==> mid_entry_ok(
                    my,
                    opp,
                    moves,
                    depth as nat,
                    #[trigger] collected@[i],
                ),
            idx > 0 && moves != 0 ==> collected@.len() >= 1,
            collected@.len() == 0 ==> rest == moves,
            collected@.len() + pop64(rest) == pop64(moves),
            forall|kb: u64|
                kb < 64 && #[trigger] bit64(moves, kb) && (kb as int) < idx ==> exists|i: int|
                    0 <= i < collected@.len() && (#[trigger] collected@[i]).0 == (Coord {
                        row: (kb / 8) as usize,
                        col: (kb % 8) as usize,
                    }),
        decreases rest,
    {
        let t: u32 = rest.trailing_zeros();
        proof {
            vstd::std_specs::bits::axiom_u64_trailing_zeros(rest);
        }
        let disk: u64 = 1u64 << (t as u64);
        proof {
            let tt = t as u64;
            assert(bit64(rest, tt));
            assert(bit64(moves, tt));
            crate::bits::lemma_move_disk(moves, my | opp, tt);
        }
        let coord = disk_to_coord(disk);
        proof {
            let tt = t as u64;
            let e = (8 * coord.row + coord.col) as u64;
            crate::bits::lemma_shift_injective(tt, e);
        }
        let (nmy, nopp) = move_bit_board(my, opp, disk);
        proof {
            crate::bits::lemma_bit_comm(nmy, nopp);
        }
        let (score, _line) = ai_eval_iddfs(nopp, nmy, depth);
        let ghost collected_old = collected@;
        collected.push((coord, score));
        proof {
            let tt = t as u64;
            assert(mid_entry_ok(my, opp, moves, depth as nat, (coord, score)));
            assert forall|i: int| 0 <= i < collected@.len() implies mid_entry_ok(
                my,
                opp,
                moves,
                depth as nat,
                #[trigger] collected@[i],
            ) by {
                if i < collected_old.len() {
                    assert(collected@[i] == collected_old[i]);
                } else {
                    assert(collected@[i] == (coord, score));
                }
            }
            assert forall|kb: u64| kb < 64 && #[trigger] bit64(moves, kb) && (kb as int) < tt as int
                + 1 implies exists|i: int|
                0 <= i < collected@.len() && (#[trigger] collected@[i]).0 == (Coord {
                    row: (kb / 8) as usize,
                    col: (kb % 8) as usize,
                }) by {
                if (kb as int) >= idx {
                    if kb != tt {
                        assert((rest >> kb) & 1 == 0);
                        assert(!bit64(rest, kb));
                        assert(false);
                    }
                    assert(coord.row == kb / 8 && coord.col == kb % 8);
                    assert(collected@[collected@.len() - 1].0 == (Coord {
                        row: (kb / 8) as usize,
                        col: (kb % 8) as usize,
                    }));
                } else {
                    let w = choose|i: int|
                        0 <= i < collected_old.len() && (#[trigger] collected_old[i]).0 == (Coord {
                            row: (kb / 8) as usize,
                            col: (kb % 8) as usize,
                        });
                    assert(collected@[w] == collected_old[w]);
                }
            }
            lemma_clear_bit(rest, tt, tt);
            crate::bits::lemma_pop64_remove_subset(rest, disk);
            crate::bits::lemma_pop64_singleton(disk);
            assert(collected@.len() + pop64(rest ^ disk) == pop64(moves));
            assert forall|j: u64| j < 64 implies ((#[trigger] bit64(rest ^ disk, j)) == (j as int
                >= tt as int + 1 && bit64(moves, j))) by {
                lemma_clear_bit(rest, tt, j);
                if j < tt {
                    assert((rest >> j) & 1 == 0);
                }
            }
            idx = tt as int + 1;
        }
        rest = rest ^ disk;
    }
    proof {
        assert forall|kb: u64| kb < 64 && #[trigger] bit64(moves, kb) implies (kb as int) < idx by {
            crate::bits::lemma_zero_bits(rest, kb);
            assert(!bit64(rest, kb));
        }
        assert(crate::bits::pop_nat(0) == 0);
        assert(pop64(rest) == 0);
    }
    let ghost pre_sort = collected@;
    let sorted = sort_scored(collected);
    proof {
        assert forall|i: int| 0 <= i < sorted@.len() implies mid_entry_ok(
            my,
            opp,
            moves,
            depth as nat,
            #[trigger] sorted@[i],
        ) by {
            assert(sorted@.contains(sorted@[i]));
            assert(pre_sort.contains(sorted@[i]));
            let w = choose|w: int| 0 <= w < pre_sort.len() && pre_sort[w] == sorted@[i];
            assert(mid_entry_ok(my, opp, moves, depth as nat, pre_sort[w]));
        }
        assert forall|kb: u64| kb < 64 && #[trigger] bit64(moves, kb) implies exists|i: int|
            0 <= i < sorted@.len() && (#[trigger] sorted@[i]).0 == (Coord {
                row: (kb / 8) as usize,
                col: (kb % 8) as usize,
            }) by {
            let w = choose|i: int|
                0 <= i < pre_sort.len() && (#[trigger] pre_sort[i]).0 == (Coord {
                    row: (kb / 8) as usize,
                    col: (kb % 8) as usize,
                });
            assert(pre_sort.contains(pre_sort[w]));
            assert(sorted@.contains(pre_sort[w]));
            let w2 = choose|w2: int| 0 <= w2 < sorted@.len() && sorted@[w2] == pre_sort[w];
            assert(sorted@[w2].0 == (Coord { row: (kb / 8) as usize, col: (kb % 8) as usize }));
        }
    }
    *moves_and_scores = sorted;
}

/// Picks the entry whose verdict is best for the mover: the smallest
/// child score in the selection order, the earliest on ties.
pub fn select_best(entries: &Vec<(Coord, Score)>) -> (r: Option<(Coord, Score)>)
    ensures
        (r is None) <==> entries@.len() == 0,
        r matches Some(b) ==> entries@.contains(b) && forall|j: int|
            0 <= j < entries@.len() ==> spec_score_le(b.1, (#[trigger] entries@[j]).1),
{
    if entries.len() == 0 {
        return None;
    }
    let mut best: (Coord, Score) = entries[0];
    let mut i: usize = 1;
    while i < entries.len()
        invariant
            1 <= i <= entries@.len(),
            entries@.contains(best),
            forall|j: int| 0 <= j < i ==> spec_score_le(best.1, (#[trigger] entries@[j]).1),
        decreases entries@.len() - i,
    {
        if score_lt(entries[i].1, best.1) {
            best = entries[i];
        } else {
            proof {
                crate::score::lemma_score_order_total(best.1, entries@[i as int].1);
            }
        }
        i = i + 1;
    }
    Some(best)
}

/// The number of empty squares left on the board.
fn empties(my: u64, opp: u64) -> (n: u64)
    requires
        my & opp == 0,
    ensures
        n == 64 - pop64(my) - pop64(opp),
{
    proof {
        lemma_pop64_bound(my);
        lemma_pop64_bound(opp);
        crate::bits::lemma_pop64_disjoint_union(my, opp);
        lemma_pop64_bound(my | opp);
    }
    let tempo = crate::bit_board::get_tempo(my, opp);
    (64 - tempo) as u64
}

/// The pick of the final evaluation round: some list of scored root
/// moves, every entry correct for the phase's final round — the
/// deepest midgame round above the endgame threshold, the exact
/// solver at or below it — holds the chosen move with a verdict that
/// is smallest in the selection order.
pub open spec fn round_pick_ok(my: u64, opp: u64, c: Coord) -> bool {
    let moves = spec_valid_moves(my, opp);
    let left = 64 - pop64(my) - pop64(opp);
    exists|entries: Seq<(Coord, Score)>, s: Score|
        {
            &&& #[trigger] entries.contains((c, s))
            &&& entries.len() >= 1
            &&& (forall|i: int|
                0 <= i < entries.len() ==> (if left > ENDGAME_LENGTH {
                    mid_entry_ok(my, opp, moves, USUAL_DEPTH as nat, #[trigger] entries[i])
                } else {
                    end_entry_ok(my, opp, moves, #[trigger] entries[i])
                }))
            &&& (forall|i: int|
                0 <= i < entries.len() ==> spec_score_le(s, (#[trigger] entries[i]).1))
        }
}

/// Chooses a move for the side to move of `board`.  Returns a legal
/// move whenever the mover has one — found by iterative-deepening
/// heuristic search in the midgame and by the exact solver in lock
/// mode near the end — and nothing when the mover must pass or the
/// game is over.
#[verifier::rlimit(100)]
#[verifier::spinoff_prover]
pub fn find_best_move_bit_board(board: BitBoard) -> (r: Option<Coord>)
    requires
        board.0 & board.1 == 0,
    ensures
        ({
            let my = if board.2 {
                board.0
            } else {
                board.1
            };
            let opp = if board.2 {
                board.1
            } else {
                board.0
            };
            &&& ((r is None) <==> spec_valid_moves(my, opp) == 0)
            &&& (r matches Some(c) ==> coord_legal(spec_valid_moves(my, opp), c))
            &&& (r matches Some(c) ==> round_pick_ok(my, opp, c))
        }),
{
    let BitBoard(bl, wh, turn) = board;
    let my = if turn {
        bl
    } else {
        wh
    };
    let opp = if turn {
        wh
    } else {
        bl
    };
    proof {
        crate::bits::lemma_bit_comm(bl, wh);
    }
    let moves = valid_moves_set(my, opp);
    let opp_moves = valid_moves_set(opp, my);
    if moves == 0 && opp_moves == 0 {
        return None;
    }
    if moves == 0 {
        return None;
    }
    let left = empties(my, opp);
    let ghost phase_mid = (64 - pop64(my) - pop64(opp)) > ENDGAME_LENGTH;
    let mut moves_and_scores: Vec<(Coord, Score)> = Vec::new();
    if left > ENDGAME_LENGTH {
        let mut depth: usize = 1;
        while depth <= USUAL_DEPTH
            invariant
                my & opp == 0,
                moves == spec_valid_moves(my, opp),
                moves != 0,
                1 <= depth <= USUAL_DEPTH + 1,
                depth > 1 ==> moves_and_scores@.len() >= 1,
                depth > 1 ==> forall|i: int|
                    0 <= i < moves_and_scores@.len() ==> mid_entry_ok(
                        my,
                        opp,
                        moves,
                        (depth - 1) as nat,
                        #[trigger] moves_and_scores@[i],
                    ),
            decreases USUAL_DEPTH + 1 - depth,
        {
            ai_eval_with_depth(my, opp, depth, moves, &mut moves_and_scores);
            proof {
                vstd::std_specs::bits::axiom_u64_trailing_zeros(moves);
                let t = vstd::std_specs::bits::u64_trailing_zeros(moves) as u64;
                assert(bit64(moves, t));
                crate::bits::lemma_move_disk(moves, 0, t);
                crate::bits::lemma_pop64_remove_subset(moves, 1u64 << t);
                crate::bits::lemma_pop64_singleton(1u64 << t);
                assert(pop64(moves) >= 1);
            }
            depth = depth + 1;
        }
        proof {
            assert(depth == USUAL_DEPTH + 1);
        }
    } else {
        let mut nnodes: u64 = 0;
        ai_eval_till_end(my, opp, moves, &mut moves_and_scores, true, &mut nnodes);
    }
    proof {
        assert(moves_and_scores@.len() >= 1);
        assert forall|i: int| 0 <= i < moves_and_scores@.len() implies coord_legal(
            moves,
            (#[trigger] moves_and_scores@[i]).0,
        ) by {
            if phase_mid {
                assert(mid_entry_ok(
                    my,
                    opp,
                    moves,
                    USUAL_DEPTH as nat,
                    moves_and_scores@[i],
                ));
            } else {
                assert(end_entry_ok(my, opp, moves, moves_and_scores@[i]));
            }
        }
    }
    match select_best(&moves_and_scores) {
        Some(b) => {
            proof {
                let w = choose|w: int|
                    0 <= w < moves_and_scores@.len() && moves_and_scores@[w] == b;
                assert(coord_legal(moves, moves_and_scores@[w].0));
                assert(b == (b.0, b.1));
                assert(moves_and_scores@.contains((b.0, b.1)));
                assert(round_pick_ok(my, opp, b.0));
            }
            Some(b.0)
        },
        None => {
            proof {
                assert(false);
            }
            None
        },
    }
}

/// Raw fixed-depth verdict of a position, for diagnostics and tests:
/// the midgame search without jitter and without iterative deepening,
/// from the perspective of the side to move of `board`.
pub fn evaluate_to_depth(board: BitBoard, depth: usize) -> (r: Score)
    requires
        board.0 & board.1 == 0,
    ensures
        ({
            let my = if board.2 {
                board.0
            } else {
                board.1
            };
            let opp = if board.2 {
                board.1
            } else {
                board.0
            };
            r == spec_midgame(my, opp, depth as nat)
        }),
{
    let BitBoard(bl, wh, turn) = board;
    let my = if turn {
        bl
    } else {
        wh
    };
    let opp = if turn {
        wh
    } else {
        bl
    };
    proof {
        crate::bits::lemma_bit_comm(bl, wh);
    }
    crate::search::eval_to_depth(my, opp, depth)
}

} // verus!
