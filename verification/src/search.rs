//! Midgame search: fixed-depth negamax with pass handling.
//!
//! Every returned score speaks from the current mover's perspective.
//! A terminal position is worth its exact disc differential; a position
//! at depth zero is worth the static heuristic; a mover without a move
//! passes, consuming no depth; otherwise every legal move is tried and
//! the child verdict best for the mover — the smallest in the selection
//! order, ties going to the lowest square — is kept and negated.

use vstd::prelude::*;

use crate::bit_board::{move_bit_board, spec_move_my, spec_move_opp, spec_valid_moves,
    valid_moves_set};
use crate::bits::{bit64, lemma_pop64_bound, pop64};
use crate::eval::{lemma_board_eval_bound, my_board_eval, spec_board_eval};
use crate::score::{disk_to_coord, negate_score, score_lt, spec_negate_score, spec_score_lt, Coord,
    Score};

verus! {

/// Exact disc differential from the perspective of the side holding
/// `my`.
pub open spec fn spec_score_diff(my: u64, opp: u64) -> int {
    pop64(my) - pop64(opp)
}

/// A position is over when neither side has a legal move.
pub open spec fn spec_terminal(my: u64, opp: u64) -> bool {
    spec_valid_moves(my, opp) == 0 && spec_valid_moves(opp, my) == 0
}

/// Fixed-depth negamax value of the position for the side holding
/// `my`: the exact differential at terminal positions, the heuristic
/// at depth zero, and otherwise the negation of the best (smallest)
/// child verdict, where a mover without a move passes at full depth.
pub open spec fn spec_midgame(my: u64, opp: u64, depth: nat) -> Score
    decreases depth, (if spec_valid_moves(my, opp) == 0 { 2int } else { 1int }), 0int,
{
    let moves = spec_valid_moves(my, opp);
    if spec_terminal(my, opp) {
        Score::Ended(spec_score_diff(my, opp) as i16)
    } else if depth == 0 {
        Score::Running(spec_board_eval(my, opp) as i64)
    } else if moves == 0 {
        spec_negate_score(spec_midgame(opp, my, depth))
    } else {
        match spec_best_from(my, opp, moves, depth, 0, None) {
            Some(s) => spec_negate_score(s),
            None => Score::Ended(0),
        }
    }
}

/// Folds the child verdicts of the set bits of `moves` at and above
/// square `i` into `acc`, keeping the smallest in the selection order
/// and the lowest square on ties.
pub open spec fn spec_best_from(
    my: u64,
    opp: u64,
    moves: u64,
    depth: nat,
    i: int,
    acc: Option<Score>,
) -> Option<Score>
    decreases depth, 0int, 64 - i,
        when depth >= 1
{
    if i >= 64 {
        acc
    } else {
        let acc2 = if bit64(moves, i as u64) {
            let disk = 1u64 << (i as u64);
            let child = spec_midgame(
                spec_move_opp(my, opp, disk),
                spec_move_my(my, opp, disk),
                (depth - 1) as nat,
            );
            match acc {
                None => Some(child),
                Some(a) => if spec_score_lt(child, a) {
                    Some(child)
                } else {
                    Some(a)
                },
            }
        } else {
            acc
        };
        spec_best_from(my, opp, moves, depth, i + 1, acc2)
    }
}

/// The fold is unmoved across a gap of unset bits.
pub proof fn lemma_best_from_skip(
    my: u64,
    opp: u64,
    moves: u64,
    depth: nat,
    i: int,
    j: int,
    acc: Option<Score>,
)
    requires
        depth >= 1,
        0 <= i <= j <= 64,
        forall|k: int| i <= k < j ==> !(#[trigger] bit64(moves, k as u64)),
    ensures
        spec_best_from(my, opp, moves, depth, i, acc) == spec_best_from(
            my,
            opp,
            moves,
            depth,
            j,
            acc,
        ),
    decreases j - i,
{
    if i < j {
        assert(!bit64(moves, i as u64));
        lemma_best_from_skip(my, opp, moves, depth, i + 1, j, acc);
    }
}

/// Scores that the midgame search can actually produce: estimates
/// within the evaluator's range, exact values within one board.
pub open spec fn score_tight(s: Score) -> bool {
    match s {
        Score::Running(v) => -1100 <= v <= 1100,
        Score::Ended(e) => -64 <= e <= 64,
    }
}

/// Negation keeps a score tight.
proof fn lemma_negate_tight(s: Score)
    requires
        score_tight(s),
    ensures
        score_tight(spec_negate_score(s)),
        crate::score::score_in_range(s),
{
}

/// The midgame verdict is always tight.
pub proof fn lemma_midgame_tight(my: u64, opp: u64, depth: nat)
    ensures
        score_tight(spec_midgame(my, opp, depth)),
    decreases depth, (if spec_valid_moves(my, opp) == 0 { 2int } else { 1int }), 0int,
{
    let moves = spec_valid_moves(my, opp);
    if spec_terminal(my, opp) {
        lemma_pop64_bound(my);
        lemma_pop64_bound(opp);
    } else if depth == 0 {
        lemma_board_eval_bound(my, opp);
    } else if moves == 0 {
        lemma_midgame_tight(opp, my, depth);
        lemma_negate_tight(spec_midgame(opp, my, depth));
    } else {
        lemma_best_from_tight(my, opp, moves, depth, 0, None);
        match spec_best_from(my, opp, moves, depth, 0, None) {
            Some(s) => {
                lemma_negate_tight(s);
            },
            None => {},
        }
    }
}

/// The fold's verdict is tight whenever the accumulator is.
pub proof fn lemma_best_from_tight(
    my: u64,
    opp: u64,
    moves: u64,
    depth: nat,
    i: int,
    acc: Option<Score>,
)
    requires
        depth >= 1,
        acc matches Some(a) ==> score_tight(a),
    ensures
        spec_best_from(my, opp, moves, depth, i, acc) matches Some(r) ==> score_tight(r),
    decreases depth, 0int, 64 - i,
{
    if i < 64 {
        if bit64(moves, i as u64) {
            let disk = 1u64 << (i as u64);
            lemma_midgame_tight(spec_move_opp(my, opp, disk), spec_move_my(my, opp, disk), (depth
                - 1) as nat);
        }
        let acc2 = if bit64(moves, i as u64) {
            let disk = 1u64 << (i as u64);
            let child = spec_midgame(
                spec_move_opp(my, opp, disk),
                spec_move_my(my, opp, disk),
                (depth - 1) as nat,
            );
            match acc {
                None => Some(child),
                Some(a) => if spec_score_lt(child, a) {
                    Some(child)
                } else {
                    Some(a)
                },
            }
        } else {
            acc
        };
        lemma_best_from_tight(my, opp, moves, depth, i + 1, acc2);
    }
}

/// Negamax pass identity: when the mover has no legal move, the
/// verdict of the position equals the negated verdict of the position
/// with the sides swapped, at the same depth — the pass consumes no
/// depth.  The identity needs the mover to be out of moves: with moves
/// on both sides the two searches explore different trees (already the
/// mobility term of the evaluator breaks the symmetry).  At depth zero
/// it holds only for finished positions, whose verdict is exact.
pub proof fn lemma_pass_negamax(my: u64, opp: u64, depth: nat)
    requires
        spec_valid_moves(my, opp) == 0,
        depth >= 1 || spec_terminal(my, opp),
    ensures
        spec_midgame(my, opp, depth) == spec_negate_score(spec_midgame(opp, my, depth)),
{
    lemma_pop64_bound(my);
    lemma_pop64_bound(opp);
}

/// Legal moves lie on vacant squares.
pub proof fn lemma_valid_moves_vacant(bl: u64, wh: u64)
    ensures
        spec_valid_moves(bl, wh) & (bl | wh) == 0,
{
    assert(spec_valid_moves(bl, wh) & (bl | wh) == 0) by (bit_vector);
}

/// Clearing one set bit of a word clears that square and keeps every
/// other.
pub(crate) proof fn lemma_clear_bit(rest: u64, t: u64, j: u64)
    by (bit_vector)
    requires
        t < 64,
        (rest >> t) & 1 == 1,
    ensures
        bit64(rest ^ (1u64 << t), j) == (bit64(rest, j) && j != t),
        rest ^ (1u64 << t) < rest,
        rest ^ (1u64 << t) == rest & !(1u64 << t),
        (1u64 << t) & rest == 1u64 << t,
{
}

/// Negamax with pass handling, returning the verdict for the side
/// holding `my` together with the principal line found (deepest move
/// first, pass as square (8,8)).
fn ai_eval_iddfs_internal(my: u64, opp: u64, depth: usize) -> (r: (Score, Vec<Coord>))
    requires
        my & opp == 0,
    ensures
        r.0 == spec_midgame(my, opp, depth as nat),
    decreases depth, (if spec_valid_moves(my, opp) == 0 { 2int } else { 1int }),
{
    let moves = valid_moves_set(my, opp);
    let oppmoves = valid_moves_set(opp, my);
    if moves == 0 && oppmoves == 0 {
        proof {
            lemma_pop64_bound(my);
            lemma_pop64_bound(opp);
        }
        return (Score::Ended(crate::bit_board::get_score_diff(my, opp)), Vec::new());
    }
    if depth == 0 {
        return (Score::Running(my_board_eval(my, opp)), Vec::new());
    }
    if moves == 0 {
        proof {
            crate::bits::lemma_bit_comm(my, opp);
        }
        let (score, mut line) = ai_eval_iddfs_internal(opp, my, depth);
        proof {
            lemma_midgame_tight(opp, my, depth as nat);
            lemma_negate_tight(spec_midgame(opp, my, depth as nat));
        }
        line.push(Coord::new(8, 8));
        return (negate_score(score), line);
    }
    let mut best: Option<(Score, Vec<Coord>)> = None;
    let mut rest = moves;
    let ghost mut idx: int = 0;
    proof {
        lemma_valid_moves_vacant(my, opp);
    }
    while rest != 0
        invariant
            my & opp == 0,
            depth >= 1,
            moves == spec_valid_moves(my, opp),
            moves & (my | opp) == 0,
            0 <= idx <= 64,
            forall|j: u64| j < 64 ==> ((#[trigger] bit64(rest, j)) == (j as int >= idx && bit64(
                moves,
                j,
            ))),
            best matches Some(b) ==> spec_best_from(my, opp, moves, depth as nat, 0, None)
                == spec_best_from(my, opp, moves, depth as nat, idx, Some(b.0)),
            best is None ==> rest == moves && idx == 0,
        decreases rest,
    {
        let t: u32 = rest.trailing_zeros();
        proof {
            vstd::std_specs::bits::axiom_u64_trailing_zeros(rest);
        }
        let disk: u64 = 1u64 << (t as u64);
        proof {
            let tt = t as u64;
            assert(bit64(rest, tt));
            assert(bit64(moves, tt) && tt as int >= idx);
            crate::bits::lemma_move_disk(moves, my | opp, tt);
            assert forall|k: int| idx <= k < tt as int implies !(#[trigger] bit64(moves, k as u64)) by {
                assert((rest >> (k as u64)) & 1 == 0);
                assert(!bit64(rest, k as u64));
            }
            lemma_best_from_skip(
                my,
                opp,
                moves,
                depth as nat,
                idx,
                tt as int,
                match &best {
                    Some(b) => Some(b.0),
                    None => None,
                },
            );
        }
        let (nmy, nopp) = move_bit_board(my, opp, disk);
        proof {
            crate::bits::lemma_bit_comm(nmy, nopp);
        }
        let (child_score, mut child_line) = ai_eval_iddfs_internal(nopp, nmy, depth - 1);
        child_line.push(disk_to_coord(disk));
        let replace = match &best {
            None => true,
            Some(b) => score_lt(child_score, b.0),
        };
        proof {
            let tt = t as u64;
            let acc_old: Option<Score> = match &best {
                Some(b) => Some(b.0),
                None => None,
            };
            let child = spec_midgame(
                spec_move_opp(my, opp, disk),
                spec_move_my(my, opp, disk),
                (depth - 1) as nat,
            );
            let acc2: Option<Score> = match acc_old {
                None => Some(child),
                Some(a) => if spec_score_lt(child, a) {
                    Some(child)
                } else {
                    Some(a)
                },
            };
            assert(child_score == child);
            assert(spec_best_from(my, opp, moves, depth as nat, tt as int, acc_old)
                == spec_best_from(my, opp, moves, depth as nat, tt as int + 1, acc2));
            assert forall|j: u64| j < 64 implies ((#[trigger] bit64(rest ^ disk, j)) == (j as int
                >= tt as int + 1 && bit64(moves, j))) by {
                lemma_clear_bit(rest, tt, j);
                if j < tt {
                    assert((rest >> j) & 1 == 0);
                }
            }
            lemma_clear_bit(rest, tt, tt);
            idx = tt as int + 1;
        }
        if replace {
            best = Some((child_score, child_line));
        }
        rest = rest ^ disk;
    }
    proof {
        assert forall|k: int| idx <= k < 64 implies !(#[trigger] bit64(moves, k as u64)) by {
            let ku = k as u64;
            crate::bits::lemma_zero_bits(rest, ku);
            assert(!bit64(rest, ku));
        }
        match &best {
            Some(b) => {
                lemma_best_from_skip(my, opp, moves, depth as nat, idx, 64, Some(b.0));
                lemma_best_from_tight(my, opp, moves, depth as nat, 0, None);
            },
            None => {
                vstd::std_specs::bits::axiom_u64_trailing_zeros(moves);
                assert(bit64(moves, vstd::std_specs::bits::u64_trailing_zeros(moves) as u64));
            },
        }
    }
    match best {
        Some((s, line)) => (negate_score(s), line),
        None => (Score::Ended(0), Vec::new()),
    }
}

/// Fixed-depth verdict of a position without jitter, for the
/// diagnostic entry point.
pub(crate) fn eval_to_depth(my: u64, opp: u64, depth: usize) -> (r: Score)
    requires
        my & opp == 0,
    ensures
        r == spec_midgame(my, opp, depth as nat),
{
    let (score, _line) = ai_eval_iddfs_internal(my, opp, depth);
    score
}

/// Multiplicative jitter: the magnitude of `v` scaled by `j` per
/// mille, the sign kept.
pub open spec fn spec_jitter(v: int, j: int) -> int {
    if v >= 0 {
        (v * j) / 1000
    } else {
        -(((-v) * j) / 1000)
    }
}

/// Relies on rand::random_range: a uniform sample from an inclusive
/// range lies within its bounds.
#[verifier::external_body]
fn random_jitter_factor() -> (r: u64)
    ensures
        950 <= r <= 1050,
{
    rand::random_range(950u64..=1050u64)
}

/// Midgame verdict with leaf jitter: an exact (`Ended`) verdict is
/// returned untouched; a heuristic verdict is scaled by an independent
/// uniform random factor within five per cent, to break ties between
/// near-equal lines.  The principal line is returned root move first.
pub fn ai_eval_iddfs(my: u64, opp: u64, depth: usize) -> (r: (Score, Vec<Coord>))
    requires
        my & opp == 0,
    ensures
        (spec_midgame(my, opp, depth as nat) matches Score::Ended(e) ==> r.0 == spec_midgame(
            my,
            opp,
            depth as nat,
        )),
        (spec_midgame(my, opp, depth as nat) matches Score::Running(v) ==> exists|j: int|
            950 <= j <= 1050 && r.0 == Score::Running(spec_jitter(v as int, j) as i64)),
{
    let (score, line) = ai_eval_iddfs_internal(my, opp, depth);
    proof {
        lemma_midgame_tight(my, opp, depth as nat);
    }
    let out = match score {
        Score::Running(val) => {
            proof {
                assert(-1100 <= val <= 1100);
            }
            let j = random_jitter_factor();
            let neg = val < 0;
            let mag: u64 = if neg {
                (-val) as u64
            } else {
                val as u64
            };
            proof {
                assert(mag * j <= 1100 * 1050) by (nonlinear_arith)
                    requires
                        0 <= mag <= 1100 && 0 <= j <= 1050,
                ;
            }
            let scaled: u64 = mag * j / 1000;
            let jittered: i64 = if neg {
                -(scaled as i64)
            } else {
                scaled as i64
            };
            proof {
                let jw = j as int;
                assert(950 <= jw <= 1050 && jittered == spec_jitter(val as int, jw));
            }
            Score::Running(jittered)
        },
        _ => score,
    };
    let rline = reverse_line(line);
    (out, rline)
}

/// The moves of a line, deepest first, turned root move first.
fn reverse_line(line: Vec<Coord>) -> (r: Vec<Coord>)
    ensures
        r@.len() == line@.len(),
        forall|i: int| 0 <= i < line@.len() ==> r@[i] == line@[line@.len() - 1 - i],
{
    let mut r: Vec<Coord> = Vec::new();
    let mut i: usize = line.len();
    while i > 0
        invariant
            i <= line@.len(),
            r@.len() == line@.len() - i,
            forall|k: int| 0 <= k < r@.len() ==> r@[k] == line@[line@.len() - 1 - k],
        decreases i,
    {
        i = i - 1;
        r.push(line[i]);
    }
    r
}

} // verus!
