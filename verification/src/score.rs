//! Search scores and board coordinates.
//!
//! A score is either `Running` — a heuristic estimate, comparable only
//! within one search — or `Ended` — a proven final disc differential
//! from the mover's perspective.  For move selection a proven
//! non-losing outcome beats every estimate, an estimate beats a proven
//! loss, and within one kind the numeric value decides.  Scores of a
//! child position speak for the opponent, so the selection loops keep
//! the smallest child score.

use vstd::prelude::*;

use crate::bit_board::singleton_or_empty;

verus! {

/// A search verdict from the mover's perspective: a heuristic estimate
/// in half-disc units, or an exact final disc differential.
#[derive(Clone, Copy, Debug, PartialEq, Eq, Structural)]
pub enum Score {
    Running(i64),
    Ended(i16),
}

/// A board square by row and column; row 8, column 8 stands for a pass.
#[derive(Clone, Copy, Debug, PartialEq, Eq, Structural)]
pub struct Coord {
    pub row: usize,
    pub col: usize,
}

impl Coord {
    /// A coordinate from row and column indices.
    pub fn new(row: usize, col: usize) -> (c: Coord)
        ensures
            c.row == row && c.col == col,
    {
        Coord { row, col }
    }

    /// The row and column of this coordinate.
    pub fn get_row_col(&self) -> (rc: (usize, usize))
        ensures
            rc.0 == self.row && rc.1 == self.col,
    {
        (self.row, self.col)
    }
}

/// The board coordinate of a single disc, or the pass coordinate for
/// an empty set.
pub fn disk_to_coord(disk: u64) -> (c: Coord)
    requires
        singleton_or_empty(disk),
    ensures
        disk == 0 ==> c.row == 8 && c.col == 8,
        disk != 0 ==> c.row < 8 && c.col < 8 && disk == (1u64 << ((8 * c.row + c.col) as u64)),
{
    if disk == 0 {
        return Coord::new(8, 8);
    }
    let idx = disk.trailing_zeros();
    proof {
        vstd::std_specs::bits::axiom_u64_trailing_zeros(disk);
        let t = vstd::std_specs::bits::u64_trailing_zeros(disk) as u64;
        assert(disk == 1u64 << t) by (bit_vector)
            requires
                disk != 0 && disk & ((disk - 1) as u64) == 0 && t < 64 && (disk >> t) & 1u64
                    == 1u64,
        ;
    }
    Coord::new((idx / 8) as usize, (idx % 8) as usize)
}

/// The mirror image of a score: the same verdict seen by the other
/// side.
pub open spec fn spec_negate_score(s: Score) -> Score {
    match s {
        Score::Running(v) => Score::Running((0 - v) as i64),
        Score::Ended(d) => Score::Ended((0 - d) as i16),
    }
}

/// In-range scores, whose negation stays representable.
pub open spec fn score_in_range(s: Score) -> bool {
    match s {
        Score::Running(v) => -10000 <= v <= 10000,
        Score::Ended(d) => -10000 <= d <= 10000,
    }
}

/// Negates a score, turning the mover's verdict into the opponent's.
pub fn negate_score(s: Score) -> (r: Score)
    requires
        score_in_range(s),
    ensures
        r == spec_negate_score(s),
{
    match s {
        Score::Running(f) => Score::Running(-f),
        Score::Ended(d) => Score::Ended(-d),
    }
}

/// Rank of a child score as seen by the side about to pick a move: a
/// proven opponent loss or draw comes first, estimates next, a proven
/// opponent win last.
pub open spec fn score_class(s: Score) -> int {
    match s {
        Score::Ended(e) => if e <= 0 {
            0
        } else {
            2
        },
        Score::Running(_) => 1,
    }
}

/// The numeric component of a score.
pub open spec fn score_val(s: Score) -> int {
    match s {
        Score::Running(v) => v as int,
        Score::Ended(e) => e as int,
    }
}

/// Total selection order on child scores: smaller is better for the
/// side that is about to pick the move leading to the child.
pub open spec fn spec_score_le(a: Score, b: Score) -> bool {
    score_class(a) < score_class(b) || (score_class(a) == score_class(b) && score_val(a)
        <= score_val(b))
}

/// Strict selection order on child scores.
pub open spec fn spec_score_lt(a: Score, b: Score) -> bool {
    spec_score_le(a, b) && a != b
}

/// Compares two child scores in the selection order.
pub fn score_le(a: Score, b: Score) -> (r: bool)
    ensures
        r == spec_score_le(a, b),
{
    let ca: i32 = match a {
        Score::Ended(e) => if e <= 0 {
            0
        } else {
            2
        },
        Score::Running(_) => 1,
    };
    let cb: i32 = match b {
        Score::Ended(e) => if e <= 0 {
            0
        } else {
            2
        },
        Score::Running(_) => 1,
    };
    if ca != cb {
        ca < cb
    } else {
        let va: i64 = match a {
            Score::Running(v) => v,
            Score::Ended(e) => e as i64,
        };
        let vb: i64 = match b {
            Score::Running(v) => v,
            Score::Ended(e) => e as i64,
        };
        va <= vb
    }
}

/// Strict comparison in the selection order.
pub fn score_lt(a: Score, b: Score) -> (r: bool)
    ensures
        r == spec_score_lt(a, b),
{
    score_le(a, b) && !(a == b)
}

/// The selection order is total.
pub proof fn lemma_score_order_total(a: Score, b: Score)
    ensures
        spec_score_le(a, b) || spec_score_le(b, a),
{
}

} // verus!
