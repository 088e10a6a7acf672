//! Static heuristic evaluation of a non-terminal position.
//!
//! The score, in half-disc units from the mover's perspective, is the
//! mover's mobility plus an edge-pattern term for each of the four
//! board edges: patterns holding a corner are rewarded in proportion to
//! their discs (doubly so with both corners), cornerless patterns are
//! penalized per disc, and extra for the two squares beside an empty
//! corner.

use vstd::prelude::*;

use crate::bit_board::{spec_valid_moves, valid_moves_set};
use crate::bits::{bit64, lemma_pop64_bound, pop64, pop_nat, popcount};

verus! {

/// Edge-pattern score, in half-disc units, of one side's 8-bit edge
/// occupancy.  Bits 0 and 7 are the corners; bits 1 and 6 are the
/// squares beside them.
pub open spec fn spec_eval_edge(pat: u8) -> int {
    let corners = pat & 0x81;
    if corners == 0x81 {
        16 * (pop_nat(pat as nat) as int)
    } else if corners == 0x01 || corners == 0x80 {
        8 * (pop_nat(pat as nat) as int)
    } else {
        -2 * (pop_nat(pat as nat) as int) - 4 * (pop_nat((pat & 0x42) as nat) as int)
    }
}

/// An eight-bit pattern holds at most eight discs.
proof fn lemma_pop8_bound(pat: u8)
    ensures
        pop_nat(pat as nat) <= 8,
{
    assert(pat < vstd::arithmetic::power2::pow2(8)) by {
        vstd::arithmetic::power2::lemma2_to64();
    }
    crate::bits::lemma_pop_nat_bound(pat as nat, 8);
}

/// Edge-pattern score of one side's edge occupancy.
fn eval_edge(pat: u8) -> (v: i64)
    ensures
        v == spec_eval_edge(pat),
        -128 <= v <= 128,
{
    proof {
        lemma_pop8_bound(pat);
        lemma_pop8_bound(pat & 0x42);
    }
    proof {
        let p = pat;
        assert(p & 0x81 == 0 || p & 0x81 == 0x01 || p & 0x81 == 0x80 || p & 0x81 == 0x81)
            by (bit_vector);
    }
    let cnt = popcount(pat as u64) as i64;
    let corner_cnt = popcount((pat & 0x42) as u64) as i64;
    proof {
        assert(pop64(pat as u64) == pop_nat(pat as nat));
        assert(pop64((pat & 0x42) as u64) == pop_nat((pat & 0x42) as nat));
        assert(0 <= cnt <= 8 && 0 <= corner_cnt <= 8);
    }
    match pat & 0x81 {
        0x00 => -2 * cnt - 4 * corner_cnt,
        0x01 => cnt * 8,
        0x80 => cnt * 8,
        0x81 => cnt * 16,
        _ => 0,
    }
}

/// One side's occupancy of the eight squares starting at `s` with
/// stride `d`, as an 8-bit pattern: bit `i` of the pattern is square
/// `s + i*d`.
pub open spec fn spec_edge_pat(b: u64, s: u64, d: u64, n: nat) -> u8
    decreases n,
{
    if n == 0 {
        0
    } else {
        let prev = spec_edge_pat(b, s, d, (n - 1) as nat);
        if bit64(b, (s + (n - 1) * d) as u64) {
            prev | (1u8 << ((n - 1) as u8))
        } else {
            prev
        }
    }
}

/// Reads one side's edge occupancy into an 8-bit pattern.
fn edge_pat(b: u64, s: u64, d: u64) -> (pat: u8)
    requires
        d == 1 || d == 8,
        s + 7 * d < 64,
    ensures
        pat == spec_edge_pat(b, s, d, 8),
{
    let mut pat: u8 = 0;
    let mut i: u64 = 0;
    while i < 8
        invariant
            i <= 8,
            d == 1 || d == 8,
            s + 7 * d < 64,
            pat == spec_edge_pat(b, s, d, i as nat),
        decreases 8 - i,
    {
        let idx = s + i * d;
        if (b >> idx) & 1 == 1 {
            pat = pat | (1u8 << (i as u8));
        }
        i = i + 1;
    }
    pat
}

/// Heuristic score of the position, in half-disc units, from the
/// perspective of the side holding `my`: mobility plus the edge terms
/// of the four board edges.
pub open spec fn spec_edge_term(my: u64, opp: u64, s: u64, d: u64) -> int {
    spec_eval_edge(spec_edge_pat(my, s, d, 8)) - spec_eval_edge(spec_edge_pat(opp, s, d, 8))
}

/// Heuristic score of the position for the side holding `my`.
pub open spec fn spec_board_eval(my: u64, opp: u64) -> int {
    pop64(spec_valid_moves(my, opp)) + spec_edge_term(my, opp, 0, 1) + spec_edge_term(
        my,
        opp,
        0,
        8,
    ) + spec_edge_term(my, opp, 7, 8) + spec_edge_term(my, opp, 56, 1)
}

/// The heuristic stays within rough bounds: mobility is at most 64 and
/// each edge term at most 256 half-units either way.
pub proof fn lemma_board_eval_bound(my: u64, opp: u64)
    ensures
        -1100 <= spec_board_eval(my, opp) <= 1100,
{
    lemma_pop64_bound(spec_valid_moves(my, opp));
    lemma_edge_term_bound(my, opp, 0, 1);
    lemma_edge_term_bound(my, opp, 0, 8);
    lemma_edge_term_bound(my, opp, 7, 8);
    lemma_edge_term_bound(my, opp, 56, 1);
}

/// Each side's edge score lies within 128 half-units.
proof fn lemma_edge_term_bound(my: u64, opp: u64, s: u64, d: u64)
    ensures
        -256 <= spec_edge_term(my, opp, s, d) <= 256,
{
    lemma_eval_edge_bound(spec_edge_pat(my, s, d, 8));
    lemma_eval_edge_bound(spec_edge_pat(opp, s, d, 8));
}

/// The pattern score of a single edge lies within 128 half-units.
proof fn lemma_eval_edge_bound(pat: u8)
    ensures
        -128 <= spec_eval_edge(pat) <= 128,
{
    lemma_pop8_bound(pat);
    lemma_pop8_bound(pat & 0x42);
}

/// Heuristic score of the position for the side holding `my`, used at
/// search depth cutoffs only.
pub fn my_board_eval(my: u64, opp: u64) -> (v: i64)
    ensures
        v == spec_board_eval(my, opp),
        -1100 <= v <= 1100,
{
    proof {
        lemma_board_eval_bound(my, opp);
        lemma_pop64_bound(spec_valid_moves(my, opp));
    }
    let mylegit = popcount(valid_moves_set(my, opp)) as i64;
    let mut val: i64 = mylegit;
    val = val + eval_edge(edge_pat(my, 0, 1)) - eval_edge(edge_pat(opp, 0, 1));
    val = val + eval_edge(edge_pat(my, 0, 8)) - eval_edge(edge_pat(opp, 0, 8));
    val = val + eval_edge(edge_pat(my, 7, 8)) - eval_edge(edge_pat(opp, 7, 8));
    val = val + eval_edge(edge_pat(my, 56, 1)) - eval_edge(edge_pat(opp, 56, 1));
    val
}

} // verus!
