//! Bitboard representation of an 8x8 Reversi position.
//!
//! A position is two disjoint `u64` occupancy sets, bit `i` standing for
//! square `i` in row-major order, plus a side-to-move flag.  Move
//! generation propagates a side's influence through contiguous runs of
//! enemy discs in the four axis directions at once (doubling the
//! propagation distance each step), and move application walks the eight
//! compass directions from the placed disc, flipping every enclosed run.

use vstd::prelude::*;

use crate::bits::{lemma_pop64_bound, lemma_pop64_disjoint_union, lemma_pop64_remove_subset, pop64,
    popcount};

verus! {

/// Occupancy of the dark side, occupancy of the light side, and whether
/// it is the dark side's turn.
#[derive(Clone, Copy)]
pub struct BitBoard(pub u64, pub u64, pub bool);

/// Mask of the six inner columns; runs along a direction with a
/// horizontal component may not start or continue on the outer columns,
/// which forbids wraparound across the board edge.
pub const INNER_COLUMNS: u64 = 0x7e7e7e7e7e7e7e7e;

/// Disc difference, first side minus second side.
pub fn get_score_diff(light: u64, dark: u64) -> (d: i16)
    ensures
        d == pop64(light) - pop64(dark),
{
    proof {
        lemma_pop64_bound(light);
        lemma_pop64_bound(dark);
    }
    popcount(light) as i16 - popcount(dark) as i16
}

/// Number of discs on the board, which is the number of plies played
/// plus the four discs of the initial position.
pub fn get_tempo(light: u64, dark: u64) -> (t: i16)
    ensures
        t == pop64(light) + pop64(dark),
{
    proof {
        lemma_pop64_bound(light);
        lemma_pop64_bound(dark);
    }
    popcount(light) as i16 + popcount(dark) as i16
}

/// One propagation pass of the move generator: squares reachable from a
/// disc of `my` through a contiguous run (of length 1 to 6) of bits of
/// `mask`, stepping `dir` places per square either up or down the word.
pub open spec fn spec_vm_dir(my: u64, mask: u64, dir: u64) -> u64 {
    let dir2 = (dir + dir) as u64;
    let fl1 = mask & (my << dir);
    let fr1 = mask & (my >> dir);
    let fl2 = fl1 | (mask & (fl1 << dir));
    let fr2 = fr1 | (mask & (fr1 >> dir));
    let maskl = mask & (mask << dir);
    let maskr = mask & (mask >> dir);
    let fl3 = fl2 | (maskl & (fl2 << dir2));
    let fr3 = fr2 | (maskr & (fr2 >> dir2));
    let fl4 = fl3 | (maskl & (fl3 << dir2));
    let fr4 = fr3 | (maskr & (fr3 >> dir2));
    (fl4 << dir) | (fr4 >> dir)
}

/// Candidate squares one step beyond every maximal run of `mask` discs
/// adjacent to a disc of `my`, along the axis stepping `dir` places.
fn vm_sub_mo(my: u64, mask: u64, dir: u64) -> (r: u64)
    requires
        dir == 1 || dir == 7 || dir == 8 || dir == 9,
    ensures
        r == spec_vm_dir(my, mask, dir),
{
    let dir2: u64 = dir + dir;
    let fl1 = mask & (my << dir);
    let fr1 = mask & (my >> dir);
    let fl2 = fl1 | (mask & (fl1 << dir));
    let fr2 = fr1 | (mask & (fr1 >> dir));
    let maskl = mask & (mask << dir);
    let maskr = mask & (mask >> dir);
    let fl3 = fl2 | (maskl & (fl2 << dir2));
    let fr3 = fr2 | (maskr & (fr2 >> dir2));
    let fl4 = fl3 | (maskl & (fl3 << dir2));
    let fr4 = fr3 | (maskr & (fr3 >> dir2));
    (fl4 << dir) | (fr4 >> dir)
}

/// The set of legal moves of the side holding `bl` against the side
/// holding `wh`: the union of the four axis passes, restricted to
/// vacant squares.
pub open spec fn spec_valid_moves(bl: u64, wh: u64) -> u64 {
    let mask = wh & INNER_COLUMNS;
    (spec_vm_dir(bl, mask, 1) | spec_vm_dir(bl, wh, 8) | spec_vm_dir(bl, mask, 7) | spec_vm_dir(
        bl,
        mask,
        9,
    )) & !(bl | wh)
}

/// Set of squares on which the side holding `bl` may legally place a
/// disc against the side holding `wh`.
pub fn valid_moves_set(bl: u64, wh: u64) -> (r: u64)
    ensures
        r == spec_valid_moves(bl, wh),
{
    let mask = wh & INNER_COLUMNS;
    let r1 = vm_sub_mo(bl, mask, 1);
    let r2 = vm_sub_mo(bl, wh, 8);
    let r3 = vm_sub_mo(bl, mask, 7);
    let r4 = vm_sub_mo(bl, mask, 9);
    (r1 | r2 | r3 | r4) & !(bl | wh)
}

/// Which way a compass step moves through the word.
#[derive(Clone, Copy)]
pub enum Dir {
    Left,
    Right,
}

/// One compass direction: the shift sense, the mask of squares from
/// which a step in this direction stays on the board, and the shift
/// distance.
#[derive(Clone, Copy)]
pub struct Transfer(pub Dir, pub u64, pub u64);

/// A transfer must shift by one to nine places, so repeated shifts stay
/// defined.
pub open spec fn trans_wf(t: Transfer) -> bool {
    0 < t.2 <= 9
}

/// One step of a bit set along a compass direction.
pub open spec fn spec_trans_op(t: Transfer, x: u64) -> u64 {
    match t.0 {
        Dir::Left => (x & t.1) << t.2,
        Dir::Right => (x & t.1) >> t.2,
    }
}

/// Moves every disc of `x` one step along the direction `trans`,
/// dropping discs that would leave the board.
pub(crate) fn trans_op(trans: Transfer, x: u64) -> (r: u64)
    requires
        trans_wf(trans),
    ensures
        r == spec_trans_op(trans, x),
{
    let Transfer(dir, mask, sh) = trans;
    match dir {
        Dir::Left => (x & mask) << sh,
        Dir::Right => (x & mask) >> sh,
    }
}

/// `x` holds at most one disc.
pub open spec fn singleton_or_empty(x: u64) -> bool {
    x & ((x - 1) as u64) == 0
}

/// Walk measure: a single disc stepped leftward strictly grows the
/// word, stepped rightward strictly shrinks it, and vanishes when it
/// walks off the board.
pub open spec fn walk_measure(t: Transfer, mask: u64) -> int {
    if mask == 0 {
        0
    } else {
        match t.0 {
            Dir::Left => 1 + (u64::MAX - mask),
            Dir::Right => 1 + mask,
        }
    }
}

/// Whether a walk that starts on `mask` and runs through discs of `opp`
/// ends on a disc of `my` (rather than on a vacant square or off the
/// board).
pub open spec fn walk_hits_mine(t: Transfer, my: u64, opp: u64, mask: u64) -> bool
    decreases walk_measure(t, mask),
        when trans_wf(t) && singleton_or_empty(mask)
        via walk_hits_mine_decreases
{
    if mask == 0 {
        false
    } else if mask & opp == 0 {
        mask & my != 0
    } else {
        walk_hits_mine(t, my, opp, spec_trans_op(t, mask))
    }
}

#[via_fn]
proof fn walk_hits_mine_decreases(t: Transfer, my: u64, opp: u64, mask: u64) {
    lemma_walk_step(t, mask);
}

/// The run of `opp` discs that the walk crosses before it stops.
pub open spec fn run_discs(t: Transfer, opp: u64, mask: u64) -> u64
    decreases walk_measure(t, mask),
        when trans_wf(t) && singleton_or_empty(mask)
        via run_discs_decreases
{
    if mask == 0 {
        0
    } else if mask & opp == 0 {
        0
    } else {
        mask | run_discs(t, opp, spec_trans_op(t, mask))
    }
}

#[via_fn]
proof fn run_discs_decreases(t: Transfer, opp: u64, mask: u64) {
    lemma_walk_step(t, mask);
}

/// A stepped single disc stays single and strictly advances the walk
/// measure.
pub(crate) proof fn lemma_walk_step(t: Transfer, mask: u64)
    requires
        trans_wf(t),
        singleton_or_empty(mask),
    ensures
        singleton_or_empty(spec_trans_op(t, mask)),
        mask != 0 ==> walk_measure(t, spec_trans_op(t, mask)) < walk_measure(t, mask),
{
    let m = t.1;
    let sh = t.2;
    match t.0 {
        Dir::Left => {
            assert(((mask & m) << sh) & ((((mask & m) << sh) - 1) as u64) == 0 && (mask != 0 && ((
            mask & m) << sh) != 0 ==> ((mask & m) << sh) > mask)) by (bit_vector)
                requires
                    mask & ((mask - 1) as u64) == 0 && 0 < sh <= 9,
            ;
        },
        Dir::Right => {
            assert(((mask & m) >> sh) & ((((mask & m) >> sh) - 1) as u64) == 0 && (mask != 0 && ((
            mask & m) >> sh) != 0 ==> ((mask & m) >> sh) < mask)) by (bit_vector)
                requires
                    mask & ((mask - 1) as u64) == 0 && 0 < sh <= 9,
            ;
        },
    }
}

/// Flip set contributed by one compass direction for a disc placed on
/// `disk`: the crossed run if the walk ends on an own disc, nothing
/// otherwise.
pub open spec fn spec_flips_in_dir(t: Transfer, my: u64, opp: u64, disk: u64) -> u64 {
    if walk_hits_mine(t, my, opp, spec_trans_op(t, disk)) {
        run_discs(t, opp, spec_trans_op(t, disk))
    } else {
        0
    }
}

/// Every disc the walk crosses is an `opp` disc.
pub(crate) proof fn lemma_run_discs_subset(t: Transfer, opp: u64, mask: u64)
    requires
        trans_wf(t),
        singleton_or_empty(mask),
    ensures
        run_discs(t, opp, mask) & !opp == 0,
    decreases walk_measure(t, mask),
{
    if mask == 0 || mask & opp == 0 {
        crate::bits::lemma_zero_bits(opp, 0);
    } else {
        lemma_walk_step(t, mask);
        lemma_run_discs_subset(t, opp, spec_trans_op(t, mask));
        let rest = run_discs(t, opp, spec_trans_op(t, mask));
        assert((mask | rest) & !opp == 0) by (bit_vector)
            requires
                mask & opp != 0 && mask & ((mask - 1) as u64) == 0 && rest & !opp == 0,
        ;
    }
}

/// Squares flipped in the direction `trans` by placing a disc of `my`
/// on the single square `disk`.
pub(crate) fn flippable_indices_in_dir(trans: Transfer, my: u64, opp: u64, disk: u64) -> (r: u64)
    requires
        trans_wf(trans),
        singleton_or_empty(disk),
    ensures
        r == spec_flips_in_dir(trans, my, opp, disk),
{
    let ma = trans_op(trans, disk);
    let mut rev: u64 = 0;
    let mut mask = ma;
    proof {
        lemma_walk_step(trans, disk);
        let r0 = run_discs(trans, opp, ma);
        crate::bits::lemma_zero_bits(r0, 0);
    }
    while mask != 0
        invariant
            trans_wf(trans),
            singleton_or_empty(mask),
            walk_hits_mine(trans, my, opp, ma) == walk_hits_mine(trans, my, opp, mask),
            rev | run_discs(trans, opp, mask) == run_discs(trans, opp, ma),
        ensures
            mask == 0 || mask & opp == 0,
        decreases walk_measure(trans, mask),
    {
        if (mask & opp) == 0 {
            break ;
        }
        proof {
            lemma_walk_step(trans, mask);
            let rs = run_discs(trans, opp, spec_trans_op(trans, mask));
            assert(rev | (mask | rs) == (rev | mask) | rs) by (bit_vector);
        }
        rev = rev | mask;
        mask = trans_op(trans, mask);
    }
    proof {
        let ra = run_discs(trans, opp, ma);
        if mask == 0 {
            crate::bits::lemma_zero_bits(my, 0);
            crate::bits::lemma_zero_bits(opp, 0);
        }
        assert(run_discs(trans, opp, mask) == 0);
        crate::bits::lemma_zero_bits(rev, 0);
        assert(rev == ra);
    }
    if (mask & my) != 0 {
        rev
    } else {
        0
    }
}

/// Full flip set of placing a disc of `my` on the single square `disk`:
/// the union of the eight compass directions.
pub open spec fn spec_flip_set(my: u64, opp: u64, disk: u64) -> u64 {
    spec_flips_in_dir(Transfer(Dir::Right, 0xffffffffffffff00, 8), my, opp, disk)
        | spec_flips_in_dir(Transfer(Dir::Right, 0xfefefefefefefe00, 9), my, opp, disk)
        | spec_flips_in_dir(Transfer(Dir::Right, 0x7f7f7f7f7f7f7f00, 7), my, opp, disk)
        | spec_flips_in_dir(Transfer(Dir::Right, 0xfefefefefefefefe, 1), my, opp, disk)
        | spec_flips_in_dir(Transfer(Dir::Left, 0x7f7f7f7f7f7f7f7f, 1), my, opp, disk)
        | spec_flips_in_dir(Transfer(Dir::Left, 0x00fefefefefefefe, 7), my, opp, disk)
        | spec_flips_in_dir(Transfer(Dir::Left, 0x007f7f7f7f7f7f7f, 9), my, opp, disk)
        | spec_flips_in_dir(Transfer(Dir::Left, 0x00ffffffffffffff, 8), my, opp, disk)
}

/// All discs flipped by placing a disc of `my` on the single square
/// `disk`.
pub(crate) fn flippable_indice_set(my: u64, opp: u64, disk: u64) -> (r: u64)
    requires
        singleton_or_empty(disk),
    ensures
        r == spec_flip_set(my, opp, disk),
{
    let up = flippable_indices_in_dir(Transfer(Dir::Right, 0xffffffffffffff00, 8), my, opp, disk);
    let up_left = flippable_indices_in_dir(
        Transfer(Dir::Right, 0xfefefefefefefe00, 9),
        my,
        opp,
        disk,
    );
    let up_right = flippable_indices_in_dir(
        Transfer(Dir::Right, 0x7f7f7f7f7f7f7f00, 7),
        my,
        opp,
        disk,
    );
    let left = flippable_indices_in_dir(Transfer(Dir::Right, 0xfefefefefefefefe, 1), my, opp, disk);
    let right = flippable_indices_in_dir(Transfer(Dir::Left, 0x7f7f7f7f7f7f7f7f, 1), my, opp, disk);
    let down_left = flippable_indices_in_dir(
        Transfer(Dir::Left, 0x00fefefefefefefe, 7),
        my,
        opp,
        disk,
    );
    let down_right = flippable_indices_in_dir(
        Transfer(Dir::Left, 0x007f7f7f7f7f7f7f, 9),
        my,
        opp,
        disk,
    );
    let down = flippable_indices_in_dir(Transfer(Dir::Left, 0x00ffffffffffffff, 8), my, opp, disk);
    up | up_left | up_right | left | right | down_left | down_right | down
}

/// The flip set of one direction crosses only enemy discs.
proof fn lemma_flips_in_dir_subset(t: Transfer, my: u64, opp: u64, disk: u64)
    requires
        trans_wf(t),
        singleton_or_empty(disk),
    ensures
        spec_flips_in_dir(t, my, opp, disk) & !opp == 0,
{
    lemma_walk_step(t, disk);
    lemma_run_discs_subset(t, opp, spec_trans_op(t, disk));
    crate::bits::lemma_zero_bits(opp, 0);
}

/// The flip set crosses only enemy discs.
pub(crate) proof fn lemma_flip_set_subset(my: u64, opp: u64, disk: u64)
    requires
        singleton_or_empty(disk),
    ensures
        spec_flip_set(my, opp, disk) & !opp == 0,
{
    lemma_flips_in_dir_subset(Transfer(Dir::Right, 0xffffffffffffff00, 8), my, opp, disk);
    lemma_flips_in_dir_subset(Transfer(Dir::Right, 0xfefefefefefefe00, 9), my, opp, disk);
    lemma_flips_in_dir_subset(Transfer(Dir::Right, 0x7f7f7f7f7f7f7f00, 7), my, opp, disk);
    lemma_flips_in_dir_subset(Transfer(Dir::Right, 0xfefefefefefefefe, 1), my, opp, disk);
    lemma_flips_in_dir_subset(Transfer(Dir::Left, 0x7f7f7f7f7f7f7f7f, 1), my, opp, disk);
    lemma_flips_in_dir_subset(Transfer(Dir::Left, 0x00fefefefefefefe, 7), my, opp, disk);
    lemma_flips_in_dir_subset(Transfer(Dir::Left, 0x007f7f7f7f7f7f7f, 9), my, opp, disk);
    lemma_flips_in_dir_subset(Transfer(Dir::Left, 0x00ffffffffffffff, 8), my, opp, disk);
    let f0 = spec_flips_in_dir(Transfer(Dir::Right, 0xffffffffffffff00, 8), my, opp, disk);
    let f1 = spec_flips_in_dir(Transfer(Dir::Right, 0xfefefefefefefe00, 9), my, opp, disk);
    let f2 = spec_flips_in_dir(Transfer(Dir::Right, 0x7f7f7f7f7f7f7f00, 7), my, opp, disk);
    let f3 = spec_flips_in_dir(Transfer(Dir::Right, 0xfefefefefefefefe, 1), my, opp, disk);
    let f4 = spec_flips_in_dir(Transfer(Dir::Left, 0x7f7f7f7f7f7f7f7f, 1), my, opp, disk);
    let f5 = spec_flips_in_dir(Transfer(Dir::Left, 0x00fefefefefefefe, 7), my, opp, disk);
    let f6 = spec_flips_in_dir(Transfer(Dir::Left, 0x007f7f7f7f7f7f7f, 9), my, opp, disk);
    let f7 = spec_flips_in_dir(Transfer(Dir::Left, 0x00ffffffffffffff, 8), my, opp, disk);
    assert((f0 | f1 | f2 | f3 | f4 | f5 | f6 | f7) & !opp == 0) by (bit_vector)
        requires
            f0 & !opp == 0 && f1 & !opp == 0 && f2 & !opp == 0 && f3 & !opp == 0 && f4 & !opp == 0
                && f5 & !opp == 0 && f6 & !opp == 0 && f7 & !opp == 0,
    ;
}

/// Board after the mover places a disc on `disk`: own side gains the
/// disc and the flipped run, the enemy loses the flipped run.
pub open spec fn spec_move_my(my: u64, opp: u64, disk: u64) -> u64 {
    my | disk | spec_flip_set(my, opp, disk)
}

/// Enemy occupancy after the mover places a disc on `disk`.
pub open spec fn spec_move_opp(my: u64, opp: u64, disk: u64) -> u64 {
    opp & !spec_flip_set(my, opp, disk)
}

/// Applies the move `disk` for the side holding `my`, flipping every
/// enclosed enemy run.  One disc is added and no disc leaves the board,
/// so the total count rises by exactly one; the sides stay disjoint,
/// and the enemy keeps no square it did not already hold.
pub fn move_bit_board(my: u64, opp: u64, disk: u64) -> (r: (u64, u64))
    requires
        my & opp == 0,
        disk != 0,
        singleton_or_empty(disk),
        disk & (my | opp) == 0,
    ensures
        r.0 == spec_move_my(my, opp, disk),
        r.1 == spec_move_opp(my, opp, disk),
        r.0 & r.1 == 0,
        r.1 & my == 0,
        (r.0 | r.1) == (my | opp | disk),
        pop64(r.0) + pop64(r.1) == pop64(my) + pop64(opp) + 1,
{
    let flips = flippable_indice_set(my, opp, disk);
    let nm = my | disk | flips;
    let no = opp & !flips;
    proof {
        lemma_flip_set_subset(my, opp, disk);
        lemma_move_counts(my, opp, disk, flips);
    }
    (nm, no)
}

/// Disc bookkeeping of a move: with `flips` drawn from the enemy side
/// and `disk` vacant and single, the move conserves every old disc and
/// adds one.
proof fn lemma_move_counts(my: u64, opp: u64, disk: u64, flips: u64)
    requires
        my & opp == 0,
        disk != 0,
        singleton_or_empty(disk),
        disk & (my | opp) == 0,
        flips & !opp == 0,
    ensures
        (my | disk | flips) & (opp & !flips) == 0,
        (opp & !flips) & my == 0,
        ((my | disk | flips) | (opp & !flips)) == (my | opp | disk),
        pop64(my | disk | flips) + pop64(opp & !flips) == pop64(my) + pop64(opp) + 1,
{
    assert((my | disk | flips) & (opp & !flips) == 0 && (opp & !flips) & my == 0 && ((my | disk
        | flips) | (opp & !flips)) == (my | opp | disk)) by (bit_vector)
        requires
            my & opp == 0 && disk & (my | opp) == 0 && flips & !opp == 0,
    ;
    assert((my | disk) & flips == 0 && my & disk == 0 && (my | disk | flips) == (my | disk) | flips
        && flips & opp == flips) by (bit_vector)
        requires
            my & opp == 0 && disk & (my | opp) == 0 && flips & !opp == 0,
    ;
    lemma_pop64_disjoint_union(my, disk);
    lemma_pop64_disjoint_union(my | disk, flips);
    lemma_pop64_remove_subset(opp, flips);
    crate::bits::lemma_pop64_singleton(disk);
}

} // verus!
