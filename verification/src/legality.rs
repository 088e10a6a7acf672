//! The move generator agrees with a brute-force per-square scan.
//!
//! The bit-parallel generator finds every legal square at once by
//! propagating influence along the four axes.  This module proves it
//! right in two steps.  First, a square is produced by the generator
//! precisely when it is vacant and placing a disc on it flips at least
//! one enemy disc — the flip walk of the move applier agreeing with
//! the generator, square by square.  Second, in board coordinates: a
//! square is produced precisely when it is vacant and, in one of the
//! eight compass directions, a run of enemy discs from it ends on an
//! own disc — the square-by-square reading of the rules of the game.

use vstd::prelude::*;

use crate::bit_board::{run_discs, singleton_or_empty, spec_flip_set, spec_flips_in_dir,
    spec_trans_op, spec_valid_moves, spec_vm_dir, trans_wf, walk_hits_mine, Dir, Transfer,
    INNER_COLUMNS};
use crate::bit_board::lemma_walk_step;
use crate::bits::bit64;

verus! {

/// One stop of the flip walk: the walk succeeds on `m` when `m` is an
/// own disc, keeps going through an enemy disc, and fails on a vacant
/// square or off the board.
pub open spec fn step_hit(my: u64, opp: u64, m: u64, rest: bool) -> bool {
    m != 0 && (if m & opp == 0 {
        m & my != 0
    } else {
        rest
    })
}

/// A nonempty bit set stays nonempty under union.
proof fn lemma_or_nonzero(a: u64, b: u64)
    by (bit_vector)
    ensures
        a != 0 ==> (a | b) != 0,
{
}

/// A walk over at most seven squares equals its sevenfold unrolling.
proof fn lemma_walk_unrolled(
    t: Transfer,
    my: u64,
    opp: u64,
    m0: u64,
    m1: u64,
    m2: u64,
    m3: u64,
    m4: u64,
    m5: u64,
    m6: u64,
)
    requires
        trans_wf(t),
        singleton_or_empty(m0),
        m1 == spec_trans_op(t, m0),
        m2 == spec_trans_op(t, m1),
        m3 == spec_trans_op(t, m2),
        m4 == spec_trans_op(t, m3),
        m5 == spec_trans_op(t, m4),
        m6 == spec_trans_op(t, m5),
        spec_trans_op(t, m6) == 0,
    ensures
        walk_hits_mine(t, my, opp, m0) == step_hit(my, opp, m0, step_hit(my, opp, m1, step_hit(my, opp, m2, step_hit(my, opp, m3, step_hit(my, opp, m4, step_hit(my, opp, m5, step_hit(my, opp, m6, false))))))),
{
    lemma_walk_step(t, m0);
    lemma_walk_step(t, m1);
    lemma_walk_step(t, m2);
    lemma_walk_step(t, m3);
    lemma_walk_step(t, m4);
    lemma_walk_step(t, m5);
    lemma_walk_step(t, m6);
    crate::bits::lemma_zero_bits((0u64 - 1) as u64, 0);
    assert(singleton_or_empty(0u64));
    assert(walk_hits_mine(t, my, opp, 0u64) == false);
    assert(walk_hits_mine(t, my, opp, m6) == step_hit(my, opp, m6, false));
    assert(walk_hits_mine(t, my, opp, m5) == step_hit(my, opp, m5, step_hit(my, opp, m6, false)));
    assert(walk_hits_mine(t, my, opp, m4) == step_hit(
        my,
        opp,
        m4,
        step_hit(my, opp, m5, step_hit(my, opp, m6, false)),
    ));
    assert(walk_hits_mine(t, my, opp, m3) == step_hit(
        my,
        opp,
        m3,
        step_hit(my, opp, m4, step_hit(my, opp, m5, step_hit(my, opp, m6, false))),
    ));
    assert(walk_hits_mine(t, my, opp, m2) == step_hit(
        my,
        opp,
        m2,
        step_hit(
            my,
            opp,
            m3,
            step_hit(my, opp, m4, step_hit(my, opp, m5, step_hit(my, opp, m6, false))),
        ),
    ));
    assert(walk_hits_mine(t, my, opp, m1) == step_hit(
        my,
        opp,
        m1,
        step_hit(
            my,
            opp,
            m2,
            step_hit(
                my,
                opp,
                m3,
                step_hit(my, opp, m4, step_hit(my, opp, m5, step_hit(my, opp, m6, false))),
            ),
        ),
    ));
}


/// Bit-level core of the axis stepping 1 places: a square is
/// produced by the axis's propagation passes exactly when a bounded
/// walk from it crosses at least one enemy disc and ends on an own
/// disc, in one of the axis's two senses.
proof fn lemma_axis_core_1(my: u64, opp: u64, mv: u64, t: u64, m0: u64, m1: u64, m2: u64, m3: u64, m4: u64, m5: u64, m6: u64, p0: u64, p1: u64, p2: u64, p3: u64, p4: u64, p5: u64, p6: u64)
    by (bit_vector)
    requires
        my & opp == 0,
        t < 64,
        mv == (opp & 0x7e7e7e7e7e7e7e7e),
        m0 == ((1u64 << t) & 0xfefefefefefefefe) >> 1,
        m1 == ((m0 & 0xfefefefefefefefe) >> 1),
        m2 == ((m1 & 0xfefefefefefefefe) >> 1),
        m3 == ((m2 & 0xfefefefefefefefe) >> 1),
        m4 == ((m3 & 0xfefefefefefefefe) >> 1),
        m5 == ((m4 & 0xfefefefefefefefe) >> 1),
        m6 == ((m5 & 0xfefefefefefefefe) >> 1),
        p0 == ((1u64 << t) & 0x7f7f7f7f7f7f7f7f) << 1,
        p1 == ((p0 & 0x7f7f7f7f7f7f7f7f) << 1),
        p2 == ((p1 & 0x7f7f7f7f7f7f7f7f) << 1),
        p3 == ((p2 & 0x7f7f7f7f7f7f7f7f) << 1),
        p4 == ((p3 & 0x7f7f7f7f7f7f7f7f) << 1),
        p5 == ((p4 & 0x7f7f7f7f7f7f7f7f) << 1),
        p6 == ((p5 & 0x7f7f7f7f7f7f7f7f) << 1),
    ensures
        bit64(spec_vm_dir(my, mv, 1), t) == ((m0 & opp != 0 && (m0 != 0 && (if m0 & opp == 0 { m0 & my != 0 } else { (m1 != 0 && (if m1 & opp == 0 { m1 & my != 0 } else { (m2 != 0 && (if m2 & opp == 0 { m2 & my != 0 } else { (m3 != 0 && (if m3 & opp == 0 { m3 & my != 0 } else { (m4 != 0 && (if m4 & opp == 0 { m4 & my != 0 } else { (m5 != 0 && (if m5 & opp == 0 { m5 & my != 0 } else { (m6 != 0 && (if m6 & opp == 0 { m6 & my != 0 } else { false })) })) })) })) })) })) }))) || (p0 & opp != 0 && (p0 != 0 && (if p0 & opp == 0 { p0 & my != 0 } else { (p1 != 0 && (if p1 & opp == 0 { p1 & my != 0 } else { (p2 != 0 && (if p2 & opp == 0 { p2 & my != 0 } else { (p3 != 0 && (if p3 & opp == 0 { p3 & my != 0 } else { (p4 != 0 && (if p4 & opp == 0 { p4 & my != 0 } else { (p5 != 0 && (if p5 & opp == 0 { p5 & my != 0 } else { (p6 != 0 && (if p6 & opp == 0 { p6 & my != 0 } else { false })) })) })) })) })) })) })))),
        ((m6 & 0xfefefefefefefefe) >> 1) == 0,
        ((p6 & 0x7f7f7f7f7f7f7f7f) << 1) == 0,
        (1u64 << t) & (((1u64 << t) - 1) as u64) == 0,
{
}


/// The axis stepping 1 places produces a square exactly when one of
/// its two compass directions flips something there.
proof fn lemma_axis_flips_1(my: u64, opp: u64, t: u64)
    requires
        my & opp == 0,
        t < 64,
    ensures
        bit64(spec_vm_dir(my, opp & INNER_COLUMNS, 1), t) == (spec_flips_in_dir(
            Transfer(Dir::Right, 0xfefefefefefefefe, 1),
            my,
            opp,
            1u64 << t,
        ) != 0 || spec_flips_in_dir(Transfer(Dir::Left, 0x7f7f7f7f7f7f7f7f, 1), my, opp, 1u64 << t) != 0),
{
    let tr = Transfer(Dir::Right, 0xfefefefefefefefe, 1);
    let tl = Transfer(Dir::Left, 0x7f7f7f7f7f7f7f7f, 1);
    let d = 1u64 << t;
    let m0 = spec_trans_op(tr, d);
    let m1 = spec_trans_op(tr, m0);
    let m2 = spec_trans_op(tr, m1);
    let m3 = spec_trans_op(tr, m2);
    let m4 = spec_trans_op(tr, m3);
    let m5 = spec_trans_op(tr, m4);
    let m6 = spec_trans_op(tr, m5);
    let p0 = spec_trans_op(tl, d);
    let p1 = spec_trans_op(tl, p0);
    let p2 = spec_trans_op(tl, p1);
    let p3 = spec_trans_op(tl, p2);
    let p4 = spec_trans_op(tl, p3);
    let p5 = spec_trans_op(tl, p4);
    let p6 = spec_trans_op(tl, p5);
    lemma_axis_core_1(my, opp, opp & INNER_COLUMNS, t, m0, m1, m2, m3, m4, m5, m6, p0, p1, p2, p3, p4, p5, p6);
    lemma_walk_step(tr, d);
    lemma_walk_step(tl, d);
    lemma_walk_unrolled(tr, my, opp, m0, m1, m2, m3, m4, m5, m6);
    lemma_walk_unrolled(tl, my, opp, p0, p1, p2, p3, p4, p5, p6);
    lemma_flips_nonzero(tr, my, opp, d);
    lemma_flips_nonzero(tl, my, opp, d);
}


/// Bit-level core of the axis stepping 7 places: a square is
/// produced by the axis's propagation passes exactly when a bounded
/// walk from it crosses at least one enemy disc and ends on an own
/// disc, in one of the axis's two senses.
proof fn lemma_axis_core_7(my: u64, opp: u64, mv: u64, t: u64, m0: u64, m1: u64, m2: u64, m3: u64, m4: u64, m5: u64, m6: u64, p0: u64, p1: u64, p2: u64, p3: u64, p4: u64, p5: u64, p6: u64)
    by (bit_vector)
    requires
        my & opp == 0,
        t < 64,
        mv == (opp & 0x7e7e7e7e7e7e7e7e),
        m0 == ((1u64 << t) & 0x7f7f7f7f7f7f7f00) >> 7,
        m1 == ((m0 & 0x7f7f7f7f7f7f7f00) >> 7),
        m2 == ((m1 & 0x7f7f7f7f7f7f7f00) >> 7),
        m3 == ((m2 & 0x7f7f7f7f7f7f7f00) >> 7),
        m4 == ((m3 & 0x7f7f7f7f7f7f7f00) >> 7),
        m5 == ((m4 & 0x7f7f7f7f7f7f7f00) >> 7),
        m6 == ((m5 & 0x7f7f7f7f7f7f7f00) >> 7),
        p0 == ((1u64 << t) & 0x00fefefefefefefe) << 7,
        p1 == ((p0 & 0x00fefefefefefefe) << 7),
        p2 == ((p1 & 0x00fefefefefefefe) << 7),
        p3 == ((p2 & 0x00fefefefefefefe) << 7),
        p4 == ((p3 & 0x00fefefefefefefe) << 7),
        p5 == ((p4 & 0x00fefefefefefefe) << 7),
        p6 == ((p5 & 0x00fefefefefefefe) << 7),
    ensures
        bit64(spec_vm_dir(my, mv, 7), t) == ((m0 & opp != 0 && (m0 != 0 && (if m0 & opp == 0 { m0 & my != 0 } else { (m1 != 0 && (if m1 & opp == 0 { m1 & my != 0 } else { (m2 != 0 && (if m2 & opp == 0 { m2 & my != 0 } else { (m3 != 0 && (if m3 & opp == 0 { m3 & my != 0 } else { (m4 != 0 && (if m4 & opp == 0 { m4 & my != 0 } else { (m5 != 0 && (if m5 & opp == 0 { m5 & my != 0 } else { (m6 != 0 && (if m6 & opp == 0 { m6 & my != 0 } else { false })) })) })) })) })) })) }))) || (p0 & opp != 0 && (p0 != 0 && (if p0 & opp == 0 { p0 & my != 0 } else { (p1 != 0 && (if p1 & opp == 0 { p1 & my != 0 } else { (p2 != 0 && (if p2 & opp == 0 { p2 & my != 0 } else { (p3 != 0 && (if p3 & opp == 0 { p3 & my != 0 } else { (p4 != 0 && (if p4 & opp == 0 { p4 & my != 0 } else { (p5 != 0 && (if p5 & opp == 0 { p5 & my != 0 } else { (p6 != 0 && (if p6 & opp == 0 { p6 & my != 0 } else { false })) })) })) })) })) })) })))),
        ((m6 & 0x7f7f7f7f7f7f7f00) >> 7) == 0,
        ((p6 & 0x00fefefefefefefe) << 7) == 0,
        (1u64 << t) & (((1u64 << t) - 1) as u64) == 0,
{
}


/// The axis stepping 7 places produces a square exactly when one of
/// its two compass directions flips something there.
proof fn lemma_axis_flips_7(my: u64, opp: u64, t: u64)
    requires
        my & opp == 0,
        t < 64,
    ensures
        bit64(spec_vm_dir(my, opp & INNER_COLUMNS, 7), t) == (spec_flips_in_dir(
            Transfer(Dir::Right, 0x7f7f7f7f7f7f7f00, 7),
            my,
            opp,
            1u64 << t,
        ) != 0 || spec_flips_in_dir(Transfer(Dir::Left, 0x00fefefefefefefe, 7), my, opp, 1u64 << t) != 0),
{
    let tr = Transfer(Dir::Right, 0x7f7f7f7f7f7f7f00, 7);
    let tl = Transfer(Dir::Left, 0x00fefefefefefefe, 7);
    let d = 1u64 << t;
    let m0 = spec_trans_op(tr, d);
    let m1 = spec_trans_op(tr, m0);
    let m2 = spec_trans_op(tr, m1);
    let m3 = spec_trans_op(tr, m2);
    let m4 = spec_trans_op(tr, m3);
    let m5 = spec_trans_op(tr, m4);
    let m6 = spec_trans_op(tr, m5);
    let p0 = spec_trans_op(tl, d);
    let p1 = spec_trans_op(tl, p0);
    let p2 = spec_trans_op(tl, p1);
    let p3 = spec_trans_op(tl, p2);
    let p4 = spec_trans_op(tl, p3);
    let p5 = spec_trans_op(tl, p4);
    let p6 = spec_trans_op(tl, p5);
    lemma_axis_core_7(my, opp, opp & INNER_COLUMNS, t, m0, m1, m2, m3, m4, m5, m6, p0, p1, p2, p3, p4, p5, p6);
    lemma_walk_step(tr, d);
    lemma_walk_step(tl, d);
    lemma_walk_unrolled(tr, my, opp, m0, m1, m2, m3, m4, m5, m6);
    lemma_walk_unrolled(tl, my, opp, p0, p1, p2, p3, p4, p5, p6);
    lemma_flips_nonzero(tr, my, opp, d);
    lemma_flips_nonzero(tl, my, opp, d);
}


/// Bit-level core of the axis stepping 8 places: a square is
/// produced by the axis's propagation passes exactly when a bounded
/// walk from it crosses at least one enemy disc and ends on an own
/// disc, in one of the axis's two senses.
proof fn lemma_axis_core_8(my: u64, opp: u64, mv: u64, t: u64, m0: u64, m1: u64, m2: u64, m3: u64, m4: u64, m5: u64, m6: u64, p0: u64, p1: u64, p2: u64, p3: u64, p4: u64, p5: u64, p6: u64)
    by (bit_vector)
    requires
        my & opp == 0,
        t < 64,
        mv == opp,
        m0 == ((1u64 << t) & 0xffffffffffffff00) >> 8,
        m1 == ((m0 & 0xffffffffffffff00) >> 8),
        m2 == ((m1 & 0xffffffffffffff00) >> 8),
        m3 == ((m2 & 0xffffffffffffff00) >> 8),
        m4 == ((m3 & 0xffffffffffffff00) >> 8),
        m5 == ((m4 & 0xffffffffffffff00) >> 8),
        m6 == ((m5 & 0xffffffffffffff00) >> 8),
        p0 == ((1u64 << t) & 0x00ffffffffffffff) << 8,
        p1 == ((p0 & 0x00ffffffffffffff) << 8),
        p2 == ((p1 & 0x00ffffffffffffff) << 8),
        p3 == ((p2 & 0x00ffffffffffffff) << 8),
        p4 == ((p3 & 0x00ffffffffffffff) << 8),
        p5 == ((p4 & 0x00ffffffffffffff) << 8),
        p6 == ((p5 & 0x00ffffffffffffff) << 8),
    ensures
        bit64(spec_vm_dir(my, mv, 8), t) == ((m0 & opp != 0 && (m0 != 0 && (if m0 & opp == 0 { m0 & my != 0 } else { (m1 != 0 && (if m1 & opp == 0 { m1 & my != 0 } else { (m2 != 0 && (if m2 & opp == 0 { m2 & my != 0 } else { (m3 != 0 && (if m3 & opp == 0 { m3 & my != 0 } else { (m4 != 0 && (if m4 & opp == 0 { m4 & my != 0 } else { (m5 != 0 && (if m5 & opp == 0 { m5 & my != 0 } else { (m6 != 0 && (if m6 & opp == 0 { m6 & my != 0 } else { false })) })) })) })) })) })) }))) || (p0 & opp != 0 && (p0 != 0 && (if p0 & opp == 0 { p0 & my != 0 } else { (p1 != 0 && (if p1 & opp == 0 { p1 & my != 0 } else { (p2 != 0 && (if p2 & opp == 0 { p2 & my != 0 } else { (p3 != 0 && (if p3 & opp == 0 { p3 & my != 0 } else { (p4 != 0 && (if p4 & opp == 0 { p4 & my != 0 } else { (p5 != 0 && (if p5 & opp == 0 { p5 & my != 0 } else { (p6 != 0 && (if p6 & opp == 0 { p6 & my != 0 } else { false })) })) })) })) })) })) })))),
        ((m6 & 0xffffffffffffff00) >> 8) == 0,
        ((p6 & 0x00ffffffffffffff) << 8) == 0,
        (1u64 << t) & (((1u64 << t) - 1) as u64) == 0,
{
}


/// The axis stepping 8 places produces a square exactly when one of
/// its two compass directions flips something there.
proof fn lemma_axis_flips_8(my: u64, opp: u64, t: u64)
    requires
        my & opp == 0,
        t < 64,
    ensures
        bit64(spec_vm_dir(my, opp, 8), t) == (spec_flips_in_dir(
            Transfer(Dir::Right, 0xffffffffffffff00, 8),
            my,
            opp,
            1u64 << t,
        ) != 0 || spec_flips_in_dir(Transfer(Dir::Left, 0x00ffffffffffffff, 8), my, opp, 1u64 << t) != 0),
{
    let tr = Transfer(Dir::Right, 0xffffffffffffff00, 8);
    let tl = Transfer(Dir::Left, 0x00ffffffffffffff, 8);
    let d = 1u64 << t;
    let m0 = spec_trans_op(tr, d);
    let m1 = spec_trans_op(tr, m0);
    let m2 = spec_trans_op(tr, m1);
    let m3 = spec_trans_op(tr, m2);
    let m4 = spec_trans_op(tr, m3);
    let m5 = spec_trans_op(tr, m4);
    let m6 = spec_trans_op(tr, m5);
    let p0 = spec_trans_op(tl, d);
    let p1 = spec_trans_op(tl, p0);
    let p2 = spec_trans_op(tl, p1);
    let p3 = spec_trans_op(tl, p2);
    let p4 = spec_trans_op(tl, p3);
    let p5 = spec_trans_op(tl, p4);
    let p6 = spec_trans_op(tl, p5);
    lemma_axis_core_8(my, opp, opp, t, m0, m1, m2, m3, m4, m5, m6, p0, p1, p2, p3, p4, p5, p6);
    lemma_walk_step(tr, d);
    lemma_walk_step(tl, d);
    lemma_walk_unrolled(tr, my, opp, m0, m1, m2, m3, m4, m5, m6);
    lemma_walk_unrolled(tl, my, opp, p0, p1, p2, p3, p4, p5, p6);
    lemma_flips_nonzero(tr, my, opp, d);
    lemma_flips_nonzero(tl, my, opp, d);
}


/// Bit-level core of the axis stepping 9 places: a square is
/// produced by the axis's propagation passes exactly when a bounded
/// walk from it crosses at least one enemy disc and ends on an own
/// disc, in one of the axis's two senses.
proof fn lemma_axis_core_9(my: u64, opp: u64, mv: u64, t: u64, m0: u64, m1: u64, m2: u64, m3: u64, m4: u64, m5: u64, m6: u64, p0: u64, p1: u64, p2: u64, p3: u64, p4: u64, p5: u64, p6: u64)
    by (bit_vector)
    requires
        my & opp == 0,
        t < 64,
        mv == (opp & 0x7e7e7e7e7e7e7e7e),
        m0 == ((1u64 << t) & 0xfefefefefefefe00) >> 9,
        m1 == ((m0 & 0xfefefefefefefe00) >> 9),
        m2 == ((m1 & 0xfefefefefefefe00) >> 9),
        m3 == ((m2 & 0xfefefefefefefe00) >> 9),
        m4 == ((m3 & 0xfefefefefefefe00) >> 9),
        m5 == ((m4 & 0xfefefefefefefe00) >> 9),
        m6 == ((m5 & 0xfefefefefefefe00) >> 9),
        p0 == ((1u64 << t) & 0x007f7f7f7f7f7f7f) << 9,
        p1 == ((p0 & 0x007f7f7f7f7f7f7f) << 9),
        p2 == ((p1 & 0x007f7f7f7f7f7f7f) << 9),
        p3 == ((p2 & 0x007f7f7f7f7f7f7f) << 9),
        p4 == ((p3 & 0x007f7f7f7f7f7f7f) << 9),
        p5 == ((p4 & 0x007f7f7f7f7f7f7f) << 9),
        p6 == ((p5 & 0x007f7f7f7f7f7f7f) << 9),
    ensures
        bit64(spec_vm_dir(my, mv, 9), t) == ((m0 & opp != 0 && (m0 != 0 && (if m0 & opp == 0 { m0 & my != 0 } else { (m1 != 0 && (if m1 & opp == 0 { m1 & my != 0 } else { (m2 != 0 && (if m2 & opp == 0 { m2 & my != 0 } else { (m3 != 0 && (if m3 & opp == 0 { m3 & my != 0 } else { (m4 != 0 && (if m4 & opp == 0 { m4 & my != 0 } else { (m5 != 0 && (if m5 & opp == 0 { m5 & my != 0 } else { (m6 != 0 && (if m6 & opp == 0 { m6 & my != 0 } else { false })) })) })) })) })) })) }))) || (p0 & opp != 0 && (p0 != 0 && (if p0 & opp == 0 { p0 & my != 0 } else { (p1 != 0 && (if p1 & opp == 0 { p1 & my != 0 } else { (p2 != 0 && (if p2 & opp == 0 { p2 & my != 0 } else { (p3 != 0 && (if p3 & opp == 0 { p3 & my != 0 } else { (p4 != 0 && (if p4 & opp == 0 { p4 & my != 0 } else { (p5 != 0 && (if p5 & opp == 0 { p5 & my != 0 } else { (p6 != 0 && (if p6 & opp == 0 { p6 & my != 0 } else { false })) })) })) })) })) })) })))),
        ((m6 & 0xfefefefefefefe00) >> 9) == 0,
        ((p6 & 0x007f7f7f7f7f7f7f) << 9) == 0,
        (1u64 << t) & (((1u64 << t) - 1) as u64) == 0,
{
}


/// The axis stepping 9 places produces a square exactly when one of
/// its two compass directions flips something there.
proof fn lemma_axis_flips_9(my: u64, opp: u64, t: u64)
    requires
        my & opp == 0,
        t < 64,
    ensures
        bit64(spec_vm_dir(my, opp & INNER_COLUMNS, 9), t) == (spec_flips_in_dir(
            Transfer(Dir::Right, 0xfefefefefefefe00, 9),
            my,
            opp,
            1u64 << t,
        ) != 0 || spec_flips_in_dir(Transfer(Dir::Left, 0x007f7f7f7f7f7f7f, 9), my, opp, 1u64 << t) != 0),
{
    let tr = Transfer(Dir::Right, 0xfefefefefefefe00, 9);
    let tl = Transfer(Dir::Left, 0x007f7f7f7f7f7f7f, 9);
    let d = 1u64 << t;
    let m0 = spec_trans_op(tr, d);
    let m1 = spec_trans_op(tr, m0);
    let m2 = spec_trans_op(tr, m1);
    let m3 = spec_trans_op(tr, m2);
    let m4 = spec_trans_op(tr, m3);
    let m5 = spec_trans_op(tr, m4);
    let m6 = spec_trans_op(tr, m5);
    let p0 = spec_trans_op(tl, d);
    let p1 = spec_trans_op(tl, p0);
    let p2 = spec_trans_op(tl, p1);
    let p3 = spec_trans_op(tl, p2);
    let p4 = spec_trans_op(tl, p3);
    let p5 = spec_trans_op(tl, p4);
    let p6 = spec_trans_op(tl, p5);
    lemma_axis_core_9(my, opp, opp & INNER_COLUMNS, t, m0, m1, m2, m3, m4, m5, m6, p0, p1, p2, p3, p4, p5, p6);
    lemma_walk_step(tr, d);
    lemma_walk_step(tl, d);
    lemma_walk_unrolled(tr, my, opp, m0, m1, m2, m3, m4, m5, m6);
    lemma_walk_unrolled(tl, my, opp, p0, p1, p2, p3, p4, p5, p6);
    lemma_flips_nonzero(tr, my, opp, d);
    lemma_flips_nonzero(tl, my, opp, d);
}


/// A direction flips something exactly when its walk succeeds and the
/// first square it crosses is an enemy disc.
proof fn lemma_flips_nonzero(t: Transfer, my: u64, opp: u64, d: u64)
    requires
        trans_wf(t),
        singleton_or_empty(d),
    ensures
        (spec_flips_in_dir(t, my, opp, d) != 0) == (walk_hits_mine(t, my, opp, spec_trans_op(t, d))
            && spec_trans_op(t, d) & opp != 0),
{
    let m0 = spec_trans_op(t, d);
    lemma_walk_step(t, d);
    lemma_walk_step(t, m0);
    crate::bits::lemma_zero_bits(opp, 0);
    if m0 & opp != 0 {
        lemma_or_nonzero(m0, run_discs(t, opp, spec_trans_op(t, m0)));
        assert(m0 != 0);
        assert(run_discs(t, opp, m0) == (m0 | run_discs(t, opp, spec_trans_op(t, m0))));
    } else {
        assert(run_discs(t, opp, m0) == 0);
    }
}

/// The union of the four axes keeps a bit exactly when one axis set
/// it, and intersecting with the vacant squares keeps it exactly off
/// the occupied ones.
proof fn lemma_union_bit(a: u64, b: u64, c: u64, d: u64, e: u64, f: u64, t: u64)
    by (bit_vector)
    requires
        t < 64,
    ensures
        bit64((a | b | c | d) & !(e | f), t) == ((bit64(a, t) || bit64(b, t) || bit64(c, t)
            || bit64(d, t)) && !bit64(e, t) && !bit64(f, t)),
{
}

/// An eightfold union is empty exactly when every part is.
proof fn lemma_union8_nonzero(
    f0: u64,
    f1: u64,
    f2: u64,
    f3: u64,
    f4: u64,
    f5: u64,
    f6: u64,
    f7: u64,
)
    by (bit_vector)
    ensures
        ((f0 | f1 | f2 | f3 | f4 | f5 | f6 | f7) != 0) == (f0 != 0 || f1 != 0 || f2 != 0 || f3
            != 0 || f4 != 0 || f5 != 0 || f6 != 0 || f7 != 0),
{
}

/// The move generator read square by square: a square is a legal move
/// exactly when it is vacant and placing a disc there flips at least
/// one enemy disc — the brute-force per-square reading of the rules,
/// walking the eight compass directions from the square.
pub proof fn lemma_legal_iff_flips(my: u64, opp: u64, t: u64)
    requires
        my & opp == 0,
        t < 64,
    ensures
        bit64(spec_valid_moves(my, opp), t) == (!bit64(my, t) && !bit64(opp, t) && spec_flip_set(
            my,
            opp,
            1u64 << t,
        ) != 0),
{
    lemma_axis_flips_1(my, opp, t);
    lemma_axis_flips_8(my, opp, t);
    lemma_axis_flips_7(my, opp, t);
    lemma_axis_flips_9(my, opp, t);
    let mask = opp & INNER_COLUMNS;
    lemma_union_bit(
        spec_vm_dir(my, mask, 1),
        spec_vm_dir(my, opp, 8),
        spec_vm_dir(my, mask, 7),
        spec_vm_dir(my, mask, 9),
        my,
        opp,
        t,
    );
    let d = 1u64 << t;
    lemma_union8_nonzero(
        spec_flips_in_dir(Transfer(Dir::Right, 0xffffffffffffff00, 8), my, opp, d),
        spec_flips_in_dir(Transfer(Dir::Right, 0xfefefefefefefe00, 9), my, opp, d),
        spec_flips_in_dir(Transfer(Dir::Right, 0x7f7f7f7f7f7f7f00, 7), my, opp, d),
        spec_flips_in_dir(Transfer(Dir::Right, 0xfefefefefefefefe, 1), my, opp, d),
        spec_flips_in_dir(Transfer(Dir::Left, 0x7f7f7f7f7f7f7f7f, 1), my, opp, d),
        spec_flips_in_dir(Transfer(Dir::Left, 0x00fefefefefefefe, 7), my, opp, d),
        spec_flips_in_dir(Transfer(Dir::Left, 0x007f7f7f7f7f7f7f, 9), my, opp, d),
        spec_flips_in_dir(Transfer(Dir::Left, 0x00ffffffffffffff, 8), my, opp, d),
    );
}

/// The whole legal-move set agrees with the brute-force scan: every
/// square of the generator's word is vacant and flips something, and
/// every such square is in the word.
pub proof fn lemma_valid_moves_matches_scan(my: u64, opp: u64)
    requires
        my & opp == 0,
    ensures
        forall|t: u64|
            t < 64 ==> ((#[trigger] bit64(spec_valid_moves(my, opp), t)) == (!bit64(my, t)
                && !bit64(opp, t) && spec_flip_set(my, opp, 1u64 << t) != 0)),
{
    assert forall|t: u64| t < 64 implies ((#[trigger] bit64(spec_valid_moves(my, opp), t)) == (
    !bit64(my, t) && !bit64(opp, t) && spec_flip_set(my, opp, 1u64 << t) != 0)) by {
        lemma_legal_iff_flips(my, opp, t);
    }
}

/// Each transfer moves a single disc exactly one square along its
/// compass direction — one row up or down per 8 places of shift, one
/// column left or right per place of offset — and drops a disc whose
/// step would leave the board.  Square `t` sits on row `t / 8`, column
/// `t % 8`.  So the flip walk reads as the rules do: from the placed
/// disc, go square by square in a compass direction until the run of
/// enemy discs ends.
pub proof fn lemma_transfer_is_compass_step(t: u64)
    requires
        t < 64,
    ensures
        spec_trans_op(Transfer(Dir::Right, 0xffffffffffffff00, 8), 1u64 << t) == (if t / 8 >= 1 {
            1u64 << ((t - 8) as u64)
        } else {
            0
        }),
        spec_trans_op(Transfer(Dir::Right, 0xfefefefefefefe00, 9), 1u64 << t) == (if t / 8 >= 1 && t % 8 >= 1 {
            1u64 << ((t - 9) as u64)
        } else {
            0
        }),
        spec_trans_op(Transfer(Dir::Right, 0x7f7f7f7f7f7f7f00, 7), 1u64 << t) == (if t / 8 >= 1 && t % 8 <= 6 {
            1u64 << ((t - 7) as u64)
        } else {
            0
        }),
        spec_trans_op(Transfer(Dir::Right, 0xfefefefefefefefe, 1), 1u64 << t) == (if t % 8 >= 1 {
            1u64 << ((t - 1) as u64)
        } else {
            0
        }),
        spec_trans_op(Transfer(Dir::Left, 0x7f7f7f7f7f7f7f7f, 1), 1u64 << t) == (if t % 8 <= 6 {
            1u64 << ((t + 1) as u64)
        } else {
            0
        }),
        spec_trans_op(Transfer(Dir::Left, 0x00fefefefefefefe, 7), 1u64 << t) == (if t / 8 <= 6 && t % 8 >= 1 {
            1u64 << ((t + 7) as u64)
        } else {
            0
        }),
        spec_trans_op(Transfer(Dir::Left, 0x007f7f7f7f7f7f7f, 9), 1u64 << t) == (if t / 8 <= 6 && t % 8 <= 6 {
            1u64 << ((t + 9) as u64)
        } else {
            0
        }),
        spec_trans_op(Transfer(Dir::Left, 0x00ffffffffffffff, 8), 1u64 << t) == (if t / 8 <= 6 {
            1u64 << ((t + 8) as u64)
        } else {
            0
        }),
{
    assert(        (((1u64 << t) & 0xffffffffffffff00) >> 8) == (if t / 8 >= 1 {
            1u64 << ((t - 8) as u64)
        } else {
            0
        }) &&
        (((1u64 << t) & 0xfefefefefefefe00) >> 9) == (if t / 8 >= 1 && t % 8 >= 1 {
            1u64 << ((t - 9) as u64)
        } else {
            0
        }) &&
        (((1u64 << t) & 0x7f7f7f7f7f7f7f00) >> 7) == (if t / 8 >= 1 && t % 8 <= 6 {
            1u64 << ((t - 7) as u64)
        } else {
            0
        }) &&
        (((1u64 << t) & 0xfefefefefefefefe) >> 1) == (if t % 8 >= 1 {
            1u64 << ((t - 1) as u64)
        } else {
            0
        }) &&
        (((1u64 << t) & 0x7f7f7f7f7f7f7f7f) << 1) == (if t % 8 <= 6 {
            1u64 << ((t + 1) as u64)
        } else {
            0
        }) &&
        (((1u64 << t) & 0x00fefefefefefefe) << 7) == (if t / 8 <= 6 && t % 8 >= 1 {
            1u64 << ((t + 7) as u64)
        } else {
            0
        }) &&
        (((1u64 << t) & 0x007f7f7f7f7f7f7f) << 9) == (if t / 8 <= 6 && t % 8 <= 6 {
            1u64 << ((t + 9) as u64)
        } else {
            0
        }) &&
        (((1u64 << t) & 0x00ffffffffffffff) << 8) == (if t / 8 <= 6 {
            1u64 << ((t + 8) as u64)
        } else {
            0
        })) by (bit_vector)
        requires
            t < 64,
    ;
}


/// A single disc is nonzero and meets a bit set exactly on its own
/// square; on one square, two disjoint sets cannot meet it both.
proof fn lemma_single_and(a: u64, b: u64, s: u64)
    by (bit_vector)
    requires
        s < 64,
    ensures
        1u64 << s != 0,
        (1u64 << s) & (((1u64 << s) - 1) as u64) == 0,
        ((1u64 << s) & a != 0) == ((a >> s) & 1 == 1),
        ((1u64 << s) & b != 0) == ((b >> s) & 1 == 1),
        a & b == 0 && (a >> s) & 1 == 1 ==> (b >> s) & 1 == 0,
{
}

/// The square on row `r`, column `c`.
pub open spec fn sq(r: int, c: int) -> int {
    8 * r + c
}

/// Both coordinates lie on the board.
pub open spec fn in_board(r: int, c: int) -> bool {
    0 <= r < 8 && 0 <= c < 8
}

/// The side holding `b` occupies the square on row `r`, column `c`.
pub open spec fn occ(b: u64, r: int, c: int) -> bool {
    in_board(r, c) && bit64(b, sq(r, c) as u64)
}

/// A compass direction: both offsets at most one, not both zero.
pub open spec fn dir_ok(dr: int, dc: int) -> bool {
    -1 <= dr <= 1 && -1 <= dc <= 1 && !(dr == 0 && dc == 0)
}

/// The transfer that steps one square toward (`dr`, `dc`).
pub open spec fn transfer_of(dr: int, dc: int) -> Transfer {
    if dr == -1 && dc == 0 {
        Transfer(Dir::Right, 0xffffffffffffff00, 8)
    } else if dr == -1 && dc == -1 {
        Transfer(Dir::Right, 0xfefefefefefefe00, 9)
    } else if dr == -1 && dc == 1 {
        Transfer(Dir::Right, 0x7f7f7f7f7f7f7f00, 7)
    } else if dr == 0 && dc == -1 {
        Transfer(Dir::Right, 0xfefefefefefefefe, 1)
    } else if dr == 0 && dc == 1 {
        Transfer(Dir::Left, 0x7f7f7f7f7f7f7f7f, 1)
    } else if dr == 1 && dc == -1 {
        Transfer(Dir::Left, 0x00fefefefefefefe, 7)
    } else if dr == 1 && dc == 1 {
        Transfer(Dir::Left, 0x007f7f7f7f7f7f7f, 9)
    } else {
        Transfer(Dir::Left, 0x00ffffffffffffff, 8)
    }
}

/// Each transfer steps a single disc one square along its compass
/// direction in board coordinates, dropping a disc that would step off
/// the board.
proof fn lemma_step_coord(dr: int, dc: int, r: int, c: int)
    requires
        dir_ok(dr, dc),
        in_board(r, c),
    ensures
        spec_trans_op(transfer_of(dr, dc), 1u64 << (sq(r, c) as u64)) == (if in_board(
            r + dr,
            c + dc,
        ) {
            1u64 << (sq(r + dr, c + dc) as u64)
        } else {
            0
        }),
{
    let t = sq(r, c) as u64;
    lemma_transfer_is_compass_step(t);
    assert(t / 8 == r && t % 8 == c);
}

/// The single disc reached after `j` compass steps from (`r`, `c`),
/// or the empty set once the straight line has left the board.
pub open spec fn walk_disc(dr: int, dc: int, r: int, c: int, j: int) -> u64 {
    if in_board(r + j * dr, c + j * dc) {
        1u64 << (sq(r + j * dr, c + j * dc) as u64)
    } else {
        0
    }
}

/// One transfer step takes the disc `j - 1` squares out to the disc
/// `j` squares out: a straight line that has left the board never
/// returns.
proof fn lemma_chain(dr: int, dc: int, r: int, c: int, j: int)
    requires
        dir_ok(dr, dc),
        in_board(r, c),
        1 <= j <= 8,
    ensures
        spec_trans_op(transfer_of(dr, dc), walk_disc(dr, dc, r, c, j - 1)) == walk_disc(
            dr,
            dc,
            r,
            c,
            j,
        ),
{
    let tr = transfer_of(dr, dc);
    assert((j - 1) * dr + dr == j * dr) by (nonlinear_arith);
    assert((j - 1) * dc + dc == j * dc) by (nonlinear_arith);
    if in_board(r + (j - 1) * dr, c + (j - 1) * dc) {
        lemma_step_coord(dr, dc, r + (j - 1) * dr, c + (j - 1) * dc);
    } else {
        crate::bits::lemma_zero_bits(tr.1, tr.2);
        assert(!in_board(r + j * dr, c + j * dc)) by (nonlinear_arith)
            requires
                -1 <= dr <= 1,
                -1 <= dc <= 1,
                in_board(r, c),
                !in_board(r + (j - 1) * dr, c + (j - 1) * dc),
                1 <= j <= 8,
        ;
    }
}

/// A run of enemy discs from the square on (`r`, `c`) along
/// (`dr`, `dc`): `k` consecutive enemy discs followed by an own disc.
pub open spec fn run_to_own(
    my: u64,
    opp: u64,
    r: int,
    c: int,
    dr: int,
    dc: int,
    k: int,
) -> bool {
    1 <= k <= 6 && (forall|j: int| 1 <= j <= k ==> #[trigger] occ(opp, r + j * dr, c + j * dc)) && occ(
        my,
        r + (k + 1) * dr,
        c + (k + 1) * dc,
    )
}

/// A disc of the walk carries an occupancy bit exactly when its square
/// is on the board and occupied.
proof fn lemma_walk_disc_occ(dr: int, dc: int, my: u64, opp: u64, r: int, c: int, j: int)
    requires
        dir_ok(dr, dc),
        my & opp == 0,
    ensures
        (walk_disc(dr, dc, r, c, j) & opp != 0) == occ(opp, r + j * dr, c + j * dc),
        (walk_disc(dr, dc, r, c, j) & my != 0) == occ(my, r + j * dr, c + j * dc),
        occ(my, r + j * dr, c + j * dc) ==> !occ(opp, r + j * dr, c + j * dc),
        occ(opp, r + j * dr, c + j * dc) ==> walk_disc(dr, dc, r, c, j) != 0,
        occ(my, r + j * dr, c + j * dc) ==> walk_disc(dr, dc, r, c, j) != 0,
{
    if in_board(r + j * dr, c + j * dc) {
        lemma_single_and(my, opp, sq(r + j * dr, c + j * dc) as u64);
    } else {
        crate::bits::lemma_zero_bits(my, 0);
        crate::bits::lemma_zero_bits(opp, 0);
    }
}

/// Along one compass direction, the flip walk succeeds with at least
/// one crossed enemy disc exactly when some run of enemy discs from
/// the square ends on an own disc.
#[verifier::rlimit(100)]
#[verifier::spinoff_prover]
proof fn lemma_walk_runs(dr: int, dc: int, my: u64, opp: u64, r: int, c: int)
    requires
        dir_ok(dr, dc),
        in_board(r, c),
        my & opp == 0,
    ensures
        ({
            let tr = transfer_of(dr, dc);
            let m0 = spec_trans_op(tr, 1u64 << (sq(r, c) as u64));
            (walk_hits_mine(tr, my, opp, m0) && m0 & opp != 0) == exists|k: int|
                #[trigger] run_to_own(my, opp, r, c, dr, dc, k)
        }),
{
    let tr = transfer_of(dr, dc);
    assert(trans_wf(tr));
    let d = 1u64 << (sq(r, c) as u64);
    lemma_single_and(my, opp, sq(r, c) as u64);
    assert(walk_disc(dr, dc, r, c, 0) == d);
    lemma_walk_step(tr, d);
    lemma_chain(dr, dc, r, c, 1);
    lemma_chain(dr, dc, r, c, 2);
    lemma_chain(dr, dc, r, c, 3);
    lemma_chain(dr, dc, r, c, 4);
    lemma_chain(dr, dc, r, c, 5);
    lemma_chain(dr, dc, r, c, 6);
    lemma_chain(dr, dc, r, c, 7);
    lemma_chain(dr, dc, r, c, 8);
    let m0 = spec_trans_op(tr, d);
    let m1 = spec_trans_op(tr, m0);
    let m2 = spec_trans_op(tr, m1);
    let m3 = spec_trans_op(tr, m2);
    let m4 = spec_trans_op(tr, m3);
    let m5 = spec_trans_op(tr, m4);
    let m6 = spec_trans_op(tr, m5);
    assert(m0 == walk_disc(dr, dc, r, c, 1));
    assert(m1 == walk_disc(dr, dc, r, c, 2));
    assert(m2 == walk_disc(dr, dc, r, c, 3));
    assert(m3 == walk_disc(dr, dc, r, c, 4));
    assert(m4 == walk_disc(dr, dc, r, c, 5));
    assert(m5 == walk_disc(dr, dc, r, c, 6));
    assert(m6 == walk_disc(dr, dc, r, c, 7));
    assert(spec_trans_op(tr, m6) == 0) by {
        assert(!in_board(r + 8 * dr, c + 8 * dc));
    }
    lemma_walk_unrolled(tr, my, opp, m0, m1, m2, m3, m4, m5, m6);
    lemma_walk_disc_occ(dr, dc, my, opp, r, c, 1);
    lemma_walk_disc_occ(dr, dc, my, opp, r, c, 2);
    lemma_walk_disc_occ(dr, dc, my, opp, r, c, 3);
    lemma_walk_disc_occ(dr, dc, my, opp, r, c, 4);
    lemma_walk_disc_occ(dr, dc, my, opp, r, c, 5);
    lemma_walk_disc_occ(dr, dc, my, opp, r, c, 6);
    lemma_walk_disc_occ(dr, dc, my, opp, r, c, 7);
    let hits = walk_hits_mine(tr, my, opp, m0) && m0 & opp != 0;
    if hits {
        if m1 & opp == 0 {
            assert(run_to_own(my, opp, r, c, dr, dc, 1));
        } else if m2 & opp == 0 {
            assert(run_to_own(my, opp, r, c, dr, dc, 2));
        } else if m3 & opp == 0 {
            assert(run_to_own(my, opp, r, c, dr, dc, 3));
        } else if m4 & opp == 0 {
            assert(run_to_own(my, opp, r, c, dr, dc, 4));
        } else if m5 & opp == 0 {
            assert(run_to_own(my, opp, r, c, dr, dc, 5));
        } else if m6 & opp == 0 {
            assert(run_to_own(my, opp, r, c, dr, dc, 6));
        } else {
            assert(false);
        }
    }
    if exists|k: int| #[trigger] run_to_own(my, opp, r, c, dr, dc, k) {
        let k = choose|k: int| #[trigger] run_to_own(my, opp, r, c, dr, dc, k);
        assert(occ(opp, r + 1 * dr, c + 1 * dc));
        assert(occ(my, r + (k + 1) * dr, c + (k + 1) * dc));
        assert(!occ(opp, r + (k + 1) * dr, c + (k + 1) * dc));
        if k == 1 {
            assert(hits);
        } else if k == 2 {
            assert(occ(opp, r + 2 * dr, c + 2 * dc));
            assert(hits);
        } else if k == 3 {
            assert(occ(opp, r + 2 * dr, c + 2 * dc) && occ(opp, r + 3 * dr, c + 3 * dc));
            assert(hits);
        } else if k == 4 {
            assert(occ(opp, r + 2 * dr, c + 2 * dc) && occ(opp, r + 3 * dr, c + 3 * dc) && occ(
                opp,
                r + 4 * dr,
                c + 4 * dc,
            ));
            assert(hits);
        } else if k == 5 {
            assert(occ(opp, r + 2 * dr, c + 2 * dc) && occ(opp, r + 3 * dr, c + 3 * dc) && occ(
                opp,
                r + 4 * dr,
                c + 4 * dc,
            ) && occ(opp, r + 5 * dr, c + 5 * dc));
            assert(hits);
        } else {
            assert(occ(opp, r + 2 * dr, c + 2 * dc) && occ(opp, r + 3 * dr, c + 3 * dc) && occ(
                opp,
                r + 4 * dr,
                c + 4 * dc,
            ) && occ(opp, r + 5 * dr, c + 5 * dc) && occ(opp, r + 6 * dr, c + 6 * dc));
            assert(hits);
        }
    }
}

/// A square where the side holding `my` may legally place a disc, read
/// directly off the rules: the square is on the board and vacant, and
/// in some compass direction a run of enemy discs ends on an own disc.
pub open spec fn legal_square(my: u64, opp: u64, r: int, c: int) -> bool {
    in_board(r, c) && !occ(my, r, c) && !occ(opp, r, c) && exists|dr: int, dc: int, k: int|
        dir_ok(dr, dc) && #[trigger] run_to_own(my, opp, r, c, dr, dc, k)
}

/// The bit-parallel move generator agrees with the brute-force scan:
/// square (`r`, `c`) is in the generated word exactly when the
/// square-by-square reading of the rules calls it a legal move.
pub proof fn lemma_generator_matches_brute_scan(my: u64, opp: u64, r: int, c: int)
    requires
        my & opp == 0,
        in_board(r, c),
    ensures
        bit64(spec_valid_moves(my, opp), sq(r, c) as u64) == legal_square(my, opp, r, c),
{
    let t = sq(r, c) as u64;
    let d = 1u64 << t;
    lemma_legal_iff_flips(my, opp, t);
    lemma_single_and(my, opp, t);
    lemma_union8_nonzero(
        spec_flips_in_dir(Transfer(Dir::Right, 0xffffffffffffff00, 8), my, opp, d),
        spec_flips_in_dir(Transfer(Dir::Right, 0xfefefefefefefe00, 9), my, opp, d),
        spec_flips_in_dir(Transfer(Dir::Right, 0x7f7f7f7f7f7f7f00, 7), my, opp, d),
        spec_flips_in_dir(Transfer(Dir::Right, 0xfefefefefefefefe, 1), my, opp, d),
        spec_flips_in_dir(Transfer(Dir::Left, 0x7f7f7f7f7f7f7f7f, 1), my, opp, d),
        spec_flips_in_dir(Transfer(Dir::Left, 0x00fefefefefefefe, 7), my, opp, d),
        spec_flips_in_dir(Transfer(Dir::Left, 0x007f7f7f7f7f7f7f, 9), my, opp, d),
        spec_flips_in_dir(Transfer(Dir::Left, 0x00ffffffffffffff, 8), my, opp, d),
    );
    lemma_flips_nonzero(transfer_of(-1, 0), my, opp, d);
    lemma_flips_nonzero(transfer_of(-1, -1), my, opp, d);
    lemma_flips_nonzero(transfer_of(-1, 1), my, opp, d);
    lemma_flips_nonzero(transfer_of(0, -1), my, opp, d);
    lemma_flips_nonzero(transfer_of(0, 1), my, opp, d);
    lemma_flips_nonzero(transfer_of(1, -1), my, opp, d);
    lemma_flips_nonzero(transfer_of(1, 1), my, opp, d);
    lemma_flips_nonzero(transfer_of(1, 0), my, opp, d);
    lemma_walk_runs(-1, 0, my, opp, r, c);
    lemma_walk_runs(-1, -1, my, opp, r, c);
    lemma_walk_runs(-1, 1, my, opp, r, c);
    lemma_walk_runs(0, -1, my, opp, r, c);
    lemma_walk_runs(0, 1, my, opp, r, c);
    lemma_walk_runs(1, -1, my, opp, r, c);
    lemma_walk_runs(1, 1, my, opp, r, c);
    lemma_walk_runs(1, 0, my, opp, r, c);
    if exists|dr: int, dc: int, k: int|
        dir_ok(dr, dc) && #[trigger] run_to_own(my, opp, r, c, dr, dc, k) {
        let (dr, dc, k) = choose|dr: int, dc: int, k: int|
            dir_ok(dr, dc) && #[trigger] run_to_own(my, opp, r, c, dr, dc, k);
        assert(dr == -1 || dr == 0 || dr == 1);
        assert(dc == -1 || dc == 0 || dc == 1);
        assert(spec_flip_set(my, opp, d) != 0);
    }
}

} // verus!
