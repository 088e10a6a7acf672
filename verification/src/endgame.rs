//! Endgame solver: exact alpha-beta negamax to the end of the game.
//!
//! Below the endgame threshold every verdict is an exact final disc
//! differential.  The solver searches children in order of rising
//! opponent mobility to sharpen the alpha-beta window; a result inside
//! the window is the true game value, a result on or outside a bound is
//! a proof that the true value lies at or beyond it.  An optional lock
//! mode stops exploring a root move's siblings at the first move
//! proven non-losing, trading the true optimum for speed; below the
//! root every search is exact.

use vstd::prelude::*;

use crate::bit_board::{lemma_flip_set_subset, move_bit_board, singleton_or_empty, spec_move_my,
    spec_move_opp, spec_valid_moves, valid_moves_set};
use crate::bits::{bit64, lemma_pop64_bound, lemma_pop64_remove_subset, lemma_pop64_singleton,
    pop64};
use crate::score::{disk_to_coord, Coord, Score};
use crate::search::{spec_score_diff, spec_terminal};

verus! {

/// Floor below every reachable game value, standing in for the maximum
/// over an empty set of moves.
pub open spec fn no_move_floor() -> int {
    -100000
}

/// Exact final disc differential of the position under optimal play,
/// from the perspective of the side holding `my`.  A mover without a
/// move passes; the game ends when neither side can move.
pub open spec fn spec_end_value(my: u64, opp: u64) -> int
    decreases pop64(!(my | opp)), (if spec_valid_moves(my, opp) == 0 { 2int } else { 1int }), 0int,
        via spec_end_value_dec
{
    if spec_terminal(my, opp) {
        spec_score_diff(my, opp)
    } else if spec_valid_moves(my, opp) == 0 {
        -spec_end_value(opp, my)
    } else {
        spec_end_best(my, opp, spec_valid_moves(my, opp), 0)
    }
}

#[via_fn]
proof fn spec_end_value_dec(my: u64, opp: u64) {
    crate::bits::lemma_bit_comm(my, opp);
    lemma_valid_moves_clear(my, opp);
}

/// Greatest negated child value over the set bits of `moves` at and
/// above square `i`.
pub open spec fn spec_end_best(my: u64, opp: u64, moves: u64, i: int) -> int
    decreases pop64(!(my | opp)), 0int, 64 - i,
        when moves & (my | opp) == 0
{
    if i >= 64 {
        no_move_floor()
    } else {
        let rest = spec_end_best(my, opp, moves, i + 1);
        if bit64(moves, i as u64) {
            let disk = 1u64 << (i as u64);
            proof {
                lemma_child_vacancy(my, opp, moves, i as u64);
            }
            let c = -spec_end_value(spec_move_opp(my, opp, disk), spec_move_my(my, opp, disk));
            if c > rest {
                c
            } else {
                rest
            }
        } else {
            rest
        }
    }
}

/// The generator's moves are a subset of the vacant squares.
pub proof fn lemma_valid_moves_clear(my: u64, opp: u64)
    ensures
        spec_valid_moves(my, opp) & (my | opp) == 0,
{
    assert(spec_valid_moves(my, opp) & (my | opp) == 0) by (bit_vector);
}

/// Applying a legal move fills exactly one vacant square, so the
/// number of vacant squares drops by one; the child sides stay
/// disjoint.
pub proof fn lemma_child_vacancy(my: u64, opp: u64, moves: u64, i: u64)
    requires
        moves & (my | opp) == 0,
        i < 64,
        bit64(moves, i),
    ensures
        pop64(
            !(spec_move_opp(my, opp, 1u64 << i) | spec_move_my(my, opp, 1u64 << i)),
        ) < pop64(!(my | opp)),
{
    let disk = 1u64 << i;
    assert(disk & ((disk - 1) as u64) == 0 && disk != 0 && disk & (my | opp) == 0 && disk & !(my
        | opp) == disk) by (bit_vector)
        requires
            disk == 1u64 << i && i < 64 && (moves >> i) & 1 == 1 && moves & (my | opp) == 0,
    ;
    lemma_flip_set_subset(my, opp, disk);
    let flips = crate::bit_board::spec_flip_set(my, opp, disk);
    let nm = spec_move_my(my, opp, disk);
    let no = spec_move_opp(my, opp, disk);
    assert(!(no | nm) == !(my | opp) & !disk && disk & !(my | opp) == disk) by (bit_vector)
        requires
            nm == (my | disk | flips) && no == (opp & !flips) && flips & !opp == 0 && disk & (my
                | opp) == 0,
    ;
    lemma_pop64_remove_subset(!(my | opp), disk);
    lemma_pop64_singleton(disk);
}

/// The best verdict dominates every child at or above the start
/// square.
pub proof fn lemma_end_best_ge(my: u64, opp: u64, moves: u64, i: int, k: int)
    requires
        moves & (my | opp) == 0,
        0 <= i <= k < 64,
        bit64(moves, k as u64),
    ensures
        spec_end_best(my, opp, moves, i) >= -spec_end_value(
            spec_move_opp(my, opp, 1u64 << (k as u64)),
            spec_move_my(my, opp, 1u64 << (k as u64)),
        ),
    decreases 64 - i,
{
    if i < k {
        lemma_end_best_ge(my, opp, moves, i + 1, k);
    }
}

/// The best verdict is the floor or some child's negated value.
pub proof fn lemma_end_best_exists(my: u64, opp: u64, moves: u64, i: int)
    requires
        moves & (my | opp) == 0,
        0 <= i <= 64,
    ensures
        spec_end_best(my, opp, moves, i) == no_move_floor() || exists|k: int|
            i <= k < 64 && #[trigger] bit64(moves, k as u64) && spec_end_best(my, opp, moves, i)
                == -spec_end_value(
                spec_move_opp(my, opp, 1u64 << (k as u64)),
                spec_move_my(my, opp, 1u64 << (k as u64)),
            ),
    decreases 64 - i,
{
    if i < 64 {
        lemma_end_best_exists(my, opp, moves, i + 1);
    }
}

/// Every game value lies within one board of discs.
pub proof fn lemma_end_value_bound(my: u64, opp: u64)
    ensures
        -64 <= spec_end_value(my, opp) <= 64,
    decreases pop64(!(my | opp)), (if spec_valid_moves(my, opp) == 0 { 2int } else { 1int }), 1int,
{
    let moves = spec_valid_moves(my, opp);
    if spec_terminal(my, opp) {
        lemma_pop64_bound(my);
        lemma_pop64_bound(opp);
    } else if moves == 0 {
        crate::bits::lemma_bit_comm(my, opp);
        lemma_end_value_bound(opp, my);
    } else {
        lemma_valid_moves_clear(my, opp);
        lemma_end_best_bound(my, opp, moves, 0);
        vstd::std_specs::bits::axiom_u64_trailing_zeros(moves);
        let t = vstd::std_specs::bits::u64_trailing_zeros(moves) as u64;
        assert(bit64(moves, t));
        lemma_end_best_ge(my, opp, moves, 0, t as int);
        lemma_child_vacancy(my, opp, moves, t);
        lemma_end_value_bound(
            spec_move_opp(my, opp, 1u64 << t),
            spec_move_my(my, opp, 1u64 << t),
        );
    }
}

/// Every verdict of the fold above the floor is some child's value, so
/// it inherits the value bound.
proof fn lemma_end_best_bound(my: u64, opp: u64, moves: u64, i: int)
    requires
        moves & (my | opp) == 0,
        0 <= i <= 64,
    ensures
        spec_end_best(my, opp, moves, i) == no_move_floor() || (-64 <= spec_end_best(
            my,
            opp,
            moves,
            i,
        ) <= 64),
    decreases pop64(!(my | opp)), 0int, 64 - i,
{
    if i < 64 {
        lemma_end_best_bound(my, opp, moves, i + 1);
        if bit64(moves, i as u64) {
            lemma_child_vacancy(my, opp, moves, i as u64);
            lemma_end_value_bound(
                spec_move_opp(my, opp, 1u64 << (i as u64)),
                spec_move_my(my, opp, 1u64 << (i as u64)),
            );
        }
    }
}

/// Pass identity of the exact solver: when the mover has no legal
/// move, the game value is the negation of the swapped position's
/// value.
pub proof fn lemma_pass_negamax_end(my: u64, opp: u64)
    requires
        spec_valid_moves(my, opp) == 0,
    ensures
        spec_end_value(my, opp) == -spec_end_value(opp, my),
{
    lemma_pop64_bound(my);
    lemma_pop64_bound(opp);
}

/// A finished position — no legal move for either side — is worth
/// exactly its disc differential, at every search depth and in the
/// exact solver alike, with no further recursion to speak of.
pub proof fn lemma_terminal_verdict(my: u64, opp: u64, depth: nat)
    requires
        spec_terminal(my, opp),
    ensures
        crate::search::spec_midgame(my, opp, depth) == Score::Ended(
            spec_score_diff(my, opp) as i16,
        ),
        spec_end_value(my, opp) == spec_score_diff(my, opp),
{
}

/// A single disc lying on a set square of `moves`.
pub open spec fn disk_of_moves(moves: u64, d: u64) -> bool {
    exists|k: u64| k < 64 && d == 1u64 << k && #[trigger] bit64(moves, k)
}

/// Greatest negated child value over the first `k` discs of the
/// candidate list `s`.
pub open spec fn seq_prefix_max(my: u64, opp: u64, s: Seq<(u32, u64)>, k: int) -> int
    decreases k,
{
    if k <= 0 {
        no_move_floor()
    } else {
        let prev = seq_prefix_max(my, opp, s, k - 1);
        let c = -spec_end_value(
            spec_move_opp(my, opp, s[k - 1].1),
            spec_move_my(my, opp, s[k - 1].1),
        );
        if c > prev {
            c
        } else {
            prev
        }
    }
}

/// The prefix maximum dominates every listed child.
proof fn lemma_seq_max_ge(my: u64, opp: u64, s: Seq<(u32, u64)>, k: int, j: int)
    requires
        0 <= j < k <= s.len(),
    ensures
        seq_prefix_max(my, opp, s, k) >= -spec_end_value(
            spec_move_opp(my, opp, s[j].1),
            spec_move_my(my, opp, s[j].1),
        ),
    decreases k,
{
    if j < k - 1 {
        lemma_seq_max_ge(my, opp, s, k - 1, j);
    }
}

/// The prefix maximum is the floor or some listed child's value.
proof fn lemma_seq_max_exists(my: u64, opp: u64, s: Seq<(u32, u64)>, k: int)
    requires
        0 <= k <= s.len(),
    ensures
        seq_prefix_max(my, opp, s, k) == no_move_floor() || exists|j: int|
            0 <= j < k && seq_prefix_max(my, opp, s, k) == -spec_end_value(
                spec_move_opp(my, opp, #[trigger] s[j].1),
                spec_move_my(my, opp, s[j].1),
            ),
    decreases k,
{
    if k > 0 {
        lemma_seq_max_exists(my, opp, s, k - 1);
    }
}

/// A candidate list that lists exactly the legal moves has the game's
/// best verdict as its maximum.
proof fn lemma_seq_max_eq_end_best(my: u64, opp: u64, moves: u64, s: Seq<(u32, u64)>)
    requires
        moves & (my | opp) == 0,
        moves != 0,
        forall|j: int| 0 <= j < s.len() ==> disk_of_moves(moves, (#[trigger] s[j]).1),
        forall|k: u64|
            k < 64 && #[trigger] bit64(moves, k) ==> exists|j: int|
                0 <= j < s.len() && (#[trigger] s[j]).1 == 1u64 << k,
    ensures
        seq_prefix_max(my, opp, s, s.len() as int) == spec_end_best(my, opp, moves, 0),
{
    let m = seq_prefix_max(my, opp, s, s.len() as int);
    let eb = spec_end_best(my, opp, moves, 0);
    vstd::std_specs::bits::axiom_u64_trailing_zeros(moves);
    let t = vstd::std_specs::bits::u64_trailing_zeros(moves) as u64;
    assert(bit64(moves, t));
    assert(exists|j: int| 0 <= j < s.len() && (#[trigger] s[j]).1 == 1u64 << t);
    let jt = choose|j: int| 0 <= j < s.len() && (#[trigger] s[j]).1 == 1u64 << t;
    lemma_seq_max_ge(my, opp, s, s.len() as int, jt);
    lemma_end_best_ge(my, opp, moves, 0, t as int);
    lemma_end_value_bound(spec_move_opp(my, opp, 1u64 << t), spec_move_my(my, opp, 1u64 << t));
    lemma_seq_max_exists(my, opp, s, s.len() as int);
    assert(m != no_move_floor());
    let jw = choose|j: int|
        0 <= j < s.len() && m == -spec_end_value(
            spec_move_opp(my, opp, s[j].1),
            spec_move_my(my, opp, s[j].1),
        );
    assert(disk_of_moves(moves, s[jw].1));
    let kw = choose|k: u64| k < 64 && s[jw].1 == 1u64 << k && bit64(moves, k);
    lemma_end_best_ge(my, opp, moves, 0, kw as int);
    assert(eb >= m);
    lemma_end_best_exists(my, opp, moves, 0);
    assert(eb != no_move_floor());
    let ke = choose|k: int|
        0 <= k < 64 && #[trigger] bit64(moves, k as u64) && eb == -spec_end_value(
            spec_move_opp(my, opp, 1u64 << (k as u64)),
            spec_move_my(my, opp, 1u64 << (k as u64)),
        );
    assert(exists|j: int| 0 <= j < s.len() && (#[trigger] s[j]).1 == 1u64 << (ke as u64));
    let je = choose|j: int| 0 <= j < s.len() && (#[trigger] s[j]).1 == 1u64 << (ke as u64);
    lemma_seq_max_ge(my, opp, s, s.len() as int, je);
    assert(m >= eb);
}

/// Removing one element of a sequence keeps exactly the other
/// occurrences.
pub(crate) proof fn lemma_remove_contains<T>(s: Seq<T>, i: int, x: T)
    requires
        0 <= i < s.len(),
    ensures
        s.contains(x) <==> (s.remove(i).contains(x) || x == s[i]),
{
    if s.contains(x) {
        let w = choose|w: int| 0 <= w < s.len() && s[w] == x;
        if w < i {
            assert(s.remove(i)[w] == x);
        } else if w > i {
            assert(s.remove(i)[w - 1] == x);
        }
    }
    if s.remove(i).contains(x) {
        let w = choose|w: int| 0 <= w < s.remove(i).len() && s.remove(i)[w] == x;
        if w < i {
            assert(s[w] == x);
        } else {
            assert(s[w + 1] == x);
        }
    }
}

/// A repeated element counts at least twice in the sequence's
/// multiset.
proof fn lemma_dup_count<T>(s: Seq<T>, i: int, j: int)
    requires
        0 <= i < j < s.len(),
        s[i] == s[j],
    ensures
        s.to_multiset().count(s[i]) >= 2,
{
    broadcast use vstd::multiset::group_multiset_axioms;

    assert(s.remove(j)[i] == s[i]);
    assert(s.remove(j).contains(s[i]));
    vstd::seq_lib::to_multiset_contains(s.remove(j), s[i]);
    assert(s.remove(j).to_multiset().count(s[i]) > 0);
    vstd::seq_lib::to_multiset_remove(s, j);
    assert(s.remove(j).to_multiset() == s.to_multiset().remove(s[j]));
    assert(s.contains(s[j]));
    vstd::seq_lib::to_multiset_contains(s, s[j]);
    assert(s.to_multiset().count(s[j]) > 0);
    assert(s.to_multiset().remove(s[j]).count(s[i]) == s.to_multiset().count(s[i]) - 1);
}

/// An element counted at least twice sits at two different positions.
proof fn lemma_two_indices<T>(s: Seq<T>, x: T)
    requires
        s.to_multiset().count(x) >= 2,
    ensures
        exists|i: int, j: int| 0 <= i < j < s.len() && #[trigger] s[i] == x && #[trigger] s[j]
            == x,
{
    broadcast use vstd::multiset::group_multiset_axioms;

    vstd::seq_lib::to_multiset_contains(s, x);
    assert(s.contains(x));
    let w = choose|w: int| 0 <= w < s.len() && s[w] == x;
    vstd::seq_lib::to_multiset_remove(s, w);
    assert(s.remove(w).to_multiset() == s.to_multiset().remove(s[w]));
    assert(s.remove(w).to_multiset().count(x) >= 1);
    vstd::seq_lib::to_multiset_contains(s.remove(w), x);
    assert(s.remove(w).contains(x));
    let w2 = choose|w2: int| 0 <= w2 < s.remove(w).len() && s.remove(w)[w2] == x;
    let wo = if w2 < w {
        w2
    } else {
        w2 + 1
    };
    assert(s[wo] == x);
    if wo < w {
        assert(s[wo] == x && s[w] == x);
    } else {
        assert(s[w] == x && s[wo] == x);
    }
}

/// A permutation of scored moves with pairwise different squares keeps
/// its squares pairwise different.
proof fn lemma_perm_distinct_coords(pre: Seq<(Coord, i16)>, post: Seq<(Coord, i16)>)
    requires
        post.to_multiset() == pre.to_multiset(),
        forall|a: int, b: int| 0 <= a < b < pre.len() ==> (#[trigger] pre[a]).0 != (
        #[trigger] pre[b]).0,
    ensures
        forall|a: int, b: int| 0 <= a < b < post.len() ==> (#[trigger] post[a]).0 != (
        #[trigger] post[b]).0,
{
    assert forall|a: int, b: int| 0 <= a < b < post.len() implies (#[trigger] post[a]).0 != (
    #[trigger] post[b]).0 by {
        if post[a].0 == post[b].0 {
            if post[a] == post[b] {
                lemma_dup_count(post, a, b);
                lemma_two_indices(pre, post[a]);
            } else {
                assert(post.contains(post[a]) && post.contains(post[b]));
                vstd::seq_lib::to_multiset_contains(post, post[a]);
                vstd::seq_lib::to_multiset_contains(post, post[b]);
                vstd::seq_lib::to_multiset_contains(pre, post[a]);
                vstd::seq_lib::to_multiset_contains(pre, post[b]);
                assert(pre.to_multiset().count(post[a]) > 0);
                assert(pre.to_multiset().count(post[b]) > 0);
                assert(pre.contains(post[a]) && pre.contains(post[b]));
                let wa = choose|w: int| 0 <= w < pre.len() && pre[w] == post[a];
                let wb = choose|w: int| 0 <= w < pre.len() && pre[w] == post[b];
                assert(wa != wb);
                if wa < wb {
                    assert(pre[wa].0 != pre[wb].0);
                } else {
                    assert(pre[wb].0 != pre[wa].0);
                }
            }
        }
    }
}

/// A permutation of candidate moves with pairwise different discs
/// keeps its discs pairwise different.
proof fn lemma_perm_distinct_disks(pre: Seq<(u32, u64)>, post: Seq<(u32, u64)>)
    requires
        post.to_multiset() == pre.to_multiset(),
        forall|a: int, b: int| 0 <= a < b < pre.len() ==> (#[trigger] pre[a]).1 != (
        #[trigger] pre[b]).1,
    ensures
        forall|a: int, b: int| 0 <= a < b < post.len() ==> (#[trigger] post[a]).1 != (
        #[trigger] post[b]).1,
{
    assert forall|a: int, b: int| 0 <= a < b < post.len() implies (#[trigger] post[a]).1 != (
    #[trigger] post[b]).1 by {
        if post[a].1 == post[b].1 {
            if post[a] == post[b] {
                lemma_dup_count(post, a, b);
                lemma_two_indices(pre, post[a]);
            } else {
                assert(post.contains(post[a]) && post.contains(post[b]));
                vstd::seq_lib::to_multiset_contains(post, post[a]);
                vstd::seq_lib::to_multiset_contains(post, post[b]);
                vstd::seq_lib::to_multiset_contains(pre, post[a]);
                vstd::seq_lib::to_multiset_contains(pre, post[b]);
                assert(pre.to_multiset().count(post[a]) > 0);
                assert(pre.to_multiset().count(post[b]) > 0);
                assert(pre.contains(post[a]) && pre.contains(post[b]));
                let wa = choose|w: int| 0 <= w < pre.len() && pre[w] == post[a];
                let wb = choose|w: int| 0 <= w < pre.len() && pre[w] == post[b];
                assert(wa != wb);
                if wa < wb {
                    assert(pre[wa].1 != pre[wb].1);
                } else {
                    assert(pre[wb].1 != pre[wa].1);
                }
            }
        }
    }
}

/// Lists every legal move as a single disc, paired with the mobility
/// the opponent would have after it.
fn collect_moves(my: u64, opp: u64, moves: u64) -> (v: Vec<(u32, u64)>)
    requires
        my & opp == 0,
        moves == spec_valid_moves(my, opp),
    ensures
        forall|j: int|
            0 <= j < v@.len() ==> disk_of_moves(moves, (#[trigger] v@[j]).1) && v@[j].0 == pop64(
                spec_valid_moves(
                    spec_move_opp(my, opp, v@[j].1),
                    spec_move_my(my, opp, v@[j].1),
                ),
            ),
        forall|k: u64|
            k < 64 && #[trigger] bit64(moves, k) ==> exists|j: int|
                0 <= j < v@.len() && (#[trigger] v@[j]).1 == 1u64 << k,
        v@.len() == pop64(moves),
        forall|a: int, b: int| 0 <= a < b < v@.len() ==> (#[trigger] v@[a]).1 != (
        #[trigger] v@[b]).1,
{
    let mut out: Vec<(u32, u64)> = Vec::new();
    let mut rest = moves;
    let ghost mut idx: int = 0;
    proof {
        lemma_valid_moves_clear(my, opp);
    }
    while rest != 0
        invariant
            my & opp == 0,
            moves == spec_valid_moves(my, opp),
            moves & (my | opp) == 0,
            0 <= idx <= 64,
            forall|j: u64| j < 64 ==> ((#[trigger] bit64(rest, j)) == (j as int >= idx && bit64(
                moves,
                j,
            ))),
            forall|j: int|
                0 <= j < out@.len() ==> disk_of_moves(moves, (#[trigger] out@[j]).1) && out@[j].0
                    == pop64(
                    spec_valid_moves(
                        spec_move_opp(my, opp, out@[j].1),
                        spec_move_my(my, opp, out@[j].1),
                    ),
                ),
            forall|k: u64|
                k < 64 && #[trigger] bit64(moves, k) && (k as int) < idx ==> exists|j: int|
                    0 <= j < out@.len() && (#[trigger] out@[j]).1 == 1u64 << k,
            out@.len() + pop64(rest) == pop64(moves),
            forall|j: int|
                0 <= j < out@.len() ==> exists|k: u64|
                    k < 64 && (k as int) < idx && (#[trigger] out@[j]).1 == 1u64 << k,
            forall|a: int, b: int| 0 <= a < b < out@.len() ==> (#[trigger] out@[a]).1 != (
            #[trigger] out@[b]).1,
        decreases rest,
    {
        let t: u32 = rest.trailing_zeros();
        proof {
            vstd::std_specs::bits::axiom_u64_trailing_zeros(rest);
        }
        let disk: u64 = 1u64 << (t as u64);
        proof {
            let tt = t as u64;
            assert(bit64(rest, tt));
            assert(bit64(moves, tt));
            crate::bits::lemma_move_disk(moves, my | opp, tt);
        }
        let (nmy, nopp) = move_bit_board(my, opp, disk);
        let cnt = crate::bits::popcount(valid_moves_set(nopp, nmy));
        let ghost out_old = out@;
        out.push((cnt, disk));
        proof {
            let tt = t as u64;
            crate::search::lemma_clear_bit(rest, tt, tt);
            assert forall|j: u64| j < 64 implies ((#[trigger] bit64(rest ^ disk, j)) == (j as int
                >= tt as int + 1 && bit64(moves, j))) by {
                crate::search::lemma_clear_bit(rest, tt, j);
                if j < tt {
                    assert((rest >> j) & 1 == 0);
                }
            }
            assert(disk_of_moves(moves, disk));
            assert(out@[out@.len() - 1].1 == disk);
            crate::bits::lemma_move_disk(rest, 0, tt);
            crate::bits::lemma_pop64_remove_subset(rest, disk);
            crate::bits::lemma_pop64_singleton(disk);
            assert(out@.len() + pop64(rest ^ disk) == pop64(moves));
            assert forall|j: int| 0 <= j < out@.len() implies exists|k: u64|
                k < 64 && (k as int) < tt as int + 1 && (#[trigger] out@[j]).1 == 1u64 << k by {
                if j < out_old.len() {
                    assert(out@[j] == out_old[j]);
                    let kb = choose|k: u64|
                        k < 64 && (k as int) < idx && (#[trigger] out_old[j]).1 == 1u64 << k;
                    assert(kb < 64 && (kb as int) < tt as int + 1 && out@[j].1 == 1u64 << kb);
                } else {
                    assert(out@[j].1 == 1u64 << tt);
                }
            }
            assert forall|a: int, b: int| 0 <= a < b < out@.len() implies (#[trigger] out@[a]).1
                != (#[trigger] out@[b]).1 by {
                if b < out_old.len() {
                    assert(out@[a] == out_old[a] && out@[b] == out_old[b]);
                } else {
                    assert(out@[a] == out_old[a] && out@[b].1 == disk);
                    let kb = choose|k: u64|
                        k < 64 && (k as int) < idx && (#[trigger] out_old[a]).1 == 1u64 << k;
                    if out@[a].1 == disk {
                        crate::bits::lemma_shift_injective(kb, tt);
                        assert(false);
                    }
                }
            }
            assert forall|k: u64| k < 64 && #[trigger] bit64(moves, k) && (k as int) < tt as int
                + 1 implies exists|j: int| 0 <= j < out@.len() && (#[trigger] out@[j]).1 == 1u64
                << k by {
                if (k as int) >= idx {
                    if k != tt {
                        assert((rest >> k) & 1 == 0);
                        assert(!bit64(rest, k));
                        assert(false);
                    }
                    assert(out@[out@.len() - 1].1 == 1u64 << k);
                } else {
                    let w = choose|j: int| 0 <= j < out_old.len() && (#[trigger] out_old[j]).1
                        == 1u64 << k;
                    assert(out@[w] == out_old[w]);
                }
            }
            idx = tt as int + 1;
        }
        rest = rest ^ disk;
    }
    proof {
        assert forall|k: u64| k < 64 && #[trigger] bit64(moves, k) implies (k as int) < idx by {
            crate::bits::lemma_zero_bits(rest, k);
            assert(!bit64(rest, k));
        }
        assert(crate::bits::pop_nat(0) == 0);
        assert(pop64(rest) == 0);
    }
    out
}

/// Sorts the candidate list by rising opponent mobility, keeping
/// exactly the same discs.
fn sort_disks(v: Vec<(u32, u64)>) -> (r: Vec<(u32, u64)>)
    ensures
        r@.len() == v@.len(),
        forall|a: int, b: int| 0 <= a <= b < r@.len() ==> (#[trigger] r@[a]).0 <= (
        #[trigger] r@[b]).0,
        forall|x: (u32, u64)| r@.contains(x) <==> v@.contains(x),
        r@.to_multiset() == v@.to_multiset(),
{
    broadcast use vstd::seq_lib::group_to_multiset_ensures;
    broadcast use vstd::multiset::group_multiset_axioms;

    let mut rem = v;
    let mut out: Vec<(u32, u64)> = Vec::new();
    let ghost orig = rem@;
    proof {
        assert(out@.to_multiset().add(rem@.to_multiset()) =~= orig.to_multiset());
    }
    while rem.len() > 0
        invariant
            out@.len() + rem@.len() == orig.len(),
            out@.to_multiset().add(rem@.to_multiset()) == orig.to_multiset(),
            forall|a: int, b: int| 0 <= a <= b < out@.len() ==> (#[trigger] out@[a]).0 <= (
            #[trigger] out@[b]).0,
            forall|a: int, b: int|
                0 <= a < out@.len() && 0 <= b < rem@.len() ==> (#[trigger] out@[a]).0 <= (
                #[trigger] rem@[b]).0,
            forall|x: (u32, u64)| (out@.contains(x) || rem@.contains(x)) <==> orig.contains(x),
        decreases rem@.len(),
    {
        let mut mi: usize = 0;
        let mut i: usize = 1;
        while i < rem.len()
            invariant
                mi < i <= rem@.len(),
                rem@.len() > 0,
                forall|j: int| 0 <= j < i ==> rem@[mi as int].0 <= (#[trigger] rem@[j]).0,
            decreases rem@.len() - i,
        {
            if rem[i].0 < rem[mi].0 {
                mi = i;
            }
            i = i + 1;
        }
        let ghost rem_old = rem@;
        let ghost out_old = out@;
        let e = rem.remove(mi);
        out.push(e);
        proof {
            assert(rem_old[mi as int] == e);
            assert(rem_old.contains(e));
            vstd::seq_lib::to_multiset_contains(rem_old, e);
            vstd::seq_lib::to_multiset_remove(rem_old, mi as int);
            vstd::seq_lib::to_multiset_build(out_old, e);
            assert(rem@.to_multiset() == rem_old.to_multiset().remove(e));
            assert(out@.to_multiset() =~= out_old.to_multiset().insert(e));
            assert forall|x: (u32, u64)|
                #[trigger] out@.to_multiset().add(rem@.to_multiset()).count(x)
                    == out_old.to_multiset().add(rem_old.to_multiset()).count(x) by {}
            assert(out@.to_multiset().add(rem@.to_multiset()) =~= out_old.to_multiset().add(
                rem_old.to_multiset(),
            ));
            assert forall|x: (u32, u64)| (out@.contains(x) || rem@.contains(x))
                <==> orig.contains(x) by {
                lemma_remove_contains(rem_old, mi as int, x);
                assert(out@ == out_old.push(e));
                if out_old.contains(x) {
                    let w = choose|w: int| 0 <= w < out_old.len() && out_old[w] == x;
                    assert(out@[w] == x);
                }
                if x == e {
                    assert(out@[out_old.len() as int] == x);
                }
                if out@.contains(x) {
                    let w = choose|w: int| 0 <= w < out@.len() && out@[w] == x;
                    if w < out_old.len() {
                        assert(out_old[w] == x);
                    } else {
                        assert(x == e);
                    }
                }
            }
            assert forall|b: int| 0 <= b < rem@.len() implies e.0 <= (#[trigger] rem@[b]).0 by {
                if b < mi as int {
                    assert(rem@[b] == rem_old[b]);
                } else {
                    assert(rem@[b] == rem_old[b + 1]);
                }
            }
        }
    }
    proof {
        assert(out@.to_multiset().add(rem@.to_multiset()) =~= out@.to_multiset());
    }
    out
}

/// Properties of one solver verdict `s` against the window
/// `(alpha, beta)`: a verdict inside the window is the exact game
/// value, one at or beyond a bound is a proof that the value lies at
/// or beyond it, and a trustworthy (non-defunct) verdict is exact.
pub open spec fn end_window_ok(
    my: u64,
    opp: u64,
    alpha: i16,
    beta: i16,
    s: i16,
    defunct: bool,
) -> bool {
    let v = spec_end_value(my, opp);
    &&& (s <= alpha ==> v <= s)
    &&& (s >= beta ==> v >= s)
    &&& (alpha < s < beta ==> s == v)
    &&& (defunct ==> (s <= alpha || s >= beta))
    &&& (!defunct ==> s == v)
}

/// Lists every legal move as a single disc, ordered by rising
/// opponent mobility.
fn ordered_moves(my: u64, opp: u64, moves: u64) -> (v: Vec<(u32, u64)>)
    requires
        my & opp == 0,
        moves == spec_valid_moves(my, opp),
    ensures
        forall|j: int| 0 <= j < v@.len() ==> disk_of_moves(moves, (#[trigger] v@[j]).1),
        forall|kb: u64|
            kb < 64 && #[trigger] bit64(moves, kb) ==> exists|j: int|
                0 <= j < v@.len() && (#[trigger] v@[j]).1 == 1u64 << kb,
        forall|a: int, b: int| 0 <= a <= b < v@.len() ==> (#[trigger] v@[a]).0 <= (
        #[trigger] v@[b]).0,
        v@.len() == pop64(moves),
        forall|a: int, b: int| 0 <= a < b < v@.len() ==> (#[trigger] v@[a]).1 != (
        #[trigger] v@[b]).1,
{
    let collected = collect_moves(my, opp, moves);
    let ghost cseq = collected@;
    let disks = sort_disks(collected);
    proof {
        assert forall|j: int| 0 <= j < disks@.len() implies disk_of_moves(
            moves,
            (#[trigger] disks@[j]).1,
        ) by {
            assert(disks@.contains(disks@[j]));
            assert(cseq.contains(disks@[j]));
            let w = choose|w: int| 0 <= w < cseq.len() && cseq[w] == disks@[j];
            assert(disk_of_moves(moves, cseq[w].1));
        }
        assert forall|kb: u64| kb < 64 && #[trigger] bit64(moves, kb) implies exists|j: int|
            0 <= j < disks@.len() && (#[trigger] disks@[j]).1 == 1u64 << kb by {
            let w = choose|w: int| 0 <= w < cseq.len() && (#[trigger] cseq[w]).1 == 1u64 << kb;
            assert(cseq.contains(cseq[w]));
            assert(disks@.contains(cseq[w]));
            let w2 = choose|w2: int| 0 <= w2 < disks@.len() && disks@[w2] == cseq[w];
            assert(disks@[w2].1 == 1u64 << kb);
        }
        lemma_perm_distinct_disks(cseq, disks@);
    }
    disks
}

/// The larger of two values.
pub open spec fn max_of(a: int, b: int) -> int {
    if a > b {
        a
    } else {
        b
    }
}

/// Exact alpha-beta negamax over the window `(alpha, beta)`.  Children
/// are searched in order of rising opponent mobility, each over the
/// negated window; a child verdict that beats `beta` cuts the node
/// off.  The third result marks a defunct verdict, one bounded by the
/// window rather than exact, whose (then empty) line must not be
/// trusted; a finished position returns its exact differential at
/// once.
pub(crate) fn ai_eval_till_end_internal(
    my: u64,
    opp: u64,
    alpha: i16,
    beta: i16,
    nnodes: &mut u64,
) -> (r: (i16, Vec<u64>, bool))
    requires
        my & opp == 0,
        -1024 <= alpha,
        alpha < beta,
        beta <= 1024,
    ensures
        -1024 <= r.0 <= 1024,
        end_window_ok(my, opp, alpha, beta, r.0, r.2),
        spec_terminal(my, opp) ==> r.0 == spec_score_diff(my, opp) && r.2 == false && r.1@.len()
            == 0 && *final(nnodes) == (*old(nnodes)).saturating_add(1),
        r.2 ==> r.1@.len() == 0,
        *final(nnodes) >= *old(nnodes),
    decreases pop64(!(my | opp)), (if spec_valid_moves(my, opp) == 0 { 2int } else { 1int }),
{
    *nnodes = nnodes.saturating_add(1);
    let moves = valid_moves_set(my, opp);
    if moves == 0 && valid_moves_set(opp, my) == 0 {
        proof {
            lemma_pop64_bound(my);
            lemma_pop64_bound(opp);
        }
        let score = crate::bit_board::get_score_diff(my, opp);
        return (score, Vec::new(), false);
    }
    if moves == 0 {
        proof {
            crate::bits::lemma_bit_comm(my, opp);
        }
        let (score, mut line, defunct) = ai_eval_till_end_internal(opp, my, -beta, -alpha, nnodes);
        if defunct {
            return (-score, Vec::new(), true);
        }
        line.push(0);
        return (-score, line, false);
    }
    let disks = ordered_moves(my, opp, moves);
    proof {
        lemma_valid_moves_clear(my, opp);
    }
    let mut ma = alpha;
    let mut line: Vec<u64> = Vec::new();
    let mut found = false;
    let mut k: usize = 0;
    while k < disks.len()
        invariant
            my & opp == 0,
            moves == spec_valid_moves(my, opp),
            moves & (my | opp) == 0,
            moves != 0,
            -1024 <= alpha,
            alpha < beta,
            beta <= 1024,
            alpha <= ma < beta,
            k <= disks@.len(),
            forall|j: int| 0 <= j < disks@.len() ==> disk_of_moves(moves, (#[trigger] disks@[j]).1),
            forall|kb: u64|
                kb < 64 && #[trigger] bit64(moves, kb) ==> exists|j: int|
                    0 <= j < disks@.len() && (#[trigger] disks@[j]).1 == 1u64 << kb,
            ma as int == max_of(alpha as int, seq_prefix_max(my, opp, disks@, k as int)),
            found <==> ma > alpha,
            !found ==> line@.len() == 0,
            *nnodes >= *old(nnodes),
        decreases disks@.len() - k,
    {
        let disk = disks[k].1;
        proof {
            assert(disk_of_moves(moves, disk));
        }
        let ghost kk = choose|kb: u64| kb < 64 && disk == 1u64 << kb && #[trigger] bit64(
            moves,
            kb,
        );
        proof {
            crate::bits::lemma_move_disk(moves, my | opp, kk);
        }
        let (nmy, nopp) = move_bit_board(my, opp, disk);
        proof {
            crate::bits::lemma_bit_comm(nmy, nopp);
            lemma_child_vacancy(my, opp, moves, kk);
        }
        let ghost ma_old = ma;
        let (new_score, mut newline, defunct) = ai_eval_till_end_internal(
            nopp,
            nmy,
            -beta,
            -ma,
            nnodes,
        );
        let ghost vc = spec_end_value(nopp, nmy);
        proof {
            lemma_end_value_bound(nopp, nmy);
        }
        if ma < -new_score {
            ma = -new_score;
            if !defunct {
                newline.push(disk);
                line = newline;
                found = true;
            }
        }
        proof {
            assert(seq_prefix_max(my, opp, disks@, k as int + 1) == max_of(
                seq_prefix_max(my, opp, disks@, k as int),
                -vc,
            ));
            if ma_old < -new_score {
                if new_score <= -beta {
                    assert(vc <= new_score);
                } else {
                    assert(-beta < new_score < -ma_old);
                    assert(new_score == vc);
                    assert(!defunct);
                }
            } else {
                if new_score >= -ma_old {
                    assert(vc >= new_score);
                    assert(-vc <= ma_old);
                } else if new_score <= -beta {
                    assert(false);
                } else {
                    assert(new_score == vc);
                    assert(-vc <= ma_old);
                }
            }
        }
        if ma >= beta {
            proof {
                lemma_end_best_ge(my, opp, moves, 0, kk as int);
                assert(new_score <= -beta);
                assert(vc <= new_score);
                assert(spec_end_value(my, opp) == spec_end_best(my, opp, moves, 0));
                assert(spec_end_value(my, opp) >= -vc >= ma as int);
            }
            return (ma, Vec::new(), true);
        }
        k = k + 1;
    }
    proof {
        lemma_seq_max_eq_end_best(my, opp, moves, disks@);
        assert(spec_end_value(my, opp) == spec_end_best(my, opp, moves, 0));
        assert(ma as int == max_of(alpha as int, spec_end_value(my, opp)));
    }
    (ma, line, !found)
}

/// The solver agrees with a full unpruned minimax: over the widest
/// window every verdict it may return is the exact game value, since
/// the game value never reaches either bound.
pub proof fn lemma_full_window_exact(my: u64, opp: u64, s: i16, defunct: bool)
    requires
        end_window_ok(my, opp, -1024i16, 1024i16, s, defunct),
    ensures
        s == spec_end_value(my, opp),
{
    lemma_end_value_bound(my, opp);
}

/// Sorts scored moves by rising score, keeping exactly the same
/// entries.
fn sort_entries(v: Vec<(Coord, i16)>) -> (r: Vec<(Coord, i16)>)
    ensures
        r@.len() == v@.len(),
        forall|a: int, b: int| 0 <= a <= b < r@.len() ==> (#[trigger] r@[a]).1 <= (
        #[trigger] r@[b]).1,
        forall|x: (Coord, i16)| r@.contains(x) <==> v@.contains(x),
        r@.to_multiset() == v@.to_multiset(),
{
    broadcast use vstd::seq_lib::group_to_multiset_ensures;
    broadcast use vstd::multiset::group_multiset_axioms;

    let mut rem = v;
    let mut out: Vec<(Coord, i16)> = Vec::new();
    let ghost orig = rem@;
    proof {
        assert(out@.to_multiset().add(rem@.to_multiset()) =~= orig.to_multiset());
    }
    while rem.len() > 0
        invariant
            out@.len() + rem@.len() == orig.len(),
            out@.to_multiset().add(rem@.to_multiset()) == orig.to_multiset(),
            forall|a: int, b: int| 0 <= a <= b < out@.len() ==> (#[trigger] out@[a]).1 <= (
            #[trigger] out@[b]).1,
            forall|a: int, b: int|
                0 <= a < out@.len() && 0 <= b < rem@.len() ==> (#[trigger] out@[a]).1 <= (
                #[trigger] rem@[b]).1,
            forall|x: (Coord, i16)| (out@.contains(x) || rem@.contains(x)) <==> orig.contains(x),
        decreases rem@.len(),
    {
        let mut mi: usize = 0;
        let mut i: usize = 1;
        while i < rem.len()
            invariant
                mi < i <= rem@.len(),
                rem@.len() > 0,
                forall|j: int| 0 <= j < i ==> rem@[mi as int].1 <= (#[trigger] rem@[j]).1,
            decreases rem@.len() - i,
        {
            if rem[i].1 < rem[mi].1 {
                mi = i;
            }
            i = i + 1;
        }
        let ghost rem_old = rem@;
        let ghost out_old = out@;
        let e = rem.remove(mi);
        out.push(e);
        proof {
            assert(rem_old[mi as int] == e);
            assert(rem_old.contains(e));
            vstd::seq_lib::to_multiset_contains(rem_old, e);
            vstd::seq_lib::to_multiset_remove(rem_old, mi as int);
            vstd::seq_lib::to_multiset_build(out_old, e);
            assert(rem@.to_multiset() == rem_old.to_multiset().remove(e));
            assert(out@.to_multiset() =~= out_old.to_multiset().insert(e));
            assert forall|x: (Coord, i16)|
                #[trigger] out@.to_multiset().add(rem@.to_multiset()).count(x)
                    == out_old.to_multiset().add(rem_old.to_multiset()).count(x) by {}
            assert(out@.to_multiset().add(rem@.to_multiset()) =~= out_old.to_multiset().add(
                rem_old.to_multiset(),
            ));
            assert forall|x: (Coord, i16)| (out@.contains(x) || rem@.contains(x))
                <==> orig.contains(x) by {
                lemma_remove_contains(rem_old, mi as int, x);
                assert(out@ == out_old.push(e));
                if out_old.contains(x) {
                    let w = choose|w: int| 0 <= w < out_old.len() && out_old[w] == x;
                    assert(out@[w] == x);
                }
                if x == e {
                    assert(out@[out_old.len() as int] == x);
                }
                if out@.contains(x) {
                    let w = choose|w: int| 0 <= w < out@.len() && out@[w] == x;
                    if w < out_old.len() {
                        assert(out_old[w] == x);
                    } else {
                        assert(x == e);
                    }
                }
            }
            assert forall|b: int| 0 <= b < rem@.len() implies e.1 <= (#[trigger] rem@[b]).1 by {
                if b < mi as int {
                    assert(rem@[b] == rem_old[b]);
                } else {
                    assert(rem@[b] == rem_old[b + 1]);
                }
            }
        }
    }
    proof {
        assert(out@.to_multiset().add(rem@.to_multiset()) =~= out@.to_multiset());
    }
    out
}

/// One scored root move: its square is a legal move and its verdict
/// is the true game value of the position after it, wrapped as an
/// exact (`Ended`) score.
pub open spec fn end_entry_ok(my: u64, opp: u64, moves: u64, e: (Coord, Score)) -> bool {
    exists|kb: u64|
        kb < 64 && #[trigger] bit64(moves, kb) && e.0.row == kb / 8 && e.0.col == kb % 8 && e.1
            == Score::Ended(
            spec_end_value(spec_move_opp(my, opp, 1u64 << kb), spec_move_my(my, opp, 1u64 << kb)) as i16,
        )
}

/// A scored root move before its verdict is wrapped: the square is a
/// legal move and the score is the true game value of the child
/// position.
pub open spec fn raw_entry_ok(my: u64, opp: u64, moves: u64, e: (Coord, i16)) -> bool {
    exists|kb: u64|
        kb < 64 && #[trigger] bit64(moves, kb) && e.0.row == kb / 8 && e.0.col == kb % 8 && e.1
            as int == spec_end_value(
            spec_move_opp(my, opp, 1u64 << kb),
            spec_move_my(my, opp, 1u64 << kb),
        )
}

/// Scores legal root moves by exact endgame search, one child per
/// move over a full window narrowed from below by the best verdict so
/// far, and fills `moves_and_scores` with the verdicts, best
/// (smallest child score) first, at most one entry per square.  Every
/// listed verdict is the true game value of its child position.
/// Without lock pruning every strict improvement met in mobility
/// order is listed, among them the true optimum; in lock mode
/// (`pruning`) sibling exploration stops at the first move proven
/// non-losing, so whenever the mover has a non-losing move the list
/// holds an entry that proves one.
pub fn ai_eval_till_end(
    my: u64,
    opp: u64,
    moves: u64,
    moves_and_scores: &mut Vec<(Coord, Score)>,
    pruning: bool,
    nnodes: &mut u64,
)
    requires
        my & opp == 0,
        moves == spec_valid_moves(my, opp),
    ensures
        forall|i: int|
            0 <= i < final(moves_and_scores)@.len() ==> end_entry_ok(
                my,
                opp,
                moves,
                #[trigger] final(moves_and_scores)@[i],
            ),
        final(moves_and_scores)@.len() <= pop64(moves),
        moves != 0 ==> final(moves_and_scores)@.len() >= 1,
        forall|a: int, b: int|
            0 <= a < b < final(moves_and_scores)@.len() ==> (#[trigger] final(moves_and_scores)@[a]).0
                != (#[trigger] final(moves_and_scores)@[b]).0,
        forall|a: int, b: int|
            0 <= a <= b < final(moves_and_scores)@.len() ==> crate::score::score_val(
                (#[trigger] final(moves_and_scores)@[a]).1,
            ) <= crate::score::score_val((#[trigger] final(moves_and_scores)@[b]).1),
        !pruning && moves != 0 ==> exists|i: int|
            0 <= i < final(moves_and_scores)@.len() && (#[trigger] final(moves_and_scores)@[i]).1
                == Score::Ended((0 - spec_end_best(my, opp, moves, 0)) as i16),
        pruning && moves != 0 && spec_end_best(my, opp, moves, 0) >= 0 ==> exists|i: int|
            0 <= i < final(moves_and_scores)@.len() && crate::score::score_val(
                (#[trigger] final(moves_and_scores)@[i]).1,
            ) <= 0,
{
    let disks = ordered_moves(my, opp, moves);
    proof {
        lemma_valid_moves_clear(my, opp);
    }
    let mut scored: Vec<(Coord, i16)> = Vec::new();
    let mut ma: i16 = -1024;
    let mut k: usize = 0;
    while k < disks.len()
        invariant
            my & opp == 0,
            moves == spec_valid_moves(my, opp),
            moves & (my | opp) == 0,
            k <= disks@.len(),
            disks@.len() == pop64(moves),
            scored@.len() <= k,
            -1024 <= ma <= 64,
            forall|j: int| 0 <= j < disks@.len() ==> disk_of_moves(moves, (#[trigger] disks@[j]).1),
            forall|a: int, b: int| 0 <= a < b < disks@.len() ==> (#[trigger] disks@[a]).1 != (
            #[trigger] disks@[b]).1,
            forall|i: int|
                0 <= i < scored@.len() ==> raw_entry_ok(my, opp, moves, #[trigger] scored@[i]),
            forall|i: int|
                0 <= i < scored@.len() ==> exists|jd: int|
                    0 <= jd < k && (#[trigger] scored@[i]).0.row < 8 && scored@[i].0.col < 8
                        && disks@[jd].1 == 1u64 << ((8 * scored@[i].0.row + scored@[i].0.col) as u64),
            forall|a: int, b: int| 0 <= a < b < scored@.len() ==> (#[trigger] scored@[a]).0 != (
            #[trigger] scored@[b]).0,
            ma as int == max_of(-1024, seq_prefix_max(my, opp, disks@, k as int)),
            ma > -1024 ==> exists|i: int|
                0 <= i < scored@.len() && (#[trigger] scored@[i]).1 as int == -(ma as int),
            k > 0 ==> ma > -1024,
        ensures
            forall|i: int|
                0 <= i < scored@.len() ==> raw_entry_ok(my, opp, moves, #[trigger] scored@[i]),
            forall|a: int, b: int| 0 <= a < b < scored@.len() ==> (#[trigger] scored@[a]).0 != (
            #[trigger] scored@[b]).0,
            scored@.len() <= pop64(moves),
            ma as int == max_of(-1024, seq_prefix_max(my, opp, disks@, k as int)),
            ma > -1024 ==> exists|i: int|
                0 <= i < scored@.len() && (#[trigger] scored@[i]).1 as int == -(ma as int),
            k > 0 || k == disks@.len(),
            !pruning ==> k == disks@.len(),
            pruning ==> (k == disks@.len() || ma >= 0),
        decreases disks@.len() - k,
    {
        let disk = disks[k].1;
        proof {
            assert(disk_of_moves(moves, disk));
        }
        let ghost kk = choose|kb: u64|
            kb < 64 && disk == 1u64 << kb && #[trigger] bit64(moves, kb);
        proof {
            crate::bits::lemma_move_disk(moves, my | opp, kk);
        }
        let coord = disk_to_coord(disk);
        proof {
            let e = (8 * coord.row + coord.col) as u64;
            crate::bits::lemma_shift_injective(kk, e);
        }
        let (nmy, nopp) = move_bit_board(my, opp, disk);
        proof {
            crate::bits::lemma_bit_comm(nmy, nopp);
        }
        let ghost ma_old = ma;
        let mut sub_nnodes: u64 = 0;
        let (new_score, _newline, defunct) = ai_eval_till_end_internal(
            nopp,
            nmy,
            -1024,
            -ma,
            &mut sub_nnodes,
        );
        *nnodes = nnodes.saturating_add(sub_nnodes);
        let ghost vc = spec_end_value(nopp, nmy);
        proof {
            lemma_end_value_bound(nopp, nmy);
        }
        if ma < -new_score {
            ma = -new_score;
        }
        let ghost scored_old = scored@;
        if !defunct {
            scored.push((coord, new_score));
        }
        proof {
            assert(seq_prefix_max(my, opp, disks@, k as int + 1) == max_of(
                seq_prefix_max(my, opp, disks@, k as int),
                -vc,
            ));
            if ma_old < -new_score {
                assert(new_score > -1024);
                assert(-1024 < new_score < -ma_old);
                assert(new_score == vc);
                assert(!defunct);
                assert(scored@[scored@.len() - 1].1 as int == -(ma as int));
            } else {
                if new_score >= -ma_old {
                    assert(vc >= new_score);
                    assert(-vc <= ma_old);
                } else {
                    assert(new_score == vc);
                    assert(-vc <= ma_old);
                }
                if ma > -1024 {
                    let wi = choose|i: int|
                        0 <= i < scored_old.len() && (#[trigger] scored_old[i]).1 as int == -(
                        ma as int);
                    assert(scored@[wi] == scored_old[wi]);
                }
            }
            if !defunct {
                assert(new_score as int == vc);
            }
            if scored@.len() > scored_old.len() {
                assert forall|i: int| 0 <= i < scored@.len() implies raw_entry_ok(
                    my,
                    opp,
                    moves,
                    #[trigger] scored@[i],
                ) by {
                    if i < scored_old.len() {
                        assert(scored@[i] == scored_old[i]);
                    } else {
                        assert(scored@[i] == (coord, new_score));
                        assert(bit64(moves, kk));
                    }
                }
                assert forall|i: int| 0 <= i < scored@.len() implies exists|jd: int|
                    0 <= jd < k + 1 && (#[trigger] scored@[i]).0.row < 8 && scored@[i].0.col < 8
                        && disks@[jd].1 == 1u64 << ((8 * scored@[i].0.row + scored@[i].0.col) as u64) by {
                    if i < scored_old.len() {
                        assert(scored@[i] == scored_old[i]);
                        let jd = choose|jd: int|
                            0 <= jd < k && (#[trigger] scored_old[i]).0.row < 8
                                && scored_old[i].0.col < 8 && disks@[jd].1 == 1u64 << ((8
                                * scored_old[i].0.row + scored_old[i].0.col) as u64);
                        assert(0 <= jd < k + 1 && disks@[jd].1 == 1u64 << ((8 * scored@[i].0.row
                            + scored@[i].0.col) as u64));
                    } else {
                        assert(scored@[i] == (coord, new_score));
                        assert(disks@[k as int].1 == 1u64 << ((8 * coord.row
                            + coord.col) as u64));
                    }
                }
                assert forall|a: int, b: int| 0 <= a < b < scored@.len() implies (
                #[trigger] scored@[a]).0 != (#[trigger] scored@[b]).0 by {
                    if b < scored_old.len() {
                        assert(scored@[a] == scored_old[a] && scored@[b] == scored_old[b]);
                    } else {
                        assert(scored@[a] == scored_old[a] && scored@[b] == (coord, new_score));
                        let jd = choose|jd: int|
                            0 <= jd < k && (#[trigger] scored_old[a]).0.row < 8
                                && scored_old[a].0.col < 8 && disks@[jd].1 == 1u64 << ((8
                                * scored_old[a].0.row + scored_old[a].0.col) as u64);
                        if scored@[a].0 == coord {
                            assert(disks@[jd].1 == disks@[k as int].1);
                            assert(false);
                        }
                    }
                }
            }
        }
        if pruning && new_score <= 0 {
            k = k + 1;
            proof {
                assert(ma >= -new_score >= 0);
            }
            break ;
        }
        k = k + 1;
    }
    proof {
        if moves != 0 {
            vstd::std_specs::bits::axiom_u64_trailing_zeros(moves);
            let t = vstd::std_specs::bits::u64_trailing_zeros(moves) as u64;
            assert(bit64(moves, t));
            assert(disks@.len() >= 1);
            lemma_end_best_ge(my, opp, moves, 0, t as int);
            lemma_end_value_bound(
                spec_move_opp(my, opp, 1u64 << t),
                spec_move_my(my, opp, 1u64 << t),
            );
            assert(k > 0);
            assert(ma > -1024);
            if k == disks@.len() {
                lemma_seq_max_eq_end_best(my, opp, moves, disks@);
                assert(ma as int == spec_end_best(my, opp, moves, 0));
            }
        }
    }
    let ghost pre_sort = scored@;
    let sorted = sort_entries(scored);
    proof {
        assert forall|i: int| 0 <= i < sorted@.len() implies raw_entry_ok(
            my,
            opp,
            moves,
            #[trigger] sorted@[i],
        ) by {
            assert(sorted@.contains(sorted@[i]));
            assert(pre_sort.contains(sorted@[i]));
            let w = choose|w: int| 0 <= w < pre_sort.len() && pre_sort[w] == sorted@[i];
            assert(raw_entry_ok(my, opp, moves, pre_sort[w]));
        }
        lemma_perm_distinct_coords(pre_sort, sorted@);
        if moves != 0 {
            let wi = choose|i: int|
                0 <= i < pre_sort.len() && (#[trigger] pre_sort[i]).1 as int == -(ma as int);
            assert(pre_sort.contains(pre_sort[wi]));
            assert(sorted@.contains(pre_sort[wi]));
            let w2 = choose|w2: int| 0 <= w2 < sorted@.len() && sorted@[w2] == pre_sort[wi];
            assert((#[trigger] sorted@[w2]).1 as int == -(ma as int));
        }
    }
    let mut result: Vec<(Coord, Score)> = Vec::new();
    let mut i: usize = 0;
    while i < sorted.len()
        invariant
            my & opp == 0,
            moves == spec_valid_moves(my, opp),
            i <= sorted@.len(),
            result@.len() == i,
            forall|j: int|
                0 <= j < sorted@.len() ==> raw_entry_ok(my, opp, moves, #[trigger] sorted@[j]),
            forall|a: int, b: int| 0 <= a <= b < sorted@.len() ==> (#[trigger] sorted@[a]).1 <= (
            #[trigger] sorted@[b]).1,
            forall|j: int|
                0 <= j < i ==> (#[trigger] result@[j]) == (
                sorted@[j].0,
                Score::Ended(sorted@[j].1),
            ),
        decreases sorted@.len() - i,
    {
        let (c, v) = sorted[i];
        result.push((c, Score::Ended(v)));
        i = i + 1;
    }
    proof {
        assert forall|j: int| 0 <= j < result@.len() implies end_entry_ok(
            my,
            opp,
            moves,
            #[trigger] result@[j],
        ) by {
            assert(raw_entry_ok(my, opp, moves, sorted@[j]));
            let kb = choose|kb: u64|
                kb < 64 && #[trigger] bit64(moves, kb) && sorted@[j].0.row == kb / 8
                    && sorted@[j].0.col == kb % 8 && sorted@[j].1 as int == spec_end_value(
                    spec_move_opp(my, opp, 1u64 << kb),
                    spec_move_my(my, opp, 1u64 << kb),
                );
            lemma_end_value_bound(spec_move_opp(my, opp, 1u64 << kb), spec_move_my(my, opp, 1u64 << kb));
            assert(result@[j].1 == Score::Ended(sorted@[j].1));
        }
        if moves != 0 {
            let wi = choose|i2: int|
                0 <= i2 < sorted@.len() && (#[trigger] sorted@[i2]).1 as int == -(ma as int);
            assert(result@[wi].1 == Score::Ended(sorted@[wi].1));
            if !pruning {
                assert(result@[wi].1 == Score::Ended(
                    (0 - spec_end_best(my, opp, moves, 0)) as i16,
                ));
            }
            if pruning && spec_end_best(my, opp, moves, 0) >= 0 {
                assert(ma >= 0);
                assert(crate::score::score_val(result@[wi].1) <= 0);
            }
        }
    }
    *moves_and_scores = result;
}

} // verus!
