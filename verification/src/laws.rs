//! The library's general laws, stated once and proved from the public
//! contracts: what every user may rely on without reading a body.

use crate::board::Board;
use crate::board::lemma_board_facts;
use crate::board::lemma_put_undo_restores;
use crate::board::moves_props;
use crate::board::pos_eq;
use crate::board::put_applied;
use crate::board::undo_applied;
use crate::patterns::cell_at;
use crate::patterns::cell_score;
use crate::board::combined_score;
use crate::patterns::in_range;
use crate::patterns::lemma_empty_cell_score;
use crate::player::Role;
use crate::zobrist_cache::lemma_toggle_order_independent;
use crate::zobrist_cache::lemma_toggle_self_inverse;
use vstd::prelude::*;

verus! {

/// A placement followed at once by its reversal restores the position bit
/// for bit: the grid, the move history, the fingerprint and both score
/// matrices are exactly what they were. `pre`, `mid` and `post` are the
/// states before the placement, between the two calls, and after the
/// reversal, as `put` and `undo` describe them.
pub proof fn law_put_then_undo_restores(
    pre: Board,
    mid: Board,
    post: Board,
    x: int,
    y: int,
    role: Role,
)
    requires
        pre.wf(),
        mid.wf(),
        post.wf(),
        in_range(pre.sz(), x, y),
        cell_at(pre.grid(), pre.sz(), x, y) == 0,
        put_applied(pre, mid, x, y, role),
        undo_applied(mid, post),
    ensures
        pos_eq(post, pre),
{
    lemma_put_undo_restores(pre, mid, post, x, y, role);
}

/// Toggling the same (cell, role) key twice leaves the fingerprint where it
/// started: placements and their reversals cancel on the hash exactly.
pub proof fn law_fingerprint_toggle_self_inverse(h: u64, key: u64)
    ensures
        (h ^ key) ^ key == h,
{
    lemma_toggle_self_inverse(h, key);
}

/// The fingerprint is order-independent: toggling the key of stone A and
/// then of stone B gives the same hash as toggling B and then A, so two
/// boards holding the same stones hash identically whatever the move order
/// — which is what lets the transposition table serve either ordering.
pub proof fn law_fingerprint_order_independent(h: u64, key_a: u64, key_b: u64)
    ensures
        (h ^ key_a) ^ key_b == (h ^ key_b) ^ key_a,
{
    lemma_toggle_order_independent(h, key_a, key_b);
}

/// On a board without stones no cell can make or block a four, so a move
/// list filtered to fours is empty.
pub proof fn law_no_fours_on_stoneless_board(b: Board, o3: bool, ms: Seq<(usize, usize)>)
    requires
        b.wf(),
        b.spec_history().len() == 0,
        moves_props(b.grid(), b.sz(), o3, true, ms),
    ensures
        ms.len() == 0,
{
    lemma_board_facts(b);
    if ms.len() > 0 {
        let m = ms[0];
        assert(in_range(b.sz(), m.0 as int, m.1 as int));
        assert(combined_score(b.grid(), b.sz(), m.0 as int, m.1 as int) >= 1000000);
        lemma_empty_cell_score(b.grid(), b.sz(), 1, m.0 as int, m.1 as int);
        lemma_empty_cell_score(b.grid(), b.sz(), -1, m.0 as int, m.1 as int);
        assert(false);
    }
}

} // verus!
