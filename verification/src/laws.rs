//! Field-wide laws, stated and proved once over the model that the
//! contracts use.

use crate::field::count_mines;
use crate::field::danger_count;
use crate::field::idx;
use crate::field::in_bounds;
use crate::field::sq_with_state;
use crate::field::Field;
use crate::field::Square;
use crate::field::State;
use vstd::prelude::*;

verus! {

/// The mine counter of a well-formed field equals the length of the
/// mine list and the number of mine squares on the grid, for every
/// grid size and mine layout.
pub proof fn lemma_mine_count_consistent(f: Field)
    requires
        f.wf(),
    ensures
        f.n_mines == f.mines@.len(),
        f.n_mines as int == count_mines(f.grid@),
{
}

/// Every square of a well-formed field carries exactly the number of
/// mines among its on-grid neighbors; border squares simply have fewer
/// candidate neighbors, and the count never exceeds eight.
pub proof fn lemma_danger_exact(f: Field, x: int, y: int)
    requires
        f.wf(),
        in_bounds(f.dim(), x, y),
    ensures
        f.grid@[idx(f.dim(), x, y)].danger as int == danger_count(f.grid@, f.dim(), x, y),
        0 <= danger_count(f.grid@, f.dim(), x, y) <= 8,
{
    assert(f.grid@[idx(f.dim(), x, y)].danger as int == danger_count(f.grid@, f.dim(), x, y));
}

/// Toggling the flag of a hidden square twice gives back the original
/// grid: hidden goes to flagged and the second toggle restores hidden.
pub proof fn lemma_flag_toggle_round_trip(g: Seq<Square>, i: int)
    requires
        0 <= i < g.len(),
        g[i].state == State::HIDDEN,
    ensures
        ({
            let g1 = g.update(i, sq_with_state(g[i], State::FLAGGED));
            g1.update(i, sq_with_state(g1[i], State::HIDDEN)) == g
        }),
{
    let g1 = g.update(i, sq_with_state(g[i], State::FLAGGED));
    let g2 = g1.update(i, sq_with_state(g1[i], State::HIDDEN));
    assert(g2 =~= g);
}

} // verus!
