//! The move engine: applying a flag or check move to a field, the
//! flood reveal of zero-danger regions, and the win and loss rules.

use crate::field::adjacent;
use crate::field::idx;
use crate::field::in_bounds;
use crate::field::count_hidden;
use crate::field::lemma_count_flagged_pointwise;
use crate::field::lemma_count_flagged_update;
use crate::field::lemma_count_hidden_bounds;
use crate::field::lemma_count_hidden_monotone;
use crate::field::lemma_dim_bounds;
use crate::field::lemma_idx_bounds;
use crate::field::lemma_idx_injective;
use crate::field::lemma_idx_math;
use crate::field::sq_with_state;
use crate::field::Field;
use crate::field::Square;
use crate::field::State;
use vstd::prelude::*;

verus! {

/// The two kinds of move a player can make.
#[derive(Clone, Copy, PartialEq, Eq, Structural, Debug)]
pub enum MoveKind {
    Flag,
    Check,
}

/// What a move did to the game.
#[derive(Clone, Copy, PartialEq, Eq, Structural, Debug)]
pub enum MoveResult {
    Continue,
    Win,
    Loss,
    Invalid,
}

/// The win condition: no mine square is hidden any more, so every mine
/// is either flagged or, at game end, visible.
pub open spec fn all_mines_cleared(g: Seq<Square>) -> bool {
    forall|i: int| 0 <= i < g.len() && (#[trigger] g[i]).is_mine ==> g[i].state != State::HIDDEN
}

/// Scans only the mine list, not the whole grid, and says whether no
/// mine square is still hidden.
pub fn no_hidden_mines(field: &Field) -> (b: bool)
    requires
        field.wf(),
    ensures
        b == all_mines_cleared(field.grid@),
{
    proof {
        lemma_dim_bounds(field.difficulty);
    }
    let dim = field.get_dimensions() as usize;
    let n = field.mines.len();
    let mut t: usize = 0;
    while t < n
        invariant
            field.wf(),
            n == field.mines@.len(),
            t <= n,
            dim == field.dim(),
            forall|s: int|
                0 <= s < t ==> {
                    let c = #[trigger] field.mines@[s];
                    field.grid@[idx(field.dim(), c.0 as int, c.1 as int)].state != State::HIDDEN
                },
        decreases n - t,
    {
        let c = field.mines[t];
        proof {
            lemma_dim_bounds(field.difficulty);
            lemma_idx_bounds(field.dim(), c.0 as int, c.1 as int);
        }
        let i = (c.1 as usize) * dim + (c.0 as usize);
        if field.grid[i].get_state() == State::HIDDEN {
            proof {
                assert(field.grid@[i as int].is_mine);
            }
            return false;
        }
        t += 1;
    }
    proof {
        assert forall|i: int|
            0 <= i < field.grid@.len() && (#[trigger] field.grid@[i]).is_mine implies field.grid@[i].state
            != State::HIDDEN by {
            assert(field.mines@.contains((field.grid@[i].x_pos, field.grid@[i].y_pos)));
            let s = choose|s: int|
                0 <= s < field.mines@.len() && #[trigger] field.mines@[s] == (
                field.grid@[i].x_pos,
                field.grid@[i].y_pos,
                );
            field.lemma_square_index(i);
        }
    }
    true
}

/// A chain of positions that the flood can walk: it starts at the
/// given square, and each later step moves to an adjacent in-bounds
/// square that is hidden with zero danger.
pub open spec fn zero_path(g: Seq<Square>, dim: int, sx: int, sy: int, p: Seq<(int, int)>) -> bool {
    &&& p.len() > 0
    &&& p[0] == (sx, sy)
    &&& forall|i: int|
        0 < i < p.len() ==> {
            let a = #[trigger] p[i];
            let b = p[i - 1];
            &&& adjacent(b.0, b.1, a.0, a.1)
            &&& in_bounds(dim, a.0, a.1)
            &&& g[idx(dim, a.0, a.1)].state == State::HIDDEN
            &&& g[idx(dim, a.0, a.1)].danger == 0
        }
}

/// The connected zero-danger region that a flood from (sx, sy) grows
/// through: the squares a zero path can reach.
#[verifier::opaque]
pub open spec fn in_zero_region(g: Seq<Square>, dim: int, sx: int, sy: int, x: int, y: int) -> bool {
    exists|p: Seq<(int, int)>| zero_path(g, dim, sx, sy, p) && p.last() == (x, y)
}

/// The reveal closure of a flood from (sx, sy): its zero-danger region
/// plus the ring of squares bordering that region.
#[verifier::opaque]
pub open spec fn in_reveal_closure(
    g: Seq<Square>,
    dim: int,
    sx: int,
    sy: int,
    x: int,
    y: int,
) -> bool {
    in_zero_region(g, dim, sx, sy, x, y) || (exists|u: (int, int)|
        in_zero_region(g, dim, sx, sy, u.0, u.1) && adjacent(u.0, u.1, x, y))
}

/// The flood's starting square belongs to its own zero region.
pub proof fn lemma_start_in_region(g: Seq<Square>, dim: int, sx: int, sy: int)
    ensures
        in_zero_region(g, dim, sx, sy, sx, sy),
{
    reveal(in_zero_region);
    let p: Seq<(int, int)> = seq![(sx, sy)];
    assert(zero_path(g, dim, sx, sy, p));
    assert(p.last() == (sx, sy));
}

/// A hidden zero-danger square adjacent to the zero region belongs to
/// the zero region.
pub proof fn lemma_region_extend(
    g: Seq<Square>,
    dim: int,
    sx: int,
    sy: int,
    ux: int,
    uy: int,
    vx: int,
    vy: int,
)
    requires
        in_zero_region(g, dim, sx, sy, ux, uy),
        adjacent(ux, uy, vx, vy),
        in_bounds(dim, vx, vy),
        g[idx(dim, vx, vy)].state == State::HIDDEN,
        g[idx(dim, vx, vy)].danger == 0,
    ensures
        in_zero_region(g, dim, sx, sy, vx, vy),
{
    reveal(in_zero_region);
    let p = choose|p: Seq<(int, int)>|
        zero_path(g, dim, sx, sy, p) && #[trigger] p.last() == (ux, uy);
    let q = p.push((vx, vy));
    assert forall|i: int| 0 < i < q.len() implies {
        let a = #[trigger] q[i];
        let b = q[i - 1];
        &&& adjacent(b.0, b.1, a.0, a.1)
        &&& in_bounds(dim, a.0, a.1)
        &&& g[idx(dim, a.0, a.1)].state == State::HIDDEN
        &&& g[idx(dim, a.0, a.1)].danger == 0
    } by {
        if i < p.len() {
            assert(q[i] == p[i] && q[i - 1] == p[i - 1]);
        } else {
            assert(q[i] == (vx, vy) && q[i - 1] == p[p.len() - 1]);
        }
    }
    assert(zero_path(g, dim, sx, sy, q));
    assert(q.last() == (vx, vy));
}

/// A zero-region square is the starting square or a hidden in-bounds
/// square with zero danger.
pub proof fn lemma_region_cell(g: Seq<Square>, dim: int, sx: int, sy: int, x: int, y: int)
    requires
        in_zero_region(g, dim, sx, sy, x, y),
    ensures
        (x == sx && y == sy) || (in_bounds(dim, x, y) && g[idx(dim, x, y)].state == State::HIDDEN
            && g[idx(dim, x, y)].danger == 0),
{
    reveal(in_zero_region);
    let p = choose|p: Seq<(int, int)>|
        zero_path(g, dim, sx, sy, p) && #[trigger] p.last() == (x, y);
    if p.len() == 1 {
        assert(p.last() == p[0]);
    } else {
        assert(p.last() == p[p.len() - 1]);
    }
}

/// A zero-region square, and any square bordering one, lies in the
/// reveal closure.
pub proof fn lemma_closure_members(
    g: Seq<Square>,
    dim: int,
    sx: int,
    sy: int,
    ux: int,
    uy: int,
    x: int,
    y: int,
)
    requires
        in_zero_region(g, dim, sx, sy, ux, uy),
        adjacent(ux, uy, x, y) || (ux == x && uy == y),
    ensures
        in_reveal_closure(g, dim, sx, sy, x, y),
{
    reveal(in_reveal_closure);
    if !(ux == x && uy == y) {
        let u = (ux, uy);
        assert(in_zero_region(g, dim, sx, sy, u.0, u.1) && adjacent(u.0, u.1, x, y));
    }
}

/// Once a flood is finished — the start is visible and every visible
/// region square has all of its hidden neighbors revealed — every
/// square of the zero region is visible.  Induction over the zero path.
proof fn lemma_region_revealed(
    g0: Seq<Square>,
    gend: Seq<Square>,
    dim: int,
    sx: int,
    sy: int,
    p: Seq<(int, int)>,
)
    requires
        0 < dim,
        in_bounds(dim, sx, sy),
        gend[idx(dim, sx, sy)].state == State::VISIBLE,
        zero_path(g0, dim, sx, sy, p),
        forall|ux: int, uy: int, vx: int, vy: int|
            #![trigger in_zero_region(g0, dim, sx, sy, ux, uy), idx(dim, vx, vy)]
            in_zero_region(g0, dim, sx, sy, ux, uy) && in_bounds(dim, ux, uy) && gend[idx(
                dim,
                ux,
                uy,
            )].state == State::VISIBLE && adjacent(ux, uy, vx, vy) && in_bounds(dim, vx, vy)
                && g0[idx(dim, vx, vy)].state == State::HIDDEN ==> gend[idx(
                dim,
                vx,
                vy,
            )].state == State::VISIBLE,
    ensures
        in_bounds(dim, p.last().0, p.last().1),
        gend[idx(dim, p.last().0, p.last().1)].state == State::VISIBLE,
    decreases p.len(),
{
    if p.len() == 1 {
        assert(p.last() == (sx, sy));
    } else {
        let q = p.drop_last();
        assert forall|i: int| 0 < i < q.len() implies {
            let a = #[trigger] q[i];
            let b = q[i - 1];
            &&& adjacent(b.0, b.1, a.0, a.1)
            &&& in_bounds(dim, a.0, a.1)
            &&& g0[idx(dim, a.0, a.1)].state == State::HIDDEN
            &&& g0[idx(dim, a.0, a.1)].danger == 0
        } by {
            assert(q[i] == p[i] && q[i - 1] == p[i - 1]);
        }
        assert(zero_path(g0, dim, sx, sy, q));
        lemma_region_revealed(g0, gend, dim, sx, sy, q);
        let u = q.last();
        let v = p.last();
        assert(v == p[p.len() - 1] && u == p[p.len() - 2]);
        assert(in_zero_region(g0, dim, sx, sy, u.0, u.1)) by {
            reveal(in_zero_region);
            assert(zero_path(g0, dim, sx, sy, q) && q.last() == (u.0, u.1));
        }
        assert(adjacent(u.0, u.1, v.0, v.1) && in_bounds(dim, v.0, v.1));
        assert(g0[idx(dim, v.0, v.1)].state == State::HIDDEN);
        assert(gend[idx(dim, v.0, v.1)].state == State::VISIBLE);
    }
}

/// One flood step keeps the frontier honest: after the square at queue
/// position `j` has had its hidden neighbors revealed and the zero-danger
/// ones appended to the next frontier, every visible region square that is
/// on neither frontier still has all of its hidden neighbors revealed.
proof fn lemma_pending_step(
    f0: Field,
    g_pre: Seq<Square>,
    g_post: Seq<Square>,
    dim: int,
    sx: int,
    sy: int,
    cx: int,
    cy: int,
    queue: Seq<(isize, isize)>,
    j: int,
    next_pre: Seq<(isize, isize)>,
    next_post: Seq<(isize, isize)>,
    bl: Seq<(isize, isize)>,
)
    requires
        f0.wf(),
        dim == f0.dim(),
        in_bounds(dim, sx, sy),
        f0.grid@[idx(dim, sx, sy)].state == State::VISIBLE,
        g_pre.len() == dim * dim,
        g_post.len() == dim * dim,
        0 <= j < queue.len(),
        queue[j].0 as int == cx && queue[j].1 as int == cy,
        in_bounds(dim, cx, cy),
        next_post == next_pre + bl,
        forall|i: int|
            0 <= i < g_pre.len() ==> #[trigger] g_pre[i] == f0.grid@[i] || (f0.grid@[i].state
                == State::HIDDEN && g_pre[i] == sq_with_state(f0.grid@[i], State::VISIBLE)),
        forall|i: int|
            0 <= i < g_post.len() ==> #[trigger] g_post[i] == g_pre[i] || (g_pre[i].state
                == State::HIDDEN && adjacent(cx, cy, g_pre[i].x_pos as int, g_pre[i].y_pos as int)
                && g_post[i] == sq_with_state(g_pre[i], State::VISIBLE)),
        forall|ax: int, ay: int|
            adjacent(cx, cy, ax, ay) && in_bounds(dim, ax, ay) && g_pre[#[trigger] idx(
                dim,
                ax,
                ay,
            )].state == State::HIDDEN ==> g_post[idx(dim, ax, ay)].state == State::VISIBLE && (
            g_pre[idx(dim, ax, ay)].danger == 0 ==> bl.contains((ax as isize, ay as isize))),
        forall|ux: int, uy: int, vx: int, vy: int|
            #![trigger in_zero_region(f0.grid@, dim, sx, sy, ux, uy), idx(dim, vx, vy)]
            in_zero_region(f0.grid@, dim, sx, sy, ux, uy) && in_bounds(dim, ux, uy) && g_pre[idx(
                dim,
                ux,
                uy,
            )].state == State::VISIBLE && !queued(queue, j, ux, uy) && !queued(next_pre, 0, ux, uy)
                && adjacent(ux, uy, vx, vy) && in_bounds(dim, vx, vy) && f0.grid@[idx(
                dim,
                vx,
                vy,
            )].state == State::HIDDEN ==> g_pre[idx(dim, vx, vy)].state == State::VISIBLE,
    ensures
        forall|ux: int, uy: int, vx: int, vy: int|
            #![trigger in_zero_region(f0.grid@, dim, sx, sy, ux, uy), idx(dim, vx, vy)]
            in_zero_region(f0.grid@, dim, sx, sy, ux, uy) && in_bounds(dim, ux, uy) && g_post[idx(
                dim,
                ux,
                uy,
            )].state == State::VISIBLE && !queued(queue, j + 1, ux, uy) && !queued(
                next_post,
                0,
                ux,
                uy,
            ) && adjacent(ux, uy, vx, vy) && in_bounds(dim, vx, vy) && f0.grid@[idx(
                dim,
                vx,
                vy,
            )].state == State::HIDDEN ==> g_post[idx(dim, vx, vy)].state == State::VISIBLE,
{
    let g0 = f0.grid@;
    assert forall|ux: int, uy: int, vx: int, vy: int|
        #![trigger in_zero_region(g0, dim, sx, sy, ux, uy), idx(dim, vx, vy)]
        in_zero_region(g0, dim, sx, sy, ux, uy) && in_bounds(dim, ux, uy) && g_post[idx(
        dim,
        ux,
        uy,
    )].state == State::VISIBLE && !queued(queue, j + 1, ux, uy) && !queued(next_post, 0, ux, uy)
        && adjacent(ux, uy, vx, vy) && in_bounds(dim, vx, vy) && g0[idx(dim, vx, vy)].state
        == State::HIDDEN implies g_post[idx(dim, vx, vy)].state == State::VISIBLE by {
        let iu = idx(dim, ux, uy);
        let iv = idx(dim, vx, vy);
        lemma_idx_bounds(dim, ux, uy);
        lemma_idx_bounds(dim, vx, vy);
        if ux == cx && uy == cy {
            // the square just processed: its hidden neighbors were revealed
            // by this step, or were visible already
            if g_pre[iv].state == State::HIDDEN {
                assert(g_post[iv].state == State::VISIBLE);
            } else {
                assert(g_pre[iv] == g0[iv] || g_pre[iv] == sq_with_state(g0[iv], State::VISIBLE));
                assert(g_pre[iv].state == State::VISIBLE);
                assert(g_post[iv] == g_pre[iv] || g_post[iv] == sq_with_state(
                    g_pre[iv],
                    State::VISIBLE,
                ));
            }
        } else {
            if g_pre[iu].state == State::VISIBLE {
                // the square was settled before this step
                assert(!queued(queue, j, ux, uy)) by {
                    if queued(queue, j, ux, uy) {
                        let t = choose|t: int|
                            j <= t < queue.len() && (#[trigger] queue[t]).0 as int == ux
                                && queue[t].1 as int == uy;
                        if t == j {
                            assert(false);
                        } else {
                            assert(queued(queue, j + 1, ux, uy));
                        }
                    }
                }
                assert(!queued(next_pre, 0, ux, uy)) by {
                    if queued(next_pre, 0, ux, uy) {
                        let t = choose|t: int|
                            0 <= t < next_pre.len() && (#[trigger] next_pre[t]).0 as int == ux
                                && next_pre[t].1 as int == uy;
                        assert(next_post[t] == next_pre[t]);
                        assert(queued(next_post, 0, ux, uy));
                    }
                }
                assert(g_pre[iv].state == State::VISIBLE);
                assert(g_post[iv] == g_pre[iv] || g_post[iv] == sq_with_state(
                    g_pre[iv],
                    State::VISIBLE,
                ));
            } else {
                // the square became visible in this very step, so it is a
                // revealed zero-danger neighbor and sits on the new
                // frontier: contradiction with it being pending-free
                assert(g_post[iu].state == State::VISIBLE);
                assert(g_pre[iu].state == State::HIDDEN);
                assert(g_pre[iu] == g0[iu]);
                lemma_region_cell(g0, dim, sx, sy, ux, uy);
                assert(!(ux == sx && uy == sy)) by {
                    if ux == sx && uy == sy {
                        assert(g0[iu].state == State::VISIBLE);
                    }
                }
                assert(g0[iu].danger == 0 && g_pre[iu].danger == g0[iu].danger);
                assert(adjacent(cx, cy, ux, uy)) by {
                    f0.lemma_square_index(iu);
                    lemma_idx_injective(dim, g0[iu].x_pos as int, g0[iu].y_pos as int, ux, uy);
                    assert(g_pre[iu].x_pos == g0[iu].x_pos && g_pre[iu].y_pos == g0[iu].y_pos);
                    assert(g_post[iu] != g_pre[iu]);
                }
                assert(bl.contains(((ux as isize), (uy as isize))));
                let t = choose|t: int|
                    0 <= t < bl.len() && #[trigger] bl[t] == ((ux as isize), (uy as isize));
                assert(next_post[next_pre.len() + t] == bl[t]);
                assert(queued(next_post, 0, ux, uy));
                assert(false);
            }
        }
    }
}

/// Whether some entry of the queue from position `from` on names the
/// position (x, y).
spec fn queued(q: Seq<(isize, isize)>, from: int, x: int, y: int) -> bool {
    exists|t: int| from <= t < q.len() && (#[trigger] q[t]).0 as int == x && q[t].1 as int == y
}

/// Breadth-first flood reveal from an already visible square: round by
/// round, every hidden neighbor of the frontier is revealed, and the
/// revealed zero-danger squares form the next frontier, until a round
/// uncovers nothing new.  The result is exact: a hidden square becomes
/// visible precisely when it lies in the reveal closure of the start —
/// its connected zero-danger region plus the bordering ring — and
/// nothing else changes.
#[verifier::rlimit(100)]
#[verifier::spinoff_prover]
pub fn flood_reveal(field: &mut Field, sx: isize, sy: isize)
    requires
        old(field).wf(),
        0 <= sx as int && (sx as int) < old(field).dim(),
        0 <= sy as int && (sy as int) < old(field).dim(),
        old(field).grid@[idx(old(field).dim(), sx as int, sy as int)].state == State::VISIBLE,
    ensures
        final(field).wf(),
        old(field).same_board(*final(field)),
        final(field).n_flags == old(field).n_flags,
        old(field).flags_synced() ==> final(field).flags_synced(),
        forall|i: int|
            0 <= i < final(field).grid@.len() ==> #[trigger] final(field).grid@[i] == old(
                field,
            ).grid@[i] || (old(field).grid@[i].state == State::HIDDEN && final(field).grid@[i]
                == sq_with_state(old(field).grid@[i], State::VISIBLE)),
        forall|x: int, y: int|
            in_bounds(old(field).dim(), x, y) ==> final(field).grid@[#[trigger] idx(
                old(field).dim(),
                x,
                y,
            )] == (if old(field).grid@[idx(old(field).dim(), x, y)].state == State::HIDDEN
                && in_reveal_closure(
                old(field).grid@,
                old(field).dim(),
                sx as int,
                sy as int,
                x,
                y,
            ) {
                sq_with_state(old(field).grid@[idx(old(field).dim(), x, y)], State::VISIBLE)
            } else {
                old(field).grid@[idx(old(field).dim(), x, y)]
            }),
{
    let ghost g0 = field.grid@;
    let ghost dimi = field.dim();
    let ghost sxi = sx as int;
    let ghost syi = sy as int;
    proof {
        lemma_dim_bounds(field.difficulty);
        lemma_idx_bounds(dimi, sxi, syi);
        lemma_start_in_region(g0, dimi, sxi, syi);
        assert forall|ux: int, uy: int, vx: int, vy: int|
            #![trigger in_zero_region(g0, dimi, sxi, syi, ux, uy), idx(dimi, vx, vy)]
            in_zero_region(g0, dimi, sxi, syi, ux, uy) && in_bounds(dimi, ux, uy) && field.grid@[idx(
            dimi,
            ux,
            uy,
        )].state == State::VISIBLE && !queued(seq![(sx, sy)], 0, ux, uy) && adjacent(
            ux,
            uy,
            vx,
            vy,
        ) && in_bounds(dimi, vx, vy) && g0[idx(dimi, vx, vy)].state
            == State::HIDDEN implies field.grid@[idx(dimi, vx, vy)].state == State::VISIBLE by {
            lemma_region_cell(g0, dimi, sxi, syi, ux, uy);
            if ux == sxi && uy == syi {
                assert(seq![(sx, sy)][0].0 as int == ux && seq![(sx, sy)][0].1 as int == uy);
                assert(queued(seq![(sx, sy)], 0, ux, uy));
            } else {
                lemma_idx_bounds(dimi, ux, uy);
            }
        }
    }
    let mut queue: Vec<(isize, isize)> = Vec::new();
    queue.push((sx, sy));
    loop
        invariant
            old(field).wf(),
            field.wf(),
            0 < dimi <= 24,
            dimi == old(field).dim(),
            sxi == sx as int,
            syi == sy as int,
            in_bounds(dimi, sxi, syi),
            g0 == old(field).grid@,
            g0[idx(dimi, sxi, syi)].state == State::VISIBLE,
            old(field).same_board(*field),
            field.n_flags == old(field).n_flags,
            forall|i: int|
                0 <= i < field.grid@.len() ==> #[trigger] field.grid@[i] == g0[i] || (g0[i].state
                    == State::HIDDEN && in_reveal_closure(
                    g0,
                    dimi,
                    sxi,
                    syi,
                    g0[i].x_pos as int,
                    g0[i].y_pos as int,
                ) && field.grid@[i] == sq_with_state(g0[i], State::VISIBLE)),
            forall|t: int|
                0 <= t < queue@.len() ==> {
                    let c = #[trigger] queue@[t];
                    &&& in_bounds(dimi, c.0 as int, c.1 as int)
                    &&& in_zero_region(g0, dimi, sxi, syi, c.0 as int, c.1 as int)
                    &&& field.grid@[idx(dimi, c.0 as int, c.1 as int)].state == State::VISIBLE
                },
            forall|ux: int, uy: int, vx: int, vy: int|
                #![trigger in_zero_region(g0, dimi, sxi, syi, ux, uy), idx(dimi, vx, vy)]
                in_zero_region(g0, dimi, sxi, syi, ux, uy) && in_bounds(dimi, ux, uy)
                    && field.grid@[idx(dimi, ux, uy)].state == State::VISIBLE && !queued(
                    queue@,
                    0,
                    ux,
                    uy,
                ) && adjacent(ux, uy, vx, vy) && in_bounds(dimi, vx, vy) && g0[idx(
                    dimi,
                    vx,
                    vy,
                )].state == State::HIDDEN ==> field.grid@[idx(dimi, vx, vy)].state
                    == State::VISIBLE,
        ensures
            field.wf(),
            old(field).same_board(*field),
            field.n_flags == old(field).n_flags,
            forall|i: int|
                0 <= i < field.grid@.len() ==> #[trigger] field.grid@[i] == g0[i] || (g0[i].state
                    == State::HIDDEN && in_reveal_closure(
                    g0,
                    dimi,
                    sxi,
                    syi,
                    g0[i].x_pos as int,
                    g0[i].y_pos as int,
                ) && field.grid@[i] == sq_with_state(g0[i], State::VISIBLE)),
            forall|ux: int, uy: int, vx: int, vy: int|
                #![trigger in_zero_region(g0, dimi, sxi, syi, ux, uy), idx(dimi, vx, vy)]
                in_zero_region(g0, dimi, sxi, syi, ux, uy) && in_bounds(dimi, ux, uy)
                    && field.grid@[idx(dimi, ux, uy)].state == State::VISIBLE && adjacent(
                    ux,
                    uy,
                    vx,
                    vy,
                ) && in_bounds(dimi, vx, vy) && g0[idx(dimi, vx, vy)].state
                    == State::HIDDEN ==> field.grid@[idx(dimi, vx, vy)].state == State::VISIBLE,
        decreases count_hidden(field.grid@),
    {
        let ghost g_round = field.grid@;
        let ghost full_queue = queue@;
        let mut next: Vec<(isize, isize)> = Vec::new();
        let mut j: usize = 0;
        while j < queue.len()
            invariant
                old(field).wf(),
                field.wf(),
                0 < dimi <= 24,
                dimi == old(field).dim(),
                sxi == sx as int,
                syi == sy as int,
                in_bounds(dimi, sxi, syi),
                g0 == old(field).grid@,
                g0[idx(dimi, sxi, syi)].state == State::VISIBLE,
                old(field).same_board(*field),
                field.n_flags == old(field).n_flags,
                queue@ == full_queue,
                j <= queue@.len(),
                g_round.len() == field.grid@.len(),
                forall|i: int|
                    0 <= i < field.grid@.len() ==> #[trigger] field.grid@[i] == g0[i] || (
                    g0[i].state == State::HIDDEN && in_reveal_closure(
                        g0,
                        dimi,
                        sxi,
                        syi,
                        g0[i].x_pos as int,
                        g0[i].y_pos as int,
                    ) && field.grid@[i] == sq_with_state(g0[i], State::VISIBLE)),
                forall|i: int|
                    0 <= i < field.grid@.len() ==> #[trigger] field.grid@[i] == g_round[i] || (
                    g_round[i].state == State::HIDDEN && field.grid@[i] == sq_with_state(
                        g_round[i],
                        State::VISIBLE,
                    )),
                forall|t: int|
                    0 <= t < queue@.len() ==> {
                        let c = #[trigger] queue@[t];
                        &&& in_bounds(dimi, c.0 as int, c.1 as int)
                        &&& in_zero_region(g0, dimi, sxi, syi, c.0 as int, c.1 as int)
                        &&& field.grid@[idx(dimi, c.0 as int, c.1 as int)].state == State::VISIBLE
                    },
                forall|t: int|
                    0 <= t < next@.len() ==> {
                        let c = #[trigger] next@[t];
                        &&& in_bounds(dimi, c.0 as int, c.1 as int)
                        &&& in_zero_region(g0, dimi, sxi, syi, c.0 as int, c.1 as int)
                        &&& g_round[idx(dimi, c.0 as int, c.1 as int)].state == State::HIDDEN
                        &&& field.grid@[idx(dimi, c.0 as int, c.1 as int)].state == State::VISIBLE
                    },
                forall|ux: int, uy: int, vx: int, vy: int|
                    #![trigger in_zero_region(g0, dimi, sxi, syi, ux, uy), idx(dimi, vx, vy)]
                    in_zero_region(g0, dimi, sxi, syi, ux, uy) && in_bounds(dimi, ux, uy)
                        && field.grid@[idx(dimi, ux, uy)].state == State::VISIBLE && !queued(
                        queue@,
                        j as int,
                        ux,
                        uy,
                    ) && !queued(next@, 0, ux, uy) && adjacent(ux, uy, vx, vy) && in_bounds(
                        dimi,
                        vx,
                        vy,
                    ) && g0[idx(dimi, vx, vy)].state == State::HIDDEN ==> field.grid@[idx(
                        dimi,
                        vx,
                        vy,
                    )].state == State::VISIBLE,
            decreases queue@.len() - j,
        {
            let c = queue[j];
            let ghost cxi = c.0 as int;
            let ghost cyi = c.1 as int;
            let ghost g_pre = field.grid@;
            let ghost next_pre = next@;
            let mut bl = field.check_and_update_states_of_adjacent_squares(c.0, c.1);
            let ghost bl_snap = bl@;
            next.append(&mut bl);
            proof {
                assert(next@ == next_pre + bl_snap);
                assert(queue@[j as int] == c);
                lemma_idx_bounds(dimi, cxi, cyi);
                // positions recorded in the squares are the true coordinates
                assert forall|i: int| 0 <= i < g0.len() implies (#[trigger] g0[i]).x_pos as int
                    == g_pre[i].x_pos as int && g0[i].y_pos as int == g_pre[i].y_pos as int by {}
                // the overall and per-round reveal-only relations
                assert forall|i: int|
                    0 <= i < field.grid@.len() implies #[trigger] field.grid@[i] == g0[i] || (
                g0[i].state == State::HIDDEN && in_reveal_closure(
                    g0,
                    dimi,
                    sxi,
                    syi,
                    g0[i].x_pos as int,
                    g0[i].y_pos as int,
                ) && field.grid@[i] == sq_with_state(g0[i], State::VISIBLE)) by {
                    assert(g_pre[i] == g_pre[i]);
                    if field.grid@[i] != g_pre[i] {
                        old(field).lemma_square_index(i);
                        assert(g_pre[i].state == State::HIDDEN);
                        assert(g_pre[i] == g0[i]);
                        assert(adjacent(cxi, cyi, g_pre[i].x_pos as int, g_pre[i].y_pos as int));
                        lemma_closure_members(
                            g0,
                            dimi,
                            sxi,
                            syi,
                            cxi,
                            cyi,
                            g0[i].x_pos as int,
                            g0[i].y_pos as int,
                        );
                    }
                }
                assert forall|i: int|
                    0 <= i < field.grid@.len() implies #[trigger] field.grid@[i] == g_round[i] || (
                g_round[i].state == State::HIDDEN && field.grid@[i] == sq_with_state(
                    g_round[i],
                    State::VISIBLE,
                )) by {
                    assert(g_pre[i] == g_pre[i]);
                }
                // queue entries stay visible
                assert forall|t: int| 0 <= t < queue@.len() implies {
                    let cc = #[trigger] queue@[t];
                    &&& in_bounds(dimi, cc.0 as int, cc.1 as int)
                    &&& in_zero_region(g0, dimi, sxi, syi, cc.0 as int, cc.1 as int)
                    &&& field.grid@[idx(dimi, cc.0 as int, cc.1 as int)].state == State::VISIBLE
                } by {
                    let cc = queue@[t];
                    lemma_idx_bounds(dimi, cc.0 as int, cc.1 as int);
                    assert(g_pre[idx(dimi, cc.0 as int, cc.1 as int)].state == State::VISIBLE);
                }
                // new frontier entries are region squares, revealed now
                assert forall|t: int| 0 <= t < next@.len() implies {
                    let cc = #[trigger] next@[t];
                    &&& in_bounds(dimi, cc.0 as int, cc.1 as int)
                    &&& in_zero_region(g0, dimi, sxi, syi, cc.0 as int, cc.1 as int)
                    &&& g_round[idx(dimi, cc.0 as int, cc.1 as int)].state == State::HIDDEN
                    &&& field.grid@[idx(dimi, cc.0 as int, cc.1 as int)].state == State::VISIBLE
                } by {
                    if t < next_pre.len() {
                        let cc = next_pre[t];
                        assert(next@[t] == cc);
                        let i2 = idx(dimi, cc.0 as int, cc.1 as int);
                        lemma_idx_bounds(dimi, cc.0 as int, cc.1 as int);
                        assert(g_pre[i2].state == State::VISIBLE);
                    } else {
                        let cc = bl_snap[t - next_pre.len()];
                        assert(next@[t] == cc);
                        let i2 = idx(dimi, cc.0 as int, cc.1 as int);
                        lemma_idx_bounds(dimi, cc.0 as int, cc.1 as int);
                        assert(g_pre[i2].state == State::HIDDEN);
                        assert(g_pre[i2] == g0[i2]);
                        assert(g_round[i2] == g_pre[i2] || (g_round[i2].state == State::HIDDEN
                            && g_pre[i2] == sq_with_state(g_round[i2], State::VISIBLE)));
                        lemma_region_extend(
                            g0,
                            dimi,
                            sxi,
                            syi,
                            cxi,
                            cyi,
                            cc.0 as int,
                            cc.1 as int,
                        );
                    }
                }
                // the pending-neighbors property survives the step
                lemma_pending_step(
                    *old(field),
                    g_pre,
                    field.grid@,
                    dimi,
                    sxi,
                    syi,
                    cxi,
                    cyi,
                    queue@,
                    j as int,
                    next_pre,
                    next@,
                    bl_snap,
                );
            }
            j += 1;
        }
        if next.len() == 0 {
            proof {
                assert forall|ux: int, uy: int, vx: int, vy: int|
                    #![trigger in_zero_region(g0, dimi, sxi, syi, ux, uy), idx(dimi, vx, vy)]
                    in_zero_region(g0, dimi, sxi, syi, ux, uy) && in_bounds(dimi, ux, uy)
                        && field.grid@[idx(dimi, ux, uy)].state == State::VISIBLE && adjacent(
                        ux,
                        uy,
                        vx,
                        vy,
                    ) && in_bounds(dimi, vx, vy) && g0[idx(dimi, vx, vy)].state
                        == State::HIDDEN implies field.grid@[idx(dimi, vx, vy)].state
                    == State::VISIBLE by {
                    assert(!queued(queue@, j as int, ux, uy));
                    assert(!queued(next@, 0, ux, uy));
                }
            }
            break ;
        }
        proof {
            let c = next@[0];
            let i = idx(dimi, c.0 as int, c.1 as int);
            lemma_idx_bounds(dimi, c.0 as int, c.1 as int);
            assert(g_round[i].state == State::HIDDEN && field.grid@[i].state != State::HIDDEN);
            assert(exists|i2: int|
                0 <= i2 < g_round.len() && g_round[i2].state == State::HIDDEN && (
                #[trigger] field.grid@[i2]).state != State::HIDDEN);
            lemma_count_hidden_monotone(g_round, field.grid@);
            lemma_count_hidden_bounds(field.grid@);
            assert(count_hidden(field.grid@) < count_hidden(g_round));
            // with the processed queue empty of pending work, the
            // property carries to the new frontier alone
            assert forall|ux: int, uy: int, vx: int, vy: int|
                #![trigger in_zero_region(g0, dimi, sxi, syi, ux, uy), idx(dimi, vx, vy)]
                in_zero_region(g0, dimi, sxi, syi, ux, uy) && in_bounds(dimi, ux, uy)
                    && field.grid@[idx(dimi, ux, uy)].state == State::VISIBLE && !queued(
                    next@,
                    0,
                    ux,
                    uy,
                ) && adjacent(ux, uy, vx, vy) && in_bounds(dimi, vx, vy) && g0[idx(
                    dimi,
                    vx,
                    vy,
                )].state == State::HIDDEN implies field.grid@[idx(dimi, vx, vy)].state
                == State::VISIBLE by {
                assert(!queued(queue@, j as int, ux, uy));
            }
        }
        queue = next;
    }
    proof {
        if old(field).flags_synced() {
            lemma_count_flagged_pointwise(field.grid@, g0);
        }
        assert forall|x: int, y: int| in_bounds(dimi, x, y) implies field.grid@[#[trigger] idx(
            dimi,
            x,
            y,
        )] == (if g0[idx(dimi, x, y)].state == State::HIDDEN && in_reveal_closure(
            g0,
            dimi,
            sxi,
            syi,
            x,
            y,
        ) {
            sq_with_state(g0[idx(dimi, x, y)], State::VISIBLE)
        } else {
            g0[idx(dimi, x, y)]
        }) by {
            lemma_idx_bounds(dimi, x, y);
            lemma_idx_math(dimi, x, y);
            let i = idx(dimi, x, y);
            assert(g0[i].x_pos as int == x && g0[i].y_pos as int == y) by {
                old(field).lemma_square_index(i);
                lemma_idx_injective(
                    dimi,
                    g0[i].x_pos as int,
                    g0[i].y_pos as int,
                    x,
                    y,
                );
            }
            assert(field.grid@[i] == field.grid@[i]);
            reveal(in_reveal_closure);
            reveal(in_zero_region);
            if g0[i].state == State::HIDDEN && in_reveal_closure(g0, dimi, sxi, syi, x, y) {
                assert(field.grid@[idx(dimi, sxi, syi)].state == State::VISIBLE);
                if in_zero_region(g0, dimi, sxi, syi, x, y) {
                    let p = choose|p: Seq<(int, int)>|
                        zero_path(g0, dimi, sxi, syi, p) && #[trigger] p.last() == (x, y);
                    lemma_region_revealed(g0, field.grid@, dimi, sxi, syi, p);
                } else {
                    let u = choose|u: (int, int)|
                        #[trigger] in_zero_region(g0, dimi, sxi, syi, u.0, u.1) && adjacent(
                            u.0,
                            u.1,
                            x,
                            y,
                        );
                    let p = choose|p: Seq<(int, int)>|
                        zero_path(g0, dimi, sxi, syi, p) && #[trigger] p.last() == (u.0, u.1);
                    lemma_region_revealed(g0, field.grid@, dimi, sxi, syi, p);
                    assert(in_bounds(dimi, u.0, u.1));
                    assert(field.grid@[idx(dimi, u.0, u.1)].state == State::VISIBLE);
                    assert(field.grid@[idx(dimi, x, y)].state == State::VISIBLE);
                }
                assert(field.grid@[i].state == State::VISIBLE);
                assert(field.grid@[i] != g0[i]);
            } else {
                if field.grid@[i] != g0[i] {
                    assert(g0[i].state == State::HIDDEN && in_reveal_closure(
                        g0,
                        dimi,
                        sxi,
                        syi,
                        g0[i].x_pos as int,
                        g0[i].y_pos as int,
                    ));
                }
            }
        }
    }
}

/// Applies one player move to the field and says how the game goes on.
/// A move outside the grid, or a check of a square that is not hidden,
/// is a no-op answered with `Invalid`.  A flag move toggles the flag and
/// the flag counter.  Checking a hidden mine loses the game and
/// discloses every unflagged mine.  Checking a safe square reveals it,
/// and floods its zero-danger region when its danger is zero.  Any move
/// that was applied wins exactly when no mine square is hidden after it.
pub fn apply_move(field: &mut Field, kind: MoveKind, x_pos: isize, y_pos: isize) -> (r: MoveResult)
    requires
        old(field).wf(),
        old(field).flags_synced(),
    ensures
        final(field).wf(),
        final(field).flags_synced(),
        old(field).same_board(*final(field)),
        ({
            let dim = old(field).dim();
            let g = old(field).grid@;
            let h = final(field).grid@;
            let inb = in_bounds(dim, x_pos as int, y_pos as int);
            let i = idx(dim, x_pos as int, y_pos as int);
            &&& (r == MoveResult::Invalid <==> (!inb || (kind == MoveKind::Check && g[i].state
                != State::HIDDEN)))
            &&& (r == MoveResult::Invalid ==> h == g && final(field).n_flags == old(
                field,
            ).n_flags)
            &&& ((kind == MoveKind::Flag && inb) ==> {
                &&& h == g.update(
                    i,
                    sq_with_state(
                        g[i],
                        if g[i].state == State::FLAGGED {
                            State::HIDDEN
                        } else {
                            State::FLAGGED
                        },
                    ),
                )
                &&& final(field).n_flags as int == (if g[i].state == State::FLAGGED {
                    old(field).n_flags - 1
                } else {
                    old(field).n_flags + 1
                })
            })
            &&& ((kind == MoveKind::Check && inb && g[i].state == State::HIDDEN
                && g[i].is_mine) ==> {
                &&& r == MoveResult::Loss
                &&& forall|j: int|
                    0 <= j < g.len() ==> #[trigger] h[j] == (if (g[j].is_mine || j == i)
                        && g[j].state == State::HIDDEN {
                        sq_with_state(g[j], State::VISIBLE)
                    } else {
                        g[j]
                    })
            })
            &&& ((kind == MoveKind::Check && inb && g[i].state == State::HIDDEN
                && !g[i].is_mine) ==> {
                &&& forall|j: int|
                    0 <= j < g.len() ==> #[trigger] h[j] == g[j] || (g[j].state == State::HIDDEN
                        && h[j] == sq_with_state(g[j], State::VISIBLE))
                &&& h[i].state == State::VISIBLE
                &&& (g[i].danger > 0 ==> h == g.update(i, sq_with_state(g[i], State::VISIBLE)))
                &&& (g[i].danger == 0 ==> {
                    let gm = g.update(i, sq_with_state(g[i], State::VISIBLE));
                    forall|x: int, y: int|
                        in_bounds(dim, x, y) ==> h[#[trigger] idx(dim, x, y)] == (if gm[idx(
                            dim,
                            x,
                            y,
                        )].state == State::HIDDEN && in_reveal_closure(
                            gm,
                            dim,
                            x_pos as int,
                            y_pos as int,
                            x,
                            y,
                        ) {
                            sq_with_state(gm[idx(dim, x, y)], State::VISIBLE)
                        } else {
                            gm[idx(dim, x, y)]
                        })
                })
                &&& final(field).n_flags == old(field).n_flags
            })
            &&& ((r != MoveResult::Invalid && r != MoveResult::Loss) ==> ((r == MoveResult::Win
                <==> all_mines_cleared(h)) && (r == MoveResult::Continue <==> !all_mines_cleared(
                h,
            ))))
            &&& (r == MoveResult::Loss ==> (kind == MoveKind::Check && inb && g[i].state
                == State::HIDDEN && g[i].is_mine))
        }),
{
    proof {
        lemma_dim_bounds(old(field).difficulty);
    }
    let dim = field.get_dimensions() as isize;
    if !(x_pos >= 0 && x_pos < dim && y_pos >= 0 && y_pos < dim) {
        return MoveResult::Invalid;
    }
    proof {
        lemma_idx_bounds(field.dim(), x_pos as int, y_pos as int);
    }
    let i = (y_pos as usize) * (dim as usize) + (x_pos as usize);
    let sq = field.grid[i];
    let ghost g = old(field).grid@;
    match kind {
        MoveKind::Flag => {
            if sq.get_state() == State::FLAGGED {
                let mut s2 = sq;
                s2.state = State::HIDDEN;
                field.grid[i] = s2;
                proof {
                    lemma_count_flagged_update(g, i as int, s2);
                }
                field.decrement_n_flags();
            } else {
                let mut s2 = sq;
                s2.state = State::FLAGGED;
                field.grid[i] = s2;
                proof {
                    lemma_count_flagged_update(g, i as int, s2);
                }
                field.increment_n_flags();
            }
            proof {
                old(field).lemma_same_board_wf(*field);
            }
            if no_hidden_mines(field) {
                MoveResult::Win
            } else {
                MoveResult::Continue
            }
        },
        MoveKind::Check => {
            if !(sq.get_state() == State::HIDDEN) {
                return MoveResult::Invalid;
            }
            let mut s2 = sq;
            s2.state = State::VISIBLE;
            field.grid[i] = s2;
            proof {
                lemma_count_flagged_update(g, i as int, s2);
                old(field).lemma_same_board_wf(*field);
            }
            if sq.is_mine() {
                let ghost g1 = field.grid@;
                field.show_mines();
                proof {
                    assert forall|j: int| 0 <= j < g.len() implies #[trigger] field.grid@[j] == (
                    if (g[j].is_mine || j == i as int) && g[j].state == State::HIDDEN {
                        sq_with_state(g[j], State::VISIBLE)
                    } else {
                        g[j]
                    }) by {
                        assert(g1[j] == g1[j]);
                    }
                    lemma_count_flagged_pointwise(field.grid@, g);
                }
                return MoveResult::Loss;
            }
            if sq.get_danger() == 0 {
                let ghost g1 = field.grid@;
                proof {
                    assert(g1 == g.update(i as int, sq_with_state(g[i as int], State::VISIBLE)));
                    assert(g1[idx(old(field).dim(), x_pos as int, y_pos as int)].state
                        == State::VISIBLE);
                }
                flood_reveal(field, x_pos, y_pos);
                proof {
                    assert forall|j: int|
                        0 <= j < g.len() implies #[trigger] field.grid@[j] == g[j] || (g[j].state
                        == State::HIDDEN && field.grid@[j] == sq_with_state(
                        g[j],
                        State::VISIBLE,
                    )) by {
                        assert(g1[j] == g1[j]);
                    }
                }
            }
            if no_hidden_mines(field) {
                MoveResult::Win
            } else {
                MoveResult::Continue
            }
        },
    }
}

} // verus!
