//! The game field: squares, difficulties, and the grid with its
//! mine list and counters.

use rand::Rng;
use vstd::prelude::*;

verus! {

/// The three mutually exclusive display states of a square.
#[derive(Clone, Copy, PartialEq, Eq, Structural, Debug)]
pub enum State {
    HIDDEN,
    VISIBLE,
    FLAGGED,
}

/// A difficulty fixes the side length of the square grid and the
/// probability that any one square holds a mine.
#[derive(Clone, Copy, PartialEq, Eq, Structural, Debug)]
pub enum Difficulty {
    BEGINNER,
    INTERMEDIATE,
    ADVANCED,
}

impl Difficulty {
    /// Side length of the grid for this difficulty.
    pub open spec fn dim_spec(self) -> int {
        match self {
            Difficulty::BEGINNER => 9,
            Difficulty::INTERMEDIATE => 16,
            Difficulty::ADVANCED => 24,
        }
    }

    /// Probability that a square is a mine, in hundredths.
    pub open spec fn p_spec(self) -> int {
        match self {
            Difficulty::BEGINNER => 12,
            Difficulty::INTERMEDIATE => 15,
            Difficulty::ADVANCED => 17,
        }
    }

    /// Dimensions of the field based on difficulty.
    pub fn get_dimensions(&self) -> (d: u8)
        ensures
            d as int == self.dim_spec(),
    {
        match *self {
            Difficulty::BEGINNER => 9,
            Difficulty::INTERMEDIATE => 16,
            Difficulty::ADVANCED => 24,
        }
    }

    /// Probability that a square is a mine based on difficulty,
    /// expressed in hundredths so that no floating point is needed.
    pub fn p_is_mine(&self) -> (p: u32)
        ensures
            p as int == self.p_spec(),
            0 < p <= 100,
    {
        match *self {
            Difficulty::BEGINNER => 12,
            Difficulty::INTERMEDIATE => 15,
            Difficulty::ADVANCED => 17,
        }
    }
}

/// A single square on the grid.
#[derive(Clone, Copy, PartialEq, Eq, Structural, Debug)]
pub struct Square {
    pub x_pos: u8,
    pub y_pos: u8,
    pub is_mine: bool,
    pub danger: usize,
    pub state: State,
}

impl Square {
    /// Create a new hidden square with no recorded danger yet.
    pub fn new(x_pos: u8, y_pos: u8, is_mine: bool) -> (s: Square)
        ensures
            s.x_pos == x_pos,
            s.y_pos == y_pos,
            s.is_mine == is_mine,
            s.danger == 0,
            s.state == State::HIDDEN,
    {
        Square { x_pos, y_pos, is_mine, danger: 0, state: State::HIDDEN }
    }

    /// Whether the square holds a mine.
    pub fn is_mine(&self) -> (b: bool)
        ensures
            b == self.is_mine,
    {
        self.is_mine
    }

    /// The position of the square as (x, y), counted from the top
    /// left corner.
    pub fn get_position(&self) -> (p: (u8, u8))
        ensures
            p == (self.x_pos, self.y_pos),
    {
        (self.x_pos, self.y_pos)
    }

    /// Return the icon associated with the square's state.
    pub fn get_icon(&self) -> (c: char)
        requires
            self.state == State::VISIBLE && !self.is_mine ==> self.danger <= 8,
        ensures
            c == icon_spec(*self),
    {
        match self.state {
            State::HIDDEN => '-',
            State::FLAGGED => 'f',
            State::VISIBLE => {
                if self.is_mine {
                    '*'
                } else {
                    match self.danger {
                        0 => ' ',
                        1 => '1',
                        2 => '2',
                        3 => '3',
                        4 => '4',
                        5 => '5',
                        6 => '6',
                        7 => '7',
                        _ => '8',
                    }
                }
            },
        }
    }

    /// Number of mines on the squares bordering this one.
    pub fn get_danger(&self) -> (d: usize)
        ensures
            d == self.danger,
    {
        self.danger
    }

    /// The square's current display state.
    pub fn get_state(&self) -> (s: State)
        ensures
            s == self.state,
    {
        self.state
    }

    /// Set the square's display state.
    pub fn set_state(&mut self, state: State)
        ensures
            final(self).state == state,
            final(self).x_pos == old(self).x_pos,
            final(self).y_pos == old(self).y_pos,
            final(self).is_mine == old(self).is_mine,
            final(self).danger == old(self).danger,
    {
        self.state = state;
    }
}

/// Display glyph for a visible non-mine square: a space for no danger,
/// else the danger digit.
pub open spec fn digit_icon(d: int) -> char {
    if d == 0 {
        ' '
    } else if d == 1 {
        '1'
    } else if d == 2 {
        '2'
    } else if d == 3 {
        '3'
    } else if d == 4 {
        '4'
    } else if d == 5 {
        '5'
    } else if d == 6 {
        '6'
    } else if d == 7 {
        '7'
    } else {
        '8'
    }
}

/// The glyph a square shows: hidden and flagged markers, the mine
/// glyph once a mine is visible, or the danger digit.
pub open spec fn icon_spec(s: Square) -> char {
    match s.state {
        State::HIDDEN => '-',
        State::FLAGGED => 'f',
        State::VISIBLE => if s.is_mine {
            '*'
        } else {
            digit_icon(s.danger as int)
        },
    }
}

/// Whether (x, y) names a square of a grid with the given side length.
pub open spec fn in_bounds(dim: int, x: int, y: int) -> bool {
    0 <= x < dim && 0 <= y < dim
}

/// Index of the square at (x, y) in the row-major grid vector.
pub open spec fn idx(dim: int, x: int, y: int) -> int {
    y * dim + x
}

/// Whether two distinct positions border each other, diagonals included.
pub open spec fn adjacent(x1: int, y1: int, x2: int, y2: int) -> bool {
    &&& !(x1 == x2 && y1 == y2)
    &&& -1 <= x1 - x2 <= 1
    &&& -1 <= y1 - y2 <= 1
}

/// 1 for true, 0 for false; used to add up indicator values.
pub open spec fn b2i(b: bool) -> int {
    if b { 1 } else { 0 }
}

/// Whether the square at (x, y) exists and holds a mine.  Positions off
/// the grid count as mine-free.
pub open spec fn mine_at(g: Seq<Square>, dim: int, x: int, y: int) -> bool {
    in_bounds(dim, x, y) && g[idx(dim, x, y)].is_mine
}

/// Exact number of mines among the up-to-eight on-grid neighbors of (x, y).
pub open spec fn danger_count(g: Seq<Square>, dim: int, x: int, y: int) -> int {
    b2i(mine_at(g, dim, x - 1, y - 1)) + b2i(mine_at(g, dim, x, y - 1)) + b2i(
        mine_at(g, dim, x + 1, y - 1),
    ) + b2i(mine_at(g, dim, x - 1, y)) + b2i(mine_at(g, dim, x + 1, y)) + b2i(
        mine_at(g, dim, x - 1, y + 1),
    ) + b2i(mine_at(g, dim, x, y + 1)) + b2i(mine_at(g, dim, x + 1, y + 1))
}

/// Number of squares of a grid that satisfy the given predicate.
pub open spec fn count_sq(g: Seq<Square>, f: spec_fn(Square) -> bool) -> int
    decreases g.len(),
{
    if g.len() == 0 {
        0
    } else {
        count_sq(g.drop_last(), f) + b2i(f(g.last()))
    }
}

/// Number of mine squares of a grid.
pub open spec fn count_mines(g: Seq<Square>) -> int {
    count_sq(g, |s: Square| s.is_mine)
}

/// Number of flagged squares of a grid.
pub open spec fn count_flagged(g: Seq<Square>) -> int {
    count_sq(g, |s: Square| s.state == State::FLAGGED)
}

/// Number of hidden squares of a grid.
pub open spec fn count_hidden(g: Seq<Square>) -> int {
    count_sq(g, |s: Square| s.state == State::HIDDEN)
}

/// A count is never negative and never exceeds the grid length.
pub proof fn lemma_count_sq_bounds(g: Seq<Square>, f: spec_fn(Square) -> bool)
    ensures
        0 <= count_sq(g, f) <= g.len(),
    decreases g.len(),
{
    if g.len() > 0 {
        lemma_count_sq_bounds(g.drop_last(), f);
    }
}

/// Appending a square adds its indicator value to the count.
pub proof fn lemma_count_sq_push(g: Seq<Square>, f: spec_fn(Square) -> bool, s: Square)
    ensures
        count_sq(g.push(s), f) == count_sq(g, f) + b2i(f(s)),
{
    assert(g.push(s).drop_last() =~= g);
    assert(g.push(s).last() == s);
}

/// Replacing one square shifts the count by the change in its indicator.
pub proof fn lemma_count_sq_update(g: Seq<Square>, f: spec_fn(Square) -> bool, i: int, s: Square)
    requires
        0 <= i < g.len(),
    ensures
        count_sq(g.update(i, s), f) == count_sq(g, f) - b2i(f(g[i])) + b2i(f(s)),
    decreases g.len(),
{
    let gu = g.update(i, s);
    if i == g.len() - 1 {
        assert(gu.drop_last() =~= g.drop_last());
        assert(gu.last() == s);
    } else {
        assert(gu.drop_last() =~= g.drop_last().update(i, s));
        assert(gu.last() == g.last());
        lemma_count_sq_update(g.drop_last(), f, i, s);
    }
}

/// Grids whose squares satisfy the predicate at exactly the same
/// positions have the same count.
pub proof fn lemma_count_sq_pointwise(g1: Seq<Square>, g2: Seq<Square>, f: spec_fn(Square) -> bool)
    requires
        g1.len() == g2.len(),
        forall|i: int| 0 <= i < g1.len() ==> f(g1[i]) == f(#[trigger] g2[i]),
    ensures
        count_sq(g1, f) == count_sq(g2, f),
    decreases g1.len(),
{
    if g1.len() > 0 {
        assert(forall|i: int|
            0 <= i < g1.len() - 1 ==> f(g1.drop_last()[i]) == f(#[trigger] g2.drop_last()[i]));
        lemma_count_sq_pointwise(g1.drop_last(), g2.drop_last(), f);
        assert(f(g1.last()) == f(g2.last()));
    }
}

/// A square that satisfies the predicate pushes the count to at least one.
pub proof fn lemma_count_sq_at_least_one(g: Seq<Square>, f: spec_fn(Square) -> bool, i: int)
    requires
        0 <= i < g.len(),
        f(g[i]),
    ensures
        count_sq(g, f) >= 1,
    decreases g.len(),
{
    if i == g.len() - 1 {
        lemma_count_sq_bounds(g.drop_last(), f);
    } else {
        lemma_count_sq_at_least_one(g.drop_last(), f, i);
    }
}

/// If the predicate only ever turns off from `g1` to `g2`, the count does
/// not grow, and it strictly shrinks as soon as one square turned off.
pub proof fn lemma_count_sq_monotone(g1: Seq<Square>, g2: Seq<Square>, f: spec_fn(Square) -> bool)
    requires
        g1.len() == g2.len(),
        forall|i: int| 0 <= i < g1.len() && f(#[trigger] g2[i]) ==> f(g1[i]),
    ensures
        count_sq(g2, f) <= count_sq(g1, f),
        (exists|i: int| 0 <= i < g1.len() && f(g1[i]) && !f(#[trigger] g2[i])) ==> count_sq(
            g2,
            f,
        ) < count_sq(g1, f),
    decreases g1.len(),
{
    if g1.len() > 0 {
        assert(forall|i: int|
            0 <= i < g1.len() - 1 && f(#[trigger] g2.drop_last()[i]) ==> f(g1.drop_last()[i]));
        lemma_count_sq_monotone(g1.drop_last(), g2.drop_last(), f);
        if exists|i: int| 0 <= i < g1.len() && f(g1[i]) && !f(#[trigger] g2[i]) {
            let i = choose|i: int| 0 <= i < g1.len() && f(g1[i]) && !f(#[trigger] g2[i]);
            if i == g1.len() - 1 {
            } else {
                assert(f(g1.drop_last()[i]) && !f(g2.drop_last()[i]));
            }
        }
    }
}

/// A count over squares that all fail the predicate is zero.
pub proof fn lemma_count_sq_zero(g: Seq<Square>, f: spec_fn(Square) -> bool)
    requires
        forall|i: int| 0 <= i < g.len() ==> !f(#[trigger] g[i]),
    ensures
        count_sq(g, f) == 0,
    decreases g.len(),
{
    if g.len() > 0 {
        lemma_count_sq_zero(g.drop_last(), f);
    }
}

/// The square `s` with its display state replaced.
pub open spec fn sq_with_state(s: Square, st: State) -> Square {
    Square { state: st, ..s }
}

/// Every difficulty keeps the side length between 1 and 24.
pub proof fn lemma_dim_bounds(d: Difficulty)
    ensures
        0 < d.dim_spec() <= 24,
{
}

/// A position inside the grid yields a row-major index inside the grid
/// vector, and the vector never outgrows 576 squares.
pub proof fn lemma_idx_bounds(dim: int, x: int, y: int)
    requires
        in_bounds(dim, x, y),
        dim <= 24,
    ensures
        0 <= idx(dim, x, y) < dim * dim,
        dim * dim <= 576,
{
    assert(0 <= y * dim + x < dim * dim && dim * dim <= 576) by (nonlinear_arith)
        requires
            0 <= x < dim,
            0 <= y < dim,
            dim <= 24,
    ;
}

/// Row-major indexing round-trips through division and remainder.
pub proof fn lemma_idx_math(dim: int, x: int, y: int)
    requires
        0 < dim,
        in_bounds(dim, x, y),
    ensures
        idx(dim, x, y) % dim == x,
        idx(dim, x, y) / dim == y,
{
    vstd::arithmetic::div_mod::lemma_fundamental_div_mod_converse(y * dim + x, dim, y, x);
}

/// Relies on rand::Rng::gen_ratio on the thread-local generator: the
/// draw comes back true with probability numerator/denominator.  Its
/// documentation promises a sure result at the two ends of the range,
/// and a panic only when the denominator is zero or smaller than the
/// numerator, which the precondition rules out.
#[verifier::external_body]
fn random_chance(numerator: u32, denominator: u32) -> (b: bool)
    requires
        0 < denominator,
        numerator <= denominator,
    ensures
        numerator == 0 ==> !b,
        numerator == denominator ==> b,
{
    rand::thread_rng().gen_ratio(numerator, denominator)
}

/// Whether the square at (x, y) of a full row-major grid holds a mine,
/// with every off-grid position counting as mine-free.
fn is_mine_at(grid: &Vec<Square>, dim: usize, x: isize, y: isize) -> (b: bool)
    requires
        grid@.len() == dim * dim,
        0 < dim <= 24,
    ensures
        b == mine_at(grid@, dim as int, x as int, y as int),
{
    if x >= 0 && (x as usize) < dim && y >= 0 && (y as usize) < dim {
        proof {
            lemma_idx_bounds(dim as int, x as int, y as int);
        }
        grid[(y as usize) * dim + (x as usize)].is_mine
    } else {
        false
    }
}

/// Grids that agree on where the mines are give every position the same
/// danger count.
pub proof fn lemma_danger_count_same(g: Seq<Square>, h: Seq<Square>, dim: int, x: int, y: int)
    requires
        g.len() == dim * dim,
        h.len() == dim * dim,
        0 < dim <= 24,
        forall|j: int| 0 <= j < g.len() ==> (#[trigger] g[j]).is_mine == h[j].is_mine,
    ensures
        danger_count(g, dim, x, y) == danger_count(h, dim, x, y),
{
    assert forall|a: int, b: int| true implies mine_at(g, dim, a, b) == mine_at(h, dim, a, b) by {
        if in_bounds(dim, a, b) {
            lemma_idx_bounds(dim, a, b);
        }
    }
}

/// Exact number of mines among the on-grid neighbors of (x, y) in a full
/// row-major grid.
fn danger_at(grid: &Vec<Square>, dim: usize, x: isize, y: isize) -> (d: usize)
    requires
        grid@.len() == dim * dim,
        0 < dim <= 24,
        0 <= x as int && (x as int) < dim,
        0 <= y as int && (y as int) < dim,
    ensures
        d as int == danger_count(grid@, dim as int, x as int, y as int),
        d <= 8,
{
    let mut d: usize = 0;
    if is_mine_at(grid, dim, x - 1, y - 1) {
        d += 1;
    }
    if is_mine_at(grid, dim, x, y - 1) {
        d += 1;
    }
    if is_mine_at(grid, dim, x + 1, y - 1) {
        d += 1;
    }
    if is_mine_at(grid, dim, x - 1, y) {
        d += 1;
    }
    if is_mine_at(grid, dim, x + 1, y) {
        d += 1;
    }
    if is_mine_at(grid, dim, x - 1, y + 1) {
        d += 1;
    }
    if is_mine_at(grid, dim, x, y + 1) {
        d += 1;
    }
    if is_mine_at(grid, dim, x + 1, y + 1) {
        d += 1;
    }
    d
}

/// A square's own index is touched by an update at another in-bounds
/// position only if the two positions agree.
pub proof fn lemma_idx_distinct(dim: int, ax: int, ay: int, nx: int, ny: int)
    requires
        0 < dim,
        in_bounds(dim, ax, ay),
    ensures
        (in_bounds(dim, nx, ny) && idx(dim, nx, ny) == idx(dim, ax, ay)) ==> (nx == ax && ny
            == ay),
{
    if in_bounds(dim, nx, ny) && idx(dim, nx, ny) == idx(dim, ax, ay) {
        lemma_idx_injective(dim, ax, ay, nx, ny);
    }
}

/// Revealing squares can only lower the number of hidden squares, and
/// strictly lowers it as soon as one square was actually revealed.
pub proof fn lemma_count_hidden_monotone(g1: Seq<Square>, g2: Seq<Square>)
    requires
        g1.len() == g2.len(),
        forall|i: int| 0 <= i < g1.len() && (#[trigger] g2[i]).state == State::HIDDEN ==> g1[i].state == State::HIDDEN,
    ensures
        count_hidden(g2) <= count_hidden(g1),
        (exists|i: int|
            0 <= i < g1.len() && g1[i].state == State::HIDDEN && (#[trigger] g2[i]).state
                != State::HIDDEN) ==> count_hidden(g2) < count_hidden(g1),
{
    lemma_count_sq_monotone(g1, g2, |s: Square| s.state == State::HIDDEN);
}

/// The number of hidden squares is never negative and never exceeds
/// the grid length.
pub proof fn lemma_count_hidden_bounds(g: Seq<Square>)
    ensures
        0 <= count_hidden(g) <= g.len(),
{
    lemma_count_sq_bounds(g, |s: Square| s.state == State::HIDDEN);
}

/// Grids that are flagged at exactly the same squares have the same
/// flag count.
pub proof fn lemma_count_flagged_pointwise(g1: Seq<Square>, g2: Seq<Square>)
    requires
        g1.len() == g2.len(),
        forall|i: int|
            0 <= i < g1.len() ==> ((g1[i].state == State::FLAGGED) == ((#[trigger] g2[i]).state
                == State::FLAGGED)),
    ensures
        count_flagged(g1) == count_flagged(g2),
{
    lemma_count_sq_pointwise(g1, g2, |s: Square| s.state == State::FLAGGED);
}

/// Replacing one square shifts the flag count by the change in its
/// flaggedness, stays within the grid length, and a flagged square
/// keeps the count at one or more.
pub proof fn lemma_count_flagged_update(g: Seq<Square>, i: int, s: Square)
    requires
        0 <= i < g.len(),
    ensures
        count_flagged(g.update(i, s)) == count_flagged(g) - b2i(g[i].state == State::FLAGGED) + b2i(
            s.state == State::FLAGGED,
        ),
        0 <= count_flagged(g) <= g.len(),
        g[i].state == State::FLAGGED ==> count_flagged(g) >= 1,
{
    lemma_count_sq_update(g, |q: Square| q.state == State::FLAGGED, i, s);
    lemma_count_sq_bounds(g, |q: Square| q.state == State::FLAGGED);
    if g[i].state == State::FLAGGED {
        lemma_count_sq_at_least_one(g, |q: Square| q.state == State::FLAGGED, i);
    }
}

/// Appending a coordinate that is not yet listed keeps a backlog free
/// of duplicates.
pub proof fn lemma_push_keeps_no_dup(b: Seq<(isize, isize)>, c: (isize, isize))
    requires
        b.no_duplicates(),
        !b.contains(c),
    ensures
        b.push(c).no_duplicates(),
{
    let p = b.push(c);
    assert forall|i: int, j: int| 0 <= i < p.len() && 0 <= j < p.len() && i != j implies p[i]
        != p[j] by {
        if i < b.len() && j < b.len() {
        } else if i < b.len() {
            assert(b[i] == p[i]);
        } else {
            assert(b[j] == p[j]);
        }
    }
}

/// Distinct in-bounds positions have distinct row-major indexes.
pub proof fn lemma_idx_injective(dim: int, x1: int, y1: int, x2: int, y2: int)
    requires
        0 < dim,
        in_bounds(dim, x1, y1),
        in_bounds(dim, x2, y2),
        idx(dim, x1, y1) == idx(dim, x2, y2),
    ensures
        x1 == x2 && y1 == y2,
{
    lemma_idx_math(dim, x1, y1);
    lemma_idx_math(dim, x2, y2);
}

/// The game field: a row-major grid of squares together with the mine
/// positions and the mine and flag counters.
pub struct Field {
    pub grid: Vec<Square>,
    pub difficulty: Difficulty,
    pub mines: Vec<(u8, u8)>,
    pub n_mines: usize,
    pub n_flags: usize,
}

impl Field {
    /// A field that has not been populated yet.
    pub open spec fn is_blank(self) -> bool {
        &&& self.grid@.len() == 0
        &&& self.mines@.len() == 0
        &&& self.n_mines == 0
        &&& self.n_flags == 0
    }

    /// Side length of this field's grid.
    pub open spec fn dim(self) -> int {
        self.difficulty.dim_spec()
    }

    /// The structural invariant of a populated field: the grid is a full
    /// square, every square records its own position, every danger value
    /// is the exact count of mines bordering that square, and the mine
    /// list names exactly the mine squares, each once.
    pub open spec fn wf(self) -> bool {
        let dim = self.dim();
        let g = self.grid@;
        &&& g.len() == dim * dim
        &&& forall|i: int|
            0 <= i < g.len() ==> (#[trigger] g[i]).x_pos as int == i % dim && g[i].y_pos as int
                == i / dim
        &&& forall|x: int, y: int|
            in_bounds(dim, x, y) ==> g[idx(dim, x, y)].danger as int == #[trigger] danger_count(
                g,
                dim,
                x,
                y,
            )
        &&& self.n_mines as int == count_mines(g)
        &&& self.mines@.len() == self.n_mines
        &&& forall|t: int|
            0 <= t < self.mines@.len() ==> {
                let c = #[trigger] self.mines@[t];
                &&& in_bounds(dim, c.0 as int, c.1 as int)
                &&& g[idx(dim, c.0 as int, c.1 as int)].is_mine
            }
        &&& forall|i: int|
            0 <= i < g.len() && (#[trigger] g[i]).is_mine ==> self.mines@.contains(
                (g[i].x_pos, g[i].y_pos),
            )
        &&& self.mines@.no_duplicates()
    }

    /// The flag counter agrees with the number of flagged squares.
    pub open spec fn flags_synced(self) -> bool {
        self.n_flags as int == count_flagged(self.grid@)
    }

    /// The parts of a field that play never changes: everything except
    /// the display states and the flag counter.
    pub open spec fn same_board(self, other: Field) -> bool {
        let g = self.grid@;
        let h = other.grid@;
        &&& self.difficulty == other.difficulty
        &&& self.mines@ == other.mines@
        &&& self.n_mines == other.n_mines
        &&& g.len() == h.len()
        &&& forall|i: int|
            0 <= i < g.len() ==> (#[trigger] g[i]).x_pos == h[i].x_pos && g[i].y_pos == h[i].y_pos
                && g[i].is_mine == h[i].is_mine && g[i].danger == h[i].danger
    }

    /// A board-preserving change keeps the field well formed.
    pub proof fn lemma_same_board_wf(self, other: Field)
        requires
            self.wf(),
            self.same_board(other),
        ensures
            other.wf(),
    {
        let dim = self.dim();
        let g = self.grid@;
        let h = other.grid@;
        assert forall|i: int| 0 <= i < h.len() implies (#[trigger] h[i]).x_pos as int == i % dim
            && h[i].y_pos as int == i / dim by {
            assert(g[i].x_pos as int == i % dim && g[i].y_pos as int == i / dim);
        }
        assert forall|t: int| 0 <= t < other.mines@.len() implies {
            let c = #[trigger] other.mines@[t];
            &&& in_bounds(dim, c.0 as int, c.1 as int)
            &&& h[idx(dim, c.0 as int, c.1 as int)].is_mine
        } by {
            let c = other.mines@[t];
            assert(self.mines@[t] == c);
            assert(in_bounds(dim, c.0 as int, c.1 as int));
            lemma_dim_bounds(self.difficulty);
            lemma_idx_bounds(dim, c.0 as int, c.1 as int);
            assert(g[idx(dim, c.0 as int, c.1 as int)].is_mine);
        }
        assert forall|x: int, y: int| in_bounds(dim, x, y) implies h[idx(dim, x, y)].danger as int
            == #[trigger] danger_count(h, dim, x, y) by {
            lemma_dim_bounds(self.difficulty);
            lemma_idx_bounds(dim, x, y);
            assert(g[idx(dim, x, y)].danger as int == danger_count(g, dim, x, y));
            lemma_danger_count_same(h, g, dim, x, y);
        }
        lemma_count_sq_pointwise(h, g, |s: Square| s.is_mine);
        assert forall|i: int|
            0 <= i < h.len() && (#[trigger] h[i]).is_mine implies other.mines@.contains(
            (h[i].x_pos, h[i].y_pos),
        ) by {
            assert(g[i].is_mine);
        }
    }

    /// Creates a new, not yet populated field.
    pub fn new() -> (f: Field)
        ensures
            f.is_blank(),
            f.difficulty == Difficulty::BEGINNER,
    {
        Field {
            grid: Vec::new(),
            difficulty: Difficulty::BEGINNER,
            mines: Vec::new(),
            n_mines: 0,
            n_flags: 0,
        }
    }

    /// The grid of squares, row by row.
    pub fn get_grid(&self) -> (g: &Vec<Square>)
        ensures
            g@ == self.grid@,
    {
        &self.grid
    }

    /// Number of mines on the field.
    pub fn get_n_mines(&self) -> (n: usize)
        ensures
            n == self.n_mines,
    {
        self.n_mines
    }

    /// Number of flags placed on the field.
    pub fn get_n_flags(&self) -> (n: usize)
        ensures
            n == self.n_flags,
    {
        self.n_flags
    }

    /// The positions of all mines.
    pub fn get_mines(&self) -> (m: &Vec<(u8, u8)>)
        ensures
            m@ == self.mines@,
    {
        &self.mines
    }

    /// Side length of the field, from its difficulty.
    pub fn get_dimensions(&self) -> (d: u8)
        ensures
            d as int == self.dim(),
    {
        self.difficulty.get_dimensions()
    }

    /// Increments the flag counter.
    pub fn increment_n_flags(&mut self)
        requires
            old(self).n_flags < usize::MAX,
        ensures
            final(self).n_flags == old(self).n_flags + 1,
            final(self).grid@ == old(self).grid@,
            final(self).difficulty == old(self).difficulty,
            final(self).mines@ == old(self).mines@,
            final(self).n_mines == old(self).n_mines,
    {
        self.n_flags += 1
    }

    /// Decrements the flag counter.
    pub fn decrement_n_flags(&mut self)
        requires
            old(self).n_flags > 0,
        ensures
            final(self).n_flags == old(self).n_flags - 1,
            final(self).grid@ == old(self).grid@,
            final(self).difficulty == old(self).difficulty,
            final(self).mines@ == old(self).mines@,
            final(self).n_mines == old(self).n_mines,
    {
        self.n_flags -= 1
    }

    /// Populates the blank field as a full grid whose mine layout is
    /// given by `mine_flags`, read row by row.  Every square starts
    /// hidden and carries the exact count of mines bordering it; the
    /// mine list comes out in strictly ascending row-major order.
    #[verifier::rlimit(50)]
    pub fn populate_with_mines(&mut self, difficulty: Difficulty, mine_flags: &Vec<bool>)
        requires
            old(self).is_blank(),
            mine_flags@.len() == difficulty.dim_spec() * difficulty.dim_spec(),
        ensures
            final(self).wf(),
            final(self).flags_synced(),
            final(self).difficulty == difficulty,
            final(self).n_flags == 0,
            forall|i: int|
                0 <= i < final(self).grid@.len() ==> (#[trigger] final(self).grid@[i]).is_mine
                    == mine_flags@[i] && final(self).grid@[i].state == State::HIDDEN,
            forall|t1: int, t2: int|
                0 <= t1 < t2 < final(self).mines@.len() ==> idx(
                    difficulty.dim_spec(),
                    (#[trigger] final(self).mines@[t1]).0 as int,
                    final(self).mines@[t1].1 as int,
                ) < idx(
                    difficulty.dim_spec(),
                    (#[trigger] final(self).mines@[t2]).0 as int,
                    final(self).mines@[t2].1 as int,
                ),
    {
        proof {
            lemma_dim_bounds(difficulty);
        }
        self.difficulty = difficulty;
        let dim = difficulty.get_dimensions() as usize;
        let n = dim * dim;
        let ghost dimi = difficulty.dim_spec();

        // First pass: lay out the squares and record the mines.
        let mut i: usize = 0;
        while i < n
            invariant
                self.difficulty == difficulty,
                dim == dimi,
                n == dimi * dimi,
                0 < dimi <= 24,
                n <= 576,
                mine_flags@.len() == n,
                i <= n,
                self.grid@.len() == i,
                self.n_flags == 0,
                self.mines@.len() == self.n_mines,
                self.n_mines as int == count_mines(self.grid@),
                forall|j: int|
                    0 <= j < i ==> {
                        let s = #[trigger] self.grid@[j];
                        &&& s.x_pos as int == j % dimi
                        &&& s.y_pos as int == j / dimi
                        &&& s.is_mine == mine_flags@[j]
                        &&& s.state == State::HIDDEN
                        &&& s.danger == 0
                    },
                forall|t: int|
                    0 <= t < self.mines@.len() ==> {
                        let c = #[trigger] self.mines@[t];
                        &&& in_bounds(dimi, c.0 as int, c.1 as int)
                        &&& 0 <= idx(dimi, c.0 as int, c.1 as int) < i
                        &&& self.grid@[idx(dimi, c.0 as int, c.1 as int)].is_mine
                    },
                forall|t1: int, t2: int|
                    0 <= t1 < t2 < self.mines@.len() ==> idx(
                        dimi,
                        (#[trigger] self.mines@[t1]).0 as int,
                        self.mines@[t1].1 as int,
                    ) < idx(dimi, (#[trigger] self.mines@[t2]).0 as int, self.mines@[t2].1 as int),
                forall|j: int|
                    0 <= j < i && (#[trigger] self.grid@[j]).is_mine ==> self.mines@.contains(
                        (self.grid@[j].x_pos, self.grid@[j].y_pos),
                    ),
            decreases n - i,
        {
            let col = i % dim;
            let row = i / dim;
            proof {
                vstd::arithmetic::div_mod::lemma_fundamental_div_mod(i as int, dimi);
                vstd::arithmetic::div_mod::lemma_mod_pos_bound(i as int, dimi);
                assert(0 <= row as int && (row as int) < dimi) by (nonlinear_arith)
                    requires
                        i as int == dimi * (row as int) + (col as int),
                        0 <= col as int && (col as int) < dimi,
                        (i as int) < dimi * dimi,
                        0 < dimi,
                ;
                lemma_count_sq_bounds(self.grid@, |s: Square| s.is_mine);
            }
            let sq = Square::new(col as u8, row as u8, mine_flags[i]);
            let ghost pre_grid = self.grid@;
            let ghost pre_mines = self.mines@;
            if sq.is_mine() {
                self.n_mines += 1;
                self.mines.push((col as u8, row as u8));
            }
            self.grid.push(sq);
            proof {
                lemma_count_sq_push(pre_grid, |s: Square| s.is_mine, sq);
                assert(self.grid@ == pre_grid.push(sq));
                if sq.is_mine {
                    assert(self.mines@ == pre_mines.push((sq.x_pos, sq.y_pos)));
                    assert(idx(dimi, sq.x_pos as int, sq.y_pos as int) == i as int) by {
                        assert(sq.x_pos as int == col as int && sq.y_pos as int == row as int);
                        assert((row as int) * dimi == dimi * (row as int)) by (nonlinear_arith);
                        assert(i as int == dimi * (row as int) + (col as int));
                    }
                } else {
                    assert(self.mines@ == pre_mines);
                }
                assert forall|t: int| 0 <= t < self.mines@.len() implies {
                    let c = #[trigger] self.mines@[t];
                    &&& in_bounds(dimi, c.0 as int, c.1 as int)
                    &&& 0 <= idx(dimi, c.0 as int, c.1 as int) < i + 1
                    &&& self.grid@[idx(dimi, c.0 as int, c.1 as int)].is_mine
                } by {
                    let c = self.mines@[t];
                    if t < pre_mines.len() {
                        assert(c == pre_mines[t]);
                        assert(in_bounds(dimi, c.0 as int, c.1 as int));
                        assert(0 <= idx(dimi, c.0 as int, c.1 as int) < i);
                        assert(self.grid@[idx(dimi, c.0 as int, c.1 as int)] == pre_grid[idx(
                            dimi,
                            c.0 as int,
                            c.1 as int,
                        )]);
                    } else {
                        assert(c == (sq.x_pos, sq.y_pos));
                        assert(self.grid@[i as int] == sq);
                    }
                }
                assert forall|t1: int, t2: int| 0 <= t1 < t2 < self.mines@.len() implies idx(
                    dimi,
                    (#[trigger] self.mines@[t1]).0 as int,
                    self.mines@[t1].1 as int,
                ) < idx(
                    dimi,
                    (#[trigger] self.mines@[t2]).0 as int,
                    self.mines@[t2].1 as int,
                ) by {
                    if t2 < pre_mines.len() {
                        assert(self.mines@[t1] == pre_mines[t1]);
                        assert(self.mines@[t2] == pre_mines[t2]);
                    } else {
                        assert(self.mines@[t1] == pre_mines[t1]);
                        assert(0 <= idx(dimi, pre_mines[t1].0 as int, pre_mines[t1].1 as int) < i);
                        assert(self.mines@[t2] == (sq.x_pos, sq.y_pos));
                    }
                }
                assert forall|j: int|
                    0 <= j < i + 1 && (#[trigger] self.grid@[j]).is_mine implies self
                    .mines@
                    .contains((self.grid@[j].x_pos, self.grid@[j].y_pos)) by {
                    if j < i {
                        assert(pre_grid[j] == self.grid@[j]);
                        let c = (pre_grid[j].x_pos, pre_grid[j].y_pos);
                        assert(pre_mines.contains(c));
                        let t = choose|t: int| 0 <= t < pre_mines.len() && pre_mines[t] == c;
                        assert(self.mines@[t] == c);
                    } else {
                        if sq.is_mine {
                            assert(self.mines@[self.mines@.len() - 1] == (sq.x_pos, sq.y_pos));
                        }
                    }
                }
            }
            i += 1;
        }

        // Second pass: give every square its exact danger count.
        let ghost flat = self.grid@;
        let mut k: usize = 0;
        while k < n
            invariant
                self.difficulty == difficulty,
                dim == dimi,
                n == dimi * dimi,
                0 < dimi <= 24,
                n <= 576,
                k <= n,
                self.grid@.len() == n,
                flat.len() == n,
                self.n_flags == 0,
                self.mines@.len() == self.n_mines,
                self.n_mines as int == count_mines(flat),
                mine_flags@.len() == n,
                forall|j: int|
                    0 <= j < n ==> {
                        let s = #[trigger] self.grid@[j];
                        &&& s.x_pos == flat[j].x_pos
                        &&& s.y_pos == flat[j].y_pos
                        &&& s.is_mine == flat[j].is_mine
                        &&& s.state == flat[j].state
                    },
                forall|j: int|
                    0 <= j < n ==> {
                        let s = #[trigger] flat[j];
                        &&& s.x_pos as int == j % dimi
                        &&& s.y_pos as int == j / dimi
                        &&& s.is_mine == mine_flags@[j]
                        &&& s.state == State::HIDDEN
                    },
                forall|t: int|
                    0 <= t < self.mines@.len() ==> {
                        let c = #[trigger] self.mines@[t];
                        &&& in_bounds(dimi, c.0 as int, c.1 as int)
                        &&& 0 <= idx(dimi, c.0 as int, c.1 as int) < n
                        &&& flat[idx(dimi, c.0 as int, c.1 as int)].is_mine
                    },
                forall|t1: int, t2: int|
                    0 <= t1 < t2 < self.mines@.len() ==> idx(
                        dimi,
                        (#[trigger] self.mines@[t1]).0 as int,
                        self.mines@[t1].1 as int,
                    ) < idx(dimi, (#[trigger] self.mines@[t2]).0 as int, self.mines@[t2].1 as int),
                forall|j: int|
                    0 <= j < n && (#[trigger] flat[j]).is_mine ==> self.mines@.contains(
                        (flat[j].x_pos, flat[j].y_pos),
                    ),
                forall|j: int|
                    0 <= j < k ==> (#[trigger] self.grid@[j]).danger as int == danger_count(
                        flat,
                        dimi,
                        j % dimi,
                        j / dimi,
                    ),
            decreases n - k,
        {
            let col = k % dim;
            let row = k / dim;
            proof {
                vstd::arithmetic::div_mod::lemma_fundamental_div_mod(k as int, dimi);
                vstd::arithmetic::div_mod::lemma_mod_pos_bound(k as int, dimi);
                assert(0 <= row as int && (row as int) < dimi) by (nonlinear_arith)
                    requires
                        k as int == dimi * (row as int) + (col as int),
                        0 <= col as int && (col as int) < dimi,
                        (k as int) < dimi * dimi,
                        0 < dimi,
                ;
            }
            let d = danger_at(&self.grid, dim, col as isize, row as isize);
            proof {
                lemma_danger_count_same(self.grid@, flat, dimi, col as int, row as int);
            }
            let ghost pre_grid = self.grid@;
            let mut sq = self.grid[k];
            sq.danger = d;
            self.grid[k] = sq;
            proof {
                assert forall|j: int|
                    0 <= j < k + 1 implies (#[trigger] self.grid@[j]).danger as int == danger_count(
                    flat,
                    dimi,
                    j % dimi,
                    j / dimi,
                ) by {
                    if j < k {
                        assert(self.grid@[j] == pre_grid[j]);
                    } else {
                        assert(j == k && self.grid@[j] == sq);
                        assert(col as int == k as int % dimi && row as int == k as int / dimi);
                    }
                }
            }
            k += 1;
        }

        // The per-index facts of the loops give the field invariant.
        proof {
            let g = self.grid@;
            assert forall|x: int, y: int| in_bounds(dimi, x, y) implies g[idx(
                dimi,
                x,
                y,
            )].danger as int == #[trigger] danger_count(g, dimi, x, y) by {
                lemma_idx_bounds(dimi, x, y);
                lemma_idx_math(dimi, x, y);
                let j = idx(dimi, x, y);
                assert(g[j].danger as int == danger_count(flat, dimi, j % dimi, j / dimi));
                lemma_danger_count_same(g, flat, dimi, x, y);
            }
            lemma_count_sq_pointwise(g, flat, |s: Square| s.is_mine);
            assert forall|t1: int, t2: int|
                0 <= t1 < self.mines@.len() && 0 <= t2 < self.mines@.len() && t1
                    != t2 implies self.mines@[t1] != self.mines@[t2] by {
                let c1 = self.mines@[t1];
                let c2 = self.mines@[t2];
                if c1 == c2 {
                    assert(idx(dimi, c1.0 as int, c1.1 as int) == idx(
                        dimi,
                        c2.0 as int,
                        c2.1 as int,
                    ));
                }
            }
            lemma_count_sq_pointwise(g, flat, |s: Square| s.state == State::FLAGGED);
            lemma_count_sq_zero(flat, |s: Square| s.state == State::FLAGGED);
        }
    }

    /// Populates the field for the given difficulty, drawing each
    /// square's mine flag independently with the difficulty's
    /// probability, as one Bernoulli trial per square.  The total number
    /// of mines therefore varies from game to game.
    pub fn populate(&mut self, difficulty: Difficulty)
        requires
            old(self).is_blank(),
        ensures
            final(self).wf(),
            final(self).flags_synced(),
            final(self).difficulty == difficulty,
            final(self).n_flags == 0,
            forall|i: int|
                0 <= i < final(self).grid@.len() ==> (#[trigger] final(self).grid@[i]).state
                    == State::HIDDEN,
            forall|t1: int, t2: int|
                0 <= t1 < t2 < final(self).mines@.len() ==> idx(
                    difficulty.dim_spec(),
                    (#[trigger] final(self).mines@[t1]).0 as int,
                    final(self).mines@[t1].1 as int,
                ) < idx(
                    difficulty.dim_spec(),
                    (#[trigger] final(self).mines@[t2]).0 as int,
                    final(self).mines@[t2].1 as int,
                ),
    {
        proof {
            lemma_dim_bounds(difficulty);
        }
        let dim = difficulty.get_dimensions() as usize;
        let n = dim * dim;
        let p = difficulty.p_is_mine();
        let mut mine_flags: Vec<bool> = Vec::new();
        while mine_flags.len() < n
            invariant
                mine_flags@.len() <= n,
                0 < p <= 100,
            decreases n - mine_flags@.len(),
        {
            let is_mine = random_chance(p, 100);
            mine_flags.push(is_mine);
        }
        self.populate_with_mines(difficulty, &mine_flags);
    }

    /// Every square of a well-formed field sits at the index that its
    /// own recorded position names.
    pub proof fn lemma_square_index(self, i: int)
        requires
            self.wf(),
            0 <= i < self.grid@.len(),
        ensures
            in_bounds(self.dim(), self.grid@[i].x_pos as int, self.grid@[i].y_pos as int),
            idx(self.dim(), self.grid@[i].x_pos as int, self.grid@[i].y_pos as int) == i,
    {
        let dim = self.dim();
        lemma_dim_bounds(self.difficulty);
        vstd::arithmetic::div_mod::lemma_fundamental_div_mod(i, dim);
        vstd::arithmetic::div_mod::lemma_mod_pos_bound(i, dim);
        let x = i % dim;
        let y = i / dim;
        assert(0 <= y && y < dim) by (nonlinear_arith)
            requires
                i == dim * y + x,
                0 <= x && x < dim,
                0 <= i < dim * dim,
                0 < dim,
        ;
        assert(y * dim == dim * y) by (nonlinear_arith);
    }

    /// Reveals every mine that is still hidden, for the end-of-game
    /// disclosure.  Flagged mines keep their flag; nothing else changes.
    #[verifier::rlimit(60)]
    pub fn show_mines(&mut self)
        requires
            old(self).wf(),
        ensures
            final(self).wf(),
            old(self).same_board(*final(self)),
            final(self).n_flags == old(self).n_flags,
            forall|i: int|
                0 <= i < final(self).grid@.len() ==> #[trigger] final(self).grid@[i] == (if old(
                    self,
                ).grid@[i].is_mine && old(self).grid@[i].state == State::HIDDEN {
                    sq_with_state(old(self).grid@[i], State::VISIBLE)
                } else {
                    old(self).grid@[i]
                }),
            old(self).flags_synced() ==> final(self).flags_synced(),
    {
        let ghost g0 = self.grid@;
        let ghost dimi = self.dim();
        let ghost all_mines = self.mines@;
        proof {
            lemma_dim_bounds(self.difficulty);
        }
        let dim = self.difficulty.get_dimensions() as usize;
        let n_mines = self.mines.len();
        let mut t: usize = 0;
        while t < n_mines
            invariant
                0 < dimi <= 24,
                dim == dimi,
                dimi == old(self).dim(),
                t <= n_mines,
                self.difficulty == old(self).difficulty,
                self.mines@ == all_mines,
                all_mines == old(self).mines@,
                n_mines == all_mines.len(),
                self.n_mines == old(self).n_mines,
                self.n_flags == old(self).n_flags,
                old(self).wf(),
                g0 == old(self).grid@,
                self.grid@.len() == g0.len(),
                forall|i: int|
                    0 <= i < self.grid@.len() ==> #[trigger] self.grid@[i] == g0[i] || (
                    g0[i].is_mine && g0[i].state == State::HIDDEN && self.grid@[i] == sq_with_state(
                        g0[i],
                        State::VISIBLE,
                    )),
                forall|k: int|
                    0 <= k < t ==> {
                        let c = #[trigger] all_mines[k];
                        let j = idx(dimi, c.0 as int, c.1 as int);
                        self.grid@[j] == (if g0[j].state == State::HIDDEN {
                            sq_with_state(g0[j], State::VISIBLE)
                        } else {
                            g0[j]
                        })
                    },
            decreases n_mines - t,
        {
            let c = self.mines[t];
            proof {
                assert(old(self).mines@[t as int] == c);
                assert(in_bounds(dimi, c.0 as int, c.1 as int));
                assert(g0[idx(dimi, c.0 as int, c.1 as int)].is_mine);
                lemma_idx_bounds(dimi, c.0 as int, c.1 as int);
            }
            let i = (c.1 as usize) * dim + (c.0 as usize);
            let ghost pre = self.grid@;
            let sq = self.grid[i];
            if sq.get_state() == State::HIDDEN {
                let mut s2 = sq;
                s2.state = State::VISIBLE;
                self.grid[i] = s2;
            }
            proof {
                assert forall|k: int| 0 <= k < t + 1 implies {
                    let cc = #[trigger] all_mines[k];
                    let j = idx(dimi, cc.0 as int, cc.1 as int);
                    self.grid@[j] == (if g0[j].state == State::HIDDEN {
                        sq_with_state(g0[j], State::VISIBLE)
                    } else {
                        g0[j]
                    })
                } by {
                    let cc = all_mines[k];
                    assert(old(self).mines@[k] == cc);
                    let j = idx(dimi, cc.0 as int, cc.1 as int);
                    lemma_idx_bounds(dimi, cc.0 as int, cc.1 as int);
                    if j != i as int {
                        assert(self.grid@[j] == pre[j]);
                    }
                }
            }
            t += 1;
        }
        proof {
            assert forall|i: int| 0 <= i < self.grid@.len() implies #[trigger] self.grid@[i] == (
            if g0[i].is_mine && g0[i].state == State::HIDDEN {
                sq_with_state(g0[i], State::VISIBLE)
            } else {
                g0[i]
            }) by {
                if g0[i].is_mine && g0[i].state == State::HIDDEN {
                    assert(all_mines.contains((g0[i].x_pos, g0[i].y_pos)));
                    let k = choose|k: int|
                        0 <= k < all_mines.len() && all_mines[k] == (g0[i].x_pos, g0[i].y_pos);
                    old(self).lemma_square_index(i);
                    assert(all_mines[k] == (g0[i].x_pos, g0[i].y_pos));
                    assert(idx(dimi, all_mines[k].0 as int, all_mines[k].1 as int) == i);
                }
            }
            old(self).lemma_same_board_wf(*self);
            if old(self).flags_synced() {
                lemma_count_sq_pointwise(self.grid@, g0, |s: Square| s.state == State::FLAGGED);
            }
        }
    }

    /// Reveals the square at (cx, cy) if it exists and is hidden, and
    /// records it on the backlog when its danger is zero.
    fn reveal_neighbor(&mut self, cx: isize, cy: isize, backlog: &mut Vec<(isize, isize)>)
        requires
            old(self).wf(),
        ensures
            final(self).wf(),
            old(self).same_board(*final(self)),
            final(self).n_flags == old(self).n_flags,
            final(self).grid@.len() == old(self).grid@.len(),
            forall|j: int|
                0 <= j < old(self).grid@.len() ==> #[trigger] final(self).grid@[j] == (if j == idx(
                    old(self).dim(),
                    cx as int,
                    cy as int,
                ) && in_bounds(old(self).dim(), cx as int, cy as int) && old(self).grid@[j].state
                    == State::HIDDEN {
                    sq_with_state(old(self).grid@[j], State::VISIBLE)
                } else {
                    old(self).grid@[j]
                }),
            ({
                let dim = old(self).dim();
                let g = old(self).grid@;
                final(backlog)@ == (if in_bounds(dim, cx as int, cy as int) && g[idx(
                    dim,
                    cx as int,
                    cy as int,
                )].state == State::HIDDEN && g[idx(dim, cx as int, cy as int)].danger == 0 {
                    old(backlog)@.push((cx, cy))
                } else {
                    old(backlog)@
                })
            }),
    {
        proof {
            lemma_dim_bounds(self.difficulty);
        }
        let dim = self.difficulty.get_dimensions() as isize;
        if cx >= 0 && cx < dim && cy >= 0 && cy < dim {
            proof {
                lemma_idx_bounds(self.dim(), cx as int, cy as int);
            }
            let i = (cy as usize) * (dim as usize) + (cx as usize);
            let sq = self.grid[i];
            if sq.get_state() == State::HIDDEN {
                if sq.get_danger() == 0 {
                    backlog.push((cx, cy));
                }
                let mut s2 = sq;
                s2.state = State::VISIBLE;
                self.grid[i] = s2;
                proof {
                    old(self).lemma_same_board_wf(*self);
                }
            }
        }
    }

    /// Reveals every hidden neighbor of (x, y) and returns the positions
    /// of those revealed neighbors whose danger is zero: the squares the
    /// flood expansion still has to expand.
    pub fn check_and_update_states_of_adjacent_squares(
        &mut self,
        x_pos: isize,
        y_pos: isize,
    ) -> (backlog: Vec<(isize, isize)>)
        requires
            old(self).wf(),
            isize::MIN < x_pos < isize::MAX,
            isize::MIN < y_pos < isize::MAX,
        ensures
            final(self).wf(),
            old(self).same_board(*final(self)),
            final(self).n_flags == old(self).n_flags,
            old(self).flags_synced() ==> final(self).flags_synced(),
            forall|i: int|
                0 <= i < final(self).grid@.len() ==> #[trigger] final(self).grid@[i] == old(
                    self,
                ).grid@[i] || (old(self).grid@[i].state == State::HIDDEN && adjacent(
                    x_pos as int,
                    y_pos as int,
                    old(self).grid@[i].x_pos as int,
                    old(self).grid@[i].y_pos as int,
                ) && final(self).grid@[i] == sq_with_state(old(self).grid@[i], State::VISIBLE)),
            forall|cx: int, cy: int|
                adjacent(x_pos as int, y_pos as int, cx, cy) && in_bounds(old(self).dim(), cx, cy)
                    && old(self).grid@[#[trigger] idx(old(self).dim(), cx, cy)].state
                    == State::HIDDEN ==> final(self).grid@[idx(old(self).dim(), cx, cy)].state
                    == State::VISIBLE && (old(self).grid@[idx(old(self).dim(), cx, cy)].danger == 0
                    ==> backlog@.contains((cx as isize, cy as isize))),
            forall|t: int|
                0 <= t < backlog@.len() ==> {
                    let c = #[trigger] backlog@[t];
                    let dim = old(self).dim();
                    &&& adjacent(x_pos as int, y_pos as int, c.0 as int, c.1 as int)
                    &&& in_bounds(dim, c.0 as int, c.1 as int)
                    &&& old(self).grid@[idx(dim, c.0 as int, c.1 as int)].state == State::HIDDEN
                    &&& old(self).grid@[idx(dim, c.0 as int, c.1 as int)].danger == 0
                    &&& final(self).grid@[idx(dim, c.0 as int, c.1 as int)].state == State::VISIBLE
                },
            backlog@.no_duplicates(),
    {
        let ghost g0 = self.grid@;
        let ghost dimi = self.dim();
        let ghost xi = x_pos as int;
        let ghost yi = y_pos as int;
        let mut offs: Vec<(isize, isize)> = Vec::new();
        offs.push((x_pos, y_pos - 1));
        offs.push((x_pos + 1, y_pos - 1));
        offs.push((x_pos + 1, y_pos));
        offs.push((x_pos + 1, y_pos + 1));
        offs.push((x_pos, y_pos + 1));
        offs.push((x_pos - 1, y_pos + 1));
        offs.push((x_pos - 1, y_pos));
        offs.push((x_pos - 1, y_pos - 1));
        let mut backlog: Vec<(isize, isize)> = Vec::new();
        proof {
            lemma_dim_bounds(self.difficulty);
            assert(forall|k: int|
                0 <= k < 8 ==> adjacent(xi, yi, (#[trigger] offs@[k]).0 as int, offs@[k].1 as int));
        }
        let mut k: usize = 0;
        while k < offs.len()
            invariant
                offs@.len() == 8,
                offs@[0].0 as int == xi && offs@[0].1 as int == yi - 1,
                offs@[1].0 as int == xi + 1 && offs@[1].1 as int == yi - 1,
                offs@[2].0 as int == xi + 1 && offs@[2].1 as int == yi,
                offs@[3].0 as int == xi + 1 && offs@[3].1 as int == yi + 1,
                offs@[4].0 as int == xi && offs@[4].1 as int == yi + 1,
                offs@[5].0 as int == xi - 1 && offs@[5].1 as int == yi + 1,
                offs@[6].0 as int == xi - 1 && offs@[6].1 as int == yi,
                offs@[7].0 as int == xi - 1 && offs@[7].1 as int == yi - 1,
                forall|t: int|
                    0 <= t < 8 ==> adjacent(xi, yi, (#[trigger] offs@[t]).0 as int, offs@[t].1 as int),
                k <= 8,
                xi == x_pos as int,
                yi == y_pos as int,
                old(self).wf(),
                g0 == old(self).grid@,
                dimi == old(self).dim(),
                self.wf(),
                old(self).same_board(*self),
                self.n_flags == old(self).n_flags,
                forall|i: int|
                    0 <= i < self.grid@.len() ==> #[trigger] self.grid@[i] == g0[i] || (g0[i].state
                        == State::HIDDEN && adjacent(xi, yi, g0[i].x_pos as int, g0[i].y_pos as int)
                        && self.grid@[i] == sq_with_state(g0[i], State::VISIBLE)),
                forall|t: int|
                    k <= t < 8 && in_bounds(
                        dimi,
                        (#[trigger] offs@[t]).0 as int,
                        offs@[t].1 as int,
                    ) ==> self.grid@[idx(dimi, offs@[t].0 as int, offs@[t].1 as int)] == g0[idx(
                        dimi,
                        offs@[t].0 as int,
                        offs@[t].1 as int,
                    )],
                forall|t: int|
                    0 <= t < k && in_bounds(
                        dimi,
                        (#[trigger] offs@[t]).0 as int,
                        offs@[t].1 as int,
                    ) && g0[idx(dimi, offs@[t].0 as int, offs@[t].1 as int)].state == State::HIDDEN
                        ==> self.grid@[idx(dimi, offs@[t].0 as int, offs@[t].1 as int)].state
                        == State::VISIBLE && (g0[idx(
                        dimi,
                        offs@[t].0 as int,
                        offs@[t].1 as int,
                    )].danger == 0 ==> backlog@.contains(offs@[t])),
                forall|t: int|
                    0 <= t < backlog@.len() ==> {
                        let c = #[trigger] backlog@[t];
                        &&& adjacent(xi, yi, c.0 as int, c.1 as int)
                        &&& in_bounds(dimi, c.0 as int, c.1 as int)
                        &&& g0[idx(dimi, c.0 as int, c.1 as int)].state == State::HIDDEN
                        &&& g0[idx(dimi, c.0 as int, c.1 as int)].danger == 0
                        &&& self.grid@[idx(dimi, c.0 as int, c.1 as int)].state == State::VISIBLE
                    },
                forall|s: int|
                    0 <= s < backlog@.len() ==> exists|t: int|
                        0 <= t < k && #[trigger] backlog@[s] == offs@[t],
                backlog@.no_duplicates(),
            decreases 8 - k,
        {
            let c = offs[k];
            let ghost pre = self.grid@;
            let ghost preb = backlog@;
            self.reveal_neighbor(c.0, c.1, &mut backlog);
            proof {
                broadcast use vstd::seq_lib::lemma_seq_contains_after_push;

                let cx = c.0 as int;
                let cy = c.1 as int;
                if in_bounds(dimi, cx, cy) {
                    lemma_idx_bounds(dimi, cx, cy);
                    let j = idx(dimi, cx, cy);
                    lemma_idx_math(dimi, cx, cy);
                    assert(g0[j].x_pos as int == cx && g0[j].y_pos as int == cy);
                    assert forall|i: int| 0 <= i < self.grid@.len() implies #[trigger] self
                        .grid@[i] == g0[i] || (g0[i].state == State::HIDDEN && adjacent(
                        xi,
                        yi,
                        g0[i].x_pos as int,
                        g0[i].y_pos as int,
                    ) && self.grid@[i] == sq_with_state(g0[i], State::VISIBLE)) by {
                        assert(pre[i] == pre[i]);
                    }
                }
                assert forall|t: int|
                    k + 1 <= t < 8 && in_bounds(
                        dimi,
                        (#[trigger] offs@[t]).0 as int,
                        offs@[t].1 as int,
                    ) implies self.grid@[idx(dimi, offs@[t].0 as int, offs@[t].1 as int)] == g0[idx(
                    dimi,
                    offs@[t].0 as int,
                    offs@[t].1 as int,
                )] by {
                    let ax = offs@[t].0 as int;
                    let ay = offs@[t].1 as int;
                    lemma_idx_bounds(dimi, ax, ay);
                    lemma_idx_distinct(dimi, ax, ay, cx, cy);
                    assert(self.grid@[idx(dimi, ax, ay)] == pre[idx(dimi, ax, ay)]);
                }
                assert forall|t: int|
                    0 <= t < k + 1 && in_bounds(
                        dimi,
                        (#[trigger] offs@[t]).0 as int,
                        offs@[t].1 as int,
                    ) && g0[idx(dimi, offs@[t].0 as int, offs@[t].1 as int)].state
                    == State::HIDDEN implies self.grid@[idx(
                    dimi,
                    offs@[t].0 as int,
                    offs@[t].1 as int,
                )].state == State::VISIBLE && (g0[idx(
                    dimi,
                    offs@[t].0 as int,
                    offs@[t].1 as int,
                )].danger == 0 ==> backlog@.contains(offs@[t])) by {
                    let ax = offs@[t].0 as int;
                    let ay = offs@[t].1 as int;
                    lemma_idx_bounds(dimi, ax, ay);
                    if t < k {
                        assert(pre[idx(dimi, ax, ay)].state == State::VISIBLE);
                    } else {
                        assert(offs@[t] == c);
                        assert(pre[idx(dimi, ax, ay)] == g0[idx(dimi, ax, ay)]);
                    }
                }
                assert forall|s: int|
                    0 <= s < backlog@.len() implies exists|t: int|
                        0 <= t < k + 1 && #[trigger] backlog@[s] == offs@[t] by {
                    if s < preb.len() {
                        assert(backlog@[s] == preb[s]);
                        let t0 = choose|t0: int| 0 <= t0 < k && #[trigger] preb[s] == offs@[t0];
                        assert(backlog@[s] == offs@[t0]);
                    } else {
                        assert(backlog@[s] == c && c == offs@[k as int]);
                    }
                }
                if backlog@ != preb {
                    assert(!preb.contains(c)) by {
                        if preb.contains(c) {
                            let s = choose|s: int| 0 <= s < preb.len() && preb[s] == c;
                            let t0 = choose|t0: int| 0 <= t0 < k && #[trigger] preb[s] == offs@[t0];
                            assert(offs@[t0].0 as int == c.0 as int && offs@[t0].1 as int == c.1 as int);
                            assert(false);
                        }
                    }
                    lemma_push_keeps_no_dup(preb, c);
                }
            }
            k += 1;
        }
        proof {
            old(self).lemma_same_board_wf(*self);
            if old(self).flags_synced() {
                lemma_count_sq_pointwise(self.grid@, g0, |s: Square| s.state == State::FLAGGED);
            }
            assert forall|cx: int, cy: int|
                adjacent(xi, yi, cx, cy) && in_bounds(dimi, cx, cy) && g0[#[trigger] idx(
                dimi,
                cx,
                cy,
            )].state == State::HIDDEN implies self.grid@[idx(dimi, cx, cy)].state == State::VISIBLE
                && (g0[idx(dimi, cx, cy)].danger == 0 ==> backlog@.contains(
                (cx as isize, cy as isize),
            )) by {
                let t: int = if cx == xi && cy == yi - 1 {
                    0
                } else if cx == xi + 1 && cy == yi - 1 {
                    1
                } else if cx == xi + 1 && cy == yi {
                    2
                } else if cx == xi + 1 && cy == yi + 1 {
                    3
                } else if cx == xi && cy == yi + 1 {
                    4
                } else if cx == xi - 1 && cy == yi + 1 {
                    5
                } else if cx == xi - 1 && cy == yi {
                    6
                } else {
                    7
                };
                assert(offs@[t].0 as int == cx && offs@[t].1 as int == cy);
                assert(offs@[t] == ((cx as isize), (cy as isize)));
                assert(in_bounds(dimi, offs@[t].0 as int, offs@[t].1 as int));
            }
        }
        backlog
    }

    /// A bounds-checked lookup of the square at (x, y).  Any coordinate
    /// that is negative or at least the grid's extent yields `None`, so
    /// callers may probe the neighbors of border squares freely.
    pub fn get_square_at(&self, x_pos: isize, y_pos: isize) -> (r: Option<Square>)
        ensures
            match r {
                Some(s) => {
                    &&& in_bounds(self.dim(), x_pos as int, y_pos as int)
                    &&& idx(self.dim(), x_pos as int, y_pos as int) < self.grid@.len()
                    &&& s == self.grid@[idx(self.dim(), x_pos as int, y_pos as int)]
                },
                None => !(in_bounds(self.dim(), x_pos as int, y_pos as int) && idx(
                    self.dim(),
                    x_pos as int,
                    y_pos as int,
                ) < self.grid@.len()),
            },
            self.wf() ==> (r is None <==> !in_bounds(self.dim(), x_pos as int, y_pos as int)),
    {
        proof {
            lemma_dim_bounds(self.difficulty);
        }
        let dim = self.difficulty.get_dimensions() as usize;
        if 0 <= x_pos && (x_pos as usize) < dim && 0 <= y_pos && (y_pos as usize) < dim {
            proof {
                lemma_idx_bounds(self.dim(), x_pos as int, y_pos as int);
            }
            let i = (y_pos as usize) * dim + (x_pos as usize);
            if i < self.grid.len() {
                Some(self.grid[i])
            } else {
                None
            }
        } else {
            None
        }
    }
}

} // verus!
