//! A toroidal grid of cells, stored row by row, with the generation rule,
//! random seeding and culling, pointer editing and the frame projection.

use vstd::prelude::*;
use vstd::arithmetic::div_mod::{lemma_fundamental_div_mod, lemma_fundamental_div_mod_converse};
use crate::cell::{Cell, fresh_cell, with_alive, cooled, color_of, exceeds_alive_threshold, COOLING_RATE, MAX_HEAT};
use crate::line::{line_point, line_points, line_len, coord_in_range, MAX_LINE_COORD};
use crate::random::{stream_draws, stream_prefix};

verus! {

/// Position of cell `(x, y)` in the row-major buffer of a grid `w` wide.
pub open spec fn index_of(x: int, y: int, w: int) -> int {
    x + y * w
}

/// 1 when the cell at `(x, y)`, coordinates taken modulo the grid's size, is
/// alive, else 0.
#[verifier::opaque]
pub open spec fn alive_at(cells: Seq<Cell>, w: int, h: int, x: int, y: int) -> int {
    if cells[index_of(x % w, y % h, w)].alive { 1 } else { 0 }
}

/// Number of alive cells among the eight around `(x, y)`, the edges of the
/// grid wrapping round to the opposite ones.
pub open spec fn live_neighbors(cells: Seq<Cell>, w: int, h: int, x: int, y: int) -> int {
    alive_at(cells, w, h, x - 1, y - 1) + alive_at(cells, w, h, x, y - 1)
        + alive_at(cells, w, h, x + 1, y - 1) + alive_at(cells, w, h, x - 1, y)
        + alive_at(cells, w, h, x + 1, y) + alive_at(cells, w, h, x - 1, y + 1)
        + alive_at(cells, w, h, x, y + 1) + alive_at(cells, w, h, x + 1, y + 1)
}

/// The next state of cell `c` given its number `n` of alive neighbours: it is
/// alive if it was alive with two or three of them, or dead with exactly
/// three; otherwise it is dead and cools.
pub open spec fn next_cell(c: Cell, n: int) -> Cell {
    if (c.alive && (n == 2 || n == 3)) || (!c.alive && n == 3) {
        with_alive(c, true)
    } else {
        cooled(with_alive(c, false), COOLING_RATE)
    }
}

/// The generation that follows `cells` on a grid of `w` by `h`.
pub open spec fn next_generation(cells: Seq<Cell>, w: int, h: int) -> Seq<Cell> {
    Seq::new(cells.len(), |i: int| next_cell(cells[i], live_neighbors(cells, w, h, i % w, i / w)))
}

/// The generation `n` steps after `cells`.
pub open spec fn after_generations(cells: Seq<Cell>, w: int, h: int, n: nat) -> Seq<Cell>
    decreases n,
{
    if n == 0 {
        cells
    } else {
        next_generation(after_generations(cells, w, h, (n - 1) as nat), w, h)
    }
}

/// Number of alive cells among the first `n` of `cells`.
pub open spec fn alive_rank(cells: Seq<Cell>, n: int) -> int
    decreases n,
{
    if n <= 0 {
        0
    } else {
        alive_rank(cells, n - 1) + if cells[n - 1].alive { 1int } else { 0int }
    }
}

/// Number of alive cells in `cells`.
pub open spec fn alive_count(cells: Seq<Cell>) -> int {
    alive_rank(cells, cells.len() as int)
}

/// The cells once culled with `draws`: the alive cells, taken in buffer
/// order, use one draw each, and one whose draw lies above the threshold is
/// set dead (keeping its heat). Dead cells use no draw and stay as they are.
pub open spec fn culled(cells: Seq<Cell>, draws: Seq<u32>) -> Seq<Cell> {
    Seq::new(
        cells.len(),
        |i: int|
            if cells[i].alive && exceeds_alive_threshold(draws[alive_rank(cells, i)]) {
                with_alive(cells[i], false)
            } else {
                cells[i]
            },
    )
}

/// The cells once culled with the stream started at `seed`.
pub open spec fn culled_by_seed(cells: Seq<Cell>, seed: (u64, u64)) -> Seq<Cell> {
    culled(cells, stream_prefix(seed, alive_count(cells) as nat))
}

/// Whether `after` can come out of a cull of `before`: every cell either
/// stays as it was or, being alive, is set dead (keeping its heat).
pub open spec fn kill_outcome(before: Seq<Cell>, after: Seq<Cell>) -> bool {
    &&& after.len() == before.len()
    &&& forall|i: int| 0 <= i < before.len() ==> #[trigger] after[i] == before[i]
        || (before[i].alive && after[i] == with_alive(before[i], false))
}

/// Number of cells among the first `n` that are alive in `before` and dead
/// in `after`.
pub open spec fn killed_count(before: Seq<Cell>, after: Seq<Cell>, n: int) -> int
    decreases n,
{
    if n <= 0 {
        0
    } else {
        killed_count(before, after, n - 1) + if before[n - 1].alive && !after[n - 1].alive { 1int } else { 0int }
    }
}

/// `cells` with the heat of every dead cell cleared.
pub open spec fn clear_dead_heat(cells: Seq<Cell>) -> Seq<Cell> {
    Seq::new(cells.len(), |i: int| if cells[i].alive { cells[i] } else { fresh_cell(false) })
}

/// `cells` settled: culled with the stream started at `seed`, advanced by
/// `n` generations, then the heat of the dead cells cleared.
pub open spec fn settled(cells: Seq<Cell>, w: int, h: int, n: nat, seed: (u64, u64)) -> Seq<Cell> {
    clear_dead_heat(after_generations(culled_by_seed(cells, seed), w, h, n))
}

/// Fresh cells, one per draw: alive where the draw lies above the threshold.
pub open spec fn seeded_cells(draws: Seq<u32>) -> Seq<Cell> {
    Seq::new(draws.len(), |i: int| fresh_cell(exceeds_alive_threshold(draws[i])))
}

/// Whether `p` names a cell of a grid `w` wide and `h` high.
pub open spec fn point_in_grid(p: (isize, isize), w: int, h: int) -> bool {
    0 <= p.0 < w && 0 <= p.1 < h
}

/// `v` brought into `[0, hi]`.
pub open spec fn clamp(v: isize, hi: int) -> isize {
    if v < 0 { 0 } else if v > hi { hi as isize } else { v }
}

/// Position, from `k` on, of the first point of the walk from `from` to `to`
/// that lies off the grid, or the walk's length when none does.
pub open spec fn first_off_grid(from: (isize, isize), to: (isize, isize), w: int, h: int, k: int) -> int
    decreases line_len(from, to) - k,
{
    if k < 0 || k >= line_len(from, to) || !point_in_grid(line_points(from, to)[k], w, h) {
        k
    } else {
        first_off_grid(from, to, w, h, k + 1)
    }
}

/// Whether one of the first `n` points of the walk from `from` to `to` lands
/// on buffer position `i`.
pub open spec fn line_covers(from: (isize, isize), to: (isize, isize), w: int, n: int, i: int) -> bool {
    exists|k: int| 0 <= k < n && #[trigger] index_of(line_points(from, to)[k].0 as int, line_points(from, to)[k].1 as int, w) == i
}

/// The cells once the first `n` points of the walk are written with `alive`.
pub open spec fn with_line_prefix(cells: Seq<Cell>, w: int, from: (isize, isize), to: (isize, isize), n: int, alive: bool) -> Seq<Cell> {
    Seq::new(cells.len(), |i: int| if line_covers(from, to, w, n, i) { with_alive(cells[i], alive) } else { cells[i] })
}

/// The cells once a line from `(x0, y0)` to `to` is drawn with `alive`: the
/// start is first brought into `[0, w] x [0, h]`, and the walk stops at its
/// first point off the grid.
pub open spec fn with_line(cells: Seq<Cell>, w: int, h: int, x0: isize, y0: isize, to: (isize, isize), alive: bool) -> Seq<Cell> {
    let from = (clamp(x0, w), clamp(y0, h));
    with_line_prefix(cells, w, from, to, first_off_grid(from, to, w, h, 0), alive)
}

/// The frame bytes for `cells`: four colour bytes per cell, in cell order.
pub open spec fn frame_of(cells: Seq<Cell>) -> Seq<u8> {
    Seq::new(4 * cells.len(), |k: int| color_of(cells[k / 4])[k % 4])
}

proof fn lemma_killed_count_prefix(before: Seq<Cell>, a: Seq<Cell>, b: Seq<Cell>, n: int)
    requires
        0 <= n <= a.len(),
        n <= b.len(),
        forall|j: int| 0 <= j < n ==> a[j] == b[j],
    ensures
        killed_count(before, a, n) == killed_count(before, b, n),
    decreases n,
{
    if n > 0 {
        lemma_killed_count_prefix(before, a, b, n - 1);
    }
}

proof fn lemma_killed_count_bound(before: Seq<Cell>, after: Seq<Cell>, n: int)
    requires
        0 <= n,
    ensures
        0 <= killed_count(before, after, n) <= n,
    decreases n,
{
    if n > 0 {
        lemma_killed_count_bound(before, after, n - 1);
    }
}

proof fn lemma_alive_rank_bound(c: Seq<Cell>, n: int)
    requires
        0 <= n,
    ensures
        0 <= alive_rank(c, n) <= n,
    decreases n,
{
    if n > 0 {
        lemma_alive_rank_bound(c, n - 1);
    }
}

proof fn lemma_alive_rank_mono(c: Seq<Cell>, i: int, j: int)
    requires
        0 <= i <= j,
    ensures
        alive_rank(c, i) <= alive_rank(c, j),
    decreases j - i,
{
    if i < j {
        lemma_alive_rank_mono(c, i, j - 1);
    }
}

proof fn lemma_index_bound(x: int, y: int, w: int, h: int)
    requires
        0 <= x < w,
        0 <= y < h,
    ensures
        0 <= x + y * w < w * h,
{
    assert(0 <= x + y * w < w * h) by (nonlinear_arith)
        requires
            0 <= x < w,
            0 <= y < h,
    ;
}

proof fn lemma_wrap(x: int, n: int)
    requires
        0 <= x < n,
    ensures
        x % n == x,
        (x - 1) % n == (if x == 0 { n - 1 } else { x - 1 }),
        (x + 1) % n == (if x + 1 == n { 0 } else { x + 1 }),
{
    lemma_fundamental_div_mod_converse(x, n, 0, x);
    if x == 0 {
        lemma_fundamental_div_mod_converse(x - 1, n, -1, n - 1);
    } else {
        lemma_fundamental_div_mod_converse(x - 1, n, 0, x - 1);
    }
    if x + 1 == n {
        lemma_fundamental_div_mod_converse(x + 1, n, 1, 0);
    } else {
        lemma_fundamental_div_mod_converse(x + 1, n, 0, x + 1);
    }
}

proof fn lemma_alive_at_congruent(c: Seq<Cell>, w: int, h: int, x: int, y: int, x2: int, y2: int)
    requires
        x % w == x2 % w,
        y % h == y2 % h,
    ensures
        alive_at(c, w, h, x, y) == alive_at(c, w, h, x2, y2),
{
    reveal(alive_at);
}

proof fn lemma_row_col_bound(i: int, w: int, h: int)
    requires
        0 <= i < w * h,
        w > 0,
    ensures
        0 <= i % w < w,
        0 <= i / w < h,
{
    lemma_fundamental_div_mod(i, w);
    let (q, r) = (i / w, i % w);
    assert(0 <= q < h) by (nonlinear_arith)
        requires
            i == w * q + r,
            0 <= r < w,
            0 <= i < w * h,
    ;
}

/// The rule applied to cell `c` with `n` alive neighbours.
fn apply_rule(c: Cell, n: usize) -> (r: Cell)
    ensures
        r == next_cell(c, n as int),
{
    let mut r = c;
    if (c.alive && (n == 2 || n == 3)) || (!c.alive && n == 3) {
        r.set(true);
    } else {
        r.set(false);
        r.cool_if_dead(COOLING_RATE);
    }
    r
}

/// A `width` by `height` field of cells on a torus, held row by row.
pub struct Grid {
    cells: Vec<Cell>,
    width: usize,
    height: usize,
}

impl Grid {
    /// The cells, row by row.
    pub closed spec fn cells_view(&self) -> Seq<Cell> {
        self.cells@
    }

    /// Number of columns.
    pub closed spec fn width_view(&self) -> int {
        self.width as int
    }

    /// Number of rows.
    pub closed spec fn height_view(&self) -> int {
        self.height as int
    }

    /// Both sizes are positive and the buffer holds one cell per position.
    pub open spec fn wf(&self) -> bool {
        &&& self.width_view() > 0
        &&& self.height_view() > 0
        &&& self.width_view() * self.height_view() <= usize::MAX
        &&& self.cells_view().len() == self.width_view() * self.height_view()
    }

    /// A grid of `width` by `height` dead, cold cells.
    pub fn new_empty_grid(width: usize, height: usize) -> (r: Grid)
        requires
            width > 0,
            height > 0,
            width * height <= usize::MAX,
        ensures
            r.wf(),
            r.width_view() == width,
            r.height_view() == height,
            r.cells_view() == Seq::new((width * height) as nat, |i: int| fresh_cell(false)),
    {
        let size: usize = width * height;
        let mut cells: Vec<Cell> = Vec::with_capacity(size);
        while cells.len() < size
            invariant
                cells.len() <= size,
                forall|i: int| 0 <= i < cells.len() ==> cells@[i] == fresh_cell(false),
            decreases size - cells.len(),
        {
            cells.push(Cell::new(false));
        }
        let r = Grid { cells, width, height };
        assert(r.cells_view() =~= Seq::new((width * height) as nat, |i: int| fresh_cell(false)));
        r
    }

    /// Advances the grid by one generation. Every cell's next state is read
    /// from a snapshot of the current generation, and the new buffer replaces
    /// the old one only once it is complete.
    pub fn update(&mut self)
        requires
            old(self).wf(),
        ensures
            final(self).wf(),
            final(self).width_view() == old(self).width_view(),
            final(self).height_view() == old(self).height_view(),
            final(self).cells_view() == next_generation(
                old(self).cells_view(),
                old(self).width_view(),
                old(self).height_view(),
            ),
    {
        let size: usize = self.cells.len();
        let mut next: Vec<Cell> = self.cells.clone();
        assert(next@ =~= self.cells@);
        let ghost (c, w, h) = (self.cells_view(), self.width_view(), self.height_view());
        let mut i: usize = 0;
        while i < size
            invariant
                self.wf(),
                self.cells_view() == c,
                self.width_view() == w,
                self.height_view() == h,
                size == c.len(),
                next@.len() == size,
                i <= size,
                forall|j: int| 0 <= j < i ==> next@[j] == next_cell(c[j], live_neighbors(c, w, h, j % w, j / w)),
                forall|j: int| i <= j < size ==> next@[j] == c[j],
            decreases size - i,
        {
            proof {
                lemma_row_col_bound(i as int, w, h);
            }
            let x: usize = i % self.width;
            let y: usize = i / self.width;
            let n: usize = self.count_neighbors(x, y);
            let cell: Cell = apply_rule(self.cells[i], n);
            next.set(i, cell);
            i += 1;
        }
        assert(next@ =~= next_generation(c, w, h));
        std::mem::swap(&mut next, &mut self.cells);
    }

    /// Flips the cell at `(x, y)` and returns its new alive flag; a point off
    /// the grid changes nothing and gives `false`.
    pub fn toggle(&mut self, x: isize, y: isize) -> (r: bool)
        requires
            old(self).wf(),
        ensures
            final(self).wf(),
            final(self).width_view() == old(self).width_view(),
            final(self).height_view() == old(self).height_view(),
            ({
                let c = old(self).cells_view();
                let i = index_of(x as int, y as int, old(self).width_view());
                if point_in_grid((x, y), old(self).width_view(), old(self).height_view()) {
                    &&& r == !c[i].alive
                    &&& final(self).cells_view() == c.update(i, with_alive(c[i], !c[i].alive))
                } else {
                    &&& r == false
                    &&& final(self).cells_view() == c
                }
            }),
    {
        match self.grid_idx(x, y) {
            Some(i) => {
                let mut cell: Cell = self.cells[i];
                let alive: bool = !cell.alive;
                cell.set(alive);
                self.cells.set(i, cell);
                alive
            },
            None => false,
        }
    }

    /// Draws a line from `(x0, y0)` to `(x1, y1)`, writing `alive` into each
    /// cell it crosses. The start is first brought into `[0, width] x [0,
    /// height]`; the line stops at its first point off the grid.
    pub fn set_line(&mut self, x0: isize, y0: isize, x1: isize, y1: isize, alive: bool)
        requires
            old(self).wf(),
            old(self).width_view() <= MAX_LINE_COORD,
            old(self).height_view() <= MAX_LINE_COORD,
            coord_in_range((x1, y1)),
        ensures
            final(self).wf(),
            final(self).width_view() == old(self).width_view(),
            final(self).height_view() == old(self).height_view(),
            final(self).cells_view() == with_line(
                old(self).cells_view(),
                old(self).width_view(),
                old(self).height_view(),
                x0,
                y0,
                (x1, y1),
                alive,
            ),
            x0 >= old(self).width_view() || y0 >= old(self).height_view() ==> final(self).cells_view() == old(
                self,
            ).cells_view(),
            x0 == x1 && y0 == y1 && point_in_grid((x0, y0), old(self).width_view(), old(self).height_view())
                ==> final(self).cells_view() == old(self).cells_view().update(
                index_of(x0 as int, y0 as int, old(self).width_view()),
                with_alive(old(self).cells_view()[index_of(x0 as int, y0 as int, old(self).width_view())], alive),
            ),
    {
        let ghost (c, w, h) = (self.cells_view(), self.width_view(), self.height_view());
        let sx: isize = if x0 < 0 { 0 } else if x0 > self.width as isize { self.width as isize } else { x0 };
        let sy: isize = if y0 < 0 { 0 } else if y0 > self.height as isize { self.height as isize } else { y0 };
        let from = (sx, sy);
        let to = (x1, y1);
        assert(self.cells_view() =~= with_line_prefix(c, w, from, to, 0, alive));
        let mut k: usize = 0;
        loop
            invariant
                self.wf(),
                self.width_view() == w,
                self.height_view() == h,
                coord_in_range(from),
                coord_in_range(to),
                0 <= k <= line_len(from, to),
                first_off_grid(from, to, w, h, k as int) == first_off_grid(from, to, w, h, 0),
                self.cells_view() == with_line_prefix(c, w, from, to, k as int, alive),
                k >= 1 ==> line_points(from, to)[0] == from,
                !point_in_grid(from, w, h) ==> k == 0,
            ensures
                first_off_grid(from, to, w, h, 0) == k,
                k >= 1 ==> line_points(from, to)[0] == from,
                !point_in_grid(from, w, h) ==> k == 0,
                point_in_grid(from, w, h) ==> k >= 1,
                k <= line_len(from, to),
            decreases line_len(from, to) - k,
        {
            let p = match line_point(from, to, k) {
                Some(p) => p,
                None => {
                    assert(first_off_grid(from, to, w, h, k as int) == k);
                    break;
                },
            };
            let i: usize = match self.grid_idx(p.0, p.1) {
                Some(i) => i,
                None => {
                    assert(first_off_grid(from, to, w, h, k as int) == k);
                    break;
                },
            };
            let mut cell: Cell = self.cells[i];
            cell.set(alive);
            self.cells.set(i, cell);
            proof {
                let next = with_line_prefix(c, w, from, to, k + 1, alive);
                assert forall|j: int| 0 <= j < c.len() implies self.cells_view()[j] == next[j] by {
                    if j == i {
                        assert(line_covers(from, to, w, k + 1, j)) by {
                            assert(index_of(line_points(from, to)[k as int].0 as int, line_points(from, to)[k as int].1 as int, w) == j);
                        }
                    } else {
                        if line_covers(from, to, w, k + 1, j) {
                            let kk = choose|kk: int| 0 <= kk < k + 1 && #[trigger] index_of(line_points(from, to)[kk].0 as int, line_points(from, to)[kk].1 as int, w) == j;
                            assert(line_covers(from, to, w, k as int, j));
                        }
                        if line_covers(from, to, w, k as int, j) {
                            let kk = choose|kk: int| 0 <= kk < k && #[trigger] index_of(line_points(from, to)[kk].0 as int, line_points(from, to)[kk].1 as int, w) == j;
                            assert(line_covers(from, to, w, k + 1, j));
                        }
                    }
                }
                assert(self.cells_view() =~= next);
            }
            k += 1;
        }
        proof {
        if x0 >= w || y0 >= h {
            assert(self.cells_view() =~= c);
        }
        if x0 == x1 && y0 == y1 && point_in_grid((x0, y0), w, h) {
            let i0 = index_of(x0 as int, y0 as int, w);
            assert(from == (x0, y0));
            assert(k == 1);
            lemma_index_bound(x0 as int, y0 as int, w, h);
            assert forall|j: int| 0 <= j < c.len() implies line_covers(from, to, w, k as int, j) == (j == i0) by {
                if line_covers(from, to, w, k as int, j) {
                    let kk = choose|kk: int| 0 <= kk < k && #[trigger] index_of(line_points(from, to)[kk].0 as int, line_points(from, to)[kk].1 as int, w) == j;
                    assert(kk == 0);
                }
                if j == i0 {
                    assert(index_of(line_points(from, to)[0].0 as int, line_points(from, to)[0].1 as int, w) == j);
                }
            }
            assert(self.cells_view() =~= c.update(i0, with_alive(c[i0], alive)));
        }
        }
    }

    /// Writes the frame for the current cells into `screen`: four colour
    /// bytes per cell, in cell order.
    pub fn draw(&self, screen: &mut [u8])
        requires
            self.wf(),
            old(screen)@.len() == 4 * self.cells_view().len(),
        ensures
            final(screen)@ == frame_of(self.cells_view()),
    {
        let n: usize = self.cells.len();
        let screen_len: usize = screen.len();
        let ghost c = self.cells_view();
        let mut i: usize = 0;
        while i < n
            invariant
                n == c.len(),
                c == self.cells_view(),
                screen@.len() == 4 * n,
                screen_len == 4 * n,
                i <= n,
                forall|k: int| 0 <= k < 4 * i ==> screen@[k] == #[trigger] frame_of(c)[k],
            decreases n - i,
        {
            let color: [u8; 4] = self.cells[i].color();
            let mut j: usize = 0;
            while j < 4
                invariant
                    n == c.len(),
                    c == self.cells_view(),
                    screen@.len() == 4 * n,
                    screen_len == 4 * n,
                    i < n,
                    j <= 4,
                    color@ == color_of(c[i as int]),
                    forall|k: int| 0 <= k < 4 * i + j ==> screen@[k] == #[trigger] frame_of(c)[k],
                decreases 4 - j,
            {
                proof {
                    lemma_fundamental_div_mod_converse(4 * i + j, 4, i as int, j as int);
                }
                screen[4 * i + j] = color[j];
                j += 1;
            }
            i += 1;
        }
        assert(screen@ =~= frame_of(c));
    }

    /// Number of alive cells.
    pub fn count_alive(&self) -> (r: usize)
        requires
            self.wf(),
        ensures
            r == alive_count(self.cells_view()),
    {
        let ghost c = self.cells_view();
        let n: usize = self.cells.len();
        let mut count: usize = 0;
        let mut i: usize = 0;
        while i < n
            invariant
                n == c.len(),
                c == self.cells_view(),
                i <= n,
                count == alive_rank(c, i as int),
            decreases n - i,
        {
            proof {
                lemma_alive_rank_bound(c, i as int);
            }
            if self.cells[i].alive {
                count += 1;
            }
            i += 1;
        }
        count
    }

    /// Culls the grid with the given draws: the alive cells, in buffer order,
    /// take one draw each, and each whose draw lies above the threshold dies
    /// (keeping its heat). Returns how many cells died.
    pub fn cull_with_draws(&mut self, draws: &Vec<u32>) -> (r: usize)
        requires
            old(self).wf(),
            draws@.len() >= alive_count(old(self).cells_view()),
        ensures
            final(self).wf(),
            final(self).width_view() == old(self).width_view(),
            final(self).height_view() == old(self).height_view(),
            final(self).cells_view() == culled(old(self).cells_view(), draws@),
            r == killed_count(old(self).cells_view(), final(self).cells_view(), old(self).cells_view().len() as int),
    {
        let ghost (c, w, h) = (self.cells_view(), self.width_view(), self.height_view());
        let ghost target = culled(c, draws@);
        let n: usize = self.cells.len();
        let mut count: usize = 0;
        let mut taken: usize = 0;
        let mut i: usize = 0;
        while i < n
            invariant
                self.wf(),
                self.width_view() == w,
                self.height_view() == h,
                n == c.len(),
                n == self.cells_view().len(),
                target == culled(c, draws@),
                draws@.len() >= alive_count(c),
                i <= n,
                taken == alive_rank(c, i as int),
                forall|j: int| 0 <= j < i ==> self.cells_view()[j] == target[j],
                forall|j: int| i <= j < n ==> self.cells_view()[j] == c[j],
                count == killed_count(c, self.cells_view(), i as int),
                count <= i,
            decreases n - i,
        {
            let ghost before = self.cells_view();
            proof {
                lemma_alive_rank_bound(c, i as int);
            }
            let mut cell: Cell = self.cells[i];
            if cell.alive {
                proof {
                    lemma_alive_rank_mono(c, i as int + 1, n as int);
                }
                let u: u32 = draws[taken];
                taken += 1;
                if crate::cell::draw_exceeds_threshold(u) {
                    cell.set(false);
                    self.cells.set(i, cell);
                    count += 1;
                }
            }
            proof {
                lemma_killed_count_prefix(c, before, self.cells_view(), i as int);
            }
            i += 1;
        }
        assert(self.cells_view() =~= target);
        count
    }

    /// Culls the grid with the stream started at `seed`; see
    /// `cull_with_draws`.
    fn cull_from_seed(&mut self, seed: (u64, u64)) -> (r: usize)
        requires
            old(self).wf(),
        ensures
            final(self).wf(),
            final(self).width_view() == old(self).width_view(),
            final(self).height_view() == old(self).height_view(),
            final(self).cells_view() == culled_by_seed(old(self).cells_view(), seed),
            r == killed_count(old(self).cells_view(), final(self).cells_view(), old(self).cells_view().len() as int),
    {
        let alive: usize = self.count_alive();
        let draws: Vec<u32> = stream_draws(seed, alive);
        self.cull_with_draws(&draws)
    }

    /// Kills each alive cell with the same odds as seeding gives a dead one,
    /// drawing from a stream started at `seed`. Returns how many cells died;
    /// no dead cell comes alive.
    pub fn randomly_kill(&mut self, seed: (u64, u64)) -> (r: u32)
        requires
            old(self).wf(),
            old(self).cells_view().len() <= u32::MAX,
        ensures
            final(self).wf(),
            final(self).width_view() == old(self).width_view(),
            final(self).height_view() == old(self).height_view(),
            final(self).cells_view() == culled_by_seed(old(self).cells_view(), seed),
            kill_outcome(old(self).cells_view(), final(self).cells_view()),
            r == killed_count(old(self).cells_view(), final(self).cells_view(), old(self).cells_view().len() as int),
    {
        let ghost c = self.cells_view();
        let count: usize = self.cull_from_seed(seed);
        proof {
            lemma_killed_count_bound(c, self.cells_view(), c.len() as int);
            lemma_cull_kills_only_alive(c, stream_prefix(seed, alive_count(c) as nat));
        }
        count as u32
    }

    /// Settles a freshly seeded grid: one cull drawing from a stream started
    /// at `seed`, `generations` updates, then the heat of every dead cell
    /// cleared so no trail of the seeding is left.
    pub fn normalize(&mut self, generations: usize, seed: (u64, u64))
        requires
            old(self).wf(),
        ensures
            final(self).wf(),
            final(self).width_view() == old(self).width_view(),
            final(self).height_view() == old(self).height_view(),
            final(self).cells_view() == settled(
                old(self).cells_view(),
                old(self).width_view(),
                old(self).height_view(),
                generations as nat,
                seed,
            ),
    {
        let ghost (c, w, h) = (self.cells_view(), self.width_view(), self.height_view());
        self.cull_from_seed(seed);
        let ghost k = self.cells_view();
        let mut g: usize = 0;
        while g < generations
            invariant
                self.wf(),
                self.width_view() == w,
                self.height_view() == h,
                g <= generations,
                self.cells_view() == after_generations(k, w, h, g as nat),
            decreases generations - g,
        {
            self.update();
            g += 1;
        }
        let ghost before_clear = self.cells_view();
        let n: usize = self.cells.len();
        let mut i: usize = 0;
        while i < n
            invariant
                self.wf(),
                self.width_view() == w,
                self.height_view() == h,
                n == before_clear.len(),
                n == self.cells_view().len(),
                i <= n,
                forall|j: int| 0 <= j < i ==> self.cells_view()[j] == clear_dead_heat(before_clear)[j],
                forall|j: int| i <= j < n ==> self.cells_view()[j] == before_clear[j],
            decreases n - i,
        {
            let mut cell: Cell = self.cells[i];
            if !cell.alive {
                cell.heat = 0;
                self.cells.set(i, cell);
            }
            i += 1;
        }
        assert(self.cells_view() =~= clear_dead_heat(after_generations(k, w, h, generations as nat)));
    }

    /// Replaces every cell by the fresh cell its draw stands for: cell `i`
    /// takes draw `i`, and is alive when that draw lies above the threshold.
    pub fn fill_with_draws(&mut self, draws: &Vec<u32>)
        requires
            old(self).wf(),
            draws@.len() == old(self).cells_view().len(),
        ensures
            final(self).wf(),
            final(self).width_view() == old(self).width_view(),
            final(self).height_view() == old(self).height_view(),
            final(self).cells_view() == seeded_cells(draws@),
    {
        let ghost (w, h) = (self.width_view(), self.height_view());
        let n: usize = self.cells.len();
        let mut i: usize = 0;
        while i < n
            invariant
                self.wf(),
                self.width_view() == w,
                self.height_view() == h,
                n == self.cells_view().len(),
                n == draws@.len(),
                i <= n,
                forall|j: int| 0 <= j < i ==> self.cells_view()[j] == seeded_cells(draws@)[j],
            decreases n - i,
        {
            let cell: Cell = Cell::from_draw(draws[i]);
            self.cells.set(i, cell);
            i += 1;
        }
        assert(self.cells_view() =~= seeded_cells(draws@));
    }

    /// Reseeds every cell from the stream started at `seed` (cell `i` takes
    /// draw `i`), then settles the grid over five generations, culling with
    /// the stream started at `kill_seed`.
    pub fn randomize(&mut self, seed: (u64, u64), kill_seed: (u64, u64))
        requires
            old(self).wf(),
        ensures
            final(self).wf(),
            final(self).width_view() == old(self).width_view(),
            final(self).height_view() == old(self).height_view(),
            final(self).cells_view() == settled(
                seeded_cells(stream_prefix(seed, old(self).cells_view().len())),
                old(self).width_view(),
                old(self).height_view(),
                5,
                kill_seed,
            ),
    {
        let n: usize = self.cells.len();
        let draws: Vec<u32> = stream_draws(seed, n);
        self.fill_with_draws(&draws);
        self.normalize(5, kill_seed);
    }

    /// Number of columns.
    pub fn width(&self) -> (r: usize)
        ensures
            r == self.width_view(),
    {
        self.width
    }

    /// Number of rows.
    pub fn height(&self) -> (r: usize)
        ensures
            r == self.height_view(),
    {
        self.height
    }

    /// The cells, row by row: cell `(x, y)` stands at `x + y * width`.
    pub fn cells(&self) -> (r: &Vec<Cell>)
        ensures
            r@ == self.cells_view(),
    {
        &self.cells
    }

    /// Buffer position of `(x, y)`, or `None` when the point lies off the grid.
    pub fn grid_idx(&self, x: isize, y: isize) -> (r: Option<usize>)
        requires
            self.wf(),
        ensures
            r == (if 0 <= x < self.width_view() && 0 <= y < self.height_view() {
                Some(index_of(x as int, y as int, self.width_view()) as usize)
            } else {
                None
            }),
            r matches Some(i) ==> i < self.cells_view().len() && i == index_of(x as int, y as int, self.width_view()),
    {
        if x < 0 || y < 0 {
            return None;
        }
        let ux: usize = x as usize;
        let uy: usize = y as usize;
        if ux < self.width && uy < self.height {
            proof {
                lemma_index_bound(ux as int, uy as int, self.width as int, self.height as int);
            }
            Some(ux + uy * self.width)
        } else {
            None
        }
    }

    /// 1 when the cell at `(x, y)` is alive, else 0.
    fn alive_value(&self, x: usize, y: usize) -> (r: usize)
        requires
            self.wf(),
            x < self.width_view(),
            y < self.height_view(),
        ensures
            r == alive_at(self.cells_view(), self.width_view(), self.height_view(), x as int, y as int),
            r <= 1,
    {
        proof {
            lemma_index_bound(x as int, y as int, self.width as int, self.height as int);
            lemma_wrap(x as int, self.width as int);
            lemma_wrap(y as int, self.height as int);
            reveal(alive_at);
        }
        if self.cells[x + y * self.width].alive {
            1
        } else {
            0
        }
    }

    /// Number of alive cells among the eight around `(x, y)`, wrapping round
    /// the edges.
    pub fn count_neighbors(&self, x: usize, y: usize) -> (r: usize)
        requires
            self.wf(),
            x < self.width_view(),
            y < self.height_view(),
        ensures
            r == live_neighbors(self.cells_view(), self.width_view(), self.height_view(), x as int, y as int),
    {
        let w = self.width;
        let h = self.height;
        let xm1: usize = if x == 0 { w - 1 } else { x - 1 };
        let xp1: usize = if x + 1 == w { 0 } else { x + 1 };
        let ym1: usize = if y == 0 { h - 1 } else { y - 1 };
        let yp1: usize = if y + 1 == h { 0 } else { y + 1 };
        proof {
            lemma_wrap(x as int, w as int);
            lemma_wrap(y as int, h as int);
            lemma_wrap(xm1 as int, w as int);
            lemma_wrap(xp1 as int, w as int);
            lemma_wrap(ym1 as int, h as int);
            lemma_wrap(yp1 as int, h as int);
            let (c, wi, hi) = (self.cells_view(), w as int, h as int);
            lemma_alive_at_congruent(c, wi, hi, x - 1, y - 1, xm1 as int, ym1 as int);
            lemma_alive_at_congruent(c, wi, hi, x as int, y - 1, x as int, ym1 as int);
            lemma_alive_at_congruent(c, wi, hi, x + 1, y - 1, xp1 as int, ym1 as int);
            lemma_alive_at_congruent(c, wi, hi, x - 1, y as int, xm1 as int, y as int);
            lemma_alive_at_congruent(c, wi, hi, x + 1, y as int, xp1 as int, y as int);
            lemma_alive_at_congruent(c, wi, hi, x - 1, y + 1, xm1 as int, yp1 as int);
            lemma_alive_at_congruent(c, wi, hi, x as int, y + 1, x as int, yp1 as int);
            lemma_alive_at_congruent(c, wi, hi, x + 1, y + 1, xp1 as int, yp1 as int);
        }
        self.alive_value(xm1, ym1) + self.alive_value(x, ym1) + self.alive_value(xp1, ym1)
            + self.alive_value(xm1, y) + self.alive_value(xp1, y)
            + self.alive_value(xm1, yp1) + self.alive_value(x, yp1) + self.alive_value(xp1, yp1)
    }
}

proof fn lemma_alive_at_dead(cells: Seq<Cell>, w: int, h: int, x: int, y: int)
    requires
        w > 0,
        h > 0,
        cells.len() == w * h,
        forall|i: int| 0 <= i < cells.len() ==> !(#[trigger] cells[i]).alive,
    ensures
        alive_at(cells, w, h, x, y) == 0,
{
    reveal(alive_at);
    lemma_index_bound(x % w, y % h, w, h);
}

/// A grid with no alive cell still has none after any number of
/// generations: nothing is born out of nothing.
pub proof fn lemma_dead_grid_stays_dead(cells: Seq<Cell>, w: int, h: int, n: nat)
    requires
        w > 0,
        h > 0,
        cells.len() == w * h,
        forall|i: int| 0 <= i < cells.len() ==> !(#[trigger] cells[i]).alive,
    ensures
        after_generations(cells, w, h, n).len() == cells.len(),
        forall|i: int| 0 <= i < cells.len() ==> !(#[trigger] after_generations(cells, w, h, n)[i]).alive,
    decreases n,
{
    if n > 0 {
        lemma_dead_grid_stays_dead(cells, w, h, (n - 1) as nat);
        let prev = after_generations(cells, w, h, (n - 1) as nat);
        assert forall|i: int| 0 <= i < cells.len() implies !(#[trigger] next_generation(prev, w, h)[i]).alive by {
            let (x, y) = (i % w, i / w);
            lemma_alive_at_dead(prev, w, h, x - 1, y - 1);
            lemma_alive_at_dead(prev, w, h, x, y - 1);
            lemma_alive_at_dead(prev, w, h, x + 1, y - 1);
            lemma_alive_at_dead(prev, w, h, x - 1, y);
            lemma_alive_at_dead(prev, w, h, x + 1, y);
            lemma_alive_at_dead(prev, w, h, x - 1, y + 1);
            lemma_alive_at_dead(prev, w, h, x, y + 1);
            lemma_alive_at_dead(prev, w, h, x + 1, y + 1);
        }
    }
}

/// In one generation an alive cell with fewer than two alive neighbours
/// dies, an alive cell with two or three survives at full heat, a dead cell
/// with exactly three comes alive, and any other cell ends up dead.
pub proof fn lemma_life_rule(cells: Seq<Cell>, w: int, h: int, i: int)
    requires
        0 <= i < cells.len(),
    ensures
        ({
            let n = live_neighbors(cells, w, h, i % w, i / w);
            let next = next_generation(cells, w, h)[i];
            &&& cells[i].alive && n < 2 ==> !next.alive
            &&& cells[i].alive && (n == 2 || n == 3) ==> next.alive && next.heat == MAX_HEAT
            &&& !cells[i].alive && n == 3 ==> next.alive && next.heat == MAX_HEAT
            &&& !(cells[i].alive && (n == 2 || n == 3)) && !(!cells[i].alive && n == 3) ==> !next.alive
        }),
{
}

/// The frame of a grid whose cells are all dead and cold is one colour quad
/// repeated once per cell.
pub proof fn lemma_cold_frame_uniform(cells: Seq<Cell>)
    requires
        forall|i: int| 0 <= i < cells.len() ==> #[trigger] cells[i] == fresh_cell(false),
    ensures
        frame_of(cells).len() == 4 * cells.len(),
        forall|k: int| 0 <= k < 4 * cells.len() ==> #[trigger] frame_of(cells)[k] == color_of(fresh_cell(false))[k % 4],
{
    assert forall|k: int| 0 <= k < 4 * cells.len() implies #[trigger] frame_of(cells)[k] == color_of(fresh_cell(false))[k % 4] by {
        assert(0 <= k / 4 < cells.len());
    }
}

/// A cull never brings a dead cell alive and never changes a heat: each
/// cell stays as it was or, being alive, is set dead.
pub proof fn lemma_cull_kills_only_alive(cells: Seq<Cell>, draws: Seq<u32>)
    ensures
        kill_outcome(cells, culled(cells, draws)),
{
}

/// Positions among the first `n` whose cell is alive in `before` and dead in
/// `after`.
pub open spec fn killed_positions(before: Seq<Cell>, after: Seq<Cell>, n: int) -> Set<int> {
    Set::new(|i: int| 0 <= i < n && before[i].alive && !after[i].alive)
}

/// The number of kills that a cull reports is the number of positions whose
/// cell went from alive to dead.
pub proof fn lemma_killed_count_is_transitions(before: Seq<Cell>, after: Seq<Cell>, n: int)
    requires
        0 <= n,
    ensures
        killed_positions(before, after, n).finite(),
        killed_positions(before, after, n).len() == killed_count(before, after, n),
    decreases n,
{
    if n == 0 {
        assert(killed_positions(before, after, 0) =~= Set::empty());
    } else {
        lemma_killed_count_is_transitions(before, after, n - 1);
        let prev = killed_positions(before, after, n - 1);
        if before[n - 1].alive && !after[n - 1].alive {
            assert(killed_positions(before, after, n) =~= prev.insert(n - 1));
        } else {
            assert(killed_positions(before, after, n) =~= prev);
        }
    }
}

} // verus!
