//! Grid representation, step rule, and text-map parsing.

use vstd::prelude::*;
use vstd::arithmetic::div_mod::{
    lemma_fundamental_div_mod, lemma_fundamental_div_mod_converse_div,
    lemma_fundamental_div_mod_converse_mod,
};

verus! {

/// The state of a single grid position.
#[derive(Copy, Clone, PartialEq, Eq, Structural, Debug)]
pub enum CellState {
    Dead,
    Alive,
}

/// A fixed-size rectangular grid of cells, stored row-major in a flat buffer.
///
/// The coordinate `(x, y)` with `0 <= x < width` and `0 <= y < height` lives
/// at flat index `y * width + x`.
pub struct Grid {
    pub states: Vec<CellState>,
    pub width: usize,
    pub height: usize,
}

impl Grid {
    /// The grid's basic shape invariant: positive dimensions, and a buffer
    /// holding exactly one cell per coordinate.
    pub open spec fn wf(&self) -> bool {
        &&& 1 <= self.width
        &&& 1 <= self.height
        &&& self.states@.len() == self.width * self.height
    }

    pub fn get_cell(&self, x: usize, y: usize) -> (r: &CellState)
        requires
            self.wf(),
            x < self.width,
            y < self.height,
        ensures
            *r == self.states@[y as int * self.width as int + x as int],
    {
        let n = self.states.len();
        proof {
            lemma_flat_index_bounds(self.width as int, self.height as int, x as int, y as int);
        }
        assert((y as int * self.width as int + x as int) < n as int);
        &self.states[(y * self.width) + x]
    }

    pub fn get_cell_mut(&mut self, x: usize, y: usize) -> (r: &mut CellState)
        requires
            old(self).wf(),
            x < old(self).width,
            y < old(self).height,
        ensures
            *r == old(self).states@[y as int * old(self).width as int + x as int],
            final(self).width == old(self).width,
            final(self).height == old(self).height,
            final(self).states@ == old(self).states@.update(
                y as int * old(self).width as int + x as int,
                *final(r),
            ),
            final(self).wf(),
    {
        let n = self.states.len();
        proof {
            lemma_flat_index_bounds(self.width as int, self.height as int, x as int, y as int);
        }
        assert((y as int * old(self).width as int + x as int) < n as int);
        &mut self.states[(y * self.width) + x]
    }

    pub fn get_width(&self) -> (r: usize)
        ensures
            r == self.width,
    {
        self.width
    }

    pub fn get_height(&self) -> (r: usize)
        ensures
            r == self.height,
    {
        self.height
    }
}

/// 1 if the cell at `(x, y)` of a grid with stride `w` is alive, else 0.
pub open spec fn alive_at(s: Seq<CellState>, w: int, x: int, y: int) -> int {
    if s[y * w + x] == CellState::Alive {
        1
    } else {
        0
    }
}

/// Number of alive cells among the 8 immediate neighbors of `(x, y)`.
pub open spec fn live_neighbors(s: Seq<CellState>, w: int, x: int, y: int) -> int {
    alive_at(s, w, x - 1, y - 1) + alive_at(s, w, x, y - 1) + alive_at(s, w, x + 1, y - 1)
        + alive_at(s, w, x - 1, y) + alive_at(s, w, x + 1, y) + alive_at(s, w, x - 1, y + 1)
        + alive_at(s, w, x, y + 1) + alive_at(s, w, x + 1, y + 1)
}

/// The rule applied to one interior cell: an alive cell survives with 2 or 3
/// alive neighbors, a dead cell comes alive with exactly 3, everything else
/// is dead in the next generation.
pub open spec fn next_cell(s: Seq<CellState>, w: int, x: int, y: int) -> CellState {
    let n = live_neighbors(s, w, x, y);
    if s[y * w + x] == CellState::Alive {
        if n == 2 || n == 3 {
            CellState::Alive
        } else {
            CellState::Dead
        }
    } else {
        if n == 3 {
            CellState::Alive
        } else {
            CellState::Dead
        }
    }
}

/// Whether flat index `i` denotes an interior cell, i.e. one not on the
/// outermost ring, of a `w` by `h` grid.
pub open spec fn interior_flat(w: int, h: int, i: int) -> bool {
    &&& 1 <= i % w < w - 1
    &&& 1 <= i / w < h - 1
}

/// One whole generation: every interior cell is rewritten by the rule, every
/// border cell is carried over unchanged.
pub open spec fn step_spec(s: Seq<CellState>, w: int, h: int) -> Seq<CellState> {
    Seq::new(
        s.len(),
        |i: int|
            if interior_flat(w, h, i) {
                next_cell(s, w, i % w, i / w)
            } else {
                s[i]
            },
    )
}

/// `count` generations, applied one after the other.
pub open spec fn run_spec(s: Seq<CellState>, w: int, h: int, count: nat) -> Seq<CellState>
    decreases count,
{
    if count == 0 {
        s
    } else {
        step_spec(run_spec(s, w, h, (count - 1) as nat), w, h)
    }
}

/// The all-dead cell buffer of a `w` by `h` grid.
pub open spec fn all_dead_grid(w: int, h: int) -> Seq<CellState> {
    Seq::new((w * h) as nat, |i: int| CellState::Dead)
}

/// A simulation: owns exactly one grid; `step` replaces the whole cell
/// buffer with the next generation.
pub struct Game {
    pub map: Grid,
}

impl Game {
    /// A blank game: every cell of the `width` by `height` grid is dead.
    pub fn new(width: usize, height: usize) -> (g: Game)
        requires
            1 <= width,
            1 <= height,
            width * height <= usize::MAX,
        ensures
            g.map.wf(),
            g.map.width == width,
            g.map.height == height,
            g.map.states@ == all_dead_grid(width as int, height as int),
    {
        let states = vec![CellState::Dead; width * height];
        proof {
            assert(states@ =~= all_dead_grid(width as int, height as int));
        }
        let map = Grid { states, width, height };
        Game { map }
    }

    /// Advances the grid by `count` generations.
    pub fn run(&mut self, count: usize)
        requires
            old(self).map.wf(),
        ensures
            final(self).map.wf(),
            final(self).map.width == old(self).map.width,
            final(self).map.height == old(self).map.height,
            final(self).map.states@ == run_spec(
                old(self).map.states@,
                old(self).map.width as int,
                old(self).map.height as int,
                count as nat,
            ),
    {
        let mut i: usize = 0;
        while i < count
            invariant
                i <= count,
                self.map.wf(),
                self.map.width == old(self).map.width,
                self.map.height == old(self).map.height,
                self.map.states@ == run_spec(
                    old(self).map.states@,
                    old(self).map.width as int,
                    old(self).map.height as int,
                    i as nat,
                ),
            decreases count - i,
        {
            self.step();
            i = i + 1;
        }
    }

    /// Computes the next generation from a snapshot of the current one and
    /// installs it atomically; border cells are never altered.
    pub fn step(&mut self)
        requires
            old(self).map.wf(),
        ensures
            final(self).map.wf(),
            final(self).map.width == old(self).map.width,
            final(self).map.height == old(self).map.height,
            final(self).map.states@ == step_spec(
                old(self).map.states@,
                old(self).map.width as int,
                old(self).map.height as int,
            ),
    {
        let w = self.map.width;
        let h = self.map.height;
        let len = self.map.states.len();
        let ghost s = self.map.states@;
        let ghost wi = w as int;
        let ghost hi = h as int;
        let mut new_states = self.map.states.clone();
        proof {
            assert(new_states@ =~= s);
        }
        let mut y: usize = 1;
        while y < h - 1
            invariant
                1 <= y,
                h >= 2 ==> y <= h - 1,
                self == old(self),
                self.map.wf(),
                self.map.width == w,
                self.map.height == h,
                s == self.map.states@,
                wi == w as int,
                hi == h as int,
                len == s.len(),
                new_states@.len() == len,
                forall|i: int|
                    0 <= i < len ==> #[trigger] new_states@[i] == (if interior_flat(wi, hi, i)
                        && i / wi < y {
                        next_cell(s, wi, i % wi, i / wi)
                    } else {
                        s[i]
                    }),
            decreases h - y,
        {
            let mut x: usize = 1;
            while x < w - 1
                invariant
                    1 <= x,
                    w >= 2 ==> x <= w - 1,
                    1 <= y < h - 1,
                    self == old(self),
                    self.map.wf(),
                    self.map.width == w,
                    self.map.height == h,
                    s == self.map.states@,
                    wi == w as int,
                    hi == h as int,
                    len == s.len(),
                    new_states@.len() == len,
                    forall|i: int|
                        0 <= i < len ==> #[trigger] new_states@[i] == (if interior_flat(wi, hi, i)
                            && (i / wi < y || (i / wi == y && i % wi < x)) {
                            next_cell(s, wi, i % wi, i / wi)
                        } else {
                            s[i]
                        }),
                decreases w - x,
            {
                let n = count_alive_neighbors(&self.map, x, y);
                proof {
                    lemma_flat_index_bounds(wi, hi, x as int, y as int);
                    lemma_row_col(wi, x as int, y as int);
                }
                let cell_offset = (y * w) + x;
                let new_cell = match *self.map.get_cell(x, y) {
                    CellState::Alive => match n {
                        2 | 3 => CellState::Alive,
                        _ => CellState::Dead,
                    },
                    CellState::Dead => match n {
                        3 => CellState::Alive,
                        _ => CellState::Dead,
                    },
                };
                assert(new_cell == next_cell(s, wi, x as int, y as int));
                new_states[cell_offset] = new_cell;
                proof {
                    assert(wi * hi == hi * wi) by (nonlinear_arith);
                    assert forall|i: int|
                        0 <= i < len && i != cell_offset implies !(#[trigger] (i / wi) == y as int
                        && i % wi == x as int) by {
                        lemma_div_mod_bounds(i, wi, hi);
                    }
                }
                x = x + 1;
            }
            proof {
                assert forall|i: int|
                    0 <= i < len && interior_flat(wi, hi, i) && i / wi == y as int implies i % wi
                    < x as int by {
                    assert(w >= 3);
                }
            }
            y = y + 1;
        }
        proof {
            assert forall|i: int| 0 <= i < len && interior_flat(wi, hi, i) implies i / wi
                < y as int by {
                assert(h >= 3 ==> y == h - 1);
            }
            assert(new_states@ =~= step_spec(s, wi, hi));
        }
        self.map.states = new_states;
    }
}

/// The character that stands for a cell in the text map format.
pub open spec fn char_of_cell(c: CellState) -> char {
    if c == CellState::Alive {
        'x'
    } else {
        '.'
    }
}

/// The text serialization of a `w` by `h` grid: rows top to bottom, cells
/// left to right, `'x'` for alive and `'.'` for dead, rows joined by a single
/// newline, no trailing newline. Character `i` belongs to row `i / (w + 1)`;
/// column `w` of each joined row is its newline.
pub open spec fn render_spec(s: Seq<CellState>, w: int, h: int) -> Seq<char> {
    Seq::new(
        (h * (w + 1) - 1) as nat,
        |i: int|
            if i % (w + 1) == w {
                '\n'
            } else {
                char_of_cell(s[(i / (w + 1)) * w + i % (w + 1)])
            },
    )
}

impl Game {
    /// Serializes the full grid, border included, to the text map format.
    pub fn get_states_as_string(&self) -> (r: String)
        requires
            self.map.wf(),
        ensures
            r@ == render_spec(self.map.states@, self.map.width as int, self.map.height as int),
    {
        let w = self.map.width;
        let h = self.map.height;
        let ghost wi = w as int;
        let ghost hi = h as int;
        let ghost s = self.map.states@;
        let ghost t = render_spec(s, wi, hi);
        proof {
            reveal_strlit("x");
            reveal_strlit(".");
            reveal_strlit("\n");
            assert(hi * (wi + 1) - 1 >= wi) by (nonlinear_arith)
                requires
                    1 <= wi && 1 <= hi,
            ;
        }
        let mut result = String::new();
        let mut y: usize = 0;
        while y < h
            invariant
                y <= h,
                self.map.wf(),
                self.map.width == w,
                self.map.height == h,
                wi == w as int,
                hi == h as int,
                s == self.map.states@,
                t == render_spec(s, wi, hi),
                t.len() == hi * (wi + 1) - 1,
                y < h ==> result@ == t.take(y as int * (wi + 1)),
                y == h ==> result@ == t,
            decreases h - y,
        {
            let ghost row_base = y as int * (wi + 1);
            proof {
                lemma_render_row_base(wi, hi, y as int);
            }
            let mut x: usize = 0;
            while x < w
                invariant
                    x <= w,
                    y < h,
                    self.map.wf(),
                    self.map.width == w,
                    self.map.height == h,
                    wi == w as int,
                    hi == h as int,
                    s == self.map.states@,
                    t == render_spec(s, wi, hi),
                    t.len() == hi * (wi + 1) - 1,
                    row_base == y as int * (wi + 1),
                    row_base + wi <= t.len(),
                    result@ == t.take(row_base + x as int),
                decreases w - x,
            {
                proof {
                    lemma_row_col(wi + 1, x as int, y as int);
                    lemma_flat_index_bounds(wi, hi, x as int, y as int);
                    assert(t[row_base + x as int] == char_of_cell(s[y as int * wi + x as int]));
                    reveal_strlit("x");
                    reveal_strlit(".");
                }
                match *self.map.get_cell(x, y) {
                    CellState::Alive => result.append("x"),
                    CellState::Dead => result.append("."),
                }
                proof {
                    assert(result@ =~= t.take(row_base + x as int + 1));
                }
                x = x + 1;
            }
            if y + 1 < h {
                proof {
                    lemma_row_col(wi + 1, wi, y as int);
                    assert(row_base + wi < t.len()) by (nonlinear_arith)
                        requires
                            row_base == y as int * (wi + 1) && y as int + 1 < hi && 1 <= wi
                                && t.len() == hi * (wi + 1) - 1,
                    ;
                    assert(t[row_base + wi] == '\n');
                    reveal_strlit("\n");
                }
                result.append("\n");
                proof {
                    assert((y as int + 1) * (wi + 1) == row_base + wi + 1) by (nonlinear_arith)
                        requires
                            row_base == y as int * (wi + 1),
                    ;
                    assert(result@ =~= t.take((y as int + 1) * (wi + 1)));
                }
            } else {
                proof {
                    assert(row_base + wi == t.len()) by (nonlinear_arith)
                        requires
                            row_base == y as int * (wi + 1) && y as int + 1 == hi && t.len() == hi
                                * (wi + 1) - 1,
                    ;
                    assert(result@ =~= t);
                }
            }
            y = y + 1;
        }
        result
    }
}

/// The joined row `y` of the rendered text starts in bounds and has room for
/// a full row of cells.
pub(crate) proof fn lemma_render_row_base(w: int, h: int, y: int)
    by (nonlinear_arith)
    requires
        1 <= w,
        1 <= h,
        0 <= y < h,
    ensures
        0 <= y * (w + 1),
        y * (w + 1) + w <= h * (w + 1) - 1,
{
}

/// Counts the alive cells among the 8 neighbors of interior cell `(x, y)`.
fn count_alive_neighbors(map: &Grid, x: usize, y: usize) -> (n: usize)
    requires
        map.wf(),
        1 <= x,
        x + 1 < map.width,
        1 <= y,
        y + 1 < map.height,
    ensures
        n == live_neighbors(map.states@, map.width as int, x as int, y as int),
{
    let mut n: usize = 0;
    if let CellState::Alive = *map.get_cell(x - 1, y - 1) {
        n = n + 1;
    }
    if let CellState::Alive = *map.get_cell(x, y - 1) {
        n = n + 1;
    }
    if let CellState::Alive = *map.get_cell(x + 1, y - 1) {
        n = n + 1;
    }
    if let CellState::Alive = *map.get_cell(x - 1, y) {
        n = n + 1;
    }
    if let CellState::Alive = *map.get_cell(x + 1, y) {
        n = n + 1;
    }
    if let CellState::Alive = *map.get_cell(x - 1, y + 1) {
        n = n + 1;
    }
    if let CellState::Alive = *map.get_cell(x, y + 1) {
        n = n + 1;
    }
    if let CellState::Alive = *map.get_cell(x + 1, y + 1) {
        n = n + 1;
    }
    n
}

/// `0 <= y * w + x < w * h` whenever `(x, y)` is in range.
pub(crate) proof fn lemma_flat_index_bounds(w: int, h: int, x: int, y: int)
    by (nonlinear_arith)
    requires
        0 <= x < w,
        0 <= y < h,
    ensures
        0 <= y * w,
        y * w + x < w * h,
{
}

/// Recover `(x, y)` from the flat index `y * n + x` (for any stride `n`).
pub(crate) proof fn lemma_row_col(n: int, x: int, y: int)
    requires
        1 <= n,
        0 <= x < n,
        0 <= y,
    ensures
        (y * n + x) / n == y,
        (y * n + x) % n == x,
{
    lemma_fundamental_div_mod_converse_div(y * n + x, n, y, x);
    lemma_fundamental_div_mod_converse_mod(y * n + x, n, y, x);
}

/// Row and column of an arbitrary flat index `i < h * n`.
pub(crate) proof fn lemma_div_mod_bounds(i: int, n: int, h: int)
    requires
        1 <= n,
        0 <= h,
        0 <= i < h * n,
    ensures
        0 <= i / n < h,
        0 <= i % n < n,
        i == (i / n) * n + (i % n),
{
    lemma_fundamental_div_mod(i, n);
    assert(0 <= i % n < n) by {
        vstd::arithmetic::div_mod::lemma_mod_bound(i, n);
    }
    assert(i == (i / n) * n + (i % n)) by {
        assert(i == n * (i / n) + i % n);
        vstd::arithmetic::mul::lemma_mul_is_commutative(n, i / n);
    }
    assert(0 <= i / n < h) by (nonlinear_arith)
        requires
            1 <= n,
            0 <= i < h * n,
            i == (i / n) * n + (i % n),
            0 <= i % n < n,
    {
    }
}

/// Errors reported by the map parsers.
#[derive(Copy, Clone, PartialEq, Eq, Structural, Debug)]
pub enum ParseError {
    /// The input has no lines at all, so there is no header to read.
    MissingHeader,
    /// The first line is not `<width>x<height>` for two positive integers
    /// that fit the machine (including a `width * height` that overflows).
    BadHeader,
    /// Row `y` has `found` characters instead of the declared width.
    RowLength { y: usize, found: usize },
    /// Row `y` holds the character `c` at column `x`, which is neither `'x'`
    /// nor `'.'`.
    BadChar { c: char, x: usize, y: usize },
    /// The number of rows does not match the declared height.
    WrongLineCount,
}

/// The characters a map row may contain.
pub open spec fn is_cell_char(c: char) -> bool {
    c == 'x' || c == '.'
}

/// The cell a map character stands for.
pub open spec fn cell_of_char(c: char) -> CellState {
    if c == 'x' {
        CellState::Alive
    } else {
        CellState::Dead
    }
}

/// The index of the first occurrence of `c` in `s` at or after `pos`, or
/// `s.len()` if there is none.
pub open spec fn find_from(s: Seq<char>, c: char, pos: int) -> int
    decreases s.len() - pos when 0 <= pos <= s.len()
{
    if pos >= s.len() {
        s.len() as int
    } else if s[pos] == c {
        pos
    } else {
        find_from(s, c, pos + 1)
    }
}

/// What `find_from` returns: the first hit, or the length.
proof fn lemma_find_from(s: Seq<char>, c: char, pos: int)
    requires
        0 <= pos <= s.len(),
    ensures
        pos <= find_from(s, c, pos) <= s.len(),
        forall|j: int| pos <= j < find_from(s, c, pos) ==> s[j] != c,
        find_from(s, c, pos) < s.len() ==> s[find_from(s, c, pos)] == c,
    decreases s.len() - pos,
{
    if pos < s.len() && s[pos] != c {
        lemma_find_from(s, c, pos + 1);
    }
}

/// A well-formed body for a `w` by `h` map: `h` rows of exactly `w` cell
/// characters each, joined by single newlines, with at most one trailing
/// newline at the very end.
pub open spec fn text_wf(t: Seq<char>, w: int, h: int) -> bool {
    &&& (t.len() == h * (w + 1) - 1 || (t.len() == h * (w + 1) && t[h * (w + 1) - 1] == '\n'))
    &&& forall|y: int| 0 <= y < h - 1 ==> #[trigger] t[y * (w + 1) + w] == '\n'
    &&& forall|x: int, y: int|
        0 <= x < w && 0 <= y < h ==> is_cell_char(#[trigger] t[y * (w + 1) + x])
}

/// The grid described by a well-formed map body.
pub open spec fn grid_of_text(t: Seq<char>, w: int, h: int) -> Seq<CellState> {
    Seq::new((w * h) as nat, |i: int| cell_of_char(t[(i / w) * (w + 1) + i % w]))
}

/// Decimal digits, for the header's width and height tokens.
pub open spec fn is_digit(c: char) -> bool {
    '0' as u32 <= c as u32 <= '9' as u32
}

pub open spec fn digit_val(c: char) -> int {
    c as u32 - '0' as u32
}

pub open spec fn all_digits(t: Seq<char>) -> bool {
    forall|j: int| 0 <= j < t.len() ==> is_digit(#[trigger] t[j])
}

/// The number written in decimal by `t` (meaningful when `all_digits(t)`).
pub open spec fn str_to_int(t: Seq<char>) -> int
    decreases t.len(),
{
    if t.len() == 0 {
        0
    } else {
        str_to_int(t.drop_last()) * 10 + digit_val(t.last())
    }
}

proof fn lemma_str_to_int_take_succ(t: Seq<char>, k: int)
    requires
        0 <= k < t.len(),
    ensures
        str_to_int(t.take(k + 1)) == str_to_int(t.take(k)) * 10 + digit_val(t[k]),
{
    assert(t.take(k + 1).drop_last() =~= t.take(k));
    assert(t.take(k + 1).last() == t[k]);
}

proof fn lemma_str_to_int_nonneg(t: Seq<char>)
    requires
        all_digits(t),
    ensures
        str_to_int(t) >= 0,
    decreases t.len(),
{
    if t.len() > 0 {
        assert(all_digits(t.drop_last())) by {
            assert(forall|j: int|
                0 <= j < t.len() - 1 ==> #[trigger] t.drop_last()[j] == t[j]);
        }
        lemma_str_to_int_nonneg(t.drop_last());
        assert(is_digit(t.last()));
    }
}

/// Under `all_digits`, every prefix of `t` writes a number no larger than
/// the number `t` writes.
proof fn lemma_str_to_int_prefix_le(t: Seq<char>, k: int)
    requires
        all_digits(t),
        0 <= k <= t.len(),
    ensures
        str_to_int(t.take(k)) <= str_to_int(t),
    decreases t.len() - k,
{
    if k == t.len() {
        assert(t.take(k) =~= t);
    } else {
        lemma_str_to_int_take_succ(t, k);
        assert(all_digits(t.take(k))) by {
            assert(forall|j: int| 0 <= j < k ==> #[trigger] t.take(k)[j] == t[j]);
        }
        lemma_str_to_int_nonneg(t.take(k));
        assert(is_digit(t[k]));
        lemma_str_to_int_prefix_le(t, k + 1);
    }
}

/// Scans `hay` for the first `c` at or after `from`.
fn find_char_from(hay: &str, n: usize, c: char, from: usize) -> (r: usize)
    requires
        n == hay@.len(),
        from <= n,
    ensures
        r == find_from(hay@, c, from as int),
{
    let mut i: usize = from;
    while i < n
        invariant
            from <= i <= n,
            n == hay@.len(),
            find_from(hay@, c, from as int) == find_from(hay@, c, i as int),
        decreases n - i,
    {
        let cur = hay.get_char(i);
        if cur == c {
            return i;
        }
        i = i + 1;
    }
    i
}

/// Parses `line[from..to]` as an unsigned decimal number.
fn parse_usize(line: &str, from: usize, to: usize) -> (r: Option<usize>)
    requires
        from <= to,
        to <= line@.len(),
    ensures
        ({
            let t = line@.subrange(from as int, to as int);
            &&& (r.is_some() <==> from < to && all_digits(t) && str_to_int(t) <= usize::MAX)
            &&& (r matches Some(v) ==> v == str_to_int(t))
        }),
{
    let ghost t = line@.subrange(from as int, to as int);
    if from == to {
        return None;
    }
    let mut acc: usize = 0;
    let mut k: usize = 0;
    while k < to - from
        invariant
            from < to,
            to <= line@.len(),
            k <= to - from,
            t == line@.subrange(from as int, to as int),
            all_digits(t.take(k as int)),
            acc == str_to_int(t.take(k as int)),
        decreases to - from - k,
    {
        let c = line.get_char(from + k);
        assert(c == t[k as int]);
        let u = c as u32;
        if u < 48 || u > 57 {
            assert(!is_digit(t[k as int]));
            return None;
        }
        let d = (u - 48) as usize;
        proof {
            lemma_str_to_int_take_succ(t, k as int);
            assert(all_digits(t.take(k as int + 1))) by {
                assert(forall|j: int|
                    0 <= j < k as int + 1 ==> #[trigger] t.take(k as int + 1)[j] == t[j]);
                assert(is_digit(t[k as int]));
            }
        }
        let next = match acc.checked_mul(10) {
            Some(m) => m.checked_add(d),
            None => None,
        };
        match next {
            Some(v) => {
                acc = v;
            },
            None => {
                proof {
                    assert(str_to_int(t.take(k as int + 1)) > usize::MAX);
                    if all_digits(t) {
                        lemma_str_to_int_prefix_le(t, k as int + 1);
                    }
                }
                return None;
            },
        }
        k = k + 1;
    }
    proof {
        assert(t.take(k as int) =~= t);
    }
    Some(acc)
}

/// Reads `<width>x<height>` from a header line: two positive decimal
/// integers that fit in `usize`, separated by a literal `x`.
pub open spec fn header_ok(line: Seq<char>) -> bool {
    let i = find_from(line, 'x', 0);
    &&& 1 <= i
    &&& i + 1 < line.len()
    &&& all_digits(line.subrange(0, i))
    &&& all_digits(line.subrange(i + 1, line.len() as int))
    &&& 1 <= str_to_int(line.subrange(0, i)) <= usize::MAX
    &&& 1 <= str_to_int(line.subrange(i + 1, line.len() as int)) <= usize::MAX
}

/// The width a well-formed header declares.
pub open spec fn header_width(line: Seq<char>) -> int {
    str_to_int(line.subrange(0, find_from(line, 'x', 0)))
}

/// The height a well-formed header declares.
pub open spec fn header_height(line: Seq<char>) -> int {
    let i = find_from(line, 'x', 0);
    str_to_int(line.subrange(i + 1, line.len() as int))
}

/// In a well-formed map body, the first newline at or after the start of row
/// `y` sits exactly one full row further on.
proof fn lemma_wf_row_newline(t: Seq<char>, w: int, h: int, y: int)
    requires
        1 <= w,
        1 <= h,
        0 <= y < h,
        text_wf(t, w, h),
    ensures
        find_from(t, '\n', y * (w + 1)) == y * (w + 1) + w,
{
    let pos = y * (w + 1);
    lemma_render_row_base(w, h, y);
    lemma_find_from(t, '\n', pos);
    let e = find_from(t, '\n', pos);
    assert forall|j: int| pos <= j < pos + w implies t[j] != '\n' by {
        assert(is_cell_char(t[y * (w + 1) + (j - pos)]));
    }
    if y < h - 1 {
        assert(t[y * (w + 1) + w] == '\n');
    } else {
        assert(pos + w == h * (w + 1) - 1) by (nonlinear_arith)
            requires
                pos == y * (w + 1) && y == h - 1,
        ;
    }
    if e < pos + w {
        assert(t[e] != '\n');
        assert(t[e] == '\n');
    }
    if e > pos + w {
        assert(t[pos + w] != '\n');
        assert(pos + w < t.len());
        if y < h - 1 {
        } else {
            assert(t.len() == h * (w + 1));
            assert(t[h * (w + 1) - 1] == '\n');
        }
    }
}

/// The column of the first character of row `y` that is not a cell
/// character, scanning from column `x`; `w` if the whole row is clean.
/// `pos` is the row's first index in the text.
pub open spec fn scan_row(t: Seq<char>, pos: int, x: int, w: int) -> int
    decreases w - x when 0 <= x <= w
{
    if x >= w {
        w
    } else if !is_cell_char(t[pos + x]) {
        x
    } else {
        scan_row(t, pos, x + 1, w)
    }
}

/// What `scan_row` returns: the first bad column, or `w`.
proof fn lemma_scan_row(t: Seq<char>, pos: int, x: int, w: int)
    requires
        0 <= x <= w,
    ensures
        x <= scan_row(t, pos, x, w) <= w,
        forall|j: int| x <= j < scan_row(t, pos, x, w) ==> is_cell_char(#[trigger] t[pos + j]),
        scan_row(t, pos, x, w) < w ==> !is_cell_char(t[pos + scan_row(t, pos, x, w)]),
    decreases w - x,
{
    if x < w && is_cell_char(t[pos + x]) {
        lemma_scan_row(t, pos, x + 1, w);
    }
}

/// The outcome of reading rows `y`, `y + 1`, ..., `height - 1` of a `w` by
/// `h` map from `t` starting at `pos`: `None` on success, otherwise exactly
/// the error the parser reports. Each row is delimited by the next newline
/// (or the end of the text); its length is checked first, then its
/// characters left to right; a row count mismatch is found when the text
/// runs out of lines early, or when input remains after the last row.
pub open spec fn parse_outcome(t: Seq<char>, w: int, h: int, pos: int, y: int) -> Option<
    ParseError,
>
    decreases h - y when 0 <= y <= h
{
    if y >= h {
        if pos == t.len() {
            None
        } else {
            Some(ParseError::WrongLineCount)
        }
    } else if pos >= t.len() {
        Some(ParseError::WrongLineCount)
    } else {
        let e = find_from(t, '\n', pos);
        if e - pos != w {
            Some(ParseError::RowLength { y: y as usize, found: (e - pos) as usize })
        } else {
            let xb = scan_row(t, pos, 0, w);
            if xb < w {
                Some(ParseError::BadChar { c: t[pos + xb], x: xb as usize, y: y as usize })
            } else {
                parse_outcome(t, w, h, if e < t.len() { e + 1 } else { e }, y + 1)
            }
        }
    }
}

/// The error a `w` by `h` map body is rejected with, or `None` if it
/// parses: `RowLength` and `BadChar` name the first offending row, column
/// and character.
pub open spec fn map_error(t: Seq<char>, w: int, h: int) -> Option<ParseError> {
    parse_outcome(t, w, h, 0, 0)
}

/// Reads `height` rows of exactly `width` cells from `text` into a fresh
/// game, row by row in input order.
pub fn load_from_stringlines(text: &str, width: usize, height: usize) -> (r: Result<
    Game,
    ParseError,
>)
    requires
        1 <= width,
        1 <= height,
        width * height <= usize::MAX,
    ensures
        r.is_ok() <==> text_wf(text@, width as int, height as int),
        r matches Ok(g) ==> g.map.wf() && g.map.width == width && g.map.height == height
            && g.map.states@ == grid_of_text(text@, width as int, height as int),
        r.is_ok() ==> map_error(text@, width as int, height as int) is None,
        r matches Err(e) ==> map_error(text@, width as int, height as int) == Some(e),
        r matches Err(e) ==> match e {
            ParseError::MissingHeader => false,
            ParseError::BadHeader => false,
            _ => true,
        },
{
    let ghost t = text@;
    let ghost wi = width as int;
    let ghost hi = height as int;
    let tlen = text.unicode_len();
    let mut game = Game::new(width, height);
    let glen = game.map.states.len();
    let mut pos: usize = 0;
    let mut y: usize = 0;
    while y < height
        invariant
            y <= height,
            pos <= tlen,
            t == text@,
            wi == width as int,
            hi == height as int,
            1 <= wi,
            1 <= hi,
            tlen == t.len(),
            game.map.wf(),
            game.map.width == width,
            game.map.height == height,
            glen == game.map.states@.len(),
            glen == width * height,
            pos as int == y as int * (wi + 1) || (pos == tlen && tlen as int == y as int * (wi + 1)
                - 1 && y >= 1),
            forall|y2: int| 0 <= y2 < y as int - 1 ==> #[trigger] t[y2 * (wi + 1) + wi] == '\n',
            (pos as int == y as int * (wi + 1) && y >= 1) ==> t[(y as int - 1) * (wi + 1) + wi]
                == '\n',
            forall|x2: int, y2: int|
                0 <= x2 < wi && 0 <= y2 < y as int ==> is_cell_char(
                    #[trigger] t[y2 * (wi + 1) + x2],
                ),
            forall|i: int|
                0 <= i < glen && i / wi < y as int ==> #[trigger] game.map.states@[i]
                    == cell_of_char(t[(i / wi) * (wi + 1) + i % wi]),
            map_error(t, wi, hi) == parse_outcome(t, wi, hi, pos as int, y as int),
        decreases height - y,
    {
        if pos == tlen {
            proof {
                assert((tlen as int) < hi * (wi + 1) - 1) by (nonlinear_arith)
                    requires
                        tlen as int <= y as int * (wi + 1),
                        y as int <= hi - 1,
                        1 <= wi,
                ;
                assert(map_error(t, wi, hi) == Some(ParseError::WrongLineCount));
            }
            return Err(ParseError::WrongLineCount);
        }
        let e = find_char_from(text, tlen, '\n', pos);
        proof {
            lemma_find_from(t, '\n', pos as int);
        }
        let row_len = e - pos;
        if row_len != width {
            proof {
                if text_wf(t, wi, hi) {
                    lemma_wf_row_newline(t, wi, hi, y as int);
                }
                assert(map_error(t, wi, hi) == Some(
                    ParseError::RowLength { y, found: row_len },
                ));
            }
            return Err(ParseError::RowLength { y, found: row_len });
        }
        let mut x: usize = 0;
        while x < width
            invariant
                x <= width,
                y < height,
                pos as int == y as int * (wi + 1),
                pos < tlen,
                e as int == pos as int + wi,
                e <= tlen,
                t == text@,
                wi == width as int,
                hi == height as int,
                1 <= wi,
                1 <= hi,
                tlen == t.len(),
                game.map.wf(),
                game.map.width == width,
                game.map.height == height,
                glen == game.map.states@.len(),
                glen == width * height,
                forall|x2: int|
                    0 <= x2 < x as int ==> is_cell_char(#[trigger] t[y as int * (wi + 1) + x2]),
                forall|y2: int| 0 <= y2 < y as int - 1 ==> #[trigger] t[y2 * (wi + 1) + wi] == '\n',
                y >= 1 ==> t[(y as int - 1) * (wi + 1) + wi] == '\n',
                forall|x2: int, y2: int|
                    0 <= x2 < wi && 0 <= y2 < y as int ==> is_cell_char(
                        #[trigger] t[y2 * (wi + 1) + x2],
                    ),
                forall|i: int|
                    0 <= i < glen && (i / wi < y as int || (i / wi == y as int && i % wi
                        < x as int)) ==> #[trigger] game.map.states@[i] == cell_of_char(
                        t[(i / wi) * (wi + 1) + i % wi],
                    ),
                e as int == find_from(t, '\n', pos as int),
                map_error(t, wi, hi) == parse_outcome(t, wi, hi, pos as int, y as int),
            decreases width - x,
        {
            let c = text.get_char(pos + x);
            let cell: CellState;
            if c == 'x' {
                cell = CellState::Alive;
            } else if c == '.' {
                cell = CellState::Dead;
            } else {
                proof {
                    if text_wf(t, wi, hi) {
                        assert(is_cell_char(t[y as int * (wi + 1) + x as int]));
                    }
                    lemma_scan_row(t, pos as int, 0, wi);
                    let xb = scan_row(t, pos as int, 0, wi);
                    if xb < x as int {
                        assert(is_cell_char(t[y as int * (wi + 1) + xb]));
                        assert(t[pos as int + xb] == t[y as int * (wi + 1) + xb]);
                    }
                    if xb > x as int {
                        assert(is_cell_char(t[pos as int + x as int]));
                    }
                    assert(xb == x as int);
                    assert(map_error(t, wi, hi) == Some(ParseError::BadChar { c, x, y }));
                }
                return Err(ParseError::BadChar { c, x, y });
            }
            proof {
                lemma_flat_index_bounds(wi, hi, x as int, y as int);
                lemma_row_col(wi, x as int, y as int);
            }
            let idx = y * width + x;
            game.map.states[idx] = cell;
            proof {
                assert(wi * hi == hi * wi) by (nonlinear_arith);
                assert forall|i: int|
                    0 <= i < glen && i != idx implies !(#[trigger] (i / wi) == y as int && i % wi
                    == x as int) by {
                    lemma_div_mod_bounds(i, wi, hi);
                }
            }
            x = x + 1;
        }
        proof {
            lemma_scan_row(t, pos as int, 0, wi);
            let xb = scan_row(t, pos as int, 0, wi);
            if xb < wi {
                assert(is_cell_char(t[y as int * (wi + 1) + xb]));
                assert(t[pos as int + xb] == t[y as int * (wi + 1) + xb]);
            }
            assert(xb == wi);
            assert(parse_outcome(t, wi, hi, pos as int, y as int) == parse_outcome(
                t,
                wi,
                hi,
                if (e as int) < tlen as int {
                    e as int + 1
                } else {
                    e as int
                },
                y as int + 1,
            ));
        }
        if e < tlen {
            pos = e + 1;
            proof {
                assert((y as int + 1) * (wi + 1) == y as int * (wi + 1) + wi + 1) by (
                nonlinear_arith
                );
            }
        } else {
            pos = e;
            proof {
                assert((y as int + 1) * (wi + 1) - 1 == y as int * (wi + 1) + wi) by (
                nonlinear_arith
                );
            }
        }
        y = y + 1;
    }
    if pos < tlen {
        proof {
            assert(pos as int == hi * (wi + 1) || (pos == tlen && tlen as int == hi * (wi + 1)
                - 1));
            assert(map_error(t, wi, hi) == Some(ParseError::WrongLineCount));
        }
        return Err(ParseError::WrongLineCount);
    }
    proof {
        if pos as int == hi * (wi + 1) {
            assert((hi - 1) * (wi + 1) + wi == hi * (wi + 1) - 1) by (nonlinear_arith);
            assert(t[hi * (wi + 1) - 1] == '\n');
        }
        assert(text_wf(t, wi, hi));
        assert(wi * hi == hi * wi) by (nonlinear_arith);
        assert forall|i: int| 0 <= i < glen implies #[trigger] game.map.states@[i] == cell_of_char(
            t[(i / wi) * (wi + 1) + i % wi],
        ) by {
            lemma_div_mod_bounds(i, wi, hi);
        }
        assert(game.map.states@ =~= grid_of_text(t, wi, hi));
        assert(map_error(t, wi, hi) is None);
    }
    Ok(game)
}

/// Parses a header line into its `(width, height)` pair.
fn parse_dims(line: &str) -> (r: Option<(usize, usize)>)
    ensures
        r.is_some() <==> header_ok(line@),
        r matches Some(p) ==> p.0 == header_width(line@) && p.1 == header_height(line@),
{
    let n = line.unicode_len();
    let i = find_char_from(line, n, 'x', 0);
    proof {
        lemma_find_from(line@, 'x', 0);
    }
    if i == 0 || i >= n {
        return None;
    }
    let w = match parse_usize(line, 0, i) {
        Some(w) => w,
        None => {
            return None;
        },
    };
    let h = match parse_usize(line, i + 1, n) {
        Some(h) => h,
        None => {
            return None;
        },
    };
    if w >= 1 && h >= 1 {
        Some((w, h))
    } else {
        None
    }
}

/// Parses a map whose dimensions the caller already knows: `content` is the
/// rows alone, with no header line.
pub fn load_from_stringmap(content: &String, width: usize, height: usize) -> (r: Result<
    Game,
    ParseError,
>)
    requires
        1 <= width,
        1 <= height,
        width * height <= usize::MAX,
    ensures
        r.is_ok() <==> text_wf(content@, width as int, height as int),
        r matches Ok(g) ==> g.map.wf() && g.map.width == width && g.map.height == height
            && g.map.states@ == grid_of_text(content@, width as int, height as int),
        r.is_ok() ==> map_error(content@, width as int, height as int) is None,
        r matches Err(e) ==> map_error(content@, width as int, height as int) == Some(e),
        r matches Err(e) ==> match e {
            ParseError::MissingHeader => false,
            ParseError::BadHeader => false,
            _ => true,
        },
{
    load_from_stringlines(content.as_str(), width, height)
}

/// The first line of a text, the part before its first newline.
pub open spec fn header_line_of(t: Seq<char>) -> Seq<char> {
    t.subrange(0, find_from(t, '\n', 0))
}

/// Everything after a text's first newline; empty if there is none.
pub open spec fn body_of(t: Seq<char>) -> Seq<char> {
    let nl = find_from(t, '\n', 0);
    if nl < t.len() {
        t.subrange(nl + 1, t.len() as int)
    } else {
        Seq::empty()
    }
}

/// Parses a map preceded by a `<width>x<height>` header line: the header
/// gives the dimensions and the remaining lines are the rows.
pub fn load_from_string(content: &String) -> (r: Result<Game, ParseError>)
    ensures
        ({
            let t = content@;
            let line = header_line_of(t);
            let body = body_of(t);
            let w = header_width(line);
            let h = header_height(line);
            &&& (r.is_ok() <==> t.len() > 0 && header_ok(line) && w * h <= usize::MAX && text_wf(
                body,
                w,
                h,
            ))
            &&& (r == Err::<Game, ParseError>(ParseError::MissingHeader) <==> t.len() == 0)
            &&& (r == Err::<Game, ParseError>(ParseError::BadHeader) <==> t.len() > 0 && !(header_ok(line) && w * h
                <= usize::MAX))
            &&& (r matches Ok(g) ==> g.map.wf() && g.map.width == w && g.map.height == h
                && g.map.states@ == grid_of_text(body, w, h))
            &&& (r matches Err(e) ==> (t.len() > 0 && header_ok(line) && w * h <= usize::MAX
                ==> map_error(body, w, h) == Some(e)))
            &&& (r.is_ok() ==> map_error(body, w, h) is None)
        }),
{
    let s = content.as_str();
    let n = s.unicode_len();
    if n == 0 {
        return Err(ParseError::MissingHeader);
    }
    let nl = find_char_from(s, n, '\n', 0);
    proof {
        lemma_find_from(s@, '\n', 0);
    }
    let line = s.substring_char(0, nl);
    let (width, height) = match parse_dims(line) {
        Some(p) => p,
        None => {
            return Err(ParseError::BadHeader);
        },
    };
    if width.checked_mul(height).is_none() {
        return Err(ParseError::BadHeader);
    }
    let rest = if nl < n {
        s.substring_char(nl + 1, n)
    } else {
        s.substring_char(n, n)
    };
    proof {
        assert(rest@ =~= body_of(content@));
    }
    load_from_stringlines(rest, width, height)
}

} // verus!
