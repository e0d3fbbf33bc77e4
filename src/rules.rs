//! The mathematical model of a grid and of one generation of the game.
//!
//! A grid of `w` columns and `h` rows is a sequence of `w * h` cells in
//! row-major order, `true` for Alive: the cell at `(r, c)` sits at `r * w + c`.
use vstd::arithmetic::div_mod::{lemma_fundamental_div_mod, lemma_fundamental_div_mod_converse};
use vstd::prelude::*;

verus! {

/// The position of `(r, c)` in row-major order.
pub open spec fn index_of(w: int, r: int, c: int) -> int {
    r * w + c
}

/// The row (or column) before `i` on a ring of `n`, so `0` wraps to `n - 1`.
pub open spec fn wrap_prev(i: int, n: int) -> int {
    (i + n - 1) % n
}

/// The row (or column) after `i` on a ring of `n`, so `n - 1` wraps to `0`.
pub open spec fn wrap_next(i: int, n: int) -> int {
    (i + 1) % n
}

/// 1 for an Alive cell, 0 for a Dead one.
pub open spec fn alive_count(b: bool) -> int {
    if b {
        1
    } else {
        0
    }
}

/// The state of the cell at `(r, c)`.
pub open spec fn cell_at(cells: Seq<bool>, w: int, r: int, c: int) -> bool {
    cells[index_of(w, r, c)]
}

/// How many of the eight neighbours of `(r, c)` are Alive, rows and columns
/// wrapping around the edges.
pub open spec fn neighbor_count(cells: Seq<bool>, w: int, h: int, r: int, c: int) -> int {
    let n = wrap_prev(r, h);
    let s = wrap_next(r, h);
    let we = wrap_prev(c, w);
    let e = wrap_next(c, w);
    alive_count(cell_at(cells, w, n, we)) + alive_count(cell_at(cells, w, n, c))
        + alive_count(cell_at(cells, w, n, e)) + alive_count(cell_at(cells, w, r, we))
        + alive_count(cell_at(cells, w, r, e)) + alive_count(cell_at(cells, w, s, we))
        + alive_count(cell_at(cells, w, s, c)) + alive_count(cell_at(cells, w, s, e))
}

/// The rule B3/S23: a live cell survives with two or three live neighbours,
/// a dead one comes alive with exactly three; every other cell is Dead next.
pub open spec fn next_state(alive: bool, n: int) -> bool {
    if alive {
        n == 2 || n == 3
    } else {
        n == 3
    }
}

/// The next generation: every cell follows `next_state` on the counts of
/// the current one.
pub open spec fn step(cells: Seq<bool>, w: int, h: int) -> Seq<bool> {
    Seq::new(
        cells.len(),
        |i: int| next_state(cells[i], neighbor_count(cells, w, h, i / w, i % w)),
    )
}

/// The grid of `n` cells, all Dead.
pub open spec fn all_dead(n: nat) -> Seq<bool> {
    Seq::new(n, |i: int| false)
}

/// The demonstration seed: cell `i` is Alive when `i` is even or a multiple of 7.
pub open spec fn seed(n: nat) -> Seq<bool> {
    Seq::new(n, |i: int| i % 2 == 0 || i % 7 == 0)
}

/// The grid with the cell at `i` flipped.
pub open spec fn toggled(cells: Seq<bool>, i: int) -> Seq<bool> {
    cells.update(i, !cells[i])
}

/// Whether one of the first `n` listed `(row, col)` lies at position `i`.
pub open spec fn is_listed(w: int, coords: Seq<(u32, u32)>, n: int, i: int) -> bool {
    exists|k: int|
        0 <= k < n && #[trigger] index_of(w, coords[k].0 as int, coords[k].1 as int) == i
}

/// The grid with every listed `(row, col)` set Alive, the rest kept.
pub open spec fn with_alive(cells: Seq<bool>, w: int, coords: Seq<(u32, u32)>) -> Seq<bool> {
    Seq::new(cells.len(), |i: int| cells[i] || is_listed(w, coords, coords.len() as int, i))
}

/// The glyph that shows a cell.
pub open spec fn glyph(alive: bool) -> char {
    if alive {
        '◼'
    } else {
        '◻'
    }
}

/// One row of the picture: a glyph per cell, then a line break.
pub open spec fn row_text(cells: Seq<bool>, w: int, r: int) -> Seq<char> {
    Seq::new(w as nat, |c: int| glyph(cell_at(cells, w, r, c))).push('\n')
}

/// The picture of the first `rows` rows, top to bottom.
pub open spec fn grid_text(cells: Seq<bool>, w: int, rows: nat) -> Seq<char>
    decreases rows,
{
    if rows == 0 {
        Seq::empty()
    } else {
        grid_text(cells, w, (rows - 1) as nat) + row_text(cells, w, rows - 1)
    }
}

/// The position of a cell in range lies in range, and tells its row and column back.
pub proof fn lemma_index_in_range(w: int, h: int, r: int, c: int)
    requires
        0 <= r < h,
        0 <= c < w,
    ensures
        0 <= index_of(w, r, c) < w * h,
        index_of(w, r, c) / w == r,
        index_of(w, r, c) % w == c,
{
    assert(0 <= r * w + c < w * h) by (nonlinear_arith)
        requires
            0 <= r < h,
            0 <= c < w,
    ;
    lemma_fundamental_div_mod_converse(r * w + c, w, r, c);
}

/// Every position in range is that of the cell `(i / w, i % w)`.
pub proof fn lemma_position_split(w: int, h: int, i: int)
    requires
        0 < w,
        0 <= i < w * h,
    ensures
        0 <= i / w < h,
        0 <= i % w < w,
        index_of(w, i / w, i % w) == i,
{
    lemma_fundamental_div_mod(i, w);
    assert((i / w) * w == w * (i / w)) by (nonlinear_arith);
    assert(0 <= i / w < h) by (nonlinear_arith)
        requires
            0 < w,
            0 <= i < w * h,
            i == w * (i / w) + i % w,
            0 <= i % w < w,
    ;
}

/// The wrapping neighbours of `i` on a ring of `n`, written without `%`.
pub proof fn lemma_wrap(i: int, n: int)
    requires
        0 <= i < n,
    ensures
        wrap_prev(i, n) == if i == 0 {
            n - 1
        } else {
            i - 1
        },
        wrap_next(i, n) == if i == n - 1 {
            0
        } else {
            i + 1
        },
{
    if i == 0 {
        lemma_fundamental_div_mod_converse(i + n - 1, n, 0, n - 1);
    } else {
        lemma_fundamental_div_mod_converse(i + n - 1, n, 1, i - 1);
    }
    if i == n - 1 {
        lemma_fundamental_div_mod_converse(i + 1, n, 1, 0);
    } else {
        lemma_fundamental_div_mod_converse(i + 1, n, 0, i + 1);
    }
}

} // verus!
