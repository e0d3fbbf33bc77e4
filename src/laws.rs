//! Facts about the game that hold of every grid of the model.
use crate::rules::{
    alive_count, cell_at, index_of, lemma_index_in_range, lemma_position_split, lemma_wrap,
    neighbor_count, next_state, step, toggled,
};
use vstd::prelude::*;

verus! {

/// The grid in which the cell at `(r, c)` is Alive exactly when row `r`
/// satisfies `rows` and column `c` satisfies `cols`.
pub open spec fn product(w: int, h: int, rows: spec_fn(int) -> bool, cols: spec_fn(int) -> bool) -> Seq<bool> {
    Seq::new((w * h) as nat, |i: int| rows(i / w) && cols(i % w))
}

/// A 2 by 2 block with its top left cell at `(r0, c0)`.
pub open spec fn block(w: int, h: int, r0: int, c0: int) -> Seq<bool> {
    product(w, h, |r: int| r == r0 || r == r0 + 1, |c: int| c == c0 || c == c0 + 1)
}

/// Three Alive cells in row `r0`, centred on column `c0`.
pub open spec fn horizontal_bar(w: int, h: int, r0: int, c0: int) -> Seq<bool> {
    product(w, h, |r: int| r == r0, |c: int| c0 - 1 <= c <= c0 + 1)
}

/// Three Alive cells in column `c0`, centred on row `r0`.
pub open spec fn vertical_bar(w: int, h: int, r0: int, c0: int) -> Seq<bool> {
    product(w, h, |r: int| r0 - 1 <= r <= r0 + 1, |c: int| c == c0)
}

/// Toggling a cell twice gives the grid back, and a toggle changes no other cell.
pub proof fn lemma_toggle_twice(cells: Seq<bool>, i: int)
    requires
        0 <= i < cells.len(),
    ensures
        toggled(toggled(cells, i), i) == cells,
        forall|j: int| 0 <= j < cells.len() && j != i ==> #[trigger] toggled(cells, i)[j] == cells[j],
{
    assert(toggled(toggled(cells, i), i) =~= cells);
}

/// The neighbour count of `(r, c)` in a product grid, with the wrapped rows
/// and columns written out.
proof fn lemma_product_count(
    w: int,
    h: int,
    rows: spec_fn(int) -> bool,
    cols: spec_fn(int) -> bool,
    r: int,
    c: int,
)
    requires
        0 <= r < h,
        0 <= c < w,
    ensures
        ({
            let n = if r == 0 { h - 1 } else { r - 1 };
            let s = if r == h - 1 { 0 } else { r + 1 };
            let we = if c == 0 { w - 1 } else { c - 1 };
            let e = if c == w - 1 { 0 } else { c + 1 };
            neighbor_count(product(w, h, rows, cols), w, h, r, c) == alive_count(rows(n) && cols(we))
                + alive_count(rows(n) && cols(c)) + alive_count(rows(n) && cols(e))
                + alive_count(rows(r) && cols(we)) + alive_count(rows(r) && cols(e))
                + alive_count(rows(s) && cols(we)) + alive_count(rows(s) && cols(c))
                + alive_count(rows(s) && cols(e))
        }),
{
    lemma_wrap(r, h);
    lemma_wrap(c, w);
    let n = if r == 0 { h - 1 } else { r - 1 };
    let s = if r == h - 1 { 0 } else { r + 1 };
    let we = if c == 0 { w - 1 } else { c - 1 };
    let e = if c == w - 1 { 0 } else { c + 1 };
    let g = product(w, h, rows, cols);
    lemma_index_in_range(w, h, n, we);
    lemma_index_in_range(w, h, n, c);
    lemma_index_in_range(w, h, n, e);
    lemma_index_in_range(w, h, r, we);
    lemma_index_in_range(w, h, r, e);
    lemma_index_in_range(w, h, s, we);
    lemma_index_in_range(w, h, s, c);
    lemma_index_in_range(w, h, s, e);
    assert(cell_at(g, w, n, we) == (rows(n) && cols(we)));
    assert(cell_at(g, w, n, c) == (rows(n) && cols(c)));
    assert(cell_at(g, w, n, e) == (rows(n) && cols(e)));
    assert(cell_at(g, w, r, we) == (rows(r) && cols(we)));
    assert(cell_at(g, w, r, e) == (rows(r) && cols(e)));
    assert(cell_at(g, w, s, we) == (rows(s) && cols(we)));
    assert(cell_at(g, w, s, c) == (rows(s) && cols(c)));
    assert(cell_at(g, w, s, e) == (rows(s) && cols(e)));
}

/// A 2 by 2 block of Alive cells, all other cells Dead, in a grid of at least
/// 4 rows and 4 columns, is unchanged by a generation.
pub proof fn lemma_block_still_life(w: int, h: int, r0: int, c0: int)
    requires
        w >= 4,
        h >= 4,
        0 <= r0 && r0 + 1 < h,
        0 <= c0 && c0 + 1 < w,
    ensures
        step(block(w, h, r0, c0), w, h) == block(w, h, r0, c0),
{
    let rows = |r: int| r == r0 || r == r0 + 1;
    let cols = |c: int| c == c0 || c == c0 + 1;
    let g = product(w, h, rows, cols);
    assert(g =~= block(w, h, r0, c0));
    assert forall|i: int| 0 <= i < g.len() implies #[trigger] step(g, w, h)[i] == g[i] by {
        lemma_position_split(w, h, i);
        let r = i / w;
        let c = i % w;
        lemma_product_count(w, h, rows, cols, r, c);
        assert(g[i] == (rows(r) && cols(c)));
        assert(step(g, w, h)[i] == next_state(g[i], neighbor_count(g, w, h, r, c)));
    }
    assert(step(g, w, h) =~= g);
}

/// A row of three Alive cells, all other cells Dead, becomes a column of three
/// and then the row again: it returns after exactly two generations.
pub proof fn lemma_blinker_period_two(w: int, h: int, r0: int, c0: int)
    requires
        w >= 5,
        h >= 5,
        1 <= r0 && r0 + 1 < h,
        1 <= c0 && c0 + 1 < w,
    ensures
        step(horizontal_bar(w, h, r0, c0), w, h) == vertical_bar(w, h, r0, c0),
        step(vertical_bar(w, h, r0, c0), w, h) == horizontal_bar(w, h, r0, c0),
        step(step(horizontal_bar(w, h, r0, c0), w, h), w, h) == horizontal_bar(w, h, r0, c0),
        step(horizontal_bar(w, h, r0, c0), w, h) != horizontal_bar(w, h, r0, c0),
{
    let hrows = |r: int| r == r0;
    let hcols = |c: int| c0 - 1 <= c <= c0 + 1;
    let vrows = |r: int| r0 - 1 <= r <= r0 + 1;
    let vcols = |c: int| c == c0;
    let hb = product(w, h, hrows, hcols);
    let vb = product(w, h, vrows, vcols);
    assert(hb =~= horizontal_bar(w, h, r0, c0));
    assert(vb =~= vertical_bar(w, h, r0, c0));
    assert forall|i: int| 0 <= i < hb.len() implies #[trigger] step(hb, w, h)[i] == vb[i] by {
        lemma_position_split(w, h, i);
        let r = i / w;
        let c = i % w;
        lemma_product_count(w, h, hrows, hcols, r, c);
        assert(hb[i] == (hrows(r) && hcols(c)));
        assert(vb[i] == (vrows(r) && vcols(c)));
        assert(step(hb, w, h)[i] == next_state(hb[i], neighbor_count(hb, w, h, r, c)));
    }
    assert(step(hb, w, h) =~= vb);
    assert forall|i: int| 0 <= i < vb.len() implies #[trigger] step(vb, w, h)[i] == hb[i] by {
        lemma_position_split(w, h, i);
        let r = i / w;
        let c = i % w;
        lemma_product_count(w, h, vrows, vcols, r, c);
        assert(hb[i] == (hrows(r) && hcols(c)));
        assert(vb[i] == (vrows(r) && vcols(c)));
        assert(step(vb, w, h)[i] == next_state(vb[i], neighbor_count(vb, w, h, r, c)));
    }
    assert(step(vb, w, h) =~= hb);
    lemma_index_in_range(w, h, r0, c0 - 1);
    assert(hb[index_of(w, r0, c0 - 1)] != vb[index_of(w, r0, c0 - 1)]);
}

/// Edges wrap: on a grid of at least 3 rows and 3 columns the bottom right
/// cell is a neighbour of the top left one, and the top left cell one of the
/// bottom right, each counted once.
pub proof fn lemma_corners_are_neighbors(cells: Seq<bool>, w: int, h: int)
    requires
        w >= 3,
        h >= 3,
        cells.len() == w * h,
    ensures
        neighbor_count(cells.update(index_of(w, h - 1, w - 1), true), w, h, 0, 0)
            == neighbor_count(cells.update(index_of(w, h - 1, w - 1), false), w, h, 0, 0) + 1,
        neighbor_count(cells.update(index_of(w, 0, 0), true), w, h, h - 1, w - 1)
            == neighbor_count(cells.update(index_of(w, 0, 0), false), w, h, h - 1, w - 1) + 1,
{
    lemma_wrap(0, h);
    lemma_wrap(0, w);
    lemma_wrap(h - 1, h);
    lemma_wrap(w - 1, w);
    let rs = seq![0int, 1, h - 2, h - 1];
    let cs = seq![0int, 1, w - 2, w - 1];
    assert forall|a: int, b: int| 0 <= a < 4 && 0 <= b < 4 implies 0 <= #[trigger] index_of(w, rs[a], cs[b]) < w * h
        && index_of(w, rs[a], cs[b]) / w == rs[a] && index_of(w, rs[a], cs[b]) % w == cs[b] by {
        lemma_index_in_range(w, h, rs[a], cs[b]);
    }
    assert(index_of(w, h - 1, w - 1) == index_of(w, rs[3], cs[3]));
    assert(index_of(w, 0, 0) == index_of(w, rs[0], cs[0]));
    assert(index_of(w, h - 1, 0) == index_of(w, rs[3], cs[0]));
    assert(index_of(w, h - 1, 1) == index_of(w, rs[3], cs[1]));
    assert(index_of(w, 0, w - 1) == index_of(w, rs[0], cs[3]));
    assert(index_of(w, 1, w - 1) == index_of(w, rs[1], cs[3]));
    assert(index_of(w, 0, 1) == index_of(w, rs[0], cs[1]));
    assert(index_of(w, 1, 0) == index_of(w, rs[1], cs[0]));
    assert(index_of(w, 1, 1) == index_of(w, rs[1], cs[1]));
    assert(index_of(w, h - 2, w - 2) == index_of(w, rs[2], cs[2]));
    assert(index_of(w, h - 2, w - 1) == index_of(w, rs[2], cs[3]));
    assert(index_of(w, h - 1, w - 2) == index_of(w, rs[3], cs[2]));
    assert(index_of(w, h - 2, 0) == index_of(w, rs[2], cs[0]));
    assert(index_of(w, 0, w - 2) == index_of(w, rs[0], cs[2]));
}

} // verus!
