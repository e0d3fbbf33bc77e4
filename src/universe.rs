//! The grid itself: its storage, its generation step and its edits.
use crate::bits::{bit, bits_of, blocks, blocks_hold, copy_bits, set_bit, zeroed};
use crate::rules::{
    all_dead, cell_at, glyph, grid_text, index_of, is_listed, seed, toggled, with_alive, lemma_index_in_range, lemma_position_split, lemma_wrap, neighbor_count,
    next_state, step,
};
use fixedbitset::FixedBitSet;
use vstd::prelude::*;
use vstd::string::StringExecFns;

verus! {

/// The state of one cell.
#[derive(Clone, Copy, Debug, PartialEq, Eq)]
pub enum Cell {
    Dead,
    Alive,
}

/// A toroidal grid of `width` columns and `height` rows, one bit per cell in
/// row-major order.
pub struct Universe {
    width: u32,
    height: u32,
    cells: FixedBitSet,
}

impl Universe {
    /// The number of columns.
    pub closed spec fn spec_width(&self) -> int {
        self.width as int
    }

    /// The number of rows.
    pub closed spec fn spec_height(&self) -> int {
        self.height as int
    }

    /// The cells in row-major order, `true` for Alive.
    pub closed spec fn spec_cells(&self) -> Seq<bool> {
        bits_of(self.cells)
    }

    /// There is exactly one cell for each row and column, and every position
    /// fits in a `u32`.
    pub open spec fn well_formed(&self) -> bool {
        &&& self.spec_cells().len() == self.spec_width() * self.spec_height()
        &&& self.spec_width() * self.spec_height() <= u32::MAX
    }

    /// A 128 by 128 grid, seeded: the cell at position `i` is Alive when `i`
    /// is even or a multiple of 7.
    pub fn new() -> (r: Universe)
        ensures
            r.well_formed(),
            r.spec_width() == 128,
            r.spec_height() == 128,
            r.spec_cells() == seed(128 * 128),
    {
        let width: u32 = 128;
        let height: u32 = 128;
        let size = (width * height) as usize;
        let mut cells = zeroed(size);
        for i in 0..size
            invariant
                size == 128 * 128,
                bits_of(cells).len() == size,
                forall|j: int| 0 <= j < i ==> #[trigger] bits_of(cells)[j] == seed(size as nat)[j],
        {
            if i % 2 == 0 || i % 7 == 0 {
                set_bit(&mut cells, i, true);
            } else {
                set_bit(&mut cells, i, false);
            }
        }
        assert(bits_of(cells) =~= seed(size as nat));
        Universe { width, height, cells }
    }

    /// Sets the number of columns; every cell of the resized grid is Dead.
    pub fn set_width(&mut self, width: u32)
        requires
            old(self).well_formed(),
            width * old(self).spec_height() <= u32::MAX,
        ensures
            final(self).well_formed(),
            final(self).spec_width() == width,
            final(self).spec_height() == old(self).spec_height(),
            final(self).spec_cells() == all_dead((width * old(self).spec_height()) as nat),
    {
        self.width = width;
        let size = (width * self.height) as usize;
        self.cells = zeroed(size);
        assert(self.spec_cells() =~= all_dead(size as nat));
    }

    /// Sets the number of rows; every cell of the resized grid is Dead.
    pub fn set_height(&mut self, height: u32)
        requires
            old(self).well_formed(),
            old(self).spec_width() * height <= u32::MAX,
        ensures
            final(self).well_formed(),
            final(self).spec_width() == old(self).spec_width(),
            final(self).spec_height() == height,
            final(self).spec_cells() == all_dead((old(self).spec_width() * height) as nat),
    {
        self.height = height;
        assert(height * self.width == self.width * height) by (nonlinear_arith);
        let size = (height * self.width) as usize;
        self.cells = zeroed(size);
        assert(self.spec_cells() =~= all_dead(size as nat));
    }

    /// Sets Alive each listed `(row, column)`; the other cells keep their state.
    /// Every listed coordinate must lie inside the grid.
    pub fn set_cells(&mut self, cells: &[(u32, u32)])
        requires
            old(self).well_formed(),
            forall|k: int|
                0 <= k < cells@.len() ==> #[trigger] cells@[k].0 < old(self).spec_height()
                    && cells@[k].1 < old(self).spec_width(),
        ensures
            final(self).well_formed(),
            final(self).spec_width() == old(self).spec_width(),
            final(self).spec_height() == old(self).spec_height(),
            final(self).spec_cells() == with_alive(
                old(self).spec_cells(),
                old(self).spec_width(),
                cells@,
            ),
    {
        let ghost cur = self.spec_cells();
        let ghost w = self.spec_width();
        for k in 0..cells.len()
            invariant
                self.well_formed(),
                w == self.spec_width(),
                self.spec_height() == old(self).spec_height(),
                cur == old(self).spec_cells(),
                forall|m: int|
                    0 <= m < cells@.len() ==> #[trigger] cells@[m].0 < self.spec_height()
                        && cells@[m].1 < w,
                self.spec_cells().len() == cur.len(),
                forall|i: int|
                    0 <= i < cur.len() ==> #[trigger] self.spec_cells()[i] == (cur[i] || is_listed(
                        w,
                        cells@,
                        k as int,
                        i,
                    )),
        {
            let (row, col) = cells[k];
            assert(row == cells@[k as int].0 && col == cells@[k as int].1);
            let idx = self.get_index(row, col);
            let ghost before = self.spec_cells();
            set_bit(&mut self.cells, idx, true);
            assert forall|i: int| 0 <= i < cur.len() implies #[trigger] self.spec_cells()[i] == (
            cur[i] || is_listed(w, cells@, k + 1, i)) by {
                if i == idx {
                    assert(index_of(w, cells@[k as int].0 as int, cells@[k as int].1 as int) == i);
                } else {
                    assert(before[i] == self.spec_cells()[i]);
                    if is_listed(w, cells@, k + 1, i) {
                        let m = choose|m: int|
                            0 <= m < k + 1 && #[trigger] index_of(
                                w,
                                cells@[m].0 as int,
                                cells@[m].1 as int,
                            ) == i;
                        assert(m != k);
                    }
                }
            }
        }
        assert(self.spec_cells() =~= with_alive(cur, w, cells@));
    }

    /// Flips the state of the cell at `(row, column)`, which must lie inside the grid.
    pub fn toggle_cell(&mut self, row: u32, column: u32)
        requires
            old(self).well_formed(),
            row < old(self).spec_height(),
            column < old(self).spec_width(),
        ensures
            final(self).well_formed(),
            final(self).spec_width() == old(self).spec_width(),
            final(self).spec_height() == old(self).spec_height(),
            final(self).spec_cells() == toggled(
                old(self).spec_cells(),
                index_of(old(self).spec_width(), row as int, column as int),
            ),
    {
        let idx = self.get_index(row, column);
        let alive = bit(&self.cells, idx);
        set_bit(&mut self.cells, idx, !alive);
    }

    /// The bitset that holds the cells.
    pub fn get_cells(&self) -> (r: &FixedBitSet)
        ensures
            bits_of(*r) == self.spec_cells(),
    {
        &self.cells
    }

    /// The number of columns.
    pub fn width(&self) -> (r: u32)
        ensures
            r == self.spec_width(),
    {
        self.width
    }

    /// The number of rows.
    pub fn height(&self) -> (r: u32)
        ensures
            r == self.spec_height(),
    {
        self.height
    }

    /// The storage as `u32` blocks, for a host that draws the cells itself:
    /// bit `i % 32` (least significant first) of block `i / 32` is the cell
    /// at position `i`.
    pub fn cells(&self) -> (r: &[u32])
        ensures
            blocks_hold(r@, self.spec_cells()),
    {
        blocks(&self.cells)
    }

    /// The grid as text: one line per row, `◼` for an Alive cell and `◻` for
    /// a Dead one, each line ended by a line break.
    pub fn render(&self) -> (r: String)
        requires
            self.well_formed(),
        ensures
            r@ == grid_text(self.spec_cells(), self.spec_width(), self.spec_height() as nat),
    {
        let ghost cur = self.spec_cells();
        let ghost w = self.spec_width();
        let mut text = String::new();
        let mut row: u32 = 0;
        while row < self.height
            invariant
                self.well_formed(),
                cur == self.spec_cells(),
                w == self.spec_width(),
                row <= self.spec_height(),
                text@ == grid_text(cur, w, row as nat),
            decreases self.spec_height() - row,
        {
            let mut col: u32 = 0;
            while col < self.width
                invariant
                    self.well_formed(),
                    cur == self.spec_cells(),
                    w == self.spec_width(),
                    row < self.spec_height(),
                    col <= w,
                    text@ == grid_text(cur, w, row as nat) + Seq::new(
                        col as nat,
                        |c: int| glyph(cell_at(cur, w, row as int, c)),
                    ),
                decreases w - col,
            {
                let idx = self.get_index(row, col);
                let ghost before = text@;
                if bit(&self.cells, idx) {
                    proof {
                        reveal_strlit("◼");
                    }
                    text.append("◼");
                } else {
                    proof {
                        reveal_strlit("◻");
                    }
                    text.append("◻");
                }
                assert(text@ =~= grid_text(cur, w, row as nat) + Seq::new(
                    (col + 1) as nat,
                    |c: int| glyph(cell_at(cur, w, row as int, c)),
                ));
                col += 1;
            }
            proof {
                reveal_strlit("\n");
            }
            text.append("\n");
            assert(text@ =~= grid_text(cur, w, (row + 1) as nat));
            row += 1;
        }
        text
    }

    /// The position of `(row, column)` in the storage.
    fn get_index(&self, row: u32, column: u32) -> (r: usize)
        requires
            self.well_formed(),
            row < self.spec_height(),
            column < self.spec_width(),
        ensures
            r == index_of(self.spec_width(), row as int, column as int),
            r < self.spec_cells().len(),
    {
        proof {
            lemma_index_in_range(self.width as int, self.height as int, row as int, column as int);
        }
        (row * self.width + column) as usize
    }

    /// How many of the eight wrapped neighbours of `(row, column)` are Alive.
    fn live_neighbor_count(&self, row: u32, column: u32) -> (r: u8)
        requires
            self.well_formed(),
            row < self.spec_height(),
            column < self.spec_width(),
        ensures
            r == neighbor_count(
                self.spec_cells(),
                self.spec_width(),
                self.spec_height(),
                row as int,
                column as int,
            ),
    {
        proof {
            lemma_wrap(row as int, self.height as int);
            lemma_wrap(column as int, self.width as int);
        }
        let mut count: u8 = 0;

        let north = if row == 0 {
            self.height - 1
        } else {
            row - 1
        };
        let south = if row == self.height - 1 {
            0
        } else {
            row + 1
        };
        let west = if column == 0 {
            self.width - 1
        } else {
            column - 1
        };
        let east = if column == self.width - 1 {
            0
        } else {
            column + 1
        };

        let nw = self.get_index(north, west);
        if bit(&self.cells, nw) {
            count += 1;
        }
        let n = self.get_index(north, column);
        if bit(&self.cells, n) {
            count += 1;
        }
        let ne = self.get_index(north, east);
        if bit(&self.cells, ne) {
            count += 1;
        }
        let w = self.get_index(row, west);
        if bit(&self.cells, w) {
            count += 1;
        }
        let e = self.get_index(row, east);
        if bit(&self.cells, e) {
            count += 1;
        }
        let sw = self.get_index(south, west);
        if bit(&self.cells, sw) {
            count += 1;
        }
        let s = self.get_index(south, column);
        if bit(&self.cells, s) {
            count += 1;
        }
        let se = self.get_index(south, east);
        if bit(&self.cells, se) {
            count += 1;
        }
        count
    }

    /// Advances the grid by one generation: every cell follows the rule on the
    /// neighbour counts of the grid as it was before the call.
    pub fn tick(&mut self)
        requires
            old(self).well_formed(),
        ensures
            final(self).well_formed(),
            final(self).spec_width() == old(self).spec_width(),
            final(self).spec_height() == old(self).spec_height(),
            final(self).spec_cells() == step(
                old(self).spec_cells(),
                old(self).spec_width(),
                old(self).spec_height(),
            ),
    {
        let ghost cur = self.spec_cells();
        let ghost w = self.width as int;
        let ghost h = self.height as int;
        let mut next = copy_bits(&self.cells);
        let mut row: u32 = 0;
        while row < self.height
            invariant
                self.well_formed(),
                self.spec_cells() == cur,
                w == self.spec_width(),
                h == self.spec_height(),
                row <= h,
                bits_of(next).len() == cur.len(),
                forall|r: int, c: int|
                    0 <= r < row && 0 <= c < w ==> #[trigger] bits_of(next)[index_of(w, r, c)]
                        == next_state(cell_at(cur, w, r, c), neighbor_count(cur, w, h, r, c)),
            decreases h - row,
        {
            let mut col: u32 = 0;
            while col < self.width
                invariant
                    self.well_formed(),
                    self.spec_cells() == cur,
                    w == self.spec_width(),
                    h == self.spec_height(),
                    row < h,
                    col <= w,
                    bits_of(next).len() == cur.len(),
                    forall|r: int, c: int|
                        0 <= r < h && 0 <= c < w && (r < row || (r == row && c < col))
                            ==> #[trigger] bits_of(next)[index_of(w, r, c)] == next_state(
                            cell_at(cur, w, r, c),
                            neighbor_count(cur, w, h, r, c),
                        ),
                decreases w - col,
            {
                let idx = self.get_index(row, col);
                let cell = bit(&self.cells, idx);
                let live_neighbors = self.live_neighbor_count(row, col);
                let ghost before = bits_of(next);
                set_bit(
                    &mut next,
                    idx,
                    match (cell, live_neighbors) {
                        (true, x) if x < 2 => false,
                        (true, 2) | (true, 3) => true,
                        (true, x) if x > 3 => false,
                        (false, 3) => true,
                        (otherwise, _) => otherwise,
                    },
                );
                assert forall|r: int, c: int|
                    0 <= r < h && 0 <= c < w && (r < row || (r == row && c < col + 1))
                        implies #[trigger] bits_of(next)[index_of(w, r, c)] == next_state(
                        cell_at(cur, w, r, c),
                        neighbor_count(cur, w, h, r, c),
                    ) by {
                    lemma_index_in_range(w, h, r, c);
                    lemma_index_in_range(w, h, row as int, col as int);
                    if r != row || c != col {
                        assert(before[index_of(w, r, c)] == bits_of(next)[index_of(w, r, c)]);
                    }
                }
                col += 1;
            }
            row += 1;
        }
        proof {
            let target = step(cur, w, h);
            assert forall|i: int| 0 <= i < cur.len() implies bits_of(next)[i] == target[i] by {
                assert(w > 0) by (nonlinear_arith)
                    requires
                        0 <= i < w * h,
                        w >= 0,
                ;
                lemma_position_split(w, h, i);
                assert(bits_of(next)[index_of(w, i / w, i % w)] == next_state(
                    cell_at(cur, w, i / w, i % w),
                    neighbor_count(cur, w, h, i / w, i % w),
                ));
            }
            assert(bits_of(next) =~= target);
        }
        self.cells = next;
    }
}

} // verus!
