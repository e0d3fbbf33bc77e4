use wasm_game_of_life::Universe;

fn blank(width: u32, height: u32) -> Universe {
    let mut u = Universe::new();
    u.set_width(width);
    u.set_height(height);
    u
}

fn alive(u: &Universe, row: u32, col: u32) -> bool {
    u.get_cells().contains((row * u.width() + col) as usize)
}

fn alive_cells(u: &Universe) -> Vec<(u32, u32)> {
    let mut v = Vec::new();
    for r in 0..u.height() {
        for c in 0..u.width() {
            if alive(u, r, c) {
                v.push((r, c));
            }
        }
    }
    v
}

#[test]
fn new_is_seeded_128_by_128() {
    let u = Universe::new();
    assert_eq!(u.width(), 128);
    assert_eq!(u.height(), 128);
    assert_eq!(u.get_cells().len(), 128 * 128);
    for i in 0..(128 * 128) {
        assert_eq!(u.get_cells().contains(i), i % 2 == 0 || i % 7 == 0, "cell {}", i);
    }
    assert!(u.get_cells().contains(7));
    assert!(!u.get_cells().contains(9));
}

#[test]
fn set_width_resets_every_cell() {
    let mut u = Universe::new();
    u.set_width(10);
    assert_eq!(u.width(), 10);
    assert_eq!(u.height(), 128);
    assert_eq!(u.get_cells().len(), 10 * 128);
    assert_eq!(u.get_cells().count_ones(..), 0);
}

#[test]
fn set_height_resets_every_cell() {
    let mut u = Universe::new();
    u.set_height(3);
    assert_eq!(u.height(), 3);
    assert_eq!(u.width(), 128);
    assert_eq!(u.get_cells().len(), 3 * 128);
    assert_eq!(u.get_cells().count_ones(..), 0);
}

#[test]
fn resize_to_empty_grid() {
    let mut u = Universe::new();
    u.set_width(0);
    assert_eq!(u.get_cells().len(), 0);
    u.tick();
    assert_eq!(u.render(), "\n".repeat(128));
}

#[test]
fn block_in_four_by_four_is_stable() {
    let mut u = blank(4, 4);
    u.set_cells(&[(1, 1), (1, 2), (2, 1), (2, 2)]);
    u.tick();
    assert_eq!(alive_cells(&u), vec![(1, 1), (1, 2), (2, 1), (2, 2)]);
    assert_eq!(u.get_cells().len(), 16);
}

#[test]
fn blinker_returns_after_two_ticks() {
    let mut u = blank(5, 5);
    u.set_cells(&[(2, 1), (2, 2), (2, 3)]);
    u.tick();
    assert_eq!(alive_cells(&u), vec![(1, 2), (2, 2), (3, 2)]);
    u.tick();
    assert_eq!(alive_cells(&u), vec![(2, 1), (2, 2), (2, 3)]);
}

#[test]
fn corner_counts_opposite_corner() {
    // (0, 0) has exactly three live neighbours, all across the edges.
    let mut u = blank(5, 5);
    u.set_cells(&[(4, 4), (4, 0), (0, 4)]);
    u.tick();
    assert!(alive(&u, 0, 0));
    // Without the opposite corner it only has two.
    let mut v = blank(5, 5);
    v.set_cells(&[(4, 0), (0, 4)]);
    v.tick();
    assert!(!alive(&v, 0, 0));
}

#[test]
fn three_by_three_wraps_in_both_directions() {
    let mut u = blank(3, 3);
    u.set_cells(&[(2, 2)]);
    u.toggle_cell(0, 0);
    u.toggle_cell(0, 1);
    // Every cell neighbours every other on a 3 by 3 torus: three live cells
    // give each dead cell exactly three neighbours, each live one two.
    u.tick();
    assert_eq!(u.get_cells().count_ones(..), 9);
    u.tick();
    assert_eq!(u.get_cells().count_ones(..), 0);
}

#[test]
fn lone_cell_dies() {
    let mut u = blank(4, 4);
    u.set_cells(&[(1, 1)]);
    u.tick();
    assert!(alive_cells(&u).is_empty());
}

#[test]
fn crowded_cell_dies() {
    // (1, 1) has four live neighbours.
    let mut u = blank(5, 5);
    u.set_cells(&[(1, 1), (0, 1), (1, 0), (1, 2), (2, 1)]);
    u.tick();
    assert!(!alive(&u, 1, 1));
}

#[test]
fn toggle_twice_restores_cell() {
    let mut u = Universe::new();
    let before = u.get_cells().clone();
    u.toggle_cell(3, 5);
    assert_ne!(u.get_cells(), &before);
    assert_eq!(alive(&u, 3, 5), !before.contains(3 * 128 + 5));
    u.toggle_cell(3, 5);
    assert_eq!(u.get_cells(), &before);
}

#[test]
fn set_cells_keeps_other_cells() {
    let mut u = blank(4, 3);
    u.toggle_cell(2, 3);
    u.set_cells(&[(0, 0), (0, 0), (1, 2)]);
    assert_eq!(alive_cells(&u), vec![(0, 0), (1, 2), (2, 3)]);
    u.set_cells(&[]);
    assert_eq!(alive_cells(&u), vec![(0, 0), (1, 2), (2, 3)]);
}

#[test]
fn render_draws_rows() {
    let mut u = blank(3, 2);
    u.set_cells(&[(0, 1), (1, 2)]);
    assert_eq!(u.render(), "◻◼◻\n◻◻◼\n");
}

#[test]
fn cells_exposes_blocks() {
    let mut u = blank(40, 1);
    u.set_cells(&[(0, 1), (0, 33)]);
    assert_eq!(u.cells(), &[0b10u32, 0b10u32][..]);
}
