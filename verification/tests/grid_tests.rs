use life_grid::{Cell, Grid};

/// Reference neighbor count: brute-force over the toroidal wraparound.
fn brute_count(states: &[bool], w: u32, h: u32, row: u32, col: u32) -> u8 {
    let mut n: u8 = 0;
    for dr in [h - 1, 0, 1] {
        for dc in [w - 1, 0, 1] {
            if dr == 0 && dc == 0 {
                continue;
            }
            let r = (row + dr) % h;
            let c = (col + dc) % w;
            if states[(r * w + c) as usize] {
                n += 1;
            }
        }
    }
    n
}

/// Reference rule: Conway B3/S23.
fn rule(alive: bool, n: u8) -> bool {
    if alive { n == 2 || n == 3 } else { n == 3 }
}

/// Reference next generation, recomputed from scratch.
fn brute_next(states: &[bool], w: u32, h: u32) -> Vec<bool> {
    let mut out = Vec::new();
    for r in 0..h {
        for c in 0..w {
            let n = brute_count(states, w, h, r, c);
            out.push(rule(states[(r * w + c) as usize], n));
        }
    }
    out
}

fn states_of(g: &Grid) -> Vec<bool> {
    g.cells().iter().map(|c| c.is_alive()).collect()
}

/// Builds a grid with the given life states, counts computed brute-force,
/// the scratch buffer level and the image fully rendered.
fn build_grid(states: &[bool], w: u32, h: u32, cell_size: u32) -> Grid {
    assert_eq!(states.len(), (w * h) as usize);
    let mut cells = Vec::new();
    for r in 0..h {
        for c in 0..w {
            let alive = states[(r * w + c) as usize];
            let count = brute_count(states, w, h, r, c);
            cells.push(Cell::from((count << 1) | (alive as u8)));
        }
    }
    let alt_buf = cells.clone();
    let img_buf = vec![0u8; (w * h * cell_size * cell_size * 4) as usize];
    let mut g = Grid { width: w, height: h, cell_size, cells, alt_buf, img_buf, update_list: Vec::new() };
    g.draw_all();
    g
}

fn check_counts(g: &Grid) {
    let states = states_of(g);
    for r in 0..g.height {
        for c in 0..g.width {
            let expected = brute_count(&states, g.width, g.height, r, c);
            let got = g.cells()[(r * g.width + c) as usize].get_count();
            assert_eq!(got, expected, "count wrong at ({}, {})", r, c);
        }
    }
}

fn check_image(g: &Grid) {
    let (w, cs) = (g.width, g.cell_size);
    let img = g.img_buf();
    assert_eq!(img.len(), (g.width * g.height * cs * cs * 4) as usize);
    for r in 0..g.height {
        for c in 0..w {
            let alive = g.cells()[(r * w + c) as usize].is_alive();
            let expected: [u8; 4] = if alive { [0, 0, 0, 255] } else { [255, 255, 255, 255] };
            for i in 0..cs {
                for j in 0..cs {
                    let idx = (4 * (r * w * cs * cs + i * w * cs + c * cs + j)) as usize;
                    assert_eq!(&img[idx..idx + 4], &expected, "pixel wrong at cell ({}, {}) px ({}, {})", r, c, i, j);
                }
            }
        }
    }
}

#[test]
fn seeding_width7() {
    let g = Grid::new(7, 1, 1);
    let alive: Vec<bool> = states_of(&g);
    assert_eq!(alive, vec![true, false, true, false, true, false, true]);
}

#[test]
fn seeding_follows_flat_index() {
    let g = Grid::new(9, 5, 1);
    for (i, cell) in g.cells().iter().enumerate() {
        assert_eq!(cell.is_alive(), i % 2 == 0 || i % 7 == 0, "seed wrong at {}", i);
    }
}

#[test]
fn construction_initializes_counts_and_image() {
    let g = Grid::new(8, 6, 2);
    check_counts(&g);
    check_image(&g);
}

#[test]
fn initial_update_list_holds_all_indices() {
    let g = Grid::new(6, 4, 1);
    assert_eq!(g.n_updated(), 24);
    let list = g.updated_list();
    for (a, &i) in list.iter().enumerate() {
        assert_eq!(i, a as u32);
    }
}

#[test]
fn count_invariant_brute_force_50_steps() {
    let mut g = Grid::new(8, 8, 1);
    for _ in 0..50 {
        g.step();
        check_counts(&g);
    }
}

#[test]
fn step_matches_reference_rule() {
    let mut g = Grid::new(11, 9, 1);
    for _ in 0..30 {
        let before = states_of(&g);
        g.step();
        assert_eq!(states_of(&g), brute_next(&before, 11, 9));
    }
}

#[test]
fn determinism_two_grids() {
    let mut a = Grid::new(12, 10, 2);
    let mut b = Grid::new(12, 10, 2);
    for _ in 0..20 {
        a.step();
        b.step();
        let ab: Vec<u8> = a.cells().iter().map(|c| c.to_u8()).collect();
        let bb: Vec<u8> = b.cells().iter().map(|c| c.to_u8()).collect();
        assert_eq!(ab, bb);
        assert_eq!(a.img_buf(), b.img_buf());
        assert_eq!(a.n_updated(), b.n_updated());
        assert_eq!(a.updated_list(), b.updated_list());
    }
}

#[test]
fn update_list_exact() {
    let mut g = Grid::new(10, 10, 1);
    for _ in 0..10 {
        let before = states_of(&g);
        g.step();
        let after = states_of(&g);
        let list = g.updated_list();
        assert_eq!(list.len(), g.n_updated() as usize);
        // strictly increasing, hence duplicate-free
        for w in list.windows(2) {
            assert!(w[0] < w[1]);
        }
        // listed exactly when the state changed
        let listed: std::collections::HashSet<u32> = list.iter().copied().collect();
        for i in 0..before.len() {
            assert_eq!(before[i] != after[i], listed.contains(&(i as u32)), "at {}", i);
        }
    }
}

#[test]
fn image_updated_incrementally() {
    let mut g = Grid::new(7, 7, 3);
    for _ in 0..12 {
        g.step();
        check_image(&g);
    }
}

#[test]
fn block_collapses_per_rule() {
    // A solid 3x3 block at the center of a 20x20 grid, far from wraparound.
    let (w, h) = (20u32, 20u32);
    let mut states = vec![false; (w * h) as usize];
    for r in 9..12u32 {
        for c in 9..12u32 {
            states[(r * w + c) as usize] = true;
        }
    }
    let mut g = build_grid(&states, w, h, 1);
    check_counts(&g);
    for _ in 0..4 {
        let before = states_of(&g);
        g.step();
        assert_eq!(states_of(&g), brute_next(&before, w, h));
        check_counts(&g);
        check_image(&g);
    }
    // After one step a solid block becomes the 8-cell ring predicted by the
    // rule: corners survive, edge centers die, and the four orthogonal
    // outside neighbors of the edge centers are born. Check generation 1.
    let mut expected = vec![false; (w * h) as usize];
    let mut g1 = build_grid(&states, w, h, 1);
    g1.step();
    for (r, c) in [(9, 9), (9, 11), (11, 9), (11, 11)] {
        expected[(r * w + c) as usize] = true; // corners survive (3 neighbors)
    }
    for (r, c) in [(8, 10), (10, 8), (10, 12), (12, 10)] {
        expected[(r * w + c) as usize] = true; // births outside the block
    }
    for (r, c) in [(9, 10), (10, 9), (10, 10), (10, 11), (11, 10)] {
        assert!(!states_of(&g1)[(r * w + c) as usize], "({}, {}) should die", r, c);
    }
    assert_eq!(states_of(&g1), expected);
}

#[test]
fn toroidal_wraparound_corner_cell() {
    let n = 5u32;
    let mut states = vec![false; (n * n) as usize];
    states[0] = true; // single live cell at (0, 0)
    let g = build_grid(&states, n, n, 1);
    let wrapped: Vec<(u32, u32)> = vec![
        (n - 1, n - 1), (n - 1, 0), (n - 1, 1),
        (0, n - 1), (0, 1),
        (1, n - 1), (1, 0), (1, 1),
    ];
    for r in 0..n {
        for c in 0..n {
            let expected = if wrapped.contains(&(r, c)) { 1 } else { 0 };
            assert_eq!(g.get_neighbor_count(r, c), expected, "at ({}, {})", r, c);
            assert_eq!(g.cells()[(r * n + c) as usize].get_count(), expected);
        }
    }
}

#[test]
fn lone_cell_dies_and_is_listed() {
    let n = 4u32;
    let mut states = vec![false; (n * n) as usize];
    states[0] = true;
    let mut g = build_grid(&states, n, n, 1);
    g.step();
    assert!(states_of(&g).iter().all(|&a| !a));
    assert_eq!(g.n_updated(), 1);
    assert_eq!(g.updated_list(), &[0u32]);
}

#[test]
fn draw_cell_overwrites_one_block() {
    let mut g = Grid::new(4, 3, 2);
    g.draw_cell(1, 2, true);
    let (w, cs) = (4u32, 2u32);
    let img = g.img_buf();
    for i in 0..cs {
        for j in 0..cs {
            let idx = (4 * (1 * w * cs * cs + i * w * cs + 2 * cs + j)) as usize;
            assert_eq!(&img[idx..idx + 4], &[0, 0, 0, 255]);
        }
    }
    // a full redraw restores agreement with the cells
    g.draw_all();
    check_image(&g);
}
