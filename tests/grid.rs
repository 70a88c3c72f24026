use tgol::cell::{draw_exceeds_threshold, Cell, ALIVE_THRESHOLD};
use tgol::grid::Grid;
use tgol::random::{seed_from_entropy, stream_draws};

fn alive_points(g: &Grid) -> Vec<(usize, usize)> {
    let mut out = Vec::new();
    for (i, c) in g.cells().iter().enumerate() {
        if c.alive {
            out.push((i % g.width(), i / g.width()));
        }
    }
    out
}

fn grid_with(width: usize, height: usize, alive: &[(isize, isize)]) -> Grid {
    let mut g = Grid::new_empty_grid(width, height);
    for &(x, y) in alive {
        assert!(g.toggle(x, y));
    }
    g
}

#[test]
fn new_grid_is_dead_and_cold() {
    let g = Grid::new_empty_grid(7, 3);
    assert_eq!(g.width(), 7);
    assert_eq!(g.height(), 3);
    assert_eq!(g.cells().len(), 21);
    assert!(g.cells().iter().all(|c| *c == Cell { alive: false, heat: 0 }));
}

#[test]
fn update_keeps_cell_count() {
    let mut g = grid_with(6, 4, &[(0, 0), (1, 0), (5, 3)]);
    for _ in 0..4 {
        g.update();
        assert_eq!(g.cells().len(), 24);
    }
}

#[test]
fn blinker_rotates_and_returns() {
    let mut g = grid_with(5, 5, &[(1, 2), (2, 2), (3, 2)]);
    g.update();
    assert_eq!(alive_points(&g), vec![(2, 1), (2, 2), (2, 3)]);
    g.update();
    assert_eq!(alive_points(&g), vec![(1, 2), (2, 2), (3, 2)]);
}

#[test]
fn dead_grid_stays_dead() {
    let mut g = Grid::new_empty_grid(8, 6);
    for _ in 0..10 {
        g.update();
        assert!(alive_points(&g).is_empty());
    }
}

#[test]
fn isolated_cell_dies() {
    let mut g = grid_with(5, 5, &[(2, 2)]);
    g.update();
    assert!(alive_points(&g).is_empty());
    // a dead cell cools by the cooling rate each generation
    assert_eq!(g.cells()[2 + 2 * 5], Cell { alive: false, heat: 205 });
    g.update();
    assert_eq!(g.cells()[2 + 2 * 5], Cell { alive: false, heat: 155 });
}

#[test]
fn cell_with_one_neighbor_dies() {
    let mut g = grid_with(6, 6, &[(2, 2), (3, 2)]);
    g.update();
    assert!(alive_points(&g).is_empty());
}

#[test]
fn block_survives() {
    let mut g = grid_with(6, 6, &[(2, 2), (3, 2), (2, 3), (3, 3)]);
    g.update();
    assert_eq!(alive_points(&g), vec![(2, 2), (3, 2), (2, 3), (3, 3)]);
    assert!(g.cells().iter().filter(|c| c.alive).all(|c| c.heat == 255));
}

#[test]
fn dead_cell_with_three_neighbors_is_born() {
    let mut g = grid_with(6, 6, &[(1, 1), (2, 1), (3, 1)]);
    g.update();
    let born = g.cells()[2 + 2 * 6];
    assert_eq!(born, Cell { alive: true, heat: 255 });
    let born_above = g.cells()[2];
    assert_eq!(born_above, Cell { alive: true, heat: 255 });
}

#[test]
fn neighbors_wrap_around_edges() {
    let g = grid_with(5, 4, &[(4, 3), (0, 3), (4, 0)]);
    assert_eq!(g.count_neighbors(0, 0), 3);
    assert_eq!(g.count_neighbors(2, 2), 0);
    assert_eq!(g.count_neighbors(4, 3), 2);
}

#[test]
fn blinker_across_the_edge() {
    let mut g = grid_with(5, 5, &[(4, 0), (0, 0), (1, 0)]);
    g.update();
    assert_eq!(alive_points(&g), vec![(0, 0), (0, 1), (0, 4)]);
}

#[test]
fn toggle_flips_cell() {
    let mut g = Grid::new_empty_grid(4, 4);
    assert!(g.toggle(1, 2));
    assert_eq!(g.cells()[1 + 2 * 4], Cell { alive: true, heat: 255 });
    assert!(!g.toggle(1, 2));
    assert_eq!(g.cells()[1 + 2 * 4], Cell { alive: false, heat: 255 });
}

#[test]
fn toggle_off_grid_changes_nothing() {
    let mut g = grid_with(4, 3, &[(0, 0), (3, 2)]);
    let before = g.cells().clone();
    for (x, y) in [(-1, 0), (0, -1), (4, 0), (0, 3), (isize::MIN, isize::MAX), (100, 100)] {
        assert!(!g.toggle(x, y));
        assert_eq!(g.cells(), &before);
    }
}

#[test]
fn grid_idx_bounds() {
    let g = Grid::new_empty_grid(4, 3);
    assert_eq!(g.grid_idx(0, 0), Some(0));
    assert_eq!(g.grid_idx(3, 2), Some(11));
    assert_eq!(g.grid_idx(1, 1), Some(5));
    assert_eq!(g.grid_idx(4, 0), None);
    assert_eq!(g.grid_idx(0, 3), None);
    assert_eq!(g.grid_idx(-1, 0), None);
}

#[test]
fn single_point_line_sets_one_cell() {
    let mut g = Grid::new_empty_grid(5, 5);
    g.set_line(0, 0, 0, 0, true);
    assert_eq!(alive_points(&g), vec![(0, 0)]);
    assert_eq!(g.cells()[0].heat, 255);
}

#[test]
fn line_off_grid_touches_nothing() {
    let mut g = grid_with(5, 4, &[(1, 1)]);
    let before = g.cells().clone();
    g.set_line(5, 1, 9, 3, true);
    assert_eq!(g.cells(), &before);
    g.set_line(2, 7, -3, 9, true);
    assert_eq!(g.cells(), &before);
    g.set_line(40, 40, 0, 0, true);
    assert_eq!(g.cells(), &before);
}

#[test]
fn diagonal_line_sets_each_point() {
    let mut g = Grid::new_empty_grid(5, 5);
    g.set_line(0, 0, 3, 3, true);
    assert_eq!(alive_points(&g), vec![(0, 0), (1, 1), (2, 2), (3, 3)]);
}

#[test]
fn steep_line_follows_bresenham() {
    let mut g = Grid::new_empty_grid(8, 8);
    g.set_line(0, 0, 5, 6, true);
    let mut pts = alive_points(&g);
    pts.sort();
    assert_eq!(pts, vec![(0, 0), (0, 1), (1, 2), (2, 3), (3, 4), (4, 5), (5, 6)]);
}

#[test]
fn line_stops_at_first_point_off_grid() {
    let mut g = Grid::new_empty_grid(5, 3);
    g.set_line(1, 1, 9, 1, true);
    assert_eq!(alive_points(&g), vec![(1, 1), (2, 1), (3, 1), (4, 1)]);
}

#[test]
fn line_start_is_clamped() {
    let mut g = Grid::new_empty_grid(5, 5);
    g.set_line(-4, 2, 2, 2, true);
    assert_eq!(alive_points(&g), vec![(0, 2), (1, 2), (2, 2)]);
}

#[test]
fn line_can_clear_cells() {
    let mut g = grid_with(5, 5, &[(0, 1), (1, 1), (2, 1), (4, 4)]);
    g.set_line(0, 1, 3, 1, false);
    assert_eq!(alive_points(&g), vec![(4, 4)]);
    // clearing keeps the heat, which then fades
    assert_eq!(g.cells()[5], Cell { alive: false, heat: 255 });
}

#[test]
fn randomly_kill_counts_transitions() {
    let mut g = Grid::new_empty_grid(16, 12);
    g.set_line(0, 0, 15, 11, true);
    g.set_line(0, 5, 15, 5, true);
    g.set_line(3, 0, 3, 11, true);
    let before = g.cells().clone();
    let killed = g.randomly_kill((0x0123_4567_89ab_cdef, 0x0fed_cba9_8765_4321));
    let after = g.cells().clone();
    let transitions = before.iter().zip(after.iter()).filter(|(b, a)| b.alive && !a.alive).count();
    assert_eq!(killed as usize, transitions);
    for (b, a) in before.iter().zip(after.iter()) {
        assert!(b.alive || !a.alive);
        assert_eq!(a.heat, b.heat);
    }
}

#[test]
fn randomly_kill_on_dead_grid_kills_nothing() {
    let mut g = Grid::new_empty_grid(6, 6);
    assert_eq!(g.randomly_kill((1, 3)), 0);
    assert!(alive_points(&g).is_empty());
}

#[test]
fn randomly_kill_is_repeatable_for_a_seed() {
    let mut a = grid_with(5, 5, &[(0, 0), (1, 1), (2, 2), (3, 3), (4, 4), (0, 4), (4, 0)]);
    let mut b = grid_with(5, 5, &[(0, 0), (1, 1), (2, 2), (3, 3), (4, 4), (0, 4), (4, 0)]);
    assert_eq!(a.randomly_kill((42, 7)), b.randomly_kill((42, 7)));
    assert_eq!(a.cells(), b.cells());
}

#[test]
fn randomize_leaves_fresh_cells() {
    let mut g = Grid::new_empty_grid(24, 16);
    g.randomize((11, 13), (17, 19));
    assert_eq!(g.cells().len(), 24 * 16);
    for c in g.cells().iter() {
        assert_eq!(*c, Cell::new(c.alive));
    }
}

#[test]
fn randomize_is_repeatable_for_seeds() {
    let mut a = Grid::new_empty_grid(20, 10);
    let mut b = Grid::new_empty_grid(20, 10);
    a.randomize((5, 6), (7, 8));
    b.randomize((5, 6), (7, 8));
    assert_eq!(a.cells(), b.cells());
}

#[test]
fn normalize_clears_dead_heat() {
    let mut g = grid_with(5, 5, &[(2, 2)]);
    g.update();
    assert_eq!(g.cells()[12].heat, 205);
    g.normalize(0, (3, 9));
    assert!(g.cells().iter().all(|c| c.alive || c.heat == 0));
}

#[test]
fn normalize_runs_generations() {
    let mut g = grid_with(5, 5, &[(2, 2)]);
    g.normalize(1, (3, 9));
    assert_eq!(g.cells().iter().filter(|c| **c == Cell { alive: false, heat: 0 }).count(), 25);
}

#[test]
fn draw_cold_dead_grid_is_uniform() {
    let g = Grid::new_empty_grid(4, 3);
    let mut screen = vec![7u8; 4 * 12];
    g.draw(&mut screen);
    for quad in screen.chunks_exact(4) {
        assert_eq!(quad, &[0, 0, 0, 0]);
    }
}

#[test]
fn draw_follows_cell_order() {
    let mut g = grid_with(3, 2, &[(1, 0)]);
    g.toggle(2, 1);
    g.toggle(2, 1);
    let mut screen = vec![0u8; 4 * 6];
    g.draw(&mut screen);
    assert_eq!(&screen[0..4], &[0, 0, 0, 0]);
    assert_eq!(&screen[4..8], &[50, 0, 255, 255]);
    assert_eq!(&screen[20..24], &[155, 0, 225, 225]);
}

#[test]
fn seed_words_come_from_each_half() {
    let bytes: [u8; 16] = [1, 2, 3, 4, 5, 6, 7, 8, 9, 10, 11, 12, 13, 14, 15, 16];
    let (a, b) = seed_from_entropy(&bytes);
    assert_eq!(a, u64::from_ne_bytes([1, 2, 3, 4, 5, 6, 7, 8]));
    assert_eq!(b, u64::from_ne_bytes([9, 10, 11, 12, 13, 14, 15, 16]));
}

#[test]
fn stream_draws_follow_the_generator() {
    let mut g = randomize::PCG32::from((0x1234_5678_9abc_def0u64, 0x0fed_cba9_8765_4321u64));
    let expected: Vec<u32> = (0..6).map(|_| g.next_u32()).collect();
    assert_eq!(stream_draws((0x1234_5678_9abc_def0, 0x0fed_cba9_8765_4321), 6), expected);
    assert!(stream_draws((1, 2), 0).is_empty());
}

#[test]
fn count_alive_counts() {
    let g = grid_with(4, 4, &[(0, 0), (3, 1), (2, 3)]);
    assert_eq!(g.count_alive(), 3);
    assert_eq!(Grid::new_empty_grid(3, 3).count_alive(), 0);
}

#[test]
fn cull_with_draws_uses_one_draw_per_alive_cell() {
    let above = ALIVE_THRESHOLD + 1;
    let below = ALIVE_THRESHOLD;
    let mut g = grid_with(4, 2, &[(1, 0), (3, 0), (0, 1), (2, 1)]);
    let killed = g.cull_with_draws(&vec![above, below, below, above]);
    assert_eq!(killed, 2);
    assert_eq!(alive_points(&g), vec![(3, 0), (0, 1)]);
    assert_eq!(g.cells()[1], Cell { alive: false, heat: 255 });
    assert_eq!(g.cells()[6], Cell { alive: false, heat: 255 });
}

#[test]
fn randomly_kill_matches_seeded_draws() {
    let seed = (99, 1234);
    let mut a = grid_with(6, 5, &[(0, 0), (1, 0), (5, 0), (2, 2), (3, 2), (4, 4), (0, 4), (1, 3)]);
    let mut b = grid_with(6, 5, &[(0, 0), (1, 0), (5, 0), (2, 2), (3, 2), (4, 4), (0, 4), (1, 3)]);
    let killed = a.randomly_kill(seed);
    let draws = stream_draws(seed, b.count_alive());
    assert_eq!(killed as usize, b.cull_with_draws(&draws));
    assert_eq!(a.cells(), b.cells());
}

#[test]
fn fill_with_draws_sets_fresh_cells() {
    let mut g = grid_with(3, 1, &[(0, 0)]);
    g.fill_with_draws(&vec![ALIVE_THRESHOLD, ALIVE_THRESHOLD + 1, 0x7f_ffff]);
    assert_eq!(
        g.cells(),
        &vec![Cell::new(false), Cell::new(true), Cell::new(true)]
    );
}

#[test]
fn randomize_is_fill_then_normalize() {
    let (seed, kill_seed) = ((21, 22), (23, 24));
    let mut a = Grid::new_empty_grid(12, 9);
    a.randomize(seed, kill_seed);
    let mut b = Grid::new_empty_grid(12, 9);
    b.fill_with_draws(&stream_draws(seed, 12 * 9));
    b.normalize(5, kill_seed);
    assert_eq!(a.cells(), b.cells());
}

#[test]
fn fill_from_stream_follows_threshold() {
    let seed = (5, 77);
    let draws = stream_draws(seed, 30);
    let mut g = Grid::new_empty_grid(6, 5);
    g.fill_with_draws(&draws);
    for (c, u) in g.cells().iter().zip(draws.iter()) {
        assert_eq!(c.alive, draw_exceeds_threshold(*u));
    }
}
