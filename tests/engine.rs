use rusty_life::engine::Engine;
use rusty_life::partition::ConfigError;

fn live_cells(e: &Engine, cols: u32, rows: u32) -> Vec<(u32, u32)> {
    let mut v = Vec::new();
    for r in 0..rows {
        for c in 0..cols {
            if e.get_cell(c, r) {
                v.push((c, r));
            }
        }
    }
    v
}

fn engine_with(cols: u32, rows: u32, workers: u32, cells: &[(u32, u32)]) -> Engine {
    let mut e = Engine::new(cols, rows, workers).unwrap();
    for &(c, r) in cells {
        e.set_cell(c, r, true);
    }
    e
}

#[test]
fn config_rejects_non_square_worker_count() {
    assert!(matches!(Engine::new(100, 100, 5), Err(ConfigError::WorkerCountNotSquare)));
    assert!(matches!(Engine::new(100, 100, 0), Err(ConfigError::WorkerCountNotSquare)));
}

#[test]
fn config_rejects_grid_too_small() {
    assert!(matches!(Engine::new(3, 4, 16), Err(ConfigError::GridTooSmall)));
    assert!(matches!(Engine::new(4, 3, 16), Err(ConfigError::GridTooSmall)));
    assert!(Engine::new(4, 4, 16).is_ok());
}

#[test]
fn new_engine_is_empty() {
    let e = Engine::new(20, 10, 4).unwrap();
    assert_eq!(e.generation(), 0);
    assert_eq!(e.live_count(), 0);
    assert_eq!(e.worker_count(), 4);
}

#[test]
fn set_cell_out_of_range_is_ignored() {
    let mut e = Engine::new(8, 8, 4).unwrap();
    e.set_cell(8, 0, true);
    e.set_cell(0, 8, true);
    assert_eq!(e.live_count(), 0);
    assert!(!e.get_cell(8, 0));
    e.set_cell(3, 5, true);
    assert!(e.get_cell(3, 5));
    assert_eq!(e.live_count(), 1);
    e.set_cell(3, 5, true);
    assert_eq!(e.live_count(), 1);
    e.set_cell(3, 5, false);
    assert!(!e.get_cell(3, 5));
    assert_eq!(e.live_count(), 0);
}

#[test]
fn lone_cell_dies() {
    let mut e = engine_with(10, 10, 1, &[(5, 5)]);
    e.step();
    assert_eq!(e.live_count(), 0);
    assert_eq!(e.generation(), 1);
}

#[test]
fn block_is_still_for_100_generations() {
    for &(c, r) in &[(4u32, 4u32), (9, 9), (0, 0)] {
        let block = [(c, r), ((c + 1) % 12, r), (c, (r + 1) % 12), ((c + 1) % 12, (r + 1) % 12)];
        let mut e = engine_with(12, 12, 4, &block);
        let start = live_cells(&e, 12, 12);
        for _ in 0..100 {
            e.step();
            assert_eq!(live_cells(&e, 12, 12), start);
        }
        assert_eq!(e.generation(), 100);
    }
}

#[test]
fn blinker_has_period_two() {
    let horizontal = vec![(4, 5), (5, 5), (6, 5)];
    let vertical = vec![(5, 4), (5, 5), (5, 6)];
    let mut e = engine_with(11, 11, 9, &horizontal);
    for g in 1..=50 {
        e.step();
        let expected = if g % 2 == 1 { &vertical } else { &horizontal };
        assert_eq!(&live_cells(&e, 11, 11), expected);
    }
}

fn glider_at(c: u32, r: u32, cols: u32, rows: u32) -> Vec<(u32, u32)> {
    let shape = [(1, 0), (2, 1), (0, 2), (1, 2), (2, 2)];
    let mut v: Vec<(u32, u32)> = shape.iter().map(|&(x, y)| ((c + x) % cols, (r + y) % rows)).collect();
    v.sort_by_key(|&(x, y)| (y, x));
    v
}

#[test]
fn glider_crosses_patch_borders_for_any_worker_count() {
    for &workers in &[1u32, 4, 9] {
        // 9 workers on 30 x 30 use patches 10 cells wide; 4 use 15.
        for &(c, r) in &[(8u32, 8u32), (13, 13), (28, 28)] {
            let mut e = engine_with(30, 30, workers, &glider_at(c, r, 30, 30));
            for k in 1..=3u32 {
                for _ in 0..4 {
                    e.step();
                }
                assert_eq!(live_cells(&e, 30, 30), glider_at(c + k, r + k, 30, 30), "workers {}", workers);
            }
        }
    }
}

#[test]
fn shifting_commutes_with_stepping() {
    let cells = [(1u32, 1u32), (2, 1), (3, 1), (7, 3), (7, 4), (8, 4), (0, 6), (9, 6), (9, 7)];
    let mut a = engine_with(10, 8, 4, &cells);
    let shifted: Vec<(u32, u32)> = cells.iter().map(|&(c, r)| ((c + 1) % 10, r)).collect();
    let mut b = engine_with(10, 8, 4, &shifted);
    for _ in 0..5 {
        a.step();
        b.step();
        let moved: Vec<(u32, u32)> = {
            let mut v: Vec<(u32, u32)> = live_cells(&a, 10, 8).iter().map(|&(c, r)| ((c + 1) % 10, r)).collect();
            v.sort_by_key(|&(x, y)| (y, x));
            v
        };
        assert_eq!(live_cells(&b, 10, 8), moved);
    }
}

#[test]
fn corners_are_neighbours_on_the_torus() {
    // Three corner cells bring the fourth to life; the four form a block.
    let mut e = engine_with(6, 6, 1, &[(0, 0), (5, 0), (0, 5)]);
    e.step();
    assert_eq!(live_cells(&e, 6, 6), vec![(0, 0), (5, 0), (0, 5), (5, 5)]);
}

#[test]
fn worker_counts_agree_on_a_random_soup() {
    let mut seed: u64 = 12345;
    let mut cells = Vec::new();
    for _ in 0..300 {
        seed = seed.wrapping_mul(6364136223846793005).wrapping_add(1442695040888963407);
        let c = ((seed >> 33) % 36) as u32;
        let r = ((seed >> 13) % 27) as u32;
        cells.push((c, r));
    }
    let mut engines: Vec<Engine> = [1u32, 4, 9].iter().map(|&w| engine_with(36, 27, w, &cells)).collect();
    for _ in 0..30 {
        for e in engines.iter_mut() {
            e.step();
        }
        let first = live_cells(&engines[0], 36, 27);
        for e in &engines[1..] {
            assert_eq!(live_cells(e, 36, 27), first);
            assert_eq!(e.live_count(), first.len());
        }
    }
}

#[test]
fn coordinates_and_indices_round_trip() {
    let e = Engine::new(7, 5, 1).unwrap();
    assert_eq!(e.coord_to_index(0, 0), 0);
    assert_eq!(e.coord_to_index(6, 0), 6);
    assert_eq!(e.coord_to_index(2, 3), 23);
    assert_eq!(e.index_to_coord(23), (2, 3));
    assert_eq!(e.index_to_coord(34), (6, 4));
    for i in 0..35usize {
        let (c, r) = e.index_to_coord(i);
        assert_eq!(e.coord_to_index(c, r), i);
    }
}
