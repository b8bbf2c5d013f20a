use rusty_life::engine::Engine;
use rusty_life::grid::Grid;
use rusty_life::grid_alternative::Grid as ColumnGrid;
use rusty_life::partition::ConfigError;

#[test]
fn packed_grid_configuration() {
    assert!(matches!(Grid::new((20, 16)), Err(ConfigError::WidthNotWordAligned)));
    assert!(matches!(Grid::new((0, 16)), Err(ConfigError::GridTooSmall)));
    assert!(matches!(Grid::new((16, 0)), Err(ConfigError::GridTooSmall)));
    let g = Grid::new((32, 8)).unwrap();
    assert_eq!(g.cells.len(), 16);
    assert_eq!(g.num_cols, 32);
    assert_eq!(g.num_rows, 8);
}

#[test]
fn packed_grid_bit_layout() {
    let mut g = Grid::new((32, 2)).unwrap();
    g.set_cell(0, 0, true);
    g.set_cell(17, 1, true);
    assert_eq!(g.cells, vec![0x8000, 0, 0, 0x4000]);
    assert!(g.get_cell(0, 0));
    assert!(g.get_cell(17, 1));
    assert!(!g.get_cell(1, 0));
    g.set_cell(32, 0, true);
    g.set_cell(0, 2, true);
    assert_eq!(g.cells, vec![0x8000, 0, 0, 0x4000]);
    g.set_cell(0, 0, false);
    assert_eq!(g.cells, vec![0, 0, 0, 0x4000]);
}

#[test]
fn packed_grid_blinker_across_word_and_edge() {
    for &c in &[15usize, 0, 31] {
        let mut g = Grid::new((32, 16)).unwrap();
        for d in 0..3 {
            g.set_cell((c + 31 + d) % 32, 7, true);
        }
        g.run_lifecycle();
        for r in 0..16 {
            for x in 0..32 {
                let expected = x == c && (6..=8).contains(&r);
                assert_eq!(g.get_cell(x, r), expected, "cell {} {}", x, r);
            }
        }
        g.run_lifecycle();
        for d in 0..3 {
            assert!(g.get_cell((c + 31 + d) % 32, 7));
        }
    }
}

#[test]
fn packed_grid_agrees_with_engine() {
    let mut g = Grid::new((32, 20)).unwrap();
    let mut e = Engine::new(32, 20, 4).unwrap();
    let mut seed: u64 = 777;
    for _ in 0..250 {
        seed = seed.wrapping_mul(6364136223846793005).wrapping_add(1);
        let c = ((seed >> 33) % 32) as u32;
        let r = ((seed >> 17) % 20) as u32;
        g.set_cell(c as usize, r as usize, true);
        e.set_cell(c, r, true);
    }
    for _ in 0..25 {
        g.run_lifecycle();
        e.step();
        for r in 0..20u32 {
            for c in 0..32u32 {
                assert_eq!(g.get_cell(c as usize, r as usize), e.get_cell(c, r));
            }
        }
    }
}

#[test]
fn column_grid_rule_and_bounds() {
    let mut g = ColumnGrid::new((5, 4));
    assert_eq!(g.cells.len(), 5);
    assert_eq!(g.cells[0].len(), 4);
    g.set_cell(1, 1, true);
    g.set_cell(2, 1, true);
    g.set_cell(3, 1, true);
    assert!(g.cell(2, 1));
    assert!(!g.cell(2, 2));
    assert!(!g.cell(5, 0));
    assert_eq!(g.rule_result(2, 0), Some(true));
    assert_eq!(g.rule_result(2, 2), Some(true));
    assert_eq!(g.rule_result(1, 1), Some(false));
    assert_eq!(g.rule_result(2, 1), Some(true));
    assert_eq!(g.rule_result(5, 0), None);
    assert_eq!(g.rule_result(0, 4), None);
    g.set_cell(9, 9, true);
    g.set_cell(2, 1, false);
    assert!(!g.cell(2, 1));
}

#[test]
fn column_grid_wraps_at_corners() {
    let mut g = ColumnGrid::new((4, 3));
    g.set_cell(3, 2, true);
    g.set_cell(0, 2, true);
    g.set_cell(3, 0, true);
    assert_eq!(g.rule_result(0, 0), Some(true));
    assert_eq!(g.rule_result(1, 1), Some(false));
}

#[test]
fn packed_grid_word_access() {
    let mut g = Grid::new((32, 3)).unwrap();
    g.set_word(3, 0x8001);
    assert_eq!(g.get_word(3), 0x8001);
    assert!(g.get_cell(16, 1));
    assert!(g.get_cell(31, 1));
    assert!(!g.get_cell(17, 1));
    assert_eq!(g.get_word(2), 0);
}
