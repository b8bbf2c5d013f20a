use rusty_life::input::{InputMap, Key};
use rusty_life::grid::Grid;
use rusty_life::session::{padded, seed, seed_glider_armada, viewer_frame, RustyLife, SimStatus, Statistics};

#[test]
fn statistics_start_paused() {
    let s = Statistics::new();
    assert_eq!(s.sim_step_ms, 10);
    assert_eq!(s.generation, 0);
    assert!(s.rendering);
    assert_eq!(s.sim_status, SimStatus::PAUSED);
    assert_eq!(s.sim_status.label(), "PAUSED");
    assert_eq!(SimStatus::RUNNING.label(), "RUNNING");
}

#[test]
fn board_sides_round_up_to_sixteen() {
    assert_eq!(padded(48), 48);
    assert_eq!(padded(1), 16);
    assert_eq!(padded(17), 32);
    assert_eq!(padded(31), 32);
}

#[test]
fn new_session_is_seeded() {
    let s = RustyLife::new((20, 5), (800, 600));
    assert_eq!(s.grid.num_cols, 32);
    assert_eq!(s.grid.num_rows, 16);
    assert_eq!(s.stats.board_width, 32);
    assert_eq!(s.stats.resolution_height, 600);
    assert!(s.grid.cells.iter().any(|&w| w != 0));
}

fn press(keys: &[Key], held: &[Key]) -> InputMap {
    let mut m = InputMap::new();
    for &k in held {
        m.key_down(k);
    }
    m.begin_frame();
    for &k in keys {
        m.key_down(k);
    }
    m
}

#[test]
fn input_map_tracks_presses_and_holds() {
    let mut m = InputMap::new();
    m.key_down(Key::W);
    assert!(m.pressed(Key::W) && m.held(Key::W));
    m.begin_frame();
    m.key_down(Key::W);
    assert!(!m.pressed(Key::W) && m.held(Key::W));
    m.key_up(Key::W);
    assert!(!m.held(Key::W));
    m.mouse_wheel(1);
    assert!(m.pressed(Key::MouseWheelUp));
    m.mouse_wheel(0);
    assert!(!m.pressed(Key::MouseWheelUp) && !m.pressed(Key::MouseWheelDown));
    m.set_mouse_motion(3, -4);
    assert_eq!((m.mouse_x_dt, m.mouse_y_dt), (3, -4));
}

#[test]
fn frame_keys_change_the_session() {
    let mut s = RustyLife::new((16, 16), (640, 480));
    let out = s.handle_frame(&press(&[Key::R, Key::SPACE], &[]), 0);
    assert!(out.keep_running && !out.restart_timer);
    assert!(!s.stats.rendering);
    assert_eq!(s.stats.sim_status, SimStatus::RUNNING);
    s.handle_frame(&press(&[Key::NumPLUS], &[Key::LSHIFT]), 0);
    assert_eq!(s.stats.sim_step_ms, 20);
    s.handle_frame(&press(&[Key::NumMINUS], &[]), 0);
    assert_eq!(s.stats.sim_step_ms, 19);
    let out = s.handle_frame(&press(&[Key::ESC], &[]), 5);
    assert!(!out.keep_running);
    assert_eq!(s.stats.generation, 0);
}

#[test]
fn frame_steps_on_n_and_on_time() {
    let mut s = RustyLife::new((16, 16), (640, 480));
    let before = s.grid.cells.clone();
    let out = s.handle_frame(&press(&[Key::N], &[]), 1000);
    assert!(!out.restart_timer);
    assert_eq!(s.stats.generation, 1);
    let mut g = Grid::new((16, 16)).unwrap();
    g.cells = before;
    g.run_lifecycle();
    assert_eq!(s.grid.cells, g.cells);
    s.handle_frame(&press(&[Key::SPACE], &[]), 9);
    assert_eq!(s.stats.generation, 1);
    let out = s.handle_frame(&press(&[], &[]), 10);
    assert!(out.restart_timer);
    assert_eq!(s.stats.generation, 2);
}

fn live(g: &Grid) -> usize {
    g.cells.iter().map(|w| w.count_ones() as usize).sum()
}

#[test]
fn seeding_makes_exactly_the_drawn_cells_alive() {
    let mut g = Grid::new((16, 16)).unwrap();
    seed(&mut g, &vec![(3, 4), (3, 4), (15, 15), (16, 0), (0, 16)]);
    assert_eq!(live(&g), 2);
    assert!(g.get_cell(3, 4) && g.get_cell(15, 15));
    seed(&mut g, &vec![]);
    assert_eq!(live(&g), 2);
}

#[test]
fn new_session_live_count_is_bounded() {
    for _ in 0..5 {
        let s = RustyLife::new((16, 16), (10, 10));
        let n = live(&s.grid);
        assert!(n >= 1 && n <= 128);
    }
}

#[test]
fn glider_armada_fills_from_the_corner() {
    let mut g = Grid::new((16, 16)).unwrap();
    seed_glider_armada(&mut g);
    let expected = [(0, 2), (1, 2), (2, 2), (2, 1), (1, 0)];
    for r in 0..16 {
        for c in 0..16 {
            let in_fleet = expected.iter().any(|&(dx, dy)| c % 7 == dx && r % 5 == dy);
            assert_eq!(g.get_cell(c, r), in_fleet, "cell {} {}", c, r);
        }
    }
}

#[test]
fn viewer_frame_steps_and_toggles() {
    let mut g = Grid::new((16, 16)).unwrap();
    for c in 4..7 {
        g.set_cell(c, 5, true);
    }
    let f = viewer_frame(&mut g, true, false, true, true, 3);
    assert!(f.keep_running && !f.rendering && !f.restart_timer);
    assert!(g.get_cell(5, 4) && g.get_cell(5, 6) && !g.get_cell(4, 5));
    let f = viewer_frame(&mut g, false, true, false, true, 10);
    assert!(!f.keep_running && !f.rendering && f.restart_timer);
    assert!(g.get_cell(5, 4) && !g.get_cell(4, 5));
}
