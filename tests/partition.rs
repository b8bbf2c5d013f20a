use rusty_life::partition::{partition, ConfigError, Patch};

fn check_exact_cover(cols: u32, rows: u32, workers: u32) {
    let patches = partition(cols, rows, workers).unwrap();
    assert_eq!(patches.len(), workers as usize);
    let area: u64 = patches
        .iter()
        .map(|p| (p.col_end - p.col_start) as u64 * (p.row_end - p.row_start) as u64)
        .sum();
    assert_eq!(area, cols as u64 * rows as u64);
    let mut hits = vec![0u32; (cols * rows) as usize];
    for p in &patches {
        for r in p.row_start..p.row_end {
            for c in p.col_start..p.col_end {
                hits[(r * cols + c) as usize] += 1;
            }
        }
    }
    assert!(hits.iter().all(|&h| h == 1));
}

#[test]
fn patches_cover_the_grid_once() {
    for &(c, r, w) in &[(10u32, 10u32, 1u32), (10, 10, 4), (10, 7, 9), (31, 17, 16), (5, 5, 25), (100, 3, 9)] {
        check_exact_cover(c, r, w);
    }
}

#[test]
fn patches_are_row_major_and_last_absorbs_remainder() {
    let p = partition(10, 7, 4).unwrap();
    assert_eq!(p[0], Patch { col_start: 0, col_end: 5, row_start: 0, row_end: 3 });
    assert_eq!(p[1], Patch { col_start: 5, col_end: 10, row_start: 0, row_end: 3 });
    assert_eq!(p[2], Patch { col_start: 0, col_end: 5, row_start: 3, row_end: 7 });
    assert_eq!(p[3], Patch { col_start: 5, col_end: 10, row_start: 3, row_end: 7 });
    let q = partition(11, 9, 9).unwrap();
    assert_eq!(q[2], Patch { col_start: 6, col_end: 11, row_start: 0, row_end: 3 });
    assert_eq!(q[8], Patch { col_start: 6, col_end: 11, row_start: 6, row_end: 9 });
}

#[test]
fn partition_errors() {
    assert_eq!(partition(100, 100, 5), Err(ConfigError::WorkerCountNotSquare));
    assert_eq!(partition(100, 100, 0), Err(ConfigError::WorkerCountNotSquare));
    assert_eq!(partition(3, 4, 16), Err(ConfigError::GridTooSmall));
    assert_eq!(partition(2, 100, 9), Err(ConfigError::GridTooSmall));
    assert_eq!(partition(100, 100, u32::MAX), Err(ConfigError::WorkerCountNotSquare));
    assert_eq!(partition(100, 100, 65535 * 65535), Err(ConfigError::GridTooSmall));
}
