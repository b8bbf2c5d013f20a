use rusty_life::rle::parse_rle;

fn lines(text: &[&str]) -> Vec<Vec<u8>> {
    text.iter().map(|l| l.as_bytes().to_vec()).collect()
}

#[test]
fn decodes_a_glider_with_header() {
    let p = parse_rle(&lines(&["#N Glider", "#O Richard K. Guy", "#C a comment", "x = 3, y = 3, rule = B3/S23", "bob$2bo$3o!"])).unwrap();
    assert_eq!(p.pattern, vec![(1, 0), (2, 1), (0, 2), (1, 2), (2, 2)]);
    assert_eq!((p.width, p.height), (3, 3));
    assert_eq!(p.name, " Glider");
    assert_eq!(p.author, " Richard K. Guy");
}

#[test]
fn counts_rows_and_whitespace() {
    let p = parse_rle(&lines(&["  x=4,y=5  ", "2o 2b$", "3$ o", "1 2o!"])).unwrap();
    assert_eq!((p.width, p.height), (4, 5));
    assert_eq!(p.pattern, vec![(0, 0), (1, 0), (0, 4), (1, 4), (2, 4), (3, 4), (4, 4), (5, 4), (6, 4), (7, 4), (8, 4), (9, 4), (10, 4), (11, 4), (12, 4)]);
}

#[test]
fn count_does_not_carry_across_lines() {
    let p = parse_rle(&lines(&["x = 2, y = 1", "2", "o!"])).unwrap();
    assert_eq!(p.pattern, vec![(0, 0)]);
    assert_eq!(p.name, "");
}

#[test]
fn bang_ends_the_pattern() {
    let p = parse_rle(&lines(&["x = 1, y = 1", "o!", "this line is never read"])).unwrap();
    assert_eq!(p.pattern, vec![(0, 0)]);
}

#[test]
fn missing_bang_is_accepted() {
    let p = parse_rle(&lines(&["x = 1, y = 2", "o$o"])).unwrap();
    assert_eq!(p.pattern, vec![(0, 0), (0, 1)]);
}

#[test]
fn malformed_files_are_rejected() {
    assert!(parse_rle(&lines(&["x = 3, y = 3", "bqo!"])).is_none());
    assert!(parse_rle(&lines(&["x = 3"])).is_none());
    assert!(parse_rle(&lines(&["x = a, y = 3"])).is_none());
    assert!(parse_rle(&lines(&["x = 3, y = 3", "99999999999999999999999o!"])).is_none());
    assert!(parse_rle(&lines(&["x = +3, y = 3", "o!"])).is_some());
}

#[test]
fn body_needs_a_header() {
    let p = parse_rle(&lines(&["bo$o!"])).unwrap();
    assert!(p.pattern.is_empty());
    assert_eq!((p.width, p.height), (0, 0));
}
