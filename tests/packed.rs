use rusty_life::packed::next_word;
use rusty_life::rule::rule;

fn cell(t: (u16, u16, u16), j: i32) -> bool {
    if j < 0 {
        t.0 & 1 == 1
    } else if j >= 16 {
        (t.2 >> 15) & 1 == 1
    } else {
        (t.1 >> (15 - j)) & 1 == 1
    }
}

fn scalar(above: (u16, u16, u16), row: (u16, u16, u16), below: (u16, u16, u16)) -> u16 {
    let mut out = 0u16;
    for j in 0..16i32 {
        let mut n = 0u8;
        for d in -1..=1 {
            n += cell(above, j + d) as u8 + cell(below, j + d) as u8;
            if d != 0 {
                n += cell(row, j + d) as u8;
            }
        }
        if rule(cell(row, j), n) {
            out |= 1 << (15 - j);
        }
    }
    out
}

#[test]
fn rule_table() {
    for n in 0..=8u8 {
        assert_eq!(rule(true, n), n == 2 || n == 3);
        assert_eq!(rule(false, n), n == 3);
    }
}

#[test]
fn word_rule_matches_scalar_rule_on_random_triplets() {
    let mut seed: u64 = 0x9e37_79b9_7f4a_7c15;
    let mut next = || {
        seed ^= seed << 13;
        seed ^= seed >> 7;
        seed ^= seed << 17;
        (seed >> 16) as u16
    };
    for _ in 0..1000 {
        let a = (next(), next(), next());
        let r = (next(), next(), next());
        let b = (next(), next(), next());
        assert_eq!(next_word(a, r, b), scalar(a, r, b));
    }
}

#[test]
fn word_rule_edge_words() {
    let all = (0xffffu16, 0xffffu16, 0xffffu16);
    let none = (0u16, 0u16, 0u16);
    assert_eq!(next_word(none, none, none), 0);
    assert_eq!(next_word(all, all, all), 0);
    // A vertical blinker in the first column: that column survives and the
    // next one is born; the same at the last column, fed from the right word.
    let first = (0u16, 0x8000u16, 0u16);
    assert_eq!(next_word(first, first, first), 0xc000);
    let beyond = (0u16, 0u16, 0x8000u16);
    assert_eq!(next_word(beyond, beyond, beyond), 0x0001);
    let before = (0x0001u16, 0u16, 0u16);
    assert_eq!(next_word(before, before, before), 0x8000);
}
