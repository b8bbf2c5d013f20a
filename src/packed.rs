//! Word-parallel evaluation of the rule: sixteen horizontally adjacent cells
//! packed in a `u16`, the leftmost cell in the most significant bit.
use vstd::prelude::*;
use crate::board::life_rule;

verus! {

/// Bit `i` of `w`, counting from the least significant.
pub open spec fn word_bit(w: u16, i: int) -> bool {
    ((w as u64) >> (i as u64)) & 1 == 1
}

/// Three horizontally adjacent words of one row: the word to the left, the
/// word itself, and the word to the right.
pub type Triplet = (u16, u16, u16);

/// The cell at column `j` of the middle word of `t`, for `-1 <= j <= 16`:
/// column `-1` is the last cell of the left word, column `16` the first cell
/// of the right word.
pub open spec fn triplet_cell(t: Triplet, j: int) -> bool {
    if j < 0 {
        word_bit(t.0, 0)
    } else if j >= 16 {
        word_bit(t.2, 15)
    } else {
        word_bit(t.1, 15 - j)
    }
}

pub open spec fn triplet_bit(t: Triplet, j: int) -> int {
    if triplet_cell(t, j) {
        1
    } else {
        0
    }
}

/// Number of live neighbours of column `j` of the middle row.
pub open spec fn triplet_count(above: Triplet, row: Triplet, below: Triplet, j: int) -> int {
    triplet_bit(above, j - 1) + triplet_bit(above, j) + triplet_bit(above, j + 1) + triplet_bit(
        row,
        j - 1,
    ) + triplet_bit(row, j + 1) + triplet_bit(below, j - 1) + triplet_bit(below, j)
        + triplet_bit(below, j + 1)
}

/// The rule applied on its own to column `j` of the middle row.
pub open spec fn triplet_rule(above: Triplet, row: Triplet, below: Triplet, j: int) -> bool {
    life_rule(triplet_cell(row, j), triplet_count(above, row, below, j))
}

/// The 48 cells of a triplet side by side in one integer: column `j` of the
/// middle word at bit `31 - j`.
pub open spec fn super_word(t: Triplet) -> u64 {
    ((t.0 as u64) << 32u64) | ((t.1 as u64) << 16u64) | (t.2 as u64)
}

pub open spec fn bit64(x: u64, i: u64) -> u64 {
    (x >> i) & 1
}

proof fn lemma_super_word_bits(l: u16, m: u16, r: u16, p: u64)
    requires
        15 <= p <= 32,
    ensures
        p == 32 ==> bit64(super_word((l, m, r)), p) == bit64(l as u64, 0),
        16 <= p <= 31 ==> bit64(super_word((l, m, r)), p) == bit64(m as u64, (p - 16) as u64),
        p == 15 ==> bit64(super_word((l, m, r)), p) == bit64(r as u64, 15),
        super_word((l, m, r)) < 0x1_0000_0000_0000,
{
    let s = super_word((l, m, r));
    assert(p == 32 ==> bit64(((l as u64) << 32u64) | ((m as u64) << 16u64) | (r as u64), p) == bit64(l as u64, 0)) by (bit_vector)
        requires 15 <= p <= 32;
    assert(16 <= p <= 31 ==> bit64(((l as u64) << 32u64) | ((m as u64) << 16u64) | (r as u64), p) == bit64(m as u64, (p - 16) as u64)) by (bit_vector)
        requires 15 <= p <= 32;
    assert(p == 15 ==> bit64(((l as u64) << 32u64) | ((m as u64) << 16u64) | (r as u64), p) == bit64(r as u64, 15)) by (bit_vector)
        requires 15 <= p <= 32;
    assert(((l as u64) << 32u64) | ((m as u64) << 16u64) | (r as u64) < 0x1_0000_0000_0000) by (bit_vector);
}

/// Bit `31 - j` of the super word is the triplet's cell at column `j`.
proof fn lemma_super_word_cell(t: Triplet, j: int)
    requires
        -1 <= j <= 16,
    ensures
        bit64(super_word(t), (31 - j) as u64) == triplet_bit(t, j),
        super_word(t) < 0x1_0000_0000_0000,
{
    lemma_super_word_bits(t.0, t.1, t.2, (31 - j) as u64);
    let (l, m, r) = t;
    if j < 0 {
        assert(bit64(l as u64, 0) == 1 || bit64(l as u64, 0) == 0) by (bit_vector);
    } else if j >= 16 {
        assert(bit64(r as u64, 15) == 1 || bit64(r as u64, 15) == 0) by (bit_vector);
    } else {
        let q = (15 - j) as u64;
        assert(bit64(m as u64, q) == 1 || bit64(m as u64, q) == 0) by (bit_vector);
    }
}

/// Shifting left by `k` moves bit `p - k` to bit `p`.
proof fn lemma_shifted_bit(s: u64, k: u64, p: u64)
    requires
        s < 0x1_0000_0000_0000,
        k <= 16,
        k <= p <= 63,
    ensures
        bit64(s << k, p) == bit64(s, (p - k) as u64),
{
    assert(bit64(s << k, p) == bit64(s, (p - k) as u64)) by (bit_vector)
        requires s < 0x1_0000_0000_0000, k <= 16, k <= p <= 63;
}

/// The masked sum of the three rows, folded as a carry-save pair, counts the
/// eight neighbour bits around bit 31.
proof fn lemma_count(a: u64, u: u64, b: u64)
    ensures
        ({
            let x = (((a & 0x1_4000_0000) + (u & 0x1_4000_0000) + (b & 0x1_4000_0000)) as u64) >> 30u64;
            (x & 3) + (x >> 2u64) + ((a >> 31u64) & 1) + ((b >> 31u64) & 1)
        }) == bit64(a, 32) + bit64(a, 31) + bit64(a, 30) + bit64(u, 32) + bit64(u, 30) + bit64(b, 32)
            + bit64(b, 31) + bit64(b, 30),
        (a & 0x1_4000_0000) <= 0x1_4000_0000,
        (u & 0x1_4000_0000) <= 0x1_4000_0000,
        (b & 0x1_4000_0000) <= 0x1_4000_0000,
        ({
            let x = (((a & 0x1_4000_0000) + (u & 0x1_4000_0000) + (b & 0x1_4000_0000)) as u64) >> 30u64;
            (x & 3) + (x >> 2u64) <= 6
        }),
        (a >> 31u64) & 1 <= 1,
        (b >> 31u64) & 1 <= 1,
{
    assert(({
        let x = (((a & 0x1_4000_0000) + (u & 0x1_4000_0000) + (b & 0x1_4000_0000)) as u64) >> 30u64;
        (x & 3) + (x >> 2u64) <= 6
    })) by (bit_vector);
    assert((a >> 31u64) & 1 <= 1) by (bit_vector);
    assert((b >> 31u64) & 1 <= 1) by (bit_vector);
    assert(({
        let x = (((a & 0x1_4000_0000) + (u & 0x1_4000_0000) + (b & 0x1_4000_0000)) as u64) >> 30u64;
        (x & 3) + (x >> 2u64) + ((a >> 31u64) & 1) + ((b >> 31u64) & 1)
    }) == ((a >> 32u64) & 1) + ((a >> 31u64) & 1) + ((a >> 30u64) & 1) + ((u >> 32u64) & 1) + ((u >> 30u64) & 1)
        + ((b >> 32u64) & 1) + ((b >> 31u64) & 1) + ((b >> 30u64) & 1)) by (bit_vector);
    assert((a & 0x1_4000_0000) <= 0x1_4000_0000) by (bit_vector);
    assert((u & 0x1_4000_0000) <= 0x1_4000_0000) by (bit_vector);
    assert((b & 0x1_4000_0000) <= 0x1_4000_0000) by (bit_vector);
}

/// Appending a bit at the low end keeps the earlier bits one place higher.
proof fn lemma_push_bit(result: u64, k: u64, v: u64)
    requires
        k < 16,
        result < (1u64 << k),
        v <= 1,
    ensures
        ((result << 1u64) | v) < (1u64 << ((k + 1) as u64)),
        bit64((result << 1u64) | v, 0) == v,
        forall|i: u64| i < k ==> #[trigger] bit64((result << 1u64) | v, (i + 1) as u64) == bit64(result, i),
{
    assert(((result << 1u64) | v) < (1u64 << ((k + 1) as u64))) by (bit_vector)
        requires k < 16, result < (1u64 << k), v <= 1;
    assert(bit64((result << 1u64) | v, 0) == v) by (bit_vector)
        requires v <= 1;
    assert forall|i: u64| i < k implies #[trigger] bit64((result << 1u64) | v, (i + 1) as u64) == bit64(result, i) by {
        assert(bit64((result << 1u64) | v, (i + 1) as u64) == bit64(result, i)) by (bit_vector)
            requires i < k, k < 16, v <= 1;
    }
}

/// Computes the next state of the sixteen cells of the middle word of `row`
/// from the rows above and below. Each row's three words are laid side by
/// side in one integer; the loop then walks the sixteen cells from the
/// left, adding up each cell's neighbours with two masks and a carry-save
/// sum, and shifts the outcome in at the low end of the result.
pub fn next_word(above: Triplet, row: Triplet, below: Triplet) -> (r: u16)
    ensures
        forall|j: int| 0 <= j < 16 ==> word_bit(r, 15 - j) == #[trigger] triplet_rule(above, row, below, j),
{
    let m1: u64 = 0x8000_0000;
    let m2: u64 = 0x1_4000_0000;
    let sa = ((above.0 as u64) << 32u64) | ((above.1 as u64) << 16u64) | (above.2 as u64);
    let su = ((row.0 as u64) << 32u64) | ((row.1 as u64) << 16u64) | (row.2 as u64);
    let sb = ((below.0 as u64) << 32u64) | ((below.1 as u64) << 16u64) | (below.2 as u64);
    proof {
        lemma_super_word_cell(above, 0);
        lemma_super_word_cell(row, 0);
        lemma_super_word_cell(below, 0);
        assert(sa << 0u64 == sa && su << 0u64 == su && sb << 0u64 == sb) by (bit_vector);
        assert(0u64 < (1u64 << 0u64)) by (bit_vector);
    }
    let mut a = sa;
    let mut u = su;
    let mut b = sb;
    let mut result: u64 = 0;
    let mut k: u64 = 0;
    while k < 16
        invariant
            k <= 16,
            m1 == 0x8000_0000,
            m2 == 0x1_4000_0000,
            sa == super_word(above),
            su == super_word(row),
            sb == super_word(below),
            sa < 0x1_0000_0000_0000,
            su < 0x1_0000_0000_0000,
            sb < 0x1_0000_0000_0000,
            a == sa << k,
            u == su << k,
            b == sb << k,
            result < (1u64 << k),
            forall|j: u64|
                j < k ==> #[trigger] bit64(result, (k - 1 - j) as u64) == if triplet_rule(
                    above,
                    row,
                    below,
                    j as int,
                ) {
                    1u64
                } else {
                    0u64
                },
        decreases 16 - k,
    {
        proof {
            lemma_count(a, u, b);
        }
        let mut alive = (a & m2) + (u & m2) + (b & m2);
        alive = alive >> 30u64;
        alive = (alive & 3) + (alive >> 2u64) + ((a >> 31u64) & 1) + ((b >> 31u64) & 1);
        let ghost j = k as int;
        proof {
            let tc = triplet_count(above, row, below, j);
            lemma_shifted_bit(sa, k, 32);
            lemma_shifted_bit(sa, k, 31);
            lemma_shifted_bit(sa, k, 30);
            lemma_shifted_bit(su, k, 32);
            lemma_shifted_bit(su, k, 31);
            lemma_shifted_bit(su, k, 30);
            lemma_shifted_bit(sb, k, 32);
            lemma_shifted_bit(sb, k, 31);
            lemma_shifted_bit(sb, k, 30);
            lemma_super_word_cell(above, j - 1);
            lemma_super_word_cell(above, j);
            lemma_super_word_cell(above, j + 1);
            lemma_super_word_cell(row, j - 1);
            lemma_super_word_cell(row, j);
            lemma_super_word_cell(row, j + 1);
            lemma_super_word_cell(below, j - 1);
            lemma_super_word_cell(below, j);
            lemma_super_word_cell(below, j + 1);
            assert(alive == tc);
            assert(((u & m1) == m1) == (bit64(u, 31) == 1)) by (bit_vector)
                requires m1 == 0x8000_0000u64;
        }
        let v: u64 = if alive == 3 || (alive == 2 && (u & m1) == m1) {
            1
        } else {
            0
        };
        proof {
            lemma_push_bit(result, k, v);
            assert((sa << k) << 1u64 == sa << ((k + 1) as u64)) by (bit_vector)
                requires sa < 0x1_0000_0000_0000, k < 16;
            assert((su << k) << 1u64 == su << ((k + 1) as u64)) by (bit_vector)
                requires su < 0x1_0000_0000_0000, k < 16;
            assert((sb << k) << 1u64 == sb << ((k + 1) as u64)) by (bit_vector)
                requires sb < 0x1_0000_0000_0000, k < 16;
        }
        let ghost old_result = result;
        result = (result << 1u64) | v;
        a = a << 1u64;
        u = u << 1u64;
        b = b << 1u64;
        proof {
            assert forall|j2: u64| j2 < k + 1 implies #[trigger] bit64(result, (k + 1 - 1 - j2) as u64) == if triplet_rule(
                above,
                row,
                below,
                j2 as int,
            ) {
                1u64
            } else {
                0u64
            } by {
                if j2 < k {
                    assert(bit64(result, ((k - 1 - j2) + 1) as u64) == bit64(old_result, (k - 1 - j2) as u64));
                }
            }
        }
        k = k + 1;
    }
    proof {
        assert forall|j: int| 0 <= j < 16 implies word_bit(result as u16, 15 - j) == #[trigger] triplet_rule(above, row, below, j) by {
            let q = (15 - j) as u64;
            let ju = j as u64;
            assert(bit64(result, (16 - 1 - ju) as u64) == if triplet_rule(above, row, below, ju as int) { 1u64 } else { 0u64 });
            assert(((result as u16) as u64 >> q) & 1 == bit64(result, q)) by (bit_vector)
                requires q < 16;
        }
    }
    result as u16
}

} // verus!
