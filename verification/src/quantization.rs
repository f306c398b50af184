//! Zigzag sampling of quantized 8x8 blocks, and the category coding of their values.

use vstd::prelude::*;
use crate::coefficient_encoder::{CategoryCode, category_code, categorizable};

verus! {

/// The positions of an 8x8 block, as row and column, in the order a zigzag walk over its
/// anti-diagonals visits them.
pub open spec fn zigzag_order() -> Seq<(int, int)> {
    seq![
        (0, 0), (0, 1), (1, 0), (2, 0), (1, 1), (0, 2), (0, 3), (1, 2),
        (2, 1), (3, 0), (4, 0), (3, 1), (2, 2), (1, 3), (0, 4), (0, 5),
        (1, 4), (2, 3), (3, 2), (4, 1), (5, 0), (6, 0), (5, 1), (4, 2),
        (3, 3), (2, 4), (1, 5), (0, 6), (0, 7), (1, 6), (2, 5), (3, 4),
        (4, 3), (5, 2), (6, 1), (7, 0), (7, 1), (6, 2), (5, 3), (4, 4),
        (3, 5), (2, 6), (1, 7), (2, 7), (3, 6), (4, 5), (5, 4), (6, 3),
        (7, 2), (7, 3), (6, 4), (5, 5), (4, 6), (3, 7), (4, 7), (5, 6),
        (6, 5), (7, 4), (7, 5), (6, 6), (5, 7), (6, 7), (7, 6), (7, 7),
    ]
}

/// The position in the zigzag walk of each entry of a block, row by row.
pub open spec fn zigzag_rank() -> Seq<int> {
    seq![
        0, 1, 5, 6, 14, 15, 27, 28, 2, 4, 7, 13, 16, 26, 29, 42,
        3, 8, 12, 17, 25, 30, 41, 43, 9, 11, 18, 24, 31, 40, 44, 53,
        10, 19, 23, 32, 39, 45, 52, 54, 20, 22, 33, 38, 46, 51, 55, 60,
        21, 34, 37, 47, 50, 56, 59, 61, 35, 36, 48, 49, 57, 58, 62, 63,
    ]
}

/// Zigzag sampling visits each of the 64 entries of a block exactly once: every step of
/// the walk lies inside the block, and the walk's rank of the entry of step `k` is `k`.
#[verifier::rlimit(50)]
pub proof fn lemma_zigzag_is_permutation()
    ensures
        zigzag_order().len() == 64,
        forall|k: int| 0 <= k < 64 ==> {
            let p = #[trigger] zigzag_order()[k];
            &&& 0 <= p.0 < 8
            &&& 0 <= p.1 < 8
            &&& zigzag_rank()[8 * p.0 + p.1] == k
        },
        forall|i: int, j: int| 0 <= i < 64 && 0 <= j < 64 && i != j ==> #[trigger] zigzag_order()[i] != #[trigger] zigzag_order()[j],
{
    let z = zigzag_order();
    let rank = zigzag_rank();
    assert(z[0] == (0int, 0int) && rank[0] == 0);
    assert(z[1] == (0int, 1int) && rank[1] == 1);
    assert(z[2] == (1int, 0int) && rank[8] == 2);
    assert(z[3] == (2int, 0int) && rank[16] == 3);
    assert(z[4] == (1int, 1int) && rank[9] == 4);
    assert(z[5] == (0int, 2int) && rank[2] == 5);
    assert(z[6] == (0int, 3int) && rank[3] == 6);
    assert(z[7] == (1int, 2int) && rank[10] == 7);
    assert(z[8] == (2int, 1int) && rank[17] == 8);
    assert(z[9] == (3int, 0int) && rank[24] == 9);
    assert(z[10] == (4int, 0int) && rank[32] == 10);
    assert(z[11] == (3int, 1int) && rank[25] == 11);
    assert(z[12] == (2int, 2int) && rank[18] == 12);
    assert(z[13] == (1int, 3int) && rank[11] == 13);
    assert(z[14] == (0int, 4int) && rank[4] == 14);
    assert(z[15] == (0int, 5int) && rank[5] == 15);
    assert(z[16] == (1int, 4int) && rank[12] == 16);
    assert(z[17] == (2int, 3int) && rank[19] == 17);
    assert(z[18] == (3int, 2int) && rank[26] == 18);
    assert(z[19] == (4int, 1int) && rank[33] == 19);
    assert(z[20] == (5int, 0int) && rank[40] == 20);
    assert(z[21] == (6int, 0int) && rank[48] == 21);
    assert(z[22] == (5int, 1int) && rank[41] == 22);
    assert(z[23] == (4int, 2int) && rank[34] == 23);
    assert(z[24] == (3int, 3int) && rank[27] == 24);
    assert(z[25] == (2int, 4int) && rank[20] == 25);
    assert(z[26] == (1int, 5int) && rank[13] == 26);
    assert(z[27] == (0int, 6int) && rank[6] == 27);
    assert(z[28] == (0int, 7int) && rank[7] == 28);
    assert(z[29] == (1int, 6int) && rank[14] == 29);
    assert(z[30] == (2int, 5int) && rank[21] == 30);
    assert(z[31] == (3int, 4int) && rank[28] == 31);
    assert(z[32] == (4int, 3int) && rank[35] == 32);
    assert(z[33] == (5int, 2int) && rank[42] == 33);
    assert(z[34] == (6int, 1int) && rank[49] == 34);
    assert(z[35] == (7int, 0int) && rank[56] == 35);
    assert(z[36] == (7int, 1int) && rank[57] == 36);
    assert(z[37] == (6int, 2int) && rank[50] == 37);
    assert(z[38] == (5int, 3int) && rank[43] == 38);
    assert(z[39] == (4int, 4int) && rank[36] == 39);
    assert(z[40] == (3int, 5int) && rank[29] == 40);
    assert(z[41] == (2int, 6int) && rank[22] == 41);
    assert(z[42] == (1int, 7int) && rank[15] == 42);
    assert(z[43] == (2int, 7int) && rank[23] == 43);
    assert(z[44] == (3int, 6int) && rank[30] == 44);
    assert(z[45] == (4int, 5int) && rank[37] == 45);
    assert(z[46] == (5int, 4int) && rank[44] == 46);
    assert(z[47] == (6int, 3int) && rank[51] == 47);
    assert(z[48] == (7int, 2int) && rank[58] == 48);
    assert(z[49] == (7int, 3int) && rank[59] == 49);
    assert(z[50] == (6int, 4int) && rank[52] == 50);
    assert(z[51] == (5int, 5int) && rank[45] == 51);
    assert(z[52] == (4int, 6int) && rank[38] == 52);
    assert(z[53] == (3int, 7int) && rank[31] == 53);
    assert(z[54] == (4int, 7int) && rank[39] == 54);
    assert(z[55] == (5int, 6int) && rank[46] == 55);
    assert(z[56] == (6int, 5int) && rank[53] == 56);
    assert(z[57] == (7int, 4int) && rank[60] == 57);
    assert(z[58] == (7int, 5int) && rank[61] == 58);
    assert(z[59] == (6int, 6int) && rank[54] == 59);
    assert(z[60] == (5int, 7int) && rank[47] == 60);
    assert(z[61] == (6int, 7int) && rank[55] == 61);
    assert(z[62] == (7int, 6int) && rank[62] == 62);
    assert(z[63] == (7int, 7int) && rank[63] == 63);
    assert forall|i: int, j: int| 0 <= i < 64 && 0 <= j < 64 && i != j implies #[trigger] z[i] != #[trigger] z[j] by {
        let p = z[i];
        let q = z[j];
        if p == q {
            assert(rank[8 * p.0 + p.1] == i);
            assert(rank[8 * q.0 + q.1] == j);
        }
    }
}

/// Whether the zigzag walk visits position `a` before position `b`: by anti-diagonal
/// (row plus column) first; within an anti-diagonal, by increasing row on odd ones and by
/// decreasing row on even ones.
pub open spec fn zigzag_precedes(a: (int, int), b: (int, int)) -> bool {
    let da = a.0 + a.1;
    let db = b.0 + b.1;
    da < db || (da == db && if da % 2 == 1 {
        a.0 < b.0
    } else {
        a.0 > b.0
    })
}

/// A number that orders the positions of a block as [`zigzag_precedes`] does.
spec fn zigzag_key(p: (int, int)) -> int {
    let d = p.0 + p.1;
    16 * d + if d % 2 == 1 {
        p.0
    } else {
        8 - p.0
    }
}

proof fn lemma_zigzag_key(a: (int, int), b: (int, int))
    requires
        0 <= a.0 < 8,
        0 <= a.1 < 8,
        0 <= b.0 < 8,
        0 <= b.1 < 8,
    ensures
        zigzag_key(a) < zigzag_key(b) <==> zigzag_precedes(a, b),
{
}

proof fn lemma_keys_increasing(z: Seq<(int, int)>, i: int, j: int)
    requires
        0 <= i < j < z.len(),
        forall|k: int| 0 <= k < z.len() - 1 ==> zigzag_key(#[trigger] z[k]) < zigzag_key(z[k + 1]),
    ensures
        zigzag_key(z[i]) < zigzag_key(z[j]),
    decreases j - i,
{
    if j > i + 1 {
        lemma_keys_increasing(z, i, j - 1);
        assert(zigzag_key(z[j - 1]) < zigzag_key(z[j]));
    }
}

/// The zigzag walk takes the positions of a block in the order of [`zigzag_precedes`]:
/// anti-diagonal by anti-diagonal, going up on even ones and down on odd ones. With
/// [`lemma_zigzag_is_permutation`] this fixes the walk.
#[verifier::rlimit(50)]
pub proof fn lemma_zigzag_by_anti_diagonals()
    ensures
        forall|i: int, j: int|
            0 <= i < j < 64 ==> zigzag_precedes(#[trigger] zigzag_order()[i], #[trigger] zigzag_order()[j]),
{
    let z = zigzag_order();
    assert(z.len() == 64);
    assert(z[0] == (0int, 0int));
    assert(z[1] == (0int, 1int));
    assert(z[2] == (1int, 0int));
    assert(z[3] == (2int, 0int));
    assert(z[4] == (1int, 1int));
    assert(z[5] == (0int, 2int));
    assert(z[6] == (0int, 3int));
    assert(z[7] == (1int, 2int));
    assert(z[8] == (2int, 1int));
    assert(z[9] == (3int, 0int));
    assert(z[10] == (4int, 0int));
    assert(z[11] == (3int, 1int));
    assert(z[12] == (2int, 2int));
    assert(z[13] == (1int, 3int));
    assert(z[14] == (0int, 4int));
    assert(z[15] == (0int, 5int));
    assert(z[16] == (1int, 4int));
    assert(z[17] == (2int, 3int));
    assert(z[18] == (3int, 2int));
    assert(z[19] == (4int, 1int));
    assert(z[20] == (5int, 0int));
    assert(z[21] == (6int, 0int));
    assert(z[22] == (5int, 1int));
    assert(z[23] == (4int, 2int));
    assert(z[24] == (3int, 3int));
    assert(z[25] == (2int, 4int));
    assert(z[26] == (1int, 5int));
    assert(z[27] == (0int, 6int));
    assert(z[28] == (0int, 7int));
    assert(z[29] == (1int, 6int));
    assert(z[30] == (2int, 5int));
    assert(z[31] == (3int, 4int));
    assert(z[32] == (4int, 3int));
    assert(z[33] == (5int, 2int));
    assert(z[34] == (6int, 1int));
    assert(z[35] == (7int, 0int));
    assert(z[36] == (7int, 1int));
    assert(z[37] == (6int, 2int));
    assert(z[38] == (5int, 3int));
    assert(z[39] == (4int, 4int));
    assert(z[40] == (3int, 5int));
    assert(z[41] == (2int, 6int));
    assert(z[42] == (1int, 7int));
    assert(z[43] == (2int, 7int));
    assert(z[44] == (3int, 6int));
    assert(z[45] == (4int, 5int));
    assert(z[46] == (5int, 4int));
    assert(z[47] == (6int, 3int));
    assert(z[48] == (7int, 2int));
    assert(z[49] == (7int, 3int));
    assert(z[50] == (6int, 4int));
    assert(z[51] == (5int, 5int));
    assert(z[52] == (4int, 6int));
    assert(z[53] == (3int, 7int));
    assert(z[54] == (4int, 7int));
    assert(z[55] == (5int, 6int));
    assert(z[56] == (6int, 5int));
    assert(z[57] == (7int, 4int));
    assert(z[58] == (7int, 5int));
    assert(z[59] == (6int, 6int));
    assert(z[60] == (5int, 7int));
    assert(z[61] == (6int, 7int));
    assert(z[62] == (7int, 6int));
    assert(z[63] == (7int, 7int));
    assert forall|k: int| 0 <= k < z.len() - 1 implies zigzag_key(#[trigger] z[k]) < zigzag_key(
        z[k + 1],
    ) by {
    }
    assert forall|i: int, j: int| 0 <= i < j < 64 implies zigzag_precedes(#[trigger] z[i], #[trigger] z[j]) by {
        lemma_keys_increasing(z, i, j);
        lemma_zigzag_is_permutation();
        assert(0 <= z[i].0 < 8 && 0 <= z[i].1 < 8);
        assert(0 <= z[j].0 < 8 && 0 <= z[j].1 < 8);
        lemma_zigzag_key(z[i], z[j]);
    }
}

/// Zigzag sample the given 8x8 block, whose values are given row after row.
pub fn sample_zigzag<T: Copy>(data: &[T; 64]) -> (r: [T; 64])
    ensures
        forall|k: int|
            0 <= k < 64 ==> #[trigger] r@[k] == data@[8 * zigzag_order()[k].0 + zigzag_order()[k].1],
{
    let r = [
        data[0], data[1], data[8], data[16], data[9], data[2], data[3], data[10],
        data[17], data[24], data[32], data[25], data[18], data[11], data[4], data[5],
        data[12], data[19], data[26], data[33], data[40], data[48], data[41], data[34],
        data[27], data[20], data[13], data[6], data[7], data[14], data[21], data[28],
        data[35], data[42], data[49], data[56], data[57], data[50], data[43], data[36],
        data[29], data[22], data[15], data[23], data[30], data[37], data[44], data[51],
        data[58], data[59], data[52], data[45], data[38], data[31], data[39], data[46],
        data[53], data[60], data[61], data[54], data[47], data[55], data[62], data[63],
    ];
    r
}

/// Get the categorised representation of the given value; see
/// [`crate::coefficient_encoder::categorize`].
pub fn categorize(value: i32) -> (r: CategoryCode)
    requires
        categorizable(value),
    ensures
        r == category_code(value),
{
    crate::coefficient_encoder::categorize(value)
}

} // verus!
