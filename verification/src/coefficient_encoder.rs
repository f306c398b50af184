//! Turning quantized 8x8 blocks into the values that are Huffman coded: DC differences,
//! run-length coded AC coefficients, and their categories.

use vstd::prelude::*;
use crate::bit_stream::BitStream;
use crate::huffman::{HuffmanCode, HuffmanCodeMap, parse_u8_stream, parsed_tree, all_coded};
use crate::huffman_decoder::{codes_fit, canonical_code, prefix_free, lemma_canonical_prefix_free};
use crate::code_shape::{lemma_parsed_tree_canonical, no_all_ones_code};
use crate::weighted_sort::{
    sorted_by_weight, sort_by_weight, lemma_sorted_elements, lemma_sorted_contains,
    lemma_sorted_ordered, lemma_sorted_no_duplicates,
};

verus! {

/// A category code: the category (bit length) and the code bits.
pub type CategoryCode = (u8, u16);

/// `2` to the power `n`.
pub open spec fn two_pow(n: nat) -> nat
    decreases n,
{
    if n == 0 { 1 } else { 2 * two_pow((n - 1) as nat) }
}

/// Number of bits needed to write `n` in binary.
pub open spec fn bit_length(n: nat) -> nat
    decreases n,
{
    if n == 0 { 0 } else { 1 + bit_length(n / 2) }
}

pub open spec fn abs(v: int) -> nat {
    if v < 0 { (-v) as nat } else { v as nat }
}

/// The category code of `value`: the bit length of its magnitude, and as code the value
/// itself, or for a negative value the value plus `2^category - 1`; zero has category 0
/// and code `0xFFFF`.
pub open spec fn category_code(value: i32) -> CategoryCode {
    if value == 0 {
        (0, 0xFFFFu16)
    } else {
        let c = bit_length(abs(value as int));
        if value < 0 {
            (c as u8, (value + two_pow(c) - 1) as u16)
        } else {
            (c as u8, value as u16)
        }
    }
}

/// The values [`categorize`] accepts: all but negative values of more than 15 bits.
pub open spec fn categorizable(value: i32) -> bool {
    value < 0 ==> value >= -32767
}

/// Reading a value back from its category and code.
pub open spec fn decode_category(cat: u8, code: u16) -> int {
    if cat == 0 {
        0
    } else if code >= two_pow((cat - 1) as nat) {
        code as int
    } else {
        code - two_pow(cat as nat) + 1
    }
}

proof fn lemma_constants()
    ensures
        bit_length(32767) == 15,
        two_pow(15) == 32768,
        two_pow(32) == 0x1_0000_0000,
{
    reveal_with_fuel(bit_length, 16);
    reveal_with_fuel(two_pow, 33);
}

pub proof fn lemma_bit_length_bounds(n: nat)
    requires
        n > 0,
    ensures
        bit_length(n) >= 1,
        two_pow((bit_length(n) - 1) as nat) <= n < two_pow(bit_length(n)),
    decreases n,
{
    if n > 1 {
        lemma_bit_length_bounds(n / 2);
        assert(bit_length(n) == 1 + bit_length(n / 2));
        assert(two_pow(bit_length(n)) == 2 * two_pow(bit_length(n / 2)));
        assert(two_pow((bit_length(n) - 1) as nat) == two_pow(bit_length(n / 2)));
        assert(two_pow((bit_length(n / 2) - 1) as nat) * 2 == two_pow(bit_length(n / 2)));
    } else {
        assert(bit_length(0) == 0);
        assert(bit_length(1) == 1);
        assert(two_pow(0) == 1);
        assert(two_pow(1) == 2);
    }
}

pub proof fn lemma_bit_length_mono(a: nat, b: nat)
    requires
        a <= b,
    ensures
        bit_length(a) <= bit_length(b),
    decreases b,
{
    if a > 0 {
        lemma_bit_length_mono(a / 2, b / 2);
    }
}

pub proof fn lemma_two_pow_mono(a: nat, b: nat)
    requires
        a <= b,
    ensures
        two_pow(a) <= two_pow(b),
    decreases b,
{
    if a < b {
        lemma_two_pow_mono(a, (b - 1) as nat);
    }
}

/// Categorizing loses nothing: a nonzero value of at most 15 bits is read back from its
/// category and code.
pub proof fn lemma_categorize_inverse(value: i32)
    requires
        value != 0,
        -32767 <= value <= 32767,
    ensures
        1 <= category_code(value).0 <= 15,
        decode_category(category_code(value).0, category_code(value).1) == value,
{
    let n = abs(value as int);
    lemma_bit_length_bounds(n);
    lemma_bit_length_mono(n, 32767);
    lemma_constants();
    let c = bit_length(n);
    lemma_two_pow_mono(c, 15);
    assert(two_pow(c) == 2 * two_pow((c - 1) as nat));
}

/// Get the categorised representation of the given value.
/// Values get a category between 0 and 15 based on the amount of bits set. For negative
/// values, an offset is applied (so the lowest value, e.g. -31 for category 5, translates
/// to 0* as a bit representation).
pub fn categorize(value: i32) -> (r: CategoryCode)
    requires
        categorizable(value),
    ensures
        r == category_code(value),
{
    if value == 0 {
        return (0, u16::MAX);
    }
    let magnitude: u32 = if value < 0 { (-value) as u32 } else { value as u32 };
    let mut rest: u32 = magnitude;
    let mut cat: u8 = 0;
    let mut power: u64 = 1;
    proof {
        lemma_constants();
        assert(two_pow(0) == 1);
    }
    while rest > 0
        invariant
            cat <= 32,
            power == two_pow(cat as nat),
            rest as nat * two_pow(cat as nat) <= magnitude,
            bit_length(rest as nat) + cat == bit_length(magnitude as nat),
            magnitude <= 0x8000_0000u32,
            two_pow(32) == 0x1_0000_0000,
        decreases rest,
    {
        proof {
            lemma_bit_length_bounds(rest as nat);
            assert(rest as nat / 2 * two_pow((cat + 1) as nat) <= magnitude) by (nonlinear_arith)
                requires rest as nat * two_pow(cat as nat) <= magnitude,
                    two_pow((cat + 1) as nat) == 2 * two_pow(cat as nat);
            if cat >= 32 {
                lemma_two_pow_mono(32, cat as nat);
                assert(false) by (nonlinear_arith)
                    requires rest >= 1, rest as nat * two_pow(cat as nat) <= magnitude,
                        magnitude <= 0x8000_0000u32, two_pow(cat as nat) >= 0x1_0000_0000;
            }
            lemma_two_pow_mono(cat as nat, 31);
            lemma_two_pow_mono(31, 32);
        }
        rest = rest / 2;
        cat = cat + 1;
        power = power * 2;
    }
    if value < 0 {
        proof {
            lemma_bit_length_bounds(magnitude as nat);
            lemma_bit_length_mono(magnitude as nat, 32767);
            lemma_two_pow_mono(cat as nat, 15);
        }
        let offset: i32 = (power - 1) as i32;
        (cat, (value + offset) as u16)
    } else {
        (cat, #[verifier::truncate] (value as u16))
    }
}

/// Get the DC coefficients (the first value of each block).
pub fn dc_coefficients(values: &Vec<[i32; 64]>) -> (r: Vec<i32>)
    ensures
        r@.len() == values@.len(),
        forall|i: int| 0 <= i < values@.len() ==> #[trigger] r@[i] == values@[i][0],
{
    let mut r: Vec<i32> = Vec::with_capacity(values.len());
    let mut i: usize = 0;
    while i < values.len()
        invariant
            i <= values@.len(),
            r@.len() == i,
            forall|k: int| 0 <= k < i ==> #[trigger] r@[k] == values@[k][0],
        decreases values.len() - i,
    {
        r.push(values[i][0]);
        i = i + 1;
    }
    r
}

/// Get the AC coefficients (all values of each block but the first).
pub fn ac_coefficients(values: &Vec<[i32; 64]>) -> (r: Vec<[i32; 63]>)
    ensures
        r@.len() == values@.len(),
        forall|i: int| 0 <= i < values@.len() ==> #[trigger] r@[i]@ == values@[i]@.skip(1),
{
    let mut r: Vec<[i32; 63]> = Vec::with_capacity(values.len());
    let mut i: usize = 0;
    while i < values.len()
        invariant
            i <= values@.len(),
            r@.len() == i,
            forall|k: int| 0 <= k < i ==> #[trigger] r@[k]@ == values@[k]@.skip(1),
        decreases values.len() - i,
    {
        let val = &values[i];
        let mut res: [i32; 63] = [1; 63];
        let mut j: usize = 0;
        while j < 63
            invariant
                j <= 63,
                val@.len() == 64,
                res@.len() == 63,
                forall|k: int| 0 <= k < j ==> #[trigger] res@[k] == val@[k + 1],
            decreases 63 - j,
        {
            res[j] = val[j + 1];
            j = j + 1;
        }
        proof {
            assert(res@ =~= val@.skip(1));
        }
        r.push(res);
        i = i + 1;
    }
    r
}

/// The coefficient before position `i`, zero before the first.
pub open spec fn previous(c: Seq<i32>, i: int) -> int {
    if i == 0 { 0 } else { c[i - 1] as int }
}

/// Sum of the first `n` values.
pub open spec fn prefix_sum(d: Seq<i32>, n: nat) -> int
    decreases n,
{
    if n == 0 { 0 } else { prefix_sum(d, (n - 1) as nat) + d[n - 1] }
}

/// Get the differences between adjacent coefficients (the first against zero).
pub fn coefficients_to_diffs(coefficients: &Vec<i32>) -> (diffs: Vec<i32>)
    requires
        forall|i: int| 0 <= i < coefficients@.len() ==> i32::MIN <= #[trigger] coefficients@[i]
            - previous(coefficients@, i) <= i32::MAX,
    ensures
        diffs@.len() == coefficients@.len(),
        forall|i: int| 0 <= i < coefficients@.len() ==> #[trigger] diffs@[i] == coefficients@[i]
            - previous(coefficients@, i),
{
    let mut diffs: Vec<i32> = Vec::with_capacity(coefficients.len());
    let mut prev: i32 = 0;
    let mut i: usize = 0;
    while i < coefficients.len()
        invariant
            i <= coefficients@.len(),
            diffs@.len() == i,
            prev == previous(coefficients@, i as int),
            forall|k: int| 0 <= k < coefficients@.len() ==> i32::MIN <= #[trigger] coefficients@[k]
                - previous(coefficients@, k) <= i32::MAX,
            forall|k: int| 0 <= k < i ==> #[trigger] diffs@[k] == coefficients@[k] - previous(
                coefficients@,
                k,
            ),
        decreases coefficients.len() - i,
    {
        let coeff = coefficients[i];
        assert(i32::MIN <= coefficients@[i as int] - previous(coefficients@, i as int) <= i32::MAX);
        diffs.push(coeff - prev);
        prev = coeff;
        i = i + 1;
    }
    diffs
}

/// Difference coding loses nothing: the sum of the first `n` differences is the `n`-th
/// coefficient (counting from one).
pub proof fn lemma_diffs_prefix_sum(c: Seq<i32>, d: Seq<i32>, n: nat)
    requires
        d.len() == c.len(),
        forall|i: int| 0 <= i < c.len() ==> #[trigger] d[i] == c[i] - previous(c, i),
        1 <= n <= c.len(),
    ensures
        prefix_sum(d, n) == c[n - 1],
    decreases n,
{
    if n > 1 {
        lemma_diffs_prefix_sum(c, d, (n - 1) as nat);
        assert(previous(c, n - 1) == c[n - 2]);
    } else {
        assert(prefix_sum(d, 0) == 0);
        assert(previous(c, 0) == 0);
    }
    assert(d[n - 1] == c[n - 1] - previous(c, n - 1));
    assert(prefix_sum(d, n) == prefix_sum(d, (n - 1) as nat) + d[n - 1]);
}

} // verus!

verus! {

/// Zeros counted before index `i` by the run-length coder: the zeros since the last
/// nonzero coefficient, where a zero at index 62 is not counted.
pub open spec fn zero_run(t: Seq<i32>, i: nat) -> nat
    decreases i,
{
    if i == 0 {
        0
    } else if t[i - 1] != 0 {
        0
    } else if i - 1 == 62 {
        zero_run(t, (i - 1) as nat)
    } else {
        zero_run(t, (i - 1) as nat) + 1
    }
}

/// The run-length entry for sixteen zeros.
pub open spec fn zero_run_entry() -> (u8, CategoryCode) {
    (0xF0u8, (0u8, 0u16))
}

/// The end-of-block entry.
pub open spec fn end_of_block_entry() -> (u8, CategoryCode) {
    (0u8, (0u8, 0u16))
}

/// What the coder emits at index `i`: for a nonzero coefficient, one entry per sixteen
/// zeros before it, then the entry whose high four bits count the remaining zeros and whose
/// low four bits are its category; for a zero at index 62, the end of block; else nothing.
pub open spec fn rle_emitted(t: Seq<i32>, i: nat) -> Seq<(u8, CategoryCode)> {
    if t[i as int] != 0 {
        let r = zero_run(t, i);
        let c = category_code(t[i as int]);
        Seq::new(r / 16, |k: int| zero_run_entry()) + seq![(((r % 16) * 16 + c.0) as u8, c)]
    } else if i == 62 {
        seq![end_of_block_entry()]
    } else {
        Seq::empty()
    }
}

/// Everything the coder emits for the first `n` coefficients.
pub open spec fn rle_prefix(t: Seq<i32>, n: nat) -> Seq<(u8, CategoryCode)>
    decreases n,
{
    if n == 0 {
        Seq::empty()
    } else {
        rle_prefix(t, (n - 1) as nat) + rle_emitted(t, (n - 1) as nat)
    }
}

/// The tables [`runlength_encode_single_ac_table`] accepts: zero runs that fit its counter,
/// and nonzero values whose category and run fit one byte.
pub open spec fn rle_codable(t: Seq<i32>) -> bool {
    forall|i: int|
        0 <= i < t.len() ==> {
            &&& (#[trigger] t[i] == 0 && i != 62 ==> zero_run(t, i as nat) < 255)
            &&& (t[i] != 0 ==> categorizable(t[i]) && (zero_run(t, i as nat) % 16) * 16
                + category_code(t[i]).0 <= 255)
        }
}

/// Run-length encode AC coefficients.
pub fn runlength_encode_single_ac_table(table: &[i32]) -> (r: Vec<(u8, CategoryCode)>)
    requires
        rle_codable(table@),
    ensures
        r@ == rle_prefix(table@, table@.len()),
{
    let mut new_table: Vec<(u8, CategoryCode)> = Vec::with_capacity(63);
    let mut counter: u8 = 0;
    let mut index: usize = 0;
    while index < table.len()
        invariant
            index <= table@.len(),
            rle_codable(table@),
            counter == zero_run(table@, index as nat),
            new_table@ == rle_prefix(table@, index as nat),
        decreases table.len() - index,
    {
        let coefficient = table[index];
        let ghost before = new_table@;
        if coefficient != 0 {
            let (cat, code) = categorize(coefficient);
            let mut k: u8 = 0;
            while k < counter / 16
                invariant
                    k <= counter / 16,
                    new_table@ == before + Seq::new(k as nat, |j: int| zero_run_entry()),
                decreases counter / 16 - k,
            {
                new_table.push((0xF0, (0, 0)));
                k = k + 1;
                proof {
                    assert(new_table@ =~= before + Seq::new(k as nat, |j: int| zero_run_entry()));
                }
            }
            let high: u8 = counter % 16;
            proof {
                assert((high << 4u8) == high * 16) by (bit_vector)
                    requires high < 16;
            }
            let zeros_cat = (high << 4) + cat;
            new_table.push((zeros_cat, (cat, code)));
            counter = 0;
            proof {
                assert(new_table@ =~= rle_prefix(table@, (index + 1) as nat));
            }
        } else if index == 62 {
            new_table.push((0, (0, 0)));
            proof {
                assert(new_table@ =~= rle_prefix(table@, (index + 1) as nat));
            }
        } else {
            counter += 1;
            proof {
                assert(rle_emitted(table@, index as nat) =~= Seq::empty());
                assert(new_table@ =~= rle_prefix(table@, (index + 1) as nat));
            }
        }
        index = index + 1;
    }
    new_table
}

/// One step of reading run-length entries back: sixteen zeros, the rest of a 63-value
/// block filled with zeros, or a run of zeros and a value.
pub open spec fn rle_decode_step(acc: Seq<int>, e: (u8, CategoryCode)) -> Seq<int> {
    if e == zero_run_entry() {
        acc + Seq::new(16, |k: int| 0int)
    } else if e.0 == 0 {
        acc + Seq::new((63 - acc.len()) as nat, |k: int| 0int)
    } else {
        acc + Seq::new((e.0 / 16) as nat, |k: int| 0int) + seq![decode_category(e.1.0, e.1.1)]
    }
}

/// Reading a sequence of run-length entries back into coefficients.
pub open spec fn rle_decode(entries: Seq<(u8, CategoryCode)>) -> Seq<int>
    decreases entries.len(),
{
    if entries.len() == 0 {
        Seq::empty()
    } else {
        rle_decode_step(rle_decode(entries.drop_last()), entries.last())
    }
}

proof fn lemma_rle_decode_append(a: Seq<(u8, CategoryCode)>, b: Seq<(u8, CategoryCode)>)
    ensures
        b.len() == 0 ==> rle_decode(a + b) == rle_decode(a),
        b.len() > 0 ==> rle_decode(a + b) == rle_decode_step(
            rle_decode(a + b.drop_last()),
            b.last(),
        ),
{
    if b.len() == 0 {
        assert(a + b =~= a);
    } else {
        assert((a + b).drop_last() =~= a + b.drop_last());
    }
}

proof fn lemma_rle_decode_zero_runs(a: Seq<(u8, CategoryCode)>, m: nat)
    ensures
        rle_decode(a + Seq::new(m, |k: int| zero_run_entry())) =~= rle_decode(a) + Seq::new(
            16 * m,
            |k: int| 0int,
        ),
    decreases m,
{
    if m > 0 {
        let z = Seq::new(m, |k: int| zero_run_entry());
        let z1 = Seq::new((m - 1) as nat, |k: int| zero_run_entry());
        assert(z.drop_last() =~= z1);
        lemma_rle_decode_append(a, z);
        lemma_rle_decode_zero_runs(a, (m - 1) as nat);
    } else {
        assert(a + Seq::new(0, |k: int| zero_run_entry()) =~= a);
    }
}

proof fn lemma_zero_run_le(t: Seq<i32>, i: nat)
    requires
        i <= t.len(),
    ensures
        zero_run(t, i) <= i,
        forall|k: int| i - zero_run(t, i) <= k < i && k != 62 ==> t[k] == 0,
        i <= 62 ==> forall|k: int| i - zero_run(t, i) <= k < i ==> t[k] == 0,
    decreases i,
{
    if i > 0 {
        lemma_zero_run_le(t, (i - 1) as nat);
    }
}

/// Run-length coding loses nothing: reading back the entries for a 63-value block of
/// coefficients of at most 15 bits gives the block.
pub proof fn lemma_rle_roundtrip(t: Seq<i32>)
    requires
        t.len() == 63,
        rle_codable(t),
        forall|i: int| 0 <= i < 63 ==> -32767 <= #[trigger] t[i] <= 32767,
    ensures
        rle_decode(rle_prefix(t, 63)) == t.map_values(|v: i32| v as int),
{
    let ti = t.map_values(|v: i32| v as int);
    assert forall|n: nat| n <= 62 implies #[trigger] rle_decode(rle_prefix(t, n)) == ti.take(
        n - zero_run(t, n),
    ) by {
        lemma_rle_prefix_decode(t, n);
    }
    lemma_zero_run_le(t, 62);
    let r = zero_run(t, 62);
    if t[62] != 0 {
        lemma_rle_step_nonzero(t, 62);
        assert(ti.take(63) =~= ti);
    } else {
        lemma_rle_decode_append(rle_prefix(t, 62), rle_emitted(t, 62));
        assert(rle_emitted(t, 62) =~= seq![end_of_block_entry()]);
        assert(rle_emitted(t, 62).drop_last() =~= Seq::<(u8, CategoryCode)>::empty());
        assert(rle_prefix(t, 62) + Seq::<(u8, CategoryCode)>::empty() =~= rle_prefix(t, 62));
        assert(rle_decode(rle_prefix(t, 63)) =~= ti);
    }
}

proof fn lemma_rle_prefix_decode(t: Seq<i32>, n: nat)
    requires
        t.len() == 63,
        rle_codable(t),
        forall|i: int| 0 <= i < 63 ==> -32767 <= #[trigger] t[i] <= 32767,
        n <= 62,
    ensures
        rle_decode(rle_prefix(t, n)) == t.map_values(|v: i32| v as int).take(n - zero_run(t, n)),
    decreases n,
{
    let ti = t.map_values(|v: i32| v as int);
    if n == 0 {
        assert(ti.take(0) =~= Seq::<int>::empty());
    } else {
        let i = (n - 1) as nat;
        lemma_rle_prefix_decode(t, i);
        if t[i as int] != 0 {
            lemma_rle_step_nonzero(t, i);
        } else {
            assert(rle_emitted(t, i) =~= Seq::empty());
            assert(rle_prefix(t, n) =~= rle_prefix(t, i));
        }
    }
}

proof fn lemma_rle_step_nonzero(t: Seq<i32>, i: nat)
    requires
        t.len() == 63,
        rle_codable(t),
        forall|k: int| 0 <= k < 63 ==> -32767 <= #[trigger] t[k] <= 32767,
        i <= 62,
        t[i as int] != 0,
        rle_decode(rle_prefix(t, i)) == t.map_values(|v: i32| v as int).take(i - zero_run(t, i)),
    ensures
        rle_decode(rle_prefix(t, i + 1)) == t.map_values(|v: i32| v as int).take((i + 1) as int),
{
    let ti = t.map_values(|v: i32| v as int);
    let r = zero_run(t, i);
    let c = category_code(t[i as int]);
    lemma_zero_run_le(t, i);
    lemma_categorize_inverse(t[i as int]);
    let zs = Seq::new(r / 16, |k: int| zero_run_entry());
    let last = (((r % 16) * 16 + c.0) as u8, c);
    let em = rle_emitted(t, i);
    assert(em =~= zs + seq![last]);
    assert(em.drop_last() =~= zs);
    lemma_rle_decode_append(rle_prefix(t, i), em);
    lemma_rle_decode_zero_runs(rle_prefix(t, i), r / 16);
    assert(last != zero_run_entry() && last.0 != 0 && last.0 / 16 == r % 16) by {
        assert(c.0 >= 1 && c.0 <= 15);
    }
    assert(16 * (r / 16) + r % 16 == r);
    assert(rle_decode(rle_prefix(t, i + 1)) =~= ti.take((i + 1) as int)) by {
        assert forall|k: int| i - r <= k < i implies ti[k] == 0 by {}
    }
}

} // verus!

verus! {

broadcast use vstd::std_specs::hash::group_hash_axioms;

/// The code map that Huffman coding of `symbols` gives, where every symbol has a code.
pub open spec fn code_for(symbols: Seq<u8>) -> Option<Map<u8, HuffmanCode>> {
    match parsed_tree(symbols) {
        Some(t) => if all_coded(symbols, t.codes()) {
            Some(t.codes())
        } else {
            None
        },
        None => None,
    }
}

/// Every code map the coefficient coding hands out has codes of 1 to 16 bits, no code
/// begins another, none is all one bits, and the canonical search decodes them.
pub proof fn lemma_code_for_prefix_free(symbols: Seq<u8>)
    requires
        symbols.len() * 15 <= u64::MAX,
    ensures
        code_for(symbols) matches Some(m) ==> codes_fit(m) && prefix_free(m) && no_all_ones_code(
            m,
        ) && canonical_code(m),
{
    lemma_parsed_tree_canonical(symbols);
    if let Some(m) = code_for(symbols) {
        lemma_canonical_prefix_free(m);
    }
}

/// The categories of the values.
pub open spec fn categories_of(values: Seq<i32>) -> Seq<u8> {
    Seq::new(values.len(), |i: int| category_code(values[i]).0)
}

/// The differences of the DC coefficients, the first against zero.
pub open spec fn dc_diffs(c: Seq<i32>) -> Seq<i32> {
    Seq::new(c.len(), |i: int| (c[i] - previous(c, i)) as i32)
}

/// The DC coefficients [`encode_dc_coefficients`] accepts: differences that fit an `i32`
/// and have a category.
pub open spec fn dc_encodable(c: Seq<i32>) -> bool {
    forall|i: int|
        0 <= i < c.len() ==> i32::MIN <= #[trigger] c[i] - previous(c, i) <= i32::MAX
            && categorizable((c[i] - previous(c, i)) as i32)
}

/// Each value coded as the Huffman code of its category and its category code.
pub open spec fn coded_values(values: Seq<i32>, map: Map<u8, HuffmanCode>) -> Seq<(HuffmanCode, CategoryCode)> {
    Seq::new(values.len(), |i: int| (map[category_code(values[i]).0], category_code(values[i])))
}

/// A stream holding the given bytes, whole.
fn stream_of_bytes(bytes: &Vec<u8>) -> (s: BitStream)
    ensures
        s@.bytes == bytes@,
        s@.inv(),
{
    let mut s = BitStream::open();
    let mut i: usize = 0;
    while i < bytes.len()
        invariant
            i <= bytes.len(),
            s@.inv(),
            s@.bytes == bytes@.take(i as int),
            s@.bits_in_last_byte == 0 || s@.bits_in_last_byte == 8,
        decreases bytes.len() - i,
    {
        s.append_byte(bytes[i]);
        i += 1;
        proof {
            assert(s@.bytes =~= bytes@.take(i as int));
        }
    }
    proof {
        assert(bytes@.take(bytes.len() as int) =~= bytes@);
    }
    s
}

/// Categorize the given coefficient differences, then huffman encode the categories and
/// return the encoded differences as well as the huffman code map. `None` where the
/// categories get no code.
fn categorize_and_encode_diffs(diffs: &Vec<i32>) -> (r: Option<(Vec<(HuffmanCode, CategoryCode)>, HuffmanCodeMap)>)
    requires
        forall|i: int| 0 <= i < diffs.len() ==> categorizable(#[trigger] diffs@[i]),
        diffs.len() * 15 <= u64::MAX,
    ensures
        match r {
            Some((coded, map)) => code_for(categories_of(diffs@)) == Some(map@) && coded@
                == coded_values(diffs@, map@),
            None => code_for(categories_of(diffs@)) is None,
        },
{
    let mut categorized: Vec<CategoryCode> = Vec::new();
    let mut cats: Vec<u8> = Vec::new();
    let mut i: usize = 0;
    while i < diffs.len()
        invariant
            i <= diffs.len(),
            forall|k: int| 0 <= k < diffs.len() ==> categorizable(#[trigger] diffs@[k]),
            categorized@ == Seq::new(i as nat, |k: int| category_code(diffs@[k])),
            cats@ == categories_of(diffs@).take(i as int),
        decreases diffs.len() - i,
    {
        let cat = categorize(diffs[i]);
        categorized.push(cat);
        cats.push(cat.0);
        i += 1;
        proof {
            assert(categorized@ =~= Seq::new(i as nat, |k: int| category_code(diffs@[k])));
            assert(cats@ =~= categories_of(diffs@).take(i as int));
        }
    }
    proof {
        assert(cats@ =~= categories_of(diffs@));
    }
    let mut categories = stream_of_bytes(&cats);
    let tree = match parse_u8_stream(&mut categories) {
        Some(t) => t,
        None => return None,
    };
    let code_map = tree.code_map();
    let mut coded: Vec<(HuffmanCode, CategoryCode)> = Vec::new();
    let mut j: usize = 0;
    while j < categorized.len()
        invariant
            j <= categorized.len() == diffs.len(),
            categorized@ == Seq::new(diffs.len() as nat, |k: int| category_code(diffs@[k])),
            cats@ == categories_of(diffs@),
            parsed_tree(cats@) == Some(tree),
            code_map@ == tree.codes(),
            all_coded(cats@.take(j as int), code_map@),
            coded@ == coded_values(diffs@, code_map@).take(j as int),
        decreases categorized.len() - j,
    {
        let cat = categorized[j];
        let code = match code_map.get(&cat.0) {
            Some(c) => *c,
            None => {
                proof {
                    assert(cats@[j as int] == cat.0);
                }
                return None;
            },
        };
        coded.push((code, cat));
        proof {
            assert forall|k: int| 0 <= k < j + 1 implies code_map@.contains_key(
                #[trigger] cats@.take(j + 1)[k],
            ) by {
                if k < j {
                    assert(cats@.take(j + 1)[k] == cats@.take(j as int)[k]);
                }
            }
        }
        j += 1;
        proof {
            assert(coded@ =~= coded_values(diffs@, code_map@).take(j as int));
        }
    }
    proof {
        assert(cats@.take(j as int) =~= cats@);
        assert(coded@ =~= coded_values(diffs@, code_map@));
    }
    Some((coded, code_map))
}

/// Encode a set of DC coefficients. Coefficients are first replaced by the difference
/// between them and the previous coefficient, then categorized. The categories are huffman
/// encoded. Returns both the now encoded values and the huffman code map; `None` where the
/// categories get no code.
pub fn encode_dc_coefficients(dc_coefficients: &Vec<i32>) -> (r: Option<(Vec<(HuffmanCode, CategoryCode)>, HuffmanCodeMap)>)
    requires
        dc_encodable(dc_coefficients@),
        dc_coefficients.len() * 15 <= u64::MAX,
    ensures
        match r {
            Some((coded, map)) => code_for(categories_of(dc_diffs(dc_coefficients@))) == Some(
                map@,
            ) && coded@ == coded_values(dc_diffs(dc_coefficients@), map@),
            None => code_for(categories_of(dc_diffs(dc_coefficients@))) is None,
        },
{
    let diffs = coefficients_to_diffs(dc_coefficients);
    proof {
        assert(diffs@ =~= dc_diffs(dc_coefficients@));
    }
    categorize_and_encode_diffs(&diffs)
}

/// Encode two sets of DC coefficients. Coefficients are first replaced by the difference
/// between them and the previous coefficient (each set starting from zero), then the sets
/// are combined and categorized. The categories are huffman encoded. Returns both the now
/// encoded values (first the ones from `dc_coefficients_1`, then `dc_coefficients_2`) and
/// the huffman code map; `None` where the categories get no code.
pub fn encode_two_dc_coefficients(dc_coefficients_1: &Vec<i32>, dc_coefficients_2: &Vec<i32>) -> (r:
    Option<(Vec<(HuffmanCode, CategoryCode)>, HuffmanCodeMap)>)
    requires
        dc_encodable(dc_coefficients_1@),
        dc_encodable(dc_coefficients_2@),
        (dc_coefficients_1.len() + dc_coefficients_2.len()) * 15 <= u64::MAX,
    ensures
        ({
            let diffs = dc_diffs(dc_coefficients_1@) + dc_diffs(dc_coefficients_2@);
            match r {
                Some((coded, map)) => code_for(categories_of(diffs)) == Some(map@) && coded@
                    == coded_values(diffs, map@),
                None => code_for(categories_of(diffs)) is None,
            }
        }),
{
    let mut diffs = coefficients_to_diffs(dc_coefficients_1);
    let mut diffs_2 = coefficients_to_diffs(dc_coefficients_2);
    proof {
        assert(diffs@ =~= dc_diffs(dc_coefficients_1@));
        assert(diffs_2@ =~= dc_diffs(dc_coefficients_2@));
    }
    diffs.append(&mut diffs_2);
    categorize_and_encode_diffs(&diffs)
}

/// The symbols of run-length coded tables, one table after the other.
pub open spec fn symbols_of(tables: Seq<Seq<(u8, CategoryCode)>>) -> Seq<u8>
    decreases tables.len(),
{
    if tables.len() == 0 {
        Seq::empty()
    } else {
        symbols_of(tables.drop_last()) + tables.last().map_values(|e: (u8, CategoryCode)| e.0)
    }
}

/// The number of entries in all tables.
pub open spec fn entry_count(tables: Seq<Seq<(u8, CategoryCode)>>) -> nat
    decreases tables.len(),
{
    if tables.len() == 0 {
        0
    } else {
        entry_count(tables.drop_last()) + tables.last().len()
    }
}

/// Each entry of each table with its symbol replaced by the symbol's code.
pub open spec fn coded_tables(tables: Seq<Seq<(u8, CategoryCode)>>, map: Map<u8, HuffmanCode>) -> Seq<
    Seq<(HuffmanCode, CategoryCode)>,
> {
    tables.map_values(
        |t: Seq<(u8, CategoryCode)>| t.map_values(|e: (u8, CategoryCode)| (map[e.0], e.1)),
    )
}

/// Nested vectors as nested sequences.
pub open spec fn tables_view<A>(v: Seq<Vec<A>>) -> Seq<Seq<A>> {
    v.map_values(|t: Vec<A>| t@)
}

proof fn lemma_symbols_len(tables: Seq<Seq<(u8, CategoryCode)>>)
    ensures
        symbols_of(tables).len() == entry_count(tables),
    decreases tables.len(),
{
    if tables.len() > 0 {
        lemma_symbols_len(tables.drop_last());
    }
}

/// Create a stream with all the chunk's categories, then huffman encode the categories and
/// return the resulting chunks with the zeros/category replaced with huffman code as well
/// as the huffman code map. `None` where the symbols get no code.
fn huffman_encode_ac_coefficients(runlength_encoded: &Vec<Vec<(u8, CategoryCode)>>) -> (r: Option<
    (Vec<Vec<(HuffmanCode, CategoryCode)>>, HuffmanCodeMap),
>)
    requires
        entry_count(tables_view(runlength_encoded@)) * 15 <= u64::MAX,
    ensures
        ({
            let tables = tables_view(runlength_encoded@);
            match r {
                Some((coded, map)) => code_for(symbols_of(tables)) == Some(map@) && tables_view(
                    coded@,
                ) == coded_tables(tables, map@),
                None => code_for(symbols_of(tables)) is None,
            }
        }),
{
    let ghost tables = tables_view(runlength_encoded@);
    let mut symbols: Vec<u8> = Vec::new();
    let mut t: usize = 0;
    while t < runlength_encoded.len()
        invariant
            t <= runlength_encoded.len(),
            tables == tables_view(runlength_encoded@),
            symbols@ == symbols_of(tables.take(t as int)),
        decreases runlength_encoded.len() - t,
    {
        let table = &runlength_encoded[t];
        let ghost before = symbols@;
        let mut e: usize = 0;
        while e < table.len()
            invariant
                e <= table.len(),
                symbols@ == before + table@.take(e as int).map_values(|x: (u8, CategoryCode)| x.0),
            decreases table.len() - e,
        {
            symbols.push(table[e].0);
            e += 1;
            proof {
                assert(symbols@ =~= before + table@.take(e as int).map_values(
                    |x: (u8, CategoryCode)| x.0,
                ));
            }
        }
        proof {
            assert(table@.take(e as int) =~= table@);
            assert(tables.take(t + 1).drop_last() =~= tables.take(t as int));
            assert(tables.take(t + 1).last() == table@);
        }
        t += 1;
    }
    proof {
        assert(tables.take(t as int) =~= tables);
        lemma_symbols_len(tables);
    }
    let mut categories = stream_of_bytes(&symbols);
    let tree = match parse_u8_stream(&mut categories) {
        Some(tr) => tr,
        None => return None,
    };
    let code_map = tree.code_map();
    let mut huffman_encoded: Vec<Vec<(HuffmanCode, CategoryCode)>> = Vec::new();
    let mut t: usize = 0;
    let ghost mut done: nat = 0;
    while t < runlength_encoded.len()
        invariant
            t <= runlength_encoded.len(),
            tables == tables_view(runlength_encoded@),
            symbols@ == symbols_of(tables),
            parsed_tree(symbols@) == Some(tree),
            code_map@ == tree.codes(),
            done == symbols_of(tables.take(t as int)).len(),
            symbols_of(tables.take(t as int)) == symbols@.take(done as int),
            all_coded(symbols@.take(done as int), code_map@),
            tables_view(huffman_encoded@) == coded_tables(tables.take(t as int), code_map@),
        decreases runlength_encoded.len() - t,
    {
        let table = &runlength_encoded[t];
        let mut new_table: Vec<(HuffmanCode, CategoryCode)> = Vec::new();
        let mut e: usize = 0;
        proof {
            lemma_symbols_prefix(tables, t as int);
        }
        while e < table.len()
            invariant
                e <= table.len(),
                table@ == tables[t as int],
                t < tables.len(),
                tables == tables_view(runlength_encoded@),
                parsed_tree(symbols@) == Some(tree),
                code_map@ == tree.codes(),
                symbols@ == symbols_of(tables),
                symbols_of(tables.take(t + 1)) == symbols@.take(done + table.len()),
                symbols_of(tables.take(t as int)) == symbols@.take(done as int),
                done + table.len() <= symbols@.len(),
                all_coded(symbols@.take(done + e), code_map@),
                new_table@ == table@.take(e as int).map_values(
                    |x: (u8, CategoryCode)| (code_map@[x.0], x.1),
                ),
            decreases table.len() - e,
        {
            let entry = table[e];
            assert(symbols_of(tables.take(t + 1)) == symbols_of(tables.take(t as int))
                + table@.map_values(|x: (u8, CategoryCode)| x.0));
            assert(symbols@[done + e] == entry.0) by {
                assert(symbols@.take(done + table.len())[done + e] == symbols_of(tables.take(t + 1))[done + e]);
            }
            let code = match code_map.get(&entry.0) {
                Some(c) => *c,
                None => {
                    proof {
                        assert(!all_coded(symbols@, code_map@)) by {
                            assert(!code_map@.contains_key(symbols@[done + e]));
                        }
                    }
                    return None;
                },
            };
            new_table.push((code, entry.1));
            proof {
                assert forall|k: int| 0 <= k < done + e + 1 implies code_map@.contains_key(
                    #[trigger] symbols@.take(done + e + 1)[k],
                ) by {
                    if k < done + e {
                        assert(symbols@.take(done + e + 1)[k] == symbols@.take(done + e)[k]);
                    }
                }
            }
            e += 1;
            proof {
                assert(new_table@ =~= table@.take(e as int).map_values(
                    |x: (u8, CategoryCode)| (code_map@[x.0], x.1),
                ));
            }
        }
        let ghost before = huffman_encoded@;
        let ghost nt = new_table@;
        huffman_encoded.push(new_table);
        proof {
            assert(table@.take(e as int) =~= table@);
            assert(tables.take(t + 1) =~= tables.take(t as int).push(tables[t as int]));
            assert(tables_view(huffman_encoded@) =~= tables_view(before).push(nt));
            assert(coded_tables(tables.take(t + 1), code_map@) =~= coded_tables(
                tables.take(t as int),
                code_map@,
            ).push(tables[t as int].map_values(|x: (u8, CategoryCode)| (code_map@[x.0], x.1))));
            assert(tables_view(huffman_encoded@) =~= coded_tables(tables.take(t + 1), code_map@));
            done = done + table@.len();
        }
        t += 1;
    }
    proof {
        assert(tables.take(t as int) =~= tables);
        assert(symbols@.take(done as int) =~= symbols@);
    }
    Some((huffman_encoded, code_map))
}

proof fn lemma_symbols_prefix(tables: Seq<Seq<(u8, CategoryCode)>>, t: int)
    requires
        0 <= t < tables.len(),
    ensures
        symbols_of(tables.take(t + 1)) == symbols_of(tables.take(t)) + tables[t].map_values(
            |x: (u8, CategoryCode)| x.0,
        ),
        symbols_of(tables.take(t + 1)).len() <= symbols_of(tables).len(),
        symbols_of(tables.take(t + 1)) == symbols_of(tables).take(
            symbols_of(tables.take(t + 1)).len() as int,
        ),
    decreases tables.len(),
{
    assert(tables.take(t + 1).drop_last() =~= tables.take(t));
    if t + 1 < tables.len() {
        lemma_symbols_prefix(tables.drop_last(), t);
        assert(tables.drop_last().take(t + 1) =~= tables.take(t + 1));
        let a = symbols_of(tables.take(t + 1));
        let b = symbols_of(tables.drop_last());
        assert(symbols_of(tables) == b + tables.last().map_values(|x: (u8, CategoryCode)| x.0));
        assert((b + tables.last().map_values(|x: (u8, CategoryCode)| x.0)).take(a.len() as int)
            =~= b.take(a.len() as int));
    } else {
        assert(tables.take(t + 1) =~= tables);
        assert(symbols_of(tables).take(symbols_of(tables).len() as int) =~= symbols_of(tables));
    }
}

} // verus!

verus! {

/// At most one entry per coefficient, and one more for the end of the block.
proof fn lemma_rle_len(t: Seq<i32>, n: nat)
    requires
        n <= t.len(),
    ensures
        rle_prefix(t, n).len() + zero_run(t, n) <= n + 1,
    decreases n,
{
    if n > 0 {
        lemma_rle_len(t, (n - 1) as nat);
        let i = (n - 1) as nat;
        if t[i as int] != 0 {
            let r = zero_run(t, i);
            assert(rle_emitted(t, i).len() == r / 16 + 1);
        }
    }
}

/// The run-length coded tables of the blocks.
pub open spec fn ac_tables(ac: Seq<[i32; 63]>) -> Seq<Seq<(u8, CategoryCode)>> {
    ac.map_values(|t: [i32; 63]| rle_prefix(t@, 63))
}

/// The AC blocks [`encode_ac_coefficients`] accepts: run-length codable ones.
pub open spec fn ac_encodable(ac: Seq<[i32; 63]>) -> bool {
    forall|i: int| 0 <= i < ac.len() ==> rle_codable(#[trigger] ac[i]@)
}

proof fn lemma_entry_count_bound(ac: Seq<[i32; 63]>)
    ensures
        entry_count(ac_tables(ac)) <= 64 * ac.len(),
    decreases ac.len(),
{
    if ac.len() > 0 {
        lemma_entry_count_bound(ac.drop_last());
        assert(ac_tables(ac).drop_last() =~= ac_tables(ac.drop_last()));
        lemma_rle_len(ac.last()@, 63);
    }
}

proof fn lemma_tables_view_push<A>(before: Seq<Vec<A>>, after: Seq<Vec<A>>, t: Seq<A>)
    requires
        after.len() == before.len() + 1,
        forall|i: int| 0 <= i < before.len() ==> after[i] == before[i],
        after.last()@ == t,
    ensures
        tables_view(after) == tables_view(before).push(t),
{
    assert(tables_view(after) =~= tables_view(before).push(t));
}

proof fn lemma_ac_tables_step(ac: Seq<[i32; 63]>, i: int)
    requires
        0 <= i < ac.len(),
    ensures
        ac_tables(ac).take(i + 1) == ac_tables(ac).take(i).push(rle_prefix(ac[i]@, 63)),
{
    assert(ac_tables(ac).take(i + 1) =~= ac_tables(ac).take(i).push(rle_prefix(ac[i]@, 63)));
}

/// Run-length code each block.
fn runlength_encode_tables(ac_coefficients: &Vec<[i32; 63]>, out: &mut Vec<Vec<(u8, CategoryCode)>>)
    requires
        ac_encodable(ac_coefficients@),
    ensures
        tables_view(final(out)@) == tables_view(old(out)@) + ac_tables(ac_coefficients@),
{
    let ghost start = tables_view(out@);
    let mut i: usize = 0;
    while i < ac_coefficients.len()
        invariant
            i <= ac_coefficients.len(),
            ac_encodable(ac_coefficients@),
            tables_view(out@) == start + ac_tables(ac_coefficients@).take(i as int),
            start == tables_view(old(out)@),
        decreases ac_coefficients.len() - i,
    {
        assert(rle_codable(ac_coefficients@[i as int]@));
        let table = runlength_encode_single_ac_table(ac_coefficients[i].as_slice());
        let ghost before = out@;
        let ghost tv = table@;
        out.push(table);
        proof {
            lemma_tables_view_push(before, out@, tv);
            lemma_ac_tables_step(ac_coefficients@, i as int);
            assert(start + ac_tables(ac_coefficients@).take(i + 1) =~= (start + ac_tables(
                ac_coefficients@,
            ).take(i as int)).push(tv));
        }
        i += 1;
    }
    proof {
        assert(ac_tables(ac_coefficients@).take(i as int) =~= ac_tables(ac_coefficients@));
    }
}

/// Encode a set of AC coefficients. Coefficients are first replaced by the zero runlength
/// encoding and categorization, then huffman encoded. Returns both the now encoded values
/// and the resulting huffman code map; `None` where the symbols get no code.
pub fn encode_ac_coefficients(ac_coefficients: &Vec<[i32; 63]>) -> (r: Option<(Vec<Vec<(HuffmanCode, CategoryCode)>>, HuffmanCodeMap)>)
    requires
        ac_encodable(ac_coefficients@),
        ac_coefficients.len() * 960 <= u64::MAX,
    ensures
        ({
            let tables = ac_tables(ac_coefficients@);
            match r {
                Some((coded, map)) => code_for(symbols_of(tables)) == Some(map@) && tables_view(
                    coded@,
                ) == coded_tables(tables, map@),
                None => code_for(symbols_of(tables)) is None,
            }
        }),
{
    let mut runlength_encoded: Vec<Vec<(u8, CategoryCode)>> = Vec::new();
    runlength_encode_tables(ac_coefficients, &mut runlength_encoded);
    proof {
        assert(tables_view(runlength_encoded@) =~= ac_tables(ac_coefficients@));
        lemma_entry_count_bound(ac_coefficients@);
    }
    huffman_encode_ac_coefficients(&runlength_encoded)
}

/// Encode two sets of AC coefficients. Coefficients are first replaced by the zero
/// runlength encoding and categorization, then the sets are combined and huffman encoded.
/// Returns both the now encoded values (first the ones from `ac_coefficients_1`, then
/// `ac_coefficients_2`) and the resulting huffman code map; `None` where the symbols get no
/// code.
pub fn encode_two_ac_coefficients(ac_coefficients_1: &Vec<[i32; 63]>, ac_coefficients_2: &Vec<[i32; 63]>) -> (r:
    Option<(Vec<Vec<(HuffmanCode, CategoryCode)>>, HuffmanCodeMap)>)
    requires
        ac_encodable(ac_coefficients_1@),
        ac_encodable(ac_coefficients_2@),
        (ac_coefficients_1.len() + ac_coefficients_2.len()) * 960 <= u64::MAX,
    ensures
        ({
            let tables = ac_tables(ac_coefficients_1@ + ac_coefficients_2@);
            match r {
                Some((coded, map)) => code_for(symbols_of(tables)) == Some(map@) && tables_view(
                    coded@,
                ) == coded_tables(tables, map@),
                None => code_for(symbols_of(tables)) is None,
            }
        }),
{
    let mut runlength_encoded: Vec<Vec<(u8, CategoryCode)>> = Vec::new();
    runlength_encode_tables(ac_coefficients_1, &mut runlength_encoded);
    runlength_encode_tables(ac_coefficients_2, &mut runlength_encoded);
    proof {
        assert(tables_view(runlength_encoded@) =~= ac_tables(ac_coefficients_1@ + ac_coefficients_2@));
        lemma_entry_count_bound(ac_coefficients_1@ + ac_coefficients_2@);
    }
    huffman_encode_ac_coefficients(&runlength_encoded)
}

/// Two sets of DC coefficients coded together: each set is differenced on its own, the
/// values of the first set come first and keep their codes, then those of the second, all
/// with the one shared map.
pub proof fn lemma_two_dc_sets(
    dc1: Seq<i32>,
    dc2: Seq<i32>,
    map: Map<u8, HuffmanCode>,
)
    ensures
        coded_values(dc_diffs(dc1) + dc_diffs(dc2), map) == coded_values(dc_diffs(dc1), map)
            + coded_values(dc_diffs(dc2), map),
        categories_of(dc_diffs(dc1) + dc_diffs(dc2)) == categories_of(dc_diffs(dc1))
            + categories_of(dc_diffs(dc2)),
        dc2.len() > 0 ==> (dc_diffs(dc1) + dc_diffs(dc2))[dc1.len() as int] == dc2[0],
{
    let d1 = dc_diffs(dc1);
    let d2 = dc_diffs(dc2);
    assert(coded_values(d1 + d2, map) =~= coded_values(d1, map) + coded_values(d2, map));
    assert(categories_of(d1 + d2) =~= categories_of(d1) + categories_of(d2));
    if dc2.len() > 0 {
        assert((d1 + d2)[dc1.len() as int] == d2[0]);
        assert(previous(dc2, 0) == 0);
    }
}

/// Symbols of tables one after the other are the symbols of the first tables, then those of
/// the rest.
proof fn lemma_symbols_concat(a: Seq<Seq<(u8, CategoryCode)>>, b: Seq<Seq<(u8, CategoryCode)>>)
    ensures
        symbols_of(a + b) == symbols_of(a) + symbols_of(b),
    decreases b.len(),
{
    if b.len() == 0 {
        assert(a + b =~= a);
        assert(symbols_of(a) + symbols_of(b) =~= symbols_of(a));
    } else {
        assert((a + b).drop_last() =~= a + b.drop_last());
        assert((a + b).last() == b.last());
        lemma_symbols_concat(a, b.drop_last());
        assert(symbols_of(a) + symbols_of(b.drop_last()) + b.last().map_values(
            |e: (u8, CategoryCode)| e.0,
        ) =~= symbols_of(a) + symbols_of(b));
    }
}

/// Two sets of AC coefficients coded together are the tables of the first set, then those
/// of the second, all coded with the one map that Huffman coding of their symbols in that
/// order gives: coding them together is coding the joined set.
pub proof fn lemma_two_ac_sets(
    ac1: Seq<[i32; 63]>,
    ac2: Seq<[i32; 63]>,
    map: Map<u8, HuffmanCode>,
)
    ensures
        ac_tables(ac1 + ac2) == ac_tables(ac1) + ac_tables(ac2),
        symbols_of(ac_tables(ac1 + ac2)) == symbols_of(ac_tables(ac1)) + symbols_of(
            ac_tables(ac2),
        ),
        coded_tables(ac_tables(ac1 + ac2), map) == coded_tables(ac_tables(ac1), map)
            + coded_tables(ac_tables(ac2), map),
{
    assert(ac_tables(ac1 + ac2) =~= ac_tables(ac1) + ac_tables(ac2));
    lemma_symbols_concat(ac_tables(ac1), ac_tables(ac2));
    assert(coded_tables(ac_tables(ac1) + ac_tables(ac2), map) =~= coded_tables(
        ac_tables(ac1),
        map,
    ) + coded_tables(ac_tables(ac2), map));
}

} // verus!

verus! {

/// The place of block `idx` in the order blocks are written when rows of `per_row` blocks
/// are taken in 2x2 squares: first by pair of rows, then by pair of columns, then by row,
/// then by column.
pub open spec fn y_order_key(idx: nat, per_row: nat) -> nat {
    let row = idx / per_row;
    let col = idx % per_row;
    (((row / 2) * ((per_row + 1) / 2) + col / 2) * 4 + (row % 2) * 2 + col % 2) as nat
}

/// The criteria the blocks are sorted by, compared one after the other: the pair of rows,
/// the pair of columns, the row, the position.
pub open spec fn y_order_less(i: nat, j: nat, per_row: nat) -> bool {
    let a = (i / (2 * per_row), (i % per_row) / 2, i / per_row, i);
    let b = (j / (2 * per_row), (j % per_row) / 2, j / per_row, j);
    a.0 < b.0 || (a.0 == b.0 && (a.1 < b.1 || (a.1 == b.1 && (a.2 < b.2 || (a.2 == b.2
        && a.3 < b.3)))))
}

/// The blocks reordered by [`y_order_key`], which orders blocks as [`y_order_less`] does.
pub open spec fn y_reordered<T>(s: Seq<T>, per_row: nat) -> Seq<T> {
    sorted_by_weight(Seq::new(s.len(), |i: int| (y_order_key(i as nat, per_row) as u64, s[i]))).map_values(
        |x: (u64, T)| x.1,
    )
}

proof fn lemma_div_parts(i: nat, p: nat)
    requires
        p > 0,
    ensures
        i / (2 * p) == (i / p) / 2,
        i == (i / p) * p + i % p,
        i % p < p,
{
    assert(i / (2 * p) == (i / p) / 2) by {
        vstd::arithmetic::div_mod::lemma_div_denominator(i as int, p as int, 2);
        assert(p * 2 == 2 * p) by (nonlinear_arith);
    }
    vstd::arithmetic::div_mod::lemma_fundamental_div_mod(i as int, p as int);
    assert(i == p * (i / p) + i % p);
    assert(p * (i / p) == (i / p) * p) by (nonlinear_arith);
}

/// Ordering blocks by [`y_order_key`] is ordering them by the criteria of
/// [`y_order_less`].
pub proof fn lemma_y_order_key(i: nat, j: nat, per_row: nat)
    requires
        per_row > 0,
    ensures
        y_order_key(i, per_row) < y_order_key(j, per_row) <==> y_order_less(i, j, per_row),
{
    let p = per_row;
    let h = (p + 1) / 2;
    lemma_div_parts(i, p);
    lemma_div_parts(j, p);
    let ri = i / p;
    let ci = i % p;
    let rj = j / p;
    let cj = j % p;
    assert(ci / 2 < h && cj / 2 < h);
    let bi = (ri / 2) * h + ci / 2;
    let bj = (rj / 2) * h + cj / 2;
    assert(ri / 2 < rj / 2 ==> bi < bj) by (nonlinear_arith)
        requires bi == (ri / 2) * h + ci / 2, bj == (rj / 2) * h + cj / 2, ci / 2 < h, cj / 2
            < h;
    assert(ri / 2 == rj / 2 ==> (bi < bj <==> ci / 2 < cj / 2));
    assert(ri / 2 > rj / 2 ==> bi > bj) by (nonlinear_arith)
        requires bi == (ri / 2) * h + ci / 2, bj == (rj / 2) * h + cj / 2, ci / 2 < h, cj / 2
            < h;
    assert(ri / 2 == rj / 2 && ri % 2 < rj % 2 ==> ri < rj);
    assert(ri / 2 == rj / 2 && ri % 2 == rj % 2 ==> ri == rj);
    assert(ri == rj ==> (i < j <==> ci < cj)) by (nonlinear_arith)
        requires i == ri * p + ci, j == rj * p + cj;
    assert(ci / 2 == cj / 2 ==> (ci < cj <==> ci % 2 < cj % 2));
}

/// The position among the original blocks of the block that comes `j`-th after reordering,
/// for rows of `per_row` blocks with `per_row` even: block `j / 4` of 2x2 squares, taken
/// left to right and then top to bottom, and within it position `j % 4`, row by row.
pub open spec fn y_source(j: nat, per_row: nat) -> nat {
    let h = per_row / 2;
    let b = j / 4;
    ((2 * (b / h) + (j % 4) / 2) * per_row + 2 * (b % h) + j % 2) as nat
}

/// The block at [`y_source`] is the `j`-th in the order of [`y_order_key`], and lies among
/// the blocks of a picture of `rows` pairs of full rows.
proof fn lemma_y_source(j: nat, per_row: nat, rows: nat)
    requires
        per_row >= 2,
        per_row % 2 == 0,
        j < 2 * per_row * rows,
    ensures
        y_source(j, per_row) < 2 * per_row * rows,
        y_order_key(y_source(j, per_row), per_row) == j,
{
    let p = per_row as int;
    let h = p / 2;
    let jj = j as int;
    let b = jj / 4;
    let r = 2 * (b / h) + (jj % 4) / 2;
    let c = 2 * (b % h) + jj % 2;
    let i = r * p + c;
    assert(p == 2 * h);
    assert(b == (b / h) * h + b % h) by {
        vstd::arithmetic::div_mod::lemma_fundamental_div_mod(b, h);
        assert(h * (b / h) == (b / h) * h) by (nonlinear_arith);
    }
    assert(0 <= b % h < h) by {
        vstd::arithmetic::div_mod::lemma_mod_bound(b, h);
    }
    assert(0 <= c < p);
    assert(i == y_source(j, per_row));
    vstd::arithmetic::div_mod::lemma_fundamental_div_mod_converse(i, p, r, c);
    assert(i / p == r && i % p == c);
    assert(r / 2 == b / h && r % 2 == (jj % 4) / 2);
    assert(c / 2 == b % h && c % 2 == jj % 2);
    assert((p + 1) / 2 == h);
    assert((b / h) * h + b % h == b);
    assert(jj == 4 * b + (jj % 4) / 2 * 2 + jj % 2);
    assert(y_order_key(i as nat, per_row) == ((b / h) * h + b % h) * 4 + ((jj % 4) / 2) * 2
        + jj % 2);
    assert(b < h * rows) by (nonlinear_arith)
        requires b == jj / 4, jj < 2 * p * rows, p == 2 * h, h >= 1;
    assert(b / h < rows) by (nonlinear_arith)
        requires b < h * rows, h >= 1, b >= 0;
    assert(i < 2 * p * rows) by (nonlinear_arith)
        requires i == r * p + c, r <= 2 * (b / h) + 1, b / h < rows, c < p, p >= 2;
}

/// A block key of a picture of `rows` pairs of full rows lies below the number of blocks.
proof fn lemma_y_key_bound(i: nat, per_row: nat, rows: nat)
    requires
        per_row >= 2,
        per_row % 2 == 0,
        i < 2 * per_row * rows,
    ensures
        y_order_key(i, per_row) < 2 * per_row * rows,
{
    let p = per_row as int;
    let h = p / 2;
    let ii = i as int;
    let row = ii / p;
    let col = ii % p;
    assert(row < 2 * rows) by (nonlinear_arith)
        requires row == ii / p, ii < 2 * p * rows, p >= 2;
    assert(col < p);
    assert((p + 1) / 2 == h && p == 2 * h);
    assert(row / 2 < rows && col / 2 < h);
    assert(((row / 2) * h + col / 2) * 4 + (row % 2) * 2 + col % 2 < 2 * p * rows) by (
    nonlinear_arith)
        requires row / 2 < rows, col / 2 < h, p == 2 * h, row % 2 <= 1, col % 2 <= 1,
            row / 2 >= 0, col / 2 >= 0;
}

/// Strictly increasing keys, all below the length, are the positions themselves.
proof fn lemma_increasing_keys_are_positions<T>(t: Seq<(u64, T)>)
    requires
        forall|i: int, j: int| 0 <= i < j < t.len() ==> #[trigger] t[i].0 < #[trigger] t[j].0,
        forall|i: int| 0 <= i < t.len() ==> #[trigger] t[i].0 < t.len(),
    ensures
        forall|j: int| 0 <= j < t.len() ==> #[trigger] t[j].0 == j,
{
    assert forall|j: int| 0 <= j < t.len() implies #[trigger] t[j].0 >= j by {
        lemma_keys_at_least(t, j);
    }
    assert forall|j: int| 0 <= j < t.len() implies #[trigger] t[j].0 <= j by {
        lemma_keys_at_most(t, j);
    }
}

proof fn lemma_keys_at_least<T>(t: Seq<(u64, T)>, j: int)
    requires
        0 <= j < t.len(),
        forall|i: int, k: int| 0 <= i < k < t.len() ==> #[trigger] t[i].0 < #[trigger] t[k].0,
    ensures
        t[j].0 >= j,
    decreases j,
{
    if j > 0 {
        lemma_keys_at_least(t, j - 1);
        assert(t[j - 1].0 < t[j].0);
    }
}

proof fn lemma_keys_at_most<T>(t: Seq<(u64, T)>, j: int)
    requires
        0 <= j < t.len(),
        forall|i: int, k: int| 0 <= i < k < t.len() ==> #[trigger] t[i].0 < #[trigger] t[k].0,
        forall|i: int| 0 <= i < t.len() ==> #[trigger] t[i].0 < t.len(),
    ensures
        t[j].0 <= j,
    decreases t.len() - j,
{
    if j < t.len() - 1 {
        lemma_keys_at_most(t, j + 1);
        assert(t[j].0 < t[j + 1].0);
    } else {
        assert(t[j].0 < t.len());
    }
}

/// For rows of an even number of blocks and whole pairs of rows, reordering puts each 2x2
/// square of blocks, row by row, in four consecutive places, the squares left to right and
/// then top to bottom: place `j` gets the block at [`y_source`], and no two places get the
/// same block.
pub proof fn lemma_y_reordered_squares<T>(s: Seq<T>, per_row: nat, rows: nat)
    requires
        per_row >= 2,
        per_row % 2 == 0,
        s.len() == 2 * per_row * rows,
        s.len() <= 0x2000_0000_0000_0000,
    ensures
        y_reordered(s, per_row).len() == s.len(),
        forall|j: nat|
            j < s.len() ==> #[trigger] y_source(j, per_row) < s.len() && y_reordered(s, per_row)[j as int]
                == s[y_source(j, per_row) as int],
        forall|j: nat, k: nat|
            j < s.len() && k < s.len() && j != k ==> #[trigger] y_source(j, per_row) != #[trigger] y_source(
                k,
                per_row,
            ),
{
    let n = s.len();
    let keyed = Seq::new(n, |i: int| (y_order_key(i as nat, per_row) as u64, s[i]));
    let sorted = sorted_by_weight(keyed);
    lemma_sorted_elements(keyed);
    lemma_sorted_contains(keyed);
    lemma_sorted_ordered(keyed);
    assert forall|i: int| 0 <= i < n implies #[trigger] keyed[i].0 == y_order_key(i as nat, per_row)
        && y_order_key(i as nat, per_row) < n by {
        lemma_y_key_bound(i as nat, per_row, rows);
    }
    assert forall|a: int, b: int| 0 <= a < n && 0 <= b < n && a != b implies #[trigger] keyed[a].0
        != #[trigger] keyed[b].0 by {
        lemma_y_order_key(a as nat, b as nat, per_row);
        lemma_y_order_key(b as nat, a as nat, per_row);
    }
    assert(keyed.no_duplicates()) by {
        assert forall|a: int, b: int| 0 <= a < n && 0 <= b < n && a != b implies keyed[a]
            != keyed[b] by {
            assert(keyed[a].0 != keyed[b].0);
        }
    }
    lemma_sorted_no_duplicates(keyed);
    assert forall|i: int| 0 <= i < sorted.len() implies #[trigger] sorted[i].0 < sorted.len() by {
        assert(keyed.contains(sorted[i]));
        let w = choose|w: int| 0 <= w < keyed.len() && keyed[w] == sorted[i];
        assert(keyed[w].0 < n);
    }
    assert forall|i: int, j: int| 0 <= i < j < sorted.len() implies #[trigger] sorted[i].0
        < #[trigger] sorted[j].0 by {
        assert(sorted[i].0 <= sorted[j].0);
        assert(sorted[i] != sorted[j]);
        assert(keyed.contains(sorted[i]) && keyed.contains(sorted[j]));
        let wi = choose|w: int| 0 <= w < keyed.len() && keyed[w] == sorted[i];
        let wj = choose|w: int| 0 <= w < keyed.len() && keyed[w] == sorted[j];
        assert(wi != wj);
        assert(keyed[wi].0 != keyed[wj].0);
    }
    lemma_increasing_keys_are_positions(sorted);
    assert forall|j: nat| j < s.len() implies #[trigger] y_source(j, per_row) < s.len()
        && y_reordered(s, per_row)[j as int] == s[y_source(j, per_row) as int] by {
        lemma_y_source(j, per_row, rows);
        let i = y_source(j, per_row) as int;
        assert(keyed[i] == (j as u64, s[i]));
        assert(sorted.contains(keyed[i]));
        let w = choose|w: int| 0 <= w < sorted.len() && sorted[w] == keyed[i];
        assert(sorted[w].0 == w);
        assert(w == j);
    }
    assert forall|j: nat, k: nat| j < s.len() && k < s.len() && j != k implies #[trigger] y_source(
        j,
        per_row,
    ) != #[trigger] y_source(k, per_row) by {
        lemma_y_source(j, per_row, rows);
        lemma_y_source(k, per_row, rows);
    }
}

/// Re-order the Y coefficients to match the order they will be processed and printed out
/// in: 2x2 blocks, going from left to right, then top to bottom, for an image `width`
/// pixels wide (so `width / 8` blocks per row).
pub fn reorder_y_coefficients<T: Copy>(coefficients: &mut Vec<T>, width: u16)
    requires
        old(coefficients).len() > 0 ==> width >= 8,
        old(coefficients).len() <= 0x2000_0000_0000_0000,
    ensures
        final(coefficients)@ == y_reordered(old(coefficients)@, (width / 8) as nat),
{
    let ghost orig = coefficients@;
    let blocks_per_row: usize = width as usize / 8;
    let n = coefficients.len();
    let mut keyed: Vec<(u64, T)> = Vec::new();
    let mut idx: usize = 0;
    while idx < n
        invariant
            n == coefficients.len(),
            coefficients@ == orig,
            idx <= n <= 0x2000_0000_0000_0000,
            n > 0 ==> blocks_per_row >= 1,
            blocks_per_row == (width / 8) as nat,
            blocks_per_row <= 8191,
            keyed@ == Seq::new(orig.len(), |i: int| (y_order_key(i as nat, blocks_per_row as nat) as u64, orig[i])).take(idx as int),
        decreases n - idx,
    {
        let row = idx / blocks_per_row;
        let col = idx % blocks_per_row;
        let half = (blocks_per_row + 1) / 2;
        proof {
            lemma_div_parts(idx as nat, blocks_per_row as nat);
            assert((row / 2) * half <= row * blocks_per_row) by (nonlinear_arith)
                requires half <= blocks_per_row, row / 2 <= row;
        }
        let block: u64 = (row / 2) as u64 * half as u64 + (col / 2) as u64;
        let key: u64 = block * 4 + ((row % 2) * 2 + col % 2) as u64;
        assert(key == y_order_key(idx as nat, blocks_per_row as nat));
        keyed.push((key, coefficients[idx]));
        idx += 1;
        proof {
            assert(keyed@ =~= Seq::new(orig.len(), |i: int| (y_order_key(i as nat, blocks_per_row as nat) as u64, orig[i])).take(idx as int));
        }
    }
    proof {
        assert(Seq::new(orig.len(), |i: int| (y_order_key(i as nat, blocks_per_row as nat) as u64, orig[i])).take(n as int)
            =~= Seq::new(orig.len(), |i: int| (y_order_key(i as nat, blocks_per_row as nat) as u64, orig[i])));
    }
    let mut sorted = sort_by_weight(keyed);
    let ghost srt = sorted@;
    let mut result: Vec<T> = Vec::new();
    let mut k: usize = 0;
    while k < sorted.len()
        invariant
            k <= sorted.len(),
            sorted@ == srt,
            result@ == srt.map_values(|x: (u64, T)| x.1).take(k as int),
        decreases sorted.len() - k,
    {
        result.push(sorted[k].1);
        k += 1;
        proof {
            assert(result@ =~= srt.map_values(|x: (u64, T)| x.1).take(k as int));
        }
    }
    proof {
        assert(result@ =~= srt.map_values(|x: (u64, T)| x.1));
    }
    *coefficients = result;
}

} // verus!
