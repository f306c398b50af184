//! Bit-level vocabulary shared by the stream code: which bit of a byte is set,
//! how a byte sequence reads as a bit sequence, and how a bit sequence reads as a number.

use vstd::prelude::*;

verus! {

/// Bit `i` of `b`, counted from the most significant bit (i = 0) to the least (i = 7).
pub open spec fn bit_at(b: u8, i: u8) -> bool {
    (b << i) & 0x80u8 == 0x80u8
}

/// Bit `i` of the lowest `n` bits of `v`, counted from the most significant of those `n` bits.
pub open spec fn low_bit_u16(v: u16, n: u16, i: u16) -> bool {
    (v >> ((n - 1 - i) as u16)) & 1u16 == 1u16
}

/// The eight bits of a byte, most significant first.
pub open spec fn byte_bits(b: u8) -> Seq<bool> {
    Seq::new(8, |i: int| bit_at(b, i as u8))
}

/// All bits of a byte sequence, each byte most significant bit first.
pub open spec fn bytes_bits(data: Seq<u8>) -> Seq<bool> {
    Seq::new((data.len() * 8) as nat, |k: int| bit_at(data[k / 8], (k % 8) as u8))
}

/// The lowest `n` bits of an 8-bit value, most significant first.
pub open spec fn low_bits_u8(v: u8, n: nat) -> Seq<bool> {
    Seq::new(n, |i: int| low_bit_u16(v as u16, n as u16, i as u16))
}

/// The lowest `n` bits of a 16-bit value, most significant first.
pub open spec fn low_bits_u16(v: u16, n: nat) -> Seq<bool> {
    Seq::new(n, |i: int| low_bit_u16(v, n as u16, i as u16))
}

/// A bit sequence read as a big-endian unsigned number.
pub open spec fn bits_value(s: Seq<bool>) -> nat
    decreases s.len(),
{
    if s.len() == 0 {
        0
    } else {
        2 * bits_value(s.drop_last()) + if s.last() { 1nat } else { 0nat }
    }
}

/// `n` copies of the bit `b`.
pub open spec fn repeat_bit(b: bool, n: nat) -> Seq<bool> {
    Seq::new(n, |i: int| b)
}

/// The bits of `b` after the first `n` (from the most significant end) are all zero.
pub open spec fn tail_clear(b: u8, n: u8) -> bool {
    n >= 8 || (b << n) == 0
}

} // verus!

verus! {

/// `v` holds the bit sequence `s`: its lowest `s.len()` bits, most significant first,
/// are `s`, and no higher bit is set.
pub open spec fn u16_holds(v: u16, s: Seq<bool>) -> bool {
    &&& s.len() <= 16
    &&& s.len() < 16 ==> (v >> (s.len() as u16)) == 0
    &&& forall|i: int| 0 <= i < s.len() ==> #[trigger] s[i] == low_bit_u16(v, s.len() as u16, i as u16)
}

pub proof fn lemma_concat_bit(a: u16, c: u16, ls: u16, lt: u16, i: u16)
    by (bit_vector)
    requires
        ls + lt <= 16,
        ls < 16 ==> (a >> ls) == 0,
        lt < 16 ==> (c >> lt) == 0,
        i < ls + lt,
    ensures
        i < ls ==> (((((a << lt) + c) as u16) >> ((ls + lt - 1 - i) as u16)) & 1u16 == 1u16) == ((a
            >> ((ls - 1 - i) as u16)) & 1u16 == 1u16),
        i >= ls ==> (((((a << lt) + c) as u16) >> ((ls + lt - 1 - i) as u16)) & 1u16 == 1u16) == ((c
            >> ((lt - 1 - (i - ls)) as u16)) & 1u16 == 1u16),
{
}

pub proof fn lemma_concat_high(a: u16, c: u16, ls: u16, lt: u16)
    by (bit_vector)
    requires
        ls + lt < 16,
        (a >> ls) == 0,
        (c >> lt) == 0,
    ensures
        (((a << lt) + c) as u16) >> ((ls + lt) as u16) == 0,
        (a << lt) + c <= 0xffff,
{
}

pub proof fn lemma_concat_no_overflow(a: u16, c: u16, ls: u16, lt: u16)
    by (bit_vector)
    requires
        ls + lt == 16,
        ls < 16 ==> (a >> ls) == 0,
        lt < 16 ==> (c >> lt) == 0,
    ensures
        (a << lt) + c <= 0xffff,
{
}

/// Putting the bits held by `c` behind those held by `a`.
pub proof fn lemma_u16_concat(a: u16, c: u16, s: Seq<bool>, t: Seq<bool>)
    requires
        u16_holds(a, s),
        u16_holds(c, t),
        s.len() + t.len() <= 16,
    ensures
        (a << (t.len() as u16)) + c <= 0xffff,
        u16_holds(((a << (t.len() as u16)) + c) as u16, s + t),
{
    let ls = s.len() as u16;
    let lt = t.len() as u16;
    if s.len() + t.len() < 16 {
        lemma_concat_high(a, c, ls, lt);
    } else {
        lemma_concat_no_overflow(a, c, ls, lt);
    }
    let r = ((a << lt) + c) as u16;
    assert forall|i: int| 0 <= i < (s + t).len() implies #[trigger] (s + t)[i] == low_bit_u16(
        r,
        (s + t).len() as u16,
        i as u16,
    ) by {
        lemma_concat_bit(a, c, ls, lt, i as u16);
        if i < s.len() {
            assert(s[i] == low_bit_u16(a, ls, i as u16));
        } else {
            assert(t[i - s.len()] == low_bit_u16(c, lt, (i - s.len()) as u16));
        }
    }
}

pub proof fn lemma_shr_drop_bit(v: u16, n: u16, k: u16, i: u16)
    by (bit_vector)
    requires
        k <= n,
        n <= 16,
        i < n - k,
    ensures
        (((v >> k) >> ((n - k - 1 - i) as u16)) & 1u16 == 1u16) == ((v >> ((n - 1 - i) as u16))
            & 1u16 == 1u16),
{
}

pub proof fn lemma_shr_drop_high(v: u16, n: u16, k: u16)
    by (bit_vector)
    requires
        k <= n,
        n <= 16,
        n < 16 ==> (v >> n) == 0,
        k >= 1,
    ensures
        ((v >> k) >> ((n - k) as u16)) == 0,
{
}

/// Shifting right by `k` drops the last `k` held bits.
pub proof fn lemma_u16_shr(v: u16, s: Seq<bool>, k: u16)
    requires
        u16_holds(v, s),
        1 <= k <= s.len(),
    ensures
        u16_holds(v >> k, s.take(s.len() - k)),
{
    let n = s.len() as u16;
    lemma_shr_drop_high(v, n, k);
    assert forall|i: int| 0 <= i < s.len() - k implies #[trigger] s.take(s.len() - k)[i]
        == low_bit_u16(v >> k, (s.len() - k) as u16, i as u16) by {
        lemma_shr_drop_bit(v, n, k, i as u16);
        assert(s[i] == low_bit_u16(v, n, i as u16));
    }
}

pub proof fn lemma_one_bit(pad: bool)
    ensures
        u16_holds(if pad { 1u16 } else { 0u16 }, seq![pad]),
{
    assert(((if pad { 1u16 } else { 0u16 }) >> 1u16) == 0) by (bit_vector);
    assert(((if pad { 1u16 } else { 0u16 }) >> 0u16) & 1u16 == 1u16 <==> pad) by (bit_vector);
    assert(low_bit_u16(if pad { 1u16 } else { 0u16 }, 1, 0) == pad);
}

} // verus!

verus! {

pub proof fn lemma_shift_add_bit(b: u8, v: u8, last: u8, bto: u8, j: u8)
    by (bit_vector)
    requires
        1 <= bto,
        last + bto <= 8,
        (b << last) == 0,
        bto < 8 ==> (v >> bto) == 0,
        j < 8,
    ensures
        b + (v << ((8 - bto - last) as u8)) <= 255,
        (((b + (v << ((8 - bto - last) as u8))) as u8) << j) & 0x80u8 == 0x80u8 <==> if j < last {
            (b << j) & 0x80u8 == 0x80u8
        } else if j < last + bto {
            (v >> ((bto - 1 - (j - last)) as u8)) & 1u8 == 1u8
        } else {
            false
        },
        last + bto >= 8 || (((b + (v << ((8 - bto - last) as u8))) as u8) << ((last + bto) as u8)) == 0,
{
}

pub proof fn lemma_split_byte(v: u8, last: u8, j: u8)
    by (bit_vector)
    requires
        1 <= last <= 7,
        j < 8,
    ensures
        ((v >> last) >> ((8 - last) as u8)) == 0,
        last <= j ==> (((v >> last) >> ((8 - last - 1 - (j - last)) as u8)) & 1u8 == 1u8 <==> (v << ((
        j - last) as u8)) & 0x80u8 == 0x80u8),
        (((v << ((8 - last) as u8)) << j) & 0x80u8 == 0x80u8) <==> if j < last {
            (v << ((j + 8 - last) as u8)) & 0x80u8 == 0x80u8
        } else {
            false
        },
        ((v << ((8 - last) as u8)) << last) == 0,
{
}

pub proof fn lemma_bit_of_flag(value: bool)
    ensures
        ((if value { 1u8 } else { 0u8 }) >> 1u8) == 0,
        ((if value { 1u8 } else { 0u8 }) >> 0u8) & 1u8 == 1u8 <==> value,
        bit_at(if value { 0x80u8 } else { 0u8 }, 0) == value,
        tail_clear(if value { 0x80u8 } else { 0u8 }, 1),
{
    assert(((if value { 1u8 } else { 0u8 }) >> 1u8) == 0 && (((if value { 1u8 } else { 0u8 })
        >> 0u8) & 1u8 == 1u8 <==> value) && (((if value { 0x80u8 } else { 0u8 }) << 0u8) & 0x80u8
        == 0x80u8 <==> value) && ((if value { 0x80u8 } else { 0u8 }) << 1u8) == 0) by (bit_vector);
}

} // verus!

verus! {

/// Bit `j` of `c`, counted from the most significant bit (j = 0) to the least (j = 15).
pub open spec fn bit_at_u16(c: u16, j: u16) -> bool {
    (c << j) & 0x8000u16 == 0x8000u16
}

/// The sixteen bits of a word, most significant first.
pub open spec fn word_bits(c: u16) -> Seq<bool> {
    Seq::new(16, |j: int| bit_at_u16(c, j as u16))
}

/// All bits of a word sequence, each word most significant bit first.
pub open spec fn words_bits(s: Seq<u16>) -> Seq<bool> {
    Seq::new((s.len() * 16) as nat, |k: int| bit_at_u16(s[k / 16], (k % 16) as u16))
}

pub proof fn lemma_mask_bits(b: u8, c: u16, v: u8, w: u16, j: u16)
    by (bit_vector)
    requires
        j < 16,
    ensures
        j < 8 ==> ((b & (0x80u8 >> (j as u8))) != 0 <==> (b << (j as u8)) & 0x80u8 == 0x80u8),
        (c & (0x8000u16 >> j)) != 0 <==> (c << j) & 0x8000u16 == 0x8000u16,
        j < 8 ==> ((v & (1u8 << (j as u8))) != 0 <==> ((v as u16) >> j) & 1u16 == 1u16),
        (w & (1u16 << j)) != 0 <==> (w >> j) & 1u16 == 1u16,
        j < 8 ==> ((((w >> 8u16) as u8) << (j as u8)) & 0x80u8 == 0x80u8 <==> (w << j) & 0x8000u16
            == 0x8000u16),
        j < 8 ==> (((w as u8) << (j as u8)) & 0x80u8 == 0x80u8 <==> (w << ((j + 8) as u16))
            & 0x8000u16 == 0x8000u16),
{
}

pub proof fn lemma_byte_bits_push(data: Seq<u8>, i: int)
    requires
        0 <= i < data.len(),
    ensures
        bytes_bits(data.take(i + 1)) =~= bytes_bits(data.take(i)) + byte_bits(data[i]),
{
    let l = bytes_bits(data.take(i + 1));
    let r = bytes_bits(data.take(i)) + byte_bits(data[i]);
    assert forall|k: int| 0 <= k < l.len() implies l[k] == r[k] by {
        if k < i * 8 {
            assert(k / 8 < i) by (nonlinear_arith)
                requires 0 <= k < i * 8;
        } else {
            assert(k / 8 == i && k % 8 == k - i * 8) by (nonlinear_arith)
                requires i * 8 <= k < i * 8 + 8;
        }
    }
}

pub proof fn lemma_word_bits_push(data: Seq<u16>, i: int)
    requires
        0 <= i < data.len(),
    ensures
        words_bits(data.take(i + 1)) =~= words_bits(data.take(i)) + word_bits(data[i]),
{
    let l = words_bits(data.take(i + 1));
    let r = words_bits(data.take(i)) + word_bits(data[i]);
    assert forall|k: int| 0 <= k < l.len() implies l[k] == r[k] by {
        if k < i * 16 {
            assert(k / 16 < i) by (nonlinear_arith)
                requires 0 <= k < i * 16;
        } else {
            assert(k / 16 == i && k % 16 == k - i * 16) by (nonlinear_arith)
                requires i * 16 <= k < i * 16 + 16;
        }
    }
}

} // verus!
