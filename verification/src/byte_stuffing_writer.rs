//! Writing bits so that every run of eight one-bits is followed by eight zero-bits.

use vstd::prelude::*;
use crate::bit_stream::{BitStream, lemma_extends_trans};
use crate::bits::{low_bits_u8, low_bits_u16, low_bit_u16, repeat_bit, byte_bits, bit_at};

verus! {

/// A writer that keeps count of the one-bits it has just written, and inserts eight
/// zero-bits whenever that count reaches eight.
pub struct ByteStuffingWriter {
    trailing_ones: u32,
}

/// Stuffing `bits` when `t` one-bits have just been written: each bit is copied, and
/// whenever the run of ones reaches eight, eight zero-bits follow it. The second part of
/// the result is the length of the run of ones at the end.
pub open spec fn stuff_bits(t: nat, bits: Seq<bool>) -> (Seq<bool>, nat)
    decreases bits.len(),
{
    if bits.len() == 0 {
        (Seq::empty(), t)
    } else if bits[0] {
        if t + 1 == 8 {
            let r = stuff_bits(0, bits.drop_first());
            (seq![true] + repeat_bit(false, 8) + r.0, r.1)
        } else {
            let r = stuff_bits(t + 1, bits.drop_first());
            (seq![true] + r.0, r.1)
        }
    } else {
        let r = stuff_bits(0, bits.drop_first());
        (seq![false] + r.0, r.1)
    }
}

/// Removing the stuffing: after each run of eight one-bits, the next eight bits are dropped.
pub open spec fn unstuff_bits(t: nat, out: Seq<bool>) -> Seq<bool>
    decreases out.len(),
{
    if out.len() == 0 {
        Seq::empty()
    } else if out[0] {
        if t + 1 == 8 {
            let rest = out.drop_first();
            seq![true] + unstuff_bits(0, if rest.len() >= 8 { rest.skip(8) } else { Seq::empty() })
        } else {
            seq![true] + unstuff_bits(t + 1, out.drop_first())
        }
    } else {
        seq![false] + unstuff_bits(0, out.drop_first())
    }
}

/// Number of leading one-bits.
pub open spec fn leading_ones(s: Seq<bool>) -> nat
    decreases s.len(),
{
    if s.len() == 0 {
        0
    } else if s[0] {
        1 + leading_ones(s.drop_first())
    } else {
        0
    }
}

/// Number of trailing one-bits.
pub open spec fn trailing_ones(s: Seq<bool>) -> nat
    decreases s.len(),
{
    if s.len() == 0 {
        0
    } else if s.last() {
        1 + trailing_ones(s.drop_last())
    } else {
        0
    }
}

proof fn lemma_leading_ones_char(s: Seq<bool>, k: nat)
    requires
        k <= s.len(),
        forall|i: int| 0 <= i < k ==> s[i],
        k < s.len() ==> !s[k as int],
    ensures
        leading_ones(s) == k,
    decreases s.len(),
{
    if s.len() > 0 && k > 0 {
        lemma_leading_ones_char(s.drop_first(), (k - 1) as nat);
    }
}

proof fn lemma_trailing_ones_char(s: Seq<bool>, k: nat)
    requires
        k <= s.len(),
        forall|i: int| s.len() - k <= i < s.len() ==> s[i],
        k < s.len() ==> !s[s.len() - 1 - k],
    ensures
        trailing_ones(s) == k,
    decreases s.len(),
{
    if s.len() > 0 && k > 0 {
        lemma_trailing_ones_char(s.drop_last(), (k - 1) as nat);
    }
}

proof fn lemma_trailing_ones_le(s: Seq<bool>)
    ensures
        trailing_ones(s) <= s.len(),
        trailing_ones(s) == s.len() ==> leading_ones(s) == s.len(),
        leading_ones(s) == s.len() ==> trailing_ones(s) == s.len(),
    decreases s.len(),
{
    if s.len() > 0 {
        if leading_ones(s) == s.len() {
            assert forall|i: int| 0 <= i < s.len() implies s[i] by {
                lemma_leading_all(s, i);
            }
            lemma_trailing_ones_char(s, s.len());
        }
        lemma_trailing_ones_le(s.drop_last());
        if trailing_ones(s) == s.len() {
            assert forall|i: int| 0 <= i < s.len() implies s[i] by {
                lemma_all_ones_from_trailing(s, i);
            }
            lemma_leading_ones_char(s, s.len());
        }
    }
}

proof fn lemma_all_ones_from_trailing(s: Seq<bool>, i: int)
    requires
        trailing_ones(s) == s.len(),
        0 <= i < s.len(),
    ensures
        s[i],
    decreases s.len(),
{
    if i < s.len() - 1 {
        lemma_all_ones_from_trailing(s.drop_last(), i);
    }
}

proof fn lemma_trailing_ones_drop_first(s: Seq<bool>)
    requires
        s.len() > 0,
        trailing_ones(s) < s.len(),
    ensures
        trailing_ones(s.drop_first()) == trailing_ones(s) || (trailing_ones(s.drop_first())
            == s.len() - 1 && !s[0] && trailing_ones(s) == s.len() - 1),
    decreases s.len(),
{
    if s.len() > 1 && s.last() {
        lemma_trailing_ones_drop_first(s.drop_last());
        assert(s.drop_last().drop_first() =~= s.drop_first().drop_last());
    }
}

/// Stuffing, with fewer than eight ones run together, copies the bits.
proof fn lemma_stuff_pass(t: nat, s: Seq<bool>)
    requires
        t < 8,
        s.len() <= 8,
        t + leading_ones(s) < 8,
    ensures
        stuff_bits(t, s).0 == s,
        stuff_bits(t, s).1 == if leading_ones(s) == s.len() {
            t + s.len()
        } else {
            trailing_ones(s)
        },
    decreases s.len(),
{
    if s.len() > 0 {
        let d = s.drop_first();
        lemma_trailing_ones_le(d);
        lemma_trailing_ones_le(s);
        if s[0] {
            lemma_stuff_pass(t + 1, d);
            if leading_ones(s) != s.len() {
                lemma_trailing_ones_drop_first(s);
            }
        } else {
            lemma_leading_ones_le(d);
            lemma_stuff_pass(0, d);
            lemma_trailing_ones_drop_first(s);
            if leading_ones(d) == d.len() {
                assert forall|i: int| 0 <= i < d.len() implies d[i] by {
                    lemma_leading_all(d, i);
                }
                assert forall|i: int| s.len() - d.len() <= i < s.len() implies s[i] by {
                    assert(s[i] == d[i - 1]);
                }
                lemma_trailing_ones_char(s, d.len());
            }
        }
        assert(s =~= seq![s[0]] + d);
    }
}

proof fn lemma_leading_ones_le(s: Seq<bool>)
    ensures
        leading_ones(s) <= s.len(),
    decreases s.len(),
{
    if s.len() > 0 {
        lemma_leading_ones_le(s.drop_first());
    }
}

proof fn lemma_leading_all(s: Seq<bool>, i: int)
    requires
        leading_ones(s) == s.len(),
        0 <= i < s.len(),
    ensures
        s[i],
    decreases s.len(),
{
    if i > 0 {
        lemma_leading_all(s.drop_first(), i - 1);
    }
}

/// Stuffing, when the run of ones reaches eight, puts eight zero-bits behind that run.
proof fn lemma_stuff_insert(t: nat, s: Seq<bool>)
    requires
        t < 8,
        s.len() <= 8,
        t + leading_ones(s) >= 8,
    ensures
        stuff_bits(t, s).0 == repeat_bit(true, (8 - t) as nat) + repeat_bit(false, 8) + s.skip(
            8 - t,
        ),
        stuff_bits(t, s).1 == trailing_ones(s.skip(8 - t)),
    decreases s.len(),
{
    lemma_leading_ones_le(s);
    let d = s.drop_first();
    assert(s[0]);
    if t + 1 == 8 {
        lemma_leading_ones_le(d);
        lemma_stuff_pass(0, d);
        lemma_trailing_ones_le(d);
        if leading_ones(d) == d.len() {
            assert forall|i: int| 0 <= i < d.len() implies d[i] by {
                lemma_leading_all(d, i);
            }
            lemma_trailing_ones_char(d, d.len());
        }
        assert(s.skip(1) =~= d);
        assert(seq![true] + repeat_bit(false, 8) + d =~= repeat_bit(true, 1) + repeat_bit(false, 8)
            + d);
    } else {
        lemma_stuff_insert(t + 1, d);
        assert(d.skip(8 - (t + 1)) =~= s.skip(8 - t));
        assert(seq![true] + (repeat_bit(true, (8 - (t + 1)) as nat) + repeat_bit(false, 8) + d.skip(
            8 - (t + 1),
        )) =~= repeat_bit(true, (8 - t) as nat) + repeat_bit(false, 8) + s.skip(8 - t));
    }
}

/// Stuffing two pieces of input one after the other is stuffing them joined.
pub proof fn lemma_stuff_concat(t: nat, a: Seq<bool>, b: Seq<bool>)
    ensures
        stuff_bits(t, a + b).0 == stuff_bits(t, a).0 + stuff_bits(stuff_bits(t, a).1, b).0,
        stuff_bits(t, a + b).1 == stuff_bits(stuff_bits(t, a).1, b).1,
    decreases a.len(),
{
    if a.len() == 0 {
        assert(a + b =~= b);
    } else {
        assert((a + b).drop_first() =~= a.drop_first() + b);
        if a[0] {
            if t + 1 == 8 {
                lemma_stuff_concat(0, a.drop_first(), b);
            } else {
                lemma_stuff_concat(t + 1, a.drop_first(), b);
            }
        } else {
            lemma_stuff_concat(0, a.drop_first(), b);
        }
        let r = stuff_bits(t, a + b).0;
        assert(r =~= stuff_bits(t, a).0 + stuff_bits(stuff_bits(t, a).1, b).0);
    }
}

/// The pieces of input one after the other.
pub open spec fn joined_pieces(pieces: Seq<Seq<bool>>) -> Seq<bool>
    decreases pieces.len(),
{
    if pieces.len() == 0 {
        Seq::empty()
    } else {
        joined_pieces(pieces.drop_last()) + pieces.last()
    }
}

/// What a writer that starts behind `t` one-bits writes for the pieces, one write after
/// another, each starting from the run of ones the previous one left; and the run left at
/// the end.
pub open spec fn stuffed_in_turn(t: nat, pieces: Seq<Seq<bool>>) -> (Seq<bool>, nat)
    decreases pieces.len(),
{
    if pieces.len() == 0 {
        (Seq::empty(), t)
    } else {
        let before = stuffed_in_turn(t, pieces.drop_last());
        let last = stuff_bits(before.1, pieces.last());
        (before.0 + last.0, last.1)
    }
}

/// Writing pieces one after another stuffs them as one write of all of them joined would,
/// and removing the stuffing gives back the joined pieces.
pub proof fn lemma_stuffed_in_turn(t: nat, pieces: Seq<Seq<bool>>)
    requires
        t < 8,
    ensures
        stuffed_in_turn(t, pieces) == stuff_bits(t, joined_pieces(pieces)),
        unstuff_bits(t, stuffed_in_turn(t, pieces).0) == joined_pieces(pieces),
    decreases pieces.len(),
{
    if pieces.len() > 0 {
        lemma_stuffed_in_turn(t, pieces.drop_last());
        lemma_stuff_concat(t, joined_pieces(pieces.drop_last()), pieces.last());
    }
    lemma_unstuff_stuff(t, joined_pieces(pieces));
}

/// Eight one-bits from position `i` of `s`.
pub open spec fn ones_at(s: Seq<bool>, i: int) -> bool {
    &&& 0 <= i
    &&& i + 8 <= s.len()
    &&& forall|k: int| 0 <= k < 8 ==> #[trigger] s[i + k]
}

/// Eight zero-bits from position `i` of `s`.
pub open spec fn zeros_at(s: Seq<bool>, i: int) -> bool {
    &&& 0 <= i
    &&& i + 8 <= s.len()
    &&& forall|k: int| 0 <= k < 8 ==> !#[trigger] s[i + k]
}

/// Every eight one-bits in a row that a writer puts out, counting the `t` one-bits written
/// just before, are followed by eight zero-bits: written from a byte boundary, every byte
/// 0xFF is followed by a byte 0x00.
pub proof fn lemma_ones_followed_by_zeros(t: nat, bits: Seq<bool>)
    requires
        t < 8,
    ensures
        forall|i: int|
            #[trigger] ones_at(repeat_bit(true, t) + stuff_bits(t, bits).0, i) ==> zeros_at(
                repeat_bit(true, t) + stuff_bits(t, bits).0,
                i + 8,
            ),
    decreases bits.len(),
{
    let o = repeat_bit(true, t) + stuff_bits(t, bits).0;
    if bits.len() == 0 {
        assert forall|i: int| #[trigger] ones_at(o, i) implies zeros_at(o, i + 8) by {
            assert(o.len() == t);
        }
    } else {
        let rest = bits.drop_first();
        if bits[0] {
            if t + 1 == 8 {
                lemma_ones_followed_by_zeros(0, rest);
                let r = stuff_bits(0, rest).0;
                let orr = repeat_bit(true, 0) + r;
                assert(orr =~= r);
                assert(o =~= repeat_bit(true, 8) + repeat_bit(false, 8) + r);
                assert forall|i: int| #[trigger] ones_at(o, i) implies zeros_at(o, i + 8) by {
                    if i >= 16 {
                        assert forall|k: int| 0 <= k < 8 implies #[trigger] orr[i - 16 + k] by {
                            assert(o[i + k] == orr[i - 16 + k]);
                        }
                        assert(ones_at(orr, i - 16));
                        assert(zeros_at(orr, i - 8));
                        assert forall|k: int| 0 <= k < 8 implies !#[trigger] o[i + 8 + k] by {
                            assert(o[i + 8 + k] == orr[i - 8 + k]);
                        }
                    } else if i >= 8 {
                        assert(o[i + 0] == false);
                    } else if i > 0 {
                        assert(o[i + (8 - i)] == false);
                    }
                }
            } else {
                lemma_ones_followed_by_zeros(t + 1, rest);
                assert(o =~= repeat_bit(true, t + 1) + stuff_bits(t + 1, rest).0);
            }
        } else {
            lemma_ones_followed_by_zeros(0, rest);
            let r = stuff_bits(0, rest).0;
            let orr = repeat_bit(true, 0) + r;
            assert(orr =~= r);
            assert(o =~= repeat_bit(true, t) + seq![false] + r);
            assert forall|i: int| #[trigger] ones_at(o, i) implies zeros_at(o, i + 8) by {
                if i > t {
                    let j = i - (t + 1);
                    assert forall|k: int| 0 <= k < 8 implies #[trigger] orr[j + k] by {
                        assert(o[i + k] == orr[j + k]);
                    }
                    assert(ones_at(orr, j));
                    assert(zeros_at(orr, j + 8));
                    assert forall|k: int| 0 <= k < 8 implies !#[trigger] o[i + 8 + k] by {
                        assert(o[i + 8 + k] == orr[j + 8 + k]);
                    }
                } else {
                    assert(o[i + (t - i)] == false);
                }
            }
        }
    }
}

/// Removing the stuffing gives back the input.
pub proof fn lemma_unstuff_stuff(t: nat, bits: Seq<bool>)
    requires
        t < 8,
    ensures
        unstuff_bits(t, stuff_bits(t, bits).0) == bits,
    decreases bits.len(),
{
    if bits.len() > 0 {
        let d = bits.drop_first();
        if bits[0] {
            if t + 1 == 8 {
                let r = stuff_bits(0, d).0;
                let out = seq![true] + repeat_bit(false, 8) + r;
                assert(out.drop_first().skip(8) =~= r);
                lemma_unstuff_stuff(0, d);
            } else {
                let r = stuff_bits(t + 1, d).0;
                assert((seq![true] + r).drop_first() =~= r);
                lemma_unstuff_stuff(t + 1, d);
            }
        } else {
            let r = stuff_bits(0, d).0;
            assert((seq![false] + r).drop_first() =~= r);
            lemma_unstuff_stuff(0, d);
        }
        assert(bits =~= seq![bits[0]] + d);
    }
}

proof fn lemma_low_bits_split(value: u16, amount: u8)
    requires
        8 < amount <= 16,
    ensures
        low_bits_u16(value, amount as nat) =~= low_bits_u8((value >> 8) as u8, (amount - 8) as nat)
            + low_bits_u8(value as u8, 8),
{
    let l = low_bits_u16(value, amount as nat);
    let r = low_bits_u8((value >> 8) as u8, (amount - 8) as nat) + low_bits_u8(value as u8, 8);
    assert forall|i: int| 0 <= i < amount implies l[i] == r[i] by {
        let a = amount as u16;
        let ii = i as u16;
        assert(ii < a - 8 ==> ((value >> ((a - 1 - ii) as u16)) & 1u16 == 1u16 <==> ((((value
            >> 8u16) as u8) as u16) >> ((a - 8 - 1 - ii) as u16)) & 1u16 == 1u16)) by (bit_vector)
            requires 8 < a <= 16, ii < a;
        assert(ii >= a - 8 ==> ((value >> ((a - 1 - ii) as u16)) & 1u16 == 1u16 <==> (((value
            as u8) as u16) >> ((8 - 1 - (ii - (a - 8))) as u16)) & 1u16 == 1u16)) by (bit_vector)
            requires 8 < a <= 16, ii < a;
    }
}

proof fn lemma_low_bits_small(value: u16, amount: u8)
    requires
        amount <= 8,
    ensures
        low_bits_u16(value, amount as nat) =~= low_bits_u8(value as u8, amount as nat),
{
    assert forall|i: int| 0 <= i < amount implies low_bits_u16(value, amount as nat)[i]
        == low_bits_u8(value as u8, amount as nat)[i] by {
        let a = amount as u16;
        let ii = i as u16;
        assert((value >> ((a - 1 - ii) as u16)) & 1u16 == 1u16 <==> (((value as u8) as u16) >> ((a
            - 1 - ii) as u16)) & 1u16 == 1u16) by (bit_vector)
            requires a <= 8, ii < a;
    }
}

impl ByteStuffingWriter {
    /// The number of one-bits written last, in a row.
    pub closed spec fn ones(&self) -> nat {
        self.trailing_ones as nat
    }

    /// A writer's run of ones is always shorter than eight.
    pub closed spec fn wf(&self) -> bool {
        self.trailing_ones < 8
    }

    /// A writer that has written nothing yet.
    pub fn new() -> (w: Self)
        ensures
            w.wf(),
            w.ones() == 0,
    {
        Self { trailing_ones: 0 }
    }

    /// Write the lowest `amount` bits of `value` to the stream, most significant first,
    /// stuffing eight zero-bits behind every run of eight one-bits.
    pub fn write_n_bits_to_stream(&mut self, stream: &mut BitStream, value: u16, amount: u8)
        requires
            old(self).wf(),
            old(stream)@.inv(),
            amount <= 16,
        ensures
            final(self).wf(),
            final(stream)@.extends(
                old(stream)@,
                stuff_bits(old(self).ones(), low_bits_u16(value, amount as nat)).0,
            ),
            final(self).ones() == stuff_bits(old(self).ones(), low_bits_u16(value, amount as nat)).1,
    {
        let ghost t0 = self.ones();
        let ghost s0 = stream@;
        let mut amount = amount;
        if amount == 0 {
            proof {
                assert(low_bits_u16(value, 0) =~= Seq::<bool>::empty());
            }
            return;
        }
        if amount > 8 {
            proof {
                lemma_low_bits_split(value, amount);
                lemma_stuff_concat(
                    t0,
                    low_bits_u8((value >> 8) as u8, (amount - 8) as nat),
                    low_bits_u8(value as u8, 8),
                );
            }
            let ghost a0 = low_bits_u8((value >> 8) as u8, (amount - 8) as nat);
            self.write_n_bits_to_stream_internal(stream, (value >> 8) as u8, amount - 8);
            let ghost s1 = stream@;
            amount = 8;
            self.write_n_bits_to_stream_internal(stream, value as u8, amount);
            proof {
                lemma_extends_trans(
                    s0,
                    s1,
                    stream@,
                    stuff_bits(t0, a0).0,
                    stuff_bits(stuff_bits(t0, a0).1, low_bits_u8(value as u8, 8)).0,
                );
            }
        } else {
            proof {
                lemma_low_bits_small(value, amount);
            }
            self.write_n_bits_to_stream_internal(stream, value as u8, amount);
        }
    }

    fn write_n_bits_to_stream_internal(&mut self, stream: &mut BitStream, value: u8, amount: u8)
        requires
            old(self).wf(),
            old(stream)@.inv(),
            1 <= amount <= 8,
        ensures
            final(self).wf(),
            final(stream)@.extends(
                old(stream)@,
                stuff_bits(old(self).ones(), low_bits_u8(value, amount as nat)).0,
            ),
            final(self).ones() == stuff_bits(old(self).ones(), low_bits_u8(value, amount as nat)).1,
    {
        broadcast use vstd::std_specs::bits::group_bits_axioms;

        let ghost s0 = stream@;
        let ghost t0 = self.ones();
        let ghost bits = low_bits_u8(value, amount as nat);
        let mut amount = amount;
        let value_left = value << (8 - amount);
        let lead = value_left.leading_ones();
        let lead_in_value = if lead < amount as u32 { lead } else { amount as u32 };
        proof {
            // The leading ones of `value_left`, cut at `amount`, are those of the bits.
            let l = lead_in_value as nat;
            assert forall|i: int| 0 <= i < l implies bits[i] by {
                let a = amount;
                let ii = i as u8;
                let lo = lead as u8;
                assert(8 - lo <= 7 - ii && 7 - ii < 8);
                assert(((value << ((8 - a) as u8)) >> ((7 - ii) as u8)) & 1u8 == 1u8 ==> ((value
                    as u16) >> ((a - 1 - ii) as u16)) & 1u16 == 1u16) by (bit_vector)
                    requires 1 <= a <= 8, ii < a;
            }
            if l < amount {
                let a = amount;
                let lo = lead as u8;
                assert(((value << ((8 - a) as u8)) >> ((7 - lo) as u8)) & 1u8 == 0u8 ==> ((value
                    as u16) >> ((a - 1 - lo) as u16)) & 1u16 == 0u16) by (bit_vector)
                    requires 1 <= a <= 8, lo < a;
            }
            lemma_leading_ones_char(bits, l);
        }
        let total_ones = lead_in_value + self.trailing_ones;
        let trail = value.trailing_ones();
        if total_ones < 8 {
            stream.append_n_bits(value, amount);
            let trailing_ones = if trail < amount as u32 { trail } else { amount as u32 };
            proof {
                self.lemma_trailing_of_bits(value, amount, trail);
                lemma_stuff_pass(t0, bits);
            }
            if trailing_ones == amount as u32 {
                self.trailing_ones += trailing_ones;
            } else {
                self.trailing_ones = trailing_ones;
            }
            proof {
                lemma_trailing_ones_le(bits);
            }
            return;
        }
        proof {
            lemma_stuff_insert(t0, bits);
        }
        let remaining_ones = 8 - self.trailing_ones;
        let ghost r = remaining_ones as nat;
        stream.append_n_bits(0xFFFFu16, remaining_ones as u8);
        let ghost s1 = stream@;
        proof {
            assert(low_bits_u16(0xFFFFu16, r) =~= repeat_bit(true, r)) by {
                assert forall|i: int| 0 <= i < r implies low_bits_u16(0xFFFFu16, r)[i] by {
                    let rr = r as u16;
                    let ii = i as u16;
                    assert((0xFFFFu16 >> ((rr - 1 - ii) as u16)) & 1u16 == 1u16) by (bit_vector)
                        requires rr <= 8, ii < rr;
                }
            }
        }
        amount -= remaining_ones as u8;
        stream.append::<u8>(0);
        let ghost s2 = stream@;
        proof {
            assert(byte_bits(0u8) =~= repeat_bit(false, 8)) by {
                assert forall|j: int| 0 <= j < 8 implies #[trigger] byte_bits(0u8)[j] == false by {
                    let jj = j as u8;
                    assert((0u8 << jj) & 0x80u8 != 0x80u8) by (bit_vector);
                }
            }
            lemma_extends_trans(s0, s1, s2, repeat_bit(true, r), repeat_bit(false, 8));
        }
        stream.append_n_bits(value, amount);
        let ghost rest = low_bits_u8(value, amount as nat);
        proof {
            assert(rest =~= bits.skip(r as int)) by {
                assert forall|i: int| 0 <= i < rest.len() implies rest[i] == bits[r + i] by {
                    assert(low_bit_u16(value as u16, amount as u16, i as u16) == low_bit_u16(
                        value as u16,
                        (amount + r) as u16,
                        (r + i) as u16,
                    ));
                }
            }
            lemma_extends_trans(s0, s2, stream@, repeat_bit(true, r) + repeat_bit(false, 8), rest);
        }
        let trailing_ones = if trail < amount as u32 { trail } else { amount as u32 };
        proof {
            if amount > 0 {
                self.lemma_trailing_of_bits(value, amount, trail);
            } else {
                assert(rest.len() == 0);
            }
            lemma_trailing_ones_le(rest);
        }
        self.trailing_ones = trailing_ones;
    }

    proof fn lemma_trailing_of_bits(&self, value: u8, amount: u8, trail: u32)
        requires
            1 <= amount <= 8,
            trail == vstd::std_specs::bits::u8_trailing_ones(value),
        ensures
            (if trail < amount as u32 { trail } else { amount as u32 }) as nat == trailing_ones(
                low_bits_u8(value, amount as nat),
            ),
    {
        broadcast use vstd::std_specs::bits::group_bits_axioms;

        let bits = low_bits_u8(value, amount as nat);
        let k: nat = if trail < amount as u32 { trail as nat } else { amount as nat };
        assert forall|i: int| bits.len() - k <= i < bits.len() implies bits[i] by {
            let a = amount;
            let j = (a - 1 - i) as u8;
            assert(j < trail);
            assert((value >> j) & 1u8 == 1u8 ==> ((value as u16) >> (j as u16)) & 1u16 == 1u16)
                by (bit_vector);
        }
        if k < amount {
            let j = trail as u8;
            assert((value >> j) & 1u8 == 0u8 ==> ((value as u16) >> (j as u16)) & 1u16 == 0u16)
                by (bit_vector);
        }
        lemma_trailing_ones_char(bits, k);
    }
}


impl Default for ByteStuffingWriter {
    /// A writer that has not seen any one bits yet.
    fn default() -> (w: Self)
        ensures
            w.wf(),
            w.ones() == 0,
    {
        Self { trailing_ones: 0 }
    }
}

} // verus!
