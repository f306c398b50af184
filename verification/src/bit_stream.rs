//! A growable stream of bits backed by bytes, written most significant bit first.

use vstd::prelude::*;
use crate::appendable_to_bit_stream::AppendableToBitStream;
use crate::bits::{
    bit_at, byte_bits, bytes_bits, tail_clear, u16_holds, repeat_bit, lemma_shift_add_bit,
    lemma_split_byte, lemma_bit_of_flag, lemma_u16_concat, lemma_one_bit,
};

verus! {

/// A stream of bits. Bits are written into `data` most significant bit first;
/// the last byte holds `bits_in_last_byte` written bits (0 and 8 both mean it is full)
/// and the first `bits_read_from_first_byte` bits of the first byte have already been read.
#[derive(Clone, Debug, PartialEq)]
pub struct BitStream {
    data: Vec<u8>,
    bits_in_last_byte: u8,
    bits_read_from_first_byte: u8,
}

/// The three fields of a [`BitStream`] as mathematical values.
pub struct BitStreamView {
    pub bytes: Seq<u8>,
    pub bits_in_last_byte: u8,
    pub bits_read: u8,
}

impl View for BitStream {
    type V = BitStreamView;

    closed spec fn view(&self) -> BitStreamView {
        BitStreamView {
            bytes: self.data@,
            bits_in_last_byte: self.bits_in_last_byte,
            bits_read: self.bits_read_from_first_byte,
        }
    }
}

/// Number of written bits in the last byte; 0 marks a full byte.
pub open spec fn effective_last(last: u8) -> nat {
    if last == 0 { 8 } else { last as nat }
}

impl BitStreamView {
    /// Number of bits written into the byte vector.
    pub open spec fn total_bits(self) -> nat {
        if self.bytes.len() == 0 {
            0
        } else {
            ((self.bytes.len() - 1) * 8 + effective_last(self.bits_in_last_byte)) as nat
        }
    }

    /// The shape every stream keeps, whatever is done to it: field ranges and a clear
    /// tail behind the written bits of the last byte.
    pub open spec fn inv(self) -> bool {
        &&& self.bits_in_last_byte <= 8
        &&& self.bits_read <= 7
        &&& self.bytes.len() == 0 ==> self.bits_in_last_byte == 0
        &&& self.bytes.len() > 0 && self.bits_in_last_byte != 0 ==> tail_clear(
            self.bytes.last(),
            self.bits_in_last_byte,
        )
    }

    /// A stream whose fields describe a sequence of unread bits.
    pub open spec fn wf(self) -> bool {
        &&& self.inv()
        &&& self.bytes.len() == 0 ==> self.bits_read == 0
        &&& self.bytes.len() > 0 ==> self.bits_in_last_byte >= 1
        &&& self.bits_read <= self.total_bits()
    }

    /// Every bit written into the byte vector, read or not, oldest first.
    pub open spec fn written(self) -> Seq<bool> {
        bytes_bits(self.bytes).take(self.total_bits() as int)
    }

    /// The unread bits of the stream, oldest first.
    pub open spec fn bits(self) -> Seq<bool> {
        bytes_bits(self.bytes).subrange(self.bits_read as int, self.total_bits() as int)
    }

    /// The bits a read sees: none once the stream reports itself empty, else the unread bits.
    pub open spec fn visible_bits(self) -> Seq<bool> {
        if self.is_empty() {
            Seq::empty()
        } else {
            self.bits()
        }
    }

    /// A stream with data whose read position lies within its written bits; its last byte
    /// may be marked full by 0.
    pub open spec fn readable(self) -> bool {
        &&& self.inv()
        &&& self.bytes.len() >= 1
        &&& self.bits_read <= self.total_bits()
    }

    /// The stream holds no data, or its only byte has been read up to its written bits.
    pub open spec fn is_empty(self) -> bool {
        self.bytes.len() == 0 || (self.bytes.len() == 1 && self.bits_in_last_byte
            == self.bits_read)
    }
}

proof fn lemma_bytes_bits_push(data: Seq<u8>, b: u8)
    ensures
        bytes_bits(data.push(b)) =~= bytes_bits(data) + byte_bits(b),
{
    let l = bytes_bits(data.push(b));
    let r = bytes_bits(data) + byte_bits(b);
    assert forall|k: int| 0 <= k < l.len() implies l[k] == r[k] by {
        if k < data.len() * 8 {
            assert(k / 8 < data.len()) by (nonlinear_arith)
                requires 0 <= k < data.len() * 8;
            assert(data.push(b)[k / 8] == data[k / 8]);
        } else {
            assert(k / 8 == data.len()) by (nonlinear_arith)
                requires data.len() * 8 <= k < data.len() * 8 + 8;
            assert((k - data.len() * 8) == k % 8) by (nonlinear_arith)
                requires data.len() * 8 <= k < data.len() * 8 + 8;
        }
    }
}

proof fn lemma_bytes_bits_update_last(data: Seq<u8>, b: u8, k: int)
    requires
        data.len() > 0,
        0 <= k < data.len() * 8,
    ensures
        bytes_bits(data.update(data.len() - 1, b))[k] == if k < (data.len() - 1) * 8 {
            bytes_bits(data)[k]
        } else {
            bit_at(b, (k % 8) as u8)
        },
{
    if k < (data.len() - 1) * 8 {
        assert(k / 8 < data.len() - 1) by (nonlinear_arith)
            requires 0 <= k < (data.len() - 1) * 8;
    } else {
        assert(k / 8 == data.len() - 1) by (nonlinear_arith)
            requires (data.len() - 1) * 8 <= k < data.len() * 8;
    }
}


proof fn lemma_bytes_bits_skip(data: Seq<u8>, m: int)
    requires
        0 <= m <= data.len(),
    ensures
        bytes_bits(data.skip(m)) =~= bytes_bits(data).skip(8 * m),
{
    let l = bytes_bits(data.skip(m));
    let r = bytes_bits(data).skip(8 * m);
    assert(l.len() == r.len()) by (nonlinear_arith)
        requires l.len() == (data.len() - m) * 8, r.len() == data.len() * 8 - 8 * m;
    assert forall|k: int| 0 <= k < l.len() implies l[k] == r[k] by {
        assert((k + 8 * m) / 8 == k / 8 + m && (k + 8 * m) % 8 == k % 8) by (nonlinear_arith)
            requires 0 <= k;
        assert(k / 8 < data.len() - m) by (nonlinear_arith)
            requires 0 <= k < (data.len() - m) * 8;
    }
}

proof fn lemma_bytes_bits_at(data: Seq<u8>, i: int, j: int)
    requires
        0 <= i < data.len(),
        0 <= j < 8,
    ensures
        bytes_bits(data)[8 * i + j] == bit_at(data[i], j as u8),
{
    assert((8 * i + j) / 8 == i && (8 * i + j) % 8 == j) by (nonlinear_arith)
        requires 0 <= j < 8;
    assert(8 * i + j < data.len() * 8) by (nonlinear_arith)
        requires 0 <= i < data.len(), 0 <= j < 8;
}

impl BitStreamView {
    /// `self` is `before` with the bits `b` written behind its written bits.
    pub open spec fn extends(self, before: BitStreamView, b: Seq<bool>) -> bool {
        &&& self.inv()
        &&& self.bits_read == before.bits_read
        &&& self.written() == before.written() + b
        &&& b.len() > 0 ==> self.bytes.len() > 0 && self.bits_in_last_byte >= 1
        &&& b.len() == 0 ==> self == before
        &&& before.wf() ==> self.wf() && self.bits() == before.bits() + b
    }

    /// The state [`BitStream::flush_n_bits`] leaves behind.
    pub open spec fn flushed(self, amount: u8) -> BitStreamView {
        let t = self.bits_read + amount;
        if t <= 7 {
            BitStreamView {
                bytes: self.bytes,
                bits_in_last_byte: self.bits_in_last_byte,
                bits_read: t as u8,
            }
        } else {
            let rest = self.bytes.skip(t / 8);
            if rest.len() == 0 || (rest.len() == 1 && self.bits_in_last_byte <= t % 8) {
                BitStreamView { bytes: Seq::empty(), bits_in_last_byte: 0, bits_read: 0 }
            } else {
                BitStreamView {
                    bytes: rest,
                    bits_in_last_byte: self.bits_in_last_byte,
                    bits_read: (t % 8) as u8,
                }
            }
        }
    }

    pub proof fn lemma_bits_from_written(self)
        requires
            self.bits_read <= self.total_bits(),
            self.total_bits() <= self.bytes.len() * 8,
        ensures
            self.bits() =~= self.written().skip(self.bits_read as int),
    {
    }
}

/// Flushing at most the unread bits of a stream leaves a stream whose unread bits are the
/// rest.
pub proof fn lemma_flushed_bits(s: BitStreamView, amount: u8)
    requires
        s.wf(),
        amount <= s.bits().len(),
    ensures
        s.flushed(amount).wf(),
        s.flushed(amount).bits() == s.bits().skip(amount as int),
{
    let t = s.bits_read + amount;
    let f = s.flushed(amount);
    if t <= 7 {
        assert(f.bits() =~= s.bits().skip(amount as int));
    } else {
        let k = t / 8;
        assert(s.total_bits() <= s.bytes.len() * 8);
        assert(k <= s.bytes.len()) by (nonlinear_arith)
            requires k == t / 8, t <= s.bytes.len() * 8, t >= 0;
        assert(k * 8 <= t && t - k * 8 == t % 8) by (nonlinear_arith)
            requires k == t / 8, t >= 0;
        lemma_bytes_bits_skip(s.bytes, k);
        if f.bytes.len() == 0 {
            assert(s.bits().skip(amount as int) =~= Seq::<bool>::empty()) by {
                if s.bytes.len() <= k {
                    assert(s.total_bits() <= 8 * k) by (nonlinear_arith)
                        requires s.bytes.len() <= k, s.total_bits() <= s.bytes.len() * 8;
                } else {
                    assert(s.total_bits() == 8 * k + effective_last(s.bits_in_last_byte));
                }
            }
            assert(f.bits() =~= s.bits().skip(amount as int));
        } else {
            assert(f.bytes.last() == s.bytes.last());
            assert(f.total_bits() + 8 * k == s.total_bits());
            assert(f.bits() =~= s.bits().skip(amount as int));
        }
    }
}

/// Two writes in a row extend the stream by both their bits.
pub proof fn lemma_extends_trans(s0: BitStreamView, s1: BitStreamView, s2: BitStreamView, a: Seq<bool>, b: Seq<bool>)
    requires
        s1.extends(s0, a),
        s2.extends(s1, b),
    ensures
        s2.extends(s0, a + b),
{
    assert(s0.written() + a + b =~= s0.written() + (a + b));
    assert(s0.bits() + a + b =~= s0.bits() + (a + b));
    if a.len() == 0 {
        assert(a + b =~= b);
    }
    if b.len() == 0 {
        assert(a + b =~= a);
    }
}

/// Rewriting the last, partly written byte with `nb`, which keeps its written bits, and
/// marking `new_last` bits as written.
proof fn lemma_written_fill_last(s: BitStreamView, nb: u8, new_last: u8)
    requires
        s.inv(),
        s.bytes.len() > 0,
        1 <= s.bits_in_last_byte <= 7,
        s.bits_in_last_byte < new_last <= 8,
        forall|j: u8| j < s.bits_in_last_byte ==> bit_at(nb, j) == bit_at(s.bytes.last(), j),
    ensures
        ({
            let t = BitStreamView {
                bytes: s.bytes.update(s.bytes.len() - 1, nb),
                bits_in_last_byte: new_last,
                bits_read: s.bits_read,
            };
            t.written() =~= s.written() + Seq::new(
                (new_last - s.bits_in_last_byte) as nat,
                |i: int| bit_at(nb, (s.bits_in_last_byte + i) as u8),
            )
        }),
{
    let t = BitStreamView {
        bytes: s.bytes.update(s.bytes.len() - 1, nb),
        bits_in_last_byte: new_last,
        bits_read: s.bits_read,
    };
    let r = s.written() + Seq::new(
        (new_last - s.bits_in_last_byte) as nat,
        |i: int| bit_at(nb, (s.bits_in_last_byte + i) as u8),
    );
    let base = (s.bytes.len() - 1) * 8;
    assert forall|k: int| 0 <= k < t.written().len() implies t.written()[k] == r[k] by {
        lemma_bytes_bits_update_last(s.bytes, nb, k);
        if k >= base {
            assert(k % 8 == k - base) by (nonlinear_arith)
                requires base <= k < base + 8, base == (s.bytes.len() - 1) * 8;
            lemma_bytes_bits_at(s.bytes, s.bytes.len() - 1, k - base);
        }
    }
}

/// Pushing a byte behind a full last byte and marking `new_last` of its bits as written.
proof fn lemma_written_push(s: BitStreamView, nb: u8, new_last: u8)
    requires
        s.inv(),
        s.total_bits() == s.bytes.len() * 8,
        1 <= new_last <= 8,
    ensures
        ({
            let t = BitStreamView {
                bytes: s.bytes.push(nb),
                bits_in_last_byte: new_last,
                bits_read: s.bits_read,
            };
            t.written() =~= s.written() + Seq::new(new_last as nat, |i: int| bit_at(nb, i as u8))
        }),
{
    lemma_bytes_bits_push(s.bytes, nb);
}

impl BitStream {
    /// Open an empty bit stream.
    pub fn open() -> (s: BitStream)
        ensures
            s@.bytes == Seq::<u8>::empty(),
            s@.bits_in_last_byte == 0,
            s@.bits_read == 0,
            s@.wf(),
            s@.bits() == Seq::<bool>::empty(),
    {
        BitStream { data: Vec::new(), bits_in_last_byte: 0, bits_read_from_first_byte: 0 }
    }

    /// A stream whose bytes are `data`, all of them full and unread.
    pub fn from_bytes(data: Vec<u8>) -> (s: BitStream)
        ensures
            s@.bytes == data@,
            s@.bits_in_last_byte == 0,
            s@.bits_read == 0,
            s@.inv(),
    {
        BitStream { data, bits_in_last_byte: 0, bits_read_from_first_byte: 0 }
    }

    /// Append one bit.
    pub fn append_bit(&mut self, value: bool)
        requires
            old(self)@.inv(),
        ensures
            final(self)@.inv(),
            final(self)@.bits_read == old(self)@.bits_read,
            old(self)@.bits_in_last_byte == 0 || old(self)@.bits_in_last_byte == 8 ==> {
                &&& final(self)@.bytes == old(self)@.bytes.push(
                    if value { 0x80u8 } else { 0u8 },
                )
                &&& final(self)@.bits_in_last_byte == 1
            },
            old(self)@.bits_in_last_byte != 0 && old(self)@.bits_in_last_byte != 8 ==> {
                &&& final(self)@.bytes.len() == old(self)@.bytes.len()
                &&& final(self)@.bytes.take(old(self)@.bytes.len() - 1) == old(self)@.bytes.take(
                    old(self)@.bytes.len() - 1,
                )
                &&& final(self)@.bits_in_last_byte == old(self)@.bits_in_last_byte + 1
            },
            final(self)@.written() == old(self)@.written().push(value),
            old(self)@.wf() ==> final(self)@.wf() && final(self)@.bits() == old(self)@.bits().push(
                value,
            ),
            final(self)@.extends(old(self)@, seq![value]),
    {
        let ghost s0 = self@;
        proof {
            lemma_bit_of_flag(value);
        }
        if self.bits_in_last_byte == 8 || self.bits_in_last_byte == 0 {
            self.data.push(if value { 0b1000_0000 } else { 0 });
            self.bits_in_last_byte = 1;
            proof {
                lemma_written_push(s0, if value { 0x80u8 } else { 0u8 }, 1);
                assert(self@.written() =~= s0.written().push(value));
                assert(s0.written().push(value) =~= s0.written() + seq![value]);
                if s0.wf() {
                    s0.lemma_bits_from_written();
                    self@.lemma_bits_from_written();
                    assert(self@.bits() =~= s0.bits().push(value));
                    assert(s0.bits().push(value) =~= s0.bits() + seq![value]);
                }
            }
            return;
        }
        self.shift_and_add_to_last_byte(if value { 1u8 } else { 0u8 }, 1);
        proof {
            let nb = self@.bytes.last();
            assert forall|j: u8| j < s0.bits_in_last_byte implies bit_at(nb, j) == bit_at(
                s0.bytes.last(),
                j,
            ) by {
                lemma_shift_add_bit(s0.bytes.last(), if value { 1u8 } else { 0u8 }, s0.bits_in_last_byte, 1, j);
            }
            lemma_shift_add_bit(s0.bytes.last(), if value { 1u8 } else { 0u8 }, s0.bits_in_last_byte, 1, s0.bits_in_last_byte);
            lemma_written_fill_last(s0, nb, (s0.bits_in_last_byte + 1) as u8);
            assert(self@.bytes =~= s0.bytes.update(s0.bytes.len() - 1, nb));
            assert(self@.written() =~= s0.written().push(value));
            assert(self@.bytes.take(s0.bytes.len() - 1) =~= s0.bytes.take(s0.bytes.len() - 1));
            assert(s0.written().push(value) =~= s0.written() + seq![value]);
            if s0.wf() {
                s0.lemma_bits_from_written();
                self@.lemma_bits_from_written();
                assert(self@.bits() =~= s0.bits().push(value));
                assert(s0.bits().push(value) =~= s0.bits() + seq![value]);
            }
        }
    }

    /// Append a whole byte, most significant bit first.
    pub fn append_byte(&mut self, value: u8)
        requires
            old(self)@.inv(),
        ensures
            final(self)@.inv(),
            final(self)@.bits_read == old(self)@.bits_read,
            old(self)@.bits_in_last_byte == 0 || old(self)@.bits_in_last_byte == 8 ==> {
                &&& final(self)@.bytes == old(self)@.bytes.push(value)
                &&& final(self)@.bits_in_last_byte == 8
            },
            old(self)@.bits_in_last_byte != 0 && old(self)@.bits_in_last_byte != 8 ==> {
                &&& final(self)@.bytes.len() == old(self)@.bytes.len() + 1
                &&& final(self)@.bytes.take(old(self)@.bytes.len() - 1) == old(self)@.bytes.take(
                    old(self)@.bytes.len() - 1,
                )
                &&& final(self)@.bits_in_last_byte == old(self)@.bits_in_last_byte
            },
            final(self)@.written() == old(self)@.written() + byte_bits(value),
            old(self)@.wf() ==> final(self)@.wf() && final(self)@.bits() == old(self)@.bits()
                + byte_bits(value),
            final(self)@.extends(old(self)@, byte_bits(value)),
    {
        let ghost s0 = self@;
        if self.bits_in_last_byte == 8 || self.bits_in_last_byte == 0 {
            self.data.push(value);
            self.bits_in_last_byte = 8;
            proof {
                lemma_written_push(s0, value, 8);
                assert(self@.written() =~= s0.written() + byte_bits(value));
                if s0.wf() {
                    s0.lemma_bits_from_written();
                    self@.lemma_bits_from_written();
                    assert(self@.bits() =~= s0.bits() + byte_bits(value));
                }
            }
            return;
        }
        let previous_bits_in_last_byte = self.bits_in_last_byte;
        let upper_value = value >> self.bits_in_last_byte;
        let bits_still_available_in_last_byte = 8 - self.bits_in_last_byte;
        proof {
            lemma_split_byte(value, previous_bits_in_last_byte, 0);
        }
        self.shift_and_add_to_last_byte(upper_value, bits_still_available_in_last_byte);
        let ghost s1 = self@;
        let lower_value = value << bits_still_available_in_last_byte;
        self.data.push(lower_value);
        self.bits_in_last_byte = previous_bits_in_last_byte;
        proof {
            let last = previous_bits_in_last_byte;
            let nb = s1.bytes.last();
            assert forall|j: u8| j < last implies bit_at(nb, j) == bit_at(s0.bytes.last(), j) by {
                lemma_shift_add_bit(s0.bytes.last(), upper_value, last, (8 - last) as u8, j);
            }
            lemma_written_fill_last(s0, nb, 8);
            assert(s1.bytes =~= s0.bytes.update(s0.bytes.len() - 1, nb));
            lemma_written_push(s1, lower_value, last);
            assert(self@.bytes =~= s1.bytes.push(lower_value));
            let part1 = Seq::new((8 - last) as nat, |i: int| bit_at(nb, (last + i) as u8));
            let part2 = Seq::new(last as nat, |i: int| bit_at(lower_value, i as u8));
            assert(part1 + part2 =~= byte_bits(value)) by {
                assert forall|k: int| 0 <= k < 8 implies (part1 + part2)[k] == byte_bits(value)[k] by {
                    if k < 8 - last {
                        lemma_shift_add_bit(s0.bytes.last(), upper_value, last, (8 - last) as u8, (last + k) as u8);
                        lemma_split_byte(value, last, (last + k) as u8);
                    } else {
                        lemma_split_byte(value, last, (k - (8 - last)) as u8);
                    }
                }
            }
            lemma_split_byte(value, last, 0);
            assert(self@.written() =~= s0.written() + byte_bits(value));
            assert(self@.bytes.take(s0.bytes.len() - 1) =~= s0.bytes.take(s0.bytes.len() - 1));
            if s0.wf() {
                s0.lemma_bits_from_written();
                self@.lemma_bits_from_written();
                assert(self@.bits() =~= s0.bits() + byte_bits(value));
            }
        }
    }

    /// Fill the rest of the last byte with copies of `value`.
    pub fn pad_last_byte(&mut self, value: bool)
        requires
            old(self)@.inv(),
        ensures
            final(self)@.inv(),
            final(self)@.bits_read == old(self)@.bits_read,
            final(self)@.bits_in_last_byte == 8 || (old(self)@.bits_in_last_byte == 8
                && final(self)@ == old(self)@),
            final(self)@.written() == old(self)@.written() + repeat_bit(
                value,
                (8 - old(self)@.bits_in_last_byte) as nat,
            ),
            old(self)@.wf() ==> final(self)@.wf() && final(self)@.bits() == old(self)@.bits()
                + repeat_bit(value, (8 - old(self)@.bits_in_last_byte) as nat),
    {
        let ghost s0 = self@;
        let amount = 8 - self.bits_in_last_byte;
        let mut i: u8 = 0;
        while i < amount
            invariant
                0 <= i <= amount,
                amount == 8 - s0.bits_in_last_byte,
                s0.inv(),
                self@.inv(),
                self@.bits_read == s0.bits_read,
                i > 0 ==> self@.bits_in_last_byte == if s0.bits_in_last_byte == 0 { i } else {
                    (s0.bits_in_last_byte + i) as u8
                },
                i == 0 ==> self@ == s0,
                self@.written() == s0.written() + repeat_bit(value, i as nat),
                s0.wf() ==> self@.wf() && self@.bits() == s0.bits() + repeat_bit(value, i as nat),
            decreases amount - i,
        {
            let ghost before = self@;
            self.append_bit(value);
            i = i + 1;
            proof {
                assert(self@.written() =~= s0.written() + repeat_bit(value, i as nat));
                if s0.wf() {
                    assert(self@.bits() =~= s0.bits() + repeat_bit(value, i as nat));
                }
            }
        }
    }

    /// Shift `value`, whose set bits are among its lowest `bits_to_occupy`, into the free
    /// bits of the last byte, right behind its written bits.
    fn shift_and_add_to_last_byte(&mut self, value: u8, bits_to_occupy: u8)
        requires
            old(self)@.inv(),
            old(self)@.bytes.len() > 0,
            1 <= old(self)@.bits_in_last_byte,
            1 <= bits_to_occupy,
            old(self)@.bits_in_last_byte + bits_to_occupy <= 8,
            bits_to_occupy < 8 ==> (value >> bits_to_occupy) == 0,
        ensures
            final(self)@.inv(),
            final(self)@.bits_read == old(self)@.bits_read,
            final(self)@.bits_in_last_byte == old(self)@.bits_in_last_byte + bits_to_occupy,
            final(self)@.bytes == old(self)@.bytes.update(
                old(self)@.bytes.len() - 1,
                (old(self)@.bytes.last() + (value << ((8 - bits_to_occupy
                    - old(self)@.bits_in_last_byte) as u8))) as u8,
            ),
    {
        let index = self.data.len() - 1;
        let mut last_byte = self.data[index];
        let bits_available = 8 - bits_to_occupy - self.bits_in_last_byte;
        proof {
            lemma_shift_add_bit(last_byte, value, self.bits_in_last_byte, bits_to_occupy, 0);
        }
        let value = value << bits_available;
        last_byte += value;
        self.data.set(index, last_byte);
        self.bits_in_last_byte += bits_to_occupy;
        proof {
            assert(self@.bytes.last() == last_byte);
        }
    }

    /// Read up to 16 bits from the front of the stream without consuming them; once the
    /// stream runs out of unread bits, the value is padded with copies of `pad`.
    pub fn read_n_bits_padded(&self, amount: u8, pad: bool) -> (r: u16)
        requires
            self@.inv(),
            self@.is_empty() || self@.bits_read <= self@.total_bits(),
            amount <= 16,
            amount >= 1 || !self@.is_empty(),
        ensures
            u16_holds(r, (self@.visible_bits() + repeat_bit(pad, amount as nat)).take(amount as int)),
            self@.wf() ==> u16_holds(
                r,
                (self@.bits() + repeat_bit(pad, amount as nat)).take(amount as int),
            ),
    {
        let ghost bits = self@.visible_bits();
        proof {
            if self@.wf() {
                if self@.is_empty() {
                    assert(self@.bits() =~= Seq::<bool>::empty());
                }
                assert(bits == self@.bits());
            }
        }
        let available = if self.is_empty() {
            0
        } else {
            self.unread_len_up_to(amount)
        };
        let mut result: u16 = 0;
        let mut i: u8 = 0;
        proof {
            assert(bits.take(0) =~= Seq::<bool>::empty());
            assert((0u16 >> 0u16) == 0u16) by (bit_vector);
        }
        while i < available
            invariant
                available > 0 ==> self@.readable() && bits == self@.bits(),
                i <= available,
                available <= amount <= 16,
                available <= bits.len(),
                u16_holds(result, bits.take(i as int)),
            decreases available - i,
        {
            let bit = self.unread_bit(i);
            let bit_value: u16 = if bit { 1 } else { 0 };
            proof {
                lemma_one_bit(bit);
                lemma_u16_concat(result, bit_value, bits.take(i as int), seq![bit]);
                assert(bits.take(i as int) + seq![bit] =~= bits.take(i + 1));
            }
            result = (result << 1) + bit_value;
            i = i + 1;
        }
        proof {
            assert((bits + repeat_bit(pad, amount as nat)).take(amount as int) =~= bits.take(
                available as int,
            ) + repeat_bit(pad, (amount - available) as nat));
        }
        pad_read_bit_result(result, amount - available, pad, Ghost(bits.take(available as int)))
    }

    /// The number of unread bits, or `max` where there are more.
    fn unread_len_up_to(&self, max: u8) -> (r: u8)
        requires
            self@.readable(),
        ensures
            r == if self@.bits().len() < max { self@.bits().len() } else { max as nat },
    {
        let n = self.data.len();
        if n == 0 {
            return 0;
        }
        if n >= 34 {
            proof {
                assert(self@.total_bits() >= 33 * 8);
            }
            return max;
        }
        let last: usize = if self.bits_in_last_byte == 0 { 8 } else { self.bits_in_last_byte as usize };
        let total: usize = (n - 1) * 8 + last;
        let unread: usize = total - self.bits_read_from_first_byte as usize;
        if unread < max as usize {
            unread as u8
        } else {
            max
        }
    }

    /// The unread bit at position `i`.
    fn unread_bit(&self, i: u8) -> (r: bool)
        requires
            self@.readable(),
            i < self@.bits().len(),
        ensures
            r == self@.bits()[i as int],
    {
        let k: usize = self.bits_read_from_first_byte as usize + i as usize;
        let byte = self.data[k / 8];
        let offset: u8 = (k % 8) as u8;
        let chunk = get_n_bits_at_offset(byte, 1, offset);
        proof {
            lemma_bytes_bits_at(self@.bytes, (k / 8) as int, (k % 8) as int);
            assert(k == 8 * (k / 8) + k % 8);
            assert((((byte << offset) >> 7u8) == 1u8) == ((byte << offset) & 0x80u8 == 0x80u8))
                by (bit_vector);
        }
        chunk == 1
    }

    /// Remove the first `amount` unread bits from the stream. Whole bytes that are read
    /// completely are dropped, and a stream read up to its last written bit is reset.
    pub fn flush_n_bits(&mut self, amount: u8)
        requires
            old(self)@.inv(),
            old(self)@.bits_read + amount <= 255,
            old(self)@.bytes.len() >= (old(self)@.bits_read + amount) / 8,
        ensures
            final(self)@ == old(self)@.flushed(amount),
            final(self)@.inv(),
            old(self)@.wf() && amount <= old(self)@.bits().len() ==> final(self)@.wf()
                && final(self)@.bits() == old(self)@.bits().skip(amount as int),
    {
        let ghost s0 = self@;
        let ghost t = (s0.bits_read + amount) as int;
        let ghost amount0 = amount;
        let mut amount = amount;
        if self.bits_read_from_first_byte + amount <= 7 {
            self.bits_read_from_first_byte += amount;
            proof {
                if s0.wf() && amount <= s0.bits().len() {
                    assert(self@.bits() =~= s0.bits().skip(amount as int));
                }
            }
            return;
        }
        self.data.remove(0);
        amount -= 8 - self.bits_read_from_first_byte;
        let ghost mut k: int = 1;
        proof {
            assert(self@.bytes =~= s0.bytes.skip(1));
        }
        while amount >= 8
            invariant
                self@.bytes == s0.bytes.skip(k),
                amount + 8 * k == t,
                1 <= k <= s0.bytes.len(),
                s0.bytes.len() >= t / 8,
                self@.bits_in_last_byte == s0.bits_in_last_byte,
            decreases amount,
        {
            amount -= 8;
            proof {
                assert(k + 1 <= t / 8) by (nonlinear_arith)
                    requires amount + 8 * (k + 1) == t, amount >= 0;
            }
            self.data.remove(0);
            proof {
                assert(self@.bytes =~= s0.bytes.skip(k + 1));
                k = k + 1;
            }
        }
        proof {
            assert(k == t / 8 && amount == t % 8) by (nonlinear_arith)
                requires amount + 8 * k == t, 0 <= amount < 8;
        }
        self.bits_read_from_first_byte = amount;
        if self.data.len() <= 1 {
            if self.data.len() == 0 || self.bits_in_last_byte <= self.bits_read_from_first_byte {
                self.data = Vec::new();
                self.bits_in_last_byte = 0;
                self.bits_read_from_first_byte = 0;
            }
        }
        proof {
            assert(self@.bytes =~= s0.flushed(amount0).bytes);
            if self@.bytes.len() > 0 {
                assert(self@.bytes.last() == s0.bytes.last());
            }
            if s0.wf() && (t - s0.bits_read) <= s0.bits().len() {
                lemma_bytes_bits_skip(s0.bytes, k);
                if self@.bytes.len() == 0 {
                    assert(s0.bits().skip(t - s0.bits_read) =~= Seq::<bool>::empty()) by {
                        if s0.bytes.len() <= k {
                            assert(s0.total_bits() <= 8 * k) by (nonlinear_arith)
                                requires s0.bytes.len() <= k, s0.total_bits() <= s0.bytes.len() * 8;
                        } else {
                            assert(s0.total_bits() == 8 * k + s0.bits_in_last_byte);
                        }
                    }
                    assert(self@.bits() =~= s0.bits().skip(t - s0.bits_read));
                } else {
                    assert(self@.total_bits() + 8 * k == s0.total_bits());
                    assert(self@.bits() =~= s0.bits().skip(t - s0.bits_read));
                }
            }
        }
    }

    /// Append the bits of `value`, as [`AppendableToBitStream::append`] writes them.
    pub fn append<T: AppendableToBitStream>(&mut self, value: T)
        requires
            old(self)@.inv(),
        ensures
            final(self)@.extends(old(self)@, value.appended_bits()),
    {
        value.append(self);
    }

    /// Append `amount` bits of `value`, as [`AppendableToBitStream::append_n_bits`] writes
    /// them.
    pub fn append_n_bits<T: AppendableToBitStream>(&mut self, value: T, amount: u8)
        requires
            old(self)@.inv(),
            value.can_append_n_bits(amount),
        ensures
            final(self)@.extends(old(self)@, value.appended_n_bits(amount)),
    {
        value.append_n_bits(self, amount);
    }

    /// The stream has no unread data.
    pub fn is_empty(&self) -> (r: bool)
        ensures
            r == self@.is_empty(),
            self@.wf() ==> (r <==> self@.bits().len() == 0),
    {
        return self.data.len() == 0 || (self.data.len() == 1 && self.bits_in_last_byte
            == self.bits_read_from_first_byte);
    }

    /// The stream's bytes.
    pub fn data(&self) -> (r: &Vec<u8>)
        ensures
            r@ == self@.bytes,
    {
        &self.data
    }

    /// How many bits of the last byte have been written (0 and 8 both mean all of them).
    pub fn bits_in_last_byte(&self) -> (r: u8)
        ensures
            r == self@.bits_in_last_byte,
    {
        self.bits_in_last_byte
    }

    /// How many bits of the first byte have been read.
    pub fn bits_read_from_first_byte(&self) -> (r: u8)
        ensures
            r == self@.bits_read,
    {
        self.bits_read_from_first_byte
    }
}

/// The `n` bits of `byte` that start `offset` bits from its most significant end, as a
/// number.
fn get_n_bits_at_offset(byte: u8, n: u8, offset: u8) -> (r: u8)
    requires
        1 <= n,
        offset + n <= 8,
    ensures
        r == (byte << offset) >> ((8 - n) as u8),
{
    (byte << offset) >> (8 - n)
}

/// Put `amount` copies of the `pad` bit behind the bits held in `value`.
fn pad_read_bit_result(value: u16, amount: u8, pad: bool, Ghost(s): Ghost<Seq<bool>>) -> (r: u16)
    requires
        u16_holds(value, s),
        s.len() + amount <= 16,
    ensures
        u16_holds(r, s + repeat_bit(pad, amount as nat)),
{
    let mut value = value;
    let pad_u16: u16 = if pad { 1 } else { 0 };
    let mut i: u8 = 0;
    proof {
        assert(s + repeat_bit(pad, 0) =~= s);
        lemma_one_bit(pad);
    }
    while i < amount
        invariant
            i <= amount,
            s.len() + amount <= 16,
            u16_holds(value, s + repeat_bit(pad, i as nat)),
            u16_holds(pad_u16, seq![pad]),
        decreases amount - i,
    {
        proof {
            lemma_u16_concat(value, pad_u16, s + repeat_bit(pad, i as nat), seq![pad]);
            assert(s + repeat_bit(pad, i as nat) + seq![pad] =~= s + repeat_bit(pad, (i + 1) as nat));
        }
        value = (value << 1) + pad_u16;
        i = i + 1;
    }
    value
}


impl Default for BitStream {
    /// An empty bit stream.
    fn default() -> (s: BitStream)
        ensures
            s@.bytes == Seq::<u8>::empty(),
            s@.bits_in_last_byte == 0,
            s@.bits_read == 0,
    {
        BitStream { data: Vec::new(), bits_in_last_byte: 0, bits_read_from_first_byte: 0 }
    }
}

} // verus!
