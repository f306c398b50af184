//! Values that know how to write themselves into a [`BitStream`].

use vstd::prelude::*;
use crate::bit_stream::{BitStream, lemma_extends_trans};
use crate::bits::{
    byte_bits, bytes_bits, word_bits, words_bits, low_bits_u8, low_bits_u16, bit_at, bit_at_u16,
    low_bit_u16, lemma_mask_bits, lemma_byte_bits_push, lemma_word_bits_push,
};

verus! {

/// A value that can be appended to a bit stream, whole or in part.
pub trait AppendableToBitStream {
    /// The bits [`Self::append`] writes.
    spec fn appended_bits(&self) -> Seq<bool>;

    /// Whether [`Self::append_n_bits`] can append `amount` bits of this value.
    spec fn can_append_n_bits(&self, amount: u8) -> bool;

    /// The bits [`Self::append_n_bits`] writes.
    spec fn appended_n_bits(&self, amount: u8) -> Seq<bool>;

    /// Append the whole value to the stream.
    fn append(&self, stream: &mut BitStream)
        requires
            old(stream)@.inv(),
        ensures
            final(stream)@.extends(old(stream)@, self.appended_bits()),
    ;

    /// Append `amount` bits of the value to the stream.
    fn append_n_bits(&self, stream: &mut BitStream, amount: u8)
        requires
            old(stream)@.inv(),
            self.can_append_n_bits(amount),
        ensures
            final(stream)@.extends(old(stream)@, self.appended_n_bits(amount)),
    ;
}

impl AppendableToBitStream for bool {
    open spec fn appended_bits(&self) -> Seq<bool> {
        seq![*self]
    }

    /// A single bit cannot be appended in part.
    open spec fn can_append_n_bits(&self, amount: u8) -> bool {
        false
    }

    open spec fn appended_n_bits(&self, amount: u8) -> Seq<bool> {
        Seq::empty()
    }

    fn append(&self, stream: &mut BitStream) {
        stream.append_bit(*self);
        proof {
            assert(stream@.written() =~= old(stream)@.written() + seq![*self]);
            if old(stream)@.wf() {
                assert(stream@.bits() =~= old(stream)@.bits() + seq![*self]);
            }
        }
    }

    fn append_n_bits(&self, stream: &mut BitStream, amount: u8) {
    }
}

impl AppendableToBitStream for Vec<bool> {
    open spec fn appended_bits(&self) -> Seq<bool> {
        self@
    }

    /// A vector of bits cannot be appended in part.
    open spec fn can_append_n_bits(&self, amount: u8) -> bool {
        false
    }

    open spec fn appended_n_bits(&self, amount: u8) -> Seq<bool> {
        Seq::empty()
    }

    fn append(&self, stream: &mut BitStream) {
        let ghost s0 = stream@;
        let mut i: usize = 0;
        while i < self.len()
            invariant
                i <= self.len(),
                s0.inv(),
                i == 0 ==> stream@ == s0,
                i > 0 ==> stream@.extends(s0, self@.take(i as int)),
            decreases self.len() - i,
        {
            let ghost before = stream@;
            stream.append_bit(self[i]);
            proof {
                assert(self@.take(i + 1) =~= self@.take(i as int) + seq![self@[i as int]]);
                if i > 0 {
                    lemma_extends_trans(s0, before, stream@, self@.take(i as int), seq![self@[i as int]]);
                } else {
                    assert(self@.take(1) =~= seq![self@[0]]);
                }
            }
            i = i + 1;
        }
        proof {
            assert(self@.take(i as int) =~= self@);
            if i == 0 {
                assert(s0.written() + self@ =~= s0.written());
                assert(s0.bits() + self@ =~= s0.bits());
            }
        }
    }

    fn append_n_bits(&self, stream: &mut BitStream, amount: u8) {
    }
}

impl AppendableToBitStream for u8 {
    open spec fn appended_bits(&self) -> Seq<bool> {
        byte_bits(*self)
    }

    /// At most the eight bits of the byte.
    open spec fn can_append_n_bits(&self, amount: u8) -> bool {
        amount <= 8
    }

    /// The lowest `amount` bits, most significant first.
    open spec fn appended_n_bits(&self, amount: u8) -> Seq<bool> {
        low_bits_u8(*self, amount as nat)
    }

    fn append(&self, stream: &mut BitStream) {
        stream.append_byte(*self);
    }

    fn append_n_bits(&self, stream: &mut BitStream, amount: u8) {
        let ghost s0 = stream@;
        let mut i: u8 = 0;
        while i < amount
            invariant
                i <= amount <= 8,
                s0.inv(),
                i == 0 ==> stream@ == s0,
                i > 0 ==> stream@.extends(s0, low_bits_u8(*self, amount as nat).take(i as int)),
            decreases amount - i,
        {
            let pos = amount - 1 - i;
            let mask: u8 = 1u8 << pos;
            let bit = *self & mask != 0;
            proof {
                lemma_mask_bits(0, 0, *self, 0, pos as u16);
                assert(bit == low_bits_u8(*self, amount as nat)[i as int]);
                assert(low_bits_u8(*self, amount as nat).take(i + 1) =~= low_bits_u8(*self, amount as nat).take(i as int) + seq![bit]);
            }
            let ghost before = stream@;
            stream.append_bit(bit);
            proof {
                if i > 0 {
                    lemma_extends_trans(s0, before, stream@, low_bits_u8(*self, amount as nat).take(i as int), seq![bit]);
                } else {
                    assert(low_bits_u8(*self, amount as nat).take(i as int) + seq![bit] =~= seq![bit]);
                }
            }
            i = i + 1;
        }
        proof {
            assert(low_bits_u8(*self, amount as nat).take(i as int) =~= low_bits_u8(*self, amount as nat));
            if i == 0 {
                assert(s0.written() + low_bits_u8(*self, amount as nat) =~= s0.written());
                assert(s0.bits() + low_bits_u8(*self, amount as nat) =~= s0.bits());
            }
        }
    }
}

impl AppendableToBitStream for Vec<u8> {
    open spec fn appended_bits(&self) -> Seq<bool> {
        bytes_bits(self@)
    }

    /// At most the bits the vector holds.
    open spec fn can_append_n_bits(&self, amount: u8) -> bool {
        amount <= self@.len() * 8
    }

    /// The first `amount` bits of the bytes.
    open spec fn appended_n_bits(&self, amount: u8) -> Seq<bool> {
        bytes_bits(self@).take(amount as int)
    }

    fn append(&self, stream: &mut BitStream) {
        let ghost s0 = stream@;
        let mut i: usize = 0;
        while i < self.len()
            invariant
                i <= self.len(),
                s0.inv(),
                i == 0 ==> stream@ == s0,
                i > 0 ==> stream@.extends(s0, bytes_bits(self@.take(i as int))),
            decreases self.len() - i,
        {
            let ghost before = stream@;
            stream.append_byte(self[i]);
            proof {
                lemma_byte_bits_push(self@, i as int);
                if i > 0 {
                    lemma_extends_trans(s0, before, stream@, bytes_bits(self@.take(i as int)), byte_bits(self@[i as int]));
                }
                if i == 0 {
                    assert(self@.take(0) =~= Seq::<u8>::empty());
                    assert(bytes_bits(self@.take(0)) =~= Seq::<bool>::empty());
                    assert(bytes_bits(self@.take(1)) =~= byte_bits(self@[0]));
                }
            }
            i = i + 1;
        }
        proof {
            assert(self@.take(i as int) =~= self@);
            if i == 0 {
                assert(bytes_bits(self@) =~= Seq::<bool>::empty());
                assert(s0.written() + bytes_bits(self@) =~= s0.written());
                assert(s0.bits() + bytes_bits(self@) =~= s0.bits());
            }
        }
    }

    fn append_n_bits(&self, stream: &mut BitStream, amount: u8) {
        let ghost s0 = stream@;
        let ghost want = bytes_bits(self@).take(amount as int);
        let mut i: u8 = 0;
        while i < amount
            invariant
                i <= amount,
                amount <= self@.len() * 8,
                want == bytes_bits(self@).take(amount as int),
                s0.inv(),
                i == 0 ==> stream@ == s0,
                i > 0 ==> stream@.extends(s0, want.take(i as int)),
            decreases amount - i,
        {
            let current_val = self[(i / 8) as usize];
            let mask = 0b1000_0000u8 >> (i % 8);
            let bit = current_val & mask != 0;
            proof {
                lemma_mask_bits(current_val, 0, 0, 0, (i % 8) as u16);
                assert(bit == want[i as int]);
                assert(want.take(i + 1) =~= want.take(i as int) + seq![bit]);
            }
            let ghost before = stream@;
            stream.append_bit(bit);
            proof {
                if i > 0 {
                    lemma_extends_trans(s0, before, stream@, want.take(i as int), seq![bit]);
                } else {
                    assert(want.take(0) + seq![bit] =~= seq![bit]);
                }
            }
            i = i + 1;
        }
        proof {
            assert(want.take(i as int) =~= want);
            if i == 0 {
                assert(s0.written() + want =~= s0.written());
                assert(s0.bits() + want =~= s0.bits());
            }
        }
    }
}

impl AppendableToBitStream for u16 {
    /// Both bytes, high byte first.
    open spec fn appended_bits(&self) -> Seq<bool> {
        word_bits(*self)
    }

    /// At most the sixteen bits of the word.
    open spec fn can_append_n_bits(&self, amount: u8) -> bool {
        amount <= 16
    }

    /// The lowest `amount` bits, most significant first.
    open spec fn appended_n_bits(&self, amount: u8) -> Seq<bool> {
        low_bits_u16(*self, amount as nat)
    }

    fn append(&self, stream: &mut BitStream) {
        let ghost s0 = stream@;
        let high = (*self >> 8) as u8;
        let low = *self as u8;
        stream.append_byte(high);
        stream.append_byte(low);
        proof {
            assert(byte_bits(high) + byte_bits(low) =~= word_bits(*self)) by {
                assert forall|j: int| 0 <= j < 16 implies (byte_bits(high) + byte_bits(low))[j]
                    == word_bits(*self)[j] by {
                    if j < 8 {
                        lemma_mask_bits(0, 0, 0, *self, j as u16);
                    } else {
                        lemma_mask_bits(0, 0, 0, *self, (j - 8) as u16);
                    }
                }
            }
            assert(stream@.written() =~= s0.written() + word_bits(*self));
            if s0.wf() {
                assert(stream@.bits() =~= s0.bits() + word_bits(*self));
            }
        }
    }

    fn append_n_bits(&self, stream: &mut BitStream, amount: u8) {
        let ghost s0 = stream@;
        let mut i: u8 = 0;
        while i < amount
            invariant
                i <= amount <= 16,
                s0.inv(),
                i == 0 ==> stream@ == s0,
                i > 0 ==> stream@.extends(s0, low_bits_u16(*self, amount as nat).take(i as int)),
            decreases amount - i,
        {
            let pos = amount - 1 - i;
            let mask: u16 = 1u16 << pos;
            let bit = *self & mask != 0;
            proof {
                lemma_mask_bits(0, 0, 0, *self, pos as u16);
                assert(bit == low_bits_u16(*self, amount as nat)[i as int]);
                assert(low_bits_u16(*self, amount as nat).take(i + 1) =~= low_bits_u16(*self, amount as nat).take(i as int) + seq![bit]);
            }
            let ghost before = stream@;
            stream.append_bit(bit);
            proof {
                if i > 0 {
                    lemma_extends_trans(s0, before, stream@, low_bits_u16(*self, amount as nat).take(i as int), seq![bit]);
                } else {
                    assert(low_bits_u16(*self, amount as nat).take(i as int) + seq![bit] =~= seq![bit]);
                }
            }
            i = i + 1;
        }
        proof {
            assert(low_bits_u16(*self, amount as nat).take(i as int) =~= low_bits_u16(*self, amount as nat));
            if i == 0 {
                assert(s0.written() + low_bits_u16(*self, amount as nat) =~= s0.written());
                assert(s0.bits() + low_bits_u16(*self, amount as nat) =~= s0.bits());
            }
        }
    }
}

impl AppendableToBitStream for Vec<u16> {
    open spec fn appended_bits(&self) -> Seq<bool> {
        words_bits(self@)
    }

    /// At most the bits the vector holds.
    open spec fn can_append_n_bits(&self, amount: u8) -> bool {
        amount <= self@.len() * 16
    }

    /// The first `amount` bits of the words.
    open spec fn appended_n_bits(&self, amount: u8) -> Seq<bool> {
        words_bits(self@).take(amount as int)
    }

    fn append(&self, stream: &mut BitStream) {
        let ghost s0 = stream@;
        let mut i: usize = 0;
        while i < self.len()
            invariant
                i <= self.len(),
                s0.inv(),
                i == 0 ==> stream@ == s0,
                i > 0 ==> stream@.extends(s0, words_bits(self@.take(i as int))),
            decreases self.len() - i,
        {
            let ghost before = stream@;
            stream.append(self[i]);
            proof {
                lemma_word_bits_push(self@, i as int);
                if i > 0 {
                    lemma_extends_trans(s0, before, stream@, words_bits(self@.take(i as int)), word_bits(self@[i as int]));
                }
                if i == 0 {
                    assert(words_bits(self@.take(0)) =~= Seq::<bool>::empty());
                    assert(words_bits(self@.take(1)) =~= word_bits(self@[0]));
                }
            }
            i = i + 1;
        }
        proof {
            assert(self@.take(i as int) =~= self@);
            if i == 0 {
                assert(words_bits(self@) =~= Seq::<bool>::empty());
                assert(s0.written() + words_bits(self@) =~= s0.written());
                assert(s0.bits() + words_bits(self@) =~= s0.bits());
            }
        }
    }

    fn append_n_bits(&self, stream: &mut BitStream, amount: u8) {
        let ghost s0 = stream@;
        let ghost want = words_bits(self@).take(amount as int);
        let mut i: u8 = 0;
        while i < amount
            invariant
                i <= amount,
                amount <= self@.len() * 16,
                want == words_bits(self@).take(amount as int),
                s0.inv(),
                i == 0 ==> stream@ == s0,
                i > 0 ==> stream@.extends(s0, want.take(i as int)),
            decreases amount - i,
        {
            let current_val = self[(i / 16) as usize];
            let mask = 0b1000_0000_0000_0000u16 >> (i % 16);
            let bit = current_val & mask != 0;
            proof {
                lemma_mask_bits(0, current_val, 0, 0, (i % 16) as u16);
                assert(bit == want[i as int]);
                assert(want.take(i + 1) =~= want.take(i as int) + seq![bit]);
            }
            let ghost before = stream@;
            stream.append_bit(bit);
            proof {
                if i > 0 {
                    lemma_extends_trans(s0, before, stream@, want.take(i as int), seq![bit]);
                } else {
                    assert(want.take(0) + seq![bit] =~= seq![bit]);
                }
            }
            i = i + 1;
        }
        proof {
            assert(want.take(i as int) =~= want);
            if i == 0 {
                assert(s0.written() + want =~= s0.written());
                assert(s0.bits() + want =~= s0.bits());
            }
        }
    }
}

} // verus!
