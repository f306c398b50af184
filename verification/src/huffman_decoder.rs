//! Decoding of Huffman-coded bit streams through a canonical lookup table: the codes,
//! ordered by length and then by value, each padded with one bits to the longest length.

use vstd::prelude::*;
use std::collections::HashMap;
use crate::bit_stream::{BitStream, BitStreamView, lemma_flushed_bits};
use crate::bits::{bits_value, repeat_bit, u16_holds, low_bit_u16, low_bits_u16, lemma_u16_shr};
use crate::huffman::{HuffmanCode, HuffmanCodeMap, encoded_bits, all_coded};
use crate::weighted_sort::{
    sorted_by_weight, sort_by_weight, lemma_sorted_elements, lemma_sorted_contains,
    lemma_sorted_ordered, lemma_sorted_no_duplicates,
};

verus! {

broadcast use vstd::std_specs::hash::group_hash_axioms;

/// An entry of a decoding table: code, symbol and code length.
pub type CodeEntry = (u16, u8, u8);

/// The longest code length among the symbols below `k` that have a code in `m`; 0 when
/// none has.
pub open spec fn max_len_below(m: Map<u8, HuffmanCode>, k: nat) -> u8
    decreases k,
{
    if k == 0 {
        0
    } else {
        let prev = max_len_below(m, (k - 1) as nat);
        let s = (k - 1) as u8;
        if m.contains_key(s) && m[s].0 > prev {
            m[s].0
        } else {
            prev
        }
    }
}

/// The longest code length of the code `m`.
pub open spec fn max_code_len(m: Map<u8, HuffmanCode>) -> u8 {
    max_len_below(m, 256)
}

/// Code, symbol and length of each symbol below `k` that has a code in `m`, by increasing
/// symbol.
pub open spec fn code_entries(m: Map<u8, HuffmanCode>, k: nat) -> Seq<CodeEntry>
    decreases k,
{
    if k == 0 {
        Seq::empty()
    } else {
        let s = (k - 1) as u8;
        code_entries(m, (k - 1) as nat) + if m.contains_key(s) {
            seq![(m[s].1, s, m[s].0)]
        } else {
            Seq::empty()
        }
    }
}

/// The sort key of an entry: its length first, then its code.
pub open spec fn length_and_code_key(e: CodeEntry) -> u64 {
    ((e.2 as int) * 65536 + (e.0 as int)) as u64
}

/// `s` ordered by code length, then by code; entries equal in both keep their order.
pub open spec fn sorted_by_length_and_code(s: Seq<CodeEntry>) -> Seq<CodeEntry> {
    sorted_by_weight(s.map_values(|e: CodeEntry| (length_and_code_key(e), e))).map_values(
        |x: (u64, CodeEntry)| x.1,
    )
}

/// `code` with `k` one bits appended at its low end, keeping its lowest 16 bits.
pub open spec fn padded_code(code: u16, k: nat) -> u16
    decreases k,
{
    if k == 0 {
        code
    } else {
        ((padded_code(code, (k - 1) as nat) * 2 + 1) % 65536) as u16
    }
}

/// Each entry's code padded with one bits up to `max_len` bits.
pub open spec fn padded_entries(s: Seq<CodeEntry>, max_len: u8) -> Seq<CodeEntry> {
    s.map_values(|e: CodeEntry| (padded_code(e.0, (max_len - e.2) as nat), e.1, e.2))
}

/// The decoding table of the code `m`.
pub open spec fn canonical_table(m: Map<u8, HuffmanCode>) -> Seq<CodeEntry> {
    padded_entries(sorted_by_length_and_code(code_entries(m, 256)), max_code_len(m))
}

/// The position of the first entry of `t` whose code is at least `v`; the length of `t`
/// when there is none.
pub open spec fn first_at_least(t: Seq<CodeEntry>, v: nat) -> nat
    decreases t.len(),
{
    if t.len() == 0 {
        0
    } else if t[0].0 >= v {
        0
    } else {
        1 + first_at_least(t.skip(1), v)
    }
}

/// The `max_len` bits a padded read sees at the front of `s`, one bits filling in where
/// the stream runs out.
pub open spec fn lookahead(s: BitStreamView, max_len: u8) -> Seq<bool> {
    (s.bits() + repeat_bit(true, max_len as nat)).take(max_len as int)
}

/// `o` with `p` put in front of its symbols.
pub open spec fn prefixed(p: Seq<u8>, o: Option<(Seq<u8>, BitStreamView)>) -> Option<
    (Seq<u8>, BitStreamView),
> {
    match o {
        Some((rest, f)) => Some((p + rest, f)),
        None => None,
    }
}

/// How far a stream is from its end: the bits of its bytes not yet read past.
pub open spec fn bits_ahead(s: BitStreamView) -> int {
    s.bytes.len() * 8 - s.bits_read
}

/// Decoding `s` with `table`: the symbols and the stream left behind once it reports itself
/// empty. Each step looks ahead `max_len` bits, takes the first entry whose code reaches
/// that value, emits its symbol and drops its length from the stream. `None` where decoding
/// cannot go on: the stream's read position lies beyond its written bits, no table entry
/// reaches the looked-ahead value or the entry found has length 0 (the stream would never
/// advance), or a code reaches beyond the stream's bytes.
#[verifier::opaque]
pub open spec fn decoded_from(s: BitStreamView, table: Seq<CodeEntry>, max_len: u8) -> Option<
    (Seq<u8>, BitStreamView),
>
    decreases bits_ahead(s),
{
    if s.is_empty() {
        Some((Seq::empty(), s))
    } else if !s.readable() {
        None
    } else {
        let i = first_at_least(table, bits_value(lookahead(s, max_len)));
        if i >= table.len() {
            None
        } else if table[i as int].2 == 0 || s.bytes.len() < (s.bits_read + table[i as int].2) / 8 {
            None
        } else {
            proof {
                lemma_flush_advances(s, table[i as int].2);
            }
            prefixed(
                seq![table[i as int].1],
                decoded_from(s.flushed(table[i as int].2), table, max_len),
            )
        }
    }
}

/// Dropping at least one bit of a stream that is not empty, within its bytes, brings it
/// closer to its end.
pub proof fn lemma_flush_advances(s: BitStreamView, amount: u8)
    requires
        s.readable(),
        amount >= 1,
        (s.bits_read + amount) / 8 <= s.bytes.len(),
    ensures
        0 <= bits_ahead(s.flushed(amount)) < bits_ahead(s),
        s.flushed(amount).bits_read <= 7 || s.flushed(amount).bytes.len() >= 1,
{
    let t = s.bits_read + amount;
    assert(t / 8 * 8 + t % 8 == t) by (nonlinear_arith);
    assert(t / 8 * 8 <= s.bytes.len() * 8) by (nonlinear_arith)
        requires t / 8 <= s.bytes.len();
}

/// Decode a huffman encoded bit stream with the code it was encoded with, as
/// [`crate::huffman::encode`] outputs it, of at most 16 bits per code. `None` where
/// decoding cannot go on (see [`decoded_from`]).
pub fn decode(stream: &mut BitStream, code: HuffmanCodeMap) -> (r: Option<BitStream>)
    requires
        old(stream)@.inv(),
        exists|k: u8| code@.contains_key(k),
        forall|k: u8| #[trigger] code@.contains_key(k) ==> code@[k].0 <= 16,
    ensures
        match decoded_from(old(stream)@, canonical_table(code@), max_code_len(code@)) {
            Some((symbols, rest)) => {
                &&& r matches Some(out)
                &&& out@.bytes == symbols
                &&& out@.bits_read == 0
                &&& out@.bits_in_last_byte == if symbols.len() == 0 {
                    0u8
                } else {
                    8u8
                }
                &&& final(stream)@ == rest
            },
            None => r is None,
        },
{
    proof {
        lemma_max_len_bound(code@, 256);
    }
    let (table, max_len) = create_canonical_table(code);
    decode_with_table(stream, &table, max_len)
}

/// Decode `stream` with a decoding table whose codes are `max_len` bits long.
fn decode_with_table(stream: &mut BitStream, table: &Vec<CodeEntry>, max_len: u8) -> (r: Option<BitStream>)
    requires
        old(stream)@.inv(),
        max_len <= 16,
        forall|i: int| 0 <= i < table@.len() ==> #[trigger] table@[i].2 <= max_len,
    ensures
        match decoded_from(old(stream)@, table@, max_len) {
            Some((symbols, rest)) => {
                &&& r matches Some(out)
                &&& out@.bytes == symbols
                &&& out@.bits_read == 0
                &&& out@.bits_in_last_byte == if symbols.len() == 0 {
                    0u8
                } else {
                    8u8
                }
                &&& final(stream)@ == rest
            },
            None => r is None,
        },
{
    let ghost s0 = stream@;
    let ghost whole = decoded_from(s0, table@, max_len);
    let mut result = BitStream::open();
    proof {
        assert(prefixed(Seq::empty(), whole) == whole) by {
            match whole {
                Some((rest, f)) => {
                    assert(Seq::<u8>::empty() + rest =~= rest);
                },
                None => {},
            }
        }
    }
    while !stream.is_empty()
        invariant
            stream@.inv(),
            max_len <= 16,
            forall|i: int| 0 <= i < table@.len() ==> #[trigger] table@[i].2 <= max_len,
            result@.inv(),
            result@.bits_read == 0,
            result@.bits_in_last_byte == if result@.bytes.len() == 0 {
                0u8
            } else {
                8u8
            },
            whole == decoded_from(old(stream)@, table@, max_len),
            whole == prefixed(result@.bytes, decoded_from(stream@, table@, max_len)),
        decreases bits_ahead(stream@),
    {
        let ghost s = stream@;
        let ghost got = result@.bytes;
        proof {
            if s.bytes.len() >= 2 {
                assert(s.total_bits() >= 8);
            }
        }
        if stream.data().len() == 1 && stream.bits_in_last_byte() != 0
            && stream.bits_read_from_first_byte() > stream.bits_in_last_byte() {
            proof {
                assert(decoded_from(s, table@, max_len) is None) by {
                    reveal(decoded_from);
                }
            }
            return None;
        }
        proof {
            assert(s.readable());
        }
        let value = stream.read_n_bits_padded(max_len, true);
        proof {
            lemma_u16_holds_value(value, lookahead(s, max_len));
        }
        let mut idx: usize = 0;
        while idx < table.len() && table[idx].0 < value
            invariant
                idx <= table.len(),
                forall|j: int| 0 <= j < idx ==> #[trigger] table@[j].0 < value,
            decreases table.len() - idx,
        {
            idx += 1;
        }
        proof {
            lemma_first_at_least(table@, value as nat, idx as int);
            assert(first_at_least(table@, bits_value(lookahead(s, max_len))) == idx);
        }
        if idx == table.len() {
            proof {
                assert(decoded_from(s, table@, max_len) is None) by {
                    reveal(decoded_from);
                }
            }
            return None;
        }
        let symbol = table[idx].1;
        let len = table[idx].2;
        if len == 0 || (stream.bits_read_from_first_byte() as usize + len as usize) / 8
            > stream.data().len() {
            proof {
                assert(decoded_from(s, table@, max_len) is None) by {
                    reveal(decoded_from);
                }
            }
            return None;
        }
        stream.flush_n_bits(len);
        result.append_byte(symbol);
        proof {
            lemma_flush_advances(s, len);
            let next = decoded_from(stream@, table@, max_len);
            assert(decoded_from(s, table@, max_len) == prefixed(seq![symbol], next)) by {
                reveal(decoded_from);
            }
            match next {
                Some((rest, f)) => {
                    assert(got + (seq![symbol] + rest) =~= got.push(symbol) + rest);
                },
                None => {},
            }
        }
    }
    proof {
        assert(decoded_from(stream@, table@, max_len) == Some((Seq::<u8>::empty(), stream@))) by {
            reveal(decoded_from);
        }
        assert(result@.bytes + Seq::<u8>::empty() =~= result@.bytes);
    }
    Some(result)
}

/// Create the table needed for canonical search, and the longest code length.
pub fn create_canonical_table(code: HuffmanCodeMap) -> (r: (Vec<CodeEntry>, u8))
    requires
        exists|k: u8| code@.contains_key(k),
    ensures
        r.0@ == canonical_table(code@),
        r.1 == max_code_len(code@),
        forall|i: int| 0 <= i < r.0@.len() ==> #[trigger] r.0@[i].2 <= r.1,
{
    let ghost m = code@;
    let max_len = get_max_len_from_code(&code);
    let mut all_codes = create_code_vec_from_map(&code);
    let ghost entries = all_codes@;
    sort_code_vector_by_length_and_code(&mut all_codes);
    proof {
        lemma_entries_bounded(m, 256);
        let keyed = entries.map_values(|e: CodeEntry| (length_and_code_key(e), e));
        lemma_sorted_elements(keyed);
        assert forall|i: int| 0 <= i < all_codes@.len() implies #[trigger] all_codes@[i].2 <= max_len by {
            let x = sorted_by_weight(keyed)[i];
            assert(keyed.contains(x));
            let w = choose|w: int| 0 <= w < keyed.len() && keyed[w] == x;
            assert(entries[w] == x.1);
        }
    }
    let table = pad_code_with_ones(&mut all_codes, max_len);
    proof {
        assert forall|i: int| 0 <= i < table@.len() implies #[trigger] table@[i].2 <= max_len by {
            assert(table@[i].2 == all_codes@[i].2);
        }
    }
    (table, max_len)
}

/// Extract the maximum codeword length from the code.
pub fn get_max_len_from_code(code: &HashMap<u8, HuffmanCode>) -> (r: u8)
    requires
        exists|k: u8| code@.contains_key(k),
    ensures
        r == max_code_len(code@),
{
    let mut best: u8 = 0;
    let mut k: u32 = 0;
    while k < 256
        invariant
            k <= 256,
            best == max_len_below(code@, k as nat),
        decreases 256 - k,
    {
        let symbol = k as u8;
        match code.get(&symbol) {
            Some(c) => {
                if c.0 > best {
                    best = c.0;
                }
            },
            None => {},
        }
        k += 1;
    }
    best
}

/// Turn the code into a vector of (code, symbol, code length), by increasing symbol.
pub fn create_code_vec_from_map(code: &HashMap<u8, HuffmanCode>) -> (r: Vec<CodeEntry>)
    ensures
        r@ == code_entries(code@, 256),
{
    let mut out: Vec<CodeEntry> = Vec::new();
    let mut k: u32 = 0;
    while k < 256
        invariant
            k <= 256,
            out@ == code_entries(code@, k as nat),
        decreases 256 - k,
    {
        let symbol = k as u8;
        match code.get(&symbol) {
            Some(c) => {
                out.push((c.1, symbol, c.0));
            },
            None => {},
        }
        k += 1;
        proof {
            assert(out@ =~= code_entries(code@, k as nat));
        }
    }
    out
}

/// Sort the code vector by length first, and by the code if length is equal.
pub fn sort_code_vector_by_length_and_code(all_codes: &mut Vec<CodeEntry>)
    ensures
        final(all_codes)@ == sorted_by_length_and_code(old(all_codes)@),
{
    let ghost orig = all_codes@;
    let ghost keyed_spec = orig.map_values(|e: CodeEntry| (length_and_code_key(e), e));
    let mut keyed: Vec<(u64, CodeEntry)> = Vec::new();
    let mut i: usize = 0;
    while i < all_codes.len()
        invariant
            i <= all_codes.len(),
            all_codes@ == orig,
            keyed_spec == orig.map_values(|e: CodeEntry| (length_and_code_key(e), e)),
            keyed@ == keyed_spec.take(i as int),
        decreases all_codes.len() - i,
    {
        let e = all_codes[i];
        keyed.push((e.2 as u64 * 65536 + e.0 as u64, e));
        i += 1;
        proof {
            assert(keyed@ =~= keyed_spec.take(i as int));
        }
    }
    proof {
        assert(keyed_spec.take(i as int) =~= keyed_spec);
    }
    let sorted = sort_by_weight(keyed);
    let ghost target = sorted@.map_values(|x: (u64, CodeEntry)| x.1);
    let mut out: Vec<CodeEntry> = Vec::new();
    let mut j: usize = 0;
    while j < sorted.len()
        invariant
            j <= sorted.len(),
            target == sorted@.map_values(|x: (u64, CodeEntry)| x.1),
            out@ == target.take(j as int),
        decreases sorted.len() - j,
    {
        out.push(sorted[j].1);
        j += 1;
        proof {
            assert(out@ =~= target.take(j as int));
        }
    }
    proof {
        assert(target.take(j as int) =~= target);
    }
    *all_codes = out;
}

/// Pad each code in the given code vector with 1, until all codes are of the length
/// `max_len`.
pub fn pad_code_with_ones(all_codes: &mut Vec<CodeEntry>, max_len: u8) -> (r: Vec<CodeEntry>)
    requires
        forall|i: int| 0 <= i < old(all_codes)@.len() ==> #[trigger] old(all_codes)@[i].2 <= max_len,
    ensures
        r@ == padded_entries(old(all_codes)@, max_len),
        final(all_codes)@ == old(all_codes)@,
{
    let ghost target = padded_entries(all_codes@, max_len);
    let mut out: Vec<CodeEntry> = Vec::new();
    let mut i: usize = 0;
    while i < all_codes.len()
        invariant
            i <= all_codes.len(),
            all_codes@ == old(all_codes)@,
            forall|k: int| 0 <= k < all_codes@.len() ==> #[trigger] all_codes@[k].2 <= max_len,
            target == padded_entries(all_codes@, max_len),
            out@ == target.take(i as int),
        decreases all_codes.len() - i,
    {
        let v = all_codes[i];
        let mut new_code = v.0;
        let mut t: u8 = 0;
        while t < max_len - v.2
            invariant
                v.2 <= max_len,
                t <= max_len - v.2,
                new_code == padded_code(v.0, t as nat),
            decreases max_len - v.2 - t,
        {
            let x = new_code;
            assert((x << 1u16) < 65535u16 && ((x << 1u16) as int) + 1 == (x as int * 2 + 1)
                % 65536) by (bit_vector);
            new_code = new_code << 1;
            new_code += 1;
            t += 1;
        }
        out.push((new_code, v.1, v.2));
        i += 1;
        proof {
            assert(out@ =~= target.take(i as int));
        }
    }
    proof {
        assert(target.take(i as int) =~= target);
    }
    out
}

/// 2 to the power `n`.
pub open spec fn two_to(n: nat) -> nat
    decreases n,
{
    if n == 0 {
        1
    } else {
        2 * two_to((n - 1) as nat)
    }
}

/// The code of symbol `x` in `m` as bits.
pub open spec fn code_bits(m: Map<u8, HuffmanCode>, x: u8) -> Seq<bool> {
    low_bits_u16(m[x].1, m[x].0 as nat)
}

/// Every code of `m` is 1 to 16 bits long and its value fits in its length.
pub open spec fn codes_fit(m: Map<u8, HuffmanCode>) -> bool {
    forall|x: u8|
        #[trigger] m.contains_key(x) ==> 1 <= m[x].0 <= 16 && (m[x].0 < 16 ==> (m[x].1 >> (
        m[x].0 as u16)) == 0)
}

/// In table order, the `max_len`-bit values that begin with an entry's code all lie above
/// those that begin with an earlier entry's code: an earlier entry's padded code lies below
/// the first of them.
pub open spec fn ranges_ordered(t: Seq<CodeEntry>, max_len: u8) -> bool {
    forall|i: int, j: int|
        0 <= i < j < t.len() ==> #[trigger] t[i].0 + two_to((max_len - t[j].2) as nat)
            <= #[trigger] t[j].0
}

/// A code that the canonical search decodes: its codes fit their lengths, and the ranges of
/// its codes follow the order of the decoding table.
pub open spec fn canonical_code(m: Map<u8, HuffmanCode>) -> bool {
    codes_fit(m) && ranges_ordered(canonical_table(m), max_code_len(m))
}

/// The codes of `m` lie in order of their length: as a range of codes of a longer length,
/// every code lies before each longer code; and no two symbols share a code.
pub open spec fn codes_ordered(m: Map<u8, HuffmanCode>) -> bool {
    &&& forall|a: u8, b: u8|
        #[trigger] m.contains_key(a) && #[trigger] m.contains_key(b) && m[a].0 < m[b].0 ==> (m[a].1
            + 1) * two_to((m[b].0 - m[a].0) as nat) <= m[b].1
    &&& forall|a: u8, b: u8|
        #[trigger] m.contains_key(a) && #[trigger] m.contains_key(b) && a != b ==> m[a] != m[b]
}

/// A code whose codes fit their lengths and lie in order of their length is one the
/// canonical search decodes.
pub proof fn lemma_ordered_code_is_canonical(m: Map<u8, HuffmanCode>)
    requires
        codes_fit(m),
        codes_ordered(m),
    ensures
        canonical_code(m),
{
    let big_m = max_code_len(m);
    let entries = code_entries(m, 256);
    let keyed = entries.map_values(|e: CodeEntry| (length_and_code_key(e), e));
    let sorted = sorted_by_weight(keyed);
    let plain = sorted.map_values(|x: (u64, CodeEntry)| x.1);
    let t = canonical_table(m);
    assert(t == padded_entries(plain, big_m));
    lemma_entries_bounded(m, 256);
    lemma_entries_increasing(m, 256);
    lemma_max_len_bound(m, 256);
    assert(keyed.no_duplicates()) by {
        assert forall|i: int, j: int| 0 <= i < keyed.len() && 0 <= j < keyed.len() && i != j implies keyed[i]
            != keyed[j] by {
            if i < j {
                assert(entries[i].1 < entries[j].1);
            } else {
                assert(entries[j].1 < entries[i].1);
            }
        }
    }
    lemma_sorted_elements(keyed);
    lemma_sorted_ordered(keyed);
    lemma_sorted_no_duplicates(keyed);
    assert forall|i: int, j: int| 0 <= i < j < t.len() implies #[trigger] t[i].0 + two_to(
        (big_m - t[j].2) as nat,
    ) <= #[trigger] t[j].0 by {
        let x = sorted[i];
        let y = sorted[j];
        assert(keyed.contains(x));
        assert(keyed.contains(y));
        let wx = choose|w: int| 0 <= w < keyed.len() && keyed[w] == x;
        let wy = choose|w: int| 0 <= w < keyed.len() && keyed[w] == y;
        let ea = entries[wx];
        let eb = entries[wy];
        let a = ea.1;
        let b = eb.1;
        assert(x != y);
        assert(a != b);
        assert(x.0 <= y.0);
        let la = m[a].0;
        let lb = m[b].0;
        let ca = m[a].1;
        let cb = m[b].1;
        assert(x.0 == la * 65536 + ca);
        assert(y.0 == lb * 65536 + cb);
        lemma_code_value(m, a);
        lemma_code_value(m, b);
        lemma_max_len_at_least(m, a, 256);
        lemma_max_len_at_least(m, b, 256);
        let ka = (big_m - la) as nat;
        let kb = (big_m - lb) as nat;
        lemma_padded_code(ca, la as nat, ka);
        lemma_padded_code(cb, lb as nat, kb);
        assert(t[i] == (padded_code(ca, ka), a, la));
        assert(t[j] == (padded_code(cb, kb), b, lb));
        let pa = two_to(ka);
        let pb = two_to(kb);
        if la < lb {
            let g = two_to((lb - la) as nat);
            assert((ca + 1) * g <= cb);
            lemma_two_to_add((lb - la) as nat, kb);
            assert((lb - la) as nat + kb == ka);
            assert(pa == g * pb);
            assert((ca + 1) * pa <= cb * pb) by (nonlinear_arith)
                requires (ca + 1) * g <= cb, pa == g * pb, pb >= 0;
        } else {
            assert(la == lb);
            assert(m[a] != m[b]);
            assert(ca < cb);
            assert((ca + 1) * pa <= cb * pb) by (nonlinear_arith)
                requires ca + 1 <= cb, pa == pb, pb >= 0;
        }
        assert(padded_code(ca, ka) + pb <= padded_code(cb, kb)) by (nonlinear_arith)
            requires
                (ca + 1) * pa <= cb * pb,
                padded_code(ca, ka) == ca * pa + pa - 1,
                padded_code(cb, kb) == cb * pb + pb - 1,
        ;
    }
}

/// The symbols of the entries increase.
proof fn lemma_entries_increasing(m: Map<u8, HuffmanCode>, k: nat)
    requires
        k <= 256,
    ensures
        forall|i: int, j: int|
            0 <= i < j < code_entries(m, k).len() ==> #[trigger] code_entries(m, k)[i].1
                < #[trigger] code_entries(m, k)[j].1,
        forall|i: int| 0 <= i < code_entries(m, k).len() ==> #[trigger] code_entries(m, k)[i].1 < k,
    decreases k,
{
    if k > 0 {
        lemma_entries_increasing(m, (k - 1) as nat);
        let prev = code_entries(m, (k - 1) as nat);
        let cur = code_entries(m, k);
        assert forall|i: int| 0 <= i < cur.len() implies #[trigger] cur[i].1 < k by {
            if i < prev.len() {
                assert(cur[i] == prev[i]);
            }
        }
        assert forall|i: int, j: int| 0 <= i < j < cur.len() implies #[trigger] cur[i].1
            < #[trigger] cur[j].1 by {
            assert(cur[i] == prev[i]);
            if j < prev.len() {
                assert(cur[j] == prev[j]);
            }
        }
    }
}

/// Decoding gives back what was encoded: a stream holding the codes of `bytes` under a
/// code the canonical search decodes is decoded to those bytes, and is left empty.
pub proof fn lemma_decode_inverts_encoding(m: Map<u8, HuffmanCode>, bytes: Seq<u8>, s: BitStreamView)
    requires
        canonical_code(m),
        all_coded(bytes, m),
        s.wf(),
        s.bits() == encoded_bits(bytes, m),
    ensures
        decoded_from(s, canonical_table(m), max_code_len(m)) matches Some((out, rest)) && out
            == bytes && rest.is_empty(),
    decreases bytes.len(),
{
    let t = canonical_table(m);
    let big_m = max_code_len(m);
    reveal(decoded_from);
    if bytes.len() == 0 {
        assert(s.bits().len() == 0);
    } else {
        let x = bytes[0];
        let l = m[x].0;
        let c = m[x].1;
        let tail = bytes.skip(1);
        lemma_encoded_front(bytes, m);
        assert(m.contains_key(x));
        let p = code_bits(m, x);
        assert(s.bits() == p + encoded_bits(tail, m));
        assert((p + encoded_bits(tail, m)).take(p.len() as int) =~= p);
        assert(s.bits().len() >= l);
        assert(!s.is_empty());
        lemma_code_value(m, x);
        lemma_max_len_at_least(m, x, 256);
        lemma_max_len_bound(m, 256);
        lemma_lookahead_prefix(s, p, big_m);
        let look = lookahead(s, big_m);
        let v = bits_value(look);
        assert(look =~= p + look.skip(l as int));
        lemma_bits_value_concat(p, look.skip(l as int));
        lemma_bits_value_bound(look.skip(l as int));
        let k = (big_m - l) as nat;
        assert(look.skip(l as int).len() == k);
        lemma_padded_code(c, l as nat, k);
        let i = lemma_table_has(m, x);
        assert forall|j: int| 0 <= j < i implies #[trigger] t[j].0 < v by {
            assert(t[j].0 + two_to(k) <= t[i].0);
        }
        lemma_first_at_least(t, v, i);
        assert(s.bits_read + l <= s.total_bits());
        assert(s.total_bits() <= s.bytes.len() * 8);
        assert((s.bits_read + l) / 8 <= s.bytes.len()) by (nonlinear_arith)
            requires s.bits_read + l <= s.bytes.len() * 8, s.bits_read + l >= 0;
        lemma_flushed_bits(s, l);
        let f = s.flushed(l);
        assert(f.bits() =~= encoded_bits(tail, m));
        assert forall|j: int| 0 <= j < tail.len() implies m.contains_key(#[trigger] tail[j]) by {
            assert(tail[j] == bytes[j + 1]);
        }
        lemma_decode_inverts_encoding(m, tail, f);
        let rest = decoded_from(f, t, big_m);
        assert(seq![x] + rest.unwrap().0 =~= bytes);
    }
}

/// The bits of the codes of `bytes` are those of the first byte's code, then those of the
/// rest.
proof fn lemma_encoded_front(bytes: Seq<u8>, m: Map<u8, HuffmanCode>)
    requires
        bytes.len() > 0,
    ensures
        encoded_bits(bytes, m) == code_bits(m, bytes[0]) + encoded_bits(bytes.skip(1), m),
    decreases bytes.len(),
{
    if bytes.len() == 1 {
        assert(bytes.drop_last() =~= Seq::<u8>::empty());
        assert(bytes.skip(1) =~= Seq::<u8>::empty());
        assert(Seq::<bool>::empty() + code_bits(m, bytes[0]) =~= code_bits(m, bytes[0]));
        assert(code_bits(m, bytes[0]) + Seq::<bool>::empty() =~= code_bits(m, bytes[0]));
    } else {
        let d = bytes.drop_last();
        lemma_encoded_front(d, m);
        assert(bytes.skip(1).drop_last() =~= d.skip(1));
        assert(bytes.skip(1).last() == bytes.last());
        assert(d[0] == bytes[0]);
        assert(encoded_bits(bytes, m) =~= code_bits(m, bytes[0]) + encoded_bits(bytes.skip(1), m));
    }
}

pub proof fn lemma_two_to_add(a: nat, b: nat)
    ensures
        two_to(a + b) == two_to(a) * two_to(b),
        two_to(a) >= 1,
    decreases a,
{
    if a > 0 {
        let a1 = (a - 1) as nat;
        lemma_two_to_add(a1, b);
        let x = two_to(a1);
        let y = two_to(b);
        assert(two_to(a) == 2 * x);
        assert(two_to(a + b) == 2 * two_to(a1 + b));
        assert(two_to(a + b) == two_to(a) * two_to(b)) by (nonlinear_arith)
            requires
                two_to(a + b) == 2 * (x * y),
                two_to(a) == 2 * x,
                two_to(b) == y,
        ;
    } else {
        assert(two_to(a) == 1);
        assert(a + b == b);
        assert(two_to(a + b) == two_to(a) * two_to(b));
    }
}

pub proof fn lemma_two_to_16()
    ensures
        two_to(16) == 65536,
{
    reveal_with_fuel(two_to, 17);
}

pub proof fn lemma_two_to_mono(a: nat, b: nat)
    requires
        a <= b,
    ensures
        two_to(a) <= two_to(b),
{
    lemma_two_to_add(a, (b - a) as nat);
    lemma_two_to_add((b - a) as nat, 0);
    assert(two_to(a) * two_to((b - a) as nat) >= two_to(a)) by (nonlinear_arith)
        requires two_to((b - a) as nat) >= 1, two_to(a) >= 1;
}

proof fn lemma_bits_value_concat(a: Seq<bool>, b: Seq<bool>)
    ensures
        bits_value(a + b) == bits_value(a) * two_to(b.len()) + bits_value(b),
    decreases b.len(),
{
    if b.len() == 0 {
        assert(a + b =~= a);
        assert(two_to(b.len()) == 1);
        assert(bits_value(b) == 0);
        assert(bits_value(a) * 1 == bits_value(a));
    } else {
        lemma_bits_value_concat(a, b.drop_last());
        assert((a + b).drop_last() =~= a + b.drop_last());
        let x = bits_value(a);
        let p = two_to((b.len() - 1) as nat);
        assert((a + b).last() == b.last());
        assert(two_to(b.len()) == 2 * p);
        assert(bits_value(a + b) == 2 * bits_value(a + b.drop_last()) + if b.last() { 1nat } else { 0nat });
        assert(bits_value(b) == 2 * bits_value(b.drop_last()) + if b.last() { 1nat } else { 0nat });
        let lb = if b.last() { 1nat } else { 0nat };
        let vb = bits_value(b.drop_last());
        assert(bits_value(a + b) == x * two_to(b.len()) + bits_value(b)) by (nonlinear_arith)
            requires
                bits_value(a + b) == 2 * (x * p + vb) + lb,
                two_to(b.len()) == 2 * p,
                bits_value(b) == 2 * vb + lb,
        ;
    }
}

proof fn lemma_bits_value_bound(s: Seq<bool>)
    ensures
        bits_value(s) < two_to(s.len()),
    decreases s.len(),
{
    if s.len() > 0 {
        lemma_bits_value_bound(s.drop_last());
    }
}

/// Padding a code of `l` bits with `k` ones, within 16 bits, is shifting it and filling the
/// new low bits.
proof fn lemma_padded_code(c: u16, l: nat, k: nat)
    requires
        c < two_to(l),
        l + k <= 16,
    ensures
        padded_code(c, k) == c * two_to(k) + two_to(k) - 1,
    decreases k,
{
    if k > 0 {
        lemma_padded_code(c, l, (k - 1) as nat);
        let q = two_to((k - 1) as nat);
        lemma_two_to_add(l, k);
        lemma_two_to_mono(l + k, 16);
        lemma_two_to_16();
        assert((c + 1) * two_to(k) <= two_to(l) * two_to(k)) by (nonlinear_arith)
            requires c + 1 <= two_to(l), two_to(k) >= 0;
        assert(two_to(k) == 2 * q);
        let pp = padded_code(c, (k - 1) as nat);
        assert(pp == c * q + q - 1);
        assert((c * q + q - 1) * 2 + 1 == c * (2 * q) + 2 * q - 1) by (nonlinear_arith);
        assert(c * (2 * q) + 2 * q - 1 < 65536) by (nonlinear_arith)
            requires (c + 1) * (2 * q) <= two_to(l + k), two_to(l + k) <= 65536, q >= 1;
        assert(pp * 2 + 1 < 65536);
        assert((pp * 2 + 1) % 65536 == pp * 2 + 1);
        assert(padded_code(c, k) == ((pp * 2 + 1) % 65536) as u16);
        assert(padded_code(c, k) == c * two_to(k) + two_to(k) - 1) by (nonlinear_arith)
            requires
                padded_code(c, k) == pp * 2 + 1,
                pp == c * q + q - 1,
                two_to(k) == 2 * q,
        ;
    } else {
        assert(two_to(0) == 1);
        assert(c * 1 == c);
    }
}

/// A code that fits its length reads back as its value, below 2 to its length.
proof fn lemma_code_value(m: Map<u8, HuffmanCode>, x: u8)
    requires
        codes_fit(m),
        m.contains_key(x),
    ensures
        bits_value(code_bits(m, x)) == m[x].1,
        (m[x].1 as nat) < two_to(m[x].0 as nat),
        code_bits(m, x).len() == m[x].0,
{
    let v = m[x].1;
    let s = code_bits(m, x);
    assert(u16_holds(v, s));
    lemma_u16_holds_value(v, s);
    lemma_bits_value_bound(s);
}

/// No code of `m` begins another: of two symbols, the longer code (or either of two of the
/// same length) does not start with the bits of the other code.
pub open spec fn prefix_free(m: Map<u8, HuffmanCode>) -> bool {
    forall|a: u8, b: u8|
        #[trigger] m.contains_key(a) && #[trigger] m.contains_key(b) && a != b && m[a].0 <= m[b].0
            ==> (m[b].1 as nat) / two_to((m[b].0 - m[a].0) as nat) != m[a].1
}

/// A code the canonical search decodes is prefix free.
pub proof fn lemma_canonical_prefix_free(m: Map<u8, HuffmanCode>)
    requires
        canonical_code(m),
    ensures
        prefix_free(m),
{
    assert forall|a: u8, b: u8|
        #[trigger] m.contains_key(a) && #[trigger] m.contains_key(b) && a != b && m[a].0 <= m[b].0
            implies (m[b].1 as nat) / two_to((m[b].0 - m[a].0) as nat) != m[a].1 by {
        lemma_prefix_pair(m, a, b);
    }
}

proof fn lemma_prefix_pair(m: Map<u8, HuffmanCode>, a: u8, b: u8)
    requires
        canonical_code(m),
        m.contains_key(a),
        m.contains_key(b),
        a != b,
        m[a].0 <= m[b].0,
    ensures
        (m[b].1 as nat) / two_to((m[b].0 - m[a].0) as nat) != m[a].1,
{
    let t = canonical_table(m);
    let big_m = max_code_len(m);
    let la = m[a].0 as nat;
    let lb = m[b].0 as nat;
    let ca = m[a].1 as nat;
    let cb = m[b].1 as nat;
    lemma_max_len_bound(m, 256);
    lemma_max_len_at_least(m, a, 256);
    lemma_max_len_at_least(m, b, 256);
    lemma_code_value(m, a);
    lemma_code_value(m, b);
    let ia = lemma_table_has(m, a);
    let ib = lemma_table_has(m, b);
    assert(ia != ib);
    let ka = (big_m - la) as nat;
    let kb = (big_m - lb) as nat;
    let d = two_to((lb - la) as nat);
    lemma_padded_code(m[a].1, la, ka);
    lemma_padded_code(m[b].1, lb, kb);
    lemma_two_to_add((lb - la) as nat, kb);
    lemma_two_to_add(kb, 0);
    lemma_two_to_add(ka, 0);
    assert(((lb - la) as nat + kb) as nat == ka);
    let big_a = two_to(ka);
    let big_b = two_to(kb);
    assert(big_a == d * big_b);
    assert(t[ia].0 == ca * big_a + big_a - 1);
    assert(t[ib].0 == cb * big_b + big_b - 1);
    if cb / d == ca {
        let r = cb % d;
        assert(cb == ca * d + r && 0 <= r < d) by {
            vstd::arithmetic::div_mod::lemma_fundamental_div_mod(cb as int, d as int);
            assert(d * (cb / d) == (cb / d) * d) by (nonlinear_arith);
        }
        if ia < ib {
            assert(t[ia].0 + two_to((big_m - t[ib].2) as nat) <= t[ib].0);
            assert(false) by (nonlinear_arith)
                requires
                    ca * big_a + big_a - 1 + big_b <= cb * big_b + big_b - 1,
                    cb == ca * d + r,
                    r < d,
                    big_a == d * big_b,
                    big_b >= 1,
                    r >= 0,
            ;
        } else {
            assert(t[ib].0 + two_to((big_m - t[ia].2) as nat) <= t[ia].0);
            assert(false) by (nonlinear_arith)
                requires
                    cb * big_b + big_b - 1 + big_a <= ca * big_a + big_a - 1,
                    cb == ca * d + r,
                    big_a == d * big_b,
                    big_b >= 1,
                    r >= 0,
            ;
        }
    }
}

/// A padded read of at most 16 bits sees the unread bits first.
proof fn lemma_lookahead_prefix(s: BitStreamView, p: Seq<bool>, max_len: u8)
    requires
        p.len() <= max_len,
        p.len() <= s.bits().len(),
        s.bits().take(p.len() as int) == p,
    ensures
        lookahead(s, max_len).len() == max_len,
        lookahead(s, max_len).take(p.len() as int) == p,
{
    assert forall|j: int| 0 <= j < p.len() implies lookahead(s, max_len)[j] == p[j] by {
        assert(s.bits().take(p.len() as int)[j] == p[j]);
    }
    assert(lookahead(s, max_len).take(p.len() as int) =~= p);
}

proof fn lemma_max_len_at_least(m: Map<u8, HuffmanCode>, x: u8, k: nat)
    requires
        m.contains_key(x),
        x < k,
    ensures
        m[x].0 <= max_len_below(m, k),
    decreases k,
{
    if x < k - 1 {
        lemma_max_len_at_least(m, x, (k - 1) as nat);
    }
}

proof fn lemma_entries_contain(m: Map<u8, HuffmanCode>, x: u8, k: nat)
    requires
        m.contains_key(x),
        x < k,
    ensures
        code_entries(m, k).contains((m[x].1, x, m[x].0)),
    decreases k,
{
    let e = (m[x].1, x, m[x].0);
    if x == k - 1 {
        let prev = code_entries(m, (k - 1) as nat);
        assert(code_entries(m, k)[prev.len() as int] == e);
    } else {
        lemma_entries_contain(m, x, (k - 1) as nat);
        let prev = code_entries(m, (k - 1) as nat);
        let w = choose|w: int| 0 <= w < prev.len() && prev[w] == e;
        assert(code_entries(m, k)[w] == e);
    }
}

/// The decoding table has an entry for each coded symbol: its padded code, the symbol and
/// its length.
proof fn lemma_table_has(m: Map<u8, HuffmanCode>, x: u8) -> (i: int)
    requires
        m.contains_key(x),
    ensures
        0 <= i < canonical_table(m).len(),
        canonical_table(m)[i] == (
            padded_code(m[x].1, (max_code_len(m) - m[x].0) as nat),
            x,
            m[x].0,
        ),
{
    let e = (m[x].1, x, m[x].0);
    let entries = code_entries(m, 256);
    lemma_entries_contain(m, x, 256);
    let w = choose|w: int| 0 <= w < entries.len() && entries[w] == e;
    let keyed = entries.map_values(|y: CodeEntry| (length_and_code_key(y), y));
    assert(keyed[w] == (length_and_code_key(e), e));
    lemma_sorted_contains(keyed);
    lemma_sorted_elements(keyed);
    let sorted = sorted_by_weight(keyed);
    assert(sorted.contains(keyed[w]));
    let i = choose|i: int| 0 <= i < sorted.len() && sorted[i] == keyed[w];
    let plain = sorted.map_values(|y: (u64, CodeEntry)| y.1);
    assert(plain[i] == e);
    i
}

/// A 16-bit value that holds a bit sequence is that sequence read as a number.
proof fn lemma_u16_holds_value(v: u16, s: Seq<bool>)
    requires
        u16_holds(v, s),
    ensures
        v as nat == bits_value(s),
    decreases s.len(),
{
    assert((v >> 0u16) == v) by (bit_vector);
    if s.len() > 0 {
        let n = s.len() as u16;
        lemma_u16_shr(v, s, 1);
        assert(s.take(s.len() - 1) =~= s.drop_last());
        lemma_u16_holds_value(v >> 1u16, s.drop_last());
        assert(s[s.len() - 1] == low_bit_u16(v, n, (n - 1) as u16));
        assert(v == 2 * (v >> 1u16) + (v & 1u16) && ((v & 1u16) == 1u16 || (v & 1u16) == 0u16))
            by (bit_vector);
    }
}

proof fn lemma_first_at_least(t: Seq<CodeEntry>, v: nat, idx: int)
    requires
        0 <= idx <= t.len(),
        forall|j: int| 0 <= j < idx ==> #[trigger] t[j].0 < v,
        idx == t.len() || t[idx].0 >= v,
    ensures
        first_at_least(t, v) == idx,
    decreases idx,
{
    if idx > 0 {
        assert forall|j: int| 0 <= j < idx - 1 implies #[trigger] t.skip(1)[j].0 < v by {
            assert(t.skip(1)[j] == t[j + 1]);
        }
        lemma_first_at_least(t.skip(1), v, idx - 1);
    }
}

/// Code lengths below 17 keep the longest one below 17.
proof fn lemma_max_len_bound(m: Map<u8, HuffmanCode>, k: nat)
    requires
        forall|s: u8| #[trigger] m.contains_key(s) ==> m[s].0 <= 16,
    ensures
        max_len_below(m, k) <= 16,
    decreases k,
{
    if k > 0 {
        lemma_max_len_bound(m, (k - 1) as nat);
    }
}

/// Each entry is the code of its symbol, no longer than the longest code.
proof fn lemma_entries_bounded(m: Map<u8, HuffmanCode>, k: nat)
    requires
        k <= 256,
    ensures
        forall|i: int| 0 <= i < code_entries(m, k).len() ==> {
            let e = #[trigger] code_entries(m, k)[i];
            &&& m.contains_key(e.1)
            &&& e.2 == m[e.1].0
            &&& e.0 == m[e.1].1
            &&& e.2 <= max_len_below(m, k)
        },
    decreases k,
{
    if k > 0 {
        lemma_entries_bounded(m, (k - 1) as nat);
        let prev = code_entries(m, (k - 1) as nat);
        assert forall|i: int| 0 <= i < code_entries(m, k).len() implies {
            let e = #[trigger] code_entries(m, k)[i];
            &&& m.contains_key(e.1)
            &&& e.2 == m[e.1].0
            &&& e.0 == m[e.1].1
            &&& e.2 <= max_len_below(m, k)
        } by {
            if i < prev.len() {
                assert(code_entries(m, k)[i] == prev[i]);
            }
        }
    }
}

} // verus!
