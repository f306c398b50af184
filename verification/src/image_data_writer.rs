//! Writing the Huffman-coded blocks of an image into the entropy-coded segment: four Y
//! blocks, then one Cb and one Cr block, for every Cb block.

use vstd::prelude::*;
use crate::bit_stream::{BitStream, BitStreamView, lemma_extends_trans};
use crate::bits::low_bits_u16;
use crate::coefficient_encoder::CategoryCode;
use crate::huffman::HuffmanCode;

verus! {

/// The bits of one coded value: its Huffman code, then its category code.
pub open spec fn entry_bits(e: (HuffmanCode, CategoryCode)) -> Seq<bool> {
    low_bits_u16(e.0.1, e.0.0 as nat) + low_bits_u16(e.1.1, e.1.0 as nat)
}

/// The bits of coded values, one after the other.
pub open spec fn entries_bits(s: Seq<(HuffmanCode, CategoryCode)>) -> Seq<bool>
    decreases s.len(),
{
    if s.len() == 0 {
        Seq::empty()
    } else {
        entries_bits(s.drop_last()) + entry_bits(s.last())
    }
}

/// The coded values can be written: no code is longer than 16 bits.
pub open spec fn entry_ok(e: (HuffmanCode, CategoryCode)) -> bool {
    e.0.0 <= 16 && e.1.0 <= 16
}

/// The bits of block `index`: its DC value, then its AC values.
pub open spec fn block_bits(
    dc: Seq<(HuffmanCode, CategoryCode)>,
    ac: Seq<Seq<(HuffmanCode, CategoryCode)>>,
    index: int,
) -> Seq<bool> {
    entry_bits(dc[index]) + entries_bits(ac[index])
}

/// The blocks [`write_data_at_index`] can write.
pub open spec fn block_ok(
    dc: Seq<(HuffmanCode, CategoryCode)>,
    ac: Seq<Seq<(HuffmanCode, CategoryCode)>>,
    index: int,
) -> bool {
    &&& 0 <= index < dc.len()
    &&& index < ac.len()
    &&& entry_ok(dc[index])
    &&& forall|k: int| 0 <= k < ac[index].len() ==> entry_ok(#[trigger] ac[index][k])
}

/// The six blocks of the `i`-th unit: Y blocks `4i` to `4i + 3`, Cb block `i`, Cr block `i`.
pub open spec fn unit_bits(
    y_dc: Seq<(HuffmanCode, CategoryCode)>,
    cb_dc: Seq<(HuffmanCode, CategoryCode)>,
    cr_dc: Seq<(HuffmanCode, CategoryCode)>,
    y_ac: Seq<Seq<(HuffmanCode, CategoryCode)>>,
    cb_ac: Seq<Seq<(HuffmanCode, CategoryCode)>>,
    cr_ac: Seq<Seq<(HuffmanCode, CategoryCode)>>,
    i: int,
) -> Seq<bool> {
    block_bits(y_dc, y_ac, 4 * i) + block_bits(y_dc, y_ac, 4 * i + 1) + block_bits(
        y_dc,
        y_ac,
        4 * i + 2,
    ) + block_bits(y_dc, y_ac, 4 * i + 3) + block_bits(cb_dc, cb_ac, i) + block_bits(
        cr_dc,
        cr_ac,
        i,
    )
}

/// The bits of the first `n` units.
pub open spec fn image_data_bits(
    y_dc: Seq<(HuffmanCode, CategoryCode)>,
    cb_dc: Seq<(HuffmanCode, CategoryCode)>,
    cr_dc: Seq<(HuffmanCode, CategoryCode)>,
    y_ac: Seq<Seq<(HuffmanCode, CategoryCode)>>,
    cb_ac: Seq<Seq<(HuffmanCode, CategoryCode)>>,
    cr_ac: Seq<Seq<(HuffmanCode, CategoryCode)>>,
    n: nat,
) -> Seq<bool>
    decreases n,
{
    if n == 0 {
        Seq::empty()
    } else {
        image_data_bits(y_dc, cb_dc, cr_dc, y_ac, cb_ac, cr_ac, (n - 1) as nat) + unit_bits(
            y_dc,
            cb_dc,
            cr_dc,
            y_ac,
            cb_ac,
            cr_ac,
            n - 1,
        )
    }
}

/// The bits of a coded value: first the Huffman code's `len` lowest bits, most significant
/// first, then the category code's lowest bits in the same way.
pub proof fn lemma_entry_bits(e: (HuffmanCode, CategoryCode))
    requires
        entry_ok(e),
    ensures
        entry_bits(e).len() == e.0.0 + e.1.0,
        forall|k: int|
            0 <= k < e.0.0 ==> #[trigger] entry_bits(e)[k] == ((e.0.1 >> ((e.0.0 - 1 - k) as u16))
                & 1u16 == 1u16),
        forall|k: int|
            0 <= k < e.1.0 ==> #[trigger] entry_bits(e)[e.0.0 + k] == ((e.1.1 >> ((e.1.0 - 1
                - k) as u16)) & 1u16 == 1u16),
{
    let h = low_bits_u16(e.0.1, e.0.0 as nat);
    let c = low_bits_u16(e.1.1, e.1.0 as nat);
    assert forall|k: int| 0 <= k < e.1.0 implies #[trigger] entry_bits(e)[e.0.0 + k] == c[k] by {
    }
}

/// The coded values of a list are written in list order: nothing for no value, a single
/// value's bits for one value, and the bits of a joined list are those of its first part
/// followed by those of its second.
pub proof fn lemma_entries_in_order(
    a: Seq<(HuffmanCode, CategoryCode)>,
    b: Seq<(HuffmanCode, CategoryCode)>,
    e: (HuffmanCode, CategoryCode),
)
    ensures
        entries_bits(Seq::empty()) == Seq::<bool>::empty(),
        entries_bits(seq![e]) == entry_bits(e),
        entries_bits(a + b) == entries_bits(a) + entries_bits(b),
    decreases b.len(),
{
    assert(seq![e].drop_last() =~= Seq::<(HuffmanCode, CategoryCode)>::empty());
    assert(seq![e].last() == e);
    assert(entries_bits(seq![e].drop_last()) == Seq::<bool>::empty());
    assert(Seq::<bool>::empty() + entry_bits(e) =~= entry_bits(e));
    if b.len() == 0 {
        assert(a + b =~= a);
        assert(entries_bits(a) + Seq::<bool>::empty() =~= entries_bits(a));
    } else {
        lemma_entries_in_order(a, b.drop_last(), e);
        assert((a + b).drop_last() =~= a + b.drop_last());
        assert((a + b).last() == b.last());
        assert(entries_bits(a) + entries_bits(b.drop_last()) + entry_bits(b.last()) =~= entries_bits(
            a,
        ) + entries_bits(b));
    }
}

/// The coded image data grows unit by unit: nothing for no unit, and unit `i` adds the DC
/// value and then the AC values of Y blocks `4i` to `4i + 3` in turn, then those of Cb
/// block `i`, then those of Cr block `i`, the component order of the frame header.
#[verifier::spinoff_prover]
#[verifier::rlimit(50)]
pub proof fn lemma_image_data_unit_order(
    y_dc: Seq<(HuffmanCode, CategoryCode)>,
    cb_dc: Seq<(HuffmanCode, CategoryCode)>,
    cr_dc: Seq<(HuffmanCode, CategoryCode)>,
    y_ac: Seq<Seq<(HuffmanCode, CategoryCode)>>,
    cb_ac: Seq<Seq<(HuffmanCode, CategoryCode)>>,
    cr_ac: Seq<Seq<(HuffmanCode, CategoryCode)>>,
    i: nat,
)
    ensures
        image_data_bits(y_dc, cb_dc, cr_dc, y_ac, cb_ac, cr_ac, 0) == Seq::<bool>::empty(),
        image_data_bits(y_dc, cb_dc, cr_dc, y_ac, cb_ac, cr_ac, i + 1) == image_data_bits(
            y_dc,
            cb_dc,
            cr_dc,
            y_ac,
            cb_ac,
            cr_ac,
            i,
        ) + entry_bits(y_dc[4 * (i as int)]) + entries_bits(y_ac[4 * (i as int)]) + entry_bits(y_dc[4 * (i as int) + 1])
            + entries_bits(y_ac[4 * (i as int) + 1]) + entry_bits(y_dc[4 * (i as int) + 2]) + entries_bits(
            y_ac[4 * (i as int) + 2],
        ) + entry_bits(y_dc[4 * (i as int) + 3]) + entries_bits(y_ac[4 * (i as int) + 3]) + entry_bits(cb_dc[i as int])
            + entries_bits(cb_ac[i as int]) + entry_bits(cr_dc[i as int]) + entries_bits(
            cr_ac[i as int],
        ),
{
    let prev = image_data_bits(y_dc, cb_dc, cr_dc, y_ac, cb_ac, cr_ac, i);
    let ii = i as int;
    assert(image_data_bits(y_dc, cb_dc, cr_dc, y_ac, cb_ac, cr_ac, i + 1) == prev + unit_bits(
        y_dc,
        cb_dc,
        cr_dc,
        y_ac,
        cb_ac,
        cr_ac,
        ii,
    ));
    assert(prev + unit_bits(y_dc, cb_dc, cr_dc, y_ac, cb_ac, cr_ac, ii) =~= prev + entry_bits(
        y_dc[4 * ii],
    ) + entries_bits(y_ac[4 * ii]) + entry_bits(y_dc[4 * ii + 1]) + entries_bits(
        y_ac[4 * ii + 1],
    ) + entry_bits(y_dc[4 * ii + 2]) + entries_bits(y_ac[4 * ii + 2]) + entry_bits(
        y_dc[4 * ii + 3],
    ) + entries_bits(y_ac[4 * ii + 3]) + entry_bits(cb_dc[ii]) + entries_bits(cb_ac[ii])
        + entry_bits(cr_dc[ii]) + entries_bits(cr_ac[ii]));
}

/// Nested vectors as nested sequences.
pub open spec fn blocks_view(v: Seq<Vec<(HuffmanCode, CategoryCode)>>) -> Seq<Seq<(HuffmanCode, CategoryCode)>> {
    v.map_values(|t: Vec<(HuffmanCode, CategoryCode)>| t@)
}

/// Write the coded blocks of an image: for every Cb block, the next four Y blocks, then the
/// Cb block and the Cr block at the same place.
pub fn write_image_data_to_stream(
    stream: &mut BitStream,
    y_dc_encoded: &[(HuffmanCode, CategoryCode)],
    cb_dc_encoded: &[(HuffmanCode, CategoryCode)],
    cr_dc_encoded: &[(HuffmanCode, CategoryCode)],
    y_ac_encoded: &[Vec<(HuffmanCode, CategoryCode)>],
    cb_ac_encoded: &[Vec<(HuffmanCode, CategoryCode)>],
    cr_ac_encoded: &[Vec<(HuffmanCode, CategoryCode)>],
)
    requires
        old(stream)@.inv(),
        4 * cb_dc_encoded@.len() + 4 <= usize::MAX,
        forall|i: int|
            0 <= i < 4 * cb_dc_encoded@.len() ==> #[trigger] block_ok(
                y_dc_encoded@,
                blocks_view(y_ac_encoded@),
                i,
            ),
        forall|i: int|
            0 <= i < cb_dc_encoded@.len() ==> #[trigger] block_ok(
                cb_dc_encoded@,
                blocks_view(cb_ac_encoded@),
                i,
            ) && block_ok(cr_dc_encoded@, blocks_view(cr_ac_encoded@), i),
    ensures
        final(stream)@.extends(
            old(stream)@,
            image_data_bits(
                y_dc_encoded@,
                cb_dc_encoded@,
                cr_dc_encoded@,
                blocks_view(y_ac_encoded@),
                blocks_view(cb_ac_encoded@),
                blocks_view(cr_ac_encoded@),
                cb_dc_encoded@.len(),
            ),
        ),
{
    let ghost s0 = stream@;
    let ghost ya = blocks_view(y_ac_encoded@);
    let ghost cba = blocks_view(cb_ac_encoded@);
    let ghost cra = blocks_view(cr_ac_encoded@);
    proof {
        lemma_extends_self(s0);
    }
    assert forall|i: int| 0 <= i < cb_dc_encoded@.len() implies #[trigger] block_ok(
        cb_dc_encoded@,
        cba,
        i,
    ) && block_ok(cr_dc_encoded@, cra, i) by {
        assert(block_ok(cb_dc_encoded@, blocks_view(cb_ac_encoded@), i));
    }
    let mut y_index: usize = 0;
    let mut cb_cr_index: usize = 0;
    while cb_cr_index < cb_dc_encoded.len()
        invariant
            cb_cr_index <= cb_dc_encoded@.len(),
            y_index == 4 * cb_cr_index,
            4 * cb_dc_encoded@.len() + 4 <= usize::MAX,
            ya == blocks_view(y_ac_encoded@),
            cba == blocks_view(cb_ac_encoded@),
            cra == blocks_view(cr_ac_encoded@),
            forall|i: int|
                0 <= i < 4 * cb_dc_encoded@.len() ==> #[trigger] block_ok(y_dc_encoded@, ya, i),
            forall|i: int|
                0 <= i < cb_dc_encoded@.len() ==> #[trigger] block_ok(cb_dc_encoded@, cba, i)
                    && block_ok(cr_dc_encoded@, cra, i),
            stream@.extends(
                s0,
                image_data_bits(
                    y_dc_encoded@,
                    cb_dc_encoded@,
                    cr_dc_encoded@,
                    ya,
                    cba,
                    cra,
                    cb_cr_index as nat,
                ),
            ),
        decreases cb_dc_encoded@.len() - cb_cr_index,
    {
        let ghost s = stream@;
        let ghost before = image_data_bits(
            y_dc_encoded@,
            cb_dc_encoded@,
            cr_dc_encoded@,
            ya,
            cba,
            cra,
            cb_cr_index as nat,
        );
        write_unit(
            stream,
            y_dc_encoded,
            cb_dc_encoded,
            cr_dc_encoded,
            y_ac_encoded,
            cb_ac_encoded,
            cr_ac_encoded,
            cb_cr_index,
            y_index,
        );
        proof {
            lemma_extends_trans(
                s0,
                s,
                stream@,
                before,
                unit_bits(y_dc_encoded@, cb_dc_encoded@, cr_dc_encoded@, ya, cba, cra, cb_cr_index as int),
            );
        }
        y_index += 4;
        cb_cr_index += 1;
    }
}

/// Write the `cb_cr_index`-th unit: four Y blocks from `y_index` on, then the Cb and the Cr
/// block.
fn write_unit(
    stream: &mut BitStream,
    y_dc_encoded: &[(HuffmanCode, CategoryCode)],
    cb_dc_encoded: &[(HuffmanCode, CategoryCode)],
    cr_dc_encoded: &[(HuffmanCode, CategoryCode)],
    y_ac_encoded: &[Vec<(HuffmanCode, CategoryCode)>],
    cb_ac_encoded: &[Vec<(HuffmanCode, CategoryCode)>],
    cr_ac_encoded: &[Vec<(HuffmanCode, CategoryCode)>],
    cb_cr_index: usize,
    y_index: usize,
)
    requires
        old(stream)@.inv(),
        y_index == 4 * cb_cr_index,
        y_index + 4 <= usize::MAX,
        forall|i: int|
            y_index <= i < y_index + 4 ==> #[trigger] block_ok(
                y_dc_encoded@,
                blocks_view(y_ac_encoded@),
                i,
            ),
        block_ok(cb_dc_encoded@, blocks_view(cb_ac_encoded@), cb_cr_index as int),
        block_ok(cr_dc_encoded@, blocks_view(cr_ac_encoded@), cb_cr_index as int),
    ensures
        final(stream)@.extends(
            old(stream)@,
            unit_bits(
                y_dc_encoded@,
                cb_dc_encoded@,
                cr_dc_encoded@,
                blocks_view(y_ac_encoded@),
                blocks_view(cb_ac_encoded@),
                blocks_view(cr_ac_encoded@),
                cb_cr_index as int,
            ),
        ),
{
    let ghost s0 = stream@;
    let ghost ya = blocks_view(y_ac_encoded@);
    let ghost cba = blocks_view(cb_ac_encoded@);
    let ghost cra = blocks_view(cr_ac_encoded@);
    proof {
        lemma_extends_self(s0);
        assert(y_blocks_bits(y_dc_encoded@, ya, y_index as int, y_index as int) =~= Seq::<bool>::empty());
    }
    let mut y = y_index;
    while y < y_index + 4
        invariant
            y_index <= y <= y_index + 4,
            y_index + 4 <= usize::MAX,
            ya == blocks_view(y_ac_encoded@),
            forall|i: int| y_index <= i < y_index + 4 ==> #[trigger] block_ok(y_dc_encoded@, ya, i),
            stream@.extends(s0, y_blocks_bits(y_dc_encoded@, ya, y_index as int, y as int)),
        decreases y_index + 4 - y,
    {
        let ghost s = stream@;
        assert(block_ok(y_dc_encoded@, ya, y as int));
        write_data_at_index(stream, y_dc_encoded, y_ac_encoded, y);
        proof {
            lemma_extends_trans(
                s0,
                s,
                stream@,
                y_blocks_bits(y_dc_encoded@, ya, y_index as int, y as int),
                block_bits(y_dc_encoded@, ya, y as int),
            );
        }
        y += 1;
    }
    let ghost ys = y_blocks_bits(y_dc_encoded@, ya, y_index as int, y_index + 4);
    let ghost s1 = stream@;
    write_data_at_index(stream, cb_dc_encoded, cb_ac_encoded, cb_cr_index);
    proof {
        lemma_extends_trans(s0, s1, stream@, ys, block_bits(cb_dc_encoded@, cba, cb_cr_index as int));
    }
    let ghost s2 = stream@;
    write_data_at_index(stream, cr_dc_encoded, cr_ac_encoded, cb_cr_index);
    proof {
        lemma_extends_trans(
            s0,
            s2,
            stream@,
            ys + block_bits(cb_dc_encoded@, cba, cb_cr_index as int),
            block_bits(cr_dc_encoded@, cra, cb_cr_index as int),
        );
        let i = cb_cr_index as int;
        assert(ys =~= block_bits(y_dc_encoded@, ya, 4 * i) + block_bits(y_dc_encoded@, ya, 4 * i + 1)
            + block_bits(y_dc_encoded@, ya, 4 * i + 2) + block_bits(y_dc_encoded@, ya, 4 * i + 3)) by {
            reveal_with_fuel(y_blocks_bits, 5);
        }
    }
}

/// The bits of the Y blocks from `from` up to `to`.
pub open spec fn y_blocks_bits(
    dc: Seq<(HuffmanCode, CategoryCode)>,
    ac: Seq<Seq<(HuffmanCode, CategoryCode)>>,
    from: int,
    to: int,
) -> Seq<bool>
    decreases to - from,
{
    if to <= from {
        Seq::empty()
    } else {
        y_blocks_bits(dc, ac, from, to - 1) + block_bits(dc, ac, to - 1)
    }
}

proof fn lemma_extends_self(s: BitStreamView)
    requires
        s.inv(),
    ensures
        s.extends(s, Seq::empty()),
{
    assert(s.written() + Seq::<bool>::empty() =~= s.written());
    assert(s.bits() + Seq::<bool>::empty() =~= s.bits());
}

/// Write block `index`: its DC value, then its AC values.
fn write_data_at_index(
    stream: &mut BitStream,
    dc_encoded: &[(HuffmanCode, CategoryCode)],
    ac_encoded: &[Vec<(HuffmanCode, CategoryCode)>],
    index: usize,
)
    requires
        old(stream)@.inv(),
        block_ok(dc_encoded@, blocks_view(ac_encoded@), index as int),
    ensures
        final(stream)@.extends(old(stream)@, block_bits(dc_encoded@, blocks_view(ac_encoded@), index as int)),
{
    let ghost s0 = stream@;
    write_dc(stream, dc_encoded, index);
    let ghost s1 = stream@;
    assert(blocks_view(ac_encoded@)[index as int] == ac_encoded@[index as int]@);
    write_ac(stream, ac_encoded, index);
    proof {
        lemma_extends_trans(
            s0,
            s1,
            stream@,
            entry_bits(dc_encoded@[index as int]),
            entries_bits(ac_encoded@[index as int]@),
        );
    }
}

/// Write one coded value: its Huffman code, then its category code.
fn write_entry(stream: &mut BitStream, value: (HuffmanCode, CategoryCode))
    requires
        old(stream)@.inv(),
        entry_ok(value),
    ensures
        final(stream)@.extends(old(stream)@, entry_bits(value)),
{
    let ghost s0 = stream@;
    stream.append_n_bits(value.0.1, value.0.0);
    let ghost s1 = stream@;
    stream.append_n_bits(value.1.1, value.1.0);
    proof {
        lemma_extends_trans(
            s0,
            s1,
            stream@,
            low_bits_u16(value.0.1, value.0.0 as nat),
            low_bits_u16(value.1.1, value.1.0 as nat),
        );
    }
}

/// Write the DC value of block `index`.
fn write_dc(stream: &mut BitStream, dc_encoded: &[(HuffmanCode, CategoryCode)], index: usize)
    requires
        old(stream)@.inv(),
        index < dc_encoded@.len(),
        entry_ok(dc_encoded@[index as int]),
    ensures
        final(stream)@.extends(old(stream)@, entry_bits(dc_encoded@[index as int])),
{
    let dc = dc_encoded[index];
    write_entry(stream, dc);
}

/// Write the AC values of block `index`.
fn write_ac(stream: &mut BitStream, ac_encoded: &[Vec<(HuffmanCode, CategoryCode)>], index: usize)
    requires
        old(stream)@.inv(),
        index < ac_encoded@.len(),
        forall|k: int| 0 <= k < ac_encoded@[index as int]@.len() ==> entry_ok(
            #[trigger] ac_encoded@[index as int]@[k],
        ),
    ensures
        final(stream)@.extends(old(stream)@, entries_bits(ac_encoded@[index as int]@)),
{
    let ghost s0 = stream@;
    let ac = &ac_encoded[index];
    proof {
        lemma_extends_self(s0);
        assert(entries_bits(ac@.take(0)) =~= Seq::<bool>::empty());
    }
    let mut k: usize = 0;
    while k < ac.len()
        invariant
            k <= ac.len(),
            forall|j: int| 0 <= j < ac@.len() ==> entry_ok(#[trigger] ac@[j]),
            stream@.extends(s0, entries_bits(ac@.take(k as int))),
        decreases ac.len() - k,
    {
        let ghost s = stream@;
        write_entry(stream, ac[k]);
        proof {
            lemma_extends_trans(s0, s, stream@, entries_bits(ac@.take(k as int)), entry_bits(ac@[k as int]));
            assert(ac@.take(k + 1).drop_last() =~= ac@.take(k as int));
        }
        k += 1;
    }
    proof {
        assert(ac@.take(k as int) =~= ac@);
    }
}

} // verus!
