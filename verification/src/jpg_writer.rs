//! Writing the segments of a JPEG file: markers, APP0, SOF0, SOS, DHT and DQT.

use vstd::prelude::*;
use std::collections::HashMap;
use crate::bit_stream::{BitStream, BitStreamView, lemma_extends_trans};
use crate::bits::{byte_bits, bytes_bits, word_bits, lemma_mask_bits};
use crate::image::Image;
use crate::huffman::HuffmanCode;
use crate::quantization::{sample_zigzag, zigzag_order};
use crate::weighted_sort::{
    sorted_by_weight, sort_by_weight, lemma_sorted_elements, lemma_sorted_contains,
    lemma_sorted_ordered, lemma_sorted_no_duplicates,
};

verus! {

broadcast use vstd::std_specs::hash::group_hash_axioms;

/// Enum describing the different types of segments in a JPG file.
pub enum SegmentType {
    SOI,
    APP0,
    DQT,
    SOF0,
    DHT,
    SOS,
    EOI,
}

// ---------------------------------------------------------------------------------------
// Writing bytes

/// The two bytes of a 16-bit number, high byte first.
pub open spec fn word_bytes(w: u16) -> Seq<u8> {
    seq![(w >> 8u16) as u8, w as u8]
}

proof fn lemma_bytes_bits_concat(a: Seq<u8>, b: Seq<u8>)
    ensures
        bytes_bits(a + b) == bytes_bits(a) + bytes_bits(b),
{
    let l = bytes_bits(a + b);
    let r = bytes_bits(a) + bytes_bits(b);
    assert forall|k: int| 0 <= k < l.len() implies l[k] == r[k] by {
        if k < a.len() * 8 {
            assert(k / 8 < a.len()) by (nonlinear_arith)
                requires 0 <= k < a.len() * 8;
        } else {
            assert(k / 8 - a.len() == (k - a.len() * 8) / 8 && k % 8 == (k - a.len() * 8) % 8)
                by (nonlinear_arith)
                requires a.len() * 8 <= k;
            assert(k / 8 >= a.len()) by (nonlinear_arith)
                requires a.len() * 8 <= k;
        }
    }
    assert(l =~= r);
}

proof fn lemma_word_bytes(w: u16)
    ensures
        word_bits(w) == bytes_bits(word_bytes(w)),
{
    let l = word_bits(w);
    let r = bytes_bits(word_bytes(w));
    assert forall|k: int| 0 <= k < 16 implies l[k] == r[k] by {
        if k < 8 {
            lemma_mask_bits(0, 0, 0, w, k as u16);
        } else {
            lemma_mask_bits(0, 0, 0, w, (k - 8) as u16);
        }
    }
    assert(l =~= r);
}

proof fn lemma_byte_single(b: u8)
    ensures
        byte_bits(b) == bytes_bits(seq![b]),
{
    assert(byte_bits(b) =~= bytes_bits(seq![b]));
}

/// Two writes in a row write their bytes one after the other.
proof fn lemma_chain(s0: BitStreamView, s1: BitStreamView, s2: BitStreamView, a: Seq<u8>, b: Seq<u8>)
    requires
        s1.extends(s0, bytes_bits(a)),
        s2.extends(s1, bytes_bits(b)),
    ensures
        s2.extends(s0, bytes_bits(a + b)),
{
    lemma_extends_trans(s0, s1, s2, bytes_bits(a), bytes_bits(b));
    lemma_bytes_bits_concat(a, b);
}

/// A stream extends itself by nothing.
proof fn lemma_extends_empty(s: BitStreamView)
    requires
        s.inv(),
    ensures
        s.extends(s, bytes_bits(Seq::empty())),
{
    assert(bytes_bits(Seq::<u8>::empty()) =~= Seq::<bool>::empty());
    assert(s.written() + Seq::<bool>::empty() =~= s.written());
    assert(s.bits() + Seq::<bool>::empty() =~= s.bits());
}

/// Append a byte.
fn write_u8(stream: &mut BitStream, value: u8)
    requires
        old(stream)@.inv(),
    ensures
        final(stream)@.extends(old(stream)@, bytes_bits(seq![value])),
{
    proof {
        lemma_byte_single(value);
    }
    stream.append::<u8>(value);
}

/// Append a 16-bit number, high byte first.
fn write_u16(stream: &mut BitStream, value: u16)
    requires
        old(stream)@.inv(),
    ensures
        final(stream)@.extends(old(stream)@, bytes_bits(word_bytes(value))),
{
    proof {
        lemma_word_bytes(value);
    }
    stream.append::<u16>(value);
}

// ---------------------------------------------------------------------------------------
// Segments

/// The marker code of a segment type.
pub open spec fn marker_code(segment_type: SegmentType) -> u16 {
    match segment_type {
        SegmentType::SOI => 0xffd8,
        SegmentType::APP0 => 0xffe0,
        SegmentType::SOF0 => 0xffc0,
        SegmentType::EOI => 0xffd9,
        SegmentType::DHT => 0xffc4,
        SegmentType::DQT => 0xffdb,
        SegmentType::SOS => 0xffda,
    }
}

/// Write the marker that starts a segment.
pub fn write_marker_for_segment(stream: &mut BitStream, segment_type: &SegmentType)
    requires
        old(stream)@.inv(),
    ensures
        final(stream)@.extends(old(stream)@, bytes_bits(word_bytes(marker_code(*segment_type)))),
{
    write_u16(
        stream,
        match segment_type {
            SegmentType::SOI => 0xffd8,
            SegmentType::APP0 => 0xffe0,
            SegmentType::SOF0 => 0xffc0,
            SegmentType::EOI => 0xffd9,
            SegmentType::DHT => 0xffc4,
            SegmentType::DQT => 0xffdb,
            SegmentType::SOS => 0xffda,
        },
    );
}

/// The greatest common divisor of `a` and `b`, by Euclid's algorithm; 0 for two zeros.
pub open spec fn gcd(a: nat, b: nat) -> nat
    decreases a,
{
    if a == 0 {
        b
    } else {
        gcd(b % a, a)
    }
}

proof fn lemma_gcd_bounds(a: nat, b: nat)
    ensures
        a > 0 || b > 0 ==> gcd(a, b) > 0,
        a > 0 ==> gcd(a, b) <= a,
        a == 0 ==> gcd(a, b) == b,
    decreases a,
{
    if a > 0 {
        lemma_gcd_bounds(b % a, a);
    }
}

/// `modinverse::egcd`, the extended Euclidean algorithm: for arguments that are not
/// negative its first result is their greatest common divisor, reached by the same
/// recursion as [`gcd`], and the other two are Bézout coefficients for it.
#[verifier::external_body]
fn egcd(a: i32, b: i32) -> (r: (i32, i32, i32))
    requires
        0 <= a <= u16::MAX,
        0 <= b <= u16::MAX,
    ensures
        r.0 == gcd(a as nat, b as nat),
        a * r.1 + b * r.2 == r.0,
{
    modinverse::egcd(a, b)
}

/// The APP0 segment after its marker: JFIF version 1.1, an aspect ratio (width and height
/// divided by their greatest common divisor) and no thumbnail.
pub open spec fn app0_bytes(width: u16, height: u16) -> Seq<u8> {
    let g = gcd(width as nat, height as nat);
    word_bytes(16) + seq![0x4au8, 0x46, 0x49, 0x46, 0x00] + word_bytes(0x0101) + seq![0u8]
        + word_bytes((width as nat / g) as u16) + word_bytes((height as nat / g) as u16) + word_bytes(0)
}

/// Write the APP0 segment of the JPG file: the version of the JFIF spec (1.1), the aspect
/// ratio of the image and no preview image.
pub fn write_app0_segment(stream: &mut BitStream, image: &Image)
    requires
        old(stream)@.inv(),
        image@.width > 0 || image@.height > 0,
    ensures
        final(stream)@.extends(old(stream)@, bytes_bits(app0_bytes(image@.width, image@.height))),
{
    let ghost s0 = stream@;
    let ghost w = image@.width;
    let ghost h = image@.height;
    write_u16(stream, 16);
    let ghost s1 = stream@;
    let jfif: Vec<u8> = vec![0x4a, 0x46, 0x49, 0x46, 0x00];
    assert(jfif@ =~= seq![0x4au8, 0x46, 0x49, 0x46, 0x00]);
    stream.append::<Vec<u8>>(jfif);
    proof {
        lemma_chain(s0, s1, stream@, word_bytes(16), seq![0x4au8, 0x46, 0x49, 0x46, 0x00]);
    }
    let ghost s2 = stream@;
    let ghost o2 = word_bytes(16) + seq![0x4au8, 0x46, 0x49, 0x46, 0x00];
    write_u16(stream, 0x0101);
    proof {
        lemma_chain(s0, s2, stream@, o2, word_bytes(0x0101));
    }
    let ghost s3 = stream@;
    let ghost o3 = o2 + word_bytes(0x0101);
    write_u8(stream, 0);
    proof {
        lemma_chain(s0, s3, stream@, o3, seq![0u8]);
    }
    let ghost s4 = stream@;
    let ghost o4 = o3 + seq![0u8];
    let (gcd_value, _, _) = egcd(image.width() as i32, image.height() as i32);
    proof {
        lemma_gcd_bounds(w as nat, h as nat);
        if w == 0 {
            assert(gcd_value == h);
        }
    }
    let aspect_width = image.width() / gcd_value as u16;
    let aspect_height = image.height() / gcd_value as u16;
    write_u16(stream, aspect_width);
    proof {
        lemma_chain(s0, s4, stream@, o4, word_bytes(aspect_width));
    }
    let ghost s5 = stream@;
    let ghost o5 = o4 + word_bytes(aspect_width);
    write_u16(stream, aspect_height);
    proof {
        lemma_chain(s0, s5, stream@, o5, word_bytes(aspect_height));
    }
    let ghost s6 = stream@;
    let ghost o6 = o5 + word_bytes(aspect_height);
    write_u16(stream, 0);
    proof {
        lemma_chain(s0, s6, stream@, o6, word_bytes(0));
        assert(o6 + word_bytes(0) == app0_bytes(w, h));
    }
}

/// The three bytes of a SOF0 component: its id, the sampling factors (horizontal in the
/// high four bits, vertical in the low four) and its quantisation table.
pub open spec fn sof0_component_bytes(
    id: u8,
    downsample_factor: u8,
    downsampled_vertically: bool,
    quantise_table: u8,
    max_downsample_factor: u8,
) -> Seq<u8> {
    let vertical: u8 = if downsampled_vertically {
        max_downsample_factor / 2
    } else {
        max_downsample_factor
    };
    seq![
        id,
        (vertical + ((max_downsample_factor / downsample_factor) << 4u8)) as u8,
        quantise_table,
    ]
}

/// The components [`write_sof0_segment_component`] can write: a positive factor and
/// sampling values that fit one byte.
pub open spec fn sof0_component_ok(
    downsample_factor: u8,
    downsampled_vertically: bool,
    max_downsample_factor: u8,
) -> bool {
    &&& downsample_factor > 0
    &&& (if downsampled_vertically {
        max_downsample_factor / 2
    } else {
        max_downsample_factor
    }) + ((max_downsample_factor / downsample_factor) << 4u8) <= u8::MAX
}

/// Write a component in the SOF0 segment.
pub fn write_sof0_segment_component(
    stream: &mut BitStream,
    id: u8,
    downsample_factor: u8,
    downsampled_vertically: bool,
    quantise_table: u8,
    max_downsample_factor: u8,
)
    requires
        old(stream)@.inv(),
        sof0_component_ok(downsample_factor, downsampled_vertically, max_downsample_factor),
    ensures
        final(stream)@.extends(
            old(stream)@,
            bytes_bits(
                sof0_component_bytes(
                    id,
                    downsample_factor,
                    downsampled_vertically,
                    quantise_table,
                    max_downsample_factor,
                ),
            ),
        ),
{
    let ghost s0 = stream@;
    write_u8(stream, id);
    let ghost s1 = stream@;
    // the four bits for vertical
    let mut downsample_value: u8 = if downsampled_vertically {
        max_downsample_factor / 2
    } else {
        max_downsample_factor
    };
    // the four bits for horizontal
    downsample_value += (max_downsample_factor / downsample_factor) << 4;
    write_u8(stream, downsample_value);
    proof {
        lemma_chain(s0, s1, stream@, seq![id], seq![downsample_value]);
    }
    let ghost s2 = stream@;
    write_u8(stream, quantise_table);
    proof {
        lemma_chain(s0, s2, stream@, seq![id] + seq![downsample_value], seq![quantise_table]);
        assert(seq![id] + seq![downsample_value] + seq![quantise_table] =~= sof0_component_bytes(
            id,
            downsample_factor,
            downsampled_vertically,
            quantise_table,
            max_downsample_factor,
        ));
    }
}

/// The largest of the three downsample factors, truncated to a byte.
pub open spec fn max_factor(image: crate::image::ImageView) -> u8 {
    let m1 = if image.y_downsample_factor >= image.cb_downsample_factor {
        image.y_downsample_factor
    } else {
        image.cb_downsample_factor
    };
    (if m1 >= image.cr_downsample_factor {
        m1
    } else {
        image.cr_downsample_factor
    }) as u8
}

/// The images [`write_sof0_segment`] can describe: each component's factors fit.
pub open spec fn sof0_ok(image: crate::image::ImageView) -> bool {
    &&& sof0_component_ok(image.y_downsample_factor as u8, false, max_factor(image))
    &&& sof0_component_ok(
        image.cb_downsample_factor as u8,
        image.downsampled_vertically,
        max_factor(image),
    )
    &&& sof0_component_ok(
        image.cr_downsample_factor as u8,
        image.downsampled_vertically,
        max_factor(image),
    )
}

/// The SOF0 segment after its marker: length, 8-bit precision, size and the three
/// components (Y, Cb, Cr).
pub open spec fn sof0_bytes(image: crate::image::ImageView) -> Seq<u8> {
    let m = max_factor(image);
    word_bytes(17) + seq![8u8] + word_bytes(image.height) + word_bytes(image.width) + seq![3u8]
        + sof0_component_bytes(1, image.y_downsample_factor as u8, false, 0, m)
        + sof0_component_bytes(2, image.cb_downsample_factor as u8, image.downsampled_vertically, 1, m)
        + sof0_component_bytes(3, image.cr_downsample_factor as u8, image.downsampled_vertically, 1, m)
}

/// Write the SOF0 segment of the JPG file: the image size and how its components are
/// sampled.
pub fn write_sof0_segment(stream: &mut BitStream, image: &Image)
    requires
        old(stream)@.inv(),
        sof0_ok(image@),
    ensures
        final(stream)@.extends(old(stream)@, bytes_bits(sof0_bytes(image@))),
{
    let ghost s0 = stream@;
    let ghost v = image@;
    write_u16(stream, 17);
    let ghost s1 = stream@;
    write_u8(stream, 8);
    proof {
        lemma_chain(s0, s1, stream@, word_bytes(17), seq![8u8]);
    }
    let ghost o2 = word_bytes(17) + seq![8u8];
    let ghost s2 = stream@;
    write_u16(stream, image.height());
    proof {
        lemma_chain(s0, s2, stream@, o2, word_bytes(v.height));
    }
    let ghost o3 = o2 + word_bytes(v.height);
    let ghost s3 = stream@;
    write_u16(stream, image.width());
    proof {
        lemma_chain(s0, s3, stream@, o3, word_bytes(v.width));
    }
    let ghost o4 = o3 + word_bytes(v.width);
    let ghost s4 = stream@;
    write_u8(stream, 3);
    proof {
        lemma_chain(s0, s4, stream@, o4, seq![3u8]);
    }
    let ghost o5 = o4 + seq![3u8];
    let y_factor = image.y_downsample_factor();
    let cb_factor = image.cb_downsample_factor();
    let cr_factor = image.cr_downsample_factor();
    let m1 = if y_factor >= cb_factor { y_factor } else { cb_factor };
    let max_downsample_factor = #[verifier::truncate] ((if m1 >= cr_factor { m1 } else { cr_factor }) as u8);
    let ghost s5 = stream@;
    write_sof0_segment_component(
        stream,
        1,
        #[verifier::truncate] (y_factor as u8),
        false,
        0,
        max_downsample_factor,
    );
    let ghost c1 = sof0_component_bytes(1, y_factor as u8, false, 0, max_downsample_factor);
    proof {
        lemma_chain(s0, s5, stream@, o5, c1);
    }
    let ghost s6 = stream@;
    write_sof0_segment_component(
        stream,
        2,
        #[verifier::truncate] (cb_factor as u8),
        image.downsampled_vertically(),
        1,
        max_downsample_factor,
    );
    let ghost c2 = sof0_component_bytes(
        2,
        cb_factor as u8,
        v.downsampled_vertically,
        1,
        max_downsample_factor,
    );
    proof {
        lemma_chain(s0, s6, stream@, o5 + c1, c2);
    }
    let ghost s7 = stream@;
    write_sof0_segment_component(
        stream,
        3,
        #[verifier::truncate] (cr_factor as u8),
        image.downsampled_vertically(),
        1,
        max_downsample_factor,
    );
    let ghost c3 = sof0_component_bytes(
        3,
        cr_factor as u8,
        v.downsampled_vertically,
        1,
        max_downsample_factor,
    );
    proof {
        lemma_chain(s0, s7, stream@, o5 + c1 + c2, c3);
    }
}

/// The SOS segment after its marker.
pub open spec fn sos_bytes() -> Seq<u8> {
    seq![0x00u8, 0x0c, 0x03, 0x01, 0x00, 0x02, 0x11, 0x03, 0x11, 0x00, 0x3f, 0x00]
}

/// Write the SOS segment of the JPG file, which starts the image data: three components,
/// Y with Huffman tables 0, Cb and Cr with tables 1, and the default spectral selection.
pub fn write_sos_segment(stream: &mut BitStream)
    requires
        old(stream)@.inv(),
    ensures
        final(stream)@.extends(old(stream)@, bytes_bits(sos_bytes())),
{
    let ghost s0 = stream@;
    write_u16(stream, 12);
    let ghost mut out = word_bytes(12);
    let tail: [u8; 10] = [3, 1, 0, 2, 0b0001_0001, 3, 0b0001_0001, 0x00, 0x3f, 0x00];
    let mut i: usize = 0;
    while i < 10
        invariant
            i <= 10,
            stream@.extends(s0, bytes_bits(out)),
            out == word_bytes(12) + tail@.take(i as int),
        decreases 10 - i,
    {
        let ghost s = stream@;
        write_u8(stream, tail[i]);
        proof {
            lemma_chain(s0, s, stream@, out, seq![tail@[i as int]]);
            out = out + seq![tail@[i as int]];
            assert(out =~= word_bytes(12) + tail@.take(i + 1));
        }
        i += 1;
    }
    proof {
        assert((12u16 >> 8u16) == 0u16) by (bit_vector);
        assert(tail@.take(10) =~= tail@);
        assert(out =~= sos_bytes());
    }
}

/// The bytes [`write_segment_to_stream`] writes for a segment type: the marker, then the
/// segment.
pub open spec fn segment_bytes(image: crate::image::ImageView, segment_type: SegmentType) -> Seq<u8> {
    word_bytes(marker_code(segment_type)) + match segment_type {
        SegmentType::APP0 => app0_bytes(image.width, image.height),
        SegmentType::SOF0 => sof0_bytes(image),
        SegmentType::SOS => sos_bytes(),
        _ => Seq::empty(),
    }
}

/// Write the given segment to the given stream, with data taken from the given image.
/// Supported are SOI, APP0, SOF0, SOS and EOI.
pub fn write_segment_to_stream(stream: &mut BitStream, image: &Image, segment_type: SegmentType)
    requires
        old(stream)@.inv(),
        !(segment_type is DQT),
        !(segment_type is DHT),
        segment_type is APP0 ==> image@.width > 0 || image@.height > 0,
        segment_type is SOF0 ==> sof0_ok(image@),
    ensures
        final(stream)@.extends(old(stream)@, bytes_bits(segment_bytes(image@, segment_type))),
{
    let ghost s0 = stream@;
    write_marker_for_segment(stream, &segment_type);
    let ghost s1 = stream@;
    let ghost m = word_bytes(marker_code(segment_type));
    match segment_type {
        SegmentType::SOI => {
            proof {
                lemma_extends_empty(s1);
                lemma_chain(s0, s1, stream@, m, Seq::empty());
                assert(m + Seq::<u8>::empty() =~= m);
            }
        },
        SegmentType::APP0 => {
            write_app0_segment(stream, image);
            proof {
                lemma_chain(s0, s1, stream@, m, app0_bytes(image@.width, image@.height));
            }
        },
        SegmentType::SOF0 => {
            write_sof0_segment(stream, image);
            proof {
                lemma_chain(s0, s1, stream@, m, sof0_bytes(image@));
            }
        },
        SegmentType::SOS => {
            write_sos_segment(stream);
            proof {
                lemma_chain(s0, s1, stream@, m, sos_bytes());
            }
        },
        SegmentType::EOI => {
            proof {
                lemma_extends_empty(s1);
                lemma_chain(s0, s1, stream@, m, Seq::empty());
                assert(m + Seq::<u8>::empty() =~= m);
            }
        },
        SegmentType::DQT => {},
        SegmentType::DHT => {},
    };
}

} // verus!

verus! {

/// A map keyed by bytes has at most 256 entries.
proof fn lemma_byte_map_len<V>(m: Map<u8, V>)
    requires
        m.dom().finite(),
    ensures
        m.dom().len() <= 256,
{
    let all = Seq::new(256, |i: int| i as u8);
    assert(all.no_duplicates()) by {
        assert forall|i: int, j: int| 0 <= i < 256 && 0 <= j < 256 && i != j implies all[i]
            != all[j] by {
            assert(all[i] == i as u8 && all[j] == j as u8);
        }
    }
    all.unique_seq_to_set();
    assert forall|k: u8| m.dom().contains(k) implies all.to_set().contains(k) by {
        assert(all[k as int] == k);
    }
    vstd::set_lib::lemma_len_subset(m.dom(), all.to_set());
}

/// The number of symbols below `k` whose code in `m` is `len` bits long.
pub open spec fn count_with_length(m: Map<u8, HuffmanCode>, len: u8, k: nat) -> nat
    decreases k,
{
    if k == 0 {
        0
    } else {
        count_with_length(m, len, (k - 1) as nat) + if m.contains_key((k - 1) as u8) && m[(k
            - 1) as u8].0 == len {
            1nat
        } else {
            0nat
        }
    }
}

/// The symbols below `k` that have a code in `m`, in increasing order, each with its code
/// length and code as weight.
pub open spec fn coded_symbols(m: Map<u8, HuffmanCode>, k: nat) -> Seq<(u64, u8)>
    decreases k,
{
    if k == 0 {
        Seq::empty()
    } else {
        let s = (k - 1) as u8;
        coded_symbols(m, (k - 1) as nat) + if m.contains_key(s) {
            seq![(((m[s].0 as int) * 65536 + (m[s].1 as int)) as u64, s)]
        } else {
            Seq::empty()
        }
    }
}

/// The symbols of `m` ordered by code length, then code; symbols with the same length and
/// code by their value.
pub open spec fn symbols_by_code(m: Map<u8, HuffmanCode>) -> Seq<u8> {
    sorted_by_weight(coded_symbols(m, 256)).map_values(|x: (u64, u8)| x.1)
}

/// The weight of a symbol's entry: its code length, then its code.
pub open spec fn length_code_weight(m: Map<u8, HuffmanCode>, x: u8) -> u64 {
    ((m[x].0 as int) * 65536 + (m[x].1 as int)) as u64
}

proof fn lemma_coded_symbols(m: Map<u8, HuffmanCode>, k: nat)
    requires
        k <= 256,
    ensures
        forall|i: int|
            0 <= i < coded_symbols(m, k).len() ==> {
                let e = #[trigger] coded_symbols(m, k)[i];
                &&& m.contains_key(e.1)
                &&& e.1 < k
                &&& e.0 == length_code_weight(m, e.1)
            },
        forall|i: int, j: int|
            0 <= i < j < coded_symbols(m, k).len() ==> #[trigger] coded_symbols(m, k)[i].1
                < #[trigger] coded_symbols(m, k)[j].1,
        forall|x: u8|
            x < k && #[trigger] m.contains_key(x) ==> coded_symbols(m, k).contains(
                (length_code_weight(m, x), x),
            ),
    decreases k,
{
    if k > 0 {
        lemma_coded_symbols(m, (k - 1) as nat);
        let prev = coded_symbols(m, (k - 1) as nat);
        let cur = coded_symbols(m, k);
        let s = (k - 1) as u8;
        assert forall|i: int| 0 <= i < prev.len() implies cur[i] == prev[i] by {}
        assert forall|x: u8| x < k && #[trigger] m.contains_key(x) implies cur.contains(
            (length_code_weight(m, x), x),
        ) by {
            if x < k - 1 {
                let w = choose|w: int| 0 <= w < prev.len() && prev[w] == (length_code_weight(m, x), x);
                assert(cur[w] == prev[w]);
            } else {
                assert(x == s);
                assert(cur[prev.len() as int] == (length_code_weight(m, x), x));
            }
        }
    }
}

/// The symbols of a DHT segment list each symbol of the code once, in order of code length
/// and, within a length, of code.
pub proof fn lemma_dht_symbols(m: Map<u8, HuffmanCode>)
    ensures
        forall|x: u8| #[trigger] m.contains_key(x) <==> symbols_by_code(m).contains(x),
        symbols_by_code(m).no_duplicates(),
        forall|i: int, j: int|
            0 <= i < j < symbols_by_code(m).len() ==> {
                let a = #[trigger] symbols_by_code(m)[i];
                let b = #[trigger] symbols_by_code(m)[j];
                m[a].0 < m[b].0 || (m[a].0 == m[b].0 && m[a].1 <= m[b].1)
            },
{
    let cs = coded_symbols(m, 256);
    let sorted = sorted_by_weight(cs);
    let syms = symbols_by_code(m);
    lemma_coded_symbols(m, 256);
    lemma_sorted_elements(cs);
    lemma_sorted_contains(cs);
    lemma_sorted_ordered(cs);
    assert(cs.no_duplicates()) by {
        assert forall|i: int, j: int| 0 <= i < cs.len() && 0 <= j < cs.len() && i != j implies cs[i]
            != cs[j] by {
            if i < j {
                assert(cs[i].1 < cs[j].1);
            } else {
                assert(cs[j].1 < cs[i].1);
            }
        }
    }
    lemma_sorted_no_duplicates(cs);
    assert(syms.len() == sorted.len());
    assert forall|i: int| 0 <= i < syms.len() implies #[trigger] syms[i] == sorted[i].1
        && m.contains_key(syms[i]) && sorted[i].0 == length_code_weight(m, syms[i]) by {
        assert(cs.contains(sorted[i]));
    }
    assert forall|x: u8| #[trigger] m.contains_key(x) <==> syms.contains(x) by {
        if m.contains_key(x) {
            let e = (length_code_weight(m, x), x);
            assert(cs.contains(e));
            let w = choose|w: int| 0 <= w < cs.len() && cs[w] == e;
            assert(sorted.contains(cs[w]));
            let v = choose|v: int| 0 <= v < sorted.len() && sorted[v] == cs[w];
            assert(syms[v] == x);
        }
        if syms.contains(x) {
            let v = choose|v: int| 0 <= v < syms.len() && syms[v] == x;
        }
    }
    assert forall|i: int, j: int| 0 <= i < syms.len() && 0 <= j < syms.len() && i != j implies syms[i]
        != syms[j] by {
        assert(cs.contains(sorted[i]) && cs.contains(sorted[j]));
        let wi = choose|w: int| 0 <= w < cs.len() && cs[w] == sorted[i];
        let wj = choose|w: int| 0 <= w < cs.len() && cs[w] == sorted[j];
        if syms[i] == syms[j] {
            if wi < wj {
                assert(cs[wi].1 < cs[wj].1);
            } else if wj < wi {
                assert(cs[wj].1 < cs[wi].1);
            }
            assert(sorted[i] == sorted[j]);
        }
    }
    assert forall|i: int, j: int| 0 <= i < j < syms.len() implies {
        let a = #[trigger] syms[i];
        let b = #[trigger] syms[j];
        m[a].0 < m[b].0 || (m[a].0 == m[b].0 && m[a].1 <= m[b].1)
    } by {
        let a = syms[i];
        let b = syms[j];
        assert(sorted[i].0 <= sorted[j].0);
        assert(length_code_weight(m, a) == (m[a].0 as int) * 65536 + (m[a].1 as int));
        assert(length_code_weight(m, b) == (m[b].0 as int) * 65536 + (m[b].1 as int));
    }
}

/// The DHT segment for a code map, marker included: length, table class and id, the number
/// of codes of each length from 1 to 16 (as a byte), and the symbols ordered by their
/// codes.
pub open spec fn dht_bytes(current_dht_id: u8, m: Map<u8, HuffmanCode>, is_ac: bool) -> Seq<u8> {
    word_bytes(0xffc4) + word_bytes((19 + m.len()) as u16) + seq![
        (current_dht_id + if is_ac {
            16u8
        } else {
            0u8
        }) as u8,
    ] + Seq::new(16, |i: int| count_with_length(m, (i + 1) as u8, 256) as u8) + symbols_by_code(m)
}

/// A DHT segment starts with the DHT marker 0xFFC4 and the segment length; its fifth byte
/// holds the table class in its high four bits (1 for AC, 0 for DC) and the table id in its
/// low four bits; then follow sixteen counts, the number of codes of each length from 1 to
/// 16 bits.
pub proof fn lemma_dht_header(current_dht_id: u8, m: Map<u8, HuffmanCode>, is_ac: bool)
    requires
        current_dht_id < 16,
        m.dom().finite(),
    ensures
        dht_bytes(current_dht_id, m, is_ac).len() >= 21,
        dht_bytes(current_dht_id, m, is_ac)[0] == 0xFF,
        dht_bytes(current_dht_id, m, is_ac)[1] == 0xC4,
        dht_bytes(current_dht_id, m, is_ac)[2] * 256 + dht_bytes(current_dht_id, m, is_ac)[3]
            == 19 + m.len(),
        dht_bytes(current_dht_id, m, is_ac)[4] / 16 == if is_ac {
            1int
        } else {
            0int
        },
        dht_bytes(current_dht_id, m, is_ac)[4] % 16 == current_dht_id,
        forall|len: int|
            1 <= len <= 16 ==> #[trigger] dht_bytes(current_dht_id, m, is_ac)[4 + len] == (
            count_with_length(m, len as u8, 256) as u8),
        forall|len: u8|
            #[trigger] count_with_length(m, len, 256) == m.dom().filter(|x: u8| m[x].0 == len).len(),
        dht_bytes(current_dht_id, m, is_ac).skip(21) == symbols_by_code(m),
{
    let d = dht_bytes(current_dht_id, m, is_ac);
    lemma_byte_map_len(m);
    let w = ((19 + m.len()) as u16);
    let b = (current_dht_id + if is_ac { 16u8 } else { 0u8 }) as u8;
    assert(d[0] == (0xffc4u16 >> 8u16) as u8 && d[1] == 0xffc4u16 as u8);
    assert((0xffc4u16 >> 8u16) as u8 == 0xFF && 0xffc4u16 as u8 == 0xC4) by (bit_vector);
    assert(d[2] == (w >> 8u16) as u8 && d[3] == w as u8);
    assert(((w >> 8u16) as u8) * 256 + (w as u8) == w) by (bit_vector);
    assert(w == 19 + m.len());
    assert(d[4] == b);
    assert forall|len: int| 1 <= len <= 16 implies #[trigger] d[4 + len] == (count_with_length(
        m,
        len as u8,
        256,
    ) as u8) by {
        assert(d[4 + len] == Seq::new(16, |i: int| count_with_length(m, (i + 1) as u8, 256) as u8)[len - 1]);
    }
    assert forall|len: u8| #[trigger] count_with_length(m, len, 256) == m.dom().filter(
        |x: u8| m[x].0 == len,
    ).len() by {
        lemma_count_is_size(m, len, 256);
        assert(length_set(m, len, 256) =~= m.dom().filter(|x: u8| m[x].0 == len));
    }
    assert(d.skip(21) =~= symbols_by_code(m));
}

/// The symbols below `k` whose code is `len` bits long.
pub open spec fn length_set(m: Map<u8, HuffmanCode>, len: u8, k: nat) -> Set<u8> {
    Set::new(|x: u8| (x as nat) < k && m.contains_key(x) && m[x].0 == len)
}

proof fn lemma_count_is_size(m: Map<u8, HuffmanCode>, len: u8, k: nat)
    requires
        k <= 256,
    ensures
        length_set(m, len, k).finite(),
        count_with_length(m, len, k) == length_set(m, len, k).len(),
    decreases k,
{
    if k == 0 {
        assert(length_set(m, len, 0) =~= Set::<u8>::empty());
    } else {
        lemma_count_is_size(m, len, (k - 1) as nat);
        let x = (k - 1) as u8;
        let prev = length_set(m, len, (k - 1) as nat);
        if m.contains_key(x) && m[x].0 == len {
            assert(length_set(m, len, k) =~= prev.insert(x));
            assert(!prev.contains(x));
        } else {
            assert(length_set(m, len, k) =~= prev);
        }
    }
}

/// Write a DHT segment (marker included) describing the Huffman table `code_map`, as
/// table `current_dht_id` of the AC or DC class.
pub fn write_dht_segment(
    stream: &mut BitStream,
    current_dht_id: u8,
    code_map: &HashMap<u8, HuffmanCode>,
    is_ac: bool,
)
    requires
        old(stream)@.inv(),
        current_dht_id + if is_ac {
            16int
        } else {
            0int
        } <= u8::MAX,
    ensures
        final(stream)@.extends(old(stream)@, bytes_bits(dht_bytes(current_dht_id, code_map@, is_ac))),
{
    let ghost m = code_map@;
    let ghost s0 = stream@;
    write_marker_for_segment(stream, &SegmentType::DHT);
    let ghost mut out = word_bytes(0xffc4);
    proof {
        lemma_byte_map_len(m);
    }
    let len: u16 = 19 + code_map.len() as u16;
    let ghost s1 = stream@;
    write_u16(stream, len);
    proof {
        lemma_chain(s0, s1, stream@, out, word_bytes(len));
        out = out + word_bytes(len);
    }
    let dht_info_byte = current_dht_id + if is_ac { 16u8 } else { 0u8 };
    let ghost s2 = stream@;
    write_u8(stream, dht_info_byte);
    proof {
        lemma_chain(s0, s2, stream@, out, seq![dht_info_byte]);
        out = out + seq![dht_info_byte];
    }
    let ghost head = out;
    let mut i: u8 = 1;
    while i < 17
        invariant
            1 <= i <= 17,
            m == code_map@,
            stream@.extends(s0, bytes_bits(out)),
            out == head + Seq::new((i - 1) as nat, |j: int| count_with_length(m, (j + 1) as u8, 256) as u8),
        decreases 17 - i,
    {
        let mut amount: u32 = 0;
        let mut k: u32 = 0;
        while k < 256
            invariant
                k <= 256,
                m == code_map@,
                amount == count_with_length(m, i, k as nat),
                amount <= k,
            decreases 256 - k,
        {
            let symbol = k as u8;
            match code_map.get(&symbol) {
                Some(code) => {
                    if code.0 == i {
                        amount += 1;
                    }
                },
                None => {},
            }
            k += 1;
        }
        let ghost s = stream@;
        write_u8(stream, #[verifier::truncate] (amount as u8));
        proof {
            lemma_chain(s0, s, stream@, out, seq![amount as u8]);
            out = out + seq![amount as u8];
            assert(out =~= head + Seq::new(i as nat, |j: int| count_with_length(m, (j + 1) as u8, 256) as u8));
        }
        i += 1;
    }
    let mut code_vec: Vec<(u64, u8)> = Vec::new();
    let mut k: u32 = 0;
    while k < 256
        invariant
            k <= 256,
            m == code_map@,
            code_vec@ == coded_symbols(m, k as nat),
        decreases 256 - k,
    {
        let symbol = k as u8;
        match code_map.get(&symbol) {
            Some(code) => {
                code_vec.push((code.0 as u64 * 65536 + code.1 as u64, symbol));
            },
            None => {},
        }
        k += 1;
        proof {
            assert(code_vec@ =~= coded_symbols(m, k as nat));
        }
    }
    let sorted = sort_by_weight(code_vec);
    let ghost mid = out;
    let mut j: usize = 0;
    while j < sorted.len()
        invariant
            j <= sorted.len(),
            stream@.extends(s0, bytes_bits(out)),
            out == mid + sorted@.map_values(|x: (u64, u8)| x.1).take(j as int),
        decreases sorted.len() - j,
    {
        let ghost s = stream@;
        write_u8(stream, sorted[j].1);
        proof {
            lemma_chain(s0, s, stream@, out, seq![sorted@[j as int].1]);
            out = out + seq![sorted@[j as int].1];
            assert(out =~= mid + sorted@.map_values(|x: (u64, u8)| x.1).take(j + 1));
        }
        j += 1;
    }
    proof {
        assert(sorted@.map_values(|x: (u64, u8)| x.1).take(j as int) =~= symbols_by_code(m));
        assert(out =~= dht_bytes(current_dht_id, m, is_ac));
    }
}

/// The DQT segment, marker included: length 67, the table number and the 64 values of
/// the table in zigzag order.
pub open spec fn dqt_bytes(q_table: Seq<u8>, number: u8) -> Seq<u8> {
    word_bytes(0xffdb) + word_bytes(67) + seq![number] + Seq::new(
        64,
        |k: int| q_table[8 * zigzag_order()[k].0 + zigzag_order()[k].1],
    )
}

/// Write a DQT segment (marker included) for a quantisation table whose 64 values are
/// given row after row.
pub fn write_dqt_segment(stream: &mut BitStream, q_table: &[u8; 64], number: u8)
    requires
        old(stream)@.inv(),
    ensures
        final(stream)@.extends(old(stream)@, bytes_bits(dqt_bytes(q_table@, number))),
{
    let ghost s0 = stream@;
    write_marker_for_segment(stream, &SegmentType::DQT);
    let ghost mut out = word_bytes(0xffdb);
    let ghost s1 = stream@;
    write_u16(stream, 67);
    proof {
        lemma_chain(s0, s1, stream@, out, word_bytes(67));
        out = out + word_bytes(67);
    }
    let ghost s2 = stream@;
    write_u8(stream, number);
    proof {
        lemma_chain(s0, s2, stream@, out, seq![number]);
        out = out + seq![number];
    }
    let zigzag = sample_zigzag(q_table);
    let ghost head = out;
    let mut k: usize = 0;
    while k < 64
        invariant
            k <= 64,
            stream@.extends(s0, bytes_bits(out)),
            out == head + zigzag@.take(k as int),
        decreases 64 - k,
    {
        let ghost s = stream@;
        write_u8(stream, zigzag[k]);
        proof {
            lemma_chain(s0, s, stream@, out, seq![zigzag@[k as int]]);
            out = out + seq![zigzag@[k as int]];
            assert(out =~= head + zigzag@.take(k + 1));
        }
        k += 1;
    }
    proof {
        assert(zigzag@.take(64) =~= Seq::new(
            64,
            |k: int| q_table@[8 * zigzag_order()[k].0 + zigzag_order()[k].1],
        ));
        assert(out =~= dqt_bytes(q_table@, number));
    }
}

} // verus!
