//! The image data structure: three channels of 16-bit samples, with the factors by which
//! each channel has been downsampled.

use vstd::prelude::*;
use crate::downsample::{doubles_to, rows_fit, channel_result, downsample_channel};

verus! {

/// Image data structure for parsed image files.
///
/// * `height`, `width`: the image size in pixels;
/// * `channel1` to `channel3`: the pixel data, RGB or YCbCr in this order, row by row;
/// * the downsample factors: by how much each channel was downsampled horizontally, 1 by
///   default (e.g. 2 for Cb and Cr in 4:2:0);
/// * `downsampled_vertically`: whether two rows of Cb and Cr have been combined into one.
#[derive(Clone, Debug, PartialEq)]
pub struct Image {
    height: u16,
    width: u16,
    channel1: Vec<Vec<u16>>,
    channel2: Vec<Vec<u16>>,
    channel3: Vec<Vec<u16>>,
    y_downsample_factor: usize,
    cb_downsample_factor: usize,
    cr_downsample_factor: usize,
    downsampled_vertically: bool,
}

/// The fields of an [`Image`] as mathematical values.
pub struct ImageView {
    pub height: u16,
    pub width: u16,
    pub channel1: Seq<Seq<u16>>,
    pub channel2: Seq<Seq<u16>>,
    pub channel3: Seq<Seq<u16>>,
    pub y_downsample_factor: usize,
    pub cb_downsample_factor: usize,
    pub cr_downsample_factor: usize,
    pub downsampled_vertically: bool,
}

/// A channel as rows of samples.
pub open spec fn channel_view(c: Seq<Vec<u16>>) -> Seq<Seq<u16>> {
    c.map_values(|row: Vec<u16>| row@)
}

impl View for Image {
    type V = ImageView;

    closed spec fn view(&self) -> ImageView {
        ImageView {
            height: self.height,
            width: self.width,
            channel1: channel_view(self.channel1@),
            channel2: channel_view(self.channel2@),
            channel3: channel_view(self.channel3@),
            y_downsample_factor: self.y_downsample_factor,
            cb_downsample_factor: self.cb_downsample_factor,
            cr_downsample_factor: self.cr_downsample_factor,
            downsampled_vertically: self.downsampled_vertically,
        }
    }
}

/// Create an image from its size and its three channels, not downsampled.
pub fn create_image(
    height: u16,
    width: u16,
    channel1: Vec<Vec<u16>>,
    channel2: Vec<Vec<u16>>,
    channel3: Vec<Vec<u16>>,
) -> (r: Image)
    ensures
        r@ == (ImageView {
            height,
            width,
            channel1: channel_view(channel1@),
            channel2: channel_view(channel2@),
            channel3: channel_view(channel3@),
            y_downsample_factor: 1,
            cb_downsample_factor: 1,
            cr_downsample_factor: 1,
            downsampled_vertically: false,
        }),
{
    Image {
        height,
        width,
        channel1,
        channel2,
        channel3,
        y_downsample_factor: 1,
        cb_downsample_factor: 1,
        cr_downsample_factor: 1,
        downsampled_vertically: false,
    }
}

impl ImageView {
    /// The row of the first channel that [`Image::pixel_at`] reads for `y`: `y`, or the
    /// last row where `y` lies beyond it.
    pub open spec fn clamped_row(self, y: u16) -> int {
        if (y as int) < self.channel1.len() - 1 {
            y as int
        } else {
            self.channel1.len() - 1
        }
    }

    /// The column of the first channel that [`Image::pixel_at`] reads for `x` in row `row`.
    pub open spec fn clamped_col(self, x: u16, row: int) -> int {
        if (x as int) < self.channel1[row].len() - 1 {
            x as int
        } else {
            self.channel1[row].len() - 1
        }
    }

    /// The row of the second and third channel that holds row `row` of the first.
    pub open spec fn chroma_row(self, row: int) -> int {
        if self.downsampled_vertically {
            row / 2
        } else {
            row
        }
    }

    /// The pixels [`Image::pixel_at`] can read: the first channel has a row, the clamped
    /// row has a sample, the factors are positive and the three samples exist.
    pub open spec fn pixel_readable(self, x: u16, y: u16) -> bool {
        &&& self.channel1.len() > 0
        &&& self.channel1[self.clamped_row(y)].len() > 0
        &&& self.y_downsample_factor > 0
        &&& self.cb_downsample_factor > 0
        &&& self.cr_downsample_factor > 0
        &&& {
            let row = self.clamped_row(y);
            let col = self.clamped_col(x, row);
            let crow = self.chroma_row(row);
            &&& col / (self.y_downsample_factor as int) < self.channel1[row].len()
            &&& crow < self.channel2.len()
            &&& crow < self.channel3.len()
            &&& col / (self.cb_downsample_factor as int) < self.channel2[crow].len()
            &&& col / (self.cr_downsample_factor as int) < self.channel3[crow].len()
        }
    }

    /// The pixel at `x`, `y`, the coordinates clamped to the image.
    pub open spec fn pixel(self, x: u16, y: u16) -> (u16, u16, u16) {
        let row = self.clamped_row(y);
        let col = self.clamped_col(x, row);
        let crow = self.chroma_row(row);
        (
            self.channel1[row][col / (self.y_downsample_factor as int)],
            self.channel2[crow][col / (self.cb_downsample_factor as int)],
            self.channel3[crow][col / (self.cr_downsample_factor as int)],
        )
    }

    /// A channel [`downsample_channel`] can downsample from `a` to `b` samples.
    pub open spec fn channel_downsamplable(channel: Seq<Seq<u16>>, a: usize, b: usize) -> bool {
        &&& channel.len() >= 1
        &&& doubles_to(a as nat, b as nat)
        &&& a < usize::MAX
        &&& forall|y: int| 0 <= y < channel.len() ==> #[trigger] channel[y].len() + a <= usize::MAX
        &&& forall|y: int|
            0 <= y < channel.len() - 1 ==> rows_fit(#[trigger] channel[y], channel[y + 1], a as nat)
    }

    /// The samples the Cr channel keeps per `a`: `c`, or `b` where `c` is 0.
    pub open spec fn cr_samples(b: usize, c: usize) -> usize {
        if c == 0 {
            b
        } else {
            c
        }
    }

    /// The parameters [`Image::downsample`] accepts: all equal (nothing to do), or a
    /// product that is a power of two (or zero), channels it can downsample, and factors
    /// that do not overflow.
    pub open spec fn downsample_accepted(self, a: usize, b: usize, c: usize) -> bool {
        (a == b && a == c) || {
            let crb = Self::cr_samples(b, c);
            &&& a * b <= usize::MAX
            &&& a * b * c <= usize::MAX
            &&& ((a * b * c) as isize) != isize::MIN
            &&& ((a * b * c) as isize) & (((a * b * c) as isize) - 1) as isize == 0
            &&& Self::channel_downsamplable(self.channel2, a, b)
            &&& Self::channel_downsamplable(self.channel3, a, crb)
            &&& self.cb_downsample_factor * (a / b) <= usize::MAX
            &&& self.cr_downsample_factor * (a / crb) <= usize::MAX
        }
    }

    /// The image after downsampling by `a`, `b`, `c`.
    pub open spec fn downsampled(self, a: usize, b: usize, c: usize) -> ImageView {
        if a == b && a == c {
            self
        } else {
            let crb = Self::cr_samples(b, c);
            ImageView {
                channel2: channel_result(
                    self.channel2,
                    a as nat,
                    b as nat,
                    c == 0,
                    self.channel2.len() / 2,
                ),
                channel3: channel_result(
                    self.channel3,
                    a as nat,
                    crb as nat,
                    c == 0,
                    self.channel3.len() / 2,
                ),
                cb_downsample_factor: (self.cb_downsample_factor * (a / b)) as usize,
                cr_downsample_factor: (self.cr_downsample_factor * (a / crb)) as usize,
                downsampled_vertically: self.downsampled_vertically || c == 0,
                ..self
            }
        }
    }

    /// The second and third channel reach at least as far as the first.
    pub open spec fn chroma_covers_luma(self) -> bool {
        &&& self.channel2.len() >= self.channel1.len()
        &&& self.channel3.len() >= self.channel1.len()
        &&& forall|r: int|
            0 <= r < self.channel1.len() ==> self.channel2[r].len() >= (
            #[trigger] self.channel1[r]).len() && self.channel3[r].len() >= self.channel1[r].len()
    }
}

/// How many rows of a channel one block takes: 4 where the channel was downsampled
/// vertically (each of its rows then stands for two), else 8.
pub open spec fn block_rows(downsampled_vertically: bool) -> nat {
    if downsampled_vertically {
        4
    } else {
        8
    }
}

/// How many samples of a row one block takes: 8 divided by the downsample factor.
pub open spec fn block_width(factor: nat) -> nat {
    8nat / factor
}

/// How many blocks a row of `width` samples starts: one at every multiple of the block
/// width below `width`.
pub open spec fn block_columns(width: nat, factor: nat) -> nat {
    if width == 0 {
        0
    } else {
        ((width - 1) / (block_width(factor) as int) + 1) as nat
    }
}

/// The 8x8 block, row by row, whose rows start at row `y` and whose columns start at
/// column `x` of `rows`: each sample repeated `factor` times across, and each row twice
/// down where the channel was downsampled vertically.
pub open spec fn block_at(rows: Seq<Seq<u16>>, y: int, x: int, factor: nat, downsampled_vertically: bool) -> Seq<
    u16,
> {
    Seq::new(
        64,
        |k: int|
            rows[y + if downsampled_vertically {
                k / 16
            } else {
                k / 8
            }][x + (k % 8) / (factor as int)],
    )
}

/// The blocks of a channel, top to bottom, each row of blocks left to right.
pub open spec fn channel_blocks(channel: Seq<Seq<u16>>, factor: nat, downsampled_vertically: bool) -> Seq<
    Seq<u16>,
> {
    let cols = block_columns(channel[0].len(), factor);
    let h = block_rows(downsampled_vertically);
    Seq::new(
        (channel.len() / h) * cols,
        |b: int|
            block_at(
                channel,
                (b / (cols as int)) * h,
                (b % (cols as int)) * block_width(factor),
                factor,
                downsampled_vertically,
            ),
    )
}

/// The channels [`channel_to_matrices`] turns into blocks: a first row to measure, a factor
/// from 1 to 8 that, where there is something to convert, divides 8, whole groups of rows,
/// and rows that reach the end of the last block of the first row.
pub open spec fn channel_blocks_ok(channel: Seq<Seq<u16>>, factor: nat, downsampled_vertically: bool) -> bool {
    &&& channel.len() > 0
    &&& 1 <= factor <= 8
    &&& channel.len() % block_rows(downsampled_vertically) == 0
    &&& channel[0].len() > 0 ==> {
        &&& 8nat % factor == 0
        &&& forall|y: int|
            0 <= y < channel.len() ==> block_columns(channel[0].len(), factor) * block_width(factor)
                <= #[trigger] channel[y].len()
    }
}

/// The sequences of a vector of blocks.
pub open spec fn blocks_view(blocks: Seq<[u16; 64]>) -> Seq<Seq<u16>> {
    blocks.map_values(|b: [u16; 64]| b@)
}

impl ImageView {
    /// The images [`Image::to_matrices`] converts: a whole number of 8-row groups, a first
    /// row whose width in luma samples is a multiple of 8, and channels that convert.
    pub open spec fn blocks_ok(self) -> bool {
        &&& self.channel1.len() > 0
        &&& self.channel1.len() % 8 == 0
        &&& self.channel1[0].len() * self.y_downsample_factor <= usize::MAX
        &&& (self.channel1[0].len() * self.y_downsample_factor) % 8 == 0
        &&& channel_blocks_ok(self.channel1, self.y_downsample_factor as nat, false)
        &&& channel_blocks_ok(
            self.channel2,
            self.cb_downsample_factor as nat,
            self.downsampled_vertically,
        )
        &&& channel_blocks_ok(
            self.channel3,
            self.cr_downsample_factor as nat,
            self.downsampled_vertically,
        )
    }
}

/// Extract the samples of a block row from `vector`, starting at `x`: 8 divided by the
/// factor of them, each repeated `downsample_factor` times.
pub fn create_vector_for_row(x: usize, vector: &Vec<u16>, downsample_factor: usize) -> (r: Vec<u16>)
    requires
        1 <= downsample_factor <= 8,
        x + 8usize / downsample_factor <= vector.len(),
    ensures
        r@ == Seq::new(
            ((8usize / downsample_factor) * downsample_factor) as nat,
            |i: int| vector@[x + i / (downsample_factor as int)],
        ),
{
    let f = downsample_factor;
    let n = 8 / f;
    proof {
        assert(n * f <= 8) by (nonlinear_arith)
            requires n == 8usize / f, f >= 1;
    }
    let ghost target = Seq::new((n * f) as nat, |i: int| vector@[x + i / (f as int)]);
    let mut row_vec: Vec<u16> = Vec::new();
    let mut j: usize = 0;
    while j < n
        invariant
            n == 8usize / f,
            1 <= f <= 8,
            n * f <= 8,
            x + n <= vector.len(),
            j <= n,
            target == Seq::new((n * f) as nat, |i: int| vector@[x + i / (f as int)]),
            row_vec@ == target.take((j * f) as int),
        decreases n - j,
    {
        let value = vector[x + j];
        let mut t: usize = 0;
        while t < f
            invariant
                n == 8usize / f,
                1 <= f <= 8,
                n * f <= 8,
                j < n,
                x + j < vector.len(),
                value == vector@[x + j],
                t <= f,
                target == Seq::new((n * f) as nat, |i: int| vector@[x + i / (f as int)]),
                row_vec@ == target.take((j * f + t) as int),
            decreases f - t,
        {
            proof {
                assert(j * f + t < n * f) by (nonlinear_arith)
                    requires j < n, t < f;
                assert((j * f + t) / (f as int) == j) by (nonlinear_arith)
                    requires t < f, f >= 1, j >= 0, t >= 0;
            }
            row_vec.push(value);
            t += 1;
            proof {
                assert(row_vec@ =~= target.take((j * f + t) as int));
            }
        }
        j += 1;
        proof {
            assert(j * f == (j - 1) * f + f) by (nonlinear_arith);
        }
    }
    proof {
        assert(row_vec@ =~= target);
    }
    row_vec
}

/// Turn the block at column `x` of `row_vectors` into an 8x8 block, row by row, and push it
/// to `result_vec`.
pub fn append_matrix_at_coordinates_to_channel_matrix(
    x: usize,
    row_vectors: &[Vec<u16>],
    downsample_factor: usize,
    downsampled_vertically: bool,
    result_vec: &mut Vec<[u16; 64]>,
)
    requires
        1 <= downsample_factor <= 8,
        8usize % downsample_factor == 0,
        row_vectors@.len() == block_rows(downsampled_vertically),
        forall|i: int|
            0 <= i < row_vectors@.len() ==> x + 8usize / downsample_factor <= #[trigger] row_vectors@[i].len(),
    ensures
        final(result_vec)@.len() == old(result_vec)@.len() + 1,
        final(result_vec)@.take(old(result_vec)@.len() as int) == old(result_vec)@,
        final(result_vec)@.last()@ == block_at(
            row_vectors@.map_values(|v: Vec<u16>| v@),
            0,
            x as int,
            downsample_factor as nat,
            downsampled_vertically,
        ),
{
    let f = downsample_factor;
    let ghost rows = row_vectors@.map_values(|v: Vec<u16>| v@);
    let ghost target = block_at(rows, 0, x as int, f as nat, downsampled_vertically);
    proof {
        assert((8usize / f) * f == 8) by (nonlinear_arith)
            requires 8usize % f == 0, f >= 1;
    }
    let mut block = [0u16; 64];
    let mut k: usize = 0;
    let mut i: usize = 0;
    while i < row_vectors.len()
        invariant
            1 <= f <= 8,
            (8usize / f) * f == 8,
            rows == row_vectors@.map_values(|v: Vec<u16>| v@),
            target == block_at(rows, 0, x as int, f as nat, downsampled_vertically),
            row_vectors@.len() == block_rows(downsampled_vertically),
            forall|j: int| 0 <= j < row_vectors@.len() ==> x + 8usize / f <= #[trigger] row_vectors@[j].len(),
            i <= row_vectors.len(),
            k == i * if downsampled_vertically { 16usize } else { 8usize },
            forall|j: int| 0 <= j < k ==> block@[j] == target[j],
        decreases row_vectors.len() - i,
    {
        let row_vec = create_vector_for_row(x, &row_vectors[i], f);
        let copies: usize = if downsampled_vertically { 2 } else { 1 };
        let mut c: usize = 0;
        while c < copies
            invariant
                1 <= f <= 8,
                (8usize / f) * f == 8,
                rows == row_vectors@.map_values(|v: Vec<u16>| v@),
                target == block_at(rows, 0, x as int, f as nat, downsampled_vertically),
                row_vectors@.len() == block_rows(downsampled_vertically),
                i < row_vectors.len(),
                copies == if downsampled_vertically { 2usize } else { 1usize },
                c <= copies,
                row_vec@ == Seq::new(8, |t: int| row_vectors@[i as int]@[x + t / (f as int)]),
                k == i * copies * 8 + c * 8,
                forall|j: int| 0 <= j < k ==> block@[j] == target[j],
            decreases copies - c,
        {
            let mut t: usize = 0;
            while t < 8
                invariant
                    1 <= f <= 8,
                    rows == row_vectors@.map_values(|v: Vec<u16>| v@),
                    target == block_at(rows, 0, x as int, f as nat, downsampled_vertically),
                    row_vectors@.len() == block_rows(downsampled_vertically),
                    i < row_vectors.len(),
                    copies == if downsampled_vertically { 2usize } else { 1usize },
                    c < copies,
                    row_vec@ == Seq::new(8, |u: int| row_vectors@[i as int]@[x + u / (f as int)]),
                    t <= 8,
                    k == i * copies * 8 + c * 8 + t,
                    forall|j: int| 0 <= j < k ==> block@[j] == target[j],
                decreases 8 - t,
            {
                proof {
                    let kk = k as int;
                    if downsampled_vertically {
                        assert(kk / 16 == i && kk % 8 == t) by (nonlinear_arith)
                            requires kk == i * 16 + c * 8 + t, 0 <= c < 2, 0 <= t < 8;
                    } else {
                        assert(kk / 8 == i && kk % 8 == t) by (nonlinear_arith)
                            requires kk == i * 8 + t, 0 <= t < 8;
                    }
                    assert(rows[i as int] == row_vectors@[i as int]@);
                }
                block[k] = row_vec[t];
                k += 1;
                t += 1;
            }
            c += 1;
        }
        i += 1;
    }
    proof {
        assert(block@ =~= target);
    }
    result_vec.push(block);
    proof {
        assert(result_vec@.take(old(result_vec)@.len() as int) =~= old(result_vec)@);
    }
}

/// Turn the block rows of `channel` that start at row `y` into 8x8 blocks, left to right,
/// and push them to `result_vec`.
pub fn append_row_matrices_to_channel_matrix(
    channel: &Vec<Vec<u16>>,
    y: usize,
    downsample_factor: usize,
    downsampled_vertically: bool,
    result_vec: &mut Vec<[u16; 64]>,
)
    requires
        channel_blocks_ok(channel_view(channel@), downsample_factor as nat, downsampled_vertically),
        y + block_rows(downsampled_vertically) <= channel@.len(),
    ensures
        blocks_view(final(result_vec)@) == blocks_view(old(result_vec)@) + Seq::new(
            block_columns(channel@[0]@.len(), downsample_factor as nat),
            |gx: int|
                block_at(
                    channel_view(channel@),
                    y as int,
                    gx * block_width(downsample_factor as nat),
                    downsample_factor as nat,
                    downsampled_vertically,
                ),
        ),
{
    let ghost ch = channel_view(channel@);
    let ghost f = downsample_factor as nat;
    let h: usize = if downsampled_vertically { 4 } else { 8 };
    assert(h == block_rows(downsampled_vertically));
    let total = channel.len();
    assert(y + h <= total);
    let row_vectors = vstd::slice::slice_subrange(channel.as_slice(), y, y + h);
    let ghost rows = row_vectors@.map_values(|v: Vec<u16>| v@);
    let w0 = channel[0].len();
    let bw = 8 / downsample_factor;
    let ghost cols = block_columns(w0 as nat, f);
    let ghost start = blocks_view(result_vec@);
    let ghost target = Seq::new(
        cols,
        |gx: int| block_at(ch, y as int, gx * block_width(f), f, downsampled_vertically),
    );
    assert(ch[0].len() == w0);
    assert(bw >= 1) by (nonlinear_arith)
        requires bw == 8usize / downsample_factor, 1 <= downsample_factor <= 8;
    if w0 > 0 {
        assert(cols == (w0 - 1) / (bw as int) + 1);
        assert((w0 - 1) / (bw as int) >= 0) by (nonlinear_arith)
            requires w0 >= 1, bw >= 1;
    }
    let mut x: usize = 0;
    let ghost mut gx: int = 0;
    while x < w0
        invariant
            ch == channel_view(channel@),
            f == downsample_factor,
            channel_blocks_ok(ch, f, downsampled_vertically),
            h == block_rows(downsampled_vertically),
            y + h <= channel@.len(),
            rows == row_vectors@.map_values(|v: Vec<u16>| v@),
            row_vectors@ == channel@.subrange(y as int, y + h),
            w0 == ch[0].len(),
            bw == block_width(f),
            bw >= 1,
            cols == block_columns(w0 as nat, f),
            target == Seq::new(
                cols,
                |gx: int| block_at(ch, y as int, gx * block_width(f), f, downsampled_vertically),
            ),
            x == gx * bw,
            0 <= gx <= cols,
            x < w0 ==> gx < cols,
            w0 > 0 ==> cols * bw <= w0,
            blocks_view(result_vec@) == start + target.take(gx),
        decreases w0 - x,
    {
        proof {
            assert(w0 > 0);
            assert(cols == (w0 - 1) / (bw as int) + 1);
            assert(x + bw <= cols * bw) by (nonlinear_arith)
                requires x == gx * bw, gx < cols, bw >= 1;
            assert forall|i: int| 0 <= i < row_vectors@.len() implies x + 8usize / downsample_factor
                <= #[trigger] row_vectors@[i].len() by {
                assert(row_vectors@[i] == channel@[y + i]);
                assert(ch[y + i] == channel@[y + i]@);
                assert(cols * bw <= ch[y + i].len());
                assert(x + bw <= cols * bw) by (nonlinear_arith)
                    requires x == gx * bw, gx < cols, bw >= 1;
            }
        }
        let ghost before = result_vec@;
        append_matrix_at_coordinates_to_channel_matrix(
            x,
            row_vectors,
            downsample_factor,
            downsampled_vertically,
            result_vec,
        );
        proof {
            let b = block_at(rows, 0, x as int, f, downsampled_vertically);
            assert(b =~= block_at(ch, y as int, gx * block_width(f), f, downsampled_vertically)) by {
                assert forall|k: int| 0 <= k < 64 implies b[k] == block_at(
                    ch,
                    y as int,
                    gx * block_width(f),
                    f,
                    downsampled_vertically,
                )[k] by {
                    let r = if downsampled_vertically {
                        k / 16
                    } else {
                        k / 8
                    };
                    assert(0 <= r < h);
                    assert(rows[r] == row_vectors@[r]@);
                    assert(row_vectors@[r] == channel@[y + r]);
                }
            }
            assert(blocks_view(result_vec@) =~= blocks_view(before).push(b)) by {
                assert(result_vec@ =~= before.push(result_vec@.last()));
            }
            assert(target.take(gx + 1) =~= target.take(gx).push(b));
            assert(start + target.take(gx) + seq![b] =~= start + target.take(gx + 1));
        }
        proof {
            assert(x + bw == (gx + 1) * bw) by (nonlinear_arith)
                requires x == gx * bw;
            assert(x + bw < w0 ==> gx + 1 < cols) by (nonlinear_arith)
                requires x == gx * bw, bw >= 1, cols == (w0 - 1) / (bw as int) + 1, w0 > 0;
            gx = gx + 1;
        }
        x += bw;
    }
    proof {
        if w0 > 0 {
            assert(gx >= cols) by (nonlinear_arith)
                requires x == gx * bw, x >= w0, bw >= 1, cols == (w0 - 1) / (bw as int) + 1, w0 > 0;
        }
        assert(target.take(gx) =~= target);
    }
}

/// Convert one channel into 8x8 blocks, row by row: `None` where it does not convert (see
/// [`channel_blocks_ok`]).
pub fn channel_to_matrices(
    channel: &Vec<Vec<u16>>,
    downsample_factor: usize,
    downsampled_vertically: bool,
) -> (r: Option<Vec<[u16; 64]>>)
    ensures
        r is Some <==> channel_blocks_ok(channel_view(channel@), downsample_factor as nat, downsampled_vertically),
        r matches Some(blocks) ==> blocks_view(blocks@) == channel_blocks(
            channel_view(channel@),
            downsample_factor as nat,
            downsampled_vertically,
        ),
{
    let ghost ch = channel_view(channel@);
    let ghost f = downsample_factor as nat;
    if channel.len() == 0 || downsample_factor == 0 || downsample_factor > 8 {
        return None;
    }
    let h: usize = if downsampled_vertically { 4 } else { 8 };
    if channel.len() % h != 0 {
        return None;
    }
    let w0 = channel[0].len();
    let bw = 8 / downsample_factor;
    assert(ch[0].len() == w0);
    if w0 > 0 {
        if 8 % downsample_factor != 0 {
            return None;
        }
        assert(bw >= 1) by (nonlinear_arith)
            requires bw == 8usize / downsample_factor, 1 <= downsample_factor <= 8;
        assert(((w0 - 1) as int / (bw as int)) * bw <= w0 - 1) by (nonlinear_arith)
            requires bw >= 1, w0 >= 1;
        let last = ((w0 - 1) / bw) * bw;
        proof {
            assert(last <= w0 - 1) by (nonlinear_arith)
                requires last == ((w0 - 1) / (bw as int)) * bw, bw >= 1, w0 >= 1;
            assert(block_columns(w0 as nat, f) * block_width(f) == last + bw) by (nonlinear_arith)
                requires last == ((w0 - 1) / (bw as int)) * bw, block_columns(w0 as nat, f) == (w0 - 1) / (bw as int) + 1, block_width(f) == bw;
        }
        let mut i: usize = 0;
        while i < channel.len()
            invariant
                i <= channel.len(),
                w0 > 0,
                f == downsample_factor,
                ch == channel_view(channel@),
                w0 == ch[0].len(),
                bw == block_width(f),
                block_columns(w0 as nat, f) * block_width(f) == last + bw,
                forall|j: int| 0 <= j < i ==> block_columns(w0 as nat, f) * block_width(f) <= #[trigger] ch[j].len(),
            decreases channel.len() - i,
        {
            let len = channel[i].len();
            assert(ch[i as int].len() == len);
            if len < bw || len - bw < last {
                proof {
                    assert(!(block_columns(w0 as nat, f) * block_width(f) <= ch[i as int].len()));
                }
                return None;
            }
            i += 1;
        }
    }
    assert(channel_blocks_ok(ch, f, downsampled_vertically));
    let ghost cols = block_columns(w0 as nat, f);
    let ghost all = channel_blocks(ch, f, downsampled_vertically);
    let mut result_vec: Vec<[u16; 64]> = Vec::new();
    let mut y: usize = 0;
    let ghost mut gy: int = 0;
    while y < channel.len()
        invariant
            ch == channel_view(channel@),
            f == downsample_factor,
            channel_blocks_ok(ch, f, downsampled_vertically),
            h == block_rows(downsampled_vertically),
            channel.len() % h == 0,
            w0 == ch[0].len(),
            cols == block_columns(w0 as nat, f),
            all == channel_blocks(ch, f, downsampled_vertically),
            y == gy * h,
            0 <= gy <= (channel.len() as int) / (h as int),
            blocks_view(result_vec@) == all.take(gy * cols),
        decreases channel.len() - y,
    {
        proof {
            assert(y + h <= channel.len()) by (nonlinear_arith)
                requires y == gy * h, y < channel.len(), channel.len() % h == 0, h >= 1;
        }
        let ghost before = blocks_view(result_vec@);
        proof {
            assert(gy <= (channel.len() as int) / (h as int));
            assert(gy * cols <= ((channel.len() as int) / (h as int)) * cols) by (nonlinear_arith)
                requires gy <= (channel.len() as int) / (h as int), cols >= 0;
            assert(before.len() == gy * cols);
        }
        append_row_matrices_to_channel_matrix(channel, y, downsample_factor, downsampled_vertically, &mut result_vec);
        proof {
            let added = Seq::new(
                cols,
                |gx: int| block_at(ch, y as int, gx * block_width(f), f, downsampled_vertically),
            );
            assert(gy < (channel.len() as int) / (h as int)) by (nonlinear_arith)
                requires y == gy * h, y < channel.len(), h >= 1, channel.len() % h == 0;
            assert((gy + 1) * cols <= ((channel.len() as int) / (h as int)) * cols) by (nonlinear_arith)
                requires gy + 1 <= (channel.len() as int) / (h as int), cols >= 0;
            assert forall|j: int| 0 <= j < (gy + 1) * cols implies #[trigger] (before + added)[j]
                == all[j] by {
                if j < gy * cols {
                    assert((before + added)[j] == before[j]);
                } else {
                    let gx = j - gy * cols;
                    assert(0 <= gx < cols) by (nonlinear_arith)
                        requires gy * cols <= j < (gy + 1) * cols, gx == j - gy * cols;
                    assert(j / (cols as int) == gy && j % (cols as int) == gx) by (nonlinear_arith)
                        requires j == gy * cols + gx, 0 <= gx < cols;
                    assert((before + added)[j] == added[gx]);
                }
            }
            assert((gy + 1) * cols == gy * cols + cols) by (nonlinear_arith);
            assert(before + added =~= all.take((gy + 1) * cols));
            gy = gy + 1;
        }
        y += h;
    }
    proof {
        assert(gy == (channel.len() as int) / (h as int)) by (nonlinear_arith)
            requires y == gy * h, y >= channel.len(), gy <= (channel.len() as int) / (h as int), h >= 1;
        assert(all.take(gy * cols) =~= all);
    }
    Some(result_vec)
}

impl Image {
    /// Get the pixel at the x/y coordinates, with a bounds check: outside the bounds, the
    /// border pixel is returned instead.
    pub fn pixel_at(&self, x: u16, y: u16) -> (r: (u16, u16, u16))
        requires
            self@.pixel_readable(x, y),
        ensures
            r == self@.pixel(x, y),
    {
        let ghost v = self@;
        let mut actual_y = y as usize;
        if actual_y > self.channel1.len() - 1 {
            actual_y = self.channel1.len() - 1;
        }
        assert(self.channel1@[actual_y as int]@ == v.channel1[actual_y as int]);
        let actual_y_downsampled = if self.downsampled_vertically {
            actual_y / 2
        } else {
            actual_y
        };
        let mut actual_x = x as usize;
        if actual_x > self.channel1[actual_y].len() - 1 {
            actual_x = self.channel1[actual_y].len() - 1;
        }
        let actual_x_1 = actual_x / self.y_downsample_factor;
        let actual_x_2 = actual_x / self.cb_downsample_factor;
        let actual_x_3 = actual_x / self.cr_downsample_factor;
        assert(self.channel2@[actual_y_downsampled as int]@ == v.channel2[actual_y_downsampled as int]);
        assert(self.channel3@[actual_y_downsampled as int]@ == v.channel3[actual_y_downsampled as int]);
        (
            self.channel1[actual_y][actual_x_1],
            self.channel2[actual_y_downsampled][actual_x_2],
            self.channel3[actual_y_downsampled][actual_x_3],
        )
    }

    /// Whether [`Image::downsample`] accepts these parameters for this image.
    pub fn can_downsample(&self, a: usize, b: usize, c: usize) -> (r: bool)
        ensures
            r == self@.downsample_accepted(a, b, c),
    {
        if a == b && a == c {
            return true;
        }
        let ab = match a.checked_mul(b) {
            Some(p) => p,
            None => return false,
        };
        let product_u = match ab.checked_mul(c) {
            Some(p) => p,
            None => return false,
        };
        let product = #[verifier::truncate] (product_u as isize);
        if product == isize::MIN {
            return false;
        }
        if product & (product - 1) != 0 {
            return false;
        }
        let crb = if c == 0 { b } else { c };
        if !channel_can_be_downsampled(&self.channel2, a, b) || !channel_can_be_downsampled(
            &self.channel3,
            a,
            crb,
        ) {
            return false;
        }
        let f2 = self.cb_downsample_factor.checked_mul(a / b);
        let f3 = self.cr_downsample_factor.checked_mul(a / crb);
        f2.is_some() && f3.is_some()
    }

    /// Down-sample this image. `a`, `b` and `c` are expected to fit the segments of
    /// standard subsampling notation (J:a:b): the chroma channels keep `b` (Cb) and `c` or,
    /// where `c` is 0, `b` (Cr) samples of every `a`, and a `c` of 0 also combines every
    /// two rows.
    pub fn downsample(&mut self, a: usize, b: usize, c: usize)
        requires
            old(self)@.downsample_accepted(a, b, c),
        ensures
            final(self)@ == old(self)@.downsampled(a, b, c),
    {
        if a == b && a == c && b == c {
            return;
        }
        let ghost v = self@;
        proof {
            assert forall|y: int| 0 <= y < self.channel2@.len() implies #[trigger] self.channel2@[y]@.len()
                + a <= usize::MAX by {
                assert(v.channel2[y] == self.channel2@[y]@);
            }
            assert forall|y: int| 0 <= y < self.channel2@.len() - 1 implies rows_fit(
                #[trigger] self.channel2@[y]@,
                self.channel2@[y + 1]@,
                a as nat,
            ) by {
                assert(v.channel2[y] == self.channel2@[y]@);
                assert(v.channel2[y + 1] == self.channel2@[y + 1]@);
            }
            let crb = ImageView::cr_samples(b, c);
            assert forall|y: int| 0 <= y < self.channel3@.len() implies #[trigger] self.channel3@[y]@.len()
                + a <= usize::MAX by {
                assert(v.channel3[y] == self.channel3@[y]@);
            }
            assert forall|y: int| 0 <= y < self.channel3@.len() - 1 implies rows_fit(
                #[trigger] self.channel3@[y]@,
                self.channel3@[y + 1]@,
                a as nat,
            ) by {
                assert(v.channel3[y] == self.channel3@[y]@);
                assert(v.channel3[y + 1] == self.channel3@[y + 1]@);
            }
        }
        let result_cb = downsample_channel(&self.channel2, a, b, c == 0);
        let cr_b = if c == 0 { b } else { c };
        let result_cr = downsample_channel(&self.channel3, a, cr_b, c == 0);
        self.channel2 = result_cb;
        self.channel3 = result_cr;
        self.cb_downsample_factor = self.cb_downsample_factor * (a / b);
        self.cr_downsample_factor = self.cr_downsample_factor * (a / cr_b);
        self.downsampled_vertically = self.downsampled_vertically || c == 0;
        proof {
            assert(self@ =~= v.downsampled(a, b, c));
        }
    }

    /// Get this image's data as 8x8 blocks for each of the three channels, row by row,
    /// ordered top to bottom, then in each row left to right. `None` where the image does
    /// not split into whole blocks (see [`ImageView::blocks_ok`]).
    pub fn to_matrices(&self) -> (r: Option<(Vec<[u16; 64]>, Vec<[u16; 64]>, Vec<[u16; 64]>)>)
        ensures
            r is Some <==> self@.blocks_ok(),
            r matches Some((y, cb, cr)) ==> {
                &&& blocks_view(y@) == channel_blocks(
                    self@.channel1,
                    self@.y_downsample_factor as nat,
                    false,
                )
                &&& blocks_view(cb@) == channel_blocks(
                    self@.channel2,
                    self@.cb_downsample_factor as nat,
                    self@.downsampled_vertically,
                )
                &&& blocks_view(cr@) == channel_blocks(
                    self@.channel3,
                    self@.cr_downsample_factor as nat,
                    self@.downsampled_vertically,
                )
            },
    {
        if self.channel1.len() % 8 != 0 || self.channel1.len() == 0 {
            return None;
        }
        assert(self@.channel1[0] == self.channel1@[0]@);
        let width = match self.channel1[0].len().checked_mul(self.y_downsample_factor) {
            Some(w) => w,
            None => return None,
        };
        if width % 8 != 0 {
            return None;
        }
        let y = match channel_to_matrices(&self.channel1, self.y_downsample_factor, false) {
            Some(m) => m,
            None => return None,
        };
        let cb = match channel_to_matrices(
            &self.channel2,
            self.cb_downsample_factor,
            self.downsampled_vertically,
        ) {
            Some(m) => m,
            None => return None,
        };
        let cr = match channel_to_matrices(
            &self.channel3,
            self.cr_downsample_factor,
            self.downsampled_vertically,
        ) {
            Some(m) => m,
            None => return None,
        };
        Some((y, cb, cr))
    }

    /// Convert this image from RGB to YCbCr color space, converting each pixel with
    /// `convert` (red, green, blue to Y, Cb, Cr). Only for an image not yet downsampled.
    pub fn rgb_to_ycbcr<F: Fn(u16, u16, u16) -> (u16, u16, u16)>(&mut self, convert: F)
        requires
            old(self)@.y_downsample_factor == 1,
            old(self)@.cb_downsample_factor == 1,
            old(self)@.cr_downsample_factor == 1,
            !old(self)@.downsampled_vertically,
            old(self)@.chroma_covers_luma(),
            forall|r: u16, g: u16, b: u16| call_requires(convert, (r, g, b)),
        ensures
            final(self)@.height == old(self)@.height,
            final(self)@.width == old(self)@.width,
            final(self)@.y_downsample_factor == 1,
            final(self)@.cb_downsample_factor == 1,
            final(self)@.cr_downsample_factor == 1,
            !final(self)@.downsampled_vertically,
            final(self)@.channel1.len() == old(self)@.channel1.len(),
            final(self)@.channel2.len() == old(self)@.channel2.len(),
            final(self)@.channel3.len() == old(self)@.channel3.len(),
            forall|r: int|
                0 <= r < old(self)@.channel1.len() ==> {
                    &&& (#[trigger] final(self)@.channel1[r]).len() == old(self)@.channel1[r].len()
                    &&& final(self)@.channel2[r].len() == old(self)@.channel2[r].len()
                    &&& final(self)@.channel3[r].len() == old(self)@.channel3[r].len()
                    &&& forall|col: int|
                        old(self)@.channel1[r].len() <= col < old(self)@.channel2[r].len()
                            ==> final(self)@.channel2[r][col] == old(self)@.channel2[r][col]
                    &&& forall|col: int|
                        old(self)@.channel1[r].len() <= col < old(self)@.channel3[r].len()
                            ==> final(self)@.channel3[r][col] == old(self)@.channel3[r][col]
                    &&& forall|col: int|
                        0 <= col < old(self)@.channel1[r].len() ==> call_ensures(
                            convert,
                            (
                                old(self)@.channel1[r][col],
                                old(self)@.channel2[r][col],
                                old(self)@.channel3[r][col],
                            ),
                            (
                                #[trigger] final(self)@.channel1[r][col],
                                final(self)@.channel2[r][col],
                                final(self)@.channel3[r][col],
                            ),
                        )
                },
            forall|r: int|
                old(self)@.channel1.len() <= r < old(self)@.channel2.len() ==> #[trigger] final(self)@.channel2[r]
                    == old(self)@.channel2[r],
            forall|r: int|
                old(self)@.channel1.len() <= r < old(self)@.channel3.len() ==> #[trigger] final(self)@.channel3[r]
                    == old(self)@.channel3[r],
    {
        let ghost v = self@;
        let n = self.channel1.len();
        let mut c1: Vec<Vec<u16>> = Vec::new();
        let mut c2: Vec<Vec<u16>> = Vec::new();
        let mut c3: Vec<Vec<u16>> = Vec::new();
        let mut row: usize = 0;
        while row < self.channel2.len()
            invariant
                v == self@,
                n == self.channel1.len(),
                v.chroma_covers_luma(),
                forall|r: u16, g: u16, b: u16| call_requires(convert, (r, g, b)),
                row <= self.channel2.len(),
                c2.len() == row,
                c1.len() == if row < n { row as int } else { n as int },
                c3.len() == if row < n { row as int } else { n as int },
                forall|r: int| 0 <= r < row && r >= n ==> #[trigger] c2@[r]@ == v.channel2[r],
                forall|r: int|
                    0 <= r < row && r < n ==> {
                        &&& (#[trigger] c1@[r])@.len() == v.channel1[r].len()
                        &&& c2@[r]@.len() == v.channel2[r].len()
                        &&& c3@[r]@.len() == v.channel3[r].len()
                        &&& forall|col: int|
                            v.channel1[r].len() <= col < v.channel2[r].len() ==> c2@[r]@[col]
                                == v.channel2[r][col]
                        &&& forall|col: int|
                            v.channel1[r].len() <= col < v.channel3[r].len() ==> c3@[r]@[col]
                                == v.channel3[r][col]
                        &&& forall|col: int|
                            0 <= col < v.channel1[r].len() ==> call_ensures(
                                convert,
                                (v.channel1[r][col], v.channel2[r][col], v.channel3[r][col]),
                                (#[trigger] c1@[r]@[col], c2@[r]@[col], c3@[r]@[col]),
                            )
                    },
            decreases self.channel2.len() - row,
        {
            assert(v.channel2[row as int] == self.channel2@[row as int]@);
            if row < n {
                assert(v.channel1[row as int] == self.channel1@[row as int]@);
                assert(v.channel3[row as int] == self.channel3@[row as int]@);
                let (r1, r2, r3) = convert_row(
                    &self.channel1[row],
                    &self.channel2[row],
                    &self.channel3[row],
                    &convert,
                );
                c1.push(r1);
                c2.push(r2);
                c3.push(r3);
            } else {
                c2.push(copy_row(&self.channel2[row]));
            }
            row += 1;
        }
        assert(v.channel2.len() >= n);
        assert forall|r: int| 0 <= r < n implies {
            &&& (#[trigger] c3@[r])@.len() == v.channel3[r].len()
            &&& forall|col: int|
                v.channel1[r].len() <= col < v.channel3[r].len() ==> c3@[r]@[col] == v.channel3[r][col]
        } by {
            assert(c1@[r]@.len() == v.channel1[r].len());
        }
        let mut row3: usize = n;
        while row3 < self.channel3.len()
            invariant
                v == self@,
                n == self.channel1.len() <= row3 <= self.channel3.len(),
                c3.len() == row3,
                c1.len() == n,
                c2.len() == v.channel2.len(),
                forall|r: int| n <= r < c2.len() ==> #[trigger] c2@[r]@ == v.channel2[r],
                forall|r: int|
                    0 <= r < n ==> {
                        &&& (#[trigger] c1@[r])@.len() == v.channel1[r].len()
                        &&& c2@[r]@.len() == v.channel2[r].len()
                        &&& forall|col: int|
                            v.channel1[r].len() <= col < v.channel2[r].len() ==> c2@[r]@[col]
                                == v.channel2[r][col]
                        &&& forall|col: int|
                            0 <= col < v.channel1[r].len() ==> call_ensures(
                                convert,
                                (v.channel1[r][col], v.channel2[r][col], v.channel3[r][col]),
                                (#[trigger] c1@[r]@[col], c2@[r]@[col], c3@[r]@[col]),
                            )
                    },
                forall|r: int| n <= r < row3 ==> #[trigger] c3@[r]@ == v.channel3[r],
                forall|r: int|
                    0 <= r < n ==> {
                        &&& (#[trigger] c3@[r])@.len() == v.channel3[r].len()
                        &&& forall|col: int|
                            v.channel1[r].len() <= col < v.channel3[r].len() ==> c3@[r]@[col]
                                == v.channel3[r][col]
                    },
            decreases self.channel3.len() - row3,
        {
            assert(v.channel3[row3 as int] == self.channel3@[row3 as int]@);
            let ghost old3 = c3@;
            c3.push(copy_row(&self.channel3[row3]));
            proof {
                assert forall|r: int| 0 <= r < row3 implies #[trigger] c3@[r] == old3[r] by {}
                assert forall|r: int, col: int|
                    0 <= r < n && 0 <= col < v.channel1[r].len() implies call_ensures(
                    convert,
                    (v.channel1[r][col], v.channel2[r][col], v.channel3[r][col]),
                    (#[trigger] c1@[r]@[col], c2@[r]@[col], c3@[r]@[col]),
                ) by {
                    assert(c3@[r] == old3[r]);
                    assert(call_ensures(
                        convert,
                        (v.channel1[r][col], v.channel2[r][col], v.channel3[r][col]),
                        (c1@[r]@[col], c2@[r]@[col], old3[r]@[col]),
                    ));
                }
            }
            row3 += 1;
        }
        let ghost g1 = c1@;
        let ghost g2 = c2@;
        let ghost g3 = c3@;
        self.channel1 = c1;
        self.channel2 = c2;
        self.channel3 = c3;
        proof {
            assert forall|r: int| 0 <= r < n implies {
                &&& self@.channel1[r] == g1[r]@
                &&& self@.channel2[r] == g2[r]@
                &&& self@.channel3[r] == g3[r]@
            } by {}
            assert forall|r: int| n <= r < v.channel2.len() implies self@.channel2[r] == g2[r]@ by {}
            assert forall|r: int| n <= r < v.channel3.len() implies self@.channel3[r] == g3[r]@ by {}
        }
    }

    /// The first channel (Y or red).
    pub fn channel1(&self) -> (r: &Vec<Vec<u16>>)
        ensures
            channel_view(r@) == self@.channel1,
    {
        &self.channel1
    }

    /// The second channel (Cb or green).
    pub fn channel2(&self) -> (r: &Vec<Vec<u16>>)
        ensures
            channel_view(r@) == self@.channel2,
    {
        &self.channel2
    }

    /// The third channel (Cr or blue).
    pub fn channel3(&self) -> (r: &Vec<Vec<u16>>)
        ensures
            channel_view(r@) == self@.channel3,
    {
        &self.channel3
    }

    /// The image height in pixels.
    pub fn height(&self) -> (r: u16)
        ensures
            r == self@.height,
    {
        self.height
    }

    /// The image width in pixels.
    pub fn width(&self) -> (r: u16)
        ensures
            r == self@.width,
    {
        self.width
    }

    /// The horizontal downsample factor of the first channel.
    pub fn y_downsample_factor(&self) -> (r: usize)
        ensures
            r == self@.y_downsample_factor,
    {
        self.y_downsample_factor
    }

    /// The horizontal downsample factor of the second channel.
    pub fn cb_downsample_factor(&self) -> (r: usize)
        ensures
            r == self@.cb_downsample_factor,
    {
        self.cb_downsample_factor
    }

    /// The horizontal downsample factor of the third channel.
    pub fn cr_downsample_factor(&self) -> (r: usize)
        ensures
            r == self@.cr_downsample_factor,
    {
        self.cr_downsample_factor
    }

    /// Whether every two rows of the second and third channel have been combined.
    pub fn downsampled_vertically(&self) -> (r: bool)
        ensures
            r == self@.downsampled_vertically,
    {
        self.downsampled_vertically
    }
}

impl Default for Image {
    /// An empty image, not downsampled.
    fn default() -> (r: Image)
        ensures
            r@ == (ImageView {
                height: 0,
                width: 0,
                channel1: Seq::empty(),
                channel2: Seq::empty(),
                channel3: Seq::empty(),
                y_downsample_factor: 1,
                cb_downsample_factor: 1,
                cr_downsample_factor: 1,
                downsampled_vertically: false,
            }),
    {
        let r = Image {
            height: 0,
            width: 0,
            channel1: Vec::new(),
            channel2: Vec::new(),
            channel3: Vec::new(),
            y_downsample_factor: 1,
            cb_downsample_factor: 1,
            cr_downsample_factor: 1,
            downsampled_vertically: false,
        };
        proof {
            assert(r@.channel1 =~= Seq::<Seq<u16>>::empty());
            assert(r@.channel2 =~= Seq::<Seq<u16>>::empty());
            assert(r@.channel3 =~= Seq::<Seq<u16>>::empty());
        }
        r
    }
}

/// A copy of a row.
fn copy_row(row: &Vec<u16>) -> (r: Vec<u16>)
    ensures
        r@ == row@,
{
    let mut r: Vec<u16> = Vec::new();
    let mut i: usize = 0;
    while i < row.len()
        invariant
            i <= row.len(),
            r@ == row@.take(i as int),
        decreases row.len() - i,
    {
        r.push(row[i]);
        i += 1;
        proof {
            assert(r@ =~= row@.take(i as int));
        }
    }
    proof {
        assert(r@ =~= row@);
    }
    r
}

/// Convert the pixels of one row: each sample of the first row with the samples at the
/// same place in the other two; samples of the other rows past the first row's end are
/// kept.
fn convert_row<F: Fn(u16, u16, u16) -> (u16, u16, u16)>(
    row1: &Vec<u16>,
    row2: &Vec<u16>,
    row3: &Vec<u16>,
    convert: &F,
) -> (r: (Vec<u16>, Vec<u16>, Vec<u16>))
    requires
        row2.len() >= row1.len(),
        row3.len() >= row1.len(),
        forall|r: u16, g: u16, b: u16| call_requires(*convert, (r, g, b)),
    ensures
        r.0@.len() == row1@.len(),
        r.1@.len() == row2@.len(),
        r.2@.len() == row3@.len(),
        forall|col: int| row1@.len() <= col < row2@.len() ==> #[trigger] r.1@[col] == row2@[col],
        forall|col: int| row1@.len() <= col < row3@.len() ==> #[trigger] r.2@[col] == row3@[col],
        forall|col: int|
            0 <= col < row1@.len() ==> call_ensures(
                *convert,
                (row1@[col], row2@[col], row3@[col]),
                (#[trigger] r.0@[col], r.1@[col], r.2@[col]),
            ),
{
    let mut n1: Vec<u16> = Vec::new();
    let mut n2: Vec<u16> = Vec::new();
    let mut n3: Vec<u16> = Vec::new();
    let mut col: usize = 0;
    while col < row1.len()
        invariant
            col <= row1.len(),
            row2.len() >= row1.len(),
            row3.len() >= row1.len(),
            forall|r: u16, g: u16, b: u16| call_requires(*convert, (r, g, b)),
            n1.len() == col && n2.len() == col && n3.len() == col,
            forall|k: int|
                0 <= k < col ==> call_ensures(
                    *convert,
                    (row1@[k], row2@[k], row3@[k]),
                    (#[trigger] n1@[k], n2@[k], n3@[k]),
                ),
        decreases row1.len() - col,
    {
        let (y, cb, cr) = convert(row1[col], row2[col], row3[col]);
        n1.push(y);
        n2.push(cb);
        n3.push(cr);
        col += 1;
    }
    let mut k: usize = col;
    while k < row2.len()
        invariant
            row1.len() <= k <= row2.len(),
            n2.len() == k,
            n1.len() == row1.len() && n3.len() == row1.len(),
            forall|j: int| row1.len() <= j < k ==> #[trigger] n2@[j] == row2@[j],
            forall|k: int|
                0 <= k < row1.len() ==> call_ensures(
                    *convert,
                    (row1@[k], row2@[k], row3@[k]),
                    (#[trigger] n1@[k], n2@[k], n3@[k]),
                ),
        decreases row2.len() - k,
    {
        n2.push(row2[k]);
        k += 1;
    }
    let mut k3: usize = col;
    while k3 < row3.len()
        invariant
            row1.len() <= k3 <= row3.len(),
            n3.len() == k3,
            n1.len() == row1.len() && n2.len() == row2.len(),
            forall|j: int| row1.len() <= j < row2.len() ==> #[trigger] n2@[j] == row2@[j],
            forall|j: int| row1.len() <= j < k3 ==> #[trigger] n3@[j] == row3@[j],
            forall|k: int|
                0 <= k < row1.len() ==> call_ensures(
                    *convert,
                    (row1@[k], row2@[k], row3@[k]),
                    (#[trigger] n1@[k], n2@[k], n3@[k]),
                ),
        decreases row3.len() - k3,
    {
        n3.push(row3[k3]);
        k3 += 1;
    }
    (n1, n2, n3)
}

/// Whether [`downsample_channel`] accepts the channel for `a` and `b`.
fn channel_can_be_downsampled(channel: &Vec<Vec<u16>>, a: usize, b: usize) -> (r: bool)
    ensures
        r == ImageView::channel_downsamplable(channel_view(channel@), a, b),
{
    let ghost ch = channel_view(channel@);
    if channel.len() < 1 || a == usize::MAX || !doubles(a, b) {
        return false;
    }
    proof {
        lemma_doubles_positive(a as nat, b as nat);
    }
    let mut y: usize = 0;
    while y < channel.len()
        invariant
            ch == channel_view(channel@),
            a >= 1,
            doubles_to(a as nat, b as nat),
            a < usize::MAX,
            channel.len() >= 1,
            y <= channel.len(),
            forall|k: int| 0 <= k < y ==> #[trigger] ch[k].len() + a <= usize::MAX,
            forall|k: int| 0 <= k < y && k < channel.len() - 1 ==> rows_fit(#[trigger] ch[k], ch[k + 1], a as nat),
        decreases channel.len() - y,
    {
        assert(ch[y as int] == channel@[y as int]@);
        if channel[y].len() > usize::MAX - a {
            assert(ch[y as int].len() + a > usize::MAX);
            return false;
        }
        if y + 1 < channel.len() {
            let len = channel[y].len();
            assert(ch[y + 1] == channel@[y + 1]@);
            if len > 0 {
                let ghost l1: int = len - 1;
                let ghost ai: int = a as int;
                assert((l1 / ai) * ai <= l1) by (nonlinear_arith)
                    requires ai >= 1, l1 >= 0;
            }
            if len > 0 && channel[y + 1].len() <= ((len - 1) / a) * a {
                assert(!rows_fit(ch[y as int], ch[y + 1], a as nat));
                return false;
            }
        }
        y += 1;
    }
    true
}

proof fn lemma_doubles_positive(a: nat, b: nat)
    requires
        doubles_to(a, b),
    ensures
        a >= b >= 1,
{
}

/// Whether `a` is `b` doubled some number of times, with `b` positive.
fn doubles(a: usize, b: usize) -> (r: bool)
    ensures
        r == doubles_to(a as nat, b as nat),
    decreases a - b,
{
    if b == 0 || b > a {
        false
    } else if b == a {
        true
    } else if b > a / 2 {
        false
    } else {
        doubles(a, 2 * b)
    }
}

} // verus!
