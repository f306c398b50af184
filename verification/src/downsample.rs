//! Chroma downsampling: averaging neighbouring samples of a channel, horizontally and,
//! optionally, vertically.

use vstd::prelude::*;

verus! {

/// The rounded-down average of two samples.
pub open spec fn average(a: u16, b: u16) -> u16 {
    ((a + b) / 2) as u16
}

/// Halving a segment: each pair of neighbours becomes its average; an odd last sample is
/// averaged with itself.
pub open spec fn halve(s: Seq<u16>) -> Seq<u16> {
    Seq::new(
        (s.len() / 2 + s.len() % 2) as nat,
        |i: int| average(s[2 * i], s[if 2 * i + 1 < s.len() { 2 * i + 1 } else { 2 * i }]),
    )
}

/// Halving a segment `k` times.
pub open spec fn halve_times(s: Seq<u16>, k: nat) -> Seq<u16>
    decreases k,
{
    if k == 0 { s } else { halve_times(halve(s), (k - 1) as nat) }
}

/// `a` is `b` doubled some number of times (zero included), with `b` positive.
pub open spec fn doubles_to(a: nat, b: nat) -> bool
    decreases a - b,
{
    if b == 0 || b > a {
        false
    } else if b == a {
        true
    } else if 2 * b > a {
        false
    } else {
        doubles_to(a, 2 * b)
    }
}

/// How often `b` is doubled to reach `a`.
pub open spec fn doublings(a: nat, b: nat) -> nat
    decreases a - b,
{
    if b == 0 || b >= a || 2 * b > a {
        0
    } else {
        1 + doublings(a, 2 * b)
    }
}

/// The `length` samples of `row` from `offset` on, the last sample repeated past its end.
pub open spec fn padded_segment(row: Seq<u16>, offset: nat, length: nat) -> Seq<u16> {
    Seq::new(length, |k: int| if offset + k < row.len() { row[offset + k] } else { row[row.len() - 1] })
}

/// The downsampled segment of `row` that starts at `offset`.
pub open spec fn segment_result(row: Seq<u16>, offset: nat, a: nat, b: nat) -> Seq<u16> {
    halve_times(padded_segment(row, offset, a), doublings(a, b))
}

/// Sample-wise averages of two rows of the same length.
pub open spec fn average_rows(u: Seq<u16>, l: Seq<u16>) -> Seq<u16> {
    Seq::new(u.len(), |i: int| average(u[i], l[i]))
}

/// The first `m` downsampled segments of a pair of rows, upper and lower: with vertical
/// downsampling (and `a != b`) both are the averages of the two.
pub open spec fn rows_result(
    row: Seq<u16>,
    row2: Seq<u16>,
    a: nat,
    b: nat,
    vertical: bool,
    m: nat,
) -> (Seq<u16>, Seq<u16>)
    decreases m,
{
    if m == 0 {
        (Seq::empty(), Seq::empty())
    } else {
        let prev = rows_result(row, row2, a, b, vertical, (m - 1) as nat);
        let u = segment_result(row, ((m - 1) * a) as nat, a, b);
        let l = segment_result(row2, ((m - 1) * a) as nat, a, b);
        if vertical && a != b {
            (prev.0 + average_rows(u, l), prev.1 + average_rows(u, l))
        } else {
            (prev.0 + u, prev.1 + l)
        }
    }
}

/// Number of segments of length `a` that cover `n` samples.
pub open spec fn segment_count(n: nat, a: nat) -> nat {
    if a == 0 { 0 } else { (n / a + if n % a == 0 { 0nat } else { 1nat }) as nat }
}

/// The rows [`downsample_channel`] produces from the first `p` pairs of rows.
pub open spec fn channel_result(channel: Seq<Seq<u16>>, a: nat, b: nat, vertical: bool, p: nat) -> Seq<
    Seq<u16>,
>
    decreases p,
{
    if p == 0 {
        Seq::empty()
    } else {
        let y = 2 * (p - 1);
        let r = rows_result(
            channel[y],
            channel[y + 1],
            a,
            b,
            vertical,
            segment_count(channel[y].len(), a),
        );
        if vertical {
            channel_result(channel, a, b, vertical, (p - 1) as nat).push(r.0)
        } else {
            channel_result(channel, a, b, vertical, (p - 1) as nat).push(r.0).push(r.1)
        }
    }
}

/// The lower row is long enough for every segment of the upper one.
pub open spec fn rows_fit(row: Seq<u16>, row2: Seq<u16>, a: nat) -> bool {
    row.len() == 0 || row2.len() > ((row.len() - 1) / (a as int)) * a
}

/// Down-sample a color channel of an image: each pair of rows is downsampled from `a`
/// samples to `b` per segment, and combined into one row when `downsample_vertical` is
/// set. A last, unpaired row is dropped.
pub fn downsample_channel(channel: &Vec<Vec<u16>>, a: usize, b: usize, downsample_vertical: bool) -> (r:
    Vec<Vec<u16>>)
    requires
        channel@.len() >= 1,
        doubles_to(a as nat, b as nat),
        a < usize::MAX,
        forall|y: int| 0 <= y < channel@.len() ==> #[trigger] channel@[y]@.len() + a <= usize::MAX,
        forall|y: int|
            0 <= y < channel@.len() - 1 ==> rows_fit(#[trigger] channel@[y]@, channel@[y + 1]@, a as nat),
    ensures
        r@.map_values(|v: Vec<u16>| v@) == channel_result(
            channel@.map_values(|v: Vec<u16>| v@),
            a as nat,
            b as nat,
            downsample_vertical,
            channel@.len() / 2,
        ),
{
    let ghost ch = channel@.map_values(|v: Vec<u16>| v@);
    let mut final_channel: Vec<Vec<u16>> = Vec::new();
    let mut y: usize = 0;
    while y < channel.len() - 1
        invariant
            channel@.len() >= 1,
            ch == channel@.map_values(|v: Vec<u16>| v@),
            y % 2 == 0,
            y <= channel@.len(),
            doubles_to(a as nat, b as nat),
            a < usize::MAX,
            forall|y: int| 0 <= y < channel@.len() ==> #[trigger] channel@[y]@.len() + a <= usize::MAX,
            forall|k: int|
                0 <= k < channel@.len() - 1 ==> rows_fit(#[trigger] channel@[k]@, channel@[k + 1]@, a as nat),
            final_channel@.map_values(|v: Vec<u16>| v@) == channel_result(
                ch,
                a as nat,
                b as nat,
                downsample_vertical,
                y as nat / 2,
            ),
        decreases channel.len() - y,
    {
        let lower_row = if y + 1 < channel.len() {
            &channel[y + 1]
        } else {
            &channel[y]
        };
        let (final_row, final_lower_row) = downsample_rows(
            &channel[y],
            lower_row,
            a,
            b,
            downsample_vertical,
        );
        let ghost before = final_channel@;
        final_channel.push(final_row);
        if !downsample_vertical && y + 1 < channel.len() {
            final_channel.push(final_lower_row);
        }
        proof {
            assert((y + 2) as nat / 2 == y as nat / 2 + 1);
            assert(final_channel@.map_values(|v: Vec<u16>| v@) =~= channel_result(
                ch,
                a as nat,
                b as nat,
                downsample_vertical,
                (y + 2) as nat / 2,
            ));
        }
        y = y + 2;
    }
    proof {
        assert(y as nat / 2 == channel@.len() / 2);
    }
    return final_channel;
}

/// Down-sample the row and the row below it: segment by segment, `a` samples become `b`;
/// with vertical downsampling (and `a != b`) both results become the averages of the two.
pub fn downsample_rows(row: &Vec<u16>, row2: &Vec<u16>, a: usize, b: usize, downsample_vertical: bool) -> (r:
    (Vec<u16>, Vec<u16>))
    requires
        doubles_to(a as nat, b as nat),
        rows_fit(row@, row2@, a as nat),
        row@.len() + a <= usize::MAX,
        a < usize::MAX,
    ensures
        (r.0@, r.1@) == rows_result(
            row@,
            row2@,
            a as nat,
            b as nat,
            downsample_vertical,
            segment_count(row@.len(), a as nat),
        ),
{
    let mut final_row: Vec<u16> = Vec::new();
    let mut final_lower_row: Vec<u16> = Vec::new();
    let mut x: usize = 0;
    let ghost mut m: nat = 0;
    proof {
        lemma_doubles_pos(a as nat, b as nat);
        if row@.len() > 0 {
            lemma_segment_count(row@.len(), a as nat, 0);
        } else {
            let aa = a as nat;
            assert(0nat / aa == 0 && 0nat % aa == 0) by (nonlinear_arith)
                requires aa >= 1;
        }
    }
    while x < row.len()
        invariant
            doubles_to(a as nat, b as nat),
            a >= 1,
            rows_fit(row@, row2@, a as nat),
            row@.len() + a <= usize::MAX,
            a < usize::MAX,
            x == m * a,
            x < row@.len() ==> m < segment_count(row@.len(), a as nat),
            x >= row@.len() ==> m == segment_count(row@.len(), a as nat),
            x <= row@.len() + a,
            (final_row@, final_lower_row@) == rows_result(
                row@,
                row2@,
                a as nat,
                b as nat,
                downsample_vertical,
                m,
            ),
        decreases row.len() + a - x,
    {
        proof {
            assert(x <= ((row@.len() - 1) / (a as int)) * a) by (nonlinear_arith)
                requires x == m * a, x < row@.len(), a >= 1;
        }
        let upper_row_vec = copy_and_pad(row, x, a);
        let lower_row_vec = copy_and_pad(row2, x, a);

        let mut upper_subresult = downsample_segment_of_row(&upper_row_vec, a, b);
        let mut lower_subresult = downsample_segment_of_row(&lower_row_vec, a, b);

        proof {
            lemma_halve_times_len(upper_row_vec@, lower_row_vec@, doublings(a as nat, b as nat));
        }
        if downsample_vertical && a != b {
            let ghost u = upper_subresult@;
            let ghost l = lower_subresult@;
            let mut i: usize = 0;
            while i < upper_subresult.len()
                invariant
                    u.len() == l.len(),
                    upper_subresult@.len() == u.len(),
                    lower_subresult@.len() == l.len(),
                    i <= u.len(),
                    forall|k: int| 0 <= k < i ==> #[trigger] upper_subresult@[k] == average(u[k], l[k]),
                    forall|k: int| 0 <= k < i ==> #[trigger] lower_subresult@[k] == average(u[k], l[k]),
                    forall|k: int| i <= k < u.len() ==> #[trigger] upper_subresult@[k] == u[k],
                    forall|k: int| i <= k < u.len() ==> #[trigger] lower_subresult@[k] == l[k],
                decreases u.len() - i,
            {
                let vertical_avg = overflow_safe_avg(upper_subresult[i], lower_subresult[i]);
                upper_subresult.set(i, vertical_avg);
                lower_subresult.set(i, vertical_avg);
                i = i + 1;
            }
            proof {
                assert(upper_subresult@ =~= average_rows(u, l));
                assert(lower_subresult@ =~= average_rows(u, l));
            }
        }
        let ghost fr = final_row@;
        let ghost fl = final_lower_row@;
        final_row.append(&mut upper_subresult);
        final_lower_row.append(&mut lower_subresult);
        proof {
            assert(((m + 1 - 1) * a) as nat == x);
            m = m + 1;
            assert(x + a == m * a) by (nonlinear_arith)
                requires x == (m - 1) * a;
            lemma_segment_count(row@.len(), a as nat, m);
        }
        x = x + a;
    }
    return (final_row, final_lower_row);
}

proof fn lemma_doubles_pos(a: nat, b: nat)
    requires
        doubles_to(a, b),
    ensures
        a >= 1,
        b >= 1,
        b <= a,
    decreases a - b,
{
    if b < a {
        lemma_doubles_pos(a, 2 * b);
    }
}

proof fn lemma_segment_count(n: nat, a: nat, m: nat)
    requires
        a >= 1,
        m == 0 ==> n >= 1,
        m >= 1 ==> (m - 1) * a < n,
    ensures
        m * a < n ==> m < segment_count(n, a),
        m * a >= n ==> m == segment_count(n, a),
{
    assert(n == a * (n / a) + n % a && 0 <= n % a < a) by (nonlinear_arith)
        requires a >= 1;
    if m == 0 {
        if n / a == 0 {
            assert(n % a != 0);
        }
        return;
    }
    assert((m - 1) * a + a == m * a) by (nonlinear_arith);
    if m * a < n {
        assert(m <= n / a) by (nonlinear_arith)
            requires m * a < n, a >= 1;
        if m == n / a {
            assert(n % a != 0) by (nonlinear_arith)
                requires m == n / a, m * a < n, n == a * (n / a) + n % a;
        }
    } else {
        assert(n / a == m - 1 || (n / a == m && n % a == 0)) by (nonlinear_arith)
            requires (m - 1) * a < n, m * a >= n, a >= 1;
        if n / a == m - 1 {
            assert(n % a != 0) by (nonlinear_arith)
                requires n / a == m - 1, (m - 1) * a < n, a >= 1;
        }
    }
}

/// Copy the segment of `row` at `offset` with `length` samples, repeating the row's last
/// sample where the segment runs past its end.
pub fn copy_and_pad(row: &Vec<u16>, offset: usize, length: usize) -> (r: Vec<u16>)
    requires
        offset < row@.len(),
        offset + length <= usize::MAX,
    ensures
        r@ == padded_segment(row@, offset as nat, length as nat),
{
    let bound = if offset + length < row.len() {
        offset + length
    } else {
        offset + (row.len() - offset)
    };
    let mut row_vec: Vec<u16> = Vec::with_capacity(length);
    let mut i: usize = offset;
    while i < bound
        invariant
            offset <= i <= bound <= row@.len(),
            bound <= offset + length,
            row_vec@ =~= row@.subrange(offset as int, i as int),
        decreases bound - i,
    {
        row_vec.push(row[i]);
        i = i + 1;
    }
    while row_vec.len() < length
        invariant
            length > 0 ==> row_vec@.len() >= 1,
            row_vec@.len() <= length,
            bound - offset <= row_vec@.len(),
            forall|k: int| 0 <= k < row_vec@.len() ==> #[trigger] row_vec@[k] == padded_segment(row@, offset as nat, length as nat)[k],
            bound == if offset + length < row@.len() { offset + length } else { row@.len() as int },
            offset < row@.len(),
        decreases length - row_vec.len(),
    {
        let last = row_vec[row_vec.len() - 1];
        row_vec.push(last);
    }
    proof {
        assert(row_vec@ =~= padded_segment(row@, offset as nat, length as nat));
    }
    return row_vec;
}

/// Down-sample a segment from `a` to `b` samples by halving it until `b` is doubled to `a`.
pub fn downsample_segment_of_row(row_segment: &[u16], a: usize, b: usize) -> (r: Vec<u16>)
    requires
        doubles_to(a as nat, b as nat),
        row_segment@.len() < usize::MAX,
    ensures
        r@ == halve_times(row_segment@, doublings(a as nat, b as nat)),
{
    let mut subresult: Vec<u16> = Vec::with_capacity(row_segment.len());
    let mut i: usize = 0;
    while i < row_segment.len()
        invariant
            i <= row_segment@.len(),
            subresult@ =~= row_segment@.take(i as int),
        decreases row_segment.len() - i,
    {
        subresult.push(row_segment[i]);
        i = i + 1;
    }
    let mut factor = b;
    let ghost mut done: nat = 0;
    proof {
        assert(row_segment@.take(i as int) =~= row_segment@);
        lemma_doubles_pos(a as nat, b as nat);
    }
    while factor != a
        invariant
            doubles_to(a as nat, factor as nat),
            done + doublings(a as nat, factor as nat) == doublings(a as nat, b as nat),
            subresult@ == halve_times(row_segment@, done),
            subresult@.len() <= row_segment@.len(),
            row_segment@.len() < usize::MAX,
            factor <= a,
        decreases a - factor,
    {
        proof {
            lemma_doubles_pos(a as nat, factor as nat);
            lemma_halve_times_succ(row_segment@, done);
            assert(2 * factor <= a);
        }
        subresult = downsample_vec_by_two(subresult);
        factor *= 2;
        proof {
            done = done + 1;
            lemma_doubles_pos(a as nat, factor as nat);
        }
    }
    return subresult;
}

proof fn lemma_halve_times_len(s: Seq<u16>, t: Seq<u16>, k: nat)
    requires
        s.len() == t.len(),
    ensures
        halve_times(s, k).len() == halve_times(t, k).len(),
    decreases k,
{
    if k > 0 {
        lemma_halve_times_len(halve(s), halve(t), (k - 1) as nat);
    }
}

proof fn lemma_halve_times_succ(s: Seq<u16>, k: nat)
    ensures
        halve_times(s, k + 1) == halve(halve_times(s, k)),
    decreases k,
{
    if k > 0 {
        lemma_halve_times_succ(halve(s), (k - 1) as nat);
        assert(halve_times(s, k + 1) == halve_times(halve(s), k));
        assert(halve_times(s, k) == halve_times(halve(s), (k - 1) as nat));
    } else {
        assert(halve_times(s, 1) == halve_times(halve(s), 0));
    }
}

/// Down-sample the vector to half its size (rounded up): each pair of neighbours becomes
/// its average.
pub fn downsample_vec_by_two(original_vec: Vec<u16>) -> (r: Vec<u16>)
    requires
        original_vec@.len() < usize::MAX,
    ensures
        r@ == halve(original_vec@),
{
    let mut new_vec: Vec<u16> = Vec::new();
    let n = original_vec.len() / 2 + original_vec.len() % 2;
    let mut i: usize = 0;
    while i < n
        invariant
            n == original_vec@.len() / 2 + original_vec@.len() % 2,
            original_vec@.len() < usize::MAX,
            i <= n,
            new_vec@ =~= halve(original_vec@).take(i as int),
        decreases n - i,
    {
        let key = if 2 * i + 1 < original_vec.len() {
            2 * i + 1
        } else {
            2 * i
        };
        new_vec.push(overflow_safe_avg(original_vec[2 * i], original_vec[key]));
        i = i + 1;
    }
    proof {
        assert(halve(original_vec@).take(n as int) =~= halve(original_vec@));
    }
    return new_vec;
}

/// The average of two samples, rounded down, computed without overflow: both halves are
/// added, plus the carry when both are odd.
pub fn overflow_safe_avg(value1: u16, value2: u16) -> (r: u16)
    ensures
        r == average(value1, value2),
        r as int == (value1 + value2) / 2,
{
    let carry: u16 = if value1 % 2 == 1 && value2 % 2 == 1 { 1 } else { 0 };
    let value = value1 / 2 + value2 / 2;
    carry + value
}

} // verus!
