//! Downsampling a channel in chunks of rows that can be handed to separate threads.

use vstd::prelude::*;
use crate::downsample::{
    doubles_to, rows_fit, rows_result, segment_count, downsample_rows, channel_result,
};

verus! {

/// The rows produced from the first `p` pairs of rows of a chunk; an unpaired last row is
/// paired with itself.
pub open spec fn chunk_result(chunk: Seq<Seq<u16>>, a: nat, b: nat, vertical: bool, p: nat) -> Seq<
    Seq<u16>,
>
    decreases p,
{
    if p == 0 {
        Seq::empty()
    } else {
        let y = 2 * (p - 1);
        let lower = if y + 1 < chunk.len() { chunk[y + 1] } else { chunk[y] };
        let r = rows_result(chunk[y], lower, a, b, vertical, segment_count(chunk[y].len(), a));
        let prev = chunk_result(chunk, a, b, vertical, (p - 1) as nat);
        if !vertical && y + 1 < chunk.len() {
            prev.push(r.0).push(r.1)
        } else {
            prev.push(r.0)
        }
    }
}

/// Number of row pairs in a chunk, the last one possibly unpaired.
pub open spec fn pair_count(n: nat) -> nat {
    (n / 2 + n % 2) as nat
}

/// What [`downsample_chunk`] accepts.
pub open spec fn chunk_ok(chunk: Seq<Seq<u16>>, a: nat, b: nat) -> bool {
    &&& doubles_to(a, b)
    &&& a < usize::MAX
    &&& forall|y: int| 0 <= y < chunk.len() ==> #[trigger] chunk[y].len() + a <= usize::MAX
    &&& forall|y: int| 0 <= y < chunk.len() - 1 ==> rows_fit(#[trigger] chunk[y], chunk[y + 1], a)
}

/// Downsample a chunk of rows, two at a time; an unpaired last row is paired with itself.
pub fn downsample_chunk(chunk: &[Vec<u16>], a: usize, b: usize, downsample_vertical: bool) -> (r: Vec<
    Vec<u16>,
>)
    requires
        chunk_ok(chunk@.map_values(|v: Vec<u16>| v@), a as nat, b as nat),
    ensures
        r@.map_values(|v: Vec<u16>| v@) == chunk_result(
            chunk@.map_values(|v: Vec<u16>| v@),
            a as nat,
            b as nat,
            downsample_vertical,
            pair_count(chunk@.len()),
        ),
{
    let ghost ch = chunk@.map_values(|v: Vec<u16>| v@);
    let mut result: Vec<Vec<u16>> = Vec::with_capacity(chunk.len());
    let mut index: usize = 0;
    let ghost mut pairs: nat = 0;
    while index < chunk.len()
        invariant
            ch == chunk@.map_values(|v: Vec<u16>| v@),
            chunk_ok(ch, a as nat, b as nat),
            index <= chunk@.len(),
            index == 2 * pairs || (index == chunk@.len() && pairs == pair_count(chunk@.len())),
            index < chunk@.len() ==> pairs < pair_count(chunk@.len()),
            result@.map_values(|v: Vec<u16>| v@) == chunk_result(
                ch,
                a as nat,
                b as nat,
                downsample_vertical,
                pairs,
            ),
        decreases chunk.len() - index,
    {
        let upper_row = &chunk[index];
        let lower_row = if index + 1 < chunk.len() {
            &chunk[index + 1]
        } else {
            &chunk[index]
        };
        proof {
            if index + 1 >= chunk.len() {
                let n = upper_row@.len();
                let aa = a as nat;
                if n > 0 {
                    assert(((n - 1) / (aa as int)) * aa <= n - 1) by (nonlinear_arith)
                        requires aa >= 1, n >= 1;
                }
            } else {
                assert(rows_fit(ch[index as int], ch[index + 1], a as nat));
            }
        }
        let (final_row, final_lower_row) = downsample_rows(
            upper_row,
            lower_row,
            a,
            b,
            downsample_vertical,
        );
        result.push(final_row);
        if !downsample_vertical && index + 1 < chunk.len() {
            result.push(final_lower_row);
        }
        proof {
            assert(index == 2 * pairs);
            assert(result@.map_values(|v: Vec<u16>| v@) =~= chunk_result(
                ch,
                a as nat,
                b as nat,
                downsample_vertical,
                pairs + 1,
            ));
            pairs = pairs + 1;
        }
        if index + 1 < chunk.len() {
            index = index + 2;
        } else {
            index = chunk.len();
        }
    }
    result
}

/// Down-sample a color channel of an image, pairing each even row with the row below it
/// (an unpaired last row with itself). The result does not depend on how the rows are
/// split into chunks of even length.
pub fn downsample_channel(channel: &Vec<Vec<u16>>, a: usize, b: usize, downsample_vertical: bool) -> (r:
    Vec<Vec<u16>>)
    requires
        chunk_ok(channel@.map_values(|v: Vec<u16>| v@), a as nat, b as nat),
    ensures
        r@.map_values(|v: Vec<u16>| v@) == chunk_result(
            channel@.map_values(|v: Vec<u16>| v@),
            a as nat,
            b as nat,
            downsample_vertical,
            pair_count(channel@.len()),
        ),
{
    downsample_chunk(channel.as_slice(), a, b, downsample_vertical)
}

/// Splitting rows into chunks changes nothing as long as every chunk but the last has an
/// even number of rows: downsampling the rows joined is downsampling each part and joining.
pub proof fn lemma_chunks_join(x: Seq<Seq<u16>>, y: Seq<Seq<u16>>, a: nat, b: nat, vertical: bool)
    requires
        x.len() % 2 == 0,
    ensures
        chunk_result(x + y, a, b, vertical, pair_count((x + y).len())) == chunk_result(
            x,
            a,
            b,
            vertical,
            pair_count(x.len()),
        ) + chunk_result(y, a, b, vertical, pair_count(y.len())),
{
    lemma_chunks_join_prefix(x, y, a, b, vertical, pair_count(y.len()));
    assert(pair_count((x + y).len()) == pair_count(x.len()) + pair_count(y.len()));
}

/// Downsampling in chunks gives what downsampling the channel pair of rows by pair of rows
/// gives for its whole pairs: the same rows for a channel with an even number of rows; with
/// an odd number, the chunked way adds the rows of the last, unpaired row behind them.
pub proof fn lemma_chunked_matches_paired(ch: Seq<Seq<u16>>, a: nat, b: nat, vertical: bool)
    ensures
        chunk_result(ch, a, b, vertical, ch.len() / 2) == channel_result(
            ch,
            a,
            b,
            vertical,
            ch.len() / 2,
        ),
        ch.len() % 2 == 0 ==> chunk_result(ch, a, b, vertical, pair_count(ch.len()))
            == channel_result(ch, a, b, vertical, ch.len() / 2),
        ch.len() % 2 == 1 ==> chunk_result(ch, a, b, vertical, pair_count(ch.len())).take(
            channel_result(ch, a, b, vertical, ch.len() / 2).len() as int,
        ) == channel_result(ch, a, b, vertical, ch.len() / 2),
{
    lemma_whole_pairs_match(ch, a, b, vertical, ch.len() / 2);
    if ch.len() % 2 == 1 {
        let p = ch.len() / 2;
        assert(pair_count(ch.len()) == p + 1);
        let prev = chunk_result(ch, a, b, vertical, p);
        let whole = chunk_result(ch, a, b, vertical, p + 1);
        assert(whole.take(prev.len() as int) =~= prev);
    }
}

proof fn lemma_whole_pairs_match(ch: Seq<Seq<u16>>, a: nat, b: nat, vertical: bool, p: nat)
    requires
        2 * p <= ch.len(),
    ensures
        chunk_result(ch, a, b, vertical, p) == channel_result(ch, a, b, vertical, p),
    decreases p,
{
    if p > 0 {
        lemma_whole_pairs_match(ch, a, b, vertical, (p - 1) as nat);
    }
}

proof fn lemma_chunks_join_prefix(x: Seq<Seq<u16>>, y: Seq<Seq<u16>>, a: nat, b: nat, vertical: bool, q: nat)
    requires
        x.len() % 2 == 0,
        q <= pair_count(y.len()),
    ensures
        chunk_result(x + y, a, b, vertical, pair_count(x.len()) + q) == chunk_result(
            x,
            a,
            b,
            vertical,
            pair_count(x.len()),
        ) + chunk_result(y, a, b, vertical, q),
    decreases q,
{
    let px = pair_count(x.len());
    if q == 0 {
        lemma_chunk_prefix_stable(x, y, a, b, vertical, px);
        assert(chunk_result(x, a, b, vertical, px) + Seq::empty() =~= chunk_result(x, a, b, vertical, px));
    } else {
        lemma_chunks_join_prefix(x, y, a, b, vertical, (q - 1) as nat);
        let yy = 2 * (q - 1);
        let z = x + y;
        assert(2 * (px + q - 1) == x.len() + yy);
        assert(z[x.len() + yy] == y[yy]);
        if yy + 1 < y.len() {
            assert(z[x.len() + yy + 1] == y[yy + 1]);
        }
        let prev = chunk_result(x, a, b, vertical, px) + chunk_result(y, a, b, vertical, (q - 1) as nat);
        assert(chunk_result(z, a, b, vertical, px + q) =~= chunk_result(x, a, b, vertical, px)
            + chunk_result(y, a, b, vertical, q));
    }
}

proof fn lemma_chunk_prefix_stable(x: Seq<Seq<u16>>, y: Seq<Seq<u16>>, a: nat, b: nat, vertical: bool, p: nat)
    requires
        x.len() % 2 == 0,
        p <= pair_count(x.len()),
    ensures
        chunk_result(x + y, a, b, vertical, p) == chunk_result(x, a, b, vertical, p),
    decreases p,
{
    if p > 0 {
        lemma_chunk_prefix_stable(x, y, a, b, vertical, (p - 1) as nat);
        let yy = 2 * (p - 1);
        assert((x + y)[yy] == x[yy]);
        assert((x + y)[yy + 1] == x[yy + 1]);
    }
}

} // verus!
