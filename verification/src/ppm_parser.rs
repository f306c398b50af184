//! Reading P3 PPM images: comment lines are dropped, the text is split at whitespace, the
//! header gives width, height and maximal value, and the samples follow pixel by pixel.

use vstd::prelude::*;
use vstd::string::StringExecFns;
use crate::image::{create_image, Image, ImageView, channel_view};

verus! {

/// The position of the first `c` in `text` from position `from` on; the text's length
/// where there is none.
pub open spec fn first_char_from(text: Seq<char>, c: char, from: nat) -> nat
    decreases text.len() - from,
{
    if from >= text.len() {
        text.len()
    } else if text[from as int] == c {
        from
    } else {
        first_char_from(text, c, from + 1)
    }
}

/// The lines of a text as `str::lines` gives them: the text is split after each `\n`, the
/// `\n` is dropped together with a `\r` right before it, and a text that ends with a line
/// ending has no empty last line.
pub open spec fn text_lines(text: Seq<char>) -> Seq<Seq<char>>
    decreases text.len(),
{
    if text.len() == 0 {
        Seq::empty()
    } else {
        let k = first_char_from(text, '\n', 0);
        if k >= text.len() {
            seq![text]
        } else {
            let line = text.take(k as int);
            let line = if k > 0 && line.last() == '\r' {
                line.drop_last()
            } else {
                line
            };
            proof {
                lemma_first_char_bound(text, '\n', 0);
            }
            seq![line] + text_lines(text.skip(k + 1 as int))
        }
    }
}

/// The search stays within the text.
pub proof fn lemma_first_char_bound(text: Seq<char>, c: char, from: nat)
    ensures
        first_char_from(text, c, from) <= text.len() || from > text.len(),
        first_char_from(text, c, from) >= from || from >= text.len(),
    decreases text.len() - from,
{
    if from < text.len() && text[from as int] != c {
        lemma_first_char_bound(text, c, from + 1);
    }
}

/// Whether `c` has the Unicode property White_Space, which `\s` matches in the `regex`
/// crate.
pub open spec fn is_white_space(c: char) -> bool {
    let v = c as u32;
    (0x09 <= v <= 0x0d) || v == 0x20 || v == 0x85 || v == 0xa0 || v == 0x1680 || (0x2000 <= v
        <= 0x200a) || v == 0x2028 || v == 0x2029 || v == 0x202f || v == 0x205f || v == 0x3000
}

/// The position of the first character from `from` on that is (or, with `white` false,
/// is not) white space; the text's length where there is none.
pub open spec fn first_space_from(text: Seq<char>, white: bool, from: nat) -> nat
    decreases text.len() - from,
{
    if from >= text.len() {
        text.len()
    } else if is_white_space(text[from as int]) == white {
        from
    } else {
        first_space_from(text, white, from + 1)
    }
}

/// The search stays within the text.
pub proof fn lemma_first_space_bound(text: Seq<char>, white: bool, from: nat)
    ensures
        from <= text.len() ==> from <= first_space_from(text, white, from) <= text.len(),
        first_space_from(text, white, from) < text.len() ==> is_white_space(
            text[first_space_from(text, white, from) as int],
        ) == white,
    decreases text.len() - from,
{
    if from < text.len() && is_white_space(text[from as int]) != white {
        lemma_first_space_bound(text, white, from + 1);
    }
}

/// The pieces of a text between the matches of the regular expression `\s+`, that is
/// between the maximal runs of white space: a text that starts (or ends) with white space
/// has an empty first (or last) piece, and the empty text is one empty piece.
pub open spec fn whitespace_split(text: Seq<char>) -> Seq<Seq<char>>
    decreases text.len(),
{
    let k = first_space_from(text, true, 0);
    if k >= text.len() {
        seq![text]
    } else {
        let j = first_space_from(text, false, k);
        proof {
            lemma_first_space_bound(text, true, 0);
            lemma_first_space_bound(text, false, k);
        }
        seq![text.take(k as int)] + whitespace_split(text.skip(j as int))
    }
}

/// `str::lines`: the lines of `text`, without their line endings.
#[verifier::external_body]
fn lines_of(text: &str) -> (r: Vec<String>)
    ensures
        r@.map_values(|s: String| s@) == text_lines(text@),
{
    text.lines().map(|line| line.to_string()).collect()
}

/// `regex::Regex::split` with the pattern `\s+`: the pieces of `text` between runs of
/// whitespace (an empty first piece where the text starts with whitespace, an empty last
/// one where it ends with it).
#[verifier::external_body]
fn split_on_whitespace(text: &str) -> (r: Vec<String>)
    ensures
        r@.map_values(|s: String| s@) == whitespace_split(text@),
{
    regex::Regex::new(r"\s+").unwrap().split(text).map(|piece| piece.to_string()).collect()
}

/// Why a PPM text could not be read.
#[derive(Debug, PartialEq)]
pub enum PpmError {
    /// The first token is not `P3`.
    UnsupportedFormat,
    /// Width, height or maximal value is missing or not a number of its type.
    MalformedHeader,
    /// A sample is missing or not a number.
    MalformedValue,
}

/// The lines that are not comments (lines starting with `#`), joined with single spaces.
pub open spec fn joined_without_comments(lines: Seq<Seq<char>>) -> Seq<char>
    decreases lines.len(),
{
    if lines.len() == 0 {
        Seq::empty()
    } else {
        let prev = joined_without_comments(lines.drop_last());
        let line = lines.last();
        if line.len() > 0 && line[0] == '#' {
            prev
        } else if kept_lines(lines.drop_last()) == 0 {
            line
        } else {
            prev + seq![' '] + line
        }
    }
}

/// The number of lines that are not comments.
pub open spec fn kept_lines(lines: Seq<Seq<char>>) -> nat
    decreases lines.len(),
{
    if lines.len() == 0 {
        0
    } else {
        kept_lines(lines.drop_last()) + if lines.last().len() > 0 && lines.last()[0] == '#' {
            0nat
        } else {
            1nat
        }
    }
}

proof fn lemma_nothing_kept(lines: Seq<Seq<char>>)
    requires
        kept_lines(lines) == 0,
    ensures
        joined_without_comments(lines) == Seq::<char>::empty(),
    decreases lines.len(),
{
    if lines.len() > 0 {
        lemma_nothing_kept(lines.drop_last());
    }
}

/// The text with its comment lines dropped and its lines joined with spaces.
pub fn strip_comments(text: &str) -> (r: String)
    ensures
        r@ == joined_without_comments(text_lines(text@)),
{
    let lines = lines_of(text);
    let ghost ls = lines@.map_values(|s: String| s@);
    let mut result = String::new();
    let mut kept: usize = 0;
    let mut i: usize = 0;
    while i < lines.len()
        invariant
            i <= lines.len(),
            ls == lines@.map_values(|s: String| s@),
            result@ == joined_without_comments(ls.take(i as int)),
            kept as nat == kept_lines(ls.take(i as int)),
            kept <= i,
        decreases lines.len() - i,
    {
        let line = &lines[i];
        proof {
            assert(ls.take(i + 1).drop_last() =~= ls.take(i as int));
            assert(ls.take(i + 1).last() == line@);
        }
        let is_comment = line.as_str().unicode_len() > 0 && line.as_str().get_char(0) == '#';
        proof {
            reveal_strlit(" ");
            assert(" "@ =~= seq![' ']);
        }
        let ghost before = result@;
        if !is_comment {
            if kept > 0 {
                result.append(" ");
            }
            result.append(line.as_str());
            kept += 1;
            proof {
                if kept > 1 {
                    assert(result@ =~= before + seq![' '] + line@);
                } else {
                    assert(result@ =~= before + line@);
                    assert(before =~= Seq::<char>::empty()) by {
                        lemma_nothing_kept(ls.take(i as int));
                    }
                }
            }
        }
        i += 1;
    }
    proof {
        assert(ls.take(i as int) =~= ls);
    }
    result
}

/// The value of a sequence of decimal digits.
pub open spec fn decimal_value(digits: Seq<char>) -> nat
    decreases digits.len(),
{
    if digits.len() == 0 {
        0
    } else {
        10 * decimal_value(digits.drop_last()) + ((digits.last() as nat) - ('0' as nat)) as nat
    }
}

/// Every character is an ASCII digit.
pub open spec fn all_digits(s: Seq<char>) -> bool {
    forall|i: int| 0 <= i < s.len() ==> '0' <= #[trigger] s[i] <= '9'
}

/// The number an unsigned integer type parses from `s` (an optional `+`, then at least one
/// decimal digit), where it is at most `max`.
pub open spec fn parsed_unsigned(s: Seq<char>, max: nat) -> Option<nat> {
    let digits = if s.len() > 0 && s[0] == '+' {
        s.skip(1)
    } else {
        s
    };
    if digits.len() == 0 || !all_digits(digits) || decimal_value(digits) > max {
        None
    } else {
        Some(decimal_value(digits))
    }
}

/// Parse an unsigned decimal number of at most `max`, as `str::parse` does for unsigned
/// integer types.
pub fn parse_unsigned(s: &str, max: u64) -> (r: Option<u64>)
    ensures
        r matches Some(v) ==> parsed_unsigned(s@, max as nat) == Some(v as nat),
        r is None ==> parsed_unsigned(s@, max as nat) is None,
{
    let n = s.unicode_len();
    let mut start: usize = 0;
    if n > 0 && s.get_char(0) == '+' {
        start = 1;
    }
    let ghost digits = if s@.len() > 0 && s@[0] == '+' {
        s@.skip(1)
    } else {
        s@
    };
    assert(digits =~= s@.skip(start as int));
    if start == n {
        return None;
    }
    let mut value: u64 = 0;
    let mut i: usize = start;
    while i < n
        invariant
            start <= i <= n,
            n == s@.len(),
            digits == s@.skip(start as int),
            digits == (if s@.len() > 0 && s@[0] == '+' {
                s@.skip(1)
            } else {
                s@
            }),
            all_digits(digits.take(i - start)),
            value as nat == decimal_value(digits.take(i - start)),
            value <= max,
        decreases n - i,
    {
        let c = s.get_char(i);
        proof {
            assert(digits.take(i - start + 1).drop_last() =~= digits.take(i - start));
            assert(digits.take(i - start + 1).last() == c);
        }
        if c < '0' || c > '9' {
            proof {
                assert(!all_digits(digits)) by {
                    assert(digits[i - start] == c);
                }
            }
            return None;
        }
        let d = (c as u32 - '0' as u32) as u64;
        if d > max || value > (max - d) / 10 {
            proof {
                assert(all_digits(digits.take(i - start + 1)));
                lemma_decimal_prefix(digits, (i - start + 1) as nat);
                assert(decimal_value(digits.take(i - start + 1)) > max) by (nonlinear_arith)
                    requires
                        decimal_value(digits.take(i - start + 1)) == 10 * value + d,
                        d > max || value > (max - d) / 10,
                        d <= 9;
                assert(all_digits(digits) ==> decimal_value(digits) > max);
            }
            return None;
        }
        value = value * 10 + d;
        proof {
            assert(all_digits(digits.take(i - start + 1)));
        }
        i += 1;
    }
    proof {
        assert(digits.take(n - start) =~= digits);
    }
    Some(value)
}

/// A number's value only grows with further digits.
proof fn lemma_decimal_prefix(digits: Seq<char>, k: nat)
    requires
        k <= digits.len(),
    ensures
        decimal_value(digits.take(k as int)) <= decimal_value(digits),
    decreases digits.len(),
{
    if k < digits.len() {
        lemma_decimal_prefix(digits.drop_last(), k);
        assert(digits.drop_last().take(k as int) =~= digits.take(k as int));
    } else {
        assert(digits.take(k as int) =~= digits);
    }
}

} // verus!

verus! {

/// The tokens of a PPM text: the whitespace-separated pieces of its non-comment lines.
pub open spec fn ppm_tokens(text: Seq<char>) -> Seq<Seq<char>> {
    whitespace_split(joined_without_comments(text_lines(text)))
}

/// The text of each token.
pub open spec fn token_views(tokens: Seq<String>) -> Seq<Seq<char>> {
    tokens.map_values(|s: String| s@)
}

/// The first token names the supported format, P3.
pub open spec fn is_p3(tokens: Seq<Seq<char>>) -> bool {
    tokens.len() > 0 && tokens[0] == seq!['P', '3']
}

/// The header tokens after the format: width and height (each a `usize`) and the maximal
/// sample value (a `u16`).
pub open spec fn header_ok(tokens: Seq<Seq<char>>) -> bool {
    &&& tokens.len() >= 4
    &&& parsed_unsigned(tokens[1], usize::MAX as nat) is Some
    &&& parsed_unsigned(tokens[2], usize::MAX as nat) is Some
    &&& parsed_unsigned(tokens[3], u16::MAX as nat) is Some
}

/// The position among the tokens of the first sample of the pixel in row `i`, column `j`.
pub open spec fn sample_index(width: nat, i: nat, j: nat) -> nat {
    4 + width * 3 * i + 3 * j
}

/// The three samples of the pixel in row `i`, column `j` have tokens, and `scale` gives
/// `v1`, `v2`, `v3` for them.
pub open spec fn pixel_from<F: Fn(&String, u16) -> Option<u16>>(
    tokens: Seq<String>,
    width: nat,
    max: u16,
    scale: F,
    i: nat,
    j: nat,
    v1: u16,
    v2: u16,
    v3: u16,
) -> bool {
    let k = sample_index(width, i, j) as int;
    &&& k + 2 < tokens.len()
    &&& call_ensures(scale, (&tokens[k], max), Some(v1))
    &&& call_ensures(scale, (&tokens[k + 1], max), Some(v2))
    &&& call_ensures(scale, (&tokens[k + 2], max), Some(v3))
}

/// Row `i` of the three channels holds `width` samples each, read as [`pixel_from`] says.
pub open spec fn row_from<F: Fn(&String, u16) -> Option<u16>>(
    tokens: Seq<String>,
    width: nat,
    max: u16,
    scale: F,
    i: nat,
    r1: Seq<u16>,
    r2: Seq<u16>,
    r3: Seq<u16>,
) -> bool {
    &&& r1.len() == width
    &&& r2.len() == width
    &&& r3.len() == width
    &&& forall|j: int|
        0 <= j < width ==> #[trigger] pixel_from(tokens, width, max, scale, i, j as nat, r1[j], r2[j], r3[j])
}

/// Every sample of an image read from `tokens`: sample `c` of the pixel in row `i`, column
/// `j` is what `scale` gives for its token and the maximal value.
pub open spec fn samples_from<F: Fn(&String, u16) -> Option<u16>>(
    tokens: Seq<String>,
    image: ImageView,
    height: nat,
    width: nat,
    max: u16,
    scale: F,
) -> bool {
    &&& image.channel1.len() == height
    &&& image.channel2.len() == height
    &&& image.channel3.len() == height
    &&& forall|i: int|
        0 <= i < height ==> #[trigger] row_from(
            tokens,
            width,
            max,
            scale,
            i as nat,
            image.channel1[i],
            image.channel2[i],
            image.channel3[i],
        )
}

/// Sample `c` of the pixel in row `i`, column `j` has no token, or `scale` gives nothing
/// for its token.
pub open spec fn sample_fails<F: Fn(&String, u16) -> Option<u16>>(
    tokens: Seq<String>,
    width: nat,
    max: u16,
    scale: F,
    i: nat,
    j: nat,
    c: nat,
) -> bool {
    let k = sample_index(width, i, j) + c;
    k >= tokens.len() || call_ensures(scale, (&tokens[k as int], max), None)
}

/// Read an image from the tokens of a P3 PPM text: `P3`, width, height, maximal value,
/// then red, green and blue of each pixel, row by row. `scale` turns a sample token into a
/// 16-bit value for the given maximal value, `None` where the token is not a number.
pub fn read_ppm_from_tokens<F: Fn(&String, u16) -> Option<u16>>(tokens: &Vec<String>, scale: F) -> (r:
    Result<Image, PpmError>)
    requires
        forall|t: &String, m: u16| call_requires(scale, (t, m)),
    ensures
        ({
            let ts = tokens@.map_values(|s: String| s@);
            &&& !is_p3(ts) <==> r == Err::<Image, PpmError>(PpmError::UnsupportedFormat)
            &&& (is_p3(ts) && !header_ok(ts)) <==> r == Err::<Image, PpmError>(
                PpmError::MalformedHeader,
            )
            &&& r matches Ok(image) ==> {
                let width = parsed_unsigned(ts[1], usize::MAX as nat).unwrap();
                let height = parsed_unsigned(ts[2], usize::MAX as nat).unwrap();
                let max = parsed_unsigned(ts[3], u16::MAX as nat).unwrap() as u16;
                &&& is_p3(ts) && header_ok(ts)
                &&& image@.height == height as u16
                &&& image@.width == width as u16
                &&& image@.y_downsample_factor == 1
                &&& image@.cb_downsample_factor == 1
                &&& image@.cr_downsample_factor == 1
                &&& !image@.downsampled_vertically
                &&& samples_from(tokens@, image@, height, width, max, scale)
            }
            &&& r == Err::<Image, PpmError>(PpmError::MalformedValue) ==> {
                let width = parsed_unsigned(ts[1], usize::MAX as nat).unwrap();
                let height = parsed_unsigned(ts[2], usize::MAX as nat).unwrap();
                let max = parsed_unsigned(ts[3], u16::MAX as nat).unwrap() as u16;
                &&& is_p3(ts) && header_ok(ts)
                &&& exists|i: nat, j: nat, c: nat|
                    i < height && j < width && c < 3 && #[trigger] sample_fails(
                        tokens@,
                        width,
                        max,
                        scale,
                        i,
                        j,
                        c,
                    )
            }
        }),
{
    let ghost ts = tokens@.map_values(|s: String| s@);
    proof {
        reveal_strlit("P3");
    }
    if tokens.len() == 0 {
        return Err(PpmError::UnsupportedFormat);
    }
    let first = tokens[0].as_str();
    let is_format = first.unicode_len() == 2 && first.get_char(0) == 'P' && first.get_char(1) == '3';
    proof {
        assert(ts[0] == first@);
        if is_format {
            assert(first@ =~= seq!['P', '3']);
        }
    }
    if !is_format {
        return Err(PpmError::UnsupportedFormat);
    }
    if tokens.len() < 4 {
        return Err(PpmError::MalformedHeader);
    }
    assert(ts[1] == tokens@[1]@ && ts[2] == tokens@[2]@ && ts[3] == tokens@[3]@);
    let width = match parse_unsigned(tokens[1].as_str(), usize::MAX as u64) {
        Some(v) => v as usize,
        None => return Err(PpmError::MalformedHeader),
    };
    let height = match parse_unsigned(tokens[2].as_str(), usize::MAX as u64) {
        Some(v) => v as usize,
        None => return Err(PpmError::MalformedHeader),
    };
    let max_value = match parse_unsigned(tokens[3].as_str(), u16::MAX as u64) {
        Some(v) => v as u16,
        None => return Err(PpmError::MalformedHeader),
    };
    let mut c1: Vec<Vec<u16>> = Vec::new();
    let mut c2: Vec<Vec<u16>> = Vec::new();
    let mut c3: Vec<Vec<u16>> = Vec::new();
    let mut i: usize = 0;
    while i < height
        invariant
            i <= height,
            ts == tokens@.map_values(|s: String| s@),
            is_p3(ts) && header_ok(ts),
            height as nat == parsed_unsigned(ts[2], usize::MAX as nat).unwrap(),
            width as nat == parsed_unsigned(ts[1], usize::MAX as nat).unwrap(),
            max_value == parsed_unsigned(ts[3], u16::MAX as nat).unwrap() as u16,
            forall|t: &String, m: u16| call_requires(scale, (t, m)),
            c1.len() == i && c2.len() == i && c3.len() == i,
            forall|r: int|
                0 <= r < i ==> #[trigger] row_from(
                    tokens@,
                    width as nat,
                    max_value,
                    scale,
                    r as nat,
                    c1@[r]@,
                    c2@[r]@,
                    c3@[r]@,
                ),
        decreases height - i,
    {
        let mut r1: Vec<u16> = Vec::new();
        let mut r2: Vec<u16> = Vec::new();
        let mut r3: Vec<u16> = Vec::new();
        let mut j: usize = 0;
        while j < width
            invariant
                i < height,
                j <= width,
                ts == tokens@.map_values(|s: String| s@),
                is_p3(ts) && header_ok(ts),
                height as nat == parsed_unsigned(ts[2], usize::MAX as nat).unwrap(),
                width as nat == parsed_unsigned(ts[1], usize::MAX as nat).unwrap(),
                max_value == parsed_unsigned(ts[3], u16::MAX as nat).unwrap() as u16,
                forall|t: &String, m: u16| call_requires(scale, (t, m)),
                r1.len() == j && r2.len() == j && r3.len() == j,
                forall|q: int|
                    0 <= q < j ==> #[trigger] pixel_from(
                        tokens@,
                        width as nat,
                        max_value,
                        scale,
                        i as nat,
                        q as nat,
                        r1@[q],
                        r2@[q],
                        r3@[q],
                    ),
            decreases width - j,
        {
            let index = match sample_position(width, i, j, tokens.len()) {
                Some(k) => k,
                None => {
                    proof {
                        let k = sample_index(width as nat, i as nat, j as nat);
                        if k + 2 < tokens@.len() {
                            assert(sample_fails(tokens@, width as nat, max_value, scale, i as nat, (width - 1) as nat, 2));
                        } else if k >= tokens@.len() {
                            assert(sample_fails(tokens@, width as nat, max_value, scale, i as nat, j as nat, 0));
                        } else if k + 1 >= tokens@.len() {
                            assert(sample_fails(tokens@, width as nat, max_value, scale, i as nat, j as nat, 1));
                        } else {
                            assert(sample_fails(tokens@, width as nat, max_value, scale, i as nat, j as nat, 2));
                        }
                    }
                    return Err(PpmError::MalformedValue);
                },
            };
            let v1 = match scale(&tokens[index], max_value) {
                Some(v) => v,
                None => {
                    proof {
                        assert(sample_fails(tokens@, width as nat, max_value, scale, i as nat, j as nat, 0));
                    }
                    return Err(PpmError::MalformedValue);
                },
            };
            let v2 = match scale(&tokens[index + 1], max_value) {
                Some(v) => v,
                None => {
                    proof {
                        assert(sample_fails(tokens@, width as nat, max_value, scale, i as nat, j as nat, 1));
                    }
                    return Err(PpmError::MalformedValue);
                },
            };
            let v3 = match scale(&tokens[index + 2], max_value) {
                Some(v) => v,
                None => {
                    proof {
                        assert(sample_fails(tokens@, width as nat, max_value, scale, i as nat, j as nat, 2));
                    }
                    return Err(PpmError::MalformedValue);
                },
            };
            r1.push(v1);
            r2.push(v2);
            r3.push(v3);
            j += 1;
        }
        let ghost g1 = r1@;
        let ghost g2 = r2@;
        let ghost g3 = r3@;
        let ghost o1 = c1@;
        let ghost o2 = c2@;
        let ghost o3 = c3@;
        c1.push(r1);
        c2.push(r2);
        c3.push(r3);
        proof {
            assert(c1@[i as int]@ == g1 && c2@[i as int]@ == g2 && c3@[i as int]@ == g3);
            assert(row_from(tokens@, width as nat, max_value, scale, i as nat, g1, g2, g3));
            assert forall|r: int| 0 <= r < i + 1 implies #[trigger] row_from(
                tokens@,
                width as nat,
                max_value,
                scale,
                r as nat,
                c1@[r]@,
                c2@[r]@,
                c3@[r]@,
            ) by {
                if r < i {
                    assert(c1@[r] == o1[r] && c2@[r] == o2[r] && c3@[r] == o3[r]);
                    assert(row_from(tokens@, width as nat, max_value, scale, r as nat, o1[r]@, o2[r]@, o3[r]@));
                }
            }
        }
        i += 1;
    }
    let ghost f1 = c1@;
    let ghost f2 = c2@;
    let ghost f3 = c3@;
    let image = create_image(
        #[verifier::truncate] (height as u16),
        #[verifier::truncate] (width as u16),
        c1,
        c2,
        c3,
    );
    proof {
        assert forall|r: int| 0 <= r < height implies #[trigger] row_from(
            tokens@,
            width as nat,
            max_value,
            scale,
            r as nat,
            image@.channel1[r],
            image@.channel2[r],
            image@.channel3[r],
        ) by {
            assert(image@.channel1[r] == f1[r]@ && image@.channel2[r] == f2[r]@ && image@.channel3[r] == f3[r]@);
            assert(row_from(tokens@, width as nat, max_value, scale, r as nat, f1[r]@, f2[r]@, f3[r]@));
        }
    }
    Ok(image)
}

/// The position of the first sample of the pixel in row `i`, column `j`, where it and the
/// two samples after it lie among `len` tokens. `None` where they do not, or where the
/// last pixel of the row would lie beyond them.
fn sample_position(width: usize, i: usize, j: usize, len: usize) -> (r: Option<usize>)
    requires
        j < width,
    ensures
        r matches Some(k) ==> k == sample_index(width as nat, i as nat, j as nat) && k + 2 < len,
        r is None ==> sample_index(width as nat, i as nat, j as nat) + 2 >= len || sample_index(
            width as nat,
            i as nat,
            (width - 1) as nat,
        ) + 2 >= len,
{
    proof {
        assert(width * 3 * i >= 0) by (nonlinear_arith);
    }
    let w3 = match width.checked_mul(3) {
        Some(v) => v,
        None => return None,
    };
    let row = match w3.checked_mul(i) {
        Some(v) => v,
        None => return None,
    };
    assert(row == width * 3 * i);
    let a = match row.checked_add(4) {
        Some(v) => v,
        None => return None,
    };
    let j3 = match j.checked_mul(3) {
        Some(v) => v,
        None => return None,
    };
    let k = match a.checked_add(j3) {
        Some(v) => v,
        None => return None,
    };
    if k < len && len - k > 2 {
        Some(k)
    } else {
        None
    }
}

/// Read an image from the text of a P3 PPM file; see [`read_ppm_from_tokens`], applied to
/// the tokens of the text.
pub fn read_ppm_from_text<F: Fn(&String, u16) -> Option<u16>>(text: &str, scale: F) -> (r: Result<Image, PpmError>)
    requires
        forall|t: &String, m: u16| call_requires(scale, (t, m)),
    ensures
        ({
            let ts = ppm_tokens(text@);
            &&& !is_p3(ts) <==> r == Err::<Image, PpmError>(PpmError::UnsupportedFormat)
            &&& (is_p3(ts) && !header_ok(ts)) <==> r == Err::<Image, PpmError>(
                PpmError::MalformedHeader,
            )
            &&& r matches Ok(image) ==> {
                let width = parsed_unsigned(ts[1], usize::MAX as nat).unwrap();
                let height = parsed_unsigned(ts[2], usize::MAX as nat).unwrap();
                let max = parsed_unsigned(ts[3], u16::MAX as nat).unwrap() as u16;
                &&& is_p3(ts) && header_ok(ts)
                &&& image@.height == height as u16
                &&& image@.width == width as u16
                &&& image@.y_downsample_factor == 1
                &&& image@.cb_downsample_factor == 1
                &&& image@.cr_downsample_factor == 1
                &&& !image@.downsampled_vertically
                &&& exists|tokens: Seq<String>|
                    #[trigger] token_views(tokens) == ts && samples_from(
                        tokens,
                        image@,
                        height,
                        width,
                        max,
                        scale,
                    )
            }
            &&& r == Err::<Image, PpmError>(PpmError::MalformedValue) ==> {
                let width = parsed_unsigned(ts[1], usize::MAX as nat).unwrap();
                let height = parsed_unsigned(ts[2], usize::MAX as nat).unwrap();
                let max = parsed_unsigned(ts[3], u16::MAX as nat).unwrap() as u16;
                &&& is_p3(ts) && header_ok(ts)
                &&& exists|tokens: Seq<String>|
                    #[trigger] token_views(tokens) == ts && exists|i: nat, j: nat, c: nat|
                        i < height && j < width && c < 3 && #[trigger] sample_fails(
                            tokens,
                            width,
                            max,
                            scale,
                            i,
                            j,
                            c,
                        )
            }
        }),
{
    let joined = strip_comments(text);
    let tokens = split_on_whitespace(joined.as_str());
    let r = read_ppm_from_tokens(&tokens, scale);
    proof {
        assert(token_views(tokens@) == tokens@.map_values(|s: String| s@));
    }
    r
}

} // verus!
