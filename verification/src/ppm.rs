use vstd::prelude::*;

use crate::color::Color;
use crate::texture::Texture;

verus! {

/// ASCII whitespace: space, tab, line feed, form feed and carriage return.
pub open spec fn is_ascii_whitespace(b: u8) -> bool {
    b == 0x20 || b == 0x09 || b == 0x0A || b == 0x0Cu8 || b == 0x0D
}

/// Where the whitespace and `#` comments (which run to the end of their line)
/// that start at `pos` end; `in_comment` says whether `pos` lies inside a comment.
pub open spec fn filler_end(data: Seq<u8>, pos: int, in_comment: bool) -> int
    decreases data.len() - pos,
{
    if pos >= data.len() {
        pos
    } else if in_comment {
        filler_end(data, pos + 1, data[pos] != 0x0A)
    } else if is_ascii_whitespace(data[pos]) {
        filler_end(data, pos + 1, false)
    } else if data[pos] == 0x23 {
        filler_end(data, pos + 1, true)
    } else {
        pos
    }
}

/// Where the run of non-whitespace bytes that starts at `pos` ends.
pub open spec fn token_end(data: Seq<u8>, pos: int) -> int
    decreases data.len() - pos,
{
    if pos < data.len() && !is_ascii_whitespace(data[pos]) {
        token_end(data, pos + 1)
    } else {
        pos
    }
}

/// Start and end of the first token at or after `pos`, once whitespace and
/// comments are skipped.
pub open spec fn token_span(data: Seq<u8>, pos: int) -> (int, int) {
    let start = filler_end(data, pos, false);
    (start, token_end(data, start))
}

/// Start and end of the `n`th token (counting from 0) of a PPM header.
pub open spec fn nth_token_span(data: Seq<u8>, n: nat) -> (int, int)
    decreases n,
{
    if n == 0 {
        token_span(data, 0)
    } else {
        token_span(data, nth_token_span(data, (n - 1) as nat).1)
    }
}

/// The `n`th token (counting from 0) of a PPM header.
pub open spec fn nth_token(data: Seq<u8>, n: nat) -> Seq<u8> {
    data.subrange(nth_token_span(data, n).0, nth_token_span(data, n).1)
}

pub open spec fn is_digit(b: u8) -> bool {
    0x30 <= b <= 0x39
}

/// The number written in decimal by the digits `s`, most significant first.
pub open spec fn decimal_value(s: Seq<u8>) -> nat
    decreases s.len(),
{
    if s.len() == 0 {
        0
    } else {
        decimal_value(s.drop_last()) * 10 + (s.last() - 0x30) as nat
    }
}

/// The digits of an unsigned number, after an optional leading `+`.
pub open spec fn unsigned_digits(t: Seq<u8>) -> Seq<u8> {
    if t.len() > 0 && t[0] == 0x2B {
        t.drop_first()
    } else {
        t
    }
}

/// Whether `t` is an unsigned decimal number that fits in a `usize`: an optional
/// `+`, then at least one digit and nothing else.
pub open spec fn parses_as_usize(t: Seq<u8>) -> bool {
    let d = unsigned_digits(t);
    &&& d.len() > 0
    &&& forall|i: int| 0 <= i < d.len() ==> is_digit(#[trigger] d[i])
    &&& decimal_value(d) <= usize::MAX
}

/// The value of an unsigned decimal number.
pub open spec fn usize_value(t: Seq<u8>) -> nat {
    decimal_value(unsigned_digits(t))
}

/// The magic number of binary PPM files.
pub open spec fn ppm_magic() -> Seq<u8> {
    seq![0x50u8, 0x36u8]
}

/// Why bytes are not a binary PPM image.
#[derive(Debug, PartialEq, Eq)]
pub enum PpmError {
    /// The first token is not `P6`; it is held here.
    BadMagic(Vec<u8>),
    /// The width is not a positive unsigned number.
    BadWidth,
    /// The height is not a positive unsigned number.
    BadHeight,
    /// The maximum channel value is not an unsigned number.
    BadMaxval,
    /// There are fewer pixel bytes than the header announces.
    Truncated,
}

/// What a sequence of bytes reads as, as a binary PPM (P6) image.
pub enum PpmOutcome {
    BadMagic(Seq<u8>),
    BadWidth,
    BadHeight,
    BadMaxval,
    Truncated,
    Image { width: nat, height: nat, pixels: Seq<Color> },
}

/// Where the pixel bytes of a PPM start: one byte past the end of the header's
/// fourth token.
pub open spec fn ppm_data_start(data: Seq<u8>) -> int {
    nth_token_span(data, 3).1 + 1
}

/// The `i`th pixel of the raster that starts at `start`: three bytes, red, green, blue.
pub open spec fn raster_pixel(data: Seq<u8>, start: int, i: int) -> Color {
    Color { r: data[start + 3 * i], g: data[start + 3 * i + 1], b: data[start + 3 * i + 2] }
}

/// A binary PPM: the magic `P6`, the width, the height and the maximum channel
/// value as tokens separated by whitespace and comments, then one byte, then
/// `width * height` pixels of three bytes each; bytes beyond them are ignored.
/// An image without pixels (width or height 0) is refused, as it cannot be sampled.
pub open spec fn ppm_outcome(data: Seq<u8>) -> PpmOutcome {
    if nth_token(data, 0) != ppm_magic() {
        PpmOutcome::BadMagic(nth_token(data, 0))
    } else if !parses_as_usize(nth_token(data, 1)) || usize_value(nth_token(data, 1)) == 0 {
        PpmOutcome::BadWidth
    } else if !parses_as_usize(nth_token(data, 2)) || usize_value(nth_token(data, 2)) == 0 {
        PpmOutcome::BadHeight
    } else if !parses_as_usize(nth_token(data, 3)) {
        PpmOutcome::BadMaxval
    } else {
        let width = usize_value(nth_token(data, 1));
        let height = usize_value(nth_token(data, 2));
        let start = ppm_data_start(data);
        if data.len() < start + width * height * 3 {
            PpmOutcome::Truncated
        } else {
            PpmOutcome::Image {
                width,
                height,
                pixels: Seq::new(width * height, |i: int| raster_pixel(data, start, i)),
            }
        }
    }
}

/// Whether a result of the PPM reader is the outcome `o`.
pub open spec fn result_is(r: &Result<Texture, PpmError>, o: PpmOutcome) -> bool {
    match (r, o) {
        (Err(PpmError::BadMagic(m)), PpmOutcome::BadMagic(t)) => m@ == t,
        (Err(PpmError::BadWidth), PpmOutcome::BadWidth) => true,
        (Err(PpmError::BadHeight), PpmOutcome::BadHeight) => true,
        (Err(PpmError::BadMaxval), PpmOutcome::BadMaxval) => true,
        (Err(PpmError::Truncated), PpmOutcome::Truncated) => true,
        (Ok(t), PpmOutcome::Image { width, height, pixels }) => {
            &&& t.spec_width() == width
            &&& t.spec_height() == height
            &&& t.spec_pixels() == pixels
        },
        _ => false,
    }
}

pub proof fn lemma_filler_end_bounds(data: Seq<u8>, pos: int, in_comment: bool)
    requires
        0 <= pos <= data.len(),
    ensures
        pos <= filler_end(data, pos, in_comment) <= data.len(),
    decreases data.len() - pos,
{
    if pos < data.len() {
        if in_comment {
            lemma_filler_end_bounds(data, pos + 1, data[pos] != 0x0A);
        } else if is_ascii_whitespace(data[pos]) {
            lemma_filler_end_bounds(data, pos + 1, false);
        } else if data[pos] == 0x23 {
            lemma_filler_end_bounds(data, pos + 1, true);
        }
    }
}

pub proof fn lemma_token_end_bounds(data: Seq<u8>, pos: int)
    requires
        0 <= pos <= data.len(),
    ensures
        pos <= token_end(data, pos) <= data.len(),
    decreases data.len() - pos,
{
    if pos < data.len() && !is_ascii_whitespace(data[pos]) {
        lemma_token_end_bounds(data, pos + 1);
    }
}

/// Token spans lie inside the data, in order.
pub proof fn lemma_token_span_bounds(data: Seq<u8>, pos: int)
    requires
        0 <= pos <= data.len(),
    ensures
        pos <= token_span(data, pos).0 <= token_span(data, pos).1 <= data.len(),
{
    lemma_filler_end_bounds(data, pos, false);
    lemma_token_end_bounds(data, filler_end(data, pos, false));
}

/// A header token holds no ASCII whitespace byte (space 0x20, tab 0x09, line
/// feed 0x0A, form feed 0x0C, carriage return 0x0D) and ends at one of them or
/// at the end of the data; it is empty only at the end of the data.
pub proof fn lemma_token_stops_at_whitespace(data: Seq<u8>, pos: int)
    requires
        0 <= pos <= data.len(),
    ensures
        forall|k: int|
            token_span(data, pos).0 <= k < token_span(data, pos).1 ==> {
                let b = #[trigger] data[k];
                b != 0x20 && b != 0x09 && b != 0x0A && b != 0x0C && b != 0x0D
            },
        token_span(data, pos).1 == data.len() || {
            let b = data[token_span(data, pos).1];
            b == 0x20 || b == 0x09 || b == 0x0A || b == 0x0C || b == 0x0D
        },
        token_span(data, pos).0 == token_span(data, pos).1 ==> token_span(data, pos).1 == data.len(),
{
    lemma_token_span_bounds(data, pos);
    let start = filler_end(data, pos, false);
    lemma_token_run(data, start);
    lemma_filler_stops(data, pos, false);
}

proof fn lemma_token_run(data: Seq<u8>, p: int)
    requires
        0 <= p <= data.len(),
    ensures
        forall|k: int| p <= k < token_end(data, p) ==> !is_ascii_whitespace(#[trigger] data[k]),
        token_end(data, p) == data.len() || is_ascii_whitespace(data[token_end(data, p)]),
    decreases data.len() - p,
{
    if p < data.len() && !is_ascii_whitespace(data[p]) {
        lemma_token_run(data, p + 1);
    }
}

proof fn lemma_filler_stops(data: Seq<u8>, p: int, in_comment: bool)
    requires
        0 <= p <= data.len(),
    ensures
        filler_end(data, p, in_comment) == data.len() || !is_ascii_whitespace(
            data[filler_end(data, p, in_comment)],
        ),
    decreases data.len() - p,
{
    if p < data.len() {
        if in_comment {
            lemma_filler_stops(data, p + 1, data[p] != 0x0A);
        } else if is_ascii_whitespace(data[p]) {
            lemma_filler_stops(data, p + 1, false);
        } else if data[p] == 0x23 {
            lemma_filler_stops(data, p + 1, true);
        }
    }
}

/// Every ASCII whitespace byte before a header token is skipped: reading a
/// token from such a byte reads the same token as from the next byte.
pub proof fn lemma_whitespace_is_skipped(data: Seq<u8>, pos: int)
    requires
        0 <= pos < data.len(),
        data[pos] == 0x20 || data[pos] == 0x09 || data[pos] == 0x0A || data[pos] == 0x0C
            || data[pos] == 0x0D,
    ensures
        token_span(data, pos) == token_span(data, pos + 1),
{
}

fn is_space(b: u8) -> (r: bool)
    ensures
        r == is_ascii_whitespace(b),
{
    b == 0x20u8 || b == 0x09u8 || b == 0x0Au8 || b == 0x0Cu8 || b == 0x0Du8
}

/// Reads the next token of a PPM header from `pos`: skips whitespace and `#`
/// comments, then takes the bytes up to the next whitespace; `pos` ends up
/// just past the token.
pub fn read_token(data: &[u8], pos: &mut usize) -> (token: Vec<u8>)
    requires
        *old(pos) <= data@.len(),
    ensures
        *final(pos) as int == token_span(data@, *old(pos) as int).1,
        token@ == data@.subrange(token_span(data@, *old(pos) as int).0, *final(pos) as int),
{
    let ghost start = filler_end(data@, *pos as int, false);
    proof {
        lemma_filler_end_bounds(data@, *pos as int, false);
    }
    loop
        invariant
            *pos <= data@.len(),
            filler_end(data@, *pos as int, false) == start,
        ensures
            *pos as int == start,
        decreases data@.len() - *pos,
    {
        let ghost entry = *pos;
        while *pos < data.len() && is_space(data[*pos])
            invariant
                entry <= *pos <= data@.len(),
                filler_end(data@, *pos as int, false) == start,
            decreases data@.len() - *pos,
        {
            *pos = *pos + 1;
        }
        if *pos < data.len() && data[*pos] == 0x23u8 {
            *pos = *pos + 1;
            while *pos < data.len() && data[*pos] != 0x0Au8
                invariant
                    entry < *pos <= data@.len(),
                    filler_end(data@, *pos as int, true) == start,
                decreases data@.len() - *pos,
            {
                *pos = *pos + 1;
            }
            if *pos < data.len() {
                assert(filler_end(data@, *pos as int, false) == filler_end(
                    data@,
                    *pos as int + 1,
                    false,
                ));
            }
            continue;
        }
        break;
    }
    let mut token: Vec<u8> = Vec::new();
    let ghost first = *pos as int;
    while *pos < data.len() && !is_space(data[*pos])
        invariant
            0 <= first <= *pos <= data@.len(),
            token_end(data@, *pos as int) == token_end(data@, first),
            token@ == data@.subrange(first, *pos as int),
        decreases data@.len() - *pos,
    {
        token.push(data[*pos]);
        *pos = *pos + 1;
        assert(token@ =~= data@.subrange(first, *pos as int));
    }
    token
}

/// Splitting off the last digit: the value of the first `k + 1` digits.
proof fn lemma_decimal_step(s: Seq<u8>, k: int)
    requires
        0 <= k < s.len(),
    ensures
        decimal_value(s.take(k + 1)) == decimal_value(s.take(k)) * 10 + (s[k] - 0x30) as nat,
{
    assert(s.take(k + 1).drop_last() =~= s.take(k));
}

/// A number is at least as large as the number written by its leading digits.
proof fn lemma_decimal_prefix_le(s: Seq<u8>, k: int)
    requires
        0 <= k <= s.len(),
        forall|i: int| 0 <= i < s.len() ==> is_digit(#[trigger] s[i]),
    ensures
        decimal_value(s.take(k)) <= decimal_value(s),
    decreases s.len() - k,
{
    if k < s.len() {
        lemma_decimal_step(s, k);
        lemma_decimal_prefix_le(s, k + 1);
    } else {
        assert(s.take(k) =~= s);
    }
}

/// Parses an unsigned decimal number that fits in a `usize`, with an optional
/// leading `+`; `None` for anything else.
pub fn parse_usize(token: &[u8]) -> (r: Option<usize>)
    ensures
        r == if parses_as_usize(token@) {
            Some(usize_value(token@) as usize)
        } else {
            None::<usize>
        },
{
    let mut i: usize = 0;
    if token.len() > 0 && token[0] == 0x2Bu8 {
        i = 1;
    }
    let ghost digits = unsigned_digits(token@);
    assert(digits =~= token@.subrange(i as int, token@.len() as int));
    if i == token.len() {
        return None;
    }
    let start = i;
    let mut value: usize = 0;
    assert(digits.take(0) =~= Seq::<u8>::empty());
    while i < token.len()
        invariant
            start <= i <= token@.len(),
            digits == token@.subrange(start as int, token@.len() as int),
            digits == unsigned_digits(token@),
            forall|k: int| 0 <= k < i - start ==> is_digit(#[trigger] digits[k]),
            value == decimal_value(digits.take(i - start)),
        decreases token@.len() - i,
    {
        let b = token[i];
        assert(b == digits[i - start]);
        if b < 0x30u8 || b > 0x39u8 {
            assert(!is_digit(digits[i - start]));
            return None;
        }
        proof {
            lemma_decimal_step(digits, i - start);
        }
        let next = match value.checked_mul(10) {
            Some(m) => m.checked_add((b - 0x30u8) as usize),
            None => None,
        };
        match next {
            Some(n) => {
                value = n;
            },
            None => {
                proof {
                    if forall|k: int| 0 <= k < digits.len() ==> is_digit(#[trigger] digits[k]) {
                        lemma_decimal_prefix_le(digits, i - start + 1);
                    }
                }
                return None;
            },
        }
        i = i + 1;
    }
    assert(digits.take(i - start) =~= digits);
    Some(value)
}

/// The decimal digits of `n`, most significant first, without leading zeros.
pub open spec fn decimal_digits(n: nat) -> Seq<u8>
    decreases n,
{
    if n < 10 {
        seq![(0x30 + n) as u8]
    } else {
        decimal_digits(n / 10).push((0x30 + n % 10) as u8)
    }
}

/// Channel `k` (0 red, 1 green, 2 blue) of a color.
pub open spec fn channel(c: Color, k: int) -> u8 {
    if k == 0 {
        c.r
    } else if k == 1 {
        c.g
    } else {
        c.b
    }
}

/// The pixels as red, green, blue bytes, one pixel after the other.
pub open spec fn raster_bytes(pixels: Seq<Color>) -> Seq<u8> {
    Seq::new(pixels.len() * 3, |i: int| channel(pixels[i / 3], i % 3))
}

/// A binary PPM file holding an image: the lines `P6`, `width height` and `255`,
/// then the raster.
pub open spec fn ppm_file(width: nat, height: nat, pixels: Seq<Color>) -> Seq<u8> {
    seq![0x50u8, 0x36u8, 0x0Au8] + decimal_digits(width) + seq![0x20u8] + decimal_digits(height)
        + seq![0x0Au8] + decimal_digits(255) + seq![0x0Au8] + raster_bytes(pixels)
}

/// Writing a number in decimal and reading it back gives the number.
pub proof fn lemma_decimal_digits(n: nat)
    ensures
        decimal_digits(n).len() >= 1,
        forall|i: int| 0 <= i < decimal_digits(n).len() ==> is_digit(#[trigger] decimal_digits(n)[i]),
        decimal_value(decimal_digits(n)) == n,
    decreases n,
{
    if n >= 10 {
        lemma_decimal_digits(n / 10);
        let s = decimal_digits(n / 10);
        let d = (0x30 + n % 10) as u8;
        assert(d as int == 0x30 + n % 10);
        assert(decimal_digits(n) == s.push(d));
        assert(s.push(d).drop_last() =~= s);
        assert(decimal_value(s.push(d)) == decimal_value(s) * 10 + (d - 0x30) as nat);
        assert((n / 10) * 10 + n % 10 == n) by (nonlinear_arith);
        assert forall|i: int| 0 <= i < s.push(d).len() implies is_digit(#[trigger] s.push(d)[i]) by {
            if i < s.len() {
                assert(s.push(d)[i] == s[i]);
            }
        }
    } else {
        let s = decimal_digits(n);
        assert(s[0] as int == 0x30 + n);
        assert(s.drop_last() =~= Seq::<u8>::empty());
        assert(decimal_value(s) == decimal_value(s.drop_last()) * 10 + (s.last() - 0x30) as nat);
    }
}

/// A number written in decimal, with or without a leading `+`, reads back as
/// the number when it fits in a `usize`; a lone `+`, a `-` sign or an empty
/// token is not a number.
pub proof fn lemma_decimal_tokens(n: nat)
    requires
        n <= usize::MAX,
    ensures
        parses_as_usize(decimal_digits(n)),
        usize_value(decimal_digits(n)) == n,
        parses_as_usize(seq![0x2Bu8] + decimal_digits(n)),
        usize_value(seq![0x2Bu8] + decimal_digits(n)) == n,
        !parses_as_usize(seq![0x2Du8] + decimal_digits(n)),
        !parses_as_usize(seq![0x2Bu8]),
        !parses_as_usize(Seq::<u8>::empty()),
{
    lemma_decimal_digits(n);
    let d = decimal_digits(n);
    assert(is_digit(d[0]));
    assert(unsigned_digits(d) == d);
    assert((seq![0x2Bu8] + d).drop_first() =~= d);
    assert(unsigned_digits(seq![0x2Du8] + d) == seq![0x2Du8] + d);
    assert(!is_digit((seq![0x2Du8] + d)[0]));
    assert(unsigned_digits(seq![0x2Bu8]) =~= Seq::<u8>::empty());
}

/// A run of non-whitespace bytes from `p` to `q`, followed by whitespace or by
/// the end of the data, is one token.
proof fn lemma_run_token_end(data: Seq<u8>, p: int, q: int)
    requires
        0 <= p <= q <= data.len(),
        forall|k: int| p <= k < q ==> !is_ascii_whitespace(#[trigger] data[k]),
        q == data.len() || is_ascii_whitespace(data[q]),
    ensures
        token_end(data, p) == q,
    decreases q - p,
{
    if p < q {
        lemma_run_token_end(data, p + 1, q);
    }
}

/// A number written in decimal is a single token that reads back as the number.
proof fn lemma_number_token(data: Seq<u8>, p: int, n: nat)
    requires
        0 <= p,
        p + decimal_digits(n).len() < data.len(),
        data.subrange(p, p + decimal_digits(n).len()) == decimal_digits(n),
        is_ascii_whitespace(data[p + decimal_digits(n).len()]),
        n <= usize::MAX,
    ensures
        filler_end(data, p, false) == p,
        token_end(data, p) == p + decimal_digits(n).len(),
        parses_as_usize(decimal_digits(n)),
        usize_value(decimal_digits(n)) == n,
{
    let s = decimal_digits(n);
    lemma_decimal_digits(n);
    assert(data[p] == s[0]);
    assert(is_digit(s[0]));
    assert forall|k: int| p <= k < p + s.len() implies !is_ascii_whitespace(#[trigger] data[k]) by {
        assert(data[k] == s[k - p]);
        assert(is_digit(s[k - p]));
    }
    lemma_run_token_end(data, p, p + s.len());
    assert(unsigned_digits(s) == s);
}

/// Reading a binary PPM file gives back the image it holds: its width, its
/// height and its pixels.
pub proof fn lemma_ppm_round_trip(width: nat, height: nat, pixels: Seq<Color>)
    requires
        1 <= width <= usize::MAX,
        1 <= height <= usize::MAX,
        pixels.len() == width * height,
    ensures
        ppm_outcome(ppm_file(width, height, pixels)) == (PpmOutcome::Image { width, height, pixels }),
{
    let dw = decimal_digits(width);
    let dh = decimal_digits(height);
    let dm = decimal_digits(255);
    let raster = raster_bytes(pixels);
    let data = ppm_file(width, height, pixels);
    lemma_decimal_digits(width);
    lemma_decimal_digits(height);
    lemma_decimal_digits(255);
    let lw = dw.len() as int;
    let lh = dh.len() as int;
    let lm = dm.len() as int;
    let a = 3 + lw;
    let b = a + 1 + lh;
    let c = b + 1 + lm;
    let header = seq![0x50u8, 0x36u8, 0x0Au8] + dw + seq![0x20u8] + dh + seq![0x0Au8] + dm + seq![
        0x0Au8,
    ];
    assert(data == header + raster);
    assert(header.len() == c + 1);
    assert(data.len() == c + 1 + pixels.len() * 3);
    assert(data.subrange(0, 2) =~= ppm_magic());
    assert(data.subrange(3, a) =~= dw);
    assert(data.subrange(a + 1, b) =~= dh);
    assert(data.subrange(b + 1, c) =~= dm);
    assert(data[2] == 0x0Au8);
    assert(data[a] == 0x20u8);
    assert(data[b] == 0x0Au8);
    assert(data[c] == 0x0Au8);

    // `P6`
    assert(filler_end(data, 0, false) == 0);
    lemma_run_token_end(data, 0, 2);
    assert(nth_token_span(data, 0) == (0int, 2int));
    assert(nth_token(data, 0) == ppm_magic());
    // width
    assert(filler_end(data, 2, false) == filler_end(data, 3, false));
    lemma_number_token(data, 3, width);
    assert(nth_token_span(data, 1) == (3int, a));
    // height
    assert(filler_end(data, a, false) == filler_end(data, a + 1, false));
    lemma_number_token(data, a + 1, height);
    assert(nth_token_span(data, 2) == (a + 1, b));
    // maximum channel value
    assert(filler_end(data, b, false) == filler_end(data, b + 1, false));
    lemma_number_token(data, b + 1, 255);
    assert(nth_token_span(data, 3) == (b + 1, c));
    assert(ppm_data_start(data) == c + 1);

    let image = Seq::new(width * height, |i: int| raster_pixel(data, c + 1, i));
    assert forall|i: int| 0 <= i < pixels.len() implies #[trigger] image[i] == pixels[i] by {
        assert(data[c + 1 + 3 * i] == raster[3 * i]);
        assert(data[c + 1 + 3 * i + 1] == raster[3 * i + 1]);
        assert(data[c + 1 + 3 * i + 2] == raster[3 * i + 2]);
        assert((3 * i) / 3 == i && (3 * i) % 3 == 0);
        assert((3 * i + 1) / 3 == i && (3 * i + 1) % 3 == 1);
        assert((3 * i + 2) / 3 == i && (3 * i + 2) % 3 == 2);
    }
    assert(image =~= pixels);
}

} // verus!
