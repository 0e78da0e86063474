use vstd::prelude::*;

use itertools::Itertools;

verus! {

/// A pixel quantized to one byte per channel.
#[derive(Clone, Copy, Debug, PartialEq, Eq, Structural)]
pub struct Rgb {
    pub r: u8,
    pub g: u8,
    pub b: u8,
}

/// The ASCII decimal digits of `n`, without leading zeros.
pub open spec fn decimal(n: nat) -> Seq<u8>
    decreases n,
{
    if n < 10 {
        seq![(48 + n) as u8]
    } else {
        decimal(n / 10).push((48 + n % 10) as u8)
    }
}

/// One pixel's line: its three channels in decimal, parted by spaces.
pub open spec fn pixel_text(c: Rgb) -> Seq<u8> {
    decimal(c.r as nat) + seq![32u8] + decimal(c.g as nat) + seq![32u8] + decimal(c.b as nat)
        + seq![10u8]
}

/// The header of a plain-text RGB image: `P3`, the width and height, and the
/// largest channel value 255, each on a line of its own.
pub open spec fn header_text(width: u32, height: u32) -> Seq<u8> {
    seq![80u8, 51u8, 10u8] + decimal(width as nat) + seq![32u8] + decimal(height as nat) + seq![
        10u8,
        50u8,
        53u8,
        53u8,
        10u8,
    ]
}

/// The lines of the pixels, one after another.
pub open spec fn body_text(pixels: Seq<Rgb>) -> Seq<u8>
    decreases pixels.len(),
{
    if pixels.len() == 0 {
        Seq::empty()
    } else {
        body_text(pixels.drop_last()) + pixel_text(pixels.last())
    }
}

/// Appends the decimal digits of `n`.
fn push_decimal(out: &mut Vec<u8>, n: u32)
    ensures
        final(out)@ == old(out)@ + decimal(n as nat),
    decreases n,
{
    if n >= 10 {
        push_decimal(out, n / 10);
    }
    let d: u8 = (n % 10) as u8;
    out.push(48 + d);
    assert(out@ =~= old(out)@ + decimal(n as nat));
}

/// The line of one pixel: `"R G B\n"`, each channel in decimal.
pub fn pixel_line(c: &Rgb) -> (r: Vec<u8>)
    ensures
        r@ == pixel_text(*c),
{
    let mut out: Vec<u8> = Vec::new();
    push_decimal(&mut out, c.r as u32);
    out.push(32);
    push_decimal(&mut out, c.g as u32);
    out.push(32);
    push_decimal(&mut out, c.b as u32);
    out.push(10);
    assert(out@ =~= pixel_text(*c));
    out
}

/// The plain-text image of `width` by `height` pixels given in row-major
/// order: the header, then one line per pixel.
pub fn encode_ppm(width: u32, height: u32, pixels: &Vec<Rgb>) -> (r: Vec<u8>)
    requires
        pixels@.len() == width * height,
    ensures
        r@ == header_text(width, height) + body_text(pixels@),
{
    let mut out: Vec<u8> = Vec::new();
    out.push(80);
    out.push(51);
    out.push(10);
    push_decimal(&mut out, width);
    out.push(32);
    push_decimal(&mut out, height);
    out.push(10);
    out.push(50);
    out.push(53);
    out.push(53);
    out.push(10);
    assert(out@ =~= header_text(width, height));
    let mut i: usize = 0;
    while i < pixels.len()
        invariant
            i <= pixels@.len(),
            out@ == header_text(width, height) + body_text(pixels@.subrange(0, i as int)),
        decreases pixels.len() - i,
    {
        let line = pixel_line(&pixels[i]);
        let ghost before = out@;
        let mut k: usize = 0;
        while k < line.len()
            invariant
                k <= line@.len(),
                out@ == before + line@.subrange(0, k as int),
            decreases line.len() - k,
        {
            out.push(line[k]);
            k = k + 1;
            assert(out@ =~= before + line@.subrange(0, k as int));
        }
        assert(pixels@.subrange(0, i + 1).drop_last() =~= pixels@.subrange(0, i as int));
        assert(line@.subrange(0, k as int) =~= line@);
        assert(out@ =~= header_text(width, height) + body_text(pixels@.subrange(0, i + 1)));
        i = i + 1;
    }
    assert(pixels@.subrange(0, i as int) =~= pixels@);
    out
}

/// Relies on `itertools::Itertools::cartesian_product`: every pair of the two
/// ranges, in lexicographic order, the second place changing fastest.
#[verifier::external_body]
fn range_pairs(first: u32, second: u32) -> (r: Vec<(u32, u32)>)
    ensures
        r@.len() == first * second,
        forall|n: int|
            0 <= n < r@.len() ==> #[trigger] r@[n] == ((n / second as int) as u32, (n % second as int) as u32),
{
    (0..first).cartesian_product(0..second).collect()
}

/// The coordinates `(row, column)` of the pixels of a `width` by `height`
/// image in row-major order, the order in which `encode_ppm` takes them.
pub fn raster_order(width: u32, height: u32) -> (r: Vec<(u32, u32)>)
    ensures
        r@.len() == width * height,
        forall|n: int|
            0 <= n < r@.len() ==> #[trigger] r@[n] == ((n / width as int) as u32, (n % width as int) as u32),
{
    let r = range_pairs(height, width);
    assert(height * width == width * height) by (nonlinear_arith);
    r
}

} // verus!
