//! The plain-text image format: a header with the size of the image, then one
//! line of three decimal numbers for each pixel, row by row from the top.

use crate::color::RGBInt;
use vstd::prelude::*;

verus! {

/// The ASCII character of one decimal digit.
pub open spec fn digit(d: nat) -> u8
    recommends
        d < 10,
{
    (48 + d) as u8
}

/// A number in decimal, most significant digit first, without leading zeros.
pub open spec fn decimal(n: nat) -> Seq<u8>
    decreases n,
{
    if n < 10 {
        seq![digit(n)]
    } else {
        decimal(n / 10).push(digit(n % 10))
    }
}

/// The number that a string of decimal digits stands for.
pub open spec fn numeral_value(digits: Seq<u8>) -> nat
    decreases digits.len(),
{
    if digits.len() == 0 {
        0
    } else {
        (numeral_value(digits.drop_last()) * 10 + (digits.last() - 48)) as nat
    }
}

/// The first lines of an image: the format's name, the width and the height,
/// and the largest value of a channel.
pub open spec fn header(width: nat, height: nat) -> Seq<u8> {
    seq![80u8, 51, 10] + decimal(width) + seq![32u8] + decimal(height) + seq![10u8, 50, 53, 53, 10]
}

/// The line of one pixel: its three channels, separated by spaces.
pub open spec fn pixel_line(color: RGBInt) -> Seq<u8> {
    decimal(color.r as nat) + seq![32u8] + decimal(color.g as nat) + seq![32u8] + decimal(
        color.b as nat,
    ) + seq![10u8]
}

/// The lines of a run of pixels, in their order.
pub open spec fn pixel_lines(pixels: Seq<RGBInt>) -> Seq<u8>
    decreases pixels.len(),
{
    if pixels.len() == 0 {
        Seq::empty()
    } else {
        pixel_lines(pixels.drop_last()) + pixel_line(pixels.last())
    }
}

/// A whole image: the header, then the lines of its pixels.
pub open spec fn document(width: nat, height: nat, pixels: Seq<RGBInt>) -> Seq<u8> {
    header(width, height) + pixel_lines(pixels)
}

/// What `decimal` writes is a numeral of the number: digits only, at least
/// one of them, no leading zero but for zero itself, and read back as a
/// decimal number it gives the number again.
pub proof fn lemma_decimal_is_numeral(n: nat)
    ensures
        decimal(n).len() >= 1,
        forall|i: int| 0 <= i < decimal(n).len() ==> 48 <= #[trigger] decimal(n)[i] <= 57,
        n > 0 ==> decimal(n)[0] != 48,
        numeral_value(decimal(n)) == n,
    decreases n,
{
    if n < 10 {
        assert(decimal(n).drop_last() =~= Seq::<u8>::empty());
        assert(numeral_value(decimal(n).drop_last()) == 0);
    } else {
        lemma_decimal_is_numeral(n / 10);
        let head = decimal(n / 10);
        assert(decimal(n).drop_last() =~= head);
        assert(decimal(n)[0] == head[0]);
    }
}

/// The lines of two runs of pixels, one after the other, are the lines of the
/// first followed by the lines of the second.
pub proof fn lemma_pixel_lines_concat(first: Seq<RGBInt>, second: Seq<RGBInt>)
    ensures
        pixel_lines(first + second) == pixel_lines(first) + pixel_lines(second),
    decreases second.len(),
{
    if second.len() == 0 {
        assert(first + second =~= first);
        assert(pixel_lines(first) + pixel_lines(second) =~= pixel_lines(first));
    } else {
        lemma_pixel_lines_concat(first, second.drop_last());
        assert((first + second).drop_last() =~= first + second.drop_last());
        assert((first + second).last() == second.last());
        assert(pixel_lines(first + second) =~= pixel_lines(first) + pixel_lines(second));
    }
}

/// Appends the decimal form of a number.
pub fn write_decimal(out: &mut Vec<u8>, n: usize)
    ensures
        final(out)@ == old(out)@ + decimal(n as nat),
    decreases n,
{
    if n >= 10 {
        write_decimal(out, n / 10);
    }
    let last: u8 = 48 + (n % 10) as u8;
    out.push(last);
    proof {
        assert(out@ =~= old(out)@ + decimal(n as nat));
    }
}

/// Appends the header of an image of the given size.
pub fn write_header(out: &mut Vec<u8>, width: usize, height: usize)
    ensures
        final(out)@ == old(out)@ + header(width as nat, height as nat),
{
    out.push(80);
    out.push(51);
    out.push(10);
    write_decimal(out, width);
    out.push(32);
    write_decimal(out, height);
    out.push(10);
    out.push(50);
    out.push(53);
    out.push(53);
    out.push(10);
    proof {
        assert(out@ =~= old(out)@ + header(width as nat, height as nat));
    }
}

/// Appends the line of one pixel.
pub fn write_pixel(out: &mut Vec<u8>, color: &RGBInt)
    ensures
        final(out)@ == old(out)@ + pixel_line(*color),
{
    write_decimal(out, color.r as usize);
    out.push(32);
    write_decimal(out, color.g as usize);
    out.push(32);
    write_decimal(out, color.b as usize);
    out.push(10);
    proof {
        assert(out@ =~= old(out)@ + pixel_line(*color));
    }
}

/// Appends the lines of a row of pixels.
pub fn write_pixels(out: &mut Vec<u8>, pixels: &Vec<RGBInt>)
    ensures
        final(out)@ == old(out)@ + pixel_lines(pixels@),
{
    let mut i: usize = 0;
    proof {
        assert(pixels@.take(0) =~= Seq::<RGBInt>::empty());
        assert(out@ =~= old(out)@ + pixel_lines(pixels@.take(0)));
    }
    while i < pixels.len()
        invariant
            i <= pixels.len(),
            out@ == old(out)@ + pixel_lines(pixels@.take(i as int)),
        decreases pixels.len() - i,
    {
        write_pixel(out, &pixels[i]);
        proof {
            let next = pixels@.take(i + 1);
            assert(next.drop_last() =~= pixels@.take(i as int));
            assert(next.last() == pixels@[i as int]);
            assert(out@ =~= old(out)@ + pixel_lines(next));
        }
        i += 1;
    }
    proof {
        assert(pixels@.take(pixels.len() as int) =~= pixels@);
    }
}

/// The lines of a row of pixels.
pub fn encode_row(pixels: &Vec<RGBInt>) -> (out: Vec<u8>)
    ensures
        out@ == pixel_lines(pixels@),
{
    let mut out: Vec<u8> = Vec::new();
    write_pixels(&mut out, pixels);
    proof {
        assert(out@ =~= pixel_lines(pixels@));
    }
    out
}

} // verus!

verus! {

/// An image held in memory: its pixels row by row from the top, and how many
/// of them make a row. The width times the height is always the number of
/// pixels.
#[derive(Debug)]
pub struct PPMImage {
    width: usize,
    height: usize,
    colors: Vec<RGBInt>,
}

impl View for PPMImage {
    type V = Seq<RGBInt>;

    /// The pixels, row by row from the top.
    closed spec fn view(&self) -> Seq<RGBInt> {
        self.colors@
    }
}

impl PPMImage {
    /// The rows make up the pixels exactly.
    pub open spec fn wf(&self) -> bool {
        self.width() * self.height() == self@.len()
    }

    /// The number of pixels in a row.
    pub closed spec fn spec_width(&self) -> usize {
        self.width
    }

    /// The number of rows.
    pub closed spec fn spec_height(&self) -> usize {
        self.height
    }

    /// The number of pixels in a row.
    #[verifier::when_used_as_spec(spec_width)]
    pub fn width(&self) -> (width: usize)
        ensures
            width == self.width(),
    {
        self.width
    }

    /// The number of rows.
    #[verifier::when_used_as_spec(spec_height)]
    pub fn height(&self) -> (height: usize)
        ensures
            height == self.height(),
    {
        self.height
    }

    /// A black image of the given size.
    pub fn new(width: usize, height: usize) -> (image: Self)
        requires
            width * height <= usize::MAX,
        ensures
            image.wf(),
            image.width() == width,
            image.height() == height,
            forall|i: int| 0 <= i < image@.len() ==> image@[i] == RGBInt::black(),
    {
        let count = width * height;
        let mut colors: Vec<RGBInt> = Vec::new();
        while colors.len() < count
            invariant
                colors.len() <= count,
                forall|i: int| 0 <= i < colors.len() ==> colors[i] == RGBInt::black(),
            decreases count - colors.len(),
        {
            colors.push(RGBInt::new(0, 0, 0));
        }
        Self { width, height, colors }
    }

    /// Takes a new width, and the height that goes with it, if the pixels can
    /// be cut into rows of that width; else says so and changes nothing.
    pub fn reshape(&mut self, width: usize) -> (reshaped: Result<(), &'static str>)
        requires
            old(self).wf(),
            width > 0,
        ensures
            final(self).wf(),
            final(self)@ == old(self)@,
            old(self)@.len() % (width as nat) == 0 ==> reshaped is Ok && final(self).width() == width
                && final(self).height() == old(self)@.len() / (width as nat),
            old(self)@.len() % (width as nat) != 0 ==> reshaped == Err::<(), &'static str>(
                "Shape invalid",
            ) && final(self).width() == old(self).width() && final(self).height() == old(
                self,
            ).height(),
    {
        let count = self.colors.len();
        if count % width == 0 {
            proof {
                vstd::arithmetic::div_mod::lemma_fundamental_div_mod(count as int, width as int);
            }
            self.width = width;
            self.height = count / width;
            Ok(())
        } else {
            Err("Shape invalid")
        }
    }

    /// The pixel at a place counted from the first pixel of the top row.
    pub fn get(&self, index: usize) -> (color: &RGBInt)
        requires
            index < self@.len(),
        ensures
            *color == self@[index as int],
    {
        &self.colors[index]
    }

    /// The pixel in the given row and column.
    pub fn at(&self, row: usize, column: usize) -> (color: &RGBInt)
        requires
            row * self.width() + column < self@.len(),
        ensures
            *color == self@[row * self.width() + column],
    {
        let count = self.colors.len();
        proof {
            assert(0 <= row * self.width) by (nonlinear_arith);
            assert(row * self.width + column < count);
        }
        &self.colors[row * self.width + column]
    }

    /// Gives a new colour to the pixel at a place counted from the first pixel
    /// of the top row.
    pub fn set(&mut self, index: usize, color: RGBInt)
        requires
            index < old(self)@.len(),
        ensures
            old(self).wf() ==> final(self).wf(),
            final(self)@ == old(self)@.update(index as int, color),
            final(self).width() == old(self).width(),
            final(self).height() == old(self).height(),
    {
        self.colors.set(index, color);
    }

    /// Gives a new colour to the pixel in the given row and column.
    pub fn set_at(&mut self, row: usize, column: usize, color: RGBInt)
        requires
            row * old(self).width() + column < old(self)@.len(),
        ensures
            old(self).wf() ==> final(self).wf(),
            final(self)@ == old(self)@.update(row * old(self).width() + column, color),
            final(self).width() == old(self).width(),
            final(self).height() == old(self).height(),
    {
        let count = self.colors.len();
        proof {
            assert(0 <= row * self.width) by (nonlinear_arith);
            assert(row * self.width + column < count);
        }
        let index = row * self.width + column;
        self.colors.set(index, color);
    }

    /// The image in the plain-text format: the header, then every pixel on a
    /// line of its own, row by row from the top.
    pub fn encode(&self) -> (out: Vec<u8>)
        requires
            self.wf(),
        ensures
            out@ == document(self.width() as nat, self.height() as nat, self@),
    {
        let mut out: Vec<u8> = Vec::new();
        write_header(&mut out, self.width, self.height);
        let mut row: usize = 0;
        proof {
            assert(self.colors@.take(0) =~= Seq::<RGBInt>::empty());
            assert(out@ =~= header(self.width as nat, self.height as nat) + pixel_lines(
                self.colors@.take(0),
            ));
        }
        while row < self.height
            invariant
                self.width * self.height == self.colors.len(),
                row <= self.height,
                row * self.width <= self.colors.len(),
                out@ == header(self.width as nat, self.height as nat) + pixel_lines(
                    self.colors@.take(row * self.width),
                ),
            decreases self.height - row,
        {
            let mut column: usize = 0;
            proof {
                assert((row + 1) * self.width <= self.height * self.width) by (nonlinear_arith)
                    requires
                        row < self.height,
                ;
                assert((row + 1) * self.width == row * self.width + self.width)
                    by (nonlinear_arith);
            }
            while column < self.width
                invariant
                    self.width * self.height == self.colors.len(),
                    row < self.height,
                    column <= self.width,
                    row * self.width + self.width <= self.colors.len(),
                    out@ == header(self.width as nat, self.height as nat) + pixel_lines(
                        self.colors@.take(row * self.width + column),
                    ),
                decreases self.width - column,
            {
                let index = row * self.width + column;
                write_pixel(&mut out, &self.colors[index]);
                proof {
                    let next = self.colors@.take(index + 1);
                    assert(next.drop_last() =~= self.colors@.take(index as int));
                    assert(next.last() == self.colors@[index as int]);
                    assert(out@ =~= header(self.width as nat, self.height as nat) + pixel_lines(
                        next,
                    ));
                }
                column += 1;
            }
            row += 1;
        }
        proof {
            assert(row * self.width == self.colors.len()) by (nonlinear_arith)
                requires
                    row == self.height,
                    self.width * self.height == self.colors.len(),
            ;
            assert(self.colors@.take(self.colors.len() as int) =~= self.colors@);
        }
        out
    }
}

impl From<Vec<RGBInt>> for PPMImage {
    /// The pixels as an image of a single row.
    fn from(colors: Vec<RGBInt>) -> (image: Self) {
        let width = colors.len();
        Self { width, height: 1, colors }
    }
}

impl vstd::std_specs::convert::FromSpecImpl<Vec<RGBInt>> for PPMImage {
    open spec fn obeys_from_spec() -> bool {
        true
    }

    open spec fn from_spec(colors: Vec<RGBInt>) -> Self {
        PPMImage::single_row(colors)
    }
}

impl PPMImage {
    /// The image of a single row that holds the given pixels.
    pub closed spec fn single_row(colors: Vec<RGBInt>) -> Self {
        PPMImage { width: colors.len(), height: 1, colors }
    }

    /// An image of a single row is as wide as it has pixels.
    pub proof fn lemma_single_row(colors: Vec<RGBInt>)
        ensures
            Self::single_row(colors).wf(),
            Self::single_row(colors)@ == colors@,
            Self::single_row(colors).width() == colors.len(),
            Self::single_row(colors).height() == 1,
    {
    }
}

} // verus!
