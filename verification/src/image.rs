//! A grayscale raster, its neighbour lookup and the filters built on the
//! three-by-three convolution.

use crate::kernel::{div_toward_zero, Kernel, Stencil};
use vstd::prelude::*;

verus! {

/// The mathematical content of an [`Image`]: the samples in row-major order
/// and the length of a row.
pub struct Raster {
    pub pixels: Seq<u8>,
    pub width: nat,
}

impl Raster {
    /// Rows are not empty and the samples fill whole rows.
    pub open spec fn wf(self) -> bool {
        self.width > 0 && self.pixels.len() % self.width == 0
    }

    /// The number of rows.
    pub open spec fn height(self) -> nat {
        self.pixels.len() / self.width
    }

    /// Where the neighbour `rows` down and `columns` right of `position`
    /// lies in the flat buffer.
    pub open spec fn neighbor_index(self, position: int, rows: int, columns: int) -> int {
        position + rows * self.width + columns
    }

    /// The sample `rows` down and `columns` right of `position`, if there is
    /// one. A neighbour outside the buffer is missing, and so is any
    /// neighbour in another column of a position in the leftmost column.
    /// Nothing else is suppressed: at the end of a row the neighbour to the
    /// right is the first sample of the next row.
    pub open spec fn neighbor(self, position: int, rows: int, columns: int) -> Option<u8> {
        let index = self.neighbor_index(position, rows, columns);
        if 0 <= index < self.pixels.len() && (columns == 0 || position % (self.width as int) != 0) {
            Some(self.pixels[index])
        } else {
            None
        }
    }

    /// What the neighbour `rows` down and `columns` right of `position` adds
    /// to the weighted sum: its value times the numerator in the mirrored
    /// cell of the kernel, or nothing when the neighbour is missing.
    pub open spec fn term(self, kernel: Stencil, position: int, rows: int, columns: int) -> int {
        match self.neighbor(position, rows, columns) {
            Some(value) => value as int * kernel.weight(1 - rows, 1 - columns),
            None => 0,
        }
    }

    /// The sum of the eight neighbour terms and of the sample at `position`
    /// times the central numerator, before the division.
    pub open spec fn weighted_sum(self, kernel: Stencil, position: int) -> int {
        self.term(kernel, position, -1, -1) + self.term(kernel, position, -1, 0) + self.term(
            kernel,
            position,
            -1,
            1,
        ) + self.term(kernel, position, 0, -1) + self.pixels[position] as int * kernel.weight(1, 1)
            + self.term(kernel, position, 0, 1) + self.term(kernel, position, 1, -1) + self.term(
            kernel,
            position,
            1,
            0,
        ) + self.term(kernel, position, 1, 1)
    }

    /// The raw response at `position`: the weighted sum divided by the
    /// kernel's divisor, rounded toward zero and kept within sixteen signed
    /// bits.
    pub open spec fn response(self, kernel: Stencil, position: int) -> i16 {
        saturate(div_toward_zero(self.weighted_sum(kernel, position), kernel.divisor))
    }

    /// The raw responses at all positions.
    pub open spec fn convolved(self, kernel: Stencil) -> Seq<i16> {
        Seq::new(self.pixels.len(), |position: int| self.response(kernel, position))
    }

    /// The raster smoothed by the averaging kernel. The responses to that
    /// kernel are bytes already.
    pub open spec fn mean_filtered(self) -> Raster {
        Raster {
            pixels: Seq::new(
                self.pixels.len(),
                |position: int| self.response(Stencil::mean(), position) as u8,
            ),
            width: self.width,
        }
    }

    /// The raster's edges: the Laplacian responses cut off at 0 and at 255.
    pub open spec fn laplacian_filtered(self) -> Raster {
        Raster {
            pixels: Seq::new(
                self.pixels.len(),
                |position: int| clamp_byte(self.response(Stencil::laplacian(), position) as int),
            ),
            width: self.width,
        }
    }

    /// The raster in black and white: 255 where a sample reaches `cutoff`,
    /// 0 elsewhere.
    pub open spec fn thresholded(self, cutoff: u8) -> Raster {
        Raster {
            pixels: Seq::new(
                self.pixels.len(),
                |position: int| if self.pixels[position] >= cutoff { 255u8 } else { 0u8 },
            ),
            width: self.width,
        }
    }

    /// The raster with its darkest sample moved to 0 and its brightest to
    /// 255, the others in proportion. A raster of one single value becomes
    /// all zeros.
    pub open spec fn normalized(self) -> Raster {
        Raster {
            pixels: Seq::new(
                self.pixels.len(),
                |position: int|
                    rescale(self.pixels[position], lowest(self.pixels), highest(self.pixels)),
            ),
            width: self.width,
        }
    }

    /// Every sample equals `value`.
    pub open spec fn constant(self, value: u8) -> bool {
        forall|position: int| 0 <= position < self.pixels.len() ==> self.pixels[position] == value
    }

    /// The four direct neighbours of `position` are all there.
    pub open spec fn has_direct_neighbors(self, position: int) -> bool {
        &&& self.neighbor(position, -1, 0).is_some()
        &&& self.neighbor(position, 0, -1).is_some()
        &&& self.neighbor(position, 0, 1).is_some()
        &&& self.neighbor(position, 1, 0).is_some()
    }

    /// The eight neighbours of `position` are all there.
    pub open spec fn has_all_neighbors(self, position: int) -> bool {
        &&& self.has_direct_neighbors(position)
        &&& self.neighbor(position, -1, -1).is_some()
        &&& self.neighbor(position, -1, 1).is_some()
        &&& self.neighbor(position, 1, -1).is_some()
        &&& self.neighbor(position, 1, 1).is_some()
    }
}

/// `value` kept within sixteen signed bits.
pub open spec fn saturate(value: int) -> i16 {
    if value > i16::MAX {
        i16::MAX
    } else if value < i16::MIN {
        i16::MIN
    } else {
        value as i16
    }
}

/// `value` cut off at 0 and at 255.
pub open spec fn clamp_byte(value: int) -> u8 {
    if value > 255 {
        255u8
    } else if value < 0 {
        0u8
    } else {
        value as u8
    }
}

/// The smallest sample of `samples`; 255 when there is none.
pub open spec fn lowest(samples: Seq<u8>) -> u8
    decreases samples.len(),
{
    if samples.len() == 0 {
        255u8
    } else {
        let rest = lowest(samples.drop_last());
        if samples.last() < rest {
            samples.last()
        } else {
            rest
        }
    }
}

/// The largest sample of `samples`; 0 when there is none.
pub open spec fn highest(samples: Seq<u8>) -> u8
    decreases samples.len(),
{
    if samples.len() == 0 {
        0u8
    } else {
        let rest = highest(samples.drop_last());
        if samples.last() > rest {
            samples.last()
        } else {
            rest
        }
    }
}

/// Where `value` lands when `low` goes to 0 and `high` to 255 along a
/// straight line, rounded to the nearest byte, a half upward. With no span
/// between `low` and `high` everything lands on 0.
pub open spec fn rescale(value: u8, low: u8, high: u8) -> u8 {
    if high <= low || value < low {
        0u8
    } else {
        clamp_byte(((value - low) * 510 + (high - low)) / (2 * (high - low)))
    }
}

/// A grayscale raster: bytes in row-major order with a positive row length
/// that divides their number.
#[derive(Debug, PartialEq, Eq)]
pub struct Image {
    pixels: Vec<u8>,
    width: usize,
}

impl View for Image {
    type V = Raster;

    closed spec fn view(&self) -> Raster {
        Raster { pixels: self.pixels@, width: self.width as nat }
    }
}

impl Clone for Image {
    fn clone(&self) -> (copy: Image)
        ensures
            copy@ == self@,
    {
        proof {
            use_type_invariant(self);
        }
        let pixels = self.pixels.clone();
        assert(pixels@ =~= self.pixels@);
        Image { pixels, width: self.width }
    }
}

impl Image {
    #[verifier::type_invariant]
    spec fn whole_rows(self) -> bool {
        self@.wf()
    }

    /// The raster with the given samples and row length; none when the row
    /// length is zero or does not divide the number of samples.
    pub fn new(pixels: Vec<u8>, width: usize) -> (image: Option<Image>)
        ensures
            image.is_some() <==> (Raster { pixels: pixels@, width: width as nat }).wf(),
            image.is_some() ==> image.unwrap()@ == (Raster { pixels: pixels@, width: width as nat }),
    {
        if width == 0 || pixels.len() % width != 0 {
            None
        } else {
            Some(Image { pixels, width })
        }
    }

    /// The length of a row.
    pub fn width(&self) -> (w: usize)
        ensures
            w == self@.width,
            w > 0,
    {
        proof {
            use_type_invariant(self);
        }
        self.width
    }

    /// The number of rows.
    pub fn height(&self) -> (h: usize)
        ensures
            h == self@.height(),
    {
        proof {
            use_type_invariant(self);
        }
        self.pixels.len() / self.width
    }

    /// The samples in row-major order.
    pub fn pixels(&self) -> (p: &Vec<u8>)
        ensures
            p@ == self@.pixels,
            self@.wf(),
    {
        proof {
            use_type_invariant(self);
        }
        &self.pixels
    }

    /// The neighbour `rows` down and `columns` right of `position`.
    pub fn get_pixel(&self, position: usize, rows: isize, columns: isize) -> (pixel: Option<u8>)
        ensures
            pixel == self@.neighbor(position as int, rows as int, columns as int),
    {
        proof {
            use_type_invariant(self);
        }
        let width = self.width as i128;
        let step = rows as i128;
        assert(-0x8000_0000_0000_0000 * 0xffff_ffff_ffff_ffff <= step * width
            <= 0x7fff_ffff_ffff_ffff * 0xffff_ffff_ffff_ffff) by (nonlinear_arith)
            requires
                -0x8000_0000_0000_0000 <= step <= 0x7fff_ffff_ffff_ffff,
                0 <= width <= 0xffff_ffff_ffff_ffff,
        ;
        let index = position as i128 + step * width + columns as i128;
        if 0 <= index && index < self.pixels.len() as i128 && (columns == 0 || position
            % self.width != 0) {
            Some(self.pixels[index as usize])
        } else {
            None
        }
    }

    /// What one neighbour adds to the weighted sum at `position`.
    fn term(&self, kernel: &Kernel, position: usize, rows: isize, columns: isize) -> (t: i64)
        requires
            -1 <= rows <= 1,
            -1 <= columns <= 1,
        ensures
            t == self@.term(kernel@, position as int, rows as int, columns as int),
            -0x80_0000_0000 <= t <= 0x80_0000_0000,
    {
        match self.get_pixel(position, rows, columns) {
            Some(value) => {
                let weight = kernel.weight((1 - rows) as usize, (1 - columns) as usize);
                assert(-0x80_0000_0000 <= value * weight <= 0x80_0000_0000) by (nonlinear_arith)
                    requires
                        0 <= value <= 255,
                        -0x8000_0000 <= weight <= 0x7fff_ffff,
                ;
                value as i64 * weight as i64
            },
            None => 0,
        }
    }

    /// The raw response at `position`.
    fn respond(&self, kernel: &Kernel, position: usize) -> (r: i16)
        requires
            position < self@.pixels.len(),
        ensures
            r == self@.response(kernel@, position as int),
    {
        let center = self.pixels[position];
        let weight = kernel.weight(1, 1);
        assert(-0x80_0000_0000 <= center * weight <= 0x80_0000_0000) by (nonlinear_arith)
            requires
                0 <= center <= 255,
                -0x8000_0000 <= weight <= 0x7fff_ffff,
        ;
        let sum = self.term(kernel, position, -1, -1) + self.term(kernel, position, -1, 0)
            + self.term(kernel, position, -1, 1) + self.term(kernel, position, 0, -1)
            + center as i64 * weight as i64 + self.term(kernel, position, 0, 1) + self.term(
            kernel,
            position,
            1,
            -1,
        ) + self.term(kernel, position, 1, 0) + self.term(kernel, position, 1, 1);
        let quotient = sum / kernel.divisor() as i64;
        if quotient > 32767 {
            32767
        } else if quotient < -32768 {
            -32768
        } else {
            quotient as i16
        }
    }

    /// The raw responses of the raster to `kernel`, one for each sample.
    pub fn convolve(&self, kernel: &Kernel) -> (responses: Vec<i16>)
        ensures
            responses@ == self@.convolved(kernel@),
            responses@.len() == self@.pixels.len(),
    {
        let mut responses: Vec<i16> = Vec::new();
        let mut position: usize = 0;
        while position < self.pixels.len()
            invariant
                position <= self.pixels.len(),
                responses@.len() == position,
                forall|q: int|
                    0 <= q < position ==> responses@[q] == self@.response(kernel@, q),
            decreases self.pixels.len() - position,
        {
            responses.push(self.respond(kernel, position));
            position += 1;
        }
        assert(responses@ =~= self@.convolved(kernel@));
        responses
    }

    /// The raster smoothed by the averaging kernel. Each response lies
    /// between 0 and 255 and is stored as it is.
    pub fn mean_filter(&self) -> (smooth: Image)
        ensures
            smooth@ == self@.mean_filtered(),
            smooth@.width == self@.width,
            smooth@.pixels.len() == self@.pixels.len(),
            forall|position: int|
                0 <= position < self@.pixels.len() ==> smooth@.pixels[position]
                    == #[trigger] self@.response(Stencil::mean(), position),
    {
        proof {
            use_type_invariant(self);
        }
        let responses = self.convolve(&Kernel::mean());
        let mut pixels: Vec<u8> = Vec::new();
        let mut position: usize = 0;
        while position < responses.len()
            invariant
                position <= responses.len(),
                responses@ == self@.convolved(Stencil::mean()),
                pixels@.len() == position,
                forall|q: int|
                    0 <= q < position ==> pixels@[q] == #[trigger] self@.response(
                        Stencil::mean(),
                        q,
                    ),
            decreases responses.len() - position,
        {
            let response = responses[position];
            proof {
                lemma_mean_response_is_byte(self@, position as int);
            }
            pixels.push(response as u8);
            position += 1;
        }
        assert(pixels@ =~= self@.mean_filtered().pixels);
        Image { pixels, width: self.width }
    }

    /// The raster's edges: the Laplacian responses, those above 255 stored
    /// as 255 and those below 0 as 0.
    pub fn laplacian_filter(&self) -> (edges: Image)
        ensures
            edges@ == self@.laplacian_filtered(),
            edges@.width == self@.width,
            edges@.pixels.len() == self@.pixels.len(),
    {
        proof {
            use_type_invariant(self);
        }
        let responses = self.convolve(&Kernel::laplacian());
        let mut pixels: Vec<u8> = Vec::new();
        let mut position: usize = 0;
        while position < responses.len()
            invariant
                position <= responses.len(),
                responses@ == self@.convolved(Stencil::laplacian()),
                pixels@.len() == position,
                forall|q: int|
                    0 <= q < position ==> pixels@[q] == clamp_byte(
                        self@.response(Stencil::laplacian(), q) as int,
                    ),
            decreases responses.len() - position,
        {
            let response = responses[position];
            let pixel: u8 = if response > 255 {
                255
            } else if response < 0 {
                0
            } else {
                response as u8
            };
            pixels.push(pixel);
            position += 1;
        }
        assert(pixels@ =~= self@.laplacian_filtered().pixels);
        Image { pixels, width: self.width }
    }

    /// The raster in black and white: 255 where a sample is `value` or
    /// more, 0 where it is less.
    pub fn treshold(&self, value: u8) -> (binary: Image)
        ensures
            binary@ == self@.thresholded(value),
            binary@.width == self@.width,
            binary@.pixels.len() == self@.pixels.len(),
            forall|position: int|
                0 <= position < self@.pixels.len() ==> #[trigger] binary@.pixels[position] == (
                if self@.pixels[position] >= value {
                    255u8
                } else {
                    0u8
                }),
    {
        proof {
            use_type_invariant(self);
        }
        let mut pixels: Vec<u8> = Vec::new();
        let mut position: usize = 0;
        while position < self.pixels.len()
            invariant
                position <= self.pixels.len(),
                pixels@.len() == position,
                forall|q: int|
                    0 <= q < position ==> pixels@[q] == (if self.pixels@[q] >= value {
                        255u8
                    } else {
                        0u8
                    }),
            decreases self.pixels.len() - position,
        {
            let pixel: u8 = if self.pixels[position] >= value {
                255
            } else {
                0
            };
            pixels.push(pixel);
            position += 1;
        }
        assert(pixels@ =~= self@.thresholded(value).pixels);
        Image { pixels, width: self.width }
    }

    /// The raster stretched over the whole range of a byte: its darkest
    /// sample becomes 0, its brightest 255, and the others keep their
    /// proportion, rounded to the nearest byte. A raster of one single value
    /// becomes all zeros.
    pub fn normalize(&self) -> (stretched: Image)
        ensures
            stretched@ == self@.normalized(),
            stretched@.width == self@.width,
            stretched@.pixels.len() == self@.pixels.len(),
    {
        proof {
            use_type_invariant(self);
        }
        let mut low: u8 = 255;
        let mut high: u8 = 0;
        let mut position: usize = 0;
        while position < self.pixels.len()
            invariant
                position <= self.pixels.len(),
                low == lowest(self.pixels@.take(position as int)),
                high == highest(self.pixels@.take(position as int)),
            decreases self.pixels.len() - position,
        {
            let pixel = self.pixels[position];
            proof {
                let longer = self.pixels@.take(position + 1);
                assert(longer.drop_last() =~= self.pixels@.take(position as int));
                assert(longer.last() == pixel);
            }
            if pixel < low {
                low = pixel;
            }
            if pixel > high {
                high = pixel;
            }
            position += 1;
        }
        assert(self.pixels@.take(position as int) =~= self.pixels@);
        let mut pixels: Vec<u8> = Vec::new();
        position = 0;
        while position < self.pixels.len()
            invariant
                position <= self.pixels.len(),
                pixels@.len() == position,
                forall|q: int|
                    0 <= q < position ==> pixels@[q] == rescale(self.pixels@[q], low, high),
            decreases self.pixels.len() - position,
        {
            pixels.push(stretch(self.pixels[position], low, high));
            position += 1;
        }
        assert(pixels@ =~= self@.normalized().pixels);
        Image { pixels, width: self.width }
    }
}

/// Where `value` lands when `low` goes to 0 and `high` to 255.
fn stretch(value: u8, low: u8, high: u8) -> (byte: u8)
    ensures
        byte == rescale(value, low, high),
{
    if high <= low || value < low {
        0
    } else {
        let offset: u32 = (value - low) as u32;
        let span: u32 = (high - low) as u32;
        assert(offset * 510 <= 255 * 510) by (nonlinear_arith)
            requires
                offset <= 255,
        ;
        let rounded: u32 = (offset * 510 + span) / (2 * span);
        if rounded > 255 {
            255
        } else {
            rounded as u8
        }
    }
}

/// No sample lies below `lowest` or above `highest`, and a sequence that is
/// not empty holds both.
pub proof fn lemma_extremes(samples: Seq<u8>)
    ensures
        forall|i: int| 0 <= i < samples.len() ==> lowest(samples) <= #[trigger] samples[i] <= highest(samples),
        samples.len() > 0 ==> exists|i: int| 0 <= i < samples.len() && samples[i] == lowest(samples),
        samples.len() > 0 ==> exists|i: int| 0 <= i < samples.len() && samples[i] == highest(samples),
    decreases samples.len(),
{
    if samples.len() > 0 {
        let rest = samples.drop_last();
        let end = samples.len() - 1;
        lemma_extremes(rest);
        assert forall|i: int| 0 <= i < samples.len() implies lowest(samples) <= #[trigger] samples[i]
            <= highest(samples) by {
            if i < end {
                assert(rest[i] == samples[i]);
            }
        }
        if samples.last() < lowest(rest) || rest.len() == 0 {
            assert(samples[end] == lowest(samples));
        } else {
            let i = choose|i: int| 0 <= i < rest.len() && rest[i] == lowest(rest);
            assert(samples[i] == lowest(samples));
        }
        if samples.last() > highest(rest) || rest.len() == 0 {
            assert(samples[end] == highest(samples));
        } else {
            let i = choose|i: int| 0 <= i < rest.len() && rest[i] == highest(rest);
            assert(samples[i] == highest(samples));
        }
    }
}

/// A raster that holds two different samples is stretched over the whole
/// range: the darkest sample of its normalized form is 0 and the brightest
/// is 255.
pub proof fn normalized_spans_full_range(raster: Raster)
    requires
        exists|i: int, j: int|
            0 <= i < raster.pixels.len() && 0 <= j < raster.pixels.len() && raster.pixels[i]
                != raster.pixels[j],
    ensures
        lowest(raster.normalized().pixels) == 0,
        highest(raster.normalized().pixels) == 255,
{
    let samples = raster.pixels;
    let stretched = raster.normalized().pixels;
    let low = lowest(samples);
    let high = highest(samples);
    lemma_extremes(samples);
    lemma_extremes(stretched);
    let (i, j) = choose|i: int, j: int|
        0 <= i < samples.len() && 0 <= j < samples.len() && samples[i] != samples[j];
    assert(low <= samples[i] <= high && low <= samples[j] <= high);
    assert(low < high);
    let darkest = choose|a: int| 0 <= a < samples.len() && samples[a] == low;
    let brightest = choose|b: int| 0 <= b < samples.len() && samples[b] == high;
    let span = high - low;
    assert((0 * 510 + span) / (2 * span) == 0) by (nonlinear_arith)
        requires
            span > 0,
    ;
    assert((span * 510 + span) / (2 * span) == 255) by (nonlinear_arith)
        requires
            span > 0,
    ;
    assert(stretched[darkest] == 0);
    assert(stretched[brightest] == 255);
}

/// On a raster of one single value the averaging filter changes nothing at
/// a position whose eight neighbours are all there.
pub proof fn mean_filter_keeps_constant(raster: Raster, value: u8, position: int)
    requires
        raster.constant(value),
        0 <= position < raster.pixels.len(),
        raster.has_all_neighbors(position),
    ensures
        raster.mean_filtered().pixels[position] == value,
{
    let k = Stencil::mean();
    lemma_mean_response_is_byte(raster, position);
    assert forall|r: int, c: int|
        -1 <= r <= 1 && -1 <= c <= 1 && raster.neighbor(position, r, c).is_some() implies #[trigger] raster.term(
        k,
        position,
        r,
        c,
    ) == value by {
        assert(k.weight(1 - r, 1 - c) == 1);
    }
    assert(k.weight(1, 1) == 1);
    assert(raster.term(k, position, -1, -1) == value);
    assert(raster.term(k, position, -1, 0) == value);
    assert(raster.term(k, position, -1, 1) == value);
    assert(raster.term(k, position, 0, -1) == value);
    assert(raster.term(k, position, 0, 1) == value);
    assert(raster.term(k, position, 1, -1) == value);
    assert(raster.term(k, position, 1, 0) == value);
    assert(raster.term(k, position, 1, 1) == value);
    assert(raster.weighted_sum(k, position) == 9 * value);
}

/// On a raster of one single value the edge filter gives 0 at a position
/// whose four direct neighbours are all there.
pub proof fn laplacian_of_constant_is_zero(raster: Raster, value: u8, position: int)
    requires
        raster.constant(value),
        0 <= position < raster.pixels.len(),
        raster.has_direct_neighbors(position),
    ensures
        raster.laplacian_filtered().pixels[position] == 0,
{
    let k = Stencil::laplacian();
    assert(k.weight(0, 0) == 0 && k.weight(0, 1) == -1 && k.weight(0, 2) == 0);
    assert(k.weight(1, 0) == -1 && k.weight(1, 1) == 4 && k.weight(1, 2) == -1);
    assert(k.weight(2, 0) == 0 && k.weight(2, 1) == -1 && k.weight(2, 2) == 0);
    assert(raster.term(k, position, -1, -1) == 0);
    assert(raster.term(k, position, -1, 0) == -value);
    assert(raster.term(k, position, -1, 1) == 0);
    assert(raster.term(k, position, 0, -1) == -value);
    assert(raster.term(k, position, 0, 1) == -value);
    assert(raster.term(k, position, 1, -1) == 0);
    assert(raster.term(k, position, 1, 0) == -value);
    assert(raster.term(k, position, 1, 1) == 0);
    assert(raster.weighted_sum(k, position) == 0);
}

/// A thresholded raster holds no sample but 0 and 255.
pub proof fn thresholded_is_binary(raster: Raster, cutoff: u8)
    ensures
        forall|position: int|
            0 <= position < raster.pixels.len() ==> {
                let sample = #[trigger] raster.thresholded(cutoff).pixels[position];
                sample == 0 || sample == 255
            },
{
}

/// Thresholding twice at one cutoff is thresholding once.
pub proof fn threshold_is_idempotent(raster: Raster, cutoff: u8)
    ensures
        raster.thresholded(cutoff).thresholded(cutoff) == raster.thresholded(cutoff),
{
    let once = raster.thresholded(cutoff);
    assert(once.thresholded(cutoff).pixels =~= once.pixels);
}

/// With the averaging kernel every term is a sample or nothing, so the
/// response at a position of the raster lies between 0 and 255.
pub proof fn lemma_mean_response_is_byte(raster: Raster, position: int)
    requires
        0 <= position < raster.pixels.len(),
    ensures
        0 <= raster.response(Stencil::mean(), position) <= 255,
        raster.response(Stencil::mean(), position) == raster.weighted_sum(
            Stencil::mean(),
            position,
        ) / 9,
{
    let k = Stencil::mean();
    assert forall|r: int, c: int| -1 <= r <= 1 && -1 <= c <= 1 implies 0 <= #[trigger] raster.term(
        k,
        position,
        r,
        c,
    ) <= 255 by {
        assert(k.weight(1 - r, 1 - c) == 1);
    }
    assert(k.weight(1, 1) == 1);
    assert(0 <= raster.term(k, position, -1, -1) <= 255);
    assert(0 <= raster.term(k, position, -1, 0) <= 255);
    assert(0 <= raster.term(k, position, -1, 1) <= 255);
    assert(0 <= raster.term(k, position, 0, -1) <= 255);
    assert(0 <= raster.term(k, position, 0, 1) <= 255);
    assert(0 <= raster.term(k, position, 1, -1) <= 255);
    assert(0 <= raster.term(k, position, 1, 0) <= 255);
    assert(0 <= raster.term(k, position, 1, 1) <= 255);
}

} // verus!
