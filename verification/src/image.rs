//! The 8-bit RGB framebuffer that a render ends in.

use vstd::prelude::*;

use crate::rgb_image::{rgb_image_height, rgb_image_new, rgb_image_put_pixel, rgb_image_samples, rgb_image_width, RgbBuffer};

verus! {

/// Index of the first byte of pixel `(x, y)` in a row-major RGB buffer whose
/// rows are `width` pixels long.
pub open spec fn pixel_start(width: int, x: int, y: int) -> int {
    (y * width + x) * 3
}

/// The three bytes of pixel `(x, y)`.
pub open spec fn pixel_of(data: Seq<u8>, width: int, x: int, y: int) -> (u8, u8, u8) {
    let i = pixel_start(width, x, y);
    (data[i], data[i + 1], data[i + 2])
}

/// `data` with pixel `(x, y)` replaced by `(r, g, b)`.
pub open spec fn with_pixel(data: Seq<u8>, width: int, x: int, y: int, r: u8, g: u8, b: u8) -> Seq<u8> {
    let i = pixel_start(width, x, y);
    data.update(i, r).update(i + 1, g).update(i + 2, b)
}

/// The decimal digits of `n` in ASCII, most significant first, with no
/// leading zero (`0` is the single digit `"0"`).
pub open spec fn decimal(n: nat) -> Seq<u8>
    decreases n,
{
    if n < 10 {
        seq![(48 + n) as u8]
    } else {
        decimal(n / 10).push((48 + n % 10) as u8)
    }
}

/// The number that a string of ASCII decimal digits spells.
pub open spec fn decimal_value(s: Seq<u8>) -> nat
    decreases s.len(),
{
    if s.len() == 0 {
        0
    } else {
        decimal_value(s.drop_last()) * 10 + (s.last() - 48) as nat
    }
}

/// Every byte is an ASCII digit.
pub open spec fn all_digits(s: Seq<u8>) -> bool {
    forall|i: int| 0 <= i < s.len() ==> 48 <= #[trigger] s[i] <= 57
}

/// Reading back the digits that `decimal` writes gives the number again;
/// the digits are ASCII digits and the first one is not `0` unless `n` is.
pub proof fn lemma_decimal_round_trip(n: nat)
    ensures
        all_digits(decimal(n)),
        decimal_value(decimal(n)) == n,
        1 <= decimal(n).len(),
        n >= 10 ==> decimal(n)[0] != 48,
    decreases n,
{
    if n >= 10 {
        lemma_decimal_round_trip(n / 10);
        let d = decimal(n / 10);
        assert(decimal(n).drop_last() =~= d);
        assert(decimal(n)[0] == d[0]);
        assert(decimal(n).last() == (48 + n % 10) as u8);
        assert(decimal_value(decimal(n)) == decimal_value(d) * 10 + n % 10);
    } else {
        assert(decimal(n).drop_last() =~= Seq::<u8>::empty());
        assert(decimal(n).last() == (48 + n) as u8);
        assert(decimal_value(decimal(n).drop_last()) == 0);
        assert(decimal_value(decimal(n)) == 0 * 10 + ((48 + n) as u8 - 48) as nat);
    }
}

/// The header of a binary (`P6`) PPM file for an image of the given size with
/// 8-bit samples: `P6`, the width and height in decimal separated by a space,
/// and the maximum sample value `255`, each line ended by a newline.
pub open spec fn ppm_header(width: nat, height: nat) -> Seq<u8> {
    seq![80u8, 54u8, 10u8] + decimal(width) + seq![32u8] + decimal(height) + seq![10u8, 50u8, 53u8, 53u8, 10u8]
}

/// A PPM header reads back as the image's size: after `P6` and a newline
/// come the width in decimal digits, a space, the height in decimal digits, a
/// newline, and `255` with a newline; each field spells its number.
pub proof fn lemma_ppm_header_reads_back(width: nat, height: nat)
    ensures
        exists|w_digits: Seq<u8>, h_digits: Seq<u8>|
            #![trigger decimal_value(w_digits), decimal_value(h_digits)]
            {
                &&& all_digits(w_digits)
                &&& all_digits(h_digits)
                &&& w_digits.len() >= 1
                &&& h_digits.len() >= 1
                &&& decimal_value(w_digits) == width
                &&& decimal_value(h_digits) == height
                &&& ppm_header(width, height)
                    == seq![80u8, 54u8, 10u8] + w_digits + seq![32u8] + h_digits + seq![10u8, 50u8, 53u8, 53u8, 10u8]
            },
{
    lemma_decimal_round_trip(width);
    lemma_decimal_round_trip(height);
    let w_digits = decimal(width);
    let h_digits = decimal(height);
    assert(decimal_value(w_digits) == width && decimal_value(h_digits) == height);
}

/// Appends the decimal digits of `n` to `out`.
fn push_decimal(out: &mut Vec<u8>, n: usize)
    ensures
        final(out)@ == old(out)@ + decimal(n as nat),
    decreases n,
{
    if n >= 10 {
        push_decimal(out, n / 10);
    }
    out.push(48u8 + (n % 10) as u8);
    proof {
        if n >= 10 {
            assert(decimal(n as nat) == decimal((n / 10) as nat).push((48 + n % 10) as u8));
        }
    }
}

/// The red, green and blue bytes of a `0xRRGGBB` color code (bits above the
/// low 24 are ignored).
pub fn hex_channels(hex: u32) -> (rgb: (u8, u8, u8))
    ensures
        rgb.0 == (hex / 0x10000) % 0x100,
        rgb.1 == (hex / 0x100) % 0x100,
        rgb.2 == hex % 0x100,
{
    let r = ((hex >> 16) & 0xFF) as u8;
    let g = ((hex >> 8) & 0xFF) as u8;
    let b = (hex & 0xFF) as u8;
    assert(((hex >> 16) & 0xFF) == (hex / 0x10000) % 0x100) by (bit_vector);
    assert(((hex >> 8) & 0xFF) == (hex / 0x100) % 0x100) by (bit_vector);
    assert((hex & 0xFF) == hex % 0x100) by (bit_vector);
    (r, g, b)
}

/// An 8-bit RGB image, stored row by row, three bytes per pixel.
pub struct PPMImage {
    pub width: usize,
    pub height: usize,
    data: Vec<u8>,
}

/// What an image is: its size and its bytes, row by row.
pub struct PpmView {
    pub width: nat,
    pub height: nat,
    pub bytes: Seq<u8>,
}

impl PpmView {
    /// The buffer holds exactly three bytes for each of the `width * height`
    /// pixels, no more than a vector can hold (`isize::MAX` bytes).
    pub open spec fn wf(self) -> bool {
        &&& self.bytes.len() == self.width * self.height * 3
        &&& self.bytes.len() <= isize::MAX
    }

    /// Pixel `(x, y)` lies inside the image (read as the linear index `y * width + x`).
    pub open spec fn holds_index(self, x: int, y: int) -> bool {
        0 <= y * self.width + x < self.width * self.height
    }
}

impl View for PPMImage {
    type V = PpmView;

    closed spec fn view(&self) -> PpmView {
        PpmView { width: self.width as nat, height: self.height as nat, bytes: self.data@ }
    }
}

impl PPMImage {

    /// A black image of the given size.
    pub fn new(width: usize, height: usize) -> (img: Self)
        requires
            width * height * 3 <= isize::MAX,
        ensures
            img@.wf(),
            img@.width == width,
            img@.height == height,
            forall|i: int| 0 <= i < img@.bytes.len() ==> img@.bytes[i] == 0,
    {
        let data = vec![0u8; width * height * 3];
        PPMImage { width, height, data }
    }

    /// Writes the bytes of pixel `(x, y)`; the position is taken as the linear
    /// index `y * width + x`, which must fall inside the image.
    pub fn set_pixel_raw(&mut self, x: usize, y: usize, r: u8, g: u8, b: u8)
        requires
            old(self)@.wf(),
            old(self)@.holds_index(x as int, y as int),
        ensures
            final(self)@.wf(),
            final(self)@.width == old(self)@.width,
            final(self)@.height == old(self)@.height,
            final(self)@.bytes == with_pixel(old(self)@.bytes, old(self)@.width as int, x as int, y as int, r, g, b),
    {
        let ghost w = self.width as int;
        let ghost h = self.height as int;
        proof {
            assert((y * w + x) * 3 + 2 < w * h * 3) by (nonlinear_arith)
                requires y * w + x < w * h;
            assert(0 <= y * w && 0 <= w * h) by (nonlinear_arith)
                requires 0 <= y, 0 <= w, 0 <= h;
            assert(self.data@.len() == w * h * 3);
            assert(self.data@.len() == self.data.len());
        }
        let index = (y * self.width + x) * 3;
        self.data.set(index, r);
        self.data.set(index + 1, g);
        self.data.set(index + 2, b);
    }

    /// Reads the bytes of pixel `(x, y)`, the position taken as for `set_pixel_raw`.
    pub fn get_pixel_raw(&self, x: usize, y: usize) -> (rgb: (u8, u8, u8))
        requires
            self@.wf(),
            self@.holds_index(x as int, y as int),
        ensures
            rgb == pixel_of(self@.bytes, self@.width as int, x as int, y as int),
    {
        let ghost w = self.width as int;
        let ghost h = self.height as int;
        proof {
            assert((y * w + x) * 3 + 2 < w * h * 3) by (nonlinear_arith)
                requires y * w + x < w * h;
            assert(0 <= y * w && 0 <= w * h) by (nonlinear_arith)
                requires 0 <= y, 0 <= w, 0 <= h;
            assert(self.data@.len() == w * h * 3);
            assert(self.data@.len() == self.data.len());
        }
        let index = (y * self.width + x) * 3;
        (self.data[index], self.data[index + 1], self.data[index + 2])
    }

    /// The bytes of the image as a binary PPM file: the header, then the
    /// pixel bytes row by row.
    pub fn to_ppm_bytes(&self) -> (out: Vec<u8>)
        requires
            self@.wf(),
        ensures
            out@ == ppm_header(self@.width, self@.height) + self@.bytes,
    {
        let mut out: Vec<u8> = Vec::new();
        out.push(80u8);
        out.push(54u8);
        out.push(10u8);
        push_decimal(&mut out, self.width);
        out.push(32u8);
        push_decimal(&mut out, self.height);
        out.push(10u8);
        out.push(50u8);
        out.push(53u8);
        out.push(53u8);
        out.push(10u8);
        let ghost header = out@;
        assert(header =~= ppm_header(self@.width, self@.height));
        let mut i: usize = 0;
        while i < self.data.len()
            invariant
                header == ppm_header(self@.width, self@.height),
                out@ == header + self@.bytes.take(i as int),
                self@.bytes == self.data@,
                i <= self.data@.len(),
            decreases self.data@.len() - i,
        {
            out.push(self.data[i]);
            i = i + 1;
            assert(self@.bytes.take(i as int) =~= self@.bytes.take(i - 1).push(self.data@[i - 1]));
        }
        assert(self@.bytes.take(i as int) =~= self@.bytes);
        out
    }

    /// Copies the image into an `image` crate RGB buffer of the same size,
    /// pixel by pixel. The buffer's size is kept in 32 bits: a side longer
    /// than that is only possible beside an empty other side, with no pixel
    /// to copy, and is cut to its low 32 bits.
    pub fn to_rgb_image(&self) -> (out: RgbBuffer)
        requires
            self@.wf(),
            self@.width <= u32::MAX || self@.height == 0,
            self@.height <= u32::MAX || self@.width == 0,
            3 * (self@.width as u32) <= usize::MAX,
        ensures
            rgb_image_width(out) == self@.width as u32,
            rgb_image_height(out) == self@.height as u32,
            rgb_image_samples(out) == self@.bytes,
    {
        let ghost w = self.width as int;
        let ghost h = self.height as int;
        let ghost len = w * h * 3;
        proof {
            assert(0 <= w * h && 3 * w * h == w * h * 3) by (nonlinear_arith)
                requires 0 <= w, 0 <= h;
            assert(self.data@.len() == self.data.len());
        }
        if self.width == 0 || self.height == 0 {
            let img = rgb_image_new(self.width as u32, self.height as u32);
            proof {
                assert(w * h == 0) by (nonlinear_arith)
                    requires w == 0 || h == 0;
                assert(self@.bytes.len() == 0);
                assert(rgb_image_samples(img) =~= self@.bytes);
            }
            return img;
        }
        proof {
            assert(3 * w <= 3 * w * h) by (nonlinear_arith)
                requires 0 <= w, 1 <= h;
        }
        let mut img = rgb_image_new(self.width as u32, self.height as u32);
        let mut y: usize = 0;
        while y < self.height
            invariant
                self@.wf(),
                w == self@.width,
                h == self@.height,
                w <= u32::MAX,
                h <= u32::MAX,
                len == self@.bytes.len(),
                len == w * h * 3,
                0 <= y <= h,
                rgb_image_width(img) == w,
                rgb_image_height(img) == h,
                rgb_image_samples(img).len() == len,
                forall|i: int| 0 <= i < y * w * 3 ==> rgb_image_samples(img)[i] == self@.bytes[i],
                forall|i: int| y * w * 3 <= i < len ==> rgb_image_samples(img)[i] == 0,
            decreases h - y,
        {
            let mut x: usize = 0;
            while x < self.width
                invariant
                    self@.wf(),
                    w == self@.width,
                    h == self@.height,
                    w <= u32::MAX,
                    h <= u32::MAX,
                    len == self@.bytes.len(),
                    len == w * h * 3,
                    0 <= y < h,
                    0 <= x <= w,
                    rgb_image_width(img) == w,
                    rgb_image_height(img) == h,
                    rgb_image_samples(img).len() == len,
                    forall|i: int| 0 <= i < (y * w + x) * 3 ==> rgb_image_samples(img)[i] == self@.bytes[i],
                    forall|i: int| (y * w + x) * 3 <= i < len ==> rgb_image_samples(img)[i] == 0,
                decreases w - x,
            {
                proof {
                    lemma_linear_index(w, h, x as int, y as int, x as int, y as int);
                    let k = y * w + x;
                    assert(k * 3 + 3 <= w * h * 3) by (nonlinear_arith)
                        requires 0 <= k < w * h;
                }
                let rgb = self.get_pixel_raw(x, y);
                rgb_image_put_pixel(&mut img, x as u32, y as u32, rgb.0, rgb.1, rgb.2);
                x = x + 1;
            }
            proof {
                assert(y * w + w == (y + 1) * w) by (nonlinear_arith);
            }
            y = y + 1;
        }
        proof {
            assert(y * w * 3 == len) by (nonlinear_arith)
                requires y == h, len == w * h * 3;
            assert(rgb_image_samples(img) =~= self@.bytes);
        }
        img
    }
}

/// A pixel given by column and row inside a `width` by `height` image has a
/// linear index inside the image, and two distinct pixels have distinct indices.
proof fn lemma_linear_index(width: int, height: int, x: int, y: int, x2: int, y2: int)
    requires
        0 <= x < width,
        0 <= y < height,
        0 <= x2 < width,
        0 <= y2 < height,
    ensures
        0 <= y * width + x < width * height,
        (x, y) != (x2, y2) ==> y * width + x != y2 * width + x2,
{
    assert(0 <= y * width + x < width * height) by (nonlinear_arith)
        requires 0 <= x < width, 0 <= y < height;
    if y < y2 {
        assert(y * width + x < y2 * width + x2) by (nonlinear_arith)
            requires 0 <= x < width, y < y2, 0 <= x2;
    } else if y2 < y {
        assert(y2 * width + x2 < y * width + x) by (nonlinear_arith)
            requires 0 <= x2 < width, y2 < y, 0 <= x;
    }
}

/// Read after write: once pixel `(x, y)` is set to `(r, g, b)`, reading it
/// gives `(r, g, b)`, and every other pixel of the image reads as before.
pub proof fn lemma_pixel_read_after_write(img: PpmView, x: int, y: int, x2: int, y2: int, r: u8, g: u8, b: u8)
    requires
        img.wf(),
        0 <= x < img.width,
        0 <= y < img.height,
        0 <= x2 < img.width,
        0 <= y2 < img.height,
    ensures
        img.holds_index(x, y),
        pixel_of(with_pixel(img.bytes, img.width as int, x, y, r, g, b), img.width as int, x, y) == (r, g, b),
        (x2, y2) != (x, y) ==> pixel_of(with_pixel(img.bytes, img.width as int, x, y, r, g, b), img.width as int, x2, y2)
            == pixel_of(img.bytes, img.width as int, x2, y2),
{
    let w = img.width as int;
    let h = img.height as int;
    lemma_linear_index(w, h, x, y, x2, y2);
    lemma_linear_index(w, h, x2, y2, x, y);
    let k = y * w + x;
    let k2 = y2 * w + x2;
    assert(k * 3 + 2 < w * h * 3 && k2 * 3 + 2 < w * h * 3) by (nonlinear_arith)
        requires 0 <= k < w * h, 0 <= k2 < w * h;
}

} // verus!
