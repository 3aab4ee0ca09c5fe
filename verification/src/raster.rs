//! Raster images as flat, row-major RGB sample buffers, with the crop the
//! region extractor needs and a resampling step that brings a cropped reward
//! strip to the canonical reference dimensions.

use vstd::prelude::*;

use crate::color::Rgb;

verus! {

/// A decoded raster image: `data` holds three bytes per pixel, row-major.
#[derive(Debug, Clone)]
pub struct Image {
    pub width: u32,
    pub height: u32,
    pub data: Vec<u8>,
}

impl Image {
    /// The buffer holds exactly three samples for every pixel.
    pub open spec fn wf(&self) -> bool {
        self.data@.len() == 3 * self.width * self.height
    }

    /// The color of the pixel at column `x`, row `y`.
    pub open spec fn spec_pixel(&self, x: int, y: int) -> Rgb {
        Rgb {
            r: self.data@[3 * (y * self.width + x)],
            g: self.data@[3 * (y * self.width + x) + 1],
            b: self.data@[3 * (y * self.width + x) + 2],
        }
    }

    /// Reads one pixel.
    pub fn pixel(&self, x: u32, y: u32) -> (c: Rgb)
        requires
            self.wf(),
            x < self.width,
            y < self.height,
        ensures
            c == self.spec_pixel(x as int, y as int),
    {
        let l = self.data.len();
        proof {
            lemma_pixel_index_bound(self.width as int, self.height as int, x as int, y as int);
        }
        let base: usize = 3 * (y as usize * self.width as usize + x as usize);
        Rgb { r: self.data[base], g: self.data[base + 1], b: self.data[base + 2] }
    }

    /// Overwrites one pixel.
    pub fn set_pixel(&mut self, x: u32, y: u32, c: Rgb)
        requires
            old(self).wf(),
            x < old(self).width,
            y < old(self).height,
        ensures
            final(self).wf(),
            final(self).width == old(self).width,
            final(self).height == old(self).height,
            final(self).spec_pixel(x as int, y as int) == c,
            forall|i: int, j: int|
                0 <= i < old(self).width && 0 <= j < old(self).height && !(i == x && j == y)
                    ==> final(self).spec_pixel(i, j) == old(self).spec_pixel(i, j),
    {
        let l = self.data.len();
        proof {
            lemma_pixel_index_bound(self.width as int, self.height as int, x as int, y as int);
        }
        let base: usize = 3 * (y as usize * self.width as usize + x as usize);
        self.data.set(base, c.r);
        self.data.set(base + 1, c.g);
        self.data.set(base + 2, c.b);
        proof {
            assert forall|i: int, j: int|
                0 <= i < self.width && 0 <= j < self.height && !(i == x && j == y)
                    implies self.spec_pixel(i, j) == old(self).spec_pixel(i, j) by {
                lemma_pixel_index_bound(self.width as int, self.height as int, i, j);
                lemma_pixel_index_distinct(
                    self.width as int,
                    self.height as int,
                    i,
                    j,
                    x as int,
                    y as int,
                );
            }
        }
    }

    /// A new image of the given dimensions, every pixel set to `c`.
    pub fn new_filled(width: u32, height: u32, c: Rgb) -> (img: Image)
        requires
            3 * (width as int) * (height as int) <= usize::MAX,
        ensures
            img.wf(),
            img.width == width,
            img.height == height,
            forall|i: int, j: int|
                0 <= i < width && 0 <= j < height ==> img.spec_pixel(i, j) == c,
    {
        proof {
            assert(0 <= (width as int) * (height as int) && 3 * ((width as int) * (height as int))
                == 3 * (width as int) * (height as int)) by (nonlinear_arith);
        }
        let total: usize = 3 * (width as usize * height as usize);
        let mut data: Vec<u8> = Vec::new();
        let mut k: usize = 0;
        while k < total
            invariant
                k <= total,
                total == 3 * width * height,
                data@.len() == k,
                forall|t: int| 0 <= t < k ==> data@[t] == pixel_byte(c, t),
            decreases total - k,
        {
            let rem: usize = k % 3;
            let byte: u8 = if rem == 0 {
                c.r
            } else if rem == 1 {
                c.g
            } else {
                c.b
            };
            data.push(byte);
            k += 1;
        }
        let img = Image { width, height, data };
        proof {
            assert forall|i: int, j: int|
                0 <= i < width && 0 <= j < height implies img.spec_pixel(i, j) == c by {
                lemma_pixel_index_bound(width as int, height as int, i, j);
                lemma_filled_pixel(c, i, j, width as int);
                let p = 3 * (j * (width as int) + i);
                assert(0 <= p && p + 2 < total);
                assert(img.data@[p] == pixel_byte(c, p));
                assert(img.data@[p + 1] == pixel_byte(c, p + 1));
                assert(img.data@[p + 2] == pixel_byte(c, p + 2));
                assert(img.data@[p] == c.r && img.data@[p + 1] == c.g && img.data@[p + 2] == c.b);
            }
        }
        img
    }

    /// The `w` by `h` sub-image whose top-left corner sits at `(x, y)`.
    pub fn crop(&self, x: u32, y: u32, w: u32, h: u32) -> (img: Image)
        requires
            self.wf(),
            x + w <= self.width,
            y + h <= self.height,
        ensures
            img.wf(),
            img.width == w,
            img.height == h,
            forall|i: int, j: int|
                0 <= i < w && 0 <= j < h ==> img.spec_pixel(i, j) == self.spec_pixel(x + i, y + j),
    {
        let l = self.data.len();
        proof {
            assert(3 * (w as int) * (h as int) <= 3 * (self.width as int) * (self.height as int))
                by (nonlinear_arith)
                requires
                    0 <= w <= self.width,
                    0 <= h <= self.height,
            ;
        }
        let mut out = Image::new_filled(w, h, Rgb { r: 0, g: 0, b: 0 });
        let mut j: u32 = 0;
        while j < h
            invariant
                j <= h,
                self.wf(),
                x + w <= self.width,
                y + h <= self.height,
                out.wf(),
                out.width == w,
                out.height == h,
                forall|a: int, b: int|
                    0 <= a < w && 0 <= b < j ==> out.spec_pixel(a, b) == self.spec_pixel(
                        x + a,
                        y + b,
                    ),
            decreases h - j,
        {
            let mut i: u32 = 0;
            while i < w
                invariant
                    i <= w,
                    j < h,
                    self.wf(),
                    x + w <= self.width,
                    y + h <= self.height,
                    out.wf(),
                    out.width == w,
                    out.height == h,
                    forall|a: int, b: int|
                        0 <= a < w && 0 <= b < j ==> out.spec_pixel(a, b) == self.spec_pixel(
                            x + a,
                            y + b,
                        ),
                    forall|a: int|
                        0 <= a < i ==> out.spec_pixel(a, j as int) == self.spec_pixel(
                            x + a,
                            y + j,
                        ),
                decreases w - i,
            {
                let c = self.pixel(x + i, y + j);
                out.set_pixel(i, j, c);
                i += 1;
            }
            j += 1;
        }
        out
    }
}

/// The sample buffer that resampling a raster of the given dimensions to
/// the new dimensions produces: a pure function of the source samples and
/// the four dimensions.
pub uninterp spec fn resized_of(
    data: Seq<u8>,
    width: int,
    height: int,
    new_width: int,
    new_height: int,
) -> Seq<u8>;

/// Relies on `image::imageops::resize`, which returns a buffer of exactly
/// the requested dimensions, resampled from the source through a Lanczos
/// window — a deterministic function of the source samples and the
/// dimensions alone, named `resized_of` — and on `image::RgbImage::from_raw`,
/// which accepts a buffer that holds exactly three bytes per pixel.
#[verifier::external_body]
pub fn resize_image(img: &Image, new_width: u32, new_height: u32) -> (r: Image)
    requires
        img.wf(),
    ensures
        r.wf(),
        r.width == new_width,
        r.height == new_height,
        r.data@ == resized_of(
            img.data@,
            img.width as int,
            img.height as int,
            new_width as int,
            new_height as int,
        ),
{
    let buf = image::RgbImage::from_raw(img.width, img.height, img.data.clone())
        .expect("buffer length matches the dimensions");
    let resized = image::imageops::resize(
        &buf,
        new_width,
        new_height,
        image::imageops::FilterType::Lanczos3,
    );
    Image { width: new_width, height: new_height, data: resized.into_raw() }
}

/// The byte that position `t` of a uniformly filled buffer holds.
pub open spec fn pixel_byte(c: Rgb, t: int) -> u8 {
    if t % 3 == 0 {
        c.r
    } else if t % 3 == 1 {
        c.g
    } else {
        c.b
    }
}

proof fn lemma_filled_pixel(c: Rgb, i: int, j: int, width: int)
    requires
        0 <= i < width,
        0 <= j,
    ensures
        (3 * (j * width + i)) % 3 == 0,
        (3 * (j * width + i) + 1) % 3 == 1,
        (3 * (j * width + i) + 2) % 3 == 2,
{
    assert(j * width + i >= 0) by (nonlinear_arith)
        requires
            0 <= i,
            0 <= j,
            i < width,
    ;
    let p = j * width + i;
    assert((3 * p) % 3 == 0 && (3 * p + 1) % 3 == 1 && (3 * p + 2) % 3 == 2) by (nonlinear_arith)
        requires
            p >= 0,
    ;
}

/// Pixel coordinates inside the image index inside the buffer.
proof fn lemma_pixel_index_bound(width: int, height: int, x: int, y: int)
    requires
        0 <= x < width,
        0 <= y < height,
    ensures
        0 <= 3 * (y * width + x),
        3 * (y * width + x) + 2 < 3 * width * height,
{
    assert(0 <= y * width + x && y * width + x < width * height) by (nonlinear_arith)
        requires
            0 <= x < width,
            0 <= y < height,
    ;
    assert(3 * (y * width + x) + 2 < 3 * (width * height)) by (nonlinear_arith)
        requires
            y * width + x < width * height,
    ;
    assert(3 * (width * height) == 3 * width * height) by (nonlinear_arith);
}

/// Distinct pixel coordinates use disjoint byte triples.
proof fn lemma_pixel_index_distinct(width: int, height: int, a: int, b: int, x: int, y: int)
    requires
        0 <= a < width,
        0 <= b < height,
        0 <= x < width,
        0 <= y < height,
        !(a == x && b == y),
    ensures
        y * width + x != b * width + a,
{
    if b == y {
        assert(a != x);
    } else {
        assert(b * width + a != y * width + x) by (nonlinear_arith)
            requires
                0 <= a < width,
                0 <= x < width,
                b != y,
        ;
    }
}

} // verus!
