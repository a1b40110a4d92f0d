//! The image pipeline: decode, center-crop to a square, resize, and compose
//! four squares onto a bordered canvas.
//!
//! Decoding and resampling are done by the `image` crate behind trusted
//! wrappers; cropping and composition are verified here, pixel for pixel.

use vstd::prelude::*;

verus! {

/// An RGB image. `pixels` holds the rows top to bottom, three bytes
/// (red, green, blue) per pixel.
pub struct Image {
    pub width: u32,
    pub height: u32,
    pub pixels: Vec<u8>,
}

impl Image {
    /// The buffer holds exactly `width * height` pixels of three bytes.
    pub open spec fn wf(self) -> bool {
        self.pixels@.len() == 3 * self.width * self.height
    }

    /// Channel `c` (0 red, 1 green, 2 blue) of the pixel at column `x`, row `y`.
    pub open spec fn chan(self, x: int, y: int, c: int) -> u8 {
        self.pixels@[3 * (y * self.width + x) + c]
    }
}

/// Byte `c` of the pixel at `(x, y)` of a row-major RGB buffer of width `w`.
pub open spec fn pix(s: Seq<u8>, w: int, x: int, y: int, c: int) -> u8 {
    s[3 * (y * w + x) + c]
}

/// Why a source image could not be turned into a normalized square.
#[derive(Clone, Copy, PartialEq, Eq, Structural, Debug)]
pub enum LoadError {
    /// The bytes are not a supported image format.
    Undecodable,
    /// The bytes decoded to an image with a zero dimension.
    ZeroSize,
}

/// What `image::load_from_memory` decodes from the given bytes: the
/// dimensions of the resulting RGB image, or nothing when the bytes are not
/// a supported image format. Decoding is a pure function of the bytes.
pub uninterp spec fn decode_dims(data: Seq<u8>) -> Option<(u32, u32)>;

/// Relies on `image::load_from_memory` and `DynamicImage::to_rgb8`: decoding
/// depends on the bytes alone, and the RGB buffer holds three bytes per pixel
/// in row-major order.
#[verifier::external_body]
fn decode_rgb(data: &Vec<u8>) -> (r: Result<Image, LoadError>)
    ensures
        r is Ok <==> decode_dims(data@) is Some,
        r matches Ok(img) ==> img.wf() && decode_dims(data@) == Some((img.width, img.height)),
        r matches Err(e) ==> e == LoadError::Undecodable,
{
    match image::load_from_memory(data) {
        Ok(img) => {
            let rgb = img.to_rgb8();
            let (w, h) = rgb.dimensions();
            Ok(Image { width: w, height: h, pixels: rgb.into_raw() })
        },
        Err(_) => Err(LoadError::Undecodable),
    }
}

/// Relies on `DynamicImage::resize_exact` with the Lanczos3 filter: the
/// result has exactly the requested dimensions. The pixel values are
/// filter-defined and deliberately left unspecified.
#[verifier::external_body]
fn resize_exact_rgb(img: Image, target: u32) -> (r: Image)
    requires
        img.wf(),
        img.width >= 1,
        img.height >= 1,
        target >= 1,
        3 * target * target <= usize::MAX,
    ensures
        r.wf(),
        r.width == target,
        r.height == target,
{
    let buf = image::RgbImage::from_raw(img.width, img.height, img.pixels).unwrap();
    let resized = image::DynamicImage::ImageRgb8(buf)
        .resize_exact(target, target, image::imageops::FilterType::Lanczos3)
        .to_rgb8();
    Image { width: target, height: target, pixels: resized.into_raw() }
}

/// The side of the centered square crop: the shorter dimension.
pub open spec fn side_of(w: int, h: int) -> int {
    if w <= h {
        w
    } else {
        h
    }
}

/// Horizontal offset of the centered square crop.
pub open spec fn x_off_of(w: int, h: int) -> int {
    (w - side_of(w, h)) / 2
}

/// Vertical offset of the centered square crop.
pub open spec fn y_off_of(w: int, h: int) -> int {
    (h - side_of(w, h)) / 2
}

/// The crop offsets for a `width` by `height` image: the margins discarded
/// on the left and on the top.
pub fn crop_offsets(width: u32, height: u32) -> (r: (u32, u32))
    ensures
        r.0 == x_off_of(width as int, height as int),
        r.1 == y_off_of(width as int, height as int),
{
    let m = if width <= height {
        width
    } else {
        height
    };
    ((width - m) / 2, (height - m) / 2)
}

/// Centered cropping splits the discarded margin evenly: on each axis, twice
/// the offset plus the cropped side reaches the original extent exactly or
/// falls one short (floor division).
pub proof fn lemma_crop_offsets_symmetry(w: int, h: int)
    requires
        w >= 0,
        h >= 0,
    ensures
        2 * x_off_of(w, h) + side_of(w, h) == w || 2 * x_off_of(w, h) + side_of(w, h) == w - 1,
        2 * y_off_of(w, h) + side_of(w, h) == h || 2 * y_off_of(w, h) + side_of(w, h) == h - 1,
{
    let m = side_of(w, h);
    assert(2 * ((w - m) / 2) == w - m || 2 * ((w - m) / 2) == w - m - 1);
    assert(2 * ((h - m) / 2) == h - m || 2 * ((h - m) / 2) == h - m - 1);
}

/// A square image is not cropped at all: the offsets are zero and the side
/// is the full extent.
pub proof fn lemma_crop_offsets_square(w: int)
    requires
        w >= 0,
    ensures
        side_of(w, w) == w,
        x_off_of(w, w) == 0,
        y_off_of(w, w) == 0,
{
}

/// Pixel positions written earlier in row-major order sit at smaller
/// buffer indices.
proof fn lemma_index_lt(w: int, x: int, y: int, c: int, x2: int, y2: int, c2: int)
    by (nonlinear_arith)
    requires
        0 <= x2 < w,
        0 <= c2 < 3,
        0 <= y2,
        0 <= x,
        0 <= c,
        (y2 < y) || (y2 == y && x2 < x) || (y2 == y && x2 == x && c2 < c),
    ensures
        0 <= 3 * (y2 * w + x2) + c2 < 3 * (y * w + x) + c,
{
}

/// A pixel index stays inside a `w` by `h` buffer.
proof fn lemma_pixel_index(w: int, h: int, x: int, y: int)
    by (nonlinear_arith)
    requires
        0 <= x < w,
        0 <= y < h,
    ensures
        0 <= 3 * (y * w + x),
        3 * (y * w + x) + 2 < 3 * (w * h),
{
}

/// The centered square crop of an image: the shorter dimension becomes the
/// side, and the kept pixels are the centered ones.
#[verifier::loop_isolation(false)]
pub fn crop_square(img: &Image) -> (r: Image)
    requires
        img.wf(),
    ensures
        r.wf(),
        r.width == side_of(img.width as int, img.height as int),
        r.height == r.width,
        forall|x: int, y: int, c: int|
            0 <= x < r.width && 0 <= y < r.height && 0 <= c < 3 ==> r.chan(x, y, c) == img.chan(
                x + x_off_of(img.width as int, img.height as int),
                y + y_off_of(img.width as int, img.height as int),
                c,
            ),
{
    let w = img.width;
    let h = img.height;
    let (x_off, y_off) = crop_offsets(w, h);
    let m = if w <= h {
        w
    } else {
        h
    };
    let n = img.pixels.len();
    proof {
        assert(3 * ((w as int) * (h as int)) == 3 * (w as int) * (h as int)) by (nonlinear_arith);
    }
    let mut pixels: Vec<u8> = Vec::new();
    let mut y: u32 = 0;
    while y < m
        invariant
            img.wf(),
            m == side_of(w as int, h as int),
            x_off == x_off_of(w as int, h as int),
            y_off == y_off_of(w as int, h as int),
            w == img.width,
            h == img.height,
            n == img.pixels@.len(),
            0 <= y <= m,
            pixels@.len() == 3 * (y * m),
            forall|x2: int, y2: int, c2: int|
                0 <= x2 < m && 0 <= y2 < y && 0 <= c2 < 3 ==> #[trigger] pix(pixels@, m as int, x2, y2, c2)
                    == img.chan(x2 + x_off, y2 + y_off, c2),
        decreases m - y,
    {
        let mut x: u32 = 0;
        while x < m
            invariant
                img.wf(),
                m == side_of(w as int, h as int),
                x_off == x_off_of(w as int, h as int),
                y_off == y_off_of(w as int, h as int),
                w == img.width,
                h == img.height,
                n == img.pixels@.len(),
                0 <= y < m,
                0 <= x <= m,
                pixels@.len() == 3 * (y * m + x),
                forall|x2: int, y2: int, c2: int|
                    0 <= x2 < m && 0 <= y2 < y && 0 <= c2 < 3 ==> #[trigger] pix(pixels@, m as int, x2, y2, c2)
                        == img.chan(x2 + x_off, y2 + y_off, c2),
                forall|x2: int, c2: int|
                    0 <= x2 < x && 0 <= c2 < 3 ==> #[trigger] pix(pixels@, m as int, x2, y as int, c2)
                        == img.chan(x2 + x_off, y + y_off, c2),
            decreases m - x,
        {
            let sx = x + x_off;
            let sy = y + y_off;
            proof {
                lemma_pixel_index(w as int, h as int, sx as int, sy as int);
                lemma_pixel_index(m as int, m as int, x as int, y as int);
            }
            let base: usize = 3 * ((sy as usize) * (w as usize) + (sx as usize));
            let mut c: u32 = 0;
            while c < 3
                invariant
                    img.wf(),
                    w == img.width,
                    h == img.height,
                    n == img.pixels@.len(),
                    0 <= sx < w,
                    0 <= sy < h,
                    base == 3 * (sy * w + sx),
                    base + 2 < n,
                    0 <= c <= 3,
                    pixels@.len() == 3 * (y * m + x) + c,
                    forall|x2: int, y2: int, c2: int|
                        0 <= x2 < m && 0 <= y2 < y && 0 <= c2 < 3 ==> #[trigger] pix(pixels@, m as int, x2, y2, c2)
                            == img.chan(x2 + x_off, y2 + y_off, c2),
                    forall|x2: int, c2: int|
                        0 <= x2 < x && 0 <= c2 < 3 ==> #[trigger] pix(pixels@, m as int, x2, y as int, c2)
                            == img.chan(x2 + x_off, y + y_off, c2),
                    forall|c2: int|
                        0 <= c2 < c ==> #[trigger] pix(pixels@, m as int, x as int, y as int, c2) == img.chan(
                            x + x_off,
                            y + y_off,
                            c2,
                        ),
                decreases 3 - c,
            {
                let v = img.pixels[base + (c as usize)];
                let ghost prev = pixels@;
                pixels.push(v);
                proof {
                    assert(v == img.chan(sx as int, sy as int, c as int));
                    assert forall|x2: int, y2: int, c2: int|
                        0 <= x2 < m && 0 <= y2 < y && 0 <= c2 < 3 implies #[trigger] pix(
                        pixels@,
                        m as int,
                        x2,
                        y2,
                        c2,
                    ) == pix(prev, m as int, x2, y2, c2) by {
                        lemma_index_lt(m as int, x as int, y as int, c as int, x2, y2, c2);
                    }
                    assert forall|x2: int, c2: int| 0 <= x2 < x && 0 <= c2 < 3 implies #[trigger] pix(
                        pixels@,
                        m as int,
                        x2,
                        y as int,
                        c2,
                    ) == pix(prev, m as int, x2, y as int, c2) by {
                        lemma_index_lt(m as int, x as int, y as int, c as int, x2, y as int, c2);
                    }
                    assert forall|c2: int| 0 <= c2 < c implies #[trigger] pix(
                        pixels@,
                        m as int,
                        x as int,
                        y as int,
                        c2,
                    ) == pix(prev, m as int, x as int, y as int, c2) by {
                        lemma_index_lt(
                            m as int,
                            x as int,
                            y as int,
                            c as int,
                            x as int,
                            y as int,
                            c2,
                        );
                    }
                    assert(pix(pixels@, m as int, x as int, y as int, c as int) == v);
                }
                c = c + 1;
            }
            x = x + 1;
            proof {
                assert(3 * (y * m + (x - 1)) + 3 == 3 * (y * m + x)) by (nonlinear_arith);
            }
        }
        y = y + 1;
        proof {
            assert(3 * ((y - 1) * m + m) == 3 * (y * m)) by (nonlinear_arith);
        }
    }
    let r = Image { width: m, height: m, pixels };
    proof {
        assert(3 * ((m as int) * (m as int)) == 3 * (m as int) * (m as int)) by (nonlinear_arith);
        assert forall|x: int, y2: int, c: int|
            0 <= x < r.width && 0 <= y2 < r.height && 0 <= c < 3 implies r.chan(x, y2, c)
            == img.chan(
            x + x_off_of(img.width as int, img.height as int),
            y2 + y_off_of(img.width as int, img.height as int),
            c,
        ) by {
            lemma_pixel_index(m as int, m as int, x, y2);
            assert(r.chan(x, y2, c) == pix(r.pixels@, m as int, x, y2, c));
        }
    }
    r
}

/// The background color of the canvas: every channel of white.
pub open spec fn background() -> u8 {
    255
}

/// The channel `c` of the canvas pixel at `(x, y)` for a collage of the
/// given images with per-image side `size` and border `border`: the four
/// squares sit at the four corners of a `2 * size + border` canvas, and
/// everything else, including a slot with no image, is background.
pub open spec fn collage_chan(
    imgs: Seq<Image>,
    size: int,
    border: int,
    x: int,
    y: int,
    c: int,
) -> u8 {
    if x < size && y < size {
        if imgs.len() > 0 {
            imgs[0].chan(x, y, c)
        } else {
            background()
        }
    } else if x >= size + border && y < size {
        if imgs.len() > 1 {
            imgs[1].chan(x - (size + border), y, c)
        } else {
            background()
        }
    } else if x < size && y >= size + border {
        if imgs.len() > 2 {
            imgs[2].chan(x, y - (size + border), c)
        } else {
            background()
        }
    } else if x >= size + border && y >= size + border {
        if imgs.len() > 3 {
            imgs[3].chan(x - (size + border), y - (size + border), c)
        } else {
            background()
        }
    } else {
        background()
    }
}

/// The pixel at `(size + border + dx, dy)` of a full collage comes from the
/// top-right image, for every `dx`, `dy` inside the square.
pub proof fn lemma_top_right_slot(
    imgs: Seq<Image>,
    size: int,
    border: int,
    dx: int,
    dy: int,
    c: int,
)
    requires
        imgs.len() == 4,
        border >= 0,
        0 <= dx < size,
        0 <= dy < size,
        0 <= c < 3,
    ensures
        collage_chan(imgs, size, border, size + border + dx, dy, c) == imgs[1].chan(dx, dy, c),
{
}

/// Canvas pixels in the border cross, outside all four squares, are
/// background.
pub proof fn lemma_border_background(
    imgs: Seq<Image>,
    size: int,
    border: int,
    x: int,
    y: int,
    c: int,
)
    requires
        0 <= x < 2 * size + border,
        0 <= y < 2 * size + border,
        0 <= c < 3,
        (size <= x < size + border) || (size <= y < size + border),
    ensures
        collage_chan(imgs, size, border, x, y, c) == background(),
{
}

/// Composes up to four processed squares onto a bordered canvas.
///
/// The canvas is `2 * size + border_width` on each axis. Slot 0 is top-left,
/// 1 top-right, 2 bottom-left, 3 bottom-right; missing slots and the border
/// cross stay background white.
#[verifier::loop_isolation(false)]
pub fn create_collage(images: &Vec<Image>, size: u32, border_width: u32) -> (r: Image)
    requires
        images@.len() <= 4,
        forall|i: int|
            0 <= i < images@.len() ==> (#[trigger] images@[i]).wf() && images@[i].width == size
                && images@[i].height == size,
        2 * size + border_width <= u32::MAX,
        3 * (2 * size + border_width) * (2 * size + border_width) <= usize::MAX,
    ensures
        r.wf(),
        r.width == 2 * size + border_width,
        r.height == 2 * size + border_width,
        forall|x: int, y: int, c: int|
            0 <= x < r.width && 0 <= y < r.height && 0 <= c < 3 ==> r.chan(x, y, c) == collage_chan(
                images@,
                size as int,
                border_width as int,
                x,
                y,
                c,
            ),
{
    let cs: u32 = 2 * size + border_width;
    let off: u32 = size + border_width;
    let mut pixels: Vec<u8> = Vec::new();
    let mut y: u32 = 0;
    while y < cs
        invariant
            images@.len() <= 4,
            forall|i: int|
                0 <= i < images@.len() ==> (#[trigger] images@[i]).wf() && images@[i].width == size
                    && images@[i].height == size,
            cs == 2 * size + border_width,
            off == size + border_width,
            0 <= y <= cs,
            pixels@.len() == 3 * (y * cs),
            forall|x2: int, y2: int, c2: int|
                0 <= x2 < cs && 0 <= y2 < y && 0 <= c2 < 3 ==> #[trigger] pix(pixels@, cs as int, x2, y2, c2)
                    == collage_chan(images@, size as int, border_width as int, x2, y2, c2),
        decreases cs - y,
    {
        let mut x: u32 = 0;
        while x < cs
            invariant
                images@.len() <= 4,
                forall|i: int|
                    0 <= i < images@.len() ==> (#[trigger] images@[i]).wf() && images@[i].width
                        == size && images@[i].height == size,
                cs == 2 * size + border_width,
                off == size + border_width,
                0 <= y < cs,
                0 <= x <= cs,
                pixels@.len() == 3 * (y * cs + x),
                forall|x2: int, y2: int, c2: int|
                    0 <= x2 < cs && 0 <= y2 < y && 0 <= c2 < 3 ==> #[trigger] pix(pixels@, cs as int, x2, y2, c2)
                        == collage_chan(images@, size as int, border_width as int, x2, y2, c2),
                forall|x2: int, c2: int|
                    0 <= x2 < x && 0 <= c2 < 3 ==> #[trigger] pix(pixels@, cs as int, x2, y as int, c2)
                        == collage_chan(images@, size as int, border_width as int, x2, y as int, c2),
            decreases cs - x,
        {
            let mut c: u32 = 0;
            while c < 3
                invariant
                    images@.len() <= 4,
                    forall|i: int|
                        0 <= i < images@.len() ==> (#[trigger] images@[i]).wf() && images@[i].width
                            == size && images@[i].height == size,
                    cs == 2 * size + border_width,
                    off == size + border_width,
                    0 <= y < cs,
                    0 <= x < cs,
                    0 <= c <= 3,
                    pixels@.len() == 3 * (y * cs + x) + c,
                    forall|x2: int, y2: int, c2: int|
                        0 <= x2 < cs && 0 <= y2 < y && 0 <= c2 < 3 ==> #[trigger] pix(pixels@, cs as int, x2, y2, c2)
                            == collage_chan(images@, size as int, border_width as int, x2, y2, c2),
                    forall|x2: int, c2: int|
                        0 <= x2 < x && 0 <= c2 < 3 ==> #[trigger] pix(pixels@, cs as int, x2, y as int, c2)
                            == collage_chan(images@, size as int, border_width as int, x2, y as int, c2),
                    forall|c2: int|
                        0 <= c2 < c ==> #[trigger] pix(pixels@, cs as int, x as int, y as int, c2)
                            == collage_chan(images@, size as int, border_width as int, x as int, y as int, c2),
                decreases 3 - c,
            {
                let v: u8 = if x < size && y < size {
                    fetch_chan(images, 0, size, x, y, c)
                } else if x >= off && y < size {
                    fetch_chan(images, 1, size, x - off, y, c)
                } else if x < size && y >= off {
                    fetch_chan(images, 2, size, x, y - off, c)
                } else if x >= off && y >= off {
                    fetch_chan(images, 3, size, x - off, y - off, c)
                } else {
                    255
                };
                let ghost prev = pixels@;
                pixels.push(v);
                proof {
                    assert(v == collage_chan(
                        images@,
                        size as int,
                        border_width as int,
                        x as int,
                        y as int,
                        c as int,
                    ));
                    assert forall|x2: int, y2: int, c2: int|
                        0 <= x2 < cs && 0 <= y2 < y && 0 <= c2 < 3 implies #[trigger] pix(
                        pixels@,
                        cs as int,
                        x2,
                        y2,
                        c2,
                    ) == pix(prev, cs as int, x2, y2, c2) by {
                        lemma_index_lt(cs as int, x as int, y as int, c as int, x2, y2, c2);
                    }
                    assert forall|x2: int, c2: int| 0 <= x2 < x && 0 <= c2 < 3 implies #[trigger] pix(
                        pixels@,
                        cs as int,
                        x2,
                        y as int,
                        c2,
                    ) == pix(prev, cs as int, x2, y as int, c2) by {
                        lemma_index_lt(cs as int, x as int, y as int, c as int, x2, y as int, c2);
                    }
                    assert forall|c2: int| 0 <= c2 < c implies #[trigger] pix(
                        pixels@,
                        cs as int,
                        x as int,
                        y as int,
                        c2,
                    ) == pix(prev, cs as int, x as int, y as int, c2) by {
                        lemma_index_lt(
                            cs as int,
                            x as int,
                            y as int,
                            c as int,
                            x as int,
                            y as int,
                            c2,
                        );
                    }
                    assert(pix(pixels@, cs as int, x as int, y as int, c as int) == v);
                }
                c = c + 1;
            }
            x = x + 1;
            proof {
                assert(3 * (y * cs + (x - 1)) + 3 == 3 * (y * cs + x)) by (nonlinear_arith);
            }
        }
        y = y + 1;
        proof {
            assert(3 * ((y - 1) * cs + cs) == 3 * (y * cs)) by (nonlinear_arith);
        }
    }
    let r = Image { width: cs, height: cs, pixels };
    proof {
        assert(3 * ((cs as int) * (cs as int)) == 3 * (cs as int) * (cs as int)) by (nonlinear_arith);
        assert forall|x: int, y2: int, c: int|
            0 <= x < r.width && 0 <= y2 < r.height && 0 <= c < 3 implies r.chan(x, y2, c)
            == collage_chan(images@, size as int, border_width as int, x, y2, c) by {
            lemma_pixel_index(cs as int, cs as int, x, y2);
            assert(r.chan(x, y2, c) == pix(r.pixels@, cs as int, x, y2, c));
        }
    }
    r
}

/// Channel `c` of pixel `(x, y)` of the image in slot `i`, or background
/// when that slot holds no image.
fn fetch_chan(images: &Vec<Image>, i: usize, size: u32, x: u32, y: u32, c: u32) -> (v: u8)
    requires
        forall|k: int|
            0 <= k < images@.len() ==> (#[trigger] images@[k]).wf() && images@[k].width == size
                && images@[k].height == size,
        0 <= x < size,
        0 <= y < size,
        0 <= c < 3,
    ensures
        images@.len() > i ==> v == images@[i as int].chan(x as int, y as int, c as int),
        images@.len() <= i ==> v == background(),
{
    if i < images.len() {
        let img = &images[i];
        let n = img.pixels.len();
        proof {
            lemma_pixel_index(size as int, size as int, x as int, y as int);
            assert(3 * ((size as int) * (size as int)) == 3 * (size as int) * (size as int))
                by (nonlinear_arith);
        }
        let base: usize = 3 * ((y as usize) * (size as usize) + (x as usize));
        img.pixels[base + (c as usize)]
    } else {
        255
    }
}

/// Decodes the given bytes and normalizes the image to a
/// `target_size` by `target_size` square: a centered square crop when the
/// image is not square, then an exact Lanczos resize.
///
/// Returns `Ok` exactly when the bytes decode to an image with two nonzero
/// dimensions; `LoadError::Undecodable` when they do not decode at all, and
/// `LoadError::ZeroSize` when a decoded dimension is zero.
pub fn load_and_process_image(data: &Vec<u8>, target_size: u32) -> (r: Result<Image, LoadError>)
    requires
        target_size >= 1,
        3 * target_size * target_size <= usize::MAX,
    ensures
        r is Ok <==> (decode_dims(data@) matches Some(d) && d.0 >= 1 && d.1 >= 1),
        r matches Ok(img) ==> img.wf() && img.width == target_size && img.height == target_size,
        r matches Err(e) ==> (e == LoadError::Undecodable <==> decode_dims(data@) is None),
{
    let img = match decode_rgb(data) {
        Ok(i) => i,
        Err(e) => {
            return Err(e);
        },
    };
    if img.width == 0 || img.height == 0 {
        return Err(LoadError::ZeroSize);
    }
    let square = if img.width != img.height {
        crop_square(&img)
    } else {
        img
    };
    Ok(resize_exact_rgb(square, target_size))
}

} // verus!
