//! The picture: a fixed 576 x 576 RGBA raster in which every pixel covered by
//! a square's rectangle is Bitcoin orange and every other pixel transparent,
//! encoded as PNG.

use vstd::prelude::*;
use image::ImageEncoder;
use image::codecs::png::PngEncoder;

verus! {

/// Side of the square output image, in pixels.
pub const IMAGE_SIZE: u32 = 576;

/// Pixels in the image.
pub const PIXEL_COUNT: usize = 331776;

/// A square's rectangle in pixels: columns `[x0, x1)`, rows `[y0, y1)`.
#[derive(Clone, Copy, Debug)]
pub struct PixelRect {
    pub x0: u32,
    pub y0: u32,
    pub x1: u32,
    pub y1: u32,
}

/// Rectangle `r` covers pixel `(x, y)`.
pub open spec fn covers(r: PixelRect, x: int, y: int) -> bool {
    r.x0 <= x < r.x1 && r.y0 <= y < r.y1
}

/// Some rectangle of `rects` covers pixel `(x, y)`.
pub open spec fn painted(rects: Seq<PixelRect>, x: int, y: int) -> bool {
    exists|i: int| 0 <= i < rects.len() && covers(#[trigger] rects[i], x, y)
}

/// Channel `c` of a pixel: Bitcoin orange `(247, 147, 26, 255)` when painted,
/// transparent `(0, 0, 0, 0)` otherwise.
pub open spec fn pixel_byte(on: bool, c: int) -> u8 {
    if !on {
        0
    } else if c == 0 {
        247
    } else if c == 1 {
        147
    } else if c == 2 {
        26
    } else {
        255
    }
}

/// Byte `i` of the raster: pixels in row-major order, 4 channels each.
pub open spec fn raster_byte(rects: Seq<PixelRect>, i: int) -> u8 {
    pixel_byte(painted(rects, (i / 4) % 576, (i / 4) / 576), i % 4)
}

/// The whole RGBA raster painted from `rects`.
pub open spec fn raster(rects: Seq<PixelRect>) -> Seq<u8> {
    Seq::new(1327104nat, |i: int| raster_byte(rects, i))
}

/// Channel `c` of pixel `(x, y)` sits at byte `4 * (576 * y + x) + c` and is
/// orange exactly when some rectangle covers the pixel.
pub proof fn lemma_raster_pixel(rects: Seq<PixelRect>, x: int, y: int, c: int)
    requires
        0 <= x < 576,
        0 <= y < 576,
        0 <= c < 4,
    ensures
        0 <= 4 * (576 * y + x) + c < 1327104,
        raster(rects)[4 * (576 * y + x) + c] == pixel_byte(painted(rects, x, y), c),
{
    let i = 4 * (576 * y + x) + c;
    assert(i / 4 == 576 * y + x);
    assert(i % 4 == c);
    assert((576 * y + x) % 576 == x);
    assert((576 * y + x) / 576 == y);
}

/// Paints the rectangles onto a transparent 576 x 576 RGBA raster; parts of a
/// rectangle outside the image are dropped.
#[verifier::rlimit(40)]
pub fn paint_squares(rects: &Vec<PixelRect>) -> (raw: Vec<u8>)
    ensures
        raw@ == raster(rects@),
{
    let mut mask: Vec<bool> = vec![false; PIXEL_COUNT];
    let n = rects.len();
    let mut k: usize = 0;
    proof {
        assert(rects@.take(0) =~= Seq::<PixelRect>::empty());
    }
    while k < n
        invariant
            n == rects@.len(),
            k <= n,
            mask@.len() == 331776,
            forall|px: int, py: int| 0 <= px < 576 && 0 <= py < 576
                ==> #[trigger] mask@[576 * py + px] == painted(rects@.take(k as int), px, py),
        decreases n - k,
    {
        let r = rects[k];
        let ye: u32 = if r.y1 < IMAGE_SIZE { r.y1 } else { IMAGE_SIZE };
        let xe: u32 = if r.x1 < IMAGE_SIZE { r.x1 } else { IMAGE_SIZE };
        let ghost before = mask@;
        let mut y: u32 = r.y0;
        while y < ye
            invariant
                n == rects@.len(),
                k < n,
                r == rects@[k as int],
                ye <= 576,
                xe <= 576,
                ye == if r.y1 < 576 { r.y1 } else { 576 },
                xe == if r.x1 < 576 { r.x1 } else { 576 },
                r.y0 <= y,
                y <= ye || y == r.y0,
                mask@.len() == 331776,
                before.len() == 331776,
                forall|px: int, py: int| 0 <= px < 576 && 0 <= py < 576
                    ==> #[trigger] mask@[576 * py + px] == (before[576 * py + px] || (covers(r, px, py) && py < y)),
            decreases ye - y,
        {
            let mut x: u32 = r.x0;
            while x < xe
                invariant
                    n == rects@.len(),
                    k < n,
                    r == rects@[k as int],
                    ye <= 576,
                    xe <= 576,
                    xe == if r.x1 < 576 { r.x1 } else { 576 },
                    ye == if r.y1 < 576 { r.y1 } else { 576 },
                    r.y0 <= y < ye,
                    r.x0 <= x,
                    x <= xe || x == r.x0,
                    mask@.len() == 331776,
                    before.len() == 331776,
                    forall|px: int, py: int| 0 <= px < 576 && 0 <= py < 576
                        ==> #[trigger] mask@[576 * py + px] == (before[576 * py + px]
                            || (covers(r, px, py) && (py < y || (py == y && px < x)))),
                decreases xe - x,
            {
                let idx: usize = (y as usize) * 576 + (x as usize);
                let ghost m0 = mask@;
                mask.set(idx, true);
                proof {
                    assert forall|px: int, py: int| 0 <= px < 576 && 0 <= py < 576
                        implies #[trigger] mask@[576 * py + px] == (before[576 * py + px]
                            || (covers(r, px, py) && (py < y || (py == y && px < x + 1)))) by {
                        if py == y && px == x {
                            assert(576 * py + px == idx);
                            assert(mask@[idx as int]);
                            assert(covers(r, px, py));
                        } else {
                            if py < y {
                                assert(576 * py + px < 576 * (py + 1));
                                assert(576 * (py + 1) <= 576 * y);
                            } else if py > y {
                                assert(576 * y + x < 576 * (y + 1));
                                assert(576 * (y + 1) <= 576 * py);
                            }
                            assert(576 * py + px != idx);
                            assert(mask@[576 * py + px] == m0[576 * py + px]);
                            assert(m0[576 * py + px] == (before[576 * py + px]
                                || (covers(r, px, py) && (py < y || (py == y && px < x)))));
                        }
                    }
                }
                x = x + 1;
            }
            y = y + 1;
        }
        proof {
            let t = rects@.take(k + 1);
            assert(t.take(k as int) =~= rects@.take(k as int));
            assert(t[k as int] == r);
            assert forall|px: int, py: int| 0 <= px < 576 && 0 <= py < 576
                implies #[trigger] mask@[576 * py + px] == painted(t, px, py) by {
                if painted(rects@.take(k as int), px, py) {
                    let i = choose|i: int| 0 <= i < k && covers(#[trigger] rects@.take(k as int)[i], px, py);
                    assert(t[i] == rects@.take(k as int)[i]);
                }
                if painted(t, px, py) && !covers(r, px, py) {
                    let i = choose|i: int| 0 <= i < t.len() && covers(#[trigger] t[i], px, py);
                    assert(rects@.take(k as int)[i] == t[i]);
                }
            }
        }
        k = k + 1;
    }
    proof {
        assert(rects@.take(n as int) =~= rects@);
    }
    let mut raw: Vec<u8> = Vec::new();
    let mut p: usize = 0;
    while p < PIXEL_COUNT
        invariant
            mask@.len() == 331776,
            forall|px: int, py: int| 0 <= px < 576 && 0 <= py < 576
                ==> #[trigger] mask@[576 * py + px] == painted(rects@, px, py),
            p <= 331776,
            raw@.len() == 4 * p,
            forall|i: int| 0 <= i < 4 * p ==> #[trigger] raw@[i] == raster_byte(rects@, i),
        decreases 331776 - p,
    {
        let on = mask[p];
        proof {
            let px = (p as int) % 576;
            let py = (p as int) / 576;
            vstd::arithmetic::div_mod::lemma_fundamental_div_mod(p as int, 576);
            assert(mask@[576 * py + px] == painted(rects@, px, py));
        }
        if on {
            raw.push(247);
            raw.push(147);
            raw.push(26);
            raw.push(255);
        } else {
            raw.push(0);
            raw.push(0);
            raw.push(0);
            raw.push(0);
        }
        proof {
            assert forall|i: int| 0 <= i < 4 * (p + 1) implies #[trigger] raw@[i] == raster_byte(rects@, i) by {
                if i >= 4 * p {
                    assert(i / 4 == p);
                    assert(i % 4 == i - 4 * p);
                }
            }
        }
        p = p + 1;
    }
    proof {
        assert(raw@ =~= raster(rects@));
    }
    raw
}

/// Why a picture could not be produced.
#[derive(Clone, Copy, Debug)]
pub enum RenderError {
    /// The PNG encoder refused the raster.
    Encoding,
}

#[verifier::external_type_specification]
#[verifier::external_body]
pub struct ExImageError(image::ImageError);

/// The PNG file that the `image` crate's encoder writes for an 8-bit RGBA
/// raster `raw` of `width` x `height` pixels, with its default compression and
/// filter settings.
pub uninterp spec fn png_rgba8(raw: Seq<u8>, width: u32, height: u32) -> Seq<u8>;

/// Encodes an RGBA raster as PNG with `image`'s `PngEncoder::write_image`
/// (default settings, `ExtendedColorType::Rgba8`), writing into a fresh buffer.
/// Trusted: when it succeeds, the bytes are the encoder's output for these
/// arguments; the encoder panics when the buffer length is not
/// `width * height * 4`, which `requires` rules out. It fails only on a zero
/// width or height: the `png` writer refuses those in its header, the color
/// type and depth are a valid pair, the IDAT data is cut into chunks under the
/// size limit, and writing into a `Vec` does not fail.
#[verifier::external_body]
fn encode_png_rgba8(raw: &Vec<u8>, width: u32, height: u32) -> (res: Result<Vec<u8>, image::ImageError>)
    requires
        raw@.len() == width * height * 4,
    ensures
        res matches Ok(png) ==> png@ == png_rgba8(raw@, width, height),
        width > 0 && height > 0 ==> res is Ok,
{
    let mut buf: Vec<u8> = Vec::new();
    match PngEncoder::new(&mut buf).write_image(raw, width, height, image::ExtendedColorType::Rgba8) {
        Ok(()) => Ok(buf),
        Err(e) => Err(e),
    }
}

/// What the encoder's outcome becomes: its bytes, or `RenderError::Encoding`.
pub fn png_outcome(res: Result<Vec<u8>, image::ImageError>) -> (out: Result<Vec<u8>, RenderError>)
    ensures
        match res {
            Ok(png) => out matches Ok(o) && o@ == png@,
            Err(_) => out matches Err(RenderError::Encoding),
        },
{
    match res {
        Ok(png) => Ok(png),
        Err(_) => Err(RenderError::Encoding),
    }
}

/// Paints the rectangles and encodes the 576 x 576 picture as PNG; this
/// always succeeds.
pub fn render_png(rects: &Vec<PixelRect>) -> (res: Result<Vec<u8>, RenderError>)
    ensures
        res is Ok,
        res matches Ok(png) ==> png@ == png_rgba8(raster(rects@), 576, 576),
{
    let raw = paint_squares(rects);
    png_outcome(encode_png_rgba8(&raw, IMAGE_SIZE, IMAGE_SIZE))
}

} // verus!
