//! Pixel buffers and the drawing primitives that work on them.
//!
//! A buffer is row-major: the pixel of column `x` and row `y` stands at
//! `y * width + x`. Text, sprites and JPEG come from `imageproc`, `ab_glyph`
//! and `image`; each call into them is one small function here.

use vstd::arithmetic::div_mod::{lemma_div_multiples_vanish_fancy, lemma_fundamental_div_mod};
use vstd::arithmetic::mul::{
    lemma_mul_inequality, lemma_mul_is_commutative, lemma_mul_is_distributive_add_other_way,
};
use vstd::prelude::*;

use ab_glyph::Font as OutlineFont;
use image::ImageEncoder;

use crate::png::{is_readable, readable};
use crate::rain::{is_head, HEAD_PX};
use crate::text::chars_of;

verus! {

/// An RGBA pixel buffer.
pub struct Canvas {
    pub width: u32,
    pub height: u32,
    pub px: Vec<[u8; 4]>,
}

/// An RGB pixel buffer.
pub struct Frame {
    pub width: u32,
    pub height: u32,
    pub px: Vec<[u8; 3]>,
}

/// Number of pixels of a `width` by `height` buffer.
pub open spec fn area(width: u32, height: u32) -> int {
    width * height
}

/// Whether column `x` and row `y` lie in the box at (`left`, `top`) of `w` by
/// `h` pixels.
pub open spec fn in_box(x: int, y: int, left: int, top: int, w: int, h: int) -> bool {
    left <= x < left + w && top <= y < top + h
}

/// Whether column `x` and row `y` lie on the one-pixel border of that box.
pub open spec fn on_border(x: int, y: int, left: int, top: int, w: int, h: int) -> bool {
    in_box(x, y, left, top, w, h) && (x == left || x == left + w - 1 || y == top || y == top + h
        - 1)
}

/// `px` with the part of the box that lies in the buffer painted in `color`.
pub open spec fn box_filled<P>(
    px: Seq<P>,
    width: u32,
    left: int,
    top: int,
    w: int,
    h: int,
    color: P,
) -> Seq<P> {
    Seq::new(
        px.len(),
        |i: int|
            if in_box(i % width as int, i / width as int, left, top, w, h) {
                color
            } else {
                px[i]
            },
    )
}

/// `px` with the part of the box's border that lies in the buffer painted in
/// `color`.
pub open spec fn box_outlined<P>(
    px: Seq<P>,
    width: u32,
    left: int,
    top: int,
    w: int,
    h: int,
    color: P,
) -> Seq<P> {
    Seq::new(
        px.len(),
        |i: int|
            if on_border(i % width as int, i / width as int, left, top, w, h) {
                color
            } else {
                px[i]
            },
    )
}

/// The pixel of a `tw` by `th` sprite at (`x`, `y`) that covers place `i` of a
/// buffer of the given width, if one does.
pub open spec fn covering(
    top: Seq<[u8; 4]>,
    tw: u32,
    th: u32,
    x: int,
    y: int,
    width: u32,
    i: int,
) -> Option<[u8; 4]> {
    let cx = i % width as int - x;
    let cy = i / width as int - y;
    if 0 <= cx < tw && 0 <= cy < th {
        Some(top[cy * tw + cx])
    } else {
        None
    }
}

/// `px` without its alpha channel.
pub open spec fn without_alpha(px: Seq<[u8; 4]>) -> Seq<[u8; 3]> {
    Seq::new(px.len(), |i: int| [px[i][0], px[i][1], px[i][2]])
}

// ── Pixel access ────────────────────────────────────────────────────────

/// Place `y * width + x` lies in the buffer, and its column and row are `x`
/// and `y` again.
pub proof fn lemma_place(x: int, y: int, width: u32, height: u32)
    requires
        0 <= x < width,
        0 <= y < height,
    ensures
        0 <= y * width,
        0 <= y * width + x < area(width, height),
        (y * width + x) % width as int == x,
        (y * width + x) / width as int == y,
{
    let w = width as int;
    lemma_mul_inequality(y + 1, height as int, w);
    lemma_mul_is_distributive_add_other_way(w, y, 1);
    lemma_mul_inequality(0, y, w);
    lemma_mul_is_commutative(y, w);
    lemma_mul_is_commutative(w, height as int);
    lemma_div_multiples_vanish_fancy(y, x, w);
    lemma_fundamental_div_mod(w * y + x, w);
}

/// Every place of a buffer has a column and a row inside it, and is the place
/// of no other column and row.
pub proof fn lemma_place_inverse(i: int, width: u32, height: u32)
    requires
        0 <= i < area(width, height),
    ensures
        0 <= i % (width as int) < width,
        0 <= i / (width as int) < height,
        (i / width as int) * width + i % width as int == i,
{
    let w = width as int;
    assert(w > 0) by (nonlinear_arith)
        requires
            0 < w * height,
            w >= 0,
            height >= 0,
    ;
    lemma_fundamental_div_mod(i, w);
    let y = i / w;
    assert(w * y == y * w) by (nonlinear_arith);
    assert(0 <= i % w < w) by (nonlinear_arith)
        requires
            w > 0,
    ;
    assert(0 <= y < height) by (nonlinear_arith)
        requires
            w > 0,
            0 <= i < w * height,
            i == w * y + i % w,
            0 <= i % w < w,
    ;
}

impl Canvas {
    /// The buffer holds one pixel per place.
    pub open spec fn wf(self) -> bool {
        self.px@.len() == area(self.width, self.height)
    }

    /// The pixel of column `x` and row `y`.
    pub open spec fn at(self, x: int, y: int) -> [u8; 4] {
        self.px@[y * self.width + x]
    }

    /// A buffer with every pixel in `color`.
    pub fn from_pixel(width: u32, height: u32, color: [u8; 4]) -> (r: Canvas)
        requires
            area(width, height) <= usize::MAX,
        ensures
            r.wf(),
            r.width == width,
            r.height == height,
            r.px@ == Seq::new(area(width, height) as nat, |i: int| color),
    {
        proof {
            lemma_mul_inequality(0, width as int, height as int);
            if height > 0 {
                lemma_mul_inequality(1, height as int, width as int);
                lemma_mul_is_commutative(width as int, height as int);
            }
        }
        let n: u64 = width as u64 * height as u64;
        let mut px: Vec<[u8; 4]> = Vec::new();
        let mut i: u64 = 0;
        while i < n
            invariant
                i <= n,
                px@.len() == i,
                forall|k: int| 0 <= k < i ==> px@[k] == color,
            decreases n - i,
        {
            px.push(color);
            i += 1;
        }
        Canvas { width, height, px }
    }

    /// Write one pixel.
    pub fn put_pixel(&mut self, x: u32, y: u32, color: [u8; 4])
        requires
            old(self).wf(),
            x < old(self).width,
            y < old(self).height,
        ensures
            final(self).wf(),
            final(self).width == old(self).width,
            final(self).height == old(self).height,
            final(self).px@ == old(self).px@.update(y * old(self).width + x, color),
    {
        proof {
            lemma_place(x as int, y as int, self.width, self.height);
            assert(self.px.len() <= usize::MAX);
        }
        let row: usize = y as usize * self.width as usize;
        let place: usize = row + x as usize;
        self.px.set(place, color);
    }
}

impl Frame {
    /// The buffer holds one pixel per place.
    pub open spec fn wf(self) -> bool {
        self.px@.len() == area(self.width, self.height)
    }

    /// The pixel of column `x` and row `y`.
    pub open spec fn at(self, x: int, y: int) -> [u8; 3] {
        self.px@[y * self.width + x]
    }
}

// ── Rectangles ──────────────────────────────────────────────────────────

/// `imageproc::drawing::draw_filled_rect_mut` on an RGBA image: paints the
/// part of the `w` by `h` box at (`left`, `top`) that lies inside the image
/// and leaves every other pixel as it was.
#[verifier::external_body]
pub(crate) fn fill_box(c: &mut Canvas, left: i32, top: i32, w: u32, h: u32, color: [u8; 4])
    requires
        old(c).wf(),
        0 < old(c).width <= i32::MAX,
        0 < old(c).height <= i32::MAX,
        0 < w,
        0 < h,
        w <= i32::MAX,
        h <= i32::MAX,
        left + w <= i32::MAX,
        top + h <= i32::MAX,
    ensures
        final(c).width == old(c).width,
        final(c).height == old(c).height,
        final(c).px@ == box_filled(
            old(c).px@,
            old(c).width,
            left as int,
            top as int,
            w as int,
            h as int,
            color,
        ),
{
    let px = c.px.as_flattened_mut();
    let mut view =
        image::ImageBuffer::<image::Rgba<u8>, &mut [u8]>::from_raw(c.width, c.height, px).unwrap();
    let area = imageproc::rect::Rect::at(left, top).of_size(w, h);
    imageproc::drawing::draw_filled_rect_mut(&mut view, area, image::Rgba(color));
}

/// `imageproc::drawing::draw_filled_rect_mut` on an RGB image, with the same
/// effect as on an RGBA one.
#[verifier::external_body]
pub(crate) fn fill_frame_box(f: &mut Frame, left: i32, top: i32, w: u32, h: u32, color: [u8; 3])
    requires
        old(f).wf(),
        0 < old(f).width <= i32::MAX,
        0 < old(f).height <= i32::MAX,
        0 < w,
        0 < h,
        w <= i32::MAX,
        h <= i32::MAX,
        left + w <= i32::MAX,
        top + h <= i32::MAX,
    ensures
        final(f).width == old(f).width,
        final(f).height == old(f).height,
        final(f).px@ == box_filled(
            old(f).px@,
            old(f).width,
            left as int,
            top as int,
            w as int,
            h as int,
            color,
        ),
{
    let px = f.px.as_flattened_mut();
    let mut view =
        image::ImageBuffer::<image::Rgb<u8>, &mut [u8]>::from_raw(f.width, f.height, px).unwrap();
    let area = imageproc::rect::Rect::at(left, top).of_size(w, h);
    imageproc::drawing::draw_filled_rect_mut(&mut view, area, image::Rgb(color));
}

/// `imageproc::drawing::draw_hollow_rect_mut`: paints the part of the
/// one-pixel border of the `w` by `h` box at (`left`, `top`) that lies inside
/// the image and leaves every other pixel as it was. The border is drawn as
/// four line segments with single-precision ends, so the box stays within the
/// whole numbers that single precision holds exactly.
#[verifier::external_body]
pub(crate) fn outline_box(f: &mut Frame, left: i32, top: i32, w: u32, h: u32, color: [u8; 3])
    requires
        old(f).wf(),
        0 < old(f).width <= i32::MAX,
        0 < old(f).height <= i32::MAX,
        0 < w,
        0 < h,
        -0x100_0000 <= left,
        -0x100_0000 <= top,
        left + w <= 0x100_0000,
        top + h <= 0x100_0000,
    ensures
        final(f).width == old(f).width,
        final(f).height == old(f).height,
        final(f).px@ == box_outlined(
            old(f).px@,
            old(f).width,
            left as int,
            top as int,
            w as int,
            h as int,
            color,
        ),
{
    let px = f.px.as_flattened_mut();
    let mut view =
        image::ImageBuffer::<image::Rgb<u8>, &mut [u8]>::from_raw(f.width, f.height, px).unwrap();
    let area = imageproc::rect::Rect::at(left, top).of_size(w, h);
    imageproc::drawing::draw_hollow_rect_mut(&mut view, area, image::Rgb(color));
}

// ── Sprites ─────────────────────────────────────────────────────────────

/// What `image::load_from_memory_with_format` for PNG and
/// `DynamicImage::to_rgba8` make of a file: width, height and pixels, or nothing
/// for a file that is no PNG or does not decode.
pub uninterp spec fn decoded_png(file: Seq<u8>) -> Option<(u32, u32, Seq<[u8; 4]>)>;

/// `image::load_from_memory_with_format` for PNG and `DynamicImage::to_rgba8`:
/// decodes a PNG file. The decoder built into `image` reads the bytes and
/// nothing else, so the result is a function of them; it holds one pixel per
/// place. That decoder cuts the palette of an indexed image into colors of
/// three bytes and panics where the last one is cut short, and it counts
/// animation chunks in 32 bits: `readable` leaves such files out.
#[verifier::external_body]
fn decode_png(file: &[u8]) -> (r: Option<Canvas>)
    requires
        readable(file@),
    ensures
        r matches Some(c) ==> c.wf() && decoded_png(file@) == Some((c.width, c.height, c.px@)),
        r is None ==> decoded_png(file@) is None,
{
    let png = image::ImageFormat::Png;
    let rgba = image::load_from_memory_with_format(file, png).ok()?.to_rgba8();
    let (width, height) = rgba.dimensions();
    Some(Canvas { width, height, px: rgba.pixels().map(|p| p.0).collect() })
}

/// The image in a sprite file, a PNG: width, height and pixels. A file that is
/// not `readable` holds no image.
pub open spec fn sprite_image(file: Seq<u8>) -> Option<(u32, u32, Seq<[u8; 4]>)> {
    if readable(file) {
        decoded_png(file)
    } else {
        None
    }
}

/// Decode a sprite file.
pub fn decode_sprite(file: &[u8]) -> (r: Option<Canvas>)
    ensures
        r matches Some(c) ==> c.wf() && sprite_image(file@) == Some((c.width, c.height, c.px@)),
        r is None ==> sprite_image(file@) is None,
{
    if is_readable(file) {
        decode_png(file)
    } else {
        None
    }
}

/// What `Pixel::blend` makes of a bottom pixel under a translucent top pixel.
pub uninterp spec fn mixed(bottom: [u8; 4], top: [u8; 4]) -> [u8; 4];

/// A pixel under another one: a clear top pixel leaves it, an opaque one hides
/// it, a translucent one mixes with it.
pub open spec fn blended(bottom: [u8; 4], top: [u8; 4]) -> [u8; 4] {
    if top[3] == 0 {
        bottom
    } else if top[3] == 255 {
        top
    } else {
        mixed(bottom, top)
    }
}

/// `px` with a `tw` by `th` sprite over it at (`x`, `y`).
pub open spec fn overlaid(
    px: Seq<[u8; 4]>,
    width: u32,
    top: Seq<[u8; 4]>,
    tw: u32,
    th: u32,
    x: int,
    y: int,
) -> Seq<[u8; 4]> {
    Seq::new(
        px.len(),
        |i: int|
            match covering(top, tw, th, x, y, width, i) {
                Some(t) => blended(px[i], t),
                None => px[i],
            },
    )
}

/// `image::imageops::overlay`: places `top` over `bottom` with its upper left
/// corner at (`x`, `y`), clipped to `bottom`. Each covered pixel is blended
/// with the one above it by `Pixel::blend`, which keeps the bottom pixel
/// under a clear one and takes an opaque one as it is.
#[verifier::external_body]
pub(crate) fn overlay(bottom: &mut Canvas, top: &Canvas, x: i64, y: i64)
    requires
        old(bottom).wf(),
        top.wf(),
    ensures
        final(bottom).width == old(bottom).width,
        final(bottom).height == old(bottom).height,
        final(bottom).px@.len() == old(bottom).px@.len(),
        forall|i: int|
            0 <= i < old(bottom).px@.len() ==> (#[trigger] final(bottom).px@[i]) == (match covering(
                top.px@,
                top.width,
                top.height,
                x as int,
                y as int,
                old(bottom).width,
                i,
            ) {
                Some(t) => if t[3] == 0 {
                    old(bottom).px@[i]
                } else if t[3] == 255 {
                    t
                } else {
                    mixed(old(bottom).px@[i], t)
                },
                None => old(bottom).px@[i],
            }),
{
    let (w, h) = (bottom.width, bottom.height);
    let below = bottom.px.as_flattened_mut();
    let mut view = image::ImageBuffer::<image::Rgba<u8>, &mut [u8]>::from_raw(w, h, below).unwrap();
    let above = top.px.as_flattened();
    let sprite =
        image::ImageBuffer::<image::Rgba<u8>, &[u8]>::from_raw(top.width, top.height, above).unwrap();
    image::imageops::overlay(&mut view, &sprite, x, y);
}

/// `image::DynamicImage::into_rgb8` on an RGBA image: drops the alpha channel
/// and keeps the other three as they are.
#[verifier::external_body]
pub(crate) fn flatten(c: Canvas) -> (r: Frame)
    requires
        c.wf(),
    ensures
        r.width == c.width,
        r.height == c.height,
        r.px@ == without_alpha(c.px@),
{
    let (width, height) = (c.width, c.height);
    let rgba = image::RgbaImage::from_raw(width, height, c.px.into_flattened()).unwrap();
    let rgb = image::DynamicImage::ImageRgba8(rgba).into_rgb8();
    Frame { width, height, px: rgb.pixels().map(|p| p.0).collect() }
}

// ── Text ────────────────────────────────────────────────────────────────

/// Least and greatest coordinate at which text may start.
pub const MAX_TEXT_POS: i32 = 0x4000_0000;

/// Greatest distance of a glyph from the start of its text, in px: up to here
/// single precision holds a position and the whole numbers around it exactly.
pub const MAX_REACH: u32 = 0x80_0000;

/// Greatest height of a glyph, in px.
pub const MAX_GLYPH_PX: u32 = 128;

/// The height (ascent minus descent) of a font file's first font, in font
/// units, as `ab_glyph` reads it; nothing for a file that is no font.
pub uninterp spec fn font_height(file: Seq<u8>) -> Option<i32>;

/// `ab_glyph::FontRef::try_from_slice`, then `Font::height_unscaled`: parses a
/// font file and reads its height, a difference of two 16-bit numbers.
#[verifier::external_body]
fn read_font_height(file: &[u8]) -> (r: Option<i32>)
    ensures
        r == font_height(file@),
{
    match ab_glyph::FontRef::try_from_slice(file) {
        Ok(font) => Some(font.height_unscaled() as i32),
        Err(_) => None,
    }
}

/// The kerning, in font units, that `ab_glyph` reads for the glyphs of two
/// characters.
pub uninterp spec fn kerning(font: Seq<u8>, first: char, second: char) -> i16;

/// `ab_glyph::Font::glyph_id` of two characters, then `Font::kern_unscaled`:
/// looks up the pair in the font's kerning table, a 16-bit number.
#[verifier::external_body]
fn read_kerning(font: &[u8], first: char, second: char) -> (r: i16)
    requires
        font_height(font@) is Some,
    ensures
        r == kerning(font@, first, second),
{
    let face = ab_glyph::FontRef::try_from_slice(font).unwrap();
    face.kern_unscaled(face.glyph_id(first), face.glyph_id(second)) as i16
}

/// The width and height that `imageproc::drawing::text_size` measures.
pub uninterp spec fn text_extent(font: Seq<u8>, size: u16, text: Seq<char>) -> (u32, u32);

/// `imageproc::drawing::text_size`: measures `text` set in the font at `size`
/// px, a function of the font file, the size and the text.
#[verifier::external_body]
fn measure_text(font: &[u8], size: u16, text: &str) -> (r: (u32, u32))
    requires
        font_height(font@) is Some,
    ensures
        r == text_extent(font@, size, text@),
{
    let face = ab_glyph::FontRef::try_from_slice(font).unwrap();
    let scale = ab_glyph::PxScale { x: size.into(), y: size.into() };
    imageproc::drawing::text_size(scale, &face, text)
}

/// Room for a text of measured width `w` and `n` characters, any two of which
/// may be kerned by `kern`, in a font of the given height: what the text
/// measures and what kerning can move it to the left, counted threefold for
/// rounding, stay within `MAX_REACH`.
pub open spec fn reach_fits(w: int, n: int, kern: int, size: int, height: int) -> bool {
    (w + 2) * height - 3 * n * kern * size <= MAX_REACH * height
}

/// The text can be drawn: its font does not grow at this size, its glyphs are
/// not too tall, and none of them stands too far from the start of the text,
/// to the right or, where kerning moves it, to the left.
pub open spec fn text_fits(font: Seq<u8>, size: u16, text: Seq<char>) -> bool {
    let (w, h) = text_extent(font, size, text);
    &&& font_height(font) matches Some(height) && 0 < size <= height && reach_fits(
        w as int,
        text.len() as int,
        0,
        size as int,
        height as int,
    ) && (forall|i: int, j: int|
        0 <= i < text.len() && 0 <= j < text.len() ==> reach_fits(
            w as int,
            text.len() as int,
            #[trigger] kerning(font, text[i], text[j]) as int,
            size as int,
            height as int,
        ))
    &&& h <= MAX_GLYPH_PX
}

/// The pixels that `imageproc::drawing::draw_text_mut` leaves behind.
pub uninterp spec fn text_drawn(
    px: Seq<[u8; 4]>,
    width: u32,
    height: u32,
    color: [u8; 4],
    x: i32,
    y: i32,
    size: u16,
    font: Seq<u8>,
    text: Seq<char>,
) -> Seq<[u8; 4]>;

/// `imageproc::drawing::draw_text_mut`: draws `text` over the image, clipped
/// to it. The new pixels are a function of the old ones and the arguments;
/// their number stays the same.
///
/// A glyph's pixel box comes from single-precision sums, and its outline is
/// rasterized row by row into that box. `text_fits` keeps this in range. A
/// glyph never moves to the left by more than twice the kerning of its pair,
/// so the measured width and the kerning bound every position, and within
/// `MAX_REACH` the box is exact. An outline leaves its box by less than one
/// font unit, hence by less than one px in a font that does not grow. And over
/// `MAX_GLYPH_PX` rows of a glyph at most 65536 px wide, rounding moves an
/// edge by at most half a px. Sums of coordinates then fit in `i32` too.
#[verifier::external_body]
fn set_text(c: &mut Canvas, color: [u8; 4], x: i32, y: i32, size: u16, font: &[u8], text: &str)
    requires
        old(c).wf(),
        old(c).width <= i32::MAX,
        old(c).height <= i32::MAX,
        text_fits(font@, size, text@),
        -MAX_TEXT_POS <= x <= MAX_TEXT_POS,
        -MAX_TEXT_POS <= y <= MAX_TEXT_POS,
    ensures
        final(c).width == old(c).width,
        final(c).height == old(c).height,
        final(c).px@.len() == old(c).px@.len(),
        final(c).px@ == text_drawn(
            old(c).px@,
            old(c).width,
            old(c).height,
            color,
            x,
            y,
            size,
            font@,
            text@,
        ),
{
    let px = c.px.as_flattened_mut();
    let mut view =
        image::ImageBuffer::<image::Rgba<u8>, &mut [u8]>::from_raw(c.width, c.height, px).unwrap();
    let face = ab_glyph::FontRef::try_from_slice(font).unwrap();
    let scale = ab_glyph::PxScale { x: size.into(), y: size.into() };
    imageproc::drawing::draw_text_mut(&mut view, image::Rgba(color), x, y, scale, &face, text);
}

/// The different characters of a text.
fn distinct(text: &Vec<char>) -> (r: Vec<char>)
    ensures
        forall|i: int| 0 <= i < text@.len() ==> r@.contains(#[trigger] text@[i]),
        forall|k: int| 0 <= k < r@.len() ==> text@.contains(#[trigger] r@[k]),
{
    let mut seen: Vec<char> = Vec::new();
    let mut i: usize = 0;
    while i < text.len()
        invariant
            i <= text@.len(),
            forall|j: int| 0 <= j < i ==> seen@.contains(#[trigger] text@[j]),
            forall|k: int| 0 <= k < seen@.len() ==> text@.contains(#[trigger] seen@[k]),
        decreases text.len() - i,
    {
        let c = text[i];
        let mut found = false;
        let mut k: usize = 0;
        while k < seen.len() && !found
            invariant
                k <= seen@.len(),
                found ==> seen@.contains(c),
                !found ==> forall|m: int| 0 <= m < k ==> seen@[m] != c,
            decreases seen.len() - k + if found {
                0int
            } else {
                1int
            },
        {
            if seen[k] == c {
                assert(seen@[k as int] == c);
                found = true;
            } else {
                k += 1;
            }
        }
        let ghost before = seen@;
        if !found {
            seen.push(c);
            assert(seen@[before.len() as int] == c);
            assert forall|j: int| 0 <= j < i implies seen@.contains(#[trigger] text@[j]) by {
                let m = before.index_of(text@[j]);
                assert(before.contains(text@[j]));
                assert(seen@[m] == text@[j]);
            }
        }
        assert(text@.contains(text@[i as int]));
        i += 1;
    }
    seen
}

/// Whether the widest kerning still leaves room.
proof fn lemma_reach_by_widest_kern(w: int, n: int, kern: int, size: int, height: int)
    requires
        reach_fits(w, n, -0x8000, size, height),
        -0x8000 <= kern,
        0 <= n,
        0 <= size,
    ensures
        reach_fits(w, n, kern, size, height),
{
    assert(n * kern * size >= n * -0x8000 * size) by (nonlinear_arith)
        requires
            -0x8000 <= kern,
            0 <= n,
            0 <= size,
    ;
    assert(3 * n * kern * size == 3 * (n * kern * size)) by (nonlinear_arith);
    assert(3 * n * -0x8000 * size == 3 * (n * -0x8000 * size)) by (nonlinear_arith);
}

/// Whether there is room for one pair's kerning.
fn room_for(w: u32, n: usize, kern: i16, size: u16, height: i32) -> (r: bool)
    requires
        height > 0,
    ensures
        r == reach_fits(w as int, n as int, kern as int, size as int, height as int),
{
    assert(0 <= (w + 2) * height <= 0x1_0000_0001 * 0x8000_0000) by (nonlinear_arith)
        requires
            0 <= w <= 0xffff_ffff,
            0 < height <= 0x7fff_ffff,
    ;
    let measured: i128 = (w as i128 + 2) * height as i128;
    assert(-0x1_0000_0000_0000_0000 * 0x8000 <= n * kern <= 0x1_0000_0000_0000_0000 * 0x8000)
        by (nonlinear_arith)
        requires
            0 <= n <= 0xffff_ffff_ffff_ffff,
            -0x8000 <= kern <= 0x7fff,
    ;
    let moved: i128 = n as i128 * kern as i128;
    assert(-0x1_0000_0000_0000_0000 * 0x8000 * 0x1_0000 <= moved * size
        <= 0x1_0000_0000_0000_0000 * 0x8000 * 0x1_0000) by (nonlinear_arith)
        requires
            -0x1_0000_0000_0000_0000 * 0x8000 <= moved <= 0x1_0000_0000_0000_0000 * 0x8000,
            0 <= size <= 0xffff,
    ;
    let scaled: i128 = moved * size as i128;
    assert(3 * n * kern * size == 3 * scaled) by (nonlinear_arith)
        requires
            scaled == (n * kern) * size,
    ;
    measured - 3 * scaled <= 0x80_0000 * height as i128
}

/// Whether a text can be drawn.
fn check_fit(font: &[u8], size: u16, text: &str) -> (r: bool)
    requires
        font_height(font@) is Some,
    ensures
        r == text_fits(font@, size, text@),
{
    let height = match read_font_height(font) {
        Some(h) => h,
        None => return false,
    };
    if size == 0 || size as i32 > height {
        return false;
    }
    let (w, h) = measure_text(font, size, text);
    if h > MAX_GLYPH_PX {
        return false;
    }
    let chars = chars_of(text);
    let n = chars.len();
    if !room_for(w, n, 0, size, height) {
        return false;
    }
    if room_for(w, n, -0x8000, size, height) {
        proof {
            assert forall|i: int, j: int|
                0 <= i < text@.len() && 0 <= j < text@.len() implies reach_fits(
                w as int,
                n as int,
                #[trigger] kerning(font@, text@[i], text@[j]) as int,
                size as int,
                height as int,
            ) by {
                lemma_reach_by_widest_kern(
                    w as int,
                    n as int,
                    kerning(font@, text@[i], text@[j]) as int,
                    size as int,
                    height as int,
                );
            }
        }
        return true;
    }
    let kinds = distinct(&chars);
    let mut a: usize = 0;
    while a < kinds.len()
        invariant
            a <= kinds@.len(),
            font_height(font@) == Some(height),
            0 < size <= height,
            n == text@.len(),
            text_extent(font@, size, text@) == (w, h),
            chars@ == text@,
            forall|k: int| 0 <= k < kinds@.len() ==> chars@.contains(#[trigger] kinds@[k]),
            forall|i: int, j: int|
                0 <= i < a && 0 <= j < kinds@.len() ==> reach_fits(
                    w as int,
                    n as int,
                    #[trigger] kerning(font@, kinds@[i], kinds@[j]) as int,
                    size as int,
                    height as int,
                ),
        decreases kinds.len() - a,
    {
        let mut b: usize = 0;
        while b < kinds.len()
            invariant
                a < kinds@.len(),
                b <= kinds@.len(),
                font_height(font@) == Some(height),
                0 < size <= height,
                n == text@.len(),
                text_extent(font@, size, text@) == (w, h),
                chars@ == text@,
                forall|k: int| 0 <= k < kinds@.len() ==> chars@.contains(#[trigger] kinds@[k]),
                forall|j: int|
                    0 <= j < b ==> reach_fits(
                        w as int,
                        n as int,
                        #[trigger] kerning(font@, kinds@[a as int], kinds@[j]) as int,
                        size as int,
                        height as int,
                    ),
            decreases kinds.len() - b,
        {
            let kern = read_kerning(font, kinds[a], kinds[b]);
            if !room_for(w, n, kern, size, height) {
                proof {
                    assert(chars@.contains(kinds@[a as int]));
                    assert(chars@.contains(kinds@[b as int]));
                    let i = chars@.index_of(kinds@[a as int]);
                    let j = chars@.index_of(kinds@[b as int]);
                    assert(kerning(font@, text@[i], text@[j]) == kern);
                }
                return false;
            }
            b += 1;
        }
        a += 1;
    }
    proof {
        assert forall|i: int, j: int|
            0 <= i < text@.len() && 0 <= j < text@.len() implies reach_fits(
            w as int,
            n as int,
            #[trigger] kerning(font@, text@[i], text@[j]) as int,
            size as int,
            height as int,
        ) by {
            assert(kinds@.contains(chars@[i]));
            assert(kinds@.contains(chars@[j]));
            let p = kinds@.index_of(chars@[i]);
            let q = kinds@.index_of(chars@[j]);
            assert(kerning(font@, kinds@[p], kinds@[q]) == kerning(font@, text@[i], text@[j]));
        }
    }
    true
}

/// The file is a font in which the rain's head glyphs can be drawn.
pub open spec fn usable_font(file: Seq<u8>) -> bool {
    &&& font_height(file) is Some
    &&& text_fits(file, HEAD_PX, "0"@)
    &&& text_fits(file, HEAD_PX, "1"@)
    &&& text_fits(file, HEAD_PX, "A"@)
    &&& text_fits(file, HEAD_PX, "Z"@)
    &&& text_fits(file, HEAD_PX, "X"@)
    &&& text_fits(file, HEAD_PX, "7"@)
    &&& text_fits(file, HEAD_PX, "9"@)
}

/// A font file that has been found usable.
pub struct Font {
    file: Vec<u8>,
}

impl Font {
    #[verifier::type_invariant]
    spec fn type_inv(self) -> bool {
        usable_font(self.file@)
    }

    /// The bytes of the font file.
    pub closed spec fn data(self) -> Seq<u8> {
        self.file@
    }

    /// Take a font file into use; nothing if it is not usable.
    pub fn new(file: Vec<u8>) -> (r: Option<Font>)
        ensures
            r is Some <==> usable_font(file@),
            r matches Some(f) ==> f.data() == file@,
    {
        let font = file.as_slice();
        let usable = read_font_height(font).is_some() && check_fit(font, HEAD_PX, "0") && check_fit(
            font,
            HEAD_PX,
            "1",
        ) && check_fit(font, HEAD_PX, "A") && check_fit(font, HEAD_PX, "Z") && check_fit(
            font,
            HEAD_PX,
            "X",
        ) && check_fit(font, HEAD_PX, "7") && check_fit(font, HEAD_PX, "9");
        if usable {
            Some(Font { file })
        } else {
            None
        }
    }

    /// Measure `text` at `size` px.
    pub fn text_size(&self, size: u16, text: &str) -> (r: (u32, u32))
        ensures
            r == text_extent(self.data(), size, text@),
    {
        proof {
            use_type_invariant(self);
        }
        measure_text(self.file.as_slice(), size, text)
    }

    /// Whether `text` can be drawn at `size` px.
    pub fn fits(&self, size: u16, text: &str) -> (r: bool)
        ensures
            r == text_fits(self.data(), size, text@),
    {
        proof {
            use_type_invariant(self);
        }
        check_fit(self.file.as_slice(), size, text)
    }

    /// Draw `text`, which must fit, at `size` px with its upper left corner at
    /// (`x`, `y`).
    pub fn draw_text(
        &self,
        c: &mut Canvas,
        color: [u8; 4],
        x: i32,
        y: i32,
        size: u16,
        text: &str,
    )
        requires
            old(c).wf(),
            old(c).width <= i32::MAX,
            old(c).height <= i32::MAX,
            text_fits(self.data(), size, text@),
            -MAX_TEXT_POS <= x <= MAX_TEXT_POS,
            -MAX_TEXT_POS <= y <= MAX_TEXT_POS,
        ensures
            final(c).wf(),
            final(c).width == old(c).width,
            final(c).height == old(c).height,
            final(c).px@ == text_drawn(
                old(c).px@,
                old(c).width,
                old(c).height,
                color,
                x,
                y,
                size,
                self.data(),
                text@,
            ),
    {
        set_text(c, color, x, y, size, self.file.as_slice(), text);
    }

    /// Draw one of the rain's head glyphs.
    pub fn draw_head(&self, c: &mut Canvas, color: [u8; 4], x: i32, y: i32, head: &str)
        requires
            old(c).wf(),
            old(c).width <= i32::MAX,
            old(c).height <= i32::MAX,
            is_head(head@),
            -MAX_TEXT_POS <= x <= MAX_TEXT_POS,
            -MAX_TEXT_POS <= y <= MAX_TEXT_POS,
        ensures
            final(c).wf(),
            final(c).width == old(c).width,
            final(c).height == old(c).height,
            final(c).px@ == text_drawn(
                old(c).px@,
                old(c).width,
                old(c).height,
                color,
                x,
                y,
                HEAD_PX,
                self.data(),
                head@,
            ),
    {
        proof {
            use_type_invariant(self);
        }
        set_text(c, color, x, y, HEAD_PX, self.file.as_slice(), head);
    }
}

// ── JPEG ────────────────────────────────────────────────────────────────

/// The bytes that `JpegEncoder` writes for an RGB image.
pub uninterp spec fn jpeg_bytes(px: Seq<[u8; 3]>, width: u32, height: u32, quality: u8) -> Seq<u8>;

/// `image::codecs::jpeg::JpegEncoder::new_with_quality`, then
/// `ImageEncoder::write_image`: encodes an RGB image in memory. The stream is
/// a function of the pixels, the size and the quality. It opens with the
/// start-of-image marker and a 16-byte JFIF segment; the baseline frame
/// header follows at once and names the height and the width.
#[verifier::external_body]
pub(crate) fn encode_jpeg(f: &Frame, quality: u8) -> (r: Vec<u8>)
    requires
        f.wf(),
        0 < f.width <= u16::MAX,
        0 < f.height <= u16::MAX,
        1 <= quality <= 100,
    ensures
        r@ == jpeg_bytes(f.px@, f.width, f.height, quality),
        r@.len() > 40,
        r@[0] == 0xff && r@[1] == 0xd8,
        r@[2] == 0xff && r@[3] == 0xe0 && r@[4] == 0 && r@[5] == 16,
        r@[20] == 0xff && r@[21] == 0xc0,
        r@[25] * 256 + r@[26] == f.height,
        r@[27] * 256 + r@[28] == f.width,
{
    let mut out = Vec::new();
    let kind = image::ExtendedColorType::Rgb8;
    image::codecs::jpeg::JpegEncoder::new_with_quality(&mut out, quality)
        .write_image(f.px.as_flattened(), f.width, f.height, kind)
        .unwrap();
    out
}

// ── Laws of the canvas ──────────────────────────────────────────────────

/// When a text can be drawn, in numbers: in a font at least as tall, in its own
/// units, as the size asked for, if the text is at most 128 px tall, and if what
/// it measures, with three times what its characters can be kerned to the left,
/// stays within 8388608 px.
pub proof fn lemma_text_fits_in_numbers(font: Seq<u8>, size: u16, text: Seq<char>)
    ensures
        ({
            let (w, h) = text_extent(font, size, text);
            let n = text.len() as int;
            text_fits(font, size, text) <==> {
                &&& font_height(font) is Some
                &&& 0 < size <= font_height(font)->Some_0
                &&& h <= 128
                &&& (w + 2) * font_height(font)->Some_0 <= 8388608 * font_height(font)->Some_0
                &&& forall|i: int, j: int|
                    0 <= i < n && 0 <= j < n ==> (w + 2) * font_height(font)->Some_0 - 3 * n * (
                    #[trigger] kerning(font, text[i], text[j])) * size <= 8388608 * font_height(
                        font,
                    )->Some_0
            }
        }),
{
    let (w, h) = text_extent(font, size, text);
    let n = text.len() as int;
    let top = match font_height(font) {
        Some(x) => x as int,
        None => 0,
    };
    assert(3 * n * 0 * size == 0) by (nonlinear_arith);
    if text_fits(font, size, text) {
        assert forall|i: int, j: int| 0 <= i < n && 0 <= j < n implies (w + 2) * top - 3 * n * (
        #[trigger] kerning(font, text[i], text[j])) * size <= 8388608 * top by {
            assert(reach_fits(
                w as int,
                n,
                kerning(font, text[i], text[j]) as int,
                size as int,
                top,
            ));
        }
    }
}

/// Texts of ordinary length can be drawn, whatever the font's kerning: every
/// character takes up at most 98304 px of the room of 8388608 px.
pub proof fn lemma_short_text_fits(font: Seq<u8>, size: u16, text: Seq<char>)
    requires
        font_height(font) is Some,
        0 < size <= font_height(font)->Some_0,
        text_extent(font, size, text).1 <= 128,
        text_extent(font, size, text).0 + 2 + 98304 * text.len() <= 8388608,
    ensures
        text_fits(font, size, text),
{
    let (w, h) = text_extent(font, size, text);
    let n = text.len() as int;
    let top = font_height(font)->Some_0 as int;
    assert forall|kern: int| -32768 <= kern <= 32767 implies #[trigger] reach_fits(
        w as int,
        n,
        kern,
        size as int,
        top,
    ) by {
        assert(n * kern * size >= -(n * 32768 * top)) by (nonlinear_arith)
            requires
                -32768 <= kern,
                n >= 0,
                0 < size <= top,
        ;
        assert(3 * n * kern * size == 3 * (n * kern * size)) by (nonlinear_arith);
        assert((w + 2) * top + 3 * (n * 32768 * top) == (w + 2 + 98304 * n) * top)
            by (nonlinear_arith);
        assert((w + 2 + 98304 * n) * top <= 8388608 * top) by (nonlinear_arith)
            requires
                w + 2 + 98304 * n <= 8388608,
                top > 0,
        ;
    }
    assert(reach_fits(w as int, n, 0, size as int, top));
    assert forall|i: int, j: int| 0 <= i < n && 0 <= j < n implies reach_fits(
        w as int,
        n,
        #[trigger] kerning(font, text[i], text[j]) as int,
        size as int,
        top,
    ) by {}
}

/// A file is a usable font exactly if it is a font and each of the rain's seven
/// glyphs can be drawn in it at 16 px.
pub proof fn lemma_usable_fonts(file: Seq<u8>)
    ensures
        usable_font(file) <==> {
            &&& font_height(file) is Some
            &&& text_fits(file, 16, "0"@) && text_fits(file, 16, "1"@)
            &&& text_fits(file, 16, "A"@) && text_fits(file, 16, "Z"@)
            &&& text_fits(file, 16, "X"@) && text_fits(file, 16, "7"@)
            &&& text_fits(file, 16, "9"@)
        },
{
}

/// A sprite is what its file decodes to, if the file may be decoded.
pub proof fn lemma_sprite_is_the_decoded_file(file: Seq<u8>)
    ensures
        readable(file) ==> sprite_image(file) == decoded_png(file),
        !readable(file) ==> sprite_image(file) is None,
{
}

/// A place of a picture and its column and row: the pixel of column `x` and row
/// `y` is the one at `y * width + x`.
pub proof fn lemma_pixel_by_column_and_row(c: Canvas, f: Frame, x: int, y: int)
    ensures
        c.at(x, y) == c.px@[y * c.width + x],
        f.at(x, y) == f.px@[y * f.width + x],
        c.wf() <==> c.px@.len() == c.width * c.height,
        f.wf() <==> f.px@.len() == f.width * f.height,
{
}

} // verus!
