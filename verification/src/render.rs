//! The 2D render engine.
//!
//! Composes one 480x480 frame per tick: black CRT background, the Matrix rain,
//! the bouncing mascot sprite in the center, a white speech bubble with the
//! quote above its head when the quote is non-empty, a cyan telemetry readout
//! at the bottom, and a retro HUD pass (CRT scanlines plus a cyan targeting
//! frame) over everything. The frame is JPEG-encoded (quality 90) in memory.

use vstd::prelude::*;

use crate::canvas::{
    area, box_filled, covering, decode_sprite, encode_jpeg, fill_box, fill_frame_box, flatten,
    font_height, in_box, jpeg_bytes, mixed, on_border, outline_box, overlaid, overlay,
    sprite_image, text_drawn, text_extent, text_fits, without_alpha, Canvas, Font, Frame, MAX_GLYPH_PX,
    MAX_REACH,
};
use crate::jpeg::{be16, declared_size, is_jpeg, walk_segments};
use crate::rain::{all_advanced, rain_painted, state_after_drops, MatrixRain};
use crate::screen::{HEIGHT, WIDTH};
use crate::single::{
    half_even, half_even_of, push_tenths, round_single, round_single_of, tenths_text,
};
use crate::telemetry::SystemStats;
use crate::text::{decimal, push_decimal, same_text};

verus! {

/// Telemetry text size, in px.
pub const FONT_PX: u16 = 40;

/// Speech-bubble text size, in px.
pub const BUBBLE_FONT_PX: u16 = 22;

/// Bottom margin for the telemetry line, in px.
pub const BOTTOM_MARGIN: i32 = 24;

/// Padding inside the speech bubble, in px.
pub const BUBBLE_PAD: i32 = 8;

/// Gap between the bubble's bottom edge and the mascot's head, in px.
pub const BUBBLE_GAP: i32 = 10;

/// Minimum distance of the bubble from the screen edges, in px.
pub const BUBBLE_MARGIN: i32 = 8;

/// JPEG quality.
pub const JPEG_QUALITY: u8 = 90;

/// Widest and tallest text whose bubble can be laid out, in px: with its
/// padding it fits in `i32`.
pub const MAX_EXTENT: u32 = 0x7fff_ffef;

// ── Telemetry readout ───────────────────────────────────────────────────

/// A temperature in whole °C.
pub open spec fn temp_text(milli: Option<u64>) -> Seq<char> {
    match milli {
        Some(m) => decimal(half_even(m as nat, 1000)),
        None => "NaN"@,
    }
}

/// A byte count in GiB with one decimal, by way of single precision.
pub open spec fn gib_text(bytes: u64) -> Seq<char> {
    tenths_text(half_even(10 * round_single(bytes as nat), 0x4000_0000))
}

/// Which of the three readouts is on at `now_secs`: each stays for 7 s.
pub open spec fn readout_turn(now_secs: u64) -> int {
    (now_secs as int / 7) % 3
}

/// The telemetry line at `now_secs`: CPU, GPU and RAM in turn.
pub open spec fn readout_text(stats: SystemStats, now_secs: u64) -> Seq<char> {
    if readout_turn(now_secs) == 0 {
        "CPU: "@ + temp_text(stats.cpu_temp) + "C | "@ + decimal(
            round_single(stats.cpu_freq_mhz as nat),
        ) + " MHz"@
    } else if readout_turn(now_secs) == 1 {
        "GPU: "@ + temp_text(stats.gpu_temp) + "C | VRAM: "@ + stats.gpu_vram_used.gib_text()
            + " GB"@
    } else {
        "RAM: "@ + gib_text(stats.ram_used) + " GB | "@ + gib_text(stats.ram_total) + " GB"@
    }
}

fn push_temp(out: &mut String, milli: Option<u64>)
    ensures
        final(out)@ == old(out)@ + temp_text(milli),
{
    match milli {
        Some(m) => {
            push_decimal(out, half_even_of(m as u128, 1000));
        },
        None => {
            out.append("NaN");
        },
    }
}

fn push_ram(out: &mut String, bytes: u64)
    ensures
        final(out)@ == old(out)@ + gib_text(bytes),
{
    let rounded = round_single_of(bytes);
    let tenths = half_even_of(10 * rounded, 0x4000_0000);
    push_tenths(out, tenths);
}

/// The telemetry line.
pub fn readout_line(stats: &SystemStats, now_secs: u64) -> (r: String)
    ensures
        r@ == readout_text(*stats, now_secs),
{
    let mut out = String::new();
    let turn = (now_secs / 7) % 3;
    if turn == 0 {
        out.append("CPU: ");
        push_temp(&mut out, stats.cpu_temp);
        out.append("C | ");
        push_decimal(&mut out, round_single_of(stats.cpu_freq_mhz));
        out.append(" MHz");
    } else if turn == 1 {
        out.append("GPU: ");
        push_temp(&mut out, stats.gpu_temp);
        out.append("C | VRAM: ");
        stats.gpu_vram_used.push_gib(&mut out);
        out.append(" GB");
    } else {
        out.append("RAM: ");
        push_ram(&mut out, stats.ram_used);
        out.append(" GB | ");
        push_ram(&mut out, stats.ram_total);
        out.append(" GB");
    }
    assert(out@ =~= readout_text(*stats, now_secs));
    out
}

// ── Layout ──────────────────────────────────────────────────────────────

/// Left edge of something `w` px wide that is centered on the panel.
pub open spec fn centered(w: int) -> int {
    WIDTH as int / 2 - w / 2
}

/// Top edge of a mascot `h` px tall that bounces by `bounce` px.
pub open spec fn mascot_top(h: int, bounce: int) -> int {
    HEIGHT as int / 2 - h / 2 + bounce
}

/// Horizontally center a line within the panel width; `None` for a line wider
/// than `i32` holds.
pub fn centered_x(text: &str, size: u16, font: &Font) -> (r: Option<i32>)
    ensures
        r is Some <==> text_extent(font.data(), size, text@).0 <= i32::MAX,
        r matches Some(x) ==> x == centered(text_extent(font.data(), size, text@).0 as int),
{
    let (w, _h) = font.text_size(size, text);
    if w <= 0x7fff_ffff {
        Some(WIDTH as i32 / 2 - w as i32 / 2)
    } else {
        None
    }
}

/// A speech bubble's box.
#[derive(Debug, Clone, Copy, PartialEq, Eq, Structural)]
pub struct Bubble {
    pub x: i32,
    pub y: i32,
    pub w: i32,
    pub h: i32,
}

/// The box of the bubble around a text of the given extent, above a mascot
/// whose top edge is at `mascot_y`: centered and kept off the left edge, then
/// off the right edge; above the mascot's head and kept off the top edge.
pub open spec fn bubble_box(text_w: int, text_h: int, mascot_y: int) -> (int, int, int, int) {
    let w = text_w + 2 * BUBBLE_PAD;
    let h = text_h + 2 * BUBBLE_PAD;
    let wanted = if centered(w) > BUBBLE_MARGIN {
        centered(w)
    } else {
        BUBBLE_MARGIN as int
    };
    let rightmost = WIDTH - BUBBLE_MARGIN - w;
    let above = mascot_y - BUBBLE_GAP - h;
    (
        if wanted < rightmost {
            wanted
        } else {
            rightmost
        },
        if above > BUBBLE_MARGIN {
            above
        } else {
            BUBBLE_MARGIN as int
        },
        w,
        h,
    )
}

/// Lay out the speech bubble.
pub fn place_bubble(text_w: u32, text_h: u32, mascot_y: i64) -> (r: Bubble)
    requires
        text_w <= MAX_EXTENT,
        text_h <= MAX_EXTENT,
        -0x1_0000_0000 <= mascot_y <= 0x1000_0000,
    ensures
        (r.x as int, r.y as int, r.w as int, r.h as int) == bubble_box(
            text_w as int,
            text_h as int,
            mascot_y as int,
        ),
{
    let w: i32 = text_w as i32 + BUBBLE_PAD * 2;
    let h: i32 = text_h as i32 + BUBBLE_PAD * 2;
    let centered: i32 = WIDTH as i32 / 2 - w / 2;
    let wanted: i32 = if centered > BUBBLE_MARGIN {
        centered
    } else {
        BUBBLE_MARGIN
    };
    let rightmost: i32 = WIDTH as i32 - BUBBLE_MARGIN - w;
    let x: i32 = if wanted < rightmost {
        wanted
    } else {
        rightmost
    };
    let above: i64 = mascot_y - BUBBLE_GAP as i64 - h as i64;
    let y: i32 = if above > BUBBLE_MARGIN as i64 {
        above as i32
    } else {
        BUBBLE_MARGIN
    };
    Bubble { x, y, w, h }
}

// ── Retro HUD ───────────────────────────────────────────────────────────

/// Distance of the HUD border from the screen edges, in px.
pub const INSET: i32 = 10;

/// Length of a corner bracket, in px.
pub const BRACKET_LEN: i32 = 30;

/// Thickness of a corner bracket, in px.
pub const BRACKET_THICK: i32 = 3;

/// Width of the accent block, in px.
pub const ACCENT_W: i32 = 40;

/// Height of the accent block, in px.
pub const ACCENT_H: i32 = 4;

/// The HUD's color.
pub open spec fn hud_color() -> [u8; 3] {
    [0, 255, 255]
}

/// A channel that loses 30% of its light, cut to a whole number.
pub open spec fn dimmed_channel(c: u8) -> u8 {
    (c * 7 / 10) as u8
}

/// A pixel of a scanline.
pub open spec fn dimmed(p: [u8; 3]) -> [u8; 3] {
    [dimmed_channel(p[0]), dimmed_channel(p[1]), dimmed_channel(p[2])]
}

/// Whether one of the two arms of the corner bracket whose box starts at
/// (`x`, `y`) for the long arm and (`x2`, `y2`) for the tall one covers a place.
pub open spec fn bracket_covers(px: int, py: int, x: int, y: int, x2: int, y2: int) -> bool {
    in_box(px, py, x, y, BRACKET_LEN as int, BRACKET_THICK as int) || in_box(
        px,
        py,
        x2,
        y2,
        BRACKET_THICK as int,
        BRACKET_LEN as int,
    )
}

/// Whether the targeting frame covers column `x` and row `y` of a `w` by `h`
/// frame: the border, the four corner brackets, or the accent block at the top
/// center.
pub open spec fn hud_covers(x: int, y: int, w: int, h: int) -> bool {
    let x0 = INSET as int;
    let y0 = INSET as int;
    let x1 = w - INSET - 1;
    let y1 = h - INSET - 1;
    ||| on_border(x, y, x0, y0, w - 2 * INSET, h - 2 * INSET)
    ||| bracket_covers(x, y, x0, y0, x0, y0)
    ||| bracket_covers(x, y, x1 - BRACKET_LEN + 1, y0, x1 - BRACKET_THICK + 1, y0)
    ||| bracket_covers(x, y, x0, y1 - BRACKET_THICK + 1, x0, y1 - BRACKET_LEN + 1)
    ||| bracket_covers(
        x,
        y,
        x1 - BRACKET_LEN + 1,
        y1 - BRACKET_THICK + 1,
        x1 - BRACKET_THICK + 1,
        y1 - BRACKET_LEN + 1,
    )
    ||| in_box(x, y, w / 2 - 20, y0 - 2, ACCENT_W as int, ACCENT_H as int)
}

/// The pixel at place `i` after the scanlines.
pub open spec fn scanlined(px: Seq<[u8; 3]>, width: u32) -> Seq<[u8; 3]> {
    Seq::new(
        px.len(),
        |i: int|
            if (i / width as int) % 3 == 0 {
                dimmed(px[i])
            } else {
                px[i]
            },
    )
}

/// `px` under the HUD: the targeting frame over the scanlines.
pub open spec fn hud_painted(px: Seq<[u8; 3]>, width: u32, height: u32) -> Seq<[u8; 3]> {
    Seq::new(
        px.len(),
        |i: int|
            if hud_covers(i % width as int, i / width as int, width as int, height as int) {
                hud_color()
            } else {
                scanlined(px, width)[i]
            },
    )
}

fn dim(c: u8) -> (r: u8)
    ensures
        r == dimmed_channel(c),
{
    (c as u16 * 7 / 10) as u8
}

/// CRT scanlines: every 3rd row is darkened by 30%.
fn draw_scanlines(frame: &mut Frame)
    requires
        old(frame).wf(),
        old(frame).width > 0,
    ensures
        final(frame).width == old(frame).width,
        final(frame).height == old(frame).height,
        final(frame).px@ == scanlined(old(frame).px@, old(frame).width),
{
    let n = frame.px.len();
    let width: usize = frame.width as usize;
    let mut i: usize = 0;
    while i < n
        invariant
            n == frame.px@.len(),
            n == old(frame).px@.len(),
            width == frame.width,
            width > 0,
            i <= n,
            frame.width == old(frame).width,
            frame.height == old(frame).height,
            forall|k: int|
                0 <= k < i ==> (#[trigger] frame.px@[k]) == scanlined(
                    old(frame).px@,
                    old(frame).width,
                )[k],
            forall|k: int| i <= k < n ==> (#[trigger] frame.px@[k]) == old(frame).px@[k],
        decreases n - i,
    {
        if (i / width) % 3 == 0 {
            let p = frame.px[i];
            frame.px.set(i, [dim(p[0]), dim(p[1]), dim(p[2])]);
        }
        i += 1;
    }
    assert(frame.px@ =~= scanlined(old(frame).px@, old(frame).width));
}

/// Retro HUD pass, applied to the final RGB frame after the mascot, speech
/// bubble, and telemetry are already drawn: CRT scanlines, then a 1 px cyan
/// border inset 10 px from the edges, 3 px thick targeting corner brackets, and
/// a small filled accent block at the top center of the border.
pub fn apply_retro_hud(frame: &mut Frame)
    requires
        old(frame).wf(),
        2 * INSET < old(frame).width <= 0x100_0000,
        2 * INSET < old(frame).height <= 0x100_0000,
    ensures
        final(frame).wf(),
        final(frame).width == old(frame).width,
        final(frame).height == old(frame).height,
        final(frame).px@ == hud_painted(old(frame).px@, old(frame).width, old(frame).height),
{
    let w: i32 = frame.width as i32;
    let h: i32 = frame.height as i32;
    let x0: i32 = INSET;
    let y0: i32 = INSET;
    let x1: i32 = w - INSET - 1;
    let y1: i32 = h - INSET - 1;
    let long: u32 = BRACKET_LEN as u32;
    let thick: u32 = BRACKET_THICK as u32;
    let color: [u8; 3] = [0, 255, 255];

    draw_scanlines(frame);

    let (bw, bh): (u32, u32) = ((w - 2 * INSET) as u32, (h - 2 * INSET) as u32);
    outline_box(frame, x0, y0, bw, bh, color);

    // Top-left, top-right, bottom-left, bottom-right.
    fill_frame_box(frame, x0, y0, long, thick, color);
    fill_frame_box(frame, x0, y0, thick, long, color);
    fill_frame_box(frame, x1 - BRACKET_LEN + 1, y0, long, thick, color);
    fill_frame_box(frame, x1 - BRACKET_THICK + 1, y0, thick, long, color);
    fill_frame_box(frame, x0, y1 - BRACKET_THICK + 1, long, thick, color);
    fill_frame_box(frame, x0, y1 - BRACKET_LEN + 1, thick, long, color);
    fill_frame_box(frame, x1 - BRACKET_LEN + 1, y1 - BRACKET_THICK + 1, long, thick, color);
    fill_frame_box(frame, x1 - BRACKET_THICK + 1, y1 - BRACKET_LEN + 1, thick, long, color);

    let (ax, ay): (i32, i32) = (w / 2 - ACCENT_W / 2, y0 - ACCENT_H / 2);
    fill_frame_box(frame, ax, ay, ACCENT_W as u32, ACCENT_H as u32, color);
    assert(frame.px@ =~= hud_painted(old(frame).px@, frame.width, frame.height));
}

// ── The frame ───────────────────────────────────────────────────────────

/// The font and the mascot's sprite files.
pub struct Assets {
    pub font: Font,
    pub normal: Vec<u8>,
    pub angry: Vec<u8>,
    pub angry_scream: Vec<u8>,
    pub smile: Vec<u8>,
    pub squints: Vec<u8>,
    pub smoke: Vec<u8>,
}

impl Assets {
    /// The sprite file of a mascot state; an unknown state gets the normal one.
    pub open spec fn sprite_file(self, state: Seq<char>) -> Seq<u8> {
        if state == "angry"@ {
            self.angry@
        } else if state == "angry_scream"@ {
            self.angry_scream@
        } else if state == "smile"@ {
            self.smile@
        } else if state == "squints"@ {
            self.squints@
        } else if state == "smoke"@ {
            self.smoke@
        } else {
            self.normal@
        }
    }

    /// The sprite file of a mascot state.
    pub fn sprite(&self, state: &str) -> (r: &Vec<u8>)
        ensures
            r@ == self.sprite_file(state@),
    {
        if same_text(state, "angry") {
            &self.angry
        } else if same_text(state, "angry_scream") {
            &self.angry_scream
        } else if same_text(state, "smile") {
            &self.smile
        } else if same_text(state, "squints") {
            &self.squints
        } else if same_text(state, "smoke") {
            &self.smoke
        } else {
            &self.normal
        }
    }
}

/// `px` with the speech bubble of a non-empty quote.
pub open spec fn bubble_painted(
    px: Seq<[u8; 4]>,
    quote: Seq<char>,
    mascot_y: int,
    font: Seq<u8>,
) -> Seq<[u8; 4]> {
    let extent = text_extent(font, BUBBLE_FONT_PX, quote);
    let (x, y, w, h) = bubble_box(extent.0 as int, extent.1 as int, mascot_y);
    text_drawn(
        box_filled(px, WIDTH as u32, x, y, w, h, [255, 255, 255, 255]),
        WIDTH as u32,
        HEIGHT as u32,
        [0, 0, 0, 255],
        (x + BUBBLE_PAD) as i32,
        (y + BUBBLE_PAD) as i32,
        BUBBLE_FONT_PX,
        font,
        quote,
    )
}

/// `px` with the telemetry line, centered at the bottom in cyan.
pub open spec fn readout_painted(px: Seq<[u8; 4]>, line: Seq<char>, font: Seq<u8>) -> Seq<
    [u8; 4],
> {
    let extent = text_extent(font, FONT_PX, line);
    text_drawn(
        px,
        WIDTH as u32,
        HEIGHT as u32,
        [0, 255, 255, 255],
        centered(extent.0 as int) as i32,
        (HEIGHT - BOTTOM_MARGIN - extent.1) as i32,
        FONT_PX,
        font,
        line,
    )
}

/// The black background.
pub open spec fn background() -> Seq<[u8; 4]> {
    Seq::new(area(WIDTH as u32, HEIGHT as u32) as nat, |i: int| [0u8, 0, 0, 255])
}

/// The scene, back to front: background, rain, mascot, speech bubble (only
/// when the quote is non-empty) and telemetry line.
pub open spec fn scene(
    matrix: MatrixRain,
    sprite: Seq<[u8; 4]>,
    sprite_w: u32,
    sprite_h: u32,
    bounce: int,
    quote: Seq<char>,
    line: Seq<char>,
    font: Seq<u8>,
) -> Seq<[u8; 4]> {
    let mascot_y = mascot_top(sprite_h as int, bounce);
    let rain = rain_painted(
        all_advanced(matrix.drops@, matrix.prng.state),
        matrix.drops@.len() as int,
        background(),
        WIDTH as u32,
        HEIGHT as u32,
        font,
    );
    let mascot = overlaid(
        rain,
        WIDTH as u32,
        sprite,
        sprite_w,
        sprite_h,
        centered(sprite_w as int),
        mascot_y,
    );
    let speech = if quote.len() == 0 {
        mascot
    } else {
        bubble_painted(mascot, quote, mascot_y, font)
    };
    readout_painted(speech, line, font)
}

/// The quote and the telemetry line can be drawn.
pub open spec fn texts_fit(quote: Seq<char>, line: Seq<char>, font: Seq<u8>) -> bool {
    &&& quote.len() > 0 ==> text_fits(font, BUBBLE_FONT_PX, quote)
    &&& text_fits(font, FONT_PX, line)
}

/// The rain one frame on.
pub open spec fn rain_ticked(before: MatrixRain, after: MatrixRain) -> bool {
    &&& after.wf()
    &&& after.drops@ == all_advanced(before.drops@, before.prng.state)
    &&& after.prng.state == state_after_drops(
        before.drops@,
        before.prng.state,
        before.drops@.len() as int,
    )
}

proof fn lemma_fitting_extent(font: Seq<u8>, size: u16, text: Seq<char>)
    requires
        text_fits(font, size, text),
    ensures
        text_extent(font, size, text).0 <= MAX_REACH,
        text_extent(font, size, text).1 <= MAX_GLYPH_PX,
{
    let w = text_extent(font, size, text).0 as int;
    let height = font_height(font)->Some_0 as int;
    assert(w <= MAX_REACH) by (nonlinear_arith)
        requires
            (w + 2) * height - 3 * text.len() * 0 * size <= MAX_REACH * height,
            height > 0,
    ;
}

/// Draw the speech bubble of a non-empty quote.
fn draw_bubble(img: &mut Canvas, quote: &str, extent: (u32, u32), mascot_y: i64, font: &Font)
    requires
        old(img).wf(),
        old(img).width == WIDTH,
        old(img).height == HEIGHT,
        extent == text_extent(font.data(), BUBBLE_FONT_PX, quote@),
        text_fits(font.data(), BUBBLE_FONT_PX, quote@),
        -0x1_0000_0000 <= mascot_y <= 1000,
    ensures
        final(img).wf(),
        final(img).width == WIDTH,
        final(img).height == HEIGHT,
        final(img).px@ == bubble_painted(old(img).px@, quote@, mascot_y as int, font.data()),
{
    proof {
        lemma_fitting_extent(font.data(), BUBBLE_FONT_PX, quote@);
    }
    let b = place_bubble(extent.0, extent.1, mascot_y);
    fill_box(img, b.x, b.y, b.w as u32, b.h as u32, [255, 255, 255, 255]);
    font.draw_text(
        img,
        [0, 0, 0, 255],
        b.x + BUBBLE_PAD,
        b.y + BUBBLE_PAD,
        BUBBLE_FONT_PX,
        quote,
    );
}

/// Compose the scene onto a black canvas at the panel's native geometry:
/// everything but the HUD. The rain is advanced by one frame. `None` for a
/// quote or a telemetry line that cannot be drawn; the rain then stays.
pub fn compose_scene(
    stats: &SystemStats,
    sprite: &Canvas,
    quote: &str,
    matrix: &mut MatrixRain,
    font: &Font,
    now_secs: u64,
    bounce: i64,
) -> (r: Option<Canvas>)
    requires
        old(matrix).wf(),
        sprite.wf(),
        -10 <= bounce <= 10,
    ensures
        final(matrix).wf(),
        r is Some <==> texts_fit(quote@, readout_text(*stats, now_secs), font.data()),
        r is None ==> *final(matrix) == *old(matrix),
        r matches Some(img) ==> {
            &&& rain_ticked(*old(matrix), *final(matrix))
            &&& img.wf()
            &&& img.width == WIDTH
            &&& img.height == HEIGHT
            &&& img.px@ == scene(
                *old(matrix),
                sprite.px@,
                sprite.width,
                sprite.height,
                bounce as int,
                quote@,
                readout_text(*stats, now_secs),
                font.data(),
            )
        },
{
    // 1. Measure the texts.
    let line = readout_line(stats, now_secs);
    if !font.fits(FONT_PX, line.as_str()) {
        return None;
    }
    proof {
        lemma_fitting_extent(font.data(), FONT_PX, line@);
    }
    let line_h = font.text_size(FONT_PX, line.as_str()).1;
    let y: i32 = HEIGHT as i32 - BOTTOM_MARGIN - line_h as i32;
    let x = match centered_x(line.as_str(), FONT_PX, font) {
        Some(x) => x,
        None => return None,
    };
    let speaks = quote.unicode_len() > 0;
    if speaks && !font.fits(BUBBLE_FONT_PX, quote) {
        return None;
    }
    let quote_extent = font.text_size(BUBBLE_FONT_PX, quote);

    // 2. Black canvas and rain.
    let mut img = Canvas::from_pixel(WIDTH as u32, HEIGHT as u32, [0, 0, 0, 255]);
    matrix.tick(&mut img, font);

    // 3. Mascot in the center, bouncing.
    let mascot_x: i64 = WIDTH as i64 / 2 - sprite.width as i64 / 2;
    let mascot_y: i64 = HEIGHT as i64 / 2 - sprite.height as i64 / 2 + bounce;
    let ghost rain = img.px@;
    overlay(&mut img, sprite, mascot_x, mascot_y);
    assert(img.px@ =~= overlaid(
        rain,
        WIDTH as u32,
        sprite.px@,
        sprite.width,
        sprite.height,
        mascot_x as int,
        mascot_y as int,
    ));

    // 4. Speech bubble above the mascot's head.
    if speaks {
        draw_bubble(&mut img, quote, quote_extent, mascot_y, font);
    }
    // 5. Telemetry readout at the bottom.
    font.draw_text(&mut img, [0, 255, 255, 255], x, y, FONT_PX, line.as_str());
    Some(img)
}

/// Flatten a composed scene to RGB, apply the HUD as the very last step, and
/// encode the frame.
pub fn finish_frame(img: Canvas) -> (r: Vec<u8>)
    requires
        img.wf(),
        img.width == WIDTH,
        img.height == HEIGHT,
    ensures
        r@ == jpeg_bytes(
            hud_painted(without_alpha(img.px@), WIDTH as u32, HEIGHT as u32),
            WIDTH as u32,
            HEIGHT as u32,
            JPEG_QUALITY,
        ),
        is_jpeg(r@),
        declared_size(r@) == Some((WIDTH, HEIGHT)),
{
    let mut rgb = flatten(img);
    apply_retro_hud(&mut rgb);
    let jpeg = encode_jpeg(&rgb, JPEG_QUALITY);
    proof {
        reveal_with_fuel(walk_segments, 3);
        assert(be16(jpeg@[4], jpeg@[5]) == 16);
    }
    jpeg
}

/// The encoded frame, or nothing if the sprite does not decode or a text
/// cannot be drawn.
pub open spec fn rendered(
    stats: SystemStats,
    mascot_state: Seq<char>,
    quote: Seq<char>,
    matrix: MatrixRain,
    assets: Assets,
    now_secs: u64,
    bounce: int,
) -> Option<Seq<u8>> {
    let line = readout_text(stats, now_secs);
    let font = assets.font.data();
    match sprite_image(assets.sprite_file(mascot_state)) {
        Some((w, h, px)) => if texts_fit(quote, line, font) {
            Some(
                jpeg_bytes(
                    hud_painted(
                        without_alpha(scene(matrix, px, w, h, bounce, quote, line, font)),
                        WIDTH as u32,
                        HEIGHT as u32,
                    ),
                    WIDTH as u32,
                    HEIGHT as u32,
                    JPEG_QUALITY,
                ),
            )
        } else {
            None
        },
        None => None,
    }
}

/// Compose one 480x480 frame and return the JPEG-encoded bytes (quality 90).
///
/// * `stats` — telemetry snapshot for the bottom readout.
/// * `mascot_state` — `"normal"`, `"smile"`, `"squints"`, `"smoke"`, `"angry"`
///   (silent, no quote), or `"angry_scream"` (screaming, quote visible); picks
///   the sprite.
/// * `quote` — if non-empty, a white speech bubble with black text is drawn
///   above the mascot's head.
/// * `matrix` — the rain; advanced and painted onto the black background, so it
///   sits behind everything else.
/// * `now_secs` — wall-clock seconds; rotates the readout every 7 s.
/// * `bounce` — the mascot's vertical bounce, in px.
///
/// `None` if the sprite does not decode or a text cannot be drawn; the rain
/// then stays as it is.
pub fn draw_frame(
    stats: &SystemStats,
    mascot_state: &str,
    quote: &str,
    matrix: &mut MatrixRain,
    assets: &Assets,
    now_secs: u64,
    bounce: i64,
) -> (r: Option<Vec<u8>>)
    requires
        old(matrix).wf(),
        -10 <= bounce <= 10,
    ensures
        final(matrix).wf(),
        r is None ==> *final(matrix) == *old(matrix),
        r is Some ==> rain_ticked(*old(matrix), *final(matrix)),
        r matches Some(jpeg) ==> is_jpeg(jpeg@) && declared_size(jpeg@) == Some((WIDTH, HEIGHT)),
        (match r {
            Some(jpeg) => Some(jpeg@),
            None => None,
        }) == rendered(*stats, mascot_state@, quote@, *old(matrix), *assets, now_secs, bounce as int),
{
    let sprite = match decode_sprite(assets.sprite(mascot_state).as_slice()) {
        Some(sprite) => sprite,
        None => return None,
    };
    match compose_scene(stats, &sprite, quote, matrix, &assets.font, now_secs, bounce) {
        Some(img) => Some(finish_frame(img)),
        None => None,
    }
}

// ── Laws of the frame ───────────────────────────────────────────────────

/// Each readout stays for one 7 s window, and the three readouts come around
/// every 21 s.
pub proof fn lemma_readout_rotates(stats: SystemStats, a: u64, b: u64)
    ensures
        a / 7 == b / 7 ==> readout_text(stats, a) == readout_text(stats, b),
        b == a + 21 ==> readout_text(stats, a) == readout_text(stats, b),
        b == a + 7 ==> readout_turn(b) == (readout_turn(a) + 1) % 3,
{
}

/// A bubble that is no wider and no taller than the panel allows keeps the
/// margin on every side, and stands one gap above the mascot's head wherever
/// there is room above it.
pub proof fn lemma_bubble_keeps_margin(text_w: int, text_h: int, mascot_y: int)
    requires
        0 <= text_w,
        0 <= text_h,
        text_w + 2 * BUBBLE_PAD <= WIDTH - 2 * BUBBLE_MARGIN,
        text_h + 2 * BUBBLE_PAD <= HEIGHT - 2 * BUBBLE_MARGIN,
        mascot_y <= HEIGHT,
    ensures
        ({
            let (x, y, w, h) = bubble_box(text_w, text_h, mascot_y);
            &&& BUBBLE_MARGIN <= x
            &&& x + w <= WIDTH - BUBBLE_MARGIN
            &&& BUBBLE_MARGIN <= y
            &&& y + h <= HEIGHT - BUBBLE_MARGIN
            &&& mascot_y - BUBBLE_GAP - h >= BUBBLE_MARGIN ==> y + h == mascot_y - BUBBLE_GAP
        }),
{
}

/// The HUD lies over everything: its pixels do not depend on what is below.
pub proof fn lemma_hud_hides_what_is_below(
    a: Seq<[u8; 3]>,
    b: Seq<[u8; 3]>,
    width: u32,
    height: u32,
    i: int,
)
    requires
        a.len() == b.len(),
        0 <= i < a.len(),
        hud_covers(i % width as int, i / width as int, width as int, height as int),
    ensures
        hud_painted(a, width, height)[i] == hud_painted(b, width, height)[i],
        hud_painted(a, width, height)[i] == hud_color(),
{
}

/// Outside the targeting frame the HUD only darkens every third row, each
/// channel by 30% and less than one step.
pub proof fn lemma_hud_only_dims(px: Seq<[u8; 3]>, width: u32, height: u32, i: int, k: int)
    requires
        0 <= i < px.len(),
        0 <= k < 3,
        !hud_covers(i % width as int, i / width as int, width as int, height as int),
    ensures
        (i / width as int) % 3 != 0 ==> hud_painted(px, width, height)[i] == px[i],
        (i / width as int) % 3 == 0 ==> {
            &&& 10 * hud_painted(px, width, height)[i][k] <= 7 * px[i][k]
            &&& 7 * px[i][k] < 10 * hud_painted(px, width, height)[i][k] + 10
        },
{
}

/// The targeting frame keeps 10 px off the left, right and bottom edges and 8
/// px off the top edge, where the accent block straddles the border.
pub proof fn lemma_hud_is_inset(x: int, y: int, w: int, h: int)
    requires
        w >= 60,
        h >= 60,
        hud_covers(x, y, w, h),
    ensures
        10 <= x <= w - 11,
        8 <= y <= h - 11,
{
}

/// A frame without a quote does not depend on the bubble: the scene is the
/// rain, the mascot and the telemetry line.
pub proof fn lemma_no_bubble_without_quote(
    matrix: MatrixRain,
    sprite: Seq<[u8; 4]>,
    sprite_w: u32,
    sprite_h: u32,
    bounce: int,
    line: Seq<char>,
    font: Seq<u8>,
)
    ensures
        scene(matrix, sprite, sprite_w, sprite_h, bounce, Seq::empty(), line, font)
            == readout_painted(
            overlaid(
                rain_painted(
                    all_advanced(matrix.drops@, matrix.prng.state),
                    matrix.drops@.len() as int,
                    background(),
                    WIDTH as u32,
                    HEIGHT as u32,
                    font,
                ),
                WIDTH as u32,
                sprite,
                sprite_w,
                sprite_h,
                centered(sprite_w as int),
                mascot_top(sprite_h as int, bounce),
            ),
            line,
            font,
        ),
{
}

/// A clear sprite leaves the background as it is, and an opaque one hides it.
pub proof fn lemma_sprite_transparency(
    px: Seq<[u8; 4]>,
    width: u32,
    top: Seq<[u8; 4]>,
    tw: u32,
    th: u32,
    x: int,
    y: int,
    i: int,
)
    requires
        0 <= i < px.len(),
    ensures
        match covering(top, tw, th, x, y, width, i) {
            Some(t) => (t[3] == 0 ==> overlaid(px, width, top, tw, th, x, y)[i] == px[i]) && (t[3]
                == 255 ==> overlaid(px, width, top, tw, th, x, y)[i] == t),
            None => overlaid(px, width, top, tw, th, x, y)[i] == px[i],
        },
{
}

/// What the telemetry line says: CPU temperature and frequency, GPU temperature
/// and VRAM, or RAM in use and in all, by the number of 7 s windows since the
/// epoch, modulo three.
pub proof fn lemma_readout_in_words(stats: SystemStats, now_secs: u64)
    ensures
        (now_secs / 7) % 3 == 0 ==> readout_text(stats, now_secs) == "CPU: "@ + (
        match stats.cpu_temp {
            Some(m) => decimal(half_even(m as nat, 1000)),
            None => "NaN"@,
        }) + "C | "@ + decimal(round_single(stats.cpu_freq_mhz as nat)) + " MHz"@,
        (now_secs / 7) % 3 == 1 ==> readout_text(stats, now_secs) == "GPU: "@ + (
        match stats.gpu_temp {
            Some(m) => decimal(half_even(m as nat, 1000)),
            None => "NaN"@,
        }) + "C | VRAM: "@ + stats.gpu_vram_used.gib_text() + " GB"@,
        (now_secs / 7) % 3 == 2 ==> ({
            let used = half_even(10 * round_single(stats.ram_used as nat), 1073741824);
            let total = half_even(10 * round_single(stats.ram_total as nat), 1073741824);
            readout_text(stats, now_secs) == "RAM: "@ + (decimal(used / 10) + "."@ + decimal(
                used % 10,
            )) + " GB | "@ + (decimal(total / 10) + "."@ + decimal(total % 10)) + " GB"@
        }),
{
}

/// The sprite of each of the six states; any other name gets the normal one.
pub proof fn lemma_sprite_of_each_state(assets: Assets, mascot_state: Seq<char>)
    ensures
        assets.sprite_file(mascot_state) == if mascot_state == "angry"@ {
                assets.angry@
            } else if mascot_state == "angry_scream"@ {
                assets.angry_scream@
            } else if mascot_state == "smile"@ {
                assets.smile@
            } else if mascot_state == "squints"@ {
                assets.squints@
            } else if mascot_state == "smoke"@ {
                assets.smoke@
            } else {
                assets.normal@
            },
{
}

/// Where the bubble stands, in numbers: 8 px of padding around the text; centered
/// on column 240, but from column 8 on, and in any case ending at column 472;
/// 10 px above the mascot, but from row 8 on.
pub proof fn lemma_bubble_box_in_numbers(text_w: int, text_h: int, top: int)
    ensures
        ({
            let bw = text_w + 16;
            let bh = text_h + 16;
            let x = if 240 - bw / 2 > 8 && 240 - bw / 2 <= 472 - bw {
                240 - bw / 2
            } else if 240 - bw / 2 <= 8 && 8 <= 472 - bw {
                8
            } else {
                472 - bw
            };
            let y = if top - 10 - bh > 8 {
                top - 10 - bh
            } else {
                8
            };
            bubble_box(text_w, text_h, top) == (x, y, bw, bh)
        }),
        centered(text_w) == 240 - text_w / 2,
        mascot_top(text_h, top) == 240 - text_h / 2 + top,
{
}

/// The HUD pixel by pixel, on a picture of any size: cyan on the border 10 px
/// off the edges, on the corner brackets, 30 px long and 3 px thick, and on the
/// accent block of 40 by 4 px; elsewhere every third row at seven tenths of its
/// light and all others as they were.
pub proof fn lemma_hud_pixel_by_pixel(px: Seq<[u8; 3]>, width: u32, height: u32, i: int)
    requires
        0 <= i < px.len(),
    ensures
        hud_painted(px, width, height).len() == px.len(),
        ({
            let (x, y) = (i % width as int, i / width as int);
            let (w, h) = (width as int, height as int);
            let framed = {
                    ||| 10 <= x <= w - 11 && 10 <= y <= h - 11 && (x == 10 || x == w - 11 || y == 10
                        || y == h - 11)
                    ||| (10 <= x <= 39 || w - 40 <= x <= w - 11) && (10 <= y <= 12 || h - 13 <= y
                        <= h - 11)
                    ||| (10 <= x <= 12 || w - 13 <= x <= w - 11) && (10 <= y <= 39 || h - 40 <= y
                        <= h - 11)
                    ||| w / 2 - 20 <= x <= w / 2 + 19 && 8 <= y <= 11
                };
            let p = px[i];
            hud_painted(px, width, height)[i] == if framed {
                [0u8, 255u8, 255u8]
            } else if y % 3 == 0 {
                [(p[0] * 7 / 10) as u8, (p[1] * 7 / 10) as u8, (p[2] * 7 / 10) as u8]
            } else {
                p
            }
        }),
{
}

/// The scene, layer by layer: the rain over black; the sprite in the center,
/// moved by the bounce; for a quote, whatever it says, a white box above the
/// mascot and the quote in black 22 px letters in it; and the telemetry line in
/// cyan 40 px letters, centered 24 px above the bottom edge. The pictures with
/// the rain, the mascot, the white box and the quote are returned.
pub proof fn lemma_scene_layer_by_layer(
    matrix: MatrixRain,
    sprite: Seq<[u8; 4]>,
    sprite_w: u32,
    sprite_h: u32,
    bounce: int,
    quote: Seq<char>,
    line: Seq<char>,
    font: Seq<u8>,
) -> (r: (Seq<[u8; 4]>, Seq<[u8; 4]>, Seq<[u8; 4]>, Seq<[u8; 4]>))
    ensures
        ({
            let (rain, mascot, boxed, said) = r;
            let black = Seq::new(230400, |i: int| [0u8, 0u8, 0u8, 255u8]);
            let left = 240 - sprite_w as int / 2;
            let top = 240 - sprite_h as int / 2 + bounce;
            let bw = text_extent(font, 22, quote).0 + 16;
            let bh = text_extent(font, 22, quote).1 + 16;
            let bx = if 240 - bw / 2 > 8 && 240 - bw / 2 <= 472 - bw {
                240 - bw / 2
            } else if 240 - bw / 2 <= 8 && 8 <= 472 - bw {
                8
            } else {
                472 - bw
            };
            let by = if top - 10 - bh > 8 {
                top - 10 - bh
            } else {
                8
            };
            let extent = text_extent(font, 40, line);
            &&& rain == rain_painted(
                all_advanced(matrix.drops@, matrix.prng.state),
                matrix.drops@.len() as int,
                black,
                480,
                480,
                font,
            )
            &&& mascot.len() == rain.len()
            &&& forall|i: int|
                #![trigger mascot[i]]
                0 <= i < rain.len() ==> mascot[i] == ({
                    let (cx, cy) = (i % 480 - left, i / 480 - top);
                    let t = sprite[cy * sprite_w + cx];
                    if 0 <= cx < sprite_w && 0 <= cy < sprite_h && t[3] != 0 {
                        if t[3] == 255 {
                            t
                        } else {
                            mixed(rain[i], t)
                        }
                    } else {
                        rain[i]
                    }
                })
            &&& boxed.len() == mascot.len()
            &&& forall|i: int|
                #![trigger boxed[i]]
                0 <= i < mascot.len() ==> boxed[i] == if quote.len() > 0 && bx <= i % 480 < bx + bw
                    && by <= i / 480 < by + bh {
                    [255u8, 255u8, 255u8, 255u8]
                } else {
                    mascot[i]
                }
            &&& quote.len() > 0 ==> said == text_drawn(
                boxed,
                480,
                480,
                [0u8, 0u8, 0u8, 255u8],
                (bx + 8) as i32,
                (by + 8) as i32,
                22,
                font,
                quote,
            )
            &&& quote.len() == 0 ==> said == mascot
            &&& scene(matrix, sprite, sprite_w, sprite_h, bounce, quote, line, font) == text_drawn(
                said,
                480,
                480,
                [0u8, 255u8, 255u8, 255u8],
                (240 - extent.0 as int / 2) as i32,
                (456 - extent.1) as i32,
                40,
                font,
                line,
            )
        }),
{
    let black = Seq::new(230400, |i: int| [0u8, 0u8, 0u8, 255u8]);
    assert(background() =~= black);
    let rain = rain_painted(
        all_advanced(matrix.drops@, matrix.prng.state),
        matrix.drops@.len() as int,
        background(),
        WIDTH as u32,
        HEIGHT as u32,
        font,
    );
    let top = mascot_top(sprite_h as int, bounce);
    let mascot = overlaid(
        rain,
        WIDTH as u32,
        sprite,
        sprite_w,
        sprite_h,
        centered(sprite_w as int),
        top,
    );
    let extent = text_extent(font, BUBBLE_FONT_PX, quote);
    lemma_bubble_box_in_numbers(extent.0 as int, extent.1 as int, top);
    let (x, y, w, h) = bubble_box(extent.0 as int, extent.1 as int, top);
    if quote.len() > 0 {
        (
            rain,
            mascot,
            box_filled(mascot, WIDTH as u32, x, y, w, h, [255, 255, 255, 255]),
            bubble_painted(mascot, quote, top, font),
        )
    } else {
        (rain, mascot, mascot, mascot)
    }
}

/// When there is a frame: exactly if the sprite of the state decodes, the
/// telemetry line can be drawn, and so can the quote, if there is one.
pub proof fn lemma_when_there_is_a_frame(
    stats: SystemStats,
    mascot_state: Seq<char>,
    quote: Seq<char>,
    matrix: MatrixRain,
    assets: Assets,
    now_secs: u64,
    bounce: int,
)
    ensures
        ({
            let file = if mascot_state == "angry"@ {
                assets.angry@
            } else if mascot_state == "angry_scream"@ {
                assets.angry_scream@
            } else if mascot_state == "smile"@ {
                assets.smile@
            } else if mascot_state == "squints"@ {
                assets.squints@
            } else if mascot_state == "smoke"@ {
                assets.smoke@
            } else {
                assets.normal@
            };
            rendered(stats, mascot_state, quote, matrix, assets, now_secs, bounce) is Some <==> {
                &&& sprite_image(file) is Some
                &&& quote.len() == 0 || text_fits(assets.font.data(), 22, quote)
                &&& text_fits(assets.font.data(), 40, readout_text(stats, now_secs))
            }
        }),
{
}

/// What is encoded: the scene of the very quote, sprite and telemetry line that
/// were given, whatever the state, under the HUD, as a 480 by 480 JPEG of
/// quality 90. The pixels are returned.
pub proof fn lemma_frame_is_its_scene_under_the_hud(
    stats: SystemStats,
    mascot_state: Seq<char>,
    quote: Seq<char>,
    matrix: MatrixRain,
    assets: Assets,
    now_secs: u64,
    bounce: int,
) -> (rgb: Seq<[u8; 3]>)
    requires
        rendered(stats, mascot_state, quote, matrix, assets, now_secs, bounce) is Some,
    ensures
        ({
            let file = if mascot_state == "angry"@ {
                assets.angry@
            } else if mascot_state == "angry_scream"@ {
                assets.angry_scream@
            } else if mascot_state == "smile"@ {
                assets.smile@
            } else if mascot_state == "squints"@ {
                assets.squints@
            } else if mascot_state == "smoke"@ {
                assets.smoke@
            } else {
                assets.normal@
            };
            let (w, h, sprite) = sprite_image(file)->Some_0;
            let picture = scene(
                matrix,
                sprite,
                w,
                h,
                bounce,
                quote,
                readout_text(stats, now_secs),
                assets.font.data(),
            );
            &&& rendered(stats, mascot_state, quote, matrix, assets, now_secs, bounce) == Some(
                jpeg_bytes(rgb, 480, 480, 90),
            )
            &&& rgb.len() == picture.len()
            &&& forall|i: int|
                #![trigger rgb[i]]
                0 <= i < picture.len() ==> rgb[i] == ({
                    let (x, y) = (i % 480, i / 480);
                    let framed = {
                        ||| 10 <= x <= 469 && 10 <= y <= 469 && (x == 10 || x == 469 || y == 10 || y
                            == 469)
                        ||| (10 <= x <= 39 || 440 <= x <= 469) && (10 <= y <= 12 || 467 <= y <= 469)
                        ||| (10 <= x <= 12 || 467 <= x <= 469) && (10 <= y <= 39 || 440 <= y <= 469)
                        ||| 220 <= x <= 259 && 8 <= y <= 11
                    };
                    let p = picture[i];
                    if framed {
                        [0u8, 255u8, 255u8]
                    } else if y % 3 == 0 {
                        [(p[0] * 7 / 10) as u8, (p[1] * 7 / 10) as u8, (p[2] * 7 / 10) as u8]
                    } else {
                        [p[0], p[1], p[2]]
                    }
                })
        }),
{
    let (w, h, sprite) = sprite_image(assets.sprite_file(mascot_state))->Some_0;
    let picture = scene(
        matrix,
        sprite,
        w,
        h,
        bounce,
        quote,
        readout_text(stats, now_secs),
        assets.font.data(),
    );
    let flat = without_alpha(picture);
    let rgb = hud_painted(flat, WIDTH as u32, HEIGHT as u32);
    assert forall|i: int| #![trigger rgb[i]] 0 <= i < picture.len() implies rgb[i] == ({
        let (x, y) = (i % 480, i / 480);
        let framed = {
            ||| 10 <= x <= 469 && 10 <= y <= 469 && (x == 10 || x == 469 || y == 10 || y
                == 469)
            ||| (10 <= x <= 39 || 440 <= x <= 469) && (10 <= y <= 12 || 467 <= y <= 469)
            ||| (10 <= x <= 12 || 467 <= x <= 469) && (10 <= y <= 39 || 440 <= y <= 469)
            ||| 220 <= x <= 259 && 8 <= y <= 11
        };
        let p = picture[i];
        if framed {
            [0u8, 255u8, 255u8]
        } else if y % 3 == 0 {
            [(p[0] * 7 / 10) as u8, (p[1] * 7 / 10) as u8, (p[2] * 7 / 10) as u8]
        } else {
            [p[0], p[1], p[2]]
        }
    }) by {
        lemma_hud_pixel_by_pixel(flat, WIDTH as u32, HEIGHT as u32, i);
    }
    rgb
}

/// A frame with a quote shows its bubble, in every state: in the box above the
/// mascot's head each pixel that the letters and the HUD leave alone is white,
/// or white at seven tenths of its light on every third row, and the letters in
/// it are those of the quote, in black. The pictures with the box, the quote and
/// the telemetry line and the encoded pixels are returned.
pub proof fn lemma_frame_shows_the_quote(
    stats: SystemStats,
    mascot_state: Seq<char>,
    quote: Seq<char>,
    matrix: MatrixRain,
    assets: Assets,
    now_secs: u64,
    bounce: int,
) -> (r: (Seq<[u8; 4]>, Seq<[u8; 4]>, Seq<[u8; 4]>, Seq<[u8; 3]>))
    requires
        rendered(stats, mascot_state, quote, matrix, assets, now_secs, bounce) is Some,
        quote.len() > 0,
    ensures
        ({
            let (boxed, said, full, rgb) = r;
            let font = assets.font.data();
            let line = readout_text(stats, now_secs);
            let file = if mascot_state == "angry"@ {
                assets.angry@
            } else if mascot_state == "angry_scream"@ {
                assets.angry_scream@
            } else if mascot_state == "smile"@ {
                assets.smile@
            } else if mascot_state == "squints"@ {
                assets.squints@
            } else if mascot_state == "smoke"@ {
                assets.smoke@
            } else {
                assets.normal@
            };
            let top = 240 - (sprite_image(file)->Some_0).1 as int / 2 + bounce;
            let bw = text_extent(font, 22, quote).0 + 16;
            let bh = text_extent(font, 22, quote).1 + 16;
            let bx = if 240 - bw / 2 > 8 && 240 - bw / 2 <= 472 - bw {
                240 - bw / 2
            } else if 240 - bw / 2 <= 8 && 8 <= 472 - bw {
                8
            } else {
                472 - bw
            };
            let by = if top - 10 - bh > 8 {
                top - 10 - bh
            } else {
                8
            };
            let extent = text_extent(font, 40, line);
            &&& said == text_drawn(
                boxed,
                480,
                480,
                [0u8, 0u8, 0u8, 255u8],
                (bx + 8) as i32,
                (by + 8) as i32,
                22,
                font,
                quote,
            )
            &&& full == text_drawn(
                said,
                480,
                480,
                [0u8, 255u8, 255u8, 255u8],
                (240 - extent.0 as int / 2) as i32,
                (456 - extent.1) as i32,
                40,
                font,
                line,
            )
            &&& rendered(stats, mascot_state, quote, matrix, assets, now_secs, bounce) == Some(
                jpeg_bytes(rgb, 480, 480, 90),
            )
            &&& forall|i: int|
                #![trigger rgb[i]]
                0 <= i < boxed.len() && i < full.len() && bx <= i % 480 < bx + bw && by <= i / 480
                    < by + bh ==> ({
                    let (x, y) = (i % 480, i / 480);
                    let framed = {
                        ||| 10 <= x <= 469 && 10 <= y <= 469 && (x == 10 || x == 469 || y == 10 || y
                            == 469)
                        ||| (10 <= x <= 39 || 440 <= x <= 469) && (10 <= y <= 12 || 467 <= y <= 469)
                        ||| (10 <= x <= 12 || 467 <= x <= 469) && (10 <= y <= 39 || 440 <= y <= 469)
                        ||| 220 <= x <= 259 && 8 <= y <= 11
                    };
                    &&& boxed[i] == [255u8, 255u8, 255u8, 255u8]
                    &&& said[i] == boxed[i] && full[i] == said[i] && !framed ==> rgb[i] == if y % 3
                        == 0 {
                        [178u8, 178u8, 178u8]
                    } else {
                        [255u8, 255u8, 255u8]
                    }
                })
        }),
{
    let font = assets.font.data();
    let line = readout_text(stats, now_secs);
    let (w, h, sprite) = sprite_image(assets.sprite_file(mascot_state))->Some_0;
    let (rain, mascot, boxed, said) = lemma_scene_layer_by_layer(
        matrix,
        sprite,
        w,
        h,
        bounce,
        quote,
        line,
        font,
    );
    let rgb = lemma_frame_is_its_scene_under_the_hud(
        stats,
        mascot_state,
        quote,
        matrix,
        assets,
        now_secs,
        bounce,
    );
    let full = scene(matrix, sprite, w, h, bounce, quote, line, font);
    (boxed, said, full, rgb)
}

/// The state only picks the sprite: two states with the same sprite give the
/// same frame, with the same quote in it.
pub proof fn lemma_state_only_picks_the_sprite(
    stats: SystemStats,
    a: Seq<char>,
    b: Seq<char>,
    quote: Seq<char>,
    matrix: MatrixRain,
    assets: Assets,
    now_secs: u64,
    bounce: int,
)
    requires
        sprite_image(assets.sprite_file(a)) == sprite_image(assets.sprite_file(b)),
    ensures
        rendered(stats, a, quote, matrix, assets, now_secs, bounce) == rendered(
            stats,
            b,
            quote,
            matrix,
            assets,
            now_secs,
            bounce,
        ),
{
}

/// Time and telemetry only enter through the telemetry line: where that reads
/// the same, the frame is the same.
pub proof fn lemma_stats_only_enter_through_the_readout(
    a: SystemStats,
    b: SystemStats,
    now_a: u64,
    now_b: u64,
    mascot_state: Seq<char>,
    quote: Seq<char>,
    matrix: MatrixRain,
    assets: Assets,
    bounce: int,
)
    requires
        readout_text(a, now_a) == readout_text(b, now_b),
    ensures
        rendered(a, mascot_state, quote, matrix, assets, now_a, bounce) == rendered(
            b,
            mascot_state,
            quote,
            matrix,
            assets,
            now_b,
            bounce,
        ),
{
}

/// What one frame does to the rain: every drop advances once, in order, and
/// nothing else changes.
pub proof fn lemma_one_frame_advances_the_rain(before: MatrixRain, after: MatrixRain)
    ensures
        rain_ticked(before, after) <==> {
            &&& after.wf()
            &&& after.drops@.len() == before.drops@.len()
            &&& forall|i: int|
                0 <= i < before.drops@.len() ==> #[trigger] after.drops@[i]
                    == before.drops@[i].advanced(
                    state_after_drops(before.drops@, before.prng.state, i),
                )
            &&& after.prng.state == state_after_drops(
                before.drops@,
                before.prng.state,
                before.drops@.len() as int,
            )
        },
{
    let all = all_advanced(before.drops@, before.prng.state);
    if after.drops@.len() == before.drops@.len() && (forall|i: int|
        0 <= i < before.drops@.len() ==> #[trigger] after.drops@[i] == before.drops@[i].advanced(
            state_after_drops(before.drops@, before.prng.state, i),
        )) {
        assert(after.drops@ =~= all);
    }
}

} // verus!
