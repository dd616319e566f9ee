use ab_glyph::{FontRef, PxScale};
use image::{ImageEncoder, Rgb, RgbImage, Rgba, RgbaImage};
use imageproc::drawing::{
    draw_filled_rect_mut, draw_hollow_rect_mut, draw_text_mut, text_size,
};
use imageproc::rect::Rect;

use retro_aio::canvas::{Canvas, Font, Frame};
use retro_aio::daemon::Daemon;
use retro_aio::mascot::Mood;
use retro_aio::prng::RenderPrng;
use retro_aio::rain::{MatrixDrop, MatrixRain, UNITS};
use retro_aio::render::{
    apply_retro_hud, centered_x, compose_scene, draw_frame, finish_frame, place_bubble,
    readout_line, Assets,
};
use retro_aio::screen::{size_warning, AioScreen};
use retro_aio::single::Reading;
use retro_aio::telemetry::SystemStats;

// ── Fixtures ────────────────────────────────────────────────────────────

fn be16(v: &mut Vec<u8>, xs: &[i32]) {
    for x in xs {
        v.extend_from_slice(&(*x as i16).to_be_bytes());
    }
}

/// A font of one glyph, a square that every character maps to.
struct FontShape {
    ascent: i32,
    descent: i32,
    side: i32,
    advance: i32,
    /// Kerning of the glyph with itself.
    kern: Option<i32>,
}

/// The height is 1024 units, so sizes scale exactly; the square has half the
/// font's height.
const PLAIN: FontShape =
    FontShape { ascent: 768, descent: -256, side: 512, advance: 640, kern: None };

fn font_file(shape: &FontShape) -> Vec<u8> {
    let side = shape.side;
    let mut glyf = Vec::new();
    be16(&mut glyf, &[1, 0, 0, side, side, 3, 0]);
    glyf.extend_from_slice(&[1, 1, 1, 1]);
    be16(&mut glyf, &[0, 0, side, 0]);
    be16(&mut glyf, &[0, side, 0, -side]);
    let mut head = Vec::new();
    be16(&mut head, &[1, 0, 1, 0, 0, 0, 0x5F0F, 0x3CF5, 0, 1024]);
    be16(&mut head, &[0; 8]);
    be16(&mut head, &[0, 0, side, side, 0, 8, 2, 0, 0]);
    let mut hhea = Vec::new();
    let (up, down) = (shape.ascent, shape.descent);
    be16(&mut hhea, &[1, 0, up, down, 0, shape.advance, 0, 0, side, 1, 0, 0, 0, 0, 0, 0, 0, 1]);
    let mut hmtx = Vec::new();
    be16(&mut hmtx, &[shape.advance, 0]);
    let mut kern = Vec::new();
    be16(&mut kern, &[0, 1, 0, 20, 1, 1, 6, 0, 0, 0, 0, shape.kern.unwrap_or(0)]);
    let mut loca = Vec::new();
    be16(&mut loca, &[0, glyf.len() as i32 / 2]);
    let mut maxp = Vec::new();
    be16(&mut maxp, &[0, 0x5000, 1]);
    let mut tables = vec![(b"glyf", glyf), (b"head", head), (b"hhea", hhea), (b"hmtx", hmtx)];
    if shape.kern.is_some() {
        tables.push((b"kern", kern));
    }
    tables.push((b"loca", loca));
    tables.push((b"maxp", maxp));
    let mut file = Vec::new();
    be16(&mut file, &[1, 0, tables.len() as i32, 64, 2, 32]);
    let mut offset = 12 + 16 * tables.len() as u32;
    for (tag, data) in &tables {
        file.extend_from_slice(*tag);
        file.extend_from_slice(&[0; 4]);
        file.extend_from_slice(&offset.to_be_bytes());
        file.extend_from_slice(&(data.len() as u32).to_be_bytes());
        offset += (data.len() as u32 + 3) / 4 * 4;
    }
    for (_, data) in &tables {
        file.extend_from_slice(data);
        while file.len() % 4 != 0 {
            file.push(0);
        }
    }
    file
}

fn font_bytes() -> Vec<u8> {
    font_file(&PLAIN)
}

fn font() -> Font {
    Font::new(font_bytes()).unwrap()
}

fn png(w: u32, h: u32, color: [u8; 4]) -> Vec<u8> {
    let img = RgbaImage::from_pixel(w, h, Rgba(color));
    let mut out = Vec::new();
    image::codecs::png::PngEncoder::new(&mut out)
        .write_image(img.as_raw(), w, h, image::ExtendedColorType::Rgba8)
        .unwrap();
    out
}

fn assets() -> Assets {
    Assets {
        font: font(),
        normal: png(100, 80, [20, 0, 0, 255]),
        angry: png(100, 80, [60, 0, 0, 255]),
        angry_scream: png(100, 80, [100, 0, 0, 255]),
        smile: png(100, 80, [140, 0, 0, 255]),
        squints: png(100, 80, [180, 0, 0, 255]),
        smoke: png(100, 80, [220, 0, 0, 255]),
    }
}

fn stats() -> SystemStats {
    SystemStats {
        cpu_temp: Some(48_500),
        gpu_temp: Some(61_400),
        cpu_freq_mhz: 4200,
        gpu_vram_used: Reading { bits: (3.25f32 * 1073741824.0).to_bits() },
        gpu_busy_percent: Reading { bits: 12.0f32.to_bits() },
        ram_used: 7_730_941_133,
        ram_total: 34_359_738_368,
    }
}

fn solid(w: u32, h: u32, color: [u8; 4]) -> Canvas {
    Canvas::from_pixel(w, h, color)
}

fn at(c: &Canvas, x: u32, y: u32) -> [u8; 4] {
    c.px[(y * c.width + x) as usize]
}

fn as_image(c: &Canvas) -> RgbaImage {
    RgbaImage::from_fn(c.width, c.height, |x, y| Rgba(at(c, x, y)))
}

// ── Canvas and text ─────────────────────────────────────────────────────

#[test]
fn pixels_are_row_major() {
    let mut c = solid(5, 3, [1, 2, 3, 4]);
    assert_eq!(c.px.len(), 15);
    c.put_pixel(4, 2, [9, 9, 9, 9]);
    c.put_pixel(1, 0, [8, 8, 8, 8]);
    assert_eq!(c.px[14], [9, 9, 9, 9]);
    assert_eq!(c.px[1], [8, 8, 8, 8]);
    assert_eq!(c.px.iter().filter(|p| **p == [1, 2, 3, 4]).count(), 13);
}

#[test]
fn fonts_are_checked() {
    let usable = |shape: FontShape| Font::new(font_file(&shape)).is_some();
    assert!(usable(PLAIN));
    assert!(Font::new(b"not a font".to_vec()).is_none());
    assert!(Font::new(Vec::new()).is_none());
    // The rain's glyphs are drawn at 16 px, and no font may grow.
    assert!(usable(FontShape { ascent: 8, descent: -8, side: 8, ..PLAIN }));
    assert!(!usable(FontShape { ascent: 8, descent: -7, side: 8, ..PLAIN }));
    assert!(!usable(FontShape { ascent: -100, descent: 100, ..PLAIN }));
    assert!(!usable(FontShape { ascent: 0, descent: 0, ..PLAIN }));
    // At 16 px these squares are 128 and 129 px tall.
    assert!(usable(FontShape { side: 8192, ..PLAIN }));
    assert!(!usable(FontShape { side: 8200, ..PLAIN }));
}

#[test]
fn texts_fit_by_what_they_measure() {
    let wide = Font::new(font_file(&FontShape { advance: 65535, ..PLAIN })).unwrap();
    // 1408 px per character; the reach is 8388608 px.
    assert!(wide.fits(22, &"x".repeat(5957)));
    assert!(!wide.fits(22, &"x".repeat(5960)));
    assert!(font().fits(22, &"x".repeat(500_000)));
    assert!(!font().fits(22, &"x".repeat(620_000)));
    assert!(font().fits(22, ""));
    assert!(!font().fits(0, "x"));
    assert!(font().fits(1024 / 8, "x"));
    assert!(!font().fits(1025, "x"));
}

#[test]
fn kerning_counts_for_the_reach() {
    let kerned = |kern| Font::new(font_file(&FontShape { kern: Some(kern), ..PLAIN })).unwrap();
    // The kerning is in effect: ten characters, nine pairs.
    assert_eq!(kerned(-64).text_size(16, "xxxxxxxxxx"), (91, 8));
    assert!(kerned(-32768).fits(22, &"x".repeat(3900)));
    assert!(!kerned(-32768).fits(22, &"x".repeat(20_000)));
    assert!(kerned(-1000).fits(22, &"x".repeat(20_000)));
    assert!(kerned(1000).fits(22, &"x".repeat(20_000)));
    let mut c = solid(64, 64, [0, 0, 0, 255]);
    kerned(-1000).draw_text(&mut c, [9, 9, 9, 255], 0, 0, 22, &"x".repeat(20_000));
    kerned(-32768).draw_text(&mut c, [9, 9, 9, 255], 0, 0, 22, &"xy".repeat(1500));
}

#[test]
fn text_is_measured() {
    let f = font();
    assert_eq!(f.text_size(40, "AB"), (50, 20));
    assert_eq!(f.text_size(16, "A"), (10, 8));
    assert_eq!(f.text_size(22, "ABCD"), (55, 12));
    assert_eq!(f.text_size(22, ""), (0, 0));
    let bytes = font_bytes();
    let face = FontRef::try_from_slice(&bytes).unwrap();
    for size in 1..=40u16 {
        let scale = PxScale { x: size as f32, y: size as f32 };
        assert_eq!(f.text_size(size, "hello"), text_size(scale, &face, "hello"));
    }
}

#[test]
fn text_is_drawn_and_clipped() {
    let f = font();
    let mut c = solid(64, 64, [0, 0, 0, 255]);
    f.draw_text(&mut c, [200, 100, 50, 255], 50, -5, 40, "AB");
    // The square of size 40 covers 20 px from 10 px below the text's top.
    for y in 0..64 {
        for x in 0..64 {
            let inside = (50..64).contains(&x) && (5..25).contains(&y);
            let expected = if inside { [200, 100, 50, 255] } else { [0, 0, 0, 255] };
            assert_eq!(at(&c, x, y), expected, "{x} {y}");
        }
    }
}

#[test]
fn lines_are_centered() {
    let f = font();
    assert_eq!(centered_x("AB", 40, &f), Some(240 - 25));
    assert_eq!(centered_x("", 40, &f), Some(240));
    let long = "x".repeat(60);
    assert_eq!(centered_x(&long, 40, &f), Some(240 - 750));
}

// ── Readout ─────────────────────────────────────────────────────────────

#[test]
fn readouts_rotate_every_seven_seconds() {
    let s = stats();
    for t in [0u64, 21, 42, 210_000_000 * 7] {
        for dt in 0..7 {
            assert_eq!(readout_line(&s, t + dt), "CPU: 48C | 4200 MHz");
            assert_eq!(readout_line(&s, t + 7 + dt), "GPU: 61C | VRAM: 3.2 GB");
            assert_eq!(readout_line(&s, t + 14 + dt), "RAM: 7.2 GB | 32.0 GB");
        }
    }
}

#[test]
fn readouts_match_float_formatting() {
    let gib = 1024.0f32 * 1024.0 * 1024.0;
    let mut n: u64 = 99;
    for k in 0..3000u64 {
        n = n.wrapping_mul(6364136223846793005).wrapping_add(1442695040888963407);
        let milli = 1000 + n % 124_000;
        let mhz = (n >> 7) % 6000 + k * 17;
        let used = n >> (24 + k % 12);
        let total = n >> (22 + k % 9);
        let s = SystemStats {
            cpu_temp: Some(milli),
            gpu_temp: if k % 5 == 0 { None } else { Some(milli / 2 + 500) },
            cpu_freq_mhz: mhz,
            gpu_vram_used: Reading { bits: (used as f32).to_bits() },
            gpu_busy_percent: Reading { bits: 0 },
            ram_used: used,
            ram_total: total,
        };
        let cpu_temp = milli as f32 / 1000.0;
        let gpu_temp = if k % 5 == 0 { f32::NAN } else { (milli / 2 + 500) as f32 / 1000.0 };
        assert_eq!(
            readout_line(&s, 0),
            format!("CPU: {:.0}C | {:.0} MHz", cpu_temp, mhz as f32)
        );
        assert_eq!(
            readout_line(&s, 7),
            format!("GPU: {:.0}C | VRAM: {:.1} GB", gpu_temp, used as f32 / gib)
        );
        assert_eq!(
            readout_line(&s, 14),
            format!("RAM: {:.1} GB | {:.1} GB", used as f32 / gib, total as f32 / gib)
        );
    }
}

// ── Bubble ──────────────────────────────────────────────────────────────

#[test]
fn bubbles_are_placed() {
    let b = place_bubble(100, 14, 200);
    assert_eq!((b.x, b.y, b.w, b.h), (182, 160, 116, 30));
    // No room above: the top margin wins.
    let b = place_bubble(100, 14, 40);
    assert_eq!((b.y, b.h), (8, 30));
    // Wide text: the left margin first, then the right one.
    let b = place_bubble(448, 14, 200);
    assert_eq!((b.x, b.w), (8, 464));
    let b = place_bubble(450, 14, 200);
    assert_eq!((b.x, b.w), (6, 466));
    let b = place_bubble(1000, 14, 200);
    assert_eq!((b.x, b.w), (480 - 8 - 1016, 1016));
}

// ── Rain ────────────────────────────────────────────────────────────────

struct FloatDrop {
    x: i32,
    y: f32,
    speed: f32,
    tail_len: f32,
    head_char: &'static str,
}

struct FloatRain {
    drops: Vec<FloatDrop>,
    prng: RenderPrng,
}

const HEADS: [&str; 7] = ["0", "1", "A", "Z", "X", "7", "9"];

impl FloatRain {
    fn new(seed: u64) -> FloatRain {
        let mut prng = RenderPrng { state: seed };
        let drops = (0..25)
            .map(|_| FloatDrop {
                x: prng.range(12, 460) as i32,
                y: (prng.range(0, 960) as f32) - 480.0,
                speed: prng.range(40, 120) as f32 / 10.0,
                tail_len: prng.range(40, 150) as f32,
                head_char: HEADS[(prng.next() % 7) as usize],
            })
            .collect();
        FloatRain { drops, prng }
    }

    fn tick(&mut self, frame: &mut RgbaImage, font: &FontRef) {
        let scale = PxScale { x: 16.0, y: 16.0 };
        for drop in &mut self.drops {
            drop.y += drop.speed;
            if drop.y - drop.tail_len > 480.0 {
                drop.y = -(50.0 + self.prng.range(0, 200) as f32);
                drop.x = self.prng.range(12, 460) as i32;
                drop.speed = self.prng.range(40, 120) as f32 / 10.0;
                drop.head_char = HEADS[(self.prng.next() % 7) as usize];
            }
            let head_row = drop.y as i32;
            for dy in 0..drop.tail_len as i32 {
                let py = head_row - dy;
                if py < 12 || py > 467 {
                    continue;
                }
                let ratio = 1.0 - dy as f32 / drop.tail_len;
                let fade = (200.0 * ratio).min(200.0) as u8;
                let color = Rgba([0, fade, fade, 255]);
                frame.put_pixel(drop.x as u32, py as u32, color);
                frame.put_pixel(drop.x as u32 + 1, py as u32, color);
            }
            if drop.y >= 12.0 && drop.y <= 455.0 {
                draw_text_mut(
                    frame,
                    Rgba([100, 255, 255, 255]),
                    drop.x - 3,
                    drop.y as i32,
                    scale,
                    font,
                    drop.head_char,
                );
            }
        }
    }
}

#[test]
fn rain_moves_like_single_precision() {
    let bytes = font_bytes();
    let face = FontRef::try_from_slice(&bytes).unwrap();
    let f = font();
    for seed in [1u64, 0x1234_5678_9abc_def0] {
        let mut ours = MatrixRain::new(seed);
        let mut floats = FloatRain::new(seed);
        let mut canvas = solid(480, 480, [0, 0, 0, 255]);
        let mut frame = RgbaImage::from_pixel(480, 480, Rgba([0, 0, 0, 255]));
        for n in 0..600 {
            assert_eq!(ours.drops.len(), 25);
            assert_eq!(ours.prng.state, floats.prng.state);
            for (a, b) in ours.drops.iter().zip(&floats.drops) {
                assert_eq!(a.x, b.x);
                assert_eq!(a.y as f64, b.y as f64 * UNITS as f64, "frame {n}");
                assert_eq!(a.speed as f64, b.speed as f64 * UNITS as f64);
                assert_eq!(a.tail_len as f32, b.tail_len);
                assert_eq!(a.head_char, b.head_char);
                assert!((12..=460).contains(&a.x));
                assert!((40..=150).contains(&a.tail_len));
            }
            ours.tick(&mut canvas, &f);
            floats.tick(&mut frame, &face);
        }
        assert_eq!(as_image(&canvas), frame);
    }
}

#[test]
fn one_frame_of_rain_is_painted_behind_everything() {
    let bytes = font_bytes();
    let face = FontRef::try_from_slice(&bytes).unwrap();
    for seed in 1..20u64 {
        let mut ours = MatrixRain::new(seed);
        let mut floats = FloatRain::new(seed);
        let mut canvas = solid(480, 480, [0, 0, 0, 255]);
        let mut frame = RgbaImage::from_pixel(480, 480, Rgba([0, 0, 0, 255]));
        ours.tick(&mut canvas, &font());
        floats.tick(&mut frame, &face);
        assert_eq!(as_image(&canvas), frame);
        assert_ne!(as_image(&canvas), RgbaImage::from_pixel(480, 480, Rgba([0, 0, 0, 255])));
    }
}

fn one_drop(y: i64) -> MatrixRain {
    let drop =
        MatrixDrop { x: 100, y: y * UNITS, speed: 4 * UNITS, tail_len: 64, head_char: "0" };
    MatrixRain { drops: vec![drop], prng: RenderPrng { state: 1 } }
}

#[test]
fn one_drop_falls_and_paints_its_trail() {
    let mut rain = one_drop(96);
    let mut c = solid(480, 480, [0, 0, 0, 255]);
    rain.tick(&mut c, &font());
    assert_eq!(rain.drops.len(), 1);
    assert_eq!((rain.drops[0].y, rain.prng.state), (100 * UNITS, 1));
    for x in [100, 101] {
        assert_eq!(at(&c, x, 84), [0, 150, 150, 255]);
        assert_eq!(at(&c, x, 68), [0, 100, 100, 255]);
    }
    for (x, y) in [(99, 84), (102, 84), (100, 36)] {
        assert_eq!(at(&c, x, y), [0, 0, 0, 255]);
    }
}

#[test]
fn one_drop_is_recycled() {
    let mut rain = one_drop(541);
    let mut c = solid(480, 480, [0, 0, 0, 255]);
    rain.tick(&mut c, &font());
    let d = rain.drops[0];
    assert_eq!((d.y, d.x, d.tail_len), (-185 * UNITS, 362, 64));
    assert!(c.px.iter().all(|p| *p == [0, 0, 0, 255]));
    let mut stays = one_drop(540);
    stays.tick(&mut c, &font());
    assert_eq!(stays.drops[0].y, 544 * UNITS);
}

#[test]
fn no_drops_no_rain() {
    let mut rain = MatrixRain { drops: vec![], prng: RenderPrng { state: 7 } };
    let mut c = solid(480, 480, [1, 2, 3, 255]);
    rain.tick(&mut c, &font());
    assert_eq!(rain.prng.state, 7);
    assert!(c.px.iter().all(|p| *p == [1, 2, 3, 255]));
}

#[test]
fn trails_keep_off_the_border() {
    let mut rain = MatrixRain::new(77);
    let mut canvas = solid(480, 480, [0, 0, 0, 255]);
    for _ in 0..200 {
        rain.tick(&mut canvas, &font());
    }
    for i in 0..480 {
        for edge in [0u32, 5, 8, 470, 475, 479] {
            assert_eq!(at(&canvas, i, edge), [0, 0, 0, 255]);
            assert_eq!(at(&canvas, edge, i), [0, 0, 0, 255]);
        }
    }
}

// ── HUD ─────────────────────────────────────────────────────────────────

fn float_hud(frame: &mut RgbImage) {
    let cyan = Rgb([0, 255, 255]);
    let w = frame.width() as i32;
    let h = frame.height() as i32;
    let (x0, y0, x1, y1) = (10, 10, w - 11, h - 11);
    for (_, y, px) in frame.enumerate_pixels_mut() {
        if y % 3 == 0 {
            let p = *px;
            *px = Rgb([
                (p[0] as f32 * 0.7) as u8,
                (p[1] as f32 * 0.7) as u8,
                (p[2] as f32 * 0.7) as u8,
            ]);
        }
    }
    let border = Rect::at(x0, y0).of_size((w - 20) as u32, (h - 20) as u32);
    draw_hollow_rect_mut(frame, border, cyan);
    for (x, y, bw, bh) in [
        (x0, y0, 30, 3),
        (x0, y0, 3, 30),
        (x1 - 29, y0, 30, 3),
        (x1 - 2, y0, 3, 30),
        (x0, y1 - 2, 30, 3),
        (x0, y1 - 29, 3, 30),
        (x1 - 29, y1 - 2, 30, 3),
        (x1 - 2, y1 - 29, 3, 30),
        (w / 2 - 20, y0 - 2, 40, 4),
    ] {
        draw_filled_rect_mut(frame, Rect::at(x, y).of_size(bw, bh), cyan);
    }
}

#[test]
fn the_hud_matches_float_drawing() {
    for (w, h) in [(480u32, 480u32), (480, 47), (37, 300), (21, 21), (64, 65)] {
        let mut ours = Frame {
            width: w,
            height: h,
            px: (0..w * h).map(|i| [(i % 256) as u8, (i / 3 % 256) as u8, (i * 7 % 251) as u8]).collect(),
        };
        let mut float = RgbImage::from_fn(w, h, |x, y| Rgb(ours.px[(y * w + x) as usize]));
        apply_retro_hud(&mut ours);
        float_hud(&mut float);
        let drawn: Vec<[u8; 3]> = float.pixels().map(|p| p.0).collect();
        assert_eq!(ours.px, drawn, "{w}x{h}");
    }
}

#[test]
fn scanlines_and_border_of_a_white_frame() {
    let mut f = Frame { width: 480, height: 480, px: vec![[255, 200, 10]; 480 * 480] };
    apply_retro_hud(&mut f);
    let at = |x: usize, y: usize| f.px[y * 480 + x];
    assert_eq!(at(0, 0), [178, 140, 7]);
    assert_eq!(at(0, 1), [255, 200, 10]);
    assert_eq!(at(0, 2), [255, 200, 10]);
    assert_eq!(at(0, 3), [178, 140, 7]);
    assert_eq!(at(10, 100), [0, 255, 255]);
    assert_eq!(at(11, 100), [255, 200, 10]);
    assert_eq!(at(469, 100), [0, 255, 255]);
    assert_eq!(at(240, 469), [0, 255, 255]);
    assert_eq!(at(39, 12), [0, 255, 255]);
    assert_eq!(at(40, 11), [255, 200, 10]);
    assert_eq!(at(220, 8), [0, 255, 255]);
    assert_eq!(at(259, 11), [0, 255, 255]);
    assert_eq!(at(219, 8), [255, 200, 10]);
}

// ── The frame ───────────────────────────────────────────────────────────

/// The same scene, drawn with the image crates and floats.
fn float_scene(sprite: &RgbaImage, quote: &str, line: &str, rain: &mut FloatRain, bounce: i64) -> RgbaImage {
    let bytes = font_bytes();
    let face = FontRef::try_from_slice(&bytes).unwrap();
    let mut img = RgbaImage::from_pixel(480, 480, Rgba([0, 0, 0, 255]));
    rain.tick(&mut img, &face);
    let (w, h) = sprite.dimensions();
    let x = 240 - w as i64 / 2;
    let y = 240 - h as i64 / 2 + bounce;
    image::imageops::overlay(&mut img, sprite, x, y);
    if !quote.is_empty() {
        let scale = PxScale { x: 22.0, y: 22.0 };
        let (tw, th) = text_size(scale, &face, quote);
        let (bw, bh) = (tw as i32 + 16, th as i32 + 16);
        let bx = (240 - bw / 2).max(8).min(472 - bw);
        let by = (y as i32 - 10 - bh).max(8);
        let bubble = Rect::at(bx, by).of_size(bw as u32, bh as u32);
        draw_filled_rect_mut(&mut img, bubble, Rgba([255, 255, 255, 255]));
        draw_text_mut(&mut img, Rgba([0, 0, 0, 255]), bx + 8, by + 8, scale, &face, quote);
    }
    let scale = PxScale { x: 40.0, y: 40.0 };
    let (tw, th) = text_size(scale, &face, line);
    let ty = 480 - 24 - th as i32;
    draw_text_mut(&mut img, Rgba([0, 255, 255, 255]), 240 - tw as i32 / 2, ty, scale, &face, line);
    img
}

fn sprite(w: u32, h: u32) -> Canvas {
    let mut c = solid(w, h, [0, 0, 0, 0]);
    for y in 0..h {
        for x in 0..w {
            c.put_pixel(x, y, [(x * 3) as u8, (y * 5) as u8, 77, ((x + y) * 11) as u8]);
        }
    }
    c
}

#[test]
fn scenes_match_drawing_with_the_image_crates() {
    let f = font();
    for (k, (w, h, quote, bounce)) in [
        (120u32, 150u32, "", 0i64),
        (121, 151, "GPU on fire", 7),
        (600, 700, "hi", -10),
        (1, 1, "a quote that is much too wide for the panel to hold it", 10),
        (30, 460, "tall", 3),
    ]
    .into_iter()
    .enumerate()
    {
        let s = sprite(w, h);
        let mut rain = MatrixRain::new(k as u64 + 5);
        let mut floats = FloatRain::new(k as u64 + 5);
        for t in 0..3u64 {
            let now = 7 * t;
            let img = compose_scene(&stats(), &s, quote, &mut rain, &f, now, bounce).unwrap();
            let line = readout_line(&stats(), now);
            let expected = float_scene(&as_image(&s), quote, &line, &mut floats, bounce);
            assert_eq!(as_image(&img), expected, "scene {k} at {now}");
        }
    }
}

#[test]
fn clear_sprites_leave_and_opaque_sprites_hide_the_background() {
    let f = font();
    let base = compose_scene(&stats(), &solid(1, 1, [0, 0, 0, 0]), "", &mut MatrixRain::new(3), &f, 0, 0)
        .unwrap();
    let clear = compose_scene(&stats(), &solid(200, 200, [9, 9, 9, 0]), "", &mut MatrixRain::new(3), &f, 0, 0)
        .unwrap();
    assert_eq!(base.px, clear.px);
    let opaque = compose_scene(&stats(), &solid(200, 200, [9, 8, 7, 255]), "", &mut MatrixRain::new(3), &f, 0, 4)
        .unwrap();
    assert_eq!(at(&opaque, 140, 144), [9, 8, 7, 255]);
    assert_eq!(at(&opaque, 339, 343), [9, 8, 7, 255]);
    assert_eq!(at(&opaque, 139, 144), at(&base, 139, 144));
    assert_eq!(at(&opaque, 140, 143), at(&base, 140, 143));
}

#[test]
fn long_quotes_are_drawn() {
    let f = font();
    let mut rain = MatrixRain::new(9);
    let mut floats = FloatRain::new(9);
    let long = "x".repeat(20_001);
    let img = compose_scene(&stats(), &sprite(30, 30), &long, &mut rain, &f, 0, 0).unwrap();
    let line = readout_line(&stats(), 0);
    assert_eq!(as_image(&img), float_scene(&as_image(&sprite(30, 30)), &long, &line, &mut floats, 0));
    let jpeg = draw_frame(&stats(), "normal", &long, &mut rain, &assets(), 0, 0).unwrap();
    assert!(size_warning(&jpeg).is_none());
}

#[test]
fn texts_that_cannot_be_drawn_leave_the_rain_alone() {
    let f = font();
    let mut rain = MatrixRain::new(9);
    let before = rain.prng.state;
    let y0 = rain.drops[0].y;
    let long = "x".repeat(620_000);
    assert!(compose_scene(&stats(), &sprite(3, 3), &long, &mut rain, &f, 0, 0).is_none());
    assert_eq!((rain.prng.state, rain.drops[0].y), (before, y0));
    // A font of 30 units is fine for the rain, but not for text of 40 px.
    let low = FontShape { ascent: 20, descent: -10, side: 8, advance: 10, kern: None };
    let low = Font::new(font_file(&low)).unwrap();
    assert!(compose_scene(&stats(), &sprite(3, 3), "", &mut rain, &low, 0, 0).is_none());
    assert_eq!((rain.prng.state, rain.drops[0].y), (before, y0));
    assert!(compose_scene(&stats(), &sprite(3, 3), "", &mut rain, &f, 0, 0).is_some());
    assert_ne!(rain.drops[0].y, y0);
}

#[test]
fn finished_frames_are_encoded_at_quality_ninety() {
    let img = compose_scene(&stats(), &sprite(90, 90), "hey", &mut MatrixRain::new(4), &font(), 0, 0)
        .unwrap();
    let mut rgb = image::DynamicImage::ImageRgba8(as_image(&img)).into_rgb8();
    float_hud(&mut rgb);
    let mut expected = Vec::new();
    image::codecs::jpeg::JpegEncoder::new_with_quality(&mut expected, 90)
        .write_image(rgb.as_raw(), 480, 480, image::ExtendedColorType::Rgb8)
        .unwrap();
    assert_eq!(finish_frame(img), expected);
}

/// The red of the mascot's center, read back from the JPEG.
fn center_red(jpeg: &[u8]) -> u8 {
    image::load_from_memory(jpeg).unwrap().to_rgb8().get_pixel(240, 241).0[0]
}

#[test]
fn each_state_has_its_sprite() {
    let a = assets();
    for (state, red) in [
        ("normal", 20i32),
        ("angry", 60),
        ("angry_scream", 100),
        ("smile", 140),
        ("squints", 180),
        ("smoke", 220),
        ("unheard of", 20),
        ("", 20),
    ] {
        let mut rain = MatrixRain::new(2);
        let jpeg = draw_frame(&stats(), state, "", &mut rain, &a, 0, 0).unwrap();
        let seen = center_red(&jpeg) as i32;
        assert!((seen - red).abs() <= 18, "{state}: {seen}");
    }
}

#[test]
fn frames_are_panel_sized_jpegs() {
    let mut rain = MatrixRain::new(2);
    let jpeg = draw_frame(&stats(), "normal", "quote", &mut rain, &assets(), 0, -3).unwrap();
    let decoded = image::load_from_memory(&jpeg).unwrap();
    assert_eq!((decoded.width(), decoded.height()), (480, 480));
    assert!(size_warning(&jpeg).is_none());
    let panel = AioScreen { ep_out: 1, pm: 4, sub: 1 };
    assert!(panel.send_frame(&jpeg).is_ok());
}

#[test]
fn sprites_that_do_not_decode() {
    let mut a = assets();
    a.smile = b"no image".to_vec();
    let mut rain = MatrixRain::new(2);
    let before = rain.drops[3].y;
    assert!(draw_frame(&stats(), "smile", "", &mut rain, &a, 0, 0).is_none());
    assert_eq!(rain.drops[3].y, before);
    assert!(draw_frame(&stats(), "smoke", "", &mut rain, &a, 0, 0).is_some());
}

// ── The loop ────────────────────────────────────────────────────────────

#[test]
fn a_daemon_needs_quotes() {
    assert!(Daemon::new(1, 2, 3, vec![], stats()).is_none());
    assert!(Daemon::new(1, 2, 3, vec!["q"], stats()).is_some());
}

#[test]
fn a_turn_renders_the_mood_and_its_quote() {
    let a = assets();
    let mut busy = stats();
    busy.gpu_busy_percent = Reading { bits: 90.0f32.to_bits() };
    let t = 1_700_000_000u64;
    let mut d = Daemon::new(11, 22, 6, vec!["first", "second", "third"], busy).unwrap();
    let jpeg = d.turn(&a, t, 2).unwrap();
    let expected =
        draw_frame(&busy, "angry_scream", "second", &mut MatrixRain::new(22), &a, t, 2).unwrap();
    assert_eq!(jpeg, expected);

    d.stats = stats();
    let mut rain = MatrixRain::new(22);
    draw_frame(&busy, "angry_scream", "second", &mut rain, &a, t, 2).unwrap();
    let jpeg = d.turn(&a, t + 10, 0).unwrap();
    let mood = d.mascot.idle_mood;
    assert!(matches!(mood, Mood::Normal | Mood::Smoke | Mood::Squints));
    let expected = draw_frame(&stats(), mood.name(), "", &mut rain, &a, t + 10, 0).unwrap();
    assert_eq!(jpeg, expected);
}

#[test]
fn a_daemon_refreshes_telemetry_once_per_second() {
    let mut d = Daemon::new(1, 2, 3, vec!["q"], stats()).unwrap();
    let t: u128 = 1_700_000_000_000_000_000;
    assert!(d.telemetry_due(t));
    assert!(!d.telemetry_due(t + 33_000_000));
    assert!(d.telemetry_due(t + 1_000_000_000));
    let mut other = stats();
    other.cpu_freq_mhz = 1;
    d.refresh(other);
    assert_eq!((d.stats.cpu_freq_mhz, d.clock.last_ns), (1, t + 1_000_000_000));
}

#[test]
fn refreshes_over_many_ticks() {
    let mut d = Daemon::new(1, 2, 3, vec!["q"], stats()).unwrap();
    let mut t: u128 = 1_700_000_000_000_000_000;
    let mut latest: Option<u128> = None;
    let mut reads = 0;
    for k in 0..500u128 {
        let due = d.telemetry_due(t);
        assert_eq!(due, latest.is_none() || t - latest.unwrap() >= 1_000_000_000);
        if due {
            latest = Some(t);
            reads += 1;
        }
        t += 33_000_000 + (k * k * 7919) % 90_000_000;
    }
    assert!(reads > 10);
}
