//! Matrix digital rain.
//!
//! A fixed pool of drops falls behind everything else on the panel. Each drop
//! is a 2 px wide fading trail with one bright glyph at its head. Positions
//! and speeds are single-precision numbers; they are kept as whole multiples
//! of `2^-21` px, which all of them are.

use vstd::prelude::*;

use crate::canvas::{area, lemma_place, lemma_place_inverse, text_drawn, Canvas, Font};
use crate::prng::{pick, xorshift64, RenderPrng};
use crate::single::{
    lemma_round_ratio_nearest, lemma_round_ratio_rounds, lemma_ulp_bounds, round_ratio,
    round_ratio_of, round_signed, round_signed_of, round_single, round_single_of, ulp,
};

verus! {

/// Units per px: `2^21`.
pub const UNITS: i64 = 0x20_0000;

/// Number of drops.
pub const DROPS: usize = 25;

/// Head-glyph size, in px.
pub const HEAD_PX: u16 = 16;

/// Bright color of a head glyph.
pub open spec fn head_color() -> [u8; 4] {
    [100, 255, 255, 255]
}

/// One falling drop.
#[derive(Debug, Clone, Copy)]
pub struct MatrixDrop {
    /// Left edge of the 2 px wide trail column.
    pub x: i32,
    /// Vertical position of the head, in units (can be above the panel while
    /// the drop is entering).
    pub y: i64,
    /// Fall speed, in units per frame.
    pub speed: i64,
    /// Trail length above the head, in px.
    pub tail_len: u32,
    /// Bright glyph at the head of the drop.
    pub head_char: &'static str,
}

/// The rain: a pool of drops, advanced once per frame.
pub struct MatrixRain {
    pub drops: Vec<MatrixDrop>,
    pub prng: RenderPrng,
}

/// The glyph of the pool picked by the generator output `v`.
pub open spec fn head_of(v: u64) -> &'static str {
    if v % 7 == 0 {
        "0"
    } else if v % 7 == 1 {
        "1"
    } else if v % 7 == 2 {
        "A"
    } else if v % 7 == 3 {
        "Z"
    } else if v % 7 == 4 {
        "X"
    } else if v % 7 == 5 {
        "7"
    } else {
        "9"
    }
}

/// Whether a text is one of the pool's glyphs.
pub open spec fn is_head(text: Seq<char>) -> bool {
    text == "0"@ || text == "1"@ || text == "A"@ || text == "Z"@ || text == "X"@ || text == "7"@
        || text == "9"@
}

/// A speed of `k` tenths of a px, in units.
pub open spec fn speed_of(k: u64) -> nat {
    round_ratio((k * UNITS) as nat, 10)
}

impl MatrixDrop {
    /// Where every drop stays: columns 12 to 460, rows from 480 px above the
    /// panel to 640 px below its top, 4 to 12 px per frame, trails of 40 to
    /// 150 px.
    pub open spec fn wf(self) -> bool {
        &&& 12 <= self.x <= 460
        &&& -480 * UNITS <= self.y <= 640 * UNITS
        &&& 4 * UNITS <= self.speed <= 12 * UNITS
        &&& 40 <= self.tail_len <= 150
        &&& is_head(self.head_char@)
    }

    /// The position one frame on.
    pub open spec fn fallen(self) -> int {
        round_signed(self.y + self.speed)
    }

    /// One frame on, the whole trail is below the panel.
    pub open spec fn leaves(self) -> bool {
        round_signed(self.fallen() - self.tail_len * UNITS) > 480 * UNITS
    }

    /// The drop one frame on; a drop that leaves starts again above the panel,
    /// from the next four outputs of the generator in state `s`.
    pub open spec fn advanced(self, s: u64) -> MatrixDrop {
        if self.leaves() {
            let s1 = xorshift64(s);
            let s2 = xorshift64(s1);
            let s3 = xorshift64(s2);
            let s4 = xorshift64(s3);
            MatrixDrop {
                x: pick(s2, 12, 460) as i32,
                y: (-(50 + pick(s1, 0, 200)) * UNITS) as i64,
                speed: speed_of(pick(s3, 40, 120)) as i64,
                tail_len: self.tail_len,
                head_char: head_of(s4),
            }
        } else {
            MatrixDrop { y: self.fallen() as i64, ..self }
        }
    }

    /// The generator's state after advancing the drop.
    pub open spec fn state_after(self, s: u64) -> u64 {
        if self.leaves() {
            xorshift64(xorshift64(xorshift64(xorshift64(s))))
        } else {
            s
        }
    }

    /// The row of the head: its position in px, rounded toward zero.
    pub open spec fn head_row(self) -> int {
        if self.y < 0 {
            -((-self.y) / UNITS as int)
        } else {
            self.y as int / UNITS as int
        }
    }

    /// The head sits far enough inside the HUD frame to be drawn.
    pub open spec fn head_visible(self) -> bool {
        12 * UNITS <= self.y <= 455 * UNITS
    }

    /// Whether the first `len` rows of the trail cover column `x` and row `y`,
    /// clipped to the inside of the HUD frame.
    pub open spec fn trail_covers(self, len: int, x: int, y: int) -> bool {
        &&& x == self.x || x == self.x + 1
        &&& 12 <= y <= 467
        &&& 0 <= self.head_row() - y < len
    }
}

/// Brightness of the trail `dy` rows above the head of a trail of `len` rows:
/// `200 * (1 - dy / len)`, in single-precision arithmetic, cut to a whole
/// number.
pub open spec fn fade(dy: int, len: int) -> u8 {
    let one: int = 0x100_0000_0000;
    let ratio = round_ratio((dy * one) as nat, len as nat);
    let rest = round_single((one - ratio) as nat);
    (round_single(200 * rest) / one as nat) as u8
}

/// `px` with the first `len` rows of the drop's trail.
pub open spec fn trail_painted(d: MatrixDrop, len: int, px: Seq<[u8; 4]>, width: u32) -> Seq<
    [u8; 4],
> {
    Seq::new(
        px.len(),
        |i: int|
            if d.trail_covers(len, i % width as int, i / width as int) {
                let f = fade(d.head_row() - i / width as int, d.tail_len as int);
                [0, f, f, 255]
            } else {
                px[i]
            },
    )
}

/// `px` with the drop's trail and, where the head is visible, its glyph.
pub open spec fn drop_painted(
    d: MatrixDrop,
    px: Seq<[u8; 4]>,
    width: u32,
    height: u32,
    font: Seq<u8>,
) -> Seq<[u8; 4]> {
    let trail = trail_painted(d, d.tail_len as int, px, width);
    if d.head_visible() {
        text_drawn(
            trail,
            width,
            height,
            head_color(),
            (d.x - 3) as i32,
            d.head_row() as i32,
            HEAD_PX,
            font,
            d.head_char@,
        )
    } else {
        trail
    }
}

/// `px` with the first `n` drops, painted in order.
pub open spec fn rain_painted(
    drops: Seq<MatrixDrop>,
    n: int,
    px: Seq<[u8; 4]>,
    width: u32,
    height: u32,
    font: Seq<u8>,
) -> Seq<[u8; 4]>
    decreases n,
{
    if n <= 0 {
        px
    } else {
        drop_painted(
            drops[n - 1],
            rain_painted(drops, n - 1, px, width, height, font),
            width,
            height,
            font,
        )
    }
}

/// The generator's state after advancing the first `n` drops.
pub open spec fn state_after_drops(drops: Seq<MatrixDrop>, s: u64, n: int) -> u64
    decreases n,
{
    if n <= 0 {
        s
    } else {
        drops[n - 1].state_after(state_after_drops(drops, s, n - 1))
    }
}

/// Every drop advanced, in order, by a generator in state `s`.
pub open spec fn all_advanced(drops: Seq<MatrixDrop>, s: u64) -> Seq<MatrixDrop> {
    Seq::new(drops.len(), |i: int| drops[i].advanced(state_after_drops(drops, s, i)))
}

/// The drop made from the next five outputs of a generator in state `s`.
pub open spec fn scattered(s: u64) -> MatrixDrop {
    let s1 = xorshift64(s);
    let s2 = xorshift64(s1);
    let s3 = xorshift64(s2);
    let s4 = xorshift64(s3);
    let s5 = xorshift64(s4);
    MatrixDrop {
        x: pick(s1, 12, 460) as i32,
        y: ((pick(s2, 0, 960) - 480) * UNITS) as i64,
        speed: speed_of(pick(s3, 40, 120)) as i64,
        tail_len: pick(s4, 40, 150) as u32,
        head_char: head_of(s5),
    }
}

/// The generator's state after making `n` drops.
pub open spec fn state_after_scatter(s: u64, n: int) -> u64
    decreases n,
{
    if n <= 0 {
        s
    } else {
        xorshift64(
            xorshift64(
                xorshift64(xorshift64(xorshift64(state_after_scatter(s, n - 1)))),
            ),
        )
    }
}

// ── Arithmetic ──────────────────────────────────────────────────────────

proof fn lemma_speed_range(k: u64)
    requires
        40 <= k <= 120,
    ensures
        4 * UNITS <= speed_of(k) <= 12 * UNITS,
{
    let p = (k * UNITS) as nat;
    let q = p / 10;
    lemma_round_ratio_nearest(p, 10);
    lemma_ulp_bounds(q);
    let u = ulp(q);
    if q >= 0x100_0000 {
        assert(ulp(q / 2) == 1);
        assert(u == 2);
    } else {
        assert(u == 1);
    }
}

proof fn lemma_round_close(n: int)
    requires
        -0x8000_0000 <= n <= 0x8000_0000,
    ensures
        n - 128 <= round_signed(n) <= n + 128,
{
    let m = (if n < 0 {
        -n
    } else {
        n
    }) as nat;
    lemma_round_ratio_nearest(m, 1);
    lemma_ulp_bounds(m);
    assert(m / 1 == m);
}

/// Advancing keeps a drop where drops stay.
pub proof fn lemma_advanced_wf(d: MatrixDrop, s: u64)
    requires
        d.wf(),
    ensures
        d.advanced(s).wf(),
{
    lemma_round_close(d.y + d.speed);
    lemma_round_close(d.fallen() - d.tail_len * UNITS);
    if d.leaves() {
        let s3 = xorshift64(xorshift64(xorshift64(s)));
        lemma_speed_range(pick(s3, 40, 120));
    }
}

fn speed_in_units(k: u64) -> (r: i64)
    requires
        40 <= k <= 120,
    ensures
        r == speed_of(k),
        4 * UNITS <= r <= 12 * UNITS,
{
    proof {
        lemma_speed_range(k);
    }
    round_ratio_of(k as u128 * 0x20_0000, 10) as i64
}

fn pick_head(v: u64) -> (r: &'static str)
    ensures
        r == head_of(v),
{
    let k = v % 7;
    if k == 0 {
        "0"
    } else if k == 1 {
        "1"
    } else if k == 2 {
        "A"
    } else if k == 3 {
        "Z"
    } else if k == 4 {
        "X"
    } else if k == 5 {
        "7"
    } else {
        "9"
    }
}

/// The fade is linear to within one step of brightness.
pub proof fn lemma_fade_is_linear(dy: int, len: int)
    requires
        0 <= dy < len <= 150,
    ensures
        fade(dy, len) * len <= 200 * (len - dy),
        200 * (len - dy) <= (fade(dy, len) + 1) * len,
        fade(dy, len) <= 200,
{
    lemma_fade_parts(dy, len);
}

proof fn lemma_fade_parts(dy: int, len: int)
    requires
        0 <= dy < len <= 150,
    ensures
        round_ratio((dy * 0x100_0000_0000) as nat, len as nat) <= 0x100_0000_0000,
        round_single(
            (0x100_0000_0000 - round_ratio((dy * 0x100_0000_0000) as nat, len as nat)) as nat,
        ) <= 0x100_0001_0000,
        fade(dy, len) as nat == round_single(
            200 * round_single(
                (0x100_0000_0000 - round_ratio((dy * 0x100_0000_0000) as nat, len as nat)) as nat,
            ),
        ) / 0x100_0000_0000,
        fade(dy, len) * len <= 200 * (len - dy),
        200 * (len - dy) <= (fade(dy, len) + 1) * len,
        fade(dy, len) <= 200,
{
    let one: int = 0x100_0000_0000;
    let p = dy * one;
    let n = p / len;
    assert(0 <= n < one) by (nonlinear_arith)
        requires
            0 <= dy < len,
            one == 0x100_0000_0000,
            n == (dy * one) / len,
    ;
    let q = round_ratio(p as nat, len as nat) as int;
    lemma_round_ratio_nearest(p as nat, len as nat);
    lemma_ulp_bounds(n as nat);
    let u = ulp(n as nat) as int;
    assert(u <= 0x2_0000);
    assert(len * u <= len * 0x2_0000) by (nonlinear_arith)
        requires
            u <= 0x2_0000,
            len > 0,
    ;
    // q * len is within len * 2^16 of dy * 2^40
    assert(2 * (q * len - p) <= len * 0x2_0000);
    assert(2 * (p - q * len) <= len * 0x2_0000);
    assert(q < one) by (nonlinear_arith)
        requires
            2 * (q * len - dy * one) <= len * 0x2_0000,
            0 <= dy < len <= 150,
            one == 0x100_0000_0000,
    ;
    let rest = one - q;
    let r = round_single(rest as nat) as int;
    lemma_round_ratio_nearest(rest as nat, 1);
    lemma_ulp_bounds(rest as nat);
    assert(rest as nat / 1 == rest as nat);
    assert(rest - 0x1_0000 <= r <= rest + 0x1_0000);
    let s = round_single((200 * r) as nat) as int;
    lemma_round_ratio_nearest((200 * r) as nat, 1);
    lemma_ulp_bounds((200 * r) as nat);
    assert((200 * r) as nat / 1 == (200 * r) as nat);
    assert(ulp((200 * r) as nat) <= 0x200_0000);
    assert(200 * r - 0x100_0000 <= s <= 200 * r + 0x100_0000);
    let f = s / one;
    assert(f * one <= s < f * one + one);
    let slack: int = 0x2_0000_0000;
    assert(s * len <= 200 * (len - dy) * one + slack && 200 * (len - dy) * one - slack <= s * len)
        by (nonlinear_arith)
        requires
            200 * (one - q) - 200 * 0x1_0000 - 0x100_0000 <= s <= 200 * (one - q) + 200 * 0x1_0000
                + 0x100_0000,
            2 * (q * len - dy * one) <= len * 0x2_0000,
            2 * (dy * one - q * len) <= len * 0x2_0000,
            0 <= dy < len <= 150,
            slack == 0x2_0000_0000,
    ;
    assert(f * len <= 200 * (len - dy)) by (nonlinear_arith)
        requires
            f * one <= s,
            s * len <= 200 * (len - dy) * one + slack,
            0 < len,
            slack < one,
            slack == 0x2_0000_0000,
            one == 0x100_0000_0000,
    ;
    assert(200 * (len - dy) <= (f + 1) * len) by (nonlinear_arith)
        requires
            s < f * one + one,
            200 * (len - dy) * one - slack <= s * len,
            0 < len,
            slack < one,
            slack == 0x2_0000_0000,
            one == 0x100_0000_0000,
    ;
    assert(0 <= f <= 200) by (nonlinear_arith)
        requires
            f * len <= 200 * (len - dy),
            0 <= dy < len,
            f == s / one,
            s >= 0,
            one == 0x100_0000_0000,
    ;
}

fn fade_at(dy: u32, len: u32) -> (r: u8)
    requires
        dy < len <= 150,
    ensures
        r == fade(dy as int, len as int),
{
    proof {
        lemma_fade_parts(dy as int, len as int);
    }
    let one: u64 = 0x100_0000_0000;
    let ratio = round_ratio_of(dy as u128 * one as u128, len as u128) as u64;
    let rest = round_single_of(one - ratio) as u64;
    let light = round_single_of(200 * rest);
    (light / one as u128) as u8
}

// ── The rain ────────────────────────────────────────────────────────────

impl MatrixDrop {
    /// Advance by one frame.
    fn advance(&mut self, prng: &mut RenderPrng)
        requires
            old(self).wf(),
        ensures
            final(self).wf(),
            *final(self) == old(self).advanced(old(prng).state),
            final(prng).state == old(self).state_after(old(prng).state),
    {
        proof {
            lemma_advanced_wf(*self, prng.state);
            lemma_round_close(self.y + self.speed);
        }
        self.y = round_signed_of(self.y + self.speed);
        if round_signed_of(self.y - self.tail_len as i64 * UNITS) > 480 * UNITS {
            self.y = -(50 + prng.range(0, 200) as i64) * UNITS;
            self.x = prng.range(12, 460) as i32;
            self.speed = speed_in_units(prng.range(40, 120));
            self.head_char = pick_head(prng.next());
        }
    }

    /// The row of the head.
    fn row(&self) -> (r: i32)
        requires
            self.wf(),
        ensures
            r == self.head_row(),
            -480 <= r <= 640,
    {
        if self.y < 0 {
            -((-self.y) / UNITS) as i32
        } else {
            (self.y / UNITS) as i32
        }
    }

    /// Paint the trail: direct pixel writes with a linear cyan fade.
    fn paint_trail(&self, frame: &mut Canvas)
        requires
            self.wf(),
            old(frame).wf(),
            old(frame).width >= 462,
            old(frame).height >= 468,
        ensures
            final(frame).wf(),
            final(frame).width == old(frame).width,
            final(frame).height == old(frame).height,
            final(frame).px@ == trail_painted(
                *self,
                self.tail_len as int,
                old(frame).px@,
                old(frame).width,
            ),
    {
        let head_row = self.row();
        let mut dy: u32 = 0;
        let ghost before = frame.px@;
        assert(frame.px@ =~= trail_painted(*self, 0, before, frame.width));
        while dy < self.tail_len
            invariant
                self.wf(),
                dy <= self.tail_len,
                head_row == self.head_row(),
                -480 <= head_row <= 640,
                frame.wf(),
                frame.width == old(frame).width,
                frame.height == old(frame).height,
                frame.width >= 462,
                frame.height >= 468,
                before == old(frame).px@,
                before.len() == area(frame.width, frame.height),
                frame.px@ == trail_painted(*self, dy as int, before, frame.width),
            decreases self.tail_len - dy,
        {
            let py: i32 = head_row - dy as i32;
            if 12 <= py && py <= 467 {
                let f = fade_at(dy, self.tail_len);
                frame.put_pixel(self.x as u32, py as u32, [0, f, f, 255]);
                frame.put_pixel(self.x as u32 + 1, py as u32, [0, f, f, 255]);
            }
            proof {
                lemma_trail_row(
                    *self,
                    dy as int,
                    before,
                    frame.width,
                    frame.height,
                );
            }
            dy += 1;
        }
    }

    /// Paint the trail and, where it is visible, the head glyph.
    fn paint(&self, frame: &mut Canvas, font: &Font)
        requires
            self.wf(),
            old(frame).wf(),
            462 <= old(frame).width <= i32::MAX,
            468 <= old(frame).height <= i32::MAX,
        ensures
            final(frame).wf(),
            final(frame).width == old(frame).width,
            final(frame).height == old(frame).height,
            final(frame).px@ == drop_painted(
                *self,
                old(frame).px@,
                old(frame).width,
                old(frame).height,
                font.data(),
            ),
    {
        self.paint_trail(frame);
        if self.y >= 12 * UNITS && self.y <= 455 * UNITS {
            let row = self.row();
            font.draw_head(frame, [100, 255, 255, 255], self.x - 3, row, self.head_char);
        }
    }
}

/// One more row of a trail is two more pixels, if the row is inside the HUD
/// frame, and none otherwise.
proof fn lemma_trail_row(d: MatrixDrop, dy: int, px: Seq<[u8; 4]>, width: u32, height: u32)
    requires
        d.wf(),
        0 <= dy < d.tail_len,
        px.len() == area(width, height),
        width >= 462,
        height >= 468,
    ensures
        ({
            let row = d.head_row() - dy;
            let now = trail_painted(d, dy, px, width);
            let next = trail_painted(d, dy + 1, px, width);
            let f = fade(dy, d.tail_len as int);
            next == if 12 <= row <= 467 {
                now.update(row * width + d.x, [0, f, f, 255]).update(
                    row * width + (d.x + 1),
                    [0, f, f, 255],
                )
            } else {
                now
            }
        }),
{
    let row = d.head_row() - dy;
    let now = trail_painted(d, dy, px, width);
    let next = trail_painted(d, dy + 1, px, width);
    let f = fade(dy, d.tail_len as int);
    if 12 <= row <= 467 {
        lemma_place(d.x as int, row, width, height);
        lemma_place(d.x + 1, row, width, height);
        let after = now.update(row * width + d.x, [0, f, f, 255]).update(
            row * width + (d.x + 1),
            [0, f, f, 255],
        );
        assert forall|i: int| 0 <= i < px.len() implies next[i] == after[i] by {
            lemma_place_inverse(i, width, height);
        }
        assert(next =~= after);
    } else {
        assert forall|i: int| 0 <= i < px.len() implies next[i] == now[i] by {
            lemma_place_inverse(i, width, height);
        }
        assert(next =~= now);
    }
}

impl MatrixRain {
    /// Every drop is where drops stay.
    pub open spec fn wf(self) -> bool {
        forall|i: int| 0 <= i < self.drops@.len() ==> (#[trigger] self.drops@[i]).wf()
    }

    /// Create the rain with 25 drops scattered across (and above) the panel,
    /// from a generator in state `seed`.
    pub fn new(seed: u64) -> (r: MatrixRain)
        ensures
            r.wf(),
            r.drops@.len() == DROPS,
            r.prng.state == state_after_scatter(seed, 25),
            forall|i: int|
                0 <= i < 25 ==> (#[trigger] r.drops@[i]) == scattered(state_after_scatter(seed, i)),
    {
        let mut prng = RenderPrng { state: seed };
        let mut drops: Vec<MatrixDrop> = Vec::new();
        let mut n: usize = 0;
        while n < DROPS
            invariant
                n <= DROPS,
                drops@.len() == n,
                prng.state == state_after_scatter(seed, n as int),
                forall|i: int|
                    0 <= i < n ==> (#[trigger] drops@[i]) == scattered(
                        state_after_scatter(seed, i),
                    ) && drops@[i].wf(),
            decreases DROPS - n,
        {
            let x = prng.range(12, 460) as i32;
            let y: i64 = (prng.range(0, 960) as i64 - 480) * UNITS;
            let speed = speed_in_units(prng.range(40, 120));
            let tail_len = prng.range(40, 150) as u32;
            let v = prng.next();
            let head_char = pick_head(v);
            let drop = MatrixDrop { x, y, speed, tail_len, head_char };
            assert(drop == scattered(state_after_scatter(seed, n as int)));
            drops.push(drop);
            n += 1;
        }
        MatrixRain { drops, prng }
    }

    /// Advance every drop by one frame and paint it onto `frame`.
    ///
    /// Out-of-bounds pixels are never written: the trail keeps to the inside
    /// of the HUD frame, and text is clipped to the canvas.
    pub fn tick(&mut self, frame: &mut Canvas, font: &Font)
        requires
            old(self).wf(),
            old(frame).wf(),
            462 <= old(frame).width <= i32::MAX,
            468 <= old(frame).height <= i32::MAX,
        ensures
            final(self).wf(),
            final(self).drops@ == all_advanced(old(self).drops@, old(self).prng.state),
            final(self).prng.state == state_after_drops(
                old(self).drops@,
                old(self).prng.state,
                old(self).drops@.len() as int,
            ),
            final(frame).wf(),
            final(frame).width == old(frame).width,
            final(frame).height == old(frame).height,
            final(frame).px@ == rain_painted(
                final(self).drops@,
                final(self).drops@.len() as int,
                old(frame).px@,
                old(frame).width,
                old(frame).height,
                font.data(),
            ),
    {
        let ghost drops = self.drops@;
        let ghost s = self.prng.state;
        let count = self.drops.len();
        let mut n: usize = 0;
        while n < count
            invariant
                n <= count,
                drops == old(self).drops@,
                s == old(self).prng.state,
                drops.len() == count,
                self.drops@.len() == count,
                forall|i: int| 0 <= i < count ==> (#[trigger] self.drops@[i]).wf(),
                forall|i: int|
                    0 <= i < n ==> (#[trigger] self.drops@[i]) == drops[i].advanced(
                        state_after_drops(drops, s, i),
                    ),
                forall|i: int| n <= i < count ==> (#[trigger] self.drops@[i]) == drops[i],
                self.prng.state == state_after_drops(drops, s, n as int),
                frame.wf(),
                frame.width == old(frame).width,
                frame.height == old(frame).height,
                462 <= frame.width <= i32::MAX,
                468 <= frame.height <= i32::MAX,
                frame.px@ == rain_painted(
                    self.drops@,
                    n as int,
                    old(frame).px@,
                    frame.width,
                    frame.height,
                    font.data(),
                ),
            decreases count - n,
        {
            let ghost painted = self.drops@;
            let mut drop = self.drops[n];
            drop.advance(&mut self.prng);
            drop.paint(frame, font);
            self.drops.set(n, drop);
            proof {
                lemma_painted_prefix(
                    painted,
                    self.drops@,
                    n as int,
                    old(frame).px@,
                    frame.width,
                    frame.height,
                    font.data(),
                );
            }
            n += 1;
        }
        assert(self.drops@ =~= all_advanced(drops, s));
    }
}

proof fn lemma_painted_prefix(
    a: Seq<MatrixDrop>,
    b: Seq<MatrixDrop>,
    n: int,
    px: Seq<[u8; 4]>,
    width: u32,
    height: u32,
    font: Seq<u8>,
)
    requires
        forall|i: int| 0 <= i < n ==> a[i] == b[i],
    ensures
        rain_painted(a, n, px, width, height, font) == rain_painted(b, n, px, width, height, font),
    decreases n,
{
    if n > 0 {
        lemma_painted_prefix(a, b, n - 1, px, width, height, font);
    }
}

// ── Laws of the rain ────────────────────────────────────────────────────

/// A trail never touches the HUD frame or the edge of the panel: it changes
/// pixels only in columns 12 to 461 and rows 12 to 467.
pub proof fn lemma_trail_stays_inside(d: MatrixDrop, px: Seq<[u8; 4]>, width: u32, i: int)
    requires
        d.wf(),
        0 <= i < px.len(),
        trail_painted(d, d.tail_len as int, px, width)[i] != px[i],
    ensures
        12 <= i % (width as int) <= 461,
        12 <= i / (width as int) <= 467,
{
}

/// A drop either falls by its speed, to within a ten-thousandth of a px, or
/// its whole trail has left the panel and it starts again 50 to 250 px above
/// the panel with the same trail length.
pub proof fn lemma_drop_falls_or_restarts(d: MatrixDrop, s: u64)
    requires
        d.wf(),
    ensures
        !d.leaves() ==> d.advanced(s).y - d.y - d.speed <= 128 && d.y + d.speed - d.advanced(s).y
            <= 128 && d.advanced(s).y > d.y && d.advanced(s).x == d.x && d.state_after(s) == s,
        d.leaves() ==> -250 * UNITS <= d.advanced(s).y <= -50 * UNITS && d.y + d.speed - d.tail_len
            * UNITS >= 480 * UNITS - 256,
        d.advanced(s).tail_len == d.tail_len,
{
    lemma_round_close(d.y + d.speed);
    lemma_round_close(d.fallen() - d.tail_len * UNITS);
}

/// A drop one frame on, in numbers; a px is 2097152 units. It falls by its
/// speed, in single precision, and keeps all else, or, once the end of its
/// trail is below row 480, starts again from the next four outputs of the
/// generator: 50 to 250 px above the panel, in a column from 12 to 460, with a
/// speed of 40 to 120 tenths of a px and one of the seven glyphs.
pub proof fn lemma_drop_one_frame_on(d: MatrixDrop, s: u64)
    requires
        d.wf(),
    ensures
        ({
            let fallen = round_signed(d.y + d.speed);
            let gone = round_signed(fallen - d.tail_len * 2097152) > 480 * 2097152;
            let (s1, s2) = (xorshift64(s), xorshift64(xorshift64(s)));
            let (s3, s4) = (xorshift64(s2), xorshift64(xorshift64(s2)));
            let next = d.advanced(s);
            &&& next.tail_len == d.tail_len
            &&& !gone ==> {
                &&& next.y == fallen
                &&& next.x == d.x
                &&& next.speed == d.speed
                &&& next.head_char == d.head_char
                &&& d.state_after(s) == s
            }
            &&& gone ==> {
                &&& next.y == -(50 + s1 as int % 201) * 2097152
                &&& next.x == 12 + s2 as int % 449
                &&& next.speed == round_ratio(((40 + s3 as int % 81) * 2097152) as nat, 10)
                &&& next.head_char == if s4 % 7 == 0 {
                    "0"
                } else if s4 % 7 == 1 {
                    "1"
                } else if s4 % 7 == 2 {
                    "A"
                } else if s4 % 7 == 3 {
                    "Z"
                } else if s4 % 7 == 4 {
                    "X"
                } else if s4 % 7 == 5 {
                    "7"
                } else {
                    "9"
                }
                &&& d.state_after(s) == s4
            }
        }),
{
    lemma_round_close(d.y + d.speed);
    lemma_round_close(d.fallen() - d.tail_len * UNITS);
    let s3 = xorshift64(xorshift64(xorshift64(s)));
    lemma_speed_range(pick(s3, 40, 120));
}

/// A new drop, in numbers, from the next five outputs of the generator.
pub proof fn lemma_scattered_drop(s: u64)
    ensures
        ({
            let (s1, s2) = (xorshift64(s), xorshift64(xorshift64(s)));
            let (s3, s4) = (xorshift64(s2), xorshift64(xorshift64(s2)));
            let s5 = xorshift64(s4);
            let d = scattered(s);
            &&& d.wf()
            &&& d.x == 12 + s1 as int % 449
            &&& d.y == (s2 as int % 961 - 480) * 2097152
            &&& d.speed == round_ratio(((40 + s3 as int % 81) * 2097152) as nat, 10)
            &&& d.tail_len == 40 + s4 as int % 111
            &&& d.head_char == if s5 % 7 == 0 {
                "0"
            } else if s5 % 7 == 1 {
                "1"
            } else if s5 % 7 == 2 {
                "A"
            } else if s5 % 7 == 3 {
                "Z"
            } else if s5 % 7 == 4 {
                "X"
            } else if s5 % 7 == 5 {
                "7"
            } else {
                "9"
            }
        }),
{
    let s3 = xorshift64(xorshift64(xorshift64(s)));
    lemma_speed_range(pick(s3, 40, 120));
}

/// New drops take five outputs of the generator each, one drop after the other.
pub proof fn lemma_scatter_in_turn(seed: u64, n: int)
    requires
        n >= 0,
    ensures
        state_after_scatter(seed, 0) == seed,
        state_after_scatter(seed, n + 1) == xorshift64(
            xorshift64(xorshift64(xorshift64(xorshift64(state_after_scatter(seed, n))))),
        ),
{
}

/// The drops advance one after the other, each with the generator as the one
/// before it left it. The generator's states are returned.
pub proof fn lemma_drops_advance_in_turn(drops: Seq<MatrixDrop>, s: u64) -> (t: Seq<u64>)
    ensures
        t.len() == drops.len() + 1,
        t[0] == s,
        forall|i: int|
            #![trigger t[i]]
            0 <= i < drops.len() ==> t[i + 1] == drops[i].state_after(t[i]),
        all_advanced(drops, s).len() == drops.len(),
        forall|i: int|
            0 <= i < drops.len() ==> #[trigger] all_advanced(drops, s)[i] == drops[i].advanced(t[i]),
        state_after_drops(drops, s, drops.len() as int) == t.last(),
{
    let t = Seq::new(drops.len() + 1, |i: int| state_after_drops(drops, s, i));
    assert forall|i: int| #![trigger t[i]] 0 <= i < drops.len() implies t[i + 1]
        == drops[i].state_after(t[i]) by {
        assert(t[i + 1] == state_after_drops(drops, s, i + 1));
    }
    t
}

/// The row of a head: its position in whole px, toward row zero.
pub proof fn lemma_head_row_is_cut_toward_zero(d: MatrixDrop)
    ensures
        d.y >= 0 ==> d.head_row() * 2097152 <= d.y < (d.head_row() + 1) * 2097152,
        d.y <= 0 ==> (d.head_row() - 1) * 2097152 < d.y <= d.head_row() * 2097152,
{
}

/// Which pixels a trail paints, and how: two columns, the rows from the head
/// upward as far as the trail is long, clipped to rows 12 to 467, in cyan that
/// fades with the distance from the head. It leaves every other pixel alone.
pub proof fn lemma_trail_pixels(d: MatrixDrop, px: Seq<[u8; 4]>, width: u32, i: int)
    requires
        0 <= i < px.len(),
    ensures
        ({
            let (x, y) = (i % width as int, i / width as int);
            let above = d.head_row() - y;
            let painted = trail_painted(d, d.tail_len as int, px, width);
            let hit = (x == d.x || x == d.x + 1) && 12 <= y <= 467 && 0 <= above < d.tail_len;
            let f = fade(above, d.tail_len as int);
            &&& painted.len() == px.len()
            &&& hit ==> painted[i] == [0, f, f, 255u8]
            &&& !hit ==> painted[i] == px[i]
        }),
{
}

/// The fade, in numbers: `200 * (1 - dy / len)`, each operation rounded to single
/// precision in units of `2^-40`, cut to a whole number. That is 200 at the head,
/// and the whole part of the exact value wherever the exact value is no whole
/// number itself; where it is, single precision may fall short of it by one.
pub proof fn lemma_fade_in_numbers(dy: int, len: int)
    requires
        0 <= dy < len <= 150,
    ensures
        fade(dy, len) as nat == round_single(
            200 * round_single(
                (1099511627776 - round_ratio((dy * 1099511627776) as nat, len as nat)) as nat,
            ),
        ) / 1099511627776,
        fade(0, len) == 200,
        (200 * (len - dy)) % len != 0 ==> fade(dy, len) == (200 * (len - dy)) / len,
        (200 * (len - dy)) % len == 0 ==> fade(dy, len) == (200 * (len - dy)) / len || fade(dy, len)
            == (200 * (len - dy)) / len - 1,
{
    lemma_fade_parts(dy, len);
    let p = 200 * (len - dy);
    let q = p / len;
    let r = p % len;
    let f = fade(dy, len) as int;
    vstd::arithmetic::div_mod::lemma_fundamental_div_mod(p, len);
    vstd::arithmetic::div_mod::lemma_mod_bound(p, len);
    assert(f <= q) by (nonlinear_arith)
        requires
            f * len <= p,
            p == len * q + r,
            0 <= r < len,
            len > 0,
    ;
    assert(q <= f + 1 && (r != 0 ==> q <= f)) by (nonlinear_arith)
        requires
            p <= (f + 1) * len,
            p == len * q + r,
            0 <= r < len,
            len > 0,
    ;
    let one: int = 0x100_0000_0000;
    assert(0 * one == 0);
    lemma_fade_parts(0, len);
    assert(round_ratio(0, len as nat) == 0) by {
        lemma_round_ratio_nearest(0, len as nat);
        assert(0nat / (len as nat) == 0) by (nonlinear_arith)
            requires
                len > 0,
        ;
        assert(ulp(0) == 1);
        let z = round_ratio(0, len as nat) as int;
        assert(z == 0) by (nonlinear_arith)
            requires
                2 * (z * len - 0) <= len * 1,
                z >= 0,
                len > 0,
        ;
    }
    lemma_round_power();
}

/// `2^40` and `200 * 2^40` are single-precision numbers.
proof fn lemma_round_power()
    ensures
        round_single(0x100_0000_0000) == 0x100_0000_0000,
        round_single(200 * 0x100_0000_0000) == 200 * 0x100_0000_0000,
{
    let n: nat = 0x100_0000_0000;
    reveal_with_fuel(ulp, 30);
    assert(ulp(n) == 0x2_0000);
    assert(ulp(200 * n) == 0x100_0000);
    lemma_round_ratio_rounds(n, 1, 0x80_0000);
    lemma_round_ratio_rounds(200 * n, 1, 200 * 0x1_0000);
    assert(n / 1 == n && (200 * n) / 1 == 200 * n);
}

/// A drop is its trail and, while its head is from row 12 to row 455, one bright
/// glyph over it, three columns to the left of the trail. The picture with the
/// trail is returned.
pub proof fn lemma_drop_is_trail_and_head(
    d: MatrixDrop,
    px: Seq<[u8; 4]>,
    width: u32,
    height: u32,
    font: Seq<u8>,
) -> (trail: Seq<[u8; 4]>)
    ensures
        trail == trail_painted(d, d.tail_len as int, px, width),
        12 * 2097152 <= d.y <= 455 * 2097152 ==> drop_painted(d, px, width, height, font)
            == text_drawn(
            trail,
            width,
            height,
            [100u8, 255u8, 255u8, 255u8],
            (d.x - 3) as i32,
            d.head_row() as i32,
            16,
            font,
            d.head_char@,
        ),
        !(12 * 2097152 <= d.y <= 455 * 2097152) ==> drop_painted(d, px, width, height, font)
            == trail,
{
    trail_painted(d, d.tail_len as int, px, width)
}

/// The rain is all of its drops, painted one over the other in order. The
/// pictures in between are returned.
pub proof fn lemma_rain_is_all_drops_in_order(
    drops: Seq<MatrixDrop>,
    px: Seq<[u8; 4]>,
    width: u32,
    height: u32,
    font: Seq<u8>,
) -> (layers: Seq<Seq<[u8; 4]>>)
    ensures
        layers.len() == drops.len() + 1,
        layers[0] == px,
        forall|i: int|
            #![trigger layers[i]]
            0 <= i < drops.len() ==> layers[i + 1] == drop_painted(
                drops[i],
                layers[i],
                width,
                height,
                font,
            ),
        rain_painted(drops, drops.len() as int, px, width, height, font) == layers.last(),
{
    let layers = Seq::new(
        drops.len() + 1,
        |i: int| rain_painted(drops, i, px, width, height, font),
    );
    assert forall|i: int| #![trigger layers[i]] 0 <= i < drops.len() implies layers[i + 1]
        == drop_painted(drops[i], layers[i], width, height, font) by {
        assert(layers[i + 1] == rain_painted(drops, i + 1, px, width, height, font));
    }
    layers
}

} // verus!
