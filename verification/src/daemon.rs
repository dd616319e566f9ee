//! The render loop's state and one turn of the loop.
//!
//! A turn settles the mascot's mood and quote, advances the rain and renders
//! one frame. Telemetry refreshes at most once per second; in between, the
//! last snapshot is used again.

use vstd::prelude::*;

use crate::jpeg::{declared_size, is_jpeg};
use crate::mascot::{
    is_due, lemma_load_bands_in_numbers, lemma_mood_by_clock_and_load, lemma_mood_names,
    lemma_quote_by_clock_and_load, Mascot, Mood, TelemetryClock, COOLDOWN_SECS, SCREAM_SECS,
};
use crate::rain::{scattered, state_after_scatter, MatrixRain};
use crate::render::{draw_frame, rain_ticked, rendered, Assets};
use crate::screen::{frame_bytes, lemma_frame_layout, read_le32, HEIGHT, WIDTH};
use crate::telemetry::SystemStats;

verus! {

/// Interval between frames, in milliseconds: caps the loop at about 30 FPS.
pub const FRAME_INTERVAL_MS: u64 = 33;

/// What the loop carries from one turn to the next.
pub struct Daemon {
    pub mascot: Mascot,
    pub rain: MatrixRain,
    pub clock: TelemetryClock,
    /// The mascot's quotes, in the language of the system.
    pub quotes: Vec<&'static str>,
    /// The last telemetry snapshot.
    pub stats: SystemStats,
}

/// The text shown for a place in the quote pool.
pub open spec fn quote_at(quotes: Seq<&'static str>, place: Option<usize>) -> Seq<char> {
    match place {
        Some(q) => quotes[q as int]@,
        None => ""@,
    }
}

impl Daemon {
    pub open spec fn wf(self) -> bool {
        &&& self.mascot.wf()
        &&& self.rain.wf()
        &&& self.quotes@.len() > 0
    }

    /// The frame that a turn at `now_secs` renders.
    pub open spec fn turn_frame(self, assets: Assets, now_secs: u64, bounce: int) -> Option<
        Seq<u8>,
    > {
        rendered(
            self.stats,
            self.mascot.shown_mood(now_secs, self.stats).spec_name()@,
            quote_at(
                self.quotes@,
                self.mascot.shown_quote(now_secs, self.stats, self.quotes.len()),
            ),
            self.rain,
            assets,
            now_secs,
            bounce,
        )
    }

    /// Start the loop. `idle_seed` feeds the idle timing and `rain_seed` the
    /// rain; the walk through the quotes starts after `first_quote`. `None` if
    /// there are no quotes.
    pub fn new(
        idle_seed: u64,
        rain_seed: u64,
        first_quote: usize,
        quotes: Vec<&'static str>,
        stats: SystemStats,
    ) -> (r: Option<Daemon>)
        ensures
            r is Some <==> quotes@.len() > 0,
            r matches Some(d) ==> {
                &&& d.wf()
                &&& d.mascot.quote_end_time == 0
                &&& d.mascot.quote_idx == first_quote
                &&& d.mascot.idle_timer == 0
                &&& d.mascot.idle_mood == Mood::Normal
                &&& d.mascot.prng.state == idle_seed
                &&& d.rain.drops@.len() == 25
                &&& d.rain.prng.state == state_after_scatter(rain_seed, 25)
                &&& forall|i: int|
                    0 <= i < 25 ==> (#[trigger] d.rain.drops@[i]) == scattered(
                        state_after_scatter(rain_seed, i),
                    )
                &&& d.clock.last_ns == 0
                &&& d.quotes == quotes
                &&& d.stats == stats
            },
    {
        if quotes.len() == 0 {
            return None;
        }
        let mascot = Mascot::new(idle_seed, first_quote);
        let rain = MatrixRain::new(rain_seed);
        Some(Daemon { mascot, rain, clock: TelemetryClock::new(), quotes, stats })
    }

    /// One turn of the loop: settle the mascot's mood and quote at the
    /// wall-clock second `now_secs` and render the frame. Every frame is a JPEG
    /// of the panel's size.
    pub fn turn(&mut self, assets: &Assets, now_secs: u64, bounce: i64) -> (r: Option<Vec<u8>>)
        requires
            old(self).wf(),
            now_secs + SCREAM_SECS + COOLDOWN_SECS <= u64::MAX,
            -10 <= bounce <= 10,
        ensures
            final(self).wf(),
            (match r {
                Some(jpeg) => Some(jpeg@),
                None => None,
            }) == old(self).turn_frame(*assets, now_secs, bounce as int),
            r matches Some(jpeg) ==> is_jpeg(jpeg@) && declared_size(jpeg@) == Some(
                (WIDTH, HEIGHT),
            ),
            final(self).mascot == old(self).mascot.next(now_secs, old(self).stats),
            r is Some ==> rain_ticked(old(self).rain, final(self).rain),
            r is None ==> final(self).rain == old(self).rain,
            final(self).clock == old(self).clock,
            final(self).quotes == old(self).quotes,
            final(self).stats == old(self).stats,
    {
        let n = self.quotes.len();
        let shown = self.mascot.step(now_secs, &self.stats, n);
        let quote: &'static str = match shown.quote {
            Some(q) => self.quotes[q],
            None => "",
        };
        draw_frame(
            &self.stats,
            shown.mood.name(),
            quote,
            &mut self.rain,
            assets,
            now_secs,
            bounce,
        )
    }

    /// Whether the telemetry snapshot is due for a refresh at `now_ns`; if so,
    /// the refresh counts as done.
    pub fn telemetry_due(&mut self, now_ns: u128) -> (r: bool)
        requires
            old(self).clock.last_ns <= now_ns,
        ensures
            r == is_due(old(self).clock.last_ns, now_ns),
            final(self).clock.last_ns == if r {
                now_ns
            } else {
                old(self).clock.last_ns
            },
            final(self).mascot == old(self).mascot,
            final(self).rain == old(self).rain,
            final(self).quotes == old(self).quotes,
            final(self).stats == old(self).stats,
    {
        self.clock.due(now_ns)
    }

    /// Take over a fresh snapshot.
    pub fn refresh(&mut self, stats: SystemStats)
        ensures
            *final(self) == (Daemon { stats, ..*old(self) }),
    {
        self.stats = stats;
    }
}

// ── Laws of the telemetry throttle ──────────────────────────────────────

/// One tick of the loop: the time, and what the sensors would read.
pub struct Tick {
    pub now_ns: u128,
    pub fresh: SystemStats,
}

/// The throttle's clock after some ticks: each tick asks whether a refresh is
/// due, and the clock is zero before the first.
pub open spec fn clock_after(ticks: Seq<Tick>) -> u128
    decreases ticks.len(),
{
    if ticks.len() == 0 {
        0
    } else if is_due(clock_after(ticks.drop_last()), ticks.last().now_ns) {
        ticks.last().now_ns
    } else {
        clock_after(ticks.drop_last())
    }
}

/// The snapshot in use after some ticks that started with `stats`.
pub open spec fn snapshot_after(stats: SystemStats, ticks: Seq<Tick>) -> SystemStats
    decreases ticks.len(),
{
    if ticks.len() == 0 {
        stats
    } else if is_due(clock_after(ticks.drop_last()), ticks.last().now_ns) {
        ticks.last().fresh
    } else {
        snapshot_after(stats, ticks.drop_last())
    }
}

/// Whether tick `k` re-reads the sensors.
pub open spec fn refreshes(ticks: Seq<Tick>, k: int) -> bool {
    is_due(clock_after(ticks.take(k)), ticks[k].now_ns)
}

/// The latest tick that re-read the sensors.
pub open spec fn latest_refresh(ticks: Seq<Tick>) -> int
    decreases ticks.len(),
{
    if ticks.len() == 0 {
        -1
    } else if refreshes(ticks, ticks.len() - 1) {
        ticks.len() - 1
    } else {
        latest_refresh(ticks.drop_last())
    }
}

/// Telemetry over any history of ticks, the first of them at least one second
/// after the epoch: the first tick re-reads the sensors, and every tick uses
/// the snapshot of the latest tick that did.
pub proof fn lemma_snapshot_is_of_latest_refresh(stats: SystemStats, ticks: Seq<Tick>)
    requires
        ticks.len() > 0,
        ticks[0].now_ns >= 1_000_000_000,
    ensures
        refreshes(ticks, 0),
        0 <= latest_refresh(ticks) < ticks.len(),
        refreshes(ticks, latest_refresh(ticks)),
        forall|i: int|
            latest_refresh(ticks) < i < ticks.len() ==> !#[trigger] refreshes(ticks, i),
        clock_after(ticks) == ticks[latest_refresh(ticks)].now_ns,
        snapshot_after(stats, ticks) == ticks[latest_refresh(ticks)].fresh,
    decreases ticks.len(),
{
    let n = ticks.len() - 1;
    let front = ticks.drop_last();
    assert(ticks.take(0) =~= Seq::empty());
    assert(ticks.take(n) =~= front);
    if n > 0 {
        lemma_snapshot_is_of_latest_refresh(stats, front);
        assert forall|i: int| 0 <= i < n implies refreshes(ticks, i) == #[trigger] refreshes(
            front,
            i,
        ) by {
            assert(ticks.take(i) =~= front.take(i));
        }
        if !refreshes(ticks, n) {
            assert forall|i: int| latest_refresh(ticks) < i < ticks.len() implies !#[trigger] refreshes(
                ticks,
                i,
            ) by {
                if i < n {
                    assert(!refreshes(front, i));
                }
            }
            assert(refreshes(ticks, latest_refresh(front)) == refreshes(
                front,
                latest_refresh(front),
            ));
        }
    }
}

/// The throttle over any history of ticks: a later tick re-reads the sensors
/// exactly if at least one second has passed since the latest tick that did;
/// otherwise the snapshot stays as it is.
pub proof fn lemma_refresh_exactly_after_one_second(stats: SystemStats, ticks: Seq<Tick>, next: Tick)
    requires
        ticks.len() > 0,
        ticks[0].now_ns >= 1_000_000_000,
    ensures
        refreshes(ticks.push(next), ticks.len() as int) <==> next.now_ns
            - ticks[latest_refresh(ticks)].now_ns >= 1_000_000_000,
        !refreshes(ticks.push(next), ticks.len() as int) ==> snapshot_after(
            stats,
            ticks.push(next),
        ) == snapshot_after(stats, ticks),
        refreshes(ticks.push(next), ticks.len() as int) ==> snapshot_after(stats, ticks.push(next))
            == next.fresh,
{
    lemma_snapshot_is_of_latest_refresh(stats, ticks);
    assert(ticks.push(next).take(ticks.len() as int) =~= ticks);
    assert(ticks.push(next).drop_last() =~= ticks);
}

/// A frame that declares the panel's size, as every rendered frame does, is a
/// JPEG that the panel's framing carries unchanged, under a header that
/// declares the same size.
pub proof fn lemma_rendered_frame_matches_header(jpeg: Seq<u8>)
    requires
        declared_size(jpeg) == Some((WIDTH, HEIGHT)),
    ensures
        is_jpeg(jpeg),
        declared_size(jpeg) matches Some((w, h)) && read_le32(frame_bytes(jpeg), 8) == w
            && read_le32(frame_bytes(jpeg), 12) == h,
        frame_bytes(jpeg).skip(64) == jpeg,
{
    lemma_frame_layout(jpeg);
}

/// What a turn renders while the mascot screams: the screaming sprite and the
/// quote whose turn it is, from the first second to the last.
pub proof fn lemma_screaming_turn_shows_its_quote(d: Daemon, assets: Assets, now: u64, bounce: int)
    requires
        d.wf(),
        now + 10 <= u64::MAX,
    ensures
        ({
            let gpu = d.stats.gpu_busy_percent.bits;
            let heavy = (0x42a0_0000 <= gpu <= 0x7f80_0000) || (if d.stats.ram_total == 0 {
                d.stats.ram_used > 0
            } else {
                100 * d.stats.ram_used >= 60 * d.stats.ram_total
            });
            let n = d.quotes@.len() as int;
            let number = if d.mascot.quote_idx == usize::MAX {
                0
            } else {
                d.mascot.quote_idx + 1
            };
            &&& heavy && now >= d.mascot.quote_end_time + 350 ==> d.turn_frame(assets, now, bounce)
                == rendered(
                d.stats,
                "angry_scream"@,
                d.quotes@[number % n]@,
                d.rain,
                assets,
                now,
                bounce,
            )
            &&& now < d.mascot.quote_end_time ==> d.turn_frame(assets, now, bounce) == rendered(
                d.stats,
                "angry_scream"@,
                d.quotes@[d.mascot.quote_idx as int % n]@,
                d.rain,
                assets,
                now,
                bounce,
            )
        }),
{
    lemma_mood_by_clock_and_load(d.mascot, now, d.stats);
    lemma_quote_by_clock_and_load(d.mascot, now, d.stats, d.quotes.len());
    let n = d.quotes@.len() as int;
    vstd::arithmetic::div_mod::lemma_mod_bound(d.mascot.quote_idx as int, n);
    vstd::arithmetic::div_mod::lemma_mod_bound(d.mascot.quote_idx + 1, n);
    vstd::arithmetic::div_mod::lemma_mod_bound(0, n);
}

/// What a turn renders outside a scream: the sprite of the mood, without any
/// quote.
pub proof fn lemma_quiet_turn_shows_no_quote(d: Daemon, assets: Assets, now: u64, bounce: int)
    requires
        d.wf(),
        now + 10 <= u64::MAX,
        now >= d.mascot.quote_end_time,
    ensures
        ({
            let gpu = d.stats.gpu_busy_percent.bits;
            let heavy = (0x42a0_0000 <= gpu <= 0x7f80_0000) || (if d.stats.ram_total == 0 {
                d.stats.ram_used > 0
            } else {
                100 * d.stats.ram_used >= 60 * d.stats.ram_total
            });
            let mood = d.mascot.shown_mood(now, d.stats);
            &&& heavy && now < d.mascot.quote_end_time + 350 ==> d.turn_frame(assets, now, bounce)
                == rendered(d.stats, "angry"@, ""@, d.rain, assets, now, bounce)
            &&& !heavy && 0x4248_0000 <= gpu <= 0x7f80_0000 ==> d.turn_frame(assets, now, bounce)
                == rendered(d.stats, "smile"@, ""@, d.rain, assets, now, bounce)
            &&& !heavy && !(0x4248_0000 <= gpu <= 0x7f80_0000) ==> d.turn_frame(assets, now, bounce)
                == rendered(
                d.stats,
                if mood == Mood::Normal {
                    "normal"@
                } else if mood == Mood::Smoke {
                    "smoke"@
                } else {
                    "squints"@
                },
                ""@,
                d.rain,
                assets,
                now,
                bounce,
            )
        }),
{
    lemma_mood_by_clock_and_load(d.mascot, now, d.stats);
    lemma_load_bands_in_numbers(d.stats);
    lemma_mood_names(d.mascot.shown_mood(now, d.stats));
}

/// Frames are 33 ms apart, so there are about thirty of them per second.
pub proof fn lemma_frame_rate()
    ensures
        FRAME_INTERVAL_MS == 33,
        30 * FRAME_INTERVAL_MS <= 1000 < 31 * FRAME_INTERVAL_MS,
{
}

} // verus!
