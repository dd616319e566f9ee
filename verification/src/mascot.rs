//! The mascot's mood machine.
//!
//! * Overloaded (GPU busy ≥ 80 % **or** RAM ≥ 60 %) → the mascot screams: the
//!   `angry_scream` sprite plus a quote for 10 s, then the silent `angry`
//!   sprite until the next quote comes around (every 6 min).
//! * GPU busy from 50 % up to (but not including) 80 % → the `smile` sprite.
//! * Otherwise → the mascot idles in `normal` / `smoke` / `squints`, picking a
//!   new pose every 30–240 s.

use vstd::prelude::*;

use crate::prng::{pick, xorshift64, Prng};
use crate::single::lemma_thresholds_by_bits;
use crate::telemetry::SystemStats;

verus! {

/// Length of a scream, in seconds.
pub const SCREAM_SECS: u64 = 10;

/// Quiet time between the end of a scream and the next one, in seconds.
pub const COOLDOWN_SECS: u64 = 350;

/// Shortest time an idle pose is kept, in seconds.
pub const IDLE_MIN_SECS: u64 = 30;

/// Longest time an idle pose is kept, in seconds.
pub const IDLE_MAX_SECS: u64 = 240;

/// What the mascot looks like.
#[derive(Debug, Clone, Copy, PartialEq, Eq, Structural)]
pub enum Mood {
    Normal,
    Smoke,
    Squints,
    Smile,
    Angry,
    AngryScream,
}

impl Mood {
    pub open spec fn spec_name(self) -> &'static str {
        match self {
            Mood::Normal => "normal",
            Mood::Smoke => "smoke",
            Mood::Squints => "squints",
            Mood::Smile => "smile",
            Mood::Angry => "angry",
            Mood::AngryScream => "angry_scream",
        }
    }

    /// The name of the sprite.
    pub fn name(self) -> (r: &'static str)
        ensures
            r == self.spec_name(),
    {
        match self {
            Mood::Normal => "normal",
            Mood::Smoke => "smoke",
            Mood::Squints => "squints",
            Mood::Smile => "smile",
            Mood::Angry => "angry",
            Mood::AngryScream => "angry_scream",
        }
    }

    /// One of the three idle poses.
    pub open spec fn is_idle(self) -> bool {
        self == Mood::Normal || self == Mood::Smoke || self == Mood::Squints
    }
}

/// RAM usage is at least 60 %. An unknown total counts as full as soon as any
/// RAM is in use.
pub open spec fn ram_overloaded(used: u64, total: u64) -> bool {
    used > 0 && 100 * used >= 60 * total
}

/// GPU busy at least 80 % or RAM at least 60 %.
pub open spec fn overloaded(stats: SystemStats) -> bool {
    stats.gpu_busy_percent.is_at_least(80) || ram_overloaded(stats.ram_used, stats.ram_total)
}

/// GPU busy at least 50 %.
pub open spec fn working(stats: SystemStats) -> bool {
    stats.gpu_busy_percent.is_at_least(50)
}

/// The state of the mood machine.
#[derive(Debug, Clone, Copy)]
pub struct Mascot {
    /// Wall-clock second at which the current scream ends.
    pub quote_end_time: u64,
    /// Number of the current quote, counted through the pool and around.
    pub quote_idx: usize,
    /// Wall-clock second at which a new idle pose is due.
    pub idle_timer: u64,
    /// The current idle pose.
    pub idle_mood: Mood,
    pub prng: Prng,
}

/// What to show: the mood, and the place of the quote in the pool.
pub struct Appearance {
    pub mood: Mood,
    pub quote: Option<usize>,
}

/// The idle pose picked by the generator output `v`.
pub open spec fn idle_pose(v: u64) -> Mood {
    if v % 3 == 0 {
        Mood::Normal
    } else if v % 3 == 1 {
        Mood::Smoke
    } else {
        Mood::Squints
    }
}

impl Mascot {
    /// The clock is far enough from its end for the machine's timers.
    pub open spec fn wf(self) -> bool {
        &&& self.quote_end_time + COOLDOWN_SECS <= u64::MAX
        &&& self.idle_mood.is_idle()
    }

    /// Whether a new scream starts at `now`.
    pub open spec fn triggers(self, now: u64, stats: SystemStats) -> bool {
        overloaded(stats) && now >= self.quote_end_time + COOLDOWN_SECS
    }

    /// The state after a possible new scream at `now`.
    pub open spec fn after_trigger(self, now: u64, stats: SystemStats) -> Mascot {
        if self.triggers(now, stats) {
            Mascot {
                quote_end_time: (now + SCREAM_SECS) as u64,
                quote_idx: if self.quote_idx == usize::MAX {
                    0
                } else {
                    (self.quote_idx + 1) as usize
                },
                ..self
            }
        } else {
            self
        }
    }

    /// The state after a possible change of the idle pose at `now`.
    pub open spec fn after_idle(self, now: u64) -> Mascot {
        if now >= self.idle_timer {
            let first = xorshift64(self.prng.state);
            let second = xorshift64(first);
            Mascot {
                idle_mood: idle_pose(first),
                idle_timer: (now + pick(second, IDLE_MIN_SECS, IDLE_MAX_SECS)) as u64,
                prng: Prng { state: second },
                ..self
            }
        } else {
            self
        }
    }

    /// The mood that a state shows at `now`, once triggers are settled.
    pub open spec fn mood_at(self, now: u64, stats: SystemStats) -> Mood {
        if now < self.quote_end_time {
            Mood::AngryScream
        } else if overloaded(stats) {
            Mood::Angry
        } else if working(stats) {
            Mood::Smile
        } else {
            self.after_idle(now).idle_mood
        }
    }

    /// Whether a step at `now` is an idle one: no scream, no overload, and the
    /// GPU below 50 %.
    pub open spec fn idles(self, now: u64, stats: SystemStats) -> bool {
        now >= self.quote_end_time && !overloaded(stats) && !working(stats)
    }

    /// Whether a step at `now` picks a new idle pose.
    pub open spec fn picks(self, now: u64, stats: SystemStats) -> bool {
        self.idles(now, stats) && now >= self.idle_timer
    }

    /// The next state.
    pub open spec fn next(self, now: u64, stats: SystemStats) -> Mascot {
        let m = self.after_trigger(now, stats);
        if now < m.quote_end_time || overloaded(stats) || working(stats) {
            m
        } else {
            m.after_idle(now)
        }
    }

    /// The mood shown by a step at `now`.
    pub open spec fn shown_mood(self, now: u64, stats: SystemStats) -> Mood {
        self.after_trigger(now, stats).mood_at(now, stats)
    }

    /// The quote shown by a step at `now`, as a place in a pool of `n`.
    pub open spec fn shown_quote(self, now: u64, stats: SystemStats, n: usize) -> Option<usize> {
        let m = self.after_trigger(now, stats);
        if now < m.quote_end_time {
            Some((m.quote_idx as int % n as int) as usize)
        } else {
            None
        }
    }

    /// A machine that starts idling at once; `seed` feeds the idle timing and
    /// `first_quote` the walk through the quotes.
    pub fn new(seed: u64, first_quote: usize) -> (r: Mascot)
        ensures
            r.wf(),
            r.quote_end_time == 0,
            r.quote_idx == first_quote,
            r.idle_timer == 0,
            r.idle_mood == Mood::Normal,
            r.prng.state == seed,
    {
        Mascot {
            quote_end_time: 0,
            quote_idx: first_quote,
            idle_timer: 0,
            idle_mood: Mood::Normal,
            prng: Prng { state: seed },
        }
    }

    /// Advance the machine to the wall-clock second `now` and say what to
    /// show, given a pool of `n_quotes` quotes.
    pub fn step(&mut self, now: u64, stats: &SystemStats, n_quotes: usize) -> (r: Appearance)
        requires
            old(self).wf(),
            now + SCREAM_SECS + COOLDOWN_SECS <= u64::MAX,
            n_quotes > 0,
        ensures
            final(self).wf(),
            *final(self) == old(self).next(now, *stats),
            r.mood == old(self).shown_mood(now, *stats),
            r.quote == old(self).shown_quote(now, *stats, n_quotes),
    {
        let is_overloaded = is_overloaded(stats);
        if is_overloaded && now >= self.quote_end_time + COOLDOWN_SECS {
            self.quote_end_time = now + SCREAM_SECS;
            self.quote_idx = if self.quote_idx == usize::MAX {
                0
            } else {
                self.quote_idx + 1
            };
        }
        if now < self.quote_end_time {
            Appearance { mood: Mood::AngryScream, quote: Some(self.quote_idx % n_quotes) }
        } else if is_overloaded {
            Appearance { mood: Mood::Angry, quote: None }
        } else if stats.gpu_busy_percent.at_least_fifty() {
            Appearance { mood: Mood::Smile, quote: None }
        } else {
            if now >= self.idle_timer {
                let v = self.prng.next();
                self.idle_mood = if v % 3 == 0 {
                    Mood::Normal
                } else if v % 3 == 1 {
                    Mood::Smoke
                } else {
                    Mood::Squints
                };
                self.idle_timer = now + self.prng.range(IDLE_MIN_SECS, IDLE_MAX_SECS);
            }
            Appearance { mood: self.idle_mood, quote: None }
        }
    }
}

/// Whether the system is overloaded.
pub fn is_overloaded(stats: &SystemStats) -> (r: bool)
    ensures
        r == overloaded(*stats),
        r == (stats.gpu_busy_percent.is_at_least(80) || if stats.ram_total == 0 {
            stats.ram_used > 0
        } else {
            100 * stats.ram_used >= 60 * stats.ram_total
        }),
{
    stats.gpu_busy_percent.at_least_eighty() || (stats.ram_used > 0 && 100 * (stats.ram_used
        as u128) >= 60 * (stats.ram_total as u128))
}

/// Whether a refresh is due at `now_ns`, with the last one at `last_ns`: at
/// least one second has passed.
pub open spec fn is_due(last_ns: u128, now_ns: u128) -> bool {
    now_ns - last_ns >= 1_000_000_000
}

/// The throttle that lets telemetry refresh once per second.
#[derive(Debug, Clone, Copy)]
pub struct TelemetryClock {
    /// Time of the last refresh, in nanoseconds since the UNIX epoch.
    pub last_ns: u128,
}

impl TelemetryClock {
    pub fn new() -> (r: TelemetryClock)
        ensures
            r.last_ns == 0,
    {
        TelemetryClock { last_ns: 0 }
    }

    /// Whether a refresh is due at `now_ns`; if so, it counts as done.
    pub fn due(&mut self, now_ns: u128) -> (r: bool)
        requires
            old(self).last_ns <= now_ns,
        ensures
            r == is_due(old(self).last_ns, now_ns),
            final(self).last_ns == if r {
                now_ns
            } else {
                old(self).last_ns
            },
    {
        if (now_ns - self.last_ns) / 1_000_000_000 >= 1 {
            self.last_ns = now_ns;
            true
        } else {
            false
        }
    }
}

// ── Laws of the mood machine ────────────────────────────────────────────

/// One look at the clock and the telemetry.
pub struct Observation {
    pub now: u64,
    pub stats: SystemStats,
}

/// The state after a run of observations.
pub open spec fn run(m: Mascot, seen: Seq<Observation>) -> Mascot
    decreases seen.len(),
{
    if seen.len() == 0 {
        m
    } else {
        run(m, seen.drop_last()).next(seen.last().now, seen.last().stats)
    }
}

/// Overload outside the cooldown starts a scream of exactly ten seconds, with
/// the next quote of the pool: with more than one quote, never the last one
/// again.
pub proof fn lemma_overload_starts_scream(m: Mascot, now: u64, stats: SystemStats, n: usize)
    requires
        m.triggers(now, stats),
        now + SCREAM_SECS <= u64::MAX,
        n > 0,
        m.quote_idx < usize::MAX,
    ensures
        m.shown_mood(now, stats) == Mood::AngryScream,
        m.shown_quote(now, stats, n) == Some(((m.quote_idx + 1) % n as int) as usize),
        m.next(now, stats).quote_end_time == now + 10,
        n > 1 ==> m.shown_quote(now, stats, n) != Some((m.quote_idx as int % n as int) as usize),
{
    if n > 1 && (m.quote_idx + 1) % n as int == m.quote_idx as int % n as int {
        lemma_near_numbers_differ(m.quote_idx + 1, m.quote_idx as int, n as int);
    }
}

/// Strict scream lock: before the scream ends, every step shows the scream and
/// the same quote and changes nothing, whatever the load does.
pub proof fn lemma_scream_lock(m: Mascot, now: u64, stats: SystemStats, n: usize)
    requires
        now < m.quote_end_time,
    ensures
        m.next(now, stats) == m,
        m.shown_mood(now, stats) == Mood::AngryScream,
        m.shown_quote(now, stats, n) == Some((m.quote_idx as int % n as int) as usize),
{
}

/// The lock holds over any run of observations made before the scream ends.
pub proof fn lemma_scream_lock_run(m: Mascot, seen: Seq<Observation>)
    requires
        forall|i: int| 0 <= i < seen.len() ==> (#[trigger] seen[i]).now < m.quote_end_time,
    ensures
        run(m, seen) == m,
    decreases seen.len(),
{
    if seen.len() > 0 {
        let front = seen.drop_last();
        assert forall|i: int| 0 <= i < front.len() implies (#[trigger] front[i]).now
            < m.quote_end_time by {
            assert(front[i] == seen[i]);
        }
        lemma_scream_lock_run(m, front);
        assert(seen[seen.len() - 1].now < m.quote_end_time);
        lemma_scream_lock(m, seen.last().now, seen.last().stats, 1);
    }
}

/// Cooldown: over any run of observations made within 350 s after a scream's
/// end, no new scream starts and no new quote comes up.
pub proof fn lemma_cooldown_run(m: Mascot, seen: Seq<Observation>)
    requires
        forall|i: int|
            0 <= i < seen.len() ==> (#[trigger] seen[i]).now < m.quote_end_time + COOLDOWN_SECS,
    ensures
        run(m, seen).quote_end_time == m.quote_end_time,
        run(m, seen).quote_idx == m.quote_idx,
    decreases seen.len(),
{
    if seen.len() > 0 {
        let front = seen.drop_last();
        assert forall|i: int| 0 <= i < front.len() implies (#[trigger] front[i]).now
            < m.quote_end_time + COOLDOWN_SECS by {
            assert(front[i] == seen[i]);
        }
        lemma_cooldown_run(m, front);
        assert(seen[seen.len() - 1].now < m.quote_end_time + COOLDOWN_SECS);
    }
}

/// Two screams start at least 360 s apart: if one starts at `first` and, after
/// observations that start none, another starts at `second`, then
/// `second >= first + 360`.
pub proof fn lemma_screams_are_six_minutes_apart(
    m: Mascot,
    first: u64,
    stats: SystemStats,
    between: Seq<Observation>,
    second: u64,
    stats2: SystemStats,
)
    requires
        m.triggers(first, stats),
        first + SCREAM_SECS <= u64::MAX,
        forall|i: int|
            0 <= i < between.len() ==> !run(
                m.next(first, stats),
                #[trigger] between.take(i),
            ).triggers(between[i].now, between[i].stats),
        run(m.next(first, stats), between).triggers(second, stats2),
    ensures
        second >= first + 360,
{
    lemma_quiet_run_keeps_end(m.next(first, stats), between);
}

proof fn lemma_quiet_run_keeps_end(m: Mascot, seen: Seq<Observation>)
    requires
        forall|i: int|
            0 <= i < seen.len() ==> !run(m, #[trigger] seen.take(i)).triggers(
                seen[i].now,
                seen[i].stats,
            ),
    ensures
        run(m, seen).quote_end_time == m.quote_end_time,
    decreases seen.len(),
{
    if seen.len() > 0 {
        let front = seen.drop_last();
        let k = seen.len() - 1;
        assert forall|i: int| 0 <= i < front.len() implies !run(m, #[trigger] front.take(i)).triggers(
            front[i].now,
            front[i].stats,
        ) by {
            assert(front.take(i) =~= seen.take(i));
            assert(front[i] == seen[i]);
        }
        lemma_quiet_run_keeps_end(m, front);
        assert(seen.take(k) =~= front);
    }
}

/// The second at which the latest scream of a run of observations started.
pub open spec fn latest_scream(m: Mascot, seen: Seq<Observation>) -> Option<u64>
    decreases seen.len(),
{
    if seen.len() == 0 {
        None
    } else if run(m, seen.drop_last()).triggers(seen.last().now, seen.last().stats) {
        Some(seen.last().now)
    } else {
        latest_scream(m, seen.drop_last())
    }
}

proof fn lemma_end_of_latest_scream(m: Mascot, seen: Seq<Observation>)
    requires
        forall|i: int| 0 <= i < seen.len() ==> (#[trigger] seen[i]).now + SCREAM_SECS <= u64::MAX,
    ensures
        run(m, seen).quote_end_time == match latest_scream(m, seen) {
            Some(s) => s + SCREAM_SECS,
            None => m.quote_end_time as int,
        },
    decreases seen.len(),
{
    if seen.len() > 0 {
        let front = seen.drop_last();
        assert forall|i: int| 0 <= i < front.len() implies (#[trigger] front[i]).now + SCREAM_SECS
            <= u64::MAX by {
            assert(front[i] == seen[i]);
        }
        lemma_end_of_latest_scream(m, front);
        assert(seen[seen.len() - 1].now + SCREAM_SECS <= u64::MAX);
    }
}

/// When a scream starts, over any history of a new machine: at a step at second
/// 350 or later, a scream starts exactly if the system is overloaded and the
/// latest scream, if there was one, started at least 360 s ago.
pub proof fn lemma_scream_starts_exactly_when(
    m: Mascot,
    seen: Seq<Observation>,
    now: u64,
    stats: SystemStats,
)
    requires
        m.quote_end_time == 0,
        forall|i: int| 0 <= i < seen.len() ==> (#[trigger] seen[i]).now + SCREAM_SECS <= u64::MAX,
        now >= COOLDOWN_SECS,
    ensures
        run(m, seen).triggers(now, stats) <==> overloaded(stats) && match latest_scream(m, seen) {
            Some(s) => now >= s + 360,
            None => true,
        },
{
    lemma_end_of_latest_scream(m, seen);
}

/// How many screams a run of observations starts.
pub open spec fn screams(m: Mascot, seen: Seq<Observation>) -> nat
    decreases seen.len(),
{
    if seen.len() == 0 {
        0
    } else if run(m, seen.drop_last()).triggers(seen.last().now, seen.last().stats) {
        screams(m, seen.drop_last()) + 1
    } else {
        screams(m, seen.drop_last())
    }
}

/// Whether the `i`-th step of a run starts a scream.
pub open spec fn starts_scream(m: Mascot, seen: Seq<Observation>, i: int) -> bool {
    0 <= i < seen.len() && run(m, seen.take(i)).triggers(seen[i].now, seen[i].stats)
}

/// How many screams have started by the `i`-th step of a run, itself counted.
pub open spec fn scream_number(m: Mascot, seen: Seq<Observation>, i: int) -> nat {
    screams(m, seen.take(i + 1))
}

/// The quote that the `i`-th step of a run shows, as a place in a pool of `n`.
pub open spec fn quote_at(m: Mascot, seen: Seq<Observation>, i: int, n: usize) -> Option<usize> {
    run(m, seen.take(i)).shown_quote(seen[i].now, seen[i].stats, n)
}

/// The quote number moves at the start of a scream and never otherwise.
pub proof fn lemma_quote_number_moves_at_scream_starts(m: Mascot, now: u64, stats: SystemStats)
    ensures
        m.next(now, stats).quote_idx != m.quote_idx <==> m.triggers(now, stats),
{
}

/// Over any history the quote number is the first number plus the number of
/// screams.
pub proof fn lemma_quote_number_counts_screams(m: Mascot, seen: Seq<Observation>)
    requires
        m.quote_idx + screams(m, seen) <= usize::MAX,
    ensures
        run(m, seen).quote_idx == m.quote_idx + screams(m, seen),
    decreases seen.len(),
{
    if seen.len() > 0 {
        lemma_quote_number_counts_screams(m, seen.drop_last());
    }
}

proof fn lemma_scream_number_step(m: Mascot, seen: Seq<Observation>, i: int)
    requires
        0 <= i < seen.len(),
    ensures
        scream_number(m, seen, i) == screams(m, seen.take(i)) + if starts_scream(m, seen, i) {
            1int
        } else {
            0
        },
        run(m, seen.take(i + 1)) == run(m, seen.take(i)).next(seen[i].now, seen[i].stats),
{
    assert(seen.take(i + 1).drop_last() =~= seen.take(i));
    assert(seen.take(i + 1).last() == seen[i]);
}

proof fn lemma_screams_grow(m: Mascot, seen: Seq<Observation>, i: int, j: int)
    requires
        0 <= i <= j <= seen.len(),
    ensures
        screams(m, seen.take(i)) <= screams(m, seen.take(j)),
    decreases j,
{
    if i < j {
        lemma_screams_grow(m, seen, i, j - 1);
        lemma_scream_number_step(m, seen, j - 1);
    }
}

/// The walk through the quotes: over any history, a step that shows a quote
/// after `k` screams, the current one counted, shows quote `first + k` of the
/// pool, counted around. So the `k`-th scream shows that quote, from its start
/// to its end.
pub proof fn lemma_kth_scream_shows_kth_quote(
    m: Mascot,
    seen: Seq<Observation>,
    i: int,
    n: usize,
)
    requires
        0 <= i < seen.len(),
        seen[i].now + SCREAM_SECS <= u64::MAX,
        n > 0,
        m.quote_idx + screams(m, seen) <= usize::MAX,
    ensures
        starts_scream(m, seen, i) ==> quote_at(m, seen, i, n) is Some,
        quote_at(m, seen, i, n) matches Some(q) ==> q == (m.quote_idx + scream_number(m, seen, i))
            % n as int,
{
    assert(seen.take(seen.len() as int) =~= seen);
    lemma_screams_grow(m, seen, i + 1, seen.len() as int);
    lemma_screams_grow(m, seen, i, i + 1);
    lemma_quote_number_counts_screams(m, seen.take(i));
    lemma_scream_number_step(m, seen, i);
}

proof fn lemma_kth_scream_starts(m: Mascot, seen: Seq<Observation>, k: nat) -> (i: int)
    requires
        0 < k <= screams(m, seen),
    ensures
        starts_scream(m, seen, i),
        scream_number(m, seen, i) == k,
    decreases seen.len(),
{
    let front = seen.drop_last();
    if k <= screams(m, front) {
        let i = lemma_kth_scream_starts(m, front, k);
        assert(front.take(i) =~= seen.take(i));
        assert(front.take(i + 1) =~= seen.take(i + 1));
        i
    } else {
        let i = seen.len() - 1;
        assert(seen.take(i) =~= front);
        assert(seen.take(i + 1) =~= seen);
        i
    }
}

/// Two numbers less than `n` apart leave different remainders.
proof fn lemma_near_numbers_differ(a: int, b: int, n: int)
    requires
        n > 0,
        -n < a - b < n,
        a % n == b % n,
    ensures
        a == b,
{
    vstd::arithmetic::div_mod::lemma_fundamental_div_mod(a, n);
    vstd::arithmetic::div_mod::lemma_fundamental_div_mod(b, n);
    let (p, q) = (a / n, b / n);
    assert(p == q) by (nonlinear_arith)
        requires
            n > 0,
            -n < n * p - n * q < n,
    ;
}

/// No quote comes back before every other one had its turn: over any history,
/// any `n` screams in a row, those after the first `a`, show each quote `q` of a
/// pool of `n` exactly once.
pub proof fn lemma_screams_in_a_row_show_each_quote_once(
    m: Mascot,
    seen: Seq<Observation>,
    a: nat,
    n: usize,
    q: usize,
)
    requires
        forall|i: int| 0 <= i < seen.len() ==> (#[trigger] seen[i]).now + SCREAM_SECS <= u64::MAX,
        q < n,
        a + n <= screams(m, seen),
        m.quote_idx + screams(m, seen) <= usize::MAX,
    ensures
        exists|i: int|
            #![trigger starts_scream(m, seen, i)]
            starts_scream(m, seen, i) && a < scream_number(m, seen, i) <= a + n && quote_at(
                m,
                seen,
                i,
                n,
            ) == Some(q),
        forall|i: int, j: int|
            #![trigger starts_scream(m, seen, i), starts_scream(m, seen, j)]
            starts_scream(m, seen, i) && a < scream_number(m, seen, i) <= a + n && quote_at(
                m,
                seen,
                i,
                n,
            ) == Some(q) && starts_scream(m, seen, j) && a < scream_number(m, seen, j) <= a + n
                && quote_at(m, seen, j, n) == Some(q) ==> i == j,
{
    let next = m.quote_idx + a + 1;
    let ahead = (q - next) % n as int;
    vstd::arithmetic::div_mod::lemma_add_mod_noop_right(next, q - next, n as int);
    vstd::arithmetic::div_mod::lemma_small_mod(q as nat, n as nat);
    vstd::arithmetic::div_mod::lemma_mod_bound(q - next, n as int);
    let i = lemma_kth_scream_starts(m, seen, (a + 1 + ahead) as nat);
    assert(seen[i].now + SCREAM_SECS <= u64::MAX);
    lemma_kth_scream_shows_kth_quote(m, seen, i, n);
    assert(m.quote_idx + scream_number(m, seen, i) == next + ahead);
    assert forall|i: int, j: int|
        #![trigger starts_scream(m, seen, i), starts_scream(m, seen, j)]
        starts_scream(m, seen, i) && a < scream_number(m, seen, i) <= a + n && quote_at(
            m,
            seen,
            i,
            n,
        ) == Some(q) && starts_scream(m, seen, j) && a < scream_number(m, seen, j) <= a + n
            && quote_at(m, seen, j, n) == Some(q) implies i == j by {
        assert(seen[i].now + SCREAM_SECS <= u64::MAX);
        assert(seen[j].now + SCREAM_SECS <= u64::MAX);
        lemma_kth_scream_shows_kth_quote(m, seen, i, n);
        lemma_kth_scream_shows_kth_quote(m, seen, j, n);
        lemma_near_numbers_differ(
            m.quote_idx + scream_number(m, seen, i),
            m.quote_idx + scream_number(m, seen, j),
            n as int,
        );
        lemma_scream_number_step(m, seen, i);
        lemma_scream_number_step(m, seen, j);
        if i < j {
            lemma_screams_grow(m, seen, i + 1, j);
        } else if j < i {
            lemma_screams_grow(m, seen, j + 1, i);
        }
    }
}

proof fn lemma_idle_pose_survives(m: Mascot, seen: Seq<Observation>)
    requires
        forall|i: int|
            0 <= i < seen.len() ==> !run(m, #[trigger] seen.take(i)).picks(
                seen[i].now,
                seen[i].stats,
            ),
    ensures
        run(m, seen).idle_timer == m.idle_timer,
        run(m, seen).idle_mood == m.idle_mood,
        run(m, seen).prng == m.prng,
    decreases seen.len(),
{
    if seen.len() > 0 {
        let front = seen.drop_last();
        let k = seen.len() - 1;
        assert forall|i: int| 0 <= i < front.len() implies !run(m, #[trigger] front.take(i)).picks(
            front[i].now,
            front[i].stats,
        ) by {
            assert(front.take(i) =~= seen.take(i));
            assert(front[i] == seen[i]);
        }
        lemma_idle_pose_survives(m, front);
        assert(seen.take(k) =~= front);
    }
}

/// How long an idle pose is kept, over any history: a pose picked at second
/// `p` has a due second 30 to 240 s later. As long as every idle step comes
/// before it, each of them shows that pose, whatever screams and smiles come in
/// between; the first idle step at or after it picks one of the three poses
/// anew.
pub proof fn lemma_idle_pose_until_due(
    m: Mascot,
    p: u64,
    stats: SystemStats,
    seen: Seq<Observation>,
    now: u64,
    then: SystemStats,
)
    requires
        m.picks(p, stats),
        p + IDLE_MAX_SECS <= u64::MAX,
        forall|i: int|
            0 <= i < seen.len() && run(m.next(p, stats), #[trigger] seen.take(i)).idles(
                seen[i].now,
                seen[i].stats,
            ) ==> seen[i].now < m.next(p, stats).idle_timer,
    ensures
        ({
            let due = m.next(p, stats).idle_timer;
            let later = run(m.next(p, stats), seen);
            &&& p + 30 <= due <= p + 240
            &&& m.shown_mood(p, stats).is_idle()
            &&& later.idle_timer == due
            &&& later.idles(now, then) && now < due ==> {
                &&& later.shown_mood(now, then) == m.shown_mood(p, stats)
                &&& later.next(now, then) == later
            }
            &&& later.idles(now, then) && now >= due ==> {
                &&& later.picks(now, then)
                &&& later.shown_mood(now, then) == idle_pose(xorshift64(later.prng.state))
                &&& later.shown_mood(now, then).is_idle()
            }
        }),
    decreases seen.len(),
{
    let first = m.next(p, stats);
    assert forall|i: int| 0 <= i < seen.len() implies !run(first, #[trigger] seen.take(i)).picks(
        seen[i].now,
        seen[i].stats,
    ) by {
        let front = seen.take(i);
        assert forall|j: int|
            0 <= j < front.len() && run(first, #[trigger] front.take(j)).idles(
                front[j].now,
                front[j].stats,
            ) implies front[j].now < first.idle_timer by {
            assert(front.take(j) =~= seen.take(j));
            assert(front[j] == seen[j]);
        }
        lemma_idle_pose_until_due(m, p, stats, front, seen[i].now, seen[i].stats);
    }
    lemma_idle_pose_survives(first, seen);
}

/// Between a scream's end and the end of the cooldown an overloaded system
/// shows the silent angry mascot and nothing changes.
pub proof fn lemma_silent_glare(m: Mascot, now: u64, stats: SystemStats, n: usize)
    requires
        m.quote_end_time <= now < m.quote_end_time + COOLDOWN_SECS,
        overloaded(stats),
    ensures
        m.shown_mood(now, stats) == Mood::Angry,
        m.shown_quote(now, stats, n) is None,
        m.next(now, stats) == m,
{
}

/// A quote is on screen exactly while the mascot screams.
pub proof fn lemma_quote_only_while_screaming(m: Mascot, now: u64, stats: SystemStats, n: usize)
    requires
        m.wf(),
    ensures
        m.shown_quote(now, stats, n) is Some <==> m.shown_mood(now, stats) == Mood::AngryScream,
        n > 0 ==> (m.shown_quote(now, stats, n) matches Some(q) ==> q < n),
{
}

/// An overloaded system always shows an angry mascot; a relaxed one never does
/// once the scream is over.
pub proof fn lemma_angry_when_overloaded(m: Mascot, now: u64, stats: SystemStats)
    requires
        m.wf(),
    ensures
        overloaded(stats) ==> m.shown_mood(now, stats) == Mood::Angry || m.shown_mood(now, stats)
            == Mood::AngryScream,
        !overloaded(stats) && now >= m.quote_end_time ==> m.shown_mood(now, stats) != Mood::Angry
            && m.shown_mood(now, stats) != Mood::AngryScream,
{
}

/// The smile band: outside a scream, the mascot smiles exactly if the GPU is
/// at 50 % or more and the system is not overloaded.
pub proof fn lemma_smile_band(m: Mascot, now: u64, stats: SystemStats)
    requires
        m.wf(),
    ensures
        m.shown_mood(now, stats) == Mood::Smile <==> now >= m.quote_end_time && !overloaded(stats)
            && working(stats),
{
}

/// Idling: below 50 % and outside a scream the mascot holds one of its three
/// poses; the pose is kept until its timer runs out, and a new pose is kept
/// for 30 to 240 s.
pub proof fn lemma_idle_pose_is_kept(m: Mascot, now: u64, stats: SystemStats)
    requires
        m.wf(),
        now >= m.quote_end_time,
        !overloaded(stats),
        !working(stats),
        now + IDLE_MAX_SECS <= u64::MAX,
    ensures
        m.shown_mood(now, stats).is_idle(),
        m.shown_mood(now, stats) == m.next(now, stats).idle_mood,
        now < m.idle_timer ==> m.next(now, stats) == m && m.shown_mood(now, stats) == m.idle_mood,
        now >= m.idle_timer ==> now + 30 <= m.next(now, stats).idle_timer <= now + 240,
{
}

/// The bands do not overlap: 80 % busy is also at least 50 % busy.
pub proof fn lemma_bands_are_nested(stats: SystemStats)
    ensures
        stats.gpu_busy_percent.is_at_least(80) ==> working(stats),
{
    let p = vstd::arithmetic::power2::pow2(149);
    assert(80 * p >= 50 * p);
}

/// RAM counts as overloaded exactly from 60 % of the total on, whatever the
/// total is; where no total is known, as soon as any RAM is in use.
pub proof fn lemma_ram_overload_from_sixty_percent(used: u64, total: u64)
    ensures
        total > 0 ==> (ram_overloaded(used, total) <==> 100 * used >= 60 * total),
        total == 0 ==> (ram_overloaded(used, total) <==> used > 0),
{
}

/// RAM overload depends on the ratio alone: the same factor on the RAM in use
/// and on the total does not change it.
pub proof fn lemma_ram_overload_is_a_ratio(used: u64, total: u64, k: u64)
    requires
        k > 0,
        used * k <= u64::MAX,
        total * k <= u64::MAX,
    ensures
        ram_overloaded((used * k) as u64, (total * k) as u64) == ram_overloaded(used, total),
{
    let (u, t) = (used * k, total * k);
    assert(0 <= u && 0 <= t && (u > 0 <==> used > 0) && (100 * u >= 60 * t <==> 100 * used >= 60
        * total)) by (nonlinear_arith)
        requires
            u == used * k,
            t == total * k,
            k > 0,
            used >= 0,
            total >= 0,
    ;
}

/// The load bands in numbers: GPU readings by their binary32 patterns, where
/// `0x42480000` is 50 and `0x42a00000` is 80, and RAM by its ratio.
pub proof fn lemma_load_bands_in_numbers(stats: SystemStats)
    ensures
        overloaded(stats) <==> (0x42a0_0000 <= stats.gpu_busy_percent.bits <= 0x7f80_0000) || (
        if stats.ram_total == 0 {
            stats.ram_used > 0
        } else {
            100 * stats.ram_used >= 60 * stats.ram_total
        }),
        working(stats) <==> 0x4248_0000 <= stats.gpu_busy_percent.bits <= 0x7f80_0000,
{
    lemma_thresholds_by_bits(stats.gpu_busy_percent);
}

/// Only the GPU load and the RAM decide the mood: two snapshots that agree in
/// them are treated alike, whatever temperatures and clocks they hold.
pub proof fn lemma_only_load_drives_the_mood(
    m: Mascot,
    now: u64,
    a: SystemStats,
    b: SystemStats,
    n: usize,
)
    requires
        a.gpu_busy_percent == b.gpu_busy_percent,
        a.ram_used == b.ram_used,
        a.ram_total == b.ram_total,
    ensures
        m.next(now, a) == m.next(now, b),
        m.shown_mood(now, a) == m.shown_mood(now, b),
        m.shown_quote(now, a, n) == m.shown_quote(now, b, n),
{
}

/// Which mood a step shows, by the clock and the load: the scream while it
/// lasts or as it starts, which needs overload and 350 s since the last one's
/// end; else the silent anger under overload; else the smile from 50 % GPU load
/// on; else the idle pose, drawn anew from the generator once it is due.
pub proof fn lemma_mood_by_clock_and_load(m: Mascot, now: u64, stats: SystemStats)
    requires
        m.wf(),
        now + 10 <= u64::MAX,
    ensures
        ({
            let gpu = stats.gpu_busy_percent.bits;
            let heavy = (0x42a0_0000 <= gpu <= 0x7f80_0000) || (if stats.ram_total == 0 {
                stats.ram_used > 0
            } else {
                100 * stats.ram_used >= 60 * stats.ram_total
            });
            let screaming = now < m.quote_end_time || (heavy && now >= m.quote_end_time + 350);
            let smiling = 0x4248_0000 <= gpu <= 0x7f80_0000;
            let drawn = xorshift64(m.prng.state) % 3;
            m.shown_mood(now, stats) == if screaming {
                Mood::AngryScream
            } else if heavy {
                Mood::Angry
            } else if smiling {
                Mood::Smile
            } else if now < m.idle_timer {
                m.idle_mood
            } else if drawn == 0 {
                Mood::Normal
            } else if drawn == 1 {
                Mood::Smoke
            } else {
                Mood::Squints
            }
        }),
{
    lemma_load_bands_in_numbers(stats);
}

/// Which quote a step shows: one exactly while the mascot screams, and then the
/// one after the last, counted around, if the scream starts at this step, else
/// the same as before. The number of the quote starts again at zero beyond the
/// largest one.
pub proof fn lemma_quote_by_clock_and_load(m: Mascot, now: u64, stats: SystemStats, n: usize)
    requires
        n > 0,
        now + 10 <= u64::MAX,
    ensures
        ({
            let gpu = stats.gpu_busy_percent.bits;
            let heavy = (0x42a0_0000 <= gpu <= 0x7f80_0000) || (if stats.ram_total == 0 {
                stats.ram_used > 0
            } else {
                100 * stats.ram_used >= 60 * stats.ram_total
            });
            let starts = heavy && now >= m.quote_end_time + 350;
            let number = if m.quote_idx == usize::MAX {
                0
            } else {
                m.quote_idx + 1
            };
            &&& starts ==> m.shown_quote(now, stats, n) == Some((number % n as int) as usize)
            &&& !starts && now < m.quote_end_time ==> m.shown_quote(now, stats, n) == Some(
                (m.quote_idx as int % n as int) as usize,
            )
            &&& !starts && now >= m.quote_end_time ==> m.shown_quote(now, stats, n) is None
        }),
{
    lemma_load_bands_in_numbers(stats);
}

/// What a step changes: a scream that starts sets its end 10 s ahead and moves
/// to the next quote; a new idle pose takes two outputs of the generator, the
/// second for its 30 to 240 s; nothing else changes, ever.
pub proof fn lemma_step_changes_only_what_is_due(m: Mascot, now: u64, stats: SystemStats)
    requires
        m.wf(),
        now + 240 <= u64::MAX,
    ensures
        ({
            let gpu = stats.gpu_busy_percent.bits;
            let heavy = (0x42a0_0000 <= gpu <= 0x7f80_0000) || (if stats.ram_total == 0 {
                stats.ram_used > 0
            } else {
                100 * stats.ram_used >= 60 * stats.ram_total
            });
            let starts = heavy && now >= m.quote_end_time + 350;
            let idle = now >= m.quote_end_time && !heavy && !(0x4248_0000 <= gpu <= 0x7f80_0000);
            let next = m.next(now, stats);
            &&& next.quote_end_time == if starts {
                now + 10
            } else {
                m.quote_end_time as int
            }
            &&& next.quote_idx == if !starts {
                m.quote_idx as int
            } else if m.quote_idx == usize::MAX {
                0
            } else {
                m.quote_idx + 1
            }
            &&& idle && now >= m.idle_timer ==> {
                &&& next.prng.state == xorshift64(xorshift64(m.prng.state))
                &&& next.idle_timer == now + 30 + next.prng.state as int % 211
                &&& next.idle_mood == m.shown_mood(now, stats)
            }
            &&& !(idle && now >= m.idle_timer) ==> {
                &&& next.prng == m.prng
                &&& next.idle_timer == m.idle_timer
                &&& next.idle_mood == m.idle_mood
            }
        }),
{
    lemma_load_bands_in_numbers(stats);
}

/// The sprite names of the six moods, all different.
pub proof fn lemma_mood_names(mood: Mood)
    ensures
        mood.spec_name() == match mood {
            Mood::Normal => "normal",
            Mood::Smoke => "smoke",
            Mood::Squints => "squints",
            Mood::Smile => "smile",
            Mood::Angry => "angry",
            Mood::AngryScream => "angry_scream",
        },
{
}

/// A refresh is due exactly from one second after the last one on.
pub proof fn lemma_refresh_due_after_a_second(last_ns: u128, now_ns: u128)
    ensures
        is_due(last_ns, now_ns) <==> now_ns >= last_ns + 1_000_000_000,
{
}

} // verus!
