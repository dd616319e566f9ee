use retro_aio::mascot::{is_overloaded, Mascot, Mood, TelemetryClock};
use retro_aio::prng::Prng;
use retro_aio::single::Reading;
use retro_aio::telemetry::SystemStats;

fn stats(gpu: f32, ram_used: u64, ram_total: u64) -> SystemStats {
    SystemStats {
        cpu_temp: None,
        gpu_temp: None,
        cpu_freq_mhz: 0,
        gpu_vram_used: Reading { bits: 0 },
        gpu_busy_percent: Reading { bits: gpu.to_bits() },
        ram_used,
        ram_total,
    }
}

fn calm() -> SystemStats {
    stats(10.0, 1, 100)
}

fn busy() -> SystemStats {
    stats(95.0, 1, 100)
}

const T: u64 = 1_700_000_000;

#[test]
fn overload_thresholds() {
    assert!(is_overloaded(&stats(80.0, 1, 100)));
    assert!(!is_overloaded(&stats(79.99, 1, 100)));
    assert!(is_overloaded(&stats(0.0, 60, 100)));
    assert!(!is_overloaded(&stats(0.0, 59, 100)));
    assert!(is_overloaded(&stats(0.0, 3, 5)));
    assert!(!is_overloaded(&stats(f32::NAN, 0, 0)));
    assert!(is_overloaded(&stats(0.0, 1, 0)));
    assert!(is_overloaded(&stats(0.0, u64::MAX, u64::MAX)));
}

#[test]
fn sprite_names() {
    let names: Vec<&str> = [
        Mood::Normal,
        Mood::Smoke,
        Mood::Squints,
        Mood::Smile,
        Mood::Angry,
        Mood::AngryScream,
    ]
    .iter()
    .map(|m| m.name())
    .collect();
    assert_eq!(names, ["normal", "smoke", "squints", "smile", "angry", "angry_scream"]);
}

#[test]
fn a_scream_lasts_ten_seconds_whatever_the_load() {
    let mut m = Mascot::new(1, 5);
    let first = m.step(T, &busy(), 17);
    assert_eq!(first.mood, Mood::AngryScream);
    assert_eq!(first.quote, Some(6));
    for dt in 0..10 {
        for s in [calm(), busy(), stats(60.0, 1, 100)] {
            let a = m.step(T + dt, &s, 17);
            assert_eq!(a.mood, Mood::AngryScream);
            assert_eq!(a.quote, Some(6));
        }
    }
    let after = m.step(T + 10, &busy(), 17);
    assert_eq!(after.mood, Mood::Angry);
    assert_eq!(after.quote, None);
}

#[test]
fn the_next_scream_comes_six_minutes_later_with_the_next_quote() {
    let mut m = Mascot::new(1, 16);
    assert_eq!(m.step(T, &busy(), 17).quote, Some(0));
    for dt in 10..360 {
        assert_eq!(m.step(T + dt, &busy(), 17).mood, Mood::Angry, "{dt}");
    }
    let a = m.step(T + 360, &busy(), 17);
    assert_eq!((a.mood, a.quote), (Mood::AngryScream, Some(1)));
}

#[test]
fn screams_walk_through_the_quotes_in_turn() {
    let (first, n) = (5usize, 17usize);
    let mut m = Mascot::new(1, first);
    let mut shown = Vec::new();
    for s in 0..60 * 360u64 {
        let load = if s / 100 % 3 == 0 { calm() } else { busy() };
        let before = m.quote_idx;
        let end = m.quote_end_time;
        let a = m.step(T + s, &load, n);
        assert_eq!(m.quote_idx != before, m.quote_end_time != end);
        if m.quote_idx != before {
            shown.push(a.quote.unwrap());
        }
        if a.quote.is_some() {
            assert_eq!(a.quote, Some((first + shown.len()) % n));
        }
    }
    assert!(shown.len() > 2 * n);
    for row in shown.windows(n) {
        let mut quotes = row.to_vec();
        quotes.sort();
        assert_eq!(quotes, (0..n).collect::<Vec<usize>>());
    }
}

#[test]
fn the_quote_counter_wraps() {
    let mut m = Mascot::new(1, usize::MAX);
    assert_eq!(m.step(T, &busy(), 17).quote, Some(0));
}

#[test]
fn smile_band() {
    let mut m = Mascot::new(1, 0);
    assert_eq!(m.step(T, &stats(50.0, 1, 100), 17).mood, Mood::Smile);
    assert_eq!(m.step(T, &stats(79.9, 1, 100), 17).mood, Mood::Smile);
    assert_ne!(m.step(T, &stats(49.9, 1, 100), 17).mood, Mood::Smile);
    assert_eq!(m.idle_timer, T + {
        let mut p = Prng { state: 1 };
        p.next();
        p.range(30, 240)
    });
}

#[test]
fn idle_poses_are_kept_for_their_time() {
    let poses = [Mood::Normal, Mood::Smoke, Mood::Squints];
    let mut m = Mascot::new(12345, 0);
    let mut p = Prng { state: 12345 };
    let mut now = T;
    for _ in 0..50 {
        let pose = poses[(p.next() % 3) as usize];
        let hold = p.range(30, 240);
        assert!((30..=240).contains(&hold));
        for dt in [0, 1, hold / 2, hold - 1] {
            let a = m.step(now + dt, &calm(), 17);
            assert_eq!(a.mood, pose);
            assert_eq!(a.quote, None);
        }
        now += hold;
    }
}

#[test]
fn telemetry_refreshes_once_per_second() {
    let mut c = TelemetryClock::new();
    let t: u128 = 1_700_000_000_123_456_789;
    assert!(c.due(t));
    assert!(!c.due(t + 999_999_999));
    assert!(c.due(t + 1_000_000_000));
    assert_eq!(c.last_ns, t + 1_000_000_000);
    assert!(!c.due(t + 1_000_000_000));
}

#[test]
fn screams_start_exactly_six_minutes_after_the_latest() {
    let mut m = Mascot::new(7, 0);
    let mut latest: Option<u64> = None;
    let mut seed = Prng { state: 5 };
    let mut now = T;
    for _ in 0..20_000 {
        now += seed.next() % 4;
        let s = if seed.next() % 3 == 0 { busy() } else { calm() };
        let before = m.quote_end_time;
        m.step(now, &s, 17);
        let started = m.quote_end_time != before;
        let free = latest.is_none() || now >= latest.unwrap() + 360;
        assert_eq!(started, is_overloaded(&s) && free);
        if started {
            latest = Some(now);
        }
    }
    assert!(latest.unwrap() > T);
}

#[test]
fn an_idle_pose_survives_screams_and_smiles() {
    let mut m = Mascot::new(99, 0);
    let pose = m.step(T, &calm(), 17).mood;
    let due = m.idle_timer;
    assert!((T + 30..=T + 240).contains(&due));
    assert_eq!(m.step(T + 1, &busy(), 17).mood, Mood::AngryScream);
    assert_eq!(m.step(T + 11, &stats(60.0, 1, 100), 17).mood, Mood::Smile);
    assert_eq!(m.step(due + 5, &stats(60.0, 1, 100), 17).mood, Mood::Smile);
    assert_eq!((m.idle_timer, m.idle_mood), (due, pose));
    assert_eq!(m.step(due - 1, &calm(), 17).mood, pose);
    m.step(due, &calm(), 17);
    assert!((due + 30..=due + 240).contains(&m.idle_timer));
}
