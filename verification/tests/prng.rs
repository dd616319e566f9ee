use retro_aio::prng::{Prng, RenderPrng};

#[test]
fn first_outputs_from_seed_one() {
    let mut p = Prng { state: 1 };
    let a = p.next();
    // 1 ^ 1<<13 = 0x2001, ^ >>7 = 0x2041, ^ <<17 = 0x40822041
    assert_eq!(a, 0x4082_2041);
    assert_eq!(p.state, a);
    let b = p.next();
    assert_eq!(b, 0x1000_4106_0C01_1441);
}

#[test]
fn both_generators_agree() {
    let mut a = Prng { state: 0xdead_beef };
    let mut b = RenderPrng { state: 0xdead_beef };
    for _ in 0..1000 {
        assert_eq!(a.next(), b.next());
    }
    assert_eq!(a.range(30, 240), b.range(30, 240));
}

#[test]
fn range_is_inclusive_and_exact() {
    let mut p = Prng { state: 1 };
    assert_eq!(p.range(30, 240), 30 + 0x4082_2041u64 % 211);
    let mut seen_min = false;
    let mut seen_max = false;
    for _ in 0..500 {
        let v = p.range(3, 5);
        assert!((3..=5).contains(&v));
        seen_min |= v == 3;
        seen_max |= v == 5;
    }
    assert!(seen_min && seen_max);
    assert_eq!(p.range(7, 7), 7);
}

#[test]
fn the_full_range_hands_out_the_drawn_value() {
    let mut p = Prng { state: 1 };
    assert_eq!(p.range(0, u64::MAX), 0x4082_2041);
    assert_eq!(p.range(1, u64::MAX), 1 + 0x1000_4106_0C01_1441);
    let mut r = RenderPrng { state: 1 };
    assert_eq!(r.range(0, u64::MAX), 0x4082_2041);
    assert_eq!(r.range(0, u64::MAX - 1), 0x1000_4106_0C01_1441);
}

#[test]
fn zero_is_a_fixed_point_and_other_seeds_never_reach_it() {
    let mut z = Prng { state: 0 };
    assert_eq!(z.next(), 0);
    let mut p = Prng { state: 42 };
    for _ in 0..10_000 {
        assert_ne!(p.next(), 0);
    }
}

#[test]
fn different_states_step_to_different_states() {
    let mut seen = Vec::new();
    for s in 0..2000u64 {
        let mut p = RenderPrng { state: s };
        seen.push(p.next());
    }
    seen.sort();
    seen.dedup();
    assert_eq!(seen.len(), 2000);
}
