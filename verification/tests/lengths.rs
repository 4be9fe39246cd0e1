use hb_high::fft::good_length;
use hb_high::reals::Single;
use hb_high::spectrum::{power_length, PlanCache, SpectrumPlan};
use std::collections::BTreeSet;

/// What is left of `value` after dividing out every factor of 2, 3, 5 and 7.
fn rough_part(mut value: usize) -> usize {
    for factor in [2, 3, 5, 7] {
        while value % factor == 0 {
            value /= factor;
        }
    }
    value
}

#[test]
fn a_good_length_is_even_smooth_and_long_enough() {
    let candidates = (0..2000).chain((2000..300_000).step_by(97));
    for at_least in candidates {
        let length = good_length(at_least);
        assert!(
            length >= at_least.max(2),
            "good_length({at_least}) = {length} is shorter than asked for"
        );
        assert!(
            length % 2 == 0,
            "good_length({at_least}) = {length} is odd"
        );
        assert_eq!(
            rough_part(length),
            1,
            "good_length({at_least}) = {length} is not 7-smooth"
        );
    }
}

#[test]
fn the_ladder_has_four_rungs_per_octave() {
    let rungs: BTreeSet<usize> = (1024..2048).map(good_length).collect();
    assert_eq!(
        rungs.into_iter().collect::<Vec<_>>(),
        vec![1024, 1280, 1536, 1792, 2048],
        "the rungs between 1024 and 2048 moved"
    );
}

#[test]
fn the_overshoot_never_exceeds_a_quarter() {
    for at_least in (2..300_000).step_by(13) {
        let length = good_length(at_least);
        assert!(
            length as f64 <= at_least as f64 * 1.25,
            "good_length({at_least}) = {length} overshoots by more than 25%"
        );
    }
}

#[test]
fn the_one_length_that_overshoots_by_more() {
    // Three is odd and has no even rung nearer than four.
    assert_eq!(good_length(3), 4);
}

#[test]
fn a_good_length_never_exceeds_the_power_of_two() {
    for at_least in (2..200_000usize).step_by(31) {
        let length = good_length(at_least);
        let power_of_two = at_least.next_power_of_two();
        assert!(
            length <= power_of_two,
            "good_length({at_least}) = {length} exceeds {power_of_two}"
        );
    }
}

#[test]
fn a_good_length_is_the_smallest_rung() {
    for at_least in 2..20_000usize {
        let length = good_length(at_least);
        let smaller = (at_least..length).find(|candidate| {
            candidate % 2 == 0
                && [1, 3, 5, 7].contains(&(candidate >> candidate.trailing_zeros()))
        });
        assert_eq!(
            smaller, None,
            "good_length({at_least}) = {length} but {smaller:?} also qualifies"
        );
    }
}

#[test]
fn longer_windows_have_no_shorter_lengths() {
    let mut before = 0;
    for at_least in 0..5000 {
        let length = good_length(at_least);
        assert!(length >= before);
        before = length;
    }
}

/// The points of a window at a sample interval of 0.005 s.
fn points(window_s: f32) -> Single {
    Single((2.0f32 * window_s / 0.005f32).to_bits())
}

#[test]
fn a_shorter_window_gets_a_shorter_transform() {
    let mut plans = PlanCache::new();
    let short = plans.for_window(points(2.0)).np2;
    let long = plans.for_window(points(200.0)).np2;
    assert!(
        short < long,
        "a 2 s window got {short} points and a 200 s window {long}"
    );
    assert_eq!((short, long), (896, 81_920));
}

#[test]
fn the_cache_builds_one_plan_per_distinct_length() {
    let mut plans = PlanCache::new();
    assert!(plans.is_empty());
    // Many windows, few lengths.
    for step in 0..400 {
        plans.for_window(points(10.0 + step as f32 * 0.01));
    }
    assert!(
        plans.len() < 20,
        "400 nearby windows produced {} plans",
        plans.len()
    );
    // And the same window twice is free.
    let before = plans.len();
    plans.for_window(points(10.0));
    assert_eq!(plans.len(), before, "a repeated window built a second plan");
    assert!(!plans.is_empty());
}

#[test]
fn a_plans_tables_match_its_length() {
    let mut plans = PlanCache::new();
    for window_s in [0.001, 0.5, 3.0, 40.0, 175.0, 400.0] {
        let plan = plans.for_window(points(window_s));
        assert_eq!(plan.fold_count, plan.np2 / 2 + 1);
        assert_eq!(plan.np2 % 2, 0, "np2 must be even for the Hermitian mirror");
    }
}

#[test]
fn a_degenerate_window_still_gives_a_usable_plan() {
    let mut plans = PlanCache::new();
    let plan = plans.for_window(points(0.0));
    assert_eq!(plan.np2, 2);
    assert_eq!(plan.fold_count, 2);
}

#[test]
fn a_window_is_cut_to_whole_samples() {
    assert_eq!(SpectrumPlan::length_for(Single(7.9f32.to_bits())), 8);
    assert_eq!(SpectrumPlan::length_for(Single(8.0f32.to_bits())), 8);
    assert_eq!(SpectrumPlan::length_for(Single(9.0f32.to_bits())), 10);
    assert_eq!(SpectrumPlan::length_for(Single((-4.0f32).to_bits())), 2);
    assert_eq!(SpectrumPlan::length_for(Single(f32::NAN.to_bits())), 2);
}

#[test]
fn bins_mirror_about_nyquist() {
    let plan = SpectrumPlan::new(16);
    assert_eq!(plan.mirror_of(9), 7);
    assert_eq!(plan.mirror_of(15), 1);
    assert_eq!(plan.gain_of(0), 0);
    assert_eq!(plan.gain_of(8), 8);
    assert_eq!(plan.gain_of(9), 7);
    assert_eq!(plan.taper_start(), 15);
    assert_eq!(SpectrumPlan::new(100).taper_start(), 90);
}

#[test]
fn powers_of_two_are_held_to_their_limit() {
    assert_eq!(power_length(0, 262_144), Some(2));
    assert_eq!(power_length(2, 262_144), Some(2));
    assert_eq!(power_length(3, 262_144), Some(4));
    assert_eq!(power_length(1025, 262_144), Some(2048));
    assert_eq!(power_length(262_144, 262_144), Some(262_144));
    assert_eq!(power_length(262_145, 262_144), None);
}
