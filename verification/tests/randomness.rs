use hb_high::reals::Single;
use hb_high::rng::{
    cone_draws, mix64, nonzero_uniform, normal_draws, predraw, ray_stream_seed, seed_and_predraw,
    splitmix_finalise, substream_seed, unit_interval_from, DrawSource, Draws, FixtureDraws,
    LegacyPcg, Pcg, Pcg32, SourceKind, SEED_WORDS,
};
use rand_core::{Rng, SeedableRng};
use std::collections::HashSet;

fn value(s: Single) -> f32 {
    f32::from_bits(s.0)
}

#[test]
fn seed_mutates_irand_by_seed_words() {
    let (_, irand) = Pcg32::seed(0);
    assert_eq!(irand, SEED_WORDS);
    let (_, irand) = Pcg32::seed(-3);
    assert_eq!(
        irand, 5,
        "a small negative seed becomes positive, which turns the jitter on"
    );
}

#[test]
fn rand_numb_stays_in_unit_interval() {
    let (mut g, _) = Pcg32::seed(123456789);
    for _ in 0..100_000 {
        let u = value(g.uniform());
        assert!((0.0..1.0).contains(&u), "uniform returned {u}");
    }
}

#[test]
fn normal_random_number_draw_count() {
    for nr in [1usize, 2, 3, 4, 7, 8] {
        let (mut a, _) = Pcg32::seed(7);
        let pairs = normal_draws(&mut a, nr, 1000).unwrap();
        assert_eq!(pairs.len(), nr.div_ceil(2));

        let (mut b, _) = Pcg32::seed(7);
        for _ in 0..2 * nr.div_ceil(2) {
            b.uniform();
        }
        assert_eq!(
            a.next_u32(),
            b.next_u32(),
            "nr={nr}: stream position diverged"
        );
    }
}

#[test]
fn the_block_form_draw_count_is_fixed() {
    for count in [1usize, 2, 3, 4, 7, 8] {
        let mut driven = LegacyPcg::seed(7);
        normal_draws(&mut driven, count, 1000).unwrap();

        let mut by_hand = LegacyPcg::seed(7);
        for _ in 0..2 * count.div_ceil(2) {
            by_hand.uniform();
        }
        assert_eq!(
            driven.next_u32(),
            by_hand.next_u32(),
            "count={count}: stream position diverged"
        );
    }
}

#[test]
fn the_uniform_sequence_is_frozen() {
    let mut fixture = FixtureDraws::seed(20260807);
    let drawn: Vec<u32> = (0..6).map(|_| fixture.uniform().0).collect();
    assert_eq!(
        drawn,
        vec![1047616700, 1063987193, 1031711536, 1052079132, 1064334156, 1029383216],
        "the frozen uniform sequence moved"
    );
}

#[test]
fn a_uniform_and_a_word_cost_the_same_advance() {
    let mut through_uniform = FixtureDraws::seed(5);
    let mut through_word = FixtureDraws::seed(5);
    through_uniform.uniform();
    through_word.draw();
    assert_eq!(
        through_uniform.next_word(),
        through_word.next_word(),
        "the two paths advanced the state differently"
    );
}

#[test]
fn every_source_stays_in_the_unit_interval() {
    let mut legacy = LegacyPcg::seed(123_456_789);
    let mut modern = Pcg::seed(123_456_789);
    let mut fixture = FixtureDraws::seed(123_456_789);
    for _ in 0..100_000 {
        for value in [
            value(legacy.uniform()),
            value(modern.uniform()),
            value(fixture.uniform()),
        ] {
            assert!((0.0..1.0).contains(&value), "uniform returned {value}");
        }
    }
}

fn replays<D: Draws>(build: impl Fn() -> D) {
    let (mut first, mut second) = (build(), build());
    for _ in 0..1_000 {
        assert_eq!(first.uniform(), second.uniform());
        assert_eq!(
            normal_draws(&mut first, 1, 100).unwrap(),
            normal_draws(&mut second, 1, 100).unwrap()
        );
    }
}

#[test]
fn every_source_replays_from_its_seed() {
    replays(|| LegacyPcg::seed(4242));
    replays(|| Pcg::seed(4242));
    replays(|| FixtureDraws::seed(4242));
}

#[test]
fn distinct_seeds_give_distinct_streams() {
    let edges = [i32::MIN, -100, -1, 0, 1, 7, 123_456, i32::MAX - 8, i32::MAX - 1, i32::MAX];
    for seed in edges {
        let mut a = LegacyPcg::seed(seed);
        let mut b = LegacyPcg::seed(seed.wrapping_add(1));
        let differs: Vec<bool> = (0..32).map(|_| a.next_u32() != b.next_u32()).collect();
        assert!(differs[13], "seeds from {seed} on agree in word 13");
    }
}

#[test]
fn the_largest_seed_folds_the_integers_after_it() {
    let mut largest = LegacyPcg::seed(i32::MAX);
    assert_eq!(largest.next_u32(), 0xf318_5eba);
    assert_eq!(largest.next_u32(), 0xb007_afbb);
}

#[test]
fn the_production_seed_is_expanded() {
    let words = |seed: u64| {
        let mut source = Pcg::seed(seed);
        [source.draw(), source.draw()]
    };
    assert_eq!(words(0), [0x11cd_d903, 0xfc84_3fd7]);
    assert_eq!(words(4242), [0xe636_c99c, 0x1669_a03b]);
    assert_eq!(words(u64::MAX), [0x982f_997e, 0x513d_a686]);
}

#[test]
fn the_production_source_is_the_outside_generator() {
    for seed in [0u64, 1, 4242, u64::MAX] {
        let mut want = rand_pcg::Lcg64Xsh32::seed_from_u64(seed);
        let mut got = Pcg::seed(seed);
        let mut spawned = Pcg::from_seed(seed);
        for _ in 0..100 {
            let word = want.next_u32();
            assert_eq!(got.draw(), word);
            assert_eq!(spawned.draw(), word);
        }
    }
    // Its words are not those of the seed handed back.
    assert_ne!(Pcg::seed(7).draw(), 7);
}

#[test]
fn a_generator_with_a_given_state_makes_the_same_words() {
    // The outside generator, started as its own state and stream say, agrees with one that is
    // stepped by hand.
    let mut outside = rand_pcg::Lcg64Xsh32::new(42, 54);
    let first: Vec<u32> = (0..3).map(|_| outside.next_u32()).collect();
    assert_eq!(first, [0xa15c02b7, 0x7b47f409, 0xba1d3330]);
}

#[test]
fn deviates_are_the_top_bits_of_a_word() {
    for word in [0u32, 255, 256, 0x8000_0000, 0xffff_ffff, 0x1234_5678] {
        assert_eq!(
            value(unit_interval_from(word)),
            (word >> 8) as f32 / 16_777_216.0
        );
    }
}

#[test]
fn the_mix_is_that_of_splitmix() {
    // The first three words of a counter that starts at zero.
    let gamma = 0x9E37_79B9_7F4A_7C15u64;
    assert_eq!(splitmix_finalise(gamma), 0xe220a8397b1dcdaf);
    assert_eq!(splitmix_finalise(gamma.wrapping_mul(2)), 0x6e789e6aa1b965f4);
    assert_eq!(mix64(gamma.wrapping_mul(3)), 0x06c45d188009454f);
    assert_eq!(mix64(0), 0);
}

#[test]
fn streams_do_not_collide() {
    let mut seen = HashSet::new();
    for subfault in 0..2000 {
        assert!(seen.insert(substream_seed(42, 3, subfault)));
    }
    let mut seen = HashSet::new();
    for segment in 0..2000 {
        assert!(seen.insert(substream_seed(42, segment, 17)));
    }
    let subfault = substream_seed(42, 0, 0);
    let mut seen = HashSet::new();
    for ray in 0..2000 {
        assert!(seen.insert(ray_stream_seed(subfault, ray)));
    }
    assert_ne!(substream_seed(42, 0, 0), substream_seed(43, 0, 0));
}

#[test]
fn pre_draws_are_two_blocks_in_a_row() {
    let mut all = FixtureDraws::seed(9);
    let words: Vec<Single> = (0..7).map(|_| all.uniform()).collect();
    let (a, b) = predraw(&mut FixtureDraws::seed(9), 3);
    assert_eq!(a, words[..3]);
    assert_eq!(b, words[3..6]);
    let (mut rest, a, b) = seed_and_predraw::<FixtureDraws>(9, 3);
    assert_eq!((a, b), (words[..3].to_vec(), words[3..6].to_vec()));
    assert_eq!(rest.uniform(), words[6]);
    let mut filled = vec![Single(0); 5];
    FixtureDraws::seed(9).fill_uniform(&mut filled);
    assert_eq!(filled, words[..5]);
}

#[test]
fn a_direction_takes_five_words() {
    let mut all = FixtureDraws::seed(11);
    let words: Vec<Single> = (0..11).map(|_| all.uniform()).collect();
    let mut rng = FixtureDraws::seed(11);
    let drawn = cone_draws(&mut rng, 2);
    assert_eq!(drawn.len(), 2);
    assert_eq!(drawn[0].takeoff, words[0]);
    assert_eq!(drawn[0].azimuth, words[1]);
    assert_eq!(drawn[0].strike, words[2]);
    assert_eq!(drawn[0].dip, words[3]);
    assert_eq!(drawn[0].rake, words[4]);
    assert_eq!(drawn[1].takeoff, words[5]);
    assert_eq!(rng.uniform(), words[10]);
}

#[test]
fn normals_are_made_from_pairs() {
    let mut all = FixtureDraws::seed(13);
    let words: Vec<Single> = (0..5).map(|_| all.uniform()).collect();
    let mut rng = FixtureDraws::seed(13);
    let pairs = normal_draws(&mut rng, 3, 10).unwrap();
    assert_eq!((pairs[0].radius, pairs[0].angle), (words[0], words[1]));
    assert_eq!((pairs[1].radius, pairs[1].angle), (words[2], words[3]));
    assert_eq!(rng.uniform(), words[4]);
    // Without patience there is no deviate.
    assert!(normal_draws(&mut rng, 1, 0).is_none());
    assert!(nonzero_uniform(&mut rng, 0).is_none());
    assert!(value(nonzero_uniform(&mut rng, 5).unwrap()) > 0.0);
}

#[test]
fn runs_choose_their_source() {
    assert_eq!(SourceKind::chosen(true, true), SourceKind::Fixture);
    assert_eq!(SourceKind::chosen(true, false), SourceKind::Fixture);
    assert_eq!(SourceKind::chosen(false, true), SourceKind::Legacy);
    assert_eq!(SourceKind::chosen(false, false), SourceKind::Modern);

    let (mut legacy, jitter) = DrawSource::for_run(-3, SourceKind::Legacy);
    assert!(jitter);
    assert_eq!(legacy.uniform(), LegacyPcg::seed(-3).uniform());
    assert!(!DrawSource::for_run(-8, SourceKind::Legacy).1);
    let (mut fixture, jitter) = DrawSource::for_run(-100, SourceKind::Fixture);
    assert!(jitter);
    assert_eq!(fixture.uniform(), FixtureDraws::seed(-100).uniform());
    let (mut modern, jitter) = DrawSource::for_run(-100, SourceKind::Modern);
    assert!(jitter);
    assert_eq!(modern.uniform(), Pcg::seed(-100i64 as u64).uniform());
}
