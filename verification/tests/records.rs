use hb_high::driver::{
    delayed_placement, draws_normals, given_if_positive, given_unless_negative,
    perturbs_model, record_samples,
    transform_length, DeviateCounter, RuptureTime, StressAdjustment,
};
use hb_high::reals::Single;
use hb_high::record::{interleaved_bytes, Census, Clipping, Placement, SampleGrid};

fn single(x: f32) -> Single {
    Single(x.to_bits())
}

/// The straightforward sample-at-a-time loop.
fn accumulate_reference(
    acc: &mut Vec<Vec<f32>>,
    subfault_acc: &Vec<Vec<f32>>,
    weight: f32,
    start_sample: i32,
    np2: usize,
    ndata: usize,
) {
    let kend = (start_sample + np2 as i32 - 1).min(ndata as i32);
    let mut li = start_sample;
    while li <= kend {
        if li >= 1 {
            let idx = (li - start_sample) as usize;
            let sample = li as usize - 1;
            for component in 0..acc.len() {
                acc[component][sample] += weight * subfault_acc[component][idx];
            }
        }
        li += 1;
    }
}

fn accumulate(
    acc: &mut Vec<Vec<f32>>,
    subfault_acc: &Vec<Vec<f32>>,
    weight: f32,
    at: &Placement,
) {
    for component in 0..acc.len() {
        for k in 0..at.count {
            acc[component][at.offset + k] += weight * subfault_acc[component][at.skip + k];
        }
    }
}

fn alignments(place: impl Fn(i32, usize, usize) -> Option<Placement>) {
    let np2 = 8usize;
    let ndata = 10usize;
    let subfault_acc: Vec<Vec<f32>> = (0..3)
        .map(|c| (0..np2).map(|i| (c * 100 + i + 1) as f32).collect())
        .collect();

    // Well before the record, straddling both edges, and well past the end.
    for start in -12i32..=14 {
        let mut got = vec![vec![0.0f32; ndata]; 3];
        let mut want = vec![vec![0.0f32; ndata]; 3];
        if let Some(at) = place(start, np2, ndata) {
            accumulate(&mut got, &subfault_acc, 2.0, &at);
        }
        accumulate_reference(&mut want, &subfault_acc, 2.0, start, np2, ndata);
        assert_eq!(got, want, "start_sample = {start}");
    }
}

#[test]
fn sim_accumulate_matches_the_reference_loop_at_every_alignment() {
    alignments(Placement::clip);
}

#[test]
fn record_accumulate_matches_the_reference_loop_at_every_alignment() {
    alignments(|start, np2, ndata| {
        SampleGrid {
            dt: single(0.01),
            ndata,
        }
        .place(start, np2)
    });
}

#[test]
fn a_delayed_contribution_lands_a_sample_later() {
    for start in -12i32..=14 {
        assert_eq!(delayed_placement(start, 8, 10), Placement::clip(start + 1, 8, 10));
    }
    let at = delayed_placement(3, 4, 10).unwrap();
    assert_eq!((at.skip, at.offset, at.count), (0, 3, 4));
}

#[test]
fn starts_are_two_cuts() {
    let grid = SampleGrid {
        dt: single(0.1),
        ndata: 100,
    };
    assert_eq!(grid.start_sample(single(5.9), single(3.9)), 8);
    assert_eq!(grid.start_sample(single(5.9), single(-3.9)), 2);
    assert_eq!(grid.start_sample(single(0.5), single(-10.5)), -10);
    assert!(grid.starts_after_end(101));
    assert!(!grid.starts_after_end(100));
}

#[test]
fn placements_are_clipped_at_both_ends() {
    assert_eq!(
        Placement::clip(-2, 8, 10),
        Some(Placement {
            skip: 3,
            offset: 0,
            count: 5
        })
    );
    assert_eq!(
        Placement::clip(7, 8, 10),
        Some(Placement {
            skip: 0,
            offset: 6,
            count: 4
        })
    );
    assert_eq!(Placement::clip(11, 8, 10), None);
    assert_eq!(Placement::clip(-7, 8, 10), None);
    assert_eq!(Placement::clip(i32::MIN, 8, 10), None);
    assert_eq!(Placement::clip(i32::MAX, 8, 10), None);
}

#[test]
fn censuses_add_up() {
    let mut total = Census::default();
    assert_eq!(total.useful_fraction(), (0, 1));
    let one = Census {
        pairs_attempted: 3,
        pairs_outside_record: 1,
        samples_computed: 100,
        samples_accumulated: 40,
        transform_lengths: 2,
    };
    total.absorb(one);
    total.absorb(Census {
        transform_lengths: 1,
        ..one
    });
    assert_eq!(
        total,
        Census {
            pairs_attempted: 6,
            pairs_outside_record: 2,
            samples_computed: 200,
            samples_accumulated: 80,
            transform_lengths: 2,
        }
    );
    assert_eq!(total.useful_fraction(), (80, 200));
}

#[test]
fn the_worst_overrun_is_kept() {
    let mut clipping = Clipping::default();
    assert!(clipping.is_complete());
    clipping.record_arrival(single(-1.0), single(-0.1));
    clipping.record_arrival(single(0.0), single(0.0));
    assert!(clipping.is_complete());
    clipping.record_arrival(single(5.0), single(0.5));
    clipping.record_arrival(single(2.0), single(0.2));
    assert!(!clipping.is_complete());
    assert_eq!((clipping.peaks_lost, clipping.worst_overrun_s), (2, single(0.5)));
    let mut other = Clipping {
        peaks_lost: 1,
        worst_overrun_s: single(0.7),
    };
    other.absorb(clipping);
    assert_eq!((other.peaks_lost, other.worst_overrun_s), (3, single(0.7)));
    let mut broken = Clipping {
        peaks_lost: 0,
        worst_overrun_s: single(f32::NAN),
    };
    broken.absorb(other);
    assert_eq!(broken.worst_overrun_s, single(0.7));
}

#[test]
fn output_is_component_fastest() {
    let rows: Vec<Vec<Single>> = vec![
        vec![single(1.0), single(-2.5)],
        vec![single(3.0), single(0.1)],
        vec![single(5.0), single(1e30)],
    ];
    let mut want = Vec::new();
    for sample in 0..2 {
        for row in &rows {
            want.extend_from_slice(&f32::from_bits(row[sample].0).to_le_bytes());
        }
    }
    assert_eq!(interleaved_bytes(&rows, 2), want);
    assert!(interleaved_bytes(&vec![], 0).is_empty());
}

#[test]
fn records_and_transforms_are_held_to_their_limit() {
    assert_eq!(record_samples(single(1234.9)), 1234);
    assert_eq!(record_samples(single(0.5)), 0);
    assert_eq!(record_samples(single(262_143.0)), 262_143);
    assert_eq!(record_samples(single(1.0e9)), 262_144);
    assert_eq!(record_samples(single(-1.0)), 262_144);
    assert_eq!(transform_length(single(1000.7)), Some(1024));
    assert_eq!(transform_length(single(0.0)), Some(2));
    assert_eq!(transform_length(single(262_144.0)), Some(262_144));
    assert_eq!(transform_length(single(262_145.0)), None);
}

#[test]
fn a_radiating_subfault_takes_the_next_deviate() {
    let mut counter = DeviateCounter::new();
    assert_eq!(counter.take(single(0.1)), Some(2));
    assert_eq!(counter.take(single(0.0)), None);
    assert_eq!(counter.take(single(0.1)), Some(3));
    assert!(draws_normals(single(0.0), single(0.0), single(0.1)));
    assert!(draws_normals(single(0.0), single(0.2), single(0.0)));
    assert!(draws_normals(single(0.3), single(0.0), single(0.0)));
    assert!(!draws_normals(single(0.0), single(0.0), single(-0.1)));
}

#[test]
fn the_deck_chooses_what_is_derived() {
    assert_eq!(StressAdjustment::from_code(1), StressAdjustment::Active);
    assert_eq!(StressAdjustment::from_code(2), StressAdjustment::Stable);
    assert_eq!(StressAdjustment::from_code(0), StressAdjustment::Unadjusted);
    assert_eq!(RuptureTime::chosen(single(0.0), 5), RuptureTime::Given);
    assert_eq!(
        RuptureTime::chosen(single(2.5), 5),
        RuptureTime::Derived { jittered: true }
    );
    assert_eq!(
        RuptureTime::chosen(single(2.5), 0),
        RuptureTime::Derived { jittered: false }
    );
    assert_eq!(given_if_positive(single(0.0)), None);
    assert_eq!(given_if_positive(single(6.5)), Some(single(6.5)));
    assert_eq!(given_unless_negative(single(0.0)), Some(single(0.0)));
    assert_eq!(given_unless_negative(single(-1.0)), None);
}

#[test]
fn an_air_layer_is_one_more_to_skip() {
    assert!(!perturbs_model(-99, true));
    assert!(!perturbs_model(-2, true));
    assert!(perturbs_model(-1, true));
    assert!(!perturbs_model(-1, false));
    assert!(perturbs_model(0, false));
    assert!(perturbs_model(i32::MAX, true));
}
