use hb_high::bisection::{branch_velocity, Bisection, HALVINGS};
use hb_high::ray::{
    beside_interface, build_ray_path, deepest_with_thickness, Beside, Direction, Interaction,
    RayKind, RayShape, RayState, RayType, Rays, Share, Takeoff, Travel, WaveMode,
};
use hb_high::reals::{Double, Single};
use hb_high::velocity::Layer;

fn double(x: f64) -> Double {
    Double(x.to_bits())
}

fn single(x: f32) -> Single {
    Single(x.to_bits())
}

/// A model of these thicknesses, its speeds rising with depth.
fn model(thicknesses_km: &[f64]) -> Vec<Layer> {
    let mut depth_km = 0.0;
    thicknesses_km
        .iter()
        .enumerate()
        .map(|(k, &thickness_km)| {
            depth_km += thickness_km;
            Layer {
                depth_km: double(depth_km),
                thickness_km: double(thickness_km),
                vp_km_s: double(2.0 + k as f64),
                vsh_km_s: double(1.0 + k as f64),
                density_g_cm3: double(2.5),
                attenuation_p: single(200.0),
                attenuation_s: single(100.0),
            }
        })
        .collect()
}

/// Air, three layers, a half-space.
fn crust() -> Vec<Layer> {
    model(&[0.0001, 1.0, 2.0, 3.0, 0.0])
}

fn laid_out(shape: RayShape, source_layer: usize) -> Vec<usize> {
    let mut rays = Rays::default();
    rays.lay_out(&crust(), shape, source_layer, WaveMode::Sh);
    assert_eq!(rays.degeneracy, 1);
    assert_eq!(rays.segment_count(), rays.wave_modes.len());
    assert!(rays.wave_modes.iter().all(|&m| m == WaveMode::Sh));
    rays.layer_indices
}

#[test]
fn ray_codes_split_on_zero_then_parity() {
    assert_eq!(RayType::from_code(0), Some(RayType::StraightLine));
    for (code, shape) in [
        (1, RayShape::Upgoing { multiples: 0 }),
        (2, RayShape::DownToMoho { multiples: 0 }),
        (3, RayShape::Upgoing { multiples: 1 }),
        (4, RayShape::DownToMoho { multiples: 1 }),
    ] {
        assert_eq!(RayType::from_code(code), Some(RayType::Traced(shape)));
    }
    assert_eq!(RayShape::from_code(0), None, "0 is not a traced ray");
    assert_eq!(RayType::from_code(-1), None, "negative codes name nothing");
}

#[test]
fn take_off_follows_the_parity_of_the_code() {
    for code in 1..=9 {
        let shape = RayShape::from_code(code).unwrap();
        let up = code % 2 == 1;
        assert_eq!(shape.takeoff() == Takeoff::Up, up);
        assert_eq!(Takeoff::from_ray_type(code) == Takeoff::Up, up);
        assert_eq!(RayKind::of(code) == RayKind::Upgoing, up);
        assert_eq!(RayKind::of(code).trace_type(code), code);
    }
    assert_eq!(Takeoff::from_ray_type(0), Takeoff::Down);
    assert_eq!(RayKind::of(0), RayKind::StraightRay);
    assert_eq!(RayKind::of(0).trace_type(0), 1);
    assert_eq!(RayKind::of(-1), RayKind::Downgoing);
    assert_eq!(RayKind::of(-2), RayKind::Downgoing);
}

#[test]
fn modes_and_directions_survive_their_codes() {
    for mode in [WaveMode::P, WaveMode::Sv, WaveMode::Sh] {
        assert_eq!(WaveMode::from_fortran(mode.as_fortran()), mode);
        assert_eq!(mode.is_shear(), mode != WaveMode::P);
    }
    assert_eq!(Direction::from_parity(2).flipped().flipped(), Direction::from_parity(2));
    assert_ne!(Direction::from_parity(2), Direction::from_parity(3));
    assert_eq!(Direction::Up.flipped(), Direction::Down);
}

#[test]
fn the_direct_ray_rises_to_the_receiver() {
    assert_eq!(laid_out(RayShape::Upgoing { multiples: 0 }, 3), [3, 2, 1]);
    assert_eq!(laid_out(RayShape::Upgoing { multiples: 0 }, 1), [1]);
    // A source in the air is above the receiver: there is nothing to rise through.
    assert!(laid_out(RayShape::Upgoing { multiples: 0 }, 0).is_empty());
}

#[test]
fn reflected_rays_turn_above_the_half_space() {
    let down = RayShape::DownToMoho { multiples: 0 };
    assert_eq!(laid_out(down, 2), [2, 3, 3, 2, 1]);
    assert_eq!(laid_out(down, 3), [3, 3, 2, 1]);
    // From the half-space itself there is nothing to descend through.
    assert_eq!(laid_out(down, 4), [4, 3, 2, 1]);
    assert_eq!(
        laid_out(RayShape::Upgoing { multiples: 1 }, 2),
        [2, 1, 1, 2, 3, 3, 2, 1]
    );
    assert_eq!(
        laid_out(RayShape::DownToMoho { multiples: 2 }, 3),
        [3, 3, 2, 1, 1, 2, 3, 3, 2, 1, 1, 2, 3, 3, 2, 1]
    );
}

fn path(layers: Vec<usize>, degeneracy: i32, source_km: f64, receiver_km: f64) -> RayState {
    let mut state = RayState::default();
    state.rays.wave_modes = vec![WaveMode::Sh; layers.len()];
    state.rays.layer_indices = layers;
    state.rays.degeneracy = degeneracy;
    build_ray_path(&mut state, 5, double(source_km), double(receiver_km));
    state
}

#[test]
fn crossings_are_counted_by_layer_and_mode() {
    let mut state = RayState::default();
    state.rays.layer_indices = vec![2, 3, 3, 2, 1];
    state.rays.wave_modes = vec![
        WaveMode::P,
        WaveMode::Sv,
        WaveMode::Sh,
        WaveMode::Sh,
        WaveMode::P,
    ];
    state.rays.degeneracy = 1;
    let trims = build_ray_path(&mut state, 5, double(2.0), double(0.0001));
    assert_eq!(state.travel.p_traversals, [0, 1, 1, 0, 0]);
    assert_eq!(state.travel.s_traversals, [0, 0, 1, 2, 0]);
    assert_eq!(state.travel.deepest_layer, 3);
    assert_eq!(
        state.coefficients.directions,
        [
            Direction::Down,
            Direction::Down,
            Direction::Up,
            Direction::Up,
            Direction::Up
        ]
    );
    assert_eq!(
        state.coefficients.interactions,
        [
            Interaction::Transmission,
            Interaction::Reflection,
            Interaction::Transmission,
            Interaction::Transmission,
            Interaction::Transmission
        ]
    );
    assert_eq!((trims.receiver.layer, trims.receiver.shear), (1, false));
    assert_eq!(trims.receiver.share, Share::Above);
    assert_eq!((trims.source.layer, trims.source.shear), (2, false));
    assert_eq!(trims.source.share, Share::Above);
}

#[test]
fn a_ray_within_one_layer_is_direct() {
    let state = path(vec![1], 1, 0.5, 0.0001);
    assert_eq!(state.coefficients.interactions, [Interaction::Direct]);
    assert_eq!(state.coefficients.directions, [Direction::Up]);
    let state = path(vec![1], 1, 0.5, 0.7);
    assert_eq!(state.coefficients.directions, [Direction::Down]);
    // That wins over a negative degeneracy.
    let state = path(vec![1], -1, 0.5, 0.5);
    assert_eq!(state.coefficients.directions, [Direction::Down]);
}

#[test]
fn a_negative_degeneracy_sends_the_ray_up() {
    let down = path(vec![2, 3, 3, 2, 1], 1, 2.0, 0.0001);
    assert_eq!(down.coefficients.directions[0], Direction::Down);
    let up = path(vec![2, 3, 3, 2, 1], -1, 2.0, 0.0001);
    assert_eq!(up.coefficients.directions[0], Direction::Up);
}

#[test]
fn a_path_starts_from_nothing() {
    let mut travel = Travel::default();
    travel.reset_for(3);
    travel.s_traversals[1] = 9;
    travel.reset_for(2);
    assert_eq!(travel.s_traversals, [0, 0]);
    assert_eq!(travel.p_traversals, [0, 0]);
}

#[test]
fn sources_are_kept_clear_of_interfaces() {
    let beside = |depth: f64, interface: f64| {
        beside_interface(
            double(depth),
            double(interface),
            double((depth - interface).abs()),
        )
    };
    assert_eq!(beside(1.0, 2.0), Beside::Within { pull_up: false });
    assert_eq!(beside(1.99, 2.0), Beside::Within { pull_up: true });
    assert_eq!(beside(2.0, 2.0), Beside::Deeper { push_down: true });
    assert_eq!(beside(2.01, 2.0), Beside::Deeper { push_down: true });
    assert_eq!(beside(2.5, 2.0), Beside::Deeper { push_down: false });
    assert_eq!(beside(f64::NAN, 2.0), Beside::Deeper { push_down: false });
    // The clearance is that of a single: 0.02 in double precision is above it.
    assert_eq!(
        beside_interface(double(0.0), double(1.0), double(0.02f32 as f64)),
        Beside::Within { pull_up: false }
    );
    assert_eq!(
        beside_interface(double(0.0), double(1.0), double(0.01999)),
        Beside::Within { pull_up: true }
    );
}

#[test]
fn the_half_space_has_no_thickness() {
    assert_eq!(deepest_with_thickness(&crust()), 3);
    assert_eq!(deepest_with_thickness(&model(&[0.0, 0.0])), 0);
    assert_eq!(deepest_with_thickness(&vec![]), 0);
    assert_eq!(deepest_with_thickness(&model(&[1.0, 0.0, 2.0])), 2);
}

#[test]
fn the_branch_cut_is_at_the_fastest_layer_that_is_crossed() {
    let model = crust();
    let none = vec![single(0.0); 5];
    let s = vec![single(0.0), single(1.0), single(2.0), single(-0.5), single(0.0)];
    // Layer 3 is crossed a negative number of times after trimming, and does not count.
    assert_eq!(branch_velocity(&model, &none, &s, 4), double(3.0));
    assert_eq!(branch_velocity(&model, &none, &s, 1), double(2.0));
    let p = vec![single(0.0), single(1.0), single(0.0), single(0.0), single(0.0)];
    assert_eq!(branch_velocity(&model, &p, &none, 4), double(3.0));
    assert_eq!(branch_velocity(&model, &none, &none, 4), double(0.0));
}

#[test]
fn the_search_closes_in_on_the_zero() {
    // The derivative falls from positive to negative at 0.3.
    let derivative = |p: f64| 100.0 * (0.3 - p);
    assert_eq!(Bisection::start(double(0.2), double(derivative(0.2))), None);
    let mut search = Bisection::start(double(1.0), double(derivative(1.0))).unwrap();
    let mut taken = 0;
    let found = loop {
        let low = f64::from_bits(search.low.0);
        let high = f64::from_bits(search.high.0);
        assert!(low <= 0.3 && 0.3 <= high);
        let middle = (low + high) / 2.0;
        taken += 1;
        match search.halve(double(middle), double(derivative(middle))) {
            Some(next) => search = next,
            None => break middle,
        }
    };
    assert!((found - 0.3).abs() <= 1e-4);
    assert!(taken < HALVINGS);
}

#[test]
fn the_search_gives_up_in_the_end() {
    let mut search = Bisection::start(double(1.0), double(-1.0)).unwrap();
    let mut taken = 1;
    while let Some(next) = search.halve(double(0.5), double(7.0)) {
        assert_eq!(next.low, double(0.5));
        search = next;
        taken += 1;
    }
    assert_eq!(taken, HALVINGS);
    // A derivative of 0.01 is as good as zero, whatever its sign.
    let start = Bisection::start(double(1.0), double(-1.0)).unwrap();
    assert_eq!(start.halve(double(0.5), double(-0.01)), None);
    assert!(start.halve(double(0.5), double(-0.0101)).is_some());
}
