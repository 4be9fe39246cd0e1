use hb_high::fort::{
    count_of, imod, int_trunc, int_trunc64, nint, nint64, sign, Array1, Array2, Complex,
};
use hb_high::reals::{dyadic, largest_of, widen, Double, Single};

fn single(x: f32) -> Single {
    Single(x.to_bits())
}

fn double(x: f64) -> Double {
    Double(x.to_bits())
}

#[test]
fn array1_is_one_based() {
    let mut a = Array1::<f32>::new(3);
    a.set(1, 1.0);
    a.set(3, 3.0);
    assert_eq!(a.at(1), 1.0);
    assert_eq!(a.at(2), 0.0);
    assert_eq!(a.at(3), 3.0);
    assert_eq!(a.as_slice(), &[1.0, 0.0, 3.0]);
}

#[test]
fn array2_is_column_major() {
    let mut a = Array2::<f32>::new(2, 3);
    a.set(1, 1, 11.0);
    a.set(2, 1, 21.0);
    a.set(1, 2, 12.0);
    assert_eq!(a.as_slice()[0], 11.0);
    assert_eq!(a.as_slice()[1], 21.0);
    assert_eq!(a.as_slice()[2], 12.0);
    assert_eq!(a.cols(), 3);
    assert_eq!(a.rows(), 2);
    assert_eq!(a.at(2, 1), 21.0);
}

#[test]
fn arrays_fill_whole() {
    let mut a = Array1::filled(4, 7u8);
    assert_eq!((a.len(), a.is_empty()), (4, false));
    assert_eq!(a.as_slice(), &[7, 7, 7, 7]);
    a.as_mut_slice()[2] = 9;
    assert_eq!(a.at(3), 9);
    a.fill(1);
    assert_eq!(a.as_slice(), &[1, 1, 1, 1]);
    assert!(Array1::<u8>::new(0).is_empty());
    let mut b = Array2::<u8>::new(2, 2);
    b.fill(5);
    assert_eq!(b.as_slice(), &[5, 5, 5, 5]);
    let z = Complex::new(3, -4);
    assert_eq!((z.re, z.im), (3, -4));
}

#[test]
fn nint_rounds_half_away_from_zero() {
    assert_eq!(nint(single(0.5)), 1);
    assert_eq!(nint(single(1.5)), 2);
    assert_eq!(nint(single(2.5)), 3); // ties to even would give 2
    assert_eq!(nint(single(-0.5)), -1);
    assert_eq!(nint(single(-2.5)), -3);
}

#[test]
fn int_truncates_toward_zero() {
    assert_eq!(int_trunc(single(1.7)), 1);
    assert_eq!(int_trunc(single(-1.7)), -1); // toward zero, not floor
    assert_eq!(int_trunc(single(-0.2)), 0);
}

#[test]
fn sign_takes_magnitude_of_a_and_sign_of_b() {
    assert_eq!(sign(single(3.0), single(-1.0)), single(-3.0));
    assert_eq!(sign(single(-3.0), single(1.0)), single(3.0));
    assert_eq!(sign(single(-3.0), single(0.0)), single(3.0)); // +0 counts as positive
    assert_eq!(sign(single(3.0), single(-0.0)), single(3.0));
}

const SAMPLES: [f32; 26] = [
    0.0,
    -0.0,
    1.0,
    -1.0,
    0.49999997,
    0.5,
    0.99999994,
    1.0000001,
    1.5,
    -1.5,
    2.5,
    1234.567,
    -8388607.5,
    8388608.0,
    16777216.0,
    2147483520.0,
    2147483648.0,
    -2147483648.0,
    -2147483904.0,
    1.0e30,
    -1.0e30,
    1.0e-40,
    f32::MIN_POSITIVE,
    f32::INFINITY,
    f32::NEG_INFINITY,
    f32::NAN,
];

#[test]
fn conversions_agree_with_the_hardware() {
    for x in SAMPLES {
        assert_eq!(int_trunc(single(x)), x as i32, "{x}");
        assert_eq!(nint(single(x)), x.round() as i32, "{x}");
        assert_eq!(count_of(single(x)), x as usize, "{x}");
        let wide = x as f64;
        assert_eq!(int_trunc64(double(wide)), wide as i32, "{x}");
        assert_eq!(nint64(double(wide)), wide.round() as i32, "{x}");
        if !x.is_nan() {
            assert_eq!(widen(single(x)), double(wide), "{x}");
        }
    }
    assert_eq!(int_trunc64(double(2147483647.9)), i32::MAX);
    assert_eq!(nint64(double(-2147483648.4)), i32::MIN);
    assert_eq!(nint64(double(0.49999999999999994)), 0);
}

#[test]
fn comparisons_agree_with_the_hardware() {
    for a in SAMPLES {
        for b in SAMPLES {
            assert_eq!(single(a).is_below(single(b)), a < b, "{a} < {b}");
            assert_eq!(single(a).is_at_most(single(b)), a <= b, "{a} <= {b}");
            assert_eq!(single(a).equals(single(b)), a == b, "{a} == {b}");
            let (a, b) = (a as f64 * 1.5, b as f64 * 1.5);
            assert_eq!(double(a).is_below(double(b)), a < b, "{a} < {b}");
            assert_eq!(double(a).is_at_most(double(b)), a <= b, "{a} <= {b}");
            assert_eq!(double(a).equals(double(b)), a == b, "{a} == {b}");
        }
    }
}

#[test]
fn whole_numbers_over_powers_of_two_are_exact() {
    for n in [0u32, 1, 2, 3, 255, 65_537, 16_777_215] {
        for shift in [0u32, 1, 8, 24] {
            let want = n as f32 / (1u64 << shift) as f32;
            assert_eq!(dyadic(n, shift), single(want), "{n} / 2^{shift}");
        }
    }
}

#[test]
fn the_largest_starts_at_zero() {
    assert_eq!(largest_of(&vec![]), single(0.0));
    assert_eq!(largest_of(&vec![single(-2.0)]), single(0.0));
    let values = vec![single(1.0), single(f32::NAN), single(3.5), single(2.0)];
    assert_eq!(largest_of(&values), single(3.5));
}

#[test]
fn remainders_take_the_sign_of_the_dividend() {
    for (a, b) in [(7, 3), (-7, 3), (7, -3), (-7, -3), (6, 3), (0, 5), (i32::MIN, 2)] {
        assert_eq!(imod(a, b), a % b);
    }
}

#[test]
fn cuts_keep_order() {
    let mut sorted: Vec<f32> = SAMPLES.iter().copied().filter(|x| !x.is_nan()).collect();
    sorted.sort_by(|a, b| a.partial_cmp(b).unwrap());
    for pair in sorted.windows(2) {
        assert!(int_trunc(single(pair[0])) <= int_trunc(single(pair[1])));
    }
}

#[test]
fn constant_exponent_powers_do_not_all_fold() {
    // The exponent is kept from the optimiser, so that a genuine call is compared.
    fn power(x: f32, e: f32) -> f32 {
        std::hint::black_box(x).powf(std::hint::black_box(e))
    }
    let mut pow_recip_diff = 0;
    let mut pow_sqrt_diff = 0;
    for i in 1..=200_000u32 {
        let x = 1.0f32 + (i as f32) * 0.0001;
        if power(x, -1.0).to_bits() != (1.0f32 / x).to_bits() {
            pow_recip_diff += 1;
        }
        if power(x, 0.5).to_bits() != x.sqrt().to_bits() {
            pow_sqrt_diff += 1;
        }
    }
    assert!(
        pow_recip_diff > 0,
        "powf(x,-1.0) now agrees with 1.0/x everywhere; keep writing it as a division"
    );
    assert!(
        pow_sqrt_diff > 0,
        "powf(x,0.5) now agrees with sqrt(x) everywhere; re-check the **0.5 sites."
    );
}
