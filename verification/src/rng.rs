//! Where the randomness comes from: word streams, their seeds, and what is drawn from them.
//!
//! A draw source is a stream of 32-bit words that is a function of its seed. A uniform deviate
//! is the top 24 bits of one word over `2^24`; nothing else is ever taken from a word, so every
//! quantity of randomness is a position in a stream.
//!
//! Each station has a stream, and so has each subfault and each ray of a subfault. The seed of
//! such a stream is formed from what it belongs to, never from the order it is walked in.

use vstd::arithmetic::div_mod::*;
use vstd::arithmetic::power2::*;
use vstd::prelude::*;

use crate::reals;
use crate::reals::Single;

verus! {

/// `2^64`, what a word of state wraps at.
pub open spec fn states() -> int {
    0x1_0000_0000_0000_0000
}

// ---------------------------------------------------------------------------
// Seeds
// ---------------------------------------------------------------------------

/// SplitMix64's increment: the golden-ratio odd constant.
pub const SPLITMIX_GAMMA: u64 = 0x9E37_79B9_7F4A_7C15;

/// The first multiplier of SplitMix64's finalising mix.
pub const SPLITMIX_A: u64 = 0xBF58_476D_1CE4_E5B9;

/// The second multiplier of SplitMix64's finalising mix.
pub const SPLITMIX_B: u64 = 0x94D0_49BB_1331_11EB;

/// `a * b`, modulo `2^64`.
pub open spec fn product(a: u64, b: u64) -> u64 {
    ((a * b) % states()) as u64
}

/// SplitMix64's finalising mix (Steele et al. 2014).
pub open spec fn mixed(z: u64) -> u64 {
    let a = product(z ^ (z >> 30), SPLITMIX_A);
    let b = product(a ^ (a >> 27), SPLITMIX_B);
    b ^ (b >> 31)
}

/// SplitMix64's finalising mix.
pub fn splitmix_finalise(z: u64) -> (r: u64)
    ensures
        r == mixed(z),
{
    let a: u64 = (z ^ (z >> 30)).wrapping_mul(SPLITMIX_A);
    let b: u64 = (a ^ (a >> 27)).wrapping_mul(SPLITMIX_B);
    b ^ (b >> 31)
}

/// [`splitmix_finalise`], under its short name.
pub fn mix64(z: u64) -> (r: u64)
    ensures
        r == mixed(z),
{
    splitmix_finalise(z)
}

/// The seed of a subfault's stream: a function of the station's seed, the segment and the
/// position in the segment's grid.
pub open spec fn subfault_seed(station_seed: u64, segment: u64, subfault: u64) -> u64 {
    mixed(mixed(station_seed ^ product(segment, SPLITMIX_GAMMA)) ^ subfault)
}

/// The seed of one subfault's own stream.
pub fn substream_seed(station_seed: u64, segment: usize, subfault: usize) -> (r: u64)
    ensures
        r == subfault_seed(station_seed, segment as u64, subfault as u64),
{
    let s: u64 = splitmix_finalise(station_seed ^ (segment as u64).wrapping_mul(SPLITMIX_GAMMA));
    splitmix_finalise(s ^ (subfault as u64))
}

/// The seed of a ray's stream within a subfault. It starts from the subfault's seed, so that a
/// ray is numbered within the subfault it leaves.
pub open spec fn ray_seed(subfault_seed: u64, ray: u64) -> u64 {
    mixed(subfault_seed ^ product(((ray + 1) % states()) as u64, SPLITMIX_GAMMA))
}

/// The seed of one ray's stream within a subfault.
pub fn ray_stream_seed(subfault_seed: u64, ray: usize) -> (r: u64)
    ensures
        r == ray_seed(subfault_seed, ray as u64),
{
    let number: u64 = (ray as u64).wrapping_add(1);
    proof {
        if ray as u64 == u64::MAX {
            lemma_fundamental_div_mod_converse(ray + 1, states(), 1, 0);
        } else {
            lemma_small_mod((ray + 1) as nat, states() as nat);
        }
    }
    splitmix_finalise(subfault_seed ^ number.wrapping_mul(SPLITMIX_GAMMA))
}

/// A product with an odd constant comes back by a product with its inverse.
proof fn product_comes_back(a: u64, k: u64, inverse: u64)
    requires
        (k * inverse) % states() == 1,
    ensures
        product(product(a, k), inverse) == a,
{
    let p = (a * k) % states();
    lemma_mul_mod_noop_left(a * k, inverse as int, states());
    assert((a * k) * inverse == a * (k * inverse)) by (nonlinear_arith);
    lemma_mul_mod_noop_right(a as int, k * inverse, states());
    assert((a * 1) % states() == a) by {
        lemma_small_mod(a as nat, states() as nat);
    }
    assert(0 <= p < states());
}

/// A shifted exclusive or loses nothing.
proof fn shifted_xor_is_one_to_one(a: u64, b: u64)
    ensures
        a ^ (a >> 30) == b ^ (b >> 30) ==> a == b,
        a ^ (a >> 27) == b ^ (b >> 27) ==> a == b,
        a ^ (a >> 31) == b ^ (b >> 31) ==> a == b,
{
    assert(a ^ (a >> 30) == b ^ (b >> 30) ==> a == b) by (bit_vector);
    assert(a ^ (a >> 27) == b ^ (b >> 27) ==> a == b) by (bit_vector);
    assert(a ^ (a >> 31) == b ^ (b >> 31) ==> a == b) by (bit_vector);
}

/// The mix is one-to-one: distinct inputs stay distinct, so that no two streams are handed one
/// seed by a collision in it.
pub proof fn mix_is_one_to_one(a: u64, b: u64)
    ensures
        mixed(a) == mixed(b) <==> a == b,
{
    assert((SPLITMIX_A * 0x96de_1b17_3f11_9089u64) % states() == 1) by (nonlinear_arith);
    assert((SPLITMIX_B * 0x3196_42b2_d24d_8ec3u64) % states() == 1) by (nonlinear_arith);
    let (a1, b1) = (a ^ (a >> 30), b ^ (b >> 30));
    let (a2, b2) = (product(a1, SPLITMIX_A), product(b1, SPLITMIX_A));
    let (a3, b3) = (a2 ^ (a2 >> 27), b2 ^ (b2 >> 27));
    let (a4, b4) = (product(a3, SPLITMIX_B), product(b3, SPLITMIX_B));
    shifted_xor_is_one_to_one(a, b);
    product_comes_back(a1, SPLITMIX_A, 0x96de_1b17_3f11_9089);
    product_comes_back(b1, SPLITMIX_A, 0x96de_1b17_3f11_9089);
    shifted_xor_is_one_to_one(a2, b2);
    product_comes_back(a3, SPLITMIX_B, 0x3196_42b2_d24d_8ec3);
    product_comes_back(b3, SPLITMIX_B, 0x3196_42b2_d24d_8ec3);
    shifted_xor_is_one_to_one(a4, b4);
}

/// Multiplying by SplitMix64's increment is one-to-one.
proof fn gamma_is_one_to_one(a: u64, b: u64)
    ensures
        product(a, SPLITMIX_GAMMA) == product(b, SPLITMIX_GAMMA) <==> a == b,
{
    assert((SPLITMIX_GAMMA * 0xf1de_83e1_9937_733du64) % states() == 1) by (nonlinear_arith);
    product_comes_back(a, SPLITMIX_GAMMA, 0xf1de_83e1_9937_733d);
    product_comes_back(b, SPLITMIX_GAMMA, 0xf1de_83e1_9937_733d);
}

/// Two subfaults of one segment never share a stream, nor do subfaults at one position of two
/// segments, nor one subfault seen from two stations.
pub proof fn subfaults_have_streams_of_their_own(
    station: u64,
    other_station: u64,
    segment: u64,
    other_segment: u64,
    subfault: u64,
    other_subfault: u64,
)
    ensures
        subfault_seed(station, segment, subfault) == subfault_seed(
            station,
            segment,
            other_subfault,
        ) <==> subfault == other_subfault,
        subfault_seed(station, segment, subfault) == subfault_seed(
            station,
            other_segment,
            subfault,
        ) <==> segment == other_segment,
        subfault_seed(station, segment, subfault) == subfault_seed(
            other_station,
            segment,
            subfault,
        ) <==> station == other_station,
{
    let (g, h) = (product(segment, SPLITMIX_GAMMA), product(other_segment, SPLITMIX_GAMMA));
    gamma_is_one_to_one(segment, other_segment);
    let (x, y, z) = (mixed(station ^ g), mixed(station ^ h), mixed(other_station ^ g));
    mix_is_one_to_one(x ^ subfault, x ^ other_subfault);
    mix_is_one_to_one(x ^ subfault, y ^ subfault);
    mix_is_one_to_one(x ^ subfault, z ^ subfault);
    mix_is_one_to_one(station ^ g, station ^ h);
    mix_is_one_to_one(station ^ g, other_station ^ g);
    xor_is_one_to_one(x, subfault, other_subfault);
    xor_is_one_to_one(subfault, x, y);
    xor_is_one_to_one(subfault, x, z);
    xor_is_one_to_one(station, g, h);
    xor_is_one_to_one(g, station, other_station);
}

/// An exclusive or with a fixed word, on either side, is one-to-one.
proof fn xor_is_one_to_one(fixed: u64, a: u64, b: u64)
    ensures
        fixed ^ a == fixed ^ b <==> a == b,
        a ^ fixed == b ^ fixed <==> a == b,
{
    assert(fixed ^ a == fixed ^ b <==> a == b) by (bit_vector);
    assert(a ^ fixed == b ^ fixed <==> a == b) by (bit_vector);
}

/// Two rays of one subfault never share a stream, nor does a ray number of two subfaults.
pub proof fn rays_have_streams_of_their_own(subfault: u64, other: u64, ray: u64, other_ray: u64)
    ensures
        ray_seed(subfault, ray) == ray_seed(subfault, other_ray) <==> ray == other_ray,
        ray_seed(subfault, ray) == ray_seed(other, ray) <==> subfault == other,
{
    let (m, n) = (((ray + 1) % states()) as u64, ((other_ray + 1) % states()) as u64);
    assert(m == n <==> ray == other_ray);
    gamma_is_one_to_one(m, n);
    let (g, h) = (product(m, SPLITMIX_GAMMA), product(n, SPLITMIX_GAMMA));
    mix_is_one_to_one(subfault ^ g, subfault ^ h);
    mix_is_one_to_one(subfault ^ g, other ^ g);
    xor_is_one_to_one(subfault, g, h);
    xor_is_one_to_one(g, subfault, other);
}

/// A segment is a station of its own: what two segments of one station draw from, one and the same
/// segment of two stations draws from, whose seeds differ as the two segments do. Exchanging
/// positions never has that effect.
pub proof fn segments_act_as_stations(
    station: u64,
    segment: u64,
    other_segment: u64,
    subfault: u64,
)
    ensures
        subfault_seed(station, segment, subfault) == subfault_seed(
            station ^ product(segment, SPLITMIX_GAMMA) ^ product(other_segment, SPLITMIX_GAMMA),
            other_segment,
            subfault,
        ),
{
    let (g, h) = (product(segment, SPLITMIX_GAMMA), product(other_segment, SPLITMIX_GAMMA));
    assert((station ^ g ^ h) ^ h == station ^ g) by (bit_vector);
}

/// When two subfaults share a stream, whatever their stations, segments and positions: just where
/// their positions differ by what the mix makes of their stations and segments. So at most one
/// position of a segment shares a stream with a given subfault of another.
pub proof fn when_subfaults_share_a_stream(
    station: u64,
    segment: u64,
    subfault: u64,
    other_station: u64,
    other_segment: u64,
    other_subfault: u64,
)
    ensures
        subfault_seed(station, segment, subfault) == subfault_seed(
            other_station,
            other_segment,
            other_subfault,
        ) <==> subfault ^ other_subfault == mixed(
            station ^ product(segment, SPLITMIX_GAMMA),
        ) ^ mixed(other_station ^ product(other_segment, SPLITMIX_GAMMA)),
{
    let x = mixed(station ^ product(segment, SPLITMIX_GAMMA));
    let y = mixed(other_station ^ product(other_segment, SPLITMIX_GAMMA));
    let (i, j) = (subfault, other_subfault);
    mix_is_one_to_one(x ^ i, y ^ j);
    assert(x ^ i == y ^ j <==> i ^ j == x ^ y) by (bit_vector);
}

/// [`mixed`], its products as the low bits of whole products.
spec fn mixed_bits(z: u64) -> u64 {
    let a = ((z ^ (z >> 30)) * 0xBF58_476D_1CE4_E5B9u64) as u64;
    let b = ((a ^ (a >> 27)) * 0x94D0_49BB_1331_11EBu64) as u64;
    b ^ (b >> 31)
}

/// The low bits of a whole product are the product modulo `2^64`.
proof fn low_bits_of_products(a: u64, b: u64)
    ensures
        (a * b) as u64 == product(a, b),
{
    assert((a * b) as u64 == (a * b) % 0x1_0000_0000_0000_0000) by (bit_vector);
}

/// [`mixed_bits`] is the mix.
proof fn mixed_bits_are_mixed(z: u64)
    ensures
        mixed_bits(z) == mixed(z),
{
    low_bits_of_products(z ^ (z >> 30), SPLITMIX_A);
    let a = product(z ^ (z >> 30), SPLITMIX_A);
    low_bits_of_products(a ^ (a >> 27), SPLITMIX_B);
}

/// Sixteen stations of sixteen segments each: what the mix makes of two segments of a station
/// differs above the low 32 bits.
#[verifier::rlimit(80)]
#[verifier::spinoff_prover]
proof fn mixed_segments_differ_high_up(station: u64, a: u64, b: u64)
    requires
        b < a < 16,
        station < 16,
    ensures
        mixed(station ^ product(a, SPLITMIX_GAMMA)) ^ mixed(station ^ product(b, SPLITMIX_GAMMA))
            >= 0x1_0000_0000,
{
    low_bits_of_products(a, SPLITMIX_GAMMA);
    low_bits_of_products(b, SPLITMIX_GAMMA);
    mixed_bits_are_mixed(station ^ product(a, SPLITMIX_GAMMA));
    mixed_bits_are_mixed(station ^ product(b, SPLITMIX_GAMMA));
    assert(b < a < 16 && station < 16 ==> mixed_bits(
        station ^ ((a * 0x9E37_79B9_7F4A_7C15u64) as u64),
    ) ^ mixed_bits(station ^ ((b * 0x9E37_79B9_7F4A_7C15u64) as u64)) >= 0x1_0000_0000)
        by (bit_vector);
}

/// The subfaults of an ordinary rupture have streams of their own: in ruptures of up to sixteen
/// segments, with grids of fewer than `2^32` subfaults and at the first sixteen stations, two
/// subfaults share a stream only if they are one and the same, in segment and in position.
pub proof fn ordinary_subfaults_keep_apart(
    station: u64,
    segment: u64,
    subfault: u64,
    other_segment: u64,
    other_subfault: u64,
)
    requires
        station < 16,
        segment < 16,
        other_segment < 16,
        subfault < 0x1_0000_0000,
        other_subfault < 0x1_0000_0000,
    ensures
        subfault_seed(station, segment, subfault) == subfault_seed(
            station,
            other_segment,
            other_subfault,
        ) <==> segment == other_segment && subfault == other_subfault,
{
    let (i, j) = (subfault, other_subfault);
    when_subfaults_share_a_stream(station, segment, i, station, other_segment, j);
    let x = mixed(station ^ product(segment, SPLITMIX_GAMMA));
    let y = mixed(station ^ product(other_segment, SPLITMIX_GAMMA));
    assert(i < 0x1_0000_0000 && j < 0x1_0000_0000 ==> i ^ j < 0x1_0000_0000) by (bit_vector);
    assert(x ^ y == y ^ x && x ^ x == 0 && (i ^ j == 0 <==> i == j)) by (bit_vector);
    if other_segment < segment {
        mixed_segments_differ_high_up(station, segment, other_segment);
    } else if segment < other_segment {
        mixed_segments_differ_high_up(station, other_segment, segment);
    }
}

/// What the mix makes of two of sixteen segments differs by one thing at one station and by
/// another at another.
#[verifier::rlimit(40)]
#[verifier::spinoff_prover]
proof fn mixed_segments_differ_variously(a: u64, b: u64)
    requires
        b < a < 16,
    ensures
        ({
            let (g, h) = (product(a, SPLITMIX_GAMMA), product(b, SPLITMIX_GAMMA));
            mixed(g ^ g) ^ mixed(g ^ h) != mixed((g ^ 1) ^ g) ^ mixed((g ^ 1) ^ h)
        }),
{
    let (g, h) = (product(a, SPLITMIX_GAMMA), product(b, SPLITMIX_GAMMA));
    low_bits_of_products(a, SPLITMIX_GAMMA);
    low_bits_of_products(b, SPLITMIX_GAMMA);
    mixed_bits_are_mixed(g ^ g);
    mixed_bits_are_mixed(g ^ h);
    mixed_bits_are_mixed((g ^ 1) ^ g);
    mixed_bits_are_mixed((g ^ 1) ^ h);
    assert(b < a < 16 ==> {
        let g = (a * 0x9E37_79B9_7F4A_7C15u64) as u64;
        let h = (b * 0x9E37_79B9_7F4A_7C15u64) as u64;
        mixed_bits(g ^ g) ^ mixed_bits(g ^ h) != mixed_bits((g ^ 1) ^ g) ^ mixed_bits((g ^ 1) ^ h)
    }) by (bit_vector);
}

/// No two subfaults of a rupture of up to sixteen segments share their streams as a rule: wherever
/// they stand, some station tells them apart.
pub proof fn some_station_tells_subfaults_apart(
    segment: u64,
    subfault: u64,
    other_segment: u64,
    other_subfault: u64,
)
    requires
        segment < 16,
        other_segment < 16,
        segment != other_segment || subfault != other_subfault,
    ensures
        exists|station: u64| #[trigger]
            subfault_seed(station, segment, subfault) != subfault_seed(
                station,
                other_segment,
                other_subfault,
            ),
{
    let (a, b) = if other_segment < segment {
        (segment, other_segment)
    } else {
        (other_segment, segment)
    };
    let g = product(a, SPLITMIX_GAMMA);
    let h = product(b, SPLITMIX_GAMMA);
    when_subfaults_share_a_stream(g, segment, subfault, g, other_segment, other_subfault);
    when_subfaults_share_a_stream(
        g ^ 1,
        segment,
        subfault,
        g ^ 1,
        other_segment,
        other_subfault,
    );
    let (p, q) = (mixed(g ^ g), mixed(g ^ h));
    let (r, t) = (mixed((g ^ 1) ^ g), mixed((g ^ 1) ^ h));
    assert(p ^ q == q ^ p) by (bit_vector);
    assert(r ^ t == t ^ r) by (bit_vector);
    if segment != other_segment {
        mixed_segments_differ_variously(a, b);
        if subfault_seed(g, segment, subfault) == subfault_seed(
            g,
            other_segment,
            other_subfault,
        ) {
            assert(subfault_seed(g ^ 1, segment, subfault) != subfault_seed(
                g ^ 1,
                other_segment,
                other_subfault,
            ));
        }
    } else {
        subfaults_have_streams_of_their_own(
            g,
            g,
            segment,
            segment,
            subfault,
            other_subfault,
        );
    }
}

/// When two streams at one position are one and the same: just where the stations' seeds differ by
/// what the segments differ by.
pub proof fn when_positions_share_a_stream(
    station: u64,
    segment: u64,
    other_station: u64,
    other_segment: u64,
    subfault: u64,
)
    ensures
        subfault_seed(station, segment, subfault) == subfault_seed(
            other_station,
            other_segment,
            subfault,
        ) <==> station ^ other_station == product(segment, SPLITMIX_GAMMA) ^ product(
            other_segment,
            SPLITMIX_GAMMA,
        ),
{
    let (g, h) = (product(segment, SPLITMIX_GAMMA), product(other_segment, SPLITMIX_GAMMA));
    let (x, y) = (mixed(station ^ g), mixed(other_station ^ h));
    mix_is_one_to_one(x ^ subfault, y ^ subfault);
    xor_is_one_to_one(subfault, x, y);
    mix_is_one_to_one(station ^ g, other_station ^ h);
    assert(station ^ g == other_station ^ h <==> station ^ other_station == g ^ h)
        by (bit_vector);
}

/// Products of up to 4096 numbers with SplitMix64's increment keep at least `2^32` apart, round the
/// wrap at `2^64` too.
proof fn gamma_keeps_apart(a: u64, b: u64)
    requires
        b < a < 4096,
    ensures
        product(a, SPLITMIX_GAMMA) ^ product(b, SPLITMIX_GAMMA) >= 0x1_0000_0000,
{
    let (d, n, gamma) = ((a - b) as u64, states(), SPLITMIX_GAMMA as int);
    let (x, y) = (product(a, SPLITMIX_GAMMA), product(b, SPLITMIX_GAMMA));
    assert(1 <= d < 4096 ==> {
        let p = (d * 0x9E37_79B9_7F4A_7C15u64) % 0x1_0000_0000_0000_0000;
        0x1_0000_0000 <= p <= 0xFFFF_FFFF_0000_0000
    }) by (bit_vector);
    assert((x - y) % n == (d * gamma) % n) by {
        assert(a * gamma - b * gamma == d * gamma) by (nonlinear_arith)
            requires
                d == a - b,
        ;
        lemma_sub_mod_noop(a * gamma, b * gamma, n);
    }
    if x ^ y < 0x1_0000_0000 {
        assert(x ^ y < 0x1_0000_0000 ==> -0x1_0000_0000 < x - y < 0x1_0000_0000) by (bit_vector);
        if x >= y {
            lemma_small_mod((x - y) as nat, n as nat);
        } else {
            lemma_fundamental_div_mod_converse(x - y, n, -1, x - y + n);
        }
    }
}

/// Stations with seeds of 32 bits and ruptures of up to 4096 segments never share a stream at one
/// position: only one and the same segment of one and the same station has it.
pub proof fn ordinary_stations_keep_apart(
    station: u64,
    segment: u64,
    other_station: u64,
    other_segment: u64,
    subfault: u64,
)
    requires
        station < 0x1_0000_0000,
        other_station < 0x1_0000_0000,
        segment < 4096,
        other_segment < 4096,
    ensures
        subfault_seed(station, segment, subfault) == subfault_seed(
            other_station,
            other_segment,
            subfault,
        ) <==> station == other_station && segment == other_segment,
{
    let (g, h) = (product(segment, SPLITMIX_GAMMA), product(other_segment, SPLITMIX_GAMMA));
    when_positions_share_a_stream(station, segment, other_station, other_segment, subfault);
    if other_segment < segment {
        gamma_keeps_apart(segment, other_segment);
    } else if segment < other_segment {
        gamma_keeps_apart(other_segment, segment);
    }
    assert(g ^ h == h ^ g) by (bit_vector);
    assert(station < 0x1_0000_0000 && other_station < 0x1_0000_0000 ==> station ^ other_station
        < 0x1_0000_0000) by (bit_vector);
    assert(g ^ g == 0) by (bit_vector);
    assert(station ^ other_station == 0 <==> station == other_station) by (bit_vector);
}

/// Two rays of two subfaults share a stream just where the subfaults' seeds differ by what the ray
/// numbers differ by.
pub proof fn when_rays_share_a_stream(subfault: u64, ray: u64, other: u64, other_ray: u64)
    requires
        ray < u64::MAX,
        other_ray < u64::MAX,
    ensures
        ray_seed(subfault, ray) == ray_seed(other, other_ray) <==> subfault ^ other == product(
            (ray + 1) as u64,
            SPLITMIX_GAMMA,
        ) ^ product((other_ray + 1) as u64, SPLITMIX_GAMMA),
{
    let (g, h) = (
        product((ray + 1) as u64, SPLITMIX_GAMMA),
        product((other_ray + 1) as u64, SPLITMIX_GAMMA),
    );
    lemma_small_mod((ray + 1) as nat, states() as nat);
    lemma_small_mod((other_ray + 1) as nat, states() as nat);
    mix_is_one_to_one(subfault ^ g, other ^ h);
    assert(subfault ^ g == other ^ h <==> subfault ^ other == g ^ h) by (bit_vector);
}

/// Stations, segments and rays enter a seed alike: the subfaults of segment `n + 1` of a station
/// start where ray `n` of a subfault with the station's seed does, each at its position.
pub proof fn segments_enter_as_rays_do(station: u64, n: u64, subfault: u64)
    requires
        n < u64::MAX,
    ensures
        subfault_seed(station, (n + 1) as u64, subfault) == mixed(ray_seed(station, n) ^ subfault),
{
    lemma_small_mod((n + 1) as nat, states() as nat);
}

// ---------------------------------------------------------------------------
// Uniform deviates
// ---------------------------------------------------------------------------

/// How many of a word's top bits a uniform deviate takes, as a count of values.
pub const UNIT_STEPS: u32 = 16_777_216;

/// The top 24 bits of a word: the deviate's numerator over [`UNIT_STEPS`].
pub open spec fn numerator(word: u32) -> u32 {
    word / 256
}

/// Whether `s` is the number `n / 2^24`.
pub open spec fn is_unit_fraction(s: Single, n: u32) -> bool {
    reals::is_dyadic(s, n, 24)
}

/// The deviate on `[0, 1)` that a word gives: its top 24 bits over `2^24`, without rounding.
pub fn unit_interval_from(word: u32) -> (s: Single)
    ensures
        is_unit_fraction(s, numerator(word)),
        s.ordered(),
        0 <= s.rank() < 0x3f80_0000,
{
    let n: u32 = word / 256;
    let s = reals::dyadic(n, 24);
    proof {
        if n > 0 {
            reals::dyadic_bounds(s, n, 24);
        }
    }
    s
}

/// A deviate is on `[0, 1)`: one is never reached, and zero only from a word whose top 24 bits are
/// zero.
pub proof fn deviates_lie_in_the_unit_interval(s: Single, word: u32)
    requires
        is_unit_fraction(s, numerator(word)),
    ensures
        Single(0).at_most(s),
        s.below(Single(0x3f80_0000)),
        s.same(Single(0)) <==> numerator(word) == 0,
{
    if numerator(word) > 0 {
        reals::dyadic_bounds(s, numerator(word), 24);
    }
}

/// A deviate keeps the order of the words it comes from, and two deviates are equal just where
/// the top 24 bits are.
pub proof fn deviates_keep_the_order_of_words(a: Single, b: Single, m: u32, n: u32)
    requires
        is_unit_fraction(a, m),
        is_unit_fraction(b, n),
        m < UNIT_STEPS,
        n < UNIT_STEPS,
    ensures
        a.below(b) <==> m < n,
        a.same(b) <==> m == n,
{
    reals::dyadics_keep_order(a, b, m, n, 24);
}

/// A deviate is its word over `2^32`, cut to the 24 bits that a single holds: it is never more,
/// and short of it by less than `2^-24`.
pub proof fn deviates_are_their_words_cut(s: Single, word: u32)
    requires
        is_unit_fraction(s, numerator(word)),
    ensures
        s.value() <= word * pow2(117) < s.value() + pow2(125),
{
    let n = numerator(word) as int;
    reals::dyadics_have_their_value(s, numerator(word), 24);
    let p = pow2(117) as int;
    lemma_pow2_pos(117);
    lemma_pow2_adds(8, 117);
    lemma2_to64();
    assert(pow2(125) == 256 * p);
    assert(n * (256 * p) <= word * p < n * (256 * p) + 256 * p) by (nonlinear_arith)
        requires
            256 * n <= word < 256 * n + 256,
            p > 0,
    ;
}

// ---------------------------------------------------------------------------
// Draw sources
// ---------------------------------------------------------------------------

/// A source of random words.
///
/// A source is a function of its seed: the same seed gives the same words. Everything that is
/// drawn is some of those words, in order.
pub trait Draws: Sized {
    /// The word `k` places from here on.
    spec fn word(self, k: nat) -> u32;

    /// Whether a source can start at `seed`.
    spec fn takes(seed: u64) -> bool;

    /// The word `k` of a source that starts at `seed`.
    spec fn seeded(seed: u64, k: nat) -> u32;

    /// A source of this kind, started at `seed`.
    fn from_seed(seed: u64) -> (r: Self)
        requires
            Self::takes(seed),
        ensures
            forall|k: nat| #[trigger] r.word(k) == Self::seeded(seed, k),
    ;

    /// The next word.
    fn draw(&mut self) -> (w: u32)
        ensures
            w == old(self).word(0),
            forall|k: nat| #[trigger] final(self).word(k) == old(self).word(k + 1),
    ;

    /// A uniform deviate on `[0, 1)`: one word.
    fn uniform(&mut self) -> (s: Single)
        ensures
            is_unit_fraction(s, numerator(old(self).word(0))),
            forall|k: nat| #[trigger] final(self).word(k) == old(self).word(k + 1),
    {
        unit_interval_from(self.draw())
    }

    /// Fill `out` with uniform deviates: each slot takes the next word.
    fn fill_uniform(&mut self, out: &mut Vec<Single>)
        ensures
            final(out).len() == old(out).len(),
            forall|i: int|
                0 <= i < final(out).len() ==> is_unit_fraction(
                    #[trigger] final(out)@[i],
                    numerator(old(self).word(i as nat)),
                ),
            forall|k: nat| #[trigger] final(self).word(k) == old(self).word(k + old(out)@.len()),
    {
        let n: usize = out.len();
        let mut i: usize = 0;
        while i < n
            invariant
                i <= n,
                n == out.len(),
                n == old(out).len(),
                forall|j: int|
                    0 <= j < i ==> is_unit_fraction(
                        #[trigger] out@[j],
                        numerator(old(self).word(j as nat)),
                    ),
                forall|k: nat| #[trigger] self.word(k) == old(self).word(k + i as nat),
            decreases n - i,
        {
            let ghost before = *self;
            let s = self.uniform();
            assert(before.word(0) == old(self).word(0 + i as nat));
            out.set(i, s);
            proof {
                assert forall|k: nat| #[trigger] self.word(k) == old(self).word(
                    k + (i + 1) as nat,
                ) by {
                    assert(self.word(k) == before.word(k + 1));
                    assert(before.word(k + 1) == old(self).word((k + 1) + i as nat));
                }
            }
            i += 1;
        }
    }
}

// ---------------------------------------------------------------------------
// PCG32
// ---------------------------------------------------------------------------

/// PCG's multiplier for 64 bits of state.
pub const PCG_MULT: u64 = 6364136223846793005;

/// PCG's default increment.
pub const PCG_INC_DEFAULT: u64 = 1442695040888963407;

/// How many consecutive integers are folded into a state by the folding seed.
pub const SEED_WORDS: i32 = 8;

/// The state after `state`: one step of the congruential generator.
pub open spec fn pcg_step(state: u64, inc: u64) -> u64 {
    ((state * PCG_MULT + inc) % states()) as u64
}

/// The state `k` steps on.
pub open spec fn pcg_after(state: u64, inc: u64, k: nat) -> u64
    decreases k,
{
    if k == 0 {
        state
    } else {
        pcg_after(pcg_step(state, inc), inc, (k - 1) as nat)
    }
}

/// `x`, its bits rotated right by `r` places.
pub open spec fn rotated(x: u32, r: u32) -> u32 {
    (x >> r) | (x << ((32 - r) as u32 % 32))
}

/// The output of a state: its high bits folded down, rotated by its top five.
pub open spec fn pcg_output(state: u64) -> u32 {
    rotated((((state >> 18) ^ state) >> 27) as u32, (state >> 59) as u32)
}

/// `state * PCG_MULT + addend`, modulo `2^64`.
fn multiply_add(state: u64, addend: u64) -> (r: u64)
    ensures
        r == (state * PCG_MULT + addend) % states(),
{
    let p: u64 = state.wrapping_mul(PCG_MULT);
    let r: u64 = p.wrapping_add(addend);
    proof {
        let q = state * PCG_MULT;
        assert(p == q % states());
        lemma_add_mod_noop(q, addend as int, states());
        lemma_small_mod(addend as nat, states() as nat);
        lemma_add_mod_noop(p as int, addend as int, states());
        lemma_small_mod(p as nat, states() as nat);
        if p + addend >= states() {
            lemma_fundamental_div_mod_converse(p + addend, states(), 1, p + addend - states());
        } else {
            lemma_small_mod((p + addend) as nat, states() as nat);
        }
    }
    r
}

/// [`pcg_output`].
fn output_of(state: u64) -> (w: u32)
    ensures
        w == pcg_output(state),
{
    let x: u32 = (((state >> 18) ^ state) >> 27) as u32;
    let r: u32 = (state >> 59) as u32;
    assert(((state >> 59) as u32) < 32) by (bit_vector);
    let l: u32 = (32 - r) % 32;
    (x >> r) | (x << l)
}

/// What folding `irand`, `irand + 1`, ... `irand + n - 1` gives, before it wraps.
pub open spec fn folded(irand: int, n: nat) -> int
    decreases n,
{
    if n == 0 {
        0
    } else {
        folded(irand, (n - 1) as nat) * PCG_MULT + (irand + n - 1)
    }
}

/// The state that the folding seed starts from: the fold, then two steps.
pub open spec fn folded_state(irand: int) -> u64 {
    pcg_after((folded(irand, SEED_WORDS as nat) % states()) as u64, PCG_INC_DEFAULT, 2)
}

/// The factor of the seed in its fold: `1 + m + ... + m^(n - 1)`, for the multiplier `m`.
pub open spec fn fold_slope(n: nat) -> int
    decreases n,
{
    if n == 0 {
        0
    } else {
        fold_slope((n - 1) as nat) * PCG_MULT + 1
    }
}

/// Folding is no mixing: it is an affine map of the seed, so that every seed lands on one and
/// the same orbit of states.
pub proof fn folding_is_affine(irand: int, n: nat)
    ensures
        folded(irand, n) == fold_slope(n) * irand + folded(0, n),
    decreases n,
{
    if n > 0 {
        folding_is_affine(irand, (n - 1) as nat);
        let (c, d, m) = (fold_slope((n - 1) as nat), folded(0, (n - 1) as nat), PCG_MULT as int);
        assert((c * irand + d) * m + irand == (c * m + 1) * irand + d * m) by (nonlinear_arith);
    } else {
        assert(fold_slope(0) * irand == 0);
    }
}

/// One more term of the fold's factor, modulo `2^64`.
proof fn slope_grows(n: nat, slope: int)
    requires
        n > 0,
        fold_slope((n - 1) as nat) % states() == slope,
    ensures
        fold_slope(n) % states() == (slope * PCG_MULT + 1) % states(),
{
    let before = fold_slope((n - 1) as nat);
    lemma_mul_mod_noop_left(before, PCG_MULT as int, states());
    lemma_add_mod_noop(before * PCG_MULT, 1, states());
    lemma_add_mod_noop((before % states()) * PCG_MULT, 1, states());
}

/// The fold's factor for eight integers: eight times an odd number, modulo `2^64`.
#[verifier::spinoff_prover]
proof fn slope_of_eight()
    ensures
        fold_slope(8) % states() == 8 * 1392016832580148891,
{
    assert(fold_slope(0) % states() == 0);
    slope_grows(1, 0);
    slope_grows(2, 1);
    slope_grows(3, 6364136223846793006);
    slope_grows(4, 13885033948157127959);
    slope_grows(5, 14678909342070756876);
    slope_grows(6, 14340359694176818205);
    slope_grows(7, 3490389784639564826);
    slope_grows(8, 2377159206977889939);
}

/// One step of the generator loses nothing.
proof fn stepping_is_one_to_one(a: u64, b: u64, inc: u64)
    requires
        pcg_step(a, inc) == pcg_step(b, inc),
    ensures
        a == b,
{
    let (p, q, i, n) = (a * PCG_MULT, b * PCG_MULT, inc as int, states());
    lemma_add_mod_noop(p, i, n);
    lemma_add_mod_noop(q, i, n);
    lemma_small_mod(inc as nat, n as nat);
    let (x, y) = (p % n, q % n);
    assert((x + i) % n == (y + i) % n);
    assert(x == y) by {
        lemma_small_mod(x as nat, n as nat);
        lemma_small_mod(y as nat, n as nat);
        if x + i >= n {
            lemma_fundamental_div_mod_converse(x + i, n, 1, x + i - n);
        } else {
            lemma_small_mod((x + i) as nat, n as nat);
        }
        if y + i >= n {
            lemma_fundamental_div_mod_converse(y + i, n, 1, y + i - n);
        } else {
            lemma_small_mod((y + i) as nat, n as nat);
        }
    }
    assert((PCG_MULT * 13877824140714322085u64) % states() == 1) by (nonlinear_arith);
    product_comes_back(a, PCG_MULT, 13877824140714322085);
    product_comes_back(b, PCG_MULT, 13877824140714322085);
}

/// The fold tells integer seeds apart.
proof fn folds_are_distinct(a: int, b: int)
    requires
        i32::MIN <= b < a <= i32::MAX,
    ensures
        folded(a, 8) % states() != folded(b, 8) % states(),
{
    folding_is_affine(a, 8);
    folding_is_affine(b, 8);
    slope_of_eight();
    let (slope, d, n) = (fold_slope(8), a - b, states());
    let odd: u64 = 1392016832580148891;
    if folded(a, 8) % n == folded(b, 8) % n {
        assert(folded(a, 8) - folded(b, 8) == slope * d) by (nonlinear_arith)
            requires
                folded(a, 8) == slope * a + folded(0, 8),
                folded(b, 8) == slope * b + folded(0, 8),
                d == a - b,
        ;
        lemma_sub_mod_noop(folded(a, 8), folded(b, 8), n);
        assert((slope * d) % n == 0) by {
            lemma_small_mod(0, n as nat);
        }
        lemma_mul_mod_noop_left(slope, d, n);
        assert((8 * odd) * d == (8 * d) * odd) by (nonlinear_arith);
        let x = (8 * d) as u64;
        assert(product(x, odd) == 0);
        assert((odd * 13776892009376634771u64) % states() == 1) by (nonlinear_arith)
            requires
                odd == 1392016832580148891,
        ;
        product_comes_back(x, odd, 13776892009376634771);
        assert(product(0, 13776892009376634771) == 0);
    }
}

/// Distinct integer seeds start in distinct states: no two of them give one and the same stream.
pub proof fn seeds_have_states_of_their_own(a: int, b: int)
    requires
        i32::MIN <= a <= i32::MAX,
        i32::MIN <= b <= i32::MAX,
    ensures
        folded_state(a) == folded_state(b) <==> a == b,
{
    if a != b && folded_state(a) == folded_state(b) {
        let (x, y) = ((folded(a, 8) % states()) as u64, (folded(b, 8) % states()) as u64);
        let inc = PCG_INC_DEFAULT;
        reveal_with_fuel(pcg_after, 3);
        stepping_is_one_to_one(pcg_step(x, inc), pcg_step(y, inc), inc);
        stepping_is_one_to_one(x, y, inc);
        if a > b {
            folds_are_distinct(a, b);
        } else {
            folds_are_distinct(b, a);
        }
    }
}

/// Two states that are no nearer than `2^27` and nearer than `3 * 2^56` never give one and the same
/// word. With one rotation the words would show that the states agree from bit 27 on. With the next
/// one, the lower state would lie just below a multiple of `2^59`, and the words would show that
/// its distance from the multiple before is about the gap.
#[verifier::rlimit(40)]
proof fn near_states_give_other_words(state: u64, gap: u64)
    requires
        0x0800_0000 <= gap < 0x0300_0000_0000_0000,
    ensures
        pcg_output(state) != pcg_output(((state + gap) % states()) as u64),
{
    let next: u64 = ((state + gap) % states()) as u64;
    if state + gap >= states() {
        lemma_fundamental_div_mod_converse(state + gap, states(), 1, state + gap - states());
    } else {
        lemma_small_mod((state + gap) as nat, states() as nat);
    }
    assert(pcg_output(state) != pcg_output(next)) by (bit_vector)
        requires
            next == state + gap || next + 0x1_0000_0000_0000_0000 == state + gap,
            0x0800_0000 <= gap < 0x0300_0000_0000_0000,
    ;
}

/// The multiplier of `k` steps, modulo `2^64`.
spec fn leap(k: nat) -> int
    decreases k,
{
    if k == 0 {
        1
    } else {
        (leap((k - 1) as nat) * PCG_MULT) % states()
    }
}

/// Steps keep the distance between two states but for their multiplier, whatever the states are.
proof fn steps_spread(a: u64, b: u64, inc: u64, gap: int, k: nat)
    requires
        b == (a + gap) % states(),
    ensures
        pcg_after(b, inc, k) == (pcg_after(a, inc, k) + gap * leap(k)) % states(),
    decreases k,
{
    if k > 0 {
        let (m, i, n, l) = (PCG_MULT as int, inc as int, states(), leap((k - 1) as nat));
        assert(pcg_step(b, inc) == (pcg_step(a, inc) + gap * m) % n) by {
            lemma_mul_mod_noop_left(a + gap, m, n);
            lemma_add_mod_noop((a + gap) * m, i, n);
            lemma_add_mod_noop(b * m, i, n);
            assert((a + gap) * m + i == (a * m + i) + gap * m) by (nonlinear_arith);
            lemma_add_mod_noop(a * m + i, gap * m, n);
            lemma_add_mod_noop(pcg_step(a, inc) as int, gap * m, n);
            lemma_mod_twice(a * m + i, n);
        }
        let ahead = pcg_after(a, inc, k) as int;
        steps_spread(pcg_step(a, inc), pcg_step(b, inc), inc, gap * m, (k - 1) as nat);
        assert((gap * m) * l == gap * (l * m)) by (nonlinear_arith);
        lemma_mul_mod_noop_right(gap, l * m, n);
        lemma_add_mod_noop(ahead, gap * (l * m), n);
        lemma_add_mod_noop(ahead, gap * leap(k), n);
    }
}

/// The multiplier of fifteen steps.
proof fn leap_of_fifteen()
    ensures
        leap(15) == 6097459430366169061,
{
    assert(leap(0) == 1);
    assert(leap(1) == 6364136223846793005);
    assert(leap(2) == 7520897724310334953);
    assert(leap(3) == 793875393913628917);
    assert(leap(4) == 18108194425815612945);
    assert(leap(5) == 7596774164172298237);
    assert(leap(6) == 17333513496047876729);
    assert(leap(7) == 8758975453663301189);
    assert(leap(8) == 13086856194709077281);
    assert(leap(9) == 6584243485182795213);
    assert(leap(10) == 13869413664309571593);
    assert(leap(11) == 2074577609206900885);
    assert(leap(12) == 3146358351720713521);
    assert(leap(13) == 13559160814999052445);
    assert(leap(14) == 4053545077848841881);
    assert(leap(15) == 6097459430366169061);
}

/// Steps add up.
proof fn steps_add_up(state: u64, inc: u64, j: nat, k: nat)
    ensures
        pcg_after(pcg_after(state, inc, j), inc, k) == pcg_after(state, inc, j + k),
    decreases j,
{
    if j > 0 {
        steps_add_up(pcg_step(state, inc), inc, (j - 1) as nat, k);
    }
}

/// How far apart the streams of two integer seeds are after 13 words. The two steps of the seeding
/// count too.
proof fn streams_spread(a: int, b: int)
    ensures
        pcg_after(folded_state(b), PCG_INC_DEFAULT, 13) == (pcg_after(
            folded_state(a),
            PCG_INC_DEFAULT,
            13,
        ) + ((b - a) * 127092987216063800) % states()) % states(),
{
    let (slope, inc, n, d) = (fold_slope(8), PCG_INC_DEFAULT, states(), b - a);
    let (x, y) = ((folded(a, 8) % n) as u64, (folded(b, 8) % n) as u64);
    let ahead = pcg_after(x, inc, 15) as int;
    folding_is_affine(a, 8);
    folding_is_affine(b, 8);
    assert(folded(b, 8) == folded(a, 8) + slope * d) by (nonlinear_arith)
        requires
            folded(a, 8) == slope * a + folded(0, 8),
            folded(b, 8) == slope * b + folded(0, 8),
            d == b - a,
    ;
    lemma_add_mod_noop(folded(a, 8), slope * d, n);
    lemma_add_mod_noop(x as int, slope * d, n);
    lemma_mod_twice(folded(a, 8), n);
    steps_spread(x, y, inc, slope * d, 15);
    steps_add_up(x, inc, 2, 13);
    steps_add_up(y, inc, 2, 13);
    leap_of_fifteen();
    slope_of_eight();
    // The slope and the multiplier are constants.
    let l = leap(15);
    assert((slope * l) % n == 127092987216063800) by {
        lemma_mul_mod_noop_left(slope, l, n);
    }
    assert((slope * d) * l == d * (slope * l)) by (nonlinear_arith);
    lemma_mul_mod_noop_right(d, slope * l, n);
    lemma_add_mod_noop(ahead, d * (slope * l), n);
    lemma_add_mod_noop(ahead, (d * 127092987216063800) % n, n);
    lemma_mod_twice(d * 127092987216063800, n);
}

/// The integer after a seed, with the smallest after the largest.
pub open spec fn next_seed(seed: i32) -> i32 {
    if seed == i32::MAX {
        i32::MIN
    } else {
        (seed + 1) as i32
    }
}

/// Word `k` of the stream that folding an integer seed starts.
pub open spec fn folded_word(irand: int, k: nat) -> u32 {
    pcg_output(pcg_after(folded_state(irand), PCG_INC_DEFAULT, k))
}

/// Two integer seeds whose streams are `gap` apart after 13 words differ in the next word.
proof fn far_words_differ(a: int, b: int, gap: u64)
    requires
        gap == ((b - a) * 127092987216063800) % states(),
        0x0800_0000 <= gap < 0x0300_0000_0000_0000,
    ensures
        folded_word(a, 13) != folded_word(b, 13),
{
    streams_spread(a, b);
    near_states_give_other_words(pcg_after(folded_state(a), PCG_INC_DEFAULT, 13), gap);
}

/// Neighbouring seeds give streams that part: for every integer seed and the one after it, some
/// word among the first 32 differs. It is word 13, whatever the seed.
pub proof fn neighbouring_seeds_part(seed: i32)
    ensures
        folded_word(seed as int, 13) != folded_word(next_seed(seed) as int, 13),
        exists|k: nat|
            k < 32 && #[trigger] folded_word(seed as int, k) != folded_word(
                next_seed(seed) as int,
                k,
            ),
{
    if seed == i32::MAX {
        far_words_differ(i32::MIN as int, i32::MAX as int, 194049311008035528);
    } else {
        far_words_differ(seed as int, seed + 1, 127092987216063800);
    }
}

/// A signed integer as a word of state.
fn sign_extended(v: i64) -> (w: u64)
    ensures
        w == (v as int) % states(),
{
    let w: u64 = v as u64;
    assert(v >= 0 ==> w == v) by (bit_vector)
        requires
            w == v as u64,
    ;
    assert(v < 0 ==> w == 0x1_0000_0000_0000_0000 + v) by (bit_vector)
        requires
            w == v as u64,
    ;
    proof {
        if v < 0 {
            lemma_fundamental_div_mod_converse(v as int, states(), -1, v + states());
        } else {
            lemma_small_mod(v as nat, states() as nat);
        }
    }
    w
}

/// PCG32 (O'Neill 2014), the XSH-RR variant.
#[derive(Clone, Copy, Debug)]
pub struct Pcg32 {
    state: u64,
    inc: u64,
}

impl Pcg32 {
    /// The state and the increment.
    pub closed spec fn state(self) -> (u64, u64) {
        (self.state, self.inc)
    }

    /// Fold eight consecutive integers from `irand` on into the state, then discard two words.
    /// Every seed has eight integers from it on: they need not be in the range of an `i32`.
    fn fold(irand: i32) -> (g: Self)
        ensures
            g.state() == (folded_state(irand as int), PCG_INC_DEFAULT),
    {
        let mut state: u64 = 0;
        let mut next: i64 = irand as i64;
        let mut i: i32 = 0;
        while i < SEED_WORDS
            invariant
                0 <= i <= SEED_WORDS,
                next == irand + i,
                state == folded(irand as int, i as nat) % states(),
            decreases SEED_WORDS - i,
        {
            let word: u64 = sign_extended(next);
            proof {
                let f = folded(irand as int, i as nat);
                let m = PCG_MULT as int;
                lemma_mul_mod_noop_left(f, m, states());
                lemma_add_mod_noop(f * m, next as int, states());
                lemma_add_mod_noop((f % states()) * m, word as int, states());
                lemma_small_mod(word as nat, states() as nat);
            }
            state = multiply_add(state, word);
            next += 1;
            i += 1;
        }
        let mut g = Pcg32 { state, inc: PCG_INC_DEFAULT };
        let _ = g.next_u32();
        let _ = g.next_u32();
        proof {
            reveal_with_fuel(pcg_after, 3);
        }
        g
    }

    /// Seed by folding eight consecutive integers from `irand` on into the state, then discard
    /// two words. The integer after the last one folded comes back too, so it must be one.
    pub fn seed(irand: i32) -> (r: (Self, i32))
        requires
            irand <= i32::MAX - SEED_WORDS,
        ensures
            r.0.state() == (folded_state(irand as int), PCG_INC_DEFAULT),
            r.1 == irand + SEED_WORDS,
    {
        (Pcg32::fold(irand), irand + SEED_WORDS)
    }

    /// One PCG32 output word.
    pub fn next_u32(&mut self) -> (w: u32)
        ensures
            w == pcg_output(old(self).state().0),
            final(self).state() == (
                pcg_step(old(self).state().0, old(self).state().1),
                old(self).state().1,
            ),
    {
        let old_state: u64 = self.state;
        self.state = multiply_add(old_state, self.inc);
        output_of(old_state)
    }
}

/// An integer seed for a source that is seeded with an `i32`: the low half of a 64-bit seed.
pub open spec fn narrowed(seed: u64) -> i32 {
    seed as i32
}

impl Draws for Pcg32 {
    open spec fn word(self, k: nat) -> u32 {
        pcg_output(pcg_after(self.state().0, self.state().1, k))
    }

    open spec fn takes(seed: u64) -> bool {
        narrowed(seed) <= i32::MAX - SEED_WORDS
    }

    open spec fn seeded(seed: u64, k: nat) -> u32 {
        pcg_output(pcg_after(folded_state(narrowed(seed) as int), PCG_INC_DEFAULT, k))
    }

    fn from_seed(seed: u64) -> (r: Self) {
        Pcg32::seed(seed as i32).0
    }

    fn draw(&mut self) -> (w: u32) {
        self.next_u32()
    }
}

/// PCG32 as a draw source of its own: the folding seed, and Box-Muller pairs for its normals.
#[derive(Clone, Copy, Debug)]
pub struct LegacyPcg {
    generator: Pcg32,
}

impl LegacyPcg {
    /// The state and the increment.
    pub closed spec fn state(self) -> (u64, u64) {
        self.generator.state()
    }

    /// Seed by folding eight consecutive integers from `irand` on into the state, then discard
    /// two words. No seed fails.
    pub fn seed(irand: i32) -> (r: Self)
        ensures
            r.state() == (folded_state(irand as int), PCG_INC_DEFAULT),
    {
        LegacyPcg { generator: Pcg32::fold(irand) }
    }

    /// One PCG32 output word.
    pub fn next_u32(&mut self) -> (w: u32)
        ensures
            w == pcg_output(old(self).state().0),
            final(self).state() == (
                pcg_step(old(self).state().0, old(self).state().1),
                old(self).state().1,
            ),
    {
        self.generator.next_u32()
    }
}

impl Draws for LegacyPcg {
    open spec fn word(self, k: nat) -> u32 {
        pcg_output(pcg_after(self.state().0, self.state().1, k))
    }

    open spec fn takes(seed: u64) -> bool {
        true
    }

    open spec fn seeded(seed: u64, k: nat) -> u32 {
        folded_word(narrowed(seed) as int, k)
    }

    fn from_seed(seed: u64) -> (r: Self) {
        LegacyPcg::seed(seed as i32)
    }

    fn draw(&mut self) -> (w: u32) {
        self.next_u32()
    }
}

// ---------------------------------------------------------------------------
// SplitMix64
// ---------------------------------------------------------------------------

/// A draw source whose words are frozen: SplitMix64, a mixed counter.
#[derive(Clone, Copy, Debug)]
pub struct FixtureDraws {
    state: u64,
}

/// The state that an integer seed starts from.
pub open spec fn counter_start(irand: int) -> u64 {
    ((irand % states()) as u64) ^ SPLITMIX_GAMMA
}

/// Word `k` of the counter that stands at `state`: the counter moves before each word.
pub open spec fn counter_word(state: u64, k: nat) -> u64 {
    mixed(((state + (k + 1) * SPLITMIX_GAMMA) % states()) as u64)
}

/// The half of a 64-bit word that is drawn from.
pub open spec fn high_half(word: u64) -> u32 {
    (word >> 32) as u32
}

impl FixtureDraws {
    /// The counter.
    pub closed spec fn state(self) -> u64 {
        self.state
    }

    /// Start at an integer seed.
    pub fn seed(irand: i32) -> (r: Self)
        ensures
            r.state() == counter_start(irand as int),
    {
        FixtureDraws { state: sign_extended(irand as i64) ^ SPLITMIX_GAMMA }
    }

    /// One 64-bit word.
    pub fn next_word(&mut self) -> (w: u64)
        ensures
            w == counter_word(old(self).state(), 0),
            forall|k: nat|
                #[trigger] counter_word(final(self).state(), k) == counter_word(
                    old(self).state(),
                    k + 1,
                ),
    {
        let ghost before = self.state;
        self.state = self.state.wrapping_add(SPLITMIX_GAMMA);
        proof {
            let (s, g, n) = (before as int, SPLITMIX_GAMMA as int, states());
            assert((0 + 1) * g == g) by (nonlinear_arith);
            if s + g >= n {
                lemma_fundamental_div_mod_converse(s + g, n, 1, s + g - n);
            } else {
                lemma_small_mod((s + g) as nat, n as nat);
            }
            assert(self.state == (s + g) % n);
            assert forall|k: nat| #[trigger] counter_word(self.state, k) == counter_word(
                before,
                k + 1,
            ) by {
                let more = (k + 1) * g;
                lemma_add_mod_noop(s + g, more, n);
                lemma_add_mod_noop((s + g) % n, more, n);
                lemma_mod_twice(s + g, n);
                assert((k + 2) * g == g + more) by (nonlinear_arith)
                    requires
                        more == (k + 1) * g,
                ;
            }
        }
        splitmix_finalise(self.state)
    }
}

impl Draws for FixtureDraws {
    open spec fn word(self, k: nat) -> u32 {
        high_half(counter_word(self.state(), k))
    }

    open spec fn takes(seed: u64) -> bool {
        true
    }

    open spec fn seeded(seed: u64, k: nat) -> u32 {
        high_half(counter_word(counter_start(narrowed(seed) as int), k))
    }

    fn from_seed(seed: u64) -> (r: Self) {
        FixtureDraws::seed(seed as i32)
    }

    fn draw(&mut self) -> (w: u32) {
        (self.next_word() >> 32) as u32
    }
}

// ---------------------------------------------------------------------------
// The production source
// ---------------------------------------------------------------------------

/// The PCG32 generator of `rand_pcg`.
#[verifier::external_type_specification]
#[verifier::external_body]
pub struct ExLcg64Xsh32(rand_pcg::Lcg64Xsh32);

/// What a generator of `rand_pcg` holds: its state and its increment.
pub uninterp spec fn generator_words(g: rand_pcg::Lcg64Xsh32) -> Seq<u64>;

/// The increment with which `rand_core` expands a seed.
pub const EXPANSION_INC: u64 = 0xA176_54E4_6FBE_17F3;

/// Word `k` of the four that `rand_core` expands a 64-bit seed to.
pub open spec fn expansion_word(seed: u64, k: nat) -> u32 {
    pcg_output(pcg_after(seed, EXPANSION_INC, k + 1))
}

/// The state and the increment that a generator of `rand_pcg` starts with: two 64-bit words of the
/// expanded seed, the low half first. The second gives the increment, with its low bit set. The
/// first and the increment give the state, a step on.
pub open spec fn expanded_seed(seed: u64) -> Seq<u64> {
    let first = expansion_word(seed, 0) + 0x1_0000_0000 * expansion_word(seed, 1);
    let second = (expansion_word(seed, 2) + 0x1_0000_0000 * expansion_word(seed, 3)) as u64;
    let inc = second | 1;
    seq![pcg_step(((first + inc) % states()) as u64, inc), inc]
}

/// `rand_core::SeedableRng::seed_from_u64`, for the generator of `rand_pcg`: the seed is expanded
/// to four words, from which the generator's state and increment are made.
#[verifier::external_body]
fn seed_generator(seed: u64) -> (g: rand_pcg::Lcg64Xsh32)
    ensures
        generator_words(g) == expanded_seed(seed),
{
    rand_core::SeedableRng::seed_from_u64(seed)
}

/// `rand_core::Rng::next_u32`, for the generator of `rand_pcg`: the output of the state, which
/// then makes one step with the generator's increment.
#[verifier::external_body]
fn next_of_generator(g: &mut rand_pcg::Lcg64Xsh32) -> (w: u32)
    ensures
        w == pcg_output(generator_words(*old(g))[0]),
        generator_words(*final(g))[0] == pcg_step(
            generator_words(*old(g))[0],
            generator_words(*old(g))[1],
        ),
        generator_words(*final(g))[1] == generator_words(*old(g))[1],
{
    rand_core::Rng::next_u32(g)
}

/// The production draw source: PCG32, seeded through an expansion that fills both the state and
/// the increment.
pub struct Pcg {
    generator: rand_pcg::Lcg64Xsh32,
}

impl Pcg {
    /// The state and the increment.
    pub closed spec fn state(self) -> (u64, u64) {
        (generator_words(self.generator)[0], generator_words(self.generator)[1])
    }

    /// Start a stream at `seed`.
    pub fn seed(seed: u64) -> (r: Self)
        ensures
            r.state() == (expanded_seed(seed)[0], expanded_seed(seed)[1]),
            r.state().1 % 2 == 1,
    {
        proof {
            let second = (expansion_word(seed, 2) + 0x1_0000_0000 * expansion_word(seed, 3)) as u64;
            assert((second | 1) % 2 == 1) by (bit_vector);
        }
        Pcg { generator: seed_generator(seed) }
    }
}

impl Draws for Pcg {
    open spec fn word(self, k: nat) -> u32 {
        pcg_output(pcg_after(self.state().0, self.state().1, k))
    }

    open spec fn takes(seed: u64) -> bool {
        true
    }

    open spec fn seeded(seed: u64, k: nat) -> u32 {
        pcg_output(pcg_after(expanded_seed(seed)[0], expanded_seed(seed)[1], k))
    }

    fn from_seed(seed: u64) -> (r: Self) {
        Pcg::seed(seed)
    }

    fn draw(&mut self) -> (w: u32) {
        next_of_generator(&mut self.generator)
    }
}

/// Which kind of source a run uses.
#[derive(Clone, Copy, Debug, PartialEq, Eq, Structural)]
pub enum SourceKind {
    /// [`Pcg`], the default.
    Modern,
    /// [`Pcg32`] with the folding seed.
    Legacy,
    /// [`FixtureDraws`], for validation.
    Fixture,
}

impl SourceKind {
    /// The kind that a run's two switches choose: the fixture wins over the folding seed.
    pub fn chosen(fixture: bool, legacy: bool) -> (k: Self)
        ensures
            k == if fixture {
                SourceKind::Fixture
            } else if legacy {
                SourceKind::Legacy
            } else {
                SourceKind::Modern
            },
    {
        if fixture {
            SourceKind::Fixture
        } else if legacy {
            SourceKind::Legacy
        } else {
            SourceKind::Modern
        }
    }
}

/// The draw source of a run.
pub enum DrawSource {
    Modern(Pcg),
    Legacy(Pcg32),
    Fixture(FixtureDraws),
}

impl DrawSource {
    /// The word `k` places from here on.
    pub open spec fn word(self, k: nat) -> u32 {
        match self {
            DrawSource::Modern(g) => g.word(k),
            DrawSource::Legacy(g) => g.word(k),
            DrawSource::Fixture(g) => g.word(k),
        }
    }

    /// Build a run's source from its integer seed, and say whether rupture-time jitter applies.
    ///
    /// The folding seed gates the jitter on the integer after the last one it folded. Under the
    /// other kinds the jitter is simply on.
    pub fn for_run(irand: i32, kind: SourceKind) -> (r: (Self, bool))
        requires
            kind == SourceKind::Legacy ==> irand <= i32::MAX - SEED_WORDS,
        ensures
            match kind {
                SourceKind::Modern => {
                    let seed = expanded_seed(((irand as int) % states()) as u64);
                    &&& r.0 matches DrawSource::Modern(g) && g.state() == (seed[0], seed[1])
                    &&& r.1
                },
                SourceKind::Legacy => {
                    &&& r.0 matches DrawSource::Legacy(g) && g.state() == (
                        folded_state(irand as int),
                        PCG_INC_DEFAULT,
                    )
                    &&& r.1 == (irand + SEED_WORDS > 0)
                },
                SourceKind::Fixture => {
                    &&& r.0 matches DrawSource::Fixture(g) && g.state() == counter_start(
                        irand as int,
                    )
                    &&& r.1
                },
            },
    {
        match kind {
            SourceKind::Fixture => (DrawSource::Fixture(FixtureDraws::seed(irand)), true),
            SourceKind::Legacy => {
                let (g, after) = Pcg32::seed(irand);
                (DrawSource::Legacy(g), after > 0)
            },
            SourceKind::Modern => (DrawSource::Modern(Pcg::seed(sign_extended(irand as i64))), true),
        }
    }

    /// A uniform deviate on `[0, 1)`: one word, whatever the kind.
    pub fn uniform(&mut self) -> (s: Single)
        ensures
            is_unit_fraction(s, numerator(old(self).word(0))),
            forall|k: nat| #[trigger] final(self).word(k) == old(self).word(k + 1),
    {
        match self {
            DrawSource::Modern(g) => g.uniform(),
            DrawSource::Legacy(g) => g.uniform(),
            DrawSource::Fixture(g) => g.uniform(),
        }
    }
}

// ---------------------------------------------------------------------------
// What is drawn
// ---------------------------------------------------------------------------

/// Two sequential blocks of uniforms: the first `count` words, then the next `count`. They are
/// never interleaved.
pub fn predraw<D: Draws>(rng: &mut D, count: usize) -> (r: (Vec<Single>, Vec<Single>))
    ensures
        r.0.len() == count,
        r.1.len() == count,
        forall|i: int|
            0 <= i < count ==> is_unit_fraction(
                #[trigger] r.0@[i],
                numerator(old(rng).word(i as nat)),
            ),
        forall|i: int|
            0 <= i < count ==> is_unit_fraction(
                #[trigger] r.1@[i],
                numerator(old(rng).word((count + i) as nat)),
            ),
        forall|k: nat|
            #[trigger] final(rng).word(k) == old(rng).word(k + count as nat + count as nat),
{
    let mut a: Vec<Single> = Vec::new();
    a.resize(count, Single(0));
    let mut b: Vec<Single> = Vec::new();
    b.resize(count, Single(0));
    rng.fill_uniform(&mut a);
    let ghost half = *rng;
    rng.fill_uniform(&mut b);
    proof {
        assert forall|i: int| 0 <= i < count implies is_unit_fraction(
            #[trigger] b@[i],
            numerator(old(rng).word((count + i) as nat)),
        ) by {
            assert(half.word(i as nat) == old(rng).word(i as nat + count as nat));
        }
        assert forall|k: nat| #[trigger] rng.word(k) == old(rng).word(
            k + count as nat + count as nat,
        ) by {
            assert(rng.word(k) == half.word(k + count as nat));
        }
    }
    (a, b)
}

/// Seed a station's source and make its two pre-draws.
pub fn seed_and_predraw<D: Draws>(seed: u64, count: usize) -> (r: (D, Vec<Single>, Vec<Single>))
    requires
        D::takes(seed),
    ensures
        r.1.len() == count,
        r.2.len() == count,
        forall|i: int|
            0 <= i < count ==> is_unit_fraction(
                #[trigger] r.1@[i],
                numerator(D::seeded(seed, i as nat)),
            ),
        forall|i: int|
            0 <= i < count ==> is_unit_fraction(
                #[trigger] r.2@[i],
                numerator(D::seeded(seed, (count + i) as nat)),
            ),
        forall|k: nat|
            #[trigger] r.0.word(k) == D::seeded(seed, k + count as nat + count as nat),
{
    let mut rng = D::from_seed(seed);
    let ghost start = rng;
    let (a, b) = predraw(&mut rng, count);
    proof {
        assert forall|i: int| 0 <= i < count implies is_unit_fraction(
            #[trigger] a@[i],
            numerator(D::seeded(seed, i as nat)),
        ) by {
            assert(start.word(i as nat) == D::seeded(seed, i as nat));
        }
        assert forall|i: int| 0 <= i < count implies is_unit_fraction(
            #[trigger] b@[i],
            numerator(D::seeded(seed, (count + i) as nat)),
        ) by {
            assert(start.word((count + i) as nat) == D::seeded(seed, (count + i) as nat));
        }
        assert forall|k: nat| #[trigger] rng.word(k) == D::seeded(
            seed,
            k + count as nat + count as nat,
        ) by {
            assert(rng.word(k) == start.word(k + count as nat + count as nat));
        }
    }
    (rng, a, b)
}

/// The five uniforms that one direction in the cone takes, in the order they are drawn.
#[derive(Clone, Copy, Debug, PartialEq, Eq, Structural)]
pub struct ConeDraw {
    pub takeoff: Single,
    pub azimuth: Single,
    pub strike: Single,
    pub dip: Single,
    pub rake: Single,
}

impl ConeDraw {
    /// Whether these are the five words of `rng` from place `at` on.
    pub open spec fn drawn_at<D: Draws>(self, rng: D, at: nat) -> bool {
        &&& is_unit_fraction(self.takeoff, numerator(rng.word(at)))
        &&& is_unit_fraction(self.azimuth, numerator(rng.word(at + 1)))
        &&& is_unit_fraction(self.strike, numerator(rng.word(at + 2)))
        &&& is_unit_fraction(self.dip, numerator(rng.word(at + 3)))
        &&& is_unit_fraction(self.rake, numerator(rng.word(at + 4)))
    }
}

/// Draw `count` directions in the cone: five words each, take-off first.
pub fn cone_draws<D: Draws>(rng: &mut D, count: usize) -> (r: Vec<ConeDraw>)
    ensures
        r.len() == count,
        forall|i: int| 0 <= i < count ==> (#[trigger] r@[i]).drawn_at(*old(rng), (5 * i) as nat),
        forall|k: nat| #[trigger] final(rng).word(k) == old(rng).word(k + 5 * count as nat),
{
    let mut r: Vec<ConeDraw> = Vec::new();
    let mut i: usize = 0;
    while i < count
        invariant
            i <= count,
            r.len() == i,
            forall|j: int|
                0 <= j < i ==> (#[trigger] r@[j]).drawn_at(*old(rng), (5 * j) as nat),
            forall|k: nat| #[trigger] rng.word(k) == old(rng).word(k + 5 * i as nat),
        decreases count - i,
    {
        let ghost s0 = *rng;
        let takeoff = rng.uniform();
        let ghost s1 = *rng;
        let azimuth = rng.uniform();
        let ghost s2 = *rng;
        let strike = rng.uniform();
        let ghost s3 = *rng;
        let dip = rng.uniform();
        let ghost s4 = *rng;
        let rake = rng.uniform();
        let d = ConeDraw { takeoff, azimuth, strike, dip, rake };
        proof {
            let at = (5 * i) as nat;
            assert(s0.word(0) == old(rng).word(0 + at));
            assert(s1.word(0) == s0.word(0 + 1) && s0.word(1) == old(rng).word(1 + at));
            assert(s2.word(0) == s1.word(0 + 1) && s1.word(1) == s0.word(1 + 1) && s0.word(2)
                == old(rng).word(2 + at));
            assert(s3.word(0) == s2.word(0 + 1) && s2.word(1) == s1.word(1 + 1) && s1.word(2)
                == s0.word(2 + 1) && s0.word(3) == old(rng).word(3 + at));
            assert(s4.word(0) == s3.word(0 + 1) && s3.word(1) == s2.word(1 + 1) && s2.word(2)
                == s1.word(2 + 1) && s1.word(3) == s0.word(3 + 1) && s0.word(4) == old(rng).word(
                4 + at,
            ));
            assert(d.drawn_at(*old(rng), at));
            assert forall|k: nat| #[trigger] rng.word(k) == old(rng).word(
                k + 5 * (i + 1) as nat,
            ) by {
                assert(rng.word(k) == s4.word(k + 1));
                assert(s4.word(k + 1) == s3.word((k + 1) + 1));
                assert(s3.word(k + 2) == s2.word((k + 2) + 1));
                assert(s2.word(k + 3) == s1.word((k + 3) + 1));
                assert(s1.word(k + 4) == s0.word((k + 4) + 1));
                assert(s0.word(k + 5) == old(rng).word((k + 5) + at));
            }
        }
        r.push(d);
        i += 1;
    }
    r
}

/// A direction takes its five words in order: the take-off, the azimuth, the strike, the dip and
/// the rake, one word each and none of them twice.
pub proof fn directions_take_their_words_in_order<D: Draws>(d: ConeDraw, rng: D, at: nat, k: int)
    requires
        d.drawn_at(rng, at),
        0 <= k < 5,
    ensures
        is_unit_fraction(
            seq![d.takeoff, d.azimuth, d.strike, d.dip, d.rake][k],
            numerator(rng.word((at + k) as nat)),
        ),
{
}

// ---------------------------------------------------------------------------
// Box-Muller pairs
// ---------------------------------------------------------------------------

/// The first of the `patience` places from `at` on whose deviate is not zero.
pub open spec fn nonzero_place<D: Draws>(rng: D, at: nat, patience: nat) -> Option<nat>
    decreases patience,
{
    if patience == 0 {
        None
    } else if numerator(rng.word(at)) != 0 {
        Some(at)
    } else {
        nonzero_place(rng, at + 1, (patience - 1) as nat)
    }
}

/// Where a source that stood at `a` stands `n` words on.
pub open spec fn moved_on<D: Draws>(a: D, b: D, n: nat) -> bool {
    forall|k: nat| #[trigger] b.word(k) == a.word(k + n)
}

/// A uniform deviate that is not zero, as a logarithm needs: zeros are drawn again, up to
/// `patience` words in all.
pub fn nonzero_uniform<D: Draws>(rng: &mut D, patience: u64) -> (r: Option<Single>)
    ensures
        match nonzero_place(*old(rng), 0, patience as nat) {
            Some(place) => {
                &&& r is Some
                &&& is_unit_fraction(r->0, numerator(old(rng).word(place)))
                &&& moved_on(*old(rng), *final(rng), place + 1)
            },
            None => r is None && moved_on(*old(rng), *final(rng), patience as nat),
        },
{
    let mut tried: u64 = 0;
    while tried < patience
        invariant
            tried <= patience,
            moved_on(*old(rng), *rng, tried as nat),
            nonzero_place(*old(rng), 0, patience as nat) == nonzero_place(
                *old(rng),
                tried as nat,
                (patience - tried) as nat,
            ),
        decreases patience - tried,
    {
        let ghost before = *rng;
        let s = rng.uniform();
        proof {
            assert(before.word(0) == old(rng).word(0 + tried as nat));
            assert forall|k: nat| #[trigger] rng.word(k) == old(rng).word(
                k + (tried + 1) as nat,
            ) by {
                assert(rng.word(k) == before.word(k + 1));
                assert(before.word(k + 1) == old(rng).word((k + 1) + tried as nat));
            }
        }
        if s.0 != 0 {
            return Some(s);
        }
        tried += 1;
    }
    None
}

/// The two deviates that a pair of normals is made from. The first normal is the cosine of the
/// angle, the second its sine, and a block of odd length drops its last sine.
#[derive(Clone, Copy, Debug, PartialEq, Eq, Structural)]
pub struct NormalPair {
    pub radius: Single,
    pub angle: Single,
}

/// The places that `n` pairs from `at` on are drawn from: a radius and an angle each.
pub open spec fn pair_places<D: Draws>(rng: D, at: nat, n: nat, patience: nat) -> Option<
    Seq<(nat, nat)>,
>
    decreases n,
{
    if n == 0 {
        Some(Seq::empty())
    } else {
        match pair_places(rng, at, (n - 1) as nat, patience) {
            None => None,
            Some(before) => {
                let next = places_end(before, at);
                match nonzero_place(rng, next, patience) {
                    None => None,
                    Some(radius) => match nonzero_place(rng, radius + 1, patience) {
                        None => None,
                        Some(angle) => Some(before.push((radius, angle))),
                    },
                }
            },
        }
    }
}

/// The place after the last that is drawn from.
pub open spec fn places_end(places: Seq<(nat, nat)>, at: nat) -> nat {
    if places.len() == 0 {
        at
    } else {
        places.last().1 + 1
    }
}

/// Looking on from a source that has moved is looking further on from where it was.
proof fn nonzero_place_moves<D: Draws>(a: D, b: D, n: nat, at: nat, patience: nat)
    requires
        moved_on(a, b, n),
    ensures
        nonzero_place(a, at + n, patience) == match nonzero_place(b, at, patience) {
            Some(p) => Some(p + n),
            None => None,
        },
    decreases patience,
{
    if patience > 0 {
        assert(b.word(at) == a.word(at + n));
        if numerator(b.word(at)) == 0 {
            nonzero_place_moves(a, b, n, at + 1, (patience - 1) as nat);
        }
    }
}

/// Draw the pairs that `count` normals are made from, with up to `patience` words for each
/// deviate. `None` says that so many words in a row gave zero.
pub fn normal_draws<D: Draws>(rng: &mut D, count: usize, patience: u64) -> (r: Option<
    Vec<NormalPair>,
>)
    ensures
        match pair_places(*old(rng), 0, pair_count(count as nat), patience as nat) {
            Some(places) => {
                &&& r is Some
                &&& r->0.len() == pair_count(count as nat)
                &&& places.len() == pair_count(count as nat)
                &&& forall|i: int|
                    0 <= i < places.len() ==> {
                        &&& is_unit_fraction(
                            (#[trigger] r->0@[i]).radius,
                            numerator(old(rng).word(places[i].0)),
                        )
                        &&& is_unit_fraction(
                            r->0@[i].angle,
                            numerator(old(rng).word(places[i].1)),
                        )
                    }
                &&& moved_on(*old(rng), *final(rng), places_end(places, 0))
            },
            None => r is None,
        },
{
    let wanted: usize = count / 2 + count % 2;
    let mut pairs: Vec<NormalPair> = Vec::new();
    let ghost mut places: Seq<(nat, nat)> = Seq::empty();
    while pairs.len() < wanted
        invariant
            wanted == pair_count(count as nat),
            pairs.len() <= wanted,
            places.len() == pairs.len(),
            pair_places(*old(rng), 0, pairs@.len(), patience as nat) == Some(places),
            forall|i: int|
                0 <= i < places.len() ==> {
                    &&& is_unit_fraction(
                        (#[trigger] pairs@[i]).radius,
                        numerator(old(rng).word(places[i].0)),
                    )
                    &&& is_unit_fraction(
                        pairs@[i].angle,
                        numerator(old(rng).word(places[i].1)),
                    )
                },
            moved_on(*old(rng), *rng, places_end(places, 0)),
        decreases wanted - pairs.len(),
    {
        let ghost next = places_end(places, 0);
        let ghost first = *rng;
        let ghost n = pairs@.len();
        proof {
            nonzero_place_moves(*old(rng), first, next, 0, patience as nat);
            assert(pair_places(*old(rng), 0, n + 1, patience as nat) == match nonzero_place(
                *old(rng),
                next,
                patience as nat,
            ) {
                None => None,
                Some(radius) => match nonzero_place(*old(rng), radius + 1, patience as nat) {
                    None => None,
                    Some(angle) => Some(places.push((radius, angle))),
                },
            });
        }
        let radius = match nonzero_uniform(rng, patience) {
            Some(s) => s,
            None => {
                proof {
                    short_of_pairs(*old(rng), 0, n + 1, pair_count(count as nat), patience as nat);
                }
                return None;
            },
        };
        let ghost at = nonzero_place(first, 0, patience as nat)->0;
        let ghost second = *rng;
        proof {
            assert(first.word(at) == old(rng).word(at + next));
            assert forall|k: nat| #[trigger] second.word(k) == old(rng).word(
                k + (next + at + 1),
            ) by {
                assert(second.word(k) == first.word(k + (at + 1)));
                assert(first.word(k + (at + 1)) == old(rng).word((k + (at + 1)) + next));
            }
            nonzero_place_moves(*old(rng), second, next + at + 1, 0, patience as nat);
        }
        let angle = match nonzero_uniform(rng, patience) {
            Some(s) => s,
            None => {
                proof {
                    short_of_pairs(*old(rng), 0, n + 1, pair_count(count as nat), patience as nat);
                }
                return None;
            },
        };
        proof {
            let then = nonzero_place(second, 0, patience as nat)->0;
            assert(second.word(then) == old(rng).word(then + (next + at + 1)));
            let end = next + at + 1 + then + 1;
            assert forall|k: nat| #[trigger] rng.word(k) == old(rng).word(k + end) by {
                assert(rng.word(k) == second.word(k + (then + 1)));
                assert(second.word(k + (then + 1)) == old(rng).word(
                    (k + (then + 1)) + (next + at + 1),
                ));
            }
            places = places.push(((next + at) as nat, (next + at + 1 + then) as nat));
        }
        pairs.push(NormalPair { radius, angle });
    }
    Some(pairs)
}

/// How many pairs `count` normals take.
pub open spec fn pair_count(count: nat) -> nat {
    count / 2 + count % 2
}

/// Where `m` pairs cannot be had, more cannot either.
proof fn short_of_pairs<D: Draws>(rng: D, at: nat, m: nat, n: nat, patience: nat)
    requires
        m <= n,
        pair_places(rng, at, m, patience) is None,
    ensures
        pair_places(rng, at, n, patience) is None,
    decreases n,
{
    if m < n {
        short_of_pairs(rng, at, m, (n - 1) as nat, patience);
    }
}

/// How many of the words from `from` up to `to` give a deviate of zero.
pub open spec fn zeros_between<D: Draws>(rng: D, from: nat, to: nat) -> nat
    decreases to,
{
    if to <= from {
        0
    } else {
        zeros_between(rng, from, (to - 1) as nat) + if numerator(rng.word((to - 1) as nat)) == 0 {
            1nat
        } else {
            0nat
        }
    }
}

/// Zeros add up.
proof fn zeros_add_up<D: Draws>(rng: D, a: nat, b: nat, c: nat)
    requires
        a <= b <= c,
    ensures
        zeros_between(rng, a, c) == zeros_between(rng, a, b) + zeros_between(rng, b, c),
    decreases c,
{
    if b < c {
        zeros_add_up(rng, a, b, (c - 1) as nat);
    }
}

/// Finding a deviate costs one word, and one more for each zero on the way.
proof fn a_deviate_costs_its_zeros<D: Draws>(rng: D, at: nat, patience: nat)
    ensures
        nonzero_place(rng, at, patience) matches Some(p) ==> {
            &&& at <= p
            &&& p + 1 == at + 1 + zeros_between(rng, at, p + 1)
        },
    decreases patience,
{
    if patience > 0 {
        assert(zeros_between(rng, at, at + 1) == zeros_between(rng, at, at) + if numerator(
            rng.word(at),
        ) == 0 {
            1nat
        } else {
            0nat
        });
        if numerator(rng.word(at)) == 0 {
            a_deviate_costs_its_zeros(rng, at + 1, (patience - 1) as nat);
            if let Some(p) = nonzero_place(rng, at, patience) {
                zeros_add_up(rng, at, at + 1, p + 1);
            }
        }
    }
}

/// Normals cost two words a pair, and one more for each deviate of zero that is drawn again.
pub proof fn normals_cost_their_zeros<D: Draws>(rng: D, at: nat, n: nat, patience: nat)
    ensures
        pair_places(rng, at, n, patience) matches Some(places) ==> {
            &&& places.len() == n
            &&& at <= places_end(places, at)
            &&& places_end(places, at) == at + 2 * n + zeros_between(
                rng,
                at,
                places_end(places, at),
            )
        },
    decreases n,
{
    if n > 0 {
        normals_cost_their_zeros(rng, at, (n - 1) as nat, patience);
        if let Some(before) = pair_places(rng, at, (n - 1) as nat, patience) {
            let next = places_end(before, at);
            a_deviate_costs_its_zeros(rng, next, patience);
            if let Some(radius) = nonzero_place(rng, next, patience) {
                a_deviate_costs_its_zeros(rng, radius + 1, patience);
                zeros_add_up(rng, at, next, radius + 1);
                if let Some(angle) = nonzero_place(rng, radius + 1, patience) {
                    zeros_add_up(rng, at, radius + 1, angle + 1);
                }
            }
        }
    }
}

/// Where no deviate is zero, normals cost two words a pair: an even number of words, and one
/// more pair for an odd block.
pub proof fn normals_cost_two_words_a_pair<D: Draws>(rng: D, at: nat, n: nat, patience: nat)
    requires
        patience >= 1,
        forall|k: nat| at <= k < at + 2 * n ==> numerator(#[trigger] rng.word(k)) != 0,
    ensures
        pair_places(rng, at, n, patience) is Some,
        pair_places(rng, at, n, patience)->0.len() == n,
        places_end(pair_places(rng, at, n, patience)->0, at) == at + 2 * n,
    decreases n,
{
    if n > 0 {
        normals_cost_two_words_a_pair(rng, at, (n - 1) as nat, patience);
        let next = (at + 2 * (n - 1)) as nat;
        assert(numerator(rng.word(next)) != 0);
        assert(numerator(rng.word(next + 1)) != 0);
        assert(nonzero_place(rng, next, patience) == Some(next));
        assert(nonzero_place(rng, next + 1, patience) == Some(next + 1));
    }
}

/// The first place whose deviate is not zero is that: it is not zero there, and it is zero at every
/// place before.
proof fn nonzero_places_are_first<D: Draws>(rng: D, at: nat, patience: nat)
    ensures
        nonzero_place(rng, at, patience) matches Some(p) ==> {
            &&& at <= p < at + patience
            &&& numerator(rng.word(p)) != 0
            &&& forall|k: nat| at <= k < p ==> numerator(#[trigger] rng.word(k)) == 0
        },
    decreases patience,
{
    if patience > 0 && numerator(rng.word(at)) == 0 {
        nonzero_places_are_first(rng, at + 1, (patience - 1) as nat);
    }
}

/// Whether pairs are drawn in order from `at` on: a radius and then its angle, pair after pair,
/// none of them zero, and nothing but zeros passed over.
pub open spec fn are_drawn_in_order<D: Draws>(rng: D, at: nat, places: Seq<(nat, nat)>) -> bool {
    &&& forall|i: int|
        0 <= i < places.len() ==> {
            let (radius, angle) = #[trigger] places[i];
            &&& (if i == 0 {
                at
            } else {
                places[i - 1].1 + 1
            }) <= radius < angle
            &&& numerator(rng.word(radius)) != 0
            &&& numerator(rng.word(angle)) != 0
        }
    &&& forall|k: nat|
        at <= k < places_end(places, at) && numerator(#[trigger] rng.word(k)) != 0 ==> is_drawn(
            places,
            k,
        )
}

/// Whether place `k` is drawn for one of the pairs.
pub open spec fn is_drawn(places: Seq<(nat, nat)>, k: nat) -> bool {
    exists|i: int| 0 <= i < places.len() && ((#[trigger] places[i]).0 == k || places[i].1 == k)
}

/// The pairs of normals take the deviates as they come: the radius of a pair first and its angle
/// next, each the first deviate from there on that is not zero.
pub proof fn pairs_are_drawn_in_order<D: Draws>(rng: D, at: nat, n: nat, patience: nat)
    ensures
        pair_places(rng, at, n, patience) matches Some(places) ==> {
            &&& places.len() == n
            &&& places_end(places, at) >= at
            &&& are_drawn_in_order(rng, at, places)
        },
    decreases n,
{
    if n > 0 {
        pairs_are_drawn_in_order(rng, at, (n - 1) as nat, patience);
        if let Some(places) = pair_places(rng, at, n, patience) {
            let before = pair_places(rng, at, (n - 1) as nat, patience)->0;
            let next = places_end(before, at);
            let (radius, angle) = places.last();
            nonzero_places_are_first(rng, next, patience);
            nonzero_places_are_first(rng, radius + 1, patience);
            assert(places =~= before.push((radius, angle)));
            assert forall|i: int| 0 <= i < places.len() implies {
                let (r, a) = #[trigger] places[i];
                &&& (if i == 0 {
                    at
                } else {
                    places[i - 1].1 + 1
                }) <= r < a
                &&& numerator(rng.word(r)) != 0
                &&& numerator(rng.word(a)) != 0
            } by {
                if i < n - 1 {
                    assert(places[i] == before[i]);
                    if i > 0 {
                        assert(places[i - 1] == before[i - 1]);
                    }
                } else if i > 0 {
                    assert(places[i - 1] == before.last());
                }
            }
            assert forall|k: nat|
                at <= k < places_end(places, at) && numerator(#[trigger] rng.word(k)) != 0 implies
                is_drawn(places, k) by {
                if k < next {
                    assert(is_drawn(before, k));
                    let i = choose|i: int|
                        0 <= i < before.len() && ((#[trigger] before[i]).0 == k || before[i].1 == k);
                    assert(places[i] == before[i]);
                } else {
                    assert(k == radius || k == angle);
                    assert(places[n - 1] == (radius, angle));
                }
            }
        }
    }
}

/// A block of normals takes as many pairs as it needs, and no more: one is left over at most, the
/// sine of the last pair of an odd block.
pub proof fn blocks_take_the_pairs_they_need(count: nat)
    ensures
        count <= 2 * pair_count(count) <= count + 1,
{
}

} // verus!
