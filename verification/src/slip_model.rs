//! The slip model: fault segments and the grid of subfaults on each.
//!
//! A subfault is numbered `(i, j)` from one, `i` along strike and `j` down dip. The grid is
//! stored with the strike index fastest, one run per depth row.

use vstd::arithmetic::div_mod::*;
use vstd::prelude::*;
use vstd::slice::slice_subrange;

use crate::reals;
use crate::reals::{largest_of, Single};

verus! {

/// How far one subfault slipped.
#[derive(Clone, Copy, Debug, PartialEq, Eq, Structural)]
pub struct Slip(pub Single);

/// One subfault.
#[derive(Clone, Copy, Debug, PartialEq, Eq, Structural)]
pub struct Subfault {
    pub slip: Slip,
    /// Rise time, s.
    pub rise_time_s: Single,
    /// Rupture time relative to origin, s.
    pub rupture_time_s: Single,
}

/// A point on the surface.
#[derive(Clone, Copy, Debug, PartialEq, Eq, Structural)]
pub struct GeoPoint {
    pub lat_deg: Single,
    pub lon_deg: Single,
}

/// A segment's plane, as the geometry sees it.
#[derive(Clone, Copy, Debug, PartialEq, Eq, Structural)]
pub struct FaultPlane {
    pub origin: GeoPoint,
    pub strike_deg: Single,
    pub dip_deg: Single,
    pub top_depth_km: Single,
    /// Half the fault length along strike.
    pub along_strike_offset_km: Single,
    pub subfault_length_km: Single,
    pub subfault_width_km: Single,
    pub along_strike_count: usize,
    pub down_dip_count: usize,
}

// ---------------------------------------------------------------------------
// The grid
// ---------------------------------------------------------------------------

/// Whether `(i, j)` is on a grid of `along` by `down`.
pub open spec fn on_grid(along: int, down: int, i: int, j: int) -> bool {
    1 <= i <= along && 1 <= j <= down
}

/// The place of subfault `(i, j)` in storage.
pub open spec fn place_of(along: int, i: int, j: int) -> int {
    (j - 1) * along + (i - 1)
}

/// Subfault `k` in an order with the depth index outermost.
pub open spec fn depth_major_at(along: int, k: int) -> (usize, usize) {
    ((k % along + 1) as usize, (k / along + 1) as usize)
}

/// Subfault `k` in an order with the strike index outermost.
pub open spec fn strike_major_at(down: int, k: int) -> (usize, usize) {
    ((k / down + 1) as usize, (k % down + 1) as usize)
}

/// On the grid, a place is within storage, and the place after the last of a row is the first of
/// the next.
proof fn places_are_in_storage(along: int, down: int, i: int, j: int)
    requires
        on_grid(along, down, i, j),
    ensures
        0 <= (j - 1) * along,
        (j - 1) * along <= place_of(along, i, j) < along * down,
{
    assert(0 <= (j - 1) * along) by (nonlinear_arith)
        requires
            j >= 1,
            along >= 1,
    ;
    assert((j - 1) * along + along <= along * down) by (nonlinear_arith)
        requires
            j <= down,
            along >= 1,
    ;
}

/// Number `k` of `rows` rows of `width` stands in row `k / width`, at `k % width`.
proof fn rows_of(k: int, width: int, rows: int)
    requires
        0 <= k < width * rows,
        width >= 1,
    ensures
        0 <= k / width < rows,
        0 <= k % width < width,
        k == (k / width) * width + k % width,
{
    lemma_fundamental_div_mod(k, width);
    assert(width * (k / width) == (k / width) * width) by (nonlinear_arith);
    assert(0 <= k / width < rows) by (nonlinear_arith)
        requires
            k == (k / width) * width + k % width,
            0 <= k % width < width,
            0 <= k < width * rows,
            width >= 1,
    ;
}

/// The order with the depth index outermost is the order of storage: subfault `k` of it stands at
/// place `k`. So every place holds one subfault, and every subfault of the grid has a place.
pub proof fn storage_is_depth_major(along: int, down: int, k: int, i: int, j: int)
    requires
        0 <= along <= usize::MAX,
        0 <= down <= usize::MAX,
    ensures
        0 <= k < along * down ==> {
            let (a, b) = depth_major_at(along, k);
            on_grid(along, down, a as int, b as int) && place_of(along, a as int, b as int) == k
        },
        on_grid(along, down, i, j) ==> {
            &&& 0 <= place_of(along, i, j) < along * down
            &&& depth_major_at(along, place_of(along, i, j)) == (i as usize, j as usize)
        },
{
    if 0 <= k < along * down {
        assert(along >= 1) by (nonlinear_arith)
            requires
                0 < along * down,
                along >= 0,
        ;
        rows_of(k, along, down);
    }
    if on_grid(along, down, i, j) {
        places_are_in_storage(along, down, i, j);
        lemma_fundamental_div_mod_converse(place_of(along, i, j), along, j - 1, i - 1);
    }
}

/// The two orders are transposes of each other: each holds the subfault that the other holds on
/// the grid with its sides swapped, its two numbers swapped.
pub proof fn the_orders_are_transposes(along: int, down: int, k: int)
    requires
        0 <= k < along * down,
    ensures
        strike_major_at(down, k) == ({
            let (a, b) = depth_major_at(down, k);
            (b, a)
        }),
        depth_major_at(along, k) == ({
            let (a, b) = strike_major_at(along, k);
            (b, a)
        }),
{
}

/// The order with the strike index outermost meets every subfault of the grid once: `(i, j)` is
/// number `(i - 1) * down + (j - 1)` in it, and no other.
pub proof fn strike_major_meets_every_subfault_once(
    along: int,
    down: int,
    k: int,
    i: int,
    j: int,
)
    requires
        0 <= along <= usize::MAX,
        0 <= down <= usize::MAX,
    ensures
        0 <= k < along * down ==> {
            let (a, b) = strike_major_at(down, k);
            on_grid(along, down, a as int, b as int) && place_of(down, b as int, a as int) == k
        },
        on_grid(along, down, i, j) ==> {
            &&& 0 <= place_of(down, j, i) < along * down
            &&& strike_major_at(down, place_of(down, j, i)) == (i as usize, j as usize)
        },
{
    assert(along * down == down * along) by (nonlinear_arith);
    storage_is_depth_major(down, along, k, j, i);
}

// ---------------------------------------------------------------------------
// Segments
// ---------------------------------------------------------------------------

/// One fault segment.
pub struct Segment {
    /// Longitude of the segment's along-strike reference point.
    pub fault_lon_deg: Single,
    /// Latitude of the same point.
    pub fault_lat_deg: Single,
    /// Subfault count along strike.
    pub along_strike_count: usize,
    /// Subfault count down dip.
    pub down_dip_count: usize,
    /// Subfault dimension along strike, km.
    pub subfault_length_km: Single,
    /// Subfault dimension down dip, km.
    pub subfault_width_km: Single,
    /// Strike, degrees clockwise from north.
    pub strike_deg: Single,
    /// Dip, degrees from horizontal.
    pub dip_deg: Single,
    /// Rake, degrees.
    pub rake_deg: Single,
    /// Depth to the top edge of the segment, km.
    pub top_depth_km: Single,
    /// Hypocentre offset along strike from the segment centre, km.
    pub hypocentre_along_strike_km: Single,
    /// Hypocentre offset down dip from the top edge, km.
    pub hypocentre_down_dip_km: Single,
    /// Half the fault length along strike.
    pub along_strike_offset_km: Single,
    /// The subfault grid, strike index fastest.
    pub subfaults: Vec<Subfault>,
}

impl Segment {
    /// Whether the grid holds as many subfaults as its sides say.
    pub open spec fn well_formed(self) -> bool {
        self.subfaults.len() == self.along_strike_count * self.down_dip_count
    }

    /// Whether `(i, j)` is on this segment's grid.
    pub open spec fn holds(self, i: int, j: int) -> bool {
        on_grid(self.along_strike_count as int, self.down_dip_count as int, i, j)
    }

    /// The segment's plane.
    pub open spec fn plane(self) -> FaultPlane {
        FaultPlane {
            origin: GeoPoint { lat_deg: self.fault_lat_deg, lon_deg: self.fault_lon_deg },
            strike_deg: self.strike_deg,
            dip_deg: self.dip_deg,
            top_depth_km: self.top_depth_km,
            along_strike_offset_km: self.along_strike_offset_km,
            subfault_length_km: self.subfault_length_km,
            subfault_width_km: self.subfault_width_km,
            along_strike_count: self.along_strike_count,
            down_dip_count: self.down_dip_count,
        }
    }

    /// A segment of its plane, its rake, the place of its hypocentre and its subfaults, strike
    /// index fastest.
    pub fn new(
        plane: FaultPlane,
        rake_deg: Single,
        hypocentre_along_strike_km: Single,
        hypocentre_down_dip_km: Single,
        subfaults: Vec<Subfault>,
    ) -> (s: Self)
        requires
            subfaults.len() == plane.along_strike_count * plane.down_dip_count,
        ensures
            s.well_formed(),
            s.plane() == plane,
            s.rake_deg == rake_deg,
            s.hypocentre_along_strike_km == hypocentre_along_strike_km,
            s.hypocentre_down_dip_km == hypocentre_down_dip_km,
            s.subfaults == subfaults,
    {
        Segment {
            fault_lon_deg: plane.origin.lon_deg,
            fault_lat_deg: plane.origin.lat_deg,
            along_strike_count: plane.along_strike_count,
            down_dip_count: plane.down_dip_count,
            subfault_length_km: plane.subfault_length_km,
            subfault_width_km: plane.subfault_width_km,
            strike_deg: plane.strike_deg,
            dip_deg: plane.dip_deg,
            rake_deg,
            top_depth_km: plane.top_depth_km,
            hypocentre_along_strike_km,
            hypocentre_down_dip_km,
            along_strike_offset_km: plane.along_strike_offset_km,
            subfaults,
        }
    }

    /// The segment's plane, as the geometry sees it.
    pub fn fault_plane(&self) -> (p: FaultPlane)
        ensures
            p == self.plane(),
    {
        FaultPlane {
            origin: GeoPoint { lat_deg: self.fault_lat_deg, lon_deg: self.fault_lon_deg },
            strike_deg: self.strike_deg,
            dip_deg: self.dip_deg,
            top_depth_km: self.top_depth_km,
            along_strike_offset_km: self.along_strike_offset_km,
            subfault_length_km: self.subfault_length_km,
            subfault_width_km: self.subfault_width_km,
            along_strike_count: self.along_strike_count,
            down_dip_count: self.down_dip_count,
        }
    }

    /// Subfault count.
    pub fn subfault_total(&self) -> (n: usize)
        requires
            self.well_formed(),
        ensures
            n == self.along_strike_count * self.down_dip_count,
    {
        self.subfaults.len()
    }

    /// The place of subfault `(along_strike, down_dip)` in storage.
    pub fn grid_index(&self, along_strike: usize, down_dip: usize) -> (place: usize)
        requires
            self.well_formed(),
            self.holds(along_strike as int, down_dip as int),
        ensures
            place == place_of(
                self.along_strike_count as int,
                along_strike as int,
                down_dip as int,
            ),
            place < self.subfaults.len(),
    {
        proof {
            places_are_in_storage(
                self.along_strike_count as int,
                self.down_dip_count as int,
                along_strike as int,
                down_dip as int,
            );
        }
        (down_dip - 1) * self.along_strike_count + (along_strike - 1)
    }

    /// Subfault `along_strike` of depth row `down_dip`.
    pub fn at(&self, along_strike: usize, down_dip: usize) -> (s: Subfault)
        requires
            self.well_formed(),
            self.holds(along_strike as int, down_dip as int),
        ensures
            s == self.subfaults@[place_of(
                self.along_strike_count as int,
                along_strike as int,
                down_dip as int,
            )],
    {
        self.subfaults[self.grid_index(along_strike, down_dip)]
    }

    /// Depth row `row`, the shallowest first, as one run.
    pub fn depth_row(&self, row: usize) -> (r: &[Subfault])
        requires
            self.well_formed(),
            row < self.down_dip_count,
        ensures
            r@ == self.subfaults@.subrange(
                row * self.along_strike_count,
                (row + 1) * self.along_strike_count,
            ),
    {
        proof {
            let (a, d, n) = (
                self.along_strike_count as int,
                self.down_dip_count as int,
                row as int,
            );
            assert(0 <= n * a <= (n + 1) * a <= a * d) by (nonlinear_arith)
                requires
                    0 <= n < d,
                    a >= 0,
            ;
            assert((n + 1) * a == n * a + a) by (nonlinear_arith);
        }
        let start: usize = row * self.along_strike_count;
        let end: usize = start + self.along_strike_count;
        slice_subrange(self.subfaults.as_slice(), start, end)
    }

    /// All depth rows, the shallowest first.
    pub fn depth_rows(&self) -> (rows: Vec<&[Subfault]>)
        requires
            self.well_formed(),
        ensures
            rows.len() == self.down_dip_count,
            forall|row: int|
                0 <= row < rows.len() ==> (#[trigger] rows@[row])@ == self.subfaults@.subrange(
                    row * self.along_strike_count,
                    (row + 1) * self.along_strike_count,
                ),
    {
        let mut rows: Vec<&[Subfault]> = Vec::new();
        let mut row: usize = 0;
        while row < self.down_dip_count
            invariant
                self.well_formed(),
                row <= self.down_dip_count,
                rows.len() == row,
                forall|r: int|
                    0 <= r < row ==> (#[trigger] rows@[r])@ == self.subfaults@.subrange(
                        r * self.along_strike_count,
                        (r + 1) * self.along_strike_count,
                    ),
            decreases self.down_dip_count - row,
        {
            rows.push(self.depth_row(row));
            row += 1;
        }
        rows
    }

    /// Every subfault `(i, j)` once, the depth index outermost.
    pub fn depth_major(&self) -> (order: Vec<(usize, usize)>)
        requires
            self.well_formed(),
        ensures
            order@ == Seq::new(
                (self.along_strike_count * self.down_dip_count) as nat,
                |k: int| depth_major_at(self.along_strike_count as int, k),
            ),
    {
        grid_order(self.along_strike_count, self.subfaults.len(), true)
    }

    /// Every subfault `(i, j)` once, the strike index outermost.
    pub fn strike_major(&self) -> (order: Vec<(usize, usize)>)
        requires
            self.well_formed(),
        ensures
            order@ == Seq::new(
                (self.along_strike_count * self.down_dip_count) as nat,
                |k: int| strike_major_at(self.down_dip_count as int, k),
            ),
    {
        grid_order(self.down_dip_count, self.subfaults.len(), false)
    }
}

/// The first `total` pairs of an order whose inner index runs to `inner`: the pair is
/// `(inner, outer)`, or the other way round.
fn grid_order(inner: usize, total: usize, inner_first: bool) -> (order: Vec<(usize, usize)>)
    requires
        total > 0 ==> inner > 0,
    ensures
        order.len() == total,
        forall|k: int|
            0 <= k < total ==> #[trigger] order@[k] == if inner_first {
                depth_major_at(inner as int, k)
            } else {
                strike_major_at(inner as int, k)
            },
{
    let mut order: Vec<(usize, usize)> = Vec::new();
    let mut k: usize = 0;
    while k < total
        invariant
            k <= total,
            total > 0 ==> inner > 0,
            order.len() == k,
            forall|n: int|
                0 <= n < k ==> #[trigger] order@[n] == if inner_first {
                    depth_major_at(inner as int, n)
                } else {
                    strike_major_at(inner as int, n)
                },
        decreases total - k,
    {
        proof {
            lemma_div_is_ordered_by_denominator(k as int, 1, inner as int);
            lemma_mod_bound(k as int, inner as int);
            lemma_div_basics_2(k as int);
        }
        let (a, b): (usize, usize) = (k % inner + 1, k / inner + 1);
        order.push(
            if inner_first {
                (a, b)
            } else {
                (b, a)
            },
        );
        k += 1;
    }
    order
}

/// The whole slip model.
pub struct SlipModel {
    pub segments: Vec<Segment>,
    /// Subfault count over all segments.
    pub subfault_count: usize,
    /// Total fault area, km².
    pub fault_area_km2: Single,
    /// Deepest hypocentre over the segments.
    pub max_hypocentre_depth_km: Single,
}

/// How many subfaults the first `n` segments have.
pub open spec fn subfaults_in(segments: Seq<Segment>, n: nat) -> int
    decreases n,
{
    if n == 0 {
        0
    } else {
        subfaults_in(segments, (n - 1) as nat) + segments[n - 1].along_strike_count
            * segments[n - 1].down_dip_count
    }
}

/// More segments never have fewer subfaults.
proof fn subfaults_ascend(segments: Seq<Segment>, m: nat, n: nat)
    requires
        m <= n,
    ensures
        0 <= subfaults_in(segments, m) <= subfaults_in(segments, n),
    decreases n,
{
    if n > 0 {
        let s = segments[n - 1];
        assert(0 <= s.along_strike_count * s.down_dip_count) by (nonlinear_arith);
        if m < n {
            subfaults_ascend(segments, m, (n - 1) as nat);
        } else {
            subfaults_ascend(segments, (m - 1) as nat, (n - 1) as nat);
        }
    }
}

impl SlipModel {
    /// Assemble a slip model from its segments, their total area and their hypocentre depths.
    pub fn new(
        segments: Vec<Segment>,
        fault_area_km2: Single,
        hypocentre_depths_km: &Vec<Single>,
    ) -> (m: Self)
        requires
            forall|s: int| 0 <= s < segments.len() ==> (#[trigger] segments@[s]).well_formed(),
            hypocentre_depths_km.len() == segments.len(),
            subfaults_in(segments@, segments@.len()) <= usize::MAX,
        ensures
            m.segments == segments,
            m.subfault_count == subfaults_in(segments@, segments@.len()),
            m.fault_area_km2 == fault_area_km2,
            m.max_hypocentre_depth_km == reals::largest(
                hypocentre_depths_km@,
                segments@.len(),
            ),
    {
        let mut subfault_count: usize = 0;
        let mut s: usize = 0;
        while s < segments.len()
            invariant
                s <= segments.len(),
                hypocentre_depths_km.len() == segments.len(),
                forall|s: int|
                    0 <= s < segments.len() ==> (#[trigger] segments@[s]).well_formed(),
                subfaults_in(segments@, segments@.len()) <= usize::MAX,
                subfault_count == subfaults_in(segments@, s as nat),
            decreases segments.len() - s,
        {
            proof {
                assert(segments@[s as int].well_formed());
                subfaults_ascend(segments@, (s + 1) as nat, segments@.len());
            }
            subfault_count += segments[s].subfault_total();
            s += 1;
        }
        SlipModel {
            segments,
            subfault_count,
            fault_area_km2,
            max_hypocentre_depth_km: largest_of(hypocentre_depths_km),
        }
    }
}

// ---------------------------------------------------------------------------
// Laws
// ---------------------------------------------------------------------------

/// The strike index runs fastest: the next subfault along strike stands right after, and the first
/// of a row right after the last of the row above.
pub proof fn the_strike_index_runs_fastest(along: int, i: int, j: int)
    ensures
        place_of(along, 1, 1) == 0,
        place_of(along, i + 1, j) == place_of(along, i, j) + 1,
        place_of(along, 1, j + 1) == place_of(along, along, j) + 1,
{
    assert(((j + 1) - 1) * along == (j - 1) * along + along) by (nonlinear_arith);
    assert((1 - 1) * along == 0) by (nonlinear_arith);
}

/// A depth row is one run of storage: what stands at place `i` of row `row` is subfault `i + 1` of
/// that row, and no other row has it.
pub proof fn depth_rows_are_runs(segment: Segment, row: int, i: int)
    requires
        segment.well_formed(),
        0 <= row < segment.down_dip_count,
        0 <= i < segment.along_strike_count,
    ensures
        ({
            let along = segment.along_strike_count as int;
            let run = segment.subfaults@.subrange(row * along, (row + 1) * along);
            run.len() == along && run[i] == segment.subfaults@[place_of(along, i + 1, row + 1)]
        }),
{
    let (a, d) = (segment.along_strike_count as int, segment.down_dip_count as int);
    assert(0 <= row * a <= (row + 1) * a <= a * d) by (nonlinear_arith)
        requires
            0 <= row < d,
            a >= 0,
    ;
    assert((row + 1) * a == row * a + a) by (nonlinear_arith);
}

/// A plane has of its segment what bears the same name: the origin its latitude and longitude,
/// each side its own length, width and count.
pub proof fn planes_are_of_their_segments(segment: Segment)
    ensures
        segment.plane().origin.lat_deg == segment.fault_lat_deg,
        segment.plane().origin.lon_deg == segment.fault_lon_deg,
        segment.plane().strike_deg == segment.strike_deg,
        segment.plane().dip_deg == segment.dip_deg,
        segment.plane().top_depth_km == segment.top_depth_km,
        segment.plane().along_strike_offset_km == segment.along_strike_offset_km,
        segment.plane().subfault_length_km == segment.subfault_length_km,
        segment.plane().subfault_width_km == segment.subfault_width_km,
        segment.plane().along_strike_count == segment.along_strike_count,
        segment.plane().down_dip_count == segment.down_dip_count,
{
}

/// Every segment adds its subfaults to the count, and nothing else does.
pub proof fn segments_add_their_subfaults(segments: Seq<Segment>, segment: Segment)
    requires
        segment.well_formed(),
    ensures
        subfaults_in(Seq::<Segment>::empty(), 0) == 0,
        subfaults_in(segments.push(segment), segments.len() + 1) == subfaults_in(
            segments,
            segments.len(),
        ) + segment.subfaults.len(),
{
    earlier_segments_count_alike(segments, segment, segments.len());
}

/// A segment more changes nothing in the count of those before it.
proof fn earlier_segments_count_alike(segments: Seq<Segment>, segment: Segment, n: nat)
    requires
        n <= segments.len(),
    ensures
        subfaults_in(segments.push(segment), n) == subfaults_in(segments, n),
    decreases n,
{
    if n > 0 {
        earlier_segments_count_alike(segments, segment, (n - 1) as nat);
    }
}

} // verus!
