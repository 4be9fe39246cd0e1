//! The geometry of a segment seen from a station, one entry per subfault.

use vstd::prelude::*;

use crate::reals::Single;
use crate::slip_model;
use crate::slip_model::FaultPlane;

verus! {

/// One subfault's source-to-station geometry.
#[derive(Clone, Copy, Debug, PartialEq, Eq, Structural)]
pub struct SubfaultRay {
    /// Slant distance from subfault to station, km.
    pub slant_km: Single,
    /// Station azimuth seen from the subfault, radians.
    pub azimuth_rad: Single,
    /// Geometric take-off angle, radians.
    pub takeoff_rad: Single,
    /// Horizontal distance from subfault to station, km.
    pub horiz_km: Single,
    /// Subfault depth below the surface, km.
    pub depth_km: Single,
}

/// Every subfault of one segment, as seen from one station.
pub struct SubfaultGeometry {
    along_strike_count: usize,
    down_dip_count: usize,
    rays: Vec<SubfaultRay>,
}

impl SubfaultGeometry {
    /// The grid's sides.
    pub closed spec fn sides(self) -> (int, int) {
        (self.along_strike_count as int, self.down_dip_count as int)
    }

    /// The entries, strike index fastest.
    pub closed spec fn entries(self) -> Seq<SubfaultRay> {
        self.rays@
    }

    /// Whether there is an entry for every subfault of the grid.
    pub open spec fn well_formed(self) -> bool {
        self.entries().len() == self.sides().0 * self.sides().1
    }

    /// The geometry of a plane, its entries in storage order.
    pub fn new(plane: &FaultPlane, rays: Vec<SubfaultRay>) -> (g: Self)
        requires
            rays.len() == plane.along_strike_count * plane.down_dip_count,
        ensures
            g.well_formed(),
            g.sides() == (plane.along_strike_count as int, plane.down_dip_count as int),
            g.entries() == rays@,
    {
        SubfaultGeometry {
            along_strike_count: plane.along_strike_count,
            down_dip_count: plane.down_dip_count,
            rays,
        }
    }

    /// Subfault `along_strike` of depth row `down_dip`.
    ///
    /// Both numbers must be on the grid. The place alone would not tell: a number past the end
    /// of a row is a place in the next.
    pub fn at(&self, along_strike: usize, down_dip: usize) -> (r: SubfaultRay)
        requires
            self.well_formed(),
            slip_model::on_grid(
                self.sides().0,
                self.sides().1,
                along_strike as int,
                down_dip as int,
            ),
        ensures
            r == self.entries()[slip_model::place_of(
                self.sides().0,
                along_strike as int,
                down_dip as int,
            )],
    {
        proof {
            assert(self.entries().len() == self.rays.len());
            slip_model::storage_is_depth_major(
                self.sides().0,
                self.sides().1,
                0,
                along_strike as int,
                down_dip as int,
            );
            assert(0 <= (down_dip - 1) * self.along_strike_count) by (nonlinear_arith)
                requires
                    down_dip >= 1,
            ;
        }
        self.rays[(down_dip - 1) * self.along_strike_count + (along_strike - 1)]
    }
}

} // verus!
