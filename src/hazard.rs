//! Bunkers: rotated elliptical pits that lower the terrain.

use vstd::prelude::*;
use crate::arith::{floor_div_wide, lemma_mul_abs_bound};
use crate::coord::WORLD_LIMIT;

verus! {

/// Depth of a bunker at its centre, in millimetres.
pub const BUNKER_DEPTH: i64 = 600;

/// Smallest and largest semi-major axis of a bunker, in millimetres.
pub const MIN_BUNKER_SIZE: i64 = 4000;
pub const MAX_BUNKER_SIZE: i64 = 12000;

/// Number of rotations a bunker may take, evenly spaced over half a turn.
pub const ROTATIONS: u8 = 8;

/// Length of a rotation's direction vector.
pub const DIRECTION_LENGTH: i64 = 1000;

/// A bunker: an ellipse centred at `(center_x, center_z)` whose major axis
/// points along direction `rotation` and measures `size`; its minor axis is
/// half as long. A `size` of zero stands for no bunker.
#[derive(Clone, Copy, Debug, PartialEq, Eq, Structural)]
pub struct Hazard {
    pub center_x: i64,
    pub center_z: i64,
    pub rotation: u8,
    pub size: i64,
}

/// The direction of the major axis for each rotation, rounded to length 1000.
pub open spec fn direction_spec(k: u8) -> (int, int) {
    if k == 0 {
        (1000, 0)
    } else if k == 1 {
        (924, 383)
    } else if k == 2 {
        (707, 707)
    } else if k == 3 {
        (383, 924)
    } else if k == 4 {
        (0, 1000)
    } else if k == 5 {
        (-383, 924)
    } else if k == 6 {
        (-707, 707)
    } else {
        (-924, 383)
    }
}

fn direction(k: u8) -> (r: (i64, i64))
    ensures
        r.0 == direction_spec(k).0,
        r.1 == direction_spec(k).1,
        -1000 <= r.0 <= 1000,
        -1000 <= r.1 <= 1000,
{
    if k == 0 {
        (1000, 0)
    } else if k == 1 {
        (924, 383)
    } else if k == 2 {
        (707, 707)
    } else if k == 3 {
        (383, 924)
    } else if k == 4 {
        (0, 1000)
    } else if k == 5 {
        (-383, 924)
    } else if k == 6 {
        (-707, 707)
    } else {
        (-924, 383)
    }
}

impl Hazard {
    /// The bunker that is not there.
    pub open spec fn none_spec() -> Hazard {
        Hazard { center_x: 0, center_z: 0, rotation: 0, size: 0 }
    }

    /// The bunker that is not there.
    pub fn none() -> (r: Hazard)
        ensures
            r == Hazard::none_spec(),
    {
        Hazard { center_x: 0, center_z: 0, rotation: 0, size: 0 }
    }

    /// The fields lie in their supported ranges.
    pub open spec fn wf(self) -> bool {
        -WORLD_LIMIT <= self.center_x <= WORLD_LIMIT && -WORLD_LIMIT <= self.center_z
            <= WORLD_LIMIT && self.rotation < ROTATIONS && 0 <= self.size <= MAX_BUNKER_SIZE
    }

    /// The ellipse's measure of `(x, z)`, scaled so that the boundary is at
    /// `self.boundary_spec()`: `along² + 4·across²`.
    pub open spec fn measure_spec(self, x: int, z: int) -> int {
        let u = direction_spec(self.rotation);
        let dx = x - self.center_x;
        let dz = z - self.center_z;
        let along = dx * u.0 + dz * u.1;
        let across = dz * u.0 - dx * u.1;
        along * along + 4 * (across * across)
    }

    pub open spec fn boundary_spec(self) -> int {
        DIRECTION_LENGTH * DIRECTION_LENGTH * (self.size * self.size)
    }

    /// How far the bunker lowers the terrain at `(x, z)`: `BUNKER_DEPTH` at
    /// the centre, falling linearly in the ellipse's measure to zero at its
    /// boundary, rounded down; zero outside.
    pub open spec fn depth_spec(self, x: int, z: int) -> int {
        let q = self.measure_spec(x, z);
        let m = self.boundary_spec();
        if q < m {
            BUNKER_DEPTH * (m - q) / m
        } else {
            0
        }
    }

    /// How far the bunker lowers the terrain at `(x, z)`.
    pub fn depth_at(&self, x: i64, z: i64) -> (r: i64)
        requires
            self.wf(),
            -WORLD_LIMIT <= x <= WORLD_LIMIT,
            -WORLD_LIMIT <= z <= WORLD_LIMIT,
        ensures
            r == self.depth_spec(x as int, z as int),
            0 <= r <= BUNKER_DEPTH,
    {
        let u = direction(self.rotation);
        let dx = x as i128 - self.center_x as i128;
        let dz = z as i128 - self.center_z as i128;
        let ghost l = 2 * WORLD_LIMIT;
        proof {
            lemma_mul_abs_bound(dx as int, u.0 as int, l, 1000);
            lemma_mul_abs_bound(dz as int, u.1 as int, l, 1000);
            lemma_mul_abs_bound(dz as int, u.0 as int, l, 1000);
            lemma_mul_abs_bound(dx as int, u.1 as int, l, 1000);
        }
        let along = dx * u.0 as i128 + dz * u.1 as i128;
        let across = dz * u.0 as i128 - dx * u.1 as i128;
        proof {
            lemma_mul_abs_bound(along as int, along as int, 2000 * l, 2000 * l);
            lemma_mul_abs_bound(across as int, across as int, 2000 * l, 2000 * l);
            assert(0 <= along * along) by (nonlinear_arith);
            assert(0 <= across * across) by (nonlinear_arith);
            lemma_mul_abs_bound(
                self.size as int,
                self.size as int,
                MAX_BUNKER_SIZE as int,
                MAX_BUNKER_SIZE as int,
            );
            assert(0 <= self.size * self.size) by (nonlinear_arith);
        }
        let q = along * along + 4 * (across * across);
        let m = (DIRECTION_LENGTH * DIRECTION_LENGTH) as i128 * (self.size as i128 * self.size as i128);
        if q < m {
            proof {
                let v = BUNKER_DEPTH * (m - q);
                assert(0 < v <= BUNKER_DEPTH * m) by (nonlinear_arith)
                    requires
                        v == BUNKER_DEPTH * (m - q),
                        0 <= q < m,
                ;
                vstd::arithmetic::div_mod::lemma_div_is_ordered(v, BUNKER_DEPTH * m, m as int);
                vstd::arithmetic::div_mod::lemma_div_pos_is_pos(v, m as int);
                vstd::arithmetic::div_mod::lemma_div_multiples_vanish(BUNKER_DEPTH as int, m as int);
                vstd::arithmetic::mul::lemma_mul_is_commutative(BUNKER_DEPTH as int, m as int);
            }
            floor_div_wide(BUNKER_DEPTH as i128 * (m - q), m) as i64
        } else {
            0
        }
    }
}

} // verus!
