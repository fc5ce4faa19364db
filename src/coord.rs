//! Chunk lattice coordinates and the integer geometry of the world plane.

use vstd::prelude::*;

verus! {

/// Millimetres per metre: the world unit is the millimetre.
pub const MM_PER_METER: i64 = 1000;

/// Side of one chunk, in metres.
pub const CHUNK_SIZE_METERS: i64 = 32;

/// Side of one chunk, in millimetres.
pub const CHUNK_SIZE_MM: i64 = 32000;

/// Grid cells along one side of a chunk (one sample per metre).
pub const CHUNK_FIDELITY: usize = 32;

/// Samples along one side of a chunk's elevation grid.
pub const GRID_SIDE: usize = 33;

/// Largest magnitude of a chunk coordinate on either axis.
pub const COORD_LIMIT: i32 = 4096;

/// Largest magnitude of a world position on either axis, in millimetres.
pub const WORLD_LIMIT: i64 = 131_072_000;

/// A position on the world plane lies in the supported region.
pub open spec fn in_world(x: int, z: int) -> bool {
    -WORLD_LIMIT <= x <= WORLD_LIMIT && -WORLD_LIMIT <= z <= WORLD_LIMIT
}

/// Integer coordinate of a chunk on the lattice.
#[derive(Clone, Copy, Debug, PartialEq, Eq, Structural, Hash)]
pub struct ChunkCoord {
    pub x: i32,
    pub z: i32,
}

impl ChunkCoord {
    /// The chunk's footprint lies in the supported region.
    pub open spec fn valid(self) -> bool {
        -COORD_LIMIT <= self.x < COORD_LIMIT && -COORD_LIMIT <= self.z < COORD_LIMIT
    }

    /// World position of the chunk's corner, in millimetres.
    pub open spec fn offset_spec(self) -> (int, int) {
        (self.x * CHUNK_SIZE_MM, self.z * CHUNK_SIZE_MM)
    }

    pub fn new(x: i32, z: i32) -> (r: ChunkCoord)
        ensures
            r.x == x,
            r.z == z,
    {
        ChunkCoord { x, z }
    }

    /// World position of the chunk's corner, in millimetres.
    pub fn world_offset(&self) -> (r: (i64, i64))
        requires
            self.valid(),
        ensures
            r.0 == self.offset_spec().0,
            r.1 == self.offset_spec().1,
            in_world(r.0 as int, r.1 as int),
            in_world(r.0 + CHUNK_SIZE_MM, r.1 + CHUNK_SIZE_MM),
    {
        (self.x as i64 * CHUNK_SIZE_MM, self.z as i64 * CHUNK_SIZE_MM)
    }
}

/// Floor division by a positive divisor.
pub fn floor_div(a: i64, b: i64) -> (q: i64)
    requires
        b > 0,
    ensures
        q == a as int / b as int,
{
    if a >= 0 {
        ((a as u64) / (b as u64)) as i64
    } else {
        let n: u64 = (-(a + 1)) as u64;
        let t: u64 = n / (b as u64);
        proof {
            let ai = a as int;
            let bi = b as int;
            let ni = n as int;
            let ti = t as int;
            assert(ni == -ai - 1);
            assert(ti == ni / bi);
            vstd::arithmetic::div_mod::lemma_fundamental_div_mod(ni, bi);
            vstd::arithmetic::div_mod::lemma_fundamental_div_mod(ai, bi);
            let q = -ti - 1;
            let r = ai - q * bi;
            assert(r == bi - 1 - (ni - ti * bi)) by (nonlinear_arith)
                requires
                    r == ai - q * bi,
                    q == -ti - 1,
                    ni == -ai - 1,
            ;
            vstd::arithmetic::div_mod::lemma_div_pos_is_pos(ni, bi);
            assert(0 <= ni % bi < bi) by {
                vstd::arithmetic::div_mod::lemma_mod_bound(ni, bi);
            }
            vstd::arithmetic::div_mod::lemma_fundamental_div_mod_converse(ai, bi, q, r);
            assert(ti <= ni) by {
                vstd::arithmetic::div_mod::lemma_div_is_ordered_by_denominator(ni, 1, bi);
            }
        }
        -(t as i64) - 1
    }
}

/// The chunk that holds a world position.
pub open spec fn chunk_of_spec(x: int, z: int) -> ChunkCoord {
    ChunkCoord { x: (x / CHUNK_SIZE_MM as int) as i32, z: (z / CHUNK_SIZE_MM as int) as i32 }
}

/// The chunk that holds a world position.
pub fn chunk_of(x: i64, z: i64) -> (r: ChunkCoord)
    requires
        in_world(x as int, z as int),
    ensures
        r == chunk_of_spec(x as int, z as int),
        -COORD_LIMIT <= r.x <= COORD_LIMIT,
        -COORD_LIMIT <= r.z <= COORD_LIMIT,
        r.offset_spec().0 <= x < r.offset_spec().0 + CHUNK_SIZE_MM,
        r.offset_spec().1 <= z < r.offset_spec().1 + CHUNK_SIZE_MM,
{
    let cx = floor_div(x, CHUNK_SIZE_MM);
    let cz = floor_div(z, CHUNK_SIZE_MM);
    proof {
        vstd::arithmetic::div_mod::lemma_fundamental_div_mod(x as int, CHUNK_SIZE_MM as int);
        vstd::arithmetic::div_mod::lemma_fundamental_div_mod(z as int, CHUNK_SIZE_MM as int);
    }
    ChunkCoord { x: cx as i32, z: cz as i32 }
}

} // verus!
