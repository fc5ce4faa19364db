//! A chunk: one square of terrain with its cached elevation grid, props,
//! and the layout and bunker that its generator gave it.

use vstd::prelude::*;
use crate::arith::floor_div_wide;
use crate::coord::{in_world, ChunkCoord, CHUNK_FIDELITY, CHUNK_SIZE_MM, GRID_SIDE, MM_PER_METER};
use crate::course::Polynomial;
use crate::generator::{column_of, in_footprint, kept_props, Prop, TerrainGenerator};
use crate::hazard::Hazard;

verus! {

/// Number of samples in a chunk's elevation grid.
pub const GRID_LEN: usize = 1089;

/// Fixed-point one of a fractional position within a grid cell.
pub const CELL: i64 = 1000;

/// Index of grid sample `(ix, iz)`: x outer, z inner.
pub open spec fn grid_index(ix: int, iz: int) -> int {
    ix * GRID_SIDE + iz
}

/// Bilinear interpolation of four corner samples at the fractional
/// position `(fx, fz)` within the cell, rounded down; `h10` is the corner
/// one step along x, `h01` one step along z.
pub open spec fn bilinear(h00: int, h10: int, h01: int, h11: int, fx: int, fz: int) -> int {
    (h00 * ((CELL - fx) * (CELL - fz)) + h10 * (fx * (CELL - fz)) + h01 * ((CELL - fx) * fz) + h11
        * (fx * fz)) / (CELL * CELL) as int
}

/// Number of vertex indices in a chunk's triangle list.
pub const MESH_INDEX_LEN: usize = 6144;

/// Vertex index `k` of the triangle list: cell `k / 6`, taken x outer, and
/// corner `k % 6` of its two triangles.
pub open spec fn mesh_index_spec(k: int) -> u32 {
    let n = CHUNK_FIDELITY as int;
    let cell = k / 6;
    let x = cell / n;
    let y = cell % n;
    let base = y * (n + 1) + x;
    let j = k % 6;
    (if j == 0 {
        base
    } else if j == 1 || j == 3 {
        base + 1
    } else if j == 4 {
        base + n + 2
    } else {
        base + n + 1
    }) as u32
}

proof fn lemma_mesh_index_bound(k: int)
    requires
        0 <= k < MESH_INDEX_LEN,
    ensures
        mesh_index_spec(k) < GRID_LEN,
{
    let n = CHUNK_FIDELITY as int;
    let cell = k / 6;
    vstd::arithmetic::div_mod::lemma_div_is_ordered(k, MESH_INDEX_LEN - 1, 6);
    vstd::arithmetic::div_mod::lemma_div_pos_is_pos(k, 6);
    vstd::arithmetic::div_mod::lemma_div_is_ordered(cell, n * n - 1, n);
    vstd::arithmetic::div_mod::lemma_div_pos_is_pos(cell, n);
    vstd::arithmetic::div_mod::lemma_mod_bound(cell, n);
    vstd::arithmetic::div_mod::lemma_mod_bound(k, 6);
    let x = cell / n;
    let y = cell % n;
    assert(y * (n + 1) + x + n + 2 < GRID_LEN) by (nonlinear_arith)
        requires
            0 <= x < n,
            0 <= y < n,
            n == 32,
    ;
}

/// One square of terrain. It is built once from a generator and never
/// changes.
pub struct Chunk {
    coord: ChunkCoord,
    world_offset: (i64, i64),
    elevation: Vec<i64>,
    props: Vec<Prop>,
    course: Polynomial,
    hazard: Hazard,
}

impl Chunk {
    pub closed spec fn coord_view(&self) -> ChunkCoord {
        self.coord
    }

    pub closed spec fn elevation_view(&self) -> Seq<i64> {
        self.elevation@
    }

    pub closed spec fn props_view(&self) -> Seq<Prop> {
        self.props@
    }

    pub closed spec fn course_view(&self) -> Polynomial {
        self.course
    }

    pub closed spec fn hazard_view(&self) -> Hazard {
        self.hazard
    }

    /// The chunk's grid holds `GRID_SIDE × GRID_SIDE` samples and its
    /// offset matches its coordinate.
    pub closed spec fn wf(&self) -> bool {
        &&& self.coord.valid()
        &&& self.elevation@.len() == GRID_LEN
        &&& self.world_offset.0 == self.coord.offset_spec().0
        &&& self.world_offset.1 == self.coord.offset_spec().1
    }

    /// Elevation sample `(ix, iz)`, at `ix` metres along x and `iz` along z
    /// from the chunk's corner.
    pub open spec fn sample(&self, ix: int, iz: int) -> int {
        self.elevation_view()[grid_index(ix, iz)] as int
    }

    /// Everything in the chunk is what `g` gives for its coordinate: each
    /// sample is `g`'s elevation at its point, the layout and the bunker are
    /// `g`'s, and the props are those that `g`'s drawn candidates give.
    pub open spec fn built_by<G: TerrainGenerator>(&self, g: &G) -> bool {
        let c = self.coord_view();
        let o = c.offset_spec();
        &&& self.wf()
        &&& c.valid()
        &&& forall|ix: int, iz: int|
            0 <= ix < GRID_SIDE && 0 <= iz < GRID_SIDE ==> #[trigger] self.sample(ix, iz)
                == g.height_spec(o.0 + ix * MM_PER_METER, o.1 + iz * MM_PER_METER)
        &&& self.course_view() == g.layout_spec()
        &&& self.hazard_view() == g.bunker_spec(column_of(o.0))
        &&& exists|d: Seq<(i64, i64, u32)>|
            d.len() == g.prop_candidates_spec(c) && in_footprint(d) && self.props_view()
                == #[trigger] kept_props(g.zone_fn(), g.height_fn(), c, d)
    }

    /// Builds the chunk at `coord` from `generator`: samples the elevation
    /// at every metre of the footprint, edges included, and takes the props,
    /// the layout and the bunker of the chunk's column.
    pub fn generate_at<G: TerrainGenerator>(generator: &G, coord: ChunkCoord) -> (r: Chunk)
        requires
            generator.wf(),
            coord.valid(),
        ensures
            r.coord_view() == coord,
            r.built_by(generator),
    {
        let world_offset = coord.world_offset();
        let mut elevation: Vec<i64> = Vec::with_capacity(GRID_LEN);
        let mut ix: usize = 0;
        while ix < GRID_SIDE
            invariant
                0 <= ix <= GRID_SIDE,
                generator.wf(),
                world_offset.0 == coord.offset_spec().0,
                world_offset.1 == coord.offset_spec().1,
                in_world(world_offset.0 as int, world_offset.1 as int),
                in_world(world_offset.0 + CHUNK_SIZE_MM, world_offset.1 + CHUNK_SIZE_MM),
                elevation@.len() == ix * GRID_SIDE,
                forall|k: int|
                    0 <= k < elevation@.len() ==> #[trigger] elevation@[k] == generator.height_spec(
                        world_offset.0 + (k / GRID_SIDE as int) * MM_PER_METER,
                        world_offset.1 + (k % GRID_SIDE as int) * MM_PER_METER,
                    ),
            decreases GRID_SIDE - ix,
        {
            let mut iz: usize = 0;
            while iz < GRID_SIDE
                invariant
                    0 <= ix < GRID_SIDE,
                    0 <= iz <= GRID_SIDE,
                    generator.wf(),
                    world_offset.0 == coord.offset_spec().0,
                    world_offset.1 == coord.offset_spec().1,
                    in_world(world_offset.0 as int, world_offset.1 as int),
                    in_world(world_offset.0 + CHUNK_SIZE_MM, world_offset.1 + CHUNK_SIZE_MM),
                    elevation@.len() == ix * GRID_SIDE + iz,
                    forall|k: int|
                        0 <= k < elevation@.len() ==> #[trigger] elevation@[k]
                            == generator.height_spec(
                            world_offset.0 + (k / GRID_SIDE as int) * MM_PER_METER,
                            world_offset.1 + (k % GRID_SIDE as int) * MM_PER_METER,
                        ),
                decreases GRID_SIDE - iz,
            {
                let x = world_offset.0 + ix as i64 * MM_PER_METER;
                let z = world_offset.1 + iz as i64 * MM_PER_METER;
                let height = generator.height_at(x, z);
                proof {
                    let k = ix * GRID_SIDE + iz;
                    vstd::arithmetic::div_mod::lemma_fundamental_div_mod_converse(
                        k as int,
                        GRID_SIDE as int,
                        ix as int,
                        iz as int,
                    );
                }
                elevation.push(height);
                iz = iz + 1;
            }
            ix = ix + 1;
        }
        let props = generator.props_in_chunk(coord);
        let course = generator.course_layout();
        let hazard = generator.nearest_bunker(world_offset);
        let r = Chunk { coord, world_offset, elevation, props, course, hazard };
        assert forall|ix: int, iz: int|
            0 <= ix < GRID_SIDE && 0 <= iz < GRID_SIDE implies #[trigger] r.sample(ix, iz)
                == generator.height_spec(
                coord.offset_spec().0 + ix * MM_PER_METER,
                coord.offset_spec().1 + iz * MM_PER_METER,
            ) by {
            let k = ix * GRID_SIDE + iz;
            vstd::arithmetic::div_mod::lemma_fundamental_div_mod_converse(
                k,
                GRID_SIDE as int,
                ix,
                iz,
            );
            assert(0 <= k < GRID_LEN) by (nonlinear_arith)
                requires
                    0 <= ix < GRID_SIDE,
                    0 <= iz < GRID_SIDE,
                    k == ix * GRID_SIDE + iz,
            ;
        }
        r
    }

    /// The interpolated elevation at chunk-local `(sx, sz)`: bilinear over
    /// the grid cell that holds the point; nothing where the cell's far
    /// corners would fall outside the grid.
    pub open spec fn interpolate_spec(&self, sx: int, sz: int) -> Option<i64> {
        let ix = sx / CELL as int;
        let iz = sz / CELL as int;
        if sx < 0 || sz < 0 || ix >= CHUNK_FIDELITY || iz >= CHUNK_FIDELITY {
            None
        } else {
            Some(
                bilinear(
                    self.sample(ix, iz),
                    self.sample(ix + 1, iz),
                    self.sample(ix, iz + 1),
                    self.sample(ix + 1, iz + 1),
                    sx % CELL as int,
                    sz % CELL as int,
                ) as i64,
            )
        }
    }

    /// The elevation at chunk-local `(sub_chunk_x, sub_chunk_z)`, in
    /// millimetres, interpolated bilinearly over the grid cell that holds
    /// it; `None` where the cell's far corners fall outside the grid.
    pub fn height_at(&self, sub_chunk_x: i64, sub_chunk_z: i64) -> (r: Option<i64>)
        requires
            self.wf(),
        ensures
            r == self.interpolate_spec(sub_chunk_x as int, sub_chunk_z as int),
    {
        if sub_chunk_x < 0 || sub_chunk_z < 0 {
            return None;
        }
        let qx = sub_chunk_x / CELL;
        let qz = sub_chunk_z / CELL;
        if qx >= CHUNK_FIDELITY as i64 || qz >= CHUNK_FIDELITY as i64 {
            return None;
        }
        let ix = qx as usize;
        let iz = qz as usize;
        let fx = (sub_chunk_x % CELL) as i128;
        let fz = (sub_chunk_z % CELL) as i128;
        proof {
            assert(0 <= grid_index(ix as int, iz as int));
            assert(grid_index(ix as int + 1, iz as int + 1) < GRID_LEN);
        }
        let h00 = self.elevation[ix * GRID_SIDE + iz] as i128;
        let h10 = self.elevation[(ix + 1) * GRID_SIDE + iz] as i128;
        let h01 = self.elevation[ix * GRID_SIDE + iz + 1] as i128;
        let h11 = self.elevation[(ix + 1) * GRID_SIDE + iz + 1] as i128;
        let c = CELL as i128;
        assert(0 <= fx < 1000 && 0 <= fz < 1000);
        proof {
            assert(0 <= (c - fx) * (c - fz) <= 1_000_000 && 0 <= fx * (c - fz) <= 1_000_000 && 0
                <= (c - fx) * fz <= 1_000_000 && 0 <= fx * fz <= 1_000_000) by (nonlinear_arith)
                requires
                    0 <= fx < 1000,
                    0 <= fz < 1000,
                    c == 1000,
            ;
        }
        let w00 = (c - fx) * (c - fz);
        let w10 = fx * (c - fz);
        let w01 = (c - fx) * fz;
        let w11 = fx * fz;
        proof {
            assert(0 <= w00 <= 1_000_000 && 0 <= w10 <= 1_000_000 && 0 <= w01 <= 1_000_000 && 0
                <= w11 <= 1_000_000) by (nonlinear_arith)
                requires
                    0 <= fx < 1000,
                    0 <= fz < 1000,
                    c == 1000,
                    w00 == (c - fx) * (c - fz),
                    w10 == fx * (c - fz),
                    w01 == (c - fx) * fz,
                    w11 == fx * fz,
            ;
            let m = 0x8000_0000_0000_0000int;
            crate::arith::lemma_mul_abs_bound(h00 as int, w00 as int, m, 1_000_000);
            crate::arith::lemma_mul_abs_bound(h10 as int, w10 as int, m, 1_000_000);
            crate::arith::lemma_mul_abs_bound(h01 as int, w01 as int, m, 1_000_000);
            crate::arith::lemma_mul_abs_bound(h11 as int, w11 as int, m, 1_000_000);
        }
        let v = h00 * w00 + h10 * w10 + h01 * w01 + h11 * w11;
        Some(floor_div_wide(v, c * c) as i64)
    }

    /// The triangle list of the chunk's surface: two triangles per grid
    /// cell, six vertex indices per cell, cells taken x outer.
    pub fn mesh_indices(&self) -> (r: Vec<u32>)
        ensures
            r@.len() == MESH_INDEX_LEN,
            forall|k: int| 0 <= k < MESH_INDEX_LEN ==> #[trigger] r@[k] == mesh_index_spec(k),
            forall|k: int| 0 <= k < MESH_INDEX_LEN ==> #[trigger] r@[k] < GRID_LEN,
    {
        let mut r: Vec<u32> = Vec::new();
        let mut x: u32 = 0;
        while x < 32
            invariant
                0 <= x <= 32,
                r@.len() == 192 * x,
                forall|k: int| 0 <= k < r@.len() ==> #[trigger] r@[k] == mesh_index_spec(k),
            decreases 32 - x,
        {
            let mut y: u32 = 0;
            while y < 32
                invariant
                        0 <= x < 32,
                    0 <= y <= 32,
                    r@.len() == 6 * (32 * x + y),
                    forall|k: int| 0 <= k < r@.len() ==> #[trigger] r@[k] == mesh_index_spec(k),
                decreases 32 - y,
            {
                let base = y * 33 + x;
                let ghost len0 = r@.len() as int;
                r.push(base);
                r.push(base + 1);
                r.push(base + 33);
                r.push(base + 1);
                r.push(base + 34);
                r.push(base + 33);
                proof {
                    let cell = 32 * x + y;
                    assert forall|k: int| len0 <= k < r@.len() implies #[trigger] r@[k] == mesh_index_spec(k) by {
                        let j = k - len0;
                        assert(k == 6 * cell + j);
                        vstd::arithmetic::div_mod::lemma_fundamental_div_mod_converse(k, 6, cell as int, j);
                        vstd::arithmetic::div_mod::lemma_fundamental_div_mod_converse(
                            cell as int,
                            CHUNK_FIDELITY as int,
                            x as int,
                            y as int,
                        );
                    }
                }
                y = y + 1;
            }
            x = x + 1;
        }
        proof {
            assert forall|k: int| 0 <= k < MESH_INDEX_LEN implies #[trigger] r@[k] < GRID_LEN by {
                lemma_mesh_index_bound(k);
            }
        }
        r
    }

    /// The surface's vertices in world space, in millimetres: one per grid
    /// sample, x outer, at the sample's elevation.
    pub fn mesh_positions(&self) -> (r: Vec<(i64, i64, i64)>)
        requires
            self.wf(),
        ensures
            r@.len() == GRID_LEN,
            forall|k: int|
                0 <= k < GRID_LEN ==> {
                    let o = self.coord_view().offset_spec();
                    &&& (#[trigger] r@[k]).0 == o.0 + (k / GRID_SIDE as int) * MM_PER_METER
                    &&& r@[k].1 == self.elevation_view()[k]
                    &&& r@[k].2 == o.1 + (k % GRID_SIDE as int) * MM_PER_METER
                },
    {
        let mut r: Vec<(i64, i64, i64)> = Vec::new();
        let mut k: usize = 0;
        while k < GRID_LEN
            invariant
                self.wf(),
                0 <= k <= GRID_LEN,
                r@.len() == k,
                forall|j: int|
                    0 <= j < k ==> {
                        let o = self.coord_view().offset_spec();
                        &&& (#[trigger] r@[j]).0 == o.0 + (j / GRID_SIDE as int) * MM_PER_METER
                        &&& r@[j].1 == self.elevation_view()[j]
                        &&& r@[j].2 == o.1 + (j % GRID_SIDE as int) * MM_PER_METER
                    },
            decreases GRID_LEN - k,
        {
            let ix = (k / GRID_SIDE) as i64;
            let iz = (k % GRID_SIDE) as i64;
            r.push(
                (
                    self.world_offset.0 + ix * MM_PER_METER,
                    self.elevation[k],
                    self.world_offset.1 + iz * MM_PER_METER,
                ),
            );
            k = k + 1;
        }
        r
    }

    /// The chunk's lattice coordinate.
    pub fn coord(&self) -> (r: ChunkCoord)
        ensures
            r == self.coord_view(),
    {
        self.coord
    }

    /// The world position of the chunk's corner.
    pub fn world_offset(&self) -> (r: (i64, i64))
        requires
            self.wf(),
        ensures
            r.0 == self.coord_view().offset_spec().0,
            r.1 == self.coord_view().offset_spec().1,
    {
        self.world_offset
    }

    /// The elevation grid: `GRID_SIDE × GRID_SIDE` samples, x outer.
    pub fn elevation(&self) -> (r: &Vec<i64>)
        ensures
            r@ == self.elevation_view(),
    {
        &self.elevation
    }

    /// The props placed in this chunk.
    pub fn props(&self) -> (r: &Vec<Prop>)
        ensures
            r@ == self.props_view(),
    {
        &self.props
    }

    /// The layout that this chunk was built with.
    pub fn course_layout(&self) -> (r: Polynomial)
        ensures
            r == self.course_view(),
    {
        self.course
    }

    /// The bunker of this chunk's column.
    pub fn nearest_bunker(&self) -> (r: Hazard)
        ensures
            r == self.hazard_view(),
    {
        self.hazard
    }
}

/// The interpolation meets the grid: at a corner of the cell it gives the
/// corner's sample exactly, and everywhere it lies between the least and the
/// greatest of the four samples around the point.
pub proof fn lemma_bilinear_bounds(h00: int, h10: int, h01: int, h11: int, fx: int, fz: int)
    requires
        0 <= fx < CELL,
        0 <= fz < CELL,
    ensures
        fx == 0 && fz == 0 ==> bilinear(h00, h10, h01, h11, fx, fz) == h00,
        ({
            let v = bilinear(h00, h10, h01, h11, fx, fz);
            let lo = min4(h00, h10, h01, h11);
            let hi = max4(h00, h10, h01, h11);
            lo <= v <= hi
        }),
{
    let c = CELL as int;
    let w00 = (c - fx) * (c - fz);
    let w10 = fx * (c - fz);
    let w01 = (c - fx) * fz;
    let w11 = fx * fz;
    let lo = min4(h00, h10, h01, h11);
    let hi = max4(h00, h10, h01, h11);
    let s = h00 * w00 + h10 * w10 + h01 * w01 + h11 * w11;
    assert(w00 + w10 + w01 + w11 == c * c) by (nonlinear_arith)
        requires
            w00 == (c - fx) * (c - fz),
            w10 == fx * (c - fz),
            w01 == (c - fx) * fz,
            w11 == fx * fz,
    ;
    assert(0 <= w00 && 0 <= w10 && 0 <= w01 && 0 <= w11) by (nonlinear_arith)
        requires
            0 <= fx < c,
            0 <= fz < c,
            w00 == (c - fx) * (c - fz),
            w10 == fx * (c - fz),
            w01 == (c - fx) * fz,
            w11 == fx * fz,
    ;
    lemma_weighted_term(h00, w00, lo, hi);
    lemma_weighted_term(h10, w10, lo, hi);
    lemma_weighted_term(h01, w01, lo, hi);
    lemma_weighted_term(h11, w11, lo, hi);
    assert(lo * (c * c) <= s <= hi * (c * c)) by (nonlinear_arith)
        requires
            w00 + w10 + w01 + w11 == c * c,
            lo * w00 <= h00 * w00 <= hi * w00,
            lo * w10 <= h10 * w10 <= hi * w10,
            lo * w01 <= h01 * w01 <= hi * w01,
            lo * w11 <= h11 * w11 <= hi * w11,
            s == h00 * w00 + h10 * w10 + h01 * w01 + h11 * w11,
    ;
    vstd::arithmetic::div_mod::lemma_div_is_ordered(lo * (c * c), s, c * c);
    vstd::arithmetic::div_mod::lemma_div_is_ordered(s, hi * (c * c), c * c);
    vstd::arithmetic::div_mod::lemma_div_multiples_vanish(lo, c * c);
    vstd::arithmetic::div_mod::lemma_div_multiples_vanish(hi, c * c);
    vstd::arithmetic::mul::lemma_mul_is_commutative(lo, c * c);
    vstd::arithmetic::mul::lemma_mul_is_commutative(hi, c * c);
    if fx == 0 && fz == 0 {
        assert(w00 == c * c);
        assert(w10 == 0 && w01 == 0 && w11 == 0);
        assert(s == h00 * (c * c)) by (nonlinear_arith)
            requires
                s == h00 * w00 + h10 * w10 + h01 * w01 + h11 * w11,
                w00 == c * c,
                w10 == 0 && w01 == 0 && w11 == 0,
        ;
        vstd::arithmetic::div_mod::lemma_div_multiples_vanish(h00, c * c);
        vstd::arithmetic::mul::lemma_mul_is_commutative(h00, c * c);
    }
}

pub open spec fn min4(a: int, b: int, c: int, d: int) -> int {
    let ab = if a <= b {
        a
    } else {
        b
    };
    let cd = if c <= d {
        c
    } else {
        d
    };
    if ab <= cd {
        ab
    } else {
        cd
    }
}

pub open spec fn max4(a: int, b: int, c: int, d: int) -> int {
    let ab = if a >= b {
        a
    } else {
        b
    };
    let cd = if c >= d {
        c
    } else {
        d
    };
    if ab >= cd {
        ab
    } else {
        cd
    }
}

proof fn lemma_weighted_term(h: int, w: int, lo: int, hi: int)
    requires
        lo <= h <= hi,
        0 <= w,
    ensures
        lo * w <= h * w <= hi * w,
{
    assert(lo * w <= h * w <= hi * w) by (nonlinear_arith)
        requires
            lo <= h <= hi,
            0 <= w,
    ;
}

/// A chunk's interpolated height meets its generator at the grid: at every
/// whole-metre point of the footprint it is the generator's elevation
/// there, and everywhere in the footprint it lies between the four samples
/// around the point.
pub proof fn lemma_chunk_height_agreement<G: TerrainGenerator>(
    chunk: &Chunk,
    g: &G,
    sx: int,
    sz: int,
)
    requires
        chunk.built_by(g),
        0 <= sx < CHUNK_SIZE_MM,
        0 <= sz < CHUNK_SIZE_MM,
    ensures
        ({
            let ix = sx / CELL as int;
            let iz = sz / CELL as int;
            let o = chunk.coord_view().offset_spec();
            let v = chunk.interpolate_spec(sx, sz);
            &&& v.is_some()
            &&& sx % CELL as int == 0 && sz % CELL as int == 0 ==> v.unwrap() == g.height_spec(
                o.0 + sx,
                o.1 + sz,
            )
            &&& min4(
                chunk.sample(ix, iz),
                chunk.sample(ix + 1, iz),
                chunk.sample(ix, iz + 1),
                chunk.sample(ix + 1, iz + 1),
            ) <= v.unwrap() <= max4(
                chunk.sample(ix, iz),
                chunk.sample(ix + 1, iz),
                chunk.sample(ix, iz + 1),
                chunk.sample(ix + 1, iz + 1),
            )
        }),
{
    let ix = sx / CELL as int;
    let iz = sz / CELL as int;
    vstd::arithmetic::div_mod::lemma_div_is_ordered(sx, CHUNK_SIZE_MM - 1, CELL as int);
    vstd::arithmetic::div_mod::lemma_div_is_ordered(sz, CHUNK_SIZE_MM - 1, CELL as int);
    vstd::arithmetic::div_mod::lemma_div_pos_is_pos(sx, CELL as int);
    vstd::arithmetic::div_mod::lemma_div_pos_is_pos(sz, CELL as int);
    vstd::arithmetic::div_mod::lemma_fundamental_div_mod(sx, CELL as int);
    vstd::arithmetic::div_mod::lemma_fundamental_div_mod(sz, CELL as int);
    let h00 = chunk.sample(ix, iz);
    let h10 = chunk.sample(ix + 1, iz);
    let h01 = chunk.sample(ix, iz + 1);
    let h11 = chunk.sample(ix + 1, iz + 1);
    lemma_bilinear_bounds(h00, h10, h01, h11, sx % CELL as int, sz % CELL as int);
    assert(0 <= grid_index(ix, iz) && grid_index(ix + 1, iz + 1) < GRID_LEN);
}

} // verus!
