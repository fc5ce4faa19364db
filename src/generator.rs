//! Terrain generators: elevation, bunkers, zones, props, and the course
//! layout, all derived from a seed.

use vstd::prelude::*;
use crate::coord::{floor_div, in_world, ChunkCoord, CHUNK_SIZE_MM, CHUNK_SIZE_METERS, WORLD_LIMIT};
use crate::course::{
    fit_spec, lemma_curve_between_anchors, Polynomial, FIT_PASSES, HOLE_X, SPAN_BOUND, START_X,
    TARGET_RANGE,
};
use crate::hazard::{Hazard, BUNKER_DEPTH, MAX_BUNKER_SIZE, MIN_BUNKER_SIZE, ROTATIONS};
use crate::noise::{
    lattice_hash, lattice_hash_spec, layered, layered_spec, perlin, perlin_spec, NOISE_ONE,
    LAYERED_BOUND,
};
use crate::rng::{draw_in_range, draw_u32, seeded_rng};

verus! {

/// Classification of a point of the terrain.
#[derive(Clone, Copy, Debug, PartialEq, Eq, Structural)]
pub enum ZoneType {
    DeadZone,
    Bunker,
    Clean,
    Offtrack,
}

/// Kind of a scatter object.
#[derive(Clone, Copy, Debug, PartialEq, Eq, Structural)]
pub enum PropType {
    Tree,
}

/// A scatter object placed in a chunk: `position` holds the chunk-relative
/// x, the absolute elevation, and the chunk-relative z, in millimetres.
#[derive(Clone, Copy, Debug)]
pub struct Prop {
    pub prop_type: PropType,
    pub position: (i64, i64, i64),
    pub seed: u32,
}

/// The column of chunks that holds world x.
pub open spec fn column_of(x: int) -> int {
    x / CHUNK_SIZE_MM as int
}

/// Every drawn candidate lies in a chunk's footprint.
pub open spec fn in_footprint(d: Seq<(i64, i64, u32)>) -> bool {
    forall|k: int|
        0 <= k < d.len() ==> 0 <= (#[trigger] d[k]).0 < CHUNK_SIZE_MM && 0 <= d[k].1 < CHUNK_SIZE_MM
}

/// The prop that candidate `e` (chunk-local x, chunk-local z, seed) of
/// chunk `c` becomes over terrain with zones `zone` and elevations
/// `height`: a tree at the terrain's elevation if its point lies off the
/// track; nothing otherwise.
pub open spec fn candidate_prop(
    zone: spec_fn(int, int) -> ZoneType,
    height: spec_fn(int, int) -> int,
    c: ChunkCoord,
    e: (i64, i64, u32),
) -> Option<Prop> {
    let wx = c.offset_spec().0 + e.0;
    let wz = c.offset_spec().1 + e.1;
    if zone(wx, wz) == ZoneType::Offtrack {
        Some(Prop { prop_type: PropType::Tree, position: (e.0, height(wx, wz) as i64, e.1), seed: e.2 })
    } else {
        None
    }
}

/// The props that the candidates `d` of chunk `c` give, in order.
pub open spec fn kept_props(
    zone: spec_fn(int, int) -> ZoneType,
    height: spec_fn(int, int) -> int,
    c: ChunkCoord,
    d: Seq<(i64, i64, u32)>,
) -> Seq<Prop>
    decreases d.len(),
{
    if d.len() == 0 {
        Seq::empty()
    } else {
        let rest = kept_props(zone, height, c, d.drop_last());
        match candidate_prop(zone, height, c, d.last()) {
            Some(p) => rest.push(p),
            None => rest,
        }
    }
}

/// A source of terrain: elevation and zones at any point, the bunker of each
/// column of chunks, props for each chunk, and the course's layout and
/// anchors. A generator never changes once built.
pub trait TerrainGenerator: Sized {
    spec fn wf(&self) -> bool;

    spec fn height_spec(&self, x: int, z: int) -> int;

    spec fn zone_spec(&self, x: int, z: int) -> ZoneType;

    spec fn layout_spec(&self) -> Polynomial;

    spec fn bunker_spec(&self, column: int) -> Hazard;

    spec fn start_spec(&self) -> (int, int);

    spec fn hole_spec(&self) -> (int, int);

    spec fn prop_candidates_spec(&self, c: ChunkCoord) -> int;

    /// The zones as a function of the point.
    open spec fn zone_fn(&self) -> spec_fn(int, int) -> ZoneType {
        |x: int, z: int| self.zone_spec(x, z)
    }

    /// The elevations as a function of the point.
    open spec fn height_fn(&self) -> spec_fn(int, int) -> int {
        |x: int, z: int| self.height_spec(x, z)
    }

    /// Elevation at world `(x, z)`, in millimetres.
    fn height_at(&self, x: i64, z: i64) -> (r: i64)
        requires
            self.wf(),
            in_world(x as int, z as int),
        ensures
            r == self.height_spec(x as int, z as int),
    ;

    /// Zone of world `(x, z)`.
    fn zone_type_at(&self, x: i64, z: i64) -> (r: ZoneType)
        requires
            self.wf(),
            in_world(x as int, z as int),
        ensures
            r == self.zone_spec(x as int, z as int),
    ;

    /// The fairway centerline.
    fn course_layout(&self) -> (r: Polynomial)
        requires
            self.wf(),
        ensures
            r == self.layout_spec(),
            r.wf(),
    ;

    /// The tee: the start anchor on the centerline.
    fn start(&self) -> (r: (i64, i64))
        requires
            self.wf(),
        ensures
            r.0 == self.start_spec().0,
            r.1 == self.start_spec().1,
            in_world(r.0 as int, r.1 as int),
    ;

    /// The hole: the end anchor on the centerline.
    fn hole(&self) -> (r: (i64, i64))
        requires
            self.wf(),
        ensures
            r.0 == self.hole_spec().0,
            r.1 == self.hole_spec().1,
            in_world(r.0 as int, r.1 as int),
    ;

    /// The bunker of the column of chunks that holds `world_offset`.
    fn nearest_bunker(&self, world_offset: (i64, i64)) -> (r: Hazard)
        requires
            self.wf(),
            in_world(world_offset.0 as int, world_offset.1 as int),
        ensures
            r == self.bunker_spec(column_of(world_offset.0 as int)),
            r.wf(),
    ;

    /// Props of chunk `c`: `prop_candidates_spec(c)` candidates are drawn,
    /// each a chunk-local position in the footprint and a seed, and those
    /// whose point lies off the track are kept, in draw order.
    fn props_in_chunk(&self, c: ChunkCoord) -> (r: Vec<Prop>)
        requires
            self.wf(),
            c.valid(),
        ensures
            exists|d: Seq<(i64, i64, u32)>|
                d.len() == self.prop_candidates_spec(c) && in_footprint(d) && r@ == #[trigger] kept_props(
                    self.zone_fn(),
                    self.height_fn(),
                    c,
                    d,
                ),
    ;
}

/// Elevation below which a point is dead: water or a pit, in millimetres.
pub const DEAD_ZONE_LEVEL: i64 = -3000;

/// Elevation that the terrain at the anchors always stays above.
pub const ANCHOR_FLOOR: i64 = -3700;

/// Distance from an anchor over which the floor drops by one metre.
pub const ANCHOR_FALLOFF: i64 = 40000;

/// Squared anchor falloff, in square millimetres.
pub const ANCHOR_FALLOFF_SQ: i128 = 1_600_000_000;

/// Squared distance from the anchors past which the floor no longer binds.
pub const FAR_SQ: i128 = 1_600_000_000_000;

/// The floor far from the anchors, well below any terrain.
pub const FAR_FLOOR: i64 = -1_000_000_000;

/// World x range that may hold a bunker's centre.
pub const HAZARD_MIN_X: i64 = 20000;
pub const HAZARD_MAX_X: i64 = 280000;

/// Largest distance of a bunker's centre from the centerline.
pub const HAZARD_MAX_DISTANCE: i64 = 32000;

/// Largest offset of a bunker candidate across the centerline.
pub const HAZARD_SPREAD: i64 = 40000;

/// Lattice row whose hashes seed the bunkers of each column.
pub const HAZARD_ROW: i64 = 0x5eed;

/// Lattice side of the noise that sets the number of prop candidates.
pub const PROP_CELL: i64 = 200000;

/// The floor that the terrain stays strictly above, for a squared distance
/// `d2` to the nearest anchor: `ANCHOR_FLOOR − 1 m·(d/ANCHOR_FALLOFF)⁴`,
/// in millimetres, until the distance grows so large that no terrain comes
/// near it.
pub open spec fn floor_spec(d2: int) -> int {
    if d2 >= FAR_SQ {
        FAR_FLOOR as int
    } else {
        let rho = d2 * 1000 / ANCHOR_FALLOFF_SQ as int;
        ANCHOR_FLOOR - rho * rho / 1000
    }
}

pub open spec fn dist_sq(x: int, z: int, p: (int, int)) -> int {
    (x - p.0) * (x - p.0) + (z - p.1) * (z - p.1)
}

/// The grasslands terrain: layered gradient noise over a fitted fairway,
/// with bunkers along the course.
pub struct GrasslandsGenerator {
    seed: u32,
    course: Polynomial,
}

impl GrasslandsGenerator {
    pub closed spec fn seed_view(&self) -> u32 {
        self.seed
    }

    pub closed spec fn course_view(&self) -> Polynomial {
        self.course
    }

    /// The bunker of a column of chunks: a candidate drawn from the
    /// column's hash, kept only if its centre lies between the stations
    /// `HAZARD_MIN_X` and `HAZARD_MAX_X` and within `HAZARD_MAX_DISTANCE`
    /// of the centerline.
    pub open spec fn column_bunker_spec(&self, column: int) -> Hazard {
        let h = lattice_hash_spec(self.seed_view(), column as i64, HAZARD_ROW);
        let cx = column * CHUNK_SIZE_MM + (h % 32000u64) as int;
        if cx < HAZARD_MIN_X || cx > HAZARD_MAX_X {
            Hazard::none_spec()
        } else {
            let course = self.course_view();
            let cz = course.f_spec(cx) + ((h >> 16u64) % 80001u64) as int - HAZARD_SPREAD;
            if course.approx_distance_spec(cx, cz) > HAZARD_MAX_DISTANCE {
                Hazard::none_spec()
            } else {
                Hazard {
                    center_x: cx as i64,
                    center_z: cz as i64,
                    rotation: ((h >> 40u64) % 8u64) as u8,
                    size: (MIN_BUNKER_SIZE + ((h >> 48u64) % 8001u64) as int) as i64,
                }
            }
        }
    }

    pub open spec fn start_point(&self) -> (int, int) {
        (START_X as int, self.course_view().f_spec(START_X as int))
    }

    pub open spec fn hole_point(&self) -> (int, int) {
        (HOLE_X as int, self.course_view().f_spec(HOLE_X as int))
    }

    /// Squared distance to the nearer anchor.
    pub open spec fn anchor_dist_sq(&self, x: int, z: int) -> int {
        let a = dist_sq(x, z, self.start_point());
        let b = dist_sq(x, z, self.hole_point());
        if a <= b {
            a
        } else {
            b
        }
    }

    /// Noise elevation lowered by the column's bunker.
    pub open spec fn raw_height_spec(&self, x: int, z: int) -> int {
        layered_spec(self.seed_view(), x, z) - self.column_bunker_spec(column_of(x)).depth_spec(
            x,
            z,
        )
    }

    /// The elevation: the raw elevation, raised where needed to lie strictly
    /// above the anchors' floor.
    pub open spec fn terrain_height_spec(&self, x: int, z: int) -> int {
        let raw = self.raw_height_spec(x, z);
        let fl = floor_spec(self.anchor_dist_sq(x, z)) + 1;
        if raw >= fl {
            raw
        } else {
            fl
        }
    }

    pub open spec fn terrain_zone_spec(&self, x: int, z: int) -> ZoneType {
        if self.terrain_height_spec(x, z) <= DEAD_ZONE_LEVEL {
            ZoneType::DeadZone
        } else if self.column_bunker_spec(column_of(x)).depth_spec(x, z) != 0 {
            ZoneType::Bunker
        } else if self.course_view().on_clean_grass_spec(x, z) {
            ZoneType::Clean
        } else {
            ZoneType::Offtrack
        }
    }

    /// How many props a chunk is offered: five per unit of coarse noise
    /// lifted by a tenth, never negative.
    pub open spec fn candidates_spec(&self, c: ChunkCoord) -> int {
        let n = perlin_spec(self.seed_view(), c.offset_spec().0, c.offset_spec().1, PROP_CELL as int);
        let v = (n + 102) * 5 / NOISE_ONE as int;
        if v < 0 {
            0
        } else {
            v
        }
    }

    /// The generator's invariant: its layout is a fit of targets within
    /// `TARGET_RANGE`.
    pub open spec fn inv(&self) -> bool {
        self.course_view().wf() && -TARGET_RANGE <= self.course_view().d <= TARGET_RANGE
    }

    /// A generator for `seed`: the layout is fitted to four targets drawn
    /// within `TARGET_RANGE` from a random stream seeded with `seed`.
    pub fn new(seed: u32) -> (r: Self)
        ensures
            r.inv(),
            r.seed_view() == seed,
            exists|t: Seq<i64>|
                t.len() == 4 && (forall|i: int| 0 <= i < 4 ==> -TARGET_RANGE <= #[trigger] t[i] <= TARGET_RANGE)
                    && r.course_view() == fit_spec(t, FIT_PASSES as nat),
    {
        let mut rng = seeded_rng(seed as u64);
        let t0 = draw_in_range(&mut rng, -TARGET_RANGE, TARGET_RANGE + 1);
        let t1 = draw_in_range(&mut rng, -TARGET_RANGE, TARGET_RANGE + 1);
        let t2 = draw_in_range(&mut rng, -TARGET_RANGE, TARGET_RANGE + 1);
        let t3 = draw_in_range(&mut rng, -TARGET_RANGE, TARGET_RANGE + 1);
        let targets = [t0, t1, t2, t3];
        let course = Polynomial::fit(targets);
        proof {
            assert(targets@.len() == 4 && forall|i: int|
                0 <= i < 4 ==> -TARGET_RANGE <= #[trigger] targets@[i] <= TARGET_RANGE);
        }
        GrasslandsGenerator { seed, course }
    }

    /// The prop that a drawn candidate becomes: at chunk-local `(px, pz)` of
    /// chunk `c` with seed `seed`, a tree at the terrain's elevation if the
    /// point lies off the track; `None` otherwise.
    pub fn place_candidate(&self, c: ChunkCoord, px: i64, pz: i64, seed: u32) -> (r: Option<Prop>)
        requires
            self.inv(),
            c.valid(),
            0 <= px < CHUNK_SIZE_MM,
            0 <= pz < CHUNK_SIZE_MM,
        ensures
            r == candidate_prop(self.zone_fn(), self.height_fn(), c, (px, pz, seed)),
    {
        let off = c.world_offset();
        let wx = off.0 + px;
        let wz = off.1 + pz;
        if self.terrain_zone(wx, wz) == ZoneType::Offtrack {
            let py = self.terrain_height(wx, wz);
            Some(Prop { prop_type: PropType::Tree, position: (px, py, pz), seed })
        } else {
            None
        }
    }

    /// The seed that this generator was built from.
    pub fn seed(&self) -> (r: u32)
        ensures
            r == self.seed_view(),
    {
        self.seed
    }

    fn column_bunker(&self, column: i64) -> (r: Hazard)
        requires
            self.inv(),
            -WORLD_LIMIT <= column <= WORLD_LIMIT,
            -4097 <= column <= 4097,
        ensures
            r == self.column_bunker_spec(column as int),
            r.wf(),
    {
        let h = lattice_hash(self.seed, column, HAZARD_ROW);
        let cx = column * CHUNK_SIZE_MM + (h % 32000u64) as i64;
        if cx < HAZARD_MIN_X || cx > HAZARD_MAX_X {
            return Hazard::none();
        }
        proof {
            lemma_curve_between_anchors(self.course, cx as int);
        }
        let cz = self.course.f(cx) + ((h >> 16u64) % 80001u64) as i64 - HAZARD_SPREAD;
        if self.course.approx_distance_to_curve([cx, cz]) > HAZARD_MAX_DISTANCE {
            Hazard::none()
        } else {
            Hazard {
                center_x: cx,
                center_z: cz,
                rotation: ((h >> 40u64) % 8u64) as u8,
                size: MIN_BUNKER_SIZE + ((h >> 48u64) % 8001u64) as i64,
            }
        }
    }

    fn anchor_floor(&self, x: i64, z: i64) -> (r: i64)
        requires
            self.inv(),
            in_world(x as int, z as int),
        ensures
            r == floor_spec(self.anchor_dist_sq(x as int, z as int)),
            FAR_FLOOR - 1_000_000_000 <= r <= ANCHOR_FLOOR,
    {
        proof {
            lemma_curve_between_anchors(self.course, START_X as int);
            lemma_curve_between_anchors(self.course, HOLE_X as int);
        }
        let sz = self.course.f(START_X) as i128;
        let hz = self.course.f(HOLE_X) as i128;
        let ax = x as i128 - START_X as i128;
        let az = z as i128 - sz;
        let bx = x as i128 - HOLE_X as i128;
        let bz = z as i128 - hz;
        let ghost l = 2 * WORLD_LIMIT;
        proof {
            crate::arith::lemma_mul_abs_bound(ax as int, ax as int, l, l);
            crate::arith::lemma_mul_abs_bound(az as int, az as int, l, l);
            crate::arith::lemma_mul_abs_bound(bx as int, bx as int, l, l);
            crate::arith::lemma_mul_abs_bound(bz as int, bz as int, l, l);
            assert(0 <= ax * ax) by (nonlinear_arith);
            assert(0 <= az * az) by (nonlinear_arith);
            assert(0 <= bx * bx) by (nonlinear_arith);
            assert(0 <= bz * bz) by (nonlinear_arith);
        }
        let a = ax * ax + az * az;
        let b = bx * bx + bz * bz;
        let d2 = if a <= b {
            a
        } else {
            b
        };
        if d2 >= FAR_SQ {
            FAR_FLOOR
        } else {
            let rho = (d2 * 1000) / ANCHOR_FALLOFF_SQ;
            proof {
                vstd::arithmetic::div_mod::lemma_div_is_ordered(
                    d2 * 1000,
                    FAR_SQ * 1000,
                    ANCHOR_FALLOFF_SQ as int,
                );
                vstd::arithmetic::div_mod::lemma_div_pos_is_pos(d2 * 1000, ANCHOR_FALLOFF_SQ as int);
                assert(FAR_SQ * 1000 / (ANCHOR_FALLOFF_SQ as int) == 1_000_000);
                crate::arith::lemma_mul_abs_bound(rho as int, rho as int, 1_000_000, 1_000_000);
                assert(0 <= rho * rho) by (nonlinear_arith);
                vstd::arithmetic::div_mod::lemma_div_is_ordered(
                    rho * rho,
                    1_000_000_000_000,
                    1000,
                );
                vstd::arithmetic::div_mod::lemma_div_pos_is_pos(rho * rho, 1000);
            }
            (ANCHOR_FLOOR as i128 - (rho * rho) / 1000) as i64
        }
    }

    fn terrain_height(&self, x: i64, z: i64) -> (r: i64)
        requires
            self.inv(),
            in_world(x as int, z as int),
        ensures
            r == self.terrain_height_spec(x as int, z as int),
    {
        let raw = layered(self.seed, x, z);
        proof {
            vstd::arithmetic::div_mod::lemma_div_is_ordered(x as int, WORLD_LIMIT as int, CHUNK_SIZE_MM as int);
            vstd::arithmetic::div_mod::lemma_div_is_ordered(-WORLD_LIMIT as int, x as int, CHUNK_SIZE_MM as int);
        }
        let column = floor_div(x, CHUNK_SIZE_MM);
        let depth = self.column_bunker(column).depth_at(x, z);
        let low = raw - depth;
        let fl = self.anchor_floor(x, z) + 1;
        if low >= fl {
            low
        } else {
            fl
        }
    }

    fn terrain_zone(&self, x: i64, z: i64) -> (r: ZoneType)
        requires
            self.inv(),
            in_world(x as int, z as int),
        ensures
            r == self.terrain_zone_spec(x as int, z as int),
    {
        if self.terrain_height(x, z) <= DEAD_ZONE_LEVEL {
            return ZoneType::DeadZone;
        }
        proof {
            vstd::arithmetic::div_mod::lemma_div_is_ordered(x as int, WORLD_LIMIT as int, CHUNK_SIZE_MM as int);
            vstd::arithmetic::div_mod::lemma_div_is_ordered(-WORLD_LIMIT as int, x as int, CHUNK_SIZE_MM as int);
        }
        let column = floor_div(x, CHUNK_SIZE_MM);
        if self.column_bunker(column).depth_at(x, z) != 0 {
            ZoneType::Bunker
        } else if self.course.on_clean_grass([x, z]) {
            ZoneType::Clean
        } else {
            ZoneType::Offtrack
        }
    }

    fn candidates(&self, c: ChunkCoord) -> (r: u64)
        requires
            c.valid(),
        ensures
            r == self.candidates_spec(c),
    {
        let off = c.world_offset();
        let n = perlin(self.seed, off.0, off.1, PROP_CELL);
        let v = floor_div((n + 102) * 5, NOISE_ONE);
        proof {
            vstd::arithmetic::div_mod::lemma_div_is_ordered((n + 102) * 5, 20000, NOISE_ONE as int);
        }
        if v < 0 {
            0
        } else {
            v as u64
        }
    }
}

impl TerrainGenerator for GrasslandsGenerator {
    open spec fn wf(&self) -> bool {
        self.inv()
    }

    open spec fn height_spec(&self, x: int, z: int) -> int {
        self.terrain_height_spec(x, z)
    }

    open spec fn zone_spec(&self, x: int, z: int) -> ZoneType {
        self.terrain_zone_spec(x, z)
    }

    open spec fn layout_spec(&self) -> Polynomial {
        self.course_view()
    }

    open spec fn bunker_spec(&self, column: int) -> Hazard {
        self.column_bunker_spec(column)
    }

    open spec fn start_spec(&self) -> (int, int) {
        self.start_point()
    }

    open spec fn hole_spec(&self) -> (int, int) {
        self.hole_point()
    }

    open spec fn prop_candidates_spec(&self, c: ChunkCoord) -> int {
        self.candidates_spec(c)
    }

    fn height_at(&self, x: i64, z: i64) -> (r: i64) {
        self.terrain_height(x, z)
    }

    fn zone_type_at(&self, x: i64, z: i64) -> (r: ZoneType) {
        self.terrain_zone(x, z)
    }

    fn course_layout(&self) -> (r: Polynomial) {
        self.course
    }

    fn start(&self) -> (r: (i64, i64)) {
        proof {
            lemma_curve_between_anchors(self.course, START_X as int);
        }
        (START_X, self.course.f(START_X))
    }

    fn hole(&self) -> (r: (i64, i64)) {
        proof {
            lemma_curve_between_anchors(self.course, HOLE_X as int);
        }
        (HOLE_X, self.course.f(HOLE_X))
    }

    fn nearest_bunker(&self, world_offset: (i64, i64)) -> (r: Hazard) {
        proof {
            vstd::arithmetic::div_mod::lemma_div_is_ordered(world_offset.0 as int, WORLD_LIMIT as int, CHUNK_SIZE_MM as int);
            vstd::arithmetic::div_mod::lemma_div_is_ordered(-WORLD_LIMIT as int, world_offset.0 as int, CHUNK_SIZE_MM as int);
        }
        let column = floor_div(world_offset.0, CHUNK_SIZE_MM);
        self.column_bunker(column)
    }

    fn props_in_chunk(&self, c: ChunkCoord) -> (r: Vec<Prop>) {
        let count = self.candidates(c);
        let rng_seed = (((c.x as i64 * CHUNK_SIZE_METERS) as u64) << 16u64) ^ ((c.z as i64
            * CHUNK_SIZE_METERS) as u64);
        let mut rng = seeded_rng(rng_seed);
        let mut result: Vec<Prop> = Vec::new();
        let ghost mut d: Seq<(i64, i64, u32)> = Seq::empty();
        let mut i: u64 = 0;
        while i < count
            invariant
                self.inv(),
                c.valid(),
                count == self.candidates_spec(c),
                i <= count,
                d.len() == i,
                in_footprint(d),
                result@ == kept_props(self.zone_fn(), self.height_fn(), c, d),
            decreases count - i,
        {
            let px = draw_in_range(&mut rng, 0, CHUNK_SIZE_MM);
            let pz = draw_in_range(&mut rng, 0, CHUNK_SIZE_MM);
            let prop_seed = draw_u32(&mut rng);
            let ghost d0 = d;
            proof {
                d = d.push((px, pz, prop_seed));
                assert(d.drop_last() =~= d0);
            }
            match self.place_candidate(c, px, pz, prop_seed) {
                Some(p) => {
                    result.push(p);
                },
                None => {},
            }
            i = i + 1;
        }
        result
    }
}

/// Terrain depends on nothing but the seed and the layout: generators that
/// agree on both give the same elevation and the same zone at every point,
/// however often they are asked.
pub proof fn lemma_terrain_determined(
    g1: &GrasslandsGenerator,
    g2: &GrasslandsGenerator,
    x: int,
    z: int,
)
    requires
        g1.seed_view() == g2.seed_view(),
        g1.course_view() == g2.course_view(),
    ensures
        g1.height_spec(x, z) == g2.height_spec(x, z),
        g1.zone_spec(x, z) == g2.zone_spec(x, z),
{
}

/// At both anchors, for every seed, the terrain lies strictly above
/// `ANCHOR_FLOOR`.
pub proof fn lemma_anchor_safety(g: &GrasslandsGenerator)
    requires
        g.wf(),
    ensures
        g.height_spec(g.start_spec().0, g.start_spec().1) > ANCHOR_FLOOR,
        g.height_spec(g.hole_spec().0, g.hole_spec().1) > ANCHOR_FLOOR,
{
    let s = g.start_point();
    let h = g.hole_point();
    assert(dist_sq(s.0, s.1, s) == 0);
    assert(dist_sq(h.0, h.1, h) == 0);
    assert(dist_sq(s.0, s.1, h) >= 0) by (nonlinear_arith);
    assert(dist_sq(h.0, h.1, s) >= 0) by (nonlinear_arith);
    assert(g.anchor_dist_sq(s.0, s.1) == 0);
    assert(g.anchor_dist_sq(h.0, h.1) == 0);
    assert(floor_spec(0) == ANCHOR_FLOOR);
}

} // verus!
