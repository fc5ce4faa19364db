//! Integer gradient noise: lattice hashing, smooth interpolation, and the
//! layered sum of octaves that shapes the terrain.

use vstd::prelude::*;
use crate::coord::{floor_div, in_world, WORLD_LIMIT};

verus! {

/// Fixed-point one of noise values and fractional cell positions.
pub const NOISE_ONE: i64 = 1024;

/// Mixes a seed and a lattice point into 64 pseudo-random bits.
pub open spec fn lattice_hash_spec(seed: u32, ix: i64, iy: i64) -> u64 {
    let a = ((ix as u64) ^ ((seed as u64) << 32u64)).wrapping_mul(3284157443u64);
    let b = (iy as u64) ^ ((a << 32u64) | (a >> 32u64));
    let b = b.wrapping_mul(1911520717u64);
    let a = a ^ ((b << 32u64) | (b >> 32u64));
    a.wrapping_mul(2048419325u64)
}

/// Mixes a seed and a lattice point into 64 pseudo-random bits.
pub fn lattice_hash(seed: u32, ix: i64, iy: i64) -> (r: u64)
    ensures
        r == lattice_hash_spec(seed, ix, iy),
{
    let mut a: u64 = (ix as u64) ^ ((seed as u64) << 32u64);
    a = a.wrapping_mul(3284157443u64);
    let mut b: u64 = (iy as u64) ^ ((a << 32u64) | (a >> 32u64));
    b = b.wrapping_mul(1911520717u64);
    a = a ^ ((b << 32u64) | (b >> 32u64));
    a.wrapping_mul(2048419325u64)
}

/// The gradient picked by a hash: one of eight directions with components
/// in {-1, 0, 1}, chosen by the top three bits.
pub open spec fn gradient_spec(h: u64) -> (int, int) {
    let k = h >> 61u64;
    if k == 0 {
        (1, 0)
    } else if k == 1 {
        (-1, 0)
    } else if k == 2 {
        (0, 1)
    } else if k == 3 {
        (0, -1)
    } else if k == 4 {
        (1, 1)
    } else if k == 5 {
        (-1, 1)
    } else if k == 6 {
        (1, -1)
    } else {
        (-1, -1)
    }
}

fn gradient(h: u64) -> (r: (i64, i64))
    ensures
        r.0 == gradient_spec(h).0,
        r.1 == gradient_spec(h).1,
        -1 <= r.0 <= 1,
        -1 <= r.1 <= 1,
{
    let k = h >> 61u64;
    if k == 0 {
        (1, 0)
    } else if k == 1 {
        (-1, 0)
    } else if k == 2 {
        (0, 1)
    } else if k == 3 {
        (0, -1)
    } else if k == 4 {
        (1, 1)
    } else if k == 5 {
        (-1, 1)
    } else if k == 6 {
        (1, -1)
    } else {
        (-1, -1)
    }
}

/// Smoothstep on the fixed-point unit interval: `t²·(3 − 2t)`.
pub open spec fn fade_spec(t: int) -> int {
    t * t * (3 * NOISE_ONE - 2 * t) / (NOISE_ONE * NOISE_ONE)
}

/// Interpolation from `a0` (at `s = 0`) to `a1` (at `s = NOISE_ONE`).
pub open spec fn lerp_spec(a0: int, a1: int, s: int) -> int {
    a0 + (a1 - a0) * s / NOISE_ONE as int
}

proof fn lemma_fade_bounds(t: int)
    requires
        0 <= t < NOISE_ONE,
    ensures
        0 <= fade_spec(t) <= NOISE_ONE,
{
    let n = t * t * (3 * NOISE_ONE - 2 * t);
    assert(0 <= n <= NOISE_ONE * NOISE_ONE * NOISE_ONE) by (nonlinear_arith)
        requires
            0 <= t < NOISE_ONE,
            n == t * t * (3 * NOISE_ONE - 2 * t),
    ;
    vstd::arithmetic::div_mod::lemma_div_is_ordered(
        n,
        NOISE_ONE * NOISE_ONE * NOISE_ONE,
        NOISE_ONE * NOISE_ONE,
    );
    vstd::arithmetic::div_mod::lemma_div_pos_is_pos(n, NOISE_ONE * NOISE_ONE);
    vstd::arithmetic::div_mod::lemma_div_multiples_vanish(
        NOISE_ONE as int,
        NOISE_ONE * NOISE_ONE,
    );
}

/// The interpolated value lies between its two ends.
pub proof fn lemma_lerp_between(a0: int, a1: int, s: int)
    requires
        0 <= s <= NOISE_ONE,
    ensures
        a0 <= a1 ==> a0 <= lerp_spec(a0, a1, s) <= a1,
        a1 <= a0 ==> a1 <= lerp_spec(a0, a1, s) <= a0,
{
    let one = NOISE_ONE as int;
    let p = (a1 - a0) * s;
    if a0 <= a1 {
        assert(0 <= p <= (a1 - a0) * one) by (nonlinear_arith)
            requires
                p == (a1 - a0) * s,
                0 <= s <= one,
                a0 <= a1,
        ;
        vstd::arithmetic::div_mod::lemma_div_is_ordered(p, (a1 - a0) * one, one);
        vstd::arithmetic::div_mod::lemma_div_pos_is_pos(p, one);
        vstd::arithmetic::div_mod::lemma_div_multiples_vanish(a1 - a0, one);
    } else {
        assert((a1 - a0) * one <= p <= 0) by (nonlinear_arith)
            requires
                p == (a1 - a0) * s,
                0 <= s <= one,
                a1 < a0,
        ;
        vstd::arithmetic::div_mod::lemma_div_is_ordered((a1 - a0) * one, p, one);
        vstd::arithmetic::div_mod::lemma_div_is_ordered(p, 0, one);
        vstd::arithmetic::div_mod::lemma_div_multiples_vanish(a1 - a0, one);
    }
}

/// Gradient noise over a square lattice of side `cell` millimetres, scaled
/// so that `NOISE_ONE` stands for one.
pub open spec fn perlin_spec(seed: u32, x: int, y: int, cell: int) -> int {
    let one = NOISE_ONE as int;
    let ix = x / cell;
    let iy = y / cell;
    let tx = (x - ix * cell) * one / cell;
    let ty = (y - iy * cell) * one / cell;
    let g00 = gradient_spec(lattice_hash_spec(seed, ix as i64, iy as i64));
    let g10 = gradient_spec(lattice_hash_spec(seed, (ix + 1) as i64, iy as i64));
    let g01 = gradient_spec(lattice_hash_spec(seed, ix as i64, (iy + 1) as i64));
    let g11 = gradient_spec(lattice_hash_spec(seed, (ix + 1) as i64, (iy + 1) as i64));
    let d00 = g00.0 * tx + g00.1 * ty;
    let d10 = g10.0 * (tx - one) + g10.1 * ty;
    let d01 = g01.0 * tx + g01.1 * (ty - one);
    let d11 = g11.0 * (tx - one) + g11.1 * (ty - one);
    let sx = fade_spec(tx);
    let sy = fade_spec(ty);
    lerp_spec(lerp_spec(d00, d10, sx), lerp_spec(d01, d11, sx), sy)
}

fn fraction(v: i64, i: i64, cell: i64) -> (t: i64)
    requires
        1000 <= cell <= 1_000_000,
        -WORLD_LIMIT - 1 <= i <= WORLD_LIMIT,
        i * cell <= v < i * cell + cell,
    ensures
        t == (v - i * cell) * NOISE_ONE / cell as int,
        0 <= t < NOISE_ONE,
{
    proof {
        assert(-(WORLD_LIMIT + 1) * 1_000_000 <= i * cell <= WORLD_LIMIT * 1_000_000)
            by (nonlinear_arith)
            requires
                1000 <= cell <= 1_000_000,
                -WORLD_LIMIT - 1 <= i <= WORLD_LIMIT,
        ;
    }
    let r = v - i * cell;
    proof {
        assert(0 <= r * NOISE_ONE < cell * NOISE_ONE) by (nonlinear_arith)
            requires
                0 <= r < cell,
        ;
        vstd::arithmetic::div_mod::lemma_div_pos_is_pos(r * NOISE_ONE, cell as int);
        vstd::arithmetic::div_mod::lemma_div_is_ordered(
            r * NOISE_ONE,
            cell * NOISE_ONE - 1,
            cell as int,
        );
        vstd::arithmetic::div_mod::lemma_div_multiples_vanish_fancy(
            NOISE_ONE - 1,
            cell - 1,
            cell as int,
        );
        assert(cell * (NOISE_ONE - 1) + (cell - 1) == cell * NOISE_ONE - 1);
    }
    floor_div(r * NOISE_ONE, cell)
}

fn fade(t: i64) -> (r: i64)
    requires
        0 <= t < NOISE_ONE,
    ensures
        r == fade_spec(t as int),
        0 <= r <= NOISE_ONE,
{
    proof {
        lemma_fade_bounds(t as int);
        assert(0 <= t * t <= NOISE_ONE * NOISE_ONE) by (nonlinear_arith)
            requires
                0 <= t < NOISE_ONE,
        ;
        assert(0 <= t * t * (3 * NOISE_ONE - 2 * t) <= NOISE_ONE * NOISE_ONE * NOISE_ONE)
            by (nonlinear_arith)
            requires
                0 <= t < NOISE_ONE,
        ;
    }
    floor_div(t * t * (3 * NOISE_ONE - 2 * t), NOISE_ONE * NOISE_ONE)
}

fn lerp(a0: i64, a1: i64, s: i64) -> (r: i64)
    requires
        -1_000_000 <= a0 <= 1_000_000,
        -1_000_000 <= a1 <= 1_000_000,
        0 <= s <= NOISE_ONE,
    ensures
        r == lerp_spec(a0 as int, a1 as int, s as int),
{
    proof {
        lemma_lerp_between(a0 as int, a1 as int, s as int);
        assert(-2_000_000 * NOISE_ONE <= (a1 - a0) * s <= 2_000_000 * NOISE_ONE)
            by (nonlinear_arith)
            requires
                -2_000_000 <= a1 - a0 <= 2_000_000,
                0 <= s <= NOISE_ONE,
        ;
    }
    a0 + floor_div((a1 - a0) * s, NOISE_ONE)
}

fn corner_dot(seed: u32, ix: i64, iy: i64, dx: i64, dy: i64) -> (r: i64)
    requires
        -NOISE_ONE <= dx <= NOISE_ONE,
        -NOISE_ONE <= dy <= NOISE_ONE,
    ensures
        r == gradient_spec(lattice_hash_spec(seed, ix, iy)).0 * dx + gradient_spec(
            lattice_hash_spec(seed, ix, iy),
        ).1 * dy,
        -2 * NOISE_ONE <= r <= 2 * NOISE_ONE,
{
    let g = gradient(lattice_hash(seed, ix, iy));
    proof {
        assert(-NOISE_ONE <= g.0 * dx <= NOISE_ONE) by (nonlinear_arith)
            requires
                -1 <= g.0 <= 1,
                -NOISE_ONE <= dx <= NOISE_ONE,
        ;
        assert(-NOISE_ONE <= g.1 * dy <= NOISE_ONE) by (nonlinear_arith)
            requires
                -1 <= g.1 <= 1,
                -NOISE_ONE <= dy <= NOISE_ONE,
        ;
    }
    g.0 * dx + g.1 * dy
}

/// Gradient noise over a square lattice of side `cell` millimetres; the
/// result is a fixed-point value with `NOISE_ONE` standing for one.
pub fn perlin(seed: u32, x: i64, y: i64, cell: i64) -> (r: i64)
    requires
        in_world(x as int, y as int),
        1000 <= cell <= 1_000_000,
    ensures
        r == perlin_spec(seed, x as int, y as int, cell as int),
        -2 * NOISE_ONE <= r <= 2 * NOISE_ONE,
{
    let ix = floor_div(x, cell);
    let iy = floor_div(y, cell);
    proof {
        vstd::arithmetic::div_mod::lemma_fundamental_div_mod(x as int, cell as int);
        vstd::arithmetic::div_mod::lemma_fundamental_div_mod(y as int, cell as int);
        lemma_cell_index_bounds(x as int, cell as int);
        lemma_cell_index_bounds(y as int, cell as int);
    }
    let tx = fraction(x, ix, cell);
    let ty = fraction(y, iy, cell);
    let d00 = corner_dot(seed, ix, iy, tx, ty);
    let d10 = corner_dot(seed, ix + 1, iy, tx - NOISE_ONE, ty);
    let d01 = corner_dot(seed, ix, iy + 1, tx, ty - NOISE_ONE);
    let d11 = corner_dot(seed, ix + 1, iy + 1, tx - NOISE_ONE, ty - NOISE_ONE);
    let sx = fade(tx);
    let sy = fade(ty);
    let i0 = lerp(d00, d10, sx);
    let i1 = lerp(d01, d11, sx);
    proof {
        lemma_lerp_between(d00 as int, d10 as int, sx as int);
        lemma_lerp_between(d01 as int, d11 as int, sx as int);
        lemma_lerp_between(i0 as int, i1 as int, sy as int);
    }
    lerp(i0, i1, sy)
}

proof fn lemma_cell_index_bounds(x: int, cell: int)
    requires
        -WORLD_LIMIT <= x <= WORLD_LIMIT,
        1000 <= cell,
    ensures
        -WORLD_LIMIT - 1 <= x / cell <= WORLD_LIMIT,
        (x / cell) * cell <= x < (x / cell) * cell + cell,
{
    vstd::arithmetic::div_mod::lemma_fundamental_div_mod(x, cell);
    vstd::arithmetic::mul::lemma_mul_is_commutative(x / cell, cell);
    let q = x / cell;
    let r = x % cell;
    assert(-WORLD_LIMIT - 1 <= q <= WORLD_LIMIT) by (nonlinear_arith)
        requires
            x == cell * q + r,
            0 <= r < cell,
            1000 <= cell,
            -WORLD_LIMIT <= x <= WORLD_LIMIT,
    ;
}

/// Lattice side of the fine, medium and coarse octaves, in millimetres.
pub const FINE_CELL: i64 = 12000;
pub const MEDIUM_CELL: i64 = 30000;
pub const COARSE_CELL: i64 = 120000;

/// Amplitude of the fine, medium and coarse octaves, in millimetres.
pub const FINE_AMPLITUDE: i64 = 150;
pub const MEDIUM_AMPLITUDE: i64 = 1000;
pub const COARSE_AMPLITUDE: i64 = 6000;

/// Bound on the magnitude of the layered noise, in millimetres.
pub const LAYERED_BOUND: i64 = 14300;

/// Small-scale roughness, rolling terrain and large-scale trends summed into
/// one elevation, in millimetres.
pub open spec fn layered_spec(seed: u32, x: int, y: int) -> int {
    (FINE_AMPLITUDE * perlin_spec(seed, x, y, FINE_CELL as int) + MEDIUM_AMPLITUDE * perlin_spec(
        seed,
        x,
        y,
        MEDIUM_CELL as int,
    ) + COARSE_AMPLITUDE * perlin_spec(seed, x, y, COARSE_CELL as int)) / NOISE_ONE as int
}

/// Small-scale roughness, rolling terrain and large-scale trends summed into
/// one elevation, in millimetres.
pub fn layered(seed: u32, x: i64, y: i64) -> (r: i64)
    requires
        in_world(x as int, y as int),
    ensures
        r == layered_spec(seed, x as int, y as int),
        -LAYERED_BOUND <= r <= LAYERED_BOUND,
{
    let fine = perlin(seed, x, y, FINE_CELL);
    let medium = perlin(seed, x, y, MEDIUM_CELL);
    let coarse = perlin(seed, x, y, COARSE_CELL);
    let sum = FINE_AMPLITUDE * fine + MEDIUM_AMPLITUDE * medium + COARSE_AMPLITUDE * coarse;
    proof {
        let b = LAYERED_BOUND * NOISE_ONE;
        assert(-b <= sum <= b);
        vstd::arithmetic::div_mod::lemma_div_is_ordered(sum as int, b as int, NOISE_ONE as int);
        vstd::arithmetic::div_mod::lemma_div_is_ordered(-b as int, sum as int, NOISE_ONE as int);
        vstd::arithmetic::div_mod::lemma_div_multiples_vanish(LAYERED_BOUND as int, NOISE_ONE as int);
        vstd::arithmetic::div_mod::lemma_div_multiples_vanish(-LAYERED_BOUND as int, NOISE_ONE as int);
    }
    floor_div(sum, NOISE_ONE)
}

/// The layered noise stretched five times over the plane.
pub open spec fn layered_with_mountains_spec(seed: u32, x: int, y: int) -> int {
    layered_spec(seed, x / 5, y / 5)
}

/// The layered noise stretched five times over the plane.
pub fn layered_with_mountains(seed: u32, x: i64, y: i64) -> (r: i64)
    requires
        in_world(x as int, y as int),
    ensures
        r == layered_with_mountains_spec(seed, x as int, y as int),
        -LAYERED_BOUND <= r <= LAYERED_BOUND,
{
    let sx = floor_div(x, 5);
    let sy = floor_div(y, 5);
    proof {
        vstd::arithmetic::div_mod::lemma_div_is_ordered(x as int, WORLD_LIMIT as int, 5);
        vstd::arithmetic::div_mod::lemma_div_is_ordered(-WORLD_LIMIT as int, x as int, 5);
        vstd::arithmetic::div_mod::lemma_div_is_ordered(y as int, WORLD_LIMIT as int, 5);
        vstd::arithmetic::div_mod::lemma_div_is_ordered(-WORLD_LIMIT as int, y as int, 5);
    }
    layered(seed, sx, sy)
}

} // verus!
