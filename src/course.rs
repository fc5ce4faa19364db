//! The fairway centerline: a cubic over the world's x axis, its slope, and
//! the corridor of clean grass around it.

use vstd::prelude::*;
use crate::arith::{
    floor_div_wide, isqrt, isqrt_spec, lemma_div_abs_bound, lemma_mul_abs_bound,
};
use crate::coord::WORLD_LIMIT;

verus! {

/// Denominators of the cubic, quadratic and linear coefficients.
pub const CUBIC_DEN: i128 = 4722366482869645213696;
pub const QUADRATIC_DEN: i128 = 1125899906842624;
pub const LINEAR_DEN: i128 = 1073741824;

/// Fixed-point one of a slope.
pub const SLOPE_ONE: i128 = 1073741824;

/// Denominators of the slope's quadratic and linear terms.
pub const SLOPE_QUADRATIC_DEN: i128 = 4398046511104;
pub const SLOPE_LINEAR_DEN: i128 = 1048576;

/// Largest magnitude of the `a`, `b` and `c` coefficients.
pub const COEFF_LIMIT: i64 = 274_877_906_944;

/// Largest magnitude of the constant term, in millimetres.
pub const OFFSET_LIMIT: i64 = 1_073_741_824;

/// Bound on the centerline's magnitude over the world, in millimetres.
pub const CURVE_BOUND: i64 = 1_125_899_906_842_624;

/// Bound on the slope's magnitude over the world, in slope units.
pub const SLOPE_BOUND: i64 = 18_014_398_509_481_984;

/// Half-width of the fairway corridor, in millimetres.
pub const COURSE_WIDTH: i64 = 25000;

/// World x of the start anchor and of the hole anchor, in millimetres.
pub const START_X: i64 = 0;
pub const HOLE_X: i64 = 300000;

/// Number of refinement passes of the layout fit.
pub const FIT_PASSES: usize = 8;

/// The x stations of the fit's second, third and fourth targets.
pub const STATION_1: i128 = 100000;
pub const STATION_2: i128 = 200000;
pub const STATION_3: i128 = 300000;

/// The fairway centerline `z = f(x)` with
/// `f(x) = a·x³/2⁷² + b·x²/2⁵⁰ + c·x/2³⁰ + d`, each term rounded down.
#[derive(Clone, Copy, Debug, PartialEq, Eq, Structural)]
pub struct Polynomial {
    pub a: i64,
    pub b: i64,
    pub c: i64,
    pub d: i64,
}

pub open spec fn in_coeff(v: int) -> bool {
    -COEFF_LIMIT <= v <= COEFF_LIMIT
}

pub open spec fn in_span(x: int) -> bool {
    -WORLD_LIMIT <= x <= WORLD_LIMIT
}

/// Cubic evaluation over integers, each term rounded down.
pub open spec fn cubic(a: int, b: int, c: int, d: int, x: int) -> int {
    a * (x * x * x) / CUBIC_DEN as int + b * (x * x) / QUADRATIC_DEN as int + c * x
        / LINEAR_DEN as int + d
}

/// Magnitude of an integer.
pub open spec fn abs(v: int) -> int {
    if v < 0 {
        -v
    } else {
        v
    }
}

impl Polynomial {
    /// The coefficients lie in the supported ranges.
    pub open spec fn wf(self) -> bool {
        in_coeff(self.a as int) && in_coeff(self.b as int) && in_coeff(self.c as int)
            && -OFFSET_LIMIT <= self.d <= OFFSET_LIMIT
    }

    pub open spec fn f_spec(self, x: int) -> int {
        cubic(self.a as int, self.b as int, self.c as int, self.d as int, x)
    }

    /// The derivative in units of `1/SLOPE_ONE`, each term rounded down.
    pub open spec fn f_prime_spec(self, x: int) -> int {
        3 * self.a * (x * x) / SLOPE_QUADRATIC_DEN as int + 2 * self.b * x
            / SLOPE_LINEAR_DEN as int + self.c
    }

    /// `|f(x) − z| / √(1 + f'(x)²)`: the distance to the tangent line at `x`,
    /// rounded down, with the root taken as an integer square root.
    pub open spec fn approx_distance_spec(self, x: int, z: int) -> int {
        let p = self.f_prime_spec(x);
        abs(self.f_spec(x) - z) * SLOPE_ONE / isqrt_spec(SLOPE_ONE * SLOPE_ONE + p * p)
    }

    /// Whether `(x, z)` lies on the tangent band of half-width `COURSE_WIDTH`
    /// that continues the course straight on from the anchor at `ax`: its
    /// distance `|dy| / √(1 + p²)` to the anchor's tangent line is below
    /// `COURSE_WIDTH`, however far along the band it lies.
    pub open spec fn on_band_spec(self, ax: int, x: int, z: int) -> bool {
        let p = self.f_prime_spec(ax);
        let h = isqrt_spec(SLOPE_ONE * SLOPE_ONE + p * p);
        let dx = x - ax;
        let dy = self.f_spec(ax) - z + dx * p / SLOPE_ONE as int;
        abs(dy) * SLOPE_ONE < COURSE_WIDTH * h
    }

    /// Whether `(x, z)` lies inside the fairway corridor.
    pub open spec fn on_clean_grass_spec(self, x: int, z: int) -> bool {
        if x < START_X {
            self.on_band_spec(START_X as int, x, z)
        } else if x >= HOLE_X {
            self.on_band_spec(HOLE_X as int, x, z)
        } else {
            self.approx_distance_spec(x, z) < COURSE_WIDTH
        }
    }

    /// Evaluates the centerline at `x`.
    pub fn f(&self, x: i64) -> (r: i64)
        requires
            self.wf(),
            in_span(x as int),
        ensures
            r == self.f_spec(x as int),
            -CURVE_BOUND <= r <= CURVE_BOUND,
    {
        let xw = x as i128;
        let ghost wl = WORLD_LIMIT as int;
        proof {
            lemma_mul_abs_bound(x as int, x as int, wl, wl);
            lemma_mul_abs_bound(x * x, x as int, wl * wl, wl);
        }
        let x2 = xw * xw;
        let x3 = x2 * xw;
        proof {
            lemma_mul_abs_bound(self.a as int, x3 as int, COEFF_LIMIT as int, wl * wl * wl);
            lemma_mul_abs_bound(self.b as int, x2 as int, COEFF_LIMIT as int, wl * wl);
            lemma_mul_abs_bound(self.c as int, x as int, COEFF_LIMIT as int, wl);
            lemma_div_abs_bound(
                self.a * x3,
                COEFF_LIMIT * (wl * wl * wl),
                CUBIC_DEN as int,
            );
            lemma_div_abs_bound(self.b * x2, COEFF_LIMIT * (wl * wl), QUADRATIC_DEN as int);
            lemma_div_abs_bound(self.c * x, COEFF_LIMIT * wl, LINEAR_DEN as int);
        }
        let t3 = floor_div_wide(self.a as i128 * x3, CUBIC_DEN);
        let t2 = floor_div_wide(self.b as i128 * x2, QUADRATIC_DEN);
        let t1 = floor_div_wide(self.c as i128 * xw, LINEAR_DEN);
        (t3 + t2 + t1 + self.d as i128) as i64
    }

    /// The slope of the centerline at `x`, in units of `1/SLOPE_ONE`.
    pub fn f_prime(&self, x: i64) -> (r: i64)
        requires
            self.wf(),
            in_span(x as int),
        ensures
            r == self.f_prime_spec(x as int),
            -SLOPE_BOUND <= r <= SLOPE_BOUND,
    {
        let xw = x as i128;
        let ghost wl = WORLD_LIMIT as int;
        proof {
            lemma_mul_abs_bound(x as int, x as int, wl, wl);
        }
        let x2 = xw * xw;
        proof {
            lemma_mul_abs_bound(3 * self.a, x2 as int, 3 * COEFF_LIMIT, wl * wl);
            lemma_mul_abs_bound(2 * self.b, x as int, 2 * COEFF_LIMIT, wl);
            lemma_div_abs_bound(
                3 * self.a * x2,
                3 * COEFF_LIMIT * (wl * wl),
                SLOPE_QUADRATIC_DEN as int,
            );
            lemma_div_abs_bound(2 * self.b * x, 2 * COEFF_LIMIT * wl, SLOPE_LINEAR_DEN as int);
        }
        let t2 = floor_div_wide(3 * self.a as i128 * x2, SLOPE_QUADRATIC_DEN);
        let t1 = floor_div_wide(2 * self.b as i128 * xw, SLOPE_LINEAR_DEN);
        (t2 + t1 + self.c as i128) as i64
    }

    /// Distance from `p = [x, z]` to the tangent line of the centerline at
    /// `x`, rounded down: `|f(x) − z| / √(1 + f'(x)²)`.
    pub fn approx_distance_to_curve(&self, p: [i64; 2]) -> (r: i64)
        requires
            self.wf(),
            in_span(p[0] as int),
            in_span(p[1] as int),
        ensures
            r == self.approx_distance_spec(p[0] as int, p[1] as int),
            0 <= r <= abs(self.f_spec(p[0] as int) - p[1]),
    {
        let y = self.f(p[0]) as i128;
        let s = self.f_prime(p[0]) as i128;
        proof {
            lemma_mul_abs_bound(s as int, s as int, SLOPE_BOUND as int, SLOPE_BOUND as int);
            assert(0 <= s * s) by (nonlinear_arith);
        }
        let h = isqrt((SLOPE_ONE * SLOPE_ONE + s * s) as u128) as i128;
        proof {
            lemma_root_at_least_one(s as int, h as int);
        }
        let dz = y - p[1] as i128;
        let adz = if dz < 0 {
            -dz
        } else {
            dz
        };
        proof {
            lemma_scaled_quotient(adz as int, h as int);
        }
        ((adz * SLOPE_ONE) as u128 / h as u128) as i64
    }

    /// Whether `(x, z)` lies on the straight band that continues the course
    /// from the anchor at `ax`.
    fn on_band(&self, ax: i64, x: i64, z: i64) -> (r: bool)
        requires
            self.wf(),
            START_X <= ax <= HOLE_X,
            in_span(x as int),
            in_span(z as int),
        ensures
            r == self.on_band_spec(ax as int, x as int, z as int),
    {
        let y0 = self.f(ax) as i128;
        let p = self.f_prime(ax) as i128;
        proof {
            lemma_mul_abs_bound(p as int, p as int, SLOPE_BOUND as int, SLOPE_BOUND as int);
            assert(0 <= p * p) by (nonlinear_arith);
        }
        let h = isqrt((SLOPE_ONE * SLOPE_ONE + p * p) as u128) as i128;
        let dx = x as i128 - ax as i128;
        proof {
            lemma_mul_abs_bound(dx as int, p as int, 2 * WORLD_LIMIT, SLOPE_BOUND as int);
            lemma_div_abs_bound(
                dx * p,
                2 * WORLD_LIMIT * SLOPE_BOUND,
                SLOPE_ONE as int,
            );
        }
        let t = floor_div_wide(dx * p, SLOPE_ONE);
        let dy = y0 - z as i128 + t;
        proof {
            assert(2 * WORLD_LIMIT * SLOPE_BOUND / (SLOPE_ONE as int) == 4398046511104000);
            let bd = 5523946549018625int;
            assert(-bd <= dy <= bd);
        }
        let ady = if dy < 0 {
            -dy
        } else {
            dy
        };
        proof {
            lemma_mul_abs_bound(
                COURSE_WIDTH as int,
                h as int,
                COURSE_WIDTH as int,
                0x8000_0000_0000_0000,
            );
        }
        ady * SLOPE_ONE < COURSE_WIDTH as i128 * h
    }

    /// Whether `p = [x, z]` lies inside the fairway corridor of half-width
    /// `COURSE_WIDTH`. Before the start anchor and past the hole anchor the
    /// corridor continues as a straight band along the anchor's tangent.
    pub fn on_clean_grass(&self, p: [i64; 2]) -> (r: bool)
        requires
            self.wf(),
            in_span(p[0] as int),
            in_span(p[1] as int),
        ensures
            r == self.on_clean_grass_spec(p[0] as int, p[1] as int),
    {
        if p[0] < START_X {
            self.on_band(START_X, p[0], p[1])
        } else if p[0] >= HOLE_X {
            self.on_band(HOLE_X, p[0], p[1])
        } else {
            self.approx_distance_to_curve(p) < COURSE_WIDTH
        }
    }

    /// Fits a centerline through `targets`, the wanted heights at the x
    /// stations 0, 100, 200 and 300 metres, by `FIT_PASSES` passes that
    /// adjust `c`, `b` and `a` in turn; `d` takes the first target at once.
    /// The fit is approximate: a few passes, not an exact interpolation.
    pub fn fit(targets: [i64; 4]) -> (r: Polynomial)
        requires
            forall|i: int| 0 <= i < 4 ==> -OFFSET_LIMIT <= #[trigger] targets[i] <= OFFSET_LIMIT,
        ensures
            r.wf(),
            r.d == targets[0],
            r == fit_spec(targets@, FIT_PASSES as nat),
    {
        let mut p = Polynomial { a: 0, b: 0, c: 0, d: targets[0] };
        let mut i: usize = 0;
        while i < FIT_PASSES
            invariant
                0 <= i <= FIT_PASSES,
                p.wf(),
                p.d == targets[0],
                p == fit_spec(targets@, i as nat),
                targets@.len() == 4,
                forall|i: int| 0 <= i < 4 ==> -OFFSET_LIMIT <= #[trigger] targets[i] <= OFFSET_LIMIT,
            decreases FIT_PASSES - i,
        {
            p = refine(p, targets[1], targets[2], targets[3]);
            i = i + 1;
        }
        p
    }
}

/// Clamps a coefficient into `[-COEFF_LIMIT, COEFF_LIMIT]`.
pub open spec fn clamp_coeff(v: int) -> int {
    if v < -COEFF_LIMIT {
        -COEFF_LIMIT as int
    } else if v > COEFF_LIMIT {
        COEFF_LIMIT as int
    } else {
        v
    }
}

/// One pass of the fit: `c` is set to hit the target at the first station,
/// then `b` at the second, then `a` at the third.
pub open spec fn refine_spec(p: Polynomial, t1: int, t2: int, t3: int) -> Polynomial {
    let c = clamp_coeff(
        (t1 - cubic(p.a as int, p.b as int, 0, p.d as int, STATION_1 as int)) * LINEAR_DEN
            / STATION_1 as int,
    );
    let b = clamp_coeff(
        (t2 - cubic(p.a as int, 0, c, p.d as int, STATION_2 as int)) * QUADRATIC_DEN / (
        STATION_2 * STATION_2) as int,
    );
    let a = clamp_coeff(
        (t3 - cubic(0, b, c, p.d as int, STATION_3 as int)) * CUBIC_DEN / (STATION_3 * STATION_3
            * STATION_3) as int,
    );
    Polynomial { a: a as i64, b: b as i64, c: c as i64, d: p.d }
}

/// The centerline after `n` passes of the fit.
pub open spec fn fit_spec(t: Seq<i64>, n: nat) -> Polynomial
    decreases n,
{
    if n == 0 {
        Polynomial { a: 0, b: 0, c: 0, d: t[0] }
    } else {
        refine_spec(fit_spec(t, (n - 1) as nat), t[1] as int, t[2] as int, t[3] as int)
    }
}

fn clamp_coeff_exec(v: i128) -> (r: i64)
    ensures
        r == clamp_coeff(v as int),
{
    if v < -(COEFF_LIMIT as i128) {
        -COEFF_LIMIT
    } else if v > COEFF_LIMIT as i128 {
        COEFF_LIMIT
    } else {
        v as i64
    }
}

/// The coefficient that makes the residual `res` vanish at a station whose
/// power is `den_x`, with the coefficient's denominator `den_c`.
fn solve_term(res: i128, den_c: i128, den_x: i128) -> (r: i64)
    requires
        -2 * CURVE_BOUND <= res <= 2 * CURVE_BOUND,
        0 < den_c <= CUBIC_DEN,
        0 < den_x,
    ensures
        r == clamp_coeff(res * den_c / den_x as int),
{
    proof {
        lemma_mul_abs_bound(res as int, den_c as int, 2 * CURVE_BOUND, CUBIC_DEN as int);
    }
    clamp_coeff_exec(floor_div_wide(res * den_c, den_x))
}

fn refine(p: Polynomial, t1: i64, t2: i64, t3: i64) -> (r: Polynomial)
    requires
        p.wf(),
        -OFFSET_LIMIT <= t1 <= OFFSET_LIMIT,
        -OFFSET_LIMIT <= t2 <= OFFSET_LIMIT,
        -OFFSET_LIMIT <= t3 <= OFFSET_LIMIT,
    ensures
        r.wf(),
        r.d == p.d,
        r == refine_spec(p, t1 as int, t2 as int, t3 as int),
{
    let q1 = Polynomial { a: p.a, b: p.b, c: 0, d: p.d };
    let c = solve_term(t1 as i128 - q1.f(STATION_1 as i64) as i128, LINEAR_DEN, STATION_1);
    let q2 = Polynomial { a: p.a, b: 0, c, d: p.d };
    let b = solve_term(
        t2 as i128 - q2.f(STATION_2 as i64) as i128,
        QUADRATIC_DEN,
        STATION_2 * STATION_2,
    );
    let q3 = Polynomial { a: 0, b, c, d: p.d };
    let a = solve_term(
        t3 as i128 - q3.f(STATION_3 as i64) as i128,
        CUBIC_DEN,
        STATION_3 * STATION_3 * STATION_3,
    );
    Polynomial { a, b, c, d: p.d }
}

/// The integer root of `SLOPE_ONE² + s²` is at least `SLOPE_ONE`.
proof fn lemma_root_at_least_one(s: int, h: int)
    requires
        crate::arith::is_isqrt(SLOPE_ONE * SLOPE_ONE + s * s, h),
    ensures
        SLOPE_ONE <= h,
{
    assert(0 <= s * s) by (nonlinear_arith);
    assert(SLOPE_ONE <= h) by (nonlinear_arith)
        requires
            0 <= h,
            SLOPE_ONE * SLOPE_ONE <= SLOPE_ONE * SLOPE_ONE + s * s,
            SLOPE_ONE * SLOPE_ONE + s * s < (h + 1) * (h + 1),
            0 <= s * s,
    ;
}

/// Scaling by `SLOPE_ONE` and dividing by a root at least as large keeps a
/// length no longer than it was.
proof fn lemma_scaled_quotient(v: int, h: int)
    requires
        0 <= v <= 2 * CURVE_BOUND,
        SLOPE_ONE <= h,
    ensures
        0 <= v * SLOPE_ONE / h <= v,
        v * SLOPE_ONE <= 2 * CURVE_BOUND * SLOPE_ONE,
{
    assert(0 <= v * SLOPE_ONE <= v * h) by (nonlinear_arith)
        requires
            0 <= v,
            SLOPE_ONE <= h,
    ;
    vstd::arithmetic::div_mod::lemma_div_is_ordered(v * SLOPE_ONE, v * h, h);
    vstd::arithmetic::div_mod::lemma_div_pos_is_pos(v * SLOPE_ONE, h);
    vstd::arithmetic::div_mod::lemma_div_multiples_vanish(v, h);
    vstd::arithmetic::mul::lemma_mul_is_commutative(v, h);
}

/// Largest magnitude of a fit target, in millimetres.
pub const TARGET_RANGE: i64 = 40000;

/// Bound on the centerline's magnitude between the anchors, for a
/// centerline whose constant term is a fit target.
pub const SPAN_BOUND: i64 = 110_000_000;

/// Between the anchors the centerline of a fitted layout stays inside the
/// world.
pub proof fn lemma_curve_between_anchors(p: Polynomial, x: int)
    requires
        p.wf(),
        -TARGET_RANGE <= p.d <= TARGET_RANGE,
        START_X <= x <= HOLE_X,
    ensures
        -SPAN_BOUND <= p.f_spec(x) <= SPAN_BOUND,
        SPAN_BOUND < WORLD_LIMIT,
{
    let h = HOLE_X as int;
    lemma_mul_abs_bound(x, x, h, h);
    lemma_mul_abs_bound(x * x, x, h * h, h);
    lemma_mul_abs_bound(p.a as int, x * x * x, COEFF_LIMIT as int, h * h * h);
    lemma_mul_abs_bound(p.b as int, x * x, COEFF_LIMIT as int, h * h);
    lemma_mul_abs_bound(p.c as int, x, COEFF_LIMIT as int, h);
    lemma_div_abs_bound(p.a * (x * x * x), COEFF_LIMIT * (h * h * h), CUBIC_DEN as int);
    lemma_div_abs_bound(p.b * (x * x), COEFF_LIMIT * (h * h), QUADRATIC_DEN as int);
    lemma_div_abs_bound(p.c * x, COEFF_LIMIT * h, LINEAR_DEN as int);
}

} // verus!
