use golf_terrain::coord::{chunk_of, floor_div, ChunkCoord};
use golf_terrain::course::{Polynomial, COURSE_WIDTH, SLOPE_ONE};
use golf_terrain::hazard::Hazard;
use golf_terrain::noise::{lattice_hash, layered, layered_with_mountains, perlin, LAYERED_BOUND, NOISE_ONE};

#[test]
fn floor_div_rounds_down() {
    assert_eq!(floor_div(7, 2), 3);
    assert_eq!(floor_div(-7, 2), -4);
    assert_eq!(floor_div(-32000, 32000), -1);
    assert_eq!(floor_div(-1, 32000), -1);
    assert_eq!(floor_div(0, 32000), 0);
}

#[test]
fn chunk_of_negative_positions() {
    assert_eq!(chunk_of(-1, -1), ChunkCoord::new(-1, -1));
    assert_eq!(chunk_of(31999, 32000), ChunkCoord::new(0, 1));
    assert_eq!(ChunkCoord::new(-2, 3).world_offset(), (-64000, 96000));
}

#[test]
fn lattice_hash_is_deterministic_and_seeded() {
    assert_eq!(lattice_hash(42, 3, -5), lattice_hash(42, 3, -5));
    assert_ne!(lattice_hash(42, 3, -5), lattice_hash(43, 3, -5));
    assert_ne!(lattice_hash(42, 3, -5), lattice_hash(42, -5, 3));
}

#[test]
fn perlin_vanishes_on_lattice_points() {
    assert_eq!(perlin(42, 0, 0, 12000), 0);
    assert_eq!(perlin(7, 24000, -36000, 12000), 0);
}

#[test]
fn noise_stays_bounded() {
    let mut x: i64 = -500_000;
    while x <= 500_000 {
        let p = perlin(42, x, 3 * x + 17, 30000);
        assert!(-2 * NOISE_ONE <= p && p <= 2 * NOISE_ONE);
        let h = layered(42, x, -x + 1234);
        assert!(-LAYERED_BOUND <= h && h <= LAYERED_BOUND);
        assert_eq!(layered_with_mountains(42, 5 * x, 5 * x), layered(42, x, x));
        x += 7919;
    }
}

#[test]
fn cubic_terms_evaluate_exactly() {
    let flat = Polynomial { a: 0, b: 0, c: 0, d: 5000 };
    assert_eq!(flat.f(123_456), 5000);
    assert_eq!(flat.f_prime(123_456), 0);
    let diagonal = Polynomial { a: 0, b: 0, c: 1 << 30, d: 0 };
    assert_eq!(diagonal.f(100_000), 100_000);
    assert_eq!(diagonal.f_prime(-5), SLOPE_ONE as i64);
    let parabola = Polynomial { a: 0, b: 1 << 38, c: 0, d: 0 };
    assert_eq!(parabola.f(1_000_000), 244_140_625);
    assert_eq!(parabola.f_prime(1_000_000), 524_288_000_000);
    let cubic = Polynomial { a: 1 << 20, b: 0, c: 0, d: 0 };
    assert_eq!(cubic.f(1 << 20), 256);
}

#[test]
fn distance_to_the_tangent_line() {
    let flat = Polynomial { a: 0, b: 0, c: 0, d: 0 };
    assert_eq!(flat.approx_distance_to_curve([100_000, 30_000]), 30_000);
    assert_eq!(flat.approx_distance_to_curve([100_000, -30_000]), 30_000);
    let diagonal = Polynomial { a: 0, b: 0, c: 1 << 30, d: 0 };
    assert_eq!(diagonal.approx_distance_to_curve([100_000, 130_000]), 21213);
}

#[test]
fn corridor_membership() {
    let flat = Polynomial { a: 0, b: 0, c: 0, d: 0 };
    assert!(flat.on_clean_grass([100_000, COURSE_WIDTH - 1]));
    assert!(!flat.on_clean_grass([100_000, COURSE_WIDTH]));
    assert!(flat.on_clean_grass([-10_000, 23_000]));
    assert!(!flat.on_clean_grass([-10_000, 25_000]));
    assert!(flat.on_clean_grass([310_000, -24_999]));
    assert!(!flat.on_clean_grass([310_000, -25_000]));
    assert!(flat.on_clean_grass([400_000, 0]));
    assert!(flat.on_clean_grass([-100_000, 0]));
    let diagonal = Polynomial { a: 0, b: 0, c: 1 << 30, d: 0 };
    assert!(diagonal.on_clean_grass([1_000_000, 1_000_000]));
    assert!(diagonal.on_clean_grass([-1_000_000, -1_000_000 + 30_000]));
    assert!(!diagonal.on_clean_grass([-1_000_000, -1_000_000 + 40_000]));
}

#[test]
fn fit_of_a_level_course_is_level() {
    let p = Polynomial::fit([1000, 1000, 1000, 1000]);
    assert_eq!(p, Polynomial { a: 0, b: 0, c: 0, d: 1000 });
    let q = Polynomial::fit([0, 0, 0, 0]);
    assert_eq!(q, Polynomial { a: 0, b: 0, c: 0, d: 0 });
}

#[test]
fn fit_keeps_start_and_approaches_targets() {
    let targets = [12_000, -8_000, 15_000, 3_000];
    let p = Polynomial::fit(targets);
    assert_eq!(p.f(0), 12_000);
    assert_eq!(p.f(300_000), 2_999);
    assert_eq!(p.f(100_000), -5_874);
    assert_eq!(p.f(200_000), 9_831);
    assert_eq!(p, Polynomial { a: -44_165_845_080, b: 5_049_238_869, c: -573_013_062, d: 12_000 });
}

#[test]
fn bunker_depth_profile() {
    let b = Hazard { center_x: 0, center_z: 0, rotation: 0, size: 10_000 };
    assert_eq!(b.depth_at(0, 0), 600);
    assert_eq!(b.depth_at(5_000, 0), 450);
    assert_eq!(b.depth_at(10_000, 0), 0);
    assert_eq!(b.depth_at(0, 2_500), 450);
    assert_eq!(b.depth_at(0, 5_000), 0);
    let turned = Hazard { center_x: 0, center_z: 0, rotation: 4, size: 10_000 };
    assert_eq!(turned.depth_at(0, 5_000), 450);
    assert_eq!(Hazard::none().depth_at(0, 0), 0);
}
