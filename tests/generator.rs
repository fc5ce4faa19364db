use golf_terrain::coord::{ChunkCoord, CHUNK_SIZE_MM};
use golf_terrain::course::{HOLE_X, START_X};
use golf_terrain::generator::{GrasslandsGenerator, PropType, TerrainGenerator, ZoneType, ANCHOR_FLOOR, DEAD_ZONE_LEVEL};
use golf_terrain::hazard::{MAX_BUNKER_SIZE, MIN_BUNKER_SIZE};

#[test]
fn same_seed_same_terrain() {
    let g1 = GrasslandsGenerator::new(42);
    let g2 = GrasslandsGenerator::new(42);
    assert_eq!(g1.course_layout(), g2.course_layout());
    let mut x: i64 = -200_000;
    while x <= 400_000 {
        let z = x / 3 - 7_000;
        assert_eq!(g1.height_at(x, z), g1.height_at(x, z));
        assert_eq!(g1.height_at(x, z), g2.height_at(x, z));
        assert_eq!(g1.zone_type_at(x, z), g2.zone_type_at(x, z));
        x += 12_345;
    }
}

#[test]
fn seeds_give_different_courses() {
    let g1 = GrasslandsGenerator::new(42);
    let g2 = GrasslandsGenerator::new(43);
    assert_ne!(g1.course_layout(), g2.course_layout());
    assert_eq!(g1.seed(), 42);
}

#[test]
fn anchors_lie_on_the_course() {
    let g = GrasslandsGenerator::new(42);
    let course = g.course_layout();
    assert_eq!(g.start(), (START_X, course.f(START_X)));
    assert_eq!(g.hole(), (HOLE_X, course.f(HOLE_X)));
    assert_eq!(g.start(), (0, course.d));
}

#[test]
fn anchors_stay_above_the_floor() {
    let mut seed: u32 = 0;
    while seed < 60 {
        let g = GrasslandsGenerator::new(seed);
        let s = g.start();
        let h = g.hole();
        assert!(g.height_at(s.0, s.1) > ANCHOR_FLOOR);
        assert!(g.height_at(h.0, h.1) > ANCHOR_FLOOR);
        seed += 1;
    }
}

#[test]
fn zones_follow_height_bunkers_and_course() {
    let g = GrasslandsGenerator::new(42);
    let course = g.course_layout();
    let mut x: i64 = -100_000;
    while x <= 400_000 {
        let mut z: i64 = -100_000;
        while z <= 100_000 {
            let zone = g.zone_type_at(x, z);
            let h = g.height_at(x, z);
            let depth = g.nearest_bunker((x, z)).depth_at(x, z);
            let expected = if h <= DEAD_ZONE_LEVEL {
                ZoneType::DeadZone
            } else if depth != 0 {
                ZoneType::Bunker
            } else if course.on_clean_grass([x, z]) {
                ZoneType::Clean
            } else {
                ZoneType::Offtrack
            };
            assert_eq!(zone, expected);
            z += 9_000;
        }
        x += 7_000;
    }
}

#[test]
fn the_fairway_is_clean_somewhere() {
    let g = GrasslandsGenerator::new(42);
    let course = g.course_layout();
    let mut clean = 0;
    let mut x: i64 = 0;
    while x < 300_000 {
        if g.zone_type_at(x, course.f(x)) == ZoneType::Clean {
            clean += 1;
        }
        x += 5_000;
    }
    assert!(clean > 0);
}

#[test]
fn bunkers_are_in_range_or_absent() {
    let mut seed: u32 = 0;
    let mut found = 0;
    while seed < 20 {
        let g = GrasslandsGenerator::new(seed);
        let mut col: i64 = -3;
        while col < 12 {
            let b = g.nearest_bunker((col * CHUNK_SIZE_MM, 5_000));
            assert_eq!(b, g.nearest_bunker((col * CHUNK_SIZE_MM + 31_999, -77_000)));
            if b.size != 0 {
                found += 1;
                assert!(20_000 <= b.center_x && b.center_x <= 280_000);
                assert!(MIN_BUNKER_SIZE <= b.size && b.size <= MAX_BUNKER_SIZE);
                assert!(b.rotation < 8);
                assert!(g.course_layout().approx_distance_to_curve([b.center_x, b.center_z]) <= 32_000);
                assert!(b.depth_at(b.center_x, b.center_z) == 600);
            }
            col += 1;
        }
        seed += 1;
    }
    assert!(found > 0);
}

#[test]
fn props_stand_off_track_at_terrain_height() {
    let g = GrasslandsGenerator::new(42);
    let mut total = 0;
    let mut varied = false;
    let mut cx: i32 = -6;
    while cx < 14 {
        let mut cz: i32 = -6;
        while cz < 6 {
            let c = ChunkCoord::new(cx, cz);
            let (ox, oz) = c.world_offset();
            let props = g.props_in_chunk(c);
            for p in props.iter() {
                let (px, py, pz) = p.position;
                assert!(0 <= px && px < CHUNK_SIZE_MM);
                assert!(0 <= pz && pz < CHUNK_SIZE_MM);
                assert_eq!(py, g.height_at(ox + px, oz + pz));
                assert_eq!(g.zone_type_at(ox + px, oz + pz), ZoneType::Offtrack);
                assert_eq!(p.prop_type, PropType::Tree);
                if px != 0 || pz != 0 {
                    varied = true;
                }
                total += 1;
            }
            assert_eq!(props.len(), g.props_in_chunk(c).len());
            cz += 1;
        }
        cx += 1;
    }
    assert!(total > 0);
    assert!(varied);
}

#[test]
fn candidates_become_props_only_off_track() {
    let g = GrasslandsGenerator::new(42);
    let mut kept = 0;
    let mut dropped = 0;
    let mut cx: i32 = -2;
    while cx < 10 {
        let c = ChunkCoord::new(cx, 0);
        let (ox, oz) = c.world_offset();
        let mut px: i64 = 500;
        while px < CHUNK_SIZE_MM {
            let pz = (px * 7) % CHUNK_SIZE_MM;
            let wx = ox + px;
            let wz = oz + pz;
            match g.place_candidate(c, px, pz, 99) {
                Some(p) => {
                    assert_eq!(g.zone_type_at(wx, wz), ZoneType::Offtrack);
                    assert_eq!(p.position, (px, g.height_at(wx, wz), pz));
                    assert_eq!(p.seed, 99);
                    assert_eq!(p.prop_type, PropType::Tree);
                    kept += 1;
                }
                None => {
                    assert_ne!(g.zone_type_at(wx, wz), ZoneType::Offtrack);
                    dropped += 1;
                }
            }
            px += 3_000;
        }
        cx += 1;
    }
    assert!(kept > 0);
    assert!(dropped > 0);
}
