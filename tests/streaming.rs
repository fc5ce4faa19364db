use golf_terrain::chunk::Chunk;
use golf_terrain::coord::{ChunkCoord, CHUNK_SIZE_MM, GRID_SIDE};
use golf_terrain::generator::{GrasslandsGenerator, TerrainGenerator};
use golf_terrain::loader::{update_chunk_loader_position, ChunkLoader};
use golf_terrain::manager::{insert_chunk_mesh, ChunkManager, TEARDOWN_TICKS};
use golf_terrain::scheduler::{
    desired_chunks, distance, is_retained, load_chunks, tick, unload_chunks, ChunkPlugin,
    CHUNKS_MESHED_PER_TICK,
};

fn loader_at(radius: i64, x: i64, z: i64) -> ChunkLoader {
    let mut l = ChunkLoader::new(radius);
    update_chunk_loader_position(&mut l, x, z);
    l
}

fn sorted_coords(m: &ChunkManager<GrasslandsGenerator>) -> Vec<(i32, i32)> {
    let mut v: Vec<(i32, i32)> = m.coords().iter().map(|c| (c.x, c.z)).collect();
    v.sort();
    v
}

#[test]
fn loader_radii_and_position() {
    let mut l = ChunkLoader::new(64_000);
    assert_eq!(l.loading_threshold, 64_000);
    assert_eq!(l.unloading_threshold, 64_000 + CHUNK_SIZE_MM);
    assert_eq!(l.chunk_position, ChunkCoord::new(0, 0));
    update_chunk_loader_position(&mut l, -1, 64_000);
    assert_eq!(l.chunk_position, ChunkCoord::new(-1, 2));
    assert_eq!(l.position, (-1, 64_000));
}

#[test]
fn distance_is_to_the_chunk_centre() {
    let l = loader_at(64_000, 0, 0);
    assert_eq!(distance(&l, ChunkCoord::new(0, 0)), 2 * 16_000 * 16_000);
    assert_eq!(distance(&l, ChunkCoord::new(-1, 0)), 2 * 16_000 * 16_000);
    assert_eq!(distance(&l, ChunkCoord::new(2, 0)), 80_000 * 80_000 + 16_000 * 16_000);
}

#[test]
fn chunk_grid_samples_the_generator() {
    let g = GrasslandsGenerator::new(42);
    let c = ChunkCoord::new(-1, 2);
    let chunk = Chunk::generate_at(&g, c);
    let (ox, oz) = chunk.world_offset();
    assert_eq!((ox, oz), (-32_000, 64_000));
    assert_eq!(chunk.coord(), c);
    assert_eq!(chunk.elevation().len(), GRID_SIDE * GRID_SIDE);
    let mut ix: usize = 0;
    while ix < GRID_SIDE {
        let mut iz: usize = 0;
        while iz < GRID_SIDE {
            let h = chunk.elevation()[ix * GRID_SIDE + iz];
            assert_eq!(h, g.height_at(ox + ix as i64 * 1000, oz + iz as i64 * 1000));
            iz += 5;
        }
        ix += 3;
    }
    assert_eq!(chunk.course_layout(), g.course_layout());
    assert_eq!(chunk.nearest_bunker(), g.nearest_bunker((ox, oz)));
    assert_eq!(chunk.props().len(), g.props_in_chunk(c).len());
}

#[test]
fn chunk_interpolation_meets_the_grid() {
    let g = GrasslandsGenerator::new(42);
    let chunk = Chunk::generate_at(&g, ChunkCoord::new(3, -1));
    let (ox, oz) = chunk.world_offset();
    let grid = chunk.elevation();
    let mut sx: i64 = 0;
    while sx < CHUNK_SIZE_MM {
        let mut sz: i64 = 0;
        while sz < CHUNK_SIZE_MM {
            let v = chunk.height_at(sx, sz).unwrap();
            let ix = (sx / 1000) as usize;
            let iz = (sz / 1000) as usize;
            let s = [
                grid[ix * GRID_SIDE + iz],
                grid[(ix + 1) * GRID_SIDE + iz],
                grid[ix * GRID_SIDE + iz + 1],
                grid[(ix + 1) * GRID_SIDE + iz + 1],
            ];
            let lo = *s.iter().min().unwrap();
            let hi = *s.iter().max().unwrap();
            assert!(lo <= v && v <= hi);
            if sx % 1000 == 0 && sz % 1000 == 0 {
                assert_eq!(v, g.height_at(ox + sx, oz + sz));
            }
            sz += 250;
        }
        sx += 750;
    }
}

#[test]
fn chunk_interpolation_exact_midpoint() {
    let g = GrasslandsGenerator::new(5);
    let chunk = Chunk::generate_at(&g, ChunkCoord::new(0, 0));
    let grid = chunk.elevation();
    let sum = grid[0] as i128 + grid[GRID_SIDE] as i128 + grid[1] as i128 + grid[GRID_SIDE + 1] as i128;
    let expected = (sum * 250_000).div_euclid(1_000_000) as i64;
    assert_eq!(chunk.height_at(500, 500), Some(expected));
}

#[test]
fn chunk_interpolation_outside_the_grid() {
    let g = GrasslandsGenerator::new(42);
    let chunk = Chunk::generate_at(&g, ChunkCoord::new(0, 0));
    assert_eq!(chunk.height_at(-1, 0), None);
    assert_eq!(chunk.height_at(0, -1), None);
    assert_eq!(chunk.height_at(CHUNK_SIZE_MM, 0), None);
    assert_eq!(chunk.height_at(5, CHUNK_SIZE_MM + 1000), None);
    assert!(chunk.height_at(CHUNK_SIZE_MM - 1, CHUNK_SIZE_MM - 1).is_some());
}

#[test]
fn scenario_one_tick_around_the_origin() {
    let plugin = ChunkPlugin::new();
    assert_eq!(plugin.mesh_cap, CHUNKS_MESHED_PER_TICK);
    let g = GrasslandsGenerator::new(42);
    let course = g.course_layout();
    assert_eq!(g.start(), (0, course.f(0)));
    assert_eq!(g.hole(), (300_000, course.f(300_000)));
    let mut m = plugin.build(g);
    let loaders = vec![loader_at(64_000, 16_000, 16_000)];
    let out = plugin.update(&mut m, &loaders);
    let mut expected: Vec<(i32, i32)> = Vec::new();
    let mut dx: i32 = -2;
    while dx <= 2 {
        let mut dz: i32 = -2;
        while dz <= 2 {
            if dx * dx + dz * dz <= 4 {
                expected.push((dx, dz));
            }
            dz += 1;
        }
        dx += 1;
    }
    assert_eq!(expected.len(), 13);
    assert_eq!(sorted_coords(&m), expected);
    assert_eq!(out.meshed.len(), 13);
    for c in m.coords().iter() {
        assert_eq!(m.is_meshed(*c), Some(true));
    }
    assert!(out.unloaded.is_empty());
}

#[test]
fn scenario_teleport_unloads_the_old_area() {
    let g = GrasslandsGenerator::new(42);
    let mut m = ChunkManager::new(g);
    let mut loaders = vec![loader_at(64_000, 16_000, 16_000)];
    tick(&mut m, &loaders, 25);
    let before = sorted_coords(&m);
    assert_eq!(before.len(), 13);
    let tearing_before = m.tearing_down_len();
    update_chunk_loader_position(&mut loaders[0], 10 * CHUNK_SIZE_MM + 16_000, 16_000);
    let out = tick(&mut m, &loaders, 25);
    let after = sorted_coords(&m);
    assert_eq!(after.len(), 13);
    for (x, z) in after.iter() {
        assert!((x - 10) * (x - 10) + z * z <= 4);
    }
    let mut unloaded: Vec<(i32, i32)> = out.unloaded.iter().map(|c| (c.x, c.z)).collect();
    unloaded.sort();
    assert_eq!(unloaded, before);
    assert_eq!(m.tearing_down_len(), tearing_before + 13);
    for (x, z) in before.iter() {
        assert!(!m.contains(ChunkCoord::new(*x, *z)));
    }
}

#[test]
fn hysteresis_band_keeps_state() {
    let g = GrasslandsGenerator::new(42);
    let mut m = ChunkManager::new(g);
    let mut loaders = vec![loader_at(64_000, 16_000, 16_000)];
    tick(&mut m, &loaders, 100);
    assert!(m.contains(ChunkCoord::new(2, 0)));
    assert!(!m.contains(ChunkCoord::new(-3, 0)));
    update_chunk_loader_position(&mut loaders[0], 0, 16_000);
    let l = loaders[0];
    assert_eq!(distance(&l, ChunkCoord::new(2, 0)), 80_000 * 80_000);
    let out = tick(&mut m, &loaders, 100);
    assert!(m.contains(ChunkCoord::new(2, 0)));
    assert!(!out.unloaded.contains(&ChunkCoord::new(2, 0)));
    assert!(is_retained(&loaders, ChunkCoord::new(2, 0)));
    assert_eq!(distance(&l, ChunkCoord::new(-3, 0)), 80_000 * 80_000);
    assert!(!m.contains(ChunkCoord::new(-3, 0)));
    update_chunk_loader_position(&mut loaders[0], -16_000, 16_000);
    tick(&mut m, &loaders, 100);
    assert!(m.contains(ChunkCoord::new(2, 0)));
    update_chunk_loader_position(&mut loaders[0], -16_001, 16_000);
    tick(&mut m, &loaders, 100);
    assert!(!m.contains(ChunkCoord::new(2, 0)));
}

#[test]
fn mesh_batches_take_the_closest_first() {
    let g = GrasslandsGenerator::new(42);
    let mut m = ChunkManager::new(g);
    let loaders = vec![loader_at(160_000, 16_000, 16_000)];
    load_chunks(&mut m, &loaders);
    let k = m.len();
    assert!(k > 30);
    let first = insert_chunk_mesh(&mut m, 10);
    assert_eq!(first.len(), 10);
    let mut max_meshed: u128 = 0;
    let mut min_waiting: u128 = u128::MAX;
    let mut waiting = 0;
    for c in m.coords().iter() {
        let p = m.priority_of(*c).unwrap();
        if m.is_meshed(*c) == Some(true) {
            assert!(first.contains(c));
            max_meshed = max_meshed.max(p);
        } else {
            waiting += 1;
            min_waiting = min_waiting.min(p);
        }
    }
    assert_eq!(waiting, k - 10);
    assert!(max_meshed <= min_waiting);
    let mut remaining = k - 10;
    while remaining > 0 {
        let batch = insert_chunk_mesh(&mut m, 10);
        let expect = if remaining < 10 { remaining } else { 10 };
        assert_eq!(batch.len(), expect);
        remaining -= expect;
    }
    assert_eq!(m.len(), k);
    assert!(insert_chunk_mesh(&mut m, 10).is_empty());
}

#[test]
fn desired_priority_is_the_nearest_loader() {
    let loaders = vec![loader_at(64_000, 16_000, 16_000), loader_at(64_000, 80_000, 16_000)];
    let d = desired_chunks(&loaders);
    let mut found = false;
    for (c, p) in d.iter() {
        if *c == ChunkCoord::new(2, 0) {
            assert_eq!(*p, 0);
            found = true;
        }
        if *c == ChunkCoord::new(1, 0) {
            assert_eq!(*p, 32_000 * 32_000);
        }
        if *c == ChunkCoord::new(-1, 0) {
            assert_eq!(*p, 32_000 * 32_000);
        }
    }
    assert!(found);
    let mut seen: Vec<(i32, i32)> = d.iter().map(|(c, _)| (c.x, c.z)).collect();
    seen.sort();
    seen.dedup();
    assert_eq!(seen.len(), d.len());
    assert!(desired_chunks(&Vec::new()).is_empty());
}

#[test]
fn loaded_chunks_keep_their_priority() {
    let g = GrasslandsGenerator::new(42);
    let mut m = ChunkManager::new(g);
    let loaders = vec![loader_at(64_000, 16_000, 16_000)];
    load_chunks(&mut m, &loaders);
    assert_eq!(m.priority_of(ChunkCoord::new(0, 0)), Some(0));
    assert_eq!(m.priority_of(ChunkCoord::new(2, 0)), Some(64_000 * 64_000));
    assert_eq!(m.priority_of(ChunkCoord::new(5, 5)), None);
    assert_eq!(m.is_meshed(ChunkCoord::new(0, 0)), Some(false));
    let n = m.len();
    load_chunks(&mut m, &loaders);
    assert_eq!(m.len(), n);
}

#[test]
fn unload_pass_spares_kept_chunks() {
    let g = GrasslandsGenerator::new(42);
    let mut m = ChunkManager::new(g);
    let mut loaders = vec![loader_at(64_000, 16_000, 16_000)];
    load_chunks(&mut m, &loaders);
    assert!(unload_chunks(&mut m, &loaders).is_empty());
    update_chunk_loader_position(&mut loaders[0], 500_000, 16_000);
    let gone = unload_chunks(&mut m, &loaders);
    assert_eq!(gone.len(), 13);
    assert_eq!(m.len(), 0);
    assert_eq!(m.tearing_down_len(), 13);
}

#[test]
fn teardown_runs_its_course() {
    let g = GrasslandsGenerator::new(42);
    let mut m = ChunkManager::new(g);
    m.load_chunk(ChunkCoord::new(0, 0), 0);
    m.load_chunk(ChunkCoord::new(0, 0), 7);
    assert_eq!(m.len(), 1);
    assert!(m.unload_chunk(ChunkCoord::new(0, 0)));
    assert!(!m.unload_chunk(ChunkCoord::new(0, 0)));
    m.load_chunk(ChunkCoord::new(0, 0), 3);
    assert_eq!(m.len(), 1);
    assert_eq!(m.tearing_down_len(), 1);
    let mut destroyed = 0;
    let mut t: u64 = 0;
    while t < TEARDOWN_TICKS - 1 {
        destroyed += m.advance_teardown();
        t += 1;
    }
    assert_eq!(destroyed, 0);
    assert_eq!(m.advance_teardown(), 1);
    assert_eq!(m.tearing_down_len(), 0);
    assert_eq!(m.len(), 1);
}

#[test]
fn manager_height_query() {
    let g = GrasslandsGenerator::new(42);
    let mut m = ChunkManager::new(g);
    assert_eq!(m.height_at(1_000, 2_000), None);
    m.load_chunk(ChunkCoord::new(0, 0), 0);
    m.load_chunk(ChunkCoord::new(-1, -1), 0);
    let gen = m.generator();
    assert_eq!(m.height_at(1_000, 2_000), Some(gen.height_at(1_000, 2_000)));
    assert_eq!(m.height_at(-5_000, -31_000), Some(gen.height_at(-5_000, -31_000)));
    let chunk = m.chunk_at(ChunkCoord::new(0, 0)).unwrap();
    assert_eq!(m.height_at(1_500, 2_250), chunk.height_at(1_500, 2_250));
    assert!(m.height_at(-1_500, 2_250).is_none());
    assert!(m.height_at(40_000, 2_250).is_none());
}

#[test]
fn regeneration_replaces_every_chunk() {
    let g = GrasslandsGenerator::new(42);
    let mut m = ChunkManager::new(g);
    let loaders = vec![loader_at(64_000, 16_000, 16_000)];
    tick(&mut m, &loaders, 25);
    assert_eq!(m.len(), 13);
    let old = m.replace_generator(GrasslandsGenerator::new(7));
    assert_eq!(old.seed(), 42);
    assert_eq!(m.generator().seed(), 7);
    assert_eq!(m.len(), 0);
    assert_eq!(m.tearing_down_len(), 13);
    tick(&mut m, &loaders, 25);
    assert_eq!(m.len(), 13);
    let layout = m.generator().course_layout();
    for c in m.coords().iter() {
        let chunk = m.chunk_at(*c).unwrap();
        assert_eq!(chunk.course_layout(), layout);
        let (ox, oz) = chunk.world_offset();
        assert_eq!(chunk.nearest_bunker(), m.generator().nearest_bunker((ox, oz)));
    }
}

#[test]
fn mesh_triangles_cover_the_grid() {
    let g = GrasslandsGenerator::new(42);
    let chunk = Chunk::generate_at(&g, ChunkCoord::new(1, -2));
    let idx = chunk.mesh_indices();
    assert_eq!(idx.len(), 6 * 32 * 32);
    assert_eq!(&idx[0..6], &[0, 1, 33, 1, 34, 33]);
    assert_eq!(&idx[6..12], &[33, 34, 66, 34, 67, 66]);
    assert_eq!(&idx[192..198], &[1, 2, 34, 2, 35, 34]);
    assert!(idx.iter().all(|i| (*i as usize) < GRID_SIDE * GRID_SIDE));
    assert_eq!(*idx.iter().max().unwrap() as usize, GRID_SIDE * GRID_SIDE - 1);
    let pos = chunk.mesh_positions();
    let grid = chunk.elevation();
    assert_eq!(pos.len(), GRID_SIDE * GRID_SIDE);
    assert_eq!(pos[0], (32_000, grid[0], -64_000));
    assert_eq!(pos[34], (33_000, grid[34], -63_000));
    assert_eq!(pos[GRID_SIDE * GRID_SIDE - 1], (64_000, grid[GRID_SIDE * GRID_SIDE - 1], -32_000));
}

#[test]
fn wide_unload_radius_keeps_more() {
    let g = GrasslandsGenerator::new(42);
    let mut m = ChunkManager::new(g);
    let mut l = ChunkLoader::with_radii(64_000, 200_000);
    assert_eq!(l.unloading_threshold, 200_000);
    update_chunk_loader_position(&mut l, 16_000, 16_000);
    let mut loaders = vec![l];
    tick(&mut m, &loaders, 25);
    update_chunk_loader_position(&mut loaders[0], 112_000, 16_000);
    let out = tick(&mut m, &loaders, 25);
    assert!(out.unloaded.is_empty());
    assert!(m.contains(ChunkCoord::new(-2, 0)));
    assert!(m.contains(ChunkCoord::new(5, 0)));
}

#[test]
fn unloading_leaves_kept_slots_untouched() {
    let g = GrasslandsGenerator::new(42);
    let mut m = ChunkManager::new(g);
    let mut loaders = vec![loader_at(64_000, 16_000, 16_000)];
    tick(&mut m, &loaders, 100);
    let before: Vec<(ChunkCoord, Option<u128>, Option<bool>)> =
        m.coords().iter().map(|c| (*c, m.priority_of(*c), m.is_meshed(*c))).collect();
    update_chunk_loader_position(&mut loaders[0], 112_000, 16_000);
    let gone = unload_chunks(&mut m, &loaders);
    assert!(!gone.is_empty());
    let mut order: Vec<ChunkCoord> = Vec::new();
    for (c, p, meshed) in before.iter() {
        if gone.contains(c) {
            assert!(!m.contains(*c));
        } else {
            assert_eq!(m.priority_of(*c), *p);
            assert_eq!(m.is_meshed(*c), *meshed);
            order.push(*c);
        }
    }
    assert_eq!(m.coords(), order);
    assert_eq!(m.tearing_down_len(), gone.len());
}
