//! Chunk loaders: observers whose positions say which chunks are wanted.

use vstd::prelude::*;
use crate::coord::{chunk_of, chunk_of_spec, in_world, ChunkCoord, CHUNK_SIZE_MM};

verus! {

/// Largest load or unload radius, in millimetres.
pub const MAX_RADIUS: i64 = 10_000_000;

/// An observer: chunks whose centre lies within `loading_threshold` of its
/// position are loaded; present chunks are kept while their centre lies
/// within the larger `unloading_threshold`. Lengths are in millimetres.
#[derive(Clone, Copy, Debug)]
pub struct ChunkLoader {
    pub loading_threshold: i64,
    pub unloading_threshold: i64,
    pub chunk_position: ChunkCoord,
    pub position: (i64, i64),
}

impl ChunkLoader {
    /// The radii leave at least one chunk width between loading and
    /// unloading, and the chunk position is the chunk that holds the
    /// position.
    pub open spec fn wf(self) -> bool {
        &&& 0 <= self.loading_threshold
        &&& self.loading_threshold + CHUNK_SIZE_MM <= self.unloading_threshold <= MAX_RADIUS
        &&& in_world(self.position.0 as int, self.position.1 as int)
        &&& self.chunk_position == chunk_of_spec(self.position.0 as int, self.position.1 as int)
    }

    /// A loader at the origin that loads within `render_distance` and
    /// unloads one chunk width further out.
    pub fn new(render_distance: i64) -> (r: ChunkLoader)
        requires
            0 <= render_distance <= MAX_RADIUS - CHUNK_SIZE_MM,
        ensures
            r.wf(),
            r.loading_threshold == render_distance,
            r.unloading_threshold == render_distance + CHUNK_SIZE_MM,
            r.position == (0i64, 0i64),
            r.chunk_position == (ChunkCoord { x: 0, z: 0 }),
    {
        let r = ChunkLoader {
            loading_threshold: render_distance,
            unloading_threshold: render_distance + CHUNK_SIZE_MM,
            chunk_position: ChunkCoord { x: 0, z: 0 },
            position: (0, 0),
        };
        assert(0int / (CHUNK_SIZE_MM as int) == 0);
        r
    }

    /// A loader at the origin with its own radii; the unload radius must
    /// exceed the load radius by at least one chunk width.
    pub fn with_radii(load_radius: i64, unload_radius: i64) -> (r: ChunkLoader)
        requires
            0 <= load_radius,
            load_radius + CHUNK_SIZE_MM <= unload_radius <= MAX_RADIUS,
        ensures
            r.wf(),
            r.loading_threshold == load_radius,
            r.unloading_threshold == unload_radius,
            r.position == (0i64, 0i64),
            r.chunk_position == (ChunkCoord { x: 0, z: 0 }),
    {
        let r = ChunkLoader {
            loading_threshold: load_radius,
            unloading_threshold: unload_radius,
            chunk_position: ChunkCoord { x: 0, z: 0 },
            position: (0, 0),
        };
        assert(0int / (CHUNK_SIZE_MM as int) == 0);
        r
    }
}

/// Moves `loader` to world `(x, z)` and records the chunk that holds it.
pub fn update_chunk_loader_position(loader: &mut ChunkLoader, x: i64, z: i64)
    requires
        old(loader).wf(),
        in_world(x as int, z as int),
    ensures
        final(loader).wf(),
        final(loader).position == (x, z),
        final(loader).chunk_position == chunk_of_spec(x as int, z as int),
        final(loader).loading_threshold == old(loader).loading_threshold,
        final(loader).unloading_threshold == old(loader).unloading_threshold,
{
    loader.chunk_position = chunk_of(x, z);
    loader.position = (x, z);
}

} // verus!
