//! The chunk index: which chunks are present, which are tearing down, and
//! the one active generator that every present chunk was built from.

use vstd::prelude::*;
use crate::chunk::{lemma_chunk_height_agreement, Chunk};
use crate::coord::{chunk_of, chunk_of_spec, in_world, ChunkCoord, CHUNK_SIZE_MM, COORD_LIMIT};
use crate::generator::{column_of, TerrainGenerator};

verus! {

/// Ticks that an unloaded chunk spends tearing down before it is destroyed.
pub const TEARDOWN_TICKS: u64 = 15;

/// A present chunk with its load priority (the squared distance to the
/// nearest loader that wanted it) and whether its mesh has been built.
pub struct ChunkSlot {
    pub chunk: Chunk,
    pub priority: u128,
    pub meshed: bool,
}

/// A chunk that has left the index and is destroyed at tick `destroy_at`.
pub struct TearingDown {
    pub chunk: Chunk,
    pub destroy_at: u64,
}

/// The records of `s` still alive at tick `now`, in order.
pub open spec fn alive(s: Seq<TearingDown>, now: u64) -> Seq<TearingDown>
    decreases s.len(),
{
    if s.len() == 0 {
        s
    } else {
        let rest = alive(s.drop_last(), now);
        if s.last().destroy_at > now {
            rest.push(s.last())
        } else {
            rest
        }
    }
}

/// Some slot held `c` unmeshed before and holds it meshed after.
pub open spec fn newly_meshed(before: Seq<ChunkSlot>, after: Seq<ChunkSlot>, c: ChunkCoord) -> bool {
    exists|i: int|
        0 <= i < before.len() && #[trigger] before[i].chunk.coord_view() == c && !before[i].meshed
            && after[i].meshed
}

/// Number of slots whose mesh is not yet built.
pub open spec fn unmeshed_count(s: Seq<ChunkSlot>) -> nat
    decreases s.len(),
{
    if s.len() == 0 {
        0
    } else {
        unmeshed_count(s.drop_last()) + if s.last().meshed {
            0nat
        } else {
            1nat
        }
    }
}

/// Meshing one unmeshed slot, and nothing else, leaves one fewer unmeshed.
proof fn lemma_unmeshed_count_step(s: Seq<ChunkSlot>, t: Seq<ChunkSlot>, b: int)
    requires
        s.len() == t.len(),
        0 <= b < s.len(),
        !s[b].meshed,
        t[b].meshed,
        forall|i: int| 0 <= i < s.len() && i != b ==> (#[trigger] s[i]).meshed == t[i].meshed,
    ensures
        unmeshed_count(t) + 1 == unmeshed_count(s),
    decreases s.len(),
{
    if b < s.len() - 1 {
        let s2 = s.drop_last();
        let t2 = t.drop_last();
        assert forall|i: int| 0 <= i < s2.len() && i != b implies (#[trigger] s2[i]).meshed == t2[i].meshed by {
            assert(s2[i] == s[i]);
            assert(t2[i] == t[i]);
        }
        assert(s2[b] == s[b]);
        assert(t2[b] == t[b]);
        lemma_unmeshed_count_step(s2, t2, b);
        assert(s.last() == s[s.len() - 1]);
        assert(t.last() == t[t.len() - 1]);
    } else {
        lemma_unmeshed_count_same(s.drop_last(), t.drop_last());
    }
}

proof fn lemma_unmeshed_count_same(s: Seq<ChunkSlot>, t: Seq<ChunkSlot>)
    requires
        s.len() == t.len(),
        forall|i: int| 0 <= i < s.len() ==> (#[trigger] s[i]).meshed == t[i].meshed,
    ensures
        unmeshed_count(t) == unmeshed_count(s),
    decreases s.len(),
{
    if s.len() > 0 {
        let s2 = s.drop_last();
        let t2 = t.drop_last();
        assert forall|i: int| 0 <= i < s2.len() implies (#[trigger] s2[i]).meshed == t2[i].meshed by {
            assert(s2[i] == s[i]);
            assert(t2[i] == t[i]);
        }
        lemma_unmeshed_count_same(s2, t2);
        assert(s.last() == s[s.len() - 1]);
        assert(t.last() == t[t.len() - 1]);
    }
}

/// With every slot meshed, none is left unmeshed.
proof fn lemma_unmeshed_count_zero(s: Seq<ChunkSlot>)
    requires
        forall|i: int| 0 <= i < s.len() ==> (#[trigger] s[i]).meshed,
    ensures
        unmeshed_count(s) == 0,
    decreases s.len(),
{
    if s.len() > 0 {
        let s2 = s.drop_last();
        assert forall|i: int| 0 <= i < s2.len() implies (#[trigger] s2[i]).meshed by {
            assert(s2[i] == s[i]);
        }
        lemma_unmeshed_count_zero(s2);
        assert(s.last() == s[s.len() - 1]);
    }
}

/// With none left unmeshed, every slot is meshed.
proof fn lemma_unmeshed_count_zero_all(s: Seq<ChunkSlot>)
    requires
        unmeshed_count(s) == 0,
    ensures
        forall|i: int| 0 <= i < s.len() ==> (#[trigger] s[i]).meshed,
    decreases s.len(),
{
    if s.len() > 0 {
        let s2 = s.drop_last();
        lemma_unmeshed_count_zero_all(s2);
        assert forall|i: int| 0 <= i < s.len() implies (#[trigger] s[i]).meshed by {
            if i < s2.len() {
                assert(s2[i] == s[i]);
            }
        }
    }
}

/// Batches drain the queue: when each call meshes `min(cap, left)` of the
/// chunks left unmeshed and nothing new arrives, `ceil(k / cap)` calls
/// mesh all `k` of them and none is dropped on the way.
pub proof fn lemma_batches_drain(counts: Seq<nat>, cap: nat)
    requires
        cap > 0,
        counts.len() >= 1,
        counts.len() - 1 == (counts[0] + cap - 1) / (cap as int),
        forall|t: int|
            0 <= t < counts.len() - 1 ==> #[trigger] counts[t + 1] == counts[t] - if cap
                <= counts[t] {
                cap
            } else {
                counts[t]
            },
    ensures
        counts.last() == 0,
    decreases counts.len(),
{
    let k = counts[0];
    if counts.len() == 1 {
        assert(k == 0) by {
            if k > 0 {
                vstd::arithmetic::div_mod::lemma_div_is_ordered(cap as int, k + cap - 1, cap as int);
                vstd::arithmetic::div_mod::lemma_div_multiples_vanish(1, cap as int);
            }
        }
    } else {
        let rest = counts.subrange(1, counts.len() as int);
        let t0 = 0int;
        assert(counts[t0 + 1] == counts[t0] - if cap <= counts[t0] { cap } else { counts[t0] });
        if cap <= k {
            assert((k - cap + cap - 1) / (cap as int) == (k + cap - 1) / (cap as int) - 1) by {
                vstd::arithmetic::div_mod::lemma_div_plus_one(k - cap + cap - 1, cap as int);
            }
            assert forall|t: int| 0 <= t < rest.len() - 1 implies #[trigger] rest[t + 1] == rest[t]
                - if cap <= rest[t] {
                cap
            } else {
                rest[t]
            } by {
                assert(rest[t + 1] == counts[t + 2]);
                assert(rest[t] == counts[t + 1]);
            }
            lemma_batches_drain(rest, cap);
            assert(rest.last() == counts.last());
        } else {
            assert(counts[1] == 0);
            if counts.len() > 2 {
                vstd::arithmetic::div_mod::lemma_div_is_ordered(k + cap - 1, 2 * cap - 2, cap as int);
                vstd::arithmetic::div_mod::lemma_div_plus_one(cap - 2, cap as int);
                vstd::arithmetic::div_mod::lemma_div_is_ordered(0, cap - 2, cap as int);
                assert((cap - 2) / (cap as int) <= 0) by {
                    if cap >= 2 {
                        vstd::arithmetic::div_mod::lemma_div_is_ordered(cap - 2, cap - 1, cap as int);
                        vstd::arithmetic::div_mod::lemma_div_multiples_vanish_fancy(0, cap - 1, cap as int);
                    }
                }
            }
            assert(counts.len() == 2);
        }
    }
}

/// The chunk index and the active generator.
pub struct ChunkManager<G: TerrainGenerator> {
    chunks: Vec<ChunkSlot>,
    tearing_down: Vec<TearingDown>,
    generator: G,
    now: u64,
}

impl<G: TerrainGenerator> ChunkManager<G> {
    pub closed spec fn slots(&self) -> Seq<ChunkSlot> {
        self.chunks@
    }

    pub closed spec fn teardown(&self) -> Seq<TearingDown> {
        self.tearing_down@
    }

    pub closed spec fn generator_spec(&self) -> G {
        self.generator
    }

    pub closed spec fn now_spec(&self) -> u64 {
        self.now
    }

    /// Coordinate of slot `i`.
    pub open spec fn slot_coord(&self, i: int) -> ChunkCoord {
        self.slots()[i].chunk.coord_view()
    }

    /// Whether a chunk at `c` is present.
    pub open spec fn has(&self, c: ChunkCoord) -> bool {
        exists|i: int| 0 <= i < self.slots().len() && #[trigger] self.slot_coord(i) == c
    }

    /// The set of present coordinates.
    pub open spec fn present(&self) -> Set<ChunkCoord> {
        Set::new(|c: ChunkCoord| self.has(c))
    }

    /// The index holds each coordinate at most once, every present chunk
    /// was built by the active generator, and the generator is well formed.
    pub open spec fn wf(&self) -> bool {
        &&& self.generator_spec().wf()
        &&& forall|i: int, j: int|
            0 <= i < self.slots().len() && 0 <= j < self.slots().len() && i != j
                ==> #[trigger] self.slot_coord(i) != #[trigger] self.slot_coord(j)
        &&& forall|i: int|
            0 <= i < self.slots().len() ==> #[trigger] self.slots()[i].chunk.built_by(
                &self.generator_spec(),
            )
    }

    /// An empty index over `generator`.
    pub fn new(generator: G) -> (r: Self)
        requires
            generator.wf(),
        ensures
            r.wf(),
            r.slots().len() == 0,
            r.teardown().len() == 0,
            r.generator_spec() == generator,
            r.now_spec() == 0,
    {
        ChunkManager { chunks: Vec::new(), tearing_down: Vec::new(), generator, now: 0 }
    }

    /// The active generator.
    pub fn generator(&self) -> (r: &G)
        ensures
            *r == self.generator_spec(),
    {
        &self.generator
    }

    /// Number of present chunks.
    pub fn len(&self) -> (r: usize)
        ensures
            r == self.slots().len(),
    {
        self.chunks.len()
    }

    /// Number of chunks tearing down.
    pub fn tearing_down_len(&self) -> (r: usize)
        ensures
            r == self.teardown().len(),
    {
        self.tearing_down.len()
    }

    /// The slot that holds `c`, if any.
    pub fn find(&self, c: ChunkCoord) -> (r: Option<usize>)
        ensures
            r.is_none() ==> !self.has(c),
            r.is_some() ==> r.unwrap() < self.slots().len() && self.slot_coord(r.unwrap() as int)
                == c,
    {
        let mut i: usize = 0;
        while i < self.chunks.len()
            invariant
                0 <= i <= self.chunks@.len(),
                forall|k: int| 0 <= k < i ==> #[trigger] self.slot_coord(k) != c,
            decreases self.chunks@.len() - i,
        {
            if self.chunks[i].chunk.coord() == c {
                return Some(i);
            }
            i = i + 1;
        }
        None
    }

    /// Whether a chunk at `c` is present.
    pub fn contains(&self, c: ChunkCoord) -> (r: bool)
        ensures
            r == self.has(c),
    {
        self.find(c).is_some()
    }

    /// The present coordinates, in slot order.
    pub fn coords(&self) -> (r: Vec<ChunkCoord>)
        ensures
            r@.len() == self.slots().len(),
            forall|i: int| 0 <= i < r@.len() ==> #[trigger] r@[i] == self.slot_coord(i),
    {
        let mut r: Vec<ChunkCoord> = Vec::new();
        let mut i: usize = 0;
        while i < self.chunks.len()
            invariant
                0 <= i <= self.chunks@.len(),
                r@.len() == i,
                forall|k: int| 0 <= k < i ==> #[trigger] r@[k] == self.slot_coord(k),
            decreases self.chunks@.len() - i,
        {
            r.push(self.chunks[i].chunk.coord());
            i = i + 1;
        }
        r
    }

    /// Whether the chunk at `c` is present and meshed; `None` if absent.
    pub fn is_meshed(&self, c: ChunkCoord) -> (r: Option<bool>)
        requires
            self.wf(),
        ensures
            r.is_none() == !self.has(c),
            forall|i: int|
                0 <= i < self.slots().len() && #[trigger] self.slot_coord(i) == c ==> r == Some(
                    self.slots()[i].meshed,
                ),
    {
        match self.find(c) {
            Some(i) => Some(self.chunks[i].meshed),
            None => None,
        }
    }

    /// The load priority of the chunk at `c`; `None` if absent.
    pub fn priority_of(&self, c: ChunkCoord) -> (r: Option<u128>)
        requires
            self.wf(),
        ensures
            r.is_none() == !self.has(c),
            forall|i: int|
                0 <= i < self.slots().len() && #[trigger] self.slot_coord(i) == c ==> r == Some(
                    self.slots()[i].priority,
                ),
    {
        match self.find(c) {
            Some(i) => Some(self.chunks[i].priority),
            None => None,
        }
    }

    /// The present chunk at `c`, if any.
    pub fn chunk_at(&self, c: ChunkCoord) -> (r: Option<&Chunk>)
        requires
            self.wf(),
        ensures
            r.is_none() == !self.has(c),
            forall|i: int|
                0 <= i < self.slots().len() && #[trigger] self.slot_coord(i) == c ==> r == Some(
                    &self.slots()[i].chunk,
                ),
    {
        match self.find(c) {
            Some(i) => Some(&self.chunks[i].chunk),
            None => None,
        }
    }

    /// Builds the chunk at `c` with the active generator and adds it,
    /// unmeshed, with load priority `priority`; nothing happens if `c` is
    /// already present.
    pub fn load_chunk(&mut self, c: ChunkCoord, priority: u128)
        requires
            old(self).wf(),
            c.valid(),
        ensures
            final(self).wf(),
            final(self).generator_spec() == old(self).generator_spec(),
            final(self).teardown() == old(self).teardown(),
            final(self).now_spec() == old(self).now_spec(),
            old(self).has(c) ==> final(self).slots() == old(self).slots(),
            forall|x: ChunkCoord| #[trigger] final(self).has(x) == (old(self).has(x) || x == c),
            !old(self).has(c) ==> {
                &&& final(self).slots().len() == old(self).slots().len() + 1
                &&& final(self).slots().drop_last() == old(self).slots()
                &&& final(self).slot_coord(old(self).slots().len() as int) == c
                &&& final(self).slots().last().priority == priority
                &&& !final(self).slots().last().meshed
            },
    {
        if self.find(c).is_some() {
            proof {
                Self::lemma_has_frame(old(self), self);
            }
            return;
        }
        let chunk = Chunk::generate_at(&self.generator, c);
        self.chunks.push(ChunkSlot { chunk, priority, meshed: false });
        proof {
            assert(self.slots().drop_last() =~= old(self).slots());
            assert forall|i: int, j: int|
                0 <= i < self.slots().len() && 0 <= j < self.slots().len() && i != j implies #[trigger] self.slot_coord(i)
                    != #[trigger] self.slot_coord(j) by {
                if i < old(self).slots().len() && j < old(self).slots().len() {
                    assert(old(self).slot_coord(i) == self.slot_coord(i));
                    assert(old(self).slot_coord(j) == self.slot_coord(j));
                } else if i < old(self).slots().len() {
                    assert(old(self).slot_coord(i) == self.slot_coord(i));
                } else {
                    assert(old(self).slot_coord(j) == self.slot_coord(j));
                }
            }
            assert forall|i: int| 0 <= i < self.slots().len() implies #[trigger] self.slots()[i].chunk.built_by(
                &self.generator_spec(),
            ) by {
                if i < old(self).slots().len() {
                    assert(self.slots()[i] == old(self).slots()[i]);
                }
            }
            assert forall|x: ChunkCoord| #[trigger] self.has(x) == (old(self).has(x) || x == c) by {
                if old(self).has(x) {
                    let i = choose|i: int| 0 <= i < old(self).slots().len() && #[trigger] old(self).slot_coord(i) == x;
                    assert(self.slot_coord(i) == x);
                }
                if self.has(x) && x != c {
                    let i = choose|i: int| 0 <= i < self.slots().len() && #[trigger] self.slot_coord(i) == x;
                    assert(old(self).slot_coord(i) == x);
                }
                if x == c {
                    assert(self.slot_coord(old(self).slots().len() as int) == x);
                }
            }
        }
    }

    /// Takes the chunk at `c` out of the index at once, so that `c` can be
    /// loaded afresh, and starts its teardown. Returns whether it was
    /// present.
    pub fn unload_chunk(&mut self, c: ChunkCoord) -> (r: bool)
        requires
            old(self).wf(),
        ensures
            final(self).wf(),
            r == old(self).has(c),
            !final(self).has(c),
            forall|x: ChunkCoord| x != c ==> #[trigger] final(self).has(x) == old(self).has(x),
            final(self).generator_spec() == old(self).generator_spec(),
            final(self).now_spec() == old(self).now_spec(),
            !r ==> final(self).slots() == old(self).slots() && final(self).teardown() == old(self).teardown(),
            r ==> exists|i: int|
                0 <= i < old(self).slots().len() && #[trigger] old(self).slot_coord(i) == c
                    && final(self).slots() == old(self).slots().remove(i) && final(self).teardown()
                    == old(self).teardown().push(
                    TearingDown {
                        chunk: old(self).slots()[i].chunk,
                        destroy_at: old(self).now_spec().saturating_add(TEARDOWN_TICKS),
                    },
                ),
    {
        match self.find(c) {
            None => {
                proof {
                    Self::lemma_has_frame(old(self), self);
                }
                false
            },
            Some(i) => {
                let slot = self.chunks.remove(i);
                let destroy_at = self.now.saturating_add(TEARDOWN_TICKS);
                self.tearing_down.push(TearingDown { chunk: slot.chunk, destroy_at });
                proof {
                    let o = old(self).slots();
                    assert forall|a: int, b: int|
                        0 <= a < self.slots().len() && 0 <= b < self.slots().len() && a != b implies #[trigger] self.slot_coord(a)
                            != #[trigger] self.slot_coord(b) by {
                        let oa = if a < i { a } else { a + 1 };
                        let ob = if b < i { b } else { b + 1 };
                        assert(self.slot_coord(a) == old(self).slot_coord(oa));
                        assert(self.slot_coord(b) == old(self).slot_coord(ob));
                    }
                    assert forall|a: int| 0 <= a < self.slots().len() implies #[trigger] self.slots()[a].chunk.built_by(
                        &self.generator_spec(),
                    ) by {
                        let oa = if a < i { a } else { a + 1 };
                        assert(self.slots()[a] == o[oa]);
                    }
                    if self.has(c) {
                        let a = choose|a: int| 0 <= a < self.slots().len() && #[trigger] self.slot_coord(a) == c;
                        let oa = if a < i { a } else { a + 1 };
                        assert(self.slot_coord(a) == old(self).slot_coord(oa));
                    }
                    assert forall|x: ChunkCoord| x != c implies #[trigger] self.has(x) == old(self).has(x) by {
                        if old(self).has(x) {
                            let a = choose|a: int| 0 <= a < old(self).slots().len() && #[trigger] old(self).slot_coord(a) == x;
                            assert(a != i);
                            let na = if a < i { a } else { a - 1 };
                            assert(self.slot_coord(na) == x);
                        }
                        if self.has(x) {
                            let a = choose|a: int| 0 <= a < self.slots().len() && #[trigger] self.slot_coord(a) == x;
                            let oa = if a < i { a } else { a + 1 };
                            assert(old(self).slot_coord(oa) == x);
                        }
                    }
                }
                true
            },
        }
    }

    /// The elevation at world `(x, z)` from the chunk that holds the point,
    /// interpolated from its grid; `None` while that chunk is not present.
    pub fn height_at(&self, x: i64, z: i64) -> (r: Option<i64>)
        requires
            self.wf(),
            in_world(x as int, z as int),
        ensures
            !self.has(chunk_of_spec(x as int, z as int)) ==> r.is_none(),
            forall|i: int|
                0 <= i < self.slots().len() && #[trigger] self.slot_coord(i) == chunk_of_spec(
                    x as int,
                    z as int,
                ) ==> {
                    let o = chunk_of_spec(x as int, z as int).offset_spec();
                    &&& r == self.slots()[i].chunk.interpolate_spec(x - o.0, z - o.1)
                    &&& r.is_some()
                },
    {
        let c = chunk_of(x, z);
        match self.find(c) {
            None => None,
            Some(i) => {
                let chunk = &self.chunks[i].chunk;
                proof {
                    assert(chunk.built_by(&self.generator_spec()));
                }
                let off = chunk.world_offset();
                let r = chunk.height_at(x - off.0, z - off.1);
                proof {
                    let sx = x - off.0;
                    let sz = z - off.1;
                    assert(0 <= sx < 32000 && 0 <= sz < 32000);
                    vstd::arithmetic::div_mod::lemma_div_is_ordered(sx as int, 31999, 1000);
                    vstd::arithmetic::div_mod::lemma_div_is_ordered(sz as int, 31999, 1000);
                    if self.has(c) {
                        assert forall|j: int|
                            0 <= j < self.slots().len() && #[trigger] self.slot_coord(j) == c implies j
                                == i by {
                            if j != i {
                                assert(self.slot_coord(j) != self.slot_coord(i as int));
                            }
                        }
                    }
                }
                r
            },
        }
    }

    /// Makes `new_generator` the active generator and starts the teardown of
    /// every present chunk, so that no chunk built by the old generator
    /// stays in the index. Returns the old generator.
    pub fn replace_generator(&mut self, new_generator: G) -> (r: G)
        requires
            old(self).wf(),
            new_generator.wf(),
        ensures
            final(self).wf(),
            r == old(self).generator_spec(),
            final(self).generator_spec() == new_generator,
            final(self).slots().len() == 0,
            final(self).now_spec() == old(self).now_spec(),
            final(self).teardown().len() == old(self).teardown().len() + old(self).slots().len(),
            final(self).teardown().subrange(0, old(self).teardown().len() as int) == old(self).teardown(),
            forall|i: int|
                0 <= i < old(self).slots().len() ==> #[trigger] final(self).teardown()[old(self).teardown().len() + i] == (TearingDown {
                    chunk: old(self).slots()[i].chunk,
                    destroy_at: old(self).now_spec().saturating_add(TEARDOWN_TICKS),
                }),
    {
        let mut g = new_generator;
        core::mem::swap(&mut self.generator, &mut g);
        let destroy_at = self.now.saturating_add(TEARDOWN_TICKS);
        let ghost n = old(self).slots().len();
        let ghost t0 = old(self).teardown().len();
        let ghost k: int = 0;
        while self.chunks.len() > 0
            invariant
                n == old(self).slots().len(),
                t0 == old(self).teardown().len(),
                0 <= k <= n,
                self.chunks@ == old(self).slots().subrange(k, n as int),
                self.tearing_down@.len() == t0 + k,
                self.tearing_down@.subrange(0, t0 as int) == old(self).teardown(),
                forall|i: int| 0 <= i < k ==> #[trigger] self.tearing_down@[t0 + i] == (TearingDown {
                    chunk: old(self).slots()[i].chunk,
                    destroy_at,
                }),
                destroy_at == old(self).now_spec().saturating_add(TEARDOWN_TICKS),
                self.generator == new_generator,
                self.now == old(self).now_spec(),
            decreases self.chunks@.len(),
        {
            proof {
                assert(k < n);
            }
            let slot = self.chunks.remove(0);
            self.tearing_down.push(TearingDown { chunk: slot.chunk, destroy_at });
            proof {
                assert(self.chunks@ =~= old(self).slots().subrange(k + 1, n as int));
                assert(self.tearing_down@.subrange(0, t0 as int) =~= old(self).teardown());
                k = k + 1;
            }
        }
        g
    }

    /// Advances the manager's clock by one tick and destroys the chunks
    /// whose teardown has run its course. Returns how many were destroyed.
    pub fn advance_teardown(&mut self) -> (r: usize)
        requires
            old(self).wf(),
        ensures
            final(self).wf(),
            final(self).now_spec() == old(self).now_spec().saturating_add(1),
            final(self).teardown() == alive(old(self).teardown(), final(self).now_spec()),
            final(self).slots() == old(self).slots(),
            final(self).generator_spec() == old(self).generator_spec(),
            r == old(self).teardown().len() - final(self).teardown().len(),
    {
        self.now = self.now.saturating_add(1);
        let now = self.now;
        let ghost s = old(self).teardown();
        let ghost n = s.len();
        let ghost j: int = 0;
        let before = self.tearing_down.len();
        let mut i: usize = 0;
        while i < self.tearing_down.len()
            invariant
                0 <= j <= n,
                n == s.len(),
                s == old(self).teardown(),
                self.tearing_down@ == alive(s.subrange(0, j), now) + s.subrange(j, n as int),
                i == alive(s.subrange(0, j), now).len(),
                i + (n - j) == self.tearing_down@.len(),
                before == n,
                self.now == now,
                self.chunks == old(self).chunks,
                self.generator == old(self).generator,
            decreases n - j,
        {
            proof {
                assert(s.subrange(0, j + 1).drop_last() =~= s.subrange(0, j));
                assert(s.subrange(0, j + 1).last() == s[j]);
                assert(self.tearing_down@[i as int] == s[j]);
            }
            if self.tearing_down[i].destroy_at <= now {
                let _gone = self.tearing_down.remove(i);
                proof {
                    assert(self.tearing_down@ =~= alive(s.subrange(0, j + 1), now) + s.subrange(
                        j + 1,
                        n as int,
                    ));
                }
            } else {
                i = i + 1;
                proof {
                    assert(self.tearing_down@ =~= alive(s.subrange(0, j + 1), now) + s.subrange(
                        j + 1,
                        n as int,
                    ));
                }
            }
            proof {
                j = j + 1;
            }
        }
        proof {
            assert(s.subrange(0, n as int) =~= s);
            assert(self.tearing_down@ =~= alive(s, now));
            lemma_alive_len(s, now);
            Self::lemma_wf_frame(old(self), self);
        }
        before - self.tearing_down.len()
    }


    /// Managers with the same slots hold the same coordinates.
    pub proof fn lemma_has_frame(a: &Self, b: &Self)
        requires
            a.slots() == b.slots(),
        ensures
            forall|x: ChunkCoord| #[trigger] b.has(x) == a.has(x),
    {
        assert forall|x: ChunkCoord| #[trigger] b.has(x) == a.has(x) by {
            if a.has(x) {
                let i = choose|i: int| 0 <= i < a.slots().len() && #[trigger] a.slot_coord(i) == x;
                assert(b.slot_coord(i) == x);
            }
            if b.has(x) {
                let i = choose|i: int| 0 <= i < b.slots().len() && #[trigger] b.slot_coord(i) == x;
                assert(a.slot_coord(i) == x);
            }
        }
    }

    /// Managers whose slots hold the same chunks, index by index, hold the
    /// same coordinates.
    pub proof fn lemma_has_same_chunks(a: &Self, b: &Self)
        requires
            a.slots().len() == b.slots().len(),
            forall|i: int| 0 <= i < a.slots().len() ==> #[trigger] a.slots()[i].chunk == b.slots()[i].chunk,
        ensures
            forall|x: ChunkCoord| #[trigger] b.has(x) == a.has(x),
    {
        assert forall|x: ChunkCoord| #[trigger] b.has(x) == a.has(x) by {
            if a.has(x) {
                let i = choose|i: int| 0 <= i < a.slots().len() && #[trigger] a.slot_coord(i) == x;
                assert(a.slots()[i].chunk == b.slots()[i].chunk);
                assert(b.slot_coord(i) == x);
            }
            if b.has(x) {
                let i = choose|i: int| 0 <= i < b.slots().len() && #[trigger] b.slot_coord(i) == x;
                assert(a.slots()[i].chunk == b.slots()[i].chunk);
                assert(a.slot_coord(i) == x);
            }
        }
    }

    pub(crate) proof fn lemma_wf_frame(a: &Self, b: &Self)
        requires
            a.wf(),
            a.slots().len() == b.slots().len(),
            forall|i: int| 0 <= i < a.slots().len() ==> #[trigger] a.slots()[i].chunk == b.slots()[i].chunk,
            a.generator_spec() == b.generator_spec(),
        ensures
            b.wf(),
    {
        assert forall|i: int, j: int|
            0 <= i < b.slots().len() && 0 <= j < b.slots().len() && i != j implies #[trigger] b.slot_coord(i)
                != #[trigger] b.slot_coord(j) by {
            assert(a.slots()[i].chunk == b.slots()[i].chunk);
            assert(a.slots()[j].chunk == b.slots()[j].chunk);
            assert(a.slot_coord(i) == b.slot_coord(i));
            assert(a.slot_coord(j) == b.slot_coord(j));
        }
        assert forall|i: int| 0 <= i < b.slots().len() implies #[trigger] b.slots()[i].chunk.built_by(
            &b.generator_spec(),
        ) by {
            assert(a.slots()[i].chunk == b.slots()[i].chunk);
        }
    }
}

/// Builds the meshes of up to `cap` present chunks that have none yet,
/// closest to a loader first, and returns their coordinates in the
/// order chosen. Chunks left over keep waiting, unmeshed, for a later
/// tick.
pub fn insert_chunk_mesh<G: TerrainGenerator>(manager: &mut ChunkManager<G>, cap: usize) -> (r: Vec<
    ChunkCoord,
>)
    requires
        old(manager).wf(),
    ensures
        final(manager).wf(),
        final(manager).generator_spec() == old(manager).generator_spec(),
        final(manager).teardown() == old(manager).teardown(),
        final(manager).now_spec() == old(manager).now_spec(),
        final(manager).slots().len() == old(manager).slots().len(),
        forall|i: int|
            0 <= i < old(manager).slots().len() ==> {
                &&& (#[trigger] final(manager).slots()[i]).chunk == old(manager).slots()[i].chunk
                &&& final(manager).slots()[i].priority == old(manager).slots()[i].priority
                &&& old(manager).slots()[i].meshed ==> final(manager).slots()[i].meshed
            },
        r@.len() <= cap,
        r@.len() < cap ==> forall|i: int|
            0 <= i < final(manager).slots().len() ==> (#[trigger] final(manager).slots()[i]).meshed,
        r@.len() == if cap <= unmeshed_count(old(manager).slots()) {
            cap as nat
        } else {
            unmeshed_count(old(manager).slots())
        },
        unmeshed_count(final(manager).slots()) == unmeshed_count(old(manager).slots()) - r@.len(),
        unmeshed_count(old(manager).slots()) <= cap ==> forall|i: int|
            0 <= i < final(manager).slots().len() ==> (#[trigger] final(manager).slots()[i]).meshed,
        r@.no_duplicates(),
        forall|k: int|
            0 <= k < r@.len() ==> newly_meshed(old(manager).slots(), final(manager).slots(), #[trigger] r@[k]),
        forall|i: int|
            0 <= i < old(manager).slots().len() && !old(manager).slots()[i].meshed && (#[trigger] final(manager).slots()[i]).meshed ==> r@.contains(old(manager).slot_coord(i)),
        forall|i: int, j: int|
            0 <= i < old(manager).slots().len() && 0 <= j < old(manager).slots().len() && !old(manager).slots()[j].meshed && #[trigger] final(manager).slots()[j].meshed && !(#[trigger] final(manager).slots()[i]).meshed ==> old(manager).slots()[j].priority <= old(manager).slots()[i].priority,
{
    let ghost o = old(manager).slots();
    let mut r: Vec<ChunkCoord> = Vec::new();
    while r.len() < cap
        invariant
            manager.wf(),
            old(manager).wf(),
            o == old(manager).slots(),
            manager.generator == old(manager).generator,
            manager.tearing_down == old(manager).tearing_down,
            manager.now == old(manager).now,
            manager.chunks@.len() == o.len(),
            r@.len() <= cap,
            unmeshed_count(manager.chunks@) + r@.len() == unmeshed_count(o),
            forall|i: int|
                0 <= i < o.len() ==> {
                    &&& (#[trigger] manager.chunks@[i]).chunk == o[i].chunk
                    &&& manager.chunks@[i].priority == o[i].priority
                    &&& o[i].meshed ==> manager.chunks@[i].meshed
                },
            r@.no_duplicates(),
            forall|k: int|
                0 <= k < r@.len() ==> newly_meshed(o, manager.chunks@, #[trigger] r@[k]),
            forall|i: int|
                0 <= i < o.len() && !o[i].meshed && (#[trigger] manager.chunks@[i]).meshed
                    ==> r@.contains(old(manager).slot_coord(i)),
            forall|i: int, j: int|
                0 <= i < o.len() && 0 <= j < o.len() && !o[j].meshed
                    && #[trigger] manager.chunks@[j].meshed && !(#[trigger] manager.chunks@[i]).meshed
                    ==> o[j].priority <= o[i].priority,
        decreases cap - r@.len(),
    {
        let mut best: Option<usize> = None;
        let mut j: usize = 0;
        while j < manager.chunks.len()
            invariant
                0 <= j <= manager.chunks@.len(),
                best.is_some() ==> best.unwrap() < j && !manager.chunks@[best.unwrap() as int].meshed
                    && forall|t: int|
                    0 <= t < j && !(#[trigger] manager.chunks@[t]).meshed ==> manager.chunks@[best.unwrap() as int].priority
                        <= manager.chunks@[t].priority,
                best.is_none() ==> forall|t: int|
                    0 <= t < j ==> (#[trigger] manager.chunks@[t]).meshed,
            decreases manager.chunks@.len() - j,
        {
            if !manager.chunks[j].meshed {
                match best {
                    None => {
                        best = Some(j);
                    },
                    Some(b) => {
                        if manager.chunks[j].priority < manager.chunks[b].priority {
                            best = Some(j);
                        }
                    },
                }
            }
            j = j + 1;
        }
        match best {
            None => {
                proof {
                    lemma_unmeshed_count_zero(manager.chunks@);
                }
                return r;
            },
            Some(b) => {
                let c = manager.chunks[b].chunk.coord();
                let ghost before = manager.chunks@;
                let ghost rb = r@;
                manager.chunks[b].meshed = true;
                r.push(c);
                proof {
                    lemma_unmeshed_count_step(before, manager.chunks@, b as int);
                    assert(!rb.contains(c)) by {
                        if rb.contains(c) {
                            let k = choose|k: int| 0 <= k < rb.len() && rb[k] == c;
                            assert(newly_meshed(o, before, rb[k]));
                            let i = choose|i: int|
                                0 <= i < o.len() && #[trigger] o[i].chunk.coord_view() == rb[k]
                                    && !o[i].meshed && before[i].meshed;
                            assert(old(manager).slot_coord(b as int) == c);
                            assert(i != b);
                            assert(old(manager).slot_coord(i) != old(manager).slot_coord(b as int));
                        }
                    }
                    assert forall|k: int| 0 <= k < r@.len() implies newly_meshed(
                        o,
                        manager.chunks@,
                        #[trigger] r@[k],
                    ) by {
                        if k < rb.len() {
                            assert(newly_meshed(o, before, rb[k]));
                            let i = choose|i: int|
                                0 <= i < o.len() && #[trigger] o[i].chunk.coord_view() == rb[k]
                                    && !o[i].meshed && before[i].meshed;
                            assert(manager.chunks@[i].meshed);
                        } else {
                            assert(o[b as int].chunk.coord_view() == r@[k]);
                            assert(manager.chunks@[b as int].meshed);
                        }
                    }
                    assert forall|i: int|
                        0 <= i < o.len() && !o[i].meshed && (#[trigger] manager.chunks@[i]).meshed
                            implies r@.contains(old(manager).slot_coord(i)) by {
                        if i == b {
                            assert(r@[rb.len() as int] == c);
                        } else {
                            assert(before[i].meshed);
                            let k = choose|k: int| 0 <= k < rb.len() && rb[k] == old(manager).slot_coord(i);
                            assert(r@[k] == rb[k]);
                        }
                    }
                    assert forall|i: int, jj: int|
                        0 <= i < o.len() && 0 <= jj < o.len() && !o[jj].meshed
                            && #[trigger] manager.chunks@[jj].meshed && !(#[trigger] manager.chunks@[i]).meshed
                            implies o[jj].priority <= o[i].priority by {
                        assert(!before[i].meshed);
                        if jj != b {
                            assert(before[jj].meshed);
                        }
                    }
                    ChunkManager::<G>::lemma_wf_frame(old(manager), manager);
                }
            },
        }
    }
    proof {
        if unmeshed_count(o) <= cap {
            lemma_unmeshed_count_zero_all(manager.chunks@);
        }
    }
    r
}

/// Teardown never adds records.
pub proof fn lemma_alive_len(s: Seq<TearingDown>, now: u64)
    ensures
        alive(s, now).len() <= s.len(),
    decreases s.len(),
{
    if s.len() > 0 {
        lemma_alive_len(s.drop_last(), now);
    }
}

/// Every present chunk carries the active generator's layout and the
/// bunker it gives the chunk's column; so after the generator is replaced,
/// no present chunk keeps what an earlier generator gave it.
pub proof fn lemma_chunks_match_generator<G: TerrainGenerator>(m: &ChunkManager<G>)
    requires
        m.wf(),
    ensures
        forall|i: int|
            0 <= i < m.slots().len() ==> {
                let ch = #[trigger] m.slots()[i].chunk;
                &&& ch.course_view() == m.generator_spec().layout_spec()
                &&& ch.hazard_view() == m.generator_spec().bunker_spec(
                    column_of(ch.coord_view().offset_spec().0),
                )
            },
{
    assert forall|i: int| 0 <= i < m.slots().len() implies {
        let ch = #[trigger] m.slots()[i].chunk;
        &&& ch.course_view() == m.generator_spec().layout_spec()
        &&& ch.hazard_view() == m.generator_spec().bunker_spec(
            column_of(ch.coord_view().offset_spec().0),
        )
    } by {
        assert(m.slots()[i].chunk.built_by(&m.generator_spec()));
    }
}

/// Heights read from a present chunk agree with the active generator at
/// every whole-metre point of the chunk's footprint, and are defined
/// everywhere in it.
pub proof fn lemma_manager_height_agreement<G: TerrainGenerator>(
    m: &ChunkManager<G>,
    i: int,
    x: int,
    z: int,
)
    requires
        m.wf(),
        0 <= i < m.slots().len(),
        m.slot_coord(i).offset_spec().0 <= x < m.slot_coord(i).offset_spec().0 + CHUNK_SIZE_MM,
        m.slot_coord(i).offset_spec().1 <= z < m.slot_coord(i).offset_spec().1 + CHUNK_SIZE_MM,
    ensures
        ({
            let o = m.slot_coord(i).offset_spec();
            let v = m.slots()[i].chunk.interpolate_spec(x - o.0, z - o.1);
            &&& v.is_some()
            &&& (x - o.0) % 1000 == 0 && (z - o.1) % 1000 == 0 ==> v.unwrap()
                == m.generator_spec().height_spec(x, z)
        }),
{
    let o = m.slot_coord(i).offset_spec();
    assert(m.slots()[i].chunk.built_by(&m.generator_spec()));
    lemma_chunk_height_agreement(&m.slots()[i].chunk, &m.generator_spec(), x - o.0, z - o.1);
}

} // verus!
