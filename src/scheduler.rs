//! The streaming scheduler: which chunks the loaders want, which they have
//! let go of, and one tick of loading, meshing, unloading and teardown.

use vstd::prelude::*;
use crate::coord::{ChunkCoord, CHUNK_SIZE_MM, COORD_LIMIT, WORLD_LIMIT};
use crate::generator::TerrainGenerator;
use crate::loader::{ChunkLoader, MAX_RADIUS};
use crate::manager::{insert_chunk_mesh, ChunkManager, ChunkSlot, TearingDown, TEARDOWN_TICKS};

verus! {

/// Squared distance from a loader's position to the centre of chunk `c`.
pub open spec fn center_dist_sq(l: ChunkLoader, c: ChunkCoord) -> int {
    let cx = c.x * CHUNK_SIZE_MM + CHUNK_SIZE_MM / 2;
    let cz = c.z * CHUNK_SIZE_MM + CHUNK_SIZE_MM / 2;
    (cx - l.position.0) * (cx - l.position.0) + (cz - l.position.1) * (cz - l.position.1)
}

/// Loader `l` wants chunk `c` loaded: the chunk lies in the world and its
/// centre within the load radius.
pub open spec fn wants(l: ChunkLoader, c: ChunkCoord) -> bool {
    c.valid() && center_dist_sq(l, c) <= l.loading_threshold * l.loading_threshold
}

/// Loader `l` keeps chunk `c`: its centre lies within the unload radius.
pub open spec fn keeps(l: ChunkLoader, c: ChunkCoord) -> bool {
    center_dist_sq(l, c) <= l.unloading_threshold * l.unloading_threshold
}

/// Some loader wants `c` loaded.
pub open spec fn desired(ls: Seq<ChunkLoader>, c: ChunkCoord) -> bool {
    exists|i: int| 0 <= i < ls.len() && wants(#[trigger] ls[i], c)
}

/// Some loader keeps `c`.
pub open spec fn retained(ls: Seq<ChunkLoader>, c: ChunkCoord) -> bool {
    exists|i: int| 0 <= i < ls.len() && keeps(#[trigger] ls[i], c)
}

/// Every loader is well formed.
pub open spec fn all_wf(ls: Seq<ChunkLoader>) -> bool {
    forall|i: int| 0 <= i < ls.len() ==> (#[trigger] ls[i]).wf()
}

/// `prev` updated with loader `l`'s distance to `c`, if `l` wants `c`.
pub open spec fn merged(prev: Option<int>, l: ChunkLoader, c: ChunkCoord) -> Option<int> {
    if wants(l, c) {
        let d = center_dist_sq(l, c);
        match prev {
            None => Some(d),
            Some(p) => Some(
                if p <= d {
                    p
                } else {
                    d
                },
            ),
        }
    } else {
        prev
    }
}

/// The load priority of `c`: the least squared distance from a loader that
/// wants it; `None` if none does.
pub open spec fn priority_spec(ls: Seq<ChunkLoader>, c: ChunkCoord) -> Option<int>
    decreases ls.len(),
{
    if ls.len() == 0 {
        None
    } else {
        merged(priority_spec(ls.drop_last(), c), ls.last(), c)
    }
}

/// A chunk has a priority exactly when some loader wants it, and the
/// priority is the distance from one of the loaders that want it, no larger
/// than the distance from any of them.
pub proof fn lemma_priority(ls: Seq<ChunkLoader>, c: ChunkCoord)
    ensures
        priority_spec(ls, c).is_some() == desired(ls, c),
        forall|i: int|
            0 <= i < ls.len() && wants(#[trigger] ls[i], c) ==> priority_spec(ls, c).unwrap()
                <= center_dist_sq(ls[i], c),
        priority_spec(ls, c).is_some() ==> exists|i: int|
            0 <= i < ls.len() && wants(#[trigger] ls[i], c) && priority_spec(ls, c).unwrap()
                == center_dist_sq(ls[i], c),
    decreases ls.len(),
{
    if ls.len() > 0 {
        let rest = ls.drop_last();
        lemma_priority(rest, c);
        assert forall|i: int| 0 <= i < rest.len() implies #[trigger] rest[i] == ls[i] by {}
        if desired(ls, c) {
            let i = choose|i: int| 0 <= i < ls.len() && wants(#[trigger] ls[i], c);
            if i < rest.len() {
                assert(wants(rest[i], c));
            }
        }
        if desired(rest, c) {
            let i = choose|i: int| 0 <= i < rest.len() && wants(#[trigger] rest[i], c);
            assert(wants(ls[i], c));
        }
        if priority_spec(rest, c).is_some() {
            let i = choose|i: int|
                0 <= i < rest.len() && wants(#[trigger] rest[i], c) && priority_spec(rest, c).unwrap()
                    == center_dist_sq(rest[i], c);
            assert(ls[i] == rest[i]);
        }
        assert(ls.last() == ls[ls.len() - 1]);
        assert forall|i: int|
            0 <= i < ls.len() && wants(#[trigger] ls[i], c) implies priority_spec(ls, c).unwrap()
                <= center_dist_sq(ls[i], c) by {
            if i < rest.len() {
                assert(wants(rest[i], c));
                assert(priority_spec(rest, c).is_some());
            }
        }
    }
}

/// Half the side of the square of chunks searched around a loader:
/// the load radius in chunk widths, rounded up, plus one.
pub open spec fn half_width(l: ChunkLoader) -> int {
    (l.loading_threshold + CHUNK_SIZE_MM - 1) / CHUNK_SIZE_MM as int + 1
}

proof fn lemma_sq_bound(a: int, b: int, r: int)
    requires
        0 <= r,
        a * a + b * b <= r * r,
    ensures
        -r <= a <= r,
{
    assert(0 <= b * b) by (nonlinear_arith);
    assert(-r <= a <= r) by (nonlinear_arith)
        requires
            0 <= r,
            a * a <= r * r,
    ;
}

/// Every chunk that a loader wants lies in the square of half-width
/// `half_width(l)` around the loader's chunk.
pub proof fn lemma_footprint_complete(l: ChunkLoader, c: ChunkCoord)
    requires
        l.wf(),
        wants(l, c),
    ensures
        -half_width(l) <= c.x - l.chunk_position.x <= half_width(l),
        -half_width(l) <= c.z - l.chunk_position.z <= half_width(l),
{
    let s = CHUNK_SIZE_MM as int;
    let r = l.loading_threshold as int;
    let px = l.position.0 as int;
    let pz = l.position.1 as int;
    let cx = c.x * s + s / 2;
    let cz = c.z * s + s / 2;
    lemma_sq_bound(cx - px, cz - pz, r);
    lemma_sq_bound(cz - pz, cx - px, r);
    vstd::arithmetic::div_mod::lemma_fundamental_div_mod(px, s);
    vstd::arithmetic::div_mod::lemma_fundamental_div_mod(pz, s);
    vstd::arithmetic::div_mod::lemma_fundamental_div_mod(r + s - 1, s);
    let q = (r + s - 1) / s;
    assert(r <= q * s);
}

/// Each coordinate occurs at most once.
pub open spec fn unique_keys(s: Seq<(ChunkCoord, u128)>) -> bool {
    forall|i: int, j: int|
        0 <= i < s.len() && 0 <= j < s.len() && i != j ==> (#[trigger] s[i]).0 != (#[trigger] s[j]).0
}

/// Some entry is for `c`.
pub open spec fn has_key(s: Seq<(ChunkCoord, u128)>, c: ChunkCoord) -> bool {
    exists|i: int| 0 <= i < s.len() && (#[trigger] s[i]).0 == c
}

/// The value held for `c`, if any.
pub open spec fn entry_of(s: Seq<(ChunkCoord, u128)>, c: ChunkCoord) -> Option<int> {
    if has_key(s, c) {
        Some(s[choose|i: int| 0 <= i < s.len() && (#[trigger] s[i]).0 == c].1 as int)
    } else {
        None
    }
}

proof fn lemma_entry_at(s: Seq<(ChunkCoord, u128)>, i: int)
    requires
        unique_keys(s),
        0 <= i < s.len(),
    ensures
        entry_of(s, s[i].0) == Some(s[i].1 as int),
{
    let c = s[i].0;
    assert(has_key(s, c));
    let j = choose|j: int| 0 <= j < s.len() && (#[trigger] s[j]).0 == c;
    if j != i {
        assert(s[j].0 != s[i].0);
    }
}

proof fn lemma_entry_none(s: Seq<(ChunkCoord, u128)>, c: ChunkCoord)
    requires
        forall|i: int| 0 <= i < s.len() ==> (#[trigger] s[i]).0 != c,
    ensures
        entry_of(s, c).is_none(),
{
}

/// Lowers the value held for `c` to `d`, or adds `c` with `d`.
fn upsert(s: &mut Vec<(ChunkCoord, u128)>, c: ChunkCoord, d: u128)
    requires
        unique_keys(old(s)@),
    ensures
        unique_keys(final(s)@),
        entry_of(final(s)@, c) == Some(
            match entry_of(old(s)@, c) {
                None => d as int,
                Some(p) => if p <= d {
                    p
                } else {
                    d as int
                },
            },
        ),
        forall|x: ChunkCoord| x != c ==> #[trigger] entry_of(final(s)@, x) == entry_of(old(s)@, x),
{
    let mut i: usize = 0;
    while i < s.len()
        invariant
            0 <= i <= s@.len(),
            s@ == old(s)@,
            unique_keys(old(s)@),
            forall|k: int| 0 <= k < i ==> (#[trigger] s@[k]).0 != c,
        decreases s@.len() - i,
    {
        if s[i].0 == c {
            let p = s[i].1;
            proof {
                lemma_entry_at(old(s)@, i as int);
            }
            if d < p {
                s[i] = (c, d);
            }
            proof {
                let o = old(s)@;
                let n = s@;
                assert forall|a: int, b: int|
                    0 <= a < n.len() && 0 <= b < n.len() && a != b implies (#[trigger] n[a]).0 != (#[trigger] n[b]).0 by {
                    assert(n[a].0 == o[a].0);
                    assert(n[b].0 == o[b].0);
                }
                lemma_entry_at(n, i as int);
                assert forall|x: ChunkCoord| x != c implies #[trigger] entry_of(n, x) == entry_of(o, x) by {
                    if has_key(n, x) {
                        let j = choose|j: int| 0 <= j < n.len() && (#[trigger] n[j]).0 == x;
                        assert(n[j] == o[j]);
                        lemma_entry_at(n, j);
                        lemma_entry_at(o, j);
                    } else {
                        assert forall|j: int| 0 <= j < o.len() implies (#[trigger] o[j]).0 != x by {
                            assert(n[j].0 == o[j].0);
                        }
                        lemma_entry_none(o, x);
                    }
                }
            }
            return;
        }
        i = i + 1;
    }
    proof {
        lemma_entry_none(old(s)@, c);
    }
    s.push((c, d));
    proof {
        let o = old(s)@;
        let n = s@;
        assert forall|a: int, b: int|
            0 <= a < n.len() && 0 <= b < n.len() && a != b implies (#[trigger] n[a]).0 != (#[trigger] n[b]).0 by {
            if a < o.len() && b < o.len() {
                assert(n[a] == o[a]);
                assert(n[b] == o[b]);
            } else if a < o.len() {
                assert(n[a] == o[a]);
            } else {
                assert(n[b] == o[b]);
            }
        }
        lemma_entry_at(n, o.len() as int);
        assert forall|x: ChunkCoord| x != c implies #[trigger] entry_of(n, x) == entry_of(o, x) by {
            if has_key(n, x) {
                let j = choose|j: int| 0 <= j < n.len() && (#[trigger] n[j]).0 == x;
                assert(j < o.len());
                assert(n[j] == o[j]);
                lemma_entry_at(n, j);
                lemma_entry_at(o, j);
            } else {
                assert forall|j: int| 0 <= j < o.len() implies (#[trigger] o[j]).0 != x by {
                    assert(n[j] == o[j]);
                }
                lemma_entry_none(o, x);
            }
        }
    }
}

/// Squared distance from the loader's position to the centre of chunk `c`.
pub fn distance(l: &ChunkLoader, c: ChunkCoord) -> (r: u128)
    requires
        l.wf(),
        -2 * COORD_LIMIT <= c.x <= 2 * COORD_LIMIT,
        -2 * COORD_LIMIT <= c.z <= 2 * COORD_LIMIT,
    ensures
        r == center_dist_sq(*l, c),
{
    proof {
        crate::arith::lemma_mul_abs_bound(c.x as int, CHUNK_SIZE_MM as int, 2 * COORD_LIMIT, CHUNK_SIZE_MM as int);
        crate::arith::lemma_mul_abs_bound(c.z as int, CHUNK_SIZE_MM as int, 2 * COORD_LIMIT, CHUNK_SIZE_MM as int);
    }
    let cx = c.x as i128 * CHUNK_SIZE_MM as i128 + (CHUNK_SIZE_MM / 2) as i128;
    let cz = c.z as i128 * CHUNK_SIZE_MM as i128 + (CHUNK_SIZE_MM / 2) as i128;
    let dx = cx - l.position.0 as i128;
    let dz = cz - l.position.1 as i128;
    proof {
        let b = 524_288_000int;
        crate::arith::lemma_mul_abs_bound(dx as int, dx as int, b, b);
        crate::arith::lemma_mul_abs_bound(dz as int, dz as int, b, b);
        assert(0 <= dx * dx) by (nonlinear_arith);
        assert(0 <= dz * dz) by (nonlinear_arith);
    }
    (dx * dx + dz * dz) as u128
}

/// Part of the square around `l`'s chunk already visited: rows before
/// `dx`, and row `dx` up to `dz`.
pub open spec fn in_done(l: ChunkLoader, hw: int, dx: int, dz: int, c: ChunkCoord) -> bool {
    let ox = c.x - l.chunk_position.x;
    let oz = c.z - l.chunk_position.z;
    -hw <= oz <= hw && ((-hw <= ox < dx) || (ox == dx && oz < dz))
}

/// The priorities after the loaders of `prefix` and the visited part of
/// `l`'s square.
pub open spec fn partial_priority(
    prefix: Seq<ChunkLoader>,
    l: ChunkLoader,
    hw: int,
    dx: int,
    dz: int,
    c: ChunkCoord,
) -> Option<int> {
    if in_done(l, hw, dx, dz, c) {
        merged(priority_spec(prefix, c), l, c)
    } else {
        priority_spec(prefix, c)
    }
}

/// The chunks that some loader wants loaded, each with its load priority:
/// the least squared distance from a loader that wants it.
pub fn desired_chunks(loaders: &Vec<ChunkLoader>) -> (r: Vec<(ChunkCoord, u128)>)
    requires
        all_wf(loaders@),
    ensures
        unique_keys(r@),
        forall|c: ChunkCoord| #[trigger] entry_of(r@, c) == priority_spec(loaders@, c),
{
    let ghost ls = loaders@;
    let mut r: Vec<(ChunkCoord, u128)> = Vec::new();
    let mut li: usize = 0;
    while li < loaders.len()
        invariant
            ls == loaders@,
            all_wf(ls),
            0 <= li <= ls.len(),
            unique_keys(r@),
            forall|c: ChunkCoord| #[trigger] entry_of(r@, c) == priority_spec(ls.subrange(0, li as int), c),
        decreases ls.len() - li,
    {
        let l = &loaders[li];
        let ghost prefix = ls.subrange(0, li as int);
        let hw = (l.loading_threshold + CHUNK_SIZE_MM - 1) / CHUNK_SIZE_MM + 1;
        proof {
            assert(l.wf());
            vstd::arithmetic::div_mod::lemma_div_is_ordered(
                l.loading_threshold + CHUNK_SIZE_MM - 1,
                MAX_RADIUS + CHUNK_SIZE_MM,
                CHUNK_SIZE_MM as int,
            );
            vstd::arithmetic::div_mod::lemma_div_pos_is_pos(
                l.loading_threshold + CHUNK_SIZE_MM - 1,
                CHUNK_SIZE_MM as int,
            );
            assert(hw == half_width(*l));
            assert forall|c: ChunkCoord| #[trigger] entry_of(r@, c) == partial_priority(prefix, *l, hw as int, -hw, -hw, c) by {}
        }
        let mut dx: i64 = -hw;
        while dx <= hw
            invariant
                ls == loaders@,
                all_wf(ls),
                0 <= li < ls.len(),
                *l == ls[li as int],
                prefix == ls.subrange(0, li as int),
                1 <= hw <= 400,
                hw == half_width(*l),
                -hw <= dx <= hw + 1,
                unique_keys(r@),
                forall|c: ChunkCoord| #[trigger] entry_of(r@, c) == partial_priority(prefix, *l, hw as int, dx as int, -hw, c),
            decreases hw + 1 - dx,
        {
            let mut dz: i64 = -hw;
            while dz <= hw
                invariant
                    ls == loaders@,
                    all_wf(ls),
                    0 <= li < ls.len(),
                    *l == ls[li as int],
                    prefix == ls.subrange(0, li as int),
                    1 <= hw <= 400,
                    -hw <= dx <= hw,
                    -hw <= dz <= hw + 1,
                    unique_keys(r@),
                    forall|c: ChunkCoord| #[trigger] entry_of(r@, c) == partial_priority(prefix, *l, hw as int, dx as int, dz as int, c),
                decreases hw + 1 - dz,
            {
                proof {
                    assert(l.wf());
                }
                let c0 = ChunkCoord {
                    x: (l.chunk_position.x as i64 + dx) as i32,
                    z: (l.chunk_position.z as i64 + dz) as i32,
                };
                let ghost before = r@;
                if -COORD_LIMIT <= c0.x && c0.x < COORD_LIMIT && -COORD_LIMIT <= c0.z && c0.z < COORD_LIMIT {
                    let d = distance(l, c0);
                    let lt = l.loading_threshold as u128;
                    proof {
                        crate::arith::lemma_mul_abs_bound(lt as int, lt as int, MAX_RADIUS as int, MAX_RADIUS as int);
                    }
                    if d <= lt * lt {
                        upsert(&mut r, c0, d);
                    }
                }
                proof {
                    assert forall|c: ChunkCoord| #[trigger] entry_of(r@, c) == partial_priority(prefix, *l, hw as int, dx as int, dz + 1, c) by {
                        if c != c0 {
                            assert(in_done(*l, hw as int, dx as int, dz + 1, c) == in_done(*l, hw as int, dx as int, dz as int, c));
                        } else {
                            assert(!in_done(*l, hw as int, dx as int, dz as int, c));
                            assert(in_done(*l, hw as int, dx as int, dz + 1, c));
                        }
                    }
                }
                dz = dz + 1;
            }
            proof {
                assert forall|c: ChunkCoord| #[trigger] entry_of(r@, c) == partial_priority(prefix, *l, hw as int, dx + 1, -hw, c) by {
                    assert(in_done(*l, hw as int, dx as int, hw + 1, c) == in_done(*l, hw as int, dx + 1, -hw, c));
                }
            }
            dx = dx + 1;
        }
        proof {
            assert(ls.subrange(0, li + 1).drop_last() =~= prefix);
            assert(ls.subrange(0, li + 1).last() == *l);
            assert forall|c: ChunkCoord| #[trigger] entry_of(r@, c) == priority_spec(ls.subrange(0, li + 1), c) by {
                if !in_done(*l, hw as int, hw + 1, -hw, c) && wants(*l, c) {
                    lemma_footprint_complete(*l, c);
                }
            }
        }
        li = li + 1;
    }
    proof {
        assert(ls.subrange(0, ls.len() as int) =~= ls);
    }
    r
}

/// Whether some loader keeps chunk `c`.
pub fn is_retained(loaders: &Vec<ChunkLoader>, c: ChunkCoord) -> (r: bool)
    requires
        all_wf(loaders@),
        c.valid(),
    ensures
        r == retained(loaders@, c),
{
    let mut i: usize = 0;
    while i < loaders.len()
        invariant
            all_wf(loaders@),
            c.valid(),
            0 <= i <= loaders@.len(),
            forall|k: int| 0 <= k < i ==> !keeps(#[trigger] loaders@[k], c),
        decreases loaders@.len() - i,
    {
        let l = &loaders[i];
        proof {
            assert(l.wf());
        }
        let d = distance(l, c);
        let ut = l.unloading_threshold as u128;
        proof {
            crate::arith::lemma_mul_abs_bound(ut as int, ut as int, MAX_RADIUS as int, MAX_RADIUS as int);
        }
        if d <= ut * ut {
            return true;
        }
        i = i + 1;
    }
    false
}

/// Whether a chunk is present after a tick, given whether it was present
/// before: it is if it was or some loader wants it, and some loader keeps
/// it.
pub open spec fn after_tick(was: bool, ls: Seq<ChunkLoader>, c: ChunkCoord) -> bool {
    (was || desired(ls, c)) && retained(ls, c)
}

/// A chunk that some loader wants is one that it keeps: the unload radius
/// is the larger.
pub proof fn lemma_desired_retained(ls: Seq<ChunkLoader>, c: ChunkCoord)
    requires
        all_wf(ls),
        desired(ls, c),
    ensures
        retained(ls, c),
{
    let i = choose|i: int| 0 <= i < ls.len() && wants(#[trigger] ls[i], c);
    let l = ls[i];
    assert(l.wf());
    assert(l.loading_threshold * l.loading_threshold <= l.unloading_threshold * l.unloading_threshold)
        by (nonlinear_arith)
        requires
            0 <= l.loading_threshold <= l.unloading_threshold,
    ;
    assert(keeps(ls[i], c));
}

/// Hands every chunk that some loader wants and that is not yet present to
/// the manager, with its load priority.
pub fn load_chunks<G: TerrainGenerator>(manager: &mut ChunkManager<G>, loaders: &Vec<ChunkLoader>)
    requires
        old(manager).wf(),
        all_wf(loaders@),
    ensures
        final(manager).wf(),
        final(manager).generator_spec() == old(manager).generator_spec(),
        final(manager).teardown() == old(manager).teardown(),
        final(manager).now_spec() == old(manager).now_spec(),
        forall|c: ChunkCoord| #[trigger] final(manager).has(c) == (old(manager).has(c) || desired(loaders@, c)),
        old(manager).slots().len() <= final(manager).slots().len(),
        final(manager).slots().subrange(0, old(manager).slots().len() as int) == old(manager).slots(),
        forall|j: int|
            old(manager).slots().len() <= j < final(manager).slots().len() ==> {
                &&& !(#[trigger] final(manager).slots()[j]).meshed
                &&& !old(manager).has(final(manager).slot_coord(j))
                &&& priority_spec(loaders@, final(manager).slot_coord(j)) == Some(
                    final(manager).slots()[j].priority as int,
                )
            },
{
    let wanted = desired_chunks(loaders);
    let ghost n0 = old(manager).slots().len();
    let mut k: usize = 0;
    while k < wanted.len()
        invariant
            0 <= k <= wanted@.len(),
            unique_keys(wanted@),
            forall|c: ChunkCoord| #[trigger] entry_of(wanted@, c) == priority_spec(loaders@, c),
            manager.wf(),
            manager.generator_spec() == old(manager).generator_spec(),
            manager.teardown() == old(manager).teardown(),
            manager.now_spec() == old(manager).now_spec(),
            n0 == old(manager).slots().len(),
            n0 <= manager.slots().len(),
            manager.slots().subrange(0, n0 as int) == old(manager).slots(),
            forall|c: ChunkCoord| #[trigger] manager.has(c) == (old(manager).has(c) || exists|i: int|
                0 <= i < k && (#[trigger] wanted@[i]).0 == c),
            forall|j: int|
                n0 <= j < manager.slots().len() ==> {
                    &&& !(#[trigger] manager.slots()[j]).meshed
                    &&& !old(manager).has(manager.slot_coord(j))
                    &&& priority_spec(loaders@, manager.slot_coord(j)) == Some(
                        manager.slots()[j].priority as int,
                    )
                },
        decreases wanted@.len() - k,
    {
        let (c, p) = wanted[k];
        proof {
            lemma_entry_at(wanted@, k as int);
            lemma_priority(loaders@, c);
            let i = choose|i: int| 0 <= i < loaders@.len() && wants(#[trigger] loaders@[i], c);
        }
        let ghost before = *manager;
        manager.load_chunk(c, p);
        proof {
            if !before.has(c) {
                assert(manager.slots().subrange(0, n0 as int) =~= before.slots().subrange(0, n0 as int));
                assert forall|j: int| n0 <= j < manager.slots().len() implies {
                    &&& !(#[trigger] manager.slots()[j]).meshed
                    &&& !old(manager).has(manager.slot_coord(j))
                    &&& priority_spec(loaders@, manager.slot_coord(j)) == Some(
                        manager.slots()[j].priority as int,
                    )
                } by {
                    if j < before.slots().len() {
                        assert(manager.slots()[j] == before.slots()[j]);
                    }
                }
            }
            assert forall|x: ChunkCoord| #[trigger] manager.has(x) == (old(manager).has(x) || exists|i: int|
                0 <= i < k + 1 && (#[trigger] wanted@[i]).0 == x) by {
                if x == c {
                    assert(wanted@[k as int].0 == x);
                }
                if exists|i: int| 0 <= i < k + 1 && (#[trigger] wanted@[i]).0 == x {
                    let i = choose|i: int| 0 <= i < k + 1 && (#[trigger] wanted@[i]).0 == x;
                    if i < k {
                        assert(exists|i: int| 0 <= i < k && (#[trigger] wanted@[i]).0 == x);
                    }
                }
            }
        }
        k = k + 1;
    }
    proof {
        assert forall|c: ChunkCoord| #[trigger] manager.has(c) == (old(manager).has(c) || desired(loaders@, c)) by {
            lemma_priority(loaders@, c);
            if desired(loaders@, c) {
                assert(entry_of(wanted@, c).is_some());
                assert(has_key(wanted@, c));
                let i = choose|i: int| 0 <= i < wanted@.len() && (#[trigger] wanted@[i]).0 == c;
                assert(manager.has(c));
            }
            if manager.has(c) && !old(manager).has(c) {
                let i = choose|i: int| 0 <= i < k && (#[trigger] wanted@[i]).0 == c;
                lemma_entry_at(wanted@, i);
            }
        }
    }
}

/// `c` occurs among the first `k` entries of `s`.
pub open spec fn among(s: Seq<ChunkCoord>, k: int, c: ChunkCoord) -> bool {
    exists|i: int| 0 <= i < k && #[trigger] s[i] == c
}

/// The slots of `s` that some loader keeps, in order.
pub open spec fn kept_slots(s: Seq<ChunkSlot>, ls: Seq<ChunkLoader>) -> Seq<ChunkSlot>
    decreases s.len(),
{
    if s.len() == 0 {
        s
    } else {
        let rest = kept_slots(s.drop_last(), ls);
        if retained(ls, s.last().chunk.coord_view()) {
            rest.push(s.last())
        } else {
            rest
        }
    }
}

/// The slots of `s` that no loader keeps, in order.
pub open spec fn dropped_slots(s: Seq<ChunkSlot>, ls: Seq<ChunkLoader>) -> Seq<ChunkSlot>
    decreases s.len(),
{
    if s.len() == 0 {
        s
    } else {
        let rest = dropped_slots(s.drop_last(), ls);
        if retained(ls, s.last().chunk.coord_view()) {
            rest
        } else {
            rest.push(s.last())
        }
    }
}

/// Every kept slot is a slot of `s`.
pub proof fn lemma_kept_from(s: Seq<ChunkSlot>, ls: Seq<ChunkLoader>)
    ensures
        forall|i: int|
            0 <= i < kept_slots(s, ls).len() ==> exists|j: int|
                0 <= j < s.len() && #[trigger] kept_slots(s, ls)[i] == s[j],
    decreases s.len(),
{
    if s.len() > 0 {
        let rest = s.drop_last();
        lemma_kept_from(rest, ls);
        let k = kept_slots(s, ls);
        assert forall|i: int| 0 <= i < k.len() implies exists|j: int|
            0 <= j < s.len() && #[trigger] k[i] == s[j] by {
            if i < kept_slots(rest, ls).len() {
                let j = choose|j: int| 0 <= j < rest.len() && #[trigger] kept_slots(rest, ls)[i] == rest[j];
                assert(s[j] == rest[j]);
            } else {
                assert(k[i] == s[s.len() - 1]);
            }
        }
    }
}

/// Unloads every present chunk that no loader keeps and returns their
/// coordinates in slot order. The kept slots stay as they were, in order;
/// each chunk taken out starts its teardown.
pub fn unload_chunks<G: TerrainGenerator>(
    manager: &mut ChunkManager<G>,
    loaders: &Vec<ChunkLoader>,
) -> (r: Vec<ChunkCoord>)
    requires
        old(manager).wf(),
        all_wf(loaders@),
    ensures
        final(manager).wf(),
        final(manager).generator_spec() == old(manager).generator_spec(),
        final(manager).now_spec() == old(manager).now_spec(),
        final(manager).slots() == kept_slots(old(manager).slots(), loaders@),
        forall|c: ChunkCoord| #[trigger] final(manager).has(c) == (old(manager).has(c) && retained(loaders@, c)),
        r@.len() == dropped_slots(old(manager).slots(), loaders@).len(),
        forall|k: int|
            0 <= k < r@.len() ==> #[trigger] r@[k] == dropped_slots(
                old(manager).slots(),
                loaders@,
            )[k].chunk.coord_view(),
        forall|k: int|
            0 <= k < r@.len() ==> old(manager).has(#[trigger] r@[k]) && !retained(loaders@, r@[k]),
        forall|c: ChunkCoord| old(manager).has(c) && !retained(loaders@, c) ==> #[trigger] r@.contains(c),
        r@.no_duplicates(),
        final(manager).teardown().len() == old(manager).teardown().len() + r@.len(),
        final(manager).teardown().subrange(0, old(manager).teardown().len() as int) == old(
            manager,
        ).teardown(),
        forall|k: int|
            0 <= k < r@.len() ==> #[trigger] final(manager).teardown()[old(manager).teardown().len() + k]
                == (TearingDown {
                chunk: dropped_slots(old(manager).slots(), loaders@)[k].chunk,
                destroy_at: old(manager).now_spec().saturating_add(TEARDOWN_TICKS),
            }),
{
    let coords = manager.coords();
    let ghost os = old(manager).slots();
    let ghost n = os.len();
    let ghost ls = loaders@;
    let ghost t0 = old(manager).teardown().len();
    let ghost at = old(manager).now_spec().saturating_add(TEARDOWN_TICKS);
    let mut r: Vec<ChunkCoord> = Vec::new();
    let mut k: usize = 0;
    proof {
        assert(os.subrange(0, 0) =~= Seq::<ChunkSlot>::empty());
        assert(kept_slots(os.subrange(0, 0), ls) + os.subrange(0, n as int) =~= os);
        assert(manager.teardown().subrange(0, t0 as int) =~= old(manager).teardown());
    }
    while k < coords.len()
        invariant
            all_wf(loaders@),
            ls == loaders@,
            old(manager).wf(),
            os == old(manager).slots(),
            n == os.len(),
            0 <= k <= n,
            coords@.len() == n,
            forall|i: int| 0 <= i < n ==> #[trigger] coords@[i] == old(manager).slot_coord(i),
            manager.wf(),
            manager.generator_spec() == old(manager).generator_spec(),
            manager.now_spec() == old(manager).now_spec(),
            at == old(manager).now_spec().saturating_add(TEARDOWN_TICKS),
            manager.slots() == kept_slots(os.subrange(0, k as int), ls) + os.subrange(k as int, n as int),
            forall|c: ChunkCoord| #[trigger] manager.has(c) == (old(manager).has(c) && !(exists|i: int|
                0 <= i < k && #[trigger] coords@[i] == c && !retained(ls, c))),
            r@.len() == dropped_slots(os.subrange(0, k as int), ls).len(),
            forall|q: int|
                0 <= q < r@.len() ==> #[trigger] r@[q] == dropped_slots(
                    os.subrange(0, k as int),
                    ls,
                )[q].chunk.coord_view(),
            forall|q: int|
                0 <= q < r@.len() ==> old(manager).has(#[trigger] r@[q]) && !retained(ls, r@[q]),
            forall|q: int| 0 <= q < r@.len() ==> among(coords@, k as int, #[trigger] r@[q]),
            forall|c: ChunkCoord|
                (exists|i: int| 0 <= i < k && #[trigger] coords@[i] == c && !retained(ls, c))
                    ==> #[trigger] r@.contains(c),
            r@.no_duplicates(),
            t0 == old(manager).teardown().len(),
            manager.teardown().len() == t0 + r@.len(),
            manager.teardown().subrange(0, t0 as int) == old(manager).teardown(),
            forall|q: int|
                0 <= q < r@.len() ==> #[trigger] manager.teardown()[t0 + q] == (TearingDown {
                    chunk: dropped_slots(os.subrange(0, k as int), ls)[q].chunk,
                    destroy_at: at,
                }),
        decreases n - k,
    {
        let c = coords[k];
        let ghost p0 = os.subrange(0, k as int);
        let ghost p1 = os.subrange(0, k + 1);
        let ghost j = kept_slots(p0, ls).len() as int;
        proof {
            assert(p1.drop_last() =~= p0);
            assert(p1.last() == os[k as int]);
            assert(old(manager).slots()[k as int].chunk.built_by(&old(manager).generator_spec()));
            assert(old(manager).has(c));
            assert(manager.slots()[j] == os[k as int]);
            assert(manager.slot_coord(j) == c);
        }
        let ghost before = *manager;
        let ghost rb = r@;
        if !is_retained(loaders, c) {
            let was = manager.unload_chunk(c);
            proof {
                let i = choose|i: int|
                    0 <= i < before.slots().len() && #[trigger] before.slot_coord(i) == c
                        && manager.slots() == before.slots().remove(i) && manager.teardown()
                        == before.teardown().push(
                        TearingDown {
                            chunk: before.slots()[i].chunk,
                            destroy_at: before.now_spec().saturating_add(TEARDOWN_TICKS),
                        },
                    );
                if i != j {
                    assert(before.slot_coord(i) != before.slot_coord(j));
                }
                assert(manager.slots() =~= kept_slots(p1, ls) + os.subrange(k + 1, n as int));
                assert(manager.teardown().subrange(0, t0 as int) =~= before.teardown().subrange(0, t0 as int));
            }
            r.push(c);
            proof {
                assert(!rb.contains(c)) by {
                    if rb.contains(c) {
                        let q = choose|q: int| 0 <= q < rb.len() && rb[q] == c;
                        assert(among(coords@, k as int, rb[q]));
                        let i = choose|i: int| 0 <= i < k && #[trigger] coords@[i] == rb[q];
                        assert(old(manager).slot_coord(i) == old(manager).slot_coord(k as int));
                    }
                }
                assert forall|q: int| 0 <= q < r@.len() implies #[trigger] manager.teardown()[t0 + q] == (TearingDown {
                    chunk: dropped_slots(p1, ls)[q].chunk,
                    destroy_at: at,
                }) by {
                    if q < rb.len() {
                        assert(manager.teardown()[t0 + q] == before.teardown()[t0 + q]);
                    }
                }
                assert forall|q: int| 0 <= q < r@.len() implies among(coords@, k + 1, #[trigger] r@[q]) by {
                    if q < rb.len() {
                        assert(among(coords@, k as int, rb[q]));
                        let i = choose|i: int| 0 <= i < k && #[trigger] coords@[i] == rb[q];
                        assert(coords@[i] == r@[q]);
                    } else {
                        assert(coords@[k as int] == r@[q]);
                    }
                }
            }
        } else {
            proof {
                assert(manager.slots() =~= kept_slots(p1, ls) + os.subrange(k + 1, n as int));
            }
        }
        proof {
            assert forall|x: ChunkCoord| #[trigger] manager.has(x) == (old(manager).has(x) && !(exists|i: int|
                0 <= i < k + 1 && #[trigger] coords@[i] == x && !retained(ls, x))) by {
                if exists|i: int| 0 <= i < k + 1 && #[trigger] coords@[i] == x && !retained(ls, x) {
                    let i = choose|i: int| 0 <= i < k + 1 && #[trigger] coords@[i] == x && !retained(ls, x);
                    if i < k {
                        assert(exists|i: int| 0 <= i < k && #[trigger] coords@[i] == x && !retained(ls, x));
                    }
                }
                if x == c && !retained(ls, x) {
                    assert(coords@[k as int] == x);
                }
            }
            assert forall|x: ChunkCoord|
                (exists|i: int| 0 <= i < k + 1 && #[trigger] coords@[i] == x && !retained(ls, x))
                    implies #[trigger] r@.contains(x) by {
                let i = choose|i: int| 0 <= i < k + 1 && #[trigger] coords@[i] == x && !retained(ls, x);
                if i < k {
                    assert(exists|i: int| 0 <= i < k && #[trigger] coords@[i] == x && !retained(ls, x));
                    assert(rb.contains(x));
                    let q = choose|q: int| 0 <= q < rb.len() && rb[q] == x;
                    assert(r@[q] == x);
                } else {
                    assert(r@[r@.len() - 1] == x);
                }
            }
        }
        k = k + 1;
    }
    proof {
        assert(os.subrange(0, n as int) =~= os);
        assert(manager.slots() =~= kept_slots(os, ls));
        assert forall|c: ChunkCoord| #[trigger] manager.has(c) == (old(manager).has(c) && retained(loaders@, c)) by {
            if old(manager).has(c) && !retained(loaders@, c) {
                let i = choose|i: int| 0 <= i < old(manager).slots().len() && #[trigger] old(manager).slot_coord(i) == c;
                assert(coords@[i] == c);
            }
        }
        assert forall|c: ChunkCoord| old(manager).has(c) && !retained(loaders@, c) implies #[trigger] r@.contains(c) by {
            let i = choose|i: int| 0 <= i < old(manager).slots().len() && #[trigger] old(manager).slot_coord(i) == c;
            assert(coords@[i] == c);
        }
    }
    r
}

/// What one tick did: the chunks meshed, the chunks unloaded, and how many
/// torn-down chunks were destroyed.
pub struct TickOutcome {
    pub meshed: Vec<ChunkCoord>,
    pub unloaded: Vec<ChunkCoord>,
    pub destroyed: usize,
}

/// One tick of streaming: load what the loaders want, build up to
/// `mesh_cap` meshes closest first, unload what no loader keeps, and
/// advance teardown. A chunk loaded in a tick is never unloaded in it.
pub fn tick<G: TerrainGenerator>(
    manager: &mut ChunkManager<G>,
    loaders: &Vec<ChunkLoader>,
    mesh_cap: usize,
) -> (r: TickOutcome)
    requires
        old(manager).wf(),
        all_wf(loaders@),
    ensures
        final(manager).wf(),
        final(manager).generator_spec() == old(manager).generator_spec(),
        forall|c: ChunkCoord| #[trigger] final(manager).has(c) == after_tick(old(manager).has(c), loaders@, c),
        r.meshed@.len() <= mesh_cap,
        r.meshed@.len() < mesh_cap ==> forall|i: int|
            0 <= i < final(manager).slots().len() ==> (#[trigger] final(manager).slots()[i]).meshed,
        forall|i: int, j: int|
            0 <= i < final(manager).slots().len() && 0 <= j < final(manager).slots().len()
                && !(#[trigger] final(manager).slots()[i]).meshed && r.meshed@.contains(
                #[trigger] final(manager).slot_coord(j),
            ) ==> final(manager).slots()[j].priority <= final(manager).slots()[i].priority,
        forall|k: int|
            0 <= k < r.unloaded@.len() ==> old(manager).has(#[trigger] r.unloaded@[k]) && !retained(
                loaders@,
                r.unloaded@[k],
            ) && !desired(loaders@, r.unloaded@[k]),
{
    load_chunks(manager, loaders);
    let ghost loaded = *manager;
    let meshed = insert_chunk_mesh(manager, mesh_cap);
    let ghost mid = *manager;
    proof {
        ChunkManager::<G>::lemma_has_same_chunks(&loaded, &mid);
    }
    let unloaded = unload_chunks(manager, loaders);
    let ghost after = *manager;
    let destroyed = manager.advance_teardown();
    proof {
        ChunkManager::<G>::lemma_has_frame(&after, manager);
        assert forall|c: ChunkCoord| #[trigger] manager.has(c) == after_tick(old(manager).has(c), loaders@, c) by {
            assert(mid.has(c) == loaded.has(c));
        }
        assert forall|k: int| 0 <= k < unloaded@.len() implies old(manager).has(#[trigger] unloaded@[k]) && !retained(
            loaders@,
            unloaded@[k],
        ) && !desired(loaders@, unloaded@[k]) by {
            let c = unloaded@[k];
            if desired(loaders@, c) {
                lemma_desired_retained(loaders@, c);
            }
            assert(mid.has(c) == loaded.has(c));
        }
        lemma_kept_from(mid.slots(), loaders@);
        let fs = manager.slots();
        assert(fs == kept_slots(mid.slots(), loaders@));
        if meshed@.len() < mesh_cap {
            assert forall|i: int| 0 <= i < fs.len() implies (#[trigger] fs[i]).meshed by {
                let i2 = choose|j: int| 0 <= j < mid.slots().len() && #[trigger] kept_slots(mid.slots(), loaders@)[i] == mid.slots()[j];
                assert(mid.slots()[i2].meshed);
            }
        }
        assert forall|i: int, j: int|
            0 <= i < fs.len() && 0 <= j < fs.len() && !(#[trigger] fs[i]).meshed && meshed@.contains(
                #[trigger] manager.slot_coord(j),
            ) implies fs[j].priority <= fs[i].priority by {
            let ms = mid.slots();
            let ls0 = loaded.slots();
            let i2 = choose|q: int| 0 <= q < ms.len() && #[trigger] kept_slots(ms, loaders@)[i] == ms[q];
            let j2 = choose|q: int| 0 <= q < ms.len() && #[trigger] kept_slots(ms, loaders@)[j] == ms[q];
            let c = manager.slot_coord(j);
            let k = choose|k: int| 0 <= k < meshed@.len() && meshed@[k] == c;
            assert(crate::manager::newly_meshed(ls0, ms, meshed@[k]));
            let j3 = choose|q: int|
                0 <= q < ls0.len() && #[trigger] ls0[q].chunk.coord_view() == meshed@[k] && !ls0[q].meshed
                    && ms[q].meshed;
            assert(ms[j3].chunk == ls0[j3].chunk);
            assert(mid.slot_coord(j3) == c);
            assert(mid.slot_coord(j2) == c);
            if j3 != j2 {
                assert(mid.slot_coord(j3) != mid.slot_coord(j2));
            }
            assert(!ms[i2].meshed);
            assert(ms[i2].priority == ls0[i2].priority);
            assert(ms[j2].priority == ls0[j2].priority);
            assert(!ls0[i2].meshed);
        }
    }
    TickOutcome { meshed, unloaded, destroyed }
}

/// Meshes built per tick unless configured otherwise.
pub const CHUNKS_MESHED_PER_TICK: usize = 24;

/// The streaming setup: how many meshes may be built per tick. It builds
/// the chunk index over a generator and runs the ticks.
pub struct ChunkPlugin {
    pub mesh_cap: usize,
}

impl ChunkPlugin {
    /// The setup with the default mesh budget.
    pub fn new() -> (r: ChunkPlugin)
        ensures
            r.mesh_cap == CHUNKS_MESHED_PER_TICK,
    {
        ChunkPlugin { mesh_cap: CHUNKS_MESHED_PER_TICK }
    }

    /// An empty chunk index over `generator`.
    pub fn build<G: TerrainGenerator>(&self, generator: G) -> (r: ChunkManager<G>)
        requires
            generator.wf(),
        ensures
            r.wf(),
            r.slots().len() == 0,
            r.generator_spec() == generator,
    {
        ChunkManager::new(generator)
    }

    /// One tick of streaming with this setup's mesh budget.
    pub fn update<G: TerrainGenerator>(
        &self,
        manager: &mut ChunkManager<G>,
        loaders: &Vec<ChunkLoader>,
    ) -> (r: TickOutcome)
        requires
            old(manager).wf(),
            all_wf(loaders@),
        ensures
            final(manager).wf(),
            final(manager).generator_spec() == old(manager).generator_spec(),
            forall|c: ChunkCoord| #[trigger] final(manager).has(c) == after_tick(old(manager).has(c), loaders@, c),
            r.meshed@.len() <= self.mesh_cap,
            r.meshed@.len() < self.mesh_cap ==> forall|i: int|
                0 <= i < final(manager).slots().len() ==> (#[trigger] final(manager).slots()[i]).meshed,
            forall|i: int, j: int|
                0 <= i < final(manager).slots().len() && 0 <= j < final(manager).slots().len()
                    && !(#[trigger] final(manager).slots()[i]).meshed && r.meshed@.contains(
                    #[trigger] final(manager).slot_coord(j),
                ) ==> final(manager).slots()[j].priority <= final(manager).slots()[i].priority,
    {
        tick(manager, loaders, self.mesh_cap)
    }
}

/// Hysteresis: with one loader whose load radius is `R` and unload radius
/// `R + W`, a chunk whose centre lies farther than `R` but within `R + W`
/// keeps its state through a tick: absent stays absent, present stays
/// present.
pub proof fn lemma_hysteresis(l: ChunkLoader, c: ChunkCoord, was: bool)
    requires
        l.wf(),
        l.unloading_threshold == l.loading_threshold + CHUNK_SIZE_MM,
        l.loading_threshold * l.loading_threshold < center_dist_sq(l, c),
        center_dist_sq(l, c) <= l.unloading_threshold * l.unloading_threshold,
    ensures
        after_tick(was, seq![l], c) == was,
{
    let ls = seq![l];
    assert(ls[0] == l);
    assert(!desired(ls, c));
    assert(retained(ls, c));
}

} // verus!
