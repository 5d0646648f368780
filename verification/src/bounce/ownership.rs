//! What every shadow queue keeps, and why mirroring and completing keep it.
//!
//! Descriptor slots: each slot of the shadow table is either free or used by
//! exactly one chain in flight. Arena bytes: each byte is free, or part of
//! exactly one buffer in flight, or owned by somebody else.

use super::allocator::{self, Arena};
use super::model::{self, Arrival, ChainView, Completion, Scene, ShadowView};
use super::pool::{PoolView, RingOffsets};
use super::ring::Descriptor;
use super::shadow_queue::Segment;
use vstd::prelude::*;

verus! {

// ---- Buffers ----

/// Whether arena byte `b` belongs to the extent of `s`.
pub open spec fn seg_has(s: Segment, base: u64, b: int) -> bool {
    s.len != 0 && s.pool_addr - base <= b < s.pool_addr - base + allocator::rounded(s.len as int)
}

/// Whether arena byte `b` belongs to the extent of one of `segs`.
pub open spec fn segs_have(segs: Seq<Segment>, base: u64, b: int) -> bool {
    exists|i: int| 0 <= i < segs.len() && seg_has(#[trigger] segs[i], base, b)
}

pub open spec fn seg_in_arena(s: Segment, base: u64, capacity: int) -> bool {
    s.len != 0 ==> {
        &&& s.pool_addr >= base
        &&& (s.pool_addr - base) % 64 == 0
        &&& s.pool_addr - base + allocator::rounded(s.len as int) <= capacity
    }
}

/// Extents inside the arena, on granules, that do not overlap.
pub open spec fn segs_ok(segs: Seq<Segment>, base: u64, capacity: int) -> bool {
    &&& forall|i: int| 0 <= i < segs.len() ==> seg_in_arena(#[trigger] segs[i], base, capacity)
    &&& forall|i: int, j: int, b: int|
        0 <= i < j < segs.len() && #[trigger] seg_has(segs[i], base, b) ==> !#[trigger] seg_has(
            segs[j],
            base,
            b,
        )
}

/// Whether `segs` capture the leading descriptors of `descs`.
pub open spec fn captures(descs: Seq<Descriptor>, segs: Seq<Segment>) -> bool {
    &&& segs.len() <= descs.len()
    &&& forall|i: int|
        0 <= i < segs.len() ==> #[trigger] segs[i] == model::segment_of(descs[i], segs[i].pool_addr)
}

pub(crate) proof fn lemma_segs_have_push(segs: Seq<Segment>, s: Segment, base: u64, b: int)
    ensures
        segs_have(segs.push(s), base, b) == (segs_have(segs, base, b) || seg_has(s, base, b)),
{
    let all = segs.push(s);
    if segs_have(all, base, b) {
        let i = choose|i: int| 0 <= i < all.len() && seg_has(#[trigger] all[i], base, b);
        if i < segs.len() {
            assert(seg_has(segs[i], base, b));
        }
    }
    if segs_have(segs, base, b) {
        let i = choose|i: int| 0 <= i < segs.len() && seg_has(#[trigger] segs[i], base, b);
        assert(seg_has(all[i], base, b));
    }
    if seg_has(s, base, b) {
        assert(seg_has(all[segs.len() as int], base, b));
    }
}

/// A reservation takes free bytes only, and exactly those of its extents.
pub(crate) proof fn lemma_reserve(arena: Arena, base: u64, descs: Seq<Descriptor>)
    requires
        arena.wf(),
        base + arena.capacity <= u64::MAX,
    ensures
        ({
            let r = model::reserve(arena, base, descs);
            &&& r.arena.wf()
            &&& r.arena.capacity == arena.capacity
            &&& captures(descs, r.segments)
            &&& r.complete <==> r.segments.len() == descs.len()
            &&& segs_ok(r.segments, base, arena.capacity as int)
            &&& forall|b: int|
                #![trigger arena.free_at(b)]
                #![trigger r.arena.free_at(b)]
                #![trigger segs_have(r.segments, base, b)]
                arena.free_at(b) == (r.arena.free_at(b) || segs_have(r.segments, base, b))
            &&& forall|b: int| #[trigger]
                segs_have(r.segments, base, b) ==> !r.arena.free_at(b)
        }),
    decreases descs.len(),
{
    if descs.len() > 0 {
        let p = model::reserve(arena, base, descs.drop_last());
        let d = descs.last();
        lemma_reserve(arena, base, descs.drop_last());
        let r = model::reserve(arena, base, descs);
        assert forall|i: int| 0 <= i < p.segments.len() implies #[trigger] p.segments[i]
            == model::segment_of(descs[i], p.segments[i].pool_addr) by {
            assert(descs.drop_last()[i] == descs[i]);
        }
        if p.complete && (d.len == 0 || p.arena.can_alloc(d.len as int)) {
            let s = r.segments.last();
            assert(r.segments == p.segments.push(s));
            if d.len != 0 {
                allocator::lemma_alloc(p.arena, d.len as int);
            }
            assert forall|b: int| #[trigger] segs_have(r.segments, base, b) == (segs_have(
                p.segments,
                base,
                b,
            ) || seg_has(s, base, b)) by {
                lemma_segs_have_push(p.segments, s, base, b);
            }
            assert forall|b: int|
                #![trigger arena.free_at(b)]
                #![trigger r.arena.free_at(b)]
                #![trigger segs_have(r.segments, base, b)]
                arena.free_at(b) == (r.arena.free_at(b) || segs_have(r.segments, base, b)) by {
                assert(arena.free_at(b) == (p.arena.free_at(b) || segs_have(p.segments, base, b)));
                assert(segs_have(r.segments, base, b) == (segs_have(p.segments, base, b) || seg_has(
                    s,
                    base,
                    b,
                )));
                if seg_has(s, base, b) {
                    assert(p.arena.free_at(b));
                }
            }
            assert forall|b: int| #[trigger] segs_have(r.segments, base, b) implies !r.arena.free_at(
                b,
            ) by {
                if segs_have(p.segments, base, b) {
                    assert(!p.arena.free_at(b));
                    assert(r.arena.free_at(b) ==> p.arena.free_at(b));
                } else {
                    assert(seg_has(s, base, b));
                }
            }
            assert forall|i: int, j: int, b: int|
                0 <= i < j < r.segments.len() && #[trigger] seg_has(
                    r.segments[i],
                    base,
                    b,
                ) implies !#[trigger] seg_has(r.segments[j], base, b) by {
                assert(r.segments[i] == p.segments[i]);
                if j == p.segments.len() {
                    if seg_has(s, base, b) {
                        assert(seg_has(p.segments[i], base, b));
                        assert(segs_have(p.segments, base, b));
                        assert(!p.arena.free_at(b));
                        assert(p.arena.free_at(b));
                    }
                } else {
                    assert(r.segments[j] == p.segments[j]);
                }
            }
        }
    }
}

/// Freeing extents that are in use makes exactly their bytes free, and none
/// of the frees is refused.
pub(crate) proof fn lemma_release(arena: Arena, base: u64, segs: Seq<Segment>)
    requires
        arena.wf(),
        segs_ok(segs, base, arena.capacity as int),
        forall|b: int| #[trigger] segs_have(segs, base, b) ==> !arena.free_at(b),
    ensures
        ({
            let r = model::release(arena, base, segs);
            &&& r.wf()
            &&& r.capacity == arena.capacity
            &&& forall|b: int|
                #![trigger r.free_at(b)]
                #![trigger segs_have(segs, base, b)]
                r.free_at(b) == (arena.free_at(b) || segs_have(segs, base, b))
        }),
        segs.len() > 0 && segs.last().len != 0 ==> model::release(
            arena,
            base,
            segs.drop_last(),
        ).can_free(segs.last().pool_addr - base, segs.last().len as int),
    decreases segs.len(),
{
    if segs.len() > 0 {
        let init = segs.drop_last();
        let s = segs.last();
        let n = init.len() as int;
        assert(segs == init.push(s));
        assert forall|b: int| #[trigger] segs_have(segs, base, b) == (segs_have(init, base, b)
            || seg_has(s, base, b)) by {
            lemma_segs_have_push(init, s, base, b);
        }
        assert forall|b: int| #[trigger] segs_have(init, base, b) implies !arena.free_at(b) by {
            assert(segs_have(segs, base, b));
        }
        assert forall|i: int, j: int, b: int|
            0 <= i < j < init.len() && #[trigger] seg_has(
                init[i],
                base,
                b,
            ) implies !#[trigger] seg_has(init[j], base, b) by {
            assert(init[i] == segs[i] && init[j] == segs[j]);
        }
        assert forall|i: int| 0 <= i < init.len() implies seg_in_arena(
            #[trigger] init[i],
            base,
            arena.capacity as int,
        ) by {
            assert(init[i] == segs[i]);
        }
        lemma_release(arena, base, init);
        let a = model::release(arena, base, init);
        if s.len != 0 {
            assert(seg_in_arena(segs[n], base, arena.capacity as int));
            let off = s.pool_addr - base;
            assert forall|b: int|
                off <= b < off + allocator::rounded(s.len as int) implies !#[trigger] a.free_at(
                b,
            ) by {
                assert(seg_has(segs[n], base, b));
                assert(segs_have(segs, base, b));
                if segs_have(init, base, b) {
                    let i = choose|i: int|
                        0 <= i < init.len() && seg_has(#[trigger] init[i], base, b);
                    assert(seg_has(segs[i], base, b));
                }
            }
            assert(a.can_free(off, s.len as int));
            allocator::law_free_adds_exactly_the_extent(a, off, s.len as int);
            let r = model::release(arena, base, segs);
            assert forall|b: int|
                #![trigger r.free_at(b)]
                #![trigger segs_have(segs, base, b)]
                r.free_at(b) == (arena.free_at(b) || segs_have(segs, base, b)) by {
                assert(allocator::free_at(r.free, b) == (allocator::free_at(a.free, b) || off <= b
                    < off + allocator::rounded(s.len as int)));
                assert(a.free_at(b) == (arena.free_at(b) || segs_have(init, base, b)));
                assert(segs_have(segs, base, b) == (segs_have(init, base, b) || seg_has(
                    s,
                    base,
                    b,
                )));
            }
        }
    }
}

/// Two arenas of one size with the same free bytes are the same.
pub(crate) proof fn lemma_same_arena(a: Arena, b: Arena)
    requires
        a.wf(),
        b.wf(),
        a.capacity == b.capacity,
        forall|x: int| #![trigger a.free_at(x)] #![trigger b.free_at(x)] a.free_at(x) == b.free_at(x),
    ensures
        a == b,
{
    assert forall|x: int| #[trigger]
        allocator::free_at(a.free, x) == allocator::free_at(b.free, x) by {
        assert(a.free_at(x) == b.free_at(x));
    }
    allocator::lemma_canonical_unique(a.free, b.free, a.capacity as int);
}

/// Giving back what a reservation took restores the arena.
pub proof fn law_rollback_restores_arena(arena: Arena, base: u64, descs: Seq<Descriptor>)
    requires
        arena.wf(),
        base + arena.capacity <= u64::MAX,
    ensures
        ({
            let r = model::reserve(arena, base, descs);
            model::release(r.arena, base, r.segments) == arena
        }),
{
    let r = model::reserve(arena, base, descs);
    lemma_reserve(arena, base, descs);
    lemma_release(r.arena, base, r.segments);
    let back = model::release(r.arena, base, r.segments);
    assert forall|x: int| #![trigger back.free_at(x)] back.free_at(x) == arena.free_at(x) by {
        assert(back.free_at(x) == (r.arena.free_at(x) || segs_have(r.segments, base, x)));
        assert(arena.free_at(x) == (r.arena.free_at(x) || segs_have(r.segments, base, x)));
    }
    lemma_same_arena(back, arena);
}

// ---- Queues ----

/// Whether the rings of a queue of `size` entries lie below `limit`.
pub open spec fn ring_fits(ring: RingOffsets, size: int, limit: int) -> bool {
    &&& ring.desc + 16 * size <= limit
    &&& ring.avail + 4 + 2 * size <= limit
    &&& ring.used + 4 + 8 * size <= limit
}

pub open spec fn chain_ok(c: ChainView, h: int) -> bool {
    &&& c.slots.len() == c.segments.len()
    &&& c.slots.len() > 0
    &&& c.slots[0] == h
    &&& c.slots.no_duplicates()
    &&& forall|i: int|
        0 <= i < c.segments.len() && (#[trigger] c.segments[i]).len != 0
            ==> c.segments[i].guest_addr + c.segments[i].len <= u64::MAX
}

impl ShadowView {
    /// Whether the chain with shadow head `h` uses slot `slot`.
    pub open spec fn holds(self, h: int, slot: u16) -> bool {
        &&& 0 <= h < self.inflight.len()
        &&& self.inflight[h] is Some
        &&& self.inflight[h]->0.slots.contains(slot)
    }

    /// Whether arena byte `b` belongs to the chain with shadow head `h`.
    pub open spec fn owns(self, base: u64, h: int, b: int) -> bool {
        &&& 0 <= h < self.inflight.len()
        &&& self.inflight[h] is Some
        &&& segs_have(self.inflight[h]->0.segments, base, b)
    }

    /// Whether arena byte `b` belongs to a chain in flight.
    pub open spec fn owns_byte(self, base: u64, b: int) -> bool {
        exists|h: int| #[trigger] self.owns(base, h, b)
    }

    pub open spec fn wf(self) -> bool {
        &&& self.inflight.len() == self.size
        &&& self.free_slots.no_duplicates()
        &&& forall|slot: u16| #[trigger] self.free_slots.contains(slot) ==> slot < self.size
        &&& forall|h: int|
            0 <= h < self.size && (#[trigger] self.inflight[h]) is Some ==> chain_ok(
                self.inflight[h]->0,
                h,
            )
        &&& forall|h: int, slot: u16| #[trigger]
            self.holds(h, slot) ==> slot < self.size && !self.free_slots.contains(slot)
        &&& forall|h: int, k: int, slot: u16| #[trigger]
            self.holds(h, slot) && #[trigger] self.holds(k, slot) ==> h == k
        &&& forall|slot: u16|
            slot < self.size ==> #[trigger] self.free_slots.contains(slot) || exists|h: int|
                #[trigger] self.holds(h, slot)
    }

    /// Whether the queue's rings and buffers are where the pool has room for
    /// them: the rings below the arena, the buffers in extents of the arena
    /// that are not free, no byte in two chains.
    pub open spec fn backed(self, pool: PoolView) -> bool {
        let base = pool.arena_base;
        &&& ring_fits(self.ring, self.size as int, base as int)
        &&& forall|h: int|
            0 <= h < self.inflight.len() && (#[trigger] self.inflight[h]) is Some ==> segs_ok(
                self.inflight[h]->0.segments,
                base,
                pool.arena.capacity as int,
            )
        &&& forall|h: int, b: int| #[trigger] self.owns(base, h, b) ==> !pool.arena.free_at(b)
        &&& forall|h: int, k: int, b: int| #[trigger]
            self.owns(base, h, b) && #[trigger] self.owns(base, k, b) ==> h == k
    }

    /// Chains currently owned by the backend.
    pub open spec fn inflight_total(self) -> int {
        occupied(self.inflight)
    }
}

/// How many entries of the in-flight table are taken.
pub open spec fn occupied(table: Seq<Option<ChainView>>) -> int
    decreases table.len(),
{
    if table.len() == 0 {
        0
    } else {
        occupied(table.drop_last()) + if table.last() is Some {
            1int
        } else {
            0
        }
    }
}

/// Whether pool and queue have the same layout in both scenes.
pub open spec fn same_layout(s: Scene, t: Scene) -> bool {
    &&& t.pool.rings == s.pool.rings
    &&& t.pool.arena_base == s.pool.arena_base
    &&& t.pool.size == s.pool.size
    &&& t.pool.arena.capacity == s.pool.arena.capacity
    &&& t.queue.queue_index == s.queue.queue_index
    &&& t.queue.size == s.queue.size
    &&& t.queue.ring == s.queue.ring
}

/// Whether the layout is the same in both scenes, and so are the bytes that
/// are free or belong to the queue. Every other byte is then as much in use
/// as before.
pub open spec fn conserved(s: Scene, t: Scene) -> bool {
    &&& same_layout(s, t)
    &&& forall|b: int|
        #![trigger t.pool.arena.free_at(b)]
        #![trigger t.queue.owns_byte(t.pool.arena_base, b)]
        #![trigger s.pool.arena.free_at(b)]
        #![trigger s.queue.owns_byte(s.pool.arena_base, b)]
        (t.pool.arena.free_at(b) || t.queue.owns_byte(t.pool.arena_base, b)) == (
        s.pool.arena.free_at(b) || s.queue.owns_byte(s.pool.arena_base, b))
}

pub open spec fn scene_ok(s: Scene) -> bool {
    &&& s.queue.wf()
    &&& s.pool.wf()
    &&& s.queue.backed(s.pool)
}

pub(crate) proof fn lemma_occupied_update(
    table: Seq<Option<ChainView>>,
    i: int,
    e: Option<ChainView>,
)
    requires
        0 <= i < table.len(),
    ensures
        occupied(table.update(i, e)) == occupied(table) - (if table[i] is Some {
            1int
        } else {
            0
        }) + (if e is Some {
            1int
        } else {
            0
        }),
    decreases table.len(),
{
    let new = table.update(i, e);
    if i == table.len() - 1 {
        assert(new.drop_last() =~= table.drop_last());
    } else {
        lemma_occupied_update(table.drop_last(), i, e);
        assert(new.drop_last() =~= table.drop_last().update(i, e));
        assert(new.last() == table.last());
    }
}

pub(crate) proof fn lemma_occupied_bounds(table: Seq<Option<ChainView>>)
    ensures
        0 <= occupied(table) <= table.len(),
        (occupied(table) == 0) == (forall|i: int|
            0 <= i < table.len() ==> (#[trigger] table[i]) is None),
    decreases table.len(),
{
    if table.len() > 0 {
        let init = table.drop_last();
        lemma_occupied_bounds(init);
        if occupied(table) == 0 {
            assert forall|i: int| 0 <= i < table.len() implies (#[trigger] table[i]) is None by {
                if i < init.len() {
                    assert(init[i] is None);
                }
            }
        } else {
            if forall|i: int| 0 <= i < table.len() ==> (#[trigger] table[i]) is None {
                assert(table[table.len() - 1] is None);
                assert forall|i: int| 0 <= i < init.len() implies (#[trigger] init[i]) is None by {
                    assert(table[i] is None);
                }
            }
        }
    }
}

/// The slots of the next chain: distinct, off the top of the free stack.
pub(crate) proof fn lemma_next_slots(free: Seq<u16>, n: int)
    requires
        free.no_duplicates(),
        0 <= n <= free.len(),
    ensures
        ({
            let slots = model::next_slots(free, n);
            let rest = free.take(free.len() - n);
            &&& slots.no_duplicates()
            &&& rest.no_duplicates()
            &&& forall|x: u16| #[trigger]
                free.contains(x) == (rest.contains(x) || slots.contains(x))
            &&& forall|x: u16| #[trigger] slots.contains(x) ==> !rest.contains(x)
        }),
{
    let slots = model::next_slots(free, n);
    let rest = free.take(free.len() - n);
    assert forall|x: u16| #[trigger] free.contains(x) == (rest.contains(x) || slots.contains(x)) by {
        if free.contains(x) {
            let i = choose|i: int| 0 <= i < free.len() && free[i] == x;
            if i < free.len() - n {
                assert(rest[i] == x);
            } else {
                assert(slots[free.len() - 1 - i] == x);
            }
        }
        if rest.contains(x) {
            let i = choose|i: int| 0 <= i < rest.len() && rest[i] == x;
            assert(free[i] == x);
        }
        if slots.contains(x) {
            let i = choose|i: int| 0 <= i < slots.len() && slots[i] == x;
            assert(free[free.len() - 1 - i] == x);
        }
    }
    assert forall|x: u16| #[trigger] slots.contains(x) implies !rest.contains(x) by {
        let i = choose|i: int| 0 <= i < slots.len() && slots[i] == x;
        assert(free[free.len() - 1 - i] == x);
        if rest.contains(x) {
            let j = choose|j: int| 0 <= j < rest.len() && rest[j] == x;
            assert(free[j] == x);
        }
    }
}

/// Publishing keeps the slot partition.
proof fn lemma_published_wf(s: Scene, map: Set<int>, a: Arrival)
    requires
        scene_ok(s),
        model::verdict(s, map, a) is Publish,
        forall|i: int|
            0 <= i < a.descs.len() && (#[trigger] a.descs[i]).len != 0 ==> a.descs[i].addr
                + a.descs[i].len <= u64::MAX,
    ensures
        model::published(s, a).queue.wf(),
        s.queue.inflight[model::next_slots(s.queue.free_slots, a.descs.len() as int)[0] as int] is None,
        s.queue.free_slots.contains(
            model::next_slots(s.queue.free_slots, a.descs.len() as int)[0],
        ),
{
    let q = s.queue;
    let n = a.descs.len() as int;
    let slots = model::next_slots(q.free_slots, n);
    let h0 = slots[0] as int;
    let t = model::published(s, a);
    let c = t.queue.inflight[h0]->0;
    lemma_next_slots(q.free_slots, n);
    lemma_reserve(s.pool.arena, s.pool.arena_base, a.descs);
    assert(slots.contains(slots[0]));
    assert(q.free_slots.contains(slots[0]));
    if q.inflight[h0] is Some {
        assert(chain_ok(q.inflight[h0]->0, h0));
        let o = q.inflight[h0]->0;
        assert(o.slots.contains(o.slots[0]));
        assert(q.holds(h0, slots[0]));
        assert(false);
    }
    assert(c == ChainView {
        guest_head: a.head,
        segments: model::reserve(s.pool.arena, s.pool.arena_base, a.descs).segments,
        slots,
    });
    assert(chain_ok(c, h0)) by {
        assert forall|i: int|
            0 <= i < c.segments.len() && (#[trigger] c.segments[i]).len
                != 0 implies c.segments[i].guest_addr + c.segments[i].len <= u64::MAX by {
            assert(c.segments[i] == model::segment_of(a.descs[i], c.segments[i].pool_addr));
        }
    }
    assert forall|h: int, slot: u16| #[trigger]
        t.queue.holds(h, slot) == (q.holds(h, slot) || (h == h0 && slots.contains(slot))) by {}
    assert forall|slot: u16|
        slot < t.queue.size implies #[trigger] t.queue.free_slots.contains(slot) || exists|h: int|
        #[trigger] t.queue.holds(h, slot) by {
        if q.free_slots.contains(slot) {
            if slots.contains(slot) {
                assert(t.queue.holds(h0, slot));
            }
        } else {
            let h = choose|h: int| #[trigger] q.holds(h, slot);
            assert(t.queue.holds(h, slot));
        }
    }
    assert forall|h: int, slot: u16| #[trigger] t.queue.holds(h, slot) implies slot < t.queue.size
        && !t.queue.free_slots.contains(slot) by {
        if q.holds(h, slot) {
            assert(!q.free_slots.contains(slot));
        } else {
            assert(slots.contains(slot));
            assert(q.free_slots.contains(slot));
        }
    }
    assert forall|h: int, k: int, slot: u16| #[trigger]
        t.queue.holds(h, slot) && #[trigger] t.queue.holds(k, slot) implies h == k by {
        if slots.contains(slot) {
            assert(q.free_slots.contains(slot));
            assert(!q.holds(h, slot));
            assert(!q.holds(k, slot));
        }
    }
    assert forall|slot: u16| #[trigger] t.queue.free_slots.contains(slot) implies slot
        < t.queue.size by {
        assert(q.free_slots.contains(slot));
    }
    assert forall|h: int|
        0 <= h < t.queue.size && (#[trigger] t.queue.inflight[h]) is Some implies chain_ok(
        t.queue.inflight[h]->0,
        h,
    ) by {
        if h != h0 {
            assert(q.inflight[h] is Some);
        }
    }
}

/// Publishing keeps the buffers apart, and takes free bytes only.
proof fn lemma_published_backed(s: Scene, map: Set<int>, a: Arrival)
    requires
        scene_ok(s),
        model::verdict(s, map, a) is Publish,
        s.queue.inflight[model::next_slots(s.queue.free_slots, a.descs.len() as int)[0] as int] is None,
        s.queue.free_slots.contains(
            model::next_slots(s.queue.free_slots, a.descs.len() as int)[0],
        ),
    ensures
        model::published(s, a).pool.wf(),
        model::published(s, a).queue.backed(model::published(s, a).pool),
        conserved(s, model::published(s, a)),
{
    let q = s.queue;
    let base = s.pool.arena_base;
    let n = a.descs.len() as int;
    let slots = model::next_slots(q.free_slots, n);
    let h0 = slots[0] as int;
    let t = model::published(s, a);
    let r = model::reserve(s.pool.arena, base, a.descs);
    lemma_reserve(s.pool.arena, base, a.descs);
    assert forall|h: int, b: int| #[trigger]
        t.queue.owns(base, h, b) == (q.owns(base, h, b) || (h == h0 && segs_have(
            r.segments,
            base,
            b,
        ))) by {}
    assert forall|h: int, b: int| #[trigger] t.queue.owns(base, h, b) implies !t.pool.arena.free_at(
        b,
    ) by {
        if q.owns(base, h, b) {
            assert(!s.pool.arena.free_at(b));
        }
    }
    assert forall|h: int, k: int, b: int| #[trigger]
        t.queue.owns(base, h, b) && #[trigger] t.queue.owns(base, k, b) implies h == k by {
        if segs_have(r.segments, base, b) {
            assert(s.pool.arena.free_at(b));
            assert(!q.owns(base, h, b));
            assert(!q.owns(base, k, b));
        }
    }
    assert forall|b: int|
        #![trigger t.pool.arena.free_at(b)]
        #![trigger t.queue.owns_byte(t.pool.arena_base, b)]
        #![trigger s.pool.arena.free_at(b)]
        #![trigger s.queue.owns_byte(s.pool.arena_base, b)]
        (t.pool.arena.free_at(b) || t.queue.owns_byte(base, b)) == (
        s.pool.arena.free_at(b) || s.queue.owns_byte(base, b)) by {
        if t.queue.owns_byte(base, b) {
            let h = choose|h: int| #[trigger] t.queue.owns(base, h, b);
            if q.owns(base, h, b) {
                assert(s.queue.owns_byte(base, b));
            } else {
                assert(segs_have(r.segments, base, b));
            }
        }
        if s.queue.owns_byte(base, b) {
            let h = choose|h: int| #[trigger] q.owns(base, h, b);
            assert(t.queue.owns(base, h, b));
        }
        if s.pool.arena.free_at(b) && !t.pool.arena.free_at(b) {
            assert(segs_have(r.segments, base, b));
            assert(t.queue.owns(base, h0, b));
        }
    }
}

/// A published chain leaves every invariant standing.
pub(crate) proof fn lemma_published(s: Scene, map: Set<int>, a: Arrival)
    requires
        scene_ok(s),
        model::verdict(s, map, a) is Publish,
        forall|i: int|
            0 <= i < a.descs.len() && (#[trigger] a.descs[i]).len != 0 ==> a.descs[i].addr
                + a.descs[i].len <= u64::MAX,
    ensures
        scene_ok(model::published(s, a)),
        conserved(s, model::published(s, a)),
        s.queue.inflight[model::next_slots(s.queue.free_slots, a.descs.len() as int)[0] as int] is None,
        model::published(s, a).queue.inflight_total() == s.queue.inflight_total() + 1,
{
    lemma_published_wf(s, map, a);
    lemma_published_backed(s, map, a);
    let h0 = model::next_slots(s.queue.free_slots, a.descs.len() as int)[0] as int;
    lemma_occupied_update(
        s.queue.inflight,
        h0,
        model::published(s, a).queue.inflight[h0],
    );
}

/// Recycling a chain's slots keeps the slot partition.
proof fn lemma_returned_wf(s: Scene, c: Completion, chain: ChainView)
    requires
        scene_ok(s),
        model::lookup(s.queue, c.id) == Some(chain),
    ensures
        model::returned(s, c, chain).queue.wf(),
{
    let q = s.queue;
    let id = c.id as int;
    let t = model::returned(s, c, chain);
    assert(chain_ok(q.inflight[id]->0, id));
    assert forall|h: int, slot: u16| #[trigger]
        t.queue.holds(h, slot) == (q.holds(h, slot) && h != id) by {}
    assert forall|slot: u16| #[trigger]
        t.queue.free_slots.contains(slot) == (q.free_slots.contains(slot) || q.holds(id, slot)) by {
        let all = q.free_slots + chain.slots;
        if all.contains(slot) {
            let i = choose|i: int| 0 <= i < all.len() && all[i] == slot;
            if i < q.free_slots.len() {
                assert(q.free_slots[i] == slot);
            } else {
                assert(chain.slots[i - q.free_slots.len()] == slot);
            }
        }
        if q.free_slots.contains(slot) {
            let i = choose|i: int| 0 <= i < q.free_slots.len() && q.free_slots[i] == slot;
            assert(all[i] == slot);
        }
        if q.holds(id, slot) {
            let i = choose|i: int| 0 <= i < chain.slots.len() && chain.slots[i] == slot;
            assert(all[q.free_slots.len() + i] == slot);
        }
    }
    assert(t.queue.free_slots.no_duplicates()) by {
        let all = q.free_slots + chain.slots;
        assert forall|i: int, j: int| 0 <= i < j < all.len() implies all[i] != all[j] by {
            let m = q.free_slots.len() as int;
            if i < m && j >= m {
                let slot = chain.slots[j - m];
                assert(chain.slots.contains(slot));
                assert(q.holds(id, slot));
                if q.free_slots[i] == slot {
                    assert(q.free_slots.contains(slot));
                }
            }
        }
    }
    assert forall|slot: u16|
        slot < t.queue.size implies #[trigger] t.queue.free_slots.contains(slot) || exists|h: int|
        #[trigger] t.queue.holds(h, slot) by {
        if !q.free_slots.contains(slot) {
            let h = choose|h: int| #[trigger] q.holds(h, slot);
            if h != id {
                assert(t.queue.holds(h, slot));
            }
        }
    }
    assert forall|slot: u16| #[trigger] t.queue.free_slots.contains(slot) implies slot
        < t.queue.size by {
        if !q.free_slots.contains(slot) {
            assert(q.holds(id, slot));
        }
    }
    assert forall|h: int, slot: u16| #[trigger] t.queue.holds(h, slot) implies slot < t.queue.size
        && !t.queue.free_slots.contains(slot) by {
        assert(q.holds(h, slot));
        if q.holds(id, slot) {
            assert(h == id);
        }
    }
    assert forall|h: int, k: int, slot: u16| #[trigger]
        t.queue.holds(h, slot) && #[trigger] t.queue.holds(k, slot) implies h == k by {
        assert(q.holds(h, slot) && q.holds(k, slot));
    }
    assert forall|h: int|
        0 <= h < t.queue.size && (#[trigger] t.queue.inflight[h]) is Some implies chain_ok(
        t.queue.inflight[h]->0,
        h,
    ) by {
        assert(q.inflight[h] is Some);
    }
}

/// Releasing a chain's buffers frees exactly its bytes.
proof fn lemma_returned_backed(s: Scene, c: Completion, chain: ChainView)
    requires
        scene_ok(s),
        model::lookup(s.queue, c.id) == Some(chain),
    ensures
        model::returned(s, c, chain).pool.wf(),
        model::returned(s, c, chain).queue.backed(model::returned(s, c, chain).pool),
        conserved(s, model::returned(s, c, chain)),
{
    let q = s.queue;
    let base = s.pool.arena_base;
    let id = c.id as int;
    let t = model::returned(s, c, chain);
    assert(q.inflight[id] is Some);
    assert forall|b: int| #[trigger] segs_have(
        chain.segments,
        base,
        b,
    ) implies !s.pool.arena.free_at(b) by {
        assert(q.owns(base, id, b));
    }
    lemma_release(s.pool.arena, base, chain.segments);
    assert forall|h: int, b: int| #[trigger]
        t.queue.owns(base, h, b) == (q.owns(base, h, b) && h != id) by {}
    assert forall|h: int, b: int| #[trigger] t.queue.owns(base, h, b) implies !t.pool.arena.free_at(
        b,
    ) by {
        assert(q.owns(base, h, b));
        if segs_have(chain.segments, base, b) {
            assert(q.owns(base, id, b));
        }
    }
    assert forall|h: int, k: int, b: int| #[trigger]
        t.queue.owns(base, h, b) && #[trigger] t.queue.owns(base, k, b) implies h == k by {
        assert(q.owns(base, h, b) && q.owns(base, k, b));
    }
    assert forall|h: int|
        0 <= h < t.queue.inflight.len() && (#[trigger] t.queue.inflight[h]) is Some implies segs_ok(
        t.queue.inflight[h]->0.segments,
        base,
        t.pool.arena.capacity as int,
    ) by {
        assert(q.inflight[h] is Some);
    }
    assert forall|b: int|
        #![trigger t.pool.arena.free_at(b)]
        #![trigger t.queue.owns_byte(t.pool.arena_base, b)]
        #![trigger s.pool.arena.free_at(b)]
        #![trigger s.queue.owns_byte(s.pool.arena_base, b)]
        (t.pool.arena.free_at(b) || t.queue.owns_byte(t.pool.arena_base, b)) == (
        s.pool.arena.free_at(b) || s.queue.owns_byte(s.pool.arena_base, b)) by {
        lemma_returned_byte(s, c, chain, b);
    }
}

/// A byte that is free or the queue's own stays so when a chain returns.
proof fn lemma_returned_byte(s: Scene, c: Completion, chain: ChainView, b: int)
    requires
        scene_ok(s),
        model::lookup(s.queue, c.id) == Some(chain),
    ensures
        ({
            let t = model::returned(s, c, chain);
            (t.pool.arena.free_at(b) || t.queue.owns_byte(t.pool.arena_base, b)) == (
            s.pool.arena.free_at(b) || s.queue.owns_byte(s.pool.arena_base, b))
        }),
{
    let q = s.queue;
    let base = s.pool.arena_base;
    let id = c.id as int;
    let t = model::returned(s, c, chain);
    assert(q.inflight[id] is Some);
    assert forall|b: int| #[trigger] segs_have(
        chain.segments,
        base,
        b,
    ) implies !s.pool.arena.free_at(b) by {
        assert(q.owns(base, id, b));
    }
    lemma_release(s.pool.arena, base, chain.segments);
    if t.queue.owns_byte(base, b) {
        let h = choose|h: int| #[trigger] t.queue.owns(base, h, b);
        assert(q.owns(base, h, b));
    }
    if q.owns_byte(base, b) {
        let h = choose|h: int| #[trigger] q.owns(base, h, b);
        if h == id {
            assert(segs_have(chain.segments, base, b));
        } else {
            assert(t.queue.owns(base, h, b));
        }
    }
    if segs_have(chain.segments, base, b) {
        assert(q.owns(base, id, b));
    }
}

/// A returned chain leaves every invariant standing.
pub(crate) proof fn lemma_returned(s: Scene, c: Completion, chain: ChainView)
    requires
        scene_ok(s),
        model::lookup(s.queue, c.id) == Some(chain),
    ensures
        scene_ok(model::returned(s, c, chain)),
        conserved(s, model::returned(s, c, chain)),
        model::returned(s, c, chain).queue.inflight_total() == s.queue.inflight_total() - 1,
{
    lemma_returned_wf(s, c, chain);
    lemma_returned_backed(s, c, chain);
    lemma_occupied_update(s.queue.inflight, c.id as int, None);
}

/// All slots of a table of `size` entries, slot 0 on top of the stack.
pub open spec fn slot_stack(size: u16) -> Seq<u16> {
    Seq::new(size as nat, |i: int| (size - 1 - i) as u16)
}

/// A queue at the start of a backend session: every slot free, no chain in
/// flight, both counters at `base`.
pub open spec fn fresh(queue_index: usize, size: u16, ring: RingOffsets, base: u16) -> ShadowView {
    ShadowView {
        queue_index,
        size,
        ring,
        free_slots: slot_stack(size),
        inflight: Seq::new(size as nat, |i: int| None::<ChainView>),
        avail_idx: base,
        next_used: base,
        fault: None,
        stalled: false,
        stall_report: None,
    }
}

pub(crate) proof fn lemma_fresh(queue_index: usize, size: u16, ring: RingOffsets, base: u16)
    ensures
        fresh(queue_index, size, ring, base).wf(),
        fresh(queue_index, size, ring, base).inflight_total() == 0,
        forall|pool: PoolView| #[trigger]
            fresh(queue_index, size, ring, base).backed(pool) == ring_fits(
                ring,
                size as int,
                pool.arena_base as int,
            ),
{
    let q = fresh(queue_index, size, ring, base);
    lemma_occupied_bounds(q.inflight);
    assert forall|slot: u16| slot < size implies #[trigger] q.free_slots.contains(slot) by {
        assert(q.free_slots[size - 1 - slot] == slot);
    }
}

/// A queue's invariants speak of its slots and chains only.
pub(crate) proof fn lemma_wf_ignores_status(a: ShadowView, b: ShadowView)
    requires
        a.wf(),
        b.size == a.size,
        b.free_slots == a.free_slots,
        b.inflight == a.inflight,
    ensures
        b.wf(),
        b.inflight_total() == a.inflight_total(),
        forall|base: u64, h: int, x: int| #[trigger] b.owns(base, h, x) == a.owns(base, h, x),
        forall|base: u64, x: int| #[trigger] b.owns_byte(base, x) == a.owns_byte(base, x),
        forall|pool: PoolView| b.ring == a.ring && a.backed(pool) ==> #[trigger] b.backed(pool),
{
    assert forall|h: int, slot: u16| #[trigger] b.holds(h, slot) == a.holds(h, slot) by {}
    assert forall|base: u64, h: int, x: int| #[trigger]
        b.owns(base, h, x) == a.owns(base, h, x) by {}
    assert forall|slot: u16|
        slot < b.size implies #[trigger] b.free_slots.contains(slot) || exists|h: int|
        #[trigger] b.holds(h, slot) by {
        if !a.free_slots.contains(slot) {
            let h = choose|h: int| #[trigger] a.holds(h, slot);
            assert(b.holds(h, slot));
        }
    }
    assert forall|base: u64, x: int| #[trigger] b.owns_byte(base, x) == a.owns_byte(base, x) by {
        if a.owns_byte(base, x) {
            let h = choose|h: int| #[trigger] a.owns(base, h, x);
            assert(b.owns(base, h, x));
        }
        if b.owns_byte(base, x) {
            let h = choose|h: int| #[trigger] b.owns(base, h, x);
            assert(a.owns(base, h, x));
        }
    }
}

pub(crate) proof fn lemma_conserved_chain(r: Scene, s: Scene, t: Scene)
    requires
        conserved(r, s),
        conserved(s, t),
    ensures
        conserved(r, t),
{
    assert forall|b: int|
        #![trigger t.pool.arena.free_at(b)]
        #![trigger t.queue.owns_byte(t.pool.arena_base, b)]
        #![trigger r.pool.arena.free_at(b)]
        #![trigger r.queue.owns_byte(r.pool.arena_base, b)]
        (t.pool.arena.free_at(b) || t.queue.owns_byte(t.pool.arena_base, b)) == (
        r.pool.arena.free_at(b) || r.queue.owns_byte(r.pool.arena_base, b)) by {
        assert((s.pool.arena.free_at(b) || s.queue.owns_byte(s.pool.arena_base, b)) == (
        r.pool.arena.free_at(b) || r.queue.owns_byte(r.pool.arena_base, b)));
        assert((t.pool.arena.free_at(b) || t.queue.owns_byte(t.pool.arena_base, b)) == (
        s.pool.arena.free_at(b) || s.queue.owns_byte(s.pool.arena_base, b)));
    }
}

/// There are no more free slots than slots.
pub(crate) proof fn lemma_free_slot_count(q: ShadowView)
    requires
        q.wf(),
    ensures
        q.free_slots.len() <= q.size,
{
    assert forall|i: int| 0 <= i < q.free_slots.len() implies (#[trigger] q.free_slots[i])
        < q.size by {
        assert(q.free_slots.contains(q.free_slots[i]));
    }
    lemma_distinct_below(q.free_slots, q.size);
}

/// A chain has no more segments than there are slots.
pub(crate) proof fn lemma_chain_len(q: ShadowView, h: int)
    requires
        q.wf(),
        0 <= h < q.size,
        q.inflight[h] is Some,
    ensures
        q.inflight[h]->0.segments.len() <= q.size,
{
    let c = q.inflight[h]->0;
    assert(chain_ok(c, h));
    assert forall|i: int| 0 <= i < c.slots.len() implies (#[trigger] c.slots[i]) < q.size by {
        assert(c.slots.contains(c.slots[i]));
        assert(q.holds(h, c.slots[i]));
    }
    lemma_distinct_below(c.slots, q.size);
}

/// Distinct numbers below a bound are no more than the bound.
proof fn lemma_distinct_below(s: Seq<u16>, bound: u16)
    requires
        s.no_duplicates(),
        forall|i: int| 0 <= i < s.len() ==> (#[trigger] s[i]) < bound,
    ensures
        s.len() <= bound,
{
    let ints = s.map_values(|x: u16| x as int);
    assert(ints.no_duplicates());
    ints.unique_seq_to_set();
    vstd::set_lib::lemma_int_range(0, bound as int);
    assert forall|x: int| ints.to_set().contains(x) implies vstd::set_lib::set_int_range(
        0,
        bound as int,
    ).contains(x) by {
        let i = choose|i: int| 0 <= i < ints.len() && ints[i] == x;
        assert(s[i] < bound);
    }
    vstd::set_lib::lemma_len_subset(ints.to_set(), vstd::set_lib::set_int_range(0, bound as int));
}

/// When every slot is free, the free stack is as high as the table.
pub(crate) proof fn lemma_all_slots_free(q: ShadowView)
    requires
        q.wf(),
        forall|slot: u16| slot < q.size ==> #[trigger] q.free_slots.contains(slot),
    ensures
        q.free_slots.len() == q.size,
{
    lemma_free_slot_count(q);
    let ints = q.free_slots.map_values(|x: u16| x as int);
    assert(ints.no_duplicates());
    ints.unique_seq_to_set();
    vstd::set_lib::lemma_int_range(0, q.size as int);
    let range = vstd::set_lib::set_int_range(0, q.size as int);
    assert forall|x: int| range.contains(x) implies ints.to_set().contains(x) by {
        assert(q.free_slots.contains(x as u16));
        let i = choose|i: int| 0 <= i < q.free_slots.len() && q.free_slots[i] == x as u16;
        assert(ints[i] == x);
    }
    vstd::set_lib::lemma_len_subset(range, ints.to_set());
}

/// The chains in flight are as many as the table has entries that are taken.
pub proof fn law_occupied_entries(table: Seq<Option<ChainView>>)
    ensures
        ({
            let taken = Set::new(|h: int| 0 <= h < table.len() && table[h] is Some);
            taken.finite() && taken.len() == occupied(table)
        }),
    decreases table.len(),
{
    let taken = Set::new(|h: int| 0 <= h < table.len() && table[h] is Some);
    if table.len() == 0 {
        assert(taken =~= Set::empty());
    } else {
        let init = table.drop_last();
        let before = Set::new(|h: int| 0 <= h < init.len() && init[h] is Some);
        law_occupied_entries(init);
        let last = table.len() - 1;
        if table.last() is Some {
            assert(taken =~= before.insert(last));
        } else {
            assert(taken =~= before);
        }
    }
}

/// A queue that starts a session has every slot free, slot 0 to be taken first,
/// nothing in flight, both counters at the session's base, and is neither
/// stopped nor stalled.
pub proof fn law_what_a_fresh_queue_is(
    queue_index: usize,
    size: u16,
    ring: RingOffsets,
    base: u16,
    i: int,
)
    requires
        0 <= i < size,
    ensures
        ({
            let q = fresh(queue_index, size, ring, base);
            &&& q.queue_index == queue_index
            &&& q.size == size
            &&& q.ring == ring
            &&& q.free_slots.len() == size
            &&& q.free_slots[size - 1 - i] == i
            &&& q.inflight.len() == size
            &&& q.inflight[i] is None
            &&& q.avail_idx == base
            &&& q.next_used == base
            &&& q.fault is None
            &&& !q.stalled
            &&& q.stall_report is None
        }),
{
}

} // verus!
