//! Where the bytes of a pool's arena are when several queues share it.
//!
//! Every byte is free or belongs to a chain in flight, and to one only. So
//! the free bytes and the bytes in flight add up to the arena.

use super::allocator::{self, Extent};
use super::model::{ChainView, ShadowView};
use super::ownership;
use super::shadow_queue::{Segment, ShadowQueue};
use super::worker::{self, BounceShared};
use vstd::prelude::*;

verus! {

/// Arena bytes of the first `n` of `segs`, padding to the granule included.
pub open spec fn segment_bytes(segs: Seq<Segment>, n: int) -> int
    decreases n,
{
    if n <= 0 {
        0
    } else {
        segment_bytes(segs, n - 1) + allocator::rounded(segs[n - 1].len as int)
    }
}

/// Arena bytes of the chains in the first `n` entries of an in-flight table.
pub open spec fn table_bytes(table: Seq<Option<ChainView>>, n: int) -> int
    decreases n,
{
    if n <= 0 {
        0
    } else {
        table_bytes(table, n - 1) + match table[n - 1] {
            Some(chain) => segment_bytes(chain.segments, chain.segments.len() as int),
            None => 0,
        }
    }
}

/// Arena bytes of a queue's chains in flight.
pub open spec fn queue_bytes(q: ShadowView) -> int {
    table_bytes(q.inflight, q.inflight.len() as int)
}

/// Arena bytes in flight on the first `n` queues.
pub open spec fn inflight_bytes(shadow: Seq<ShadowQueue>, n: int) -> int
    decreases n,
{
    if n <= 0 {
        0
    } else {
        inflight_bytes(shadow, n - 1) + queue_bytes(shadow[n - 1]@)
    }
}

/// Whether arena byte `b` belongs to one of the first `n` queues.
pub open spec fn owned(shadow: Seq<ShadowQueue>, base: u64, n: int, b: int) -> bool {
    exists|i: int| 0 <= i < n && (#[trigger] shadow[i])@.owns_byte(base, b)
}

impl BounceShared {
    /// Whether every arena byte is free or belongs to a queue.
    pub open spec fn accounted(self) -> bool {
        forall|b: int|
            0 <= b < self.pool@.arena.capacity ==> #[trigger] self.pool@.arena.free_at(b) || owned(
                self.shadow@,
                self.pool@.arena_base,
                self.shadow@.len() as int,
                b,
            )
    }
}

/// Disjoint finite sets add up.
proof fn lemma_sum(a: Set<int>, b: Set<int>)
    requires
        a.finite(),
        b.finite(),
        forall|x: int| !(#[trigger] a.contains(x) && b.contains(x)),
    ensures
        (a + b).finite(),
        (a + b).len() == a.len() + b.len(),
        forall|x: int| #[trigger] (a + b).contains(x) == (a.contains(x) || b.contains(x)),
{
    assert(a.disjoint(b));
    vstd::set_lib::lemma_set_disjoint_lens(a, b);
}

/// The arena bytes of the first `n` of `segs`.
spec fn segment_set(segs: Seq<Segment>, base: u64, n: int) -> Set<int>
    decreases n,
{
    if n <= 0 {
        Set::empty()
    } else {
        segment_set(segs, base, n - 1) + vstd::set_lib::set_int_range(
            segs[n - 1].pool_addr - base,
            segs[n - 1].pool_addr - base + allocator::rounded(segs[n - 1].len as int),
        )
    }
}

proof fn lemma_segment_set(segs: Seq<Segment>, base: u64, capacity: int, n: int)
    requires
        ownership::segs_ok(segs, base, capacity),
        0 <= n <= segs.len(),
    ensures
        segment_set(segs, base, n).finite(),
        segment_set(segs, base, n).len() == segment_bytes(segs, n),
        forall|b: int| #[trigger]
            segment_set(segs, base, n).contains(b) == exists|i: int|
                0 <= i < n && ownership::seg_has(#[trigger] segs[i], base, b),
    decreases n,
{
    if n > 0 {
        lemma_segment_set(segs, base, capacity, n - 1);
        let s = segs[n - 1];
        let lo = s.pool_addr - base;
        let hi = lo + allocator::rounded(s.len as int);
        let before = segment_set(segs, base, n - 1);
        let own = vstd::set_lib::set_int_range(lo, hi);
        vstd::set_lib::lemma_int_range(lo, hi);
        assert forall|b: int| own.contains(b) == ownership::seg_has(s, base, b) by {}
        assert forall|b: int| !(#[trigger] before.contains(b) && own.contains(b)) by {
            if before.contains(b) && own.contains(b) {
                let i = choose|i: int| 0 <= i < n - 1 && ownership::seg_has(#[trigger] segs[i], base, b);
                assert(ownership::seg_has(segs[n - 1], base, b));
            }
        }
        lemma_sum(before, own);
        let all = segment_set(segs, base, n);
        assert forall|b: int| #[trigger] all.contains(b) == exists|i: int|
            0 <= i < n && ownership::seg_has(#[trigger] segs[i], base, b) by {
            if before.contains(b) {
                let i = choose|i: int| 0 <= i < n - 1 && ownership::seg_has(#[trigger] segs[i], base, b);
                assert(0 <= i < n && ownership::seg_has(segs[i], base, b));
            }
            if own.contains(b) {
                assert(ownership::seg_has(segs[n - 1], base, b));
            }
            if exists|i: int| 0 <= i < n && ownership::seg_has(#[trigger] segs[i], base, b) {
                let i = choose|i: int| 0 <= i < n && ownership::seg_has(#[trigger] segs[i], base, b);
                if i < n - 1 {
                    assert(before.contains(b));
                }
            }
        }
    }
}

/// The arena bytes of the chain in entry `h`, if there is one.
spec fn entry_set(q: ShadowView, base: u64, h: int) -> Set<int> {
    match q.inflight[h] {
        Some(chain) => segment_set(chain.segments, base, chain.segments.len() as int),
        None => Set::empty(),
    }
}

/// The arena bytes of the chains in the first `n` entries.
spec fn table_set(q: ShadowView, base: u64, n: int) -> Set<int>
    decreases n,
{
    if n <= 0 {
        Set::empty()
    } else {
        table_set(q, base, n - 1) + entry_set(q, base, n - 1)
    }
}

proof fn lemma_entry_set(q: ShadowView, base: u64, capacity: int, h: int)
    requires
        0 <= h < q.inflight.len(),
        q.inflight[h] is Some ==> ownership::segs_ok(q.inflight[h]->0.segments, base, capacity),
    ensures
        entry_set(q, base, h).finite(),
        entry_set(q, base, h).len() == table_bytes(q.inflight, h + 1) - table_bytes(q.inflight, h),
        forall|b: int| #[trigger] entry_set(q, base, h).contains(b) == q.owns(base, h, b),
{
    match q.inflight[h] {
        None => {},
        Some(chain) => {
            let segs = chain.segments;
            lemma_segment_set(segs, base, capacity, segs.len() as int);
        },
    }
}

proof fn lemma_table_set(q: ShadowView, base: u64, capacity: int, n: int)
    requires
        0 <= n <= q.inflight.len(),
        forall|h: int|
            0 <= h < q.inflight.len() && (#[trigger] q.inflight[h]) is Some ==> ownership::segs_ok(
                q.inflight[h]->0.segments,
                base,
                capacity,
            ),
        forall|h: int, k: int, b: int| #[trigger]
            q.owns(base, h, b) && #[trigger] q.owns(base, k, b) ==> h == k,
    ensures
        table_set(q, base, n).finite(),
        table_set(q, base, n).len() == table_bytes(q.inflight, n),
        forall|b: int| #[trigger]
            table_set(q, base, n).contains(b) == exists|h: int|
                0 <= h < n && #[trigger] q.owns(base, h, b),
    decreases n,
{
    if n > 0 {
        lemma_table_set(q, base, capacity, n - 1);
        lemma_entry_set(q, base, capacity, n - 1);
        let before = table_set(q, base, n - 1);
        let own = entry_set(q, base, n - 1);
        assert forall|b: int| !(#[trigger] before.contains(b) && own.contains(b)) by {
            if before.contains(b) && own.contains(b) {
                let h = choose|h: int| 0 <= h < n - 1 && #[trigger] q.owns(base, h, b);
                assert(q.owns(base, n - 1, b));
            }
        }
        lemma_sum(before, own);
        let all = table_set(q, base, n);
        assert forall|b: int| #[trigger] all.contains(b) == exists|h: int|
            0 <= h < n && #[trigger] q.owns(base, h, b) by {
            if before.contains(b) {
                let h = choose|h: int| 0 <= h < n - 1 && #[trigger] q.owns(base, h, b);
                assert(0 <= h < n && q.owns(base, h, b));
            }
            if own.contains(b) {
                assert(q.owns(base, n - 1, b));
            }
            if exists|h: int| 0 <= h < n && #[trigger] q.owns(base, h, b) {
                let h = choose|h: int| 0 <= h < n && #[trigger] q.owns(base, h, b);
                if h < n - 1 {
                    assert(before.contains(b));
                } else {
                    assert(own.contains(b));
                }
            }
        }
    }
}

/// The arena bytes of the first `n` queues.
spec fn owned_set(shadow: Seq<ShadowQueue>, base: u64, n: int) -> Set<int>
    decreases n,
{
    if n <= 0 {
        Set::empty()
    } else {
        owned_set(shadow, base, n - 1) + table_set(
            shadow[n - 1]@,
            base,
            shadow[n - 1]@.inflight.len() as int,
        )
    }
}

proof fn lemma_owned_set(shared: BounceShared, n: int)
    requires
        shared.wf(),
        0 <= n <= shared.shadow@.len(),
    ensures
        owned_set(shared.shadow@, shared.pool@.arena_base, n).finite(),
        owned_set(shared.shadow@, shared.pool@.arena_base, n).len() == inflight_bytes(
            shared.shadow@,
            n,
        ),
        forall|b: int| #[trigger]
            owned_set(shared.shadow@, shared.pool@.arena_base, n).contains(b) == owned(
                shared.shadow@,
                shared.pool@.arena_base,
                n,
                b,
            ),
    decreases n,
{
    let shadow = shared.shadow@;
    let base = shared.pool@.arena_base;
    if n > 0 {
        lemma_owned_set(shared, n - 1);
        let q = shadow[n - 1]@;
        assert(shadow[n - 1].wf());
        lemma_table_set(
            q,
            base,
            shared.pool@.arena.capacity as int,
            q.inflight.len() as int,
        );
        let before = owned_set(shadow, base, n - 1);
        let own = table_set(q, base, q.inflight.len() as int);
        assert forall|b: int| #[trigger] own.contains(b) == q.owns_byte(base, b) by {
            if q.owns_byte(base, b) {
                let h = choose|h: int| #[trigger] q.owns(base, h, b);
                assert(0 <= h < q.inflight.len() && q.owns(base, h, b));
            }
        }
        assert forall|b: int| !(#[trigger] before.contains(b) && own.contains(b)) by {
            if before.contains(b) && own.contains(b) {
                let i = choose|i: int|
                    0 <= i < n - 1 && (#[trigger] shadow[i])@.owns_byte(base, b);
                assert(shadow[i]@.owns_byte(base, b));
                assert(shadow[n - 1]@.owns_byte(base, b));
            }
        }
        lemma_sum(before, own);
        let all = owned_set(shadow, base, n);
        assert forall|b: int| #[trigger] all.contains(b) == owned(shadow, base, n, b) by {
            if before.contains(b) {
                let i = choose|i: int|
                    0 <= i < n - 1 && (#[trigger] shadow[i])@.owns_byte(base, b);
                assert(0 <= i < n && shadow[i]@.owns_byte(base, b));
            }
            if own.contains(b) {
                assert(shadow[n - 1]@.owns_byte(base, b));
            }
            if owned(shadow, base, n, b) {
                let i = choose|i: int| 0 <= i < n && (#[trigger] shadow[i])@.owns_byte(base, b);
                if i < n - 1 {
                    assert(before.contains(b));
                } else {
                    assert(own.contains(b));
                }
            }
        }
    }
}

/// The bytes of the extents of `list`.
spec fn extent_set(list: Seq<Extent>) -> Set<int>
    decreases list.len(),
{
    if list.len() == 0 {
        Set::empty()
    } else {
        extent_set(list.drop_last()) + vstd::set_lib::set_int_range(
            list.last().0 as int,
            list.last().0 + list.last().1,
        )
    }
}

proof fn lemma_extent_set(list: Seq<Extent>, capacity: int)
    requires
        allocator::canonical(list, capacity),
    ensures
        extent_set(list).finite(),
        extent_set(list).len() == allocator::total_len(list),
        forall|b: int| #[trigger] extent_set(list).contains(b) == allocator::free_at(list, b),
    decreases list.len(),
{
    if list.len() > 0 {
        let init = list.drop_last();
        let n = list.len() - 1;
        let e = list.last();
        assert forall|i: int| 0 <= i < init.len() implies allocator::extent_ok(
            #[trigger] init[i],
            capacity,
        ) by {
            assert(init[i] == list[i]);
        }
        lemma_extent_set(init, capacity);
        let before = extent_set(init);
        let own = vstd::set_lib::set_int_range(e.0 as int, e.0 + e.1);
        vstd::set_lib::lemma_int_range(e.0 as int, e.0 + e.1);
        assert forall|b: int| !(#[trigger] before.contains(b) && own.contains(b)) by {
            if before.contains(b) && own.contains(b) {
                let i = choose|i: int|
                    0 <= i < init.len() && allocator::in_extent(#[trigger] init[i], b);
                assert(list[i].0 + list[i].1 < list[n].0);
            }
        }
        lemma_sum(before, own);
        let all = extent_set(list);
        assert forall|b: int| #[trigger] all.contains(b) == allocator::free_at(list, b) by {
            if before.contains(b) {
                let i = choose|i: int|
                    0 <= i < init.len() && allocator::in_extent(#[trigger] init[i], b);
                assert(allocator::in_extent(list[i], b));
            }
            if own.contains(b) {
                assert(allocator::in_extent(list[n], b));
            }
            if allocator::free_at(list, b) {
                let i = choose|i: int|
                    0 <= i < list.len() && allocator::in_extent(#[trigger] list[i], b);
                if i < n {
                    assert(allocator::in_extent(init[i], b));
                    assert(before.contains(b));
                }
            }
        }
    }
}

/// A pool that no queue has used yet is accounted for.
pub proof fn law_fresh_pool_is_accounted_for(shared: BounceShared)
    requires
        shared.pool@.arena.capacity > 0 ==> shared.pool@.arena.free == seq![
            (0u64, shared.pool@.arena.capacity),
        ],
    ensures
        shared.accounted(),
{
    let arena = shared.pool@.arena;
    assert forall|b: int| 0 <= b < arena.capacity implies #[trigger] arena.free_at(b) by {
        assert(allocator::in_extent(arena.free[0], b));
    }
}

/// The free bytes and the bytes in flight on all queues add up to the arena.
/// When nothing is in flight, all of it is free, as one extent.
pub proof fn law_free_and_in_flight_add_up(shared: BounceShared)
    requires
        shared.wf(),
        shared.accounted(),
    ensures
        ({
            let arena = shared.pool@.arena;
            let n = shared.shadow@.len() as int;
            &&& allocator::total_len(arena.free) + inflight_bytes(shared.shadow@, n)
                == arena.capacity
            &&& worker::inflight_sum(shared.shadow@, n) == 0 ==> {
                &&& inflight_bytes(shared.shadow@, n) == 0
                &&& allocator::total_len(arena.free) == arena.capacity
                &&& arena.capacity > 0 ==> arena.free == seq![(0u64, arena.capacity)]
            }
        }),
{
    let shadow = shared.shadow@;
    let n = shadow.len() as int;
    let base = shared.pool@.arena_base;
    let arena = shared.pool@.arena;
    lemma_owned_set(shared, n);
    lemma_extent_set(arena.free, arena.capacity as int);
    let free = extent_set(arena.free);
    let used = owned_set(shadow, base, n);
    assert forall|b: int| !(#[trigger] free.contains(b) && used.contains(b)) by {
        if free.contains(b) && used.contains(b) {
            let i = choose|i: int| 0 <= i < n && (#[trigger] shadow[i])@.owns_byte(base, b);
            let h = choose|h: int| #[trigger] shadow[i]@.owns(base, h, b);
            assert(shadow[i].wf());
            assert(arena.free_at(b));
        }
    }
    lemma_sum(free, used);
    let all = vstd::set_lib::set_int_range(0, arena.capacity as int);
    assert forall|b: int| #[trigger] (free + used).contains(b) == all.contains(b) by {
        if free.contains(b) {
            let i = choose|i: int|
                0 <= i < arena.free.len() && allocator::in_extent(#[trigger] arena.free[i], b);
            assert(allocator::extent_ok(arena.free[i], arena.capacity as int));
        }
        if used.contains(b) {
            let i = choose|i: int| 0 <= i < n && (#[trigger] shadow[i])@.owns_byte(base, b);
            let h = choose|h: int| #[trigger] shadow[i]@.owns(base, h, b);
            assert(shadow[i].wf());
            let segs = shadow[i]@.inflight[h]->0.segments;
            let k = choose|k: int|
                0 <= k < segs.len() && ownership::seg_has(#[trigger] segs[k], base, b);
            assert(ownership::seg_in_arena(segs[k], base, arena.capacity as int));
        }
        if all.contains(b) {
            assert(arena.free_at(b) || owned(shadow, base, n, b));
        }
    }
    assert(free + used =~= all);
    vstd::set_lib::lemma_int_range(0, arena.capacity as int);
    if worker::inflight_sum(shadow, n) == 0 {
        lemma_idle(shared, n);
        assert(used =~= Set::empty()) by {
            assert forall|b: int| !used.contains(b) by {
                if used.contains(b) {
                    let i = choose|i: int| 0 <= i < n && (#[trigger] shadow[i])@.owns_byte(base, b);
                    let h = choose|h: int| #[trigger] shadow[i]@.owns(base, h, b);
                    ownership::lemma_occupied_bounds(shadow[i]@.inflight);
                    assert(shadow[i]@.inflight[h] is None);
                }
            }
        }
        assert forall|b: int| 0 <= b < arena.capacity implies #[trigger] arena.free_at(b) by {
            assert(all.contains(b));
            assert((free + used).contains(b));
        }
        allocator::law_whole_arena_free(arena);
    }
}

/// When nothing is in flight in all, nothing is on any queue.
proof fn lemma_idle(shared: BounceShared, n: int)
    requires
        shared.wf(),
        0 <= n <= shared.shadow@.len(),
        worker::inflight_sum(shared.shadow@, n) == 0,
    ensures
        forall|i: int| 0 <= i < n ==> (#[trigger] shared.shadow@[i])@.inflight_total() == 0,
    decreases n,
{
    if n > 0 {
        worker::lemma_inflight_sum(shared.shadow@, n - 1);
        ownership::lemma_occupied_bounds(shared.shadow@[n - 1]@.inflight);
        lemma_idle(shared, n - 1);
    }
}

/// The free bytes of an arena are counted one by one.
pub proof fn law_free_bytes_are_counted(arena: allocator::Arena)
    requires
        arena.wf(),
    ensures
        ({
            let free = Set::new(
                |b: int|
                    exists|i: int|
                        0 <= i < arena.free.len() && (#[trigger] arena.free[i]).0 <= b
                            < arena.free[i].0 + arena.free[i].1,
            );
            free.finite() && free.len() == allocator::total_len(arena.free)
        }),
{
    lemma_extent_set(arena.free, arena.capacity as int);
    let free = Set::new(
        |b: int|
            exists|i: int|
                0 <= i < arena.free.len() && (#[trigger] arena.free[i]).0 <= b < arena.free[i].0
                    + arena.free[i].1,
    );
    assert forall|b: int| free.contains(b) == #[trigger] extent_set(arena.free).contains(b) by {
        allocator::law_free_bytes_are_those_of_the_extents(arena, b);
        assert(extent_set(arena.free).contains(b) == allocator::free_at(arena.free, b));
    }
    assert(free =~= extent_set(arena.free));
}

} // verus!
