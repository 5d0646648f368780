//! What the guest and the backend can rely on, one step of mirroring or
//! completing at a time, in terms of the bytes that are read and written.

use super::allocator::{self, Arena};
use super::laws;
use super::memory::{self, Access, LoadOrder};
use super::model::{self, Arrival, ChainView, Completion, Harvest, Scene, ShadowView};
use super::ownership;
use super::ring::{Descriptor, RingState};
use super::shadow_queue::{CompleteOutcome, MirrorOutcome, QueueFault, Segment, StallReport};
use vstd::prelude::*;

verus! {

/// Whether one of the accesses of `log` from the one with number `from` on reads
/// `value` at address `b`.
pub open spec fn read_since(log: Seq<Access>, from: int, b: int, value: u8) -> bool {
    exists|j: int| from <= j < log.len() && #[trigger] reads_byte(log[j], b, value)
}

/// Whether an access reads `value` at address `b`.
pub open spec fn reads_byte(a: Access, b: int, value: u8) -> bool {
    a matches Access::Read { addr, bytes } && addr <= b < addr + bytes.len() && bytes[b - addr]
        == value
}

/// Data that is read piece by piece is read in full: every byte of it comes
/// from its own address.
proof fn lemma_pieces_read_the_data(addr: u64, data: Seq<u8>, chunk: int, k: int)
    requires
        chunk > 0,
        addr + data.len() <= u64::MAX,
        0 <= k < data.len(),
    ensures
        exists|j: int|
            0 <= j < memory::piecewise_reads(addr as int, data, chunk).len()
                && #[trigger] reads_byte(
                memory::piecewise_reads(addr as int, data, chunk)[j],
                addr + k,
                data[k],
            ),
    decreases data.len(),
{
    let start = memory::last_piece(data.len() as int, chunk);
    assert(0 <= start < data.len()) by {
        lemma_last_start(data.len() as int, chunk);
    }
    let all = memory::piecewise_reads(addr as int, data, chunk);
    let rest = memory::piecewise_reads(addr as int, data.take(start), chunk);
    if k < start {
        lemma_pieces_read_the_data(addr, data.take(start), chunk, k);
        let j = choose|j: int|
            0 <= j < rest.len() && #[trigger] reads_byte(rest[j], addr + k, data.take(start)[k]);
        assert(all[j] == rest[j]);
        assert(reads_byte(all[j], addr + k, data[k]));
    } else {
        let j = rest.len() as int;
        assert(all[j] == (Access::Read { addr: (addr + start) as u64, bytes: data.skip(start) }));
        assert(reads_byte(all[j], addr + k, data[k]));
    }
}

proof fn lemma_last_start(len: int, chunk: int)
    requires
        len > 0,
        chunk > 0,
    ensures
        0 <= memory::last_piece(len, chunk) < len,
{
    let q = (len - 1) / chunk;
    assert(0 <= q * chunk <= len - 1) by (nonlinear_arith)
        requires
            q == (len - 1) / chunk,
            len > 0,
            chunk > 0,
    ;
}

// ---- Mirroring ----

/// The avail entry that hands a chain to the backend: the last access to the
/// pool puts the shadow head into the entry of the shadow avail ring that the
/// avail index stands for, and the index moves on by one. The head was free
/// before, and the chain is now in flight under it, with the guest's own head;
/// no other entry of the table changes.
pub proof fn law_published_chain_is_in_flight(s: Scene, map: Set<int>, a: Arrival, h: int)
    requires
        ownership::scene_ok(s),
        model::verdict(s, map, a) is Publish,
        model::arrival_ok(a),
    ensures
        ({
            let t = model::arrive(s, map, a);
            &&& t.pool.log.len() > s.pool.log.len()
            &&& t.pool.log.last() matches Access::WriteU16 { addr, value }
            &&& addr == s.queue.ring.avail + 4 + 2 * (s.queue.avail_idx as int
                % s.queue.size as int)
            &&& value < s.queue.size
            &&& s.queue.inflight[value as int] is None
            &&& t.queue.inflight.len() == s.queue.inflight.len()
            &&& t.queue.inflight[value as int] matches Some(chain)
            &&& chain.guest_head == a.head
            &&& chain.slots.len() == a.descs.len()
            &&& chain.segments.len() == a.descs.len()
            &&& chain.slots[0] == value
            &&& 0 <= h < s.queue.size && h != value ==> t.queue.inflight[h] == s.queue.inflight[h]
            &&& t.queue.avail_idx == (s.queue.avail_idx + 1) % 65536
            &&& t.ring.next_avail == (s.ring.next_avail + 1) % 65536
            &&& t.queue.next_used == s.queue.next_used
            &&& t.ring == (RingState { next_avail: t.ring.next_avail, ..s.ring })
            &&& t.queue.fault == s.queue.fault
            &&& t.queue.queue_index == s.queue.queue_index
            &&& !t.queue.stalled
            &&& t.queue.stall_report is None
            &&& t.queue.size == s.queue.size
            &&& t.queue.ring == s.queue.ring
        }),
{
    let n = a.descs.len() as int;
    let slots = model::next_slots(s.queue.free_slots, n);
    let t = model::arrive(s, map, a);
    ownership::lemma_published(s, map, a);
    ownership::lemma_next_slots(s.queue.free_slots, n);
    ownership::lemma_reserve(s.pool.arena, s.pool.arena_base, a.descs);
    assert(slots.contains(slots[0]));
    assert(s.queue.free_slots.contains(slots[0]));
    assert(s.queue.size > 0);
    assert(0 <= s.queue.avail_idx as int % s.queue.size as int <= s.queue.size - 1);
    assert(t.pool.log.last() == (Access::WriteU16 {
        addr: (s.queue.ring.avail + 4 + 2 * (s.queue.avail_idx as int % s.queue.size as int))
            as u64,
        value: slots[0],
    }));
}

/// What is written into the shadow descriptor table: just before the avail
/// entry, one descriptor per guest descriptor, in the order of the chain, each
/// into its own slot of the table. Descriptor `i` points at the extent of
/// buffer `i`, has the guest's length and the guest's direction, and names the
/// next slot exactly if it is not the last.
pub proof fn law_shadow_descriptors_are_written(s: Scene, map: Set<int>, a: Arrival, i: int)
    requires
        ownership::scene_ok(s),
        model::verdict(s, map, a) is Publish,
        model::arrival_ok(a),
        0 <= i < a.descs.len(),
    ensures
        ({
            let t = model::arrive(s, map, a);
            let n = a.descs.len() as int;
            let more = i + 1 < n;
            &&& t.pool.log.len() >= s.pool.log.len() + n + 1
            &&& t.pool.log.last() matches Access::WriteU16 { value, .. }
            &&& t.queue.inflight[value as int] matches Some(chain)
            &&& t.pool.log[t.pool.log.len() - 1 - n + i] == (Access::WriteDesc {
                addr: (s.queue.ring.desc + 16 * chain.slots[i]) as u64,
                desc: Descriptor {
                    addr: chain.segments[i].pool_addr,
                    len: a.descs[i].len,
                    flags: if a.descs[i].flags & 2 != 0 && more {
                        3
                    } else if a.descs[i].flags & 2 != 0 {
                        2
                    } else if more {
                        1
                    } else {
                        0
                    },
                    next: if more {
                        chain.slots[i + 1]
                    } else {
                        0
                    },
                },
            })
            &&& s.queue.ring.desc + 16 * chain.slots[i] + 16 <= s.pool.arena_base
        }),
{
    let n = a.descs.len() as int;
    let slots = model::next_slots(s.queue.free_slots, n);
    let t = model::arrive(s, map, a);
    let r = model::reserve(s.pool.arena, s.pool.arena_base, a.descs);
    law_published_chain_is_in_flight(s, map, a, 0);
    ownership::lemma_reserve(s.pool.arena, s.pool.arena_base, a.descs);
    ownership::lemma_next_slots(s.queue.free_slots, n);
    let writes = model::desc_writes(s.queue.ring, r.segments, slots);
    assert(t.pool.log[t.pool.log.len() - 1 - n + i] == writes[i]);
    assert(r.segments[i] == model::segment_of(a.descs[i], r.segments[i].pool_addr));
    assert(slots.contains(slots[i]));
    assert(s.queue.free_slots.contains(slots[i]));
    assert(2u16 | 1u16 == 3u16 && 2u16 | 0u16 == 2u16 && 0u16 | 1u16 == 1u16 && 0u16 | 0u16 == 0u16)
        by (bit_vector);
}

/// What a published chain holds: its slots were free and are not free any more,
/// no two of them are the same, and every buffer is remembered with the guest's
/// address, length and direction.
pub proof fn law_published_chain_remembers_the_guest_chain(
    s: Scene,
    map: Set<int>,
    a: Arrival,
    i: int,
    j: int,
)
    requires
        ownership::scene_ok(s),
        model::verdict(s, map, a) is Publish,
        model::arrival_ok(a),
        0 <= i < a.descs.len(),
        0 <= j < a.descs.len(),
    ensures
        ({
            let t = model::arrive(s, map, a);
            &&& t.pool.log.last() matches Access::WriteU16 { value, .. }
            &&& t.queue.inflight[value as int] matches Some(chain)
            &&& s.queue.free_slots.contains(chain.slots[i])
            &&& !t.queue.free_slots.contains(chain.slots[i])
            &&& i != j ==> chain.slots[i] != chain.slots[j]
            &&& t.queue.free_slots.len() == s.queue.free_slots.len() - a.descs.len()
            &&& chain.segments[i].guest_addr == a.descs[i].addr
            &&& chain.segments[i].len == a.descs[i].len
            &&& chain.segments[i].writable <==> a.descs[i].flags & 2 != 0
        }),
{
    let n = a.descs.len() as int;
    let slots = model::next_slots(s.queue.free_slots, n);
    let r = model::reserve(s.pool.arena, s.pool.arena_base, a.descs);
    law_published_chain_is_in_flight(s, map, a, 0);
    ownership::lemma_reserve(s.pool.arena, s.pool.arena_base, a.descs);
    ownership::lemma_next_slots(s.queue.free_slots, n);
    assert(r.segments[i] == model::segment_of(a.descs[i], r.segments[i].pool_addr));
    assert(slots.contains(slots[i]));
    assert(s.queue.free_slots.contains(slots[i]));
}

/// Where the buffers of a published chain are: each one that has bytes in a run
/// of the arena of its own, on a granule of 64 bytes, that was free before and
/// is not free any more. An empty buffer has no place.
pub proof fn law_published_buffers_are_in_the_arena(
    s: Scene,
    map: Set<int>,
    a: Arrival,
    i: int,
    j: int,
    x: int,
)
    requires
        ownership::scene_ok(s),
        model::verdict(s, map, a) is Publish,
        model::arrival_ok(a),
        0 <= i < a.descs.len(),
        0 <= j < a.descs.len(),
        i != j,
    ensures
        ({
            let t = model::arrive(s, map, a);
            let base = s.pool.arena_base;
            &&& t.pool.log.last() matches Access::WriteU16 { value, .. }
            &&& t.queue.inflight[value as int] matches Some(chain)
            &&& a.descs[i].len == 0 ==> chain.segments[i].pool_addr == 0
            &&& a.descs[i].len != 0 ==> {
                let off = chain.segments[i].pool_addr - base;
                let room = ((a.descs[i].len + 63) / 64) * 64;
                &&& off >= 0
                &&& off % 64 == 0
                &&& off + room <= s.pool.arena.capacity
                &&& off <= x < off + room ==> s.pool.arena.free_at(x) && !t.pool.arena.free_at(x)
                &&& off <= x < off + room && a.descs[j].len != 0 ==> !(chain.segments[j].pool_addr
                    - base <= x < chain.segments[j].pool_addr - base + a.descs[j].len)
            }
        }),
{
    let base = s.pool.arena_base;
    let r = model::reserve(s.pool.arena, base, a.descs);
    law_published_chain_is_in_flight(s, map, a, 0);
    law_published_chain_remembers_the_guest_chain(s, map, a, i, j);
    law_published_chain_remembers_the_guest_chain(s, map, a, j, i);
    ownership::lemma_reserve(s.pool.arena, base, a.descs);
    assert(ownership::seg_in_arena(r.segments[i], base, s.pool.arena.capacity as int));
    laws::law_shadow_chain_mirrors_the_guest_chain(s, map, a, i);
    if a.descs[i].len != 0 {
        let off = r.segments[i].pool_addr - base;
        if off <= x < off + ((a.descs[i].len + 63) / 64) * 64 {
            assert(ownership::seg_has(r.segments[i], base, x));
            assert(ownership::segs_have(r.segments, base, x));
            if i < j {
                assert(!ownership::seg_has(r.segments[j], base, x));
            } else if ownership::seg_has(r.segments[j], base, x) {
                assert(!ownership::seg_has(r.segments[i], base, x));
            }
        }
    }
}

/// What a device-readable buffer brings: every byte of it was read from the
/// guest's buffer since the chain arrived, and stands in the pool where the
/// shadow descriptor points. Of a device-writable buffer nothing is read.
pub proof fn law_guest_bytes_reach_the_pool(s: Scene, map: Set<int>, a: Arrival, i: int, k: int)
    requires
        ownership::scene_ok(s),
        model::verdict(s, map, a) is Publish,
        model::arrival_ok(a),
        0 <= i < a.descs.len(),
    ensures
        ({
            let t = model::arrive(s, map, a);
            let readable = a.descs[i].flags & 2 == 0;
            &&& a.data.len() == a.descs.len()
            &&& a.data[i].len() == if readable {
                a.descs[i].len as int
            } else {
                0
            }
            &&& t.pool.log.last() matches Access::WriteU16 { value, .. }
            &&& t.queue.inflight[value as int] matches Some(chain)
            &&& readable && 0 <= k < a.descs[i].len ==> {
                &&& read_since(t.guest, s.guest.len() as int, a.descs[i].addr + k, a.data[i][k])
                &&& laws::payload_at(t.pool.log, chain.segments[i].pool_addr + k) == Some(
                    a.data[i][k],
                )
            }
        }),
{
    let t = model::arrive(s, map, a);
    let base = s.pool.arena_base;
    let segs = model::reserve(s.pool.arena, base, a.descs).segments;
    law_published_chain_is_in_flight(s, map, a, 0);
    ownership::lemma_reserve(s.pool.arena, base, a.descs);
    assert(a.data[i].len() == model::reads_len(a.descs[i]));
    if a.descs[i].flags & 2 == 0 && 0 <= k < a.descs[i].len {
        laws::law_readable_data_reaches_the_pool(s, map, a, i, k);
        assert forall|m: int| 0 <= m < segs.len() && (#[trigger] a.data[m]).len() > 0 implies {
            &&& segs[m].guest_addr + a.data[m].len() <= u64::MAX
            &&& segs[m].guest_addr == a.descs[m].addr
        } by {
            assert(segs[m] == model::segment_of(a.descs[m], segs[m].pool_addr));
        }
        lemma_copy_in_reads_each(segs, a.data, i, k);
        let reads = model::copy_in_reads(segs, a.data);
        let before = model::taken(s, a).guest;
        let j = choose|j: int|
            0 <= j < reads.len() && #[trigger] reads_byte(
                reads[j],
                a.descs[i].addr + k,
                a.data[i][k],
            );
        assert(t.guest == before + reads);
        assert(t.guest[before.len() + j] == reads[j]);
        assert(reads_byte(t.guest[before.len() + j], a.descs[i].addr + k, a.data[i][k]));
    }
}

proof fn lemma_copy_in_reads_each(segs: Seq<Segment>, data: Seq<Seq<u8>>, i: int, k: int)
    requires
        data.len() == segs.len(),
        0 <= i < segs.len(),
        0 <= k < data[i].len(),
        segs[i].guest_addr + data[i].len() <= u64::MAX,
    ensures
        exists|j: int|
            0 <= j < model::copy_in_reads(segs, data).len() && #[trigger] reads_byte(
                model::copy_in_reads(segs, data)[j],
                segs[i].guest_addr + k,
                data[i][k],
            ),
    decreases segs.len(),
{
    let all = model::copy_in_reads(segs, data);
    let rest = model::copy_in_reads(segs.drop_last(), data.drop_last());
    let b = segs[i].guest_addr + k;
    if i < segs.len() - 1 {
        lemma_copy_in_reads_each(segs.drop_last(), data.drop_last(), i, k);
        let j = choose|j: int|
            0 <= j < rest.len() && #[trigger] reads_byte(rest[j], b, data.drop_last()[i][k]);
        assert(all[j] == rest[j]);
        assert(reads_byte(all[j], b, data[i][k]));
    } else {
        let own = memory::piecewise_reads(
            segs[i].guest_addr as int,
            data[i],
            model::copy_chunk(),
        );
        lemma_pieces_read_the_data(segs[i].guest_addr, data[i], model::copy_chunk(), k);
        let j = choose|j: int| 0 <= j < own.len() && #[trigger] reads_byte(own[j], b, data[i][k]);
        assert(all[rest.len() + j] == own[j]);
        assert(reads_byte(all[rest.len() + j], b, data[i][k]));
    }
}

/// Whether the flags of the head can be looked at: they are two bytes at offset
/// 12 of the head's descriptor, 16 bytes apiece, and were loaded.
pub open spec fn head_seen(s: Scene, a: Arrival) -> bool {
    s.ring.desc_table + 16 * a.head + 12 <= u64::MAX && a.flags is Some
}

/// Whether a chain is whole: it has a descriptor, and the last one does not
/// name another (flag 1).
pub open spec fn chain_whole(descs: Seq<Descriptor>) -> bool {
    descs.len() > 0 && descs[descs.len() - 1].flags & 1 == 0
}

/// Whether every byte of every buffer of the chain is mapped.
pub open spec fn bytes_mapped(map: Set<int>, descs: Seq<Descriptor>) -> bool {
    forall|i: int, b: int|
        #![trigger descs[i], map.contains(b)]
        0 <= i < descs.len() && descs[i].addr <= b < descs[i].addr + descs[i].len ==> map.contains(b)
}

/// Which chains are refused, and why: one whose head cannot be looked at, one
/// whose head refers to an indirect table (flag 4), one that is not whole, and
/// one with a buffer outside guest memory, in this order. Any other chain is
/// published or, for lack of room, left for later.
pub proof fn law_which_chains_are_refused(s: Scene, map: Set<int>, a: Arrival)
    ensures
        ({
            let v = model::verdict(s, map, a);
            let indirect = a.flags matches Some(flags) && flags & 4 != 0;
            &&& v == model::Verdict::Broken(QueueFault::DescTableInaccessible) <==> !head_seen(s, a)
            &&& head_seen(s, a) ==> {
                &&& v == model::Verdict::Broken(QueueFault::IndirectDescriptors) <==> indirect
                &&& !indirect ==> {
                    &&& v == model::Verdict::Broken(QueueFault::MalformedChain) <==> !chain_whole(
                        a.descs,
                    )
                    &&& chain_whole(a.descs) ==> {
                        &&& v == model::Verdict::Broken(QueueFault::BufferOutsideGuestMemory)
                            <==> !bytes_mapped(map, a.descs)
                        &&& v is Publish || v is Stall <==> bytes_mapped(map, a.descs)
                    }
                }
            }
        }),
{
    let mapped = model::buffers_mapped(map, a.descs);
    if mapped {
        assert forall|i: int, b: int|
            #![trigger a.descs[i], map.contains(b)]
            0 <= i < a.descs.len() && a.descs[i].addr <= b < a.descs[i].addr
                + a.descs[i].len implies map.contains(b) by {
            assert(memory::covers(map, a.descs[i].addr, a.descs[i].len as int));
        }
    }
    if bytes_mapped(map, a.descs) {
        assert forall|i: int| 0 <= i < a.descs.len() && (#[trigger] a.descs[i]).len
            != 0 implies memory::covers(map, a.descs[i].addr, a.descs[i].len as int) by {
            assert forall|b: int|
                a.descs[i].addr <= b < a.descs[i].addr + a.descs[i].len implies #[trigger] map.contains(
                b,
            ) by {
                let d = a.descs[i];
            }
        }
    }
}

/// Whether there is room for buffer `i` once those before it have theirs.
pub open spec fn room_for(arena: Arena, base: u64, descs: Seq<Descriptor>, i: int) -> bool {
    descs[i].len == 0 || exists|start: int| #[trigger]
        allocator::run_is_free(
            model::reserve(arena, base, descs.take(i)).arena,
            start,
            ((descs[i].len + 63) / 64) * 64,
        )
}

/// A chain that is not refused is published exactly when there are slots enough
/// for its descriptors and every buffer finds a run of free arena bytes, once
/// the buffers before it have theirs.
pub proof fn law_which_chains_are_left_for_later(s: Scene, map: Set<int>, a: Arrival)
    requires
        ownership::scene_ok(s),
        !(model::verdict(s, map, a) is Broken),
    ensures
        model::verdict(s, map, a) is Publish <==> a.descs.len() <= s.queue.free_slots.len() && (
        forall|i: int|
            0 <= i < a.descs.len() ==> #[trigger] room_for(
                s.pool.arena,
                s.pool.arena_base,
                a.descs,
                i,
            )),
{
    lemma_room(s.pool.arena, s.pool.arena_base, a.descs);
}

proof fn lemma_room(arena: Arena, base: u64, descs: Seq<Descriptor>)
    requires
        arena.wf(),
        base + arena.capacity <= u64::MAX,
    ensures
        model::reserve(arena, base, descs).complete <==> forall|i: int|
            0 <= i < descs.len() ==> #[trigger] room_for(arena, base, descs, i),
    decreases descs.len(),
{
    if descs.len() > 0 {
        let init = descs.drop_last();
        let n = init.len() as int;
        let p = model::reserve(arena, base, init);
        lemma_room(arena, base, init);
        ownership::lemma_reserve(arena, base, init);
        assert(descs.take(n) =~= init);
        allocator::law_when_a_request_is_met(p.arena, descs[n].len as int);
        assert forall|i: int| 0 <= i < n implies #[trigger] room_for(arena, base, descs, i)
            == room_for(arena, base, init, i) by {
            assert(descs.take(i) =~= init.take(i));
        }
        if model::reserve(arena, base, descs).complete {
            assert forall|i: int| 0 <= i < descs.len() implies #[trigger] room_for(
                arena,
                base,
                descs,
                i,
            ) by {
                if i < n {
                    assert(room_for(arena, base, init, i));
                }
            }
        } else if forall|i: int|
            0 <= i < descs.len() ==> #[trigger] room_for(arena, base, descs, i) {
            assert forall|i: int| 0 <= i < init.len() implies #[trigger] room_for(
                arena,
                base,
                init,
                i,
            ) by {
                assert(room_for(arena, base, descs, i));
            }
            assert(room_for(arena, base, descs, n));
        }
    }
}

/// What room the buffers of a chain take: the bytes of the arena that are free
/// before are those that are free after and those of the buffers, with padding
/// to granules of 64 bytes, and no byte is counted twice.
pub proof fn law_reserving_takes_what_the_buffers_need(s: Scene, map: Set<int>, a: Arrival, x: int)
    requires
        ownership::scene_ok(s),
        model::verdict(s, map, a) is Publish,
        model::arrival_ok(a),
    ensures
        ({
            let t = model::arrive(s, map, a);
            let base = s.pool.arena_base;
            &&& t.pool.arena.capacity == s.pool.arena.capacity
            &&& t.pool.arena_base == s.pool.arena_base
            &&& t.pool.size == s.pool.size
            &&& t.pool.rings == s.pool.rings
            &&& t.pool.log.last() matches Access::WriteU16 { value, .. }
            &&& t.queue.inflight[value as int] matches Some(chain)
            &&& t.pool.arena.free_at(x) <==> s.pool.arena.free_at(x) && !in_buffers(
                chain.segments,
                base,
                x,
            )
        }),
{
    let base = s.pool.arena_base;
    let r = model::reserve(s.pool.arena, base, a.descs);
    law_published_chain_is_in_flight(s, map, a, 0);
    ownership::lemma_reserve(s.pool.arena, base, a.descs);
    lemma_in_buffers(r.segments, base, x);
    assert(s.pool.arena.free_at(x) == (r.arena.free_at(x) || ownership::segs_have(
        r.segments,
        base,
        x,
    )));
}

/// Whether arena byte `x` belongs to one of the buffers, padding included.
pub open spec fn in_buffers(segs: Seq<Segment>, base: u64, x: int) -> bool {
    exists|i: int|
        0 <= i < segs.len() && (#[trigger] segs[i]).len != 0 && segs[i].pool_addr - base <= x
            < segs[i].pool_addr - base + ((segs[i].len + 63) / 64) * 64
}

proof fn lemma_in_buffers(segs: Seq<Segment>, base: u64, x: int)
    ensures
        in_buffers(segs, base, x) == ownership::segs_have(segs, base, x),
{
    if in_buffers(segs, base, x) {
        let i = choose|i: int|
            0 <= i < segs.len() && (#[trigger] segs[i]).len != 0 && segs[i].pool_addr - base <= x
                < segs[i].pool_addr - base + ((segs[i].len + 63) / 64) * 64;
        assert(ownership::seg_has(segs[i], base, x));
    }
    if ownership::segs_have(segs, base, x) {
        let i = choose|i: int| 0 <= i < segs.len() && ownership::seg_has(#[trigger] segs[i], base, x);
        assert(segs[i].len != 0);
    }
}

/// The arena bytes that the first `n` buffers of a chain need, in granules of 64
/// bytes.
pub open spec fn granules(descs: Seq<Descriptor>, n: int) -> int
    decreases n,
{
    if n <= 0 {
        0
    } else {
        granules(descs, n - 1) + (descs[n - 1].len + 63) / 64
    }
}

/// What is said about a chain that is left for later: the queue is stalled, and
/// a chain that needs more than the whole arena is reported, with what it needs
/// and what there is, unless this stall has been reported already.
pub proof fn law_oversized_chains_are_reported(s: Scene, map: Set<int>, a: Arrival)
    requires
        model::verdict(s, map, a) is Stall,
    ensures
        ({
            let t = model::arrive(s, map, a);
            let need = 64 * granules(a.descs, a.descs.len() as int);
            &&& t.queue.stalled
            &&& t.queue.fault == s.queue.fault
            &&& t.queue.stall_report == if s.queue.stall_report is Some || need
                <= s.pool.arena.capacity {
                s.queue.stall_report
            } else {
                Some(StallReport { needed: need as u64, capacity: s.pool.arena.capacity })
            }
        }),
{
    lemma_granules(a.descs);
}

proof fn lemma_granules(descs: Seq<Descriptor>)
    ensures
        model::arena_need(descs) == 64 * granules(descs, descs.len() as int),
    decreases descs.len(),
{
    if descs.len() > 0 {
        lemma_granules(descs.drop_last());
        lemma_granules_prefix(descs.drop_last(), descs, descs.len() - 1);
    }
}

proof fn lemma_granules_prefix(short: Seq<Descriptor>, long: Seq<Descriptor>, n: int)
    requires
        n <= short.len() <= long.len(),
        forall|i: int| 0 <= i < short.len() ==> short[i] == long[i],
    ensures
        granules(short, n) == granules(long, n),
    decreases n,
{
    if n > 0 {
        lemma_granules_prefix(short, long, n - 1);
    }
}

/// What a queue does about a chain that it refuses: it stops, with the reason,
/// and changes nothing else of its own or of the pool. The chain stays taken off
/// the guest's avail ring.
pub proof fn law_refused_chains_stop_the_queue(s: Scene, map: Set<int>, a: Arrival)
    requires
        model::verdict(s, map, a) is Broken,
    ensures
        ({
            let t = model::arrive(s, map, a);
            &&& model::verdict(s, map, a) matches model::Verdict::Broken(fault)
            &&& t.queue.fault == Some(fault)
            &&& t.pool == s.pool
            &&& t.queue.free_slots == s.queue.free_slots
            &&& t.queue.inflight == s.queue.inflight
            &&& t.queue.avail_idx == s.queue.avail_idx
            &&& t.queue.next_used == s.queue.next_used
            &&& t.queue.stalled == s.queue.stalled
            &&& t.queue.stall_report == s.queue.stall_report
            &&& t.ring.next_avail == (s.ring.next_avail + 1) % 65536
            &&& t.ring == (RingState { next_avail: t.ring.next_avail, ..s.ring })
        }),
{
}

/// What is read of the guest for a chain, in order: the avail entry, the raw
/// flags of the head, and then, unless the head refers to an indirect table or
/// could not be looked at, the descriptors. Only a chain that is published has
/// its buffers read, after that.
pub proof fn law_what_is_read_of_a_chain(s: Scene, map: Set<int>, a: Arrival)
    ensures
        ({
            let t = model::arrive(s, map, a);
            let n = s.guest.len() as int;
            let fits = s.ring.desc_table + 16 * a.head + 12 <= u64::MAX;
            let plain = a.flags matches Some(flags) && flags & 4 == 0;
            &&& t.guest.len() > n
            &&& t.guest.take(n) == s.guest
            &&& t.guest[n] == (Access::PopChain { popped: Some(a.head) })
            &&& fits ==> t.guest.len() > n + 1 && t.guest[n + 1] == (Access::LoadU16 {
                addr: (s.ring.desc_table + 16 * a.head + 12) as u64,
                order: LoadOrder::Relaxed,
                loaded: a.flags,
            })
            &&& fits && plain ==> t.guest.len() > n + 2 && t.guest[n + 2] == (Access::WalkChain {
                head: a.head,
                descs: a.descs,
            })
            &&& !(model::verdict(s, map, a) is Publish) ==> t.guest.len() == n + 1 + (if fits {
                1int
            } else {
                0
            }) + (if fits && plain {
                1int
            } else {
                0
            })
            &&& forall|j: int|
                n + 3 <= j < t.guest.len() ==> (#[trigger] t.guest[j]) is Read
        }),
{
    let t = model::arrive(s, map, a);
    let segs = model::reserve(s.pool.arena, s.pool.arena_base, a.descs).segments;
    let reads = model::copy_in_reads(segs, a.data);
    let before = model::taken(s, a).guest;
    lemma_all_reads(segs, a.data);
    assert(before.take(s.guest.len() as int) =~= s.guest);
    if model::verdict(s, map, a) is Publish {
        assert(t.guest == before + reads);
        assert(t.guest.take(s.guest.len() as int) =~= s.guest);
        assert forall|j: int| s.guest.len() + 3 <= j < t.guest.len() implies (
        #[trigger] t.guest[j]) is Read by {
            assert(t.guest[j] == reads[j - before.len()]);
        }
    } else {
        assert(t.guest == before);
    }
}

proof fn lemma_all_reads(segs: Seq<Segment>, data: Seq<Seq<u8>>)
    ensures
        forall|j: int|
            0 <= j < model::copy_in_reads(segs, data).len() ==> (#[trigger] model::copy_in_reads(
                segs,
                data,
            )[j]) is Read,
    decreases segs.len(),
{
    if segs.len() > 0 {
        lemma_all_reads(segs.drop_last(), data.drop_last());
        lemma_pieces_only_read(segs.last().guest_addr as int, data.last());
    }
}

proof fn lemma_pieces_only_read(addr: int, data: Seq<u8>)
    ensures
        forall|j: int|
            0 <= j < memory::piecewise_reads(addr, data, model::copy_chunk()).len() ==> (
            #[trigger] memory::piecewise_reads(addr, data, model::copy_chunk())[j]) is Read,
    decreases data.len(),
{
    let start = memory::last_piece(data.len() as int, model::copy_chunk());
    if data.len() > 0 && 0 <= start < data.len() {
        lemma_pieces_only_read(addr, data.take(start));
    }
}

/// Whether a read lies in a device-readable buffer of the chain.
pub open spec fn reads_within(a: Access, descs: Seq<Descriptor>) -> bool {
    a matches Access::Read { addr, bytes } && exists|i: int|
        0 <= i < descs.len() && (#[trigger] descs[i]).flags & 2 == 0 && descs[i].addr <= addr && addr
            + bytes.len() <= descs[i].addr + descs[i].len
}

/// Copying a published chain in reads nothing but its device-readable buffers.
pub proof fn law_only_readable_buffers_are_read(s: Scene, map: Set<int>, a: Arrival, j: int)
    requires
        ownership::scene_ok(s),
        model::verdict(s, map, a) is Publish,
        model::arrival_ok(a),
        s.guest.len() + 3 <= j < model::arrive(s, map, a).guest.len(),
    ensures
        reads_within(model::arrive(s, map, a).guest[j], a.descs),
{
    let t = model::arrive(s, map, a);
    let segs = model::reserve(s.pool.arena, s.pool.arena_base, a.descs).segments;
    let before = model::taken(s, a).guest;
    ownership::lemma_reserve(s.pool.arena, s.pool.arena_base, a.descs);
    assert forall|i: int| 0 <= i < segs.len() implies {
        &&& (#[trigger] segs[i]).guest_addr == a.descs[i].addr
        &&& a.data[i].len() > 0 ==> a.descs[i].flags & 2 == 0 && a.data[i].len() == a.descs[i].len
            && a.descs[i].addr + a.descs[i].len <= u64::MAX
    } by {
        assert(segs[i] == model::segment_of(a.descs[i], segs[i].pool_addr));
        assert(a.data[i].len() == model::reads_len(a.descs[i]));
    }
    law_what_is_read_of_a_chain(s, map, a);
    assert(t.guest[j] == model::copy_in_reads(segs, a.data)[j - before.len()]);
    lemma_copy_in_reads_within(segs, a.data, a.descs, j - before.len());
}

proof fn lemma_copy_in_reads_within(
    segs: Seq<Segment>,
    data: Seq<Seq<u8>>,
    descs: Seq<Descriptor>,
    k: int,
)
    requires
        data.len() == segs.len(),
        segs.len() <= descs.len(),
        forall|i: int|
            0 <= i < segs.len() ==> {
                &&& (#[trigger] segs[i]).guest_addr == descs[i].addr
                &&& data[i].len() > 0 ==> descs[i].flags & 2 == 0 && data[i].len() == descs[i].len
                    && descs[i].addr + descs[i].len <= u64::MAX
            },
        0 <= k < model::copy_in_reads(segs, data).len(),
    ensures
        reads_within(model::copy_in_reads(segs, data)[k], descs),
    decreases segs.len(),
{
    let rest = model::copy_in_reads(segs.drop_last(), data.drop_last());
    let last = segs.len() - 1;
    if k < rest.len() {
        assert forall|i: int| 0 <= i < last implies {
            &&& (#[trigger] segs.drop_last()[i]).guest_addr == descs[i].addr
            &&& data.drop_last()[i].len() > 0 ==> descs[i].flags & 2 == 0
                && data.drop_last()[i].len() == descs[i].len && descs[i].addr + descs[i].len
                <= u64::MAX
        } by {
            assert(segs.drop_last()[i] == segs[i]);
        }
        lemma_copy_in_reads_within(segs.drop_last(), data.drop_last(), descs, k);
    } else {
        let own = memory::piecewise_reads(
            segs[last].guest_addr as int,
            data[last],
            model::copy_chunk(),
        );
        assert(model::copy_in_reads(segs, data)[k] == own[k - rest.len()]);
        lemma_piece_within(segs[last].guest_addr, data[last], k - rest.len());
        assert(descs[last].flags & 2 == 0);
    }
}

proof fn lemma_piece_within(addr: u64, data: Seq<u8>, k: int)
    requires
        addr + data.len() <= u64::MAX || data.len() == 0,
        0 <= k < memory::piecewise_reads(addr as int, data, model::copy_chunk()).len(),
    ensures
        data.len() > 0,
        memory::piecewise_reads(addr as int, data, model::copy_chunk())[k] matches Access::Read {
            addr: at,
            bytes,
        } && addr <= at && at + bytes.len() <= addr + data.len(),
    decreases data.len(),
{
    let start = memory::last_piece(data.len() as int, model::copy_chunk());
    if data.len() > 0 && 0 <= start < data.len() {
        let rest = memory::piecewise_reads(addr as int, data.take(start), model::copy_chunk());
        if k < rest.len() {
            lemma_piece_within(addr, data.take(start), k);
        }
    }
}

proof fn lemma_arrival_grows(s: Scene, map: Set<int>, a: Arrival)
    ensures
        s.pool.log.is_prefix_of(model::arrive(s, map, a).pool.log),
        s.guest.is_prefix_of(model::arrive(s, map, a).guest),
{
    law_what_is_read_of_a_chain(s, map, a);
}

/// Where the first `n` arrivals of a sweep were all published, each of them met
/// an intact scene.
proof fn lemma_run_stays_ok(s: Scene, map: Set<int>, xs: Seq<Arrival>, n: int)
    requires
        ownership::scene_ok(s),
        0 <= n <= xs.len(),
        model::all_published(s, map, xs, n),
    ensures
        ownership::scene_ok(model::arrive_all(s, map, xs.take(n))),
        model::arrive_all(s, map, xs.take(n)).queue.fault == s.queue.fault,
        n > 0 ==> !model::arrive_all(s, map, xs.take(n)).queue.stalled,
    decreases n,
{
    let ys = xs.take(n);
    if n == 0 {
        assert(ys =~= Seq::empty());
    } else {
        lemma_run_stays_ok(s, map, xs, n - 1);
        assert(ys.drop_last() =~= xs.take(n - 1));
        assert(ys.last() == xs[n - 1]);
        assert(model::published_at(s, map, xs, n - 1));
        ownership::lemma_published(model::arrive_all(s, map, xs.take(n - 1)), map, xs[n - 1]);
    }
}

proof fn lemma_run_grows(s: Scene, map: Set<int>, xs: Seq<Arrival>, n: int)
    requires
        0 <= n <= xs.len(),
    ensures
        model::arrive_all(s, map, xs.take(n)).pool.log.is_prefix_of(
            model::arrive_all(s, map, xs).pool.log,
        ),
        model::arrive_all(s, map, xs.take(n)).guest.is_prefix_of(
            model::arrive_all(s, map, xs).guest,
        ),
    decreases xs.len() - n,
{
    if n == xs.len() {
        assert(xs.take(n) =~= xs);
    } else {
        let m = model::arrive_all(s, map, xs.take(n));
        let e = model::arrive_all(s, map, xs.take(n + 1));
        let z = model::arrive_all(s, map, xs);
        assert(xs.take(n + 1).drop_last() =~= xs.take(n));
        assert(xs.take(n + 1).last() == xs[n]);
        lemma_arrival_grows(m, map, xs[n]);
        lemma_run_grows(s, map, xs, n + 1);
        lemma_prefix_chain(m.pool.log, e.pool.log, z.pool.log);
        lemma_prefix_chain(m.guest, e.guest, z.guest);
    }
}

proof fn lemma_prefix_chain(a: Seq<Access>, b: Seq<Access>, c: Seq<Access>)
    requires
        a.is_prefix_of(b),
        b.is_prefix_of(c),
    ensures
        a.is_prefix_of(c),
{
    assert forall|i: int| 0 <= i < a.len() implies a[i] == c[i] by {
        assert(a[i] == b.subrange(0, a.len() as int)[i]);
        assert(b[i] == c.subrange(0, b.len() as int)[i]);
    }
    assert(a =~= c.subrange(0, a.len() as int));
}

/// Every chain that a sweep counts was published in its turn, one after the
/// other, and what that read of the guest and wrote into the pool is in the
/// history that the sweep leaves behind.
pub proof fn law_every_counted_chain_was_published(
    s: Scene,
    map: Set<int>,
    xs: Seq<Arrival>,
    done: bool,
    t: Scene,
    out: MirrorOutcome,
    j: int,
)
    requires
        ownership::scene_ok(s),
        model::mirrored(s, map, xs, done, t, out),
        0 <= j < out.chains,
    ensures
        j < xs.len(),
        ({
            let before = model::arrive_all(s, map, xs.take(j));
            let after = model::arrive(before, map, xs[j]);
            &&& j == 0 ==> before == s
            &&& after == model::arrive_all(s, map, xs.take(j + 1))
            &&& ownership::scene_ok(before)
            &&& model::verdict(before, map, xs[j]) is Publish
            &&& model::arrival_ok(xs[j])
            &&& after.pool.log.is_prefix_of(t.pool.log)
            &&& after.guest.is_prefix_of(t.guest)
        }),
{
    let n = xs.len() as int;
    let end = model::arrive_all(s, map, xs);
    assert(model::all_published(s, map, xs, out.chains as int));
    assert forall|i: int| 0 <= i < j implies #[trigger] model::published_at(s, map, xs, i) by {}
    lemma_run_stays_ok(s, map, xs, j);
    assert(model::published_at(s, map, xs, j));
    assert(xs.take(j + 1).drop_last() =~= xs.take(j));
    assert(xs.take(j + 1).last() == xs[j]);
    assert(xs.take(0) =~= Seq::empty());
    lemma_run_grows(s, map, xs, j + 1);
    let after = model::arrive_all(s, map, xs.take(j + 1));
    assert(end.pool.log.is_prefix_of(t.pool.log));
    assert(end.guest.is_prefix_of(t.guest));
    lemma_prefix_chain(after.pool.log, end.pool.log, t.pool.log);
    lemma_prefix_chain(after.guest, end.guest, t.guest);
}

/// How a sweep over the guest's avail ring ends. A queue that is neither stopped
/// nor stalled has taken everything: the last thing it did was to find nothing
/// more. A stalled sweep leaves the queue stalled, and a queue that goes on
/// publishing is not. An index that could not be stored stops the queue.
pub proof fn law_how_a_sweep_ends(
    s: Scene,
    map: Set<int>,
    xs: Seq<Arrival>,
    done: bool,
    t: Scene,
    out: MirrorOutcome,
)
    requires
        ownership::scene_ok(s),
        s.queue.fault is None,
        model::mirrored(s, map, xs, done, t, out),
    ensures
        t.queue.fault is None && !out.stalled ==> t.guest.len() > 0 && t.guest.last() == (
        Access::PopChain { popped: None }),
        out.stalled ==> t.queue.stalled,
        out.chains > 0 && !out.stalled ==> !t.queue.stalled,
        t.queue.fault is None ==> out.chains == 0 || done,
        t.queue.fault == Some(QueueFault::AvailIndexStoreFailed) ==> out.chains > 0 && !done,
        out.chains == 0 ==> t.pool.log == model::arrive_all(s, map, xs).pool.log,
{
    let n = xs.len() as int;
    let end = model::arrive_all(s, map, xs);
    if model::all_published(s, map, xs, n) && out.chains == n {
        lemma_run_stays_ok(s, map, xs, n);
        assert(xs.take(n) =~= xs);
    } else {
        lemma_run_stays_ok(s, map, xs, n - 1);
        assert(xs.take(n - 1) =~= xs.drop_last());
    }
}

// ---- Completing ----

/// The device-writable bytes of the first `n` buffers of a chain.
pub open spec fn writable_bytes(segs: Seq<Segment>, n: int) -> int
    decreases n,
{
    if n <= 0 {
        0
    } else {
        writable_bytes(segs, n - 1) + if segs[n - 1].writable {
            segs[n - 1].len as int
        } else {
            0
        }
    }
}

/// The smaller of the length that the backend claims and the device-writable
/// bytes of the chain.
pub open spec fn granted(segs: Seq<Segment>, claimed: u32) -> int {
    let all = writable_bytes(segs, segs.len() as int);
    if claimed < all {
        claimed as int
    } else {
        all
    }
}

/// The bytes of the first `n` of `data`.
pub open spec fn bytes_of(data: Seq<Seq<u8>>, n: int) -> int
    decreases n,
{
    if n <= 0 {
        0
    } else {
        bytes_of(data, n - 1) + data[n - 1].len()
    }
}

proof fn lemma_writable_bytes(segs: Seq<Segment>, n: int)
    requires
        0 <= n <= segs.len(),
    ensures
        writable_bytes(segs, n) == model::writable_total(segs.take(n)),
        writable_bytes(segs, n) >= 0,
        n < segs.len() ==> writable_bytes(segs, n) <= writable_bytes(segs, n + 1),
    decreases n,
{
    if n > 0 {
        lemma_writable_bytes(segs, n - 1);
        assert(segs.take(n).drop_last() =~= segs.take(n - 1));
        assert(segs.take(n).last() == segs[n - 1]);
    }
}

proof fn lemma_granted(segs: Seq<Segment>, claimed: u32)
    ensures
        model::capped_len(segs, claimed) == granted(segs, claimed),
        model::writable_total(segs) == writable_bytes(segs, segs.len() as int),
        0 <= granted(segs, claimed) <= u32::MAX,
{
    lemma_writable_bytes(segs, segs.len() as int);
    assert(segs.take(segs.len() as int) =~= segs);
}

/// What a completion is for: the chain that the shadow table holds under the
/// used id, if the id is within the table.
pub proof fn law_used_ids_name_chains(q: ShadowView, id: u32, chain: ChainView)
    ensures
        model::lookup(q, id) == Some(chain) <==> id < q.size && q.inflight[id as int] == Some(chain),
{
}

/// How much is copied back when a completion goes through: as many bytes as the
/// backend claims, but no more than it was allowed to write, and this is also
/// the length that the guest is told, last of all, for its own head. The
/// device-writable buffers are filled one after the other; a backend that
/// claims all of them has every byte of every one copied back.
pub proof fn law_how_much_is_copied_back(s: Scene, map: Set<int>, c: Completion, i: int)
    requires
        model::completion_ok(s, map, c),
        model::succeeds(s, c),
    ensures
        ({
            let t = model::complete(s, c);
            &&& model::lookup(s.queue, c.id) matches Some(chain)
            &&& {
                let segs = chain.segments;
                let n = segs.len() as int;
                let len = granted(segs, c.len);
                &&& t.guest.len() > s.guest.len()
                &&& t.guest.take(s.guest.len() as int) == s.guest
                &&& t.guest.last() == (Access::AddUsed {
                    head: chain.guest_head,
                    len: len as u32,
                    done: true,
                })
                &&& len == len as u32
                &&& c.data.len() == n
                &&& bytes_of(c.data, n) == len
                &&& 0 <= i < n && !segs[i].writable ==> c.data[i].len() == 0
                &&& 0 <= i < n && segs[i].writable && writable_bytes(segs, i) + segs[i].len <= len
                    ==> c.data[i].len() == segs[i].len
                &&& 0 <= i < n && segs[i].writable && writable_bytes(segs, i) <= len
                    < writable_bytes(segs, i) + segs[i].len ==> c.data[i].len() == len
                    - writable_bytes(segs, i)
                &&& 0 <= i < n && writable_bytes(segs, i) >= len ==> c.data[i].len() == 0
                &&& 0 <= i < n && segs[i].writable && c.len >= writable_bytes(segs, n)
                    ==> c.data[i].len() == segs[i].len
            }
        }),
{
    let chain = model::lookup(s.queue, c.id)->0;
    let segs = chain.segments;
    let n = segs.len() as int;
    let len = granted(segs, c.len);
    lemma_granted(segs, c.len);
    laws::law_data_precedes_the_used_element(s, map, c);
    let t = model::complete(s, c);
    assert(t.guest.take(s.guest.len() as int) =~= s.guest);
    assert forall|k: int| 0 <= k < n implies (#[trigger] c.data[k]).len() == model::share(
        segs,
        len,
        k,
    ) by {
        assert(model::share_copied(map, segs, len, c.data, k));
    }
    lemma_bytes_add_up(segs, len, c.data, n);
    if 0 <= i < n {
        lemma_writable_bytes(segs, i);
        lemma_writable_grows(segs, i + 1, n);
        assert(c.data[i].len() == model::share(segs, len, i));
    }
}

proof fn lemma_writable_grows(segs: Seq<Segment>, m: int, n: int)
    requires
        0 <= m <= n <= segs.len(),
    ensures
        writable_bytes(segs, m) <= writable_bytes(segs, n),
    decreases n,
{
    if m < n {
        lemma_writable_grows(segs, m, n - 1);
    }
}

proof fn lemma_bytes_add_up(segs: Seq<Segment>, len: int, data: Seq<Seq<u8>>, n: int)
    requires
        0 <= n <= segs.len(),
        data.len() == segs.len(),
        0 <= len,
        forall|k: int| 0 <= k < segs.len() ==> (#[trigger] data[k]).len() == model::share(segs, len, k),
    ensures
        bytes_of(data, n) == if len < writable_bytes(segs, n) {
            len
        } else {
            writable_bytes(segs, n)
        },
    decreases n,
{
    if n > 0 {
        lemma_bytes_add_up(segs, len, data, n - 1);
        lemma_writable_bytes(segs, n - 1);
        assert(data[n - 1].len() == model::share(segs, len, n - 1));
    }
}

/// Where the bytes that are copied back come from and go to: each was read from
/// the extent of its buffer in the pool, and stands in the guest's buffer at the
/// same place, unless a later buffer of the chain lies over it.
pub proof fn law_backend_bytes_reach_the_guest(
    s: Scene,
    map: Set<int>,
    c: Completion,
    i: int,
    k: int,
)
    requires
        ownership::scene_ok(s),
        model::completion_ok(s, map, c),
        model::succeeds(s, c),
        model::lookup(s.queue, c.id) matches Some(chain) && 0 <= i < chain.segments.len(),
        0 <= k < c.data[i].len(),
    ensures
        ({
            let t = model::complete(s, c);
            &&& model::lookup(s.queue, c.id) matches Some(chain)
            &&& {
                let segs = chain.segments;
                &&& read_since(
                    t.pool.log,
                    s.pool.log.len() as int,
                    segs[i].pool_addr + k,
                    c.data[i][k],
                )
                &&& (forall|j: int|
                    i < j < segs.len() ==> !(0 <= segs[i].guest_addr + k - (
                    #[trigger] segs[j]).guest_addr < c.data[j].len())) ==> laws::payload_at(
                    t.guest,
                    segs[i].guest_addr + k,
                ) == Some(c.data[i][k])
            }
        }),
{
    let chain = model::lookup(s.queue, c.id)->0;
    let segs = chain.segments;
    let len = granted(segs, c.len);
    let t = model::complete(s, c);
    law_how_much_is_copied_back(s, map, c, i);
    lemma_granted(segs, c.len);
    assert(model::share_copied(map, segs, len, c.data, i));
    if forall|j: int|
        i < j < segs.len() ==> !(0 <= segs[i].guest_addr + k - (#[trigger] segs[j]).guest_addr
            < c.data[j].len()) {
        assert forall|j: int| i < j < segs.len() implies !(0 <= segs[i].guest_addr + k - (
        #[trigger] segs[j]).guest_addr < model::share(segs, len, j)) by {
            assert(model::share_copied(map, segs, len, c.data, j));
        }
        laws::law_written_data_reaches_the_guest(s, map, c, i, k);
    }
    assert(ownership::segs_ok(segs, s.pool.arena_base, s.pool.arena.capacity as int));
    assert(ownership::seg_in_arena(segs[i], s.pool.arena_base, s.pool.arena.capacity as int));
    let f = model::fetched(s, c).pool.log;
    let reads = model::copy_back_reads(segs, c.data);
    lemma_copy_back_reads_each(segs, c.data, i, k);
    let j = choose|j: int|
        0 <= j < reads.len() && #[trigger] reads_byte(reads[j], segs[i].pool_addr + k, c.data[i][k]);
    assert(t.pool.log[f.len() + j] == reads[j]);
    assert(reads_byte(t.pool.log[f.len() + j], segs[i].pool_addr + k, c.data[i][k]));
}

proof fn lemma_copy_back_reads_each(segs: Seq<Segment>, data: Seq<Seq<u8>>, i: int, k: int)
    requires
        0 <= i < data.len(),
        0 <= k < data[i].len(),
        segs[i].pool_addr + data[i].len() <= u64::MAX,
    ensures
        exists|j: int|
            0 <= j < model::copy_back_reads(segs, data).len() && #[trigger] reads_byte(
                model::copy_back_reads(segs, data)[j],
                segs[i].pool_addr + k,
                data[i][k],
            ),
    decreases data.len(),
{
    let all = model::copy_back_reads(segs, data);
    let rest = model::copy_back_reads(segs, data.drop_last());
    let b = segs[i].pool_addr + k;
    if i < data.len() - 1 {
        lemma_copy_back_reads_each(segs, data.drop_last(), i, k);
        let j = choose|j: int|
            0 <= j < rest.len() && #[trigger] reads_byte(rest[j], b, data.drop_last()[i][k]);
        assert(all[j] == rest[j]);
        assert(reads_byte(all[j], b, data[i][k]));
    } else {
        let own = memory::piecewise_reads(segs[i].pool_addr as int, data[i], model::copy_chunk());
        lemma_pieces_read_the_data(segs[i].pool_addr, data[i], model::copy_chunk(), k);
        let j = choose|j: int| 0 <= j < own.len() && #[trigger] reads_byte(own[j], b, data[i][k]);
        assert(all[rest.len() + j] == own[j]);
        assert(reads_byte(all[rest.len() + j], b, data[i][k]));
    }
}

/// What a completion reads of the shadow used ring: the entry that the used
/// index stands for, 8 bytes apiece, the id in its first four bytes and the
/// length in the other four.
pub proof fn law_where_used_elements_are_read(s: Scene, c: Completion)
    requires
        ownership::scene_ok(s),
        s.queue.size > 0,
    ensures
        ({
            let t = model::complete(s, c);
            let n = s.pool.log.len() as int;
            let at = s.queue.ring.used + 4 + 8 * (s.queue.next_used as int % s.queue.size as int);
            &&& t.pool.log.len() >= n + 2
            &&& t.pool.log.take(n) == s.pool.log
            &&& t.pool.log[n] == (Access::ReadU32 { addr: at as u64, word: c.id })
            &&& t.pool.log[n + 1] == (Access::ReadU32 { addr: (at + 4) as u64, word: c.len })
            &&& at + 8 <= s.pool.arena_base
        }),
{
    let n = s.pool.log.len() as int;
    let t = model::complete(s, c);
    let f = model::fetched(s, c).pool.log;
    assert(0 <= s.queue.next_used as int % s.queue.size as int <= s.queue.size - 1);
    assert(f.take(n) =~= s.pool.log);
    assert(t.pool.log.take(n) =~= s.pool.log);
}

/// What a completion gives back, whether or not it reaches the guest: the slots
/// of its chain, the entry of the table, and the bytes of its buffers, which are
/// zero by then, padding included. Nothing else becomes free, and no other chain
/// is touched. The used count moves on exactly if the guest was told.
pub proof fn law_what_a_completion_gives_back(s: Scene, c: Completion, h: int, x: int)
    requires
        ownership::scene_ok(s),
        model::lookup(s.queue, c.id) is Some,
    ensures
        ({
            let t = model::complete(s, c);
            let base = s.pool.arena_base;
            &&& model::lookup(s.queue, c.id) matches Some(chain)
            &&& t.queue.free_slots == s.queue.free_slots + chain.slots
            &&& t.queue.inflight.len() == s.queue.inflight.len()
            &&& t.queue.inflight[c.id as int] is None
            &&& 0 <= h < s.queue.size && h != c.id ==> t.queue.inflight[h] == s.queue.inflight[h]
            &&& t.pool.arena.capacity == s.pool.arena.capacity
            &&& t.pool.arena_base == base
            &&& t.pool.arena.free_at(x) <==> s.pool.arena.free_at(x) || in_buffers(
                chain.segments,
                base,
                x,
            )
            &&& laws::payload_at(t.pool.log, base + x) == if in_buffers(chain.segments, base, x) {
                Some(0u8)
            } else {
                laws::payload_at(s.pool.log, base + x)
            }
            &&& t.queue.avail_idx == s.queue.avail_idx
            &&& t.ring == (RingState { next_used: t.ring.next_used, ..s.ring })
            &&& t.queue.queue_index == s.queue.queue_index
            &&& t.queue.next_used == if c.copied && c.added {
                (s.queue.next_used + 1) % 65536
            } else {
                s.queue.next_used as int
            }
            &&& t.queue.stalled == s.queue.stalled
            &&& t.queue.stall_report == s.queue.stall_report
            &&& t.queue.size == s.queue.size
            &&& t.queue.ring == s.queue.ring
        }),
{
    let base = s.pool.arena_base;
    let chain = model::lookup(s.queue, c.id)->0;
    let t = model::complete(s, c);
    let f = model::fetched(s, c);
    let reads = model::copy_back_reads(chain.segments, c.data);
    let id = c.id as int;
    assert(s.queue.inflight[id] is Some);
    assert forall|y: int| #[trigger] ownership::segs_have(
        chain.segments,
        base,
        y,
    ) implies !s.pool.arena.free_at(y) by {
        assert(s.queue.owns(base, id, y));
    }
    ownership::lemma_release(s.pool.arena, base, chain.segments);
    lemma_in_buffers(chain.segments, base, x);
    assert(t.pool.arena.free_at(x) == (s.pool.arena.free_at(x) || ownership::segs_have(
        chain.segments,
        base,
        x,
    )));
    assert(t.pool.log == f.pool.log + reads + model::scrub(chain.segments));
    laws::lemma_fetch_reads(s, c, base + x);
    laws::lemma_reads_only(chain.segments, c.data);
    laws::lemma_no_payload(reads, base + x);
    laws::lemma_payload_concat(f.pool.log, reads, base + x);
    laws::lemma_scrub(chain.segments, base, s.pool.arena.capacity as int, x);
    laws::lemma_payload_concat(f.pool.log + reads, model::scrub(chain.segments), base + x);
}

/// Whether guest memory takes all that is to be copied back into buffer `i`.
pub open spec fn takes_all(map: Set<int>, segs: Seq<Segment>, len: int, i: int) -> bool {
    forall|b: int|
        segs[i].guest_addr <= b < segs[i].guest_addr + segs[i].len && b - segs[i].guest_addr < len
            - writable_bytes(segs, i) ==> #[trigger] map.contains(b)
}

/// When a completion fails. Copying back succeeds exactly when every byte that
/// is to be copied goes to mapped guest memory; a failure stops the queue, tells
/// the guest nothing and leaves the used counts alone. A used ring that does not
/// take the element stops the queue too.
pub proof fn law_when_a_completion_fails(s: Scene, map: Set<int>, c: Completion)
    requires
        ownership::scene_ok(s),
        model::completion_ok(s, map, c),
        model::lookup(s.queue, c.id) is Some,
    ensures
        ({
            let t = model::complete(s, c);
            &&& model::lookup(s.queue, c.id) matches Some(chain)
            &&& {
                let segs = chain.segments;
                let len = granted(segs, c.len);
                &&& c.copied <==> forall|i: int|
                    0 <= i < segs.len() && (#[trigger] segs[i]).writable ==> takes_all(
                        map,
                        segs,
                        len,
                        i,
                    )
                &&& !c.copied ==> {
                    &&& t.queue.fault == Some(QueueFault::WriteBackFailed)
                    &&& t.ring.next_used == s.ring.next_used
                    &&& forall|j: int|
                        s.guest.len() <= j < t.guest.len() ==> (#[trigger] t.guest[j]) is Write
                }
                &&& c.copied && !c.added ==> {
                    &&& t.queue.fault == Some(QueueFault::UsedPublishFailed)
                    &&& t.guest.last() == (Access::AddUsed {
                        head: chain.guest_head,
                        len: len as u32,
                        done: false,
                    })
                }
                &&& c.copied && c.added ==> {
                    &&& t.queue.fault == s.queue.fault
                    &&& t.ring.next_used == (s.ring.next_used + 1) % 65536
                }
            }
        }),
{
    let chain = model::lookup(s.queue, c.id)->0;
    let segs = chain.segments;
    let len = granted(segs, c.len);
    let t = model::complete(s, c);
    lemma_granted(segs, c.len);
    assert(s.queue.inflight[c.id as int] is Some);
    assert(ownership::chain_ok(chain, c.id as int));
    if c.copied {
        assert forall|i: int| 0 <= i < segs.len() && (
        #[trigger] segs[i]).writable implies takes_all(map, segs, len, i) by {
            lemma_writable_bytes(segs, i);
            assert(model::share_copied(map, segs, len, c.data, i));
            assert(memory::covers(map, segs[i].guest_addr, model::share(segs, len, i)));
        }
    } else {
        let w = c.data.len() - 1;
        let n = c.data.last().len() as int;
        lemma_writable_bytes(segs, w);
        assert(0 < n <= model::share(segs, len, w));
        assert(segs[w].writable);
        let b = choose|b: int|
            segs[w].guest_addr <= b < segs[w].guest_addr + n && !#[trigger] map.contains(b);
        assert(segs[w].guest_addr <= b < segs[w].guest_addr + n && !map.contains(b));
        assert(!takes_all(map, segs, len, w));
        lemma_copy_back_only_writes(segs, c.data);
        let writes = model::copy_back_writes(segs, c.data);
        assert(t.guest == s.guest + writes);
        assert forall|j: int| s.guest.len() <= j < t.guest.len() implies (
        #[trigger] t.guest[j]) is Write by {
            assert(t.guest[j] == writes[j - s.guest.len()]);
        }
    }
}

proof fn lemma_copy_back_only_writes(segs: Seq<Segment>, data: Seq<Seq<u8>>)
    ensures
        forall|j: int|
            0 <= j < model::copy_back_writes(segs, data).len() ==> (
            #[trigger] model::copy_back_writes(segs, data)[j]) is Write,
    decreases data.len(),
{
    if data.len() > 0 {
        lemma_copy_back_only_writes(segs, data.drop_last());
        lemma_pieces_only_write(segs[data.len() - 1].guest_addr as int, data.last());
    }
}

proof fn lemma_pieces_only_write(addr: int, data: Seq<u8>)
    ensures
        forall|j: int|
            0 <= j < memory::piecewise_writes(addr, data, model::copy_chunk()).len() ==> (
            #[trigger] memory::piecewise_writes(addr, data, model::copy_chunk())[j]) is Write,
    decreases data.len(),
{
    let start = memory::last_piece(data.len() as int, model::copy_chunk());
    if data.len() > 0 && 0 <= start < data.len() {
        lemma_pieces_only_write(addr, data.take(start));
    }
}

proof fn lemma_completion_grows(s: Scene, c: Completion)
    ensures
        s.pool.log.is_prefix_of(model::complete(s, c).pool.log),
        s.guest.is_prefix_of(model::complete(s, c).guest),
{
}

proof fn lemma_completions_grow(s: Scene, cs: Seq<Completion>, n: int)
    requires
        0 <= n <= cs.len(),
    ensures
        model::complete_all(s, cs.take(n)).pool.log.is_prefix_of(
            model::complete_all(s, cs).pool.log,
        ),
        model::complete_all(s, cs.take(n)).guest.is_prefix_of(model::complete_all(s, cs).guest),
    decreases cs.len() - n,
{
    if n == cs.len() {
        assert(cs.take(n) =~= cs);
    } else {
        let m = model::complete_all(s, cs.take(n));
        let e = model::complete_all(s, cs.take(n + 1));
        let z = model::complete_all(s, cs);
        assert(cs.take(n + 1).drop_last() =~= cs.take(n));
        assert(cs.take(n + 1).last() == cs[n]);
        lemma_completion_grows(m, cs[n]);
        lemma_completions_grow(s, cs, n + 1);
        lemma_prefix_chain(m.pool.log, e.pool.log, z.pool.log);
        lemma_prefix_chain(m.guest, e.guest, z.guest);
    }
}

proof fn lemma_completions_stay_ok(
    s: Scene,
    map: Set<int>,
    cs: Seq<Completion>,
    idx: u16,
    n: int,
)
    requires
        ownership::scene_ok(s),
        0 <= n <= cs.len(),
        model::all_succeed(s, map, cs, idx, n),
    ensures
        ownership::scene_ok(model::complete_all(s, cs.take(n))),
        model::complete_all(s, cs.take(n)).queue.fault == s.queue.fault,
    decreases n,
{
    let ds = cs.take(n);
    if n == 0 {
        assert(ds =~= Seq::empty());
    } else {
        lemma_completions_stay_ok(s, map, cs, idx, n - 1);
        assert(ds.drop_last() =~= cs.take(n - 1));
        assert(ds.last() == cs[n - 1]);
        assert(model::succeeds_at(s, map, cs, idx, n - 1));
        let m = model::complete_all(s, cs.take(n - 1));
        let chain = model::lookup(m.queue, cs[n - 1].id)->0;
        let r = model::returned(m, cs[n - 1], chain);
        ownership::lemma_returned(m, cs[n - 1], chain);
        ownership::lemma_wf_ignores_status(r.queue, model::complete(m, cs[n - 1]).queue);
    }
}

/// Every chain that a sweep over the used ring counts went through in its turn,
/// and what that read and wrote is in the history that the sweep leaves behind.
pub proof fn law_every_counted_chain_was_completed(
    s: Scene,
    map: Set<int>,
    h: Harvest,
    t: Scene,
    out: CompleteOutcome,
    j: int,
)
    requires
        ownership::scene_ok(s),
        model::completed(s, map, h, t, out),
        0 <= j < out.chains,
    ensures
        j < h.completions.len(),
        ({
            let start = model::index_loaded(s, h.used_idx);
            let before = model::complete_all(start, h.completions.take(j));
            let after = model::complete(before, h.completions[j]);
            &&& start.queue == s.queue
            &&& start.guest == s.guest
            &&& start.ring == s.ring
            &&& j == 0 ==> before == start
            &&& after == model::complete_all(start, h.completions.take(j + 1))
            &&& ownership::scene_ok(before)
            &&& model::completion_ok(before, map, h.completions[j])
            &&& model::succeeds(before, h.completions[j])
            &&& h.used_idx matches Some(idx) && before.queue.next_used != idx
            &&& after.pool.log.is_prefix_of(t.pool.log)
            &&& after.guest.is_prefix_of(t.guest)
        }),
{
    let cs = h.completions;
    let start = model::index_loaded(s, h.used_idx);
    let idx = h.used_idx->0;
    let end = model::complete_all(start, cs);
    assert(ownership::scene_ok(start));
    assert(model::all_succeed(start, map, cs, idx, out.chains as int));
    assert forall|i: int| 0 <= i < j implies #[trigger] model::succeeds_at(
        start,
        map,
        cs,
        idx,
        i,
    ) by {}
    lemma_completions_stay_ok(start, map, cs, idx, j);
    assert(model::succeeds_at(start, map, cs, idx, j));
    assert(cs.take(j + 1).drop_last() =~= cs.take(j));
    assert(cs.take(j + 1).last() == cs[j]);
    assert(cs.take(0) =~= Seq::empty());
    lemma_completions_grow(start, cs, j + 1);
    let after = model::complete_all(start, cs.take(j + 1));
    assert(end.pool.log.is_prefix_of(t.pool.log));
    assert(end.guest.is_prefix_of(t.guest));
    lemma_prefix_chain(after.pool.log, end.pool.log, t.pool.log);
    lemma_prefix_chain(after.guest, end.guest, t.guest);
}

/// How a sweep over the shadow used ring ends. A queue that has not stopped has
/// taken every completion up to the index that it loaded. A queue whose index
/// could not be loaded stops with nothing else done.
pub proof fn law_how_completing_ends(
    s: Scene,
    map: Set<int>,
    h: Harvest,
    t: Scene,
    out: CompleteOutcome,
)
    requires
        ownership::scene_ok(s),
        s.queue.fault is None,
        model::completed(s, map, h, t, out),
    ensures
        t.queue.fault is None ==> h.used_idx == Some(t.queue.next_used),
        h.used_idx is None ==> {
            &&& t.queue.fault == Some(QueueFault::UsedIndexLoadFailed)
            &&& t.guest == s.guest
            &&& t.ring == s.ring
            &&& t.queue.inflight == s.queue.inflight
            &&& t.queue.free_slots == s.queue.free_slots
            &&& t.pool.arena == s.pool.arena
            &&& out.chains == 0
            &&& !out.needs_interrupt
        },
        h.used_idx is Some ==> t.queue.fault != Some(QueueFault::UsedIndexLoadFailed),
{
    if h.used_idx is Some {
        let cs = h.completions;
        let start = model::index_loaded(s, h.used_idx);
        let idx = h.used_idx->0;
        assert(ownership::scene_ok(start));
        lemma_completions_stay_ok(start, map, cs, idx, out.chains as int);
        assert(cs.take(cs.len() as int) =~= cs);
        if out.chains < cs.len() {
            assert(cs.take(out.chains as int) =~= cs.drop_last());
        }
    }
}

/// When the guest is interrupted: exactly if chains were completed, its queue
/// does not say that it wants no notification, and the flags of its avail ring
/// (where they could be loaded) do not ask for silence (flag 1). It is asked
/// only if chains were completed, and after everything else.
pub proof fn law_when_the_guest_is_interrupted(
    s: Scene,
    map: Set<int>,
    h: Harvest,
    t: Scene,
    out: CompleteOutcome,
)
    requires
        model::completed(s, map, h, t, out),
    ensures
        out.needs_interrupt <==> out.chains > 0 && h.answer != Some(false) && (h.flags matches Some(
            flags,
        ) ==> flags & 1 == 0),
        out.chains > 0 ==> {
            let n = t.guest.len() as int;
            &&& n >= s.guest.len() + 2
            &&& t.guest[n - 2] == (Access::AskNotification { answer: h.answer })
            &&& t.guest[n - 1] == (Access::LoadU16 {
                addr: s.ring.avail_ring,
                order: LoadOrder::Relaxed,
                loaded: h.flags,
            })
        },
        out.chains == 0 && t.guest.len() > s.guest.len() ==> !(t.guest.last() is AskNotification)
            && !(t.guest.last() is LoadU16),
{
    if h.used_idx is Some {
        let cs = h.completions;
        let start = model::index_loaded(s, h.used_idx);
        lemma_completions_grow(start, cs, 0);
        assert(cs.take(0) =~= Seq::empty());
        lemma_avail_ring_stays(start, cs);
        if out.chains == 0 && cs.len() > 0 {
            assert(cs.len() == 1);
            assert(cs.drop_last() =~= Seq::empty());
            let c = cs.last();
            if let Some(chain) = model::lookup(start.queue, c.id) {
                lemma_copy_back_only_writes(chain.segments, c.data);
                let writes = model::copy_back_writes(chain.segments, c.data);
                if !c.copied && writes.len() > 0 {
                    assert(t.guest.last() == writes.last());
                    assert(writes[writes.len() - 1] is Write);
                }
            }
        }
    }
}

proof fn lemma_avail_ring_stays(s: Scene, cs: Seq<Completion>)
    ensures
        model::complete_all(s, cs).ring.avail_ring == s.ring.avail_ring,
    decreases cs.len(),
{
    if cs.len() > 0 {
        lemma_avail_ring_stays(s, cs.drop_last());
    }
}

/// A pool that nothing else uses takes any chain that fits: where the whole
/// arena is free, a chain that is not refused and finds slots enough is published
/// as soon as its buffers, in granules of 64 bytes, add up to no more than the
/// arena.
pub proof fn law_idle_pools_take_what_fits(s: Scene, map: Set<int>, a: Arrival)
    requires
        ownership::scene_ok(s),
        !(model::verdict(s, map, a) is Broken),
        a.descs.len() <= s.queue.free_slots.len(),
        forall|b: int| #[trigger] s.pool.arena.free_at(b) <==> 0 <= b < s.pool.arena.capacity,
        64 * granules(a.descs, a.descs.len() as int) <= s.pool.arena.capacity,
    ensures
        model::verdict(s, map, a) is Publish,
{
    lemma_idle_reserve(s.pool.arena, s.pool.arena_base, a.descs);
}

proof fn lemma_idle_reserve(arena: Arena, base: u64, descs: Seq<Descriptor>)
    requires
        arena.wf(),
        base + arena.capacity <= u64::MAX,
        forall|b: int| #[trigger] arena.free_at(b) <==> 0 <= b < arena.capacity,
        64 * granules(descs, descs.len() as int) <= arena.capacity,
    ensures
        model::reserve(arena, base, descs).complete,
        forall|b: int| #[trigger]
            model::reserve(arena, base, descs).arena.free_at(b) <==> 64 * granules(
                descs,
                descs.len() as int,
            ) <= b < arena.capacity,
    decreases descs.len(),
{
    if descs.len() > 0 {
        let init = descs.drop_last();
        let n = init.len() as int;
        lemma_granules_prefix(init, descs, n);
        lemma_granules_grow(descs, n);
        lemma_idle_reserve(arena, base, init);
        ownership::lemma_reserve(arena, base, init);
        let p = model::reserve(arena, base, init).arena;
        let used = 64 * granules(descs, n);
        let len = descs[n].len as int;
        if len > 0 {
            assert(allocator::run_is_free(p, used, ((len + 63) / 64) * 64));
            allocator::law_when_a_request_is_met(p, len);
            allocator::law_allocation_takes_the_lowest_free_run(p, len, used);
            assert(p.free_at(p.alloc_offset(len) as int));
        }
    }
}

proof fn lemma_granules_grow(descs: Seq<Descriptor>, n: int)
    ensures
        granules(descs, n) >= 0,
    decreases n,
{
    if n > 0 {
        lemma_granules_grow(descs, n - 1);
    }
}

/// Where copying back stops when it fails: at the first piece, of 16384 bytes or
/// what is left of the buffer's share, that holds an unmapped byte. The buffers
/// before have been copied in full, and so have the pieces before.
pub proof fn law_where_copying_back_stops(s: Scene, map: Set<int>, c: Completion, i: int, b: int)
    requires
        model::completion_ok(s, map, c),
        model::lookup(s.queue, c.id) is Some,
        !c.copied,
    ensures
        model::lookup(s.queue, c.id) matches Some(chain) && {
            let segs = chain.segments;
            let len = granted(segs, c.len);
            let last = c.data.len() - 1;
            let n = c.data[last].len() as int;
            let share = if len - writable_bytes(segs, last) < segs[last].len {
                len - writable_bytes(segs, last)
            } else {
                segs[last].len as int
            };
            let whole = ((n - 1) / 16384) * 16384;
            &&& 0 <= last < segs.len()
            &&& segs[last].writable
            &&& 0 < n <= share
            &&& n == share || n % 16384 == 0
            &&& segs[last].guest_addr <= b < segs[last].guest_addr + whole ==> map.contains(b)
            &&& exists|x: int|
                segs[last].guest_addr + whole <= x < segs[last].guest_addr + n
                    && !#[trigger] map.contains(x)
            &&& 0 <= i < last && !segs[i].writable ==> c.data[i].len() == 0
            &&& 0 <= i < last && segs[i].writable ==> takes_all(map, segs, len, i)
                && c.data[i].len() == if len - writable_bytes(segs, i) <= 0 {
                0
            } else if len - writable_bytes(segs, i) < segs[i].len {
                len - writable_bytes(segs, i)
            } else {
                segs[i].len as int
            }
        },
{
    let chain = model::lookup(s.queue, c.id)->0;
    let segs = chain.segments;
    let len = granted(segs, c.len);
    let last = c.data.len() - 1;
    let n = c.data[last].len() as int;
    lemma_granted(segs, c.len);
    lemma_writable_bytes(segs, last);
    assert(c.data.last() == c.data[last]);
    let whole = memory::last_piece(n, model::copy_chunk());
    let x = choose|x: int|
        segs[last].guest_addr <= x < segs[last].guest_addr + n && !#[trigger] map.contains(x);
    assert(segs[last].guest_addr <= x < segs[last].guest_addr + n && !map.contains(x));
    if 0 <= i < last {
        lemma_writable_bytes(segs, i);
        assert(model::share_copied(map, segs, len, c.data, i));
        assert(memory::covers(map, segs[i].guest_addr, model::share(segs, len, i)));
    }
}

} // verus!
