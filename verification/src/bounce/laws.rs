//! What mirroring and completing guarantee.
//!
//! The functions of [`super::shadow_queue`] say step by step what they do;
//! here stands what follows from that for the guest, the backend and the
//! device.

use super::allocator::{self, Arena};
use super::memory::{self, Access, LoadOrder};
use super::model::{self, Arrival, Completion, Harvest, Scene};
use super::ownership;
use super::pool::{self, PoolView, RingOffsets};
use super::ring;
use super::shadow_queue::{CompleteOutcome, MirrorOutcome, QueueFault, Segment};
use vstd::prelude::*;

verus! {

// ---- Bytes ----

/// The byte that the last buffer write to address `b` put there.
pub open spec fn payload_at(log: Seq<Access>, b: int) -> Option<u8>
    decreases log.len(),
{
    if log.len() == 0 {
        None
    } else {
        match log.last() {
            Access::Write { addr, bytes } => if addr <= b < addr + bytes.len() {
                Some(bytes[b - addr])
            } else {
                payload_at(log.drop_last(), b)
            },
            _ => payload_at(log.drop_last(), b),
        }
    }
}

pub(crate) proof fn lemma_payload_concat(a: Seq<Access>, c: Seq<Access>, b: int)
    ensures
        payload_at(a + c, b) == match payload_at(c, b) {
            Some(x) => Some(x),
            None => payload_at(a, b),
        },
    decreases c.len(),
{
    if c.len() == 0 {
        assert(a + c =~= a);
    } else {
        assert((a + c).drop_last() =~= a + c.drop_last());
        assert((a + c).last() == c.last());
        lemma_payload_concat(a, c.drop_last(), b);
    }
}

/// Data that is written piece by piece is all there, and nothing else is
/// touched.
pub proof fn law_pieces_write_the_data(addr: u64, data: Seq<u8>, chunk: int, b: int)
    requires
        chunk > 0,
        addr + data.len() <= u64::MAX,
    ensures
        payload_at(memory::piecewise_writes(addr as int, data, chunk), b) == if addr <= b < addr
            + data.len() {
            Some(data[b - addr])
        } else {
            None
        },
    decreases data.len(),
{
    let start = memory::last_piece(data.len() as int, chunk);
    let all = memory::piecewise_writes(addr as int, data, chunk);
    if data.len() > 0 {
        lemma_last_piece_bounds(data.len() as int, chunk);
        let init = data.take(start);
        law_pieces_write_the_data(addr, init, chunk, b);
        assert(all.drop_last() =~= memory::piecewise_writes(addr as int, init, chunk));
        if addr <= b < addr + start {
            assert(init[b - addr] == data[b - addr]);
        }
    }
}

proof fn lemma_last_piece_bounds(len: int, chunk: int)
    requires
        len > 0,
        chunk > 0,
    ensures
        0 <= memory::last_piece(len, chunk) < len,
        len - memory::last_piece(len, chunk) <= chunk,
{
    let k = (len - 1) / chunk;
    assert(0 <= k * chunk <= len - 1 && len - 1 < k * chunk + chunk) by (nonlinear_arith)
        requires
            k == (len - 1) / chunk,
            len > 0,
            chunk > 0,
    ;
}

/// Freeing an extent zeroes all of it, padding to the granule included, and
/// touches no byte outside.
pub proof fn law_freeing_scrubs_the_extent(p: PoolView, addr: u64, len: int, b: int)
    requires
        p.wf(),
        p.can_free(addr as int, len),
    ensures
        payload_at(p.after_free(addr as int, len).log, b) == if addr <= b < addr
            + allocator::rounded(len) {
            Some(0u8)
        } else {
            payload_at(p.log, b)
        },
{
    let n = allocator::rounded(len);
    law_pieces_write_the_data(addr, pool::zeroes(n), 4096, b);
    lemma_payload_concat(p.log, pool::zero_writes(addr as int, n), b);
}

/// Zeroing the rings touches the ring area only.
pub proof fn law_zeroing_rings_spares_the_arena(p: PoolView, b: int)
    ensures
        payload_at(p.with_accesses(pool::zero_writes(0, p.arena_base as int)).log, b) == if 0 <= b
            < p.arena_base {
            Some(0u8)
        } else {
            payload_at(p.log, b)
        },
{
    law_pieces_write_the_data(0, pool::zeroes(p.arena_base as int), 4096, b);
    lemma_payload_concat(p.log, pool::zero_writes(0, p.arena_base as int), b);
}

/// Whether no buffer write has left anything but zeroes in free arena bytes.
pub open spec fn clean(p: PoolView) -> bool {
    forall|x: int| #[trigger]
        p.arena.free_at(x) ==> {
            ||| payload_at(p.log, p.arena_base + x) is None
            ||| payload_at(p.log, p.arena_base + x) == Some(0u8)
        }
}

pub(crate) proof fn lemma_scrub(segs: Seq<Segment>, base: u64, capacity: int, x: int)
    requires
        ownership::segs_ok(segs, base, capacity),
        base + capacity <= u64::MAX,
    ensures
        payload_at(model::scrub(segs), base + x) == if ownership::segs_have(segs, base, x) {
            Some(0u8)
        } else {
            None
        },
    decreases segs.len(),
{
    if segs.len() > 0 {
        let init = segs.drop_last();
        let s = segs.last();
        assert(segs == init.push(s));
        assert forall|i: int| 0 <= i < init.len() implies ownership::seg_in_arena(
            #[trigger] init[i],
            base,
            capacity,
        ) by {
            assert(init[i] == segs[i]);
        }
        assert forall|i: int, j: int, b: int|
            0 <= i < j < init.len() && #[trigger] ownership::seg_has(
                init[i],
                base,
                b,
            ) implies !#[trigger] ownership::seg_has(init[j], base, b) by {
            assert(init[i] == segs[i] && init[j] == segs[j]);
        }
        lemma_scrub(init, base, capacity, x);
        ownership::lemma_segs_have_push(init, s, base, x);
        assert(ownership::seg_in_arena(segs[segs.len() - 1], base, capacity));
        if s.len == 0 {
            assert(model::scrub(segs) =~= model::scrub(init));
        } else {
            let n = allocator::rounded(s.len as int);
            law_pieces_write_the_data(s.pool_addr, pool::zeroes(n), 4096, base + x);
            lemma_payload_concat(
                model::scrub(init),
                pool::zero_writes(s.pool_addr as int, n),
                base + x,
            );
        }
    } else {
        if ownership::segs_have(segs, base, x) {
            let i = choose|i: int|
                0 <= i < segs.len() && ownership::seg_has(#[trigger] segs[i], base, x);
        }
    }
}

/// Accesses that are no buffer writes leave buffers alone.
pub(crate) proof fn lemma_no_payload(log: Seq<Access>, b: int)
    requires
        forall|i: int| 0 <= i < log.len() ==> !((#[trigger] log[i]) is Write),
    ensures
        payload_at(log, b) is None,
    decreases log.len(),
{
    if log.len() > 0 {
        assert(!(log[log.len() - 1] is Write));
        let init = log.drop_last();
        assert forall|i: int| 0 <= i < init.len() implies !((#[trigger] init[i]) is Write) by {
            assert(init[i] == log[i]);
        }
        lemma_no_payload(init, b);
    }
}

proof fn lemma_prefix_ok(segs: Seq<Segment>, base: u64, capacity: int)
    requires
        ownership::segs_ok(segs, base, capacity),
        segs.len() > 0,
    ensures
        ownership::segs_ok(segs.drop_last(), base, capacity),
{
    let init = segs.drop_last();
    assert forall|i: int| 0 <= i < init.len() implies ownership::seg_in_arena(
        #[trigger] init[i],
        base,
        capacity,
    ) by {
        assert(init[i] == segs[i]);
    }
    assert forall|i: int, j: int, b: int|
        0 <= i < j < init.len() && #[trigger] ownership::seg_has(
            init[i],
            base,
            b,
        ) implies !#[trigger] ownership::seg_has(init[j], base, b) by {
        assert(init[i] == segs[i] && init[j] == segs[j]);
    }
}

/// Whether arena byte `x` is one that copying `data` into `segs` writes.
pub open spec fn filled(segs: Seq<Segment>, data: Seq<Seq<u8>>, base: u64, x: int) -> bool {
    exists|i: int|
        0 <= i < segs.len() && 0 <= base + x - (#[trigger] segs[i]).pool_addr < data[i].len()
}

proof fn lemma_copy_in(
    segs: Seq<Segment>,
    data: Seq<Seq<u8>>,
    base: u64,
    capacity: int,
    x: int,
)
    requires
        ownership::segs_ok(segs, base, capacity),
        base + capacity <= u64::MAX,
        data.len() == segs.len(),
        forall|i: int| 0 <= i < segs.len() ==> (#[trigger] data[i]).len() <= segs[i].len,
    ensures
        !filled(segs, data, base, x) ==> payload_at(
            model::copy_in_writes(segs, data),
            base + x,
        ) is None,
        forall|i: int|
            0 <= i < segs.len() && 0 <= base + x - (#[trigger] segs[i]).pool_addr < data[i].len()
                ==> payload_at(model::copy_in_writes(segs, data), base + x) == Some(
                data[i][base + x - segs[i].pool_addr],
            ),
    decreases segs.len(),
{
    if segs.len() > 0 {
        let n = segs.len() - 1;
        let init = segs.drop_last();
        let s = segs.last();
        let d = data.last();
        lemma_prefix_ok(segs, base, capacity);
        assert forall|i: int| 0 <= i < init.len() implies (#[trigger] data.drop_last()[i]).len()
            <= init[i].len by {
            assert(data[i].len() <= segs[i].len);
        }
        lemma_copy_in(init, data.drop_last(), base, capacity, x);
        assert(ownership::seg_in_arena(segs[n], base, capacity));
        assert(data[n].len() <= segs[n].len);
        if d.len() == 0 {
            assert(memory::piecewise_writes(s.pool_addr as int, d, model::copy_chunk())
                =~= Seq::empty());
            assert(model::copy_in_writes(segs, data) =~= model::copy_in_writes(
                init,
                data.drop_last(),
            ));
        } else {
            law_pieces_write_the_data(s.pool_addr, d, model::copy_chunk(), base + x);
            lemma_payload_concat(
                model::copy_in_writes(init, data.drop_last()),
                memory::piecewise_writes(s.pool_addr as int, d, model::copy_chunk()),
                base + x,
            );
        }
        if filled(init, data.drop_last(), base, x) {
            let i = choose|i: int|
                0 <= i < init.len() && 0 <= base + x - (#[trigger] init[i]).pool_addr
                    < data.drop_last()[i].len();
            assert(0 <= base + x - segs[i].pool_addr < data[i].len());
            assert(filled(segs, data, base, x));
        }
        if 0 <= base + x - segs[n].pool_addr < data[n].len() {
            assert(filled(segs, data, base, x));
        }
        assert forall|i: int|
            0 <= i < segs.len() && 0 <= base + x - (#[trigger] segs[i]).pool_addr
                < data[i].len() implies payload_at(model::copy_in_writes(segs, data), base + x)
            == Some(data[i][base + x - segs[i].pool_addr]) by {
            if i < n {
                assert(init[i] == segs[i]);
                assert(data.drop_last()[i] == data[i]);
                assert(ownership::seg_in_arena(segs[i], base, capacity));
                assert(data[i].len() <= segs[i].len);
                assert(ownership::seg_has(segs[i], base, x));
                if s.pool_addr <= base + x < s.pool_addr + d.len() {
                    assert(ownership::seg_has(segs[n], base, x));
                }
            }
        }
    }
}

/// What publishing does to buffers: what it wrote into the pool is exactly
/// the data of the device-readable buffers.
proof fn lemma_published_payload(s: Scene, map: Set<int>, a: Arrival, x: int)
    requires
        ownership::scene_ok(s),
        model::verdict(s, map, a) is Publish,
        model::data_fits(a.descs, a.data),
    ensures
        ({
            let segs = model::reserve(s.pool.arena, s.pool.arena_base, a.descs).segments;
            payload_at(model::published(s, a).pool.log, s.pool.arena_base + x) == match payload_at(
                model::copy_in_writes(segs, a.data),
                s.pool.arena_base + x,
            ) {
                Some(y) => Some(y),
                None => payload_at(s.pool.log, s.pool.arena_base + x),
            }
        }),
{
    let base = s.pool.arena_base;
    let segs = model::reserve(s.pool.arena, base, a.descs).segments;
    let slots = model::next_slots(s.queue.free_slots, a.descs.len() as int);
    let t = model::published(s, a);
    let ins = model::copy_in_writes(segs, a.data);
    let descs = model::desc_writes(s.queue.ring, segs, slots);
    let rest = descs.push(
        Access::WriteU16 {
            addr: (s.queue.ring.avail + 4 + 2 * (s.queue.avail_idx as int
                % s.queue.size as int)) as u64,
            value: slots[0],
        },
    );
    assert(t.pool.log == s.pool.log + ins + rest);
    lemma_no_payload(rest, base + x);
    lemma_payload_concat(s.pool.log + ins, rest, base + x);
    lemma_payload_concat(s.pool.log, ins, base + x);
}

/// The backend finds in the pool what the guest put into a device-readable
/// buffer: the bytes read from the guest buffer stand in the extent that the
/// shadow descriptor points at.
pub proof fn law_readable_data_reaches_the_pool(s: Scene, map: Set<int>, a: Arrival, i: int, k: int)
    requires
        ownership::scene_ok(s),
        model::verdict(s, map, a) is Publish,
        model::data_fits(a.descs, a.data),
        0 <= i < a.descs.len(),
        !ring::is_writable(a.descs[i]),
        0 <= k < a.descs[i].len,
    ensures
        ({
            let segs = model::reserve(s.pool.arena, s.pool.arena_base, a.descs).segments;
            payload_at(model::published(s, a).pool.log, segs[i].pool_addr + k) == Some(
                a.data[i][k],
            )
        }),
{
    let base = s.pool.arena_base;
    let r = model::reserve(s.pool.arena, base, a.descs);
    let segs = r.segments;
    ownership::lemma_reserve(s.pool.arena, base, a.descs);
    assert forall|j: int| 0 <= j < segs.len() implies (#[trigger] a.data[j]).len() <= segs[j].len by {
        assert(segs[j] == model::segment_of(a.descs[j], segs[j].pool_addr));
    }
    let x = segs[i].pool_addr + k - base;
    lemma_copy_in(segs, a.data, base, s.pool.arena.capacity as int, x);
    lemma_published_payload(s, map, a, x);
    assert(segs[i] == model::segment_of(a.descs[i], segs[i].pool_addr));
    assert(a.data[i].len() == a.descs[i].len);
}

/// Nothing of the guest's reaches the pool through a device-writable buffer:
/// publishing writes no byte of its extent.
pub proof fn law_writable_buffers_are_not_filled(s: Scene, map: Set<int>, a: Arrival, i: int, x: int)
    requires
        ownership::scene_ok(s),
        model::verdict(s, map, a) is Publish,
        model::data_fits(a.descs, a.data),
        0 <= i < a.descs.len(),
        ring::is_writable(a.descs[i]),
        ownership::seg_has(
            model::reserve(s.pool.arena, s.pool.arena_base, a.descs).segments[i],
            s.pool.arena_base,
            x,
        ),
    ensures
        payload_at(model::published(s, a).pool.log, s.pool.arena_base + x) == payload_at(
            s.pool.log,
            s.pool.arena_base + x,
        ),
{
    let base = s.pool.arena_base;
    let r = model::reserve(s.pool.arena, base, a.descs);
    let segs = r.segments;
    let cap = s.pool.arena.capacity as int;
    ownership::lemma_reserve(s.pool.arena, base, a.descs);
    assert forall|j: int| 0 <= j < segs.len() implies (#[trigger] a.data[j]).len() <= segs[j].len by {
        assert(segs[j] == model::segment_of(a.descs[j], segs[j].pool_addr));
    }
    lemma_copy_in(segs, a.data, base, cap, x);
    lemma_published_payload(s, map, a, x);
    if filled(segs, a.data, base, x) {
        let j = choose|j: int|
            0 <= j < segs.len() && 0 <= base + x - (#[trigger] segs[j]).pool_addr < a.data[j].len();
        assert(segs[j] == model::segment_of(a.descs[j], segs[j].pool_addr));
        assert(segs[i] == model::segment_of(a.descs[i], segs[i].pool_addr));
        assert(a.data[j].len() == model::reads_len(a.descs[j]));
        assert(j != i);
        assert(ownership::seg_in_arena(segs[j], base, cap));
        assert(ownership::seg_has(segs[j], base, x));
        assert(ownership::seg_has(segs[i], base, x));
    }
}

/// Accesses that are no buffer writes leave every buffer as it was.
proof fn lemma_payload_push(log: Seq<Access>, a: Access, b: int)
    requires
        !(a is Write),
    ensures
        payload_at(log.push(a), b) == payload_at(log, b),
{
    assert(log.push(a).drop_last() =~= log);
}

/// Free arena space never holds data of a request: mirroring keeps it clean,
/// whether chains are published or the sweep stalls or breaks. A later
/// request, and whoever serves it, cannot see an earlier one's data.
pub proof fn law_mirroring_keeps_free_space_clean(
    s: Scene,
    map: Set<int>,
    xs: Seq<Arrival>,
    done: bool,
    t: Scene,
    out: MirrorOutcome,
)
    requires
        ownership::scene_ok(s),
        clean(s.pool),
        model::mirrored(s, map, xs, done, t, out),
    ensures
        clean(t.pool),
{
    let n = xs.len() as int;
    let end = model::arrive_all(s, map, xs);
    if model::all_published(s, map, xs, n) && out.chains == n {
        lemma_run_clean(s, map, xs, n);
        assert(xs.take(n) =~= xs);
        let e = Scene { guest: end.guest.push(Access::PopChain { popped: None }), ..end };
        lemma_announced_clean(e, n, done);
        assert(t == model::announced(e, n, done));
    } else {
        let m = model::arrive_all(s, map, xs.drop_last());
        lemma_run_clean(s, map, xs, n - 1);
        lemma_run_published(s, map, xs, n - 1);
        assert(xs.take(n - 1) =~= xs.drop_last());
        assert(ownership::scene_ok(m)) by {
            reveal(handed_over);
        }
        lemma_clean_arrival(m, map, xs.last());
        assert(end == model::arrive(m, map, xs.last()));
        lemma_announced_clean(end, n - 1, done);
        assert(t == model::announced(end, n - 1, done));
    }
}

/// Completing keeps free arena space clean too: what a chain gives back has
/// been scrubbed, also when its data could not be written back.
pub proof fn law_completing_keeps_free_space_clean(
    s: Scene,
    map: Set<int>,
    h: Harvest,
    t: Scene,
    out: CompleteOutcome,
)
    requires
        ownership::scene_ok(s),
        clean(s.pool),
        model::completed(s, map, h, t, out),
    ensures
        clean(t.pool),
{
    let start = model::index_loaded(s, h.used_idx);
    let cs = h.completions;
    let n = cs.len() as int;
    assert(clean(start.pool)) by {
        assert forall|x: int| #[trigger] start.pool.arena.free_at(x) implies {
            ||| payload_at(start.pool.log, start.pool.arena_base + x) is None
            ||| payload_at(start.pool.log, start.pool.arena_base + x) == Some(0u8)
        } by {
            assert(s.pool.arena.free_at(x));
            lemma_payload_push(s.pool.log, start.pool.log.last(), s.pool.arena_base + x);
            assert(start.pool.log.drop_last() =~= s.pool.log);
        }
    }
    match h.used_idx {
        None => {},
        Some(idx) => {
            if model::all_succeed(start, map, cs, idx, n) && out.chains == n {
                lemma_completions_clean(start, map, cs, idx, n);
                assert(cs.take(n) =~= cs);
            } else {
                lemma_completions_clean(start, map, cs, idx, n - 1);
                lemma_run_completed(start, map, cs, idx, n - 1);
                assert(cs.take(n - 1) =~= cs.drop_last());
                let at = model::complete_all(start, cs.drop_last());
                assert(ownership::scene_ok(at)) by {
                    reveal(gave_back);
                }
                lemma_clean_completion(at, cs.last());
            }
        },
    }
}

proof fn lemma_run_clean(s: Scene, map: Set<int>, xs: Seq<Arrival>, n: int)
    requires
        ownership::scene_ok(s),
        clean(s.pool),
        0 <= n <= xs.len(),
        model::all_published(s, map, xs, n),
    ensures
        clean(model::arrive_all(s, map, xs.take(n)).pool),
    decreases n,
{
    let ys = xs.take(n);
    if n == 0 {
        assert(ys =~= Seq::empty());
    } else {
        lemma_published_prefix(s, map, xs, n);
        lemma_run_clean(s, map, xs.take(n - 1), n - 1);
        lemma_run_published(s, map, xs.take(n - 1), n - 1);
        assert(xs.take(n - 1).take(n - 1) =~= xs.take(n - 1));
        assert(ys.drop_last() =~= xs.take(n - 1));
        assert(ys.last() == xs[n - 1]);
        let m = model::arrive_all(s, map, xs.take(n - 1));
        assert(ownership::scene_ok(m)) by {
            reveal(handed_over);
        }
        lemma_clean_arrival(m, map, xs[n - 1]);
    }
}

proof fn lemma_announced_clean(s: Scene, chains: int, done: bool)
    requires
        clean(s.pool),
    ensures
        clean(model::announced(s, chains, done).pool),
{
    let t = model::announced(s, chains, done);
    if chains != 0 {
        assert forall|x: int| #[trigger] t.pool.arena.free_at(x) implies {
            ||| payload_at(t.pool.log, t.pool.arena_base + x) is None
            ||| payload_at(t.pool.log, t.pool.arena_base + x) == Some(0u8)
        } by {
            assert(s.pool.arena.free_at(x));
            lemma_payload_push(s.pool.log, t.pool.log.last(), s.pool.arena_base + x);
        }
    }
}

proof fn lemma_completions_clean(s: Scene, map: Set<int>, cs: Seq<Completion>, idx: u16, n: int)
    requires
        ownership::scene_ok(s),
        clean(s.pool),
        0 <= n <= cs.len(),
        model::all_succeed(s, map, cs, idx, n),
    ensures
        clean(model::complete_all(s, cs.take(n)).pool),
    decreases n,
{
    let ds = cs.take(n);
    if n == 0 {
        assert(ds =~= Seq::empty());
    } else {
        lemma_succeed_prefix(s, map, cs, idx, n);
        lemma_completions_clean(s, map, cs.take(n - 1), idx, n - 1);
        lemma_run_completed(s, map, cs.take(n - 1), idx, n - 1);
        assert(cs.take(n - 1).take(n - 1) =~= cs.take(n - 1));
        assert(ds.drop_last() =~= cs.take(n - 1));
        assert(ds.last() == cs[n - 1]);
        let m = model::complete_all(s, cs.take(n - 1));
        assert(ownership::scene_ok(m)) by {
            reveal(gave_back);
        }
        lemma_clean_completion(m, cs[n - 1]);
    }
}

proof fn lemma_clean_arrival(s: Scene, map: Set<int>, a: Arrival)
    requires
        ownership::scene_ok(s),
        clean(s.pool),
        model::verdict(s, map, a) is Publish ==> model::data_fits(a.descs, a.data),
    ensures
        clean(model::arrive(s, map, a).pool),
{
    let base = s.pool.arena_base;
    let cap = s.pool.arena.capacity as int;
    let t = model::arrive(s, map, a);
    let r = model::reserve(s.pool.arena, base, a.descs);
    ownership::lemma_reserve(s.pool.arena, base, a.descs);
    match model::verdict(s, map, a) {
        model::Verdict::Broken(_) => {},
        model::Verdict::Stall => {
            if s.queue.free_slots.len() >= a.descs.len() {
                assert forall|x: int| #[trigger] t.pool.arena.free_at(x) implies {
                    ||| payload_at(t.pool.log, base + x) is None
                    ||| payload_at(t.pool.log, base + x) == Some(0u8)
                } by {
                    lemma_scrub(r.segments, base, cap, x);
                    lemma_payload_concat(s.pool.log, model::scrub(r.segments), base + x);
                    assert(s.pool.arena.free_at(x));
                }
            }
        },
        model::Verdict::Publish => {
            assert forall|x: int| #[trigger] t.pool.arena.free_at(x) implies {
                ||| payload_at(t.pool.log, base + x) is None
                ||| payload_at(t.pool.log, base + x) == Some(0u8)
            } by {
                let segs = r.segments;
                assert forall|j: int| 0 <= j < segs.len() implies (#[trigger] a.data[j]).len()
                    <= segs[j].len by {
                    assert(segs[j] == model::segment_of(a.descs[j], segs[j].pool_addr));
                }
                lemma_copy_in(segs, a.data, base, cap, x);
                lemma_published_payload(s, map, a, x);
                assert(r.arena.free_at(x));
                assert(s.pool.arena.free_at(x));
                if filled(segs, a.data, base, x) {
                    let j = choose|j: int|
                        0 <= j < segs.len() && 0 <= base + x - (#[trigger] segs[j]).pool_addr
                            < a.data[j].len();
                    assert(ownership::seg_in_arena(segs[j], base, cap));
                    assert(a.data[j].len() <= segs[j].len);
                    assert(ownership::seg_has(segs[j], base, x));
                    assert(ownership::segs_have(segs, base, x));
                }
            }
        },
    }
}

/// Fetching a used element writes nothing.
pub(crate) proof fn lemma_fetch_reads(s: Scene, c: Completion, b: int)
    ensures
        payload_at(model::fetched(s, c).pool.log, b) == payload_at(s.pool.log, b),
{
    let addr = s.queue.ring.used + 4 + 8 * (s.queue.next_used as int % s.queue.size as int);
    let first = Access::ReadU32 { addr: addr as u64, word: c.id };
    let second = Access::ReadU32 { addr: (addr + 4) as u64, word: c.len };
    if s.queue.size != 0 {
        lemma_payload_push(s.pool.log, first, b);
        lemma_payload_push(s.pool.log.push(first), second, b);
    }
}

proof fn lemma_clean_completion(s: Scene, c: Completion)
    requires
        ownership::scene_ok(s),
        clean(s.pool),
    ensures
        clean(model::complete(s, c).pool),
{
    let base = s.pool.arena_base;
    let cap = s.pool.arena.capacity as int;
    let t = model::complete(s, c);
    let f = model::fetched(s, c);
    assert forall|b: int| payload_at(f.pool.log, b) == #[trigger] payload_at(s.pool.log, b) by {
        lemma_fetch_reads(s, c, b);
    }
    match model::lookup(s.queue, c.id) {
        None => {
            assert forall|x: int| #[trigger] t.pool.arena.free_at(x) implies {
                ||| payload_at(t.pool.log, base + x) is None
                ||| payload_at(t.pool.log, base + x) == Some(0u8)
            } by {
                assert(payload_at(f.pool.log, base + x) == payload_at(s.pool.log, base + x));
                assert(s.pool.arena.free_at(x));
            }
        },
        Some(chain) => {
            let reads = model::copy_back_reads(chain.segments, c.data);
            let id = c.id as int;
            assert(s.queue.inflight[id] is Some);
            assert forall|x: int| #[trigger] ownership::segs_have(
                chain.segments,
                base,
                x,
            ) implies !s.pool.arena.free_at(x) by {
                assert(s.queue.owns(base, id, x));
            }
            ownership::lemma_release(s.pool.arena, base, chain.segments);
            assert forall|x: int| #[trigger] t.pool.arena.free_at(x) implies {
                ||| payload_at(t.pool.log, base + x) is None
                ||| payload_at(t.pool.log, base + x) == Some(0u8)
            } by {
                assert(t.pool.log == f.pool.log + reads + model::scrub(chain.segments));
                lemma_reads_only(chain.segments, c.data);
                lemma_no_payload(reads, base + x);
                lemma_payload_concat(f.pool.log, reads, base + x);
                lemma_scrub(chain.segments, base, cap, x);
                lemma_payload_concat(
                    f.pool.log + reads,
                    model::scrub(chain.segments),
                    base + x,
                );
                assert(payload_at(f.pool.log, base + x) == payload_at(s.pool.log, base + x));
                assert(t.pool.arena.free_at(x) == (s.pool.arena.free_at(x) || ownership::segs_have(
                    chain.segments,
                    base,
                    x,
                )));
            }
        },
    }
}

proof fn lemma_pieces_are_reads(addr: int, data: Seq<u8>, chunk: int)
    ensures
        forall|i: int|
            0 <= i < memory::piecewise_reads(addr, data, chunk).len() ==> (
            #[trigger] memory::piecewise_reads(addr, data, chunk)[i]) is Read,
    decreases data.len(),
{
    let start = memory::last_piece(data.len() as int, chunk);
    if data.len() > 0 && 0 <= start < data.len() {
        lemma_pieces_are_reads(addr, data.take(start), chunk);
    }
}

pub(crate) proof fn lemma_reads_only(segs: Seq<Segment>, data: Seq<Seq<u8>>)
    ensures
        forall|i: int|
            0 <= i < model::copy_back_reads(segs, data).len() ==> !((
            #[trigger] model::copy_back_reads(segs, data)[i]) is Write),
    decreases data.len(),
{
    if data.len() > 0 {
        lemma_reads_only(segs, data.drop_last());
        lemma_pieces_are_reads(
            segs[data.len() - 1].pool_addr as int,
            data.last(),
            model::copy_chunk(),
        );
    }
}

// ---- Buffers in use ----

/// Mirroring leaves every buffer in use alone, whichever queue it belongs to:
/// what stands in it is not touched until it is given back.
pub proof fn law_mirroring_spares_buffers_in_use(
    s: Scene,
    map: Set<int>,
    xs: Seq<Arrival>,
    done: bool,
    t: Scene,
    out: MirrorOutcome,
    x: int,
)
    requires
        ownership::scene_ok(s),
        model::mirrored(s, map, xs, done, t, out),
        !s.pool.arena.free_at(x),
    ensures
        !t.pool.arena.free_at(x),
        payload_at(t.pool.log, s.pool.arena_base + x) == payload_at(
            s.pool.log,
            s.pool.arena_base + x,
        ),
{
    let n = xs.len() as int;
    let b = s.pool.arena_base + x;
    let end = model::arrive_all(s, map, xs);
    if model::all_published(s, map, xs, n) && out.chains == n {
        lemma_run_spares(s, map, xs, n, x);
        assert(xs.take(n) =~= xs);
    } else {
        let m = model::arrive_all(s, map, xs.drop_last());
        lemma_run_spares(s, map, xs, n - 1, x);
        lemma_run_published(s, map, xs, n - 1);
        assert(xs.take(n - 1) =~= xs.drop_last());
        assert(ownership::scene_ok(m) && m.pool.arena_base == s.pool.arena_base) by {
            reveal(handed_over);
        }
        lemma_arrival_spares(m, map, xs.last(), x);
        assert(end == model::arrive(m, map, xs.last()));
    }
    if out.chains > 0 {
        lemma_payload_push(end.pool.log, t.pool.log.last(), b);
        assert(t.pool.log =~= end.pool.log.push(t.pool.log.last()));
    }
}

proof fn lemma_arrival_spares(s: Scene, map: Set<int>, a: Arrival, x: int)
    requires
        ownership::scene_ok(s),
        model::verdict(s, map, a) is Publish ==> model::data_fits(a.descs, a.data),
        !s.pool.arena.free_at(x),
    ensures
        ({
            let t = model::arrive(s, map, a);
            &&& !t.pool.arena.free_at(x)
            &&& payload_at(t.pool.log, s.pool.arena_base + x) == payload_at(
                s.pool.log,
                s.pool.arena_base + x,
            )
        }),
{
    let base = s.pool.arena_base;
    let cap = s.pool.arena.capacity as int;
    let r = model::reserve(s.pool.arena, base, a.descs);
    let segs = r.segments;
    ownership::lemma_reserve(s.pool.arena, base, a.descs);
    assert(!ownership::segs_have(segs, base, x));
    match model::verdict(s, map, a) {
        model::Verdict::Broken(_) => {},
        model::Verdict::Stall => {
            lemma_scrub(segs, base, cap, x);
            lemma_payload_concat(s.pool.log, model::scrub(segs), base + x);
        },
        model::Verdict::Publish => {
            assert forall|j: int| 0 <= j < segs.len() implies (#[trigger] a.data[j]).len()
                <= segs[j].len by {
                assert(segs[j] == model::segment_of(a.descs[j], segs[j].pool_addr));
            }
            lemma_copy_in(segs, a.data, base, cap, x);
            lemma_published_payload(s, map, a, x);
            if filled(segs, a.data, base, x) {
                let j = choose|j: int|
                    0 <= j < segs.len() && 0 <= base + x - (#[trigger] segs[j]).pool_addr
                        < a.data[j].len();
                assert(a.data[j].len() <= segs[j].len);
                assert(ownership::seg_has(segs[j], base, x));
            }
        },
    }
}

proof fn lemma_run_spares(s: Scene, map: Set<int>, xs: Seq<Arrival>, n: int, x: int)
    requires
        ownership::scene_ok(s),
        0 <= n <= xs.len(),
        model::all_published(s, map, xs, n),
        !s.pool.arena.free_at(x),
    ensures
        ({
            let t = model::arrive_all(s, map, xs.take(n));
            &&& !t.pool.arena.free_at(x)
            &&& payload_at(t.pool.log, s.pool.arena_base + x) == payload_at(
                s.pool.log,
                s.pool.arena_base + x,
            )
        }),
    decreases n,
{
    let ys = xs.take(n);
    if n == 0 {
        assert(ys =~= Seq::empty());
    } else {
        lemma_published_prefix(s, map, xs, n);
        lemma_run_spares(s, map, xs.take(n - 1), n - 1, x);
        lemma_run_published(s, map, xs.take(n - 1), n - 1);
        assert(xs.take(n - 1).take(n - 1) =~= xs.take(n - 1));
        assert(ys.drop_last() =~= xs.take(n - 1));
        assert(ys.last() == xs[n - 1]);
        let m = model::arrive_all(s, map, xs.take(n - 1));
        assert(ownership::scene_ok(m) && m.pool.arena_base == s.pool.arena_base) by {
            reveal(handed_over);
        }
        lemma_arrival_spares(m, map, xs[n - 1], x);
    }
}

/// Completing touches no buffer but those of the queue's own chains: another
/// queue's data stays where it is.
pub proof fn law_completing_spares_other_buffers(
    s: Scene,
    map: Set<int>,
    h: Harvest,
    t: Scene,
    out: CompleteOutcome,
    x: int,
)
    requires
        ownership::scene_ok(s),
        model::completed(s, map, h, t, out),
        !s.queue.owns_byte(s.pool.arena_base, x),
    ensures
        t.pool.arena.free_at(x) == s.pool.arena.free_at(x),
        payload_at(t.pool.log, s.pool.arena_base + x) == payload_at(
            s.pool.log,
            s.pool.arena_base + x,
        ),
{
    let start = model::index_loaded(s, h.used_idx);
    let cs = h.completions;
    let n = cs.len() as int;
    let b = s.pool.arena_base + x;
    lemma_payload_push(s.pool.log, start.pool.log.last(), b);
    assert(start.pool.log =~= s.pool.log.push(start.pool.log.last()));
    assert(!start.queue.owns_byte(start.pool.arena_base, x));
    match h.used_idx {
        None => {},
        Some(idx) => {
            if model::all_succeed(start, map, cs, idx, n) && out.chains == n {
                lemma_completions_spare(start, map, cs, idx, n, x);
                assert(cs.take(n) =~= cs);
            } else {
                lemma_completions_spare(start, map, cs, idx, n - 1, x);
                lemma_run_completed(start, map, cs, idx, n - 1);
                assert(cs.take(n - 1) =~= cs.drop_last());
                let at = model::complete_all(start, cs.drop_last());
                assert(ownership::scene_ok(at) && at.pool.arena_base == s.pool.arena_base) by {
                    reveal(gave_back);
                }
                lemma_completion_spares(at, cs.last(), x);
            }
        },
    }
}

proof fn lemma_completion_spares(s: Scene, c: Completion, x: int)
    requires
        ownership::scene_ok(s),
        !s.queue.owns_byte(s.pool.arena_base, x),
    ensures
        ({
            let t = model::complete(s, c);
            &&& t.pool.arena.free_at(x) == s.pool.arena.free_at(x)
            &&& !t.queue.owns_byte(s.pool.arena_base, x)
            &&& payload_at(t.pool.log, s.pool.arena_base + x) == payload_at(
                s.pool.log,
                s.pool.arena_base + x,
            )
        }),
{
    let base = s.pool.arena_base;
    let cap = s.pool.arena.capacity as int;
    let t = model::complete(s, c);
    let f = model::fetched(s, c);
    lemma_fetch_reads(s, c, base + x);
    match model::lookup(s.queue, c.id) {
        None => {
            assert forall|k: int| !#[trigger] t.queue.owns(base, k, x) by {
                assert(!s.queue.owns(base, k, x));
            }
        },
        Some(chain) => {
            let reads = model::copy_back_reads(chain.segments, c.data);
            let id = c.id as int;
            assert(s.queue.inflight[id] is Some);
            assert(!s.queue.owns(base, id, x));
            assert forall|y: int| #[trigger] ownership::segs_have(
                chain.segments,
                base,
                y,
            ) implies !s.pool.arena.free_at(y) by {
                assert(s.queue.owns(base, id, y));
            }
            ownership::lemma_release(s.pool.arena, base, chain.segments);
            assert(!ownership::segs_have(chain.segments, base, x));
            assert(t.pool.log == f.pool.log + reads + model::scrub(chain.segments));
            lemma_reads_only(chain.segments, c.data);
            lemma_no_payload(reads, base + x);
            lemma_payload_concat(f.pool.log, reads, base + x);
            lemma_scrub(chain.segments, base, cap, x);
            lemma_payload_concat(f.pool.log + reads, model::scrub(chain.segments), base + x);
            assert forall|k: int| !#[trigger] t.queue.owns(base, k, x) by {
                assert(!s.queue.owns(base, k, x));
            }
        },
    }
}

proof fn lemma_completions_spare(
    s: Scene,
    map: Set<int>,
    cs: Seq<Completion>,
    idx: u16,
    n: int,
    x: int,
)
    requires
        ownership::scene_ok(s),
        0 <= n <= cs.len(),
        model::all_succeed(s, map, cs, idx, n),
        !s.queue.owns_byte(s.pool.arena_base, x),
    ensures
        ({
            let t = model::complete_all(s, cs.take(n));
            &&& t.pool.arena.free_at(x) == s.pool.arena.free_at(x)
            &&& !t.queue.owns_byte(s.pool.arena_base, x)
            &&& payload_at(t.pool.log, s.pool.arena_base + x) == payload_at(
                s.pool.log,
                s.pool.arena_base + x,
            )
        }),
    decreases n,
{
    let ds = cs.take(n);
    if n == 0 {
        assert(ds =~= Seq::empty());
    } else {
        lemma_succeed_prefix(s, map, cs, idx, n);
        lemma_completions_spare(s, map, cs.take(n - 1), idx, n - 1, x);
        lemma_run_completed(s, map, cs.take(n - 1), idx, n - 1);
        assert(cs.take(n - 1).take(n - 1) =~= cs.take(n - 1));
        assert(ds.drop_last() =~= cs.take(n - 1));
        assert(ds.last() == cs[n - 1]);
        let m = model::complete_all(s, cs.take(n - 1));
        assert(ownership::scene_ok(m) && m.pool.arena_base == s.pool.arena_base) by {
            reveal(gave_back);
        }
        lemma_completion_spares(m, cs[n - 1], x);
    }
}

// ---- Chains ----

/// The backend sees the guest's chain, moved into the pool: one shadow
/// descriptor per guest descriptor, in order and linked, of the same length
/// and direction, whose buffer lies in the arena. An empty buffer keeps its
/// place in the chain.
pub proof fn law_shadow_chain_mirrors_the_guest_chain(s: Scene, map: Set<int>, a: Arrival, i: int)
    requires
        ownership::scene_ok(s),
        model::verdict(s, map, a) is Publish,
        0 <= i < a.descs.len(),
    ensures
        ({
            let segs = model::reserve(s.pool.arena, s.pool.arena_base, a.descs).segments;
            let slots = model::next_slots(s.queue.free_slots, a.descs.len() as int);
            let d = model::shadow_desc(segs, slots, i);
            &&& segs.len() == a.descs.len()
            &&& slots.no_duplicates()
            &&& d.len == a.descs[i].len
            &&& ring::is_writable(d) == ring::is_writable(a.descs[i])
            &&& ring::claims_next(d) == (i + 1 < a.descs.len())
            &&& i + 1 < a.descs.len() ==> d.next == slots[i + 1]
            &&& d.flags & ring::VRING_DESC_F_INDIRECT == 0
            &&& d.len != 0 ==> s.pool.arena_base <= d.addr && d.addr + d.len <= s.pool.arena_base
                + s.pool.arena.capacity
            &&& d.len == 0 ==> d.addr == 0
        }),
{
    let base = s.pool.arena_base;
    let r = model::reserve(s.pool.arena, base, a.descs);
    let segs = r.segments;
    let slots = model::next_slots(s.queue.free_slots, a.descs.len() as int);
    ownership::lemma_reserve(s.pool.arena, base, a.descs);
    ownership::lemma_next_slots(s.queue.free_slots, a.descs.len() as int);
    assert(segs[i] == model::segment_of(a.descs[i], segs[i].pool_addr));
    assert(ownership::seg_in_arena(segs[i], base, s.pool.arena.capacity as int));
    if a.descs[i].len == 0 {
        lemma_empty_at_zero(s.pool.arena, base, a.descs, i);
    }
    assert((2u16 | 1u16) & 2u16 != 0 && (2u16 | 1u16) & 1u16 != 0 && (2u16 | 1u16) & 4u16 == 0 && (
    2u16 | 0u16) & 2u16 != 0 && (2u16 | 0u16) & 1u16 == 0 && (2u16 | 0u16) & 4u16 == 0 && (0u16
        | 1u16) & 2u16 == 0 && (0u16 | 1u16) & 1u16 != 0 && (0u16 | 1u16) & 4u16 == 0 && (0u16
        | 0u16) & 2u16 == 0 && (0u16 | 0u16) & 1u16 == 0 && (0u16 | 0u16) & 4u16 == 0) by (
        bit_vector);
}

proof fn lemma_empty_at_zero(arena: Arena, base: u64, descs: Seq<ring::Descriptor>, i: int)
    requires
        arena.wf(),
        base + arena.capacity <= u64::MAX,
        0 <= i < model::reserve(arena, base, descs).segments.len(),
        model::reserve(arena, base, descs).segments[i].len == 0,
    ensures
        model::reserve(arena, base, descs).segments[i].pool_addr == 0,
    decreases descs.len(),
{
    if descs.len() > 0 {
        let p = model::reserve(arena, base, descs.drop_last());
        let r = model::reserve(arena, base, descs);
        ownership::lemma_reserve(arena, base, descs);
        if i < p.segments.len() {
            assert(r.segments[i] == p.segments[i]);
            lemma_empty_at_zero(arena, base, descs.drop_last(), i);
        } else {
            assert(r.segments[i] == model::segment_of(descs[i], r.segments[i].pool_addr));
            assert(descs[i] == descs.last());
        }
    }
}

/// A chain that does not fit right now is left alone: the arena, the slots,
/// the chains in flight, the counters and the guest queue's position are as
/// they were, and all that was written is zeroes over what had been reserved
/// on the way.
pub proof fn law_stall_is_all_or_nothing(s: Scene, map: Set<int>, a: Arrival)
    requires
        ownership::scene_ok(s),
        model::verdict(s, map, a) is Stall,
    ensures
        ({
            let t = model::arrive(s, map, a);
            &&& t.pool.arena == s.pool.arena
            &&& t.queue.free_slots == s.queue.free_slots
            &&& t.queue.inflight == s.queue.inflight
            &&& t.queue.avail_idx == s.queue.avail_idx
            &&& t.queue.next_used == s.queue.next_used
            &&& t.ring == s.ring
            &&& forall|x: int|
                #![trigger payload_at(t.pool.log, s.pool.arena_base + x)]
                payload_at(t.pool.log, s.pool.arena_base + x) == payload_at(
                    s.pool.log,
                    s.pool.arena_base + x,
                ) || payload_at(t.pool.log, s.pool.arena_base + x) == Some(0u8)
                    && s.pool.arena.free_at(x)
        }),
{
    let t = model::arrive(s, map, a);
    let base = s.pool.arena_base;
    let r = model::reserve(s.pool.arena, base, a.descs);
    ownership::lemma_reserve(s.pool.arena, base, a.descs);
    if s.queue.free_slots.len() >= a.descs.len() {
        assert forall|x: int|
            #![trigger payload_at(t.pool.log, base + x)]
            payload_at(t.pool.log, base + x) == payload_at(s.pool.log, base + x) || payload_at(
                t.pool.log,
                base + x,
            ) == Some(0u8) && s.pool.arena.free_at(x) by {
            lemma_scrub(r.segments, base, s.pool.arena.capacity as int, x);
            lemma_payload_concat(s.pool.log, model::scrub(r.segments), base + x);
            if ownership::segs_have(r.segments, base, x) {
                assert(s.pool.arena.free_at(x));
            }
        }
    }
}

/// The bytes that the first `n` of `data` hold.
pub open spec fn bytes_total(data: Seq<Seq<u8>>, n: int) -> int
    decreases n,
{
    if n <= 0 {
        0
    } else {
        bytes_total(data, n - 1) + data[n - 1].len()
    }
}

/// Every guest write of copying back lies in a device-writable buffer that
/// the chain captured, and the bytes copied add up to no more than the length
/// reported to the guest, which is no more than the backend claimed or was
/// allowed to write.
pub proof fn law_write_back_stays_in_captured_buffers(
    map: Set<int>,
    segs: Seq<Segment>,
    len: u32,
    data: Seq<Seq<u8>>,
    copied: bool,
    k: int,
)
    requires
        model::copied_back(map, segs, model::capped_len(segs, len), data, copied),
        forall|i: int|
            0 <= i < segs.len() && (#[trigger] segs[i]).len != 0 ==> segs[i].guest_addr
                + segs[i].len <= u64::MAX,
        0 <= k < model::copy_back_writes(segs, data).len(),
    ensures
        bytes_total(data, data.len() as int) <= model::capped_len(segs, len),
        model::capped_len(segs, len) <= len,
        model::capped_len(segs, len) <= model::writable_total(segs),
        model::copy_back_writes(segs, data)[k] matches Access::Write { addr, bytes } && exists|i: int|
            0 <= i < segs.len() && (#[trigger] segs[i]).writable && segs[i].guest_addr <= addr
                && addr + bytes.len() <= segs[i].guest_addr + segs[i].len,
{
    let n = model::capped_len(segs, len);
    assert forall|i: int| 0 <= i < data.len() implies 0 <= i < segs.len() && (
    #[trigger] data[i]).len() <= model::share(segs, n, i) by {
        let whole = if copied {
            data.len() as int
        } else {
            data.len() - 1
        };
        if i < whole {
            assert(model::share_copied(map, segs, n, data, i));
        }
    }
    lemma_writable_total(segs, segs.len() as int);
    assert(segs.take(segs.len() as int) =~= segs);
    lemma_shares_add_up(segs, n, data, data.len() as int);
    lemma_writes_confined(segs, data, k);
}

proof fn lemma_writable_total(segs: Seq<Segment>, n: int)
    requires
        0 <= n <= segs.len(),
    ensures
        model::writable_total(segs.take(n)) >= 0,
        n < segs.len() ==> model::writable_total(segs.take(n + 1)) == model::writable_total(
            segs.take(n),
        ) + (if segs[n].writable {
            segs[n].len as int
        } else {
            0
        }),
    decreases n,
{
    if n > 0 {
        lemma_writable_total(segs, n - 1);
    }
    if n < segs.len() {
        assert(segs.take(n + 1).drop_last() =~= segs.take(n));
    }
}

/// The shares of the buffers add up to no more than what was written.
proof fn lemma_shares_add_up(segs: Seq<Segment>, len: int, data: Seq<Seq<u8>>, n: int)
    requires
        0 <= len,
        0 <= n <= data.len() <= segs.len(),
        forall|i: int|
            0 <= i < data.len() ==> (#[trigger] data[i]).len() <= model::share(segs, len, i),
    ensures
        bytes_total(data, n) <= len,
        bytes_total(data, n) <= model::writable_total(segs.take(n)),
    decreases n,
{
    if n > 0 {
        lemma_shares_add_up(segs, len, data, n - 1);
        lemma_writable_total(segs, n - 1);
        assert(data[n - 1].len() <= model::share(segs, len, n - 1));
    } else {
        lemma_writable_total(segs, 0);
    }
}

/// The guest finds in a device-writable buffer what the backend left in the
/// pool: the bytes read from the extent of the buffer stand in the buffer,
/// as many as fall to it of the length reported, unless a later buffer of
/// the same chain covers the same guest address.
pub proof fn law_written_data_reaches_the_guest(s: Scene, map: Set<int>, c: Completion, i: int, k: int)
    requires
        ownership::scene_ok(s),
        model::completion_ok(s, map, c),
        model::succeeds(s, c),
        ({
            let segs = (model::lookup(s.queue, c.id)->0).segments;
            let len = model::capped_len(segs, c.len);
            &&& 0 <= i < segs.len()
            &&& 0 <= k < model::share(segs, len, i)
            &&& forall|j: int|
                i < j < segs.len() ==> !(0 <= segs[i].guest_addr + k - (
                #[trigger] segs[j]).guest_addr < model::share(segs, len, j))
        }),
    ensures
        ({
            let segs = (model::lookup(s.queue, c.id)->0).segments;
            let t = model::complete(s, c);
            &&& payload_at(t.guest, segs[i].guest_addr + k) == Some(c.data[i][k])
            &&& t.pool.log == model::fetched(s, c).pool.log + model::copy_back_reads(segs, c.data)
                + model::scrub(segs)
        }),
{
    let chain = model::lookup(s.queue, c.id)->0;
    let segs = chain.segments;
    let len = model::capped_len(segs, c.len);
    let b = segs[i].guest_addr + k;
    let writes = model::copy_back_writes(segs, c.data);
    assert(s.queue.inflight[c.id as int] is Some);
    assert(ownership::chain_ok(chain, c.id as int));
    assert forall|j: int| 0 <= j < segs.len() implies (#[trigger] c.data[j]).len()
        == model::share(segs, len, j) by {
        assert(model::share_copied(map, segs, len, c.data, j));
    }
    lemma_copy_back(segs, c.data, c.data.len() as int, i, k);
    assert(c.data.take(c.data.len() as int) =~= c.data);
    lemma_payload_concat(s.guest, writes, b);
    let t = model::complete(s, c);
    lemma_payload_push(s.guest + writes, t.guest.last(), b);
    assert(t.guest.drop_last() =~= s.guest + writes);
    assert(t.guest =~= (s.guest + writes).push(t.guest.last()));
}

proof fn lemma_copy_back(segs: Seq<Segment>, data: Seq<Seq<u8>>, n: int, i: int, k: int)
    requires
        0 <= i < n <= data.len() <= segs.len(),
        forall|j: int|
            0 <= j < segs.len() && (#[trigger] segs[j]).len != 0 ==> segs[j].guest_addr
                + segs[j].len <= u64::MAX,
        forall|j: int| 0 <= j < data.len() ==> (#[trigger] data[j]).len() <= segs[j].len,
        0 <= k < data[i].len(),
        forall|j: int|
            i < j < n ==> !(0 <= segs[i].guest_addr + k - (#[trigger] segs[j]).guest_addr
                < data[j].len()),
    ensures
        payload_at(model::copy_back_writes(segs, data.take(n)), segs[i].guest_addr + k) == Some(
            data[i][k],
        ),
    decreases n,
{
    let b = segs[i].guest_addr + k;
    let part = data.take(n);
    let last = data[n - 1];
    assert(part.drop_last() =~= data.take(n - 1));
    assert(part.last() == last);
    assert(last.len() <= segs[n - 1].len);
    let init = model::copy_back_writes(segs, data.take(n - 1));
    let tail = memory::piecewise_writes(
        segs[n - 1].guest_addr as int,
        last,
        model::copy_chunk(),
    );
    lemma_payload_concat(init, tail, b);
    if last.len() == 0 {
        assert(tail =~= Seq::empty());
    } else {
        law_pieces_write_the_data(segs[n - 1].guest_addr, last, model::copy_chunk(), b);
    }
    if i < n - 1 {
        lemma_copy_back(segs, data, n - 1, i, k);
    }
}

proof fn lemma_writes_confined(segs: Seq<Segment>, data: Seq<Seq<u8>>, k: int)
    requires
        data.len() <= segs.len(),
        forall|i: int|
            0 <= i < data.len() ==> (#[trigger] data[i]).len() <= if segs[i].writable {
                segs[i].len as int
            } else {
                0
            },
        forall|i: int|
            0 <= i < segs.len() && (#[trigger] segs[i]).len != 0 ==> segs[i].guest_addr
                + segs[i].len <= u64::MAX,
        0 <= k < model::copy_back_writes(segs, data).len(),
    ensures
        model::copy_back_writes(segs, data)[k] matches Access::Write { addr, bytes } && exists|i: int|
            0 <= i < segs.len() && (#[trigger] segs[i]).writable && segs[i].guest_addr <= addr
                && addr + bytes.len() <= segs[i].guest_addr + segs[i].len,
    decreases data.len(),
{
    let n = data.len() - 1;
    let init = model::copy_back_writes(segs, data.drop_last());
    let last = memory::piecewise_writes(
        segs[n].guest_addr as int,
        data.last(),
        model::copy_chunk(),
    );
    assert(data[n].len() <= if segs[n].writable {
        segs[n].len as int
    } else {
        0
    });
    if k < init.len() {
        assert forall|i: int| 0 <= i < data.drop_last().len() implies (
        #[trigger] data.drop_last()[i]).len() <= if segs[i].writable {
            segs[i].len as int
        } else {
            0
        } by {
            assert(data.drop_last()[i] == data[i]);
        }
        lemma_writes_confined(segs, data.drop_last(), k);
        assert(model::copy_back_writes(segs, data)[k] == init[k]);
    } else {
        assert(model::copy_back_writes(segs, data)[k] == last[k - init.len()]);
        lemma_pieces_in_range(segs[n].guest_addr, data.last(), model::copy_chunk(), k - init.len());
        assert(data.last().len() > 0);
        assert(segs[n].writable);
    }
}

proof fn lemma_pieces_in_range(addr: u64, data: Seq<u8>, chunk: int, k: int)
    requires
        chunk > 0,
        addr + data.len() <= u64::MAX,
        0 <= k < memory::piecewise_writes(addr as int, data, chunk).len(),
    ensures
        data.len() > 0,
        memory::piecewise_writes(addr as int, data, chunk)[k] matches Access::Write {
            addr: a,
            bytes,
        } && addr <= a && a + bytes.len() <= addr + data.len(),
    decreases data.len(),
{
    let start = memory::last_piece(data.len() as int, chunk);
    if data.len() > 0 {
        lemma_last_piece_bounds(data.len() as int, chunk);
    }
    let init = memory::piecewise_writes(addr as int, data.take(start), chunk);
    if k < init.len() {
        lemma_pieces_in_range(addr, data.take(start), chunk, k);
    }
}

// ---- Places ----

/// Where a queue of the pool may write: its own rings and the arena.
pub struct Places {
    pub ring: RingOffsets,
    pub size: u16,
    pub arena_base: u64,
    pub capacity: u64,
}

/// The places of the queue of `s`.
pub open spec fn places(s: Scene) -> Places {
    Places {
        ring: s.queue.ring,
        size: s.queue.size,
        arena_base: s.pool.arena_base,
        capacity: s.pool.arena.capacity,
    }
}

/// Whether an access to the pool writes nothing, or something in its place:
/// data in the arena, descriptors in the shadow descriptor table, heads in the
/// entries of the shadow avail ring, and an index where that ring's index is.
/// The flags of the shadow avail ring, its `used_event` field and the shadow
/// used ring are no places to write.
pub open spec fn in_place(p: Places, a: Access) -> bool {
    match a {
        Access::Write { addr, bytes } => p.arena_base <= addr && addr + bytes.len() <= p.arena_base
            + p.capacity,
        Access::WriteDesc { addr, desc } => p.ring.desc <= addr && addr + 16 <= p.ring.desc + 16
            * p.size,
        Access::WriteU16 { addr, value } => p.ring.avail + 4 <= addr && addr + 2 <= p.ring.avail + 4
            + 2 * p.size,
        Access::StoreU16 { addr, value, done } => addr == p.ring.avail + 2,
        Access::AddUsed { head, len, done } => false,
        _ => true,
    }
}

/// Whether all accesses of `log` are in place.
pub open spec fn all_in_place(p: Places, log: Seq<Access>) -> bool {
    forall|i: int| 0 <= i < log.len() ==> in_place(p, #[trigger] log[i])
}

/// Whether `after` is `before` with accesses added that are in place.
pub open spec fn adds_in_place(p: Places, before: Seq<Access>, after: Seq<Access>) -> bool {
    &&& before.len() <= after.len()
    &&& after.take(before.len() as int) == before
    &&& forall|i: int| before.len() <= i < after.len() ==> in_place(p, #[trigger] after[i])
}

proof fn lemma_adds(p: Places, before: Seq<Access>, more: Seq<Access>)
    requires
        all_in_place(p, more),
    ensures
        adds_in_place(p, before, before + more),
{
    let after = before + more;
    assert(after.take(before.len() as int) =~= before);
    assert forall|i: int| before.len() <= i < after.len() implies in_place(
        p,
        #[trigger] after[i],
    ) by {
        assert(after[i] == more[i - before.len()]);
    }
}

proof fn lemma_adds_chain(p: Places, a: Seq<Access>, b: Seq<Access>, c: Seq<Access>)
    requires
        adds_in_place(p, a, b),
        adds_in_place(p, b, c),
    ensures
        adds_in_place(p, a, c),
{
    assert(c.take(a.len() as int) =~= a) by {
        assert forall|i: int| 0 <= i < a.len() implies c[i] == a[i] by {
            assert(c.take(b.len() as int)[i] == c[i]);
            assert(b.take(a.len() as int)[i] == b[i]);
        }
    }
    assert forall|i: int| a.len() <= i < c.len() implies in_place(p, #[trigger] c[i]) by {
        if i < b.len() {
            assert(c.take(b.len() as int)[i] == c[i]);
            assert(in_place(p, b[i]));
        }
    }
}

proof fn lemma_concat_in_place(p: Places, a: Seq<Access>, b: Seq<Access>)
    requires
        all_in_place(p, a),
        all_in_place(p, b),
    ensures
        all_in_place(p, a + b),
{
    assert forall|i: int| 0 <= i < (a + b).len() implies in_place(p, #[trigger] (a + b)[i]) by {
        if i < a.len() {
            assert((a + b)[i] == a[i]);
        } else {
            assert((a + b)[i] == b[i - a.len()]);
        }
    }
}

proof fn lemma_pieces_in_place(p: Places, addr: u64, data: Seq<u8>, chunk: int)
    requires
        chunk > 0,
        p.arena_base + p.capacity <= u64::MAX,
        data.len() > 0 ==> p.arena_base <= addr && addr + data.len() <= p.arena_base + p.capacity,
    ensures
        all_in_place(p, memory::piecewise_writes(addr as int, data, chunk)),
{
    let log = memory::piecewise_writes(addr as int, data, chunk);
    if data.len() == 0 {
        assert(log =~= Seq::empty());
    } else {
        assert forall|k: int| 0 <= k < log.len() implies in_place(p, #[trigger] log[k]) by {
            lemma_pieces_in_range(addr, data, chunk, k);
        }
    }
}

proof fn lemma_scrub_in_place(p: Places, segs: Seq<Segment>)
    requires
        p.arena_base + p.capacity <= u64::MAX,
        forall|i: int|
            0 <= i < segs.len() ==> ownership::seg_in_arena(
                #[trigger] segs[i],
                p.arena_base,
                p.capacity as int,
            ),
    ensures
        all_in_place(p, model::scrub(segs)),
    decreases segs.len(),
{
    if segs.len() > 0 {
        let init = segs.drop_last();
        let s = segs.last();
        assert forall|i: int| 0 <= i < init.len() implies ownership::seg_in_arena(
            #[trigger] init[i],
            p.arena_base,
            p.capacity as int,
        ) by {
            assert(init[i] == segs[i]);
        }
        lemma_scrub_in_place(p, init);
        assert(ownership::seg_in_arena(segs[segs.len() - 1], p.arena_base, p.capacity as int));
        if s.len == 0 {
            assert(model::scrub(segs) =~= model::scrub(init));
        } else {
            let zero = pool::zeroes(allocator::rounded(s.len as int));
            lemma_pieces_in_place(p, s.pool_addr, zero, 4096);
            lemma_concat_in_place(
                p,
                model::scrub(init),
                pool::zero_writes(s.pool_addr as int, allocator::rounded(s.len as int)),
            );
        }
    }
}

proof fn lemma_copy_in_in_place(p: Places, segs: Seq<Segment>, data: Seq<Seq<u8>>)
    requires
        p.arena_base + p.capacity <= u64::MAX,
        data.len() == segs.len(),
        forall|i: int|
            0 <= i < segs.len() ==> ownership::seg_in_arena(
                #[trigger] segs[i],
                p.arena_base,
                p.capacity as int,
            ),
        forall|i: int| 0 <= i < segs.len() ==> (#[trigger] data[i]).len() <= segs[i].len,
    ensures
        all_in_place(p, model::copy_in_writes(segs, data)),
    decreases segs.len(),
{
    if segs.len() > 0 {
        let n = segs.len() - 1;
        let init = segs.drop_last();
        assert forall|i: int| 0 <= i < init.len() implies ownership::seg_in_arena(
            #[trigger] init[i],
            p.arena_base,
            p.capacity as int,
        ) by {
            assert(init[i] == segs[i]);
        }
        assert forall|i: int| 0 <= i < init.len() implies (#[trigger] data.drop_last()[i]).len()
            <= init[i].len by {
            assert(data[i].len() <= segs[i].len);
        }
        lemma_copy_in_in_place(p, init, data.drop_last());
        assert(ownership::seg_in_arena(segs[n], p.arena_base, p.capacity as int));
        assert(data[n].len() <= segs[n].len);
        lemma_pieces_in_place(p, segs[n].pool_addr, data[n], model::copy_chunk());
        lemma_concat_in_place(
            p,
            model::copy_in_writes(init, data.drop_last()),
            memory::piecewise_writes(
                segs[n].pool_addr as int,
                data[n],
                model::copy_chunk(),
            ),
        );
    }
}

proof fn lemma_publish_in_place(s: Scene, map: Set<int>, a: Arrival)
    requires
        ownership::scene_ok(s),
        model::verdict(s, map, a) is Publish,
        model::data_fits(a.descs, a.data),
    ensures
        adds_in_place(places(s), s.pool.log, model::published(s, a).pool.log),
{
    let p = places(s);
    let q = s.queue;
    let r = model::reserve(s.pool.arena, s.pool.arena_base, a.descs);
    let segs = r.segments;
    let slots = model::next_slots(q.free_slots, a.descs.len() as int);
    ownership::lemma_reserve(s.pool.arena, s.pool.arena_base, a.descs);
    assert forall|j: int| 0 <= j < segs.len() implies (#[trigger] a.data[j]).len() <= segs[j].len by {
        assert(segs[j] == model::segment_of(a.descs[j], segs[j].pool_addr));
    }
    lemma_copy_in_in_place(p, segs, a.data);
    let descs = model::desc_writes(q.ring, segs, slots);
    assert forall|i: int| 0 <= i < slots.len() implies (#[trigger] slots[i]) < q.size by {
        assert(q.free_slots.contains(q.free_slots[q.free_slots.len() - 1 - i]));
    }
    assert forall|i: int| 0 <= i < descs.len() implies in_place(p, #[trigger] descs[i]) by {
        assert(slots[i] < q.size);
    }
    assert(slots[0] < q.size);
    let entry = Access::WriteU16 {
        addr: (q.ring.avail + 4 + 2 * (q.avail_idx as int % q.size as int)) as u64,
        value: slots[0],
    };
    assert(in_place(p, entry)) by {
        let k = q.avail_idx as int % q.size as int;
        assert(0 <= k < q.size);
    }
    let tail = descs.push(entry);
    assert forall|i: int| 0 <= i < tail.len() implies in_place(p, #[trigger] tail[i]) by {
        if i < descs.len() {
            assert(tail[i] == descs[i]);
        }
    }
    let first = model::copy_in_writes(segs, a.data);
    lemma_adds(p, s.pool.log, first);
    lemma_adds(p, s.pool.log + first, tail);
    lemma_adds_chain(p, s.pool.log, s.pool.log + first, s.pool.log + first + tail);
}

proof fn lemma_arrival_in_place(s: Scene, map: Set<int>, a: Arrival)
    requires
        ownership::scene_ok(s),
        model::verdict(s, map, a) is Publish ==> model::data_fits(a.descs, a.data),
    ensures
        adds_in_place(places(s), s.pool.log, model::arrive(s, map, a).pool.log),
{
    let p = places(s);
    let r = model::reserve(s.pool.arena, s.pool.arena_base, a.descs);
    assert(s.pool.log + Seq::empty() =~= s.pool.log);
    lemma_adds(p, s.pool.log, Seq::empty());
    match model::verdict(s, map, a) {
        model::Verdict::Broken(_) => {},
        model::Verdict::Stall => {
            ownership::lemma_reserve(s.pool.arena, s.pool.arena_base, a.descs);
            lemma_scrub_in_place(p, r.segments);
            lemma_adds(p, s.pool.log, model::scrub(r.segments));
        },
        model::Verdict::Publish => {
            lemma_publish_in_place(s, map, a);
        },
    }
}

proof fn lemma_run_in_place(s: Scene, map: Set<int>, xs: Seq<Arrival>, n: int)
    requires
        ownership::scene_ok(s),
        0 <= n <= xs.len(),
        model::all_published(s, map, xs, n),
    ensures
        adds_in_place(
            places(s),
            s.pool.log,
            model::arrive_all(s, map, xs.take(n)).pool.log,
        ),
    decreases n,
{
    let ys = xs.take(n);
    if n == 0 {
        assert(ys =~= Seq::empty());
        assert(s.pool.log + Seq::empty() =~= s.pool.log);
        lemma_adds(places(s), s.pool.log, Seq::empty());
    } else {
        lemma_published_prefix(s, map, xs, n);
        lemma_run_in_place(s, map, xs.take(n - 1), n - 1);
        lemma_run_published(s, map, xs.take(n - 1), n - 1);
        assert(xs.take(n - 1).take(n - 1) =~= xs.take(n - 1));
        assert(ys.drop_last() =~= xs.take(n - 1));
        assert(ys.last() == xs[n - 1]);
        let m = model::arrive_all(s, map, xs.take(n - 1));
        assert(ownership::scene_ok(m) && places(m) == places(s)) by {
            reveal(handed_over);
        }
        lemma_arrival_in_place(m, map, xs[n - 1]);
        lemma_adds_chain(
            places(s),
            s.pool.log,
            m.pool.log,
            model::arrive_all(s, map, ys).pool.log,
        );
    }
}

/// Mirroring writes the pool in its places only. In particular the shadow
/// avail ring's flags and its `used_event` field are never written, whatever
/// the guest's ring says: the shadow ring stays in always-notify mode.
pub proof fn law_mirroring_writes_in_place(
    s: Scene,
    map: Set<int>,
    xs: Seq<Arrival>,
    done: bool,
    t: Scene,
    out: MirrorOutcome,
)
    requires
        ownership::scene_ok(s),
        model::mirrored(s, map, xs, done, t, out),
    ensures
        adds_in_place(places(s), s.pool.log, t.pool.log),
{
    let n = xs.len() as int;
    let p = places(s);
    let end = model::arrive_all(s, map, xs);
    if model::all_published(s, map, xs, n) && out.chains == n {
        lemma_run_in_place(s, map, xs, n);
        lemma_run_published(s, map, xs, n);
        assert(xs.take(n) =~= xs);
        assert(ownership::scene_ok(end) && places(end) == p) by {
            reveal(handed_over);
        }
    } else {
        let m = model::arrive_all(s, map, xs.drop_last());
        lemma_run_in_place(s, map, xs, n - 1);
        lemma_run_published(s, map, xs, n - 1);
        assert(xs.take(n - 1) =~= xs.drop_last());
        assert(ownership::scene_ok(m) && places(m) == p) by {
            reveal(handed_over);
        }
        lemma_arrival_in_place(m, map, xs.last());
        assert(end == model::arrive(m, map, xs.last()));
        lemma_adds_chain(p, s.pool.log, m.pool.log, end.pool.log);
    }
    assert(end.queue.ring == p.ring);
    if out.chains > 0 {
        assert(s.queue.wf());
        let store = t.pool.log.last();
        let more = seq![store];
        assert(t.pool.log =~= end.pool.log + more);
        lemma_published_size(s, map, xs, out.chains as int);
        assert(in_place(p, store));
        lemma_adds(p, end.pool.log, more);
        lemma_adds_chain(p, s.pool.log, end.pool.log, t.pool.log);
    }
}

/// A queue that publishes has slots.
proof fn lemma_published_size(s: Scene, map: Set<int>, xs: Seq<Arrival>, n: int)
    requires
        ownership::scene_ok(s),
        0 < n <= xs.len(),
        model::all_published(s, map, xs, n),
    ensures
        s.queue.size > 0,
{
    assert(model::published_at(s, map, xs, 0));
    assert(xs.take(0) =~= Seq::empty());
    let q = s.queue;
    assert(q.free_slots.contains(q.free_slots[0]));
}

/// Completing writes nothing into the pool but zeroes over the buffers given
/// back: it leaves the shadow rings to the backend.
pub proof fn law_completing_writes_in_place(
    s: Scene,
    map: Set<int>,
    h: Harvest,
    t: Scene,
    out: CompleteOutcome,
)
    requires
        ownership::scene_ok(s),
        model::completed(s, map, h, t, out),
    ensures
        adds_in_place(places(s), s.pool.log, t.pool.log),
        forall|i: int|
            s.pool.log.len() <= i < t.pool.log.len() && writes_memory(#[trigger] t.pool.log[i])
                ==> t.pool.log[i] is Write,
{
    let p = places(s);
    let start = model::index_loaded(s, h.used_idx);
    let cs = h.completions;
    let n = cs.len() as int;
    let load = seq![start.pool.log.last()];
    assert(start.pool.log =~= s.pool.log + load);
    lemma_adds(p, s.pool.log, load);
    assert(data_only(s.pool.log, start.pool.log));
    match h.used_idx {
        None => {},
        Some(idx) => {
            if model::all_succeed(start, map, cs, idx, n) && out.chains == n {
                lemma_completions_in_place(start, map, cs, idx, n);
                assert(cs.take(n) =~= cs);
                lemma_adds_chain(p, s.pool.log, start.pool.log, t.pool.log);
                lemma_data_only_chain(s.pool.log, start.pool.log, t.pool.log);
            } else {
                lemma_completions_in_place(start, map, cs, idx, n - 1);
                lemma_run_completed(start, map, cs, idx, n - 1);
                assert(cs.take(n - 1) =~= cs.drop_last());
                let at = model::complete_all(start, cs.drop_last());
                assert(ownership::scene_ok(at) && places(at) == p) by {
                    reveal(gave_back);
                }
                lemma_completion_in_place(at, cs.last());
                lemma_adds_chain(p, s.pool.log, start.pool.log, at.pool.log);
                lemma_adds_chain(p, s.pool.log, at.pool.log, t.pool.log);
                lemma_data_only_chain(s.pool.log, start.pool.log, at.pool.log);
                lemma_data_only_chain(s.pool.log, at.pool.log, t.pool.log);
            }
        },
    }
}

/// Whether `after` is `before` with accesses added that write data or nothing.
spec fn data_only(before: Seq<Access>, after: Seq<Access>) -> bool {
    &&& before.len() <= after.len()
    &&& after.take(before.len() as int) == before
    &&& forall|i: int|
        before.len() <= i < after.len() && writes_memory(#[trigger] after[i]) ==> after[i] is Write
}

proof fn lemma_data_only_chain(a: Seq<Access>, b: Seq<Access>, c: Seq<Access>)
    requires
        data_only(a, b),
        data_only(b, c),
    ensures
        data_only(a, c),
{
    assert(c.take(a.len() as int) =~= a) by {
        assert forall|i: int| 0 <= i < a.len() implies c[i] == a[i] by {
            assert(c.take(b.len() as int)[i] == c[i]);
            assert(b.take(a.len() as int)[i] == b[i]);
        }
    }
    assert forall|i: int|
        a.len() <= i < c.len() && writes_memory(#[trigger] c[i]) implies c[i] is Write by {
        if i < b.len() {
            assert(c.take(b.len() as int)[i] == c[i]);
            assert(b[i] is Write);
        }
    }
}

proof fn lemma_scrub_is_data(segs: Seq<Segment>)
    ensures
        forall|i: int|
            0 <= i < model::scrub(segs).len() ==> (#[trigger] model::scrub(segs)[i]) is Write,
    decreases segs.len(),
{
    if segs.len() > 0 {
        lemma_scrub_is_data(segs.drop_last());
        let s = segs.last();
        if s.len != 0 {
            lemma_pieces_are_writes(
                s.pool_addr as int,
                pool::zeroes(allocator::rounded(s.len as int)),
                4096,
            );
        }
    }
}

proof fn lemma_pieces_are_writes(addr: int, data: Seq<u8>, chunk: int)
    ensures
        forall|i: int|
            0 <= i < memory::piecewise_writes(addr, data, chunk).len() ==> (
            #[trigger] memory::piecewise_writes(addr, data, chunk)[i]) is Write,
    decreases data.len(),
{
    let start = memory::last_piece(data.len() as int, chunk);
    if data.len() > 0 && 0 <= start < data.len() {
        lemma_pieces_are_writes(addr, data.take(start), chunk);
    }
}

proof fn lemma_copy_back_reads_only(segs: Seq<Segment>, data: Seq<Seq<u8>>)
    ensures
        forall|i: int|
            0 <= i < model::copy_back_reads(segs, data).len() ==> (
            #[trigger] model::copy_back_reads(segs, data)[i]) is Read,
    decreases data.len(),
{
    if data.len() > 0 {
        lemma_copy_back_reads_only(segs, data.drop_last());
        lemma_pieces_are_reads(
            segs[data.len() - 1].pool_addr as int,
            data.last(),
            model::copy_chunk(),
        );
    }
}

proof fn lemma_completion_in_place(s: Scene, c: Completion)
    requires
        ownership::scene_ok(s),
    ensures
        adds_in_place(places(s), s.pool.log, model::complete(s, c).pool.log),
        data_only(s.pool.log, model::complete(s, c).pool.log),
{
    let p = places(s);
    let t = model::complete(s, c);
    let f = model::fetched(s, c);
    let addr = s.queue.ring.used + 4 + 8 * (s.queue.next_used as int % s.queue.size as int);
    let fetch = if s.queue.size == 0 {
        Seq::empty()
    } else {
        seq![
            Access::ReadU32 { addr: addr as u64, word: c.id },
            Access::ReadU32 { addr: (addr + 4) as u64, word: c.len },
        ]
    };
    assert(f.pool.log =~= s.pool.log + fetch);
    lemma_adds(p, s.pool.log, fetch);
    match model::lookup(s.queue, c.id) {
        None => {},
        Some(chain) => {
            let reads = model::copy_back_reads(chain.segments, c.data);
            let scrub = model::scrub(chain.segments);
            assert(s.queue.inflight[c.id as int] is Some);
            lemma_copy_back_reads_only(chain.segments, c.data);
            lemma_scrub_in_place(p, chain.segments);
            lemma_scrub_is_data(chain.segments);
            lemma_concat_in_place(p, reads, scrub);
            let more = reads + scrub;
            assert(t.pool.log =~= f.pool.log + more);
            lemma_adds(p, f.pool.log, more);
            lemma_adds_chain(p, s.pool.log, f.pool.log, t.pool.log);
            assert(data_only(f.pool.log, t.pool.log)) by {
                assert forall|i: int|
                    f.pool.log.len() <= i < t.pool.log.len() && writes_memory(
                        #[trigger] t.pool.log[i],
                    ) implies t.pool.log[i] is Write by {
                    let k = i - f.pool.log.len();
                    assert(t.pool.log[i] == more[k]);
                    if k < reads.len() {
                        assert(reads[k] is Read);
                    } else {
                        assert(scrub[k - reads.len()] is Write);
                    }
                }
            }
            lemma_data_only_chain(s.pool.log, f.pool.log, t.pool.log);
        },
    }
}

proof fn lemma_completions_in_place(s: Scene, map: Set<int>, cs: Seq<Completion>, idx: u16, n: int)
    requires
        ownership::scene_ok(s),
        0 <= n <= cs.len(),
        model::all_succeed(s, map, cs, idx, n),
    ensures
        adds_in_place(places(s), s.pool.log, model::complete_all(s, cs.take(n)).pool.log),
        data_only(s.pool.log, model::complete_all(s, cs.take(n)).pool.log),
    decreases n,
{
    let ds = cs.take(n);
    if n == 0 {
        assert(ds =~= Seq::empty());
        assert(s.pool.log + Seq::empty() =~= s.pool.log);
        lemma_adds(places(s), s.pool.log, Seq::empty());
    } else {
        lemma_succeed_prefix(s, map, cs, idx, n);
        lemma_completions_in_place(s, map, cs.take(n - 1), idx, n - 1);
        lemma_run_completed(s, map, cs.take(n - 1), idx, n - 1);
        assert(cs.take(n - 1).take(n - 1) =~= cs.take(n - 1));
        assert(ds.drop_last() =~= cs.take(n - 1));
        assert(ds.last() == cs[n - 1]);
        let m = model::complete_all(s, cs.take(n - 1));
        let t = model::complete_all(s, ds);
        assert(ownership::scene_ok(m) && places(m) == places(s)) by {
            reveal(gave_back);
        }
        lemma_completion_in_place(m, cs[n - 1]);
        lemma_adds_chain(places(s), s.pool.log, m.pool.log, t.pool.log);
        lemma_data_only_chain(s.pool.log, m.pool.log, t.pool.log);
    }
}

// ---- Counters ----

/// Ring index `x`, `n` entries later.
pub open spec fn advanced(x: u16, n: int) -> u16 {
    ((x + n) % 65536) as u16
}

/// Whether shadow ring and guest ring are at the same place: the avail
/// counters are equal, the used counters are equal, and they are as far apart
/// as there are chains in flight.
pub open spec fn in_step(s: Scene) -> bool {
    &&& s.ring.next_avail == s.queue.avail_idx
    &&& s.ring.next_used == s.queue.next_used
    &&& s.queue.avail_idx == advanced(s.queue.next_used, s.queue.inflight_total())
}

proof fn lemma_published_prefix(s: Scene, map: Set<int>, xs: Seq<Arrival>, n: int)
    requires
        0 < n <= xs.len(),
        model::all_published(s, map, xs, n),
    ensures
        model::all_published(s, map, xs.take(n - 1), n - 1),
        model::published_at(s, map, xs, n - 1),
{
    let ys = xs.take(n - 1);
    assert forall|i: int| 0 <= i < n - 1 implies #[trigger] model::published_at(s, map, ys, i) by {
        assert(model::published_at(s, map, xs, i));
        assert(ys.take(i) =~= xs.take(i));
        assert(ys[i] == xs[i]);
    }
    assert(model::published_at(s, map, xs, n - 1));
}

/// What `n` published chains add up to.
#[verifier::opaque]
spec fn handed_over(s: Scene, t: Scene, n: int) -> bool {
    &&& ownership::scene_ok(t)
    &&& ownership::conserved(s, t)
    &&& t.queue.inflight_total() == s.queue.inflight_total() + n
    &&& t.queue.avail_idx == advanced(s.queue.avail_idx, n)
    &&& t.queue.next_used == s.queue.next_used
    &&& t.queue.fault == s.queue.fault
    &&& t.ring.next_avail == advanced(s.ring.next_avail, n)
    &&& t.ring.next_used == s.ring.next_used
}

proof fn lemma_handed_over_more(s: Scene, m: Scene, t: Scene, n: int)
    requires
        n >= 0,
        handed_over(s, m, n),
        handed_over(m, t, 1),
    ensures
        handed_over(s, t, n + 1),
{
    reveal(handed_over);
    ownership::lemma_conserved_chain(s, m, t);
}

/// One published chain.
proof fn lemma_handed_over(s: Scene, map: Set<int>, a: Arrival)
    requires
        ownership::scene_ok(s),
        model::verdict(s, map, a) is Publish,
        model::arrival_ok(a),
    ensures
        handed_over(s, model::published(s, a), 1),
{
    reveal(handed_over);
    ownership::lemma_published(s, map, a);
}

/// A run of published chains: everything that every chain keeps, and what
/// they add up to.
proof fn lemma_run_published(s: Scene, map: Set<int>, xs: Seq<Arrival>, n: int)
    requires
        ownership::scene_ok(s),
        0 <= n <= xs.len(),
        model::all_published(s, map, xs, n),
    ensures
        handed_over(s, model::arrive_all(s, map, xs.take(n)), n),
    decreases n,
{
    let ys = xs.take(n);
    if n == 0 {
        assert(ys =~= Seq::empty());
        reveal(handed_over);
    } else {
        lemma_published_prefix(s, map, xs, n);
        lemma_run_published(s, map, xs.take(n - 1), n - 1);
        assert(xs.take(n - 1).take(n - 1) =~= xs.take(n - 1));
        assert(ys.drop_last() =~= xs.take(n - 1));
        assert(ys.last() == xs[n - 1]);
        let m = model::arrive_all(s, map, xs.take(n - 1));
        assert(ownership::scene_ok(m)) by {
            reveal(handed_over);
        }
        lemma_handed_over(m, map, xs[n - 1]);
        assert(model::arrive_all(s, map, ys) == model::published(m, xs[n - 1]));
        lemma_handed_over_more(s, m, model::published(m, xs[n - 1]), n - 1);
    }
}

/// The shadow avail index advances by one for every chain handed to the
/// backend, and so does the guest queue's, whether the sweep ran dry or
/// stalled: the counters stay in step. A sweep that only failed to announce
/// its chains keeps them in step too.
#[verifier::spinoff_prover]
pub proof fn law_mirroring_keeps_step(
    s: Scene,
    map: Set<int>,
    xs: Seq<Arrival>,
    done: bool,
    t: Scene,
    out: MirrorOutcome,
)
    requires
        ownership::scene_ok(s),
        s.queue.fault is None,
        model::mirrored(s, map, xs, done, t, out),
    ensures
        t.queue.avail_idx == advanced(s.queue.avail_idx, out.chains as int),
        t.queue.inflight_total() == s.queue.inflight_total() + out.chains,
        t.queue.next_used == s.queue.next_used,
        t.queue.fault is None || t.queue.fault == Some(QueueFault::AvailIndexStoreFailed)
            ==> t.ring.next_avail == advanced(s.ring.next_avail, out.chains as int),
        in_step(s) && (t.queue.fault is None || t.queue.fault == Some(
            QueueFault::AvailIndexStoreFailed,
        )) ==> in_step(t),
{
    let n = xs.len() as int;
    let end = model::arrive_all(s, map, xs);
    if model::all_published(s, map, xs, n) && out.chains == n {
        let e = Scene { guest: end.guest.push(Access::PopChain { popped: None }), ..end };
        assert(t == model::announced(e, n, done));
        lemma_idle_counts(s, map, xs);
        lemma_swept_ignores_guest(s, end, e, n);
        lemma_announced(s, e, n, done, n);
    } else {
        assert(t == model::announced(end, n - 1, done));
        lemma_stop_counts(s, map, xs);
        lemma_announced(s, end, n - 1, done, n - 1);
    }
    lemma_moved_step(s, t, out.chains as int);
}

/// What a sweep of `n` published chains does to the counters.
#[verifier::opaque]
spec fn swept(s: Scene, t: Scene, n: int) -> bool {
    &&& t.queue.avail_idx == advanced(s.queue.avail_idx, n)
    &&& t.queue.inflight_total() == s.queue.inflight_total() + n
    &&& t.queue.next_used == s.queue.next_used
    &&& t.ring.next_used == s.ring.next_used
    &&& t.queue.fault is None || t.queue.fault == Some(QueueFault::AvailIndexStoreFailed)
        ==> t.ring.next_avail == advanced(s.ring.next_avail, n)
}

proof fn lemma_idle_counts(s: Scene, map: Set<int>, xs: Seq<Arrival>)
    requires
        ownership::scene_ok(s),
        model::all_published(s, map, xs, xs.len() as int),
        s.queue.fault is None,
    ensures
        swept(s, model::arrive_all(s, map, xs), xs.len() as int),
        model::arrive_all(s, map, xs).queue.fault is None,
{
    reveal(swept);
    lemma_published_counts(s, map, xs, xs.len() as int);
    assert(xs.take(xs.len() as int) =~= xs);
}

proof fn lemma_stop_counts(s: Scene, map: Set<int>, xs: Seq<Arrival>)
    requires
        ownership::scene_ok(s),
        xs.len() > 0,
        model::all_published(s, map, xs, xs.len() - 1),
        !(model::verdict(model::arrive_all(s, map, xs.drop_last()), map, xs.last()) is Publish),
        s.queue.fault is None,
    ensures
        swept(s, model::arrive_all(s, map, xs), xs.len() - 1),
        model::arrive_all(s, map, xs).queue.fault != Some(QueueFault::AvailIndexStoreFailed),
{
    reveal(swept);
    let n = xs.len() - 1;
    lemma_published_counts(s, map, xs, n);
    assert(xs.take(n) =~= xs.drop_last());
    lemma_stop(model::arrive_all(s, map, xs.drop_last()), map, xs.last());
}

/// Counters that move together stay in step.
proof fn lemma_moved_step(s: Scene, t: Scene, n: int)
    requires
        swept(s, t, n),
        n >= 0,
    ensures
        t.queue.avail_idx == advanced(s.queue.avail_idx, n),
        t.queue.inflight_total() == s.queue.inflight_total() + n,
        t.queue.next_used == s.queue.next_used,
        t.queue.fault is None || t.queue.fault == Some(QueueFault::AvailIndexStoreFailed)
            ==> t.ring.next_avail == advanced(s.ring.next_avail, n),
        in_step(s) && (t.queue.fault is None || t.queue.fault == Some(
            QueueFault::AvailIndexStoreFailed,
        )) ==> in_step(t),
{
    reveal(swept);
}

/// What a run of published chains does to the counters.
proof fn lemma_published_counts(s: Scene, map: Set<int>, xs: Seq<Arrival>, n: int)
    requires
        ownership::scene_ok(s),
        0 <= n <= xs.len(),
        model::all_published(s, map, xs, n),
    ensures
        ({
            let t = model::arrive_all(s, map, xs.take(n));
            &&& t.queue.inflight_total() == s.queue.inflight_total() + n
            &&& t.queue.avail_idx == advanced(s.queue.avail_idx, n)
            &&& t.queue.next_used == s.queue.next_used
            &&& t.queue.fault == s.queue.fault
            &&& t.ring.next_avail == advanced(s.ring.next_avail, n)
            &&& t.ring.next_used == s.ring.next_used
        }),
{
    lemma_run_published(s, map, xs, n);
    reveal(handed_over);
}

/// An arrival that is not published moves no counter of the shadow ring; only
/// one that breaks the queue stays taken off the guest's ring.
proof fn lemma_stop(s: Scene, map: Set<int>, a: Arrival)
    requires
        !(model::verdict(s, map, a) is Publish),
    ensures
        ({
            let t = model::arrive(s, map, a);
            &&& t.queue.avail_idx == s.queue.avail_idx
            &&& t.queue.next_used == s.queue.next_used
            &&& t.queue.inflight == s.queue.inflight
            &&& t.ring.next_used == s.ring.next_used
            &&& model::verdict(s, map, a) is Stall ==> t.ring == s.ring && t.queue.fault
                == s.queue.fault
            &&& model::verdict(s, map, a) matches model::Verdict::Broken(f) ==> t.queue.fault
                == Some(f) && f != QueueFault::AvailIndexStoreFailed
        }),
{
}

/// Storing the index moves no counter.
proof fn lemma_announced(r: Scene, e: Scene, chains: int, done: bool, n: int)
    requires
        swept(r, e, n),
        e.queue.fault != Some(QueueFault::AvailIndexStoreFailed),
    ensures
        swept(r, model::announced(e, chains, done), n),
{
    reveal(swept);
}

/// What the guest's memory has seen is no counter.
proof fn lemma_swept_ignores_guest(r: Scene, e: Scene, f: Scene, n: int)
    requires
        swept(r, e, n),
        f.queue == e.queue,
        f.ring == e.ring,
    ensures
        swept(r, f, n),
{
    reveal(swept);
}

proof fn lemma_succeed_prefix(s: Scene, map: Set<int>, cs: Seq<Completion>, idx: u16, n: int)
    requires
        0 < n <= cs.len(),
        model::all_succeed(s, map, cs, idx, n),
    ensures
        model::all_succeed(s, map, cs.take(n - 1), idx, n - 1),
        model::succeeds_at(s, map, cs, idx, n - 1),
{
    let ds = cs.take(n - 1);
    assert forall|i: int| 0 <= i < n - 1 implies #[trigger] model::succeeds_at(
        s,
        map,
        ds,
        idx,
        i,
    ) by {
        assert(model::succeeds_at(s, map, cs, idx, i));
        assert(ds.take(i) =~= cs.take(i));
        assert(ds[i] == cs[i]);
    }
    assert(model::succeeds_at(s, map, cs, idx, n - 1));
}

/// What `n` completions that go through add up to.
#[verifier::opaque]
spec fn gave_back(s: Scene, t: Scene, n: int) -> bool {
    &&& ownership::scene_ok(t)
    &&& ownership::conserved(s, t)
    &&& t.queue.inflight_total() == s.queue.inflight_total() - n
    &&& t.queue.avail_idx == s.queue.avail_idx
    &&& t.queue.next_used == advanced(s.queue.next_used, n)
    &&& t.queue.fault == s.queue.fault
    &&& t.ring.next_avail == s.ring.next_avail
    &&& t.ring.next_used == advanced(s.ring.next_used, n)
}

proof fn lemma_gave_back_more(s: Scene, m: Scene, t: Scene, n: int)
    requires
        n >= 0,
        gave_back(s, m, n),
        gave_back(m, t, 1),
    ensures
        gave_back(s, t, n + 1),
        ownership::scene_ok(m),
{
    reveal(gave_back);
    ownership::lemma_conserved_chain(s, m, t);
}

/// One completion that goes through.
proof fn lemma_success(s: Scene, map: Set<int>, c: Completion)
    requires
        ownership::scene_ok(s),
        model::completion_ok(s, map, c),
        model::succeeds(s, c),
    ensures
        gave_back(s, model::complete(s, c), 1),
{
    reveal(gave_back);
    let chain = model::lookup(s.queue, c.id)->0;
    let r = model::returned(s, c, chain);
    let t = model::complete(s, c);
    ownership::lemma_returned(s, c, chain);
    ownership::lemma_wf_ignores_status(r.queue, t.queue);
    ownership::lemma_conserved_chain(s, r, t);
}

/// A run of completions that go through: everything that every completion
/// keeps, and what they add up to.
proof fn lemma_run_completed(s: Scene, map: Set<int>, cs: Seq<Completion>, idx: u16, n: int)
    requires
        ownership::scene_ok(s),
        0 <= n <= cs.len(),
        model::all_succeed(s, map, cs, idx, n),
    ensures
        gave_back(s, model::complete_all(s, cs.take(n)), n),
    decreases n,
{
    let ds = cs.take(n);
    if n == 0 {
        assert(ds =~= Seq::empty());
        reveal(gave_back);
    } else {
        lemma_succeed_prefix(s, map, cs, idx, n);
        lemma_run_completed(s, map, cs.take(n - 1), idx, n - 1);
        assert(cs.take(n - 1).take(n - 1) =~= cs.take(n - 1));
        assert(ds.drop_last() =~= cs.take(n - 1));
        assert(ds.last() == cs[n - 1]);
        let m = model::complete_all(s, cs.take(n - 1));
        assert(ownership::scene_ok(m)) by {
            reveal(gave_back);
        }
        lemma_success(m, map, cs[n - 1]);
        assert(model::complete_all(s, ds) == model::complete(m, cs[n - 1]));
        lemma_gave_back_more(s, m, model::complete(m, cs[n - 1]), n - 1);
    }
}

/// The used counters advance by one for every chain given back to the guest,
/// which takes it out of flight: completing keeps the counters in step. It
/// never puts anything into flight, also when the queue breaks.
#[verifier::spinoff_prover]
pub proof fn law_completing_keeps_step(
    s: Scene,
    map: Set<int>,
    h: Harvest,
    t: Scene,
    out: CompleteOutcome,
)
    requires
        ownership::scene_ok(s),
        s.queue.fault is None,
        model::completed(s, map, h, t, out),
    ensures
        t.queue.avail_idx == s.queue.avail_idx,
        t.queue.next_used == advanced(s.queue.next_used, out.chains as int),
        t.ring.next_avail == s.ring.next_avail,
        t.queue.inflight_total() <= s.queue.inflight_total() - out.chains,
        t.queue.fault is None ==> {
            &&& h.used_idx == Some(t.queue.next_used)
            &&& t.ring.next_used == advanced(s.ring.next_used, out.chains as int)
            &&& t.queue.inflight_total() == s.queue.inflight_total() - out.chains
        },
        in_step(s) && t.queue.fault is None ==> in_step(t),
{
    let start = model::index_loaded(s, h.used_idx);
    let cs = h.completions;
    let n = cs.len() as int;
    match h.used_idx {
        None => {
            assert(t.queue.inflight == s.queue.inflight);
        },
        Some(idx) => {
            let end = model::complete_all(start, cs);
            assert(t == model::asked(end, out.chains as int, h.answer, h.flags));
            assert(t.queue == end.queue && t.ring == end.ring);
            if model::all_succeed(start, map, cs, idx, n) && out.chains == n {
                lemma_all_given_back(start, map, cs, idx);
                lemma_given_step(start, end, n);
            } else {
                lemma_stopped_completions(start, map, cs, idx);
                lemma_stopped_counts(start, end, n - 1);
            }
        },
    }
}

/// What a sweep that stopped after `n` completions does to the counters.
#[verifier::opaque]
spec fn stopped(s: Scene, t: Scene, n: int) -> bool {
    &&& t.queue.fault is Some
    &&& t.queue.avail_idx == s.queue.avail_idx
    &&& t.queue.next_used == advanced(s.queue.next_used, n)
    &&& t.queue.inflight_total() <= s.queue.inflight_total() - n
    &&& t.ring.next_avail == s.ring.next_avail
}

proof fn lemma_all_given_back(s: Scene, map: Set<int>, cs: Seq<Completion>, idx: u16)
    requires
        ownership::scene_ok(s),
        model::all_succeed(s, map, cs, idx, cs.len() as int),
    ensures
        gave_back(s, model::complete_all(s, cs), cs.len() as int),
{
    lemma_run_completed(s, map, cs, idx, cs.len() as int);
    assert(cs.take(cs.len() as int) =~= cs);
}

proof fn lemma_given_step(s: Scene, t: Scene, n: int)
    requires
        gave_back(s, t, n),
        n >= 0,
    ensures
        t.queue.avail_idx == s.queue.avail_idx,
        t.queue.next_used == advanced(s.queue.next_used, n),
        t.ring.next_avail == s.ring.next_avail,
        t.ring.next_used == advanced(s.ring.next_used, n),
        t.queue.inflight_total() == s.queue.inflight_total() - n,
        in_step(s) ==> in_step(t),
{
    reveal(gave_back);
}

proof fn lemma_stopped_completions(s: Scene, map: Set<int>, cs: Seq<Completion>, idx: u16)
    requires
        ownership::scene_ok(s),
        cs.len() > 0,
        model::all_succeed(s, map, cs, idx, cs.len() - 1),
        !model::succeeds(model::complete_all(s, cs.drop_last()), cs.last()),
    ensures
        stopped(s, model::complete_all(s, cs), cs.len() - 1),
{
    let n = cs.len() - 1;
    lemma_run_completed(s, map, cs, idx, n);
    assert(cs.take(n) =~= cs.drop_last());
    let at = model::complete_all(s, cs.drop_last());
    assert(at.queue.inflight.len() == at.queue.size) by {
        reveal(gave_back);
    }
    lemma_failed_completion(at, cs.last());
    reveal(gave_back);
    reveal(stopped);
}

proof fn lemma_stopped_counts(s: Scene, t: Scene, n: int)
    requires
        stopped(s, t, n),
    ensures
        t.queue.fault is Some,
        t.queue.avail_idx == s.queue.avail_idx,
        t.queue.next_used == advanced(s.queue.next_used, n),
        t.queue.inflight_total() <= s.queue.inflight_total() - n,
        t.ring.next_avail == s.ring.next_avail,
{
    reveal(stopped);
}

/// A completion that does not go through stops the queue and moves no counter
/// of the shadow ring.
proof fn lemma_failed_completion(s: Scene, c: Completion)
    requires
        s.queue.inflight.len() == s.queue.size,
        !model::succeeds(s, c),
    ensures
        ({
            let t = model::complete(s, c);
            &&& t.queue.fault is Some
            &&& t.queue.avail_idx == s.queue.avail_idx
            &&& t.queue.next_used == s.queue.next_used
            &&& t.queue.inflight_total() <= s.queue.inflight_total()
            &&& t.ring.next_avail == s.ring.next_avail
        }),
{
    if model::lookup(s.queue, c.id) is Some {
        ownership::lemma_occupied_update(s.queue.inflight, c.id as int, None);
    }
}

/// Once a queue that is in step has drained, all four counters agree. A
/// session that resumes at this base finds nothing to replay.
pub proof fn law_drained_counters_agree(s: Scene)
    requires
        in_step(s),
        s.queue.inflight_total() == 0,
    ensures
        s.queue.avail_idx == s.queue.next_used,
        s.ring.next_avail == s.ring.next_used,
        s.queue.avail_idx == s.ring.next_avail,
{
}

/// A queue that starts a session where the guest's queue stands is in step.
pub proof fn law_fresh_session_is_in_step(queue_index: usize, s: Scene, base: u16)
    requires
        s.queue == ownership::fresh(queue_index, s.queue.size, s.queue.ring, base),
        s.ring.next_avail == base,
        s.ring.next_used == base,
    ensures
        in_step(s),
        s.queue.wf(),
{
    ownership::lemma_fresh(queue_index, s.queue.size, s.queue.ring, base);
}

// ---- Interrupts ----

/// A guest that has not negotiated event indices is interrupted exactly when
/// chains were completed and it has not asked for silence. Asking for silence
/// changes nothing else: what is copied back and published is the same.
pub proof fn law_interrupt_without_event_index(
    s: Scene,
    map: Set<int>,
    h: Harvest,
    t: Scene,
    out: CompleteOutcome,
    loud: Option<u16>,
)
    requires
        model::completed(s, map, h, t, out),
        !s.ring.event_idx,
    ensures
        out.needs_interrupt <==> out.chains > 0 && (h.flags matches Some(f) ==> f
            & ring::VRING_AVAIL_F_NO_INTERRUPT == 0),
        h.used_idx is Some ==> ({
            let other = Harvest { flags: loud, ..h };
            let again = CompleteOutcome {
                chains: out.chains,
                needs_interrupt: out.chains > 0 && model::wants_interrupt(h.answer, loud),
            };
            let end = model::complete_all(model::index_loaded(s, h.used_idx), h.completions);
            let u = model::asked(end, out.chains as int, h.answer, loud);
            &&& model::completed(s, map, other, u, again)
            &&& u.queue == t.queue
            &&& u.pool == t.pool
            &&& u.ring == t.ring
        }),
{
}

// ---- Draining ----

/// When nothing is in flight on the only queue of a pool, everything has been
/// given back: the arena is one free extent again and every slot is free.
pub proof fn law_drained_queue_holds_nothing(s: Scene)
    requires
        ownership::scene_ok(s),
        s.queue.inflight_total() == 0,
        forall|x: int|
            0 <= x < s.pool.arena.capacity ==> #[trigger] s.pool.arena.free_at(x)
                || s.queue.owns_byte(s.pool.arena_base, x),
    ensures
        s.pool.arena.capacity > 0 ==> s.pool.arena.free == seq![(0u64, s.pool.arena.capacity)],
        allocator::total_len(s.pool.arena.free) == s.pool.arena.capacity,
        s.queue.free_slots.len() == s.queue.size,
        forall|slot: u16| slot < s.queue.size ==> #[trigger] s.queue.free_slots.contains(slot),
{
    let q = s.queue;
    let arena = s.pool.arena;
    let base = s.pool.arena_base;
    ownership::lemma_occupied_bounds(q.inflight);
    assert forall|x: int| 0 <= x < arena.capacity implies #[trigger] arena.free_at(x) by {
        if q.owns_byte(base, x) {
            let h = choose|h: int| #[trigger] q.owns(base, h, x);
            assert(q.inflight[h] is None);
        }
    }
    allocator::law_whole_arena_free(arena);
    assert forall|slot: u16| slot < q.size implies #[trigger] q.free_slots.contains(slot) by {
        if !q.free_slots.contains(slot) {
            let h = choose|h: int| #[trigger] q.holds(h, slot);
            assert(q.inflight[h] is None);
        }
    }
    ownership::lemma_all_slots_free(q);
}

// ---- Order ----

/// The avail index is stored with release ordering, after everything that the
/// sweep wrote into the pool, exactly when something was published; the value
/// stored is the new index.
pub proof fn law_index_store_comes_last(
    s: Scene,
    map: Set<int>,
    xs: Seq<Arrival>,
    done: bool,
    t: Scene,
    out: MirrorOutcome,
)
    requires
        model::mirrored(s, map, xs, done, t, out),
    ensures
        out.chains > 0 ==> t.pool.log.len() > 0 && t.pool.log.last() == (Access::StoreU16 {
            addr: (t.queue.ring.avail + 2) as u64,
            value: t.queue.avail_idx,
            done,
        }),
        out.chains == 0 ==> t.pool.log == model::arrive_all(s, map, xs).pool.log,
{
}

/// Nothing is read from the used ring before its index has been loaded with
/// acquire ordering.
pub proof fn law_index_load_comes_first(
    s: Scene,
    map: Set<int>,
    h: Harvest,
    t: Scene,
    out: CompleteOutcome,
)
    requires
        model::completed(s, map, h, t, out),
    ensures
        s.pool.log.len() < t.pool.log.len(),
        t.pool.log.take(s.pool.log.len() as int) == s.pool.log,
        t.pool.log[s.pool.log.len() as int] == (Access::LoadU16 {
            addr: (s.queue.ring.used + 2) as u64,
            order: LoadOrder::Acquire,
            loaded: h.used_idx,
        }),
{
    let start = model::index_loaded(s, h.used_idx);
    lemma_pool_log_grows(start, h.completions);
    let m = start.pool.log.len() as int;
    let l = t.pool.log;
    assert(l.take(m) == start.pool.log);
    assert(l.take(m)[m - 1] == l[m - 1]);
    assert(l.take(m - 1) =~= start.pool.log.take(m - 1));
    assert(start.pool.log.take(m - 1) =~= s.pool.log);
}

proof fn lemma_pool_log_grows(s: Scene, cs: Seq<Completion>)
    ensures
        s.pool.log.len() <= model::complete_all(s, cs).pool.log.len(),
        model::complete_all(s, cs).pool.log.take(s.pool.log.len() as int) == s.pool.log,
    decreases cs.len(),
{
    let n = s.pool.log.len() as int;
    if cs.len() == 0 {
        assert(s.pool.log.take(n) =~= s.pool.log);
    } else {
        let m = model::complete_all(s, cs.drop_last());
        let t = model::complete_all(s, cs);
        lemma_pool_log_grows(s, cs.drop_last());
        let k = m.pool.log.len() as int;
        assert(k <= t.pool.log.len());
        assert(t.pool.log.take(k) =~= m.pool.log);
        assert(t.pool.log.take(n) =~= t.pool.log.take(k).take(n));
    }
}

/// A used element is put into the guest's used ring only after the data it
/// speaks of has been written, with the chain's own head and a length that the
/// backend cannot inflate.
pub proof fn law_data_precedes_the_used_element(s: Scene, map: Set<int>, c: Completion)
    requires
        model::completion_ok(s, map, c),
        model::succeeds(s, c),
    ensures
        ({
            let chain = model::lookup(s.queue, c.id)->0;
            let len = model::capped_len(chain.segments, c.len);
            model::complete(s, c).guest == (s.guest + model::copy_back_writes(
                chain.segments,
                c.data,
            )).push(
                (Access::AddUsed { head: chain.guest_head, len: len as u32, done: true }),
            )
        }),
{
}

/// A used id that stands for no chain in flight (unknown, or already
/// completed) touches no guest memory and gives nothing back; the queue stops.
pub proof fn law_unknown_id_reaches_nothing(s: Scene, c: Completion)
    requires
        model::lookup(s.queue, c.id) is None,
    ensures
        ({
            let t = model::complete(s, c);
            &&& t.guest == s.guest
            &&& t.ring == s.ring
            &&& t.pool.arena == s.pool.arena
            &&& t.queue.inflight == s.queue.inflight
            &&& t.queue.free_slots == s.queue.free_slots
            &&& t.queue.fault == Some(QueueFault::UnknownUsedId)
        }),
{
}

/// A chain that has been completed is not in flight any more: a second
/// completion of the same id stands for nothing.
pub proof fn law_completion_is_not_repeated(s: Scene, c: Completion)
    requires
        s.queue.wf(),
        model::lookup(s.queue, c.id) is Some,
    ensures
        model::lookup(model::complete(s, c).queue, c.id) is None,
{
}

/// Whether an access can change guest memory.
pub open spec fn writes_memory(a: Access) -> bool {
    a is Write || a is WriteDesc || a is WriteU16 || a is StoreU16 || a is AddUsed
}

/// Whether `after` is `before` with accesses added that only read.
pub open spec fn only_reads_added(before: Seq<Access>, after: Seq<Access>) -> bool {
    &&& before.len() <= after.len()
    &&& after.take(before.len() as int) == before
    &&& forall|i: int| before.len() <= i < after.len() ==> !writes_memory(#[trigger] after[i])
}

proof fn lemma_only_reads(before: Seq<Access>, more: Seq<Access>)
    requires
        forall|i: int| 0 <= i < more.len() ==> !writes_memory(#[trigger] more[i]),
    ensures
        only_reads_added(before, before + more),
{
    assert((before + more).take(before.len() as int) =~= before);
}

proof fn lemma_only_reads_chain(a: Seq<Access>, b: Seq<Access>, c: Seq<Access>)
    requires
        only_reads_added(a, b),
        only_reads_added(b, c),
    ensures
        only_reads_added(a, c),
{
    let n = a.len() as int;
    assert(c.take(b.len() as int).take(n) =~= c.take(n));
    assert forall|i: int| a.len() <= i < c.len() implies !writes_memory(#[trigger] c[i]) by {
        if i < b.len() {
            assert(c.take(b.len() as int)[i] == c[i]);
        }
    }
}

proof fn lemma_copy_in_reads(segs: Seq<Segment>, data: Seq<Seq<u8>>)
    ensures
        forall|i: int|
            0 <= i < model::copy_in_reads(segs, data).len() ==> (#[trigger] model::copy_in_reads(
                segs,
                data,
            )[i]) is Read,
    decreases segs.len(),
{
    if segs.len() > 0 {
        lemma_copy_in_reads(segs.drop_last(), data.drop_last());
        lemma_pieces_are_reads(segs.last().guest_addr as int, data.last(), model::copy_chunk());
    }
}

proof fn lemma_arrival_reads(s: Scene, map: Set<int>, a: Arrival)
    ensures
        only_reads_added(s.guest, model::arrive(s, map, a).guest),
{
    let load = model::flags_load(s.ring.desc_table, a.head, a.flags);
    let first = seq![Access::PopChain { popped: Some(a.head) }] + load + model::walks(s, a);
    let segs = model::reserve(s.pool.arena, s.pool.arena_base, a.descs).segments;
    let reads = model::copy_in_reads(segs, a.data);
    lemma_only_reads(s.guest, first);
    assert(model::taken(s, a).guest =~= s.guest + first);
    lemma_copy_in_reads(segs, a.data);
    lemma_only_reads(model::taken(s, a).guest, reads);
    lemma_only_reads_chain(
        s.guest,
        model::taken(s, a).guest,
        model::taken(s, a).guest + reads,
    );
}

proof fn lemma_arrivals_read(s: Scene, map: Set<int>, xs: Seq<Arrival>)
    ensures
        only_reads_added(s.guest, model::arrive_all(s, map, xs).guest),
    decreases xs.len(),
{
    if xs.len() == 0 {
        assert(s.guest.take(s.guest.len() as int) =~= s.guest);
    } else {
        let m = model::arrive_all(s, map, xs.drop_last());
        lemma_arrivals_read(s, map, xs.drop_last());
        lemma_arrival_reads(m, map, xs.last());
        lemma_only_reads_chain(s.guest, m.guest, model::arrive(m, map, xs.last()).guest);
    }
}

/// Mirroring reads guest memory and never writes it.
pub proof fn law_mirroring_only_reads_guest_memory(
    s: Scene,
    map: Set<int>,
    xs: Seq<Arrival>,
    done: bool,
    t: Scene,
    out: MirrorOutcome,
)
    requires
        model::mirrored(s, map, xs, done, t, out),
    ensures
        only_reads_added(s.guest, t.guest),
{
    let end = model::arrive_all(s, map, xs);
    lemma_arrivals_read(s, map, xs);
    let more = seq![Access::PopChain { popped: None }];
    lemma_only_reads(end.guest, more);
    assert(end.guest + more =~= end.guest.push(Access::PopChain { popped: None }));
    lemma_only_reads_chain(s.guest, end.guest, end.guest + more);
}

/// The flags of a head are looked at before its chain is walked, and a chain
/// whose head refers to an indirect table is never walked: the queue stops
/// with nothing read but the entry and the flags.
pub proof fn law_indirect_chain_is_not_walked(s: Scene, map: Set<int>, a: Arrival, flags: u16)
    requires
        model::seen_flags(s, a) == Some(flags),
        flags & ring::VRING_DESC_F_INDIRECT != 0,
    ensures
        ({
            let t = model::arrive(s, map, a);
            &&& t.queue.fault == Some(QueueFault::IndirectDescriptors)
            &&& t.guest == s.guest.push(Access::PopChain { popped: Some(a.head) }).push(
                Access::LoadU16 {
                    addr: model::flags_addr(s.ring.desc_table, a.head) as u64,
                    order: LoadOrder::Relaxed,
                    loaded: Some(flags),
                },
            )
            &&& t.pool == s.pool
        }),
{
    assert(model::arrive(s, map, a).guest =~= s.guest.push(
        Access::PopChain { popped: Some(a.head) },
    ).push(
        Access::LoadU16 {
            addr: model::flags_addr(s.ring.desc_table, a.head) as u64,
            order: LoadOrder::Relaxed,
            loaded: Some(flags),
        },
    ));
}

/// Zeroing the rings of a pool leaves zeroes in all of the ring area, touches no
/// byte of the arena, and changes nothing else about the pool.
pub proof fn law_what_zeroing_the_rings_does(p: PoolView, b: int)
    ensures
        ({
            let z = p.rings_zeroed();
            &&& payload_at(z.log, b) == if 0 <= b < p.arena_base {
                Some(0u8)
            } else {
                payload_at(p.log, b)
            }
            &&& z.arena == p.arena
            &&& z.arena_base == p.arena_base
            &&& z.rings == p.rings
            &&& z.size == p.size
        }),
{
    law_zeroing_rings_spares_the_arena(p, b);
}

} // verus!
