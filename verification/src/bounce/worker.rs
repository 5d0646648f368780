//! The bounce data-plane worker's decisions.
//!
//! A per-device thread sits between the guest and the vhost-user backend when
//! bouncing is enabled. On a guest kick it mirrors newly available descriptor
//! chains into the pool shadow ring and kicks the backend; on a backend call
//! it copies completed data back to guest memory, injects the guest
//! interrupt, and retries any queues that were stalled for pool space. On
//! pause it drains outstanding completions so the device parks with guest
//! memory consistent.

use super::account;
use super::memory::{self, GuestMemoryMmap};
use super::model::{self, Arrival, Harvest, Scene};
use super::ownership;
use super::pool::BouncePool;
use super::shadow_queue::{self, CompleteOutcome, MirrorOutcome, ShadowQueue};
use crate::epoll_helper::EPOLL_HELPER_EVENT_LAST;
use virtio_queue::Queue;
use vstd::prelude::*;

verus! {

/// Maximum time, in seconds, the worker waits for the backend to drain
/// outstanding completions during a pause before giving up (a wedged backend
/// must not block pause forever; the resulting non-empty in-flight state is
/// caught when snapshotting).
pub const BOUNCE_DRAIN_TIMEOUT: u64 = 5;

/// First epoll token used by the worker for its per-queue events.
pub const QUEUE_EVENT_BASE: u16 = EPOLL_HELPER_EVENT_LAST + 1;

/// Number of queues that there are epoll tokens for.
pub const MAX_EVENT_QUEUES: usize = 32760;

/// The token of queue `i`'s kick.
pub open spec fn kick_token(i: int) -> int {
    16 + 2 * i
}

/// The token of queue `i`'s call.
pub open spec fn call_token(i: int) -> int {
    16 + 2 * i + 1
}

/// Epoll token for the guest kick eventfd of queue `i`.
pub fn guest_kick_token(i: usize) -> (r: u16)
    requires
        i < MAX_EVENT_QUEUES,
    ensures
        r == 16 + 2 * i,
        r == kick_token(i as int),
{
    QUEUE_EVENT_BASE + 2 * i as u16
}

/// Epoll token for the backend call eventfd of queue `i`.
pub fn backend_call_token(i: usize) -> (r: u16)
    requires
        i < MAX_EVENT_QUEUES,
    ensures
        r == 16 + 2 * i + 1,
        r == call_token(i as int),
{
    QUEUE_EVENT_BASE + 2 * i as u16 + 1
}

/// An event of one of the worker's queues.
#[derive(Clone, Copy, Debug, PartialEq, Eq, Structural)]
pub enum QueueEvent {
    /// The guest kicked the queue.
    GuestKick(usize),
    /// The backend signalled completions.
    BackendCall(usize),
}

/// The queue event that a token stands for, on a device with `num_queues`
/// queues: kicks and calls alternate from the first token on.
pub open spec fn routed(token: u16, num_queues: usize) -> Option<QueueEvent> {
    let rel = token.wrapping_sub(QUEUE_EVENT_BASE);
    let i = (rel / 2) as usize;
    if i >= num_queues {
        None
    } else if rel % 2 == 0 {
        Some(QueueEvent::GuestKick(i))
    } else {
        Some(QueueEvent::BackendCall(i))
    }
}

/// Find out which queue an epoll event is for. The low 16 bits of its data
/// are the token.
pub fn route_event(data: u64, num_queues: usize) -> (r: Option<QueueEvent>)
    ensures
        r == routed(data as u16, num_queues),
        r == routed((data % 65536) as u16, num_queues),
{
    assert(data as u16 == data % 65536) by (bit_vector);
    let token: u16 = data as u16;
    let rel: u16 = token.wrapping_sub(QUEUE_EVENT_BASE);
    let i: usize = (rel / 2) as usize;
    if i >= num_queues {
        None
    } else if rel % 2 == 0 {
        Some(QueueEvent::GuestKick(i))
    } else {
        Some(QueueEvent::BackendCall(i))
    }
}

/// Every queue gets its own events and no other queue's: the token registered
/// for a queue's kick (or call) is routed back to that queue as a kick (or
/// call), and it is none of the tokens that the loop keeps for itself.
pub proof fn law_tokens_route_back(i: usize, num_queues: usize)
    requires
        i < num_queues <= MAX_EVENT_QUEUES,
    ensures
        routed((16 + 2 * i) as u16, num_queues) == Some(QueueEvent::GuestKick(i)),
        routed((16 + 2 * i + 1) as u16, num_queues) == Some(QueueEvent::BackendCall(i)),
        16 + 2 * i > EPOLL_HELPER_EVENT_LAST,
{
}

/// One piece of the worker's work.
#[derive(Clone, Copy, Debug, PartialEq, Eq, Structural)]
pub enum WorkerStep {
    /// Drain the guest kick eventfd of the queue.
    DrainKick(usize),
    /// Drain the backend call eventfd of the queue.
    DrainCall(usize),
    /// Mirror the queue's newly available chains, and kick the backend if any
    /// were published.
    Mirror(usize),
    /// Copy the queue's completions back, and interrupt the guest if it wants
    /// that.
    Complete(usize),
}

/// Every queue is mirrored once.
pub open spec fn sweep_steps(num_queues: usize) -> Seq<WorkerStep> {
    Seq::new(num_queues as nat, |q: int| WorkerStep::Mirror(q as usize))
}

/// What the worker does about an event.
pub open spec fn event_steps(event: QueueEvent, num_queues: usize) -> Seq<WorkerStep> {
    match event {
        QueueEvent::GuestKick(i) => seq![WorkerStep::DrainKick(i), WorkerStep::Mirror(i)],
        QueueEvent::BackendCall(i) => seq![WorkerStep::DrainCall(i), WorkerStep::Complete(i)]
            + sweep_steps(num_queues),
    }
}

/// What one round of a drain does: every queue's completions are taken,
/// whether or not the backend signalled them.
pub open spec fn drain_steps(num_queues: usize) -> Seq<WorkerStep> {
    Seq::new(
        2 * num_queues as nat,
        |k: int|
            if k % 2 == 0 {
                WorkerStep::DrainCall((k / 2) as usize)
            } else {
                WorkerStep::Complete((k / 2) as usize)
            },
    )
}

fn push_sweep(steps: &mut Vec<WorkerStep>, num_queues: usize)
    ensures
        final(steps)@ == old(steps)@ + sweep_steps(num_queues),
{
    let mut q: usize = 0;
    let ghost before = steps@;
    assert(steps@ =~= before + sweep_steps(0));
    while q < num_queues
        invariant
            q <= num_queues,
            steps@ == before + sweep_steps(q),
        decreases num_queues - q,
    {
        steps.push(WorkerStep::Mirror(q));
        assert(steps@ =~= before + sweep_steps((q + 1) as usize));
        q += 1;
    }
}

/// The steps on startup: mirror anything already available, such as entries
/// published across a snapshot and restore, or a kick lost before the worker
/// registered its eventfd.
pub fn initial_sweep(num_queues: usize) -> (r: Vec<WorkerStep>)
    ensures
        r@ == sweep_steps(num_queues),
{
    let mut steps: Vec<WorkerStep> = Vec::new();
    push_sweep(&mut steps, num_queues);
    assert(steps@ =~= sweep_steps(num_queues));
    steps
}

/// The steps on an event. A guest kick concerns its queue alone. After a
/// backend call every queue is retried, now that pool space may have been
/// freed: mirroring an idle queue is cheap and only kicks the backend if it
/// publishes work.
pub fn steps_for(event: QueueEvent, num_queues: usize) -> (r: Vec<WorkerStep>)
    ensures
        r@ == event_steps(event, num_queues),
{
    let mut steps: Vec<WorkerStep> = Vec::new();
    match event {
        QueueEvent::GuestKick(i) => {
            steps.push(WorkerStep::DrainKick(i));
            steps.push(WorkerStep::Mirror(i));
        },
        QueueEvent::BackendCall(i) => {
            steps.push(WorkerStep::DrainCall(i));
            steps.push(WorkerStep::Complete(i));
            push_sweep(&mut steps, num_queues);
        },
    }
    assert(steps@ =~= event_steps(event, num_queues));
    steps
}

/// The steps of one round of a drain.
pub fn drain_round(num_queues: usize) -> (r: Vec<WorkerStep>)
    ensures
        r@ == drain_steps(num_queues),
{
    let mut steps: Vec<WorkerStep> = Vec::new();
    let mut q: usize = 0;
    assert(steps@ =~= drain_steps(0));
    while q < num_queues
        invariant
            q <= num_queues,
            steps@ == drain_steps(q),
        decreases num_queues - q,
    {
        steps.push(WorkerStep::DrainCall(q));
        steps.push(WorkerStep::Complete(q));
        assert(steps@ =~= drain_steps((q + 1) as usize));
        q += 1;
    }
    steps
}

/// A queue that stalled for pool space is retried as soon as any queue's
/// completions have given space back, without a fresh guest kick: after a
/// backend call every queue is mirrored, and not before the completions have
/// been taken.
pub proof fn law_backend_call_retries_every_queue(i: usize, num_queues: usize, q: usize)
    requires
        q < num_queues,
    ensures
        ({
            let steps = event_steps(QueueEvent::BackendCall(i), num_queues);
            &&& steps.len() == 2 + num_queues
            &&& steps[1] == WorkerStep::Complete(i)
            &&& steps[2 + q] == WorkerStep::Mirror(q)
        }),
{
}

/// A drain round takes every queue's completions and hands nothing new to the
/// backend.
pub proof fn law_drain_only_takes_completions(num_queues: usize, q: usize, k: int)
    requires
        q < num_queues,
        0 <= k < drain_steps(num_queues).len(),
    ensures
        drain_steps(num_queues)[2 * q + 1] == WorkerStep::Complete(q),
        !(drain_steps(num_queues)[k] is Mirror),
{
}

/// What the worker signals after a step.
#[derive(Clone, Copy, Debug, PartialEq, Eq, Structural)]
pub enum Signal {
    /// Kick the backend on the queue: chains were published.
    KickBackend(usize),
    /// Interrupt the guest for the queue.
    InterruptGuest(usize),
}

/// What a drain does next.
#[derive(Clone, Copy, Debug, PartialEq, Eq, Structural)]
pub enum DrainStep {
    /// Nothing is in flight any more.
    Drained,
    /// The deadline has passed with requests still in flight; a snapshot taken
    /// now is to be rejected.
    TimedOut,
    /// Look again shortly.
    Retry,
}

/// What a drain that found `inflight` requests does next.
pub open spec fn drain_follows(inflight: usize, deadline_passed: bool) -> DrainStep {
    if inflight == 0 {
        DrainStep::Drained
    } else if deadline_passed {
        DrainStep::TimedOut
    } else {
        DrainStep::Retry
    }
}

/// What is signalled after queue `q` has been mirrored.
pub open spec fn mirror_signal(q: usize, out: MirrorOutcome) -> Option<Signal> {
    if out.chains > 0 {
        Some(Signal::KickBackend(q))
    } else {
        None
    }
}

/// What is signalled after queue `q` has been completed.
pub open spec fn complete_signal(q: usize, out: CompleteOutcome) -> Option<Signal> {
    if out.needs_interrupt {
        Some(Signal::InterruptGuest(q))
    } else {
        None
    }
}

/// Decide whether a drain that found `inflight` requests goes on.
pub fn drain_step(inflight: usize, deadline_passed: bool) -> (r: DrainStep)
    ensures
        r == if inflight == 0 {
            DrainStep::Drained
        } else if deadline_passed {
            DrainStep::TimedOut
        } else {
            DrainStep::Retry
        },
        r == drain_follows(inflight, deadline_passed),
{
    if inflight == 0 {
        DrainStep::Drained
    } else if deadline_passed {
        DrainStep::TimedOut
    } else {
        DrainStep::Retry
    }
}

/// Pool plus the per-queue shadow state.
pub struct BounceShared {
    pub pool: BouncePool,
    pub shadow: Vec<ShadowQueue>,
}

/// Chains in flight on the first `n` queues.
pub open spec fn inflight_sum(shadow: Seq<ShadowQueue>, n: int) -> int
    decreases n,
{
    if n <= 0 {
        0
    } else {
        inflight_sum(shadow, n - 1) + shadow[n - 1]@.inflight_total()
    }
}

/// What mirroring a queue may come to.
pub open spec fn mirrors(s: Scene, map: Set<int>, t: Scene, out: MirrorOutcome) -> bool {
    &&& ownership::conserved(s, t)
    &&& s.queue.fault is Some ==> t == s && out == (MirrorOutcome { chains: 0, stalled: false })
    &&& s.queue.fault is None ==> exists|xs: Seq<Arrival>, done: bool|
        model::mirrored(s, map, xs, done, t, out)
}

/// What completing a queue may come to.
pub open spec fn completes(s: Scene, map: Set<int>, t: Scene, out: CompleteOutcome) -> bool {
    &&& ownership::conserved(s, t)
    &&& s.queue.fault is Some ==> t == s && out == (CompleteOutcome {
        chains: 0,
        needs_interrupt: false,
    })
    &&& s.queue.fault is None ==> exists|h: Harvest| #[trigger]
        model::completed(s, map, h, t, out)
}

/// Whether no queue but `i` has changed.
pub open spec fn others_kept(before: BounceShared, after: BounceShared, i: int) -> bool {
    &&& after.shadow@.len() == before.shadow@.len()
    &&& forall|j: int|
        0 <= j < before.shadow@.len() && j != i ==> #[trigger] after.shadow@[j]
            == before.shadow@[j]
}

/// The queue that a step is about.
pub open spec fn step_queue(step: WorkerStep) -> usize {
    match step {
        WorkerStep::DrainKick(i) => i,
        WorkerStep::DrainCall(i) => i,
        WorkerStep::Mirror(i) => i,
        WorkerStep::Complete(i) => i,
    }
}

impl BounceShared {
    /// The scene of queue `i`.
    pub open spec fn scene(self, i: int, guest_mem: GuestMemoryMmap, guest_q: Queue) -> Scene {
        shadow_queue::scene(self.shadow@[i], guest_mem, guest_q, self.pool)
    }

    /// Every queue is consistent and backed by the pool, and no arena byte
    /// belongs to two queues.
    pub open spec fn wf(self) -> bool {
        let base = self.pool@.arena_base;
        &&& self.pool.wf()
        &&& forall|i: int|
            0 <= i < self.shadow@.len() ==> {
                &&& (#[trigger] self.shadow@[i]).wf()
                &&& self.shadow@[i]@.backed(self.pool@)
            }
        &&& forall|i: int, j: int, b: int|
            0 <= i < self.shadow@.len() && 0 <= j < self.shadow@.len() && i != j
                && #[trigger] self.shadow@[i]@.owns_byte(base, b) ==> !(
            #[trigger] self.shadow@[j]@.owns_byte(base, b))
    }

    /// Mirror newly available chains of queue `i` into the shadow ring. The
    /// backend is to be kicked when anything was published.
    pub fn mirror(
        &mut self,
        i: usize,
        guest_mem: &mut GuestMemoryMmap,
        guest_q: &mut Queue,
    ) -> (out: MirrorOutcome)
        requires
            old(self).wf(),
            i < old(self).shadow@.len(),
        ensures
            final(self).wf(),
            others_kept(*old(self), *final(self), i as int),
            old(self).accounted() ==> final(self).accounted(),
            memory::mapped(*final(guest_mem)) == memory::mapped(*old(guest_mem)),
            mirrors(
                old(self).scene(i as int, *old(guest_mem), *old(guest_q)),
                memory::mapped(*old(guest_mem)),
                final(self).scene(i as int, *final(guest_mem), *final(guest_q)),
                out,
            ),
    {
        let ghost before = *self;
        let out = self.shadow[i].mirror_avail(guest_mem, guest_q, &mut self.pool);
        proof {
            lemma_others_stay(before, *self, i as int);
        }
        out
    }

    /// Copy queue `i`'s completions back to guest memory. The guest is to be
    /// interrupted when it wants to.
    pub fn complete(
        &mut self,
        i: usize,
        guest_mem: &mut GuestMemoryMmap,
        guest_q: &mut Queue,
    ) -> (out: CompleteOutcome)
        requires
            old(self).wf(),
            i < old(self).shadow@.len(),
        ensures
            final(self).wf(),
            others_kept(*old(self), *final(self), i as int),
            old(self).accounted() ==> final(self).accounted(),
            memory::mapped(*final(guest_mem)) == memory::mapped(*old(guest_mem)),
            completes(
                old(self).scene(i as int, *old(guest_mem), *old(guest_q)),
                memory::mapped(*old(guest_mem)),
                final(self).scene(i as int, *final(guest_mem), *final(guest_q)),
                out,
            ),
    {
        let ghost before = *self;
        let out = self.shadow[i].complete_used(guest_mem, guest_q, &mut self.pool);
        proof {
            lemma_others_stay(before, *self, i as int);
        }
        out
    }

    /// Carry out a step on the queue `guest_q` that it is about; returns the
    /// signal to send afterwards. Draining an eventfd is left to the caller.
    pub fn perform(
        &mut self,
        step: WorkerStep,
        guest_mem: &mut GuestMemoryMmap,
        guest_q: &mut Queue,
    ) -> (r: Option<Signal>)
        requires
            old(self).wf(),
            step_queue(step) < old(self).shadow@.len(),
        ensures
            final(self).wf(),
            others_kept(*old(self), *final(self), step_queue(step) as int),
            old(self).accounted() ==> final(self).accounted(),
            memory::mapped(*final(guest_mem)) == memory::mapped(*old(guest_mem)),
            ({
                let i = step_queue(step) as int;
                let s = old(self).scene(i, *old(guest_mem), *old(guest_q));
                let map = memory::mapped(*old(guest_mem));
                let t = final(self).scene(i, *final(guest_mem), *final(guest_q));
                match step {
                    WorkerStep::Mirror(q) => exists|out: MirrorOutcome| #[trigger]
                        mirrors(s, map, t, out) && r == if out.chains > 0 {
                            Some(Signal::KickBackend(q))
                        } else {
                            None
                        } && r == mirror_signal(q, out),
                    WorkerStep::Complete(q) => exists|out: CompleteOutcome| #[trigger]
                        completes(s, map, t, out) && r == if out.needs_interrupt {
                            Some(Signal::InterruptGuest(q))
                        } else {
                            None
                        } && r == complete_signal(q, out),
                    _ => *final(self) == *old(self) && *final(guest_mem) == *old(guest_mem)
                        && *final(guest_q) == *old(guest_q) && r is None,
                }
            }),
    {
        match step {
            WorkerStep::Mirror(i) => {
                let out = self.mirror(i, guest_mem, guest_q);
                if out.chains > 0 {
                    Some(Signal::KickBackend(i))
                } else {
                    None
                }
            },
            WorkerStep::Complete(i) => {
                let out = self.complete(i, guest_mem, guest_q);
                if out.needs_interrupt {
                    Some(Signal::InterruptGuest(i))
                } else {
                    None
                }
            },
            _ => None,
        }
    }

    /// Chains currently owned by the backend across all queues.
    pub fn inflight_total(&self) -> (r: usize)
        requires
            self.wf(),
            inflight_sum(self.shadow@, self.shadow@.len() as int) <= usize::MAX,
        ensures
            r == inflight_sum(self.shadow@, self.shadow@.len() as int),
    {
        let mut sum: usize = 0;
        let mut i: usize = 0;
        while i < self.shadow.len()
            invariant
                self.wf(),
                inflight_sum(self.shadow@, self.shadow@.len() as int) <= usize::MAX,
                i <= self.shadow@.len(),
                sum == inflight_sum(self.shadow@, i as int),
            decreases self.shadow@.len() - i,
        {
            assert(self.shadow@[i as int].wf());
            proof {
                lemma_inflight_sum_grows(
                    self.shadow@,
                    i as int + 1,
                    self.shadow@.len() as int,
                );
            }
            sum += self.shadow[i].inflight_count();
            i += 1;
        }
        sum
    }
}

/// No queue has more chains in flight than a ring has entries, so a moderate
/// number of queues has no more than can be counted.
pub proof fn lemma_inflight_sum(shadow: Seq<ShadowQueue>, n: int)
    requires
        0 <= n <= shadow.len(),
        forall|i: int| 0 <= i < shadow.len() ==> (#[trigger] shadow[i]).wf(),
    ensures
        0 <= inflight_sum(shadow, n) <= 65535 * n,
    decreases n,
{
    if n > 0 {
        lemma_inflight_sum(shadow, n - 1);
        assert(shadow[n - 1].wf());
        ownership::lemma_occupied_bounds(shadow[n - 1]@.inflight);
    }
}

/// More queues have no fewer chains in flight.
proof fn lemma_inflight_sum_grows(shadow: Seq<ShadowQueue>, n: int, m: int)
    requires
        0 <= n <= m <= shadow.len(),
        forall|i: int| 0 <= i < shadow.len() ==> (#[trigger] shadow[i]).wf(),
    ensures
        inflight_sum(shadow, n) <= inflight_sum(shadow, m),
    decreases m,
{
    if n < m {
        lemma_inflight_sum_grows(shadow, n, m - 1);
        assert(shadow[m - 1].wf());
        ownership::lemma_occupied_bounds(shadow[m - 1]@.inflight);
    }
}

/// One queue's work leaves the other queues' buffers alone.
proof fn lemma_others_stay(before: BounceShared, after: BounceShared, i: int)
    requires
        before.wf(),
        after.pool.wf(),
        0 <= i < before.shadow@.len(),
        after.shadow@.len() == before.shadow@.len(),
        forall|j: int|
            0 <= j < before.shadow@.len() && j != i ==> #[trigger] after.shadow@[j]
                == before.shadow@[j],
        after.shadow@[i].wf(),
        after.shadow@[i]@.backed(after.pool@),
        exists|g: GuestMemoryMmap, h: GuestMemoryMmap, p: Queue, q: Queue|
            ownership::conserved(
                #[trigger] shadow_queue::scene(before.shadow@[i], g, p, before.pool),
                #[trigger] shadow_queue::scene(after.shadow@[i], h, q, after.pool),
            ),
    ensures
        after.wf(),
        before.accounted() ==> after.accounted(),
{
    let base = before.pool@.arena_base;
    let (g, h, p, q) = choose|g: GuestMemoryMmap, h: GuestMemoryMmap, p: Queue, q: Queue|
        ownership::conserved(
            #[trigger] shadow_queue::scene(before.shadow@[i], g, p, before.pool),
            #[trigger] shadow_queue::scene(after.shadow@[i], h, q, after.pool),
        );
    let s = shadow_queue::scene(before.shadow@[i], g, p, before.pool);
    let t = shadow_queue::scene(after.shadow@[i], h, q, after.pool);
    assert(before.shadow@[i].wf());
    assert(after.pool@.arena_base == base);
    assert forall|j: int, b: int|
        0 <= j < before.shadow@.len() && j != i
            && #[trigger] before.shadow@[j]@.owns_byte(base, b) implies !after.pool@.arena.free_at(b)
        && !after.shadow@[i]@.owns_byte(base, b) by {
        let k = choose|k: int| #[trigger] before.shadow@[j]@.owns(base, k, b);
        assert(before.shadow@[j].wf());
        assert(!before.pool@.arena.free_at(b));
        assert(!before.shadow@[i]@.owns_byte(base, b));
        assert((t.pool.arena.free_at(b) || t.queue.owns_byte(t.pool.arena_base, b)) == (
        s.pool.arena.free_at(b) || s.queue.owns_byte(s.pool.arena_base, b)));
    }
    assert forall|j: int| 0 <= j < after.shadow@.len() implies {
        &&& (#[trigger] after.shadow@[j]).wf()
        &&& after.shadow@[j]@.backed(after.pool@)
    } by {
        if j != i {
            let v = before.shadow@[j]@;
            assert(before.shadow@[j].wf());
            assert(after.shadow@[j] == before.shadow@[j]);
            assert forall|k: int, b: int| #[trigger] v.owns(base, k, b) implies !after.pool@.arena.free_at(
                b,
            ) by {
                assert(v.owns_byte(base, b));
            }
        }
    }
    assert forall|j: int, k: int, b: int|
        0 <= j < after.shadow@.len() && 0 <= k < after.shadow@.len() && j != k
            && #[trigger] after.shadow@[j]@.owns_byte(base, b) implies !(
    #[trigger] after.shadow@[k]@.owns_byte(base, b)) by {
        if j != i && k != i {
            assert(after.shadow@[j] == before.shadow@[j]);
            assert(after.shadow@[k] == before.shadow@[k]);
        } else if j == i {
            assert(after.shadow@[k] == before.shadow@[k]);
        } else {
            assert(after.shadow@[j] == before.shadow@[j]);
        }
    }
    if before.accounted() {
        let n = before.shadow@.len() as int;
        assert forall|b: int|
            0 <= b < after.pool@.arena.capacity implies #[trigger] after.pool@.arena.free_at(b)
            || account::owned(after.shadow@, base, n, b) by {
            assert(before.pool@.arena.free_at(b) || account::owned(before.shadow@, base, n, b));
            assert((t.pool.arena.free_at(b) || t.queue.owns_byte(t.pool.arena_base, b)) == (
            s.pool.arena.free_at(b) || s.queue.owns_byte(s.pool.arena_base, b)));
            if account::owned(before.shadow@, base, n, b) {
                let j = choose|j: int|
                    0 <= j < n && (#[trigger] before.shadow@[j])@.owns_byte(base, b);
                if j != i {
                    assert(after.shadow@[j] == before.shadow@[j]);
                    assert(after.shadow@[j]@.owns_byte(base, b));
                }
            }
            if t.queue.owns_byte(base, b) {
                assert(after.shadow@[i]@.owns_byte(base, b));
            }
        }
    }
}

/// Every token belongs to one queue event at most: a kick token is 16 and twice
/// the queue's number, a call token one more, and there are no others. The
/// tokens that the loop keeps for itself are no queue's.
pub proof fn law_each_token_has_one_meaning(token: u16, num_queues: usize, i: usize)
    requires
        num_queues <= 32760,
    ensures
        routed(token, num_queues) == Some(QueueEvent::GuestKick(i)) <==> i < num_queues && token
            == 16 + 2 * i,
        routed(token, num_queues) == Some(QueueEvent::BackendCall(i)) <==> i < num_queues && token
            == 17 + 2 * i,
        token < 16 ==> routed(token, num_queues) is None,
        token >= 16 + 2 * num_queues ==> routed(token, num_queues) is None,
{
}

/// What an event makes the worker do, step by step. A kick is taken off its
/// eventfd and the kicked queue mirrored, and no other queue is touched. A call
/// is taken off its eventfd, that queue completed, and then every queue is
/// mirrored once, in order.
pub proof fn law_steps_of_an_event(i: usize, num_queues: usize, q: usize)
    requires
        q < num_queues,
    ensures
        ({
            let kick = event_steps(QueueEvent::GuestKick(i), num_queues);
            let call = event_steps(QueueEvent::BackendCall(i), num_queues);
            &&& kick.len() == 2
            &&& kick[0] == WorkerStep::DrainKick(i)
            &&& kick[1] == WorkerStep::Mirror(i)
            &&& call.len() == num_queues + 2
            &&& call[0] == WorkerStep::DrainCall(i)
            &&& call[1] == WorkerStep::Complete(i)
            &&& call[q + 2] == WorkerStep::Mirror(q)
        }),
{
}

/// A sweep mirrors every queue once, in order; a round of a drain takes every
/// queue's call off its eventfd and then completes the queue, whether or not
/// there was a call.
pub proof fn law_steps_of_a_sweep_and_a_drain(num_queues: usize, q: usize)
    requires
        q < num_queues,
    ensures
        sweep_steps(num_queues).len() == num_queues,
        sweep_steps(num_queues)[q as int] == WorkerStep::Mirror(q),
        drain_steps(num_queues).len() == 2 * num_queues,
        drain_steps(num_queues)[2 * q as int] == WorkerStep::DrainCall(q),
        drain_steps(num_queues)[2 * q + 1] == WorkerStep::Complete(q),
{
}

/// A queue that has stopped is left alone: neither mirroring nor completing
/// changes anything, reads anything or reports any progress.
pub proof fn law_stopped_queues_are_left_alone(
    s: Scene,
    map: Set<int>,
    t: Scene,
    mirrored: MirrorOutcome,
    completed: CompleteOutcome,
)
    requires
        s.queue.fault is Some,
    ensures
        mirrors(s, map, t, mirrored) ==> t == s && mirrored.chains == 0 && !mirrored.stalled,
        completes(s, map, t, completed) ==> t == s && completed.chains == 0
            && !completed.needs_interrupt,
{
}

/// The chains in flight are counted one by one, queue by queue.
pub proof fn law_chains_in_flight_are_counted(shadow: Seq<ShadowQueue>, n: int)
    requires
        0 <= n < shadow.len(),
    ensures
        inflight_sum(shadow, 0) == 0,
        inflight_sum(shadow, n + 1) == inflight_sum(shadow, n) + Set::new(
            |h: int| 0 <= h < shadow[n]@.inflight.len() && shadow[n]@.inflight[h] is Some,
        ).len(),
{
    ownership::law_occupied_entries(shadow[n]@.inflight);
}

/// The token that is registered for a queue's kick or call comes back as that
/// queue's kick or call, and no two events have the same token.
pub proof fn law_registered_tokens_come_back(i: usize, j: usize, num_queues: usize)
    requires
        i < num_queues <= 32760,
        j < num_queues,
    ensures
        15 < kick_token(i as int) <= u16::MAX,
        15 < call_token(i as int) <= u16::MAX,
        routed(kick_token(i as int) as u16, num_queues) == Some(QueueEvent::GuestKick(i)),
        routed(call_token(i as int) as u16, num_queues) == Some(QueueEvent::BackendCall(i)),
        kick_token(i as int) != call_token(j as int),
        i != j ==> kick_token(i as int) != kick_token(j as int),
        i != j ==> call_token(i as int) != call_token(j as int),
{
}

/// A drain ends as soon as nothing is in flight, deadline or not; with requests
/// in flight it goes on until the deadline, and no longer.
pub proof fn law_when_a_drain_ends(inflight: usize, deadline_passed: bool)
    ensures
        drain_follows(inflight, deadline_passed) is Drained <==> inflight == 0,
        drain_follows(inflight, deadline_passed) is Retry <==> inflight > 0 && !deadline_passed,
        drain_follows(inflight, deadline_passed) is TimedOut <==> inflight > 0 && deadline_passed,
{
}

/// The backend is kicked exactly when it was handed chains, and the guest
/// interrupted exactly when that was found to be needed, each on the queue that
/// was worked on; a stalled sweep kicks for what it did publish.
pub proof fn law_when_signals_are_sent(
    q: usize,
    mirrored: MirrorOutcome,
    completed: CompleteOutcome,
)
    ensures
        mirror_signal(q, mirrored) == Some(Signal::KickBackend(q)) <==> mirrored.chains != 0,
        mirror_signal(q, mirrored) is None <==> mirrored.chains == 0,
        complete_signal(q, completed) == Some(Signal::InterruptGuest(q))
            <==> completed.needs_interrupt,
        complete_signal(q, completed) is None <==> !completed.needs_interrupt,
{
}

/// A queue that has not stopped is swept: mirroring it takes what the guest has
/// made available, and completing it what the backend has finished. Either way
/// an arena byte that is neither free nor the queue's own stays as it was.
pub proof fn law_running_queues_are_swept(
    s: Scene,
    map: Set<int>,
    t: Scene,
    mirrored: MirrorOutcome,
    completed: CompleteOutcome,
    b: int,
)
    requires
        s.queue.fault is None,
    ensures
        mirrors(s, map, t, mirrored) ==> exists|xs: Seq<Arrival>, done: bool|
            model::mirrored(s, map, xs, done, t, mirrored),
        completes(s, map, t, completed) ==> exists|h: Harvest| #[trigger]
            model::completed(s, map, h, t, completed),
        mirrors(s, map, t, mirrored) || completes(s, map, t, completed) ==> {
            &&& t.pool.arena_base == s.pool.arena_base
            &&& t.pool.arena.capacity == s.pool.arena.capacity
            &&& t.pool.arena.free_at(b) || t.queue.owns_byte(t.pool.arena_base, b)
                <==> s.pool.arena.free_at(b) || s.queue.owns_byte(s.pool.arena_base, b)
        },
{
}

} // verus!
