//! Guest physical memory, as the bounce path accesses it.
//!
//! Both the guest's RAM and the bounce pool are [`GuestMemoryMmap`]s that
//! other parties (the guest, the backend) write at any time, so nothing can
//! be said about what a read returns. What can be said is which accesses are
//! made, in which order, and what they carry: [`accesses`] is that history,
//! and every function here that touches memory adds to it.

use super::ring::Descriptor;
use std::sync::atomic::Ordering;
use vm_memory::bitmap::AtomicBitmap;
use vm_memory::{Bytes, GuestAddress, GuestMemory, GuestMemoryError};
use vstd::prelude::*;

verus! {

/// A set of guest memory regions that are mapped into this process.
pub type GuestMemoryMmap = vm_memory::GuestMemoryMmap<AtomicBitmap>;

/// `vm_memory::GuestRegionCollection`, which [`GuestMemoryMmap`] stands for.
#[verifier::external_type_specification]
#[verifier::external_body]
#[verifier::reject_recursive_types(R)]
pub struct ExGuestRegionCollection<R>(vm_memory::GuestRegionCollection<R>);

/// `vm_memory::GuestRegionMmap`, a region of guest memory.
#[verifier::external_type_specification]
#[verifier::external_body]
#[verifier::reject_recursive_types(B)]
pub struct ExGuestRegionMmap<B>(vm_memory::GuestRegionMmap<B>);

/// `vm_memory::bitmap::AtomicBitmap`, the dirty bitmap of a region.
#[verifier::external_type_specification]
#[verifier::external_body]
pub struct ExAtomicBitmap(vm_memory::bitmap::AtomicBitmap);

/// `vm_memory::GuestMemoryError`, the error of a memory access.
#[verifier::external_type_specification]
#[verifier::external_body]
pub struct ExGuestMemoryError(vm_memory::GuestMemoryError);

/// Memory ordering of an atomic load.
#[derive(Clone, Copy, Debug, PartialEq, Eq, Structural)]
pub enum LoadOrder {
    Relaxed,
    Acquire,
}

/// One access to guest physical memory.
pub enum Access {
    /// `bytes` were read, starting at `addr`.
    Read { addr: u64, bytes: Seq<u8> },
    /// `bytes` were written, starting at `addr`. Where part of the range is
    /// not mapped the write failed, and only bytes below the first unmapped
    /// one can have been stored.
    Write { addr: u64, bytes: Seq<u8> },
    /// `desc` was written at `addr`, in the split ring layout.
    WriteDesc { addr: u64, desc: Descriptor },
    /// `value` was written at `addr`.
    WriteU16 { addr: u64, value: u16 },
    /// `word` was read at `addr`.
    ReadU32 { addr: u64, word: u32 },
    /// An atomic load at `addr`, with the value it returned if it did not
    /// fail.
    LoadU16 { addr: u64, order: LoadOrder, loaded: Option<u16> },
    /// An atomic store at `addr` with release ordering, and whether it was
    /// done.
    StoreU16 { addr: u64, value: u16, done: bool },
    /// A virtqueue's next available chain was asked for: its head, or
    /// nothing.
    PopChain { popped: Option<u16> },
    /// The chain with this head was walked on to its end, which gave `descs`.
    WalkChain { head: u16, descs: Seq<Descriptor> },
    /// A used element was put into a virtqueue's used ring and the used
    /// index advanced, and whether that succeeded.
    AddUsed { head: u16, len: u32, done: bool },
    /// A virtqueue was asked whether its driver wants a notification.
    AskNotification { answer: Option<bool> },
}

/// The accesses made to `mem` so far through the functions of this module
/// and of [`super::ring`], in order.
pub uninterp spec fn accesses(mem: GuestMemoryMmap) -> Seq<Access>;

/// The guest physical addresses that some region of `mem` covers.
pub uninterp spec fn mapped(mem: GuestMemoryMmap) -> Set<int>;

/// Whether the `len` addresses from `addr` on are all in `set`.
pub open spec fn covers(set: Set<int>, addr: u64, len: int) -> bool {
    forall|a: int| addr <= a < addr + len ==> #[trigger] set.contains(a)
}

/// `GuestRegionCollection::new`: memory without any region, which nothing has
/// accessed.
#[verifier::external_body]
pub(crate) fn empty() -> (r: GuestMemoryMmap)
    ensures
        accesses(r) == Seq::<Access>::empty(),
        mapped(r) == Set::<int>::empty(),
{
    GuestMemoryMmap::new()
}

/// `GuestMemory::check_range`: whether every byte of the range lies in a
/// region. A region never reaches the last address, so a range that is
/// covered ends at or below it.
#[verifier::external_body]
pub(crate) fn check_range(mem: &GuestMemoryMmap, addr: u64, len: usize) -> (r: bool)
    requires
        len > 0,
    ensures
        r == covers(mapped(*mem), addr, len as int),
        r ==> addr + len <= u64::MAX,
{
    mem.check_range(GuestAddress(addr), len)
}

/// `Bytes::read_slice`: fills the first `len` bytes of `buf` from `addr` on.
/// It succeeds exactly when the whole range is mapped.
#[verifier::external_body]
pub(crate) fn read_slice(mem: &mut GuestMemoryMmap, buf: &mut Vec<u8>, len: usize, addr: u64) -> (r:
    Result<(), GuestMemoryError>)
    requires
        len <= old(buf)@.len(),
    ensures
        final(buf)@.len() == old(buf)@.len(),
        r is Ok <==> covers(mapped(*old(mem)), addr, len as int),
        r is Ok ==> accesses(*final(mem)) == accesses(*old(mem)).push(
            (Access::Read { addr, bytes: final(buf)@.take(len as int) }),
        ),
        mapped(*final(mem)) == mapped(*old(mem)),
{
    mem.read_slice(&mut buf[..len], GuestAddress(addr))
}

/// `Bytes::write_slice`: writes the first `len` bytes of `buf` from `addr`
/// on. It succeeds exactly when the whole range is mapped.
#[verifier::external_body]
pub(crate) fn write_slice(mem: &mut GuestMemoryMmap, buf: &Vec<u8>, len: usize, addr: u64) -> (r:
    Result<(), GuestMemoryError>)
    requires
        len <= buf@.len(),
    ensures
        r is Ok <==> covers(mapped(*old(mem)), addr, len as int),
        accesses(*final(mem)) == accesses(*old(mem)).push(
            (Access::Write { addr, bytes: buf@.take(len as int) }),
        ),
        mapped(*final(mem)) == mapped(*old(mem)),
{
    mem.write_slice(&buf[..len], GuestAddress(addr))
}

/// `Bytes::write_obj` of a split ring descriptor, which takes 16 bytes. It
/// succeeds exactly when all of them are mapped.
#[verifier::external_body]
pub(crate) fn write_desc(mem: &mut GuestMemoryMmap, desc: Descriptor, addr: u64) -> (r: Result<
    (),
    GuestMemoryError,
>)
    ensures
        r is Ok <==> covers(mapped(*old(mem)), addr, 16),
        r is Ok ==> accesses(*final(mem)) == accesses(*old(mem)).push(
            (Access::WriteDesc { addr, desc }),
        ),
        mapped(*final(mem)) == mapped(*old(mem)),
{
    let raw = virtio_queue::desc::split::Descriptor::new(desc.addr, desc.len, desc.flags, desc.next);
    mem.write_obj(raw, GuestAddress(addr))
}

/// `Bytes::write_obj` of a `u16`. It succeeds exactly when both bytes are
/// mapped.
#[verifier::external_body]
pub(crate) fn write_u16(mem: &mut GuestMemoryMmap, value: u16, addr: u64) -> (r: Result<
    (),
    GuestMemoryError,
>)
    ensures
        r is Ok <==> covers(mapped(*old(mem)), addr, 2),
        r is Ok ==> accesses(*final(mem)) == accesses(*old(mem)).push(
            (Access::WriteU16 { addr, value }),
        ),
        mapped(*final(mem)) == mapped(*old(mem)),
{
    mem.write_obj(value, GuestAddress(addr))
}

/// `Bytes::read_obj` of a `u32`. It succeeds exactly when all four bytes
/// are mapped.
#[verifier::external_body]
pub(crate) fn read_u32(mem: &mut GuestMemoryMmap, addr: u64) -> (r: Result<u32, GuestMemoryError>)
    ensures
        r is Ok <==> covers(mapped(*old(mem)), addr, 4),
        r is Ok ==> accesses(*final(mem)) == accesses(*old(mem)).push(
            (Access::ReadU32 { addr, word: r->Ok_0 }),
        ),
        mapped(*final(mem)) == mapped(*old(mem)),
{
    mem.read_obj(GuestAddress(addr))
}

/// `Bytes::load` of a `u16`. It fails where the address is not mapped; it
/// also fails where the host address is odd or the value straddles two
/// regions, which is left open here.
#[verifier::external_body]
pub(crate) fn load_u16(mem: &mut GuestMemoryMmap, addr: u64, order: LoadOrder) -> (r: Option<u16>)
    ensures
        r is Some ==> covers(mapped(*old(mem)), addr, 2),
        accesses(*final(mem)) == accesses(*old(mem)).push(
            (Access::LoadU16 { addr, order, loaded: r }),
        ),
        mapped(*final(mem)) == mapped(*old(mem)),
{
    let order = match order {
        LoadOrder::Relaxed => Ordering::Relaxed,
        LoadOrder::Acquire => Ordering::Acquire,
    };
    mem.load(GuestAddress(addr), order).ok()
}

/// `Bytes::store` of a `u16` with release ordering. It fails where the
/// address is not mapped; it also fails where the host address is odd or
/// the value straddles two regions, which is left open here.
#[verifier::external_body]
pub(crate) fn store_u16(mem: &mut GuestMemoryMmap, value: u16, addr: u64) -> (r: bool)
    ensures
        r ==> covers(mapped(*old(mem)), addr, 2),
        accesses(*final(mem)) == accesses(*old(mem)).push(
            (Access::StoreU16 { addr, value, done: r }),
        ),
        mapped(*final(mem)) == mapped(*old(mem)),
{
    mem.store(value, GuestAddress(addr), Ordering::Release).is_ok()
}

/// Where the last of the pieces of at most `chunk` bytes that `len` bytes
/// are cut into starts.
pub open spec fn last_piece(len: int, chunk: int) -> int {
    ((len - 1) / chunk) * chunk
}

/// `data` written from `addr` on in pieces of `chunk` bytes, the last one
/// possibly shorter.
pub open spec fn piecewise_writes(addr: int, data: Seq<u8>, chunk: int) -> Seq<Access>
    decreases data.len(),
{
    let start = last_piece(data.len() as int, chunk);
    if data.len() == 0 || !(0 <= start < data.len()) {
        Seq::empty()
    } else {
        piecewise_writes(addr, data.take(start), chunk).push(
            Access::Write { addr: (addr + start) as u64, bytes: data.skip(start) },
        )
    }
}

/// `data` read from `addr` on in pieces of `chunk` bytes, the last one
/// possibly shorter.
pub open spec fn piecewise_reads(addr: int, data: Seq<u8>, chunk: int) -> Seq<Access>
    decreases data.len(),
{
    let start = last_piece(data.len() as int, chunk);
    if data.len() == 0 || !(0 <= start < data.len()) {
        Seq::empty()
    } else {
        piecewise_reads(addr, data.take(start), chunk).push(
            Access::Read { addr: (addr + start) as u64, bytes: data.skip(start) },
        )
    }
}

pub(crate) proof fn lemma_last_piece(done: int, n: int, chunk: int)
    requires
        chunk > 0,
        done >= 0,
        done % chunk == 0,
        0 < n <= chunk,
    ensures
        last_piece(done + n, chunk) == done,
{
    let k = done / chunk;
    assert(done == k * chunk) by (nonlinear_arith)
        requires
            chunk > 0,
            k == done / chunk,
            done % chunk == 0,
    ;
    assert((done + n - 1) / chunk == k) by (nonlinear_arith)
        requires
            done == k * chunk,
            0 < n <= chunk,
            chunk > 0,
    ;
}

/// One more piece: the accesses so far, then the piece's own.
pub(crate) proof fn lemma_next_piece(addr: int, data: Seq<u8>, piece: Seq<u8>, chunk: int)
    requires
        chunk > 0,
        data.len() as int % chunk == 0,
        0 < piece.len() <= chunk,
    ensures
        piecewise_writes(addr, data + piece, chunk) == piecewise_writes(addr, data, chunk).push(
            (Access::Write { addr: (addr + data.len()) as u64, bytes: piece }),
        ),
        piecewise_reads(addr, data + piece, chunk) == piecewise_reads(addr, data, chunk).push(
            (Access::Read { addr: (addr + data.len()) as u64, bytes: piece }),
        ),
{
    lemma_last_piece(data.len() as int, piece.len() as int, chunk);
    assert((data + piece).take(data.len() as int) =~= data);
    assert((data + piece).skip(data.len() as int) =~= piece);
}

} // verus!
