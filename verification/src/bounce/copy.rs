//! Staged copies: bytes go from one memory to another through a small buffer,
//! piece by piece.

use super::memory::{self, Access, GuestMemoryMmap};
use super::model;
use vm_memory::GuestMemoryError;
use vstd::prelude::*;

verus! {

/// Chunk size for staged guest<->pool copies. Staging through a scratch
/// buffer keeps every access inside the safe vm-memory slice APIs while
/// still handling guest buffers that span region boundaries.
pub const COPY_CHUNK: usize = 16384;

/// One call that a staged copy makes of its two ends, with the error that it
/// returned, if any.
pub enum CopyCall<E> {
    /// A piece was asked for, and `bytes` stood in the buffer afterwards.
    Read { offset: u64, bytes: Seq<u8>, error: Option<E> },
    /// A piece was handed on.
    Write { offset: u64, bytes: Seq<u8>, error: Option<E> },
}

/// Calls of a staged copy, in order.
pub type CopyCalls<E> = Seq<CopyCall<E>>;

/// The error of a call, if it failed.
pub open spec fn failure<E>(r: Result<(), E>) -> Option<E> {
    match r {
        Ok(_) => None,
        Err(e) => Some(e),
    }
}

/// Where the bytes of a staged copy come from and where they go.
pub trait CopyEnds: Sized {
    type Error;

    /// What no call changes.
    type Setting;

    spec fn valid(&self) -> bool;

    spec fn setting(&self) -> Self::Setting;

    /// How many bytes there are to copy.
    spec fn limit(&self) -> u32;

    /// The calls made so far, in order.
    spec fn calls(&self) -> CopyCalls<Self::Error>;

    /// Fetch the `len` bytes at `offset` into the front of `buf`.
    fn read(&mut self, buf: &mut Vec<u8>, len: usize, offset: u64) -> (r: Result<(), Self::Error>)
        requires
            old(self).valid(),
            0 < len <= old(buf)@.len(),
            offset + len <= old(self).limit(),
        ensures
            final(self).valid(),
            final(self).setting() == old(self).setting(),
            final(self).limit() == old(self).limit(),
            final(buf)@.len() == old(buf)@.len(),
            final(self).calls() == old(self).calls().push(
                (CopyCall::Read { offset, bytes: final(buf)@.take(len as int), error: failure(r) }),
            ),
    ;

    /// Hand on the `len` bytes at the front of `buf`, for `offset`.
    fn write(&mut self, buf: &Vec<u8>, len: usize, offset: u64) -> (r: Result<(), Self::Error>)
        requires
            old(self).valid(),
            0 < len <= buf@.len(),
            offset + len <= old(self).limit(),
        ensures
            final(self).valid(),
            final(self).setting() == old(self).setting(),
            final(self).limit() == old(self).limit(),
            final(self).calls() == old(self).calls().push(
                (CopyCall::Write { offset, bytes: buf@.take(len as int), error: failure(r) }),
            ),
    ;
}

/// The calls that copy `data`, none of which fails: a piece is read, the same
/// bytes are written for the same offset, and only then comes the next piece.
pub open spec fn rounds<E>(data: Seq<u8>) -> CopyCalls<E>
    decreases data.len(),
{
    let start = memory::last_piece(data.len() as int, model::copy_chunk());
    if data.len() == 0 || !(0 <= start < data.len()) {
        Seq::empty()
    } else {
        rounds::<E>(data.take(start)).push(
            CopyCall::Read { offset: start as u64, bytes: data.skip(start), error: None },
        ).push(CopyCall::Write { offset: start as u64, bytes: data.skip(start), error: None })
    }
}

/// `after` is `before` and the calls that copy all of `data`, which is `len`
/// bytes long.
pub open spec fn copied_whole<E>(
    before: CopyCalls<E>,
    after: CopyCalls<E>,
    len: u32,
    data: Seq<u8>,
) -> bool {
    data.len() == len && after == before + rounds::<E>(data)
}

/// `after` is `before`, the calls that copy `data`, and then the calls for the
/// next piece up to the one that failed with `e`.
pub open spec fn cut_short<E>(
    before: CopyCalls<E>,
    after: CopyCalls<E>,
    len: u32,
    data: Seq<u8>,
    piece: Seq<u8>,
    e: E,
) -> bool {
    let offset = data.len() as u64;
    let done = before + rounds::<E>(data);
    let rest = len - data.len();
    &&& data.len() < len
    &&& data.len() as int % model::copy_chunk() == 0
    &&& piece.len() == if rest < model::copy_chunk() {
        rest
    } else {
        model::copy_chunk()
    }
    &&& {
        ||| after == done.push(CopyCall::Read { offset, bytes: piece, error: Some(e) })
        ||| after == done.push(CopyCall::Read { offset, bytes: piece, error: None }).push(
            CopyCall::Write { offset, bytes: piece, error: Some(e) },
        )
    }
}

/// What calls a staged copy of `len` bytes makes, by what it returns.
pub open spec fn copied<E>(
    before: CopyCalls<E>,
    after: CopyCalls<E>,
    len: u32,
    r: Result<(), E>,
) -> bool {
    match r {
        Ok(_) => exists|data: Seq<u8>| #[trigger] copied_whole(before, after, len, data),
        Err(e) => exists|data: Seq<u8>, piece: Seq<u8>| #[trigger]
            cut_short(before, after, len, data, piece, e),
    }
}

/// Staged copy of `len` bytes through the scratch buffer: one piece after the
/// other is read and then written. The first failure ends the copy and is
/// returned.
pub fn copy_chunked<T: CopyEnds>(scratch: &mut Vec<u8>, ends: &mut T, len: u32) -> (r: Result<
    (),
    T::Error,
>)
    requires
        old(ends).valid(),
        len <= old(ends).limit(),
        old(scratch)@.len() == 0 || old(scratch)@.len() == COPY_CHUNK,
    ensures
        final(ends).valid(),
        final(ends).setting() == old(ends).setting(),
        final(ends).limit() == old(ends).limit(),
        final(scratch)@.len() == COPY_CHUNK,
        copied(old(ends).calls(), final(ends).calls(), len, r),
{
    if scratch.len() == 0 {
        scratch.resize(COPY_CHUNK, 0);
    }
    let len64: u64 = len as u64;
    let mut done: u64 = 0;
    let ghost before = ends.calls();
    let ghost mut data = Seq::<u8>::empty();
    assert(ends.calls() =~= before + rounds::<T::Error>(data));
    while done < len64
        invariant
            ends.valid(),
            ends.setting() == old(ends).setting(),
            ends.limit() == old(ends).limit(),
            before == old(ends).calls(),
            len64 == len,
            len <= ends.limit(),
            scratch@.len() == COPY_CHUNK,
            done <= len64,
            done < len64 ==> done % 16384 == 0,
            data.len() == done,
            ends.calls() == before + rounds::<T::Error>(data),
        decreases len64 - done,
    {
        let chunk: u64 = if len64 - done < 16384 {
            len64 - done
        } else {
            16384
        };
        let got = ends.read(scratch, chunk as usize, done);
        let ghost piece = scratch@.take(chunk as int);
        if let Err(e) = got {
            assert(cut_short(before, ends.calls(), len, data, piece, e));
            return Err(e);
        }
        let put = ends.write(scratch, chunk as usize, done);
        if let Err(e) = put {
            assert(cut_short(before, ends.calls(), len, data, piece, e));
            return Err(e);
        }
        proof {
            lemma_next_round::<T::Error>(data, piece);
            data = data + piece;
        }
        done += chunk;
        assert(ends.calls() =~= before + rounds::<T::Error>(data));
    }
    assert(copied_whole(before, ends.calls(), len, data));
    Ok(())
}

proof fn lemma_next_round<E>(data: Seq<u8>, piece: Seq<u8>)
    requires
        data.len() as int % model::copy_chunk() == 0,
        0 < piece.len() <= model::copy_chunk(),
    ensures
        rounds::<E>(data + piece) == rounds::<E>(data).push(
            (CopyCall::Read { offset: data.len() as u64, bytes: piece, error: None }),
        ).push((CopyCall::Write { offset: data.len() as u64, bytes: piece, error: None })),
{
    memory::lemma_last_piece(data.len() as int, piece.len() as int, model::copy_chunk());
    assert((data + piece).take(data.len() as int) =~= data);
    assert((data + piece).skip(data.len() as int) =~= piece);
}

/// The error that a call returned, if any.
pub open spec fn error_of<E>(call: CopyCall<E>) -> Option<E> {
    match call {
        CopyCall::Read { error, .. } => error,
        CopyCall::Write { error, .. } => error,
    }
}

/// The calls of a copy of `data` alternate: piece `i` starts at `i` times the
/// chunk size, ends where the next one starts or the data ends, is read by
/// call `2 * i` and written, with the same bytes, by the call after that.
/// There are no other calls, so the pieces cover the data exactly once.
pub proof fn law_reads_and_writes_alternate<E>(data: Seq<u8>, i: int)
    requires
        data.len() <= u32::MAX,
        0 <= i,
        i * 16384 < data.len(),
    ensures
        ({
            let chunk = 16384int;
            let calls = rounds::<E>(data);
            let end = if (i + 1) * chunk < data.len() {
                (i + 1) * chunk
            } else {
                data.len() as int
            };
            let offset = (i * chunk) as u64;
            let bytes = data.subrange(i * chunk, end);
            &&& calls.len() == 2 * ((data.len() + chunk - 1) / chunk)
            &&& calls[2 * i] == (CopyCall::<E>::Read { offset, bytes, error: None })
            &&& calls[2 * i + 1] == (CopyCall::<E>::Write { offset, bytes, error: None })
        }),
    decreases data.len(),
{
    let chunk = model::copy_chunk();
    let start = memory::last_piece(data.len() as int, chunk);
    let k = (data.len() - 1) / chunk;
    let rest = data.take(start);
    assert(start == k * chunk);
    lemma_rounds_len::<E>(data);
    lemma_rounds_len::<E>(rest);
    if i < k {
        law_reads_and_writes_alternate::<E>(rest, i);
        let end = (i + 1) * chunk;
        assert(end <= start);
        assert(rest.subrange(i * chunk, end) =~= data.subrange(i * chunk, end));
    } else {
        assert(i == k);
        assert(data.subrange(start, data.len() as int) =~= data.skip(start));
    }
}

proof fn lemma_rounds_len<E>(data: Seq<u8>)
    ensures
        rounds::<E>(data).len() == 2 * ((data.len() + model::copy_chunk() - 1)
            / model::copy_chunk()),
    decreases data.len(),
{
    if data.len() > 0 {
        lemma_rounds_len::<E>(data.take(memory::last_piece(data.len() as int, model::copy_chunk())));
    }
}

proof fn lemma_rounds_go_well<E>(data: Seq<u8>)
    ensures
        forall|i: int|
            0 <= i < rounds::<E>(data).len() ==> error_of(#[trigger] rounds::<E>(data)[i]) is None,
    decreases data.len(),
{
    if data.len() > 0 {
        lemma_rounds_go_well::<E>(
            data.take(memory::last_piece(data.len() as int, model::copy_chunk())),
        );
    }
}

/// A staged copy succeeds exactly when every call that it makes does. The
/// first failure is what it returns, and no call follows it. A copy of no
/// bytes makes no call.
pub proof fn law_copy_ends_at_the_first_failure<E>(
    before: CopyCalls<E>,
    after: CopyCalls<E>,
    len: u32,
    r: Result<(), E>,
)
    requires
        copied(before, after, len, r),
    ensures
        before.len() <= after.len(),
        after.take(before.len() as int) == before,
        r is Ok <==> forall|i: int|
            before.len() <= i < after.len() ==> error_of(#[trigger] after[i]) is None,
        r matches Err(e) ==> {
            &&& before.len() < after.len()
            &&& error_of(after.last()) == Some(e)
            &&& forall|i: int|
                before.len() <= i < after.len() - 1 ==> error_of(#[trigger] after[i]) is None
        },
        len == 0 ==> r is Ok && after == before,
{
    match r {
        Ok(_) => {
            let data = choose|data: Seq<u8>| #[trigger] copied_whole(before, after, len, data);
            lemma_rounds_go_well::<E>(data);
            assert forall|i: int| before.len() <= i < after.len() implies error_of(
                #[trigger] after[i],
            ) is None by {
                assert(after[i] == rounds::<E>(data)[i - before.len()]);
            }
            assert(after.take(before.len() as int) =~= before);
            if len == 0 {
                assert(after =~= before);
            }
        },
        Err(e) => {
            let (data, piece) = choose|data: Seq<u8>, piece: Seq<u8>| #[trigger]
                cut_short(before, after, len, data, piece, e);
            lemma_rounds_go_well::<E>(data);
            assert(after.take(before.len() as int) =~= before);
            let last = after.len() - 1;
            assert(error_of(after[last]) == Some(e));
            assert forall|i: int| before.len() <= i < last implies error_of(
                #[trigger] after[i],
            ) is None by {
                if i < before.len() + rounds::<E>(data).len() {
                    assert(after[i] == rounds::<E>(data)[i - before.len()]);
                }
            }
        },
    }
}

/// Whatever comes of a staged copy, its calls come in pairs for one piece after
/// the other: first a read for the piece that starts at a multiple of 16384, as
/// long as is left or 16384 bytes, and then, if there is another call, a write of
/// the same bytes for the same offset. A copy that succeeds makes a pair for
/// every piece.
pub proof fn law_calls_come_in_pairs<E>(
    before: CopyCalls<E>,
    after: CopyCalls<E>,
    len: u32,
    r: Result<(), E>,
    i: int,
)
    requires
        copied(before, after, len, r),
        0 <= i,
    ensures
        ({
            let at = before.len() + 2 * i;
            &&& r is Ok ==> after.len() == before.len() + 2 * ((len + 16383) / 16384)
            &&& at < after.len() ==> {
                &&& i * 16384 < len
                &&& after[at] matches CopyCall::Read { offset, bytes, .. }
                &&& offset == i * 16384
                &&& bytes.len() == if len - i * 16384 < 16384 {
                    len - i * 16384
                } else {
                    16384
                }
                &&& at + 1 < after.len() ==> (after[at + 1] matches CopyCall::Write {
                    offset: to,
                    bytes: put,
                    ..
                } && to == offset && put == bytes)
            }
        }),
{
    let at = before.len() + 2 * i;
    match r {
        Ok(_) => {
            let data = choose|data: Seq<u8>| #[trigger] copied_whole(before, after, len, data);
            lemma_rounds_len::<E>(data);
            if at < after.len() {
                law_reads_and_writes_alternate::<E>(data, i);
                assert(after[at] == rounds::<E>(data)[2 * i]);
                assert(after[at + 1] == rounds::<E>(data)[2 * i + 1]);
            }
        },
        Err(e) => {
            let (data, piece) = choose|data: Seq<u8>, piece: Seq<u8>| #[trigger]
                cut_short(before, after, len, data, piece, e);
            lemma_rounds_len::<E>(data);
            let done = rounds::<E>(data);
            if 2 * i < done.len() {
                law_reads_and_writes_alternate::<E>(data, i);
                assert(after[at] == done[2 * i]);
                assert(after[at + 1] == done[2 * i + 1]);
            } else if at < after.len() {
                assert(2 * i == done.len());
                assert(i * 16384 == data.len());
            }
        },
    }
}

// ---- Between two guest memories ----

/// What a copy from one guest memory to another starts from.
struct TransferStart {
    from_addr: u64,
    to_addr: u64,
    len: u32,
    from_log: Seq<Access>,
    to_log: Seq<Access>,
    from_map: Set<int>,
    to_map: Set<int>,
}

/// A copy from one guest memory to another. It holds both handles while it
/// lasts, and keeps its calls in step with the accesses to either memory.
struct Transfer {
    from: GuestMemoryMmap,
    to: GuestMemoryMmap,
    from_addr: u64,
    to_addr: u64,
    start: Ghost<TransferStart>,
    calls: Ghost<CopyCalls<GuestMemoryError>>,
}

/// The reads among `calls`, as accesses to the memory that they start from
/// `addr` in.
spec fn reads_in<E>(calls: CopyCalls<E>, addr: int) -> Seq<Access>
    decreases calls.len(),
{
    if calls.len() == 0 {
        Seq::empty()
    } else {
        let rest = reads_in(calls.drop_last(), addr);
        match calls.last() {
            CopyCall::Read { offset, bytes, .. } => rest.push(
                Access::Read { addr: (addr + offset) as u64, bytes },
            ),
            CopyCall::Write { .. } => rest,
        }
    }
}

/// The writes among `calls`, as accesses to the memory that they start from
/// `addr` in.
spec fn writes_in<E>(calls: CopyCalls<E>, addr: int) -> Seq<Access>
    decreases calls.len(),
{
    if calls.len() == 0 {
        Seq::empty()
    } else {
        let rest = writes_in(calls.drop_last(), addr);
        match calls.last() {
            CopyCall::Read { .. } => rest,
            CopyCall::Write { offset, bytes, .. } => rest.push(
                Access::Write { addr: (addr + offset) as u64, bytes },
            ),
        }
    }
}

/// No read fails, and a write fails exactly where its piece is not mapped.
spec fn fares<E>(call: CopyCall<E>, to_map: Set<int>, to_addr: int) -> bool {
    match call {
        CopyCall::Read { error, .. } => error is None,
        CopyCall::Write { offset, bytes, error } => error is None <==> memory::covers(
            to_map,
            (to_addr + offset) as u64,
            bytes.len() as int,
        ),
    }
}

spec fn all_fare<E>(calls: CopyCalls<E>, to_map: Set<int>, to_addr: int) -> bool {
    forall|i: int| 0 <= i < calls.len() ==> fares(#[trigger] calls[i], to_map, to_addr)
}

impl CopyEnds for Transfer {
    type Error = GuestMemoryError;

    type Setting = TransferStart;

    closed spec fn valid(&self) -> bool {
        let s = self.start@;
        &&& s.from_addr == self.from_addr
        &&& s.to_addr == self.to_addr
        &&& s.from_addr + s.len <= u64::MAX
        &&& s.to_addr + s.len <= u64::MAX
        &&& memory::covers(s.from_map, s.from_addr, s.len as int)
        &&& memory::mapped(self.from) == s.from_map
        &&& memory::mapped(self.to) == s.to_map
        &&& memory::accesses(self.from) == s.from_log + reads_in(self.calls@, s.from_addr as int)
        &&& memory::accesses(self.to) == s.to_log + writes_in(self.calls@, s.to_addr as int)
        &&& all_fare(self.calls@, s.to_map, s.to_addr as int)
    }

    closed spec fn setting(&self) -> TransferStart {
        self.start@
    }

    closed spec fn limit(&self) -> u32 {
        self.start@.len
    }

    closed spec fn calls(&self) -> CopyCalls<GuestMemoryError> {
        self.calls@
    }

    fn read(&mut self, buf: &mut Vec<u8>, len: usize, offset: u64) -> (r: Result<
        (),
        GuestMemoryError,
    >) {
        let r = memory::read_slice(&mut self.from, buf, len, self.from_addr + offset);
        proof {
            let call = CopyCall::Read {
                offset,
                bytes: buf@.take(len as int),
                error: failure(r),
            };
            let calls = self.calls@.push(call);
            assert(calls.drop_last() =~= self.calls@);
            self.calls = Ghost(calls);
        }
        r
    }

    fn write(&mut self, buf: &Vec<u8>, len: usize, offset: u64) -> (r: Result<
        (),
        GuestMemoryError,
    >) {
        let r = memory::write_slice(&mut self.to, buf, len, self.to_addr + offset);
        proof {
            let call = CopyCall::Write {
                offset,
                bytes: buf@.take(len as int),
                error: failure(r),
            };
            let calls = self.calls@.push(call);
            assert(calls.drop_last() =~= self.calls@);
            self.calls = Ghost(calls);
        }
        r
    }
}

/// One more piece that is read and then written.
proof fn lemma_one_more<E>(calls: CopyCalls<E>, read: CopyCall<E>, write: CopyCall<E>, addr: int)
    requires
        read is Read,
        write is Write,
    ensures
        reads_in(calls.push(read).push(write), addr) == reads_in(calls, addr).push(
            (Access::Read { addr: (addr + read->Read_offset) as u64, bytes: read->Read_bytes }),
        ),
        writes_in(calls.push(read).push(write), addr) == writes_in(calls, addr).push(
            (Access::Write { addr: (addr + write->Write_offset) as u64, bytes: write->Write_bytes }),
        ),
{
    let after_read = calls.push(read);
    assert(after_read.drop_last() =~= calls);
    assert(after_read.push(write).drop_last() =~= after_read);
    assert(reads_in(after_read.push(write), addr) == reads_in(after_read, addr));
    assert(writes_in(after_read, addr) == writes_in(calls, addr));
}

proof fn lemma_rounds_access<E>(data: Seq<u8>, addr: int)
    requires
        data.len() <= u64::MAX,
    ensures
        reads_in(rounds::<E>(data), addr) == memory::piecewise_reads(
            addr,
            data,
            model::copy_chunk(),
        ),
        writes_in(rounds::<E>(data), addr) == memory::piecewise_writes(
            addr,
            data,
            model::copy_chunk(),
        ),
    decreases data.len(),
{
    let start = memory::last_piece(data.len() as int, model::copy_chunk());
    if data.len() > 0 && 0 <= start < data.len() {
        lemma_rounds_access::<E>(data.take(start), addr);
        let offset = start as u64;
        let bytes = data.skip(start);
        lemma_one_more(
            rounds::<E>(data.take(start)),
            CopyCall::Read { offset, bytes, error: None },
            CopyCall::Write { offset, bytes, error: None },
            addr,
        );
    }
}

proof fn lemma_rounds_cover<E>(data: Seq<u8>, map: Set<int>, addr: u64)
    requires
        addr + data.len() <= u64::MAX,
        all_fare(rounds::<E>(data), map, addr as int),
    ensures
        memory::covers(map, addr, data.len() as int),
    decreases data.len(),
{
    let start = memory::last_piece(data.len() as int, model::copy_chunk());
    if data.len() > 0 {
        assert(0 <= start < data.len());
        let calls = rounds::<E>(data);
        let rest = rounds::<E>(data.take(start));
        assert forall|i: int| 0 <= i < rest.len() implies fares(
            #[trigger] rest[i],
            map,
            addr as int,
        ) by {
            assert(rest[i] == calls[i]);
        }
        lemma_rounds_cover::<E>(data.take(start), map, addr);
        assert(fares(calls.last(), map, addr as int));
        assert forall|a: int| addr <= a < addr + data.len() implies #[trigger] map.contains(a) by {
            if a < addr + start {
                assert(memory::covers(map, addr, start));
            } else {
                assert(memory::covers(map, (addr + start) as u64, data.len() - start));
            }
        }
    }
}

/// A staged copy of `len` bytes from one memory to another. The source is
/// mapped, so the reads cannot fail; the copy ends at the first piece that the
/// destination does not take.
pub(crate) fn transfer(
    scratch: &mut Vec<u8>,
    from: &mut GuestMemoryMmap,
    to: &mut GuestMemoryMmap,
    from_addr: u64,
    to_addr: u64,
    len: u32,
) -> (r: (bool, Ghost<Seq<u8>>))
    requires
        old(scratch)@.len() == 0 || old(scratch)@.len() == COPY_CHUNK,
        memory::covers(memory::mapped(*old(from)), from_addr, len as int),
        from_addr + len <= u64::MAX,
        to_addr + len <= u64::MAX,
    ensures
        final(scratch)@.len() == COPY_CHUNK,
        memory::mapped(*final(from)) == memory::mapped(*old(from)),
        memory::mapped(*final(to)) == memory::mapped(*old(to)),
        memory::accesses(*final(from)) == memory::accesses(*old(from)) + memory::piecewise_reads(
            from_addr as int,
            r.1@,
            model::copy_chunk(),
        ),
        memory::accesses(*final(to)) == memory::accesses(*old(to)) + memory::piecewise_writes(
            to_addr as int,
            r.1@,
            model::copy_chunk(),
        ),
        r.0 == memory::covers(memory::mapped(*old(to)), to_addr, len as int),
        r.0 ==> r.1@.len() == len,
        !r.0 ==> {
            let map = memory::mapped(*old(to));
            let n = r.1@.len() as int;
            &&& 0 < n <= len
            &&& n == len || n % model::copy_chunk() == 0
            &&& memory::covers(map, to_addr, memory::last_piece(n, model::copy_chunk()))
            &&& !memory::covers(map, to_addr, n)
        },
{
    let ghost start = TransferStart {
        from_addr,
        to_addr,
        len,
        from_log: memory::accesses(*from),
        to_log: memory::accesses(*to),
        from_map: memory::mapped(*from),
        to_map: memory::mapped(*to),
    };
    let mut ends = Transfer {
        from: memory::empty(),
        to: memory::empty(),
        from_addr,
        to_addr,
        start: Ghost(start),
        calls: Ghost(Seq::empty()),
    };
    std::mem::swap(from, &mut ends.from);
    std::mem::swap(to, &mut ends.to);
    let r = copy_chunked(scratch, &mut ends, len);
    let ghost calls = ends.calls@;
    std::mem::swap(from, &mut ends.from);
    std::mem::swap(to, &mut ends.to);
    match r {
        Ok(_) => {
            let ghost data = choose|data: Seq<u8>| #[trigger]
                copied_whole(Seq::<CopyCall<GuestMemoryError>>::empty(), calls, len, data);
            proof {
                assert(calls =~= rounds::<GuestMemoryError>(data));
                lemma_rounds_access::<GuestMemoryError>(data, from_addr as int);
                lemma_rounds_access::<GuestMemoryError>(data, to_addr as int);
                lemma_rounds_cover::<GuestMemoryError>(data, start.to_map, to_addr);
            }
            (true, Ghost(data))
        },
        Err(e) => {
            let ghost (data, piece) = choose|data: Seq<u8>, piece: Seq<u8>| #[trigger]
                cut_short(
                    Seq::<CopyCall<GuestMemoryError>>::empty(),
                    calls,
                    len,
                    data,
                    piece,
                    e,
                );
            let ghost whole = data + piece;
            proof {
                lemma_cut_short(calls, start.to_map, from_addr, to_addr, len, data, piece, e);
            }
            (false, Ghost(whole))
        },
    }
}

proof fn lemma_cut_short<E>(
    calls: CopyCalls<E>,
    map: Set<int>,
    from_addr: u64,
    to_addr: u64,
    len: u32,
    data: Seq<u8>,
    piece: Seq<u8>,
    e: E,
)
    requires
        cut_short(Seq::empty(), calls, len, data, piece, e),
        all_fare(calls, map, to_addr as int),
        to_addr + len <= u64::MAX,
    ensures
        ({
            let whole = data + piece;
            let n = whole.len() as int;
            let chunk = model::copy_chunk();
            &&& reads_in(calls, from_addr as int) == memory::piecewise_reads(
                from_addr as int,
                whole,
                chunk,
            )
            &&& writes_in(calls, to_addr as int) == memory::piecewise_writes(
                to_addr as int,
                whole,
                chunk,
            )
            &&& 0 < n <= len
            &&& n == len || n % chunk == 0
            &&& memory::covers(map, to_addr, memory::last_piece(n, chunk))
            &&& !memory::covers(map, to_addr, n)
            &&& !memory::covers(map, to_addr, len as int)
        }),
{
    let whole = data + piece;
    let n = whole.len() as int;
    let chunk = model::copy_chunk();
    let offset = data.len() as u64;
    let done = rounds::<E>(data);
    let read = CopyCall::<E>::Read { offset, bytes: piece, error: None };
    let write = CopyCall::<E>::Write { offset, bytes: piece, error: Some(e) };
    assert(Seq::<CopyCall<E>>::empty() + done =~= done);
    assert(fares(calls[done.len() as int], map, to_addr as int));
    assert(calls == done.push(read).push(write));
    assert forall|i: int| 0 <= i < done.len() implies fares(
        #[trigger] done[i],
        map,
        to_addr as int,
    ) by {
        assert(done[i] == calls[i]);
    }
    lemma_rounds_cover::<E>(data, map, to_addr);
    lemma_rounds_access::<E>(data, from_addr as int);
    lemma_rounds_access::<E>(data, to_addr as int);
    memory::lemma_next_piece(from_addr as int, data, piece, chunk);
    memory::lemma_next_piece(to_addr as int, data, piece, chunk);
    memory::lemma_last_piece(data.len() as int, piece.len() as int, chunk);
    lemma_one_more(done, read, write, from_addr as int);
    lemma_one_more(done, read, write, to_addr as int);
    assert(fares(calls.last(), map, to_addr as int));
    let at = (to_addr + offset) as u64;
    assert(!memory::covers(map, at, piece.len() as int));
    let missing = choose|a: int| at <= a < at + piece.len() && !#[trigger] map.contains(a);
    assert(to_addr <= missing < to_addr + n);
}

} // verus!
