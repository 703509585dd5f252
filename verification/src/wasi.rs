//! Guest calls: what the host functions of a sandboxed guest do with its
//! memory, its handles and the simulation backend.

use crate::backend_sim::{
    accepted, clock_glanced, dispatched, entered, frame_payload, loaded, stored, BackendState,
    SimBackend,
};
use crate::bytes::{
    le, le_value, lemma_le_len, lemma_le_value_bound, lemma_span_small, u32_le, u64_le, u64_of_le,
};
use crate::cbor::copy_range;
use crate::effects::FsError;
use crate::host::{extends, follows, Host, Reply};
use crate::ids::{ActorId, EntryHash, MessageId, StreamId};
use crate::journal::{EntryPayload, Payload};
use crate::net::{scalar, Envelope, Message};
use crate::stream::{chacha20_half, chacha20_u32};
use crate::text::{chars_of, same_text, text_of, text_of_utf8};
use vstd::arithmetic::power2::pow2;
use vstd::bits::{lemma_u64_pow2_no_overflow, lemma_u64_shr_is_div};
use vstd::prelude::*;
use vstd::utf8::{decode_utf8, valid_utf8};

verus! {

broadcast use {crate::host::lemma_extends, crate::host::lemma_follows};

/// Nanoseconds per virtual-time tick.
pub const NS_PER_TICK: u64 = 1_000;

/// Number of the stream of guest randomness; every request journals one entry
/// on it.
pub const WASI_RANDOM_STREAM: u32 = 0xF000;

/// Upper bound on the vector count of one guest read or write.
pub const MAX_WASI_IOVECS: u32 = 4096;

/// Upper bound on the total bytes of one guest write.
pub const MAX_WASI_WRITE_BYTES: usize = 16_777_216;

/// Errno of a handle that is closed or lacks the right.
pub const WASI_ERRNO_BADF: u32 = 8;

/// Errno of a full or invalid descriptor table.
pub const WASI_ERRNO_TABLE: u32 = 24;

/// Errno of an invalid argument.
pub const WASI_ERRNO_INVAL: u32 = 28;

/// Errno of a failed write.
pub const WASI_ERRNO_IO: u32 = 29;

/// Why a stretch of guest memory cannot be used.
#[derive(Debug, Clone, Copy, PartialEq, Eq, Structural)]
pub enum SpanFault {
    /// Its end is past the address range.
    Overflow,
    /// It leaves the memory.
    Outside,
}

/// Why a vector of a guest read cannot be used.
#[derive(Debug, Clone, Copy, PartialEq, Eq, Structural)]
pub enum VectorFault {
    /// Its start is past the address range.
    Overflow,
    /// Its end is past the address range.
    EndOverflow,
    /// It leaves the memory.
    Outside,
}

/// Why a guest call traps.
#[derive(Debug, Clone, Copy, PartialEq, Eq)]
pub enum Trap {
    /// The text of a log call.
    Log(SpanFault),
    /// The buffer of a randomness request.
    Random(SpanFault),
    /// The path of an open call.
    Path(SpanFault),
    /// The path of an open call is no text.
    PathText,
    /// The place for the opened descriptor.
    OpenedFd,
    /// A vector of a write.
    WriteVector,
    /// The place for the count of written bytes.
    Written,
    /// Storage failed under a read.
    ReadStorage(FsError),
    /// A vector of a read.
    ReadVector(VectorFault),
    /// The buffer of a read.
    ReadBuffer(SpanFault),
    /// The place for the count of read bytes.
    ReadCount,
    /// The buffer of a status call.
    Status(SpanFault),
}

/// The stretch of `len` bytes at `start` of a memory, or why it cannot be used.
pub open spec fn span_fault(size: nat, start: nat, len: nat) -> Option<SpanFault> {
    if start + len > usize::MAX {
        Some(SpanFault::Overflow)
    } else if start + len > size {
        Some(SpanFault::Outside)
    } else {
        None
    }
}

/// Check a stretch of guest memory: its end, or why it cannot be used.
fn span_end(size: usize, start: usize, len: usize) -> (r: Result<usize, SpanFault>)
    ensures
        match r {
            Ok(end) => span_fault(size as nat, start as nat, len as nat) is None && end == start
                + len,
            Err(e) => span_fault(size as nat, start as nat, len as nat) == Some(e),
        },
{
    match start.checked_add(len) {
        None => Err(SpanFault::Overflow),
        Some(end) => {
            if end > size {
                Err(SpanFault::Outside)
            } else {
                Ok(end)
            }
        },
    }
}

/// A memory after bytes were stored at a place that holds them.
pub open spec fn stored_at(memory: Seq<u8>, at: int, bytes: Seq<u8>) -> Seq<u8> {
    Seq::new(
        memory.len(),
        |k: int|
            if at <= k < at + bytes.len() {
                bytes[k - at]
            } else {
                memory[k]
            },
    )
}

/// Store bytes in memory.
fn store_bytes(memory: &mut [u8], at: usize, bytes: &[u8])
    requires
        at + bytes@.len() <= old(memory)@.len(),
    ensures
        final(memory)@ == stored_at(old(memory)@, at as int, bytes@),
{
    let ghost before = memory@;
    let size: usize = memory.len();
    let mut i: usize = 0;
    assert(memory@ =~= stored_at(before, at as int, bytes@.take(0)));
    while i < bytes.len()
        invariant
            i <= bytes@.len(),
            at + bytes@.len() <= before.len() == size,
            before == old(memory)@,
            memory@ == stored_at(before, at as int, bytes@.take(i as int)),
        decreases bytes@.len() - i,
    {
        memory[at + i] = bytes[i];
        i = i + 1;
        assert(memory@ =~= stored_at(before, at as int, bytes@.take(i as int)));
    }
    assert(bytes@.take(i as int) =~= bytes@);
}

/// The number in four bytes of memory, least significant first.
pub open spec fn word_at(memory: Seq<u8>, at: int) -> nat {
    le_value(memory.subrange(at, at + 4))
}

/// Read the number in four bytes of memory.
fn read_word_at(memory: &[u8], at: usize) -> (n: u32)
    requires
        at + 4 <= memory@.len(),
    ensures
        n == word_at(memory@, at as int),
{
    let size: usize = memory.len();
    assert(at + 4 <= size);
    let bytes: Vec<u8> = copy_range(memory, at, at + 4);
    assert(bytes@.take(4) =~= bytes@);
    proof {
        lemma_le_value_bound(bytes@);
        lemma_span_small();
    }
    u64_of_le(bytes.as_slice(), 4) as u32
}

/// Store a count at a guest address: nothing is stored when the place leaves
/// the memory.
pub open spec fn count_stored(memory: Seq<u8>, at: u32, count: u32) -> Option<Seq<u8>> {
    if at + 4 > memory.len() {
        None
    } else {
        Some(stored_at(memory, at as int, le(count as nat, 4)))
    }
}

/// Store a count at a guest address: whether the place exists.
fn store_count(memory: &mut [u8], at: u32, count: u32) -> (ok: bool)
    ensures
        match count_stored(old(memory)@, at, count) {
            Some(after) => ok && final(memory)@ == after,
            None => !ok && final(memory)@ == old(memory)@,
        },
{
    let dst: usize = at as usize;
    let size: usize = memory.len();
    match dst.checked_add(4) {
        None => false,
        Some(end) => {
            if end > size {
                return false;
            }
            let bytes: Vec<u8> = u32_le(count);
            proof {
                lemma_le_len(count as nat, 4);
            }
            store_bytes(memory, dst, bytes.as_slice());
            true
        },
    }
}

/// The bytes of a guest write's vectors from vector `i` on, behind those
/// gathered so far. An oversized total is an errno; a vector or buffer outside
/// the memory is a trap.
pub open spec fn gathered(
    memory: Seq<u8>,
    vectors: u32,
    i: nat,
    count: nat,
    so_far: Seq<u8>,
) -> Result<Seq<u8>, Option<u32>>
    decreases count - i,
{
    if i >= count {
        Ok(so_far)
    } else if vectors + i * 8 + 8 > memory.len() {
        Err(None)
    } else {
        let buffer = word_at(memory, (vectors + i * 8) as int);
        let len = word_at(memory, (vectors + i * 8 + 4) as int);
        if so_far.len() + len > MAX_WASI_WRITE_BYTES {
            Err(Some(WASI_ERRNO_INVAL))
        } else if buffer + len > memory.len() {
            Err(None)
        } else {
            gathered(
                memory,
                vectors,
                i + 1,
                count,
                so_far + memory.subrange(buffer as int, (buffer + len) as int),
            )
        }
    }
}

/// The bytes of a guest write: an oversized vector count is an errno.
pub open spec fn write_payload(memory: Seq<u8>, vectors: u32, count: u32) -> Result<
    Seq<u8>,
    Option<u32>,
> {
    if count > MAX_WASI_IOVECS {
        Err(Some(WASI_ERRNO_INVAL))
    } else {
        gathered(memory, vectors, 0, count as nat, Seq::empty())
    }
}

/// The gathered bytes as a value.
pub open spec fn payload_view(r: Result<Vec<u8>, Option<u32>>) -> Result<Seq<u8>, Option<u32>> {
    match r {
        Ok(bytes) => Ok(bytes@),
        Err(e) => Err(e),
    }
}

/// Validate and gather the payload of one guest write.
///
/// A cap violation reports the errno in `Err(Some(errno))`; memory out of
/// bounds is `Err(None)`.
pub fn gather_write_payload(memory: &[u8], iovs_ptr: u32, iovs_len: u32) -> (r: Result<
    Vec<u8>,
    Option<u32>,
>)
    ensures
        payload_view(r) == write_payload(memory@, iovs_ptr, iovs_len),
{
    if iovs_len > MAX_WASI_IOVECS {
        return Err(Some(WASI_ERRNO_INVAL));
    }
    let size: usize = memory.len();
    let mut collected: Vec<u8> = Vec::new();
    let mut index: u32 = 0;
    while index < iovs_len
        invariant
            size == memory@.len(),
            index <= iovs_len <= MAX_WASI_IOVECS,
            collected@.len() <= MAX_WASI_WRITE_BYTES,
            gathered(memory@, iovs_ptr, index as nat, iovs_len as nat, collected@)
                == write_payload(memory@, iovs_ptr, iovs_len),
        decreases iovs_len - index,
    {
        let offset: usize = match (iovs_ptr as usize).checked_add((index as usize) * 8) {
            None => return Err(None),
            Some(offset) => offset,
        };
        let end: usize = match offset.checked_add(8) {
            None => return Err(None),
            Some(end) => end,
        };
        if end > size {
            return Err(None);
        }
        let buffer: usize = read_word_at(memory, offset) as usize;
        let len: usize = read_word_at(memory, offset + 4) as usize;
        if len > MAX_WASI_WRITE_BYTES - collected.len() {
            return Err(Some(WASI_ERRNO_INVAL));
        }
        let stop: usize = match buffer.checked_add(len) {
            None => return Err(None),
            Some(stop) => stop,
        };
        if stop > size {
            return Err(None);
        }
        let mut bytes: Vec<u8> = copy_range(memory, buffer, stop);
        let ghost piece = bytes@;
        let ghost before = collected@;
        collected.append(&mut bytes);
        assert(collected@ =~= before + piece);
        index = index + 1;
    }
    Ok(collected)
}

/// What a guest call can touch.
#[verifier::ext_equal]
pub struct GuestState {
    pub memory: Seq<u8>,
    pub stdout: Seq<u8>,
    pub backend: BackendState,
}

/// Store a count at the end of a call that succeeded so far.
pub open spec fn call_ended(g: GuestState, at: u32, count: u32, trap: Trap) -> (
    Result<u32, Trap>,
    GuestState,
) {
    match count_stored(g.memory, at, count) {
        Some(memory) => (Ok(0), GuestState { memory, ..g }),
        None => (Err(trap), g),
    }
}

/// Write bytes to a file of the guest. A failed write is remembered as the
/// backend's journaling failure and answered with an I/O errno.
pub open spec fn file_written(g: GuestState, path: Seq<char>, bytes: Seq<u8>, script: Seq<Reply>) -> (
    Option<u32>,
    GuestState,
) {
    let (answer, after) = stored(g.backend, path, scalar(bytes) as u64, script);
    match answer {
        Ok(_) => (None, GuestState { backend: after, ..g }),
        Err(e) => (
            Some(WASI_ERRNO_IO),
            GuestState {
                backend: BackendState {
                    journal_error: if after.journal_error is None {
                        Some(e)
                    } else {
                        after.journal_error
                    },
                    ..after
                },
                ..g
            },
        ),
    }
}

/// A guest write. `path` is the file of a handle that may be written.
pub open spec fn fd_written(
    g: GuestState,
    fd: u32,
    path: Option<Seq<char>>,
    vectors: u32,
    count: u32,
    at: u32,
    script: Seq<Reply>,
) -> (Result<u32, Trap>, GuestState) {
    match write_payload(g.memory, vectors, count) {
        Err(Some(errno)) => (Ok(errno), g),
        Err(None) => (Err(Trap::WriteVector), g),
        Ok(bytes) => {
            let total = bytes.len() as u32;
            if fd == 1 {
                call_ended(
                    GuestState { stdout: g.stdout + bytes, ..g },
                    at,
                    total,
                    Trap::Written,
                )
            } else if fd == 2 {
                call_ended(g, at, total, Trap::Written)
            } else {
                match path {
                    None => (Ok(WASI_ERRNO_BADF), g),
                    Some(file) => {
                        let (errno, g1) = file_written(g, file, bytes, script);
                        match errno {
                            Some(code) => (Ok(code), g1),
                            None => call_ended(g1, at, total, Trap::Written),
                        }
                    },
                }
            }
        },
    }
}

/// Record a failed write: the errno that the guest sees.
pub fn record_write_failure<H: Host>(backend: &mut SimBackend<H>, error: FsError) -> (errno: u32)
    ensures
        errno == WASI_ERRNO_IO,
        final(backend)@ == (BackendState {
            journal_error: if old(backend)@.journal_error is None {
                Some(error.0)
            } else {
                old(backend)@.journal_error
            },
            ..old(backend)@
        }),
{
    backend.record_first_journal_error(error.into_journal());
    WASI_ERRNO_IO
}

/// The scalar held by the first eight bytes.
pub fn bytes_to_u64(bytes: &[u8]) -> (value: u64)
    ensures
        value == scalar(bytes@),
{
    let count: usize = if bytes.len() < 8 {
        bytes.len()
    } else {
        8
    };
    u64_of_le(bytes, count)
}

/// A text as a value.
pub open spec fn text_view(text: Option<&str>) -> Option<Seq<char>> {
    match text {
        Some(s) => Some(s@),
        None => None,
    }
}

/// The gathered bytes stay within the cap.
pub proof fn law_write_payload_is_bounded(memory: Seq<u8>, vectors: u32, count: u32)
    ensures
        write_payload(memory, vectors, count) matches Ok(bytes) ==> bytes.len()
            <= MAX_WASI_WRITE_BYTES,
{
    if count <= MAX_WASI_IOVECS {
        lemma_gathered_bound(memory, vectors, 0, count as nat, Seq::empty());
    }
}

proof fn lemma_gathered_bound(
    memory: Seq<u8>,
    vectors: u32,
    i: nat,
    count: nat,
    so_far: Seq<u8>,
)
    requires
        so_far.len() <= MAX_WASI_WRITE_BYTES,
    ensures
        gathered(memory, vectors, i, count, so_far) matches Ok(bytes) ==> bytes.len()
            <= MAX_WASI_WRITE_BYTES,
    decreases count - i,
{
    if i < count && vectors + i * 8 + 8 <= memory.len() {
        let buffer = word_at(memory, (vectors + i * 8) as int);
        let len = word_at(memory, (vectors + i * 8 + 4) as int);
        if so_far.len() + len <= MAX_WASI_WRITE_BYTES && buffer + len <= memory.len() {
            lemma_gathered_bound(
                memory,
                vectors,
                i + 1,
                count,
                so_far + memory.subrange(buffer as int, (buffer + len) as int),
            );
        }
    }
}

/// Serve a guest write. `path` is the file behind the handle when the handle
/// is open and may be written.
pub fn fd_write<H: Host>(
    backend: &mut SimBackend<H>,
    memory: &mut [u8],
    stdout: &mut Vec<u8>,
    fd: u32,
    path: Option<&str>,
    iovs_ptr: u32,
    iovs_len: u32,
    nwritten_ptr: u32,
) -> (r: Result<u32, Trap>)
    ensures
        extends(final(backend)@.log, old(backend)@.log),
        forall|script: Seq<Reply>|
            follows(script, final(backend)@.log) ==> #[trigger] fd_written(
                GuestState {
                    memory: old(memory)@,
                    stdout: old(stdout)@,
                    backend: old(backend)@,
                },
                fd,
                text_view(path),
                iovs_ptr,
                iovs_len,
                nwritten_ptr,
                script,
            ) == (
                r,
                GuestState {
                    memory: final(memory)@,
                    stdout: final(stdout)@,
                    backend: final(backend)@,
                },
            ),
{
    let mut collected: Vec<u8> = match gather_write_payload(&*memory, iovs_ptr, iovs_len) {
        Ok(payload) => payload,
        Err(Some(errno)) => return Ok(errno),
        Err(None) => return Err(Trap::WriteVector),
    };
    proof {
        law_write_payload_is_bounded(memory@, iovs_ptr, iovs_len);
    }
    let total: u32 = collected.len() as u32;
    if fd == 1 {
        let ghost bytes = collected@;
        let ghost before = stdout@;
        stdout.append(&mut collected);
        assert(stdout@ =~= before + bytes);
        if !store_count(memory, nwritten_ptr, total) {
            return Err(Trap::Written);
        }
        return Ok(0);
    }
    if fd == 2 {
        if !store_count(memory, nwritten_ptr, total) {
            return Err(Trap::Written);
        }
        return Ok(0);
    }
    let file: &str = match path {
        Some(file) => file,
        None => return Ok(WASI_ERRNO_BADF),
    };
    let value: u64 = bytes_to_u64(collected.as_slice());
    if let Err(error) = backend.write(file, value) {
        return Ok(record_write_failure(backend, error));
    }
    if !store_count(memory, nwritten_ptr, total) {
        return Err(Trap::Written);
    }
    Ok(0)
}

/// Why a vector of a guest read cannot be used.
pub open spec fn vector_fault(size: nat, vectors: u32, i: nat) -> Option<VectorFault> {
    if vectors + i * 8 > usize::MAX {
        Some(VectorFault::Overflow)
    } else if vectors + i * 8 + 8 > usize::MAX {
        Some(VectorFault::EndOverflow)
    } else if vectors + i * 8 + 8 > size {
        Some(VectorFault::Outside)
    } else {
        None
    }
}

/// Spread bytes over the vectors of a guest read from vector `i` on: the count
/// of stored bytes, and the memory with what was stored before a trap.
pub open spec fn scattered(
    memory: Seq<u8>,
    rest: Seq<u8>,
    vectors: u32,
    i: nat,
    count: nat,
    done: nat,
) -> (Result<nat, Trap>, Seq<u8>)
    decreases count - i,
{
    if i >= count || rest.len() == 0 {
        (Ok(done), memory)
    } else {
        match vector_fault(memory.len(), vectors, i) {
            Some(e) => (Err(Trap::ReadVector(e)), memory),
            None => {
                let buffer = word_at(memory, (vectors + i * 8) as int);
                let len = word_at(memory, (vectors + i * 8 + 4) as int);
                let n = if rest.len() < len {
                    rest.len()
                } else {
                    len
                };
                if n == 0 {
                    scattered(memory, rest, vectors, i + 1, count, done)
                } else {
                    match span_fault(memory.len(), buffer, n) {
                        Some(e) => (Err(Trap::ReadBuffer(e)), memory),
                        None => scattered(
                            stored_at(memory, buffer as int, rest.take(n as int)),
                            rest.skip(n as int),
                            vectors,
                            i + 1,
                            count,
                            done + n,
                        ),
                    }
                }
            },
        }
    }
}

/// Spread bytes over the vectors of a guest read.
fn scatter(memory: &mut [u8], bytes: &Vec<u8>, iovs_ptr: u32, iovs_len: u32) -> (r: Result<
    u32,
    Trap,
>)
    requires
        iovs_len <= MAX_WASI_IOVECS,
        bytes@.len() <= 8,
    ensures
        final(memory)@.len() == old(memory)@.len(),
        scattered(old(memory)@, bytes@, iovs_ptr, 0, iovs_len as nat, 0) == (
            match r {
                Ok(n) => Ok::<nat, Trap>(n as nat),
                Err(e) => Err(e),
            },
            final(memory)@,
        ),
{
    let size: usize = memory.len();
    let mut at: usize = 0;
    let mut index: u32 = 0;
    assert(bytes@.skip(0) =~= bytes@);
    while index < iovs_len && at < bytes.len()
        invariant
            size == memory@.len() == old(memory)@.len(),
            index <= iovs_len <= MAX_WASI_IOVECS,
            at <= bytes@.len() <= 8,
            scattered(old(memory)@, bytes@, iovs_ptr, 0, iovs_len as nat, 0) == scattered(
                memory@,
                bytes@.skip(at as int),
                iovs_ptr,
                index as nat,
                iovs_len as nat,
                at as nat,
            ),
        decreases iovs_len - index,
    {
        let ghost rest = bytes@.skip(at as int);
        let offset: usize = match (iovs_ptr as usize).checked_add((index as usize) * 8) {
            None => return Err(Trap::ReadVector(VectorFault::Overflow)),
            Some(offset) => offset,
        };
        let end: usize = match offset.checked_add(8) {
            None => return Err(Trap::ReadVector(VectorFault::EndOverflow)),
            Some(end) => end,
        };
        if end > size {
            return Err(Trap::ReadVector(VectorFault::Outside));
        }
        let buffer: usize = read_word_at(&*memory, offset) as usize;
        let len: usize = read_word_at(&*memory, offset + 4) as usize;
        let left: usize = bytes.len() - at;
        let n: usize = if left < len {
            left
        } else {
            len
        };
        if n > 0 {
            match span_end(size, buffer, n) {
                Err(e) => return Err(Trap::ReadBuffer(e)),
                Ok(_) => {},
            }
            let piece: Vec<u8> = copy_range(bytes.as_slice(), at, at + n);
            assert(piece@ =~= rest.take(n as int));
            store_bytes(memory, buffer, piece.as_slice());
            assert(rest.skip(n as int) =~= bytes@.skip(at + n));
            at = at + n;
        }
        index = index + 1;
    }
    Ok(at as u32)
}

/// The bytes of a stored value.
pub open spec fn value_bytes(value: Option<u64>) -> Seq<u8> {
    match value {
        Some(n) => le(n as nat, 8),
        None => Seq::empty(),
    }
}

/// A guest read. `path` is the file of a handle that may be read.
pub open spec fn fd_was_read(
    g: GuestState,
    path: Option<Seq<char>>,
    vectors: u32,
    count: u32,
    at: u32,
    script: Seq<Reply>,
) -> (Result<u32, Trap>, GuestState) {
    match path {
        None => (Ok(WASI_ERRNO_BADF), g),
        Some(file) => {
            let (answer, backend) = loaded(g.backend, file, script);
            let g1 = GuestState { backend, ..g };
            match answer {
                Err(e) => (Err(Trap::ReadStorage(FsError(e))), g1),
                Ok(value) => if count > MAX_WASI_IOVECS {
                    (Ok(WASI_ERRNO_INVAL), g1)
                } else {
                    let (done, memory) = scattered(
                        g.memory,
                        value_bytes(value),
                        vectors,
                        0,
                        count as nat,
                        0,
                    );
                    let g2 = GuestState { memory, ..g1 };
                    match done {
                        Err(e) => (Err(e), g2),
                        Ok(n) => call_ended(g2, at, n as u32, Trap::ReadCount),
                    }
                },
            }
        },
    }
}

/// Serve a guest read. `path` is the file behind the handle when the handle is
/// open and may be read.
pub fn fd_read<H: Host>(
    backend: &mut SimBackend<H>,
    memory: &mut [u8],
    path: Option<&str>,
    iovs_ptr: u32,
    iovs_len: u32,
    nread_ptr: u32,
) -> (r: Result<u32, Trap>)
    ensures
        extends(final(backend)@.log, old(backend)@.log),
        forall|stdout: Seq<u8>, script: Seq<Reply>|
            follows(script, final(backend)@.log) ==> #[trigger] fd_was_read(
                GuestState { memory: old(memory)@, stdout, backend: old(backend)@ },
                text_view(path),
                iovs_ptr,
                iovs_len,
                nread_ptr,
                script,
            ) == (
                r,
                GuestState { memory: final(memory)@, stdout, backend: final(backend)@ },
            ),
{
    let file: &str = match path {
        Some(file) => file,
        None => return Ok(WASI_ERRNO_BADF),
    };
    let bytes: Vec<u8> = match backend.read(file) {
        Err(error) => return Err(Trap::ReadStorage(error)),
        Ok(Some(value)) => {
            proof {
                lemma_le_len(value as nat, 8);
            }
            u64_le(value)
        },
        Ok(None) => Vec::new(),
    };
    if iovs_len > MAX_WASI_IOVECS {
        return Ok(WASI_ERRNO_INVAL);
    }
    let written: u32 = match scatter(memory, &bytes, iovs_ptr, iovs_len) {
        Err(e) => return Err(e),
        Ok(n) => n,
    };
    if !store_count(memory, nread_ptr, written) {
        return Err(Trap::ReadCount);
    }
    Ok(0)
}

/// The number of slashes a path starts with.
pub open spec fn leading_slashes(path: Seq<char>) -> nat
    decreases path.len(),
{
    if path.len() > 0 && path[0] == '/' {
        1 + leading_slashes(path.drop_first())
    } else {
        0
    }
}

/// The storage key of a guest path: the path without leading slashes, or the
/// path itself when nothing else is left.
pub open spec fn key_of(path: Seq<char>) -> Seq<char> {
    let key = path.skip(leading_slashes(path) as int);
    if key.len() == 0 {
        path
    } else {
        key
    }
}

/// The storage key of a guest path.
pub fn path_key(path: &str) -> (key: String)
    ensures
        key@ == key_of(path@),
{
    let chars: Vec<char> = chars_of(path);
    let mut at: usize = 0;
    assert(path@.skip(0) =~= path@);
    while at < chars.len() && chars[at] == '/'
        invariant
            chars@ == path@,
            at <= chars@.len(),
            at + leading_slashes(path@.skip(at as int)) == leading_slashes(path@),
        decreases chars@.len() - at,
    {
        assert(path@.skip(at as int).drop_first() =~= path@.skip(at + 1));
        at = at + 1;
    }
    if at == chars.len() {
        assert(path@.skip(at as int).len() == 0);
        assert(chars@.subrange(0, chars@.len() as int) =~= path@);
        text_of(&chars, 0, chars.len())
    } else {
        assert(path@.skip(at as int)[0] == path@[at as int]);
        assert(chars@.subrange(at as int, chars@.len() as int) =~= path@.skip(at as int));
        text_of(&chars, at, chars.len())
    }
}

/// Why a guest path cannot be used.
pub open spec fn path_fault(memory: Seq<u8>, at: u32, len: u32) -> Option<Trap> {
    match span_fault(memory.len(), at as nat, len as nat) {
        Some(e) => Some(Trap::Path(e)),
        None => if valid_utf8(memory.subrange(at as int, at + len)) {
            None
        } else {
            Some(Trap::PathText)
        },
    }
}

/// The storage key of the guest path in a stretch of memory.
pub open spec fn guest_key(memory: Seq<u8>, at: u32, len: u32) -> Seq<char> {
    key_of(decode_utf8(memory.subrange(at as int, at + len)))
}

/// Read the storage key of a guest path.
pub fn read_key(memory: &[u8], ptr: u32, len: u32) -> (r: Result<String, Trap>)
    ensures
        match r {
            Ok(key) => path_fault(memory@, ptr, len) is None && key@ == guest_key(
                memory@,
                ptr,
                len,
            ),
            Err(e) => path_fault(memory@, ptr, len) == Some(e),
        },
{
    let end: usize = match span_end(memory.len(), ptr as usize, len as usize) {
        Err(e) => return Err(Trap::Path(e)),
        Ok(end) => end,
    };
    let bytes: Vec<u8> = copy_range(memory, ptr as usize, end);
    match text_of_utf8(bytes) {
        Err(_) => Err(Trap::PathText),
        Ok(path) => Ok(path_key(path.as_str())),
    }
}

/// What a guest asks of the descriptor table when it opens a file.
#[derive(Debug)]
pub struct OpenRequest {
    /// Storage key of the file.
    pub key: String,
    /// Whether reads are granted.
    pub read: bool,
    /// Whether writes are granted.
    pub write: bool,
    /// Whether seeks are granted.
    pub seek: bool,
    /// Whether writes append.
    pub append: bool,
}

/// A bit of a word.
pub open spec fn has_bit(word: u64, bit: nat) -> bool {
    (word as nat / pow2(bit)) % 2 == 1
}

/// Whether a bit of a word is set.
fn test_bit(word: u64, bit: u32) -> (set: bool)
    requires
        bit < 64,
    ensures
        set == has_bit(word, bit as nat),
{
    proof {
        lemma_u64_shr_is_div(word, bit as u64);
        lemma_u64_pow2_no_overflow(bit as nat);
    }
    (word >> (bit as u64)) % 2 == 1
}

/// Read what a guest asks for when it opens a file: the rights are bits 1, 6
/// and 3 of the rights word, appending is bit 0 of the flags.
pub fn open_request(memory: &[u8], path_ptr: u32, path_len: u32, rights: u64, fdflags: u32) -> (r:
    Result<OpenRequest, Trap>)
    ensures
        match r {
            Ok(request) => {
                &&& path_fault(memory@, path_ptr, path_len) is None
                &&& request.key@ == guest_key(memory@, path_ptr, path_len)
                &&& request.read == has_bit(rights, 1)
                &&& request.write == has_bit(rights, 6)
                &&& request.seek == has_bit(rights, 3)
                &&& request.append == has_bit(fdflags as u64, 0)
            },
            Err(e) => path_fault(memory@, path_ptr, path_len) == Some(e),
        },
{
    match read_key(memory, path_ptr, path_len) {
        Err(e) => Err(e),
        Ok(key) => Ok(
            OpenRequest {
                key,
                read: test_bit(rights, 1),
                write: test_bit(rights, 6),
                seek: test_bit(rights, 3),
                append: test_bit(fdflags as u64, 0),
            },
        ),
    }
}

/// Answer a guest that opened a file: the descriptor is stored, or the errno
/// of a refused open is returned.
pub fn open_reply(memory: &mut [u8], opened: Option<u32>, opened_fd_ptr: u32) -> (r: Result<
    u32,
    Trap,
>)
    ensures
        match opened {
            None => r == Ok::<u32, Trap>(WASI_ERRNO_TABLE) && final(memory)@ == old(memory)@,
            Some(fd) => match count_stored(old(memory)@, opened_fd_ptr, fd) {
                Some(after) => r == Ok::<u32, Trap>(0) && final(memory)@ == after,
                None => r == Err::<u32, Trap>(Trap::OpenedFd) && final(memory)@ == old(memory)@,
            },
        },
{
    match opened {
        None => Ok(WASI_ERRNO_TABLE),
        Some(fd) => {
            if !store_count(memory, opened_fd_ptr, fd) {
                return Err(Trap::OpenedFd);
            }
            Ok(0)
        },
    }
}

/// Answer a guest that closed a descriptor: stdio and open descriptors close.
pub fn close_reply(removed: bool, fd: u32) -> (errno: u32)
    ensures
        errno == if removed || fd <= 2 {
            0u32
        } else {
            WASI_ERRNO_BADF
        },
{
    if removed || fd == 0 || fd == 1 || fd == 2 {
        0
    } else {
        WASI_ERRNO_BADF
    }
}

/// A status call on an open descriptor fills 64 bytes with zeros.
pub open spec fn status_given(memory: Seq<u8>, is_open: bool, at: u32) -> (
    Result<u32, Trap>,
    Seq<u8>,
) {
    if !is_open {
        (Ok(WASI_ERRNO_BADF), memory)
    } else {
        match span_fault(memory.len(), at as nat, 64) {
            Some(e) => (Err(Trap::Status(e)), memory),
            None => (Ok(0), stored_at(memory, at as int, Seq::new(64, |i: int| 0u8))),
        }
    }
}

/// Serve a status call.
pub fn fd_filestat_get(memory: &mut [u8], is_open: bool, buf_ptr: u32) -> (r: Result<u32, Trap>)
    ensures
        (r, final(memory)@) == status_given(old(memory)@, is_open, buf_ptr),
{
    if !is_open {
        return Ok(WASI_ERRNO_BADF);
    }
    match span_end(memory.len(), buf_ptr as usize, 64) {
        Err(e) => return Err(Trap::Status(e)),
        Ok(_) => {},
    }
    let zeros: [u8; 64] = [0;64];
    assert(zeros@ =~= Seq::new(64, |i: int| 0u8));
    store_bytes(memory, buf_ptr as usize, &zeros);
    Ok(0)
}

/// Serve a log call: the text is added to the output.
pub fn ledger_log(memory: &[u8], ptr: u32, len: u32, output: &mut Vec<u8>) -> (r: Result<(), Trap>)
    ensures
        match span_fault(memory@.len(), ptr as nat, len as nat) {
            None => r is Ok && final(output)@ == old(output)@ + memory@.subrange(
                ptr as int,
                ptr + len,
            ),
            Some(e) => r == Err::<(), Trap>(Trap::Log(e)) && final(output)@ == old(output)@,
        },
{
    let end: usize = match span_end(memory.len(), ptr as usize, len as usize) {
        Err(e) => return Err(Trap::Log(e)),
        Ok(end) => end,
    };
    let mut bytes: Vec<u8> = copy_range(memory, ptr as usize, end);
    let ghost text = bytes@;
    output.append(&mut bytes);
    assert(output@ =~= old(output)@ + text);
    Ok(())
}

/// The message that a guest sends, before the entry of the send is known.
pub open spec fn guest_message(
    actor: ActorId,
    peer: u32,
    payload: u64,
    now: u64,
    send_id: EntryHash,
) -> Envelope {
    Envelope {
        from: actor.0 as usize,
        to: peer as usize,
        content: le(payload as nat, 8),
        send_id,
        message_id: MessageId { actor, sequence: 0 },
        deliver_at: now,
    }
}

/// A send of a guest: 0 when the network took the message, 1 when not. The
/// placeholder for the entry of the send does not matter.
pub open spec fn guest_sent(
    s: BackendState,
    peer: u32,
    payload: u64,
    blank: EntryHash,
    script: Seq<Reply>,
) -> (i32, BackendState) {
    let (now, s1) = clock_glanced(s, script);
    let ((queued, _), s2) = dispatched(
        s1,
        guest_message(s.actor, peer, payload, now, blank),
        script,
    );
    (
        if queued {
            0
        } else {
            1
        },
        s2,
    )
}

/// Serve a send of a guest.
pub fn ledger_send<H: Host>(backend: &mut SimBackend<H>, peer: u32, payload: u64) -> (code: i32)
    ensures
        extends(final(backend)@.log, old(backend)@.log),
        forall|blank: EntryHash, script: Seq<Reply>|
            follows(script, final(backend)@.log) ==> #[trigger] guest_sent(
                old(backend)@,
                peer,
                payload,
                blank,
                script,
            ) == (code, final(backend)@),
{
    let actor: ActorId = backend.actor();
    let now: u64 = backend.clock();
    let message = Message {
        from: actor.0 as usize,
        to: peer as usize,
        content: u64_le(payload),
        send_id: EntryHash([0;32]),
        message_id: MessageId::new(actor, 0),
        deliver_at: now,
    };
    let ghost envelope = message@;
    let ghost at_hand = backend@;
    let queued: bool = backend.send(message);
    proof {
        assert forall|blank: EntryHash, script: Seq<Reply>|
            follows(script, backend@.log) implies #[trigger] guest_sent(
            old(backend)@,
            peer,
            payload,
            blank,
            script,
        ) == (
            (if queued {
                0i32
            } else {
                1i32
            }),
            backend@,
        ) by {
            let other = guest_message(actor, peer, payload, now, blank);
            assert(other == (Envelope { send_id: blank, ..envelope }));
            assert(frame_payload(other) == frame_payload(envelope));
            assert(dispatched(at_hand, other, script) == dispatched(at_hand, envelope, script));
        }
    }
    if queued {
        0
    } else {
        1
    }
}

/// A receive of a guest: the payload as a signed word, or -1 with nothing due.
pub open spec fn guest_received(s: BackendState, peer: u32, script: Seq<Reply>) -> (
    i64,
    BackendState,
) {
    let (now, s1) = clock_glanced(s, script);
    let (message, s2) = accepted(s1, peer as usize, now, script);
    (
        match message {
            Some(m) => (scalar(m.content) as u64) as i64,
            None => (-1) as i64,
        },
        s2,
    )
}

/// Serve a receive of a guest.
pub fn ledger_recv<H: Host>(backend: &mut SimBackend<H>, peer: u32) -> (code: i64)
    ensures
        extends(final(backend)@.log, old(backend)@.log),
        forall|script: Seq<Reply>|
            follows(script, final(backend)@.log) ==> #[trigger] guest_received(
                old(backend)@,
                peer,
                script,
            ) == (code, final(backend)@),
{
    let now: u64 = backend.clock();
    match backend.recv(peer as usize, now) {
        Some(message) => {
            let value: u64 = message.payload();
            #[verifier::truncate]
            (value as i64)
        },
        None => -1,
    }
}

/// A write of a guest to a key: 0 on success, 1 when the path or storage
/// fails.
pub open spec fn guest_stored(
    s: BackendState,
    memory: Seq<u8>,
    ptr: u32,
    len: u32,
    value: u64,
    script: Seq<Reply>,
) -> (u32, BackendState) {
    if path_fault(memory, ptr, len) is Some {
        (1, s)
    } else {
        let (answer, s1) = stored(s, guest_key(memory, ptr, len), value, script);
        (
            if answer is Ok {
                0
            } else {
                1
            },
            s1,
        )
    }
}

/// Serve a write of a guest to a key.
pub fn ledger_fs_write<H: Host>(
    backend: &mut SimBackend<H>,
    memory: &[u8],
    ptr: u32,
    len: u32,
    value: u64,
) -> (code: u32)
    ensures
        extends(final(backend)@.log, old(backend)@.log),
        forall|script: Seq<Reply>|
            follows(script, final(backend)@.log) ==> #[trigger] guest_stored(
                old(backend)@,
                memory@,
                ptr,
                len,
                value,
                script,
            ) == (code, final(backend)@),
{
    match read_key(memory, ptr, len) {
        Err(_) => 1,
        Ok(key) => match backend.write(key.as_str(), value) {
            Ok(_) => 0,
            Err(_) => 1,
        },
    }
}

/// A read of a guest from a key: the value as a signed word, -1 for a key
/// without value, -2 when the path or storage fails.
pub open spec fn guest_loaded(
    s: BackendState,
    memory: Seq<u8>,
    ptr: u32,
    len: u32,
    script: Seq<Reply>,
) -> (i64, BackendState) {
    if path_fault(memory, ptr, len) is Some {
        ((-2) as i64, s)
    } else {
        let (answer, s1) = loaded(s, guest_key(memory, ptr, len), script);
        (
            match answer {
                Ok(Some(value)) => value as i64,
                Ok(None) => (-1) as i64,
                Err(_) => (-2) as i64,
            },
            s1,
        )
    }
}

/// Serve a read of a guest from a key.
pub fn ledger_fs_read<H: Host>(
    backend: &mut SimBackend<H>,
    memory: &[u8],
    ptr: u32,
    len: u32,
) -> (code: i64)
    ensures
        extends(final(backend)@.log, old(backend)@.log),
        forall|script: Seq<Reply>|
            follows(script, final(backend)@.log) ==> #[trigger] guest_loaded(
                old(backend)@,
                memory@,
                ptr,
                len,
                script,
            ) == (code, final(backend)@),
{
    match read_key(memory, ptr, len) {
        Err(_) => -2,
        Ok(key) => match backend.read(key.as_str()) {
            Ok(Some(value)) => {
                #[verifier::truncate]
                (value as i64)
            },
            Ok(None) => -1,
            Err(_) => -2,
        },
    }
}

/// The source of guest randomness: one word per byte.
#[derive(Debug, Clone, Copy)]
pub struct WasiRandom {
    /// Seed of the generator.
    pub seed: [u8; 32],
    /// Words drawn so far.
    pub drawn: u64,
}

/// The next `n` bytes of a generator.
pub open spec fn random_bytes(random: WasiRandom, n: nat) -> Seq<u8> {
    Seq::new(
        n,
        |i: int| #[verifier::truncate] (chacha20_half(
            random.seed@,
            (random.drawn + i) as u128,
        ) as u8),
    )
}

/// A randomness request: it is journaled with its length, then the buffer is
/// filled. A buffer that cannot be used leaves the generator alone.
pub open spec fn randomness_given(
    g: GuestState,
    random: WasiRandom,
    at: u32,
    len: u32,
    script: Seq<Reply>,
) -> (Result<u32, Trap>, GuestState, WasiRandom) {
    let backend = entered(
        g.backend,
        Seq::empty(),
        Payload::RngDraw {
            stream: StreamId(WASI_RANDOM_STREAM),
            draw_index: 0,
            content: le(len as nat, 8),
        },
        script,
    ).1;
    let g1 = GuestState { backend, ..g };
    match span_fault(g.memory.len(), at as nat, len as nat) {
        Some(e) => (Err(Trap::Random(e)), g1, random),
        None => (
            Ok(0),
            GuestState {
                memory: stored_at(g.memory, at as int, random_bytes(random, len as nat)),
                ..g1
            },
            WasiRandom { drawn: (random.drawn + len) as u64, ..random },
        ),
    }
}

/// Serve a randomness request.
pub fn random_get<H: Host>(
    backend: &mut SimBackend<H>,
    memory: &mut [u8],
    random: &mut WasiRandom,
    buf: u32,
    len: u32,
) -> (r: Result<u32, Trap>)
    requires
        old(random).drawn + len <= u64::MAX,
    ensures
        extends(final(backend)@.log, old(backend)@.log),
        forall|stdout: Seq<u8>, script: Seq<Reply>|
            follows(script, final(backend)@.log) ==> #[trigger] randomness_given(
                GuestState { memory: old(memory)@, stdout, backend: old(backend)@ },
                *old(random),
                buf,
                len,
                script,
            ) == (
                r,
                GuestState { memory: final(memory)@, stdout, backend: final(backend)@ },
                *final(random),
            ),
{
    let payload = EntryPayload::RngDraw {
        stream: StreamId(WASI_RANDOM_STREAM),
        draw_index: 0,
        content: u64_le(len as u64),
    };
    assert(payload@ == Payload::RngDraw {
        stream: StreamId(WASI_RANDOM_STREAM),
        draw_index: 0,
        content: le(len as nat, 8),
    });
    let _ = backend.journal_append(Vec::new(), payload);
    match span_end(memory.len(), buf as usize, len as usize) {
        Err(e) => return Err(Trap::Random(e)),
        Ok(_) => {},
    }
    let mut bytes: Vec<u8> = Vec::new();
    let mut i: u32 = 0;
    while i < len
        invariant
            i <= len,
            random.drawn + len <= u64::MAX,
            *random == *old(random),
            bytes@ == random_bytes(*random, i as nat),
        decreases len - i,
    {
        let word: u32 = chacha20_u32(&random.seed, random.drawn as u128 + i as u128);
        bytes.push(
            #[verifier::truncate]
            (word as u8),
        );
        i = i + 1;
        assert(bytes@ =~= random_bytes(*random, i as nat));
    }
    store_bytes(memory, buf as usize, bytes.as_slice());
    random.drawn = random.drawn + len as u64;
    Ok(0)
}

/// A clock reading of a guest: the published time is journaled and scaled to
/// nanoseconds.
pub fn guest_clock<H: Host>(backend: &mut SimBackend<H>, ticks: u64) -> (nanos: u64)
    requires
        ticks * NS_PER_TICK <= u64::MAX,
    ensures
        nanos == ticks * NS_PER_TICK,
        extends(final(backend)@.log, old(backend)@.log),
        forall|script: Seq<Reply>|
            follows(script, final(backend)@.log) ==> (#[trigger] entered(
                old(backend)@,
                Seq::empty(),
                Payload::ClockRead { ticks },
                script,
            )).1 == final(backend)@,
{
    let payload = EntryPayload::ClockRead { ticks };
    assert(payload@ == Payload::ClockRead { ticks });
    let _ = backend.journal_append(Vec::new(), payload);
    ticks * NS_PER_TICK
}

/// What a trap tells the guest's operator. The text of a storage failure is
/// followed by the journal's own words.
pub open spec fn trap_text(trap: Trap) -> Seq<char> {
    match trap {
        Trap::Log(SpanFault::Overflow) => "ledger_log length overflow"@,
        Trap::Log(SpanFault::Outside) => "ledger_log read out of bounds"@,
        Trap::Random(SpanFault::Overflow) => "random_get length overflow"@,
        Trap::Random(SpanFault::Outside) => "random_get buffer out of bounds"@,
        Trap::Path(SpanFault::Overflow) => "path_open length overflow"@,
        Trap::Path(SpanFault::Outside) => "path_open read out of bounds"@,
        Trap::PathText => "path_open path not utf8"@,
        Trap::OpenedFd => "path_open opened_fd out of bounds"@,
        Trap::WriteVector => "fd_write iovec out of bounds"@,
        Trap::Written => "fd_write nwritten out of bounds"@,
        Trap::ReadStorage(_) => "fs read"@,
        Trap::ReadVector(VectorFault::Overflow) => "fd_read iov overflow"@,
        Trap::ReadVector(VectorFault::EndOverflow) => "fd_read iov end overflow"@,
        Trap::ReadVector(VectorFault::Outside) => "fd_read iov out of bounds"@,
        Trap::ReadBuffer(SpanFault::Overflow) => "fd_read buf overflow"@,
        Trap::ReadBuffer(SpanFault::Outside) => "fd_read buf out of bounds"@,
        Trap::ReadCount => "fd_read nread out of bounds"@,
        Trap::Status(SpanFault::Overflow) => "filestat overflow"@,
        Trap::Status(SpanFault::Outside) => "filestat out of bounds"@,
    }
}

impl Trap {
    /// What the trap tells the guest's operator.
    pub fn message(&self) -> (text: &'static str)
        ensures
            text@ == trap_text(*self),
    {
        match *self {
            Trap::Log(SpanFault::Overflow) => "ledger_log length overflow",
            Trap::Log(SpanFault::Outside) => "ledger_log read out of bounds",
            Trap::Random(SpanFault::Overflow) => "random_get length overflow",
            Trap::Random(SpanFault::Outside) => "random_get buffer out of bounds",
            Trap::Path(SpanFault::Overflow) => "path_open length overflow",
            Trap::Path(SpanFault::Outside) => "path_open read out of bounds",
            Trap::PathText => "path_open path not utf8",
            Trap::OpenedFd => "path_open opened_fd out of bounds",
            Trap::WriteVector => "fd_write iovec out of bounds",
            Trap::Written => "fd_write nwritten out of bounds",
            Trap::ReadStorage(_) => "fs read",
            Trap::ReadVector(VectorFault::Overflow) => "fd_read iov overflow",
            Trap::ReadVector(VectorFault::EndOverflow) => "fd_read iov end overflow",
            Trap::ReadVector(VectorFault::Outside) => "fd_read iov out of bounds",
            Trap::ReadBuffer(SpanFault::Overflow) => "fd_read buf overflow",
            Trap::ReadBuffer(SpanFault::Outside) => "fd_read buf out of bounds",
            Trap::ReadCount => "fd_read nread out of bounds",
            Trap::Status(SpanFault::Overflow) => "filestat overflow",
            Trap::Status(SpanFault::Outside) => "filestat out of bounds",
        }
    }
}

/// Guests of one store by name, with the guest that unnamed calls go to.
#[derive(Debug)]
pub struct Roster {
    guests: Vec<(String, u64)>,
    primary: Option<u64>,
}

/// The mathematical content of a [`Roster`].
#[verifier::ext_equal]
pub struct RosterState {
    pub guests: Map<Seq<char>, u64>,
    pub primary: Option<u64>,
}

/// Guests by name; a later entry of a name replaces an earlier one.
pub open spec fn named(guests: Seq<(String, u64)>) -> Map<Seq<char>, u64>
    decreases guests.len(),
{
    if guests.len() == 0 {
        Map::empty()
    } else {
        named(guests.drop_last()).insert(guests.last().0@, guests.last().1)
    }
}

impl View for Roster {
    type V = RosterState;

    closed spec fn view(&self) -> RosterState {
        RosterState { guests: named(self.guests@), primary: self.primary }
    }
}

/// A guest was loaded under a name: the name `main`, and the first guest of
/// all, also serve unnamed calls.
pub open spec fn enrolled(before: RosterState, name: Seq<char>, guest: u64) -> RosterState {
    RosterState {
        guests: before.guests.insert(name, guest),
        primary: if name == "main"@ || before.primary is None {
            Some(guest)
        } else {
            before.primary
        },
    }
}

/// The guest that a call goes to.
pub open spec fn resolved(roster: RosterState, name: Seq<char>) -> Option<u64> {
    if roster.guests.contains_key(name) {
        Some(roster.guests[name])
    } else if name == "main"@ {
        roster.primary
    } else {
        None
    }
}

impl Roster {
    /// A roster without guests.
    pub fn new() -> (roster: Roster)
        ensures
            roster@ == (RosterState { guests: Map::empty(), primary: None }),
    {
        let roster = Roster { guests: Vec::new(), primary: None };
        assert(named(roster.guests@) =~= Map::<Seq<char>, u64>::empty());
        roster
    }

    /// Load a guest under a name.
    pub fn enroll(&mut self, name: &str, guest: u64)
        ensures
            final(self)@ == enrolled(old(self)@, name@, guest),
    {
        if same_text(name, "main") || self.primary.is_none() {
            self.primary = Some(guest);
        }
        self.guests.push((name.to_owned(), guest));
        assert(self.guests@.drop_last() =~= old(self).guests@);
        assert(self@ =~= enrolled(old(self)@, name@, guest));
    }

    /// The guest that a call to a name goes to.
    pub fn resolve(&self, name: &str) -> (guest: Option<u64>)
        ensures
            guest == resolved(self@, name@),
    {
        let mut i: usize = self.guests.len();
        assert(self.guests@.take(i as int) =~= self.guests@);
        while i > 0
            invariant
                i <= self.guests@.len(),
                named(self.guests@.take(i as int)).contains_key(name@) == named(
                    self.guests@,
                ).contains_key(name@),
                named(self.guests@.take(i as int)).contains_key(name@) ==> named(
                    self.guests@.take(i as int),
                )[name@] == named(self.guests@)[name@],
            decreases i,
        {
            assert(self.guests@.take(i as int).drop_last() =~= self.guests@.take(i - 1));
            assert(self.guests@.take(i as int).last() == self.guests@[i - 1]);
            if same_text(self.guests[i - 1].0.as_str(), name) {
                return Some(self.guests[i - 1].1);
            }
            i = i - 1;
        }
        if same_text(name, "main") {
            self.primary
        } else {
            None
        }
    }
}

/// A write to a handle that is closed or lacks the right touches nothing.
pub proof fn law_revoked_handle_writes_nothing(
    g: GuestState,
    fd: u32,
    vectors: u32,
    count: u32,
    at: u32,
    script: Seq<Reply>,
)
    requires
        fd != 1,
        fd != 2,
    ensures
        fd_written(g, fd, None, vectors, count, at, script).1 == g,
        write_payload(g.memory, vectors, count) is Ok ==> fd_written(
            g,
            fd,
            None,
            vectors,
            count,
            at,
            script,
        ).0 == Ok::<u32, Trap>(WASI_ERRNO_BADF),
{
}

/// A vector count over the cap is answered with an errno before anything is
/// touched.
pub proof fn law_oversized_write_is_refused(
    g: GuestState,
    fd: u32,
    path: Option<Seq<char>>,
    vectors: u32,
    count: u32,
    at: u32,
    script: Seq<Reply>,
)
    requires
        count > MAX_WASI_IOVECS,
    ensures
        fd_written(g, fd, path, vectors, count, at, script) == (
            Ok::<u32, Trap>(WASI_ERRNO_INVAL),
            g,
        ),
{
}

/// A failed write is never silent: the guest gets an I/O errno, the failure is
/// on record, and an earlier failure stays the recorded one.
pub proof fn law_failed_write_is_never_silent(
    g: GuestState,
    fd: u32,
    path: Seq<char>,
    vectors: u32,
    count: u32,
    at: u32,
    script: Seq<Reply>,
)
    requires
        fd != 1,
        fd != 2,
        write_payload(g.memory, vectors, count) is Ok,
        script[g.backend.log.len() as int]->Appended_0 is Err,
    ensures
        ({
            let (r, after) = fd_written(g, fd, Some(path), vectors, count, at, script);
            &&& r == Ok::<u32, Trap>(WASI_ERRNO_IO)
            &&& after.backend.journal_error is Some
            &&& g.backend.journal_error is Some ==> after.backend.journal_error
                == g.backend.journal_error
            &&& after.memory == g.memory
        }),
{
}

/// A storage key starts with a slash only when the path has nothing else.
pub proof fn law_key_has_no_leading_slash(path: Seq<char>)
    ensures
        leading_slashes(path) <= path.len(),
        key_of(path).len() > 0 && key_of(path)[0] == '/' ==> leading_slashes(path) == path.len(),
    decreases path.len(),
{
    lemma_slashes_end(path);
}

proof fn lemma_slashes_end(path: Seq<char>)
    ensures
        leading_slashes(path) <= path.len(),
        leading_slashes(path) < path.len() ==> path[leading_slashes(path) as int] != '/',
    decreases path.len(),
{
    if path.len() > 0 && path[0] == '/' {
        lemma_slashes_end(path.drop_first());
    }
}

/// A loaded guest is the one that calls to its name go to, and other names go
/// where they went, but for unnamed calls that had no guest.
pub proof fn law_loaded_guest_is_called(
    roster: RosterState,
    name: Seq<char>,
    guest: u64,
    other: Seq<char>,
)
    ensures
        resolved(enrolled(roster, name, guest), name) == Some(guest),
        other != name && resolved(roster, other) is Some ==> resolved(
            enrolled(roster, name, guest),
            other,
        ) == resolved(roster, other),
{
}

} // verus!
