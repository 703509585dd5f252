//! What a guest call does with the guest's memory and with the backend.

use crate::backend_deed_laws::{law_backend_send_joins_the_queue, own_entry};
use crate::backend_sim::{accepted, clock_glanced, BackendState};
use crate::bytes::{le, le_value};
use crate::deeds::{deeds, eight, law_words_are_eight_bytes};
use crate::effects::FsError;
use crate::host::{Ask, Reply};
use crate::ids::{ActorId, EntryHash, MessageId, StreamId};
use crate::journal::Payload;
use crate::net::{scalar, Envelope, NetState};
use crate::net_laws::link_is_full;
use crate::origin::OriginSource;
use crate::stream::chacha20_half;
use crate::wasi::{
    count_stored, enrolled, fd_was_read, fd_written, gathered, guest_key, guest_loaded,
    guest_received, guest_sent, guest_stored, has_bit, key_of, leading_slashes, path_fault,
    randomness_given, resolved, scattered, span_fault, status_given, stored_at, value_bytes,
    vector_fault, word_at, write_payload, GuestState, MAX_WASI_IOVECS, MAX_WASI_WRITE_BYTES,
    NS_PER_TICK, RosterState, SpanFault, Trap, WASI_ERRNO_BADF, WASI_ERRNO_INVAL, WASI_ERRNO_IO,
    WASI_ERRNO_TABLE, WASI_RANDOM_STREAM, WasiRandom,
};
use vstd::arithmetic::power2::{lemma_pow2_pos, pow2};
use vstd::prelude::*;
use vstd::utf8::{encode_utf8, encode_utf8_decode_utf8, encode_utf8_valid_utf8, valid_utf8};

verus! {

broadcast use crate::deeds::lemma_deeds;

/// The numbers of the guest interface.
pub proof fn law_guest_interface_numbers()
    ensures
        NS_PER_TICK == 1_000,
        WASI_RANDOM_STREAM == 0xF000,
        MAX_WASI_IOVECS == 4_096,
        MAX_WASI_WRITE_BYTES == 16 * 1_024 * 1_024,
        WASI_ERRNO_BADF == 8,
        WASI_ERRNO_TABLE == 24,
        WASI_ERRNO_INVAL == 28,
        WASI_ERRNO_IO == 29,
{
}

/// The byte at a place, or zero past the end.
pub open spec fn padded(bytes: Seq<u8>, i: int) -> nat {
    if 0 <= i < bytes.len() {
        bytes[i] as nat
    } else {
        0
    }
}

/// The number in the four bytes at a place, the least significant first.
pub open spec fn number(memory: Seq<u8>, at: int) -> nat {
    padded(memory, at) + 0x100 * padded(memory, at + 1) + 0x1_0000 * padded(memory, at + 2)
        + 0x100_0000 * padded(memory, at + 3)
}

/// The number in the first eight bytes, the least significant first; missing
/// bytes count as zero.
pub open spec fn leading_number(bytes: Seq<u8>) -> nat {
    number(bytes, 0) + 0x1_0000_0000 * number(bytes, 4)
}

proof fn lemma_number(memory: Seq<u8>, at: int)
    requires
        0 <= at,
        at + 4 <= memory.len(),
    ensures
        word_at(memory, at) == number(memory, at),
{
    reveal_with_fuel(le_value, 5);
    let s = memory.subrange(at, at + 4);
    let s1 = s.drop_first();
    let s2 = s1.drop_first();
    let s3 = s2.drop_first();
    assert(s3.drop_first().len() == 0);
    assert(le_value(s3) == s3[0] as nat);
    assert(le_value(s2) == s2[0] as nat + 256 * le_value(s3));
    assert(le_value(s1) == s1[0] as nat + 256 * le_value(s2));
    assert(le_value(s) == s[0] as nat + 256 * le_value(s1));
}

proof fn lemma_value_padded(s: Seq<u8>)
    ensures
        le_value(s.push(0)) == le_value(s),
    decreases s.len(),
{
    if s.len() == 0 {
        assert(s.push(0).drop_first() =~= Seq::<u8>::empty());
        assert(le_value(s.push(0)) == 0 + 256 * le_value(s.push(0).drop_first()));
    } else {
        assert(s.push(0).drop_first() =~= s.drop_first().push(0));
        lemma_value_padded(s.drop_first());
    }
}

proof fn lemma_leading_number(s: Seq<u8>)
    requires
        s.len() <= 8,
    ensures
        le_value(s) == leading_number(s),
    decreases 8 - s.len(),
{
    if s.len() < 8 {
        lemma_value_padded(s);
        lemma_leading_number(s.push(0));
        assert forall|i: int| #[trigger] padded(s.push(0), i) == padded(s, i) by {}
    } else {
        let low = s.subrange(0, 4);
        let high = s.subrange(4, 8);
        lemma_number(s, 0);
        lemma_number(s, 4);
        let s1 = s.drop_first();
        let s2 = s1.drop_first();
        let s3 = s2.drop_first();
        let s4 = s3.drop_first();
        assert(s4 =~= high);
        assert(le_value(s) == s[0] as nat + 256 * (s1[0] as nat + 256 * (s2[0] as nat + 256 * (
        s3[0] as nat + 256 * le_value(s4))))) by {
            reveal_with_fuel(le_value, 5);
        }
    }
}

/// The scalar of a message or of a write is the number in its first eight bytes.
pub proof fn law_scalar_is_the_leading_number(content: Seq<u8>)
    ensures
        scalar(content) == leading_number(content),
        leading_number(content) < 0x1_0000_0000_0000_0000,
{
    let head = content.take(if content.len() < 8 { content.len() as int } else { 8 });
    lemma_leading_number(head);
    assert forall|i: int| 0 <= i < 8 implies #[trigger] padded(head, i) == padded(content, i) by {}
}

/// The bytes at a place became those given, and every other byte is as before.
pub open spec fn overwritten(before: Seq<u8>, after: Seq<u8>, at: int, bytes: Seq<u8>) -> bool {
    &&& after.len() == before.len()
    &&& forall|k: int|
        0 <= k < after.len() ==> #[trigger] after[k] == if at <= k < at + bytes.len() {
            bytes[k - at]
        } else {
            before[k]
        }
}

/// The number in four bytes, the least significant first.
pub open spec fn four(v: u32) -> Seq<u8> {
    seq![
        (v % 0x100) as u8,
        (v / 0x100 % 0x100) as u8,
        (v / 0x1_0000 % 0x100) as u8,
        (v / 0x100_0000) as u8,
    ]
}

proof fn lemma_four(v: u32)
    ensures
        le(v as nat, 4) == four(v),
{
    reveal_with_fuel(le, 5);
    let n = v as nat;
    assert(n / 256 / 256 == n / 0x1_0000);
    assert(n / 0x1_0000 / 256 == n / 0x100_0000);
    assert(n / 0x100_0000 < 256);
    assert(le(n, 4) =~= four(v));
}

/// A count is stored in the four bytes at its place, or nothing is where the
/// place leaves the memory.
pub proof fn law_count_is_stored_at_its_place(memory: Seq<u8>, at: u32, count: u32)
    ensures
        match count_stored(memory, at, count) {
            Some(after) => at + 4 <= memory.len() && overwritten(
                memory,
                after,
                at as int,
                four(count),
            ),
            None => at + 4 > memory.len(),
        },
{
    lemma_four(count);
}

/// A stretch of memory can be used exactly when it ends inside the memory; an
/// end past the address range is told apart.
pub proof fn law_stretch_ends_inside_the_memory(size: nat, start: nat, len: nat)
    ensures
        span_fault(size, start, len) is None <==> start + len <= size && start + len <= usize::MAX,
        span_fault(size, start, len) == Some(SpanFault::Overflow) <==> start + len > usize::MAX,
{
}

proof fn lemma_gathered_step(memory: Seq<u8>, vectors: u32, i: nat, count: nat, so_far: Seq<u8>)
    requires
        i <= count,
    ensures
        ({
            let less = gathered(memory, vectors, i, count, so_far);
            let more = gathered(memory, vectors, i, count + 1, so_far);
            match less {
                Err(e) => more == less,
                Ok(bytes) => more == gathered(memory, vectors, count, count + 1, bytes),
            }
        }),
    decreases count - i,
{
    if i < count && vectors + i * 8 + 8 <= memory.len() {
        let buffer = word_at(memory, (vectors + i * 8) as int);
        let len = word_at(memory, (vectors + i * 8 + 4) as int);
        if so_far.len() + len <= MAX_WASI_WRITE_BYTES && buffer + len <= memory.len() {
            lemma_gathered_step(
                memory,
                vectors,
                i + 1,
                count,
                so_far + memory.subrange(buffer as int, (buffer + len) as int),
            );
        }
    }
}

/// The payload of a write is what its vectors name, one after the other. No
/// vectors are no bytes. One more vector adds the bytes that it names; it makes
/// the payload an error where the vector or its buffer leaves the memory, and an
/// invalid argument where the total is over the cap. An error stays, and so is
/// a count of vectors over the cap.
pub proof fn law_write_gathers_its_vectors(memory: Seq<u8>, vectors: u32, count: u32)
    requires
        count < u32::MAX,
    ensures
        write_payload(memory, vectors, 0) == Ok::<Seq<u8>, Option<u32>>(Seq::empty()),
        ({
            let more = write_payload(memory, vectors, (count + 1) as u32);
            let place = vectors + count * 8;
            let buffer = number(memory, place);
            let len = number(memory, place + 4);
            if count + 1 > 4_096 {
                more == Err::<Seq<u8>, Option<u32>>(Some(28))
            } else {
                match write_payload(memory, vectors, count) {
                    Err(e) => more == Err::<Seq<u8>, Option<u32>>(e),
                    Ok(bytes) => if place + 8 > memory.len() {
                        more == Err::<Seq<u8>, Option<u32>>(None)
                    } else if bytes.len() + len > 16_777_216 {
                        more == Err::<Seq<u8>, Option<u32>>(Some(28))
                    } else if buffer + len > memory.len() {
                        more == Err::<Seq<u8>, Option<u32>>(None)
                    } else {
                        more == Ok::<Seq<u8>, Option<u32>>(
                            bytes + memory.subrange(buffer as int, (buffer + len) as int),
                        )
                    },
                }
            }
        }),
{
    if count + 1 <= 4_096 {
        lemma_gathered_step(memory, vectors, 0, count as nat, Seq::empty());
        if vectors + count * 8 + 8 <= memory.len() {
            lemma_number(memory, vectors + count * 8);
            lemma_number(memory, vectors + count * 8 + 4);
        }
        reveal_with_fuel(gathered, 3);
    }
}

/// A write of bytes that can be gathered goes to the standard output, to the
/// standard error, which keeps nothing, or to the file of its handle, which
/// holds the number in the first eight bytes. The count of bytes is stored where
/// the guest asked; a count that leaves the memory traps. A handle without a
/// file that may be written gives an errno and nothing else.
pub proof fn law_write_reaches_its_handle(
    g: GuestState,
    fd: u32,
    path: Option<Seq<char>>,
    vectors: u32,
    count: u32,
    at: u32,
    script: Seq<Reply>,
)
    requires
        write_payload(g.memory, vectors, count) is Ok,
    ensures
        ({
            let bytes = write_payload(g.memory, vectors, count)->Ok_0;
            let (r, after) = fd_written(g, fd, path, vectors, count, at, script);
            let stores = fd != 1 && fd != 2 && path is Some;
            let reply = script[g.backend.log.len() as int]->Appended_0;
            let counted = fd == 1 || fd == 2 || (path is Some && reply is Ok);
            &&& after.stdout == if fd == 1 {
                g.stdout + bytes
            } else {
                g.stdout
            }
            &&& deeds(after.backend.log) == if stores {
                deeds(g.backend.log).push(
                    Ask::FsWrite {
                        actor: g.backend.actor,
                        path: path->Some_0,
                        value: leading_number(bytes) as u64,
                    },
                )
            } else {
                deeds(g.backend.log)
            }
            &&& !stores ==> after.backend == g.backend
            &&& if !counted {
                &&& after.memory == g.memory
                &&& r == Ok::<u32, Trap>(
                    if path is None {
                        8
                    } else {
                        29
                    },
                )
            } else if at + 4 <= g.memory.len() {
                &&& r == Ok::<u32, Trap>(0)
                &&& overwritten(g.memory, after.memory, at as int, four(bytes.len() as u32))
            } else {
                &&& r == Err::<u32, Trap>(Trap::Written)
                &&& after.memory == g.memory
            }
        }),
{
    let bytes = write_payload(g.memory, vectors, count)->Ok_0;
    law_scalar_is_the_leading_number(bytes);
    law_count_is_stored_at_its_place(g.memory, at, bytes.len() as u32);
}

/// A write whose bytes cannot be gathered touches nothing: a vector or buffer
/// outside the memory traps, and anything over a cap is an invalid argument.
pub proof fn law_ungathered_write_touches_nothing(
    g: GuestState,
    fd: u32,
    path: Option<Seq<char>>,
    vectors: u32,
    count: u32,
    at: u32,
    script: Seq<Reply>,
)
    requires
        write_payload(g.memory, vectors, count) is Err,
    ensures
        fd_written(g, fd, path, vectors, count, at, script).1 == g,
        match write_payload(g.memory, vectors, count)->Err_0 {
            Some(errno) => fd_written(g, fd, path, vectors, count, at, script).0 == Ok::<u32, Trap>(
                errno,
            ),
            None => fd_written(g, fd, path, vectors, count, at, script).0 == Err::<u32, Trap>(
                Trap::WriteVector,
            ),
        },
{
}

proof fn lemma_scattered_bound(
    memory: Seq<u8>,
    rest: Seq<u8>,
    vectors: u32,
    i: nat,
    count: nat,
    done: nat,
)
    ensures
        scattered(memory, rest, vectors, i, count, done).1.len() == memory.len(),
        scattered(memory, rest, vectors, i, count, done).0 is Ok ==> done <= scattered(
            memory,
            rest,
            vectors,
            i,
            count,
            done,
        ).0->Ok_0 <= done + rest.len(),
    decreases count - i,
{
    if i < count && rest.len() > 0 && vector_fault(memory.len(), vectors, i) is None {
        let buffer = word_at(memory, (vectors + i * 8) as int);
        let len = word_at(memory, (vectors + i * 8 + 4) as int);
        let n = if rest.len() < len {
            rest.len()
        } else {
            len
        };
        if n == 0 {
            lemma_scattered_bound(memory, rest, vectors, i + 1, count, done);
        } else if span_fault(memory.len(), buffer, n) is None {
            lemma_scattered_bound(
                stored_at(memory, buffer as int, rest.take(n as int)),
                rest.skip(n as int),
                vectors,
                i + 1,
                count,
                done + n,
            );
        }
    }
}

proof fn lemma_scattered_step(
    memory: Seq<u8>,
    rest: Seq<u8>,
    vectors: u32,
    i: nat,
    count: nat,
    done: nat,
)
    requires
        i <= count,
    ensures
        ({
            let (less, m) = scattered(memory, rest, vectors, i, count, done);
            let more = scattered(memory, rest, vectors, i, count + 1, done);
            match less {
                Err(_) => more == (less, m),
                Ok(n) => more == scattered(
                    m,
                    rest.skip(n - done),
                    vectors,
                    count,
                    count + 1,
                    n,
                ),
            }
        }),
    decreases count - i,
{
    lemma_scattered_bound(memory, rest, vectors, i, count, done);
    assert(rest.skip(0) =~= rest);
    if i < count && rest.len() > 0 && vector_fault(memory.len(), vectors, i) is None {
        let buffer = word_at(memory, (vectors + i * 8) as int);
        let len = word_at(memory, (vectors + i * 8 + 4) as int);
        let n = if rest.len() < len {
            rest.len()
        } else {
            len
        };
        if n == 0 {
            lemma_scattered_step(memory, rest, vectors, i + 1, count, done);
        } else if span_fault(memory.len(), buffer, n) is None {
            let next = stored_at(memory, buffer as int, rest.take(n as int));
            let left = rest.skip(n as int);
            lemma_scattered_step(next, left, vectors, i + 1, count, done + n);
            lemma_scattered_bound(next, left, vectors, i + 1, count, done + n);
            let (less, m) = scattered(next, left, vectors, i + 1, count, done + n);
            if let Ok(k) = less {
                assert(left.skip(k - (done + n)) =~= rest.skip(k - done));
            }
        }
    }
}

/// A read fills its vectors one after the other. With no vectors, or with every
/// byte stored, nothing more is stored. One more vector takes the next bytes, as
/// many as it holds and as are left, into the buffer that it names; the rest of
/// the memory stays. A vector outside the memory, or a buffer that cannot hold
/// what goes there, traps. A trap stays.
pub proof fn law_read_fills_its_vectors(
    memory: Seq<u8>,
    bytes: Seq<u8>,
    vectors: u32,
    count: nat,
)
    ensures
        scattered(memory, bytes, vectors, 0, 0, 0) == (Ok::<nat, Trap>(0), memory),
        ({
            let (less, before) = scattered(memory, bytes, vectors, 0, count, 0);
            let (more, after) = scattered(memory, bytes, vectors, 0, count + 1, 0);
            let place = vectors + count * 8;
            let buffer = number(before, place);
            let len = number(before, place + 4);
            match less {
                Err(e) => more == Err::<nat, Trap>(e) && after == before,
                Ok(done) => {
                    let left = (bytes.len() - done) as nat;
                    let n = if left < len {
                        left
                    } else {
                        len
                    };
                    &&& done <= bytes.len()
                    &&& if left == 0 {
                        more == Ok::<nat, Trap>(done) && after == before
                    } else if place + 8 > memory.len() || place + 8 > usize::MAX {
                        more is Err && more->Err_0 is ReadVector && after == before
                    } else if n == 0 {
                        more == Ok::<nat, Trap>(done) && after == before
                    } else if buffer + n > memory.len() || buffer + n > usize::MAX {
                        more is Err && more->Err_0 is ReadBuffer && after == before
                    } else {
                        more == Ok::<nat, Trap>(done + n) && overwritten(
                            before,
                            after,
                            buffer as int,
                            bytes.subrange(done as int, (done + n) as int),
                        )
                    }
                },
            }
        }),
{
    lemma_scattered_bound(memory, bytes, vectors, 0, count, 0);
    lemma_scattered_step(memory, bytes, vectors, 0, count, 0);
    let (less, before) = scattered(memory, bytes, vectors, 0, count, 0);
    if let Ok(done) = less {
        let rest = bytes.skip(done as int);
        assert(bytes.skip(done - 0) == rest);
        if vectors + count * 8 + 8 <= memory.len() {
            lemma_number(before, vectors + count * 8);
            lemma_number(before, vectors + count * 8 + 4);
        }
        reveal_with_fuel(scattered, 3);
        let len = number(before, vectors + count * 8 + 4);
        let n = if rest.len() < len {
            rest.len()
        } else {
            len
        };
        assert(rest.take(n as int) =~= bytes.subrange(done as int, (done + n) as int));
    }
}

/// A read gives the eight bytes of the value that storage holds under the file
/// of its handle, or none without a value, and stores how many bytes went into
/// the vectors. A handle without a file that may be read gives an errno and asks
/// nothing.
pub proof fn law_read_gives_the_stored_value(
    g: GuestState,
    path: Option<Seq<char>>,
    vectors: u32,
    count: u32,
    at: u32,
    script: Seq<Reply>,
)
    ensures
        ({
            let (r, after) = fd_was_read(g, path, vectors, count, at, script);
            let reply = script[g.backend.log.len() as int]->Value_0;
            match path {
                None => r == Ok::<u32, Trap>(8) && after == g,
                Some(file) => {
                    &&& deeds(after.backend.log) == deeds(g.backend.log).push(
                        Ask::FsRead { actor: g.backend.actor, path: file },
                    )
                    &&& after.backend == (BackendState { log: after.backend.log, ..g.backend })
                    &&& after.stdout == g.stdout
                    &&& match reply {
                        Err(e) => r == Err::<u32, Trap>(Trap::ReadStorage(FsError(e)))
                            && after.memory == g.memory,
                        Ok(value) => {
                            let bytes = match value {
                                Some(v) => eight(v),
                                None => Seq::empty(),
                            };
                            let (done, memory) = scattered(
                                g.memory,
                                bytes,
                                vectors,
                                0,
                                count as nat,
                                0,
                            );
                            if count > 4_096 {
                                r == Ok::<u32, Trap>(28) && after.memory == g.memory
                            } else {
                                match done {
                                    Err(e) => r == Err::<u32, Trap>(e) && after.memory == memory,
                                    Ok(n) => if at + 4 <= g.memory.len() {
                                        r == Ok::<u32, Trap>(0) && overwritten(
                                            memory,
                                            after.memory,
                                            at as int,
                                            four(n as u32),
                                        )
                                    } else {
                                        r == Err::<u32, Trap>(Trap::ReadCount) && after.memory
                                            == memory
                                    },
                                }
                            }
                        },
                    }
                },
            }
        }),
{
    if let Some(file) = path {
        if let Ok(value) = script[g.backend.log.len() as int]->Value_0 {
            let bytes = value_bytes(value);
            if let Some(v) = value {
                law_words_are_eight_bytes(v);
            }
            lemma_scattered_bound(g.memory, bytes, vectors, 0, count as nat, 0);
            let (done, memory) = scattered(g.memory, bytes, vectors, 0, count as nat, 0);
            if let Ok(n) = done {
                law_count_is_stored_at_its_place(memory, at, n as u32);
            }
        }
    }
}

/// The storage key of a path is the path from its first character that is no
/// slash on; a path of slashes alone is its own key.
pub proof fn law_key_drops_the_leading_slashes(path: Seq<char>)
    ensures
        exists|k: int|
            {
                &&& 0 <= k <= path.len()
                &&& forall|i: int| 0 <= i < k ==> #[trigger] path[i] == '/'
                &&& k < path.len() ==> path[k] != '/' && key_of(path) == #[trigger] path.skip(k)
                &&& k == path.len() ==> key_of(path) == path
            },
{
    lemma_slashes(path);
    let k = leading_slashes(path) as int;
    assert(path.skip(k).len() == path.len() - k);
}

proof fn lemma_slashes(path: Seq<char>)
    ensures
        leading_slashes(path) <= path.len(),
        forall|i: int| 0 <= i < leading_slashes(path) ==> #[trigger] path[i] == '/',
        leading_slashes(path) < path.len() ==> path[leading_slashes(path) as int] != '/',
    decreases path.len(),
{
    if path.len() > 0 && path[0] == '/' {
        let rest = path.drop_first();
        lemma_slashes(rest);
        assert forall|i: int| 0 <= i < leading_slashes(path) implies #[trigger] path[i] == '/' by {
            if i > 0 {
                assert(rest[i - 1] == path[i]);
            }
        }
    }
}

/// A guest path is read from its stretch of memory: it is refused where the
/// stretch leaves the memory or holds no text, and its key is that of the text
/// there.
pub proof fn law_path_is_read_from_memory(memory: Seq<u8>, at: u32, len: u32, text: Seq<char>)
    requires
        memory.len() <= usize::MAX,
    ensures
        at + len > memory.len() ==> path_fault(memory, at, len) is Some && path_fault(
            memory,
            at,
            len,
        )->Some_0 is Path,
        at + len <= memory.len() ==> (path_fault(memory, at, len) == Some(Trap::PathText)
            <==> !valid_utf8(memory.subrange(at as int, at + len))),
        at + len <= memory.len() && memory.subrange(at as int, at + len) == encode_utf8(text)
            ==> path_fault(memory, at, len) is None && guest_key(memory, at, len) == key_of(text),
{
    encode_utf8_valid_utf8(text);
    encode_utf8_decode_utf8(text);
}

/// A status call on an open descriptor clears the 64 bytes that it names and
/// touches nothing else.
pub proof fn law_status_is_blank(memory: Seq<u8>, is_open: bool, at: u32)
    requires
        memory.len() <= usize::MAX,
    ensures
        ({
            let (r, after) = status_given(memory, is_open, at);
            if !is_open {
                r == Ok::<u32, Trap>(8) && after == memory
            } else if at + 64 > memory.len() {
                r is Err && r->Err_0 is Status && after == memory
            } else {
                &&& r == Ok::<u32, Trap>(0) && after.len() == memory.len()
                &&& forall|k: int|
                    0 <= k < memory.len() ==> #[trigger] after[k] == if at <= k < at + 64 {
                        0u8
                    } else {
                        memory[k]
                    }
            }
        }),
{
}

/// A randomness request journals its length and fills its buffer, byte for byte,
/// with the low bytes of the generator's next words. The next request goes on
/// where this one ended. A buffer that leaves the memory traps and draws
/// nothing.
pub proof fn law_randomness_fills_the_buffer(
    g: GuestState,
    random: WasiRandom,
    at: u32,
    len: u32,
    script: Seq<Reply>,
)
    requires
        g.memory.len() <= usize::MAX,
        random.drawn + len <= u64::MAX,
    ensures
        ({
            let (r, after, next) = randomness_given(g, random, at, len, script);
            &&& deeds(after.backend.log) == deeds(g.backend.log).push(
                own_entry(
                    g.backend,
                    Seq::empty(),
                    Payload::RngDraw {
                        stream: StreamId(0xF000),
                        draw_index: 0,
                        content: eight(len as u64),
                    },
                ),
            )
            &&& after.stdout == g.stdout && next.seed == random.seed
            &&& after.memory.len() == g.memory.len()
            &&& if at + len > g.memory.len() {
                r is Err && r->Err_0 is Random && after.memory == g.memory && next.drawn
                    == random.drawn
            } else {
                &&& r == Ok::<u32, Trap>(0) && next.drawn == random.drawn + len
                &&& forall|k: int|
                    0 <= k < g.memory.len() ==> #[trigger] after.memory[k] == if at <= k < at
                        + len {
                        (chacha20_half(random.seed@, (random.drawn + k - at) as u128) as u8)
                    } else {
                        g.memory[k]
                    }
            }
        }),
{
    law_words_are_eight_bytes(len as u64);
}

/// A word as a signed number: the upper half of the range is negative.
pub open spec fn signed(word: u64) -> int {
    if word < 0x8000_0000_0000_0000 {
        word as int
    } else {
        word - 0x1_0000_0000_0000_0000
    }
}

proof fn lemma_signed(word: u64)
    ensures
        (word as i64) == signed(word),
{
    assert(word < 0x8000_0000_0000_0000 ==> (word as i64) == word) by (bit_vector);
    assert(word >= 0x8000_0000_0000_0000 ==> (word as i64) == word - 0x1_0000_0000_0000_0000)
        by (bit_vector);
}

/// A send of a guest reads the time and sends the payload from the backend's
/// actor to the peer, due at once. It gives 0 when the network took the message
/// and 1 when not.
pub proof fn law_guest_send_is_due_at_once(
    s: BackendState,
    peer: u32,
    payload: u64,
    blank: EntryHash,
    script: Seq<Reply>,
)
    requires
        s.tick_sink is None,
        script[s.log.len() + 1int] is Appended,
        s.net.queue.len() <= usize::MAX,
    ensures
        ({
            let (code, after) = guest_sent(s, peer, payload, blank, script);
            let now = script[s.log.len() as int]->Ticks_0;
            let from = s.actor.0 as usize;
            let to = peer as usize;
            let message_id = MessageId { actor: s.actor, sequence: 0 };
            let content = eight(payload);
            &&& deeds(after.log) == deeds(s.log).push(Ask::Now).push(
                own_entry(
                    s,
                    Seq::empty(),
                    Payload::Send {
                        message_id,
                        from: ActorId(from as u32),
                        to: ActorId(to as u32),
                        original_content: content,
                    },
                ),
            )
            &&& match script[s.log.len() + 1int]->Appended_0 {
                Err(_) => code == 1 && after.net == s.net,
                Ok(send_id) => if s.net.partitions.contains((from, to)) || link_is_full(
                    s.net,
                    from,
                    to,
                ) {
                    code == 1 && after.net == s.net
                } else {
                    code == 0 && after.net == (NetState {
                        queue: s.net.queue.push(
                            Envelope { from, to, content, send_id, message_id, deliver_at: now },
                        ),
                        ..s.net
                    })
                },
            }
        }),
{
    law_words_are_eight_bytes(payload);
    let (now, s1) = clock_glanced(s, script);
    let message = Envelope {
        from: s.actor.0 as usize,
        to: peer as usize,
        content: eight(payload),
        send_id: blank,
        message_id: MessageId { actor: s.actor, sequence: 0 },
        deliver_at: now,
    };
    law_backend_send_joins_the_queue(s1, message, OriginSource::Unknown, script);
}

/// A receive of a guest reads the time and takes a message of the peer that is
/// due by then: the number in its first eight bytes, signed. With nothing due it
/// gives -1.
pub proof fn law_guest_receive_gives_the_payload(s: BackendState, peer: u32, script: Seq<Reply>)
    requires
        s.tick_sink is None,
    ensures
        ({
            let (code, after) = guest_received(s, peer, script);
            let now = script[s.log.len() as int]->Ticks_0;
            let glanced = BackendState {
                log: s.log.push((Ask::Now, script[s.log.len() as int])),
                ..s
            };
            let (message, expected) = accepted(glanced, peer as usize, now, script);
            &&& after == expected
            &&& code == match message {
                Some(m) => signed(leading_number(m.content) as u64),
                None => -1int,
            }
        }),
{
    let (now, s1) = clock_glanced(s, script);
    let message = accepted(s1, peer as usize, now, script).0;
    if let Some(m) = message {
        law_scalar_is_the_leading_number(m.content);
        lemma_signed(leading_number(m.content) as u64);
    }
}

/// A guest's write to a key asks storage once, with the value, and gives 0; it
/// gives 1 where the path cannot be read or storage fails. A path that cannot be
/// read asks nothing.
pub proof fn law_guest_write_stores_the_value(
    s: BackendState,
    memory: Seq<u8>,
    ptr: u32,
    len: u32,
    value: u64,
    script: Seq<Reply>,
)
    ensures
        ({
            let (code, after) = guest_stored(s, memory, ptr, len, value, script);
            let reply = script[s.log.len() as int]->Appended_0;
            if path_fault(memory, ptr, len) is Some {
                code == 1 && after == s
            } else {
                &&& deeds(after.log) == deeds(s.log).push(
                    Ask::FsWrite { actor: s.actor, path: guest_key(memory, ptr, len), value },
                )
                &&& code == if reply is Ok {
                    0u32
                } else {
                    1u32
                }
                &&& after == (BackendState { log: after.log, ..s })
            }
        }),
{
}

/// A guest's read from a key asks storage once and gives the value, signed; -1
/// for a key without a value; and -2 where the path cannot be read, which asks
/// nothing, or storage fails.
pub proof fn law_guest_read_gives_the_value(
    s: BackendState,
    memory: Seq<u8>,
    ptr: u32,
    len: u32,
    script: Seq<Reply>,
)
    ensures
        ({
            let (code, after) = guest_loaded(s, memory, ptr, len, script);
            if path_fault(memory, ptr, len) is Some {
                code == -2 && after == s
            } else {
                &&& deeds(after.log) == deeds(s.log).push(
                    Ask::FsRead { actor: s.actor, path: guest_key(memory, ptr, len) },
                )
                &&& code == match script[s.log.len() as int]->Value_0 {
                    Ok(Some(value)) => signed(value),
                    Ok(None) => -1int,
                    Err(_) => -2int,
                }
                &&& after == (BackendState { log: after.log, ..s })
            }
        }),
{
    if let Ok(Some(value)) = script[s.log.len() as int]->Value_0 {
        lemma_signed(value);
    }
}

/// The first guest of all serves unnamed calls until one is loaded as `main`;
/// from then on the latest of these does. A name that no guest was loaded under
/// is not served.
pub proof fn law_main_guest_serves_unnamed_calls(
    roster: RosterState,
    name: Seq<char>,
    guest: u64,
    other: Seq<char>,
)
    ensures
        roster.guests.dom() == Set::<Seq<char>>::empty() && roster.primary is None ==> resolved(
            enrolled(roster, name, guest),
            "main"@,
        ) == Some(guest),
        resolved(enrolled(roster, "main"@, guest), "main"@) == Some(guest),
        name != "main"@ && resolved(roster, "main"@) is Some && roster.primary is Some ==> resolved(
            enrolled(roster, name, guest),
            "main"@,
        ) == resolved(roster, "main"@),
        other != name && other != "main"@ ==> resolved(enrolled(roster, name, guest), other)
            == resolved(roster, other),
{
}

/// A bit of a word stands for its power of two: what is above it and what is
/// below it do not matter.
pub proof fn law_bit_is_its_power_of_two(word: u64, bit: nat, above: nat, set: bool, below: nat)
    requires
        below < pow2(bit),
        word == above * (2 * pow2(bit)) + (if set {
            pow2(bit)
        } else {
            0
        }) + below,
    ensures
        has_bit(word, bit) == set,
{
    let p = pow2(bit) as int;
    lemma_pow2_pos(bit);
    let x: int = if set {
        1
    } else {
        0
    };
    let q = 2 * (above as int) + x;
    assert(word == q * p + below) by (nonlinear_arith)
        requires
            word == (above as int) * (2 * p) + x * p + below,
            q == 2 * (above as int) + x,
    ;
    assert(word as int / p == q) by {
        vstd::arithmetic::div_mod::lemma_fundamental_div_mod_converse(
            word as int,
            p,
            q,
            below as int,
        );
    }
}

} // verus!
