//! Application random streams.

use crate::text::{decimal, push_decimal, push_text};
use rand_core::{Rng, SeedableRng};
use vstd::prelude::*;

verus! {

/// The 64-bit word that the ChaCha20 generator with the given seed yields at
/// the given offset, counted in 32-bit words.
pub uninterp spec fn chacha20_word(seed: Seq<u8>, word_pos: u128) -> u64;

/// Trusted: `rand_chacha::ChaCha20Rng` seeded by `from_seed`, moved by
/// `set_word_pos` and read by `next_u64` yields a word that is a function of
/// the seed and of the offset alone. Reading in sequence from the start yields
/// the words at the even offsets.
#[verifier::external_body]
pub(crate) fn chacha20_u64(seed: &[u8; 32], word_pos: u128) -> (word: u64)
    ensures
        word == chacha20_word(seed@, word_pos),
{
    let mut rng = rand_chacha::ChaCha20Rng::from_seed(*seed);
    rng.set_word_pos(word_pos);
    rng.next_u64()
}

/// The 32-bit word that the ChaCha20 generator with the given seed yields at
/// the given offset, counted in 32-bit words.
pub uninterp spec fn chacha20_half(seed: Seq<u8>, word_pos: u128) -> u32;

/// Trusted: `rand_chacha::ChaCha20Rng` seeded by `from_seed`, moved by
/// `set_word_pos` and read by `next_u32` yields a word that is a function of
/// the seed and of the offset alone. Reading in sequence from the start yields
/// the words at successive offsets.
#[verifier::external_body]
pub(crate) fn chacha20_u32(seed: &[u8; 32], word_pos: u128) -> (word: u32)
    ensures
        word == chacha20_half(seed@, word_pos),
{
    let mut rng = rand_chacha::ChaCha20Rng::from_seed(*seed);
    rng.set_word_pos(word_pos);
    rng.next_u32()
}

/// One stream of one task, with the number of words drawn from it.
#[derive(Debug, Clone, Copy, PartialEq, Eq)]
pub struct StreamState {
    /// Task that draws.
    pub task: usize,
    /// Number of the stream.
    pub stream: u32,
    /// Seed of the stream.
    pub seed: [u8; 32],
    /// Words drawn so far.
    pub drawn: u64,
}

/// The next word of a stream.
pub open spec fn next_word(state: StreamState) -> u64 {
    chacha20_word(state.seed@, (2 * state.drawn) as u128)
}

/// A count after one more, modulo the word range.
pub open spec fn next_count(n: u64) -> u64 {
    if n == u64::MAX {
        0
    } else {
        (n + 1) as u64
    }
}

/// Count one more, modulo the word range.
pub fn bump(n: u64) -> (next: u64)
    ensures
        next == next_count(n),
{
    if n == u64::MAX {
        0
    } else {
        n + 1
    }
}

/// Position of a task's stream.
pub open spec fn stream_slot(streams: Seq<StreamState>, task: usize, stream: u32) -> Option<int>
    decreases streams.len(),
{
    if streams.len() == 0 {
        None
    } else if streams.last().task == task && streams.last().stream == stream {
        Some(streams.len() - 1)
    } else {
        stream_slot(streams.drop_last(), task, stream)
    }
}

/// The position of a stream holds that stream.
pub proof fn lemma_slot_names_stream(streams: Seq<StreamState>, task: usize, stream: u32)
    ensures
        stream_slot(streams, task, stream) matches Some(k) ==> 0 <= k < streams.len()
            && streams[k].task == task && streams[k].stream == stream,
    decreases streams.len(),
{
    if streams.len() > 0 {
        lemma_slot_names_stream(streams.drop_last(), task, stream);
    }
}

/// Position of a task's stream.
pub fn find_stream(streams: &Vec<StreamState>, task: usize, stream: u32) -> (at: Option<usize>)
    ensures
        match at {
            Some(i) => stream_slot(streams@, task, stream) == Some(i as int) && i < streams@.len(),
            None => stream_slot(streams@, task, stream) is None,
        },
{
    let mut i: usize = streams.len();
    assert(streams@.take(i as int) =~= streams@);
    while i > 0
        invariant
            i <= streams@.len(),
            stream_slot(streams@.take(i as int), task, stream) == stream_slot(
                streams@,
                task,
                stream,
            ),
        decreases i,
    {
        assert(streams@.take(i as int).drop_last() =~= streams@.take(i - 1));
        assert(streams@.take(i as int).last() == streams@[i - 1]);
        if streams[i - 1].task == task && streams[i - 1].stream == stream {
            return Some(i - 1);
        }
        i = i - 1;
    }
    None
}

/// The next word of a stream.
pub fn read_word(state: &StreamState) -> (word: u64)
    ensures
        word == next_word(*state),
{
    chacha20_u64(&state.seed, 2 * (state.drawn as u128))
}

/// Seed-tree label of an application stream.
pub open spec fn stream_label(stream: u32) -> Seq<char> {
    "app/"@ + decimal(stream as nat)
}

/// Seed-tree label of an application stream.
pub fn label_of(stream: u32) -> (label: String)
    ensures
        label@ == stream_label(stream),
{
    let mut label: String = String::new();
    push_text(&mut label, "app/");
    push_decimal(&mut label, stream as u64);
    assert(label@ =~= stream_label(stream));
    label
}

} // verus!
