//! Core deterministic CBOR.
//!
//! Integers and lengths take their shortest form, map keys are distinct and
//! ordered by encoded length and then bytewise, floats take the narrowest
//! width that holds their value, and neither NaN nor negative zero occurs.
//! Indefinite lengths, tags and other simple values are not part of the
//! format.

use crate::bytes::{be, be_value, is_lex_less, lex_less, push_be, read_be, same_bytes};
use crate::float::{
    double_of_half, double_of_single, fits_half, fits_single, is_nan, nan, narrow_half,
    narrow_single, widen_half, widen_single, SIGN_BIT,
};
use crate::text::text_of_utf8;
use vstd::prelude::*;
use vstd::utf8::{decode_utf8, encode_utf8, valid_utf8};

verus! {

/// Deepest nesting of arrays and maps that the decoder follows.
pub const MAX_NESTING: usize = 32;

/// A CBOR data item.
#[derive(Debug)]
pub enum CborValue {
    /// Unsigned integer.
    Unsigned(u64),
    /// The negative integer `-1 - n`.
    Negative(u64),
    /// Byte string.
    Bytes(Vec<u8>),
    /// Text string.
    Text(String),
    /// Array of items.
    Array(Vec<CborValue>),
    /// Map from keys to values.
    Dict(Vec<(CborValue, CborValue)>),
    /// Boolean.
    Bool(bool),
    /// The null value.
    Null,
    /// Floating-point number, by the bit pattern of its double-precision form.
    Float(u64),
}

/// Why bytes or a value have no canonical form.
#[derive(Debug, Clone, Copy, PartialEq, Eq, Structural)]
pub enum CborError {
    /// The input ends inside an item.
    UnexpectedEnd,
    /// Bytes follow the item.
    TrailingBytes,
    /// An integer or a length is not in its shortest form.
    NonCanonicalInteger,
    /// A float is a NaN, negative zero, or wider than its value needs.
    NonCanonicalFloat,
    /// A text string is not UTF-8.
    InvalidUtf8,
    /// A tag, an indefinite length or another simple value.
    UnsupportedType,
    /// Two map entries have the same key.
    DuplicateKey,
    /// A map key precedes the one before it.
    UnsortedKeys,
    /// Arrays and maps nest deeper than [`MAX_NESTING`].
    NestingTooDeep,
}

/// The mathematical content of a [`CborValue`].
pub enum Cbor {
    Unsigned(u64),
    Negative(u64),
    Bytes(Seq<u8>),
    Text(Seq<char>),
    Array(Seq<Cbor>),
    Dict(Seq<(Cbor, Cbor)>),
    Bool(bool),
    Null,
    Float(u64),
}

/// Content of one item.
pub open spec fn content(v: CborValue) -> Cbor
    decreases v,
{
    match v {
        CborValue::Unsigned(n) => Cbor::Unsigned(n),
        CborValue::Negative(n) => Cbor::Negative(n),
        CborValue::Bytes(b) => Cbor::Bytes(b@),
        CborValue::Text(s) => Cbor::Text(s@),
        CborValue::Array(items) => Cbor::Array(contents(items@)),
        CborValue::Dict(entries) => Cbor::Dict(entry_contents(entries@)),
        CborValue::Bool(b) => Cbor::Bool(b),
        CborValue::Null => Cbor::Null,
        CborValue::Float(bits) => Cbor::Float(bits),
    }
}

/// Contents of a sequence of items.
pub open spec fn contents(items: Seq<CborValue>) -> Seq<Cbor>
    decreases items,
{
    if items.len() == 0 {
        Seq::empty()
    } else {
        seq![content(items[0])] + contents(items.drop_first())
    }
}

/// Contents of a sequence of map entries.
pub open spec fn entry_contents(entries: Seq<(CborValue, CborValue)>) -> Seq<(Cbor, Cbor)>
    decreases entries,
{
    if entries.len() == 0 {
        Seq::empty()
    } else {
        seq![(content(entries[0].0), content(entries[0].1))] + entry_contents(entries.drop_first())
    }
}

impl View for CborValue {
    type V = Cbor;

    open spec fn view(&self) -> Cbor {
        content(*self)
    }
}

/// First byte of an item: its major type and its argument or argument width.
pub open spec fn initial(major: nat, info: nat) -> Seq<u8> {
    seq![(major * 32 + info) as u8]
}

/// Head of an item: major type and argument in the shortest form.
pub open spec fn head(major: nat, n: nat) -> Seq<u8> {
    if n < 24 {
        initial(major, n)
    } else if n < 0x100 {
        initial(major, 24) + be(n, 1)
    } else if n < 0x1_0000 {
        initial(major, 25) + be(n, 2)
    } else if n < 0x1_0000_0000 {
        initial(major, 26) + be(n, 4)
    } else {
        initial(major, 27) + be(n, 8)
    }
}

/// A float that has a canonical form.
pub open spec fn canonical_float(bits: u64) -> bool {
    !nan(bits) && bits != SIGN_BIT
}

/// The narrowest float that holds the value of `bits`.
pub open spec fn float_bytes(bits: u64) -> Seq<u8> {
    if fits_half(bits) {
        seq![0xf9u8] + be((choose|h: u16| double_of_half(h) == bits) as nat, 2)
    } else if fits_single(bits) {
        seq![0xfau8] + be((choose|s: u32| double_of_single(s) == bits) as nat, 4)
    } else {
        seq![0xfbu8] + be(bits as nat, 8)
    }
}

/// Canonical key order: shorter first, then bytewise.
pub open spec fn key_less(a: Seq<u8>, b: Seq<u8>) -> bool {
    a.len() < b.len() || (a.len() == b.len() && lex_less(a, b))
}

/// How many leading pairs have a key that precedes `key`.
pub open spec fn slot(pairs: Seq<(Seq<u8>, Seq<u8>)>, key: Seq<u8>) -> nat
    decreases pairs.len(),
{
    if pairs.len() == 0 || !key_less(pairs[0].0, key) {
        0
    } else {
        1 + slot(pairs.drop_first(), key)
    }
}

/// Put an encoded entry at its place among the entries ordered so far.
pub open spec fn place(
    pairs: Seq<(Seq<u8>, Seq<u8>)>,
    key: Seq<u8>,
    value: Seq<u8>,
) -> Result<Seq<(Seq<u8>, Seq<u8>)>, CborError> {
    let at = slot(pairs, key);
    if at < pairs.len() && pairs[at as int].0 == key {
        Err(CborError::DuplicateKey)
    } else {
        Ok(pairs.insert(at as int, (key, value)))
    }
}

/// Keys and values one after the other.
pub open spec fn joined(pairs: Seq<(Seq<u8>, Seq<u8>)>) -> Seq<u8>
    decreases pairs.len(),
{
    if pairs.len() == 0 {
        Seq::empty()
    } else {
        joined(pairs.drop_last()) + pairs.last().0 + pairs.last().1
    }
}

/// The canonical bytes of `v`, its map entries brought into key order, or why
/// there are none.
pub open spec fn encoded(v: Cbor) -> Result<Seq<u8>, CborError>
    decreases v,
{
    match v {
        Cbor::Unsigned(n) => Ok(head(0, n as nat)),
        Cbor::Negative(n) => Ok(head(1, n as nat)),
        Cbor::Bytes(b) => Ok(head(2, b.len()) + b),
        Cbor::Text(s) => Ok(head(3, encode_utf8(s).len()) + encode_utf8(s)),
        Cbor::Array(items) => match encoded_items(items) {
            Ok(b) => Ok(head(4, items.len()) + b),
            Err(e) => Err(e),
        },
        Cbor::Dict(entries) => match encoded_entries(entries) {
            Ok(pairs) => Ok(head(5, entries.len()) + joined(pairs)),
            Err(e) => Err(e),
        },
        Cbor::Bool(b) => Ok(seq![if b { 0xf5u8 } else { 0xf4u8 }]),
        Cbor::Null => Ok(seq![0xf6u8]),
        Cbor::Float(bits) => if canonical_float(bits) {
            Ok(float_bytes(bits))
        } else {
            Err(CborError::NonCanonicalFloat)
        },
    }
}

/// The canonical bytes of items one after the other.
pub open spec fn encoded_items(items: Seq<Cbor>) -> Result<Seq<u8>, CborError>
    decreases items,
{
    if items.len() == 0 {
        Ok(Seq::empty())
    } else {
        match encoded_items(items.drop_last()) {
            Err(e) => Err(e),
            Ok(front) => match encoded(items.last()) {
                Err(e) => Err(e),
                Ok(b) => Ok(front + b),
            },
        }
    }
}

/// The encoded entries of a map in key order.
pub open spec fn encoded_entries(entries: Seq<(Cbor, Cbor)>) -> Result<
    Seq<(Seq<u8>, Seq<u8>)>,
    CborError,
>
    decreases entries,
{
    if entries.len() == 0 {
        Ok(Seq::empty())
    } else {
        match encoded_entries(entries.drop_last()) {
            Err(e) => Err(e),
            Ok(pairs) => match encoded(entries.last().0) {
                Err(e) => Err(e),
                Ok(key) => match encoded(entries.last().1) {
                    Err(e) => Err(e),
                    Ok(value) => place(pairs, key, value),
                },
            },
        }
    }
}

/// Append the head of an item.
fn push_head(out: &mut Vec<u8>, major: u8, n: u64)
    requires
        major < 7,
    ensures
        final(out)@ == old(out)@ + head(major as nat, n as nat),
{
    proof {
        crate::bytes::lemma_span_small();
    }
    let base: u8 = major * 32;
    if n < 24 {
        out.push(base + n as u8);
    } else if n < 0x100 {
        out.push(base + 24);
        push_be(out, n, 1);
    } else if n < 0x1_0000 {
        out.push(base + 25);
        push_be(out, n, 2);
    } else if n < 0x1_0000_0000 {
        out.push(base + 26);
        push_be(out, n, 4);
    } else {
        out.push(base + 27);
        push_be(out, n, 8);
    }
    assert(out@ =~= old(out)@ + head(major as nat, n as nat));
}

/// Append the narrowest form of a float.
fn push_float(out: &mut Vec<u8>, bits: u64)
    ensures
        final(out)@ == old(out)@ + float_bytes(bits),
{
    proof {
        crate::bytes::lemma_span_small();
    }
    if let Some(h) = narrow_half(bits) {
        proof {
            let chosen = choose|x: u16| double_of_half(x) == bits;
            crate::float::lemma_narrowing_is_unique(h, 0);
            crate::float::lemma_narrowing_is_unique(chosen, 0);
        }
        out.push(0xf9);
        push_be(out, h as u64, 2);
    } else if let Some(s) = narrow_single(bits) {
        proof {
            let chosen = choose|x: u32| double_of_single(x) == bits;
            crate::float::lemma_narrowing_is_unique(0, s);
            crate::float::lemma_narrowing_is_unique(0, chosen);
        }
        out.push(0xfa);
        push_be(out, s as u64, 4);
    } else {
        out.push(0xfb);
        push_be(out, bits, 8);
    }
    assert(out@ =~= old(out)@ + float_bytes(bits));
}

/// Append a byte string.
fn push_all(out: &mut Vec<u8>, bytes: &[u8])
    ensures
        final(out)@ == old(out)@ + bytes@,
{
    let mut i: usize = 0;
    while i < bytes.len()
        invariant
            i <= bytes@.len(),
            out@ == old(out)@ + bytes@.take(i as int),
        decreases bytes@.len() - i,
    {
        out.push(bytes[i]);
        i = i + 1;
        assert(out@ =~= old(out)@ + bytes@.take(i as int));
    }
    assert(bytes@.take(i as int) =~= bytes@);
}

/// Whether one encoded key precedes another.
fn is_key_less(a: &[u8], b: &[u8]) -> (less: bool)
    ensures
        less == key_less(a@, b@),
{
    if a.len() != b.len() {
        a.len() < b.len()
    } else {
        is_lex_less(a, b)
    }
}

/// Encoded entries as a sequence of byte sequences.
pub open spec fn pair_views(pairs: Seq<(Vec<u8>, Vec<u8>)>) -> Seq<(Seq<u8>, Seq<u8>)> {
    pairs.map_values(|p: (Vec<u8>, Vec<u8>)| (p.0@, p.1@))
}

/// Put an encoded entry at its place; on a duplicate nothing changes.
fn place_entry(pairs: &mut Vec<(Vec<u8>, Vec<u8>)>, key: Vec<u8>, value: Vec<u8>) -> (r: Result<
    (),
    CborError,
>)
    ensures
        match place(pair_views(old(pairs)@), key@, value@) {
            Ok(after) => r is Ok && pair_views(final(pairs)@) == after,
            Err(e) => r == Err::<(), CborError>(e),
        },
{
    let ghost views = pair_views(pairs@);
    let mut at: usize = 0;
    assert(views.skip(0) =~= views);
    while at < pairs.len() && is_key_less(pairs[at].0.as_slice(), key.as_slice())
        invariant
            at <= pairs@.len(),
            pairs@ == old(pairs)@,
            views == pair_views(pairs@),
            slot(views, key@) == at + slot(views.skip(at as int), key@),
        decreases pairs@.len() - at,
    {
        assert(views.skip(at as int).drop_first() =~= views.skip(at + 1));
        at = at + 1;
    }
    assert(slot(views, key@) == at);
    if at < pairs.len() && same_bytes(pairs[at].0.as_slice(), key.as_slice()) {
        return Err(CborError::DuplicateKey);
    }
    let ghost entry = (key, value);
    pairs.insert(at, (key, value));
    assert(pair_views(pairs@) =~= views.insert(at as int, (entry.0@, entry.1@)));
    Ok(())
}

proof fn lemma_contents_take(items: Seq<CborValue>, i: int)
    requires
        0 <= i < items.len(),
    ensures
        contents(items.take(i + 1)) == contents(items.take(i)).push(content(items[i])),
        contents(items).len() == items.len(),
    decreases items.len(),
{
    lemma_contents_len(items);
    let a = items.take(i + 1);
    if i == 0 {
        assert(a.drop_first() =~= Seq::<CborValue>::empty());
        assert(items.take(0) =~= Seq::<CborValue>::empty());
        assert(contents(a.drop_first()) =~= Seq::<Cbor>::empty());
        assert(contents(a) =~= seq![content(items[0])]);
        assert(contents(items.take(0)) =~= Seq::<Cbor>::empty());
    } else {
        lemma_contents_take(items.drop_first(), i - 1);
        assert(a.drop_first() =~= items.drop_first().take(i));
        assert(items.take(i).drop_first() =~= items.drop_first().take(i - 1));
        assert(contents(a) =~= contents(items.take(i)).push(content(items[i])));
    }
}

/// Contents item by item.
pub proof fn lemma_contents_index(items: Seq<CborValue>)
    ensures
        contents(items).len() == items.len(),
        forall|i: int| 0 <= i < items.len() ==> #[trigger] contents(items)[i] == content(items[i]),
    decreases items.len(),
{
    if items.len() > 0 {
        let rest = items.drop_first();
        lemma_contents_index(rest);
        assert forall|i: int| 0 <= i < items.len() implies #[trigger] contents(items)[i] == content(
            items[i],
        ) by {
            if i > 0 {
                assert(contents(items)[i] == contents(rest)[i - 1]);
            }
        }
    }
}

/// Contents entry by entry.
pub proof fn lemma_entry_contents_index(entries: Seq<(CborValue, CborValue)>)
    ensures
        entry_contents(entries).len() == entries.len(),
        forall|i: int|
            0 <= i < entries.len() ==> #[trigger] entry_contents(entries)[i] == (
                content(entries[i].0),
                content(entries[i].1),
            ),
    decreases entries.len(),
{
    if entries.len() > 0 {
        let rest = entries.drop_first();
        lemma_entry_contents_index(rest);
        assert forall|i: int| 0 <= i < entries.len() implies #[trigger] entry_contents(entries)[i]
            == (content(entries[i].0), content(entries[i].1)) by {
            if i > 0 {
                assert(entry_contents(entries)[i] == entry_contents(rest)[i - 1]);
            }
        }
    }
}

proof fn lemma_contents_len(items: Seq<CborValue>)
    ensures
        contents(items).len() == items.len(),
    decreases items.len(),
{
    if items.len() > 0 {
        lemma_contents_len(items.drop_first());
    }
}

proof fn lemma_entry_contents_len(entries: Seq<(CborValue, CborValue)>)
    ensures
        entry_contents(entries).len() == entries.len(),
    decreases entries.len(),
{
    if entries.len() > 0 {
        lemma_entry_contents_len(entries.drop_first());
    }
}

proof fn lemma_entry_contents_take(entries: Seq<(CborValue, CborValue)>, i: int)
    requires
        0 <= i < entries.len(),
    ensures
        entry_contents(entries.take(i + 1)) == entry_contents(entries.take(i)).push(
            (content(entries[i].0), content(entries[i].1)),
        ),
    decreases entries.len(),
{
    let a = entries.take(i + 1);
    if i == 0 {
        assert(a.drop_first() =~= Seq::<(CborValue, CborValue)>::empty());
        assert(entries.take(0) =~= Seq::<(CborValue, CborValue)>::empty());
        assert(entry_contents(a.drop_first()) =~= Seq::<(Cbor, Cbor)>::empty());
        assert(entry_contents(a) =~= seq![(content(entries[0].0), content(entries[0].1))]);
        assert(entry_contents(entries.take(0)) =~= Seq::<(Cbor, Cbor)>::empty());
    } else {
        lemma_entry_contents_take(entries.drop_first(), i - 1);
        assert(a.drop_first() =~= entries.drop_first().take(i));
        assert(entries.take(i).drop_first() =~= entries.drop_first().take(i - 1));
        assert(entry_contents(a) =~= entry_contents(entries.take(i)).push(
            (content(entries[i].0), content(entries[i].1)),
        ));
    }
}

/// An error among the first items is an error of all of them.
proof fn lemma_items_error(items: Seq<Cbor>, i: int)
    requires
        0 <= i <= items.len(),
        encoded_items(items.take(i)) is Err,
    ensures
        encoded_items(items) == encoded_items(items.take(i)),
    decreases items.len() - i,
{
    if i == items.len() {
        assert(items.take(i) =~= items);
    } else {
        assert(items.take(i + 1).drop_last() =~= items.take(i));
        lemma_items_error(items, i + 1);
    }
}

/// An error among the first entries is an error of all of them.
proof fn lemma_entries_error(entries: Seq<(Cbor, Cbor)>, i: int)
    requires
        0 <= i <= entries.len(),
        encoded_entries(entries.take(i)) is Err,
    ensures
        encoded_entries(entries) == encoded_entries(entries.take(i)),
    decreases entries.len() - i,
{
    if i == entries.len() {
        assert(entries.take(i) =~= entries);
    } else {
        assert(entries.take(i + 1).drop_last() =~= entries.take(i));
        lemma_entries_error(entries, i + 1);
    }
}

impl CborValue {
    /// The canonical bytes of this value, map entries brought into key order.
    pub fn try_to_canonical_bytes(&self) -> (r: Result<Vec<u8>, CborError>)
        ensures
            match encoded(self@) {
                Ok(b) => r matches Ok(out) && out@ == b,
                Err(e) => r == Err::<Vec<u8>, CborError>(e),
            },
    {
        let mut out: Vec<u8> = Vec::new();
        match self.encode_into(&mut out) {
            Ok(()) => {
                assert(out@ =~= encoded(self@)->Ok_0);
                Ok(out)
            },
            Err(e) => Err(e),
        }
    }

    /// Append the canonical bytes of this value.
    fn encode_into(&self, out: &mut Vec<u8>) -> (r: Result<(), CborError>)
        ensures
            match encoded(self@) {
                Ok(b) => r is Ok && final(out)@ == old(out)@ + b,
                Err(e) => r == Err::<(), CborError>(e),
            },
        decreases self,
    {
        match self {
            CborValue::Unsigned(n) => {
                push_head(out, 0, *n);
                Ok(())
            },
            CborValue::Negative(n) => {
                push_head(out, 1, *n);
                Ok(())
            },
            CborValue::Bytes(b) => {
                push_head(out, 2, b.len() as u64);
                push_all(out, b.as_slice());
                assert(out@ =~= old(out)@ + encoded(self@)->Ok_0);
                Ok(())
            },
            CborValue::Text(s) => {
                let b: &[u8] = s.as_str().as_bytes();
                push_head(out, 3, b.len() as u64);
                push_all(out, b);
                assert(out@ =~= old(out)@ + encoded(self@)->Ok_0);
                Ok(())
            },
            CborValue::Array(items) => {
                let ghost all = contents(items@);
                proof {
                    lemma_contents_len(items@);
                }
                push_head(out, 4, items.len() as u64);
                let ghost start = out@;
                let mut i: usize = 0;
                assert(items@.take(0) =~= Seq::<CborValue>::empty());
                assert(start + Seq::<u8>::empty() =~= start);
                while i < items.len()
                    invariant
                        self == CborValue::Array(*items),
                        i <= items@.len(),
                        all == contents(items@),
                        encoded_items(contents(items@.take(i as int))) is Ok,
                        out@ == start + encoded_items(contents(items@.take(i as int)))->Ok_0,
                    decreases items@.len() - i,
                {
                    proof {
                        lemma_contents_take(items@, i as int);
                        let next = contents(items@.take(i + 1));
                        assert(next.drop_last() =~= contents(items@.take(i as int)));
                        lemma_contents_prefix(items@, i + 1);
                    }
                    match items[i].encode_into(out) {
                        Ok(()) => {
                            assert(out@ =~= start + encoded_items(
                                contents(items@.take(i + 1)),
                            )->Ok_0);
                        },
                        Err(e) => {
                            proof {
                                lemma_items_error(all, i + 1);
                            }
                            return Err(e);
                        },
                    }
                    i = i + 1;
                }
                assert(items@.take(i as int) =~= items@);
                assert(out@ =~= old(out)@ + encoded(self@)->Ok_0);
                Ok(())
            },
            CborValue::Dict(entries) => {
                let ghost all = entry_contents(entries@);
                proof {
                    lemma_entry_contents_len(entries@);
                }
                let mut pairs: Vec<(Vec<u8>, Vec<u8>)> = Vec::new();
                let mut i: usize = 0;
                assert(entries@.take(0) =~= Seq::<(CborValue, CborValue)>::empty());
                assert(pair_views(pairs@) =~= Seq::<(Seq<u8>, Seq<u8>)>::empty());
                while i < entries.len()
                    invariant
                        self == CborValue::Dict(*entries),
                        i <= entries@.len(),
                        all == entry_contents(entries@),
                        encoded_entries(entry_contents(entries@.take(i as int))) == Ok::<
                            Seq<(Seq<u8>, Seq<u8>)>,
                            CborError,
                        >(pair_views(pairs@)),
                    decreases entries@.len() - i,
                {
                    proof {
                        lemma_entry_contents_len(entries@);
                        lemma_entry_contents_take(entries@, i as int);
                        let next = entry_contents(entries@.take(i + 1));
                        assert(next.drop_last() =~= entry_contents(entries@.take(i as int)));
                        lemma_entry_contents_prefix(entries@, i + 1);
                        if encoded_entries(next) is Err {
                            lemma_entries_error(all, i + 1);
                        }
                    }
                    let mut key: Vec<u8> = Vec::new();
                    if let Err(e) = entries[i].0.encode_into(&mut key) {
                        return Err(e);
                    }
                    assert(key@ =~= encoded(content(entries@[i as int].0))->Ok_0);
                    let mut value: Vec<u8> = Vec::new();
                    if let Err(e) = entries[i].1.encode_into(&mut value) {
                        return Err(e);
                    }
                    assert(value@ =~= encoded(content(entries@[i as int].1))->Ok_0);
                    if let Err(e) = place_entry(&mut pairs, key, value) {
                        return Err(e);
                    }
                    i = i + 1;
                }
                assert(entries@.take(i as int) =~= entries@);
                push_head(out, 5, entries.len() as u64);
                let ghost start = out@;
                let ghost views = pair_views(pairs@);
                let mut j: usize = 0;
                assert(start + joined(views.take(0)) =~= start);
                while j < pairs.len()
                    invariant
                        j <= pairs@.len(),
                        views == pair_views(pairs@),
                        out@ == start + joined(views.take(j as int)),
                    decreases pairs@.len() - j,
                {
                    assert(views.take(j + 1).drop_last() =~= views.take(j as int));
                    push_all(out, pairs[j].0.as_slice());
                    push_all(out, pairs[j].1.as_slice());
                    assert(out@ =~= start + joined(views.take(j + 1)));
                    j = j + 1;
                }
                assert(views.take(j as int) =~= views);
                assert(out@ =~= old(out)@ + encoded(self@)->Ok_0);
                Ok(())
            },
            CborValue::Bool(b) => {
                out.push(if *b { 0xf5u8 } else { 0xf4u8 });
                assert(out@ =~= old(out)@ + encoded(self@)->Ok_0);
                Ok(())
            },
            CborValue::Null => {
                out.push(0xf6);
                assert(out@ =~= old(out)@ + encoded(self@)->Ok_0);
                Ok(())
            },
            CborValue::Float(bits) => {
                if is_nan(*bits) || *bits == SIGN_BIT {
                    Err(CborError::NonCanonicalFloat)
                } else {
                    push_float(out, *bits);
                    Ok(())
                }
            },
        }
    }
}

proof fn lemma_contents_prefix(items: Seq<CborValue>, i: int)
    requires
        0 <= i <= items.len(),
    ensures
        contents(items).take(i) == contents(items.take(i)),
    decreases i,
{
    lemma_contents_len(items);
    lemma_contents_len(items.take(i));
    if i == 0 {
        assert(contents(items).take(0) =~= contents(items.take(0)));
    } else {
        lemma_contents_prefix(items.drop_first(), i - 1);
        assert(items.take(i).drop_first() =~= items.drop_first().take(i - 1));
        assert(contents(items).take(i) =~= contents(items.take(i)));
    }
}

proof fn lemma_entry_contents_prefix(entries: Seq<(CborValue, CborValue)>, i: int)
    requires
        0 <= i <= entries.len(),
    ensures
        entry_contents(entries).take(i) == entry_contents(entries.take(i)),
    decreases i,
{
    lemma_entry_contents_len(entries);
    lemma_entry_contents_len(entries.take(i));
    if i == 0 {
        assert(entry_contents(entries).take(0) =~= entry_contents(entries.take(0)));
    } else {
        lemma_entry_contents_prefix(entries.drop_first(), i - 1);
        assert(entries.take(i).drop_first() =~= entries.drop_first().take(i - 1));
        assert(entry_contents(entries).take(i) =~= entry_contents(entries.take(i)));
    }
}

/// Width of the argument that follows an initial byte with this info, and the
/// least number that needs that width.
pub open spec fn argument_width(info: nat) -> Option<(nat, nat)> {
    if info == 24 {
        Some((1, 24))
    } else if info == 25 {
        Some((2, 0x100))
    } else if info == 26 {
        Some((4, 0x1_0000))
    } else if info == 27 {
        Some((8, 0x1_0000_0000))
    } else {
        None
    }
}

/// Argument of the item that starts `b`, with the length of its head.
pub open spec fn argument(b: Seq<u8>) -> Result<(nat, int), CborError> {
    let info = b[0] as nat % 32;
    if info < 24 {
        Ok((info, 1))
    } else {
        match argument_width(info) {
            None => Err(CborError::UnsupportedType),
            Some((width, least)) => if b.len() < 1 + width {
                Err(CborError::UnexpectedEnd)
            } else {
                let n = be_value(b.subrange(1, 1 + width as int));
                if n < least {
                    Err(CborError::NonCanonicalInteger)
                } else {
                    Ok((n, 1 + width as int))
                }
            },
        }
    }
}

/// A boolean, null or float that starts `b`, with its length.
pub open spec fn decoded_simple(b: Seq<u8>) -> Result<(Cbor, int), CborError> {
    if b[0] == 0xf4 {
        Ok((Cbor::Bool(false), 1))
    } else if b[0] == 0xf5 {
        Ok((Cbor::Bool(true), 1))
    } else if b[0] == 0xf6 {
        Ok((Cbor::Null, 1))
    } else if b[0] == 0xf9 {
        if b.len() < 3 {
            Err(CborError::UnexpectedEnd)
        } else {
            let bits = double_of_half(be_value(b.subrange(1, 3)) as u16);
            if canonical_float(bits) {
                Ok((Cbor::Float(bits), 3))
            } else {
                Err(CborError::NonCanonicalFloat)
            }
        }
    } else if b[0] == 0xfa {
        if b.len() < 5 {
            Err(CborError::UnexpectedEnd)
        } else {
            let bits = double_of_single(be_value(b.subrange(1, 5)) as u32);
            if canonical_float(bits) && !fits_half(bits) {
                Ok((Cbor::Float(bits), 5))
            } else {
                Err(CborError::NonCanonicalFloat)
            }
        }
    } else if b[0] == 0xfb {
        if b.len() < 9 {
            Err(CborError::UnexpectedEnd)
        } else {
            let bits = be_value(b.subrange(1, 9)) as u64;
            if canonical_float(bits) && !fits_half(bits) && !fits_single(bits) {
                Ok((Cbor::Float(bits), 9))
            } else {
                Err(CborError::NonCanonicalFloat)
            }
        }
    } else {
        Err(CborError::UnsupportedType)
    }
}

/// The item that starts `b`, with its length, or why there is none.
/// Arrays and maps nest at most `depth` deep.
pub open spec fn decoded(b: Seq<u8>, depth: nat) -> Result<(Cbor, int), CborError>
    decreases depth, 0nat,
{
    if b.len() == 0 {
        Err(CborError::UnexpectedEnd)
    } else if b[0] >= 0xe0 {
        decoded_simple(b)
    } else if b[0] >= 0xc0 {
        Err(CborError::UnsupportedType)
    } else {
        match argument(b) {
            Err(e) => Err(e),
            Ok((n, used)) => if b[0] < 0x20 {
                Ok((Cbor::Unsigned(n as u64), used))
            } else if b[0] < 0x40 {
                Ok((Cbor::Negative(n as u64), used))
            } else if b[0] < 0x60 {
                if b.len() - used < n {
                    Err(CborError::UnexpectedEnd)
                } else {
                    Ok((Cbor::Bytes(b.subrange(used, used + n)), used + n))
                }
            } else if b[0] < 0x80 {
                if b.len() - used < n {
                    Err(CborError::UnexpectedEnd)
                } else if !valid_utf8(b.subrange(used, used + n)) {
                    Err(CborError::InvalidUtf8)
                } else {
                    Ok((Cbor::Text(decode_utf8(b.subrange(used, used + n))), used + n))
                }
            } else if depth == 0 {
                Err(CborError::NestingTooDeep)
            } else if b[0] < 0xa0 {
                match decoded_items(b.skip(used), n, (depth - 1) as nat) {
                    Err(e) => Err(e),
                    Ok((items, k)) => Ok((Cbor::Array(items), used + k)),
                }
            } else {
                match decoded_entries(b.skip(used), n, (depth - 1) as nat, None) {
                    Err(e) => Err(e),
                    Ok((entries, k)) => Ok((Cbor::Dict(entries), used + k)),
                }
            },
        }
    }
}

/// The `count` items that start `b`, with their total length.
pub open spec fn decoded_items(b: Seq<u8>, count: nat, depth: nat) -> Result<
    (Seq<Cbor>, int),
    CborError,
>
    decreases depth, count,
{
    if count == 0 {
        Ok((Seq::empty(), 0))
    } else {
        match decoded(b, depth) {
            Err(e) => Err(e),
            Ok((v, k)) => match decoded_items(b.skip(k), (count - 1) as nat, depth) {
                Err(e) => Err(e),
                Ok((rest, m)) => Ok((seq![v] + rest, k + m)),
            },
        }
    }
}

/// Whether a key may follow the previous key of its map.
pub open spec fn key_follows(previous: Option<Seq<u8>>, key: Seq<u8>) -> Result<(), CborError> {
    match previous {
        None => Ok(()),
        Some(p) => if key_less(p, key) {
            Ok(())
        } else if p == key {
            Err(CborError::DuplicateKey)
        } else {
            Err(CborError::UnsortedKeys)
        },
    }
}

/// The `count` map entries that start `b`, with their total length. The first
/// key follows `previous`.
pub open spec fn decoded_entries(
    b: Seq<u8>,
    count: nat,
    depth: nat,
    previous: Option<Seq<u8>>,
) -> Result<(Seq<(Cbor, Cbor)>, int), CborError>
    decreases depth, count,
{
    if count == 0 {
        Ok((Seq::empty(), 0))
    } else {
        match decoded(b, depth) {
            Err(e) => Err(e),
            Ok((key, k)) => match key_follows(previous, b.take(k)) {
                Err(e) => Err(e),
                Ok(()) => match decoded(b.skip(k), depth) {
                    Err(e) => Err(e),
                    Ok((value, m)) => match decoded_entries(
                        b.skip(k + m),
                        (count - 1) as nat,
                        depth,
                        Some(b.take(k)),
                    ) {
                        Err(e) => Err(e),
                        Ok((rest, r)) => Ok((seq![(key, value)] + rest, k + m + r)),
                    },
                },
            },
        }
    }
}

/// The item that `b` is, with nothing after it.
pub open spec fn parsed(b: Seq<u8>) -> Result<Cbor, CborError> {
    match decoded(b, MAX_NESTING as nat) {
        Err(e) => Err(e),
        Ok((v, k)) => if k == b.len() {
            Ok(v)
        } else {
            Err(CborError::TrailingBytes)
        },
    }
}

/// The result of a decoding step that started at `at`, as the specification
/// has it.
pub open spec fn meets(
    r: Result<(CborValue, usize), CborError>,
    wanted: Result<(Cbor, int), CborError>,
    at: int,
) -> bool {
    match wanted {
        Ok((v, k)) => r matches Ok(found) && found.0@ == v && found.1 == at + k,
        Err(e) => r == Err::<(CborValue, usize), CborError>(e),
    }
}

proof fn lemma_argument_len(b: Seq<u8>)
    requires
        b.len() > 0,
    ensures
        argument(b) matches Ok((n, used)) ==> 1 <= used <= b.len() && n <= u64::MAX,
{
    crate::bytes::lemma_span_small();
    let info = b[0] as nat % 32;
    if argument(b) is Ok && info >= 24 {
        let width = argument_width(info)->Some_0.0;
        crate::bytes::lemma_be_value_bound(b.subrange(1, 1 + width as int));
    }
}

/// A decoded item is not empty and lies within its input.
pub proof fn lemma_decoded_len(b: Seq<u8>, depth: nat)
    ensures
        decoded(b, depth) matches Ok((v, k)) ==> 1 <= k <= b.len(),
    decreases depth, 0nat,
{
    if b.len() > 0 && b[0] < 0xc0 {
        lemma_argument_len(b);
        if argument(b) is Ok && depth > 0 {
            let (n, used) = argument(b)->Ok_0;
            lemma_decoded_items_len(b.skip(used), n, (depth - 1) as nat);
            lemma_decoded_entries_len(b.skip(used), n, (depth - 1) as nat, None);
        }
    }
}

proof fn lemma_decoded_items_len(b: Seq<u8>, count: nat, depth: nat)
    ensures
        decoded_items(b, count, depth) matches Ok((v, k)) ==> 0 <= k <= b.len(),
    decreases depth, count,
{
    if count > 0 {
        lemma_decoded_len(b, depth);
        if let Ok((v, k)) = decoded(b, depth) {
            lemma_decoded_items_len(b.skip(k), (count - 1) as nat, depth);
        }
    }
}

proof fn lemma_decoded_entries_len(
    b: Seq<u8>,
    count: nat,
    depth: nat,
    previous: Option<Seq<u8>>,
)
    ensures
        decoded_entries(b, count, depth, previous) matches Ok((v, k)) ==> 0 <= k <= b.len(),
    decreases depth, count,
{
    if count > 0 {
        lemma_decoded_len(b, depth);
        if let Ok((key, k)) = decoded(b, depth) {
            lemma_decoded_len(b.skip(k), depth);
            if let Ok((value, m)) = decoded(b.skip(k), depth) {
                lemma_decoded_entries_len(
                    b.skip(k + m),
                    (count - 1) as nat,
                    depth,
                    Some(b.take(k)),
                );
            }
        }
    }
}

/// A copy of part of the input.
pub(crate) fn copy_range(input: &[u8], from: usize, to: usize) -> (out: Vec<u8>)
    requires
        from <= to <= input@.len(),
    ensures
        out@ == input@.subrange(from as int, to as int),
{
    let mut out: Vec<u8> = Vec::new();
    let mut i: usize = from;
    while i < to
        invariant
            from <= i <= to <= input@.len(),
            out@ == input@.subrange(from as int, i as int),
        decreases to - i,
    {
        out.push(input[i]);
        i = i + 1;
        assert(out@ =~= input@.subrange(from as int, i as int));
    }
    out
}

/// Read the argument of the item at `at`.
fn read_argument(input: &[u8], at: usize) -> (r: Result<(u64, usize), CborError>)
    requires
        at < input@.len(),
    ensures
        match argument(input@.skip(at as int)) {
            Ok((n, used)) => r matches Ok(found) && found.0 == n && found.1 == at + used,
            Err(e) => r == Err::<(u64, usize), CborError>(e),
        },
{
    let ghost b = input@.skip(at as int);
    let total: usize = input.len();
    let info: u8 = input[at] % 32;
    assert(b[0] == input@[at as int]);
    if info < 24 {
        return Ok((info as u64, at + 1));
    }
    let (width, least): (usize, u64) = if info == 24 {
        (1, 24)
    } else if info == 25 {
        (2, 0x100)
    } else if info == 26 {
        (4, 0x1_0000)
    } else if info == 27 {
        (8, 0x1_0000_0000)
    } else {
        return Err(CborError::UnsupportedType);
    };
    if total - at - 1 < width {
        return Err(CborError::UnexpectedEnd);
    }
    let n: u64 = read_be(input, at + 1, width);
    assert(input@.subrange(at + 1, at + 1 + width) =~= b.subrange(1, 1 + width));
    if n < least {
        Err(CborError::NonCanonicalInteger)
    } else {
        Ok((n, at + 1 + width))
    }
}

/// Read the boolean, null or float at `at`.
fn read_simple(input: &[u8], at: usize) -> (r: Result<(CborValue, usize), CborError>)
    requires
        at < input@.len(),
    ensures
        meets(r, decoded_simple(input@.skip(at as int)), at as int),
{
    let ghost b = input@.skip(at as int);
    let total: usize = input.len();
    let first: u8 = input[at];
    assert(b[0] == first);
    proof {
        crate::bytes::lemma_span_small();
    }
    if first == 0xf4 {
        Ok((CborValue::Bool(false), at + 1))
    } else if first == 0xf5 {
        Ok((CborValue::Bool(true), at + 1))
    } else if first == 0xf6 {
        Ok((CborValue::Null, at + 1))
    } else if first == 0xf9 {
        if total - at < 3 {
            return Err(CborError::UnexpectedEnd);
        }
        assert(input@.subrange(at + 1, at + 3) =~= b.subrange(1, 3));
        proof {
            crate::bytes::lemma_be_value_bound(b.subrange(1, 3));
        }
        let bits: u64 = widen_single(widen_half(read_be(input, at + 1, 2) as u16));
        if is_nan(bits) || bits == SIGN_BIT {
            Err(CborError::NonCanonicalFloat)
        } else {
            Ok((CborValue::Float(bits), at + 3))
        }
    } else if first == 0xfa {
        if total - at < 5 {
            return Err(CborError::UnexpectedEnd);
        }
        assert(input@.subrange(at + 1, at + 5) =~= b.subrange(1, 5));
        proof {
            crate::bytes::lemma_be_value_bound(b.subrange(1, 5));
        }
        let bits: u64 = widen_single(read_be(input, at + 1, 4) as u32);
        if is_nan(bits) || bits == SIGN_BIT || narrow_half(bits).is_some() {
            Err(CborError::NonCanonicalFloat)
        } else {
            Ok((CborValue::Float(bits), at + 5))
        }
    } else if first == 0xfb {
        if total - at < 9 {
            return Err(CborError::UnexpectedEnd);
        }
        assert(input@.subrange(at + 1, at + 9) =~= b.subrange(1, 9));
        proof {
            crate::bytes::lemma_be_value_bound(b.subrange(1, 9));
        }
        let bits: u64 = read_be(input, at + 1, 8);
        if is_nan(bits) || bits == SIGN_BIT || narrow_half(bits).is_some() || narrow_single(
            bits,
        ).is_some() {
            Err(CborError::NonCanonicalFloat)
        } else {
            Ok((CborValue::Float(bits), at + 9))
        }
    } else {
        Err(CborError::UnsupportedType)
    }
}

/// Items already read, followed by what the rest of the input gives.
pub open spec fn after_items(
    done: Seq<Cbor>,
    used: int,
    rest: Result<(Seq<Cbor>, int), CborError>,
) -> Result<(Seq<Cbor>, int), CborError> {
    match rest {
        Ok((items, k)) => Ok((done + items, used + k)),
        Err(e) => Err(e),
    }
}

/// Entries already read, followed by what the rest of the input gives.
pub open spec fn after_entries(
    done: Seq<(Cbor, Cbor)>,
    used: int,
    rest: Result<(Seq<(Cbor, Cbor)>, int), CborError>,
) -> Result<(Seq<(Cbor, Cbor)>, int), CborError> {
    match rest {
        Ok((entries, k)) => Ok((done + entries, used + k)),
        Err(e) => Err(e),
    }
}

proof fn lemma_contents_push(items: Seq<CborValue>, v: CborValue)
    ensures
        contents(items.push(v)) == contents(items).push(content(v)),
{
    let all = items.push(v);
    lemma_contents_take(all, items.len() as int);
    assert(all.take(items.len() as int) =~= items);
    assert(all.take(items.len() as int + 1) =~= all);
}

proof fn lemma_entry_contents_push(entries: Seq<(CborValue, CborValue)>, e: (CborValue, CborValue))
    ensures
        entry_contents(entries.push(e)) == entry_contents(entries).push(
            (content(e.0), content(e.1)),
        ),
{
    let all = entries.push(e);
    lemma_entry_contents_take(all, entries.len() as int);
    assert(all.take(entries.len() as int) =~= entries);
    assert(all.take(entries.len() as int + 1) =~= all);
}

/// Read the item at `at`.
fn read_value(input: &[u8], at: usize, depth: usize) -> (r: Result<(CborValue, usize), CborError>)
    requires
        at <= input@.len(),
    ensures
        meets(r, decoded(input@.skip(at as int), depth as nat), at as int),
    decreases depth, 0nat,
{
    let ghost b = input@.skip(at as int);
    let total: usize = input.len();
    if at == total {
        return Err(CborError::UnexpectedEnd);
    }
    let first: u8 = input[at];
    assert(b[0] == first);
    if first >= 0xe0 {
        return read_simple(input, at);
    }
    if first >= 0xc0 {
        return Err(CborError::UnsupportedType);
    }
    proof {
        lemma_argument_len(b);
    }
    let (n, start): (u64, usize) = match read_argument(input, at) {
        Err(e) => return Err(e),
        Ok(found) => found,
    };
    let ghost used = start - at;
    if first < 0x20 {
        return Ok((CborValue::Unsigned(n), start));
    }
    if first < 0x40 {
        return Ok((CborValue::Negative(n), start));
    }
    if first < 0x80 {
        if ((total - start) as u64) < n {
            return Err(CborError::UnexpectedEnd);
        }
        let end: usize = start + n as usize;
        let bytes: Vec<u8> = copy_range(input, start, end);
        assert(bytes@ =~= b.subrange(used, used + n));
        if first < 0x60 {
            return Ok((CborValue::Bytes(bytes), end));
        }
        return match text_of_utf8(bytes) {
            Ok(text) => Ok((CborValue::Text(text), end)),
            Err(_) => Err(CborError::InvalidUtf8),
        };
    }
    if depth == 0 {
        return Err(CborError::NestingTooDeep);
    }
    assert(input@.skip(start as int) =~= b.skip(used));
    if first < 0xa0 {
        match read_items(input, start, n, depth - 1) {
            Ok((items, end)) => Ok((CborValue::Array(items), end)),
            Err(e) => Err(e),
        }
    } else {
        match read_entries(input, start, n, depth - 1) {
            Ok((entries, end)) => Ok((CborValue::Dict(entries), end)),
            Err(e) => Err(e),
        }
    }
}

/// Read `count` items from `at` on.
fn read_items(input: &[u8], at: usize, count: u64, depth: usize) -> (r: Result<
    (Vec<CborValue>, usize),
    CborError,
>)
    requires
        at <= input@.len(),
    ensures
        match decoded_items(input@.skip(at as int), count as nat, depth as nat) {
            Ok((items, k)) => r matches Ok(found) && contents(found.0@) == items && found.1 == at
                + k,
            Err(e) => r == Err::<(Vec<CborValue>, usize), CborError>(e),
        },
    decreases depth, 1nat,
{
    let ghost wanted = decoded_items(input@.skip(at as int), count as nat, depth as nat);
    let mut items: Vec<CborValue> = Vec::new();
    let mut position: usize = at;
    let mut left: u64 = count;
    assert(after_items(contents(items@), 0, wanted) == wanted) by {
        if let Ok((v, k)) = wanted {
            assert(contents(items@) + v =~= v);
        }
    }
    while left > 0
        invariant
            at <= position <= input@.len(),
            wanted == decoded_items(input@.skip(at as int), count as nat, depth as nat),
            wanted == after_items(
                contents(items@),
                position - at,
                decoded_items(input@.skip(position as int), left as nat, depth as nat),
            ),
        decreases left,
    {
        let ghost c = input@.skip(position as int);
        let ghost before = items@;
        proof {
            lemma_decoded_len(c, depth as nat);
        }
        match read_value(input, position, depth) {
            Err(e) => return Err(e),
            Ok((v, end)) => {
                proof {
                    lemma_contents_push(items@, v);
                    let k = end - position;
                    assert(c.skip(k) =~= input@.skip(end as int));
                    if let Ok((rest, m)) = decoded_items(c.skip(k), (left - 1) as nat, depth as nat) {
                        assert(contents(before) + (seq![v@] + rest) =~= contents(before).push(v@)
                            + rest);
                    }
                }
                items.push(v);
                position = end;
            },
        }
        left = left - 1;
    }
    assert(contents(items@) + Seq::<Cbor>::empty() =~= contents(items@));
    Ok((items, position))
}

/// Read `count` map entries from `at` on.
fn read_entries(input: &[u8], at: usize, count: u64, depth: usize) -> (r: Result<
    (Vec<(CborValue, CborValue)>, usize),
    CborError,
>)
    requires
        at <= input@.len(),
    ensures
        match decoded_entries(input@.skip(at as int), count as nat, depth as nat, None) {
            Ok((entries, k)) => r matches Ok(found) && entry_contents(found.0@) == entries
                && found.1 == at + k,
            Err(e) => r == Err::<(Vec<(CborValue, CborValue)>, usize), CborError>(e),
        },
    decreases depth, 1nat,
{
    let ghost wanted = decoded_entries(input@.skip(at as int), count as nat, depth as nat, None);
    let mut entries: Vec<(CborValue, CborValue)> = Vec::new();
    let mut position: usize = at;
    let mut left: u64 = count;
    let mut previous: Option<(usize, usize)> = None;
    let ghost mut last: Option<Seq<u8>> = None;
    assert(after_entries(entry_contents(entries@), 0, wanted) == wanted) by {
        if let Ok((v, k)) = wanted {
            assert(entry_contents(entries@) + v =~= v);
        }
    }
    while left > 0
        invariant
            at <= position <= input@.len(),
            wanted == decoded_entries(input@.skip(at as int), count as nat, depth as nat, None),
            match previous {
                None => last is None,
                Some((from, to)) => from <= to <= input@.len() && last == Some(
                    input@.subrange(from as int, to as int),
                ),
            },
            wanted == after_entries(
                entry_contents(entries@),
                position - at,
                decoded_entries(input@.skip(position as int), left as nat, depth as nat, last),
            ),
        decreases left,
    {
        let ghost c = input@.skip(position as int);
        let ghost before = entries@;
        proof {
            lemma_decoded_len(c, depth as nat);
        }
        let (key, middle): (CborValue, usize) = match read_value(input, position, depth) {
            Err(e) => return Err(e),
            Ok(found) => found,
        };
        let ghost k = middle - position;
        assert(c.take(k) =~= input@.subrange(position as int, middle as int));
        if let Some((from, to)) = previous {
            let old_key: Vec<u8> = copy_range(input, from, to);
            let new_key: Vec<u8> = copy_range(input, position, middle);
            if !is_key_less(old_key.as_slice(), new_key.as_slice()) {
                if same_bytes(old_key.as_slice(), new_key.as_slice()) {
                    return Err(CborError::DuplicateKey);
                }
                return Err(CborError::UnsortedKeys);
            }
        }
        assert(c.skip(k) =~= input@.skip(middle as int));
        proof {
            lemma_decoded_len(c.skip(k), depth as nat);
        }
        let (value, end): (CborValue, usize) = match read_value(input, middle, depth) {
            Err(e) => return Err(e),
            Ok(found) => found,
        };
        proof {
            let m = end - middle;
            assert(c.skip(k + m) =~= input@.skip(end as int));
            lemma_entry_contents_push(entries@, (key, value));
            if let Ok((rest, r)) = decoded_entries(
                c.skip(k + m),
                (left - 1) as nat,
                depth as nat,
                Some(c.take(k)),
            ) {
                assert(entry_contents(before) + (seq![(key@, value@)] + rest) =~= entry_contents(
                    before,
                ).push((key@, value@)) + rest);
            }
            last = Some(c.take(k));
        }
        entries.push((key, value));
        previous = Some((position, middle));
        position = end;
        left = left - 1;
    }
    assert(entry_contents(entries@) + Seq::<(Cbor, Cbor)>::empty() =~= entry_contents(entries@));
    Ok((entries, position))
}

impl CborValue {
    /// The item that the input is, provided the input is canonical.
    pub fn from_canonical_bytes(input: &[u8]) -> (r: Result<CborValue, CborError>)
        ensures
            match parsed(input@) {
                Ok(v) => r matches Ok(found) && found@ == v,
                Err(e) => r == Err::<CborValue, CborError>(e),
            },
    {
        assert(input@.skip(0) =~= input@);
        match read_value(input, 0, MAX_NESTING) {
            Err(e) => Err(e),
            Ok((v, end)) => {
                if end == input.len() {
                    Ok(v)
                } else {
                    Err(CborError::TrailingBytes)
                }
            },
        }
    }
}

/// Canonical bytes of an item that has them.
pub open spec fn bytes_of(v: Cbor) -> Seq<u8> {
    encoded(v)->Ok_0
}

/// An item in canonical form: floats and lengths are representable, map keys
/// strictly ascend, and nesting is at most `depth`.
pub open spec fn canonical(v: Cbor, depth: nat) -> bool
    decreases v,
{
    match v {
        Cbor::Bytes(b) => b.len() <= u64::MAX,
        Cbor::Text(s) => encode_utf8(s).len() <= u64::MAX,
        Cbor::Float(bits) => canonical_float(bits),
        Cbor::Array(items) => depth > 0 && items.len() <= u64::MAX && canonical_items(
            items,
            (depth - 1) as nat,
        ),
        Cbor::Dict(entries) => depth > 0 && entries.len() <= u64::MAX && canonical_entries(
            entries,
            (depth - 1) as nat,
            None,
        ),
        _ => true,
    }
}

/// Every item is in canonical form.
pub open spec fn canonical_items(items: Seq<Cbor>, depth: nat) -> bool
    decreases items,
{
    items.len() == 0 || (canonical(items[0], depth) && canonical_items(items.drop_first(), depth))
}

/// Every key and value is in canonical form, and each key follows the one
/// before it, the first one `previous`.
pub open spec fn canonical_entries(
    entries: Seq<(Cbor, Cbor)>,
    depth: nat,
    previous: Option<Seq<u8>>,
) -> bool
    decreases entries,
{
    entries.len() == 0 || {
        &&& canonical(entries[0].0, depth)
        &&& canonical(entries[0].1, depth)
        &&& key_follows(previous, bytes_of(entries[0].0)) is Ok
        &&& canonical_entries(entries.drop_first(), depth, Some(bytes_of(entries[0].0)))
    }
}

/// Encoded items one after the other, from the front.
pub open spec fn chained(items: Seq<Cbor>) -> Seq<u8>
    decreases items.len(),
{
    if items.len() == 0 {
        Seq::empty()
    } else {
        bytes_of(items[0]) + chained(items.drop_first())
    }
}

/// Encoded entries in the given order.
spec fn plain_pairs(entries: Seq<(Cbor, Cbor)>) -> Seq<(Seq<u8>, Seq<u8>)> {
    entries.map_values(|e: (Cbor, Cbor)| (bytes_of(e.0), bytes_of(e.1)))
}

/// Encoded entries one after the other, from the front.
pub open spec fn chained_entries(entries: Seq<(Cbor, Cbor)>) -> Seq<u8>
    decreases entries.len(),
{
    if entries.len() == 0 {
        Seq::empty()
    } else {
        bytes_of(entries[0].0) + bytes_of(entries[0].1) + chained_entries(entries.drop_first())
    }
}

proof fn lemma_chained_push(items: Seq<Cbor>, v: Cbor)
    ensures
        chained(items.push(v)) == chained(items) + bytes_of(v),
    decreases items.len(),
{
    let all = items.push(v);
    if items.len() == 0 {
        assert(all.drop_first() =~= Seq::<Cbor>::empty());
        assert(chained(all.drop_first()) =~= Seq::<u8>::empty());
        assert(chained(all) =~= chained(items) + bytes_of(v));
    } else {
        lemma_chained_push(items.drop_first(), v);
        assert(all.drop_first() =~= items.drop_first().push(v));
        assert(chained(all) =~= chained(items) + bytes_of(v));
    }
}

proof fn lemma_chained_entries_push(entries: Seq<(Cbor, Cbor)>, e: (Cbor, Cbor))
    ensures
        chained_entries(entries.push(e)) == chained_entries(entries) + bytes_of(e.0) + bytes_of(
            e.1,
        ),
    decreases entries.len(),
{
    let all = entries.push(e);
    if entries.len() == 0 {
        assert(all.drop_first() =~= Seq::<(Cbor, Cbor)>::empty());
        assert(chained_entries(all.drop_first()) =~= Seq::<u8>::empty());
        assert(chained_entries(all) =~= chained_entries(entries) + bytes_of(e.0) + bytes_of(e.1));
    } else {
        lemma_chained_entries_push(entries.drop_first(), e);
        assert(all.drop_first() =~= entries.drop_first().push(e));
        assert(chained_entries(all) =~= chained_entries(entries) + bytes_of(e.0) + bytes_of(e.1));
    }
}

proof fn lemma_encoded_items_chained(items: Seq<Cbor>)
    requires
        forall|i: int| 0 <= i < items.len() ==> encoded(#[trigger] items[i]) is Ok,
    ensures
        encoded_items(items) == Ok::<Seq<u8>, CborError>(chained(items)),
    decreases items.len(),
{
    if items.len() > 0 {
        assert forall|i: int| 0 <= i < items.len() - 1 implies encoded(
            #[trigger] items.drop_last()[i],
        ) is Ok by {
            assert(items.drop_last()[i] == items[i]);
        }
        lemma_encoded_items_chained(items.drop_last());
        lemma_chained_push(items.drop_last(), items.last());
        assert(items.drop_last().push(items.last()) =~= items);
        assert(items.last() == items[items.len() - 1]);
    }
}

proof fn lemma_key_less_transitive(a: Seq<u8>, b: Seq<u8>, c: Seq<u8>)
    requires
        key_less(a, b),
        key_less(b, c),
    ensures
        key_less(a, c),
{
    if a.len() == b.len() && b.len() == c.len() {
        crate::bytes::lemma_lex_transitive(a, b, c);
    }
}

/// The entries of a canonical map are canonical and their keys ascend.
proof fn lemma_entries_sorted(
    entries: Seq<(Cbor, Cbor)>,
    depth: nat,
    previous: Option<Seq<u8>>,
)
    requires
        canonical_entries(entries, depth, previous),
    ensures
        forall|i: int|
            0 <= i < entries.len() ==> canonical((#[trigger] entries[i]).0, depth) && canonical(
                entries[i].1,
                depth,
            ),
        forall|i: int, j: int|
            0 <= i < j < entries.len() ==> key_less(
                bytes_of((#[trigger] entries[i]).0),
                bytes_of((#[trigger] entries[j]).0),
            ),
        previous matches Some(p) ==> forall|i: int|
            0 <= i < entries.len() ==> key_less(p, bytes_of((#[trigger] entries[i]).0)),
    decreases entries.len(),
{
    if entries.len() > 0 {
        let rest = entries.drop_first();
        let first = bytes_of(entries[0].0);
        lemma_entries_sorted(rest, depth, Some(first));
        assert forall|i: int| 0 <= i < entries.len() implies canonical(
            (#[trigger] entries[i]).0,
            depth,
        ) && canonical(entries[i].1, depth) by {
            if i > 0 {
                assert(entries[i] == rest[i - 1]);
            }
        }
        assert forall|i: int, j: int| 0 <= i < j < entries.len() implies key_less(
            bytes_of((#[trigger] entries[i]).0),
            bytes_of((#[trigger] entries[j]).0),
        ) by {
            assert(entries[j] == rest[j - 1]);
            if i > 0 {
                assert(entries[i] == rest[i - 1]);
            }
        }
        if let Some(p) = previous {
            assert forall|i: int| 0 <= i < entries.len() implies key_less(
                p,
                bytes_of((#[trigger] entries[i]).0),
            ) by {
                if i > 0 {
                    assert(entries[i] == rest[i - 1]);
                    lemma_key_less_transitive(p, first, bytes_of(entries[i].0));
                }
            }
        }
    }
}

proof fn lemma_slot_at_end(pairs: Seq<(Seq<u8>, Seq<u8>)>, key: Seq<u8>)
    requires
        forall|i: int| 0 <= i < pairs.len() ==> key_less((#[trigger] pairs[i]).0, key),
    ensures
        slot(pairs, key) == pairs.len(),
    decreases pairs.len(),
{
    if pairs.len() > 0 {
        assert(key_less(pairs[0].0, key));
        assert forall|i: int| 0 <= i < pairs.len() - 1 implies key_less(
            (#[trigger] pairs.drop_first()[i]).0,
            key,
        ) by {
            assert(pairs.drop_first()[i] == pairs[i + 1]);
        }
        lemma_slot_at_end(pairs.drop_first(), key);
    }
}

/// Entries whose keys ascend are encoded in the order in which they stand.
proof fn lemma_encoded_entries_plain(entries: Seq<(Cbor, Cbor)>)
    requires
        forall|i: int|
            0 <= i < entries.len() ==> encoded((#[trigger] entries[i]).0) is Ok && encoded(
                entries[i].1,
            ) is Ok,
        forall|i: int, j: int|
            0 <= i < j < entries.len() ==> key_less(
                bytes_of((#[trigger] entries[i]).0),
                bytes_of((#[trigger] entries[j]).0),
            ),
    ensures
        encoded_entries(entries) == Ok::<Seq<(Seq<u8>, Seq<u8>)>, CborError>(plain_pairs(entries)),
        joined(plain_pairs(entries)) == chained_entries(entries),
    decreases entries.len(),
{
    if entries.len() == 0 {
        assert(plain_pairs(entries) =~= Seq::<(Seq<u8>, Seq<u8>)>::empty());
    } else {
        let front = entries.drop_last();
        let last = entries.last();
        assert forall|i: int| 0 <= i < front.len() implies encoded((#[trigger] front[i]).0) is Ok
            && encoded(front[i].1) is Ok by {
            assert(front[i] == entries[i]);
        }
        assert forall|i: int, j: int| 0 <= i < j < front.len() implies key_less(
            bytes_of((#[trigger] front[i]).0),
            bytes_of((#[trigger] front[j]).0),
        ) by {
            assert(front[i] == entries[i]);
            assert(front[j] == entries[j]);
        }
        lemma_encoded_entries_plain(front);
        let key = bytes_of(last.0);
        let pairs = plain_pairs(front);
        assert(last == entries[entries.len() - 1]);
        assert forall|i: int| 0 <= i < pairs.len() implies key_less((#[trigger] pairs[i]).0, key) by {
            assert(front[i] == entries[i]);
        }
        lemma_slot_at_end(pairs, key);
        assert(pairs.insert(pairs.len() as int, (key, bytes_of(last.1))) =~= plain_pairs(entries));
        assert(plain_pairs(entries).drop_last() =~= pairs);
        lemma_chained_entries_push(front, last);
        assert(front.push(last) =~= entries);
    }
}

/// Every canonical item has canonical bytes.
pub proof fn lemma_canonical_encodes(v: Cbor, depth: nat)
    requires
        canonical(v, depth),
    ensures
        encoded(v) is Ok,
        v matches Cbor::Array(items) ==> bytes_of(v) == head(4, items.len()) + chained(items),
        v matches Cbor::Dict(entries) ==> bytes_of(v) == head(5, entries.len()) + chained_entries(
            entries,
        ),
    decreases v,
{
    match v {
        Cbor::Array(items) => {
            lemma_canonical_items_encode(items, (depth - 1) as nat);
            lemma_encoded_items_chained(items);
        },
        Cbor::Dict(entries) => {
            lemma_canonical_entries_encode(entries, (depth - 1) as nat, None);
            lemma_entries_sorted(entries, (depth - 1) as nat, None);
            lemma_encoded_entries_plain(entries);
        },
        _ => {},
    }
}

proof fn lemma_canonical_items_encode(items: Seq<Cbor>, depth: nat)
    requires
        canonical_items(items, depth),
    ensures
        forall|i: int| 0 <= i < items.len() ==> encoded(#[trigger] items[i]) is Ok,
    decreases items,
{
    if items.len() > 0 {
        lemma_canonical_encodes(items[0], depth);
        lemma_canonical_items_encode(items.drop_first(), depth);
        assert forall|i: int| 0 <= i < items.len() implies encoded(#[trigger] items[i]) is Ok by {
            if i > 0 {
                assert(items[i] == items.drop_first()[i - 1]);
            }
        }
    }
}

proof fn lemma_canonical_entries_encode(
    entries: Seq<(Cbor, Cbor)>,
    depth: nat,
    previous: Option<Seq<u8>>,
)
    requires
        canonical_entries(entries, depth, previous),
    ensures
        forall|i: int|
            0 <= i < entries.len() ==> encoded((#[trigger] entries[i]).0) is Ok && encoded(
                entries[i].1,
            ) is Ok,
    decreases entries,
{
    if entries.len() > 0 {
        lemma_canonical_encodes(entries[0].0, depth);
        lemma_canonical_encodes(entries[0].1, depth);
        lemma_canonical_entries_encode(
            entries.drop_first(),
            depth,
            Some(bytes_of(entries[0].0)),
        );
        assert forall|i: int| 0 <= i < entries.len() implies encoded(
            (#[trigger] entries[i]).0,
        ) is Ok && encoded(entries[i].1) is Ok by {
            if i > 0 {
                assert(entries[i] == entries.drop_first()[i - 1]);
            }
        }
    }
}

/// A head reads back as its argument.
proof fn lemma_argument_of_head(major: nat, n: nat, rest: Seq<u8>)
    requires
        major < 6,
        n <= u64::MAX,
    ensures
        head(major, n).len() >= 1,
        (head(major, n) + rest)[0] as nat / 32 == major,
        argument(head(major, n) + rest) == Ok::<(nat, int), CborError>(
            (n, head(major, n).len() as int),
        ),
{
    crate::bytes::lemma_span_small();
    let h = head(major, n);
    let b = h + rest;
    let width: nat = if n < 24 {
        0
    } else if n < 0x100 {
        1
    } else if n < 0x1_0000 {
        2
    } else if n < 0x1_0000_0000 {
        4
    } else {
        8
    };
    if width > 0 {
        crate::bytes::lemma_be_len(n, width);
        crate::bytes::lemma_be_value_of_be(n, width);
        assert(b.subrange(1, 1 + width as int) =~= be(n, width));
    }
}

/// What reads as a head is the head of its argument.
proof fn lemma_argument_is_head(b: Seq<u8>)
    requires
        b.len() > 0,
        b[0] < 0xc0,
        argument(b) is Ok,
    ensures
        ({
            let (n, used) = argument(b)->Ok_0;
            head(b[0] as nat / 32, n) == b.take(used)
        }),
{
    crate::bytes::lemma_span_small();
    lemma_argument_len(b);
    let (n, used) = argument(b)->Ok_0;
    let info = b[0] as nat % 32;
    let major = b[0] as nat / 32;
    if info < 24 {
        assert(head(major, n) =~= b.take(used));
    } else {
        let (width, least) = argument_width(info)->Some_0;
        let field = b.subrange(1, 1 + width as int);
        crate::bytes::lemma_be_value_bound(field);
        crate::bytes::lemma_be_of_be_value(field);
        assert(initial(major, info) + field =~= b.take(used));
    }
}

/// The narrowest form of a float reads back as the float.
proof fn lemma_decode_of_float(bits: u64, rest: Seq<u8>)
    requires
        canonical_float(bits),
    ensures
        float_bytes(bits)[0] >= 0xe0,
        float_bytes(bits).len() > 0,
        decoded_simple(float_bytes(bits) + rest) == Ok::<(Cbor, int), CborError>(
            (Cbor::Float(bits), float_bytes(bits).len() as int),
        ),
{
    let b = float_bytes(bits) + rest;
    crate::bytes::lemma_span_small();
    if fits_half(bits) {
        let h = choose|h: u16| double_of_half(h) == bits;
        crate::bytes::lemma_be_len(h as nat, 2);
        crate::bytes::lemma_be_value_of_be(h as nat, 2);
        assert(b.subrange(1, 3) =~= be(h as nat, 2));
    } else if fits_single(bits) {
        let s = choose|s: u32| double_of_single(s) == bits;
        crate::bytes::lemma_be_len(s as nat, 4);
        crate::bytes::lemma_be_value_of_be(s as nat, 4);
        assert(b.subrange(1, 5) =~= be(s as nat, 4));
    } else {
        crate::bytes::lemma_be_len(bits as nat, 8);
        crate::bytes::lemma_be_value_of_be(bits as nat, 8);
        assert(b.subrange(1, 9) =~= be(bits as nat, 8));
    }
}

proof fn lemma_decode_of_bytes(s: Seq<u8>, rest: Seq<u8>, depth: nat)
    requires
        s.len() <= u64::MAX,
    ensures
        decoded(head(2, s.len()) + s + rest, depth) == Ok::<(Cbor, int), CborError>(
            (Cbor::Bytes(s), (head(2, s.len()) + s).len() as int),
        ),
{
    let h = head(2, s.len());
    let b = h + s + rest;
    lemma_argument_of_head(2, s.len(), s + rest);
    assert(b =~= h + (s + rest));
    let used = h.len() as int;
    assert(b.subrange(used, used + s.len()) =~= s);
}

proof fn lemma_decode_of_text(t: Seq<char>, rest: Seq<u8>, depth: nat)
    requires
        encode_utf8(t).len() <= u64::MAX,
    ensures
        decoded(head(3, encode_utf8(t).len()) + encode_utf8(t) + rest, depth) == Ok::<
            (Cbor, int),
            CborError,
        >((Cbor::Text(t), (head(3, encode_utf8(t).len()) + encode_utf8(t)).len() as int)),
{
    let s = encode_utf8(t);
    let h = head(3, s.len());
    let b = h + s + rest;
    lemma_argument_of_head(3, s.len(), s + rest);
    assert(b =~= h + (s + rest));
    let used = h.len() as int;
    assert(b.subrange(used, used + s.len()) =~= s);
    vstd::utf8::encode_utf8_valid_utf8(t);
    vstd::utf8::encode_utf8_decode_utf8(t);
}

/// Reading back the canonical bytes of an item gives the item and its length,
/// whatever follows them.
pub proof fn lemma_decode_of_encode(v: Cbor, rest: Seq<u8>, depth: nat)
    requires
        canonical(v, depth),
    ensures
        decoded(bytes_of(v) + rest, depth) == Ok::<(Cbor, int), CborError>(
            (v, bytes_of(v).len() as int),
        ),
    decreases v,
{
    lemma_canonical_encodes(v, depth);
    let b = bytes_of(v) + rest;
    match v {
        Cbor::Unsigned(n) => {
            lemma_argument_of_head(0, n as nat, rest);
        },
        Cbor::Negative(n) => {
            lemma_argument_of_head(1, n as nat, rest);
        },
        Cbor::Bytes(s) => {
            lemma_decode_of_bytes(s, rest, depth);
        },
        Cbor::Text(t) => {
            lemma_decode_of_text(t, rest, depth);
        },
        Cbor::Array(items) => {
            let tail = chained(items) + rest;
            lemma_argument_of_head(4, items.len(), tail);
            assert(b =~= head(4, items.len()) + tail);
            let used = head(4, items.len()).len() as int;
            assert(b.skip(used) =~= tail);
            lemma_decode_of_items(items, rest, (depth - 1) as nat);
        },
        Cbor::Dict(entries) => {
            let tail = chained_entries(entries) + rest;
            lemma_argument_of_head(5, entries.len(), tail);
            assert(b =~= head(5, entries.len()) + tail);
            let used = head(5, entries.len()).len() as int;
            assert(b.skip(used) =~= tail);
            lemma_decode_of_entries(entries, rest, (depth - 1) as nat, None);
        },
        Cbor::Bool(_) => {},
        Cbor::Null => {},
        Cbor::Float(bits) => {
            lemma_decode_of_float(bits, rest);
        },
    }
}

proof fn lemma_decode_of_items(items: Seq<Cbor>, rest: Seq<u8>, depth: nat)
    requires
        canonical_items(items, depth),
    ensures
        decoded_items(chained(items) + rest, items.len(), depth) == Ok::<
            (Seq<Cbor>, int),
            CborError,
        >((items, chained(items).len() as int)),
    decreases items,
{
    if items.len() == 0 {
        assert(items =~= Seq::<Cbor>::empty());
    } else {
        let tail = chained(items.drop_first()) + rest;
        let b = chained(items) + rest;
        assert(b =~= bytes_of(items[0]) + tail);
        lemma_decode_of_encode(items[0], tail, depth);
        lemma_decode_of_items(items.drop_first(), rest, depth);
        let k = bytes_of(items[0]).len() as int;
        assert(b.skip(k) =~= tail);
        assert(seq![items[0]] + items.drop_first() =~= items);
    }
}

#[verifier::rlimit(60)]
#[verifier::spinoff_prover]
proof fn lemma_decode_of_entries(
    entries: Seq<(Cbor, Cbor)>,
    rest: Seq<u8>,
    depth: nat,
    previous: Option<Seq<u8>>,
)
    requires
        canonical_entries(entries, depth, previous),
    ensures
        decoded_entries(chained_entries(entries) + rest, entries.len(), depth, previous) == Ok::<
            (Seq<(Cbor, Cbor)>, int),
            CborError,
        >((entries, chained_entries(entries).len() as int)),
    decreases entries,
{
    if entries.len() == 0 {
        assert(entries =~= Seq::<(Cbor, Cbor)>::empty());
    } else {
        let key = bytes_of(entries[0].0);
        let value = bytes_of(entries[0].1);
        let tail = chained_entries(entries.drop_first()) + rest;
        let b = chained_entries(entries) + rest;
        assert(b =~= key + (value + tail));
        lemma_decode_of_encode(entries[0].0, value + tail, depth);
        let k = key.len() as int;
        assert(b.take(k) =~= key);
        assert(b.skip(k) =~= value + tail);
        lemma_decode_of_encode(entries[0].1, tail, depth);
        let m = value.len() as int;
        assert(b.skip(k + m) =~= tail);
        lemma_decode_of_entries(entries.drop_first(), rest, depth, Some(key));
        assert(seq![entries[0]] + entries.drop_first() =~= entries);
    }
}

/// What reads as an item is in canonical form and is exactly the canonical
/// bytes of the item.
pub proof fn lemma_encode_of_decode(b: Seq<u8>, depth: nat)
    requires
        decoded(b, depth) is Ok,
    ensures
        ({
            let (v, k) = decoded(b, depth)->Ok_0;
            canonical(v, depth) && encoded(v) == Ok::<Seq<u8>, CborError>(b.take(k))
        }),
    decreases depth, 0nat,
{
    lemma_decoded_len(b, depth);
    let (v, k) = decoded(b, depth)->Ok_0;
    if b[0] >= 0xe0 {
        lemma_simple_is_canonical(b);
        assert(canonical(v, depth));
    } else {
        lemma_argument_len(b);
        lemma_argument_is_head(b);
        let (n, used) = argument(b)->Ok_0;
        if b[0] < 0x40 {
        } else if b[0] < 0x60 {
            assert(b.take(used) + b.subrange(used, used + n) =~= b.take(k));
        } else if b[0] < 0x80 {
            vstd::utf8::decode_utf8_encode_utf8(b.subrange(used, used + n));
            assert(b.take(used) + b.subrange(used, used + n) =~= b.take(k));
        } else if b[0] < 0xa0 {
            lemma_encode_of_items(b.skip(used), n, (depth - 1) as nat);
            let (items, m) = decoded_items(b.skip(used), n, (depth - 1) as nat)->Ok_0;
            lemma_decoded_items_len(b.skip(used), n, (depth - 1) as nat);
            lemma_canonical_encodes(v, depth);
            assert(b.take(used) + b.skip(used).take(m) =~= b.take(k));
        } else {
            lemma_encode_of_entries(b.skip(used), n, (depth - 1) as nat, None);
            let (entries, m) = decoded_entries(b.skip(used), n, (depth - 1) as nat, None)->Ok_0;
            lemma_decoded_entries_len(b.skip(used), n, (depth - 1) as nat, None);
            lemma_canonical_encodes(v, depth);
            assert(b.take(used) + b.skip(used).take(m) =~= b.take(k));
        }
    }
}

proof fn lemma_simple_is_canonical(b: Seq<u8>)
    requires
        b.len() > 0,
        decoded_simple(b) is Ok,
    ensures
        ({
            let (v, k) = decoded_simple(b)->Ok_0;
            canonical(v, 0) && encoded(v) == Ok::<Seq<u8>, CborError>(b.take(k))
        }),
{
    crate::bytes::lemma_span_small();
    let (v, k) = decoded_simple(b)->Ok_0;
    if b[0] == 0xf9 {
        let field = b.subrange(1, 3);
        crate::bytes::lemma_be_value_bound(field);
        crate::bytes::lemma_be_of_be_value(field);
        let h = be_value(field) as u16;
        let bits = double_of_half(h);
        assert(fits_half(bits));
        let chosen = choose|x: u16| double_of_half(x) == bits;
        crate::float::lemma_narrowing_is_unique(h, 0);
        crate::float::lemma_narrowing_is_unique(chosen, 0);
        assert(seq![0xf9u8] + field =~= b.take(3));
    } else if b[0] == 0xfa {
        let field = b.subrange(1, 5);
        crate::bytes::lemma_be_value_bound(field);
        crate::bytes::lemma_be_of_be_value(field);
        let s = be_value(field) as u32;
        let bits = double_of_single(s);
        assert(fits_single(bits));
        let chosen = choose|x: u32| double_of_single(x) == bits;
        crate::float::lemma_narrowing_is_unique(0, s);
        crate::float::lemma_narrowing_is_unique(0, chosen);
        assert(seq![0xfau8] + field =~= b.take(5));
    } else if b[0] == 0xfb {
        let field = b.subrange(1, 9);
        crate::bytes::lemma_be_value_bound(field);
        crate::bytes::lemma_be_of_be_value(field);
        assert(seq![0xfbu8] + field =~= b.take(9));
    } else {
        assert(encoded(v)->Ok_0 =~= b.take(1));
    }
}

proof fn lemma_encode_of_items(b: Seq<u8>, count: nat, depth: nat)
    requires
        decoded_items(b, count, depth) is Ok,
    ensures
        ({
            let (items, k) = decoded_items(b, count, depth)->Ok_0;
            items.len() == count && canonical_items(items, depth) && chained(items) == b.take(k)
        }),
    decreases depth, count,
{
    let (items, total) = decoded_items(b, count, depth)->Ok_0;
    lemma_decoded_items_len(b, count, depth);
    if count == 0 {
        assert(chained(items) =~= b.take(0));
    } else {
        lemma_encode_of_decode(b, depth);
        lemma_decoded_len(b, depth);
        let (v, k) = decoded(b, depth)->Ok_0;
        lemma_encode_of_items(b.skip(k), (count - 1) as nat, depth);
        lemma_decoded_items_len(b.skip(k), (count - 1) as nat, depth);
        let (rest, m) = decoded_items(b.skip(k), (count - 1) as nat, depth)->Ok_0;
        assert(items.drop_first() =~= rest);
        assert(b.take(k) + b.skip(k).take(m) =~= b.take(total));
    }
}

#[verifier::rlimit(60)]
#[verifier::spinoff_prover]
proof fn lemma_encode_of_entries(b: Seq<u8>, count: nat, depth: nat, previous: Option<Seq<u8>>)
    requires
        decoded_entries(b, count, depth, previous) is Ok,
    ensures
        ({
            let (entries, k) = decoded_entries(b, count, depth, previous)->Ok_0;
            entries.len() == count && canonical_entries(entries, depth, previous)
                && chained_entries(entries) == b.take(k)
        }),
    decreases depth, count,
{
    let (entries, total) = decoded_entries(b, count, depth, previous)->Ok_0;
    lemma_decoded_entries_len(b, count, depth, previous);
    if count == 0 {
        assert(chained_entries(entries) =~= b.take(0));
    } else {
        lemma_encode_of_decode(b, depth);
        lemma_decoded_len(b, depth);
        let (key, k) = decoded(b, depth)->Ok_0;
        lemma_encode_of_decode(b.skip(k), depth);
        lemma_decoded_len(b.skip(k), depth);
        let (value, m) = decoded(b.skip(k), depth)->Ok_0;
        let left = (count - 1) as nat;
        lemma_encode_of_entries(b.skip(k + m), left, depth, Some(b.take(k)));
        lemma_decoded_entries_len(b.skip(k + m), left, depth, Some(b.take(k)));
        let (rest, r) = decoded_entries(b.skip(k + m), left, depth, Some(b.take(k)))->Ok_0;
        assert(entries.drop_first() =~= rest);
        assert(entries[0] == (key, value));
        assert(b.take(k) + b.skip(k).take(m) + b.skip(k + m).take(r) =~= b.take(total));
    }
}

/// Decoding undoes encoding: the canonical bytes of a canonical item parse to
/// the item.
pub proof fn law_parse_inverts_encode(v: Cbor)
    requires
        canonical(v, MAX_NESTING as nat),
    ensures
        encoded(v) is Ok,
        parsed(bytes_of(v)) == Ok::<Cbor, CborError>(v),
{
    lemma_canonical_encodes(v, MAX_NESTING as nat);
    lemma_decode_of_encode(v, Seq::empty(), MAX_NESTING as nat);
    assert(bytes_of(v) + Seq::<u8>::empty() =~= bytes_of(v));
}

/// Encoding undoes decoding: bytes that parse are the canonical bytes of what
/// they parse to, so no item has two accepted encodings.
pub proof fn law_encode_inverts_parse(b: Seq<u8>)
    requires
        parsed(b) is Ok,
    ensures
        canonical(parsed(b)->Ok_0, MAX_NESTING as nat),
        encoded(parsed(b)->Ok_0) == Ok::<Seq<u8>, CborError>(b),
{
    lemma_encode_of_decode(b, MAX_NESTING as nat);
    let (v, k) = decoded(b, MAX_NESTING as nat)->Ok_0;
    assert(b.take(k) =~= b);
}

/// Different canonical items have different canonical bytes.
pub proof fn law_encoding_is_injective(v: Cbor, w: Cbor)
    requires
        canonical(v, MAX_NESTING as nat),
        canonical(w, MAX_NESTING as nat),
        encoded(v) == encoded(w),
    ensures
        v == w,
{
    law_parse_inverts_encode(v);
    law_parse_inverts_encode(w);
}

} // verus!
