//! Virtual time and entropy for the production backend: what the override
//! settings mean, and how their input is read.

use crate::text::{
    chars_of, decimal, digit, leading_white, push_decimal, push_text, text_of, text_of_utf8,
    trailing_white, trim, trimmed, utf8_fault, utf8_fault_text, Utf8Fault,
};
use vstd::arithmetic::power::{lemma_pow_increases, pow};
use vstd::prelude::*;
use vstd::utf8::{decode_utf8, valid_utf8};

verus! {

/// Host-side virtual time and entropy override for deterministic testing.
#[derive(Debug)]
pub struct VirtualOverride {
    /// Path to a file containing virtual time as decimal microseconds.
    pub ticks_path: Option<String>,
    /// Hex digits seeding the deterministic entropy stream.
    pub seed_hex: Option<String>,
}

/// A hexadecimal digit.
pub open spec fn hex_digit(c: char) -> bool {
    ('0' <= c && c <= '9') || ('a' <= c && c <= 'f') || ('A' <= c && c <= 'F')
}

/// The value of a hexadecimal digit.
pub open spec fn hex_value(c: char) -> nat {
    if '0' <= c && c <= '9' {
        (c as nat - '0' as nat) as nat
    } else if 'a' <= c && c <= 'f' {
        (c as nat - 'a' as nat + 10) as nat
    } else {
        (c as nat - 'A' as nat + 10) as nat
    }
}

/// The number that hexadecimal digits spell.
pub open spec fn hex_number(digits: Seq<char>) -> nat
    decreases digits.len(),
{
    if digits.len() == 0 {
        0
    } else {
        16 * hex_number(digits.drop_last()) + hex_value(digits.last())
    }
}

/// A digit's value, if it is one.
fn hex_of(c: char) -> (value: Option<u64>)
    ensures
        match value {
            Some(v) => hex_digit(c) && v == hex_value(c) && v < 16,
            None => !hex_digit(c),
        },
{
    if '0' <= c && c <= '9' {
        Some(c as u64 - '0' as u64)
    } else if 'a' <= c && c <= 'f' {
        Some(c as u64 - 'a' as u64 + 10)
    } else if 'A' <= c && c <= 'F' {
        Some(c as u64 - 'A' as u64 + 10)
    } else {
        None
    }
}

/// Whether every character is a hexadecimal digit.
fn all_hex(chars: &Vec<char>, count: usize) -> (yes: bool)
    requires
        count <= chars@.len(),
    ensures
        yes == (forall|i: int| 0 <= i < count ==> hex_digit(#[trigger] chars@[i])),
{
    let mut i: usize = 0;
    while i < count
        invariant
            i <= count <= chars@.len(),
            forall|k: int| 0 <= k < i ==> hex_digit(#[trigger] chars@[k]),
        decreases count - i,
    {
        if hex_of(chars[i]).is_none() {
            return false;
        }
        i = i + 1;
    }
    true
}

/// A usable seed setting: at least 16 hexadecimal digits and nothing else,
/// white space around them aside.
pub open spec fn seed_usable(setting: Seq<char>) -> bool {
    &&& trimmed(setting).len() >= 16
    &&& forall|i: int| 0 <= i < trimmed(setting).len() ==> hex_digit(#[trigger] trimmed(setting)[i])
}

/// A text as a value.
pub open spec fn setting_view(setting: Option<String>) -> Option<Seq<char>> {
    match setting {
        Some(s) => Some(s@),
        None => None,
    }
}

impl VirtualOverride {
    /// Interpret the two override settings. An empty path counts as absent; a
    /// seed counts as present only when it holds at least 16 hexadecimal
    /// digits and nothing else, white space around them aside.
    pub fn from_settings(ticks_path: Option<String>, seed_hex: Option<String>) -> (chosen:
        VirtualOverride)
        ensures
            setting_view(chosen.ticks_path) == (match ticks_path {
                Some(path) if path@.len() > 0 => Some(path@),
                _ => None,
            }),
            setting_view(chosen.seed_hex) == (match seed_hex {
                Some(seed) if seed_usable(seed@) => Some(trimmed(seed@)),
                _ => None,
            }),
    {
        let path: Option<String> = match ticks_path {
            Some(path) => {
                let chars: Vec<char> = chars_of(path.as_str());
                if chars.len() > 0 {
                    Some(path)
                } else {
                    None
                }
            },
            None => None,
        };
        let seed: Option<String> = match seed_hex {
            Some(seed) => {
                let chars: Vec<char> = trim(&chars_of(seed.as_str()));
                if chars.len() >= 16 && all_hex(&chars, chars.len()) {
                    assert(chars@.subrange(0, chars@.len() as int) =~= chars@);
                    Some(text_of(&chars, 0, chars.len()))
                } else {
                    None
                }
            },
            None => None,
        };
        VirtualOverride { ticks_path: path, seed_hex: seed }
    }
}

impl Default for VirtualOverride {
    fn default() -> (chosen: VirtualOverride)
        ensures
            chosen.ticks_path is None,
            chosen.seed_hex is None,
    {
        VirtualOverride { ticks_path: None, seed_hex: None }
    }
}

/// Deterministic SplitMix64 generator.
#[derive(Debug, Clone, Copy, PartialEq, Eq, Structural)]
pub struct VirtualRng {
    /// State of the generator.
    pub state: u64,
}

/// A usable seed text: its first 16 characters, white space in front aside,
/// are hexadecimal digits.
pub open spec fn seed_readable(text: Seq<char>) -> bool {
    &&& trimmed(text).len() >= 16
    &&& forall|i: int| 0 <= i < 16 ==> hex_digit(#[trigger] trimmed(text)[i])
}

/// The word of a state: two rounds of shifting and multiplying, then a last
/// shift.
pub open spec fn mixed(state: u64) -> u64 {
    let a = (state ^ (state >> 30)).wrapping_mul(0xbf58476d1ce4e5b9);
    let b = (a ^ (a >> 27)).wrapping_mul(0x94d049bb133111eb);
    b ^ (b >> 31)
}

/// The state after a state.
pub open spec fn stepped(state: u64) -> u64 {
    state.wrapping_add(0x9e3779b97f4a7c15)
}

proof fn lemma_hex_bound(digits: Seq<char>)
    requires
        digits.len() <= 16,
        forall|i: int| 0 <= i < digits.len() ==> hex_digit(#[trigger] digits[i]),
    ensures
        hex_number(digits) < pow(16, digits.len()),
        pow(16, digits.len()) <= 0x1_0000_0000_0000_0000,
    decreases digits.len(),
{
    reveal_with_fuel(pow, 18);
    if digits.len() > 0 {
        lemma_hex_bound(digits.drop_last());
        assert(hex_digit(digits.last()));
        assert(pow(16, digits.len()) == 16 * pow(16, (digits.len() - 1) as nat));
    } else {
        assert(pow(16, 0) == 1);
    }
    assert(pow(16, digits.len()) <= 0x1_0000_0000_0000_0000) by {
        lemma_pow_increases(16, digits.len(), 16);
        assert(pow(16, 16) == 0x1_0000_0000_0000_0000) by {
            reveal_with_fuel(pow, 17);
        }
    }
}

impl VirtualRng {
    /// Seed the generator from the first 16 hexadecimal digits of a text.
    pub fn from_hex(seed_hex: &str) -> (rng: Option<VirtualRng>)
        ensures
            match rng {
                Some(r) => seed_readable(seed_hex@) && r.state == hex_number(
                    trimmed(seed_hex@).take(16),
                ),
                None => !seed_readable(seed_hex@),
            },
    {
        let hex: Vec<char> = trim(&chars_of(seed_hex));
        if hex.len() < 16 {
            return None;
        }
        let mut value: u64 = 0;
        let mut i: usize = 0;
        while i < 16
            invariant
                i <= 16 <= hex@.len(),
                hex@ == trimmed(seed_hex@),
                forall|k: int| 0 <= k < i ==> hex_digit(#[trigger] hex@[k]),
                value == hex_number(hex@.take(i as int)),
            decreases 16 - i,
        {
            let nibble: u64 = match hex_of(hex[i]) {
                Some(nibble) => nibble,
                None => return None,
            };
            proof {
                let next = hex@.take(i + 1);
                assert(next.drop_last() =~= hex@.take(i as int));
                assert(next.last() == hex@[i as int]);
                lemma_hex_bound(next);
            }
            value = 16 * value + nibble;
            i = i + 1;
        }
        Some(VirtualRng { state: value })
    }

    /// The next word.
    pub fn next_u64_inner(&mut self) -> (word: u64)
        ensures
            final(self).state == stepped(old(self).state),
            word == mixed(final(self).state),
    {
        self.state = self.state.wrapping_add(0x9e3779b97f4a7c15);
        let mut z: u64 = self.state;
        z = (z ^ (z >> 30)).wrapping_mul(0xbf58476d1ce4e5b9);
        z = (z ^ (z >> 27)).wrapping_mul(0x94d049bb133111eb);
        z ^ (z >> 31)
    }

    /// The low half of the next word.
    pub fn next_u32(&mut self) -> (word: u32)
        ensures
            final(self).state == stepped(old(self).state),
            word == mixed(final(self).state) as u32,
    {
        #[verifier::truncate]
        (self.next_u64_inner() as u32)
    }
}

/// Why a text is no decimal number.
#[derive(Debug, Clone, Copy, PartialEq, Eq, Structural)]
pub enum NumberFault {
    /// There is no text.
    Empty,
    /// A character is no digit.
    InvalidDigit,
    /// The number does not fit.
    Overflow,
}

impl NumberFault {
    /// What is wrong with the number.
    pub fn message(&self) -> (text: &'static str)
        ensures
            text@ == (match *self {
                NumberFault::Empty => "cannot parse integer from empty string"@,
                NumberFault::InvalidDigit => "invalid digit found in string"@,
                NumberFault::Overflow => "number too large to fit in target type"@,
            }),
    {
        match *self {
            NumberFault::Empty => "cannot parse integer from empty string",
            NumberFault::InvalidDigit => "invalid digit found in string",
            NumberFault::Overflow => "number too large to fit in target type",
        }
    }
}

/// A decimal digit.
pub open spec fn decimal_digit(c: char) -> bool {
    '0' <= c && c <= '9'
}

/// Read decimal digits from position `i` on, behind a value read so far.
pub open spec fn digits_read(digits: Seq<char>, i: nat, value: nat) -> Result<u64, NumberFault>
    decreases digits.len() - i,
{
    if i >= digits.len() {
        Ok(value as u64)
    } else if !decimal_digit(digits[i as int]) {
        Err(NumberFault::InvalidDigit)
    } else {
        let next = 10 * value + (digits[i as int] as nat - '0' as nat);
        if next > u64::MAX {
            Err(NumberFault::Overflow)
        } else {
            digits_read(digits, i + 1, next as nat)
        }
    }
}

/// Read a decimal number with an optional plus sign.
pub open spec fn number_read(text: Seq<char>) -> Result<u64, NumberFault> {
    if text.len() == 0 {
        Err(NumberFault::Empty)
    } else if text[0] == '+' && text.len() > 1 {
        digits_read(text, 1, 0)
    } else {
        digits_read(text, 0, 0)
    }
}

/// Read a decimal number with an optional plus sign.
pub fn read_number(text: &Vec<char>) -> (r: Result<u64, NumberFault>)
    ensures
        r == number_read(text@),
{
    if text.len() == 0 {
        return Err(NumberFault::Empty);
    }
    let mut i: usize = 0;
    if text[0] == '+' && text.len() > 1 {
        i = 1;
    }
    let mut value: u64 = 0;
    while i < text.len()
        invariant
            i <= text@.len(),
            digits_read(text@, i as nat, value as nat) == number_read(text@),
        decreases text@.len() - i,
    {
        let c: char = text[i];
        if !('0' <= c && c <= '9') {
            return Err(NumberFault::InvalidDigit);
        }
        let digit: u64 = c as u64 - '0' as u64;
        if value > (u64::MAX - digit) / 10 {
            return Err(NumberFault::Overflow);
        }
        value = 10 * value + digit;
        i = i + 1;
    }
    Ok(value)
}

/// Virtual clock override failure.
#[derive(Debug, PartialEq, Eq)]
pub enum TickOverrideError {
    /// The override file could not be opened; the text is the host's.
    Open(String),
    /// Reading from the override file failed; the text is the host's.
    Read(String),
    /// The file filled the whole fixed cap; its true length is unknown.
    Oversized {
        /// Byte cap of the reader.
        cap: usize,
    },
    /// The bytes were not valid UTF-8 text.
    Utf8(Utf8Fault),
    /// The trimmed text is not a decimal number.
    Parse {
        /// The offending trimmed text.
        text: String,
        /// What is wrong with it.
        source: NumberFault,
    },
}

/// Most bytes that an override file may hold, plus one.
pub const TICK_FILE_CAP: usize = 256;

/// The mathematical content of a [`TickOverrideError`].
pub enum TickFault {
    Open(Seq<char>),
    Read(Seq<char>),
    Oversized { cap: usize },
    Utf8(Utf8Fault),
    Parse { text: Seq<char>, source: NumberFault },
}

impl View for TickOverrideError {
    type V = TickFault;

    open spec fn view(&self) -> TickFault {
        match *self {
            TickOverrideError::Open(text) => TickFault::Open(text@),
            TickOverrideError::Read(text) => TickFault::Read(text@),
            TickOverrideError::Oversized { cap } => TickFault::Oversized { cap },
            TickOverrideError::Utf8(source) => TickFault::Utf8(source),
            TickOverrideError::Parse { text, source } => TickFault::Parse { text: text@, source },
        }
    }
}

/// The time that the bytes of an override file spell.
pub open spec fn ticks_read(bytes: Seq<u8>) -> Result<u64, TickFault> {
    if bytes.len() >= TICK_FILE_CAP {
        Err(TickFault::Oversized { cap: TICK_FILE_CAP })
    } else if !valid_utf8(bytes) {
        Err(TickFault::Utf8(utf8_fault(bytes)))
    } else {
        let text = trimmed(decode_utf8(bytes));
        match number_read(text) {
            Ok(value) => Ok(value),
            Err(source) => Err(TickFault::Parse { text, source }),
        }
    }
}

/// A reading as a value.
pub open spec fn reading_view(r: Result<u64, TickOverrideError>) -> Result<u64, TickFault> {
    match r {
        Ok(value) => Ok(value),
        Err(e) => Err(e@),
    }
}

/// Interpret what one read of an override file returned.
///
/// # Errors
/// A read that filled the cap, bytes that are no text, or text that is no
/// decimal number.
pub fn parse_virtual_micros(bytes: Vec<u8>) -> (r: Result<u64, TickOverrideError>)
    ensures
        reading_view(r) == ticks_read(bytes@),
{
    if bytes.len() >= TICK_FILE_CAP {
        return Err(TickOverrideError::Oversized { cap: TICK_FILE_CAP });
    }
    match text_of_utf8(bytes) {
        Err(source) => Err(TickOverrideError::Utf8(source)),
        Ok(text) => {
            let chars: Vec<char> = trim(&chars_of(text.as_str()));
            match read_number(&chars) {
                Ok(value) => Ok(value),
                Err(source) => {
                    assert(chars@.subrange(0, chars@.len() as int) =~= chars@);
                    Err(
                        TickOverrideError::Parse {
                            text: text_of(&chars, 0, chars.len()),
                            source,
                        },
                    )
                },
            }
        },
    }
}

/// What a failure of the override says.
pub open spec fn tick_text(fault: TickFault) -> Seq<char> {
    match fault {
        TickFault::Open(text) => "open: "@ + text,
        TickFault::Read(text) => "read: "@ + text,
        TickFault::Oversized { cap } => "content exceeds "@ + decimal(cap as nat) + "-byte cap"@,
        TickFault::Utf8(source) => "utf8: "@ + utf8_fault_text(source),
        TickFault::Parse { text, source } => "parse '"@ + text + "': "@ + (match source {
            NumberFault::Empty => "cannot parse integer from empty string"@,
            NumberFault::InvalidDigit => "invalid digit found in string"@,
            NumberFault::Overflow => "number too large to fit in target type"@,
        }),
    }
}

impl TickOverrideError {
    /// What the failure says.
    pub fn message(&self) -> (text: String)
        ensures
            text@ == tick_text(self@),
    {
        let mut out: String = String::new();
        match self {
            TickOverrideError::Open(text) => {
                push_text(&mut out, "open: ");
                push_text(&mut out, text.as_str());
            },
            TickOverrideError::Read(text) => {
                push_text(&mut out, "read: ");
                push_text(&mut out, text.as_str());
            },
            TickOverrideError::Oversized { cap } => {
                push_text(&mut out, "content exceeds ");
                push_decimal(&mut out, *cap as u64);
                push_text(&mut out, "-byte cap");
            },
            TickOverrideError::Utf8(source) => {
                push_text(&mut out, "utf8: ");
                push_text(&mut out, source.message().as_str());
            },
            TickOverrideError::Parse { text, source } => {
                push_text(&mut out, "parse '");
                push_text(&mut out, text.as_str());
                push_text(&mut out, "': ");
                push_text(&mut out, source.message());
            },
        }
        assert(out@ =~= tick_text(self@));
        out
    }
}

/// What the clock remembers of a failed reading.
pub open spec fn override_text(path: Seq<char>, fault: TickFault) -> Seq<char> {
    "ticks file "@ + path + ": "@ + tick_text(fault)
}

/// The time of an armed clock: the reading, or the last good one with the first
/// failure on record. It is zero where no reading was good yet, and it never
/// falls back to ambient time.
pub fn hold_ticks(
    slot: &mut Option<String>,
    last_good: &mut Option<u64>,
    path: &str,
    reading: Result<u64, TickOverrideError>,
) -> (ticks: u64)
    ensures
        match reading {
            Ok(micros) => {
                &&& ticks == micros
                &&& *final(last_good) == Some(micros)
                &&& *final(slot) == *old(slot)
            },
            Err(e) => {
                &&& ticks == match *old(last_good) {
                    Some(micros) => micros,
                    None => 0,
                }
                &&& *final(last_good) == *old(last_good)
                &&& setting_view(*final(slot)) == Some(
                    match *old(slot) {
                        Some(first) => first@,
                        None => override_text(path@, e@),
                    },
                )
            },
        },
{
    match reading {
        Ok(micros) => {
            *last_good = Some(micros);
            micros
        },
        Err(reason) => {
            if slot.is_none() {
                let mut message: String = String::new();
                push_text(&mut message, "ticks file ");
                push_text(&mut message, path);
                push_text(&mut message, ": ");
                push_text(&mut message, reason.message().as_str());
                assert(message@ =~= override_text(path@, reason@));
                *slot = Some(message);
            }
            match *last_good {
                Some(micros) => micros,
                None => 0,
            }
        },
    }
}

/// A usable seed setting always seeds the virtual generator.
pub proof fn law_accepted_seed_is_readable(setting: Seq<char>)
    requires
        seed_usable(setting),
    ensures
        seed_readable(trimmed(setting)),
{
    let seed = trimmed(setting);
    assert(hex_digit(seed[0]));
    assert(hex_digit(seed[seed.len() - 1]));
    assert(leading_white(seed) == 0);
    assert(seed.skip(0) =~= seed);
    assert(trailing_white(seed) == 0);
    assert(seed.take(seed.len() as int) =~= seed);
    assert forall|i: int| 0 <= i < 16 implies hex_digit(#[trigger] trimmed(seed)[i]) by {
        assert(hex_digit(seed[i]));
    }
}

/// The number that decimal digits spell.
pub open spec fn decimal_number(digits: Seq<char>) -> nat
    decreases digits.len(),
{
    if digits.len() == 0 {
        0
    } else {
        10 * decimal_number(digits.drop_last()) + (digits.last() as nat - '0' as nat) as nat
    }
}

proof fn lemma_prefix_smaller(digits: Seq<char>, i: int)
    requires
        0 <= i <= digits.len(),
    ensures
        decimal_number(digits.take(i)) <= decimal_number(digits),
    decreases digits.len(),
{
    if i == digits.len() {
        assert(digits.take(i) =~= digits);
    } else {
        lemma_prefix_smaller(digits.drop_last(), i);
        assert(digits.drop_last().take(i) =~= digits.take(i));
    }
}

proof fn lemma_digits_read(digits: Seq<char>, i: nat)
    requires
        i <= digits.len(),
        forall|k: int| 0 <= k < digits.len() ==> decimal_digit(#[trigger] digits[k]),
        decimal_number(digits) <= u64::MAX,
    ensures
        digits_read(digits, i, decimal_number(digits.take(i as int))) == Ok::<u64, NumberFault>(
            decimal_number(digits) as u64,
        ),
    decreases digits.len() - i,
{
    if i < digits.len() {
        assert(decimal_digit(digits[i as int]));
        let next = digits.take(i as int + 1);
        assert(next.drop_last() =~= digits.take(i as int));
        assert(next.last() == digits[i as int]);
        lemma_prefix_smaller(digits, i as int + 1);
        lemma_digits_read(digits, i + 1);
    } else {
        assert(digits.take(i as int) =~= digits);
    }
}

proof fn lemma_decimal_number(n: nat)
    ensures
        decimal_number(decimal(n)) == n,
        decimal(n).len() > 0,
        forall|k: int| 0 <= k < decimal(n).len() ==> decimal_digit(#[trigger] decimal(n)[k]),
    decreases n,
{
    if n >= 10 {
        lemma_decimal_number(n / 10);
        let front = decimal(n / 10);
        assert(decimal(n).drop_last() =~= front);
        assert(decimal(n).last() == digit(n % 10));
        assert forall|k: int| 0 <= k < decimal(n).len() implies decimal_digit(
            #[trigger] decimal(n)[k],
        ) by {
            if k < front.len() {
                assert(decimal(n)[k] == front[k]);
            }
        }
    } else {
        assert(decimal(n).drop_last() =~= Seq::<char>::empty());
        assert(decimal_number(decimal(n).drop_last()) == 0);
    }
}

/// A time that is written in decimal reads back as itself.
pub proof fn law_written_time_reads_back(n: u64)
    ensures
        number_read(decimal(n as nat)) == Ok::<u64, NumberFault>(n),
{
    let digits = decimal(n as nat);
    lemma_decimal_number(n as nat);
    lemma_digits_read(digits, 0);
    assert(digits.take(0) =~= Seq::<char>::empty());
    assert(decimal_digit(digits[0]));
}

} // verus!
