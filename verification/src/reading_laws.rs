//! What settings and override files are read as.

use crate::backend_tokio::{
    decimal_digit, digits_read, hex_digit, hex_number, hex_value, mixed, number_read, seed_readable,
    seed_usable, stepped, ticks_read, NumberFault, TickFault,
};
use crate::text::{trimmed, white_space};
use crate::text_laws::{blank, law_trimming_takes_white_space_off_the_ends};
use vstd::prelude::*;
use vstd::utf8::{encode_utf8, encode_utf8_decode_utf8, encode_utf8_valid_utf8, valid_utf8};

verus! {

/// A decimal digit, by its code.
pub open spec fn digit_code(c: char) -> bool {
    0x30 <= c as u32 <= 0x39
}

proof fn lemma_digits_step(digits: Seq<char>, c: char, i: nat, value: nat)
    requires
        i <= digits.len(),
        value <= u64::MAX,
    ensures
        ({
            let more = digits_read(digits.push(c), i, value);
            match digits_read(digits, i, value) {
                Err(e) => more == Err::<u64, NumberFault>(e),
                Ok(v) => if !digit_code(c) {
                    more == Err::<u64, NumberFault>(NumberFault::InvalidDigit)
                } else if 10 * v + (c as u32 - 0x30) > u64::MAX {
                    more == Err::<u64, NumberFault>(NumberFault::Overflow)
                } else {
                    more == Ok::<u64, NumberFault>((10 * v + (c as u32 - 0x30)) as u64)
                },
            }
        }),
    decreases digits.len() - i,
{
    let more = digits.push(c);
    if i < digits.len() {
        assert(more[i as int] == digits[i as int]);
        if decimal_digit(digits[i as int]) {
            let next = 10 * value + (digits[i as int] as nat - '0' as nat);
            if next <= u64::MAX {
                lemma_digits_step(digits, c, i + 1, next as nat);
            }
        }
    } else {
        reveal_with_fuel(digits_read, 3);
        assert(more[i as int] == c);
    }
}

/// How a number is read, character by character. Nothing is no number; one
/// character is one exactly when it is a digit. A further digit multiplies by
/// ten and adds its value, unless the number gets too large; a further
/// character that is no digit makes it invalid, and what is wrong stays. A plus
/// sign in front of a digit does not matter.
pub proof fn law_number_is_read_digit_by_digit(text: Seq<char>, c: char)
    ensures
        number_read(Seq::<char>::empty()) == Err::<u64, NumberFault>(NumberFault::Empty),
        ({
            let more = number_read(text.push(c));
            if text.len() == 0 || text == seq!['+'] {
                more == if digit_code(c) {
                    Ok::<u64, NumberFault>((c as u32 - 0x30) as u64)
                } else {
                    Err(NumberFault::InvalidDigit)
                }
            } else {
                match number_read(text) {
                    Err(e) => more == Err::<u64, NumberFault>(e),
                    Ok(v) => if !digit_code(c) {
                        more == Err::<u64, NumberFault>(NumberFault::InvalidDigit)
                    } else if 10 * v + (c as u32 - 0x30) > u64::MAX {
                        more == Err::<u64, NumberFault>(NumberFault::Overflow)
                    } else {
                        more == Ok::<u64, NumberFault>((10 * v + (c as u32 - 0x30)) as u64)
                    },
                }
            }
        }),
{
    reveal_with_fuel(digits_read, 3);
    let more = text.push(c);
    if text.len() == 0 {
        assert(more[0] == c);
    } else {
        assert(more[0] == text[0]);
        if text.len() == 1 && text[0] == '+' {
            assert(text =~= seq!['+']);
            assert(more[1] == c);
        } else if text[0] == '+' {
            lemma_digits_step(text, c, 1, 0);
        } else {
            lemma_digits_step(text, c, 0, 0);
        }
    }
}

/// An override file holds a time exactly when it is below the cap, is text, and
/// spells a number between white space. What is wrong is named in that order.
pub proof fn law_override_file_spells_the_time(bytes: Seq<u8>, text: Seq<char>)
    ensures
        bytes.len() >= 256 ==> ticks_read(bytes) == Err::<u64, TickFault>(
            TickFault::Oversized { cap: 256 },
        ),
        bytes.len() < 256 && !valid_utf8(bytes) ==> ticks_read(bytes) is Err && ticks_read(
            bytes,
        )->Err_0 is Utf8,
        bytes.len() < 256 && bytes == encode_utf8(text) ==> match number_read(trimmed(text)) {
            Ok(value) => ticks_read(bytes) == Ok::<u64, TickFault>(value),
            Err(source) => ticks_read(bytes) == Err::<u64, TickFault>(
                TickFault::Parse { text: trimmed(text), source },
            ),
        },
{
    encode_utf8_valid_utf8(text);
    encode_utf8_decode_utf8(text);
}

/// Hexadecimal digits count from zero to fifteen, in either case, and nothing
/// else is one.
pub proof fn law_hexadecimal_digits(c: char, d: nat)
    requires
        d < 16,
    ensures
        ({
            let n = c as u32;
            hex_digit(c) && hex_value(c) == d <==> (n == 0x30 + d && d < 10) || (n == 0x57 + d && d
                >= 10) || (n == 0x37 + d && d >= 10)
        }),
        hex_digit(c) ==> hex_value(c) < 16,
{
}

/// A further hexadecimal digit multiplies by sixteen and adds its value.
pub proof fn law_hexadecimal_number_is_read_digit_by_digit(digits: Seq<char>, c: char)
    ensures
        hex_number(Seq::<char>::empty()) == 0,
        hex_number(digits.push(c)) == 16 * hex_number(digits) + hex_value(c),
{
    assert(digits.push(c).drop_last() =~= digits);
}

/// A seed setting counts exactly when it is sixteen or more hexadecimal digits
/// between white space; a seed text need hold only sixteen of them in front.
pub proof fn law_seed_settings(front: Seq<char>, digits: Seq<char>, back: Seq<char>)
    requires
        blank(front),
        blank(back),
        digits.len() > 0,
        !white_space(digits[0]),
        !white_space(digits.last()),
    ensures
        seed_usable(front + digits + back) <==> digits.len() >= 16 && forall|i: int|
            0 <= i < digits.len() ==> hex_digit(#[trigger] digits[i]),
        seed_readable(front + digits + back) <==> digits.len() >= 16 && forall|i: int|
            0 <= i < 16 ==> hex_digit(#[trigger] digits[i]),
{
    lemma_trimmed(front, digits, back);
}

proof fn lemma_trimmed(front: Seq<char>, middle: Seq<char>, back: Seq<char>)
    requires
        blank(front),
        blank(back),
        middle.len() > 0,
        !white_space(middle[0]),
        !white_space(middle.last()),
    ensures
        trimmed(front + middle + back) == middle,
{
    let s = front + middle + back;
    law_trimming_takes_white_space_off_the_ends(s);
    let (f, b) = choose|f: Seq<char>, b: Seq<char>| #[trigger]
        blank(f) && #[trigger] blank(b) && s == f + trimmed(s) + b;
    let n = front.len() as int;
    let m = (front.len() + middle.len()) as int;
    assert(s[n] == middle[0]);
    assert(s[m - 1] == middle.last());
    if f.len() > n {
        assert(s[n] == f[n]);
    }
    if f.len() < n {
        assert(s[f.len() as int] == front[f.len() as int]);
        assert(s[f.len() as int] == (f + trimmed(s) + b)[f.len() as int]);
        if trimmed(s).len() > 0 {
            assert(trimmed(s)[0] == s[f.len() as int]);
        } else {
            assert(s[n] == b[n - f.len()]);
        }
    }
    assert(f.len() == n);
    let e = f.len() + trimmed(s).len();
    if e < m {
        assert(s[m - 1] == b[m - 1 - e]);
    }
    if e > m {
        assert(s[e - 1] == back[e - 1 - m]);
        assert(trimmed(s).last() == s[e - 1]);
    }
    assert(trimmed(s) =~= middle) by {
        assert forall|i: int| 0 <= i < middle.len() implies trimmed(s)[i] == middle[i] by {
            assert(s[n + i] == middle[i]);
            assert((f + trimmed(s) + b)[n + i] == trimmed(s)[i]);
        }
    }
}

/// The state of the virtual generator moves on by a fixed odd step, modulo the
/// word range, and its word is the state after two rounds of folding the high
/// bits onto the low ones and multiplying, and a last fold.
pub proof fn law_virtual_words(state: u64, a: u64, b: u64)
    requires
        a == ((state ^ (state >> 30u64)) * 0xbf58_476d_1ce4_e5b9) % 0x1_0000_0000_0000_0000,
        b == ((a ^ (a >> 27u64)) * 0x94d0_49bb_1331_11eb) % 0x1_0000_0000_0000_0000,
    ensures
        stepped(state) == (state + 0x9e37_79b9_7f4a_7c15) % 0x1_0000_0000_0000_0000,
        mixed(state) == b ^ (b >> 31u64),
{
}

} // verus!
