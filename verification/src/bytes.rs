//! Fixed-width integers as byte sequences, in both byte orders.

use vstd::prelude::*;

verus! {

/// 256 to the power of `width`.
pub open spec fn span(width: nat) -> nat
    decreases width,
{
    if width == 0 {
        1
    } else {
        256 * span((width - 1) as nat)
    }
}

/// The `width` low bytes of `n`, most significant first.
pub open spec fn be(n: nat, width: nat) -> Seq<u8>
    decreases width,
{
    if width == 0 {
        Seq::empty()
    } else {
        be(n / 256, (width - 1) as nat).push((n % 256) as u8)
    }
}

/// The number whose bytes, most significant first, are `s`.
pub open spec fn be_value(s: Seq<u8>) -> nat
    decreases s.len(),
{
    if s.len() == 0 {
        0
    } else {
        256 * be_value(s.drop_last()) + s.last() as nat
    }
}

/// The `width` low bytes of `n`, least significant first.
pub open spec fn le(n: nat, width: nat) -> Seq<u8>
    decreases width,
{
    if width == 0 {
        Seq::empty()
    } else {
        seq![(n % 256) as u8] + le(n / 256, (width - 1) as nat)
    }
}

/// The number whose bytes, least significant first, are `s`.
pub open spec fn le_value(s: Seq<u8>) -> nat
    decreases s.len(),
{
    if s.len() == 0 {
        0
    } else {
        s[0] as nat + 256 * le_value(s.drop_first())
    }
}

pub proof fn lemma_span_small()
    ensures
        span(1) == 0x100,
        span(2) == 0x1_0000,
        span(4) == 0x1_0000_0000,
        span(8) == 0x1_0000_0000_0000_0000,
{
    reveal_with_fuel(span, 9);
}

pub proof fn lemma_be_len(n: nat, width: nat)
    ensures
        be(n, width).len() == width,
    decreases width,
{
    if width > 0 {
        lemma_be_len(n / 256, (width - 1) as nat);
    }
}

pub proof fn lemma_be_value_bound(s: Seq<u8>)
    ensures
        be_value(s) < span(s.len()),
    decreases s.len(),
{
    if s.len() > 0 {
        lemma_be_value_bound(s.drop_last());
    }
}

/// Reading back a number that fits its width gives the number.
pub proof fn lemma_be_value_of_be(n: nat, width: nat)
    requires
        n < span(width),
    ensures
        be_value(be(n, width)) == n,
    decreases width,
{
    if width > 0 {
        lemma_be_value_of_be(n / 256, (width - 1) as nat);
        assert(be(n, width).drop_last() =~= be(n / 256, (width - 1) as nat));
    }
}

/// Writing the number that a byte string holds gives the byte string.
pub proof fn lemma_be_of_be_value(s: Seq<u8>)
    ensures
        be(be_value(s), s.len()) == s,
    decreases s.len(),
{
    if s.len() > 0 {
        lemma_be_of_be_value(s.drop_last());
        let n = be_value(s);
        assert(n / 256 == be_value(s.drop_last()));
        assert(n % 256 == s.last() as nat);
        assert(be(n, s.len()) =~= s.drop_last().push(s.last()));
        assert(s =~= s.drop_last().push(s.last()));
    }
}

pub proof fn lemma_le_len(n: nat, width: nat)
    ensures
        le(n, width).len() == width,
    decreases width,
{
    if width > 0 {
        lemma_le_len(n / 256, (width - 1) as nat);
    }
}

pub proof fn lemma_le_value_bound(s: Seq<u8>)
    ensures
        le_value(s) < span(s.len()),
    decreases s.len(),
{
    if s.len() > 0 {
        lemma_le_value_bound(s.drop_first());
    }
}

/// Reading back a number that fits its width gives the number.
pub proof fn lemma_le_value_of_le(n: nat, width: nat)
    requires
        n < span(width),
    ensures
        le_value(le(n, width)) == n,
    decreases width,
{
    if width > 0 {
        lemma_le_value_of_le(n / 256, (width - 1) as nat);
        assert(le(n, width).drop_first() =~= le(n / 256, (width - 1) as nat));
    }
}

proof fn lemma_le_value_push(s: Seq<u8>, b: u8)
    ensures
        le_value(s.push(b)) == le_value(s) + span(s.len()) * (b as nat),
    decreases s.len(),
{
    if s.len() == 0 {
        assert(s.push(b).drop_first() =~= Seq::<u8>::empty());
        assert(le_value(s.push(b)) == b as nat + 256 * le_value(s.push(b).drop_first()));
        assert(span(0) * (b as nat) == b as nat) by (nonlinear_arith)
            requires
                span(0) == 1,
        ;
    } else {
        lemma_le_value_push(s.drop_first(), b);
        assert(s.push(b).drop_first() =~= s.drop_first().push(b));
        let t: int = span((s.len() - 1) as nat) as int;
        let x: int = b as int;
        assert(256 * (t * x) == (256 * t) * x) by (nonlinear_arith);
        assert(s.push(b)[0] == s[0]);
        assert(span(s.len()) == 256 * span((s.len() - 1) as nat));
    }
}

/// Append the `width` bytes of `n`, most significant first.
pub fn push_be(out: &mut Vec<u8>, n: u64, width: usize)
    requires
        width <= 8,
        n < span(width as nat),
    ensures
        final(out)@ == old(out)@ + be(n as nat, width as nat),
    decreases width,
{
    if width > 0 {
        push_be(out, n / 256, width - 1);
        out.push((n % 256) as u8);
        assert(out@ =~= old(out)@ + be(n as nat, width as nat));
    } else {
        assert(out@ =~= old(out)@ + be(n as nat, width as nat));
    }
}

/// Read `width` bytes at `at`, most significant first.
pub fn read_be(input: &[u8], at: usize, width: usize) -> (n: u64)
    requires
        width <= 8,
        at + width <= input@.len(),
    ensures
        n == be_value(input@.subrange(at as int, at + width)),
{
    let total: usize = input.len();
    let mut n: u64 = 0;
    let mut i: usize = 0;
    while i < width
        invariant
            i <= width <= 8,
            at + width <= total == input@.len(),
            n == be_value(input@.subrange(at as int, at + i)),
        decreases width - i,
    {
        let ghost before = input@.subrange(at as int, at + i);
        let ghost after = input@.subrange(at as int, at + i + 1);
        proof {
            assert(after.drop_last() =~= before);
            lemma_be_value_bound(after);
            assert(span((i + 1) as nat) <= span(8)) by {
                reveal_with_fuel(span, 9);
            }
            lemma_span_small();
        }
        n = 256 * n + input[at + i] as u64;
        i = i + 1;
    }
    n
}

/// The eight bytes of `n`, least significant first.
pub fn u64_le(n: u64) -> (out: Vec<u8>)
    ensures
        out@ == le(n as nat, 8),
{
    let mut out: Vec<u8> = Vec::new();
    let mut rest: u64 = n;
    let mut i: usize = 0;
    assert(out@ + le(n as nat, 8) =~= le(n as nat, 8));
    while i < 8
        invariant
            i <= 8,
            out@ + le(rest as nat, (8 - i) as nat) == le(n as nat, 8),
        decreases 8 - i,
    {
        let ghost before = out@;
        let ghost left = rest as nat;
        out.push((rest % 256) as u8);
        rest = rest / 256;
        proof {
            assert(before + le(left, (8 - i) as nat) =~= out@ + le(rest as nat, (7 - i) as nat));
        }
        i = i + 1;
    }
    assert(out@ + le(rest as nat, 0) =~= out@);
    out
}

/// The four bytes of `n`, least significant first.
pub fn u32_le(n: u32) -> (out: Vec<u8>)
    ensures
        out@ == le(n as nat, 4),
{
    let mut out: Vec<u8> = Vec::new();
    let mut rest: u32 = n;
    let mut i: usize = 0;
    assert(out@ + le(n as nat, 4) =~= le(n as nat, 4));
    while i < 4
        invariant
            i <= 4,
            out@ + le(rest as nat, (4 - i) as nat) == le(n as nat, 4),
        decreases 4 - i,
    {
        let ghost before = out@;
        let ghost left = rest as nat;
        out.push((rest % 256) as u8);
        rest = rest / 256;
        proof {
            assert(before + le(left, (4 - i) as nat) =~= out@ + le(rest as nat, (3 - i) as nat));
        }
        i = i + 1;
    }
    assert(out@ + le(rest as nat, 0) =~= out@);
    out
}

/// The number held by at most eight bytes, least significant first.
pub fn u64_of_le(bytes: &[u8], count: usize) -> (n: u64)
    requires
        count <= 8,
        count <= bytes@.len(),
    ensures
        n == le_value(bytes@.take(count as int)),
{
    let mut n: u64 = 0;
    let mut scale: u64 = 1;
    let mut i: usize = 0;
    while i < count
        invariant
            i <= count <= 8,
            count <= bytes@.len(),
            n == le_value(bytes@.take(i as int)),
            i < 8 ==> scale == span(i as nat),
        decreases count - i,
    {
        let ghost before = bytes@.take(i as int);
        let ghost after = bytes@.take(i + 1);
        proof {
            assert(after =~= before.push(bytes@[i as int]));
            lemma_le_value_push(before, bytes@[i as int]);
            lemma_le_value_bound(after);
            reveal_with_fuel(span, 9);
            assert(span((i + 1) as nat) <= span(8));
            lemma_span_small();
        }
        let byte: u64 = bytes[i] as u64;
        assert(0 <= scale * byte) by (nonlinear_arith)
            requires
                0 <= scale,
                0 <= byte,
        ;
        n = n + scale * byte;
        if i < 7 {
            scale = scale * 256;
        }
        i = i + 1;
    }
    n
}

/// Bytewise lexicographic order.
pub open spec fn lex_less(a: Seq<u8>, b: Seq<u8>) -> bool
    decreases a.len(),
{
    if b.len() == 0 {
        false
    } else if a.len() == 0 {
        true
    } else if a[0] != b[0] {
        a[0] < b[0]
    } else {
        lex_less(a.drop_first(), b.drop_first())
    }
}

/// Of two different sequences exactly one precedes the other.
pub proof fn lemma_lex_total(a: Seq<u8>, b: Seq<u8>)
    ensures
        a == b || lex_less(a, b) || lex_less(b, a),
        !(lex_less(a, b) && lex_less(b, a)),
    decreases a.len(),
{
    if a.len() > 0 && b.len() > 0 {
        lemma_lex_total(a.drop_first(), b.drop_first());
        if a[0] == b[0] && a.drop_first() == b.drop_first() {
            assert(a =~= seq![a[0]] + a.drop_first());
            assert(b =~= seq![b[0]] + b.drop_first());
        }
    } else if a.len() == 0 && b.len() == 0 {
        assert(a =~= b);
    }
}

/// The order is transitive.
pub proof fn lemma_lex_transitive(a: Seq<u8>, b: Seq<u8>, c: Seq<u8>)
    requires
        lex_less(a, b),
        lex_less(b, c),
    ensures
        lex_less(a, c),
    decreases a.len(),
{
    if a.len() > 0 && a[0] == b[0] && b[0] == c[0] {
        lemma_lex_transitive(a.drop_first(), b.drop_first(), c.drop_first());
    }
}

/// Whether `a` precedes `b` bytewise.
pub fn is_lex_less(a: &[u8], b: &[u8]) -> (less: bool)
    ensures
        less == lex_less(a@, b@),
{
    let mut i: usize = 0;
    assert(a@.skip(0) =~= a@);
    assert(b@.skip(0) =~= b@);
    while i < a.len() && i < b.len()
        invariant
            i <= a@.len(),
            i <= b@.len(),
            lex_less(a@, b@) == lex_less(a@.skip(i as int), b@.skip(i as int)),
        decreases a@.len() - i,
    {
        assert(a@.skip(i as int).drop_first() =~= a@.skip(i + 1));
        assert(b@.skip(i as int).drop_first() =~= b@.skip(i + 1));
        if a[i] != b[i] {
            return a[i] < b[i];
        }
        i = i + 1;
    }
    i == a.len() && i < b.len()
}

/// Whether two byte strings are equal.
pub fn same_bytes(a: &[u8], b: &[u8]) -> (same: bool)
    ensures
        same == (a@ == b@),
{
    if a.len() != b.len() {
        return false;
    }
    let mut i: usize = 0;
    while i < a.len()
        invariant
            i <= a@.len() == b@.len(),
            forall|j: int| 0 <= j < i ==> a@[j] == b@[j],
        decreases a@.len() - i,
    {
        if a[i] != b[i] {
            return false;
        }
        i = i + 1;
    }
    assert(a@ =~= b@);
    true
}

} // verus!
