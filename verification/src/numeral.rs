use vstd::prelude::*;

use crate::bytes::law_prefix_ends_at_first;
use crate::number::{
    binary_number, digits_value, field_number, field_of, is_digit, is_space, octal_number, text, trim_end,
    trim_start, unsigned_digits, written_number,
};

verus! {

/// The digits that write `n` in `base`, without leading zeros.
pub open spec fn numeral(n: nat, base: nat) -> Seq<u8>
    decreases n,
    via numeral_decreases
{
    if base < 2 || n < base {
        seq![(48 + n) as u8]
    } else {
        numeral(n / base, base).push((48 + n % base) as u8)
    }
}

#[via_fn]
proof fn numeral_decreases(n: nat, base: nat) {
    if base >= 2 && n >= base {
        lemma_quotient_is_less(n, base);
    }
}

proof fn lemma_quotient_is_less(n: nat, base: nat)
    by (nonlinear_arith)
    requires
        base >= 2,
        n >= base,
    ensures
        n / base < n,
{
}

/// `n` times the byte `b`.
pub open spec fn run_of(b: u8, n: nat) -> Seq<u8> {
    Seq::new(n, |i: int| b)
}

/// The last `k` bytes of the binary form of `n`, most significant first.
pub open spec fn big_endian(n: nat, k: nat) -> Seq<u8>
    decreases k,
{
    if k == 0 {
        Seq::empty()
    } else {
        big_endian(n / 256, (k - 1) as nat).push((n % 256) as u8)
    }
}

/// The last `k` octal digits of `n`, most significant first.
pub open spec fn octal_digits(n: nat, k: nat) -> Seq<u8>
    decreases k,
{
    if k == 0 {
        Seq::empty()
    } else {
        octal_digits(n / 8, (k - 1) as nat).push((48 + n % 8) as u8)
    }
}

pub(crate) proof fn lemma_numeral(n: nat, base: nat)
    requires
        2 <= base <= 10,
    ensures
        numeral(n, base).len() > 0,
        forall|i: int| 0 <= i < numeral(n, base).len() ==> is_digit(#[trigger] numeral(n, base)[i], base as int),
        digits_value(numeral(n, base), base as int) == n,
    decreases n,
{
    let s = numeral(n, base);
    if n < base {
        assert(s.drop_last() =~= Seq::empty());
        assert(digits_value(s.drop_last(), base as int) == 0);
        assert(0 * base == 0);
    } else {
        lemma_quotient_is_less(n, base);
        let q = n / base;
        lemma_numeral(q, base);
        assert(s.drop_last() =~= numeral(q, base));
        assert(0 <= n % base < base) by (nonlinear_arith)
            requires
                base >= 2,
        ;
        assert(q * base + n % base == n) by (nonlinear_arith)
            requires
                q == n / base,
                base >= 2,
        ;
    }
}

proof fn lemma_leading_zeros(zeros: nat, s: Seq<u8>, base: int)
    ensures
        digits_value(run_of(48, zeros) + s, base) == digits_value(s, base),
    decreases s.len(), zeros,
{
    let both = run_of(48, zeros) + s;
    if s.len() > 0 {
        assert(both.drop_last() =~= run_of(48, zeros) + s.drop_last());
        lemma_leading_zeros(zeros, s.drop_last(), base);
    } else if zeros > 0 {
        assert(both.drop_last() =~= run_of(48, (zeros - 1) as nat) + s);
        lemma_leading_zeros((zeros - 1) as nat, s, base);
        assert(0 * base == 0);
    } else {
        assert(both =~= s);
    }
}

/// A number that is written in digits, with or without leading zeros and with or
/// without a plus sign, is read as that number where a `u64` can hold it, and
/// not at all where none can.
pub proof fn law_numeral_is_read(zeros: nat, n: nat, base: nat)
    requires
        2 <= base <= 10,
    ensures
        ({
            let s = run_of(48, zeros) + numeral(n, base);
            let expected = if n <= u64::MAX {
                Some(n as u64)
            } else {
                None
            };
            &&& written_number(s, base as int) == expected
            &&& written_number(seq![43u8] + s, base as int) == expected
        }),
{
    let s = run_of(48, zeros) + numeral(n, base);
    lemma_numeral(n, base);
    lemma_leading_zeros(zeros, numeral(n, base), base as int);
    assert forall|i: int| 0 <= i < s.len() implies is_digit(#[trigger] s[i], base as int) by {
        if i >= zeros {
            assert(s[i] == numeral(n, base)[i - zeros]);
        }
    }
    assert(is_digit(s[0], base as int));
    assert(unsigned_digits(s) == s);
    assert((seq![43u8] + s).skip(1) =~= s);
}

/// Nothing but digits, behind at most one plus sign, is read as a number.
pub proof fn law_only_digits_are_read(s: Seq<u8>, base: int)
    requires
        written_number(s, base) is Some,
    ensures
        s.len() > 0,
        48 <= s.last() < 48 + base,
        forall|i: int| 0 <= i < s.len() ==> 48 <= s[i] < 48 + base || (i == 0 && s[i] == 43),
{
    let digits = unsigned_digits(s);
    assert(is_digit(digits.last(), base));
    assert forall|i: int| 0 <= i < s.len() implies 48 <= s[i] < 48 + base || (i == 0 && s[i] == 43) by {
        if s[0] == 43 {
            if i > 0 {
                assert(is_digit(digits[i - 1], base));
            }
        } else {
            assert(is_digit(digits[i], base));
        }
    }
}

/// The text of a field ends at its first zero byte, whatever stands behind that,
/// and reaches over all of it where there is none.
pub proof fn law_text_ends_at_zero(a: Seq<u8>, rest: Seq<u8>)
    requires
        !a.contains(0u8),
    ensures
        text(a) == a,
        text(a.push(0) + rest) == a,
{
    assert forall|i: int| 0 <= i < a.len() implies a[i] != 0 by {
        assert(a.contains(a[i]));
    }
    law_prefix_ends_at_first(a, 0, a.len() as int);
    assert(a.take(a.len() as int) =~= a);
    let s = a.push(0) + rest;
    law_prefix_ends_at_first(s, 0, a.len() as int);
    assert(s.take(a.len() as int) =~= a);
}

/// Whether `s` is nothing but blanks, tabs and the bytes that end lines or pages.
pub open spec fn is_blank(s: Seq<u8>) -> bool {
    forall|i: int|
        0 <= i < s.len() ==> s[i] == 32 || s[i] == 9 || s[i] == 10 || s[i] == 11 || s[i] == 12 || s[i] == 13
}

/// Whether `b` is a byte that no blank space is made of.
pub open spec fn is_mark(b: u8) -> bool {
    !is_blank(seq![b])
}

proof fn lemma_mark(b: u8)
    ensures
        is_mark(b) == !is_space(b),
{
    assert(seq![b][0] == b);
}

proof fn lemma_trim_start(a: Seq<u8>, t: Seq<u8>)
    requires
        is_blank(a),
        t.len() > 0 ==> is_mark(t[0]),
    ensures
        trim_start(a + t) == t,
    decreases a.len(),
{
    let s = a + t;
    if a.len() > 0 {
        assert(s[0] == a[0]);
        assert(s.skip(1) =~= a.skip(1) + t);
        lemma_trim_start(a.skip(1), t);
    } else {
        assert(s =~= t);
        if t.len() > 0 {
            lemma_mark(t[0]);
        }
    }
}

proof fn lemma_trim_end(t: Seq<u8>, z: Seq<u8>)
    requires
        is_blank(z),
        t.len() > 0 ==> is_mark(t.last()),
    ensures
        trim_end(t + z) == t,
    decreases z.len(),
{
    let s = t + z;
    if z.len() > 0 {
        assert(s.last() == z.last());
        assert(s.drop_last() =~= t + z.drop_last());
        lemma_trim_end(t, z.drop_last());
    } else {
        assert(s =~= t);
        if t.len() > 0 {
            lemma_mark(t.last());
        }
    }
}

/// Blank space around what stands in an octal field does not count, nor does
/// anything behind a zero byte.
pub proof fn law_space_does_not_count(a: Seq<u8>, middle: Seq<u8>, z: Seq<u8>, tail: Seq<u8>)
    requires
        is_blank(a),
        is_blank(z),
        !middle.contains(0u8),
        middle.len() > 0 ==> is_mark(middle[0]) && is_mark(middle.last()),
        tail.len() == 0 || tail[0] == 0,
    ensures
        octal_number(a + middle + z + tail) == written_number(middle, 8),
{
    let front = a + middle + z;
    let field = front + tail;
    assert forall|i: int| 0 <= i < front.len() implies front[i] != 0 by {
        if a.len() <= i < a.len() + middle.len() {
            assert(front[i] == middle[i - a.len()]);
            assert(middle.contains(middle[i - a.len()]));
        } else if i < a.len() {
            assert(front[i] == a[i]);
        } else {
            assert(front[i] == z[i - a.len() - middle.len()]);
        }
    }
    law_prefix_ends_at_first(field, 0, front.len() as int);
    assert(field.take(front.len() as int) =~= front);
    if middle.len() > 0 {
        assert(front =~= a + (middle + z));
        lemma_trim_start(a, middle + z);
        lemma_trim_end(middle, z);
    } else {
        let nothing = Seq::<u8>::empty();
        assert(front =~= (a + z) + nothing);
        lemma_trim_start(a + z, nothing);
        lemma_trim_end(nothing, nothing);
        assert(nothing + nothing =~= nothing);
        assert(middle =~= nothing);
    }
}

/// A numeric field that holds octal digits states the number that they write,
/// whatever spaces and leading zeros stand in front of them, whatever spaces
/// stand behind them, and whatever follows a zero byte.
pub proof fn law_octal_field_is_read(spaces: nat, zeros: nat, n: u64, more: nat, tail: Seq<u8>)
    requires
        tail.len() == 0 || tail[0] == 0,
    ensures
        ({
            let field = run_of(32, spaces) + (run_of(48, zeros) + numeral(n as nat, 8)) + run_of(32, more)
                + tail;
            octal_number(field) == Some(n) && field_number(field) == Some(n)
        }),
{
    let digits = run_of(48, zeros) + numeral(n as nat, 8);
    let field = run_of(32, spaces) + digits + run_of(32, more) + tail;
    lemma_numeral(n as nat, 8);
    law_numeral_is_read(zeros, n as nat, 8);
    assert forall|i: int| 0 <= i < digits.len() implies is_digit(#[trigger] digits[i], 8) by {
        if i >= zeros {
            assert(digits[i] == numeral(n as nat, 8)[i - zeros]);
        }
    }
    assert(is_digit(digits[0], 8) && is_digit(digits.last(), 8));
    lemma_mark(digits[0]);
    lemma_mark(digits.last());
    assert(!digits.contains(0u8));
    law_space_does_not_count(run_of(32, spaces), digits, run_of(32, more), tail);
    assert(field[0] < 0x80) by {
        if spaces == 0 {
            assert(field[0] == digits[0]);
        }
    }
}

proof fn lemma_big_endian_eight(n: u64)
    ensures
        big_endian(n as nat, 8) == seq![
            (n / 0x100_0000_0000_0000) as u8,
            (n / 0x1_0000_0000_0000 % 256) as u8,
            (n / 0x100_0000_0000 % 256) as u8,
            (n / 0x1_0000_0000 % 256) as u8,
            (n / 0x100_0000 % 256) as u8,
            (n / 0x1_0000 % 256) as u8,
            (n / 0x100 % 256) as u8,
            (n % 256) as u8,
        ],
{
    reveal_with_fuel(big_endian, 9);
    assert(n / 256 / 256 == n / 0x1_0000 && n / 256 / 256 / 256 == n / 0x100_0000 && n / 256 / 256 / 256
        / 256 == n / 0x1_0000_0000 && n / 256 / 256 / 256 / 256 / 256 == n / 0x100_0000_0000 && n / 256
        / 256 / 256 / 256 / 256 / 256 == n / 0x1_0000_0000_0000 && n / 256 / 256 / 256 / 256 / 256 / 256
        / 256 == n / 0x100_0000_0000_0000 && n / 0x100_0000_0000_0000 < 256) by (bit_vector);
    assert(n / 0x100_0000_0000_0000 % 256 == n / 0x100_0000_0000_0000);
}

proof fn lemma_eight_bytes(n: u64)
    ensures
        n == (n / 0x100_0000_0000_0000) * 0x100_0000_0000_0000 + (n / 0x1_0000_0000_0000 % 256)
            * 0x1_0000_0000_0000 + (n / 0x100_0000_0000 % 256) * 0x100_0000_0000 + (n / 0x1_0000_0000
            % 256) * 0x1_0000_0000 + (n / 0x100_0000 % 256) * 0x100_0000 + (n / 0x1_0000 % 256)
            * 0x1_0000 + (n / 0x100 % 256) * 0x100 + n % 256,
        n / 0x100_0000_0000_0000 < 256,
{
    assert(n == (n / 0x100_0000_0000_0000) * 0x100_0000_0000_0000 + (n / 0x1_0000_0000_0000 % 256)
        * 0x1_0000_0000_0000 + (n / 0x100_0000_0000 % 256) * 0x100_0000_0000 + (n / 0x1_0000_0000 % 256)
        * 0x1_0000_0000 + (n / 0x100_0000 % 256) * 0x100_0000 + (n / 0x1_0000 % 256) * 0x1_0000 + (n
        / 0x100 % 256) * 0x100 + n % 256) by (bit_vector);
    assert(n / 0x100_0000_0000_0000 < 256) by (bit_vector);
}

/// A numeric field of twelve bytes whose first byte is marked states the number
/// that its last eight bytes hold, most significant first.
pub proof fn law_binary_field_is_read(n: u64, f: Seq<u8>)
    requires
        f.len() == 12,
        f[0] >= 0x80,
        f.skip(4) == big_endian(n as nat, 8),
    ensures
        field_number(f) == Some(n),
{
    lemma_big_endian_eight(n);
    lemma_eight_bytes(n);
    let t = f.skip(4);
    assert(f[4] == t[0] && f[5] == t[1] && f[6] == t[2] && f[7] == t[3] && f[8] == t[4] && f[9] == t[5]
        && f[10] == t[6] && f[11] == t[7]);
}

/// A numeric field whose first byte is not marked holds an octal number, if any.
pub proof fn law_unmarked_field_is_octal(f: Seq<u8>)
    requires
        f.len() > 0,
        f[0] < 0x80,
    ensures
        field_number(f) == octal_number(f),
{
}

/// A number whose topmost bit is set is written to a field of eight bytes as its
/// bytes are, most significant first.
pub proof fn law_written_field_of_topmost(n: u64)
    requires
        n >= 0x8000_0000_0000_0000,
    ensures
        field_of(n) == big_endian(n as nat, 8),
{
    lemma_big_endian_eight(n);
    assert(n / 0x100_0000_0000_0000 >= 0x80 && n / 0x100_0000_0000_0000 < 256) by (bit_vector)
        requires
            n >= 0x8000_0000_0000_0000,
    ;
    assert(field_of(n) =~= big_endian(n as nat, 8));
}

/// A number is written to a field of eight bytes in octal digits with a zero
/// byte behind them where seven digits suffice. Where they do not, the bytes of
/// the number are written, most significant first, and the topmost bit is
/// marked; what a marked field of eight bytes states is read in the same way.
pub proof fn law_written_fields(n: u64)
    requires
        n < 0x8000_0000_0000_0000,
    ensures
        n < 0x20_0000 ==> field_of(n) == octal_digits(n as nat, 7).push(0),
        n >= 0x20_0000 ==> field_of(n) == big_endian((n + 0x8000_0000_0000_0000) as nat, 8),
        field_number(big_endian((n + 0x8000_0000_0000_0000) as nat, 8)) == Some(n),
{
    let m = (n + 0x8000_0000_0000_0000) as u64;
    lemma_big_endian_eight(m);
    lemma_eight_bytes(m);
    assert(m / 0x100_0000_0000_0000 == n / 0x100_0000_0000_0000 + 0x80 && m / 0x1_0000_0000_0000 % 256 == n
        / 0x1_0000_0000_0000 % 256 && m / 0x100_0000_0000 % 256 == n / 0x100_0000_0000 % 256 && m
        / 0x1_0000_0000 % 256 == n / 0x1_0000_0000 % 256 && m / 0x100_0000 % 256 == n / 0x100_0000 % 256
        && m / 0x1_0000 % 256 == n / 0x1_0000 % 256 && m / 0x100 % 256 == n / 0x100 % 256 && m % 256 == n
        % 256 && n / 0x100_0000_0000_0000 < 0x80) by (bit_vector)
        requires
            m == n + 0x8000_0000_0000_0000,
            n < 0x8000_0000_0000_0000,
    ;
    let f = big_endian(m as nat, 8);
    assert(binary_number(f) == n);
    if n < 0x20_0000 {
        reveal_with_fuel(octal_digits, 8);
        assert(n / 8 / 8 == n / 0x40 && n / 8 / 8 / 8 == n / 0x200 && n / 8 / 8 / 8 / 8 == n / 0x1000 && n
            / 8 / 8 / 8 / 8 / 8 == n / 0x8000 && n / 8 / 8 / 8 / 8 / 8 / 8 == n / 0x4_0000) by (bit_vector);
        assert(field_of(n) =~= octal_digits(n as nat, 7).push(0));
    } else {
        assert(field_of(n) =~= f);
    }
}

} // verus!
