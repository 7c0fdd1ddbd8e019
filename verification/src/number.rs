use vstd::prelude::*;
use vstd::slice::slice_subrange;

use crate::bytes::{count_until, lemma_prefix_len, prefix_len};
use crate::error::{other, Error};

verus! {

/// Whether `b` is an ASCII digit of a number written in `base` (at most ten).
pub open spec fn is_digit(b: u8, base: int) -> bool {
    48 <= b < 48 + base
}

/// The number that the digits `s` denote in `base`, most significant first.
pub open spec fn digits_value(s: Seq<u8>, base: int) -> int
    decreases s.len(),
{
    if s.len() == 0 {
        0
    } else {
        digits_value(s.drop_last(), base) * base + (s.last() - 48)
    }
}

/// The digits of a number without the `+` that may precede them.
pub open spec fn unsigned_digits(s: Seq<u8>) -> Seq<u8> {
    if s.len() > 0 && s[0] == 43 {
        s.skip(1)
    } else {
        s
    }
}

/// The number written as `s` in `base`: at least one digit, nothing but digits
/// behind an optional `+`, and a value that a `u64` can hold.
pub open spec fn written_number(s: Seq<u8>, base: int) -> Option<u64> {
    let digits = unsigned_digits(s);
    if digits.len() > 0 && (forall|i: int| 0 <= i < digits.len() ==> is_digit(#[trigger] digits[i], base))
        && digits_value(digits, base) <= u64::MAX {
        Some(digits_value(digits, base) as u64)
    } else {
        None
    }
}

proof fn lemma_digits_value_grows(s: Seq<u8>, base: int, n: int)
    requires
        1 <= base <= 10,
        0 <= n <= s.len(),
        forall|i: int| 0 <= i < s.len() ==> is_digit(#[trigger] s[i], base),
    ensures
        0 <= digits_value(s.take(n), base) <= digits_value(s, base),
    decreases s.len(),
{
    if n == s.len() {
        assert(s.take(n) =~= s);
        if n > 0 {
            lemma_digits_value_grows(s.drop_last(), base, n - 1);
            assert(0 <= digits_value(s.drop_last(), base) * base) by (nonlinear_arith)
                requires
                    0 <= digits_value(s.drop_last(), base),
                    1 <= base,
            ;
        }
    } else {
        assert(s.drop_last().take(n) =~= s.take(n));
        lemma_digits_value_grows(s.drop_last(), base, n);
        let v = digits_value(s.drop_last(), base);
        assert(v <= v * base) by (nonlinear_arith)
            requires
                0 <= v,
                1 <= base,
        ;
    }
}

/// Reads the number that `s` writes in `base`.
pub fn parse_number(s: &[u8], base: u64) -> (number: Option<u64>)
    requires
        1 <= base <= 10,
    ensures
        number == written_number(s@, base as int),
{
    let start: usize = if s.len() > 0 && s[0] == 43 { 1 } else { 0 };
    let ghost digits = unsigned_digits(s@);
    assert(digits =~= s@.skip(start as int));
    if start == s.len() {
        return None;
    }
    let mut value: u64 = 0;
    let mut i: usize = start;
    while i < s.len()
        invariant
            start <= i <= s.len(),
            1 <= base <= 10,
            digits == s@.skip(start as int),
            digits == unsigned_digits(s@),
            value == digits_value(digits.take(i - start), base as int),
            forall|j: int| 0 <= j < i - start ==> is_digit(#[trigger] digits[j], base as int),
        decreases s.len() - i,
    {
        let b = s[i];
        assert(digits[i - start] == b);
        if b < 48 || b as u64 >= 48 + base {
            return None;
        }
        let ghost upto = digits.take(i - start + 1);
        assert(upto.drop_last() =~= digits.take(i - start));
        assert(upto.last() == b);
        let digit: u64 = (b - 48) as u64;
        let sum = match value.checked_mul(base) {
            Some(product) => product.checked_add(digit),
            None => None,
        };
        match sum {
            Some(total) => {
                value = total;
            },
            None => {
                proof {
                    if written_number(s@, base as int) is Some {
                        lemma_digits_value_grows(digits, base as int, i - start + 1);
                    }
                }
                return None;
            },
        }
        i += 1;
    }
    assert(digits.take(i - start) =~= digits);
    Some(value)
}

/// Whether `b` is an ASCII white space character.
pub open spec fn is_space(b: u8) -> bool {
    b == 32 || 9 <= b <= 13
}

/// The bytes of `s` up to its first zero byte.
pub open spec fn text(s: Seq<u8>) -> Seq<u8> {
    s.take(prefix_len(s, 0))
}

/// `s` without the white space at its start.
pub open spec fn trim_start(s: Seq<u8>) -> Seq<u8>
    decreases s.len(),
{
    if s.len() > 0 && is_space(s[0]) {
        trim_start(s.skip(1))
    } else {
        s
    }
}

/// `s` without the white space at its end.
pub open spec fn trim_end(s: Seq<u8>) -> Seq<u8>
    decreases s.len(),
{
    if s.len() > 0 && is_space(s.last()) {
        trim_end(s.drop_last())
    } else {
        s
    }
}

/// The part of `s` that precedes its first zero byte.
pub fn truncate(s: &[u8]) -> (t: &[u8])
    ensures
        t@ == text(s@),
{
    slice_subrange(s, 0, count_until(s, 0))
}

fn trim(s: &[u8]) -> (t: &[u8])
    ensures
        t@ == trim_end(trim_start(s@)),
{
    let mut a: usize = 0;
    assert(s@.skip(0) =~= s@);
    while a < s.len() && (s[a] == 32 || (9 <= s[a] && s[a] <= 13))
        invariant
            a <= s.len(),
            trim_start(s@) == trim_start(s@.skip(a as int)),
        decreases s.len() - a,
    {
        assert(s@.skip(a as int).skip(1) =~= s@.skip(a + 1));
        a += 1;
    }
    let mut b: usize = s.len();
    assert(s@.subrange(a as int, b as int) =~= s@.skip(a as int));
    while a < b && (s[b - 1] == 32 || (9 <= s[b - 1] && s[b - 1] <= 13))
        invariant
            a <= b <= s.len(),
            trim_end(trim_start(s@)) == trim_end(s@.subrange(a as int, b as int)),
        decreases b,
    {
        assert(s@.subrange(a as int, b as int).drop_last() =~= s@.subrange(a as int, b - 1));
        b -= 1;
    }
    slice_subrange(s, a, b)
}

/// The number that a numeric field holds in octal: white space around the
/// digits is ignored, and so is everything from the first zero byte on.
pub open spec fn octal_number(field: Seq<u8>) -> Option<u64> {
    written_number(trim_end(trim_start(text(field))), 8)
}

/// The message for a numeric field that holds no number.
pub open spec fn not_a_number() -> Seq<char> {
    "numeric field was not a number"@
}

/// Reads a numeric field written in octal.
pub fn octal_from(field: &[u8]) -> (number: Result<u64, Error>)
    ensures
        match octal_number(field@) {
            Some(n) => number == Ok::<u64, Error>(n),
            None => number is Err && number->Err_0@ == not_a_number(),
        },
{
    match parse_number(trim(truncate(field)), 8) {
        Some(n) => Ok(n),
        None => Err(other("numeric field was not a number")),
    }
}

/// The number whose eight bytes, most significant first, stand in `s` from
/// `i` on.
pub open spec fn be_number(s: Seq<u8>, i: int) -> int {
    s[i] * 0x100_0000_0000_0000 + s[i + 1] * 0x1_0000_0000_0000 + s[i + 2] * 0x100_0000_0000 + s[i + 3]
        * 0x1_0000_0000 + s[i + 4] * 0x100_0000 + s[i + 5] * 0x1_0000 + s[i + 6] * 0x100 + s[i + 7]
}

/// The number that a numeric field of at least eight bytes holds in binary.
/// The top bit of the first byte marks the form and is no part of the number.
pub open spec fn binary_number(field: Seq<u8>) -> u64 {
    if field.len() == 8 {
        (be_number(field, 0) - 0x8000_0000_0000_0000) as u64
    } else {
        be_number(field, field.len() - 8) as u64
    }
}

/// The number that a numeric field holds: in binary where the top bit of its
/// first byte is set, else in octal.
pub open spec fn field_number(field: Seq<u8>) -> Option<u64> {
    if field[0] >= 0x80 {
        Some(binary_number(field))
    } else {
        octal_number(field)
    }
}

fn be_from(s: &[u8], i: usize) -> (number: u64)
    requires
        i + 8 <= s@.len(),
    ensures
        number == be_number(s@, i as int),
{
    s[i] as u64 * 0x100_0000_0000_0000 + s[i + 1] as u64 * 0x1_0000_0000_0000 + s[i + 2] as u64
        * 0x100_0000_0000 + s[i + 3] as u64 * 0x1_0000_0000 + s[i + 4] as u64 * 0x100_0000 + s[i
        + 5] as u64 * 0x1_0000 + s[i + 6] as u64 * 0x100 + s[i + 7] as u64
}

/// Reads a numeric field in either of its forms.
pub fn number_from(field: &[u8]) -> (number: Result<u64, Error>)
    requires
        field@.len() >= 8,
    ensures
        match field_number(field@) {
            Some(n) => number == Ok::<u64, Error>(n),
            None => number is Err && number->Err_0@ == not_a_number(),
        },
{
    if field[0] >= 0x80 {
        if field.len() == 8 {
            Ok(be_from(field, 0) - 0x8000_0000_0000_0000)
        } else {
            Ok(be_from(field, field.len() - 8))
        }
    } else {
        octal_from(field)
    }
}

/// The bytes of a numeric field of eight bytes that holds `n`: seven octal
/// digits and a zero byte where they suffice, else `n` in binary with the top
/// bit of the first byte set.
pub open spec fn field_of(n: u64) -> Seq<u8> {
    if n < 0x20_0000 {
        seq![
            octal_digit(n as int, 0x4_0000),
            octal_digit(n as int, 0x8000),
            octal_digit(n as int, 0x1000),
            octal_digit(n as int, 0x200),
            octal_digit(n as int, 0x40),
            octal_digit(n as int, 0x8),
            octal_digit(n as int, 0x1),
            0u8,
        ]
    } else {
        let top = n as int / 0x100_0000_0000_0000;
        seq![
            (if top < 0x80 { top + 0x80 } else { top }) as u8,
            byte_of(n as int, 0x1_0000_0000_0000),
            byte_of(n as int, 0x100_0000_0000),
            byte_of(n as int, 0x1_0000_0000),
            byte_of(n as int, 0x100_0000),
            byte_of(n as int, 0x1_0000),
            byte_of(n as int, 0x100),
            byte_of(n as int, 0x1),
        ]
    }
}

/// The octal digit of `n` that counts `weight`.
pub open spec fn octal_digit(n: int, weight: int) -> u8 {
    (48 + (n / weight) % 8) as u8
}

/// The byte of `n` that counts `weight`.
pub open spec fn byte_of(n: int, weight: int) -> u8 {
    ((n / weight) % 0x100) as u8
}

/// Writes `n` as a numeric field of eight bytes.
pub fn number_into(n: u64) -> (field: [u8; 8])
    ensures
        field@ == field_of(n),
{
    let field: [u8; 8] = if n < 0x20_0000 {
        [
            (48 + (n / 0x4_0000) % 8) as u8,
            (48 + (n / 0x8000) % 8) as u8,
            (48 + (n / 0x1000) % 8) as u8,
            (48 + (n / 0x200) % 8) as u8,
            (48 + (n / 0x40) % 8) as u8,
            (48 + (n / 0x8) % 8) as u8,
            (48 + (n / 0x1) % 8) as u8,
            0,
        ]
    } else {
        let top: u64 = n / 0x100_0000_0000_0000;
        [
            (if top < 0x80 { top + 0x80 } else { top }) as u8,
            ((n / 0x1_0000_0000_0000) % 0x100) as u8,
            ((n / 0x100_0000_0000) % 0x100) as u8,
            ((n / 0x1_0000_0000) % 0x100) as u8,
            ((n / 0x100_0000) % 0x100) as u8,
            ((n / 0x1_0000) % 0x100) as u8,
            ((n / 0x100) % 0x100) as u8,
            ((n / 0x1) % 0x100) as u8,
        ]
    };
    assert(field@ =~= field_of(n));
    field
}

proof fn lemma_octal_digits(n: u64)
    requires
        n < 0x20_0000,
    ensures
        ((((((n / 0x4_0000 % 8) * 8 + n / 0x8000 % 8) * 8 + n / 0x1000 % 8) * 8 + n / 0x200 % 8) * 8
            + n / 0x40 % 8) * 8 + n / 0x8 % 8) * 8 + n % 8 == n,
{
    assert(((((((n / 0x4_0000 % 8) * 8 + n / 0x8000 % 8) * 8 + n / 0x1000 % 8) * 8 + n / 0x200 % 8) * 8
        + n / 0x40 % 8) * 8 + n / 0x8 % 8) * 8 + n % 8 == n) by (bit_vector)
        requires
            n < 0x20_0000,
    ;
}

proof fn lemma_octal_read_back(n: u64)
    requires
        n < 0x20_0000,
    ensures
        octal_number(field_of(n)) == Some(n),
{
    let f = field_of(n);
    let t = f.take(7);
    assert forall|i: int| 0 <= i < 7 implies is_digit(#[trigger] t[i], 8) by {}
    lemma_prefix_len(f, 0);
    assert(f[7] == 0);
    assert(prefix_len(f, 0) == 7) by {
        if prefix_len(f, 0) < 7 {
            assert(is_digit(t[prefix_len(f, 0)], 8));
        }
    }
    assert(is_digit(t[0], 8) && is_digit(t[6], 8));
    assert(trim_start(t) == t);
    assert(trim_end(t) == t);
    assert(unsigned_digits(t) == t);
    assert(digits_value(t, 8) == n) by {
        assert(t.drop_last() =~= t.take(6));
        assert(t.take(6).drop_last() =~= t.take(5));
        assert(t.take(5).drop_last() =~= t.take(4));
        assert(t.take(4).drop_last() =~= t.take(3));
        assert(t.take(3).drop_last() =~= t.take(2));
        assert(t.take(2).drop_last() =~= t.take(1));
        assert(t.take(1).drop_last() =~= t.take(0));
        assert(digits_value(t.take(0), 8) == 0);
        let d1 = digits_value(t.take(1), 8);
        let d2 = digits_value(t.take(2), 8);
        let d3 = digits_value(t.take(3), 8);
        let d4 = digits_value(t.take(4), 8);
        let d5 = digits_value(t.take(5), 8);
        let d6 = digits_value(t.take(6), 8);
        assert(d1 == t[0] - 48);
        assert(d2 == d1 * 8 + (t[1] - 48));
        assert(d3 == d2 * 8 + (t[2] - 48));
        assert(d4 == d3 * 8 + (t[3] - 48));
        assert(d5 == d4 * 8 + (t[4] - 48));
        assert(d6 == d5 * 8 + (t[5] - 48));
        assert(digits_value(t, 8) == d6 * 8 + (t[6] - 48));
        lemma_octal_digits(n);
    }
}

proof fn lemma_binary_read_back(n: u64)
    requires
        0x20_0000 <= n < 0x8000_0000_0000_0000,
    ensures
        field_of(n)[0] >= 0x80,
        binary_number(field_of(n)) == n,
{
    let f = field_of(n);
    assert(n / 0x100_0000_0000_0000 < 0x80 && n == (n / 0x100_0000_0000_0000) * 0x100_0000_0000_0000
        + (n / 0x1_0000_0000_0000 % 0x100) * 0x1_0000_0000_0000 + (n / 0x100_0000_0000 % 0x100)
        * 0x100_0000_0000 + (n / 0x1_0000_0000 % 0x100) * 0x1_0000_0000 + (n / 0x100_0000 % 0x100)
        * 0x100_0000 + (n / 0x1_0000 % 0x100) * 0x1_0000 + (n / 0x100 % 0x100) * 0x100 + n % 0x100)
        by (bit_vector)
        requires
            n < 0x8000_0000_0000_0000,
    ;
}

/// A number below half the range of a `u64` is read back from the field it was
/// written to. Above that, the mark of the binary form covers a bit of it.
pub proof fn law_number_read_back(n: u64)
    requires
        n < 0x8000_0000_0000_0000,
    ensures
        field_number(field_of(n)) == Some(n),
{
    if n < 0x20_0000 {
        lemma_octal_read_back(n);
        assert(field_of(n)[0] < 0x80);
    } else {
        lemma_binary_read_back(n);
    }
}

} // verus!
