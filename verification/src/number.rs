//! Decimal numbers: how they are written and how they are read.

use crate::text;
use vstd::prelude::*;
use vstd::utf8::{encode_utf8, is_ascii_chars};

verus! {

/// A decimal digit.
pub open spec fn is_digit(byte: u8) -> bool {
    0x30 <= byte <= 0x39
}

/// The number that the digits from `from` to `to` spell.
pub open spec fn digits_value(b: Seq<u8>, from: nat, to: nat) -> nat
    decreases to - from,
{
    if from >= to || to > b.len() {
        0
    } else {
        (digits_value(b, from, (to - 1) as nat) * 10 + (b[to - 1] - 0x30)) as nat
    }
}

/// There is at least one byte from `from` on, and each is a digit.
pub open spec fn all_digits(b: Seq<u8>, from: nat) -> bool {
    from < b.len() && forall|k: int| from <= k < b.len() ==> is_digit(#[trigger] b[k])
}

/// The number that a text spells: digits, with a plus sign before them if need
/// be, or, where `signed` says so, a minus sign.
pub open spec fn spelled(b: Seq<u8>, signed: bool) -> Option<int> {
    let negative = signed && b.len() > 0 && b[0] == 0x2D;
    let first: nat = if negative || (b.len() > 0 && b[0] == 0x2B) {
        1
    } else {
        0
    };
    let magnitude = digits_value(b, first, b.len()) as int;
    if !all_digits(b, first) {
        None
    } else if negative {
        Some(-magnitude)
    } else {
        Some(magnitude)
    }
}

/// What a text spells, if it lies within the given bounds.
pub open spec fn spelled_within(text: Seq<char>, signed: bool, min: int, max: int) -> Option<int> {
    match spelled(encode_utf8(text), signed) {
        Some(n) => if min <= n <= max {
            Some(n)
        } else {
            None
        },
        None => None,
    }
}

/// The digit for a number below ten.
pub open spec fn digit_char(n: nat) -> char {
    (0x30 + n) as char
}

/// The decimal digits of a number, without leading zeros.
pub open spec fn decimal(n: nat) -> Seq<char>
    decreases n,
{
    if n < 10 {
        seq![digit_char(n)]
    } else {
        decimal(n / 10).push(digit_char(n % 10))
    }
}

/// The decimal digits of a number, with a minus sign if it is negative.
pub open spec fn signed_decimal(n: int) -> Seq<char> {
    if n < 0 {
        seq!['-'] + decimal((-n) as nat)
    } else {
        decimal(n as nat)
    }
}

proof fn lemma_digits_value_grows(b: Seq<u8>, from: nat, mid: nat, to: nat)
    requires
        from <= mid <= to <= b.len(),
        forall|k: int| from <= k < to ==> is_digit(#[trigger] b[k]),
    ensures
        digits_value(b, from, mid) <= digits_value(b, from, to),
    decreases to - mid,
{
    if mid < to {
        lemma_digits_value_grows(b, from, mid, (to - 1) as nat);
        assert(is_digit(b[to - 1]));
    }
}

/// The value of a run of digits depends on those digits alone.
pub(crate) proof fn lemma_digits_value_shifts(a: Seq<u8>, i: nat, b: Seq<u8>, j: nat, n: nat)
    requires
        i + n <= a.len(),
        j + n <= b.len(),
        forall|k: int| 0 <= k < n ==> a[i + k] == #[trigger] b[j + k],
    ensures
        digits_value(a, i, i + n) == digits_value(b, j, j + n),
    decreases n,
{
    if n > 0 {
        lemma_digits_value_shifts(a, i, b, j, (n - 1) as nat);
        assert(a[i + (n - 1)] == b[j + (n - 1)]);
    }
}

/// The number that a run of digits spells, if it fits 64 bits.
pub(crate) fn read_magnitude(b: &[u8], from: usize, to: usize) -> (value: Option<u64>)
    requires
        from <= to <= b@.len(),
        forall|k: int| from <= k < to ==> is_digit(#[trigger] b@[k]),
    ensures
        match value {
            Some(n) => n == digits_value(b@, from as nat, to as nat),
            None => digits_value(b@, from as nat, to as nat) > u64::MAX,
        },
{
    let mut n: u64 = 0;
    let mut i: usize = from;
    while i < to
        invariant
            from <= i <= to <= b@.len(),
            forall|k: int| from <= k < to ==> is_digit(#[trigger] b@[k]),
            n == digits_value(b@, from as nat, i as nat),
        decreases to - i,
    {
        assert(is_digit(b@[i as int]));
        let digit: u64 = (b[i] - 0x30) as u64;
        proof {
            lemma_digits_value_grows(b@, from as nat, (i + 1) as nat, to as nat);
        }
        match n.checked_mul(10) {
            None => {
                return None;
            },
            Some(tens) => match tens.checked_add(digit) {
                None => {
                    return None;
                },
                Some(sum) => {
                    n = sum;
                },
            },
        }
        i = i + 1;
    }
    Some(n)
}

/// Whether there is at least one byte from `from` on and each is a digit.
fn has_digits(b: &[u8], from: usize) -> (found: bool)
    ensures
        found == all_digits(b@, from as nat),
{
    if from >= b.len() {
        return false;
    }
    let mut i: usize = from;
    while i < b.len()
        invariant
            from <= i <= b@.len(),
            forall|k: int| from <= k < i ==> is_digit(#[trigger] b@[k]),
        decreases b@.len() - i,
    {
        if !(0x30 <= b[i] && b[i] <= 0x39) {
            return false;
        }
        i = i + 1;
    }
    true
}

/// Reads a signed 64-bit number.
pub fn parse_i64(text: &str) -> (value: Option<i64>)
    ensures
        match value {
            Some(n) => spelled_within(text@, true, i64::MIN as int, i64::MAX as int) == Some(
                n as int,
            ),
            None => spelled_within(text@, true, i64::MIN as int, i64::MAX as int) is None,
        },
{
    let b = text.as_bytes();
    let negative: bool = b.len() > 0 && b[0] == 0x2D;
    let first: usize = if negative || (b.len() > 0 && b[0] == 0x2B) {
        1
    } else {
        0
    };
    if !has_digits(b, first) {
        return None;
    }
    match read_magnitude(b, first, b.len()) {
        None => None,
        Some(m) => if negative {
            if m < 0x8000_0000_0000_0000 {
                Some(-(m as i64))
            } else if m == 0x8000_0000_0000_0000 {
                Some(i64::MIN)
            } else {
                None
            }
        } else if m <= 0x7fff_ffff_ffff_ffff {
            Some(m as i64)
        } else {
            None
        },
    }
}

/// Reads an unsigned 64-bit number.
pub fn parse_u64(text: &str) -> (value: Option<u64>)
    ensures
        match value {
            Some(n) => spelled_within(text@, false, 0, u64::MAX as int) == Some(n as int),
            None => spelled_within(text@, false, 0, u64::MAX as int) is None,
        },
{
    let b = text.as_bytes();
    let first: usize = if b.len() > 0 && b[0] == 0x2B {
        1
    } else {
        0
    };
    if !has_digits(b, first) {
        return None;
    }
    read_magnitude(b, first, b.len())
}

/// Reads a number that fits a machine word.
pub fn parse_usize(text: &str) -> (value: Option<usize>)
    ensures
        match value {
            Some(n) => spelled_within(text@, false, 0, usize::MAX as int) == Some(n as int),
            None => spelled_within(text@, false, 0, usize::MAX as int) is None,
        },
{
    match parse_u64(text) {
        Some(n) => if n <= usize::MAX as u64 {
            Some(n as usize)
        } else {
            None
        },
        None => None,
    }
}

/// Appends the decimal digits of a number.
pub(crate) fn append_decimal(out: &mut String, n: u64)
    ensures
        final(out)@ == old(out)@ + decimal(n as nat),
    decreases n,
{
    if n >= 10 {
        append_decimal(out, n / 10);
    }
    text::append_scalar(out, 0x30 + (n % 10) as u32);
    assert(out@ =~= old(out)@ + decimal(n as nat));
}

/// Appends the decimal digits of a number, with a minus sign if it is negative.
pub(crate) fn append_signed(out: &mut String, n: i64)
    ensures
        final(out)@ == old(out)@ + signed_decimal(n as int),
{
    if n < 0 {
        text::append_scalar(out, 0x2D);
        append_decimal(out, (-(n + 1)) as u64 + 1);
        assert(out@ =~= old(out)@ + signed_decimal(n as int));
    } else {
        append_decimal(out, n as u64);
    }
}

/// Decimal digits are digits, and spell the number they were written for.
pub(crate) proof fn lemma_decimal(n: nat)
    ensures
        decimal(n).len() > 0,
        is_ascii_chars(decimal(n)),
        encode_utf8(decimal(n)).len() == decimal(n).len(),
        all_digits(encode_utf8(decimal(n)), 0),
        digits_value(encode_utf8(decimal(n)), 0, decimal(n).len()) == n,
    decreases n,
{
    let text = decimal(n);
    let b = encode_utf8(text);
    if n >= 10 {
        lemma_decimal(n / 10);
        let head = decimal(n / 10);
        let h = encode_utf8(head);
        vstd::utf8::is_ascii_chars_encode_utf8(head);
        assert(is_ascii_chars(text)) by {
            assert(text =~= head + seq![digit_char(n % 10)]);
        }
        vstd::utf8::is_ascii_chars_encode_utf8(text);
        assert forall|k: int| 0 <= k < h.len() implies b[k] == #[trigger] h[k] by {
            assert(text[k] == head[k]);
        }
        assert forall|k: int| 0 <= k < b.len() implies is_digit(#[trigger] b[k]) by {
            if k < h.len() {
                assert(b[k] == h[k]);
                assert(is_digit(h[k]));
            } else {
                assert(text[k] as u8 == b[k]);
            }
        }
        assert forall|k: int| 0 <= k < h.len() implies h[0 + k] == #[trigger] b[0 + k] by {
            assert(b[k] == h[k]);
        }
        lemma_digits_value_shifts(h, 0, b, 0, h.len());
        assert(text[text.len() - 1] as u8 == b[b.len() - 1]);
    } else {
        assert(is_ascii_chars(text));
        vstd::utf8::is_ascii_chars_encode_utf8(text);
        assert(text[0] as u8 == b[0]);
        assert(digits_value(b, 0, 0) == 0);
        assert(digits_value(b, 0, 1) == n);
    }
}

/// A number that is written is read back.
pub proof fn law_numbers_read_back(n: int)
    ensures
        spelled(encode_utf8(signed_decimal(n)), true) == Some(n),
        n >= 0 ==> spelled(encode_utf8(signed_decimal(n)), false) == Some(n),
{
    let text = signed_decimal(n);
    let b = encode_utf8(text);
    if n < 0 {
        let digits = decimal((-n) as nat);
        lemma_decimal((-n) as nat);
        let d = encode_utf8(digits);
        assert(is_ascii_chars(text));
        vstd::utf8::is_ascii_chars_encode_utf8(text);
        vstd::utf8::is_ascii_chars_encode_utf8(digits);
        assert(text[0] as u8 == b[0]);
        assert forall|k: int| 0 <= k < d.len() implies d[0 + k] == #[trigger] b[1 + k] by {
            assert(text[1 + k] == digits[k]);
            assert(text[1 + k] as u8 == b[1 + k]);
            assert(digits[k] as u8 == d[k]);
        }
        assert forall|k: int| 1 <= k < b.len() implies is_digit(#[trigger] b[k]) by {
            assert(d[0 + (k - 1)] == b[1 + (k - 1)]);
            assert(is_digit(d[k - 1]));
        }
        lemma_digits_value_shifts(d, 0, b, 1, d.len());
    } else {
        lemma_decimal(n as nat);
        assert(is_digit(b[0]));
    }
}

/// What digits spell, digit by digit: one digit spells itself, and one more digit
/// makes ten times as much and itself. A plus sign before digits changes nothing; a
/// minus sign turns the number around, where it is allowed, and spells nothing
/// where it is not.
pub proof fn law_digits_spell_numbers(digits: Seq<u8>, digit: u8, signed: bool)
    requires
        0x30 <= digit <= 0x39,
        forall|k: int| 0 <= k < digits.len() ==> 0x30 <= #[trigger] digits[k] <= 0x39,
    ensures
        digits.len() == 0 ==> spelled(digits, signed) is None,
        digits.len() > 0 ==> spelled(digits, signed) is Some,
        spelled(seq![digit], signed) == Some(digit - 0x30),
        digits.len() > 0 ==> spelled(digits.push(digit), signed) == Some(
            10 * spelled(digits, signed)->0 + (digit - 0x30),
        ),
        spelled(seq![0x2Bu8] + digits, signed) == spelled(digits, signed),
        spelled(seq![0x2Du8] + digits, false) is None,
        digits.len() > 0 ==> spelled(seq![0x2Du8] + digits, true) == Some(
            -spelled(digits, signed)->0,
        ),
        digits.len() == 0 ==> spelled(seq![0x2Du8] + digits, true) is None,
{
    let one = seq![digit];
    assert(digits_value(one, 0, 0) == 0);
    assert(digits_value(one, 0, 1) == digit - 0x30);
    assert(all_digits(one, 0));
    let more = digits.push(digit);
    if digits.len() > 0 {
        assert(is_digit(digits[0]));
        assert(more[0] == digits[0]);
        assert(all_digits(digits, 0));
        assert forall|k: int| 0 <= k < more.len() implies is_digit(#[trigger] more[k]) by {
            if k < digits.len() {
                assert(more[k] == digits[k]);
            }
        }
        lemma_digits_value_shifts(digits, 0, more, 0, digits.len());
    }
    let plus = seq![0x2Bu8] + digits;
    let minus = seq![0x2Du8] + digits;
    assert(plus[0] == 0x2B && minus[0] == 0x2D);
    assert forall|k: int| 0 <= k < digits.len() implies digits[0 + k] == #[trigger] plus[1 + k] by {
    }
    assert forall|k: int| 0 <= k < digits.len() implies digits[0 + k] == #[trigger] minus[1 + k] by {
    }
    lemma_digits_value_shifts(digits, 0, plus, 1, digits.len());
    lemma_digits_value_shifts(digits, 0, minus, 1, digits.len());
    assert forall|k: int| 1 <= k < plus.len() implies is_digit(#[trigger] plus[k]) by {
        assert(plus[1 + (k - 1)] == digits[0 + (k - 1)]);
    }
    assert forall|k: int| 1 <= k < minus.len() implies is_digit(#[trigger] minus[k]) by {
        assert(minus[1 + (k - 1)] == digits[0 + (k - 1)]);
    }
    assert(!all_digits(minus, 0)) by {
        if all_digits(minus, 0) {
            assert(is_digit(minus[0]));
        }
    }
}

/// Nothing but digits spells a number, with one sign before them at most.
pub proof fn law_only_digits_spell_numbers(b: Seq<u8>, signed: bool)
    requires
        spelled(b, signed) is Some,
    ensures
        b.len() > 0,
        forall|k: int| 1 <= k < b.len() ==> 0x30 <= #[trigger] b[k] <= 0x39,
        b.len() == 1 ==> 0x30 <= b[0] <= 0x39,
        0x30 <= b[0] <= 0x39 || b[0] == 0x2B || (signed && b[0] == 0x2D),
{
    if 0x30 <= b[0] <= 0x39 {
    } else {
        assert(b[0] == 0x2B || b[0] == 0x2D) by {
            if all_digits(b, 0) {
                assert(is_digit(b[0]));
            }
        }
    }
    assert forall|k: int| 1 <= k < b.len() implies 0x30 <= #[trigger] b[k] <= 0x39 by {
        assert(is_digit(b[k]));
    }
}

/// A text that spells a number within bounds is read as that number, and no other
/// text is.
pub proof fn law_bounds_are_kept(text: Seq<char>, signed: bool, min: int, max: int)
    ensures
        spelled_within(text, signed, min, max) matches Some(n) ==> min <= n <= max && spelled(
            encode_utf8(text),
            signed,
        ) == Some(n),
        spelled(encode_utf8(text), signed) matches Some(n) && min <= n <= max ==> spelled_within(
            text,
            signed,
            min,
            max,
        ) == spelled(encode_utf8(text), signed),
{
}

/// A number below ten is one digit, and any other is ten times what comes before its
/// last digit and that digit. A minus sign stands before what is negative, and
/// nothing else does.
pub proof fn law_numbers_are_written_plainly(n: nat, digit: nat)
    requires
        digit < 10,
    ensures
        decimal(digit).len() == 1,
        decimal(digit)[0] as u32 == 0x30 + digit,
        n > 0 ==> decimal((10 * n + digit) as nat) == decimal(n) + decimal(digit),
        signed_decimal(n as int) == decimal(n),
        n > 0 ==> signed_decimal(-(n as int)) == seq!['-'] + decimal(n),
{
    assert(decimal(digit).len() == 1);
    if n > 0 {
        assert((10 * n + digit) / 10 == n);
        assert(decimal((10 * n + digit) as nat) =~= decimal(n) + decimal(digit));
    }
}

} // verus!
