//! Bytes and ASCII text: trimming, comparison without regard to case, line
//! breaks and decimal numbers.
use vstd::prelude::*;

verus! {

/// The bytes of an ASCII text.
pub open spec fn ascii(text: Seq<char>) -> Seq<u8> {
    Seq::new(text.len(), |i: int| text[i] as u8)
}

/// The line break between the lines of a header.
pub open spec fn crlf() -> Seq<u8> {
    seq![0x0du8, 0x0au8]
}

/// Whether an ASCII whitespace byte: space, tab, line feed, form feed or
/// carriage return.
pub open spec fn is_space(byte: u8) -> bool {
    byte == 0x20 || byte == 0x09 || byte == 0x0a || byte == 0x0c || byte == 0x0d
}

/// `s` without the whitespace at its start.
pub open spec fn trim_start(s: Seq<u8>) -> Seq<u8>
    decreases s.len(),
{
    if s.len() > 0 && is_space(s[0]) {
        trim_start(s.drop_first())
    } else {
        s
    }
}

/// `s` without the whitespace at its end.
pub open spec fn trim_end(s: Seq<u8>) -> Seq<u8>
    decreases s.len(),
{
    if s.len() > 0 && is_space(s.last()) {
        trim_end(s.drop_last())
    } else {
        s
    }
}

/// `s` without the whitespace at either end.
pub open spec fn trimmed(s: Seq<u8>) -> Seq<u8> {
    trim_end(trim_start(s))
}

/// The lower case of an ASCII letter; any other byte is its own lower case.
pub open spec fn lower(byte: u8) -> u8 {
    if 0x41 <= byte <= 0x5a {
        (byte + 0x20) as u8
    } else {
        byte
    }
}

/// Equality without regard to the case of ASCII letters.
pub open spec fn same_ignoring_case(a: Seq<u8>, b: Seq<u8>) -> bool {
    a.len() == b.len() && forall|i: int| 0 <= i < a.len() ==> lower(a[i]) == lower(b[i])
}

/// A carriage return and a line feed stand at position `i` of `s`.
pub open spec fn crlf_at(s: Seq<u8>, i: int) -> bool {
    0 <= i && i + 1 < s.len() && s[i] == 0x0d && s[i + 1] == 0x0a
}

/// `i` is the first position of `s` at which a line break stands.
pub open spec fn first_crlf_at(s: Seq<u8>, i: int) -> bool {
    crlf_at(s, i) && forall|j: int| j < i ==> !crlf_at(s, j)
}

/// `i` is the first position of `s` that holds `byte`.
pub open spec fn first_at(s: Seq<u8>, byte: u8, i: int) -> bool {
    0 <= i < s.len() && s[i] == byte && forall|j: int| 0 <= j < i ==> s[j] != byte
}

pub open spec fn is_digit(byte: u8) -> bool {
    0x30 <= byte <= 0x39
}

pub open spec fn all_digits(s: Seq<u8>) -> bool {
    forall|i: int| 0 <= i < s.len() ==> is_digit(#[trigger] s[i])
}

/// The number that decimal digits stand for.
pub open spec fn decimal_value(s: Seq<u8>) -> nat
    decreases s.len(),
{
    if s.len() == 0 {
        0
    } else {
        decimal_value(s.drop_last()) * 10 + (s.last() - 0x30) as nat
    }
}

/// The decimal digits of a number, without leading zeros.
pub open spec fn decimal_text(n: nat) -> Seq<u8>
    decreases n,
{
    if n < 10 {
        seq![(n + 0x30) as u8]
    } else {
        decimal_text(n / 10).push((n % 10 + 0x30) as u8)
    }
}

/// The decimal text of a number consists of digits, is not empty, and stands
/// for that number.
pub proof fn decimal_round_trip(n: nat)
    ensures
        all_digits(decimal_text(n)),
        decimal_text(n).len() > 0,
        decimal_value(decimal_text(n)) == n,
    decreases n,
{
    if n < 10 {
        let text = decimal_text(n);
        assert(text.drop_last() =~= Seq::<u8>::empty());
        assert(decimal_value(text.drop_last()) == 0);
    } else {
        decimal_round_trip(n / 10);
        let text = decimal_text(n);
        assert(text.drop_last() =~= decimal_text(n / 10));
    }
}

/// Leading digits never make a number larger than the whole.
pub proof fn lemma_decimal_value_prefix(s: Seq<u8>, i: int)
    requires
        all_digits(s),
        0 <= i <= s.len(),
    ensures
        decimal_value(s.take(i)) <= decimal_value(s),
    decreases s.len() - i,
{
    if i < s.len() {
        lemma_decimal_value_prefix(s, i + 1);
        assert(s.take(i + 1).drop_last() =~= s.take(i));
        assert(is_digit(s[i]));
    } else {
        assert(s.take(i) =~= s);
    }
}

/// Trimming takes away the whitespace around a text, all of it, and nothing
/// else: not the whitespace inside it.
pub proof fn trimming_takes_away_whitespace(before: Seq<u8>, middle: Seq<u8>, after: Seq<u8>)
    requires
        forall|i: int|
            0 <= i < before.len() ==> #[trigger] before[i] == 0x20 || before[i] == 0x09 || before[i]
                == 0x0a || before[i] == 0x0c || before[i] == 0x0d,
        forall|i: int|
            0 <= i < after.len() ==> #[trigger] after[i] == 0x20 || after[i] == 0x09 || after[i]
                == 0x0a || after[i] == 0x0c || after[i] == 0x0d,
        middle.len() > 0 ==> !(middle[0] == 0x20 || middle[0] == 0x09 || middle[0] == 0x0a
            || middle[0] == 0x0c || middle[0] == 0x0d),
        middle.len() > 0 ==> !(middle.last() == 0x20 || middle.last() == 0x09 || middle.last()
            == 0x0a || middle.last() == 0x0c || middle.last() == 0x0d),
    ensures
        trimmed(before + middle + after) == middle,
    decreases before.len() + after.len(),
{
    let s = before + middle + after;
    if before.len() > 0 {
        assert(s[0] == before[0]);
        assert(s.drop_first() =~= before.drop_first() + middle + after);
        assert forall|i: int| 0 <= i < before.drop_first().len() implies #[trigger] before.drop_first()[i]
            == 0x20 || before.drop_first()[i] == 0x09 || before.drop_first()[i] == 0x0a
            || before.drop_first()[i] == 0x0c || before.drop_first()[i] == 0x0d by {
            assert(before.drop_first()[i] == before[i + 1]);
        }
        trimming_takes_away_whitespace(before.drop_first(), middle, after);
    } else if middle.len() == 0 && after.len() > 0 {
        assert(s =~= after);
        assert(s[0] == after[0]);
        assert(s.drop_first() =~= before + middle + after.drop_first());
        assert forall|i: int| 0 <= i < after.drop_first().len() implies #[trigger] after.drop_first()[i]
            == 0x20 || after.drop_first()[i] == 0x09 || after.drop_first()[i] == 0x0a
            || after.drop_first()[i] == 0x0c || after.drop_first()[i] == 0x0d by {
            assert(after.drop_first()[i] == after[i + 1]);
        }
        trimming_takes_away_whitespace(before, middle, after.drop_first());
    } else if middle.len() == 0 {
        assert(s =~= middle);
    } else {
        assert(s[0] == middle[0]);
        assert(trim_start(s) == s);
        if after.len() > 0 {
            assert(s.last() == after.last());
            assert(s.drop_last() =~= before + middle + after.drop_last());
            trimming_takes_away_whitespace(before, middle, after.drop_last());
            assert(s.drop_last()[0] == middle[0]);
            assert(trim_start(s.drop_last()) == s.drop_last());
        } else {
            assert(s =~= middle);
        }
    }
}

/// The bytes of an ASCII text are its characters, one for one.
pub proof fn ascii_keeps_every_character(text: Seq<char>, i: int)
    requires
        0 <= i < text.len(),
        0 <= text[i] as int <= 0x7f,
    ensures
        ascii(text).len() == text.len(),
        ascii(text)[i] as int == text[i] as int,
{
}

/// Two texts are the same without regard to case exactly where each byte is
/// the same, or one is a capital letter and the other its small form.
pub proof fn case_is_all_that_is_ignored(a: Seq<u8>, b: Seq<u8>)
    ensures
        same_ignoring_case(a, b) <==> a.len() == b.len() && forall|i: int|
            0 <= i < a.len() ==> #[trigger] a[i] == b[i] || (0x41 <= a[i] <= 0x5a && b[i] == a[i]
                + 0x20) || (0x41 <= b[i] <= 0x5a && a[i] == b[i] + 0x20),
{
    if same_ignoring_case(a, b) {
        assert forall|i: int| 0 <= i < a.len() implies #[trigger] a[i] == b[i] || (0x41 <= a[i]
            <= 0x5a && b[i] == a[i] + 0x20) || (0x41 <= b[i] <= 0x5a && a[i] == b[i] + 0x20) by {
            assert(lower(a[i]) == lower(b[i]));
        }
    }
}

/// A digit stands for its place in the decimal system: digits in front of
/// others count ten times as much for each of these.
pub proof fn digits_count_by_their_place(first: Seq<u8>, rest: Seq<u8>, digit: u8)
    requires
        0x30 <= digit <= 0x39,
    ensures
        decimal_value(seq![digit]) == digit - 0x30,
        decimal_value(first + rest) == decimal_value(first) * vstd::arithmetic::power::pow(
            10,
            rest.len(),
        ) + decimal_value(rest),
    decreases rest.len(),
{
    assert(seq![digit].drop_last() =~= Seq::<u8>::empty());
    assert(decimal_value(Seq::<u8>::empty()) == 0);
    if rest.len() == 0 {
        vstd::arithmetic::power::lemma_pow0(10);
        assert(first + rest =~= first);
    } else {
        let shorter = rest.drop_last();
        digits_count_by_their_place(first, shorter, digit);
        assert((first + rest).drop_last() =~= first + shorter);
        assert((first + rest).last() == rest.last());
        let power = vstd::arithmetic::power::pow(10, shorter.len());
        vstd::arithmetic::power::lemma_pow_adds(10, shorter.len(), 1);
        vstd::arithmetic::power::lemma_pow1(10);
        let value = decimal_value(first);
        assert(value * (power * 10) == (value * power) * 10) by (nonlinear_arith);
    }
}

/// The decimal text of a number has no zero in front, but for the number zero.
pub proof fn decimal_text_has_no_leading_zero(n: nat)
    ensures
        decimal_text(n).len() > 0,
        forall|i: int|
            0 <= i < decimal_text(n).len() ==> 0x30 <= #[trigger] decimal_text(n)[i] <= 0x39,
        decimal_text(n)[0] == 0x30 ==> n == 0 && decimal_text(n).len() == 1,
        decimal_value(decimal_text(n)) == n,
    decreases n,
{
    decimal_round_trip(n);
    assert forall|i: int| 0 <= i < decimal_text(n).len() implies 0x30 <= #[trigger] decimal_text(
        n,
    )[i] <= 0x39 by {
        assert(is_digit(decimal_text(n)[i]));
    }
    if n >= 10 {
        decimal_text_has_no_leading_zero(n / 10);
        assert(decimal_text(n)[0] == decimal_text(n / 10)[0]);
    }
}

/// Zeros in front of digits do not change what they stand for.
pub proof fn leading_zeros_do_not_count(zeros: Seq<u8>, digits: Seq<u8>)
    requires
        forall|i: int| 0 <= i < zeros.len() ==> #[trigger] zeros[i] == 0x30,
    ensures
        decimal_value(zeros + digits) == decimal_value(digits),
    decreases digits.len(), zeros.len(),
{
    if digits.len() > 0 {
        leading_zeros_do_not_count(zeros, digits.drop_last());
        assert((zeros + digits).drop_last() =~= zeros + digits.drop_last());
    } else if zeros.len() > 0 {
        assert(zeros.last() == 0x30);
        leading_zeros_do_not_count(zeros.drop_last(), digits);
        assert((zeros + digits).drop_last() =~= zeros.drop_last() + digits);
    } else {
        assert(zeros + digits =~= digits);
    }
}

/// The bytes of a literal of ASCII characters.
pub fn ascii_bytes(text: &str) -> (bytes: &[u8])
    requires
        text.is_ascii(),
    ensures
        bytes@ == ascii(text@),
{
    proof {
        vstd::utf8::is_ascii_chars_encode_utf8(text@);
    }
    let bytes = text.as_bytes();
    assert(bytes@ =~= ascii(text@));
    bytes
}

pub fn is_ascii_whitespace(byte: u8) -> (space: bool)
    ensures
        space == is_space(byte),
{
    byte == 0x20 || byte == 0x09 || byte == 0x0a || byte == 0x0c || byte == 0x0d
}

pub fn to_ascii_lowercase(byte: u8) -> (result: u8)
    ensures
        result == lower(byte),
{
    if 0x41 <= byte && byte <= 0x5a {
        byte + 0x20
    } else {
        byte
    }
}

/// Whether two byte strings are equal without regard to the case of ASCII
/// letters.
pub fn eq_ignore_ascii_case(a: &[u8], b: &[u8]) -> (same: bool)
    ensures
        same == same_ignoring_case(a@, b@),
{
    if a.len() != b.len() {
        return false;
    }
    let mut i: usize = 0;
    while i < a.len()
        invariant
            i <= a.len(),
            a.len() == b.len(),
            forall|j: int| 0 <= j < i ==> lower(a@[j]) == lower(b@[j]),
        decreases a.len() - i,
    {
        if to_ascii_lowercase(a[i]) != to_ascii_lowercase(b[i]) {
            return false;
        }
        i = i + 1;
    }
    true
}

/// Removes ASCII whitespace from both ends.
pub fn trim_ascii_whitespace(value: &[u8]) -> (result: &[u8])
    ensures
        result@ == trimmed(value@),
{
    let mut start: usize = 0;
    assert(value@.skip(0) =~= value@);
    while start < value.len() && is_ascii_whitespace(value[start])
        invariant
            start <= value.len(),
            trim_start(value@.skip(start as int)) == trim_start(value@),
        decreases value.len() - start,
    {
        assert(value@.skip(start as int).drop_first() =~= value@.skip(start + 1));
        start = start + 1;
    }
    let mut end: usize = value.len();
    assert(value@.subrange(start as int, end as int) =~= value@.skip(start as int));
    while start < end && is_ascii_whitespace(value[end - 1])
        invariant
            start <= end <= value.len(),
            trim_end(value@.subrange(start as int, end as int)) == trimmed(value@),
        decreases end - start,
    {
        assert(value@.subrange(start as int, end as int).drop_last() =~= value@.subrange(
            start as int,
            end - 1,
        ));
        end = end - 1;
    }
    vstd::slice::slice_subrange(value, start, end)
}

/// The position of the first line break.
pub fn find_crlf(value: &[u8]) -> (position: Option<usize>)
    ensures
        match position {
            Some(i) => first_crlf_at(value@, i as int),
            None => forall|j: int| !crlf_at(value@, j),
        },
{
    let mut i: usize = 0;
    while i < value.len()
        invariant
            i <= value.len(),
            forall|j: int| j < i ==> !crlf_at(value@, j),
        decreases value.len() - i,
    {
        if value.len() - i >= 2 && value[i] == 0x0d && value[i + 1] == 0x0a {
            return Some(i);
        }
        i = i + 1;
    }
    None
}

/// The position of the first occurrence of a byte.
pub fn find_byte(value: &[u8], byte: u8) -> (position: Option<usize>)
    ensures
        match position {
            Some(i) => first_at(value@, byte, i as int),
            None => !value@.contains(byte),
        },
{
    let mut i: usize = 0;
    while i < value.len()
        invariant
            i <= value.len(),
            forall|j: int| 0 <= j < i ==> value@[j] != byte,
        decreases value.len() - i,
    {
        if value[i] == byte {
            return Some(i);
        }
        i = i + 1;
    }
    None
}

/// Whether every byte is a decimal digit.
pub fn is_decimal(value: &[u8]) -> (result: bool)
    ensures
        result == all_digits(value@),
{
    let mut i: usize = 0;
    while i < value.len()
        invariant
            i <= value.len(),
            forall|j: int| 0 <= j < i ==> is_digit(#[trigger] value@[j]),
        decreases value.len() - i,
    {
        if value[i] < 0x30 || value[i] > 0x39 {
            assert(!is_digit(value@[i as int]));
            return false;
        }
        i = i + 1;
    }
    true
}

/// Reads decimal digits; `None` means that the number does not fit in `usize`.
pub fn parse_decimal(value: &[u8]) -> (number: Option<usize>)
    requires
        all_digits(value@),
    ensures
        match number {
            Some(n) => n == decimal_value(value@),
            None => decimal_value(value@) > usize::MAX,
        },
{
    let mut number: usize = 0;
    let mut i: usize = 0;
    assert(value@.take(0) =~= Seq::<u8>::empty());
    while i < value.len()
        invariant
            i <= value.len(),
            all_digits(value@),
            number == decimal_value(value@.take(i as int)),
        decreases value.len() - i,
    {
        assert(is_digit(value@[i as int]));
        let digit: usize = (value[i] - 0x30) as usize;
        proof {
            assert(value@.take(i + 1).drop_last() =~= value@.take(i as int));
            assert(decimal_value(value@.take(i + 1)) == number * 10 + digit);
            lemma_decimal_value_prefix(value@, i + 1);
        }
        if number > usize::MAX / 10 {
            return None;
        }
        if number * 10 > usize::MAX - digit {
            return None;
        }
        number = number * 10 + digit;
        i = i + 1;
    }
    assert(value@.take(i as int) =~= value@);
    Some(number)
}

/// Appends the decimal digits of a number.
pub fn push_decimal(output: &mut Vec<u8>, number: usize)
    ensures
        final(output)@ == old(output)@ + decimal_text(number as nat),
    decreases number,
{
    if number < 10 {
        output.push(number as u8 + 0x30);
        assert(output@ =~= old(output)@ + decimal_text(number as nat));
    } else {
        push_decimal(output, number / 10);
        output.push((number % 10) as u8 + 0x30);
        assert(output@ =~= old(output)@ + decimal_text(number as nat));
    }
}

/// Appends bytes.
pub fn push_bytes(output: &mut Vec<u8>, bytes: &[u8])
    ensures
        final(output)@ == old(output)@ + bytes@,
{
    output.extend_from_slice(bytes);
    assert(output@ =~= old(output)@ + bytes@);
}

} // verus!
