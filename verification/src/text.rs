//! Strings: appending characters and numbers, and comparing prefixes.
use vstd::prelude::*;
use vstd::string::*;

use crate::bytes;

verus! {

/// `String::push` appends one character.
pub assume_specification[ std::string::String::push ](string: &mut std::string::String, ch: char)
    ensures
        final(string)@ == old(string)@.push(ch),
;

/// The decimal digits of a number, as characters.
pub open spec fn decimal_chars(n: nat) -> Seq<char> {
    Seq::new(bytes::decimal_text(n).len(), |i: int| bytes::decimal_text(n)[i] as char)
}

/// Appends the decimal digits of a number.
pub fn append_decimal(text: &mut String, number: usize)
    ensures
        final(text)@ == old(text)@ + decimal_chars(number as nat),
    decreases number,
{
    if number < 10 {
        text.push((number as u8 + 0x30) as char);
        assert(text@ =~= old(text)@ + decimal_chars(number as nat));
    } else {
        append_decimal(text, number / 10);
        text.push(((number % 10) as u8 + 0x30) as char);
        assert(text@ =~= old(text)@ + decimal_chars(number as nat));
    }
}

/// Whether two texts hold the same characters.
pub fn same_text(a: &str, b: &str) -> (same: bool)
    ensures
        same == (a@ == b@),
{
    let left = a.to_owned();
    let right = b.to_owned();
    left == right
}

/// The characters of each of several texts.
pub open spec fn texts(strings: Seq<String>) -> Seq<Seq<char>> {
    Seq::new(strings.len(), |i: int| strings[i]@)
}

/// The characters of a text.
pub fn chars_of(text: &str) -> (characters: Vec<char>)
    ensures
        characters@ == text@,
{
    let mut characters: Vec<char> = Vec::new();
    for character in it: text.chars()
        invariant
            it.seq() == text@,
            characters@ == it.seq().take(it.index() as int),
    {
        characters.push(character);
        assert(characters@ =~= it.seq().take(it.index() + 1));
    }
    assert(characters@ =~= text@);
    characters
}

/// Whether `prefix` stands at the start of `characters`.
pub fn starts_with(characters: &Vec<char>, prefix: &Vec<char>) -> (result: bool)
    ensures
        result == prefix@.is_prefix_of(characters@),
{
    if prefix.len() > characters.len() {
        return false;
    }
    let mut i: usize = 0;
    while i < prefix.len()
        invariant
            i <= prefix.len() <= characters.len(),
            forall|j: int| 0 <= j < i ==> prefix@[j] == characters@[j],
        decreases prefix.len() - i,
    {
        if prefix[i] != characters[i] {
            assert(characters@.subrange(0, prefix@.len() as int)[i as int] == characters@[i as int]);
            return false;
        }
        i = i + 1;
    }
    assert(prefix@ =~= characters@.subrange(0, prefix@.len() as int));
    true
}

/// A character with ASCII capitals made small.
pub open spec fn lower(character: char) -> char {
    if 'A' <= character <= 'Z' {
        (character as u32 + 32) as char
    } else {
        character
    }
}

/// Two texts that differ in the case of ASCII letters at most.
pub open spec fn same_ignoring_case(a: Seq<char>, b: Seq<char>) -> bool {
    a.len() == b.len() && forall|i: int|
        0 <= i < a.len() ==> lower(#[trigger] a[i]) == lower(b[i])
}

/// Two texts are the same without regard to case exactly where each character
/// is the same, or one is an ASCII capital and the other its small form.
pub proof fn case_is_all_that_is_ignored(a: Seq<char>, b: Seq<char>)
    ensures
        same_ignoring_case(a, b) <==> a.len() == b.len() && forall|i: int|
            0 <= i < a.len() ==> #[trigger] a[i] == b[i] || ('A' <= a[i] && a[i] <= 'Z' && b[i]
                as u32 == a[i] as u32 + 32) || ('A' <= b[i] && b[i] <= 'Z' && a[i] as u32 == b[i]
                as u32 + 32),
{
    if same_ignoring_case(a, b) {
        assert forall|i: int| 0 <= i < a.len() implies #[trigger] a[i] == b[i] || ('A' <= a[i]
            && a[i] <= 'Z' && b[i] as u32 == a[i] as u32 + 32) || ('A' <= b[i] && b[i] <= 'Z'
            && a[i] as u32 == b[i] as u32 + 32) by {
            assert(lower(a[i]) == lower(b[i]));
        }
    }
}

/// A number is written with the digits of its decimal text, and texts are seen
/// as they are.
pub proof fn numbers_and_texts_are_written_as_they_are(n: nat, strings: Seq<String>)
    ensures
        decimal_chars(n).len() == bytes::decimal_text(n).len(),
        forall|i: int|
            0 <= i < decimal_chars(n).len() ==> '0' <= #[trigger] decimal_chars(n)[i]
                && decimal_chars(n)[i] <= '9' && decimal_chars(n)[i] as u32
                == bytes::decimal_text(n)[i] as u32,
        texts(strings).len() == strings.len(),
        forall|i: int| 0 <= i < strings.len() ==> #[trigger] texts(strings)[i] == strings[i]@,
{
    bytes::decimal_text_has_no_leading_zero(n);
}

fn to_lower(character: char) -> (result: char)
    ensures
        result == lower(character),
{
    if 'A' <= character && character <= 'Z' {
        (character as u8 + 32) as char
    } else {
        character
    }
}

/// Whether two texts are the same but for the case of ASCII letters.
pub fn eq_ignore_ascii_case(a: &str, b: &str) -> (same: bool)
    ensures
        same == same_ignoring_case(a@, b@),
{
    let left = chars_of(a);
    let right = chars_of(b);
    if left.len() != right.len() {
        return false;
    }
    let mut i: usize = 0;
    while i < left.len()
        invariant
            i <= left.len(),
            left@ == a@,
            right@ == b@,
            left.len() == right.len(),
            forall|j: int| 0 <= j < i ==> lower(#[trigger] left@[j]) == lower(right@[j]),
        decreases left.len() - i,
    {
        if to_lower(left[i]) != to_lower(right[i]) {
            return false;
        }
        i = i + 1;
    }
    true
}

} // verus!
