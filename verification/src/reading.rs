//! How headers and messages are read, however they are spelled.
//!
//! The laws here speak of the bytes of a stream alone: which lines give the
//! length of a body, which are kept, which are refused and why, and where a
//! message ends.
use vstd::prelude::*;

use crate::bytes;
use crate::error::RelayError;
use crate::frame;
use crate::frame::Frame;
use crate::header;
use crate::header::HeaderFields;
use crate::round_trip;

verus! {

/// Nothing but spaces, tabs and form feeds.
pub open spec fn is_blank(s: Seq<u8>) -> bool {
    forall|i: int| 0 <= i < s.len() ==> #[trigger] s[i] == 0x20 || s[i] == 0x09 || s[i] == 0x0c
}

/// Neither a carriage return nor a line feed.
pub open spec fn is_one_line(s: Seq<u8>) -> bool {
    forall|i: int| 0 <= i < s.len() ==> #[trigger] s[i] != 0x0d && s[i] != 0x0a
}

/// `Content-Length`, with each letter large or small.
pub open spec fn spells_content_length(name: Seq<u8>) -> bool {
    &&& name.len() == 14
    &&& forall|i: int|
        #![trigger name[i]]
        0 <= i < 14 ==> {
            let letter = "Content-Length"@[i] as u8;
            ||| name[i] == letter
            ||| (0x41 <= letter <= 0x5a && name[i] == letter + 0x20)
            ||| (0x61 <= letter <= 0x7a && name[i] == letter - 0x20)
        }
}

/// A line that gives the length of a body, in one of its many spellings.
pub ghost struct LengthLine {
    pub before: Seq<u8>,
    pub name: Seq<u8>,
    pub between: Seq<u8>,
    pub gap: Seq<u8>,
    pub zeros: Seq<u8>,
    pub length: nat,
    pub after: Seq<u8>,
}

impl LengthLine {
    /// Blanks may stand around the name and the number, zeros in front of the
    /// number, and the name in any case.
    pub open spec fn is_valid(self) -> bool {
        &&& is_blank(self.before)
        &&& spells_content_length(self.name)
        &&& is_blank(self.between)
        &&& is_blank(self.gap)
        &&& forall|i: int| 0 <= i < self.zeros.len() ==> #[trigger] self.zeros[i] == 0x30
        &&& is_blank(self.after)
    }

    pub open spec fn label(self) -> Seq<u8> {
        self.before + self.name + self.between
    }

    pub open spec fn digits(self) -> Seq<u8> {
        self.zeros + bytes::decimal_text(self.length)
    }

    pub open spec fn text(self) -> Seq<u8> {
        self.label() + seq![0x3au8] + (self.gap + self.digits() + self.after)
    }
}

/// The part of a line in front of its first colon names the length of the
/// body.
pub open spec fn names_the_length(label: Seq<u8>) -> bool {
    exists|from: int, to: int|
        0 <= from <= to <= label.len() && is_blank(#[trigger] label.take(from)) && is_blank(
            #[trigger] label.skip(to),
        ) && spells_content_length(label.subrange(from, to))
}

/// A line with a name of its own.
pub open spec fn is_other_line(line: Seq<u8>) -> bool {
    exists|label: Seq<u8>, value: Seq<u8>|
        line == #[trigger] (label + seq![0x3au8] + value) && is_one_line(line)
            && !label.contains(0x3a) && !is_blank(label) && !names_the_length(label)
}

proof fn lemma_trimmed_cut(s: Seq<u8>) -> (cut: (int, int))
    ensures
        0 <= cut.0 <= cut.1 <= s.len(),
        bytes::trimmed(s) == s.subrange(cut.0, cut.1),
        forall|i: int| 0 <= i < cut.0 ==> bytes::is_space(#[trigger] s[i]),
        forall|i: int| cut.1 <= i < s.len() ==> bytes::is_space(#[trigger] s[i]),
    decreases s.len(),
{
    if s.len() > 0 && bytes::is_space(s[0]) {
        let inner = lemma_trimmed_cut(s.drop_first());
        assert(s.drop_first().subrange(inner.0, inner.1) =~= s.subrange(inner.0 + 1, inner.1 + 1));
        assert forall|i: int| 0 <= i < inner.0 + 1 implies bytes::is_space(#[trigger] s[i]) by {
            if i > 0 {
                assert(s.drop_first()[i - 1] == s[i]);
            }
        }
        assert forall|i: int| inner.1 + 1 <= i < s.len() implies bytes::is_space(
            #[trigger] s[i],
        ) by {
            assert(s.drop_first()[i - 1] == s[i]);
        }
        (inner.0 + 1, inner.1 + 1)
    } else if s.len() > 0 && bytes::is_space(s.last()) {
        let shorter = s.drop_last();
        assert(shorter.len() > 0 ==> shorter[0] == s[0]);
        assert(bytes::trim_start(shorter) == shorter);
        let inner = lemma_trimmed_cut(shorter);
        assert(shorter.subrange(inner.0, inner.1) =~= s.subrange(inner.0, inner.1));
        assert forall|i: int| 0 <= i < inner.0 implies bytes::is_space(#[trigger] s[i]) by {
            assert(shorter[i] == s[i]);
        }
        assert forall|i: int| inner.1 <= i < s.len() implies bytes::is_space(#[trigger] s[i]) by {
            if i < s.len() - 1 {
                assert(shorter[i] == s[i]);
            }
        }
        (inner.0, inner.1)
    } else {
        assert(s.subrange(0, s.len() as int) =~= s);
        (0, s.len() as int)
    }
}

/// A name in any case is the name of the length.
proof fn lemma_spelling(name: Seq<u8>)
    ensures
        spells_content_length(name) <==> bytes::same_ignoring_case(
            name,
            header::content_length_name(),
        ),
{
    reveal_strlit("Content-Length");
    let plain = header::content_length_name();
    bytes::case_is_all_that_is_ignored(name, plain);
    if spells_content_length(name) {
        assert forall|i: int| 0 <= i < name.len() implies #[trigger] name[i] == plain[i] || (0x41
            <= name[i] <= 0x5a && plain[i] == name[i] + 0x20) || (0x41 <= plain[i] <= 0x5a
            && name[i] == plain[i] + 0x20) by {
            assert(plain[i] == "Content-Length"@[i] as u8);
        }
    }
    if bytes::same_ignoring_case(name, plain) {
        assert(plain.len() == 14);
        assert forall|i: int|
            #![trigger name[i]]
            0 <= i < 14 implies {
            let letter = "Content-Length"@[i] as u8;
            ||| name[i] == letter
            ||| (0x41 <= letter <= 0x5a && name[i] == letter + 0x20)
            ||| (0x61 <= letter <= 0x7a && name[i] == letter - 0x20)
        } by {
            assert(plain[i] == "Content-Length"@[i] as u8);
            assert(bytes::lower(name[i]) == bytes::lower(plain[i]));
        }
    }
}

/// Where the first colon stands.
proof fn lemma_colon(label: Seq<u8>, value: Seq<u8>)
    requires
        !label.contains(0x3a),
    ensures
        ({
            let line = label + seq![0x3au8] + value;
            &&& line.contains(0x3a)
            &&& bytes::first_at(line, 0x3a, label.len() as int)
            &&& forall|c: int| bytes::first_at(line, 0x3a, c) ==> c == label.len()
            &&& line.take(label.len() as int) == label
            &&& line.skip((label.len() + 1) as int) == value
        }),
{
    let line = label + seq![0x3au8] + value;
    let at = label.len() as int;
    assert(line[at] == 0x3a);
    assert forall|j: int| 0 <= j < at implies line[j] != 0x3a by {
        assert(line[j] == label[j]);
        assert(label.contains(label[j]));
    }
    assert(line.take(at) =~= label);
    assert(line.skip(at + 1) =~= value);
}

/// The name of the length, with blanks around it.
proof fn lemma_label(before: Seq<u8>, name: Seq<u8>, between: Seq<u8>)
    requires
        is_blank(before),
        spells_content_length(name),
        is_blank(between),
    ensures
        bytes::trimmed(before + name + between) == name,
        !(before + name + between).contains(0x3a),
        is_one_line(before + name + between),
{
    reveal_strlit("Content-Length");
    assert("Content-Length"@[0] == 'C' && "Content-Length"@[13] == 'h');
    assert(name[0] == 0x43 || name[0] == 0x63);
    assert(name[13] == 0x68 || name[13] == 0x48);
    bytes::trimming_takes_away_whitespace(before, name, between);
    let label = before + name + between;
    assert forall|i: int| 0 <= i < label.len() implies #[trigger] label[i] != 0x3a && label[i]
        != 0x0d && label[i] != 0x0a by {
        if i < before.len() {
            assert(label[i] == before[i]);
        } else if i < before.len() + 14 {
            assert(label[i] == name[i - before.len()]);
            let letter = "Content-Length"@[i - before.len()] as u8;
            assert(letter == 0x2d || 0x41 <= letter <= 0x5a || 0x61 <= letter <= 0x7a);
        } else {
            assert(label[i] == between[i - before.len() - 14]);
        }
    }
}

/// A line that names the length and gives it in digits sets the length to the
/// number that the digits stand for, whatever the case of the name, the blanks
/// around name and number, and the zeros in front of the number.
pub proof fn any_spelling_of_the_length_is_read(fields: HeaderFields, line: LengthLine)
    requires
        line.is_valid(),
        line.length <= usize::MAX,
        fields.content_length is None,
    ensures
        is_one_line(line.text()),
        line.text().len() > 0,
        header::add_line(fields, line.text()) == Ok::<HeaderFields, RelayError>(
            HeaderFields {
                content_length: Some(line.length as usize),
                additional_headers: fields.additional_headers,
            },
        ),
{
    let digits = line.digits();
    let value = line.gap + digits + line.after;
    lemma_label(line.before, line.name, line.between);
    lemma_colon(line.label(), value);
    lemma_spelling(line.name);
    bytes::decimal_text_has_no_leading_zero(line.length);
    bytes::leading_zeros_do_not_count(line.zeros, bytes::decimal_text(line.length));
    assert forall|i: int| 0 <= i < digits.len() implies 0x30 <= #[trigger] digits[i] <= 0x39 by {
        if i >= line.zeros.len() {
            assert(digits[i] == bytes::decimal_text(line.length)[i - line.zeros.len()]);
        } else {
            assert(digits[i] == line.zeros[i]);
        }
    }
    bytes::trimming_takes_away_whitespace(line.gap, digits, line.after);
    assert(bytes::all_digits(digits));
    round_trip::lemma_digits_are_utf8(digits);
    let text = line.text();
    assert forall|i: int| 0 <= i < text.len() implies #[trigger] text[i] != 0x0d && text[i]
        != 0x0a by {
        let start = line.label().len() + 1;
        if i < line.label().len() {
            assert(text[i] == line.label()[i]);
        } else if i >= start {
            assert(text[i] == value[i - start]);
            let at = i - start;
            if at < line.gap.len() {
                assert(value[at] == line.gap[at]);
            } else if at < line.gap.len() + digits.len() {
                assert(value[at] == digits[at - line.gap.len()]);
            } else {
                assert(value[at] == line.after[at - line.gap.len() - digits.len()]);
            }
        }
    }
}

/// What trimming leaves of the label of a line.
proof fn lemma_trimmed_label(label: Seq<u8>)
    requires
        is_one_line(label),
    ensures
        is_blank(label) <==> bytes::trimmed(label).len() == 0,
        names_the_length(label) <==> bytes::same_ignoring_case(
            bytes::trimmed(label),
            header::content_length_name(),
        ),
{
    let cut = lemma_trimmed_cut(label);
    let name = label.subrange(cut.0, cut.1);
    lemma_spelling(name);
    assert forall|i: int| 0 <= i < cut.0 implies #[trigger] label.take(cut.0)[i] == 0x20
        || label.take(cut.0)[i] == 0x09 || label.take(cut.0)[i] == 0x0c by {
        assert(label.take(cut.0)[i] == label[i]);
    }
    assert forall|i: int| 0 <= i < label.len() - cut.1 implies #[trigger] label.skip(cut.1)[i]
        == 0x20 || label.skip(cut.1)[i] == 0x09 || label.skip(cut.1)[i] == 0x0c by {
        assert(label.skip(cut.1)[i] == label[i + cut.1]);
    }
    assert(is_blank(label.take(cut.0)) && is_blank(label.skip(cut.1)));
    if bytes::same_ignoring_case(name, header::content_length_name()) {
        assert(names_the_length(label));
    }
    if names_the_length(label) {
        let (from, to) = choose|from: int, to: int|
            0 <= from <= to <= label.len() && is_blank(#[trigger] label.take(from)) && is_blank(
                #[trigger] label.skip(to),
            ) && spells_content_length(label.subrange(from, to));
        lemma_label(label.take(from), label.subrange(from, to), label.skip(to));
        assert(label.take(from) + label.subrange(from, to) + label.skip(to) =~= label);
        lemma_spelling(label.subrange(from, to));
    }
    if is_blank(label) {
        bytes::trimming_takes_away_whitespace(label, Seq::empty(), Seq::empty());
        assert(label + Seq::empty() + Seq::empty() =~= label);
    }
    if bytes::trimmed(label).len() == 0 {
        assert(cut.0 == cut.1);
        assert forall|i: int| 0 <= i < label.len() implies #[trigger] label[i] == 0x20 || label[i]
            == 0x09 || label[i] == 0x0c by {
            assert(bytes::is_space(label[i]));
        }
    }
}

/// A line with a name of its own is kept as it stands, and does not touch the
/// length.
pub proof fn other_lines_are_kept(fields: HeaderFields, line: Seq<u8>)
    requires
        is_other_line(line),
    ensures
        line.len() > 0,
        header::add_line(fields, line) == Ok::<HeaderFields, RelayError>(
            HeaderFields {
                content_length: fields.content_length,
                additional_headers: fields.additional_headers.push(line),
            },
        ),
{
    let (label, value) = choose|label: Seq<u8>, value: Seq<u8>|
        line == #[trigger] (label + seq![0x3au8] + value) && is_one_line(line)
            && !label.contains(0x3a) && !is_blank(label) && !names_the_length(label);
    lemma_colon(label, value);
    assert forall|i: int| 0 <= i < label.len() implies #[trigger] label[i] != 0x0d && label[i]
        != 0x0a by {
        assert(line[i] == label[i]);
    }
    lemma_trimmed_label(label);
}

/// Why a line is refused: for a bare line break, for want of a colon, for want
/// of a name, or for a second length.
pub proof fn bad_lines_are_refused(fields: HeaderFields, line: Seq<u8>)
    ensures
        !is_one_line(line) ==> header::add_line(fields, line) == Err::<HeaderFields, RelayError>(
            RelayError::BareLineBreak,
        ),
        is_one_line(line) && !line.contains(0x3a) ==> header::add_line(fields, line) == Err::<
            HeaderFields,
            RelayError,
        >(RelayError::MissingColon),
        forall|label: Seq<u8>, value: Seq<u8>|
            line == #[trigger] (label + seq![0x3au8] + value) && is_one_line(line)
                && !label.contains(0x3a) && is_blank(label) ==> header::add_line(fields, line)
                == Err::<HeaderFields, RelayError>(RelayError::EmptyName),
        forall|label: Seq<u8>, value: Seq<u8>|
            line == #[trigger] (label + seq![0x3au8] + value) && is_one_line(line)
                && !label.contains(0x3a) && names_the_length(label)
                && fields.content_length is Some ==> header::add_line(fields, line) == Err::<
                HeaderFields,
                RelayError,
            >(RelayError::DuplicateContentLength),
{
    if !is_one_line(line) {
        let i = choose|i: int| 0 <= i < line.len() && (line[i] == 0x0d || line[i] == 0x0a);
        assert(line.contains(line[i]));
    }
    assert forall|label: Seq<u8>, value: Seq<u8>|
        line == #[trigger] (label + seq![0x3au8] + value) && is_one_line(line) && !label.contains(
            0x3a,
        ) && is_blank(label) implies header::add_line(fields, line) == Err::<
        HeaderFields,
        RelayError,
    >(RelayError::EmptyName) by {
        lemma_colon(label, value);
        assert forall|i: int| 0 <= i < label.len() implies #[trigger] label[i] != 0x0d && label[i]
            != 0x0a by {
            assert(line[i] == label[i]);
        }
        lemma_trimmed_label(label);
    }
    assert forall|label: Seq<u8>, value: Seq<u8>|
        line == #[trigger] (label + seq![0x3au8] + value) && is_one_line(line) && !label.contains(
            0x3a,
        ) && names_the_length(label) && fields.content_length is Some implies header::add_line(
        fields,
        line,
    ) == Err::<HeaderFields, RelayError>(RelayError::DuplicateContentLength) by {
        lemma_colon(label, value);
        assert forall|i: int| 0 <= i < label.len() implies #[trigger] label[i] != 0x0d && label[i]
            != 0x0a by {
            assert(line[i] == label[i]);
        }
        lemma_trimmed_label(label);
        reveal_strlit("Content-Length");
        assert(header::content_length_name().len() == 14);
    }
}

/// Why the value of a length is refused: it is no UTF-8, it is no number, or
/// the number is too large for the machine.
pub proof fn bad_lengths_are_refused(
    fields: HeaderFields,
    label: Seq<u8>,
    gap: Seq<u8>,
    value: Seq<u8>,
    after: Seq<u8>,
)
    requires
        fields.content_length is None,
        is_one_line(label),
        !label.contains(0x3a),
        names_the_length(label),
        is_blank(gap),
        is_blank(after),
        is_one_line(value),
        value.len() > 0 ==> !is_blank(seq![value[0]]) && !is_blank(seq![value.last()]),
    ensures
        ({
            let line = label + seq![0x3au8] + (gap + value + after);
            let digits = value.len() > 0 && forall|i: int|
                0 <= i < value.len() ==> 0x30 <= #[trigger] value[i] <= 0x39;
            &&& !vstd::utf8::valid_utf8(value) ==> header::add_line(fields, line) == Err::<
                HeaderFields,
                RelayError,
            >(RelayError::NonUtf8ContentLength)
            &&& vstd::utf8::valid_utf8(value) && !digits ==> header::add_line(fields, line)
                == Err::<HeaderFields, RelayError>(RelayError::NonDecimalContentLength)
            &&& digits && bytes::decimal_value(value) > usize::MAX ==> header::add_line(
                fields,
                line,
            ) == Err::<HeaderFields, RelayError>(RelayError::ContentLengthOutOfRange)
        }),
{
    let rest = gap + value + after;
    let line = label + seq![0x3au8] + rest;
    lemma_colon(label, rest);
    lemma_trimmed_label(label);
    reveal_strlit("Content-Length");
    assert(header::content_length_name().len() == 14);
    if value.len() > 0 {
        assert(seq![value[0]][0] == value[0]);
        assert(seq![value.last()][0] == value.last());
        assert(value[0] != 0x20 && value[0] != 0x09 && value[0] != 0x0c);
        assert(value.last() != 0x20 && value.last() != 0x09 && value.last() != 0x0c);
        assert(value[0] != 0x0d && value[value.len() - 1] != 0x0d);
    }
    bytes::trimming_takes_away_whitespace(gap, value, after);
    assert(forall|i: int| 0 <= i < line.len() ==> line[i] != 0x0d && line[i] != 0x0a) by {
        assert forall|i: int| 0 <= i < line.len() implies line[i] != 0x0d && line[i] != 0x0a by {
            let at = i - label.len() - 1;
            if i < label.len() {
                assert(line[i] == label[i]);
            } else if at >= 0 {
                assert(line[i] == rest[at]);
                if at < gap.len() {
                    assert(rest[at] == gap[at]);
                } else if at < gap.len() + value.len() {
                    assert(rest[at] == value[at - gap.len()]);
                } else {
                    assert(rest[at] == after[at - gap.len() - value.len()]);
                }
            }
        }
    }
    assert(!line.contains(0x0d) && !line.contains(0x0a));
    if forall|i: int| 0 <= i < value.len() ==> 0x30 <= #[trigger] value[i] <= 0x39 {
        assert(bytes::all_digits(value));
        round_trip::lemma_digits_are_utf8(value);
    } else {
        let i = choose|i: int| 0 <= i < value.len() && !(0x30 <= #[trigger] value[i] <= 0x39);
        assert(!bytes::is_digit(value[i]));
    }
}

/// Lines, with a line break between each and the next.
pub open spec fn on_lines(lines: Seq<Seq<u8>>) -> Seq<u8>
    decreases lines.len(),
{
    if lines.len() == 0 {
        Seq::empty()
    } else if lines.len() == 1 {
        lines[0]
    } else {
        on_lines(lines.drop_last()) + seq![0x0du8, 0x0au8] + lines.last()
    }
}

proof fn lemma_joined(lines: Seq<Seq<u8>>)
    ensures
        frame::joined(lines) == on_lines(lines),
    decreases lines.len(),
{
    if lines.len() > 1 {
        lemma_joined(lines.drop_last());
        frame::lemma_joined_push(lines.drop_last(), lines.last());
        assert(lines.drop_last().push(lines.last()) =~= lines);
    }
}

/// A carriage return stands at position `i`, and a line feed behind it.
pub open spec fn breaks_at(line: Seq<u8>, i: int) -> bool {
    0 <= i < line.len() - 1 && line[i] == 0x0d && line[i + 1] == 0x0a
}

/// No line break stands inside the line.
pub open spec fn is_unbroken(line: Seq<u8>) -> bool {
    forall|i: int| !#[trigger] breaks_at(line, i)
}

proof fn lemma_first_break(first: Seq<u8>, tail: Seq<u8>)
    requires
        is_unbroken(first),
    ensures
        ({
            let s = first + bytes::crlf() + tail;
            let n = first.len() as int;
            &&& bytes::first_crlf_at(s, n)
            &&& forall|i: int| bytes::first_crlf_at(s, i) ==> i == n
            &&& s.take(n) == first
            &&& s.skip(n + 2) == tail
        }),
{
    let s = first + bytes::crlf() + tail;
    let n = first.len() as int;
    assert forall|i: int| i < n implies !bytes::crlf_at(s, i) by {
        if bytes::crlf_at(s, i) {
            assert(s[i] == first[i]);
            if i + 1 < n {
                assert(s[i + 1] == first[i + 1]);
                assert(breaks_at(first, i));
            } else {
                assert(s[i + 1] == 0x0d);
            }
        }
    }
    assert(s[n] == 0x0d && s[n + 1] == 0x0a);
    assert(bytes::crlf_at(s, n));
    assert(bytes::first_crlf_at(s, n));
    assert forall|i: int| bytes::first_crlf_at(s, i) implies i == n by {
        if i < n {
            assert(!bytes::crlf_at(s, i));
        } else if i > n {
            assert(!bytes::crlf_at(s, n));
        }
    }
    assert(s.take(n) =~= first);
    assert(s.skip(n + 2) =~= tail);
}

proof fn lemma_no_break(line: Seq<u8>)
    requires
        is_unbroken(line),
    ensures
        header::lines(line) == seq![line],
{
    assert forall|i: int| !bytes::crlf_at(line, i) by {
        assert(!breaks_at(line, i));
    }
    assert(!(exists|i: int| bytes::first_crlf_at(line, i)));
}

proof fn lemma_lines_of_joined(lines: Seq<Seq<u8>>)
    requires
        lines.len() > 0,
        forall|i: int| 0 <= i < lines.len() ==> is_unbroken(#[trigger] lines[i]),
    ensures
        header::lines(frame::joined(lines)) == lines,
    decreases lines.len(),
{
    let first = lines[0];
    assert(is_unbroken(first));
    if lines.len() == 1 {
        lemma_no_break(first);
        assert(seq![first] =~= lines);
    } else {
        let rest = lines.drop_first();
        assert forall|i: int| 0 <= i < rest.len() implies is_unbroken(#[trigger] rest[i]) by {
            assert(rest[i] == lines[i + 1]);
        }
        lemma_lines_of_joined(rest);
        lemma_first_break(first, frame::joined(rest));
        assert(header::lines(frame::joined(lines)) == seq![first] + rest);
        assert(seq![first] + rest =~= lines);
    }
}

/// The lines of a header are what its line breaks separate: no more, no fewer,
/// and each as it stands.
pub proof fn line_breaks_separate_lines(lines: Seq<Seq<u8>>)
    requires
        lines.len() > 0,
        forall|i: int| 0 <= i < lines.len() ==> is_unbroken(#[trigger] lines[i]),
    ensures
        header::lines(on_lines(lines)) == lines,
{
    lemma_joined(lines);
    lemma_lines_of_joined(lines);
}

/// Every line has a name of its own.
pub open spec fn are_other_lines(lines: Seq<Seq<u8>>) -> bool {
    forall|i: int| 0 <= i < lines.len() ==> is_other_line(#[trigger] lines[i])
}

proof fn lemma_one_line_is_unbroken(line: Seq<u8>)
    requires
        is_one_line(line),
    ensures
        is_unbroken(line),
        !line.contains(0x0d),
{
}

proof fn lemma_other_line(line: Seq<u8>)
    requires
        is_other_line(line),
    ensures
        is_one_line(line),
        is_unbroken(line),
        line.len() > 0,
        !line.contains(0x0d),
{
    other_lines_are_kept(HeaderFields::none(), line);
    lemma_one_line_is_unbroken(line);
}

proof fn lemma_others_are_added(first: Seq<Seq<u8>>, others: Seq<Seq<u8>>, fields: HeaderFields)
    requires
        header::fields_of_lines(first) == Ok::<HeaderFields, RelayError>(fields),
        are_other_lines(others),
    ensures
        header::fields_of_lines(first + others) == Ok::<HeaderFields, RelayError>(
            HeaderFields {
                content_length: fields.content_length,
                additional_headers: fields.additional_headers + others,
            },
        ),
    decreases others.len(),
{
    if others.len() == 0 {
        assert(first + others =~= first);
        assert(fields.additional_headers + others =~= fields.additional_headers);
    } else {
        let fewer = others.drop_last();
        let line = others.last();
        assert(is_other_line(others[others.len() - 1]));
        assert(are_other_lines(fewer)) by {
            assert forall|i: int| 0 <= i < fewer.len() implies is_other_line(
                #[trigger] fewer[i],
            ) by {
                assert(fewer[i] == others[i]);
            }
        }
        lemma_others_are_added(first, fewer, fields);
        assert((first + others).drop_last() =~= first + fewer);
        assert((first + others).last() == line);
        let so_far = HeaderFields {
            content_length: fields.content_length,
            additional_headers: fields.additional_headers + fewer,
        };
        other_lines_are_kept(so_far, line);
        assert((fields.additional_headers + fewer).push(line) =~= fields.additional_headers
            + others);
    }
}

/// Lines of which some may stand in front of a length and some behind it.
pub open spec fn arranged(
    before: Seq<Seq<u8>>,
    line: Option<LengthLine>,
    after: Seq<Seq<u8>>,
) -> Seq<Seq<u8>> {
    match line {
        Some(line) => before + seq![line.text()] + after,
        None => before + after,
    }
}

proof fn lemma_arranged(before: Seq<Seq<u8>>, line: Option<LengthLine>, after: Seq<Seq<u8>>)
    requires
        are_other_lines(before),
        are_other_lines(after),
        line matches Some(given) ==> given.is_valid() && given.length <= usize::MAX,
    ensures
        header::fields_of_lines(arranged(before, line, after)) == Ok::<HeaderFields, RelayError>(
            HeaderFields {
                content_length: match line {
                    Some(given) => Some(given.length as usize),
                    None => None,
                },
                additional_headers: before + after,
            },
        ),
        forall|i: int|
            0 <= i < arranged(before, line, after).len() ==> (#[trigger] arranged(
                before,
                line,
                after,
            )[i]).len() > 0 && is_one_line(arranged(before, line, after)[i]),
{
    let none = Seq::<Seq<u8>>::empty();
    lemma_others_are_added(none, before, HeaderFields::none());
    assert(none + before =~= before);
    let lines = arranged(before, line, after);
    match line {
        Some(given) => {
            let fields = HeaderFields { content_length: None, additional_headers: before };
            any_spelling_of_the_length_is_read(fields, given);
            let first = before + seq![given.text()];
            assert(first.drop_last() =~= before);
            assert(first.last() == given.text());
            lemma_others_are_added(
                first,
                after,
                HeaderFields {
                    content_length: Some(given.length as usize),
                    additional_headers: before,
                },
            );
            assert forall|i: int| 0 <= i < lines.len() implies (#[trigger] lines[i]).len() > 0
                && is_one_line(lines[i]) by {
                if i < before.len() {
                    lemma_other_line(before[i]);
                } else if i > before.len() {
                    lemma_other_line(after[i - before.len() - 1]);
                }
            }
        },
        None => {
            lemma_others_are_added(
                before,
                after,
                HeaderFields { content_length: None, additional_headers: before },
            );
            assert forall|i: int| 0 <= i < lines.len() implies (#[trigger] lines[i]).len() > 0
                && is_one_line(lines[i]) by {
                if i < before.len() {
                    lemma_other_line(before[i]);
                } else {
                    lemma_other_line(after[i - before.len()]);
                }
            }
        },
    }
}

proof fn lemma_unbroken(lines: Seq<Seq<u8>>)
    requires
        forall|i: int| 0 <= i < lines.len() ==> is_one_line(#[trigger] lines[i]),
    ensures
        forall|i: int| 0 <= i < lines.len() ==> is_unbroken(#[trigger] lines[i]),
{
    assert forall|i: int| 0 <= i < lines.len() implies is_unbroken(#[trigger] lines[i]) by {
        lemma_one_line_is_unbroken(lines[i]);
    }
}

proof fn lemma_not_empty(lines: Seq<Seq<u8>>)
    requires
        lines.len() > 0,
        lines.last().len() > 0 || lines.len() > 1,
    ensures
        on_lines(lines).len() > 0,
{
}

/// A header is read as the one length that it gives, wherever it gives it,
/// and its other lines in their order.
pub proof fn a_header_is_read(before: Seq<Seq<u8>>, line: LengthLine, after: Seq<Seq<u8>>)
    requires
        are_other_lines(before),
        are_other_lines(after),
        line.is_valid(),
        line.length <= usize::MAX,
    ensures
        header::fields_of_header(on_lines(before + seq![line.text()] + after)) == Ok::<
            HeaderFields,
            RelayError,
        >(
            HeaderFields {
                content_length: Some(line.length as usize),
                additional_headers: before + after,
            },
        ),
{
    let lines = before + seq![line.text()] + after;
    lemma_arranged(before, Some(line), after);
    lemma_unbroken(lines);
    line_breaks_separate_lines(lines);
    assert(lines[lines.len() - 1].len() > 0);
    lemma_not_empty(lines);
}

/// A header without a length is refused, and so is an empty one.
pub proof fn a_header_needs_a_length(others: Seq<Seq<u8>>)
    requires
        are_other_lines(others),
    ensures
        header::fields_of_header(on_lines(others)) == Err::<HeaderFields, RelayError>(
            if others.len() == 0 {
                RelayError::EmptyHeader
            } else {
                RelayError::MissingContentLength
            },
        ),
{
    if others.len() > 0 {
        let none = Seq::<Seq<u8>>::empty();
        lemma_arranged(others, None, none);
        assert(others + none =~= others);
        lemma_unbroken(others);
        line_breaks_separate_lines(others);
        assert(others[others.len() - 1].len() > 0);
        lemma_not_empty(others);
    }
}

/// The first line that is refused decides why the header is refused, whatever
/// follows it. An empty line is refused.
pub proof fn the_first_bad_line_decides(
    before: Seq<Seq<u8>>,
    line: Option<LengthLine>,
    after: Seq<Seq<u8>>,
    bad: Seq<u8>,
    rest: Seq<Seq<u8>>,
    error: RelayError,
)
    requires
        are_other_lines(before),
        are_other_lines(after),
        line matches Some(given) ==> given.is_valid() && given.length <= usize::MAX,
        is_unbroken(bad),
        forall|i: int| 0 <= i < rest.len() ==> is_unbroken(#[trigger] rest[i]),
        on_lines(arranged(before, line, after) + seq![bad] + rest).len() > 0,
        if bad.len() == 0 {
            error == RelayError::EmptyLine
        } else {
            header::add_line(
                HeaderFields {
                    content_length: match line {
                        Some(given) => Some(given.length as usize),
                        None => None,
                    },
                    additional_headers: before + after,
                },
                bad,
            ) == Err::<HeaderFields, RelayError>(error)
        },
    ensures
        header::fields_of_header(on_lines(arranged(before, line, after) + seq![bad] + rest))
            == Err::<HeaderFields, RelayError>(error),
{
    let good = arranged(before, line, after);
    let lines = good + seq![bad] + rest;
    lemma_arranged(before, line, after);
    lemma_unbroken(good);
    assert forall|i: int| 0 <= i < lines.len() implies is_unbroken(#[trigger] lines[i]) by {
        if i < good.len() {
            assert(lines[i] == good[i]);
        } else if i > good.len() {
            assert(lines[i] == rest[i - good.len() - 1]);
        }
    }
    line_breaks_separate_lines(lines);
    let first = good + seq![bad];
    assert(first.drop_last() =~= good);
    assert(first.last() == bad);
    header::lemma_refused_prefix(first, rest);
}

/// A header with the empty line that ends it.
pub open spec fn complete_header(text: Seq<u8>) -> Seq<u8> {
    text + seq![0x0du8, 0x0au8, 0x0du8, 0x0au8]
}

/// The bytes that end a header stand at position `k`.
pub open spec fn ends_a_header(s: Seq<u8>, k: int) -> bool {
    0 <= k && k + 4 <= s.len() && s.subrange(k, k + 4) == seq![0x0du8, 0x0au8, 0x0du8, 0x0au8]
}

proof fn lemma_delimiter(s: Seq<u8>, k: int)
    ensures
        ends_a_header(s, k) <==> frame::delimiter_at(s, k),
{
    if 0 <= k && k + 4 <= s.len() {
        let four = s.subrange(k, k + 4);
        assert(four[0] == s[k] && four[1] == s[k + 1] && four[2] == s[k + 2] && four[3] == s[k + 3]);
        let end = seq![0x0du8, 0x0au8, 0x0du8, 0x0au8];
        if frame::delimiter_at(s, k) {
            assert(four =~= end);
        }
        if four == end {
            assert(end[0] == 0x0d && end[1] == 0x0a && end[2] == 0x0d && end[3] == 0x0a);
        }
    }
}

/// A header ends at the first empty line, and what it says decides: it is
/// refused, it announces too long a body, or as many bytes as it gives for the
/// body belong to the message, no more and no fewer.
pub proof fn a_header_decides_the_body(text: Seq<u8>, rest: Seq<u8>)
    requires
        text.len() + 4 <= 65536,
        forall|k: int|
            0 <= k < text.len() ==> !#[trigger] ends_a_header(complete_header(text), k),
    ensures
        frame::next_frame(complete_header(text) + rest) == (
        match header::fields_of_header(text) {
            Err(error) => frame::NextFrame::Invalid(error),
            Ok(fields) => {
                let length = fields.content_length->Some_0;
                if length > 268435456 {
                    frame::NextFrame::Invalid(RelayError::BodyTooLong { length })
                } else if rest.len() < length {
                    frame::NextFrame::Incomplete
                } else {
                    frame::NextFrame::Complete {
                        frame: Frame {
                            additional_headers: fields.additional_headers,
                            body: rest.take(length as int),
                        },
                        length: text.len() + 4 + length as nat,
                    }
                }
            },
        }),
{
    let head = complete_header(text);
    let s = head + rest;
    let n = text.len() as int;
    assert(frame::delimiter_at(s, n));
    assert forall|k: int| k < n implies !frame::delimiter_at(s, k) by {
        if frame::delimiter_at(s, k) {
            assert(frame::delimiter_at(head, k));
            lemma_delimiter(head, k);
            assert(ends_a_header(head, k));
        }
    }
    frame::lemma_header_end(s, n);
    assert(s.take(n) =~= text);
    if let Ok(fields) = header::fields_of_header(text) {
        let length = fields.content_length->Some_0;
        if rest.len() >= length {
            assert(s.subrange(n + 4, n + 4 + length) =~= rest.take(length as int));
        }
    }
}

/// Without the end of a header, a stream may go on up to the greatest length
/// of a header, and no further.
pub proof fn a_header_has_to_end(s: Seq<u8>)
    requires
        forall|k: int| k + 4 <= 65536 ==> !#[trigger] ends_a_header(s, k),
    ensures
        frame::next_frame(s) == (if s.len() > 65536 {
            frame::NextFrame::Invalid(RelayError::HeaderTooLong)
        } else {
            frame::NextFrame::Incomplete
        }),
{
    if frame::has_header(s) {
        let k = frame::header_end(s);
        assert(frame::delimiter_at(s, k));
        lemma_delimiter(s, k);
        assert(!ends_a_header(s, k));
    }
}

/// Why a stream must not end: inside a header, or before as many bytes have
/// come as the header gives for the body. Between two messages it may.
pub proof fn a_stream_ends_between_messages(text: Seq<u8>, body: Seq<u8>, partial: Seq<u8>)
    requires
        text.len() + 4 <= 65536,
        forall|k: int|
            0 <= k < text.len() ==> !#[trigger] ends_a_header(complete_header(text), k),
        header::fields_of_header(text) is Ok,
        partial.len() > 0,
        forall|k: int| !#[trigger] ends_a_header(partial, k),
    ensures
        frame::end_error(frame::Progress::Pending(Seq::empty())) is None,
        frame::end_error(frame::Progress::Pending(partial)) == Some(RelayError::TruncatedHeader),
        frame::end_error(
            frame::Progress::Pending(complete_header(text) + body),
        ) == Some(
            RelayError::TruncatedBody {
                expected: header::fields_of_header(text)->Ok_0.content_length->Some_0,
            },
        ),
        forall|error: RelayError|
            #[trigger] frame::end_error(frame::Progress::Failed(error)) == Some(error),
{
    let head = complete_header(text);
    let s = head + body;
    let n = text.len() as int;
    assert(frame::delimiter_at(s, n));
    assert forall|k: int| k < n implies !frame::delimiter_at(s, k) by {
        if frame::delimiter_at(s, k) {
            assert(frame::delimiter_at(head, k));
            lemma_delimiter(head, k);
            assert(ends_a_header(head, k));
        }
    }
    frame::lemma_header_end(s, n);
    assert(s.take(n) =~= text);
    if frame::has_header(partial) {
        let k = frame::header_end(partial);
        assert(frame::delimiter_at(partial, k));
        lemma_delimiter(partial, k);
        assert(!ends_a_header(partial, k));
    }
}

/// A message as some sender spells it.
pub ghost struct Spelled {
    pub before: Seq<Seq<u8>>,
    pub line: LengthLine,
    pub after: Seq<Seq<u8>>,
    pub body: Seq<u8>,
}

impl Spelled {
    /// The header of the message.
    pub open spec fn header(self) -> Seq<u8> {
        on_lines(self.before + seq![self.line.text()] + self.after)
    }

    /// The header gives the length of the body, and both are within bounds.
    pub open spec fn is_valid(self) -> bool {
        &&& are_other_lines(self.before)
        &&& self.line.is_valid()
        &&& are_other_lines(self.after)
        &&& self.line.length == self.body.len()
        &&& self.body.len() <= 268435456
        &&& self.header().len() + 4 <= 65536
    }

    /// What the sender sends.
    pub open spec fn text(self) -> Seq<u8> {
        complete_header(self.header()) + self.body
    }

    /// What the message says.
    pub open spec fn message(self) -> Frame {
        Frame { additional_headers: self.before + self.after, body: self.body }
    }

    /// How the message is sent on.
    pub open spec fn canonical(self) -> Seq<u8> {
        bytes::ascii("Content-Length: "@) + bytes::decimal_text(self.body.len()) + seq![
            0x0du8,
            0x0au8,
        ] + ended(self.before + self.after) + seq![0x0du8, 0x0au8] + self.body
    }
}

/// Lines, with a line break behind each.
pub open spec fn ended(lines: Seq<Seq<u8>>) -> Seq<u8>
    decreases lines.len(),
{
    if lines.len() == 0 {
        Seq::empty()
    } else {
        ended(lines.drop_last()) + lines.last() + seq![0x0du8, 0x0au8]
    }
}

/// However a sender spells the header of a message, the message is read: its
/// body is as many bytes as the header says, and they are the bytes behind
/// the header.
pub proof fn a_spelled_message_is_read(spelled: Spelled, rest: Seq<u8>)
    requires
        spelled.is_valid(),
    ensures
        frame::next_frame(spelled.text() + rest) == (frame::NextFrame::Complete {
            frame: spelled.message(),
            length: spelled.text().len(),
        }),
{
    let lines = spelled.before + seq![spelled.line.text()] + spelled.after;
    let header = spelled.header();
    let head = complete_header(spelled.header());
    lemma_arranged(spelled.before, Some(spelled.line), spelled.after);
    lemma_joined(lines);
    a_header_is_read(spelled.before, spelled.line, spelled.after);
    assert forall|i: int| 0 <= i < lines.len() implies (#[trigger] lines[i]).len() > 0
        && !lines[i].contains(0x0d) by {
        lemma_one_line_is_unbroken(lines[i]);
    }
    let none = Seq::<u8>::empty();
    assert(head =~= frame::joined(lines) + bytes::crlf() + bytes::crlf() + none);
    assert forall|k: int| 0 <= k < header.len() implies !#[trigger] ends_a_header(head, k) by {
        round_trip::lemma_no_early_end(lines, none, k);
        lemma_delimiter(head, k);
    }
    a_header_decides_the_body(header, spelled.body + rest);
    assert(spelled.text() + rest =~= head + (spelled.body + rest));
    assert((spelled.body + rest).take(spelled.body.len() as int) =~= spelled.body);
}

/// Several messages, one behind the other.
pub open spec fn spelled_stream(messages: Seq<Spelled>) -> Seq<u8>
    decreases messages.len(),
{
    if messages.len() == 0 {
        Seq::empty()
    } else {
        messages[0].text() + spelled_stream(messages.drop_first())
    }
}

/// The same messages as they are sent on.
pub open spec fn canonical_stream(messages: Seq<Spelled>) -> Seq<u8>
    decreases messages.len(),
{
    if messages.len() == 0 {
        Seq::empty()
    } else {
        canonical_stream(messages.drop_last()) + messages.last().canonical()
    }
}

/// A stream holds the messages that were put into it, in their order; what
/// stands behind them is read as if it stood alone.
pub proof fn a_spelled_stream_is_read(messages: Seq<Spelled>, rest: Seq<u8>)
    requires
        forall|i: int| 0 <= i < messages.len() ==> (#[trigger] messages[i]).is_valid(),
    ensures
        frame::decode(spelled_stream(messages) + rest).frames == Seq::new(
            messages.len(),
            |i: int| messages[i].message(),
        ) + frame::decode(rest).frames,
        frame::decode(spelled_stream(messages) + rest).progress == frame::decode(rest).progress,
    decreases messages.len(),
{
    let read = Seq::new(messages.len(), |i: int| messages[i].message());
    let s = spelled_stream(messages) + rest;
    if messages.len() == 0 {
        assert(s =~= rest);
        assert(read + frame::decode(rest).frames =~= frame::decode(rest).frames);
    } else {
        let first = messages[0];
        let others = messages.drop_first();
        let behind = spelled_stream(others) + rest;
        assert forall|i: int| 0 <= i < others.len() implies (#[trigger] others[i]).is_valid() by {
            assert(others[i] == messages[i + 1]);
        }
        a_spelled_stream_is_read(others, rest);
        a_spelled_message_is_read(first, behind);
        assert(s =~= first.text() + behind);
        assert(s.skip(first.text().len() as int) =~= behind);
        assert(first.text().len() > 0);
        let read_others = Seq::new(others.len(), |i: int| others[i].message());
        assert(read =~= seq![first.message()] + read_others);
        assert(frame::decode(s).frames =~= read + frame::decode(rest).frames);
    }
}

/// A stream that stops inside a message, or goes on with something that is
/// none, brings nothing more.
pub proof fn nothing_more_is_read(rest: Seq<u8>)
    ensures
        frame::next_frame(rest) is Incomplete ==> frame::decode(rest) == (frame::Decoded {
            frames: Seq::empty(),
            progress: frame::Progress::Pending(rest),
        }),
        frame::next_frame(rest) matches frame::NextFrame::Invalid(error) ==> frame::decode(rest)
            == (frame::Decoded {
            frames: Seq::empty(),
            progress: frame::Progress::Failed(error),
        }),
{
}

/// A message is written with its length in canonical form, then its other
/// lines, an empty line and its body.
pub proof fn a_message_is_written_in_canonical_form(message: Frame)
    ensures
        frame::encode(message) == bytes::ascii("Content-Length: "@) + bytes::decimal_text(
            message.body.len(),
        ) + seq![0x0du8, 0x0au8] + ended(message.additional_headers) + seq![0x0du8, 0x0au8]
            + message.body,
{
    let first = seq![frame::length_line(message.body.len())];
    lemma_ended(first[0], message.additional_headers);
    let line = frame::length_line(message.body.len());
    assert(frame::encode(message) =~= line + seq![0x0du8, 0x0au8] + ended(
        message.additional_headers,
    ) + seq![0x0du8, 0x0au8] + message.body);
}

proof fn lemma_ended(first: Seq<u8>, lines: Seq<Seq<u8>>)
    ensures
        frame::joined(seq![first] + lines) + bytes::crlf() == first + seq![0x0du8, 0x0au8] + ended(
            lines,
        ),
    decreases lines.len(),
{
    if lines.len() == 0 {
        assert(seq![first] + lines =~= seq![first]);
        assert(first + bytes::crlf() =~= first + seq![0x0du8, 0x0au8] + ended(lines));
    } else {
        let fewer = lines.drop_last();
        lemma_ended(first, fewer);
        assert(seq![first] + lines =~= (seq![first] + fewer).push(lines.last()));
        frame::lemma_joined_push(seq![first] + fewer, lines.last());
        assert(frame::joined(seq![first] + lines) + bytes::crlf() =~= first + seq![0x0du8, 0x0au8]
            + ended(lines));
    }
}

/// Messages are written one behind the other.
pub proof fn messages_are_written_in_order(first: Seq<Frame>, rest: Seq<Frame>, message: Frame)
    ensures
        frame::encode_all(Seq::empty()) == Seq::<u8>::empty(),
        frame::encode_all(seq![message]) == frame::encode(message),
        frame::encode_all(first + rest) == frame::encode_all(first) + frame::encode_all(rest),
    decreases rest.len(),
{
    assert(seq![message].drop_last() =~= Seq::<Frame>::empty());
    assert(frame::encode_all(Seq::<Frame>::empty()) == Seq::<u8>::empty());
    assert(Seq::<u8>::empty() + frame::encode(message) =~= frame::encode(message));
    if rest.len() == 0 {
        assert(first + rest =~= first);
        assert(frame::encode_all(first) + Seq::<u8>::empty() =~= frame::encode_all(first));
    } else {
        messages_are_written_in_order(first, rest.drop_last(), message);
        assert((first + rest).drop_last() =~= first + rest.drop_last());
        assert(frame::encode_all(first + rest) =~= frame::encode_all(first) + frame::encode_all(
            rest,
        ));
    }
}

/// A whole stream, whatever the spelling of its headers, is read to its end
/// and written with canonical headers, with every body as it came.
pub proof fn a_spelled_stream_is_normalized(messages: Seq<Spelled>)
    requires
        forall|i: int| 0 <= i < messages.len() ==> (#[trigger] messages[i]).is_valid(),
    ensures
        frame::decode(spelled_stream(messages)).progress == frame::Progress::Pending(Seq::empty()),
        frame::encode_all(frame::decode(spelled_stream(messages)).frames) == canonical_stream(
            messages,
        ),
{
    let none = Seq::<u8>::empty();
    a_spelled_stream_is_read(messages, none);
    round_trip::nothing_is_read_from_nothing();
    assert(spelled_stream(messages) + none =~= spelled_stream(messages));
    let read = Seq::new(messages.len(), |i: int| messages[i].message());
    assert(frame::decode(spelled_stream(messages)).frames =~= read);
    lemma_canonical(messages);
}

proof fn lemma_canonical(messages: Seq<Spelled>)
    ensures
        frame::encode_all(Seq::new(messages.len(), |i: int| messages[i].message()))
            == canonical_stream(messages),
    decreases messages.len(),
{
    let read = Seq::new(messages.len(), |i: int| messages[i].message());
    if messages.len() > 0 {
        let fewer = messages.drop_last();
        lemma_canonical(fewer);
        assert(read.drop_last() =~= Seq::new(fewer.len(), |i: int| fewer[i].message()));
        assert(read.last() == messages.last().message());
        a_message_is_written_in_canonical_form(messages.last().message());
    }
}

} // verus!
