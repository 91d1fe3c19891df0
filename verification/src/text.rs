//! Text as bytes: numbers, hexadecimal digits, header values and paths.
use vstd::prelude::*;

use crate::wire;

verus! {

/// The decimal digits of a number.
pub open spec fn decimal(value: nat) -> Seq<u8>
    decreases value,
{
    if value < 10 {
        seq![(48 + value) as u8]
    } else {
        decimal(value / 10).push((48 + value % 10) as u8)
    }
}

/// Append the decimal digits of `value`.
pub fn push_decimal(out: &mut Vec<u8>, value: u64)
    ensures
        final(out)@ == old(out)@ + decimal(value as nat),
    decreases value,
{
    if value >= 10 {
        push_decimal(out, value / 10);
    }
    out.push((48 + value % 10) as u8);
    assert(out@ =~= old(out)@ + decimal(value as nat));
}

/// A lowercase hexadecimal digit.
pub open spec fn hex_digit(value: u8) -> u8 {
    if value < 10 {
        (48 + value) as u8
    } else {
        (87 + value) as u8
    }
}

/// Two lowercase hexadecimal digits for each byte.
pub open spec fn hex_of(bytes: Seq<u8>) -> Seq<u8>
    decreases bytes.len(),
{
    if bytes.len() == 0 {
        Seq::empty()
    } else {
        hex_of(bytes.drop_last()).push(hex_digit(bytes.last() / 16)).push(
            hex_digit(bytes.last() % 16),
        )
    }
}

fn hex_char(value: u8) -> (digit: u8)
    requires
        value < 16,
    ensures
        digit == hex_digit(value),
{
    if value < 10 {
        48 + value
    } else {
        87 + value
    }
}

/// The lowercase hexadecimal form of `bytes`.
pub fn hex_lower(bytes: &[u8]) -> (out: Vec<u8>)
    ensures
        out@ == hex_of(bytes@),
{
    let mut out: Vec<u8> = Vec::new();
    let mut index: usize = 0;
    assert(bytes@.take(0) =~= Seq::<u8>::empty());
    while index < bytes.len()
        invariant
            index <= bytes@.len(),
            out@ == hex_of(bytes@.take(index as int)),
        decreases bytes@.len() - index,
    {
        proof {
            assert(bytes@.take(index + 1).drop_last() =~= bytes@.take(index as int));
        }
        out.push(hex_char(bytes[index] / 16));
        out.push(hex_char(bytes[index] % 16));
        index = index + 1;
    }
    assert(bytes@.take(bytes@.len() as int) =~= bytes@);
    out
}

/// A letter or a decimal digit.
pub open spec fn alphanumeric(byte: u8) -> bool {
    48 <= byte <= 57 || 65 <= byte <= 90 || 97 <= byte <= 122
}

/// Whether `byte` is a letter or a decimal digit.
pub fn is_alphanumeric(byte: u8) -> (ok: bool)
    ensures
        ok == alphanumeric(byte),
{
    (48 <= byte && byte <= 57) || (65 <= byte && byte <= 90) || (97 <= byte && byte <= 122)
}

/// A nonempty HTTP header value of tabs and printable characters.
pub open spec fn header_value(value: Seq<u8>) -> bool {
    &&& value.len() > 0
    &&& forall|i: int|
        0 <= i < value.len() ==> #[trigger] value[i] == 9 || 32 <= value[i] <= 126
}

/// Whether `value` can stand in an HTTP header.
pub fn valid_header_value(value: &[u8]) -> (ok: bool)
    ensures
        ok == header_value(value@),
{
    if value.len() == 0 {
        return false;
    }
    let mut index: usize = 0;
    while index < value.len()
        invariant
            index <= value@.len(),
            forall|i: int| 0 <= i < index ==> #[trigger] value@[i] == 9 || 32 <= value@[i] <= 126,
        decreases value@.len() - index,
    {
        let byte: u8 = value[index];
        if !(byte == 9 || (32 <= byte && byte <= 126)) {
            return false;
        }
        index = index + 1;
    }
    true
}

/// A nonempty host name of letters, digits, dots and hyphens.
pub open spec fn host_name(host: Seq<u8>) -> bool {
    &&& host.len() > 0
    &&& forall|i: int|
        0 <= i < host.len() ==> alphanumeric(#[trigger] host[i]) || host[i] == 46 || host[i] == 45
}

/// Whether `host` is a host name.
pub fn valid_host(host: &[u8]) -> (ok: bool)
    ensures
        ok == host_name(host@),
{
    if host.len() == 0 {
        return false;
    }
    let mut index: usize = 0;
    while index < host.len()
        invariant
            index <= host@.len(),
            forall|i: int|
                0 <= i < index ==> alphanumeric(#[trigger] host@[i]) || host@[i] == 46 || host@[i]
                    == 45,
        decreases host@.len() - index,
    {
        let byte: u8 = host[index];
        if !is_alphanumeric(byte) && byte != 46 && byte != 45 {
            return false;
        }
        index = index + 1;
    }
    true
}

/// The bytes from `from` up to `to` are one segment between slashes.
pub open spec fn is_segment(path: Seq<u8>, from: int, to: int) -> bool {
    &&& 0 <= from <= to <= path.len()
    &&& from == 0 || path[from - 1] == 47
    &&& to == path.len() || path[to] == 47
    &&& forall|i: int| from <= i < to ==> #[trigger] path[i] != 47
}

/// The bytes from `from` up to `to` are one or two dots.
pub open spec fn is_dots(path: Seq<u8>, from: int, to: int) -> bool {
    (to == from + 1 || to == from + 2) && forall|i: int| from <= i < to ==> #[trigger] path[i] == 46
}

/// Some segment of the path is `.` or `..`.
pub open spec fn dotted_path(path: Seq<u8>) -> bool {
    exists|from: int, to: int| #[trigger] is_segment(path, from, to) && is_dots(path, from, to)
}

/// Whether some segment of the path is `.` or `..`.
pub fn unsafe_path_segments(path: &[u8]) -> (found: bool)
    ensures
        found == dotted_path(path@),
{
    let mut start: usize = 0;
    let mut index: usize = 0;
    loop
        invariant
            start <= index <= path@.len(),
            start == 0 || path@[start - 1] == 47,
            forall|i: int| start <= i < index ==> #[trigger] path@[i] != 47,
            forall|from: int, to: int|
                #[trigger] is_segment(path@, from, to) && from < start ==> !is_dots(
                    path@,
                    from,
                    to,
                ),
        decreases path@.len() - index,
    {
        if index == path.len() || path[index] == 47 {
            assert(is_segment(path@, start as int, index as int));
            let dots: bool = (index - start == 1 && path[start] == 46) || (index - start == 2
                && path[start] == 46 && path[start + 1] == 46);
            if dots {
                assert(is_dots(path@, start as int, index as int));
                return true;
            }
            proof {
                assert forall|from: int, to: int|
                    #[trigger] is_segment(path@, from, to) && from <= index implies !is_dots(
                    path@,
                    from,
                    to,
                ) by {
                    if from == start {
                        if to < index {
                            assert(path@[to] == 47);
                        } else if to > index {
                            assert(path@[index as int] != 47);
                        }
                        assert(to == index);
                        if is_dots(path@, from, to) {
                            assert(path@[start as int] == 46);
                            if to == from + 2 {
                                assert(path@[start + 1] == 46);
                            }
                        }
                    } else if from > start {
                        assert(path@[from - 1] == 47);
                    }
                }
            }
            if index == path.len() {
                return false;
            }
            start = index + 1;
        }
        index = index + 1;
    }
}

/// `bytes` without the slashes at its end.
pub open spec fn trimmed(bytes: Seq<u8>) -> Seq<u8>
    decreases bytes.len(),
{
    if bytes.len() > 0 && bytes.last() == 47 {
        trimmed(bytes.drop_last())
    } else {
        bytes
    }
}

/// The length of `bytes` without the slashes at its end.
pub fn trimmed_len(bytes: &[u8]) -> (len: usize)
    ensures
        len <= bytes@.len(),
        bytes@.take(len as int) == trimmed(bytes@),
{
    let mut len: usize = bytes.len();
    assert(bytes@.take(len as int) =~= bytes@);
    while len > 0 && bytes[len - 1] == 47
        invariant
            len <= bytes@.len(),
            trimmed(bytes@.take(len as int)) == trimmed(bytes@),
        decreases len,
    {
        assert(bytes@.take(len as int).drop_last() =~= bytes@.take(len - 1));
        len = len - 1;
    }
    len
}

/// Whether `bytes` is UTF-8 text.
///
/// `core::str::from_utf8` succeeds exactly on the byte strings that are valid
/// UTF-8.
#[verifier::external_body]
pub(crate) fn is_utf8(bytes: &[u8]) -> (ok: bool)
    ensures
        ok == vstd::utf8::valid_utf8(bytes@),
{
    core::str::from_utf8(bytes).is_ok()
}

/// Whether `bytes` holds `byte`.
pub fn contains_byte(bytes: &[u8], byte: u8) -> (found: bool)
    ensures
        found == bytes@.contains(byte),
{
    let mut index: usize = 0;
    while index < bytes.len()
        invariant
            index <= bytes@.len(),
            forall|i: int| 0 <= i < index ==> bytes@[i] != byte,
        decreases bytes@.len() - index,
    {
        if bytes[index] == byte {
            return true;
        }
        index = index + 1;
    }
    false
}

/// The bytes of a text.
pub open spec fn utf8(text: &str) -> Seq<u8> {
    vstd::utf8::encode_utf8(text@)
}

/// Append the bytes of a text.
pub fn push_text(out: &mut Vec<u8>, text: &str)
    ensures
        final(out)@ == old(out)@ + utf8(text),
{
    wire::push_all(out, text.as_bytes());
}

/// The number that decimal digits spell.
pub open spec fn spelled(digits: Seq<u8>) -> int
    decreases digits.len(),
{
    if digits.len() == 0 {
        0
    } else {
        10 * spelled(digits.drop_last()) + (digits.last() - 48)
    }
}

/// The decimal digits of a number spell it, and do not start with a zero unless
/// it is zero.
pub proof fn law_decimal_spells_the_number(value: nat)
    ensures
        spelled(decimal(value)) == value,
        decimal(value).len() > 0,
        forall|i: int| 0 <= i < decimal(value).len() ==> 48 <= #[trigger] decimal(value)[i] <= 57,
        value > 0 ==> decimal(value)[0] != 48,
    decreases value,
{
    reveal_with_fuel(spelled, 2);
    if value < 10 {
        assert(decimal(value).drop_last() =~= Seq::<u8>::empty());
    } else {
        law_decimal_spells_the_number(value / 10);
        assert(decimal(value).drop_last() =~= decimal(value / 10));
    }
}

/// The value of a hexadecimal digit.
pub open spec fn digit_value(digit: u8) -> int {
    if 48 <= digit <= 57 {
        digit - 48
    } else {
        digit - 97 + 10
    }
}

/// Every byte is spelled by two lower-case hexadecimal digits, the higher first.
pub proof fn law_hex_spells_every_byte(bytes: Seq<u8>, at: int)
    requires
        0 <= at < bytes.len(),
    ensures
        hex_of(bytes).len() == 2 * bytes.len(),
        digit_value(hex_of(bytes)[2 * at]) * 16 + digit_value(hex_of(bytes)[2 * at + 1])
            == bytes[at],
        48 <= hex_of(bytes)[2 * at] <= 57 || 97 <= hex_of(bytes)[2 * at] <= 102,
        48 <= hex_of(bytes)[2 * at + 1] <= 57 || 97 <= hex_of(bytes)[2 * at + 1] <= 102,
    decreases bytes.len(),
{
    let rest = bytes.drop_last();
    lemma_hex_len(rest);
    if at < rest.len() {
        law_hex_spells_every_byte(rest, at);
    }
}

proof fn lemma_hex_len(bytes: Seq<u8>)
    ensures
        hex_of(bytes).len() == 2 * bytes.len(),
    decreases bytes.len(),
{
    if bytes.len() > 0 {
        lemma_hex_len(bytes.drop_last());
    }
}

/// Trimming takes away all slashes at the end and nothing else.
pub proof fn law_trimming_takes_only_slashes(bytes: Seq<u8>)
    ensures
        trimmed(bytes).len() <= bytes.len(),
        trimmed(bytes) == bytes.take(trimmed(bytes).len() as int),
        trimmed(bytes).len() > 0 ==> trimmed(bytes).last() != 47,
        forall|i: int| trimmed(bytes).len() <= i < bytes.len() ==> #[trigger] bytes[i] == 47,
    decreases bytes.len(),
{
    if bytes.len() > 0 && bytes.last() == 47 {
        law_trimming_takes_only_slashes(bytes.drop_last());
        assert(bytes.drop_last().take(trimmed(bytes).len() as int) =~= bytes.take(
            trimmed(bytes).len() as int,
        ));
        assert forall|i: int| trimmed(bytes).len() <= i < bytes.len() implies #[trigger] bytes[i]
            == 47 by {
            if i < bytes.len() - 1 {
                assert(bytes.drop_last()[i] == 47);
            }
        }
    } else {
        assert(bytes.take(bytes.len() as int) =~= bytes);
    }
}

/// A path that steps to its parent anywhere is found out: at its start, between two
/// slashes, or at its end.
pub proof fn law_steps_to_the_parent_are_found(before: Seq<u8>, after: Seq<u8>)
    ensures
        dotted_path(seq![46u8, 46u8]),
        dotted_path(seq![46u8, 46u8, 47u8] + after),
        dotted_path(before + seq![47u8, 46u8, 46u8]),
        dotted_path(before + seq![47u8, 46u8, 46u8, 47u8] + after),
        dotted_path(before + seq![47u8, 46u8, 47u8] + after),
        !dotted_path(Seq::empty()),
{
    let at = before.len() as int;
    let alone = seq![46u8, 46u8];
    assert(is_segment(alone, 0, 2) && is_dots(alone, 0, 2));
    let first = seq![46u8, 46u8, 47u8] + after;
    assert(is_segment(first, 0, 2) && is_dots(first, 0, 2));
    let last = before + seq![47u8, 46u8, 46u8];
    assert(is_segment(last, at + 1, at + 3) && is_dots(last, at + 1, at + 3));
    let middle = before + seq![47u8, 46u8, 46u8, 47u8] + after;
    assert(is_segment(middle, at + 1, at + 3) && is_dots(middle, at + 1, at + 3));
    let here = before + seq![47u8, 46u8, 47u8] + after;
    assert(is_segment(here, at + 1, at + 2) && is_dots(here, at + 1, at + 2));
}

} // verus!
