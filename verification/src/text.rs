//! Plain text for messages: numbers in decimal, bytes escaped.

use vstd::prelude::*;

verus! {

/// Appends one character.
///
/// Calls `String::push`, of which it claims that the string is then the old one with the
/// character behind it.
#[verifier::external_body]
pub(crate) fn push_char(text: &mut String, c: char)
    ensures
        final(text)@ == old(text)@.push(c),
{
    text.push(c);
}

/// A decimal or hexadecimal digit.
pub open spec fn digit(d: nat) -> char {
    if d < 10 {
        (48 + d) as char
    } else {
        (87 + d) as char
    }
}

/// A number in decimal.
pub open spec fn decimal(n: nat) -> Seq<char>
    decreases n,
{
    if n < 10 {
        seq![digit(n)]
    } else {
        decimal(n / 10).push(digit(n % 10))
    }
}

/// A byte as it appears in a message: letters, digits and signs as they are, quotes and the
/// usual control characters behind a backslash, anything else as two hexadecimal digits.
pub open spec fn escaped(byte: u8) -> Seq<char> {
    if byte == 9 {
        seq!['\\', 't']
    } else if byte == 10 {
        seq!['\\', 'n']
    } else if byte == 13 {
        seq!['\\', 'r']
    } else if byte == 34 || byte == 39 || byte == 92 {
        seq!['\\', byte as char]
    } else if 32 <= byte < 127 {
        seq![byte as char]
    } else {
        seq!['\\', 'x', digit((byte / 16) as nat), digit((byte % 16) as nat)]
    }
}

/// Four bytes as they appear in a message.
pub open spec fn escaped_kind(kind: [u8; 4]) -> Seq<char> {
    escaped(kind[0]) + escaped(kind[1]) + escaped(kind[2]) + escaped(kind[3])
}

fn push_digit(text: &mut String, d: u8)
    requires
        d < 16,
    ensures
        final(text)@ == old(text)@.push(digit(d as nat)),
{
    let c: char = if d < 10 {
        (48 + d) as char
    } else {
        (87 + d) as char
    };
    push_char(text, c);
}

/// Appends a number in decimal.
pub fn push_number(text: &mut String, n: usize)
    ensures
        final(text)@ == old(text)@ + decimal(n as nat),
    decreases n,
{
    if n >= 10 {
        push_number(text, n / 10);
    }
    push_digit(text, (n % 10) as u8);
    assert(text@ =~= old(text)@ + decimal(n as nat));
}

/// Appends a byte, escaped where it is not plain text.
fn push_escaped(text: &mut String, byte: u8)
    ensures
        final(text)@ == old(text)@ + escaped(byte),
{
    if byte == 9 {
        push_char(text, '\\');
        push_char(text, 't');
    } else if byte == 10 {
        push_char(text, '\\');
        push_char(text, 'n');
    } else if byte == 13 {
        push_char(text, '\\');
        push_char(text, 'r');
    } else if byte == 34 || byte == 39 || byte == 92 {
        push_char(text, '\\');
        push_char(text, byte as char);
    } else if 32 <= byte && byte < 127 {
        push_char(text, byte as char);
    } else {
        push_char(text, '\\');
        push_char(text, 'x');
        push_digit(text, byte / 16);
        push_digit(text, byte % 16);
    }
    assert(text@ =~= old(text)@ + escaped(byte));
}

/// Appends a chunk type, rendered for a message.
///
/// Escaped rather than transcribed: a type is meant to be four ASCII letters, but the errors
/// that name one are exactly the cases where it is not, and a raw control byte in a log line
/// is worse than useless.
pub fn push_kind(text: &mut String, kind: [u8; 4])
    ensures
        final(text)@ == old(text)@ + escaped_kind(kind),
{
    push_escaped(text, kind[0]);
    push_escaped(text, kind[1]);
    push_escaped(text, kind[2]);
    push_escaped(text, kind[3]);
    assert(text@ =~= old(text)@ + escaped_kind(kind));
}

/// Digits are the usual ones, and small letters from ten on.
pub proof fn law_digits(d: nat)
    requires
        d < 16,
    ensures
        digit(d) == seq![
            '0',
            '1',
            '2',
            '3',
            '4',
            '5',
            '6',
            '7',
            '8',
            '9',
            'a',
            'b',
            'c',
            'd',
            'e',
            'f',
        ][d as int],
{
}

/// A number of one digit is that digit, and a further digit behind a number makes it ten times
/// as large and that digit larger.
pub proof fn law_decimal(n: nat, d: nat)
    requires
        d < 10,
    ensures
        decimal(d) == seq![digit(d)],
        n > 0 ==> decimal(10 * n + d) == decimal(n).push(digit(d)),
{
}

} // verus!
