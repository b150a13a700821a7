//! Character-level building blocks for the text the library produces.

use vstd::prelude::*;

verus! {

/// Appends one character to a string.
///
/// Calls `String::push`, which appends the character at the end of the string.
#[verifier::external_body]
pub(crate) fn string_push(s: &mut String, c: char)
    ensures
        final(s)@ == old(s)@.push(c),
{
    s.push(c);
}

/// The uppercase hexadecimal digit of a value below 16.
pub open spec fn hex_digit(n: int) -> char {
    if n < 10 {
        (48 + n) as char
    } else {
        (55 + n) as char
    }
}

/// The decimal digit of a value below 10.
pub open spec fn decimal_digit(n: int) -> char {
    (48 + n) as char
}

/// The decimal representation of a natural number, without leading zeros.
pub open spec fn decimal_text(n: nat) -> Seq<char>
    decreases n,
{
    if n < 10 {
        seq![decimal_digit(n as int)]
    } else {
        decimal_text(n / 10).push(decimal_digit((n % 10) as int))
    }
}

/// The uppercase hexadecimal representation of a natural number, without leading zeros.
pub open spec fn hex_text(n: nat) -> Seq<char>
    decreases n,
{
    if n < 16 {
        seq![hex_digit(n as int)]
    } else {
        hex_text(n / 16).push(hex_digit((n % 16) as int))
    }
}

/// Two uppercase hexadecimal digits of a byte, high nibble first.
pub open spec fn byte_hex_text(b: u8) -> Seq<char> {
    seq![hex_digit((b / 16) as int), hex_digit((b % 16) as int)]
}

/// The uppercase hexadecimal digit of a nibble.
pub fn hex_char(n: u8) -> (c: char)
    requires
        n < 16,
    ensures
        c == hex_digit(n as int),
{
    if n < 10 {
        (48 + n) as char
    } else {
        (55 + n) as char
    }
}

/// Appends the decimal representation of `n`.
pub fn push_decimal(s: &mut String, n: usize)
    ensures
        final(s)@ == old(s)@ + decimal_text(n as nat),
    decreases n,
{
    if n >= 10 {
        push_decimal(s, n / 10);
    }
    let d: u8 = (n % 10) as u8;
    string_push(s, (48 + d) as char);
    assert(final(s)@ =~= old(s)@ + decimal_text(n as nat));
}

/// Appends the uppercase hexadecimal representation of `n`, without leading zeros.
pub fn push_hex(s: &mut String, n: u32)
    ensures
        final(s)@ == old(s)@ + hex_text(n as nat),
    decreases n,
{
    if n >= 16 {
        push_hex(s, n / 16);
    }
    let d: u8 = (n % 16) as u8;
    string_push(s, hex_char(d));
    assert(final(s)@ =~= old(s)@ + hex_text(n as nat));
}

/// Appends the two uppercase hexadecimal digits of `b`.
pub fn push_byte_hex(s: &mut String, b: u8)
    ensures
        final(s)@ == old(s)@ + byte_hex_text(b),
{
    string_push(s, hex_char(b / 16));
    string_push(s, hex_char(b % 16));
    assert(final(s)@ =~= old(s)@ + byte_hex_text(b));
}

} // verus!

verus! {

/// The ASCII code of the uppercase hexadecimal digit of a value below 16.
pub open spec fn hex_digit_byte(n: int) -> u8 {
    if n < 10 {
        (48 + n) as u8
    } else {
        (55 + n) as u8
    }
}

/// Two ASCII hexadecimal digits of a byte, high nibble first.
pub open spec fn byte_hex_bytes(b: u8) -> Seq<u8> {
    seq![hex_digit_byte((b / 16) as int), hex_digit_byte((b % 16) as int)]
}

/// The uppercase hexadecimal digits of each byte, separated by single spaces.
pub open spec fn bytes_hex_text(bytes: Seq<u8>) -> Seq<char>
    decreases bytes.len(),
{
    if bytes.len() == 0 {
        Seq::empty()
    } else if bytes.len() == 1 {
        byte_hex_text(bytes[0])
    } else {
        bytes_hex_text(bytes.drop_last()) + seq![' '] + byte_hex_text(bytes.last())
    }
}

/// Each byte as `0x` and two uppercase hexadecimal digits, separated by single spaces.
pub open spec fn bytes_hex_prefixed_text(bytes: Seq<u8>) -> Seq<char>
    decreases bytes.len(),
{
    if bytes.len() == 0 {
        Seq::empty()
    } else if bytes.len() == 1 {
        "0x"@ + byte_hex_text(bytes[0])
    } else {
        bytes_hex_prefixed_text(bytes.drop_last()) + seq![' '] + "0x"@ + byte_hex_text(bytes.last())
    }
}

/// The ASCII bytes of `bytes_hex_text`.
pub open spec fn bytes_hex_ascii(bytes: Seq<u8>) -> Seq<u8>
    decreases bytes.len(),
{
    if bytes.len() == 0 {
        Seq::empty()
    } else if bytes.len() == 1 {
        byte_hex_bytes(bytes[0])
    } else {
        bytes_hex_ascii(bytes.drop_last()) + seq![32u8] + byte_hex_bytes(bytes.last())
    }
}

/// The ASCII bytes of `bytes_hex_prefixed_text`.
pub open spec fn bytes_hex_prefixed_ascii(bytes: Seq<u8>) -> Seq<u8>
    decreases bytes.len(),
{
    if bytes.len() == 0 {
        Seq::empty()
    } else if bytes.len() == 1 {
        seq![48u8, 120u8] + byte_hex_bytes(bytes[0])
    } else {
        bytes_hex_prefixed_ascii(bytes.drop_last()) + seq![32u8, 48u8, 120u8] + byte_hex_bytes(
            bytes.last(),
        )
    }
}

/// The ASCII code of the uppercase hexadecimal digit of a nibble.
pub fn hex_byte(n: u8) -> (c: u8)
    requires
        n < 16,
    ensures
        c == hex_digit_byte(n as int),
{
    if n < 10 {
        48 + n
    } else {
        55 + n
    }
}

} // verus!

verus! {

/// What `write_ascii_safe` writes for one character: an ASCII character as
/// itself, any other as `\u{...}` with its code point in uppercase hexadecimal.
pub open spec fn ascii_safe_char(c: char) -> Seq<char> {
    if (c as u32) < 128 {
        seq![c]
    } else {
        "\\u{"@ + hex_text(c as nat) + "}"@
    }
}

/// The ASCII-safe rendering of a character sequence.
pub open spec fn ascii_safe_text(cs: Seq<char>) -> Seq<char>
    decreases cs.len(),
{
    if cs.len() == 0 {
        Seq::empty()
    } else {
        ascii_safe_text(cs.drop_last()) + ascii_safe_char(cs.last())
    }
}

/// ASCII-safe rendering leaves every ASCII character, control characters
/// such as a newline included, as it is, and writes any other character as
/// an escape that starts with a backslash and holds only ASCII characters.
pub proof fn law_ascii_safe_char(c: char)
    ensures
        (c as u32) < 128 ==> ascii_safe_char(c) == seq![c],
        (c as u32) >= 128 ==> ascii_safe_char(c).len() > 1 && ascii_safe_char(c)[0] == '\\',
{
    if (c as u32) >= 128 {
        reveal_strlit("\\u{");
        assert(("\\u{"@ + hex_text(c as nat) + "}"@)[0] == '\\');
    }
}

/// Text made only of ASCII characters is written unchanged.
pub proof fn law_ascii_text_unchanged(cs: Seq<char>)
    requires
        forall|i: int| 0 <= i < cs.len() ==> (#[trigger] cs[i] as u32) < 128,
    ensures
        ascii_safe_text(cs) == cs,
    decreases cs.len(),
{
    if cs.len() > 0 {
        law_ascii_text_unchanged(cs.drop_last());
        law_ascii_safe_char(cs.last());
        assert(cs.drop_last().push(cs.last()) =~= cs);
    }
}

/// Each byte reinterpreted as the character with the same code.
pub open spec fn bytes_as_chars(bytes: Seq<u8>) -> Seq<char> {
    bytes.map_values(|b: u8| b as char)
}

} // verus!
