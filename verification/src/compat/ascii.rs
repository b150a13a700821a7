//! Hexadecimal rendering of bytes as text.

use vstd::prelude::*;
use crate::compat::text::{
    byte_hex_text, bytes_hex_prefixed_text, bytes_hex_text, hex_char, string_push,
};

verus! {

/// Writes the two uppercase hexadecimal digits of `byte`.
pub fn write_byte_hex(w: &mut String, byte: u8)
    ensures
        final(w)@ == old(w)@ + byte_hex_text(byte),
{
    assert(byte >> 4 == byte / 16 && byte & 0x0F == byte % 16) by (bit_vector);
    let hi = hex_char(byte >> 4);
    let lo = hex_char(byte & 0x0F);
    string_push(w, hi);
    string_push(w, lo);
    assert(final(w)@ =~= old(w)@ + byte_hex_text(byte));
}

/// Writes the bytes in uppercase hexadecimal, separated by single spaces.
pub fn write_bytes_hex(w: &mut String, bytes: &[u8])
    ensures
        final(w)@ == old(w)@ + bytes_hex_text(bytes@),
{
    let ghost start = w@;
    let n = bytes.len();
    for i in 0..n
        invariant
            n == bytes@.len(),
            w@ == start + bytes_hex_text(bytes@.take(i as int)),
    {
        assert(bytes@.take(i + 1).drop_last() =~= bytes@.take(i as int));
        if i > 0 {
            string_push(w, ' ');
        }
        write_byte_hex(w, bytes[i]);
        assert(w@ =~= start + bytes_hex_text(bytes@.take(i + 1)));
    }
    assert(bytes@.take(n as int) =~= bytes@);
}

/// Writes each byte as `0x` and two uppercase hexadecimal digits, separated by single spaces.
pub fn write_bytes_hex_prefixed(w: &mut String, bytes: &[u8])
    ensures
        final(w)@ == old(w)@ + bytes_hex_prefixed_text(bytes@),
{
    let ghost start = w@;
    let n = bytes.len();
    for i in 0..n
        invariant
            n == bytes@.len(),
            w@ == start + bytes_hex_prefixed_text(bytes@.take(i as int)),
    {
        assert(bytes@.take(i + 1).drop_last() =~= bytes@.take(i as int));
        if i > 0 {
            string_push(w, ' ');
        }
        string_push(w, '0');
        string_push(w, 'x');
        write_byte_hex(w, bytes[i]);
        proof {
            reveal_strlit("0x");
        }
        assert(w@ =~= start + bytes_hex_prefixed_text(bytes@.take(i + 1)));
    }
    assert(bytes@.take(n as int) =~= bytes@);
}

} // verus!
