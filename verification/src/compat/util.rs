//! Byte and text formatting helpers, and a 128-bit flag set.

use vstd::prelude::*;
use vstd::string::*;
use crate::compat::text::{
    ascii_safe_text, byte_hex_text, bytes_as_chars, push_byte_hex, push_hex,
    byte_hex_bytes, bytes_hex_ascii, bytes_hex_prefixed_ascii, bytes_hex_text, hex_byte, hex_digit,
    string_push,
};
use crate::error::BitFlagsError;

verus! {

/// The size of the buffer that holds one batch of `num_commands` commands of
/// at most `max_cmd_len` bytes: one prefix byte per command plus two bytes of
/// framing per command.
pub open spec fn cmd_buffer_size(num_commands: int, max_cmd_len: int) -> int {
    num_commands * (max_cmd_len + 1) + num_commands * 2
}

pub fn calculate_cmd_buffer_size(num_commands: usize, max_cmd_len: usize) -> (size: usize)
    requires
        max_cmd_len < usize::MAX,
        cmd_buffer_size(num_commands as int, max_cmd_len as int) <= usize::MAX,
    ensures
        size == cmd_buffer_size(num_commands as int, max_cmd_len as int),
{
    assert(num_commands * (max_cmd_len + 1) <= usize::MAX && num_commands * 2 <= usize::MAX)
        by (nonlinear_arith)
        requires
            num_commands * (max_cmd_len + 1) + num_commands * 2 <= usize::MAX,
            num_commands >= 0,
            max_cmd_len >= 0,
    ;
    num_commands * (max_cmd_len + 1) + num_commands * 2
}

pub const ERROR_STRING_BUFFER_SIZE: usize = 128;

/// Writes the two uppercase hexadecimal digits of `byte` to `w`.
pub fn write_byte_hex(w: &mut Vec<u8>, byte: u8)
    ensures
        final(w)@ == old(w)@ + byte_hex_bytes(byte),
{
    assert(byte >> 4 == byte / 16 && byte & 0x0F == byte % 16) by (bit_vector);
    let hi = hex_byte(byte >> 4);
    let lo = hex_byte(byte & 0x0F);
    w.push(hi);
    w.push(lo);
    assert(final(w)@ =~= old(w)@ + byte_hex_bytes(byte));
}

/// Writes the bytes in uppercase hexadecimal, separated by single spaces.
pub fn write_bytes_hex(w: &mut Vec<u8>, bytes: &[u8])
    ensures
        final(w)@ == old(w)@ + bytes_hex_ascii(bytes@),
{
    let ghost start = w@;
    let n = bytes.len();
    for i in 0..n
        invariant
            n == bytes@.len(),
            w@ == start + bytes_hex_ascii(bytes@.take(i as int)),
    {
        assert(bytes@.take(i + 1).drop_last() =~= bytes@.take(i as int));
        if i > 0 {
            w.push(32u8);
        }
        write_byte_hex(w, bytes[i]);
        assert(w@ =~= start + bytes_hex_ascii(bytes@.take(i + 1)));
    }
    assert(bytes@.take(n as int) =~= bytes@);
}

/// Writes each byte as `0x` and two uppercase hexadecimal digits, separated by single spaces.
pub fn write_bytes_hex_prefixed(w: &mut Vec<u8>, bytes: &[u8])
    ensures
        final(w)@ == old(w)@ + bytes_hex_prefixed_ascii(bytes@),
{
    let ghost start = w@;
    let n = bytes.len();
    for i in 0..n
        invariant
            n == bytes@.len(),
            w@ == start + bytes_hex_prefixed_ascii(bytes@.take(i as int)),
    {
        assert(bytes@.take(i + 1).drop_last() =~= bytes@.take(i as int));
        if i > 0 {
            w.push(32u8);
        }
        w.push(48u8);
        w.push(120u8);
        write_byte_hex(w, bytes[i]);
        assert(w@ =~= start + bytes_hex_prefixed_ascii(bytes@.take(i + 1)));
    }
    assert(bytes@.take(n as int) =~= bytes@);
}

/// Writes the prefixed hexadecimal form of the bytes followed by `\r\n`.
pub fn write_bytes_hex_line(w: &mut Vec<u8>, bytes: &[u8])
    ensures
        final(w)@ == old(w)@ + bytes_hex_prefixed_ascii(bytes@) + seq![13u8, 10u8],
{
    write_bytes_hex_prefixed(w, bytes);
    w.push(13u8);
    w.push(10u8);
    assert(final(w)@ =~= old(w)@ + bytes_hex_prefixed_ascii(bytes@) + seq![13u8, 10u8]);
}

/// The hexadecimal digit of a value, or `?` when it is not below 16.
pub open spec fn nibble_char(n: u8) -> char {
    if n < 16 {
        hex_digit(n as int)
    } else {
        '?'
    }
}

fn nibble_to_hex(n: u8) -> (c: char)
    ensures
        c == nibble_char(n),
{
    if n <= 9 {
        (48 + n) as char
    } else if n <= 15 {
        (65 + n - 10) as char
    } else {
        '?'
    }
}

/// Writes the bytes in uppercase hexadecimal, separated by single spaces.
pub fn write_bytes_hex_fmt(w: &mut String, bytes: &[u8])
    ensures
        final(w)@ == old(w)@ + bytes_hex_text(bytes@),
{
    let ghost start = w@;
    let n = bytes.len();
    for i in 0..n
        invariant
            n == bytes@.len(),
            w@ == start + bytes_hex_text(bytes@.take(i as int)),
    {
        assert(bytes@.take(i + 1).drop_last() =~= bytes@.take(i as int));
        let b = bytes[i];
        let hi = b >> 4;
        let lo = b & 0x0F;
        assert(b >> 4 == b / 16 && b & 0x0F == b % 16) by (bit_vector);
        if i > 0 {
            string_push(w, ' ');
        }
        string_push(w, nibble_to_hex(hi));
        string_push(w, nibble_to_hex(lo));
        assert(w@ =~= start + bytes_hex_text(bytes@.take(i + 1)));
    }
    assert(bytes@.take(n as int) =~= bytes@);
}

} // verus!

verus! {

/// Number of flags a `BitFlags` holds: one per 7-bit I2C address.
const BIT_COUNT: usize = 128;

/// Whether bit `k` of `b` is set.
pub open spec fn byte_bit(b: u8, k: u8) -> bool {
    (b >> k) & 1u8 == 1u8
}

/// A bitflag structure optimized for 128 bits, used for tracking I2C addresses.
#[derive(Clone, Copy)]
pub struct BitFlags {
    bytes: [u8; 16],
}

impl View for BitFlags {
    type V = Set<int>;

    /// The indices whose flag is set.
    closed spec fn view(&self) -> Set<int> {
        Set::new(|i: int| 0 <= i < 128 && byte_bit(self.bytes@[i / 8], (i % 8) as u8))
    }
}

proof fn lemma_or_bit(b: u8, k: u8, j: u8)
    requires
        k < 8,
        j < 8,
    ensures
        byte_bit(b | (1u8 << k), j) == (byte_bit(b, j) || j == k),
{
    assert(byte_bit(b | (1u8 << k), j) == (byte_bit(b, j) || j == k)) by (bit_vector)
        requires
            k < 8,
            j < 8,
    ;
}

proof fn lemma_and_not_bit(b: u8, k: u8, j: u8)
    requires
        k < 8,
        j < 8,
    ensures
        byte_bit(b & !(1u8 << k), j) == (byte_bit(b, j) && j != k),
{
    assert(byte_bit(b & !(1u8 << k), j) == (byte_bit(b, j) && j != k)) by (bit_vector)
        requires
            k < 8,
            j < 8,
    ;
}

proof fn lemma_test_bit(b: u8, k: u8)
    requires
        k < 8,
    ensures
        ((b & (1u8 << k)) != 0) == byte_bit(b, k),
{
    assert(((b & (1u8 << k)) != 0) == byte_bit(b, k)) by (bit_vector)
        requires
            k < 8,
    ;
}

proof fn lemma_zero_byte(b: u8)
    ensures
        (b == 0) <==> (forall|k: u8| k < 8 ==> !byte_bit(b, k)),
{
    assert(b == 0 ==> forall|k: u8| k < 8 ==> !byte_bit(b, k)) by (bit_vector);
    if b != 0 {
        assert(b != 0 ==> (byte_bit(b, 0) || byte_bit(b, 1) || byte_bit(b, 2) || byte_bit(b, 3)
            || byte_bit(b, 4) || byte_bit(b, 5) || byte_bit(b, 6) || byte_bit(b, 7)))
            by (bit_vector);
    }
}

impl BitFlags {
    /// The error every operation reports for an index of 128 or more.
    pub open spec fn bounds_error(idx: usize) -> BitFlagsError {
        BitFlagsError::IndexOutOfBounds { idx, max: 127 }
    }

    /// An empty set of flags.
    pub fn new() -> (r: Self)
        ensures
            r@ == Set::<int>::empty(),
    {
        let r = Self { bytes: [0u8; 16] };
        assert(r@ =~= Set::<int>::empty()) by {
            assert forall|i: int| !r@.contains(i) by {
                if 0 <= i < 128 {
                    lemma_zero_byte(r.bytes@[i / 8]);
                }
            }
        }
        r
    }

    fn check_bounds(&self, idx: usize) -> (r: Result<(), BitFlagsError>)
        ensures
            r == (if idx >= 128 {
                Err(Self::bounds_error(idx))
            } else {
                Ok::<(), BitFlagsError>(())
            }),
    {
        if idx >= BIT_COUNT {
            Err(BitFlagsError::IndexOutOfBounds { idx, max: BIT_COUNT - 1 })
        } else {
            Ok(())
        }
    }

    /// Sets the flag at `idx`; an index of 128 or more is refused and nothing changes.
    pub fn set(&mut self, idx: usize) -> (r: Result<(), BitFlagsError>)
        ensures
            idx < 128 ==> r is Ok && final(self)@ == old(self)@.insert(idx as int),
            idx >= 128 ==> r == Err::<(), BitFlagsError>(Self::bounds_error(idx))
                && final(self)@ == old(self)@,
    {
        self.check_bounds(idx)?;
        let byte = idx / 8;
        let bit = idx % 8;
        let ghost before = *self;
        let b = self.bytes[byte];
        self.bytes[byte] = b | (1u8 << (bit as u8));
        proof {
            assert forall|i: int| #![auto] self@.contains(i) == before@.insert(idx as int).contains(i) by {
                if 0 <= i < 128 {
                    lemma_or_bit(b, bit as u8, (i % 8) as u8);
                }
            }
            assert(self@ =~= before@.insert(idx as int));
        }
        Ok(())
    }

    /// Clears the flag at `idx`; an index of 128 or more is refused and nothing changes.
    pub fn clear(&mut self, idx: usize) -> (r: Result<(), BitFlagsError>)
        ensures
            idx < 128 ==> r is Ok && final(self)@ == old(self)@.remove(idx as int),
            idx >= 128 ==> r == Err::<(), BitFlagsError>(Self::bounds_error(idx))
                && final(self)@ == old(self)@,
    {
        self.check_bounds(idx)?;
        let byte = idx / 8;
        let bit = idx % 8;
        let ghost before = *self;
        let b = self.bytes[byte];
        self.bytes[byte] = b & !(1u8 << (bit as u8));
        proof {
            assert forall|i: int| #![auto] self@.contains(i) == before@.remove(idx as int).contains(i) by {
                if 0 <= i < 128 {
                    lemma_and_not_bit(b, bit as u8, (i % 8) as u8);
                }
            }
            assert(self@ =~= before@.remove(idx as int));
        }
        Ok(())
    }

    /// Whether the flag at `idx` is set; an index of 128 or more is refused.
    pub fn get(&self, idx: usize) -> (r: Result<bool, BitFlagsError>)
        ensures
            idx < 128 ==> r == Ok::<bool, BitFlagsError>(self@.contains(idx as int)),
            idx >= 128 ==> r == Err::<bool, BitFlagsError>(Self::bounds_error(idx)),
    {
        self.check_bounds(idx)?;
        let byte = idx / 8;
        let bit = idx % 8;
        let b = self.bytes[byte];
        proof {
            lemma_test_bit(b, bit as u8);
        }
        Ok((b & (1u8 << (bit as u8))) != 0)
    }

    /// Whether no flag is set.
    pub fn is_empty(&self) -> (r: bool)
        ensures
            r == (self@ == Set::<int>::empty()),
    {
        let mut i: usize = 0;
        while i < 16
            invariant
                i <= 16,
                forall|j: int| 0 <= j < i ==> self.bytes@[j] == 0,
            decreases 16 - i,
        {
            if self.bytes[i] != 0 {
                proof {
                    lemma_zero_byte(self.bytes@[i as int]);
                    let k = choose|k: u8| k < 8 && byte_bit(self.bytes@[i as int], k);
                    let idx: int = i * 8 + k;
                    assert(idx / 8 == i && idx % 8 == k);
                    assert(self@.contains(idx));
                }
                return false;
            }
            i += 1;
        }
        proof {
            assert forall|j: int| !self@.contains(j) by {
                if 0 <= j < 128 {
                    lemma_zero_byte(self.bytes@[j / 8]);
                }
            }
            assert(self@ =~= Set::<int>::empty());
        }
        true
    }

    /// Clears every flag.
    pub fn clear_all(&mut self)
        ensures
            final(self)@ == Set::<int>::empty(),
    {
        *self = Self::new();
    }
}

impl Default for BitFlags {
    fn default() -> (r: Self)
        ensures
            r@ == Set::<int>::empty(),
    {
        Self::new()
    }
}

/// Setting a flag and reading it back gives `true`; clearing it and reading it back gives
/// `false`; neither touches any other flag.
pub proof fn law_bitflags_set_get_clear(f: BitFlags, idx: int, other: int)
    requires
        0 <= idx < 128,
        other != idx,
    ensures
        f@.insert(idx).contains(idx),
        !f@.remove(idx).contains(idx),
        f@.insert(idx).contains(other) == f@.contains(other),
        f@.remove(idx).contains(other) == f@.contains(other),
{
}

/// Every flag that can be set lies below 128.
pub proof fn law_bitflags_bounded(f: BitFlags, i: int)
    ensures
        f@.contains(i) ==> 0 <= i < 128,
{
}

} // verus!

verus! {

/// Writes each byte of `s` as the character with the same code.
pub fn write_str_bytewise(serial: &mut String, s: &str)
    ensures
        final(serial)@ == old(serial)@ + bytes_as_chars(s.spec_bytes()),
{
    let ghost start = serial@;
    let bytes = s.as_bytes();
    let n = bytes.len();
    for i in 0..n
        invariant
            n == bytes@.len(),
            bytes@ == s.spec_bytes(),
            serial@ == start + bytes_as_chars(bytes@.take(i as int)),
    {
        string_push(serial, bytes[i] as char);
        assert(bytes_as_chars(bytes@.take(i + 1)) =~= bytes_as_chars(bytes@.take(i as int)).push(
            bytes@[i as int] as char,
        ));
    }
    assert(bytes@.take(n as int) =~= bytes@);
}

/// Writes the bytes of `s`, one at a time.
pub fn write_str_byte(writer: &mut Vec<u8>, s: &str)
    ensures
        final(writer)@ == old(writer)@ + s.spec_bytes(),
{
    let ghost start = writer@;
    let bytes = s.as_bytes();
    let n = bytes.len();
    for i in 0..n
        invariant
            n == bytes@.len(),
            bytes@ == s.spec_bytes(),
            writer@ == start + bytes@.take(i as int),
    {
        writer.push(bytes[i]);
        assert(bytes@.take(i + 1) =~= bytes@.take(i as int).push(bytes@[i as int]));
    }
    assert(bytes@.take(n as int) =~= bytes@);
}

/// Writes `text` with every non-ASCII character replaced by `\u{HEX}`, its code point
/// in uppercase hexadecimal.
pub fn write_ascii_safe(serial: &mut String, text: &str)
    ensures
        final(serial)@ == old(serial)@ + ascii_safe_text(text@),
{
    let ghost start = serial@;
    let n = text.unicode_len();
    let mut i: usize = 0;
    while i < n
        invariant
            n == text@.len(),
            i <= n,
            serial@ == start + ascii_safe_text(text@.take(i as int)),
        decreases n - i,
    {
        let c = text.get_char(i);
        assert(text@.take(i + 1).drop_last() =~= text@.take(i as int));
        let code = c as u32;
        if code < 128 {
            string_push(serial, c);
        } else {
            string_push(serial, '\\');
            string_push(serial, 'u');
            string_push(serial, '{');
            push_hex(serial, code);
            string_push(serial, '}');
        }
        proof {
            reveal_strlit("\\u{");
            reveal_strlit("}");
        }
        assert(serial@ =~= start + ascii_safe_text(text@.take(i + 1)));
        i += 1;
    }
    assert(text@.take(n as int) =~= text@);
}

/// Writes already formatted text with every non-ASCII character replaced by `\u{HEX}`.
pub fn write_formatted_ascii_safe(serial: &mut String, text: &str)
    ensures
        final(serial)@ == old(serial)@ + ascii_safe_text(text@),
{
    write_ascii_safe(serial, text);
}

/// The line `write_node_deps` writes for a node and its dependency list.
pub open spec fn node_deps_text(index: usize, deps: Seq<u8>) -> Seq<char> {
    (if index < 256 {
        "node "@ + byte_hex_text(index as u8) + ": deps="@
    } else {
        "node ?: deps="@
    }) + bytes_hex_text(deps) + seq!['\n']
}

/// Writes `node XX: deps=` (the index in two hexadecimal digits, or `?` from 256 on),
/// the dependency bytes in hexadecimal, and a newline.
pub fn write_node_deps(w: &mut String, index: usize, deps: &[u8])
    ensures
        final(w)@ == old(w)@ + node_deps_text(index, deps@),
{
    if index < 256 {
        w.append("node ");
        push_byte_hex(w, index as u8);
        w.append(": deps=");
    } else {
        w.append("node ?: deps=");
    }
    write_bytes_hex_fmt(w, deps);
    string_push(w, '\n');
    assert(final(w)@ =~= old(w)@ + node_deps_text(index, deps@));
}

/// Bytes a serial port is handed at most in one line.
pub const UART_CHUNK_SIZE: usize = 256;

/// The number of bytes of the UTF-8 encoding of `c`.
pub open spec fn utf8_width(c: char) -> nat {
    if (c as u32) < 0x80 {
        1
    } else if (c as u32) < 0x800 {
        2
    } else if (c as u32) < 0x10000 {
        3
    } else {
        4
    }
}

/// Where the chunk that starts at character `i` of `s` ends, having used
/// `used` bytes already: the chunk grows while the next character still fits
/// in `UART_CHUNK_SIZE` bytes.
pub open spec fn chunk_end(s: Seq<char>, i: int, used: nat) -> int
    decreases s.len() - i,
{
    if 0 <= i < s.len() && used + utf8_width(s[i]) <= UART_CHUNK_SIZE {
        chunk_end(s, i + 1, used + utf8_width(s[i]))
    } else {
        i
    }
}

/// `s` from character `i` on, cut into the longest pieces of at most
/// `UART_CHUNK_SIZE` bytes that end on a character, each followed by a newline.
pub open spec fn garbled_lines(s: Seq<char>, i: int) -> Seq<char>
    decreases s.len() - i,
{
    if 0 <= i < s.len() && i < chunk_end(s, i, 0) <= s.len() {
        s.subrange(i, chunk_end(s, i, 0)) + seq!['\n'] + garbled_lines(s, chunk_end(s, i, 0))
    } else {
        Seq::empty()
    }
}

proof fn lemma_chunk_end_bounds(s: Seq<char>, i: int, used: nat)
    requires
        0 <= i <= s.len(),
    ensures
        i <= chunk_end(s, i, used) <= s.len(),
    decreases s.len() - i,
{
    if 0 <= i < s.len() && used + utf8_width(s[i]) <= UART_CHUNK_SIZE {
        lemma_chunk_end_bounds(s, i + 1, used + utf8_width(s[i]));
    }
}

/// The number of UTF-8 bytes of `c`, as `char::len_utf8` gives it.
fn utf8_width_of(c: char) -> (r: usize)
    ensures
        r == utf8_width(c),
{
    let code = c as u32;
    if code < 0x80 {
        1
    } else if code < 0x800 {
        2
    } else if code < 0x10000 {
        3
    } else {
        4
    }
}

/// Writes `text` in lines of at most `UART_CHUNK_SIZE` bytes, each cut on a
/// character and followed by a newline, so that a slow serial port does not
/// garble a long message.
pub fn prevent_garbled(serial: &mut String, text: &str)
    ensures
        final(serial)@ == old(serial)@ + garbled_lines(text@, 0),
{
    let ghost s = text@;
    let ghost start = serial@;
    let n = text.unicode_len();
    let mut i: usize = 0;
    while i < n
        invariant
            n == s.len(),
            s == text@,
            i <= n,
            start + garbled_lines(s, 0) == serial@ + garbled_lines(s, i as int),
        decreases n - i,
    {
        let mut used: usize = 0;
        let mut j: usize = i;
        while j < n
            invariant_except_break
                i <= j <= n,
                n == s.len(),
                s == text@,
                used <= UART_CHUNK_SIZE,
                chunk_end(s, i as int, 0) == chunk_end(s, j as int, used as nat),
            ensures
                i <= j <= n,
                chunk_end(s, i as int, 0) == j,
            decreases n - j,
        {
            let w = utf8_width_of(text.get_char(j));
            if w > UART_CHUNK_SIZE - used {
                break;
            }
            used += w;
            j += 1;
        }
        proof {
            let w0 = utf8_width(s[i as int]);
            lemma_chunk_end_bounds(s, i + 1, w0);
            assert(chunk_end(s, i as int, 0) == chunk_end(s, i + 1, w0));
        }
        let ghost base = serial@;
        let mut k: usize = i;
        while k < j
            invariant
                i <= k <= j <= n,
                n == s.len(),
                s == text@,
                serial@ == base + s.subrange(i as int, k as int),
            decreases j - k,
        {
            let c = text.get_char(k);
            string_push(serial, c);
            proof {
                assert(s.subrange(i as int, k + 1) =~= s.subrange(i as int, k as int).push(c));
            }
            k += 1;
        }
        string_push(serial, '\n');
        proof {
            assert(garbled_lines(s, i as int) == s.subrange(i as int, j as int) + seq!['\n']
                + garbled_lines(s, j as int));
            assert(serial@ + garbled_lines(s, j as int) =~= base + garbled_lines(s, i as int));
        }
        i = j;
    }
    assert(garbled_lines(s, n as int) =~= Seq::<char>::empty());
}

/// The number of bytes of the UTF-8 encoding of `cs`.
pub open spec fn utf8_len(cs: Seq<char>) -> nat
    decreases cs.len(),
{
    if cs.len() == 0 {
        0
    } else {
        utf8_width(cs[0]) + utf8_len(cs.drop_first())
    }
}

/// The pieces `prevent_garbled` cuts `s` into, from character `i` on.
pub open spec fn garbled_pieces(s: Seq<char>, i: int) -> Seq<Seq<char>>
    decreases s.len() - i,
{
    if 0 <= i < s.len() && i < chunk_end(s, i, 0) <= s.len() {
        seq![s.subrange(i, chunk_end(s, i, 0))] + garbled_pieces(s, chunk_end(s, i, 0))
    } else {
        Seq::empty()
    }
}

/// The pieces one after the other.
pub open spec fn joined(pieces: Seq<Seq<char>>) -> Seq<char>
    decreases pieces.len(),
{
    if pieces.len() == 0 {
        Seq::empty()
    } else {
        pieces[0] + joined(pieces.drop_first())
    }
}

/// The pieces one after the other, each followed by a newline.
pub open spec fn lines_of(pieces: Seq<Seq<char>>) -> Seq<char>
    decreases pieces.len(),
{
    if pieces.len() == 0 {
        Seq::empty()
    } else {
        pieces[0] + seq!['\n'] + lines_of(pieces.drop_first())
    }
}

proof fn lemma_chunk_end_fits(s: Seq<char>, i: int, used: nat)
    requires
        0 <= i <= s.len(),
        used <= UART_CHUNK_SIZE,
    ensures
        i <= chunk_end(s, i, used) <= s.len(),
        used + utf8_len(s.subrange(i, chunk_end(s, i, used))) <= UART_CHUNK_SIZE,
    decreases s.len() - i,
{
    let e = chunk_end(s, i, used);
    if 0 <= i < s.len() && used + utf8_width(s[i]) <= UART_CHUNK_SIZE {
        lemma_chunk_end_fits(s, i + 1, used + utf8_width(s[i]));
        assert(s.subrange(i, e).drop_first() =~= s.subrange(i + 1, e));
    } else {
        assert(s.subrange(i, e) =~= Seq::<char>::empty());
    }
}

/// The text `prevent_garbled` writes is made of pieces of the text, each
/// followed by a newline: put back together without the newlines they give
/// the text, and each is a non-empty run of characters of at most
/// `UART_CHUNK_SIZE` bytes.
pub proof fn law_garbled_lines_cut_text(s: Seq<char>, i: int)
    requires
        0 <= i <= s.len(),
    ensures
        garbled_lines(s, i) == lines_of(garbled_pieces(s, i)),
        joined(garbled_pieces(s, i)) == s.subrange(i, s.len() as int),
        forall|k: int|
            0 <= k < garbled_pieces(s, i).len() ==> (#[trigger] garbled_pieces(s, i)[k]).len() > 0
                && utf8_len(garbled_pieces(s, i)[k]) <= UART_CHUNK_SIZE,
    decreases s.len() - i,
{
    if i < s.len() {
        let w0 = utf8_width(s[i]);
        lemma_chunk_end_bounds(s, i + 1, w0);
        lemma_chunk_end_fits(s, i, 0);
        let e = chunk_end(s, i, 0);
        assert(e == chunk_end(s, i + 1, w0));
        law_garbled_lines_cut_text(s, e);
        let ps = garbled_pieces(s, i);
        assert(ps.drop_first() =~= garbled_pieces(s, e));
        assert(ps[0] == s.subrange(i, e));
        assert(s.subrange(i, s.len() as int) =~= s.subrange(i, e) + s.subrange(e, s.len() as int));
        assert forall|k: int| 0 <= k < ps.len() implies (#[trigger] ps[k]).len() > 0 && utf8_len(ps[k])
            <= UART_CHUNK_SIZE by {
            if k > 0 {
                assert(ps[k] == garbled_pieces(s, e)[k - 1]);
            }
        }
    } else {
        assert(s.subrange(i, s.len() as int) =~= Seq::<char>::empty());
    }
}

} // verus!
