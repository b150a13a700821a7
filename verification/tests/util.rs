use dvcdbg::compat::ascii;
use dvcdbg::compat::buffer;
use dvcdbg::compat::util::{
    calculate_cmd_buffer_size, prevent_garbled, write_ascii_safe, write_byte_hex, write_bytes_hex,
    write_bytes_hex_fmt, write_bytes_hex_line, write_bytes_hex_prefixed, write_formatted_ascii_safe,
    write_node_deps, write_str_byte, write_str_bytewise, BitFlags, ERROR_STRING_BUFFER_SIZE,
};
use dvcdbg::error::BitFlagsError;

#[test]
fn cmd_buffer_size_formula() {
    assert_eq!(calculate_cmd_buffer_size(3, 4), 3 * 5 + 6);
    assert_eq!(calculate_cmd_buffer_size(0, 10), 0);
    assert_eq!(calculate_cmd_buffer_size(1, 0), 3);
    assert_eq!(buffer::calculate_cmd_buffer_size(3, 4), 21);
    assert_eq!(ERROR_STRING_BUFFER_SIZE, 128);
    assert_eq!(buffer::ERROR_STRING_BUFFER_SIZE, 768);
}

#[test]
fn hex_bytes_into_byte_buffers() {
    let mut w = Vec::new();
    write_byte_hex(&mut w, 0x0F);
    assert_eq!(w, b"0F".to_vec());
    let mut w = Vec::new();
    write_bytes_hex(&mut w, &[0x12, 0xAB, 0xFF]);
    assert_eq!(w, b"12 AB FF".to_vec());
    let mut w = Vec::new();
    write_bytes_hex_prefixed(&mut w, &[0x01, 0xA0]);
    assert_eq!(w, b"0x01 0xA0".to_vec());
    let mut w = Vec::new();
    write_bytes_hex_line(&mut w, &[0x3C]);
    assert_eq!(w, b"0x3C\r\n".to_vec());
    let mut w = Vec::new();
    write_bytes_hex(&mut w, &[]);
    assert!(w.is_empty());
}

#[test]
fn hex_bytes_into_strings() {
    let mut s = String::new();
    write_bytes_hex_fmt(&mut s, &[0x00, 0x9A, 0xF0]);
    assert_eq!(s, "00 9A F0");
    let mut s = String::new();
    ascii::write_byte_hex(&mut s, 0xC5);
    assert_eq!(s, "C5");
    let mut s = String::new();
    ascii::write_bytes_hex(&mut s, &[0xDE, 0xAD]);
    assert_eq!(s, "DE AD");
    let mut s = String::new();
    ascii::write_bytes_hex_prefixed(&mut s, &[0xBE, 0xEF]);
    assert_eq!(s, "0xBE 0xEF");
}

#[test]
fn text_writers() {
    let mut s = String::new();
    write_str_bytewise(&mut s, "ab");
    assert_eq!(s, "ab");
    let mut w = Vec::new();
    write_str_byte(&mut w, "hi!");
    assert_eq!(w, b"hi!".to_vec());
    let mut s = String::new();
    write_ascii_safe(&mut s, "a\u{e9}b\u{1F600}");
    assert_eq!(s, "a\\u{E9}b\\u{1F600}");
    let mut s = String::new();
    write_formatted_ascii_safe(&mut s, "x=\u{3bb}");
    assert_eq!(s, "x=\\u{3BB}");
    let mut s = String::new();
    write_node_deps(&mut s, 10, &[0x01, 0x02]);
    assert_eq!(s, "node 0A: deps=01 02\n");
    let mut s = String::new();
    write_node_deps(&mut s, 300, &[]);
    assert_eq!(s, "node ?: deps=\n");
}

#[test]
fn prevent_garbled_cuts_long_text_on_characters() {
    let mut s = String::new();
    prevent_garbled(&mut s, "short");
    assert_eq!(s, "short\n");

    let long: String = "x".repeat(600);
    let mut s = String::new();
    prevent_garbled(&mut s, &long);
    let lines: Vec<&str> = s.split('\n').collect();
    assert_eq!(lines.len(), 4);
    assert_eq!(lines[0].len(), 256);
    assert_eq!(lines[1].len(), 256);
    assert_eq!(lines[2].len(), 88);
    assert_eq!(lines[3], "");

    // 255 one-byte characters then a two-byte one: it does not fit in the first line
    let text = format!("{}\u{e9}z", "y".repeat(255));
    let mut s = String::new();
    prevent_garbled(&mut s, &text);
    assert_eq!(s, format!("{}\n\u{e9}z\n", "y".repeat(255)));

    let mut s = String::new();
    prevent_garbled(&mut s, "");
    assert_eq!(s, "");
}

#[test]
fn bitflags_set_get_clear() {
    let mut f = BitFlags::new();
    assert!(f.is_empty());
    assert_eq!(f.get(5), Ok(false));
    assert_eq!(f.set(5), Ok(()));
    assert_eq!(f.get(5), Ok(true));
    assert_eq!(f.get(4), Ok(false));
    assert!(!f.is_empty());
    assert_eq!(f.set(127), Ok(()));
    assert_eq!(f.clear(5), Ok(()));
    assert_eq!(f.get(5), Ok(false));
    assert_eq!(f.get(127), Ok(true));
    f.clear_all();
    assert!(f.is_empty());
    let d = BitFlags::default();
    assert!(d.is_empty());
}

#[test]
fn bitflags_refuse_out_of_range() {
    let mut f = BitFlags::new();
    let err = BitFlagsError::IndexOutOfBounds { idx: 128, max: 127 };
    assert_eq!(f.set(128), Err(err));
    assert_eq!(f.clear(128), Err(err));
    assert_eq!(f.get(128), Err(err));
    assert_eq!(
        f.get(1000),
        Err(BitFlagsError::IndexOutOfBounds { idx: 1000, max: 127 })
    );
    assert!(f.is_empty());
}
