use pty_manager::reader::reader_step;
use pty_manager::splitter::utf8_split_point;

#[test]
fn split_empty_is_zero() {
    assert_eq!(utf8_split_point(&[]), 0);
}

#[test]
fn split_ascii_passes_whole() {
    assert_eq!(utf8_split_point(b"hello"), 5);
    assert_eq!(utf8_split_point(b"a"), 1);
}

#[test]
fn split_complete_two_byte_char() {
    // "é" is 0xC3 0xA9.
    assert_eq!(utf8_split_point(&[0xC3, 0xA9]), 2);
    assert_eq!(utf8_split_point(b"caf\xC3\xA9"), 5);
}

#[test]
fn split_partial_two_byte_char() {
    assert_eq!(utf8_split_point(&[0xC3]), 0);
    assert_eq!(utf8_split_point(&[b'a', b'b', 0xC3]), 2);
}

#[test]
fn split_partial_three_byte_char() {
    // "€" is 0xE2 0x82 0xAC.
    assert_eq!(utf8_split_point(&[0xE2]), 0);
    assert_eq!(utf8_split_point(&[0xE2, 0x82]), 0);
    assert_eq!(utf8_split_point(&[b'x', 0xE2, 0x82]), 1);
    assert_eq!(utf8_split_point(&[0xE2, 0x82, 0xAC]), 3);
}

#[test]
fn split_partial_four_byte_char() {
    // "😀" is 0xF0 0x9F 0x98 0x80.
    assert_eq!(utf8_split_point(&[0xF0, 0x9F, 0x98, 0x80]), 4);
    assert_eq!(utf8_split_point(&[0xF0]), 0);
    assert_eq!(utf8_split_point(&[0xF0, 0x9F]), 0);
    assert_eq!(utf8_split_point(&[0xF0, 0x9F, 0x98]), 0);
    assert_eq!(utf8_split_point(&[b'a', b'b', 0xF0, 0x9F, 0x98]), 2);
}

#[test]
fn split_malformed_continuations_pass_through() {
    // Three trailing continuation bytes cannot open a character: lossy
    // decoding deals with them.
    assert_eq!(utf8_split_point(&[0x80, 0x80, 0x80]), 3);
    assert_eq!(utf8_split_point(&[b'a', 0x80, 0x80, 0x80]), 4);
}

#[test]
fn split_invalid_lead_treated_as_two_byte() {
    // 0xFF is not a valid lead; it is held back like a two-byte lead and
    // handed out once more input arrives.
    assert_eq!(utf8_split_point(&[b'a', 0xFF]), 1);
    assert_eq!(utf8_split_point(&[b'a', 0xFF, 0x80]), 3);
}

#[test]
fn reader_step_holds_back_partial_char() {
    let mut carry: Vec<u8> = Vec::new();
    // First read ends in the middle of "é".
    let emit = reader_step(&mut carry, &[b'h', b'i', 0xC3]);
    assert_eq!(emit, b"hi".to_vec());
    assert_eq!(carry, vec![0xC3]);
    // The continuation arrives with the next read.
    let emit = reader_step(&mut carry, &[0xA9, b'!']);
    assert_eq!(emit, vec![0xC3, 0xA9, b'!']);
    assert!(carry.is_empty());
}

#[test]
fn reader_chunking_round_trip() {
    // Any chunking of a valid UTF-8 string is reassembled byte for byte.
    let text = "héllo 😀 wörld €1".as_bytes();
    for cut1 in 0..text.len() {
        for cut2 in cut1..text.len() {
            let mut carry: Vec<u8> = Vec::new();
            let mut gathered: Vec<u8> = Vec::new();
            gathered.extend(reader_step(&mut carry, &text[..cut1]));
            gathered.extend(reader_step(&mut carry, &text[cut1..cut2]));
            gathered.extend(reader_step(&mut carry, &text[cut2..]));
            assert_eq!(gathered, text.to_vec());
            assert!(carry.is_empty());
            assert!(String::from_utf8(gathered).is_ok());
        }
    }
}

#[test]
fn reader_carry_is_short() {
    let mut carry: Vec<u8> = Vec::new();
    let _ = reader_step(&mut carry, &[0xF0, 0x9F, 0x98]);
    assert_eq!(carry.len(), 3);
    let _ = reader_step(&mut carry, &[]);
    assert!(carry.len() <= 3);
}
