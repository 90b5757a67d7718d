use resolve_rs::buf::{scan_qname, BytePacketBuffer, QnameEnd};

fn buffer_with(bytes: &[u8]) -> BytePacketBuffer {
    let mut buffer = BytePacketBuffer::new();
    buffer.buf[..bytes.len()].copy_from_slice(bytes);
    buffer
}

#[test]
fn new_buffer_is_zeroed_at_start() {
    let buffer = BytePacketBuffer::new();
    assert_eq!(buffer.pos(), 0);
    assert!(buffer.buf.iter().all(|b| *b == 0));
}

#[test]
fn step_and_seek_move_the_position() {
    let mut buffer = BytePacketBuffer::new();
    assert_eq!(buffer.step(7), Ok(()));
    assert_eq!(buffer.pos(), 7);
    assert_eq!(buffer.seek(600), Ok(()));
    assert_eq!(buffer.pos(), 600);
}

#[test]
fn read_advances_and_stops_at_the_end() {
    let mut buffer = buffer_with(&[0xab, 0xcd]);
    assert_eq!(buffer.read(), Ok(0xab));
    assert_eq!(buffer.pos(), 1);
    buffer.seek(511).unwrap();
    assert_eq!(buffer.read(), Ok(0));
    assert_eq!(buffer.pos(), 512);
    assert_eq!(buffer.read(), Err("End of buffer".to_string()));
    assert_eq!(buffer.pos(), 512);
}

#[test]
fn get_does_not_move() {
    let mut buffer = buffer_with(&[1, 2, 3]);
    assert_eq!(buffer.get(2), Ok(3));
    assert_eq!(buffer.pos(), 0);
    assert_eq!(buffer.get(512), Err("End of buffer".to_string()));
}

#[test]
fn get_range_returns_the_slice() {
    let mut buffer = buffer_with(&[1, 2, 3, 4]);
    assert_eq!(buffer.get_range(1, 2), Ok(&[2u8, 3u8][..]));
    assert_eq!(buffer.get_range(512, 1), Err("End of buffer".to_string()));
    assert_eq!(buffer.get_range(0, 512), Err("End of buffer".to_string()));
}

#[test]
fn read_u16_and_u32_are_big_endian() {
    let mut buffer = buffer_with(&[0x12, 0x34, 0xde, 0xad, 0xbe, 0xef]);
    assert_eq!(buffer.read_u16(), Ok(0x1234));
    assert_eq!(buffer.read_u32(), Ok(0xdeadbeef));
    assert_eq!(buffer.pos(), 6);
}

#[test]
fn read_u16_past_the_end_consumes_what_is_left() {
    let mut buffer = BytePacketBuffer::new();
    buffer.seek(511).unwrap();
    assert_eq!(buffer.read_u16(), Err("End of buffer".to_string()));
    assert_eq!(buffer.pos(), 512);
    buffer.seek(510).unwrap();
    assert_eq!(buffer.read_u32(), Err("End of buffer".to_string()));
    assert_eq!(buffer.pos(), 512);
}

#[test]
fn read_qname_reads_labels() {
    let mut buffer = buffer_with(b"\x03www\x06google\x03com\x00");
    let mut name = String::new();
    assert_eq!(buffer.read_qname(&mut name), Ok(()));
    assert_eq!(name, "www.google.com");
    assert_eq!(buffer.pos(), 16);
}

#[test]
fn read_qname_appends_and_lowercases() {
    let mut buffer = buffer_with(b"\x03WwW\x03CoM\x00");
    let mut name = String::from("x:");
    assert_eq!(buffer.read_qname(&mut name), Ok(()));
    assert_eq!(name, "x:www.com");
}

#[test]
fn read_qname_replaces_invalid_utf8() {
    let mut buffer = buffer_with(b"\x02a\xff\x00");
    let mut name = String::new();
    assert_eq!(buffer.read_qname(&mut name), Ok(()));
    assert_eq!(name, "a\u{fffd}");
}

#[test]
fn read_qname_follows_a_pointer() {
    // "google.com" at offset 0, then "www" followed by a pointer to offset 0.
    let mut buffer = buffer_with(b"\x06google\x03com\x00\x03www\xc0\x00");
    buffer.seek(12).unwrap();
    let mut name = String::new();
    assert_eq!(buffer.read_qname(&mut name), Ok(()));
    assert_eq!(name, "www.google.com");
    // The position moves past the pointer, not to where the pointer led.
    assert_eq!(buffer.pos(), 18);
}

#[test]
fn read_qname_stops_a_pointer_loop() {
    let mut buffer = buffer_with(b"\xc0\x00");
    let mut name = String::new();
    assert_eq!(
        buffer.read_qname(&mut name),
        Err("Li,it of 5 jumps exceeded".to_string())
    );
    assert_eq!(name, "");
    assert_eq!(buffer.pos(), 2);
}

#[test]
fn read_qname_at_the_end_fails() {
    let mut buffer = BytePacketBuffer::new();
    buffer.seek(512).unwrap();
    let mut name = String::new();
    assert_eq!(buffer.read_qname(&mut name), Err("End of buffer".to_string()));
}

#[test]
fn write_integers_big_endian() {
    let mut buffer = BytePacketBuffer::new();
    assert_eq!(buffer.write_u8(7), Ok(()));
    assert_eq!(buffer.write_u16(0x1234), Ok(()));
    assert_eq!(buffer.write_u32(0xdeadbeef), Ok(()));
    assert_eq!(&buffer.buf[..7], &[7, 0x12, 0x34, 0xde, 0xad, 0xbe, 0xef]);
    assert_eq!(buffer.pos(), 7);
}

#[test]
fn write_past_the_end_fails() {
    let mut buffer = BytePacketBuffer::new();
    buffer.seek(511).unwrap();
    assert_eq!(buffer.write_u16(0xabcd), Err("End of buffer".to_string()));
    assert_eq!(buffer.buf[511], 0xab);
    assert_eq!(buffer.pos(), 512);
}

#[test]
fn write_qname_writes_labels() {
    let mut buffer = BytePacketBuffer::new();
    assert_eq!(buffer.write_qname("www.google.com"), Ok(()));
    assert_eq!(&buffer.buf[..16], b"\x03www\x06google\x03com\x00");
    assert_eq!(buffer.pos(), 16);
}

#[test]
fn write_qname_rejects_a_long_label() {
    let mut buffer = BytePacketBuffer::new();
    let name = format!("ok.{}", "a".repeat(64));
    assert_eq!(
        buffer.write_qname(&name),
        Err("Single label exceeds 63 characters of length".to_string())
    );
    // The labels before the long one were written.
    assert_eq!(buffer.pos(), 3);
    assert_eq!(&buffer.buf[..3], b"\x02ok");
}

#[test]
fn written_name_reads_back() {
    let mut buffer = BytePacketBuffer::new();
    buffer.write_qname("mail.example.org").unwrap();
    let end = buffer.pos();
    buffer.seek(0).unwrap();
    let mut name = String::new();
    buffer.read_qname(&mut name).unwrap();
    assert_eq!(name, "mail.example.org");
    assert_eq!(buffer.pos(), end);
}

#[test]
fn set_u16_overwrites_in_place() {
    let mut buffer = BytePacketBuffer::new();
    buffer.seek(3).unwrap();
    assert_eq!(buffer.set_u16(10, 0x0102), Ok(()));
    assert_eq!(&buffer.buf[10..12], &[1, 2]);
    assert_eq!(buffer.pos(), 3);
}

#[test]
fn scan_qname_follows_labels_and_pointers() {
    let mut buffer = buffer_with(b"\x03www\x06google\x03com\x00");
    buffer.buf[20] = 0xc0;
    buffer.buf[21] = 0x00;
    assert!(matches!(scan_qname(&buffer.buf, 0), (QnameEnd::Done, 16)));
    assert!(matches!(scan_qname(&buffer.buf, 20), (QnameEnd::Done, 22)));
    let mut name = String::new();
    assert_eq!(buffer.read_qname(&mut name), Ok(()));
    assert_eq!(buffer.pos(), 16);
}

#[test]
fn scan_qname_finds_a_label_past_the_end() {
    let mut buffer = BytePacketBuffer::new();
    buffer.buf[508] = 10;
    assert!(matches!(scan_qname(&buffer.buf, 508), (QnameEnd::Overrun, 508)));
    // A pointer to such a label leaves the position right after the pointer.
    buffer.buf[0] = 0xc1;
    buffer.buf[1] = 0xfc;
    assert!(matches!(scan_qname(&buffer.buf, 0), (QnameEnd::Overrun, 2)));
}

#[test]
fn scan_qname_other_endings() {
    let mut buffer = BytePacketBuffer::new();
    buffer.buf[511] = 5;
    assert!(matches!(scan_qname(&buffer.buf, 511), (QnameEnd::EndOfBuffer, 511)));
    assert!(matches!(scan_qname(&buffer.buf, 600), (QnameEnd::EndOfBuffer, 600)));
    buffer.buf[0] = 0xc0;
    buffer.buf[1] = 0x00;
    assert!(matches!(scan_qname(&buffer.buf, 0), (QnameEnd::TooManyJumps, 2)));
}
