use resolve_rs::buf::{BytePacketBuffer, Reach};
use resolve_rs::record::header::DnsHeader;
use resolve_rs::record::packet::{question_reach, DnsPacket};
use resolve_rs::record::question::{DnsQuestion, QueryClass, QueryType};
use resolve_rs::record::record::{record_reach, DnsRecord};
use resolve_rs::record::ResultCode;

fn buffer_with(bytes: &[u8]) -> BytePacketBuffer {
    let mut buffer = BytePacketBuffer::new();
    buffer.buf[..bytes.len()].copy_from_slice(bytes);
    buffer
}

#[test]
fn result_code_numbers() {
    assert_eq!(ResultCode::from_num(0), ResultCode::NOERROR);
    assert_eq!(ResultCode::from_num(1), ResultCode::FORMERR);
    assert_eq!(ResultCode::from_num(2), ResultCode::SERVFAIL);
    assert_eq!(ResultCode::from_num(3), ResultCode::NXDOMAIN);
    assert_eq!(ResultCode::from_num(4), ResultCode::NOTIMP);
    assert_eq!(ResultCode::from_num(5), ResultCode::REFUSED);
    assert_eq!(ResultCode::from_num(6), ResultCode::NOERROR);
    assert_eq!(ResultCode::from_u8(3), ResultCode::NXDOMAIN);
    assert_eq!(ResultCode::NXDOMAIN.to_num(), 3);
}

#[test]
fn query_type_numbers() {
    assert_eq!(QueryType::from_u16(1), QueryType::A);
    assert_eq!(QueryType::from_u16(2), QueryType::NS);
    assert_eq!(QueryType::from_u16(5), QueryType::CNAME);
    assert_eq!(QueryType::from_u16(15), QueryType::MX);
    assert_eq!(QueryType::from_u16(28), QueryType::AAAA);
    assert_eq!(QueryType::from_u16(16), QueryType::UNKNOWN(16));
    assert_eq!(QueryType::MX.to_u16(), 15);
    assert_eq!(QueryType::UNKNOWN(99).to_u16(), 99);
    for v in [0u16, 1, 2, 5, 15, 28, 33, 65535] {
        assert_eq!(QueryType::from_u16(v).to_u16(), v);
    }
    // An unknown type that holds a known number comes back as the known type.
    assert_eq!(QueryType::from_u16(QueryType::UNKNOWN(1).to_u16()), QueryType::A);
}

#[test]
fn query_type_names() {
    assert_eq!(QueryType::A.to_string(), "A");
    assert_eq!(QueryType::NS.to_string(), "NS");
    assert_eq!(QueryType::CNAME.to_string(), "CNAME");
    assert_eq!(QueryType::MX.to_string(), "MX");
    assert_eq!(QueryType::AAAA.to_string(), "AAAA");
    assert_eq!(QueryType::UNKNOWN(0).to_string(), "UNKNOWN(0)");
    assert_eq!(QueryType::UNKNOWN(16).to_string(), "UNKNOWN(16)");
    assert_eq!(QueryType::UNKNOWN(65535).to_string(), "UNKNOWN(65535)");
}

#[test]
fn query_class_numbers() {
    assert_eq!(QueryClass::IN.to_u16(), 1);
    assert_eq!(QueryClass::_CH.to_u16(), 3);
    assert_eq!(QueryClass::_HS.to_u16(), 4);
    assert_eq!(QueryClass::_ANY.to_u16(), 255);
}

#[test]
fn header_reads_fields_and_counts() {
    // id 0x1234; QR, opcode 2, AA, TC, RD; RA, CD, rcode 3; counts 1, 2, 3, 4.
    let mut buffer = buffer_with(&[0x12, 0x34, 0x97, 0x93, 0, 1, 0, 2, 0, 3, 0, 4]);
    let mut header = DnsHeader::new();
    assert_eq!(header.read(&mut buffer), Ok(()));
    assert_eq!(buffer.pos(), 12);
    assert_eq!(header.id, 0x1234);
    assert!(header.response);
    assert_eq!(header.op_code, 2);
    assert!(header.authoritative_answer);
    assert!(header.truncated_message);
    assert!(header.recursion_desired);
    assert!(header.recursion_available);
    assert!(!header._z);
    assert!(header.checking_disabled);
    assert_eq!(header.result_code, ResultCode::NXDOMAIN);
    assert_eq!(header.questions, 1);
    assert_eq!(header.answers, 2);
    assert_eq!(header.authoritative_entries, 3);
    assert_eq!(header.resource_entries, 4);
}

#[test]
fn header_read_leaves_the_reserved_bit_alone() {
    // Bit 6 of the second flag byte is set on the wire; reading does not take it.
    let mut buffer = buffer_with(&[0, 1, 0, 0x40, 0, 0, 0, 0, 0, 0, 0, 0]);
    let mut header = DnsHeader::new();
    assert_eq!(header.read(&mut buffer), Ok(()));
    assert!(!header._z);
    assert!(!header.recursion_available);
    assert!(!header.checking_disabled);
    assert_eq!(header.result_code, ResultCode::NOERROR);
    let mut buffer = buffer_with(&[0, 1, 0, 0, 0, 0, 0, 0, 0, 0, 0, 0]);
    let mut header = DnsHeader::new();
    header._z = true;
    assert_eq!(header.read(&mut buffer), Ok(()));
    assert!(header._z);
}

#[test]
fn header_read_past_the_end_keeps_what_it_read() {
    let mut buffer = BytePacketBuffer::new();
    buffer.buf[506] = 0xbe;
    buffer.buf[507] = 0xef;
    buffer.seek(506).unwrap();
    let mut header = DnsHeader::new();
    assert_eq!(header.read(&mut buffer), Err("End of buffer".to_string()));
    assert_eq!(header.id, 0xbeef);
    assert_eq!(header.questions, 0);
    assert_eq!(buffer.pos(), 512);
}

#[test]
fn header_write_then_read() {
    let mut header = DnsHeader::new();
    header.id = 0xabcd;
    header.response = true;
    header.op_code = 5;
    header.recursion_desired = true;
    header.recursion_available = true;
    header.result_code = ResultCode::REFUSED;
    header.questions = 1;
    header.resource_entries = 9;
    let mut buffer = BytePacketBuffer::new();
    assert_eq!(header.write(&mut buffer), Ok(()));
    assert_eq!(buffer.pos(), 12);
    assert_eq!(&buffer.buf[..4], &[0xab, 0xcd, 0xa9, 0x85]);
    buffer.seek(0).unwrap();
    let mut back = DnsHeader::default();
    back.read(&mut buffer).unwrap();
    assert_eq!(back.id, 0xabcd);
    assert!(back.response);
    assert_eq!(back.op_code, 5);
    assert!(back.recursion_desired);
    assert!(back.recursion_available);
    assert_eq!(back.result_code, ResultCode::REFUSED);
    assert_eq!(back.questions, 1);
    assert_eq!(back.resource_entries, 9);
}

#[test]
fn question_write_then_read() {
    let question = DnsQuestion::new("example.com".to_string(), QueryType::MX);
    let mut buffer = BytePacketBuffer::new();
    assert_eq!(question.write(&mut buffer), Ok(()));
    assert_eq!(&buffer.buf[..17], b"\x07example\x03com\x00\x00\x0f\x00\x01");
    buffer.seek(0).unwrap();
    let mut back = DnsQuestion::new(String::new(), QueryType::UNKNOWN(0));
    assert_eq!(back.read(&mut buffer), Ok(()));
    assert_eq!(back, question);
    assert_eq!(buffer.pos(), 17);
}

#[test]
fn question_read_ignores_a_missing_class() {
    let mut buffer = BytePacketBuffer::new();
    buffer.buf[506..511].copy_from_slice(b"\x01a\x00\x00\x01");
    buffer.seek(506).unwrap();
    let mut question = DnsQuestion::new(String::new(), QueryType::UNKNOWN(0));
    assert_eq!(question.read(&mut buffer), Ok(()));
    assert_eq!(question.name, "a");
    assert_eq!(question.query_type, QueryType::A);
    assert_eq!(buffer.pos(), 512);
}

#[test]
fn a_record_write_then_read() {
    let record = DnsRecord::A { domain: "host.example".to_string(), address: 0xc0a80001, ttl: 300 };
    let mut buffer = BytePacketBuffer::new();
    assert_eq!(record.write(&mut buffer), Ok(28));
    buffer.seek(0).unwrap();
    match DnsRecord::read(&mut buffer).unwrap() {
        DnsRecord::A { domain, address, ttl } => {
            assert_eq!(domain, "host.example");
            assert_eq!(address, 0xc0a80001);
            assert_eq!(ttl, 300);
        }
        other => panic!("unexpected record {:?}", other),
    }
    assert_eq!(buffer.pos(), 28);
}

#[test]
fn ns_record_carries_its_data_length() {
    let record = DnsRecord::NS { domain: "example.com".to_string(), host: "ns1.example.com".to_string(), ttl: 60 };
    let mut buffer = BytePacketBuffer::new();
    let n = record.write(&mut buffer).unwrap();
    assert_eq!(n, 13 + 10 + 17);
    // The data length sits right before the host name.
    assert_eq!(&buffer.buf[21..23], &[0, 17]);
    buffer.seek(0).unwrap();
    match DnsRecord::read(&mut buffer).unwrap() {
        DnsRecord::NS { domain, host, ttl } => {
            assert_eq!(domain, "example.com");
            assert_eq!(host, "ns1.example.com");
            assert_eq!(ttl, 60);
        }
        other => panic!("unexpected record {:?}", other),
    }
}

#[test]
fn aaaa_record_write_then_read() {
    let address = [0x2001, 0x0db8, 0, 0, 0, 0, 0xff00, 0x0042];
    let record = DnsRecord::AAAA { domain: "v6.example".to_string(), address, ttl: 7 };
    let mut buffer = BytePacketBuffer::new();
    let n = record.write(&mut buffer).unwrap();
    assert_eq!(n, 12 + 10 + 16);
    buffer.seek(0).unwrap();
    match DnsRecord::read(&mut buffer).unwrap() {
        DnsRecord::AAAA { domain, address: back, ttl } => {
            assert_eq!(domain, "v6.example");
            assert_eq!(back, address);
            assert_eq!(ttl, 7);
        }
        other => panic!("unexpected record {:?}", other),
    }
}

#[test]
fn unwritten_record_types_write_nothing() {
    let mut buffer = BytePacketBuffer::new();
    let cname = DnsRecord::CNAME { domain: "a".to_string(), host: "b".to_string(), ttl: 1 };
    let unknown = DnsRecord::UNKNOWN { domain: "a".to_string(), query_type: 99, data_len: 0, ttl: 1 };
    assert_eq!(cname.write(&mut buffer), Ok(0));
    assert_eq!(unknown.write(&mut buffer), Ok(0));
    assert_eq!(buffer.pos(), 0);
}

#[test]
fn record_read_mx_and_cname() {
    let mut buffer = buffer_with(
        b"\x01a\x00\x00\x0f\x00\x01\x00\x00\x00\x10\x00\x05\x00\x0a\x02mx\x00\
          \x01b\x00\x00\x05\x00\x01\x00\x00\x00\x20\x00\x04\x02cn\x00",
    );
    match DnsRecord::read(&mut buffer).unwrap() {
        DnsRecord::MX { domain, priority, host, ttl } => {
            assert_eq!((domain.as_str(), priority, host.as_str(), ttl), ("a", 10, "mx", 16));
        }
        other => panic!("unexpected record {:?}", other),
    }
    match DnsRecord::read(&mut buffer).unwrap() {
        DnsRecord::CNAME { domain, host, ttl } => {
            assert_eq!((domain.as_str(), host.as_str(), ttl), ("b", "cn", 32));
        }
        other => panic!("unexpected record {:?}", other),
    }
}

#[test]
fn unknown_record_skips_its_data() {
    let mut buffer = buffer_with(b"\x01a\x00\x00\x10\x00\x01\x00\x00\x00\x05\x00\x03xyz\x01b\x00");
    match DnsRecord::read(&mut buffer).unwrap() {
        DnsRecord::UNKNOWN { domain, query_type, data_len, ttl } => {
            assert_eq!((domain.as_str(), query_type, data_len, ttl), ("a", 16, 3, 5));
        }
        other => panic!("unexpected record {:?}", other),
    }
    assert_eq!(buffer.pos(), 16);
}

#[test]
fn record_read_past_the_end_fails() {
    let mut buffer = BytePacketBuffer::new();
    buffer.buf[505..510].copy_from_slice(b"\x01a\x00\x00\x01");
    buffer.seek(505).unwrap();
    assert_eq!(DnsRecord::read(&mut buffer).err(), Some("End of buffer".to_string()));
    assert_eq!(buffer.pos(), 512);
}

fn sample_packet() -> DnsPacket {
    let mut packet = DnsPacket::new();
    packet.header.id = 42;
    packet.header.response = true;
    packet.header.result_code = ResultCode::NOERROR;
    packet.questions.push(DnsQuestion::new("example.com".to_string(), QueryType::A));
    packet.answers.push(DnsRecord::A { domain: "example.com".to_string(), address: 0x5db8d822, ttl: 3600 });
    packet.authorities.push(DnsRecord::NS { domain: "example.com".to_string(), host: "a.iana-servers.net".to_string(), ttl: 100 });
    packet.resources.push(DnsRecord::A { domain: "a.iana-servers.net".to_string(), address: 0xc72b8735, ttl: 100 });
    packet
}

#[test]
fn packet_write_then_from_buffer() {
    let mut packet = sample_packet();
    let mut buffer = BytePacketBuffer::new();
    assert_eq!(packet.write(&mut buffer), Ok(()));
    assert_eq!(packet.header.questions, 1);
    assert_eq!(packet.header.answers, 1);
    assert_eq!(packet.header.authoritative_entries, 1);
    assert_eq!(packet.header.resource_entries, 1);
    let end = buffer.pos();
    buffer.seek(0).unwrap();
    let back = DnsPacket::from_buffer(&mut buffer).unwrap();
    assert_eq!(buffer.pos(), end);
    assert_eq!(back.header.id, 42);
    assert!(back.header.response);
    assert_eq!(back.questions, packet.questions);
    assert_eq!(back.answers.len(), 1);
    assert_eq!(back.authorities.len(), 1);
    assert_eq!(back.resources.len(), 1);
    assert_eq!(back.get_random_a(), Some(0x5db8d822));
    assert_eq!(back.get_unresolved_ns("www.example.com"), Some("a.iana-servers.net"));
    assert_eq!(back.get_resolved_ns("www.example.com"), Some(0xc72b8735));
    assert_eq!(back.get_resolved_ns("example.org"), None);
}

#[test]
fn from_buffer_of_a_short_message_fails() {
    let mut buffer = BytePacketBuffer::new();
    buffer.seek(505).unwrap();
    assert_eq!(DnsPacket::from_buffer(&mut buffer).err(), Some("End of buffer".to_string()));
    assert_eq!(buffer.pos(), 512);
}

#[test]
fn packet_write_too_big_fails() {
    let mut packet = DnsPacket::new();
    for i in 0..40 {
        packet.answers.push(DnsRecord::A { domain: format!("host{}.example.com", i), address: i, ttl: 1 });
    }
    let mut buffer = BytePacketBuffer::new();
    assert_eq!(packet.write(&mut buffer), Err("End of buffer".to_string()));
    assert_eq!(buffer.pos(), 512);
    assert_eq!(packet.header.answers, 40);
}

#[test]
fn question_reach_agrees_with_read() {
    let mut buffer = BytePacketBuffer::new();
    let question = DnsQuestion::new("example.com".to_string(), QueryType::MX);
    assert_eq!(question.write(&mut buffer), Ok(()));
    let end = buffer.pos();
    assert!(matches!(question_reach(&buffer.buf, 0), Reach::To(q) if q == end));
    // A name at 510 ends at 511, where the type cannot be read.
    assert!(matches!(question_reach(&buffer.buf, 510), Reach::Fails));
    buffer.buf[300] = 0xc1;
    buffer.buf[301] = 0xfe;
    buffer.buf[510] = 9;
    assert!(matches!(question_reach(&buffer.buf, 300), Reach::Overruns));
}

#[test]
fn record_reach_agrees_with_read() {
    let mut buffer = BytePacketBuffer::new();
    let record = DnsRecord::NS { domain: "example.com".to_string(), host: "ns.example.com".to_string(), ttl: 7 };
    assert_eq!(record.write(&mut buffer).map(|_| ()), Ok(()));
    let end = buffer.pos();
    assert!(matches!(record_reach(&buffer.buf, 0), Reach::To(q) if q == end));
    buffer.seek(0).unwrap();
    assert!(DnsRecord::read(&mut buffer).is_ok());
    assert_eq!(buffer.pos(), end);
    // An owner name that ends too close to the end of the buffer fails.
    assert!(matches!(record_reach(&buffer.buf, 505), Reach::Fails));
    // A host name whose first label runs past the end overruns.
    let mut buffer = BytePacketBuffer::new();
    buffer.buf[0] = 0;
    buffer.buf[2] = 2; // type NS
    buffer.buf[11] = 0xc1;
    buffer.buf[12] = 0xfe;
    buffer.buf[510] = 5;
    assert!(matches!(record_reach(&buffer.buf, 0), Reach::Overruns));
}

#[test]
fn overruns_is_false_for_a_written_message() {
    let mut packet = sample_packet();
    let mut buffer = BytePacketBuffer::new();
    assert_eq!(packet.write(&mut buffer), Ok(()));
    buffer.seek(0).unwrap();
    assert!(!DnsPacket::overruns(&buffer));
    assert!(DnsPacket::from_buffer(&mut buffer).is_ok());
}

#[test]
fn overruns_finds_a_label_past_the_end() {
    // One question whose name points at 500, where a 63-byte label starts.
    let mut buffer = buffer_with(&[0, 1, 0, 0, 0, 1, 0, 0, 0, 0, 0, 0, 0xc1, 0xf4]);
    buffer.buf[500] = 63;
    assert!(DnsPacket::overruns(&buffer));
    // The same label in the answer section, after a root-name question.
    let mut buffer = buffer_with(&[0, 1, 0, 0, 0, 1, 0, 1, 0, 0, 0, 0, 0, 0, 1, 0, 1, 0xc1, 0xf4]);
    buffer.buf[500] = 63;
    assert!(DnsPacket::overruns(&buffer));
}

#[test]
fn overruns_is_false_where_the_read_fails() {
    let mut buffer = BytePacketBuffer::new();
    buffer.seek(505).unwrap();
    assert!(!DnsPacket::overruns(&buffer));
    // Two hundred answers of eleven zero bytes each: the count runs the read off
    // the end of the buffer.
    let mut buffer = buffer_with(&[0, 1, 0, 0, 0, 0, 0, 200, 0, 0, 0, 0]);
    assert!(!DnsPacket::overruns(&buffer));
    assert!(DnsPacket::from_buffer(&mut buffer).is_err());
}
