use crate::buf::{
    be16, be16_at, be32, bytes_piece, cat, emit, lemma_emit_bytes_cat, lemma_emit_cat,
    lemma_emit_empty, lemma_qname_piece_wf, name_piece, parse_matches, pos_after_overrun,
    qname_read, read_err_of, splice, u16_bytes, u32_bytes, write_result, wrote, BytePacketBuffer,
    Parse, Piece, QnameEnd, Reach, ReadErr, reaches, scan_qname,
};
use crate::record::question::{query_type_of, QueryClass, QueryType};
use vstd::prelude::*;
use vstd::utf8::encode_utf8;

verus! {

pub const TERMINATOR: u8 = 0;

// RDLENGTH (16bit) specifies the length of the resource record in bytes.
// This value is fixed for A or AAAA records, but can be variable for TXT/SRV records
pub const FIXED_RD_LENGTH: u16 = 4;

/// A resource record. An IPv4 address is held as its 32 bits, most significant
/// octet first (as `Ipv4Addr::to_bits` gives it); an IPv6 address as its eight
/// 16-bit segments (as `Ipv6Addr::segments` gives them).
#[derive(Clone, Debug)]
pub enum DnsRecord {
    UNKNOWN { domain: String, query_type: u16, data_len: u16, ttl: u32 },  // 0
    A { domain: String, address: u32, ttl: u32 },
    NS { domain: String, host: String, ttl: u32 },
    CNAME { domain: String, host: String, ttl: u32 },
    MX { domain: String, priority: u16, host: String, ttl: u32 },
    AAAA { domain: String, address: [u16; 8], ttl: u32 },
}

/// A record as plain values.
pub enum RecordView {
    UNKNOWN { domain: Seq<char>, query_type: u16, data_len: u16, ttl: u32 },
    A { domain: Seq<char>, address: u32, ttl: u32 },
    NS { domain: Seq<char>, host: Seq<char>, ttl: u32 },
    CNAME { domain: Seq<char>, host: Seq<char>, ttl: u32 },
    MX { domain: Seq<char>, priority: u16, host: Seq<char>, ttl: u32 },
    AAAA { domain: Seq<char>, address: Seq<u16>, ttl: u32 },
}

impl View for DnsRecord {
    type V = RecordView;

    open spec fn view(&self) -> RecordView {
        match self {
            DnsRecord::UNKNOWN { domain, query_type, data_len, ttl } => RecordView::UNKNOWN {
                domain: domain@,
                query_type: *query_type,
                data_len: *data_len,
                ttl: *ttl,
            },
            DnsRecord::A { domain, address, ttl } => RecordView::A {
                domain: domain@,
                address: *address,
                ttl: *ttl,
            },
            DnsRecord::NS { domain, host, ttl } => RecordView::NS {
                domain: domain@,
                host: host@,
                ttl: *ttl,
            },
            DnsRecord::CNAME { domain, host, ttl } => RecordView::CNAME {
                domain: domain@,
                host: host@,
                ttl: *ttl,
            },
            DnsRecord::MX { domain, priority, host, ttl } => RecordView::MX {
                domain: domain@,
                priority: *priority,
                host: host@,
                ttl: *ttl,
            },
            DnsRecord::AAAA { domain, address, ttl } => RecordView::AAAA {
                domain: domain@,
                address: address@,
                ttl: *ttl,
            },
        }
    }
}

/// The eight big-endian 16-bit segments at offset `p`.
pub open spec fn aaaa_segments(buf: Seq<u8>, p: int) -> Seq<u16> {
    Seq::new(8, |i: int| be16(buf, p + 2 * i) as u16)
}

/// Reading a name at `p` and making a record of it with `make`.
pub open spec fn host_parse(buf: Seq<u8>, p: int, make: spec_fn(Seq<char>) -> RecordView) -> Parse<
    RecordView,
> {
    let h = qname_read(buf, p);
    if h.end is Overrun {
        Parse::Overrun
    } else if !(h.end is Done) {
        Parse::Failed(read_err_of(h.end), h.pos)
    } else {
        Parse::Parsed(make(h.text), h.pos)
    }
}

/// Reading a record at offset `pos` of `buf`: the owner name, then type, class, TTL
/// and data length (ten bytes), then the data. An A record holds a 32-bit address,
/// NS and CNAME a name, MX a 16-bit preference and a name, AAAA sixteen address
/// bytes; for any other type the data is skipped by its length.
pub open spec fn record_read(buf: Seq<u8>, pos: int) -> Parse<RecordView> {
    let w = qname_read(buf, pos);
    if w.end is Overrun {
        Parse::Overrun
    } else if !(w.end is Done) {
        Parse::Failed(read_err_of(w.end), w.pos)
    } else if w.pos + 10 > 512 {
        Parse::Failed(ReadErr::EndOfBuffer, pos_after_overrun(w.pos))
    } else {
        let domain = w.text;
        let raw = be16(buf, w.pos) as u16;
        let ttl = be32(buf, w.pos + 4) as u32;
        let data_len = be16(buf, w.pos + 8) as u16;
        let p = w.pos + 10;
        match query_type_of(raw) {
            QueryType::A => if p + 4 > 512 {
                Parse::Failed(ReadErr::EndOfBuffer, pos_after_overrun(p))
            } else {
                Parse::Parsed(RecordView::A { domain, address: be32(buf, p) as u32, ttl }, p + 4)
            },
            QueryType::NS => host_parse(buf, p, |host: Seq<char>| RecordView::NS { domain, host, ttl }),
            QueryType::CNAME => host_parse(
                buf,
                p,
                |host: Seq<char>| RecordView::CNAME { domain, host, ttl },
            ),
            QueryType::MX => if p + 2 > 512 {
                Parse::Failed(ReadErr::EndOfBuffer, pos_after_overrun(p))
            } else {
                let priority = be16(buf, p) as u16;
                host_parse(
                    buf,
                    p + 2,
                    |host: Seq<char>| RecordView::MX { domain, priority, host, ttl },
                )
            },
            QueryType::AAAA => if p + 16 > 512 {
                Parse::Failed(ReadErr::EndOfBuffer, pos_after_overrun(p))
            } else {
                Parse::Parsed(
                    RecordView::AAAA { domain, address: aaaa_segments(buf, p), ttl },
                    p + 16,
                )
            },
            QueryType::UNKNOWN(_) => Parse::Parsed(
                RecordView::UNKNOWN { domain, query_type: raw, data_len, ttl },
                p + data_len,
            ),
        }
    }
}

/// How far reading a name at `p` gets.
fn name_reach(buf: &[u8; 512], p: usize) -> (res: Reach)
    ensures
        ({
            let h = qname_read(buf@, p as int);
            &&& h.end is Done ==> (res matches Reach::To(q) && q == h.pos)
            &&& h.end is Overrun ==> res is Overruns
            &&& !(h.end is Done) && !(h.end is Overrun) ==> res is Fails
        }),
{
    let (end, q) = scan_qname(buf, p);
    match end {
        QnameEnd::Done => Reach::To(q),
        QnameEnd::Overrun => Reach::Overruns,
        _ => Reach::Fails,
    }
}

/// How far reading a record at `pos` gets; it tells in particular whether
/// `DnsRecord::read` may be called there.
pub fn record_reach(buf: &[u8; 512], pos: usize) -> (res: Reach)
    ensures
        reaches(res, record_read(buf@, pos as int)),
{
    let (end, w) = scan_qname(buf, pos);
    match end {
        QnameEnd::Done => {},
        QnameEnd::Overrun => {
            return Reach::Overruns;
        },
        _ => {
            return Reach::Fails;
        },
    }
    if w > 502 {
        return Reach::Fails;
    }
    let raw = be16_at(buf, w);
    let data_len = be16_at(buf, w + 8);
    let p = w + 10;
    match QueryType::from_u16(raw) {
        QueryType::A => if p > 508 {
            Reach::Fails
        } else {
            Reach::To(p + 4)
        },
        QueryType::NS => name_reach(buf, p),
        QueryType::CNAME => name_reach(buf, p),
        QueryType::MX => if p > 510 {
            Reach::Fails
        } else {
            name_reach(buf, p + 2)
        },
        QueryType::AAAA => if p > 496 {
            Reach::Fails
        } else {
            Reach::To(p + 16)
        },
        QueryType::UNKNOWN(_) => Reach::To(p + data_len as usize),
    }
}

/// The bytes of 16-bit values, each most significant first.
pub open spec fn segments_bytes(s: Seq<u16>) -> Seq<u8>
    decreases s.len(),
{
    if s.len() == 0 {
        Seq::empty()
    } else {
        segments_bytes(s.drop_last()) + u16_bytes(s.last())
    }
}

/// The bytes of a sequence of values are those of its first value, then the rest.
pub proof fn lemma_segments_bytes_front(s: Seq<u16>)
    requires
        s.len() > 0,
    ensures
        segments_bytes(s) == u16_bytes(s[0]) + segments_bytes(s.drop_first()),
        segments_bytes(s).len() == 2 * s.len(),
    decreases s.len(),
{
    if s.len() == 1 {
        assert(s.drop_last() =~= Seq::<u16>::empty());
        assert(s.drop_first() =~= Seq::<u16>::empty());
        assert(segments_bytes(s) =~= u16_bytes(s[0]) + segments_bytes(s.drop_first()));
    } else {
        lemma_segments_bytes_front(s.drop_last());
        assert(s.drop_last().drop_first() =~= s.drop_first().drop_last());
        assert(s.drop_first().last() == s.last());
        assert(s.drop_last()[0] == s[0]);
        assert(segments_bytes(s) =~= u16_bytes(s[0]) + segments_bytes(s.drop_first()));
    }
}

/// An NS record on the wire: owner name, type 2, class 1, TTL, the length of the
/// host name's encoding, and the host name. The length is filled in once the host
/// name is written, so a record cut short by the end of the buffer holds zero there.
pub open spec fn ns_piece(domain: Seq<char>, host: Seq<char>, ttl: u32) -> Piece {
    let head = name_piece(domain);
    let fixed = u16_bytes(2) + u16_bytes(1) + u32_bytes(ttl);
    let h = name_piece(host);
    if !head.complete {
        head
    } else if !h.complete {
        Piece { full: head.full + fixed + u16_bytes(0) + h.full, raw: head.full + fixed + u16_bytes(0) + h.full, complete: false }
    } else {
        Piece {
            full: head.full + fixed + u16_bytes(h.full.len() as u16) + h.full,
            raw: head.full + fixed + u16_bytes(0) + h.full,
            complete: true,
        }
    }
}

/// Until the length field is filled in, an NS record is written as its parts in
/// order with zero in the length field: when that write fails, the record's write
/// fails the same way.
proof fn lemma_ns_unpatched(buf: Seq<u8>, pos: int, domain: Seq<char>, host: Seq<char>, ttl: u32)
    ensures
        ({
            let fixed = u16_bytes(2) + u16_bytes(1) + u32_bytes(ttl);
            let u = cat(name_piece(domain), cat(bytes_piece(fixed + u16_bytes(0)), name_piece(host)));
            &&& emit(buf, pos, u).err is Some ==> emit(buf, pos, ns_piece(domain, host, ttl)) == emit(buf, pos, u)
            &&& u.full.len() == ns_piece(domain, host, ttl).full.len()
        }),
{
    let fixed = u16_bytes(2) + u16_bytes(1) + u32_bytes(ttl);
    let head = name_piece(domain);
    let h = name_piece(host);
    let u = cat(head, cat(bytes_piece(fixed + u16_bytes(0)), h));
    let ns = ns_piece(domain, host, ttl);
    lemma_qname_piece_wf(encode_utf8(domain));
    lemma_qname_piece_wf(encode_utf8(host));
    if head.complete {
        assert(u.full =~= head.full + fixed + u16_bytes(0) + h.full);
        assert(u.raw =~= u.full);
        assert(ns.raw =~= u.full);
        if !h.complete {
            assert(ns == u);
        }
    }
}

/// A record on the wire. A, NS and AAAA records are written in full; CNAME, MX
/// and records of unknown type are skipped and write nothing.
pub open spec fn record_piece(r: RecordView) -> Piece {
    match r {
        RecordView::A { domain, address, ttl } => cat(
            name_piece(domain),
            bytes_piece(
                u16_bytes(1) + u16_bytes(1) + u32_bytes(ttl) + u16_bytes(4) + u32_bytes(address),
            ),
        ),
        RecordView::NS { domain, host, ttl } => ns_piece(domain, host, ttl),
        RecordView::AAAA { domain, address, ttl } => cat(
            name_piece(domain),
            bytes_piece(
                u16_bytes(28) + u16_bytes(1) + u32_bytes(ttl) + u16_bytes(16) + segments_bytes(
                    address,
                ),
            ),
        ),
        _ => bytes_piece(Seq::empty()),
    }
}

/// The plain value of a record.
pub open spec fn record_view(r: DnsRecord) -> RecordView {
    r@
}

impl DnsRecord {
    /// Reads a record at the buffer's position. Records with a name whose label runs
    /// past the end of the buffer are outside its domain, as for
    /// `BytePacketBuffer::read_qname`; `record_reach` tells beforehand whether the
    /// record at a position is one.
    pub fn read(buffer: &mut BytePacketBuffer) -> (res: Result<DnsRecord, String>)
        requires
            !(record_read(old(buffer).buf@, old(buffer).pos as int) is Overrun),
        ensures
            final(buffer).buf == old(buffer).buf,
            parse_matches(
                res,
                final(buffer).pos as int,
                record_read(old(buffer).buf@, old(buffer).pos as int),
                |r: DnsRecord| record_view(r),
            ),
    {
        let ghost b = old(buffer).buf@;
        let mut domain = String::new();
        buffer.read_qname(&mut domain)?;

        let query_type_raw: u16 = buffer.read_u16()?;
        let query_type: QueryType = QueryType::from_u16(query_type_raw);
        let _ = buffer.read_u16()?;  // CLASS
        let ttl: u32 = buffer.read_u32()?;
        let data_len = buffer.read_u16()?;

        match query_type {
            QueryType::A => {
                let raw_addr = buffer.read_u32()?;
                Ok(DnsRecord::A { domain, address: raw_addr, ttl })
            },
            QueryType::NS => {
                // Value reuses the same label semantics as `qname`
                let mut ns = String::new();
                buffer.read_qname(&mut ns)?;
                Ok(DnsRecord::NS { domain, host: ns, ttl })
            },
            QueryType::CNAME => {
                let mut cname = String::new();
                buffer.read_qname(&mut cname)?;
                Ok(DnsRecord::CNAME { domain, host: cname, ttl })
            },
            QueryType::MX => {
                let priority: u16 = buffer.read_u16()?;
                let mut mx = String::new();
                buffer.read_qname(&mut mx)?;
                Ok(DnsRecord::MX { domain, priority, host: mx, ttl })
            },
            QueryType::AAAA => {
                let ghost p = buffer.pos as int;
                let raw_addr1 = buffer.read_u32()?;
                let raw_addr2 = buffer.read_u32()?;
                let raw_addr3 = buffer.read_u32()?;
                let raw_addr4 = buffer.read_u32()?;
                let address = [
                    ((raw_addr1 >> 16) & 0xFFFF) as u16,
                    ((raw_addr1 >> 0) & 0xFFFF) as u16,
                    ((raw_addr2 >> 16) & 0xFFFF) as u16,
                    ((raw_addr2 >> 0) & 0xFFFF) as u16,
                    ((raw_addr3 >> 16) & 0xFFFF) as u16,
                    ((raw_addr3 >> 0) & 0xFFFF) as u16,
                    ((raw_addr4 >> 16) & 0xFFFF) as u16,
                    ((raw_addr4 >> 0) & 0xFFFF) as u16,
                ];
                proof {
                    assert forall|x: u32|
                        #![trigger (x >> 16u32)]
                        ((x >> 16u32) & 0xFFFFu32) as u16 == x / 65536 && ((x >> 0u32)
                            & 0xFFFFu32) as u16 == x % 65536 by {
                        assert(((x >> 16u32) & 0xFFFFu32) as u16 == x / 65536 && ((x >> 0u32)
                            & 0xFFFFu32) as u16 == x % 65536) by (bit_vector);
                    }
                    assert(address@ =~= aaaa_segments(b, p));
                }
                Ok(DnsRecord::AAAA { domain, address, ttl })
            },
            QueryType::UNKNOWN(_) => {
                let _ = buffer.step(data_len as usize);  // never fails
                Ok(DnsRecord::UNKNOWN { domain, query_type: query_type_raw, data_len, ttl })
            },
        }
    }

    /// Writes the record at the buffer's position and returns how many bytes it took.
    pub fn write(&self, buffer: &mut BytePacketBuffer) -> (res: Result<usize, String>)
        ensures
            wrote(old(buffer), final(buffer), record_piece(self@)),
            write_result(res, emit(old(buffer).buf@, old(buffer).pos as int, record_piece(self@))),
            res matches Ok(n) ==> n == record_piece(self@).full.len(),
    {
        let start_pos = buffer.pos();

        match self {
            DnsRecord::A { domain, address, ttl } => {
                write_a(buffer, domain, *address, *ttl)?;
            },
            DnsRecord::NS { domain, host, ttl } => {
                write_ns(buffer, domain, host, *ttl)?;
            },
            DnsRecord::AAAA { domain, address, ttl } => {
                write_aaaa(buffer, domain, address, *ttl)?;
            },
            _ => {
                // Records of other types are not written.
                proof {
                    lemma_emit_empty(old(buffer).buf@, old(buffer).pos as int);
                }
            },
        }

        Ok(buffer.pos() - start_pos)
    }
}

fn write_a(buffer: &mut BytePacketBuffer, domain: &String, address: u32, ttl: u32) -> (res: Result<(), String>)
    ensures
        wrote(old(buffer), final(buffer), record_piece(RecordView::A { domain: domain@, address, ttl })),
        write_result(res, emit(old(buffer).buf@, old(buffer).pos as int, record_piece(RecordView::A { domain: domain@, address, ttl }))),
{
    let ghost b0 = old(buffer).buf@;
    let ghost p0 = old(buffer).pos as int;
    let ghost x1 = u16_bytes(1);
    let ghost x2 = x1 + u16_bytes(1);
    let ghost x3 = x2 + u32_bytes(ttl);
    let ghost x4 = x3 + u16_bytes(4);
    let ghost x5 = x4 + u32_bytes(address);
    proof {
        lemma_qname_piece_wf(encode_utf8(domain@));
        lemma_emit_cat(b0, p0, name_piece(domain@), bytes_piece(x5));
    }
    buffer.write_qname(domain.as_str())?;  // Domain labels
    proof {
        lemma_emit_bytes_cat(buffer.buf@, buffer.pos as int, x4, u32_bytes(address));
        lemma_emit_bytes_cat(buffer.buf@, buffer.pos as int, x3, u16_bytes(4));
        lemma_emit_bytes_cat(buffer.buf@, buffer.pos as int, x2, u32_bytes(ttl));
        lemma_emit_bytes_cat(buffer.buf@, buffer.pos as int, x1, u16_bytes(1));
    }
    buffer.write_u16(QueryType::A.to_u16())?;  // Record type
    buffer.write_u16(QueryClass::IN.to_u16())?;
    buffer.write_u32(ttl)?;
    buffer.write_u16(FIXED_RD_LENGTH)?;
    buffer.write_u32(address)?;
    Ok(())
}

fn write_ns(buffer: &mut BytePacketBuffer, domain: &String, host: &String, ttl: u32) -> (res: Result<(), String>)
    ensures
        wrote(old(buffer), final(buffer), ns_piece(domain@, host@, ttl)),
        write_result(res, emit(old(buffer).buf@, old(buffer).pos as int, ns_piece(domain@, host@, ttl))),
{
    let ghost b0 = old(buffer).buf@;
    let ghost p0 = old(buffer).pos as int;
    let ghost fixed = u16_bytes(2) + u16_bytes(1) + u32_bytes(ttl);
    let ghost head = name_piece(domain@);
    let ghost h = name_piece(host@);
    let ghost mid = bytes_piece(fixed + u16_bytes(0));
    proof {
        lemma_qname_piece_wf(encode_utf8(domain@));
        lemma_qname_piece_wf(encode_utf8(host@));
        lemma_emit_cat(b0, p0, head, cat(mid, h));
        lemma_ns_unpatched(b0, p0, domain@, host@, ttl);
    }
    buffer.write_qname(domain.as_str())?;
    proof {
        lemma_emit_cat(buffer.buf@, buffer.pos as int, mid, h);
        lemma_emit_bytes_cat(buffer.buf@, buffer.pos as int, fixed, u16_bytes(0));
        lemma_emit_bytes_cat(buffer.buf@, buffer.pos as int, u16_bytes(2) + u16_bytes(1), u32_bytes(ttl));
        lemma_emit_bytes_cat(buffer.buf@, buffer.pos as int, u16_bytes(2), u16_bytes(1));
    }
    buffer.write_u16(QueryType::NS.to_u16())?;
    buffer.write_u16(QueryClass::IN.to_u16())?;
    buffer.write_u32(ttl)?;

    // We will need this to set the data length a few lines below
    let pos = buffer.pos();
    buffer.write_u16(TERMINATOR as u16)?;

    buffer.write_qname(host.as_str())?;

    // The length of the host name: everything written after the length field
    let size = buffer.pos() - (pos + 2);
    buffer.set_u16(pos, size as u16)?;
    proof {
        assert(cat(head, cat(mid, h)).full =~= head.full + fixed + u16_bytes(0) + h.full);
        assert(size == h.full.len());
        assert(buffer.buf@ =~= splice(b0, p0, head.full + fixed + u16_bytes(h.full.len() as u16) + h.full));
    }
    Ok(())
}

fn write_aaaa(buffer: &mut BytePacketBuffer, domain: &String, address: &[u16; 8], ttl: u32) -> (res: Result<(), String>)
    ensures
        wrote(old(buffer), final(buffer), record_piece(RecordView::AAAA { domain: domain@, address: address@, ttl })),
        write_result(res, emit(old(buffer).buf@, old(buffer).pos as int, record_piece(RecordView::AAAA { domain: domain@, address: address@, ttl }))),
{
    let ghost b0 = old(buffer).buf@;
    let ghost p0 = old(buffer).pos as int;
    let ghost target = emit(b0, p0, record_piece(RecordView::AAAA { domain: domain@, address: address@, ttl }));
    let ghost x1 = u16_bytes(28);
    let ghost x2 = x1 + u16_bytes(1);
    let ghost x3 = x2 + u32_bytes(ttl);
    let ghost x4 = x3 + u16_bytes(16);
    proof {
        lemma_qname_piece_wf(encode_utf8(domain@));
        lemma_emit_cat(b0, p0, name_piece(domain@), bytes_piece(x4 + segments_bytes(address@)));
    }
    buffer.write_qname(domain.as_str())?;
    proof {
        lemma_emit_bytes_cat(buffer.buf@, buffer.pos as int, x4, segments_bytes(address@));
        lemma_emit_bytes_cat(buffer.buf@, buffer.pos as int, x3, u16_bytes(16));
        lemma_emit_bytes_cat(buffer.buf@, buffer.pos as int, x2, u32_bytes(ttl));
        lemma_emit_bytes_cat(buffer.buf@, buffer.pos as int, x1, u16_bytes(1));
    }
    buffer.write_u16(QueryType::AAAA.to_u16())?;
    buffer.write_u16(QueryClass::IN.to_u16())?;
    buffer.write_u32(ttl)?;
    buffer.write_u16(16)?;  // length

    proof {
        assert(address@.skip(0) =~= address@);
    }
    let mut i: usize = 0;
    while i < 8
        invariant
            i <= 8,
            address@.len() == 8,
            b0 == old(buffer).buf@,
            p0 == old(buffer).pos as int,
            target == emit(b0, p0, record_piece(RecordView::AAAA { domain: domain@, address: address@, ttl })),
            emit(buffer.buf@, buffer.pos as int, bytes_piece(segments_bytes(address@.skip(i as int))))
                == target,
        decreases 8 - i,
    {
        proof {
            lemma_segments_bytes_front(address@.skip(i as int));
            assert(address@.skip(i as int).drop_first() =~= address@.skip(i + 1));
            lemma_emit_bytes_cat(buffer.buf@, buffer.pos as int, u16_bytes(address@[i as int]), segments_bytes(address@.skip(i + 1)));
        }
        buffer.write_u16(address[i])?;
        i += 1;
    }
    proof {
        assert(address@.skip(8) =~= Seq::<u16>::empty());
        lemma_emit_empty(buffer.buf@, buffer.pos as int);
    }
    Ok(())
}

} // verus!
