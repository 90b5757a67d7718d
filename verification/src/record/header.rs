use crate::buf::{
    be16, bytes_piece, emit, lemma_bytes_step, lemma_emit_empty, end_of_buffer_msg, err_is, pos_after_overrun, room, u16_bytes,
    write_result, wrote, BytePacketBuffer,
};
use crate::record::{result_code_num, result_code_of, ResultCode};
use vstd::prelude::*;

verus! {

/// The 12-byte header of a DNS message.
#[derive(Clone, Debug)]
pub struct DnsHeader {
    // Packet identifier (16 bits)
    // A random identifier is assigned to query packets. Response packets must reply with the
    // same id. This is needed to differentiate responses due to the stateless nature of UDP.
    pub id: u16,
    // Query response (1 bit)
    // Set to 1 for a query, 0 for a response.
    pub response: bool,
    // Operation code (4 bits)
    // Typically always `0` for queries.
    pub op_code: u8,
    // Authoritative answer (1 bit)
    // Set to 1 if the response is authoritative.
    pub authoritative_answer: bool,
    // Truncated message (1 bit)
    // Set to 1 if the message length exceeds 512 bytes
    pub truncated_message: bool,
    // Recursion Desired (1 bit)
    // Set by the sender if the server should attempt to resolve the query recursively if it
    // does not have an answer readily available.
    pub recursion_desired: bool,
    // Recursion available (1 bit)
    // Set by the server to indicate whether recursive queries are allowed.
    pub recursion_available: bool,
    // Reserved (3 bits)
    pub _z: bool,
    // Checking disabled (1 bit, one of the reserved bits)
    pub checking_disabled: bool,
    // Response code (4 bits)
    // Set by server to indicate success or failure of the query.
    pub result_code: ResultCode,
    // Number of questions (16 bits)
    pub questions: u16,
    // Number of answer records (16 bits)
    pub answers: u16,
    // Number of authority (NS) records (16 bits)
    pub authoritative_entries: u16,
    // Number of additional records (16 bits)
    pub resource_entries: u16,
}

/// The header with every field cleared.
pub open spec fn empty_header() -> DnsHeader {
    DnsHeader {
        id: 0,
        response: false,
        op_code: 0,
        authoritative_answer: false,
        truncated_message: false,
        recursion_desired: false,
        recursion_available: false,
        _z: false,
        checking_disabled: false,
        result_code: ResultCode::NOERROR,
        questions: 0,
        answers: 0,
        authoritative_entries: 0,
        resource_entries: 0,
    }
}

/// Bit `i` of `v` is set.
pub open spec fn bit(v: u8, i: int) -> bool {
    (v as int / pow2_of(i)) % 2 == 1
}

/// Two to the power `i`, for the bit positions of a byte.
pub open spec fn pow2_of(i: int) -> int {
    if i == 0 {
        1
    } else if i == 1 {
        2
    } else if i == 2 {
        4
    } else if i == 3 {
        8
    } else if i == 4 {
        16
    } else if i == 5 {
        32
    } else if i == 6 {
        64
    } else {
        128
    }
}

/// The header with its flag fields taken from the two flag bytes: in the first,
/// bit 0 recursion desired, bit 1 truncated, bit 2 authoritative, bits 3-6 the
/// operation code and bit 7 response; in the second, bits 0-3 the response code,
/// bit 4 checking disabled and bit 7 recursion available. The reserved bits are
/// not read.
pub open spec fn decode_flags(h: DnsHeader, a: u8, b: u8) -> DnsHeader {
    DnsHeader {
        recursion_desired: bit(a, 0),
        truncated_message: bit(a, 1),
        authoritative_answer: bit(a, 2),
        op_code: ((a as int / 8) % 16) as u8,
        response: bit(a, 7),
        result_code: result_code_of(b as int % 16),
        checking_disabled: bit(b, 4),
        recursion_available: bit(b, 7),
        ..h
    }
}

/// The header after reading from offset `pos` of `buf`: six big-endian 16-bit words
/// (id, flags, and the four section counts), each taken only when the whole word
/// lies inside the buffer, in that order.
pub open spec fn header_after_read(h: DnsHeader, buf: Seq<u8>, pos: int) -> DnsHeader {
    let n = room(pos) / 2;
    let f = decode_flags(h, buf[pos + 2], buf[pos + 3]);
    DnsHeader {
        id: if n >= 1 { be16(buf, pos) as u16 } else { h.id },
        recursion_desired: if n >= 2 { f.recursion_desired } else { h.recursion_desired },
        truncated_message: if n >= 2 { f.truncated_message } else { h.truncated_message },
        authoritative_answer: if n >= 2 { f.authoritative_answer } else { h.authoritative_answer },
        op_code: if n >= 2 { f.op_code } else { h.op_code },
        response: if n >= 2 { f.response } else { h.response },
        result_code: if n >= 2 { f.result_code } else { h.result_code },
        checking_disabled: if n >= 2 { f.checking_disabled } else { h.checking_disabled },
        _z: h._z,
        recursion_available: if n >= 2 { f.recursion_available } else { h.recursion_available },
        questions: if n >= 3 { be16(buf, pos + 4) as u16 } else { h.questions },
        answers: if n >= 4 { be16(buf, pos + 6) as u16 } else { h.answers },
        authoritative_entries: if n >= 5 { be16(buf, pos + 8) as u16 } else { h.authoritative_entries },
        resource_entries: if n >= 6 { be16(buf, pos + 10) as u16 } else { h.resource_entries },
    }
}

/// 1 for a set flag, 0 otherwise.
pub open spec fn flag(b: bool) -> u8 {
    if b {
        1
    } else {
        0
    }
}

/// The first flag byte of a header, laid out as `decode_flags` reads it.
pub open spec fn flags_hi(h: DnsHeader) -> u8 {
    (flag(h.recursion_desired) | (flag(h.truncated_message) << 1u8) | (flag(h.authoritative_answer)
        << 2u8) | (h.op_code << 3u8) | (flag(h.response) << 7u8)) as u8
}

/// The second flag byte of a header, laid out as `decode_flags` reads it.
pub open spec fn flags_lo(h: DnsHeader) -> u8 {
    (result_code_num(h.result_code) | (flag(h.checking_disabled) << 4u8) | (flag(h._z) << 6u8) | (
    flag(h.recursion_available) << 7u8)) as u8
}

/// The 12 bytes of a header on the wire.
pub open spec fn header_bytes(h: DnsHeader) -> Seq<u8> {
    u16_bytes(h.id) + seq![flags_hi(h), flags_lo(h)] + u16_bytes(h.questions) + u16_bytes(h.answers)
        + u16_bytes(h.authoritative_entries) + u16_bytes(h.resource_entries)
}

impl DnsHeader {
    pub fn new() -> (res: DnsHeader)
        ensures
            res == empty_header(),
    {
        DnsHeader {
            id: 0,
            response: false,
            op_code: 0,
            authoritative_answer: false,
            truncated_message: false,
            recursion_desired: false,
            recursion_available: false,
            _z: false,
            checking_disabled: false,
            result_code: ResultCode::NOERROR,
            questions: 0,
            answers: 0,
            authoritative_entries: 0,
            resource_entries: 0,
        }
    }

    /// Reads the header at the buffer's position. On success the position moves
    /// 12 bytes on; on failure every word read before the end of the buffer has
    /// already been stored and the position stands at the end of the buffer.
    #[verifier::rlimit(60)]
    #[verifier::spinoff_prover]
    pub fn read(&mut self, buffer: &mut BytePacketBuffer) -> (res: Result<(), String>)
        ensures
            *final(self) == header_after_read(*old(self), old(buffer).buf@, old(buffer).pos as int),
            final(buffer).buf == old(buffer).buf,
            old(buffer).pos + 12 <= 512 ==> res is Ok && final(buffer).pos == old(buffer).pos + 12,
            old(buffer).pos + 12 > 512 ==> err_is(res, end_of_buffer_msg()) && final(buffer).pos
                == pos_after_overrun(old(buffer).pos as int),
    {
        let ghost buf = old(buffer).buf@;
        let ghost p = old(buffer).pos as int;
        // ID will be the first 2 bytes of the packet
        self.id = buffer.read_u16()?;

        // Next two bytes are boolean flags
        let flags = buffer.read_u16()?;

        // Split the 16-bit flags into 8-bit fields
        let a = (flags >> 8) as u8;
        let b = (flags & 0xFF) as u8;
        assert(a == flags / 256 && b == flags % 256) by (bit_vector)
            requires
                a == (flags >> 8) as u8,
                b == (flags & 0xFF) as u8,
        ;

        /*
           bit:   7   6 5 4 3   2   1   0
                  QR  Opcode    AA  TC  RD
        */
        self.recursion_desired = (a & (1 << 0)) > 0;
        self.truncated_message = (a & (1 << 1)) > 0;
        self.authoritative_answer = (a & (1 << 2)) > 0;
        // Bits 3 to 6 hold the opcode: shift them down and mask off the lowest 4 bits.
        self.op_code = (a >> 3) & 0x0F;
        // Bit 7: query or response
        self.response = (a & (1 << 7)) > 0;
        assert(((a & (1u8 << 0u8)) > 0) == (a % 2 == 1) && ((a & (1u8 << 1u8)) > 0) == ((a / 2)
            % 2 == 1) && ((a & (1u8 << 2u8)) > 0) == ((a / 4) % 2 == 1) && ((a & (1u8 << 7u8)) > 0)
            == ((a / 128) % 2 == 1) && (a >> 3u8) & 0x0Fu8 == (a / 8) % 16) by (bit_vector);

        /*
           bit:   7   6   5   4   3 2 1 0
                  RA  Z   AD  CD  RCODE
        */
        self.result_code = ResultCode::from_u8(b & 0x0F);
        self.checking_disabled = (b & (1 << 4)) > 0;
        self.recursion_available = (b & (1 << 7)) > 0;
        assert((b & 0x0Fu8) == b % 16 && ((b & (1u8 << 4u8)) > 0) == ((b / 16) % 2 == 1) && ((b & (
        1u8 << 7u8)) > 0) == ((b / 128) % 2 == 1)) by (bit_vector);

        self.questions = buffer.read_u16()?;
        self.answers = buffer.read_u16()?;
        self.authoritative_entries = buffer.read_u16()?;
        self.resource_entries = buffer.read_u16()?;

        Ok(())
    }

    /// Writes the 12 header bytes at the buffer's position.
    #[verifier::rlimit(40)]
    #[verifier::spinoff_prover]
    pub fn write(&self, buffer: &mut BytePacketBuffer) -> (res: Result<(), String>)
        ensures
            wrote(old(buffer), final(buffer), bytes_piece(header_bytes(*self))),
            write_result(res, emit(old(buffer).buf@, old(buffer).pos as int, bytes_piece(header_bytes(*self)))),
    {
        let ghost b0 = old(buffer).buf@;
        let ghost p0 = old(buffer).pos as int;
        let ghost whole = header_bytes(*self);
        let ghost d1 = u16_bytes(self.id);
        let hi = (self.recursion_desired as u8) | ((self.truncated_message as u8) << 1) | ((
        self.authoritative_answer as u8) << 2) | (self.op_code << 3) | ((self.response as u8) << 7);
        let lo = self.result_code.to_num() | ((self.checking_disabled as u8) << 4) | ((self._z as u8)
            << 6) | ((self.recursion_available as u8) << 7);
        assert(hi == flags_hi(*self));
        assert(lo == flags_lo(*self));
        let ghost d2 = d1 + seq![hi];
        let ghost d3 = d2 + seq![lo];
        let ghost d4 = d3 + u16_bytes(self.questions);
        let ghost d5 = d4 + u16_bytes(self.answers);
        let ghost d6 = d5 + u16_bytes(self.authoritative_entries);
        proof {
            lemma_emit_empty(b0, p0);
            assert(whole =~= d6 + u16_bytes(self.resource_entries));
            lemma_bytes_step(b0, p0, Seq::empty(), d1, whole.skip(2));
            assert(Seq::<u8>::empty() + d1 =~= d1);
            assert(d1 + whole.skip(2) =~= whole);
        }
        buffer.write_u16(self.id)?;
        proof {
            lemma_bytes_step(b0, p0, d1, seq![hi], whole.skip(3));
            assert(d2 + whole.skip(3) =~= whole);
        }
        buffer.write_u8(hi)?;
        proof {
            lemma_bytes_step(b0, p0, d2, seq![lo], whole.skip(4));
            assert(d3 + whole.skip(4) =~= whole);
        }
        buffer.write_u8(lo)?;
        proof {
            lemma_bytes_step(b0, p0, d3, u16_bytes(self.questions), whole.skip(6));
            assert(d4 + whole.skip(6) =~= whole);
        }
        buffer.write_u16(self.questions)?;
        proof {
            lemma_bytes_step(b0, p0, d4, u16_bytes(self.answers), whole.skip(8));
            assert(d5 + whole.skip(8) =~= whole);
        }
        buffer.write_u16(self.answers)?;
        proof {
            lemma_bytes_step(b0, p0, d5, u16_bytes(self.authoritative_entries), whole.skip(10));
            assert(d6 + whole.skip(10) =~= whole);
        }
        buffer.write_u16(self.authoritative_entries)?;
        proof {
            lemma_bytes_step(b0, p0, d6, u16_bytes(self.resource_entries), Seq::empty());
            assert(whole + Seq::<u8>::empty() =~= whole);
        }
        buffer.write_u16(self.resource_entries)?;
        Ok(())
    }
}

impl Default for DnsHeader {
    fn default() -> (res: DnsHeader)
        ensures
            res == empty_header(),
    {
        DnsHeader::new()
    }
}

} // verus!
