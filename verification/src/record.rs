//! The resource-record data model and the message sections.

pub mod header;
pub mod packet;
pub mod question;
pub mod record;

use vstd::prelude::*;

verus! {

/// A DNS message as a whole.
#[derive(Clone, Debug)]
pub struct Packet {
    pub header: Header,  // 12 bytes
    pub question: Vec<Question>,  // variable
    pub answer: Vec<Record>,  // variable
    pub authority: Vec<Record>,  // variable
    pub additional: Vec<Record>,  // variable
}

/// The fixed 12-byte section at the start of every message.
#[derive(Clone, Debug)]
pub struct Header {
    // Packet identifier (16 bits)
    // A random identifier is assigned to query packets. Response packets must reply with the
    // same id. This is needed to differentiate responses due to the stateless nature of UDP.
    pub id: u16,
    // Query response (1 bit)
    // Set to 1 for a query, 0 for a response.
    pub query_response: bool,
    // Operation code (4 bits)
    // Typically always `0` for queries.
    pub op_code: u8,
    // Authoritative answer (1 bit)
    // Set to 1 if the response is authoritative.
    pub aa: bool,
    // Truncated message (1 bit)
    // Set to 1 if the message length exceeds 512 bytes
    pub tc: bool,
    // Recursion Desired (1 bit)
    // Set by the sender if the server should attempt to resolve the query recursively if it
    // does not have an answer readily available.
    pub recursion_desired: bool,
    // Recursion available (1 bit)
    // Set by the server to indicate whether recursive queries are allowed.
    pub recursion_available: bool,
    // Reserved (3 bits)
    pub _z: bool,
    // Response code (4 bits)
    // Set by server to indicate success or failure of the query.
    pub result_code: ResultCode,
    // Number of questions (16 bits)
    pub questions: u16,
    // Number of answer records (16 bits)
    pub answers: u16,
    // Number of authority (NS) records (16 bits)
    pub authoritative_entries: u16,
    // Number of additional records (16 bits)
    pub resource_entries: u16,
}

/// One entry of the question section.
#[derive(Clone, Debug)]
pub struct Question {
    // The domain name, encoded as a sequence of labels, terminated by a null byte.
    name: String,
    // Record Type (2 bytes)
    rtype: u16,
    //  The class of the record (2 bytes)
    // Typically `1` for most cases
    class: u16,
}

/// The fields that every resource record starts with.
#[derive(Clone, Debug)]
pub struct RecordPreamble {
    // The domain name, encoded as a sequence of labels, terminated by a null byte.
    name: String,
    // Record Type (2 bytes)
    rtype: u16,
    // The class of the record (2 bytes)
    // Typically `1` for most cases
    class: u16,
    // Time-To-Live (4 bytes)
    // Defines how long to cache the record for.
    ttl: u32,
    // Length of the data specific to the record type (2 bytes)
    len: u16,
}

/// A resource record: its preamble and its type-specific data.
#[derive(Clone, Debug)]
pub struct Record {
    preamble: RecordPreamble,
    data: RecordData,
}

/// The type-specific data of a resource record.
#[derive(Clone, Debug)]
pub enum RecordData {
    A([u8; 4]),
    AAAA([u8; 16]),
    CNAME(String),
    MX { preference: u16, exchange: String },
    NS(String),
    PTR(String),
    SOA {
        mname: String,
        rname: String,
        serial: u32,
        refresh: u32,
        retry: u32,
        expire: u32,
        minimum: u32,
    },
    SRV { priority: u16, weight: u16, port: u16, target: String },
    TXT(String),
}

/// The response code of a message (RCODE): 0 no error, 1 format error, 2 server
/// failure, 3 name error, 4 not implemented, 5 refused.
#[derive(Copy, Clone, Debug, PartialEq, Eq, Structural)]
pub enum ResultCode {
    NOERROR,
    FORMERR,
    SERVFAIL,
    NXDOMAIN,
    NOTIMP,
    REFUSED,
}

/// The response code that a number stands for; numbers without one mean no error.
pub open spec fn result_code_of(num: int) -> ResultCode {
    if num == 1 {
        ResultCode::FORMERR
    } else if num == 2 {
        ResultCode::SERVFAIL
    } else if num == 3 {
        ResultCode::NXDOMAIN
    } else if num == 4 {
        ResultCode::NOTIMP
    } else if num == 5 {
        ResultCode::REFUSED
    } else {
        ResultCode::NOERROR
    }
}

/// The number of a response code.
pub open spec fn result_code_num(rc: ResultCode) -> u8 {
    match rc {
        ResultCode::NOERROR => 0,
        ResultCode::FORMERR => 1,
        ResultCode::SERVFAIL => 2,
        ResultCode::NXDOMAIN => 3,
        ResultCode::NOTIMP => 4,
        ResultCode::REFUSED => 5,
    }
}

impl ResultCode {
    pub fn from_num(num: u8) -> (res: ResultCode)
        ensures
            res == result_code_of(num as int),
    {
        match num {
            1 => ResultCode::FORMERR,
            2 => ResultCode::SERVFAIL,
            3 => ResultCode::NXDOMAIN,
            4 => ResultCode::NOTIMP,
            5 => ResultCode::REFUSED,
            _ => ResultCode::NOERROR,
        }
    }

    pub fn from_u8(num: u8) -> (res: ResultCode)
        ensures
            res == result_code_of(num as int),
    {
        ResultCode::from_num(num)
    }

    /// The number of this response code, as it stands in the low four bits of a header.
    pub fn to_num(&self) -> (res: u8)
        ensures
            res == result_code_num(*self),
    {
        match self {
            ResultCode::NOERROR => 0,
            ResultCode::FORMERR => 1,
            ResultCode::SERVFAIL => 2,
            ResultCode::NXDOMAIN => 3,
            ResultCode::NOTIMP => 4,
            ResultCode::REFUSED => 5,
        }
    }
}

/// Numbering a response code and reading the number back gives the same code;
/// every number above 5 reads as no error.
pub proof fn law_result_code_num(rc: ResultCode, num: u8)
    ensures
        result_code_of(result_code_num(rc) as int) == rc,
        result_code_num(rc) < 6,
        num > 5 ==> result_code_of(num as int) == ResultCode::NOERROR,
{
}

} // verus!
