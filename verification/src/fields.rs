//! The enumerated header and record fields: response codes, record types and
//! record classes, with their numeric wire tags.
//!
//! The wire carries each enum as its numeric tag; a tag outside the
//! enumerated range is rejected with `InvalidEnumValue` instead of crashing.

use vstd::prelude::*;
use crate::err::DnsError;

verus! {

/// The 4-bit RCODE field of a header. Only values 0 through 5 are valid.
#[derive(Clone, Copy, Debug, PartialEq, Eq, Structural)]
pub enum ResponseCode {
    NoError,
    FormatError,
    ServerFailure,
    NameError,
    NotImplemented,
    Refused,
}

impl ResponseCode {
    /// The numeric tag this code encodes to.
    pub open spec fn value(self) -> u8 {
        match self {
            ResponseCode::NoError => 0,
            ResponseCode::FormatError => 1,
            ResponseCode::ServerFailure => 2,
            ResponseCode::NameError => 3,
            ResponseCode::NotImplemented => 4,
            ResponseCode::Refused => 5,
        }
    }

    /// The code a numeric tag decodes to; meaningful only for tags 0..=5.
    pub open spec fn spec_from(v: u8) -> ResponseCode
        recommends
            v <= 5,
    {
        if v == 0 {
            ResponseCode::NoError
        } else if v == 1 {
            ResponseCode::FormatError
        } else if v == 2 {
            ResponseCode::ServerFailure
        } else if v == 3 {
            ResponseCode::NameError
        } else if v == 4 {
            ResponseCode::NotImplemented
        } else {
            ResponseCode::Refused
        }
    }

    pub fn to_u8(self) -> (r: u8)
        ensures
            r == self.value(),
            r <= 5,
    {
        match self {
            ResponseCode::NoError => 0,
            ResponseCode::FormatError => 1,
            ResponseCode::ServerFailure => 2,
            ResponseCode::NameError => 3,
            ResponseCode::NotImplemented => 4,
            ResponseCode::Refused => 5,
        }
    }

    /// Fallible decoding of a numeric tag; tags above 5 are invalid.
    pub fn from_u8(v: u8) -> (r: Result<ResponseCode, DnsError>)
        ensures
            v <= 5 ==> r == Ok::<ResponseCode, DnsError>(ResponseCode::spec_from(v)),
            v > 5 ==> r == Err::<ResponseCode, DnsError>(DnsError::InvalidEnumValue),
    {
        match v {
            0 => Ok(ResponseCode::NoError),
            1 => Ok(ResponseCode::FormatError),
            2 => Ok(ResponseCode::ServerFailure),
            3 => Ok(ResponseCode::NameError),
            4 => Ok(ResponseCode::NotImplemented),
            5 => Ok(ResponseCode::Refused),
            _ => Err(DnsError::InvalidEnumValue),
        }
    }
}

/// Every response code survives the trip to its tag and back.
pub proof fn lemma_rcode_round_trip(rc: ResponseCode)
    ensures
        ResponseCode::spec_from(rc.value()) == rc,
{
}

/// The TYPE field of a question or answer. Only values 1 through 16 are valid.
#[derive(Clone, Copy, Debug, PartialEq, Eq, Structural)]
pub enum RecordType {
    A,
    NS,
    MD,
    MF,
    CNAME,
    SOA,
    MB,
    MG,
    MR,
    NULL,
    WKS,
    PTR,
    HINFO,
    MINFO,
    MX,
    TXT,
}

impl RecordType {
    /// The numeric tag this type encodes to.
    pub open spec fn value(self) -> u16 {
        match self {
            RecordType::A => 1,
            RecordType::NS => 2,
            RecordType::MD => 3,
            RecordType::MF => 4,
            RecordType::CNAME => 5,
            RecordType::SOA => 6,
            RecordType::MB => 7,
            RecordType::MG => 8,
            RecordType::MR => 9,
            RecordType::NULL => 10,
            RecordType::WKS => 11,
            RecordType::PTR => 12,
            RecordType::HINFO => 13,
            RecordType::MINFO => 14,
            RecordType::MX => 15,
            RecordType::TXT => 16,
        }
    }

    /// The type a numeric tag decodes to; meaningful only for tags 1..=16.
    pub open spec fn spec_from(v: u16) -> RecordType
        recommends
            1 <= v <= 16,
    {
        if v == 1 {
            RecordType::A
        } else if v == 2 {
            RecordType::NS
        } else if v == 3 {
            RecordType::MD
        } else if v == 4 {
            RecordType::MF
        } else if v == 5 {
            RecordType::CNAME
        } else if v == 6 {
            RecordType::SOA
        } else if v == 7 {
            RecordType::MB
        } else if v == 8 {
            RecordType::MG
        } else if v == 9 {
            RecordType::MR
        } else if v == 10 {
            RecordType::NULL
        } else if v == 11 {
            RecordType::WKS
        } else if v == 12 {
            RecordType::PTR
        } else if v == 13 {
            RecordType::HINFO
        } else if v == 14 {
            RecordType::MINFO
        } else if v == 15 {
            RecordType::MX
        } else {
            RecordType::TXT
        }
    }

    pub fn to_u16(self) -> (r: u16)
        ensures
            r == self.value(),
            1 <= r <= 16,
    {
        match self {
            RecordType::A => 1,
            RecordType::NS => 2,
            RecordType::MD => 3,
            RecordType::MF => 4,
            RecordType::CNAME => 5,
            RecordType::SOA => 6,
            RecordType::MB => 7,
            RecordType::MG => 8,
            RecordType::MR => 9,
            RecordType::NULL => 10,
            RecordType::WKS => 11,
            RecordType::PTR => 12,
            RecordType::HINFO => 13,
            RecordType::MINFO => 14,
            RecordType::MX => 15,
            RecordType::TXT => 16,
        }
    }

    /// Fallible decoding of a numeric tag; tags outside 1..=16 are invalid.
    pub fn from_u16(v: u16) -> (r: Result<RecordType, DnsError>)
        ensures
            1 <= v <= 16 ==> r == Ok::<RecordType, DnsError>(RecordType::spec_from(v)),
            !(1 <= v <= 16) ==> r == Err::<RecordType, DnsError>(DnsError::InvalidEnumValue),
    {
        match v {
            1 => Ok(RecordType::A),
            2 => Ok(RecordType::NS),
            3 => Ok(RecordType::MD),
            4 => Ok(RecordType::MF),
            5 => Ok(RecordType::CNAME),
            6 => Ok(RecordType::SOA),
            7 => Ok(RecordType::MB),
            8 => Ok(RecordType::MG),
            9 => Ok(RecordType::MR),
            10 => Ok(RecordType::NULL),
            11 => Ok(RecordType::WKS),
            12 => Ok(RecordType::PTR),
            13 => Ok(RecordType::HINFO),
            14 => Ok(RecordType::MINFO),
            15 => Ok(RecordType::MX),
            16 => Ok(RecordType::TXT),
            _ => Err(DnsError::InvalidEnumValue),
        }
    }
}

/// Every record type survives the trip to its tag and back.
pub proof fn lemma_rtype_round_trip(t: RecordType)
    ensures
        RecordType::spec_from(t.value()) == t,
{
}

/// The CLASS field of a question or answer. Only values 1 through 4 are valid.
#[derive(Clone, Copy, Debug, PartialEq, Eq, Structural)]
pub enum RecordClass {
    IN,
    CS,
    CH,
    HS,
}

impl RecordClass {
    /// The numeric tag this class encodes to.
    pub open spec fn value(self) -> u16 {
        match self {
            RecordClass::IN => 1,
            RecordClass::CS => 2,
            RecordClass::CH => 3,
            RecordClass::HS => 4,
        }
    }

    /// The class a numeric tag decodes to; meaningful only for tags 1..=4.
    pub open spec fn spec_from(v: u16) -> RecordClass
        recommends
            1 <= v <= 4,
    {
        if v == 1 {
            RecordClass::IN
        } else if v == 2 {
            RecordClass::CS
        } else if v == 3 {
            RecordClass::CH
        } else {
            RecordClass::HS
        }
    }

    pub fn to_u16(self) -> (r: u16)
        ensures
            r == self.value(),
            1 <= r <= 4,
    {
        match self {
            RecordClass::IN => 1,
            RecordClass::CS => 2,
            RecordClass::CH => 3,
            RecordClass::HS => 4,
        }
    }

    /// Fallible decoding of a numeric tag; tags outside 1..=4 are invalid.
    pub fn from_u16(v: u16) -> (r: Result<RecordClass, DnsError>)
        ensures
            1 <= v <= 4 ==> r == Ok::<RecordClass, DnsError>(RecordClass::spec_from(v)),
            !(1 <= v <= 4) ==> r == Err::<RecordClass, DnsError>(DnsError::InvalidEnumValue),
    {
        match v {
            1 => Ok(RecordClass::IN),
            2 => Ok(RecordClass::CS),
            3 => Ok(RecordClass::CH),
            4 => Ok(RecordClass::HS),
            _ => Err(DnsError::InvalidEnumValue),
        }
    }
}

/// Every record class survives the trip to its tag and back.
pub proof fn lemma_rclass_round_trip(c: RecordClass)
    ensures
        RecordClass::spec_from(c.value()) == c,
{
}

} // verus!
