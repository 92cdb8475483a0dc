//! The 12-byte fixed header codec.
//!
//! Layout, big-endian 16-bit words unless noted. Bytes 0-1: ID. Byte 2:
//! bit 7 QR, bits 6-3 OPCODE, bit 2 AA, bit 1 TC, bit 0 RD. Byte 3: bit 7 RA,
//! bit 4 Z (modelled as a single placeholder bit of the reserved field),
//! bits 3-0 RCODE. Bytes 4-5: QDCOUNT, 6-7: ANCOUNT, 8-9: NSCOUNT,
//! 10-11: ARCOUNT.

use vstd::prelude::*;
use crate::err::DnsError;
use crate::fields::ResponseCode;
use crate::fields::lemma_rcode_round_trip;
use crate::wire::be16;
use crate::wire::be16_val;
use crate::wire::lemma_be16_round_trip;
use crate::wire::push_u16_be;
use crate::wire::read_u16_be;

verus! {

#[derive(Clone, Copy, Debug, PartialEq, Eq, Structural)]
pub struct DnsHeader {
    pub id: u16,
    pub qr: bool,
    pub opcode: u8,
    pub aa: bool,
    pub tc: bool,
    pub rd: bool,
    pub ra: bool,
    pub z: bool,
    pub rcode: ResponseCode,
    pub qdcount: u16,
    pub ancount: u16,
    pub nscount: u16,
    pub arcount: u16,
}

/// The bit a flag encodes to.
pub open spec fn flag_bit(b: bool) -> u8 {
    if b {
        1
    } else {
        0
    }
}

/// Byte 2 of the header: QR, OPCODE, AA, TC, RD.
pub open spec fn spec_flags_hi(h: DnsHeader) -> u8 {
    (flag_bit(h.qr) << 7) | (h.opcode << 3) | (flag_bit(h.aa) << 2) | (flag_bit(h.tc) << 1)
        | flag_bit(h.rd)
}

/// Byte 3 of the header: RA, Z, RCODE.
pub open spec fn spec_flags_lo(h: DnsHeader) -> u8 {
    (flag_bit(h.ra) << 7) | (flag_bit(h.z) << 4) | h.rcode.value()
}

/// The 12 bytes a header encodes to.
pub open spec fn spec_encode_header(h: DnsHeader) -> Seq<u8> {
    be16(h.id) + seq![spec_flags_hi(h), spec_flags_lo(h)] + be16(h.qdcount) + be16(h.ancount)
        + be16(h.nscount) + be16(h.arcount)
}

/// The header read from the 12 bytes at `pos`, and the position just past
/// them. Fewer than 12 bytes give `TruncatedHeader`; an RCODE tag above 5
/// gives `InvalidEnumValue`.
pub open spec fn spec_decode_header(buf: Seq<u8>, pos: int) -> Result<(DnsHeader, int), DnsError> {
    if pos < 0 || pos + 12 > buf.len() {
        Err(DnsError::TruncatedHeader)
    } else {
        let b2 = buf[pos + 2];
        let b3 = buf[pos + 3];
        if b3 & 0xf > 5 {
            Err(DnsError::InvalidEnumValue)
        } else {
            Ok(
                (
                    DnsHeader {
                        id: be16_val(buf[pos], buf[pos + 1]),
                        qr: (b2 >> 7) & 1 == 1,
                        opcode: (b2 >> 3) & 0xf,
                        aa: (b2 >> 2) & 1 == 1,
                        tc: (b2 >> 1) & 1 == 1,
                        rd: b2 & 1 == 1,
                        ra: (b3 >> 7) & 1 == 1,
                        z: (b3 >> 4) & 1 == 1,
                        rcode: ResponseCode::spec_from(b3 & 0xf),
                        qdcount: be16_val(buf[pos + 4], buf[pos + 5]),
                        ancount: be16_val(buf[pos + 6], buf[pos + 7]),
                        nscount: be16_val(buf[pos + 8], buf[pos + 9]),
                        arcount: be16_val(buf[pos + 10], buf[pos + 11]),
                    },
                    pos + 12,
                ),
            )
        }
    }
}

impl DnsHeader {
    /// The OPCODE field is 4 bits wide; nothing else is constrained.
    pub open spec fn wf(self) -> bool {
        self.opcode < 16
    }

    #[allow(clippy::too_many_arguments)]
    pub fn new(
        id: u16,
        qr: bool,
        opcode: u8,
        aa: bool,
        tc: bool,
        rd: bool,
        ra: bool,
        z: bool,
        rcode: ResponseCode,
        qdcount: u16,
        ancount: u16,
        nscount: u16,
        arcount: u16,
    ) -> (r: DnsHeader)
        ensures
            r == (DnsHeader { id, qr, opcode, aa, tc, rd, ra, z, rcode, qdcount, ancount, nscount, arcount }),
    {
        DnsHeader { id, qr, opcode, aa, tc, rd, ra, z, rcode, qdcount, ancount, nscount, arcount }
    }

    /// Packs the header into its 12 wire bytes.
    pub fn to_be_bytes(&self) -> (r: Vec<u8>)
        requires
            self.wf(),
        ensures
            r@ == spec_encode_header(*self),
            r@.len() == 12,
    {
        let mut bytes: Vec<u8> = Vec::new();
        push_u16_be(&mut bytes, self.id);
        let hi: u8 = ((if self.qr {
            1u8
        } else {
            0u8
        }) << 7u8) | (self.opcode << 3u8) | ((if self.aa {
            1u8
        } else {
            0u8
        }) << 2u8) | ((if self.tc {
            1u8
        } else {
            0u8
        }) << 1u8) | (if self.rd {
            1u8
        } else {
            0u8
        });
        bytes.push(hi);
        let lo: u8 = ((if self.ra {
            1u8
        } else {
            0u8
        }) << 7u8) | ((if self.z {
            1u8
        } else {
            0u8
        }) << 4u8) | self.rcode.to_u8();
        bytes.push(lo);
        push_u16_be(&mut bytes, self.qdcount);
        push_u16_be(&mut bytes, self.ancount);
        push_u16_be(&mut bytes, self.nscount);
        push_u16_be(&mut bytes, self.arcount);
        proof {
            assert(bytes@ =~= spec_encode_header(*self));
        }
        bytes
    }

    /// Unpacks the 12 bytes at `pos`. The returned header always has a 4-bit
    /// OPCODE, so it is well formed.
    pub fn read(buf: &Vec<u8>, pos: usize) -> (r: Result<(DnsHeader, usize), DnsError>)
        ensures
            (match r {
                Ok(p) => spec_decode_header(buf@, pos as int) == Ok::<(DnsHeader, int), DnsError>(
                    (p.0, p.1 as int),
                ) && p.1 == pos + 12 && p.0.wf(),
                Err(e) => spec_decode_header(buf@, pos as int) == Err::<(DnsHeader, int), DnsError>(
                    e,
                ),
            }),
    {
        let n = buf.len();
        if pos >= n || n - pos < 12 {
            return Err(DnsError::TruncatedHeader);
        }
        let b2 = buf[pos + 2];
        let b3 = buf[pos + 3];
        let rc = b3 & 0xf;
        proof {
            assert((b2 >> 3) & 0xf < 16) by (bit_vector);
            assert(b3 & 0xf <= 0xf) by (bit_vector);
        }
        let rcode = match ResponseCode::from_u8(rc) {
            Ok(c) => c,
            Err(e) => {
                return Err(e);
            },
        };
        let h = DnsHeader {
            id: read_u16_be(buf, pos),
            qr: (b2 >> 7u8) & 1 == 1,
            opcode: (b2 >> 3u8) & 0xf,
            aa: (b2 >> 2u8) & 1 == 1,
            tc: (b2 >> 1u8) & 1 == 1,
            rd: b2 & 1 == 1,
            ra: (b3 >> 7u8) & 1 == 1,
            z: (b3 >> 4u8) & 1 == 1,
            rcode,
            qdcount: read_u16_be(buf, pos + 4),
            ancount: read_u16_be(buf, pos + 6),
            nscount: read_u16_be(buf, pos + 8),
            arcount: read_u16_be(buf, pos + 10),
        };
        Ok((h, pos + 12))
    }
}

/// Each field packed into byte 2 comes back out of its bit positions.
proof fn lemma_flags_hi_bits(q: u8, op: u8, a: u8, t: u8, r: u8)
    by (bit_vector)
    requires
        q < 2,
        op < 16,
        a < 2,
        t < 2,
        r < 2,
    ensures
        (((q << 7) | (op << 3) | (a << 2) | (t << 1) | r) >> 7) & 1 == q,
        (((q << 7) | (op << 3) | (a << 2) | (t << 1) | r) >> 3) & 0xf == op,
        (((q << 7) | (op << 3) | (a << 2) | (t << 1) | r) >> 2) & 1 == a,
        (((q << 7) | (op << 3) | (a << 2) | (t << 1) | r) >> 1) & 1 == t,
        ((q << 7) | (op << 3) | (a << 2) | (t << 1) | r) & 1 == r,
{
}

/// Each field packed into byte 3 comes back out of its bit positions.
proof fn lemma_flags_lo_bits(ra: u8, z: u8, rc: u8)
    by (bit_vector)
    requires
        ra < 2,
        z < 2,
        rc < 16,
    ensures
        (((ra << 7) | (z << 4) | rc) >> 7) & 1 == ra,
        (((ra << 7) | (z << 4) | rc) >> 4) & 1 == z,
        ((ra << 7) | (z << 4) | rc) & 0xf == rc,
{
}

/// A well-formed header decodes from its encoding wherever that encoding
/// sits in a larger buffer, whatever follows it.
pub proof fn lemma_decode_header_at(h: DnsHeader, buf: Seq<u8>, pos: int)
    requires
        h.wf(),
        0 <= pos,
        pos + 12 <= buf.len(),
        buf.subrange(pos, pos + 12) == spec_encode_header(h),
    ensures
        spec_decode_header(buf, pos) == Ok::<(DnsHeader, int), DnsError>((h, pos + 12)),
{
    let e = spec_encode_header(h);
    assert(e.len() == 12);
    assert forall|k: int| 0 <= k < 12 implies buf[pos + k] == e[k] by {
        assert(buf.subrange(pos, pos + 12)[k] == buf[pos + k]);
    }
    assert(e[0] == be16(h.id)[0] && e[1] == be16(h.id)[1]);
    assert(e[2] == spec_flags_hi(h) && e[3] == spec_flags_lo(h));
    assert(e[4] == be16(h.qdcount)[0] && e[5] == be16(h.qdcount)[1]);
    assert(e[6] == be16(h.ancount)[0] && e[7] == be16(h.ancount)[1]);
    assert(e[8] == be16(h.nscount)[0] && e[9] == be16(h.nscount)[1]);
    assert(e[10] == be16(h.arcount)[0] && e[11] == be16(h.arcount)[1]);
    lemma_be16_round_trip(h.id);
    lemma_be16_round_trip(h.qdcount);
    lemma_be16_round_trip(h.ancount);
    lemma_be16_round_trip(h.nscount);
    lemma_be16_round_trip(h.arcount);
    lemma_flags_hi_bits(
        flag_bit(h.qr),
        h.opcode,
        flag_bit(h.aa),
        flag_bit(h.tc),
        flag_bit(h.rd),
    );
    lemma_rcode_round_trip(h.rcode);
    assert(h.rcode.value() < 16);
    lemma_flags_lo_bits(flag_bit(h.ra), flag_bit(h.z), h.rcode.value());
    let d = spec_decode_header(buf, pos);
    assert(d is Ok);
    assert(d->Ok_0.0 == h);
}

/// The round-trip law for headers: any well-formed header decodes from its
/// own encoding unchanged, consuming exactly 12 bytes.
pub proof fn lemma_header_round_trip(h: DnsHeader)
    requires
        h.wf(),
    ensures
        spec_decode_header(spec_encode_header(h), 0) == Ok::<(DnsHeader, int), DnsError>((h, 12)),
{
    let e = spec_encode_header(h);
    assert(e.len() == 12);
    assert(e.subrange(0, 12) =~= e);
    lemma_decode_header_at(h, e, 0);
}

} // verus!
