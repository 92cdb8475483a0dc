//! The answer (resource record) codec: a name, a 2-byte type, a 2-byte
//! class, a 4-byte TTL, a 2-byte data length and exactly that many data
//! bytes, all multi-byte integers big-endian.

use vstd::prelude::*;
use crate::err::DnsError;
use crate::fields::RecordClass;
use crate::fields::RecordType;
use crate::fields::lemma_rclass_round_trip;
use crate::fields::lemma_rtype_round_trip;
use crate::name::decode_name;
use crate::name::encode_name;
use crate::name::lemma_decode_encode_labels;
use crate::name::lemma_join_split;
use crate::name::name_wf;
use crate::name::spec_decode_name;
use crate::name::spec_encode_name;
use crate::name::split_labels;
use crate::wire::be16;
use crate::wire::be16_val;
use crate::wire::be32;
use crate::wire::be32_val;
use crate::wire::lemma_be16_round_trip;
use crate::wire::lemma_be32_round_trip;
use crate::wire::push_u16_be;
use crate::wire::push_u32_be;
use crate::wire::read_u16_be;
use crate::wire::read_u32_be;

verus! {

/// The mathematical view of an answer.
pub ghost struct AnswerV {
    pub name: Seq<u8>,
    pub rtype: RecordType,
    pub class: RecordClass,
    pub ttl: u32,
    pub length: u16,
    pub data: Seq<u8>,
}

#[derive(Clone, Debug, PartialEq, Eq)]
pub struct DnsAnswer {
    pub name: Vec<u8>,
    pub rtype: RecordType,
    pub class: RecordClass,
    pub ttl: u32,
    pub length: u16,
    pub data: Vec<u8>,
}

impl View for DnsAnswer {
    type V = AnswerV;

    open spec fn view(&self) -> AnswerV {
        AnswerV {
            name: self.name@,
            rtype: self.rtype,
            class: self.class,
            ttl: self.ttl,
            length: self.length,
            data: self.data@,
        }
    }
}

/// An answer can be encoded: its data has exactly `length` bytes and its
/// name is well formed.
pub open spec fn answer_wf(a: AnswerV) -> bool {
    a.data.len() == a.length && name_wf(a.name)
}

/// The exact error `to_be_bytes` returns, if any: the declared length is
/// checked before the name.
pub open spec fn answer_encode_err(a: AnswerV) -> Option<DnsError> {
    if a.data.len() != a.length {
        Some(DnsError::LengthMismatch)
    } else if !name_wf(a.name) {
        Some(DnsError::InvalidName)
    } else {
        None
    }
}

/// The wire form of an answer.
pub open spec fn spec_encode_answer(a: AnswerV) -> Seq<u8> {
    spec_encode_name(a.name) + be16(a.rtype.value()) + be16(a.class.value()) + be32(a.ttl) + be16(
        a.length,
    ) + a.data
}

/// The answer read from `buf` at `pos` and the position just past its data.
/// Name errors pass through; a tag outside its enum gives `InvalidEnumValue`;
/// too few bytes for the fixed fields, or fewer data bytes than the declared
/// length, give `TruncatedAnswer`.
pub open spec fn spec_decode_answer(buf: Seq<u8>, pos: int) -> Result<(AnswerV, int), DnsError> {
    match spec_decode_name(buf, pos) {
        Err(e) => Err(e),
        Ok((nm, p)) => {
            if p + 10 > buf.len() {
                Err(DnsError::TruncatedAnswer)
            } else {
                let tv = be16_val(buf[p], buf[p + 1]);
                let cv = be16_val(buf[p + 2], buf[p + 3]);
                let ttl = be32_val(buf[p + 4], buf[p + 5], buf[p + 6], buf[p + 7]);
                let ln = be16_val(buf[p + 8], buf[p + 9]);
                if !(1 <= tv <= 16) {
                    Err(DnsError::InvalidEnumValue)
                } else if !(1 <= cv <= 4) {
                    Err(DnsError::InvalidEnumValue)
                } else if p + 10 + ln > buf.len() {
                    Err(DnsError::TruncatedAnswer)
                } else {
                    Ok(
                        (
                            AnswerV {
                                name: nm,
                                rtype: RecordType::spec_from(tv),
                                class: RecordClass::spec_from(cv),
                                ttl,
                                length: ln,
                                data: buf.subrange(p + 10, p + 10 + ln),
                            },
                            p + 10 + ln,
                        ),
                    )
                }
            }
        },
    }
}

impl DnsAnswer {
    pub fn new(
        name: Vec<u8>,
        rtype: RecordType,
        class: RecordClass,
        ttl: u32,
        length: u16,
        data: Vec<u8>,
    ) -> (r: DnsAnswer)
        ensures
            r@ == (AnswerV { name: name@, rtype, class, ttl, length, data: data@ }),
    {
        DnsAnswer { name, rtype, class, ttl, length, data }
    }

    /// Encodes the answer. Fails with `LengthMismatch` if and only if the
    /// data does not have exactly `length` bytes; otherwise with
    /// `InvalidName` if and only if the name has an empty label or one
    /// longer than 63 bytes.
    pub fn to_be_bytes(&self) -> (r: Result<Vec<u8>, DnsError>)
        ensures
            (match r {
                Ok(v) => answer_encode_err(self@) is None && v@ == spec_encode_answer(self@),
                Err(e) => answer_encode_err(self@) == Some(e),
            }),
    {
        if self.data.len() != self.length as usize {
            return Err(DnsError::LengthMismatch);
        }
        let mut bytes = match encode_name(&self.name) {
            Ok(v) => v,
            Err(e) => {
                return Err(e);
            },
        };
        push_u16_be(&mut bytes, self.rtype.to_u16());
        push_u16_be(&mut bytes, self.class.to_u16());
        push_u32_be(&mut bytes, self.ttl);
        push_u16_be(&mut bytes, self.length);
        let ghost fixed = bytes@;
        let mut k: usize = 0;
        while k < self.data.len()
            invariant
                k <= self.data@.len(),
                bytes@ == fixed + self.data@.subrange(0, k as int),
            decreases self.data@.len() - k,
        {
            bytes.push(self.data[k]);
            k = k + 1;
        }
        proof {
            assert(self.data@.subrange(0, self.data@.len() as int) =~= self.data@);
            assert(bytes@ =~= spec_encode_answer(self@));
        }
        Ok(bytes)
    }

    /// Decodes the answer at `pos`, returning it with the position just past
    /// its data bytes.
    pub fn read(buf: &Vec<u8>, pos: usize) -> (r: Result<(DnsAnswer, usize), DnsError>)
        ensures
            (match r {
                Ok(p) => spec_decode_answer(buf@, pos as int) == Ok::<(AnswerV, int), DnsError>(
                    (p.0@, p.1 as int),
                ) && pos < p.1 <= buf@.len(),
                Err(e) => spec_decode_answer(buf@, pos as int) == Err::<(AnswerV, int), DnsError>(
                    e,
                ),
            }),
    {
        let (nm, p) = match decode_name(buf, pos) {
            Ok(x) => x,
            Err(e) => {
                return Err(e);
            },
        };
        let n = buf.len();
        if n - p < 10 {
            return Err(DnsError::TruncatedAnswer);
        }
        let tv = read_u16_be(buf, p);
        let cv = read_u16_be(buf, p + 2);
        let ttl = read_u32_be(buf, p + 4);
        let ln = read_u16_be(buf, p + 8);
        let rtype = match RecordType::from_u16(tv) {
            Ok(t) => t,
            Err(e) => {
                return Err(e);
            },
        };
        let class = match RecordClass::from_u16(cv) {
            Ok(c) => c,
            Err(e) => {
                return Err(e);
            },
        };
        let lnu = ln as usize;
        if lnu > n - (p + 10) {
            return Err(DnsError::TruncatedAnswer);
        }
        let start = p + 10;
        let mut data: Vec<u8> = Vec::new();
        let mut k: usize = start;
        while k < start + lnu
            invariant
                start <= k <= start + lnu,
                start + lnu <= n,
                n == buf@.len(),
                data@ == buf@.subrange(start as int, k as int),
            decreases start + lnu - k,
        {
            data.push(buf[k]);
            k = k + 1;
        }
        Ok((DnsAnswer { name: nm, rtype, class, ttl, length: ln, data }, start + lnu))
    }
}

/// A well-formed answer decodes from its encoding wherever that encoding
/// sits in a larger buffer, whatever follows it.
pub proof fn lemma_decode_answer_at(a: AnswerV, buf: Seq<u8>, pos: int)
    requires
        answer_wf(a),
        0 <= pos,
        pos + spec_encode_answer(a).len() <= buf.len(),
        buf.subrange(pos, pos + spec_encode_answer(a).len()) == spec_encode_answer(a),
    ensures
        spec_decode_answer(buf, pos) == Ok::<(AnswerV, int), DnsError>(
            (a, pos + spec_encode_answer(a).len()),
        ),
{
    let en = spec_encode_name(a.name);
    let e = spec_encode_answer(a);
    let ls = split_labels(a.name);
    assert(e.len() == en.len() + 10 + a.data.len());
    assert forall|k: int| 0 <= k < e.len() implies buf[pos + k] == e[k] by {
        assert(buf.subrange(pos, pos + e.len())[k] == buf[pos + k]);
    }
    assert(buf.subrange(pos, pos + en.len() as int) =~= en);
    lemma_decode_encode_labels(ls, buf, pos);
    lemma_join_split(a.name);
    let ln = en.len() as int;
    assert(e[ln] == be16(a.rtype.value())[0] && e[ln + 1] == be16(a.rtype.value())[1]);
    assert(e[ln + 2] == be16(a.class.value())[0] && e[ln + 3] == be16(a.class.value())[1]);
    assert(e[ln + 4] == be32(a.ttl)[0] && e[ln + 5] == be32(a.ttl)[1] && e[ln + 6] == be32(
        a.ttl,
    )[2] && e[ln + 7] == be32(a.ttl)[3]);
    assert(e[ln + 8] == be16(a.length)[0] && e[ln + 9] == be16(a.length)[1]);
    assert(buf[pos + ln] == e[ln] && buf[pos + (ln + 1)] == e[ln + 1] && buf[pos + (ln + 2)] == e[
        ln + 2
    ] && buf[pos + (ln + 3)] == e[ln + 3]);
    assert(buf[pos + (ln + 4)] == e[ln + 4] && buf[pos + (ln + 5)] == e[ln + 5] && buf[pos + (ln
        + 6)] == e[ln + 6] && buf[pos + (ln + 7)] == e[ln + 7]);
    assert(buf[pos + (ln + 8)] == e[ln + 8] && buf[pos + (ln + 9)] == e[ln + 9]);
    lemma_be16_round_trip(a.rtype.value());
    lemma_be16_round_trip(a.class.value());
    lemma_be32_round_trip(a.ttl);
    lemma_be16_round_trip(a.length);
    lemma_rtype_round_trip(a.rtype);
    lemma_rclass_round_trip(a.class);
    assert(1 <= a.rtype.value() <= 16);
    assert(1 <= a.class.value() <= 4);
    assert forall|k: int| 0 <= k < a.data.len() implies buf[pos + (ln + 10 + k)] == a.data[k] by {
        assert(e[ln + 10 + k] == a.data[k]);
    }
    assert(buf.subrange(pos + ln + 10, pos + ln + 10 + a.length as int) =~= a.data);
}

/// The round-trip law for answers: any well-formed answer decodes from its
/// own encoding unchanged, consuming the whole encoding.
pub proof fn lemma_answer_round_trip(a: AnswerV)
    requires
        answer_wf(a),
    ensures
        spec_decode_answer(spec_encode_answer(a), 0) == Ok::<(AnswerV, int), DnsError>(
            (a, spec_encode_answer(a).len() as int),
        ),
{
    let e = spec_encode_answer(a);
    assert(e.subrange(0, e.len() as int) =~= e);
    lemma_decode_answer_at(a, e, 0);
}

} // verus!
