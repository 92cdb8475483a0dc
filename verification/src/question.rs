//! The question record codec: a name followed by a 2-byte type and a 2-byte
//! class, both big-endian and validated against their enums.

use vstd::prelude::*;
use crate::err::DnsError;
use crate::fields::RecordClass;
use crate::fields::RecordType;
use crate::fields::lemma_rclass_round_trip;
use crate::fields::lemma_rtype_round_trip;
use crate::name::decode_name;
use crate::name::encode_name;
use crate::name::lemma_decode_encode_labels;
use crate::name::lemma_join_split;
use crate::name::name_wf;
use crate::name::spec_decode_name;
use crate::name::spec_encode_name;
use crate::name::split_labels;
use crate::wire::be16;
use crate::wire::be16_val;
use crate::wire::lemma_be16_round_trip;
use crate::wire::push_u16_be;
use crate::wire::read_u16_be;

verus! {

/// The mathematical view of a question.
pub ghost struct QuestionV {
    pub name: Seq<u8>,
    pub rtype: RecordType,
    pub class: RecordClass,
}

#[derive(Clone, Debug, PartialEq, Eq)]
pub struct DnsQuestion {
    pub name: Vec<u8>,
    pub rtype: RecordType,
    pub class: RecordClass,
}

impl View for DnsQuestion {
    type V = QuestionV;

    open spec fn view(&self) -> QuestionV {
        QuestionV { name: self.name@, rtype: self.rtype, class: self.class }
    }
}

/// A question can be encoded exactly when its name can.
pub open spec fn question_wf(q: QuestionV) -> bool {
    name_wf(q.name)
}

/// The wire form of a question.
pub open spec fn spec_encode_question(q: QuestionV) -> Seq<u8> {
    spec_encode_name(q.name) + be16(q.rtype.value()) + be16(q.class.value())
}

/// The question read from `buf` at `pos` and the position just past it.
/// Name errors pass through; too few bytes for type and class, or a tag
/// outside its enum, give `InvalidEnumValue` (type checked before class).
pub open spec fn spec_decode_question(buf: Seq<u8>, pos: int) -> Result<(QuestionV, int), DnsError> {
    match spec_decode_name(buf, pos) {
        Err(e) => Err(e),
        Ok((nm, p)) => {
            if p + 4 > buf.len() {
                Err(DnsError::InvalidEnumValue)
            } else {
                let tv = be16_val(buf[p], buf[p + 1]);
                let cv = be16_val(buf[p + 2], buf[p + 3]);
                if !(1 <= tv <= 16) {
                    Err(DnsError::InvalidEnumValue)
                } else if !(1 <= cv <= 4) {
                    Err(DnsError::InvalidEnumValue)
                } else {
                    Ok(
                        (
                            QuestionV {
                                name: nm,
                                rtype: RecordType::spec_from(tv),
                                class: RecordClass::spec_from(cv),
                            },
                            p + 4,
                        ),
                    )
                }
            }
        },
    }
}

impl DnsQuestion {
    pub fn new(name: Vec<u8>, rtype: RecordType, class: RecordClass) -> (r: DnsQuestion)
        ensures
            r@ == (QuestionV { name: name@, rtype, class }),
    {
        DnsQuestion { name, rtype, class }
    }

    /// Encodes the question; fails with `InvalidName` if and only if the
    /// name has an empty label or one longer than 63 bytes.
    pub fn to_be_bytes(&self) -> (r: Result<Vec<u8>, DnsError>)
        ensures
            (match r {
                Ok(v) => question_wf(self@) && v@ == spec_encode_question(self@),
                Err(e) => !question_wf(self@) && e == DnsError::InvalidName,
            }),
    {
        let mut bytes = match encode_name(&self.name) {
            Ok(v) => v,
            Err(e) => {
                return Err(e);
            },
        };
        push_u16_be(&mut bytes, self.rtype.to_u16());
        push_u16_be(&mut bytes, self.class.to_u16());
        proof {
            assert(bytes@ =~= spec_encode_question(self@));
        }
        Ok(bytes)
    }

    /// Decodes the question at `pos`, returning it with the position just
    /// past its class field.
    pub fn read(buf: &Vec<u8>, pos: usize) -> (r: Result<(DnsQuestion, usize), DnsError>)
        ensures
            (match r {
                Ok(p) => spec_decode_question(buf@, pos as int) == Ok::<(QuestionV, int), DnsError>(
                    (p.0@, p.1 as int),
                ) && pos < p.1 <= buf@.len(),
                Err(e) => spec_decode_question(buf@, pos as int) == Err::<
                    (QuestionV, int),
                    DnsError,
                >(e),
            }),
    {
        let (nm, p) = match decode_name(buf, pos) {
            Ok(x) => x,
            Err(e) => {
                return Err(e);
            },
        };
        let n = buf.len();
        if n - p < 4 {
            return Err(DnsError::InvalidEnumValue);
        }
        let tv = read_u16_be(buf, p);
        let cv = read_u16_be(buf, p + 2);
        let rtype = match RecordType::from_u16(tv) {
            Ok(t) => t,
            Err(e) => {
                return Err(e);
            },
        };
        let class = match RecordClass::from_u16(cv) {
            Ok(c) => c,
            Err(e) => {
                return Err(e);
            },
        };
        Ok((DnsQuestion { name: nm, rtype, class }, p + 4))
    }
}

/// A well-formed question decodes from its encoding wherever that encoding
/// sits in a larger buffer, whatever follows it.
pub proof fn lemma_decode_question_at(q: QuestionV, buf: Seq<u8>, pos: int)
    requires
        question_wf(q),
        0 <= pos,
        pos + spec_encode_question(q).len() <= buf.len(),
        buf.subrange(pos, pos + spec_encode_question(q).len()) == spec_encode_question(q),
    ensures
        spec_decode_question(buf, pos) == Ok::<(QuestionV, int), DnsError>(
            (q, pos + spec_encode_question(q).len()),
        ),
{
    let en = spec_encode_name(q.name);
    let e = spec_encode_question(q);
    let ls = split_labels(q.name);
    assert(e.len() == en.len() + 4);
    assert forall|k: int| 0 <= k < e.len() implies buf[pos + k] == e[k] by {
        assert(buf.subrange(pos, pos + e.len())[k] == buf[pos + k]);
    }
    assert(buf.subrange(pos, pos + en.len() as int) =~= en);
    lemma_decode_encode_labels(ls, buf, pos);
    lemma_join_split(q.name);
    let ln = en.len() as int;
    assert(e[ln] == be16(q.rtype.value())[0] && e[ln + 1] == be16(q.rtype.value())[1]);
    assert(e[ln + 2] == be16(q.class.value())[0] && e[ln + 3] == be16(q.class.value())[1]);
    assert(buf[pos + ln] == e[ln] && buf[pos + (ln + 1)] == e[ln + 1] && buf[pos + (ln + 2)] == e[
        ln + 2
    ] && buf[pos + (ln + 3)] == e[ln + 3]);
    lemma_be16_round_trip(q.rtype.value());
    lemma_be16_round_trip(q.class.value());
    lemma_rtype_round_trip(q.rtype);
    lemma_rclass_round_trip(q.class);
    assert(1 <= q.rtype.value() <= 16);
    assert(1 <= q.class.value() <= 4);
}

/// The round-trip law for questions: any well-formed question decodes from
/// its own encoding unchanged, consuming the whole encoding.
pub proof fn lemma_question_round_trip(q: QuestionV)
    requires
        question_wf(q),
    ensures
        spec_decode_question(spec_encode_question(q), 0) == Ok::<(QuestionV, int), DnsError>(
            (q, spec_encode_question(q).len() as int),
        ),
{
    let e = spec_encode_question(q);
    assert(e.subrange(0, e.len() as int) =~= e);
    lemma_decode_question_at(q, e, 0);
}

} // verus!
