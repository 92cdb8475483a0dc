//! The message assembler: a header followed by its questions and answers,
//! and the server-facing behaviour of answering a single query.

use vstd::prelude::*;
use crate::answer::AnswerV;
use crate::answer::DnsAnswer;
use crate::answer::answer_encode_err;
use crate::answer::answer_wf;
use crate::answer::lemma_decode_answer_at;
use crate::answer::spec_decode_answer;
use crate::answer::spec_encode_answer;
use crate::err::DnsError;
use crate::fields::RecordClass;
use crate::fields::RecordType;
use crate::fields::ResponseCode;
use crate::header::DnsHeader;
use crate::header::lemma_decode_header_at;
use crate::header::spec_decode_header;
use crate::header::spec_encode_header;
use crate::question::DnsQuestion;
use crate::question::QuestionV;
use crate::question::lemma_decode_question_at;
use crate::question::question_wf;
use crate::question::spec_decode_question;
use crate::question::spec_encode_question;

verus! {

/// The mathematical view of a whole message.
pub ghost struct MessageV {
    pub header: DnsHeader,
    pub questions: Seq<QuestionV>,
    pub answers: Seq<AnswerV>,
}

#[derive(Clone, Debug, PartialEq, Eq)]
pub struct DnsMessage {
    pub header: DnsHeader,
    pub questions: Vec<DnsQuestion>,
    pub answers: Vec<DnsAnswer>,
}

impl View for DnsMessage {
    type V = MessageV;

    open spec fn view(&self) -> MessageV {
        MessageV {
            header: self.header,
            questions: self.questions@.map_values(|q: DnsQuestion| q@),
            answers: self.answers@.map_values(|a: DnsAnswer| a@),
        }
    }
}

/// The count fields agree with the sequences, as they must whenever a
/// message is serialized for transmission.
pub open spec fn counts_ok(m: MessageV) -> bool {
    m.header.qdcount == m.questions.len() && m.header.ancount == m.answers.len()
}

pub open spec fn questions_encode_ok(qs: Seq<QuestionV>) -> bool {
    forall|i: int| 0 <= i < qs.len() ==> question_wf(#[trigger] qs[i])
}

/// The error of the first answer that cannot be encoded, in order, if any.
pub open spec fn answers_encode_err(ans: Seq<AnswerV>) -> Option<DnsError>
    decreases ans.len(),
{
    if ans.len() == 0 {
        None
    } else {
        match answer_encode_err(ans[0]) {
            Some(e) => Some(e),
            None => answers_encode_err(ans.drop_first()),
        }
    }
}

/// The exact error `DnsMessage::to_be_bytes` returns, if any: questions are
/// encoded before answers, and every question failure is `InvalidName`.
pub open spec fn message_encode_err(m: MessageV) -> Option<DnsError> {
    if !questions_encode_ok(m.questions) {
        Some(DnsError::InvalidName)
    } else {
        answers_encode_err(m.answers)
    }
}

pub open spec fn enc_questions(qs: Seq<QuestionV>) -> Seq<u8>
    decreases qs.len(),
{
    if qs.len() == 0 {
        Seq::<u8>::empty()
    } else {
        spec_encode_question(qs[0]) + enc_questions(qs.drop_first())
    }
}

pub open spec fn enc_answers(ans: Seq<AnswerV>) -> Seq<u8>
    decreases ans.len(),
{
    if ans.len() == 0 {
        Seq::<u8>::empty()
    } else {
        spec_encode_answer(ans[0]) + enc_answers(ans.drop_first())
    }
}

/// The wire form of a message: header, questions and answers, in order.
pub open spec fn spec_encode_message(m: MessageV) -> Seq<u8> {
    spec_encode_header(m.header) + enc_questions(m.questions) + enc_answers(m.answers)
}

/// `n` questions read one after another from `pos`.
pub open spec fn spec_decode_questions(buf: Seq<u8>, pos: int, n: int) -> Result<
    (Seq<QuestionV>, int),
    DnsError,
>
    decreases n,
{
    if n <= 0 {
        Ok((Seq::<QuestionV>::empty(), pos))
    } else {
        match spec_decode_question(buf, pos) {
            Err(e) => Err(e),
            Ok((q, p)) => match spec_decode_questions(buf, p, n - 1) {
                Err(e) => Err(e),
                Ok((qs, end)) => Ok((seq![q] + qs, end)),
            },
        }
    }
}

/// `n` answers read one after another from `pos`.
pub open spec fn spec_decode_answers(buf: Seq<u8>, pos: int, n: int) -> Result<
    (Seq<AnswerV>, int),
    DnsError,
>
    decreases n,
{
    if n <= 0 {
        Ok((Seq::<AnswerV>::empty(), pos))
    } else {
        match spec_decode_answer(buf, pos) {
            Err(e) => Err(e),
            Ok((a, p)) => match spec_decode_answers(buf, p, n - 1) {
                Err(e) => Err(e),
                Ok((ans, end)) => Ok((seq![a] + ans, end)),
            },
        }
    }
}

/// The message read from a whole datagram: the header, then as many
/// questions and answers as its counts declare. Trailing bytes are ignored.
pub open spec fn spec_decode_message(buf: Seq<u8>) -> Result<MessageV, DnsError> {
    match spec_decode_header(buf, 0) {
        Err(e) => Err(e),
        Ok((h, p)) => match spec_decode_questions(buf, p, h.qdcount as int) {
            Err(e) => Err(e),
            Ok((qs, p2)) => match spec_decode_answers(buf, p2, h.ancount as int) {
                Err(e) => Err(e),
                Ok((ans, _end)) => Ok(MessageV { header: h, questions: qs, answers: ans }),
            },
        },
    }
}

/// Appending one more question extends the encoding on the right.
proof fn lemma_enc_questions_snoc(qs: Seq<QuestionV>, i: int)
    requires
        0 <= i < qs.len(),
    ensures
        enc_questions(qs.take(i + 1)) == enc_questions(qs.take(i)) + spec_encode_question(qs[i]),
    decreases i,
{
    let t1 = qs.take(i + 1);
    if i == 0 {
        assert(qs.take(0) =~= Seq::<QuestionV>::empty());
        assert(t1.drop_first() =~= Seq::<QuestionV>::empty());
        assert(enc_questions(t1) =~= enc_questions(qs.take(0)) + spec_encode_question(qs[0]));
    } else {
        lemma_enc_questions_snoc(qs.drop_first(), i - 1);
        assert(t1.drop_first() =~= qs.drop_first().take(i));
        assert(qs.take(i).drop_first() =~= qs.drop_first().take(i - 1));
        assert(enc_questions(qs.take(i + 1)) =~= enc_questions(qs.take(i)) + spec_encode_question(
            qs[i],
        ));
    }
}

/// Appending one more answer extends the encoding on the right.
proof fn lemma_enc_answers_snoc(ans: Seq<AnswerV>, i: int)
    requires
        0 <= i < ans.len(),
    ensures
        enc_answers(ans.take(i + 1)) == enc_answers(ans.take(i)) + spec_encode_answer(ans[i]),
    decreases i,
{
    let t1 = ans.take(i + 1);
    if i == 0 {
        assert(ans.take(0) =~= Seq::<AnswerV>::empty());
        assert(t1.drop_first() =~= Seq::<AnswerV>::empty());
        assert(enc_answers(t1) =~= enc_answers(ans.take(0)) + spec_encode_answer(ans[0]));
    } else {
        lemma_enc_answers_snoc(ans.drop_first(), i - 1);
        assert(t1.drop_first() =~= ans.drop_first().take(i));
        assert(ans.take(i).drop_first() =~= ans.drop_first().take(i - 1));
        assert(enc_answers(ans.take(i + 1)) =~= enc_answers(ans.take(i)) + spec_encode_answer(
            ans[i],
        ));
    }
}

/// If the answers before `i` encode and answer `i` does not, its error is
/// the error of the whole sequence.
proof fn lemma_answers_err_at(ans: Seq<AnswerV>, i: int)
    requires
        0 <= i < ans.len(),
        forall|j: int| 0 <= j < i ==> answer_encode_err(#[trigger] ans[j]) is None,
        answer_encode_err(ans[i]) is Some,
    ensures
        answers_encode_err(ans) == answer_encode_err(ans[i]),
    decreases i,
{
    if i > 0 {
        assert forall|j: int| 0 <= j < i - 1 implies answer_encode_err(
            #[trigger] ans.drop_first()[j],
        ) is None by {
            assert(ans.drop_first()[j] == ans[j + 1]);
        }
        lemma_answers_err_at(ans.drop_first(), i - 1);
    }
}

/// If every answer encodes, the whole sequence encodes.
proof fn lemma_answers_err_none(ans: Seq<AnswerV>)
    requires
        forall|j: int| 0 <= j < ans.len() ==> answer_encode_err(#[trigger] ans[j]) is None,
    ensures
        answers_encode_err(ans) is None,
    decreases ans.len(),
{
    if ans.len() > 0 {
        assert forall|j: int| 0 <= j < ans.drop_first().len() implies answer_encode_err(
            #[trigger] ans.drop_first()[j],
        ) is None by {
            assert(ans.drop_first()[j] == ans[j + 1]);
        }
        lemma_answers_err_none(ans.drop_first());
    }
}

/// If the whole answer sequence encodes, so does each answer in it.
proof fn lemma_answers_err_none_all(ans: Seq<AnswerV>)
    requires
        answers_encode_err(ans) is None,
    ensures
        forall|j: int| 0 <= j < ans.len() ==> answer_encode_err(#[trigger] ans[j]) is None,
    decreases ans.len(),
{
    if ans.len() > 0 {
        lemma_answers_err_none_all(ans.drop_first());
        assert forall|j: int| 0 <= j < ans.len() implies answer_encode_err(
            #[trigger] ans[j],
        ) is None by {
            if j > 0 {
                assert(ans[j] == ans.drop_first()[j - 1]);
            }
        }
    }
}

/// A sequence of well-formed questions decodes, one after another, from its
/// concatenated encodings wherever they sit in a larger buffer.
proof fn lemma_decode_questions_all(qs: Seq<QuestionV>, buf: Seq<u8>, pos: int)
    requires
        questions_encode_ok(qs),
        0 <= pos,
        pos + enc_questions(qs).len() <= buf.len(),
        buf.subrange(pos, pos + enc_questions(qs).len()) == enc_questions(qs),
    ensures
        spec_decode_questions(buf, pos, qs.len() as int) == Ok::<(Seq<QuestionV>, int), DnsError>(
            (qs, pos + enc_questions(qs).len()),
        ),
    decreases qs.len(),
{
    let e = enc_questions(qs);
    if qs.len() == 0 {
        assert(qs =~= Seq::<QuestionV>::empty());
    } else {
        let e0 = spec_encode_question(qs[0]);
        let rest = qs.drop_first();
        let erest = enc_questions(rest);
        assert(e == e0 + erest);
        assert forall|k: int| 0 <= k < e.len() implies buf[pos + k] == e[k] by {
            assert(buf.subrange(pos, pos + e.len())[k] == buf[pos + k]);
        }
        assert(question_wf(qs[0]));
        assert(buf.subrange(pos, pos + e0.len() as int) =~= e0);
        lemma_decode_question_at(qs[0], buf, pos);
        let mid = pos + e0.len() as int;
        assert forall|i: int| 0 <= i < rest.len() implies question_wf(#[trigger] rest[i]) by {
            assert(rest[i] == qs[i + 1]);
        }
        assert forall|k: int| 0 <= k < erest.len() implies buf[mid + k] == erest[k] by {
            assert(buf[pos + (e0.len() + k)] == e[e0.len() + k]);
            assert(e[e0.len() + k] == erest[k]);
        }
        assert(buf.subrange(mid, mid + erest.len() as int) =~= erest);
        lemma_decode_questions_all(rest, buf, mid);
        assert(seq![qs[0]] + rest =~= qs);
    }
}

/// A sequence of well-formed answers decodes, one after another, from its
/// concatenated encodings wherever they sit in a larger buffer.
proof fn lemma_decode_answers_all(ans: Seq<AnswerV>, buf: Seq<u8>, pos: int)
    requires
        forall|j: int| 0 <= j < ans.len() ==> answer_wf(#[trigger] ans[j]),
        0 <= pos,
        pos + enc_answers(ans).len() <= buf.len(),
        buf.subrange(pos, pos + enc_answers(ans).len()) == enc_answers(ans),
    ensures
        spec_decode_answers(buf, pos, ans.len() as int) == Ok::<(Seq<AnswerV>, int), DnsError>(
            (ans, pos + enc_answers(ans).len()),
        ),
    decreases ans.len(),
{
    let e = enc_answers(ans);
    if ans.len() == 0 {
        assert(ans =~= Seq::<AnswerV>::empty());
    } else {
        let e0 = spec_encode_answer(ans[0]);
        let rest = ans.drop_first();
        let erest = enc_answers(rest);
        assert(e == e0 + erest);
        assert forall|k: int| 0 <= k < e.len() implies buf[pos + k] == e[k] by {
            assert(buf.subrange(pos, pos + e.len())[k] == buf[pos + k]);
        }
        assert(answer_wf(ans[0]));
        assert(buf.subrange(pos, pos + e0.len() as int) =~= e0);
        lemma_decode_answer_at(ans[0], buf, pos);
        let mid = pos + e0.len() as int;
        assert forall|i: int| 0 <= i < rest.len() implies answer_wf(#[trigger] rest[i]) by {
            assert(rest[i] == ans[i + 1]);
        }
        assert forall|k: int| 0 <= k < erest.len() implies buf[mid + k] == erest[k] by {
            assert(buf[pos + (e0.len() + k)] == e[e0.len() + k]);
            assert(e[e0.len() + k] == erest[k]);
        }
        assert(buf.subrange(mid, mid + erest.len() as int) =~= erest);
        lemma_decode_answers_all(rest, buf, mid);
        assert(seq![ans[0]] + rest =~= ans);
    }
}

/// The round-trip law for whole messages: a message whose counts agree with
/// its sequences and whose records all encode decodes from its own encoding
/// unchanged.
pub proof fn lemma_message_round_trip(m: MessageV)
    requires
        m.header.wf(),
        counts_ok(m),
        message_encode_err(m) is None,
    ensures
        spec_decode_message(spec_encode_message(m)) == Ok::<MessageV, DnsError>(m),
{
    let eh = spec_encode_header(m.header);
    let eq = enc_questions(m.questions);
    let ea = enc_answers(m.answers);
    let e = spec_encode_message(m);
    assert(eh.len() == 12);
    assert(e.subrange(0, 12) =~= eh);
    lemma_decode_header_at(m.header, e, 0);
    assert(e.subrange(12, 12 + eq.len() as int) =~= eq);
    lemma_decode_questions_all(m.questions, e, 12);
    let mid = 12 + eq.len() as int;
    assert(e.subrange(mid, mid + ea.len() as int) =~= ea);
    lemma_answers_err_none_all(m.answers);
    assert forall|j: int| 0 <= j < m.answers.len() implies answer_wf(#[trigger] m.answers[j]) by {
        assert(answer_encode_err(m.answers[j]) is None);
    }
    lemma_decode_answers_all(m.answers, e, mid);
}

/// A byte-for-byte copy; the codec needs one where a name is used both in a
/// question and in the answer built from it.
fn copy_bytes(v: &Vec<u8>) -> (r: Vec<u8>)
    ensures
        r@ == v@,
{
    let mut r: Vec<u8> = Vec::new();
    let mut k: usize = 0;
    while k < v.len()
        invariant
            k <= v@.len(),
            r@ == v@.subrange(0, k as int),
        decreases v@.len() - k,
    {
        r.push(v[k]);
        k = k + 1;
    }
    proof {
        assert(v@.subrange(0, v@.len() as int) =~= v@);
    }
    r
}

impl DnsMessage {
    pub fn new(header: DnsHeader, questions: Vec<DnsQuestion>, answers: Vec<DnsAnswer>) -> (r:
        DnsMessage)
        ensures
            r@ == (MessageV {
                header,
                questions: questions@.map_values(|q: DnsQuestion| q@),
                answers: answers@.map_values(|a: DnsAnswer| a@),
            }),
    {
        DnsMessage { header, questions, answers }
    }

    /// Encodes the header, then every question, then every answer. The
    /// count fields must agree with the sequences; the error, if any, is the
    /// first failing record's, questions before answers.
    pub fn to_be_bytes(&self) -> (r: Result<Vec<u8>, DnsError>)
        requires
            self@.header.wf(),
            counts_ok(self@),
        ensures
            (match r {
                Ok(v) => message_encode_err(self@) is None && v@ == spec_encode_message(self@),
                Err(e) => message_encode_err(self@) == Some(e),
            }),
    {
        let ghost qsv = self@.questions;
        let ghost ansv = self@.answers;
        let mut bytes = self.header.to_be_bytes();
        let mut i: usize = 0;
        while i < self.questions.len()
            invariant
                i <= qsv.len(),
                qsv == self@.questions,
                ansv == self@.answers,
                self@.header.wf(),
                forall|j: int| 0 <= j < i ==> question_wf(#[trigger] qsv[j]),
                bytes@ == spec_encode_header(self@.header) + enc_questions(qsv.take(i as int)),
            decreases qsv.len() - i,
        {
            proof {
                assert(qsv[i as int] == self.questions@[i as int]@);
            }
            match self.questions[i].to_be_bytes() {
                Ok(qb) => {
                    let mut qb = qb;
                    bytes.append(&mut qb);
                    proof {
                        lemma_enc_questions_snoc(qsv, i as int);
                    }
                },
                Err(e) => {
                    proof {
                        assert(!question_wf(qsv[i as int]));
                    }
                    return Err(e);
                },
            }
            i = i + 1;
        }
        proof {
            assert(qsv.take(qsv.len() as int) =~= qsv);
        }
        let ghost fixed = spec_encode_header(self@.header) + enc_questions(qsv);
        let mut i: usize = 0;
        while i < self.answers.len()
            invariant
                i <= ansv.len(),
                qsv == self@.questions,
                ansv == self@.answers,
                self@.header.wf(),
                questions_encode_ok(qsv),
                forall|j: int| 0 <= j < i ==> answer_encode_err(#[trigger] ansv[j]) is None,
                bytes@ == fixed + enc_answers(ansv.take(i as int)),
                fixed == spec_encode_header(self@.header) + enc_questions(qsv),
            decreases ansv.len() - i,
        {
            proof {
                assert(ansv[i as int] == self.answers@[i as int]@);
            }
            match self.answers[i].to_be_bytes() {
                Ok(ab) => {
                    let mut ab = ab;
                    bytes.append(&mut ab);
                    proof {
                        lemma_enc_answers_snoc(ansv, i as int);
                    }
                },
                Err(e) => {
                    proof {
                        lemma_answers_err_at(ansv, i as int);
                    }
                    return Err(e);
                },
            }
            i = i + 1;
        }
        proof {
            assert(ansv.take(ansv.len() as int) =~= ansv);
            lemma_answers_err_none(ansv);
            assert(bytes@ =~= spec_encode_message(self@));
        }
        Ok(bytes)
    }

    /// Decodes a whole datagram: the header at its start, then as many
    /// questions and answers as the decoded counts declare. The returned
    /// message satisfies `counts_ok` by construction.
    pub fn read(buf: &Vec<u8>) -> (r: Result<DnsMessage, DnsError>)
        ensures
            (match r {
                Ok(m) => spec_decode_message(buf@) == Ok::<MessageV, DnsError>(m@) && counts_ok(m@)
                    && m@.header.wf(),
                Err(e) => spec_decode_message(buf@) == Err::<MessageV, DnsError>(e),
            }),
    {
        let (header, start) = match DnsHeader::read(buf, 0) {
            Ok(x) => x,
            Err(e) => {
                return Err(e);
            },
        };
        let qd = header.qdcount;
        let an = header.ancount;
        let mut questions: Vec<DnsQuestion> = Vec::new();
        let mut pos = start;
        let mut i: u16 = 0;
        while i < qd
            invariant
                i <= qd,
                spec_decode_header(buf@, 0) == Ok::<(DnsHeader, int), DnsError>(
                    (header, start as int),
                ),
                header.wf(),
                qd == header.qdcount,
                spec_decode_questions(buf@, start as int, qd as int) == (match spec_decode_questions(
                    buf@,
                    pos as int,
                    qd as int - i as int,
                ) {
                    Ok(t) => Ok::<(Seq<QuestionV>, int), DnsError>(
                        (questions@.map_values(|q: DnsQuestion| q@) + t.0, t.1),
                    ),
                    Err(e) => Err::<(Seq<QuestionV>, int), DnsError>(e),
                }),
                questions@.len() == i as int,
            decreases qd - i,
        {
            let ghost acc = questions@.map_values(|q: DnsQuestion| q@);
            match DnsQuestion::read(buf, pos) {
                Ok((q, p)) => {
                    proof {
                        let rest = spec_decode_questions(buf@, p as int, qd as int - i as int - 1);
                        if rest is Ok {
                            assert(acc + (seq![q@] + rest->Ok_0.0) =~= (acc + seq![q@])
                                + rest->Ok_0.0);
                        }
                    }
                    questions.push(q);
                    proof {
                        assert(questions@.map_values(|q: DnsQuestion| q@) =~= acc + seq![q@]);
                    }
                    pos = p;
                },
                Err(e) => {
                    return Err(e);
                },
            }
            i = i + 1;
        }
        proof {
            let whole = questions@.map_values(|q: DnsQuestion| q@);
            assert(whole + Seq::<QuestionV>::empty() =~= whole);
        }
        let mut answers: Vec<DnsAnswer> = Vec::new();
        let mut i: u16 = 0;
        while i < an
            invariant
                i <= an,
                header.wf(),
                spec_decode_message(buf@) == (match spec_decode_answers(
                    buf@,
                    pos as int,
                    an as int - i as int,
                ) {
                    Ok(t) => Ok::<MessageV, DnsError>(
                        MessageV {
                            header,
                            questions: questions@.map_values(|q: DnsQuestion| q@),
                            answers: answers@.map_values(|a: DnsAnswer| a@) + t.0,
                        },
                    ),
                    Err(e) => Err::<MessageV, DnsError>(e),
                }),
                answers@.len() == i as int,
                questions@.len() == qd as int,
            decreases an - i,
        {
            let ghost acc = answers@.map_values(|a: DnsAnswer| a@);
            match DnsAnswer::read(buf, pos) {
                Ok((a, p)) => {
                    proof {
                        let rest = spec_decode_answers(buf@, p as int, an as int - i as int - 1);
                        if rest is Ok {
                            assert(acc + (seq![a@] + rest->Ok_0.0) =~= (acc + seq![a@])
                                + rest->Ok_0.0);
                        }
                    }
                    answers.push(a);
                    proof {
                        assert(answers@.map_values(|a: DnsAnswer| a@) =~= acc + seq![a@]);
                    }
                    pos = p;
                },
                Err(e) => {
                    return Err(e);
                },
            }
            i = i + 1;
        }
        proof {
            let whole = answers@.map_values(|a: DnsAnswer| a@);
            assert(whole + Seq::<AnswerV>::empty() =~= whole);
        }
        Ok(DnsMessage { header, questions, answers })
    }
}

/// The header of the response to a query: same ID and OPCODE, QR set, RD
/// copied, everything else cleared, RCODE `NoError` for a standard query and
/// `NotImplemented` for any other OPCODE, and counts fixed at one question
/// and one answer.
pub open spec fn spec_response_header(q: DnsHeader) -> DnsHeader {
    DnsHeader {
        id: q.id,
        qr: true,
        opcode: q.opcode,
        aa: false,
        tc: false,
        rd: q.rd,
        ra: false,
        z: false,
        rcode: if q.opcode == 0 {
            ResponseCode::NoError
        } else {
            ResponseCode::NotImplemented
        },
        qdcount: 1,
        ancount: 1,
        nscount: 0,
        arcount: 0,
    }
}

/// The synthesized answer for a question name: type A, class IN, a TTL of
/// 60 seconds and a fixed 4-byte address payload.
pub open spec fn spec_answer_for(name: Seq<u8>) -> AnswerV {
    AnswerV {
        name,
        rtype: RecordType::A,
        class: RecordClass::IN,
        ttl: 60,
        length: 4,
        data: seq![8u8, 8u8, 8u8, 8u8],
    }
}

/// The response message to a query: the response header, the echoed
/// question, and one synthesized answer for its name.
pub open spec fn spec_build_response(h: DnsHeader, q: QuestionV) -> MessageV {
    MessageV {
        header: spec_response_header(h),
        questions: seq![q],
        answers: seq![spec_answer_for(q.name)],
    }
}

/// What answering a datagram yields: decode the header and the first
/// question, build the response, encode it. Decode errors pass through; an
/// encode error arises only when the echoed name cannot be re-encoded.
pub open spec fn spec_handle_query(buf: Seq<u8>) -> Result<Seq<u8>, DnsError> {
    match spec_decode_header(buf, 0) {
        Err(e) => Err(e),
        Ok((h, p)) => match spec_decode_question(buf, p) {
            Err(e) => Err(e),
            Ok((q, _end)) => {
                let m = spec_build_response(h, q);
                match message_encode_err(m) {
                    Some(e) => Err(e),
                    None => Ok(spec_encode_message(m)),
                }
            },
        },
    }
}

/// Builds the response message for a decoded query header and its first
/// question. The RCODE is `NoError` exactly when the query's OPCODE is zero
/// and `NotImplemented` otherwise; the counts always match the one question
/// and one answer carried.
pub fn build_response(header: &DnsHeader, question: DnsQuestion) -> (r: DnsMessage)
    ensures
        r@ == spec_build_response(*header, question@),
        counts_ok(r@),
        header.wf() ==> r@.header.wf(),
        r@.header.rcode == (if header.opcode == 0 {
            ResponseCode::NoError
        } else {
            ResponseCode::NotImplemented
        }),
{
    let rcode = if header.opcode == 0 {
        ResponseCode::NoError
    } else {
        ResponseCode::NotImplemented
    };
    let rh = DnsHeader {
        id: header.id,
        qr: true,
        opcode: header.opcode,
        aa: false,
        tc: false,
        rd: header.rd,
        ra: false,
        z: false,
        rcode,
        qdcount: 1,
        ancount: 1,
        nscount: 0,
        arcount: 0,
    };
    let answer = DnsAnswer {
        name: copy_bytes(&question.name),
        rtype: RecordType::A,
        class: RecordClass::IN,
        ttl: 60,
        length: 4,
        data: vec![8u8, 8u8, 8u8, 8u8],
    };
    let ghost qv = question@;
    let ghost av = answer@;
    let r = DnsMessage { header: rh, questions: vec![question], answers: vec![answer] };
    proof {
        assert(r@.questions =~= seq![qv]);
        assert(r@.answers =~= seq![av]);
        assert(av == spec_answer_for(qv.name));
    }
    r
}

/// Decodes the header and first question of an inbound datagram and encodes
/// the response to it, as the server loop does for each datagram.
pub fn handle_query(buf: &Vec<u8>) -> (r: Result<Vec<u8>, DnsError>)
    ensures
        (match r {
            Ok(v) => spec_handle_query(buf@) == Ok::<Seq<u8>, DnsError>(v@),
            Err(e) => spec_handle_query(buf@) == Err::<Seq<u8>, DnsError>(e),
        }),
{
    let (header, pos) = match DnsHeader::read(buf, 0) {
        Ok(x) => x,
        Err(e) => {
            return Err(e);
        },
    };
    let (question, _end) = match DnsQuestion::read(buf, pos) {
        Ok(x) => x,
        Err(e) => {
            return Err(e);
        },
    };
    let response = build_response(&header, question);
    response.to_be_bytes()
}

} // verus!
