//! The domain-name label codec.
//!
//! A name is a dot-separated byte string such as `www.example.com`. On the
//! wire each label is prefixed by one length byte (1 through 63) and the
//! sequence ends with a zero-length byte. A length byte whose top two bits
//! are set is a compression pointer, which this codec rejects rather than
//! misreads.

use vstd::prelude::*;
use crate::err::DnsError;

verus! {

/// The separator between labels in the textual form of a name.
pub const DOT: u8 = 0x2e;

/// The labels of a name, split on `DOT`. An empty name yields one empty
/// label, so the result always holds at least one label.
pub open spec fn split_labels(name: Seq<u8>) -> Seq<Seq<u8>>
    decreases name.len(),
{
    if name.len() == 0 {
        seq![Seq::<u8>::empty()]
    } else if name[0] == DOT {
        seq![Seq::<u8>::empty()] + split_labels(name.drop_first())
    } else {
        let rest = split_labels(name.drop_first());
        seq![seq![name[0]] + rest[0]] + rest.drop_first()
    }
}

/// The labels joined back into a dot-separated name.
pub open spec fn join_labels(ls: Seq<Seq<u8>>) -> Seq<u8>
    decreases ls.len(),
{
    if ls.len() == 0 {
        Seq::<u8>::empty()
    } else if ls.len() == 1 {
        ls[0]
    } else {
        ls[0] + seq![DOT] + join_labels(ls.drop_first())
    }
}

/// A label fits on the wire: 1 through 63 bytes.
pub open spec fn label_ok(l: Seq<u8>) -> bool {
    1 <= l.len() <= 63
}

pub open spec fn labels_wf(ls: Seq<Seq<u8>>) -> bool {
    forall|i: int| 0 <= i < ls.len() ==> label_ok(#[trigger] ls[i])
}

/// A name can be encoded: every label it splits into is 1 through 63 bytes.
pub open spec fn name_wf(name: Seq<u8>) -> bool {
    labels_wf(split_labels(name))
}

/// The wire form of a label sequence: each label length-prefixed, then a
/// zero-length terminator.
pub open spec fn enc_labels(ls: Seq<Seq<u8>>) -> Seq<u8>
    decreases ls.len(),
{
    if ls.len() == 0 {
        seq![0u8]
    } else {
        seq![ls[0].len() as u8] + ls[0] + enc_labels(ls.drop_first())
    }
}

/// The wire form of a name.
pub open spec fn spec_encode_name(name: Seq<u8>) -> Seq<u8> {
    enc_labels(split_labels(name))
}

/// The label sequence read from `buf` starting at `pos`, with the position
/// just past the zero-length terminator; or the exact error:
/// `UnsupportedCompression` for a pointer tag, `InvalidName` for a reserved
/// length tag, a length past the end of the buffer, or a missing terminator.
pub open spec fn spec_decode_labels(buf: Seq<u8>, pos: int) -> Result<(Seq<Seq<u8>>, int), DnsError>
    decreases buf.len() - pos,
{
    if pos < 0 || pos >= buf.len() {
        Err(DnsError::InvalidName)
    } else if buf[pos] == 0 {
        Ok((Seq::<Seq<u8>>::empty(), pos + 1))
    } else if buf[pos] >= 0xc0 {
        Err(DnsError::UnsupportedCompression)
    } else if buf[pos] > 63 {
        Err(DnsError::InvalidName)
    } else if pos + 1 + (buf[pos] as int) > buf.len() {
        Err(DnsError::InvalidName)
    } else {
        match spec_decode_labels(buf, pos + 1 + (buf[pos] as int)) {
            Ok((ls, end)) => Ok(
                (seq![buf.subrange(pos + 1, pos + 1 + (buf[pos] as int))] + ls, end),
            ),
            Err(e) => Err(e),
        }
    }
}

/// The dot-separated name read from `buf` starting at `pos`.
pub open spec fn spec_decode_name(buf: Seq<u8>, pos: int) -> Result<(Seq<u8>, int), DnsError> {
    match spec_decode_labels(buf, pos) {
        Ok((ls, end)) => Ok((join_labels(ls), end)),
        Err(e) => Err(e),
    }
}

/// Splitting a name and joining the pieces gives the name back.
pub proof fn lemma_join_split(name: Seq<u8>)
    ensures
        join_labels(split_labels(name)) == name,
    decreases name.len(),
{
    if name.len() == 0 {
        assert(join_labels(split_labels(name)) =~= name);
    } else if name[0] == DOT {
        lemma_join_split(name.drop_first());
        let rest = split_labels(name.drop_first());
        let ls = split_labels(name);
        assert(ls.drop_first() =~~= rest);
        assert(join_labels(ls) =~= name);
    } else {
        lemma_join_split(name.drop_first());
        let rest = split_labels(name.drop_first());
        let ls = split_labels(name);
        if rest.len() == 1 {
            assert(ls.len() == 1);
            assert(join_labels(ls) == ls[0]);
            assert(join_labels(rest) == rest[0]);
            assert(ls[0] == seq![name[0]] + rest[0]);
            assert(seq![name[0]] + name.drop_first() =~= name);
        } else {
            assert(ls.len() >= 2);
            assert(ls.drop_first() =~~= rest.drop_first());
            assert(join_labels(rest) == rest[0] + seq![DOT] + join_labels(rest.drop_first()));
            assert(join_labels(ls) == ls[0] + seq![DOT] + join_labels(ls.drop_first()));
            assert(ls[0] == seq![name[0]] + rest[0]);
            assert(name.drop_first() == rest[0] + seq![DOT] + join_labels(rest.drop_first()));
            assert(join_labels(ls) =~= seq![name[0]] + name.drop_first());
            assert(seq![name[0]] + name.drop_first() =~= name);
        }
    }
}

/// How `split_labels` looks from its first label: if the bytes before `i`
/// hold no dot and `i` is the end of the name or a dot, the first label is
/// exactly `name.take(i)`.
proof fn lemma_split_prefix(name: Seq<u8>, i: int)
    requires
        0 <= i <= name.len(),
        forall|j: int| 0 <= j < i ==> name[j] != DOT,
        i < name.len() ==> name[i] == DOT,
    ensures
        i == name.len() ==> split_labels(name) == seq![name],
        i < name.len() ==> split_labels(name) == seq![name.take(i)] + split_labels(
            name.skip(i + 1),
        ),
    decreases name.len(),
{
    if name.len() == 0 {
        assert(split_labels(name) =~~= seq![name]);
    } else if i == 0 {
        assert(name[0] == DOT);
        assert(name.take(0) =~= Seq::<u8>::empty());
        assert(name.skip(1) =~= name.drop_first());
        assert(split_labels(name) =~~= seq![name.take(0)] + split_labels(name.skip(1)));
    } else {
        let d = name.drop_first();
        assert forall|j: int| 0 <= j < i - 1 implies d[j] != DOT by {
            assert(name[j + 1] != DOT);
        }
        assert(i - 1 < d.len() ==> d[i - 1] == DOT);
        lemma_split_prefix(d, i - 1);
        let rest = split_labels(d);
        if i == name.len() {
            assert(rest == seq![d]);
            assert(seq![name[0]] + d =~= name);
            assert(split_labels(name) =~~= seq![name]);
        } else {
            assert(rest == seq![d.take(i - 1)] + split_labels(d.skip(i)));
            assert(seq![name[0]] + d.take(i - 1) =~= name.take(i));
            assert(d.skip(i) =~= name.skip(i + 1));
            assert(rest.drop_first() =~~= split_labels(name.skip(i + 1)));
            assert(split_labels(name) =~~= seq![name.take(i)] + split_labels(name.skip(i + 1)));
        }
    }
}

/// Whatever `spec_decode_labels` accepts is well formed: every decoded label
/// has 1 through 63 bytes, and the final position lies past `pos` and inside
/// the buffer.
proof fn lemma_decode_labels_wf(buf: Seq<u8>, pos: int)
    ensures
        spec_decode_labels(buf, pos) matches Ok((ls, end)) ==> labels_wf(ls) && pos < end
            <= buf.len(),
    decreases buf.len() - pos,
{
    if 0 <= pos < buf.len() && buf[pos] != 0 && buf[pos] < 0xc0 && buf[pos] <= 63 && pos + 1 + (
    buf[pos] as int) <= buf.len() {
        lemma_decode_labels_wf(buf, pos + 1 + (buf[pos] as int));
        if spec_decode_labels(buf, pos) is Ok {
            let ls = spec_decode_labels(buf, pos)->Ok_0.0;
            let lab = buf.subrange(pos + 1, pos + 1 + (buf[pos] as int));
            let tail = spec_decode_labels(buf, pos + 1 + (buf[pos] as int))->Ok_0.0;
            assert forall|i: int| 0 <= i < ls.len() implies label_ok(#[trigger] ls[i]) by {
                if i == 0 {
                    assert(ls[0] == lab);
                } else {
                    assert(ls[i] == tail[i - 1]);
                }
            }
        }
    }
}

/// Joining well-formed labels yields an empty name only for an empty label
/// sequence.
proof fn lemma_join_len(ls: Seq<Seq<u8>>)
    requires
        labels_wf(ls),
    ensures
        (join_labels(ls).len() == 0) <==> (ls.len() == 0),
{
    if ls.len() > 0 {
        assert(label_ok(ls[0]));
    }
}

/// Decoding reads back exactly the labels that were encoded, wherever the
/// encoding sits in a larger buffer and whatever follows it.
pub proof fn lemma_decode_encode_labels(ls: Seq<Seq<u8>>, buf: Seq<u8>, pos: int)
    requires
        labels_wf(ls),
        0 <= pos,
        pos + enc_labels(ls).len() <= buf.len(),
        buf.subrange(pos, pos + enc_labels(ls).len()) == enc_labels(ls),
    ensures
        spec_decode_labels(buf, pos) == Ok::<(Seq<Seq<u8>>, int), DnsError>(
            (ls, pos + enc_labels(ls).len()),
        ),
    decreases ls.len(),
{
    let e = enc_labels(ls);
    assert(forall|k: int|
        0 <= k < e.len() ==> buf[pos + k] == #[trigger] (buf.subrange(pos, pos + e.len())[k]));
    if ls.len() == 0 {
        assert(buf[pos] == e[0]);
        assert(e[0] == 0);
        assert(ls =~= Seq::<Seq<u8>>::empty());
        assert(spec_decode_labels(buf, pos) == Ok::<(Seq<Seq<u8>>, int), DnsError>(
            (Seq::<Seq<u8>>::empty(), pos + 1),
        ));
    } else {
        let l0 = ls[0];
        let rest = ls.drop_first();
        let erest = enc_labels(rest);
        assert(label_ok(l0));
        assert(e == seq![l0.len() as u8] + l0 + erest);
        assert(buf[pos] == e[0]);
        assert(e[0] == l0.len() as u8);
        assert(1 <= buf[pos] <= 63);
        let next = pos + 1 + (buf[pos] as int);
        assert forall|k: int| 0 <= k < l0.len() implies buf[pos + 1 + k] == l0[k] by {
            assert(buf[pos + (1 + k)] == e[1 + k]);
            assert(e[1 + k] == l0[k]);
        }
        assert(buf.subrange(pos + 1, pos + 1 + l0.len() as int) =~= l0);
        assert forall|i: int| 0 <= i < rest.len() implies label_ok(#[trigger] rest[i]) by {
            assert(rest[i] == ls[i + 1]);
        }
        assert forall|k: int| 0 <= k < erest.len() implies buf[next + k] == erest[k] by {
            assert(buf[pos + (1 + l0.len() + k)] == e[1 + l0.len() + k]);
            assert(e[1 + l0.len() + k] == erest[k]);
        }
        assert(buf.subrange(next, next + erest.len() as int) =~= erest);
        lemma_decode_encode_labels(rest, buf, next);
        assert(seq![buf.subrange(pos + 1, pos + 1 + (buf[pos] as int))] + rest =~~= ls);
        assert(next + erest.len() == pos + e.len());
    }
}

/// The round-trip law for names: encoding a well-formed name and decoding
/// the bytes gives back the same name and consumes the whole encoding.
pub proof fn lemma_name_round_trip(name: Seq<u8>)
    requires
        name_wf(name),
    ensures
        spec_decode_name(spec_encode_name(name), 0) == Ok::<(Seq<u8>, int), DnsError>(
            (name, spec_encode_name(name).len() as int),
        ),
{
    let ls = split_labels(name);
    let e = enc_labels(ls);
    assert(e.subrange(0, e.len() as int) =~= e);
    lemma_decode_encode_labels(ls, e, 0);
    lemma_join_split(name);
}

/// Encodes the name starting at byte `start`, handling the label that runs
/// to the next dot and recursing past it.
fn encode_from(name: &Vec<u8>, start: usize) -> (r: Result<Vec<u8>, DnsError>)
    requires
        start <= name@.len(),
    ensures
        (match r {
            Ok(v) => labels_wf(split_labels(name@.skip(start as int))) && v@ == enc_labels(
                split_labels(name@.skip(start as int)),
            ),
            Err(e) => !labels_wf(split_labels(name@.skip(start as int))) && e
                == DnsError::InvalidName,
        }),
    decreases name@.len() - start,
{
    let n = name.len();
    let ghost suffix = name@.skip(start as int);
    let mut end = start;
    while end < n && name[end] != DOT
        invariant
            start <= end <= n,
            n == name@.len(),
            forall|j: int| start <= j < end ==> name@[j] != DOT,
        decreases n - end,
    {
        end = end + 1;
    }
    proof {
        assert forall|j: int| 0 <= j < end - start implies suffix[j] != DOT by {
            assert(name@[start + j] != DOT);
        }
        assert(end - start < suffix.len() ==> suffix[end - start] == DOT);
        lemma_split_prefix(suffix, end - start);
    }
    let len = end - start;
    if len == 0 || len > 63 {
        proof {
            let ls = split_labels(suffix);
            if end == n {
                assert(ls[0] == suffix);
                assert(suffix.len() == len);
            } else {
                assert(ls[0] == suffix.take(len as int));
            }
            assert(!label_ok(ls[0]));
        }
        return Err(DnsError::InvalidName);
    }
    let mut v: Vec<u8> = Vec::new();
    v.push(len as u8);
    let mut k: usize = start;
    while k < end
        invariant
            start <= k <= end <= n,
            n == name@.len(),
            v@ == seq![len as u8] + name@.subrange(start as int, k as int),
        decreases end - k,
    {
        v.push(name[k]);
        k = k + 1;
    }
    proof {
        assert(name@.subrange(start as int, end as int) =~= suffix.take(end - start));
    }
    if end == n {
        v.push(0u8);
        proof {
            let ls = split_labels(suffix);
            assert(ls == seq![suffix]);
            assert(suffix.take(end - start) =~= suffix);
            assert(labels_wf(ls));
            assert(enc_labels(ls) == seq![suffix.len() as u8] + suffix + enc_labels(
                ls.drop_first(),
            ));
            assert(ls.drop_first() =~~= Seq::<Seq<u8>>::empty());
            assert(v@ =~= enc_labels(ls));
        }
        Ok(v)
    } else {
        match encode_from(name, end + 1) {
            Ok(tail) => {
                let mut tail = tail;
                v.append(&mut tail);
                proof {
                    let ls = split_labels(suffix);
                    let lab = suffix.take(end - start);
                    assert(suffix.skip(end - start + 1) =~= name@.skip(end + 1));
                    assert(ls == seq![lab] + split_labels(name@.skip(end + 1)));
                    assert(ls.drop_first() =~~= split_labels(name@.skip(end + 1)));
                    assert forall|i: int| 0 <= i < ls.len() implies label_ok(
                        #[trigger] ls[i],
                    ) by {
                        if i > 0 {
                            assert(ls[i] == split_labels(name@.skip(end + 1))[i - 1]);
                        }
                    }
                    assert(v@ =~= enc_labels(ls));
                }
                Ok(v)
            },
            Err(e) => {
                proof {
                    let ls = split_labels(suffix);
                    assert(suffix.skip(end - start + 1) =~= name@.skip(end + 1));
                    assert(ls == seq![suffix.take(end - start)] + split_labels(
                        name@.skip(end + 1),
                    ));
                    let lsr = split_labels(name@.skip(end + 1));
                    let i = choose|i: int| 0 <= i < lsr.len() && !label_ok(#[trigger] lsr[i]);
                    assert(ls[i + 1] == lsr[i]);
                    assert(!labels_wf(ls));
                }
                Err(e)
            },
        }
    }
}

/// Encodes a dot-separated name into its wire form. Returns `InvalidName`
/// if and only if some label of the name is empty or longer than 63 bytes.
pub fn encode_name(name: &Vec<u8>) -> (r: Result<Vec<u8>, DnsError>)
    ensures
        (match r {
            Ok(v) => name_wf(name@) && v@ == spec_encode_name(name@),
            Err(e) => !name_wf(name@) && e == DnsError::InvalidName,
        }),
{
    proof {
        assert(name@.skip(0) =~= name@);
    }
    encode_from(name, 0)
}

/// Decodes the length-prefixed labels at `pos` into a dot-separated name,
/// returning the name and the position just past the terminator. Rejects a
/// compression pointer with `UnsupportedCompression`; a reserved length tag,
/// a truncated label or a missing terminator give `InvalidName`.
pub fn decode_name(buf: &Vec<u8>, pos: usize) -> (r: Result<(Vec<u8>, usize), DnsError>)
    ensures
        (match r {
            Ok(p) => spec_decode_name(buf@, pos as int) == Ok::<(Seq<u8>, int), DnsError>(
                (p.0@, p.1 as int),
            ) && pos < p.1 <= buf@.len(),
            Err(e) => spec_decode_name(buf@, pos as int) == Err::<(Seq<u8>, int), DnsError>(e),
        }),
    decreases buf@.len() - pos,
{
    let n = buf.len();
    if pos >= n {
        return Err(DnsError::InvalidName);
    }
    let l = buf[pos];
    if l == 0 {
        return Ok((Vec::new(), pos + 1));
    }
    if l >= 0xc0 {
        return Err(DnsError::UnsupportedCompression);
    }
    if l > 63 {
        return Err(DnsError::InvalidName);
    }
    let lu = l as usize;
    if lu > n - (pos + 1) {
        return Err(DnsError::InvalidName);
    }
    let next = pos + 1 + lu;
    match decode_name(buf, next) {
        Err(e) => Err(e),
        Ok((rest, end)) => {
            let ghost tail = spec_decode_labels(buf@, next as int)->Ok_0.0;
            proof {
                lemma_decode_labels_wf(buf@, next as int);
                lemma_join_len(tail);
            }
            let mut nm: Vec<u8> = Vec::new();
            let mut k: usize = pos + 1;
            while k < next
                invariant
                    pos + 1 <= k <= next <= n,
                    n == buf@.len(),
                    nm@ == buf@.subrange(pos + 1, k as int),
                decreases next - k,
            {
                nm.push(buf[k]);
                k = k + 1;
            }
            let ghost lab = buf@.subrange(pos + 1, pos + 1 + (buf@[pos as int] as int));
            if rest.len() > 0 {
                nm.push(DOT);
                let mut rest = rest;
                nm.append(&mut rest);
                proof {
                    assert(tail.len() > 0);
                    assert(join_labels(seq![lab] + tail) == (seq![lab] + tail)[0] + seq![DOT]
                        + join_labels((seq![lab] + tail).drop_first()));
                    assert((seq![lab] + tail).drop_first() =~~= tail);
                    assert(nm@ =~= join_labels(seq![lab] + tail));
                }
            } else {
                proof {
                    assert(tail.len() == 0);
                    assert((seq![lab] + tail).len() == 1);
                    assert(join_labels(seq![lab] + tail) == (seq![lab] + tail)[0]);
                    assert(nm@ =~= join_labels(seq![lab] + tail));
                }
            }
            Ok((nm, end))
        },
    }
}

} // verus!
