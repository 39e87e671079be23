//! The wire codec: encoding a message to bytes and decoding bytes to a
//! message, with an exact specification of both and a proof that decoding
//! inverts encoding.
//!
//! Encoding never emits compression pointers; decoding accepts them, follows
//! only pointers that aim strictly backwards, and rejects pointer loops.

use vstd::prelude::*;
use crate::msg::{
    DecodeError, Header, Message, MessageV, Question, QuestionV, Record, RecordV, msg_wf, name_wf,
    question_wf, record_wf,
};

verus! {

// ---------------------------------------------------------------------------
// Specification: encoding
// ---------------------------------------------------------------------------

/// Big-endian two-byte encoding.
pub open spec fn enc_u16(x: u16) -> Seq<u8> {
    seq![(x / 256) as u8, (x % 256) as u8]
}

/// Big-endian four-byte encoding.
pub open spec fn enc_u32(x: u32) -> Seq<u8> {
    seq![
        (x / 0x1000000) as u8,
        ((x / 0x10000) % 256) as u8,
        ((x / 256) % 256) as u8,
        (x % 256) as u8,
    ]
}

pub open spec fn enc_header(h: Header) -> Seq<u8> {
    enc_u16(h.id) + enc_u16(h.flags) + enc_u16(h.qdcount) + enc_u16(h.ancount) + enc_u16(
        h.nscount,
    ) + enc_u16(h.arcount)
}

/// A name is already in wire form, so it encodes as itself.
pub open spec fn enc_question(q: QuestionV) -> Seq<u8> {
    q.name + enc_u16(q.qtype) + enc_u16(q.qclass)
}

pub open spec fn enc_record(r: RecordV) -> Seq<u8> {
    r.name + enc_u16(r.rtype) + enc_u16(r.rclass) + enc_u32(r.ttl) + enc_u16(
        r.rdata.len() as u16,
    ) + r.rdata
}

pub open spec fn enc_questions(qs: Seq<QuestionV>) -> Seq<u8>
    decreases qs.len(),
{
    if qs.len() == 0 {
        Seq::empty()
    } else {
        enc_question(qs[0]) + enc_questions(qs.skip(1))
    }
}

pub open spec fn enc_records(rs: Seq<RecordV>) -> Seq<u8>
    decreases rs.len(),
{
    if rs.len() == 0 {
        Seq::empty()
    } else {
        enc_record(rs[0]) + enc_records(rs.skip(1))
    }
}

/// The bytes a well-formed message puts on the wire.
pub open spec fn spec_encode(m: MessageV) -> Seq<u8> {
    enc_header(m.header) + enc_questions(m.questions) + enc_records(m.answers) + enc_records(
        m.authority,
    ) + enc_records(m.additional)
}

// ---------------------------------------------------------------------------
// Specification: decoding
// ---------------------------------------------------------------------------

/// Big-endian read of two bytes at `pos`.
pub open spec fn spec_u16_at(s: Seq<u8>, pos: int) -> u16 {
    ((s[pos] as int) * 256 + (s[pos + 1] as int)) as u16
}

/// Big-endian read of four bytes at `pos`.
pub open spec fn spec_u32_at(s: Seq<u8>, pos: int) -> u32 {
    ((s[pos] as int) * 0x1000000 + (s[pos + 1] as int) * 0x10000 + (s[pos + 2] as int) * 256
        + (s[pos + 3] as int)) as u32
}

/// Parses a (possibly compressed) name starting at `pos`, yielding the name
/// in uncompressed wire form and the position just past the name's bytes in
/// the original stream (just past the first pointer, when one is taken).
///
/// A pointer must aim strictly backwards; a chain of more than `jumps`
/// pointers is rejected, so a caller passing `s.len()` as the budget rejects
/// exactly the pointer loops, since a loop-free chain visits each position at
/// most once.
pub open spec fn spec_parse_name(s: Seq<u8>, pos: int, jumps: nat) -> Result<
    (Seq<u8>, int),
    DecodeError,
>
    decreases jumps, s.len() - pos,
{
    if pos < 0 || pos >= s.len() {
        Err(DecodeError::Truncated)
    } else {
        let b = s[pos];
        if b == 0 {
            Ok((seq![0u8], pos + 1))
        } else if b < 64 {
            if pos + 1 + b > s.len() {
                Err(DecodeError::Truncated)
            } else {
                match spec_parse_name(s, pos + 1 + b, jumps) {
                    Ok((rest, end)) => Ok(
                        (seq![b] + s.subrange(pos + 1, pos + 1 + b) + rest, end),
                    ),
                    Err(e) => Err(e),
                }
            }
        } else if b >= 192 {
            if pos + 1 >= s.len() {
                Err(DecodeError::Truncated)
            } else {
                let target = (b - 192) * 256 + s[pos + 1];
                if jumps == 0 || target >= pos {
                    Err(DecodeError::Malformed)
                } else {
                    match spec_parse_name(s, target as int, (jumps - 1) as nat) {
                        Ok((rest, _)) => Ok((rest, pos + 2)),
                        Err(e) => Err(e),
                    }
                }
            }
        } else {
            Err(DecodeError::Malformed)
        }
    }
}

pub open spec fn spec_parse_question(s: Seq<u8>, pos: int) -> Result<
    (QuestionV, int),
    DecodeError,
> {
    match spec_parse_name(s, pos, s.len() as nat) {
        Err(e) => Err(e),
        Ok((name, p)) => if p + 4 > s.len() {
            Err(DecodeError::Truncated)
        } else {
            Ok(
                (
                    QuestionV { name, qtype: spec_u16_at(s, p), qclass: spec_u16_at(s, p + 2) },
                    p + 4,
                ),
            )
        },
    }
}

pub open spec fn spec_parse_record(s: Seq<u8>, pos: int) -> Result<(RecordV, int), DecodeError> {
    match spec_parse_name(s, pos, s.len() as nat) {
        Err(e) => Err(e),
        Ok((name, p)) => if p + 10 > s.len() {
            Err(DecodeError::Truncated)
        } else {
            let rdlen = spec_u16_at(s, p + 8) as int;
            if p + 10 + rdlen > s.len() {
                Err(DecodeError::Truncated)
            } else {
                Ok(
                    (
                        RecordV {
                            name,
                            rtype: spec_u16_at(s, p),
                            rclass: spec_u16_at(s, p + 2),
                            ttl: spec_u32_at(s, p + 4),
                            rdata: s.subrange(p + 10, p + 10 + rdlen),
                        },
                        p + 10 + rdlen,
                    ),
                )
            }
        },
    }
}

pub open spec fn spec_parse_questions(s: Seq<u8>, pos: int, n: nat) -> Result<
    (Seq<QuestionV>, int),
    DecodeError,
>
    decreases n,
{
    if n == 0 {
        Ok((Seq::empty(), pos))
    } else {
        match spec_parse_question(s, pos) {
            Err(e) => Err(e),
            Ok((q, p)) => match spec_parse_questions(s, p, (n - 1) as nat) {
                Err(e) => Err(e),
                Ok((qs, end)) => Ok((seq![q] + qs, end)),
            },
        }
    }
}

pub open spec fn spec_parse_records(s: Seq<u8>, pos: int, n: nat) -> Result<
    (Seq<RecordV>, int),
    DecodeError,
>
    decreases n,
{
    if n == 0 {
        Ok((Seq::empty(), pos))
    } else {
        match spec_parse_record(s, pos) {
            Err(e) => Err(e),
            Ok((r, p)) => match spec_parse_records(s, p, (n - 1) as nat) {
                Err(e) => Err(e),
                Ok((rs, end)) => Ok((seq![r] + rs, end)),
            },
        }
    }
}

/// What decoding a buffer yields. Bytes after the last declared record are
/// ignored, as resolvers conventionally do.
pub open spec fn spec_decode(s: Seq<u8>) -> Result<MessageV, DecodeError> {
    if s.len() < 12 {
        Err(DecodeError::Truncated)
    } else {
        let header = Header {
            id: spec_u16_at(s, 0),
            flags: spec_u16_at(s, 2),
            qdcount: spec_u16_at(s, 4),
            ancount: spec_u16_at(s, 6),
            nscount: spec_u16_at(s, 8),
            arcount: spec_u16_at(s, 10),
        };
        match spec_parse_questions(s, 12, header.qdcount as nat) {
            Err(e) => Err(e),
            Ok((questions, p1)) => match spec_parse_records(s, p1, header.ancount as nat) {
                Err(e) => Err(e),
                Ok((answers, p2)) => match spec_parse_records(s, p2, header.nscount as nat) {
                    Err(e) => Err(e),
                    Ok((authority, p3)) => match spec_parse_records(
                        s,
                        p3,
                        header.arcount as nat,
                    ) {
                        Err(e) => Err(e),
                        Ok((additional, _)) => Ok(
                            MessageV { header, questions, answers, authority, additional },
                        ),
                    },
                },
            },
        }
    }
}

// ---------------------------------------------------------------------------
// Executable encoding
// ---------------------------------------------------------------------------

fn push_u16(out: &mut Vec<u8>, x: u16)
    ensures
        final(out)@ == old(out)@ + enc_u16(x),
{
    out.push((x / 256) as u8);
    out.push((x % 256) as u8);
    assert(out@ =~= old(out)@ + enc_u16(x));
}

fn push_u32(out: &mut Vec<u8>, x: u32)
    ensures
        final(out)@ == old(out)@ + enc_u32(x),
{
    out.push((x / 0x1000000) as u8);
    out.push(((x / 0x10000) % 256) as u8);
    out.push(((x / 256) % 256) as u8);
    out.push((x % 256) as u8);
    assert(out@ =~= old(out)@ + enc_u32(x));
}

fn push_bytes(out: &mut Vec<u8>, b: &Vec<u8>)
    ensures
        final(out)@ == old(out)@ + b@,
{
    let mut i: usize = 0;
    while i < b.len()
        invariant
            i <= b.len(),
            out@ == old(out)@ + b@.subrange(0, i as int),
        decreases b.len() - i,
    {
        out.push(b[i]);
        assert(out@ =~= old(out)@ + b@.subrange(0, i + 1 as int));
        i = i + 1;
    }
    assert(out@ =~= old(out)@ + b@);
}

fn push_question(out: &mut Vec<u8>, q: &Question)
    ensures
        final(out)@ == old(out)@ + enc_question(q@),
{
    push_bytes(out, &q.name);
    push_u16(out, q.qtype);
    push_u16(out, q.qclass);
    assert(out@ =~= old(out)@ + enc_question(q@));
}

fn push_record(out: &mut Vec<u8>, r: &Record)
    requires
        r.rdata@.len() <= 0xffff,
    ensures
        final(out)@ == old(out)@ + enc_record(r@),
{
    push_bytes(out, &r.name);
    push_u16(out, r.rtype);
    push_u16(out, r.rclass);
    push_u32(out, r.ttl);
    push_u16(out, r.rdata.len() as u16);
    push_bytes(out, &r.rdata);
    assert(out@ =~= old(out)@ + enc_record(r@));
}

proof fn lemma_enc_questions_snoc(qs: Seq<QuestionV>, q: QuestionV)
    ensures
        enc_questions(qs.push(q)) == enc_questions(qs) + enc_question(q),
    decreases qs.len(),
{
    if qs.len() == 0 {
        assert(qs.push(q)[0] == q);
        assert(qs.push(q).skip(1) =~= Seq::<QuestionV>::empty());
        assert(enc_questions(Seq::<QuestionV>::empty()) =~= Seq::<u8>::empty());
        assert(enc_questions(qs.push(q)) =~= enc_questions(qs) + enc_question(q));
    } else {
        assert(qs.push(q)[0] == qs[0]);
        assert(qs.push(q).skip(1) =~= qs.skip(1).push(q));
        lemma_enc_questions_snoc(qs.skip(1), q);
        assert(enc_questions(qs.push(q)) =~= enc_questions(qs) + enc_question(q));
    }
}

proof fn lemma_enc_records_snoc(rs: Seq<RecordV>, r: RecordV)
    ensures
        enc_records(rs.push(r)) == enc_records(rs) + enc_record(r),
    decreases rs.len(),
{
    if rs.len() == 0 {
        assert(rs.push(r)[0] == r);
        assert(rs.push(r).skip(1) =~= Seq::<RecordV>::empty());
        assert(enc_records(Seq::<RecordV>::empty()) =~= Seq::<u8>::empty());
        assert(enc_records(rs.push(r)) =~= enc_records(rs) + enc_record(r));
    } else {
        assert(rs.push(r)[0] == rs[0]);
        assert(rs.push(r).skip(1) =~= rs.skip(1).push(r));
        lemma_enc_records_snoc(rs.skip(1), r);
        assert(enc_records(rs.push(r)) =~= enc_records(rs) + enc_record(r));
    }
}

fn push_records(out: &mut Vec<u8>, rs: &Vec<Record>)
    requires
        forall|i: int| 0 <= i < rs@.len() ==> record_wf(#[trigger] rs@[i]@),
    ensures
        final(out)@ == old(out)@ + enc_records(rs@.map_values(|r: Record| r@)),
{
    let ghost rv = rs@.map_values(|r: Record| r@);
    assert(rv.take(0) =~= Seq::<RecordV>::empty());
    assert(out@ =~= old(out)@ + enc_records(rv.take(0)));
    let mut i: usize = 0;
    while i < rs.len()
        invariant
            i <= rs.len(),
            rv == rs@.map_values(|r: Record| r@),
            forall|j: int| 0 <= j < rs@.len() ==> record_wf(#[trigger] rs@[j]@),
            out@ == old(out)@ + enc_records(rv.take(i as int)),
        decreases rs.len() - i,
    {
        assert(rv[i as int] == rs@[i as int]@);
        push_record(out, &rs[i]);
        proof {
            assert(rv.take(i as int).push(rv[i as int]) =~= rv.take(i + 1));
            lemma_enc_records_snoc(rv.take(i as int), rv[i as int]);
            assert(out@ =~= old(out)@ + enc_records(rv.take(i + 1)));
        }
        i = i + 1;
    }
    assert(rv.take(rs@.len() as int) =~= rv);
}

/// Encodes a well-formed message into its wire bytes, without compression.
pub fn encode(m: &Message) -> (out: Vec<u8>)
    requires
        msg_wf(m@),
    ensures
        out@ == spec_encode(m@),
{
    let mut out: Vec<u8> = Vec::new();
    push_u16(&mut out, m.header.id);
    push_u16(&mut out, m.header.flags);
    push_u16(&mut out, m.header.qdcount);
    push_u16(&mut out, m.header.ancount);
    push_u16(&mut out, m.header.nscount);
    push_u16(&mut out, m.header.arcount);
    assert(out@ =~= enc_header(m.header));
    let ghost after_header = out@;

    let ghost qv = m.questions@.map_values(|q: Question| q@);
    assert(qv.take(0) =~= Seq::<QuestionV>::empty());
    assert(out@ =~= after_header + enc_questions(qv.take(0)));
    let mut i: usize = 0;
    while i < m.questions.len()
        invariant
            i <= m.questions.len(),
            qv == m.questions@.map_values(|q: Question| q@),
            out@ == after_header + enc_questions(qv.take(i as int)),
        decreases m.questions.len() - i,
    {
        assert(qv[i as int] == m.questions@[i as int]@);
        push_question(&mut out, &m.questions[i]);
        proof {
            assert(qv.take(i as int).push(qv[i as int]) =~= qv.take(i + 1));
            lemma_enc_questions_snoc(qv.take(i as int), qv[i as int]);
            assert(out@ =~= after_header + enc_questions(qv.take(i + 1)));
        }
        i = i + 1;
    }
    assert(qv.take(m.questions@.len() as int) =~= qv);

    proof {
        assert forall|j: int| 0 <= j < m.answers@.len() implies record_wf(
            #[trigger] m.answers@[j]@,
        ) by {
            assert(m@.answers[j] == m.answers@[j]@);
        }
        assert forall|j: int| 0 <= j < m.authority@.len() implies record_wf(
            #[trigger] m.authority@[j]@,
        ) by {
            assert(m@.authority[j] == m.authority@[j]@);
        }
        assert forall|j: int| 0 <= j < m.additional@.len() implies record_wf(
            #[trigger] m.additional@[j]@,
        ) by {
            assert(m@.additional[j] == m.additional@[j]@);
        }
    }
    push_records(&mut out, &m.answers);
    push_records(&mut out, &m.authority);
    push_records(&mut out, &m.additional);
    assert(out@ =~= spec_encode(m@));
    out
}

// ---------------------------------------------------------------------------
// Executable decoding
// ---------------------------------------------------------------------------

fn read_u16(s: &Vec<u8>, pos: usize) -> (r: u16)
    requires
        pos + 2 <= s@.len(),
    ensures
        r == spec_u16_at(s@, pos as int),
{
    let n = s.len();
    assert(pos + 2 <= n);
    (s[pos] as u16) * 256 + (s[pos + 1] as u16)
}

fn read_u32(s: &Vec<u8>, pos: usize) -> (r: u32)
    requires
        pos + 4 <= s@.len(),
    ensures
        r == spec_u32_at(s@, pos as int),
{
    let n = s.len();
    assert(pos + 4 <= n);
    (s[pos] as u32) * 0x1000000 + (s[pos + 1] as u32) * 0x10000 + (s[pos + 2] as u32) * 256 + (s[
        pos + 3
    ] as u32)
}

fn copy_range(s: &Vec<u8>, start: usize, end: usize) -> (r: Vec<u8>)
    requires
        start <= end <= s@.len(),
    ensures
        r@ == s@.subrange(start as int, end as int),
{
    let mut r: Vec<u8> = Vec::new();
    let mut i: usize = start;
    while i < end
        invariant
            start <= i <= end <= s@.len(),
            r@ == s@.subrange(start as int, i as int),
        decreases end - i,
    {
        r.push(s[i]);
        assert(r@ =~= s@.subrange(start as int, i + 1 as int));
        i = i + 1;
    }
    r
}

/// Decodes one name. The result agrees exactly with `spec_parse_name`; a
/// decoded name is well formed and the continuation point lies inside the
/// buffer.
fn parse_name(s: &Vec<u8>, pos: usize, jumps: usize) -> (r: Result<(Vec<u8>, usize), DecodeError>)
    ensures
        match r {
            Ok((name, end)) => spec_parse_name(s@, pos as int, jumps as nat) == Ok::<
                (Seq<u8>, int),
                DecodeError,
            >((name@, end as int)) && name_wf(name@) && pos < end <= s@.len(),
            Err(e) => spec_parse_name(s@, pos as int, jumps as nat) == Err::<
                (Seq<u8>, int),
                DecodeError,
            >(e),
        },
    decreases jumps, s@.len() - pos,
{
    if pos >= s.len() {
        return Err(DecodeError::Truncated);
    }
    let b = s[pos];
    if b == 0 {
        let mut name: Vec<u8> = Vec::new();
        name.push(0);
        assert(name@ =~= seq![0u8]);
        Ok((name, pos + 1))
    } else if b < 64 {
        let blen = b as usize;
        if blen > s.len() - (pos + 1) {
            assert(pos + 1 + b > s@.len());
            Err(DecodeError::Truncated)
        } else {
            let mut name: Vec<u8> = Vec::new();
            name.push(b);
            let mut i: usize = 0;
            while i < blen
                invariant
                    i <= blen,
                    pos + 1 + blen <= s@.len(),
                    s@.len() <= usize::MAX,
                    name@ == seq![b] + s@.subrange(pos + 1 as int, pos + 1 + i as int),
                decreases blen - i,
            {
                name.push(s[pos + 1 + i]);
                assert(name@ =~= seq![b] + s@.subrange(pos + 1 as int, pos + 1 + (i + 1) as int));
                i = i + 1;
            }
            match parse_name(s, pos + 1 + blen, jumps) {
                Ok((rest, end)) => {
                    let ghost rest0 = rest@;
                    let mut rest = rest;
                    name.append(&mut rest);
                    assert(name@ =~= seq![b] + s@.subrange(pos + 1 as int, pos + 1 + b as int)
                        + rest0);
                    assert(name@.skip(1 + b as int) =~= rest0);
                    Ok((name, end))
                },
                Err(e) => Err(e),
            }
        }
    } else if b >= 192 {
        if pos + 1 >= s.len() {
            Err(DecodeError::Truncated)
        } else {
            let target = ((b - 192) as usize) * 256 + (s[pos + 1] as usize);
            if jumps == 0 || target >= pos {
                Err(DecodeError::Malformed)
            } else {
                match parse_name(s, target, jumps - 1) {
                    Ok((rest, _end)) => Ok((rest, pos + 2)),
                    Err(e) => Err(e),
                }
            }
        }
    } else {
        Err(DecodeError::Malformed)
    }
}

fn parse_question(s: &Vec<u8>, pos: usize) -> (r: Result<(Question, usize), DecodeError>)
    ensures
        match r {
            Ok((q, end)) => spec_parse_question(s@, pos as int) == Ok::<
                (QuestionV, int),
                DecodeError,
            >((q@, end as int)) && question_wf(q@) && pos < end <= s@.len(),
            Err(e) => spec_parse_question(s@, pos as int) == Err::<(QuestionV, int), DecodeError>(
                e,
            ),
        },
{
    match parse_name(s, pos, s.len()) {
        Err(e) => Err(e),
        Ok((name, p)) => {
            if s.len() - p < 4 {
                Err(DecodeError::Truncated)
            } else {
                let qtype = read_u16(s, p);
                let qclass = read_u16(s, p + 2);
                Ok((Question { name, qtype, qclass }, p + 4))
            }
        },
    }
}

fn parse_record(s: &Vec<u8>, pos: usize) -> (r: Result<(Record, usize), DecodeError>)
    ensures
        match r {
            Ok((rec, end)) => spec_parse_record(s@, pos as int) == Ok::<
                (RecordV, int),
                DecodeError,
            >((rec@, end as int)) && record_wf(rec@) && pos < end <= s@.len(),
            Err(e) => spec_parse_record(s@, pos as int) == Err::<(RecordV, int), DecodeError>(e),
        },
{
    match parse_name(s, pos, s.len()) {
        Err(e) => Err(e),
        Ok((name, p)) => {
            if s.len() - p < 10 {
                Err(DecodeError::Truncated)
            } else {
                let rtype = read_u16(s, p);
                let rclass = read_u16(s, p + 2);
                let ttl = read_u32(s, p + 4);
                let rdlen = read_u16(s, p + 8) as usize;
                if rdlen > s.len() - (p + 10) {
                    Err(DecodeError::Truncated)
                } else {
                    let rdata = copy_range(s, p + 10, p + 10 + rdlen);
                    Ok((Record { name, rtype, rclass, ttl, rdata }, p + 10 + rdlen))
                }
            }
        },
    }
}

fn parse_questions(s: &Vec<u8>, pos: usize, n: u16) -> (r: Result<
    (Vec<Question>, usize),
    DecodeError,
>)
    ensures
        match r {
            Ok((qs, end)) => spec_parse_questions(s@, pos as int, n as nat) == Ok::<
                (Seq<QuestionV>, int),
                DecodeError,
            >((qs@.map_values(|q: Question| q@), end as int)) && qs@.len() == n as int && (forall|
                i: int,
            |
                0 <= i < qs@.len() ==> question_wf(#[trigger] qs@[i]@)),
            Err(e) => spec_parse_questions(s@, pos as int, n as nat) == Err::<
                (Seq<QuestionV>, int),
                DecodeError,
            >(e),
        },
    decreases n,
{
    if n == 0 {
        let v: Vec<Question> = Vec::new();
        assert(v@.map_values(|q: Question| q@) =~= Seq::<QuestionV>::empty());
        Ok((v, pos))
    } else {
        match parse_question(s, pos) {
            Err(e) => Err(e),
            Ok((q, p)) => match parse_questions(s, p, n - 1) {
                Err(e) => Err(e),
                Ok((qs, end)) => {
                    let ghost tail = qs@;
                    let mut qs = qs;
                    qs.insert(0, q);
                    assert(qs@.map_values(|x: Question| x@) =~= seq![q@] + tail.map_values(
                        |x: Question| x@,
                    ));
                    Ok((qs, end))
                },
            },
        }
    }
}

fn parse_records(s: &Vec<u8>, pos: usize, n: u16) -> (r: Result<(Vec<Record>, usize), DecodeError>)
    ensures
        match r {
            Ok((rs, end)) => spec_parse_records(s@, pos as int, n as nat) == Ok::<
                (Seq<RecordV>, int),
                DecodeError,
            >((rs@.map_values(|x: Record| x@), end as int)) && rs@.len() == n as int && (forall|
                i: int,
            |
                0 <= i < rs@.len() ==> record_wf(#[trigger] rs@[i]@)),
            Err(e) => spec_parse_records(s@, pos as int, n as nat) == Err::<
                (Seq<RecordV>, int),
                DecodeError,
            >(e),
        },
    decreases n,
{
    if n == 0 {
        let v: Vec<Record> = Vec::new();
        assert(v@.map_values(|x: Record| x@) =~= Seq::<RecordV>::empty());
        Ok((v, pos))
    } else {
        match parse_record(s, pos) {
            Err(e) => Err(e),
            Ok((rec, p)) => match parse_records(s, p, n - 1) {
                Err(e) => Err(e),
                Ok((rs, end)) => {
                    let ghost tail = rs@;
                    let mut rs = rs;
                    rs.insert(0, rec);
                    assert(rs@.map_values(|x: Record| x@) =~= seq![rec@] + tail.map_values(
                        |x: Record| x@,
                    ));
                    Ok((rs, end))
                },
            },
        }
    }
}

/// Decodes a datagram. The result agrees exactly with `spec_decode`: a
/// buffer shorter than its header and counts declare yields
/// `DecodeError::Truncated`, an inconsistent label or pointer field yields
/// `DecodeError::Malformed`, and a decoded message is well formed.
pub fn decode(s: &Vec<u8>) -> (r: Result<Message, DecodeError>)
    ensures
        match r {
            Ok(m) => spec_decode(s@) == Ok::<MessageV, DecodeError>(m@) && msg_wf(m@),
            Err(e) => spec_decode(s@) == Err::<MessageV, DecodeError>(e),
        },
{
    if s.len() < 12 {
        return Err(DecodeError::Truncated);
    }
    let header = Header {
        id: read_u16(s, 0),
        flags: read_u16(s, 2),
        qdcount: read_u16(s, 4),
        ancount: read_u16(s, 6),
        nscount: read_u16(s, 8),
        arcount: read_u16(s, 10),
    };
    let (questions, p1) = match parse_questions(s, 12, header.qdcount) {
        Err(e) => { return Err(e) },
        Ok(x) => x,
    };
    let (answers, p2) = match parse_records(s, p1, header.ancount) {
        Err(e) => { return Err(e) },
        Ok(x) => x,
    };
    let (authority, p3) = match parse_records(s, p2, header.nscount) {
        Err(e) => { return Err(e) },
        Ok(x) => x,
    };
    let (additional, _p4) = match parse_records(s, p3, header.arcount) {
        Err(e) => { return Err(e) },
        Ok(x) => x,
    };
    let m = Message { header, questions, answers, authority, additional };
    Ok(m)
}

// ---------------------------------------------------------------------------
// Round trip: decoding inverts encoding
// ---------------------------------------------------------------------------

/// Splits knowledge of an embedded concatenation into its two halves.
proof fn lemma_subrange_split(s: Seq<u8>, pos: int, a: Seq<u8>, b: Seq<u8>)
    requires
        0 <= pos,
        pos + a.len() + b.len() <= s.len(),
        s.subrange(pos, pos + a.len() + b.len()) == a + b,
    ensures
        s.subrange(pos, pos + a.len()) == a,
        s.subrange(pos + a.len(), pos + a.len() + b.len()) == b,
{
    assert forall|i: int| 0 <= i < a.len() implies s.subrange(pos, pos + a.len())[i] == a[i] by {
        assert(s.subrange(pos, pos + a.len() + b.len())[i] == (a + b)[i]);
    }
    assert(s.subrange(pos, pos + a.len()) =~= a);
    assert forall|i: int| 0 <= i < b.len() implies s.subrange(
        pos + a.len(),
        pos + a.len() + b.len(),
    )[i] == b[i] by {
        assert(s.subrange(pos + a.len(), pos + a.len() + b.len())[i] == s[pos + a.len() + i]);
        assert(s.subrange(pos, pos + a.len() + b.len())[a.len() + i] == s[pos + a.len() + i]);
        assert((a + b)[a.len() + i] == b[i]);
    }
    assert(s.subrange(pos + a.len(), pos + a.len() + b.len()) =~= b);
}

proof fn lemma_u16_at_enc(s: Seq<u8>, pos: int, x: u16)
    requires
        0 <= pos,
        pos + 2 <= s.len(),
        s.subrange(pos, pos + 2) == enc_u16(x),
    ensures
        spec_u16_at(s, pos) == x,
{
    assert(s[pos] == s.subrange(pos, pos + 2)[0]);
    assert(s[pos + 1] == s.subrange(pos, pos + 2)[1]);
}

proof fn lemma_u32_at_enc(s: Seq<u8>, pos: int, x: u32)
    requires
        0 <= pos,
        pos + 4 <= s.len(),
        s.subrange(pos, pos + 4) == enc_u32(x),
    ensures
        spec_u32_at(s, pos) == x,
{
    assert(s[pos] == s.subrange(pos, pos + 4)[0]);
    assert(s[pos + 1] == s.subrange(pos, pos + 4)[1]);
    assert(s[pos + 2] == s.subrange(pos, pos + 4)[2]);
    assert(s[pos + 3] == s.subrange(pos, pos + 4)[3]);
    let xi = x as int;
    vstd::arithmetic::div_mod::lemma_div_denominator(xi, 256, 256);
    vstd::arithmetic::div_mod::lemma_div_denominator(xi, 0x10000, 256);
    assert(xi / 0x10000 == (xi / 256) / 256);
    assert(xi / 0x1000000 == (xi / 0x10000) / 256);
}

proof fn lemma_parse_name_encoded(s: Seq<u8>, n: Seq<u8>, pos: int, jumps: nat)
    requires
        name_wf(n),
        0 <= pos,
        pos + n.len() <= s.len(),
        s.subrange(pos, pos + n.len()) == n,
    ensures
        spec_parse_name(s, pos, jumps) == Ok::<(Seq<u8>, int), DecodeError>((n, pos + n.len())),
    decreases n.len(),
{
    assert(n.len() >= 1);
    assert(s[pos] == s.subrange(pos, pos + n.len())[0]);
    let b = n[0];
    if b == 0 {
        assert(n =~= seq![0u8]);
        assert(spec_parse_name(s, pos, jumps) == Ok::<(Seq<u8>, int), DecodeError>(
            (seq![0u8], pos + 1),
        ));
    } else {
        assert(b < 64 && 1 + b <= n.len());
        let rest = n.skip(1 + b as int);
        assert(name_wf(rest));
        assert forall|i: int| 0 <= i < n.len() implies s[pos + i] == n[i] by {
            assert(s.subrange(pos, pos + n.len())[i] == n[i]);
        }
        assert(s.subrange(pos + 1 + b as int, pos + n.len()) =~= rest);
        lemma_parse_name_encoded(s, rest, pos + 1 + b as int, jumps);
        assert(s.subrange(pos + 1, pos + 1 + b as int) =~= n.subrange(1, 1 + b as int));
        assert(seq![b] + n.subrange(1, 1 + b as int) + rest =~= n);
    }
}

proof fn lemma_parse_question_encoded(s: Seq<u8>, q: QuestionV, pos: int)
    requires
        question_wf(q),
        0 <= pos,
        pos + enc_question(q).len() <= s.len(),
        s.subrange(pos, pos + enc_question(q).len()) == enc_question(q),
    ensures
        spec_parse_question(s, pos) == Ok::<(QuestionV, int), DecodeError>(
            (q, pos + enc_question(q).len()),
        ),
{
    let nl = q.name.len() as int;
    let tail = enc_u16(q.qtype) + enc_u16(q.qclass);
    assert(enc_question(q) =~= q.name + tail);
    lemma_subrange_split(s, pos, q.name, tail);
    lemma_parse_name_encoded(s, q.name, pos, s.len() as nat);
    lemma_subrange_split(s, pos + nl, enc_u16(q.qtype), enc_u16(q.qclass));
    lemma_u16_at_enc(s, pos + nl, q.qtype);
    lemma_u16_at_enc(s, pos + nl + 2, q.qclass);
}

proof fn lemma_parse_record_encoded(s: Seq<u8>, r: RecordV, pos: int)
    requires
        record_wf(r),
        0 <= pos,
        pos + enc_record(r).len() <= s.len(),
        s.subrange(pos, pos + enc_record(r).len()) == enc_record(r),
    ensures
        spec_parse_record(s, pos) == Ok::<(RecordV, int), DecodeError>(
            (r, pos + enc_record(r).len()),
        ),
{
    let nl = r.name.len() as int;
    let fixed = enc_u16(r.rtype) + enc_u16(r.rclass) + enc_u32(r.ttl) + enc_u16(
        r.rdata.len() as u16,
    );
    let tail = fixed + r.rdata;
    assert(enc_record(r) =~= r.name + tail);
    lemma_subrange_split(s, pos, r.name, tail);
    lemma_parse_name_encoded(s, r.name, pos, s.len() as nat);
    let p = pos + nl;
    assert(tail =~= enc_u16(r.rtype) + (enc_u16(r.rclass) + (enc_u32(r.ttl) + (enc_u16(
        r.rdata.len() as u16,
    ) + r.rdata))));
    lemma_subrange_split(s, p, enc_u16(r.rtype), enc_u16(r.rclass) + (enc_u32(r.ttl) + (enc_u16(
        r.rdata.len() as u16,
    ) + r.rdata)));
    lemma_u16_at_enc(s, p, r.rtype);
    lemma_subrange_split(s, p + 2, enc_u16(r.rclass), enc_u32(r.ttl) + (enc_u16(
        r.rdata.len() as u16,
    ) + r.rdata));
    lemma_u16_at_enc(s, p + 2, r.rclass);
    lemma_subrange_split(s, p + 4, enc_u32(r.ttl), enc_u16(r.rdata.len() as u16) + r.rdata);
    lemma_u32_at_enc(s, p + 4, r.ttl);
    lemma_subrange_split(s, p + 8, enc_u16(r.rdata.len() as u16), r.rdata);
    lemma_u16_at_enc(s, p + 8, r.rdata.len() as u16);
    assert(s.subrange(p + 10, p + 10 + r.rdata.len()) == r.rdata);
}

proof fn lemma_parse_questions_encoded(s: Seq<u8>, qs: Seq<QuestionV>, pos: int)
    requires
        forall|i: int| 0 <= i < qs.len() ==> question_wf(#[trigger] qs[i]),
        0 <= pos,
        pos + enc_questions(qs).len() <= s.len(),
        s.subrange(pos, pos + enc_questions(qs).len()) == enc_questions(qs),
    ensures
        spec_parse_questions(s, pos, qs.len() as nat) == Ok::<(Seq<QuestionV>, int), DecodeError>(
            (qs, pos + enc_questions(qs).len()),
        ),
    decreases qs.len(),
{
    if qs.len() == 0 {
        assert(qs =~= Seq::<QuestionV>::empty());
    } else {
        let q0 = qs[0];
        let rest = qs.skip(1);
        assert(enc_questions(qs) == enc_question(q0) + enc_questions(rest));
        lemma_subrange_split(s, pos, enc_question(q0), enc_questions(rest));
        lemma_parse_question_encoded(s, q0, pos);
        assert(forall|i: int| 0 <= i < rest.len() ==> question_wf(#[trigger] rest[i]));
        lemma_parse_questions_encoded(s, rest, pos + enc_question(q0).len());
        assert(seq![q0] + rest =~= qs);
    }
}

proof fn lemma_parse_records_encoded(s: Seq<u8>, rs: Seq<RecordV>, pos: int)
    requires
        forall|i: int| 0 <= i < rs.len() ==> record_wf(#[trigger] rs[i]),
        0 <= pos,
        pos + enc_records(rs).len() <= s.len(),
        s.subrange(pos, pos + enc_records(rs).len()) == enc_records(rs),
    ensures
        spec_parse_records(s, pos, rs.len() as nat) == Ok::<(Seq<RecordV>, int), DecodeError>(
            (rs, pos + enc_records(rs).len()),
        ),
    decreases rs.len(),
{
    if rs.len() == 0 {
        assert(rs =~= Seq::<RecordV>::empty());
    } else {
        let r0 = rs[0];
        let rest = rs.skip(1);
        assert(enc_records(rs) == enc_record(r0) + enc_records(rest));
        lemma_subrange_split(s, pos, enc_record(r0), enc_records(rest));
        lemma_parse_record_encoded(s, r0, pos);
        assert(forall|i: int| 0 <= i < rest.len() ==> record_wf(#[trigger] rest[i]));
        lemma_parse_records_encoded(s, rest, pos + enc_record(r0).len());
        assert(seq![r0] + rest =~= rs);
    }
}

/// Where each section of a well-formed message lies in its encoding.
proof fn lemma_encode_layout(m: MessageV)
    requires
        msg_wf(m),
    ensures
        spec_encode(m).len() == 12 + enc_questions(m.questions).len() + enc_records(
            m.answers,
        ).len() + enc_records(m.authority).len() + enc_records(m.additional).len(),
        spec_encode(m).subrange(0, 12) == enc_header(m.header),
        spec_encode(m).subrange(12, 12 + enc_questions(m.questions).len() as int)
            == enc_questions(m.questions),
        spec_encode(m).subrange(
            12 + enc_questions(m.questions).len() as int,
            12 + enc_questions(m.questions).len() + enc_records(m.answers).len() as int,
        ) == enc_records(m.answers),
        spec_encode(m).subrange(
            12 + enc_questions(m.questions).len() + enc_records(m.answers).len() as int,
            12 + enc_questions(m.questions).len() + enc_records(m.answers).len() + enc_records(
                m.authority,
            ).len() as int,
        ) == enc_records(m.authority),
        spec_encode(m).subrange(
            12 + enc_questions(m.questions).len() + enc_records(m.answers).len() + enc_records(
                m.authority,
            ).len() as int,
            12 + enc_questions(m.questions).len() + enc_records(m.answers).len() + enc_records(
                m.authority,
            ).len() + enc_records(m.additional).len() as int,
        ) == enc_records(m.additional),
{
    let s = spec_encode(m);
    let h = enc_header(m.header);
    let qq = enc_questions(m.questions);
    let aa = enc_records(m.answers);
    let nn = enc_records(m.authority);
    let rr = enc_records(m.additional);
    assert(h.len() == 12);
    assert(s.subrange(0, s.len() as int) =~= s);
    assert(s =~= h + (qq + (aa + (nn + rr))));
    lemma_subrange_split(s, 0, h, qq + (aa + (nn + rr)));
    lemma_subrange_split(s, 12, qq, aa + (nn + rr));
    lemma_subrange_split(s, 12 + qq.len() as int, aa, nn + rr);
    lemma_subrange_split(s, 12 + qq.len() + aa.len() as int, nn, rr);
}

/// Reading the six header fields back out of an embedded header encoding.
proof fn lemma_header_reads(s: Seq<u8>, h: Header)
    requires
        12 <= s.len(),
        s.subrange(0, 12) == enc_header(h),
    ensures
        spec_u16_at(s, 0) == h.id,
        spec_u16_at(s, 2) == h.flags,
        spec_u16_at(s, 4) == h.qdcount,
        spec_u16_at(s, 6) == h.ancount,
        spec_u16_at(s, 8) == h.nscount,
        spec_u16_at(s, 10) == h.arcount,
{
    let h2 = enc_u16(h.flags) + (enc_u16(h.qdcount) + (enc_u16(h.ancount) + (enc_u16(h.nscount)
        + enc_u16(h.arcount))));
    assert(s.subrange(0, 12) =~= enc_u16(h.id) + h2);
    lemma_subrange_split(s, 0, enc_u16(h.id), h2);
    lemma_u16_at_enc(s, 0, h.id);
    let h3 = enc_u16(h.qdcount) + (enc_u16(h.ancount) + (enc_u16(h.nscount) + enc_u16(
        h.arcount,
    )));
    lemma_subrange_split(s, 2, enc_u16(h.flags), h3);
    lemma_u16_at_enc(s, 2, h.flags);
    let h4 = enc_u16(h.ancount) + (enc_u16(h.nscount) + enc_u16(h.arcount));
    lemma_subrange_split(s, 4, enc_u16(h.qdcount), h4);
    lemma_u16_at_enc(s, 4, h.qdcount);
    let h5 = enc_u16(h.nscount) + enc_u16(h.arcount);
    lemma_subrange_split(s, 6, enc_u16(h.ancount), h5);
    lemma_u16_at_enc(s, 6, h.ancount);
    lemma_subrange_split(s, 8, enc_u16(h.nscount), enc_u16(h.arcount));
    lemma_u16_at_enc(s, 8, h.nscount);
    lemma_u16_at_enc(s, 10, h.arcount);
}

/// Law: decoding inverts encoding. Every well-formed message is recovered
/// exactly, structurally equal, from its own wire bytes.
#[verifier::rlimit(100)]
pub proof fn lemma_encode_decode(m: MessageV)
    requires
        msg_wf(m),
    ensures
        spec_decode(spec_encode(m)) == Ok::<MessageV, DecodeError>(m),
{
    let s = spec_encode(m);
    let qq = enc_questions(m.questions);
    let aa = enc_records(m.answers);
    let nn = enc_records(m.authority);
    let rr = enc_records(m.additional);
    lemma_encode_layout(m);
    lemma_header_reads(s, m.header);
    lemma_parse_questions_encoded(s, m.questions, 12);
    let p1 = 12 + qq.len() as int;
    lemma_parse_records_encoded(s, m.answers, p1);
    let p2 = p1 + aa.len() as int;
    lemma_parse_records_encoded(s, m.authority, p2);
    let p3 = p2 + nn.len() as int;
    lemma_parse_records_encoded(s, m.additional, p3);
    assert(Header {
        id: spec_u16_at(s, 0),
        flags: spec_u16_at(s, 2),
        qdcount: spec_u16_at(s, 4),
        ancount: spec_u16_at(s, 6),
        nscount: spec_u16_at(s, 8),
        arcount: spec_u16_at(s, 10),
    } == m.header);
    assert(spec_decode(s) == Ok::<MessageV, DecodeError>(m));
}

} // verus!
