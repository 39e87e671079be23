//! The DNS message data model: header, questions, resource records, and the
//! well-formedness conditions under which a message can be put on the wire.
//!
//! A domain name is kept in its uncompressed wire form: a sequence of labels,
//! each a length byte (1..=63) followed by that many bytes, ended by a single
//! zero byte. The root name is the one-byte sequence `[0]`. This form is
//! trailing-dot invariant by construction: there is exactly one encoding of
//! each label sequence.

use vstd::prelude::*;

verus! {

/// A DNS header: transaction id, flag bits, and the four section counts.
#[derive(Clone, Copy, PartialEq, Eq, Structural, Debug)]
pub struct Header {
    pub id: u16,
    pub flags: u16,
    pub qdcount: u16,
    pub ancount: u16,
    pub nscount: u16,
    pub arcount: u16,
}

/// One entry of the question section.
#[derive(Clone, PartialEq, Eq, Debug)]
pub struct Question {
    /// Domain name in uncompressed wire form.
    pub name: Vec<u8>,
    pub qtype: u16,
    pub qclass: u16,
}

/// One resource record (answer, authority, or additional section).
#[derive(Clone, PartialEq, Eq, Debug)]
pub struct Record {
    /// Domain name in uncompressed wire form.
    pub name: Vec<u8>,
    pub rtype: u16,
    pub rclass: u16,
    pub ttl: u32,
    pub rdata: Vec<u8>,
}

/// A whole DNS message.
#[derive(Clone, PartialEq, Eq, Debug)]
pub struct Message {
    pub header: Header,
    pub questions: Vec<Question>,
    pub answers: Vec<Record>,
    pub authority: Vec<Record>,
    pub additional: Vec<Record>,
}

#[verifier::ext_equal]
pub ghost struct QuestionV {
    pub name: Seq<u8>,
    pub qtype: u16,
    pub qclass: u16,
}

#[verifier::ext_equal]
pub ghost struct RecordV {
    pub name: Seq<u8>,
    pub rtype: u16,
    pub rclass: u16,
    pub ttl: u32,
    pub rdata: Seq<u8>,
}

#[verifier::ext_equal]
pub ghost struct MessageV {
    pub header: Header,
    pub questions: Seq<QuestionV>,
    pub answers: Seq<RecordV>,
    pub authority: Seq<RecordV>,
    pub additional: Seq<RecordV>,
}

impl View for Question {
    type V = QuestionV;

    open spec fn view(&self) -> QuestionV {
        QuestionV { name: self.name@, qtype: self.qtype, qclass: self.qclass }
    }
}

impl View for Record {
    type V = RecordV;

    open spec fn view(&self) -> RecordV {
        RecordV {
            name: self.name@,
            rtype: self.rtype,
            rclass: self.rclass,
            ttl: self.ttl,
            rdata: self.rdata@,
        }
    }
}

impl View for Message {
    type V = MessageV;

    open spec fn view(&self) -> MessageV {
        MessageV {
            header: self.header,
            questions: self.questions@.map_values(|q: Question| q@),
            answers: self.answers@.map_values(|r: Record| r@),
            authority: self.authority@.map_values(|r: Record| r@),
            additional: self.additional@.map_values(|r: Record| r@),
        }
    }
}

/// A name is well formed when it is a chain of labels, each with a length
/// byte in 1..=63, ending in exactly one zero byte.
pub open spec fn name_wf(n: Seq<u8>) -> bool
    decreases n.len(),
{
    if n.len() == 0 {
        false
    } else if n[0] == 0 {
        n.len() == 1
    } else if n[0] < 64 && 1 + n[0] <= n.len() {
        name_wf(n.skip(1 + n[0] as int))
    } else {
        false
    }
}

pub open spec fn question_wf(q: QuestionV) -> bool {
    name_wf(q.name)
}

pub open spec fn record_wf(r: RecordV) -> bool {
    name_wf(r.name) && r.rdata.len() <= 0xffff
}

/// A message can be encoded exactly when every name is well formed, every
/// rdata fits its 16-bit length field, and the header counts agree with the
/// section lengths.
pub open spec fn msg_wf(m: MessageV) -> bool {
    &&& m.header.qdcount == m.questions.len()
    &&& m.header.ancount == m.answers.len()
    &&& m.header.nscount == m.authority.len()
    &&& m.header.arcount == m.additional.len()
    &&& forall|i: int| 0 <= i < m.questions.len() ==> question_wf(#[trigger] m.questions[i])
    &&& forall|i: int| 0 <= i < m.answers.len() ==> record_wf(#[trigger] m.answers[i])
    &&& forall|i: int| 0 <= i < m.authority.len() ==> record_wf(#[trigger] m.authority[i])
    &&& forall|i: int| 0 <= i < m.additional.len() ==> record_wf(#[trigger] m.additional[i])
}

/// Why a buffer failed to decode.
#[derive(Clone, Copy, PartialEq, Eq, Structural, Debug)]
pub enum DecodeError {
    /// The buffer ends before the data its length and count fields declare.
    Truncated,
    /// A length, label, or compression pointer field is inconsistent.
    Malformed,
}

/// Why an upstream exchange failed to produce a usable answer.
#[derive(Clone, Copy, PartialEq, Eq, Structural, Debug)]
pub enum ForwardError {
    /// No reply arrived within the configured deadline.
    Timeout,
    /// The reply decoded but holds no answer records.
    NoAnswer,
    /// No answer record of the requested type is present.
    TypeMismatch,
    /// The exchange itself failed: a send or receive error, an undecodable
    /// reply, or a reply whose transaction id does not match the query.
    TransportFailure,
}

/// Copies a byte vector; the copy views equal to the original.
pub fn clone_bytes(s: &Vec<u8>) -> (r: Vec<u8>)
    ensures
        r@ == s@,
{
    let mut r: Vec<u8> = Vec::new();
    let mut i: usize = 0;
    while i < s.len()
        invariant
            i <= s.len(),
            r@ == s@.subrange(0, i as int),
        decreases s.len() - i,
    {
        r.push(s[i]);
        assert(r@ =~= s@.subrange(0, i + 1 as int));
        i = i + 1;
    }
    assert(r@ =~= s@);
    r
}

/// Copies a question; the copy views equal to the original.
pub fn clone_question(q: &Question) -> (r: Question)
    ensures
        r@ == q@,
{
    Question { name: clone_bytes(&q.name), qtype: q.qtype, qclass: q.qclass }
}

/// Copies a record; the copy views equal to the original.
pub fn clone_record(r: &Record) -> (c: Record)
    ensures
        c@ == r@,
{
    Record {
        name: clone_bytes(&r.name),
        rtype: r.rtype,
        rclass: r.rclass,
        ttl: r.ttl,
        rdata: clone_bytes(&r.rdata),
    }
}

} // verus!
