//! The per-request handler: one query moves from decoding through cache
//! lookup to either an immediate response, an upstream forward, or a wait on
//! a forward already in flight for the same key. Upstream replies are
//! validated here; the socket work itself happens outside the crate, which
//! only ever sees plain byte buffers and the step values below.

use vstd::prelude::*;
use crate::msg::{
    ForwardError, Header, Message, MessageV, Question, QuestionV, Record, RecordV, clone_bytes,
    clone_question, clone_record, msg_wf, question_wf,
};
use crate::cache::{
    CacheEntry, CacheKey, EntryV, KeyV, ResolutionCache, cache_wf, clone_key, compute_remaining,
    find_entry, key_eq, key_of, make_key, remaining_ttl, spec_lookup,
};
use crate::codec::{decode, spec_decode, spec_u16_at};

verus! {

/// The response bit of the flags word.
pub const FLAG_RESPONSE: u16 = 0x8000;

/// Response code: the query could not be parsed.
pub const RCODE_FORMAT_ERROR: u16 = 1;

/// Response code: the resolver failed to produce an answer.
pub const RCODE_SERVER_FAILURE: u16 = 2;

// ---------------------------------------------------------------------------
// Response builders
// ---------------------------------------------------------------------------

/// A header-only error reply: the response bit, the given response code in
/// the low bits, the client's transaction id, and no sections.
pub open spec fn spec_error_response(id: u16, rcode: u16) -> MessageV {
    MessageV {
        header: Header {
            id,
            flags: (FLAG_RESPONSE + rcode) as u16,
            qdcount: 0,
            ancount: 0,
            nscount: 0,
            arcount: 0,
        },
        questions: Seq::empty(),
        answers: Seq::empty(),
        authority: Seq::empty(),
        additional: Seq::empty(),
    }
}

/// A positive reply: the client's transaction id, the question echoed, and
/// one answer record for that question's name and class.
pub open spec fn spec_answer_response(
    id: u16,
    q: QuestionV,
    rtype: u16,
    ttl: u32,
    rdata: Seq<u8>,
) -> MessageV {
    MessageV {
        header: Header { id, flags: FLAG_RESPONSE, qdcount: 1, ancount: 1, nscount: 0, arcount: 0 },
        questions: seq![q],
        answers: seq![RecordV { name: q.name, rtype, rclass: q.qclass, ttl, rdata }],
        authority: Seq::empty(),
        additional: Seq::empty(),
    }
}

pub fn error_response(id: u16, rcode: u16) -> (m: Message)
    requires
        rcode <= 15,
    ensures
        m@ == spec_error_response(id, rcode),
        msg_wf(m@),
{
    let m = Message {
        header: Header {
            id,
            flags: FLAG_RESPONSE + rcode,
            qdcount: 0,
            ancount: 0,
            nscount: 0,
            arcount: 0,
        },
        questions: Vec::new(),
        answers: Vec::new(),
        authority: Vec::new(),
        additional: Vec::new(),
    };
    assert(m@.questions =~= Seq::<QuestionV>::empty());
    assert(m@.answers =~= Seq::<RecordV>::empty());
    assert(m@.authority =~= Seq::<RecordV>::empty());
    assert(m@.additional =~= Seq::<RecordV>::empty());
    assert(m@ =~= spec_error_response(id, rcode));
    m
}

pub fn answer_response(id: u16, q: &Question, rtype: u16, ttl: u32, rdata: &Vec<u8>) -> (m: Message)
    requires
        question_wf(q@),
        rdata@.len() <= 0xffff,
    ensures
        m@ == spec_answer_response(id, q@, rtype, ttl, rdata@),
        msg_wf(m@),
{
    let mut questions: Vec<Question> = Vec::new();
    questions.push(clone_question(q));
    let mut answers: Vec<Record> = Vec::new();
    answers.push(
        Record {
            name: clone_bytes(&q.name),
            rtype,
            rclass: q.qclass,
            ttl,
            rdata: clone_bytes(rdata),
        },
    );
    let m = Message {
        header: Header { id, flags: FLAG_RESPONSE, qdcount: 1, ancount: 1, nscount: 0, arcount: 0 },
        questions,
        answers,
        authority: Vec::new(),
        additional: Vec::new(),
    };
    assert(m@.questions =~= seq![q@]);
    assert(m@.answers =~= seq![
        RecordV { name: q@.name, rtype, rclass: q@.qclass, ttl, rdata: rdata@ },
    ]);
    assert(m@.authority =~= Seq::<RecordV>::empty());
    assert(m@.additional =~= Seq::<RecordV>::empty());
    assert(m@ =~= spec_answer_response(id, q@, rtype, ttl, rdata@));
    m
}

// ---------------------------------------------------------------------------
// The set of keys with a forward in flight
// ---------------------------------------------------------------------------

pub open spec fn pending_has(s: Seq<CacheKey>, k: KeyV) -> bool {
    exists|i: int| 0 <= i < s.len() && (#[trigger] s[i])@ == k
}

pub open spec fn pending_wf(s: Seq<CacheKey>) -> bool {
    forall|i: int, j: int| 0 <= i < j < s.len() ==> (#[trigger] s[i])@ != (#[trigger] s[j])@
}

/// Whether a cache miss on `k` is to be forwarded upstream: only when no
/// forward for `k` is already in flight.
pub open spec fn spec_forwards(pending: Seq<CacheKey>, k: KeyV) -> bool {
    !pending_has(pending, k)
}

/// The keys whose upstream exchange is under way.
pub struct PendingSet {
    keys: Vec<CacheKey>,
}

impl View for PendingSet {
    type V = Seq<CacheKey>;

    closed spec fn view(&self) -> Seq<CacheKey> {
        self.keys@
    }
}

impl PendingSet {
    /// The empty set: nothing in flight.
    pub fn new() -> (p: PendingSet)
        ensures
            p@ == Seq::<CacheKey>::empty(),
            pending_wf(p@),
    {
        let p = PendingSet { keys: Vec::new() };
        assert(p@ =~= Seq::<CacheKey>::empty());
        p
    }

    fn index_of(&self, k: &CacheKey) -> (r: Option<usize>)
        ensures
            match r {
                Some(i) => i < self@.len() && self@[i as int]@ == k@,
                None => !pending_has(self@, k@),
            },
    {
        let mut i: usize = 0;
        while i < self.keys.len()
            invariant
                i <= self@.len(),
                forall|j: int| 0 <= j < i ==> (#[trigger] self@[j])@ != k@,
            decreases self@.len() - i,
        {
            if key_eq(&self.keys[i], k) {
                return Some(i);
            }
            i = i + 1;
        }
        None
    }

    /// Whether a forward for `k` is in flight.
    pub fn contains(&self, k: &CacheKey) -> (r: bool)
        ensures
            r == pending_has(self@, k@),
    {
        match self.index_of(k) {
            Some(i) => {
                assert(pending_has(self@, k@));
                true
            },
            None => false,
        }
    }

    /// Marks `k` in flight. Returns true when it was not already so — the
    /// one caller that sees true owns the upstream exchange.
    pub fn register(&mut self, k: &CacheKey) -> (fresh: bool)
        requires
            pending_wf(old(self)@),
        ensures
            pending_wf(final(self)@),
            fresh == spec_forwards(old(self)@, k@),
            pending_has(final(self)@, k@),
            !fresh ==> final(self)@ == old(self)@,
            forall|k2: KeyV| k2 != k@ ==> pending_has(final(self)@, k2) == pending_has(
                old(self)@,
                k2,
            ),
    {
        match self.index_of(k) {
            Some(i) => {
                assert(pending_has(self@, k@));
                false
            },
            None => {
                let ghost s = self@;
                self.keys.push(clone_key(k));
                proof {
                    let t = self@;
                    assert(t[s.len() as int]@ == k@);
                    assert(pending_has(t, k@));
                    assert forall|a: int, b: int| 0 <= a < b < t.len() implies (#[trigger] t[a])@
                        != (#[trigger] t[b])@ by {
                        if b < t.len() - 1 {
                            assert(t[a] == s[a] && t[b] == s[b]);
                        } else {
                            assert(t[a] == s[a]);
                            assert(s[a]@ != k@);
                        }
                    }
                    assert forall|k2: KeyV| k2 != k@ implies pending_has(t, k2) == pending_has(
                        s,
                        k2,
                    ) by {
                        if pending_has(s, k2) {
                            let i = choose|i: int| 0 <= i < s.len() && (#[trigger] s[i])@ == k2;
                            assert(t[i]@ == k2);
                        }
                        if pending_has(t, k2) {
                            let i = choose|i: int| 0 <= i < t.len() && (#[trigger] t[i])@ == k2;
                            assert(i < s.len());
                            assert(s[i]@ == k2);
                        }
                    }
                }
                true
            },
        }
    }

    /// Clears the in-flight mark for `k`, once its exchange has ended.
    pub fn resolve(&mut self, k: &CacheKey)
        requires
            pending_wf(old(self)@),
        ensures
            pending_wf(final(self)@),
            !pending_has(final(self)@, k@),
            forall|k2: KeyV| k2 != k@ ==> pending_has(final(self)@, k2) == pending_has(
                old(self)@,
                k2,
            ),
    {
        match self.index_of(k) {
            None => {},
            Some(i) => {
                let ghost s = self@;
                self.keys.remove(i);
                proof {
                    let t = self@;
                    assert(t =~= s.remove(i as int));
                    assert forall|a: int, b: int| 0 <= a < b < t.len() implies (#[trigger] t[a])@
                        != (#[trigger] t[b])@ by {
                        let a0 = if a < i { a } else { a + 1 };
                        let b0 = if b < i { b } else { b + 1 };
                        assert(t[a] == s[a0] && t[b] == s[b0]);
                    }
                    assert forall|a: int| 0 <= a < t.len() implies (#[trigger] t[a])@ != k@ by {
                        let a0 = if a < i { a } else { a + 1 };
                        assert(t[a] == s[a0]);
                        if s[a0]@ == k@ {
                            assert(s[i as int]@ == k@);
                        }
                    }
                    assert forall|k2: KeyV| k2 != k@ implies pending_has(t, k2) == pending_has(
                        s,
                        k2,
                    ) by {
                        if pending_has(s, k2) {
                            let j = choose|j: int| 0 <= j < s.len() && (#[trigger] s[j])@ == k2;
                            let j2 = if j < i { j } else { j - 1 };
                            assert(j != i);
                            assert(t[j2] == s[j]);
                        }
                        if pending_has(t, k2) {
                            let j = choose|j: int| 0 <= j < t.len() && (#[trigger] t[j])@ == k2;
                            let j0 = if j < i { j } else { j + 1 };
                            assert(s[j0] == t[j]);
                        }
                    }
                }
            },
        }
    }
}

// ---------------------------------------------------------------------------
// Upstream reply validation
// ---------------------------------------------------------------------------

/// The first answer record of the requested type, front to back.
pub open spec fn first_of_type(rs: Seq<RecordV>, t: u16) -> Option<RecordV>
    decreases rs.len(),
{
    if rs.len() == 0 {
        None
    } else if rs[0].rtype == t {
        Some(rs[0])
    } else {
        first_of_type(rs.skip(1), t)
    }
}

/// What validating a decoded upstream reply yields: the reply's transaction
/// id must equal the one sent (anything else is treated as a transport-level
/// failure, since the reply cannot be trusted to answer this query), the
/// answer section must be non-empty, and the answer served is the first
/// record of the requested type — a leading CNAME is not silently taken for
/// the requested record.
pub open spec fn spec_validate(reply: MessageV, expected_id: u16, qtype: u16) -> Result<
    RecordV,
    ForwardError,
> {
    if reply.header.id != expected_id {
        Err(ForwardError::TransportFailure)
    } else if reply.answers.len() == 0 {
        Err(ForwardError::NoAnswer)
    } else {
        match first_of_type(reply.answers, qtype) {
            Some(r) => Ok(r),
            None => Err(ForwardError::TypeMismatch),
        }
    }
}

proof fn lemma_first_of_type_index(rs: Seq<RecordV>, t: u16, i: int)
    requires
        0 <= i < rs.len(),
        rs[i].rtype == t,
        forall|j: int| 0 <= j < i ==> (#[trigger] rs[j]).rtype != t,
    ensures
        first_of_type(rs, t) == Some(rs[i]),
    decreases i,
{
    if i == 0 {
    } else {
        assert(rs.skip(1)[i - 1] == rs[i]);
        assert(forall|j: int| 0 <= j < i - 1 ==> (#[trigger] rs.skip(1)[j]).rtype != t);
        lemma_first_of_type_index(rs.skip(1), t, i - 1);
    }
}

proof fn lemma_first_of_type_none(rs: Seq<RecordV>, t: u16)
    requires
        forall|j: int| 0 <= j < rs.len() ==> (#[trigger] rs[j]).rtype != t,
    ensures
        first_of_type(rs, t) == None::<RecordV>,
    decreases rs.len(),
{
    if rs.len() == 0 {
    } else {
        assert(forall|j: int| 0 <= j < rs.skip(1).len() ==> (#[trigger] rs.skip(1)[j]).rtype != t);
        lemma_first_of_type_none(rs.skip(1), t);
    }
}

/// Validates a decoded upstream reply against the id that was sent and the
/// record type that was asked for.
pub fn validate_reply(reply: &Message, expected_id: u16, qtype: u16) -> (r: Result<
    Record,
    ForwardError,
>)
    ensures
        match r {
            Ok(rec) => spec_validate(reply@, expected_id, qtype) == Ok::<RecordV, ForwardError>(
                rec@,
            ),
            Err(e) => spec_validate(reply@, expected_id, qtype) == Err::<RecordV, ForwardError>(e),
        },
{
    if reply.header.id != expected_id {
        return Err(ForwardError::TransportFailure);
    }
    if reply.answers.len() == 0 {
        return Err(ForwardError::NoAnswer);
    }
    let ghost rv = reply@.answers;
    let mut i: usize = 0;
    while i < reply.answers.len()
        invariant
            i <= reply.answers@.len(),
            rv == reply@.answers,
            rv.len() == reply.answers@.len(),
            reply@.header.id == expected_id,
            rv.len() > 0,
            forall|j: int| 0 <= j < i ==> (#[trigger] rv[j]).rtype != qtype,
        decreases reply.answers@.len() - i,
    {
        assert(rv[i as int] == reply.answers@[i as int]@);
        if reply.answers[i].rtype == qtype {
            proof {
                lemma_first_of_type_index(rv, qtype, i as int);
            }
            return Ok(clone_record(&reply.answers[i]));
        }
        i = i + 1;
    }
    proof {
        lemma_first_of_type_none(rv, qtype);
    }
    Err(ForwardError::TypeMismatch)
}

// ---------------------------------------------------------------------------
// The request state machine
// ---------------------------------------------------------------------------

/// What the handler hands back to the I/O layer for one inbound datagram.
pub enum HandleStep {
    /// Send this message back to the client now.
    Respond(Message),
    /// Send the original query bytes upstream and report the outcome through
    /// `on_forward_success` or `on_forward_failure`; this caller owns the
    /// exchange for the task's key.
    Forward(ForwardTask),
    /// A forward for the same key is already in flight; await its outcome
    /// and answer this client from the result.
    Coalesce(ForwardTask),
}

/// Everything needed to finish one client's query after its upstream
/// exchange ends.
pub struct ForwardTask {
    /// The cache key the exchange resolves.
    pub key: CacheKey,
    /// The client's transaction id, echoed in the eventual reply.
    pub client_id: u16,
    /// The client's question, echoed in the eventual reply.
    pub question: Question,
}

/// The transaction id a reply to `buf` must carry: the first two bytes when
/// there are two to read, else zero.
pub open spec fn spec_reply_id(s: Seq<u8>) -> u16 {
    if s.len() >= 2 {
        spec_u16_at(s, 0)
    } else {
        0
    }
}

fn reply_id(buf: &Vec<u8>) -> (id: u16)
    ensures
        id == spec_reply_id(buf@),
{
    if buf.len() >= 2 {
        (buf[0] as u16) * 256 + (buf[1] as u16)
    } else {
        0
    }
}

/// Handles one inbound datagram up to its first suspension point:
/// - an undecodable buffer or one with no question is answered at once with
///   a format-error reply, and nothing else changes;
/// - a live cached entry is answered at once, with the elapsed time taken
///   off its TTL, and nothing is forwarded;
/// - a miss is forwarded only when no forward for the same key is in
///   flight, and the key is marked in flight; otherwise the caller waits on
///   the exchange already under way.
pub fn handle_request(
    buf: &Vec<u8>,
    cache: &mut ResolutionCache,
    pending: &mut PendingSet,
    now: u64,
) -> (step: HandleStep)
    requires
        cache_wf(old(cache)@),
        pending_wf(old(pending)@),
    ensures
        cache_wf(final(cache)@),
        pending_wf(final(pending)@),
        (match spec_decode(buf@) {
            Err(_) => final(cache)@ == old(cache)@ && final(pending)@ == old(pending)@ && (
            step matches HandleStep::Respond(m) && m@ == spec_error_response(
                spec_reply_id(buf@),
                RCODE_FORMAT_ERROR,
            ) && msg_wf(m@)),
            Ok(q) => if q.questions.len() == 0 {
                final(cache)@ == old(cache)@ && final(pending)@ == old(pending)@ && (
                step matches HandleStep::Respond(m) && m@ == spec_error_response(
                    q.header.id,
                    RCODE_FORMAT_ERROR,
                ) && msg_wf(m@))
            } else {
                let k = key_of(q.questions[0]);
                find_entry(final(cache)@, k) == spec_lookup(old(cache)@, k, now) && (forall|
                    k2: KeyV,
                |
                    k2 != k ==> find_entry(final(cache)@, k2) == find_entry(old(cache)@, k2))
                    && match spec_lookup(old(cache)@, k, now) {
                    Some(e) => final(pending)@ == old(pending)@ && (
                    step matches HandleStep::Respond(m) && m@ == spec_answer_response(
                        q.header.id,
                        q.questions[0],
                        e.rtype,
                        remaining_ttl(e, now),
                        e.rdata,
                    ) && msg_wf(m@)),
                    None => if spec_forwards(old(pending)@, k) {
                        pending_has(final(pending)@, k) && (forall|k2: KeyV|
                            k2 != k ==> pending_has(final(pending)@, k2) == pending_has(
                                old(pending)@,
                                k2,
                            )) && (step matches HandleStep::Forward(t) && t.key@ == k
                            && t.client_id == q.header.id && t.question@ == q.questions[0])
                    } else {
                        final(pending)@ == old(pending)@ && (
                        step matches HandleStep::Coalesce(t) && t.key@ == k && t.client_id
                            == q.header.id && t.question@ == q.questions[0])
                    },
                }
            },
        }),
{
    let m = match decode(buf) {
        Err(_e) => {
            let id = reply_id(buf);
            return HandleStep::Respond(error_response(id, RCODE_FORMAT_ERROR));
        },
        Ok(m) => m,
    };
    if m.questions.len() == 0 {
        return HandleStep::Respond(error_response(m.header.id, RCODE_FORMAT_ERROR));
    }
    let q = &m.questions[0];
    assert(q@ == m@.questions[0]);
    let key = make_key(q);
    match cache.lookup(&key, now) {
        Some(e) => {
            let ttl = compute_remaining(&e, now);
            HandleStep::Respond(answer_response(m.header.id, q, e.rtype, ttl, &e.rdata))
        },
        None => {
            let task = ForwardTask {
                key: clone_key(&key),
                client_id: m.header.id,
                question: clone_question(q),
            };
            let fresh = pending.register(&key);
            if fresh {
                HandleStep::Forward(task)
            } else {
                HandleStep::Coalesce(task)
            }
        },
    }
}

/// Finishes a forwarded query whose upstream exchange produced a validated
/// answer record: the answer is cached under the task's key with the
/// upstream TTL and the present time, the in-flight mark is cleared, and
/// the client's reply carries its own transaction id and question with the
/// full TTL.
pub fn on_forward_success(
    task: &ForwardTask,
    rec: &Record,
    now: u64,
    cache: &mut ResolutionCache,
    pending: &mut PendingSet,
) -> (resp: Message)
    requires
        cache_wf(old(cache)@),
        pending_wf(old(pending)@),
        question_wf(task.question@),
        rec.rdata@.len() <= 0xffff,
    ensures
        cache_wf(final(cache)@),
        pending_wf(final(pending)@),
        find_entry(final(cache)@, task.key@) == Some(
            EntryV { rtype: rec@.rtype, rdata: rec@.rdata, ttl: rec@.ttl, inserted: now },
        ),
        forall|k2: KeyV| k2 != task.key@ ==> find_entry(final(cache)@, k2) == find_entry(
            old(cache)@,
            k2,
        ),
        !pending_has(final(pending)@, task.key@),
        forall|k2: KeyV| k2 != task.key@ ==> pending_has(final(pending)@, k2) == pending_has(
            old(pending)@,
            k2,
        ),
        resp@ == spec_answer_response(task.client_id, task.question@, rec@.rtype, rec@.ttl, rec@.rdata),
        msg_wf(resp@),
{
    let entry = CacheEntry {
        rtype: rec.rtype,
        rdata: clone_bytes(&rec.rdata),
        ttl: rec.ttl,
        inserted: now,
    };
    cache.insert(clone_key(&task.key), entry);
    pending.resolve(&task.key);
    answer_response(task.client_id, &task.question, rec.rtype, rec.ttl, &rec.rdata)
}

/// Finishes a forwarded query whose upstream exchange failed — a timeout, an
/// empty or mismatched answer, or a transport fault: the in-flight mark is
/// cleared and the client receives a server-failure reply. The cache is not
/// touched at all (it is not even handed in), so a failed exchange can leave
/// no entry behind.
pub fn on_forward_failure(task: &ForwardTask, pending: &mut PendingSet) -> (resp: Message)
    requires
        pending_wf(old(pending)@),
    ensures
        pending_wf(final(pending)@),
        !pending_has(final(pending)@, task.key@),
        forall|k2: KeyV| k2 != task.key@ ==> pending_has(final(pending)@, k2) == pending_has(
            old(pending)@,
            k2,
        ),
        resp@ == spec_error_response(task.client_id, RCODE_SERVER_FAILURE),
        msg_wf(resp@),
{
    pending.resolve(&task.key);
    error_response(task.client_id, RCODE_SERVER_FAILURE)
}

/// Law: concurrent misses on one key coalesce. The first miss on `k` finds
/// no forward in flight and issues one, after which `k` is marked in
/// flight; any further miss on `k` while that mark stands is not forwarded.
/// So of N simultaneous misses on one key, at most the one that registered
/// the mark reaches upstream.
pub proof fn lemma_single_flight(before: Seq<CacheKey>, after: Seq<CacheKey>, k: KeyV)
    requires
        spec_forwards(before, k),
        pending_has(after, k),
    ensures
        !spec_forwards(after, k),
{
}

} // verus!
