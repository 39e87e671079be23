use dnscore::cache::{CacheEntry, CacheKey, ResolutionCache, make_key};
use dnscore::codec::encode;
use dnscore::handler::{
    HandleStep, PendingSet, handle_request, on_forward_failure, on_forward_success,
    validate_reply,
};
use dnscore::msg::{ForwardError, Header, Message, Question, Record};

fn name_bytes(name: &str) -> Vec<u8> {
    let mut out = Vec::new();
    for label in name.split('.') {
        out.push(label.len() as u8);
        out.extend_from_slice(label.as_bytes());
    }
    out.push(0);
    out
}

fn query_bytes(id: u16, name: &str, qtype: u16) -> Vec<u8> {
    encode(&Message {
        header: Header { id, flags: 0x0100, qdcount: 1, ancount: 0, nscount: 0, arcount: 0 },
        questions: vec![Question { name: name_bytes(name), qtype, qclass: 1 }],
        answers: Vec::new(),
        authority: Vec::new(),
        additional: Vec::new(),
    })
}

fn a_reply(id: u16, name: &str, addr: [u8; 4], ttl: u32) -> Message {
    Message {
        header: Header { id, flags: 0x8180, qdcount: 1, ancount: 1, nscount: 0, arcount: 0 },
        questions: vec![Question { name: name_bytes(name), qtype: 1, qclass: 1 }],
        answers: vec![Record {
            name: name_bytes(name),
            rtype: 1,
            rclass: 1,
            ttl,
            rdata: addr.to_vec(),
        }],
        authority: Vec::new(),
        additional: Vec::new(),
    }
}

fn key_for(name: &str, qtype: u16) -> CacheKey {
    make_key(&Question { name: name_bytes(name), qtype, qclass: 1 })
}

#[test]
fn cache_ttl_window() {
    let mut cache = ResolutionCache::new();
    let k = key_for("example.com", 1);
    cache.insert(
        k.clone(),
        CacheEntry { rtype: 1, rdata: vec![93, 184, 216, 34], ttl: 300, inserted: 1000 },
    );
    // Served while now < 1000 + 300.
    assert!(cache.lookup(&k, 1000).is_some());
    assert!(cache.lookup(&k, 1299).is_some());
    // Absent from 1300 onwards.
    assert!(cache.lookup(&k, 1300).is_none());
    // The expired entry was removed, so an earlier clock finds nothing either.
    assert!(cache.lookup(&k, 1000).is_none());
}

#[test]
fn cache_insert_overwrites() {
    let mut cache = ResolutionCache::new();
    let k = key_for("example.com", 1);
    cache.insert(k.clone(), CacheEntry { rtype: 1, rdata: vec![1, 1, 1, 1], ttl: 60, inserted: 0 });
    cache.insert(k.clone(), CacheEntry { rtype: 1, rdata: vec![2, 2, 2, 2], ttl: 60, inserted: 10 });
    let e = cache.lookup(&k, 20).expect("overwritten entry is live");
    assert_eq!(e.rdata, vec![2, 2, 2, 2]);
    assert_eq!(e.inserted, 10);
}

fn entry(rdata: Vec<u8>, ttl: u32, inserted: u64) -> CacheEntry {
    CacheEntry { rtype: 1, rdata, ttl, inserted }
}

#[test]
fn capped_insert_evicts_oldest() {
    let mut cache = ResolutionCache::new();
    let ka = key_for("a.example", 1);
    let kb = key_for("b.example", 1);
    let kc = key_for("c.example", 1);
    cache.insert_capped(ka.clone(), entry(vec![1, 1, 1, 1], 60, 0), 2);
    cache.insert_capped(kb.clone(), entry(vec![2, 2, 2, 2], 60, 0), 2);
    cache.insert_capped(kc.clone(), entry(vec![3, 3, 3, 3], 60, 0), 2);
    // The oldest-stored key made room; the two newer ones are live.
    assert!(cache.lookup(&ka, 0).is_none());
    assert_eq!(cache.lookup(&kb, 0).expect("kept").rdata, vec![2, 2, 2, 2]);
    assert_eq!(cache.lookup(&kc, 0).expect("kept").rdata, vec![3, 3, 3, 3]);
}

#[test]
fn capped_insert_overwrites_without_evicting() {
    let mut cache = ResolutionCache::new();
    let ka = key_for("a.example", 1);
    let kb = key_for("b.example", 1);
    cache.insert_capped(ka.clone(), entry(vec![1, 1, 1, 1], 60, 0), 2);
    cache.insert_capped(kb.clone(), entry(vec![2, 2, 2, 2], 60, 0), 2);
    // Overwriting an existing key at capacity evicts nothing.
    cache.insert_capped(ka.clone(), entry(vec![9, 9, 9, 9], 60, 5), 2);
    assert_eq!(cache.lookup(&ka, 5).expect("overwritten in place").rdata, vec![9, 9, 9, 9]);
    assert!(cache.lookup(&kb, 5).is_some());
}

#[test]
fn cache_key_ignores_case() {
    let a = key_for("EXAMPLE.CoM", 1);
    let b = key_for("example.com", 1);
    assert_eq!(a, b);
    let c = key_for("example.com", 28);
    assert_ne!(b, c);
}

#[test]
fn format_error_on_undecodable() {
    let mut cache = ResolutionCache::new();
    let mut pending = PendingSet::new();
    let buf = vec![0x12, 0x34, 0xff]; // too short for a header
    match handle_request(&buf, &mut cache, &mut pending, 0) {
        HandleStep::Respond(m) => {
            assert_eq!(m.header.id, 0x1234);
            assert_eq!(m.header.flags, 0x8001); // response, format error
            assert_eq!(m.questions.len(), 0);
        },
        _ => panic!("an undecodable buffer must be answered at once"),
    }
}

#[test]
fn format_error_on_zero_questions() {
    let mut cache = ResolutionCache::new();
    let mut pending = PendingSet::new();
    // A well-formed header with no question at all.
    let buf = encode(&Message {
        header: Header { id: 77, flags: 0, qdcount: 0, ancount: 0, nscount: 0, arcount: 0 },
        questions: Vec::new(),
        answers: Vec::new(),
        authority: Vec::new(),
        additional: Vec::new(),
    });
    match handle_request(&buf, &mut cache, &mut pending, 0) {
        HandleStep::Respond(m) => {
            assert_eq!(m.header.id, 77);
            assert_eq!(m.header.flags, 0x8001);
        },
        _ => panic!("a query without questions must get a format-error reply"),
    }
}

#[test]
fn end_to_end_resolution_and_cache_hit() {
    let mut cache = ResolutionCache::new();
    let mut pending = PendingSet::new();

    // First query: cache empty, so it is forwarded.
    let task = match handle_request(&query_bytes(0x0a0b, "example.com", 1), &mut cache, &mut pending, 100) {
        HandleStep::Forward(t) => t,
        _ => panic!("a miss on an idle key must forward"),
    };
    assert_eq!(task.client_id, 0x0a0b);

    // Upstream replies with the A record.
    let reply = a_reply(0x0a0b, "example.com", [93, 184, 216, 34], 300);
    let rec = validate_reply(&reply, 0x0a0b, 1).expect("a matching A answer validates");
    assert_eq!(rec.rdata, vec![93, 184, 216, 34]);
    let resp = on_forward_success(&task, &rec, 100, &mut cache, &mut pending);
    assert_eq!(resp.header.id, 0x0a0b);
    assert_eq!(resp.header.flags, 0x8000);
    assert_eq!(resp.answers.len(), 1);
    assert_eq!(resp.answers[0].ttl, 300);
    assert_eq!(resp.answers[0].rdata, vec![93, 184, 216, 34]);

    // The cache now holds the entry.
    let e = cache
        .lookup(&key_for("example.com", 1), 100)
        .expect("the resolved answer is cached");
    assert_eq!(e.rdata, vec![93, 184, 216, 34]);
    assert_eq!(e.ttl, 300);
    assert_eq!(e.inserted, 100);

    // A second query 100 seconds later is answered from the cache, with the
    // elapsed time taken off the TTL, under a different transaction id and
    // different name case.
    match handle_request(&query_bytes(0x0c0d, "EXAMPLE.com", 1), &mut cache, &mut pending, 200) {
        HandleStep::Respond(m) => {
            assert_eq!(m.header.id, 0x0c0d);
            assert_eq!(m.answers.len(), 1);
            assert_eq!(m.answers[0].ttl, 200); // 300 − (200 − 100)
            assert_eq!(m.answers[0].rdata, vec![93, 184, 216, 34]);
        },
        _ => panic!("a live cached entry must be served without forwarding"),
    }
}

#[test]
fn concurrent_misses_coalesce() {
    let mut cache = ResolutionCache::new();
    let mut pending = PendingSet::new();

    // Two misses on the same key before the upstream reply arrives: only the
    // first forwards.
    let task = match handle_request(&query_bytes(1, "example.com", 1), &mut cache, &mut pending, 0) {
        HandleStep::Forward(t) => t,
        _ => panic!("the first miss must forward"),
    };
    match handle_request(&query_bytes(2, "Example.Com", 1), &mut cache, &mut pending, 0) {
        HandleStep::Coalesce(t) => {
            assert_eq!(t.client_id, 2);
            assert_eq!(t.key, task.key);
        },
        _ => panic!("a second miss on an in-flight key must coalesce"),
    }
    // A miss on a different key still forwards.
    match handle_request(&query_bytes(3, "other.example", 1), &mut cache, &mut pending, 0) {
        HandleStep::Forward(_) => {},
        _ => panic!("an unrelated key is not held back"),
    }

    // Once the exchange ends, both coalesced clients get the same value and
    // the key is free again.
    let reply = a_reply(1, "example.com", [93, 184, 216, 34], 300);
    let rec = validate_reply(&reply, 1, 1).expect("reply validates");
    on_forward_success(&task, &rec, 0, &mut cache, &mut pending);
    let e1 = cache.lookup(&key_for("example.com", 1), 0).expect("first waiter hit");
    let e2 = cache.lookup(&key_for("EXAMPLE.COM", 1), 0).expect("second waiter hit");
    assert_eq!(e1.rdata, e2.rdata);
}

#[test]
fn timeout_yields_servfail_and_no_cache_entry() {
    let mut cache = ResolutionCache::new();
    let mut pending = PendingSet::new();

    let task = match handle_request(&query_bytes(0x5151, "slow.example", 1), &mut cache, &mut pending, 50) {
        HandleStep::Forward(t) => t,
        _ => panic!("a miss must forward"),
    };
    // Upstream did not answer within the deadline.
    let resp = on_forward_failure(&task, &mut pending);
    assert_eq!(resp.header.id, 0x5151);
    assert_eq!(resp.header.flags, 0x8002); // response, server failure
    // The cache was not polluted: the same query misses and forwards again.
    assert!(cache.lookup(&key_for("slow.example", 1), 50).is_none());
    match handle_request(&query_bytes(0x5252, "slow.example", 1), &mut cache, &mut pending, 51) {
        HandleStep::Forward(_) => {},
        _ => panic!("after a failure the key must be free to forward again"),
    }
}

#[test]
fn validate_reply_rejects_wrong_id() {
    let reply = a_reply(0xbeef, "example.com", [1, 2, 3, 4], 60);
    assert_eq!(validate_reply(&reply, 0x1111, 1), Err(ForwardError::TransportFailure));
}

#[test]
fn validate_reply_rejects_empty_answers() {
    let mut reply = a_reply(5, "example.com", [1, 2, 3, 4], 60);
    reply.answers.clear();
    reply.header.ancount = 0;
    assert_eq!(validate_reply(&reply, 5, 1), Err(ForwardError::NoAnswer));
}

#[test]
fn validate_reply_rejects_type_mismatch() {
    let mut reply = a_reply(5, "example.com", [1, 2, 3, 4], 60);
    reply.answers[0].rtype = 5; // only a CNAME came back
    assert_eq!(validate_reply(&reply, 5, 1), Err(ForwardError::TypeMismatch));
}

#[test]
fn validate_reply_skips_leading_cname() {
    let mut reply = a_reply(5, "alias.example", [9, 9, 9, 9], 60);
    reply.answers.insert(
        0,
        Record {
            name: name_bytes("alias.example"),
            rtype: 5,
            rclass: 1,
            ttl: 60,
            rdata: name_bytes("real.example"),
        },
    );
    reply.header.ancount = 2;
    let rec = validate_reply(&reply, 5, 1).expect("the A record behind the CNAME is found");
    assert_eq!(rec.rtype, 1);
    assert_eq!(rec.rdata, vec![9, 9, 9, 9]);
}
