use dnscore::codec::{decode, encode};
use dnscore::msg::{DecodeError, Header, Message, Question, Record};

fn name_bytes(name: &str) -> Vec<u8> {
    let mut out = Vec::new();
    for label in name.split('.') {
        out.push(label.len() as u8);
        out.extend_from_slice(label.as_bytes());
    }
    out.push(0);
    out
}

fn query_message(id: u16, name: &str, qtype: u16) -> Message {
    Message {
        header: Header { id, flags: 0x0100, qdcount: 1, ancount: 0, nscount: 0, arcount: 0 },
        questions: vec![Question { name: name_bytes(name), qtype, qclass: 1 }],
        answers: Vec::new(),
        authority: Vec::new(),
        additional: Vec::new(),
    }
}

#[test]
fn encode_query_exact_bytes() {
    let m = query_message(0x1234, "example.com", 1);
    let bytes = encode(&m);
    let mut expected = vec![
        0x12, 0x34, // id
        0x01, 0x00, // flags: recursion desired
        0x00, 0x01, // one question
        0x00, 0x00, 0x00, 0x00, 0x00, 0x00, // no records
    ];
    expected.extend_from_slice(&[7]);
    expected.extend_from_slice(b"example");
    expected.extend_from_slice(&[3]);
    expected.extend_from_slice(b"com");
    expected.extend_from_slice(&[0, 0x00, 0x01, 0x00, 0x01]); // terminator, type A, class IN
    assert_eq!(bytes, expected);
}

#[test]
fn round_trip_query() {
    let m = query_message(0xabcd, "example.com", 1);
    let bytes = encode(&m);
    let back = decode(&bytes).expect("round trip must decode");
    assert_eq!(back, m);
}

#[test]
fn round_trip_full_message() {
    let m = Message {
        header: Header { id: 7, flags: 0x8180, qdcount: 1, ancount: 2, nscount: 1, arcount: 1 },
        questions: vec![Question { name: name_bytes("a.b.example"), qtype: 255, qclass: 1 }],
        answers: vec![
            Record {
                name: name_bytes("a.b.example"),
                rtype: 5,
                rclass: 1,
                ttl: 60,
                rdata: name_bytes("c.example"),
            },
            Record {
                name: name_bytes("c.example"),
                rtype: 1,
                rclass: 1,
                ttl: 0xdeadbeef,
                rdata: vec![10, 0, 0, 1],
            },
        ],
        authority: vec![Record {
            name: name_bytes("example"),
            rtype: 2,
            rclass: 1,
            ttl: 3600,
            rdata: name_bytes("ns.example"),
        }],
        additional: vec![Record {
            name: name_bytes("ns.example"),
            rtype: 1,
            rclass: 1,
            ttl: 3600,
            rdata: vec![192, 0, 2, 53],
        }],
    };
    let bytes = encode(&m);
    let back = decode(&bytes).expect("round trip must decode");
    assert_eq!(back, m);
}

#[test]
fn round_trip_root_name() {
    let m = Message {
        header: Header { id: 1, flags: 0, qdcount: 1, ancount: 0, nscount: 0, arcount: 0 },
        questions: vec![Question { name: vec![0], qtype: 2, qclass: 1 }],
        answers: Vec::new(),
        authority: Vec::new(),
        additional: Vec::new(),
    };
    let bytes = encode(&m);
    assert_eq!(decode(&bytes).expect("root name decodes"), m);
}

#[test]
fn decode_empty_buffer_truncated() {
    assert_eq!(decode(&Vec::new()), Err(DecodeError::Truncated));
}

#[test]
fn decode_short_header_truncated() {
    let buf = vec![0u8; 11];
    assert_eq!(decode(&buf), Err(DecodeError::Truncated));
}

#[test]
fn decode_truncated_question_truncated() {
    // Header declares one question, but the buffer ends inside the name.
    let m = query_message(9, "example.com", 1);
    let bytes = encode(&m);
    let cut = bytes[..bytes.len() - 6].to_vec();
    assert_eq!(decode(&cut), Err(DecodeError::Truncated));
}

#[test]
fn decode_count_beyond_buffer_truncated() {
    // Header declares two questions but carries only one.
    let m = query_message(9, "example.com", 1);
    let mut bytes = encode(&m);
    bytes[5] = 2;
    assert_eq!(decode(&bytes), Err(DecodeError::Truncated));
}

#[test]
fn decode_truncated_rdata_truncated() {
    // rdlength runs past the end of the buffer.
    let mut bytes = vec![0, 1, 0, 0, 0, 0, 0, 1, 0, 0, 0, 0]; // one answer
    bytes.extend_from_slice(&[0]); // root name
    bytes.extend_from_slice(&[0, 1, 0, 1, 0, 0, 0, 60, 0, 4]); // type A, class IN, ttl, rdlength 4
    bytes.extend_from_slice(&[93, 184]); // only two rdata bytes
    assert_eq!(decode(&bytes), Err(DecodeError::Truncated));
}

#[test]
fn decode_reserved_label_bits_malformed() {
    let mut bytes = vec![0, 1, 0, 0, 0, 1, 0, 0, 0, 0, 0, 0];
    bytes.extend_from_slice(&[0x40, 0, 0, 1, 0, 1]); // 0x40 is neither label nor pointer
    assert_eq!(decode(&bytes), Err(DecodeError::Malformed));
}

#[test]
fn decode_forward_pointer_malformed() {
    let mut bytes = vec![0, 1, 0, 0, 0, 1, 0, 0, 0, 0, 0, 0];
    bytes.extend_from_slice(&[0xc0, 20, 0, 1, 0, 1]); // pointer ahead of itself
    assert_eq!(decode(&bytes), Err(DecodeError::Malformed));
}

#[test]
fn decode_compressed_name() {
    // One question "example.com", one answer whose name is a pointer to the
    // question's name at offset 12.
    let mut bytes = vec![0x00, 0x07, 0x81, 0x80, 0, 1, 0, 1, 0, 0, 0, 0];
    bytes.extend_from_slice(&name_bytes("example.com"));
    bytes.extend_from_slice(&[0, 1, 0, 1]); // question type/class
    bytes.extend_from_slice(&[0xc0, 12]); // answer name: pointer to offset 12
    bytes.extend_from_slice(&[0, 1, 0, 1, 0, 0, 1, 44, 0, 4]); // A, IN, ttl 300, rdlength 4
    bytes.extend_from_slice(&[93, 184, 216, 34]);
    let m = decode(&bytes).expect("compressed name decodes");
    assert_eq!(m.answers.len(), 1);
    assert_eq!(m.answers[0].name, name_bytes("example.com"));
    assert_eq!(m.answers[0].ttl, 300);
    assert_eq!(m.answers[0].rdata, vec![93, 184, 216, 34]);
}

#[test]
fn decode_pointer_loop_malformed() {
    // Two pointers that chase each other forever.
    let mut bytes = vec![0, 1, 0, 0, 0, 1, 0, 0, 0, 0, 0, 0];
    // offset 12: label "a", then at offset 14 a pointer to 16... build a loop:
    // offset 12: pointer to 14 is forward, so lay a backward loop instead:
    // offset 12-13: "a" label start? Use: 12: 0x01 'a', 14: 0xc0 0x0c points back
    // to 12, which walks forward to 14 again.
    bytes.extend_from_slice(&[1, b'a', 0xc0, 12]);
    bytes.extend_from_slice(&[0, 1, 0, 1]);
    assert_eq!(decode(&bytes), Err(DecodeError::Malformed));
}

#[test]
fn decode_ignores_trailing_bytes() {
    let m = query_message(3, "example.com", 1);
    let mut bytes = encode(&m);
    bytes.extend_from_slice(&[1, 2, 3]);
    assert_eq!(decode(&bytes).expect("trailing bytes are ignored"), m);
}
