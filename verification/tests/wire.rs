use paxos_kv::protocol::wire::{decode, encode, fits_frame, text_of};
use paxos_kv::protocol::{Agent, Entry, Message, MessageBody, MessageHeader, MAX_MSG_SIZE};

fn message(from: &str, agent: Agent, body: MessageBody) -> Message {
    Message { header: MessageHeader { from_addr: from.to_string(), agent }, body }
}

fn entry(key: &str, val: Option<&str>) -> Entry<String, String> {
    Entry { key: key.to_string(), val: val.map(|v| v.to_string()) }
}

fn all_bodies() -> Vec<MessageBody> {
    let mut bodies = Vec::new();
    for n in [0u32, 1, 255, 256, 65536, u32::MAX] {
        bodies.push(MessageBody::Prepare(n));
        bodies.push(MessageBody::Promise(n, None));
        bodies.push(MessageBody::Promise(n, Some(entry("foo", None))));
        bodies.push(MessageBody::Promise(n, Some(entry("foo", Some("bar")))));
        bodies.push(MessageBody::Accept(n, entry("", None)));
        bodies.push(MessageBody::Accept(n, entry("k", Some(""))));
        bodies.push(MessageBody::Accept(n, entry("clé", Some("värde\nzwei ✓"))));
        bodies.push(MessageBody::Accepted(n, entry("foo", None)));
        bodies.push(MessageBody::Accepted(n, entry("foo", Some("bar"))));
    }
    bodies.push(MessageBody::Nack);
    bodies
}

#[test]
fn decode_gives_back_what_encode_wrote() {
    for agent in [Agent::Client, Agent::Proposer, Agent::Acceptor, Agent::Learner] {
        for body in all_bodies() {
            let m = message("127.0.0.1:8000", agent, body);
            assert_eq!(decode(&encode(&m)), Some(m));
        }
    }
}

#[test]
fn decode_passes_over_what_follows_the_message() {
    for body in all_bodies() {
        let m = message("10.0.0.7:65535", Agent::Acceptor, body);
        let mut bytes = encode(&m);
        bytes.extend_from_slice(&[0xff, 0x00, 0x41, 0x80]);
        assert_eq!(decode(&bytes), Some(m));
    }
}

#[test]
fn prepare_has_the_expected_bytes() {
    let m = message("127.0.0.1:8000", Agent::Proposer, MessageBody::Prepare(7));
    let mut expected: Vec<u8> = vec![14, 0, 0, 0, 0, 0, 0, 0];
    expected.extend_from_slice(b"127.0.0.1:8000");
    expected.extend_from_slice(&[1, 0, 0, 0]);
    expected.extend_from_slice(&[0, 0, 0, 0]);
    expected.extend_from_slice(&[7, 0, 0, 0]);
    assert_eq!(encode(&m), expected);
}

#[test]
fn accepted_has_the_expected_bytes() {
    let m = message("a", Agent::Acceptor, MessageBody::Accepted(0x01020304, entry("k", Some("vw"))));
    let expected: Vec<u8> = vec![
        1, 0, 0, 0, 0, 0, 0, 0, b'a', // the sender
        2, 0, 0, 0, // its role
        3, 0, 0, 0, // the variant
        4, 3, 2, 1, // the proposal number
        1, 0, 0, 0, 0, 0, 0, 0, b'k', // the key
        1, // a value follows
        2, 0, 0, 0, 0, 0, 0, 0, b'v', b'w',
    ];
    assert_eq!(encode(&m), expected);
}

#[test]
fn nack_and_promise_without_entry_have_the_expected_bytes() {
    let nack = message("", Agent::Client, MessageBody::Nack);
    assert_eq!(encode(&nack), vec![0, 0, 0, 0, 0, 0, 0, 0, 0, 0, 0, 0, 4, 0, 0, 0]);
    let promise = message("", Agent::Learner, MessageBody::Promise(u32::MAX, None));
    assert_eq!(
        encode(&promise),
        vec![0, 0, 0, 0, 0, 0, 0, 0, 3, 0, 0, 0, 1, 0, 0, 0, 255, 255, 255, 255, 0]
    );
}

#[test]
fn encode_writes_what_bincode_writes() {
    let from = "127.0.0.1:9001".to_string();
    let prepare = message(&from, Agent::Proposer, MessageBody::Prepare(u32::MAX));
    assert_eq!(encode(&prepare), bincode::serialize(&(&from, 1u32, 0u32, u32::MAX)).unwrap());

    let promise = message(&from, Agent::Acceptor, MessageBody::Promise(0, None));
    assert_eq!(
        encode(&promise),
        bincode::serialize(&(&from, 2u32, 1u32, 0u32, None::<(String, Option<String>)>)).unwrap()
    );

    let disclosed = message(
        &from,
        Agent::Acceptor,
        MessageBody::Promise(9, Some(entry("foo", Some("bar")))),
    );
    assert_eq!(
        encode(&disclosed),
        bincode::serialize(&(
            &from,
            2u32,
            1u32,
            9u32,
            Some(("foo".to_string(), Some("bar".to_string())))
        ))
        .unwrap()
    );

    let accept = message(&from, Agent::Proposer, MessageBody::Accept(3, entry("clé", None)));
    assert_eq!(
        encode(&accept),
        bincode::serialize(&(&from, 1u32, 2u32, 3u32, "clé".to_string(), None::<String>)).unwrap()
    );

    let accepted = message(&from, Agent::Learner, MessageBody::Accepted(3, entry("k", Some("ü ✓"))));
    assert_eq!(
        encode(&accepted),
        bincode::serialize(&(&from, 3u32, 3u32, 3u32, "k".to_string(), Some("ü ✓".to_string())))
            .unwrap()
    );

    let nack = message(&from, Agent::Client, MessageBody::Nack);
    assert_eq!(encode(&nack), bincode::serialize(&(&from, 0u32, 4u32)).unwrap());
}

#[test]
fn decode_reads_what_bincode_reads() {
    let m = message("192.168.1.20:443", Agent::Proposer, MessageBody::Accept(77, entry("foo", Some("bar baz"))));
    let read: (String, u32, u32, u32, String, Option<String>) =
        bincode::deserialize(&encode(&m)).unwrap();
    assert_eq!(
        read,
        ("192.168.1.20:443".to_string(), 1, 2, 77, "foo".to_string(), Some("bar baz".to_string()))
    );
    let bytes = bincode::serialize(&("x".to_string(), 2u32, 3u32, 5u32, "k".to_string(), Some("v".to_string()))).unwrap();
    assert_eq!(
        decode(&bytes),
        Some(message("x", Agent::Acceptor, MessageBody::Accepted(5, entry("k", Some("v")))))
    );
}

#[test]
fn decode_refuses_a_frame_that_is_cut_short() {
    for body in all_bodies() {
        let bytes = encode(&message("127.0.0.1:8000", Agent::Proposer, body));
        for cut in 0..bytes.len() {
            assert_eq!(decode(&bytes[..cut]), None);
        }
    }
}

#[test]
fn decode_refuses_unknown_indices_and_marks() {
    assert_eq!(decode(&[]), None);
    // a role that does not exist
    assert_eq!(decode(&[0, 0, 0, 0, 0, 0, 0, 0, 4, 0, 0, 0, 4, 0, 0, 0]), None);
    // a variant that does not exist
    assert_eq!(decode(&[0, 0, 0, 0, 0, 0, 0, 0, 1, 0, 0, 0, 5, 0, 0, 0]), None);
    assert_eq!(decode(&[0, 0, 0, 0, 0, 0, 0, 0, 1, 0, 0, 0, 0, 0, 0, 1]), None);
    // a mark of an optional entry that is neither 0 nor 1
    assert_eq!(
        decode(&[0, 0, 0, 0, 0, 0, 0, 0, 2, 0, 0, 0, 1, 0, 0, 0, 9, 0, 0, 0, 2]),
        None
    );
    // a mark of an optional value that is neither 0 nor 1
    assert_eq!(
        decode(&[0, 0, 0, 0, 0, 0, 0, 0, 1, 0, 0, 0, 2, 0, 0, 0, 9, 0, 0, 0, 0, 0, 0, 0, 0, 0, 0, 0, 7]),
        None
    );
    // a length that reaches past the end
    assert_eq!(decode(&[255, 255, 255, 255, 255, 255, 255, 255, 1, 0, 0, 0, 4, 0, 0, 0]), None);
    assert_eq!(decode(&[9, 0, 0, 0, 0, 0, 0, 0, 1, 0, 0, 0, 4, 0, 0, 0]), None);
}

#[test]
fn decode_refuses_a_string_that_is_not_utf8() {
    let bytes = [1, 0, 0, 0, 0, 0, 0, 0, 0xff, 1, 0, 0, 0, 4, 0, 0, 0];
    assert_eq!(decode(&bytes), None);
    let good = [1, 0, 0, 0, 0, 0, 0, 0, b'a', 1, 0, 0, 0, 4, 0, 0, 0];
    assert_eq!(decode(&good), Some(message("a", Agent::Proposer, MessageBody::Nack)));
    // a character cut in two
    let half = [1, 0, 0, 0, 0, 0, 0, 0, 0xc3, 1, 0, 0, 0, 4, 0, 0, 0];
    assert_eq!(decode(&half), None);
}

#[test]
fn text_of_reads_text_only() {
    assert_eq!(text_of(b"get foo"), Some("get foo".to_string()));
    assert_eq!(text_of("put clé värde ✓".as_bytes()), Some("put clé värde ✓".to_string()));
    assert_eq!(text_of(b""), Some(String::new()));
    assert_eq!(text_of(&[0xff, 0xfe]), None);
    assert_eq!(text_of(&[b'a', 0xc3]), None);
    assert_eq!(text_of(&[0xed, 0xa0, 0x80]), None);
    assert_eq!(text_of(&[0xc0, 0x80]), None);
}

#[test]
fn a_frame_holds_the_maximum_size_and_no_more() {
    assert_eq!(MAX_MSG_SIZE, 512);
    assert!(fits_frame(&[]));
    assert!(fits_frame(&[0u8; 512]));
    assert!(!fits_frame(&[0u8; 513]));
    let m = message("127.0.0.1:8000", Agent::Proposer, MessageBody::Prepare(1));
    assert!(fits_frame(&encode(&m)));
    let long = "x".repeat(600);
    let big = message("127.0.0.1:8000", Agent::Proposer, MessageBody::Accept(1, entry("k", Some(&long))));
    assert!(!fits_frame(&encode(&big)));
}

#[test]
fn a_message_that_fits_a_frame_survives_the_cut() {
    let m = message("127.0.0.1:8000", Agent::Acceptor, MessageBody::Accepted(4, entry("foo", Some("bar"))));
    let mut sent = encode(&m);
    sent.extend_from_slice(&[7u8; 1000]);
    assert_eq!(decode(&sent[..MAX_MSG_SIZE]), Some(m));
}
