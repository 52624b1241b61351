use paxos_kv::netutil::Address;
use paxos_kv::protocol::acceptor::Acceptor;
use paxos_kv::protocol::wire::encode;
use paxos_kv::protocol::{Agent, Entry, Message, MessageBody, MessageHeader, Peer, Response};
use paxos_kv::PaxosError;

fn acceptor() -> Acceptor {
    Acceptor::new(Address::new(127, 0, 0, 1, 9001))
}

fn from_acceptor(body: MessageBody) -> Message {
    Message {
        header: MessageHeader { from_addr: "127.0.0.1:9001".to_string(), agent: Agent::Acceptor },
        body,
    }
}

fn from_proposer(body: MessageBody) -> Message {
    Message {
        header: MessageHeader { from_addr: "127.0.0.1:8000".to_string(), agent: Agent::Proposer },
        body,
    }
}

fn entry(key: &str, val: Option<&str>) -> Entry<String, String> {
    Entry { key: key.to_string(), val: val.map(|v| v.to_string()) }
}

fn promise_of(a: &mut Acceptor, n: u32) -> paxos_kv::protocol::Promised {
    match a.handle_proposer(from_proposer(MessageBody::Prepare(n))) {
        Ok(Response::ReplyAndAwait(_, promise)) => promise,
        other => panic!("no promise: {:?}", other),
    }
}

#[test]
fn a_new_acceptor_knows_nothing() {
    let a = acceptor();
    assert_eq!(a.highest_seen(), 0);
    assert_eq!(a.learned("foo"), None);
    assert_eq!(a.address(), Address::new(127, 0, 0, 1, 9001));
    assert_eq!(a.agent(), Agent::Acceptor);
}

#[test]
fn an_acceptor_signs_its_messages() {
    let a = acceptor();
    assert_eq!(a.message(MessageBody::Nack), from_acceptor(MessageBody::Nack));
    assert_eq!(a.message(MessageBody::Prepare(3)), from_acceptor(MessageBody::Prepare(3)));
}

#[test]
fn a_higher_number_is_promised() {
    let mut a = acceptor();
    assert_eq!(a.on_prepare(1), from_acceptor(MessageBody::Promise(1, None)));
    assert_eq!(a.highest_seen(), 1);
    assert_eq!(a.on_prepare(5), from_acceptor(MessageBody::Promise(5, None)));
    assert_eq!(a.highest_seen(), 5);
    assert_eq!(a.on_prepare(u32::MAX), from_acceptor(MessageBody::Promise(u32::MAX, None)));
    assert_eq!(a.highest_seen(), u32::MAX);
}

#[test]
fn a_number_that_is_not_higher_is_refused() {
    let mut a = acceptor();
    assert_eq!(a.on_prepare(0), from_acceptor(MessageBody::Nack));
    assert_eq!(a.highest_seen(), 0);
    a.on_prepare(5);
    assert_eq!(a.on_prepare(5), from_acceptor(MessageBody::Nack));
    assert_eq!(a.on_prepare(4), from_acceptor(MessageBody::Nack));
    assert_eq!(a.on_prepare(0), from_acceptor(MessageBody::Nack));
    assert_eq!(a.highest_seen(), 5);
}

#[test]
fn promises_ascend_whatever_the_order_of_the_requests() {
    let mut a = acceptor();
    let mut seed: u32 = 12345;
    let mut last_promised: Option<u32> = None;
    for _ in 0..2000 {
        seed = seed.wrapping_mul(1664525).wrapping_add(1013904223);
        let n = (seed >> 16) % 50;
        let before = a.highest_seen();
        let reply = a.on_prepare(n);
        match reply.body {
            MessageBody::Promise(m, None) => {
                assert_eq!(m, n);
                assert!(n > before);
                if let Some(last) = last_promised {
                    assert!(n > last);
                }
                last_promised = Some(n);
                assert_eq!(a.highest_seen(), n);
            }
            MessageBody::Nack => {
                assert!(n <= before);
                assert_eq!(a.highest_seen(), before);
            }
            other => panic!("unexpected answer: {:?}", other),
        }
    }
}

#[test]
fn a_written_entry_is_learned_and_echoed() {
    let mut a = acceptor();
    let reply = a.on_accept(3, entry("foo", Some("bar")));
    assert_eq!(reply, from_acceptor(MessageBody::Accepted(3, entry("foo", Some("bar")))));
    assert_eq!(a.learned("foo"), Some("bar".to_string()));
    assert_eq!(a.highest_seen(), 0);
    let reply = a.on_accept(1, entry("foo", Some("baz")));
    assert_eq!(reply, from_acceptor(MessageBody::Accepted(1, entry("foo", Some("baz")))));
    assert_eq!(a.learned("foo"), Some("baz".to_string()));
    assert_eq!(a.learned("other"), None);
}

#[test]
fn a_read_is_answered_with_the_learned_value() {
    let mut a = acceptor();
    a.on_accept(3, entry("foo", Some("bar")));
    let reply = a.on_accept(4, entry("foo", None));
    assert_eq!(reply, from_acceptor(MessageBody::Accepted(4, entry("foo", Some("bar")))));
    assert_eq!(a.learned("foo"), Some("bar".to_string()));
}

#[test]
fn a_read_of_an_unknown_key_is_answered_with_the_empty_string() {
    let mut a = acceptor();
    let reply = a.on_accept(4, entry("missing", None));
    assert_eq!(reply, from_acceptor(MessageBody::Accepted(4, entry("missing", Some("")))));
    assert_eq!(a.learned("missing"), None);
}

#[test]
fn a_prepare_request_is_answered_with_a_promise_to_wait_on() {
    let mut a = acceptor();
    let outcome = a.handle_proposer(from_proposer(MessageBody::Prepare(2)));
    match outcome {
        Ok(Response::ReplyAndAwait(reply, promise)) => {
            assert_eq!(reply, from_acceptor(MessageBody::Promise(2, None)));
            assert_eq!(promise.number(), 2);
        }
        other => panic!("unexpected outcome: {:?}", other),
    }
    assert_eq!(a.highest_seen(), 2);
}

#[test]
fn a_refused_prepare_request_ends_the_exchange() {
    let mut a = acceptor();
    a.on_prepare(2);
    let outcome = a.handle_proposer(from_proposer(MessageBody::Prepare(2)));
    assert_eq!(outcome, Ok(Response::Reply(from_acceptor(MessageBody::Nack))));
    assert_eq!(a.highest_seen(), 2);
}

#[test]
fn an_accept_request_without_a_promise_is_passed_over() {
    let mut a = acceptor();
    let outcome = a.handle_proposer(from_proposer(MessageBody::Accept(9, entry("foo", Some("bar")))));
    assert_eq!(outcome, Ok(Response::Nothing));
    assert_eq!(a.learned("foo"), None);
    assert_eq!(a.highest_seen(), 0);
}

#[test]
fn other_messages_from_a_proposer_are_unexpected() {
    let mut a = acceptor();
    a.on_prepare(2);
    a.on_accept(2, entry("foo", Some("bar")));
    for body in [
        MessageBody::Promise(9, None),
        MessageBody::Promise(9, Some(entry("foo", Some("x")))),
        MessageBody::Accepted(9, entry("foo", Some("x"))),
        MessageBody::Nack,
    ] {
        assert_eq!(a.handle_proposer(from_proposer(body)), Err(PaxosError::UnexpectedMessage));
        assert_eq!(a.highest_seen(), 2);
        assert_eq!(a.learned("foo"), Some("bar".to_string()));
    }
}

#[test]
fn an_accept_request_after_a_promise_is_answered() {
    let mut a = acceptor();
    let promise = promise_of(&mut a, 2);
    let outcome = a.handle_accept(promise, from_proposer(MessageBody::Accept(2, entry("foo", Some("bar")))));
    assert_eq!(outcome, Ok(from_acceptor(MessageBody::Accepted(2, entry("foo", Some("bar"))))));
    assert_eq!(a.learned("foo"), Some("bar".to_string()));
}

#[test]
fn the_number_of_an_accept_request_is_not_held_against_the_promise() {
    let mut a = acceptor();
    let promise = promise_of(&mut a, 7);
    let outcome = a.handle_accept(promise, from_proposer(MessageBody::Accept(1, entry("foo", Some("bar")))));
    assert_eq!(outcome, Ok(from_acceptor(MessageBody::Accepted(1, entry("foo", Some("bar"))))));
    assert_eq!(a.learned("foo"), Some("bar".to_string()));
    assert_eq!(a.highest_seen(), 7);
}

#[test]
fn anything_but_an_accept_request_after_a_promise_is_unexpected() {
    for body in [
        MessageBody::Prepare(3),
        MessageBody::Promise(3, None),
        MessageBody::Accepted(3, entry("foo", Some("bar"))),
        MessageBody::Nack,
    ] {
        let mut a = acceptor();
        let promise = promise_of(&mut a, 2);
        assert_eq!(a.handle_accept(promise, from_proposer(body)), Err(PaxosError::UnexpectedMessage));
        assert_eq!(a.highest_seen(), 2);
        assert_eq!(a.learned("foo"), None);
    }
}

#[test]
fn an_acceptor_passes_over_clients_and_acceptors() {
    let mut a = acceptor();
    assert_eq!(a.handle_client("put foo bar"), Ok(Response::Nothing));
    assert_eq!(a.handle_acceptor(from_acceptor(MessageBody::Prepare(4))), Ok(Response::Nothing));
    assert_eq!(a.highest_seen(), 0);
    assert_eq!(a.learned("foo"), None);
}

#[test]
fn a_frame_goes_to_the_handler_for_its_sender() {
    let mut a = acceptor();
    let prepare = encode(&from_proposer(MessageBody::Prepare(1)));
    match a.handle_conn(&prepare) {
        Ok(Response::ReplyAndAwait(reply, _)) => {
            assert_eq!(reply, from_acceptor(MessageBody::Promise(1, None)))
        }
        other => panic!("unexpected outcome: {:?}", other),
    }
    let gossip = encode(&from_acceptor(MessageBody::Prepare(9)));
    assert_eq!(a.handle_conn(&gossip), Ok(Response::Nothing));
    assert_eq!(a.handle_conn(b"get foo"), Ok(Response::Nothing));
    assert_eq!(a.highest_seen(), 1);
}

#[test]
fn a_frame_from_no_proposer_or_acceptor_is_unexpected() {
    let mut a = acceptor();
    for agent in [Agent::Client, Agent::Learner] {
        let m = Message {
            header: MessageHeader { from_addr: "127.0.0.1:1".to_string(), agent },
            body: MessageBody::Prepare(5),
        };
        assert_eq!(a.handle_conn(&encode(&m)), Err(PaxosError::UnexpectedMessage));
        assert_eq!(a.highest_seen(), 0);
    }
}

#[test]
fn a_frame_that_is_neither_message_nor_text_is_refused() {
    let mut a = acceptor();
    assert_eq!(a.handle_conn(&[0xff, 0xfe, 0xfd]), Err(PaxosError::ProtocolDecodeError));
    assert_eq!(a.handle_conn(&[0xc3]), Err(PaxosError::ProtocolDecodeError));
    assert_eq!(a.highest_seen(), 0);
}
