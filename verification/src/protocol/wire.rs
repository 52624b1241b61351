//! The binary form of a message.
//!
//! Integers are written in little-endian order at their full width. A string
//! is its length in bytes, as a 64-bit integer, followed by its UTF-8 bytes.
//! An optional value is one byte, 0 or 1, followed by the value if the byte
//! is 1. An enum is the index of its variant, as a 32-bit integer, followed by
//! the variant's fields. A struct is its fields, one after the other.
//! A reader takes a message from the start of a frame and ignores what
//! follows it. This is the layout that the `bincode` crate, in its version 1
//! and with its default options, gives to the message types, so that nodes
//! which use that crate understand these frames.

use crate::protocol::{
    Agent, BodyView, Entry, EntryView, HeaderView, Key, Message, MessageBody, MessageHeader,
    MessageView, Value, MAX_MSG_SIZE,
};
use vstd::bytes::*;
use vstd::prelude::*;
use vstd::slice::*;
use vstd::utf8::*;

verus! {

/// The index under which each role is written.
pub open spec fn agent_index(agent: Agent) -> u32 {
    match agent {
        Agent::Client => 0,
        Agent::Proposer => 1,
        Agent::Acceptor => 2,
        Agent::Learner => 3,
    }
}

/// Whether the length of a string's UTF-8 form can be written in 64 bits.
pub open spec fn text_fits(text: Seq<char>) -> bool {
    encode_utf8(text).len() <= u64::MAX
}

pub open spec fn entry_fits(entry: EntryView) -> bool {
    &&& text_fits(entry.key)
    &&& match entry.val {
        Some(v) => text_fits(v),
        None => true,
    }
}

pub open spec fn body_fits(body: BodyView) -> bool {
    match body {
        BodyView::Prepare(_) => true,
        BodyView::Promise(_, Some(e)) => entry_fits(e),
        BodyView::Promise(_, None) => true,
        BodyView::Accept(_, e) => entry_fits(e),
        BodyView::Accepted(_, e) => entry_fits(e),
        BodyView::Nack => true,
    }
}

/// Whether every string of the message is short enough to be written.
/// This holds of every message that a program can hold in memory.
pub open spec fn message_fits(message: MessageView) -> bool {
    &&& text_fits(message.header.from_addr)
    &&& body_fits(message.body)
}

pub open spec fn encode_text(text: Seq<char>) -> Seq<u8> {
    spec_u64_to_le_bytes(encode_utf8(text).len() as u64) + encode_utf8(text)
}

pub open spec fn encode_optional_text(text: Option<Seq<char>>) -> Seq<u8> {
    match text {
        Some(t) => seq![1u8] + encode_text(t),
        None => seq![0u8],
    }
}

pub open spec fn encode_entry(entry: EntryView) -> Seq<u8> {
    encode_text(entry.key) + encode_optional_text(entry.val)
}

pub open spec fn encode_optional_entry(entry: Option<EntryView>) -> Seq<u8> {
    match entry {
        Some(e) => seq![1u8] + encode_entry(e),
        None => seq![0u8],
    }
}

pub open spec fn encode_body(body: BodyView) -> Seq<u8> {
    match body {
        BodyView::Prepare(n) => spec_u32_to_le_bytes(0) + spec_u32_to_le_bytes(n),
        BodyView::Promise(n, e) => spec_u32_to_le_bytes(1) + spec_u32_to_le_bytes(n)
            + encode_optional_entry(e),
        BodyView::Accept(n, e) => spec_u32_to_le_bytes(2) + spec_u32_to_le_bytes(n) + encode_entry(
            e,
        ),
        BodyView::Accepted(n, e) => spec_u32_to_le_bytes(3) + spec_u32_to_le_bytes(n)
            + encode_entry(e),
        BodyView::Nack => spec_u32_to_le_bytes(4),
    }
}

pub open spec fn encode_header(header: HeaderView) -> Seq<u8> {
    encode_text(header.from_addr) + spec_u32_to_le_bytes(agent_index(header.agent))
}

/// The bytes that stand for a message.
pub open spec fn encode_message(message: MessageView) -> Seq<u8> {
    encode_header(message.header) + encode_body(message.body)
}

fn put_u32(out: &mut Vec<u8>, n: u32)
    ensures
        final(out)@ == old(out)@ + spec_u32_to_le_bytes(n),
{
    let bytes = u32_to_le_bytes(n);
    out.extend_from_slice(bytes.as_slice());
    assert(final(out)@ =~= old(out)@ + spec_u32_to_le_bytes(n));
}

fn put_text(out: &mut Vec<u8>, text: &str)
    ensures
        final(out)@ == old(out)@ + encode_text(text@),
        text_fits(text@),
{
    let bytes = text.as_bytes();
    let n: usize = bytes.len();
    let prefix = u64_to_le_bytes(n as u64);
    out.extend_from_slice(prefix.as_slice());
    out.extend_from_slice(bytes);
    assert(final(out)@ =~= old(out)@ + encode_text(text@));
}

fn put_optional_text(out: &mut Vec<u8>, text: &Option<String>)
    ensures
        final(out)@ == old(out)@ + encode_optional_text(
            match *text {
                Some(t) => Some(t@),
                None => None,
            },
        ),
        match *text {
            Some(t) => text_fits(t@),
            None => true,
        },
{
    match text {
        Some(t) => {
            out.push(1u8);
            put_text(out, t.as_str());
            assert(final(out)@ =~= old(out)@ + (seq![1u8] + encode_text(t@)));
        },
        None => {
            out.push(0u8);
            assert(final(out)@ =~= old(out)@ + seq![0u8]);
        },
    }
}

fn put_entry(out: &mut Vec<u8>, entry: &Entry<Key, Value>)
    ensures
        final(out)@ == old(out)@ + encode_entry(entry@),
        entry_fits(entry@),
{
    put_text(out, entry.key.as_str());
    put_optional_text(out, &entry.val);
    assert(final(out)@ =~= old(out)@ + encode_entry(entry@));
}

fn put_optional_entry(out: &mut Vec<u8>, entry: &Option<Entry<Key, Value>>)
    ensures
        final(out)@ == old(out)@ + encode_optional_entry(
            match *entry {
                Some(e) => Some(e@),
                None => None,
            },
        ),
        match *entry {
            Some(e) => entry_fits(e@),
            None => true,
        },
{
    match entry {
        Some(e) => {
            out.push(1u8);
            put_entry(out, e);
            assert(final(out)@ =~= old(out)@ + (seq![1u8] + encode_entry(e@)));
        },
        None => {
            out.push(0u8);
            assert(final(out)@ =~= old(out)@ + seq![0u8]);
        },
    }
}

fn put_agent(out: &mut Vec<u8>, agent: Agent)
    ensures
        final(out)@ == old(out)@ + spec_u32_to_le_bytes(agent_index(agent)),
{
    match agent {
        Agent::Client => put_u32(out, 0),
        Agent::Proposer => put_u32(out, 1),
        Agent::Acceptor => put_u32(out, 2),
        Agent::Learner => put_u32(out, 3),
    }
}

fn put_body(out: &mut Vec<u8>, body: &MessageBody)
    ensures
        final(out)@ == old(out)@ + encode_body(body@),
        body_fits(body@),
{
    match body {
        MessageBody::Prepare(n) => {
            put_u32(out, 0);
            put_u32(out, *n);
        },
        MessageBody::Promise(n, e) => {
            put_u32(out, 1);
            put_u32(out, *n);
            put_optional_entry(out, e);
        },
        MessageBody::Accept(n, e) => {
            put_u32(out, 2);
            put_u32(out, *n);
            put_entry(out, e);
        },
        MessageBody::Accepted(n, e) => {
            put_u32(out, 3);
            put_u32(out, *n);
            put_entry(out, e);
        },
        MessageBody::Nack => {
            put_u32(out, 4);
        },
    }
    assert(final(out)@ =~= old(out)@ + encode_body(body@));
}

/// Writes a message out as bytes.
pub fn encode(message: &Message) -> (bytes: Vec<u8>)
    ensures
        bytes@ == encode_message(message@),
        message_fits(message@),
{
    let mut out: Vec<u8> = Vec::new();
    put_text(&mut out, message.header.from_addr.as_str());
    put_agent(&mut out, message.header.agent);
    put_body(&mut out, &message.body);
    assert(out@ =~= encode_message(message@));
    out
}


/// A 32-bit integer that starts at position `at`, and the position after it.
pub open spec fn parse_u32(s: Seq<u8>, at: int) -> Option<(u32, int)> {
    if 0 <= at && at + 4 <= s.len() {
        Some((spec_u32_from_le_bytes(s.subrange(at, at + 4)), at + 4))
    } else {
        None
    }
}

/// A string that starts at position `at`, and the position after it.
pub open spec fn parse_text(s: Seq<u8>, at: int) -> Option<(Seq<char>, int)> {
    if 0 <= at && at + 8 <= s.len() {
        let n = spec_u64_from_le_bytes(s.subrange(at, at + 8)) as int;
        let start = at + 8;
        if start + n <= s.len() && valid_utf8(s.subrange(start, start + n)) {
            Some((decode_utf8(s.subrange(start, start + n)), start + n))
        } else {
            None
        }
    } else {
        None
    }
}

pub open spec fn parse_optional_text(s: Seq<u8>, at: int) -> Option<(Option<Seq<char>>, int)> {
    if 0 <= at < s.len() {
        if s[at] == 0 {
            Some((None, at + 1))
        } else if s[at] == 1 {
            match parse_text(s, at + 1) {
                Some((t, next)) => Some((Some(t), next)),
                None => None,
            }
        } else {
            None
        }
    } else {
        None
    }
}

pub open spec fn parse_entry(s: Seq<u8>, at: int) -> Option<(EntryView, int)> {
    match parse_text(s, at) {
        Some((key, mid)) => match parse_optional_text(s, mid) {
            Some((val, next)) => Some((EntryView { key, val }, next)),
            None => None,
        },
        None => None,
    }
}

pub open spec fn parse_optional_entry(s: Seq<u8>, at: int) -> Option<(Option<EntryView>, int)> {
    if 0 <= at < s.len() {
        if s[at] == 0 {
            Some((None, at + 1))
        } else if s[at] == 1 {
            match parse_entry(s, at + 1) {
                Some((e, next)) => Some((Some(e), next)),
                None => None,
            }
        } else {
            None
        }
    } else {
        None
    }
}

pub open spec fn parse_agent(s: Seq<u8>, at: int) -> Option<(Agent, int)> {
    match parse_u32(s, at) {
        Some((index, next)) => if index == 0 {
            Some((Agent::Client, next))
        } else if index == 1 {
            Some((Agent::Proposer, next))
        } else if index == 2 {
            Some((Agent::Acceptor, next))
        } else if index == 3 {
            Some((Agent::Learner, next))
        } else {
            None
        },
        None => None,
    }
}

pub open spec fn parse_body(s: Seq<u8>, at: int) -> Option<(BodyView, int)> {
    match parse_u32(s, at) {
        Some((index, mid)) => if index == 4 {
            Some((BodyView::Nack, mid))
        } else if index <= 3 {
            match parse_u32(s, mid) {
                Some((n, after)) => if index == 0 {
                    Some((BodyView::Prepare(n), after))
                } else if index == 1 {
                    match parse_optional_entry(s, after) {
                        Some((e, next)) => Some((BodyView::Promise(n, e), next)),
                        None => None,
                    }
                } else {
                    match parse_entry(s, after) {
                        Some((e, next)) => if index == 2 {
                            Some((BodyView::Accept(n, e), next))
                        } else {
                            Some((BodyView::Accepted(n, e), next))
                        },
                        None => None,
                    }
                },
                None => None,
            }
        } else {
            None
        },
        None => None,
    }
}

/// The message that stands at the start of a frame, if there is one.
pub open spec fn decode_message(s: Seq<u8>) -> Option<MessageView> {
    match parse_text(s, 0) {
        Some((from_addr, a)) => match parse_agent(s, a) {
            Some((agent, b)) => match parse_body(s, b) {
                Some((body, _)) => Some(MessageView { header: HeaderView { from_addr, agent }, body }),
                None => None,
            },
            None => None,
        },
        None => None,
    }
}


/// `std::str::from_utf8`: the bytes as a string slice, if and only if they
/// are well-formed UTF-8; the slice then holds the characters that the bytes
/// encode.
#[verifier::external_body]
fn str_from_utf8<'a>(bytes: &'a [u8]) -> (r: Option<&'a str>)
    ensures
        r is Some <==> valid_utf8(bytes@),
        r is Some ==> r->0@ == decode_utf8(bytes@),
{
    match std::str::from_utf8(bytes) {
        Ok(text) => Some(text),
        Err(_) => None,
    }
}

/// The text that a frame holds, if the whole frame is text.
pub fn text_of(frame: &[u8]) -> (r: Option<String>)
    ensures
        match r {
            Some(text) => valid_utf8(frame@) && text@ == decode_utf8(frame@),
            None => !valid_utf8(frame@),
        },
{
    match str_from_utf8(frame) {
        Some(text) => Some(text.to_owned()),
        None => None,
    }
}

fn take_u32(bytes: &[u8], at: usize) -> (r: Option<(u32, usize)>)
    requires
        at <= bytes@.len(),
    ensures
        match r {
            Some((v, next)) => parse_u32(bytes@, at as int) == Some((v, next as int)) && next
                <= bytes@.len(),
            None => parse_u32(bytes@, at as int) is None,
        },
{
    if bytes.len() - at < 4 {
        None
    } else {
        let v = u32_from_le_bytes(slice_subrange(bytes, at, at + 4));
        Some((v, at + 4))
    }
}

fn take_text(bytes: &[u8], at: usize) -> (r: Option<(String, usize)>)
    requires
        at <= bytes@.len(),
    ensures
        match r {
            Some((t, next)) => parse_text(bytes@, at as int) == Some((t@, next as int)) && next
                <= bytes@.len(),
            None => parse_text(bytes@, at as int) is None,
        },
{
    if bytes.len() - at < 8 {
        return None;
    }
    let n: u64 = u64_from_le_bytes(slice_subrange(bytes, at, at + 8));
    let start: usize = at + 8;
    let room: usize = bytes.len() - start;
    if n > room as u64 {
        return None;
    }
    let end: usize = start + n as usize;
    match str_from_utf8(slice_subrange(bytes, start, end)) {
        Some(text) => Some((text.to_owned(), end)),
        None => None,
    }
}

fn take_optional_text(bytes: &[u8], at: usize) -> (r: Option<(Option<String>, usize)>)
    requires
        at <= bytes@.len(),
    ensures
        match r {
            Some((Some(t), next)) => parse_optional_text(bytes@, at as int) == Some(
                (Some(t@), next as int),
            ) && next <= bytes@.len(),
            Some((None, next)) => parse_optional_text(bytes@, at as int) == Some(
                (None::<Seq<char>>, next as int),
            ) && next <= bytes@.len(),
            None => parse_optional_text(bytes@, at as int) is None,
        },
{
    if at >= bytes.len() {
        return None;
    }
    let tag: u8 = bytes[at];
    if tag == 0 {
        Some((None, at + 1))
    } else if tag == 1 {
        match take_text(bytes, at + 1) {
            Some((t, next)) => Some((Some(t), next)),
            None => None,
        }
    } else {
        None
    }
}

fn take_entry(bytes: &[u8], at: usize) -> (r: Option<(Entry<Key, Value>, usize)>)
    requires
        at <= bytes@.len(),
    ensures
        match r {
            Some((e, next)) => parse_entry(bytes@, at as int) == Some((e@, next as int)) && next
                <= bytes@.len(),
            None => parse_entry(bytes@, at as int) is None,
        },
{
    match take_text(bytes, at) {
        Some((key, mid)) => match take_optional_text(bytes, mid) {
            Some((val, next)) => Some((Entry { key, val }, next)),
            None => None,
        },
        None => None,
    }
}

fn take_optional_entry(bytes: &[u8], at: usize) -> (r: Option<(Option<Entry<Key, Value>>, usize)>)
    requires
        at <= bytes@.len(),
    ensures
        match r {
            Some((Some(e), next)) => parse_optional_entry(bytes@, at as int) == Some(
                (Some(e@), next as int),
            ) && next <= bytes@.len(),
            Some((None, next)) => parse_optional_entry(bytes@, at as int) == Some(
                (None::<EntryView>, next as int),
            ) && next <= bytes@.len(),
            None => parse_optional_entry(bytes@, at as int) is None,
        },
{
    if at >= bytes.len() {
        return None;
    }
    let tag: u8 = bytes[at];
    if tag == 0 {
        Some((None, at + 1))
    } else if tag == 1 {
        match take_entry(bytes, at + 1) {
            Some((e, next)) => Some((Some(e), next)),
            None => None,
        }
    } else {
        None
    }
}

fn take_agent(bytes: &[u8], at: usize) -> (r: Option<(Agent, usize)>)
    requires
        at <= bytes@.len(),
    ensures
        match r {
            Some((a, next)) => parse_agent(bytes@, at as int) == Some((a, next as int)) && next
                <= bytes@.len(),
            None => parse_agent(bytes@, at as int) is None,
        },
{
    match take_u32(bytes, at) {
        Some((index, next)) => if index == 0 {
            Some((Agent::Client, next))
        } else if index == 1 {
            Some((Agent::Proposer, next))
        } else if index == 2 {
            Some((Agent::Acceptor, next))
        } else if index == 3 {
            Some((Agent::Learner, next))
        } else {
            None
        },
        None => None,
    }
}

fn take_body(bytes: &[u8], at: usize) -> (r: Option<(MessageBody, usize)>)
    requires
        at <= bytes@.len(),
    ensures
        match r {
            Some((b, next)) => parse_body(bytes@, at as int) == Some((b@, next as int)) && next
                <= bytes@.len(),
            None => parse_body(bytes@, at as int) is None,
        },
{
    let (index, mid) = match take_u32(bytes, at) {
        Some(found) => found,
        None => {
            return None;
        },
    };
    if index == 4 {
        return Some((MessageBody::Nack, mid));
    }
    if index > 3 {
        return None;
    }
    let (n, after) = match take_u32(bytes, mid) {
        Some(found) => found,
        None => {
            return None;
        },
    };
    if index == 0 {
        Some((MessageBody::Prepare(n), after))
    } else if index == 1 {
        match take_optional_entry(bytes, after) {
            Some((e, next)) => Some((MessageBody::Promise(n, e), next)),
            None => None,
        }
    } else {
        match take_entry(bytes, after) {
            Some((e, next)) => if index == 2 {
                Some((MessageBody::Accept(n, e), next))
            } else {
                Some((MessageBody::Accepted(n, e), next))
            },
            None => None,
        }
    }
}

/// Reads the message that stands at the start of a frame. Bytes that follow
/// the message are ignored.
pub fn decode(bytes: &[u8]) -> (r: Option<Message>)
    ensures
        match r {
            Some(m) => decode_message(bytes@) == Some(m@),
            None => decode_message(bytes@) is None,
        },
{
    match take_text(bytes, 0) {
        Some((from_addr, a)) => match take_agent(bytes, a) {
            Some((agent, b)) => match take_body(bytes, b) {
                Some((body, _)) => Some(Message { header: MessageHeader { from_addr, agent }, body }),
                None => None,
            },
            None => None,
        },
        None => None,
    }
}


/// Whether `part` stands in `s` from position `at` on.
pub open spec fn occurs_at(s: Seq<u8>, at: int, part: Seq<u8>) -> bool {
    &&& 0 <= at
    &&& at + part.len() <= s.len()
    &&& s.subrange(at, at + part.len()) == part
}

proof fn lemma_occurs_split(s: Seq<u8>, at: int, a: Seq<u8>, b: Seq<u8>)
    requires
        occurs_at(s, at, a + b),
    ensures
        occurs_at(s, at, a),
        occurs_at(s, at + a.len(), b),
{
    let whole = s.subrange(at, at + (a + b).len());
    assert(s.subrange(at, at + a.len()) =~= whole.subrange(0, a.len() as int));
    assert((a + b).subrange(0, a.len() as int) =~= a);
    assert(s.subrange(at + a.len(), at + a.len() + b.len()) =~= whole.subrange(
        a.len() as int,
        (a + b).len() as int,
    ));
    assert((a + b).subrange(a.len() as int, (a + b).len() as int) =~= b);
}

proof fn lemma_occurs_join(s: Seq<u8>, at: int, a: Seq<u8>, b: Seq<u8>)
    requires
        occurs_at(s, at, a),
        occurs_at(s, at + a.len(), b),
    ensures
        occurs_at(s, at, a + b),
{
    assert(s.subrange(at, at + (a + b).len()) =~= s.subrange(at, at + a.len()) + s.subrange(
        at + a.len(),
        at + a.len() + b.len(),
    ));
}

proof fn lemma_u32_complete(s: Seq<u8>, at: int, n: u32)
    requires
        occurs_at(s, at, spec_u32_to_le_bytes(n)),
    ensures
        parse_u32(s, at) == Some((n, at + 4)),
{
    lemma_auto_spec_u32_to_from_le_bytes();
}

proof fn lemma_u32_sound(s: Seq<u8>, at: int)
    requires
        parse_u32(s, at) is Some,
    ensures
        occurs_at(s, at, spec_u32_to_le_bytes(parse_u32(s, at).unwrap().0)),
        parse_u32(s, at).unwrap().1 == at + 4,
{
    lemma_auto_spec_u32_to_from_le_bytes();
    assert(s.subrange(at, at + 4).len() == 4);
}

proof fn lemma_text_complete(s: Seq<u8>, at: int, text: Seq<char>)
    requires
        text_fits(text),
        occurs_at(s, at, encode_text(text)),
    ensures
        parse_text(s, at) == Some((text, at + encode_text(text).len())),
{
    let bytes = encode_utf8(text);
    let prefix = spec_u64_to_le_bytes(bytes.len() as u64);
    lemma_auto_spec_u64_to_from_le_bytes();
    lemma_occurs_split(s, at, prefix, bytes);
    encode_utf8_valid_utf8(text);
    encode_utf8_decode_utf8(text);
}

proof fn lemma_text_sound(s: Seq<u8>, at: int)
    requires
        parse_text(s, at) is Some,
    ensures
        text_fits(parse_text(s, at).unwrap().0),
        occurs_at(s, at, encode_text(parse_text(s, at).unwrap().0)),
        parse_text(s, at).unwrap().1 == at + encode_text(parse_text(s, at).unwrap().0).len(),
{
    lemma_auto_spec_u64_to_from_le_bytes();
    let head = s.subrange(at, at + 8);
    assert(head.len() == 8);
    let n = spec_u64_from_le_bytes(head) as int;
    let bytes = s.subrange(at + 8, at + 8 + n);
    decode_utf8_encode_utf8(bytes);
    let text = decode_utf8(bytes);
    assert(encode_utf8(text) == bytes);
    assert(spec_u64_to_le_bytes(bytes.len() as u64) == head);
    lemma_occurs_join(s, at, head, bytes);
}

proof fn lemma_optional_text_complete(s: Seq<u8>, at: int, text: Option<Seq<char>>)
    requires
        text is Some ==> text_fits(text->0),
        occurs_at(s, at, encode_optional_text(text)),
    ensures
        parse_optional_text(s, at) == Some((text, at + encode_optional_text(text).len())),
{
    match text {
        Some(t) => {
            lemma_occurs_split(s, at, seq![1u8], encode_text(t));
            assert(s.subrange(at, at + 1)[0] == 1u8);
            lemma_text_complete(s, at + 1, t);
        },
        None => {
            assert(s.subrange(at, at + 1)[0] == 0u8);
        },
    }
}

proof fn lemma_optional_text_sound(s: Seq<u8>, at: int)
    requires
        parse_optional_text(s, at) is Some,
    ensures
        parse_optional_text(s, at).unwrap().0 is Some ==> text_fits(parse_optional_text(s, at).unwrap().0.unwrap()),
        occurs_at(s, at, encode_optional_text(parse_optional_text(s, at).unwrap().0)),
        parse_optional_text(s, at).unwrap().1 == at + encode_optional_text(
            parse_optional_text(s, at).unwrap().0,
        ).len(),
{
    if s[at] == 1 {
        lemma_text_sound(s, at + 1);
        assert(s.subrange(at, at + 1) =~= seq![1u8]);
        lemma_occurs_join(s, at, seq![1u8], encode_text(parse_text(s, at + 1).unwrap().0));
    } else {
        assert(s.subrange(at, at + 1) =~= seq![0u8]);
    }
}

proof fn lemma_entry_complete(s: Seq<u8>, at: int, entry: EntryView)
    requires
        entry_fits(entry),
        occurs_at(s, at, encode_entry(entry)),
    ensures
        parse_entry(s, at) == Some((entry, at + encode_entry(entry).len())),
{
    lemma_occurs_split(s, at, encode_text(entry.key), encode_optional_text(entry.val));
    lemma_text_complete(s, at, entry.key);
    lemma_optional_text_complete(s, at + encode_text(entry.key).len(), entry.val);
}

proof fn lemma_entry_sound(s: Seq<u8>, at: int)
    requires
        parse_entry(s, at) is Some,
    ensures
        entry_fits(parse_entry(s, at).unwrap().0),
        occurs_at(s, at, encode_entry(parse_entry(s, at).unwrap().0)),
        parse_entry(s, at).unwrap().1 == at + encode_entry(parse_entry(s, at).unwrap().0).len(),
{
    lemma_text_sound(s, at);
    let (key, mid) = parse_text(s, at)->0;
    lemma_optional_text_sound(s, mid);
    let val = parse_optional_text(s, mid).unwrap().0;
    lemma_occurs_join(s, at, encode_text(key), encode_optional_text(val));
}

proof fn lemma_optional_entry_complete(s: Seq<u8>, at: int, entry: Option<EntryView>)
    requires
        entry is Some ==> entry_fits(entry->0),
        occurs_at(s, at, encode_optional_entry(entry)),
    ensures
        parse_optional_entry(s, at) == Some((entry, at + encode_optional_entry(entry).len())),
{
    match entry {
        Some(e) => {
            lemma_occurs_split(s, at, seq![1u8], encode_entry(e));
            assert(s.subrange(at, at + 1)[0] == 1u8);
            lemma_entry_complete(s, at + 1, e);
        },
        None => {
            assert(s.subrange(at, at + 1)[0] == 0u8);
        },
    }
}

proof fn lemma_optional_entry_sound(s: Seq<u8>, at: int)
    requires
        parse_optional_entry(s, at) is Some,
    ensures
        parse_optional_entry(s, at).unwrap().0 is Some ==> entry_fits(
            parse_optional_entry(s, at).unwrap().0.unwrap(),
        ),
        occurs_at(s, at, encode_optional_entry(parse_optional_entry(s, at).unwrap().0)),
        parse_optional_entry(s, at).unwrap().1 == at + encode_optional_entry(
            parse_optional_entry(s, at).unwrap().0,
        ).len(),
{
    if s[at] == 1 {
        lemma_entry_sound(s, at + 1);
        assert(s.subrange(at, at + 1) =~= seq![1u8]);
        lemma_occurs_join(s, at, seq![1u8], encode_entry(parse_entry(s, at + 1).unwrap().0));
    } else {
        assert(s.subrange(at, at + 1) =~= seq![0u8]);
    }
}

proof fn lemma_agent_complete(s: Seq<u8>, at: int, agent: Agent)
    requires
        occurs_at(s, at, spec_u32_to_le_bytes(agent_index(agent))),
    ensures
        parse_agent(s, at) == Some((agent, at + 4)),
{
    lemma_u32_complete(s, at, agent_index(agent));
}

proof fn lemma_agent_sound(s: Seq<u8>, at: int)
    requires
        parse_agent(s, at) is Some,
    ensures
        occurs_at(s, at, spec_u32_to_le_bytes(agent_index(parse_agent(s, at).unwrap().0))),
        parse_agent(s, at).unwrap().1 == at + 4,
{
    lemma_u32_sound(s, at);
}

proof fn lemma_body_complete(s: Seq<u8>, at: int, body: BodyView)
    requires
        body_fits(body),
        occurs_at(s, at, encode_body(body)),
    ensures
        parse_body(s, at) == Some((body, at + encode_body(body).len())),
{
    lemma_auto_spec_u32_to_from_le_bytes();
    match body {
        BodyView::Prepare(n) => {
            lemma_occurs_split(s, at, spec_u32_to_le_bytes(0), spec_u32_to_le_bytes(n));
            lemma_u32_complete(s, at, 0);
            lemma_u32_complete(s, at + 4, n);
        },
        BodyView::Promise(n, e) => {
            let head = spec_u32_to_le_bytes(1) + spec_u32_to_le_bytes(n);
            lemma_occurs_split(s, at, head, encode_optional_entry(e));
            lemma_occurs_split(s, at, spec_u32_to_le_bytes(1), spec_u32_to_le_bytes(n));
            lemma_u32_complete(s, at, 1);
            lemma_u32_complete(s, at + 4, n);
            lemma_optional_entry_complete(s, at + 8, e);
        },
        BodyView::Accept(n, e) => {
            let head = spec_u32_to_le_bytes(2) + spec_u32_to_le_bytes(n);
            lemma_occurs_split(s, at, head, encode_entry(e));
            lemma_occurs_split(s, at, spec_u32_to_le_bytes(2), spec_u32_to_le_bytes(n));
            lemma_u32_complete(s, at, 2);
            lemma_u32_complete(s, at + 4, n);
            lemma_entry_complete(s, at + 8, e);
        },
        BodyView::Accepted(n, e) => {
            let head = spec_u32_to_le_bytes(3) + spec_u32_to_le_bytes(n);
            lemma_occurs_split(s, at, head, encode_entry(e));
            lemma_occurs_split(s, at, spec_u32_to_le_bytes(3), spec_u32_to_le_bytes(n));
            lemma_u32_complete(s, at, 3);
            lemma_u32_complete(s, at + 4, n);
            lemma_entry_complete(s, at + 8, e);
        },
        BodyView::Nack => {
            lemma_u32_complete(s, at, 4);
        },
    }
}

proof fn lemma_body_sound(s: Seq<u8>, at: int)
    requires
        parse_body(s, at) is Some,
    ensures
        body_fits(parse_body(s, at).unwrap().0),
        occurs_at(s, at, encode_body(parse_body(s, at).unwrap().0)),
        parse_body(s, at).unwrap().1 == at + encode_body(parse_body(s, at).unwrap().0).len(),
{
    lemma_auto_spec_u32_to_from_le_bytes();
    lemma_u32_sound(s, at);
    let index = parse_u32(s, at).unwrap().0;
    if index != 4 {
        lemma_u32_sound(s, at + 4);
        let n = parse_u32(s, at + 4).unwrap().0;
        let head = spec_u32_to_le_bytes(index) + spec_u32_to_le_bytes(n);
        lemma_occurs_join(s, at, spec_u32_to_le_bytes(index), spec_u32_to_le_bytes(n));
        if index == 1 {
            lemma_optional_entry_sound(s, at + 8);
            lemma_occurs_join(
                s,
                at,
                head,
                encode_optional_entry(parse_optional_entry(s, at + 8).unwrap().0),
            );
        } else if index != 0 {
            lemma_entry_sound(s, at + 8);
            lemma_occurs_join(s, at, head, encode_entry(parse_entry(s, at + 8).unwrap().0));
        }
    }
}

/// Reading gives back the message that was written, whatever follows it in
/// the frame.
pub proof fn lemma_decode_encode(message: MessageView, rest: Seq<u8>)
    requires
        message_fits(message),
    ensures
        decode_message(encode_message(message) + rest) == Some(message),
{
    let header = encode_header(message.header);
    let body = encode_body(message.body);
    let s = encode_message(message) + rest;
    assert(s.subrange(0, (header + body).len() as int) =~= header + body);
    lemma_occurs_split(s, 0, header, body);
    lemma_occurs_split(
        s,
        0,
        encode_text(message.header.from_addr),
        spec_u32_to_le_bytes(agent_index(message.header.agent)),
    );
    lemma_text_complete(s, 0, message.header.from_addr);
    lemma_agent_complete(
        s,
        encode_text(message.header.from_addr).len() as int,
        message.header.agent,
    );
    lemma_auto_spec_u32_to_from_le_bytes();
    lemma_body_complete(s, header.len() as int, message.body);
}

/// A frame from which a message is read starts with the bytes that stand
/// for that message. So no two messages are read from the same frame, and
/// only the bytes of the message decide what is read.
pub proof fn lemma_decode_is_prefix(s: Seq<u8>)
    requires
        decode_message(s) is Some,
    ensures
        message_fits(decode_message(s)->0),
        encode_message(decode_message(s)->0).is_prefix_of(s),
{
    let message = decode_message(s)->0;
    lemma_auto_spec_u32_to_from_le_bytes();
    lemma_text_sound(s, 0);
    let a = parse_text(s, 0).unwrap().1;
    lemma_agent_sound(s, a);
    let b = parse_agent(s, a).unwrap().1;
    lemma_body_sound(s, b);
    lemma_occurs_join(
        s,
        0,
        encode_text(message.header.from_addr),
        spec_u32_to_le_bytes(agent_index(message.header.agent)),
    );
    lemma_occurs_join(s, 0, encode_header(message.header), encode_body(message.body));
    assert(s.subrange(0, encode_message(message).len() as int) == encode_message(message));
    assert(encode_message(message).is_prefix_of(s));
}


/// What a receiver takes from a connection at once: the bytes that were
/// sent, up to the maximum size of a message.
pub open spec fn frame_of(sent: Seq<u8>) -> Seq<u8> {
    if sent.len() <= MAX_MSG_SIZE {
        sent
    } else {
        sent.take(MAX_MSG_SIZE as int)
    }
}

/// Whether the bytes of a message reach a receiver whole.
pub fn fits_frame(bytes: &[u8]) -> (fits: bool)
    ensures
        fits == (bytes@.len() <= MAX_MSG_SIZE),
        fits ==> frame_of(bytes@) == bytes@,
{
    bytes.len() <= MAX_MSG_SIZE
}

/// A message whose bytes are no more than a frame holds is read back by
/// its receiver, whatever was sent after it.
pub proof fn lemma_frame_round_trip(message: MessageView, sent_after: Seq<u8>)
    requires
        message_fits(message),
        encode_message(message).len() <= MAX_MSG_SIZE,
    ensures
        decode_message(frame_of(encode_message(message) + sent_after)) == Some(message),
{
    let bytes = encode_message(message);
    let sent = bytes + sent_after;
    if sent.len() <= MAX_MSG_SIZE {
        lemma_decode_encode(message, sent_after);
    } else {
        let kept = sent_after.take(MAX_MSG_SIZE - bytes.len());
        assert(sent.take(MAX_MSG_SIZE as int) =~= bytes + kept);
        lemma_decode_encode(message, kept);
    }
}

} // verus!
