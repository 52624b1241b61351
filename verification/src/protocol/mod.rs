//! The messages that the agents exchange, and what they stand for.

use crate::netutil::Address;
use crate::protocol::wire::decode_message;
use crate::PaxosError;
use vstd::prelude::*;
use vstd::utf8::{decode_utf8, valid_utf8};

pub mod acceptor;
pub mod command;
pub mod proposer;
pub mod wire;

verus! {

pub type Key = String;

pub type Value = String;

/// The maximum size, in bytes, of an entire message on the network.
pub const MAX_MSG_SIZE: usize = 512;

/// The role in which a node sends a message.
#[derive(Debug, Clone, Copy, PartialEq, Eq, Structural)]
pub enum Agent {
    Client,
    Proposer,
    Acceptor,
    Learner,
}

/// Who sent a message.
#[derive(Debug, Clone, PartialEq, Eq)]
pub struct MessageHeader {
    pub from_addr: String,
    pub agent: Agent,
}

/// What a message says.
#[derive(Debug, Clone, PartialEq, Eq)]
pub enum MessageBody {
    /// A proposer asks for a promise on a proposal number.
    Prepare(u32),
    /// An acceptor promises; it may disclose an entry that it accepted before.
    Promise(u32, Option<Entry<Key, Value>>),
    /// A proposer asks the acceptor to accept an entry.
    Accept(u32, Entry<Key, Value>),
    /// An acceptor has accepted an entry.
    Accepted(u32, Entry<Key, Value>),
    /// An acceptor refuses a proposal number.
    Nack,
}

/// A message on the Paxos network.
#[derive(Debug, Clone, PartialEq, Eq)]
pub struct Message {
    pub header: MessageHeader,
    pub body: MessageBody,
}

/// A key with the value bound to it. No value stands for a read of the key,
/// a value for a write.
#[derive(Debug, Clone, PartialEq, Eq)]
pub struct Entry<K, V> {
    pub key: K,
    pub val: Option<V>,
}

/// An entry, with its strings as sequences of characters.
pub struct EntryView {
    pub key: Seq<char>,
    pub val: Option<Seq<char>>,
}

/// A header, with its address as a sequence of characters.
pub struct HeaderView {
    pub from_addr: Seq<char>,
    pub agent: Agent,
}

/// A body, with its entries as views.
pub enum BodyView {
    Prepare(u32),
    Promise(u32, Option<EntryView>),
    Accept(u32, EntryView),
    Accepted(u32, EntryView),
    Nack,
}

/// A message, with its parts as views.
pub struct MessageView {
    pub header: HeaderView,
    pub body: BodyView,
}

impl View for Entry<Key, Value> {
    type V = EntryView;

    open spec fn view(&self) -> EntryView {
        EntryView {
            key: self.key@,
            val: match self.val {
                Some(v) => Some(v@),
                None => None,
            },
        }
    }
}

impl View for MessageHeader {
    type V = HeaderView;

    open spec fn view(&self) -> HeaderView {
        HeaderView { from_addr: self.from_addr@, agent: self.agent }
    }
}

impl View for MessageBody {
    type V = BodyView;

    open spec fn view(&self) -> BodyView {
        match self {
            MessageBody::Prepare(n) => BodyView::Prepare(*n),
            MessageBody::Promise(n, Some(e)) => BodyView::Promise(*n, Some(e@)),
            MessageBody::Promise(n, None) => BodyView::Promise(*n, None),
            MessageBody::Accept(n, e) => BodyView::Accept(*n, e@),
            MessageBody::Accepted(n, e) => BodyView::Accepted(*n, e@),
            MessageBody::Nack => BodyView::Nack,
        }
    }
}

impl View for Message {
    type V = MessageView;

    open spec fn view(&self) -> MessageView {
        MessageView { header: self.header@, body: self.body@ }
    }
}

impl Entry<Key, Value> {
    /// A copy of the entry.
    pub fn duplicate(&self) -> (e: Self)
        ensures
            e@ == self@,
    {
        Entry {
            key: self.key.clone(),
            val: match &self.val {
                Some(v) => Some(v.clone()),
                None => None,
            },
        }
    }
}


/// The message with which a node at `address` says `body` in the role `agent`.
pub open spec fn envelope(address: Address, agent: Agent, body: BodyView) -> MessageView {
    MessageView { header: HeaderView { from_addr: address.text(), agent }, body }
}

/// What a store of strings holds, with its values as sequences of characters.
pub open spec fn store_view(store: Map<Seq<char>, Value>) -> Map<Seq<char>, Seq<char>> {
    store.map_values(|v: Value| v@)
}

/// The value bound to `key`, or the empty string where none is bound.
pub open spec fn lookup(store: Map<Seq<char>, Seq<char>>, key: Seq<char>) -> Seq<char> {
    if store.contains_key(key) {
        store[key]
    } else {
        Seq::empty()
    }
}

/// Proof that an acceptor has promised on the connection at hand. Only an
/// acceptor's promise makes one, and an accept request is handled only in
/// exchange for one.
#[derive(Debug, PartialEq, Eq)]
pub struct Promised {
    pub(crate) number: u32,
}

impl Promised {
    /// The proposal number that was promised.
    pub closed spec fn promised_number(&self) -> u32 {
        self.number
    }

    pub fn number(&self) -> (n: u32)
        ensures
            n == self.promised_number(),
    {
        self.number
    }
}

/// What the handler of a connection has to do after a frame was handled.
#[derive(Debug, PartialEq, Eq)]
pub enum Response {
    /// Send nothing.
    Nothing,
    /// Send the message and end the exchange.
    Reply(Message),
    /// Send the message, then read the next frame on the same connection and
    /// hand it to the acceptor together with the promise.
    ReplyAndAwait(Message, Promised),
    /// Run a round for the entry.
    Propose(Entry<Key, Value>),
}

/// A response, with its parts as views.
pub enum ResponseView {
    Nothing,
    Reply(MessageView),
    ReplyAndAwait(MessageView, u32),
    Propose(EntryView),
}

impl View for Response {
    type V = ResponseView;

    open spec fn view(&self) -> ResponseView {
        match self {
            Response::Nothing => ResponseView::Nothing,
            Response::Reply(m) => ResponseView::Reply(m@),
            Response::ReplyAndAwait(m, p) => ResponseView::ReplyAndAwait(m@, p.promised_number()),
            Response::Propose(e) => ResponseView::Propose(e@),
        }
    }
}


/// The outcome of a handler, with its parts as views.
pub open spec fn outcome_view(outcome: Result<Response, PaxosError>) -> Result<
    ResponseView,
    PaxosError,
> {
    match outcome {
        Ok(response) => Ok(response@),
        Err(e) => Err(e),
    }
}

/// Where a frame comes from, and what it holds.
#[derive(Debug, PartialEq, Eq)]
pub enum Inbound {
    /// A message that a proposer sent.
    FromProposer(Message),
    /// A message that an acceptor sent.
    FromAcceptor(Message),
    /// A line of text, which only a client sends.
    FromClient(String),
}

/// An inbound frame, with its parts as views.
pub enum InboundView {
    FromProposer(MessageView),
    FromAcceptor(MessageView),
    FromClient(Seq<char>),
}

impl View for Inbound {
    type V = InboundView;

    open spec fn view(&self) -> InboundView {
        match self {
            Inbound::FromProposer(m) => InboundView::FromProposer(m@),
            Inbound::FromAcceptor(m) => InboundView::FromAcceptor(m@),
            Inbound::FromClient(t) => InboundView::FromClient(t@),
        }
    }
}

/// How a frame is read. A frame that starts with a message is that message,
/// and goes by the role of its sender; only proposers and acceptors send
/// messages. Any other frame is a client's command if it is text, and no
/// frame of this protocol if it is not.
pub open spec fn classify_frame(frame: Seq<u8>) -> Result<InboundView, PaxosError> {
    match decode_message(frame) {
        Some(message) => match message.header.agent {
            Agent::Proposer => Ok(InboundView::FromProposer(message)),
            Agent::Acceptor => Ok(InboundView::FromAcceptor(message)),
            _ => Err(PaxosError::UnexpectedMessage),
        },
        None => if valid_utf8(frame) {
            Ok(InboundView::FromClient(decode_utf8(frame)))
        } else {
            Err(PaxosError::ProtocolDecodeError)
        },
    }
}

/// Reads a frame and tells where it comes from.
pub fn classify(frame: &[u8]) -> (r: Result<Inbound, PaxosError>)
    ensures
        match r {
            Ok(inbound) => classify_frame(frame@) == Ok::<InboundView, PaxosError>(inbound@),
            Err(e) => classify_frame(frame@) == Err::<InboundView, PaxosError>(e),
        },
{
    match wire::decode(frame) {
        Some(message) => match message.header.agent {
            Agent::Proposer => Ok(Inbound::FromProposer(message)),
            Agent::Acceptor => Ok(Inbound::FromAcceptor(message)),
            _ => Err(PaxosError::UnexpectedMessage),
        },
        None => match wire::text_of(frame) {
            Some(text) => Ok(Inbound::FromClient(text)),
            None => Err(PaxosError::ProtocolDecodeError),
        },
    }
}

/// A peer on the network. Each peer handles what clients, proposers and
/// acceptors send to it.
pub trait Peer: Sized {
    /// The address at which the peer listens.
    spec fn peer_address(&self) -> Address;

    /// The role in which the peer sends.
    spec fn peer_agent(&self) -> Agent;

    /// Whether a client's command may take the peer from `self` to `after`
    /// with the given outcome.
    spec fn client_step(&self, text: Seq<char>, after: &Self, outcome: Result<Response, PaxosError>) -> bool;

    /// Whether a proposer's message may take the peer from `self` to `after`
    /// with the given outcome.
    spec fn proposer_step(
        &self,
        message: MessageView,
        after: &Self,
        outcome: Result<Response, PaxosError>,
    ) -> bool;

    /// Whether an acceptor's message may take the peer from `self` to
    /// `after` with the given outcome.
    spec fn acceptor_step(
        &self,
        message: MessageView,
        after: &Self,
        outcome: Result<Response, PaxosError>,
    ) -> bool;

    fn address(&self) -> (address: Address)
        ensures
            address == self.peer_address(),
    ;

    fn agent(&self) -> (agent: Agent)
        ensures
            agent == self.peer_agent(),
    ;

    /// Wraps a body into a message from this peer.
    fn message(&self, body: MessageBody) -> (message: Message)
        ensures
            message@ == envelope(self.peer_address(), self.peer_agent(), body@),
    {
        Message {
            header: MessageHeader { from_addr: self.address().to_string(), agent: self.agent() },
            body,
        }
    }

    fn handle_client(&mut self, text: &str) -> (outcome: Result<Response, PaxosError>)
        ensures
            old(self).client_step(text@, final(self), outcome),
    ;

    fn handle_proposer(&mut self, message: Message) -> (outcome: Result<Response, PaxosError>)
        ensures
            old(self).proposer_step(message@, final(self), outcome),
    ;

    fn handle_acceptor(&mut self, message: Message) -> (outcome: Result<Response, PaxosError>)
        ensures
            old(self).acceptor_step(message@, final(self), outcome),
    ;

    /// Handles the frame that was read from a connection: hands it to the
    /// handler for its sender, and fails, leaving the peer as it was, where
    /// the frame cannot be read.
    fn handle_conn(&mut self, frame: &[u8]) -> (outcome: Result<Response, PaxosError>)
        ensures
            match classify_frame(frame@) {
                Ok(InboundView::FromProposer(m)) => old(self).proposer_step(m, final(self), outcome),
                Ok(InboundView::FromAcceptor(m)) => old(self).acceptor_step(m, final(self), outcome),
                Ok(InboundView::FromClient(t)) => old(self).client_step(t, final(self), outcome),
                Err(e) => *final(self) == *old(self) && outcome == Err::<Response, PaxosError>(e),
            },
    {
        match classify(frame) {
            Ok(Inbound::FromProposer(message)) => self.handle_proposer(message),
            Ok(Inbound::FromAcceptor(message)) => self.handle_acceptor(message),
            Ok(Inbound::FromClient(text)) => self.handle_client(text.as_str()),
            Err(e) => Err(e),
        }
    }
}

} // verus!
