//! Single-decree Paxos as the replication backbone of a small key-value store.
//!
//! The crate holds the protocol engine only: the message envelope and its wire
//! format, the acceptor's promise/accept state machine, and the proposer's
//! round logic. Sockets, threads and process start-up are left to the caller,
//! which feeds the engine with the frames it read and sends what it is told to.

use vstd::prelude::*;

pub mod netutil;
pub mod protocol;

verus! {

/// An error that carries nothing but a human-readable message.
#[derive(Debug)]
pub struct CustomError {
    msg: String,
}

impl CustomError {
    /// The message of the error, as a sequence of characters.
    pub closed spec fn text(&self) -> Seq<char> {
        self.msg@
    }

    pub fn new(msg: &str) -> (e: Self)
        ensures
            e.text() == msg@,
    {
        Self { msg: msg.to_owned() }
    }

    /// The message, as an owned string.
    pub fn to_string(&self) -> (s: String)
        ensures
            s@ == self.text(),
    {
        self.msg.clone()
    }
}

/// The ways in which a round, a request or a frame can fail.
#[derive(Debug, Clone, Copy, PartialEq, Eq, Structural)]
pub enum PaxosError {
    /// At most one acceptor was judged reachable.
    QuorumUnavailable,
    /// Not every connection of phase one answered with a promise.
    QuorumPromiseFailure,
    /// No connection of phase two answered with an entry that carries a value.
    NoAcceptedValue,
    /// The client's command could not be understood.
    BadRequest,
    /// The frame is neither a protocol message nor text.
    ProtocolDecodeError,
    /// A message arrived that the receiver does not expect at this point.
    UnexpectedMessage,
    /// A peer did not answer in time.
    PeerTimeout,
}

impl PaxosError {
    /// The message that describes each error.
    pub open spec fn description(self) -> Seq<char> {
        match self {
            PaxosError::QuorumUnavailable => "cannot find quorum"@,
            PaxosError::QuorumPromiseFailure => "failed to receive Promises from quorum"@,
            PaxosError::NoAcceptedValue => "no accepted value from quorum"@,
            PaxosError::BadRequest => "bad client request"@,
            PaxosError::ProtocolDecodeError => "frame is neither a message nor text"@,
            PaxosError::UnexpectedMessage => "unexpected message"@,
            PaxosError::PeerTimeout => "peer timed out"@,
        }
    }

    /// Turns the error into one that carries its description.
    pub fn into_custom(self) -> (e: CustomError)
        ensures
            e.text() == self.description(),
    {
        match self {
            PaxosError::QuorumUnavailable => CustomError::new("cannot find quorum"),
            PaxosError::QuorumPromiseFailure => CustomError::new(
                "failed to receive Promises from quorum",
            ),
            PaxosError::NoAcceptedValue => CustomError::new("no accepted value from quorum"),
            PaxosError::BadRequest => CustomError::new("bad client request"),
            PaxosError::ProtocolDecodeError => CustomError::new(
                "frame is neither a message nor text",
            ),
            PaxosError::UnexpectedMessage => CustomError::new("unexpected message"),
            PaxosError::PeerTimeout => CustomError::new("peer timed out"),
        }
    }
}

} // verus!
