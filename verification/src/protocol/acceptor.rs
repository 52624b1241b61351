//! The acceptor: it promises on proposal numbers and learns the values that
//! it is asked to accept.

use crate::netutil::Address;
use crate::protocol::{
    envelope, lookup, store_view, Agent, BodyView, Entry, EntryView, Key, Message, MessageBody,
    MessageHeader, MessageView, Peer, Promised, Response, ResponseView, Value, outcome_view,
};
use crate::PaxosError;
use vstd::hash_map::StringHashMap;
use vstd::prelude::*;

verus! {

/// An acceptor, which is also the learner of its own replica.
pub struct Acceptor {
    address: Address,
    gen_clock: u32,
    learned_values: StringHashMap<Value>,
}

/// What an acceptor knows.
pub struct AcceptorView {
    pub address: Address,
    /// The highest proposal number that it has promised on.
    pub highest_seen: u32,
    /// The value that it has learned for each key.
    pub learned: Map<Seq<char>, Seq<char>>,
}

/// The acceptor after a prepare request for the proposal number `n`, and
/// its answer: a promise, without an entry, if `n` is above every number
/// promised so far; a refusal that changes nothing otherwise.
pub open spec fn prepare_step(state: AcceptorView, n: u32) -> (AcceptorView, BodyView) {
    if n > state.highest_seen {
        (AcceptorView { highest_seen: n, ..state }, BodyView::Promise(n, None))
    } else {
        (state, BodyView::Nack)
    }
}

/// The acceptor after an accept request, and its answer. An entry with a
/// value is learned and echoed. An entry without one changes nothing and is
/// answered with the value learned for its key, or with the empty string.
pub open spec fn accept_step(state: AcceptorView, n: u32, entry: EntryView) -> (
    AcceptorView,
    BodyView,
) {
    match entry.val {
        Some(v) => (
            AcceptorView { learned: state.learned.insert(entry.key, v), ..state },
            BodyView::Accepted(n, entry),
        ),
        None => (
            state,
            BodyView::Accepted(
                n,
                EntryView { key: entry.key, val: Some(lookup(state.learned, entry.key)) },
            ),
        ),
    }
}

impl View for Acceptor {
    type V = AcceptorView;

    closed spec fn view(&self) -> AcceptorView {
        AcceptorView {
            address: self.address,
            highest_seen: self.gen_clock,
            learned: store_view(self.learned_values@),
        }
    }
}

impl Acceptor {
    /// An acceptor that has promised nothing and learned nothing.
    pub fn new(address: Address) -> (acceptor: Self)
        ensures
            acceptor@ == (AcceptorView { address, highest_seen: 0, learned: Map::empty() }),
    {
        let acceptor = Self { address, gen_clock: 0, learned_values: StringHashMap::new() };
        assert(acceptor@.learned =~= Map::empty());
        acceptor
    }

    /// The highest proposal number promised so far.
    pub fn highest_seen(&self) -> (n: u32)
        ensures
            n == self@.highest_seen,
    {
        self.gen_clock
    }

    /// The value learned for a key, if there is one.
    pub fn learned(&self, key: &str) -> (value: Option<String>)
        ensures
            match value {
                Some(v) => self@.learned.contains_key(key@) && self@.learned[key@] == v@,
                None => !self@.learned.contains_key(key@),
            },
    {
        match self.learned_values.get(key) {
            Some(v) => Some(v.clone()),
            None => None,
        }
    }

    fn envelope_of(&self, body: MessageBody) -> (message: Message)
        ensures
            message@ == envelope(self@.address, Agent::Acceptor, body@),
    {
        Message {
            header: MessageHeader { from_addr: self.address.to_string(), agent: Agent::Acceptor },
            body,
        }
    }

    /// Answers a prepare request for the proposal number `n`.
    pub fn on_prepare(&mut self, n: u32) -> (reply: Message)
        ensures
            final(self)@ == prepare_step(old(self)@, n).0,
            reply@ == envelope(old(self)@.address, Agent::Acceptor, prepare_step(old(self)@, n).1),
    {
        if n > self.gen_clock {
            let reply = self.envelope_of(MessageBody::Promise(n, None));
            self.gen_clock = n;
            reply
        } else {
            self.envelope_of(MessageBody::Nack)
        }
    }

    /// Answers an accept request: learns the entry's value, or resolves the
    /// value of its key.
    pub fn on_accept(&mut self, n: u32, entry: Entry<Key, Value>) -> (reply: Message)
        ensures
            final(self)@ == accept_step(old(self)@, n, entry@).0,
            reply@ == envelope(
                old(self)@.address,
                Agent::Acceptor,
                accept_step(old(self)@, n, entry@).1,
            ),
    {
        let accepted_value: String = match entry.val {
            Some(value) => {
                self.learned_values.insert(entry.key.clone(), value.clone());
                assert(final(self)@.learned =~= old(self)@.learned.insert(entry.key@, value@));
                value
            },
            None => match self.learned_values.get(entry.key.as_str()) {
                Some(inner) => inner.clone(),
                None => String::new(),
            },
        };
        let resolved = Entry { key: entry.key, val: Some(accepted_value) };
        self.envelope_of(MessageBody::Accepted(n, resolved))
    }
}


/// The acceptor after a message from a proposer, and what it answers. A
/// prepare request is answered as `prepare_step` says; after a promise the
/// acceptor waits for the accept request on the same connection, after a
/// refusal the exchange is over. An accept request that follows no promise is
/// passed over. Any other message is none that a proposer sends.
pub open spec fn proposer_message_step(state: AcceptorView, message: MessageView) -> (
    AcceptorView,
    Result<ResponseView, PaxosError>,
) {
    match message.body {
        BodyView::Prepare(n) => {
            let reply = envelope(state.address, Agent::Acceptor, prepare_step(state, n).1);
            (
                prepare_step(state, n).0,
                if n > state.highest_seen {
                    Ok(ResponseView::ReplyAndAwait(reply, n))
                } else {
                    Ok(ResponseView::Reply(reply))
                },
            )
        },
        BodyView::Accept(_, _) => (state, Ok(ResponseView::Nothing)),
        _ => (state, Err(PaxosError::UnexpectedMessage)),
    }
}

/// The acceptor after the message that follows its promise, and its answer:
/// an accept request is answered as `accept_step` says, and nothing else is
/// expected.
pub open spec fn promised_message_step(state: AcceptorView, message: MessageView) -> (
    AcceptorView,
    Result<MessageView, PaxosError>,
) {
    match message.body {
        BodyView::Accept(n, entry) => (
            accept_step(state, n, entry).0,
            Ok(envelope(state.address, Agent::Acceptor, accept_step(state, n, entry).1)),
        ),
        _ => (state, Err(PaxosError::UnexpectedMessage)),
    }
}

impl Acceptor {
    /// Handles the message that a proposer sends after this acceptor's
    /// promise. The proposal number of the request is not held against the
    /// promise.
    pub fn handle_accept(&mut self, promise: Promised, message: Message) -> (outcome: Result<
        Message,
        PaxosError,
    >)
        ensures
            final(self)@ == promised_message_step(old(self)@, message@).0,
            match outcome {
                Ok(reply) => promised_message_step(old(self)@, message@).1 == Ok::<
                    MessageView,
                    PaxosError,
                >(reply@),
                Err(e) => promised_message_step(old(self)@, message@).1 == Err::<
                    MessageView,
                    PaxosError,
                >(e),
            },
    {
        match message.body {
            MessageBody::Accept(n, entry) => Ok(self.on_accept(n, entry)),
            _ => Err(PaxosError::UnexpectedMessage),
        }
    }
}

impl Peer for Acceptor {
    open spec fn peer_address(&self) -> Address {
        self@.address
    }

    open spec fn peer_agent(&self) -> Agent {
        Agent::Acceptor
    }

    /// An acceptor passes over what clients send.
    open spec fn client_step(
        &self,
        text: Seq<char>,
        after: &Self,
        outcome: Result<Response, PaxosError>,
    ) -> bool {
        after@ == self@ && outcome_view(outcome) == Ok::<ResponseView, PaxosError>(
            ResponseView::Nothing,
        )
    }

    open spec fn proposer_step(
        &self,
        message: MessageView,
        after: &Self,
        outcome: Result<Response, PaxosError>,
    ) -> bool {
        after@ == proposer_message_step(self@, message).0 && outcome_view(outcome)
            == proposer_message_step(self@, message).1
    }

    /// An acceptor passes over what other acceptors send.
    open spec fn acceptor_step(
        &self,
        message: MessageView,
        after: &Self,
        outcome: Result<Response, PaxosError>,
    ) -> bool {
        after@ == self@ && outcome_view(outcome) == Ok::<ResponseView, PaxosError>(
            ResponseView::Nothing,
        )
    }

    fn address(&self) -> (address: Address) {
        self.address
    }

    fn agent(&self) -> (agent: Agent) {
        Agent::Acceptor
    }

    fn handle_client(&mut self, text: &str) -> (outcome: Result<Response, PaxosError>) {
        Ok(Response::Nothing)
    }

    fn handle_proposer(&mut self, message: Message) -> (outcome: Result<Response, PaxosError>) {
        match message.body {
            MessageBody::Prepare(n) => {
                let promised = n > self.gen_clock;
                let reply = self.on_prepare(n);
                if promised {
                    Ok(Response::ReplyAndAwait(reply, Promised { number: n }))
                } else {
                    Ok(Response::Reply(reply))
                }
            },
            MessageBody::Accept(_, _) => Ok(Response::Nothing),
            _ => Err(PaxosError::UnexpectedMessage),
        }
    }

    fn handle_acceptor(&mut self, message: Message) -> (outcome: Result<Response, PaxosError>) {
        Ok(Response::Nothing)
    }
}


/// A request that reaches an acceptor.
pub enum Delivery {
    Prepare(u32),
    Accept(u32, EntryView),
}

/// The acceptor after one request.
pub open spec fn deliver(state: AcceptorView, delivery: Delivery) -> AcceptorView {
    match delivery {
        Delivery::Prepare(n) => prepare_step(state, n).0,
        Delivery::Accept(n, entry) => accept_step(state, n, entry).0,
    }
}

/// The acceptor after a run of requests, handled in their order.
pub open spec fn deliver_all(state: AcceptorView, run: Seq<Delivery>) -> AcceptorView
    decreases run.len(),
{
    if run.len() == 0 {
        state
    } else {
        deliver(deliver_all(state, run.drop_last()), run.last())
    }
}

/// Whether the request at position `i` of a run is a prepare request that
/// the acceptor answers with a promise.
pub open spec fn promises_at(state: AcceptorView, run: Seq<Delivery>, i: int) -> bool {
    &&& 0 <= i < run.len()
    &&& run[i] is Prepare
    &&& prepare_step(deliver_all(state, run.take(i)), run[i]->Prepare_0).1 is Promise
}

/// Whether the request at position `i` of a run writes `value` under `key`.
pub open spec fn writes_at(run: Seq<Delivery>, i: int, key: Seq<char>, value: Seq<char>) -> bool {
    &&& 0 <= i < run.len()
    &&& run[i] matches Delivery::Accept(_, entry)
    &&& entry.key == key
    &&& entry.val == Some(value)
}

/// Whether the request at position `i` of a run writes under `key`.
pub open spec fn writes_key_at(run: Seq<Delivery>, i: int, key: Seq<char>) -> bool {
    &&& 0 <= i < run.len()
    &&& run[i] matches Delivery::Accept(_, entry)
    &&& entry.key == key
    &&& entry.val is Some
}

/// The highest proposal number that an acceptor has promised on never
/// falls, whatever requests reach it and in whatever order; and the address
/// of the acceptor stays.
pub proof fn lemma_highest_seen_never_falls(state: AcceptorView, run: Seq<Delivery>)
    ensures
        deliver_all(state, run).highest_seen >= state.highest_seen,
        deliver_all(state, run).address == state.address,
    decreases run.len(),
{
    if run.len() > 0 {
        lemma_highest_seen_never_falls(state, run.drop_last());
    }
}

/// After a promise on a proposal number, the acceptor's highest number is
/// at least that number for the rest of the run.
proof fn lemma_promise_is_kept(state: AcceptorView, run: Seq<Delivery>, i: int, j: int)
    requires
        promises_at(state, run, i),
        i < j <= run.len(),
    ensures
        deliver_all(state, run.take(j)).highest_seen >= run[i]->Prepare_0,
    decreases j - i,
{
    let before = run.take(j - 1);
    assert(run.take(j).drop_last() =~= before);
    assert(run.take(j).last() == run[j - 1]);
    if j - 1 == i {
    } else {
        lemma_promise_is_kept(state, run, i, j - 1);
    }
}

/// An acceptor never promises a proposal number that is not above every
/// number that it has promised before: of two promises in a run of requests,
/// the later one is on the higher number, and every promise is on a number
/// above the one the acceptor started with. So a request that is
/// delivered twice is promised at most once.
pub proof fn lemma_promises_strictly_increase(
    state: AcceptorView,
    run: Seq<Delivery>,
    i: int,
    j: int,
)
    requires
        promises_at(state, run, i),
        promises_at(state, run, j),
        i < j,
    ensures
        state.highest_seen < run[i]->Prepare_0 < run[j]->Prepare_0,
{
    lemma_promise_is_kept(state, run, i, j);
    lemma_highest_seen_never_falls(state, run.take(i));
}

/// What an acceptor has learned for a key is the value of the last request
/// that wrote under that key, whatever came before it.
pub proof fn lemma_learned_is_last_write(
    state: AcceptorView,
    run: Seq<Delivery>,
    i: int,
    key: Seq<char>,
    value: Seq<char>,
)
    requires
        writes_at(run, i, key, value),
        forall|j: int| i < j < run.len() ==> !writes_key_at(run, j, key),
    ensures
        deliver_all(state, run).learned.contains_key(key),
        deliver_all(state, run).learned[key] == value,
    decreases run.len(),
{
    if i < run.len() - 1 {
        let before = run.drop_last();
        assert(writes_at(before, i, key, value));
        assert forall|j: int| i < j < before.len() implies !writes_key_at(before, j, key) by {
            assert(!writes_key_at(run, j, key));
        }
        lemma_learned_is_last_write(state, before, i, key, value);
        assert(!writes_key_at(run, run.len() - 1, key));
    }
}

/// Requests that write nothing under a key leave what the acceptor has
/// learned for that key as it was.
pub proof fn lemma_learned_stays_without_write(
    state: AcceptorView,
    run: Seq<Delivery>,
    key: Seq<char>,
)
    requires
        forall|j: int| 0 <= j < run.len() ==> !writes_key_at(run, j, key),
    ensures
        deliver_all(state, run).learned.contains_key(key) == state.learned.contains_key(key),
        lookup(deliver_all(state, run).learned, key) == lookup(state.learned, key),
    decreases run.len(),
{
    if run.len() > 0 {
        let before = run.drop_last();
        assert forall|j: int| 0 <= j < before.len() implies !writes_key_at(before, j, key) by {
            assert(!writes_key_at(run, j, key));
        }
        lemma_learned_stays_without_write(state, before, key);
        assert(!writes_key_at(run, run.len() - 1, key));
    }
}


/// A store after the writes of a run of requests, made in their order.
pub open spec fn after_writes(store: Map<Seq<char>, Seq<char>>, run: Seq<Delivery>) -> Map<
    Seq<char>,
    Seq<char>,
>
    decreases run.len(),
{
    if run.len() == 0 {
        store
    } else {
        let before = after_writes(store, run.drop_last());
        match run.last() {
            Delivery::Accept(_, EntryView { key, val: Some(value) }) => before.insert(key, value),
            _ => before,
        }
    }
}

/// What an acceptor has learned depends on nothing but the writes that
/// reached it and on their order: not on their proposal numbers, nor on the
/// prepare requests and the reads that came between them. So two acceptors
/// that the same writes reach in the same order learn the same.
pub proof fn lemma_learned_follows_the_writes(state: AcceptorView, run: Seq<Delivery>)
    ensures
        deliver_all(state, run).learned == after_writes(state.learned, run),
    decreases run.len(),
{
    if run.len() > 0 {
        lemma_learned_follows_the_writes(state, run.drop_last());
    }
}

} // verus!
