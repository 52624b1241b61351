//! The proposer: it finds a quorum of acceptors and leads a round of two
//! phases to agree on the entry for a key.

use crate::netutil::Address;
use crate::protocol::acceptor::{accept_step, AcceptorView};
use crate::protocol::command::{command_entry, parse_command};
use crate::protocol::{
    envelope, outcome_view, store_view, Agent, BodyView, Entry, EntryView, Key, Message,
    MessageBody, MessageHeader, MessageView, Peer, Response, ResponseView, Value,
};
use crate::PaxosError;
use vstd::hash_map::StringHashMap;
use vstd::prelude::*;

verus! {

/// A proposer.
pub struct Proposer {
    address: Address,
    gen_clock: u32,
    acceptors: Vec<Address>,
    learned_values: StringHashMap<Value>,
}

/// What a proposer knows.
pub struct ProposerView {
    pub address: Address,
    /// The number of its last proposal.
    pub proposal_counter: u32,
    /// The acceptors that it knows of, in the order in which it was given
    /// them.
    pub acceptors: Seq<Address>,
    /// The values that it has seen agreed on, by key.
    pub learned: Map<Seq<char>, Seq<char>>,
}

impl View for Proposer {
    type V = ProposerView;

    closed spec fn view(&self) -> ProposerView {
        ProposerView {
            address: self.address,
            proposal_counter: self.gen_clock,
            acceptors: self.acceptors@,
            learned: store_view(self.learned_values@),
        }
    }
}

/// Whether the acceptor at position `i` was judged reachable. One for which
/// there is no judgement counts as unreachable.
pub open spec fn is_reachable(alive: Seq<bool>, i: int) -> bool {
    0 <= i < alive.len() && alive[i]
}

/// The acceptors that were judged reachable, in the order in which the
/// proposer knows them.
pub open spec fn reachable(acceptors: Seq<Address>, alive: Seq<bool>) -> Seq<Address>
    decreases acceptors.len(),
{
    if acceptors.len() == 0 {
        Seq::empty()
    } else {
        let before = reachable(acceptors.drop_last(), alive);
        if is_reachable(alive, acceptors.len() - 1) {
            before.push(acceptors.last())
        } else {
            before
        }
    }
}

/// The start of a round: whom to ask, and what.
#[derive(Debug, PartialEq, Eq)]
pub struct Round {
    /// The proposal number of the round.
    pub number: u32,
    /// The acceptors to connect to.
    pub quorum: Vec<Address>,
    /// The prepare request to send to each of them.
    pub prepare: Message,
    /// The entry that the round was begun for.
    pub entry: Entry<Key, Value>,
}

/// A round, with its parts as views.
pub struct RoundView {
    pub number: u32,
    pub quorum: Seq<Address>,
    pub prepare: MessageView,
    pub entry: EntryView,
}

impl View for Round {
    type V = RoundView;

    open spec fn view(&self) -> RoundView {
        RoundView {
            number: self.number,
            quorum: self.quorum@,
            prepare: self.prepare@,
            entry: self.entry@,
        }
    }
}

impl Proposer {
    /// A proposer that has proposed nothing and learned nothing.
    pub fn new(address: Address, acceptors: Vec<Address>) -> (proposer: Self)
        ensures
            proposer@ == (ProposerView {
                address,
                proposal_counter: 0,
                acceptors: acceptors@,
                learned: Map::empty(),
            }),
    {
        let proposer = Self {
            address,
            gen_clock: 0,
            acceptors,
            learned_values: StringHashMap::new(),
        };
        assert(proposer@.learned =~= Map::empty());
        proposer
    }

    /// The number of the last proposal.
    pub fn proposal_counter(&self) -> (n: u32)
        ensures
            n == self@.proposal_counter,
    {
        self.gen_clock
    }

    /// The acceptors that the proposer knows of.
    pub fn acceptors(&self) -> (acceptors: &Vec<Address>)
        ensures
            acceptors@ == self@.acceptors,
    {
        &self.acceptors
    }

    /// The value seen agreed on for a key, if there is one.
    pub fn learned(&self, key: &str) -> (value: Option<String>)
        ensures
            match value {
                Some(v) => self@.learned.contains_key(key@) && self@.learned[key@] == v@,
                None => !self@.learned.contains_key(key@),
            },
    {
        match self.learned_values.get(key) {
            Some(v) => Some(v.clone()),
            None => None,
        }
    }

    fn envelope_of(&self, body: MessageBody) -> (message: Message)
        ensures
            message@ == envelope(self@.address, Agent::Proposer, body@),
    {
        Message {
            header: MessageHeader { from_addr: self.address.to_string(), agent: Agent::Proposer },
            body,
        }
    }

    /// The acceptors to lead a round with: those that were judged reachable,
    /// where `alive` holds the judgement on each known acceptor, by position.
    /// With at most one of them there is no quorum.
    pub fn find_quorum(&self, alive: &Vec<bool>) -> (quorum: Result<Vec<Address>, PaxosError>)
        ensures
            match quorum {
                Ok(q) => q@ == reachable(self@.acceptors, alive@) && q@.len() > 1,
                Err(e) => e == PaxosError::QuorumUnavailable && reachable(
                    self@.acceptors,
                    alive@,
                ).len() <= 1,
            },
    {
        let mut found: Vec<Address> = Vec::new();
        let n: usize = self.acceptors.len();
        let mut i: usize = 0;
        while i < n
            invariant
                n == self.acceptors@.len(),
                0 <= i <= n,
                found@ == reachable(self.acceptors@.take(i as int), alive@),
            decreases n - i,
        {
            assert(self.acceptors@.take(i + 1).drop_last() =~= self.acceptors@.take(i as int));
            if i < alive.len() && alive[i] {
                found.push(self.acceptors[i]);
            }
            i = i + 1;
        }
        assert(self.acceptors@.take(n as int) =~= self.acceptors@);
        if found.len() <= 1 {
            Err(PaxosError::QuorumUnavailable)
        } else {
            Ok(found)
        }
    }

    /// Begins a round for an entry: finds the quorum and, if there is one,
    /// takes the next proposal number and makes the prepare request. Without
    /// a quorum the proposer stays as it was.
    pub fn begin_paxos(&mut self, entry: Entry<Key, Value>, alive: &Vec<bool>) -> (round: Result<
        Round,
        PaxosError,
    >)
        requires
            old(self)@.proposal_counter < u32::MAX,
        ensures
            match round {
                Ok(r) => {
                    &&& reachable(old(self)@.acceptors, alive@).len() > 1
                    &&& final(self)@ == (ProposerView {
                        proposal_counter: (old(self)@.proposal_counter + 1) as u32,
                        ..old(self)@
                    })
                    &&& r@ == (RoundView {
                        number: final(self)@.proposal_counter,
                        quorum: reachable(old(self)@.acceptors, alive@),
                        prepare: envelope(
                            old(self)@.address,
                            Agent::Proposer,
                            BodyView::Prepare(final(self)@.proposal_counter),
                        ),
                        entry: entry@,
                    })
                },
                Err(e) => {
                    &&& reachable(old(self)@.acceptors, alive@).len() <= 1
                    &&& e == PaxosError::QuorumUnavailable
                    &&& final(self)@ == old(self)@
                },
            },
    {
        let quorum = match self.find_quorum(alive) {
            Ok(q) => q,
            Err(e) => {
                return Err(e);
            },
        };
        self.gen_clock = self.gen_clock + 1;
        let prepare = self.envelope_of(MessageBody::Prepare(self.gen_clock));
        Ok(Round { number: self.gen_clock, quorum, prepare, entry })
    }
}


/// Whether position `i` holds the lowest of the numbers in `ranks`, and is
/// the first position to hold it. A position without a number is out of the
/// running. This is the position that comes first when those with a number
/// are put in ascending order of their numbers and equal numbers keep their
/// order.
pub open spec fn is_lowest(ranks: Seq<Option<u32>>, i: int) -> bool {
    &&& 0 <= i < ranks.len()
    &&& ranks[i] is Some
    &&& forall|j: int|
        0 <= j < ranks.len() && ranks[j] is Some ==> ranks[i]->0 < (#[trigger] ranks[j])->0 || (
        ranks[i]->0 == ranks[j]->0 && i <= j)
}

/// Whether no position holds a number.
pub open spec fn none_ranked(ranks: Seq<Option<u32>>) -> bool {
    forall|j: int| 0 <= j < ranks.len() ==> (#[trigger] ranks[j]) is None
}

/// The position that `is_lowest` singles out, where some position holds a
/// number.
pub open spec fn lowest_index(ranks: Seq<Option<u32>>) -> int {
    choose|i: int| is_lowest(ranks, i)
}

/// At most one position is the lowest.
pub proof fn lemma_lowest_is_unique(ranks: Seq<Option<u32>>, i: int, j: int)
    requires
        is_lowest(ranks, i),
        is_lowest(ranks, j),
    ensures
        i == j,
        lowest_index(ranks) == i,
{
    assert(ranks[i] is Some && ranks[j] is Some);
    let k = lowest_index(ranks);
    assert(is_lowest(ranks, k));
    assert(ranks[k] is Some);
}

fn lowest(ranks: &Vec<Option<u32>>) -> (found: Option<usize>)
    ensures
        match found {
            Some(i) => is_lowest(ranks@, i as int),
            None => none_ranked(ranks@),
        },
{
    let mut best: Option<(usize, u32)> = None;
    let mut i: usize = 0;
    while i < ranks.len()
        invariant
            0 <= i <= ranks@.len(),
            match best {
                Some((at, n)) => is_lowest(ranks@.take(i as int), at as int) && ranks@[at as int]
                    == Some(n),
                None => none_ranked(ranks@.take(i as int)),
            },
        decreases ranks@.len() - i,
    {
        let ghost before = ranks@.take(i as int);
        let ghost after = ranks@.take(i + 1);
        assert(forall|j: int| 0 <= j < i ==> before[j] == after[j]);
        match ranks[i] {
            Some(n) => {
                match best {
                    Some((at, lowest_so_far)) => {
                        if n < lowest_so_far {
                            best = Some((i, n));
                        }
                    },
                    None => {
                        best = Some((i, n));
                    },
                }
            },
            None => {},
        }
        i = i + 1;
    }
    assert(ranks@.take(i as int) =~= ranks@);
    match best {
        Some((at, _)) => Some(at),
        None => None,
    }
}


/// The messages of a list, as views.
pub open spec fn message_views(messages: Seq<Message>) -> Seq<MessageView> {
    Seq::new(messages.len(), |i: int| messages[i]@)
}

/// The proposal number of a promise that discloses an entry.
pub open spec fn promise_rank(message: MessageView) -> Option<u32> {
    match message.body {
        BodyView::Promise(n, Some(_)) => Some(n),
        _ => None,
    }
}

/// The proposal number of an answer of phase two whose entry has a value.
pub open spec fn accepted_rank(message: MessageView) -> Option<u32> {
    match message.body {
        BodyView::Accepted(n, entry) => if entry.val is Some {
            Some(n)
        } else {
            None
        },
        _ => None,
    }
}

pub open spec fn promise_ranks(replies: Seq<MessageView>) -> Seq<Option<u32>> {
    Seq::new(replies.len(), |i: int| promise_rank(replies[i]))
}

pub open spec fn accepted_ranks(replies: Seq<MessageView>) -> Seq<Option<u32>> {
    Seq::new(replies.len(), |i: int| accepted_rank(replies[i]))
}

/// Whether phase one succeeded: every connection has answered, and with a
/// promise.
pub open spec fn promised_by_all(connected: nat, replies: Seq<MessageView>) -> bool {
    &&& replies.len() == connected
    &&& forall|i: int| 0 <= i < replies.len() ==> (#[trigger] replies[i]).body is Promise
}

/// The request of phase two. Where no promise discloses an entry, the
/// proposer asks for its own entry under the number of the round. Otherwise
/// it asks for the disclosed entry with the lowest proposal number, under
/// that number; of several with that number, for the one that was
/// answered first.
pub open spec fn chosen_proposal(number: u32, entry: EntryView, replies: Seq<MessageView>) -> BodyView {
    let i = lowest_index(promise_ranks(replies));
    if !none_ranked(promise_ranks(replies)) && 0 <= i < replies.len() {
        match replies[i].body {
            BodyView::Promise(n, Some(disclosed)) => BodyView::Accept(n, disclosed),
            _ => BodyView::Accept(number, entry),
        }
    } else {
        BodyView::Accept(number, entry)
    }
}

/// The entry that a round has agreed on: of the answers of phase two whose
/// entry has a value, the entry with the lowest proposal number; of several
/// with that number, the one that was answered first. There is none where
/// no answer has an entry with a value.
pub open spec fn consensus(replies: Seq<MessageView>) -> Option<EntryView> {
    let i = lowest_index(accepted_ranks(replies));
    if !none_ranked(accepted_ranks(replies)) && 0 <= i < replies.len() {
        match replies[i].body {
            BodyView::Accepted(_, entry) => Some(entry),
            _ => None,
        }
    } else {
        None
    }
}

fn ranks_of_promises(replies: &Vec<Message>) -> (ranks: Vec<Option<u32>>)
    ensures
        ranks@ == promise_ranks(message_views(replies@)),
{
    let mut ranks: Vec<Option<u32>> = Vec::new();
    let mut i: usize = 0;
    while i < replies.len()
        invariant
            0 <= i <= replies@.len(),
            ranks@ == promise_ranks(message_views(replies@)).take(i as int),
        decreases replies@.len() - i,
    {
        let rank: Option<u32> = match &replies[i].body {
            MessageBody::Promise(n, Some(_)) => Some(*n),
            _ => None,
        };
        ranks.push(rank);
        i = i + 1;
        assert(ranks@ =~= promise_ranks(message_views(replies@)).take(i as int));
    }
    assert(ranks@ =~= promise_ranks(message_views(replies@)));
    ranks
}

fn ranks_of_accepted(replies: &Vec<Message>) -> (ranks: Vec<Option<u32>>)
    ensures
        ranks@ == accepted_ranks(message_views(replies@)),
{
    let mut ranks: Vec<Option<u32>> = Vec::new();
    let mut i: usize = 0;
    while i < replies.len()
        invariant
            0 <= i <= replies@.len(),
            ranks@ == accepted_ranks(message_views(replies@)).take(i as int),
        decreases replies@.len() - i,
    {
        let rank: Option<u32> = match &replies[i].body {
            MessageBody::Accepted(n, entry) => if entry.val.is_some() {
                Some(*n)
            } else {
                None
            },
            _ => None,
        };
        ranks.push(rank);
        i = i + 1;
        assert(ranks@ =~= accepted_ranks(message_views(replies@)).take(i as int));
    }
    assert(ranks@ =~= accepted_ranks(message_views(replies@)));
    ranks
}

fn all_are_promises(replies: &Vec<Message>) -> (all: bool)
    ensures
        all == forall|i: int|
            0 <= i < replies@.len() ==> (#[trigger] message_views(replies@)[i]).body is Promise,
{
    let mut i: usize = 0;
    while i < replies.len()
        invariant
            0 <= i <= replies@.len(),
            forall|j: int| 0 <= j < i ==> (#[trigger] message_views(replies@)[j]).body is Promise,
        decreases replies@.len() - i,
    {
        match &replies[i].body {
            MessageBody::Promise(_, _) => {},
            _ => {
                assert(!(message_views(replies@)[i as int].body is Promise));
                return false;
            },
        }
        i = i + 1;
    }
    true
}

impl Proposer {
    /// Ends phase one and makes the request of phase two. `connected` is the
    /// number of acceptors of the quorum that the prepare request was sent
    /// to, `replies` what they answered. The round fails unless each of them
    /// answered with a promise.
    pub fn on_promises(&self, round: Round, connected: usize, replies: Vec<Message>) -> (outcome:
        Result<Message, PaxosError>)
        ensures
            match outcome {
                Ok(accept) => {
                    &&& promised_by_all(connected as nat, message_views(replies@))
                    &&& accept@ == envelope(
                        self@.address,
                        Agent::Proposer,
                        chosen_proposal(round@.number, round@.entry, message_views(replies@)),
                    )
                },
                Err(e) => {
                    &&& e == PaxosError::QuorumPromiseFailure
                    &&& !promised_by_all(connected as nat, message_views(replies@))
                },
            },
    {
        if replies.len() != connected || !all_are_promises(&replies) {
            return Err(PaxosError::QuorumPromiseFailure);
        }
        let ranks = ranks_of_promises(&replies);
        let body = match lowest(&ranks) {
            Some(i) => {
                proof {
                    lemma_lowest_is_unique(ranks@, i as int, i as int);
                }
                match &replies[i].body {
                    MessageBody::Promise(n, Some(disclosed)) => MessageBody::Accept(
                        *n,
                        disclosed.duplicate(),
                    ),
                    _ => MessageBody::Accept(round.number, round.entry),
                }
            },
            None => MessageBody::Accept(round.number, round.entry),
        };
        Ok(self.envelope_of(body))
    }
}


impl Proposer {
    /// Ends phase two: finds the entry that the round has agreed on among
    /// the answers and records its value. Where no answer has an entry with a
    /// value the round fails, and the proposer stays as it was.
    pub fn on_accepted(&mut self, replies: Vec<Message>) -> (outcome: Result<
        Entry<Key, Value>,
        PaxosError,
    >)
        ensures
            match outcome {
                Ok(agreed) => {
                    &&& consensus(message_views(replies@)) == Some(agreed@)
                    &&& agreed@.val is Some
                    &&& final(self)@ == (ProposerView {
                        learned: old(self)@.learned.insert(agreed@.key, agreed@.val->0),
                        ..old(self)@
                    })
                },
                Err(e) => {
                    &&& e == PaxosError::NoAcceptedValue
                    &&& consensus(message_views(replies@)) is None
                    &&& final(self)@ == old(self)@
                },
            },
    {
        let ranks = ranks_of_accepted(&replies);
        match lowest(&ranks) {
            Some(i) => {
                proof {
                    lemma_lowest_is_unique(ranks@, i as int, i as int);
                }
                match &replies[i].body {
                    MessageBody::Accepted(_, entry) => {
                        match &entry.val {
                            Some(value) => {
                                self.learned_values.insert(entry.key.clone(), value.clone());
                                assert(final(self)@.learned =~= old(self)@.learned.insert(
                                    entry.key@,
                                    value@,
                                ));
                                Ok(entry.duplicate())
                            },
                            None => Err(PaxosError::NoAcceptedValue),
                        }
                    },
                    _ => Err(PaxosError::NoAcceptedValue),
                }
            },
            None => Err(PaxosError::NoAcceptedValue),
        }
    }

    /// What a client is sent when its request has been agreed on: the value
    /// of the key that it asked for, and nothing after a write.
    pub fn reply_to_client(request: &Entry<Key, Value>, agreed: &Entry<Key, Value>) -> (reply:
        Option<String>)
        ensures
            match reply {
                Some(text) => request@.val is None && agreed@.val == Some(text@),
                None => request@.val is Some || agreed@.val is None,
            },
    {
        match &request.val {
            Some(_) => None,
            None => match &agreed.val {
                Some(value) => Some(value.clone()),
                None => None,
            },
        }
    }
}


/// What a proposer answers to a client's command: a round for the entry
/// that the command asks for, or the fact that it is no command.
pub open spec fn client_command_step(text: Seq<char>) -> Result<ResponseView, PaxosError> {
    match command_entry(text) {
        Ok(entry) => Ok(ResponseView::Propose(entry)),
        Err(e) => Err(e),
    }
}

impl Peer for Proposer {
    open spec fn peer_address(&self) -> Address {
        self@.address
    }

    open spec fn peer_agent(&self) -> Agent {
        Agent::Proposer
    }

    /// A client's command changes nothing by itself: the round that it asks
    /// for is yet to be run.
    open spec fn client_step(
        &self,
        text: Seq<char>,
        after: &Self,
        outcome: Result<Response, PaxosError>,
    ) -> bool {
        after@ == self@ && outcome_view(outcome) == client_command_step(text)
    }

    /// A proposer passes over what other proposers send.
    open spec fn proposer_step(
        &self,
        message: MessageView,
        after: &Self,
        outcome: Result<Response, PaxosError>,
    ) -> bool {
        after@ == self@ && outcome_view(outcome) == Ok::<ResponseView, PaxosError>(
            ResponseView::Nothing,
        )
    }

    /// A proposer passes over what acceptors send outside a round.
    open spec fn acceptor_step(
        &self,
        message: MessageView,
        after: &Self,
        outcome: Result<Response, PaxosError>,
    ) -> bool {
        after@ == self@ && outcome_view(outcome) == Ok::<ResponseView, PaxosError>(
            ResponseView::Nothing,
        )
    }

    fn address(&self) -> (address: Address) {
        self.address
    }

    fn agent(&self) -> (agent: Agent) {
        Agent::Proposer
    }

    fn handle_client(&mut self, text: &str) -> (outcome: Result<Response, PaxosError>) {
        match parse_command(text) {
            Ok(entry) => Ok(Response::Propose(entry)),
            Err(e) => Err(e),
        }
    }

    fn handle_proposer(&mut self, message: Message) -> (outcome: Result<Response, PaxosError>) {
        Ok(Response::Nothing)
    }

    fn handle_acceptor(&mut self, message: Message) -> (outcome: Result<Response, PaxosError>) {
        Ok(Response::Nothing)
    }
}

/// The positions below `n` of the acceptors that were judged reachable, in
/// ascending order.
pub open spec fn reachable_positions(n: nat, alive: Seq<bool>) -> Seq<int>
    decreases n,
{
    if n == 0 {
        Seq::empty()
    } else {
        let before = reachable_positions((n - 1) as nat, alive);
        if is_reachable(alive, n - 1) {
            before.push(n - 1)
        } else {
            before
        }
    }
}

/// The acceptors of a quorum are exactly those that were judged reachable,
/// and they keep their order: the quorum holds, for each position that was
/// judged reachable and for no other, the acceptor at that position, and
/// the positions ascend.
pub proof fn lemma_reachable_is_ordered_subset(acceptors: Seq<Address>, alive: Seq<bool>)
    ensures
        reachable(acceptors, alive).len() == reachable_positions(acceptors.len(), alive).len(),
        forall|k: int|
            0 <= k < reachable(acceptors, alive).len() ==> {
                let at = #[trigger] reachable_positions(acceptors.len(), alive)[k];
                &&& 0 <= at < acceptors.len()
                &&& is_reachable(alive, at)
                &&& reachable(acceptors, alive)[k] == acceptors[at]
            },
        forall|j: int, k: int|
            0 <= j < k < reachable(acceptors, alive).len() ==> reachable_positions(
                acceptors.len(),
                alive,
            )[j] < reachable_positions(acceptors.len(), alive)[k],
        forall|at: int|
            0 <= at < acceptors.len() && is_reachable(alive, at) ==> reachable_positions(
                acceptors.len(),
                alive,
            ).contains(at),
    decreases acceptors.len(),
{
    if acceptors.len() > 0 {
        let before = acceptors.drop_last();
        lemma_reachable_is_ordered_subset(before, alive);
        let positions = reachable_positions(acceptors.len(), alive);
        let earlier = reachable_positions(before.len(), alive);
        let last = acceptors.len() - 1;
        assert forall|at: int| 0 <= at < acceptors.len() && is_reachable(alive, at) implies positions.contains(
            at,
        ) by {
            if at < last {
                assert(earlier.contains(at));
                let k = choose|k: int| 0 <= k < earlier.len() && earlier[k] == at;
                assert(positions[k] == at);
            } else {
                assert(positions[positions.len() - 1] == at);
            }
        }
    }
}

/// What each acceptor of a list answers to one accept request, in the order
/// of the list.
pub open spec fn accepted_replies(acceptors: Seq<AcceptorView>, n: u32, entry: EntryView) -> Seq<
    MessageView,
> {
    Seq::new(
        acceptors.len(),
        |i: int| envelope(acceptors[i].address, Agent::Acceptor, accept_step(acceptors[i], n, entry).1),
    )
}

/// A round whose accept request reaches at least one acceptor agrees on
/// the entry that the first of them answers with.
pub proof fn lemma_round_agrees_with_first_answer(
    acceptors: Seq<AcceptorView>,
    n: u32,
    entry: EntryView,
)
    requires
        acceptors.len() > 0,
    ensures
        consensus(accepted_replies(acceptors, n, entry)) == Some(
            accept_step(acceptors[0], n, entry).1->Accepted_1,
        ),
{
    let replies = accepted_replies(acceptors, n, entry);
    let ranks = accepted_ranks(replies);
    assert forall|j: int| 0 <= j < ranks.len() implies (#[trigger] ranks[j]) == Some(n) by {
        assert(replies[j].body == accept_step(acceptors[j], n, entry).1);
    }
    assert(is_lowest(ranks, 0));
    lemma_lowest_is_unique(ranks, 0, 0);
}

/// A round that writes records one value for its key, and the same one
/// everywhere: each acceptor that the accept request reaches learns the
/// value of the request, whatever it had learned before, and the round
/// agrees on the entry of the request, so the proposer records that value
/// too.
pub proof fn lemma_write_round_records_one_value(
    acceptors: Seq<AcceptorView>,
    n: u32,
    entry: EntryView,
)
    requires
        acceptors.len() > 0,
        entry.val is Some,
    ensures
        consensus(accepted_replies(acceptors, n, entry)) == Some(entry),
        forall|i: int|
            0 <= i < acceptors.len() ==> {
                let after = #[trigger] accept_step(acceptors[i], n, entry).0;
                after.learned.contains_key(entry.key) && after.learned[entry.key] == entry.val->0
            },
{
    lemma_round_agrees_with_first_answer(acceptors, n, entry);
}

/// A round that reads changes no acceptor, and where the acceptors that
/// the accept request reaches have all learned the same value for the key,
/// the round agrees on that value.
pub proof fn lemma_read_round_returns_learned_value(
    acceptors: Seq<AcceptorView>,
    n: u32,
    key: Seq<char>,
    value: Seq<char>,
)
    requires
        acceptors.len() > 0,
        forall|i: int|
            0 <= i < acceptors.len() ==> (#[trigger] acceptors[i]).learned.contains_key(key)
                && acceptors[i].learned[key] == value,
    ensures
        consensus(accepted_replies(acceptors, n, EntryView { key, val: None })) == Some(
            EntryView { key, val: Some(value) },
        ),
        forall|i: int|
            0 <= i < acceptors.len() ==> #[trigger] accept_step(
                acceptors[i],
                n,
                EntryView { key, val: None },
            ).0 == acceptors[i],
{
    lemma_round_agrees_with_first_answer(acceptors, n, EntryView { key, val: None });
    assert(acceptors[0].learned.contains_key(key));
}

} // verus!
