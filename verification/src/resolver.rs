//! The resolution state machine.
//!
//! The resolver takes one event at a time: a datagram that arrived, or
//! the news that the wait for the upstream resolver ran out. It answers
//! with what to send, if anything, and moves to its next state. Whoever
//! owns the socket performs the sending and brings the next event.
//!
//! A query is answered from the cache where the cache holds an answer for
//! the name of its first question. Otherwise its octets go to the upstream
//! resolver as they came, the resolver waits for the reply that bears the
//! query's identification, stores the first answer of that reply and hands
//! the reply's octets on to whoever asked.

use crate::cache::CacheNode;
use crate::decoded::lemma_parsed_message_valid;
use crate::label::{label_ref_views, label_views, QueryToken};
use crate::message::{
    clone_name, decode_header, decode_message, encode_message, message_wire, parse_header,
    parse_message, Endpoint, MalformedMessage, Message, Query, QueryAnswer, QueryHeader,
    QueryQuestion, Question, Record,
};
use crate::name::labels_fit;
use crate::roundtrip::lemma_message_round_trip;
use crate::trie::{lemma_graft_found, lemma_lookup_inserted, lemma_lookup_wf, Trie, MAX_PAYLOAD_LEN};
use vstd::prelude::*;

verus! {

/// The time to live, in seconds, of an answer given from the cache.
pub const ANSWER_TTL: u32 = 100;

/// The flags of an answer given from the cache: a response, recursion
/// available, no error.
pub const FLAGS_ANSWER: u16 = 0x8080;

/// The flags of a reply that reports a server failure: a response,
/// recursion available, response code 2.
pub const FLAGS_SERVER_FAILURE: u16 = 0x8082;

/// What went wrong while an event was handled.
#[derive(Clone, Copy, Debug, PartialEq, Eq, Structural)]
pub enum ResolveError {
    /// A datagram could not be decoded.
    Malformed(MalformedMessage),
    /// A datagram came while a reply was awaited, and was not that reply:
    /// it came from elsewhere than the upstream resolver, or does not
    /// bear the identification of the query that was forwarded.
    UpstreamMismatch,
    /// No reply came from the upstream resolver in time.
    UpstreamTimeout,
}

/// What can happen to the resolver.
#[derive(Debug)]
pub enum Event {
    /// A datagram arrived.
    Datagram { bytes: Vec<u8>, source: Endpoint },
    /// The wait for the upstream resolver ran out.
    Timeout,
}

/// A datagram to send.
#[derive(Debug)]
pub struct Outgoing {
    pub bytes: Vec<u8>,
    pub to: Endpoint,
}

/// What the resolver asks for after an event.
#[derive(Debug)]
pub struct Outcome {
    /// The datagram to send, if any.
    pub send: Option<Outgoing>,
    /// What went wrong, if anything.
    pub error: Option<ResolveError>,
}

/// An event, as mathematics sees it.
pub enum EventView {
    Datagram { bytes: Seq<u8>, source: Endpoint },
    Timeout,
}

/// An outcome, as mathematics sees it.
pub struct OutcomeView {
    pub send: Option<(Seq<u8>, Endpoint)>,
    pub error: Option<ResolveError>,
}

/// The query whose reply is awaited, as mathematics sees it.
pub struct PendingView {
    pub id: u16,
    pub requester: Endpoint,
    pub question: Question,
}

/// The state of the resolver, as mathematics sees it: the cache, the
/// address of the upstream resolver and, while a reply is awaited, the
/// query that was forwarded.
pub struct State {
    pub cache: Trie,
    pub upstream: Endpoint,
    pub pending: Option<PendingView>,
}

/// A state and what was asked for on the way to it.
pub struct Step {
    pub state: State,
    pub outcome: OutcomeView,
}

impl View for Event {
    type V = EventView;

    open spec fn view(&self) -> EventView {
        match self {
            Event::Datagram { bytes, source } => EventView::Datagram {
                bytes: bytes@,
                source: *source,
            },
            Event::Timeout => EventView::Timeout,
        }
    }
}

impl View for Outcome {
    type V = OutcomeView;

    open spec fn view(&self) -> OutcomeView {
        OutcomeView {
            send: match self.send {
                Some(datagram) => Some((datagram.bytes@, datagram.to)),
                None => None,
            },
            error: self.error,
        }
    }
}

/// The labels of `name` from the right: the path of the name in the
/// cache.
pub open spec fn cache_path(name: Seq<Seq<u8>>) -> Seq<Seq<u8>> {
    name.reverse()
}

/// The answer to `question` that bears `payload` as its record data.
pub open spec fn answer_message(id: u16, question: Question, payload: Seq<u8>, to: Endpoint) -> Message {
    Message {
        header: QueryHeader {
            identification: id,
            flags: FLAGS_ANSWER,
            question_count: 1,
            answer_count: 1,
            authority_records_count: 0,
            additional_records_count: 0,
        },
        questions: seq![question],
        answers: seq![
            Record {
                name: question.name,
                type_: question.type_,
                class: question.class,
                ttl: ANSWER_TTL,
                rd_length: payload.len() as u16,
                r_data: payload,
            },
        ],
        authorities: Seq::empty(),
        additional: Seq::empty(),
        requester: to,
    }
}

/// The reply to `question` that reports a server failure.
pub open spec fn failure_message(id: u16, question: Question, to: Endpoint) -> Message {
    Message {
        header: QueryHeader {
            identification: id,
            flags: FLAGS_SERVER_FAILURE,
            question_count: 1,
            answer_count: 0,
            authority_records_count: 0,
            additional_records_count: 0,
        },
        questions: seq![question],
        answers: Seq::empty(),
        authorities: Seq::empty(),
        additional: Seq::empty(),
        requester: to,
    }
}

/// Nothing to send, nothing wrong.
pub open spec fn quiet() -> OutcomeView {
    OutcomeView { send: None, error: None }
}

/// What a datagram does while no reply is awaited: it is taken for a
/// query.
///
/// One that cannot be decoded is dropped and reported. One without a
/// question is dropped. Where the cache answers the name of the first
/// question, the answer goes back to the sender. Otherwise the datagram
/// goes to the upstream resolver as it is and the resolver waits.
pub open spec fn on_query(s: State, bytes: Seq<u8>, source: Endpoint) -> Step {
    match parse_message(bytes, source) {
        Err(e) => Step {
            state: s,
            outcome: OutcomeView { send: None, error: Some(ResolveError::Malformed(e)) },
        },
        Ok(query) => if query.questions.len() == 0 {
            Step { state: s, outcome: quiet() }
        } else {
            let question = query.questions[0];
            let path = cache_path(question.name);
            let node = s.cache.lookup(path);
            if node.answers(path) {
                let answer = answer_message(
                    query.header.identification,
                    question,
                    node.payload->0,
                    source,
                );
                Step {
                    state: s,
                    outcome: OutcomeView { send: Some((message_wire(answer), source)), error: None },
                }
            } else {
                let pending = PendingView {
                    id: query.header.identification,
                    requester: source,
                    question,
                };
                Step {
                    state: State { pending: Some(pending), ..s },
                    outcome: OutcomeView { send: Some((bytes, s.upstream)), error: None },
                }
            }
        },
    }
}

/// Whether a datagram is the reply that is awaited: it comes from the
/// upstream resolver and its header bears the identification of the
/// query that was forwarded.
pub open spec fn is_awaited(s: State, waiting: PendingView, bytes: Seq<u8>, source: Endpoint) -> bool {
    &&& source == s.upstream
    &&& parse_header(bytes) matches Ok(header)
    &&& header.identification == waiting.id
}

/// What a datagram does while a reply is awaited.
///
/// One that is not the awaited reply is discarded, and the wait goes on.
/// The reply itself ends the wait. Where it cannot be decoded, whoever
/// asked is told of a server failure. Otherwise its first answer, if it
/// has one, is stored in the cache under the answer's name, and the
/// reply's octets go to whoever asked as they came.
pub open spec fn on_reply(s: State, waiting: PendingView, bytes: Seq<u8>, source: Endpoint) -> Step {
    if !is_awaited(s, waiting, bytes, source) {
        Step {
            state: s,
            outcome: OutcomeView { send: None, error: Some(ResolveError::UpstreamMismatch) },
        }
    } else {
        match parse_message(bytes, source) {
            Err(e) => Step {
                state: State { pending: None, ..s },
                outcome: OutcomeView {
                    send: Some(
                        (
                            message_wire(
                                failure_message(waiting.id, waiting.question, waiting.requester),
                            ),
                            waiting.requester,
                        ),
                    ),
                    error: Some(ResolveError::Malformed(e)),
                },
            },
            Ok(reply) => Step {
                state: State {
                    cache: if reply.answers.len() > 0 {
                        s.cache.insert(cache_path(reply.answers[0].name), reply.answers[0].r_data)
                    } else {
                        s.cache
                    },
                    pending: None,
                    ..s
                },
                outcome: OutcomeView { send: Some((bytes, waiting.requester)), error: None },
            },
        }
    }
}

/// What the end of the wait does: whoever asked is told of a server
/// failure, and the resolver turns to the next query.
pub open spec fn on_timeout(s: State, waiting: PendingView) -> Step {
    Step {
        state: State { pending: None, ..s },
        outcome: OutcomeView {
            send: Some(
                (
                    message_wire(failure_message(waiting.id, waiting.question, waiting.requester)),
                    waiting.requester,
                ),
            ),
            error: Some(ResolveError::UpstreamTimeout),
        },
    }
}

/// What an event does to a state.
pub open spec fn step(s: State, event: EventView) -> Step {
    match (s.pending, event) {
        (None, EventView::Datagram { bytes, source }) => on_query(s, bytes, source),
        (None, EventView::Timeout) => Step { state: s, outcome: quiet() },
        (Some(waiting), EventView::Datagram { bytes, source }) => on_reply(s, waiting, bytes, source),
        (Some(waiting), EventView::Timeout) => on_timeout(s, waiting),
    }
}

/// A query that the cache answers is answered at once: the state stays
/// as it was, and what goes back to the sender decodes to a response
/// that bears the query's identification, echoes its first question and
/// holds one answer, whose data is the payload that the cache holds.
pub proof fn lemma_answered_from_cache(s: State, bytes: Seq<u8>, source: Endpoint)
    requires
        s.cache.wf(),
        s.pending is None,
        parse_message(bytes, source) is Ok,
        parse_message(bytes, source)->Ok_0.questions.len() > 0,
        s.cache.lookup(cache_path(parse_message(bytes, source)->Ok_0.questions[0].name)).answers(
            cache_path(parse_message(bytes, source)->Ok_0.questions[0].name),
        ),
    ensures
        step(s, EventView::Datagram { bytes, source }).state == s,
        step(s, EventView::Datagram { bytes, source }).outcome.error is None,
        step(s, EventView::Datagram { bytes, source }).outcome.send matches Some((reply, to))
            && to == source && parse_message(reply, source) == Ok::<_, MalformedMessage>(
            answer_message(
                parse_message(bytes, source)->Ok_0.header.identification,
                parse_message(bytes, source)->Ok_0.questions[0],
                s.cache.lookup(
                    cache_path(parse_message(bytes, source)->Ok_0.questions[0].name),
                ).payload->0,
                source,
            ),
        ),
{
    let query = parse_message(bytes, source)->Ok_0;
    let question = query.questions[0];
    let path = cache_path(question.name);
    let payload = s.cache.lookup(path).payload->0;
    let answer = answer_message(query.header.identification, question, payload, source);
    lemma_parsed_message_valid(bytes, source);
    lemma_lookup_wf(s.cache, path);
    lemma_message_round_trip(answer);
}

/// A reply with an answer fills the cache: where the awaited reply
/// decodes and its first answer has a name, the reply's octets go to
/// whoever asked as they came, the wait is over, and the cache then
/// answers that name with that answer's data.
pub proof fn lemma_reply_fills_cache(s: State, bytes: Seq<u8>, source: Endpoint)
    requires
        s.pending is Some,
        is_awaited(s, s.pending->0, bytes, source),
        parse_message(bytes, source) is Ok,
        parse_message(bytes, source)->Ok_0.answers.len() > 0,
        parse_message(bytes, source)->Ok_0.answers[0].name.len() > 0,
    ensures
        step(s, EventView::Datagram { bytes, source }).outcome == (OutcomeView {
            send: Some((bytes, s.pending->0.requester)),
            error: None,
        }),
        step(s, EventView::Datagram { bytes, source }).state.pending is None,
        step(s, EventView::Datagram { bytes, source }).state.cache.lookup(
            cache_path(parse_message(bytes, source)->Ok_0.answers[0].name),
        ).answers(cache_path(parse_message(bytes, source)->Ok_0.answers[0].name)),
        step(s, EventView::Datagram { bytes, source }).state.cache.lookup(
            cache_path(parse_message(bytes, source)->Ok_0.answers[0].name),
        ).payload == Some(parse_message(bytes, source)->Ok_0.answers[0].r_data),
{
    let first = parse_message(bytes, source)->Ok_0.answers[0];
    lemma_lookup_inserted(s.cache, cache_path(first.name), first.r_data);
}

/// A reply without an answer changes no cache: where the awaited reply
/// decodes and holds no answer, the cache stays as it was, the wait is
/// over, and the reply's octets go to whoever asked as they came.
pub proof fn lemma_empty_reply_relayed(s: State, bytes: Seq<u8>, source: Endpoint)
    requires
        s.pending is Some,
        is_awaited(s, s.pending->0, bytes, source),
        parse_message(bytes, source) is Ok,
        parse_message(bytes, source)->Ok_0.answers.len() == 0,
    ensures
        step(s, EventView::Datagram { bytes, source }).outcome == (OutcomeView {
            send: Some((bytes, s.pending->0.requester)),
            error: None,
        }),
        step(s, EventView::Datagram { bytes, source }).state == (State { pending: None, ..s }),
{
}

/// A query that the cache does not answer goes upstream as it came, and
/// the resolver waits for the reply that bears its identification.
pub proof fn lemma_miss_is_forwarded(s: State, bytes: Seq<u8>, source: Endpoint)
    requires
        s.pending is None,
        parse_message(bytes, source) is Ok,
        parse_message(bytes, source)->Ok_0.questions.len() > 0,
        !s.cache.lookup(cache_path(parse_message(bytes, source)->Ok_0.questions[0].name)).answers(
            cache_path(parse_message(bytes, source)->Ok_0.questions[0].name),
        ),
    ensures
        step(s, EventView::Datagram { bytes, source }).outcome == (OutcomeView {
            send: Some((bytes, s.upstream)),
            error: None,
        }),
        step(s, EventView::Datagram { bytes, source }).state.cache == s.cache,
        step(s, EventView::Datagram { bytes, source }).state.pending matches Some(waiting)
            && waiting.id == parse_message(bytes, source)->Ok_0.header.identification
            && waiting.requester == source,
{
}

/// The query whose reply is awaited.
#[derive(Debug)]
struct Pending {
    id: u16,
    requester: Endpoint,
    question: QueryQuestion,
}

impl View for Pending {
    type V = PendingView;

    closed spec fn view(&self) -> PendingView {
        PendingView { id: self.id, requester: self.requester, question: self.question@ }
    }
}

/// The resolver: the cache, the address of the upstream resolver and,
/// while a reply is awaited, the query that was forwarded.
#[derive(Debug)]
pub struct Resolver {
    cache: CacheNode,
    upstream: Endpoint,
    pending: Option<Pending>,
}

impl View for Resolver {
    type V = State;

    closed spec fn view(&self) -> State {
        State {
            cache: self.cache@,
            upstream: self.upstream,
            pending: match self.pending {
                Some(waiting) => Some(waiting@),
                None => None,
            },
        }
    }
}

/// The labels of `name` from the right, borrowed.
fn path_of<'a>(name: &'a Vec<QueryToken>) -> (path: Vec<&'a QueryToken>)
    ensures
        label_ref_views(path@) == cache_path(label_views(name@)),
{
    let mut path: Vec<&QueryToken> = Vec::new();
    let mut i: usize = name.len();
    while i > 0
        invariant
            i <= name.len(),
            path@.len() == name.len() - i,
            forall|k: int| 0 <= k < path@.len() ==> (#[trigger] path@[k])@ == name@[name.len() - 1 - k]@,
        decreases i,
    {
        i -= 1;
        path.push(&name[i]);
    }
    path
}

/// Builds the answer to `question` that bears `payload`.
fn answer_from(id: u16, question: QueryQuestion, payload: Vec<u8>, to: Endpoint) -> (answer: Query)
    requires
        payload.len() <= MAX_PAYLOAD_LEN,
    ensures
        answer@ == answer_message(id, question@, payload@, to),
{
    let record = QueryAnswer {
        name: clone_name(&question.name),
        type_: question.type_,
        class: question.class,
        ttl: ANSWER_TTL,
        rd_length: payload.len() as u16,
        r_data: payload,
    };
    let mut answer = Query::new(to);
    answer.header.identification = id;
    answer.header.flags = FLAGS_ANSWER;
    answer.header.question_count = 1;
    answer.header.answer_count = 1;
    answer.questions.push(question);
    answer.answers.push(record);
    proof {
        assert(answer@.questions =~= seq![question@]);
        assert(answer@.answers =~= seq![record@]);
    }
    answer
}

/// Builds the reply to `question` that reports a server failure.
fn failure_from(id: u16, question: QueryQuestion, to: Endpoint) -> (reply: Query)
    ensures
        reply@ == failure_message(id, question@, to),
{
    let mut reply = Query::new(to);
    reply.header.identification = id;
    reply.header.flags = FLAGS_SERVER_FAILURE;
    reply.header.question_count = 1;
    reply.questions.push(question);
    proof {
        assert(reply@.questions =~= seq![question@]);
    }
    reply
}

/// The payload that `cache` holds for `name`, where it answers the name:
/// the walk along the name's labels from the right ends at a node that
/// bears the name's first label and holds a payload.
fn cached_answer(cache: &mut CacheNode, name: &Vec<QueryToken>) -> (found: Option<Vec<u8>>)
    requires
        old(cache)@.wf(),
    ensures
        final(cache)@ == old(cache)@,
        match found {
            Some(payload) => {
                &&& old(cache)@.lookup(cache_path(label_views(name@))).answers(
                    cache_path(label_views(name@)),
                )
                &&& old(cache)@.lookup(cache_path(label_views(name@))).payload == Some(payload@)
                &&& payload.len() <= MAX_PAYLOAD_LEN
            },
            None => !old(cache)@.lookup(cache_path(label_views(name@))).answers(
                cache_path(label_views(name@)),
            ),
        },
{
    let path = path_of(name);
    let ghost labels = cache_path(label_views(name@));
    let node = cache.search_by_label_stream(&path);
    let mut found: Option<Vec<u8>> = None;
    if name.len() > 0 {
        if *node.label() == name[0] {
            match node.payload() {
                Some(data) => {
                    found = Some(data.clone());
                },
                None => {},
            }
        }
    }
    proof {
        lemma_graft_found(old(cache)@, labels);
        lemma_lookup_wf(old(cache)@, labels);
    }
    found
}

impl Resolver {
    /// What holds of every resolver: its cache is a cache, and the
    /// question it waits on can be put on the wire.
    #[verifier::type_invariant]
    closed spec fn inv(&self) -> bool {
        &&& self.cache@.wf()
        &&& self.pending matches Some(waiting) ==> labels_fit(waiting.question@.name)
    }

    /// A resolver with an empty cache that forwards to `upstream`.
    pub fn new(upstream: Endpoint) -> (resolver: Resolver)
        ensures
            resolver@ == (State {
                cache: Trie::leaf(Seq::empty(), None),
                upstream,
                pending: None,
            }),
    {
        Resolver { cache: CacheNode::new(QueryToken::default(), None), upstream, pending: None }
    }

    /// Whether the resolver waits for a reply from the upstream resolver.
    pub fn awaits_reply(&self) -> (waiting: bool)
        ensures
            waiting == self@.pending is Some,
    {
        self.pending.is_some()
    }

    /// The address of the upstream resolver.
    pub fn upstream(&self) -> (address: Endpoint)
        ensures
            address == self@.upstream,
    {
        self.upstream
    }

    /// The root of the cache.
    pub fn cache(&self) -> (root: &CacheNode)
        ensures
            root@ == self@.cache,
            root@.wf(),
    {
        proof {
            use_type_invariant(self);
        }
        &self.cache
    }

    /// Stores `data` in the cache as the record data of `name`, as a
    /// reply from the upstream resolver would. Data longer than record
    /// data can be is not stored.
    pub fn remember(&mut self, name: &Vec<QueryToken>, data: &Vec<u8>) -> (stored: bool)
        ensures
            stored == (data.len() <= MAX_PAYLOAD_LEN),
            final(self)@ == if stored {
                State {
                    cache: old(self)@.cache.insert(cache_path(label_views(name@)), data@),
                    ..old(self)@
                }
            } else {
                old(self)@
            },
    {
        if data.len() > MAX_PAYLOAD_LEN {
            return false;
        }
        // The state is taken out of `self` and handled by value.
        let mut taken = Resolver::new(self.upstream);
        core::mem::swap(self, &mut taken);
        proof {
            use_type_invariant(&taken);
        }
        let Resolver { mut cache, upstream, pending } = taken;
        let path = path_of(name);
        cache.insert_stream(&path, data);
        *self = Resolver { cache, upstream, pending };
        true
    }

    /// Handles one event: says what to send and moves to the next state.
    pub fn step(&mut self, event: Event) -> (outcome: Outcome)
        ensures
            final(self)@ == step(old(self)@, event@).state,
            outcome@ == step(old(self)@, event@).outcome,
    {
        // The state is taken out of `self` and handled by value.
        let mut taken = Resolver::new(self.upstream);
        core::mem::swap(self, &mut taken);
        let (next, outcome) = match event {
            Event::Timeout => taken.expire(),
            Event::Datagram { bytes, source } => {
                if taken.pending.is_some() {
                    taken.take_reply(bytes, source)
                } else {
                    taken.take_query(bytes, source)
                }
            },
        };
        *self = next;
        outcome
    }

    /// Handles a datagram that came while no reply was awaited.
    fn take_query(self, bytes: Vec<u8>, source: Endpoint) -> (next: (Resolver, Outcome))
        requires
            self@.pending is None,
        ensures
            next.0@ == on_query(self@, bytes@, source).state,
            next.1@ == on_query(self@, bytes@, source).outcome,
    {
        proof {
            use_type_invariant(&self);
        }
        let mut query = match decode_message(bytes.as_slice(), source) {
            Ok(query) => query,
            Err(e) => {
                return (self, Outcome { send: None, error: Some(ResolveError::Malformed(e)) });
            },
        };
        proof {
            lemma_parsed_message_valid(bytes@, source);
        }
        if query.questions.len() == 0 {
            return (self, Outcome { send: None, error: None });
        }
        let id = query.header.identification;
        let question = query.questions.swap_remove(0);
        let Resolver { mut cache, upstream, pending } = self;
        match cached_answer(&mut cache, &question.name) {
            Some(payload) => {
                let answer = answer_from(id, question, payload, source);
                let wire = encode_message(&answer);
                (
                    Resolver { cache, upstream, pending },
                    Outcome { send: Some(Outgoing { bytes: wire, to: source }), error: None },
                )
            },
            None => {
                let waiting = Pending { id, requester: source, question };
                (
                    Resolver { cache, upstream, pending: Some(waiting) },
                    Outcome { send: Some(Outgoing { bytes, to: upstream }), error: None },
                )
            },
        }
    }

    /// Handles a datagram that came while a reply was awaited.
    fn take_reply(self, bytes: Vec<u8>, source: Endpoint) -> (next: (Resolver, Outcome))
        requires
            self@.pending is Some,
        ensures
            next.0@ == on_reply(self@, self@.pending->0, bytes@, source).state,
            next.1@ == on_reply(self@, self@.pending->0, bytes@, source).outcome,
    {
        proof {
            use_type_invariant(&self);
        }
        let awaited = match &self.pending {
            Some(waiting) => source == self.upstream && match decode_header(bytes.as_slice()) {
                Ok(header) => header.identification == waiting.id,
                Err(_) => false,
            },
            None => false,
        };
        if !awaited {
            return (self, Outcome { send: None, error: Some(ResolveError::UpstreamMismatch) });
        }
        let Resolver { mut cache, upstream, pending } = self;
        let waiting = pending.unwrap();
        match decode_message(bytes.as_slice(), source) {
            Err(e) => {
                let to = waiting.requester;
                let reply = failure_from(waiting.id, waiting.question, to);
                let wire = encode_message(&reply);
                (
                    Resolver { cache, upstream, pending: None },
                    Outcome {
                        send: Some(Outgoing { bytes: wire, to }),
                        error: Some(ResolveError::Malformed(e)),
                    },
                )
            },
            Ok(reply) => {
                if reply.answers.len() > 0 {
                    let first = &reply.answers[0];
                    let path = path_of(&first.name);
                    proof {
                        lemma_parsed_message_valid(bytes@, source);
                    }
                    cache.insert_stream(&path, &first.r_data);
                }
                (
                    Resolver { cache, upstream, pending: None },
                    Outcome { send: Some(Outgoing { bytes, to: waiting.requester }), error: None },
                )
            },
        }
    }

    /// Handles the end of the wait for a reply.
    fn expire(self) -> (next: (Resolver, Outcome))
        ensures
            next.0@ == step(self@, EventView::Timeout).state,
            next.1@ == step(self@, EventView::Timeout).outcome,
    {
        proof {
            use_type_invariant(&self);
        }
        let Resolver { cache, upstream, pending } = self;
        match pending {
            None => (Resolver { cache, upstream, pending: None }, Outcome { send: None, error: None }),
            Some(waiting) => {
                let to = waiting.requester;
                let reply = failure_from(waiting.id, waiting.question, to);
                let wire = encode_message(&reply);
                (
                    Resolver { cache, upstream, pending: None },
                    Outcome {
                        send: Some(Outgoing { bytes: wire, to }),
                        error: Some(ResolveError::UpstreamTimeout),
                    },
                )
            },
        }
    }
}

} // verus!
