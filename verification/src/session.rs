//! One client connection.
//!
//! A connection is synchronous and serial: the server reads one request,
//! generates, writes one response, and only then reads the next request.
//! [`Session`] decides what to do; the caller reads, generates and writes.
use vstd::prelude::*;

use crate::protocol::{
    lemma_request_by_its_bytes, lemma_request_round_trip, lemma_response_stream_round_trip,
    parse_request, reply, request_bytes, request_of, respond, response_frame, response_stream,
    responses_in, Request, MAX_RESPONSE_DATA, REQUEST_SIZE,
};
use crate::transport::{ReadExact, ReadStatus};

verus! {

/// What a read on a connection led to.
#[derive(Clone, Copy, Debug, PartialEq, Eq, Structural)]
pub enum Received {
    /// More bytes of the request are to be read.
    Pending,
    /// The request is complete; generate for it and answer.
    Request(Request),
    /// The peer closed the connection; close it too.
    Closed,
}

/// What a [`Session`] knows.
#[verifier::ext_equal]
pub struct SessionState {
    /// The bytes of the next request that have been read.
    pub partial: Seq<u8>,
    /// The request that is to be answered, where there is one.
    pub pending: Option<Request>,
}

impl SessionState {
    /// A session in which nothing was read.
    pub open spec fn initial() -> Self {
        SessionState { partial: Seq::empty(), pending: None }
    }

    /// The next request is incomplete, and not begun while one is to be answered.
    pub open spec fn wf(self) -> bool {
        &&& self.partial.len() < REQUEST_SIZE
        &&& self.pending is Some ==> self.partial.len() == 0
    }

    /// The session may take in `chunk` now: no request is to be answered, and
    /// the chunk does not reach beyond the request that is being read.
    pub open spec fn may_receive(self, chunk: Seq<u8>) -> bool {
        self.pending is None && self.partial.len() + chunk.len() <= REQUEST_SIZE
    }

    /// The session after it took in `chunk`.
    pub open spec fn receives(self, chunk: Seq<u8>) -> Self {
        let bytes = self.partial + chunk;
        if bytes.len() < REQUEST_SIZE {
            SessionState { partial: bytes, pending: None }
        } else {
            SessionState { partial: Seq::empty(), pending: Some(request_of(bytes)) }
        }
    }

    /// The session after the pending request was answered.
    pub open spec fn answers(self) -> Self {
        SessionState { partial: self.partial, pending: None }
    }
}

/// One client connection.
pub struct Session {
    reader: ReadExact,
    pending: Option<Request>,
}

impl View for Session {
    type V = SessionState;

    closed spec fn view(&self) -> SessionState {
        SessionState { partial: self.reader@, pending: self.pending }
    }
}

impl Session {
    /// The session reads requests and keeps to [`SessionState::wf`].
    pub closed spec fn wf(&self) -> bool {
        &&& self@.wf()
        &&& self.reader.wf()
        &&& self.reader.wanted() == REQUEST_SIZE
    }

    /// A session in which nothing was read.
    pub fn new() -> (session: Self)
        ensures
            session.wf(),
            session@ == SessionState::initial(),
    {
        Session { reader: ReadExact::new(REQUEST_SIZE), pending: None }
    }

    /// How many bytes the next read may ask for.
    pub fn wanted(&self) -> (wanted: usize)
        requires
            self.wf(),
        ensures
            wanted == REQUEST_SIZE - self@.partial.len(),
            wanted > 0,
    {
        self.reader.remaining()
    }

    /// Takes in what a read gave. Nothing means that the peer closed the
    /// connection, even in the middle of a request.
    pub fn receive(&mut self, chunk: &[u8]) -> (received: Received)
        requires
            old(self).wf(),
            old(self)@.may_receive(chunk@),
        ensures
            final(self).wf(),
            final(self)@ == old(self)@.receives(chunk@),
            received == if chunk@.len() == 0 {
                Received::Closed
            } else {
                match final(self)@.pending {
                    Some(request) => Received::Request(request),
                    None => Received::Pending,
                }
            },
    {
        match self.reader.advance(chunk) {
            ReadStatus::Eof => {
                assert(old(self)@.partial + chunk@ =~= old(self)@.partial);
                Received::Closed
            },
            ReadStatus::Pending => Received::Pending,
            ReadStatus::Filled => {
                let request = parse_request(self.reader.bytes());
                self.reader = ReadExact::new(REQUEST_SIZE);
                self.pending = Some(request);
                Received::Request(request)
            },
        }
    }

    /// The response to the pending request, given what its generation came to.
    pub fn answer(&mut self, outcome: Result<Vec<u8>, String>) -> (response: Vec<u8>)
        requires
            old(self).wf(),
            old(self)@.pending is Some,
            reply(outcome).1.len() <= MAX_RESPONSE_DATA,
        ensures
            final(self).wf(),
            final(self)@ == old(self)@.answers(),
            response@ == response_frame(reply(outcome).0, reply(outcome).1),
    {
        self.pending = None;
        respond(outcome)
    }
}

/// What happens on a connection.
pub enum SessionEvent {
    /// A read gave these bytes.
    Received(Seq<u8>),
    /// A request was answered with this status and this data.
    Answered(u32, Seq<u8>),
}

/// The state of a session after a series of events.
pub open spec fn state_after(events: Seq<SessionEvent>) -> SessionState
    decreases events.len(),
{
    if events.len() == 0 {
        SessionState::initial()
    } else {
        let before = state_after(events.drop_last());
        match events.last() {
            SessionEvent::Received(chunk) => before.receives(chunk),
            SessionEvent::Answered(_, _) => before.answers(),
        }
    }
}

/// Each event could happen in the state in which it happened: bytes arrived,
/// one at least, while the session was reading, and answers were given while a
/// request was pending.
pub open spec fn possible(events: Seq<SessionEvent>) -> bool
    decreases events.len(),
{
    events.len() > 0 ==> {
        let before = state_after(events.drop_last());
        &&& possible(events.drop_last())
        &&& match events.last() {
            SessionEvent::Received(chunk) => chunk.len() > 0 && before.may_receive(chunk),
            SessionEvent::Answered(_, _) => before.pending is Some,
        }
    }
}

/// All bytes that were read.
pub open spec fn bytes_read(events: Seq<SessionEvent>) -> Seq<u8>
    decreases events.len(),
{
    if events.len() == 0 {
        Seq::empty()
    } else {
        match events.last() {
            SessionEvent::Received(chunk) => bytes_read(events.drop_last()) + chunk,
            SessionEvent::Answered(_, _) => bytes_read(events.drop_last()),
        }
    }
}

/// The requests that became pending, in order.
pub open spec fn requests_taken(events: Seq<SessionEvent>) -> Seq<Request>
    decreases events.len(),
{
    if events.len() == 0 {
        Seq::empty()
    } else {
        let before = requests_taken(events.drop_last());
        match (events.last(), state_after(events).pending) {
            (SessionEvent::Received(_), Some(request)) => before.push(request),
            _ => before,
        }
    }
}

/// The answers that were given, in order.
pub open spec fn answers_given(events: Seq<SessionEvent>) -> Seq<(u32, Seq<u8>)>
    decreases events.len(),
{
    if events.len() == 0 {
        Seq::empty()
    } else {
        match events.last() {
            SessionEvent::Received(_) => answers_given(events.drop_last()),
            SessionEvent::Answered(status, data) => answers_given(events.drop_last()).push(
                (status, data),
            ),
        }
    }
}

/// All bytes that were written.
pub open spec fn bytes_written(events: Seq<SessionEvent>) -> Seq<u8>
    decreases events.len(),
{
    if events.len() == 0 {
        Seq::empty()
    } else {
        match events.last() {
            SessionEvent::Received(_) => bytes_written(events.drop_last()),
            SessionEvent::Answered(status, data) => bytes_written(events.drop_last())
                + response_frame(status, data),
        }
    }
}

/// The requests that a stream of bytes holds: one per 16 bytes.
pub open spec fn requests_in(bytes: Seq<u8>) -> Seq<Request> {
    Seq::new(
        bytes.len() / REQUEST_SIZE as nat,
        |i: int| request_of(bytes.subrange(REQUEST_SIZE * i, REQUEST_SIZE * i + REQUEST_SIZE)),
    )
}

/// The requests of a session are those that the bytes read hold, however the
/// stream was cut into reads. What is read beyond them is the beginning of the
/// next request.
pub proof fn lemma_requests_do_not_depend_on_the_reads(events: Seq<SessionEvent>)
    requires
        possible(events),
    ensures
        state_after(events).wf(),
        requests_taken(events) == requests_in(bytes_read(events)),
        state_after(events).partial == bytes_read(events).skip(
            REQUEST_SIZE * requests_taken(events).len(),
        ),
    decreases events.len(),
{
    if events.len() > 0 {
        let earlier = events.drop_last();
        lemma_requests_do_not_depend_on_the_reads(earlier);
        let before = state_after(earlier);
        let read = bytes_read(earlier);
        let taken = requests_taken(earlier);
        match events.last() {
            SessionEvent::Received(chunk) => {
                let more = read + chunk;
                let start = REQUEST_SIZE * taken.len();
                assert(read =~= read.take(start as int) + before.partial);
                assert forall|i: int| 0 <= i < taken.len() implies #[trigger] more.subrange(
                    REQUEST_SIZE * i,
                    REQUEST_SIZE * i + REQUEST_SIZE,
                ) == read.subrange(REQUEST_SIZE * i, REQUEST_SIZE * i + REQUEST_SIZE) by {
                    assert(more.subrange(REQUEST_SIZE * i, REQUEST_SIZE * i + REQUEST_SIZE)
                        =~= read.subrange(REQUEST_SIZE * i, REQUEST_SIZE * i + REQUEST_SIZE));
                }
                assert(more.skip(start as int) =~= before.partial + chunk);
                if before.partial.len() + chunk.len() == REQUEST_SIZE {
                    assert(more.subrange(start as int, start + REQUEST_SIZE) =~= before.partial
                        + chunk);
                }
                assert(requests_taken(events) =~= requests_in(more));
                assert(state_after(events).partial =~= more.skip(
                    REQUEST_SIZE * requests_taken(events).len(),
                ));
            },
            SessionEvent::Answered(_, _) => {},
        }
    } else {
        assert(requests_taken(events) =~= requests_in(bytes_read(events)));
        assert(state_after(events).partial =~= bytes_read(events).skip(0));
    }
}

/// Each request is answered before the next one is read, so the answers of a
/// session go with its requests one by one; the request that is pending, if
/// any, is the last one.
pub proof fn lemma_one_answer_per_request(events: Seq<SessionEvent>)
    requires
        possible(events),
    ensures
        match state_after(events).pending {
            None => answers_given(events).len() == requests_taken(events).len(),
            Some(request) => answers_given(events).len() + 1 == requests_taken(events).len()
                && requests_taken(events).last() == request,
        },
    decreases events.len(),
{
    if events.len() > 0 {
        lemma_one_answer_per_request(events.drop_last());
    }
}

/// The bytes written are the responses to the answered requests, in order.
pub proof fn lemma_responses_in_order(events: Seq<SessionEvent>)
    requires
        possible(events),
    ensures
        bytes_written(events) == response_stream(answers_given(events)),
    decreases events.len(),
{
    if events.len() > 0 {
        lemma_responses_in_order(events.drop_last());
        match events.last() {
            SessionEvent::Answered(status, data) => {
                lemma_response_stream_push(answers_given(events.drop_last()), status, data);
            },
            SessionEvent::Received(_) => {},
        }
    }
}

/// One more response stands at the end of the stream.
proof fn lemma_response_stream_push(responses: Seq<(u32, Seq<u8>)>, status: u32, data: Seq<u8>)
    ensures
        response_stream(responses.push((status, data))) == response_stream(responses)
            + response_frame(status, data),
    decreases responses.len(),
{
    let more = responses.push((status, data));
    if responses.len() == 0 {
        assert(more.drop_first() =~= Seq::empty());
        assert(response_stream(more.drop_first()) == Seq::<u8>::empty());
        assert(response_stream(more) =~= response_frame(status, data));
        assert(response_stream(responses) + response_frame(status, data) =~= response_frame(
            status,
            data,
        ));
    } else {
        lemma_response_stream_push(responses.drop_first(), status, data);
        assert(more.drop_first() =~= responses.drop_first().push((status, data)));
        assert(response_stream(more) =~= response_stream(responses) + response_frame(status, data));
    }
}

/// The bytes that a series of requests makes up.
pub open spec fn request_stream(requests: Seq<Request>) -> Seq<u8>
    decreases requests.len(),
{
    if requests.len() == 0 {
        Seq::empty()
    } else {
        request_stream(requests.drop_last()) + request_bytes(requests.last())
    }
}

/// The requests that a client sends are the requests that its bytes hold.
pub proof fn lemma_request_stream_round_trip(requests: Seq<Request>)
    ensures
        request_stream(requests).len() == REQUEST_SIZE * requests.len(),
        requests_in(request_stream(requests)) == requests,
    decreases requests.len(),
{
    if requests.len() > 0 {
        let earlier = requests.drop_last();
        let read = request_stream(earlier);
        let bytes = request_bytes(requests.last());
        let all = read + bytes;
        lemma_request_stream_round_trip(earlier);
        lemma_request_round_trip(requests.last());
        assert forall|i: int| 0 <= i < requests.len() implies #[trigger] requests_in(all)[i]
            == requests[i] by {
            let start = REQUEST_SIZE * i;
            if i < earlier.len() {
                assert(all.subrange(start, start + REQUEST_SIZE) =~= read.subrange(
                    start,
                    start + REQUEST_SIZE,
                ));
                assert(requests_in(read)[i] == earlier[i]);
            } else {
                assert(all.subrange(start, start + REQUEST_SIZE) =~= bytes);
            }
        }
        assert(requests_in(all) =~= requests);
    } else {
        assert(requests_in(request_stream(requests)) =~= requests);
    }
}

/// Client and server agree: when the server has read what a client sent and has
/// nothing left to answer, it has answered exactly the requests that the client
/// sent, in their order, and the client reads these answers in the same order.
pub proof fn lemma_client_reads_the_answers(events: Seq<SessionEvent>, sent: Seq<Request>)
    requires
        possible(events),
        bytes_read(events) == request_stream(sent),
        state_after(events).pending is None,
        forall|k: int|
            0 <= k < answers_given(events).len() ==> (#[trigger] answers_given(events)[k]).1.len()
                <= MAX_RESPONSE_DATA,
    ensures
        requests_taken(events) == sent,
        answers_given(events).len() == sent.len(),
        responses_in(bytes_written(events)) == answers_given(events),
{
    lemma_requests_do_not_depend_on_the_reads(events);
    lemma_request_stream_round_trip(sent);
    lemma_one_answer_per_request(events);
    lemma_responses_in_order(events);
    lemma_response_stream_round_trip(answers_given(events));
}

/// A session takes one request per 16 bytes that it has read, however they came:
/// the request `i` is the one that the bytes `16 * i` to `16 * i + 15` of the
/// stream stand for.
pub proof fn lemma_one_request_per_sixteen_bytes(events: Seq<SessionEvent>, i: int)
    requires
        possible(events),
        0 <= i,
        16 * i + 16 <= bytes_read(events).len(),
    ensures
        requests_taken(events).len() == bytes_read(events).len() / 16,
        i < requests_taken(events).len(),
        ({
            let bytes = bytes_read(events);
            let at = 16 * i;
            let request = requests_taken(events)[i];
            &&& request.seed == bytes[at] * 0x100_0000_0000_0000 + bytes[at + 1] * 0x1_0000_0000_0000
                + bytes[at + 2] * 0x100_0000_0000 + bytes[at + 3] * 0x1_0000_0000 + bytes[at + 4]
                * 0x100_0000 + bytes[at + 5] * 0x1_0000 + bytes[at + 6] * 0x100 + bytes[at + 7]
            &&& (request.chunk_x - (bytes[at + 8] * 0x100_0000 + bytes[at + 9] * 0x1_0000 + bytes[at
                + 10] * 0x100 + bytes[at + 11])) % 0x1_0000_0000 == 0
            &&& (request.chunk_z - (bytes[at + 12] * 0x100_0000 + bytes[at + 13] * 0x1_0000
                + bytes[at + 14] * 0x100 + bytes[at + 15])) % 0x1_0000_0000 == 0
        }),
{
    lemma_requests_do_not_depend_on_the_reads(events);
    let bytes = bytes_read(events);
    let at = 16 * i;
    assert(requests_taken(events)[i] == request_of(bytes.subrange(at, at + 16)));
    lemma_request_by_its_bytes(bytes.subrange(at, at + 16));
}

/// Two reads do what one read of the bytes of both does.
pub proof fn lemma_reads_add_up(state: SessionState, one: Seq<u8>, other: Seq<u8>)
    requires
        state.wf(),
        state.pending is None,
        state.partial.len() + one.len() < 16,
        state.partial.len() + one.len() + other.len() <= 16,
    ensures
        state.receives(one).may_receive(other),
        state.receives(one).receives(other) == state.receives(one + other),
        state.receives(one).partial == state.partial + one,
        state.receives(one).pending is None,
        state.partial.len() + one.len() + other.len() == 16 ==> state.receives(
            one + other,
        ).pending is Some,
{
    assert(state.partial + one + other =~= state.partial + (one + other));
}

/// An answer ends the request that it is for and leaves nothing else changed: the
/// session may read the next request, of which it has read nothing.
pub proof fn lemma_answer_ends_the_request(state: SessionState, chunk: Seq<u8>)
    requires
        state.wf(),
        state.pending is Some,
        chunk.len() <= 16,
    ensures
        state.answers().pending is None,
        state.answers().partial.len() == 0,
        state.answers().may_receive(chunk),
        !state.may_receive(chunk),
{
}

} // verus!
