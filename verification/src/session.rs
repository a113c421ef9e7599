//! The stream session: a state machine from what arrives on the connection
//! to what is published.

use vstd::prelude::*;
use crate::bytes::{ascii, ascii_bytes, to_vec};
use crate::chunk::{chunk_choices, deltas_of, done_line, done_reason, parse_chunk, parsed, Delta};
use crate::event::{events_of, Event, EventView, StreamEvent};
use crate::registry::{after_cancel, cancelled_in, SessionInfo, SessionRegistry};
use crate::request::{
    bearer, bearer_value, body_text, credential_is_valid, messages_of, request_body,
    valid_credential, ChatMessage, Request,
};

verus! {

/// Where a session stands.
#[derive(Debug, Clone, Copy, PartialEq, Eq, Structural)]
pub enum Phase {
    /// Not started.
    Idle,
    /// Started; the connection does not stand yet.
    Connecting,
    /// The connection stands and frames arrive.
    Streaming,
    /// The terminal event is out; what the session holds is to be released.
    Terminating,
    /// Over. Nothing is published any more.
    Closed,
}

/// The kind of a frame of the connection.
#[derive(Debug, Clone, Copy, PartialEq, Eq, Structural)]
pub enum RawKind {
    Open,
    Message,
    Error,
}

/// One frame as the connection gave it.
#[derive(Debug, Clone, PartialEq, Eq)]
pub struct RawEvent {
    pub kind: RawKind,
    pub data: Vec<u8>,
}

impl View for RawEvent {
    type V = (RawKind, Seq<u8>);

    open spec fn view(&self) -> (RawKind, Seq<u8>) {
        (self.kind, self.data@)
    }
}

/// What a session meets when it wakes. `E` is the type of a frame.
#[derive(Debug, Clone, Copy, PartialEq, Eq)]
pub enum Input<E> {
    /// Nothing arrived.
    Wake,
    /// A frame arrived.
    Event(E),
    /// The connection gave its last frame.
    EndOfStream,
}

/// An input as a mathematical value.
pub type InputView = Input<(RawKind, Seq<u8>)>;

impl<'a> View for Input<&'a RawEvent> {
    type V = Input<(RawKind, Seq<u8>)>;

    open spec fn view(&self) -> Input<(RawKind, Seq<u8>)> {
        match self {
            Input::Wake => Input::Wake,
            Input::Event(e) => Input::Event(e@),
            Input::EndOfStream => Input::EndOfStream,
        }
    }
}

/// Why a session could not start.
#[derive(Debug, Clone, Copy, PartialEq, Eq, Structural)]
pub enum StartError {
    /// The session has been started before.
    NotIdle,
    /// The credential cannot stand in a header.
    InvalidCredential,
    /// A session with this stream id is live.
    AlreadyLive,
}

/// What one call of `advance` did.
#[derive(Debug, Clone, PartialEq, Eq)]
pub struct Step {
    /// What is to be published, in this order.
    pub events: Vec<StreamEvent>,
    /// Whether this call closed the session: the connection is to be closed.
    pub closed: bool,
}

/// One run of the relay for one stream.
pub struct Session {
    id: Vec<u8>,
    phase: Phase,
}

/// A session as a mathematical value.
pub struct SessionView {
    pub id: Seq<u8>,
    pub phase: Phase,
}

impl View for Session {
    type V = SessionView;

    closed spec fn view(&self) -> SessionView {
        SessionView { id: self.id@, phase: self.phase }
    }
}

// ---------------------------------------------------------------------
// The machine
// ---------------------------------------------------------------------

/// A session publishes only while it is connecting or streaming.
pub open spec fn is_live(phase: Phase) -> bool {
    phase == Phase::Connecting || phase == Phase::Streaming
}

/// The message of the error that reports a connection that ended without
/// a terminator.
pub open spec fn lost_connection() -> Seq<u8> {
    ascii("stream ended before completion"@)
}

/// What the deltas of one frame publish: each content and each raw line as
/// a chunk, in their order, up to the first finish, which is published as
/// the end; nothing that follows it.
pub open spec fn delta_events(deltas: Seq<Delta<Seq<u8>>>) -> Seq<EventView>
    decreases deltas.len(),
{
    if deltas.len() == 0 {
        Seq::empty()
    } else {
        match deltas[0] {
            Delta::Content(t) => seq![Event::Content(t)] + delta_events(deltas.drop_first()),
            Delta::Raw(t) => seq![Event::Raw(t)] + delta_events(deltas.drop_first()),
            Delta::Finish(r) => seq![Event::End(r)],
        }
    }
}

/// Whether one of the deltas is a finish.
pub open spec fn finishes(deltas: Seq<Delta<Seq<u8>>>) -> bool
    decreases deltas.len(),
{
    deltas.len() > 0 && (deltas[0] is Finish || finishes(deltas.drop_first()))
}

/// What a session in `phase` does on an input: where it stands afterwards,
/// before it releases anything, and what it publishes. `cancelled` says
/// whether the registry holds a request to stop it.
pub open spec fn react(phase: Phase, cancelled: bool, input: InputView) -> (Phase, Seq<EventView>) {
    if !is_live(phase) {
        (phase, Seq::empty())
    } else if cancelled {
        (Phase::Terminating, seq![Event::Cancelled])
    } else {
        match input {
            Input::Wake => (phase, Seq::empty()),
            Input::EndOfStream => (Phase::Terminating, seq![Event::Error(lost_connection())]),
            Input::Event(frame) => match frame.0 {
                RawKind::Open => (
                    Phase::Streaming,
                    if phase == Phase::Connecting {
                        seq![Event::Open]
                    } else {
                        Seq::empty()
                    },
                ),
                RawKind::Error => (Phase::Terminating, seq![Event::Error(frame.1)]),
                RawKind::Message => (
                    if finishes(parsed(frame.1)) {
                        Phase::Terminating
                    } else {
                        Phase::Streaming
                    },
                    delta_events(parsed(frame.1)),
                ),
            },
        }
    }
}

/// Whether the session closes on this input.
pub open spec fn closes(phase: Phase, cancelled: bool, input: InputView) -> bool {
    react(phase, cancelled, input).0 == Phase::Terminating
}

/// One whole step: the reaction, and the release where the reaction ended
/// the stream.
pub open spec fn step_of(phase: Phase, cancelled: bool, input: InputView) -> (
    Phase,
    Seq<EventView>,
) {
    let reaction = react(phase, cancelled, input);
    (
        if reaction.0 == Phase::Terminating {
            Phase::Closed
        } else {
            reaction.0
        },
        reaction.1,
    )
}

/// The steps of a session over a sequence of inputs: where it stands in the
/// end, and all that it publishes.
pub open spec fn run(phase: Phase, cancelled: bool, inputs: Seq<InputView>) -> (
    Phase,
    Seq<EventView>,
)
    decreases inputs.len(),
{
    if inputs.len() == 0 {
        (phase, Seq::empty())
    } else {
        let first = step_of(phase, cancelled, inputs[0]);
        let rest = run(first.0, cancelled, inputs.drop_first());
        (rest.0, first.1 + rest.1)
    }
}

/// The frames of a script as inputs, and the end of the stream after them.
pub open spec fn script_inputs(script: Seq<RawEvent>) -> Seq<InputView> {
    Seq::new(script.len(), |k: int| Input::Event(script[k]@)).push(Input::EndOfStream)
}

/// Why a start fails, if it does.
pub open spec fn start_error(
    phase: Phase,
    sessions: Map<Seq<u8>, SessionInfo>,
    id: Seq<u8>,
    credential: Seq<u8>,
) -> Option<StartError> {
    if phase != Phase::Idle {
        Some(StartError::NotIdle)
    } else if !valid_credential(credential) {
        Some(StartError::InvalidCredential)
    } else if sessions.contains_key(id) {
        Some(StartError::AlreadyLive)
    } else {
        None
    }
}

/// Puts what the deltas of `data` publish behind `events`. Returns whether
/// one of them ends the stream.
fn push_delta_events(data: &[u8], events: &mut Vec<StreamEvent>) -> (finished: bool)
    ensures
        events_of(final(events)@) == events_of(old(events)@) + delta_events(parsed(data@)),
        finished == finishes(parsed(data@)),
{
    let deltas = parse_chunk(data);
    let ghost all = deltas_of(deltas@);
    let ghost before = events_of(events@);
    let mut k: usize = 0;
    let mut finished = false;
    assert(all.skip(0) =~= all);
    assert(before + Seq::<EventView>::empty() =~= before);
    while k < deltas.len() && !finished
        invariant
            k <= deltas@.len(),
            all == deltas_of(deltas@),
            !finished ==> before + delta_events(all) == events_of(events@) + delta_events(
                all.skip(k as int),
            ),
            !finished ==> finishes(all) == finishes(all.skip(k as int)),
            finished ==> before + delta_events(all) == events_of(events@),
            finished ==> finishes(all),
        decreases deltas@.len() - k, if finished { 0int } else { 1int },
    {
        let ghost tail = all.skip(k as int);
        let ghost sofar = events_of(events@);
        proof {
            assert(tail[0] == deltas@[k as int]@);
            assert(tail.drop_first() =~= all.skip(k + 1));
        }
        let event: StreamEvent = match &deltas[k] {
            Delta::Content(t) => Event::Content(to_vec(t.as_slice())),
            Delta::Raw(t) => Event::Raw(to_vec(t.as_slice())),
            Delta::Finish(r) => {
                finished = true;
                Event::End(to_vec(r.as_slice()))
            },
        };
        proof {
            assert(events_of(events@.push(event)) =~= sofar.push(event@));
            if finished {
                assert(delta_events(tail) =~= seq![event@]);
                assert(sofar + seq![event@] =~= sofar.push(event@));
            } else {
                assert(delta_events(tail) == seq![event@] + delta_events(all.skip(k + 1)));
                assert(sofar + (seq![event@] + delta_events(all.skip(k + 1))) =~= sofar.push(
                    event@,
                ) + delta_events(all.skip(k + 1)));
            }
        }
        events.push(event);
        k += 1;
    }
    proof {
        if !finished {
            assert(all.skip(k as int) =~= Seq::<Delta<Seq<u8>>>::empty());
            assert(events_of(events@) + Seq::<EventView>::empty() =~= events_of(events@));
        }
    }
    finished
}

impl Session {
    /// A session for the stream `id` that has not started.
    pub fn new(id: &[u8]) -> (session: Session)
        ensures
            session@.id == id@,
            session@.phase == Phase::Idle,
    {
        Session { id: to_vec(id), phase: Phase::Idle }
    }

    /// The id of the stream.
    pub fn id(&self) -> (id: &Vec<u8>)
        ensures
            id@ == self@.id,
    {
        &self.id
    }

    /// Where the session stands.
    pub fn phase(&self) -> (phase: Phase)
        ensures
            phase == self@.phase,
    {
        self.phase
    }

    /// Whether the session is over.
    pub fn is_closed(&self) -> (closed: bool)
        ensures
            closed == (self@.phase == Phase::Closed),
    {
        self.phase == Phase::Closed
    }

    /// Starts the session: checks the credential, enters the session in the
    /// registry and writes the request that opens the stream.
    ///
    /// A session that is not idle, a credential that cannot stand in a
    /// header and a stream id that is live fail, in this order of
    /// precedence, and leave the session and the registry as they were.
    pub fn start(
        &mut self,
        registry: &mut SessionRegistry,
        messages: &Vec<ChatMessage>,
        credential: &[u8],
        started_at: u64,
    ) -> (res: Result<Request, StartError>)
        ensures
            final(self)@.id == old(self)@.id,
            match start_error(old(self)@.phase, old(registry)@, old(self)@.id, credential@) {
                Some(error) => {
                    &&& res matches Err(e) && e == error
                    &&& final(self)@.phase == old(self)@.phase
                    &&& final(registry)@ == old(registry)@
                },
                None => {
                    &&& res matches Ok(request) && request.body@ == body_text(
                        messages_of(messages@),
                    ) && request.authorization@ == bearer(credential@)
                    &&& final(self)@.phase == Phase::Connecting
                    &&& final(registry)@ == old(registry)@.insert(
                        old(self)@.id,
                        SessionInfo { cancelled: false, started_at },
                    )
                },
            },
    {
        if self.phase != Phase::Idle {
            return Err(StartError::NotIdle);
        }
        if !credential_is_valid(credential) {
            return Err(StartError::InvalidCredential);
        }
        match registry.register(self.id.as_slice(), started_at) {
            Err(_) => Err(StartError::AlreadyLive),
            Ok(_) => {
                self.phase = Phase::Connecting;
                Ok(
                    Request {
                        body: request_body(messages),
                        authorization: bearer_value(credential),
                    },
                )
            },
        }
    }

    /// Takes the session one step: looks for a request to stop, reacts to
    /// the input, and releases the session where the step ended the stream.
    ///
    /// A request to stop that the registry holds for a live session goes
    /// before the input. A step that ends the stream takes the session out
    /// of the registry and closes it, and says so in `closed`. A session
    /// that is idle or closed does nothing.
    pub fn advance(&mut self, registry: &mut SessionRegistry, input: Input<&RawEvent>) -> (step:
        Step)
        ensures
            final(self)@.id == old(self)@.id,
            final(self)@.phase == step_of(
                old(self)@.phase,
                cancelled_in(old(registry)@, old(self)@.id),
                input@,
            ).0,
            events_of(step.events@) == step_of(
                old(self)@.phase,
                cancelled_in(old(registry)@, old(self)@.id),
                input@,
            ).1,
            step.closed == closes(
                old(self)@.phase,
                cancelled_in(old(registry)@, old(self)@.id),
                input@,
            ),
            final(registry)@ == if step.closed {
                old(registry)@.remove(old(self)@.id)
            } else {
                old(registry)@
            },
    {
        proof {
            reveal_strlit("stream ended before completion");
        }
        let mut events: Vec<StreamEvent> = Vec::new();
        let mut next = self.phase;
        assert(events_of(events@) =~= Seq::<EventView>::empty());
        if self.phase == Phase::Connecting || self.phase == Phase::Streaming {
            if registry.is_cancelled(self.id.as_slice()) {
                events.push(Event::Cancelled);
                next = Phase::Terminating;
                assert(events_of(events@) =~= seq![Event::Cancelled]);
            } else {
                match input {
                    Input::Wake => {},
                    Input::EndOfStream => {
                        events.push(
                            Event::Error(to_vec(ascii_bytes("stream ended before completion"))),
                        );
                        next = Phase::Terminating;
                        assert(events_of(events@) =~= seq![Event::Error(lost_connection())]);
                    },
                    Input::Event(frame) => match frame.kind {
                        RawKind::Open => {
                            if self.phase == Phase::Connecting {
                                events.push(Event::Open);
                                assert(events_of(events@) =~= seq![Event::Open]);
                            }
                            next = Phase::Streaming;
                        },
                        RawKind::Error => {
                            events.push(Event::Error(to_vec(frame.data.as_slice())));
                            next = Phase::Terminating;
                            assert(events_of(events@) =~= seq![Event::Error(frame.data@)]);
                        },
                        RawKind::Message => {
                            let finished = push_delta_events(frame.data.as_slice(), &mut events);
                            next = if finished {
                                Phase::Terminating
                            } else {
                                Phase::Streaming
                            };
                            assert(Seq::<EventView>::empty() + delta_events(parsed(frame.data@))
                                =~= delta_events(parsed(frame.data@)));
                        },
                    },
                }
            }
        }
        let closed = next == Phase::Terminating;
        if closed {
            registry.remove(self.id.as_slice());
            self.phase = Phase::Closed;
        } else {
            self.phase = next;
        }
        Step { events, closed }
    }

    /// Runs the session over a script: one step for each frame, in order,
    /// and one for the end of the stream after the last.
    ///
    /// A session that was started is closed afterwards and gone from the
    /// registry, whatever the script holds.
    pub fn relay(&mut self, registry: &mut SessionRegistry, script: &Vec<RawEvent>) -> (events:
        Vec<StreamEvent>)
        ensures
            final(self)@.id == old(self)@.id,
            final(self)@.phase == run(
                old(self)@.phase,
                cancelled_in(old(registry)@, old(self)@.id),
                script_inputs(script@),
            ).0,
            events_of(events@) == run(
                old(self)@.phase,
                cancelled_in(old(registry)@, old(self)@.id),
                script_inputs(script@),
            ).1,
            final(registry)@ == if old(self)@.phase == Phase::Idle || old(self)@.phase
                == Phase::Closed {
                old(registry)@
            } else {
                old(registry)@.remove(old(self)@.id)
            },
    {
        let ghost phase0 = self@.phase;
        let ghost id = self@.id;
        let ghost sessions0 = registry@;
        let ghost flag0 = cancelled_in(sessions0, id);
        let ghost inputs = script_inputs(script@);
        let mut events: Vec<StreamEvent> = Vec::new();
        let mut k: usize = 0;
        assert(inputs.skip(0) =~= inputs);
        assert(events_of(events@) + run(phase0, flag0, inputs).1 =~= run(phase0, flag0, inputs).1);
        while k < script.len()
            invariant
                k <= script@.len(),
                inputs == script_inputs(script@),
                self@.id == id,
                (self@.phase == Phase::Idle) == (phase0 == Phase::Idle),
                phase0 == Phase::Closed ==> self@.phase == Phase::Closed,
                self@.phase == Phase::Terminating ==> phase0 == Phase::Terminating,
                registry@ == if self@.phase == Phase::Closed && phase0 != Phase::Closed {
                    sessions0.remove(id)
                } else {
                    sessions0
                },
                flag0 == cancelled_in(sessions0, id),
                run(phase0, flag0, inputs).0 == run(
                    self@.phase,
                    cancelled_in(registry@, id),
                    inputs.skip(k as int),
                ).0,
                run(phase0, flag0, inputs).1 == events_of(events@) + run(
                    self@.phase,
                    cancelled_in(registry@, id),
                    inputs.skip(k as int),
                ).1,
            decreases script@.len() - k,
        {
            let ghost before = events_of(events@);
            let ghost flag = cancelled_in(registry@, id);
            let mut step = self.advance(registry, Input::Event(&script[k]));
            proof {
                let tail = inputs.skip(k as int);
                assert(tail[0] == Input::<(RawKind, Seq<u8>)>::Event(script@[k as int]@));
                assert(tail.drop_first() =~= inputs.skip(k + 1));
                lemma_run_not_live(self@.phase, flag, cancelled_in(registry@, id), inputs.skip(k + 1));
                let rest = run(self@.phase, flag, inputs.skip(k + 1)).1;
                assert(before + (events_of(step.events@) + rest) =~= (before + events_of(
                    step.events@,
                )) + rest);
                assert(events_of(events@ + step.events@) =~= before + events_of(step.events@));
            }
            events.append(&mut step.events);
            k += 1;
        }
        let ghost before = events_of(events@);
        let ghost flag = cancelled_in(registry@, id);
        let mut step = self.advance(registry, Input::EndOfStream);
        proof {
            let tail = inputs.skip(k as int);
            assert(tail =~= seq![Input::<(RawKind, Seq<u8>)>::EndOfStream]);
            assert(tail.drop_first() =~= Seq::<InputView>::empty());
            assert(run(self@.phase, flag, tail.drop_first()).1 =~= Seq::<EventView>::empty());
            assert(before + (events_of(step.events@) + Seq::<EventView>::empty()) =~= before
                + events_of(step.events@));
            assert(events_of(events@ + step.events@) =~= before + events_of(step.events@));
        }
        events.append(&mut step.events);
        events
    }
}

/// A session that is not live takes no notice of requests to stop.
proof fn lemma_run_not_live(phase: Phase, a: bool, b: bool, inputs: Seq<InputView>)
    ensures
        !is_live(phase) || a == b ==> run(phase, a, inputs) == run(phase, b, inputs),
    decreases inputs.len(),
{
    if inputs.len() > 0 && !is_live(phase) {
        lemma_run_not_live(step_of(phase, a, inputs[0]).0, a, b, inputs.drop_first());
    }
}

// ---------------------------------------------------------------------
// What holds of every run
// ---------------------------------------------------------------------

/// A frame of the kind message, as an input.
pub open spec fn message(text: Seq<u8>) -> InputView {
    Input::Event((RawKind::Message, text))
}

/// Frames of the kind message, as inputs.
pub open spec fn messages(frames: Seq<Seq<u8>>) -> Seq<InputView> {
    Seq::new(frames.len(), |k: int| message(frames[k]))
}

/// None of the frames ends the stream.
pub open spec fn flowing(frames: Seq<Seq<u8>>) -> bool {
    forall|k: int| 0 <= k < frames.len() ==> !finishes(parsed(#[trigger] frames[k]))
}

/// What the frames publish, frame by frame in the order of their arrival.
pub open spec fn chunks_of(frames: Seq<Seq<u8>>) -> Seq<EventView>
    decreases frames.len(),
{
    if frames.len() == 0 {
        Seq::empty()
    } else {
        delta_events(parsed(frames[0])) + chunks_of(frames.drop_first())
    }
}

/// The reason of the first finish among the deltas.
pub open spec fn first_finish(deltas: Seq<Delta<Seq<u8>>>) -> Seq<u8>
    decreases deltas.len(),
{
    if deltas.len() == 0 {
        Seq::empty()
    } else {
        match deltas[0] {
            Delta::Finish(r) => r,
            _ => first_finish(deltas.drop_first()),
        }
    }
}

/// How many of the events are an end.
pub open spec fn count_ends(events: Seq<EventView>) -> nat
    decreases events.len(),
{
    if events.len() == 0 {
        0
    } else {
        count_ends(events.drop_first()) + if events[0] is End {
            1nat
        } else {
            0nat
        }
    }
}

/// How many of the events are terminal.
pub open spec fn count_terminal(events: Seq<EventView>) -> nat
    decreases events.len(),
{
    if events.len() == 0 {
        0
    } else {
        count_terminal(events.drop_first()) + if crate::event::is_terminal(events[0]) {
            1nat
        } else {
            0nat
        }
    }
}

proof fn lemma_count_concat(a: Seq<EventView>, b: Seq<EventView>)
    ensures
        count_ends(a + b) == count_ends(a) + count_ends(b),
        count_terminal(a + b) == count_terminal(a) + count_terminal(b),
    decreases a.len(),
{
    if a.len() == 0 {
        assert(a + b =~= b);
    } else {
        assert((a + b).drop_first() =~= a.drop_first() + b);
        lemma_count_concat(a.drop_first(), b);
    }
}

proof fn lemma_count_one(event: EventView)
    ensures
        count_ends(seq![event]) == if event is End {
            1nat
        } else {
            0nat
        },
        count_terminal(seq![event]) == if crate::event::is_terminal(event) {
            1nat
        } else {
            0nat
        },
{
    assert(seq![event].drop_first() =~= Seq::<EventView>::empty());
    assert(count_ends(Seq::<EventView>::empty()) == 0);
    assert(count_terminal(Seq::<EventView>::empty()) == 0);
}

/// The deltas of a frame publish an end exactly where one of them is a
/// finish: as their last event, with the reason of the first finish.
proof fn lemma_delta_events(deltas: Seq<Delta<Seq<u8>>>)
    ensures
        count_ends(delta_events(deltas)) == if finishes(deltas) {
            1nat
        } else {
            0nat
        },
        count_terminal(delta_events(deltas)) == count_ends(delta_events(deltas)),
        finishes(deltas) ==> delta_events(deltas).len() > 0 && delta_events(deltas).last()
            == Event::<Seq<u8>>::End(first_finish(deltas)),
    decreases deltas.len(),
{
    if deltas.len() > 0 {
        let rest = delta_events(deltas.drop_first());
        lemma_delta_events(deltas.drop_first());
        match deltas[0] {
            Delta::Finish(r) => {
                lemma_count_one(Event::End(r));
            },
            Delta::Content(t) => {
                lemma_count_one(Event::Content(t));
                lemma_count_concat(seq![Event::Content(t)], rest);
                if finishes(deltas) {
                    assert((seq![Event::<Seq<u8>>::Content(t)] + rest).last() == rest.last());
                }
            },
            Delta::Raw(t) => {
                lemma_count_one(Event::Raw(t));
                lemma_count_concat(seq![Event::Raw(t)], rest);
                if finishes(deltas) {
                    assert((seq![Event::<Seq<u8>>::Raw(t)] + rest).last() == rest.last());
                }
            },
        }
    }
}

proof fn lemma_chunks_hold_no_end(frames: Seq<Seq<u8>>)
    requires
        flowing(frames),
    ensures
        count_ends(chunks_of(frames)) == 0,
        count_terminal(chunks_of(frames)) == 0,
    decreases frames.len(),
{
    if frames.len() > 0 {
        assert(!finishes(parsed(frames[0])));
        assert forall|k: int| 0 <= k < frames.drop_first().len() implies !finishes(
            parsed(#[trigger] frames.drop_first()[k]),
        ) by {
            assert(frames.drop_first()[k] == frames[k + 1]);
        }
        lemma_chunks_hold_no_end(frames.drop_first());
        lemma_delta_events(parsed(frames[0]));
        lemma_count_concat(delta_events(parsed(frames[0])), chunks_of(frames.drop_first()));
    }
}

/// Once a session is closed it publishes nothing and stays closed.
pub proof fn law_closed_is_silent(cancelled: bool, inputs: Seq<InputView>)
    ensures
        run(Phase::Closed, cancelled, inputs) == (Phase::Closed, Seq::<EventView>::empty()),
    decreases inputs.len(),
{
    if inputs.len() > 0 {
        law_closed_is_silent(cancelled, inputs.drop_first());
        assert(Seq::<EventView>::empty() + Seq::<EventView>::empty() =~= Seq::<
            EventView,
        >::empty());
    }
}

/// Frames that do not end the stream, then one that does, then anything:
/// the session publishes what the frames carry in the order of their
/// arrival, up to the end that the last of them brings, and is closed
/// without a look at what follows.
pub proof fn law_stream_runs_to_its_end(
    phase: Phase,
    frames: Seq<Seq<u8>>,
    last: Seq<u8>,
    rest: Seq<InputView>,
)
    requires
        is_live(phase),
        flowing(frames),
        finishes(parsed(last)),
    ensures
        run(phase, false, messages(frames) + seq![message(last)] + rest) == (
            Phase::Closed,
            chunks_of(frames) + delta_events(parsed(last)),
        ),
    decreases frames.len(),
{
    let inputs = messages(frames) + seq![message(last)] + rest;
    if frames.len() == 0 {
        assert(inputs[0] == message(last));
        assert(inputs.drop_first() =~= rest);
        law_closed_is_silent(false, rest);
        assert(delta_events(parsed(last)) + Seq::<EventView>::empty() =~= chunks_of(frames)
            + delta_events(parsed(last)));
    } else {
        assert(inputs[0] == message(frames[0]));
        assert(!finishes(parsed(frames[0])));
        assert(inputs.drop_first() =~= messages(frames.drop_first()) + seq![message(last)] + rest);
        assert forall|k: int| 0 <= k < frames.drop_first().len() implies !finishes(
            parsed(#[trigger] frames.drop_first()[k]),
        ) by {
            assert(frames.drop_first()[k] == frames[k + 1]);
        }
        law_stream_runs_to_its_end(Phase::Streaming, frames.drop_first(), last, rest);
        assert(delta_events(parsed(frames[0])) + (chunks_of(frames.drop_first()) + delta_events(
            parsed(last),
        )) =~= chunks_of(frames) + delta_events(parsed(last)));
    }
}

/// Frames that do not end the stream and then the terminator: the session
/// publishes what the frames carry in the order of their arrival, then one
/// end with the reason `done`, which is its only end, and nothing of what
/// follows.
pub proof fn law_done_ends_the_stream(phase: Phase, frames: Seq<Seq<u8>>, rest: Seq<InputView>)
    requires
        is_live(phase),
        flowing(frames),
    ensures
        run(phase, false, messages(frames) + seq![message(done_line())] + rest) == (
            Phase::Closed,
            chunks_of(frames) + seq![Event::<Seq<u8>>::End(done_reason())],
        ),
        count_ends(chunks_of(frames) + seq![Event::<Seq<u8>>::End(done_reason())]) == 1,
{
    let end = seq![Event::<Seq<u8>>::End(done_reason())];
    let deltas = parsed(done_line());
    assert(deltas.drop_first() =~= Seq::<Delta<Seq<u8>>>::empty());
    assert(delta_events(deltas) =~= end);
    assert(finishes(deltas));
    law_stream_runs_to_its_end(phase, frames, done_line(), rest);
    lemma_chunks_hold_no_end(frames);
    lemma_count_one(Event::End(done_reason()));
    lemma_count_concat(chunks_of(frames), end);
}

/// Frames that do not end the stream and then one that carries a finish
/// reason: the session publishes exactly one end, as its last event and
/// with the first reason of that frame, and is closed whether or not the
/// terminator follows.
pub proof fn law_finish_reason_ends_the_stream(
    phase: Phase,
    frames: Seq<Seq<u8>>,
    last: Seq<u8>,
    rest: Seq<InputView>,
)
    requires
        is_live(phase),
        flowing(frames),
        finishes(parsed(last)),
    ensures
        ({
            let out = run(phase, false, messages(frames) + seq![message(last)] + rest);
            &&& out.0 == Phase::Closed
            &&& out.1 == chunks_of(frames) + delta_events(parsed(last))
            &&& out.1.len() > 0
            &&& out.1.last() == Event::<Seq<u8>>::End(first_finish(parsed(last)))
            &&& count_ends(out.1) == 1
            &&& count_terminal(out.1) == 1
        }),
{
    law_stream_runs_to_its_end(phase, frames, last, rest);
    lemma_chunks_hold_no_end(frames);
    lemma_delta_events(parsed(last));
    lemma_count_concat(chunks_of(frames), delta_events(parsed(last)));
}

/// A frame that is neither the terminator nor an object with an array
/// `choices` is published whole, as one raw chunk, and the session goes on
/// streaming.
pub proof fn law_malformed_frame_passes(phase: Phase, text: Seq<u8>)
    requires
        is_live(phase),
        text != done_line(),
        chunk_choices(text) is None,
    ensures
        step_of(phase, false, message(text)) == (Phase::Streaming, seq![Event::<Seq<u8>>::Raw(text)]),
        !closes(phase, false, message(text)),
{
    let deltas = parsed(text);
    assert(deltas =~= seq![Delta::<Seq<u8>>::Raw(text)]);
    assert(deltas.drop_first() =~= Seq::<Delta<Seq<u8>>>::empty());
    assert(delta_events(deltas.drop_first()) =~= Seq::<EventView>::empty());
    assert(!finishes(deltas.drop_first()));
    assert(delta_events(deltas) =~= seq![Event::<Seq<u8>>::Raw(text)]);
}

/// A request to stop a live session ends it at its next step, whatever
/// arrives: the step publishes one event, which says that the stream was
/// cancelled, closes the session and takes it out of the registry.
pub proof fn law_cancel_ends_a_live_session(
    sessions: Map<Seq<u8>, SessionInfo>,
    id: Seq<u8>,
    phase: Phase,
    input: InputView,
)
    requires
        sessions.contains_key(id),
        is_live(phase),
    ensures
        cancelled_in(after_cancel(sessions, id), id),
        step_of(phase, true, input) == (Phase::Closed, seq![Event::<Seq<u8>>::Cancelled]),
        closes(phase, true, input),
        !after_cancel(sessions, id).remove(id).contains_key(id),
{
}

/// A session that was started publishes exactly one terminal event before
/// the end of its stream, whatever arrives and whether or not it is asked
/// to stop, and is closed then.
pub proof fn law_one_terminal_event(phase: Phase, cancelled: bool, inputs: Seq<InputView>)
    requires
        is_live(phase),
    ensures
        run(phase, cancelled, inputs.push(Input::EndOfStream)).0 == Phase::Closed,
        count_terminal(run(phase, cancelled, inputs.push(Input::EndOfStream)).1) == 1,
    decreases inputs.len(),
{
    let all = inputs.push(Input::EndOfStream);
    let first = step_of(phase, cancelled, all[0]);
    let rest = run(first.0, cancelled, all.drop_first());
    lemma_step_terminal(phase, cancelled, all[0]);
    lemma_count_concat(first.1, rest.1);
    if first.0 == Phase::Closed {
        law_closed_is_silent(cancelled, all.drop_first());
        assert(count_terminal(Seq::<EventView>::empty()) == 0);
    } else {
        assert(inputs.len() > 0);
        assert(all.drop_first() =~= inputs.drop_first().push(Input::EndOfStream));
        law_one_terminal_event(first.0, cancelled, inputs.drop_first());
    }
}

/// A step of a live session publishes a terminal event exactly where it
/// closes the session; the end of the stream closes it.
proof fn lemma_step_terminal(phase: Phase, cancelled: bool, input: InputView)
    requires
        is_live(phase),
    ensures
        step_of(phase, cancelled, input).0 == Phase::Closed || is_live(
            step_of(phase, cancelled, input).0,
        ),
        count_terminal(step_of(phase, cancelled, input).1) == if step_of(
            phase,
            cancelled,
            input,
        ).0 == Phase::Closed {
            1nat
        } else {
            0nat
        },
        input is EndOfStream ==> step_of(phase, cancelled, input).0 == Phase::Closed,
{
    let events = step_of(phase, cancelled, input).1;
    assert(count_terminal(Seq::<EventView>::empty()) == 0);
    if cancelled {
        lemma_count_one(Event::Cancelled);
    } else {
        match input {
            Input::Wake => {},
            Input::EndOfStream => {
                lemma_count_one(Event::Error(lost_connection()));
            },
            Input::Event(frame) => match frame.0 {
                RawKind::Open => {
                    lemma_count_one(Event::Open);
                },
                RawKind::Error => {
                    lemma_count_one(Event::Error(frame.1));
                },
                RawKind::Message => {
                    lemma_delta_events(parsed(frame.1));
                },
            },
        }
    }
}


} // verus!
