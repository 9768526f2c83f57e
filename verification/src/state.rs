//! The state of a session and the steps it takes, as a state machine over
//! plain values.
//!
//! A session holds, for each direction, the bytes and descriptors that were
//! read and not yet decoded and the messages that were decoded and not yet
//! written. Every step is a function from the state before to the state after
//! and to the descriptors that the caller has to close.

use vstd::prelude::*;
use vstd::multiset::Multiset;
use crate::codec::{DecodeError, WireCodec};
use crate::descriptors::{
    lemma_empty_bag, lemma_without_conserves, lemma_without_self, without,
};
use crate::hook::{lemma_pass_through_passes_all, passes_all, rule_of, Action, PassThrough};
use crate::message::{Message, MessageView, Side};
use crate::registry::{keyed, lemma_observe_keeps_keyed, observe, ObjectRecord, ProtocolViolation};

verus! {

/// Where a session stands in its life.
#[derive(Clone, Copy, Debug, PartialEq, Eq, Structural)]
pub enum Phase {
    /// Both sockets are open and nothing has been read yet.
    Handshaking,
    /// Messages flow in both directions.
    Active,
    /// One side is gone; what was decoded for the other is still written out.
    Draining,
    /// Both sockets are to be closed; nothing is held any more.
    Closed,
}

/// Which rule a peer broke, or which transfer failed.
#[derive(Clone, Copy, Debug, PartialEq, Eq, Structural)]
pub enum ErrorKind {
    /// A header declared a frame shorter than a header or longer than the limit.
    MalformedHeader,
    /// A payload did not hold the arguments its opcode has.
    MalformedPayload,
    /// A message broke the rules of the identifier space.
    ProtocolViolation(ProtocolViolation),
    /// A descriptor could not be carried over exactly once.
    FdTransferFailure,
}

/// Why a session ended: the side whose traffic failed, and how.
#[derive(Clone, Copy, Debug, PartialEq, Eq, Structural)]
pub struct SessionError {
    /// The side that sent the message on which the session failed.
    pub from: Side,
    /// What went wrong.
    pub kind: ErrorKind,
}

/// The session error that a fatal decoding error becomes.
pub open spec fn kind_of(e: DecodeError) -> ErrorKind {
    match e {
        DecodeError::MalformedHeader => ErrorKind::MalformedHeader,
        DecodeError::MissingDescriptor => ErrorKind::FdTransferFailure,
        _ => ErrorKind::MalformedPayload,
    }
}

/// The descriptors of a run of messages, in order.
pub open spec fn fds_of(messages: Seq<MessageView>) -> Seq<i32>
    decreases messages.len(),
{
    if messages.len() == 0 {
        Seq::empty()
    } else {
        messages[0].fds() + fds_of(messages.drop_first())
    }
}

/// The records after the messages of `from` have passed, one after the other.
pub open spec fn observe_all(
    records: Map<u32, ObjectRecord>,
    from: Side,
    messages: Seq<MessageView>,
    destructors: Set<(Side, u16)>,
) -> Result<Map<u32, ObjectRecord>, ProtocolViolation>
    decreases messages.len(),
{
    if messages.len() == 0 {
        Ok(records)
    } else {
        let destroys = destructors.contains((from, messages[0].opcode));
        match observe(records, from, messages[0], destroys) {
            Err(v) => Err(v),
            Ok(next) => observe_all(next, from, messages.drop_first(), destructors),
        }
    }
}

/// One direction of a session: the traffic that one side sent.
#[verifier::ext_equal]
pub struct LaneView {
    /// Bytes read from the side and not yet decoded.
    pub bytes: Seq<u8>,
    /// Descriptors read from the side and not yet given to a message.
    pub fds: Seq<i32>,
    /// Messages decoded and not yet written to the other side.
    pub queue: Seq<MessageView>,
}

/// A lane that holds nothing.
pub open spec fn idle_lane() -> LaneView {
    LaneView { bytes: Seq::empty(), fds: Seq::empty(), queue: Seq::empty() }
}

/// What a pull gave.
pub enum Pull {
    /// No whole frame waits, the queue is full, or the session does not run.
    Nothing,
    /// The next message of the lane.
    Message(MessageView),
    /// The stream was broken and the session is closed; the descriptors are to be closed.
    Failed(Seq<i32>),
}

/// Mathematical value of a session.
#[verifier::ext_equal]
pub struct SessionView {
    /// Where the session stands.
    pub phase: Phase,
    /// Whether the socket of the client is still to be used.
    pub client_open: bool,
    /// Whether the socket of the server is still to be used.
    pub server_open: bool,
    /// Why the session failed, if it did.
    pub failure: Option<SessionError>,
    /// The identifier table.
    pub records: Map<u32, ObjectRecord>,
    /// The traffic that the client sent.
    pub from_client: LaneView,
    /// The traffic that the server sent.
    pub from_server: LaneView,
    /// Descriptors of messages that were pulled and not yet delivered.
    pub in_flight: Seq<i32>,
    /// Every descriptor that was ever fed to the session.
    pub received: Multiset<i32>,
    /// Every descriptor that left with a frame that was sent.
    pub forwarded: Multiset<i32>,
    /// Every descriptor that the session handed back for closing.
    pub closed: Multiset<i32>,
}

impl SessionView {
    /// The lane of the traffic that `from` sent.
    pub open spec fn lane(self, from: Side) -> LaneView {
        match from {
            Side::Client => self.from_client,
            Side::Server => self.from_server,
        }
    }

    /// This state with `lane` as the lane of the traffic that `from` sent.
    pub open spec fn with_lane(self, from: Side, lane: LaneView) -> SessionView {
        match from {
            Side::Client => SessionView { from_client: lane, ..self },
            Side::Server => SessionView { from_server: lane, ..self },
        }
    }

    /// Whether messages still flow in both directions.
    pub open spec fn running(self) -> bool {
        self.phase is Handshaking || self.phase is Active
    }

    /// Whether the socket of `side` is still to be used.
    pub open spec fn open(self, side: Side) -> bool {
        match side {
            Side::Client => self.client_open,
            Side::Server => self.server_open,
        }
    }

    /// Every descriptor the session holds, in the order in which it hands them back.
    pub open spec fn held(self) -> Seq<i32> {
        self.in_flight + self.from_client.fds + fds_of(self.from_client.queue)
            + self.from_server.fds + fds_of(self.from_server.queue)
    }

    /// Every descriptor that came in is held, was forwarded or was closed, once.
    pub open spec fn balanced(self) -> bool {
        self.received == self.forwarded.add(self.closed).add(self.held().to_multiset())
    }

    /// What holds of every state a session can reach.
    pub open spec fn well_formed(self) -> bool {
        &&& self.balanced()
        &&& keyed(self.records)
        &&& self.failure is Some ==> self.phase is Closed
        &&& match self.phase {
            Phase::Handshaking => {
                &&& self.client_open
                &&& self.server_open
                &&& self.in_flight.len() == 0
                &&& self.from_client == idle_lane()
                &&& self.from_server == idle_lane()
            },
            Phase::Active => self.client_open && self.server_open,
            Phase::Draining => {
                let live = if self.client_open {
                    Side::Client
                } else {
                    Side::Server
                };
                &&& self.client_open != self.server_open
                &&& self.in_flight.len() == 0
                &&& self.lane(live) == idle_lane()
                &&& self.lane(live.other()).bytes.len() == 0
                &&& self.lane(live.other()).fds.len() == 0
                &&& self.lane(live.other()).queue.len() > 0
            },
            Phase::Closed => {
                &&& !self.client_open
                &&& !self.server_open
                &&& self.in_flight.len() == 0
                &&& self.from_client == idle_lane()
                &&& self.from_server == idle_lane()
                &&& self.records == Map::<u32, ObjectRecord>::empty()
            },
        }
    }

    /// The state of a session that was just made.
    pub open spec fn fresh(records: Map<u32, ObjectRecord>) -> SessionView {
        SessionView {
            phase: Phase::Handshaking,
            client_open: true,
            server_open: true,
            failure: None,
            records,
            from_client: idle_lane(),
            from_server: idle_lane(),
            in_flight: Seq::empty(),
            received: Multiset::empty(),
            forwarded: Multiset::empty(),
            closed: Multiset::empty(),
        }
    }

    /// The closed state: every record released and every held descriptor, which
    /// is `self.held()`, handed back for closing.
    pub open spec fn shut(self, failure: Option<SessionError>) -> SessionView {
        SessionView {
            phase: Phase::Closed,
            client_open: false,
            server_open: false,
            failure,
            records: Map::empty(),
            from_client: idle_lane(),
            from_server: idle_lane(),
            in_flight: Seq::empty(),
            received: self.received,
            forwarded: self.forwarded,
            closed: self.closed.add(self.held().to_multiset()),
        }
    }

    /// The state after `bytes` and `fds` were read from `from`, and the descriptors to close.
    ///
    /// A running session keeps both. A session that no longer reads drops the
    /// bytes and hands the descriptors back.
    pub open spec fn fed(self, from: Side, bytes: Seq<u8>, fds: Seq<i32>) -> (
        SessionView,
        Seq<i32>,
    ) {
        if self.running() {
            let lane = self.lane(from);
            (
                SessionView {
                    phase: Phase::Active,
                    received: self.received.add(fds.to_multiset()),
                    ..self
                }.with_lane(
                    from,
                    LaneView { bytes: lane.bytes + bytes, fds: lane.fds + fds, queue: lane.queue },
                ),
                Seq::empty(),
            )
        } else {
            (
                SessionView {
                    received: self.received.add(fds.to_multiset()),
                    closed: self.closed.add(fds.to_multiset()),
                    ..self
                },
                fds,
            )
        }
    }

    /// The state after the next message of `from` was asked for, and what the asking gave.
    ///
    /// A message leaves the bytes of its frame and takes its descriptors along:
    /// they are in flight until the message is delivered. A frame that has not
    /// arrived whole changes nothing. A broken frame closes the session.
    pub open spec fn pulled(self, from: Side, codec: WireCodec, capacity: int) -> (
        SessionView,
        Pull,
    ) {
        let lane = self.lane(from);
        if !self.running() || lane.queue.len() >= capacity {
            (self, Pull::Nothing)
        } else {
            match codec.spec_decode(lane.bytes, lane.fds) {
                Err(DecodeError::Incomplete) => (self, Pull::Nothing),
                Err(e) => (
                    self.shut(Some(SessionError { from, kind: kind_of(e) })),
                    Pull::Failed(self.held()),
                ),
                Ok((m, n)) => (
                    SessionView { in_flight: self.in_flight + m.fds(), ..self }.with_lane(
                        from,
                        LaneView {
                            bytes: lane.bytes.skip(n),
                            fds: lane.fds.skip(m.fds().len() as int),
                            queue: lane.queue,
                        },
                    ),
                    Pull::Message(m),
                ),
            }
        }
    }

    /// The state after `outputs` were handed in for the messages of `from` that
    /// are in flight, and the descriptors to close.
    ///
    /// The descriptors of `outputs` are claimed from those in flight. If one of
    /// them is not there, or if the identifier table refuses one of the
    /// messages, the session is closed. Otherwise the session is active, the
    /// messages are queued for the other side and the descriptors that none of
    /// them claimed are closed.
    pub open spec fn delivered(
        self,
        from: Side,
        outputs: Seq<MessageView>,
        destructors: Set<(Side, u16)>,
    ) -> (SessionView, Seq<i32>) {
        if !self.running() {
            (self, Seq::empty())
        } else {
            match without(self.in_flight, fds_of(outputs)) {
                None => (
                    self.shut(Some(SessionError { from, kind: ErrorKind::FdTransferFailure })),
                    self.held(),
                ),
                Some(unclaimed) => match observe_all(self.records, from, outputs, destructors) {
                    Err(v) => (
                        self.shut(
                            Some(SessionError { from, kind: ErrorKind::ProtocolViolation(v) }),
                        ),
                        self.held(),
                    ),
                    Ok(records) => {
                        let lane = self.lane(from);
                        (
                            SessionView {
                                phase: Phase::Active,
                                records,
                                in_flight: Seq::empty(),
                                closed: self.closed.add(unclaimed.to_multiset()),
                                ..self
                            }.with_lane(from, LaneView { queue: lane.queue + outputs, ..lane }),
                            unclaimed,
                        )
                    },
                },
            }
        }
    }

    /// The state after the message `m` of `from`, whose descriptors are those in
    /// flight, was sent on as it came, and the descriptors to close.
    ///
    /// This is the step of a relay that has no hook: the identifier table
    /// follows the message, the message is queued, nothing is closed.
    pub open spec fn relayed(self, from: Side, m: MessageView, destructors: Set<(Side, u16)>) -> (
        SessionView,
        Seq<i32>,
    ) {
        if !self.running() {
            (self, Seq::empty())
        } else {
            match observe(self.records, from, m, destructors.contains((from, m.opcode))) {
                Err(v) => (
                    self.shut(Some(SessionError { from, kind: ErrorKind::ProtocolViolation(v) })),
                    self.held(),
                ),
                Ok(records) => {
                    let lane = self.lane(from);
                    (
                        SessionView {
                            phase: Phase::Active,
                            records,
                            in_flight: Seq::empty(),
                            ..self
                        }.with_lane(from, LaneView { queue: lane.queue.push(m), ..lane }),
                        Seq::empty(),
                    )
                },
            }
        }
    }

    /// The state after every message that waits from `from` was pulled and sent
    /// on as it came, and the descriptors to close.
    ///
    /// This is the relay with no hook, run until no whole frame waits, the
    /// queue for the other side is full, or the session is closed.
    pub open spec fn relayed_all(
        self,
        from: Side,
        codec: WireCodec,
        capacity: int,
        destructors: Set<(Side, u16)>,
    ) -> (SessionView, Seq<i32>)
        decreases self.lane(from).bytes.len(),
    {
        let (pulled, what) = self.pulled(from, codec, capacity);
        match what {
            Pull::Nothing => (self, Seq::empty()),
            Pull::Failed(fds) => (pulled, fds),
            Pull::Message(m) => {
                let (next, first) = pulled.delivered(from, seq![m], destructors);
                if next.lane(from).bytes.len() < self.lane(from).bytes.len() {
                    let (last, rest) = next.relayed_all(from, codec, capacity, destructors);
                    (last, first + rest)
                } else {
                    (next, first)
                }
            },
        }
    }

    /// The state after the messages that wait from `from` were pulled one
    /// after the other and `answers` were delivered for them, the first answer
    /// for the first message and so on, and the descriptors to close.
    pub open spec fn hooked(
        self,
        from: Side,
        codec: WireCodec,
        capacity: int,
        destructors: Set<(Side, u16)>,
        answers: Seq<Seq<MessageView>>,
    ) -> (SessionView, Seq<i32>)
        decreases answers.len(),
    {
        let (pulled, what) = self.pulled(from, codec, capacity);
        if answers.len() == 0 || !(what is Message) {
            (self, Seq::empty())
        } else {
            let (next, first) = pulled.delivered(from, answers[0], destructors);
            let (last, rest) = next.hooked(
                from,
                codec,
                capacity,
                destructors,
                answers.drop_first(),
            );
            (last, first + rest)
        }
    }

    /// Whether `answers` are answers to messages that wait from `from`, one
    /// answer for each message in turn, and each of them one that `rule` allows
    /// for its message.
    pub open spec fn answered(
        self,
        rule: spec_fn(Side, MessageView, Seq<MessageView>) -> bool,
        from: Side,
        codec: WireCodec,
        capacity: int,
        destructors: Set<(Side, u16)>,
        answers: Seq<Seq<MessageView>>,
    ) -> bool
        decreases answers.len(),
    {
        let (pulled, what) = self.pulled(from, codec, capacity);
        answers.len() == 0 || (what matches Pull::Message(m) && rule(from, m, answers[0])
            && pulled.delivered(from, answers[0], destructors).0.answered(
            rule,
            from,
            codec,
            capacity,
            destructors,
            answers.drop_first(),
        ))
    }

    /// The state after pumping with a hook that gave `answers`, and the
    /// descriptors to close: the answers are delivered, and the pull that
    /// gives no further message has its say.
    pub open spec fn pumped(
        self,
        from: Side,
        codec: WireCodec,
        capacity: int,
        destructors: Set<(Side, u16)>,
        answers: Seq<Seq<MessageView>>,
    ) -> (SessionView, Seq<i32>) {
        let (last, closed) = self.hooked(from, codec, capacity, destructors, answers);
        let (end, what) = last.pulled(from, codec, capacity);
        match what {
            Pull::Failed(fds) => (end, closed + fds),
            _ => (last, closed),
        }
    }

    /// Whether pumping with a hook that keeps to `rule` and gave `answers`
    /// ends in the state `end` with `closed` to close: every message that
    /// waited was answered, each answer is one the rule allows, and nothing
    /// but the answers decided what became of the messages.
    pub open spec fn pumps_to(
        self,
        rule: spec_fn(Side, MessageView, Seq<MessageView>) -> bool,
        from: Side,
        codec: WireCodec,
        capacity: int,
        destructors: Set<(Side, u16)>,
        answers: Seq<Seq<MessageView>>,
        end: SessionView,
        closed: Seq<i32>,
    ) -> bool {
        &&& self.answered(rule, from, codec, capacity, destructors, answers)
        &&& !(self.hooked(from, codec, capacity, destructors, answers).0.pulled(
            from,
            codec,
            capacity,
        ).1 is Message)
        &&& self.pumped(from, codec, capacity, destructors, answers) == (end, closed)
    }

    /// The frame to write to `to` next: the first message queued for it, if
    /// there is one and the socket is still to be used.
    pub open spec fn next_out(self, to: Side) -> Option<MessageView> {
        let queue = self.lane(to.other()).queue;
        if self.open(to) && queue.len() > 0 {
            Some(queue[0])
        } else {
            None
        }
    }

    /// This state without the first message queued for `to`, its descriptors
    /// counted as forwarded.
    pub open spec fn popped(self, to: Side) -> SessionView {
        let lane = self.lane(to.other());
        SessionView {
            forwarded: self.forwarded.add(lane.queue[0].fds().to_multiset()),
            ..self
        }.with_lane(to.other(), LaneView { queue: lane.queue.drop_first(), ..lane })
    }

    /// The state after the frame of `self.next_out(to)` was written to `to`.
    ///
    /// The message leaves the queue and its descriptors count as forwarded. A
    /// draining session that has written its last message is closed.
    pub open spec fn sent(self, to: Side) -> SessionView {
        if self.next_out(to) is None {
            self
        } else if self.phase is Draining && self.lane(to.other()).queue.len() == 1 {
            self.popped(to).shut(None)
        } else {
            self.popped(to)
        }
    }

    /// The state after the socket of `gone` gave out, by end of stream or by a
    /// failed write, and the descriptors to close.
    ///
    /// A running session keeps only the messages that `gone` had sent and that
    /// wait for the other side: with some of them it drains, with none it is
    /// closed. A draining session whose other side gives out too is closed.
    pub open spec fn lost(self, gone: Side) -> (SessionView, Seq<i32>) {
        match self.phase {
            Phase::Handshaking | Phase::Active => {
                let keep = self.lane(gone).queue;
                if keep.len() == 0 {
                    (self.shut(None), self.held())
                } else {
                    let rest = self.with_lane(
                        gone,
                        LaneView { queue: Seq::empty(), ..self.lane(gone) },
                    );
                    (
                        SessionView {
                            phase: Phase::Draining,
                            client_open: gone == Side::Server,
                            server_open: gone == Side::Client,
                            failure: None,
                            records: self.records,
                            from_client: idle_lane(),
                            from_server: idle_lane(),
                            in_flight: Seq::empty(),
                            received: self.received,
                            forwarded: self.forwarded,
                            closed: self.closed.add(rest.held().to_multiset()),
                        }.with_lane(gone, LaneView { queue: keep, ..idle_lane() }),
                        rest.held(),
                    )
                }
            },
            Phase::Draining => if self.open(gone) {
                (self.shut(None), self.held())
            } else {
                (self, Seq::empty())
            },
            Phase::Closed => (self, Seq::empty()),
        }
    }

    /// The state after the time allowed for draining ran out, and the descriptors to close.
    pub open spec fn timed_out(self) -> (SessionView, Seq<i32>) {
        if self.phase is Draining {
            (self.shut(None), self.held())
        } else {
            (self, Seq::empty())
        }
    }
}

/// Messages that pass keep every record under its own identifier.
pub proof fn lemma_observe_all_keeps_keyed(
    records: Map<u32, ObjectRecord>,
    from: Side,
    messages: Seq<MessageView>,
    destructors: Set<(Side, u16)>,
)
    requires
        keyed(records),
    ensures
        observe_all(records, from, messages, destructors) matches Ok(after) ==> keyed(after),
    decreases messages.len(),
{
    if messages.len() > 0 {
        let destroys = destructors.contains((from, messages[0].opcode));
        lemma_observe_keeps_keyed(records, from, messages[0], destroys);
        if let Ok(next) = observe(records, from, messages[0], destroys) {
            lemma_observe_all_keeps_keyed(next, from, messages.drop_first(), destructors);
        }
    }
}

/// The descriptors of two runs of messages, one after the other.
pub proof fn lemma_fds_of_concat(a: Seq<MessageView>, b: Seq<MessageView>)
    ensures
        fds_of(a + b) == fds_of(a) + fds_of(b),
    decreases a.len(),
{
    if a.len() == 0 {
        assert(a + b =~= b);
        assert(fds_of(a) + fds_of(b) =~= fds_of(b));
    } else {
        lemma_fds_of_concat(a.drop_first(), b);
        assert((a + b).drop_first() =~= a.drop_first() + b);
        assert(fds_of(a + b) =~= fds_of(a) + fds_of(b));
    }
}

/// The descriptors of a run of exactly one message.
pub proof fn lemma_fds_of_one(m: MessageView)
    ensures
        fds_of(seq![m]) == m.fds(),
{
    let none = Seq::<MessageView>::empty();
    assert(seq![m].drop_first() =~= none);
    assert(fds_of(none) =~= Seq::<i32>::empty());
    assert(fds_of(seq![m]) =~= m.fds() + fds_of(none));
}

/// The descriptors a state holds, as the sum of the parts that hold them.
pub proof fn lemma_held_parts(v: SessionView)
    ensures
        v.held().to_multiset() == v.in_flight.to_multiset().add(
            v.from_client.fds.to_multiset(),
        ).add(fds_of(v.from_client.queue).to_multiset()).add(v.from_server.fds.to_multiset()).add(
            fds_of(v.from_server.queue).to_multiset(),
        ),
{
    broadcast use vstd::seq_lib::lemma_multiset_commutative;

}

/// A state that holds nothing in its lanes and in flight holds no descriptor.
pub proof fn lemma_held_nothing(v: SessionView)
    requires
        v.in_flight.len() == 0,
        v.from_client.fds.len() == 0,
        v.from_client.queue.len() == 0,
        v.from_server.fds.len() == 0,
        v.from_server.queue.len() == 0,
    ensures
        v.held() == Seq::<i32>::empty(),
        v.held().to_multiset() == Multiset::<i32>::empty(),
{
    assert(v.held() =~= Seq::<i32>::empty());
    lemma_empty_bag(v.held());
}

/// A closed state is well formed whenever the state it came from was balanced.
pub proof fn lemma_shut_well_formed(v: SessionView, failure: Option<SessionError>)
    requires
        v.balanced(),
    ensures
        v.shut(failure).well_formed(),
{
    let after = v.shut(failure);
    lemma_held_nothing(after);
    assert(after.received =~= after.forwarded.add(after.closed).add(after.held().to_multiset()))
        by {
        broadcast use vstd::multiset::group_multiset_axioms;

    }
}

/// A session that was just made is well formed.
pub proof fn lemma_fresh_well_formed(records: Map<u32, ObjectRecord>)
    requires
        keyed(records),
    ensures
        SessionView::fresh(records).well_formed(),
{
    let v = SessionView::fresh(records);
    lemma_held_nothing(v);
    assert(v.received =~= v.forwarded.add(v.closed).add(v.held().to_multiset())) by {
        broadcast use vstd::multiset::group_multiset_axioms;

    }
}

/// Feeding keeps a session well formed.
pub proof fn lemma_fed_well_formed(v: SessionView, from: Side, bytes: Seq<u8>, fds: Seq<i32>)
    requires
        v.well_formed(),
    ensures
        v.fed(from, bytes, fds).0.well_formed(),
{
    let after = v.fed(from, bytes, fds).0;
    lemma_held_parts(v);
    lemma_held_parts(after);
    assert(after.received =~= after.forwarded.add(after.closed).add(after.held().to_multiset()))
        by {
        broadcast use vstd::seq_lib::lemma_multiset_commutative;
        broadcast use vstd::multiset::group_multiset_axioms;

    }
}

/// Pulling keeps a session well formed.
pub proof fn lemma_pulled_well_formed(v: SessionView, from: Side, codec: WireCodec, capacity: int)
    requires
        v.well_formed(),
    ensures
        v.pulled(from, codec, capacity).0.well_formed(),
{
    let lane = v.lane(from);
    let after = v.pulled(from, codec, capacity).0;
    if v.running() && lane.queue.len() < capacity {
        match codec.spec_decode(lane.bytes, lane.fds) {
            Err(DecodeError::Incomplete) => {},
            Err(e) => {
                lemma_shut_well_formed(v, Some(SessionError { from, kind: kind_of(e) }));
            },
            Ok((m, n)) => {
                codec.lemma_decode_takes_front(lane.bytes, lane.fds);
                let k = m.fds().len() as int;
                assert(lane.fds =~= lane.fds.take(k) + lane.fds.skip(k));
                lemma_held_parts(v);
                lemma_held_parts(after);
                assert(after.received =~= after.forwarded.add(after.closed).add(
                    after.held().to_multiset(),
                )) by {
                    broadcast use vstd::seq_lib::lemma_multiset_commutative;
                    broadcast use vstd::multiset::group_multiset_axioms;

                }
            },
        }
    }
}

/// Delivering keeps a session well formed.
pub proof fn lemma_delivered_well_formed(
    v: SessionView,
    from: Side,
    outputs: Seq<MessageView>,
    destructors: Set<(Side, u16)>,
)
    requires
        v.well_formed(),
    ensures
        v.delivered(from, outputs, destructors).0.well_formed(),
{
    let after = v.delivered(from, outputs, destructors).0;
    if v.running() {
        match without(v.in_flight, fds_of(outputs)) {
            None => {
                lemma_shut_well_formed(
                    v,
                    Some(SessionError { from, kind: ErrorKind::FdTransferFailure }),
                );
            },
            Some(unclaimed) => match observe_all(v.records, from, outputs, destructors) {
                Err(e) => {
                    lemma_shut_well_formed(
                        v,
                        Some(SessionError { from, kind: ErrorKind::ProtocolViolation(e) }),
                    );
                },
                Ok(records) => {
                    lemma_observe_all_keeps_keyed(v.records, from, outputs, destructors);
                    lemma_without_conserves(v.in_flight, fds_of(outputs));
                    lemma_fds_of_concat(v.lane(from).queue, outputs);
                    lemma_held_parts(v);
                    lemma_held_parts(after);
                    lemma_empty_bag(after.in_flight);
                    assert(after.received =~= after.forwarded.add(after.closed).add(
                        after.held().to_multiset(),
                    )) by {
                        broadcast use vstd::seq_lib::lemma_multiset_commutative;
                        broadcast use vstd::multiset::group_multiset_axioms;

                    }
                },
            },
        }
    }
}

/// With a hook that hands every message back as it came, a session behaves
/// as one that has no hook.
///
/// Let the descriptors in flight be those of `message`, as they are when the
/// message was just pulled. Then doing what the action `Forward(message)`
/// says is the plain relay step: the same identifier table and the same
/// queues, so the same bytes for the other side, and no descriptor closed or
/// refused.
pub proof fn lemma_hook_transparency(
    v: SessionView,
    from: Side,
    message: Message,
    destructors: Set<(Side, u16)>,
)
    requires
        v.in_flight == message@.fds(),
    ensures
        v.delivered(from, Action::Forward(message).outcome(), destructors) == v.relayed(
            from,
            message@,
            destructors,
        ),
{
    lemma_transparent(v, from, message@, destructors);
}

/// Delivering a message whose descriptors are those in flight is the plain relay step.
pub proof fn lemma_transparent(
    v: SessionView,
    from: Side,
    m: MessageView,
    destructors: Set<(Side, u16)>,
)
    requires
        v.in_flight == m.fds(),
    ensures
        v.delivered(from, seq![m], destructors) == v.relayed(from, m, destructors),
{
    if v.running() {
        lemma_fds_of_one(m);
        lemma_without_self(v.in_flight);
        let none = Seq::<MessageView>::empty();
        assert(seq![m].drop_first() =~= none);
        let none_fds = Seq::<i32>::empty();
        lemma_empty_bag(none_fds);
        match observe(v.records, from, m, destructors.contains((from, m.opcode))) {
            Err(e) => {},
            Ok(records) => {
                assert(observe_all(records, from, none, destructors) == Ok::<
                    Map<u32, ObjectRecord>,
                    ProtocolViolation,
                >(records));
                let lane = v.lane(from);
                assert(lane.queue + seq![m] =~= lane.queue.push(m));
                assert(v.closed.add(none_fds.to_multiset()) =~= v.closed) by {
                    broadcast use vstd::multiset::group_multiset_axioms;

                }
                assert(v.delivered(from, seq![m], destructors).0 =~= v.relayed(
                    from,
                    m,
                    destructors,
                ).0);
            },
        }
    }
}

/// Taking a message out for sending keeps the count of descriptors balanced.
pub proof fn lemma_popped_balanced(v: SessionView, to: Side)
    requires
        v.balanced(),
        v.lane(to.other()).queue.len() > 0,
    ensures
        v.popped(to).balanced(),
{
    let next = v.popped(to);
    lemma_held_parts(v);
    lemma_held_parts(next);
    assert(next.received =~= next.forwarded.add(next.closed).add(next.held().to_multiset())) by {
        broadcast use vstd::seq_lib::lemma_multiset_commutative;
        broadcast use vstd::multiset::group_multiset_axioms;

    }
}

/// A pulled message leaves fewer bytes behind, and delivering adds none.
pub proof fn lemma_pull_consumes(
    v: SessionView,
    from: Side,
    codec: WireCodec,
    capacity: int,
    outputs: Seq<MessageView>,
    destructors: Set<(Side, u16)>,
)
    requires
        v.pulled(from, codec, capacity).1 is Message,
    ensures
        v.pulled(from, codec, capacity).0.lane(from).bytes.len() < v.lane(from).bytes.len(),
        v.pulled(from, codec, capacity).0.delivered(from, outputs, destructors).0.lane(
            from,
        ).bytes.len() < v.lane(from).bytes.len(),
{
    let lane = v.lane(from);
    codec.lemma_decode_takes_front(lane.bytes, lane.fds);
}

/// Feeding a frame in two parts is feeding it at once, and the first part alone gives nothing.
///
/// Take a running session with nothing waiting from `from` and room in the
/// queue, and a well-formed message that the codec accepts. After the first
/// `n` bytes of the frame, fewer than the frame has, a pull gives nothing and
/// changes nothing. After the rest of the bytes the session is in the state
/// that feeding the whole frame at once gives, and a pull gives the message.
pub proof fn lemma_split_delivery(
    v: SessionView,
    from: Side,
    codec: WireCodec,
    capacity: int,
    m: MessageView,
    n: int,
)
    requires
        v.running(),
        v.lane(from).bytes.len() == 0,
        v.lane(from).fds.len() == 0,
        v.lane(from).queue.len() < capacity,
        m.well_formed(),
        codec.accepts(m),
        0 <= n < m.size(),
    ensures
        ({
            let frame = crate::codec::frame_bytes(m);
            let part = v.fed(from, frame.take(n), m.fds()).0;
            let whole = v.fed(from, frame, m.fds()).0;
            &&& part.pulled(from, codec, capacity) == (part, Pull::Nothing)
            &&& part.fed(from, frame.skip(n), Seq::empty()).0 == whole
            &&& whole.pulled(from, codec, capacity).1 == Pull::Message(m)
            &&& whole.pulled(from, codec, capacity).0.lane(from).bytes.len() == 0
            &&& whole.pulled(from, codec, capacity).0.in_flight == v.in_flight + m.fds()
        }),
{
    let frame = crate::codec::frame_bytes(m);
    let none = Seq::<i32>::empty();
    let part = v.fed(from, frame.take(n), m.fds()).0;
    let whole = v.fed(from, frame, m.fds()).0;
    let lane = v.lane(from);
    crate::message::lemma_args_bytes_len(m.args);
    assert(lane.bytes =~= Seq::<u8>::empty());
    assert(lane.fds =~= none);
    assert(lane.bytes + frame.take(n) =~= frame.take(n));
    assert(lane.bytes + frame =~= frame);
    assert(lane.fds + m.fds() =~= m.fds());
    codec.lemma_partial_frame(m, n, m.fds());
    codec.lemma_round_trip(m, Seq::<u8>::empty(), none);
    assert(frame + Seq::<u8>::empty() =~= frame);
    assert(m.fds() + none =~= m.fds());
    assert(frame.take(n) + frame.skip(n) =~= frame);
    lemma_empty_bag(none);
    let again = part.fed(from, frame.skip(n), none).0;
    assert(again.received =~= whole.received) by {
        broadcast use vstd::multiset::group_multiset_axioms;

    }
    assert(again =~= whole);
    assert(frame.skip(m.size()) =~= Seq::<u8>::empty());
}

/// One more answer carries a pumped session one message further.
pub proof fn lemma_hooked_push(
    v: SessionView,
    rule: spec_fn(Side, MessageView, Seq<MessageView>) -> bool,
    from: Side,
    codec: WireCodec,
    capacity: int,
    destructors: Set<(Side, u16)>,
    answers: Seq<Seq<MessageView>>,
    answer: Seq<MessageView>,
)
    requires
        v.answered(rule, from, codec, capacity, destructors, answers),
        v.hooked(from, codec, capacity, destructors, answers).0.pulled(from, codec, capacity).1
            matches Pull::Message(m) && rule(from, m, answer),
    ensures
        v.answered(rule, from, codec, capacity, destructors, answers.push(answer)),
        ({
            let (last, closed) = v.hooked(from, codec, capacity, destructors, answers);
            let (next, more) = last.pulled(from, codec, capacity).0.delivered(
                from,
                answer,
                destructors,
            );
            v.hooked(from, codec, capacity, destructors, answers.push(answer)) == (
                next,
                closed + more,
            )
        }),
    decreases answers.len(),
{
    let longer = answers.push(answer);
    let none = Seq::<Seq<MessageView>>::empty();
    if answers.len() == 0 {
        assert(longer.drop_first() =~= none);
        let (next, more) = v.pulled(from, codec, capacity).0.delivered(from, answer, destructors);
        assert(next.answered(rule, from, codec, capacity, destructors, none));
        assert(next.hooked(from, codec, capacity, destructors, none) == (
            next,
            Seq::<i32>::empty(),
        ));
        assert(more + Seq::<i32>::empty() =~= Seq::<i32>::empty() + more);
    } else {
        let (step, first) = v.pulled(from, codec, capacity).0.delivered(
            from,
            answers[0],
            destructors,
        );
        lemma_hooked_push(
            step,
            rule,
            from,
            codec,
            capacity,
            destructors,
            answers.drop_first(),
            answer,
        );
        assert(longer.drop_first() =~= answers.drop_first().push(answer));
        let (last, rest) = step.hooked(from, codec, capacity, destructors, answers.drop_first());
        let (next, more) = last.pulled(from, codec, capacity).0.delivered(
            from,
            answer,
            destructors,
        );
        assert(first + (rest + more) =~= (first + rest) + more);
    }
}

/// With a hook that hands every message back as it came, pumping is the
/// relay with no hook.
///
/// Let a hook keep to a rule that allows, for every message, only the
/// message itself. Then whatever state the session is in and however many
/// messages wait, pumping with the hook ends in the state in which the plain
/// relay ends, with the same descriptors to close: the same queues, so the
/// same bytes and descriptors for either socket, and the same identifier
/// table.
pub proof fn lemma_pump_transparency(
    v: SessionView,
    rule: spec_fn(Side, MessageView, Seq<MessageView>) -> bool,
    from: Side,
    codec: WireCodec,
    capacity: int,
    destructors: Set<(Side, u16)>,
    answers: Seq<Seq<MessageView>>,
)
    requires
        passes_all(rule),
        v.answered(rule, from, codec, capacity, destructors, answers),
        !(v.hooked(from, codec, capacity, destructors, answers).0.pulled(from, codec, capacity).1
            is Message),
    ensures
        v.pumped(from, codec, capacity, destructors, answers) == v.relayed_all(
            from,
            codec,
            capacity,
            destructors,
        ),
    decreases answers.len(),
{
    let (pulled, what) = v.pulled(from, codec, capacity);
    if answers.len() == 0 {
        if let Pull::Failed(fds) = what {
            assert(Seq::<i32>::empty() + fds =~= fds);
        }
    } else {
        let m = what->Message_0;
        assert(rule(from, m, answers[0]));
        assert(answers[0] == seq![m]);
        let (next, first) = pulled.delivered(from, seq![m], destructors);
        lemma_pull_consumes(v, from, codec, capacity, seq![m], destructors);
        lemma_pump_transparency(
            next,
            rule,
            from,
            codec,
            capacity,
            destructors,
            answers.drop_first(),
        );
        let (last, rest) = next.hooked(from, codec, capacity, destructors, answers.drop_first());
        if let Pull::Failed(fds) = last.pulled(from, codec, capacity).1 {
            assert((first + rest) + fds =~= first + (rest + fds));
        }
    }
}

/// A session whose hook is [`PassThrough`] behaves as one that has no hook.
///
/// Whatever `Session::pump` may end in with that hook, by what it states of
/// itself, is what `Session::pump_plain` ends in.
pub proof fn lemma_pass_through_is_plain(
    v: SessionView,
    from: Side,
    codec: WireCodec,
    capacity: int,
    destructors: Set<(Side, u16)>,
    answers: Seq<Seq<MessageView>>,
    end: SessionView,
    closed: Seq<i32>,
)
    requires
        v.pumps_to(rule_of(PassThrough), from, codec, capacity, destructors, answers, end, closed),
    ensures
        (end, closed) == v.relayed_all(from, codec, capacity, destructors),
{
    lemma_pass_through_passes_all(PassThrough);
    lemma_pump_transparency(
        v,
        rule_of(PassThrough),
        from,
        codec,
        capacity,
        destructors,
        answers,
    );
}

/// Writing a frame out keeps a session well formed.
pub proof fn lemma_sent_well_formed(v: SessionView, to: Side)
    requires
        v.well_formed(),
    ensures
        v.sent(to).well_formed(),
{
    if v.next_out(to) is Some {
        lemma_popped_balanced(v, to);
        if v.phase is Draining && v.lane(to.other()).queue.len() == 1 {
            lemma_shut_well_formed(v.popped(to), None);
        }
    }
}

/// Losing a side keeps a session well formed.
pub proof fn lemma_lost_well_formed(v: SessionView, gone: Side)
    requires
        v.well_formed(),
    ensures
        v.lost(gone).0.well_formed(),
{
    let after = v.lost(gone).0;
    match v.phase {
        Phase::Handshaking | Phase::Active => {
            let keep = v.lane(gone).queue;
            if keep.len() == 0 {
                lemma_shut_well_formed(v, None);
            } else {
                let rest = v.with_lane(gone, LaneView { queue: Seq::empty(), ..v.lane(gone) });
                lemma_held_parts(v);
                lemma_held_parts(rest);
                lemma_held_parts(after);
                let none = Seq::<i32>::empty();
                lemma_empty_bag(none);
                assert(fds_of(Seq::<MessageView>::empty()) =~= none);
                assert(after.received =~= after.forwarded.add(after.closed).add(
                    after.held().to_multiset(),
                )) by {
                    broadcast use vstd::seq_lib::lemma_multiset_commutative;
                    broadcast use vstd::multiset::group_multiset_axioms;

                }
            }
        },
        Phase::Draining => {
            if v.open(gone) {
                lemma_shut_well_formed(v, None);
            }
        },
        Phase::Closed => {},
    }
}

/// Running out of time keeps a session well formed.
pub proof fn lemma_timed_out_well_formed(v: SessionView)
    requires
        v.well_formed(),
    ensures
        v.timed_out().0.well_formed(),
{
    if v.phase is Draining {
        lemma_shut_well_formed(v, None);
    }
}

/// Every step counts the descriptors it is handed and those it hands back.
///
/// What is fed is counted as received. What a step hands back for closing is
/// counted as closed, and nothing else is. The descriptors of a frame that
/// was written are counted as forwarded, and nothing else is.
pub proof fn lemma_steps_account(
    v: SessionView,
    side: Side,
    bytes: Seq<u8>,
    fds: Seq<i32>,
    codec: WireCodec,
    capacity: int,
    outputs: Seq<MessageView>,
    destructors: Set<(Side, u16)>,
)
    requires
        v.well_formed(),
    ensures
        ({
            let (after, to_close) = v.fed(side, bytes, fds);
            &&& after.received == v.received.add(fds.to_multiset())
            &&& after.forwarded == v.forwarded
            &&& after.closed == v.closed.add(to_close.to_multiset())
        }),
        ({
            let (after, what) = v.pulled(side, codec, capacity);
            &&& after.received == v.received
            &&& after.forwarded == v.forwarded
            &&& what matches Pull::Failed(to_close) ==> after.closed == v.closed.add(
                to_close.to_multiset(),
            )
            &&& !(what is Failed) ==> after.closed == v.closed
        }),
        ({
            let (after, to_close) = v.delivered(side, outputs, destructors);
            &&& after.received == v.received
            &&& after.forwarded == v.forwarded
            &&& after.closed == v.closed.add(to_close.to_multiset())
        }),
        ({
            let after = v.sent(side);
            &&& after.received == v.received
            &&& after.closed == v.closed
            &&& after.forwarded == match v.next_out(side) {
                Some(m) => v.forwarded.add(m.fds().to_multiset()),
                None => v.forwarded,
            }
        }),
        ({
            let (after, to_close) = v.lost(side);
            &&& after.received == v.received
            &&& after.forwarded == v.forwarded
            &&& after.closed == v.closed.add(to_close.to_multiset())
        }),
        ({
            let (after, to_close) = v.timed_out();
            &&& after.received == v.received
            &&& after.forwarded == v.forwarded
            &&& after.closed == v.closed.add(to_close.to_multiset())
        }),
{
    let none = Seq::<i32>::empty();
    lemma_empty_bag(none);
    assert(v.closed.add(none.to_multiset()) =~= v.closed) by {
        broadcast use vstd::multiset::group_multiset_axioms;

    }
    if v.next_out(side) is Some && v.phase is Draining && v.lane(side.other()).queue.len() == 1 {
        let popped = v.popped(side);
        lemma_held_nothing(popped);
        assert(popped.closed.add(popped.held().to_multiset()) =~= v.closed) by {
            broadcast use vstd::multiset::group_multiset_axioms;

        }
    }
}

/// No descriptor is lost and none is counted twice.
///
/// In every state a session can reach, the descriptors that were fed to it
/// are, each as often as it came, those it still holds, those that left with
/// a frame and those it handed back for closing. A closed session holds none:
/// every descriptor that ever came in was forwarded or closed, exactly once.
pub proof fn lemma_fd_conservation(v: SessionView)
    requires
        v.well_formed(),
    ensures
        v.received == v.forwarded.add(v.closed).add(v.held().to_multiset()),
        v.phase is Closed ==> v.held().len() == 0 && v.received == v.forwarded.add(v.closed),
{
    if v.phase is Closed {
        lemma_held_nothing(v);
        assert(v.received =~= v.forwarded.add(v.closed)) by {
            broadcast use vstd::multiset::group_multiset_axioms;

        }
    }
}

} // verus!
