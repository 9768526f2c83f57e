//! The relay of one session: the executable state machine.
//!
//! The caller owns the two sockets. It feeds the session what it read, asks
//! for the frames to write, and reports a socket that gave out. The session
//! answers every step with the descriptors that the caller has to close.

use vstd::prelude::*;
use vstd::multiset::Multiset;
use crate::codec::{frame_bytes, DecodeError, WireCodec};
use crate::descriptors::{lemma_empty_bag, settle, without};
use crate::hook::{rule_of, view_messages, Action, InterceptionHook};
use crate::message::{ArgKind, Message, MessageView, Side};
use crate::registry::{ObjectRecord, ObjectRegistry};
use crate::wire::{copy_of, extend_from};
use crate::state::{
    fds_of, idle_lane, kind_of, lemma_delivered_well_formed, lemma_fds_of_concat,
    lemma_fds_of_one, lemma_fed_well_formed, lemma_fresh_well_formed, lemma_held_nothing,
    lemma_hooked_push,
    lemma_lost_well_formed, lemma_popped_balanced, lemma_pull_consumes,
    lemma_pulled_well_formed,
    lemma_sent_well_formed,
    lemma_shut_well_formed, lemma_timed_out_well_formed, lemma_transparent, observe_all,
    ErrorKind, LaneView, Phase, Pull, SessionError, SessionView,
};

verus! {

/// What [`Session::pull`] gave.
pub enum Pulled {
    /// No whole frame waits, the queue is full, or the session does not run.
    Nothing,
    /// The next message of the lane. Its descriptors are in flight.
    Message(Message),
    /// The stream was broken and the session is closed; the descriptors are to be closed.
    Failed(Vec<i32>),
}

impl View for Pulled {
    type V = Pull;

    open spec fn view(&self) -> Pull {
        match *self {
            Pulled::Nothing => Pull::Nothing,
            Pulled::Message(m) => Pull::Message(m@),
            Pulled::Failed(fds) => Pull::Failed(fds@),
        }
    }
}

/// What a session is set up with and no step changes.
#[verifier::ext_equal]
pub struct Setup {
    /// The codec of the requests, which the client sends.
    pub requests: WireCodec,
    /// The codec of the events, which the server sends.
    pub events: WireCodec,
    /// How many decoded messages may wait for one side before decoding for it stops.
    pub capacity: int,
    /// The destroying messages, each as the side that sends it and its opcode.
    pub destructors: Set<(Side, u16)>,
}

impl Setup {
    /// The codec of the traffic that `from` sends.
    pub open spec fn codec(self, from: Side) -> WireCodec {
        match from {
            Side::Client => self.requests,
            Side::Server => self.events,
        }
    }
}

/// The account of every descriptor that came in, went out or was closed.
struct Ledger {
    received: Multiset<i32>,
    forwarded: Multiset<i32>,
    closed: Multiset<i32>,
}

/// One direction of a session.
struct Lane {
    codec: WireCodec,
    bytes: Vec<u8>,
    fds: Vec<i32>,
    queue: Vec<Message>,
}

impl View for Lane {
    type V = LaneView;

    closed spec fn view(&self) -> LaneView {
        LaneView { bytes: self.bytes@, fds: self.fds@, queue: view_messages(self.queue@) }
    }
}

/// Whether two runs of descriptors are the same.
fn same_fds(a: &Vec<i32>, b: &Vec<i32>) -> (r: bool)
    ensures
        r == (a@ == b@),
{
    if a.len() != b.len() {
        return false;
    }
    let mut i: usize = 0;
    while i < a.len()
        invariant
            i <= a.len(),
            a.len() == b.len(),
            a@.take(i as int) == b@.take(i as int),
        decreases a.len() - i,
    {
        if a[i] != b[i] {
            return false;
        }
        assert(a@.take(i as int + 1) =~= a@.take(i as int).push(a@[i as int]));
        assert(b@.take(i as int + 1) =~= b@.take(i as int).push(b@[i as int]));
        i = i + 1;
    }
    assert(a@.take(i as int) =~= a@);
    assert(b@.take(i as int) =~= b@);
    true
}

/// The descriptors of a run of messages, in order.
fn collect_fds(messages: &Vec<Message>, out: &mut Vec<i32>)
    ensures
        final(out)@ == old(out)@ + fds_of(view_messages(messages@)),
{
    let ghost all = view_messages(messages@);
    let mut i: usize = 0;
    assert(fds_of(all.take(0)) =~= Seq::<i32>::empty());
    assert(out@ =~= old(out)@ + fds_of(all.take(0)));
    while i < messages.len()
        invariant
            i <= messages.len(),
            all == view_messages(messages@),
            out@ == old(out)@ + fds_of(all.take(i as int)),
        decreases messages.len() - i,
    {
        let mut fds = messages[i].fds();
        proof {
            lemma_fds_of_concat(all.take(i as int), seq![all[i as int]]);
            lemma_fds_of_one(all[i as int]);
            assert(all.take(i as int + 1) =~= all.take(i as int) + seq![all[i as int]]);
        }
        out.append(&mut fds);
        assert(out@ =~= old(out)@ + fds_of(all.take(i as int + 1)));
        i = i + 1;
    }
    assert(all.take(i as int) =~= all);
}

impl Lane {
    fn new(codec: WireCodec) -> (r: Lane)
        ensures
            r@ == idle_lane(),
            r.codec == codec,
    {
        let r = Lane { codec, bytes: Vec::new(), fds: Vec::new(), queue: Vec::new() };
        assert(r@ =~= idle_lane());
        r
    }

    /// Keeps what was read.
    fn take_in(&mut self, bytes: &[u8], fds: &[i32])
        ensures
            final(self)@ == (LaneView {
                bytes: old(self)@.bytes + bytes@,
                fds: old(self)@.fds + fds@,
                queue: old(self)@.queue,
            }),
            final(self).codec == old(self).codec,
    {
        extend_from(&mut self.bytes, bytes);
        extend_from(&mut self.fds, fds);
    }

    /// Decodes the message at the front and drops its frame and its descriptors.
    fn decode_next(&mut self) -> (r: Result<Option<(Message, Vec<i32>)>, DecodeError>)
        ensures
            final(self).codec == old(self).codec,
            match old(self).codec.spec_decode(old(self)@.bytes, old(self)@.fds) {
                Ok((m, n)) => {
                    &&& r matches Ok(Some((message, fds)))
                    &&& message@ == m
                    &&& fds@ == m.fds()
                    &&& 8 <= n <= old(self)@.bytes.len()
                    &&& final(self)@ == (LaneView {
                        bytes: old(self)@.bytes.skip(n),
                        fds: old(self)@.fds.skip(m.fds().len() as int),
                        queue: old(self)@.queue,
                    })
                },
                Err(DecodeError::Incomplete) => r matches Ok(None) && final(self)@ == old(self)@,
                Err(e) => r matches Err(x) && x == e && final(self)@ == old(self)@,
            },
    {
        let decoded = self.codec.decode(self.bytes.as_slice(), self.fds.as_slice());
        match decoded {
            Err(DecodeError::Incomplete) => Ok(None),
            Err(e) => Err(e),
            Ok((message, n)) => {
                let fds = message.fds();
                let rest = self.bytes.split_off(n);
                self.bytes = rest;
                let rest_fds = self.fds.split_off(fds.len());
                self.fds = rest_fds;
                assert(self@ =~= (LaneView {
                    bytes: old(self)@.bytes.skip(n as int),
                    fds: old(self)@.fds.skip(fds@.len() as int),
                    queue: old(self)@.queue,
                }));
                Ok(Some((message, fds)))
            },
        }
    }

    /// Hands every descriptor of the lane to `out` and empties the lane.
    fn release(&mut self, out: &mut Vec<i32>)
        ensures
            final(out)@ == old(out)@ + old(self)@.fds + fds_of(old(self)@.queue),
            final(self)@ == idle_lane(),
            final(self).codec == old(self).codec,
    {
        out.append(&mut self.fds);
        collect_fds(&self.queue, out);
        self.queue.clear();
        self.bytes.clear();
        assert(self@ =~= idle_lane());
    }

    /// Queues `messages` behind those that wait.
    fn enqueue(&mut self, messages: Vec<Message>)
        ensures
            final(self)@ == (LaneView {
                queue: old(self)@.queue + view_messages(messages@),
                ..old(self)@
            }),
            final(self).codec == old(self).codec,
    {
        let ghost added = view_messages(messages@);
        let mut messages = messages;
        self.queue.append(&mut messages);
        assert(view_messages(self.queue@) =~= old(self)@.queue + added);
    }
}

/// One session: a client, the compositor it talks to, and what passes between them.
pub struct Session {
    phase: Phase,
    client_open: bool,
    server_open: bool,
    failure: Option<SessionError>,
    registry: ObjectRegistry,
    requests: Lane,
    events: Lane,
    in_flight: Vec<i32>,
    capacity: usize,
    ledger: Ghost<Ledger>,
}

impl View for Session {
    type V = SessionView;

    closed spec fn view(&self) -> SessionView {
        SessionView {
            phase: self.phase,
            client_open: self.client_open,
            server_open: self.server_open,
            failure: self.failure,
            records: self.registry@,
            from_client: self.requests@,
            from_server: self.events@,
            in_flight: self.in_flight@,
            received: self.ledger@.received,
            forwarded: self.ledger@.forwarded,
            closed: self.ledger@.closed,
        }
    }
}

impl Session {
    /// What the session was set up with.
    pub closed spec fn setup(&self) -> Setup {
        Setup {
            requests: self.requests.codec,
            events: self.events.codec,
            capacity: self.capacity as int,
            destructors: self.registry.destructors(),
        }
    }

    /// What holds of a session between any two steps.
    pub open spec fn wf(&self) -> bool {
        self@.well_formed()
    }

    /// A session on two open sockets.
    ///
    /// Frames of up to `frame_limit` bytes are decoded. Decoding for a side
    /// stops while `capacity` messages wait to be written to it.
    pub fn new(capacity: usize, frame_limit: u16) -> (r: Session)
        ensures
            r.wf(),
            r@ == SessionView::fresh(crate::registry::initial_records()),
            r.setup().capacity == capacity,
            r.setup().destructors == Set::<(Side, u16)>::empty(),
            r.setup().requests.limit() == frame_limit,
            r.setup().events.limit() == frame_limit,
            forall|opcode: u16| r.setup().requests.shape(opcode) is None,
            forall|opcode: u16| r.setup().events.shape(opcode) is None,
    {
        let r = Session {
            phase: Phase::Handshaking,
            client_open: true,
            server_open: true,
            failure: None,
            registry: ObjectRegistry::new(),
            requests: Lane::new(WireCodec::new(frame_limit)),
            events: Lane::new(WireCodec::new(frame_limit)),
            in_flight: Vec::new(),
            capacity,
            ledger: Ghost(
                Ledger {
                    received: Multiset::empty(),
                    forwarded: Multiset::empty(),
                    closed: Multiset::empty(),
                },
            ),
        };
        proof {
            lemma_fresh_well_formed(crate::registry::initial_records());
            assert(r@ =~= SessionView::fresh(crate::registry::initial_records()));
        }
        r
    }

    /// Declares the messages of `side` with `opcode`: the kinds of their
    /// arguments, and whether they destroy the object they are sent on.
    ///
    /// A message that was not declared passes as plain words and takes every
    /// waiting descriptor along. So where one message with descriptors is
    /// declared, the messages that may come before it in one read have to be
    /// declared too, or they take its descriptors.
    pub fn declare(&mut self, side: Side, opcode: u16, kinds: Vec<ArgKind>, destroys: bool)
        requires
            old(self).wf(),
        ensures
            final(self).wf(),
            final(self)@ == old(self)@,
            final(self).setup().capacity == old(self).setup().capacity,
            final(self).setup().codec(side.other()) == old(self).setup().codec(side.other()),
            final(self).setup().codec(side).limit() == old(self).setup().codec(side).limit(),
            final(self).setup().codec(side).shape(opcode) == Some(kinds@),
            forall|other: u16|
                other != opcode ==> final(self).setup().codec(side).shape(other) == old(
                    self,
                ).setup().codec(side).shape(other),
            final(self).setup().destructors == if destroys {
                old(self).setup().destructors.insert((side, opcode))
            } else {
                old(self).setup().destructors
            },
    {
        match side {
            Side::Client => self.requests.codec.declare(opcode, kinds),
            Side::Server => self.events.codec.declare(opcode, kinds),
        }
        if destroys {
            self.registry.declare_destructor(side, opcode);
        }
        assert(self@ =~= old(self)@);
    }

    /// Where the session stands.
    pub fn phase(&self) -> (r: Phase)
        ensures
            r == self@.phase,
    {
        self.phase
    }

    /// Whether the socket of `side` is still to be used. One that is not is to be closed.
    pub fn is_open(&self, side: Side) -> (r: bool)
        ensures
            r == self@.open(side),
    {
        match side {
            Side::Client => self.client_open,
            Side::Server => self.server_open,
        }
    }

    /// Why the session failed, if it did: the side whose traffic failed, and how.
    pub fn failure(&self) -> (r: Option<SessionError>)
        ensures
            r == self@.failure,
    {
        self.failure
    }

    /// Whether `id` names a live object.
    pub fn is_live(&self, id: u32) -> (r: bool)
        ensures
            r == crate::registry::is_live(self@.records, id),
    {
        self.registry.is_live(id)
    }

    /// What the session knows of `id`: nothing, a live object or a destroyed one.
    pub fn record(&self, id: u32) -> (r: Option<ObjectRecord>)
        requires
            self.wf(),
        ensures
            r == (if self@.records.contains_key(id) {
                Some(self@.records[id])
            } else {
                None
            }),
            r matches Some(record) ==> record.id == id,
    {
        self.registry.record(id)
    }

    /// How many messages wait to be written to `to`.
    pub fn queued(&self, to: Side) -> (r: usize)
        ensures
            r == self@.lane(to.other()).queue.len(),
    {
        match to {
            Side::Client => self.events.queue.len(),
            Side::Server => self.requests.queue.len(),
        }
    }

    /// The descriptors the session holds, in the order in which closing hands them back.
    pub fn held_descriptors(&self) -> (r: Vec<i32>)
        ensures
            r@ == self@.held(),
    {
        let mut out: Vec<i32> = Vec::new();
        extend_from(&mut out, self.in_flight.as_slice());
        extend_from(&mut out, self.requests.fds.as_slice());
        collect_fds(&self.requests.queue, &mut out);
        extend_from(&mut out, self.events.fds.as_slice());
        collect_fds(&self.events.queue, &mut out);
        assert(out@ =~= self@.held());
        out
    }

    /// Whether the caller should read from `from`: the session runs and the
    /// queue for the other side has room.
    pub fn wants_read(&self, from: Side) -> (r: bool)
        ensures
            r == (self@.running() && self@.lane(from).queue.len() < self.setup().capacity),
    {
        self.is_running() && self.queued(from.opposite()) < self.capacity
    }

    fn is_running(&self) -> (r: bool)
        ensures
            r == self@.running(),
    {
        match self.phase {
            Phase::Handshaking => true,
            Phase::Active => true,
            _ => false,
        }
    }

    /// Hands back every descriptor the session holds and empties the lanes.
    fn release_all(&mut self) -> (out: Vec<i32>)
        ensures
            out@ == old(self)@.held(),
            final(self)@ == (SessionView {
                from_client: idle_lane(),
                from_server: idle_lane(),
                in_flight: Seq::empty(),
                ..old(self)@
            }),
            final(self).setup() == old(self).setup(),
    {
        let mut out: Vec<i32> = Vec::new();
        out.append(&mut self.in_flight);
        self.requests.release(&mut out);
        self.events.release(&mut out);
        assert(out@ =~= old(self)@.held());
        assert(self@ =~= (SessionView {
            from_client: idle_lane(),
            from_server: idle_lane(),
            in_flight: Seq::empty(),
            ..old(self)@
        }));
        out
    }

    /// Closes the session.
    fn shut(&mut self, failure: Option<SessionError>) -> (out: Vec<i32>)
        requires
            old(self)@.balanced(),
        ensures
            out@ == old(self)@.held(),
            final(self)@ == old(self)@.shut(failure),
            final(self).setup() == old(self).setup(),
            final(self).wf(),
    {
        let out = self.release_all();
        self.registry.clear();
        self.phase = Phase::Closed;
        self.client_open = false;
        self.server_open = false;
        self.failure = failure;
        let ghost before = self.ledger@;
        self.ledger = Ghost(
            Ledger {
                received: before.received,
                forwarded: before.forwarded,
                closed: before.closed.add(out@.to_multiset()),
            },
        );
        proof {
            lemma_shut_well_formed(old(self)@, failure);
            assert(self@ =~= old(self)@.shut(failure));
            assert(self.setup() =~= old(self).setup());
        }
        out
    }

    /// Takes in what was read from `from`.
    ///
    /// A running session keeps the bytes and the descriptors until they are
    /// decoded. A session that no longer reads drops the bytes and hands the
    /// descriptors back for closing.
    pub fn feed(&mut self, from: Side, bytes: &[u8], fds: &[i32]) -> (to_close: Vec<i32>)
        requires
            old(self).wf(),
        ensures
            final(self).wf(),
            final(self).setup() == old(self).setup(),
            final(self)@ == old(self)@.fed(from, bytes@, fds@).0,
            to_close@ == old(self)@.fed(from, bytes@, fds@).1,
    {
        let ghost before = self.ledger@;
        let mut to_close: Vec<i32> = Vec::new();
        if self.is_running() {
            match from {
                Side::Client => self.requests.take_in(bytes, fds),
                Side::Server => self.events.take_in(bytes, fds),
            }
            self.phase = Phase::Active;
            self.ledger = Ghost(
                Ledger {
                    received: before.received.add(fds@.to_multiset()),
                    forwarded: before.forwarded,
                    closed: before.closed,
                },
            );
        } else {
            to_close = copy_of(fds);
            self.ledger = Ghost(
                Ledger {
                    received: before.received.add(fds@.to_multiset()),
                    forwarded: before.forwarded,
                    closed: before.closed.add(fds@.to_multiset()),
                },
            );
        }
        proof {
            lemma_fed_well_formed(old(self)@, from, bytes@, fds@);
            assert(self@ =~= old(self)@.fed(from, bytes@, fds@).0);
            assert(self.setup() =~= old(self).setup());
        }
        to_close
    }

    /// Decodes the next message that `from` sent.
    ///
    /// The message leaves the lane with its descriptors, which are in flight
    /// until [`Session::deliver`] or [`Session::forward`] settles them. A
    /// broken frame closes the session.
    pub fn pull(&mut self, from: Side) -> (r: Pulled)
        requires
            old(self).wf(),
        ensures
            final(self).wf(),
            final(self).setup() == old(self).setup(),
            final(self)@ == old(self)@.pulled(
                from,
                old(self).setup().codec(from),
                old(self).setup().capacity,
            ).0,
            r@ == old(self)@.pulled(
                from,
                old(self).setup().codec(from),
                old(self).setup().capacity,
            ).1,
    {
        proof {
            lemma_pulled_well_formed(
                old(self)@,
                from,
                old(self).setup().codec(from),
                old(self).setup().capacity,
            );
        }
        if !self.is_running() || self.queued(from.opposite()) >= self.capacity {
            return Pulled::Nothing;
        }
        let step = match from {
            Side::Client => self.requests.decode_next(),
            Side::Server => self.events.decode_next(),
        };
        match step {
            Ok(None) => {
                assert(self@ =~= old(self)@);
                assert(self.setup() =~= old(self).setup());
                Pulled::Nothing
            },
            Err(e) => {
                let kind = match e {
                    DecodeError::MalformedHeader => ErrorKind::MalformedHeader,
                    DecodeError::MissingDescriptor => ErrorKind::FdTransferFailure,
                    _ => ErrorKind::MalformedPayload,
                };
                assert(self@ =~= old(self)@);
                Pulled::Failed(self.shut(Some(SessionError { from, kind })))
            },
            Ok(Some((message, fds))) => {
                let mut fds = fds;
                self.in_flight.append(&mut fds);
                proof {
                    assert(self@ =~= old(self)@.pulled(
                        from,
                        old(self).setup().codec(from),
                        old(self).setup().capacity,
                    ).0);
                    assert(self.setup() =~= old(self).setup());
                }
                Pulled::Message(message)
            },
        }
    }

    /// Does with the messages in flight what `action` says.
    ///
    /// The messages of the action are queued for the side opposite to `from`,
    /// the identifier table follows each of them, and the descriptors in
    /// flight that none of them carries are handed back for closing. The
    /// session is closed when the action carries a descriptor that is not in
    /// flight, or one twice, and when the identifier table refuses a message.
    pub fn deliver(&mut self, from: Side, action: Action) -> (to_close: Vec<i32>)
        requires
            old(self).wf(),
        ensures
            final(self).wf(),
            final(self).setup() == old(self).setup(),
            final(self)@ == old(self)@.delivered(
                from,
                action.outcome(),
                old(self).setup().destructors,
            ).0,
            to_close@ == old(self)@.delivered(
                from,
                action.outcome(),
                old(self).setup().destructors,
            ).1,
    {
        let outputs = action.into_messages();
        self.deliver_messages(from, outputs)
    }

    fn deliver_messages(&mut self, from: Side, outputs: Vec<Message>) -> (to_close: Vec<i32>)
        requires
            old(self).wf(),
        ensures
            final(self).wf(),
            final(self).setup() == old(self).setup(),
            final(self)@ == old(self)@.delivered(
                from,
                view_messages(outputs@),
                old(self).setup().destructors,
            ).0,
            to_close@ == old(self)@.delivered(
                from,
                view_messages(outputs@),
                old(self).setup().destructors,
            ).1,
    {
        let ghost outs = view_messages(outputs@);
        let ghost destructors = self.setup().destructors;
        proof {
            lemma_delivered_well_formed(old(self)@, from, outs, destructors);
        }
        if !self.is_running() {
            return Vec::new();
        }
        let mut claimed: Vec<i32> = Vec::new();
        collect_fds(&outputs, &mut claimed);
        assert(claimed@ =~= fds_of(outs));
        match settle(&self.in_flight, &claimed) {
            None => self.shut(Some(SessionError { from, kind: ErrorKind::FdTransferFailure })),
            Some(unclaimed) => {
                let ghost start = self.registry@;
                let mut i: usize = 0;
                assert(outs.skip(0) =~= outs);
                while i < outputs.len()
                    invariant
                        i <= outputs.len(),
                        outs == view_messages(outputs@),
                        destructors == self.registry.destructors(),
                        self.setup() == old(self).setup(),
                        self@ == (SessionView { records: self.registry@, ..old(self)@ }),
                        self.registry.wf(),
                        old(self)@.balanced(),
                        old(self)@.running(),
                        start == old(self)@.records,
                        destructors == old(self).setup().destructors,
                        without(old(self)@.in_flight, fds_of(outs)) == Some(unclaimed@),
                        observe_all(start, from, outs, destructors) == observe_all(
                            self.registry@,
                            from,
                            outs.skip(i as int),
                            destructors,
                        ),
                    decreases outputs.len() - i,
                {
                    assert(outs.skip(i as int)[0] == outputs@[i as int]@);
                    assert(outs.skip(i as int).drop_first() =~= outs.skip(i as int + 1));
                    let ghost before = self@;
                    match self.registry.on_message_observed(from, &outputs[i]) {
                        Err(v) => {
                            assert(self@ =~= before);
                            let out = self.shut(
                                Some(SessionError { from, kind: ErrorKind::ProtocolViolation(v) }),
                            );
                            assert(self@ =~= old(self)@.shut(
                                Some(SessionError { from, kind: ErrorKind::ProtocolViolation(v) }),
                            ));
                            return out;
                        },
                        Ok(()) => {},
                    }
                    assert(self@ =~= (SessionView { records: self.registry@, ..old(self)@ }));
                    assert(self.setup() =~= old(self).setup());
                    i = i + 1;
                }
                assert(outs.skip(i as int) =~= Seq::<MessageView>::empty());
                match from {
                    Side::Client => self.requests.enqueue(outputs),
                    Side::Server => self.events.enqueue(outputs),
                }
                self.in_flight.clear();
                self.phase = Phase::Active;
                let ghost before = self.ledger@;
                self.ledger = Ghost(
                    Ledger {
                        received: before.received,
                        forwarded: before.forwarded,
                        closed: before.closed.add(unclaimed@.to_multiset()),
                    },
                );
                proof {
                    assert(self@ =~= old(self)@.delivered(from, outs, destructors).0);
                    assert(self.setup() =~= old(self).setup());
                }
                unclaimed
            },
        }
    }

    /// Sends a pulled message on as it came, without asking a hook.
    ///
    /// This is [`Session::deliver`] of the message itself. When the
    /// descriptors in flight are those of the message, as they are after one
    /// pull, nothing is closed.
    pub fn forward(&mut self, from: Side, message: Message) -> (to_close: Vec<i32>)
        requires
            old(self).wf(),
        ensures
            final(self).wf(),
            final(self).setup() == old(self).setup(),
            final(self)@ == old(self)@.delivered(
                from,
                seq![message@],
                old(self).setup().destructors,
            ).0,
            to_close@ == old(self)@.delivered(
                from,
                seq![message@],
                old(self).setup().destructors,
            ).1,
            old(self)@.in_flight == message@.fds() ==> final(self)@ == old(self)@.relayed(
                from,
                message@,
                old(self).setup().destructors,
            ).0 && to_close@ == old(self)@.relayed(
                from,
                message@,
                old(self).setup().destructors,
            ).1,
    {
        let ghost destructors = self.setup().destructors;
        proof {
            lemma_delivered_well_formed(old(self)@, from, seq![message@], destructors);
            if self@.in_flight == message@.fds() {
                lemma_transparent(self@, from, message@, destructors);
            }
        }
        if !self.is_running() {
            return Vec::new();
        }
        let fds = message.fds();
        if same_fds(&fds, &self.in_flight) {
            match self.registry.on_message_observed(from, &message) {
                Err(v) => {
                    assert(self@ =~= old(self)@);
                    self.shut(Some(SessionError { from, kind: ErrorKind::ProtocolViolation(v) }))
                },
                Ok(()) => {
                    let mut one: Vec<Message> = Vec::new();
                    one.push(message);
                    assert(view_messages(one@) =~= seq![message@]);
                    match from {
                        Side::Client => self.requests.enqueue(one),
                        Side::Server => self.events.enqueue(one),
                    }
                    self.in_flight.clear();
                    self.phase = Phase::Active;
                    proof {
                        let lane = old(self)@.lane(from);
                        assert(lane.queue + seq![message@] =~= lane.queue.push(message@));
                        assert(self@ =~= old(self)@.relayed(from, message@, destructors).0);
                        assert(self.setup() =~= old(self).setup());
                    }
                    Vec::new()
                },
            }
        } else {
            let mut one: Vec<Message> = Vec::new();
            one.push(message);
            assert(view_messages(one@) =~= seq![message@]);
            self.deliver_messages(from, one)
        }
    }

    /// Decodes what waits from `from` and lets `hook` decide on every message.
    ///
    /// Every message that waits is pulled, shown to the hook, and what the
    /// hook answers is delivered, until no whole frame waits, the queue for
    /// the other side is full, or the session is closed. Nothing but the
    /// hook's answers decides what becomes of the messages: the session ends
    /// in the state that [`SessionView::pumped`] gives for them. Where no
    /// message can be pulled the hook is not asked.
    pub fn pump<H: InterceptionHook>(&mut self, from: Side, hook: &mut H) -> (to_close: Vec<i32>)
        requires
            old(self).wf(),
        ensures
            final(self).wf(),
            final(self).setup() == old(self).setup(),
            forall|f: Side, m: MessageView, o: Seq<MessageView>|
                #[trigger] final(hook).may_answer(f, m, o) == old(hook).may_answer(f, m, o),
            exists|answers: Seq<Seq<MessageView>>|
                #[trigger] old(self)@.pumps_to(
                    rule_of(*old(hook)),
                    from,
                    old(self).setup().codec(from),
                    old(self).setup().capacity,
                    old(self).setup().destructors,
                    answers,
                    final(self)@,
                    to_close@,
                ),
            old(self)@.pulled(
                from,
                old(self).setup().codec(from),
                old(self).setup().capacity,
            ).1 is Nothing ==> final(self)@ == old(self)@ && to_close@.len() == 0 && *final(hook)
                == *old(hook),
            old(self)@.pulled(
                from,
                old(self).setup().codec(from),
                old(self).setup().capacity,
            ).1 matches Pull::Failed(fds) ==> final(self)@ == old(self)@.pulled(
                from,
                old(self).setup().codec(from),
                old(self).setup().capacity,
            ).0 && to_close@ == fds && *final(hook) == *old(hook),
            final(self)@.received == old(self)@.received,
            final(self)@.forwarded == old(self)@.forwarded,
            final(self)@.closed == old(self)@.closed.add(to_close@.to_multiset()),
            final(self)@.pulled(from, final(self).setup().codec(from), final(self).setup().capacity)
                == (final(self)@, Pull::Nothing),
    {
        let ghost codec = self.setup().codec(from);
        let ghost capacity = self.setup().capacity;
        let ghost destructors = self.setup().destructors;
        let ghost rule = rule_of(*hook);
        let ghost mut answers: Seq<Seq<MessageView>> = Seq::empty();
        let mut to_close: Vec<i32> = Vec::new();
        let mut more = true;
        proof {
            lemma_empty_bag(to_close@);
            assert(self@.closed =~= old(self)@.closed.add(to_close@.to_multiset())) by {
                broadcast use vstd::multiset::group_multiset_axioms;

            }
        }
        while more
            invariant
                self.wf(),
                self.setup() == old(self).setup(),
                codec == self.setup().codec(from),
                capacity == self.setup().capacity,
                destructors == self.setup().destructors,
                rule == rule_of(*old(hook)),
                forall|f: Side, m: MessageView, o: Seq<MessageView>|
                    #[trigger] hook.may_answer(f, m, o) == old(hook).may_answer(f, m, o),
                answers.len() == 0 ==> *hook == *old(hook),
                answers.len() > 0 ==> old(self)@.pulled(from, codec, capacity).1 is Message,
                old(self)@.answered(rule, from, codec, capacity, destructors, answers),
                more ==> old(self)@.hooked(from, codec, capacity, destructors, answers) == (
                    self@,
                    to_close@,
                ),
                !more ==> old(self)@.pumps_to(
                    rule,
                    from,
                    codec,
                    capacity,
                    destructors,
                    answers,
                    self@,
                    to_close@,
                ),
                self@.received == old(self)@.received,
                self@.forwarded == old(self)@.forwarded,
                self@.closed == old(self)@.closed.add(to_close@.to_multiset()),
                !more ==> self@.pulled(from, codec, capacity) == (self@, Pull::Nothing),
            decreases self@.lane(from).bytes.len(), if more { 1int } else { 0int },
        {
            let ghost before = self@;
            let ghost closed_before = to_close@;
            match self.pull(from) {
                Pulled::Nothing => {
                    more = false;
                },
                Pulled::Failed(fds) => {
                    let mut fds = fds;
                    to_close.append(&mut fds);
                    more = false;
                    proof {
                        lemma_closed_grows(old(self)@.closed, closed_before, before.held());
                    }
                },
                Pulled::Message(message) => {
                    let ghost pulled = self@;
                    let action = hook.inspect(from, message);
                    let mut fds = self.deliver(from, action);
                    proof {
                        lemma_hooked_push(
                            old(self)@,
                            rule,
                            from,
                            codec,
                            capacity,
                            destructors,
                            answers,
                            action.outcome(),
                        );
                        answers = answers.push(action.outcome());
                        lemma_pull_consumes(
                            before,
                            from,
                            codec,
                            capacity,
                            action.outcome(),
                            destructors,
                        );
                        lemma_delivered_closes(pulled, from, action.outcome(), destructors);
                        lemma_closed_grows(old(self)@.closed, closed_before, fds@);
                    }
                    to_close.append(&mut fds);
                },
            }
        }
        to_close
    }

    /// Decodes what waits from `from` and sends every message on as it came.
    ///
    /// This is the relay with no hook. [`Session::pump`] with a hook that
    /// hands every message back ends in the same state.
    pub fn pump_plain(&mut self, from: Side) -> (to_close: Vec<i32>)
        requires
            old(self).wf(),
        ensures
            final(self).wf(),
            final(self).setup() == old(self).setup(),
            final(self)@ == old(self)@.relayed_all(
                from,
                old(self).setup().codec(from),
                old(self).setup().capacity,
                old(self).setup().destructors,
            ).0,
            to_close@ == old(self)@.relayed_all(
                from,
                old(self).setup().codec(from),
                old(self).setup().capacity,
                old(self).setup().destructors,
            ).1,
    {
        let ghost codec = self.setup().codec(from);
        let ghost capacity = self.setup().capacity;
        let ghost destructors = self.setup().destructors;
        let ghost goal = self@.relayed_all(from, codec, capacity, destructors);
        let mut to_close: Vec<i32> = Vec::new();
        let mut more = true;
        assert(to_close@ + goal.1 =~= goal.1);
        while more
            invariant
                self.wf(),
                self.setup() == old(self).setup(),
                codec == self.setup().codec(from),
                capacity == self.setup().capacity,
                destructors == self.setup().destructors,
                more ==> goal.0 == self@.relayed_all(from, codec, capacity, destructors).0,
                more ==> goal.1 == to_close@ + self@.relayed_all(
                    from,
                    codec,
                    capacity,
                    destructors,
                ).1,
                !more ==> goal.0 == self@ && goal.1 == to_close@,
            decreases self@.lane(from).bytes.len(), if more { 1int } else { 0int },
        {
            let ghost before = self@;
            let ghost closed_before = to_close@;
            match self.pull(from) {
                Pulled::Nothing => {
                    more = false;
                    assert(closed_before + Seq::<i32>::empty() =~= closed_before);
                },
                Pulled::Failed(fds) => {
                    let mut fds = fds;
                    to_close.append(&mut fds);
                    more = false;
                },
                Pulled::Message(message) => {
                    let ghost pulled = self@;
                    let mut fds = self.forward(from, message);
                    proof {
                        lemma_pull_consumes(
                            before,
                            from,
                            codec,
                            capacity,
                            seq![message@],
                            destructors,
                        );
                        let rest = self@.relayed_all(from, codec, capacity, destructors).1;
                        assert(closed_before + (fds@ + rest) =~= (closed_before + fds@) + rest);
                    }
                    to_close.append(&mut fds);
                },
            }
        }
        to_close
    }

    /// The frame to write to `to` next, with the descriptors that go with it.
    ///
    /// Nothing changes: the frame stays first in the queue until
    /// [`Session::frame_sent`] says that it was written.
    pub fn next_frame(&self, to: Side) -> (r: Option<(Vec<u8>, Vec<i32>)>)
        ensures
            match self@.next_out(to) {
                Some(m) => r matches Some((bytes, fds)) && bytes@ == frame_bytes(m) && fds@
                    == m.fds(),
                None => r is None,
            },
    {
        if !self.is_open(to) {
            return None;
        }
        let lane = match to {
            Side::Client => &self.events,
            Side::Server => &self.requests,
        };
        if lane.queue.len() == 0 {
            None
        } else {
            Some(WireCodec::encode(&lane.queue[0]))
        }
    }

    /// Records that the frame of [`Session::next_frame`] was written to `to`.
    ///
    /// The message leaves the queue and its descriptors count as forwarded. A
    /// draining session that has written its last message is closed.
    pub fn frame_sent(&mut self, to: Side)
        requires
            old(self).wf(),
        ensures
            final(self).wf(),
            final(self).setup() == old(self).setup(),
            final(self)@ == old(self)@.sent(to),
    {
        proof {
            lemma_sent_well_formed(old(self)@, to);
        }
        if !self.is_open(to) || self.queued(to) == 0 {
            return ;
        }
        let message = match to {
            Side::Client => self.events.queue.remove(0),
            Side::Server => self.requests.queue.remove(0),
        };
        let ghost before = self.ledger@;
        self.ledger = Ghost(
            Ledger {
                received: before.received,
                forwarded: before.forwarded.add(message@.fds().to_multiset()),
                closed: before.closed,
            },
        );
        let ghost lane = old(self)@.lane(to.other());
        proof {
            assert(match to {
                Side::Client => view_messages(self.events.queue@),
                Side::Server => view_messages(self.requests.queue@),
            } =~= lane.queue.drop_first());
            assert(self@ =~= old(self)@.popped(to));
            assert(self.setup() =~= old(self).setup());
            lemma_popped_balanced(old(self)@, to);
        }
        if self.phase == Phase::Draining && self.queued(to) == 0 {
            let _ = self.shut(None);
        }
    }

    /// Records that `from` has closed its end: no more can be read from it.
    pub fn on_eof(&mut self, from: Side) -> (to_close: Vec<i32>)
        requires
            old(self).wf(),
        ensures
            final(self).wf(),
            final(self).setup() == old(self).setup(),
            final(self)@ == old(self)@.lost(from).0,
            to_close@ == old(self)@.lost(from).1,
    {
        self.side_lost(from)
    }

    /// Records that a write to `to` failed: no more can be written to it.
    pub fn on_write_error(&mut self, to: Side) -> (to_close: Vec<i32>)
        requires
            old(self).wf(),
        ensures
            final(self).wf(),
            final(self).setup() == old(self).setup(),
            final(self)@ == old(self)@.lost(to).0,
            to_close@ == old(self)@.lost(to).1,
    {
        self.side_lost(to)
    }

    fn side_lost(&mut self, gone: Side) -> (to_close: Vec<i32>)
        requires
            old(self).wf(),
        ensures
            final(self).wf(),
            final(self).setup() == old(self).setup(),
            final(self)@ == old(self)@.lost(gone).0,
            to_close@ == old(self)@.lost(gone).1,
    {
        proof {
            lemma_lost_well_formed(old(self)@, gone);
        }
        match self.phase {
            Phase::Closed => Vec::new(),
            Phase::Draining => {
                if self.is_open(gone) {
                    self.shut(None)
                } else {
                    Vec::new()
                }
            },
            _ => {
                if self.queued(gone.opposite()) == 0 {
                    return self.shut(None);
                }
                let mut keep: Vec<Message> = Vec::new();
                match gone {
                    Side::Client => keep.append(&mut self.requests.queue),
                    Side::Server => keep.append(&mut self.events.queue),
                }
                let ghost rest = old(self)@.with_lane(
                    gone,
                    LaneView { queue: Seq::empty(), ..old(self)@.lane(gone) },
                );
                assert(self@ =~= rest);
                let out = self.release_all();
                match gone {
                    Side::Client => self.requests.enqueue(keep),
                    Side::Server => self.events.enqueue(keep),
                }
                self.phase = Phase::Draining;
                self.client_open = match gone {
                    Side::Client => false,
                    Side::Server => true,
                };
                self.server_open = match gone {
                    Side::Client => true,
                    Side::Server => false,
                };
                let ghost before = self.ledger@;
                self.ledger = Ghost(
                    Ledger {
                        received: before.received,
                        forwarded: before.forwarded,
                        closed: before.closed.add(out@.to_multiset()),
                    },
                );
                proof {
                    let keep_view = old(self)@.lane(gone).queue;
                    assert(Seq::<MessageView>::empty() + keep_view =~= keep_view);
                    assert(self@ =~= old(self)@.lost(gone).0);
                    assert(self.setup() =~= old(self).setup());
                }
                out
            },
        }
    }

    /// Records that the time allowed for draining ran out.
    pub fn on_drain_timeout(&mut self) -> (to_close: Vec<i32>)
        requires
            old(self).wf(),
        ensures
            final(self).wf(),
            final(self).setup() == old(self).setup(),
            final(self)@ == old(self)@.timed_out().0,
            to_close@ == old(self)@.timed_out().1,
    {
        proof {
            lemma_timed_out_well_formed(old(self)@);
        }
        match self.phase {
            Phase::Draining => self.shut(None),
            _ => Vec::new(),
        }
    }
}

/// Closing more descriptors adds them to those that were closed before.
proof fn lemma_closed_grows(base: Multiset<i32>, before: Seq<i32>, more: Seq<i32>)
    ensures
        base.add(before.to_multiset()).add(more.to_multiset()) == base.add(
            (before + more).to_multiset(),
        ),
{
    broadcast use vstd::seq_lib::lemma_multiset_commutative;
    broadcast use vstd::multiset::group_multiset_axioms;

    assert(base.add(before.to_multiset()).add(more.to_multiset()) =~= base.add(
        (before + more).to_multiset(),
    ));
}

/// Delivering takes nothing in, sends nothing out, and closes what it hands back.
pub proof fn lemma_delivered_closes(
    v: SessionView,
    from: Side,
    outputs: Seq<MessageView>,
    destructors: Set<(Side, u16)>,
)
    ensures
        v.delivered(from, outputs, destructors).0.received == v.received,
        v.delivered(from, outputs, destructors).0.forwarded == v.forwarded,
        v.delivered(from, outputs, destructors).0.closed == v.closed.add(
            v.delivered(from, outputs, destructors).1.to_multiset(),
        ),
        v.delivered(from, outputs, destructors).0.from_client.bytes.len()
            <= v.from_client.bytes.len(),
        v.delivered(from, outputs, destructors).0.from_server.bytes.len()
            <= v.from_server.bytes.len(),
{
    let none = Seq::<i32>::empty();
    lemma_empty_bag(none);
    assert(v.closed.add(none.to_multiset()) =~= v.closed) by {
        broadcast use vstd::multiset::group_multiset_axioms;

    }
}

} // verus!
