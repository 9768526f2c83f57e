use wlt_mitm::codec::WireCodec;
use wlt_mitm::hook::{Action, InterceptionHook, PassThrough};
use wlt_mitm::message::{Arg, ArgKind, Message, Side};
use wlt_mitm::registry::ProtocolViolation;
use wlt_mitm::relay::{Pulled, Session};
use wlt_mitm::state::{ErrorKind, Phase, SessionError};

const CREATE: u16 = 0;
const DESTROY: u16 = 1;
const ATTACH: u16 = 2;
const NOTE: u16 = 3;
const ENTER: u16 = 0;
const SHARE: u16 = 1;

/// A session that knows a handful of requests and events.
fn session(capacity: usize) -> Session {
    let mut s = Session::new(capacity, 4096);
    s.declare(Side::Client, CREATE, vec![ArgKind::NewId], false);
    s.declare(Side::Client, DESTROY, vec![], true);
    s.declare(Side::Client, ATTACH, vec![ArgKind::Fd, ArgKind::Uint, ArgKind::Fd], false);
    s.declare(Side::Client, NOTE, vec![ArgKind::Str], false);
    s.declare(Side::Server, ENTER, vec![ArgKind::Object], false);
    s.declare(Side::Server, SHARE, vec![ArgKind::Fd], false);
    s
}

fn message(sender: u32, opcode: u16, args: Vec<Arg>) -> Message {
    Message::new(sender, opcode, args).unwrap()
}

fn frame(m: &Message) -> Vec<u8> {
    WireCodec::encode(m).0
}

/// Feeds one message from `from` and pumps it through without a hook.
fn relay(s: &mut Session, from: Side, m: &Message) -> Vec<i32> {
    let (bytes, fds) = WireCodec::encode(m);
    let mut closed = s.feed(from, &bytes, &fds);
    closed.extend(s.pump_plain(from));
    closed
}

/// Writes out everything that waits for `to`: the bytes and the descriptors.
fn flush(s: &mut Session, to: Side) -> (Vec<u8>, Vec<i32>) {
    let mut bytes = Vec::new();
    let mut fds = Vec::new();
    while let Some((b, f)) = s.next_frame(to) {
        bytes.extend(b);
        fds.extend(f);
        s.frame_sent(to);
    }
    (bytes, fds)
}

struct DropAll;

impl InterceptionHook for DropAll {
    fn inspect(&mut self, _from: Side, _message: Message) -> Action {
        Action::Drop
    }
}

/// Keeps the first descriptor of every message and drops the others.
struct KeepFirstFd;

impl InterceptionHook for KeepFirstFd {
    fn inspect(&mut self, _from: Side, message: Message) -> Action {
        let mut seen = false;
        let mut args = Vec::new();
        for a in message.args() {
            match a {
                Arg::Fd(_) if seen => {}
                Arg::Fd(fd) => {
                    seen = true;
                    args.push(Arg::Fd(*fd));
                }
                other => args.push(other.clone()),
            }
        }
        Action::Forward(Message::new(message.sender_object_id(), message.opcode(), args).unwrap())
    }
}

/// Announces every message with a note of its own.
struct Announce;

impl InterceptionHook for Announce {
    fn inspect(&mut self, _from: Side, message: Message) -> Action {
        let note = Message::new(1, NOTE, vec![Arg::Str(b"next\0".to_vec())]).unwrap();
        Action::Inject(vec![note], Box::new(Action::Forward(message)))
    }
}

/// Puts a descriptor of its own into every message.
struct Smuggle(i32);

impl InterceptionHook for Smuggle {
    fn inspect(&mut self, _from: Side, _message: Message) -> Action {
        Action::Forward(Message::new(1, SHARE, vec![Arg::Fd(self.0)]).unwrap())
    }
}

/// Counts the messages it is shown and sends each on.
struct Count(usize);

impl InterceptionHook for Count {
    fn inspect(&mut self, _from: Side, message: Message) -> Action {
        self.0 += 1;
        Action::Forward(message)
    }
}

/// Sends every message twice.
struct Twice;

impl InterceptionHook for Twice {
    fn inspect(&mut self, _from: Side, message: Message) -> Action {
        Action::Inject(vec![message.clone()], Box::new(Action::Forward(message)))
    }
}

#[test]
fn a_new_session_waits_with_both_sockets_open() {
    let s = session(4);
    assert_eq!(s.phase(), Phase::Handshaking);
    assert!(s.is_open(Side::Client));
    assert!(s.is_open(Side::Server));
    assert_eq!(s.failure(), None);
    assert!(s.is_live(1));
    assert!(s.wants_read(Side::Client));
    assert!(s.wants_read(Side::Server));
    assert_eq!(s.queued(Side::Client), 0);
    assert_eq!(s.queued(Side::Server), 0);
    assert_eq!(s.next_frame(Side::Client), None);
    assert_eq!(s.held_descriptors(), Vec::<i32>::new());
}

#[test]
fn the_first_bytes_make_the_session_active() {
    let mut s = session(4);
    assert_eq!(s.feed(Side::Client, &[], &[]), Vec::<i32>::new());
    assert_eq!(s.phase(), Phase::Active);
}

#[test]
fn a_message_goes_to_the_other_side_byte_for_byte() {
    let mut s = session(4);
    let m = message(1, CREATE, vec![Arg::NewId(3)]);
    assert_eq!(relay(&mut s, Side::Client, &m), Vec::<i32>::new());
    assert_eq!(s.queued(Side::Server), 1);
    assert_eq!(s.queued(Side::Client), 0);
    assert_eq!(s.next_frame(Side::Client), None);
    assert_eq!(s.next_frame(Side::Server), Some((frame(&m), vec![])));
    // asking again changes nothing
    assert_eq!(s.next_frame(Side::Server), Some((frame(&m), vec![])));
    s.frame_sent(Side::Server);
    assert_eq!(s.next_frame(Side::Server), None);
    assert_eq!(s.phase(), Phase::Active);
}

#[test]
fn messages_keep_their_order() {
    let mut s = session(8);
    let first = message(1, CREATE, vec![Arg::NewId(3)]);
    let second = message(3, NOTE, vec![Arg::Str(b"two\0".to_vec())]);
    let third = message(3, DESTROY, vec![]);
    let mut stream = frame(&first);
    stream.extend(frame(&second));
    stream.extend(frame(&third));
    assert_eq!(s.feed(Side::Client, &stream, &[]), Vec::<i32>::new());
    assert_eq!(s.pump_plain(Side::Client), Vec::<i32>::new());
    assert_eq!(s.queued(Side::Server), 3);
    assert_eq!(flush(&mut s, Side::Server), (stream, vec![]));
}

#[test]
fn the_life_of_an_object_through_the_relay() {
    let mut s = session(8);
    // the client creates object 3
    assert!(relay(&mut s, Side::Client, &message(1, CREATE, vec![Arg::NewId(3)])).is_empty());
    assert!(s.is_live(3));
    assert_eq!(s.record(3).unwrap().created_by, Side::Client);
    // the compositor names it, and the relay sends that on
    let enter = message(1, ENTER, vec![Arg::Object(3)]);
    assert!(relay(&mut s, Side::Server, &enter).is_empty());
    assert_eq!(s.next_frame(Side::Client), Some((frame(&enter), vec![])));
    s.frame_sent(Side::Client);
    // the client destroys it
    assert!(relay(&mut s, Side::Client, &message(3, DESTROY, vec![])).is_empty());
    assert!(!s.is_live(3));
    assert_eq!(s.phase(), Phase::Active);
    // the compositor names it once more
    assert!(relay(&mut s, Side::Server, &enter).is_empty());
    assert_eq!(s.phase(), Phase::Closed);
    assert_eq!(
        s.failure(),
        Some(SessionError {
            from: Side::Server,
            kind: ErrorKind::ProtocolViolation(ProtocolViolation::DeadReference { id: 3 }),
        })
    );
    assert!(!s.is_open(Side::Client));
    assert!(!s.is_open(Side::Server));
    // nothing is written any more, not even what was decoded before
    assert_eq!(s.next_frame(Side::Server), None);
    assert_eq!(s.next_frame(Side::Client), None);
    assert!(!s.is_live(1));
}

#[test]
fn a_destroyed_object_is_dead_for_the_client_too() {
    let mut s = session(8);
    assert!(relay(&mut s, Side::Client, &message(1, CREATE, vec![Arg::NewId(3)])).is_empty());
    assert!(relay(&mut s, Side::Client, &message(3, DESTROY, vec![])).is_empty());
    assert!(relay(&mut s, Side::Client, &message(3, NOTE, vec![Arg::Str(vec![])])).is_empty());
    assert_eq!(s.phase(), Phase::Closed);
    assert_eq!(
        s.failure(),
        Some(SessionError {
            from: Side::Client,
            kind: ErrorKind::ProtocolViolation(ProtocolViolation::DeadReference { id: 3 }),
        })
    );
}

#[test]
fn draining_writes_out_what_was_decoded_and_then_closes() {
    let mut s = session(8);
    assert!(relay(&mut s, Side::Client, &message(1, CREATE, vec![Arg::NewId(3)])).is_empty());
    let first = message(1, ENTER, vec![Arg::Object(3)]);
    let second = message(3, SHARE, vec![Arg::Fd(40)]);
    let mut stream = frame(&first);
    stream.extend(frame(&second));
    // half of a third frame is on its way when the compositor goes
    stream.extend(&frame(&first)[..6]);
    assert!(s.feed(Side::Server, &stream, &[40, 41]).is_empty());
    assert!(s.pump_plain(Side::Server).is_empty());
    assert_eq!(s.queued(Side::Client), 2);
    assert_eq!(s.queued(Side::Server), 1);
    // the compositor closes its socket
    let closed = s.on_eof(Side::Server);
    assert_eq!(closed, vec![41]);
    assert_eq!(s.phase(), Phase::Draining);
    assert!(s.is_open(Side::Client));
    assert!(!s.is_open(Side::Server));
    assert!(!s.wants_read(Side::Client));
    assert!(!s.wants_read(Side::Server));
    assert_eq!(s.next_frame(Side::Server), None);
    assert_eq!(s.queued(Side::Server), 0);
    // both messages are written, and nothing else
    let mut written = Vec::new();
    let (bytes, fds) = s.next_frame(Side::Client).unwrap();
    written.extend(bytes);
    assert!(fds.is_empty());
    s.frame_sent(Side::Client);
    assert_eq!(s.phase(), Phase::Draining);
    let (bytes, fds) = s.next_frame(Side::Client).unwrap();
    written.extend(bytes);
    assert_eq!(fds, vec![40]);
    s.frame_sent(Side::Client);
    assert_eq!(s.phase(), Phase::Closed);
    assert!(!s.is_open(Side::Client));
    assert_eq!(s.failure(), None);
    assert_eq!(s.next_frame(Side::Client), None);
    let mut expected = frame(&first);
    expected.extend(frame(&second));
    assert_eq!(written, expected);
    assert!(!s.is_live(1));
}

#[test]
fn a_side_that_goes_with_nothing_to_drain_closes_the_session() {
    let mut s = session(8);
    assert!(relay(&mut s, Side::Client, &message(1, CREATE, vec![Arg::NewId(3)])).is_empty());
    // the request waits for the compositor, which is the side that goes
    assert_eq!(s.on_eof(Side::Server), Vec::<i32>::new());
    assert_eq!(s.phase(), Phase::Closed);
    assert_eq!(s.failure(), None);
    assert_eq!(s.next_frame(Side::Server), None);
}

#[test]
fn a_failed_write_drains_toward_the_other_side() {
    let mut s = session(8);
    let share = message(1, SHARE, vec![Arg::Fd(7)]);
    assert!(relay(&mut s, Side::Server, &share).is_empty());
    let attach = message(1, ATTACH, vec![Arg::Fd(8), Arg::Uint(0), Arg::Fd(9)]);
    assert!(relay(&mut s, Side::Client, &attach).is_empty());
    // writing to the client fails: what the client sent is still owed to the compositor
    assert_eq!(s.on_write_error(Side::Client), vec![7]);
    assert_eq!(s.phase(), Phase::Draining);
    assert!(s.is_open(Side::Server));
    assert!(!s.is_open(Side::Client));
    assert_eq!(s.next_frame(Side::Client), None);
    assert_eq!(flush(&mut s, Side::Server), (frame(&attach), vec![8, 9]));
    assert_eq!(s.phase(), Phase::Closed);
}

#[test]
fn a_draining_session_gives_up_when_time_runs_out() {
    let mut s = session(8);
    assert_eq!(s.on_drain_timeout(), Vec::<i32>::new());
    assert_eq!(s.phase(), Phase::Handshaking);
    let attach = message(1, ATTACH, vec![Arg::Fd(8), Arg::Uint(0), Arg::Fd(9)]);
    assert!(relay(&mut s, Side::Client, &attach).is_empty());
    assert!(relay(&mut s, Side::Client, &attach).is_empty());
    assert!(s.on_eof(Side::Client).is_empty());
    assert_eq!(s.phase(), Phase::Draining);
    s.frame_sent(Side::Server);
    assert_eq!(s.phase(), Phase::Draining);
    assert_eq!(s.on_drain_timeout(), vec![8, 9]);
    assert_eq!(s.phase(), Phase::Closed);
    assert_eq!(s.on_drain_timeout(), Vec::<i32>::new());
}

#[test]
fn a_draining_session_closes_when_the_other_side_goes_too() {
    let mut s = session(8);
    let share = message(1, SHARE, vec![Arg::Fd(7)]);
    assert!(relay(&mut s, Side::Server, &share).is_empty());
    assert!(s.on_eof(Side::Server).is_empty());
    assert_eq!(s.phase(), Phase::Draining);
    // the side that is gone already cannot go again
    assert!(s.on_eof(Side::Server).is_empty());
    assert!(s.on_write_error(Side::Server).is_empty());
    assert_eq!(s.phase(), Phase::Draining);
    assert_eq!(s.on_write_error(Side::Client), vec![7]);
    assert_eq!(s.phase(), Phase::Closed);
    assert!(s.on_eof(Side::Client).is_empty());
}

#[test]
fn a_malformed_header_closes_the_session_at_once() {
    let mut s = session(8);
    let share = message(1, SHARE, vec![Arg::Fd(7)]);
    assert!(relay(&mut s, Side::Server, &share).is_empty());
    let attach = message(1, ATTACH, vec![Arg::Fd(8), Arg::Uint(0), Arg::Fd(9)]);
    let mut stream = frame(&attach);
    stream.extend([1, 0, 0, 0, 0, 0, 4, 0]);
    assert!(s.feed(Side::Client, &stream, &[8, 9, 10]).is_empty());
    // no draining: what was decoded is not written, and every descriptor is handed back
    let mut closed = s.pump_plain(Side::Client);
    closed.sort();
    assert_eq!(closed, vec![7, 8, 9, 10]);
    assert_eq!(s.phase(), Phase::Closed);
    assert_eq!(
        s.failure(),
        Some(SessionError { from: Side::Client, kind: ErrorKind::MalformedHeader })
    );
    assert_eq!(s.next_frame(Side::Server), None);
    assert_eq!(s.next_frame(Side::Client), None);
}

#[test]
fn a_frame_above_the_limit_closes_the_session() {
    let mut s = Session::new(4, 16);
    assert!(s.feed(Side::Server, &[1, 0, 0, 0, 0, 0, 20, 0], &[]).is_empty());
    assert!(s.pump_plain(Side::Server).is_empty());
    assert_eq!(
        s.failure(),
        Some(SessionError { from: Side::Server, kind: ErrorKind::MalformedHeader })
    );
}

#[test]
fn a_malformed_payload_closes_the_session() {
    let mut s = session(8);
    // a creating request with two words where it has one
    assert!(s.feed(Side::Client, &[1, 0, 0, 0, 0, 0, 16, 0, 3, 0, 0, 0, 4, 0, 0, 0], &[]).is_empty());
    assert!(s.pump_plain(Side::Client).is_empty());
    assert_eq!(s.phase(), Phase::Closed);
    assert_eq!(
        s.failure(),
        Some(SessionError { from: Side::Client, kind: ErrorKind::MalformedPayload })
    );
    assert!(!s.is_live(3));
}

#[test]
fn a_descriptor_that_did_not_arrive_is_a_failed_transfer() {
    let mut s = session(8);
    let attach = message(1, ATTACH, vec![Arg::Fd(8), Arg::Uint(0), Arg::Fd(9)]);
    assert!(s.feed(Side::Client, &frame(&attach), &[8]).is_empty());
    assert_eq!(s.pump_plain(Side::Client), vec![8]);
    assert_eq!(
        s.failure(),
        Some(SessionError { from: Side::Client, kind: ErrorKind::FdTransferFailure })
    );
}

#[test]
fn a_frame_in_two_parts_is_the_frame_at_once() {
    let m = message(1, ATTACH, vec![Arg::Fd(8), Arg::Uint(77), Arg::Fd(9)]);
    let bytes = frame(&m);
    for cut in 0..bytes.len() {
        let mut s = session(8);
        assert!(s.feed(Side::Client, &bytes[..cut], &[8, 9]).is_empty());
        assert!(s.pump_plain(Side::Client).is_empty());
        assert_eq!(s.queued(Side::Server), 0);
        assert_eq!(s.phase(), Phase::Active);
        assert_eq!(s.held_descriptors(), vec![8, 9]);
        assert!(s.feed(Side::Client, &bytes[cut..], &[]).is_empty());
        assert!(s.pump_plain(Side::Client).is_empty());
        assert_eq!(s.next_frame(Side::Server), Some((bytes.clone(), vec![8, 9])));
    }
}

#[test]
fn pulling_takes_one_message_and_its_descriptors() {
    let mut s = session(8);
    let attach = message(1, ATTACH, vec![Arg::Fd(8), Arg::Uint(0), Arg::Fd(9)]);
    let mut stream = frame(&attach);
    stream.extend(frame(&message(1, CREATE, vec![Arg::NewId(2)])));
    stream.extend([1, 0]);
    assert!(s.feed(Side::Client, &stream, &[8, 9, 10]).is_empty());
    match s.pull(Side::Client) {
        Pulled::Message(m) => assert_eq!(m, attach),
        _ => panic!("no message"),
    }
    // the message is not queued, and the registry has not seen the next one
    assert_eq!(s.queued(Side::Server), 0);
    assert!(!s.is_live(2));
    assert_eq!(s.held_descriptors(), vec![8, 9, 10]);
    assert_eq!(s.forward(Side::Client, attach.clone()), Vec::<i32>::new());
    assert_eq!(s.queued(Side::Server), 1);
    match s.pull(Side::Client) {
        Pulled::Message(m) => assert_eq!(s.forward(Side::Client, m), Vec::<i32>::new()),
        _ => panic!("no message"),
    }
    assert!(s.is_live(2));
    assert!(matches!(s.pull(Side::Client), Pulled::Nothing));
    assert!(matches!(s.pull(Side::Server), Pulled::Nothing));
}

#[test]
fn pulling_a_broken_frame_hands_back_every_descriptor() {
    let mut s = session(8);
    assert!(s.feed(Side::Client, &[1, 0, 0, 0, 0, 0, 0, 0], &[5, 6]).is_empty());
    match s.pull(Side::Client) {
        Pulled::Failed(fds) => assert_eq!(fds, vec![5, 6]),
        _ => panic!("the frame was taken"),
    }
    assert_eq!(s.phase(), Phase::Closed);
    assert!(matches!(s.pull(Side::Client), Pulled::Nothing));
}

#[test]
fn decoding_stops_while_the_queue_is_full() {
    let mut s = session(2);
    let mut stream = Vec::new();
    for id in 2..7 {
        stream.extend(frame(&message(1, CREATE, vec![Arg::NewId(id)])));
    }
    assert!(s.feed(Side::Client, &stream, &[]).is_empty());
    assert!(s.pump_plain(Side::Client).is_empty());
    assert_eq!(s.queued(Side::Server), 2);
    assert!(!s.wants_read(Side::Client));
    assert!(s.wants_read(Side::Server));
    assert!(s.is_live(3));
    assert!(!s.is_live(4));
    // one frame written makes room for one message
    s.frame_sent(Side::Server);
    assert!(s.wants_read(Side::Client));
    assert!(s.pump_plain(Side::Client).is_empty());
    assert_eq!(s.queued(Side::Server), 2);
    assert!(s.is_live(4));
    assert!(!s.is_live(5));
    let (rest, _) = flush(&mut s, Side::Server);
    assert_eq!(rest.len(), 24);
    assert!(s.pump_plain(Side::Client).is_empty());
    assert_eq!(s.queued(Side::Server), 2);
    assert!(s.is_live(6));
}

#[test]
fn a_session_without_room_decodes_nothing() {
    let mut s = session(0);
    assert!(!s.wants_read(Side::Client));
    assert!(relay(&mut s, Side::Client, &message(1, CREATE, vec![Arg::NewId(3)])).is_empty());
    assert_eq!(s.queued(Side::Server), 0);
    assert!(!s.is_live(3));
}

#[test]
fn the_hook_that_passes_everything_changes_nothing() {
    let attach = message(1, ATTACH, vec![Arg::Fd(8), Arg::Uint(0), Arg::Fd(9)]);
    let mut requests = frame(&message(1, CREATE, vec![Arg::NewId(3)]));
    requests.extend(frame(&attach));
    requests.extend(frame(&message(3, DESTROY, vec![])));
    requests.extend(frame(&message(3, NOTE, vec![Arg::Str(b"late\0".to_vec())])));
    let mut events = frame(&message(1, SHARE, vec![Arg::Fd(20)]));
    events.extend(frame(&message(1, ENTER, vec![Arg::Object(0)])));

    let mut plain = session(8);
    let mut hooked = session(8);
    let mut hook = PassThrough;
    assert_eq!(plain.feed(Side::Server, &events, &[20]), hooked.feed(Side::Server, &events, &[20]));
    assert_eq!(plain.pump_plain(Side::Server), hooked.pump(Side::Server, &mut hook));
    assert_eq!(plain.queued(Side::Client), 2);
    assert_eq!(plain.next_frame(Side::Client), hooked.next_frame(Side::Client));
    assert_eq!(
        plain.feed(Side::Client, &requests, &[8, 9]),
        hooked.feed(Side::Client, &requests, &[8, 9])
    );
    let closed = plain.pump_plain(Side::Client);
    assert_eq!(closed, vec![8, 9, 20]);
    assert_eq!(closed, hooked.pump(Side::Client, &mut hook));
    assert_eq!(plain.phase(), hooked.phase());
    assert_eq!(plain.failure(), hooked.failure());
    assert_eq!(
        plain.failure(),
        Some(SessionError {
            from: Side::Client,
            kind: ErrorKind::ProtocolViolation(ProtocolViolation::DeadReference { id: 3 }),
        })
    );
}

#[test]
fn the_hook_that_passes_everything_forwards_the_same_bytes() {
    let attach = message(1, ATTACH, vec![Arg::Fd(8), Arg::Uint(0), Arg::Fd(9)]);
    let mut requests = frame(&message(1, CREATE, vec![Arg::NewId(3)]));
    requests.extend(frame(&attach));
    requests.extend(frame(&message(3, DESTROY, vec![])));
    requests.extend(frame(&message(1, 77, vec![Arg::Uint(5)])));
    let mut plain = session(8);
    let mut hooked = session(8);
    assert!(plain.feed(Side::Client, &requests, &[8, 9]).is_empty());
    assert!(hooked.feed(Side::Client, &requests, &[8, 9]).is_empty());
    assert!(plain.pump_plain(Side::Client).is_empty());
    assert!(hooked.pump(Side::Client, &mut PassThrough).is_empty());
    for id in 0..5 {
        assert_eq!(plain.is_live(id), hooked.is_live(id));
        assert_eq!(plain.record(id), hooked.record(id));
    }
    assert!(!plain.is_live(3));
    assert_eq!(flush(&mut plain, Side::Server), (requests.clone(), vec![8, 9]));
    assert_eq!(flush(&mut hooked, Side::Server), (requests, vec![8, 9]));
}

#[test]
fn the_hook_is_asked_once_for_every_message_and_not_otherwise() {
    let mut hook = Count(0);
    // nothing waits
    let mut s = session(2);
    assert!(s.pump(Side::Client, &mut hook).is_empty());
    assert_eq!(hook.0, 0);
    assert_eq!(s.phase(), Phase::Handshaking);
    // half a frame waits
    let create = frame(&message(1, CREATE, vec![Arg::NewId(3)]));
    assert!(s.feed(Side::Client, &create[..7], &[]).is_empty());
    assert!(s.pump(Side::Client, &mut hook).is_empty());
    assert_eq!(hook.0, 0);
    assert_eq!(s.queued(Side::Server), 0);
    // three frames wait and the queue has room for two
    let mut rest = create[7..].to_vec();
    rest.extend(frame(&message(1, CREATE, vec![Arg::NewId(4)])));
    rest.extend(frame(&message(1, CREATE, vec![Arg::NewId(5)])));
    assert!(s.feed(Side::Client, &rest, &[]).is_empty());
    assert!(s.pump(Side::Client, &mut hook).is_empty());
    assert_eq!(hook.0, 2);
    assert_eq!(s.queued(Side::Server), 2);
    // the queue is full
    assert!(s.pump(Side::Client, &mut hook).is_empty());
    assert_eq!(hook.0, 2);
    s.frame_sent(Side::Server);
    assert!(s.pump(Side::Client, &mut hook).is_empty());
    assert_eq!(hook.0, 3);
    assert!(s.is_live(5));
    // a broken frame waits: the session fails before the hook is asked
    assert!(s.feed(Side::Server, &[1, 0, 0, 0, 0, 0, 3, 0], &[70]).is_empty());
    assert_eq!(s.pump(Side::Server, &mut hook), vec![70]);
    assert_eq!(hook.0, 3);
    assert_eq!(
        s.failure(),
        Some(SessionError { from: Side::Server, kind: ErrorKind::MalformedHeader })
    );
    // a closed session decodes nothing
    assert!(s.pump(Side::Client, &mut hook).is_empty());
    assert_eq!(hook.0, 3);
}

#[test]
fn a_dropped_message_has_its_descriptors_closed() {
    let mut s = session(8);
    let attach = message(1, ATTACH, vec![Arg::Fd(8), Arg::Uint(0), Arg::Fd(9)]);
    assert!(s.feed(Side::Client, &frame(&attach), &[8, 9]).is_empty());
    assert_eq!(s.pump(Side::Client, &mut DropAll), vec![8, 9]);
    assert_eq!(s.queued(Side::Server), 0);
    assert_eq!(s.phase(), Phase::Active);
    assert_eq!(s.held_descriptors(), Vec::<i32>::new());
}

#[test]
fn the_registry_follows_what_is_sent_not_what_came() {
    let mut s = session(8);
    assert!(s.feed(Side::Client, &frame(&message(1, CREATE, vec![Arg::NewId(3)])), &[]).is_empty());
    assert!(s.pump(Side::Client, &mut DropAll).is_empty());
    // the compositor never saw the request, so object 3 does not exist
    assert!(!s.is_live(3));
    assert_eq!(s.phase(), Phase::Active);
}

#[test]
fn a_descriptor_that_the_hook_leaves_out_is_closed() {
    let mut s = session(8);
    let attach = message(1, ATTACH, vec![Arg::Fd(8), Arg::Uint(5), Arg::Fd(9)]);
    assert!(s.feed(Side::Client, &frame(&attach), &[8, 9]).is_empty());
    assert_eq!(s.pump(Side::Client, &mut KeepFirstFd), vec![9]);
    let kept = message(1, ATTACH, vec![Arg::Fd(8), Arg::Uint(5)]);
    assert_eq!(s.next_frame(Side::Server), Some((frame(&kept), vec![8])));
}

#[test]
fn injected_messages_go_out_before_the_one_that_came() {
    let mut s = session(8);
    let create = message(1, CREATE, vec![Arg::NewId(3)]);
    assert!(s.feed(Side::Client, &frame(&create), &[]).is_empty());
    assert!(s.pump(Side::Client, &mut Announce).is_empty());
    assert_eq!(s.queued(Side::Server), 2);
    let mut expected = frame(&message(1, NOTE, vec![Arg::Str(b"next\0".to_vec())]));
    expected.extend(frame(&create));
    assert_eq!(flush(&mut s, Side::Server), (expected, vec![]));
    assert!(s.is_live(3));
}

#[test]
fn a_descriptor_of_the_hook_s_own_is_refused() {
    let mut s = session(8);
    let share = message(1, SHARE, vec![Arg::Fd(30)]);
    assert!(relay(&mut s, Side::Server, &share).is_empty());
    assert!(s.feed(Side::Server, &frame(&share), &[31]).is_empty());
    let mut closed = s.pump(Side::Server, &mut Smuggle(99));
    closed.sort();
    // the descriptors of the session are closed, the hook's own is not the session's to close
    assert_eq!(closed, vec![30, 31]);
    assert_eq!(s.phase(), Phase::Closed);
    assert_eq!(
        s.failure(),
        Some(SessionError { from: Side::Server, kind: ErrorKind::FdTransferFailure })
    );
    assert_eq!(s.next_frame(Side::Client), None);
}

#[test]
fn a_descriptor_cannot_be_sent_twice() {
    let mut s = session(8);
    let share = message(1, SHARE, vec![Arg::Fd(30)]);
    assert!(s.feed(Side::Server, &frame(&share), &[30]).is_empty());
    assert_eq!(s.pump(Side::Server, &mut Twice), vec![30]);
    assert_eq!(
        s.failure(),
        Some(SessionError { from: Side::Server, kind: ErrorKind::FdTransferFailure })
    );
}

#[test]
fn a_message_without_descriptors_may_be_sent_twice() {
    let mut s = session(8);
    let note = message(1, NOTE, vec![Arg::Str(b"again\0".to_vec())]);
    assert!(s.feed(Side::Client, &frame(&note), &[]).is_empty());
    assert!(s.pump(Side::Client, &mut Twice).is_empty());
    let mut expected = frame(&note);
    expected.extend(frame(&note));
    assert_eq!(flush(&mut s, Side::Server), (expected, vec![]));
}

#[test]
fn delivering_settles_the_descriptors_in_flight() {
    let mut s = session(8);
    let attach = message(1, ATTACH, vec![Arg::Fd(8), Arg::Uint(0), Arg::Fd(9)]);
    assert!(s.feed(Side::Client, &frame(&attach), &[8, 9]).is_empty());
    assert!(matches!(s.pull(Side::Client), Pulled::Message(_)));
    let swapped = message(1, ATTACH, vec![Arg::Fd(9), Arg::Uint(1)]);
    let action = Action::Inject(vec![], Box::new(Action::Forward(swapped.clone())));
    assert_eq!(s.deliver(Side::Client, action), vec![8]);
    assert_eq!(s.next_frame(Side::Server), Some((frame(&swapped), vec![9])));
    // with nothing in flight, nothing can be claimed
    assert!(s.deliver(Side::Client, Action::Drop).is_empty());
    assert_eq!(s.phase(), Phase::Active);
    assert_eq!(s.deliver(Side::Client, Action::Forward(swapped)), vec![9]);
    assert_eq!(s.phase(), Phase::Closed);
}

#[test]
fn a_message_that_the_hook_makes_is_held_to_the_rules() {
    let mut s = session(8);
    assert!(s.feed(Side::Client, &frame(&message(1, NOTE, vec![Arg::Str(vec![])])), &[]).is_empty());
    assert!(matches!(s.pull(Side::Client), Pulled::Message(_)));
    let made = message(1, CREATE, vec![Arg::NewId(0xff00_0000)]);
    assert!(s.deliver(Side::Client, Action::Forward(made)).is_empty());
    assert_eq!(
        s.failure(),
        Some(SessionError {
            from: Side::Client,
            kind: ErrorKind::ProtocolViolation(ProtocolViolation::OutOfRange { id: 0xff00_0000 }),
        })
    );
}

#[test]
fn every_descriptor_is_forwarded_or_closed_once() {
    let mut s = session(3);
    let mut fed = Vec::new();
    let mut forwarded = Vec::new();
    let mut closed = Vec::new();
    let mut next_fd = 100;
    for round in 0..6 {
        let attach =
            message(1, ATTACH, vec![Arg::Fd(next_fd), Arg::Uint(round), Arg::Fd(next_fd + 1)]);
        let share = message(1, SHARE, vec![Arg::Fd(next_fd + 2)]);
        closed.extend(s.feed(Side::Client, &frame(&attach), &[next_fd, next_fd + 1]));
        closed.extend(s.feed(Side::Server, &frame(&share), &[next_fd + 2, next_fd + 3]));
        fed.extend([next_fd, next_fd + 1, next_fd + 2, next_fd + 3]);
        next_fd += 4;
        closed.extend(s.pump(Side::Client, &mut KeepFirstFd));
        closed.extend(s.pump_plain(Side::Server));
        if round % 2 == 0 {
            forwarded.extend(flush(&mut s, Side::Server).1);
        }
        if round == 3 {
            forwarded.extend(flush(&mut s, Side::Client).1);
        }
    }
    // the client goes while messages wait on both sides
    closed.extend(s.on_eof(Side::Client));
    assert_eq!(s.phase(), Phase::Draining);
    forwarded.extend(flush(&mut s, Side::Server).1);
    assert_eq!(s.phase(), Phase::Closed);
    // what comes after the end is handed straight back
    closed.extend(s.feed(Side::Server, &[1, 2, 3], &[900]));
    fed.push(900);
    assert_eq!(s.held_descriptors(), Vec::<i32>::new());
    assert_eq!(fed.len(), 25);
    assert_eq!(forwarded.len() + closed.len(), 25);
    let mut all = forwarded.clone();
    all.extend(closed.clone());
    all.sort();
    assert_eq!(all, fed);
    assert!(forwarded.contains(&100));
    assert!(closed.contains(&101));
}

#[test]
fn a_closed_session_hands_back_what_it_is_fed() {
    let mut s = session(8);
    assert!(s.on_eof(Side::Client).is_empty());
    assert_eq!(s.phase(), Phase::Closed);
    assert_eq!(s.feed(Side::Server, &[1, 2, 3], &[4, 5]), vec![4, 5]);
    assert!(s.pump_plain(Side::Server).is_empty());
    assert_eq!(s.queued(Side::Client), 0);
    s.frame_sent(Side::Client);
    assert_eq!(s.phase(), Phase::Closed);
}

#[test]
fn a_session_that_was_told_nothing_relays_everything() {
    let mut s = Session::new(16, 4096);
    // requests on objects that no declared message created, with descriptors
    let mut requests = vec![1, 0, 0, 0, 1, 0, 12, 0, 2, 0, 0, 0];
    requests.extend([2, 0, 0, 0, 0, 0, 16, 0, 9, 0, 0, 0, 3, 0, 0, 0]);
    requests.extend([3, 0, 0, 0, 5, 0, 8, 0]);
    let mut events = vec![2, 0, 0, 0, 0, 0, 12, 0, 1, 0, 0, 0];
    events.extend([0, 0, 0xff, 0xff, 7, 0, 8, 0]);
    for cut in [0, 5, 12, 30, 36] {
        assert!(s.feed(Side::Client, &requests[..cut], &[]).is_empty());
        assert!(s.feed(Side::Client, &requests[cut..], &[50, 51]).is_empty());
        assert!(s.feed(Side::Server, &events, &[60]).is_empty());
        assert!(s.pump(Side::Client, &mut PassThrough).is_empty());
        assert!(s.pump_plain(Side::Server).is_empty());
        assert_eq!(s.phase(), Phase::Active);
        assert_eq!(flush(&mut s, Side::Server), (requests.clone(), vec![50, 51]));
        assert_eq!(flush(&mut s, Side::Client), (events.clone(), vec![60]));
        assert_eq!(s.held_descriptors(), Vec::<i32>::new());
    }
    assert_eq!(s.failure(), None);
}

#[test]
fn an_opcode_that_was_not_declared_passes_as_words() {
    let mut s = session(8);
    let bytes = vec![1, 0, 0, 0, 200, 0, 16, 0, 5, 0, 0, 0, 6, 0, 0, 0];
    assert!(s.feed(Side::Server, &bytes, &[]).is_empty());
    assert!(s.pump(Side::Server, &mut PassThrough).is_empty());
    assert_eq!(s.next_frame(Side::Client), Some((bytes, vec![])));
}
