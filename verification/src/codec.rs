//! The wire codec: frames of bytes to messages and back.
//!
//! A frame is an eight-byte header (object identifier, opcode, frame length)
//! followed by the arguments, each a whole number of words. Descriptors take
//! no payload bytes: they come from the queue that the transport filled.

use std::collections::HashMap;
use vstd::prelude::*;
use vstd::slice::slice_subrange;
use crate::message::{
    args_bytes, args_fds, args_kinds, args_len, blob_bytes, lemma_arg_bytes_len,
    lemma_args_bytes_len, lemma_args_grow, lemma_args_push, view_args, Arg, ArgKind, ArgView,
    Message, MessageView,
};
use crate::wire::{
    copy_of, half_at, half_bytes, int_of_word, int_to_word, lemma_half_round_trip,
    lemma_int_round_trip, lemma_word_round_trip, padded, push_half, push_word, read_half,
    read_word, word_at, word_bytes, word_of_int, word_to_int, zeros, HEADER_LEN,
};

verus! {

/// The frame limit that suits peers with the customary buffers of 4096 bytes.
pub const DEFAULT_FRAME_LIMIT: u16 = 4096;

/// Why a buffer did not give a message.
#[derive(Clone, Copy, Debug, PartialEq, Eq, Structural)]
pub enum DecodeError {
    /// The buffer ends before the frame does. Not a fault of the peer: read more and retry.
    Incomplete,
    /// The header declares a frame shorter than a header or longer than the codec's limit.
    MalformedHeader,
    /// The payload is not a run of arguments of the kinds the opcode has.
    MalformedPayload,
    /// An argument needs a descriptor and the queue holds none.
    MissingDescriptor,
}

/// The frame of a message: header, then the payload of its arguments.
pub open spec fn frame_bytes(m: MessageView) -> Seq<u8> {
    word_bytes(m.sender) + half_bytes(m.opcode) + half_bytes(m.size() as u16) + args_bytes(m.args)
}

/// `r` with `prefix` put before the arguments it holds.
pub open spec fn glue(prefix: Seq<ArgView>, r: Result<Seq<ArgView>, DecodeError>) -> Result<
    Seq<ArgView>,
    DecodeError,
> {
    match r {
        Ok(rest) => Ok(prefix + rest),
        Err(e) => Err(e),
    }
}

/// The argument of `kind` at the front of `bytes`; a descriptor comes from the front of `fds`.
pub open spec fn parse_arg(kind: ArgKind, bytes: Seq<u8>, fds: Seq<i32>) -> Result<
    ArgView,
    DecodeError,
> {
    match kind {
        ArgKind::Fd => if fds.len() == 0 {
            Err(DecodeError::MissingDescriptor)
        } else {
            Ok(ArgView::Fd(fds[0]))
        },
        _ => if bytes.len() < 4 {
            Err(DecodeError::MalformedPayload)
        } else {
            let w = word_at(bytes, 0);
            match kind {
                ArgKind::Int => Ok(ArgView::Int(int_of_word(w))),
                ArgKind::Uint => Ok(ArgView::Uint(w)),
                ArgKind::Fixed => Ok(ArgView::Fixed(int_of_word(w))),
                ArgKind::Object => Ok(ArgView::Object(w)),
                ArgKind::NewId => Ok(ArgView::NewId(w)),
                _ => if bytes.len() < 4 + padded(w as int) {
                    Err(DecodeError::MalformedPayload)
                } else if kind == ArgKind::Str {
                    Ok(ArgView::Str(bytes.subrange(4, 4 + w)))
                } else {
                    Ok(ArgView::Array(bytes.subrange(4, 4 + w)))
                },
            }
        },
    }
}

/// The arguments of `kinds` that fill `bytes` exactly, descriptors taken from the front of `fds`.
pub open spec fn parse_args(kinds: Seq<ArgKind>, bytes: Seq<u8>, fds: Seq<i32>) -> Result<
    Seq<ArgView>,
    DecodeError,
>
    decreases kinds.len(),
{
    if kinds.len() == 0 {
        if bytes.len() == 0 {
            Ok(Seq::empty())
        } else {
            Err(DecodeError::MalformedPayload)
        }
    } else {
        match parse_arg(kinds[0], bytes, fds) {
            Err(e) => Err(e),
            Ok(a) => glue(
                seq![a],
                parse_args(
                    kinds.drop_first(),
                    bytes.skip(a.wire_len()),
                    fds.skip(a.fds().len() as int),
                ),
            ),
        }
    }
}

/// What a decode call returned, with the message as its value.
pub open spec fn decoded(r: Result<(Message, usize), DecodeError>) -> Result<
    (MessageView, int),
    DecodeError,
> {
    match r {
        Ok((m, n)) => Ok((m@, n as int)),
        Err(e) => Err(e),
    }
}

/// The kinds a frame with an undeclared opcode is read with: an unsigned word
/// for every word of payload, then a descriptor for every descriptor that waits.
pub open spec fn raw_kinds(payload_len: int, waiting: int) -> Seq<ArgKind> {
    Seq::new((payload_len / 4) as nat, |i: int| ArgKind::Uint) + Seq::new(
        waiting as nat,
        |i: int| ArgKind::Fd,
    )
}

/// The kinds of an undeclared frame, one by one.
proof fn lemma_raw_kinds(payload_len: int, waiting: int)
    requires
        0 <= payload_len,
        0 <= waiting,
    ensures
        raw_kinds(payload_len, waiting).len() == payload_len / 4 + waiting,
        forall|j: int|
            0 <= j < payload_len / 4 ==> raw_kinds(payload_len, waiting)[j] == ArgKind::Uint,
        forall|j: int|
            payload_len / 4 <= j < payload_len / 4 + waiting ==> raw_kinds(payload_len, waiting)[j]
                == ArgKind::Fd,
{
}

/// Encoder and decoder of one direction of a connection.
///
/// The wire format does not say where an argument ends, so the codec is told
/// the kinds of the arguments of each opcode it should take apart. A frame
/// with another opcode is taken whole: its payload as a run of unsigned
/// words, and with it every descriptor that waits, so that no descriptor
/// falls behind the bytes it came with.
pub struct WireCodec {
    limit: u16,
    shapes: HashMap<u16, Vec<ArgKind>>,
}

impl WireCodec {
    /// The longest frame this codec decodes.
    pub closed spec fn limit(&self) -> int {
        self.limit as int
    }

    /// The argument kinds declared for `opcode`, if any were.
    pub closed spec fn shape(&self, opcode: u16) -> Option<Seq<ArgKind>> {
        if self.shapes@.contains_key(opcode) {
            Some(self.shapes@[opcode]@)
        } else {
            None
        }
    }

    /// The argument kinds a frame of `opcode` with `payload_len` payload bytes
    /// is read with while `waiting` descriptors wait.
    pub open spec fn kinds_for(&self, opcode: u16, payload_len: int, waiting: int) -> Seq<ArgKind> {
        match self.shape(opcode) {
            Some(kinds) => kinds,
            None => raw_kinds(payload_len, waiting),
        }
    }

    /// Whether this codec decodes the frame of `m` back to `m`: the frame is
    /// within the limit and the arguments have the kinds the opcode is read with.
    pub open spec fn accepts(&self, m: MessageView) -> bool {
        &&& m.size() <= self.limit()
        &&& m.kinds() == self.kinds_for(m.opcode, m.size() - 8, m.fds().len() as int)
    }

    /// The message at the front of `buffer`, with the length of its frame.
    pub open spec fn spec_decode(&self, buffer: Seq<u8>, fds: Seq<i32>) -> Result<
        (MessageView, int),
        DecodeError,
    > {
        if buffer.len() < 8 {
            Err(DecodeError::Incomplete)
        } else {
            let sender = word_at(buffer, 0);
            let opcode = half_at(buffer, 4);
            let size = half_at(buffer, 6) as int;
            if size < 8 || size > self.limit() {
                Err(DecodeError::MalformedHeader)
            } else if buffer.len() < size {
                Err(DecodeError::Incomplete)
            } else {
                match parse_args(
                    self.kinds_for(opcode, size - 8, fds.len() as int),
                    buffer.subrange(8, size),
                    fds,
                ) {
                    Ok(args) => Ok((MessageView { sender, opcode, args }, size)),
                    Err(e) => Err(e),
                }
            }
        }
    }

    /// A codec that decodes frames of up to `limit` bytes and knows no opcode yet.
    pub fn new(limit: u16) -> (r: WireCodec)
        ensures
            r.limit() == limit,
            forall|opcode: u16| r.shape(opcode) is None,
    {
        WireCodec { limit, shapes: HashMap::new() }
    }

    /// Declares the argument kinds of `opcode`, in place of any declared before.
    pub fn declare(&mut self, opcode: u16, kinds: Vec<ArgKind>)
        ensures
            final(self).limit() == old(self).limit(),
            final(self).shape(opcode) == Some(kinds@),
            forall|other: u16|
                other != opcode ==> final(self).shape(other) == old(self).shape(other),
    {
        self.shapes.insert(opcode, kinds);
    }

    /// The longest frame this codec decodes.
    pub fn frame_limit(&self) -> (r: u16)
        ensures
            r == self.limit(),
    {
        self.limit
    }

    /// Decodes the message at the front of `buffer`.
    ///
    /// Returns the message and the number of bytes of its frame. The message
    /// holds, as its descriptor arguments, the first descriptors of
    /// `pending_fds`, one for each, in order; a frame whose opcode was not
    /// declared holds all of them. Nothing is consumed: the caller drops the
    /// frame and the descriptors from its queues.
    pub fn decode(&self, buffer: &[u8], pending_fds: &[i32]) -> (r: Result<
        (Message, usize),
        DecodeError,
    >)
        ensures
            decoded(r) == self.spec_decode(buffer@, pending_fds@),
            r matches Ok((m, n)) ==> {
                &&& n == m@.size()
                &&& 8 <= n <= buffer@.len()
                &&& n <= self.limit()
                &&& m@.fds().len() <= pending_fds@.len()
                &&& m@.fds() == pending_fds@.take(m@.fds().len() as int)
            },
    {
        if buffer.len() < HEADER_LEN {
            return Err(DecodeError::Incomplete);
        }
        let sender = read_word(buffer, 0);
        let opcode = read_half(buffer, 4);
        let size = read_half(buffer, 6) as usize;
        if size < HEADER_LEN || size > self.limit as usize {
            return Err(DecodeError::MalformedHeader);
        }
        if buffer.len() < size {
            return Err(DecodeError::Incomplete);
        }
        let declared = self.shapes.get(&opcode);
        let words: usize = (size - 8) / 4;
        let count: usize = match declared {
            Some(kinds) => kinds.len(),
            None => words,
        };
        let available = pending_fds.len();
        let ghost kinds = self.kinds_for(opcode, size as int - 8, available as int);
        let ghost fds = pending_fds@;
        let ghost whole = parse_args(kinds, buffer@.subrange(8, size as int), fds);
        let mut args: Vec<Arg> = Vec::new();
        let mut pos: usize = 8;
        let mut taken: usize = 0;
        let mut i: usize = 0;
        proof {
            assert(kinds.skip(0) =~= kinds);
            assert(fds.skip(0) =~= fds);
            assert(fds.take(0) =~= Seq::<i32>::empty());
            if let Ok(found) = whole {
                assert(Seq::<ArgView>::empty() + found =~= found);
            }
            lemma_raw_kinds(size as int - 8, available as int);
        }
        while i < count
            invariant
                i <= count,
                self.spec_decode(buffer@, pending_fds@) == match whole {
                    Ok(found) => Ok((MessageView { sender, opcode, args: found }, size as int)),
                    Err(e) => Err(e),
                },
                size <= self.limit(),
                count <= kinds.len(),
                8 <= pos <= size <= buffer@.len(),
                size <= 65535,
                taken <= available == fds.len(),
                fds == pending_fds@,
                declared matches Some(k) ==> k@ == kinds,
                declared is None ==> count == words && taken == 0,
                declared is None ==> kinds.len() == words + available,
                declared is None ==> forall|j: int| 0 <= j < words ==> kinds[j] == ArgKind::Uint,
                declared is None ==> forall|j: int|
                    words <= j < words + available ==> kinds[j] == ArgKind::Fd,
                whole == glue(
                    view_args(args@),
                    parse_args(
                        kinds.skip(i as int),
                        buffer@.subrange(pos as int, size as int),
                        fds.skip(taken as int),
                    ),
                ),
                pos == 8 + args_len(view_args(args@)),
                args_fds(view_args(args@)) == fds.take(taken as int),
            decreases count - i,
        {
            let kind = match declared {
                Some(k) => k[i],
                None => ArgKind::Uint,
            };
            let ghost bytes = buffer@.subrange(pos as int, size as int);
            let ghost before = view_args(args@);
            proof {
                lemma_parse_step(kinds, i as int, bytes, fds.skip(taken as int));
            }
            match decode_arg(kind, buffer, pos, size, pending_fds, taken) {
                Err(e) => {
                    return Err(e);
                },
                Ok((arg, used)) => {
                    proof {
                        lemma_args_push(before, arg@);
                        assert(bytes.skip(used as int) =~= buffer@.subrange(
                            pos + used,
                            size as int,
                        ));
                        assert(fds.skip(taken as int).skip(arg@.fds().len() as int) =~= fds.skip(
                            taken + arg@.fds().len(),
                        ));
                        assert(fds.take(taken as int) + arg@.fds() =~= fds.take(
                            taken + arg@.fds().len(),
                        ));
                    }
                    let is_fd = match arg {
                        Arg::Fd(_) => true,
                        _ => false,
                    };
                    args.push(arg);
                    proof {
                        assert(view_args(args@) =~= before.push(arg@));
                        let rest = parse_args(
                            kinds.skip(i + 1),
                            buffer@.subrange(pos + used, size as int),
                            fds.skip(taken + arg@.fds().len()),
                        );
                        assert(glue(before, glue(seq![arg@], rest)) == glue(
                            before.push(arg@),
                            rest,
                        )) by {
                            if let Ok(tail) = rest {
                                assert(before + (seq![arg@] + tail) =~= before.push(arg@) + tail);
                            }
                        }
                    }
                    pos = pos + used;
                    if is_fd {
                        assert(arg@.fds().len() == 1);
                        taken = taken + 1;
                    }
                },
            }
            i = i + 1;
        }
        if declared.is_none() {
            // an undeclared frame takes every descriptor that waits
            while taken < available
                invariant
                    self.spec_decode(buffer@, pending_fds@) == match whole {
                        Ok(found) => Ok((MessageView { sender, opcode, args: found }, size as int)),
                        Err(e) => Err(e),
                    },
                    size <= self.limit(),
                    kinds.len() == words + available,
                    forall|j: int| words <= j < words + available ==> kinds[j] == ArgKind::Fd,
                    i == words,
                    8 <= pos <= size <= buffer@.len(),
                    size <= 65535,
                    taken <= available == fds.len(),
                    fds == pending_fds@,
                    whole == glue(
                        view_args(args@),
                        parse_args(
                            kinds.skip(i + taken),
                            buffer@.subrange(pos as int, size as int),
                            fds.skip(taken as int),
                        ),
                    ),
                    pos == 8 + args_len(view_args(args@)),
                    args_fds(view_args(args@)) == fds.take(taken as int),
                decreases available - taken,
            {
                let ghost bytes = buffer@.subrange(pos as int, size as int);
                let ghost before = view_args(args@);
                let fd = pending_fds[taken];
                proof {
                    lemma_parse_step(kinds, i + taken, bytes, fds.skip(taken as int));
                    lemma_args_push(before, ArgView::Fd(fd));
                    assert(bytes.skip(0) =~= bytes);
                    assert(fds.skip(taken as int).skip(1) =~= fds.skip(taken + 1));
                    assert(fds.take(taken as int) + seq![fd] =~= fds.take(taken + 1));
                }
                args.push(Arg::Fd(fd));
                proof {
                    assert(view_args(args@) =~= before.push(ArgView::Fd(fd)));
                    let rest = parse_args(
                        kinds.skip(i + taken + 1),
                        bytes,
                        fds.skip(taken + 1),
                    );
                    assert(glue(before, glue(seq![ArgView::Fd(fd)], rest)) == glue(
                        before.push(ArgView::Fd(fd)),
                        rest,
                    )) by {
                        if let Ok(tail) = rest {
                            assert(before + (seq![ArgView::Fd(fd)] + tail) =~= before.push(
                                ArgView::Fd(fd),
                            ) + tail);
                        }
                    }
                }
                taken = taken + 1;
            }
        }
        let ghost reached = match declared {
            Some(_) => i as int,
            None => i + taken,
        };
        assert(kinds.skip(reached) =~= Seq::<ArgKind>::empty());
        if pos != size {
            return Err(DecodeError::MalformedPayload);
        }
        assert(buffer@.subrange(pos as int, size as int) =~= Seq::<u8>::empty());
        assert(view_args(args@) + Seq::<ArgView>::empty() =~= view_args(args@));
        match Message::new(sender, opcode, args) {
            Some(m) => Ok((m, size)),
            None => Err(DecodeError::MalformedPayload),
        }
    }

    /// Encodes `message`: the bytes of its frame and the descriptors that go with them.
    pub fn encode(message: &Message) -> (r: (Vec<u8>, Vec<i32>))
        ensures
            r.0@ == frame_bytes(message@),
            r.0@.len() == message@.size(),
            r.1@ == message@.fds(),
    {
        let size = message.size();
        let args = message.args();
        let ghost all = view_args(args@);
        let mut out: Vec<u8> = Vec::new();
        push_word(&mut out, message.sender_object_id());
        push_half(&mut out, message.opcode());
        push_half(&mut out, size);
        let ghost head = out@;
        let mut i: usize = 0;
        while i < args.len()
            invariant
                i <= args.len(),
                all == view_args(args@),
                args_len(all) <= 65535,
                out@ == head + args_bytes(all.take(i as int)),
            decreases args.len() - i,
        {
            proof {
                lemma_args_push(all.take(i as int), all[i as int]);
                assert(all.take(i as int + 1) =~= all.take(i as int).push(all[i as int]));
                lemma_args_grow(all, i as int + 1);
                lemma_args_bytes_len(all.take(i as int));
            }
            encode_arg(&mut out, &args[i]);
            assert(out@ =~= head + args_bytes(all.take(i as int + 1)));
            i = i + 1;
        }
        proof {
            assert(all.take(i as int) =~= all);
            lemma_args_bytes_len(all);
        }
        (out, message.fds())
    }
}

/// Decodes the argument of `kind` that starts at `pos` in a payload that ends at `end`.
///
/// Returns the argument and the number of payload bytes it takes.
fn decode_arg(
    kind: ArgKind,
    buf: &[u8],
    pos: usize,
    end: usize,
    pending_fds: &[i32],
    taken: usize,
) -> (r: Result<(Arg, usize), DecodeError>)
    requires
        pos <= end <= buf@.len(),
        end <= 65535,
        taken <= pending_fds@.len(),
    ensures
        match r {
            Ok((a, used)) => {
                &&& parse_arg(
                    kind,
                    buf@.subrange(pos as int, end as int),
                    pending_fds@.skip(taken as int),
                ) == Ok::<ArgView, DecodeError>(a@)
                &&& used == a@.wire_len()
                &&& pos + used <= end
                &&& a@.kind() == kind
                &&& taken + a@.fds().len() <= pending_fds@.len()
                &&& a@.fds() == pending_fds@.subrange(taken as int, taken + a@.fds().len())
            },
            Err(e) => parse_arg(
                kind,
                buf@.subrange(pos as int, end as int),
                pending_fds@.skip(taken as int),
            ) == Err::<ArgView, DecodeError>(e),
        },
{
    let ghost bytes = buf@.subrange(pos as int, end as int);
    match kind {
        ArgKind::Fd => {
            if taken >= pending_fds.len() {
                Err(DecodeError::MissingDescriptor)
            } else {
                let fd = pending_fds[taken];
                assert(pending_fds@.subrange(taken as int, taken + 1) =~= seq![fd]);
                Ok((Arg::Fd(fd), 0))
            }
        },
        _ => {
            if end - pos < 4 {
                return Err(DecodeError::MalformedPayload);
            }
            let w = read_word(buf, pos);
            assert(w == word_at(bytes, 0));
            assert(pending_fds@.subrange(taken as int, taken as int) =~= Seq::<i32>::empty());
            match kind {
                ArgKind::Int => Ok((Arg::Int(word_to_int(w)), 4)),
                ArgKind::Uint => Ok((Arg::Uint(w), 4)),
                ArgKind::Fixed => Ok((Arg::Fixed(word_to_int(w)), 4)),
                ArgKind::Object => Ok((Arg::Object(w), 4)),
                ArgKind::NewId => Ok((Arg::NewId(w), 4)),
                _ => {
                    let room: u64 = (end - pos - 4) as u64;
                    let need: u64 = (w as u64 + 3) / 4 * 4;
                    if need > room {
                        return Err(DecodeError::MalformedPayload);
                    }
                    let len = w as usize;
                    let body = copy_of(slice_subrange(buf, pos + 4, pos + 4 + len));
                    assert(body@ =~= bytes.subrange(4, 4 + w));
                    let used = 4 + need as usize;
                    match kind {
                        ArgKind::Str => Ok((Arg::Str(body), used)),
                        _ => Ok((Arg::Array(body), used)),
                    }
                },
            }
        },
    }
}

/// Appends the payload bytes of `arg`.
fn encode_arg(out: &mut Vec<u8>, arg: &Arg)
    requires
        arg@.wire_len() <= 65535,
    ensures
        final(out)@ == old(out)@ + arg@.bytes(),
{
    match arg {
        Arg::Int(i) => push_word(out, int_to_word(*i)),
        Arg::Uint(u) => push_word(out, *u),
        Arg::Fixed(f) => push_word(out, int_to_word(*f)),
        Arg::Str(s) => push_blob(out, s),
        Arg::Object(o) => push_word(out, *o),
        Arg::NewId(n) => push_word(out, *n),
        Arg::Array(a) => push_blob(out, a),
        Arg::Fd(_) => {
            assert(out@ + Seq::<u8>::empty() =~= out@);
        },
    }
}

/// Appends length-prefixed bytes: the length, the bytes, zero padding up to a word.
fn push_blob(out: &mut Vec<u8>, s: &Vec<u8>)
    requires
        s@.len() <= 65535,
    ensures
        final(out)@ == old(out)@ + blob_bytes(s@),
{
    let len = s.len();
    push_word(out, len as u32);
    let ghost head = out@;
    let mut i: usize = 0;
    while i < len
        invariant
            i <= len,
            len == s@.len(),
            out@ == head + s@.take(i as int),
        decreases len - i,
    {
        out.push(s[i]);
        assert(out@ =~= head + s@.take(i as int + 1));
        i = i + 1;
    }
    assert(s@.take(len as int) =~= s@);
    let pad = (len + 3) / 4 * 4 - len;
    let ghost body = out@;
    let mut j: usize = 0;
    while j < pad
        invariant
            j <= pad,
            out@ == body + zeros(j as int),
        decreases pad - j,
    {
        out.push(0u8);
        assert(out@ =~= body + zeros(j as int + 1));
        j = j + 1;
    }
    assert(out@ =~= old(out)@ + blob_bytes(s@));
}

/// Reading the arguments from the `i`-th kind on is reading one argument and then the rest.
pub proof fn lemma_parse_step(kinds: Seq<ArgKind>, i: int, bytes: Seq<u8>, fds: Seq<i32>)
    requires
        0 <= i < kinds.len(),
    ensures
        parse_args(kinds.skip(i), bytes, fds) == match parse_arg(kinds[i], bytes, fds) {
            Err(e) => Err(e),
            Ok(a) => glue(
                seq![a],
                parse_args(
                    kinds.skip(i + 1),
                    bytes.skip(a.wire_len()),
                    fds.skip(a.fds().len() as int),
                ),
            ),
        },
{
    assert(kinds.skip(i).drop_first() =~= kinds.skip(i + 1));
}

/// An argument is read back from its own bytes and descriptors, whatever follows them.
pub proof fn lemma_arg_round_trip(a: ArgView, more_bytes: Seq<u8>, more_fds: Seq<i32>)
    requires
        a.wire_len() <= 65535,
    ensures
        parse_arg(a.kind(), a.bytes() + more_bytes, a.fds() + more_fds) == Ok::<
            ArgView,
            DecodeError,
        >(a),
        (a.bytes() + more_bytes).skip(a.wire_len()) == more_bytes,
        (a.fds() + more_fds).skip(a.fds().len() as int) == more_fds,
{
    let bytes = a.bytes() + more_bytes;
    lemma_arg_bytes_len(a);
    assert(bytes.skip(a.wire_len()) =~= more_bytes);
    assert((a.fds() + more_fds).skip(a.fds().len() as int) =~= more_fds);
    match a {
        ArgView::Int(i) => {
            lemma_word_round_trip(word_of_int(i), more_bytes);
            lemma_int_round_trip(i);
        },
        ArgView::Uint(u) => {
            lemma_word_round_trip(u, more_bytes);
        },
        ArgView::Fixed(f) => {
            lemma_word_round_trip(word_of_int(f), more_bytes);
            lemma_int_round_trip(f);
        },
        ArgView::Object(o) => {
            lemma_word_round_trip(o, more_bytes);
        },
        ArgView::NewId(n) => {
            lemma_word_round_trip(n, more_bytes);
        },
        ArgView::Str(s) => {
            lemma_blob_round_trip(s, more_bytes);
        },
        ArgView::Array(s) => {
            lemma_blob_round_trip(s, more_bytes);
        },
        ArgView::Fd(fd) => {
            assert((a.fds() + more_fds)[0] == fd);
        },
    }
}

/// Length-prefixed bytes are read back from their wire form, whatever follows it.
proof fn lemma_blob_round_trip(s: Seq<u8>, more_bytes: Seq<u8>)
    requires
        4 + padded(s.len() as int) <= 65535,
    ensures
        word_at(blob_bytes(s) + more_bytes, 0) == s.len(),
        (blob_bytes(s) + more_bytes).len() >= 4 + padded(s.len() as int),
        (blob_bytes(s) + more_bytes).subrange(4, 4 + s.len() as int) == s,
{
    let n = s.len() as u32;
    let tail = s + zeros(padded(s.len() as int) - s.len()) + more_bytes;
    lemma_word_round_trip(n, tail);
    assert(blob_bytes(s) + more_bytes =~= word_bytes(n) + tail);
    assert((word_bytes(n) + tail).subrange(4, 4 + s.len() as int) =~= s);
}

/// A run of arguments is read back from its own payload and descriptors.
pub proof fn lemma_args_round_trip(args: Seq<ArgView>, more_fds: Seq<i32>)
    requires
        args_len(args) <= 65535,
    ensures
        parse_args(args_kinds(args), args_bytes(args), args_fds(args) + more_fds) == Ok::<
            Seq<ArgView>,
            DecodeError,
        >(args),
    decreases args.len(),
{
    let kinds = args_kinds(args);
    if args.len() == 0 {
        assert(args =~= Seq::<ArgView>::empty());
    } else {
        let a = args[0];
        let rest = args.drop_first();
        lemma_args_bytes_len(rest);
        lemma_arg_bytes_len(a);
        let more = args_fds(rest) + more_fds;
        lemma_arg_round_trip(a, args_bytes(rest), more);
        assert(args_fds(args) + more_fds =~= a.fds() + more);
        assert(kinds.drop_first() =~= args_kinds(rest));
        lemma_args_round_trip(rest, more_fds);
        assert(seq![a] + rest =~= args);
    }
}

impl WireCodec {
    /// Decoding the frame of a message gives the message back.
    ///
    /// For every well-formed message that the codec accepts, the frame that
    /// `encode` makes, followed by any further bytes, decodes to that message
    /// and to the length of its frame. The descriptor arguments get the
    /// descriptors that `encode` handed out, each the same and in the same
    /// place. Where the opcode was declared, this holds whatever descriptors
    /// wait behind them; a frame that was not declared would take those too.
    pub proof fn lemma_round_trip(&self, m: MessageView, more_bytes: Seq<u8>, more_fds: Seq<i32>)
        requires
            m.well_formed(),
            self.accepts(m),
            self.shape(m.opcode) is Some || more_fds.len() == 0,
        ensures
            self.spec_decode(frame_bytes(m) + more_bytes, m.fds() + more_fds) == Ok::<
                (MessageView, int),
                DecodeError,
            >((m, m.size())),
    {
        let size = m.size() as u16;
        let buffer = frame_bytes(m) + more_bytes;
        let payload = args_bytes(m.args);
        lemma_args_bytes_len(m.args);
        let after_sender = half_bytes(m.opcode) + half_bytes(size) + payload + more_bytes;
        lemma_word_round_trip(m.sender, after_sender);
        assert(buffer =~= word_bytes(m.sender) + after_sender);
        lemma_half_round_trip(m.opcode, half_bytes(size) + payload + more_bytes);
        lemma_half_round_trip(size, payload + more_bytes);
        assert(half_at(buffer, 4) == m.opcode) by {
            let from = half_bytes(m.opcode) + (half_bytes(size) + payload + more_bytes);
            assert(buffer[4] == from[0]);
            assert(buffer[5] == from[1]);
        }
        assert(half_at(buffer, 6) == size) by {
            let from = half_bytes(size) + (payload + more_bytes);
            assert(buffer[6] == from[0]);
            assert(buffer[7] == from[1]);
        }
        assert(buffer.subrange(8, m.size()) =~= payload);
        if more_fds.len() == 0 {
            assert(m.fds() + more_fds =~= m.fds());
        }
        lemma_args_round_trip(m.args, more_fds);
    }

    /// A decoded message is as long as the frame it came from and carries the
    /// first descriptors of the queue, in order.
    pub proof fn lemma_decode_takes_front(&self, buffer: Seq<u8>, fds: Seq<i32>)
        requires
            self.spec_decode(buffer, fds) is Ok,
        ensures
            ({
                let (m, n) = self.spec_decode(buffer, fds)->Ok_0;
                &&& n == m.size()
                &&& 8 <= n <= buffer.len()
                &&& n <= self.limit()
                &&& m.kinds() == self.kinds_for(m.opcode, n - 8, fds.len() as int)
                &&& m.fds().len() <= fds.len()
                &&& m.fds() == fds.take(m.fds().len() as int)
            }),
    {
        let size = half_at(buffer, 6) as int;
        let opcode = half_at(buffer, 4);
        lemma_parse_args_sound(
            self.kinds_for(opcode, size - 8, fds.len() as int),
            buffer.subrange(8, size),
            fds,
        );
    }

    /// A frame that has not arrived whole is incomplete, not malformed.
    ///
    /// For every well-formed message within the codec's limit, any proper
    /// prefix of its frame decodes to `Incomplete`, whatever descriptors wait.
    pub proof fn lemma_partial_frame(&self, m: MessageView, n: int, fds: Seq<i32>)
        requires
            m.well_formed(),
            m.size() <= self.limit(),
            0 <= n < m.size(),
        ensures
            self.spec_decode(frame_bytes(m).take(n), fds) == Err::<
                (MessageView, int),
                DecodeError,
            >(DecodeError::Incomplete),
    {
        let size = m.size() as u16;
        let frame = frame_bytes(m);
        let part = frame.take(n);
        lemma_args_bytes_len(m.args);
        if n >= 8 {
            let payload = args_bytes(m.args);
            lemma_half_round_trip(size, payload);
            let from = half_bytes(size) + payload;
            assert(part[6] == from[0]);
            assert(part[7] == from[1]);
        }
    }
}

/// The arguments that a payload gives have the kinds asked for, fill the
/// payload and carry the first descriptors of the queue, in order.
pub proof fn lemma_parse_args_sound(kinds: Seq<ArgKind>, bytes: Seq<u8>, fds: Seq<i32>)
    requires
        parse_args(kinds, bytes, fds) is Ok,
    ensures
        args_kinds(parse_args(kinds, bytes, fds)->Ok_0) == kinds,
        args_len(parse_args(kinds, bytes, fds)->Ok_0) == bytes.len(),
        args_fds(parse_args(kinds, bytes, fds)->Ok_0).len() <= fds.len(),
        args_fds(parse_args(kinds, bytes, fds)->Ok_0) == fds.take(
            args_fds(parse_args(kinds, bytes, fds)->Ok_0).len() as int,
        ),
    decreases kinds.len(),
{
    let args = parse_args(kinds, bytes, fds)->Ok_0;
    if kinds.len() == 0 {
        assert(args_kinds(args) =~= kinds);
        assert(args_fds(args) =~= fds.take(0));
    } else {
        let a = parse_arg(kinds[0], bytes, fds)->Ok_0;
        let rest_bytes = bytes.skip(a.wire_len());
        let rest_fds = fds.skip(a.fds().len() as int);
        let rest = parse_args(kinds.drop_first(), rest_bytes, rest_fds)->Ok_0;
        lemma_parse_args_sound(kinds.drop_first(), rest_bytes, rest_fds);
        lemma_arg_bytes_len(a);
        assert(args == seq![a] + rest);
        assert(args.drop_first() =~= rest);
        assert(args[0] == a);
        assert(args_kinds(args) =~= kinds) by {
            assert(args_kinds(rest) == kinds.drop_first());
            assert forall|i: int| 0 <= i < kinds.len() implies args_kinds(args)[i] == kinds[i] by {
                if i > 0 {
                    assert(args_kinds(rest)[i - 1] == kinds.drop_first()[i - 1]);
                }
            }
        }
        let k = args_fds(rest).len() as int;
        assert(args_fds(args) =~= fds.take(a.fds().len() + k)) by {
            assert(args_fds(rest) == rest_fds.take(k));
        }
    }
}

} // verus!
