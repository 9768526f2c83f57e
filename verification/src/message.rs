//! Messages and their typed arguments.

use vstd::prelude::*;
use crate::wire::{copy_of, padded, word_bytes, word_of_int, zeros};

verus! {

/// One of the two peers of a session. A message is named by the side that sent it.
#[derive(Clone, Copy, Debug, PartialEq, Eq, Structural)]
pub enum Side {
    /// The application that connected to the relay.
    Client,
    /// The compositor the relay connected to.
    Server,
}

impl Side {
    /// The peer on the other end.
    pub open spec fn other(self) -> Side {
        match self {
            Side::Client => Side::Server,
            Side::Server => Side::Client,
        }
    }

    /// The peer on the other end.
    pub fn opposite(self) -> (r: Side)
        ensures
            r == self.other(),
    {
        match self {
            Side::Client => Side::Server,
            Side::Server => Side::Client,
        }
    }
}

/// The kind of one argument, which fixes how it lies on the wire.
#[derive(Clone, Copy, Debug, PartialEq, Eq, Structural)]
pub enum ArgKind {
    /// Signed 32-bit integer, one word.
    Int,
    /// Unsigned 32-bit integer, one word.
    Uint,
    /// Signed 24.8 fixed-point number, one word.
    Fixed,
    /// Length-prefixed bytes of a string, padded to a word.
    Str,
    /// Identifier of an existing object, one word; zero stands for no object.
    Object,
    /// Identifier of an object that the message creates, one word.
    NewId,
    /// Length-prefixed bytes, padded to a word.
    Array,
    /// File descriptor: no payload bytes, one descriptor of the ancillary queue.
    Fd,
}

/// One argument of a message.
#[derive(Debug, PartialEq, Eq)]
pub enum Arg {
    /// Signed 32-bit integer.
    Int(i32),
    /// Unsigned 32-bit integer.
    Uint(u32),
    /// Signed 24.8 fixed-point number, as its raw 32 bits.
    Fixed(i32),
    /// The bytes of a string as they travel, terminator included; empty for no string.
    Str(Vec<u8>),
    /// Identifier of an existing object; zero stands for no object.
    Object(u32),
    /// Identifier of an object that the message creates.
    NewId(u32),
    /// Untyped bytes.
    Array(Vec<u8>),
    /// File descriptor that travels with the message.
    Fd(i32),
}

/// Mathematical value of an [`Arg`].
pub enum ArgView {
    Int(i32),
    Uint(u32),
    Fixed(i32),
    Str(Seq<u8>),
    Object(u32),
    NewId(u32),
    Array(Seq<u8>),
    Fd(i32),
}

impl View for Arg {
    type V = ArgView;

    open spec fn view(&self) -> ArgView {
        match *self {
            Arg::Int(i) => ArgView::Int(i),
            Arg::Uint(u) => ArgView::Uint(u),
            Arg::Fixed(f) => ArgView::Fixed(f),
            Arg::Str(s) => ArgView::Str(s@),
            Arg::Object(o) => ArgView::Object(o),
            Arg::NewId(n) => ArgView::NewId(n),
            Arg::Array(a) => ArgView::Array(a@),
            Arg::Fd(fd) => ArgView::Fd(fd),
        }
    }
}

impl Clone for Arg {
    fn clone(&self) -> (r: Arg)
        ensures
            r@ == self@,
    {
        match self {
            Arg::Int(i) => Arg::Int(*i),
            Arg::Uint(u) => Arg::Uint(*u),
            Arg::Fixed(f) => Arg::Fixed(*f),
            Arg::Str(s) => Arg::Str(copy_of(s.as_slice())),
            Arg::Object(o) => Arg::Object(*o),
            Arg::NewId(n) => Arg::NewId(*n),
            Arg::Array(a) => Arg::Array(copy_of(a.as_slice())),
            Arg::Fd(fd) => Arg::Fd(*fd),
        }
    }
}

/// The wire form of length-prefixed bytes: the length, the bytes, zero padding.
pub open spec fn blob_bytes(s: Seq<u8>) -> Seq<u8> {
    word_bytes(s.len() as u32) + s + zeros(padded(s.len() as int) - s.len())
}

impl ArgView {
    /// The kind of this argument.
    pub open spec fn kind(self) -> ArgKind {
        match self {
            ArgView::Int(_) => ArgKind::Int,
            ArgView::Uint(_) => ArgKind::Uint,
            ArgView::Fixed(_) => ArgKind::Fixed,
            ArgView::Str(_) => ArgKind::Str,
            ArgView::Object(_) => ArgKind::Object,
            ArgView::NewId(_) => ArgKind::NewId,
            ArgView::Array(_) => ArgKind::Array,
            ArgView::Fd(_) => ArgKind::Fd,
        }
    }

    /// Number of payload bytes this argument takes.
    pub open spec fn wire_len(self) -> int {
        match self {
            ArgView::Str(s) => 4 + padded(s.len() as int),
            ArgView::Array(a) => 4 + padded(a.len() as int),
            ArgView::Fd(_) => 0,
            _ => 4,
        }
    }

    /// The payload bytes of this argument.
    pub open spec fn bytes(self) -> Seq<u8> {
        match self {
            ArgView::Int(i) => word_bytes(word_of_int(i)),
            ArgView::Uint(u) => word_bytes(u),
            ArgView::Fixed(f) => word_bytes(word_of_int(f)),
            ArgView::Str(s) => blob_bytes(s),
            ArgView::Object(o) => word_bytes(o),
            ArgView::NewId(n) => word_bytes(n),
            ArgView::Array(a) => blob_bytes(a),
            ArgView::Fd(_) => Seq::empty(),
        }
    }

    /// The descriptors this argument carries: one for a descriptor argument, else none.
    pub open spec fn fds(self) -> Seq<i32> {
        match self {
            ArgView::Fd(fd) => seq![fd],
            _ => Seq::empty(),
        }
    }
}

/// The values of a run of arguments.
pub open spec fn view_args(args: Seq<Arg>) -> Seq<ArgView> {
    args.map_values(|a: Arg| a@)
}

/// The kinds of a run of arguments, in order.
pub open spec fn args_kinds(args: Seq<ArgView>) -> Seq<ArgKind> {
    args.map_values(|a: ArgView| a.kind())
}

/// Number of payload bytes a run of arguments takes.
pub open spec fn args_len(args: Seq<ArgView>) -> int
    decreases args.len(),
{
    if args.len() == 0 {
        0
    } else {
        args[0].wire_len() + args_len(args.drop_first())
    }
}

/// The payload of a run of arguments: the bytes of each, in order.
pub open spec fn args_bytes(args: Seq<ArgView>) -> Seq<u8>
    decreases args.len(),
{
    if args.len() == 0 {
        Seq::empty()
    } else {
        args[0].bytes() + args_bytes(args.drop_first())
    }
}

/// The descriptors a run of arguments carries, in argument order.
pub open spec fn args_fds(args: Seq<ArgView>) -> Seq<i32>
    decreases args.len(),
{
    if args.len() == 0 {
        Seq::empty()
    } else {
        args[0].fds() + args_fds(args.drop_first())
    }
}

/// Every argument takes as many bytes as its wire form is long.
pub proof fn lemma_arg_bytes_len(a: ArgView)
    ensures
        a.bytes().len() == a.wire_len(),
        a.wire_len() >= 0,
        a.wire_len() % 4 == 0,
{
}

/// Payload length, payload bytes and descriptors of a run extended by one argument.
pub proof fn lemma_args_push(args: Seq<ArgView>, a: ArgView)
    ensures
        args_len(args.push(a)) == args_len(args) + a.wire_len(),
        args_bytes(args.push(a)) == args_bytes(args) + a.bytes(),
        args_fds(args.push(a)) == args_fds(args) + a.fds(),
    decreases args.len(),
{
    if args.len() == 0 {
        assert(args.push(a).drop_first() =~= args);
        assert(args_bytes(args.push(a)) =~= args_bytes(args) + a.bytes());
        assert(args_fds(args.push(a)) =~= args_fds(args) + a.fds());
    } else {
        lemma_args_push(args.drop_first(), a);
        assert(args.push(a).drop_first() =~= args.drop_first().push(a));
        assert(args_bytes(args.push(a)) =~= args_bytes(args) + a.bytes());
        assert(args_fds(args.push(a)) =~= args_fds(args) + a.fds());
    }
}

/// The payload of a run of arguments is as long as the sum of their lengths.
pub proof fn lemma_args_bytes_len(args: Seq<ArgView>)
    ensures
        args_bytes(args).len() == args_len(args),
        args_len(args) >= 0,
        args_len(args) % 4 == 0,
        args_fds(args).len() <= args.len(),
    decreases args.len(),
{
    if args.len() > 0 {
        lemma_arg_bytes_len(args[0]);
        lemma_args_bytes_len(args.drop_first());
    }
}

/// Mathematical value of a [`Message`].
pub struct MessageView {
    /// Identifier of the object the message is addressed to or sent by.
    pub sender: u32,
    /// Which request or event of that object this is.
    pub opcode: u16,
    /// The arguments, in order.
    pub args: Seq<ArgView>,
}

impl MessageView {
    /// Length of the whole frame: the header and the payload.
    pub open spec fn size(self) -> int {
        8 + args_len(self.args)
    }

    /// A message is well formed when its frame length fits the header's size field.
    pub open spec fn well_formed(self) -> bool {
        self.size() <= 65535
    }

    /// The kinds of the arguments, in order.
    pub open spec fn kinds(self) -> Seq<ArgKind> {
        args_kinds(self.args)
    }

    /// The descriptors that travel with the message, in argument order.
    pub open spec fn fds(self) -> Seq<i32> {
        args_fds(self.args)
    }
}

/// A protocol message: the object it concerns, an opcode and typed arguments.
///
/// A value of this type always has a frame that the header can describe: the
/// only way to make one is [`Message::new`], which refuses arguments that are
/// too long.
#[derive(Debug, PartialEq, Eq)]
pub struct Message {
    sender: u32,
    opcode: u16,
    size: u16,
    args: Vec<Arg>,
}

impl View for Message {
    type V = MessageView;

    closed spec fn view(&self) -> MessageView {
        MessageView { sender: self.sender, opcode: self.opcode, args: view_args(self.args@) }
    }
}

/// Payload bytes of one argument, or `None` when it alone overflows a frame.
fn arg_wire_len(a: &Arg) -> (r: Option<usize>)
    ensures
        match r {
            Some(n) => n == a@.wire_len() && n <= 65535,
            None => a@.wire_len() > 65535,
        },
{
    match a {
        Arg::Str(s) => blob_wire_len(s),
        Arg::Array(b) => blob_wire_len(b),
        Arg::Fd(_) => Some(0),
        _ => Some(4),
    }
}

/// Payload bytes of length-prefixed bytes, or `None` when they overflow a frame.
fn blob_wire_len(s: &Vec<u8>) -> (r: Option<usize>)
    ensures
        match r {
            Some(n) => n == 4 + padded(s@.len() as int) && n <= 65535,
            None => 4 + padded(s@.len() as int) > 65535,
        },
{
    let len = s.len();
    if len > 65531 {
        None
    } else {
        let n = 4 + (len + 3) / 4 * 4;
        if n > 65535 {
            None
        } else {
            Some(n)
        }
    }
}

impl Clone for Message {
    fn clone(&self) -> (r: Message)
        ensures
            r@ == self@,
    {
        proof {
            use_type_invariant(self);
        }
        let mut args: Vec<Arg> = Vec::new();
        let mut i: usize = 0;
        while i < self.args.len()
            invariant
                i <= self.args.len(),
                view_args(args@) == view_args(self.args@).take(i as int),
            decreases self.args.len() - i,
        {
            let ghost before = view_args(args@);
            let a = self.args[i].clone();
            assert(a@ == view_args(self.args@)[i as int]);
            args.push(a);
            assert(view_args(args@) =~= before.push(a@));
            assert(view_args(args@) =~= view_args(self.args@).take(i as int + 1));
            i = i + 1;
        }
        assert(view_args(self.args@).take(i as int) =~= view_args(self.args@));
        Message { sender: self.sender, opcode: self.opcode, size: self.size, args }
    }
}

impl Message {
    #[verifier::type_invariant]
    spec fn frame_fits(&self) -> bool {
        self.size == 8 + args_len(view_args(self.args@))
    }

    /// Makes a message, or `None` when the arguments do not fit one frame.
    pub fn new(sender: u32, opcode: u16, args: Vec<Arg>) -> (r: Option<Message>)
        ensures
            r is Some <==> 8 + args_len(view_args(args@)) <= 65535,
            r matches Some(m) ==> m@ == (MessageView {
                sender,
                opcode,
                args: view_args(args@),
            }),
    {
        let ghost all = view_args(args@);
        let mut total: usize = 8;
        let mut i: usize = 0;
        while i < args.len()
            invariant
                i <= args.len(),
                all == view_args(args@),
                total == 8 + args_len(all.take(i as int)),
                total <= 65535,
            decreases args.len() - i,
        {
            proof {
                lemma_args_push(all.take(i as int), all[i as int]);
                assert(all.take(i as int + 1) =~= all.take(i as int).push(all[i as int]));
                lemma_args_grow(all, i as int + 1);
            }
            match arg_wire_len(&args[i]) {
                None => {
                    return None;
                },
                Some(n) => {
                    if total + n > 65535 {
                        return None;
                    }
                    total = total + n;
                },
            }
            i = i + 1;
        }
        assert(all.take(i as int) =~= all);
        Some(Message { sender, opcode, size: total as u16, args })
    }

    /// Identifier of the object the message is addressed to or sent by.
    pub fn sender_object_id(&self) -> (r: u32)
        ensures
            r == self@.sender,
    {
        self.sender
    }

    /// Which request or event of the object this is.
    pub fn opcode(&self) -> (r: u16)
        ensures
            r == self@.opcode,
    {
        self.opcode
    }

    /// Length of the frame of this message, header included.
    pub fn size(&self) -> (r: u16)
        ensures
            r == self@.size(),
            self@.well_formed(),
    {
        proof {
            use_type_invariant(self);
        }
        self.size
    }

    /// The arguments, in order.
    pub fn args(&self) -> (r: &Vec<Arg>)
        ensures
            view_args(r@) == self@.args,
    {
        &self.args
    }

    /// The descriptors that travel with the message, in argument order.
    pub fn fds(&self) -> (r: Vec<i32>)
        ensures
            r@ == self@.fds(),
    {
        let ghost all = view_args(self.args@);
        let mut out: Vec<i32> = Vec::new();
        let mut i: usize = 0;
        while i < self.args.len()
            invariant
                i <= self.args.len(),
                all == view_args(self.args@),
                out@ == args_fds(all.take(i as int)),
            decreases self.args.len() - i,
        {
            proof {
                lemma_args_push(all.take(i as int), all[i as int]);
                assert(all.take(i as int + 1) =~= all.take(i as int).push(all[i as int]));
            }
            match &self.args[i] {
                Arg::Fd(fd) => {
                    out.push(*fd);
                },
                _ => {},
            }
            i = i + 1;
        }
        assert(all.take(i as int) =~= all);
        out
    }
}

/// A run of arguments is at least as long on the wire as any of its prefixes.
pub proof fn lemma_args_grow(args: Seq<ArgView>, n: int)
    requires
        0 <= n <= args.len(),
    ensures
        args_len(args.take(n)) <= args_len(args),
    decreases args.len() - n,
{
    if n < args.len() {
        lemma_args_push(args.take(n), args[n]);
        assert(args.take(n + 1) =~= args.take(n).push(args[n]));
        lemma_arg_bytes_len(args[n]);
        lemma_args_grow(args, n + 1);
    } else {
        assert(args.take(n) =~= args);
    }
}

} // verus!
