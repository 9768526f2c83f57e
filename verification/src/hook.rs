//! The interception point: what a hook may do with a message on its way.

use vstd::prelude::*;
use crate::message::{Message, MessageView, Side};

verus! {

/// What the relay is to do with a message that a hook has looked at.
pub enum Action {
    /// Send this message on: the one that came, or another in its place.
    Forward(Message),
    /// Send nothing.
    Drop,
    /// Send these messages first, then do as the inner action says.
    Inject(Vec<Message>, Box<Action>),
}

/// The values of a run of messages.
pub open spec fn view_messages(messages: Seq<Message>) -> Seq<MessageView> {
    messages.map_values(|m: Message| m@)
}

impl Action {
    /// The messages that go out when the relay does as the action says, in order.
    pub open spec fn outcome(self) -> Seq<MessageView>
        decreases self,
    {
        match self {
            Action::Forward(m) => seq![m@],
            Action::Drop => Seq::empty(),
            Action::Inject(first, then) => view_messages(first@) + then.outcome(),
        }
    }

    /// The messages that go out when the relay does as the action says, in order.
    pub fn into_messages(self) -> (r: Vec<Message>)
        ensures
            view_messages(r@) == self.outcome(),
    {
        let mut out: Vec<Message> = Vec::new();
        self.unfold_into(&mut out);
        assert(Seq::<MessageView>::empty() + self.outcome() =~= self.outcome());
        out
    }

    /// Appends the messages of this action to `out`.
    fn unfold_into(self, out: &mut Vec<Message>)
        ensures
            view_messages(final(out)@) == view_messages(old(out)@) + self.outcome(),
        decreases self,
    {
        match self {
            Action::Forward(m) => {
                out.push(m);
                assert(view_messages(out@) =~= view_messages(old(out)@) + seq![m@]);
            },
            Action::Drop => {
                assert(view_messages(out@) =~= view_messages(old(out)@) + Seq::<
                    MessageView,
                >::empty());
            },
            Action::Inject(first, then) => {
                let mut first = first;
                let ghost injected = view_messages(first@);
                out.append(&mut first);
                assert(view_messages(out@) =~= view_messages(old(out)@) + injected);
                let inner = *then;
                inner.unfold_into(out);
                assert(view_messages(out@) =~= view_messages(old(out)@) + (injected
                    + inner.outcome()));
            },
        }
    }
}

/// A hook that looks at every decoded message before the relay sends it on.
///
/// `from` is the side that sent the message. The hook runs on the relay's own
/// path, between decoding and queueing, so it must not block. The descriptors
/// of the message stay the relay's: a hook may leave one out, and the relay
/// closes it, but it may not bring in a descriptor that did not come with the
/// message, nor use one twice.
///
/// A hook is free in what it answers. It may say of its answers what it
/// keeps to, in `may_answer`; the relay then states of itself what follows
/// from that. A hook that says nothing there has nothing to prove.
pub trait InterceptionHook {
    /// What the hook says of its own answers: whether `outcome` may be what
    /// its answer to `message` sends. A hook that does not say binds itself
    /// to nothing. What a hook says here does not change while it runs.
    open spec fn may_answer(
        &self,
        from: Side,
        message: MessageView,
        outcome: Seq<MessageView>,
    ) -> bool {
        true
    }

    /// Decides what becomes of `message`.
    fn inspect(&mut self, from: Side, message: Message) -> (action: Action)
        ensures
            old(self).may_answer(from, message@, action.outcome()),
            forall|f: Side, m: MessageView, o: Seq<MessageView>|
                #[trigger] final(self).may_answer(f, m, o) == old(self).may_answer(f, m, o),
    ;
}

/// What `hook` says of its answers, as a relation of its own.
pub open spec fn rule_of<H: InterceptionHook>(hook: H) -> spec_fn(
    Side,
    MessageView,
    Seq<MessageView>,
) -> bool {
    |f: Side, m: MessageView, o: Seq<MessageView>| hook.may_answer(f, m, o)
}

/// Whether a hook that keeps to `rule` sends every message on as it came.
pub open spec fn passes_all(rule: spec_fn(Side, MessageView, Seq<MessageView>) -> bool) -> bool {
    forall|f: Side, m: MessageView, o: Seq<MessageView>| #[trigger] rule(f, m, o) ==> o == seq![m]
}

/// The hook that lets every message through as it came.
pub struct PassThrough;

/// The hook that lets every message through says so of its answers.
pub proof fn lemma_pass_through_passes_all(hook: PassThrough)
    ensures
        passes_all(rule_of(hook)),
{
}

impl InterceptionHook for PassThrough {
    open spec fn may_answer(
        &self,
        from: Side,
        message: MessageView,
        outcome: Seq<MessageView>,
    ) -> bool {
        outcome == seq![message]
    }

    fn inspect(&mut self, from: Side, message: Message) -> (action: Action)
        ensures
            action == Action::Forward(message),
    {
        Action::Forward(message)
    }
}

} // verus!
