//! The table of object identifiers of one session.
//!
//! Both peers name protocol objects by 32-bit identifiers and each peer
//! allocates from a range of its own. The registry follows the messages that
//! pass and refuses one that names a destroyed object, allocates outside the
//! sender's range, or allocates an identifier that is still live.
//!
//! An identifier is unknown until a message creates or destroys it. Messages
//! may name unknown objects: the registry learns of an object only from a
//! message whose arguments were declared, and not every message need be.

use std::collections::HashMap;
use std::collections::HashSet;
use vstd::prelude::*;
use crate::message::{view_args, Arg, ArgView, Message, MessageView, Side};

verus! {

/// Identifier of the display object, which exists from the start of every connection.
pub const DISPLAY_ID: u32 = 1;

/// The first identifier of the range the server allocates from.
pub const SERVER_ID_BASE: u32 = 0xFF00_0000;

/// What the registry knows of one identifier.
#[derive(Clone, Copy, Debug, PartialEq, Eq, Structural)]
pub struct ObjectRecord {
    /// The identifier.
    pub id: u32,
    /// The side whose message created the object.
    pub created_by: Side,
    /// False once a destroying message has passed.
    pub alive: bool,
}

/// A message that breaks the rules of the identifier space.
#[derive(Clone, Copy, Debug, PartialEq, Eq, Structural)]
pub enum ProtocolViolation {
    /// The message names, as its object or in an object argument, a destroyed object.
    DeadReference { id: u32 },
    /// The message creates an identifier outside the range of the side that sent it.
    OutOfRange { id: u32 },
    /// The message creates an identifier that is still live.
    DoubleAllocation { id: u32 },
}

/// Whether `id` names a live object.
pub open spec fn is_live(records: Map<u32, ObjectRecord>, id: u32) -> bool {
    records.contains_key(id) && records[id].alive
}

/// Whether `id` names an object that was destroyed and not created anew.
pub open spec fn is_dead(records: Map<u32, ObjectRecord>, id: u32) -> bool {
    records.contains_key(id) && !records[id].alive
}

/// The side whose range holds `id`.
pub open spec fn range_owner(id: u32) -> Side {
    if id >= SERVER_ID_BASE {
        Side::Server
    } else {
        Side::Client
    }
}

/// Whether `side` may allocate `id`: clients below the server's base, never zero.
pub open spec fn in_range(side: Side, id: u32) -> bool {
    match side {
        Side::Client => 1 <= id < SERVER_ID_BASE,
        Side::Server => SERVER_ID_BASE <= id,
    }
}

/// Whether the argument names a destroyed object. Zero names no object.
pub open spec fn dead_argument(records: Map<u32, ObjectRecord>, a: ArgView) -> bool {
    a matches ArgView::Object(id) && id != 0 && is_dead(records, id)
}

/// The first object argument that names a destroyed object, if there is one.
pub open spec fn first_dead_argument(records: Map<u32, ObjectRecord>, args: Seq<ArgView>) -> Option<
    u32,
>
    decreases args.len(),
{
    if args.len() == 0 {
        None
    } else if dead_argument(records, args[0]) {
        Some(args[0]->Object_0)
    } else {
        first_dead_argument(records, args.drop_first())
    }
}

/// The records after `side` sent argument `a`: a new identifier gets a live record.
pub open spec fn allocate(records: Map<u32, ObjectRecord>, side: Side, a: ArgView) -> Result<
    Map<u32, ObjectRecord>,
    ProtocolViolation,
> {
    match a {
        ArgView::NewId(id) => if !in_range(side, id) {
            Err(ProtocolViolation::OutOfRange { id })
        } else if is_live(records, id) {
            Err(ProtocolViolation::DoubleAllocation { id })
        } else {
            Ok(records.insert(id, ObjectRecord { id, created_by: side, alive: true }))
        },
        _ => Ok(records),
    }
}

/// The records after `side` sent `args`, one after the other.
pub open spec fn allocate_all(
    records: Map<u32, ObjectRecord>,
    side: Side,
    args: Seq<ArgView>,
) -> Result<Map<u32, ObjectRecord>, ProtocolViolation>
    decreases args.len(),
{
    if args.len() == 0 {
        Ok(records)
    } else {
        match allocate(records, side, args[0]) {
            Err(v) => Err(v),
            Ok(next) => allocate_all(next, side, args.drop_first()),
        }
    }
}

/// `records` with the object `id` marked as destroyed. An object that was
/// unknown so far is put down to the side whose range holds its identifier.
pub open spec fn retire(records: Map<u32, ObjectRecord>, id: u32) -> Map<u32, ObjectRecord> {
    let created_by = if records.contains_key(id) {
        records[id].created_by
    } else {
        range_owner(id)
    };
    records.insert(id, ObjectRecord { id, created_by, alive: false })
}

/// The records after the message `m` of `side` has passed, or why it may not pass.
///
/// The object of the message and every object argument are looked up in the
/// records as they were before the message. Then the new identifiers are
/// allocated in argument order. Last, a destroying message retires its object.
pub open spec fn observe(
    records: Map<u32, ObjectRecord>,
    side: Side,
    m: MessageView,
    destroys: bool,
) -> Result<Map<u32, ObjectRecord>, ProtocolViolation> {
    if is_dead(records, m.sender) {
        Err(ProtocolViolation::DeadReference { id: m.sender })
    } else if let Some(id) = first_dead_argument(records, m.args) {
        Err(ProtocolViolation::DeadReference { id })
    } else {
        match allocate_all(records, side, m.args) {
            Err(v) => Err(v),
            Ok(after) => Ok(
                if destroys {
                    retire(after, m.sender)
                } else {
                    after
                },
            ),
        }
    }
}

/// Whether every record is filed under its own identifier.
pub open spec fn keyed(records: Map<u32, ObjectRecord>) -> bool {
    forall|id: u32| records.contains_key(id) ==> (#[trigger] records[id]).id == id
}

/// The records of a connection on which nothing has passed yet: the display object alone.
pub open spec fn initial_records() -> Map<u32, ObjectRecord> {
    Map::<u32, ObjectRecord>::empty().insert(
        DISPLAY_ID,
        ObjectRecord { id: DISPLAY_ID, created_by: Side::Client, alive: true },
    )
}

/// `records` as they were before the insertion that `step` remembers.
pub open spec fn restored(
    records: Map<u32, ObjectRecord>,
    step: (u32, Option<ObjectRecord>),
) -> Map<u32, ObjectRecord> {
    match step.1 {
        Some(r) => records.insert(step.0, r),
        None => records.remove(step.0),
    }
}

/// The identifier table of one session.
pub struct ObjectRegistry {
    records: HashMap<u32, ObjectRecord>,
    client_destructors: HashSet<u16>,
    server_destructors: HashSet<u16>,
}

impl View for ObjectRegistry {
    type V = Map<u32, ObjectRecord>;

    closed spec fn view(&self) -> Map<u32, ObjectRecord> {
        self.records@
    }
}

impl ObjectRegistry {
    /// The destroying messages, each as the side that sends it and its opcode.
    pub closed spec fn destructors(&self) -> Set<(Side, u16)> {
        Set::new(
            |p: (Side, u16)|
                match p.0 {
                    Side::Client => self.client_destructors@.contains(p.1),
                    Side::Server => self.server_destructors@.contains(p.1),
                },
        )
    }

    /// Whether a message of `side` with `opcode` destroys the object it is sent on.
    pub open spec fn destroys(&self, side: Side, opcode: u16) -> bool {
        self.destructors().contains((side, opcode))
    }

    /// Whether `id` names a live object.
    pub open spec fn live(&self, id: u32) -> bool {
        is_live(self@, id)
    }

    /// What holds of a registry between any two calls: every record is filed
    /// under its own identifier.
    pub open spec fn wf(&self) -> bool {
        keyed(self@)
    }

    /// A registry that holds the display object and knows no destroying opcode.
    pub fn new() -> (r: ObjectRegistry)
        ensures
            r.wf(),
            r@ == initial_records(),
            r.destructors() == Set::<(Side, u16)>::empty(),
    {
        let mut records: HashMap<u32, ObjectRecord> = HashMap::new();
        records.insert(
            DISPLAY_ID,
            ObjectRecord { id: DISPLAY_ID, created_by: Side::Client, alive: true },
        );
        let r = ObjectRegistry {
            records,
            client_destructors: HashSet::new(),
            server_destructors: HashSet::new(),
        };
        assert(r.destructors() =~= Set::<(Side, u16)>::empty());
        r
    }

    /// Declares that a message of `side` with `opcode` destroys the object it is sent on.
    pub fn declare_destructor(&mut self, side: Side, opcode: u16)
        ensures
            final(self)@ == old(self)@,
            final(self).destructors() == old(self).destructors().insert((side, opcode)),
    {
        match side {
            Side::Client => {
                self.client_destructors.insert(opcode);
            },
            Side::Server => {
                self.server_destructors.insert(opcode);
            },
        }
        assert(self.destructors() =~= old(self).destructors().insert((side, opcode)));
    }

    /// Whether a message of `side` with `opcode` destroys the object it is sent on.
    pub fn is_destructor(&self, side: Side, opcode: u16) -> (r: bool)
        ensures
            r == self.destroys(side, opcode),
    {
        match side {
            Side::Client => self.client_destructors.contains(&opcode),
            Side::Server => self.server_destructors.contains(&opcode),
        }
    }

    /// Whether `id` names a live object.
    pub fn is_live(&self, id: u32) -> (r: bool)
        ensures
            r == self.live(id),
    {
        match self.records.get(&id) {
            Some(record) => record.alive,
            None => false,
        }
    }

    /// Whether `id` names an object that was destroyed and not created anew.
    pub fn is_dead(&self, id: u32) -> (r: bool)
        ensures
            r == is_dead(self@, id),
    {
        match self.records.get(&id) {
            Some(record) => !record.alive,
            None => false,
        }
    }

    /// What the registry knows of `id`: nothing, a live object or a destroyed one.
    pub fn record(&self, id: u32) -> (r: Option<ObjectRecord>)
        requires
            self.wf(),
        ensures
            r == (if self@.contains_key(id) {
                Some(self@[id])
            } else {
                None
            }),
            r matches Some(record) ==> record.id == id,
    {
        match self.records.get(&id) {
            Some(record) => Some(*record),
            None => None,
        }
    }

    /// Forgets every record, the display object included.
    pub fn clear(&mut self)
        ensures
            final(self).wf(),
            final(self)@ == Map::<u32, ObjectRecord>::empty(),
            final(self).destructors() == old(self).destructors(),
    {
        self.records.clear();
    }

    /// Follows one message that `side` sent.
    ///
    /// On success the records are those that [`observe`] gives. On a
    /// violation nothing changes: the allocations that the message had made
    /// before the violation was found are taken back.
    pub fn on_message_observed(&mut self, side: Side, message: &Message) -> (r: Result<
        (),
        ProtocolViolation,
    >)
        requires
            old(self).wf(),
        ensures
            final(self).wf(),
            match observe(
                old(self)@,
                side,
                message@,
                old(self).destroys(side, message@.opcode),
            ) {
                Ok(after) => r is Ok && final(self)@ == after,
                Err(v) => r == Err::<(), ProtocolViolation>(v) && final(self)@ == old(self)@,
            },
            final(self).destructors() == old(self).destructors(),
    {
        proof {
            lemma_observe_keeps_keyed(
                self@,
                side,
                message@,
                self.destroys(side, message@.opcode),
            );
        }
        let sender = message.sender_object_id();
        if self.is_dead(sender) {
            return Err(ProtocolViolation::DeadReference { id: sender });
        }
        let args = message.args();
        let ghost all = view_args(args@);
        let ghost before = self@;
        let mut i: usize = 0;
        assert(all.skip(0) =~= all);
        while i < args.len()
            invariant
                i <= args.len(),
                all == view_args(args@),
                all == message@.args,
                sender == message@.sender,
                !is_dead(before, sender),
                keyed(before),
                self@ == before,
                before == old(self)@,
                first_dead_argument(before, all) == first_dead_argument(before, all.skip(i as int)),
            decreases args.len() - i,
        {
            assert(all.skip(i as int).drop_first() =~= all.skip(i as int + 1));
            assert(all.skip(i as int)[0] == all[i as int]);
            match &args[i] {
                Arg::Object(id) => {
                    if *id != 0 && self.is_dead(*id) {
                        return Err(ProtocolViolation::DeadReference { id: *id });
                    }
                },
                _ => {},
            }
            i = i + 1;
        }
        assert(all.skip(i as int) =~= Seq::<ArgView>::empty());
        let mut undo: Vec<(u32, Option<ObjectRecord>)> = Vec::new();
        let ghost mut trail: Seq<Map<u32, ObjectRecord>> = seq![before];
        let mut k: usize = 0;
        assert(all.skip(0) =~= all);
        while k < args.len()
            invariant
                k <= args.len(),
                all == view_args(args@),
                all == message@.args,
                sender == message@.sender,
                !is_dead(before, sender),
                keyed(before),
                before == old(self)@,
                first_dead_argument(before, all) is None,
                old(self).client_destructors == self.client_destructors,
                old(self).server_destructors == self.server_destructors,
                allocate_all(before, side, all) == allocate_all(self@, side, all.skip(k as int)),
                trail.len() == undo@.len() + 1,
                trail[0] == before,
                trail.last() == self@,
                forall|j: int|
                    0 <= j < undo@.len() ==> trail[j] == restored(
                        trail[j + 1],
                        #[trigger] undo@[j],
                    ),
            decreases args.len() - k,
        {
            assert(all.skip(k as int).drop_first() =~= all.skip(k as int + 1));
            assert(all.skip(k as int)[0] == all[k as int]);
            match &args[k] {
                Arg::NewId(id) => {
                    let id = *id;
                    let allowed = match side {
                        Side::Client => 1 <= id && id < SERVER_ID_BASE,
                        Side::Server => SERVER_ID_BASE <= id,
                    };
                    if !allowed {
                        self.roll_back(undo, Ghost(trail));
                        return Err(ProtocolViolation::OutOfRange { id });
                    }
                    if self.is_live(id) {
                        self.roll_back(undo, Ghost(trail));
                        return Err(ProtocolViolation::DoubleAllocation { id });
                    }
                    let ghost current = self@;
                    let previous = self.records.insert(
                        id,
                        ObjectRecord { id, created_by: side, alive: true },
                    );
                    undo.push((id, previous));
                    proof {
                        assert(restored(self@, (id, previous)) =~= current);
                        trail = trail.push(self@);
                    }
                },
                _ => {},
            }
            k = k + 1;
        }
        assert(all.skip(k as int) =~= Seq::<ArgView>::empty());
        if self.is_destructor(side, message.opcode()) {
            let created_by = match self.records.get(&sender) {
                Some(record) => record.created_by,
                None => if sender >= SERVER_ID_BASE {
                    Side::Server
                } else {
                    Side::Client
                },
            };
            self.records.insert(sender, ObjectRecord { id: sender, created_by, alive: false });
        }
        Ok(())
    }

    /// Takes back the insertions that `undo` remembers, the last one first.
    fn roll_back(
        &mut self,
        undo: Vec<(u32, Option<ObjectRecord>)>,
        Ghost(trail): Ghost<Seq<Map<u32, ObjectRecord>>>,
    )
        requires
            trail.len() == undo@.len() + 1,
            trail.last() == old(self)@,
            forall|j: int|
                0 <= j < undo@.len() ==> trail[j] == restored(trail[j + 1], #[trigger] undo@[j]),
        ensures
            final(self)@ == trail[0],
            final(self).client_destructors == old(self).client_destructors,
            final(self).server_destructors == old(self).server_destructors,
    {
        let mut left: usize = undo.len();
        while left > 0
            invariant
                left <= undo@.len(),
                trail.len() == undo@.len() + 1,
                self@ == trail[left as int],
                self.client_destructors == old(self).client_destructors,
                self.server_destructors == old(self).server_destructors,
                forall|j: int|
                    0 <= j < undo@.len() ==> trail[j] == restored(
                        trail[j + 1],
                        #[trigger] undo@[j],
                    ),
            decreases left,
        {
            left = left - 1;
            let (id, previous) = undo[left];
            match previous {
                Some(record) => {
                    self.records.insert(id, record);
                },
                None => {
                    self.records.remove(&id);
                },
            }
        }
    }
}

/// Whether the message names the object `id`: as the object it is sent on, or in an object
/// argument. Zero in an argument names no object.
pub open spec fn names(m: MessageView, id: u32) -> bool {
    m.sender == id || (id != 0 && m.args.contains(ArgView::Object(id)))
}

/// Whether the message creates no object.
pub open spec fn creates_nothing(m: MessageView) -> bool {
    forall|i: int| 0 <= i < m.args.len() ==> !(#[trigger] m.args[i] is NewId)
}

/// Whether the message names no destroyed object.
pub open spec fn names_no_dead(records: Map<u32, ObjectRecord>, m: MessageView) -> bool {
    &&& !is_dead(records, m.sender)
    &&& forall|i: int| 0 <= i < m.args.len() ==> !dead_argument(records, #[trigger] m.args[i])
}

/// The search for an argument that names a destroyed object finds one exactly when there is one.
pub proof fn lemma_first_dead_argument(records: Map<u32, ObjectRecord>, args: Seq<ArgView>)
    ensures
        first_dead_argument(records, args) is None <==> forall|i: int|
            0 <= i < args.len() ==> !dead_argument(records, #[trigger] args[i]),
        first_dead_argument(records, args) matches Some(id) ==> id != 0 && is_dead(records, id)
            && args.contains(ArgView::Object(id)),
    decreases args.len(),
{
    if args.len() > 0 {
        let rest = args.drop_first();
        lemma_first_dead_argument(records, rest);
        if dead_argument(records, args[0]) {
            assert(args.contains(args[0]));
        } else {
            if first_dead_argument(records, rest) is None {
                assert forall|i: int| 0 <= i < args.len() implies !dead_argument(
                    records,
                    #[trigger] args[i],
                ) by {
                    if i > 0 {
                        assert(rest[i - 1] == args[i]);
                    }
                }
            } else {
                let id = first_dead_argument(records, rest)->0;
                let i = choose|i: int| 0 <= i < rest.len() && rest[i] == ArgView::Object(id);
                assert(args[i + 1] == ArgView::Object(id));
                assert(dead_argument(records, args[i + 1]));
            }
        }
    }
}

/// Arguments that create nothing leave the records as they are.
pub proof fn lemma_allocate_nothing(records: Map<u32, ObjectRecord>, side: Side, args: Seq<ArgView>)
    requires
        forall|i: int| 0 <= i < args.len() ==> !(#[trigger] args[i] is NewId),
    ensures
        allocate_all(records, side, args) == Ok::<Map<u32, ObjectRecord>, ProtocolViolation>(
            records,
        ),
    decreases args.len(),
{
    if args.len() > 0 {
        let rest = args.drop_first();
        assert(!(args[0] is NewId));
        assert forall|i: int| 0 <= i < rest.len() implies !(#[trigger] rest[i] is NewId) by {
            assert(rest[i] == args[i + 1]);
        }
        lemma_allocate_nothing(records, side, rest);
    }
}

/// Allocation keeps every record under its own identifier.
pub proof fn lemma_allocate_keeps_keyed(
    records: Map<u32, ObjectRecord>,
    side: Side,
    args: Seq<ArgView>,
)
    requires
        keyed(records),
        allocate_all(records, side, args) is Ok,
    ensures
        keyed(allocate_all(records, side, args)->Ok_0),
    decreases args.len(),
{
    if args.len() > 0 {
        let next = allocate(records, side, args[0])->Ok_0;
        lemma_allocate_keeps_keyed(next, side, args.drop_first());
    }
}

/// A message that passes keeps every record under its own identifier.
pub proof fn lemma_observe_keeps_keyed(
    records: Map<u32, ObjectRecord>,
    side: Side,
    m: MessageView,
    destroys: bool,
)
    requires
        keyed(records),
    ensures
        observe(records, side, m, destroys) matches Ok(after) ==> keyed(after),
{
    if observe(records, side, m, destroys) is Ok {
        lemma_allocate_keeps_keyed(records, side, m.args);
    }
}

/// An object is destroyed once its destroying message has passed.
pub proof fn lemma_destroy_retires(records: Map<u32, ObjectRecord>, side: Side, m: MessageView)
    requires
        observe(records, side, m, true) is Ok,
    ensures
        is_dead(observe(records, side, m, true)->Ok_0, m.sender),
        !is_live(observe(records, side, m, true)->Ok_0, m.sender),
{
}

/// A message that names a destroyed object is refused, whoever sends it and
/// whatever else it holds.
pub proof fn lemma_dead_reference_refused(
    records: Map<u32, ObjectRecord>,
    side: Side,
    m: MessageView,
    destroys: bool,
    id: u32,
)
    requires
        is_dead(records, id),
        names(m, id),
    ensures
        observe(records, side, m, destroys) matches Err(ProtocolViolation::DeadReference { .. }),
{
    if m.sender != id {
        lemma_first_dead_argument(records, m.args);
        let i = choose|i: int| 0 <= i < m.args.len() && m.args[i] == ArgView::Object(id);
        assert(dead_argument(records, m.args[i]));
    }
}

/// A message that creates nothing and names no destroyed object passes, and
/// changes nothing but that a destroying message retires its object.
pub proof fn lemma_reference_passes(
    records: Map<u32, ObjectRecord>,
    side: Side,
    m: MessageView,
    destroys: bool,
)
    requires
        names_no_dead(records, m),
        creates_nothing(m),
    ensures
        observe(records, side, m, destroys) == Ok::<Map<u32, ObjectRecord>, ProtocolViolation>(
            if destroys {
                retire(records, m.sender)
            } else {
                records
            },
        ),
{
    lemma_first_dead_argument(records, m.args);
    lemma_allocate_nothing(records, side, m.args);
}

/// The life of an identifier.
///
/// Before its destroying message, an object can be named: the destroying
/// message itself passed, so the object was not destroyed then. Once that
/// message has passed, every message that names the object is refused as a
/// reference to a destroyed object, from either side, until the identifier
/// is allocated anew.
pub proof fn lemma_id_lifecycle(
    records: Map<u32, ObjectRecord>,
    side: Side,
    destroying: MessageView,
    later_side: Side,
    later: MessageView,
    later_destroys: bool,
)
    requires
        observe(records, side, destroying, true) is Ok,
        names(later, destroying.sender),
    ensures
        !is_dead(records, destroying.sender),
        observe(observe(records, side, destroying, true)->Ok_0, later_side, later, later_destroys)
            matches Err(ProtocolViolation::DeadReference { .. }),
{
    let after = observe(records, side, destroying, true)->Ok_0;
    lemma_destroy_retires(records, side, destroying);
    lemma_dead_reference_refused(after, later_side, later, later_destroys, destroying.sender);
}

} // verus!
