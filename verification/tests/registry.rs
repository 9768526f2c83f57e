use wlt_mitm::message::{Arg, Message, Side};
use wlt_mitm::registry::{ObjectRecord, ObjectRegistry, ProtocolViolation, DISPLAY_ID, SERVER_ID_BASE};

fn message(sender: u32, opcode: u16, args: Vec<Arg>) -> Message {
    Message::new(sender, opcode, args).unwrap()
}

#[test]
fn only_the_display_object_is_live_at_the_start() {
    let registry = ObjectRegistry::new();
    assert!(registry.is_live(DISPLAY_ID));
    assert!(!registry.is_live(0));
    assert!(!registry.is_live(2));
    assert!(!registry.is_live(SERVER_ID_BASE));
    assert_eq!(
        registry.record(1),
        Some(ObjectRecord { id: 1, created_by: Side::Client, alive: true })
    );
    assert_eq!(registry.record(2), None);
}

#[test]
fn a_new_id_is_live_and_owned_by_its_sender() {
    let mut registry = ObjectRegistry::new();
    assert_eq!(
        registry.on_message_observed(Side::Client, &message(1, 1, vec![Arg::NewId(2)])),
        Ok(())
    );
    assert!(registry.is_live(2));
    assert_eq!(
        registry.record(2),
        Some(ObjectRecord { id: 2, created_by: Side::Client, alive: true })
    );
    assert_eq!(
        registry
            .on_message_observed(Side::Server, &message(2, 0, vec![Arg::NewId(SERVER_ID_BASE)])),
        Ok(())
    );
    assert_eq!(
        registry.record(SERVER_ID_BASE),
        Some(ObjectRecord { id: SERVER_ID_BASE, created_by: Side::Server, alive: true })
    );
}

#[test]
fn the_life_of_an_identifier() {
    let mut registry = ObjectRegistry::new();
    registry.declare_destructor(Side::Client, 1);
    // the client creates object 3
    assert_eq!(
        registry.on_message_observed(Side::Client, &message(1, 0, vec![Arg::NewId(3)])),
        Ok(())
    );
    assert!(registry.is_live(3));
    assert_eq!(registry.record(3).unwrap().created_by, Side::Client);
    // both sides may name it
    assert_eq!(registry.on_message_observed(Side::Server, &message(3, 0, vec![])), Ok(()));
    assert_eq!(
        registry.on_message_observed(Side::Server, &message(1, 5, vec![Arg::Object(3)])),
        Ok(())
    );
    assert_eq!(registry.on_message_observed(Side::Client, &message(3, 4, vec![])), Ok(()));
    assert!(registry.is_live(3));
    // the client destroys it
    assert_eq!(registry.on_message_observed(Side::Client, &message(3, 1, vec![])), Ok(()));
    assert!(!registry.is_live(3));
    assert!(registry.is_dead(3));
    assert_eq!(
        registry.record(3),
        Some(ObjectRecord { id: 3, created_by: Side::Client, alive: false })
    );
    // nobody may name it any more
    let dead = Err(ProtocolViolation::DeadReference { id: 3 });
    assert_eq!(registry.on_message_observed(Side::Server, &message(3, 0, vec![])), dead);
    assert_eq!(registry.on_message_observed(Side::Client, &message(3, 0, vec![])), dead);
    assert_eq!(registry.on_message_observed(Side::Client, &message(3, 1, vec![])), dead);
    assert_eq!(
        registry.on_message_observed(Side::Server, &message(1, 5, vec![Arg::Object(3)])),
        dead
    );
    assert_eq!(
        registry.on_message_observed(Side::Client, &message(1, 5, vec![Arg::Object(3)])),
        dead
    );
}

#[test]
fn an_unknown_object_may_be_named() {
    let mut registry = ObjectRegistry::new();
    assert!(!registry.is_live(7));
    assert!(!registry.is_dead(7));
    assert_eq!(registry.on_message_observed(Side::Client, &message(7, 0, vec![])), Ok(()));
    assert_eq!(
        registry.on_message_observed(Side::Server, &message(1, 0, vec![Arg::Object(9)])),
        Ok(())
    );
    // naming an object does not make it known
    assert_eq!(registry.record(7), None);
    assert_eq!(registry.record(9), None);
}

#[test]
fn an_unknown_object_can_be_destroyed() {
    let mut registry = ObjectRegistry::new();
    registry.declare_destructor(Side::Client, 0);
    registry.declare_destructor(Side::Server, 0);
    assert_eq!(registry.on_message_observed(Side::Client, &message(7, 0, vec![])), Ok(()));
    assert!(registry.is_dead(7));
    assert_eq!(
        registry.record(7),
        Some(ObjectRecord { id: 7, created_by: Side::Client, alive: false })
    );
    assert_eq!(
        registry.on_message_observed(Side::Server, &message(7, 3, vec![])),
        Err(ProtocolViolation::DeadReference { id: 7 })
    );
    // an unknown object is put down to the side whose range holds it
    assert_eq!(
        registry.on_message_observed(Side::Client, &message(SERVER_ID_BASE + 4, 0, vec![])),
        Ok(())
    );
    assert_eq!(
        registry.record(SERVER_ID_BASE + 4),
        Some(ObjectRecord { id: SERVER_ID_BASE + 4, created_by: Side::Server, alive: false })
    );
    assert_eq!(registry.on_message_observed(Side::Server, &message(1, 0, vec![])), Ok(()));
    assert_eq!(
        registry.record(1),
        Some(ObjectRecord { id: 1, created_by: Side::Client, alive: false })
    );
}

#[test]
fn zero_in_an_object_argument_names_no_object() {
    let mut registry = ObjectRegistry::new();
    assert_eq!(
        registry.on_message_observed(Side::Server, &message(1, 0, vec![Arg::Object(0)])),
        Ok(())
    );
}

#[test]
fn each_side_allocates_in_its_own_range() {
    let mut registry = ObjectRegistry::new();
    let out = |id| Err(ProtocolViolation::OutOfRange { id });
    assert_eq!(
        registry.on_message_observed(Side::Client, &message(1, 0, vec![Arg::NewId(0)])),
        out(0)
    );
    assert_eq!(
        registry
            .on_message_observed(Side::Client, &message(1, 0, vec![Arg::NewId(SERVER_ID_BASE)])),
        out(SERVER_ID_BASE)
    );
    assert_eq!(
        registry.on_message_observed(Side::Client, &message(1, 0, vec![Arg::NewId(u32::MAX)])),
        out(u32::MAX)
    );
    assert_eq!(
        registry.on_message_observed(
            Side::Server,
            &message(1, 0, vec![Arg::NewId(SERVER_ID_BASE - 1)])
        ),
        out(SERVER_ID_BASE - 1)
    );
    assert_eq!(
        registry.on_message_observed(Side::Server, &message(1, 0, vec![Arg::NewId(2)])),
        out(2)
    );
    assert_eq!(
        registry.on_message_observed(
            Side::Client,
            &message(1, 0, vec![Arg::NewId(SERVER_ID_BASE - 1)])
        ),
        Ok(())
    );
    assert_eq!(
        registry.on_message_observed(Side::Server, &message(1, 0, vec![Arg::NewId(u32::MAX)])),
        Ok(())
    );
}

#[test]
fn a_live_identifier_cannot_be_allocated_again() {
    let mut registry = ObjectRegistry::new();
    assert_eq!(
        registry.on_message_observed(Side::Client, &message(1, 0, vec![Arg::NewId(1)])),
        Err(ProtocolViolation::DoubleAllocation { id: 1 })
    );
    assert_eq!(
        registry.on_message_observed(Side::Client, &message(1, 0, vec![Arg::NewId(4)])),
        Ok(())
    );
    assert_eq!(
        registry.on_message_observed(Side::Client, &message(1, 0, vec![Arg::NewId(4)])),
        Err(ProtocolViolation::DoubleAllocation { id: 4 })
    );
}

#[test]
fn a_refused_message_changes_nothing() {
    let mut registry = ObjectRegistry::new();
    registry.declare_destructor(Side::Client, 9);
    // two allocations pass, the third repeats the first
    let bad = message(1, 9, vec![Arg::NewId(5), Arg::NewId(6), Arg::NewId(5)]);
    assert_eq!(
        registry.on_message_observed(Side::Client, &bad),
        Err(ProtocolViolation::DoubleAllocation { id: 5 })
    );
    assert!(!registry.is_live(5));
    assert!(!registry.is_live(6));
    assert_eq!(registry.record(5), None);
    assert_eq!(registry.record(6), None);
    assert!(registry.is_live(1));
    // the allocation of a destroyed identifier is taken back to the destroyed record
    assert_eq!(
        registry.on_message_observed(Side::Client, &message(1, 0, vec![Arg::NewId(7)])),
        Ok(())
    );
    assert_eq!(registry.on_message_observed(Side::Client, &message(7, 9, vec![])), Ok(()));
    let bad = message(1, 0, vec![Arg::NewId(7), Arg::NewId(0)]);
    assert_eq!(
        registry.on_message_observed(Side::Server, &bad),
        Err(ProtocolViolation::OutOfRange { id: 7 })
    );
    let bad = message(1, 0, vec![Arg::NewId(7), Arg::NewId(0)]);
    assert_eq!(
        registry.on_message_observed(Side::Client, &bad),
        Err(ProtocolViolation::OutOfRange { id: 0 })
    );
    assert_eq!(
        registry.record(7),
        Some(ObjectRecord { id: 7, created_by: Side::Client, alive: false })
    );
}

#[test]
fn references_are_checked_before_allocations() {
    let mut registry = ObjectRegistry::new();
    registry.declare_destructor(Side::Client, 0);
    assert_eq!(registry.on_message_observed(Side::Client, &message(8, 0, vec![])), Ok(()));
    let m = message(1, 1, vec![Arg::NewId(0), Arg::Object(8)]);
    assert_eq!(
        registry.on_message_observed(Side::Client, &m),
        Err(ProtocolViolation::DeadReference { id: 8 })
    );
    // a message cannot name a destroyed object that it creates anew
    let m = message(1, 1, vec![Arg::NewId(8), Arg::Object(8)]);
    assert_eq!(
        registry.on_message_observed(Side::Client, &m),
        Err(ProtocolViolation::DeadReference { id: 8 })
    );
    assert!(registry.is_dead(8));
}

#[test]
fn a_destroyed_identifier_can_be_allocated_anew() {
    let mut registry = ObjectRegistry::new();
    registry.declare_destructor(Side::Client, 0);
    assert_eq!(
        registry.on_message_observed(Side::Client, &message(1, 1, vec![Arg::NewId(2)])),
        Ok(())
    );
    assert_eq!(registry.on_message_observed(Side::Client, &message(2, 0, vec![])), Ok(()));
    assert!(!registry.is_live(2));
    assert_eq!(
        registry.on_message_observed(Side::Client, &message(1, 1, vec![Arg::NewId(2)])),
        Ok(())
    );
    assert!(registry.is_live(2));
    assert_eq!(registry.on_message_observed(Side::Server, &message(2, 3, vec![])), Ok(()));
}

#[test]
fn destroying_opcodes_are_told_apart_by_side() {
    let mut registry = ObjectRegistry::new();
    registry.declare_destructor(Side::Client, 0);
    assert!(registry.is_destructor(Side::Client, 0));
    assert!(!registry.is_destructor(Side::Server, 0));
    assert!(!registry.is_destructor(Side::Client, 1));
    assert_eq!(
        registry.on_message_observed(Side::Client, &message(1, 1, vec![Arg::NewId(2)])),
        Ok(())
    );
    // opcode 0 from the server is an event like any other
    assert_eq!(registry.on_message_observed(Side::Server, &message(2, 0, vec![])), Ok(()));
    assert!(registry.is_live(2));
    assert_eq!(registry.on_message_observed(Side::Client, &message(2, 0, vec![])), Ok(()));
    assert!(!registry.is_live(2));
}

#[test]
fn a_destroying_message_may_create_objects() {
    let mut registry = ObjectRegistry::new();
    registry.declare_destructor(Side::Client, 3);
    assert_eq!(
        registry.on_message_observed(Side::Client, &message(1, 0, vec![Arg::NewId(2)])),
        Ok(())
    );
    assert_eq!(
        registry.on_message_observed(Side::Client, &message(2, 3, vec![Arg::NewId(4)])),
        Ok(())
    );
    assert!(!registry.is_live(2));
    assert!(registry.is_live(4));
}

#[test]
fn clearing_forgets_every_record() {
    let mut registry = ObjectRegistry::new();
    registry.declare_destructor(Side::Client, 3);
    registry.clear();
    assert!(!registry.is_live(1));
    assert!(!registry.is_dead(1));
    assert_eq!(registry.record(1), None);
    assert!(registry.is_destructor(Side::Client, 3));
}
