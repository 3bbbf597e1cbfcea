use target_notifier::{
    locate, settle, ActiveReceiver, Error, EventSender, Field, Member, RecvError, Schema,
    SchemaError, SendError, Service, State, Target, GLOBAL_ID, ID,
};

#[derive(Debug, Clone, PartialEq)]
struct Ping(u32);

const PING: usize = 1;
const PONG: usize = 2;

fn bound(capacity: usize, id: ID) -> Service<Ping> {
    let mut s = Service::new(capacity);
    s.init(id);
    s
}

#[test]
fn identity_accessors() {
    let id = ID::new(4).set_index(2).set_name("Sensor");
    assert_eq!(id.id(), 4);
    assert_eq!(id.index(), Some(2));
    assert_eq!(id.name(), "Sensor");
    let plain = ID::new(7);
    assert_eq!(plain.index(), None);
    assert_eq!(plain.name(), "");
    let slot = id.with_slot(9);
    assert_eq!(slot.index(), Some(9));
    assert_eq!(slot.id(), 4);
    assert_eq!(slot.name(), "Sensor");
}

#[test]
fn eq_target_without_index_matches_by_id() {
    let a = ID::new(3).set_index(1).set_name("X");
    let b = ID::new(3);
    assert!(a.eq_target(&b));
    assert!(!ID::new(4).eq_target(&b));
}

#[test]
fn eq_target_with_index_needs_identical() {
    let b = ID::new(3).set_index(1).set_name("X");
    assert!(ID::new(3).set_index(1).set_name("X").eq_target(&b));
    assert!(!ID::new(3).set_index(2).set_name("X").eq_target(&b));
    assert!(!ID::new(3).set_name("X").eq_target(&b));
    assert!(!ID::new(3).set_index(1).set_name("Y").eq_target(&b));
    // asymmetric: an unindexed endpoint is not addressed by an indexed target
    assert!(b.eq_target(&ID::new(3)));
}

#[test]
fn state_accessors() {
    assert!(State::Inactive.is_inactive());
    assert!(!State::Inactive.is_active());
    assert_eq!(State::Inactive.count_receivers(), 0);
    assert!(State::Active(2).is_active());
    assert_eq!(State::Active(2).count_receivers(), 2);
}

#[test]
fn receivers_dropped_in_any_order_leave_inactive() {
    let mut s = bound(2, ID::new(0));
    let r1 = ActiveReceiver::new(&mut s);
    let r2 = ActiveReceiver::new(&mut s);
    let r3 = ActiveReceiver::new(&mut s);
    assert_eq!(s.state(), State::Active(3));
    r2.release(&mut s);
    assert_eq!(s.state(), State::Active(2));
    r3.release(&mut s);
    assert_eq!(s.state(), State::Active(1));
    r1.release(&mut s);
    assert_eq!(s.state(), State::Inactive);
}

#[test]
fn deactivate_then_activate_restores() {
    let mut s = bound(2, ID::new(5).set_name("Led"));
    let r = ActiveReceiver::new(&mut s);
    let other = ActiveReceiver::new(&mut s);
    let mut r = r;
    for _ in 0..3 {
        let inactive = r.deactivate(&mut s);
        assert_eq!(s.state(), State::Active(1));
        r = inactive.activate(&mut s);
        assert_eq!(s.state(), State::Active(2));
    }
    let id = r.id().unwrap();
    assert_eq!(id.id(), 5);
    assert_eq!(id.name(), "Led");
    other.release(&mut s);
    r.release(&mut s);
    assert_eq!(s.state(), State::Inactive);
}

#[test]
fn duplicate_counts_again() {
    let mut s = bound(2, ID::new(1));
    let r = ActiveReceiver::new(&mut s);
    let d = r.duplicate(&mut s);
    assert_eq!(s.state(), State::Active(2));
    d.release(&mut s);
    r.release(&mut s);
    assert_eq!(s.state(), State::Inactive);
}

#[test]
fn send_reaches_every_active_other_endpoint() {
    let mut table = vec![
        bound(2, ID::new(0)),
        bound(2, ID::new(1)),
        bound(2, ID::new(2)),
        bound(2, ID::new(3)),
    ];
    let r1 = ActiveReceiver::new(&mut table[1]);
    let r2 = ActiveReceiver::new(&mut table[2]);
    let r0 = ActiveReceiver::new(&mut table[0]);
    let sender = EventSender::new(ID::new(0));
    assert!(sender.send(&mut table, Ping(7)).is_ok());
    assert_eq!(r1.try_recv().unwrap(), Ping(7));
    assert_eq!(r2.try_recv().unwrap(), Ping(7));
    assert!(matches!(r0.try_recv(), Err(RecvError::Empty)));
    assert_eq!(table[3].state(), State::Inactive);
}

#[test]
fn send_with_no_active_endpoint_is_not_initialized() {
    let mut table = vec![bound(1, ID::new(0)), bound(1, ID::new(1))];
    let sender = EventSender::new(ID::new(9));
    assert!(matches!(sender.send(&mut table, Ping(1)), Err(Error::NotInitialized)));
    let mut empty: Vec<Service<Ping>> = Vec::new();
    assert!(matches!(sender.send(&mut empty, Ping(1)), Err(Error::NotInitialized)));
}

#[test]
fn send_to_single_full_endpoint_reports_it() {
    let mut table = vec![bound(1, ID::new(4))];
    let r = ActiveReceiver::new(&mut table[0]);
    let sender = EventSender::new(ID::new(GLOBAL_ID));
    assert!(sender.send(&mut table, Ping(1)).is_ok());
    match sender.send(&mut table, Ping(2)) {
        Err(Error::Send(4, SendError::Full(p))) => assert_eq!(p, Ping(2)),
        other => panic!("unexpected {:?}", other),
    }
    assert_eq!(r.try_recv().unwrap(), Ping(1));
}

#[test]
fn fan_out_tries_all_and_reports_last_failure() {
    let mut table = vec![
        bound(1, ID::new(0)),
        bound(1, ID::new(1)),
        bound(1, ID::new(2)),
    ];
    let r0 = ActiveReceiver::new(&mut table[0]);
    let r1 = ActiveReceiver::new(&mut table[1]);
    let r2 = ActiveReceiver::new(&mut table[2]);
    let sender = EventSender::new(ID::new(GLOBAL_ID));
    // fill endpoints 0 and 1 only
    let only01 = vec![ID::new(0), ID::new(1)];
    assert!(sender.send_to(&only01, &mut table, Ping(1)).is_ok());
    match sender.send(&mut table, Ping(2)) {
        Err(Error::Send(1, SendError::Full(p))) => assert_eq!(p, Ping(2)),
        other => panic!("unexpected {:?}", other),
    }
    // endpoint 2 was still delivered to although endpoint 0 failed first
    assert_eq!(r2.try_recv().unwrap(), Ping(2));
    assert_eq!(r0.try_recv().unwrap(), Ping(1));
    assert_eq!(r1.try_recv().unwrap(), Ping(1));
}

#[test]
fn send_filtered_skips_excluded() {
    let mut table = vec![
        bound(2, ID::new(0)),
        bound(2, ID::new(1).set_index(0)),
        bound(2, ID::new(1).set_index(1)),
    ];
    let r0 = ActiveReceiver::new(&mut table[0]);
    let r10 = ActiveReceiver::new(&mut table[1]);
    let r11 = ActiveReceiver::new(&mut table[2]);
    let sender = EventSender::new(ID::new(GLOBAL_ID));
    let excluded = vec![ID::new(1)];
    assert!(sender.send_filtered(&excluded, &mut table, Ping(3)).is_ok());
    assert_eq!(r0.try_recv().unwrap(), Ping(3));
    assert!(r10.try_recv().is_err());
    assert!(r11.try_recv().is_err());
    let one_slot = vec![ID::new(1).set_index(1)];
    assert!(sender.send_filtered(&one_slot, &mut table, Ping(4)).is_ok());
    assert_eq!(r10.try_recv().unwrap(), Ping(4));
    assert!(r11.try_recv().is_err());
}

#[test]
fn send_to_empty_targets_is_not_initialized() {
    let mut table = vec![bound(2, ID::new(0)), bound(2, ID::new(1))];
    let _r0 = ActiveReceiver::new(&mut table[0]);
    let _r1 = ActiveReceiver::new(&mut table[1]);
    let sender = EventSender::new(ID::new(GLOBAL_ID));
    let none: Vec<ID> = Vec::new();
    assert!(matches!(sender.send_to(&none, &mut table, Ping(1)), Err(Error::NotInitialized)));
}

#[test]
fn send_to_ignores_state_and_self() {
    let mut table = vec![bound(2, ID::new(0)), bound(2, ID::new(1))];
    let sender = EventSender::new(ID::new(0));
    let me = vec![ID::new(0)];
    assert!(sender.send_to(&me, &mut table, Ping(5)).is_ok());
    let r0 = ActiveReceiver::new(&mut table[0]);
    assert_eq!(r0.try_recv().unwrap(), Ping(5));
}

#[test]
fn drained_on_last_release() {
    let mut table = vec![bound(5, ID::new(3))];
    let r = ActiveReceiver::new(&mut table[0]);
    let sender = EventSender::new(ID::new(GLOBAL_ID));
    for i in 0..3 {
        assert!(sender.send(&mut table, Ping(i)).is_ok());
    }
    r.release(&mut table[0]);
    assert_eq!(table[0].state(), State::Inactive);
    let again = ActiveReceiver::new(&mut table[0]);
    assert!(matches!(again.try_recv(), Err(RecvError::Empty)));
}

#[test]
fn settle_picks_last_failure() {
    let ids = vec![3usize, 5, 8];
    let outcomes: Vec<Result<(), SendError<u8>>> =
        vec![Err(SendError::Full(1)), Err(SendError::Closed(2)), Ok(())];
    match settle(&ids, outcomes) {
        Err(Error::Send(5, SendError::Closed(2))) => {}
        other => panic!("unexpected {:?}", other),
    }
    let none: Vec<usize> = Vec::new();
    assert!(matches!(settle::<u8>(&none, Vec::new()), Err(Error::NotInitialized)));
    assert!(settle::<u8>(&vec![1], vec![Ok(())]).is_ok());
}

#[test]
fn array_slots_are_indexed() {
    let k = 3usize;
    let base = ID::new(k).set_name("Slots");
    let mut slots: Vec<Service<Ping>> = (0..5).map(|_| Service::new(1)).collect();
    Service::array(&base, &mut slots);
    for (i, s) in slots.iter().enumerate() {
        let id = s.id().as_ref().unwrap();
        assert_eq!(id.id(), k);
        assert_eq!(id.index(), Some(i));
        assert_eq!(id.name(), "Slots");
    }
}

fn demo_schema() -> Schema {
    let fields = vec![
        Field::single("alpha", PING, 1),
        Field::group(
            "pair",
            vec![Member { key: PING, capacity: 2 }, Member { key: PONG, capacity: 3 }],
        ),
        Field::single("sensor_bank", PING, 4).array(5).unwrap(),
    ];
    Schema::new(fields).unwrap()
}

#[test]
fn schema_array_after_init() {
    let schema = demo_schema();
    let table: Vec<Service<Ping>> = schema.table(PING);
    assert_eq!(table.len(), 7);
    for i in 0..5 {
        let id = table[2 + i].id().as_ref().unwrap();
        assert_eq!(id.id(), 2);
        assert_eq!(id.index(), Some(i));
        assert_eq!(id.name(), "SensorBank");
        assert_eq!(table[2 + i].capacity(), 4);
        assert_eq!(table[2 + i].state(), State::Inactive);
    }
    assert_eq!(schema.target(2), Target::Endpoint(2, None));
    assert_eq!(schema.target(2).id(), 2);
    let whole = schema.identity(schema.target(2));
    assert_eq!(whole.index(), None);
    assert_eq!(schema.target(3), Target::Global);
    assert_eq!(Target::Global.id(), usize::MAX);
}

#[test]
fn schema_tables_follow_declaration_order() {
    let schema = demo_schema();
    let pings: Vec<Service<Ping>> = schema.table(PING);
    assert_eq!(pings[0].id().as_ref().unwrap().id(), 0);
    assert_eq!(pings[0].id().as_ref().unwrap().name(), "Alpha");
    assert_eq!(pings[1].id().as_ref().unwrap().id(), 1);
    assert_eq!(pings[1].capacity(), 2);
    let pongs: Vec<Service<u8>> = schema.table(PONG);
    assert_eq!(pongs.len(), 1);
    assert_eq!(pongs[0].id().as_ref().unwrap().id(), 1);
    assert_eq!(pongs[0].id().as_ref().unwrap().name(), "Pair");
    assert_eq!(pongs[0].capacity(), 3);
    let none: Vec<Service<u8>> = schema.table(99);
    assert!(none.is_empty());
}

#[test]
fn schema_names_and_identities() {
    let schema = demo_schema();
    assert_eq!(schema.name(Target::Endpoint(2, None)), "SensorBank");
    assert_eq!(schema.name(Target::Global), "Global");
    let g = schema.identity(Target::Global);
    assert_eq!(g.id(), usize::MAX);
    assert_eq!(g.name(), "Global");
    let slot = schema.identity(Target::Endpoint(2, Some(4)));
    assert_eq!(slot.index(), Some(4));
    let single = schema.identity(Target::Endpoint(0, Some(4)));
    assert_eq!(single.index(), None);
    assert_eq!(schema.sender(Target::Endpoint(1, None)).id().name(), "Pair");
}

#[test]
fn schema_rejects_bad_declarations() {
    let nested = Field::single("x", PING, 1).array(2).unwrap().array(3);
    assert!(matches!(nested, Err(SchemaError::NestedArray)));
    let fields = vec![
        Field::single("ok", PING, 1),
        Field::group("bad", vec![Member { key: PING, capacity: 0 }]),
        Field::single("also_bad", PING, 0),
    ];
    assert!(matches!(Schema::new(fields), Err(SchemaError::ZeroCapacity(1))));
}

#[test]
fn locate_and_receiver_by_target() {
    let schema = demo_schema();
    let mut pings: Vec<Service<Ping>> = schema.table(PING);
    assert_eq!(locate(&pings, &ID::new(2).set_index(3)), Some(5));
    assert_eq!(locate(&pings, &ID::new(2)), None);
    assert_eq!(locate(&pings, &ID::new(1)), Some(1));
    let r = ActiveReceiver::by_target(&mut pings, &ID::new(2).set_index(3)).unwrap();
    assert_eq!(pings[5].state(), State::Active(1));
    assert_eq!(r.id().unwrap().index(), Some(3));
    assert!(ActiveReceiver::by_target(&mut pings, &ID::new(7)).is_none());
}

#[test]
fn end_to_end_two_singles() {
    let schema = Schema::new(vec![Field::single("a", PING, 1), Field::single("b", PING, 1)]).unwrap();
    let mut pings: Vec<Service<Ping>> = schema.table(PING);
    let ra = ActiveReceiver::new(&mut pings[0]);
    let rb = ActiveReceiver::new(&mut pings[1]);
    let sender = schema.sender(Target::Endpoint(0, None));
    assert!(sender.send(&mut pings, Ping(1)).is_ok());
    assert_eq!(rb.try_recv().unwrap(), Ping(1));
    assert!(matches!(rb.try_recv(), Err(RecvError::Empty)));
    assert!(matches!(ra.try_recv(), Err(RecvError::Empty)));
}

#[test]
fn send_error_gives_message_back() {
    assert_eq!(SendError::Full(Ping(3)).into_inner(), Ping(3));
    assert_eq!(SendError::Closed(Ping(4)).into_inner(), Ping(4));
}

#[test]
fn channel_handles_for_single_and_array() {
    let schema = demo_schema();
    let mut pings: Vec<Service<Ping>> = schema.table(PING);
    let alpha = target_notifier::Channel::new(Target::Endpoint(0, None));
    assert_eq!(alpha.id(&schema).name(), "Alpha");
    assert_eq!(alpha.sender(&schema).id().id(), 0);
    let r = alpha.receiver(&schema, &mut pings);
    assert_eq!(pings[0].state(), State::Active(1));
    let bank = target_notifier::Channels::new(2, 5);
    assert_eq!(bank.len(), 5);
    assert!(bank.get(5).is_none());
    assert!(bank.sender(7, &schema).is_none());
    let s3 = bank.sender(3, &schema).unwrap();
    assert_eq!(s3.id().index(), Some(3));
    let r3 = bank.get(3).unwrap().receiver(&schema, &mut pings);
    assert_eq!(pings[5].state(), State::Active(1));
    assert!(s3.send(&mut pings, Ping(8)).is_ok());
    assert_eq!(r.try_recv().unwrap(), Ping(8));
    assert!(r3.try_recv().is_err());
}

#[test]
fn global_sender_identity() {
    let schema = demo_schema();
    let g = schema.sender(Target::Global);
    assert_eq!(g.id().id(), GLOBAL_ID);
    assert_eq!(g.id().index(), None);
}

#[test]
fn empty_declarations_give_empty_tables() {
    let schema = Schema::new(Vec::new()).unwrap();
    assert_eq!(schema.len(), 0);
    let t: Vec<Service<Ping>> = schema.table(PING);
    assert!(t.is_empty());
    assert_eq!(schema.target(0), Target::Global);
    let schema = Schema::new(vec![
        Field::single("none", PING, 1).array(0).unwrap(),
        Field::group("nothing", Vec::new()),
    ])
    .unwrap();
    let t: Vec<Service<Ping>> = schema.table(PING);
    assert!(t.is_empty());
    assert_eq!(schema.target(1), Target::Endpoint(1, None));
}

#[test]
fn array_of_groups_flattens_slot_then_member() {
    let group = Field::group(
        "pairs",
        vec![Member { key: PING, capacity: 1 }, Member { key: PONG, capacity: 2 }],
    );
    let schema = Schema::new(vec![Field::single("first", PONG, 5), group.array(2).unwrap()]).unwrap();
    let pings: Vec<Service<Ping>> = schema.table(PING);
    let slots: Vec<Option<usize>> = pings.iter().map(|s| s.id().as_ref().unwrap().index()).collect();
    assert_eq!(slots, vec![Some(0), Some(1)]);
    let pongs: Vec<Service<u8>> = schema.table(PONG);
    let ids: Vec<(usize, Option<usize>)> = pongs
        .iter()
        .map(|s| (s.id().as_ref().unwrap().id(), s.id().as_ref().unwrap().index()))
        .collect();
    assert_eq!(ids, vec![(0, None), (1, Some(0)), (1, Some(1))]);
    let caps: Vec<usize> = pongs.iter().map(|s| s.capacity()).collect();
    assert_eq!(caps, vec![5, 2, 2]);
}

#[test]
fn schema_rejects_repeated_payload_in_group() {
    let fields = vec![
        Field::single("ok", PING, 1),
        Field::group(
            "twice",
            vec![Member { key: PING, capacity: 1 }, Member { key: PONG, capacity: 1 }, Member { key: PING, capacity: 2 }],
        ),
    ];
    assert!(matches!(Schema::new(fields), Err(SchemaError::RepeatedKey(1))));
    let both = vec![Field::group(
        "both",
        vec![Member { key: PING, capacity: 0 }, Member { key: PING, capacity: 1 }],
    )];
    assert!(matches!(Schema::new(both), Err(SchemaError::ZeroCapacity(0))));
}

#[test]
fn display_name_keeps_inner_capitals() {
    let schema = Schema::new(vec![Field::single("pingPong", PING, 1), Field::single("ping_pong", PONG, 1)]).unwrap();
    assert_eq!(schema.name(Target::Endpoint(0, None)), "PingPong");
    assert_eq!(schema.name(Target::Endpoint(1, None)), "PingPong");
}

#[test]
fn identity_back_to_target() {
    let schema = demo_schema();
    assert_eq!(schema.target_of(&ID::new(2).set_index(3)), Target::Endpoint(2, Some(3)));
    assert_eq!(schema.target_of(&ID::new(0).set_index(3)), Target::Endpoint(0, None));
    assert_eq!(schema.target_of(&ID::new(1)), Target::Endpoint(1, None));
    assert_eq!(schema.target_of(&ID::new(GLOBAL_ID)), Target::Global);
    let mut pings: Vec<Service<Ping>> = schema.table(PING);
    let r = ActiveReceiver::by_target(&mut pings, &ID::new(2).set_index(4)).unwrap();
    assert_eq!(r.target(&schema), Target::Endpoint(2, Some(4)));
}
