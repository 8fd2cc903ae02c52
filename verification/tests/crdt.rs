use crdt_chat::chat::{add_message, get_messages};
use crdt_chat::doc::{deliver, Document};
use crdt_chat::sync::{generate_sync_message, receive_sync_message, run_sync, PeerState};
use crdt_chat::types::{ApplyError, Change, ChangeId, Key, ObjKind, ObjectId, OpAction, Operation, Scalar, Value};

fn field(name: &str) -> Key {
    Key::Field(name.to_string())
}

#[test]
fn concurrent_messages_converge() {
    // Two fresh replicas send concurrently; after exchanging the two
    // changes, both read the same two messages ordered by timestamp.
    let mut a = Document::create(1);
    let mut b = Document::create(2);
    let c1 = add_message(&mut a, "user1", "Hello, anyone there?", 100).unwrap();
    let c2 = add_message(&mut b, "user2", "Hi! Yes, I'm here!", 200).unwrap();
    deliver(&mut b, &c1).unwrap();
    deliver(&mut a, &c2).unwrap();
    let ma = get_messages(&a);
    let mb = get_messages(&b);
    assert_eq!(ma.len(), 2);
    assert_eq!(mb.len(), 2);
    for ms in [&ma, &mb] {
        assert_eq!(ms[0].user_id, "user1");
        assert_eq!(ms[0].content, "Hello, anyone there?");
        assert_eq!(ms[0].timestamp, 100);
        assert_eq!(ms[1].user_id, "user2");
        assert_eq!(ms[1].content, "Hi! Yes, I'm here!");
        assert_eq!(ms[1].timestamp, 200);
    }
}

#[test]
fn commutativity_of_delivery_order() {
    // The same two changes, delivered in opposite orders to two identical
    // replicas, yield identical reads.
    let mut a = Document::create(1);
    let mut b = Document::create(2);
    let c1 = add_message(&mut a, "user1", "first", 10).unwrap();
    let c2 = add_message(&mut b, "user2", "second", 20).unwrap();
    let mut r1 = Document::create(3);
    let mut r2 = Document::create(4);
    deliver(&mut r1, &c1).unwrap();
    deliver(&mut r1, &c2).unwrap();
    deliver(&mut r2, &c2).unwrap();
    deliver(&mut r2, &c1).unwrap();
    let m1 = get_messages(&r1);
    let m2 = get_messages(&r2);
    assert_eq!(m1.len(), 2);
    assert_eq!(m1.len(), m2.len());
    for (x, y) in m1.iter().zip(m2.iter()) {
        assert_eq!(x.user_id, y.user_id);
        assert_eq!(x.content, y.content);
        assert_eq!(x.timestamp, y.timestamp);
    }
}

#[test]
fn idempotent_application() {
    // Applying the same change twice is a successful no-op.
    let mut a = Document::create(1);
    let mut b = Document::create(2);
    let c1 = add_message(&mut a, "user1", "hi", 5).unwrap();
    deliver(&mut b, &c1).unwrap();
    deliver(&mut b, &c1).unwrap();
    let ms = get_messages(&b);
    assert_eq!(ms.len(), 1);
    assert_eq!(ms[0].content, "hi");
}

#[test]
fn fork_then_sync_loop() {
    // A fork of the empty document syncs with a replica holding three
    // messages: after the loop both read the same three messages and both
    // directions of the protocol go silent.
    let mut a = Document::create(1);
    let mut c = a.fork(3);
    add_message(&mut a, "user1", "one", 1).unwrap();
    add_message(&mut a, "user1", "two", 2).unwrap();
    add_message(&mut a, "user1", "three", 3).unwrap();
    let mut sa = PeerState::new();
    let mut sc = PeerState::new();
    run_sync(&mut a, &mut c, &mut sa, &mut sc);
    let ms = get_messages(&c);
    assert_eq!(ms.len(), 3);
    assert_eq!(ms[0].content, "one");
    assert_eq!(ms[1].content, "two");
    assert_eq!(ms[2].content, "three");
    let ma = get_messages(&a);
    assert_eq!(ma.len(), 3);
    assert!(generate_sync_message(&a, &mut sa).is_none());
    assert!(generate_sync_message(&c, &mut sc).is_none());
}

#[test]
fn manual_sync_loop_terminates() {
    // The caller-driven loop of alternating generate / receive ends with
    // both directions returning nothing in the same round.
    let mut a = Document::create(1);
    add_message(&mut a, "user1", "hello", 7).unwrap();
    let mut b = Document::create(2);
    add_message(&mut b, "user2", "world", 9).unwrap();
    let mut sa = PeerState::new();
    let mut sb = PeerState::new();
    let mut rounds = 0;
    loop {
        let a_to_b = generate_sync_message(&a, &mut sa);
        if let Some(m) = a_to_b.as_ref() {
            receive_sync_message(&mut b, &mut sb, m).unwrap();
        }
        let b_to_a = generate_sync_message(&b, &mut sb);
        if let Some(m) = b_to_a.as_ref() {
            receive_sync_message(&mut a, &mut sa, m).unwrap();
        }
        if a_to_b.is_none() && b_to_a.is_none() {
            break;
        }
        rounds += 1;
        assert!(rounds < 10, "sync loop did not terminate");
    }
    let ma = get_messages(&a);
    let mb = get_messages(&b);
    assert_eq!(ma.len(), 2);
    assert_eq!(mb.len(), 2);
    for (x, y) in ma.iter().zip(mb.iter()) {
        assert_eq!(x.user_id, y.user_id);
        assert_eq!(x.content, y.content);
        assert_eq!(x.timestamp, y.timestamp);
    }
}

#[test]
fn buffered_until_dependency_arrives() {
    // A change whose dependency was never seen is buffered: invisible at
    // first, visible once the dependency is delivered.
    let mut b = Document::create(2);
    let c1 = add_message(&mut b, "user2", "first", 1).unwrap();
    let c2 = add_message(&mut b, "user2", "second", 2).unwrap();
    let mut c = Document::create(3);
    deliver(&mut c, &c2).unwrap();
    assert_eq!(get_messages(&c).len(), 0);
    deliver(&mut c, &c1).unwrap();
    let ms = get_messages(&c);
    assert_eq!(ms.len(), 2);
    assert_eq!(ms[0].content, "first");
    assert_eq!(ms[1].content, "second");
}

#[test]
fn concurrent_writes_tie_break() {
    // Concurrent writes to one key with equal counters: the higher actor id
    // wins, on both replicas.
    let mut a = Document::create(1);
    let mut b = Document::create(2);
    a.put(ObjectId::Root, field("k"), Scalar::Uint(10)).unwrap();
    b.put(ObjectId::Root, field("k"), Scalar::Uint(20)).unwrap();
    let ca = a.last_local_change().unwrap();
    let cb = b.last_local_change().unwrap();
    deliver(&mut b, &ca).unwrap();
    deliver(&mut a, &cb).unwrap();
    for d in [&a, &b] {
        let v = d.get(ObjectId::Root, &field("k"));
        assert!(matches!(v, Some(Value::Scalar(Scalar::Uint(n))) if n == 20));
    }
}

#[test]
fn causal_overwrite_wins() {
    // A write made after seeing another write carries a higher counter and
    // wins everywhere.
    let mut a = Document::create(1);
    let mut b = Document::create(2);
    a.put(ObjectId::Root, field("k"), Scalar::Uint(1)).unwrap();
    let ca = a.last_local_change().unwrap();
    deliver(&mut b, &ca).unwrap();
    b.put(ObjectId::Root, field("k"), Scalar::Uint(2)).unwrap();
    let cb = b.last_local_change().unwrap();
    deliver(&mut a, &cb).unwrap();
    for d in [&a, &b] {
        let v = d.get(ObjectId::Root, &field("k"));
        assert!(matches!(v, Some(Value::Scalar(Scalar::Uint(n))) if n == 2));
    }
}

#[test]
fn unknown_object_rejected() {
    let mut a = Document::create(1);
    let missing = ObjectId::Obj { actor: 99, counter: 5 };
    let r = a.put(missing, field("x"), Scalar::Bool(true));
    assert_eq!(r, Err(ApplyError::ObjectNotFound));
    let r2 = a.put_object(missing, field("y"), ObjKind::MapObj);
    assert!(matches!(r2, Err(ApplyError::ObjectNotFound)));
}

#[test]
fn malformed_change_rejected() {
    let mut a = Document::create(1);
    let empty_ops = Change { actor: 7, start: 1, deps: vec![], ops: vec![] };
    assert_eq!(a.apply_change(&empty_ops), Err(ApplyError::MalformedOperation));
    let skewed = Change {
        actor: 7,
        start: 1,
        deps: vec![],
        ops: vec![Operation {
            actor: 7,
            counter: 3,
            target: ObjectId::Root,
            key: field("k"),
            action: OpAction::Delete,
        }],
    };
    assert_eq!(a.apply_change(&skewed), Err(ApplyError::MalformedOperation));
}

#[test]
fn counter_collision_rejected() {
    // Two distinct changes of one actor with overlapping counter ranges:
    // the second is rejected.
    let mut a = Document::create(1);
    let first = Change {
        actor: 7,
        start: 1,
        deps: vec![],
        ops: vec![
            Operation {
                actor: 7,
                counter: 1,
                target: ObjectId::Root,
                key: field("k"),
                action: OpAction::Put(Scalar::Uint(1)),
            },
            Operation {
                actor: 7,
                counter: 2,
                target: ObjectId::Root,
                key: field("k2"),
                action: OpAction::Put(Scalar::Uint(2)),
            },
        ],
    };
    assert_eq!(a.apply_change(&first), Ok(()));
    let overlapping = Change {
        actor: 7,
        start: 2,
        deps: vec![],
        ops: vec![Operation {
            actor: 7,
            counter: 2,
            target: ObjectId::Root,
            key: field("k3"),
            action: OpAction::Put(Scalar::Uint(3)),
        }],
    };
    assert_eq!(a.apply_change(&overlapping), Err(ApplyError::MalformedOperation));
}

#[test]
fn counter_space_exhaustion() {
    // A remote change near the top of the counter space exhausts the local
    // clock: the next local commit reports it.
    let mut a = Document::create(1);
    let high = Change {
        actor: 9,
        start: u64::MAX - 1,
        deps: vec![],
        ops: vec![Operation {
            actor: 9,
            counter: u64::MAX - 1,
            target: ObjectId::Root,
            key: field("h"),
            action: OpAction::Put(Scalar::Bool(true)),
        }],
    };
    assert_eq!(a.apply_change(&high), Ok(()));
    let r = add_message(&mut a, "user1", "no room", 1);
    assert_eq!(r.unwrap_err(), ApplyError::CounterExhausted);
}

#[test]
fn delete_hides_value() {
    let mut a = Document::create(1);
    a.put(ObjectId::Root, field("gone"), Scalar::Uint(5)).unwrap();
    assert!(a.get(ObjectId::Root, &field("gone")).is_some());
    a.delete(ObjectId::Root, field("gone")).unwrap();
    assert!(a.get(ObjectId::Root, &field("gone")).is_none());
    assert_eq!(a.map_range(ObjectId::Root).len(), 0);
}

#[test]
fn map_range_sorted_by_key() {
    // Logical keys come first (by counter, then actor), then string fields
    // in lexicographic order.
    let mut a = Document::create(1);
    a.put(ObjectId::Root, field("b"), Scalar::Uint(2)).unwrap();
    a.put(ObjectId::Root, field("a"), Scalar::Uint(1)).unwrap();
    a.put(ObjectId::Root, field("c"), Scalar::Uint(3)).unwrap();
    a.put(ObjectId::Root, Key::Logical { counter: 9, actor: 4 }, Scalar::Bool(true)).unwrap();
    let entries = a.map_range(ObjectId::Root);
    assert_eq!(entries.len(), 4);
    assert!(matches!(entries[0].key, Key::Logical { counter: 9, actor: 4 }));
    for (i, name) in ["a", "b", "c"].iter().enumerate() {
        match &entries[i + 1].key {
            Key::Field(s) => assert_eq!(s, name),
            other => panic!("unexpected key {:?}", other),
        }
    }
}

#[test]
fn nested_objects() {
    let mut a = Document::create(1);
    let m = a.put_object(ObjectId::Root, field("child_map"), ObjKind::MapObj).unwrap();
    let l = a.put_object(ObjectId::Root, field("child_list"), ObjKind::ListObj).unwrap();
    a.put(m, field("x"), Scalar::Str("inner".to_string())).unwrap();
    let v = a.get(m, &field("x"));
    assert!(matches!(v, Some(Value::Scalar(Scalar::Str(s))) if s == "inner"));
    let at_map = a.get(ObjectId::Root, &field("child_map"));
    assert!(matches!(at_map, Some(Value::Object(o)) if o == m));
    let at_list = a.get(ObjectId::Root, &field("child_list"));
    assert!(matches!(at_list, Some(Value::Object(o)) if o == l));
}

#[test]
fn fork_shares_frontier() {
    let mut a = Document::create(1);
    add_message(&mut a, "user1", "before fork", 3).unwrap();
    let f = a.fork(8);
    assert_eq!(f.heads(), a.heads());
    assert_eq!(f.actor_id(), 8);
    let ms = get_messages(&f);
    assert_eq!(ms.len(), 1);
    assert_eq!(ms[0].content, "before fork");
}

#[test]
fn last_local_change_taken_once() {
    let mut a = Document::create(1);
    add_message(&mut a, "user1", "msg", 1).unwrap();
    let taken = a.last_local_change();
    assert!(taken.is_some());
    assert!(a.last_local_change().is_none());
}

#[test]
fn equal_timestamps_keep_key_order() {
    // Two messages with the same timestamp stay in key order (the logical
    // key orders by counter, then actor) — and identically on all replicas.
    let mut a = Document::create(1);
    let mut b = Document::create(2);
    let c1 = add_message(&mut a, "user1", "same instant a", 50).unwrap();
    let c2 = add_message(&mut b, "user2", "same instant b", 50).unwrap();
    deliver(&mut b, &c1).unwrap();
    deliver(&mut a, &c2).unwrap();
    let ma = get_messages(&a);
    let mb = get_messages(&b);
    assert_eq!(ma.len(), 2);
    for (x, y) in ma.iter().zip(mb.iter()) {
        assert_eq!(x.user_id, y.user_id);
        assert_eq!(x.content, y.content);
    }
    // equal counters: actor 1's key sorts before actor 2's
    assert_eq!(ma[0].user_id, "user1");
    assert_eq!(ma[1].user_id, "user2");
}

#[test]
fn three_replicas_converge() {
    // Three replicas, deliveries in three different orders: identical
    // histories everywhere.
    let mut a = Document::create(1);
    let mut b = Document::create(2);
    let mut c = Document::create(3);
    let c1 = add_message(&mut a, "user1", "alpha", 1).unwrap();
    let c2 = add_message(&mut b, "user2", "beta", 2).unwrap();
    let c3 = add_message(&mut c, "user3", "gamma", 3).unwrap();
    deliver(&mut a, &c2).unwrap();
    deliver(&mut a, &c3).unwrap();
    deliver(&mut b, &c3).unwrap();
    deliver(&mut b, &c1).unwrap();
    deliver(&mut c, &c1).unwrap();
    deliver(&mut c, &c2).unwrap();
    let ma = get_messages(&a);
    let mb = get_messages(&b);
    let mc = get_messages(&c);
    assert_eq!(ma.len(), 3);
    for other in [&mb, &mc] {
        assert_eq!(ma.len(), other.len());
        for (x, y) in ma.iter().zip(other.iter()) {
            assert_eq!(x.user_id, y.user_id);
            assert_eq!(x.content, y.content);
            assert_eq!(x.timestamp, y.timestamp);
        }
    }
}

#[test]
fn monotonic_reads_across_merges() {
    // Once a message is visible, delivering more history never removes it.
    let mut a = Document::create(1);
    let mut b = Document::create(2);
    let c1 = add_message(&mut a, "user1", "keeper", 1).unwrap();
    deliver(&mut b, &c1).unwrap();
    assert_eq!(get_messages(&b).len(), 1);
    for i in 0..5u64 {
        let c = add_message(&mut a, "user1", "more", 10 + i).unwrap();
        deliver(&mut b, &c).unwrap();
        let ms = get_messages(&b);
        assert!(ms.iter().any(|m| m.content == "keeper"));
    }
    assert_eq!(get_messages(&b).len(), 6);
}

#[test]
fn skipping_incomplete_entries() {
    // A root entry that is not a complete message (a bare scalar under the
    // root) is skipped by the read, not an error.
    let mut a = Document::create(1);
    a.put(ObjectId::Root, field("stray"), Scalar::Uint(1)).unwrap();
    let obj = a.put_object(ObjectId::Root, field("partial"), ObjKind::MapObj).unwrap();
    a.put(obj, field("user_id"), Scalar::Str("u".to_string())).unwrap();
    // content and timestamp missing: skipped
    add_message(&mut a, "user1", "complete", 4).unwrap();
    let ms = get_messages(&a);
    assert_eq!(ms.len(), 1);
    assert_eq!(ms[0].content, "complete");
}

#[test]
fn dedup_by_identity() {
    // Two structurally identical changes share an id and are applied once.
    let mut a = Document::create(1);
    let put = |n: u64| Change {
        actor: 7,
        start: 1,
        deps: vec![],
        ops: vec![Operation {
            actor: 7,
            counter: 1,
            target: ObjectId::Root,
            key: field("k"),
            action: OpAction::Put(Scalar::Uint(n)),
        }],
    };
    assert_eq!(a.apply_change(&put(1)), Ok(()));
    // same identity: a successful no-op, even though the content differs
    assert_eq!(a.apply_change(&put(2)), Ok(()));
    let v = a.get(ObjectId::Root, &field("k"));
    assert!(matches!(v, Some(Value::Scalar(Scalar::Uint(n))) if n == 1));
}

#[test]
fn frontier_updates_on_apply() {
    let mut a = Document::create(1);
    add_message(&mut a, "user1", "one", 1).unwrap();
    let h1 = a.heads();
    assert_eq!(h1, vec![ChangeId { actor: 1, counter: 1 }]);
    add_message(&mut a, "user1", "two", 2).unwrap();
    let h2 = a.heads();
    assert_eq!(h2.len(), 1);
    assert_eq!(h2[0], ChangeId { actor: 1, counter: 5 });
    assert!(!h2.contains(&ChangeId { actor: 1, counter: 1 }));
}

#[test]
fn message_fields_enumerate_lexicographically() {
    let mut a = Document::create(1);
    let c1 = add_message(&mut a, "user1", "hi", 4).unwrap();
    let obj = ObjectId::Obj { actor: c1.actor, counter: c1.start };
    let entries = a.map_range(obj);
    let names: Vec<String> = entries
        .iter()
        .map(|e| match &e.key {
            Key::Field(s) => s.clone(),
            other => panic!("unexpected key {:?}", other),
        })
        .collect();
    assert_eq!(names, vec!["content", "timestamp", "user_id"]);
}

#[test]
fn sync_between_identical_replicas_is_silent() {
    let mut a = Document::create(1);
    add_message(&mut a, "user1", "shared", 1).unwrap();
    let mut b = a.fork(2);
    let mut sa = PeerState::new();
    let mut sb = PeerState::new();
    run_sync(&mut a, &mut b, &mut sa, &mut sb);
    assert_eq!(get_messages(&a).len(), 1);
    assert_eq!(get_messages(&b).len(), 1);
    assert!(generate_sync_message(&a, &mut sa).is_none());
    assert!(generate_sync_message(&b, &mut sb).is_none());
}
