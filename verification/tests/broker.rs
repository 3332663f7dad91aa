//! The lock state as its clients see it.

use std::ops::{Deref, DerefMut};

use dd_rust_network_mutex::broker::snapshot::BrokerRaftPendingKindSnapshot;
use dd_rust_network_mutex::broker::snapshot_install::{
    validate_raft_snapshot_payload, SnapshotPayload,
};
use dd_rust_network_mutex::broker::{Broker, BrokerConfig, ClientId};
use dd_rust_network_mutex::ordered_map::OrderedMap;
use dd_rust_network_mutex::protocol::{Request, Response, TokenMap, MAX_COMPOSITE_KEYS};

/// One second on the broker's clock.
const SECOND: u128 = 1_000_000_000;

/// A broker, and the responses that its clients have not read yet.
struct Desk {
    broker: Broker,
    mail: Vec<(ClientId, Response)>,
}

impl Desk {
    fn new(config: BrokerConfig) -> Desk {
        Desk { broker: Broker::new(config), mail: Vec::new() }
    }

    /// What `client` reads by now.
    fn drain(&mut self, client: ClientId) -> Vec<Response> {
        for delivery in self.broker.take_outbox() {
            if delivery.connected {
                self.mail.push((delivery.client, delivery.response));
            }
        }
        let (mine, others): (Vec<_>, Vec<_>) =
            self.mail.drain(..).partition(|(to, _)| *to == client);
        self.mail = others;
        mine.into_iter().map(|(_, response)| response).collect()
    }
}

impl Deref for Desk {
    type Target = Broker;

    fn deref(&self) -> &Broker {
        &self.broker
    }
}

impl DerefMut for Desk {
    fn deref_mut(&mut self) -> &mut Broker {
        &mut self.broker
    }
}

fn request(
    uuid: &str,
    key: Option<&str>,
    keys: Option<Vec<String>>,
    ttl: Option<u64>,
    max: Option<u32>,
) -> Request {
    Request::Lock {
        uuid: uuid.into(),
        key: key.map(|k| k.into()),
        keys,
        pid: None,
        ttl,
        max,
        force: false,
        retry_count: 0,
        keep_locks_after_death: false,
        wait: None,
    }
}

fn lock(uuid: &str, key: &str, ttl: Option<u64>, max: Option<u32>) -> Request {
    request(uuid, Some(key), None, ttl, max)
}

fn lock_all(uuid: &str, keys: Vec<String>, ttl: Option<u64>, max: Option<u32>) -> Request {
    request(uuid, None, Some(keys), ttl, max)
}

fn unlock(uuid: &str, key: &str, lock_uuid: Option<String>) -> Request {
    Request::Unlock {
        uuid: uuid.into(),
        key: Some(key.into()),
        keys: None,
        lock_uuid,
        force: false,
    }
}

/// A broker in which a composite request holds one key and waits for the other,
/// written down.
fn partial_composite_snapshot_payload() -> SnapshotPayload {
    let mut broker = Desk::new(BrokerConfig::default());
    let holder = broker.register_client();
    let waiter = broker.register_client();
    broker.handle_request(holder, lock("snapshot-partial-holder", "snapshot-partial-b", None, None));
    assert!(broker.drain(holder)
        .iter()
        .any(|response| matches!(response, Response::Lock { acquired: true, .. })));
    broker.handle_request(waiter, lock_all("snapshot-partial-composite", vec![
                "snapshot-partial-b".into(),
                "snapshot-partial-a".into(),
            ], None, None));
    assert!(broker.drain(waiter).iter().any(|response| matches!(
        response,
        Response::CompositeLock {
            acquired: false,
            ..
        }
    )));
    assert_eq!(broker.metrics().holders, 2);
    assert_eq!(broker.metrics().waiters, 1);
    SnapshotPayload::Broker(broker.snapshot_for_raft())
}

/// Changes what is written of the composite request that waits.
fn rewrite_waiter(
    payload: &mut SnapshotPayload,
    remaining: Option<&[&str]>,
    granted: Option<&[&str]>,
    tokens: Option<&[(&str, u64)]>,
) {
    let SnapshotPayload::Broker(snapshot) = payload else {
        panic!("not a full snapshot");
    };
    let lock = snapshot
        .locks
        .iter_mut()
        .find(|lock| lock.key == "snapshot-partial-b")
        .expect("lock with queued composite waiter");
    let waiter = lock.queue.first_mut().expect("composite waiter");
    let BrokerRaftPendingKindSnapshot::Composite {
        remaining_keys,
        granted_keys,
        granted_tokens,
        ..
    } = &mut waiter.kind
    else {
        panic!("not a composite waiter");
    };
    if let Some(keys) = remaining {
        *remaining_keys = keys.iter().map(|k| k.to_string()).collect();
    }
    if let Some(keys) = granted {
        *granted_keys = keys.iter().map(|k| k.to_string()).collect();
    }
    if let Some(entries) = tokens {
        let mut map: TokenMap = OrderedMap::new();
        for (key, token) in entries {
            map.insert(key.to_string(), *token);
        }
        *granted_tokens = map;
    }
}

#[test]
fn register_client_with_preferred_id_does_not_reset_normal_sequence() {
    let mut broker = Desk::new(BrokerConfig::default());
    let first = broker.register_client();
    let second = broker.register_client();
    assert_eq!(first, 1);
    assert_eq!(second, 2);

    broker.drop_client(first);
    let preferred = broker.register_client_with_id(first);
    assert_eq!(preferred, first);

    let skipped_live = broker.register_client_with_id(second);
    assert_ne!(skipped_live, second);

    let next = broker.register_client();
    assert_ne!(next, first);
    assert_ne!(next, second);
    assert!(next > second);
}

#[test]
fn raft_snapshot_restores_active_detached_holder_and_deadline() {
    let mut broker = Desk::new(BrokerConfig::default());
    let client = broker.register_client();
    broker.handle_request(
        client,
        Request::Lock {
            uuid: "snapshot-lock-request".into(),
            key: Some("snapshot-key".into()),
            keys: None,
            pid: Some(123),
            ttl: Some(10_000),
            max: None,
            force: false,
            retry_count: 0,
            keep_locks_after_death: false,
            wait: None,
        },
    );
    let lock_uuid = broker.drain(client)
        .into_iter()
        .find_map(|response| match response {
            Response::Lock {
                acquired: true,
                lock_uuid,
                ..
            } => lock_uuid,
            _ => None,
        })
        .expect("lock granted");
    broker.detach_lock_from_client(client, &lock_uuid);
    broker.drop_client(client);
    assert_eq!(broker.metrics().holders, 1);
    assert_eq!(broker.metrics().pending_deadlines, 1);

    let payload = SnapshotPayload::Broker(broker.snapshot_for_raft());
    validate_raft_snapshot_payload(&payload).expect("valid snapshot payload");

    let mut restored = Desk::new(BrokerConfig::default());
    restored
        .install_raft_snapshot(&payload)
        .expect("install broker snapshot");
    let metrics = restored.metrics();
    assert_eq!(metrics.holders, 1);
    assert_eq!(metrics.waiters, 0);
    assert_eq!(metrics.pending_deadlines, 1);
    let top = restored.top_keys(1);
    assert_eq!(top.len(), 1);
    assert_eq!(top[0].key, "snapshot-key");
    assert_eq!(top[0].exclusive_holders, 1);

    let unlocker = restored.register_client();
    restored.handle_request(unlocker, unlock("snapshot-unlock", "snapshot-key", Some(lock_uuid)));
    assert!(matches!(
        restored.drain(unlocker).as_slice(),
        [Response::Unlock { unlocked: true, .. }]
    ));
    assert_eq!(restored.metrics().holders, 0);
}

#[test]
fn raft_snapshot_validation_rejects_deadline_without_matching_holder() {
    let mut broker = Desk::new(BrokerConfig::default());
    let client = broker.register_client();
    broker.handle_request(
        client,
        Request::Lock {
            uuid: "snapshot-deadline-request".into(),
            key: Some("snapshot-deadline-key".into()),
            keys: None,
            pid: Some(123),
            ttl: Some(10_000),
            max: None,
            force: false,
            retry_count: 0,
            keep_locks_after_death: false,
            wait: None,
        },
    );
    let lock_uuid = broker.drain(client)
        .into_iter()
        .find_map(|response| match response {
            Response::Lock {
                acquired: true,
                lock_uuid,
                ..
            } => lock_uuid,
            _ => None,
        })
        .expect("lock granted");
    broker.detach_lock_from_client(client, &lock_uuid);
    let mut payload = SnapshotPayload::Broker(broker.snapshot_for_raft());
    if let SnapshotPayload::Broker(snapshot) = &mut payload {
        snapshot.deadlines[0].lock_uuid = "missing-holder".into();
    }

    let err = validate_raft_snapshot_payload(&payload)
        .expect_err("deadline without matching holder must be rejected");

    assert!(err.contains("does not match restored holder state"));
}

#[test]
fn raft_snapshot_restores_queued_waiter_and_grants_after_unlock() {
    let mut broker = Desk::new(BrokerConfig::default());
    let holder = broker.register_client();
    let waiter = broker.register_client();
    broker.handle_request(holder, lock("snapshot-holder-request", "snapshot-wait-key", None, None));
    let holder_lock_uuid = broker.drain(holder)
        .into_iter()
        .find_map(|response| match response {
            Response::Lock {
                acquired: true,
                lock_uuid,
                ..
            } => lock_uuid,
            _ => None,
        })
        .expect("holder lock granted");
    broker.handle_request(
        waiter,
        Request::Lock {
            uuid: "snapshot-waiter-request".into(),
            key: Some("snapshot-wait-key".into()),
            keys: None,
            pid: Some(456),
            ttl: Some(5_000),
            max: None,
            force: false,
            retry_count: 0,
            keep_locks_after_death: false,
            wait: None,
        },
    );
    assert!(matches!(
        broker.drain(waiter).as_slice(),
        [Response::Lock {
            acquired: false,
            ..
        }]
    ));
    assert_eq!(broker.metrics().holders, 1);
    assert_eq!(broker.metrics().waiters, 1);

    let payload = SnapshotPayload::Broker(broker.snapshot_for_raft());
    validate_raft_snapshot_payload(&payload).expect("valid waiter snapshot payload");

    let mut restored = Desk::new(BrokerConfig::default());
    restored
        .install_raft_snapshot(&payload)
        .expect("install waiter snapshot");
    let metrics = restored.metrics();
    assert_eq!(metrics.holders, 1);
    assert_eq!(metrics.waiters, 1);

    let unlocker = restored.register_client();
    restored.handle_request(unlocker, unlock("snapshot-waiter-unlock", "snapshot-wait-key", Some(holder_lock_uuid)));
    assert!(matches!(
        restored.drain(unlocker).as_slice(),
        [Response::Unlock { unlocked: true, .. }]
    ));
    let metrics = restored.metrics();
    assert_eq!(metrics.holders, 1);
    assert_eq!(metrics.waiters, 0);
    let top = restored.top_keys(1);
    assert_eq!(top.len(), 1);
    assert_eq!(top[0].key, "snapshot-wait-key");
    assert_eq!(top[0].exclusive_holders, 1);
    assert_eq!(top[0].waiters, 0);
}

#[test]
fn raft_snapshot_restored_waiter_keeps_client_id_for_drop_cleanup() {
    let mut broker = Desk::new(BrokerConfig::default());
    let holder = broker.register_client();
    let waiter = broker.register_client();
    broker.handle_request(holder, lock("snapshot-drop-holder", "snapshot-drop-key", None, None));
    assert!(broker.drain(holder)
        .iter()
        .any(|response| { matches!(response, Response::Lock { acquired: true, .. }) }));
    broker.handle_request(waiter, lock("snapshot-drop-waiter", "snapshot-drop-key", None, None));
    assert!(matches!(
        broker.drain(waiter).as_slice(),
        [Response::Lock {
            acquired: false,
            ..
        }]
    ));

    let payload = SnapshotPayload::Broker(broker.snapshot_for_raft());
    let mut restored = Desk::new(BrokerConfig::default());
    restored
        .install_raft_snapshot(&payload)
        .expect("install waiter snapshot");
    assert_eq!(restored.metrics().waiters, 1);

    restored.drop_client(waiter);
    let metrics = restored.metrics();
    assert_eq!(metrics.holders, 1);
    assert_eq!(metrics.waiters, 0);
}

#[test]
fn raft_snapshot_validation_accepts_partial_composite_waiter_partition() {
    let payload = partial_composite_snapshot_payload();

    validate_raft_snapshot_payload(&payload)
        .expect("partial composite snapshot should validate");

    let mut restored = Desk::new(BrokerConfig::default());
    restored
        .install_raft_snapshot(&payload)
        .expect("partial composite snapshot should install");
    let metrics = restored.metrics();
    assert_eq!(metrics.holders, 2);
    assert_eq!(metrics.waiters, 1);
}

#[test]
fn raft_snapshot_validation_rejects_composite_waiter_on_wrong_queue_key() {
    let mut payload = partial_composite_snapshot_payload();
    rewrite_waiter(&mut payload, Some(&["snapshot-partial-a", "snapshot-partial-b"]), Some(&[]), Some(&[]));

    let err = validate_raft_snapshot_payload(&payload)
        .expect_err("wrong queued key must be rejected");

    assert!(
        err.contains("queued on the wrong key"),
        "unexpected error: {err}"
    );
}

#[test]
fn raft_snapshot_validation_rejects_composite_waiter_duplicate_remaining_key() {
    let mut payload = partial_composite_snapshot_payload();
    rewrite_waiter(&mut payload, Some(&["snapshot-partial-b", "snapshot-partial-b"]), None, None);

    let err = validate_raft_snapshot_payload(&payload)
        .expect_err("duplicate remaining key must be rejected");

    assert!(
        err.contains("repeats remaining composite key"),
        "unexpected error: {err}"
    );
}

#[test]
fn raft_snapshot_validation_rejects_composite_waiter_overlapping_partition() {
    let mut payload = partial_composite_snapshot_payload();
    rewrite_waiter(&mut payload, None, Some(&["snapshot-partial-a", "snapshot-partial-b"]), Some(&[("snapshot-partial-a", 1), ("snapshot-partial-b", 2)]));

    let err = validate_raft_snapshot_payload(&payload)
        .expect_err("overlapping remaining/granted key must be rejected");

    assert!(
        err.contains("in both remainingKeys and grantedKeys"),
        "unexpected error: {err}"
    );
}

#[test]
fn raft_snapshot_validation_rejects_composite_waiter_incomplete_partition() {
    let mut payload = partial_composite_snapshot_payload();
    rewrite_waiter(&mut payload, Some(&["snapshot-partial-b"]), Some(&[]), Some(&[]));

    let err = validate_raft_snapshot_payload(&payload)
        .expect_err("incomplete composite partition must be rejected");

    assert!(
        err.contains("does not partition allKeys"),
        "unexpected error: {err}"
    );
}

#[test]
fn raft_snapshot_validation_rejects_composite_waiter_token_key_mismatch() {
    let mut payload = partial_composite_snapshot_payload();
    rewrite_waiter(&mut payload, None, None, Some(&[]));

    let err = validate_raft_snapshot_payload(&payload)
        .expect_err("missing granted token must be rejected");

    assert!(
        err.contains("granted token keys do not match grantedKeys"),
        "unexpected error: {err}"
    );
}

#[test]
fn exclusive_lock_granted_then_queued() {
    let mut broker = Desk::new(BrokerConfig::default());
    let a = broker.register_client();
    let b = broker.register_client();

    broker.handle_request(a, lock("r1", "k", Some(1000), None));
    let a_msgs = broker.drain(a);
    let lock_uuid_a = match a_msgs.first().unwrap() {
        Response::Lock {
            acquired,
            lock_uuid,
            fencing_token,
            ..
        } => {
            assert!(*acquired);
            assert!(fencing_token.is_some());
            lock_uuid.clone().unwrap()
        }
        other => panic!("unexpected {other:?}"),
    };

    broker.handle_request(b, lock("r2", "k", Some(1000), None));
    let b_msgs = broker.drain(b);
    match b_msgs.first().unwrap() {
        Response::Lock { acquired, .. } => assert!(!acquired),
        other => panic!("unexpected {other:?}"),
    }

    // unlock A
    broker.handle_request(a, unlock("u1", "k", Some(lock_uuid_a)));
    let _ = broker.drain(a);

    // B should now be granted.
    let b_msgs = broker.drain(b);
    let granted = b_msgs.iter().any(|m| {
        matches!(
            m,
            Response::Lock {
                acquired: true,
                fencing_token: Some(_),
                ..
            }
        )
    });
    assert!(granted, "B was not granted after A unlocked: {b_msgs:?}");
}

#[test]
fn fencing_tokens_are_monotonic() {
    let mut broker = Desk::new(BrokerConfig::default());
    let c = broker.register_client();
    let mut last = 0u64;
    for i in 0..10 {
        broker.handle_request(c, lock(&format!("r{i}"), "z", Some(1000), None));
        let msgs = broker.drain(c);
        let (lock_uuid, token) = msgs
            .iter()
            .find_map(|m| match m {
                Response::Lock {
                    acquired: true,
                    lock_uuid: Some(lu),
                    fencing_token: Some(t),
                    ..
                } => Some((lu.clone(), *t)),
                _ => None,
            })
            .expect("lock not granted");
        assert!(
            token > last,
            "fencing token went backwards: {token} <= {last}"
        );
        last = token;
        broker.handle_request(c, unlock(&format!("u{i}"), "z", Some(lock_uuid)));
        let _ = broker.drain(c);
    }
}

#[test]
fn composite_lock_acquires_atomically() {
    let mut broker = Desk::new(BrokerConfig::default());
    let a = broker.register_client();
    let b = broker.register_client();
    let c = broker.register_client();

    // A grabs ["a","b"].
    broker.handle_request(a, lock_all("ra", vec!["b".into(), "a".into()], Some(1000), None));
    let lock_uuid_a = broker.drain(a)
        .into_iter()
        .find_map(|m| match m {
            Response::CompositeLock {
                acquired: true,
                lock_uuid,
                ..
            } => lock_uuid,
            _ => None,
        })
        .expect("A should hold composite");

    // B asks for ["b","c"], should queue (b is held).
    broker.handle_request(b, lock_all("rb", vec!["b".into(), "c".into()], Some(1000), None));
    let b_pre = broker.drain(b);
    assert!(b_pre.iter().any(|m| matches!(
        m,
        Response::CompositeLock {
            acquired: false,
            ..
        }
    )));

    // C asks for ["a"], should queue.
    broker.handle_request(c, lock("rc", "a", Some(1000), None));
    let c_pre = broker.drain(c);
    assert!(c_pre.iter().any(|m| matches!(
        m,
        Response::Lock {
            acquired: false,
            ..
        }
    )));

    // A releases composite.
    broker.handle_request(
        a,
        Request::Unlock {
            uuid: "ua".into(),
            key: None,
            keys: Some(vec!["a".into(), "b".into()]),
            lock_uuid: Some(lock_uuid_a),
            force: false,
        },
    );
    let _ = broker.drain(a);

    // C (next on `a`) should be granted; B should also progress (gets b
    // first, then c).
    let c_msgs = broker.drain(c);
    assert!(c_msgs
        .iter()
        .any(|m| matches!(m, Response::Lock { acquired: true, .. })));

    let b_msgs = broker.drain(b);
    assert!(b_msgs
        .iter()
        .any(|m| matches!(m, Response::CompositeLock { acquired: true, .. })));
}

#[test]
fn rw_writer_blocks_readers_until_done() {
    let mut broker = Desk::new(BrokerConfig::default());
    let a = broker.register_client();
    let b = broker.register_client();
    let c = broker.register_client();

    broker.handle_request(
        a,
        Request::RegisterWrite {
            uuid: "w1".into(),
            key: "k".into(),
        },
    );
    let _ = broker.drain(a);

    broker.handle_request(
        b,
        Request::RegisterRead {
            uuid: "r1".into(),
            key: "k".into(),
        },
    );
    broker.handle_request(
        c,
        Request::RegisterRead {
            uuid: "r2".into(),
            key: "k".into(),
        },
    );
    for r in [b, c] {
        let m = broker.drain(r);
        assert!(m
            .iter()
            .any(|m| matches!(m, Response::RegisterReadResult { granted: false, .. })));
    }

    broker.handle_request(
        a,
        Request::EndWrite {
            uuid: "ew".into(),
            key: "k".into(),
        },
    );
    let _ = broker.drain(a);

    // Both readers should now be granted.
    for r in [b, c] {
        let m = broker.drain(r);
        assert!(m
            .iter()
            .any(|m| matches!(m, Response::RegisterReadResult { granted: true, .. })));
    }
}

#[test]
fn rw_waiting_writer_prevents_later_reader_barging() {
    let mut broker = Desk::new(BrokerConfig::default());
    let reader_a = broker.register_client();
    let writer_b = broker.register_client();
    let reader_c = broker.register_client();

    broker.handle_request(
        reader_a,
        Request::RegisterRead {
            uuid: "reader-a".into(),
            key: "rw-no-barge".into(),
        },
    );
    assert!(broker.drain(reader_a).iter().any(|m| matches!(
        m,
        Response::RegisterReadResult {
            uuid,
            granted: true,
            ..
        } if uuid == "reader-a"
    )));

    broker.handle_request(
        writer_b,
        Request::RegisterWrite {
            uuid: "writer-b".into(),
            key: "rw-no-barge".into(),
        },
    );
    assert!(broker.drain(writer_b).iter().any(|m| matches!(
        m,
        Response::RegisterWriteResult {
            uuid,
            granted: false,
            readers_count: 1,
            ..
        } if uuid == "writer-b"
    )));

    broker.handle_request(
        reader_c,
        Request::RegisterRead {
            uuid: "reader-c".into(),
            key: "rw-no-barge".into(),
        },
    );
    assert!(broker.drain(reader_c).iter().any(|m| matches!(
        m,
        Response::RegisterReadResult {
            uuid,
            granted: false,
            ..
        } if uuid == "reader-c"
    )));

    broker.handle_request(
        reader_a,
        Request::EndRead {
            uuid: "end-reader-a".into(),
            key: "rw-no-barge".into(),
        },
    );
    let _ = broker.drain(reader_a);

    let writer_msgs = broker.drain(writer_b);
    assert!(
        writer_msgs.iter().any(|m| matches!(
            m,
            Response::RegisterWriteResult {
                uuid,
                granted: true,
                writer_flag: true,
                ..
            } if uuid == "writer-b"
        )),
        "queued writer should be granted before later reader: {writer_msgs:?}"
    );
    assert!(
        broker.drain(reader_c).is_empty(),
        "later reader must not be granted while queued writer holds the key"
    );

    broker.handle_request(
        writer_b,
        Request::EndWrite {
            uuid: "end-writer-b".into(),
            key: "rw-no-barge".into(),
        },
    );
    let _ = broker.drain(writer_b);

    let reader_c_msgs = broker.drain(reader_c);
    assert!(
        reader_c_msgs.iter().any(|m| matches!(
            m,
            Response::RegisterReadResult {
                uuid,
                granted: true,
                writer_flag: false,
                ..
            } if uuid == "reader-c"
        )),
        "later reader should be granted after writer completes: {reader_c_msgs:?}"
    );
}

#[test]
fn dropping_client_releases_locks_and_queue() {
    let mut broker = Desk::new(BrokerConfig::default());
    let a = broker.register_client();
    let b = broker.register_client();

    broker.handle_request(a, lock("r1", "k", Some(1000), None));
    broker.handle_request(b, lock("r2", "k", Some(1000), None));
    let pre = broker.drain(b);
    assert!(pre.iter().any(|m| matches!(
        m,
        Response::Lock {
            acquired: false,
            ..
        }
    )));
    broker.drop_client(a);
    let post = broker.drain(b);
    assert!(post
        .iter()
        .any(|m| matches!(m, Response::Lock { acquired: true, .. })));
}

#[test]
fn drop_client_without_handle_releases_replayed_holder() {
    let mut broker = Desk::new(BrokerConfig::default());
    broker.handle_request(42, lock("replayed-holder", "k", Some(1000), None));
    assert_eq!(broker.metrics().holders, 1);

    broker.drop_client(42);
    let metrics = broker.metrics();
    assert_eq!(metrics.holders, 0);
    assert_eq!(metrics.waiters, 0);
}

#[test]
fn tick_ttl_evicts_expired_holder_and_grants_next_waiter() {
    let mut broker = Desk::new(BrokerConfig::default());
    let a = broker.register_client();
    let b = broker.register_client();

    // A acquires with a 50ms TTL.
    broker.handle_request(a, lock("r1", "k", Some(50), None));
    let _ = broker.drain(a);

    // B queues behind A.
    broker.handle_request(b, lock("r2", "k", Some(1000), None));
    let pre = broker.drain(b);
    assert!(pre.iter().any(|m| matches!(
        m,
        Response::Lock {
            acquired: false,
            ..
        }
    )));

    // Single sweep with a synthesized future Instant.
    let future = broker.now() + SECOND;
    let evicted = broker.tick_ttl(future);
    assert_eq!(
        evicted, 1,
        "exactly one holder should have been TTL-evicted"
    );

    // B should now hold the lock; the metric counter should reflect 1.
    let post = broker.drain(b);
    assert!(
        post.iter()
            .any(|m| matches!(m, Response::Lock { acquired: true, .. })),
        "B should be granted after A's TTL eviction; got {post:?}"
    );

    let snapshot = broker.metrics();
    assert_eq!(snapshot.ttl_evictions_total, 1);
}

#[test]
fn tick_ttl_is_idempotent_when_nothing_expired() {
    let mut broker = Desk::new(BrokerConfig::default());
    let a = broker.register_client();
    broker.handle_request(a, lock("r1", "k", Some(60_000), None));
    let _ = broker.drain(a);

    // Sweep with a moment that's well before the deadline.
    let now = broker.now();
    assert_eq!(broker.tick_ttl(now), 0);
    assert_eq!(broker.metrics().ttl_evictions_total, 0);
    assert_eq!(broker.metrics().pending_deadlines, 1);
}

#[test]
fn tick_ttl_skips_locks_released_before_their_deadline() {
    let mut broker = Desk::new(BrokerConfig::default());
    let a = broker.register_client();
    broker.handle_request(a, lock("r1", "k", Some(50), None));
    let lock_uuid = broker.drain(a)
        .into_iter()
        .find_map(|m| match m {
            Response::Lock { lock_uuid, .. } => lock_uuid,
            _ => None,
        })
        .expect("A should have acquired");
    broker.handle_request(a, unlock("u1", "k", Some(lock_uuid)));
    let _ = broker.drain(a);

    // Sweep well past the original deadline. There should be no
    // eviction (the lock was already released) but `pending_deadlines`
    // should drop to 0 because we removed the stale entry.
    let future = broker.now() + SECOND;
    assert_eq!(broker.tick_ttl(future), 0);
    assert_eq!(broker.metrics().ttl_evictions_total, 0);
    assert_eq!(broker.metrics().pending_deadlines, 0);
}

#[test]
fn tick_ttl_evicts_composite_holder_atomically() {
    let mut broker = Desk::new(BrokerConfig::default());
    let a = broker.register_client();
    let b = broker.register_client();

    broker.handle_request(a, lock_all("ra", vec!["x".into(), "y".into()], Some(50), None));
    let _ = broker.drain(a);

    broker.handle_request(b, lock("rb", "x", Some(1000), None));
    let _ = broker.drain(b);

    let future = broker.now() + SECOND;
    assert_eq!(broker.tick_ttl(future), 1);

    let post = broker.drain(b);
    assert!(
        post.iter()
            .any(|m| matches!(m, Response::Lock { acquired: true, .. })),
        "B should be granted on `x` after A's composite TTL-evicts; got {post:?}"
    );
}

#[test]
fn concurrency_max_three_admits_three_holders_then_queues_fourth() {
    let mut broker = Desk::new(BrokerConfig::default());
    let mut clients = Vec::new();
    for _ in 0..4 {
        clients.push(broker.register_client());
    }
    let mut grants: Vec<(Option<String>, Option<u64>, bool)> = Vec::new();
    for (i, cid) in clients.iter().enumerate() {
        broker.handle_request(*cid, lock(&format!("r{i}"), "semkey", Some(60_000), Some(3)));
        let msgs = broker.drain(*cid);
        let (lock_uuid, token, acquired) = match msgs.first() {
            Some(Response::Lock {
                acquired,
                lock_uuid,
                fencing_token,
                ..
            }) => (lock_uuid.clone(), *fencing_token, *acquired),
            other => panic!("unexpected response for client {i}: {other:?}"),
        };
        grants.push((lock_uuid, token, acquired));
    }

    // First three should be granted, fourth queued.
    assert!(
        grants[0].2 && grants[1].2 && grants[2].2,
        "first three must be granted"
    );
    assert!(!grants[3].2, "fourth must be queued");

    // Each granted holder has a distinct lock_uuid and a unique
    // fencing token. Fencing tokens are monotonically increasing so
    // a downstream resource can order operations by recency.
    let uuids: std::collections::HashSet<_> = grants[..3].iter().map(|g| g.0.clone()).collect();
    assert_eq!(uuids.len(), 3, "lock_uuids must be unique across slots");
    let tokens: Vec<u64> = grants[..3].iter().map(|g| g.1.unwrap_or(0)).collect();
    assert!(
        tokens.windows(2).all(|w| w[0] < w[1]),
        "fencing tokens must be strictly increasing across slots; got {tokens:?}"
    );

    let snapshot = broker.metrics();
    assert_eq!(snapshot.holders, 3);
    assert_eq!(snapshot.waiters, 1);

    // Releasing one of the three slots admits the queued waiter
    // exactly once, not twice.
    let release_uuid = grants[0].0.clone().unwrap();
    broker.handle_request(clients[0], unlock("u0", "semkey", Some(release_uuid)));
    let _ = broker.drain(clients[0]);
    let post = broker.drain(clients[3]);
    assert!(
        post.iter()
            .any(|m| matches!(m, Response::Lock { acquired: true, .. })),
        "fourth client should be granted after one of the three slots releases; got {post:?}"
    );

    let final_snapshot = broker.metrics();
    assert_eq!(final_snapshot.holders, 3);
    assert_eq!(final_snapshot.waiters, 0);
}

#[test]
fn concurrency_cap_clamps_oversized_max_request() {
    let cfg = BrokerConfig {
        max_concurrency_cap: 5,
        ..BrokerConfig::default()
    };
    let mut broker = Desk::new(cfg);
    let a = broker.register_client();

    broker.handle_request(a, lock("r1", "hot", Some(60_000), Some(9999)));
    let _ = broker.drain(a);

    let snapshot = broker.metrics();
    assert_eq!(snapshot.concurrency_cap_clamps_total, 1);
    assert_eq!(snapshot.max_concurrency_cap, 5);

    // Verify the lock's per-key cap is the ceiling. Add 5 more
    // acquires; the 5th must fit (cap=5 across all 6 = original a +
    // 5 new = 6 total, so the last queues).
    let mut extras = Vec::new();
    for i in 0..5 {
        let c = broker.register_client();
        extras.push((c, format!("extra-{i}")));
    }
    for (c, uuid) in extras.iter() {
        broker.handle_request(*c, lock(uuid, "hot", Some(60_000), None));
        let _ = broker.drain(*c);
    }
    let post = broker.metrics();
    assert_eq!(post.holders, 5, "cap=5 must hold exactly five holders");
    assert_eq!(post.waiters, 1, "the sixth acquire must be queued");
}

#[test]
fn force_unlock_releases_holders_owned_by_other_clients() {
    let mut broker = Desk::new(BrokerConfig::default());
    let a = broker.register_client();
    let b = broker.register_client();
    let c = broker.register_client();

    broker.handle_request(a, lock("ra", "forceme", Some(60_000), None));
    let _ = broker.drain(a);

    // B queues behind A.
    broker.handle_request(b, lock("rb", "forceme", Some(60_000), None));
    let _ = broker.drain(b);

    // C, operator, sends a force-unlock with no `lock_uuid`.
    broker.handle_request(
        c,
        Request::Unlock {
            uuid: "uc".into(),
            key: Some("forceme".into()),
            keys: None,
            lock_uuid: None,
            force: true,
        },
    );
    let _ = broker.drain(c);

    // B should have been promoted to holder.
    let after = broker.drain(b);
    assert!(
        after
            .iter()
            .any(|m| matches!(m, Response::Lock { acquired: true, .. })),
        "after force-unlock, B should hold the lock; got {after:?}"
    );
}

#[test]
fn unlock_with_wrong_lock_uuid_is_a_no_op() {
    let mut broker = Desk::new(BrokerConfig::default());
    let a = broker.register_client();
    let b = broker.register_client();

    broker.handle_request(a, lock("ra", "k", Some(60_000), None));
    let _ = broker.drain(a);

    broker.handle_request(b, unlock("ub", "k", Some("definitely-not-the-real-uuid".into())));
    let msgs = broker.drain(b);
    let unlocked = msgs.iter().find_map(|m| match m {
        Response::Unlock { unlocked, .. } => Some(*unlocked),
        _ => None,
    });
    assert_eq!(
        unlocked,
        Some(false),
        "wrong-uuid unlock must report unlocked: false; got {msgs:?}"
    );

    // A still holds (no spurious grant to anyone else).
    let snapshot = broker.metrics();
    assert_eq!(snapshot.holders, 1, "real holder must be untouched");
}

#[test]
fn composite_rejects_empty_keys() {
    let mut broker = Desk::new(BrokerConfig::default());
    let a = broker.register_client();
    broker.handle_request(a, lock_all("r", vec![], Some(60_000), None));
    let msgs = broker.drain(a);
    let err = msgs.iter().find_map(|m| match m {
        Response::CompositeLock {
            acquired: false,
            error: Some(e),
            ..
        } => Some(e.clone()),
        _ => None,
    });
    assert!(
        err.is_some(),
        "empty composite must be rejected; got {msgs:?}"
    );
}

#[test]
fn composite_rejects_oversized_keyset() {
    let mut broker = Desk::new(BrokerConfig::default());
    let a = broker.register_client();
    let too_many: Vec<String> = (0..(MAX_COMPOSITE_KEYS + 1))
        .map(|i| format!("k{i}"))
        .collect();
    broker.handle_request(a, lock_all("r", too_many, Some(60_000), None));
    let msgs = broker.drain(a);
    assert!(
        msgs.iter().any(|m| matches!(
            m,
            Response::CompositeLock {
                acquired: false,
                error: Some(_),
                ..
            }
        )),
        "oversized composite must be rejected; got {msgs:?}"
    );
}

#[test]
fn ttl_zero_does_not_register_deadline() {
    let mut broker = Desk::new(BrokerConfig::default());
    let a = broker.register_client();
    broker.handle_request(a, lock("r", "k", Some(0), None));
    let _ = broker.drain(a);
    assert_eq!(broker.metrics().pending_deadlines, 0);
    // Sweeping a year from now must not evict.
    let way_future = broker.now() + 60 * 60 * 24 * 365 * SECOND;
    assert_eq!(broker.tick_ttl(way_future), 0);
    assert_eq!(broker.metrics().holders, 1);
}

#[test]
fn concurrency_max_none_preserves_existing_per_key_cap() {
    let mut broker = Desk::new(BrokerConfig::default());
    let a = broker.register_client();
    let b = broker.register_client();
    let c = broker.register_client();

    broker.handle_request(a, lock("ra", "k", Some(60_000), Some(2)));
    let _ = broker.drain(a);

    // Second caller does not pass `max`; cap should remain 2.
    broker.handle_request(b, lock("rb", "k", Some(60_000), None));
    let _ = broker.drain(b);

    // Third caller is queued because cap is 2.
    broker.handle_request(c, lock("rc", "k", Some(60_000), None));
    let pre = broker.drain(c);
    assert!(
        pre.iter().any(|m| matches!(
            m,
            Response::Lock {
                acquired: false,
                ..
            }
        )),
        "third caller must queue while cap=2; got {pre:?}"
    );
    let snapshot = broker.metrics();
    assert_eq!(snapshot.holders, 2);
    assert_eq!(snapshot.waiters, 1);
}

#[test]
fn concurrency_max_zero_is_rejected_with_clear_error() {
    let mut broker = Desk::new(BrokerConfig::default());
    let a = broker.register_client();

    broker.handle_request(a, lock("r", "zero-max", Some(60_000), Some(0)));
    let msgs = broker.drain(a);
    let err = msgs.iter().find_map(|m| match m {
        Response::Lock {
            acquired: false,
            error: Some(e),
            ..
        } => Some(e.clone()),
        _ => None,
    });
    assert!(
        err.as_deref()
            .is_some_and(|e| e.contains("`max` must be >= 1")),
        "max=0 must be rejected with a clear error; got {msgs:?}"
    );
    // No holder, no waiter, no per-key state, broker is untouched.
    let snapshot = broker.metrics();
    assert_eq!(
        snapshot.holders, 0,
        "rejected request must not register a holder"
    );
    assert_eq!(
        snapshot.waiters, 0,
        "rejected request must not enqueue a waiter"
    );
    assert_eq!(
        snapshot.keys, 0,
        "rejected request must not create a per-key LockState"
    );
}

#[test]
fn concurrency_max_zero_on_composite_is_rejected() {
    let mut broker = Desk::new(BrokerConfig::default());
    let a = broker.register_client();

    broker.handle_request(a, lock_all("r", vec!["a".into(), "b".into()], Some(60_000), Some(0)));
    let msgs = broker.drain(a);
    assert!(
        msgs.iter().any(|m| matches!(
            m,
            Response::CompositeLock {
                acquired: false,
                error: Some(_),
                ..
            }
        )),
        "composite + max=0 must come back as compositeLock with an error; got {msgs:?}"
    );
    assert_eq!(
        broker.metrics().keys,
        0,
        "no per-key state should be created"
    );
}
