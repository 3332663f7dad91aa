//! What holds of the broker as a whole, on concrete runs.

use dd_rust_network_mutex::broker::snapshot_install::{IdleSnapshotMetrics, SnapshotPayload};
use dd_rust_network_mutex::broker::types::{Clock, GrantOverrides};
use dd_rust_network_mutex::broker::{Broker, BrokerConfig, ClientId};
use dd_rust_network_mutex::hardened_broker;
use dd_rust_network_mutex::hardened_broker::{AuthorityAllocator, MAX_SERVER_FENCING_TOKEN};
use dd_rust_network_mutex::protocol::{Request, Response};

/// One millisecond on the broker's clock.
const MILLI: u128 = 1_000_000;

#[derive(Clone, Copy)]
struct Ask<'a> {
    uuid: &'a str,
    ttl: Option<u64>,
    max: Option<u32>,
    force: bool,
    keep: bool,
    wait: Option<bool>,
}

const PLAIN: Ask<'static> =
    Ask { uuid: "r", ttl: None, max: None, force: false, keep: false, wait: None };

fn ask(uuid: &str) -> Ask<'_> {
    Ask { uuid, ..PLAIN }
}

fn lock(key: &str, a: Ask) -> Request {
    Request::Lock {
        uuid: a.uuid.into(),
        key: Some(key.into()),
        keys: None,
        pid: None,
        ttl: a.ttl,
        max: a.max,
        force: a.force,
        retry_count: 0,
        keep_locks_after_death: a.keep,
        wait: a.wait,
    }
}

fn lock_all(keys: &[&str], a: Ask) -> Request {
    Request::Lock {
        uuid: a.uuid.into(),
        key: None,
        keys: Some(keys.iter().map(|k| k.to_string()).collect()),
        pid: None,
        ttl: a.ttl,
        max: a.max,
        force: a.force,
        retry_count: 0,
        keep_locks_after_death: a.keep,
        wait: a.wait,
    }
}

fn unlock(key: &str, id: &str) -> Request {
    Request::Unlock {
        uuid: "u".into(),
        key: Some(key.into()),
        keys: None,
        lock_uuid: Some(id.into()),
        force: false,
    }
}

fn read(uuid: &str, key: &str) -> Request {
    Request::RegisterRead { uuid: uuid.into(), key: key.into() }
}

fn write(uuid: &str, key: &str) -> Request {
    Request::RegisterWrite { uuid: uuid.into(), key: key.into() }
}

fn at(ms: u128) -> Clock {
    Clock { now: ms * MILLI, wall_ms: 1_000 }
}

fn imposed(id: &str) -> GrantOverrides {
    GrantOverrides { lock_uuid: Some(id.into()), fencing_seed: None }
}

/// Makes a request at a time, under a lock id that is given.
fn request(broker: &mut Broker, client: ClientId, r: Request, id: &str, ms: u128) -> Vec<Response> {
    broker.handle_request_at(client, r, imposed(id), at(ms));
    mail(broker)
}

fn mail(broker: &mut Broker) -> Vec<Response> {
    broker.take_outbox().into_iter().map(|d| d.response).collect()
}

/// The request id and token of every grant among some responses.
fn grants(responses: &[Response]) -> Vec<(String, u64)> {
    responses
        .iter()
        .filter_map(|r| match r {
            Response::Lock { uuid, acquired: true, fencing_token: Some(t), .. } => {
                Some((uuid.clone(), *t))
            }
            Response::RegisterReadResult { uuid, granted: true, fencing_token: Some(t), .. } => {
                Some((uuid.clone(), *t))
            }
            Response::RegisterWriteResult { uuid, granted: true, fencing_token: Some(t), .. } => {
                Some((uuid.clone(), *t))
            }
            _ => None,
        })
        .collect()
}

fn names(grants: &[(String, u64)]) -> Vec<&str> {
    grants.iter().map(|(uuid, _)| uuid.as_str()).collect()
}

#[test]
fn a_writer_is_alone() {
    let mut broker = Broker::new(BrokerConfig::default());
    let c = broker.register_client();
    assert_eq!(names(&grants(&request(&mut broker, c, write("w", "k"), "lw", 0))), ["w"]);
    assert!(grants(&request(&mut broker, c, read("r", "k"), "lr", 0)).is_empty());
    assert!(grants(&request(&mut broker, c, lock("k", ask("x")), "lx", 0)).is_empty());
    assert!(grants(&request(&mut broker, c, write("v", "k"), "lv", 0)).is_empty());
    assert_eq!((broker.metrics().holders, broker.metrics().waiters), (1, 3));
}

#[test]
fn the_ceiling_bounds_holders() {
    let config = BrokerConfig { max_concurrency_cap: 1, ..BrokerConfig::default() };
    let mut broker = Broker::new(config);
    let c = broker.register_client();
    for (i, id) in ["a", "b", "c"].iter().enumerate() {
        let many = Ask { uuid: id, max: Some(50), ..PLAIN };
        request(&mut broker, c, lock("k", many), id, i as u128);
    }
    assert_eq!((broker.metrics().holders, broker.metrics().waiters), (1, 2));
    assert_eq!(broker.metrics().concurrency_cap_clamps_total, 3);
}

#[test]
fn tokens_grow_also_when_a_key_was_forgotten() {
    let config = BrokerConfig { idle_key_grace: 5, ..BrokerConfig::default() };
    let mut broker = Broker::new(config);
    let c = broker.register_client();
    let first = grants(&request(&mut broker, c, lock("k", ask("a")), "la", 0))[0].1;
    assert_eq!(first, 1_001);
    request(&mut broker, c, unlock("k", "la"), "x", 1);
    assert_eq!(broker.tick_ttl_at(6 * MILLI, at(6)), 0);
    assert_eq!((broker.metrics().keys, broker.metrics().idle_keys_pruned_total), (0, 1));
    let second = grants(&request(&mut broker, c, lock("k", ask("b")), "lb", 7))[0].1;
    assert_eq!(second, 1_002);
    // A key of its own starts above them, too.
    let other = grants(&request(&mut broker, c, lock("other", ask("o")), "lo", 7))[0].1;
    assert_eq!((other, broker.metrics().fencing_watermark), (1_003, 1_003));
}

#[test]
fn an_idle_key_is_kept_for_its_grace() {
    let config = BrokerConfig { idle_key_grace: 5, ..BrokerConfig::default() };
    let mut broker = Broker::new(config);
    let c = broker.register_client();
    request(&mut broker, c, lock("k", ask("a")), "la", 0);
    request(&mut broker, c, unlock("k", "la"), "x", 1);
    broker.tick_ttl_at(6 * MILLI - 1, at(6));
    assert_eq!(broker.metrics().keys, 1);
    broker.tick_ttl_at(6 * MILLI, at(6));
    assert_eq!(broker.metrics().keys, 0);
}

#[test]
fn composites_take_their_keys_in_one_order() {
    let mut broker = Broker::new(BrokerConfig::default());
    let c = broker.register_client();
    request(&mut broker, c, lock("a", ask("h")), "lh", 0);
    request(&mut broker, c, lock_all(&["b", "a"], ask("p")), "lp", 0);
    request(&mut broker, c, lock_all(&["a", "b", "b"], ask("q")), "lq", 0);
    // Both wait for `a` and hold nothing.
    assert_eq!((broker.metrics().holders, broker.metrics().waiters), (1, 2));
    let answers = request(&mut broker, c, unlock("a", "lh"), "x", 0);
    let done: Vec<_> = answers
        .iter()
        .filter_map(|r| match r {
            Response::CompositeLock { uuid, acquired: true, keys, fencing_tokens, .. } => {
                Some((uuid.as_str(), keys.len(), fencing_tokens.as_ref().map(|t| t.len())))
            }
            _ => None,
        })
        .collect();
    assert_eq!(done, [("p", 2, Some(2))]);
    assert_eq!((broker.metrics().holders, broker.metrics().waiters), (2, 1));
}

#[test]
fn a_contended_request_without_wait_leaves_no_trace() {
    let mut broker = Broker::new(BrokerConfig::default());
    let c = broker.register_client();
    request(&mut broker, c, lock("b", ask("h")), "lh", 0);
    let fast = Ask { uuid: "f", wait: Some(false), ..PLAIN };
    let answers = request(&mut broker, c, lock_all(&["a", "b"], fast), "lf", 0);
    assert!(matches!(answers.as_slice(), [Response::CompositeLock { acquired: false, .. }]));
    let answers = request(&mut broker, c, lock("b", fast), "lf", 0);
    assert!(matches!(answers.as_slice(), [Response::Lock { acquired: false, .. }]));
    let metrics = broker.metrics();
    assert_eq!((metrics.keys, metrics.holders, metrics.waiters), (1, 1, 0));
}

#[test]
fn a_release_serves_everyone_it_can() {
    let mut broker = Broker::new(BrokerConfig::default());
    let c = broker.register_client();
    request(&mut broker, c, lock("k", ask("h")), "lh", 0);
    for (uuid, id) in [("r1", "l1"), ("r2", "l2")] {
        request(&mut broker, c, read(uuid, "k"), id, 0);
    }
    request(&mut broker, c, write("w", "k"), "lw", 0);
    request(&mut broker, c, read("r3", "k"), "l3", 0);
    let answers = request(&mut broker, c, unlock("k", "lh"), "x", 0);
    // The readers before the writer, not the one behind it.
    assert_eq!(names(&grants(&answers)), ["r1", "r2"]);
}

#[test]
fn waiters_are_served_in_turn() {
    let mut broker = Broker::new(BrokerConfig::default());
    let c = broker.register_client();
    request(&mut broker, c, lock("k", ask("h")), "lh", 0);
    request(&mut broker, c, write("w", "k"), "lw", 0);
    request(&mut broker, c, lock("k", ask("x")), "lx", 0);
    request(&mut broker, c, lock_all(&["k", "z"], ask("p")), "lp", 0);
    request(&mut broker, c, read("r", "k"), "lr", 0);
    let served = |broker: &mut Broker, id: &str| -> Vec<String> {
        request(broker, c, unlock("k", id), "any", 0)
            .iter()
            .filter_map(|r| match r {
                Response::Lock { uuid, acquired: true, .. }
                | Response::CompositeLock { uuid, acquired: true, .. }
                | Response::RegisterReadResult { uuid, granted: true, .. }
                | Response::RegisterWriteResult { uuid, granted: true, .. } => Some(uuid.clone()),
                _ => None,
            })
            .collect()
    };
    assert_eq!(served(&mut broker, "lh"), ["w"]);
    assert_eq!(served(&mut broker, "lw"), ["x"]);
    assert_eq!(served(&mut broker, "lx"), ["p"]);
    assert_eq!(served(&mut broker, "lp"), ["r"]);
}

#[test]
fn a_forced_request_goes_first() {
    let mut broker = Broker::new(BrokerConfig::default());
    let c = broker.register_client();
    request(&mut broker, c, lock("k", ask("h")), "lh", 0);
    request(&mut broker, c, lock("k", ask("p")), "lp", 0);
    let forced = Ask { uuid: "q", force: true, ..PLAIN };
    request(&mut broker, c, lock("k", forced), "lq", 0);
    let answers = request(&mut broker, c, unlock("k", "lh"), "x", 0);
    assert_eq!(names(&grants(&answers)), ["q"]);
}

#[test]
fn a_foreign_client_unlocks_nothing() {
    let mut broker = Broker::new(BrokerConfig::default());
    let a = broker.register_client();
    let b = broker.register_client();
    request(&mut broker, a, lock("k", ask("h")), "lh", 0);
    let answers = request(&mut broker, b, unlock("k", "lh"), "x", 0);
    assert!(matches!(answers.as_slice(), [Response::Unlock { unlocked: false, .. }]));
    assert_eq!(broker.metrics().holders, 1);
    let answers = request(&mut broker, a, unlock("k", "lh"), "x", 0);
    assert!(matches!(answers.as_slice(), [Response::Unlock { unlocked: true, .. }]));
    request(&mut broker, a, lock("k", ask("h")), "lh", 0);
    // Once nobody owns it, its id alone releases it.
    broker.detach_lock_owner("lh");
    let answers = request(&mut broker, b, unlock("k", "lh"), "x", 0);
    assert!(matches!(answers.as_slice(), [Response::Unlock { unlocked: true, .. }]));
    assert_eq!(broker.metrics().holders, 0);
}

#[test]
fn a_client_that_goes_leaves_only_what_was_meant_to_stay() {
    let mut broker = Broker::new(BrokerConfig::default());
    let a = broker.register_client();
    let b = broker.register_client();
    let kept = Ask { uuid: "kept", keep: true, ..PLAIN };
    request(&mut broker, a, lock("stay", kept), "l1", 0);
    request(&mut broker, a, lock("go", ask("gone")), "l2", 0);
    request(&mut broker, b, lock("other", ask("o")), "l3", 0);
    request(&mut broker, a, lock("other", ask("w")), "l4", 0);
    broker.drop_client_at(a, at(0));
    let metrics = broker.metrics();
    assert_eq!((metrics.holders, metrics.waiters, metrics.clients), (2, 0, 1));
    let keys: Vec<String> = broker.top_keys(9).into_iter().map(|k| k.key).collect();
    assert_eq!(keys, ["other", "stay"]);
}

#[test]
fn a_hold_ends_at_its_deadline() {
    let mut broker = Broker::new(BrokerConfig::default());
    let c = broker.register_client();
    let short = Ask { uuid: "s", ttl: Some(10), ..PLAIN };
    request(&mut broker, c, lock("k", short), "ls", 5);
    assert_eq!(broker.tick_ttl_at(15 * MILLI - 1, at(15)), 0);
    assert_eq!(broker.metrics().holders, 1);
    assert_eq!(broker.tick_ttl_at(15 * MILLI, at(15)), 1);
    let metrics = broker.metrics();
    assert_eq!((metrics.holders, metrics.pending_deadlines), (0, 0));
    assert_eq!(metrics.ttl_evictions_total, 1);
}

#[test]
fn a_snapshot_gives_back_what_was_written() {
    let mut broker = Broker::new(BrokerConfig::default());
    let a = broker.register_client();
    let b = broker.register_client();
    let timed = Ask { uuid: "h", ttl: Some(100), max: Some(2), ..PLAIN };
    request(&mut broker, a, lock("k", timed), "lh", 0);
    request(&mut broker, a, read("r", "other"), "lr", 0);
    request(&mut broker, b, write("w", "other"), "lw", 0);
    let snapshot = broker.snapshot_at(40 * MILLI);
    assert_eq!(snapshot.schema_version, 1);
    assert_eq!(snapshot.deadlines[0].remaining_ms, 60);
    let payload = SnapshotPayload::Broker(snapshot);

    let mut restored = Broker::new(BrokerConfig::default());
    restored.install_raft_snapshot_at(&payload, 7 * MILLI).expect("a faultless snapshot");
    let (was, is) = (broker.metrics(), restored.metrics());
    assert_eq!((is.keys, is.holders, is.waiters), (was.keys, was.holders, was.waiters));
    assert_eq!(is.pending_deadlines, 1);
    assert_eq!(is.fencing_watermark, was.fencing_watermark);
    assert_eq!(is.clients, 0);
    let top = restored.top_keys(9);
    let level = top.iter().find(|k| k.key == "k").map(|k| k.max);
    assert_eq!(level, Some(2));
    // New clients get ids above those of the waiters.
    assert!(restored.register_client() > b);
    // The deadline keeps its remaining time.
    assert_eq!(restored.tick_ttl_at(67 * MILLI - 1, at(67)), 0);
    assert_eq!(restored.tick_ttl_at(67 * MILLI, at(67)), 1);
    // The reader came back as a bearer token.
    let c = restored.register_client();
    let answers = request(&mut restored, c, unlock("other", "lr"), "x", 70);
    assert!(answers.iter().any(|r| matches!(r, Response::Unlock { unlocked: true, .. })));
    assert_eq!(names(&grants(&answers)), ["w"]);
}

#[test]
fn a_faulty_snapshot_changes_nothing() {
    let mut broker = Broker::new(BrokerConfig::default());
    let c = broker.register_client();
    request(&mut broker, c, lock("k", ask("h")), "lh", 0);
    let mut snapshot = broker.snapshot_at(0);
    snapshot.schema_version = 2;
    let err = broker
        .install_raft_snapshot_at(&SnapshotPayload::Broker(snapshot), 0)
        .expect_err("a fault");
    assert_eq!(err, "unsupported broker snapshot schema version 2");
    assert_eq!((broker.metrics().holders, broker.metrics().clients), (1, 1));
}

#[test]
fn counters_of_an_idle_broker_are_restored() {
    let mut broker = Broker::new(BrokerConfig::default());
    let idle = IdleSnapshotMetrics {
        holders: Some(0),
        waiters: Some(0),
        pending_deadlines: Some(0),
        ttl_evictions_total: Some(3),
        concurrency_cap_clamps_total: None,
        fencing_watermark: Some(99),
        idle_keys_pruned_total: None,
    };
    broker.install_raft_snapshot_at(&SnapshotPayload::Idle(Some(idle)), 0).expect("idle");
    assert_eq!(broker.metrics().ttl_evictions_total, 3);
    assert_eq!(broker.metrics().fencing_watermark, 99);

    let busy = IdleSnapshotMetrics { waiters: Some(4), ..idle };
    assert_eq!(
        broker.install_raft_snapshot_at(&SnapshotPayload::Idle(Some(busy)), 0),
        Err("cannot install non-idle broker snapshot: metrics.waiters=4".to_string())
    );
    let partial = IdleSnapshotMetrics { pending_deadlines: None, ..idle };
    assert_eq!(
        broker.install_raft_snapshot_at(&SnapshotPayload::Idle(Some(partial)), 0),
        Err("idle broker snapshot missing numeric metrics.pendingDeadlines".to_string())
    );
    assert_eq!(
        broker.install_raft_snapshot_at(&SnapshotPayload::Idle(None), 0),
        Err("idle broker snapshot is missing metrics".to_string())
    );
}

#[test]
fn a_composite_released_in_part_cannot_be_restored() {
    let mut broker = Broker::new(BrokerConfig::default());
    let c = broker.register_client();
    let timed = Ask { uuid: "h", ttl: Some(100), ..PLAIN };
    request(&mut broker, c, lock_all(&["a", "b"], timed), "lh", 0);
    request(&mut broker, c, unlock("a", "lh"), "x", 0);
    let payload = SnapshotPayload::Broker(broker.snapshot_at(0));
    let err = broker.install_raft_snapshot_at(&payload, 0).expect_err("a fault");
    assert!(err.contains("does not match restored holder state"), "{err}");
}

// ---- guarded by an authority ------------------------------------------------

fn guarded(next: u64) -> hardened_broker::Broker {
    hardened_broker::Broker::with_authority(BrokerConfig::default(), AuthorityAllocator { next })
}

fn ask_guarded(
    broker: &mut hardened_broker::Broker,
    client: ClientId,
    r: Request,
    id: &str,
) -> Vec<Response> {
    broker.handle_request_at(client, r, imposed(id), Clock { now: 0, wall_ms: 1 });
    broker.take_outbox().into_iter().map(|d| d.response).collect()
}

#[test]
fn reserved_tokens_never_overlap() {
    let mut broker = guarded(100);
    let c = broker.register_client();
    let answers = ask_guarded(&mut broker, c, lock_all(&["b", "a", "b"], ask("p")), "lp");
    match answers.as_slice() {
        [Response::CompositeLock { fencing_tokens: Some(t), .. }] => {
            assert_eq!(t.get(&"a".to_string()), Some(&100));
            assert_eq!(t.get(&"b".to_string()), Some(&101));
        }
        other => panic!("unexpected answer {other:?}"),
    }
    // A request that waits has its token reserved too.
    assert!(grants(&ask_guarded(&mut broker, c, lock("a", ask("w")), "lw")).is_empty());
    assert_eq!(grants(&ask_guarded(&mut broker, c, lock("c", ask("q")), "lq"))[0].1, 103);
    let release = Request::Unlock {
        uuid: "u".into(),
        key: None,
        keys: Some(vec!["a".into(), "b".into()]),
        lock_uuid: Some("lp".into()),
        force: false,
    };
    let answers = ask_guarded(&mut broker, c, release, "x");
    assert_eq!(grants(&answers), [("w".to_string(), 102)]);
}

#[test]
fn without_tokens_nothing_is_locked() {
    let mut broker = guarded(MAX_SERVER_FENCING_TOKEN);
    let c = broker.register_client();
    let answers = ask_guarded(&mut broker, c, lock_all(&["a", "b"], ask("p")), "lp");
    match answers.as_slice() {
        [Response::CompositeLock { acquired: false, error: Some(error), .. }] => {
            assert_eq!(
                error,
                "fencing authority range would exceed fleet-safe ceiling 9007199254740991"
            );
        }
        other => panic!("unexpected answer {other:?}"),
    }
    assert_eq!(broker.metrics().keys, 0);
    let answers = ask_guarded(&mut broker, c, lock("a", ask("q")), "lq");
    assert_eq!(grants(&answers), [("q".to_string(), MAX_SERVER_FENCING_TOKEN)]);
    let answers = ask_guarded(&mut broker, c, lock("b", ask("r")), "lr");
    match answers.as_slice() {
        [Response::Lock { acquired: false, error: Some(error), .. }] => {
            assert_eq!(
                error,
                "fencing authority exhausted at fleet-safe ceiling 9007199254740991"
            );
        }
        other => panic!("unexpected answer {other:?}"),
    }
    let answers = ask_guarded(&mut broker, c, read("s", "c"), "ls");
    assert!(matches!(answers.as_slice(), [Response::Error { .. }]));
    assert_eq!(broker.metrics().keys, 1);
}

#[test]
fn who_was_overtaken_gets_a_fresh_token() {
    let mut broker = guarded(100);
    let c = broker.register_client();
    ask_guarded(&mut broker, c, lock("k", ask("h")), "lh");
    ask_guarded(&mut broker, c, lock("k", ask("p")), "lp");
    let forced = Ask { uuid: "q", force: true, ..PLAIN };
    ask_guarded(&mut broker, c, lock("k", forced), "lq");
    let answers = ask_guarded(&mut broker, c, unlock("k", "lh"), "x");
    assert_eq!(grants(&answers), [("q".to_string(), 102)]);
    let answers = ask_guarded(&mut broker, c, unlock("k", "lq"), "x");
    assert_eq!(grants(&answers), [("p".to_string(), 103)]);
    // The next reservation lies above the fresh token.
    assert_eq!(grants(&ask_guarded(&mut broker, c, lock("j", ask("r")), "lr"))[0].1, 104);
}

#[test]
fn more_slots_let_nobody_keep_an_older_token() {
    let mut broker = guarded(100);
    let c = broker.register_client();
    let answers = ask_guarded(&mut broker, c, lock("k", ask("h")), "lh");
    assert_eq!(grants(&answers), [("h".to_string(), 100)]);
    ask_guarded(&mut broker, c, lock("k", ask("p")), "lp");
    let wider = Ask { uuid: "q", max: Some(2), ..PLAIN };
    let answers = ask_guarded(&mut broker, c, lock("k", wider), "lq");
    assert_eq!(grants(&answers), [("q".to_string(), 102)]);
    let all = Request::Unlock {
        uuid: "u".into(),
        key: Some("k".into()),
        keys: None,
        lock_uuid: None,
        force: true,
    };
    let answers = ask_guarded(&mut broker, c, all, "x");
    assert_eq!(grants(&answers), [("p".to_string(), 103)]);
}

#[test]
fn a_composite_overtaken_on_its_way_gets_a_fresh_token() {
    let mut broker = guarded(100);
    let c = broker.register_client();
    ask_guarded(&mut broker, c, lock("b", ask("h")), "lh");
    // Takes `a` with 101 and waits for `b` with 102.
    ask_guarded(&mut broker, c, lock_all(&["a", "b"], ask("p")), "lp");
    let forced = Ask { uuid: "q", force: true, ..PLAIN };
    ask_guarded(&mut broker, c, lock("b", forced), "lq");
    let answers = ask_guarded(&mut broker, c, unlock("b", "lh"), "x");
    assert_eq!(grants(&answers), [("q".to_string(), 103)]);
    let answers = ask_guarded(&mut broker, c, unlock("b", "lq"), "x");
    let tokens = answers.iter().find_map(|r| match r {
        Response::CompositeLock { fencing_tokens: Some(t), .. } => Some(t),
        _ => None,
    });
    let tokens = tokens.expect("the composite is granted");
    assert_eq!(tokens.get(&"a".to_string()), Some(&101));
    assert_eq!(tokens.get(&"b".to_string()), Some(&104));
}

#[test]
fn at_the_ceiling_nobody_gets_a_fresh_token() {
    let mut broker = guarded(MAX_SERVER_FENCING_TOKEN - 2);
    let c = broker.register_client();
    ask_guarded(&mut broker, c, lock("k", ask("h")), "lh");
    ask_guarded(&mut broker, c, lock("k", ask("p")), "lp");
    let forced = Ask { uuid: "q", force: true, ..PLAIN };
    ask_guarded(&mut broker, c, lock("k", forced), "lq");
    let answers = ask_guarded(&mut broker, c, unlock("k", "lh"), "x");
    assert_eq!(grants(&answers), [("q".to_string(), MAX_SERVER_FENCING_TOKEN)]);
    let answers = ask_guarded(&mut broker, c, unlock("k", "lq"), "x");
    assert!(grants(&answers).is_empty());
    assert_eq!((broker.metrics().holders, broker.metrics().waiters), (0, 1));
}

#[test]
fn an_imposed_token_is_granted_as_it_is() {
    let mut broker = Broker::new(BrokerConfig::default());
    let c = broker.register_client();
    let seeded = |id: &str, seed: u64| GrantOverrides {
        lock_uuid: Some(id.into()),
        fencing_seed: Some(seed),
    };
    // The wall clock is at 1_000, well above the imposed tokens.
    broker.handle_request_at(c, lock("k", ask("h")), seeded("lh", 5), at(0));
    assert_eq!(grants(&mail(&mut broker)), [("h".to_string(), 5)]);
    broker.handle_request_at(c, lock("k", ask("p")), seeded("lp", 6), at(0));
    broker.handle_request_at(c, unlock("k", "lh"), imposed("x"), at(0));
    assert_eq!(grants(&mail(&mut broker)), [("p".to_string(), 6)]);
}

#[test]
fn one_release_hands_out_growing_tokens() {
    let mut broker = guarded(100);
    let c = broker.register_client();
    ask_guarded(&mut broker, c, write("w", "k"), "lw");
    for uuid in ["p", "q", "r"] {
        ask_guarded(&mut broker, c, read(uuid, "k"), uuid);
    }
    let end = Request::EndWrite { uuid: "w".into(), key: "k".into() };
    let answers = ask_guarded(&mut broker, c, end, "x");
    assert_eq!(
        grants(&answers),
        [("p".to_string(), 101), ("q".to_string(), 102), ("r".to_string(), 103)]
    );

    let mut plain = Broker::new(BrokerConfig::default());
    let c = plain.register_client();
    let two = |uuid| Ask { uuid, max: Some(2), ..PLAIN };
    request(&mut plain, c, lock("k", two("a")), "la", 0);
    request(&mut plain, c, lock("k", two("b")), "lb", 0);
    request(&mut plain, c, lock("k", two("p")), "lp", 0);
    request(&mut plain, c, lock("k", two("q")), "lq", 0);
    let all = Request::Unlock {
        uuid: "u".into(),
        key: Some("k".into()),
        keys: None,
        lock_uuid: None,
        force: true,
    };
    let answers = request(&mut plain, c, all, "x", 0);
    assert_eq!(grants(&answers), [("p".to_string(), 1_003), ("q".to_string(), 1_004)]);
}

#[test]
fn imposed_tokens_do_not_hold_others_back() {
    let mut broker = Broker::new(BrokerConfig::default());
    let c = broker.register_client();
    assert_eq!(grants(&request(&mut broker, c, lock("k", ask("h")), "lh", 0))[0].1, 1_001);
    let high = GrantOverrides { lock_uuid: Some("lj".into()), fencing_seed: Some(5_000) };
    broker.handle_request_at(c, lock("j", ask("j")), high, at(0));
    assert_eq!(grants(&mail(&mut broker)), [("j".to_string(), 5_000)]);
    request(&mut broker, c, unlock("k", "lh"), "x", 0);
    assert_eq!(grants(&request(&mut broker, c, lock("k", ask("p")), "lp", 0))[0].1, 1_002);
    assert_eq!(grants(&request(&mut broker, c, lock("n", ask("q")), "lq", 0))[0].1, 5_001);
}

#[test]
fn a_restored_broker_keeps_its_start() {
    let mut broker = guarded(100);
    let start = broker.started_at();
    let payload = SnapshotPayload::Broker(broker.snapshot_for_raft());
    broker.install_raft_snapshot(&payload).expect("its own snapshot");
    assert_eq!(broker.started_at(), start);
    let mut plain = Broker::new(BrokerConfig::default());
    let start = plain.started_at();
    plain.install_raft_snapshot(&payload).expect("the same snapshot");
    assert_eq!(plain.started_at(), start);
}

#[test]
fn a_restored_watermark_is_passed() {
    let mut broker = guarded(100);
    let idle = IdleSnapshotMetrics {
        holders: Some(0),
        waiters: Some(0),
        pending_deadlines: Some(0),
        ttl_evictions_total: None,
        concurrency_cap_clamps_total: None,
        fencing_watermark: Some(500),
        idle_keys_pruned_total: None,
    };
    broker.install_raft_snapshot(&SnapshotPayload::Idle(Some(idle))).expect("idle");
    let c = broker.register_client();
    let answers = ask_guarded(&mut broker, c, lock("k", ask("h")), "lh");
    assert_eq!(grants(&answers), [("h".to_string(), 501)]);
}

#[test]
fn an_allocator_starts_at_the_wall_clock() {
    assert_eq!(AuthorityAllocator::starting_at(None).next, 1);
    assert_eq!(AuthorityAllocator::starting_at(Some(0)).next, 1);
    assert_eq!(AuthorityAllocator::starting_at(Some(77)).next, 77);
    assert_eq!(AuthorityAllocator::starting_at(Some(u128::MAX)).next, MAX_SERVER_FENCING_TOKEN);
    // Microseconds since 1970, well past the year 2020.
    assert!(AuthorityAllocator::new().next > 1_577_836_800_000_000);
    let mut allocator = AuthorityAllocator { next: 5 };
    assert_eq!(
        allocator.reserve(0),
        Err("fencing reservation width must be at least one".to_string())
    );
    assert_eq!(
        allocator.advance_past(MAX_SERVER_FENCING_TOKEN + 1),
        Err("existing broker fencing watermark 9007199254740992 exceeds fleet-safe ceiling 9007199254740991".to_string())
    );
    assert_eq!(
        allocator.reserve(u64::MAX),
        Err("fencing authority range overflow".to_string())
    );
    assert_eq!(
        allocator.observe_reserved_range(0, 1),
        Err("fencing override must use a positive token and width".to_string())
    );
    assert_eq!(
        allocator.observe_reserved_range(u64::MAX, 2),
        Err("fencing override range overflow".to_string())
    );
    assert_eq!(allocator.next, 5);
}

#[test]
fn the_broker_reads_the_clocks() {
    let mut broker = Broker::new(BrokerConfig::default());
    let c = broker.register_client();
    broker.handle_request(c, lock("k", ask("h")));
    let token = grants(&mail(&mut broker))[0].1;
    // Tokens of a new key start above the wall clock in milliseconds.
    assert!(token > 1_577_836_800_000);
    let before = broker.now();
    let after = broker.now();
    assert!(before <= after);
    assert!(broker.started_at() <= std::time::Instant::now());
}

#[test]
fn lock_ids_are_random() {
    let mut broker = Broker::new(BrokerConfig::default());
    let c = broker.register_client();
    let mut ids = Vec::new();
    for key in ["a", "b", "c"] {
        broker.handle_request(c, lock(key, ask(key)));
        for response in mail(&mut broker) {
            if let Response::Lock { lock_uuid: Some(id), .. } = response {
                assert_eq!(id.len(), 36);
                assert!(!ids.contains(&id));
                ids.push(id);
            }
        }
    }
    assert_eq!(ids.len(), 3);
}
