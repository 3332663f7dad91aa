//! Composite locks: granted as a whole or key by key in ascending order, so
//! that composite requests never wait for each other in a circle.

use crate::broker::acquire;
use crate::broker::acquire::CompositeLockRequest;
use crate::broker::laws;
use crate::broker::laws::Operation;
use crate::broker::model::{GrantStep, Tape};
use crate::broker::state;
use crate::broker::sweep;
use crate::broker::types::{
    BrokerConfig, BrokerModel, ClientId, Clock, DeadlineKey, ExclusiveHolder, GrantOverrides, KindModel,
    LockModel, PendingModel,
};
use crate::ordered_map;
use crate::protocol;
use crate::protocol::{Request, ResponseModel, MAX_COMPOSITE_KEYS};
use crate::queue;
use crate::text;
use vstd::prelude::*;

verus! {

/// A request that waits for `key` is consistent. A composite one waits for the
/// first of its remaining keys, and its keys, in ascending order, are those
/// granted so far followed by those that remain.
pub open spec fn consistent(key: Seq<char>, e: (Seq<char>, PendingModel)) -> bool {
    &&& e.0 == e.1.request_uuid
    &&& match e.1.kind {
        KindModel::Composite { all_keys, remaining_keys, granted_keys, granted_tokens, .. } => {
            &&& remaining_keys.len() > 0
            &&& remaining_keys[0] == key
            &&& all_keys == granted_keys + remaining_keys
            &&& ordered_map::ascending::<String>(all_keys)
            &&& all_keys.len() <= MAX_COMPOSITE_KEYS
            &&& granted_tokens.dom() == granted_keys.to_set()
        },
        _ => true,
    }
}

/// A queue holds consistent requests, each id once.
pub open spec fn consistent_queue(key: Seq<char>, q: Seq<(Seq<char>, PendingModel)>) -> bool {
    &&& queue::unique_keys(q)
    &&& forall|i: int| 0 <= i < q.len() ==> consistent(key, #[trigger] q[i])
}

/// Every queue holds consistent requests.
pub open spec fn lined_up(m: BrokerModel) -> bool {
    &&& m.locks.dom().finite()
    &&& forall|k: Seq<char>| #[trigger]
        m.locks.dom().contains(k) ==> consistent_queue(k, m.locks[k].queue)
}

/// A key with a consistent queue takes the place of another.
proof fn lemma_with_lock(m: BrokerModel, key: Seq<char>, l: LockModel)
    requires
        lined_up(m),
        consistent_queue(key, l.queue),
    ensures
        lined_up(m.with_lock(key, l)),
{
    let n = m.with_lock(key, l);
    assert forall|k: Seq<char>| #[trigger] n.locks.dom().contains(k) implies consistent_queue(
        k,
        n.locks[k].queue,
    ) by {
        if k != key {
            assert(m.locks.dom().contains(k));
        }
    }
}

/// The queue of a key, which may not exist yet.
proof fn lemma_fresh(m: BrokerModel, key: Seq<char>, wall_ms: u64)
    requires
        lined_up(m),
    ensures
        consistent_queue(key, m.lock_or_fresh(key, wall_ms).queue),
{
}

/// A consistent request joins.
proof fn lemma_joined(key: Seq<char>, l: LockModel, p: PendingModel, front: bool)
    requires
        consistent_queue(key, l.queue),
        consistent(key, (p.request_uuid, p)),
    ensures
        consistent_queue(key, l.enqueued(p, front).queue),
{
    let g = l.enqueued(p, front);
    if !queue::queued(l.queue, p.request_uuid) {
        let e = (p.request_uuid, p);
        if front {
            assert(g.queue =~= seq![e] + l.queue);
            assert forall|i: int| 0 <= i < g.queue.len() implies consistent(
                key,
                #[trigger] g.queue[i],
            ) by {
                if i > 0 {
                    assert(g.queue[i] == l.queue[i - 1]);
                }
            }
            assert forall|i: int, j: int|
                0 <= i < g.queue.len() && 0 <= j < g.queue.len() && i != j implies (
            #[trigger] g.queue[i]).0 != (#[trigger] g.queue[j]).0 by {
                if i > 0 {
                    assert(g.queue[i] == l.queue[i - 1]);
                }
                if j > 0 {
                    assert(g.queue[j] == l.queue[j - 1]);
                }
            }
        } else {
            assert(g.queue =~= l.queue.push(e));
            assert forall|i: int| 0 <= i < g.queue.len() implies consistent(
                key,
                #[trigger] g.queue[i],
            ) by {
                if i < l.queue.len() {
                    assert(g.queue[i] == l.queue[i]);
                }
            }
            assert forall|i: int, j: int|
                0 <= i < g.queue.len() && 0 <= j < g.queue.len() && i != j implies (
            #[trigger] g.queue[i]).0 != (#[trigger] g.queue[j]).0 by {
                if i < l.queue.len() {
                    assert(g.queue[i] == l.queue[i]);
                }
                if j < l.queue.len() {
                    assert(g.queue[j] == l.queue[j]);
                }
            }
        }
    }
}

/// The head of a consistent queue leaves.
proof fn lemma_popped(key: Seq<char>, q: Seq<(Seq<char>, PendingModel)>)
    requires
        consistent_queue(key, q),
        q.len() > 0,
    ensures
        consistent_queue(key, q.drop_first()),
{
    let r = q.drop_first();
    assert forall|i: int| 0 <= i < r.len() implies consistent(key, #[trigger] r[i]) by {
        assert(r[i] == q[i + 1]);
    }
    assert forall|i: int, j: int| 0 <= i < r.len() && 0 <= j < r.len() && i != j implies (
    #[trigger] r[i]).0 != (#[trigger] r[j]).0 by {
        assert(r[i] == q[i + 1]);
        assert(r[j] == q[j + 1]);
    }
}

/// Some requests leave a consistent queue.
proof fn lemma_filtered(
    key: Seq<char>,
    q: Seq<(Seq<char>, PendingModel)>,
    keep: spec_fn((Seq<char>, PendingModel)) -> bool,
)
    requires
        consistent_queue(key, q),
    ensures
        consistent_queue(key, q.filter(keep)),
    decreases q.len(),
{
    reveal(Seq::filter);
    if q.len() > 0 {
        let rest = q.drop_last();
        assert forall|i: int| 0 <= i < rest.len() implies consistent(key, #[trigger] rest[i]) by {
            assert(rest[i] == q[i]);
        }
        assert forall|i: int, j: int|
            0 <= i < rest.len() && 0 <= j < rest.len() && i != j implies (#[trigger] rest[i]).0
            != (#[trigger] rest[j]).0 by {
            assert(rest[i] == q[i]);
            assert(rest[j] == q[j]);
        }
        lemma_filtered(key, rest, keep);
        let kept = rest.filter(keep);
        if keep(q.last()) {
            let all = kept.push(q.last());
            assert(q.filter(keep) == all);
            assert(consistent(key, q[q.len() - 1]));
            assert forall|i: int| 0 <= i < kept.len() implies (#[trigger] kept[i]).0
                != q.last().0 by {
                assert(kept.contains(kept[i]));
                queue::lemma_filter_from(rest, keep, kept[i]);
                let j = choose|j: int| 0 <= j < rest.len() && rest[j] == kept[i];
                assert(q[j] == kept[i]);
                assert(q[q.len() - 1] == q.last());
            }
            assert forall|i: int| 0 <= i < all.len() implies consistent(key, #[trigger] all[i]) by {
                if i < kept.len() {
                    assert(all[i] == kept[i]);
                }
            }
            assert forall|i: int, j: int|
                0 <= i < all.len() && 0 <= j < all.len() && i != j implies (#[trigger] all[i]).0
                != (#[trigger] all[j]).0 by {
                if i < kept.len() {
                    assert(all[i] == kept[i]);
                }
                if j < kept.len() {
                    assert(all[j] == kept[j]);
                }
            }
        }
    }
}

/// A composite request that moves on stays consistent.
proof fn lemma_continues(
    key: Seq<char>,
    other: Seq<char>,
    p: PendingModel,
    t: LockModel,
    q: PendingModel,
)
    requires
        consistent(key, (p.request_uuid, p)),
        p.kind is Composite,
        p.kind->remaining_keys.len() > 1,
        p.kind->remaining_keys[1] == other,
        laws::continues(p, key, t, q),
    ensures
        consistent(other, (q.request_uuid, q)),
{
    let granted = p.kind->granted_keys;
    let remaining = p.kind->remaining_keys;
    assert(granted.push(key) + remaining.drop_first() =~= granted + remaining);
    granted.lemma_push_to_set_commute(key);
    assert(q.kind->granted_tokens.dom() =~= granted.push(key).to_set());
}

/// One grant keeps the queues consistent.
pub proof fn lemma_step(m: BrokerModel, key: Seq<char>, clock: Clock, tape: Tape)
    requires
        lined_up(m),
    ensures
        match m.grant_step(key, clock, tape) {
            GrantStep::Blocked => true,
            GrantStep::Granted(n) => lined_up(n),
            GrantStep::Moved(n, _) => lined_up(n),
        },
{
    let l = m.locks[key];
    if m.locks.dom().contains(key) && l.queue.len() > 0 {
        lemma_popped(key, l.queue);
        match m.grant_step(key, clock, tape) {
            GrantStep::Blocked => {},
            GrantStep::Granted(n) => {
                let g = n.locks[key];
                assert(n.locks =~= m.locks.insert(key, g));
                assert(g.queue =~= l.queue.drop_first());
                lemma_with_lock(m, key, g);
                assert(n.locks =~= m.with_lock(key, g).locks);
            },
            GrantStep::Moved(n, other) => {
                laws::lemma_moved(m, key, clock, tape);
                let t = laws::taken(m, key);
                let p = l.queue[0].1;
                let between = m.with_lock(key, t).observed(
                    t.exclusive_holders[p.kind->composite_lock_uuid].fencing_token,
                );
                let q = choose|q: PendingModel| #[trigger]
                    n.locks == between.locks.insert(
                        other,
                        between.lock_or_fresh(other, clock.wall_ms).enqueued(q, false),
                    ) && laws::continues(p, key, t, q);
                assert(consistent(key, l.queue[0]));
                lemma_continues(key, other, p, t, q);
                assert(t.queue =~= l.queue.drop_first());
                lemma_with_lock(m, key, t);
                lemma_fresh(between, other, clock.wall_ms);
                let base = between.lock_or_fresh(other, clock.wall_ms);
                lemma_joined(other, base, q, false);
                lemma_with_lock(between, other, base.enqueued(q, false));
            },
        }
    }
}

/// A key whose composite head has been granted it keeps its queue consistent.
pub proof fn lemma_taken(m: BrokerModel, key: Seq<char>)
    requires
        lined_up(m),
        m.locks.dom().contains(key),
        m.locks[key].queue.len() > 0,
    ensures
        lined_up(m.with_lock(key, laws::taken(m, key))),
{
    let t = laws::taken(m, key);
    lemma_popped(key, m.locks[key].queue);
    assert(t.queue =~= m.locks[key].queue.drop_first());
    lemma_with_lock(m, key, t);
}

/// Idle marks keep the queues consistent.
pub proof fn lemma_mark(m: BrokerModel, key: Seq<char>, now: u128)
    requires
        lined_up(m),
    ensures
        lined_up(m.idle_marked(key, now)),
{
    if m.locks.dom().contains(key) {
        lemma_with_lock(m, key, m.locks[key].idle_marked(now));
    }
}

/// Settling keeps the queues consistent.
proof fn lemma_settle(m: BrokerModel, stack: Seq<Seq<char>>, clock: Clock, tape: Tape)
    requires
        lined_up(m),
    ensures
        lined_up(m.settled(stack, clock, tape)),
{
    let inv = |a: BrokerModel| lined_up(a);
    assert forall|a: BrokerModel, k: Seq<char>|
        a.locks.dom().finite() && #[trigger] inv(a) implies match #[trigger] a.grant_step(
        k,
        clock,
        tape,
    ) {
        GrantStep::Blocked => true,
        GrantStep::Granted(n) => inv(n),
        GrantStep::Moved(n, _) => inv(n),
    } by {
        lemma_step(a, k, clock, tape);
    }
    assert forall|a: BrokerModel, k: Seq<char>| #[trigger] inv(a) implies inv(
        #[trigger] a.idle_marked(k, clock.now),
    ) by {
        lemma_mark(a, k, clock.now);
    }
    assert(inv(m));
    laws::lemma_settled(m, stack, clock, tape, inv);
}

/// Keys whose queues are as before, or shorter, are consistent.
pub proof fn lemma_shorter(m: BrokerModel, n: BrokerModel)
    requires
        lined_up(m),
        n.locks.dom().subset_of(m.locks.dom()),
        forall|k: Seq<char>| #[trigger]
            n.locks.dom().contains(k) ==> n.locks[k].queue == m.locks[k].queue || consistent_queue(
                k,
                n.locks[k].queue,
            ),
    ensures
        lined_up(n),
{
    vstd::set_lib::lemma_len_subset(n.locks.dom(), m.locks.dom());
    assert forall|k: Seq<char>| #[trigger] n.locks.dom().contains(k) implies consistent_queue(
        k,
        n.locks[k].queue,
    ) by {
        assert(m.locks.dom().contains(k));
    }
}

/// A multi-key lock request keeps the queues consistent.
proof fn lemma_composite(m: BrokerModel, r: CompositeLockRequest, clock: Clock, tape: Tape)
    requires
        lined_up(m),
    ensures
        lined_up(m.composite_requested(r, clock, tape)),
{
    let asked = ordered_map::views(r.keys@);
    let keys = ordered_map::sorted_distinct(asked);
    let n = m.composite_requested(r, clock, tape);
    let given = protocol::shown_text(r.grant_overrides.lock_uuid);
    let id = m.grant_id(given, tape);
    let t = m.id_taken(given);
    ordered_map::lemma_sorted_distinct(asked);
    laws::lemma_composite_cases(m, r, clock, tape);
    if asked.len() == 0 || asked.len() > MAX_COMPOSITE_KEYS {
    } else if m.all_vacant(keys) {
        lemma_members(
            t,
            keys,
            keys.len(),
            id,
            r.client,
            r.pid,
            r.grant_overrides.fencing_seed,
            clock.wall_ms,
        );
        let held = laws::composite_granted(m, r, clock, tape);
        let s = held.state.observed(held.top);
        assert(lined_up(s));
        laws::lemma_marks_frame(s, keys, keys.len(), clock.now);
        lemma_shorter(s, s.all_idle_marked(keys, keys.len(), clock.now));
    } else if r.wait {
        lemma_queued(m, r, clock, tape);
        lemma_settle(laws::composite_queued(m, r, clock, tape), seq![keys[0]], clock, tape);
    }
}

/// A composite request that joins a queue keeps the queues consistent.
pub proof fn lemma_queued(m: BrokerModel, r: CompositeLockRequest, clock: Clock, tape: Tape)
    requires
        lined_up(m),
        1 <= r.keys@.len() <= MAX_COMPOSITE_KEYS,
    ensures
        lined_up(laws::composite_queued(m, r, clock, tape)),
{
    let asked = ordered_map::views(r.keys@);
    let keys = ordered_map::sorted_distinct(asked);
    let given = protocol::shown_text(r.grant_overrides.lock_uuid);
    let id = m.grant_id(given, tape);
    let t = m.id_taken(given);
    ordered_map::lemma_sorted_distinct(asked);
    let queued = laws::composite_queued(m, r, clock, tape);
    let p = PendingModel {
        request_uuid: r.uuid@,
        client: r.client,
        pid: r.pid,
        ttl: r.ttl,
        grant_lock_uuid: None,
        grant_fencing_seed: r.grant_overrides.fencing_seed,
        keep_locks_after_death: false,
        kind: KindModel::Composite {
            all_keys: keys,
            remaining_keys: keys,
            granted_keys: Seq::empty(),
            granted_tokens: Map::empty(),
            composite_lock_uuid: id,
        },
    };
    lemma_fresh(t, keys[0], clock.wall_ms);
    assert(Seq::<Seq<char>>::empty() + keys =~= keys);
    assert(Map::<Seq<char>, u64>::empty().dom() =~= Seq::<Seq<char>>::empty().to_set());
    let base = t.lock_or_fresh(keys[0], clock.wall_ms);
    lemma_joined(keys[0], base, p, false);
    lemma_with_lock(t, keys[0], base.enqueued(p, false));
    lemma_mark(t.with_lock(keys[0], base.enqueued(p, false)), keys[0], clock.now);
    assert(lined_up(queued));
}

/// Taking members of a composite lock keeps the queues consistent.
proof fn lemma_members(
    m: BrokerModel,
    keys: Seq<Seq<char>>,
    n: nat,
    id: Seq<char>,
    client: ClientId,
    pid: Option<i64>,
    seed: Option<u64>,
    wall_ms: u64,
)
    requires
        lined_up(m),
        n <= keys.len(),
    ensures
        lined_up(m.members_held(keys, n, id, client, pid, seed, wall_ms).state),
    decreases n,
{
    if n > 0 {
        lemma_members(m, keys, (n - 1) as nat, id, client, pid, seed, wall_ms);
        let before = m.members_held(keys, (n - 1) as nat, id, client, pid, seed, wall_ms).state;
        let after = m.members_held(keys, n, id, client, pid, seed, wall_ms).state;
        let key = keys[n - 1];
        lemma_fresh(before, key, wall_ms);
        lemma_with_lock(before, key, after.locks[key]);
    }
}

/// Every request keeps the queues consistent.
proof fn lemma_request(
    m: BrokerModel,
    client: ClientId,
    request: Request,
    overrides: GrantOverrides,
    clock: Clock,
    tape: Tape,
)
    requires
        lined_up(m),
    ensures
        lined_up(m.handled(client, request, overrides, clock, tape)),
{
    let n = m.handled(client, request, overrides, clock, tape);
    let given = protocol::shown_text(overrides.lock_uuid);
    match request {
        Request::Lock {
            uuid,
            key,
            keys,
            pid,
            ttl,
            max,
            force,
            keep_locks_after_death,
            wait,
            ..
        } => {
            let waits = wait matches Some(w) ==> w;
            if max != Some(0u32) {
                if let (Some(k), None) = (key, keys) {
                    let base = m.lock_or_fresh(k@, clock.wall_ms);
                    let p = PendingModel {
                        request_uuid: uuid@,
                        client,
                        pid,
                        ttl,
                        grant_lock_uuid: given,
                        grant_fencing_seed: overrides.fencing_seed,
                        keep_locks_after_death,
                        kind: KindModel::Exclusive,
                    };
                    lemma_fresh(m, k@, clock.wall_ms);
                    lemma_joined(k@, base, p, force);
                    assert(n.locks =~= m.locks.insert(k@, n.locks[k@]));
                    assert(n.locks[k@].queue == base.queue || n.locks[k@].queue == base.enqueued(
                        p,
                        force,
                    ).queue);
                    lemma_with_lock(m, k@, n.locks[k@]);
                }
                if let (None, Some(ks)) = (key, keys) {
                    lemma_composite(
                        m,
                        CompositeLockRequest {
                            client,
                            uuid,
                            keys: ks,
                            pid,
                            ttl,
                            wait: waits,
                            grant_overrides: overrides,
                        },
                        clock,
                        tape,
                    );
                }
            }
        },
        Request::Unlock { uuid, key, keys, lock_uuid, force } => {
            let target = protocol::shown_text(lock_uuid);
            if let (Some(k), None) = (key, keys) {
                lemma_shorter(m, m.unlocked(client, seq![k@], target, force));
                lemma_settle(
                    m.unlocked(client, seq![k@], target, force),
                    seq![k@].reverse(),
                    clock,
                    tape,
                );
            }
            if let (None, Some(ks)) = (key, keys) {
                let all = ordered_map::views(ks@);
                lemma_shorter(m, m.unlocked(client, all, target, force));
                lemma_settle(m.unlocked(client, all, target, force), all.reverse(), clock, tape);
            }
        },
        Request::RegisterRead { uuid, key } => {
            let base = m.lock_or_fresh(key@, clock.wall_ms);
            let p = acquire::waiting(client, uuid@, given, overrides.fencing_seed, KindModel::Reader);
            lemma_fresh(m, key@, clock.wall_ms);
            lemma_joined(key@, base, p, false);
            assert(n.locks =~= m.locks.insert(key@, n.locks[key@]));
            assert(n.locks[key@].queue == base.queue || n.locks[key@].queue == base.enqueued(
                p,
                false,
            ).queue);
            lemma_with_lock(m, key@, n.locks[key@]);
        },
        Request::RegisterWrite { uuid, key } => {
            let base = m.lock_or_fresh(key@, clock.wall_ms);
            let p = acquire::waiting(client, uuid@, given, overrides.fencing_seed, KindModel::Writer);
            lemma_fresh(m, key@, clock.wall_ms);
            lemma_joined(key@, base, p, false);
            assert(n.locks =~= m.locks.insert(key@, n.locks[key@]));
            assert(n.locks[key@].queue == base.queue || n.locks[key@].queue == base.enqueued(
                p,
                false,
            ).queue);
            lemma_with_lock(m, key@, n.locks[key@]);
        },
        Request::EndRead { uuid, key } => {
            if m.locks.dom().contains(key@) {
                lemma_shorter(m, m.read_released(client, uuid@, key@));
                lemma_settle(m.read_released(client, uuid@, key@), seq![key@], clock, tape);
            }
        },
        Request::EndWrite { uuid, key } => {
            if m.locks.dom().contains(key@) {
                lemma_shorter(m, m.write_released(client, uuid@, key@));
                lemma_settle(m.write_released(client, uuid@, key@), seq![key@], clock, tape);
            }
        },
        _ => {},
    }
}

/// What a client leaves are consistent queues.
pub proof fn lemma_left(m: BrokerModel, client: ClientId)
    requires
        lined_up(m),
    ensures
        m.clients.dom().contains(client) ==> lined_up(m.handle_dropped(client)),
        lined_up(m.stranger_dropped(client)),
{
    if m.clients.dom().contains(client) {
        let n = m.handle_dropped(client);
        let c = m.clients[client];
        assert forall|k: Seq<char>| #[trigger] n.locks.dom().contains(k) implies consistent_queue(
            k,
            n.locks[k].queue,
        ) by {
            assert(m.locks.dom().contains(k));
            lemma_filtered(
                k,
                m.locks[k].queue,
                |e: (Seq<char>, PendingModel)| !c.pending_request_uuids.contains((k, e.0)),
            );
        }
        lemma_shorter(m, n);
    }
    let n = m.stranger_dropped(client);
    assert forall|k: Seq<char>| #[trigger] n.locks.dom().contains(k) implies consistent_queue(
        k,
        n.locks[k].queue,
    ) by {
        assert(m.locks.dom().contains(k));
        lemma_filtered(
            k,
            m.locks[k].queue,
            |e: (Seq<char>, PendingModel)| e.1.client != client,
        );
    }
    lemma_shorter(m, n);
}

/// Dropping a client keeps the queues consistent.
proof fn lemma_drop(m: BrokerModel, client: ClientId, clock: Clock, tape: Tape)
    requires
        lined_up(m),
    ensures
        lined_up(m.client_dropped(client, clock, tape)),
{
    lemma_left(m, client);
    if m.clients.dom().contains(client) {
        lemma_settle(
            m.handle_dropped(client),
            ordered_map::ascending_keys::<String>(m.keys_touched(m.clients[client])).reverse(),
            clock,
            tape,
        );
    } else {
        lemma_settle(
            m.stranger_dropped(client),
            ordered_map::ascending_keys::<String>(m.keys_of_stranger(client)).reverse(),
            clock,
            tape,
        );
    }
}

/// Deadlines that pass keep the queues consistent.
proof fn lemma_deadlines(m: BrokerModel, keys: Seq<DeadlineKey>)
    requires
        lined_up(m),
    ensures
        lined_up(m.deadlines_met(keys).state),
    decreases keys.len(),
{
    if keys.len() > 0 {
        lemma_deadlines(m, keys.drop_last());
        lemma_shorter(m.deadlines_met(keys.drop_last()).state, m.deadlines_met(keys).state);
    }
}

/// Whatever happens, the queues stay consistent.
pub proof fn every_operation_keeps_queues_consistent(m: BrokerModel, op: Operation, tape: Tape)
    requires
        lined_up(m),
    ensures
        lined_up(laws::after(m, op, tape)),
{
    match op {
        Operation::Request { client, request, overrides, clock } => {
            lemma_request(m, client, request, overrides, clock, tape);
        },
        Operation::Drop { client, clock } => {
            lemma_drop(m, client, clock, tape);
        },
        Operation::Sweep { now, clock } => {
            let keys = sweep::expired_keys(m.deadlines, now);
            let met = m.deadlines_met(keys);
            lemma_deadlines(m, keys);
            let stack = ordered_map::ascending_keys::<String>(met.touched).reverse();
            lemma_settle(met.state, stack, clock, tape);
            let s = met.state.settled(stack, clock, tape);
            lemma_shorter(s, s.pruned(now));
        },
        Operation::DetachOwner { lock_uuid } => {
            lemma_shorter(m, m.owner_detached(lock_uuid));
        },
        _ => {
            lemma_shorter(m, laws::after(m, op, tape));
        },
    }
}

/// In every state that a broker can come to, the queues are consistent: each
/// request waits once per key, and a composite request waits for the first of
/// the keys that it still needs, all of them in ascending order.
pub proof fn queues_are_always_consistent(config: BrokerConfig, ops: Seq<Operation>, tape: Tape)
    ensures
        lined_up(laws::run(config, ops, tape)),
    decreases ops.len(),
{
    if ops.len() > 0 {
        queues_are_always_consistent(config, ops.drop_last(), tape);
        every_operation_keeps_queues_consistent(
            laws::run(config, ops.drop_last(), tape),
            ops.last(),
            tape,
        );
    }
}

/// A composite request waits for `key`.
pub open spec fn waits_for(m: BrokerModel, key: Seq<char>, p: PendingModel) -> bool {
    &&& m.locks.dom().contains(key)
    &&& m.locks[key].queue.contains((p.request_uuid, p))
    &&& p.kind is Composite
}

/// A composite request that waits has been granted keys before the one that it
/// waits for only.
pub proof fn composites_take_keys_in_order(
    m: BrokerModel,
    key: Seq<char>,
    p: PendingModel,
    taken: Seq<char>,
)
    requires
        lined_up(m),
        waits_for(m, key, p),
        p.kind->granted_keys.contains(taken),
    ensures
        text::text_less(taken, key),
{
    let q = m.locks[key].queue;
    let i = choose|i: int| 0 <= i < q.len() && q[i] == (p.request_uuid, p);
    assert(consistent(key, q[i]));
    let granted = p.kind->granted_keys;
    let all = p.kind->all_keys;
    let j = choose|j: int| 0 <= j < granted.len() && granted[j] == taken;
    assert(all[j] == taken);
    assert(all[granted.len() as int] == key);
}

/// Composite requests never wait for each other in a circle: there is no row of
/// them in which each has been granted the key that the one before it waits
/// for, and the first the key that the last one waits for.
pub proof fn composites_never_wait_in_a_circle(
    m: BrokerModel,
    keys: Seq<Seq<char>>,
    ps: Seq<PendingModel>,
)
    requires
        lined_up(m),
        keys.len() == ps.len(),
        keys.len() > 0,
        forall|i: int| 0 <= i < keys.len() ==> waits_for(m, #[trigger] keys[i], ps[i]),
        forall|i: int|
            0 <= i < keys.len() - 1 ==> ps[i + 1].kind->granted_keys.contains(#[trigger] keys[i]),
    ensures
        !ps[0].kind->granted_keys.contains(keys.last()),
{
    if ps[0].kind->granted_keys.contains(keys.last()) {
        lemma_chain(m, keys, ps, keys.len() - 1);
        assert(waits_for(m, keys[0], ps[0]));
        composites_take_keys_in_order(m, keys[0], ps[0], keys.last());
        if keys.len() > 1 {
            text::lemma_text_transitive(keys.last(), keys[0], keys.last());
        }
        text::lemma_text_irreflexive(keys.last());
    }
}

/// Along a row of waiters the keys ascend.
proof fn lemma_chain(m: BrokerModel, keys: Seq<Seq<char>>, ps: Seq<PendingModel>, n: int)
    requires
        lined_up(m),
        keys.len() == ps.len(),
        0 <= n < keys.len(),
        forall|i: int| 0 <= i < keys.len() ==> waits_for(m, #[trigger] keys[i], ps[i]),
        forall|i: int|
            0 <= i < keys.len() - 1 ==> ps[i + 1].kind->granted_keys.contains(#[trigger] keys[i]),
    ensures
        n > 0 ==> text::text_less(keys[0], keys[n]),
    decreases n,
{
    if n > 0 {
        lemma_chain(m, keys, ps, n - 1);
        assert(waits_for(m, keys[n], ps[n]));
        assert(ps[n - 1 + 1].kind->granted_keys.contains(keys[n - 1]));
        composites_take_keys_in_order(m, keys[n], ps[n], keys[n - 1]);
        if n > 1 {
            text::lemma_text_transitive(keys[0], keys[n - 1], keys[n]);
        }
    }
}

/// The members that have been taken: each is held under the one id, with the
/// token that the answer names.
proof fn lemma_members_taken(
    m: BrokerModel,
    keys: Seq<Seq<char>>,
    n: nat,
    id: Seq<char>,
    client: ClientId,
    pid: Option<i64>,
    seed: Option<u64>,
    wall_ms: u64,
)
    requires
        keys.no_duplicates(),
        n <= keys.len(),
    ensures
        ({
            let held = m.members_held(keys, n, id, client, pid, seed, wall_ms);
            &&& held.tokens.dom() == keys.take(n as int).to_set()
            &&& forall|i: int|
                0 <= i < n ==> {
                    let key = #[trigger] keys[i];
                    &&& held.state.locks.dom().contains(key)
                    &&& held.state.locks[key].exclusive_holders.dom().contains(id)
                    &&& held.state.locks[key].exclusive_holders[id] == ExclusiveHolder {
                        client,
                        pid,
                        fencing_token: held.tokens[key],
                        keep_locks_after_death: false,
                        composite_member: true,
                    }
                }
        }),
    decreases n,
{
    if n == 0 {
        assert(keys.take(0).to_set() =~= Set::empty());
        assert(m.members_held(keys, n, id, client, pid, seed, wall_ms).tokens.dom()
            =~= keys.take(0).to_set());
    } else {
        lemma_members_taken(m, keys, (n - 1) as nat, id, client, pid, seed, wall_ms);
        let held = m.members_held(keys, n, id, client, pid, seed, wall_ms);
        assert(keys.take(n as int) =~= keys.take(n - 1).push(keys[n - 1]));
        keys.take(n - 1).lemma_push_to_set_commute(keys[n - 1]);
        assert(held.tokens.dom() =~= keys.take(n as int).to_set());
    }
}

/// A composite request whose keys nobody holds is granted all of them at once:
/// every key is held under the one lock id of the answer, with the token that
/// the answer names for it, and no other key changes.
pub proof fn a_free_composite_is_granted_as_a_whole(
    m: BrokerModel,
    r: CompositeLockRequest,
    clock: Clock,
    tape: Tape,
)
    requires
        m.locks.dom().finite(),
        1 <= r.keys@.len() <= MAX_COMPOSITE_KEYS,
        m.all_vacant(ordered_map::sorted_distinct(ordered_map::views(r.keys@))),
    ensures
        ({
            let n = m.composite_requested(r, clock, tape);
            let asked = ordered_map::views(r.keys@);
            let id = m.grant_id(protocol::shown_text(r.grant_overrides.lock_uuid), tape);
            &&& n.outbox.last().client == r.client
            &&& n.outbox.last().response matches ResponseModel::CompositeLock {
                keys,
                acquired: true,
                lock_uuid: Some(u),
                fencing_tokens: Some(tokens),
                ..
            } && {
                &&& u == id
                &&& keys == ordered_map::sorted_distinct(asked)
                &&& tokens.dom() == asked.to_set()
                &&& forall|key: Seq<char>| #[trigger]
                    asked.contains(key) ==> {
                        &&& n.locks.dom().contains(key)
                        &&& n.locks[key].exclusive_holders.dom().contains(id)
                        &&& n.locks[key].exclusive_holders[id].client == r.client
                        &&& n.locks[key].exclusive_holders[id].fencing_token == tokens[key]
                        &&& n.locks[key].exclusive_holders[id].composite_member
                    }
            }
            &&& forall|key: Seq<char>| #[trigger]
                m.locks.dom().contains(key) && !asked.contains(key) ==> n.locks.dom().contains(key)
                    && n.locks[key] == LockModel {
                    timestamp_emptied: n.locks[key].timestamp_emptied,
                    ..m.locks[key]
                }
        }),
{
    let asked = ordered_map::views(r.keys@);
    let keys = ordered_map::sorted_distinct(asked);
    let n = m.composite_requested(r, clock, tape);
    let given = protocol::shown_text(r.grant_overrides.lock_uuid);
    let id = m.grant_id(given, tape);
    let t = m.id_taken(given);
    let seed = r.grant_overrides.fencing_seed;
    let held = laws::composite_granted(m, r, clock, tape);
    let s = held.state.observed(held.top);
    assert(t.all_vacant(keys) == m.all_vacant(keys));
    ordered_map::lemma_sorted_distinct(asked);
    laws::lemma_composite_cases(m, r, clock, tape);
    lemma_members_taken(t, keys, keys.len(), id, r.client, r.pid, seed, clock.wall_ms);
    laws::lemma_members_frame(t, keys, keys.len(), id, r.client, r.pid, seed, clock.wall_ms);
    laws::lemma_marks_frame(s, keys, keys.len(), clock.now);
    assert(keys.take(keys.len() as int) =~= keys);
    assert forall|key: Seq<char>| #[trigger] asked.contains(key) implies {
        &&& n.locks.dom().contains(key)
        &&& n.locks[key].exclusive_holders.dom().contains(id)
        &&& n.locks[key].exclusive_holders[id].client == r.client
        &&& n.locks[key].exclusive_holders[id].fencing_token == held.tokens[key]
        &&& n.locks[key].exclusive_holders[id].composite_member
    } by {
        assert(asked.to_set().contains(key));
        assert(keys.to_set().contains(key));
        let i = choose|i: int| 0 <= i < keys.len() && #[trigger] keys[i] == key;
        assert(held.state.locks.dom().contains(keys[i]));
    }
    assert forall|key: Seq<char>| #[trigger]
        m.locks.dom().contains(key) && !asked.contains(key) implies n.locks.dom().contains(key)
        && n.locks[key] == LockModel {
        timestamp_emptied: n.locks[key].timestamp_emptied,
        ..m.locks[key]
    } by {
        assert(t.locks.dom().contains(key));
        if keys.contains(key) {
            assert(keys.to_set().contains(key));
            assert(asked.to_set().contains(key));
        }
        assert(!keys.take(keys.len() as int).contains(key));
        assert(held.state.locks[key] == m.locks[key]);
        assert(s.locks.dom().contains(key));
        assert(n.locks[key] == s.all_idle_marked(keys, keys.len(), clock.now).locks[key]);
    }
}

/// A composite request that does not wait and finds one of its keys held takes
/// nothing.
pub proof fn a_contended_composite_without_wait_takes_nothing(
    m: BrokerModel,
    r: CompositeLockRequest,
    clock: Clock,
    tape: Tape,
)
    requires
        m.locks.dom().finite(),
        1 <= r.keys@.len() <= MAX_COMPOSITE_KEYS,
        !m.all_vacant(ordered_map::sorted_distinct(ordered_map::views(r.keys@))),
        !r.wait,
    ensures
        m.composite_requested(r, clock, tape).locks == m.locks,
        m.composite_requested(r, clock, tape).outbox.last().response matches
            ResponseModel::CompositeLock { acquired: false, lock_uuid: None, .. },
{
    let keys = ordered_map::sorted_distinct(ordered_map::views(r.keys@));
    assert(m.id_taken(protocol::shown_text(r.grant_overrides.lock_uuid)).all_vacant(keys)
        == m.all_vacant(keys));
}

} // verus!
