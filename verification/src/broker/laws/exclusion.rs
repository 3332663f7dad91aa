//! Mutual exclusion: a writer is alone, readers and exclusive holders never
//! meet, and no key has more exclusive holders than the ceiling.

use crate::broker::acquire::{CompositeLockRequest, ExclusiveLockRequest};
use crate::broker::laws;
use crate::broker::laws::Operation;
use crate::broker::model::{GrantStep, Tape};
use crate::broker::sweep;
use crate::broker::types::{
    BrokerConfig, BrokerModel, ClientId, Clock, DeadlineKey, GrantOverrides, KindModel, LockModel,
    PendingModel,
};
use crate::ordered_map;
use crate::protocol;
use crate::protocol::{Request, MAX_COMPOSITE_KEYS};
use vstd::prelude::*;

verus! {

/// The holders of a key may hold it together.
pub open spec fn compatible(l: LockModel) -> bool {
    &&& l.writer is Some ==> l.readers.is_empty() && l.exclusive_holders.is_empty()
    &&& l.readers.is_empty() || l.exclusive_holders.is_empty()
}

/// A key is in order: its holders may hold it together and are no more than the
/// ceiling.
pub open spec fn orderly(l: LockModel, cap: u32) -> bool {
    &&& compatible(l)
    &&& l.exclusive_holders.dom().finite()
    &&& l.readers.dom().finite()
    &&& 1 <= l.max <= cap
    &&& l.exclusive_holders.len() <= cap
}

/// Every key is in order.
pub open spec fn safe(m: BrokerModel) -> bool {
    &&& m.locks.dom().finite()
    &&& forall|k: Seq<char>| #[trigger]
        m.locks.dom().contains(k) ==> orderly(m.locks[k], m.cap())
}

/// A key that is in order takes the place of another.
proof fn lemma_with_lock(m: BrokerModel, key: Seq<char>, l: LockModel)
    requires
        safe(m),
        orderly(l, m.cap()),
    ensures
        safe(m.with_lock(key, l)),
{
    let n = m.with_lock(key, l);
    assert forall|k: Seq<char>| #[trigger] n.locks.dom().contains(k) implies orderly(
        n.locks[k],
        n.cap(),
    ) by {
        if k != key {
            assert(m.locks.dom().contains(k));
        }
    }
}

/// Keys start in order.
proof fn lemma_fresh(m: BrokerModel, key: Seq<char>, wall_ms: u64)
    requires
        safe(m),
    ensures
        orderly(m.lock_or_fresh(key, wall_ms), m.cap()),
{
}

/// One grant keeps every key in order.
proof fn lemma_step(m: BrokerModel, key: Seq<char>, clock: Clock, tape: Tape)
    requires
        safe(m),
    ensures
        match m.grant_step(key, clock, tape) {
            GrantStep::Blocked => true,
            GrantStep::Granted(n) => safe(n),
            GrantStep::Moved(n, _) => safe(n),
        },
{
    let l = m.locks[key];
    if m.locks.dom().contains(key) && l.queue.len() > 0 {
        match m.grant_step(key, clock, tape) {
            GrantStep::Blocked => {},
            GrantStep::Granted(n) => {
                let granted = n.locks[key];
                assert(orderly(granted, m.cap()));
                lemma_with_lock(m, key, granted);
                assert(n.locks =~= m.with_lock(key, granted).locks);
            },
            GrantStep::Moved(n, other) => {
                laws::lemma_moved(m, key, clock, tape);
                let t = laws::taken(m, key);
                let p = l.queue[0].1;
                let held = m.with_lock(key, t).observed(
                    t.exclusive_holders[p.kind->composite_lock_uuid].fencing_token,
                );
                let q = choose|q: PendingModel| #[trigger]
                    n.locks == held.locks.insert(
                        other,
                        held.lock_or_fresh(other, clock.wall_ms).enqueued(q, false),
                    ) && laws::continues(p, key, t, q);
                assert(orderly(t, m.cap()));
                lemma_with_lock(m, key, t);
                lemma_fresh(held, other, clock.wall_ms);
                lemma_with_lock(
                    held,
                    other,
                    held.lock_or_fresh(other, clock.wall_ms).enqueued(q, false),
                );
            },
        }
    }
}

/// Idle marks keep every key in order.
proof fn lemma_mark(m: BrokerModel, key: Seq<char>, now: u128)
    requires
        safe(m),
    ensures
        safe(m.idle_marked(key, now)),
{
    if m.locks.dom().contains(key) {
        lemma_with_lock(m, key, m.locks[key].idle_marked(now));
    }
}

/// Settling keeps every key in order.
proof fn lemma_settle(m: BrokerModel, stack: Seq<Seq<char>>, clock: Clock, tape: Tape)
    requires
        safe(m),
    ensures
        safe(m.settled(stack, clock, tape)),
{
    let inv = |a: BrokerModel| safe(a);
    assert forall|a: BrokerModel, k: Seq<char>|
        a.locks.dom().finite() && #[trigger] inv(a) implies match #[trigger] a.grant_step(
        k,
        clock,
        tape,
    ) {
        GrantStep::Blocked => true,
        GrantStep::Granted(n) => inv(n),
        GrantStep::Moved(n, _) => inv(n),
    } by {
        lemma_step(a, k, clock, tape);
    }
    assert forall|a: BrokerModel, k: Seq<char>| #[trigger] inv(a) implies inv(
        #[trigger] a.idle_marked(k, clock.now),
    ) by {
        lemma_mark(a, k, clock.now);
    }
    assert(inv(m));
    laws::lemma_settled(m, stack, clock, tape, inv);
}

/// A single-key lock request keeps every key in order.
proof fn lemma_exclusive(m: BrokerModel, r: ExclusiveLockRequest, clock: Clock, tape: Tape)
    requires
        safe(m),
    ensures
        safe(m.exclusive_requested(r, clock, tape)),
{
    let key = r.key@;
    let n = m.exclusive_requested(r, clock, tape);
    lemma_fresh(m, key, clock.wall_ms);
    let now = n.locks[key];
    assert(n.locks =~= m.locks.insert(key, now));
    assert(orderly(now, m.cap()));
    lemma_with_lock(m, key, now);
}

/// Taking the members of a composite lock keeps every key in order.
proof fn lemma_members(
    m: BrokerModel,
    keys: Seq<Seq<char>>,
    n: nat,
    id: Seq<char>,
    client: ClientId,
    pid: Option<i64>,
    seed: Option<u64>,
    wall_ms: u64,
)
    requires
        safe(m),
        m.all_vacant(keys),
        keys.no_duplicates(),
        n <= keys.len(),
    ensures
        safe(m.members_held(keys, n, id, client, pid, seed, wall_ms).state),
        m.members_held(keys, n, id, client, pid, seed, wall_ms).state.config == m.config,
        forall|i: int|
            n <= i < keys.len() ==> {
                let s = m.members_held(keys, n, id, client, pid, seed, wall_ms).state;
                s.locks.dom().contains(#[trigger] keys[i]) ==> s.locks[keys[i]].vacant()
            },
    decreases n,
{
    if n > 0 {
        lemma_members(m, keys, (n - 1) as nat, id, client, pid, seed, wall_ms);
        let before = m.members_held(keys, (n - 1) as nat, id, client, pid, seed, wall_ms).state;
        let held = m.members_held(keys, n, id, client, pid, seed, wall_ms).state;
        let key = keys[n - 1];
        lemma_fresh(before, key, wall_ms);
        assert(before.lock_or_fresh(key, wall_ms).vacant());
        assert(orderly(held.locks[key], m.cap()));
        lemma_with_lock(before, key, held.locks[key]);
    }
}

/// Idle marks keep every key in order.
proof fn lemma_marks(m: BrokerModel, keys: Seq<Seq<char>>, n: nat, now: u128)
    requires
        safe(m),
    ensures
        safe(m.all_idle_marked(keys, n, now)),
    decreases n,
{
    if n > 0 {
        lemma_marks(m, keys, (n - 1) as nat, now);
        lemma_mark(m.all_idle_marked(keys, (n - 1) as nat, now), keys[n - 1], now);
    }
}

/// A multi-key lock request keeps every key in order.
proof fn lemma_composite(m: BrokerModel, r: CompositeLockRequest, clock: Clock, tape: Tape)
    requires
        safe(m),
    ensures
        safe(m.composite_requested(r, clock, tape)),
{
    let asked = ordered_map::views(r.keys@);
    if asked.len() > 0 && asked.len() <= MAX_COMPOSITE_KEYS {
        let keys = ordered_map::sorted_distinct(asked);
        let given = protocol::shown_text(r.grant_overrides.lock_uuid);
        let id = m.grant_id(given, tape);
        let t = m.id_taken(given);
        ordered_map::lemma_sorted_distinct(asked);
        if t.all_vacant(keys) {
            lemma_members(
                t,
                keys,
                keys.len(),
                id,
                r.client,
                r.pid,
                r.grant_overrides.fencing_seed,
                clock.wall_ms,
            );
            let held = t.members_held(
                keys,
                keys.len(),
                id,
                r.client,
                r.pid,
                r.grant_overrides.fencing_seed,
                clock.wall_ms,
            );
            assert(safe(held.state.observed(held.top)));
            lemma_marks(held.state.observed(held.top), keys, keys.len(), clock.now);
        } else if r.wait {
            let first = keys[0];
            lemma_fresh(t, first, clock.wall_ms);
            let p = PendingModel {
                request_uuid: r.uuid@,
                client: r.client,
                pid: r.pid,
                ttl: r.ttl,
                grant_lock_uuid: None,
                grant_fencing_seed: r.grant_overrides.fencing_seed,
                keep_locks_after_death: false,
                kind: KindModel::Composite {
                    all_keys: keys,
                    remaining_keys: keys,
                    granted_keys: Seq::empty(),
                    granted_tokens: Map::empty(),
                    composite_lock_uuid: id,
                },
            };
            let joined = t.lock_or_fresh(first, clock.wall_ms).enqueued(p, false);
            lemma_with_lock(t, first, joined);
            lemma_mark(t.with_lock(first, joined), first, clock.now);
            let queued = laws::composite_queued(m, r, clock, tape);
            assert(safe(queued));
            lemma_settle(queued, seq![first], clock, tape);
        }
    }
}

/// Taking holders away keeps every key in order.
pub open spec fn lessened(a: LockModel, b: LockModel) -> bool {
    &&& b.exclusive_holders.dom().subset_of(a.exclusive_holders.dom())
    &&& b.readers.dom().subset_of(a.readers.dom())
    &&& b.writer is Some ==> a.writer is Some
    &&& b.max == a.max
}

/// A key with fewer holders is still in order.
proof fn lemma_lessened(a: LockModel, b: LockModel, cap: u32)
    requires
        orderly(a, cap),
        lessened(a, b),
    ensures
        orderly(b, cap),
{
    vstd::set_lib::lemma_len_subset(b.exclusive_holders.dom(), a.exclusive_holders.dom());
    vstd::set_lib::lemma_len_subset(b.readers.dom(), a.readers.dom());
    if a.readers.is_empty() {
        assert(b.readers.dom() =~= Set::empty());
    }
    if a.exclusive_holders.is_empty() {
        assert(b.exclusive_holders.dom() =~= Set::empty());
    }
}

/// Taking holders away from some keys keeps every key in order.
proof fn lemma_all_lessened(m: BrokerModel, n: BrokerModel)
    requires
        safe(m),
        n.config == m.config,
        n.locks.dom().subset_of(m.locks.dom()),
        forall|k: Seq<char>| #[trigger]
            n.locks.dom().contains(k) ==> lessened(m.locks[k], n.locks[k]),
    ensures
        safe(n),
{
    vstd::set_lib::lemma_len_subset(n.locks.dom(), m.locks.dom());
    assert forall|k: Seq<char>| #[trigger] n.locks.dom().contains(k) implies orderly(
        n.locks[k],
        n.cap(),
    ) by {
        assert(m.locks.dom().contains(k));
        lemma_lessened(m.locks[k], n.locks[k], m.cap());
    }
}

/// An unlock request keeps every key in order.
proof fn lemma_unlock(
    m: BrokerModel,
    client: ClientId,
    uuid: Seq<char>,
    keys: Seq<Seq<char>>,
    lock_uuid: Option<Seq<char>>,
    force: bool,
    clock: Clock,
    tape: Tape,
)
    requires
        safe(m),
    ensures
        safe(m.unlock_requested(client, uuid, keys, lock_uuid, force, clock, tape)),
{
    if keys.len() > 0 && (lock_uuid is Some || force) {
        let n = m.unlocked(client, keys, lock_uuid, force);
        lemma_all_lessened(m, n);
        lemma_settle(n, keys.reverse(), clock, tape);
    }
}

/// Every request keeps every key in order.
proof fn lemma_request(
    m: BrokerModel,
    client: ClientId,
    request: Request,
    overrides: GrantOverrides,
    clock: Clock,
    tape: Tape,
)
    requires
        safe(m),
    ensures
        safe(m.handled(client, request, overrides, clock, tape)),
{
    let n = m.handled(client, request, overrides, clock, tape);
    match request {
        Request::Lock {
            uuid,
            key,
            keys,
            pid,
            ttl,
            max,
            force,
            keep_locks_after_death,
            wait,
            ..
        } => {
            let waits = wait matches Some(w) ==> w;
            if let (Some(k), None) = (key, keys) {
                lemma_exclusive(
                    m,
                    ExclusiveLockRequest {
                        client,
                        uuid,
                        key: k,
                        pid,
                        ttl,
                        max,
                        keep_locks_after_death,
                        force,
                        wait: waits,
                        grant_overrides: overrides,
                    },
                    clock,
                    tape,
                );
            }
            if let (None, Some(ks)) = (key, keys) {
                lemma_composite(
                    m,
                    CompositeLockRequest {
                        client,
                        uuid,
                        keys: ks,
                        pid,
                        ttl,
                        wait: waits,
                        grant_overrides: overrides,
                    },
                    clock,
                    tape,
                );
            }
        },
        Request::Unlock { uuid, key, keys, lock_uuid, force } => {
            let target = protocol::shown_text(lock_uuid);
            if let (Some(k), None) = (key, keys) {
                lemma_unlock(m, client, uuid@, seq![k@], target, force, clock, tape);
            }
            if let (None, Some(ks)) = (key, keys) {
                lemma_unlock(
                    m,
                    client,
                    uuid@,
                    ordered_map::views(ks@),
                    target,
                    force,
                    clock,
                    tape,
                );
            }
        },
        Request::RegisterRead { uuid, key } => {
            lemma_fresh(m, key@, clock.wall_ms);
            let now = n.locks[key@];
            assert(n.locks =~= m.locks.insert(key@, now));
            assert(orderly(now, m.cap()));
            lemma_with_lock(m, key@, now);
        },
        Request::RegisterWrite { uuid, key } => {
            lemma_fresh(m, key@, clock.wall_ms);
            let now = n.locks[key@];
            assert(n.locks =~= m.locks.insert(key@, now));
            assert(orderly(now, m.cap()));
            lemma_with_lock(m, key@, now);
        },
        Request::EndRead { uuid, key } => {
            if m.locks.dom().contains(key@) {
                let l = m.locks[key@];
                let ids = l.reads_of(client);
                let ended = m.read_released(client, uuid@, key@);
                lemma_lessened(l, l.without_readers(ids), m.cap());
                lemma_with_lock(m, key@, l.without_readers(ids));
                assert(safe(ended));
                lemma_settle(ended, seq![key@], clock, tape);
            }
        },
        Request::EndWrite { uuid, key } => {
            if m.locks.dom().contains(key@) {
                let l = m.locks[key@];
                let freed = match l.writer {
                    Some(w) if w.client == client => LockModel { writer: None, ..l },
                    _ => l,
                };
                lemma_lessened(l, freed, m.cap());
                lemma_with_lock(m, key@, freed);
                let ended = m.write_released(client, uuid@, key@);
                assert(ended.locks =~= m.with_lock(key@, freed).locks);
                assert(safe(ended));
                lemma_settle(ended, seq![key@], clock, tape);
            }
        },
        _ => {},
    }
}

/// Dropping a client keeps every key in order.
proof fn lemma_drop(m: BrokerModel, client: ClientId, clock: Clock, tape: Tape)
    requires
        safe(m),
    ensures
        safe(m.client_dropped(client, clock, tape)),
{
    if m.clients.dom().contains(client) {
        let n = m.handle_dropped(client);
        lemma_all_lessened(m, n);
        lemma_settle(
            n,
            ordered_map::ascending_keys::<String>(m.keys_touched(m.clients[client])).reverse(),
            clock,
            tape,
        );
    } else {
        let n = m.stranger_dropped(client);
        lemma_all_lessened(m, n);
        lemma_settle(
            n,
            ordered_map::ascending_keys::<String>(m.keys_of_stranger(client)).reverse(),
            clock,
            tape,
        );
    }
}

/// Deadlines that pass keep every key in order.
proof fn lemma_deadlines(m: BrokerModel, keys: Seq<DeadlineKey>)
    requires
        safe(m),
    ensures
        safe(m.deadlines_met(keys).state),
    decreases keys.len(),
{
    if keys.len() > 0 {
        lemma_deadlines(m, keys.drop_last());
        let before = m.deadlines_met(keys.drop_last()).state;
        let d = m.deadlines[keys.last()];
        let state = BrokerModel { deadlines: before.deadlines.remove(keys.last()), ..before };
        assert(safe(state));
        if state.still_held(d) {
            lemma_all_lessened(state, state.deadline_met(d));
        }
    }
}

/// A sweep keeps every key in order.
proof fn lemma_sweep(m: BrokerModel, now: u128, clock: Clock, tape: Tape)
    requires
        safe(m),
    ensures
        safe(m.swept(now, clock, tape)),
{
    let keys = sweep::expired_keys(m.deadlines, now);
    let met = m.deadlines_met(keys);
    lemma_deadlines(m, keys);
    let stack = ordered_map::ascending_keys::<String>(met.touched).reverse();
    lemma_settle(met.state, stack, clock, tape);
    let settled = met.state.settled(stack, clock, tape);
    lemma_all_lessened(settled, settled.pruned(now));
}

/// Turning a holder into a bearer token keeps every key in order.
proof fn lemma_detach(m: BrokerModel, lock_uuid: Seq<char>)
    requires
        safe(m),
    ensures
        safe(m.owner_detached(lock_uuid)),
{
    let n = m.owner_detached(lock_uuid);
    assert forall|k: Seq<char>| #[trigger] n.locks.dom().contains(k) implies lessened(
        m.locks[k],
        n.locks[k],
    ) by {
        assert(m.locks.dom().contains(k));
        let l = m.locks[k];
        assert(n.locks[k] == l.disowned(lock_uuid));
        assert(l.disowned(lock_uuid).exclusive_holders.dom() =~= l.exclusive_holders.dom());
        assert(l.disowned(lock_uuid).readers.dom() =~= l.readers.dom());
    }
    assert(n.locks.dom() =~= m.locks.dom());
    lemma_all_lessened(m, n);
}

/// Whatever happens, every key stays in order.
pub proof fn every_operation_keeps_exclusion(m: BrokerModel, op: Operation, tape: Tape)
    requires
        safe(m),
    ensures
        safe(laws::after(m, op, tape)),
{
    match op {
        Operation::Request { client, request, overrides, clock } => {
            lemma_request(m, client, request, overrides, clock, tape);
        },
        Operation::Drop { client, clock } => {
            lemma_drop(m, client, clock, tape);
        },
        Operation::Sweep { now, clock } => {
            lemma_sweep(m, now, clock, tape);
        },
        Operation::DetachOwner { lock_uuid } => {
            lemma_detach(m, lock_uuid);
        },
        _ => {
            assert(laws::after(m, op, tape).locks == m.locks);
        },
    }
}

/// In every state that a broker can come to, a writer is alone, readers and
/// exclusive holders never meet, and no key has more exclusive holders than the
/// ceiling.
pub proof fn exclusion_always_holds(config: BrokerConfig, ops: Seq<Operation>, tape: Tape)
    ensures
        safe(laws::run(config, ops, tape)),
        laws::run(config, ops, tape).config == config,
    decreases ops.len(),
{
    if ops.len() > 0 {
        exclusion_always_holds(config, ops.drop_last(), tape);
        let before = laws::run(config, ops.drop_last(), tape);
        every_operation_keeps_exclusion(before, ops.last(), tape);
        laws::lemma_config(before, ops.last(), tape);
    }
}

/// Two exclusive holders of a key at once need a concurrency level above one:
/// with a ceiling of one there is at most one holder of any kind but readers.
pub proof fn a_ceiling_of_one_is_a_mutex(
    config: BrokerConfig,
    ops: Seq<Operation>,
    tape: Tape,
    key: Seq<char>,
    a: Seq<char>,
    b: Seq<char>,
)
    requires
        config.max_concurrency_cap <= 1,
        laws::run(config, ops, tape).locks.dom().contains(key),
        laws::run(config, ops, tape).locks[key].exclusive_holders.dom().contains(a),
        laws::run(config, ops, tape).locks[key].exclusive_holders.dom().contains(b),
    ensures
        a == b,
        laws::run(config, ops, tape).locks[key].readers.is_empty(),
        laws::run(config, ops, tape).locks[key].writer is None,
{
    exclusion_always_holds(config, ops, tape);
    let l = laws::run(config, ops, tape).locks[key];
    let held = l.exclusive_holders.dom();
    if a != b {
        assert(held.remove(a).contains(b));
        assert(held.remove(a).remove(b).len() == held.len() - 2);
    }
}

} // verus!
