//! The ceiling: no fencing token above it ever reaches the lock state.

use crate::broker::acquire;
use crate::broker::acquire::{CompositeLockRequest, ExclusiveLockRequest};
use crate::broker::laws;
use crate::broker::laws::Operation;
use crate::broker::model::{GrantStep, Tape};
use crate::broker::sweep;
use crate::broker::types;
use crate::broker::types::{
    BrokerConfig, BrokerModel, ClientId, Clock, DeadlineKey, ExclusiveHolder, GrantOverrides,
    KindModel, LockModel, PendingModel, RwModel,
};
use crate::hardened_broker;
use crate::hardened_broker::laws as guarded;
use crate::hardened_broker::MAX_SERVER_FENCING_TOKEN;
use crate::ordered_map;
use crate::protocol;
use crate::protocol::{Request, MAX_COMPOSITE_KEYS};
use crate::queue;
use vstd::prelude::*;

verus! {

/// A token that every client can represent exactly.
pub open spec fn exact(token: u64) -> bool {
    1 <= token <= MAX_SERVER_FENCING_TOKEN
}

/// How many tokens a waiter has reserved.
pub open spec fn reserved(p: PendingModel) -> nat {
    match p.kind {
        KindModel::Composite { all_keys, .. } => all_keys.len(),
        _ => 1,
    }
}

/// A waiter has tokens up to the ceiling reserved.
pub open spec fn provided(p: PendingModel) -> bool {
    &&& p.grant_fencing_seed matches Some(first)
    &&& exact(first)
    &&& first + reserved(p) - 1 <= MAX_SERVER_FENCING_TOKEN
}

/// The tokens on a key, held and reserved, stay up to the ceiling.
pub open spec fn bounded(l: LockModel) -> bool {
    &&& forall|id: Seq<char>| #[trigger]
        l.exclusive_holders.dom().contains(id) ==> exact(l.exclusive_holders[id].fencing_token)
    &&& forall|id: Seq<char>| #[trigger]
        l.readers.dom().contains(id) ==> exact(l.readers[id].fencing_token)
    &&& l.writer matches Some(w) ==> exact(w.fencing_token)
    &&& forall|i: int| 0 <= i < l.queue.len() ==> provided((#[trigger] l.queue[i]).1)
}

/// Every token stays up to the ceiling.
pub open spec fn safe(m: BrokerModel) -> bool {
    &&& m.locks.dom().finite()
    &&& m.fencing_watermark <= MAX_SERVER_FENCING_TOKEN
    &&& forall|k: Seq<char>| #[trigger] m.locks.dom().contains(k) ==> bounded(m.locks[k])
}

/// The tokens that a request needs have been reserved for it.
pub open spec fn authorised(request: Request, overrides: GrantOverrides) -> bool {
    hardened_broker::width_of(request) matches Some(width) ==> {
        &&& overrides.fencing_seed matches Some(first)
        &&& exact(first)
        &&& first + width - 1 <= MAX_SERVER_FENCING_TOKEN
    }
}

/// A bounded key takes the place of another.
proof fn lemma_with_lock(m: BrokerModel, key: Seq<char>, l: LockModel)
    requires
        safe(m),
        bounded(l),
    ensures
        safe(m.with_lock(key, l)),
{
    let n = m.with_lock(key, l);
    assert forall|k: Seq<char>| #[trigger] n.locks.dom().contains(k) implies bounded(n.locks[k]) by {
        if k != key {
            assert(m.locks.dom().contains(k));
        }
    }
}

/// Keys start bounded.
proof fn lemma_fresh(m: BrokerModel, key: Seq<char>, wall_ms: u64)
    requires
        safe(m),
    ensures
        bounded(m.lock_or_fresh(key, wall_ms)),
{
}

/// One more exclusive holder with an exact token keeps a key bounded.
proof fn lemma_one_more(l: LockModel, id: Seq<char>, h: ExclusiveHolder)
    requires
        bounded(l),
        exact(h.fencing_token),
    ensures
        bounded(l.with_exclusive(id, h)),
{
    let g = l.with_exclusive(id, h);
    assert forall|u: Seq<char>| #[trigger] g.exclusive_holders.dom().contains(u) implies exact(
        g.exclusive_holders[u].fencing_token,
    ) by {
        if u != id {
            assert(l.exclusive_holders.dom().contains(u));
        }
    }
}

/// One more reader with an exact token keeps a key bounded.
proof fn lemma_one_more_reader(l: LockModel, h: RwModel)
    requires
        bounded(l),
        exact(h.fencing_token),
    ensures
        bounded(l.with_reader(h)),
{
    let g = l.with_reader(h);
    assert forall|u: Seq<char>| #[trigger] g.readers.dom().contains(u) implies exact(
        g.readers[u].fencing_token,
    ) by {
        if u != h.lock_uuid {
            assert(l.readers.dom().contains(u));
        }
    }
}

/// A provided waiter keeps a key bounded.
proof fn lemma_joined(l: LockModel, p: PendingModel, front: bool)
    requires
        bounded(l),
        provided(p),
    ensures
        bounded(l.enqueued(p, front)),
{
    let g = l.enqueued(p, front);
    assert forall|i: int| 0 <= i < g.queue.len() implies provided((#[trigger] g.queue[i]).1) by {
        if g.queue != l.queue {
            if front {
                if i > 0 {
                    assert(g.queue[i] == l.queue[i - 1]);
                }
            } else if i < l.queue.len() {
                assert(g.queue[i] == l.queue[i]);
            }
        }
    }
}

/// The head of a queue leaves a bounded key.
proof fn lemma_popped(l: LockModel)
    requires
        bounded(l),
        l.queue.len() > 0,
    ensures
        bounded(l.popped()),
        provided(l.queue[0].1),
{
    let g = l.popped();
    assert forall|i: int| 0 <= i < g.queue.len() implies provided((#[trigger] g.queue[i]).1) by {
        assert(g.queue[i] == l.queue[i + 1]);
    }
}

/// The head of a queue has an exact token reserved, and gets one.
proof fn lemma_head_token(m: BrokerModel, key: Seq<char>)
    requires
        safe(m),
        m.locks.dom().contains(key),
        m.locks[key].queue.len() > 0,
    ensures
        m.locks[key].queue[0].1.reserved_token(key) is Some,
        !m.head_barred(key) ==> (m.head_token(key) matches Some(token) && exact(token) && token
            > m.reached(key)),
{
    let l = m.locks[key];
    let p = l.queue[0].1;
    assert(bounded(l));
    assert(provided(p));
    if let KindModel::Composite { all_keys, .. } = p.kind {
        lemma_offset(all_keys, key, p.grant_fencing_seed->0);
    }
}

/// One grant keeps every key bounded.
proof fn lemma_step(m: BrokerModel, key: Seq<char>, clock: Clock, tape: Tape)
    requires
        safe(m),
    ensures
        match m.grant_step(key, clock, tape) {
            GrantStep::Blocked => true,
            GrantStep::Granted(n) => safe(n),
            GrantStep::Moved(n, _) => safe(n),
        },
{
    let l = m.locks[key];
    if m.locks.dom().contains(key) && l.queue.len() > 0 {
        let p = l.queue[0].1;
        lemma_popped(l);
        lemma_head_token(m, key);
        match m.grant_step(key, clock, tape) {
            GrantStep::Blocked => {},
            GrantStep::Granted(n) => {
                let granted = n.locks[key];
                let base = l.popped().counted(m.head_token(key));
                assert(bounded(base));
                match p.kind {
                    KindModel::Exclusive => {
                        let id = m.grant_id(p.grant_lock_uuid, tape);
                        let h = granted.exclusive_holders[id];
                        lemma_one_more(base, id, h);
                    },
                    KindModel::Reader => {
                        let id = m.grant_id(p.grant_lock_uuid, tape);
                        lemma_one_more_reader(base, granted.readers[id]);
                    },
                    KindModel::Writer => {},
                    KindModel::Composite { composite_lock_uuid, .. } => {
                        let h = granted.exclusive_holders[composite_lock_uuid];
                        lemma_one_more(base, composite_lock_uuid, h);
                    },
                }
                assert(bounded(granted));
                lemma_with_lock(m, key, granted);
                assert(n.locks =~= m.with_lock(key, granted).locks);
            },
            GrantStep::Moved(n, other) => {
                laws::lemma_moved(m, key, clock, tape);
                let t = laws::taken(m, key);
                let id = p.kind->composite_lock_uuid;
                let held = m.with_lock(key, t).observed(t.exclusive_holders[id].fencing_token);
                let q = choose|q: PendingModel| #[trigger]
                    n.locks == held.locks.insert(
                        other,
                        held.lock_or_fresh(other, clock.wall_ms).enqueued(q, false),
                    ) && laws::continues(p, key, t, q);
                lemma_one_more(l.popped(), id, t.exclusive_holders[id]);
                assert(bounded(t));
                lemma_with_lock(m, key, t);
                assert(safe(held));
                lemma_fresh(held, other, clock.wall_ms);
                let base = held.lock_or_fresh(other, clock.wall_ms);
                lemma_joined(base, q, false);
                lemma_with_lock(held, other, base.enqueued(q, false));
            },
        }
    }
}

/// The token of a member lies in the range that was reserved for all.
proof fn lemma_offset(all: Seq<Seq<char>>, key: Seq<char>, first: u64)
    requires
        exact(first),
        first + all.len() - 1 <= MAX_SERVER_FENCING_TOKEN,
    ensures
        ({
            let offset = match all.index_of_first(key) {
                Some(i) => i,
                None => 0,
            };
            types::seed_token(Some(first), offset) matches Some(token) && exact(token)
        }),
{
    all.index_of_first_ensures(key);
}

/// Idle marks keep every key bounded.
proof fn lemma_mark(m: BrokerModel, key: Seq<char>, now: u128)
    requires
        safe(m),
    ensures
        safe(m.idle_marked(key, now)),
{
    if m.locks.dom().contains(key) {
        lemma_with_lock(m, key, m.locks[key].idle_marked(now));
    }
}

/// Settling keeps every key bounded.
proof fn lemma_settle(m: BrokerModel, stack: Seq<Seq<char>>, clock: Clock, tape: Tape)
    requires
        safe(m),
    ensures
        safe(m.settled(stack, clock, tape)),
{
    let inv = |a: BrokerModel| safe(a);
    assert forall|a: BrokerModel, k: Seq<char>|
        a.locks.dom().finite() && #[trigger] inv(a) implies match #[trigger] a.grant_step(
        k,
        clock,
        tape,
    ) {
        GrantStep::Blocked => true,
        GrantStep::Granted(n) => inv(n),
        GrantStep::Moved(n, _) => inv(n),
    } by {
        lemma_step(a, k, clock, tape);
    }
    assert forall|a: BrokerModel, k: Seq<char>| #[trigger] inv(a) implies inv(
        #[trigger] a.idle_marked(k, clock.now),
    ) by {
        lemma_mark(a, k, clock.now);
    }
    assert(inv(m));
    laws::lemma_settled(m, stack, clock, tape, inv);
}

/// A single-key lock request keeps every key bounded.
proof fn lemma_exclusive(m: BrokerModel, r: ExclusiveLockRequest, clock: Clock, tape: Tape)
    requires
        safe(m),
        r.grant_overrides.fencing_seed matches Some(first) && exact(first),
    ensures
        safe(m.exclusive_requested(r, clock, tape)),
{
    let key = r.key@;
    let n = m.exclusive_requested(r, clock, tape);
    let first = r.grant_overrides.fencing_seed;
    lemma_fresh(m, key, clock.wall_ms);
    let base = m.lock_or_fresh(key, clock.wall_ms);
    let now = n.locks[key];
    let current = if m.locks.dom().contains(key) {
        m.locks[key].max
    } else {
        m.config.max_lock_holders
    };
    let l = LockModel { max: m.resolved_max(current, r.max), ..base };
    assert(bounded(l));
    assert(n.locks =~= m.locks.insert(key, now));
    if l.admits_exclusive() {
        let id = m.grant_id(protocol::shown_text(r.grant_overrides.lock_uuid), tape);
        lemma_one_more(l.counted(first), id, now.exclusive_holders[id]);
    } else if r.wait {
        let p = PendingModel {
            request_uuid: r.uuid@,
            client: r.client,
            pid: r.pid,
            ttl: r.ttl,
            grant_lock_uuid: protocol::shown_text(r.grant_overrides.lock_uuid),
            grant_fencing_seed: first,
            keep_locks_after_death: r.keep_locks_after_death,
            kind: KindModel::Exclusive,
        };
        lemma_joined(l, p, r.force);
        assert(now.queue == l.enqueued(p, r.force).queue);
    }
    assert(bounded(now));
    lemma_with_lock(m, key, now);
}

/// Taking the members of a composite lock keeps every key bounded.
proof fn lemma_members(
    m: BrokerModel,
    keys: Seq<Seq<char>>,
    n: nat,
    id: Seq<char>,
    client: ClientId,
    pid: Option<i64>,
    seed: Option<u64>,
    wall_ms: u64,
)
    requires
        safe(m),
        n <= keys.len(),
        seed matches Some(first) && exact(first) && first + keys.len() - 1
            <= MAX_SERVER_FENCING_TOKEN,
    ensures
        safe(m.members_held(keys, n, id, client, pid, seed, wall_ms).state),
        m.members_held(keys, n, id, client, pid, seed, wall_ms).top <= MAX_SERVER_FENCING_TOKEN,
    decreases n,
{
    if n > 0 {
        lemma_members(m, keys, (n - 1) as nat, id, client, pid, seed, wall_ms);
        let before = m.members_held(keys, (n - 1) as nat, id, client, pid, seed, wall_ms).state;
        let held = m.members_held(keys, n, id, client, pid, seed, wall_ms).state;
        let key = keys[n - 1];
        lemma_fresh(before, key, wall_ms);
        let l = before.lock_or_fresh(key, wall_ms);
        lemma_one_more(
            l.counted(types::seed_token(seed, n - 1)),
            id,
            held.locks[key].exclusive_holders[id],
        );
        lemma_with_lock(before, key, held.locks[key]);
    }
}

/// Idle marks keep every key bounded.
proof fn lemma_marks(m: BrokerModel, keys: Seq<Seq<char>>, n: nat, now: u128)
    requires
        safe(m),
    ensures
        safe(m.all_idle_marked(keys, n, now)),
    decreases n,
{
    if n > 0 {
        lemma_marks(m, keys, (n - 1) as nat, now);
        lemma_mark(m.all_idle_marked(keys, (n - 1) as nat, now), keys[n - 1], now);
    }
}

/// A multi-key lock request keeps every key bounded.
proof fn lemma_composite(m: BrokerModel, r: CompositeLockRequest, clock: Clock, tape: Tape)
    requires
        safe(m),
        0 < r.keys@.len() <= MAX_COMPOSITE_KEYS ==> {
            &&& r.grant_overrides.fencing_seed matches Some(first)
            &&& exact(first)
            &&& first + ordered_map::views(r.keys@).to_set().len() - 1
                <= MAX_SERVER_FENCING_TOKEN
        },
    ensures
        safe(m.composite_requested(r, clock, tape)),
{
    let asked = ordered_map::views(r.keys@);
    laws::lemma_composite_cases(m, r, clock, tape);
    if asked.len() > 0 && asked.len() <= MAX_COMPOSITE_KEYS {
        let keys = ordered_map::sorted_distinct(asked);
        let seed = r.grant_overrides.fencing_seed;
        let given = protocol::shown_text(r.grant_overrides.lock_uuid);
        let id = m.grant_id(given, tape);
        let t = m.id_taken(given);
        ordered_map::lemma_sorted_distinct(asked);
        ordered_map::lemma_ascending_no_duplicates::<String>(keys);
        assert(safe(t));
        if m.all_vacant(keys) {
            lemma_members(t, keys, keys.len(), id, r.client, r.pid, seed, clock.wall_ms);
            let held = laws::composite_granted(m, r, clock, tape);
            assert(safe(held.state.observed(held.top)));
            lemma_marks(held.state.observed(held.top), keys, keys.len(), clock.now);
            let n = m.composite_requested(r, clock, tape);
            laws::lemma_members_frame(
                t,
                keys,
                keys.len(),
                id,
                r.client,
                r.pid,
                seed,
                clock.wall_ms,
            );
        } else if r.wait {
            let p = PendingModel {
                request_uuid: r.uuid@,
                client: r.client,
                pid: r.pid,
                ttl: r.ttl,
                grant_lock_uuid: None,
                grant_fencing_seed: seed,
                keep_locks_after_death: false,
                kind: KindModel::Composite {
                    all_keys: keys,
                    remaining_keys: keys,
                    granted_keys: Seq::empty(),
                    granted_tokens: Map::empty(),
                    composite_lock_uuid: id,
                },
            };
            lemma_fresh(t, keys[0], clock.wall_ms);
            let base = t.lock_or_fresh(keys[0], clock.wall_ms);
            lemma_joined(base, p, false);
            lemma_with_lock(t, keys[0], base.enqueued(p, false));
            lemma_mark(t.with_lock(keys[0], base.enqueued(p, false)), keys[0], clock.now);
            let queued = laws::composite_queued(m, r, clock, tape);
            assert(safe(queued));
            lemma_settle(queued, seq![keys[0]], clock, tape);
        }
    }
}

/// What is on a key afterwards was there before.
pub open spec fn lessened(a: LockModel, b: LockModel) -> bool {
    &&& forall|id: Seq<char>| #[trigger]
        b.exclusive_holders.dom().contains(id) ==> a.exclusive_holders.dom().contains(id)
            && b.exclusive_holders[id].fencing_token == a.exclusive_holders[id].fencing_token
    &&& forall|id: Seq<char>| #[trigger]
        b.readers.dom().contains(id) ==> a.readers.dom().contains(id)
            && b.readers[id].fencing_token == a.readers[id].fencing_token
    &&& b.writer matches Some(w) ==> (a.writer matches Some(v) && w.fencing_token
        == v.fencing_token)
    &&& forall|i: int| 0 <= i < b.queue.len() ==> a.queue.contains(#[trigger] b.queue[i])
}

/// Taking holders and waiters away keeps every key bounded.
proof fn lemma_all_lessened(m: BrokerModel, n: BrokerModel)
    requires
        safe(m),
        n.fencing_watermark == m.fencing_watermark,
        n.locks.dom().subset_of(m.locks.dom()),
        forall|k: Seq<char>| #[trigger]
            n.locks.dom().contains(k) ==> lessened(m.locks[k], n.locks[k]),
    ensures
        safe(n),
{
    vstd::set_lib::lemma_len_subset(n.locks.dom(), m.locks.dom());
    assert forall|k: Seq<char>| #[trigger] n.locks.dom().contains(k) implies bounded(n.locks[k]) by {
        assert(m.locks.dom().contains(k));
        let a = m.locks[k];
        let b = n.locks[k];
        assert forall|i: int| 0 <= i < b.queue.len() implies provided((#[trigger] b.queue[i]).1) by {
            let j = choose|j: int| 0 <= j < a.queue.len() && a.queue[j] == b.queue[i];
            assert(provided(a.queue[j].1));
        }
    }
}

/// A key as it was is no more than before.
proof fn lemma_same(m: BrokerModel, n: BrokerModel)
    requires
        forall|k: Seq<char>| #[trigger]
            n.locks.dom().contains(k) ==> n.locks[k].queue == m.locks[k].queue,
    ensures
        forall|k: Seq<char>, i: int|
            n.locks.dom().contains(k) && 0 <= i < n.locks[k].queue.len()
                ==> m.locks[k].queue.contains(#[trigger] n.locks[k].queue[i]),
{
    assert forall|k: Seq<char>, i: int|
        n.locks.dom().contains(k) && 0 <= i
            < n.locks[k].queue.len() implies m.locks[k].queue.contains(
        #[trigger] n.locks[k].queue[i],
    ) by {
        assert(m.locks[k].queue[i] == n.locks[k].queue[i]);
    }
}

/// An unlock request keeps every key bounded.
proof fn lemma_unlock(
    m: BrokerModel,
    client: ClientId,
    uuid: Seq<char>,
    keys: Seq<Seq<char>>,
    lock_uuid: Option<Seq<char>>,
    force: bool,
    clock: Clock,
    tape: Tape,
)
    requires
        safe(m),
    ensures
        safe(m.unlock_requested(client, uuid, keys, lock_uuid, force, clock, tape)),
{
    if keys.len() > 0 && (lock_uuid is Some || force) {
        let n = m.unlocked(client, keys, lock_uuid, force);
        lemma_same(m, n);
        lemma_all_lessened(m, n);
        lemma_settle(n, keys.reverse(), clock, tape);
    }
}

/// A read or write request keeps every key bounded.
proof fn lemma_shared(
    m: BrokerModel,
    client: ClientId,
    uuid: Seq<char>,
    key: Seq<char>,
    given: Option<Seq<char>>,
    seed: Option<u64>,
    clock: Clock,
    tape: Tape,
)
    requires
        safe(m),
        seed matches Some(first) && exact(first),
    ensures
        safe(m.read_requested(client, uuid, key, given, seed, clock, tape)),
        safe(m.write_requested(client, uuid, key, given, seed, clock, tape)),
{
    lemma_fresh(m, key, clock.wall_ms);
    let l = m.lock_or_fresh(key, clock.wall_ms);
    let id = m.grant_id(given, tape);
    let holder = RwModel { client, fencing_token: l.next_token(seed), lock_uuid: id };
    assert(bounded(l.counted(seed)));
    lemma_one_more_reader(l.counted(seed), holder);
    lemma_joined(l, acquire::waiting(client, uuid, given, seed, KindModel::Reader), false);
    lemma_joined(l, acquire::waiting(client, uuid, given, seed, KindModel::Writer), false);
    let r = m.read_requested(client, uuid, key, given, seed, clock, tape);
    assert(r.locks =~= m.locks.insert(key, r.locks[key]));
    assert(bounded(r.locks[key]));
    lemma_with_lock(m, key, r.locks[key]);
    let w = m.write_requested(client, uuid, key, given, seed, clock, tape);
    assert(w.locks =~= m.locks.insert(key, w.locks[key]));
    assert(bounded(w.locks[key]));
    lemma_with_lock(m, key, w.locks[key]);
}

/// Every authorised request keeps every key bounded.
proof fn lemma_request(
    m: BrokerModel,
    client: ClientId,
    request: Request,
    overrides: GrantOverrides,
    clock: Clock,
    tape: Tape,
)
    requires
        safe(m),
        authorised(request, overrides),
    ensures
        safe(m.handled(client, request, overrides, clock, tape)),
{
    let given = protocol::shown_text(overrides.lock_uuid);
    let seed = overrides.fencing_seed;
    match request {
        Request::Lock {
            uuid,
            key,
            keys,
            pid,
            ttl,
            max,
            force,
            keep_locks_after_death,
            wait,
            ..
        } => {
            let waits = wait matches Some(w) ==> w;
            if let (Some(k), None) = (key, keys) {
                lemma_exclusive(
                    m,
                    ExclusiveLockRequest {
                        client,
                        uuid,
                        key: k,
                        pid,
                        ttl,
                        max,
                        keep_locks_after_death,
                        force,
                        wait: waits,
                        grant_overrides: overrides,
                    },
                    clock,
                    tape,
                );
            }
            if let (None, Some(ks)) = (key, keys) {
                lemma_composite(
                    m,
                    CompositeLockRequest {
                        client,
                        uuid,
                        keys: ks,
                        pid,
                        ttl,
                        wait: waits,
                        grant_overrides: overrides,
                    },
                    clock,
                    tape,
                );
            }
        },
        Request::Unlock { uuid, key, keys, lock_uuid, force } => {
            let target = protocol::shown_text(lock_uuid);
            if let (Some(k), None) = (key, keys) {
                lemma_unlock(m, client, uuid@, seq![k@], target, force, clock, tape);
            }
            if let (None, Some(ks)) = (key, keys) {
                lemma_unlock(
                    m,
                    client,
                    uuid@,
                    ordered_map::views(ks@),
                    target,
                    force,
                    clock,
                    tape,
                );
            }
        },
        Request::RegisterRead { uuid, key } => {
            lemma_shared(m, client, uuid@, key@, given, seed, clock, tape);
        },
        Request::RegisterWrite { uuid, key } => {
            lemma_shared(m, client, uuid@, key@, given, seed, clock, tape);
        },
        Request::EndRead { uuid, key } => {
            if m.locks.dom().contains(key@) {
                let ended = m.read_released(client, uuid@, key@);
                lemma_same(m, ended);
                lemma_all_lessened(m, ended);
                lemma_settle(ended, seq![key@], clock, tape);
            }
        },
        Request::EndWrite { uuid, key } => {
            if m.locks.dom().contains(key@) {
                let ended = m.write_released(client, uuid@, key@);
                lemma_same(m, ended);
                lemma_all_lessened(m, ended);
                lemma_settle(ended, seq![key@], clock, tape);
            }
        },
        _ => {},
    }
}

/// Dropping a client keeps every key bounded.
proof fn lemma_drop(m: BrokerModel, client: ClientId, clock: Clock, tape: Tape)
    requires
        safe(m),
    ensures
        safe(m.client_dropped(client, clock, tape)),
{
    if m.clients.dom().contains(client) {
        let n = m.handle_dropped(client);
        let c = m.clients[client];
        assert forall|k: Seq<char>, i: int|
            n.locks.dom().contains(k) && 0 <= i
                < n.locks[k].queue.len() implies m.locks[k].queue.contains(
            #[trigger] n.locks[k].queue[i],
        ) by {
            let keep = |e: (Seq<char>, PendingModel)| !c.pending_request_uuids.contains((k, e.0));
            assert(n.locks[k].queue == m.locks[k].queue.filter(keep));
            assert(n.locks[k].queue.contains(n.locks[k].queue[i]));
            queue::lemma_filter_from(m.locks[k].queue, keep, n.locks[k].queue[i]);
        }
        lemma_all_lessened(m, n);
        lemma_settle(
            n,
            ordered_map::ascending_keys::<String>(m.keys_touched(c)).reverse(),
            clock,
            tape,
        );
    } else {
        let n = m.stranger_dropped(client);
        assert forall|k: Seq<char>, i: int|
            n.locks.dom().contains(k) && 0 <= i
                < n.locks[k].queue.len() implies m.locks[k].queue.contains(
            #[trigger] n.locks[k].queue[i],
        ) by {
            let keep = |e: (Seq<char>, PendingModel)| e.1.client != client;
            assert(n.locks[k].queue == m.locks[k].queue.filter(keep));
            assert(n.locks[k].queue.contains(n.locks[k].queue[i]));
            queue::lemma_filter_from(m.locks[k].queue, keep, n.locks[k].queue[i]);
        }
        lemma_all_lessened(m, n);
        lemma_settle(
            n,
            ordered_map::ascending_keys::<String>(m.keys_of_stranger(client)).reverse(),
            clock,
            tape,
        );
    }
}

/// Deadlines that pass keep every key bounded.
proof fn lemma_deadlines(m: BrokerModel, keys: Seq<DeadlineKey>)
    requires
        safe(m),
    ensures
        safe(m.deadlines_met(keys).state),
    decreases keys.len(),
{
    if keys.len() > 0 {
        lemma_deadlines(m, keys.drop_last());
        let before = m.deadlines_met(keys.drop_last()).state;
        let n = m.deadlines_met(keys).state;
        lemma_same(before, n);
        lemma_all_lessened(before, n);
    }
}

/// A sweep keeps every key bounded.
proof fn lemma_sweep(m: BrokerModel, now: u128, clock: Clock, tape: Tape)
    requires
        safe(m),
    ensures
        safe(m.swept(now, clock, tape)),
{
    let keys = sweep::expired_keys(m.deadlines, now);
    let met = m.deadlines_met(keys);
    lemma_deadlines(m, keys);
    let stack = ordered_map::ascending_keys::<String>(met.touched).reverse();
    lemma_settle(met.state, stack, clock, tape);
    let settled = met.state.settled(stack, clock, tape);
    lemma_same(settled, settled.pruned(now));
    lemma_all_lessened(settled, settled.pruned(now));
}

/// Turning a holder into a bearer token keeps every key bounded.
proof fn lemma_detach(m: BrokerModel, lock_uuid: Seq<char>)
    requires
        safe(m),
    ensures
        safe(m.owner_detached(lock_uuid)),
{
    let n = m.owner_detached(lock_uuid);
    lemma_same(m, n);
    assert forall|k: Seq<char>| #[trigger] n.locks.dom().contains(k) implies lessened(
        m.locks[k],
        n.locks[k],
    ) by {
        assert(m.locks.dom().contains(k));
        assert(n.locks[k] == m.locks[k].disowned(lock_uuid));
    }
    lemma_all_lessened(m, n);
}

/// Whatever happens, every token stays up to the ceiling, as long as requests
/// come with tokens reserved up to it.
pub proof fn every_authorised_operation_keeps_the_ceiling(
    m: BrokerModel,
    op: Operation,
    tape: Tape,
)
    requires
        safe(m),
        op matches Operation::Request { request, overrides, .. } ==> authorised(
            request,
            overrides,
        ),
    ensures
        safe(laws::after(m, op, tape)),
{
    match op {
        Operation::Request { client, request, overrides, clock } => {
            lemma_request(m, client, request, overrides, clock, tape);
        },
        Operation::Drop { client, clock } => {
            lemma_drop(m, client, clock, tape);
        },
        Operation::Sweep { now, clock } => {
            lemma_sweep(m, now, clock, tape);
        },
        Operation::DetachOwner { lock_uuid } => {
            lemma_detach(m, lock_uuid);
        },
        _ => {
            assert(laws::after(m, op, tape).locks == m.locks);
        },
    }
}

/// In every state that a guarded broker can come to, every token is one that
/// all clients represent exactly.
pub proof fn tokens_never_pass_the_ceiling(
    config: BrokerConfig,
    first: u64,
    ops: Seq<Operation>,
    tape: Tape,
)
    ensures
        safe(guarded::run(config, first, ops, tape).0),
    decreases ops.len(),
{
    if ops.len() > 0 {
        tokens_never_pass_the_ceiling(config, first, ops.drop_last(), tape);
        let before = guarded::run(config, first, ops.drop_last(), tape);
        guarded::admission_leads_to_one_operation(before.0, before.1, ops.last(), tape);
        let inner = guarded::behind(before.0, before.1, ops.last());
        every_authorised_operation_keeps_the_ceiling(before.0, inner, tape);
    }
}

} // verus!
