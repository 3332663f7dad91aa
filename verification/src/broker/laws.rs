//! What holds of the broker whatever it is asked.
//!
//! The laws speak of the states that a broker can come to: from its initial
//! state by operations in any order, with any readings of the clocks and any
//! random lock ids.

pub mod acquiring;
pub mod books;
pub mod composites;
pub mod departures;
pub mod ending;
pub mod exclusion;
pub mod expiry;
pub mod fencing;
pub mod granting;
pub mod holds;
pub mod inspecting;
pub mod order;
pub mod rising;
pub mod serving;
pub mod snapshots;
pub mod storing;
pub mod sweeping;
pub mod turns;

use crate::broker::acquire::{CompositeLockRequest, MembersHeld};
use crate::broker::model;
use crate::broker::model::{GrantStep, Tape};
use crate::broker::state;
use crate::broker::sweep;
use crate::broker::types::{
    BrokerConfig, BrokerModel, ClientId, Clock, DeadlineKey, ExclusiveHolder, GrantOverrides, KindModel,
    LockModel, PendingModel,
};
use crate::ordered_map;
use crate::protocol;
use crate::protocol::{Request, ResponseModel, MAX_COMPOSITE_KEYS};
use vstd::prelude::*;

verus! {

/// One thing that happens to a broker.
pub enum Operation {
    Register { preferred: ClientId },
    Request { client: ClientId, request: Request, overrides: GrantOverrides, clock: Clock },
    Drop { client: ClientId, clock: Clock },
    Sweep { now: u128, clock: Clock },
    Detach { client: ClientId, lock_uuid: Seq<char> },
    DetachOwner { lock_uuid: Seq<char> },
    Notice { client: ClientId, response: ResponseModel },
    TakeOutbox,
}

/// The broker after an operation.
pub open spec fn after(m: BrokerModel, op: Operation, tape: Tape) -> BrokerModel {
    match op {
        Operation::Register { preferred } => m.registered(preferred),
        Operation::Request { client, request, overrides, clock } => m.handled(
            client,
            request,
            overrides,
            clock,
            tape,
        ),
        Operation::Drop { client, clock } => m.client_dropped(client, clock, tape),
        Operation::Sweep { now, clock } => m.swept(now, clock, tape),
        Operation::Detach { client, lock_uuid } => m.holder_untracked(client, lock_uuid),
        Operation::DetachOwner { lock_uuid } => m.owner_detached(lock_uuid),
        Operation::Notice { client, response } => m.notified(client, response),
        Operation::TakeOutbox => BrokerModel { outbox: Seq::empty(), ..m },
    }
}

/// The broker after `ops`, from its initial state on.
pub open spec fn run(config: BrokerConfig, ops: Seq<Operation>, tape: Tape) -> BrokerModel
    decreases ops.len(),
{
    if ops.len() == 0 {
        state::initial(config)
    } else {
        after(run(config, ops.drop_last(), tape), ops.last(), tape)
    }
}

/// The key whose composite head has been granted it.
pub open spec fn taken(m: BrokerModel, key: Seq<char>) -> LockModel {
    let l = m.locks[key];
    let p = l.queue[0].1;
    let forced = m.head_token(key);
    l.popped().counted(forced).with_exclusive(
        p.kind->composite_lock_uuid,
        ExclusiveHolder {
            client: p.client,
            pid: p.pid,
            fencing_token: l.next_token(forced),
            keep_locks_after_death: false,
            composite_member: true,
        },
    )
}

/// A composite head that moves on: its key is taken, and the next key gains a
/// waiter.
pub proof fn lemma_moved(m: BrokerModel, key: Seq<char>, clock: Clock, tape: Tape)
    ensures
        m.grant_step(key, clock, tape) matches GrantStep::Moved(n, other) ==> {
            let p = m.locks[key].queue[0].1;
            let held = m.with_lock(key, taken(m, key)).observed(
                taken(m, key).exclusive_holders[p.kind->composite_lock_uuid].fencing_token,
            );
            &&& m.locks.dom().contains(key)
            &&& m.locks[key].queue.len() > 0
            &&& m.locks[key].vacant()
            &&& p.kind is Composite
            &&& p.kind->remaining_keys.len() > 1
            &&& p.kind->remaining_keys[0] == key
            &&& p.kind->remaining_keys[1] == other
            &&& exists|q: PendingModel| #[trigger] n.locks == held.locks.insert(
                other,
                held.lock_or_fresh(other, clock.wall_ms).enqueued(q, false),
            ) && continues(p, key, taken(m, key), q)
            &&& n.fencing_watermark == held.fencing_watermark
            &&& n.config == m.config
        },
{
    if let GrantStep::Moved(n, other) = m.grant_step(key, clock, tape) {
        let l = m.locks[key];
        let p = l.queue[0].1;
        let t = taken(m, key);
        let id = p.kind->composite_lock_uuid;
        let held = m.with_lock(key, t).observed(t.exclusive_holders[id].fencing_token);
        let q = PendingModel {
            grant_lock_uuid: None,
            kind: KindModel::Composite {
                all_keys: p.kind->all_keys,
                remaining_keys: p.kind->remaining_keys.drop_first(),
                granted_keys: p.kind->granted_keys.push(key),
                granted_tokens: p.kind->granted_tokens.insert(
                    key,
                    t.exclusive_holders[id].fencing_token,
                ),
                composite_lock_uuid: id,
            },
            ..p
        };
        assert(n.locks == held.locks.insert(
            other,
            held.lock_or_fresh(other, clock.wall_ms).enqueued(q, false),
        ));
        assert(continues(p, key, t, q));
    }
}

/// `q` is the composite request `p` after it has been granted `key`.
pub open spec fn continues(p: PendingModel, key: Seq<char>, t: LockModel, q: PendingModel) -> bool {
    let id = p.kind->composite_lock_uuid;
    q == PendingModel {
        grant_lock_uuid: None,
        kind: KindModel::Composite {
            all_keys: p.kind->all_keys,
            remaining_keys: p.kind->remaining_keys.drop_first(),
            granted_keys: p.kind->granted_keys.push(key),
            granted_tokens: p.kind->granted_tokens.insert(
                key,
                t.exclusive_holders[id].fencing_token,
            ),
            composite_lock_uuid: id,
        },
        ..p
    }
}

/// What every grant and every idle mark keeps, settling keeps.
pub proof fn lemma_settled(
    m: BrokerModel,
    stack: Seq<Seq<char>>,
    clock: Clock,
    tape: Tape,
    inv: spec_fn(BrokerModel) -> bool,
)
    requires
        m.locks.dom().finite(),
        inv(m),
        forall|a: BrokerModel, k: Seq<char>|
            a.locks.dom().finite() && #[trigger] inv(a) ==> match #[trigger] a.grant_step(
                k,
                clock,
                tape,
            ) {
                GrantStep::Blocked => true,
                GrantStep::Granted(n) => inv(n),
                GrantStep::Moved(n, _) => inv(n),
            },
        forall|a: BrokerModel, k: Seq<char>| #[trigger]
            inv(a) ==> inv(#[trigger] a.idle_marked(k, clock.now)),
    ensures
        inv(m.settled(stack, clock, tape)),
        m.settled(stack, clock, tape).locks.dom().finite(),
    decreases m.work(), stack.len(),
{
    if stack.len() > 0 {
        let key = stack.last();
        model::lemma_step_shrinks(m, key, clock, tape);
        model::lemma_mark_keeps_work(m, key, clock.now);
        assert(inv(m));
        match m.grant_step(key, clock, tape) {
            GrantStep::Blocked => {
                let marked = m.idle_marked(key, clock.now);
                assert(inv(marked));
                lemma_settled(marked, stack.drop_last(), clock, tape, inv);
            },
            GrantStep::Granted(next) => {
                assert(inv(next));
                lemma_settled(next, stack, clock, tape, inv);
            },
            GrantStep::Moved(next, other) => {
                assert(inv(next));
                lemma_settled(next, stack.push(other), clock, tape, inv);
            },
        }
    }
}

/// Settling changes neither the configuration nor who is connected.
pub proof fn lemma_settled_config(m: BrokerModel, stack: Seq<Seq<char>>, clock: Clock, tape: Tape)
    requires
        m.locks.dom().finite(),
    ensures
        m.settled(stack, clock, tape).config == m.config,
        m.settled(stack, clock, tape).clients.dom() == m.clients.dom(),
        m.settled(stack, clock, tape).locks.dom().finite(),
{
    let inv = |a: BrokerModel| a.config == m.config && a.clients.dom() == m.clients.dom();
    assert forall|a: BrokerModel, k: Seq<char>|
        a.locks.dom().finite() && #[trigger] inv(a) implies match #[trigger] a.grant_step(
        k,
        clock,
        tape,
    ) {
        GrantStep::Blocked => true,
        GrantStep::Granted(n) => inv(n),
        GrantStep::Moved(n, _) => inv(n),
    } by {
        match a.grant_step(k, clock, tape) {
            GrantStep::Blocked => {},
            GrantStep::Granted(n) => {
                assert(n.clients.dom() =~= a.clients.dom());
            },
            GrantStep::Moved(n, _) => {
                assert(n.clients.dom() =~= a.clients.dom());
            },
        }
    }
    assert(inv(m));
    lemma_settled(m, stack, clock, tape, inv);
}

/// Taking members of a composite lock changes nothing but their keys.
pub proof fn lemma_members_frame(
    m: BrokerModel,
    keys: Seq<Seq<char>>,
    n: nat,
    id: Seq<char>,
    client: ClientId,
    pid: Option<i64>,
    seed: Option<u64>,
    wall_ms: u64,
)
    requires
        n <= keys.len(),
        m.locks.dom().finite(),
    ensures
        ({
            let s = m.members_held(keys, n, id, client, pid, seed, wall_ms).state;
            &&& s == BrokerModel { locks: s.locks, ..m }
            &&& s.locks.dom() == m.locks.dom().union(keys.take(n as int).to_set())
            &&& s.locks.dom().finite()
            &&& forall|k: Seq<char>| #[trigger]
                m.locks.dom().contains(k) && !keys.take(n as int).contains(k) ==> s.locks[k]
                    == m.locks[k]
            &&& forall|k: Seq<char>| #[trigger]
                s.locks.dom().contains(k) ==> s.locks[k].queue == if m.locks.dom().contains(k) {
                    m.locks[k].queue
                } else {
                    Seq::empty()
                }
        }),
    decreases n,
{
    if n == 0 {
        assert(m.locks.dom() =~= m.locks.dom().union(keys.take(0).to_set()));
    } else {
        lemma_members_frame(m, keys, (n - 1) as nat, id, client, pid, seed, wall_ms);
        let s = m.members_held(keys, n, id, client, pid, seed, wall_ms).state;
        assert(keys.take(n as int) =~= keys.take(n - 1).push(keys[n - 1]));
        keys.take(n - 1).lemma_push_to_set_commute(keys[n - 1]);
        assert(s.locks.dom() =~= m.locks.dom().union(keys.take(n as int).to_set()));
        assert forall|k: Seq<char>| #[trigger]
            m.locks.dom().contains(k) && !keys.take(n as int).contains(k) implies s.locks[k]
            == m.locks[k] by {
            assert(keys.take(n as int)[n - 1] == keys[n - 1]);
            if keys.take(n - 1).contains(k) {
                let front = keys.take(n - 1);
                let j = choose|j: int| 0 <= j < front.len() && #[trigger] front[j] == k;
                assert(keys.take(n as int)[j] == k);
            }
        }
    }
}

/// Idle marks change nothing but idle marks.
pub proof fn lemma_marks_frame(m: BrokerModel, keys: Seq<Seq<char>>, n: nat, now: u128)
    requires
        n <= keys.len(),
    ensures
        ({
            let s = m.all_idle_marked(keys, n, now);
            &&& s == BrokerModel { locks: s.locks, ..m }
            &&& s.locks.dom() == m.locks.dom()
            &&& forall|k: Seq<char>| #[trigger]
                m.locks.dom().contains(k) ==> s.locks[k] == LockModel {
                    timestamp_emptied: s.locks[k].timestamp_emptied,
                    ..m.locks[k]
                }
        }),
    decreases n,
{
    if n > 0 {
        lemma_marks_frame(m, keys, (n - 1) as nat, now);
        let before = m.all_idle_marked(keys, (n - 1) as nat, now);
        let s = m.all_idle_marked(keys, n, now);
        assert(s.locks.dom() =~= m.locks.dom());
    }
}

/// The broker after the keys of a composite request have been taken as a whole.
pub open spec fn composite_granted(
    m: BrokerModel,
    r: CompositeLockRequest,
    clock: Clock,
    tape: Tape,
) -> MembersHeld {
    let given = protocol::shown_text(r.grant_overrides.lock_uuid);
    m.id_taken(given).members_held(
        ordered_map::sorted_distinct(ordered_map::views(r.keys@)),
        ordered_map::sorted_distinct(ordered_map::views(r.keys@)).len(),
        m.grant_id(given, tape),
        r.client,
        r.pid,
        r.grant_overrides.fencing_seed,
        clock.wall_ms,
    )
}

/// The broker after a composite request has joined the queue of its first key,
/// before anything is granted on that account.
pub open spec fn composite_queued(
    m: BrokerModel,
    r: CompositeLockRequest,
    clock: Clock,
    tape: Tape,
) -> BrokerModel {
    let keys = ordered_map::sorted_distinct(ordered_map::views(r.keys@));
    let given = protocol::shown_text(r.grant_overrides.lock_uuid);
    let id = m.grant_id(given, tape);
    let t = m.id_taken(given);
    let joined = t.lock_or_fresh(keys[0], clock.wall_ms).enqueued(
        PendingModel {
            request_uuid: r.uuid@,
            client: r.client,
            pid: r.pid,
            ttl: r.ttl,
            grant_lock_uuid: None,
            grant_fencing_seed: r.grant_overrides.fencing_seed,
            keep_locks_after_death: false,
            kind: KindModel::Composite {
                all_keys: keys,
                remaining_keys: keys,
                granted_keys: Seq::empty(),
                granted_tokens: Map::empty(),
                composite_lock_uuid: id,
            },
        },
        false,
    );
    t.with_lock(keys[0], joined).idle_marked(keys[0], clock.now).pending_tracked(
        r.client,
        keys[0],
        r.uuid@,
    ).send(
        r.client,
        ResponseModel::CompositeLock {
            uuid: r.uuid@,
            keys,
            acquired: false,
            lock_uuid: Some(id),
            fencing_tokens: None,
            error: None,
        },
    )
}

/// A composite request takes all its keys, or waits, or changes no key.
pub proof fn lemma_composite_cases(
    m: BrokerModel,
    r: CompositeLockRequest,
    clock: Clock,
    tape: Tape,
)
    requires
        m.locks.dom().finite(),
    ensures
        ({
            let asked = ordered_map::views(r.keys@);
            let keys = ordered_map::sorted_distinct(asked);
            let n = m.composite_requested(r, clock, tape);
            let held = composite_granted(m, r, clock, tape);
            if asked.len() == 0 || asked.len() > MAX_COMPOSITE_KEYS {
                n == BrokerModel { outbox: n.outbox, ..m }
            } else if m.all_vacant(keys) {
                &&& n.locks == held.state.observed(held.top).all_idle_marked(
                    keys,
                    keys.len(),
                    clock.now,
                ).locks
                &&& n.fencing_watermark == model::larger(m.fencing_watermark, held.top)
                &&& n.config == m.config
                &&& n.clients.dom() == m.clients.dom()
            } else if !r.wait {
                n == BrokerModel { outbox: n.outbox, drawn: n.drawn, ..m }
            } else {
                n == composite_queued(m, r, clock, tape).settled(seq![keys[0]], clock, tape)
            }
        }),
{
    let asked = ordered_map::views(r.keys@);
    let keys = ordered_map::sorted_distinct(asked);
    let given = protocol::shown_text(r.grant_overrides.lock_uuid);
    let t = m.id_taken(given);
    assert(t.all_vacant(keys) == m.all_vacant(keys));
    if asked.len() > 0 && asked.len() <= MAX_COMPOSITE_KEYS && m.all_vacant(keys) {
        let n = m.composite_requested(r, clock, tape);
        let held = composite_granted(m, r, clock, tape);
        lemma_members_frame(
            t,
            keys,
            keys.len(),
            m.grant_id(given, tape),
            r.client,
            r.pid,
            r.grant_overrides.fencing_seed,
            clock.wall_ms,
        );
        lemma_marks_frame(held.state.observed(held.top), keys, keys.len(), clock.now);
        assert(n.clients.dom() =~= m.clients.dom());
    }
}

/// Deadlines that pass change neither configuration, watermark nor who is
/// connected.
pub proof fn lemma_deadlines_frame(m: BrokerModel, keys: Seq<DeadlineKey>)
    requires
        m.locks.dom().finite(),
    ensures
        m.deadlines_met(keys).state.config == m.config,
        m.deadlines_met(keys).state.fencing_watermark == m.fencing_watermark,
        m.deadlines_met(keys).state.clients.dom() == m.clients.dom(),
        m.deadlines_met(keys).state.locks.dom() == m.locks.dom(),
    decreases keys.len(),
{
    if keys.len() > 0 {
        lemma_deadlines_frame(m, keys.drop_last());
        let s = m.deadlines_met(keys).state;
        assert(s.clients.dom() =~= m.clients.dom());
        assert(s.locks.dom() =~= m.locks.dom());
    }
}

/// No operation changes the configuration, and none makes the keys infinite.
pub proof fn lemma_config(m: BrokerModel, op: Operation, tape: Tape)
    requires
        m.locks.dom().finite(),
    ensures
        after(m, op, tape).config == m.config,
        after(m, op, tape).locks.dom().finite(),
{
    match op {
        Operation::Request { client, request, overrides, clock } => {
            lemma_request_config(m, client, request, overrides, clock, tape);
        },
        Operation::Drop { client, clock } => {
            if m.clients.dom().contains(client) {
                assert(m.handle_dropped(client).locks.dom() =~= m.locks.dom());
                lemma_settled_config(
                    m.handle_dropped(client),
                    ordered_map::ascending_keys::<String>(
                        m.keys_touched(m.clients[client]),
                    ).reverse(),
                    clock,
                    tape,
                );
            } else {
                assert(m.stranger_dropped(client).locks.dom() =~= m.locks.dom());
                lemma_settled_config(
                    m.stranger_dropped(client),
                    ordered_map::ascending_keys::<String>(m.keys_of_stranger(client)).reverse(),
                    clock,
                    tape,
                );
            }
        },
        Operation::Sweep { now, clock } => {
            let keys = sweep::expired_keys(m.deadlines, now);
            lemma_deadlines_frame(m, keys);
            let met = m.deadlines_met(keys);
            let stack = ordered_map::ascending_keys::<String>(met.touched).reverse();
            lemma_settled_config(met.state, stack, clock, tape);
            let s = met.state.settled(stack, clock, tape);
            assert(s.pruned(now).locks.dom().subset_of(s.locks.dom()));
            vstd::set_lib::lemma_len_subset(s.pruned(now).locks.dom(), s.locks.dom());
        },
        Operation::DetachOwner { lock_uuid } => {
            assert(m.owner_detached(lock_uuid).locks.dom() =~= m.locks.dom());
        },
        _ => {},
    }
}

/// No multi-key request changes the configuration or makes the keys infinite.
proof fn lemma_composite_config(m: BrokerModel, r: CompositeLockRequest, clock: Clock, tape: Tape)
    requires
        m.locks.dom().finite(),
    ensures
        m.composite_requested(r, clock, tape).config == m.config,
        m.composite_requested(r, clock, tape).locks.dom().finite(),
{
    let sorted = ordered_map::sorted_distinct(ordered_map::views(r.keys@));
    let given = protocol::shown_text(r.grant_overrides.lock_uuid);
    lemma_composite_cases(m, r, clock, tape);
    lemma_members_frame(
        m.id_taken(given),
        sorted,
        sorted.len(),
        m.grant_id(given, tape),
        r.client,
        r.pid,
        r.grant_overrides.fencing_seed,
        clock.wall_ms,
    );
    let held = composite_granted(m, r, clock, tape);
    lemma_marks_frame(held.state.observed(held.top), sorted, sorted.len(), clock.now);
    lemma_settled_config(composite_queued(m, r, clock, tape), seq![sorted[0]], clock, tape);
}

/// No unlock request changes the configuration or makes the keys infinite.
proof fn lemma_unlock_config(
    m: BrokerModel,
    client: ClientId,
    uuid: Seq<char>,
    keys: Seq<Seq<char>>,
    lock_uuid: Option<Seq<char>>,
    force: bool,
    clock: Clock,
    tape: Tape,
)
    requires
        m.locks.dom().finite(),
    ensures
        m.unlock_requested(client, uuid, keys, lock_uuid, force, clock, tape).config == m.config,
        m.unlock_requested(
            client,
            uuid,
            keys,
            lock_uuid,
            force,
            clock,
            tape,
        ).locks.dom().finite(),
{
    let n = m.unlocked(client, keys, lock_uuid, force);
    assert(n.locks.dom() =~= m.locks.dom());
    lemma_settled_config(n, keys.reverse(), clock, tape);
}

/// No request changes the configuration, and none makes the keys infinite.
#[verifier::spinoff_prover]
#[verifier::rlimit(40)]
proof fn lemma_request_config(
    m: BrokerModel,
    client: ClientId,
    request: Request,
    overrides: GrantOverrides,
    clock: Clock,
    tape: Tape,
)
    requires
        m.locks.dom().finite(),
    ensures
        m.handled(client, request, overrides, clock, tape).config == m.config,
        m.handled(client, request, overrides, clock, tape).locks.dom().finite(),
{
    match request {
        Request::Lock { uuid, key, keys, pid, ttl, wait, .. } => {
            if let (None, Some(ks)) = (key, keys) {
                let waits = wait matches Some(w) ==> w;
                lemma_composite_config(
                    m,
                    CompositeLockRequest {
                        client,
                        uuid,
                        keys: ks,
                        pid,
                        ttl,
                        wait: waits,
                        grant_overrides: overrides,
                    },
                    clock,
                    tape,
                );
            }
        },
        Request::Unlock { uuid, key, keys, lock_uuid, force } => {
            let target = protocol::shown_text(lock_uuid);
            if let (Some(k), None) = (key, keys) {
                lemma_unlock_config(m, client, uuid@, seq![k@], target, force, clock, tape);
            }
            if let (None, Some(ks)) = (key, keys) {
                lemma_unlock_config(
                    m,
                    client,
                    uuid@,
                    ordered_map::views(ks@),
                    target,
                    force,
                    clock,
                    tape,
                );
            }
        },
        Request::EndRead { uuid, key } => {
            lemma_settled_config(
                m.read_released(client, uuid@, key@),
                seq![key@],
                clock,
                tape,
            );
        },
        Request::EndWrite { uuid, key } => {
            lemma_settled_config(
                m.write_released(client, uuid@, key@),
                seq![key@],
                clock,
                tape,
            );
        },
        _ => {},
    }
}

} // verus!
