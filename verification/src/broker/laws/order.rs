//! Who is served when: releases serve everyone they can, readers do not overtake
//! waiters, and what is refused leaves no trace.

use crate::broker::acquire::ExclusiveLockRequest;
use crate::broker::laws;
use crate::broker::model;
use crate::broker::model::{GrantStep, Tape};
use crate::broker::release;
use crate::broker::types::{
    BrokerModel, ClientId, Clock, GrantOverrides, LockModel, RwHoldKind, SNAPSHOT_DETACHED_CLIENT,
};
use crate::protocol::{Request, ResponseModel};
use crate::queue;
use vstd::prelude::*;

verus! {

/// Nothing at the head of `key`'s queue can be granted.
pub open spec fn blocked(m: BrokerModel, key: Seq<char>, clock: Clock, tape: Tape) -> bool {
    m.grant_step(key, clock, tape) is Blocked
}

/// A key stays blocked while its holders, its level, its queue and its counter stay
/// and the watermark does not fall.
pub proof fn lemma_blocked(a: BrokerModel, b: BrokerModel, key: Seq<char>, clock: Clock, tape: Tape)
    requires
        a.locks.dom().contains(key) == b.locks.dom().contains(key),
        a.locks.dom().contains(key) ==> a.locks[key] == (LockModel {
            timestamp_emptied: a.locks[key].timestamp_emptied,
            ..b.locks[key]
        }),
        a.fencing_watermark <= b.fencing_watermark,
        blocked(a, key, clock, tape),
    ensures
        blocked(b, key, clock, tape),
{
}

/// Settling leaves nobody waiting who could be served: every key that it looks
/// at, and every key that was blocked before, is blocked afterwards.
pub proof fn settling_serves_everyone_it_can(
    m: BrokerModel,
    stack: Seq<Seq<char>>,
    clock: Clock,
    tape: Tape,
    key: Seq<char>,
)
    requires
        m.locks.dom().finite(),
        stack.contains(key) || blocked(m, key, clock, tape),
    ensures
        blocked(m.settled(stack, clock, tape), key, clock, tape),
    decreases m.work(), stack.len(),
{
    if stack.len() > 0 {
        let top = stack.last();
        let rest = stack.drop_last();
        assert(stack =~= rest.push(top));
        queue::lemma_contains_push(rest, top, key);
        model::lemma_step_shrinks(m, top, clock, tape);
        model::lemma_mark_keeps_work(m, top, clock.now);
        match m.grant_step(top, clock, tape) {
            GrantStep::Blocked => {
                let n = m.idle_marked(top, clock.now);
                if blocked(m, key, clock, tape) {
                    lemma_blocked(m, n, key, clock, tape);
                }
                settling_serves_everyone_it_can(n, rest, clock, tape, key);
            },
            GrantStep::Granted(n) => {
                if !stack.contains(key) {
                    lemma_blocked(m, n, key, clock, tape);
                }
                settling_serves_everyone_it_can(n, stack, clock, tape, key);
            },
            GrantStep::Moved(n, other) => {
                queue::lemma_contains_push(stack, other, key);
                laws::lemma_moved(m, top, clock, tape);
                if !stack.push(other).contains(key) {
                    lemma_blocked(m, n, key, clock, tape);
                }
                settling_serves_everyone_it_can(n, stack.push(other), clock, tape, key);
            },
        }
    }
}

/// An unlock leaves nobody waiting on its keys who could be served.
pub proof fn an_unlock_serves_everyone_it_can(
    m: BrokerModel,
    client: ClientId,
    uuid: Seq<char>,
    keys: Seq<Seq<char>>,
    lock_uuid: Option<Seq<char>>,
    force: bool,
    clock: Clock,
    tape: Tape,
    key: Seq<char>,
)
    requires
        m.locks.dom().finite(),
        keys.contains(key),
        lock_uuid is Some || force,
    ensures
        blocked(
            m.unlock_requested(client, uuid, keys, lock_uuid, force, clock, tape),
            key,
            clock,
            tape,
        ),
{
    let n = m.unlocked(client, keys, lock_uuid, force);
    let i = choose|i: int| 0 <= i < keys.len() && keys[i] == key;
    assert(keys.reverse()[keys.len() - 1 - i] == key);
    assert(n.locks.dom() =~= m.locks.dom());
    settling_serves_everyone_it_can(n, keys.reverse(), clock, tape, key);
    lemma_blocked(
        n.settled(keys.reverse(), clock, tape),
        m.unlock_requested(client, uuid, keys, lock_uuid, force, clock, tape),
        key,
        clock,
        tape,
    );
}

/// The end of a read or write leaves nobody waiting on its key who could be
/// served.
pub proof fn the_end_of_a_hold_serves_everyone_it_can(
    m: BrokerModel,
    client: ClientId,
    uuid: Seq<char>,
    key: Seq<char>,
    clock: Clock,
    tape: Tape,
)
    requires
        m.locks.dom().finite(),
        m.locks.dom().contains(key),
    ensures
        blocked(m.read_ended(client, uuid, key, clock, tape), key, clock, tape),
        blocked(m.write_ended(client, uuid, key, clock, tape), key, clock, tape),
{
    assert(seq![key].contains(key)) by {
        assert(seq![key][0] == key);
    }
    settling_serves_everyone_it_can(
        m.read_released(client, uuid, key),
        seq![key],
        clock,
        tape,
        key,
    );
    settling_serves_everyone_it_can(
        m.write_released(client, uuid, key),
        seq![key],
        clock,
        tape,
        key,
    );
}

/// A reader does not overtake: while anybody waits for the key, a read request
/// is not granted but joins the end of the queue, unless its id waits already.
pub proof fn readers_do_not_overtake(
    m: BrokerModel,
    client: ClientId,
    uuid: Seq<char>,
    key: Seq<char>,
    given: Option<Seq<char>>,
    seed: Option<u64>,
    clock: Clock,
    tape: Tape,
)
    requires
        m.locks.dom().contains(key),
        m.locks[key].queue.len() > 0,
    ensures
        ({
            let n = m.read_requested(client, uuid, key, given, seed, clock, tape);
            let l = m.locks[key];
            &&& n.locks[key].readers == l.readers
            &&& n.outbox.last().response matches ResponseModel::RegisterReadResult {
                granted: false,
                ..
            }
            &&& if queue::queued(l.queue, uuid) {
                n.locks[key].queue == l.queue
            } else {
                n.locks[key].queue.len() == l.queue.len() + 1 && n.locks[key].queue.drop_last()
                    == l.queue && n.locks[key].queue.last().0 == uuid
            }
        }),
{
    let n = m.read_requested(client, uuid, key, given, seed, clock, tape);
    let l = m.locks[key];
    if !queue::queued(l.queue, uuid) {
        assert(n.locks[key].queue.drop_last() =~= l.queue);
    }
}

/// A lock request that does not wait changes no queue.
pub proof fn requests_without_wait_never_queue(
    m: BrokerModel,
    r: ExclusiveLockRequest,
    clock: Clock,
    tape: Tape,
    key: Seq<char>,
)
    requires
        !r.wait,
    ensures
        ({
            let n = m.exclusive_requested(r, clock, tape);
            let before = if m.locks.dom().contains(key) {
                m.locks[key].queue
            } else {
                Seq::empty()
            };
            n.locks.dom().contains(key) ==> n.locks[key].queue == before
        }),
{
}

/// A lock request that asks for no slots at all changes nothing but for the
/// refusal that it is answered with.
pub proof fn a_level_of_zero_is_refused(
    m: BrokerModel,
    client: ClientId,
    request: Request,
    overrides: GrantOverrides,
    clock: Clock,
    tape: Tape,
)
    requires
        request matches Request::Lock { max: Some(0), .. },
    ensures
        ({
            let n = m.handled(client, request, overrides, clock, tape);
            &&& n == (BrokerModel { outbox: n.outbox, ..m })
            &&& n.outbox.len() == m.outbox.len() + 1
            &&& match n.outbox.last().response {
                ResponseModel::Lock { acquired, error, .. } => !acquired && error is Some,
                ResponseModel::CompositeLock { acquired, error, .. } => !acquired && error is Some,
                _ => false,
            }
        }),
{
}

/// An unlock whose id holds none of its keys takes nothing from anybody, forced
/// or not, and is told so.
pub proof fn a_foreign_id_unlocks_nothing(
    m: BrokerModel,
    client: ClientId,
    uuid: Seq<char>,
    keys: Seq<Seq<char>>,
    lock_uuid: Seq<char>,
    force: bool,
    clock: Clock,
    tape: Tape,
)
    requires
        keys.len() > 0,
        forall|i: int, owner: ClientId|
            0 <= i < keys.len() && m.locks.dom().contains(#[trigger] keys[i])
                ==> !#[trigger] m.locks[keys[i]].owns(owner, lock_uuid),
    ensures
        m.unlocked(client, keys, Some(lock_uuid), force) == m,
        m.unlock_requested(client, uuid, keys, Some(lock_uuid), force, clock, tape)
            == m.settled(keys.reverse(), clock, tape).send(
            client,
            ResponseModel::Unlock {
                uuid,
                keys,
                unlocked: false,
                lock_request_count: release::last_depth(m.locks, keys) as usize,
                error: m.unlock_error(client, keys, Some(lock_uuid), force),
            },
        ),
        force ==> m.unlock_error(client, keys, Some(lock_uuid), force) is Some,
{
    let target = Some(lock_uuid);
    let n = m.unlocked(client, keys, target, force);
    let change = m.unlock_change(client, target, force);
    assert forall|k: Seq<char>| m.locks.dom().contains(k) && keys.contains(k) implies change(
        m.locks[k],
    ) == m.locks[k] by {
        let l = m.locks[k];
        let i = choose|i: int| 0 <= i < keys.len() && keys[i] == k;
        assert(m.locks.dom().contains(keys[i]));
        if l.exclusive_holders.dom().contains(lock_uuid) {
            assert(l.owns(l.exclusive_holders[lock_uuid].client, lock_uuid));
        }
        if l.readers.dom().contains(lock_uuid) {
            assert(l.owns(l.readers[lock_uuid].client, lock_uuid));
        }
        if let Some(w) = l.writer {
            if w.lock_uuid == lock_uuid {
                assert(l.owns(w.client, lock_uuid));
            }
        }
    }
    assert(n.locks =~= m.locks);
    assert(n.clients =~= m.clients) by {
        assert forall|c: u64| m.clients.dom().contains(c) implies n.clients[c] == m.clients[c] by {
            let books = m.clients[c].held_lock_uuids;
            assert forall|u: Seq<char>| #[trigger] books.dom().contains(u) implies !release::any_lock(
                m.locks,
                keys,
                |l: LockModel| m.unlock_takes(client, target, force, l, c, u),
            ) by {
                let takes = |l: LockModel| m.unlock_takes(client, target, force, l, c, u);
                if release::any_lock(m.locks, keys, takes) {
                    let i = choose|i: int|
                        0 <= i < keys.len() && m.locks.dom().contains(#[trigger] keys[i]) && takes(
                            m.locks[keys[i]],
                        );
                    assert(m.locks[keys[i]].owns(c, lock_uuid));
                }
            }
            assert(n.clients[c].held_lock_uuids =~= books);
        }
    }
    assert(n == m);
    assert(!release::any_lock(m.locks, keys, m.unlock_frees(client, target, force))) by {
        if release::any_lock(m.locks, keys, m.unlock_frees(client, target, force)) {
            let frees = m.unlock_frees(client, target, force);
            let i = choose|i: int|
                0 <= i < keys.len() && m.locks.dom().contains(#[trigger] keys[i]) && frees(
                    m.locks[keys[i]],
                );
            let l = m.locks[keys[i]];
            let (owner, u) = choose|owner: ClientId, u: Seq<char>|
                m.unlock_takes(client, target, force, l, owner, u);
            assert(l.owns(owner, lock_uuid));
        }
    }
}

/// A bearer token is released by anybody who has its id: nobody owns it.
pub proof fn a_bearer_token_is_released_by_its_id(
    m: BrokerModel,
    lock_uuid: Seq<char>,
    client: ClientId,
    uuid: Seq<char>,
    key: Seq<char>,
    clock: Clock,
    tape: Tape,
    kind: RwHoldKind,
)
    requires
        m.locks.dom().finite(),
        m.locks.dom().contains(key),
        m.locks[key].held_under(lock_uuid, kind),
        !m.clients.dom().contains(SNAPSHOT_DETACHED_CLIENT),
    ensures
        ({
            let d = m.owner_detached(lock_uuid);
            let n = d.unlocked(client, seq![key], Some(lock_uuid), false);
            &&& d.locks[key].held_under(lock_uuid, kind)
            &&& !n.locks[key].held_under(lock_uuid, kind)
            &&& d.unlock_requested(
                client,
                uuid,
                seq![key],
                Some(lock_uuid),
                false,
                clock,
                tape,
            ).outbox.last().response matches ResponseModel::Unlock { unlocked: true, .. }
        }),
{
    let d = m.owner_detached(lock_uuid);
    let keys = seq![key];
    assert(keys[0] == key);
    assert(keys.contains(key));
    let l = d.locks[key];
    assert(l == m.locks[key].disowned(lock_uuid));
    assert(l.owns(SNAPSHOT_DETACHED_CLIENT, lock_uuid));
    assert(!d.clients.dom().contains(SNAPSHOT_DETACHED_CLIENT));
    assert(d.unlock_takes(
        client,
        Some(lock_uuid),
        false,
        l,
        SNAPSHOT_DETACHED_CLIENT,
        lock_uuid,
    ));
    let frees = d.unlock_frees(client, Some(lock_uuid), false);
    assert(frees(d.locks[keys[0]]));
    assert(release::any_lock(d.locks, keys, frees));
}

/// A holder that releases its lock no longer holds it, and is told so.
pub proof fn a_release_ends_the_hold(
    m: BrokerModel,
    client: ClientId,
    uuid: Seq<char>,
    key: Seq<char>,
    lock_uuid: Seq<char>,
    clock: Clock,
    tape: Tape,
)
    requires
        m.locks.dom().contains(key),
        m.locks[key].owns(client, lock_uuid),
    ensures
        !m.unlocked(client, seq![key], Some(lock_uuid), false).locks[key].owns(client, lock_uuid),
        m.unlock_requested(
            client,
            uuid,
            seq![key],
            Some(lock_uuid),
            false,
            clock,
            tape,
        ).outbox.last().response matches ResponseModel::Unlock { unlocked: true, error: None, .. },
{
    let keys = seq![key];
    assert(keys[0] == key);
    assert(keys.contains(key));
    let l = m.locks[key];
    assert(m.unlock_takes(client, Some(lock_uuid), false, l, client, lock_uuid));
    let frees = m.unlock_frees(client, Some(lock_uuid), false);
    assert(frees(m.locks[keys[0]]));
    assert(release::any_lock(m.locks, keys, frees));
}

/// Without force, nobody takes a lock from a client that is still connected:
/// its holders under an id that another client names stay as they are.
pub proof fn a_connected_owner_keeps_its_lock(
    m: BrokerModel,
    client: ClientId,
    keys: Seq<Seq<char>>,
    key: Seq<char>,
    owner: ClientId,
    lock_uuid: Seq<char>,
)
    requires
        m.locks.dom().contains(key),
        m.clients.dom().contains(owner),
        owner != client,
        m.locks[key].owns(owner, lock_uuid),
    ensures
        m.unlocked(client, keys, Some(lock_uuid), false).locks[key].owns(owner, lock_uuid),
{
}

/// A forced unlock without an id frees its keys of every holder, whoever holds
/// them.
pub proof fn a_forced_unlock_clears_its_keys(
    m: BrokerModel,
    client: ClientId,
    keys: Seq<Seq<char>>,
    key: Seq<char>,
)
    requires
        m.locks.dom().contains(key),
        keys.contains(key),
    ensures
        m.unlocked(client, keys, None, true).locks[key].vacant(),
        m.unlocked(client, keys, None, true).locks[key].queue == m.locks[key].queue,
        forall|owner: ClientId, u: Seq<char>|
            m.clients.dom().contains(owner) && #[trigger] m.locks[key].owns(owner, u)
                ==> !m.unlocked(client, keys, None, true).clients[owner].held_lock_uuids.dom().contains(
                u,
            ),
{
    let n = m.unlocked(client, keys, None, true);
    let i = choose|i: int| 0 <= i < keys.len() && keys[i] == key;
    assert forall|owner: ClientId, u: Seq<char>|
        m.clients.dom().contains(owner) && #[trigger] m.locks[key].owns(owner, u) implies !n.clients[owner].held_lock_uuids.dom().contains(
        u,
    ) by {
        let takes = |l: LockModel| m.unlock_takes(client, None, true, l, owner, u);
        assert(m.locks.dom().contains(keys[i]));
        assert(takes(m.locks[keys[i]]));
        assert(release::any_lock(m.locks, keys, takes));
    }
}

} // verus!
