//! What a request that releases, and a sweep, lead to besides the holds they end: who
//! is let in, what is told, what is counted and what is forgotten.

use crate::broker::laws;
use crate::broker::laws::acquiring;
use crate::broker::laws::holds;
use crate::broker::model::{GrantStep, Tape};
use crate::broker::release;
use crate::broker::types::{BrokerModel, ClientId, Clock, DeliveryModel, GrantOverrides, LockModel};
use crate::protocol;
use crate::protocol::{Request, ResponseModel};
use vstd::prelude::*;

verus! {

/// While somebody reads the key, granting lets nobody write it or hold it exclusively.
pub proof fn nobody_is_let_in_beside_a_reader(
    m: BrokerModel,
    stack: Seq<Seq<char>>,
    clock: Clock,
    tape: Tape,
    key: Seq<char>,
    id: Seq<char>,
)
    requires
        m.locks.dom().finite(),
        m.locks.dom().contains(key),
        m.locks[key].readers.dom().contains(id),
    ensures
        ({
            let n = m.settled(stack, clock, tape);
            &&& n.locks.dom().contains(key)
            &&& n.locks[key].readers.dom().contains(id)
            &&& n.locks[key].writer == m.locks[key].writer
            &&& n.locks[key].exclusive_holders == m.locks[key].exclusive_holders
        }),
{
    let inv = |a: BrokerModel|
        {
            &&& a.locks.dom().contains(key)
            &&& a.locks[key].readers.dom().contains(id)
            &&& a.locks[key].writer == m.locks[key].writer
            &&& a.locks[key].exclusive_holders == m.locks[key].exclusive_holders
        };
    assert forall|a: BrokerModel, k: Seq<char>|
        a.locks.dom().finite() && #[trigger] inv(a) implies match #[trigger] a.grant_step(
        k,
        clock,
        tape,
    ) {
        GrantStep::Blocked => true,
        GrantStep::Granted(n) => inv(n),
        GrantStep::Moved(n, _) => inv(n),
    } by {
        assert(!a.locks[key].readers.is_empty());
        match a.grant_step(k, clock, tape) {
            GrantStep::Blocked => {},
            GrantStep::Granted(n) => {},
            GrantStep::Moved(n, other) => {
                laws::lemma_moved(a, k, clock, tape);
            },
        }
    }
    assert(inv(m));
    laws::lemma_settled(m, stack, clock, tape, inv);
}

/// As long as another client reads the key, the end of one's own reads lets nobody
/// write it or hold it exclusively.
pub proof fn a_waiting_writer_waits_for_every_reader(
    m: BrokerModel,
    client: ClientId,
    uuid: String,
    key: String,
    overrides: GrantOverrides,
    clock: Clock,
    tape: Tape,
    id: Seq<char>,
)
    requires
        m.locks.dom().finite(),
        m.locks.dom().contains(key@),
        m.locks[key@].readers.dom().contains(id),
        m.locks[key@].readers[id].client != client,
    ensures
        ({
            let n = m.handled(client, Request::EndRead { uuid, key }, overrides, clock, tape);
            &&& n.locks.dom().contains(key@)
            &&& n.locks[key@].readers.dom().contains(id)
            &&& n.locks[key@].writer == m.locks[key@].writer
            &&& n.locks[key@].exclusive_holders == m.locks[key@].exclusive_holders
        }),
{
    let x = m.read_released(client, uuid@, key@);
    nobody_is_let_in_beside_a_reader(x, seq![key@], clock, tape, key@, id);
}

/// What the end of a read is answered: how many reads of other clients go on. Of a key
/// that nobody uses it is none, and nothing changes.
pub proof fn the_end_of_a_read_is_answered(
    m: BrokerModel,
    client: ClientId,
    uuid: String,
    key: String,
    overrides: GrantOverrides,
    clock: Clock,
    tape: Tape,
)
    requires
        m.locks.dom().finite(),
    ensures
        ({
            let n = m.handled(client, Request::EndRead { uuid, key }, overrides, clock, tape);
            let others = Set::new(
                |u: Seq<char>|
                    m.locks.dom().contains(key@) && m.locks[key@].readers.dom().contains(u)
                        && m.locks[key@].readers[u].client != client,
            );
            let d = n.outbox[m.outbox.len() as int];
            &&& n.outbox.len() > m.outbox.len()
            &&& n.outbox.take(m.outbox.len() as int) == m.outbox
            &&& d == DeliveryModel {
                client,
                connected: m.clients.dom().contains(client),
                observed: true,
                response: ResponseModel::EndReadResult {
                    uuid: uuid@,
                    key: key@,
                    readers_count: others.len() as u32,
                },
            }
            &&& !m.locks.dom().contains(key@) ==> n == BrokerModel { outbox: n.outbox, ..m }
                && n.outbox.len() == m.outbox.len() + 1
        }),
{
    let n = m.handled(client, Request::EndRead { uuid, key }, overrides, clock, tape);
    let others = Set::new(
        |u: Seq<char>|
            m.locks.dom().contains(key@) && m.locks[key@].readers.dom().contains(u)
                && m.locks[key@].readers[u].client != client,
    );
    if m.locks.dom().contains(key@) {
        let x = m.read_released(client, uuid@, key@);
        assert(x.locks[key@].readers.dom() =~= others);
        acquiring::grants_are_told_afterwards(x, seq![key@], clock, tape);
        assert(n.outbox.take(x.outbox.len() as int)[m.outbox.len() as int]
            == n.outbox[m.outbox.len() as int]);
        assert(n.outbox.take(m.outbox.len() as int) =~= x.outbox.take(m.outbox.len() as int));
        assert(x.outbox.take(m.outbox.len() as int) =~= m.outbox);
    } else {
        assert(others =~= Set::empty());
        assert(n.outbox.take(m.outbox.len() as int) =~= m.outbox);
    }
}

/// What the end of a write is answered: how many read the key, and whether somebody
/// else still writes it. Of a key that nobody uses nothing is said, and nothing
/// changes.
pub proof fn the_end_of_a_write_is_answered(
    m: BrokerModel,
    client: ClientId,
    uuid: String,
    key: String,
    overrides: GrantOverrides,
    clock: Clock,
    tape: Tape,
)
    requires
        m.locks.dom().finite(),
    ensures
        ({
            let n = m.handled(client, Request::EndWrite { uuid, key }, overrides, clock, tape);
            let l = m.locks[key@];
            if m.locks.dom().contains(key@) {
                &&& n.outbox.len() > m.outbox.len()
                &&& n.outbox.take(m.outbox.len() as int) == m.outbox
                &&& n.outbox[m.outbox.len() as int] == DeliveryModel {
                    client,
                    connected: m.clients.dom().contains(client),
                    observed: true,
                    response: ResponseModel::EndWriteResult {
                        uuid: uuid@,
                        key: key@,
                        readers_count: l.readers.len() as u32,
                        writer_flag: l.writer is Some && l.writer->0.client != client,
                    },
                }
            } else {
                n == m
            }
        }),
{
    let n = m.handled(client, Request::EndWrite { uuid, key }, overrides, clock, tape);
    if m.locks.dom().contains(key@) {
        let x = m.write_released(client, uuid@, key@);
        acquiring::grants_are_told_afterwards(x, seq![key@], clock, tape);
        assert(x.outbox.len() == m.outbox.len() + 1);
        assert(n.outbox.take(x.outbox.len() as int)[m.outbox.len() as int]
            == n.outbox[m.outbox.len() as int]);
        assert(n.outbox.take(m.outbox.len() as int) =~= x.outbox.take(m.outbox.len() as int));
        assert(x.outbox.take(m.outbox.len() as int) =~= m.outbox);
    }
}

/// Somebody whom `owners` admits holds the key under an id that `ids` admits.
pub open spec fn held_by(
    l: LockModel,
    ids: spec_fn(Seq<char>) -> bool,
    owners: spec_fn(ClientId) -> bool,
) -> bool {
    exists|u: Seq<char>|
        #![trigger ids(u)]
        ids(u) && {
            ||| l.exclusive_holders.dom().contains(u) && owners(l.exclusive_holders[u].client)
            ||| l.readers.dom().contains(u) && owners(l.readers[u].client)
            ||| l.writer is Some && l.writer->0.lock_uuid == u && owners(l.writer->0.client)
        }
}

/// What an unlock request is answered: that it unlocked something exactly if somebody
/// whose holds it may take held one of its keys under the id that it names; how many
/// wait for the last of its keys; and why it took nothing, if the id belongs to
/// another connected client, or to nobody although it was forced.
pub proof fn an_unlock_is_answered(
    m: BrokerModel,
    client: ClientId,
    request: Request,
    overrides: GrantOverrides,
    clock: Clock,
    tape: Tape,
)
    requires
        m.locks.dom().finite(),
        request matches Request::Unlock { key, keys, lock_uuid, force, .. } && holds::keys_named(
            key,
            keys,
        ).len() > 0 && (lock_uuid is Some || force),
    ensures
        ({
            let n = m.handled(client, request, overrides, clock, tape);
            let ks = holds::keys_named(request->Unlock_key, request->Unlock_keys);
            let force = request->Unlock_force;
            let ids = |u: Seq<char>| request->lock_uuid matches Some(t) ==> u == t@;
            let mine = |c: ClientId| force || c == client || !m.clients.dom().contains(c);
            let theirs = |c: ClientId| !mine(c);
            let freed = exists|i: int|
                0 <= i < ks.len() && m.locks.dom().contains(#[trigger] ks[i]) && held_by(
                    m.locks[ks[i]],
                    ids,
                    mine,
                );
            let denied = request->lock_uuid is Some && exists|i: int|
                0 <= i < ks.len() && m.locks.dom().contains(#[trigger] ks[i]) && held_by(
                    m.locks[ks[i]],
                    ids,
                    theirs,
                );
            let d = n.outbox.last();
            &&& d.client == client
            &&& d.response is Unlock
            &&& d.response->Unlock_uuid == request->Unlock_uuid@
            &&& d.response->Unlock_keys == ks
            &&& d.response->unlocked <==> freed
            &&& forall|i: int|
                0 <= i < ks.len() && m.locks.dom().contains(#[trigger] ks[i]) && (forall|j: int|
                    i < j < ks.len() ==> !m.locks.dom().contains(#[trigger] ks[j]))
                    ==> d.response->Unlock_lock_request_count == m.locks[ks[i]].queue.len() as usize
            &&& (forall|i: int| 0 <= i < ks.len() ==> !m.locks.dom().contains(#[trigger] ks[i]))
                ==> d.response->Unlock_lock_request_count == 0
            &&& d.response->Unlock_error == if !freed && denied {
                Some(
                    "unlock lock_uuid `"@ + request->lock_uuid->0@
                        + "` is owned by another live client; use force=true to override"@,
                )
            } else if !freed && force && request->lock_uuid is Some {
                Some(
                    "unlock(force=true) lock_uuid `"@ + request->lock_uuid->0@
                        + "` did not match any current holder for the requested keys"@,
                )
            } else {
                None
            }
        }),
{
    let ks = holds::keys_named(request->Unlock_key, request->Unlock_keys);
    let force = request->Unlock_force;
    let target = protocol::shown_text(request->lock_uuid);
    let ids = |u: Seq<char>| request->lock_uuid matches Some(t) ==> u == t@;
    let mine = |c: ClientId| force || c == client || !m.clients.dom().contains(c);
    let theirs = |c: ClientId| !mine(c);
    let frees = m.unlock_frees(client, target, force);
    let denies = m.unlock_denied(client, target, force);
    assert forall|l: LockModel| #[trigger] frees(l) == held_by(l, ids, mine) by {
        if frees(l) {
            let (owner, u) = choose|owner: ClientId, u: Seq<char>|
                m.unlock_takes(client, target, force, l, owner, u);
            assert(ids(u));
            assert(mine(owner));
        }
        if held_by(l, ids, mine) {
            let u = choose|u: Seq<char>|
                #![trigger ids(u)]
                ids(u) && {
                    ||| l.exclusive_holders.dom().contains(u) && mine(l.exclusive_holders[u].client)
                    ||| l.readers.dom().contains(u) && mine(l.readers[u].client)
                    ||| l.writer is Some && l.writer->0.lock_uuid == u && mine(l.writer->0.client)
                };
            if l.exclusive_holders.dom().contains(u) && mine(l.exclusive_holders[u].client) {
                assert(m.unlock_takes(client, target, force, l, l.exclusive_holders[u].client, u));
            } else if l.readers.dom().contains(u) && mine(l.readers[u].client) {
                assert(m.unlock_takes(client, target, force, l, l.readers[u].client, u));
            } else {
                assert(m.unlock_takes(client, target, force, l, l.writer->0.client, u));
            }
        }
    }
    assert forall|l: LockModel| target is Some implies #[trigger] denies(l) == held_by(
        l,
        ids,
        theirs,
    ) by {
        let t = target->0;
        if denies(l) {
            assert(ids(t));
            let owner = choose|owner: ClientId|
                #[trigger] l.owns(owner, t) && !m.may_release(client, force)(owner);
            assert(theirs(owner));
        }
        if held_by(l, ids, theirs) {
            let u = choose|u: Seq<char>|
                #![trigger ids(u)]
                ids(u) && {
                    ||| l.exclusive_holders.dom().contains(u) && theirs(
                        l.exclusive_holders[u].client,
                    )
                    ||| l.readers.dom().contains(u) && theirs(l.readers[u].client)
                    ||| l.writer is Some && l.writer->0.lock_uuid == u && theirs(
                        l.writer->0.client,
                    )
                };
            assert(u == t);
            if l.exclusive_holders.dom().contains(u) && theirs(l.exclusive_holders[u].client) {
                assert(l.owns(l.exclusive_holders[u].client, t));
            } else if l.readers.dom().contains(u) && theirs(l.readers[u].client) {
                assert(l.owns(l.readers[u].client, t));
            } else {
                assert(l.owns(l.writer->0.client, t));
            }
        }
    }
    assert forall|i: int|
        0 <= i < ks.len() && m.locks.dom().contains(#[trigger] ks[i]) && (forall|j: int|
            i < j < ks.len() ==> !m.locks.dom().contains(
                #[trigger] ks[j],
            )) implies release::last_depth(m.locks, ks) == m.locks[ks[i]].queue.len() by {
        lemma_last_depth(m, ks, i);
    }
    if forall|i: int| 0 <= i < ks.len() ==> !m.locks.dom().contains(#[trigger] ks[i]) {
        lemma_no_depth(m, ks);
    }
    let freed = exists|i: int|
        0 <= i < ks.len() && m.locks.dom().contains(#[trigger] ks[i]) && held_by(
            m.locks[ks[i]],
            ids,
            mine,
        );
    assert(release::any_lock(m.locks, ks, frees) == freed) by {
        if freed {
            let i = choose|i: int|
                0 <= i < ks.len() && m.locks.dom().contains(#[trigger] ks[i]) && held_by(
                    m.locks[ks[i]],
                    ids,
                    mine,
                );
            assert(frees(m.locks[ks[i]]));
        }
        if release::any_lock(m.locks, ks, frees) {
            let i = choose|i: int|
                0 <= i < ks.len() && m.locks.dom().contains(#[trigger] ks[i]) && frees(
                    m.locks[ks[i]],
                );
            assert(held_by(m.locks[ks[i]], ids, mine));
        }
    }
    let denied = exists|i: int|
        0 <= i < ks.len() && m.locks.dom().contains(#[trigger] ks[i]) && held_by(
            m.locks[ks[i]],
            ids,
            theirs,
        );
    assert(target is Some ==> release::any_lock(m.locks, ks, denies) == denied) by {
        if target is Some && denied {
            let i = choose|i: int|
                0 <= i < ks.len() && m.locks.dom().contains(#[trigger] ks[i]) && held_by(
                    m.locks[ks[i]],
                    ids,
                    theirs,
                );
            assert(denies(m.locks[ks[i]]));
        }
        if target is Some && release::any_lock(m.locks, ks, denies) {
            let i = choose|i: int|
                0 <= i < ks.len() && m.locks.dom().contains(#[trigger] ks[i]) && denies(
                    m.locks[ks[i]],
                );
            assert(held_by(m.locks[ks[i]], ids, theirs));
        }
    }
}

/// The last key that exists tells how many wait.
proof fn lemma_last_depth(m: BrokerModel, ks: Seq<Seq<char>>, i: int)
    requires
        0 <= i < ks.len(),
        m.locks.dom().contains(ks[i]),
        forall|j: int| i < j < ks.len() ==> !m.locks.dom().contains(#[trigger] ks[j]),
    ensures
        release::last_depth(m.locks, ks) == m.locks[ks[i]].queue.len(),
    decreases ks.len(),
{
    if i < ks.len() - 1 {
        let front = ks.drop_last();
        assert(!m.locks.dom().contains(ks[ks.len() - 1]));
        assert(front[i] == ks[i]);
        assert forall|j: int| i < j < front.len() implies !m.locks.dom().contains(
            #[trigger] front[j],
        ) by {
            assert(front[j] == ks[j]);
        }
        lemma_last_depth(m, front, i);
    }
}

/// Where no key exists, nobody waits.
proof fn lemma_no_depth(m: BrokerModel, ks: Seq<Seq<char>>)
    requires
        forall|j: int| 0 <= j < ks.len() ==> !m.locks.dom().contains(#[trigger] ks[j]),
    ensures
        release::last_depth(m.locks, ks) == 0,
    decreases ks.len(),
{
    if ks.len() > 0 {
        let front = ks.drop_last();
        assert(!m.locks.dom().contains(ks[ks.len() - 1]));
        assert forall|j: int| 0 <= j < front.len() implies !m.locks.dom().contains(
            #[trigger] front[j],
        ) by {
            assert(front[j] == ks[j]);
        }
        lemma_no_depth(m, front);
    }
}

/// An unlock request that names no key, or neither an id nor force, is refused, and
/// changes nothing.
pub proof fn an_unlock_must_say_what_to_unlock(
    m: BrokerModel,
    client: ClientId,
    request: Request,
    overrides: GrantOverrides,
    clock: Clock,
    tape: Tape,
)
    requires
        request matches Request::Unlock { key, keys, lock_uuid, force, .. } && (holds::keys_named(
            key,
            keys,
        ).len() == 0 || (lock_uuid is None && !force)),
    ensures
        ({
            let n = m.handled(client, request, overrides, clock, tape);
            let ks = holds::keys_named(request->Unlock_key, request->Unlock_keys);
            let uuid = request->Unlock_uuid@;
            &&& n == BrokerModel { outbox: n.outbox, ..m }
            &&& acquiring::told(
                m,
                n,
                client,
                if request->Unlock_key is Some && request->Unlock_keys is Some {
                    ResponseModel::Error {
                        uuid,
                        error: "unlock request must set either `key` or `keys`, not both"@,
                    }
                } else if request->Unlock_key is None && request->Unlock_keys is None {
                    ResponseModel::Error {
                        uuid,
                        error: "unlock request requires `key` or `keys`"@,
                    }
                } else if ks.len() == 0 {
                    ResponseModel::Error {
                        uuid,
                        error: "unlock request requires at least one key"@,
                    }
                } else {
                    ResponseModel::Unlock {
                        uuid,
                        keys: ks,
                        unlocked: false,
                        lock_request_count: 0,
                        error: Some("unlock requires `_uuid` or `force=true`"@),
                    }
                },
            )
        }),
{
}

} // verus!
