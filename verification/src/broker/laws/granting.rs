//! What a waiter gets when its turn comes: when that is, what it then holds and for
//! how long, and what its client is told.

use crate::broker::acquire::CompositeLockRequest;
use crate::broker::laws;
use crate::broker::laws::acquiring;
use crate::broker::laws::holds;
use crate::broker::laws::rising;
use crate::broker::laws::Operation;
use crate::broker::model;
use crate::broker::model::{GrantStep, Tape};
use crate::broker::sweep;
use crate::broker::types::{
    BrokerModel, ClientId, Clock, DeadlineKey, DeadlineModel, DeliveryModel, ExclusiveHolder,
    GrantOverrides, HeldModel, KindModel, LockModel, PendingModel, RwHoldKind, RwModel,
};
use crate::ordered_map;
use crate::protocol;
use crate::protocol::{Request, ResponseModel, MAX_COMPOSITE_KEYS};
use crate::queue;
use crate::sums;
use vstd::prelude::*;

verus! {

/// The key has room for the waiter: for an exclusive one as many as its level allows,
/// if nobody reads or writes; for a reader if nobody writes or holds exclusively; for
/// a writer, and for a composite request whose next key it is, if nobody holds it.
pub open spec fn fits(l: LockModel, p: PendingModel, key: Seq<char>) -> bool {
    match p.kind {
        KindModel::Exclusive => l.writer is None && l.readers.dom() == Set::<Seq<char>>::empty()
            && l.exclusive_holders.len() < l.max,
        KindModel::Reader => l.writer is None && l.exclusive_holders.dom() == Set::<
            Seq<char>,
        >::empty(),
        KindModel::Writer => acquiring::held_by_nobody(l),
        KindModel::Composite { remaining_keys, .. } => remaining_keys.len() > 0 && remaining_keys[0]
            == key && acquiring::held_by_nobody(l),
    }
}

/// What the tokens of `key` have reached: the key's own last one, or the last of all
/// keys if that is lower or the key is new.
pub open spec fn last_token(m: BrokerModel, key: Seq<char>) -> u64 {
    if m.locks.dom().contains(key) && m.locks[key].fencing_counter <= m.fencing_watermark {
        m.locks[key].fencing_counter
    } else {
        m.fencing_watermark
    }
}

/// The token that a waiter for one key gets: the next of the key, or the one reserved
/// for it, unless the key has come as far meanwhile.
pub open spec fn token_for(m: BrokerModel, key: Seq<char>, p: PendingModel) -> u64 {
    match p.grant_fencing_seed {
        Some(t) if t > last_token(m, key) => t,
        Some(_) => if last_token(m, key) == u64::MAX {
            1
        } else {
            (last_token(m, key) + 1) as u64
        },
        None => acquiring::token_of_grant(m.locks[key], None),
    }
}

/// The token that a member of a waiting composite lock gets where tokens are reserved:
/// the one reserved for its place among the keys, unless the key has come as far
/// meanwhile.
pub open spec fn member_token(m: BrokerModel, key: Seq<char>, first: u64, i: int) -> u64 {
    let reserved = if first + i > u64::MAX {
        u64::MAX
    } else {
        (first + i) as u64
    };
    if reserved > last_token(m, key) {
        reserved
    } else if last_token(m, key) == u64::MAX {
        1
    } else {
        (last_token(m, key) + 1) as u64
    }
}

/// The lock id that a waiter for one key gets.
pub open spec fn id_for(m: BrokerModel, p: PendingModel, tape: Tape) -> Seq<char> {
    match p.grant_lock_uuid {
        Some(u) => u,
        None => tape(m.drawn),
    }
}

/// The books of a waiter's client, if it is connected, list what it holds now, and no
/// longer that it waits; nobody else's books change.
pub open spec fn served(
    m: BrokerModel,
    n: BrokerModel,
    p: PendingModel,
    key: Seq<char>,
    lock_uuid: Seq<char>,
    keys: Seq<Seq<char>>,
    kind: RwHoldKind,
) -> bool {
    &&& n.clients.dom() == m.clients.dom()
    &&& forall|c: ClientId| #[trigger]
        m.clients.dom().contains(c) && c != p.client ==> n.clients[c] == m.clients[c]
    &&& m.clients.dom().contains(p.client) ==> {
        &&& n.clients[p.client].held_lock_uuids == m.clients[p.client].held_lock_uuids.insert(
            lock_uuid,
            HeldModel { keys, rw_kind: kind },
        )
        &&& !n.clients[p.client].pending_request_uuids.contains((key, p.request_uuid))
        &&& forall|e: (Seq<char>, Seq<char>)|
            e != (key, p.request_uuid) ==> (#[trigger] n.clients[p.client].pending_request_uuids.contains(
                e,
            ) <==> m.clients[p.client].pending_request_uuids.contains(e))
    }
}

/// What a filter keeps is what was there and passes it.
proof fn lemma_filter<A>(s: Seq<A>, p: spec_fn(A) -> bool, x: A)
    ensures
        s.filter(p).contains(x) <==> s.contains(x) && p(x),
    decreases s.len(),
{
    reveal(Seq::filter);
    if s.filter(p).contains(x) {
        queue::lemma_filter_from(s, p, x);
    }
    if s.len() > 0 {
        let rest = s.drop_last();
        assert(s =~= rest.push(s.last()));
        queue::lemma_contains_push(rest, s.last(), x);
        lemma_filter(rest, p, x);
        if p(s.last()) {
            queue::lemma_contains_push(rest.filter(p), s.last(), x);
        }
    }
}

/// What striking a request off leaves on the books.
proof fn lemma_struck(m: BrokerModel, p: PendingModel, key: Seq<char>)
    requires
        m.clients.dom().contains(p.client),
    ensures
        ({
            let before = m.clients[p.client].pending_request_uuids;
            let left = m.pending_untracked(
                p.client,
                key,
                p.request_uuid,
            ).clients[p.client].pending_request_uuids;
            forall|e: (Seq<char>, Seq<char>)| #[trigger]
                left.contains(e) <==> before.contains(e) && e != (key, p.request_uuid)
        }),
{
    let before = m.clients[p.client].pending_request_uuids;
    let f = |e: (Seq<char>, Seq<char>)| e != (key, p.request_uuid);
    assert forall|e: (Seq<char>, Seq<char>)| #[trigger] before.filter(f).contains(e)
        <==> before.contains(e) && e != (key, p.request_uuid) by {
        lemma_filter(before, f, e);
    }
}

/// The head of a queue is served exactly if the key has room for it and a token that
/// every client can hold is left for it.
pub proof fn the_head_is_served_exactly_if_it_fits(
    m: BrokerModel,
    key: Seq<char>,
    clock: Clock,
    tape: Tape,
)
    requires
        m.locks.dom().contains(key),
        m.locks[key].queue.len() > 0,
        !(m.locks[key].queue[0].1.kind is Composite) || m.locks[key].queue[0].1.grant_fencing_seed is None,
    ensures
        ({
            let p = m.locks[key].queue[0].1;
            let barred = p.grant_fencing_seed matches Some(t) && t <= last_token(m, key)
                && last_token(m, key) >= 9_007_199_254_740_991;
            !(m.grant_step(key, clock, tape) is Blocked) <==> fits(m.locks[key], p, key) && !barred
        }),
{
    let l = m.locks[key];
    acquiring::lemma_vacant(l);
    assert(l.readers.is_empty() <==> l.readers.dom() == Set::<Seq<char>>::empty());
    assert(l.exclusive_holders.is_empty() <==> l.exclusive_holders.dom() == Set::<
        Seq<char>,
    >::empty());
}

/// An exclusive waiter that is served holds the key as it asked: under the lock id and
/// with the token that its client is told, for its time to live from now on. The
/// other waiters and holders of the key stay, and no other key changes.
pub proof fn an_exclusive_waiter_gets_what_it_asked_for(
    m: BrokerModel,
    key: Seq<char>,
    clock: Clock,
    tape: Tape,
)
    requires
        m.locks.dom().contains(key),
        m.locks[key].queue.len() > 0,
        m.locks[key].queue[0].1.kind is Exclusive,
        m.locks[key].exclusive_holders.dom().finite(),
    ensures
        ({
            let was = m.locks[key];
            let p = was.queue[0].1;
            let id = id_for(m, p, tape);
            let token = token_for(m, key, p);
            &&& !(m.grant_step(key, clock, tape) is Moved)
            &&& m.grant_step(key, clock, tape) matches GrantStep::Granted(n) ==> {
                let now = n.locks[key];
                &&& acquiring::elsewhere_unchanged(m, n, key)
                &&& now.queue == was.queue.drop_first()
                &&& now.readers == was.readers
                &&& now.writer == was.writer
                &&& now.max == was.max
                &&& now.exclusive_holders == was.exclusive_holders.insert(
                    id,
                    ExclusiveHolder {
                        client: p.client,
                        pid: p.pid,
                        fencing_token: token,
                        keep_locks_after_death: p.keep_locks_after_death,
                        composite_member: false,
                    },
                )
                &&& now.exclusive_holders.len() <= now.max
                &&& acquiring::lives_for(m, n, p.ttl, clock.now, id, seq![key], p.client)
                &&& served(m, n, p, key, id, seq![key], RwHoldKind::Exclusive)
                &&& acquiring::told(
                    m,
                    n,
                    p.client,
                    ResponseModel::Lock {
                        uuid: p.request_uuid,
                        key,
                        acquired: true,
                        lock_request_count: now.queue.len() as usize,
                        lock_uuid: Some(id),
                        fencing_token: Some(token),
                        readers_count: Some(0),
                        error: None,
                    },
                )
            }
        }),
{
    let was = m.locks[key];
    let p = was.queue[0].1;
    if let GrantStep::Granted(n) = m.grant_step(key, clock, tape) {
        if m.clients.dom().contains(p.client) {
            lemma_struck(m, p, key);
            assert(n.clients[p.client].pending_request_uuids == m.pending_untracked(
                p.client,
                key,
                p.request_uuid,
            ).clients[p.client].pending_request_uuids);
        }
        assert(n.clients.dom() =~= m.clients.dom());
        assert(n.locks.dom() =~= m.locks.dom().insert(key));
        assert(n.locks[key].exclusive_holders.dom() =~= was.exclusive_holders.dom().insert(
            id_for(m, p, tape),
        ));
    }
}

/// A reader that is served reads beside the others, under the lock id and with the
/// token that its client is told.
pub proof fn a_waiting_reader_gets_to_read(m: BrokerModel, key: Seq<char>, clock: Clock, tape: Tape)
    requires
        m.locks.dom().contains(key),
        m.locks[key].queue.len() > 0,
        m.locks[key].queue[0].1.kind is Reader,
    ensures
        ({
            let was = m.locks[key];
            let p = was.queue[0].1;
            let id = id_for(m, p, tape);
            let token = token_for(m, key, p);
            &&& !(m.grant_step(key, clock, tape) is Moved)
            &&& m.grant_step(key, clock, tape) matches GrantStep::Granted(n) ==> {
                let now = n.locks[key];
                &&& acquiring::elsewhere_unchanged(m, n, key)
                &&& n.deadlines == m.deadlines
                &&& now.queue == was.queue.drop_first()
                &&& now.exclusive_holders == was.exclusive_holders
                &&& now.writer == was.writer
                &&& now.max == was.max
                &&& now.readers == was.readers.insert(
                    id,
                    RwModel { client: p.client, fencing_token: token, lock_uuid: id },
                )
                &&& served(m, n, p, key, id, seq![key], RwHoldKind::Read)
                &&& acquiring::told(
                    m,
                    n,
                    p.client,
                    ResponseModel::RegisterReadResult {
                        uuid: p.request_uuid,
                        key,
                        readers_count: now.readers.len() as u32,
                        writer_flag: false,
                        granted: true,
                        lock_uuid: Some(id),
                        fencing_token: Some(token),
                    },
                )
            }
        }),
{
    let p = m.locks[key].queue[0].1;
    if let GrantStep::Granted(n) = m.grant_step(key, clock, tape) {
        if m.clients.dom().contains(p.client) {
            lemma_struck(m, p, key);
            assert(n.clients[p.client].pending_request_uuids == m.pending_untracked(
                p.client,
                key,
                p.request_uuid,
            ).clients[p.client].pending_request_uuids);
        }
        assert(n.clients.dom() =~= m.clients.dom());
        assert(n.locks.dom() =~= m.locks.dom().insert(key));
    }
}

/// A writer that is served writes, under the lock id and with the token that its
/// client is told.
pub proof fn a_waiting_writer_gets_to_write(m: BrokerModel, key: Seq<char>, clock: Clock, tape: Tape)
    requires
        m.locks.dom().contains(key),
        m.locks[key].queue.len() > 0,
        m.locks[key].queue[0].1.kind is Writer,
    ensures
        ({
            let was = m.locks[key];
            let p = was.queue[0].1;
            let id = id_for(m, p, tape);
            let token = token_for(m, key, p);
            &&& !(m.grant_step(key, clock, tape) is Moved)
            &&& m.grant_step(key, clock, tape) matches GrantStep::Granted(n) ==> {
                let now = n.locks[key];
                &&& acquiring::elsewhere_unchanged(m, n, key)
                &&& n.deadlines == m.deadlines
                &&& now.queue == was.queue.drop_first()
                &&& now.exclusive_holders == was.exclusive_holders
                &&& now.readers == was.readers
                &&& now.max == was.max
                &&& now.writer == Some(
                    RwModel { client: p.client, fencing_token: token, lock_uuid: id },
                )
                &&& served(m, n, p, key, id, seq![key], RwHoldKind::Write)
                &&& acquiring::told(
                    m,
                    n,
                    p.client,
                    ResponseModel::RegisterWriteResult {
                        uuid: p.request_uuid,
                        key,
                        readers_count: 0,
                        writer_flag: true,
                        granted: true,
                        lock_uuid: Some(id),
                        fencing_token: Some(token),
                    },
                )
            }
        }),
{
    let p = m.locks[key].queue[0].1;
    if let GrantStep::Granted(n) = m.grant_step(key, clock, tape) {
        if m.clients.dom().contains(p.client) {
            lemma_struck(m, p, key);
            assert(n.clients[p.client].pending_request_uuids == m.pending_untracked(
                p.client,
                key,
                p.request_uuid,
            ).clients[p.client].pending_request_uuids);
        }
        assert(n.clients.dom() =~= m.clients.dom());
        assert(n.locks.dom() =~= m.locks.dom().insert(key));
    }
}

/// A composite request that is served holds one key more, as a member under its one
/// lock id. With the last of its keys it is complete: its client is told of all of
/// them and their tokens, and its time to live starts. Before that it is told
/// nothing, and the request moves on to wait for its next key as what it is.
pub proof fn a_composite_waiter_takes_one_key_more(
    m: BrokerModel,
    key: Seq<char>,
    clock: Clock,
    tape: Tape,
)
    requires
        m.locks.dom().contains(key),
        m.locks[key].queue.len() > 0,
        m.locks[key].queue[0].1.kind is Composite,
        m.locks[key].queue[0].1.kind->remaining_keys.len() > 1 ==> m.locks[key].queue[0].1.kind->remaining_keys[1]
            != key,
        m.locks[key].queue[0].1.kind->all_keys.no_duplicates(),
    ensures
        ({
            let was = m.locks[key];
            let p = was.queue[0].1;
            let all = p.kind->all_keys;
            let id = p.kind->composite_lock_uuid;
            let left = p.kind->remaining_keys.drop_first();
            let taken = |n: BrokerModel|
                {
                    let now = n.locks[key];
                    let token = now.exclusive_holders[id].fencing_token;
                    &&& n.locks.dom().contains(key)
                    &&& now.queue == was.queue.drop_first()
                    &&& now.readers == was.readers
                    &&& now.writer is None
                    &&& now.max == was.max
                    &&& now.exclusive_holders == was.exclusive_holders.insert(
                        id,
                        ExclusiveHolder {
                            client: p.client,
                            pid: p.pid,
                            fencing_token: token,
                            keep_locks_after_death: false,
                            composite_member: true,
                        },
                    )
                    &&& p.grant_fencing_seed is None ==> token == acquiring::token_of_grant(
                        was,
                        None,
                    )
                    &&& forall|i: int|
                        0 <= i < all.len() && #[trigger] all[i] == key && p.grant_fencing_seed is Some
                            ==> token == member_token(m, key, p.grant_fencing_seed->0, i)
                };
            match m.grant_step(key, clock, tape) {
                GrantStep::Blocked => true,
                GrantStep::Granted(n) => {
                    &&& left.len() == 0
                    &&& taken(n)
                    &&& acquiring::elsewhere_unchanged(m, n, key)
                    &&& acquiring::lives_for(m, n, p.ttl, clock.now, id, all, p.client)
                    &&& served(m, n, p, key, id, all, RwHoldKind::Exclusive)
                    &&& acquiring::told(
                        m,
                        n,
                        p.client,
                        ResponseModel::CompositeLock {
                            uuid: p.request_uuid,
                            keys: all,
                            acquired: true,
                            lock_uuid: Some(id),
                            fencing_tokens: Some(
                                p.kind->granted_tokens.insert(
                                    key,
                                    n.locks[key].exclusive_holders[id].fencing_token,
                                ),
                            ),
                            error: None,
                        },
                    )
                },
                GrantStep::Moved(n, other) => {
                    let token = n.locks[key].exclusive_holders[id].fencing_token;
                    &&& left.len() > 0
                    &&& other == left[0]
                    &&& taken(n)
                    &&& n.outbox == m.outbox
                    &&& n.deadlines == m.deadlines
                    &&& n.locks.dom() == m.locks.dom().insert(other)
                    &&& forall|k: Seq<char>| #[trigger]
                        m.locks.dom().contains(k) && k != key && k != other ==> n.locks[k]
                            == m.locks[k]
                    &&& n.locks[other].exclusive_holders == if m.locks.dom().contains(other) {
                        m.locks[other].exclusive_holders
                    } else {
                        Map::empty()
                    }
                    &&& n.locks[other].readers == if m.locks.dom().contains(other) {
                        m.locks[other].readers
                    } else {
                        Map::empty()
                    }
                    &&& n.locks[other].writer == if m.locks.dom().contains(other) {
                        m.locks[other].writer
                    } else {
                        None
                    }
                    &&& acquiring::joins(
                        if m.locks.dom().contains(other) {
                            m.locks[other].queue
                        } else {
                            Seq::empty()
                        },
                        n.locks[other].queue,
                        PendingModel {
                            grant_lock_uuid: None,
                            kind: KindModel::Composite {
                                all_keys: all,
                                remaining_keys: left,
                                granted_keys: p.kind->granted_keys.push(key),
                                granted_tokens: p.kind->granted_tokens.insert(key, token),
                                composite_lock_uuid: id,
                            },
                            ..p
                        },
                        false,
                    )
                    &&& m.clients.dom().contains(p.client) ==> {
                        &&& n.clients[p.client].held_lock_uuids == m.clients[p.client].held_lock_uuids.insert(
                            id,
                            HeldModel { keys: all, rw_kind: RwHoldKind::Exclusive },
                        )
                        &&& forall|e: (Seq<char>, Seq<char>)|
                            #[trigger] n.clients[p.client].pending_request_uuids.contains(e) <==> (
                            m.clients[p.client].pending_request_uuids.contains(e) && e != (
                                key,
                                p.request_uuid,
                            )) || e == (other, p.request_uuid)
                    }
                    &&& forall|c: ClientId| #[trigger]
                        m.clients.dom().contains(c) && c != p.client ==> n.clients[c]
                            == m.clients[c]
                },
            }
        }),
{
    let p = m.locks[key].queue[0].1;
    acquiring::lemma_vacant(m.locks[key]);
    let all = p.kind->all_keys;
    all.index_of_first_ensures(key);
    assert forall|i: int|
        0 <= i < all.len() && #[trigger] all[i] == key implies all.index_of_first(key) == Some(
        i,
    ) by {
        let j = all.index_of_first(key)->0;
        assert(all.contains(key));
        assert(all[j] == key);
    }
    match m.grant_step(key, clock, tape) {
        GrantStep::Blocked => {},
        GrantStep::Granted(n) => {
            if m.clients.dom().contains(p.client) {
                lemma_struck(m, p, key);
                assert(n.clients[p.client].pending_request_uuids == m.pending_untracked(
                    p.client,
                    key,
                    p.request_uuid,
                ).clients[p.client].pending_request_uuids);
            }
            assert(n.clients.dom() =~= m.clients.dom());
            assert(n.locks.dom() =~= m.locks.dom().insert(key));
        },
        GrantStep::Moved(n, other) => {
            assert(n.locks.dom() =~= m.locks.dom().insert(other));
            if m.clients.dom().contains(p.client) {
                lemma_struck(m, p, key);
                let mid = m.pending_untracked(p.client, key, p.request_uuid);
                let before = mid.clients[p.client].pending_request_uuids;
                assert(n.clients[p.client].pending_request_uuids =~= before.push(
                    (other, p.request_uuid),
                ));
                assert forall|e: (Seq<char>, Seq<char>)|
                    #[trigger] n.clients[p.client].pending_request_uuids.contains(e) <==> (
                    m.clients[p.client].pending_request_uuids.contains(e) && e != (
                        key,
                        p.request_uuid,
                    )) || e == (other, p.request_uuid) by {
                    queue::lemma_contains_push(before, (other, p.request_uuid), e);
                    assert(before.contains(e) <==> m.clients[p.client].pending_request_uuids.contains(
                        e,
                    ) && e != (key, p.request_uuid));
                }
            }
        },
    }
}

/// The exclusive grant that a delivery tells of: the request, the lock id and the
/// keys.
pub open spec fn grant_told(d: DeliveryModel) -> Option<(Seq<char>, Seq<char>, Seq<Seq<char>>)> {
    match d.response {
        ResponseModel::Lock { uuid, key, acquired: true, lock_uuid: Some(u), .. } => Some(
            (uuid, u, seq![key]),
        ),
        ResponseModel::CompositeLock { uuid, keys, acquired: true, lock_uuid: Some(u), .. } => Some(
            (uuid, u, keys),
        ),
        _ => None,
    }
}

/// `q` is the exclusive or composite request `p`, perhaps further on its way.
pub open spec fn same_request(p: PendingModel, q: PendingModel) -> bool {
    &&& p.request_uuid == q.request_uuid
    &&& p.client == q.client
    &&& p.ttl == q.ttl
    &&& match (p.kind, q.kind) {
        (KindModel::Exclusive, KindModel::Exclusive) => true,
        (
            KindModel::Composite { all_keys: a, composite_lock_uuid: u, .. },
            KindModel::Composite { all_keys: b, composite_lock_uuid: v, .. },
        ) => a == b && u == v,
        _ => false,
    }
}

/// `p` waits in some queue, perhaps further back on its way.
pub open spec fn waits(m: BrokerModel, p: PendingModel) -> bool {
    exists|k: Seq<char>, i: int|
        m.locks.dom().contains(k) && 0 <= i < m.locks[k].queue.len() && same_request(
            (#[trigger] m.locks[k].queue[i]).1,
            p,
        )
}

/// Some deadline is at that instant and for that hold.
pub open spec fn expires(
    m: BrokerModel,
    at: int,
    lock_uuid: Seq<char>,
    keys: Seq<Seq<char>>,
    client: ClientId,
) -> bool {
    exists|d: DeadlineKey| #[trigger]
        m.deadlines.dom().contains(d) && d.at == at && m.deadlines[d] == DeadlineModel {
            lock_uuid,
            keys,
            kind: RwHoldKind::Exclusive,
            client,
        }
}

/// The delivery, if it tells of an exclusive grant, tells a waiter of `m` of it, and
/// the grant expires in `n` after the waiter's time to live.
pub open spec fn told_in_time(
    m: BrokerModel,
    n: BrokerModel,
    d: DeliveryModel,
    now: u128,
) -> bool {
    grant_told(d) matches Some((uuid, id, keys)) ==> exists|p: PendingModel| #[trigger]
        waits(m, p) && p.request_uuid == uuid && p.client == d.client && (acquiring::ends_in_time(
            p.ttl,
            now,
        ) ==> expires(n, now + p.ttl->0 * 1_000_000, id, keys, p.client))
}

/// The deadlines are numbered up to `deadline_seq`, and `n` numbers are left.
pub open spec fn numbered(m: BrokerModel, n: nat) -> bool {
    &&& m.deadline_seq + n < u64::MAX
    &&& forall|d: DeadlineKey| #[trigger]
        m.deadlines.dom().contains(d) ==> d.seq <= m.deadline_seq
}

/// Every deadline stays.
pub open spec fn deadlines_stay(m: BrokerModel, n: BrokerModel) -> bool {
    forall|d: DeadlineKey| #[trigger]
        m.deadlines.dom().contains(d) ==> n.deadlines.dom().contains(d) && n.deadlines[d]
            == m.deadlines[d]
}

/// Every waiter of `n` that wants a key exclusively is a waiter of `m`.
pub open spec fn nobody_new_waits(m: BrokerModel, n: BrokerModel) -> bool {
    forall|k: Seq<char>, i: int|
        n.locks.dom().contains(k) && 0 <= i < n.locks[k].queue.len() && ((
        #[trigger] n.locks[k].queue[i]).1.kind is Exclusive || n.locks[k].queue[i].1.kind is Composite)
            ==> waits(m, n.locks[k].queue[i].1)
}

/// What is told since `m` is told in time.
pub open spec fn all_told_in_time(m: BrokerModel, n: BrokerModel, now: u128) -> bool {
    &&& m.outbox.len() <= n.outbox.len()
    &&& forall|i: int|
        m.outbox.len() <= i < n.outbox.len() ==> told_in_time(m, n, #[trigger] n.outbox[i], now)
}

/// While deadlines stay, what expires expires.
proof fn lemma_expires(
    a: BrokerModel,
    n: BrokerModel,
    at: int,
    lock_uuid: Seq<char>,
    keys: Seq<Seq<char>>,
    client: ClientId,
)
    requires
        deadlines_stay(a, n),
        expires(a, at, lock_uuid, keys, client),
    ensures
        expires(n, at, lock_uuid, keys, client),
{
    let d = choose|d: DeadlineKey| #[trigger]
        a.deadlines.dom().contains(d) && d.at == at && a.deadlines[d] == DeadlineModel {
            lock_uuid,
            keys,
            kind: RwHoldKind::Exclusive,
            client,
        };
    assert(n.deadlines.dom().contains(d));
}

/// While deadlines stay, what was told in time stays so.
proof fn lemma_told(m: BrokerModel, a: BrokerModel, n: BrokerModel, d: DeliveryModel, now: u128)
    requires
        deadlines_stay(a, n),
        told_in_time(m, a, d, now),
    ensures
        told_in_time(m, n, d, now),
{
    if let Some((uuid, id, keys)) = grant_told(d) {
        let p = choose|p: PendingModel| #[trigger]
            waits(m, p) && p.request_uuid == uuid && p.client == d.client && (
            acquiring::ends_in_time(p.ttl, now) ==> expires(
                a,
                now + p.ttl->0 * 1_000_000,
                id,
                keys,
                p.client,
            ));
        assert(waits(m, p));
        if acquiring::ends_in_time(p.ttl, now) {
            lemma_expires(a, n, now + p.ttl->0 * 1_000_000, id, keys, p.client);
        }
    }
}

/// A waiter further on its way is still the same.
proof fn lemma_waits(m: BrokerModel, p: PendingModel, q: PendingModel)
    requires
        waits(m, p),
        same_request(p, q),
    ensures
        waits(m, q),
{
    let (k, i) = choose|k: Seq<char>, i: int|
        m.locks.dom().contains(k) && 0 <= i < m.locks[k].queue.len() && same_request(
            (#[trigger] m.locks[k].queue[i]).1,
            p,
        );
    assert(same_request(m.locks[k].queue[i].1, q));
}

/// One grant is told in time.
proof fn lemma_due_step(
    m: BrokerModel,
    a: BrokerModel,
    key: Seq<char>,
    clock: Clock,
    tape: Tape,
    n: BrokerModel,
)
    requires
        numbered(a, 1),
        nobody_new_waits(m, a),
        all_told_in_time(m, a, clock.now),
        a.grant_step(key, clock, tape) == GrantStep::Granted(n) || a.grant_step(key, clock, tape)
            == GrantStep::Moved(n, a.locks[key].queue[0].1.kind->remaining_keys[1]),
    ensures
        deadlines_stay(a, n),
        n.deadline_seq <= a.deadline_seq + 1,
        forall|d: DeadlineKey| #[trigger]
            n.deadlines.dom().contains(d) ==> d.seq <= n.deadline_seq,
        nobody_new_waits(m, n),
        all_told_in_time(m, n, clock.now),
{
    let l = a.locks[key];
    let p = l.queue[0].1;
    assert(a.locks.dom().contains(key) && l.queue.len() > 0);
    assert(p == a.locks[key].queue[0].1);
    if let GrantStep::Granted(_) = a.grant_step(key, clock, tape) {
        let g = n.locks[key];
        let d = n.outbox.last();
        assert(n.outbox =~= a.outbox.push(d));
        assert(g.queue =~= l.queue.drop_first());
        assert forall|k: Seq<char>, i: int|
            n.locks.dom().contains(k) && 0 <= i < n.locks[k].queue.len() && ((
            #[trigger] n.locks[k].queue[i]).1.kind is Exclusive || n.locks[k].queue[i].1.kind is Composite) implies waits(
            m,
            n.locks[k].queue[i].1,
        ) by {
            if k == key {
                assert(n.locks[k].queue[i] == a.locks[k].queue[i + 1]);
            } else {
                assert(n.locks[k].queue[i] == a.locks[k].queue[i]);
            }
        }
        assert forall|i: int| m.outbox.len() <= i < n.outbox.len() implies told_in_time(
            m,
            n,
            #[trigger] n.outbox[i],
            clock.now,
        ) by {
            if i < a.outbox.len() {
                assert(n.outbox[i] == a.outbox[i]);
                lemma_told(m, a, n, a.outbox[i], clock.now);
            } else if let Some((uuid, id, keys)) = grant_told(d) {
                assert(waits(m, p));
                if acquiring::ends_in_time(p.ttl, clock.now) {
                    let e = DeadlineKey {
                        at: (clock.now + p.ttl->0 * 1_000_000) as u128,
                        seq: n.deadline_seq,
                    };
                    assert(n.deadlines.dom().contains(e));
                }
            }
        }
    } else {
        let other = p.kind->remaining_keys[1];
        laws::lemma_moved(a, key, clock, tape);
        let t = laws::taken(a, key);
        let held = a.with_lock(key, t).observed(
            t.exclusive_holders[p.kind->composite_lock_uuid].fencing_token,
        );
        let q = choose|q: PendingModel| #[trigger]
            n.locks == held.locks.insert(
                other,
                held.lock_or_fresh(other, clock.wall_ms).enqueued(q, false),
            ) && laws::continues(p, key, t, q);
        let base = held.lock_or_fresh(other, clock.wall_ms);
        let joined = base.enqueued(q, false);
        assert(t.queue =~= l.queue.drop_first());
        assert(n.outbox == a.outbox);
        lemma_waits(m, p, q);
        assert forall|k: Seq<char>, i: int|
            n.locks.dom().contains(k) && 0 <= i < n.locks[k].queue.len() && ((
            #[trigger] n.locks[k].queue[i]).1.kind is Exclusive || n.locks[k].queue[i].1.kind is Composite) implies waits(
            m,
            n.locks[k].queue[i].1,
        ) by {
            if k == other {
                if i < base.queue.len() {
                    assert(joined.queue[i] == base.queue[i]);
                    if other == key {
                        assert(base.queue[i] == a.locks[k].queue[i + 1]);
                    } else if a.locks.dom().contains(other) {
                        assert(base.queue[i] == a.locks[k].queue[i]);
                    }
                }
            } else if k == key {
                assert(n.locks[k].queue[i] == a.locks[k].queue[i + 1]);
            } else {
                assert(n.locks[k].queue[i] == a.locks[k].queue[i]);
            }
        }
        assert forall|i: int| m.outbox.len() <= i < n.outbox.len() implies told_in_time(
            m,
            n,
            #[trigger] n.outbox[i],
            clock.now,
        ) by {
            lemma_told(m, a, n, a.outbox[i], clock.now);
        }
    }
}

/// Every exclusive or composite grant that is made to a waiter expires after its time
/// to live, counted from the grant: the broker has a deadline at that instant which
/// names the lock id, the keys and the client. No deadline is lost on the way.
pub proof fn every_grant_to_a_waiter_has_its_deadline(
    m: BrokerModel,
    stack: Seq<Seq<char>>,
    clock: Clock,
    tape: Tape,
)
    requires
        m.locks.dom().finite(),
        numbered(m, m.work()),
    ensures
        deadlines_stay(m, m.settled(stack, clock, tape)),
        all_told_in_time(m, m.settled(stack, clock, tape), clock.now),
{
    let inv = |a: BrokerModel|
        {
            &&& a.locks.dom().finite()
            &&& a.deadline_seq + a.work() <= m.deadline_seq + m.work()
            &&& forall|d: DeadlineKey| #[trigger]
                a.deadlines.dom().contains(d) ==> d.seq <= a.deadline_seq
            &&& deadlines_stay(m, a)
            &&& nobody_new_waits(m, a)
            &&& all_told_in_time(m, a, clock.now)
        };
    assert forall|a: BrokerModel, k: Seq<char>|
        a.locks.dom().finite() && #[trigger] inv(a) implies match #[trigger] a.grant_step(
        k,
        clock,
        tape,
    ) {
        GrantStep::Blocked => true,
        GrantStep::Granted(n) => inv(n),
        GrantStep::Moved(n, _) => inv(n),
    } by {
        model::lemma_step_shrinks(a, k, clock, tape);
        match a.grant_step(k, clock, tape) {
            GrantStep::Blocked => {},
            GrantStep::Granted(n) => {
                lemma_due_step(m, a, k, clock, tape, n);
            },
            GrantStep::Moved(n, other) => {
                laws::lemma_moved(a, k, clock, tape);
                lemma_due_step(m, a, k, clock, tape, n);
            },
        }
    }
    assert forall|a: BrokerModel, k: Seq<char>| #[trigger] inv(a) implies inv(
        #[trigger] a.idle_marked(k, clock.now),
    ) by {
        let b = a.idle_marked(k, clock.now);
        model::lemma_mark_keeps_work(a, k, clock.now);
        assert forall|j: Seq<char>, i: int|
            b.locks.dom().contains(j) && 0 <= i < b.locks[j].queue.len() && ((
            #[trigger] b.locks[j].queue[i]).1.kind is Exclusive || b.locks[j].queue[i].1.kind is Composite) implies waits(
            m,
            b.locks[j].queue[i].1,
        ) by {
            assert(b.locks[j].queue[i] == a.locks[j].queue[i]);
        }
        assert forall|i: int| m.outbox.len() <= i < b.outbox.len() implies told_in_time(
            m,
            b,
            #[trigger] b.outbox[i],
            clock.now,
        ) by {
            lemma_told(m, a, b, a.outbox[i], clock.now);
        }
    }
    assert(inv(m)) by {
        assert forall|k: Seq<char>, i: int|
            m.locks.dom().contains(k) && 0 <= i < m.locks[k].queue.len() && ((
            #[trigger] m.locks[k].queue[i]).1.kind is Exclusive || m.locks[k].queue[i].1.kind is Composite) implies waits(
            m,
            m.locks[k].queue[i].1,
        ) by {
            assert(same_request(m.locks[k].queue[i].1, m.locks[k].queue[i].1));
        }
    }
    laws::lemma_settled(m, stack, clock, tape, inv);
}

/// `p` waits, or is what the operation asks for.
pub open spec fn asks(m: BrokerModel, op: Operation, p: PendingModel) -> bool {
    ||| waits(m, p)
    ||| {
        &&& op matches Operation::Request { client, request, .. }
        &&& request matches Request::Lock { uuid, ttl, .. }
        &&& p.request_uuid == uuid@
        &&& p.client == client
        &&& p.ttl == ttl
    }
}

/// The delivery, if it tells of an exclusive grant, tells a request that waited or was
/// just made of it, and the grant expires after the request's time to live.
pub open spec fn granted_in_time(
    m: BrokerModel,
    op: Operation,
    n: BrokerModel,
    d: DeliveryModel,
    now: u128,
) -> bool {
    grant_told(d) matches Some((uuid, id, keys)) ==> exists|p: PendingModel| #[trigger]
        asks(m, op, p) && p.request_uuid == uuid && p.client == d.client && (
        acquiring::ends_in_time(p.ttl, now) ==> expires(
            n,
            now + p.ttl->0 * 1_000_000,
            id,
            keys,
            p.client,
        ))
}

/// What is granted from queues that have lost waiters at most, or gained the one who
/// asks, is granted in time.
proof fn lemma_settle_in_time(
    m: BrokerModel,
    op: Operation,
    x: BrokerModel,
    stack: Seq<Seq<char>>,
    clock: Clock,
    tape: Tape,
    i: int,
)
    requires
        x.locks.dom().finite(),
        numbered(x, x.work()),
        m.outbox.len() <= x.outbox.len() <= m.outbox.len() + 1,
        x.outbox.len() > m.outbox.len() ==> grant_told(x.outbox.last()) is None,
        m.outbox.len() <= i < x.settled(stack, clock, tape).outbox.len(),
        forall|p: PendingModel| #[trigger] waits(x, p) ==> asks(m, op, p),
    ensures
        ({
            let n = x.settled(stack, clock, tape);
            granted_in_time(m, op, n, n.outbox[i], clock.now)
        }),
{
    let n = x.settled(stack, clock, tape);
    every_grant_to_a_waiter_has_its_deadline(x, stack, clock, tape);
    acquiring::grants_are_told_afterwards(x, stack, clock, tape);
    if i < x.outbox.len() {
        assert(n.outbox.take(x.outbox.len() as int)[i] == n.outbox[i]);
    } else if let Some((uuid, id, keys)) = grant_told(n.outbox[i]) {
        let d = n.outbox[i];
        assert(told_in_time(x, n, d, clock.now));
        let p = choose|p: PendingModel| #[trigger]
            waits(x, p) && p.request_uuid == uuid && p.client == d.client && (
            acquiring::ends_in_time(p.ttl, clock.now) ==> expires(
                n,
                clock.now + p.ttl->0 * 1_000_000,
                id,
                keys,
                p.client,
            ));
        assert(asks(m, op, p));
    }
}

/// Fewer waiters, and no more deadlines, on the same keys.
proof fn lemma_fewer(m: BrokerModel, x: BrokerModel, op: Operation)
    requires
        m.locks.dom().finite(),
        numbered(m, m.work()),
        x.locks.dom() == m.locks.dom(),
        x.deadline_seq == m.deadline_seq,
        x.deadlines.dom().subset_of(m.deadlines.dom()),
        forall|k: Seq<char>| #[trigger]
            x.locks.dom().contains(k) ==> model::queue_work(x.locks[k].queue) <= model::queue_work(
                m.locks[k].queue,
            ) && forall|i: int|
                0 <= i < x.locks[k].queue.len() ==> m.locks[k].queue.contains(
                    #[trigger] x.locks[k].queue[i],
                ),
    ensures
        x.locks.dom().finite(),
        numbered(x, x.work()),
        forall|p: PendingModel| #[trigger] waits(x, p) ==> asks(m, op, p),
{
    assert forall|k: Seq<char>| #[trigger] x.locks.dom().contains(k) implies model::lock_work()(
        x.locks[k],
    ) <= model::lock_work()(m.locks[k]) by {}
    sums::lemma_sum_monotone(m.locks, x.locks, model::lock_work());
    assert forall|p: PendingModel| #[trigger] waits(x, p) implies asks(m, op, p) by {
        let (k, i) = choose|k: Seq<char>, i: int|
            x.locks.dom().contains(k) && 0 <= i < x.locks[k].queue.len() && same_request(
                (#[trigger] x.locks[k].queue[i]).1,
                p,
            );
        assert(m.locks[k].queue.contains(x.locks[k].queue[i]));
        let j = choose|j: int|
            0 <= j < m.locks[k].queue.len() && m.locks[k].queue[j] == x.locks[k].queue[i];
        assert(same_request(m.locks[k].queue[j].1, p));
    }
}

/// The same queues.
pub proof fn lemma_same_queues(m: BrokerModel, x: BrokerModel, op: Operation)
    requires
        m.locks.dom().finite(),
        numbered(m, m.work()),
        x.locks.dom() == m.locks.dom(),
        x.deadline_seq == m.deadline_seq,
        x.deadlines.dom().subset_of(m.deadlines.dom()),
        forall|k: Seq<char>| #[trigger]
            x.locks.dom().contains(k) ==> x.locks[k].queue == m.locks[k].queue,
    ensures
        x.locks.dom().finite(),
        numbered(x, x.work()),
        forall|p: PendingModel| #[trigger] waits(x, p) ==> asks(m, op, p),
{
    assert forall|k: Seq<char>| #[trigger] x.locks.dom().contains(k) implies model::queue_work(
        x.locks[k].queue,
    ) <= model::queue_work(m.locks[k].queue) && forall|i: int|
        0 <= i < x.locks[k].queue.len() ==> m.locks[k].queue.contains(
            #[trigger] x.locks[k].queue[i],
        ) by {
        assert forall|i: int| 0 <= i < x.locks[k].queue.len() implies m.locks[k].queue.contains(
            #[trigger] x.locks[k].queue[i],
        ) by {
            assert(m.locks[k].queue[i] == x.locks[k].queue[i]);
        }
    }
    lemma_fewer(m, x, op);
}

/// Expired deadlines leave queues and numbers alone.
pub proof fn lemma_met(m: BrokerModel, keys: Seq<DeadlineKey>)
    ensures
        ({
            let s = m.deadlines_met(keys).state;
            &&& s.locks.dom() == m.locks.dom()
            &&& s.deadline_seq == m.deadline_seq
            &&& s.deadlines.dom().subset_of(m.deadlines.dom())
            &&& s.outbox == m.outbox
            &&& forall|k: Seq<char>| #[trigger]
                m.locks.dom().contains(k) ==> s.locks[k].queue == m.locks[k].queue
        }),
    decreases keys.len(),
{
    if keys.len() > 0 {
        lemma_met(m, keys.drop_last());
        assert(m.deadlines_met(keys).state.locks.dom() =~= m.locks.dom());
    }
}

/// Dropping a client.
proof fn lemma_drop_in_time(m: BrokerModel, client: ClientId, clock: Clock, tape: Tape, i: int)
    requires
        m.locks.dom().finite(),
        numbered(m, m.work()),
        m.outbox.len() <= i < m.client_dropped(client, clock, tape).outbox.len(),
    ensures
        ({
            let n = m.client_dropped(client, clock, tape);
            granted_in_time(m, Operation::Drop { client, clock }, n, n.outbox[i], clock.now)
        }),
{
    let op = Operation::Drop { client, clock };
    let connected = m.clients.dom().contains(client);
    let c = m.clients[client];
    let x = if connected {
        m.handle_dropped(client)
    } else {
        m.stranger_dropped(client)
    };
    let stack = ordered_map::ascending_keys::<String>(
        if connected {
            m.keys_touched(c)
        } else {
            m.keys_of_stranger(client)
        },
    ).reverse();
    assert(x.locks.dom() =~= m.locks.dom());
    assert forall|k: Seq<char>| #[trigger] x.locks.dom().contains(k) implies model::queue_work(
        x.locks[k].queue,
    ) <= model::queue_work(m.locks[k].queue) && forall|j: int|
        0 <= j < x.locks[k].queue.len() ==> m.locks[k].queue.contains(
            #[trigger] x.locks[k].queue[j],
        ) by {
        if connected {
            rising::lemma_filtered(
                m.locks[k].queue,
                |e: (Seq<char>, PendingModel)| !c.pending_request_uuids.contains((k, e.0)),
            );
        } else {
            rising::lemma_filtered(
                m.locks[k].queue,
                |e: (Seq<char>, PendingModel)| e.1.client != client,
            );
        }
    }
    lemma_fewer(m, x, op);
    lemma_settle_in_time(m, op, x, stack, clock, tape, i);
}

/// An unlock request.
proof fn lemma_unlock_in_time(
    m: BrokerModel,
    client: ClientId,
    request: Request,
    overrides: GrantOverrides,
    clock: Clock,
    tape: Tape,
    i: int,
)
    requires
        m.locks.dom().finite(),
        numbered(m, m.work()),
        request is Unlock,
        m.outbox.len() <= i < m.handled(client, request, overrides, clock, tape).outbox.len(),
    ensures
        ({
            let n = m.handled(client, request, overrides, clock, tape);
            let op = Operation::Request { client, request, overrides, clock };
            granted_in_time(m, op, n, n.outbox[i], clock.now)
        }),
{
    if let Request::Unlock { uuid, key, keys, lock_uuid, force } = request {
        let n = m.handled(client, request, overrides, clock, tape);
        let op = Operation::Request { client, request, overrides, clock };
        let ks = holds::keys_named(key, keys);
        let target = protocol::shown_text(lock_uuid);
        if ks.len() > 0 && (target is Some || force) {
            let x = m.unlocked(client, ks, target, force);
            assert(x.locks.dom() =~= m.locks.dom());
            lemma_same_queues(m, x, op);
            let s = x.settled(ks.reverse(), clock, tape);
            assert(n.outbox =~= s.outbox.push(n.outbox.last()));
            assert(n.deadlines == s.deadlines);
            if i < s.outbox.len() {
                lemma_settle_in_time(m, op, x, ks.reverse(), clock, tape, i);
                assert(n.outbox[i] == s.outbox[i]);
                lemma_same_deadlines(m, op, s, n, n.outbox[i], clock.now);
            }
        }
    }
}

/// With the same deadlines, what was granted in time stays so.
proof fn lemma_same_deadlines(
    m: BrokerModel,
    op: Operation,
    s: BrokerModel,
    n: BrokerModel,
    d: DeliveryModel,
    now: u128,
)
    requires
        s.deadlines == n.deadlines,
        granted_in_time(m, op, s, d, now),
    ensures
        granted_in_time(m, op, n, d, now),
{
    if let Some((uuid, id, keys)) = grant_told(d) {
        let p = choose|p: PendingModel| #[trigger]
            asks(m, op, p) && p.request_uuid == uuid && p.client == d.client && (
            acquiring::ends_in_time(p.ttl, now) ==> expires(
                s,
                now + p.ttl->0 * 1_000_000,
                id,
                keys,
                p.client,
            ));
        assert(asks(m, op, p));
        if acquiring::ends_in_time(p.ttl, now) {
            lemma_expires(s, n, now + p.ttl->0 * 1_000_000, id, keys, p.client);
        }
    }
}

/// A request that ends a read or a write.
proof fn lemma_end_in_time(
    m: BrokerModel,
    client: ClientId,
    request: Request,
    overrides: GrantOverrides,
    clock: Clock,
    tape: Tape,
    i: int,
)
    requires
        m.locks.dom().finite(),
        numbered(m, m.work()),
        request is EndRead || request is EndWrite,
        m.outbox.len() <= i < m.handled(client, request, overrides, clock, tape).outbox.len(),
    ensures
        ({
            let n = m.handled(client, request, overrides, clock, tape);
            let op = Operation::Request { client, request, overrides, clock };
            granted_in_time(m, op, n, n.outbox[i], clock.now)
        }),
{
    let op = Operation::Request { client, request, overrides, clock };
    match request {
        Request::EndRead { uuid, key } => {
            if m.locks.dom().contains(key@) {
                let x = m.read_released(client, uuid@, key@);
                assert(x.locks.dom() =~= m.locks.dom());
                lemma_same_queues(m, x, op);
                lemma_settle_in_time(m, op, x, seq![key@], clock, tape, i);
            }
        },
        Request::EndWrite { uuid, key } => {
            if m.locks.dom().contains(key@) {
                let x = m.write_released(client, uuid@, key@);
                assert(x.locks.dom() =~= m.locks.dom());
                lemma_same_queues(m, x, op);
                lemma_settle_in_time(m, op, x, seq![key@], clock, tape, i);
            }
        },
        _ => {},
    }
}

/// A lock request.
proof fn lemma_lock_in_time(
    m: BrokerModel,
    client: ClientId,
    request: Request,
    overrides: GrantOverrides,
    clock: Clock,
    tape: Tape,
    i: int,
)
    requires
        m.locks.dom().finite(),
        numbered(m, m.work() + 5),
        request is Lock,
        m.outbox.len() <= i < m.handled(client, request, overrides, clock, tape).outbox.len(),
    ensures
        ({
            let n = m.handled(client, request, overrides, clock, tape);
            let op = Operation::Request { client, request, overrides, clock };
            granted_in_time(m, op, n, n.outbox[i], clock.now)
        }),
{
    if let Request::Lock { uuid, key, keys, pid, ttl, max, wait, keep_locks_after_death, .. } = request {
        let n = m.handled(client, request, overrides, clock, tape);
        let op = Operation::Request { client, request, overrides, clock };
        let p = PendingModel {
            request_uuid: uuid@,
            client,
            pid,
            ttl,
            grant_lock_uuid: None,
            grant_fencing_seed: None,
            keep_locks_after_death,
            kind: KindModel::Exclusive,
        };
        assert(asks(m, op, p));
        let e = DeadlineKey {
            at: (clock.now + ttl->0 * 1_000_000) as u128,
            seq: n.deadline_seq,
        };
        if max != Some(0u32) {
            if let (Some(k), None) = (key, keys) {
                if grant_told(n.outbox[i]) is Some && acquiring::ends_in_time(ttl, clock.now) {
                    assert(n.deadlines.dom().contains(e));
                }
            }
            if let (None, Some(ks)) = (key, keys) {
                let r = CompositeLockRequest {
                    client,
                    uuid,
                    keys: ks,
                    pid,
                    ttl,
                    wait: wait matches Some(w) ==> w,
                    grant_overrides: overrides,
                };
                lemma_composite_in_time(m, op, r, clock, tape, i);
            }
        }
    }
}

/// A composite request.
proof fn lemma_composite_in_time(
    m: BrokerModel,
    op: Operation,
    r: CompositeLockRequest,
    clock: Clock,
    tape: Tape,
    i: int,
)
    requires
        m.locks.dom().finite(),
        numbered(m, m.work() + 5),
        op matches Operation::Request { client, request, .. } && client == r.client && (
        request matches Request::Lock { uuid, ttl, .. } && uuid == r.uuid && ttl == r.ttl),
        m.outbox.len() <= i < m.composite_requested(r, clock, tape).outbox.len(),
    ensures
        ({
            let n = m.composite_requested(r, clock, tape);
            granted_in_time(m, op, n, n.outbox[i], clock.now)
        }),
{
    let n = m.composite_requested(r, clock, tape);
    let asked = ordered_map::views(r.keys@);
    let keys = ordered_map::sorted_distinct(asked);
    let given = protocol::shown_text(r.grant_overrides.lock_uuid);
    let t = m.id_taken(given);
    laws::lemma_composite_cases(m, r, clock, tape);
    ordered_map::lemma_sorted_distinct(asked);
    assert(t.all_vacant(keys) == m.all_vacant(keys));
    if asked.len() > 0 && asked.len() <= MAX_COMPOSITE_KEYS {
        if m.all_vacant(keys) {
            let held = laws::composite_granted(m, r, clock, tape);
            laws::lemma_members_frame(
                t,
                keys,
                keys.len(),
                m.grant_id(given, tape),
                r.client,
                r.pid,
                r.grant_overrides.fencing_seed,
                clock.wall_ms,
            );
            laws::lemma_marks_frame(held.state.observed(held.top), keys, keys.len(), clock.now);
            let p = PendingModel {
                request_uuid: r.uuid@,
                client: r.client,
                pid: r.pid,
                ttl: r.ttl,
                grant_lock_uuid: None,
                grant_fencing_seed: None,
                keep_locks_after_death: false,
                kind: KindModel::Exclusive,
            };
            assert(asks(m, op, p));
            if acquiring::ends_in_time(r.ttl, clock.now) {
                let e = DeadlineKey {
                    at: (clock.now + r.ttl->0 * 1_000_000) as u128,
                    seq: n.deadline_seq,
                };
                assert(n.deadlines.dom().contains(e));
            }
        } else if r.wait {
            let x = laws::composite_queued(m, r, clock, tape);
            let first = keys[0];
            let base = t.lock_or_fresh(first, clock.wall_ms);
            let joined = x.locks[first];
            assert(x.locks =~= m.locks.insert(first, joined));
            sums::lemma_sum_insert(m.locks, model::lock_work(), first, joined);
            assert(model::queue_work(Seq::<(Seq<char>, PendingModel)>::empty()) == 0);
            if joined.queue != base.queue {
                let e = joined.queue.last();
                assert(joined.queue =~= base.queue.push(e));
                model::lemma_queue_work_push(base.queue, e);
            }
            assert(x.work() <= m.work() + 5);
            assert forall|p: PendingModel| #[trigger] waits(x, p) implies asks(m, op, p) by {
                let (k, j) = choose|k: Seq<char>, j: int|
                    x.locks.dom().contains(k) && 0 <= j < x.locks[k].queue.len() && same_request(
                        (#[trigger] x.locks[k].queue[j]).1,
                        p,
                    );
                if k != first || j < base.queue.len() {
                    assert(x.locks[k].queue[j] == m.locks[k].queue[j]);
                    assert(same_request(m.locks[k].queue[j].1, p));
                }
            }
            lemma_settle_in_time(m, op, x, seq![first], clock, tape, i);
        }
    }
}

/// Whenever an operation tells a client of an exclusive or composite grant, made at
/// once or from a queue, the broker afterwards has a deadline at the end of the
/// request's time to live, counted from the operation, that names the lock id, the
/// keys and the client.
pub proof fn every_exclusive_grant_has_its_deadline(
    m: BrokerModel,
    op: Operation,
    tape: Tape,
    i: int,
)
    requires
        m.locks.dom().finite(),
        numbered(m, m.work() + 5),
        op is Request || op is Drop || op is Sweep,
        m.outbox.len() <= i < laws::after(m, op, tape).outbox.len(),
    ensures
        ({
            let n = laws::after(m, op, tape);
            granted_in_time(m, op, n, n.outbox[i], rising::clock_of(op).now)
        }),
{
    match op {
        Operation::Request { client, request, overrides, clock } => {
            if request is Lock {
                lemma_lock_in_time(m, client, request, overrides, clock, tape, i);
            } else if request is Unlock {
                lemma_unlock_in_time(m, client, request, overrides, clock, tape, i);
            } else if request is EndRead || request is EndWrite {
                lemma_end_in_time(m, client, request, overrides, clock, tape, i);
            } else {
                lemma_other_in_time(m, client, request, overrides, clock, tape, i);
            }
        },
        Operation::Drop { client, clock } => {
            lemma_drop_in_time(m, client, clock, tape, i);
        },
        Operation::Sweep { now, clock } => {
            lemma_sweep_in_time(m, now, clock, tape, i);
        },
        _ => {},
    }
}

/// A request of another kind tells of no exclusive grant.
proof fn lemma_other_in_time(
    m: BrokerModel,
    client: ClientId,
    request: Request,
    overrides: GrantOverrides,
    clock: Clock,
    tape: Tape,
    i: int,
)
    requires
        !(request is Lock),
        !(request is Unlock),
        !(request is EndRead),
        !(request is EndWrite),
        m.outbox.len() <= i < m.handled(client, request, overrides, clock, tape).outbox.len(),
    ensures
        grant_told(m.handled(client, request, overrides, clock, tape).outbox[i]) is None,
{
    let n = m.handled(client, request, overrides, clock, tape);
    match request {
        Request::RegisterRead { uuid, key } => {
            acquiring::a_read_request_is_granted_if_nobody_is_before_it(
                m,
                client,
                uuid,
                key,
                overrides,
                clock,
                tape,
            );
            assert(i == m.outbox.len());
        },
        Request::RegisterWrite { uuid, key } => {
            acquiring::a_write_request_is_granted_if_nobody_holds_the_key(
                m,
                client,
                uuid,
                key,
                overrides,
                clock,
                tape,
            );
            assert(i == m.outbox.len());
        },
        _ => {
            assert(n.outbox.drop_last() =~= m.outbox);
            assert(i == m.outbox.len());
        },
    }
}

/// A sweep.
proof fn lemma_sweep_in_time(m: BrokerModel, now: u128, clock: Clock, tape: Tape, i: int)
    requires
        m.locks.dom().finite(),
        numbered(m, m.work()),
        m.outbox.len() <= i < m.swept(now, clock, tape).outbox.len(),
    ensures
        ({
            let n = m.swept(now, clock, tape);
            granted_in_time(m, Operation::Sweep { now, clock }, n, n.outbox[i], clock.now)
        }),
{
    let op = Operation::Sweep { now, clock };
    let keys = sweep::expired_keys(m.deadlines, now);
    let met = m.deadlines_met(keys);
    lemma_met(m, keys);
    lemma_same_queues(m, met.state, op);
    let stack = ordered_map::ascending_keys::<String>(met.touched).reverse();
    let s = met.state.settled(stack, clock, tape);
    let n = m.swept(now, clock, tape);
    lemma_settle_in_time(m, op, met.state, stack, clock, tape, i);
    lemma_same_deadlines(m, op, s, n, n.outbox[i], clock.now);
}

} // verus!
