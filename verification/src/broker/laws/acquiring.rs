//! What a request that acquires leads to: when it is granted, what it then holds and
//! for how long, what its client is told, and how it waits otherwise.

use crate::broker::acquire::CompositeLockRequest;
use crate::broker::laws;
use crate::broker::model::{GrantStep, Tape};
use crate::broker::types::{
    BrokerModel, ClientId, Clock, DeadlineKey, DeadlineModel, DeliveryModel, ExclusiveHolder,
    GrantOverrides, HeldModel, KindModel, LockModel, PendingModel, RwHoldKind, RwModel,
};
use crate::ordered_map;
use crate::protocol;
use crate::protocol::{Request, ResponseModel};
use crate::queue;
use vstd::prelude::*;

verus! {

/// The highest concurrency level that a key can get.
pub open spec fn ceiling(m: BrokerModel) -> u32 {
    if m.config.max_concurrency_cap == 0 {
        1
    } else {
        m.config.max_concurrency_cap
    }
}

/// A level within its bounds.
pub open spec fn bounded_level(m: BrokerModel, level: u32) -> u32 {
    if level == 0 {
        1
    } else if level > ceiling(m) {
        ceiling(m)
    } else {
        level
    }
}

/// The client is told so, and nobody is told anything else.
pub open spec fn told(
    m: BrokerModel,
    n: BrokerModel,
    client: ClientId,
    response: ResponseModel,
) -> bool {
    n.outbox == m.outbox.push(
        DeliveryModel {
            client,
            connected: m.clients.dom().contains(client),
            observed: true,
            response,
        },
    )
}

/// The time to live, in milliseconds, ends at an instant of the clock.
pub open spec fn ends_in_time(ttl: Option<u64>, now: u128) -> bool {
    ttl matches Some(ms) && ms > 0 && now + ms * 1_000_000 <= u128::MAX
}

/// A hold that was granted at `now` ends after its time to live: that is the one
/// deadline that has come. Without a time to live none has.
pub open spec fn lives_for(
    m: BrokerModel,
    n: BrokerModel,
    ttl: Option<u64>,
    now: u128,
    lock_uuid: Seq<char>,
    keys: Seq<Seq<char>>,
    client: ClientId,
) -> bool {
    if ends_in_time(ttl, now) {
        &&& n.deadlines == m.deadlines.insert(
            DeadlineKey { at: (now + ttl->0 * 1_000_000) as u128, seq: n.deadline_seq },
            DeadlineModel { lock_uuid, keys, kind: RwHoldKind::Exclusive, client },
        )
        &&& m.deadline_seq < u64::MAX ==> n.deadline_seq == m.deadline_seq + 1
    } else {
        n.deadlines == m.deadlines && n.deadline_seq == m.deadline_seq
    }
}

/// The books of `client`, if it is connected, list one more lock, and nobody else's
/// books change.
pub open spec fn booked(
    m: BrokerModel,
    n: BrokerModel,
    client: ClientId,
    lock_uuid: Seq<char>,
    keys: Seq<Seq<char>>,
    kind: RwHoldKind,
) -> bool {
    &&& n.clients.dom() == m.clients.dom()
    &&& forall|c: ClientId| #[trigger]
        m.clients.dom().contains(c) ==> {
            &&& n.clients[c].pending_request_uuids == m.clients[c].pending_request_uuids
            &&& n.clients[c].held_lock_uuids == if c == client {
                m.clients[c].held_lock_uuids.insert(lock_uuid, HeldModel { keys, rw_kind: kind })
            } else {
                m.clients[c].held_lock_uuids
            }
        }
}

/// The books of `client`, if it is connected, list one more request that waits, and
/// nobody else's books change.
pub open spec fn awaits(
    m: BrokerModel,
    n: BrokerModel,
    client: ClientId,
    key: Seq<char>,
    uuid: Seq<char>,
) -> bool {
    &&& n.clients.dom() == m.clients.dom()
    &&& forall|c: ClientId| #[trigger]
        m.clients.dom().contains(c) ==> {
            &&& n.clients[c].held_lock_uuids == m.clients[c].held_lock_uuids
            &&& n.clients[c].pending_request_uuids == if c == client {
                m.clients[c].pending_request_uuids.push((key, uuid))
            } else {
                m.clients[c].pending_request_uuids
            }
        }
}

/// No other key changes.
pub open spec fn elsewhere_unchanged(m: BrokerModel, n: BrokerModel, key: Seq<char>) -> bool {
    &&& n.locks.dom() == m.locks.dom().insert(key)
    &&& forall|k: Seq<char>| #[trigger]
        m.locks.dom().contains(k) && k != key ==> n.locks[k] == m.locks[k]
}

/// The key as it is found: one that nobody has used has no holders and no waiters,
/// and its tokens start above the wall clock and above all that were granted.
pub open spec fn found(m: BrokerModel, key: Seq<char>, wall_ms: u64) -> LockModel {
    if m.locks.dom().contains(key) {
        m.locks[key]
    } else {
        LockModel {
            exclusive_holders: Map::empty(),
            max: bounded_level(m, m.config.max_lock_holders),
            readers: Map::empty(),
            writer: None,
            queue: Seq::empty(),
            fencing_counter: if wall_ms < m.fencing_watermark {
                m.fencing_watermark
            } else {
                wall_ms
            },
            timestamp_emptied: None,
        }
    }
}

/// The lock id that a grant gets: the one imposed, or the next random one.
pub open spec fn id_of_grant(m: BrokerModel, overrides: GrantOverrides, tape: Tape) -> Seq<char> {
    match overrides.lock_uuid {
        Some(u) => u@,
        None => tape(m.drawn),
    }
}

/// The token that a grant gets: the one imposed, or the next of the key.
pub open spec fn token_of_grant(l: LockModel, seed: Option<u64>) -> u64 {
    match seed {
        Some(t) => t,
        None => if l.fencing_counter == u64::MAX {
            1
        } else {
            (l.fencing_counter + 1) as u64
        },
    }
}

/// Nobody holds the key.
pub open spec fn held_by_nobody(l: LockModel) -> bool {
    &&& l.writer is None
    &&& forall|u: Seq<char>| !(#[trigger] l.readers.dom().contains(u))
    &&& forall|u: Seq<char>| !(#[trigger] l.exclusive_holders.dom().contains(u))
}

/// The request waits among the others on the key: at the head if it goes first, else
/// at the end, unless one of that id waits already.
pub open spec fn joins(
    before: Seq<(Seq<char>, PendingModel)>,
    after: Seq<(Seq<char>, PendingModel)>,
    p: PendingModel,
    first: bool,
) -> bool {
    if exists|i: int| 0 <= i < before.len() && (#[trigger] before[i]).0 == p.request_uuid {
        after == before
    } else if first {
        after == seq![(p.request_uuid, p)] + before
    } else {
        after == before.push((p.request_uuid, p))
    }
}

/// A single-key lock request with a level within bounds sets the level of its key to
/// exactly that. One above the ceiling gets the ceiling, and is counted. Without a
/// level the key keeps the one it has, or gets the default.
pub proof fn a_lock_request_sets_the_level(
    m: BrokerModel,
    client: ClientId,
    request: Request,
    overrides: GrantOverrides,
    clock: Clock,
    tape: Tape,
)
    requires
        request matches Request::Lock { key: Some(_), keys: None, max, .. } && max != Some(0u32),
    ensures
        ({
            let n = m.handled(client, request, overrides, clock, tape);
            let key = request->Lock_key->0@;
            let level = n.locks[key].max;
            &&& elsewhere_unchanged(m, n, key)
            &&& request->max matches Some(x) ==> {
                &&& x <= ceiling(m) ==> level == x
                &&& x > ceiling(m) ==> level == ceiling(m)
            }
            &&& request->max is None ==> level == bounded_level(
                m,
                if m.locks.dom().contains(key) {
                    m.locks[key].max
                } else {
                    m.config.max_lock_holders
                },
            )
            &&& n.concurrency_cap_clamps_total == if request->max is Some && request->max->0
                > ceiling(m) {
                if m.concurrency_cap_clamps_total == u64::MAX {
                    0
                } else {
                    (m.concurrency_cap_clamps_total + 1) as u64
                }
            } else {
                m.concurrency_cap_clamps_total
            }
        }),
{
    let n = m.handled(client, request, overrides, clock, tape);
    assert(n.locks.dom() =~= m.locks.dom().insert(request->Lock_key->0@));
}

/// A single-key lock request is granted exactly if nobody reads or writes the key and
/// fewer hold it than its level allows. It then holds the key under the lock id and
/// with the token that its client is told, for as long as it asked, and the key has
/// no more holders than its level, nor than the request asked for.
pub proof fn a_lock_request_is_granted_if_there_is_room(
    m: BrokerModel,
    client: ClientId,
    request: Request,
    overrides: GrantOverrides,
    clock: Clock,
    tape: Tape,
)
    requires
        request matches Request::Lock { key: Some(k), keys: None, max, .. } && max != Some(0u32) && (
        m.locks.dom().contains(k@) ==> m.locks[k@].exclusive_holders.dom().finite()),
    ensures
        ({
            let n = m.handled(client, request, overrides, clock, tape);
            let key = request->Lock_key->0@;
            let was = found(m, key, clock.wall_ms);
            let now = n.locks[key];
            let room = was.writer is None && was.readers.dom() == Set::<Seq<char>>::empty()
                && was.exclusive_holders.len() < now.max;
            let id = id_of_grant(m, overrides, tape);
            let token = token_of_grant(was, overrides.fencing_seed);
            &&& n.outbox.len() == m.outbox.len() + 1
            &&& n.outbox.last().response is Lock
            &&& n.outbox.last().response->Lock_acquired <==> room
            &&& now.readers == was.readers
            &&& now.writer == was.writer
            &&& room ==> {
                &&& now.exclusive_holders == was.exclusive_holders.insert(
                    id,
                    ExclusiveHolder {
                        client,
                        pid: request->pid,
                        fencing_token: token,
                        keep_locks_after_death: request->keep_locks_after_death,
                        composite_member: false,
                    },
                )
                &&& now.exclusive_holders.len() <= now.max
                &&& request->max is Some ==> now.exclusive_holders.len() <= request->max->0
                &&& now.queue == was.queue
                &&& now.timestamp_emptied is None
                &&& now.fencing_counter == if overrides.fencing_seed is Some && token
                    < was.fencing_counter {
                    was.fencing_counter
                } else {
                    token
                }
                &&& n.drawn == if overrides.lock_uuid is None {
                    m.drawn + 1
                } else {
                    m.drawn
                }
                &&& n.fencing_watermark == if m.fencing_watermark < token {
                    token
                } else {
                    m.fencing_watermark
                }
                &&& lives_for(m, n, request->Lock_ttl, clock.now, id, seq![key], client)
                &&& booked(m, n, client, id, seq![key], RwHoldKind::Exclusive)
                &&& told(
                    m,
                    n,
                    client,
                    ResponseModel::Lock {
                        uuid: request->Lock_uuid@,
                        key,
                        acquired: true,
                        lock_request_count: was.queue.len() as usize,
                        lock_uuid: Some(id),
                        fencing_token: Some(token),
                        readers_count: Some(0),
                        error: None,
                    },
                )
            }
        }),
{
    let n = m.handled(client, request, overrides, clock, tape);
    let key = request->Lock_key->0@;
    let was = found(m, key, clock.wall_ms);
    let id = id_of_grant(m, overrides, tape);
    assert(was.readers.is_empty() <==> was.readers.dom() == Set::<Seq<char>>::empty());
    assert(n.clients.dom() =~= m.clients.dom());
    assert(n.locks[key].exclusive_holders.dom() =~= was.exclusive_holders.dom() || n.locks[key].exclusive_holders.dom()
        =~= was.exclusive_holders.dom().insert(id));
}

/// A single-key lock request without room waits, unless it asked not to: as what it
/// is, at the head of the queue if it is forced and else at its end. It takes
/// nothing, and its client is told how many wait.
pub proof fn a_lock_request_without_room_waits(
    m: BrokerModel,
    client: ClientId,
    request: Request,
    overrides: GrantOverrides,
    clock: Clock,
    tape: Tape,
)
    requires
        request matches Request::Lock { key: Some(_), keys: None, max, .. } && max != Some(0u32),
        m.handled(client, request, overrides, clock, tape).outbox.last().response matches
            ResponseModel::Lock { acquired: false, .. },
    ensures
        ({
            let n = m.handled(client, request, overrides, clock, tape);
            let key = request->Lock_key->0@;
            let was = found(m, key, clock.wall_ms);
            let now = n.locks[key];
            &&& now.exclusive_holders == was.exclusive_holders
            &&& now.readers == was.readers
            &&& now.writer == was.writer
            &&& now.fencing_counter == was.fencing_counter
            &&& n.deadlines == m.deadlines
            &&& n.drawn == m.drawn
            &&& n.fencing_watermark == m.fencing_watermark
            &&& request->wait == Some(false) ==> now.queue == was.queue && n.clients == m.clients
            &&& request->wait != Some(false) ==> {
                &&& joins(
                    was.queue,
                    now.queue,
                    PendingModel {
                        request_uuid: request->Lock_uuid@,
                        client,
                        pid: request->pid,
                        ttl: request->Lock_ttl,
                        grant_lock_uuid: match overrides.lock_uuid {
                            Some(u) => Some(u@),
                            None => None,
                        },
                        grant_fencing_seed: overrides.fencing_seed,
                        keep_locks_after_death: request->keep_locks_after_death,
                        kind: KindModel::Exclusive,
                    },
                    request->Lock_force,
                )
                &&& now.timestamp_emptied is None
                &&& awaits(m, n, client, key, request->Lock_uuid@)
            }
            &&& told(
                m,
                n,
                client,
                ResponseModel::Lock {
                    uuid: request->Lock_uuid@,
                    key,
                    acquired: false,
                    lock_request_count: now.queue.len() as usize,
                    lock_uuid: None,
                    fencing_token: None,
                    readers_count: Some(0),
                    error: None,
                },
            )
        }),
{
    let n = m.handled(client, request, overrides, clock, tape);
    assert(n.clients.dom() =~= m.clients.dom());
}

/// A read request is granted exactly if nobody writes the key, holds it exclusively
/// or waits for it. It then reads beside the others, under the lock id and with the
/// token that its client is told. Otherwise it waits at the end of the queue.
pub proof fn a_read_request_is_granted_if_nobody_is_before_it(
    m: BrokerModel,
    client: ClientId,
    uuid: String,
    key: String,
    overrides: GrantOverrides,
    clock: Clock,
    tape: Tape,
)
    ensures
        ({
            let n = m.handled(client, Request::RegisterRead { uuid, key }, overrides, clock, tape);
            let was = found(m, key@, clock.wall_ms);
            let now = n.locks[key@];
            let room = was.writer is None && was.exclusive_holders.dom() == Set::<Seq<char>>::empty()
                && was.queue.len() == 0;
            let id = id_of_grant(m, overrides, tape);
            let token = token_of_grant(was, overrides.fencing_seed);
            &&& elsewhere_unchanged(m, n, key@)
            &&& now.exclusive_holders == was.exclusive_holders
            &&& now.writer == was.writer
            &&& now.max == was.max
            &&& n.deadlines == m.deadlines
            &&& now.timestamp_emptied is None
            &&& room ==> {
                &&& now.readers == was.readers.insert(
                    id,
                    RwModel { client, fencing_token: token, lock_uuid: id },
                )
                &&& now.queue == was.queue
                &&& booked(m, n, client, id, seq![key@], RwHoldKind::Read)
                &&& told(
                    m,
                    n,
                    client,
                    ResponseModel::RegisterReadResult {
                        uuid: uuid@,
                        key: key@,
                        readers_count: now.readers.len() as u32,
                        writer_flag: false,
                        granted: true,
                        lock_uuid: Some(id),
                        fencing_token: Some(token),
                    },
                )
            }
            &&& !room ==> {
                &&& now.readers == was.readers
                &&& joins(
                    was.queue,
                    now.queue,
                    PendingModel {
                        request_uuid: uuid@,
                        client,
                        pid: None,
                        ttl: None,
                        grant_lock_uuid: match overrides.lock_uuid {
                            Some(u) => Some(u@),
                            None => None,
                        },
                        grant_fencing_seed: overrides.fencing_seed,
                        keep_locks_after_death: false,
                        kind: KindModel::Reader,
                    },
                    false,
                )
                &&& awaits(m, n, client, key@, uuid@)
                &&& told(
                    m,
                    n,
                    client,
                    ResponseModel::RegisterReadResult {
                        uuid: uuid@,
                        key: key@,
                        readers_count: was.readers.len() as u32,
                        writer_flag: was.writer is Some,
                        granted: false,
                        lock_uuid: None,
                        fencing_token: None,
                    },
                )
            }
        }),
{
    let n = m.handled(client, Request::RegisterRead { uuid, key }, overrides, clock, tape);
    let was = found(m, key@, clock.wall_ms);
    let id = id_of_grant(m, overrides, tape);
    assert(was.exclusive_holders.is_empty() <==> was.exclusive_holders.dom()
        == Set::<Seq<char>>::empty());
    assert(n.clients.dom() =~= m.clients.dom());
    assert(n.locks.dom() =~= m.locks.dom().insert(key@));
    assert(n.locks[key@].readers.dom().contains(id) || n.locks[key@].queue.len() > 0);
}

/// A write request is granted exactly if nobody holds the key. It then writes under
/// the lock id and with the token that its client is told. Otherwise it waits at the
/// end of the queue.
pub proof fn a_write_request_is_granted_if_nobody_holds_the_key(
    m: BrokerModel,
    client: ClientId,
    uuid: String,
    key: String,
    overrides: GrantOverrides,
    clock: Clock,
    tape: Tape,
)
    ensures
        ({
            let n = m.handled(client, Request::RegisterWrite { uuid, key }, overrides, clock, tape);
            let was = found(m, key@, clock.wall_ms);
            let now = n.locks[key@];
            let id = id_of_grant(m, overrides, tape);
            let token = token_of_grant(was, overrides.fencing_seed);
            &&& elsewhere_unchanged(m, n, key@)
            &&& now.exclusive_holders == was.exclusive_holders
            &&& now.readers == was.readers
            &&& now.max == was.max
            &&& n.deadlines == m.deadlines
            &&& now.timestamp_emptied is None
            &&& held_by_nobody(was) ==> {
                &&& now.writer == Some(RwModel { client, fencing_token: token, lock_uuid: id })
                &&& now.queue == was.queue
                &&& booked(m, n, client, id, seq![key@], RwHoldKind::Write)
                &&& told(
                    m,
                    n,
                    client,
                    ResponseModel::RegisterWriteResult {
                        uuid: uuid@,
                        key: key@,
                        readers_count: 0,
                        writer_flag: true,
                        granted: true,
                        lock_uuid: Some(id),
                        fencing_token: Some(token),
                    },
                )
            }
            &&& !held_by_nobody(was) ==> {
                &&& now.writer == was.writer
                &&& joins(
                    was.queue,
                    now.queue,
                    PendingModel {
                        request_uuid: uuid@,
                        client,
                        pid: None,
                        ttl: None,
                        grant_lock_uuid: match overrides.lock_uuid {
                            Some(u) => Some(u@),
                            None => None,
                        },
                        grant_fencing_seed: overrides.fencing_seed,
                        keep_locks_after_death: false,
                        kind: KindModel::Writer,
                    },
                    false,
                )
                &&& awaits(m, n, client, key@, uuid@)
                &&& told(
                    m,
                    n,
                    client,
                    ResponseModel::RegisterWriteResult {
                        uuid: uuid@,
                        key: key@,
                        readers_count: was.readers.len() as u32,
                        writer_flag: was.writer is Some,
                        granted: false,
                        lock_uuid: None,
                        fencing_token: None,
                    },
                )
            }
        }),
{
    let n = m.handled(client, Request::RegisterWrite { uuid, key }, overrides, clock, tape);
    lemma_vacant(found(m, key@, clock.wall_ms));
    assert(n.clients.dom() =~= m.clients.dom());
    assert(n.locks.dom() =~= m.locks.dom().insert(key@));
}

/// A key without holders is one that nobody holds.
pub proof fn lemma_vacant(l: LockModel)
    ensures
        l.vacant() <==> held_by_nobody(l),
{
    if held_by_nobody(l) {
        assert(l.readers.dom() =~= Set::<Seq<char>>::empty());
        assert(l.exclusive_holders.dom() =~= Set::<Seq<char>>::empty());
        assert(l.readers =~= Map::<Seq<char>, RwModel>::empty());
        assert(l.exclusive_holders =~= Map::<Seq<char>, ExclusiveHolder>::empty());
    }
}

/// Whatever is granted to waiters, what was told before stays, and what comes after
/// it tells of grants.
pub proof fn grants_are_told_afterwards(
    m: BrokerModel,
    stack: Seq<Seq<char>>,
    clock: Clock,
    tape: Tape,
)
    requires
        m.locks.dom().finite(),
    ensures
        ({
            let n = m.settled(stack, clock, tape);
            &&& m.outbox.len() <= n.outbox.len()
            &&& n.outbox.take(m.outbox.len() as int) == m.outbox
            &&& forall|i: int|
                m.outbox.len() <= i < n.outbox.len() ==> match (#[trigger] n.outbox[i]).response {
                    ResponseModel::Lock { acquired, .. } => acquired,
                    ResponseModel::CompositeLock { acquired, .. } => acquired,
                    ResponseModel::RegisterReadResult { granted, .. } => granted,
                    ResponseModel::RegisterWriteResult { granted, .. } => granted,
                    _ => false,
                }
        }),
{
    let good = |d: DeliveryModel|
        match d.response {
            ResponseModel::Lock { acquired, .. } => acquired,
            ResponseModel::CompositeLock { acquired, .. } => acquired,
            ResponseModel::RegisterReadResult { granted, .. } => granted,
            ResponseModel::RegisterWriteResult { granted, .. } => granted,
            _ => false,
        };
    let inv = |a: BrokerModel|
        {
            &&& m.outbox.len() <= a.outbox.len()
            &&& a.outbox.take(m.outbox.len() as int) == m.outbox
            &&& forall|i: int|
                m.outbox.len() <= i < a.outbox.len() ==> good(#[trigger] a.outbox[i])
        };
    assert forall|a: BrokerModel, k: Seq<char>|
        a.locks.dom().finite() && #[trigger] inv(a) implies match #[trigger] a.grant_step(
        k,
        clock,
        tape,
    ) {
        GrantStep::Blocked => true,
        GrantStep::Granted(n) => inv(n),
        GrantStep::Moved(n, _) => inv(n),
    } by {
        match a.grant_step(k, clock, tape) {
            GrantStep::Blocked => {},
            GrantStep::Granted(n) => {
                let d = n.outbox.last();
                assert(n.outbox =~= a.outbox.push(d));
                assert(good(d));
                assert(n.outbox.take(m.outbox.len() as int) =~= a.outbox.take(
                    m.outbox.len() as int,
                ));
            },
            GrantStep::Moved(n, _) => {
                assert(n.outbox == a.outbox);
            },
        }
    }
    assert(inv(m)) by {
        assert(m.outbox.take(m.outbox.len() as int) =~= m.outbox);
    }
    laws::lemma_settled(m, stack, clock, tape, inv);
    let n = m.settled(stack, clock, tape);
    assert forall|i: int| m.outbox.len() <= i < n.outbox.len() implies match (
    #[trigger] n.outbox[i]).response {
        ResponseModel::Lock { acquired, .. } => acquired,
        ResponseModel::CompositeLock { acquired, .. } => acquired,
        ResponseModel::RegisterReadResult { granted, .. } => granted,
        ResponseModel::RegisterWriteResult { granted, .. } => granted,
        _ => false,
    } by {
        assert(good(n.outbox[i]));
    }
}

/// The token of a member of a composite lock: the one imposed on the first member
/// and as many more, up to the largest; or the next of its key.
pub open spec fn token_of_member(l: LockModel, seed: Option<u64>, i: int) -> u64 {
    token_of_grant(
        l,
        match seed {
            Some(t) => Some(
                if t + i > u64::MAX {
                    u64::MAX
                } else {
                    (t + i) as u64
                },
            ),
            None => None,
        },
    )
}

/// What is taken of each member of a composite lock.
#[verifier::spinoff_prover]
proof fn lemma_members(
    m: BrokerModel,
    keys: Seq<Seq<char>>,
    n: nat,
    id: Seq<char>,
    client: ClientId,
    pid: Option<i64>,
    seed: Option<u64>,
    wall_ms: u64,
)
    requires
        keys.no_duplicates(),
        n <= keys.len(),
    ensures
        ({
            let held = m.members_held(keys, n, id, client, pid, seed, wall_ms);
            &&& held.state.clients == m.clients
            &&& held.state.deadlines == m.deadlines
            &&& held.state.deadline_seq == m.deadline_seq
            &&& held.state.outbox == m.outbox
            &&& held.state.config == m.config
            &&& held.state.fencing_watermark == m.fencing_watermark
            &&& held.tokens.dom() == keys.take(n as int).to_set()
            &&& forall|i: int|
                0 <= i < n ==> {
                    let was = found(m, #[trigger] keys[i], wall_ms);
                    let now = held.state.locks[keys[i]];
                    let token = token_of_member(was, seed, i);
                    &&& held.state.locks.dom().contains(keys[i])
                    &&& held.tokens[keys[i]] == token
                    &&& token <= held.top
                    &&& now.readers == was.readers
                    &&& now.writer == was.writer
                    &&& now.queue == was.queue
                    &&& now.max == was.max
                    &&& now.exclusive_holders == was.exclusive_holders.insert(
                        id,
                        ExclusiveHolder {
                            client,
                            pid,
                            fencing_token: token,
                            keep_locks_after_death: false,
                            composite_member: true,
                        },
                    )
                }
            &&& forall|k: Seq<char>|
                !keys.take(n as int).contains(k) ==> (#[trigger] held.state.locks.dom().contains(k)
                    <==> m.locks.dom().contains(k)) && (m.locks.dom().contains(k)
                    ==> held.state.locks[k] == m.locks[k])
        }),
    decreases n,
{
    if n == 0 {
        assert(keys.take(0).to_set() =~= Set::empty());
        assert(m.members_held(keys, n, id, client, pid, seed, wall_ms).tokens.dom()
            =~= keys.take(0).to_set());
    } else {
        lemma_members(m, keys, (n - 1) as nat, id, client, pid, seed, wall_ms);
        let before = m.members_held(keys, (n - 1) as nat, id, client, pid, seed, wall_ms);
        let held = m.members_held(keys, n, id, client, pid, seed, wall_ms);
        let key = keys[n - 1];
        assert(keys.take(n as int) =~= keys.take(n - 1).push(key));
        keys.take(n - 1).lemma_push_to_set_commute(key);
        assert(held.tokens.dom() =~= keys.take(n as int).to_set());
        assert(!keys.take(n - 1).contains(key));
        assert(before.state.locks.dom().contains(key) <==> m.locks.dom().contains(key));
        assert(before.state.lock_or_fresh(key, wall_ms) == found(m, key, wall_ms));
        assert forall|k: Seq<char>| !keys.take(n as int).contains(k) implies (
        #[trigger] held.state.locks.dom().contains(k) <==> m.locks.dom().contains(k)) && (
        m.locks.dom().contains(k) ==> held.state.locks[k] == m.locks[k]) by {
            queue::lemma_contains_push(keys.take(n - 1), key, k);
            assert(before.state.locks.dom().contains(k) <==> m.locks.dom().contains(k));
        }
    }
}

/// A composite request is granted exactly if nobody holds any of its keys. It then
/// holds all of them under one lock id, each with the token that its client is told,
/// for as long as it asked; other keys stay as they are.
pub proof fn a_composite_request_is_granted_if_its_keys_are_free(
    m: BrokerModel,
    client: ClientId,
    request: Request,
    overrides: GrantOverrides,
    clock: Clock,
    tape: Tape,
)
    requires
        m.locks.dom().finite(),
        request matches Request::Lock { key: None, keys: Some(ks), max, .. } && max != Some(0u32)
            && 1 <= ks@.len() <= 5 && forall|i: int|
            0 <= i < ks@.len() && m.locks.dom().contains(#[trigger] ks@[i]@) ==> held_by_nobody(
                m.locks[ks@[i]@],
            ),
    ensures
        ({
            let n = m.handled(client, request, overrides, clock, tape);
            let asked = ordered_map::views(request->Lock_keys->0@);
            let id = id_of_grant(m, overrides, tape);
            &&& n.outbox.last().response is CompositeLock
            &&& {
                let keys = n.outbox.last().response->CompositeLock_keys;
                let tokens = n.outbox.last().response->fencing_tokens->0;
                &&& told(
                    m,
                    n,
                    client,
                    ResponseModel::CompositeLock {
                        uuid: request->Lock_uuid@,
                        keys,
                        acquired: true,
                        lock_uuid: Some(id),
                        fencing_tokens: Some(tokens),
                        error: None,
                    },
                )
                &&& ordered_map::ascending::<String>(keys)
                &&& keys.to_set() == asked.to_set()
                &&& tokens.dom() == asked.to_set()
                &&& lives_for(m, n, request->Lock_ttl, clock.now, id, keys, client)
                &&& booked(m, n, client, id, keys, RwHoldKind::Exclusive)
                &&& forall|i: int|
                    0 <= i < keys.len() ==> {
                        let was = found(m, #[trigger] keys[i], clock.wall_ms);
                        let now = n.locks[keys[i]];
                        let token = token_of_member(was, overrides.fencing_seed, i);
                        &&& n.locks.dom().contains(keys[i])
                        &&& tokens[keys[i]] == token
                        &&& token <= n.fencing_watermark
                        &&& now.exclusive_holders == Map::<Seq<char>, ExclusiveHolder>::empty().insert(
                            id,
                            ExclusiveHolder {
                                client,
                                pid: request->pid,
                                fencing_token: token,
                                keep_locks_after_death: false,
                                composite_member: true,
                            },
                        )
                        &&& now.readers == was.readers
                        &&& now.writer is None
                        &&& now.queue == was.queue
                        &&& now.max == was.max
                    }
            }
            &&& forall|k: Seq<char>|
                !asked.contains(k) ==> (#[trigger] n.locks.dom().contains(k)
                    <==> m.locks.dom().contains(k)) && (m.locks.dom().contains(k) ==> n.locks[k]
                    == LockModel {
                    timestamp_emptied: n.locks[k].timestamp_emptied,
                    ..m.locks[k]
                })
        }),
{
    let n = m.handled(client, request, overrides, clock, tape);
    let ks = request->Lock_keys->0;
    let asked = ordered_map::views(ks@);
    let keys = ordered_map::sorted_distinct(asked);
    let given = protocol::shown_text(overrides.lock_uuid);
    let id = m.grant_id(given, tape);
    let t = m.id_taken(given);
    let seed = overrides.fencing_seed;
    let held = t.members_held(keys, keys.len(), id, client, request->pid, seed, clock.wall_ms);
    let s = held.state.observed(held.top);
    ordered_map::lemma_sorted_distinct(asked);
    assert(t.all_vacant(keys)) by {
        assert forall|i: int|
            0 <= i < keys.len() && t.locks.dom().contains(#[trigger] keys[i]) implies t.locks[keys[i]].vacant() by {
            assert(keys.to_set().contains(keys[i]));
            assert(asked.to_set().contains(keys[i]));
            let j = choose|j: int| 0 <= j < asked.len() && asked[j] == keys[i];
            assert(ks@[j]@ == keys[i]);
            lemma_vacant(m.locks[keys[i]]);
        }
    }
    lemma_members(t, keys, keys.len(), id, client, request->pid, seed, clock.wall_ms);
    laws::lemma_marks_frame(s, keys, keys.len(), clock.now);
    assert(keys.take(keys.len() as int) =~= keys);
    assert(n.clients.dom() =~= m.clients.dom());
    assert(n.locks == s.all_idle_marked(keys, keys.len(), clock.now).locks);
    assert forall|i: int| 0 <= i < keys.len() implies found(t, #[trigger] keys[i], clock.wall_ms)
        == found(m, keys[i], clock.wall_ms) && held_by_nobody(
        found(m, keys[i], clock.wall_ms),
    ) && found(m, keys[i], clock.wall_ms).exclusive_holders == Map::<
        Seq<char>,
        ExclusiveHolder,
    >::empty() by {
        lemma_vacant(found(m, keys[i], clock.wall_ms));
        if t.locks.dom().contains(keys[i]) {
            assert(t.locks[keys[i]].vacant());
        }
        assert(found(m, keys[i], clock.wall_ms).exclusive_holders =~= Map::<
            Seq<char>,
            ExclusiveHolder,
        >::empty());
    }
    assert forall|i: int| 0 <= i < keys.len() implies n.locks.dom().contains(#[trigger] keys[i])
        && n.locks[keys[i]] == (LockModel {
        timestamp_emptied: n.locks[keys[i]].timestamp_emptied,
        ..held.state.locks[keys[i]]
    }) by {
        assert(s.locks.dom().contains(keys[i]));
    }
    assert forall|k: Seq<char>| !asked.contains(k) implies (#[trigger] n.locks.dom().contains(k)
        <==> m.locks.dom().contains(k)) && (m.locks.dom().contains(k) ==> n.locks[k] == LockModel {
        timestamp_emptied: n.locks[k].timestamp_emptied,
        ..m.locks[k]
    }) by {
        if keys.contains(k) {
            assert(keys.to_set().contains(k));
            assert(asked.to_set().contains(k));
        }
        assert(held.state.locks.dom().contains(k) <==> m.locks.dom().contains(k));
        if m.locks.dom().contains(k) {
            assert(s.locks.dom().contains(k));
        }
    }
    let s2 = s.all_idle_marked(keys, keys.len(), clock.now);
    let answer = ResponseModel::CompositeLock {
        uuid: request->Lock_uuid@,
        keys,
        acquired: true,
        lock_uuid: Some(id),
        fencing_tokens: Some(held.tokens),
        error: None,
    };
    assert(s2.clients == m.clients && s2.deadlines == m.deadlines && s2.deadline_seq
        == m.deadline_seq && s2.outbox == m.outbox);
    assert(told(m, n, client, answer));
    assert(n.outbox.last().response == answer);
    assert(lives_for(m, n, request->Lock_ttl, clock.now, id, keys, client));
    assert(booked(m, n, client, id, keys, RwHoldKind::Exclusive));
    assert(held.tokens.dom() == asked.to_set());
    assert forall|i: int| 0 <= i < keys.len() implies {
        let was = found(m, #[trigger] keys[i], clock.wall_ms);
        let now = n.locks[keys[i]];
        let token = token_of_member(was, overrides.fencing_seed, i);
        &&& n.locks.dom().contains(keys[i])
        &&& held.tokens[keys[i]] == token
        &&& token <= n.fencing_watermark
        &&& now.exclusive_holders == Map::<Seq<char>, ExclusiveHolder>::empty().insert(
            id,
            ExclusiveHolder {
                client,
                pid: request->pid,
                fencing_token: token,
                keep_locks_after_death: false,
                composite_member: true,
            },
        )
        &&& now.readers == was.readers
        &&& now.writer is None
        &&& now.queue == was.queue
        &&& now.max == was.max
    } by {
        assert(found(t, keys[i], clock.wall_ms) == found(m, keys[i], clock.wall_ms));
    }
}

/// A composite request one of whose keys is held is granted nothing at once: it waits
/// under the lock id that its client is told, or, if it asked not to wait, takes
/// nothing.
pub proof fn a_composite_request_waits_for_held_keys(
    m: BrokerModel,
    client: ClientId,
    request: Request,
    overrides: GrantOverrides,
    clock: Clock,
    tape: Tape,
)
    requires
        m.locks.dom().finite(),
        request matches Request::Lock { key: None, keys: Some(ks), max, .. } && max != Some(0u32)
            && 1 <= ks@.len() <= 5 && exists|i: int|
            0 <= i < ks@.len() && m.locks.dom().contains(#[trigger] ks@[i]@) && !held_by_nobody(
                m.locks[ks@[i]@],
            ),
    ensures
        ({
            let n = m.handled(client, request, overrides, clock, tape);
            let asked = ordered_map::views(request->Lock_keys->0@);
            let d = n.outbox[m.outbox.len() as int];
            let waits = request->wait != Some(false);
            &&& n.outbox.take(m.outbox.len() as int) == m.outbox
            &&& n.outbox.len() > m.outbox.len()
            &&& d.client == client
            &&& d.response is CompositeLock
            &&& d.response->CompositeLock_keys.to_set() == asked.to_set()
            &&& ordered_map::ascending::<String>(d.response->CompositeLock_keys)
            &&& d.response == ResponseModel::CompositeLock {
                uuid: request->Lock_uuid@,
                keys: d.response->CompositeLock_keys,
                acquired: false,
                lock_uuid: if waits {
                    Some(id_of_grant(m, overrides, tape))
                } else {
                    None
                },
                fencing_tokens: None,
                error: None,
            }
            &&& !waits ==> n.locks == m.locks && n.clients == m.clients && n.deadlines
                == m.deadlines && n.outbox.len() == m.outbox.len() + 1
        }),
{
    let n = m.handled(client, request, overrides, clock, tape);
    let ks = request->Lock_keys->0;
    let asked = ordered_map::views(ks@);
    let keys = ordered_map::sorted_distinct(asked);
    let given = protocol::shown_text(overrides.lock_uuid);
    let t = m.id_taken(given);
    ordered_map::lemma_sorted_distinct(asked);
    assert(!t.all_vacant(keys)) by {
        let i = choose|i: int|
            0 <= i < ks@.len() && m.locks.dom().contains(#[trigger] ks@[i]@) && !held_by_nobody(
                m.locks[ks@[i]@],
            );
        assert(asked[i] == ks@[i]@);
        assert(asked.to_set().contains(asked[i]));
        assert(keys.to_set().contains(asked[i]));
        let j = choose|j: int| 0 <= j < keys.len() && keys[j] == asked[i];
        lemma_vacant(m.locks[keys[j]]);
        assert(t.locks.dom().contains(keys[j]));
    }
    if request->wait != Some(false) {
        let r = CompositeLockRequest {
            client,
            uuid: request->Lock_uuid,
            keys: ks,
            pid: request->pid,
            ttl: request->Lock_ttl,
            wait: true,
            grant_overrides: overrides,
        };
        let queued = laws::composite_queued(m, r, clock, tape);
        assert(n == queued.settled(seq![keys[0]], clock, tape));
        grants_are_told_afterwards(queued, seq![keys[0]], clock, tape);
        assert(n.outbox.take(queued.outbox.len() as int) == queued.outbox);
        assert(queued.outbox[m.outbox.len() as int] == n.outbox[m.outbox.len() as int]);
        assert(n.outbox.take(m.outbox.len() as int) =~= queued.outbox.take(m.outbox.len() as int));
        assert(queued.outbox.take(m.outbox.len() as int) =~= m.outbox);
    } else {
        assert(n.outbox.take(m.outbox.len() as int) =~= m.outbox);
    }
}

/// A composite request that waits joins the end of the queue of its first key, as what
/// it is and with all its keys still to come; then whoever can be served on that key is
/// served.
pub proof fn a_composite_request_waits_for_its_first_key(
    m: BrokerModel,
    client: ClientId,
    request: Request,
    overrides: GrantOverrides,
    clock: Clock,
    tape: Tape,
)
    requires
        m.locks.dom().finite(),
        request matches Request::Lock { key: None, keys: Some(ks), max, wait, .. } && max != Some(
            0u32,
        ) && wait != Some(false) && 1 <= ks@.len() <= 5 && exists|i: int|
            0 <= i < ks@.len() && m.locks.dom().contains(#[trigger] ks@[i]@) && !held_by_nobody(
                m.locks[ks@[i]@],
            ),
    ensures
        ({
            let n = m.handled(client, request, overrides, clock, tape);
            let keys = n.outbox[m.outbox.len() as int].response->CompositeLock_keys;
            let first = keys[0];
            exists|q: BrokerModel|
                #![trigger q.settled(seq![first], clock, tape)]
                {
                    &&& n == q.settled(seq![first], clock, tape)
                    &&& elsewhere_unchanged(m, q, first)
                    &&& q.deadlines == m.deadlines
                    &&& awaits(m, q, client, first, request->Lock_uuid@)
                    &&& q.locks[first].exclusive_holders == found(
                        m,
                        first,
                        clock.wall_ms,
                    ).exclusive_holders
                    &&& q.locks[first].readers == found(m, first, clock.wall_ms).readers
                    &&& q.locks[first].writer == found(m, first, clock.wall_ms).writer
                    &&& q.locks[first].max == found(m, first, clock.wall_ms).max
                    &&& joins(
                        found(m, first, clock.wall_ms).queue,
                        q.locks[first].queue,
                        PendingModel {
                            request_uuid: request->Lock_uuid@,
                            client,
                            pid: request->pid,
                            ttl: request->Lock_ttl,
                            grant_lock_uuid: None,
                            grant_fencing_seed: overrides.fencing_seed,
                            keep_locks_after_death: false,
                            kind: KindModel::Composite {
                                all_keys: keys,
                                remaining_keys: keys,
                                granted_keys: Seq::empty(),
                                granted_tokens: Map::empty(),
                                composite_lock_uuid: id_of_grant(m, overrides, tape),
                            },
                        },
                        false,
                    )
                }
        }),
{
    a_composite_request_waits_for_held_keys(m, client, request, overrides, clock, tape);
    let n = m.handled(client, request, overrides, clock, tape);
    let ks = request->Lock_keys->0;
    let asked = ordered_map::views(ks@);
    let keys = ordered_map::sorted_distinct(asked);
    ordered_map::lemma_sorted_distinct(asked);
    let r = CompositeLockRequest {
        client,
        uuid: request->Lock_uuid,
        keys: ks,
        pid: request->pid,
        ttl: request->Lock_ttl,
        wait: true,
        grant_overrides: overrides,
    };
    let told_keys = n.outbox[m.outbox.len() as int].response->CompositeLock_keys;
    ordered_map::lemma_ascending_unique::<String>(told_keys, keys);
    let q = laws::composite_queued(m, r, clock, tape);
    let given = protocol::shown_text(overrides.lock_uuid);
    let t = m.id_taken(given);
    assert(!t.all_vacant(keys)) by {
        let i = choose|i: int|
            0 <= i < ks@.len() && m.locks.dom().contains(#[trigger] ks@[i]@) && !held_by_nobody(
                m.locks[ks@[i]@],
            );
        assert(asked[i] == ks@[i]@);
        assert(asked.to_set().contains(asked[i]));
        assert(keys.to_set().contains(asked[i]));
        let j = choose|j: int| 0 <= j < keys.len() && keys[j] == asked[i];
        lemma_vacant(m.locks[keys[j]]);
        assert(t.locks.dom().contains(keys[j]));
    }
    assert(n == q.settled(seq![keys[0]], clock, tape));
    assert(q.locks.dom() =~= m.locks.dom().insert(keys[0]));
    assert(q.clients.dom() =~= m.clients.dom());
    assert(t.lock_or_fresh(keys[0], clock.wall_ms) == found(m, keys[0], clock.wall_ms));
}

/// A composite request of no key or of more than five is refused, and changes
/// nothing.
pub proof fn a_composite_request_of_too_many_keys_is_refused(
    m: BrokerModel,
    client: ClientId,
    request: Request,
    overrides: GrantOverrides,
    clock: Clock,
    tape: Tape,
)
    requires
        request matches Request::Lock { key: None, keys: Some(ks), max, .. } && max != Some(0u32)
            && (ks@.len() == 0 || ks@.len() > 5),
    ensures
        ({
            let n = m.handled(client, request, overrides, clock, tape);
            &&& n == BrokerModel { outbox: n.outbox, ..m }
            &&& told(
                m,
                n,
                client,
                ResponseModel::CompositeLock {
                    uuid: request->Lock_uuid@,
                    keys: ordered_map::views(request->Lock_keys->0@),
                    acquired: false,
                    lock_uuid: None,
                    fencing_tokens: None,
                    error: Some("composite lock requires 1..=5 keys"@),
                },
            )
        }),
{
}

} // verus!
