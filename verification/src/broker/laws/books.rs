//! What happens to the books of connected clients, and to who is connected.
//!
//! As with holds, the laws speak of lock ids that no grant to come is made under.

use crate::broker::clients;
use crate::broker::laws::holds;
use crate::broker::model::Tape;
use crate::broker::release;
use crate::broker::types::{
    BrokerModel, ClientId, ClientModel, Clock, DeliveryModel, GrantOverrides, HeldModel, LockModel,
    PendingModel,
};
use crate::ordered_map;
use crate::protocol;
use crate::protocol::{Request, ResponseModel};
use crate::queue;
use vstd::prelude::*;

verus! {

/// `client` holds the key under `id`, in whatever way.
pub open spec fn held_by_client(l: LockModel, client: ClientId, id: Seq<char>) -> bool {
    ||| l.exclusive_holders.dom().contains(id) && l.exclusive_holders[id].client == client
    ||| l.readers.dom().contains(id) && l.readers[id].client == client
    ||| l.writer is Some && l.writer->0.lock_uuid == id && l.writer->0.client == client
}

/// The end of a read strikes the reads that it ends off the books of their client, and
/// nothing else off anybody's.
pub proof fn the_end_of_a_read_is_booked(
    m: BrokerModel,
    client: ClientId,
    uuid: String,
    key: String,
    overrides: GrantOverrides,
    clock: Clock,
    tape: Tape,
    id: Seq<char>,
)
    requires
        m.locks.dom().finite(),
        holds::unclaimed(m, tape, id),
    ensures
        ({
            let n = m.handled(client, Request::EndRead { uuid, key }, overrides, clock, tape);
            forall|c: ClientId| #[trigger]
                holds::listed(n, c, id) == if c == client && m.locks.dom().contains(key@)
                    && m.locks[key@].readers.dom().contains(id) && m.locks[key@].readers[id].client
                    == client {
                    None
                } else {
                    holds::listed(m, c, id)
                }
        }),
{
    if m.locks.dom().contains(key@) {
        let x = m.read_released(client, uuid@, key@);
        assert forall|k: Seq<char>, i: int|
            x.locks.dom().contains(k) && 0 <= i
                < x.locks[k].queue.len() implies m.locks.dom().contains(k)
            && m.locks[k].queue.contains(#[trigger] x.locks[k].queue[i]) by {
            assert(m.locks[k].queue[i] == x.locks[k].queue[i]);
        }
        holds::lemma_unclaimed(m, x, tape, id);
        holds::grants_leave_other_holds_alone(x, seq![key@], clock, tape, id);
    }
}

/// The end of a write strikes the write that it ends off the books of its client, and
/// nothing else off anybody's.
pub proof fn the_end_of_a_write_is_booked(
    m: BrokerModel,
    client: ClientId,
    uuid: String,
    key: String,
    overrides: GrantOverrides,
    clock: Clock,
    tape: Tape,
    id: Seq<char>,
)
    requires
        m.locks.dom().finite(),
        holds::unclaimed(m, tape, id),
    ensures
        ({
            let n = m.handled(client, Request::EndWrite { uuid, key }, overrides, clock, tape);
            forall|c: ClientId| #[trigger]
                holds::listed(n, c, id) == if c == client && m.locks.dom().contains(key@)
                    && m.locks[key@].writer is Some && m.locks[key@].writer->0.client == client
                    && m.locks[key@].writer->0.lock_uuid == id {
                    None
                } else {
                    holds::listed(m, c, id)
                }
        }),
{
    if m.locks.dom().contains(key@) {
        let x = m.write_released(client, uuid@, key@);
        assert forall|k: Seq<char>, i: int|
            x.locks.dom().contains(k) && 0 <= i
                < x.locks[k].queue.len() implies m.locks.dom().contains(k)
            && m.locks[k].queue.contains(#[trigger] x.locks[k].queue[i]) by {
            assert(m.locks[k].queue[i] == x.locks[k].queue[i]);
        }
        holds::lemma_unclaimed(m, x, tape, id);
        holds::grants_leave_other_holds_alone(x, seq![key@], clock, tape, id);
    }
}

/// An unlock request strikes what it takes off the books of those it takes it from,
/// and nothing else off anybody's.
pub proof fn an_unlock_is_booked(
    m: BrokerModel,
    client: ClientId,
    uuid: String,
    key: Option<String>,
    keys: Option<Vec<String>>,
    lock_uuid: Option<String>,
    force: bool,
    overrides: GrantOverrides,
    clock: Clock,
    tape: Tape,
    id: Seq<char>,
)
    requires
        m.locks.dom().finite(),
        holds::unclaimed(m, tape, id),
    ensures
        ({
            let request = Request::Unlock { uuid, key, keys, lock_uuid, force };
            let n = m.handled(client, request, overrides, clock, tape);
            let ks = holds::keys_named(key, keys);
            let named = match lock_uuid {
                Some(u) => u@ == id,
                None => force,
            };
            forall|c: ClientId| #[trigger]
                holds::listed(n, c, id) == if named && (force || c == client) && exists|i: int|
                    0 <= i < ks.len() && m.locks.dom().contains(#[trigger] ks[i])
                        && held_by_client(m.locks[ks[i]], c, id) {
                    None
                } else {
                    holds::listed(m, c, id)
                }
        }),
{
    let ks = holds::keys_named(key, keys);
    let target = protocol::shown_text(lock_uuid);
    let request = Request::Unlock { uuid, key, keys, lock_uuid, force };
    let n = m.handled(client, request, overrides, clock, tape);
    let named = match lock_uuid {
        Some(u) => u@ == id,
        None => force,
    };
    if ks.len() > 0 && (target is Some || force) {
        let x = m.unlocked(client, ks, target, force);
        assert(x.locks.dom() =~= m.locks.dom());
        assert forall|k: Seq<char>, i: int|
            x.locks.dom().contains(k) && 0 <= i
                < x.locks[k].queue.len() implies m.locks.dom().contains(k)
            && m.locks[k].queue.contains(#[trigger] x.locks[k].queue[i]) by {
            assert(m.locks[k].queue[i] == x.locks[k].queue[i]);
        }
        holds::lemma_unclaimed(m, x, tape, id);
        holds::grants_leave_other_holds_alone(x, ks.reverse(), clock, tape, id);
        let s = x.settled(ks.reverse(), clock, tape);
        assert forall|c: ClientId| #[trigger]
            holds::listed(n, c, id) == if named && (force || c == client) && exists|i: int|
                0 <= i < ks.len() && m.locks.dom().contains(#[trigger] ks[i]) && held_by_client(
                    m.locks[ks[i]],
                    c,
                    id,
                ) {
                None
            } else {
                holds::listed(m, c, id)
            } by {
            let takes = |l: LockModel| m.unlock_takes(client, target, force, l, c, id);
            assert(holds::listed(s, c, id) == holds::listed(x, c, id));
            assert(n.clients == s.clients);
            if m.clients.dom().contains(c) {
                let gone = release::any_lock(m.locks, ks, takes);
                assert(holds::listed(x, c, id) == if gone {
                    None
                } else {
                    holds::listed(m, c, id)
                });
                if gone {
                    let i = choose|i: int|
                        0 <= i < ks.len() && m.locks.dom().contains(#[trigger] ks[i]) && takes(
                            m.locks[ks[i]],
                        );
                    assert(held_by_client(m.locks[ks[i]], c, id));
                }
                if named && (force || c == client) && exists|i: int|
                    0 <= i < ks.len() && m.locks.dom().contains(#[trigger] ks[i])
                        && held_by_client(m.locks[ks[i]], c, id) {
                    let i = choose|i: int|
                        0 <= i < ks.len() && m.locks.dom().contains(#[trigger] ks[i])
                            && held_by_client(m.locks[ks[i]], c, id);
                    assert(takes(m.locks[ks[i]]));
                }
            }
        }
    } else {
        assert(n.clients == m.clients);
    }
}

/// Whoever stays connected while a client is dropped keeps their books.
pub proof fn a_drop_leaves_other_books_alone(
    m: BrokerModel,
    client: ClientId,
    clock: Clock,
    tape: Tape,
    id: Seq<char>,
)
    requires
        m.locks.dom().finite(),
        holds::unclaimed(m, tape, id),
    ensures
        forall|c: ClientId| #[trigger]
            holds::listed(m.client_dropped(client, clock, tape), c, id) == if c == client {
                None
            } else {
                holds::listed(m, c, id)
            },
{
    let connected = m.clients.dom().contains(client);
    let c = m.clients[client];
    let x = if connected {
        m.handle_dropped(client)
    } else {
        m.stranger_dropped(client)
    };
    let stack = ordered_map::ascending_keys::<String>(
        if connected {
            m.keys_touched(c)
        } else {
            m.keys_of_stranger(client)
        },
    ).reverse();
    assert(x.locks.dom() =~= m.locks.dom());
    assert forall|k: Seq<char>, i: int|
        x.locks.dom().contains(k) && 0 <= i < x.locks[k].queue.len() implies m.locks.dom().contains(
        k,
    ) && m.locks[k].queue.contains(#[trigger] x.locks[k].queue[i]) by {
        let keep = if connected {
            |e: (Seq<char>, PendingModel)| !c.pending_request_uuids.contains((k, e.0))
        } else {
            |e: (Seq<char>, PendingModel)| e.1.client != client
        };
        assert(x.locks[k].queue == m.locks[k].queue.filter(keep));
        assert(x.locks[k].queue.contains(x.locks[k].queue[i]));
        queue::lemma_filter_from(m.locks[k].queue, keep, x.locks[k].queue[i]);
    }
    holds::lemma_unclaimed(m, x, tape, id);
    holds::grants_leave_other_holds_alone(x, stack, clock, tape, id);
}

/// Turning a holder into a bearer token strikes it off the books of its owner. Whoever
/// then neither holds nor awaits anything is no longer connected; everybody else
/// stays as they are.
pub proof fn a_bearer_token_is_on_no_books(m: BrokerModel, lock_uuid: Seq<char>, client: ClientId)
    requires
        m.clients.dom().contains(client),
    ensures
        ({
            let n = m.owner_detached(lock_uuid);
            let c = m.clients[client];
            let owner = client != 0 && exists|k: Seq<char>| #[trigger]
                m.locks.dom().contains(k) && held_by_client(m.locks[k], client, lock_uuid);
            let left = c.held_lock_uuids.remove(lock_uuid);
            &&& !owner ==> n.clients.dom().contains(client) && n.clients[client] == c
            &&& owner ==> (n.clients.dom().contains(client) <==> c.pending_request_uuids.len() > 0
                || exists|u: Seq<char>| #[trigger] left.dom().contains(u))
            &&& owner && n.clients.dom().contains(client) ==> n.clients[client].held_lock_uuids == left
                && n.clients[client].pending_request_uuids == c.pending_request_uuids
        }),
{
    let n = m.owner_detached(lock_uuid);
    let c = m.clients[client];
    let left = c.held_lock_uuids.remove(lock_uuid);
    assert forall|k: Seq<char>| m.locks.dom().contains(k) implies m.locks[k].owns(client, lock_uuid)
        == #[trigger] held_by_client(m.locks[k], client, lock_uuid) by {}
    if exists|u: Seq<char>| #[trigger] left.dom().contains(u) {
        let u = choose|u: Seq<char>| #[trigger] left.dom().contains(u);
        assert(!left.is_empty());
    } else {
        assert(left =~= Map::<Seq<char>, HeldModel>::empty());
        assert(left.is_empty());
    }
}

/// From `from` upward, and from the largest on to the smallest, every id before `id` is
/// taken.
pub open spec fn first_from(taken: Set<u64>, from: u64, id: u64) -> bool {
    if from <= id {
        forall|x: u64| from <= x < id ==> #[trigger] taken.contains(x)
    } else {
        &&& forall|x: u64| from <= x ==> #[trigger] taken.contains(x)
        &&& forall|x: u64| 1 <= x < id ==> #[trigger] taken.contains(x)
    }
}

/// Where an id is free there is a first free one.
proof fn lemma_free(taken: Set<u64>, from: u64, x: u64)
    requires
        from >= 1,
        x >= 1,
        !taken.contains(x),
    ensures
        clients::is_first_free(taken, from, clients::first_free(taken, from)),
    decreases clients::id_distance(from, x),
{
    if clients::is_first_free(taken, from, x) {
        clients::lemma_first_free(taken, from, x);
    } else {
        let y = choose|y: u64|
            y >= 1 && clients::id_distance(from, y) < clients::id_distance(from, x)
                && !#[trigger] taken.contains(y);
        lemma_free(taken, from, y);
    }
}

/// A client that connects gets a positive id that nobody has, the one preferred if that
/// is free and else the next free one after it. It holds and awaits nothing; nobody
/// else and no key changes.
pub proof fn a_client_connects_under_the_first_free_id(
    m: BrokerModel,
    preferred: ClientId,
    free: ClientId,
)
    requires
        free >= 1,
        !m.clients.dom().contains(free),
    ensures
        ({
            let n = m.registered(preferred);
            let id = m.next_free_client(preferred);
            let from = if preferred == 0 {
                1
            } else {
                preferred
            };
            &&& id >= 1
            &&& !m.clients.dom().contains(id)
            &&& !m.clients.dom().contains(from) ==> id == from
            &&& first_from(m.clients.dom(), from, id)
            &&& n.clients == m.clients.insert(
                id,
                ClientModel {
                    held_lock_uuids: Map::empty(),
                    pending_request_uuids: Seq::empty(),
                },
            )
            &&& n.locks == m.locks
            &&& n.deadlines == m.deadlines
            &&& n.outbox == m.outbox
            &&& id < u64::MAX ==> n.next_client_id == id + 1
            &&& n.next_client_id >= 1
        }),
{
    let from: u64 = if preferred == 0 {
        1
    } else {
        preferred
    };
    let id = m.next_free_client(preferred);
    lemma_free(m.clients.dom(), from, free);
    assert(clients::is_first_free(m.clients.dom(), from, id));
    if !m.clients.dom().contains(from) && id != from {
        assert(clients::id_distance(from, from) < clients::id_distance(from, id));
        assert(m.clients.dom().contains(from));
    }
}

/// A notice of the transport goes to its client, if it is connected, and is not an
/// answer; nothing else changes.
pub proof fn a_notice_goes_to_connected_clients(
    m: BrokerModel,
    client: ClientId,
    response: ResponseModel,
)
    ensures
        ({
            let n = m.notified(client, response);
            &&& n == BrokerModel { outbox: n.outbox, ..m }
            &&& !m.clients.dom().contains(client) ==> n.outbox == m.outbox
            &&& m.clients.dom().contains(client) ==> n.outbox == m.outbox.push(
                DeliveryModel { client, connected: true, observed: false, response },
            )
        }),
{
}

} // verus!
