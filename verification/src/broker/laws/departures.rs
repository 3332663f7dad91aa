//! What a client leaves behind when it goes: nobody waits for it any more, and
//! what it held is free, but for locks that were meant to outlive it.

use crate::broker::acquire;
use crate::broker::acquire::CompositeLockRequest;
use crate::broker::clients;
use crate::broker::laws;
use crate::broker::laws::composites;
use crate::broker::laws::Operation;
use crate::broker::model::{GrantStep, Tape};
use crate::broker::sweep;
use crate::broker::types::{
    BrokerConfig, BrokerModel, ClientId, ClientModel, Clock, DeadlineKey, GrantOverrides,
    KindModel, LockModel, PendingModel, RwHoldKind,
};
use crate::ordered_map;
use crate::protocol;
use crate::protocol::{Request, MAX_COMPOSITE_KEYS};
use crate::queue;
use vstd::prelude::*;

verus! {

/// A request of `client` waits in a queue.
pub open spec fn waits_in(q: Seq<(Seq<char>, PendingModel)>, client: ClientId) -> bool {
    exists|i: int| 0 <= i < q.len() && (#[trigger] q[i]).1.client == client
}

/// `client` waits for no key.
pub open spec fn awaits_nothing(m: BrokerModel, client: ClientId) -> bool {
    forall|k: Seq<char>| #[trigger]
        m.locks.dom().contains(k) ==> !waits_in(m.locks[k].queue, client)
}

/// `client` owns no holder.
pub open spec fn owns_nothing(m: BrokerModel, client: ClientId) -> bool {
    forall|k: Seq<char>, u: Seq<char>|
        m.locks.dom().contains(k) ==> !#[trigger] m.locks[k].owns(client, u)
}

/// One grant brings nothing of a client that awaits nothing.
proof fn lemma_step(
    m: BrokerModel,
    client: ClientId,
    key: Seq<char>,
    clock: Clock,
    tape: Tape,
)
    requires
        awaits_nothing(m, client),
    ensures
        match m.grant_step(key, clock, tape) {
            GrantStep::Blocked => true,
            GrantStep::Granted(n) => awaits_nothing(n, client) && (owns_nothing(m, client)
                ==> owns_nothing(n, client)),
            GrantStep::Moved(n, _) => awaits_nothing(n, client) && (owns_nothing(m, client)
                ==> owns_nothing(n, client)),
        },
{
    let l = m.locks[key];
    if m.locks.dom().contains(key) && l.queue.len() > 0 {
        assert(!waits_in(l.queue, client));
        assert(l.queue[0].1.client != client);
        let rest = l.queue.drop_first();
        assert(!waits_in(rest, client)) by {
            if waits_in(rest, client) {
                let i = choose|i: int| 0 <= i < rest.len() && (#[trigger] rest[i]).1.client == client;
                assert(l.queue[i + 1] == rest[i]);
            }
        }
        match m.grant_step(key, clock, tape) {
            GrantStep::Blocked => {},
            GrantStep::Granted(n) => {
                let g = n.locks[key];
                assert(n.locks =~= m.locks.insert(key, g));
                assert(g.queue =~= rest);
                lemma_one_key(m, n, client, key, l, g);
            },
            GrantStep::Moved(n, other) => {
                laws::lemma_moved(m, key, clock, tape);
                let t = laws::taken(m, key);
                let p = l.queue[0].1;
                let between = m.with_lock(key, t).observed(
                    t.exclusive_holders[p.kind->composite_lock_uuid].fencing_token,
                );
                let q = choose|q: PendingModel| #[trigger]
                    n.locks == between.locks.insert(
                        other,
                        between.lock_or_fresh(other, clock.wall_ms).enqueued(q, false),
                    ) && laws::continues(p, key, t, q);
                assert(t.queue =~= rest);
                lemma_one_key(m, between, client, key, l, t);
                let base = between.lock_or_fresh(other, clock.wall_ms);
                let joined = base.enqueued(q, false);
                if between.locks.dom().contains(other) {
                    assert(!waits_in(between.locks[other].queue, client));
                }
                assert(!waits_in(base.queue, client));
                assert(!waits_in(joined.queue, client)) by {
                    if waits_in(joined.queue, client) {
                        let i = choose|i: int|
                            0 <= i < joined.queue.len() && (#[trigger] joined.queue[i]).1.client
                                == client;
                        if i < base.queue.len() {
                            assert(base.queue[i] == joined.queue[i]);
                        }
                    }
                }
                lemma_one_key(between, n, client, other, base, joined);
            },
        }
    }
}

/// A key on which nothing of `client` appears brings nothing of it.
proof fn lemma_one_key(
    m: BrokerModel,
    n: BrokerModel,
    client: ClientId,
    key: Seq<char>,
    l: LockModel,
    g: LockModel,
)
    requires
        awaits_nothing(m, client),
        n.locks == m.locks.insert(key, g),
        !waits_in(g.queue, client),
        m.locks.dom().contains(key) ==> l == m.locks[key],
        !m.locks.dom().contains(key) ==> forall|u: Seq<char>| !#[trigger] l.owns(client, u),
        forall|u: Seq<char>| #[trigger] g.owns(client, u) ==> l.owns(client, u),
    ensures
        awaits_nothing(n, client),
        owns_nothing(m, client) ==> owns_nothing(n, client),
{
    assert forall|k: Seq<char>| #[trigger] n.locks.dom().contains(k) implies !waits_in(
        n.locks[k].queue,
        client,
    ) by {
        if k != key {
            assert(m.locks.dom().contains(k));
        }
    }
    if owns_nothing(m, client) {
        assert forall|k: Seq<char>, u: Seq<char>| n.locks.dom().contains(k) implies !#[trigger] n.locks[k].owns(
            client,
            u,
        ) by {
            if k != key {
                assert(m.locks.dom().contains(k));
                assert(!m.locks[k].owns(client, u));
            } else if g.owns(client, u) {
                assert(l.owns(client, u));
            }
        }
    }
}

/// Settling brings nothing of a client that awaits nothing.
proof fn lemma_settle(
    m: BrokerModel,
    client: ClientId,
    stack: Seq<Seq<char>>,
    clock: Clock,
    tape: Tape,
)
    requires
        m.locks.dom().finite(),
        awaits_nothing(m, client),
    ensures
        awaits_nothing(m.settled(stack, clock, tape), client),
        owns_nothing(m, client) ==> owns_nothing(m.settled(stack, clock, tape), client),
{
    let free = owns_nothing(m, client);
    let inv = |a: BrokerModel| awaits_nothing(a, client) && (free ==> owns_nothing(a, client));
    assert forall|a: BrokerModel, k: Seq<char>|
        a.locks.dom().finite() && #[trigger] inv(a) implies match #[trigger] a.grant_step(
        k,
        clock,
        tape,
    ) {
        GrantStep::Blocked => true,
        GrantStep::Granted(n) => inv(n),
        GrantStep::Moved(n, _) => inv(n),
    } by {
        lemma_step(a, client, k, clock, tape);
    }
    assert forall|a: BrokerModel, k: Seq<char>| #[trigger] inv(a) implies inv(
        #[trigger] a.idle_marked(k, clock.now),
    ) by {
        if a.locks.dom().contains(k) {
            let l = a.locks[k];
            assert(!waits_in(l.queue, client));
            lemma_one_key(
                a,
                a.idle_marked(k, clock.now),
                client,
                k,
                l,
                l.idle_marked(clock.now),
            );
        }
    }
    assert(inv(m));
    laws::lemma_settled(m, stack, clock, tape, inv);
}

/// A client that is dropped is connected no more; everybody else stays.
pub proof fn a_dropped_client_is_gone(m: BrokerModel, client: ClientId, clock: Clock, tape: Tape)
    requires
        m.locks.dom().finite(),
    ensures
        m.client_dropped(client, clock, tape).clients.dom() == m.clients.dom().remove(client),
{
    if m.clients.dom().contains(client) {
        let n = m.handle_dropped(client);
        assert(n.locks.dom() =~= m.locks.dom());
        laws::lemma_settled_config(
            n,
            ordered_map::ascending_keys::<String>(m.keys_touched(m.clients[client])).reverse(),
            clock,
            tape,
        );
        assert(n.clients.dom() =~= m.clients.dom().remove(client));
    } else {
        let n = m.stranger_dropped(client);
        assert(n.locks.dom() =~= m.locks.dom());
        laws::lemma_settled_config(
            n,
            ordered_map::ascending_keys::<String>(m.keys_of_stranger(client)).reverse(),
            clock,
            tape,
        );
        assert(m.clients.dom().remove(client) =~= m.clients.dom());
    }
}

/// A client that is dropped without being connected leaves nothing: it neither
/// waits for a key nor holds one.
pub proof fn a_dropped_stranger_leaves_nothing(
    m: BrokerModel,
    client: ClientId,
    clock: Clock,
    tape: Tape,
)
    requires
        m.locks.dom().finite(),
        !m.clients.dom().contains(client),
    ensures
        awaits_nothing(m.client_dropped(client, clock, tape), client),
        owns_nothing(m.client_dropped(client, clock, tape), client),
{
    let n = m.stranger_dropped(client);
    assert(n.locks.dom() =~= m.locks.dom());
    assert forall|k: Seq<char>| #[trigger] n.locks.dom().contains(k) implies !waits_in(
        n.locks[k].queue,
        client,
    ) by {
        assert(m.locks.dom().contains(k));
        let q = n.locks[k].queue;
        let keep = |e: (Seq<char>, PendingModel)| e.1.client != client;
        assert(q == m.locks[k].queue.filter(keep));
        if waits_in(q, client) {
            let i = choose|i: int| 0 <= i < q.len() && (#[trigger] q[i]).1.client == client;
            assert(q.contains(q[i]));
            queue::lemma_filter_from(m.locks[k].queue, keep, q[i]);
        }
    }
    assert forall|k: Seq<char>, u: Seq<char>| n.locks.dom().contains(k) implies !#[trigger] n.locks[k].owns(
        client,
        u,
    ) by {
        assert(m.locks.dom().contains(k));
        assert(n.locks[k] == m.locks[k].client_dropped(client));
    }
    lemma_settle(
        n,
        client,
        ordered_map::ascending_keys::<String>(m.keys_of_stranger(client)).reverse(),
        clock,
        tape,
    );
}

/// A queue entry of a connected client is on that client's books.
pub open spec fn booked_queue(
    key: Seq<char>,
    q: Seq<(Seq<char>, PendingModel)>,
    clients: Map<u64, ClientModel>,
) -> bool {
    forall|i: int|
        0 <= i < q.len() && clients.dom().contains((#[trigger] q[i]).1.client)
            ==> clients[q[i].1.client].pending_request_uuids.contains((key, q[i].0))
}

/// Whoever is connected and waits has it on their books.
pub open spec fn booked(m: BrokerModel) -> bool {
    &&& composites::lined_up(m)
    &&& forall|k: Seq<char>| #[trigger]
        m.locks.dom().contains(k) ==> booked_queue(k, m.locks[k].queue, m.clients)
}

/// A connected client whose books are in order leaves no waiter behind when it
/// is dropped.
pub proof fn no_waiter_survives_its_client(
    m: BrokerModel,
    client: ClientId,
    clock: Clock,
    tape: Tape,
)
    requires
        booked(m),
        m.clients.dom().contains(client),
    ensures
        awaits_nothing(m.client_dropped(client, clock, tape), client),
{
    let n = m.handle_dropped(client);
    let c = m.clients[client];
    assert(n.locks.dom() =~= m.locks.dom());
    assert forall|k: Seq<char>| #[trigger] n.locks.dom().contains(k) implies !waits_in(
        n.locks[k].queue,
        client,
    ) by {
        assert(m.locks.dom().contains(k));
        let q = n.locks[k].queue;
        let all = m.locks[k].queue;
        let keep = |e: (Seq<char>, PendingModel)| !c.pending_request_uuids.contains((k, e.0));
        assert(q == all.filter(keep));
        if waits_in(q, client) {
            let i = choose|i: int| 0 <= i < q.len() && (#[trigger] q[i]).1.client == client;
            assert(q.contains(q[i]));
            queue::lemma_filter_from(all, keep, q[i]);
            let j = choose|j: int| 0 <= j < all.len() && all[j] == q[i];
            assert(booked_queue(k, all, m.clients));
            assert(m.clients.dom().contains(all[j].1.client));
        }
    }
    lemma_settle(
        n,
        client,
        ordered_map::ascending_keys::<String>(m.keys_touched(c)).reverse(),
        clock,
        tape,
    );
}

/// What the books of a connected client list as held is free once it is
/// dropped, but for exclusive locks that outlive their client.
pub proof fn what_the_books_list_is_released(
    m: BrokerModel,
    client: ClientId,
    key: Seq<char>,
    lock_uuid: Seq<char>,
)
    requires
        m.clients.dom().contains(client),
        m.clients[client].held_lock_uuids.dom().contains(lock_uuid),
        m.clients[client].held_lock_uuids[lock_uuid].keys.contains(key),
        m.locks.dom().contains(key),
        !(m.clients[client].held_lock_uuids[lock_uuid].rw_kind == RwHoldKind::Exclusive
            && m.locks[key].kept(lock_uuid)),
    ensures
        !m.handle_dropped(client).locks[key].held_under(
            lock_uuid,
            m.clients[client].held_lock_uuids[lock_uuid].rw_kind,
        ),
{
    let held = m.clients[client].held_lock_uuids;
    let l = m.locks[key].requests_dropped(key, m.clients[client].pending_request_uuids);
    assert(clients::covers(held, lock_uuid, key, held[lock_uuid].rw_kind));
    assert(l.kept(lock_uuid) == m.locks[key].kept(lock_uuid));
}

/// Striking one pair off a list leaves the others.
proof fn lemma_struck(
    list: Seq<(Seq<char>, Seq<char>)>,
    gone: (Seq<char>, Seq<char>),
    x: (Seq<char>, Seq<char>),
)
    requires
        list.contains(x),
        x != gone,
    ensures
        list.filter(|p: (Seq<char>, Seq<char>)| p != gone).contains(x),
{
    broadcast use vstd::seq_lib::group_filter_ensures;

    let keep = |p: (Seq<char>, Seq<char>)| p != gone;
    let i = choose|i: int| 0 <= i < list.len() && list[i] == x;
    assert(keep(list[i]));
}

/// The books after a grant: the client of `p` no longer waits for `key`.
proof fn lemma_granted_books(m: BrokerModel, n: BrokerModel, key: Seq<char>, p: PendingModel)
    requires
        booked(m),
        m.locks.dom().contains(key),
        m.locks[key].queue.len() > 0,
        m.locks[key].queue[0].1 == p,
        composites::lined_up(n),
        n.locks == m.locks.insert(key, n.locks[key]),
        n.locks[key].queue == m.locks[key].queue.drop_first(),
        n.clients.dom() == m.clients.dom(),
        forall|c: u64| #[trigger]
            n.clients.dom().contains(c) ==> n.clients[c].pending_request_uuids == if c == p.client {
                m.clients[c].pending_request_uuids.filter(
                    |e: (Seq<char>, Seq<char>)| e != (key, p.request_uuid),
                )
            } else {
                m.clients[c].pending_request_uuids
            },
    ensures
        booked(n),
{
    let all = m.locks[key].queue;
    assert(composites::consistent(key, all[0]));
    assert forall|k: Seq<char>| #[trigger] n.locks.dom().contains(k) implies booked_queue(
        k,
        n.locks[k].queue,
        n.clients,
    ) by {
        let q = n.locks[k].queue;
        assert(m.locks.dom().contains(k));
        let before = m.locks[k].queue;
        assert(booked_queue(k, before, m.clients));
        assert forall|i: int|
            0 <= i < q.len() && n.clients.dom().contains((#[trigger] q[i]).1.client) implies n.clients[q[i].1.client].pending_request_uuids.contains(
            (k, q[i].0),
        ) by {
            let c = q[i].1.client;
            let j = if k == key {
                i + 1
            } else {
                i
            };
            assert(before[j] == q[i]);
            assert(m.clients[c].pending_request_uuids.contains((k, before[j].0)));
            if c == p.client {
                if k == key {
                    assert(all[0].0 != all[i + 1].0);
                }
                lemma_struck(
                    m.clients[c].pending_request_uuids,
                    (key, p.request_uuid),
                    (k, q[i].0),
                );
            }
        }
    }
}

/// The books after a request has joined the queue of `key`.
proof fn lemma_joined_books(
    m: BrokerModel,
    n: BrokerModel,
    key: Seq<char>,
    base: LockModel,
    p: PendingModel,
    front: bool,
)
    requires
        booked(m),
        composites::lined_up(n),
        m.locks.dom().contains(key) ==> base.queue == m.locks[key].queue,
        !m.locks.dom().contains(key) ==> base.queue.len() == 0,
        n.locks == m.locks.insert(key, n.locks[key]),
        n.locks[key].queue == base.enqueued(p, front).queue,
        n.clients.dom() == m.clients.dom(),
        forall|c: u64| #[trigger]
            n.clients.dom().contains(c) ==> n.clients[c].pending_request_uuids == if c == p.client {
                m.clients[c].pending_request_uuids.push((key, p.request_uuid))
            } else {
                m.clients[c].pending_request_uuids
            },
    ensures
        booked(n),
{
    assert forall|k: Seq<char>| #[trigger] n.locks.dom().contains(k) implies booked_queue(
        k,
        n.locks[k].queue,
        n.clients,
    ) by {
        let q = n.locks[k].queue;
        assert forall|i: int|
            0 <= i < q.len() && n.clients.dom().contains((#[trigger] q[i]).1.client) implies n.clients[q[i].1.client].pending_request_uuids.contains(
            (k, q[i].0),
        ) by {
            let c = q[i].1.client;
            let books = m.clients[c].pending_request_uuids;
            if c == p.client {
                queue::lemma_contains_push(books, (key, p.request_uuid), (k, q[i].0));
            }
            if k != key {
                assert(m.locks.dom().contains(k));
                assert(booked_queue(k, m.locks[k].queue, m.clients));
            } else if q[i] != (p.request_uuid, p) {
                let old = base.queue;
                assert(old.len() > 0);
                assert(booked_queue(k, m.locks[k].queue, m.clients));
                if queue::queued(old, p.request_uuid) {
                    assert(old[i] == q[i]);
                } else if front {
                    assert(old[i - 1] == q[i]);
                } else {
                    assert(old[i] == q[i]);
                }
            }
        }
    }
}

/// The books stay in order where queues only lose entries and lists only gain.
proof fn lemma_kept_books(m: BrokerModel, n: BrokerModel)
    requires
        booked(m),
        composites::lined_up(n),
        n.clients.dom().subset_of(m.clients.dom()),
        forall|c: u64| #[trigger]
            n.clients.dom().contains(c) ==> n.clients[c].pending_request_uuids
                == m.clients[c].pending_request_uuids,
        forall|k: Seq<char>, i: int|
            n.locks.dom().contains(k) && 0 <= i < n.locks[k].queue.len() ==> m.locks.dom().contains(
                k,
            ) && m.locks[k].queue.contains(#[trigger] n.locks[k].queue[i]),
    ensures
        booked(n),
{
    assert forall|k: Seq<char>| #[trigger] n.locks.dom().contains(k) implies booked_queue(
        k,
        n.locks[k].queue,
        n.clients,
    ) by {
        let q = n.locks[k].queue;
        let before = m.locks[k].queue;
        assert forall|i: int|
            0 <= i < q.len() && n.clients.dom().contains((#[trigger] q[i]).1.client) implies n.clients[q[i].1.client].pending_request_uuids.contains(
            (k, q[i].0),
        ) by {
            assert(before.contains(n.locks[k].queue[i]));
            assert(booked_queue(k, before, m.clients));
            let j = choose|j: int| 0 <= j < before.len() && before[j] == q[i];
            assert(m.clients.dom().contains(before[j].1.client));
        }
    }
}

/// One grant keeps the books in order.
proof fn lemma_booked_step(m: BrokerModel, key: Seq<char>, clock: Clock, tape: Tape)
    requires
        booked(m),
    ensures
        match m.grant_step(key, clock, tape) {
            GrantStep::Blocked => true,
            GrantStep::Granted(n) => booked(n),
            GrantStep::Moved(n, _) => booked(n),
        },
{
    let l = m.locks[key];
    if m.locks.dom().contains(key) && l.queue.len() > 0 {
        composites::lemma_step(m, key, clock, tape);
        let p = l.queue[0].1;
        match m.grant_step(key, clock, tape) {
            GrantStep::Blocked => {},
            GrantStep::Granted(n) => {
                assert(n.locks =~= m.locks.insert(key, n.locks[key]));
                assert(n.locks[key].queue =~= l.queue.drop_first());
                assert(n.clients.dom() =~= m.clients.dom());
                lemma_granted_books(m, n, key, p);
            },
            GrantStep::Moved(n, other) => {
                laws::lemma_moved(m, key, clock, tape);
                let t = laws::taken(m, key);
                let id = p.kind->composite_lock_uuid;
                let token = t.exclusive_holders[id].fencing_token;
                let between = m.with_lock(key, t).observed(token).pending_untracked(
                    p.client,
                    key,
                    p.request_uuid,
                ).holder_tracked(p.client, id, p.kind->all_keys, RwHoldKind::Exclusive);
                let held = m.with_lock(key, t).observed(token);
                let q = choose|q: PendingModel| #[trigger]
                    n.locks == held.locks.insert(
                        other,
                        held.lock_or_fresh(other, clock.wall_ms).enqueued(q, false),
                    ) && laws::continues(p, key, t, q);
                assert(t.queue =~= l.queue.drop_first());
                assert(between.locks =~= m.locks.insert(key, t));
                assert(between.clients.dom() =~= m.clients.dom());
                composites::lemma_taken(m, key);
                lemma_granted_books(m, between, key, p);
                let base = held.lock_or_fresh(other, clock.wall_ms);
                assert(n.clients.dom() =~= between.clients.dom());
                lemma_joined_books(between, n, other, base, q, false);
            },
        }
    }
}

/// Settling keeps the books in order.
proof fn lemma_booked_settle(m: BrokerModel, stack: Seq<Seq<char>>, clock: Clock, tape: Tape)
    requires
        booked(m),
    ensures
        booked(m.settled(stack, clock, tape)),
{
    let inv = |a: BrokerModel| booked(a);
    assert forall|a: BrokerModel, k: Seq<char>|
        a.locks.dom().finite() && #[trigger] inv(a) implies match #[trigger] a.grant_step(
        k,
        clock,
        tape,
    ) {
        GrantStep::Blocked => true,
        GrantStep::Granted(n) => inv(n),
        GrantStep::Moved(n, _) => inv(n),
    } by {
        lemma_booked_step(a, k, clock, tape);
    }
    assert forall|a: BrokerModel, k: Seq<char>| #[trigger] inv(a) implies inv(
        #[trigger] a.idle_marked(k, clock.now),
    ) by {
        composites::lemma_mark(a, k, clock.now);
        let n = a.idle_marked(k, clock.now);
        assert forall|x: Seq<char>, i: int|
            n.locks.dom().contains(x) && 0 <= i < n.locks[x].queue.len() implies a.locks[x].queue.contains(
            #[trigger] n.locks[x].queue[i],
        ) by {
            assert(a.locks[x].queue[i] == n.locks[x].queue[i]);
        }
        lemma_kept_books(a, n);
    }
    assert(inv(m));
    laws::lemma_settled(m, stack, clock, tape, inv);
}

/// The queues of `n` are those of `m`, and empty on new keys.
pub open spec fn same_queues(m: BrokerModel, n: BrokerModel) -> bool {
    forall|k: Seq<char>| #[trigger]
        n.locks.dom().contains(k) ==> if m.locks.dom().contains(k) {
            n.locks[k].queue == m.locks[k].queue
        } else {
            n.locks[k].queue.len() == 0
        }
}

/// The books stay in order where queues and lists stay as they are.
proof fn lemma_same_books(m: BrokerModel, n: BrokerModel)
    requires
        booked(m),
        n.locks.dom().finite(),
        same_queues(m, n),
        n.clients.dom().subset_of(m.clients.dom()),
        forall|c: u64| #[trigger]
            n.clients.dom().contains(c) ==> n.clients[c].pending_request_uuids
                == m.clients[c].pending_request_uuids,
    ensures
        booked(n),
{
    assert forall|k: Seq<char>| #[trigger] n.locks.dom().contains(
        k,
    ) implies composites::consistent_queue(k, n.locks[k].queue) by {
    }
    assert forall|k: Seq<char>, i: int|
        n.locks.dom().contains(k) && 0 <= i < n.locks[k].queue.len() implies m.locks.dom().contains(
        k,
    ) && m.locks[k].queue.contains(#[trigger] n.locks[k].queue[i]) by {
        assert(m.locks[k].queue[i] == n.locks[k].queue[i]);
    }
    lemma_kept_books(m, n);
}

/// A multi-key lock request keeps the books in order.
proof fn lemma_booked_composite(m: BrokerModel, r: CompositeLockRequest, clock: Clock, tape: Tape)
    requires
        booked(m),
    ensures
        booked(m.composite_requested(r, clock, tape)),
{
    let asked = ordered_map::views(r.keys@);
    let keys = ordered_map::sorted_distinct(asked);
    let n = m.composite_requested(r, clock, tape);
    let given = protocol::shown_text(r.grant_overrides.lock_uuid);
    let id = m.grant_id(given, tape);
    let t = m.id_taken(given);
    ordered_map::lemma_sorted_distinct(asked);
    laws::lemma_composite_cases(m, r, clock, tape);
    assert(t.all_vacant(keys) == m.all_vacant(keys));
    if asked.len() == 0 || asked.len() > MAX_COMPOSITE_KEYS {
        lemma_same_books(m, n);
    } else if m.all_vacant(keys) {
        laws::lemma_members_frame(
            t,
            keys,
            keys.len(),
            id,
            r.client,
            r.pid,
            r.grant_overrides.fencing_seed,
            clock.wall_ms,
        );
        let held = laws::composite_granted(m, r, clock, tape);
        let s = held.state.observed(held.top);
        laws::lemma_marks_frame(s, keys, keys.len(), clock.now);
        lemma_same_books(m, n);
    } else if !r.wait {
        lemma_same_books(m, n);
    } else {
        let queued = laws::composite_queued(m, r, clock, tape);
        composites::lemma_queued(m, r, clock, tape);
        let p = PendingModel {
            request_uuid: r.uuid@,
            client: r.client,
            pid: r.pid,
            ttl: r.ttl,
            grant_lock_uuid: None,
            grant_fencing_seed: r.grant_overrides.fencing_seed,
            keep_locks_after_death: false,
            kind: KindModel::Composite {
                all_keys: keys,
                remaining_keys: keys,
                granted_keys: Seq::empty(),
                granted_tokens: Map::empty(),
                composite_lock_uuid: id,
            },
        };
        let base = t.lock_or_fresh(keys[0], clock.wall_ms);
        assert(queued.locks =~= m.locks.insert(keys[0], queued.locks[keys[0]]));
        assert(queued.clients.dom() =~= m.clients.dom());
        lemma_joined_books(m, queued, keys[0], base, p, false);
        lemma_booked_settle(queued, seq![keys[0]], clock, tape);
    }
}

/// Every request keeps the books in order.
proof fn lemma_booked_request(
    m: BrokerModel,
    client: ClientId,
    request: Request,
    overrides: GrantOverrides,
    clock: Clock,
    tape: Tape,
)
    requires
        booked(m),
    ensures
        booked(m.handled(client, request, overrides, clock, tape)),
{
    let n = m.handled(client, request, overrides, clock, tape);
    let given = protocol::shown_text(overrides.lock_uuid);
    let seed = overrides.fencing_seed;
    let op = Operation::Request { client, request, overrides, clock };
    composites::every_operation_keeps_queues_consistent(m, op, tape);
    match request {
        Request::Lock {
            uuid,
            key,
            keys,
            pid,
            ttl,
            max,
            force,
            keep_locks_after_death,
            wait,
            ..
        } => {
            let waits = wait matches Some(w) ==> w;
            if max == Some(0u32) {
                lemma_same_books(m, n);
            } else {
                match (key, keys) {
                    (Some(k), None) => {
                        let base = m.lock_or_fresh(k@, clock.wall_ms);
                        let p = PendingModel {
                            request_uuid: uuid@,
                            client,
                            pid,
                            ttl,
                            grant_lock_uuid: given,
                            grant_fencing_seed: seed,
                            keep_locks_after_death,
                            kind: KindModel::Exclusive,
                        };
                        let level = LockModel {
                            max: m.resolved_max(
                                if m.locks.dom().contains(k@) {
                                    m.locks[k@].max
                                } else {
                                    m.config.max_lock_holders
                                },
                                max,
                            ),
                            ..base
                        };
                        assert(n.locks =~= m.locks.insert(k@, n.locks[k@]));
                        assert(n.clients.dom() =~= m.clients.dom());
                        if level.admits_exclusive() || !waits {
                            assert(n.locks[k@].queue == base.queue);
                            lemma_same_books(m, n);
                        } else {
                            assert(n.locks[k@].queue == base.enqueued(p, force).queue);
                            lemma_joined_books(m, n, k@, base, p, force);
                        }
                    },
                    (None, Some(ks)) => {
                        lemma_booked_composite(
                            m,
                            CompositeLockRequest {
                                client,
                                uuid,
                                keys: ks,
                                pid,
                                ttl,
                                wait: waits,
                                grant_overrides: overrides,
                            },
                            clock,
                            tape,
                        );
                    },
                    _ => {
                        lemma_same_books(m, n);
                    },
                }
            }
        },
        Request::Unlock { uuid, key, keys, lock_uuid, force } => {
            let target = protocol::shown_text(lock_uuid);
            match (key, keys) {
                (Some(k), None) => {
                    lemma_booked_unlock(m, client, uuid@, seq![k@], target, force, clock, tape);
                },
                (None, Some(ks)) => {
                    lemma_booked_unlock(
                        m,
                        client,
                        uuid@,
                        ordered_map::views(ks@),
                        target,
                        force,
                        clock,
                        tape,
                    );
                },
                _ => {
                    lemma_same_books(m, n);
                },
            }
        },
        Request::RegisterRead { uuid, key } => {
            let base = m.lock_or_fresh(key@, clock.wall_ms);
            let p = acquire::waiting(client, uuid@, given, seed, KindModel::Reader);
            assert(n.locks =~= m.locks.insert(key@, n.locks[key@]));
            assert(n.clients.dom() =~= m.clients.dom());
            if base.admits_reader() && base.queue.len() == 0 {
                lemma_same_books(m, n);
            } else {
                assert(n.locks[key@].queue == base.enqueued(p, false).queue);
                lemma_joined_books(m, n, key@, base, p, false);
            }
        },
        Request::RegisterWrite { uuid, key } => {
            let base = m.lock_or_fresh(key@, clock.wall_ms);
            let p = acquire::waiting(client, uuid@, given, seed, KindModel::Writer);
            assert(n.locks =~= m.locks.insert(key@, n.locks[key@]));
            assert(n.clients.dom() =~= m.clients.dom());
            if base.vacant() {
                lemma_same_books(m, n);
            } else {
                assert(n.locks[key@].queue == base.enqueued(p, false).queue);
                lemma_joined_books(m, n, key@, base, p, false);
            }
        },
        Request::EndRead { uuid, key } => {
            if m.locks.dom().contains(key@) {
                let ended = m.read_released(client, uuid@, key@);
                lemma_same_books(m, ended);
                lemma_booked_settle(ended, seq![key@], clock, tape);
            } else {
                lemma_same_books(m, n);
            }
        },
        Request::EndWrite { uuid, key } => {
            if m.locks.dom().contains(key@) {
                let ended = m.write_released(client, uuid@, key@);
                lemma_same_books(m, ended);
                lemma_booked_settle(ended, seq![key@], clock, tape);
            }
        },
        _ => {
            lemma_same_books(m, n);
        },
    }
}

/// An unlock request keeps the books in order.
proof fn lemma_booked_unlock(
    m: BrokerModel,
    client: ClientId,
    uuid: Seq<char>,
    keys: Seq<Seq<char>>,
    lock_uuid: Option<Seq<char>>,
    force: bool,
    clock: Clock,
    tape: Tape,
)
    requires
        booked(m),
    ensures
        booked(m.unlock_requested(client, uuid, keys, lock_uuid, force, clock, tape)),
{
    let done = m.unlock_requested(client, uuid, keys, lock_uuid, force, clock, tape);
    if keys.len() > 0 && (lock_uuid is Some || force) {
        let n = m.unlocked(client, keys, lock_uuid, force);
        assert(n.locks.dom() =~= m.locks.dom());
        lemma_same_books(m, n);
        lemma_booked_settle(n, keys.reverse(), clock, tape);
        lemma_same_books(n.settled(keys.reverse(), clock, tape), done);
    } else {
        lemma_same_books(m, done);
    }
}

/// Dropping a client keeps the books of the others in order.
proof fn lemma_booked_drop(m: BrokerModel, client: ClientId, clock: Clock, tape: Tape)
    requires
        booked(m),
    ensures
        booked(m.client_dropped(client, clock, tape)),
{
    if m.clients.dom().contains(client) {
        let n = m.handle_dropped(client);
        let c = m.clients[client];
        assert forall|k: Seq<char>, i: int|
            n.locks.dom().contains(k) && 0 <= i
                < n.locks[k].queue.len() implies m.locks.dom().contains(k)
            && m.locks[k].queue.contains(#[trigger] n.locks[k].queue[i]) by {
            let keep = |e: (Seq<char>, PendingModel)| !c.pending_request_uuids.contains((k, e.0));
            assert(n.locks[k].queue == m.locks[k].queue.filter(keep));
            assert(n.locks[k].queue.contains(n.locks[k].queue[i]));
            queue::lemma_filter_from(m.locks[k].queue, keep, n.locks[k].queue[i]);
        }
        composites::lemma_left(m, client);
        lemma_kept_books(m, n);
        lemma_booked_settle(
            n,
            ordered_map::ascending_keys::<String>(m.keys_touched(c)).reverse(),
            clock,
            tape,
        );
    } else {
        let n = m.stranger_dropped(client);
        assert forall|k: Seq<char>, i: int|
            n.locks.dom().contains(k) && 0 <= i
                < n.locks[k].queue.len() implies m.locks.dom().contains(k)
            && m.locks[k].queue.contains(#[trigger] n.locks[k].queue[i]) by {
            let keep = |e: (Seq<char>, PendingModel)| e.1.client != client;
            assert(n.locks[k].queue == m.locks[k].queue.filter(keep));
            assert(n.locks[k].queue.contains(n.locks[k].queue[i]));
            queue::lemma_filter_from(m.locks[k].queue, keep, n.locks[k].queue[i]);
        }
        composites::lemma_left(m, client);
        lemma_kept_books(m, n);
        lemma_booked_settle(
            n,
            ordered_map::ascending_keys::<String>(m.keys_of_stranger(client)).reverse(),
            clock,
            tape,
        );
    }
}

/// Deadlines that pass keep the books in order.
proof fn lemma_booked_deadlines(m: BrokerModel, keys: Seq<DeadlineKey>)
    requires
        booked(m),
    ensures
        booked(m.deadlines_met(keys).state),
    decreases keys.len(),
{
    if keys.len() > 0 {
        lemma_booked_deadlines(m, keys.drop_last());
        let before = m.deadlines_met(keys.drop_last()).state;
        let n = m.deadlines_met(keys).state;
        assert(n.locks.dom() =~= before.locks.dom());
        lemma_same_books(before, n);
    }
}

/// Whatever happens, whoever is connected and waits has it on their books; only
/// a client that connects must not get an id under which somebody waits
/// already.
pub proof fn every_operation_keeps_the_books(m: BrokerModel, op: Operation, tape: Tape)
    requires
        booked(m),
        op matches Operation::Register { preferred } ==> awaits_nothing(
            m,
            m.next_free_client(preferred),
        ),
    ensures
        booked(laws::after(m, op, tape)),
{
    let n = laws::after(m, op, tape);
    match op {
        Operation::Register { preferred } => {
            let id = m.next_free_client(preferred);
            assert forall|k: Seq<char>| #[trigger] n.locks.dom().contains(k) implies booked_queue(
                k,
                n.locks[k].queue,
                n.clients,
            ) by {
                assert(m.locks.dom().contains(k));
                assert(booked_queue(k, m.locks[k].queue, m.clients));
                assert(!waits_in(m.locks[k].queue, id));
            }
        },
        Operation::Request { client, request, overrides, clock } => {
            lemma_booked_request(m, client, request, overrides, clock, tape);
        },
        Operation::Drop { client, clock } => {
            lemma_booked_drop(m, client, clock, tape);
        },
        Operation::Sweep { now, clock } => {
            let keys = sweep::expired_keys(m.deadlines, now);
            let met = m.deadlines_met(keys);
            lemma_booked_deadlines(m, keys);
            let stack = ordered_map::ascending_keys::<String>(met.touched).reverse();
            lemma_booked_settle(met.state, stack, clock, tape);
            let s = met.state.settled(stack, clock, tape);
            vstd::set_lib::lemma_len_subset(s.pruned(now).locks.dom(), s.locks.dom());
            lemma_same_books(s, s.pruned(now));
        },
        Operation::DetachOwner { lock_uuid } => {
            assert(n.locks.dom() =~= m.locks.dom());
            lemma_same_books(m, n);
        },
        _ => {
            lemma_same_books(m, n);
        },
    }
}

/// Whoever connects in the course of `ops` gets an id under which nobody waits.
pub open spec fn fresh_ids(config: BrokerConfig, ops: Seq<Operation>, tape: Tape) -> bool {
    forall|i: int|
        0 <= i < ops.len() ==> (#[trigger] ops[i] matches Operation::Register {
            preferred,
        } ==> awaits_nothing(
            laws::run(config, ops.take(i), tape),
            laws::run(config, ops.take(i), tape).next_free_client(preferred),
        ))
}

/// In every state that a broker can come to, whoever is connected and waits has
/// it on their books.
pub proof fn the_books_are_always_in_order(config: BrokerConfig, ops: Seq<Operation>, tape: Tape)
    requires
        fresh_ids(config, ops, tape),
    ensures
        booked(laws::run(config, ops, tape)),
    decreases ops.len(),
{
    if ops.len() > 0 {
        let front = ops.drop_last();
        assert forall|i: int| 0 <= i < front.len() implies (#[trigger] front[i] matches Operation::Register {
            preferred,
        } ==> awaits_nothing(
            laws::run(config, front.take(i), tape),
            laws::run(config, front.take(i), tape).next_free_client(preferred),
        )) by {
            assert(ops[i] == front[i]);
            assert(ops.take(i) =~= front.take(i));
        }
        the_books_are_always_in_order(config, front, tape);
        assert(ops.take(ops.len() - 1) =~= front);
        assert(ops[ops.len() - 1] == ops.last());
        every_operation_keeps_the_books(laws::run(config, front, tape), ops.last(), tape);
    }
}

} // verus!
