//! What happens to each hold: which operations end it, and that no other does.
//!
//! A hold is told by its key and its lock id. The laws speak of ids that no grant to
//! come is made under, so that what is held under the id afterwards was held under
//! it before.

use crate::broker::acquire::{CompositeLockRequest, ExclusiveLockRequest};
use crate::broker::laws;
use crate::broker::model::{GrantStep, Tape};
use crate::broker::release;
use crate::broker::sweep;
use crate::broker::types::{
    BrokerModel, ClientId, Clock, DeadlineKey, ExclusiveHolder, GrantOverrides, HeldModel, KindModel,
    LockModel, PendingModel, RwHoldKind, RwModel,
};
use crate::ordered_map;
use crate::protocol;
use crate::protocol::{Request, MAX_COMPOSITE_KEYS};
use crate::queue;
use vstd::prelude::*;

verus! {

/// How a key is held under an id.
#[verifier::ext_equal]
pub struct Hold {
    pub exclusive: Option<ExclusiveHolder>,
    pub reader: Option<RwModel>,
    pub writer: Option<RwModel>,
}

/// How `l` is held under `id`.
pub open spec fn hold_in(l: LockModel, id: Seq<char>) -> Hold {
    Hold {
        exclusive: if l.exclusive_holders.dom().contains(id) {
            Some(l.exclusive_holders[id])
        } else {
            None
        },
        reader: if l.readers.dom().contains(id) {
            Some(l.readers[id])
        } else {
            None
        },
        writer: if l.writer is Some && l.writer->0.lock_uuid == id {
            l.writer
        } else {
            None
        },
    }
}

/// How `key` is held under `id`.
pub open spec fn hold(m: BrokerModel, key: Seq<char>, id: Seq<char>) -> Hold {
    if m.locks.dom().contains(key) {
        hold_in(m.locks[key], id)
    } else {
        Hold { exclusive: None, reader: None, writer: None }
    }
}

/// A waiter is not to be granted under `id`.
pub open spec fn bound_for_another(p: PendingModel, id: Seq<char>) -> bool {
    &&& p.grant_lock_uuid != Some(id)
    &&& p.kind matches KindModel::Composite { composite_lock_uuid, .. } ==> composite_lock_uuid != id
}

/// No grant to come is made under `id`: no random id to come is this one, and no
/// waiter is to be granted under it.
pub open spec fn unclaimed(m: BrokerModel, tape: Tape, id: Seq<char>) -> bool {
    &&& forall|i: int| i >= m.drawn ==> #[trigger] tape(i) != id
    &&& forall|k: Seq<char>, i: int|
        m.locks.dom().contains(k) && 0 <= i < m.locks[k].queue.len() ==> bound_for_another(
            (#[trigger] m.locks[k].queue[i]).1,
            id,
        )
}

/// What the books of `client` list under `id`, if it is connected.
pub open spec fn listed(m: BrokerModel, client: ClientId, id: Seq<char>) -> Option<HeldModel> {
    if m.clients.dom().contains(client) && m.clients[client].held_lock_uuids.dom().contains(id) {
        Some(m.clients[client].held_lock_uuids[id])
    } else {
        None
    }
}

/// One grant changes nothing that is held or listed under an unclaimed id.
proof fn lemma_step(m: BrokerModel, key: Seq<char>, clock: Clock, tape: Tape, id: Seq<char>)
    requires
        unclaimed(m, tape, id),
    ensures
        ({
            let kept = |n: BrokerModel|
                {
                    &&& unclaimed(n, tape, id)
                    &&& forall|k: Seq<char>| #[trigger] hold(n, k, id) == hold(m, k, id)
                    &&& forall|c: ClientId| #[trigger] listed(n, c, id) == listed(m, c, id)
                };
            match m.grant_step(key, clock, tape) {
                GrantStep::Blocked => true,
                GrantStep::Granted(n) => kept(n),
                GrantStep::Moved(n, _) => kept(n),
            }
        }),
{
    let l = m.locks[key];
    if m.locks.dom().contains(key) && l.queue.len() > 0 {
        let p = l.queue[0].1;
        assert(bound_for_another(m.locks[key].queue[0].1, id));
        match m.grant_step(key, clock, tape) {
            GrantStep::Blocked => {},
            GrantStep::Granted(n) => {
                let g = n.locks[key];
                assert(n.locks =~= m.locks.insert(key, g));
                assert(g.queue =~= l.queue.drop_first());
                assert forall|k: Seq<char>, i: int|
                    n.locks.dom().contains(k) && 0 <= i
                        < n.locks[k].queue.len() implies bound_for_another(
                    (#[trigger] n.locks[k].queue[i]).1,
                    id,
                ) by {
                    if k == key {
                        assert(n.locks[k].queue[i] == m.locks[k].queue[i + 1]);
                    } else {
                        assert(n.locks[k].queue[i] == m.locks[k].queue[i]);
                    }
                }
                assert(hold_in(g, id) == hold_in(l, id));
            },
            GrantStep::Moved(n, other) => {
                laws::lemma_moved(m, key, clock, tape);
                let t = laws::taken(m, key);
                let held = m.with_lock(key, t).observed(
                    t.exclusive_holders[p.kind->composite_lock_uuid].fencing_token,
                );
                let q = choose|q: PendingModel| #[trigger]
                    n.locks == held.locks.insert(
                        other,
                        held.lock_or_fresh(other, clock.wall_ms).enqueued(q, false),
                    ) && laws::continues(p, key, t, q);
                let base = held.lock_or_fresh(other, clock.wall_ms);
                let joined = base.enqueued(q, false);
                assert(t.queue =~= l.queue.drop_first());
                assert(hold_in(t, id) == hold_in(l, id));
                assert(hold_in(joined, id) == hold_in(base, id));
                assert forall|k: Seq<char>, i: int|
                    n.locks.dom().contains(k) && 0 <= i
                        < n.locks[k].queue.len() implies bound_for_another(
                    (#[trigger] n.locks[k].queue[i]).1,
                    id,
                ) by {
                    if k == other {
                        if i < base.queue.len() {
                            assert(joined.queue[i] == base.queue[i]);
                            if other == key {
                                assert(base.queue[i] == m.locks[k].queue[i + 1]);
                            } else if m.locks.dom().contains(other) {
                                assert(base.queue[i] == m.locks[k].queue[i]);
                            }
                        }
                    } else if k == key {
                        assert(n.locks[k].queue[i] == m.locks[k].queue[i + 1]);
                    } else {
                        assert(n.locks[k].queue[i] == m.locks[k].queue[i]);
                    }
                }
            },
        }
    }
}

/// What has stayed since `a`, and up to `a`, has stayed.
proof fn lemma_since(m: BrokerModel, a: BrokerModel, n: BrokerModel, id: Seq<char>)
    requires
        forall|k: Seq<char>| #[trigger] hold(a, k, id) == hold(m, k, id),
        forall|c: ClientId| #[trigger] listed(a, c, id) == listed(m, c, id),
        forall|k: Seq<char>| #[trigger] hold(n, k, id) == hold(a, k, id),
        forall|c: ClientId| #[trigger] listed(n, c, id) == listed(a, c, id),
    ensures
        forall|k: Seq<char>| #[trigger] hold(n, k, id) == hold(m, k, id),
        forall|c: ClientId| #[trigger] listed(n, c, id) == listed(m, c, id),
{
}

/// Whatever is granted to waiters, what is held under an unclaimed id stays, and so
/// does what the books list under it.
pub proof fn grants_leave_other_holds_alone(
    m: BrokerModel,
    stack: Seq<Seq<char>>,
    clock: Clock,
    tape: Tape,
    id: Seq<char>,
)
    requires
        m.locks.dom().finite(),
        unclaimed(m, tape, id),
    ensures
        unclaimed(m.settled(stack, clock, tape), tape, id),
        forall|k: Seq<char>| #[trigger]
            hold(m.settled(stack, clock, tape), k, id) == hold(m, k, id),
        forall|c: ClientId| #[trigger]
            listed(m.settled(stack, clock, tape), c, id) == listed(m, c, id),
{
    let inv = |a: BrokerModel|
        {
            &&& unclaimed(a, tape, id)
            &&& forall|k: Seq<char>| #[trigger] hold(a, k, id) == hold(m, k, id)
            &&& forall|c: ClientId| #[trigger] listed(a, c, id) == listed(m, c, id)
        };
    assert forall|a: BrokerModel, k: Seq<char>|
        a.locks.dom().finite() && #[trigger] inv(a) implies match #[trigger] a.grant_step(
        k,
        clock,
        tape,
    ) {
        GrantStep::Blocked => true,
        GrantStep::Granted(n) => inv(n),
        GrantStep::Moved(n, _) => inv(n),
    } by {
        lemma_step(a, k, clock, tape, id);
        match a.grant_step(k, clock, tape) {
            GrantStep::Blocked => {},
            GrantStep::Granted(n) => {
                lemma_since(m, a, n, id);
            },
            GrantStep::Moved(n, _) => {
                lemma_since(m, a, n, id);
            },
        }
    }
    assert forall|a: BrokerModel, k: Seq<char>| #[trigger] inv(a) implies inv(
        #[trigger] a.idle_marked(k, clock.now),
    ) by {
        let b = a.idle_marked(k, clock.now);
        assert forall|j: Seq<char>| #[trigger] hold(b, j, id) == hold(m, j, id) by {
            assert(hold(a, j, id) == hold(m, j, id));
        }
        assert forall|c: ClientId| #[trigger] listed(b, c, id) == listed(m, c, id) by {
            assert(listed(a, c, id) == listed(m, c, id));
        }
        assert forall|j: Seq<char>, i: int|
            b.locks.dom().contains(j) && 0 <= i < b.locks[j].queue.len() implies bound_for_another(
            (#[trigger] b.locks[j].queue[i]).1,
            id,
        ) by {
            assert(b.locks[j].queue[i] == a.locks[j].queue[i]);
        }
    }
    assert(inv(m));
    laws::lemma_settled(m, stack, clock, tape, inv);
}

/// The end of a read takes from the key the reads of that client, and nothing else
/// from anybody.
pub proof fn the_end_of_a_read_ends_ones_own(
    m: BrokerModel,
    client: ClientId,
    uuid: String,
    key: String,
    overrides: GrantOverrides,
    clock: Clock,
    tape: Tape,
    id: Seq<char>,
)
    requires
        m.locks.dom().finite(),
        unclaimed(m, tape, id),
    ensures
        ({
            let n = m.handled(client, Request::EndRead { uuid, key }, overrides, clock, tape);
            forall|k: Seq<char>| #[trigger]
                hold(n, k, id) == if k == key@ && hold(m, k, id).reader is Some && hold(
                    m,
                    k,
                    id,
                ).reader->0.client == client {
                    Hold { reader: None, ..hold(m, k, id) }
                } else {
                    hold(m, k, id)
                }
        }),
{
    if m.locks.dom().contains(key@) {
        let ended = m.read_released(client, uuid@, key@);
        assert(unclaimed(ended, tape, id)) by {
            assert forall|j: Seq<char>, i: int|
                ended.locks.dom().contains(j) && 0 <= i
                    < ended.locks[j].queue.len() implies bound_for_another(
                (#[trigger] ended.locks[j].queue[i]).1,
                id,
            ) by {
                assert(ended.locks[j].queue[i] == m.locks[j].queue[i]);
            }
        }
        grants_leave_other_holds_alone(ended, seq![key@], clock, tape, id);
    }
}

/// The end of a write takes from the key the write of that client, and nothing else
/// from anybody.
pub proof fn the_end_of_a_write_ends_ones_own(
    m: BrokerModel,
    client: ClientId,
    uuid: String,
    key: String,
    overrides: GrantOverrides,
    clock: Clock,
    tape: Tape,
    id: Seq<char>,
)
    requires
        m.locks.dom().finite(),
        unclaimed(m, tape, id),
    ensures
        ({
            let n = m.handled(client, Request::EndWrite { uuid, key }, overrides, clock, tape);
            forall|k: Seq<char>| #[trigger]
                hold(n, k, id) == if k == key@ && hold(m, k, id).writer is Some && hold(
                    m,
                    k,
                    id,
                ).writer->0.client == client {
                    Hold { writer: None, ..hold(m, k, id) }
                } else {
                    hold(m, k, id)
                }
        }),
{
    if m.locks.dom().contains(key@) {
        let ended = m.write_released(client, uuid@, key@);
        assert(unclaimed(ended, tape, id)) by {
            assert forall|j: Seq<char>, i: int|
                ended.locks.dom().contains(j) && 0 <= i
                    < ended.locks[j].queue.len() implies bound_for_another(
                (#[trigger] ended.locks[j].queue[i]).1,
                id,
            ) by {
                assert(ended.locks[j].queue[i] == m.locks[j].queue[i]);
            }
        }
        grants_leave_other_holds_alone(ended, seq![key@], clock, tape, id);
    }
}

/// Fewer waiters, and no fewer ids used up, claim no more ids.
pub proof fn lemma_unclaimed(m: BrokerModel, n: BrokerModel, tape: Tape, id: Seq<char>)
    requires
        unclaimed(m, tape, id),
        n.drawn >= m.drawn,
        forall|k: Seq<char>, i: int|
            n.locks.dom().contains(k) && 0 <= i < n.locks[k].queue.len() ==> m.locks.dom().contains(
                k,
            ) && m.locks[k].queue.contains(#[trigger] n.locks[k].queue[i]),
    ensures
        unclaimed(n, tape, id),
{
    assert forall|k: Seq<char>, i: int|
        n.locks.dom().contains(k) && 0 <= i < n.locks[k].queue.len() implies bound_for_another(
        (#[trigger] n.locks[k].queue[i]).1,
        id,
    ) by {
        assert(m.locks[k].queue.contains(n.locks[k].queue[i]));
        let j = choose|j: int|
            0 <= j < m.locks[k].queue.len() && m.locks[k].queue[j] == n.locks[k].queue[i];
        assert(bound_for_another(m.locks[k].queue[j].1, id));
    }
}

/// The keys that an unlock request names.
pub open spec fn keys_named(key: Option<String>, keys: Option<Vec<String>>) -> Seq<Seq<char>> {
    match (key, keys) {
        (Some(k), None) => seq![k@],
        (None, Some(ks)) => ordered_map::views(ks@),
        _ => Seq::empty(),
    }
}

/// An unlock request takes from its keys what is held under the id it names, or, if
/// it is forced and names none, whatever is held: of the client that asks, of owners
/// that are not connected, and of everybody if it is forced. It takes nothing else,
/// and without an id and force nothing at all.
pub proof fn an_unlock_takes_what_it_names(
    m: BrokerModel,
    client: ClientId,
    uuid: String,
    key: Option<String>,
    keys: Option<Vec<String>>,
    lock_uuid: Option<String>,
    force: bool,
    overrides: GrantOverrides,
    clock: Clock,
    tape: Tape,
    id: Seq<char>,
)
    requires
        m.locks.dom().finite(),
        unclaimed(m, tape, id),
    ensures
        ({
            let request = Request::Unlock { uuid, key, keys, lock_uuid, force };
            let n = m.handled(client, request, overrides, clock, tape);
            let named = match lock_uuid {
                Some(u) => u@ == id,
                None => force,
            };
            let may = |owner: ClientId|
                force || owner == client || !m.clients.dom().contains(owner);
            forall|k: Seq<char>| #[trigger]
                hold(n, k, id) == {
                    let before = hold(m, k, id);
                    if named && keys_named(key, keys).contains(k) {
                        Hold {
                            exclusive: if before.exclusive is Some && may(
                                before.exclusive->0.client,
                            ) {
                                None
                            } else {
                                before.exclusive
                            },
                            reader: if before.reader is Some && may(before.reader->0.client) {
                                None
                            } else {
                                before.reader
                            },
                            writer: if before.writer is Some && may(before.writer->0.client) {
                                None
                            } else {
                                before.writer
                            },
                        }
                    } else {
                        before
                    }
                }
        }),
{
    let ks = keys_named(key, keys);
    let target = protocol::shown_text(lock_uuid);
    let request = Request::Unlock { uuid, key, keys, lock_uuid, force };
    let n = m.handled(client, request, overrides, clock, tape);
    if ks.len() > 0 && (target is Some || force) {
        let u = m.unlocked(client, ks, target, force);
        assert(u.locks.dom() =~= m.locks.dom());
        assert forall|k: Seq<char>, i: int|
            u.locks.dom().contains(k) && 0 <= i
                < u.locks[k].queue.len() implies m.locks.dom().contains(k)
            && m.locks[k].queue.contains(#[trigger] u.locks[k].queue[i]) by {
            assert(m.locks[k].queue[i] == u.locks[k].queue[i]);
        }
        lemma_unclaimed(m, u, tape, id);
        grants_leave_other_holds_alone(u, ks.reverse(), clock, tape, id);
        let s = u.settled(ks.reverse(), clock, tape);
        assert forall|k: Seq<char>| #[trigger] hold(n, k, id) == hold(u, k, id) by {
            assert(hold(s, k, id) == hold(u, k, id));
            assert(n.locks == s.locks);
        }
    } else {
        assert(n.locks == m.locks);
        assert(forall|k: Seq<char>| ks.len() == 0 ==> !ks.contains(k));
    }
}

/// A connected client that is dropped loses what its books list: reads and writes,
/// and exclusive locks but for those that were asked to outlive it and belong to no
/// composite lock. It loses nothing else, and nobody else loses anything.
pub proof fn a_dropped_client_loses_what_it_holds(
    m: BrokerModel,
    client: ClientId,
    clock: Clock,
    tape: Tape,
    id: Seq<char>,
)
    requires
        m.locks.dom().finite(),
        unclaimed(m, tape, id),
        m.clients.dom().contains(client),
    ensures
        ({
            let n = m.client_dropped(client, clock, tape);
            let books = m.clients[client].held_lock_uuids;
            forall|k: Seq<char>| #[trigger]
                hold(n, k, id) == {
                    let before = hold(m, k, id);
                    if books.dom().contains(id) && books[id].keys.contains(k) {
                        match books[id].rw_kind {
                            RwHoldKind::Exclusive => if before.exclusive is Some
                                && before.exclusive->0.keep_locks_after_death
                                && !before.exclusive->0.composite_member {
                                before
                            } else {
                                Hold { exclusive: None, ..before }
                            },
                            RwHoldKind::Read => Hold { reader: None, ..before },
                            RwHoldKind::Write => Hold { writer: None, ..before },
                        }
                    } else {
                        before
                    }
                }
        }),
{
    let c = m.clients[client];
    let d = m.handle_dropped(client);
    let stack = ordered_map::ascending_keys::<String>(m.keys_touched(c)).reverse();
    assert(d.locks.dom() =~= m.locks.dom());
    assert forall|k: Seq<char>, i: int|
        d.locks.dom().contains(k) && 0 <= i < d.locks[k].queue.len() implies m.locks.dom().contains(
        k,
    ) && m.locks[k].queue.contains(#[trigger] d.locks[k].queue[i]) by {
        let keep = |e: (Seq<char>, PendingModel)| !c.pending_request_uuids.contains((k, e.0));
        assert(d.locks[k].queue == m.locks[k].queue.filter(keep));
        assert(d.locks[k].queue.contains(d.locks[k].queue[i]));
        queue::lemma_filter_from(m.locks[k].queue, keep, d.locks[k].queue[i]);
    }
    lemma_unclaimed(m, d, tape, id);
    grants_leave_other_holds_alone(d, stack, clock, tape, id);
    let n = m.client_dropped(client, clock, tape);
    assert forall|k: Seq<char>| #[trigger] hold(n, k, id) == hold(d, k, id) by {}
}

/// A client that is dropped without being connected loses whatever it holds, and
/// nobody else loses anything.
pub proof fn a_dropped_stranger_loses_what_it_holds(
    m: BrokerModel,
    client: ClientId,
    clock: Clock,
    tape: Tape,
    id: Seq<char>,
)
    requires
        m.locks.dom().finite(),
        unclaimed(m, tape, id),
        !m.clients.dom().contains(client),
    ensures
        ({
            let n = m.client_dropped(client, clock, tape);
            forall|k: Seq<char>| #[trigger]
                hold(n, k, id) == {
                    let before = hold(m, k, id);
                    Hold {
                        exclusive: if before.exclusive is Some && before.exclusive->0.client
                            == client {
                            None
                        } else {
                            before.exclusive
                        },
                        reader: if before.reader is Some && before.reader->0.client == client {
                            None
                        } else {
                            before.reader
                        },
                        writer: if before.writer is Some && before.writer->0.client == client {
                            None
                        } else {
                            before.writer
                        },
                    }
                }
        }),
{
    let d = m.stranger_dropped(client);
    let stack = ordered_map::ascending_keys::<String>(m.keys_of_stranger(client)).reverse();
    assert(d.locks.dom() =~= m.locks.dom());
    assert forall|k: Seq<char>, i: int|
        d.locks.dom().contains(k) && 0 <= i < d.locks[k].queue.len() implies m.locks.dom().contains(
        k,
    ) && m.locks[k].queue.contains(#[trigger] d.locks[k].queue[i]) by {
        let keep = |e: (Seq<char>, PendingModel)| e.1.client != client;
        assert(d.locks[k].queue == m.locks[k].queue.filter(keep));
        assert(d.locks[k].queue.contains(d.locks[k].queue[i]));
        queue::lemma_filter_from(m.locks[k].queue, keep, d.locks[k].queue[i]);
    }
    lemma_unclaimed(m, d, tape, id);
    grants_leave_other_holds_alone(d, stack, clock, tape, id);
    let n = m.client_dropped(client, clock, tape);
    assert forall|k: Seq<char>| #[trigger] hold(n, k, id) == hold(d, k, id) by {}
}

/// Somewhere among `keys` is a deadline of that kind for `key` and `id`.
pub open spec fn due_among(
    m: BrokerModel,
    keys: Seq<DeadlineKey>,
    key: Seq<char>,
    id: Seq<char>,
    kind: RwHoldKind,
) -> bool {
    exists|j: int| 0 <= j < keys.len() && #[trigger] due_at(m, keys[j], key, id, kind)
}

/// The deadline at `d` is one of that kind for `key` and `id`.
pub open spec fn due_at(
    m: BrokerModel,
    d: DeadlineKey,
    key: Seq<char>,
    id: Seq<char>,
    kind: RwHoldKind,
) -> bool {
    m.deadlines[d].lock_uuid == id && m.deadlines[d].keys.contains(key) && m.deadlines[d].kind == kind
}

/// The hold without what has expired.
pub open spec fn without_expired(h: Hold, exclusive: bool, read: bool, write: bool) -> Hold {
    Hold {
        exclusive: if exclusive {
            None
        } else {
            h.exclusive
        },
        reader: if read {
            None
        } else {
            h.reader
        },
        writer: if write {
            None
        } else {
            h.writer
        },
    }
}

/// Deadlines that pass end the holds that they are set for.
pub proof fn lemma_deadlines(m: BrokerModel, keys: Seq<DeadlineKey>, key: Seq<char>, id: Seq<char>)
    ensures
        hold(m.deadlines_met(keys).state, key, id) == without_expired(
            hold(m, key, id),
            due_among(m, keys, key, id, RwHoldKind::Exclusive),
            due_among(m, keys, key, id, RwHoldKind::Read),
            due_among(m, keys, key, id, RwHoldKind::Write),
        ),
        m.deadlines_met(keys).state.locks.dom() == m.locks.dom(),
        m.deadlines_met(keys).state.drawn == m.drawn,
        forall|k: Seq<char>| #[trigger]
            m.locks.dom().contains(k) ==> m.deadlines_met(keys).state.locks[k].queue
                == m.locks[k].queue,
    decreases keys.len(),
{
    if keys.len() > 0 {
        let front = keys.drop_last();
        lemma_deadlines(m, front, key, id);
        let before = m.deadlines_met(front).state;
        let n = m.deadlines_met(keys).state;
        let d = m.deadlines[keys.last()];
        assert(n.locks.dom() =~= m.locks.dom());
        assert forall|kind: RwHoldKind| #[trigger]
            due_among(m, keys, key, id, kind) == (due_among(m, front, key, id, kind) || due_at(
                m,
                keys.last(),
                key,
                id,
                kind,
            )) by {
            if due_among(m, front, key, id, kind) {
                let j = choose|j: int|
                    0 <= j < front.len() && #[trigger] due_at(m, front[j], key, id, kind);
                assert(due_at(m, keys[j], key, id, kind));
            }
            if due_at(m, keys.last(), key, id, kind) {
                assert(due_at(m, keys[keys.len() - 1], key, id, kind));
            }
            if due_among(m, keys, key, id, kind) {
                let j = choose|j: int|
                    0 <= j < keys.len() && #[trigger] due_at(m, keys[j], key, id, kind);
                if j < front.len() {
                    assert(due_at(m, front[j], key, id, kind));
                }
            }
        }
        if due_at(m, keys.last(), key, id, d.kind) && m.locks.dom().contains(key) {
            let p = |l: LockModel| l.held_under(d.lock_uuid, d.kind);
            let i = choose|i: int| 0 <= i < d.keys.len() && d.keys[i] == key;
            assert(before.locks.dom().contains(d.keys[i]));
            if p(before.locks[d.keys[i]]) {
                assert(release::any_lock(before.locks, d.keys, p));
            }
        }
    }
}

/// A sweep ends a hold exactly if a deadline that has passed names its lock id, its
/// key and its kind.
pub proof fn a_sweep_ends_what_has_expired(
    m: BrokerModel,
    now: u128,
    clock: Clock,
    tape: Tape,
    id: Seq<char>,
)
    requires
        m.locks.dom().finite(),
        m.deadlines.dom().finite(),
        unclaimed(m, tape, id),
    ensures
        ({
            let n = m.swept(now, clock, tape);
            let due = |k: Seq<char>, kind: RwHoldKind|
                exists|d: DeadlineKey|
                    m.deadlines.dom().contains(d) && d.at <= now && #[trigger] due_at(
                        m,
                        d,
                        k,
                        id,
                        kind,
                    );
            forall|k: Seq<char>| #[trigger]
                hold(n, k, id) == without_expired(
                    hold(m, k, id),
                    due(k, RwHoldKind::Exclusive),
                    due(k, RwHoldKind::Read),
                    due(k, RwHoldKind::Write),
                )
        }),
{
    let all = Set::new(|k: DeadlineKey| m.deadlines.dom().contains(k) && k.at <= now);
    assert(all.subset_of(m.deadlines.dom()));
    vstd::set_lib::lemma_len_subset(all, m.deadlines.dom());
    ordered_map::lemma_ascending_walk::<DeadlineKey>(all);
    let keys = sweep::expired_keys(m.deadlines, now);
    assert(keys.to_set() == all);
    let met = m.deadlines_met(keys);
    lemma_deadlines(m, keys, id, id);
    assert forall|k: Seq<char>, i: int|
        met.state.locks.dom().contains(k) && 0 <= i
            < met.state.locks[k].queue.len() implies m.locks.dom().contains(k)
        && m.locks[k].queue.contains(#[trigger] met.state.locks[k].queue[i]) by {
        assert(m.locks[k].queue[i] == met.state.locks[k].queue[i]);
    }
    lemma_unclaimed(m, met.state, tape, id);
    let stack = ordered_map::ascending_keys::<String>(met.touched).reverse();
    grants_leave_other_holds_alone(met.state, stack, clock, tape, id);
    let s = met.state.settled(stack, clock, tape);
    let n = m.swept(now, clock, tape);
    let due = |k: Seq<char>, kind: RwHoldKind|
        exists|d: DeadlineKey|
            m.deadlines.dom().contains(d) && d.at <= now && #[trigger] due_at(m, d, k, id, kind);
    assert forall|k: Seq<char>| #[trigger]
        hold(n, k, id) == without_expired(
            hold(m, k, id),
            due(k, RwHoldKind::Exclusive),
            due(k, RwHoldKind::Read),
            due(k, RwHoldKind::Write),
        ) by {
        lemma_deadlines(m, keys, k, id);
        assert(hold(s, k, id) == hold(met.state, k, id));
        assert(hold(n, k, id) == hold(s, k, id)) by {
            if s.locks.dom().contains(k) && !n.locks.dom().contains(k) {
                assert(s.locks[k].idle());
            }
        }
        assert forall|kind: RwHoldKind| #[trigger] due_among(m, keys, k, id, kind) == due(k, kind) by {
            if due_among(m, keys, k, id, kind) {
                let j = choose|j: int|
                    0 <= j < keys.len() && #[trigger] due_at(m, keys[j], k, id, kind);
                assert(keys.to_set().contains(keys[j]));
            }
            if due(k, kind) {
                let d = choose|d: DeadlineKey|
                    m.deadlines.dom().contains(d) && d.at <= now && #[trigger] due_at(
                        m,
                        d,
                        k,
                        id,
                        kind,
                    );
                assert(keys.to_set().contains(d));
                let j = choose|j: int| 0 <= j < keys.len() && keys[j] == d;
                assert(due_at(m, keys[j], k, id, kind));
            }
        }
    }
}

/// Taking members under another id leaves what is held under `id`.
proof fn lemma_members(
    m: BrokerModel,
    keys: Seq<Seq<char>>,
    n: nat,
    cid: Seq<char>,
    client: ClientId,
    pid: Option<i64>,
    seed: Option<u64>,
    wall_ms: u64,
    id: Seq<char>,
)
    requires
        n <= keys.len(),
        cid != id,
    ensures
        forall|k: Seq<char>| #[trigger]
            hold(m.members_held(keys, n, cid, client, pid, seed, wall_ms).state, k, id) == hold(
                m,
                k,
                id,
            ),
    decreases n,
{
    if n > 0 {
        lemma_members(m, keys, (n - 1) as nat, cid, client, pid, seed, wall_ms, id);
        let before = m.members_held(keys, (n - 1) as nat, cid, client, pid, seed, wall_ms).state;
        let after = m.members_held(keys, n, cid, client, pid, seed, wall_ms).state;
        assert forall|k: Seq<char>| #[trigger] hold(after, k, id) == hold(m, k, id) by {
            assert(hold(before, k, id) == hold(m, k, id));
        }
    }
}

/// A request other than an unlock or the end of a read or write ends no hold and
/// changes none: whatever is held under an id that it does not grant under stays.
pub proof fn acquiring_takes_nothing_from_anybody(
    m: BrokerModel,
    client: ClientId,
    request: Request,
    overrides: GrantOverrides,
    clock: Clock,
    tape: Tape,
    id: Seq<char>,
)
    requires
        m.locks.dom().finite(),
        unclaimed(m, tape, id),
        overrides.lock_uuid matches Some(u) ==> u@ != id,
        !(request is Unlock),
        !(request is EndRead),
        !(request is EndWrite),
    ensures
        forall|k: Seq<char>| #[trigger]
            hold(m.handled(client, request, overrides, clock, tape), k, id) == hold(m, k, id),
{
    match request {
        Request::Lock {
            uuid,
            key,
            keys,
            pid,
            ttl,
            max,
            force,
            keep_locks_after_death,
            wait,
            ..
        } => {
            let waits = wait matches Some(w) ==> w;
            if max != Some(0u32) {
                if let (Some(k), None) = (key, keys) {
                    let r = ExclusiveLockRequest {
                        client,
                        uuid,
                        key: k,
                        pid,
                        ttl,
                        max,
                        keep_locks_after_death,
                        force,
                        wait: waits,
                        grant_overrides: overrides,
                    };
                    lemma_exclusive(m, r, clock, tape, id);
                }
                if let (None, Some(ks)) = (key, keys) {
                    let r = CompositeLockRequest {
                        client,
                        uuid,
                        keys: ks,
                        pid,
                        ttl,
                        wait: waits,
                        grant_overrides: overrides,
                    };
                    lemma_composite(m, r, clock, tape, id);
                }
            }
        },
        Request::RegisterRead { uuid, key } => {
            lemma_read(m, client, uuid@, key@, overrides, clock, tape, id);
        },
        Request::RegisterWrite { uuid, key } => {
            lemma_write(m, client, uuid@, key@, overrides, clock, tape, id);
        },
        _ => {},
    }
}

/// A single-key request ends no hold and changes none.
proof fn lemma_exclusive(
    m: BrokerModel,
    r: ExclusiveLockRequest,
    clock: Clock,
    tape: Tape,
    id: Seq<char>,
)
    requires
        unclaimed(m, tape, id),
        r.grant_overrides.lock_uuid matches Some(u) ==> u@ != id,
    ensures
        forall|k: Seq<char>| #[trigger]
            hold(m.exclusive_requested(r, clock, tape), k, id) == hold(m, k, id),
{
    assert(m.grant_id(protocol::shown_text(r.grant_overrides.lock_uuid), tape) != id);
}

/// A read request ends no hold and changes none.
proof fn lemma_read(
    m: BrokerModel,
    client: ClientId,
    uuid: Seq<char>,
    key: Seq<char>,
    overrides: GrantOverrides,
    clock: Clock,
    tape: Tape,
    id: Seq<char>,
)
    requires
        unclaimed(m, tape, id),
        overrides.lock_uuid matches Some(u) ==> u@ != id,
    ensures
        ({
            let given = protocol::shown_text(overrides.lock_uuid);
            let n = m.read_requested(client, uuid, key, given, overrides.fencing_seed, clock, tape);
            forall|k: Seq<char>| #[trigger] hold(n, k, id) == hold(m, k, id)
        }),
{
    assert(m.grant_id(protocol::shown_text(overrides.lock_uuid), tape) != id);
}

/// A write request ends no hold and changes none.
proof fn lemma_write(
    m: BrokerModel,
    client: ClientId,
    uuid: Seq<char>,
    key: Seq<char>,
    overrides: GrantOverrides,
    clock: Clock,
    tape: Tape,
    id: Seq<char>,
)
    requires
        unclaimed(m, tape, id),
        overrides.lock_uuid matches Some(u) ==> u@ != id,
    ensures
        ({
            let given = protocol::shown_text(overrides.lock_uuid);
            let n = m.write_requested(client, uuid, key, given, overrides.fencing_seed, clock, tape);
            forall|k: Seq<char>| #[trigger] hold(n, k, id) == hold(m, k, id)
        }),
{
    assert(m.grant_id(protocol::shown_text(overrides.lock_uuid), tape) != id);
}

/// A composite request ends no hold and changes none.
proof fn lemma_composite(
    m: BrokerModel,
    r: CompositeLockRequest,
    clock: Clock,
    tape: Tape,
    id: Seq<char>,
)
    requires
        m.locks.dom().finite(),
        unclaimed(m, tape, id),
        r.grant_overrides.lock_uuid matches Some(u) ==> u@ != id,
    ensures
        forall|k: Seq<char>| #[trigger]
            hold(m.composite_requested(r, clock, tape), k, id) == hold(m, k, id),
{
    let n = m.composite_requested(r, clock, tape);
    let asked = ordered_map::views(r.keys@);
    let keys = ordered_map::sorted_distinct(asked);
    let given = protocol::shown_text(r.grant_overrides.lock_uuid);
    let cid = m.grant_id(given, tape);
    let t = m.id_taken(given);
    assert(cid != id);
    laws::lemma_composite_cases(m, r, clock, tape);
    if asked.len() > 0 && asked.len() <= MAX_COMPOSITE_KEYS {
        if m.all_vacant(keys) {
            let held = laws::composite_granted(m, r, clock, tape);
            let seed = r.grant_overrides.fencing_seed;
            lemma_members(t, keys, keys.len(), cid, r.client, r.pid, seed, clock.wall_ms, id);
            laws::lemma_marks_frame(held.state.observed(held.top), keys, keys.len(), clock.now);
            assert forall|k: Seq<char>| #[trigger] hold(n, k, id) == hold(m, k, id) by {
                assert(hold(held.state, k, id) == hold(t, k, id));
            }
        } else if r.wait {
            let queued = laws::composite_queued(m, r, clock, tape);
            let base = t.lock_or_fresh(keys[0], clock.wall_ms);
            assert(unclaimed(queued, tape, id)) by {
                assert forall|k: Seq<char>, i: int|
                    queued.locks.dom().contains(k) && 0 <= i
                        < queued.locks[k].queue.len() implies bound_for_another(
                    (#[trigger] queued.locks[k].queue[i]).1,
                    id,
                ) by {
                    if k == keys[0] {
                        if i < base.queue.len() {
                            assert(queued.locks[k].queue[i] == base.queue[i]);
                            assert(base.queue[i] == m.locks[k].queue[i]);
                        }
                    } else {
                        assert(queued.locks[k].queue[i] == m.locks[k].queue[i]);
                    }
                }
            }
            grants_leave_other_holds_alone(queued, seq![keys[0]], clock, tape, id);
            assert forall|k: Seq<char>| #[trigger] hold(n, k, id) == hold(m, k, id) by {
                assert(hold(queued, k, id) == hold(m, k, id));
            }
        }
    }
}

/// Turning a holder into a bearer token changes whose it is, and nothing else: it
/// holds the same keys, in the same way and with the same tokens, and everybody else
/// holds what they held.
pub proof fn a_bearer_token_holds_the_same(m: BrokerModel, lock_uuid: Seq<char>, id: Seq<char>)
    ensures
        ({
            let n = m.owner_detached(lock_uuid);
            &&& n.locks.dom() == m.locks.dom()
            &&& forall|k: Seq<char>| #[trigger]
                m.locks.dom().contains(k) ==> n.locks[k].queue == m.locks[k].queue && n.locks[k].max
                    == m.locks[k].max && n.locks[k].fencing_counter == m.locks[k].fencing_counter
            &&& forall|k: Seq<char>| #[trigger]
                hold(n, k, id) == {
                    let before = hold(m, k, id);
                    if id == lock_uuid {
                        Hold {
                            exclusive: match before.exclusive {
                                Some(h) => Some(ExclusiveHolder { client: 0, ..h }),
                                None => None,
                            },
                            reader: match before.reader {
                                Some(h) => Some(
                                    RwModel {
                                        client: 0,
                                        fencing_token: h.fencing_token,
                                        lock_uuid: h.lock_uuid,
                                    },
                                ),
                                None => None,
                            },
                            writer: match before.writer {
                                Some(h) => Some(
                                    RwModel {
                                        client: 0,
                                        fencing_token: h.fencing_token,
                                        lock_uuid: h.lock_uuid,
                                    },
                                ),
                                None => None,
                            },
                        }
                    } else {
                        before
                    }
                }
        }),
{
    let n = m.owner_detached(lock_uuid);
    assert(n.locks.dom() =~= m.locks.dom());
}

/// Striking a lock off the books of a client changes no key at all, and nobody
/// else's books.
pub proof fn striking_off_the_books_frees_nothing(
    m: BrokerModel,
    client: ClientId,
    lock_uuid: Seq<char>,
)
    ensures
        ({
            let n = m.holder_untracked(client, lock_uuid);
            &&& n.locks == m.locks
            &&& n.deadlines == m.deadlines
            &&& n.outbox == m.outbox
            &&& n.clients.dom() == m.clients.dom()
            &&& forall|c: ClientId, u: Seq<char>|
                m.clients.dom().contains(c) ==> (#[trigger] n.clients[c].held_lock_uuids.dom().contains(
                    u,
                ) <==> m.clients[c].held_lock_uuids.dom().contains(u) && !(c == client && u
                    == lock_uuid))
            &&& forall|c: ClientId| #[trigger]
                m.clients.dom().contains(c) ==> n.clients[c].pending_request_uuids
                    == m.clients[c].pending_request_uuids
        }),
{
    assert(m.holder_untracked(client, lock_uuid).clients.dom() =~= m.clients.dom());
}

} // verus!
