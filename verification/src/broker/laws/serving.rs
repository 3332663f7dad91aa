//! Departures and sweeps serve those who wait.

use crate::broker::laws;
use crate::broker::laws::holds;
use crate::broker::laws::order;
use crate::broker::model;
use crate::broker::model::{GrantStep, Tape};
use crate::broker::sweep;
use crate::broker::types::{
    BrokerModel, ClientId, ClientModel, Clock, DeadlineKey, GrantOverrides, PendingModel,
    RwHoldKind,
};
use crate::ordered_map;
use crate::protocol;
use crate::protocol::Request;
use crate::queue;
use vstd::prelude::*;

verus! {

/// Nobody at the head of a queue could be served.
pub open spec fn all_served(m: BrokerModel, clock: Clock, tape: Tape) -> bool {
    forall|k: Seq<char>| #[trigger] order::blocked(m, k, clock, tape)
}

/// Walking a finite set in reverse order passes each of its members.
proof fn lemma_walk(s: Set<Seq<char>>, k: Seq<char>)
    requires
        s.finite(),
    ensures
        ordered_map::ascending_keys::<String>(s).reverse().contains(k) <==> s.contains(k),
{
    let walk = ordered_map::ascending_keys::<String>(s);
    ordered_map::lemma_ascending_walk::<String>(s);
    let back = walk.reverse();
    assert(walk.to_set().contains(k) <==> walk.contains(k));
    if walk.contains(k) {
        let i = choose|i: int| 0 <= i < walk.len() && walk[i] == k;
        assert(back[walk.len() - 1 - i] == k);
    }
    if back.contains(k) {
        let i = choose|i: int| 0 <= i < back.len() && back[i] == k;
        assert(walk[walk.len() - 1 - i] == k);
    }
}

/// A client leaves traces on finitely many keys.
proof fn lemma_touched(m: BrokerModel, c: ClientModel)
    requires
        m.locks.dom().finite(),
    ensures
        m.keys_touched(c).finite(),
{
    let pending = c.pending_request_uuids;
    let named = pending.to_set().map(|e: (Seq<char>, Seq<char>)| e.0);
    vstd::seq_lib::seq_to_set_is_finite(pending);
    pending.to_set().lemma_map_finite(|e: (Seq<char>, Seq<char>)| e.0);
    let all = named.union(m.locks.dom());
    assert(m.keys_touched(c).subset_of(all)) by {
        assert forall|k: Seq<char>| #[trigger] m.keys_touched(c).contains(k) implies all.contains(
            k,
        ) by {
            if exists|u: Seq<char>| pending.contains((k, u)) {
                let u = choose|u: Seq<char>| pending.contains((k, u));
                assert(pending.to_set().contains((k, u)));
                assert(named.contains((k, u).0));
            }
        }
    }
    vstd::set_lib::lemma_len_subset(m.keys_touched(c), all);
}

/// A key on which a client leaves no traces stays as it is when it goes.
proof fn lemma_untouched(m: BrokerModel, client: ClientId, k: Seq<char>)
    requires
        m.clients.dom().contains(client),
        m.locks.dom().contains(k),
        !m.keys_touched(m.clients[client]).contains(k),
    ensures
        m.handle_dropped(client).locks[k] == m.locks[k],
{
    let c = m.clients[client];
    let l = m.locks[k];
    let d = m.handle_dropped(client).locks[k];
    let keep = |e: (Seq<char>, PendingModel)| !c.pending_request_uuids.contains((k, e.0));
    assert forall|i: int| 0 <= i < l.queue.len() implies keep(#[trigger] l.queue[i]) by {
        if c.pending_request_uuids.contains((k, l.queue[i].0)) {
            assert(m.keys_touched(c).contains(k));
        }
    }
    queue::lemma_filter_keeps_all(l.queue, keep);
    assert(d.queue == l.queue);
    assert forall|u: Seq<char>| #[trigger]
        c.held_lock_uuids.dom().contains(u) && c.held_lock_uuids[u].keys.contains(k) implies c.held_lock_uuids[u].rw_kind
        == RwHoldKind::Exclusive && l.kept(u) by {
        if !(c.held_lock_uuids[u].rw_kind == RwHoldKind::Exclusive && l.kept(u)) {
            assert(m.keys_touched(c).contains(k));
        }
    }
    let r = l.requests_dropped(k, c.pending_request_uuids);
    assert forall|u: Seq<char>| #[trigger] r.kept(u) == l.kept(u) by {}
    assert(d.exclusive_holders =~= l.exclusive_holders);
    assert(d.readers =~= l.readers);
    assert(d.writer == l.writer);
}

/// Whenever a client is dropped, whoever can be served on the keys it leaves is
/// served: if nobody who waited could be served before, nobody can afterwards.
pub proof fn a_departure_serves_everyone_it_can(
    m: BrokerModel,
    client: ClientId,
    clock: Clock,
    tape: Tape,
)
    requires
        m.locks.dom().finite(),
        all_served(m, clock, tape),
    ensures
        all_served(m.client_dropped(client, clock, tape), clock, tape),
{
    let n = m.client_dropped(client, clock, tape);
    let connected = m.clients.dom().contains(client);
    let c = m.clients[client];
    let d = if connected {
        m.handle_dropped(client)
    } else {
        m.stranger_dropped(client)
    };
    let touched = if connected {
        m.keys_touched(c)
    } else {
        m.keys_of_stranger(client)
    };
    if connected {
        lemma_touched(m, c);
    } else {
        assert(touched.subset_of(m.locks.dom()));
        vstd::set_lib::lemma_len_subset(touched, m.locks.dom());
    }
    let stack = ordered_map::ascending_keys::<String>(touched).reverse();
    assert(d.locks.dom() =~= m.locks.dom());
    assert forall|k: Seq<char>| #[trigger] order::blocked(n, k, clock, tape) by {
        lemma_walk(touched, k);
        assert(order::blocked(m, k, clock, tape));
        if !touched.contains(k) {
            if m.locks.dom().contains(k) {
                if connected {
                    lemma_untouched(m, client, k);
                }
                assert(d.locks[k] == m.locks[k]);
            }
            order::lemma_blocked(m, d, k, clock, tape);
        }
        order::settling_serves_everyone_it_can(d, stack, clock, tape, k);
    }
}

/// Deadlines that pass touch finitely many keys, and change no others.
proof fn lemma_met(m: BrokerModel, keys: Seq<DeadlineKey>)
    requires
        m.locks.dom().finite(),
    ensures
        ({
            let met = m.deadlines_met(keys);
            &&& met.touched.finite()
            &&& met.state.locks.dom() == m.locks.dom()
            &&& met.state.fencing_watermark == m.fencing_watermark
            &&& forall|k: Seq<char>| #[trigger]
                m.locks.dom().contains(k) && !met.touched.contains(k) ==> met.state.locks[k]
                    == m.locks[k]
        }),
    decreases keys.len(),
{
    if keys.len() > 0 {
        let front = keys.drop_last();
        lemma_met(m, front);
        let before = m.deadlines_met(front);
        let met = m.deadlines_met(keys);
        let d = m.deadlines[keys.last()];
        vstd::seq_lib::seq_to_set_is_finite(d.keys);
        assert(met.state.locks.dom() =~= m.locks.dom());
        assert forall|k: Seq<char>| #[trigger]
            m.locks.dom().contains(k) && !met.touched.contains(k) implies met.state.locks[k]
            == m.locks[k] by {
            if d.keys.contains(k) {
                assert(d.keys.to_set().contains(k));
            }
            assert(!before.touched.contains(k));
            assert(before.state.locks[k] == m.locks[k]);
        }
    }
}

/// Whenever a sweep ends holds, whoever can be served on their keys is served: if
/// nobody who waited could be served before, nobody can afterwards.
pub proof fn a_sweep_serves_everyone_it_can(m: BrokerModel, now: u128, clock: Clock, tape: Tape)
    requires
        m.locks.dom().finite(),
        all_served(m, clock, tape),
    ensures
        all_served(m.swept(now, clock, tape), clock, tape),
{
    let keys = sweep::expired_keys(m.deadlines, now);
    let met = m.deadlines_met(keys);
    lemma_met(m, keys);
    let stack = ordered_map::ascending_keys::<String>(met.touched).reverse();
    let s = met.state.settled(stack, clock, tape);
    let n = m.swept(now, clock, tape);
    assert forall|k: Seq<char>| #[trigger] order::blocked(n, k, clock, tape) by {
        lemma_walk(met.touched, k);
        assert(order::blocked(m, k, clock, tape));
        if !met.touched.contains(k) {
            order::lemma_blocked(m, met.state, k, clock, tape);
        }
        order::settling_serves_everyone_it_can(met.state, stack, clock, tape, k);
        if n.locks.dom().contains(k) {
            order::lemma_blocked(s, n, k, clock, tape);
        }
    }
}

/// A lock that is given up on all its keys serves everyone it can on them: if nobody
/// who waited could be served before an unlock, nobody can afterwards.
pub proof fn a_release_serves_everyone_it_can(
    m: BrokerModel,
    client: ClientId,
    uuid: Seq<char>,
    keys: Seq<Seq<char>>,
    lock_uuid: Option<Seq<char>>,
    force: bool,
    clock: Clock,
    tape: Tape,
)
    requires
        m.locks.dom().finite(),
        all_served(m, clock, tape),
    ensures
        all_served(
            m.unlock_requested(client, uuid, keys, lock_uuid, force, clock, tape),
            clock,
            tape,
        ),
{
    let n = m.unlock_requested(client, uuid, keys, lock_uuid, force, clock, tape);
    assert forall|k: Seq<char>| #[trigger] order::blocked(n, k, clock, tape) by {
        assert(order::blocked(m, k, clock, tape));
        if keys.len() > 0 && (lock_uuid is Some || force) {
            if keys.contains(k) {
                order::an_unlock_serves_everyone_it_can(
                    m,
                    client,
                    uuid,
                    keys,
                    lock_uuid,
                    force,
                    clock,
                    tape,
                    k,
                );
            } else {
                let x = m.unlocked(client, keys, lock_uuid, force);
                assert(x.locks.dom() =~= m.locks.dom());
                order::lemma_blocked(m, x, k, clock, tape);
                order::settling_serves_everyone_it_can(x, keys.reverse(), clock, tape, k);
                order::lemma_blocked(
                    x.settled(keys.reverse(), clock, tape),
                    n,
                    k,
                    clock,
                    tape,
                );
            }
        } else {
            order::lemma_blocked(m, n, k, clock, tape);
        }
    }
}

/// The queues of `keys` are served one after the other, each until nobody in it can be.
pub open spec fn served_in_turn(
    m: BrokerModel,
    keys: Seq<Seq<char>>,
    clock: Clock,
    tape: Tape,
) -> BrokerModel
    decreases keys.len(),
{
    if keys.len() == 0 {
        m
    } else {
        served_in_turn(m.settled(seq![keys[0]], clock, tape), keys.drop_first(), clock, tape)
    }
}

/// What lies on top of a stack is served before what lies below.
proof fn lemma_stacked(
    m: BrokerModel,
    below: Seq<Seq<char>>,
    top: Seq<Seq<char>>,
    clock: Clock,
    tape: Tape,
)
    requires
        m.locks.dom().finite(),
    ensures
        m.settled(below + top, clock, tape) == m.settled(top, clock, tape).settled(
            below,
            clock,
            tape,
        ),
    decreases m.work(), top.len(),
{
    if top.len() == 0 {
        assert(below + top =~= below);
    } else {
        let key = top.last();
        let stack = below + top;
        assert(stack.last() == key);
        assert(stack.drop_last() =~= below + top.drop_last());
        model::lemma_step_shrinks(m, key, clock, tape);
        model::lemma_mark_keeps_work(m, key, clock.now);
        match m.grant_step(key, clock, tape) {
            GrantStep::Blocked => {
                lemma_stacked(m.idle_marked(key, clock.now), below, top.drop_last(), clock, tape);
            },
            GrantStep::Granted(next) => {
                lemma_stacked(next, below, top, clock, tape);
            },
            GrantStep::Moved(next, other) => {
                assert(stack.push(other) =~= below + top.push(other));
                lemma_stacked(next, below, top.push(other), clock, tape);
            },
        }
    }
}

/// A stack is served from its top.
proof fn lemma_turns(m: BrokerModel, keys: Seq<Seq<char>>, clock: Clock, tape: Tape)
    requires
        m.locks.dom().finite(),
    ensures
        m.settled(keys.reverse(), clock, tape) == served_in_turn(m, keys, clock, tape),
    decreases keys.len(),
{
    if keys.len() == 0 {
        assert(keys.reverse() =~= Seq::<Seq<char>>::empty());
    } else {
        let rest = keys.drop_first();
        assert(keys.reverse() =~= rest.reverse() + seq![keys[0]]);
        lemma_stacked(m, rest.reverse(), seq![keys[0]], clock, tape);
        laws::lemma_settled_config(m, seq![keys[0]], clock, tape);
        lemma_turns(m.settled(seq![keys[0]], clock, tape), rest, clock, tape);
    }
}

/// An unlock serves the queues of its keys in the order in which it names them, and is
/// answered when they have been served.
pub proof fn an_unlock_serves_its_keys_in_turn(
    m: BrokerModel,
    client: ClientId,
    uuid: String,
    key: Option<String>,
    keys: Option<Vec<String>>,
    lock_uuid: Option<String>,
    force: bool,
    overrides: GrantOverrides,
    clock: Clock,
    tape: Tape,
)
    requires
        m.locks.dom().finite(),
        key is Some <==> keys is None,
        keys is Some ==> keys->0@.len() > 0,
        lock_uuid is Some || force,
    ensures
        ({
            let request = Request::Unlock { uuid, key, keys, lock_uuid, force };
            let n = m.handled(client, request, overrides, clock, tape);
            let named = holds::keys_named(key, keys);
            let freed = m.unlocked(client, named, protocol::shown_text(lock_uuid), force);
            let served = served_in_turn(freed, named, clock, tape);
            &&& n.outbox.len() > 0
            &&& n.outbox.drop_last() == served.outbox
            &&& n == BrokerModel { outbox: n.outbox, ..served }
        }),
{
    let named = holds::keys_named(key, keys);
    let freed = m.unlocked(client, named, protocol::shown_text(lock_uuid), force);
    assert(freed.locks.dom() =~= m.locks.dom());
    lemma_turns(freed, named, clock, tape);
    let served = served_in_turn(freed, named, clock, tape);
    let request = Request::Unlock { uuid, key, keys, lock_uuid, force };
    let n = m.handled(client, request, overrides, clock, tape);
    assert(n.outbox.drop_last() =~= served.outbox);
}

/// A sweep serves the queues that it has freed keys of in ascending order of the keys.
pub proof fn a_sweep_serves_keys_in_order(m: BrokerModel, now: u128, clock: Clock, tape: Tape)
    requires
        m.locks.dom().finite(),
    ensures
        ({
            let sweep = m.deadlines_met(sweep::expired_keys(m.deadlines, now));
            let keys = ordered_map::ascending_keys::<String>(sweep.touched);
            m.swept(now, clock, tape).outbox == served_in_turn(
                sweep.state,
                keys,
                clock,
                tape,
            ).outbox
        }),
{
    let keys = sweep::expired_keys(m.deadlines, now);
    let sweep = m.deadlines_met(keys);
    laws::lemma_deadlines_frame(m, keys);
    assert(sweep.state.locks.dom().finite());
    lemma_turns(
        sweep.state,
        ordered_map::ascending_keys::<String>(sweep.touched),
        clock,
        tape,
    );
}

} // verus!
