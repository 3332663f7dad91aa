//! Waiters of one key are served in the order of its queue.

use crate::broker::acquire;
use crate::broker::acquire::CompositeLockRequest;
use crate::broker::laws;
use crate::broker::laws::Operation;
use crate::broker::model::{GrantStep, Tape};
use crate::broker::sweep;
use crate::broker::types::{
    BrokerConfig, BrokerModel, ClientId, Clock, DeadlineKey, GrantOverrides, KindModel, PendingModel,
};
use crate::ordered_map;
use crate::protocol;
use crate::protocol::{Request, MAX_COMPOSITE_KEYS};
use vstd::prelude::*;

verus! {

/// Who waits on `key`, in order.
pub open spec fn waiters(m: BrokerModel, key: Seq<char>) -> Seq<(Seq<char>, PendingModel)> {
    if m.locks.dom().contains(key) {
        m.locks[key].queue
    } else {
        Seq::empty()
    }
}

/// The first `n` of `q` are gone; the others stand at the head of `r`, in the
/// same order.
pub open spec fn gone_from_the_head(
    q: Seq<(Seq<char>, PendingModel)>,
    r: Seq<(Seq<char>, PendingModel)>,
    n: int,
) -> bool {
    &&& 0 <= n <= q.len() <= r.len() + n
    &&& forall|i: int| n <= i < q.len() ==> #[trigger] q[i] == r[i - n]
}

/// `r` is what `q` becomes when waiters leave from the head alone and join at
/// the end alone.
pub open spec fn in_turn(
    q: Seq<(Seq<char>, PendingModel)>,
    r: Seq<(Seq<char>, PendingModel)>,
) -> bool {
    exists|n: int| #[trigger] gone_from_the_head(q, r, n)
}

proof fn lemma_transitive(
    q: Seq<(Seq<char>, PendingModel)>,
    r: Seq<(Seq<char>, PendingModel)>,
    s: Seq<(Seq<char>, PendingModel)>,
)
    requires
        in_turn(q, r),
        in_turn(r, s),
    ensures
        in_turn(q, s),
{
    let a = choose|n: int| #[trigger] gone_from_the_head(q, r, n);
    let b = choose|n: int| #[trigger] gone_from_the_head(r, s, n);
    if a + b <= q.len() {
        assert forall|i: int| a + b <= i < q.len() implies #[trigger] q[i] == s[i - (a + b)] by {
            assert(q[i] == r[i - a]);
            assert(r[i - a] == s[i - a - b]);
        }
        assert(gone_from_the_head(q, s, a + b));
    } else {
        assert(gone_from_the_head(q, s, q.len() as int));
    }
}

proof fn lemma_same(q: Seq<(Seq<char>, PendingModel)>)
    ensures
        in_turn(q, q),
        q.len() > 0 ==> in_turn(q, q.drop_first()),
        forall|e: (Seq<char>, PendingModel)| in_turn(q, #[trigger] q.push(e)),
{
    assert(gone_from_the_head(q, q, 0));
    if q.len() > 0 {
        assert(gone_from_the_head(q, q.drop_first(), 1));
    }
    assert forall|e: (Seq<char>, PendingModel)| in_turn(q, #[trigger] q.push(e)) by {
        assert(gone_from_the_head(q, q.push(e), 0));
    }
}

/// One grant takes from the head.
proof fn lemma_step(m: BrokerModel, at: Seq<char>, clock: Clock, tape: Tape, key: Seq<char>)
    ensures
        match m.grant_step(at, clock, tape) {
            GrantStep::Blocked => true,
            GrantStep::Granted(n) => in_turn(waiters(m, key), waiters(n, key)),
            GrantStep::Moved(n, _) => in_turn(waiters(m, key), waiters(n, key)),
        },
{
    lemma_same(waiters(m, key));
    match m.grant_step(at, clock, tape) {
        GrantStep::Blocked => {},
        GrantStep::Granted(n) => {
            if key == at {
                assert(waiters(n, key) == waiters(m, key).drop_first());
            } else {
                assert(waiters(n, key) == waiters(m, key));
            }
        },
        GrantStep::Moved(n, other) => {
            laws::lemma_moved(m, at, clock, tape);
            let t = laws::taken(m, at);
            let p = m.locks[at].queue[0].1;
            let held = m.with_lock(at, t).observed(
                t.exclusive_holders[p.kind->composite_lock_uuid].fencing_token,
            );
            let moved = choose|q: PendingModel| #[trigger]
                n.locks == held.locks.insert(
                    other,
                    held.lock_or_fresh(other, clock.wall_ms).enqueued(q, false),
                ) && laws::continues(p, at, t, q);
            assert(waiters(held, key) == if key == at {
                waiters(m, key).drop_first()
            } else {
                waiters(m, key)
            });
            lemma_same(waiters(held, key));
            let e = (moved.request_uuid, moved);
            assert(waiters(n, key) == waiters(held, key) || waiters(n, key) == waiters(
                held,
                key,
            ).push(e));
            lemma_transitive(waiters(m, key), waiters(held, key), waiters(n, key));
        },
    }
}

/// Settling serves from the head.
proof fn lemma_settle(
    m: BrokerModel,
    stack: Seq<Seq<char>>,
    clock: Clock,
    tape: Tape,
    key: Seq<char>,
)
    requires
        m.locks.dom().finite(),
    ensures
        in_turn(waiters(m, key), waiters(m.settled(stack, clock, tape), key)),
{
    let inv = |a: BrokerModel| in_turn(waiters(m, key), waiters(a, key));
    assert forall|a: BrokerModel, k: Seq<char>|
        a.locks.dom().finite() && #[trigger] inv(a) implies match #[trigger] a.grant_step(
        k,
        clock,
        tape,
    ) {
        GrantStep::Blocked => true,
        GrantStep::Granted(n) => inv(n),
        GrantStep::Moved(n, _) => inv(n),
    } by {
        lemma_step(a, k, clock, tape, key);
        match a.grant_step(k, clock, tape) {
            GrantStep::Blocked => {},
            GrantStep::Granted(n) => {
                lemma_transitive(waiters(m, key), waiters(a, key), waiters(n, key));
            },
            GrantStep::Moved(n, _) => {
                lemma_transitive(waiters(m, key), waiters(a, key), waiters(n, key));
            },
        }
    }
    assert forall|a: BrokerModel, k: Seq<char>| #[trigger] inv(a) implies inv(
        #[trigger] a.idle_marked(k, clock.now),
    ) by {
        assert(waiters(a.idle_marked(k, clock.now), key) == waiters(a, key));
    }
    lemma_same(waiters(m, key));
    assert(inv(m));
    laws::lemma_settled(m, stack, clock, tape, inv);
}

/// Settling after a change that leaves the queues alone serves from the head.
proof fn lemma_changed(
    m: BrokerModel,
    n: BrokerModel,
    stack: Seq<Seq<char>>,
    clock: Clock,
    tape: Tape,
    key: Seq<char>,
)
    requires
        n.locks.dom().finite(),
        waiters(n, key) == waiters(m, key),
    ensures
        in_turn(waiters(m, key), waiters(n.settled(stack, clock, tape), key)),
{
    lemma_settle(n, stack, clock, tape, key);
}

/// A multi-key lock request keeps the order of every queue.
proof fn lemma_composite(
    m: BrokerModel,
    r: CompositeLockRequest,
    clock: Clock,
    tape: Tape,
    key: Seq<char>,
)
    requires
        m.locks.dom().finite(),
    ensures
        in_turn(waiters(m, key), waiters(m.composite_requested(r, clock, tape), key)),
{
    let asked = ordered_map::views(r.keys@);
    let keys = ordered_map::sorted_distinct(asked);
    let n = m.composite_requested(r, clock, tape);
    let given = protocol::shown_text(r.grant_overrides.lock_uuid);
    laws::lemma_composite_cases(m, r, clock, tape);
    lemma_same(waiters(m, key));
    if asked.len() == 0 || asked.len() > MAX_COMPOSITE_KEYS {
    } else if m.all_vacant(keys) {
        let held = laws::composite_granted(m, r, clock, tape);
        laws::lemma_members_frame(
            m.id_taken(given),
            keys,
            keys.len(),
            m.grant_id(given, tape),
            r.client,
            r.pid,
            r.grant_overrides.fencing_seed,
            clock.wall_ms,
        );
        laws::lemma_marks_frame(held.state.observed(held.top), keys, keys.len(), clock.now);
        assert(waiters(n, key) == waiters(m, key));
    } else if r.wait {
        let joined = laws::composite_queued(m, r, clock, tape);
        let p = joined.locks[keys[0]].queue.last().1;
        assert(joined.locks.dom() =~= m.locks.dom().insert(keys[0]));
        assert(waiters(joined, key) == waiters(m, key) || waiters(joined, key) == waiters(
            m,
            key,
        ).push((p.request_uuid, p)));
        lemma_settle(joined, seq![keys[0]], clock, tape, key);
        lemma_transitive(waiters(m, key), waiters(joined, key), waiters(n, key));
    }
}

/// Whether a request may go before those who wait.
pub open spec fn forced(request: Request) -> bool {
    request matches Request::Lock { key: Some(_), keys: None, force: true, .. }
}

/// A request that is not forced keeps the order of every queue.
proof fn lemma_request(
    m: BrokerModel,
    client: ClientId,
    request: Request,
    overrides: GrantOverrides,
    clock: Clock,
    tape: Tape,
    key: Seq<char>,
)
    requires
        m.locks.dom().finite(),
        !forced(request),
    ensures
        in_turn(waiters(m, key), waiters(m.handled(client, request, overrides, clock, tape), key)),
{
    let n = m.handled(client, request, overrides, clock, tape);
    let given = protocol::shown_text(overrides.lock_uuid);
    lemma_same(waiters(m, key));
    match request {
        Request::Lock {
            uuid,
            key: one,
            keys,
            pid,
            ttl,
            max,
            keep_locks_after_death,
            wait,
            ..
        } => {
            let waits = wait matches Some(w) ==> w;
            if max != Some(0u32) {
                if let (Some(k), None) = (one, keys) {
                    let p = PendingModel {
                        request_uuid: uuid@,
                        client,
                        pid,
                        ttl,
                        grant_lock_uuid: given,
                        grant_fencing_seed: overrides.fencing_seed,
                        keep_locks_after_death,
                        kind: KindModel::Exclusive,
                    };
                    assert(waiters(n, key) == waiters(m, key) || waiters(n, key) == waiters(
                        m,
                        key,
                    ).push((uuid@, p)));
                }
                if let (None, Some(ks)) = (one, keys) {
                    lemma_composite(
                        m,
                        CompositeLockRequest {
                            client,
                            uuid,
                            keys: ks,
                            pid,
                            ttl,
                            wait: waits,
                            grant_overrides: overrides,
                        },
                        clock,
                        tape,
                        key,
                    );
                }
            }
        },
        Request::Unlock { uuid, key: one, keys, lock_uuid, force } => {
            let target = protocol::shown_text(lock_uuid);
            if let (Some(k), None) = (one, keys) {
                let freed = m.unlocked(client, seq![k@], target, force);
                assert(freed.locks.dom() =~= m.locks.dom());
                lemma_changed(m, freed, seq![k@].reverse(), clock, tape, key);
            }
            if let (None, Some(ks)) = (one, keys) {
                let all = ordered_map::views(ks@);
                let freed = m.unlocked(client, all, target, force);
                assert(freed.locks.dom() =~= m.locks.dom());
                lemma_changed(m, freed, all.reverse(), clock, tape, key);
            }
        },
        Request::RegisterRead { uuid, key: k } => {
            let p = acquire::waiting(client, uuid@, given, overrides.fencing_seed, KindModel::Reader);
            assert(waiters(n, key) == waiters(m, key) || waiters(n, key) == waiters(m, key).push(
                (uuid@, p),
            ));
        },
        Request::RegisterWrite { uuid, key: k } => {
            let p = acquire::waiting(client, uuid@, given, overrides.fencing_seed, KindModel::Writer);
            assert(waiters(n, key) == waiters(m, key) || waiters(n, key) == waiters(m, key).push(
                (uuid@, p),
            ));
        },
        Request::EndRead { uuid, key: k } => {
            if m.locks.dom().contains(k@) {
                let freed = m.read_released(client, uuid@, k@);
                assert(freed.locks.dom() =~= m.locks.dom());
                lemma_changed(m, freed, seq![k@], clock, tape, key);
            }
        },
        Request::EndWrite { uuid, key: k } => {
            if m.locks.dom().contains(k@) {
                let freed = m.write_released(client, uuid@, k@);
                assert(freed.locks.dom() =~= m.locks.dom());
                lemma_changed(m, freed, seq![k@], clock, tape, key);
            }
        },
        _ => {},
    }
}

/// Deadlines that pass leave the queues alone.
proof fn lemma_deadlines(m: BrokerModel, keys: Seq<DeadlineKey>, key: Seq<char>)
    requires
        m.locks.dom().finite(),
    ensures
        waiters(m.deadlines_met(keys).state, key) == waiters(m, key),
        m.deadlines_met(keys).state.locks.dom() == m.locks.dom(),
    decreases keys.len(),
{
    laws::lemma_deadlines_frame(m, keys);
    if keys.len() > 0 {
        lemma_deadlines(m, keys.drop_last(), key);
        laws::lemma_deadlines_frame(m, keys.drop_last());
    }
}

/// Those who wait on `key` and are not taken from its queue by the departure of
/// their client.
pub open spec fn staying(
    m: BrokerModel,
    op: Operation,
    key: Seq<char>,
) -> Seq<(Seq<char>, PendingModel)> {
    match op {
        Operation::Drop { client, .. } => waiters(m, key).filter(
            |e: (Seq<char>, PendingModel)|
                if m.clients.dom().contains(client) {
                    !m.clients[client].pending_request_uuids.contains((key, e.0))
                } else {
                    e.1.client != client
                },
        ),
        _ => waiters(m, key),
    }
}

/// Whether an operation is a request that may go before those who wait.
pub open spec fn jumps(op: Operation) -> bool {
    op matches Operation::Request { request, .. } && forced(request)
}

/// Waiters of one key are served in turn: whatever happens, those who leave its
/// queue do so from the head, and those who come join at the end, but for
/// departed clients and forced requests.
pub proof fn waiters_are_served_in_turn(
    m: BrokerModel,
    op: Operation,
    tape: Tape,
    key: Seq<char>,
)
    requires
        m.locks.dom().finite(),
        !jumps(op),
    ensures
        in_turn(staying(m, op, key), waiters(laws::after(m, op, tape), key)),
{
    lemma_same(waiters(m, key));
    match op {
        Operation::Request { client, request, overrides, clock } => {
            lemma_request(m, client, request, overrides, clock, tape, key);
        },
        Operation::Drop { client, clock } => {
            if m.clients.dom().contains(client) {
                let c = m.clients[client];
                let left = m.handle_dropped(client);
                assert(left.locks.dom() =~= m.locks.dom());
                let keeps = |e: (Seq<char>, PendingModel)|
                    !c.pending_request_uuids.contains((key, e.0));
                lemma_filters(m, op, key, keeps);
                assert(waiters(left, key) == staying(m, op, key));
                lemma_settle(
                    left,
                    ordered_map::ascending_keys::<String>(m.keys_touched(c)).reverse(),
                    clock,
                    tape,
                    key,
                );
            } else {
                let left = m.stranger_dropped(client);
                assert(left.locks.dom() =~= m.locks.dom());
                let keeps = |e: (Seq<char>, PendingModel)| e.1.client != client;
                lemma_filters(m, op, key, keeps);
                assert(waiters(left, key) == staying(m, op, key));
                lemma_settle(
                    left,
                    ordered_map::ascending_keys::<String>(m.keys_of_stranger(client)).reverse(),
                    clock,
                    tape,
                    key,
                );
            }
        },
        Operation::Sweep { now, clock } => {
            let keys = sweep::expired_keys(m.deadlines, now);
            let met = m.deadlines_met(keys);
            lemma_deadlines(m, keys, key);
            let stack = ordered_map::ascending_keys::<String>(met.touched).reverse();
            lemma_changed(m, met.state, stack, clock, tape, key);
            let s = met.state.settled(stack, clock, tape);
            assert(waiters(s.pruned(now), key) == waiters(s, key));
        },
        Operation::DetachOwner { lock_uuid } => {
            assert(waiters(m.owner_detached(lock_uuid), key) == waiters(m, key));
        },
        _ => {},
    }
}

/// Filters that agree keep the same waiters.
proof fn lemma_filters(
    m: BrokerModel,
    op: Operation,
    key: Seq<char>,
    keeps: spec_fn((Seq<char>, PendingModel)) -> bool,
)
    requires
        op matches Operation::Drop { client, .. } && forall|e: (Seq<char>, PendingModel)|
            #[trigger]
            keeps(e) == if m.clients.dom().contains(client) {
                !m.clients[client].pending_request_uuids.contains((key, e.0))
            } else {
                e.1.client != client
            },
    ensures
        staying(m, op, key) == waiters(m, key).filter(keeps),
        waiters(m, key).len() == 0 ==> staying(m, op, key).len() == 0,
{
    if let Operation::Drop { client, .. } = op {
        let f = |e: (Seq<char>, PendingModel)|
            if m.clients.dom().contains(client) {
                !m.clients[client].pending_request_uuids.contains((key, e.0))
            } else {
                e.1.client != client
            };
        assert(f =~= keeps);
        reveal(Seq::filter);
    }
}

/// A forced request goes before those who wait, and changes nothing else about
/// their order.
pub proof fn a_forced_request_goes_first(
    m: BrokerModel,
    client: ClientId,
    request: Request,
    overrides: GrantOverrides,
    clock: Clock,
    tape: Tape,
    key: Seq<char>,
)
    requires
        forced(request),
    ensures
        ({
            let q = waiters(m, key);
            let r = waiters(m.handled(client, request, overrides, clock, tape), key);
            ||| r == q
            ||| {
                &&& r.len() == q.len() + 1
                &&& r.drop_first() == q
                &&& request matches Request::Lock { uuid, key: Some(k), .. }
                &&& r[0].0 == uuid@
                &&& key == k@
            }
        }),
{
    let n = m.handled(client, request, overrides, clock, tape);
    let q = waiters(m, key);
    let r = waiters(n, key);
    if r != q {
        assert(r.drop_first() =~= q);
    }
}

/// Over time, too, waiters of one key are served in turn, as long as no client
/// departs and no request is forced.
pub proof fn turns_are_kept(
    config: BrokerConfig,
    ops: Seq<Operation>,
    tape: Tape,
    i: int,
    key: Seq<char>,
)
    requires
        0 <= i <= ops.len(),
        forall|j: int|
            i <= j < ops.len() ==> !jumps(#[trigger] ops[j]) && !(ops[j] is Drop),
    ensures
        in_turn(
            waiters(laws::run(config, ops.take(i), tape), key),
            waiters(laws::run(config, ops, tape), key),
        ),
    decreases ops.len(),
{
    let start = waiters(laws::run(config, ops.take(i), tape), key);
    if i == ops.len() {
        assert(ops.take(i) =~= ops);
        lemma_same(start);
    } else {
        let before = ops.drop_last();
        assert(before.take(i) =~= ops.take(i));
        turns_are_kept(config, before, tape, i, key);
        lemma_finite(config, before, tape);
        let m = laws::run(config, before, tape);
        waiters_are_served_in_turn(m, ops.last(), tape, key);
        lemma_transitive(start, waiters(m, key), waiters(laws::run(config, ops, tape), key));
    }
}

proof fn lemma_finite(config: BrokerConfig, ops: Seq<Operation>, tape: Tape)
    ensures
        laws::run(config, ops, tape).locks.dom().finite(),
    decreases ops.len(),
{
    if ops.len() > 0 {
        lemma_finite(config, ops.drop_last(), tape);
        laws::lemma_config(laws::run(config, ops.drop_last(), tape), ops.last(), tape);
    }
}

} // verus!
