//! What a sweep counts, keeps and forgets, and since when keys are idle.

use crate::broker::laws;
use crate::broker::laws::acquiring;
use crate::broker::laws::expiry;
use crate::broker::laws::granting;
use crate::broker::laws::holds;
use crate::broker::laws::Operation;
use crate::broker::model;
use crate::broker::model::{GrantStep, Tape};
use crate::broker::sweep;
use crate::broker::types::{
    BrokerModel, ClientId, Clock, DeadlineKey, DeadlineModel, LockModel, RwHoldKind,
};
use crate::ordered_map;
use crate::queue;
use vstd::prelude::*;

verus! {

/// The hold that the deadline is for has not ended on every key.
pub open spec fn still_there(m: BrokerModel, d: DeadlineModel) -> bool {
    exists|i: int|
        0 <= i < d.keys.len() && {
            let h = holds::hold(m, #[trigger] d.keys[i], d.lock_uuid);
            match d.kind {
                RwHoldKind::Exclusive => h.exclusive is Some,
                RwHoldKind::Read => h.reader is Some,
                RwHoldKind::Write => h.writer is Some,
            }
        }
}

/// The deadlines that a sweep finds passed and whose holds have not ended.
pub open spec fn expiring(m: BrokerModel, now: u128) -> Set<DeadlineKey> {
    Set::new(
        |d: DeadlineKey|
            m.deadlines.dom().contains(d) && d.at <= now && still_there(m, m.deadlines[d]),
    )
}

pub proof fn lemma_still_there(m: BrokerModel, d: DeadlineModel)
    ensures
        m.still_held(d) == still_there(m, d),
{
    let p = |l: LockModel| l.held_under(d.lock_uuid, d.kind);
    if m.still_held(d) {
        let i = choose|i: int|
            0 <= i < d.keys.len() && m.locks.dom().contains(#[trigger] d.keys[i]) && p(
                m.locks[d.keys[i]],
            );
        assert(holds::hold(m, d.keys[i], d.lock_uuid) == holds::hold_in(
            m.locks[d.keys[i]],
            d.lock_uuid,
        ));
    }
    if still_there(m, d) {
        let i = choose|i: int|
            0 <= i < d.keys.len() && {
                let h = holds::hold(m, #[trigger] d.keys[i], d.lock_uuid);
                match d.kind {
                    RwHoldKind::Exclusive => h.exclusive is Some,
                    RwHoldKind::Read => h.reader is Some,
                    RwHoldKind::Write => h.writer is Some,
                }
            };
        assert(p(m.locks[d.keys[i]]));
    }
}

/// Deadlines of other lock ids leave a hold as it is.
proof fn lemma_undisturbed(m: BrokerModel, keys: Seq<DeadlineKey>, d: DeadlineModel)
    requires
        forall|j: int| 0 <= j < keys.len() ==> m.deadlines[#[trigger] keys[j]].lock_uuid != d.lock_uuid,
    ensures
        still_there(m.deadlines_met(keys).state, d) == still_there(m, d),
{
    let s = m.deadlines_met(keys).state;
    assert forall|k: Seq<char>| #[trigger] holds::hold(s, k, d.lock_uuid) == holds::hold(
        m,
        k,
        d.lock_uuid,
    ) by {
        holds::lemma_deadlines(m, keys, k, d.lock_uuid);
        assert forall|kind: RwHoldKind| !#[trigger] holds::due_among(
            m,
            keys,
            k,
            d.lock_uuid,
            kind,
        ) by {
            if holds::due_among(m, keys, k, d.lock_uuid, kind) {
                let j = choose|j: int|
                    0 <= j < keys.len() && #[trigger] holds::due_at(
                        m,
                        keys[j],
                        k,
                        d.lock_uuid,
                        kind,
                    );
                assert(m.deadlines[keys[j]].lock_uuid == d.lock_uuid);
            }
        }
    }
    if still_there(m, d) {
        let i = choose|i: int|
            0 <= i < d.keys.len() && {
                let h = holds::hold(m, #[trigger] d.keys[i], d.lock_uuid);
                match d.kind {
                    RwHoldKind::Exclusive => h.exclusive is Some,
                    RwHoldKind::Read => h.reader is Some,
                    RwHoldKind::Write => h.writer is Some,
                }
            };
        assert(holds::hold(s, d.keys[i], d.lock_uuid) == holds::hold(m, d.keys[i], d.lock_uuid));
    }
    if still_there(s, d) {
        let i = choose|i: int|
            0 <= i < d.keys.len() && {
                let h = holds::hold(s, #[trigger] d.keys[i], d.lock_uuid);
                match d.kind {
                    RwHoldKind::Exclusive => h.exclusive is Some,
                    RwHoldKind::Read => h.reader is Some,
                    RwHoldKind::Write => h.writer is Some,
                }
            };
        assert(holds::hold(s, d.keys[i], d.lock_uuid) == holds::hold(m, d.keys[i], d.lock_uuid));
    }
}

/// How many of `keys` end a hold.
proof fn lemma_counted(m: BrokerModel, keys: Seq<DeadlineKey>)
    requires
        keys.no_duplicates(),
        forall|i: int, j: int|
            0 <= i < keys.len() && 0 <= j < keys.len() && i != j ==> m.deadlines[#[trigger] keys[i]].lock_uuid
                != m.deadlines[#[trigger] keys[j]].lock_uuid,
    ensures
        ({
            let met = m.deadlines_met(keys);
            let ended = Set::new(
                |d: DeadlineKey| keys.contains(d) && still_there(m, m.deadlines[d]),
            );
            &&& ended.finite()
            &&& met.evicted == ended.len()
            &&& met.state.ttl_evictions_total == (m.ttl_evictions_total + ended.len())
                % 0x1_0000_0000_0000_0000
        }),
    decreases keys.len(),
{
    let ended = Set::new(|d: DeadlineKey| keys.contains(d) && still_there(m, m.deadlines[d]));
    if keys.len() == 0 {
        assert(ended =~= Set::empty());
    } else {
        let front = keys.drop_last();
        let last = keys.last();
        let d = m.deadlines[last];
        let before = Set::new(|d: DeadlineKey| front.contains(d) && still_there(m, m.deadlines[d]));
        assert forall|i: int, j: int| 0 <= i < front.len() && 0 <= j < front.len() && i != j implies m.deadlines[#[trigger] front[i]].lock_uuid
            != m.deadlines[#[trigger] front[j]].lock_uuid by {
            assert(front[i] == keys[i] && front[j] == keys[j]);
        }
        lemma_counted(m, front);
        assert forall|j: int| 0 <= j < front.len() implies m.deadlines[#[trigger] front[j]].lock_uuid
            != d.lock_uuid by {
            assert(front[j] == keys[j]);
            assert(last == keys[keys.len() - 1]);
        }
        lemma_undisturbed(m, front, d);
        let s = m.deadlines_met(front).state;
        let struck = BrokerModel { deadlines: s.deadlines.remove(last), ..s };
        lemma_still_there(struck, d);
        assert(still_there(struck, d) == still_there(s, d)) by {
            assert forall|k: Seq<char>| #[trigger] holds::hold(struck, k, d.lock_uuid)
                == holds::hold(s, k, d.lock_uuid) by {}
            if still_there(s, d) {
                let i = choose|i: int|
                    0 <= i < d.keys.len() && {
                        let h = holds::hold(s, #[trigger] d.keys[i], d.lock_uuid);
                        match d.kind {
                            RwHoldKind::Exclusive => h.exclusive is Some,
                            RwHoldKind::Read => h.reader is Some,
                            RwHoldKind::Write => h.writer is Some,
                        }
                    };
                assert(holds::hold(struck, d.keys[i], d.lock_uuid) == holds::hold(
                    s,
                    d.keys[i],
                    d.lock_uuid,
                ));
            }
        }
        assert(keys =~= front.push(last));
        assert(!front.contains(last));
        assert forall|x: DeadlineKey| #[trigger] keys.contains(x) <==> front.contains(x) || x
            == last by {
            queue::lemma_contains_push(front, last, x);
        }
        if still_there(m, d) {
            assert(ended =~= before.insert(last));
        } else {
            assert(ended =~= before);
        }
    }
}

/// A sweep counts the holds that it ends: as many as there are deadlines that have
/// passed and whose holds have not ended before, if no two of these deadlines are for
/// one lock id. The total grows by as much.
pub proof fn a_sweep_counts_what_it_ends(m: BrokerModel, now: u128, clock: Clock, tape: Tape)
    requires
        m.locks.dom().finite(),
        m.deadlines.dom().finite(),
        forall|a: DeadlineKey, b: DeadlineKey|
            m.deadlines.dom().contains(a) && m.deadlines.dom().contains(b) && a != b
                ==> #[trigger] m.deadlines[a].lock_uuid != #[trigger] m.deadlines[b].lock_uuid,
    ensures
        m.sweep_count(now) == expiring(m, now).len(),
        expiring(m, now).finite(),
        m.ttl_evictions_total + expiring(m, now).len() <= u64::MAX ==> m.swept(
            now,
            clock,
            tape,
        ).ttl_evictions_total == m.ttl_evictions_total + expiring(m, now).len(),
{
    let all = Set::new(|k: DeadlineKey| m.deadlines.dom().contains(k) && k.at <= now);
    assert(all.subset_of(m.deadlines.dom()));
    vstd::set_lib::lemma_len_subset(all, m.deadlines.dom());
    ordered_map::lemma_ascending_walk::<DeadlineKey>(all);
    let keys = sweep::expired_keys(m.deadlines, now);
    assert forall|i: int, j: int| 0 <= i < keys.len() && 0 <= j < keys.len() && i != j implies m.deadlines[#[trigger] keys[i]].lock_uuid
        != m.deadlines[#[trigger] keys[j]].lock_uuid by {
        assert(keys.to_set().contains(keys[i]) && keys.to_set().contains(keys[j]));
        assert(keys[i] != keys[j]);
    }
    lemma_counted(m, keys);
    let ended = Set::new(|d: DeadlineKey| keys.contains(d) && still_there(m, m.deadlines[d]));
    assert forall|d: DeadlineKey| #[trigger] ended.contains(d) <==> expiring(m, now).contains(
        d,
    ) by {
        assert(keys.to_set().contains(d) <==> keys.contains(d));
        assert(all.contains(d) <==> keys.contains(d));
    }
    assert(ended =~= expiring(m, now));
    let met = m.deadlines_met(keys);
    let stack = ordered_map::ascending_keys::<String>(met.touched).reverse();
    laws::lemma_deadlines_frame(m, keys);
    lemma_total_stays(met.state, stack, clock, tape);
}

/// Granting evicts nobody.
proof fn lemma_total_stays(m: BrokerModel, stack: Seq<Seq<char>>, clock: Clock, tape: Tape)
    requires
        m.locks.dom().finite(),
    ensures
        m.settled(stack, clock, tape).ttl_evictions_total == m.ttl_evictions_total,
        m.settled(stack, clock, tape).idle_keys_pruned_total == m.idle_keys_pruned_total,
{
    let inv = |a: BrokerModel|
        a.ttl_evictions_total == m.ttl_evictions_total && a.idle_keys_pruned_total
            == m.idle_keys_pruned_total;
    assert(inv(m));
    laws::lemma_settled(m, stack, clock, tape, inv);
}

/// A deadline that has not passed stays, with the hold that it is for.
pub proof fn a_sweep_keeps_deadlines_to_come(
    m: BrokerModel,
    now: u128,
    clock: Clock,
    tape: Tape,
    d: DeadlineKey,
)
    requires
        m.locks.dom().finite(),
        m.deadlines.dom().finite(),
        granting::numbered(m, m.work()),
        m.deadlines.dom().contains(d),
        d.at > now,
    ensures
        m.swept(now, clock, tape).deadlines.dom().contains(d),
        m.swept(now, clock, tape).deadlines[d] == m.deadlines[d],
{
    let all = Set::new(|k: DeadlineKey| m.deadlines.dom().contains(k) && k.at <= now);
    assert(all.subset_of(m.deadlines.dom()));
    vstd::set_lib::lemma_len_subset(all, m.deadlines.dom());
    ordered_map::lemma_ascending_walk::<DeadlineKey>(all);
    let keys = sweep::expired_keys(m.deadlines, now);
    let met = m.deadlines_met(keys);
    expiry::lemma_struck_off(m, keys);
    granting::lemma_met(m, keys);
    granting::lemma_same_queues(m, met.state, Operation::Sweep { now, clock });
    let stack = ordered_map::ascending_keys::<String>(met.touched).reverse();
    granting::every_grant_to_a_waiter_has_its_deadline(met.state, stack, clock, tape);
    assert(!keys.to_set().contains(d));
    assert(met.state.deadlines.dom().contains(d));
}

/// The key has neither holders nor waiters, and has been so for the grace period.
pub open spec fn idle_long_enough(m: BrokerModel, key: Seq<char>, now: u128) -> bool {
    let l = m.locks[key];
    &&& m.config.idle_key_grace > 0
    &&& acquiring::held_by_nobody(l)
    &&& l.queue.len() == 0
    &&& l.timestamp_emptied is Some
    &&& l.timestamp_emptied->0 + m.config.idle_key_grace * 1_000_000 <= now
}

/// A sweep forgets exactly the keys that have been idle for the grace period, counts
/// them, and leaves the others; a grace period of zero keeps every key. Stated where
/// no deadline has passed, so that the sweep grants nothing.
pub proof fn a_sweep_forgets_idle_keys(m: BrokerModel, now: u128, clock: Clock, tape: Tape)
    requires
        m.locks.dom().finite(),
        forall|d: DeadlineKey| #[trigger] m.deadlines.dom().contains(d) ==> now < d.at,
    ensures
        ({
            let n = m.swept(now, clock, tape);
            let gone = Set::new(
                |k: Seq<char>| m.locks.dom().contains(k) && idle_long_enough(m, k, now),
            );
            &&& n == BrokerModel {
                locks: n.locks,
                idle_keys_pruned_total: n.idle_keys_pruned_total,
                ..m
            }
            &&& n.locks.dom() == m.locks.dom().difference(gone)
            &&& forall|k: Seq<char>| #[trigger]
                n.locks.dom().contains(k) ==> n.locks[k] == m.locks[k]
            &&& m.idle_keys_pruned_total + gone.len() <= u64::MAX ==> n.idle_keys_pruned_total
                == m.idle_keys_pruned_total + gone.len()
        }),
{
    let n = m.swept(now, clock, tape);
    let gone = Set::new(|k: Seq<char>| m.locks.dom().contains(k) && idle_long_enough(m, k, now));
    expiry::a_sweep_before_every_deadline_evicts_nobody(m, now, clock, tape);
    assert(n == m.pruned(now));
    let grace = m.config.idle_key_grace * 1_000_000;
    assert forall|k: Seq<char>| m.locks.dom().contains(k) implies #[trigger] idle_long_enough(
        m,
        k,
        now,
    ) == (grace > 0 && now >= grace && m.locks[k].idle_since(now - grace)) by {
        acquiring::lemma_vacant(m.locks[k]);
    }
    assert(gone.subset_of(m.locks.dom()));
    vstd::set_lib::lemma_len_subset(gone, m.locks.dom());
    if grace > 0 && now >= grace {
        let pruned = Set::new(
            |k: Seq<char>| m.locks.dom().contains(k) && m.locks[k].idle_since(now - grace),
        );
        assert(pruned =~= gone) by {
            assert forall|k: Seq<char>| #[trigger] pruned.contains(k) <==> gone.contains(k) by {
                if m.locks.dom().contains(k) {
                    assert(idle_long_enough(m, k, now) == (grace > 0 && now >= grace
                        && m.locks[k].idle_since(now - grace)));
                }
            }
        }
        assert(n.locks =~= m.locks.remove_keys(gone));
        assert(n.locks.dom() =~= m.locks.dom().difference(gone));
        if m.idle_keys_pruned_total + gone.len() <= u64::MAX {
            assert((m.idle_keys_pruned_total + gone.len()) % 0x1_0000_0000_0000_0000
                == m.idle_keys_pruned_total + gone.len());
        }
    } else {
        assert(gone =~= Set::empty()) by {
            assert forall|k: Seq<char>| !#[trigger] gone.contains(k) by {
                if m.locks.dom().contains(k) {
                    assert(idle_long_enough(m, k, now) == (grace > 0 && now >= grace
                        && m.locks[k].idle_since(now - grace)));
                }
            }
        }
        assert(n.locks.dom() =~= m.locks.dom().difference(gone));
    }
}

/// The key, if it exists, is marked as idle exactly if nobody holds or awaits it.
pub open spec fn mark_is_right(m: BrokerModel, key: Seq<char>) -> bool {
    m.locks.dom().contains(key) ==> (m.locks[key].timestamp_emptied is Some
        <==> acquiring::held_by_nobody(m.locks[key]) && m.locks[key].queue.len() == 0)
}

/// Granting marks the keys that it looks at: those that nobody holds or awaits are
/// idle, the others are not. Other marks that were right stay right.
pub proof fn granting_marks_idle_keys(
    m: BrokerModel,
    stack: Seq<Seq<char>>,
    clock: Clock,
    tape: Tape,
    key: Seq<char>,
)
    requires
        m.locks.dom().finite(),
        stack.contains(key) || mark_is_right(m, key),
    ensures
        mark_is_right(m.settled(stack, clock, tape), key),
    decreases m.work(), stack.len(),
{
    if stack.len() > 0 {
        let top = stack.last();
        let rest = stack.drop_last();
        assert(stack =~= rest.push(top));
        queue::lemma_contains_push(rest, top, key);
        model::lemma_step_shrinks(m, top, clock, tape);
        model::lemma_mark_keeps_work(m, top, clock.now);
        match m.grant_step(top, clock, tape) {
            GrantStep::Blocked => {
                let n = m.idle_marked(top, clock.now);
                if m.locks.dom().contains(top) {
                    acquiring::lemma_vacant(m.locks[top]);
                    acquiring::lemma_vacant(n.locks[top]);
                }
                granting_marks_idle_keys(n, rest, clock, tape, key);
            },
            GrantStep::Granted(n) => {
                granting_marks_idle_keys(n, stack, clock, tape, key);
            },
            GrantStep::Moved(n, other) => {
                queue::lemma_contains_push(stack, other, key);
                laws::lemma_moved(m, top, clock, tape);
                granting_marks_idle_keys(n, stack.push(other), clock, tape, key);
            },
        }
    }
}

/// Granting marks a key as idle since now, unless it was marked before.
pub proof fn keys_are_idle_since_they_fell_idle(
    m: BrokerModel,
    stack: Seq<Seq<char>>,
    clock: Clock,
    tape: Tape,
    key: Seq<char>,
)
    requires
        m.locks.dom().finite(),
    ensures
        ({
            let n = m.settled(stack, clock, tape);
            n.locks.dom().contains(key) ==> (n.locks[key].timestamp_emptied matches Some(t) ==> t
                == clock.now || (m.locks.dom().contains(key) && m.locks[key].timestamp_emptied
                == Some(t)))
        }),
{
    let inv = |a: BrokerModel|
        a.locks.dom().contains(key) ==> (a.locks[key].timestamp_emptied matches Some(t) ==> t
            == clock.now || (m.locks.dom().contains(key) && m.locks[key].timestamp_emptied == Some(
            t,
        )));
    assert forall|a: BrokerModel, k: Seq<char>|
        a.locks.dom().finite() && #[trigger] inv(a) implies match #[trigger] a.grant_step(
        k,
        clock,
        tape,
    ) {
        GrantStep::Blocked => true,
        GrantStep::Granted(n) => inv(n),
        GrantStep::Moved(n, _) => inv(n),
    } by {
        match a.grant_step(k, clock, tape) {
            GrantStep::Blocked => {},
            GrantStep::Granted(n) => {},
            GrantStep::Moved(n, other) => {
                laws::lemma_moved(a, k, clock, tape);
            },
        }
    }
    assert(inv(m));
    laws::lemma_settled(m, stack, clock, tape, inv);
}

/// The deadline at `d` is for what `client` has under `id`, and has something to end.
pub open spec fn ends_for(m: BrokerModel, d: DeadlineKey, client: ClientId, id: Seq<char>) -> bool {
    m.deadlines[d].lock_uuid == id && m.deadlines[d].client == client && still_there(
        m,
        m.deadlines[d],
    )
}

/// What deadlines that pass strike off the books.
proof fn lemma_booked(m: BrokerModel, keys: Seq<DeadlineKey>, c: ClientId, id: Seq<char>)
    requires
        forall|i: int, j: int|
            0 <= i < j < keys.len() && m.deadlines[#[trigger] keys[i]].lock_uuid == id
                ==> m.deadlines[#[trigger] keys[j]].lock_uuid != id,
    ensures
        holds::listed(m.deadlines_met(keys).state, c, id) == if exists|j: int|
            0 <= j < keys.len() && #[trigger] ends_for(m, keys[j], c, id) {
            None
        } else {
            holds::listed(m, c, id)
        },
    decreases keys.len(),
{
    if keys.len() > 0 {
        let front = keys.drop_last();
        let last = keys.last();
        let d = m.deadlines[last];
        assert forall|i: int, j: int|
            0 <= i < j < front.len() && m.deadlines[#[trigger] front[i]].lock_uuid
                == id implies m.deadlines[#[trigger] front[j]].lock_uuid != id by {
            assert(front[i] == keys[i] && front[j] == keys[j]);
        }
        lemma_booked(m, front, c, id);
        let s = m.deadlines_met(front).state;
        let passed = BrokerModel { deadlines: s.deadlines.remove(last), ..s };
        let n = m.deadlines_met(keys).state;
        assert(holds::listed(passed, c, id) == holds::listed(s, c, id));
        assert forall|j: int| 0 <= j < front.len() implies #[trigger] front[j] == keys[j] by {
        }
        if exists|j: int| 0 <= j < front.len() && #[trigger] ends_for(m, front[j], c, id) {
            let j = choose|j: int| 0 <= j < front.len() && #[trigger] ends_for(m, front[j], c, id);
            assert(ends_for(m, keys[j], c, id));
        }
        if d.lock_uuid == id {
            assert forall|j: int| 0 <= j < front.len() implies m.deadlines[#[trigger] front[j]].lock_uuid
                != id by {
                assert(front[j] == keys[j]);
                assert(last == keys[keys.len() - 1]);
            }
            lemma_undisturbed(m, front, d);
            lemma_still_there(passed, d);
            lemma_same_holds(s, passed, d);
            if still_there(m, d) {
                assert(passed.still_held(d));
                assert(n == passed.deadline_met(d));
                if d.client == c {
                    assert(ends_for(m, keys[keys.len() - 1], c, id));
                } else {
                    assert(holds::listed(n, c, id) == holds::listed(s, c, id));
                }
            } else {
                assert(!passed.still_held(d));
                assert(n == passed);
            }
        } else {
            assert(holds::listed(n, c, id) == holds::listed(s, c, id));
        }
        if exists|j: int| 0 <= j < keys.len() && #[trigger] ends_for(m, keys[j], c, id) {
            let j = choose|j: int| 0 <= j < keys.len() && #[trigger] ends_for(m, keys[j], c, id);
            if j < front.len() {
                assert(ends_for(m, front[j], c, id));
            }
        }
    }
}

/// Whether a hold has ended depends on the holds alone.
proof fn lemma_same_holds(m: BrokerModel, n: BrokerModel, d: DeadlineModel)
    requires
        n.locks == m.locks,
    ensures
        still_there(n, d) == still_there(m, d),
{
    assert forall|k: Seq<char>| #[trigger] holds::hold(n, k, d.lock_uuid) == holds::hold(
        m,
        k,
        d.lock_uuid,
    ) by {}
    if still_there(m, d) {
        let i = choose|i: int|
            0 <= i < d.keys.len() && {
                let h = holds::hold(m, #[trigger] d.keys[i], d.lock_uuid);
                match d.kind {
                    RwHoldKind::Exclusive => h.exclusive is Some,
                    RwHoldKind::Read => h.reader is Some,
                    RwHoldKind::Write => h.writer is Some,
                }
            };
        assert(holds::hold(n, d.keys[i], d.lock_uuid) == holds::hold(m, d.keys[i], d.lock_uuid));
    }
    if still_there(n, d) {
        let i = choose|i: int|
            0 <= i < d.keys.len() && {
                let h = holds::hold(n, #[trigger] d.keys[i], d.lock_uuid);
                match d.kind {
                    RwHoldKind::Exclusive => h.exclusive is Some,
                    RwHoldKind::Read => h.reader is Some,
                    RwHoldKind::Write => h.writer is Some,
                }
            };
        assert(holds::hold(n, d.keys[i], d.lock_uuid) == holds::hold(m, d.keys[i], d.lock_uuid));
    }
}

/// A sweep strikes what it ends off the books of the client that the deadline names, and
/// nothing else off anybody's.
pub proof fn a_sweep_is_booked(
    m: BrokerModel,
    now: u128,
    clock: Clock,
    tape: Tape,
    id: Seq<char>,
)
    requires
        m.locks.dom().finite(),
        m.deadlines.dom().finite(),
        holds::unclaimed(m, tape, id),
        forall|a: DeadlineKey, b: DeadlineKey|
            m.deadlines.dom().contains(a) && m.deadlines.dom().contains(b) && a != b
                && #[trigger] m.deadlines[a].lock_uuid == id ==> #[trigger] m.deadlines[b].lock_uuid
                != id,
    ensures
        forall|c: ClientId| #[trigger]
            holds::listed(m.swept(now, clock, tape), c, id) == if exists|d: DeadlineKey|
                m.deadlines.dom().contains(d) && d.at <= now && #[trigger] ends_for(m, d, c, id) {
                None
            } else {
                holds::listed(m, c, id)
            },
{
    let all = Set::new(|k: DeadlineKey| m.deadlines.dom().contains(k) && k.at <= now);
    assert(all.subset_of(m.deadlines.dom()));
    vstd::set_lib::lemma_len_subset(all, m.deadlines.dom());
    ordered_map::lemma_ascending_walk::<DeadlineKey>(all);
    let keys = sweep::expired_keys(m.deadlines, now);
    assert(keys.to_set() == all);
    let met = m.deadlines_met(keys);
    holds::lemma_deadlines(m, keys, id, id);
    assert forall|k: Seq<char>, i: int|
        met.state.locks.dom().contains(k) && 0 <= i
            < met.state.locks[k].queue.len() implies m.locks.dom().contains(k)
        && m.locks[k].queue.contains(#[trigger] met.state.locks[k].queue[i]) by {
        assert(m.locks[k].queue[i] == met.state.locks[k].queue[i]);
    }
    holds::lemma_unclaimed(m, met.state, tape, id);
    let stack = ordered_map::ascending_keys::<String>(met.touched).reverse();
    holds::grants_leave_other_holds_alone(met.state, stack, clock, tape, id);
    let s = met.state.settled(stack, clock, tape);
    let n = m.swept(now, clock, tape);
    assert forall|i: int, j: int|
        0 <= i < j < keys.len() && m.deadlines[#[trigger] keys[i]].lock_uuid
            == id implies m.deadlines[#[trigger] keys[j]].lock_uuid != id by {
        assert(keys.to_set().contains(keys[i]) && keys.to_set().contains(keys[j]));
        assert(keys[i] != keys[j]);
    }
    assert forall|c: ClientId| #[trigger]
        holds::listed(n, c, id) == if exists|d: DeadlineKey|
            m.deadlines.dom().contains(d) && d.at <= now && #[trigger] ends_for(m, d, c, id) {
            None
        } else {
            holds::listed(m, c, id)
        } by {
        lemma_booked(m, keys, c, id);
        assert(n.clients == s.clients);
        assert(holds::listed(n, c, id) == holds::listed(s, c, id));
        assert(holds::listed(s, c, id) == holds::listed(met.state, c, id));
        if exists|d: DeadlineKey|
            m.deadlines.dom().contains(d) && d.at <= now && #[trigger] ends_for(m, d, c, id) {
            let d = choose|d: DeadlineKey|
                m.deadlines.dom().contains(d) && d.at <= now && #[trigger] ends_for(m, d, c, id);
            assert(all.contains(d));
            assert(keys.to_set().contains(d));
            let j = choose|j: int| 0 <= j < keys.len() && keys[j] == d;
            assert(ends_for(m, keys[j], c, id));
        }
        if exists|j: int| 0 <= j < keys.len() && #[trigger] ends_for(m, keys[j], c, id) {
            let j = choose|j: int| 0 <= j < keys.len() && #[trigger] ends_for(m, keys[j], c, id);
            assert(keys.to_set().contains(keys[j]));
        }
    }
}

} // verus!
