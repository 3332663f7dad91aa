//! When holds end by themselves.

use crate::broker::laws;
use crate::broker::model::{GrantStep, Tape};
use crate::broker::release;
use crate::broker::sweep;
use crate::broker::types::{BrokerModel, Clock, DeadlineKey, DeadlineModel, LockModel};
use crate::ordered_map;
use vstd::prelude::*;

verus! {

/// Without a positive time to live no deadline is set.
pub proof fn no_time_to_live_no_deadline(m: BrokerModel, entry: DeadlineModel, now: u128)
    ensures
        m.scheduled(None, entry, now) == m,
        m.scheduled(Some(0), entry, now) == m,
{
}

/// A sweep before every deadline evicts nobody: it only forgets idle keys.
pub proof fn a_sweep_before_every_deadline_evicts_nobody(
    m: BrokerModel,
    now: u128,
    clock: Clock,
    tape: Tape,
)
    requires
        m.locks.dom().finite(),
        forall|k: DeadlineKey| #[trigger] m.deadlines.dom().contains(k) ==> now < k.at,
    ensures
        m.sweep_count(now) == 0,
        m.swept(now, clock, tape) == m.pruned(now),
{
    let due = Set::new(|k: DeadlineKey| m.deadlines.dom().contains(k) && k.at <= now);
    assert(due =~= Set::empty());
    let none = Seq::<DeadlineKey>::empty();
    assert(none.to_set() =~= due);
    ordered_map::lemma_ascending_keys::<DeadlineKey>(none);
    assert(sweep::expired_keys(m.deadlines, now) == none);
    let touched = m.deadlines_met(none).touched;
    let nowhere = Seq::<Seq<char>>::empty();
    assert(nowhere.to_set() =~= touched);
    ordered_map::lemma_ascending_keys::<String>(nowhere);
    assert(nowhere.reverse() =~= nowhere);
}

/// Nobody holds one of a deadline's keys under its lock id.
pub open spec fn ended(m: BrokerModel, d: DeadlineModel) -> bool {
    forall|k: Seq<char>| #[trigger]
        m.locks.dom().contains(k) && d.keys.contains(k) ==> !m.locks[k].held_under(
            d.lock_uuid,
            d.kind,
        )
}

/// A hold that has ended stays so while deadlines pass, and those that pass end
/// theirs.
proof fn lemma_ended(m: BrokerModel, keys: Seq<DeadlineKey>, i: int)
    requires
        0 <= i < keys.len(),
    ensures
        ended(m.deadlines_met(keys).state, m.deadlines[keys[i]]),
    decreases keys.len(),
{
    let front = keys.drop_last();
    let before = m.deadlines_met(front).state;
    let n = m.deadlines_met(keys).state;
    let d = m.deadlines[keys.last()];
    let e = m.deadlines[keys[i]];
    if i < front.len() {
        lemma_ended(m, front, i);
        assert(front[i] == keys[i]);
        assert forall|k: Seq<char>| #[trigger] n.locks.dom().contains(k) && e.keys.contains(
            k,
        ) implies !n.locks[k].held_under(e.lock_uuid, e.kind) by {
            assert(before.locks.dom().contains(k));
        }
    } else {
        assert forall|k: Seq<char>| #[trigger] n.locks.dom().contains(k) && d.keys.contains(
            k,
        ) implies !n.locks[k].held_under(d.lock_uuid, d.kind) by {
            assert(before.locks.dom().contains(k));
            let p = |l: LockModel| l.held_under(d.lock_uuid, d.kind);
            let j = choose|j: int| 0 <= j < d.keys.len() && d.keys[j] == k;
            assert(before.locks.dom().contains(d.keys[j]));
            if p(before.locks[d.keys[j]]) {
                assert(release::any_lock(before.locks, d.keys, p));
            }
        }
    }
}

/// A deadline that has passed ends its hold: when a sweep grants to waiters,
/// no key of it is held under its lock id any more.
pub proof fn a_passed_deadline_ends_its_hold(m: BrokerModel, k: DeadlineKey, now: u128)
    requires
        m.deadlines.dom().finite(),
        m.deadlines.dom().contains(k),
        k.at <= now,
    ensures
        ended(
            m.deadlines_met(sweep::expired_keys(m.deadlines, now)).state,
            m.deadlines[k],
        ),
{
    let due = Set::new(|k: DeadlineKey| m.deadlines.dom().contains(k) && k.at <= now);
    assert(due.subset_of(m.deadlines.dom()));
    vstd::set_lib::lemma_len_subset(due, m.deadlines.dom());
    ordered_map::lemma_ascending_walk::<DeadlineKey>(due);
    let keys = sweep::expired_keys(m.deadlines, now);
    assert(keys.to_set().contains(k));
    let i = choose|i: int| 0 <= i < keys.len() && keys[i] == k;
    lemma_ended(m, keys, i);
}

/// Every deadline lies after `now`.
pub open spec fn none_due(m: BrokerModel, now: u128) -> bool {
    forall|k: DeadlineKey| #[trigger] m.deadlines.dom().contains(k) ==> now < k.at
}

/// Deadlines that pass are struck off.
pub proof fn lemma_struck_off(m: BrokerModel, keys: Seq<DeadlineKey>)
    ensures
        m.deadlines_met(keys).state.deadlines == m.deadlines.remove_keys(keys.to_set()),
        m.deadlines_met(keys).state.locks.dom() == m.locks.dom(),
    decreases keys.len(),
{
    if keys.len() > 0 {
        let front = keys.drop_last();
        lemma_struck_off(m, front);
        assert(keys =~= front.push(keys.last()));
        front.lemma_push_to_set_commute(keys.last());
        let n = m.deadlines_met(keys).state;
        assert(n.deadlines =~= m.deadlines.remove_keys(keys.to_set()));
        assert(n.locks.dom() =~= m.locks.dom());
    } else {
        assert(m.deadlines =~= m.deadlines.remove_keys(keys.to_set()));
    }
}

/// Grants set deadlines after the time of the grant only.
proof fn lemma_settled_due(
    m: BrokerModel,
    stack: Seq<Seq<char>>,
    now: u128,
    clock: Clock,
    tape: Tape,
)
    requires
        m.locks.dom().finite(),
        none_due(m, now),
        now <= clock.now,
    ensures
        none_due(m.settled(stack, clock, tape), now),
{
    let inv = |a: BrokerModel| none_due(a, now);
    assert forall|a: BrokerModel, k: Seq<char>|
        a.locks.dom().finite() && #[trigger] inv(a) implies match #[trigger] a.grant_step(
        k,
        clock,
        tape,
    ) {
        GrantStep::Blocked => true,
        GrantStep::Granted(n) => inv(n),
        GrantStep::Moved(n, _) => inv(n),
    } by {
        assert(none_due(a, now));
    }
    assert(inv(m));
    laws::lemma_settled(m, stack, clock, tape, inv);
}

/// A sweep leaves no deadline that has passed. The grants of a sweep are made
/// no earlier than the time that it sweeps up to.
pub proof fn a_sweep_leaves_no_passed_deadline(
    m: BrokerModel,
    now: u128,
    clock: Clock,
    tape: Tape,
)
    requires
        m.locks.dom().finite(),
        m.deadlines.dom().finite(),
        now <= clock.now,
    ensures
        none_due(m.swept(now, clock, tape), now),
{
    let due = Set::new(|k: DeadlineKey| m.deadlines.dom().contains(k) && k.at <= now);
    assert(due.subset_of(m.deadlines.dom()));
    vstd::set_lib::lemma_len_subset(due, m.deadlines.dom());
    ordered_map::lemma_ascending_walk::<DeadlineKey>(due);
    let keys = sweep::expired_keys(m.deadlines, now);
    lemma_struck_off(m, keys);
    let met = m.deadlines_met(keys);
    lemma_settled_due(
        met.state,
        ordered_map::ascending_keys::<String>(met.touched).reverse(),
        now,
        clock,
        tape,
    );
}

} // verus!
