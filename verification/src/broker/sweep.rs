//! Expiry of holders and reclaiming of idle keys.

use crate::broker::model;
use crate::broker::model::Tape;
use crate::broker::release;
use crate::broker::types::{
    BrokerModel, BrokerState, Clock, DeadlineEntry, DeadlineKey, DeadlineModel, LockModel,
    LockState, RwHoldKind, NANOS_PER_MILLI,
};
use crate::ordered_map;
use crate::ordered_map::{OrderedKey, OrderedMap};
use crate::queue;
use vstd::prelude::*;

verus! {

impl LockModel {
    /// The key is held that way under that id.
    pub open spec fn held_under(self, lock_uuid: Seq<char>, kind: RwHoldKind) -> bool {
        match kind {
            RwHoldKind::Exclusive => self.exclusive_holders.dom().contains(lock_uuid),
            RwHoldKind::Read => self.readers.dom().contains(lock_uuid),
            RwHoldKind::Write => self.writer matches Some(w) && w.lock_uuid == lock_uuid,
        }
    }

    /// The holder with that id is gone.
    pub open spec fn evicted(self, lock_uuid: Seq<char>, kind: RwHoldKind) -> LockModel {
        match kind {
            RwHoldKind::Exclusive => LockModel {
                exclusive_holders: self.exclusive_holders.remove(lock_uuid),
                ..self
            },
            RwHoldKind::Read => LockModel { readers: self.readers.remove(lock_uuid), ..self },
            RwHoldKind::Write => LockModel {
                writer: match self.writer {
                    Some(w) if w.lock_uuid == lock_uuid => None,
                    other => other,
                },
                ..self
            },
        }
    }

    /// The key has been idle since `cutoff` or longer.
    pub open spec fn idle_since(self, cutoff: int) -> bool {
        &&& self.idle()
        &&& self.timestamp_emptied matches Some(t)
        &&& t <= cutoff
    }
}

/// Expired deadlines at work: the state, how many holders were evicted, and the
/// keys that they held.
pub struct Sweep {
    pub state: BrokerModel,
    pub evicted: nat,
    pub touched: Set<Seq<char>>,
}

/// The sum, and what is left of it after the largest number.
pub open spec fn wrapped_sum(a: u64, n: nat) -> u64 {
    ((a + n) % 0x1_0000_0000_0000_0000) as u64
}

/// The deadlines up to `now`, earliest first.
pub open spec fn expired_keys(
    deadlines: Map<DeadlineKey, DeadlineModel>,
    now: u128,
) -> Seq<DeadlineKey> {
    ordered_map::ascending_keys::<DeadlineKey>(
        Set::new(|k: DeadlineKey| deadlines.dom().contains(k) && k.at <= now),
    )
}

impl BrokerModel {
    /// The holder of a deadline still holds one of its keys.
    pub open spec fn still_held(self, d: DeadlineModel) -> bool {
        release::any_lock(self.locks, d.keys, |l: LockModel| l.held_under(d.lock_uuid, d.kind))
    }

    /// The holder of a deadline is gone from its keys and from its owner's books.
    pub open spec fn deadline_met(self, d: DeadlineModel) -> BrokerModel {
        BrokerModel {
            locks: release::changed_on(
                self.locks,
                d.keys,
                |l: LockModel| l.evicted(d.lock_uuid, d.kind),
            ),
            ttl_evictions_total: model::wrapped_next(self.ttl_evictions_total),
            ..self
        }.holder_untracked(d.client, d.lock_uuid)
    }

    /// The deadlines of `keys` have passed, one after the other. One whose
    /// holder is gone already has no effect.
    pub open spec fn deadlines_met(self, keys: Seq<DeadlineKey>) -> Sweep
        decreases keys.len(),
    {
        if keys.len() == 0 {
            Sweep { state: self, evicted: 0, touched: Set::empty() }
        } else {
            let before = self.deadlines_met(keys.drop_last());
            let d = self.deadlines[keys.last()];
            let state = BrokerModel {
                deadlines: before.state.deadlines.remove(keys.last()),
                ..before.state
            };
            if state.still_held(d) {
                Sweep {
                    state: state.deadline_met(d),
                    evicted: before.evicted + 1,
                    touched: before.touched.union(d.keys.to_set()),
                }
            } else {
                Sweep { state, ..before }
            }
        }
    }

    /// The keys idle since `cutoff` are forgotten.
    pub open spec fn idle_pruned(self, cutoff: int) -> BrokerModel {
        let gone = Set::new(
            |k: Seq<char>| self.locks.dom().contains(k) && self.locks[k].idle_since(cutoff),
        );
        BrokerModel {
            locks: self.locks.remove_keys(gone),
            idle_keys_pruned_total: wrapped_sum(self.idle_keys_pruned_total, gone.len()),
            ..self
        }
    }

    /// Idle keys are forgotten when they have been idle for the grace period.
    pub open spec fn pruned(self, now: u128) -> BrokerModel {
        let grace = self.config.idle_key_grace * NANOS_PER_MILLI;
        if grace > 0 && now >= grace {
            self.idle_pruned(now - grace)
        } else {
            self
        }
    }

    /// A sweep at `now`: expired holders are evicted, waiters granted in
    /// ascending key order, and idle keys forgotten.
    pub open spec fn swept(self, now: u128, clock: Clock, tape: Tape) -> BrokerModel {
        let sweep = self.deadlines_met(expired_keys(self.deadlines, now));
        sweep.state.settled(
            ordered_map::ascending_keys::<String>(sweep.touched).reverse(),
            clock,
            tape,
        ).pruned(now)
    }

    /// How many holders a sweep at `now` evicts.
    pub open spec fn sweep_count(self, now: u128) -> nat {
        self.deadlines_met(expired_keys(self.deadlines, now)).evicted
    }
}

impl LockState {
    /// Whether the key is held that way under that id.
    pub fn contains_uuid_for_kind(&self, lock_uuid: &String, kind: RwHoldKind) -> (r: bool)
        ensures
            r == self@.held_under(lock_uuid@, kind),
    {
        match kind {
            RwHoldKind::Exclusive => self.exclusive_holders.contains_key(lock_uuid),
            RwHoldKind::Read => self.readers.contains_key(lock_uuid),
            RwHoldKind::Write => match &self.writer {
                Some(w) => w.lock_uuid == *lock_uuid,
                None => false,
            },
        }
    }

    /// Takes the holder with that id out.
    fn evict(&mut self, lock_uuid: &String, kind: RwHoldKind)
        ensures
            final(self)@ == old(self)@.evicted(lock_uuid@, kind),
    {
        match kind {
            RwHoldKind::Exclusive => {
                let _ = self.exclusive_holders.remove(lock_uuid);
            },
            RwHoldKind::Read => {
                let _ = self.readers.remove(lock_uuid);
            },
            RwHoldKind::Write => {
                let mine = match &self.writer {
                    Some(w) => w.lock_uuid == *lock_uuid,
                    None => false,
                };
                if mine {
                    self.writer = None;
                }
            },
        }
    }
}

impl BrokerState {
    /// Whether the holder of a deadline still holds one of its keys.
    pub fn deadline_entry_is_still_held(&self, entry: &DeadlineEntry) -> (r: bool)
        ensures
            r == self@.still_held(entry@),
    {
        let ghost d = entry@;
        let ghost p = |l: LockModel| l.held_under(d.lock_uuid, d.kind);
        let mut i: usize = 0;
        while i < entry.keys.len()
            invariant
                i <= entry.keys@.len(),
                d == entry@,
                p == (|l: LockModel| l.held_under(d.lock_uuid, d.kind)),
                forall|j: int|
                    0 <= j < i && self@.locks.dom().contains(#[trigger] d.keys[j]) ==> !p(
                        self@.locks[d.keys[j]],
                    ),
            decreases entry.keys@.len() - i,
        {
            assert(d.keys[i as int] == entry.keys@[i as int]@);
            if let Some(lock) = self.locks.get(&entry.keys[i]) {
                if lock.contains_uuid_for_kind(&entry.lock_uuid, entry.kind) {
                    return true;
                }
            }
            i = i + 1;
        }
        false
    }

    /// Evicts the holder of a deadline and notes its keys.
    fn meet_deadline(&mut self, entry: &DeadlineEntry, touched: &mut OrderedMap<String, bool>)
        ensures
            final(self).minted == old(self).minted,
            final(self)@ == old(self)@.deadline_met(entry@),
            final(touched)@.dom() == old(touched)@.dom().union(entry@.keys.to_set()),
    {
        let ghost start = self@;
        let ghost d = entry@;
        let ghost all = d.keys;
        let ghost f = |l: LockModel| l.evicted(d.lock_uuid, d.kind);
        let ghost before = touched@.dom();
        let mut i: usize = 0;
        assert(release::changed_on(start.locks, all.take(0), f) =~= start.locks);
        assert(all.take(0).to_set() =~= Set::empty());
        while i < entry.keys.len()
            invariant
                i <= entry.keys@.len(),
                d == entry@,
                all == d.keys,
                f == (|l: LockModel| l.evicted(d.lock_uuid, d.kind)),
                self.minted == old(self).minted,
                self@ == (BrokerModel {
                    locks: release::changed_on(start.locks, all.take(i as int), f),
                    ..start
                }),
                touched@.dom() == before.union(all.take(i as int).to_set()),
            decreases entry.keys@.len() - i,
        {
            let key = &entry.keys[i];
            let ghost done = all.take(i as int);
            let ghost next = all.take(i + 1);
            proof {
                assert(next =~= done.push(key@));
                done.lemma_push_to_set_commute(key@);
                if start.locks.dom().contains(key@) {
                    let l = start.locks[key@];
                    assert(f(f(l)) =~= f(l));
                }
            }
            if let Some(lock) = self.locks.get_mut(key) {
                lock.evict(&entry.lock_uuid, entry.kind);
            }
            touched.insert(key.clone(), true);
            proof {
                assert(self@.locks =~= release::changed_on(start.locks, next, f)) by {
                    assert forall|k: Seq<char>| start.locks.dom().contains(k) implies
                        self@.locks[k] == release::changed_on(start.locks, next, f)[k] by {
                        queue::lemma_contains_push(done, key@, k);
                    }
                }
                assert(touched@.dom() =~= before.union(next.to_set()));
            }
            i = i + 1;
        }
        assert(all.take(i as int) =~= all);
        self.ttl_evictions_total = self.ttl_evictions_total.wrapping_add(1);
        self.untrack_holder(entry.client, &entry.lock_uuid);
    }

    /// The deadlines up to `now`, earliest first.
    fn expired(&self, now: u128) -> (r: Vec<DeadlineKey>)
        ensures
            r@ == expired_keys(self@.deadlines, now),
            r@.no_duplicates(),
            forall|i: int|
                0 <= i < r@.len() ==> self@.deadlines.dom().contains(#[trigger] r@[i]),
    {
        let mut due: Vec<DeadlineKey> = Vec::new();
        let n: usize = self.deadlines.len();
        let ghost all = self.deadlines.keys();
        let mut i: usize = 0;
        while i < n && self.deadlines.key_at(i).at <= now
            invariant
                i <= n,
                n == self.deadlines@.len(),
                all == self.deadlines.keys(),
                all.len() == n,
                due@ == all.take(i as int),
                forall|j: int| 0 <= j < i ==> (#[trigger] all[j]).at <= now,
            decreases n - i,
        {
            due.push(*self.deadlines.key_at(i));
            i = i + 1;
            assert(due@ =~= all.take(i as int));
        }
        proof {
            let q = due@;
            let late = Set::new(
                |k: DeadlineKey| self@.deadlines.dom().contains(k) && k.at <= now,
            );
            assert(ordered_map::ascending::<DeadlineKey>(q)) by {
                assert forall|a: int, b: int| 0 <= a < b < q.len() implies DeadlineKey::less(
                    #[trigger] q[a],
                    #[trigger] q[b],
                ) by {
                    assert(q[a] == all[a] && q[b] == all[b]);
                }
            }
            assert(q.to_set() =~= late) by {
                assert forall|k: DeadlineKey| q.to_set().contains(k) <==> late.contains(k) by {
                    if q.to_set().contains(k) {
                        let j = choose|j: int| 0 <= j < q.len() && q[j] == k;
                        assert(all[j] == k);
                        assert(all.to_set().contains(k));
                    }
                    if late.contains(k) {
                        assert(all.to_set().contains(k));
                        let j = choose|j: int| 0 <= j < all.len() && all[j] == k;
                        if j >= i {
                            assert(all[i as int].at > now);
                            if j > i {
                                assert(DeadlineKey::less(all[i as int], all[j]));
                            }
                        }
                        assert(q[j] == k);
                    }
                }
            }
            ordered_map::lemma_ascending_keys::<DeadlineKey>(q);
            ordered_map::lemma_ascending_no_duplicates::<DeadlineKey>(q);
            assert forall|j: int| 0 <= j < q.len() implies self@.deadlines.dom().contains(
                #[trigger] q[j],
            ) by {
                assert(q.to_set().contains(q[j]));
            }
        }
        due
    }

    /// Forgets keys that have been idle for the grace period.
    fn prune(&mut self, now: u128)
        ensures
            final(self).minted == old(self).minted,
            final(self)@ == old(self)@.pruned(now),
    {
        let ghost start = self@;
        assert(self.config.idle_key_grace * NANOS_PER_MILLI <= u64::MAX * 1_000_000);
        let grace: u128 = (self.config.idle_key_grace as u128) * NANOS_PER_MILLI;
        if grace == 0 || now < grace {
            return;
        }
        let cutoff: u128 = now - grace;
        let n: usize = self.locks.len();
        let ghost names = self.locks.keys();
        let ghost gone = Set::new(
            |k: Seq<char>| start.locks.dom().contains(k) && start.locks[k].idle_since(
                cutoff as int,
            ),
        );
        let mut keys: Vec<String> = Vec::new();
        let mut i: usize = 0;
        while i < n
            invariant
                i <= n,
                self@ == start,
                n == start.locks.len(),
                names == self.locks.keys(),
                names.len() == n,
                names.no_duplicates(),
                ordered_map::views(keys@).no_duplicates(),
                forall|k: Seq<char>| #[trigger]
                    ordered_map::views(keys@).contains(k) <==> names.take(i as int).contains(k)
                        && start.locks[k].idle_since(cutoff as int),
            decreases n - i,
        {
            let key = self.locks.key_at(i);
            let lock = self.locks.value_at(i);
            let stale = lock.is_idle() && match lock.timestamp_emptied {
                Some(t) => t <= cutoff,
                None => false,
            };
            let ghost before = keys@;
            if stale {
                keys.push(key.clone());
            }
            proof {
                let was = ordered_map::views(before);
                let is = ordered_map::views(keys@);
                let done = names.take(i as int);
                assert(names.take(i + 1) =~= done.push(key@));
                assert(!done.contains(key@)) by {
                    if done.contains(key@) {
                        let j = choose|j: int| 0 <= j < done.len() && done[j] == key@;
                        assert(names[j] == names[i as int]);
                    }
                }
                assert(!was.contains(key@));
                if stale {
                    assert(is =~= was.push(key@));
                } else {
                    assert(is =~= was);
                }
                assert forall|k: Seq<char>| #[trigger] is.contains(k) <==> names.take(
                    i + 1,
                ).contains(k) && start.locks[k].idle_since(cutoff as int) by {
                    queue::lemma_contains_push(done, key@, k);
                    if stale {
                        queue::lemma_contains_push(was, key@, k);
                    }
                }
            }
            i = i + 1;
        }
        proof {
            let is = ordered_map::views(keys@);
            assert(names.take(i as int) =~= names);
            assert(is.to_set() =~= gone) by {
                assert forall|k: Seq<char>| is.to_set().contains(k) <==> gone.contains(k) by {
                    assert(names.to_set().contains(k) <==> names.contains(k));
                    assert(is.to_set().contains(k) <==> is.contains(k));
                }
            }
            is.unique_seq_to_set();
        }
        self.locks.remove_all(&keys);
        self.idle_keys_pruned_total = self.idle_keys_pruned_total.wrapping_add(keys.len() as u64);
    }

    /// Evicts every holder whose deadline has passed by `now`, grants to
    /// waiters, and forgets idle keys. Tells how many holders were evicted.
    pub fn tick_ttl(&mut self, now: u128, clock: Clock) -> (r: usize)
        ensures
            r == old(self)@.sweep_count(now),
            model::continues(old(self).minted@, final(self).minted@),
            forall|tape: Tape|
                #[trigger] model::reads(tape, final(self).minted@) ==> final(self)@ == old(
                    self,
                )@.swept(now, clock, tape),
    {
        let ghost start = self@;
        let due = self.expired(now);
        let ghost all = due@;
        let mut touched: OrderedMap<String, bool> = OrderedMap::new();
        let mut evicted: usize = 0;
        let mut i: usize = 0;
        while i < due.len()
            invariant
                i <= due@.len(),
                all == due@,
                all.no_duplicates(),
                forall|j: int| 0 <= j < all.len() ==> start.deadlines.dom().contains(
                    #[trigger] all[j],
                ),
                self.minted == old(self).minted,
                evicted <= i,
                self@.deadlines == start.deadlines.remove_keys(all.take(i as int).to_set()),
                ({
                    let sweep = start.deadlines_met(all.take(i as int));
                    &&& self@ == sweep.state
                    &&& evicted == sweep.evicted
                    &&& touched@.dom() == sweep.touched
                }),
            decreases due@.len() - i,
        {
            let ghost done = all.take(i as int);
            let ghost next = all.take(i + 1);
            let ghost before = self@;
            proof {
                assert(next =~= done.push(all[i as int]));
                assert(next.drop_last() =~= done);
                done.lemma_push_to_set_commute(all[i as int]);
                assert(!done.to_set().contains(all[i as int])) by {
                    if done.contains(all[i as int]) {
                        let j = choose|j: int| 0 <= j < done.len() && done[j] == all[i as int];
                        assert(all[j] == all[i as int]);
                    }
                }
                assert(start.deadlines.remove_keys(next.to_set())
                    =~= start.deadlines.remove_keys(done.to_set()).remove(all[i as int]));
            }
            let entry = match self.deadlines.remove(&due[i]) {
                Some(entry) => entry,
                None => vstd::pervasive::unreached(),
            };
            if self.deadline_entry_is_still_held(&entry) {
                self.meet_deadline(&entry, &mut touched);
                evicted = evicted + 1;
            }
            i = i + 1;
        }
        assert(all.take(i as int) =~= all);
        let keys = touched.into_keys();
        self.settle(release::reversed(&keys), clock);
        self.prune(now);
        evicted
    }
}

} // verus!
