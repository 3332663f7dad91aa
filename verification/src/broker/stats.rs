//! Counters and contention.

use crate::broker::types::{BrokerModel, BrokerState, LockModel, LockState};
use crate::ordered_map;
use crate::ordered_map::{OrderedKey, OrderedMap};
use crate::sums;
use crate::text;
use vstd::prelude::*;

verus! {

/// Counters as `/metrics` reports them.
#[derive(Debug, Clone, Copy, PartialEq, Eq, Structural)]
pub struct BrokerMetrics {
    pub keys: u64,
    pub holders: u64,
    pub waiters: u64,
    pub clients: u64,
    /// Deadlines that the sweep has not met yet.
    pub pending_deadlines: u64,
    /// Holders evicted by the sweep since start.
    pub ttl_evictions_total: u64,
    /// Per-key concurrency ceiling.
    pub max_concurrency_cap: u32,
    /// Lock requests whose `max` was above the ceiling.
    pub concurrency_cap_clamps_total: u64,
    /// At least every fencing token granted since start, over all keys.
    pub fencing_watermark: u64,
    /// Idle keys reclaimed by the sweep.
    pub idle_keys_pruned_total: u64,
}

impl Default for BrokerMetrics {
    fn default() -> (r: Self)
        ensures
            r == (BrokerMetrics {
                keys: 0,
                holders: 0,
                waiters: 0,
                clients: 0,
                pending_deadlines: 0,
                ttl_evictions_total: 0,
                max_concurrency_cap: 0,
                concurrency_cap_clamps_total: 0,
                fencing_watermark: 0,
                idle_keys_pruned_total: 0,
            }),
    {
        BrokerMetrics {
            keys: 0,
            holders: 0,
            waiters: 0,
            clients: 0,
            pending_deadlines: 0,
            ttl_evictions_total: 0,
            max_concurrency_cap: 0,
            concurrency_cap_clamps_total: 0,
            fencing_watermark: 0,
            idle_keys_pruned_total: 0,
        }
    }
}

/// How contended one key is.
#[derive(Debug)]
pub struct KeyContentionSnapshot {
    pub key: String,
    pub exclusive_holders: u64,
    pub readers: u64,
    pub writers: u64,
    pub waiters: u64,
    pub fencing_counter: u64,
    pub max: u32,
}

#[verifier::ext_equal]
pub struct ContentionModel {
    pub key: Seq<char>,
    pub exclusive_holders: u64,
    pub readers: u64,
    pub writers: u64,
    pub waiters: u64,
    pub fencing_counter: u64,
    pub max: u32,
}

impl View for KeyContentionSnapshot {
    type V = ContentionModel;

    open spec fn view(&self) -> ContentionModel {
        ContentionModel {
            key: self.key@,
            exclusive_holders: self.exclusive_holders,
            readers: self.readers,
            writers: self.writers,
            waiters: self.waiters,
            fencing_counter: self.fencing_counter,
            max: self.max,
        }
    }
}

/// `n`, or the largest number that fits.
pub open spec fn capped(n: nat) -> u64 {
    if n > u64::MAX {
        u64::MAX
    } else {
        n as u64
    }
}

impl LockModel {
    /// How many holders the key has.
    pub open spec fn holder_count(self) -> nat {
        self.exclusive_holders.len() + self.readers.len() + if self.writer is Some {
            1nat
        } else {
            0nat
        }
    }

    /// Holders and waiters together.
    pub open spec fn contention(self) -> nat {
        self.holder_count() + self.queue.len()
    }

    pub open spec fn contention_of(self, key: Seq<char>) -> ContentionModel {
        ContentionModel {
            key,
            exclusive_holders: self.exclusive_holders.len() as u64,
            readers: self.readers.len() as u64,
            writers: if self.writer is Some {
                1
            } else {
                0
            },
            waiters: self.queue.len() as u64,
            fencing_counter: self.fencing_counter,
            max: self.max,
        }
    }
}

pub open spec fn holders_of() -> spec_fn(LockModel) -> nat {
    |l: LockModel| l.holder_count()
}

pub open spec fn waiters_of() -> spec_fn(LockModel) -> nat {
    |l: LockModel| l.queue.len()
}

/// Where a key stands in the ranking: more contended keys first, keys of equal
/// contention in ascending order.
pub struct Rank {
    score: u128,
    key: String,
}

impl View for Rank {
    type V = (int, Seq<char>);

    closed spec fn view(&self) -> (int, Seq<char>) {
        (self.score as int, self.key@)
    }
}

impl OrderedKey for Rank {
    open spec fn less(a: (int, Seq<char>), b: (int, Seq<char>)) -> bool {
        a.0 > b.0 || (a.0 == b.0 && text::text_less(a.1, b.1))
    }

    proof fn less_irreflexive(a: (int, Seq<char>)) {
        text::lemma_text_irreflexive(a.1);
    }

    proof fn less_transitive(a: (int, Seq<char>), b: (int, Seq<char>), c: (int, Seq<char>)) {
        if a.0 == b.0 && b.0 == c.0 {
            text::lemma_text_transitive(a.1, b.1, c.1);
        }
    }

    proof fn less_total(a: (int, Seq<char>), b: (int, Seq<char>)) {
        text::lemma_text_total(a.1, b.1);
    }

    fn before(&self, other: &Self) -> (r: bool) {
        self.score > other.score || (self.score == other.score && text::text_before(
            self.key.as_str(),
            other.key.as_str(),
        ))
    }

    fn same(&self, other: &Self) -> (r: bool) {
        self.score == other.score && self.key == other.key
    }

    fn duplicate(&self) -> (r: Self) {
        Rank { score: self.score, key: self.key.clone() }
    }
}

impl BrokerModel {
    pub open spec fn metrics(self) -> BrokerMetrics {
        BrokerMetrics {
            keys: self.locks.len() as u64,
            holders: capped(sums::map_sum(self.locks, holders_of())),
            waiters: capped(sums::map_sum(self.locks, waiters_of())),
            clients: self.clients.len() as u64,
            pending_deadlines: self.deadlines.len() as u64,
            ttl_evictions_total: self.ttl_evictions_total,
            max_concurrency_cap: self.config.max_concurrency_cap,
            concurrency_cap_clamps_total: self.concurrency_cap_clamps_total,
            fencing_watermark: self.fencing_watermark,
            idle_keys_pruned_total: self.idle_keys_pruned_total,
        }
    }

    /// The keys that are held or awaited, in ranking order.
    pub open spec fn ranking(self) -> Seq<(int, Seq<char>)> {
        ordered_map::ascending_keys::<Rank>(
            Set::new(
                |r: (int, Seq<char>)|
                    self.locks.dom().contains(r.1) && self.locks[r.1].contention() == r.0 && r.0
                        > 0,
            ),
        )
    }

    /// The `n` most contended keys.
    pub open spec fn top_keys(self, n: int) -> Seq<ContentionModel> {
        let all = self.ranking();
        let few = all.take(
            if n < all.len() {
                n
            } else {
                all.len() as int
            },
        );
        few.map_values(|r: (int, Seq<char>)| self.locks[r.1].contention_of(r.1))
    }
}

/// The entries of the first `i` keys of the ascending walk.
spec fn walked(locks: Map<Seq<char>, LockModel>, i: int) -> Map<Seq<char>, LockModel> {
    locks.restrict(ordered_map::ascending_keys::<String>(locks.dom()).take(i).to_set())
}

proof fn lemma_walk(locks: Map<Seq<char>, LockModel>, i: int, f: spec_fn(LockModel) -> nat)
    requires
        ({
            let names = ordered_map::ascending_keys::<String>(locks.dom());
            &&& 0 <= i < names.len()
            &&& names.no_duplicates()
            &&& names.to_set() == locks.dom()
        }),
        locks.dom().finite(),
    ensures
        ({
            let names = ordered_map::ascending_keys::<String>(locks.dom());
            sums::map_sum(walked(locks, i + 1), f) == sums::map_sum(walked(locks, i), f) + f(
                locks[names[i]],
            )
        }),
{
    let names = ordered_map::ascending_keys::<String>(locks.dom());
    let a = walked(locks, i);
    let b = walked(locks, i + 1);
    let k = names[i];
    assert(names.take(i + 1) =~= names.take(i).push(k));
    names.take(i).lemma_push_to_set_commute(k);
    assert(names.to_set().contains(k));
    assert(!names.take(i).contains(k)) by {
        if names.take(i).contains(k) {
            let j = choose|j: int| 0 <= j < i && names.take(i)[j] == k;
            assert(names[j] == names[i]);
        }
    }
    assert(b =~= a.insert(k, locks[k]));
    assert(a.dom().subset_of(locks.dom()));
    vstd::set_lib::lemma_len_subset(a.dom(), locks.dom());
    sums::lemma_sum_insert(a, f, k, locks[k]);
}

impl LockState {
    /// How many holders the key has.
    fn holder_count(&self) -> (r: u64)
        ensures
            r == capped(self@.holder_count()),
    {
        let held: u64 = (self.exclusive_holders.len() as u64).saturating_add(
            self.readers.len() as u64,
        );
        if self.writer.is_some() {
            held.saturating_add(1)
        } else {
            held
        }
    }
}

impl BrokerState {
    /// The counters.
    pub fn metrics(&self) -> (r: BrokerMetrics)
        ensures
            r == self@.metrics(),
    {
        let ghost locks = self@.locks;
        let n: usize = self.locks.len();
        let ghost names = self.locks.keys();
        let mut holders: u64 = 0;
        let mut waiters: u64 = 0;
        let mut i: usize = 0;
        proof {
            assert(walked(locks, 0) =~= Map::empty());
        }
        while i < n
            invariant
                i <= n,
                locks == self@.locks,
                locks.dom().finite(),
                n == locks.len(),
                names == self.locks.keys(),
                names == ordered_map::ascending_keys::<String>(locks.dom()),
                names.len() == n,
                names.no_duplicates(),
                names.to_set() == locks.dom(),
                holders == capped(sums::map_sum(walked(locks, i as int), holders_of())),
                waiters == capped(sums::map_sum(walked(locks, i as int), waiters_of())),
            decreases n - i,
        {
            let lock = self.locks.value_at(i);
            proof {
                lemma_walk(locks, i as int, holders_of());
                lemma_walk(locks, i as int, waiters_of());
            }
            holders = holders.saturating_add(lock.holder_count());
            waiters = waiters.saturating_add(lock.queue.len() as u64);
            i = i + 1;
        }
        proof {
            assert(names.take(i as int) =~= names);
            assert(walked(locks, i as int) =~= locks);
        }
        BrokerMetrics {
            keys: n as u64,
            holders,
            waiters,
            clients: self.clients.len() as u64,
            pending_deadlines: self.deadlines.len() as u64,
            ttl_evictions_total: self.ttl_evictions_total,
            max_concurrency_cap: self.config.max_concurrency_cap,
            concurrency_cap_clamps_total: self.concurrency_cap_clamps_total,
            fencing_watermark: self.fencing_watermark,
            idle_keys_pruned_total: self.idle_keys_pruned_total,
        }
    }

    /// The `n` most contended keys, the most contended first.
    pub fn top_keys(&self, n: usize) -> (r: Vec<KeyContentionSnapshot>)
        ensures
            ordered_map::views(r@) == self@.top_keys(n as int),
    {
        let ghost locks = self@.locks;
        let count: usize = self.locks.len();
        let ghost names = self.locks.keys();
        let mut ranked: OrderedMap<Rank, KeyContentionSnapshot> = OrderedMap::new();
        let mut i: usize = 0;
        while i < count
            invariant
                i <= count,
                locks == self@.locks,
                count == locks.len(),
                names == self.locks.keys(),
                names.len() == count,
                forall|r: (int, Seq<char>)| #[trigger]
                    ranked@.dom().contains(r) <==> names.take(i as int).contains(r.1)
                        && locks[r.1].contention() == r.0 && r.0 > 0,
                forall|r: (int, Seq<char>)| #[trigger]
                    ranked@.dom().contains(r) ==> ranked@[r] == locks[r.1].contention_of(r.1),
            decreases count - i,
        {
            let key = self.locks.key_at(i);
            let lock = self.locks.value_at(i);
            let exclusive: u64 = lock.exclusive_holders.len() as u64;
            let readers: u64 = lock.readers.len() as u64;
            let writers: u64 = if lock.writer.is_some() {
                1
            } else {
                0
            };
            let waiters: u64 = lock.queue.len() as u64;
            let score: u128 = exclusive as u128 + readers as u128 + writers as u128
                + waiters as u128;
            let ghost before = ranked@;
            if score > 0 {
                let rank = Rank { score, key: key.clone() };
                let snapshot = KeyContentionSnapshot {
                    key: key.clone(),
                    exclusive_holders: exclusive,
                    readers,
                    writers,
                    waiters,
                    fencing_counter: lock.fencing_counter,
                    max: lock.max,
                };
                assert(snapshot@ == locks[key@].contention_of(key@));
                assert(rank@ == (locks[key@].contention() as int, key@));
                ranked.insert(rank, snapshot);
            }
            proof {
                assert(names.take(i + 1) =~= names.take(i as int).push(key@));
                assert forall|r: (int, Seq<char>)| #[trigger] ranked@.dom().contains(r)
                    <==> names.take(i + 1).contains(r.1) && locks[r.1].contention() == r.0 && r.0
                    > 0 by {
                    crate::queue::lemma_contains_push(names.take(i as int), key@, r.1);
                }
            }
            i = i + 1;
        }
        let _ = ranked.len();
        proof {
            assert(names.take(i as int) =~= names);
            let all = Set::new(
                |r: (int, Seq<char>)|
                    locks.dom().contains(r.1) && locks[r.1].contention() == r.0 && r.0 > 0,
            );
            assert(ranked@.dom() =~= all) by {
                assert forall|r: (int, Seq<char>)| ranked@.dom().contains(r) <==> all.contains(
                    r,
                ) by {
                    assert(names.to_set().contains(r.1) <==> names.contains(r.1));
                    let _ = names.to_set();
                }
            }
        }
        let ghost order = ranked.keys();
        let ghost table = ranked@;
        let mut top = ranked.into_values();
        proof {
            assert forall|j: int| 0 <= j < order.len() implies (#[trigger] top@[j])@
                == locks[order[j].1].contention_of(order[j].1) by {
                assert(order.to_set().contains(order[j]));
                assert(table.dom().contains(order[j]));
            }
        }
        if n < top.len() {
            top.truncate(n);
        }
        assert(ordered_map::views(top@) =~= self@.top_keys(n as int));
        top
    }
}

} // verus!
