//! What a snapshot gives back: keys, holders, waiters, deadlines and counters
//! are restored as they were written. The holders come back as bearer tokens,
//! since whoever owned them is not connected to the broker that restores.

use crate::broker::laws::composites;
use crate::broker::laws::exclusion;
use crate::broker::model;
use crate::broker::snapshot;
use crate::broker::snapshot::{DeadlineRank, DeadlineSnapshotModel, LockSnapshotModel};
use crate::broker::snapshot_check;
use crate::broker::snapshot_install;
use crate::broker::stats;
use crate::broker::types::{
    BrokerModel, DeadlineKey, DeadlineModel, ExclusiveHolder, KindModel, LockModel, PendingModel,
    RwModel, SNAPSHOT_DETACHED_CLIENT,
};
use crate::ordered_map;
use crate::queue;
use crate::sums;
use vstd::prelude::*;

verus! {

/// No holder of a key has a token above its counter.
pub open spec fn counts(l: LockModel) -> bool {
    &&& forall|u: Seq<char>| #[trigger]
        l.exclusive_holders.dom().contains(u) ==> l.exclusive_holders[u].fencing_token
            <= l.fencing_counter
    &&& forall|u: Seq<char>| #[trigger]
        l.readers.dom().contains(u) ==> l.readers[u].fencing_token <= l.fencing_counter
    &&& l.writer matches Some(w) ==> w.fencing_token <= l.fencing_counter
}

/// `b` is `a` with its holders turned into bearer tokens at `now`.
pub open spec fn restored_as(a: LockModel, b: LockModel, now: u128) -> bool {
    &&& b.max == a.max
    &&& b.queue == a.queue
    &&& b.exclusive_holders.dom() == a.exclusive_holders.dom()
    &&& forall|u: Seq<char>| #[trigger]
        a.exclusive_holders.dom().contains(u) ==> b.exclusive_holders[u] == (ExclusiveHolder {
            client: SNAPSHOT_DETACHED_CLIENT,
            ..a.exclusive_holders[u]
        })
    &&& b.readers.dom() == a.readers.dom()
    &&& forall|u: Seq<char>| #[trigger]
        a.readers.dom().contains(u) ==> b.readers[u] == (RwModel {
            client: SNAPSHOT_DETACHED_CLIENT,
            fencing_token: a.readers[u].fencing_token,
            lock_uuid: u,
        })
    &&& b.writer == match a.writer {
        Some(w) => Some(RwModel { client: SNAPSHOT_DETACHED_CLIENT, ..w }),
        None => None,
    }
    &&& b.fencing_counter >= a.fencing_counter
    &&& counts(b)
    &&& counts(a) ==> b.fencing_counter == a.fencing_counter
    &&& b.timestamp_emptied == if a.idle() {
        Some(now)
    } else {
        None
    }
}

/// The exclusive holders come back one by one.
proof fn lemma_exclusive(s: LockSnapshotModel, l: LockModel, n: nat, ids: Seq<Seq<char>>)
    requires
        n <= ids.len(),
        ids.no_duplicates(),
        s.exclusive_holders.len() == ids.len(),
        forall|j: int|
            0 <= j < ids.len() ==> (#[trigger] s.exclusive_holders[j]).lock_uuid == ids[j],
        l.exclusive_holders == Map::<Seq<char>, ExclusiveHolder>::empty(),
    ensures
        ({
            let r = s.with_exclusive(l, n);
            &&& r == LockModel {
                exclusive_holders: r.exclusive_holders,
                fencing_counter: r.fencing_counter,
                ..l
            }
            &&& r.exclusive_holders.dom() == ids.take(n as int).to_set()
            &&& forall|j: int|
                0 <= j < n ==> r.exclusive_holders[#[trigger] ids[j]]
                    == snapshot_install::bearer_exclusive(s.exclusive_holders[j])
                    && s.exclusive_holders[j].fencing_token <= r.fencing_counter
            &&& l.fencing_counter <= r.fencing_counter
            &&& (forall|j: int|
                0 <= j < n ==> (#[trigger] s.exclusive_holders[j]).fencing_token
                    <= l.fencing_counter) ==> r.fencing_counter == l.fencing_counter
        }),
    decreases n,
{
    if n == 0 {
        assert(ids.take(0).to_set() =~= Set::empty());
        assert(l.exclusive_holders.dom() =~= Set::empty());
    } else {
        lemma_exclusive(s, l, (n - 1) as nat, ids);
        let r = s.with_exclusive(l, n);
        assert(ids.take(n as int) =~= ids.take(n - 1).push(ids[n - 1]));
        ids.take(n - 1).lemma_push_to_set_commute(ids[n - 1]);
        assert(s.exclusive_holders[n - 1].lock_uuid == ids[n - 1]);
        assert(r.exclusive_holders.dom() =~= ids.take(n as int).to_set());
    }
}

/// The readers come back one by one.
proof fn lemma_readers(s: LockSnapshotModel, l: LockModel, n: nat, ids: Seq<Seq<char>>)
    requires
        n <= ids.len(),
        ids.no_duplicates(),
        s.readers.len() == ids.len(),
        forall|j: int| 0 <= j < ids.len() ==> (#[trigger] s.readers[j]).lock_uuid == ids[j],
        l.readers == Map::<Seq<char>, RwModel>::empty(),
    ensures
        ({
            let r = s.with_readers(l, n);
            &&& r == LockModel { readers: r.readers, fencing_counter: r.fencing_counter, ..l }
            &&& r.readers.dom() == ids.take(n as int).to_set()
            &&& forall|j: int|
                0 <= j < n ==> r.readers[#[trigger] ids[j]] == snapshot_install::bearer_rw(
                    s.readers[j],
                ) && s.readers[j].fencing_token <= r.fencing_counter
            &&& l.fencing_counter <= r.fencing_counter
            &&& (forall|j: int|
                0 <= j < n ==> (#[trigger] s.readers[j]).fencing_token <= l.fencing_counter)
                ==> r.fencing_counter == l.fencing_counter
        }),
    decreases n,
{
    if n == 0 {
        assert(ids.take(0).to_set() =~= Set::empty());
        assert(l.readers.dom() =~= Set::empty());
    } else {
        lemma_readers(s, l, (n - 1) as nat, ids);
        let r = s.with_readers(l, n);
        assert(ids.take(n as int) =~= ids.take(n - 1).push(ids[n - 1]));
        ids.take(n - 1).lemma_push_to_set_commute(ids[n - 1]);
        assert(s.readers[n - 1].lock_uuid == ids[n - 1]);
        assert(r.readers.dom() =~= ids.take(n as int).to_set());
    }
}

/// The waiters come back in their order.
proof fn lemma_queue(
    s: LockSnapshotModel,
    l: LockModel,
    n: nat,
    q: Seq<(Seq<char>, PendingModel)>,
)
    requires
        n <= q.len(),
        queue::unique_keys(q),
        s.queue.len() == q.len(),
        forall|j: int| 0 <= j < q.len() ==> #[trigger] s.queue[j] == q[j].1,
        forall|j: int| 0 <= j < q.len() ==> (#[trigger] q[j]).0 == q[j].1.request_uuid,
        l.queue.len() == 0,
    ensures
        s.with_queue(l, n) == (LockModel { queue: q.take(n as int), ..l }),
    decreases n,
{
    if n == 0 {
        assert(l.queue =~= q.take(0));
    } else {
        lemma_queue(s, l, (n - 1) as nat, q);
        let front = q.take(n - 1);
        assert(s.queue[n - 1] == q[n - 1].1);
        assert(!queue::queued(front, q[n - 1].0)) by {
            if queue::queued(front, q[n - 1].0) {
                let j = choose|j: int|
                    0 <= j < front.len() && (#[trigger] front[j]).0 == q[n - 1].0;
                assert(front[j] == q[j]);
            }
        }
        assert(q.take(n as int) =~= front.push(q[n - 1]));
    }
}

/// A key comes back as it was written, with its holders as bearer tokens.
pub proof fn a_key_is_restored_as_written(l: LockModel, key: Seq<char>, cap: u32, now: u128)
    requires
        exclusion::orderly(l, cap),
        composites::consistent_queue(key, l.queue),
    ensures
        restored_as(l, l.snapshot(key).restored(cap, now), now),
{
    let s = l.snapshot(key);
    let ids = ordered_map::ascending_keys::<String>(l.exclusive_holders.dom());
    let readers = ordered_map::ascending_keys::<String>(l.readers.dom());
    ordered_map::lemma_ascending_walk::<String>(l.exclusive_holders.dom());
    ordered_map::lemma_ascending_walk::<String>(l.readers.dom());
    let bare = LockModel::fresh(s.restored_max(cap), s.fencing_counter);
    let a = s.with_exclusive(bare, s.exclusive_holders.len());
    lemma_exclusive(s, bare, ids.len(), ids);
    let b = s.with_readers(a, s.readers.len());
    lemma_readers(s, a, readers.len(), readers);
    let c = s.with_writer(b);
    lemma_queue(s, c, l.queue.len(), l.queue);
    assert(l.queue.take(l.queue.len() as int) =~= l.queue);
    assert(ids.take(ids.len() as int) =~= ids);
    assert(readers.take(readers.len() as int) =~= readers);
    let r = s.restored(cap, now);
    assert(r.queue == l.queue);
    assert forall|u: Seq<char>| #[trigger] l.exclusive_holders.dom().contains(
        u,
    ) implies r.exclusive_holders[u] == (ExclusiveHolder {
        client: SNAPSHOT_DETACHED_CLIENT,
        ..l.exclusive_holders[u]
    }) && r.exclusive_holders[u].fencing_token <= r.fencing_counter by {
        assert(ids.to_set().contains(u));
        let j = choose|j: int| 0 <= j < ids.len() && ids[j] == u;
        assert(a.exclusive_holders[ids[j]] == snapshot_install::bearer_exclusive(
            s.exclusive_holders[j],
        ));
    }
    assert forall|u: Seq<char>| #[trigger] l.readers.dom().contains(u) implies r.readers[u] == (
    RwModel {
        client: SNAPSHOT_DETACHED_CLIENT,
        fencing_token: l.readers[u].fencing_token,
        lock_uuid: u,
    }) && r.readers[u].fencing_token <= r.fencing_counter by {
        assert(readers.to_set().contains(u));
        let j = choose|j: int| 0 <= j < readers.len() && readers[j] == u;
        assert(b.readers[readers[j]] == snapshot_install::bearer_rw(s.readers[j]));
    }
    if counts(l) {
        assert forall|j: int| 0 <= j < ids.len() implies (
        #[trigger] s.exclusive_holders[j]).fencing_token <= bare.fencing_counter by {
            assert(ids.to_set().contains(ids[j]));
            assert(l.exclusive_holders.dom().contains(ids[j]));
        }
        assert forall|j: int| 0 <= j < readers.len() implies (
        #[trigger] s.readers[j]).fencing_token <= a.fencing_counter by {
            assert(readers.to_set().contains(readers[j]));
            assert(l.readers.dom().contains(readers[j]));
        }
    }
    assert(r.exclusive_holders.dom() == l.exclusive_holders.dom());
    assert(r.readers.dom() == l.readers.dom());
    assert(r.exclusive_holders.is_empty() == l.exclusive_holders.is_empty());
    assert(r.readers.is_empty() == l.readers.is_empty());
    assert(r.idle() == l.idle());
}

/// The client ids handed out next are above those of the waiters of a key.
proof fn lemma_next_client(s: LockSnapshotModel, id: u64, n: nat)
    requires
        n <= s.queue.len(),
    ensures
        id <= s.next_client(id, n),
        forall|j: int|
            0 <= j < n ==> (#[trigger] s.queue[j]).client < s.next_client(id, n)
                || s.queue[j].client == u64::MAX,
    decreases n,
{
    if n > 0 {
        lemma_next_client(s, id, (n - 1) as nat);
    }
}

/// Keys come back one by one, side by side.
proof fn lemma_locks(m: BrokerModel, b: BrokerModel, written: u128, now: u128, n: nat)
    requires
        exclusion::safe(m),
        composites::lined_up(m),
        b.cap() == m.cap(),
        b.locks == Map::<Seq<char>, LockModel>::empty(),
        n <= m.snapshot(written).locks.len(),
    ensures
        ({
            let names = ordered_map::ascending_keys::<String>(m.locks.dom());
            let r = b.locks_restored(m.snapshot(written).locks, n, now);
            &&& r == BrokerModel {
                locks: r.locks,
                next_client_id: r.next_client_id,
                fencing_watermark: r.fencing_watermark,
                ..b
            }
            &&& r.locks.dom() == names.take(n as int).to_set()
            &&& forall|j: int|
                0 <= j < n ==> restored_as(
                    m.locks[#[trigger] names[j]],
                    r.locks[names[j]],
                    now,
                ) && r.locks[names[j]].fencing_counter <= r.fencing_watermark
            &&& forall|j: int, i: int|
                0 <= j < n && 0 <= i < m.locks[names[j]].queue.len() ==> (
                #[trigger] m.locks[names[j]].queue[i]).1.client < r.next_client_id
                    || m.locks[names[j]].queue[i].1.client == u64::MAX
            &&& b.fencing_watermark <= r.fencing_watermark
            &&& b.next_client_id <= r.next_client_id
        }),
    decreases n,
{
    let names = ordered_map::ascending_keys::<String>(m.locks.dom());
    let locks = m.snapshot(written).locks;
    ordered_map::lemma_ascending_walk::<String>(m.locks.dom());
    if n == 0 {
        assert(names.take(0).to_set() =~= Set::empty());
        assert(b.locks.dom() =~= Set::empty());
    } else {
        lemma_locks(m, b, written, now, (n - 1) as nat);
        let before = b.locks_restored(locks, (n - 1) as nat, now);
        let r = b.locks_restored(locks, n, now);
        let key = names[n - 1];
        assert(names.to_set().contains(key));
        assert(m.locks.dom().contains(key));
        assert(locks[n - 1] == m.locks[key].snapshot(key));
        a_key_is_restored_as_written(m.locks[key], key, m.cap(), now);
        lemma_next_client(locks[n - 1], before.next_client_id, locks[n - 1].queue.len());
        assert(names.take(n as int) =~= names.take(n - 1).push(key));
        names.take(n - 1).lemma_push_to_set_commute(key);
        assert(r.locks.dom() =~= names.take(n as int).to_set());
        assert forall|j: int, i: int|
            0 <= j < n && 0 <= i < m.locks[names[j]].queue.len() implies (
        #[trigger] m.locks[names[j]].queue[i]).1.client < r.next_client_id
            || m.locks[names[j]].queue[i].1.client == u64::MAX by {
            if j == n - 1 {
                assert(locks[n - 1].queue[i] == m.locks[key].queue[i].1);
            }
        }
    }
}

/// Deadlines come back one by one.
pub proof fn lemma_deadlines(b: BrokerModel, deadlines: Seq<DeadlineSnapshotModel>, n: nat, now: u128)
    requires
        n <= deadlines.len(),
        n < u64::MAX,
        b.deadlines == Map::<DeadlineKey, DeadlineModel>::empty(),
        b.deadline_seq == 0,
    ensures
        ({
            let r = b.deadlines_restored(deadlines, n, now);
            &&& r == BrokerModel { deadlines: r.deadlines, deadline_seq: n as u64, ..b }
            &&& r.deadlines.dom().finite()
            &&& r.deadlines.len() == n
            &&& forall|k: DeadlineKey| #[trigger] r.deadlines.dom().contains(k) ==> k.seq <= n
            &&& forall|j: int|
                0 <= j < n ==> has_deadline(r, #[trigger] deadlines[j], (j + 1) as u64, now)
        }),
    decreases n,
{
    if n == 0 {
        assert(b.deadlines.dom() =~= Set::empty());
    } else {
        lemma_deadlines(b, deadlines, (n - 1) as nat, now);
        let before = b.deadlines_restored(deadlines, (n - 1) as nat, now);
        let r = b.deadlines_restored(deadlines, n, now);
        let k = DeadlineKey {
            at: snapshot_install::instant_after(now, deadlines[n - 1].remaining_ms),
            seq: n as u64,
        };
        assert(model::wrapped_next(before.deadline_seq) == n as u64);
        assert(!before.deadlines.dom().contains(k));
        assert(r.deadlines.dom() =~= before.deadlines.dom().insert(k));
        assert forall|j: int| 0 <= j < n implies has_deadline(
            r,
            #[trigger] deadlines[j],
            (j + 1) as u64,
            now,
        ) by {
            if j < n - 1 {
                assert(has_deadline(before, deadlines[j], (j + 1) as u64, now));
            }
        }
    }
}

/// A broker has a written deadline, with its remaining time counted from `now`.
pub open spec fn has_deadline(m: BrokerModel, d: DeadlineSnapshotModel, seq: u64, now: u128) -> bool {
    let k = DeadlineKey { at: snapshot_install::instant_after(now, d.remaining_ms), seq };
    &&& m.deadlines.dom().contains(k)
    &&& m.deadlines[k] == DeadlineModel {
        lock_uuid: d.lock_uuid,
        keys: d.keys,
        kind: d.kind,
        client: SNAPSHOT_DETACHED_CLIENT,
    }
}

/// What a broker writes, another one with the same ceiling restores: the same
/// keys, each as it was with its holders as bearer tokens, the same counters,
/// and every deadline of a holder with its remaining time. No key falls behind the
/// token that it has reached, and no client id of a waiter is handed out again.
pub proof fn what_is_written_is_restored(
    m: BrokerModel,
    b: BrokerModel,
    written: u128,
    now: u128,
)
    requires
        exclusion::safe(m),
        composites::lined_up(m),
        b.cap() == m.cap(),
        m.live_deadlines().len() < u64::MAX,
    ensures
        ({
            let r = b.restored(m.snapshot(written), now);
            &&& r.config == b.config
            &&& r.clients.dom().is_empty()
            &&& r.locks.dom() == m.locks.dom()
            &&& forall|k: Seq<char>| #[trigger]
                m.locks.dom().contains(k) ==> restored_as(m.locks[k], r.locks[k], now)
                    && r.locks[k].fencing_counter <= r.fencing_watermark
            &&& m.fencing_watermark <= r.fencing_watermark
            &&& forall|k: Seq<char>| m.reached(k) <= #[trigger] r.reached(k)
            &&& r.ttl_evictions_total == m.ttl_evictions_total
            &&& r.concurrency_cap_clamps_total == m.concurrency_cap_clamps_total
            &&& r.idle_keys_pruned_total == m.idle_keys_pruned_total
            &&& forall|k: Seq<char>, i: int|
                m.locks.dom().contains(k) && 0 <= i < m.locks[k].queue.len() ==> (
                #[trigger] m.locks[k].queue[i]).1.client < r.next_client_id
                    || m.locks[k].queue[i].1.client == u64::MAX
            &&& r.deadlines.len() == m.live_deadlines().len()
            &&& forall|j: int|
                0 <= j < m.live_deadlines().len() ==> has_deadline(
                    r,
                    snapshot::deadline_snapshot(
                        m.deadlines[(#[trigger] m.live_deadlines()[j]).2],
                        m.live_deadlines()[j].2,
                        written,
                    ),
                    (j + 1) as u64,
                    now,
                )
        }),
{
    let s = m.snapshot(written);
    let base = b.emptied().counters_restored(s);
    let names = ordered_map::ascending_keys::<String>(m.locks.dom());
    ordered_map::lemma_ascending_walk::<String>(m.locks.dom());
    lemma_locks(m, base, written, now, s.locks.len());
    let mid = b.with_locks_of(s, now);
    assert(names.take(names.len() as int) =~= names);
    lemma_deadlines(mid, s.deadlines, s.deadlines.len(), now);
    let r = b.restored(s, now);
    assert forall|k: Seq<char>| #[trigger] m.locks.dom().contains(k) implies restored_as(
        m.locks[k],
        r.locks[k],
        now,
    ) && r.locks[k].fencing_counter <= r.fencing_watermark by {
        assert(names.to_set().contains(k));
        let j = choose|j: int| 0 <= j < names.len() && names[j] == k;
        assert(restored_as(m.locks[names[j]], mid.locks[names[j]], now));
    }
    assert forall|k: Seq<char>, i: int|
        m.locks.dom().contains(k) && 0 <= i < m.locks[k].queue.len() implies (
    #[trigger] m.locks[k].queue[i]).1.client < r.next_client_id || m.locks[k].queue[i].1.client
        == u64::MAX by {
        assert(names.to_set().contains(k));
        let j = choose|j: int| 0 <= j < names.len() && names[j] == k;
        assert(m.locks[names[j]].queue[i] == m.locks[k].queue[i]);
    }
    assert forall|j: int| 0 <= j < m.live_deadlines().len() implies has_deadline(
        r,
        snapshot::deadline_snapshot(
            m.deadlines[(#[trigger] m.live_deadlines()[j]).2],
            m.live_deadlines()[j].2,
            written,
        ),
        (j + 1) as u64,
        now,
    ) by {
        assert(has_deadline(r, s.deadlines[j], (j + 1) as u64, now));
    }
}

/// Nothing that a key names is nameless.
pub open spec fn named(key: Seq<char>, l: LockModel) -> bool {
    &&& key.len() > 0
    &&& !l.exclusive_holders.dom().contains(Seq::empty())
    &&& !l.readers.dom().contains(Seq::empty())
    &&& l.writer matches Some(w) ==> w.lock_uuid.len() > 0
    &&& forall|i: int| 0 <= i < l.queue.len() ==> named_waiter((#[trigger] l.queue[i]).1)
}

/// Nothing that a waiter names is nameless.
pub open spec fn named_waiter(p: PendingModel) -> bool {
    &&& p.request_uuid.len() > 0
    &&& p.grant_lock_uuid != Some(Seq::<char>::empty())
    &&& p.kind matches KindModel::Composite { all_keys, composite_lock_uuid, .. } ==> {
        &&& composite_lock_uuid.len() > 0
        &&& forall|i: int| 0 <= i < all_keys.len() ==> (#[trigger] all_keys[i]).len() > 0
    }
}

/// The holder of a deadline, if it is still there, has a name and holds all of
/// the deadline's keys.
pub open spec fn whole(m: BrokerModel, d: DeadlineModel) -> bool {
    m.still_held(d) ==> {
        &&& d.lock_uuid.len() > 0
        &&& d.keys.len() > 0
        &&& forall|i: int|
            0 <= i < d.keys.len() ==> (#[trigger] d.keys[i]).len() > 0 && m.locks.dom().contains(
                d.keys[i],
            ) && m.locks[d.keys[i]].held_under(d.lock_uuid, d.kind)
    }
}

/// A broker whose snapshots can be restored: nothing is nameless, and no
/// composite lock with a deadline has been released in part.
pub open spec fn storable(m: BrokerModel) -> bool {
    &&& m.deadlines.dom().finite()
    &&& forall|k: Seq<char>| #[trigger] m.locks.dom().contains(k) ==> named(k, m.locks[k])
    &&& forall|k: DeadlineKey| #[trigger] m.deadlines.dom().contains(k) ==> whole(
        m,
        m.deadlines[k],
    )
}

/// Where no item has an error there is no first error.
proof fn lemma_none(n: nat, f: spec_fn(int) -> Option<Seq<char>>)
    requires
        forall|i: int| 0 <= i < n ==> #[trigger] f(i) is None,
    ensures
        snapshot_check::first_error(n, f) is None,
    decreases n,
{
    if n > 0 {
        lemma_none((n - 1) as nat, f);
    }
}

/// A consistent waiter has no error.
proof fn lemma_waiter(key: Seq<char>, e: (Seq<char>, PendingModel))
    requires
        composites::consistent(key, e),
        named_waiter(e.1),
    ensures
        snapshot_check::waiter_error(key, e.1) is None,
{
    if let KindModel::Composite {
        all_keys,
        remaining_keys,
        granted_keys,
        granted_tokens,
        composite_lock_uuid,
    } = e.1.kind {
        let all = all_keys;
        let g = granted_keys.len() as int;
        ordered_map::lemma_ascending_no_duplicates::<String>(all);
        let f1 = |i: int| snapshot_check::composite_key_error(key, all, i);
        assert forall|i: int| 0 <= i < all.len() implies #[trigger] f1(i) is None by {
            assert(all[i].len() > 0);
            if all.take(i).contains(all[i]) {
                let j = choose|j: int| 0 <= j < i && all.take(i)[j] == all[i];
                assert(all[j] == all[i]);
            }
        }
        lemma_none(all.len(), f1);
        let f2 = |i: int| snapshot_check::remaining_key_error(key, all, remaining_keys, i);
        assert forall|i: int| 0 <= i < remaining_keys.len() implies #[trigger] f2(i) is None by {
            assert(all[g + i] == remaining_keys[i]);
            if remaining_keys.take(i).contains(remaining_keys[i]) {
                let j = choose|j: int|
                    0 <= j < i && remaining_keys.take(i)[j] == remaining_keys[i];
                assert(all[g + j] == all[g + i]);
            }
        }
        lemma_none(remaining_keys.len(), f2);
        let f3 = |i: int|
            snapshot_check::granted_key_error(key, all, remaining_keys, granted_keys, i);
        assert forall|i: int| 0 <= i < granted_keys.len() implies #[trigger] f3(i) is None by {
            assert(all[i] == granted_keys[i]);
            if granted_keys.take(i).contains(granted_keys[i]) {
                let j = choose|j: int| 0 <= j < i && granted_keys.take(i)[j] == granted_keys[i];
                assert(all[j] == all[i]);
            }
            if remaining_keys.contains(granted_keys[i]) {
                let j = choose|j: int|
                    0 <= j < remaining_keys.len() && remaining_keys[j] == granted_keys[i];
                assert(all[g + j] == all[i]);
            }
        }
        lemma_none(granted_keys.len(), f3);
        vstd::seq_lib::seq_to_set_is_finite(granted_keys);
        ordered_map::lemma_ascending_walk::<String>(granted_tokens.dom());
        let token_keys = ordered_map::ascending_keys::<String>(granted_tokens.dom());
        let f4 = |i: int| snapshot_check::token_key_error(key, all, token_keys[i]);
        assert forall|i: int| 0 <= i < token_keys.len() implies #[trigger] f4(i) is None by {
            assert(token_keys.to_set().contains(token_keys[i]));
            assert(granted_keys.contains(token_keys[i]));
            let j = choose|j: int| 0 <= j < granted_keys.len() && granted_keys[j] == token_keys[i];
            assert(all[j] == token_keys[i]);
        }
        lemma_none(token_keys.len(), f4);
        assert(remaining_keys.to_set().union(granted_keys.to_set()) =~= all.to_set()) by {
            assert forall|k: Seq<char>| remaining_keys.to_set().union(
                granted_keys.to_set(),
            ).contains(k) == all.to_set().contains(k) by {
                if remaining_keys.contains(k) {
                    let j = choose|j: int| 0 <= j < remaining_keys.len() && remaining_keys[j] == k;
                    assert(all[g + j] == k);
                }
                if granted_keys.contains(k) {
                    let j = choose|j: int| 0 <= j < granted_keys.len() && granted_keys[j] == k;
                    assert(all[j] == k);
                }
                if all.contains(k) {
                    let j = choose|j: int| 0 <= j < all.len() && all[j] == k;
                    if j < g {
                        assert(granted_keys[j] == k);
                    } else {
                        assert(remaining_keys[j - g] == k);
                    }
                }
            }
        }
    }
}

/// A key that is in order has no error.
proof fn lemma_lock(key: Seq<char>, l: LockModel, cap: u32)
    requires
        exclusion::orderly(l, cap),
        composites::consistent_queue(key, l.queue),
        named(key, l),
    ensures
        l.snapshot(key).error() is None,
{
    let s = l.snapshot(key);
    let ids = ordered_map::ascending_keys::<String>(l.exclusive_holders.dom());
    let readers = ordered_map::ascending_keys::<String>(l.readers.dom());
    ordered_map::lemma_ascending_walk::<String>(l.exclusive_holders.dom());
    ordered_map::lemma_ascending_walk::<String>(l.readers.dom());
    let f1 = |i: int| s.exclusive_error(i);
    assert forall|i: int| 0 <= i < s.exclusive_holders.len() implies #[trigger] f1(i) is None by {
        assert(ids.to_set().contains(ids[i]));
        if ids[i].len() == 0 {
            assert(ids[i] =~= Seq::empty());
        }
        if s.exclusive_among(i, ids[i]) {
            let j = choose|j: int|
                0 <= j < i && (#[trigger] s.exclusive_holders[j]).lock_uuid == ids[i];
            assert(ids[j] == ids[i]);
        }
    }
    lemma_none(s.exclusive_holders.len(), f1);
    if ids.len() > 0 {
        assert(ids.to_set().contains(ids[0]));
        assert(!l.exclusive_holders.is_empty());
    }
    if readers.len() > 0 {
        assert(readers.to_set().contains(readers[0]));
        assert(!l.readers.is_empty());
    }
    let f2 = |i: int| s.reader_error(i);
    assert forall|i: int| 0 <= i < s.readers.len() implies #[trigger] f2(i) is None by {
        assert(readers.to_set().contains(readers[i]));
        if readers[i].len() == 0 {
            assert(readers[i] =~= Seq::empty());
        }
        assert(ids.len() == 0);
        if s.reader_among(i, readers[i]) {
            let j = choose|j: int|
                0 <= j < i && (#[trigger] s.readers[j]).lock_uuid == readers[i];
            assert(readers[j] == readers[i]);
        }
    }
    lemma_none(s.readers.len(), f2);
    let f3 = |i: int| s.queue_error(i);
    assert forall|i: int| 0 <= i < s.queue.len() implies #[trigger] f3(i) is None by {
        assert(composites::consistent(key, l.queue[i]));
        assert(named_waiter(l.queue[i].1));
        lemma_waiter(key, l.queue[i]);
        if s.waiter_among(i, s.queue[i].request_uuid) {
            let j = choose|j: int|
                0 <= j < i && (#[trigger] s.queue[j]).request_uuid == s.queue[i].request_uuid;
            assert(composites::consistent(key, l.queue[j]));
            assert(l.queue[j].0 == l.queue[i].0);
        }
    }
    lemma_none(s.queue.len(), f3);
}

/// As many requests wait as the counters say.
proof fn lemma_waiters(m: BrokerModel, now: u128, n: nat)
    requires
        m.locks.dom().finite(),
        n <= m.snapshot(now).locks.len(),
    ensures
        ({
            let names = ordered_map::ascending_keys::<String>(m.locks.dom());
            snapshot_check::waiters_on(m.snapshot(now).locks, n) == sums::map_sum(
                m.locks.restrict(names.take(n as int).to_set()),
                stats::waiters_of(),
            )
        }),
    decreases n,
{
    let names = ordered_map::ascending_keys::<String>(m.locks.dom());
    let locks = m.snapshot(now).locks;
    ordered_map::lemma_ascending_walk::<String>(m.locks.dom());
    let part = m.locks.restrict(names.take(n as int).to_set());
    if n == 0 {
        assert(part.dom() =~= Set::empty());
    } else {
        lemma_waiters(m, now, (n - 1) as nat);
        let key = names[n - 1];
        let before = m.locks.restrict(names.take(n - 1).to_set());
        assert(names.to_set().contains(key));
        assert(names.take(n as int) =~= names.take(n - 1).push(key));
        names.take(n - 1).lemma_push_to_set_commute(key);
        let front = names.take(n - 1);
        assert(!front.contains(key)) by {
            if front.contains(key) {
                let j = choose|j: int| 0 <= j < front.len() && front[j] == key;
                assert(names[j] == names[n - 1]);
            }
        }
        assert(part =~= before.insert(key, m.locks[key]));
        assert(before.dom().subset_of(m.locks.dom()));
        vstd::set_lib::lemma_len_subset(before.dom(), m.locks.dom());
        sums::lemma_sum_insert(before, stats::waiters_of(), key, m.locks[key]);
    }
}

/// The deadlines of a snapshot are deadlines of the broker.
proof fn lemma_live(m: BrokerModel)
    requires
        m.deadlines.dom().finite(),
    ensures
        forall|j: int|
            0 <= j < m.live_deadlines().len() ==> m.deadlines.dom().contains(
                (#[trigger] m.live_deadlines()[j]).2,
            ) && m.still_held(m.deadlines[m.live_deadlines()[j].2]),
{
    let live = Set::new(
        |r: (Seq<char>, Seq<Seq<char>>, DeadlineKey)|
            {
                &&& m.deadlines.dom().contains(r.2)
                &&& m.still_held(m.deadlines[r.2])
                &&& r.0 == m.deadlines[r.2].lock_uuid
                &&& r.1 == m.deadlines[r.2].keys
            },
    );
    let f = |k: DeadlineKey| (m.deadlines[k].lock_uuid, m.deadlines[k].keys, k);
    m.deadlines.dom().lemma_map_finite(f);
    assert(live.subset_of(m.deadlines.dom().map(f))) by {
        assert forall|r: (Seq<char>, Seq<Seq<char>>, DeadlineKey)| live.contains(
            r,
        ) implies m.deadlines.dom().map(f).contains(r) by {
            assert(f(r.2) == r);
        }
    }
    vstd::set_lib::lemma_len_subset(live, m.deadlines.dom().map(f));
    ordered_map::lemma_ascending_walk::<DeadlineRank>(live);
    let all = m.live_deadlines();
    assert forall|j: int| 0 <= j < all.len() implies m.deadlines.dom().contains(
        (#[trigger] all[j]).2,
    ) && m.still_held(m.deadlines[all[j].2]) by {
        assert(all.to_set().contains(all[j]));
        assert(live.contains(all[j]));
    }
}

/// A broker in order, in which nothing is nameless and no composite lock with a
/// deadline has been released in part, writes a snapshot that can be installed.
pub proof fn a_snapshot_can_be_installed(m: BrokerModel, now: u128)
    requires
        exclusion::safe(m),
        composites::lined_up(m),
        storable(m),
    ensures
        m.snapshot(now).error() is None,
{
    let s = m.snapshot(now);
    let names = ordered_map::ascending_keys::<String>(m.locks.dom());
    ordered_map::lemma_ascending_walk::<String>(m.locks.dom());
    assert forall|i: int| 0 <= i < names.len() implies m.locks.dom().contains(
        #[trigger] names[i],
    ) by {
        assert(names.to_set().contains(names[i]));
    }
    assert forall|i: int| 0 <= i < s.locks.len() implies !snapshot_check::key_among(
        s.locks,
        i,
        #[trigger] s.locks[i].key,
    ) by {
        if snapshot_check::key_among(s.locks, i, s.locks[i].key) {
            let j = choose|j: int| 0 <= j < i && (#[trigger] s.locks[j]).key == s.locks[i].key;
            assert(names[j] == names[i]);
        }
    }
    let f1 = |i: int| snapshot_check::lock_error(s.locks, i);
    assert forall|i: int| 0 <= i < s.locks.len() implies #[trigger] f1(i) is None by {
        let k = names[i];
        assert(m.locks.dom().contains(k));
        assert(s.locks[i] == m.locks[k].snapshot(k));
        assert(!snapshot_check::key_among(s.locks, i, s.locks[i].key));
        lemma_lock(k, m.locks[k], m.cap());
    }
    lemma_none(s.locks.len(), f1);
    lemma_waiters(m, now, s.locks.len());
    assert(names.take(names.len() as int) =~= names);
    assert(m.locks.restrict(names.to_set()) =~= m.locks);
    lemma_live(m);
    let all = m.live_deadlines();
    let f2 = |i: int| snapshot_check::deadline_error(s.locks, s.deadlines[i]);
    assert forall|i: int| 0 <= i < s.deadlines.len() implies #[trigger] f2(i) is None by {
        let d = m.deadlines[all[i].2];
        assert(m.deadlines.dom().contains(all[i].2));
        assert(whole(m, d));
        assert forall|x: int| 0 <= x < d.keys.len() implies snapshot_check::held_in(
            s.locks,
            #[trigger] d.keys[x],
            d.lock_uuid,
            d.kind,
        ) by {
            let k = d.keys[x];
            assert(m.locks.dom().contains(k));
            assert(names.to_set().contains(k));
            let j = choose|j: int| 0 <= j < names.len() && names[j] == k;
            let l = m.locks[k];
            assert(s.locks[j] == l.snapshot(k));
            assert(!snapshot_check::key_among(s.locks, j, s.locks[j].key));
            lemma_held(l, k, d.lock_uuid, d.kind);
        }
    }
    lemma_none(s.deadlines.len(), f2);
}

/// Who holds a key is in its snapshot.
proof fn lemma_held(
    l: LockModel,
    key: Seq<char>,
    lock_uuid: Seq<char>,
    kind: crate::broker::types::RwHoldKind,
)
    requires
        l.exclusive_holders.dom().finite(),
        l.readers.dom().finite(),
        l.held_under(lock_uuid, kind),
    ensures
        l.snapshot(key).held_under(lock_uuid, kind),
{
    let s = l.snapshot(key);
    let ids = ordered_map::ascending_keys::<String>(l.exclusive_holders.dom());
    let readers = ordered_map::ascending_keys::<String>(l.readers.dom());
    ordered_map::lemma_ascending_walk::<String>(l.exclusive_holders.dom());
    ordered_map::lemma_ascending_walk::<String>(l.readers.dom());
    if l.exclusive_holders.dom().contains(lock_uuid) {
        assert(ids.to_set().contains(lock_uuid));
        let j = choose|j: int| 0 <= j < ids.len() && ids[j] == lock_uuid;
        assert(s.exclusive_holders[j].lock_uuid == lock_uuid);
    }
    if l.readers.dom().contains(lock_uuid) {
        assert(readers.to_set().contains(lock_uuid));
        let j = choose|j: int| 0 <= j < readers.len() && readers[j] == lock_uuid;
        assert(s.readers[j].lock_uuid == lock_uuid);
    }
}

} // verus!
