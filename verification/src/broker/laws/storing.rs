//! Which snapshots can be installed, and what they make of a broker.

use crate::broker::laws::acquiring;
use crate::broker::laws::snapshots;
use crate::broker::laws::sweeping;
use crate::broker::snapshot;
use crate::broker::snapshot::{
    DeadlineRank, DeadlineSnapshotModel, LockSnapshotModel, SnapshotModel,
};
use crate::broker::snapshot_check;
use crate::broker::snapshot_install;
use crate::broker::snapshot_install::SnapshotPayload;
use crate::broker::types::{
    BrokerModel, DeadlineKey, DeadlineModel, KindModel, LockModel, PendingModel, RwHoldKind,
};
use crate::ordered_map;
use vstd::prelude::*;

verus! {

/// There is no first error exactly if there is no error.
proof fn lemma_no_error(n: nat, f: spec_fn(int) -> Option<Seq<char>>)
    ensures
        snapshot_check::first_error(n, f) is None <==> forall|i: int|
            0 <= i < n ==> #[trigger] f(i) is None,
    decreases n,
{
    if n > 0 {
        lemma_no_error((n - 1) as nat, f);
        if forall|i: int| 0 <= i < n ==> #[trigger] f(i) is None {
            assert(f(n - 1) is None);
        }
        if snapshot_check::first_error(n, f) is None {
            assert forall|i: int| 0 <= i < n implies #[trigger] f(i) is None by {}
        }
    }
}

/// The composite request is one that waits for the first of its remaining keys: it has
/// one to five keys, named and different, those it has taken and those that remain
/// are all of them and none twice, and it has the tokens of those it has taken.
pub open spec fn sound_composite(
    key: Seq<char>,
    all: Seq<Seq<char>>,
    remaining: Seq<Seq<char>>,
    granted: Seq<Seq<char>>,
    tokens: Map<Seq<char>, u64>,
    lock_uuid: Seq<char>,
) -> bool {
    &&& lock_uuid.len() > 0
    &&& 1 <= all.len() <= 5
    &&& remaining.len() > 0
    &&& remaining[0] == key
    &&& forall|i: int| 0 <= i < all.len() ==> (#[trigger] all[i]).len() > 0
    &&& all.no_duplicates()
    &&& remaining.no_duplicates()
    &&& granted.no_duplicates()
    &&& forall|k: Seq<char>|
        #![trigger all.contains(k)]
        all.contains(k) <==> remaining.contains(k) || granted.contains(k)
    &&& forall|k: Seq<char>|
        #![trigger remaining.contains(k)]
        !(remaining.contains(k) && granted.contains(k))
    &&& forall|k: Seq<char>| #[trigger] tokens.dom().contains(k) <==> granted.contains(k)
}

/// The waiter has names, and is sound if it is composite.
pub open spec fn sound_waiter(key: Seq<char>, p: PendingModel) -> bool {
    &&& p.request_uuid.len() > 0
    &&& p.grant_lock_uuid matches Some(u) ==> u.len() > 0
    &&& p.kind matches KindModel::Composite {
        all_keys,
        remaining_keys,
        granted_keys,
        granted_tokens,
        composite_lock_uuid,
    } ==> sound_composite(
        key,
        all_keys,
        remaining_keys,
        granted_keys,
        granted_tokens,
        composite_lock_uuid,
    )
}

/// The key has a level, its holders and waiters have names and no two the same, and it
/// is idle only if it has none.
pub open spec fn sound_lock(l: LockSnapshotModel) -> bool {
    &&& l.max > 0
    &&& forall|i: int|
        0 <= i < l.exclusive_holders.len() ==> (#[trigger] l.exclusive_holders[i]).lock_uuid.len()
            > 0
    &&& forall|i: int| 0 <= i < l.readers.len() ==> (#[trigger] l.readers[i]).lock_uuid.len() > 0
    &&& l.writer matches Some(w) ==> w.lock_uuid.len() > 0
    &&& forall|i: int, j: int|
        0 <= i < j < l.exclusive_holders.len() ==> (#[trigger] l.exclusive_holders[i]).lock_uuid != (
        #[trigger] l.exclusive_holders[j]).lock_uuid
    &&& forall|i: int, j: int|
        0 <= i < j < l.readers.len() ==> (#[trigger] l.readers[i]).lock_uuid != (
        #[trigger] l.readers[j]).lock_uuid
    &&& forall|i: int, j: int|
        0 <= i < l.exclusive_holders.len() && 0 <= j < l.readers.len() ==> (
        #[trigger] l.exclusive_holders[i]).lock_uuid != (#[trigger] l.readers[j]).lock_uuid
    &&& l.writer matches Some(w) ==> (forall|i: int|
        0 <= i < l.exclusive_holders.len() ==> (#[trigger] l.exclusive_holders[i]).lock_uuid
            != w.lock_uuid)
    &&& l.writer matches Some(w) ==> (forall|i: int|
        0 <= i < l.readers.len() ==> (#[trigger] l.readers[i]).lock_uuid != w.lock_uuid)
    &&& l.idle ==> l.exclusive_holders.len() == 0 && l.readers.len() == 0 && l.writer is None
        && l.queue.len() == 0
    &&& forall|i: int| 0 <= i < l.queue.len() ==> sound_waiter(l.key, #[trigger] l.queue[i])
    &&& forall|i: int, j: int|
        0 <= i < j < l.queue.len() ==> (#[trigger] l.queue[i]).request_uuid != (
        #[trigger] l.queue[j]).request_uuid
}

/// The key is written down as held that way under that id.
pub open spec fn written_as_held(
    locks: Seq<LockSnapshotModel>,
    key: Seq<char>,
    id: Seq<char>,
    kind: RwHoldKind,
) -> bool {
    exists|j: int|
        0 <= j < locks.len() && {
            let l = #[trigger] locks[j];
            l.key == key && match kind {
                RwHoldKind::Exclusive => exists|i: int|
                    0 <= i < l.exclusive_holders.len() && (
                    #[trigger] l.exclusive_holders[i]).lock_uuid == id,
                RwHoldKind::Read => exists|i: int|
                    0 <= i < l.readers.len() && (#[trigger] l.readers[i]).lock_uuid == id,
                RwHoldKind::Write => l.writer is Some && l.writer->0.lock_uuid == id,
            }
        }
}

/// The deadline has a name and keys, all of them named and held by its holder.
pub open spec fn sound_deadline(locks: Seq<LockSnapshotModel>, d: DeadlineSnapshotModel) -> bool {
    &&& d.lock_uuid.len() > 0
    &&& d.keys.len() > 0
    &&& forall|i: int| 0 <= i < d.keys.len() ==> (#[trigger] d.keys[i]).len() > 0
    &&& forall|i: int|
        0 <= i < d.keys.len() ==> written_as_held(locks, #[trigger] d.keys[i], d.lock_uuid, d.kind)
}

/// How many requests wait on the locks.
pub open spec fn all_waiters(locks: Seq<LockSnapshotModel>) -> nat
    decreases locks.len(),
{
    if locks.len() == 0 {
        0
    } else {
        all_waiters(locks.drop_last()) + locks.last().queue.len()
    }
}

/// A snapshot that can be installed.
pub open spec fn sound(s: SnapshotModel) -> bool {
    &&& s.schema_version == 1
    &&& forall|i: int| 0 <= i < s.locks.len() ==> (#[trigger] s.locks[i]).key.len() > 0
    &&& forall|i: int, j: int|
        0 <= i < j < s.locks.len() ==> (#[trigger] s.locks[i]).key != (#[trigger] s.locks[j]).key
    &&& forall|i: int| 0 <= i < s.locks.len() ==> sound_lock(#[trigger] s.locks[i])
    &&& s.metrics.waiters == if all_waiters(s.locks) > u64::MAX {
        u64::MAX as nat
    } else {
        all_waiters(s.locks)
    }
    &&& forall|i: int|
        0 <= i < s.deadlines.len() ==> sound_deadline(s.locks, #[trigger] s.deadlines[i])
}

/// What a composite request must be.
proof fn lemma_composite(
    key: Seq<char>,
    all: Seq<Seq<char>>,
    remaining: Seq<Seq<char>>,
    granted: Seq<Seq<char>>,
    tokens: Map<Seq<char>, u64>,
    lock_uuid: Seq<char>,
)
    requires
        tokens.dom().finite(),
    ensures
        snapshot_check::composite_error(key, all, remaining, granted, tokens, lock_uuid) is None
            <==> sound_composite(key, all, remaining, granted, tokens, lock_uuid),
{
    let token_keys = ordered_map::ascending_keys::<String>(tokens.dom());
    ordered_map::lemma_ascending_walk::<String>(tokens.dom());
    let f1 = |i: int| snapshot_check::composite_key_error(key, all, i);
    let f2 = |i: int| snapshot_check::remaining_key_error(key, all, remaining, i);
    let f3 = |i: int| snapshot_check::granted_key_error(key, all, remaining, granted, i);
    let f4 = |i: int| snapshot_check::token_key_error(key, all, token_keys[i]);
    lemma_no_error(all.len(), f1);
    lemma_no_error(remaining.len(), f2);
    lemma_no_error(granted.len(), f3);
    lemma_no_error(token_keys.len(), f4);
    lemma_distinct(all);
    lemma_distinct(remaining);
    lemma_distinct(granted);
    if snapshot_check::composite_error(key, all, remaining, granted, tokens, lock_uuid) is None {
        assert forall|i: int| 0 <= i < all.len() implies (#[trigger] all[i]).len() > 0 && !all.take(
            i,
        ).contains(all[i]) by {
            assert(f1(i) is None);
        }
        assert forall|i: int| 0 <= i < remaining.len() implies !remaining.take(i).contains(
            #[trigger] remaining[i],
        ) by {
            assert(f2(i) is None);
        }
        assert forall|i: int| 0 <= i < granted.len() implies !granted.take(i).contains(
            #[trigger] granted[i],
        ) && !remaining.contains(granted[i]) by {
            assert(f3(i) is None);
        }
        assert forall|k: Seq<char>|
            #![trigger all.contains(k)]
            all.contains(k) <==> remaining.contains(k) || granted.contains(k) by {
            assert(all.to_set().contains(k) <==> all.contains(k));
            assert(remaining.to_set().contains(k) <==> remaining.contains(k));
            assert(granted.to_set().contains(k) <==> granted.contains(k));
            assert(remaining.to_set().union(granted.to_set()).contains(k) <==> all.contains(k));
        }
        assert forall|k: Seq<char>|
            #![trigger remaining.contains(k)]
            !(remaining.contains(k) && granted.contains(k)) by {
            if granted.contains(k) {
                let i = choose|i: int| 0 <= i < granted.len() && granted[i] == k;
                assert(!remaining.contains(granted[i]));
            }
        }
        assert forall|k: Seq<char>| #[trigger] tokens.dom().contains(k) <==> granted.contains(k) by {
            assert(granted.to_set().contains(k) <==> granted.contains(k));
        }
    }
    if sound_composite(key, all, remaining, granted, tokens, lock_uuid) {
        assert forall|i: int| 0 <= i < all.len() implies #[trigger] f1(i) is None by {
            assert(all[i].len() > 0);
        }
        assert forall|i: int| 0 <= i < remaining.len() implies #[trigger] f2(i) is None by {
            assert(remaining.contains(remaining[i]));
            assert(all.contains(remaining[i]));
        }
        assert forall|i: int| 0 <= i < granted.len() implies #[trigger] f3(i) is None by {
            assert(granted.contains(granted[i]));
            assert(all.contains(granted[i]));
            assert(!(remaining.contains(granted[i]) && granted.contains(granted[i])));
        }
        assert forall|i: int| 0 <= i < token_keys.len() implies #[trigger] f4(i) is None by {
            assert(token_keys.to_set().contains(token_keys[i]));
            assert(tokens.dom().contains(token_keys[i]));
            assert(granted.contains(token_keys[i]));
            assert(all.contains(token_keys[i]));
        }
        assert(remaining.to_set().union(granted.to_set()) =~= all.to_set()) by {
            assert forall|k: Seq<char>| #[trigger]
                all.to_set().contains(k) <==> remaining.to_set().union(granted.to_set()).contains(
                    k,
                ) by {
                assert(all.to_set().contains(k) <==> all.contains(k));
                assert(remaining.to_set().contains(k) <==> remaining.contains(k));
                assert(granted.to_set().contains(k) <==> granted.contains(k));
            }
        }
        assert(tokens.dom() =~= granted.to_set()) by {
            assert forall|k: Seq<char>| #[trigger] tokens.dom().contains(k)
                <==> granted.to_set().contains(k) by {
                assert(granted.to_set().contains(k) <==> granted.contains(k));
            }
        }
    }
}

/// No item repeats an earlier one exactly if nothing occurs twice.
proof fn lemma_distinct(s: Seq<Seq<char>>)
    ensures
        s.no_duplicates() <==> forall|i: int|
            0 <= i < s.len() ==> !s.take(i).contains(#[trigger] s[i]),
{
    if s.no_duplicates() {
        assert forall|i: int| 0 <= i < s.len() implies !s.take(i).contains(#[trigger] s[i]) by {
            if s.take(i).contains(s[i]) {
                let j = choose|j: int| 0 <= j < i && s.take(i)[j] == s[i];
                assert(s[j] == s[i]);
            }
        }
    }
    if forall|i: int| 0 <= i < s.len() ==> !s.take(i).contains(#[trigger] s[i]) {
        assert forall|i: int, j: int| 0 <= i < s.len() && 0 <= j < s.len() && i != j implies s[i]
            != s[j] by {
            if s[i] == s[j] {
                if i < j {
                    assert(s.take(j)[i] == s[j]);
                    assert(s.take(j).contains(s[j]));
                } else {
                    assert(s.take(i)[j] == s[i]);
                    assert(s.take(i).contains(s[i]));
                }
            }
        }
    }
}

/// The tokens of a composite waiter are finitely many, as in any map that was built.
pub open spec fn finite_tokens(l: LockSnapshotModel) -> bool {
    forall|i: int|
        0 <= i < l.queue.len() ==> ((#[trigger] l.queue[i]).kind matches KindModel::Composite {
            granted_tokens,
            ..
        } ==> granted_tokens.dom().finite())
}

/// What a key must be.
proof fn lemma_lock(l: LockSnapshotModel)
    requires
        finite_tokens(l),
    ensures
        l.error() is None <==> sound_lock(l),
{
    let f1 = |i: int| l.exclusive_error(i);
    let f2 = |i: int| l.reader_error(i);
    let f3 = |i: int| l.queue_error(i);
    lemma_no_error(l.exclusive_holders.len(), f1);
    lemma_no_error(l.readers.len(), f2);
    lemma_no_error(l.queue.len(), f3);
    assert forall|i: int| 0 <= i < l.queue.len() implies (snapshot_check::waiter_error(
        l.key,
        #[trigger] l.queue[i],
    ) is None <==> sound_waiter(l.key, l.queue[i])) by {
        let p = l.queue[i];
        if let KindModel::Composite {
            all_keys,
            remaining_keys,
            granted_keys,
            granted_tokens,
            composite_lock_uuid,
        } = p.kind {
            lemma_composite(
                l.key,
                all_keys,
                remaining_keys,
                granted_keys,
                granted_tokens,
                composite_lock_uuid,
            );
        }
        assert(p.grant_lock_uuid matches Some(u) ==> (u.len() == 0 ==> u =~= Seq::<
            char,
        >::empty()));
    }
    let x = l.exclusive_holders.len() as int;
    let r = l.readers.len() as int;
    if l.error() is None {
        assert forall|i: int| 0 <= i < x implies (
        #[trigger] l.exclusive_holders[i]).lock_uuid.len() > 0 && !l.exclusive_among(
            i,
            l.exclusive_holders[i].lock_uuid,
        ) by {
            assert(f1(i) is None);
        }
        assert forall|i: int| 0 <= i < r implies (#[trigger] l.readers[i]).lock_uuid.len() > 0
            && !l.exclusive_among(x, l.readers[i].lock_uuid) && !l.reader_among(
            i,
            l.readers[i].lock_uuid,
        ) by {
            assert(f2(i) is None);
        }
        assert forall|i: int| 0 <= i < l.queue.len() implies sound_waiter(
            l.key,
            #[trigger] l.queue[i],
        ) && !l.waiter_among(i, l.queue[i].request_uuid) by {
            assert(f3(i) is None);
            assert(snapshot_check::waiter_error(l.key, l.queue[i]) is None);
        }
    }
    if sound_lock(l) {
        assert forall|i: int| 0 <= i < x implies #[trigger] f1(i) is None by {
            assert(l.exclusive_holders[i].lock_uuid.len() > 0);
        }
        assert forall|i: int| 0 <= i < r implies #[trigger] f2(i) is None by {
            assert(l.readers[i].lock_uuid.len() > 0);
        }
        assert forall|i: int| 0 <= i < l.queue.len() implies #[trigger] f3(i) is None by {
            assert(sound_waiter(l.key, l.queue[i]));
            assert(snapshot_check::waiter_error(l.key, l.queue[i]) is None);
        }
    }
}

/// The waiters of the locks are counted one lock after the other.
proof fn lemma_waiters(locks: Seq<LockSnapshotModel>, n: nat)
    requires
        n <= locks.len(),
    ensures
        snapshot_check::waiters_on(locks, n) == all_waiters(locks.take(n as int)),
    decreases n,
{
    if n > 0 {
        lemma_waiters(locks, (n - 1) as nat);
        assert(locks.take(n as int).drop_last() =~= locks.take(n - 1));
    }
}

/// Where no key occurs twice, a key is held as one lock says.
proof fn lemma_deadline(locks: Seq<LockSnapshotModel>, d: DeadlineSnapshotModel)
    requires
        forall|i: int, j: int|
            0 <= i < j < locks.len() ==> (#[trigger] locks[i]).key != (#[trigger] locks[j]).key,
    ensures
        snapshot_check::deadline_error(locks, d) is None <==> sound_deadline(locks, d),
{
    assert forall|k: Seq<char>| #[trigger] snapshot_check::held_in(locks, k, d.lock_uuid, d.kind)
        <==> written_as_held(locks, k, d.lock_uuid, d.kind) by {
        if snapshot_check::held_in(locks, k, d.lock_uuid, d.kind) {
            let j = choose|j: int|
                0 <= j < locks.len() && (#[trigger] locks[j]).key == k
                    && !snapshot_check::key_among(locks, j, k) && locks[j].held_under(
                    d.lock_uuid,
                    d.kind,
                );
            let l = locks[j];
            match d.kind {
                RwHoldKind::Exclusive => {
                    let i = choose|i: int|
                        0 <= i < l.exclusive_holders.len() && (
                        #[trigger] l.exclusive_holders[i]).lock_uuid == d.lock_uuid;
                    assert(l.exclusive_holders[i].lock_uuid == d.lock_uuid);
                },
                RwHoldKind::Read => {
                    let i = choose|i: int|
                        0 <= i < l.readers.len() && (#[trigger] l.readers[i]).lock_uuid
                            == d.lock_uuid;
                    assert(l.readers[i].lock_uuid == d.lock_uuid);
                },
                RwHoldKind::Write => {},
            }
        }
        if written_as_held(locks, k, d.lock_uuid, d.kind) {
            let j = choose|j: int|
                0 <= j < locks.len() && {
                    let l = #[trigger] locks[j];
                    l.key == k && match d.kind {
                        RwHoldKind::Exclusive => exists|i: int|
                            0 <= i < l.exclusive_holders.len() && (
                            #[trigger] l.exclusive_holders[i]).lock_uuid == d.lock_uuid,
                        RwHoldKind::Read => exists|i: int|
                            0 <= i < l.readers.len() && (#[trigger] l.readers[i]).lock_uuid
                                == d.lock_uuid,
                        RwHoldKind::Write => l.writer is Some && l.writer->0.lock_uuid
                            == d.lock_uuid,
                    }
                };
            assert(locks[j].held_under(d.lock_uuid, d.kind));
            if snapshot_check::key_among(locks, j, k) {
                let i = choose|i: int| 0 <= i < j && (#[trigger] locks[i]).key == k;
                assert(locks[i].key != locks[j].key);
            }
        }
    }
    let empty = Seq::<char>::empty();
    if d.keys.contains(empty) {
        let i = choose|i: int| 0 <= i < d.keys.len() && d.keys[i] == empty;
        assert(d.keys[i].len() == 0);
    }
    if exists|i: int| 0 <= i < d.keys.len() && (#[trigger] d.keys[i]).len() == 0 {
        let i = choose|i: int| 0 <= i < d.keys.len() && (#[trigger] d.keys[i]).len() == 0;
        assert(d.keys[i] =~= empty);
    }
    if snapshot_check::deadline_matches(locks, d) {
        assert forall|i: int| 0 <= i < d.keys.len() implies written_as_held(
            locks,
            #[trigger] d.keys[i],
            d.lock_uuid,
            d.kind,
        ) by {
            assert(snapshot_check::held_in(locks, d.keys[i], d.lock_uuid, d.kind));
        }
    }
}

/// Exactly the sound snapshots can be installed: those of the one schema, whose keys
/// have names and no two the same, whose holders, waiters and composite requests are
/// in order, whose count of waiters is right, and whose deadlines are for holds that
/// they list.
pub proof fn exactly_sound_snapshots_can_be_installed(s: SnapshotModel)
    requires
        forall|i: int| 0 <= i < s.locks.len() ==> finite_tokens(#[trigger] s.locks[i]),
    ensures
        s.error() is None <==> sound(s),
{
    let f = |i: int| snapshot_check::lock_error(s.locks, i);
    let g = |i: int| snapshot_check::deadline_error(s.locks, s.deadlines[i]);
    lemma_no_error(s.locks.len(), f);
    lemma_no_error(s.deadlines.len(), g);
    lemma_waiters(s.locks, s.locks.len());
    assert(s.locks.take(s.locks.len() as int) =~= s.locks);
    assert forall|i: int| 0 <= i < s.locks.len() implies ((#[trigger] s.locks[i]).error() is None
        <==> sound_lock(s.locks[i])) by {
        lemma_lock(s.locks[i]);
    }
    if s.error() is None {
        assert forall|i: int| 0 <= i < s.locks.len() implies (#[trigger] s.locks[i]).key.len() > 0
            && !snapshot_check::key_among(s.locks, i, s.locks[i].key) && sound_lock(s.locks[i]) by {
            assert(f(i) is None);
        }
        assert forall|i: int, j: int| 0 <= i < j < s.locks.len() implies (
        #[trigger] s.locks[i]).key != (#[trigger] s.locks[j]).key by {
            assert(!snapshot_check::key_among(s.locks, j, s.locks[j].key));
        }
        assert forall|i: int| 0 <= i < s.deadlines.len() implies sound_deadline(
            s.locks,
            #[trigger] s.deadlines[i],
        ) by {
            assert(g(i) is None);
            lemma_deadline(s.locks, s.deadlines[i]);
        }
    }
    if sound(s) {
        assert forall|i: int| 0 <= i < s.locks.len() implies #[trigger] f(i) is None by {
            assert(s.locks[i].key.len() > 0);
            assert(sound_lock(s.locks[i]));
        }
        assert forall|i: int| 0 <= i < s.deadlines.len() implies #[trigger] g(i) is None by {
            assert(sound_deadline(s.locks, s.deadlines[i]));
            lemma_deadline(s.locks, s.deadlines[i]);
        }
    }
}

/// A payload with a fault changes nothing. The counters of an idle broker can be
/// installed exactly if they say that nobody holds, nobody waits and no deadline is
/// pending; the broker then has them and nothing else.
pub proof fn a_faulty_payload_changes_nothing(
    m: BrokerModel,
    payload: SnapshotPayload,
    now: u128,
)
    ensures
        snapshot_install::payload_error(payload) is Some ==> snapshot_install::installed(
            m,
            payload,
            now,
        ) == m,
        payload matches SnapshotPayload::Idle(metrics) ==> (snapshot_install::payload_error(
            payload,
        ) is None <==> (metrics matches Some(c) && c.holders == Some(0u64) && c.waiters == Some(0u64)
            && c.pending_deadlines == Some(0u64))),
        payload matches SnapshotPayload::Idle(Some(c)) ==> (snapshot_install::payload_error(
            payload,
        ) is None ==> {
            let n = snapshot_install::installed(m, payload, now);
            &&& n.locks == Map::<Seq<char>, LockModel>::empty()
            &&& n.clients.dom() == Set::<u64>::empty()
            &&& n.deadlines == Map::<DeadlineKey, DeadlineModel>::empty()
            &&& n.config == m.config
            &&& n.outbox == m.outbox
            &&& n.fencing_watermark == if c.fencing_watermark is Some {
                c.fencing_watermark->0
            } else {
                0
            }
            &&& n.ttl_evictions_total == if c.ttl_evictions_total is Some {
                c.ttl_evictions_total->0
            } else {
                0
            }
            &&& n.concurrency_cap_clamps_total == if c.concurrency_cap_clamps_total is Some {
                c.concurrency_cap_clamps_total->0
            } else {
                0
            }
            &&& n.idle_keys_pruned_total == if c.idle_keys_pruned_total is Some {
                c.idle_keys_pruned_total->0
            } else {
                0
            }
        }),
{
    if let SnapshotPayload::Idle(Some(c)) = payload {
        let n = snapshot_install::installed(m, payload, now);
        if snapshot_install::payload_error(payload) is None {
            assert(n.clients.dom() =~= Set::<u64>::empty());
        }
    }
}

/// A restored key gets the level that was written, within the ceiling of the broker
/// that restores it.
pub proof fn a_restored_level_is_within_the_ceiling(
    b: BrokerModel,
    l: LockSnapshotModel,
    now: u128,
)
    ensures
        ({
            let n = b.lock_restored(l, now);
            &&& n.locks.dom().contains(l.key)
            &&& n.locks[l.key].max == acquiring::bounded_level(b, l.max)
        }),
{
    lemma_level_exclusive(
        l,
        LockModel::fresh(l.restored_max(b.cap()), l.fencing_counter),
        l.exclusive_holders.len(),
    );
    let a = l.with_exclusive(
        LockModel::fresh(l.restored_max(b.cap()), l.fencing_counter),
        l.exclusive_holders.len(),
    );
    lemma_level_readers(l, a, l.readers.len());
    let c = l.with_writer(l.with_readers(a, l.readers.len()));
    lemma_level_queue(l, c, l.queue.len());
}

proof fn lemma_level_exclusive(s: LockSnapshotModel, l: LockModel, n: nat)
    ensures
        s.with_exclusive(l, n).max == l.max,
    decreases n,
{
    if n > 0 {
        lemma_level_exclusive(s, l, (n - 1) as nat);
    }
}

proof fn lemma_level_readers(s: LockSnapshotModel, l: LockModel, n: nat)
    ensures
        s.with_readers(l, n).max == l.max,
    decreases n,
{
    if n > 0 {
        lemma_level_readers(s, l, (n - 1) as nat);
    }
}

proof fn lemma_level_queue(s: LockSnapshotModel, l: LockModel, n: nat)
    ensures
        s.with_queue(l, n).max == l.max,
    decreases n,
{
    if n > 0 {
        lemma_level_queue(s, l, (n - 1) as nat);
    }
}

/// The deadlines of holds that have not ended, by what they are for.
proof fn lemma_live(m: BrokerModel)
    requires
        m.deadlines.dom().finite(),
    ensures
        forall|d: DeadlineKey| #[trigger]
            m.deadlines.dom().contains(d) && sweeping::still_there(m, m.deadlines[d])
                ==> exists|j: int| 0 <= j < m.live_deadlines().len() && (
            #[trigger] m.live_deadlines()[j]).2 == d,
        forall|j: int|
            0 <= j < m.live_deadlines().len() ==> m.deadlines.dom().contains(
                (#[trigger] m.live_deadlines()[j]).2,
            ) && sweeping::still_there(m, m.deadlines[m.live_deadlines()[j].2]),
{
    let all = Set::new(
        |r: (Seq<char>, Seq<Seq<char>>, DeadlineKey)|
            {
                &&& m.deadlines.dom().contains(r.2)
                &&& m.still_held(m.deadlines[r.2])
                &&& r.0 == m.deadlines[r.2].lock_uuid
                &&& r.1 == m.deadlines[r.2].keys
            },
    );
    let f = |d: DeadlineKey| (m.deadlines[d].lock_uuid, m.deadlines[d].keys, d);
    let image = m.deadlines.dom().map(f);
    m.deadlines.dom().lemma_map_finite(f);
    assert(all.subset_of(image)) by {
        assert forall|r: (Seq<char>, Seq<Seq<char>>, DeadlineKey)| #[trigger]
            all.contains(r) implies image.contains(r) by {
            assert(f(r.2) == r);
        }
    }
    vstd::set_lib::lemma_len_subset(all, image);
    ordered_map::lemma_ascending_walk::<DeadlineRank>(all);
    let live = m.live_deadlines();
    assert forall|d: DeadlineKey| #[trigger]
        m.deadlines.dom().contains(d) && sweeping::still_there(m, m.deadlines[d]) implies exists|
        j: int,
    | 0 <= j < live.len() && (#[trigger] live[j]).2 == d by {
        sweeping::lemma_still_there(m, m.deadlines[d]);
        assert(all.contains(f(d)));
        assert(live.to_set().contains(f(d)));
        let j = choose|j: int| 0 <= j < live.len() && live[j] == f(d);
        assert(live[j].2 == d);
    }
    assert forall|j: int| 0 <= j < live.len() implies m.deadlines.dom().contains(
        (#[trigger] live[j]).2,
    ) && sweeping::still_there(m, m.deadlines[live[j].2]) by {
        assert(live.to_set().contains(live[j]));
        assert(all.contains(live[j]));
        sweeping::lemma_still_there(m, m.deadlines[live[j].2]);
    }
}

/// What is left of a time to live at `written`, in whole milliseconds.
pub open spec fn left(d: DeadlineKey, written: u128) -> int {
    if d.at > written {
        (d.at - written) / 1_000_000
    } else {
        0
    }
}

/// What a broker writes keeps every hold's deadline: the one who restores it has a
/// deadline for the same hold, as far ahead as it was when it was written, up to a
/// millisecond. A deadline whose hold has ended is not written.
pub proof fn deadlines_are_kept_with_what_is_left_of_them(
    m: BrokerModel,
    b: BrokerModel,
    written: u128,
    now: u128,
    d: DeadlineKey,
)
    requires
        m.deadlines.dom().finite(),
        m.live_deadlines().len() < u64::MAX,
        m.deadlines.dom().contains(d),
        left(d, written) <= u64::MAX,
        now + left(d, written) * 1_000_000 <= u128::MAX,
    ensures
        ({
            let r = b.restored(m.snapshot(written), now);
            sweeping::still_there(m, m.deadlines[d]) ==> exists|e: DeadlineKey| #[trigger]
                r.deadlines.dom().contains(e) && e.at == now + left(d, written) * 1_000_000
                    && r.deadlines[e] == DeadlineModel { client: 0, ..m.deadlines[d] }
        }),
        forall|j: int|
            0 <= j < m.snapshot(written).deadlines.len() ==> exists|e: DeadlineKey| #[trigger]
                m.deadlines.dom().contains(e) && sweeping::still_there(m, m.deadlines[e])
                    && m.deadlines[e].lock_uuid == (#[trigger] m.snapshot(
                    written,
                ).deadlines[j]).lock_uuid && m.deadlines[e].keys == m.snapshot(
                    written,
                ).deadlines[j].keys && m.deadlines[e].kind == m.snapshot(written).deadlines[j].kind,
{
    lemma_live(m);
    let live = m.live_deadlines();
    let s = m.snapshot(written);
    let r = b.restored(s, now);
    let mid = b.with_locks_of(s, now);
    lemma_locks_frame(b.emptied().counters_restored(s), s.locks, s.locks.len(), now);
    snapshots::lemma_deadlines(mid, s.deadlines, s.deadlines.len(), now);
    assert forall|j: int| 0 <= j < s.deadlines.len() implies exists|e: DeadlineKey| #[trigger]
        m.deadlines.dom().contains(e) && sweeping::still_there(m, m.deadlines[e])
            && m.deadlines[e].lock_uuid == (#[trigger] s.deadlines[j]).lock_uuid
            && m.deadlines[e].keys == s.deadlines[j].keys && m.deadlines[e].kind
            == s.deadlines[j].kind by {
        let e = live[j].2;
        assert(s.deadlines[j] == snapshot::deadline_snapshot(m.deadlines[e], e, written));
        assert(m.deadlines.dom().contains(e));
    }
    if sweeping::still_there(m, m.deadlines[d]) {
        let j = choose|j: int| 0 <= j < live.len() && (#[trigger] live[j]).2 == d;
        assert(s.deadlines[j] == snapshot::deadline_snapshot(m.deadlines[d], d, written));
        assert(snapshots::has_deadline(r, s.deadlines[j], (j + 1) as u64, now));
        let e = DeadlineKey {
            at: snapshot_install::instant_after(now, s.deadlines[j].remaining_ms),
            seq: (j + 1) as u64,
        };
        assert(s.deadlines[j].remaining_ms == left(d, written));
        assert(r.deadlines.dom().contains(e));
        assert(r.deadlines[e] == DeadlineModel { client: 0, ..m.deadlines[d] });
    }
}

/// Restoring keys sets no deadlines.
proof fn lemma_locks_frame(b: BrokerModel, locks: Seq<LockSnapshotModel>, n: nat, now: u128)
    requires
        n <= locks.len(),
    ensures
        b.locks_restored(locks, n, now).deadlines == b.deadlines,
        b.locks_restored(locks, n, now).deadline_seq == b.deadline_seq,
    decreases n,
{
    if n > 0 {
        lemma_locks_frame(b, locks, (n - 1) as nat, now);
    }
}

/// A deadline that is restored falls due when what was left of it has passed; one that
/// lies beyond what the clock can reach falls due at once.
pub proof fn a_restored_deadline_falls_due(
    b: BrokerModel,
    s: SnapshotModel,
    now: u128,
    i: int,
)
    requires
        0 <= i < s.deadlines.len() < u64::MAX,
    ensures
        exists|e: DeadlineKey| #[trigger]
            b.restored(s, now).deadlines.dom().contains(e) && {
                let end = now + s.deadlines[i].remaining_ms * 1_000_000;
                let d = b.restored(s, now).deadlines[e];
                &&& end <= u128::MAX ==> e.at == end
                &&& end > u128::MAX ==> e.at == now
                &&& d.lock_uuid == s.deadlines[i].lock_uuid
                &&& d.keys == s.deadlines[i].keys
                &&& d.kind == s.deadlines[i].kind
            },
{
    let mid = b.with_locks_of(s, now);
    lemma_locks_frame(b.emptied().counters_restored(s), s.locks, s.locks.len(), now);
    snapshots::lemma_deadlines(mid, s.deadlines, s.deadlines.len(), now);
    let d = s.deadlines[i];
    assert(snapshots::has_deadline(b.restored(s, now), d, (i + 1) as u64, now));
    let e = DeadlineKey {
        at: snapshot_install::instant_after(now, d.remaining_ms),
        seq: (i + 1) as u64,
    };
    assert(b.restored(s, now).deadlines.dom().contains(e));
}

} // verus!
