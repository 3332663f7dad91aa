//! Restoring the broker from a snapshot.

use crate::broker::model;
use crate::broker::snapshot;
use crate::broker::snapshot::{
    BrokerRaftDeadlineSnapshot, BrokerRaftLockSnapshot, BrokerRaftSnapshot, DeadlineSnapshotModel,
    ExclusiveSnapshotModel, LockSnapshotModel, RwSnapshotModel, SnapshotModel,
};
use crate::broker::snapshot_check;
use crate::broker::state;
use crate::broker::types::{
    BrokerModel, BrokerState, DeadlineEntry, DeadlineKey, DeadlineModel, ExclusiveHolder, LockModel,
    LockState, PendingRequest, RwHolder, RwModel, NANOS_PER_MILLI, SNAPSHOT_DETACHED_CLIENT,
};
use crate::queue;
use crate::text;
use vstd::prelude::*;
use vstd::string::StringExecFns;

verus! {

/// The counters of a snapshot of an idle broker, as far as they are there.
#[derive(Debug, Clone, Copy, PartialEq, Eq, Structural)]
pub struct IdleSnapshotMetrics {
    pub holders: Option<u64>,
    pub waiters: Option<u64>,
    pub pending_deadlines: Option<u64>,
    pub ttl_evictions_total: Option<u64>,
    pub concurrency_cap_clamps_total: Option<u64>,
    pub fencing_watermark: Option<u64>,
    pub idle_keys_pruned_total: Option<u64>,
}

/// What is installed: a full snapshot, or the counters of an idle broker.
#[derive(Debug)]
pub enum SnapshotPayload {
    Broker(BrokerRaftSnapshot),
    Idle(Option<IdleSnapshotMetrics>),
}

/// A holder that nobody owns.
pub open spec fn bearer_exclusive(h: ExclusiveSnapshotModel) -> ExclusiveHolder {
    ExclusiveHolder {
        client: SNAPSHOT_DETACHED_CLIENT,
        pid: h.pid,
        fencing_token: h.fencing_token,
        keep_locks_after_death: h.keep_locks_after_death,
        composite_member: h.composite_member,
    }
}

/// A reader or writer that nobody owns.
pub open spec fn bearer_rw(h: RwSnapshotModel) -> RwModel {
    RwModel {
        client: SNAPSHOT_DETACHED_CLIENT,
        fencing_token: h.fencing_token,
        lock_uuid: h.lock_uuid,
    }
}

impl LockSnapshotModel {
    /// The key with its first `n` exclusive holders.
    pub open spec fn with_exclusive(self, l: LockModel, n: nat) -> LockModel
        decreases n,
    {
        if n == 0 {
            l
        } else {
            let h = self.exclusive_holders[n - 1];
            self.with_exclusive(l, (n - 1) as nat).counted(Some(h.fencing_token)).with_exclusive(
                h.lock_uuid,
                bearer_exclusive(h),
            )
        }
    }

    /// The key with its first `n` readers.
    pub open spec fn with_readers(self, l: LockModel, n: nat) -> LockModel
        decreases n,
    {
        if n == 0 {
            l
        } else {
            let h = self.readers[n - 1];
            self.with_readers(l, (n - 1) as nat).counted(Some(h.fencing_token)).with_reader(
                bearer_rw(h),
            )
        }
    }

    /// The key with its writer.
    pub open spec fn with_writer(self, l: LockModel) -> LockModel {
        match self.writer {
            Some(h) => l.counted(Some(h.fencing_token)).with_writer(bearer_rw(h)),
            None => l,
        }
    }

    /// The key with the first `n` requests that wait for it.
    pub open spec fn with_queue(self, l: LockModel, n: nat) -> LockModel
        decreases n,
    {
        if n == 0 {
            l
        } else {
            self.with_queue(l, (n - 1) as nat).enqueued(self.queue[n - 1], false)
        }
    }

    /// The concurrency level, within the ceiling.
    pub open spec fn restored_max(self, cap: u32) -> u32 {
        let m = if self.max < 1 {
            1
        } else {
            self.max
        };
        if m < cap {
            m
        } else {
            cap
        }
    }

    /// The key as it is restored. Its holders belong to nobody, and its token
    /// counter is at least every token of a holder.
    pub open spec fn restored(self, cap: u32, now: u128) -> LockModel {
        let bare = LockModel::fresh(self.restored_max(cap), self.fencing_counter);
        let held = self.with_writer(
            self.with_readers(
                self.with_exclusive(bare, self.exclusive_holders.len()),
                self.readers.len(),
            ),
        );
        let l = self.with_queue(held, self.queue.len());
        LockModel {
            timestamp_emptied: if l.idle() && self.idle {
                Some(now)
            } else {
                None
            },
            ..l
        }
    }

    /// The next client id is above every client that waits for the key.
    pub open spec fn next_client(self, id: u64, n: nat) -> u64
        decreases n,
    {
        if n == 0 {
            id
        } else {
            let c = self.queue[n - 1].client;
            model::larger(
                self.next_client(id, (n - 1) as nat),
                if c == u64::MAX {
                    u64::MAX
                } else {
                    (c + 1) as u64
                },
            )
        }
    }
}

/// The instant `ms` after `now`, or `now` if the clock cannot reach it.
pub open spec fn instant_after(now: u128, ms: u64) -> u128 {
    if now + ms * NANOS_PER_MILLI <= u128::MAX {
        (now + ms * NANOS_PER_MILLI) as u128
    } else {
        now
    }
}

impl BrokerModel {
    /// A broker with the configuration of this one that has seen nothing, but
    /// for what is on its way out.
    pub open spec fn emptied(self) -> BrokerModel {
        BrokerModel {
            outbox: self.outbox,
            drawn: self.drawn,
            ..state::initial(self.config)
        }
    }

    /// The counters of a snapshot are taken over.
    pub open spec fn counters_restored(self, s: SnapshotModel) -> BrokerModel {
        BrokerModel {
            ttl_evictions_total: s.metrics.ttl_evictions_total,
            concurrency_cap_clamps_total: s.metrics.concurrency_cap_clamps_total,
            fencing_watermark: s.metrics.fencing_watermark,
            idle_keys_pruned_total: s.metrics.idle_keys_pruned_total,
            ..self
        }
    }

    /// One lock of a snapshot is restored.
    pub open spec fn lock_restored(self, l: LockSnapshotModel, now: u128) -> BrokerModel {
        let lock = l.restored(self.cap(), now);
        BrokerModel {
            next_client_id: l.next_client(self.next_client_id, l.queue.len()),
            ..self
        }.observed(lock.fencing_counter).with_lock(l.key, lock)
    }

    /// The first `n` locks of a snapshot are restored.
    pub open spec fn locks_restored(self, locks: Seq<LockSnapshotModel>, n: nat, now: u128) -> BrokerModel
        decreases n,
    {
        if n == 0 {
            self
        } else {
            self.locks_restored(locks, (n - 1) as nat, now).lock_restored(locks[n - 1], now)
        }
    }

    /// Every key of the deadline is held by its holder.
    pub open spec fn deadline_matches(self, d: DeadlineSnapshotModel) -> bool {
        forall|i: int|
            0 <= i < d.keys.len() ==> self.locks.dom().contains(#[trigger] d.keys[i])
                && self.locks[d.keys[i]].held_under(d.lock_uuid, d.kind)
    }

    /// One deadline of a snapshot is restored.
    pub open spec fn deadline_restored(self, d: DeadlineSnapshotModel, now: u128) -> BrokerModel {
        let seq = model::wrapped_next(self.deadline_seq);
        BrokerModel {
            deadline_seq: seq,
            deadlines: self.deadlines.insert(
                DeadlineKey { at: instant_after(now, d.remaining_ms), seq },
                DeadlineModel {
                    lock_uuid: d.lock_uuid,
                    keys: d.keys,
                    kind: d.kind,
                    client: SNAPSHOT_DETACHED_CLIENT,
                },
            ),
            ..self
        }
    }

    /// The first `n` deadlines of a snapshot are restored.
    pub open spec fn deadlines_restored(
        self,
        deadlines: Seq<DeadlineSnapshotModel>,
        n: nat,
        now: u128,
    ) -> BrokerModel
        decreases n,
    {
        if n == 0 {
            self
        } else {
            self.deadlines_restored(deadlines, (n - 1) as nat, now).deadline_restored(
                deadlines[n - 1],
                now,
            )
        }
    }

    /// The locks of a snapshot are restored.
    pub open spec fn with_locks_of(self, s: SnapshotModel, now: u128) -> BrokerModel {
        self.emptied().counters_restored(s).locks_restored(s.locks, s.locks.len(), now)
    }

    /// The broker as a snapshot restores it at `now`.
    pub open spec fn restored(self, s: SnapshotModel, now: u128) -> BrokerModel {
        self.with_locks_of(s, now).deadlines_restored(s.deadlines, s.deadlines.len(), now)
    }

    /// The broker as the counters of an idle broker restore it.
    pub open spec fn idle_restored(self, m: IdleSnapshotMetrics) -> BrokerModel {
        BrokerModel {
            ttl_evictions_total: or_zero(m.ttl_evictions_total),
            concurrency_cap_clamps_total: or_zero(m.concurrency_cap_clamps_total),
            fencing_watermark: or_zero(m.fencing_watermark),
            idle_keys_pruned_total: or_zero(m.idle_keys_pruned_total),
            ..self.emptied()
        }
    }
}

pub open spec fn or_zero(n: Option<u64>) -> u64 {
    match n {
        Some(v) => v,
        None => 0,
    }
}

/// What keeps a counter from being that of an idle broker.
pub open spec fn idle_field_error(field: Seq<char>, value: Option<u64>) -> Option<Seq<char>> {
    match value {
        None => Some("idle broker snapshot missing numeric metrics."@ + field),
        Some(v) => if v != 0 {
            Some(
                "cannot install non-idle broker snapshot: metrics."@ + field + "="@
                    + text::decimal_text(v as nat),
            )
        } else {
            None
        },
    }
}

/// What keeps counters from being those of an idle broker.
pub open spec fn idle_error(metrics: Option<IdleSnapshotMetrics>) -> Option<Seq<char>> {
    match metrics {
        None => Some("idle broker snapshot is missing metrics"@),
        Some(m) => match idle_field_error("holders"@, m.holders) {
            Some(e) => Some(e),
            None => match idle_field_error("waiters"@, m.waiters) {
                Some(e) => Some(e),
                None => idle_field_error("pendingDeadlines"@, m.pending_deadlines),
            },
        },
    }
}

/// What keeps a payload from being installed.
pub open spec fn payload_error(payload: SnapshotPayload) -> Option<Seq<char>> {
    match payload {
        SnapshotPayload::Broker(s) => s@.error(),
        SnapshotPayload::Idle(m) => idle_error(m),
    }
}

/// The broker after a payload has been installed at `now`.
pub open spec fn installed(m: BrokerModel, payload: SnapshotPayload, now: u128) -> BrokerModel {
    if payload_error(payload) is Some {
        m
    } else {
        match payload {
            SnapshotPayload::Broker(s) => m.restored(s@, now),
            SnapshotPayload::Idle(metrics) => m.idle_restored(metrics->0),
        }
    }
}

fn validate_idle_field(field: &str, value: Option<u64>) -> (r: Result<(), String>)
    ensures
        snapshot_check::reports(r, idle_field_error(field@, value)),
{
    match value {
        None => Err(text::join2("idle broker snapshot missing numeric metrics.", field)),
        Some(v) => {
            if v != 0 {
                let shown = text::decimal(v);
                let mut message = text::join3(
                    "cannot install non-idle broker snapshot: metrics.",
                    field,
                    "=",
                );
                message.append(shown.as_str());
                Err(message)
            } else {
                Ok(())
            }
        },
    }
}

/// Checks that counters are those of an idle broker.
pub fn validate_idle_snapshot_payload(metrics: &Option<IdleSnapshotMetrics>) -> (r: Result<
    (),
    String,
>)
    ensures
        snapshot_check::reports(r, idle_error(*metrics)),
{
    let metrics = match metrics {
        Some(m) => m,
        None => return Err(String::from_str("idle broker snapshot is missing metrics")),
    };
    match validate_idle_field("holders", metrics.holders) {
        Ok(_) => {},
        Err(e) => return Err(e),
    }
    match validate_idle_field("waiters", metrics.waiters) {
        Ok(_) => {},
        Err(e) => return Err(e),
    }
    validate_idle_field("pendingDeadlines", metrics.pending_deadlines)
}

/// Checks a payload.
pub fn validate_raft_snapshot_payload(payload: &SnapshotPayload) -> (r: Result<(), String>)
    ensures
        snapshot_check::reports(r, payload_error(*payload)),
{
    match payload {
        SnapshotPayload::Broker(s) => snapshot_check::validate_broker_raft_snapshot(s),
        SnapshotPayload::Idle(m) => validate_idle_snapshot_payload(m),
    }
}

impl BrokerRaftLockSnapshot {
    /// The key as it is restored.
    fn restore(&self, cap: u32, now: u128) -> (r: LockState)
        requires
            cap >= 1,
        ensures
            r@ == self@.restored(cap, now),
    {
        let ghost s = self@;
        let level: u32 = if self.max < 1 {
            1
        } else {
            self.max
        };
        let level: u32 = if level < cap {
            level
        } else {
            cap
        };
        let mut lock = LockState::new(level, self.fencing_counter);
        let ghost bare = lock@;
        let mut i: usize = 0;
        while i < self.exclusive_holders.len()
            invariant
                i <= self.exclusive_holders@.len(),
                s == self@,
                lock@ == s.with_exclusive(bare, i as nat),
            decreases self.exclusive_holders@.len() - i,
        {
            let holder = &self.exclusive_holders[i];
            assert(s.exclusive_holders[i as int] == holder@);
            let _ = lock.next_or_forced_fencing_token(Some(holder.fencing_token));
            lock.exclusive_holders.insert(
                holder.lock_uuid.clone(),
                ExclusiveHolder {
                    client: SNAPSHOT_DETACHED_CLIENT,
                    pid: holder.pid,
                    fencing_token: holder.fencing_token,
                    keep_locks_after_death: holder.keep_locks_after_death,
                    composite_member: holder.composite_member,
                },
            );
            i = i + 1;
        }
        let ghost held = lock@;
        let mut i: usize = 0;
        while i < self.readers.len()
            invariant
                i <= self.readers@.len(),
                s == self@,
                lock@ == s.with_readers(held, i as nat),
            decreases self.readers@.len() - i,
        {
            let holder = &self.readers[i];
            assert(s.readers[i as int] == holder@);
            let _ = lock.next_or_forced_fencing_token(Some(holder.fencing_token));
            lock.readers.insert(
                holder.lock_uuid.clone(),
                RwHolder {
                    client: SNAPSHOT_DETACHED_CLIENT,
                    fencing_token: holder.fencing_token,
                    lock_uuid: holder.lock_uuid.clone(),
                },
            );
            i = i + 1;
        }
        if let Some(holder) = &self.writer {
            let _ = lock.next_or_forced_fencing_token(Some(holder.fencing_token));
            lock.writer = Some(
                RwHolder {
                    client: SNAPSHOT_DETACHED_CLIENT,
                    fencing_token: holder.fencing_token,
                    lock_uuid: holder.lock_uuid.clone(),
                },
            );
        }
        let ghost written = lock@;
        let mut i: usize = 0;
        while i < self.queue.len()
            invariant
                i <= self.queue@.len(),
                s == self@,
                lock@ == s.with_queue(written, i as nat),
            decreases self.queue@.len() - i,
        {
            let waiter = &self.queue[i];
            assert(s.queue[i as int] == waiter@);
            let pending = PendingRequest {
                request_uuid: waiter.request_uuid.clone(),
                client: waiter.client_id,
                pid: waiter.pid,
                ttl: waiter.ttl_ms,
                grant_lock_uuid: snapshot::copied_text(&waiter.grant_lock_uuid),
                grant_fencing_seed: waiter.grant_fencing_seed,
                keep_locks_after_death: waiter.keep_locks_after_death,
                kind: snapshot::pending_kind_from_snapshot(&waiter.kind),
            };
            assert(pending@ == waiter@);
            let _ = lock.queue.push_back(waiter.request_uuid.clone(), pending);
            i = i + 1;
        }
        lock.timestamp_emptied = if lock.is_idle() && self.idle {
            Some(now)
        } else {
            None
        };
        lock
    }

    /// The next client id, above every client that waits for the key.
    fn next_client(&self, id: u64) -> (r: u64)
        ensures
            r == self@.next_client(id, self@.queue.len()),
    {
        let ghost s = self@;
        let mut next: u64 = id;
        let mut i: usize = 0;
        while i < self.queue.len()
            invariant
                i <= self.queue@.len(),
                s == self@,
                next == s.next_client(id, i as nat),
            decreases self.queue@.len() - i,
        {
            assert(s.queue[i as int] == self.queue@[i as int]@);
            let above: u64 = self.queue[i].client_id.saturating_add(1);
            if next < above {
                next = above;
            }
            i = i + 1;
        }
        next
    }
}

/// What keeps a deadline from being restored.
pub open spec fn unmatched_deadline(m: BrokerModel, d: DeadlineSnapshotModel) -> Option<Seq<char>> {
    if m.deadline_matches(d) {
        None
    } else {
        Some(
            snapshot_check::about_deadline(
                d.lock_uuid,
                "` does not match restored holder state"@,
            ),
        )
    }
}

/// Restoring deadlines leaves the locks alone.
proof fn lemma_deadlines_keep_locks(
    m: BrokerModel,
    deadlines: Seq<DeadlineSnapshotModel>,
    n: nat,
    now: u128,
)
    ensures
        m.deadlines_restored(deadlines, n, now).locks == m.locks,
    decreases n,
{
    if n > 0 {
        lemma_deadlines_keep_locks(m, deadlines, (n - 1) as nat, now);
    }
}

impl BrokerState {
    /// Whether every key of the deadline is held by its holder.
    fn snapshot_deadline_matches_state(&self, deadline: &BrokerRaftDeadlineSnapshot) -> (r: bool)
        ensures
            r == self@.deadline_matches(deadline@),
    {
        let ghost d = deadline@;
        let mut i: usize = 0;
        while i < deadline.keys.len()
            invariant
                i <= deadline.keys@.len(),
                d == deadline@,
                forall|j: int|
                    0 <= j < i ==> self@.locks.dom().contains(#[trigger] d.keys[j])
                        && self@.locks[d.keys[j]].held_under(d.lock_uuid, d.kind),
            decreases deadline.keys@.len() - i,
        {
            assert(d.keys[i as int] == deadline.keys@[i as int]@);
            let held = match self.locks.get(&deadline.keys[i]) {
                Some(lock) => lock.contains_uuid_for_kind(&deadline.lock_uuid, deadline.kind),
                None => false,
            };
            if !held {
                return false;
            }
            i = i + 1;
        }
        true
    }

    /// A broker with the configuration of this one that has seen nothing.
    fn successor(&self) -> (r: BrokerState)
        ensures
            r@ == (BrokerModel { drawn: 0, outbox: Seq::empty(), ..self@.emptied() }),
    {
        BrokerState::new(self.config)
    }

    /// Takes the place of this state; what is on its way out stays.
    fn replace_with(&mut self, next: BrokerState)
        ensures
            final(self)@ == (BrokerModel {
                outbox: old(self)@.outbox,
                drawn: old(self)@.drawn,
                ..next@
            }),
            final(self).minted == old(self).minted,
    {
        self.locks = next.locks;
        self.clients = next.clients;
        self.next_client_id = next.next_client_id;
        self.config = next.config;
        self.deadlines = next.deadlines;
        self.deadline_seq = next.deadline_seq;
        self.ttl_evictions_total = next.ttl_evictions_total;
        self.concurrency_cap_clamps_total = next.concurrency_cap_clamps_total;
        self.fencing_watermark = next.fencing_watermark;
        self.idle_keys_pruned_total = next.idle_keys_pruned_total;
    }

    /// Restores a full snapshot at `now`.
    fn install_broker_raft_snapshot(
        &mut self,
        snapshot: &BrokerRaftSnapshot,
        now: u128,
    ) -> (r: Result<(), String>)
        ensures
            final(self).minted == old(self).minted,
            ({
                let s = snapshot@;
                let m = old(self)@.with_locks_of(s, now);
                let error = snapshot_check::first_error(
                    s.deadlines.len(),
                    |i: int| unmatched_deadline(m, s.deadlines[i]),
                );
                &&& snapshot_check::reports(r, error)
                &&& final(self)@ == if error is None {
                    old(self)@.restored(s, now)
                } else {
                    old(self)@
                }
            }),
    {
        let ghost start = self@;
        let ghost s = snapshot@;
        let mut next = self.successor();
        next.ttl_evictions_total = snapshot.metrics.ttl_evictions_total;
        next.concurrency_cap_clamps_total = snapshot.metrics.concurrency_cap_clamps_total;
        next.fencing_watermark = snapshot.metrics.fencing_watermark;
        next.idle_keys_pruned_total = snapshot.metrics.idle_keys_pruned_total;
        let ghost bare = next@;
        let ghost base = start.emptied().counters_restored(s);
        let mut i: usize = 0;
        while i < snapshot.locks.len()
            invariant
                i <= snapshot.locks@.len(),
                s == snapshot@,
                next@ == bare.locks_restored(s.locks, i as nat, now),
            decreases snapshot.locks@.len() - i,
        {
            let lock_snapshot = &snapshot.locks[i];
            assert(s.locks[i as int] == lock_snapshot@);
            let lock = lock_snapshot.restore(next.cap(), now);
            next.next_client_id = lock_snapshot.next_client(next.next_client_id);
            next.observe_fencing_token(lock.fencing_counter);
            next.locks.insert(lock_snapshot.key.clone(), lock);
            i = i + 1;
        }
        let ghost m = next@;
        let ghost full = start.with_locks_of(s, now);
        proof {
            lemma_restored_beside(bare, base, s.locks, s.locks.len(), now);
        }
        let ghost f = |i: int| unmatched_deadline(full, s.deadlines[i]);
        let mut i: usize = 0;
        while i < snapshot.deadlines.len()
            invariant
                i <= snapshot.deadlines@.len(),
                s == snapshot@,
                m.locks == full.locks,
                self@ == start,
                self.minted == old(self).minted,
                full == start.with_locks_of(s, now),
                f == (|i: int| unmatched_deadline(full, s.deadlines[i])),
                snapshot_check::first_error(i as nat, f) is None,
                next@ == m.deadlines_restored(s.deadlines, i as nat, now),
            decreases snapshot.deadlines@.len() - i,
        {
            let deadline = &snapshot.deadlines[i];
            proof {
                assert(s.deadlines[i as int] == deadline@);
                lemma_deadlines_keep_locks(m, s.deadlines, i as nat, now);
                assert(next@.deadline_matches(deadline@) == full.deadline_matches(deadline@));
                if snapshot_check::first_error((i + 1) as nat, f) is Some {
                    snapshot_check::lemma_first_error((i + 1) as nat, s.deadlines.len(), f);
                }
            }
            if !next.snapshot_deadline_matches_state(deadline) {
                return Err(
                    text::join3(
                        "broker snapshot deadline for `",
                        deadline.lock_uuid.as_str(),
                        "` does not match restored holder state",
                    ),
                );
            }
            next.deadline_seq = next.deadline_seq.wrapping_add(1);
            assert(deadline.remaining_ms * NANOS_PER_MILLI <= u64::MAX * 1_000_000);
            let span: u128 = (deadline.remaining_ms as u128) * NANOS_PER_MILLI;
            let at: u128 = match now.checked_add(span) {
                Some(at) => at,
                None => now,
            };
            next.deadlines.insert(
                DeadlineKey { at, seq: next.deadline_seq },
                DeadlineEntry {
                    lock_uuid: deadline.lock_uuid.clone(),
                    keys: crate::broker::grants::copied(&deadline.keys),
                    kind: deadline.kind,
                    client: SNAPSHOT_DETACHED_CLIENT,
                },
            );
            i = i + 1;
        }
        proof {
            lemma_deadlines_beside(m, full, s.deadlines, s.deadlines.len(), now);
        }
        self.replace_with(next);
        assert(self@ =~= start.restored(s, now));
        Ok(())
    }
}

/// Restoring locks does not depend on what is on its way out.
proof fn lemma_restored_beside(
    a: BrokerModel,
    b: BrokerModel,
    locks: Seq<LockSnapshotModel>,
    n: nat,
    now: u128,
)
    requires
        a == (BrokerModel { outbox: a.outbox, drawn: a.drawn, ..b }),
    ensures
        a.locks_restored(locks, n, now) == (BrokerModel {
            outbox: a.outbox,
            drawn: a.drawn,
            ..b.locks_restored(locks, n, now)
        }),
        b.locks_restored(locks, n, now).outbox == b.outbox,
        b.locks_restored(locks, n, now).drawn == b.drawn,
    decreases n,
{
    if n > 0 {
        lemma_restored_beside(a, b, locks, (n - 1) as nat, now);
    }
}

/// Restoring deadlines does not depend on what is on its way out.
proof fn lemma_deadlines_beside(
    a: BrokerModel,
    b: BrokerModel,
    deadlines: Seq<DeadlineSnapshotModel>,
    n: nat,
    now: u128,
)
    requires
        a == (BrokerModel { outbox: a.outbox, drawn: a.drawn, ..b }),
    ensures
        a.deadlines_restored(deadlines, n, now) == (BrokerModel {
            outbox: a.outbox,
            drawn: a.drawn,
            ..b.deadlines_restored(deadlines, n, now)
        }),
        b.deadlines_restored(deadlines, n, now).outbox == b.outbox,
        b.deadlines_restored(deadlines, n, now).drawn == b.drawn,
    decreases n,
{
    if n > 0 {
        lemma_deadlines_beside(a, b, deadlines, (n - 1) as nat, now);
    }
}

/// Which ids hold a restored key exclusively.
proof fn lemma_exclusive_restored(s: LockSnapshotModel, l: LockModel, n: nat)
    requires
        n <= s.exclusive_holders.len(),
    ensures
        forall|u: Seq<char>| #[trigger]
            s.with_exclusive(l, n).exclusive_holders.dom().contains(u)
                <==> l.exclusive_holders.dom().contains(u) || s.exclusive_among(n as int, u),
        s.with_exclusive(l, n).readers == l.readers,
        s.with_exclusive(l, n).writer == l.writer,
        s.with_exclusive(l, n).queue == l.queue,
        s.with_exclusive(l, n).max == l.max,
    decreases n,
{
    if n > 0 {
        lemma_exclusive_restored(s, l, (n - 1) as nat);
        assert forall|u: Seq<char>| #[trigger]
            s.with_exclusive(l, n).exclusive_holders.dom().contains(u)
                <==> l.exclusive_holders.dom().contains(u) || s.exclusive_among(n as int, u) by {
            assert(s.with_exclusive(l, (n - 1) as nat).exclusive_holders.dom().contains(u)
                <==> l.exclusive_holders.dom().contains(u) || s.exclusive_among(n - 1, u));
            if s.exclusive_among(n - 1, u) {
                let j = choose|j: int|
                    0 <= j < n - 1 && (#[trigger] s.exclusive_holders[j]).lock_uuid == u;
                assert(0 <= j < n);
            }
            if s.exclusive_among(n as int, u) {
                let j = choose|j: int|
                    0 <= j < n && (#[trigger] s.exclusive_holders[j]).lock_uuid == u;
                if j < n - 1 {
                    assert(s.exclusive_among(n - 1, u));
                }
            }
            assert(s.exclusive_holders[n - 1].lock_uuid == s.exclusive_holders[n - 1].lock_uuid);
        }
    }
}

/// Which ids read a restored key.
proof fn lemma_readers_restored(s: LockSnapshotModel, l: LockModel, n: nat)
    requires
        n <= s.readers.len(),
    ensures
        forall|u: Seq<char>| #[trigger]
            s.with_readers(l, n).readers.dom().contains(u) <==> l.readers.dom().contains(u)
                || s.reader_among(n as int, u),
        s.with_readers(l, n).exclusive_holders == l.exclusive_holders,
        s.with_readers(l, n).writer == l.writer,
        s.with_readers(l, n).queue == l.queue,
        s.with_readers(l, n).max == l.max,
    decreases n,
{
    if n > 0 {
        lemma_readers_restored(s, l, (n - 1) as nat);
        assert forall|u: Seq<char>| #[trigger] s.with_readers(l, n).readers.dom().contains(u)
            <==> l.readers.dom().contains(u) || s.reader_among(n as int, u) by {
            assert(s.with_readers(l, (n - 1) as nat).readers.dom().contains(u)
                <==> l.readers.dom().contains(u) || s.reader_among(n - 1, u));
            if s.reader_among(n - 1, u) {
                let j = choose|j: int|
                    0 <= j < n - 1 && (#[trigger] s.readers[j]).lock_uuid == u;
                assert(0 <= j < n);
            }
            if s.reader_among(n as int, u) {
                let j = choose|j: int| 0 <= j < n && (#[trigger] s.readers[j]).lock_uuid == u;
                if j < n - 1 {
                    assert(s.reader_among(n - 1, u));
                }
            }
            assert(s.readers[n - 1].lock_uuid == s.readers[n - 1].lock_uuid);
        }
    }
}

/// The queue does not change who holds a key.
proof fn lemma_queue_restored(s: LockSnapshotModel, l: LockModel, n: nat)
    ensures
        s.with_queue(l, n) == (LockModel { queue: s.with_queue(l, n).queue, ..l }),
    decreases n,
{
    if n > 0 {
        lemma_queue_restored(s, l, (n - 1) as nat);
    }
}

/// A restored key is held by the holders that the snapshot names, and by no
/// others.
pub proof fn lemma_restored_holders(
    s: LockSnapshotModel,
    cap: u32,
    now: u128,
    lock_uuid: Seq<char>,
    kind: crate::broker::types::RwHoldKind,
)
    ensures
        s.restored(cap, now).held_under(lock_uuid, kind) == s.held_under(lock_uuid, kind),
{
    let bare = LockModel::fresh(s.restored_max(cap), s.fencing_counter);
    let a = s.with_exclusive(bare, s.exclusive_holders.len());
    let b = s.with_readers(a, s.readers.len());
    let c = s.with_writer(b);
    lemma_exclusive_restored(s, bare, s.exclusive_holders.len());
    lemma_readers_restored(s, a, s.readers.len());
    lemma_queue_restored(s, c, s.queue.len());
    assert(a.exclusive_holders.dom().contains(lock_uuid) == s.exclusive_among(
        s.exclusive_holders.len() as int,
        lock_uuid,
    ));
    assert(b.readers.dom().contains(lock_uuid) == s.reader_among(
        s.readers.len() as int,
        lock_uuid,
    ));
}

/// Locks with different keys are restored side by side.
proof fn lemma_locks_side_by_side(
    m: BrokerModel,
    locks: Seq<LockSnapshotModel>,
    n: nat,
    now: u128,
)
    requires
        n <= locks.len(),
        forall|i: int| 0 <= i < n ==> !snapshot_check::key_among(locks, i, #[trigger] locks[i].key),
    ensures
        m.locks_restored(locks, n, now).config == m.config,
        forall|i: int|
            0 <= i < n ==> {
                &&& m.locks_restored(locks, n, now).locks.dom().contains(#[trigger] locks[i].key)
                &&& m.locks_restored(locks, n, now).locks[locks[i].key] == locks[i].restored(
                    m.cap(),
                    now,
                )
            },
    decreases n,
{
    if n > 0 {
        lemma_locks_side_by_side(m, locks, (n - 1) as nat, now);
        assert forall|i: int| 0 <= i < n implies {
            &&& m.locks_restored(locks, n, now).locks.dom().contains(#[trigger] locks[i].key)
            &&& m.locks_restored(locks, n, now).locks[locks[i].key] == locks[i].restored(
                m.cap(),
                now,
            )
        } by {
            if i < n - 1 {
                assert(locks[i].key != locks[n - 1].key) by {
                    if locks[i].key == locks[n - 1].key {
                        assert(snapshot_check::key_among(locks, n - 1, locks[n - 1].key));
                    }
                }
            }
        }
    }
}

/// The deadlines of a faultless snapshot all match what is restored.
pub proof fn lemma_faultless_deadlines(m: BrokerModel, s: SnapshotModel, now: u128)
    requires
        s.error() is None,
    ensures
        snapshot_check::first_error(
            s.deadlines.len(),
            |i: int| unmatched_deadline(m.with_locks_of(s, now), s.deadlines[i]),
        ) is None,
{
    let base = m.emptied().counters_restored(s);
    let full = m.with_locks_of(s, now);
    let f = |i: int| unmatched_deadline(full, s.deadlines[i]);
    let g = |i: int| snapshot_check::lock_error(s.locks, i);
    let h = |i: int| snapshot_check::deadline_error(s.locks, s.deadlines[i]);
    assert forall|i: int| 0 <= i < s.locks.len() implies !snapshot_check::key_among(
        s.locks,
        i,
        #[trigger] s.locks[i].key,
    ) by {
        snapshot_check::lemma_no_error(s.locks.len(), g, i);
    }
    lemma_locks_side_by_side(base, s.locks, s.locks.len(), now);
    assert forall|i: int| 0 <= i < s.deadlines.len() implies #[trigger] f(i) is None by {
        snapshot_check::lemma_no_error(s.deadlines.len(), h, i);
        let d = s.deadlines[i];
        assert forall|k: int| 0 <= k < d.keys.len() implies full.locks.dom().contains(
            #[trigger] d.keys[k],
        ) && full.locks[d.keys[k]].held_under(d.lock_uuid, d.kind) by {
            assert(snapshot_check::held_in(s.locks, d.keys[k], d.lock_uuid, d.kind));
            let j = choose|j: int|
                0 <= j < s.locks.len() && (#[trigger] s.locks[j]).key == d.keys[k]
                    && !snapshot_check::key_among(s.locks, j, d.keys[k]) && s.locks[j].held_under(
                    d.lock_uuid,
                    d.kind,
                );
            assert(full.locks.dom().contains(s.locks[j].key));
            lemma_restored_holders(s.locks[j], base.cap(), now, d.lock_uuid, d.kind);
        }
    }
    lemma_all_none(s.deadlines.len(), f);
}

proof fn lemma_all_none(n: nat, f: spec_fn(int) -> Option<Seq<char>>)
    requires
        forall|i: int| 0 <= i < n ==> #[trigger] f(i) is None,
    ensures
        snapshot_check::first_error(n, f) is None,
    decreases n,
{
    if n > 0 {
        lemma_all_none((n - 1) as nat, f);
    }
}

impl BrokerState {
    /// Restores the counters of an idle broker.
    fn install_idle_snapshot(&mut self, metrics: Option<IdleSnapshotMetrics>) -> (r: Result<
        (),
        String,
    >)
        ensures
            final(self).minted == old(self).minted,
            snapshot_check::reports(r, idle_error(metrics)),
            final(self)@ == if idle_error(metrics) is None {
                old(self)@.idle_restored(metrics->0)
            } else {
                old(self)@
            },
    {
        match validate_idle_snapshot_payload(&metrics) {
            Ok(_) => {},
            Err(e) => return Err(e),
        }
        let metrics = match metrics {
            Some(m) => m,
            None => vstd::pervasive::unreached(),
        };
        let mut next = self.successor();
        next.ttl_evictions_total = metrics.ttl_evictions_total.unwrap_or(0);
        next.concurrency_cap_clamps_total = metrics.concurrency_cap_clamps_total.unwrap_or(0);
        next.fencing_watermark = metrics.fencing_watermark.unwrap_or(0);
        next.idle_keys_pruned_total = metrics.idle_keys_pruned_total.unwrap_or(0);
        self.replace_with(next);
        Ok(())
    }

    /// Restores a payload at `now`. One with a fault changes nothing.
    pub fn install_raft_snapshot(&mut self, payload: &SnapshotPayload, now: u128) -> (r: Result<
        (),
        String,
    >)
        ensures
            final(self).minted == old(self).minted,
            snapshot_check::reports(r, payload_error(*payload)),
            final(self)@ == installed(old(self)@, *payload, now),
    {
        match payload {
            SnapshotPayload::Broker(s) => {
                match snapshot_check::validate_broker_raft_snapshot(s) {
                    Ok(_) => {},
                    Err(e) => return Err(e),
                }
                proof {
                    lemma_faultless_deadlines(self@, s@, now);
                }
                self.install_broker_raft_snapshot(s, now)
            },
            SnapshotPayload::Idle(m) => self.install_idle_snapshot(*m),
        }
    }
}

} // verus!
