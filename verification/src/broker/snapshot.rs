//! Snapshots of the broker: what is written down of its state.

use crate::broker::grants;
use crate::broker::stats::BrokerMetrics;
use crate::broker::types::{
    BrokerModel, BrokerState, ClientId, DeadlineKey, DeadlineModel, KindModel, LockModel, LockState,
    PendingKind, PendingModel, RwHoldKind, NANOS_PER_MILLI,
};
use crate::ordered_map;
use crate::ordered_map::{OrderedKey, OrderedMap};
use crate::protocol;
use crate::protocol::TokenMap;
use crate::text;
use vstd::prelude::*;

verus! {

/// The counters of a snapshot.
#[derive(Debug, Clone, Copy, PartialEq, Eq, Structural)]
pub struct BrokerRaftSnapshotMetrics {
    pub keys: u64,
    pub holders: u64,
    pub waiters: u64,
    pub clients: u64,
    pub pending_deadlines: u64,
    pub ttl_evictions_total: u64,
    pub max_concurrency_cap: u32,
    pub concurrency_cap_clamps_total: u64,
    pub fencing_watermark: u64,
    pub idle_keys_pruned_total: u64,
}

/// The counters as a snapshot has them.
pub open spec fn snapshot_metrics(m: BrokerMetrics) -> BrokerRaftSnapshotMetrics {
    BrokerRaftSnapshotMetrics {
        keys: m.keys,
        holders: m.holders,
        waiters: m.waiters,
        clients: m.clients,
        pending_deadlines: m.pending_deadlines,
        ttl_evictions_total: m.ttl_evictions_total,
        max_concurrency_cap: m.max_concurrency_cap,
        concurrency_cap_clamps_total: m.concurrency_cap_clamps_total,
        fencing_watermark: m.fencing_watermark,
        idle_keys_pruned_total: m.idle_keys_pruned_total,
    }
}

impl From<BrokerMetrics> for BrokerRaftSnapshotMetrics {
    fn from(metrics: BrokerMetrics) -> (r: Self) {
        BrokerRaftSnapshotMetrics {
            keys: metrics.keys,
            holders: metrics.holders,
            waiters: metrics.waiters,
            clients: metrics.clients,
            pending_deadlines: metrics.pending_deadlines,
            ttl_evictions_total: metrics.ttl_evictions_total,
            max_concurrency_cap: metrics.max_concurrency_cap,
            concurrency_cap_clamps_total: metrics.concurrency_cap_clamps_total,
            fencing_watermark: metrics.fencing_watermark,
            idle_keys_pruned_total: metrics.idle_keys_pruned_total,
        }
    }
}

impl vstd::std_specs::convert::FromSpecImpl<BrokerMetrics> for BrokerRaftSnapshotMetrics {
    open spec fn obeys_from_spec() -> bool {
        true
    }

    open spec fn from_spec(metrics: BrokerMetrics) -> BrokerRaftSnapshotMetrics {
        snapshot_metrics(metrics)
    }
}

#[derive(Debug)]
pub struct BrokerRaftExclusiveHolderSnapshot {
    pub lock_uuid: String,
    pub pid: Option<i64>,
    pub fencing_token: u64,
    pub keep_locks_after_death: bool,
    pub composite_member: bool,
}

#[verifier::ext_equal]
pub struct ExclusiveSnapshotModel {
    pub lock_uuid: Seq<char>,
    pub pid: Option<i64>,
    pub fencing_token: u64,
    pub keep_locks_after_death: bool,
    pub composite_member: bool,
}

impl View for BrokerRaftExclusiveHolderSnapshot {
    type V = ExclusiveSnapshotModel;

    open spec fn view(&self) -> ExclusiveSnapshotModel {
        ExclusiveSnapshotModel {
            lock_uuid: self.lock_uuid@,
            pid: self.pid,
            fencing_token: self.fencing_token,
            keep_locks_after_death: self.keep_locks_after_death,
            composite_member: self.composite_member,
        }
    }
}

#[derive(Debug)]
pub struct BrokerRaftRwHolderSnapshot {
    pub lock_uuid: String,
    pub fencing_token: u64,
}

#[verifier::ext_equal]
pub struct RwSnapshotModel {
    pub lock_uuid: Seq<char>,
    pub fencing_token: u64,
}

impl View for BrokerRaftRwHolderSnapshot {
    type V = RwSnapshotModel;

    open spec fn view(&self) -> RwSnapshotModel {
        RwSnapshotModel { lock_uuid: self.lock_uuid@, fencing_token: self.fencing_token }
    }
}

/// What an optional holder shows.
pub open spec fn shown_rw(o: Option<BrokerRaftRwHolderSnapshot>) -> Option<RwSnapshotModel> {
    match o {
        Some(h) => Some(h@),
        None => None,
    }
}

#[derive(Debug)]
pub enum BrokerRaftPendingKindSnapshot {
    Exclusive,
    Reader,
    Writer,
    Composite {
        all_keys: Vec<String>,
        remaining_keys: Vec<String>,
        granted_keys: Vec<String>,
        granted_tokens: TokenMap,
        composite_lock_uuid: String,
    },
}

impl View for BrokerRaftPendingKindSnapshot {
    type V = KindModel;

    open spec fn view(&self) -> KindModel {
        match *self {
            BrokerRaftPendingKindSnapshot::Exclusive => KindModel::Exclusive,
            BrokerRaftPendingKindSnapshot::Reader => KindModel::Reader,
            BrokerRaftPendingKindSnapshot::Writer => KindModel::Writer,
            BrokerRaftPendingKindSnapshot::Composite {
                all_keys,
                remaining_keys,
                granted_keys,
                granted_tokens,
                composite_lock_uuid,
            } => KindModel::Composite {
                all_keys: ordered_map::views(all_keys@),
                remaining_keys: ordered_map::views(remaining_keys@),
                granted_keys: ordered_map::views(granted_keys@),
                granted_tokens: granted_tokens@,
                composite_lock_uuid: composite_lock_uuid@,
            },
        }
    }
}

#[derive(Debug)]
pub struct BrokerRaftPendingRequestSnapshot {
    pub request_uuid: String,
    pub client_id: ClientId,
    pub pid: Option<i64>,
    pub ttl_ms: Option<u64>,
    pub grant_lock_uuid: Option<String>,
    pub grant_fencing_seed: Option<u64>,
    pub keep_locks_after_death: bool,
    pub kind: BrokerRaftPendingKindSnapshot,
}

impl View for BrokerRaftPendingRequestSnapshot {
    type V = PendingModel;

    open spec fn view(&self) -> PendingModel {
        PendingModel {
            request_uuid: self.request_uuid@,
            client: self.client_id,
            pid: self.pid,
            ttl: self.ttl_ms,
            grant_lock_uuid: protocol::shown_text(self.grant_lock_uuid),
            grant_fencing_seed: self.grant_fencing_seed,
            keep_locks_after_death: self.keep_locks_after_death,
            kind: self.kind@,
        }
    }
}

#[derive(Debug)]
pub struct BrokerRaftLockSnapshot {
    pub key: String,
    pub max: u32,
    pub fencing_counter: u64,
    pub exclusive_holders: Vec<BrokerRaftExclusiveHolderSnapshot>,
    pub readers: Vec<BrokerRaftRwHolderSnapshot>,
    pub writer: Option<BrokerRaftRwHolderSnapshot>,
    pub queue: Vec<BrokerRaftPendingRequestSnapshot>,
    pub idle: bool,
}

#[verifier::ext_equal]
pub struct LockSnapshotModel {
    pub key: Seq<char>,
    pub max: u32,
    pub fencing_counter: u64,
    pub exclusive_holders: Seq<ExclusiveSnapshotModel>,
    pub readers: Seq<RwSnapshotModel>,
    pub writer: Option<RwSnapshotModel>,
    pub queue: Seq<PendingModel>,
    pub idle: bool,
}

impl View for BrokerRaftLockSnapshot {
    type V = LockSnapshotModel;

    open spec fn view(&self) -> LockSnapshotModel {
        LockSnapshotModel {
            key: self.key@,
            max: self.max,
            fencing_counter: self.fencing_counter,
            exclusive_holders: ordered_map::views(self.exclusive_holders@),
            readers: ordered_map::views(self.readers@),
            writer: shown_rw(self.writer),
            queue: ordered_map::views(self.queue@),
            idle: self.idle,
        }
    }
}

#[derive(Debug)]
pub struct BrokerRaftDeadlineSnapshot {
    pub lock_uuid: String,
    pub keys: Vec<String>,
    pub kind: RwHoldKind,
    pub remaining_ms: u64,
}

#[verifier::ext_equal]
pub struct DeadlineSnapshotModel {
    pub lock_uuid: Seq<char>,
    pub keys: Seq<Seq<char>>,
    pub kind: RwHoldKind,
    pub remaining_ms: u64,
}

impl View for BrokerRaftDeadlineSnapshot {
    type V = DeadlineSnapshotModel;

    open spec fn view(&self) -> DeadlineSnapshotModel {
        DeadlineSnapshotModel {
            lock_uuid: self.lock_uuid@,
            keys: ordered_map::views(self.keys@),
            kind: self.kind,
            remaining_ms: self.remaining_ms,
        }
    }
}

/// A snapshot of the broker.
#[derive(Debug)]
pub struct BrokerRaftSnapshot {
    pub schema_version: u32,
    pub metrics: BrokerRaftSnapshotMetrics,
    pub locks: Vec<BrokerRaftLockSnapshot>,
    pub deadlines: Vec<BrokerRaftDeadlineSnapshot>,
}

#[verifier::ext_equal]
pub struct SnapshotModel {
    pub schema_version: u32,
    pub metrics: BrokerRaftSnapshotMetrics,
    pub locks: Seq<LockSnapshotModel>,
    pub deadlines: Seq<DeadlineSnapshotModel>,
}

impl View for BrokerRaftSnapshot {
    type V = SnapshotModel;

    open spec fn view(&self) -> SnapshotModel {
        SnapshotModel {
            schema_version: self.schema_version,
            metrics: self.metrics,
            locks: ordered_map::views(self.locks@),
            deadlines: ordered_map::views(self.deadlines@),
        }
    }
}

/// Nanoseconds in whole milliseconds, at most the largest number.
pub open spec fn whole_millis(nanos: int) -> u64 {
    let ms = nanos / 1_000_000;
    if ms > u64::MAX {
        u64::MAX
    } else {
        ms as u64
    }
}

/// Nanoseconds in whole milliseconds, at most the largest number.
pub fn duration_ms_u64(nanos: u128) -> (r: u64)
    ensures
        r == whole_millis(nanos as int),
{
    let ms: u128 = nanos / NANOS_PER_MILLI;
    if ms > u64::MAX as u128 {
        u64::MAX
    } else {
        ms as u64
    }
}

/// Where a deadline stands in a snapshot: by lock id, keys, and instant.
pub struct DeadlineRank {
    lock_uuid: String,
    keys: Vec<String>,
    due: DeadlineKey,
}

impl View for DeadlineRank {
    type V = (Seq<char>, Seq<Seq<char>>, DeadlineKey);

    closed spec fn view(&self) -> (Seq<char>, Seq<Seq<char>>, DeadlineKey) {
        (self.lock_uuid@, ordered_map::views(self.keys@), self.due)
    }
}

impl OrderedKey for DeadlineRank {
    open spec fn less(
        a: (Seq<char>, Seq<Seq<char>>, DeadlineKey),
        b: (Seq<char>, Seq<Seq<char>>, DeadlineKey),
    ) -> bool {
        ||| text::text_less(a.0, b.0)
        ||| a.0 == b.0 && text::texts_less(a.1, b.1)
        ||| a.0 == b.0 && a.1 == b.1 && DeadlineKey::less(a.2, b.2)
    }

    proof fn less_irreflexive(a: (Seq<char>, Seq<Seq<char>>, DeadlineKey)) {
        text::lemma_text_irreflexive(a.0);
        text::lemma_texts_irreflexive(a.1);
    }

    proof fn less_transitive(
        a: (Seq<char>, Seq<Seq<char>>, DeadlineKey),
        b: (Seq<char>, Seq<Seq<char>>, DeadlineKey),
        c: (Seq<char>, Seq<Seq<char>>, DeadlineKey),
    ) {
        if text::text_less(a.0, b.0) && text::text_less(b.0, c.0) {
            text::lemma_text_transitive(a.0, b.0, c.0);
        }
        if text::texts_less(a.1, b.1) && text::texts_less(b.1, c.1) {
            text::lemma_texts_transitive(a.1, b.1, c.1);
        }
    }

    proof fn less_total(
        a: (Seq<char>, Seq<Seq<char>>, DeadlineKey),
        b: (Seq<char>, Seq<Seq<char>>, DeadlineKey),
    ) {
        text::lemma_text_total(a.0, b.0);
        text::lemma_texts_total(a.1, b.1);
        DeadlineKey::less_total(a.2, b.2);
    }

    fn before(&self, other: &Self) -> (r: bool) {
        if !(self.lock_uuid == other.lock_uuid) {
            return text::text_before(self.lock_uuid.as_str(), other.lock_uuid.as_str());
        }
        proof {
            text::lemma_text_irreflexive(self.lock_uuid@);
            text::lemma_texts_irreflexive(ordered_map::views(self.keys@));
            text::lemma_texts_total(
                ordered_map::views(self.keys@),
                ordered_map::views(other.keys@),
            );
        }
        if text::texts_before(&self.keys, &other.keys) {
            return true;
        }
        if text::texts_before(&other.keys, &self.keys) {
            proof {
                if ordered_map::views(self.keys@) == ordered_map::views(other.keys@) {
                    text::lemma_texts_irreflexive(ordered_map::views(self.keys@));
                }
            }
            return false;
        }
        self.due.before(&other.due)
    }

    fn same(&self, other: &Self) -> (r: bool) {
        proof {
            Self::less_total(self@, other@);
            Self::less_irreflexive(self@);
        }
        !self.before(other) && !other.before(self)
    }

    fn duplicate(&self) -> (r: Self) {
        DeadlineRank {
            lock_uuid: self.lock_uuid.clone(),
            keys: grants::copied(&self.keys),
            due: self.due,
        }
    }
}

impl LockModel {
    /// What a snapshot says of a key.
    pub open spec fn snapshot(self, key: Seq<char>) -> LockSnapshotModel {
        LockSnapshotModel {
            key,
            max: self.max,
            fencing_counter: self.fencing_counter,
            exclusive_holders: ordered_map::ascending_keys::<String>(
                self.exclusive_holders.dom(),
            ).map_values(
                |u: Seq<char>|
                    {
                        let h = self.exclusive_holders[u];
                        ExclusiveSnapshotModel {
                            lock_uuid: u,
                            pid: h.pid,
                            fencing_token: h.fencing_token,
                            keep_locks_after_death: h.keep_locks_after_death,
                            composite_member: h.composite_member,
                        }
                    },
            ),
            readers: ordered_map::ascending_keys::<String>(self.readers.dom()).map_values(
                |u: Seq<char>|
                    RwSnapshotModel {
                        lock_uuid: u,
                        fencing_token: self.readers[u].fencing_token,
                    },
            ),
            writer: match self.writer {
                Some(w) => Some(
                    RwSnapshotModel { lock_uuid: w.lock_uuid, fencing_token: w.fencing_token },
                ),
                None => None,
            },
            queue: self.queue.map_values(|e: (Seq<char>, PendingModel)| e.1),
            idle: self.idle(),
        }
    }
}

/// What a snapshot at `now` says of a deadline.
pub open spec fn deadline_snapshot(
    d: DeadlineModel,
    due: DeadlineKey,
    now: u128,
) -> DeadlineSnapshotModel {
    DeadlineSnapshotModel {
        lock_uuid: d.lock_uuid,
        keys: d.keys,
        kind: d.kind,
        remaining_ms: whole_millis(
            if due.at > now {
                due.at - now
            } else {
                0
            },
        ),
    }
}

impl BrokerModel {
    /// The deadlines whose holders still hold, by lock id, keys and instant.
    pub open spec fn live_deadlines(self) -> Seq<(Seq<char>, Seq<Seq<char>>, DeadlineKey)> {
        ordered_map::ascending_keys::<DeadlineRank>(
            Set::new(
                |r: (Seq<char>, Seq<Seq<char>>, DeadlineKey)|
                    {
                        &&& self.deadlines.dom().contains(r.2)
                        &&& self.still_held(self.deadlines[r.2])
                        &&& r.0 == self.deadlines[r.2].lock_uuid
                        &&& r.1 == self.deadlines[r.2].keys
                    },
            ),
        )
    }

    /// The snapshot at `now`.
    pub open spec fn snapshot(self, now: u128) -> SnapshotModel {
        SnapshotModel {
            schema_version: 1,
            metrics: snapshot_metrics(self.metrics()),
            locks: ordered_map::ascending_keys::<String>(self.locks.dom()).map_values(
                |k: Seq<char>| self.locks[k].snapshot(k),
            ),
            deadlines: self.live_deadlines().map_values(
                |r: (Seq<char>, Seq<Seq<char>>, DeadlineKey)|
                    deadline_snapshot(self.deadlines[r.2], r.2, now),
            ),
        }
    }
}

/// What a queued request waits for, as a snapshot has it.
pub fn pending_kind_snapshot_from(kind: &PendingKind) -> (r: BrokerRaftPendingKindSnapshot)
    ensures
        r@ == kind@,
{
    match kind {
        PendingKind::Exclusive => BrokerRaftPendingKindSnapshot::Exclusive,
        PendingKind::Reader => BrokerRaftPendingKindSnapshot::Reader,
        PendingKind::Writer => BrokerRaftPendingKindSnapshot::Writer,
        PendingKind::Composite {
            all_keys,
            remaining_keys,
            granted_keys,
            granted_tokens,
            composite_lock_uuid,
        } => BrokerRaftPendingKindSnapshot::Composite {
            all_keys: grants::copied(all_keys),
            remaining_keys: grants::copied(remaining_keys),
            granted_keys: grants::copied(granted_keys),
            granted_tokens: granted_tokens.clone(),
            composite_lock_uuid: composite_lock_uuid.clone(),
        },
    }
}

/// What a queued request waits for, from a snapshot.
pub fn pending_kind_from_snapshot(kind: &BrokerRaftPendingKindSnapshot) -> (r: PendingKind)
    ensures
        r@ == kind@,
{
    match kind {
        BrokerRaftPendingKindSnapshot::Exclusive => PendingKind::Exclusive,
        BrokerRaftPendingKindSnapshot::Reader => PendingKind::Reader,
        BrokerRaftPendingKindSnapshot::Writer => PendingKind::Writer,
        BrokerRaftPendingKindSnapshot::Composite {
            all_keys,
            remaining_keys,
            granted_keys,
            granted_tokens,
            composite_lock_uuid,
        } => PendingKind::Composite {
            all_keys: grants::copied(all_keys),
            remaining_keys: grants::copied(remaining_keys),
            granted_keys: grants::copied(granted_keys),
            granted_tokens: granted_tokens.clone(),
            composite_lock_uuid: composite_lock_uuid.clone(),
        },
    }
}

/// A copy of an optional text.
pub fn copied_text(text: &Option<String>) -> (r: Option<String>)
    ensures
        protocol::shown_text(r) == protocol::shown_text(*text),
{
    match text {
        Some(t) => Some(t.clone()),
        None => None,
    }
}

impl LockState {
    fn snapshot(&self, key: &String) -> (r: BrokerRaftLockSnapshot)
        ensures
            r@ == self@.snapshot(key@),
    {
        let ghost l = self@;
        let ghost all = self@.snapshot(key@);
        let mut exclusive_holders: Vec<BrokerRaftExclusiveHolderSnapshot> = Vec::new();
        let n: usize = self.exclusive_holders.len();
        let mut i: usize = 0;
        while i < n
            invariant
                i <= n,
                self@ == l,
                all == l.snapshot(key@),
                n == self.exclusive_holders@.len(),
                n == self.exclusive_holders.keys().len(),
                exclusive_holders@.len() == i,
                forall|j: int|
                    0 <= j < i ==> (#[trigger] exclusive_holders@[j])@ == all.exclusive_holders[j],
            decreases n - i,
        {
            let holder = self.exclusive_holders.value_at(i);
            exclusive_holders.push(
                BrokerRaftExclusiveHolderSnapshot {
                    lock_uuid: self.exclusive_holders.key_at(i).clone(),
                    pid: holder.pid,
                    fencing_token: holder.fencing_token,
                    keep_locks_after_death: holder.keep_locks_after_death,
                    composite_member: holder.composite_member,
                },
            );
            i = i + 1;
        }
        let mut readers: Vec<BrokerRaftRwHolderSnapshot> = Vec::new();
        let n: usize = self.readers.len();
        let mut i: usize = 0;
        while i < n
            invariant
                i <= n,
                self@ == l,
                all == l.snapshot(key@),
                n == self.readers@.len(),
                n == self.readers.keys().len(),
                readers@.len() == i,
                forall|j: int| 0 <= j < i ==> (#[trigger] readers@[j])@ == all.readers[j],
            decreases n - i,
        {
            let holder = self.readers.value_at(i);
            readers.push(
                BrokerRaftRwHolderSnapshot {
                    lock_uuid: self.readers.key_at(i).clone(),
                    fencing_token: holder.fencing_token,
                },
            );
            i = i + 1;
        }
        let writer = match &self.writer {
            Some(w) => Some(
                BrokerRaftRwHolderSnapshot {
                    lock_uuid: w.lock_uuid.clone(),
                    fencing_token: w.fencing_token,
                },
            ),
            None => None,
        };
        let mut queue: Vec<BrokerRaftPendingRequestSnapshot> = Vec::new();
        let n: usize = self.queue.len();
        let mut i: usize = 0;
        while i < n
            invariant
                i <= n,
                self@ == l,
                all == l.snapshot(key@),
                n == self.queue@.len(),
                queue@.len() == i,
                forall|j: int| 0 <= j < i ==> (#[trigger] queue@[j])@ == all.queue[j],
            decreases n - i,
        {
            let (_, pending) = self.queue.entry_at(i);
            queue.push(
                BrokerRaftPendingRequestSnapshot {
                    request_uuid: pending.request_uuid.clone(),
                    client_id: pending.client,
                    pid: pending.pid,
                    ttl_ms: pending.ttl,
                    grant_lock_uuid: copied_text(&pending.grant_lock_uuid),
                    grant_fencing_seed: pending.grant_fencing_seed,
                    keep_locks_after_death: pending.keep_locks_after_death,
                    kind: pending_kind_snapshot_from(&pending.kind),
                },
            );
            i = i + 1;
        }
        let r = BrokerRaftLockSnapshot {
            key: key.clone(),
            max: self.max,
            fencing_counter: self.fencing_counter,
            exclusive_holders,
            readers,
            writer,
            queue,
            idle: self.is_idle(),
        };
        assert(r@.exclusive_holders =~= all.exclusive_holders);
        assert(r@.readers =~= all.readers);
        assert(r@.queue =~= all.queue);
        r
    }
}

impl BrokerState {
    /// The deadlines of a snapshot at `now`.
    fn deadline_snapshots(&self, now: u128) -> (r: Vec<BrokerRaftDeadlineSnapshot>)
        ensures
            ordered_map::views(r@) == self@.snapshot(now).deadlines,
    {
        let ghost m = self@;
        let n: usize = self.deadlines.len();
        let ghost dues = self.deadlines.keys();
        let mut ranked: OrderedMap<DeadlineRank, BrokerRaftDeadlineSnapshot> = OrderedMap::new();
        let mut i: usize = 0;
        while i < n
            invariant
                i <= n,
                m == self@,
                n == self.deadlines@.len(),
                dues == self.deadlines.keys(),
                dues.len() == n,
                forall|r: (Seq<char>, Seq<Seq<char>>, DeadlineKey)| #[trigger]
                    ranked@.dom().contains(r) <==> {
                        &&& dues.take(i as int).contains(r.2)
                        &&& m.still_held(m.deadlines[r.2])
                        &&& r.0 == m.deadlines[r.2].lock_uuid
                        &&& r.1 == m.deadlines[r.2].keys
                    },
                forall|r: (Seq<char>, Seq<Seq<char>>, DeadlineKey)| #[trigger]
                    ranked@.dom().contains(r) ==> ranked@[r] == deadline_snapshot(
                        m.deadlines[r.2],
                        r.2,
                        now,
                    ),
            decreases n - i,
        {
            let due = *self.deadlines.key_at(i);
            let entry = self.deadlines.value_at(i);
            if self.deadline_entry_is_still_held(entry) {
                let left: u128 = if due.at > now {
                    due.at - now
                } else {
                    0
                };
                let rank = DeadlineRank {
                    lock_uuid: entry.lock_uuid.clone(),
                    keys: grants::copied(&entry.keys),
                    due,
                };
                let snapshot = BrokerRaftDeadlineSnapshot {
                    lock_uuid: entry.lock_uuid.clone(),
                    keys: grants::copied(&entry.keys),
                    kind: entry.kind,
                    remaining_ms: duration_ms_u64(left),
                };
                assert(snapshot@ == deadline_snapshot(m.deadlines[due], due, now));
                ranked.insert(rank, snapshot);
            }
            proof {
                assert(dues.take(i + 1) =~= dues.take(i as int).push(due));
                assert forall|r: (Seq<char>, Seq<Seq<char>>, DeadlineKey)| #[trigger]
                    ranked@.dom().contains(r) <==> {
                    &&& dues.take(i + 1).contains(r.2)
                    &&& m.still_held(m.deadlines[r.2])
                    &&& r.0 == m.deadlines[r.2].lock_uuid
                    &&& r.1 == m.deadlines[r.2].keys
                } by {
                    crate::queue::lemma_contains_push(dues.take(i as int), due, r.2);
                }
            }
            i = i + 1;
        }
        let _ = ranked.len();
        proof {
            assert(dues.take(i as int) =~= dues);
            let live = Set::new(
                |r: (Seq<char>, Seq<Seq<char>>, DeadlineKey)|
                    {
                        &&& m.deadlines.dom().contains(r.2)
                        &&& m.still_held(m.deadlines[r.2])
                        &&& r.0 == m.deadlines[r.2].lock_uuid
                        &&& r.1 == m.deadlines[r.2].keys
                    },
            );
            assert(ranked@.dom() =~= live) by {
                assert forall|r: (Seq<char>, Seq<Seq<char>>, DeadlineKey)|
                    ranked@.dom().contains(r) <==> live.contains(r) by {
                    assert(dues.to_set().contains(r.2) <==> dues.contains(r.2));
                }
            }
        }
        let ghost order = ranked.keys();
        let ghost table = ranked@;
        let out = ranked.into_values();
        proof {
            assert forall|j: int| 0 <= j < order.len() implies (#[trigger] out@[j])@
                == deadline_snapshot(m.deadlines[order[j].2], order[j].2, now) by {
                assert(order.to_set().contains(order[j]));
                assert(table.dom().contains(order[j]));
            }
            assert(ordered_map::views(out@) =~= m.snapshot(now).deadlines);
        }
        out
    }

    /// Writes the state at `now` down.
    pub fn snapshot_for_raft(&self, now: u128) -> (r: BrokerRaftSnapshot)
        ensures
            r@ == self@.snapshot(now),
    {
        let ghost all = self@.snapshot(now);
        let metrics = BrokerRaftSnapshotMetrics::from(self.metrics());
        let n: usize = self.locks.len();
        let mut locks: Vec<BrokerRaftLockSnapshot> = Vec::new();
        let mut i: usize = 0;
        while i < n
            invariant
                i <= n,
                n == self.locks@.len(),
                n == self.locks.keys().len(),
                all == self@.snapshot(now),
                locks@.len() == i,
                forall|j: int| 0 <= j < i ==> (#[trigger] locks@[j])@ == all.locks[j],
            decreases n - i,
        {
            let key = self.locks.key_at(i);
            locks.push(self.locks.value_at(i).snapshot(key));
            i = i + 1;
        }
        let deadlines = self.deadline_snapshots(now);
        let r = BrokerRaftSnapshot { schema_version: 1, metrics, locks, deadlines };
        assert(r@.locks =~= all.locks);
        r
    }
}

} // verus!
