//! What the broker keeps, and what each part of it shows.

use crate::ordered_map;
use crate::ordered_map::{OrderedKey, OrderedMap};
use crate::protocol;
use crate::protocol::{Response, ResponseModel, TokenMap, DEFAULT_MAX_CONCURRENCY_CAP};
use crate::queue::LinkedQueue;
use vstd::prelude::*;

verus! {

pub type ClientId = u64;

/// Owner of holders that no connected client owns.
pub const SNAPSHOT_DETACHED_CLIENT: ClientId = 0;

/// Nanoseconds in a millisecond.
pub const NANOS_PER_MILLI: u128 = 1_000_000;

/// Construction options. Durations are in milliseconds.
#[derive(Debug, Clone, Copy, PartialEq, Eq, Structural)]
pub struct BrokerConfig {
    pub default_ttl: u64,
    /// Concurrency level of keys that no request has set a `max` for.
    pub max_lock_holders: u32,
    /// How often the periodic TTL sweep runs. `0` disables the sweeper.
    pub ttl_sweep_interval: u64,
    /// Upper bound on per-key concurrency.
    pub max_concurrency_cap: u32,
    /// How long a key must stay idle before the sweep reclaims it. `0`
    /// disables the reclaiming of idle keys.
    pub idle_key_grace: u64,
}

impl Default for BrokerConfig {
    fn default() -> (r: Self)
        ensures
            r == (BrokerConfig {
                default_ttl: 4000,
                max_lock_holders: 1,
                ttl_sweep_interval: 10,
                max_concurrency_cap: DEFAULT_MAX_CONCURRENCY_CAP,
                idle_key_grace: 60_000,
            }),
    {
        BrokerConfig {
            default_ttl: 4000,
            max_lock_holders: 1,
            ttl_sweep_interval: 10,
            max_concurrency_cap: DEFAULT_MAX_CONCURRENCY_CAP,
            idle_key_grace: 60_000,
        }
    }
}

/// One reading of the clocks: nanoseconds on the broker's monotonic clock, and
/// wall-clock milliseconds since the Unix epoch.
#[derive(Debug, Clone, Copy, PartialEq, Eq, Structural)]
pub struct Clock {
    pub now: u128,
    pub wall_ms: u64,
}

/// How a lock is held.
#[derive(Debug, Clone, Copy, PartialEq, Eq, Structural)]
pub enum RwHoldKind {
    Exclusive,
    Read,
    Write,
}

/// One exclusive holder of a key.
#[derive(Debug, Clone, Copy, PartialEq, Eq, Structural)]
pub struct ExclusiveHolder {
    pub client: ClientId,
    pub pid: Option<i64>,
    pub fencing_token: u64,
    pub keep_locks_after_death: bool,
    pub composite_member: bool,
}

impl View for ExclusiveHolder {
    type V = ExclusiveHolder;

    open spec fn view(&self) -> ExclusiveHolder {
        *self
    }
}

/// One reader, or the writer, of a key.
#[derive(Debug)]
pub struct RwHolder {
    pub client: ClientId,
    pub fencing_token: u64,
    pub lock_uuid: String,
}

#[verifier::ext_equal]
pub struct RwModel {
    pub client: ClientId,
    pub fencing_token: u64,
    pub lock_uuid: Seq<char>,
}

impl View for RwHolder {
    type V = RwModel;

    open spec fn view(&self) -> RwModel {
        RwModel {
            client: self.client,
            fencing_token: self.fencing_token,
            lock_uuid: self.lock_uuid@,
        }
    }
}

/// What a queued request waits for.
#[derive(Debug)]
pub enum PendingKind {
    Exclusive,
    Reader,
    Writer,
    /// A composite request that still needs `remaining_keys` (sorted). It is
    /// queued on the first of them and moves on to the next when granted.
    Composite {
        all_keys: Vec<String>,
        remaining_keys: Vec<String>,
        granted_keys: Vec<String>,
        granted_tokens: TokenMap,
        composite_lock_uuid: String,
    },
}

#[verifier::ext_equal]
pub enum KindModel {
    Exclusive,
    Reader,
    Writer,
    Composite {
        all_keys: Seq<Seq<char>>,
        remaining_keys: Seq<Seq<char>>,
        granted_keys: Seq<Seq<char>>,
        granted_tokens: Map<Seq<char>, u64>,
        composite_lock_uuid: Seq<char>,
    },
}

impl View for PendingKind {
    type V = KindModel;

    open spec fn view(&self) -> KindModel {
        match *self {
            PendingKind::Exclusive => KindModel::Exclusive,
            PendingKind::Reader => KindModel::Reader,
            PendingKind::Writer => KindModel::Writer,
            PendingKind::Composite {
                all_keys,
                remaining_keys,
                granted_keys,
                granted_tokens,
                composite_lock_uuid,
            } => KindModel::Composite {
                all_keys: ordered_map::views(all_keys@),
                remaining_keys: ordered_map::views(remaining_keys@),
                granted_keys: ordered_map::views(granted_keys@),
                granted_tokens: granted_tokens@,
                composite_lock_uuid: composite_lock_uuid@,
            },
        }
    }
}

/// A queued request. `ttl` is in milliseconds.
#[derive(Debug)]
pub struct PendingRequest {
    pub request_uuid: String,
    pub client: ClientId,
    pub pid: Option<i64>,
    pub ttl: Option<u64>,
    pub grant_lock_uuid: Option<String>,
    pub grant_fencing_seed: Option<u64>,
    pub keep_locks_after_death: bool,
    pub kind: PendingKind,
}

#[verifier::ext_equal]
pub struct PendingModel {
    pub request_uuid: Seq<char>,
    pub client: ClientId,
    pub pid: Option<i64>,
    pub ttl: Option<u64>,
    pub grant_lock_uuid: Option<Seq<char>>,
    pub grant_fencing_seed: Option<u64>,
    pub keep_locks_after_death: bool,
    pub kind: KindModel,
}

impl View for PendingRequest {
    type V = PendingModel;

    open spec fn view(&self) -> PendingModel {
        PendingModel {
            request_uuid: self.request_uuid@,
            client: self.client,
            pid: self.pid,
            ttl: self.ttl,
            grant_lock_uuid: protocol::shown_text(self.grant_lock_uuid),
            grant_fencing_seed: self.grant_fencing_seed,
            keep_locks_after_death: self.keep_locks_after_death,
            kind: self.kind@,
        }
    }
}

/// Lock id and first fencing token that a caller imposes on a grant.
#[derive(Debug)]
pub struct GrantOverrides {
    pub lock_uuid: Option<String>,
    pub fencing_seed: Option<u64>,
}

/// `seed + offset`, at most the largest token.
pub open spec fn seed_token(seed: Option<u64>, offset: int) -> Option<u64> {
    match seed {
        Some(s) => Some(
            if s + offset > u64::MAX {
                u64::MAX
            } else {
                (s + offset) as u64
            },
        ),
        None => None,
    }
}

impl Default for GrantOverrides {
    fn default() -> (r: Self)
        ensures
            r.lock_uuid is None,
            r.fencing_seed is None,
    {
        GrantOverrides { lock_uuid: None, fencing_seed: None }
    }
}

impl GrantOverrides {
    /// The imposed token of the member at `offset` of a range.
    pub fn token(&self, offset: u64) -> (r: Option<u64>)
        ensures
            r == seed_token(self.fencing_seed, offset as int),
    {
        match self.fencing_seed {
            Some(seed) => Some(seed.saturating_add(offset)),
            None => None,
        }
    }
}

/// The state of one key.
#[derive(Debug)]
pub struct LockState {
    /// Exclusive holders by lock id.
    pub exclusive_holders: OrderedMap<String, ExclusiveHolder>,
    /// Most simultaneous exclusive holders.
    pub max: u32,
    /// Readers by lock id.
    pub readers: OrderedMap<String, RwHolder>,
    pub writer: Option<RwHolder>,
    /// Requests that wait for this key, by request id.
    pub queue: LinkedQueue<String, PendingRequest>,
    /// The last fencing token of this key.
    pub fencing_counter: u64,
    /// Since when nobody has held or awaited this key.
    pub timestamp_emptied: Option<u128>,
}

#[verifier::ext_equal]
pub struct LockModel {
    pub exclusive_holders: Map<Seq<char>, ExclusiveHolder>,
    pub max: u32,
    pub readers: Map<Seq<char>, RwModel>,
    pub writer: Option<RwModel>,
    pub queue: Seq<(Seq<char>, PendingModel)>,
    pub fencing_counter: u64,
    pub timestamp_emptied: Option<u128>,
}

/// What an optional holder shows.
pub open spec fn shown_holder(o: Option<RwHolder>) -> Option<RwModel> {
    match o {
        Some(h) => Some(h@),
        None => None,
    }
}

impl View for LockState {
    type V = LockModel;

    open spec fn view(&self) -> LockModel {
        LockModel {
            exclusive_holders: self.exclusive_holders@,
            max: self.max,
            readers: self.readers@,
            writer: shown_holder(self.writer),
            queue: self.queue@,
            fencing_counter: self.fencing_counter,
            timestamp_emptied: self.timestamp_emptied,
        }
    }
}

/// The keys that a lock id holds, and how.
#[derive(Debug)]
pub struct KeysOfLock {
    pub keys: Vec<String>,
    pub rw_kind: RwHoldKind,
}

#[verifier::ext_equal]
pub struct HeldModel {
    pub keys: Seq<Seq<char>>,
    pub rw_kind: RwHoldKind,
}

impl View for KeysOfLock {
    type V = HeldModel;

    open spec fn view(&self) -> HeldModel {
        HeldModel { keys: ordered_map::views(self.keys@), rw_kind: self.rw_kind }
    }
}

/// What a pair of texts shows.
pub open spec fn shown_pairs(s: Seq<(String, String)>) -> Seq<(Seq<char>, Seq<char>)> {
    Seq::new(s.len(), |i: int| (s[i].0@, s[i].1@))
}

/// A connected client: what it holds, and what it waits for as pairs of key and
/// request id.
#[derive(Debug)]
pub struct ClientHandle {
    pub held_lock_uuids: OrderedMap<String, KeysOfLock>,
    pub pending_request_uuids: Vec<(String, String)>,
}

#[verifier::ext_equal]
pub struct ClientModel {
    pub held_lock_uuids: Map<Seq<char>, HeldModel>,
    pub pending_request_uuids: Seq<(Seq<char>, Seq<char>)>,
}

impl View for ClientHandle {
    type V = ClientModel;

    open spec fn view(&self) -> ClientModel {
        ClientModel {
            held_lock_uuids: self.held_lock_uuids@,
            pending_request_uuids: shown_pairs(self.pending_request_uuids@),
        }
    }
}

/// When a holder expires; `seq` tells deadlines at one instant apart.
#[derive(Debug, Clone, Copy, PartialEq, Eq, Structural)]
pub struct DeadlineKey {
    pub at: u128,
    pub seq: u64,
}

impl View for DeadlineKey {
    type V = DeadlineKey;

    open spec fn view(&self) -> DeadlineKey {
        *self
    }
}

impl OrderedKey for DeadlineKey {
    open spec fn less(a: DeadlineKey, b: DeadlineKey) -> bool {
        a.at < b.at || (a.at == b.at && a.seq < b.seq)
    }

    proof fn less_irreflexive(a: DeadlineKey) {
    }

    proof fn less_transitive(a: DeadlineKey, b: DeadlineKey, c: DeadlineKey) {
    }

    proof fn less_total(a: DeadlineKey, b: DeadlineKey) {
    }

    fn before(&self, other: &Self) -> (r: bool) {
        self.at < other.at || (self.at == other.at && self.seq < other.seq)
    }

    fn same(&self, other: &Self) -> (r: bool) {
        self.at == other.at && self.seq == other.seq
    }

    fn duplicate(&self) -> (r: Self) {
        *self
    }
}

/// What expires at a deadline. An early release leaves its deadline in place;
/// the sweep skips deadlines whose holder is gone.
#[derive(Debug)]
pub struct DeadlineEntry {
    pub lock_uuid: String,
    pub keys: Vec<String>,
    pub kind: RwHoldKind,
    /// The client that held the lock when the deadline was set.
    pub client: ClientId,
}

#[verifier::ext_equal]
pub struct DeadlineModel {
    pub lock_uuid: Seq<char>,
    pub keys: Seq<Seq<char>>,
    pub kind: RwHoldKind,
    pub client: ClientId,
}

impl View for DeadlineEntry {
    type V = DeadlineModel;

    open spec fn view(&self) -> DeadlineModel {
        DeadlineModel {
            lock_uuid: self.lock_uuid@,
            keys: ordered_map::views(self.keys@),
            kind: self.kind,
            client: self.client,
        }
    }
}

/// A response on its way out. `connected` tells whether the client was
/// registered when it was sent. An answer of the lock state is shown to
/// observers; a notice of the transport is not.
#[derive(Debug)]
pub struct Delivery {
    pub client: ClientId,
    pub connected: bool,
    pub observed: bool,
    pub response: Response,
}

#[verifier::ext_equal]
pub struct DeliveryModel {
    pub client: ClientId,
    pub connected: bool,
    pub observed: bool,
    pub response: ResponseModel,
}

impl View for Delivery {
    type V = DeliveryModel;

    open spec fn view(&self) -> DeliveryModel {
        DeliveryModel {
            client: self.client,
            connected: self.connected,
            observed: self.observed,
            response: self.response@,
        }
    }
}

/// Everything the broker knows.
pub struct BrokerState {
    pub locks: OrderedMap<String, LockState>,
    pub clients: OrderedMap<u64, ClientHandle>,
    pub next_client_id: ClientId,
    pub config: BrokerConfig,
    pub deadlines: OrderedMap<DeadlineKey, DeadlineEntry>,
    pub deadline_seq: u64,
    pub ttl_evictions_total: u64,
    pub concurrency_cap_clamps_total: u64,
    /// At least every fencing token granted so far, over all keys.
    pub fencing_watermark: u64,
    pub idle_keys_pruned_total: u64,
    /// Responses that wait for the transport.
    pub outbox: Vec<Delivery>,
    /// Every random lock id made so far, in order.
    pub minted: Ghost<Seq<Seq<char>>>,
}

#[verifier::ext_equal]
pub struct BrokerModel {
    pub locks: Map<Seq<char>, LockModel>,
    pub clients: Map<u64, ClientModel>,
    pub next_client_id: ClientId,
    pub config: BrokerConfig,
    pub deadlines: Map<DeadlineKey, DeadlineModel>,
    pub deadline_seq: u64,
    pub ttl_evictions_total: u64,
    pub concurrency_cap_clamps_total: u64,
    pub fencing_watermark: u64,
    pub idle_keys_pruned_total: u64,
    pub outbox: Seq<DeliveryModel>,
    /// How many random lock ids have been made.
    pub drawn: int,
}

impl View for BrokerState {
    type V = BrokerModel;

    open spec fn view(&self) -> BrokerModel {
        BrokerModel {
            locks: self.locks@,
            clients: self.clients@,
            next_client_id: self.next_client_id,
            config: self.config,
            deadlines: self.deadlines@,
            deadline_seq: self.deadline_seq,
            ttl_evictions_total: self.ttl_evictions_total,
            concurrency_cap_clamps_total: self.concurrency_cap_clamps_total,
            fencing_watermark: self.fencing_watermark,
            idle_keys_pruned_total: self.idle_keys_pruned_total,
            outbox: ordered_map::views(self.outbox@),
            drawn: self.minted@.len() as int,
        }
    }
}

} // verus!
