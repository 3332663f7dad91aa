//! Requests that acquire.

use crate::broker::grants;
use crate::broker::model;
use crate::broker::model::Tape;
use crate::broker::types;
use crate::broker::types::{
    BrokerModel, BrokerState, ClientId, Clock, DeadlineEntry, DeadlineModel, ExclusiveHolder,
    GrantOverrides, KindModel, LockModel, PendingKind, PendingModel, PendingRequest, RwHoldKind,
    RwHolder, RwModel,
};
use crate::ordered_map;
use crate::ordered_map::OrderedMap;
use crate::protocol;
use crate::protocol::{Response, ResponseModel, TokenMap, MAX_COMPOSITE_KEYS};
use vstd::prelude::*;
use vstd::string::StringExecFns;

verus! {

/// A single-key lock request. `ttl` is in milliseconds.
pub struct ExclusiveLockRequest {
    pub client: ClientId,
    pub uuid: String,
    pub key: String,
    pub pid: Option<i64>,
    pub ttl: Option<u64>,
    pub max: Option<u32>,
    pub keep_locks_after_death: bool,
    pub force: bool,
    pub wait: bool,
    pub grant_overrides: GrantOverrides,
}

/// A multi-key lock request. `ttl` is in milliseconds.
pub struct CompositeLockRequest {
    pub client: ClientId,
    pub uuid: String,
    pub keys: Vec<String>,
    pub pid: Option<i64>,
    pub ttl: Option<u64>,
    pub wait: bool,
    pub grant_overrides: GrantOverrides,
}

/// Members of a composite lock as they are taken: the state, their tokens, and
/// the largest of these.
pub struct MembersHeld {
    pub state: BrokerModel,
    pub tokens: Map<Seq<char>, u64>,
    pub top: u64,
}

impl BrokerModel {
    /// The concurrency level that a request asks for, within the ceiling.
    pub open spec fn resolved_max(self, current: u32, requested: Option<u32>) -> u32 {
        match requested {
            Some(m) if m > 0 => if m > self.cap() {
                self.cap()
            } else {
                m
            },
            _ => {
                let m = if current < self.cap() {
                    current
                } else {
                    self.cap()
                };
                if m < 1 {
                    1
                } else {
                    m
                }
            },
        }
    }

    /// A request above the ceiling is counted.
    pub open spec fn clamp_counted(self, requested: Option<u32>) -> BrokerModel {
        match requested {
            Some(m) if m > self.cap() => BrokerModel {
                concurrency_cap_clamps_total: model::wrapped_next(
                    self.concurrency_cap_clamps_total,
                ),
                ..self
            },
            _ => self,
        }
    }

    /// A single-key lock request: granted, refused, or queued.
    pub open spec fn exclusive_requested(
        self,
        r: ExclusiveLockRequest,
        clock: Clock,
        tape: Tape,
    ) -> BrokerModel {
        let key = r.key@;
        let given = protocol::shown_text(r.grant_overrides.lock_uuid);
        let current = if self.locks.dom().contains(key) {
            self.locks[key].max
        } else {
            self.config.max_lock_holders
        };
        let l = LockModel {
            max: self.resolved_max(current, r.max),
            ..self.lock_or_fresh(key, clock.wall_ms)
        };
        let m = self.clamp_counted(r.max).with_lock(key, l);
        if l.admits_exclusive() {
            let forced = r.grant_overrides.fencing_seed;
            let token = l.next_token(forced);
            let id = self.grant_id(given, tape);
            let holder = ExclusiveHolder {
                client: r.client,
                pid: r.pid,
                fencing_token: token,
                keep_locks_after_death: r.keep_locks_after_death,
                composite_member: false,
            };
            m.id_taken(given).with_lock(
                key,
                l.counted(forced).with_exclusive(id, holder),
            ).observed(token).idle_marked(key, clock.now).holder_tracked(
                r.client,
                id,
                seq![key],
                RwHoldKind::Exclusive,
            ).scheduled(
                r.ttl,
                DeadlineModel {
                    lock_uuid: id,
                    keys: seq![key],
                    kind: RwHoldKind::Exclusive,
                    client: r.client,
                },
                clock.now,
            ).send(
                r.client,
                ResponseModel::Lock {
                    uuid: r.uuid@,
                    key,
                    acquired: true,
                    lock_request_count: l.queue.len() as usize,
                    lock_uuid: Some(id),
                    fencing_token: Some(token),
                    readers_count: Some(0),
                    error: None,
                },
            )
        } else if !r.wait {
            m.send(r.client, contended(r.uuid@, key, l.queue.len()))
        } else {
            let joined = l.enqueued(
                PendingModel {
                    request_uuid: r.uuid@,
                    client: r.client,
                    pid: r.pid,
                    ttl: r.ttl,
                    grant_lock_uuid: given,
                    grant_fencing_seed: r.grant_overrides.fencing_seed,
                    keep_locks_after_death: r.keep_locks_after_death,
                    kind: KindModel::Exclusive,
                },
                r.force,
            );
            m.with_lock(key, joined).idle_marked(key, clock.now).pending_tracked(
                r.client,
                key,
                r.uuid@,
            ).send(r.client, contended(r.uuid@, key, joined.queue.len()))
        }
    }

    /// The first `n` of `keys` are held under `id`, each with its own token.
    pub open spec fn members_held(
        self,
        keys: Seq<Seq<char>>,
        n: nat,
        id: Seq<char>,
        client: ClientId,
        pid: Option<i64>,
        seed: Option<u64>,
        wall_ms: u64,
    ) -> MembersHeld
        decreases n,
    {
        if n == 0 {
            MembersHeld { state: self, tokens: Map::empty(), top: 0 }
        } else {
            let before = self.members_held(keys, (n - 1) as nat, id, client, pid, seed, wall_ms);
            let key = keys[n - 1];
            let forced = types::seed_token(seed, n - 1);
            let l = before.state.lock_or_fresh(key, wall_ms);
            let token = l.next_token(forced);
            let holder = ExclusiveHolder {
                client,
                pid,
                fencing_token: token,
                keep_locks_after_death: false,
                composite_member: true,
            };
            MembersHeld {
                state: before.state.with_lock(key, l.counted(forced).with_exclusive(id, holder)),
                tokens: before.tokens.insert(key, token),
                top: model::larger(before.top, token),
            }
        }
    }

    /// The idle marks of the first `n` of `keys` are refreshed.
    pub open spec fn all_idle_marked(
        self,
        keys: Seq<Seq<char>>,
        n: nat,
        now: u128,
    ) -> BrokerModel
        decreases n,
    {
        if n == 0 {
            self
        } else {
            self.all_idle_marked(keys, (n - 1) as nat, now).idle_marked(keys[n - 1], now)
        }
    }

    /// Nobody holds any of `keys`.
    pub open spec fn all_vacant(self, keys: Seq<Seq<char>>) -> bool {
        forall|i: int|
            0 <= i < keys.len() && self.locks.dom().contains(#[trigger] keys[i])
                ==> self.locks[keys[i]].vacant()
    }

    /// A multi-key lock request: rejected, granted as a whole, refused, or
    /// queued on its first key.
    pub open spec fn composite_requested(
        self,
        r: CompositeLockRequest,
        clock: Clock,
        tape: Tape,
    ) -> BrokerModel {
        let asked = ordered_map::views(r.keys@);
        let given = protocol::shown_text(r.grant_overrides.lock_uuid);
        let seed = r.grant_overrides.fencing_seed;
        if asked.len() == 0 || asked.len() > MAX_COMPOSITE_KEYS {
            self.send(
                r.client,
                ResponseModel::CompositeLock {
                    uuid: r.uuid@,
                    keys: asked,
                    acquired: false,
                    lock_uuid: None,
                    fencing_tokens: None,
                    error: Some("composite lock requires 1..=5 keys"@),
                },
            )
        } else {
            let keys = ordered_map::sorted_distinct(asked);
            let id = self.grant_id(given, tape);
            let m = self.id_taken(given);
            if m.all_vacant(keys) {
                let held = m.members_held(
                    keys,
                    keys.len(),
                    id,
                    r.client,
                    r.pid,
                    seed,
                    clock.wall_ms,
                );
                held.state.observed(held.top).all_idle_marked(
                    keys,
                    keys.len(),
                    clock.now,
                ).holder_tracked(r.client, id, keys, RwHoldKind::Exclusive).scheduled(
                    r.ttl,
                    DeadlineModel {
                        lock_uuid: id,
                        keys,
                        kind: RwHoldKind::Exclusive,
                        client: r.client,
                    },
                    clock.now,
                ).send(
                    r.client,
                    ResponseModel::CompositeLock {
                        uuid: r.uuid@,
                        keys,
                        acquired: true,
                        lock_uuid: Some(id),
                        fencing_tokens: Some(held.tokens),
                        error: None,
                    },
                )
            } else if !r.wait {
                m.send(
                    r.client,
                    ResponseModel::CompositeLock {
                        uuid: r.uuid@,
                        keys,
                        acquired: false,
                        lock_uuid: None,
                        fencing_tokens: None,
                        error: None,
                    },
                )
            } else {
                let first = keys[0];
                let joined = m.lock_or_fresh(first, clock.wall_ms).enqueued(
                    PendingModel {
                        request_uuid: r.uuid@,
                        client: r.client,
                        pid: r.pid,
                        ttl: r.ttl,
                        grant_lock_uuid: None,
                        grant_fencing_seed: seed,
                        keep_locks_after_death: false,
                        kind: KindModel::Composite {
                            all_keys: keys,
                            remaining_keys: keys,
                            granted_keys: Seq::empty(),
                            granted_tokens: Map::empty(),
                            composite_lock_uuid: id,
                        },
                    },
                    false,
                );
                m.with_lock(first, joined).idle_marked(first, clock.now).pending_tracked(
                    r.client,
                    first,
                    r.uuid@,
                ).send(
                    r.client,
                    ResponseModel::CompositeLock {
                        uuid: r.uuid@,
                        keys,
                        acquired: false,
                        lock_uuid: Some(id),
                        fencing_tokens: None,
                        error: None,
                    },
                ).settled(seq![first], clock, tape)
            }
        }
    }

    /// A read request: granted when nobody writes, holds or waits; else queued.
    pub open spec fn read_requested(
        self,
        client: ClientId,
        uuid: Seq<char>,
        key: Seq<char>,
        given: Option<Seq<char>>,
        seed: Option<u64>,
        clock: Clock,
        tape: Tape,
    ) -> BrokerModel {
        let l = self.lock_or_fresh(key, clock.wall_ms);
        if l.admits_reader() && l.queue.len() == 0 {
            let token = l.next_token(seed);
            let id = self.grant_id(given, tape);
            let granted = l.counted(seed).with_reader(
                RwModel { client, fencing_token: token, lock_uuid: id },
            );
            self.id_taken(given).with_lock(key, granted).observed(token).idle_marked(
                key,
                clock.now,
            ).holder_tracked(client, id, seq![key], RwHoldKind::Read).send(
                client,
                ResponseModel::RegisterReadResult {
                    uuid,
                    key,
                    readers_count: granted.readers.len() as u32,
                    writer_flag: false,
                    granted: true,
                    lock_uuid: Some(id),
                    fencing_token: Some(token),
                },
            )
        } else {
            self.with_lock(
                key,
                l.enqueued(waiting(client, uuid, given, seed, KindModel::Reader), false),
            ).idle_marked(key, clock.now).pending_tracked(client, key, uuid).send(
                client,
                ResponseModel::RegisterReadResult {
                    uuid,
                    key,
                    readers_count: l.readers.len() as u32,
                    writer_flag: l.writer is Some,
                    granted: false,
                    lock_uuid: None,
                    fencing_token: None,
                },
            )
        }
    }

    /// A write request: granted when nobody holds the key; else queued.
    pub open spec fn write_requested(
        self,
        client: ClientId,
        uuid: Seq<char>,
        key: Seq<char>,
        given: Option<Seq<char>>,
        seed: Option<u64>,
        clock: Clock,
        tape: Tape,
    ) -> BrokerModel {
        let l = self.lock_or_fresh(key, clock.wall_ms);
        if l.vacant() {
            let token = l.next_token(seed);
            let id = self.grant_id(given, tape);
            let granted = l.counted(seed).with_writer(
                RwModel { client, fencing_token: token, lock_uuid: id },
            );
            self.id_taken(given).with_lock(key, granted).observed(token).idle_marked(
                key,
                clock.now,
            ).holder_tracked(client, id, seq![key], RwHoldKind::Write).send(
                client,
                ResponseModel::RegisterWriteResult {
                    uuid,
                    key,
                    readers_count: 0,
                    writer_flag: true,
                    granted: true,
                    lock_uuid: Some(id),
                    fencing_token: Some(token),
                },
            )
        } else {
            self.with_lock(
                key,
                l.enqueued(waiting(client, uuid, given, seed, KindModel::Writer), false),
            ).idle_marked(key, clock.now).pending_tracked(client, key, uuid).send(
                client,
                ResponseModel::RegisterWriteResult {
                    uuid,
                    key,
                    readers_count: l.readers.len() as u32,
                    writer_flag: l.writer is Some,
                    granted: false,
                    lock_uuid: None,
                    fencing_token: None,
                },
            )
        }
    }
}

/// A queued reader or writer.
pub open spec fn waiting(
    client: ClientId,
    uuid: Seq<char>,
    given: Option<Seq<char>>,
    seed: Option<u64>,
    kind: KindModel,
) -> PendingModel {
    PendingModel {
        request_uuid: uuid,
        client,
        pid: None,
        ttl: None,
        grant_lock_uuid: given,
        grant_fencing_seed: seed,
        keep_locks_after_death: false,
        kind,
    }
}

/// The lock was not acquired; `depth` requests are queued.
pub open spec fn contended(uuid: Seq<char>, key: Seq<char>, depth: nat) -> ResponseModel {
    ResponseModel::Lock {
        uuid,
        key,
        acquired: false,
        lock_request_count: depth as usize,
        lock_uuid: None,
        fencing_token: None,
        readers_count: Some(0),
        error: None,
    }
}

impl BrokerState {
    /// The concurrency level that a request asks for, within the ceiling. A
    /// request above the ceiling is counted.
    pub fn resolve_max(&mut self, current: u32, requested: Option<u32>) -> (r: u32)
        ensures
            r == old(self)@.resolved_max(current, requested),
            final(self)@ == old(self)@.clamp_counted(requested),
            final(self).minted == old(self).minted,
    {
        let cap: u32 = self.cap();
        let kept: u32 = if current < cap {
            current
        } else {
            cap
        };
        let kept: u32 = if kept < 1 {
            1
        } else {
            kept
        };
        match requested {
            None => kept,
            Some(m) => {
                if m == 0 {
                    kept
                } else if m > cap {
                    self.concurrency_cap_clamps_total =
                        self.concurrency_cap_clamps_total.wrapping_add(1);
                    cap
                } else {
                    m
                }
            },
        }
    }

    /// Grants, refuses or queues a single-key lock request.
    pub fn handle_exclusive_lock(&mut self, request: ExclusiveLockRequest, clock: Clock)
        ensures
            model::continues(old(self).minted@, final(self).minted@),
            forall|tape: Tape|
                #[trigger] model::reads(tape, final(self).minted@) ==> final(self)@ == old(
                    self,
                )@.exclusive_requested(request, clock, tape),
    {
        let ghost start = self@;
        let ghost given = protocol::shown_text(request.grant_overrides.lock_uuid);
        let current: u32 = match self.locks.get(&request.key) {
            Some(lock) => lock.max,
            None => self.config.max_lock_holders,
        };
        let effective: u32 = self.resolve_max(current, request.max);
        let ghost clamped = self@;
        let lock = self.lock_or_default(&request.key, clock.wall_ms);
        lock.max = effective;
        let admits = lock.admits_exclusive();
        let depth: usize = lock.queue.len();
        let ghost l = self@.locks[request.key@];
        let ghost m = self@;
        assert(m =~= clamped.with_lock(request.key@, l));
        let key = request.key;
        let uuid = request.uuid;
        let client = request.client;
        if admits {
            let forced = request.grant_overrides.token(0);
            let lock_uuid = self.grant_id(request.grant_overrides.lock_uuid);
            let lock = match self.locks.get_mut(&key) {
                Some(lock) => lock,
                None => vstd::pervasive::unreached(),
            };
            let token: u64 = lock.next_or_forced_fencing_token(forced);
            lock.exclusive_holders.insert(
                lock_uuid.clone(),
                ExclusiveHolder {
                    client,
                    pid: request.pid,
                    fencing_token: token,
                    keep_locks_after_death: request.keep_locks_after_death,
                    composite_member: false,
                },
            );
            self.observe_fencing_token(token);
            self.maybe_mark_idle(&key, clock.now);
            self.track_holder(client, &lock_uuid, grants::single(&key), RwHoldKind::Exclusive);
            self.schedule_deadline(
                request.ttl,
                DeadlineEntry {
                    lock_uuid: lock_uuid.clone(),
                    keys: grants::single(&key),
                    kind: RwHoldKind::Exclusive,
                    client,
                },
                clock.now,
            );
            self.send(
                client,
                Response::Lock {
                    uuid,
                    key,
                    acquired: true,
                    lock_request_count: depth,
                    lock_uuid: Some(lock_uuid),
                    fencing_token: Some(token),
                    readers_count: Some(0),
                    error: None,
                },
            );
            assert forall|tape: Tape| #[trigger] model::reads(tape, self.minted@) implies self@
                == start.exclusive_requested(request, clock, tape) by {
                assert(m.grant_id(given, tape) == lock_uuid@);
            }
            return;
        }
        if !request.wait {
            self.send(
                client,
                Response::Lock {
                    uuid,
                    key,
                    acquired: false,
                    lock_request_count: depth,
                    lock_uuid: None,
                    fencing_token: None,
                    readers_count: Some(0),
                    error: None,
                },
            );
            return;
        }
        let pending = PendingRequest {
            request_uuid: uuid.clone(),
            client,
            pid: request.pid,
            ttl: request.ttl,
            grant_lock_uuid: request.grant_overrides.lock_uuid,
            grant_fencing_seed: request.grant_overrides.fencing_seed,
            keep_locks_after_death: request.keep_locks_after_death,
            kind: PendingKind::Exclusive,
        };
        let ghost p = pending@;
        let lock = match self.locks.get_mut(&key) {
            Some(lock) => lock,
            None => vstd::pervasive::unreached(),
        };
        let _ = if request.force {
            lock.queue.push_front(uuid.clone(), pending)
        } else {
            lock.queue.push_back(uuid.clone(), pending)
        };
        let depth: usize = lock.queue.len();
        assert(self@ =~= m.with_lock(key@, l.enqueued(p, request.force)));
        self.maybe_mark_idle(&key, clock.now);
        self.track_pending(client, &key, &uuid);
        self.send(
            client,
            Response::Lock {
                uuid,
                key,
                acquired: false,
                lock_request_count: depth,
                lock_uuid: None,
                fencing_token: None,
                readers_count: Some(0),
                error: None,
            },
        );
    }

    /// Whether nobody holds any of `keys`.
    fn are_vacant(&self, keys: &Vec<String>) -> (r: bool)
        ensures
            r == self@.all_vacant(ordered_map::views(keys@)),
    {
        let ghost all = ordered_map::views(keys@);
        let mut i: usize = 0;
        while i < keys.len()
            invariant
                i <= keys@.len(),
                all == ordered_map::views(keys@),
                forall|j: int|
                    0 <= j < i && self@.locks.dom().contains(#[trigger] all[j])
                        ==> self@.locks[all[j]].vacant(),
            decreases keys@.len() - i,
        {
            assert(all[i as int] == keys@[i as int]@);
            if let Some(lock) = self.locks.get(&keys[i]) {
                if !lock.is_vacant() {
                    return false;
                }
            }
            i = i + 1;
        }
        true
    }

    /// Takes every key of a composite lock whose keys nobody holds.
    fn hold_members(
        &mut self,
        keys: &Vec<String>,
        id: &String,
        client: ClientId,
        pid: Option<i64>,
        seed: Option<u64>,
        clock: Clock,
    ) -> (r: TokenMap)
        requires
            keys@.len() <= MAX_COMPOSITE_KEYS,
        ensures
            final(self).minted == old(self).minted,
            ({
                let all = ordered_map::views(keys@);
                let held = old(self)@.members_held(
                    all,
                    all.len(),
                    id@,
                    client,
                    pid,
                    seed,
                    clock.wall_ms,
                );
                &&& r@ == held.tokens
                &&& final(self)@ == held.state.observed(held.top).all_idle_marked(
                    all,
                    all.len(),
                    clock.now,
                )
            }),
    {
        let ghost start = self@;
        let ghost all = ordered_map::views(keys@);
        let mut tokens: TokenMap = OrderedMap::new();
        let mut top: u64 = 0;
        let mut i: usize = 0;
        while i < keys.len()
            invariant
                i <= keys@.len(),
                all == ordered_map::views(keys@),
                self.minted == old(self).minted,
                ({
                    let held = start.members_held(
                        all,
                        i as nat,
                        id@,
                        client,
                        pid,
                        seed,
                        clock.wall_ms,
                    );
                    self@ == held.state && tokens@ == held.tokens && top == held.top
                }),
            decreases keys@.len() - i,
        {
            let ghost before = self@;
            let forced: Option<u64> = match seed {
                Some(first) => Some(first.saturating_add(i as u64)),
                None => None,
            };
            let lock = self.lock_or_default(&keys[i], clock.wall_ms);
            let token: u64 = lock.next_or_forced_fencing_token(forced);
            lock.exclusive_holders.insert(
                id.clone(),
                ExclusiveHolder {
                    client,
                    pid,
                    fencing_token: token,
                    keep_locks_after_death: false,
                    composite_member: true,
                },
            );
            tokens.insert(keys[i].clone(), token);
            if token > top {
                top = token;
            }
            assert(all[i as int] == keys@[i as int]@);
            i = i + 1;
        }
        self.observe_fencing_token(top);
        let ghost watched = self@;
        let mut i: usize = 0;
        while i < keys.len()
            invariant
                i <= keys@.len(),
                all == ordered_map::views(keys@),
                self.minted == old(self).minted,
                self@ == watched.all_idle_marked(all, i as nat, clock.now),
            decreases keys@.len() - i,
        {
            assert(all[i as int] == keys@[i as int]@);
            self.maybe_mark_idle(&keys[i], clock.now);
            i = i + 1;
        }
        tokens
    }

    /// Rejects, grants, refuses or queues a multi-key lock request.
    pub fn handle_composite_lock(&mut self, request: CompositeLockRequest, clock: Clock)
        ensures
            model::continues(old(self).minted@, final(self).minted@),
            forall|tape: Tape|
                #[trigger] model::reads(tape, final(self).minted@) ==> final(self)@ == old(
                    self,
                )@.composite_requested(request, clock, tape),
    {
        let ghost start = self@;
        let ghost made = self.minted@;
        let ghost asked = ordered_map::views(request.keys@);
        let ghost given = protocol::shown_text(request.grant_overrides.lock_uuid);
        let client = request.client;
        let uuid = request.uuid;
        if request.keys.len() == 0 || request.keys.len() > MAX_COMPOSITE_KEYS {
            self.send(
                client,
                Response::CompositeLock {
                    uuid,
                    keys: request.keys,
                    acquired: false,
                    lock_uuid: None,
                    fencing_tokens: None,
                    error: Some(String::from_str("composite lock requires 1..=5 keys")),
                },
            );
            return;
        }
        let keys = ordered_map::sort_distinct(&request.keys);
        let ghost all = ordered_map::views(keys@);
        let seed: Option<u64> = request.grant_overrides.fencing_seed;
        let id = self.grant_id(request.grant_overrides.lock_uuid);
        let ghost m = self@;
        if self.are_vacant(&keys) {
            let tokens = self.hold_members(&keys, &id, client, request.pid, seed, clock);
            self.track_holder(client, &id, grants::copied(&keys), RwHoldKind::Exclusive);
            self.schedule_deadline(
                request.ttl,
                DeadlineEntry {
                    lock_uuid: id.clone(),
                    keys: grants::copied(&keys),
                    kind: RwHoldKind::Exclusive,
                    client,
                },
                clock.now,
            );
            self.send(
                client,
                Response::CompositeLock {
                    uuid,
                    keys,
                    acquired: true,
                    lock_uuid: Some(id),
                    fencing_tokens: Some(tokens),
                    error: None,
                },
            );
            assert forall|tape: Tape| #[trigger] model::reads(tape, self.minted@) implies self@
                == start.composite_requested(request, clock, tape) by {
                assert(start.grant_id(given, tape) == id@);
            }
            return;
        }
        if !request.wait {
            self.send(
                client,
                Response::CompositeLock {
                    uuid,
                    keys,
                    acquired: false,
                    lock_uuid: None,
                    fencing_tokens: None,
                    error: None,
                },
            );
            return;
        }
        let first = keys[0].clone();
        let pending = PendingRequest {
            request_uuid: uuid.clone(),
            client,
            pid: request.pid,
            ttl: request.ttl,
            grant_lock_uuid: None,
            grant_fencing_seed: seed,
            keep_locks_after_death: false,
            kind: PendingKind::Composite {
                all_keys: grants::copied(&keys),
                remaining_keys: grants::copied(&keys),
                granted_keys: Vec::new(),
                granted_tokens: OrderedMap::new(),
                composite_lock_uuid: id.clone(),
            },
        };
        let ghost p = pending@;
        assert(p.kind->granted_keys =~= Seq::<Seq<char>>::empty());
        let lock = self.lock_or_default(&first, clock.wall_ms);
        let _ = lock.queue.push_back(uuid.clone(), pending);
        assert(self@ =~= m.with_lock(
            first@,
            m.lock_or_fresh(first@, clock.wall_ms).enqueued(p, false),
        ));
        self.maybe_mark_idle(&first, clock.now);
        self.track_pending(client, &first, &uuid);
        self.send(
            client,
            Response::CompositeLock {
                uuid,
                keys,
                acquired: false,
                lock_uuid: Some(id),
                fencing_tokens: None,
                error: None,
            },
        );
        let ghost drawn = self.minted@;
        self.try_grant_next(&first, clock);
        proof {
            model::lemma_continues(made, drawn, self.minted@);
        }
        assert forall|tape: Tape| #[trigger] model::reads(tape, self.minted@) implies self@
            == start.composite_requested(request, clock, tape) by {
            assert(model::reads(tape, drawn));
            assert(start.grant_id(given, tape) == id@);
        }
    }

    /// Grants or queues a read request.
    pub fn handle_register_read(
        &mut self,
        client: ClientId,
        uuid: String,
        key: String,
        grant_overrides: GrantOverrides,
        clock: Clock,
    )
        ensures
            model::continues(old(self).minted@, final(self).minted@),
            forall|tape: Tape|
                #[trigger] model::reads(tape, final(self).minted@) ==> final(self)@ == old(
                    self,
                )@.read_requested(
                    client,
                    uuid@,
                    key@,
                    protocol::shown_text(grant_overrides.lock_uuid),
                    grant_overrides.fencing_seed,
                    clock,
                    tape,
                ),
    {
        let ghost start = self@;
        let ghost given = protocol::shown_text(grant_overrides.lock_uuid);
        let seed: Option<u64> = grant_overrides.fencing_seed;
        let forced = grant_overrides.token(0);
        let lock = self.lock_or_default(&key, clock.wall_ms);
        let admits = lock.writer.is_none() && lock.exclusive_holders.is_empty()
            && lock.queue.is_empty();
        let ghost m = self@;
        let ghost l = m.locks[key@];
        assert(m =~= start.with_lock(key@, l));
        if admits {
            let lock_uuid = self.grant_id(grant_overrides.lock_uuid);
            let lock = match self.locks.get_mut(&key) {
                Some(lock) => lock,
                None => vstd::pervasive::unreached(),
            };
            let token: u64 = lock.next_or_forced_fencing_token(forced);
            lock.readers.insert(
                lock_uuid.clone(),
                RwHolder { client, fencing_token: token, lock_uuid: lock_uuid.clone() },
            );
            let readers: u32 = #[verifier::truncate]
            (lock.readers.len() as u32);
            let ghost granted = self@.locks[key@];
            assert(self@.locks =~= start.locks.insert(key@, granted));
            self.observe_fencing_token(token);
            self.maybe_mark_idle(&key, clock.now);
            self.track_holder(client, &lock_uuid, grants::single(&key), RwHoldKind::Read);
            self.send(
                client,
                Response::RegisterReadResult {
                    uuid,
                    key,
                    readers_count: readers,
                    writer_flag: false,
                    granted: true,
                    lock_uuid: Some(lock_uuid),
                    fencing_token: Some(token),
                },
            );
            assert forall|tape: Tape| #[trigger] model::reads(tape, self.minted@) implies self@
                == start.read_requested(client, uuid@, key@, given, seed, clock, tape) by {
                assert(m.grant_id(given, tape) == lock_uuid@);
            }
            return;
        }
        let pending = PendingRequest {
            request_uuid: uuid.clone(),
            client,
            pid: None,
            ttl: None,
            grant_lock_uuid: grant_overrides.lock_uuid,
            grant_fencing_seed: seed,
            keep_locks_after_death: false,
            kind: PendingKind::Reader,
        };
        let ghost p = pending@;
        let lock = match self.locks.get_mut(&key) {
            Some(lock) => lock,
            None => vstd::pervasive::unreached(),
        };
        let _ = lock.queue.push_back(uuid.clone(), pending);
        let writer_flag = lock.writer.is_some();
        let readers: u32 = #[verifier::truncate]
        (lock.readers.len() as u32);
        assert(self@ =~= start.with_lock(key@, l.enqueued(p, false)));
        self.maybe_mark_idle(&key, clock.now);
        self.track_pending(client, &key, &uuid);
        self.send(
            client,
            Response::RegisterReadResult {
                uuid,
                key,
                readers_count: readers,
                writer_flag,
                granted: false,
                lock_uuid: None,
                fencing_token: None,
            },
        );
    }

    /// Grants or queues a write request.
    pub fn handle_register_write(
        &mut self,
        client: ClientId,
        uuid: String,
        key: String,
        grant_overrides: GrantOverrides,
        clock: Clock,
    )
        ensures
            model::continues(old(self).minted@, final(self).minted@),
            forall|tape: Tape|
                #[trigger] model::reads(tape, final(self).minted@) ==> final(self)@ == old(
                    self,
                )@.write_requested(
                    client,
                    uuid@,
                    key@,
                    protocol::shown_text(grant_overrides.lock_uuid),
                    grant_overrides.fencing_seed,
                    clock,
                    tape,
                ),
    {
        let ghost start = self@;
        let ghost given = protocol::shown_text(grant_overrides.lock_uuid);
        let seed: Option<u64> = grant_overrides.fencing_seed;
        let forced = grant_overrides.token(0);
        let lock = self.lock_or_default(&key, clock.wall_ms);
        let admits = lock.is_vacant();
        let ghost m = self@;
        let ghost l = m.locks[key@];
        assert(m =~= start.with_lock(key@, l));
        if admits {
            let lock_uuid = self.grant_id(grant_overrides.lock_uuid);
            let lock = match self.locks.get_mut(&key) {
                Some(lock) => lock,
                None => vstd::pervasive::unreached(),
            };
            let token: u64 = lock.next_or_forced_fencing_token(forced);
            lock.writer = Some(
                RwHolder { client, fencing_token: token, lock_uuid: lock_uuid.clone() },
            );
            let ghost granted = self@.locks[key@];
            assert(self@.locks =~= start.locks.insert(key@, granted));
            self.observe_fencing_token(token);
            self.maybe_mark_idle(&key, clock.now);
            self.track_holder(client, &lock_uuid, grants::single(&key), RwHoldKind::Write);
            self.send(
                client,
                Response::RegisterWriteResult {
                    uuid,
                    key,
                    readers_count: 0,
                    writer_flag: true,
                    granted: true,
                    lock_uuid: Some(lock_uuid),
                    fencing_token: Some(token),
                },
            );
            assert forall|tape: Tape| #[trigger] model::reads(tape, self.minted@) implies self@
                == start.write_requested(client, uuid@, key@, given, seed, clock, tape) by {
                assert(m.grant_id(given, tape) == lock_uuid@);
            }
            return;
        }
        let pending = PendingRequest {
            request_uuid: uuid.clone(),
            client,
            pid: None,
            ttl: None,
            grant_lock_uuid: grant_overrides.lock_uuid,
            grant_fencing_seed: seed,
            keep_locks_after_death: false,
            kind: PendingKind::Writer,
        };
        let ghost p = pending@;
        let lock = match self.locks.get_mut(&key) {
            Some(lock) => lock,
            None => vstd::pervasive::unreached(),
        };
        let _ = lock.queue.push_back(uuid.clone(), pending);
        let writer_flag = lock.writer.is_some();
        let readers: u32 = #[verifier::truncate]
        (lock.readers.len() as u32);
        assert(self@ =~= start.with_lock(key@, l.enqueued(p, false)));
        self.maybe_mark_idle(&key, clock.now);
        self.track_pending(client, &key, &uuid);
        self.send(
            client,
            Response::RegisterWriteResult {
                uuid,
                key,
                readers_count: readers,
                writer_flag,
                granted: false,
                lock_uuid: None,
                fencing_token: None,
            },
        );
    }
}

} // verus!
