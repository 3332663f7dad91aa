//! What the broker does, as functions on its mathematical state.
//!
//! Each operation is a function from the state before to the state after. Two
//! things come from outside: one reading of the clocks, and the random lock ids,
//! which stand on a tape. `drawn` counts how many of them have been used.

use crate::broker::types;
use crate::broker::types::{
    BrokerModel, ClientId, ClientModel, Clock, DeadlineKey, DeadlineModel,
    DeliveryModel, ExclusiveHolder, HeldModel, KindModel, LockModel, PendingModel, RwHoldKind,
    RwModel, NANOS_PER_MILLI,
};
use crate::fenced_client::MAX_FENCING_TOKEN;
use crate::ids;
use crate::protocol::ResponseModel;
use crate::queue;
use crate::sums;
use vstd::prelude::*;

verus! {

pub type Tape = spec_fn(int) -> Seq<char>;

/// The tape begins with the ids that were made.
pub open spec fn reads(tape: Tape, made: Seq<Seq<char>>) -> bool {
    forall|i: int| 0 <= i < made.len() ==> tape(i) == #[trigger] made[i]
}

/// `after` continues `before` with random ids.
pub open spec fn continues(before: Seq<Seq<char>>, after: Seq<Seq<char>>) -> bool {
    &&& before.len() <= after.len()
    &&& forall|i: int| 0 <= i < before.len() ==> after[i] == #[trigger] before[i]
    &&& forall|i: int| before.len() <= i < after.len() ==> ids::random_id_text(#[trigger] after[i])
}

/// What continues what continues `a`, continues `a`.
pub proof fn lemma_continues(a: Seq<Seq<char>>, b: Seq<Seq<char>>, c: Seq<Seq<char>>)
    requires
        continues(a, b),
        continues(b, c),
    ensures
        continues(a, c),
{
    assert forall|i: int| 0 <= i < a.len() implies c[i] == #[trigger] a[i] by {
        assert(b[i] == a[i]);
    }
    assert forall|i: int| a.len() <= i < c.len() implies ids::random_id_text(#[trigger] c[i]) by {
        if i < b.len() {
            assert(c[i] == b[i]);
        }
    }
}

pub open spec fn larger(a: u64, b: u64) -> u64 {
    if a < b {
        b
    } else {
        a
    }
}

/// One more, and zero after the largest.
pub open spec fn wrapped_next(n: u64) -> u64 {
    if n == u64::MAX {
        0
    } else {
        (n + 1) as u64
    }
}

/// The token after `n`. Tokens are positive.
pub open spec fn token_after(n: u64) -> u64 {
    if n == u64::MAX {
        1
    } else {
        (n + 1) as u64
    }
}

impl LockModel {
    /// A key that nobody holds or awaits.
    pub open spec fn fresh(max: u32, counter: u64) -> LockModel {
        LockModel {
            exclusive_holders: Map::empty(),
            max,
            readers: Map::empty(),
            writer: None,
            queue: Seq::empty(),
            fencing_counter: counter,
            timestamp_emptied: None,
        }
    }

    /// Nobody holds the key.
    pub open spec fn vacant(self) -> bool {
        self.writer is None && self.readers.is_empty() && self.exclusive_holders.is_empty()
    }

    /// Nobody holds or awaits the key.
    pub open spec fn idle(self) -> bool {
        self.vacant() && self.queue.len() == 0
    }

    /// One more exclusive holder fits.
    pub open spec fn admits_exclusive(self) -> bool {
        self.writer is None && self.readers.is_empty() && self.exclusive_holders.len() < self.max
    }

    /// One more reader fits.
    pub open spec fn admits_reader(self) -> bool {
        self.writer is None && self.exclusive_holders.is_empty()
    }

    /// The token of the next grant.
    pub open spec fn next_token(self, forced: Option<u64>) -> u64 {
        match forced {
            Some(token) => token,
            None => token_after(self.fencing_counter),
        }
    }

    /// The key after its next token has been granted.
    pub open spec fn counted(self, forced: Option<u64>) -> LockModel {
        LockModel {
            fencing_counter: match forced {
                Some(token) => larger(self.fencing_counter, token),
                None => token_after(self.fencing_counter),
            },
            ..self
        }
    }

    pub open spec fn with_exclusive(self, lock_uuid: Seq<char>, h: ExclusiveHolder) -> LockModel {
        LockModel { exclusive_holders: self.exclusive_holders.insert(lock_uuid, h), ..self }
    }

    pub open spec fn with_reader(self, h: RwModel) -> LockModel {
        LockModel { readers: self.readers.insert(h.lock_uuid, h), ..self }
    }

    pub open spec fn with_writer(self, h: RwModel) -> LockModel {
        LockModel { writer: Some(h), ..self }
    }

    /// The head of the queue leaves.
    pub open spec fn popped(self) -> LockModel {
        LockModel { queue: self.queue.drop_first(), ..self }
    }

    /// A request joins the queue, at the head if `front`. A request id that is
    /// queued already is not queued again.
    pub open spec fn enqueued(self, p: PendingModel, front: bool) -> LockModel {
        if queue::queued(self.queue, p.request_uuid) {
            self
        } else {
            LockModel {
                queue: if front {
                    seq![(p.request_uuid, p)] + self.queue
                } else {
                    self.queue.push((p.request_uuid, p))
                },
                ..self
            }
        }
    }

    /// The idle mark is set when the key falls idle and cleared when it is in use.
    pub open spec fn idle_marked(self, now: u128) -> LockModel {
        LockModel {
            timestamp_emptied: if self.idle() {
                match self.timestamp_emptied {
                    Some(t) => Some(t),
                    None => Some(now),
                }
            } else {
                None
            },
            ..self
        }
    }
}

impl BrokerModel {
    /// The concurrency ceiling in force.
    pub open spec fn cap(self) -> u32 {
        if self.config.max_concurrency_cap < 1 {
            1
        } else {
            self.config.max_concurrency_cap
        }
    }

    /// The concurrency level of a key that no request has touched.
    pub open spec fn default_max(self) -> u32 {
        let m = if self.config.max_lock_holders < self.cap() {
            self.config.max_lock_holders
        } else {
            self.cap()
        };
        if m < 1 {
            1
        } else {
            m
        }
    }

    /// The key's state, or the state it gets on first use: its tokens start
    /// above the wall clock and above every token granted before.
    pub open spec fn lock_or_fresh(self, key: Seq<char>, wall_ms: u64) -> LockModel {
        if self.locks.dom().contains(key) {
            self.locks[key]
        } else {
            LockModel::fresh(self.default_max(), larger(wall_ms, self.fencing_watermark))
        }
    }

    pub open spec fn with_lock(self, key: Seq<char>, l: LockModel) -> BrokerModel {
        BrokerModel { locks: self.locks.insert(key, l), ..self }
    }

    pub open spec fn send(self, client: ClientId, response: ResponseModel) -> BrokerModel {
        BrokerModel {
            outbox: self.outbox.push(
                DeliveryModel {
                    client,
                    connected: self.clients.dom().contains(client),
                    observed: true,
                    response,
                },
            ),
            ..self
        }
    }

    /// A notice of the transport to a registered client.
    pub open spec fn notified(self, client: ClientId, response: ResponseModel) -> BrokerModel {
        if self.clients.dom().contains(client) {
            BrokerModel {
                outbox: self.outbox.push(
                    DeliveryModel { client, connected: true, observed: false, response },
                ),
                ..self
            }
        } else {
            self
        }
    }

    /// A token has been granted.
    pub open spec fn observed(self, token: u64) -> BrokerModel {
        BrokerModel { fencing_watermark: larger(self.fencing_watermark, token), ..self }
    }

    pub open spec fn idle_marked(self, key: Seq<char>, now: u128) -> BrokerModel {
        if self.locks.dom().contains(key) {
            self.with_lock(key, self.locks[key].idle_marked(now))
        } else {
            self
        }
    }

    /// A deadline is set for a positive `ttl` that the clock can reach.
    pub open spec fn scheduled(
        self,
        ttl: Option<u64>,
        entry: DeadlineModel,
        now: u128,
    ) -> BrokerModel {
        match ttl {
            Some(ms) if ms > 0 && now + ms * NANOS_PER_MILLI <= u128::MAX => {
                let seq = wrapped_next(self.deadline_seq);
                let at = (now + ms * NANOS_PER_MILLI) as u128;
                BrokerModel {
                    deadline_seq: seq,
                    deadlines: self.deadlines.insert(DeadlineKey { at, seq }, entry),
                    ..self
                }
            },
            _ => self,
        }
    }

    pub open spec fn with_client(self, client: ClientId, c: ClientModel) -> BrokerModel {
        BrokerModel { clients: self.clients.insert(client, c), ..self }
    }

    /// A registered client now holds `keys` under `lock_uuid`.
    pub open spec fn holder_tracked(
        self,
        client: ClientId,
        lock_uuid: Seq<char>,
        keys: Seq<Seq<char>>,
        kind: RwHoldKind,
    ) -> BrokerModel {
        if self.clients.dom().contains(client) {
            let c = self.clients[client];
            self.with_client(
                client,
                ClientModel {
                    held_lock_uuids: c.held_lock_uuids.insert(
                        lock_uuid,
                        HeldModel { keys, rw_kind: kind },
                    ),
                    ..c
                },
            )
        } else {
            self
        }
    }

    /// A registered client no longer holds `lock_uuid`.
    pub open spec fn holder_untracked(self, client: ClientId, lock_uuid: Seq<char>) -> BrokerModel {
        if self.clients.dom().contains(client) {
            let c = self.clients[client];
            self.with_client(
                client,
                ClientModel { held_lock_uuids: c.held_lock_uuids.remove(lock_uuid), ..c },
            )
        } else {
            self
        }
    }

    /// A registered client now waits for `key`.
    pub open spec fn pending_tracked(
        self,
        client: ClientId,
        key: Seq<char>,
        request_uuid: Seq<char>,
    ) -> BrokerModel {
        if self.clients.dom().contains(client) {
            let c = self.clients[client];
            self.with_client(
                client,
                ClientModel {
                    pending_request_uuids: c.pending_request_uuids.push((key, request_uuid)),
                    ..c
                },
            )
        } else {
            self
        }
    }

    /// A registered client no longer waits for `key` with that request.
    pub open spec fn pending_untracked(
        self,
        client: ClientId,
        key: Seq<char>,
        request_uuid: Seq<char>,
    ) -> BrokerModel {
        if self.clients.dom().contains(client) {
            let c = self.clients[client];
            self.with_client(
                client,
                ClientModel {
                    pending_request_uuids: c.pending_request_uuids.filter(
                        |p: (Seq<char>, Seq<char>)| p != (key, request_uuid),
                    ),
                    ..c
                },
            )
        } else {
            self
        }
    }

    /// The lock id of the next grant: the imposed one, or the next random one.
    pub open spec fn grant_id(self, given: Option<Seq<char>>, tape: Tape) -> Seq<char> {
        match given {
            Some(id) => id,
            None => tape(self.drawn),
        }
    }

    /// A random id has been used, unless one was imposed.
    pub open spec fn id_taken(self, given: Option<Seq<char>>) -> BrokerModel {
        BrokerModel { drawn: if given is None { self.drawn + 1 } else { self.drawn }, ..self }
    }

    /// How far the tokens of `key` have come: no grant of it had a higher one. The
    /// key's counter may have started at the wall clock, and the watermark knows the
    /// grants of every key, so the lower of the two says more.
    pub open spec fn reached(self, key: Seq<char>) -> u64 {
        if self.locks.dom().contains(key) && self.locks[key].fencing_counter
            < self.fencing_watermark {
            self.locks[key].fencing_counter
        } else {
            self.fencing_watermark
        }
    }

    /// The token of the head of `key`'s queue: the one reserved for it, or a fresh
    /// one where the key has come as far while it waited. `None` if none was reserved.
    pub open spec fn head_token(self, key: Seq<char>) -> Option<u64> {
        match self.locks[key].queue[0].1.reserved_token(key) {
            Some(token) => if token <= self.reached(key) {
                Some(token_after(self.reached(key)))
            } else {
                Some(token)
            },
            None => None,
        }
    }

    /// The head of `key`'s queue needs a fresh token, and no further one is exact as a
    /// double-precision number.
    pub open spec fn head_barred(self, key: Seq<char>) -> bool {
        self.locks[key].queue[0].1.reserved_token(key) matches Some(token) && token
            <= self.reached(key) && self.reached(key) >= MAX_FENCING_TOKEN
    }
}

impl PendingModel {
    /// The token reserved for the grant of `key`: a composite request has one for
    /// each of its keys.
    pub open spec fn reserved_token(self, key: Seq<char>) -> Option<u64> {
        match self.kind {
            KindModel::Composite { all_keys, .. } => types::seed_token(
                self.grant_fencing_seed,
                match all_keys.index_of_first(key) {
                    Some(i) => i,
                    None => 0,
                },
            ),
            _ => self.grant_fencing_seed,
        }
    }
}

/// What one look at the head of a queue leads to.
pub enum GrantStep {
    /// The head cannot be granted, or there is none.
    Blocked,
    /// The head was granted and left the queue.
    Granted(BrokerModel),
    /// A composite head was granted one key and joined the queue of its next.
    Moved(BrokerModel, Seq<char>),
}

impl BrokerModel {
    /// The exclusive request at the head of `key`'s queue is granted.
    pub open spec fn head_granted_exclusive(
        self,
        key: Seq<char>,
        clock: Clock,
        tape: Tape,
    ) -> BrokerModel {
        let l = self.locks[key];
        let p = l.queue[0].1;
        let due = self.head_token(key);
        let token = l.next_token(due);
        let id = self.grant_id(p.grant_lock_uuid, tape);
        let holder = ExclusiveHolder {
            client: p.client,
            pid: p.pid,
            fencing_token: token,
            keep_locks_after_death: p.keep_locks_after_death,
            composite_member: false,
        };
        let granted = l.popped().counted(due).with_exclusive(id, holder);
        self.id_taken(p.grant_lock_uuid).with_lock(key, granted).observed(token).pending_untracked(
            p.client,
            key,
            p.request_uuid,
        ).holder_tracked(p.client, id, seq![key], RwHoldKind::Exclusive).scheduled(
            p.ttl,
            DeadlineModel {
                lock_uuid: id,
                keys: seq![key],
                kind: RwHoldKind::Exclusive,
                client: p.client,
            },
            clock.now,
        ).send(
            p.client,
            ResponseModel::Lock {
                uuid: p.request_uuid,
                key,
                acquired: true,
                lock_request_count: granted.queue.len() as usize,
                lock_uuid: Some(id),
                fencing_token: Some(token),
                readers_count: Some(0),
                error: None,
            },
        )
    }

    /// The reader at the head of `key`'s queue is granted.
    pub open spec fn head_granted_reader(self, key: Seq<char>, tape: Tape) -> BrokerModel {
        let l = self.locks[key];
        let p = l.queue[0].1;
        let due = self.head_token(key);
        let token = l.next_token(due);
        let id = self.grant_id(p.grant_lock_uuid, tape);
        let granted = l.popped().counted(due).with_reader(
            RwModel { client: p.client, fencing_token: token, lock_uuid: id },
        );
        self.id_taken(p.grant_lock_uuid).with_lock(key, granted).observed(token).pending_untracked(
            p.client,
            key,
            p.request_uuid,
        ).holder_tracked(p.client, id, seq![key], RwHoldKind::Read).send(
            p.client,
            ResponseModel::RegisterReadResult {
                uuid: p.request_uuid,
                key,
                readers_count: granted.readers.len() as u32,
                writer_flag: false,
                granted: true,
                lock_uuid: Some(id),
                fencing_token: Some(token),
            },
        )
    }

    /// The writer at the head of `key`'s queue is granted.
    pub open spec fn head_granted_writer(self, key: Seq<char>, tape: Tape) -> BrokerModel {
        let l = self.locks[key];
        let p = l.queue[0].1;
        let due = self.head_token(key);
        let token = l.next_token(due);
        let id = self.grant_id(p.grant_lock_uuid, tape);
        let granted = l.popped().counted(due).with_writer(
            RwModel { client: p.client, fencing_token: token, lock_uuid: id },
        );
        self.id_taken(p.grant_lock_uuid).with_lock(key, granted).observed(token).pending_untracked(
            p.client,
            key,
            p.request_uuid,
        ).holder_tracked(p.client, id, seq![key], RwHoldKind::Write).send(
            p.client,
            ResponseModel::RegisterWriteResult {
                uuid: p.request_uuid,
                key,
                readers_count: 0,
                writer_flag: true,
                granted: true,
                lock_uuid: Some(id),
                fencing_token: Some(token),
            },
        )
    }

    /// The composite request at the head of `key`'s queue is granted `key`. It
    /// is complete, or it moves on to the queue of its next key.
    pub open spec fn head_granted_composite(self, key: Seq<char>, clock: Clock) -> GrantStep {
        let l = self.locks[key];
        let p = l.queue[0].1;
        match p.kind {
            KindModel::Composite {
                all_keys,
                remaining_keys,
                granted_keys,
                granted_tokens,
                composite_lock_uuid,
            } => {
                let due = self.head_token(key);
                let token = l.next_token(due);
                let holder = ExclusiveHolder {
                    client: p.client,
                    pid: p.pid,
                    fencing_token: token,
                    keep_locks_after_death: false,
                    composite_member: true,
                };
                let granted = l.popped().counted(due).with_exclusive(
                    composite_lock_uuid,
                    holder,
                );
                let tokens = granted_tokens.insert(key, token);
                let remaining = remaining_keys.drop_first();
                let held = self.with_lock(key, granted).observed(token).pending_untracked(
                    p.client,
                    key,
                    p.request_uuid,
                ).holder_tracked(p.client, composite_lock_uuid, all_keys, RwHoldKind::Exclusive);
                if remaining.len() == 0 {
                    GrantStep::Granted(
                        held.scheduled(
                            p.ttl,
                            DeadlineModel {
                                lock_uuid: composite_lock_uuid,
                                keys: all_keys,
                                kind: RwHoldKind::Exclusive,
                                client: p.client,
                            },
                            clock.now,
                        ).send(
                            p.client,
                            ResponseModel::CompositeLock {
                                uuid: p.request_uuid,
                                keys: all_keys,
                                acquired: true,
                                lock_uuid: Some(composite_lock_uuid),
                                fencing_tokens: Some(tokens),
                                error: None,
                            },
                        ),
                    )
                } else {
                    let next = remaining[0];
                    let moved = PendingModel {
                        grant_lock_uuid: None,
                        kind: KindModel::Composite {
                            all_keys,
                            remaining_keys: remaining,
                            granted_keys: granted_keys.push(key),
                            granted_tokens: tokens,
                            composite_lock_uuid,
                        },
                        ..p
                    };
                    GrantStep::Moved(
                        held.with_lock(
                            next,
                            held.lock_or_fresh(next, clock.wall_ms).enqueued(moved, false),
                        ).pending_tracked(p.client, next, p.request_uuid),
                        next,
                    )
                }
            },
            _ => GrantStep::Blocked,
        }
    }

    /// Looks at the head of `key`'s queue and grants it if the key admits it.
    pub open spec fn grant_step(self, key: Seq<char>, clock: Clock, tape: Tape) -> GrantStep {
        let l = self.locks[key];
        if !self.locks.dom().contains(key) || l.queue.len() == 0 {
            GrantStep::Blocked
        } else if self.head_barred(key) {
            GrantStep::Blocked
        } else {
            match l.queue[0].1.kind {
                KindModel::Exclusive => if l.admits_exclusive() {
                    GrantStep::Granted(self.head_granted_exclusive(key, clock, tape))
                } else {
                    GrantStep::Blocked
                },
                KindModel::Reader => if l.admits_reader() {
                    GrantStep::Granted(self.head_granted_reader(key, tape))
                } else {
                    GrantStep::Blocked
                },
                KindModel::Writer => if l.vacant() {
                    GrantStep::Granted(self.head_granted_writer(key, tape))
                } else {
                    GrantStep::Blocked
                },
                KindModel::Composite { remaining_keys, .. } => if remaining_keys.len() > 0
                    && remaining_keys[0] == key && l.vacant() {
                    self.head_granted_composite(key, clock)
                } else {
                    GrantStep::Blocked
                },
            }
        }
    }

    /// Grants from the queues of the keys on `stack`, the last one first, until
    /// each of them is blocked. A composite request that moves on puts its next
    /// key on top.
    pub open spec fn settled(self, stack: Seq<Seq<char>>, clock: Clock, tape: Tape) -> BrokerModel
        decreases self.work(), stack.len(),
        when self.locks.dom().finite()
    {
        if stack.len() == 0 {
            self
        } else {
            let key = stack.last();
            proof {
                lemma_step_shrinks(self, key, clock, tape);
                lemma_mark_keeps_work(self, key, clock.now);
            }
            match self.grant_step(key, clock, tape) {
                GrantStep::Blocked => self.idle_marked(key, clock.now).settled(
                    stack.drop_last(),
                    clock,
                    tape,
                ),
                GrantStep::Granted(next) => next.settled(stack, clock, tape),
                GrantStep::Moved(next, other) => next.settled(stack.push(other), clock, tape),
            }
        }
    }

    /// How many grants the queues can lead to.
    pub open spec fn work(self) -> nat {
        sums::map_sum(self.locks, lock_work())
    }
}

/// How many grants a queued request can lead to.
pub open spec fn pending_work(p: PendingModel) -> nat {
    match p.kind {
        KindModel::Composite { remaining_keys, .. } => remaining_keys.len(),
        _ => 1,
    }
}

/// How many grants a queue can lead to.
pub open spec fn queue_work(q: Seq<(Seq<char>, PendingModel)>) -> nat
    decreases q.len(),
{
    if q.len() == 0 {
        0
    } else {
        pending_work(q[0].1) + queue_work(q.drop_first())
    }
}

pub open spec fn lock_work() -> spec_fn(LockModel) -> nat {
    |l: LockModel| queue_work(l.queue)
}

/// What one more waiter adds to the work of a queue.
pub proof fn lemma_queue_work_push(q: Seq<(Seq<char>, PendingModel)>, e: (Seq<char>, PendingModel))
    ensures
        queue_work(q.push(e)) == queue_work(q) + pending_work(e.1),
    decreases q.len(),
{
    if q.len() == 0 {
        assert(q.push(e).drop_first() =~= q);
    } else {
        lemma_queue_work_push(q.drop_first(), e);
        assert(q.push(e).drop_first() =~= q.drop_first().push(e));
    }
}

/// Every grant uses up some of the work.
pub proof fn lemma_step_shrinks(m: BrokerModel, key: Seq<char>, clock: Clock, tape: Tape)
    requires
        m.locks.dom().finite(),
    ensures
        match m.grant_step(key, clock, tape) {
            GrantStep::Blocked => true,
            GrantStep::Granted(next) => next.work() < m.work() && next.locks.dom().finite(),
            GrantStep::Moved(next, _) => next.work() < m.work() && next.locks.dom().finite(),
        },
{
    let l = m.locks[key];
    if m.locks.dom().contains(key) && l.queue.len() > 0 {
        match m.grant_step(key, clock, tape) {
            GrantStep::Blocked => {},
            GrantStep::Granted(next) => {
                let granted = next.locks[key];
                assert(next.locks =~= m.locks.insert(key, granted));
                assert(granted.queue =~= l.queue.drop_first());
                sums::lemma_sum_insert(m.locks, lock_work(), key, granted);
            },
            GrantStep::Moved(next, other) => {
                let p = l.queue[0].1;
                let forced = m.head_token(key);
                let granted = l.popped().counted(forced).with_exclusive(
                    p.kind->composite_lock_uuid,
                    ExclusiveHolder {
                        client: p.client,
                        pid: p.pid,
                        fencing_token: l.next_token(forced),
                        keep_locks_after_death: false,
                        composite_member: true,
                    },
                );
                let held = m.locks.insert(key, granted);
                let joined = next.locks[other];
                sums::lemma_sum_insert(m.locks, lock_work(), key, granted);
                sums::lemma_sum_insert(held, lock_work(), other, joined);
                assert(next.locks =~= held.insert(other, joined));
                let before = if held.dom().contains(other) {
                    held[other].queue
                } else {
                    Seq::empty()
                };
                assert(queue_work(Seq::<(Seq<char>, PendingModel)>::empty()) == 0);
                if joined.queue != before {
                    let e = joined.queue.last();
                    assert(joined.queue =~= before.push(e));
                    lemma_queue_work_push(before, e);
                }
            },
        }
    }
}

/// The idle mark does not count as work.
pub proof fn lemma_mark_keeps_work(m: BrokerModel, key: Seq<char>, now: u128)
    requires
        m.locks.dom().finite(),
    ensures
        m.idle_marked(key, now).work() == m.work(),
        m.idle_marked(key, now).locks.dom().finite(),
{
    if m.locks.dom().contains(key) {
        sums::lemma_sum_insert(m.locks, lock_work(), key, m.locks[key].idle_marked(now));
    }
}

} // verus!
