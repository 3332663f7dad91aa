//! Bookkeeping on the broker's state.

use crate::broker::model;
use crate::broker::model::Tape;
use crate::broker::types;
use crate::broker::types::{
    BrokerConfig, BrokerModel, BrokerState, ClientId, DeadlineEntry, DeadlineKey, Delivery,
    KeysOfLock, LockModel, LockState, RwHoldKind, NANOS_PER_MILLI,
};
use crate::ids;
use crate::ordered_map;
use crate::ordered_map::OrderedMap;
use crate::protocol;
use crate::protocol::Response;
use crate::queue::LinkedQueue;
use vstd::prelude::*;

verus! {

/// A broker that has seen nothing yet.
pub open spec fn initial(config: BrokerConfig) -> BrokerModel {
    BrokerModel {
        locks: Map::empty(),
        clients: Map::empty(),
        next_client_id: 1,
        config,
        deadlines: Map::empty(),
        deadline_seq: 0,
        ttl_evictions_total: 0,
        concurrency_cap_clamps_total: 0,
        fencing_watermark: 0,
        idle_keys_pruned_total: 0,
        outbox: Seq::empty(),
        drawn: 0,
    }
}

impl LockState {
    /// A key that nobody holds or awaits, counting tokens from `counter`.
    pub fn new(max: u32, counter: u64) -> (r: Self)
        ensures
            r@ == LockModel::fresh(if max < 1 { 1 } else { max }, counter),
    {
        LockState {
            exclusive_holders: OrderedMap::new(),
            max: if max < 1 {
                1
            } else {
                max
            },
            readers: OrderedMap::new(),
            writer: None,
            queue: LinkedQueue::new(),
            fencing_counter: counter,
            timestamp_emptied: None,
        }
    }

    /// Whether nobody holds the key.
    pub fn is_vacant(&self) -> (r: bool)
        ensures
            r == self@.vacant(),
    {
        self.writer.is_none() && self.readers.is_empty() && self.exclusive_holders.is_empty()
    }

    /// Whether nobody holds or awaits the key.
    pub fn is_idle(&self) -> (r: bool)
        ensures
            r == self@.idle(),
    {
        self.is_vacant() && self.queue.is_empty()
    }

    /// Whether one more exclusive holder fits.
    pub fn admits_exclusive(&self) -> (r: bool)
        ensures
            r == self@.admits_exclusive(),
    {
        self.writer.is_none() && self.readers.is_empty() && (self.exclusive_holders.len() as u64)
            < (self.max as u64)
    }

    /// Counts the next token up.
    pub fn next_fencing_token(&mut self) -> (r: u64)
        ensures
            r == old(self)@.next_token(None),
            final(self)@ == old(self)@.counted(None),
    {
        self.fencing_counter = if self.fencing_counter == u64::MAX {
            1
        } else {
            self.fencing_counter + 1
        };
        self.fencing_counter
    }

    /// The imposed token, or the next one.
    pub fn next_or_forced_fencing_token(&mut self, forced: Option<u64>) -> (r: u64)
        ensures
            r == old(self)@.next_token(forced),
            final(self)@ == old(self)@.counted(forced),
    {
        match forced {
            Some(token) => {
                if self.fencing_counter < token {
                    self.fencing_counter = token;
                }
                token
            },
            None => self.next_fencing_token(),
        }
    }

    /// Sets or clears the idle mark.
    pub fn mark_idle(&mut self, now: u128)
        ensures
            final(self)@ == old(self)@.idle_marked(now),
    {
        if self.is_idle() {
            if self.timestamp_emptied.is_none() {
                self.timestamp_emptied = Some(now);
            }
        } else {
            self.timestamp_emptied = None;
        }
    }
}

impl BrokerState {
    pub fn new(config: BrokerConfig) -> (r: Self)
        ensures
            r@ == initial(config),
            r.minted@ == Seq::<Seq<char>>::empty(),
    {
        let r = BrokerState {
            locks: OrderedMap::new(),
            clients: OrderedMap::new(),
            next_client_id: 1,
            config,
            deadlines: OrderedMap::new(),
            deadline_seq: 0,
            ttl_evictions_total: 0,
            concurrency_cap_clamps_total: 0,
            fencing_watermark: 0,
            idle_keys_pruned_total: 0,
            outbox: Vec::new(),
            minted: Ghost(Seq::empty()),
        };
        assert(r@ =~= initial(config));
        r
    }

    /// Hands a response to the transport.
    pub fn send(&mut self, client: ClientId, response: Response)
        ensures
            final(self)@ == old(self)@.send(client, response@),
            final(self).minted == old(self).minted,
    {
        let connected = self.clients.contains_key(&client);
        let ghost before = self@;
        self.outbox.push(Delivery { client, connected, observed: true, response });
        assert(self@ =~= before.send(client, response@));
    }

    /// Hands a notice of the transport out. Tells whether the client is
    /// registered.
    pub fn try_send(&mut self, client: ClientId, response: Response) -> (r: bool)
        ensures
            r == old(self)@.clients.dom().contains(client),
            final(self)@ == old(self)@.notified(client, response@),
            final(self).minted == old(self).minted,
    {
        let ghost before = self@;
        if !self.clients.contains_key(&client) {
            return false;
        }
        self.outbox.push(Delivery { client, connected: true, observed: false, response });
        assert(self@ =~= before.notified(client, response@));
        true
    }

    /// Raises the watermark to at least `token`.
    pub fn observe_fencing_token(&mut self, token: u64)
        ensures
            final(self)@ == old(self)@.observed(token),
            final(self).minted == old(self).minted,
    {
        if token > self.fencing_watermark {
            self.fencing_watermark = token;
        }
    }

    /// Refreshes the idle mark of `key`.
    pub fn maybe_mark_idle(&mut self, key: &String, now: u128)
        ensures
            final(self)@ == old(self)@.idle_marked(key@, now),
            final(self).minted == old(self).minted,
    {
        if let Some(lock) = self.locks.get_mut(key) {
            lock.mark_idle(now);
        }
    }

    /// The concurrency ceiling in force.
    pub fn cap(&self) -> (r: u32)
        ensures
            r == self@.cap(),
    {
        if self.config.max_concurrency_cap < 1 {
            1
        } else {
            self.config.max_concurrency_cap
        }
    }

    /// The state of `key`, made on first use.
    pub fn lock_or_default(&mut self, key: &String, wall_ms: u64) -> (r: &mut LockState)
        ensures
            r@ == old(self)@.lock_or_fresh(key@, wall_ms),
            final(self)@ =~= old(self)@.with_lock(key@, final(r)@),
            final(self).minted == old(self).minted,
    {
        let ghost before = self@;
        if !self.locks.contains_key(key) {
            let cap: u32 = self.cap();
            let max: u32 = if self.config.max_lock_holders < cap {
                self.config.max_lock_holders
            } else {
                cap
            };
            let counter: u64 = if wall_ms < self.fencing_watermark {
                self.fencing_watermark
            } else {
                wall_ms
            };
            let lock = LockState::new(max, counter);
            assert(lock@ == before.lock_or_fresh(key@, wall_ms));
            self.locks.insert(key.clone(), lock);
        }
        match self.locks.get_mut(key) {
            Some(lock) => lock,
            None => vstd::pervasive::unreached(),
        }
    }

    /// Sets a deadline for a holder with a positive `ttl`.
    pub fn schedule_deadline(&mut self, ttl: Option<u64>, entry: DeadlineEntry, now: u128)
        ensures
            final(self)@ == old(self)@.scheduled(ttl, entry@, now),
            final(self).minted == old(self).minted,
    {
        let ms: u64 = match ttl {
            Some(ms) => ms,
            None => return,
        };
        if ms == 0 {
            return;
        }
        assert(ms * NANOS_PER_MILLI <= u64::MAX * 1_000_000);
        let span: u128 = (ms as u128) * NANOS_PER_MILLI;
        let at: u128 = match now.checked_add(span) {
            Some(at) => at,
            None => return,
        };
        self.deadline_seq = self.deadline_seq.wrapping_add(1);
        self.deadlines.insert(DeadlineKey { at, seq: self.deadline_seq }, entry);
    }

    /// Notes that a registered client holds `keys` under `lock_uuid`.
    pub fn track_holder(
        &mut self,
        client: ClientId,
        lock_uuid: &String,
        keys: Vec<String>,
        kind: RwHoldKind,
    )
        ensures
            final(self)@ == old(self)@.holder_tracked(
                client,
                lock_uuid@,
                ordered_map::views(keys@),
                kind,
            ),
            final(self).minted == old(self).minted,
    {
        if let Some(handle) = self.clients.get_mut(&client) {
            handle.held_lock_uuids.insert(lock_uuid.clone(), KeysOfLock { keys, rw_kind: kind });
        }
    }

    /// Notes that a registered client holds `lock_uuid` no more.
    pub fn untrack_holder(&mut self, client: ClientId, lock_uuid: &String)
        ensures
            final(self)@ == old(self)@.holder_untracked(client, lock_uuid@),
            final(self).minted == old(self).minted,
    {
        if let Some(handle) = self.clients.get_mut(&client) {
            let _ = handle.held_lock_uuids.remove(lock_uuid);
        }
    }

    /// Notes that a registered client waits for `key`.
    pub fn track_pending(&mut self, client: ClientId, key: &String, request_uuid: &String)
        ensures
            final(self)@ == old(self)@.pending_tracked(client, key@, request_uuid@),
            final(self).minted == old(self).minted,
    {
        let ghost before = self@;
        if let Some(handle) = self.clients.get_mut(&client) {
            let ghost pairs = types::shown_pairs(handle.pending_request_uuids@);
            handle.pending_request_uuids.push((key.clone(), request_uuid.clone()));
            assert(types::shown_pairs(handle.pending_request_uuids@) =~= pairs.push(
                (key@, request_uuid@),
            ));
        }
    }

    /// Notes that a registered client waits for `key` with that request no more.
    pub fn untrack_pending(&mut self, client: ClientId, key: &String, request_uuid: &String)
        ensures
            final(self)@ == old(self)@.pending_untracked(client, key@, request_uuid@),
            final(self).minted == old(self).minted,
    {
        if let Some(handle) = self.clients.get_mut(&client) {
            let ghost pairs = handle.pending_request_uuids@;
            let ghost keep = |p: (Seq<char>, Seq<char>)| p != (key@, request_uuid@);
            let mut rest: Vec<(String, String)> = Vec::new();
            let mut i: usize = 0;
            while i < handle.pending_request_uuids.len()
                invariant
                    handle.pending_request_uuids@ == pairs,
                    i <= pairs.len(),
                    keep == (|p: (Seq<char>, Seq<char>)| p != (key@, request_uuid@)),
                    types::shown_pairs(rest@) == types::shown_pairs(pairs).take(i as int).filter(
                        keep,
                    ),
                decreases pairs.len() - i,
            {
                let pair = &handle.pending_request_uuids[i];
                proof {
                    let all = types::shown_pairs(pairs);
                    reveal(Seq::filter);
                    assert(all.take(i + 1).drop_last() =~= all.take(i as int));
                    assert(all.take(i + 1).last() == all[i as int]);
                }
                if !(pair.0 == *key && pair.1 == *request_uuid) {
                    let ghost done = rest@;
                    rest.push((pair.0.clone(), pair.1.clone()));
                    assert(types::shown_pairs(rest@) =~= types::shown_pairs(done).push(
                        (pair.0@, pair.1@),
                    ));
                }
                i = i + 1;
            }
            proof {
                let all = types::shown_pairs(pairs);
                assert(all.take(i as int) =~= all);
            }
            handle.pending_request_uuids = rest;
        }
    }

    /// The lock id of the next grant: the imposed one, or a random one.
    pub fn grant_id(&mut self, given: Option<String>) -> (r: String)
        ensures
            model::continues(old(self).minted@, final(self).minted@),
            final(self)@ == old(self)@.id_taken(protocol::shown_text(given)),
            given is None ==> ids::random_id_text(r@),
            forall|tape: Tape|
                #[trigger] model::reads(tape, final(self).minted@) ==> r@ == old(self)@.grant_id(
                    protocol::shown_text(given),
                    tape,
                ),
    {
        match given {
            Some(id) => id,
            None => {
                let id = ids::random_id();
                let ghost made = self.minted@.push(id@);
                self.minted = Ghost(made);
                proof {
                    assert forall|tape: Tape| #[trigger] model::reads(tape, made) implies id@
                        == tape(made.len() - 1) by {
                        assert(made[made.len() - 1] == id@);
                    }
                }
                id
            },
        }
    }
}

} // verus!
