//! Granting from the queues.

use crate::broker::model;
use crate::broker::model::{GrantStep, Tape};
use crate::broker::types::{
    BrokerModel, BrokerState, Clock, DeadlineEntry, ExclusiveHolder, PendingKind, PendingRequest,
    RwHoldKind, RwHolder,
};
use crate::fenced_client::MAX_FENCING_TOKEN;
use crate::ordered_map;
use crate::protocol::Response;
use vstd::prelude::*;

verus! {

/// What a look at the head of a queue led to.
pub enum Progress {
    Blocked,
    Granted,
    Moved(String),
}

/// The step that a look led to, `m` being the state after it.
pub open spec fn taken_step(p: Progress, m: BrokerModel) -> GrantStep {
    match p {
        Progress::Blocked => GrantStep::Blocked,
        Progress::Granted => GrantStep::Granted(m),
        Progress::Moved(next) => GrantStep::Moved(m, next@),
    }
}

/// Who is at the head of a queue that can be granted.
enum Turn {
    Exclusive,
    Reader,
    Writer,
    Composite,
}

/// A list of one text.
pub fn single(text: &String) -> (r: Vec<String>)
    ensures
        ordered_map::views(r@) == seq![text@],
{
    let mut r: Vec<String> = Vec::new();
    r.push(text.clone());
    assert(ordered_map::views(r@) =~= seq![text@]);
    r
}

/// A copy of a list of texts.
pub fn copied(texts: &Vec<String>) -> (r: Vec<String>)
    ensures
        r@ == texts@,
{
    let r = texts.clone();
    assert(r@ =~= texts@);
    r
}

/// Where `key` first stands in `keys`, or zero.
fn first_position(keys: &Vec<String>, key: &String) -> (r: usize)
    ensures
        r == match ordered_map::views(keys@).index_of_first(key@) {
            Some(i) => i,
            None => 0,
        },
{
    let ghost all = ordered_map::views(keys@);
    proof {
        all.index_of_first_ensures(key@);
    }
    let mut i: usize = 0;
    while i < keys.len()
        invariant
            i <= keys@.len(),
            all == ordered_map::views(keys@),
            forall|j: int| 0 <= j < i ==> (#[trigger] all[j]) != key@,
        decreases keys@.len() - i,
    {
        if keys[i] == *key {
            proof {
                all.index_of_first_ensures(key@);
                assert(all[i as int] == key@);
                assert(all.contains(key@));
            }
            return i;
        }
        assert(all[i as int] == keys@[i as int]@);
        i = i + 1;
    }
    assert(!all.contains(key@));
    0
}

impl PendingRequest {
    /// The token reserved for the grant of `key`.
    fn reserved_token(&self, key: &String) -> (r: Option<u64>)
        ensures
            r == self@.reserved_token(key@),
    {
        match &self.kind {
            PendingKind::Composite { all_keys, .. } => {
                let offset: usize = first_position(all_keys, key);
                match self.grant_fencing_seed {
                    Some(seed) => Some(seed.saturating_add(offset as u64)),
                    None => None,
                }
            },
            _ => self.grant_fencing_seed,
        }
    }
}

impl BrokerState {
    /// How far the tokens of `key` have come.
    fn reached(&self, key: &String) -> (r: u64)
        ensures
            r == self@.reached(key@),
    {
        match self.locks.get(key) {
            Some(lock) => if lock.fencing_counter < self.fencing_watermark {
                lock.fencing_counter
            } else {
                self.fencing_watermark
            },
            None => self.fencing_watermark,
        }
    }

    /// The token reserved for the head of `key`'s queue.
    fn reserved_for_head(&self, key: &String) -> (r: Option<u64>)
        requires
            self@.locks.dom().contains(key@),
            self@.locks[key@].queue.len() > 0,
        ensures
            r == self@.locks[key@].queue[0].1.reserved_token(key@),
    {
        match self.locks.get(key) {
            Some(lock) => match lock.queue.front() {
                Some((_, head)) => head.reserved_token(key),
                None => vstd::pervasive::unreached(),
            },
            None => vstd::pervasive::unreached(),
        }
    }

    /// The token that the head of `key`'s queue is due, if one was reserved.
    fn token_of_head(&self, key: &String) -> (r: Option<u64>)
        requires
            self@.locks.dom().contains(key@),
            self@.locks[key@].queue.len() > 0,
            !self@.head_barred(key@),
        ensures
            r == self@.head_token(key@),
    {
        match self.reserved_for_head(key) {
            Some(token) => {
                let reached: u64 = self.reached(key);
                if token <= reached {
                    Some(reached + 1)
                } else {
                    Some(token)
                }
            },
            None => None,
        }
    }

    /// Whether the head of `key`'s queue cannot have an exact token.
    fn head_is_barred(&self, key: &String) -> (r: bool)
        requires
            self@.locks.dom().contains(key@),
            self@.locks[key@].queue.len() > 0,
        ensures
            r == self@.head_barred(key@),
    {
        match self.reserved_for_head(key) {
            Some(token) => {
                let reached: u64 = self.reached(key);
                token <= reached && reached >= MAX_FENCING_TOKEN
            },
            None => false,
        }
    }

    /// Takes the head of `key`'s queue out.
    fn pop_head(&mut self, key: &String) -> (r: PendingRequest)
        requires
            old(self)@.locks.dom().contains(key@),
            old(self)@.locks[key@].queue.len() > 0,
        ensures
            r@ == old(self)@.locks[key@].queue[0].1,
            final(self)@ == old(self)@.with_lock(key@, old(self)@.locks[key@].popped()),
            final(self).minted == old(self).minted,
    {
        match self.locks.get_mut(key) {
            Some(lock) => match lock.queue.pop_front() {
                Some(entry) => entry.1,
                None => vstd::pervasive::unreached(),
            },
            None => vstd::pervasive::unreached(),
        }
    }

    fn grant_exclusive_head(&mut self, key: &String, clock: Clock)
        requires
            old(self)@.locks.dom().contains(key@),
            old(self)@.locks[key@].queue.len() > 0,
            !old(self)@.head_barred(key@),
        ensures
            model::continues(old(self).minted@, final(self).minted@),
            forall|tape: Tape|
                #[trigger] model::reads(tape, final(self).minted@) ==> final(self)@ == old(
                    self,
                )@.head_granted_exclusive(key@, clock, tape),
    {
        let ghost start = self@;
        let due: Option<u64> = self.token_of_head(key);
        let head = self.pop_head(key);
        let ghost p = head@;
        let lock_uuid = self.grant_id(head.grant_lock_uuid);
        let lock = match self.locks.get_mut(key) {
            Some(lock) => lock,
            None => vstd::pervasive::unreached(),
        };
        let token: u64 = lock.next_or_forced_fencing_token(due);
        lock.exclusive_holders.insert(
            lock_uuid.clone(),
            ExclusiveHolder {
                client: head.client,
                pid: head.pid,
                fencing_token: token,
                keep_locks_after_death: head.keep_locks_after_death,
                composite_member: false,
            },
        );
        let depth: usize = lock.queue.len();
        let ghost granted = self@.locks[key@];
        assert(self@.locks =~= start.locks.insert(key@, granted));
        self.observe_fencing_token(token);
        self.untrack_pending(head.client, key, &head.request_uuid);
        let keys = single(key);
        self.track_holder(head.client, &lock_uuid, single(key), RwHoldKind::Exclusive);
        self.schedule_deadline(
            head.ttl,
            DeadlineEntry {
                lock_uuid: lock_uuid.clone(),
                keys,
                kind: RwHoldKind::Exclusive,
                client: head.client,
            },
            clock.now,
        );
        self.send(
            head.client,
            Response::Lock {
                uuid: head.request_uuid,
                key: key.clone(),
                acquired: true,
                lock_request_count: depth,
                lock_uuid: Some(lock_uuid),
                fencing_token: Some(token),
                readers_count: Some(0),
                error: None,
            },
        );
        assert forall|tape: Tape| #[trigger] model::reads(tape, self.minted@) implies self@
            == start.head_granted_exclusive(key@, clock, tape) by {
            assert(start.grant_id(p.grant_lock_uuid, tape) == lock_uuid@);
        }
    }

    fn grant_reader_head(&mut self, key: &String)
        requires
            old(self)@.locks.dom().contains(key@),
            old(self)@.locks[key@].queue.len() > 0,
            !old(self)@.head_barred(key@),
        ensures
            model::continues(old(self).minted@, final(self).minted@),
            forall|tape: Tape|
                #[trigger] model::reads(tape, final(self).minted@) ==> final(self)@ == old(
                    self,
                )@.head_granted_reader(key@, tape),
    {
        let ghost start = self@;
        let due: Option<u64> = self.token_of_head(key);
        let head = self.pop_head(key);
        let ghost p = head@;
        let lock_uuid = self.grant_id(head.grant_lock_uuid);
        let lock = match self.locks.get_mut(key) {
            Some(lock) => lock,
            None => vstd::pervasive::unreached(),
        };
        let token: u64 = lock.next_or_forced_fencing_token(due);
        lock.readers.insert(
            lock_uuid.clone(),
            RwHolder {
                client: head.client,
                fencing_token: token,
                lock_uuid: lock_uuid.clone(),
            },
        );
        let readers: u32 = #[verifier::truncate]
        (lock.readers.len() as u32);
        let ghost granted = self@.locks[key@];
        assert(self@.locks =~= start.locks.insert(key@, granted));
        self.observe_fencing_token(token);
        self.untrack_pending(head.client, key, &head.request_uuid);
        self.track_holder(head.client, &lock_uuid, single(key), RwHoldKind::Read);
        self.send(
            head.client,
            Response::RegisterReadResult {
                uuid: head.request_uuid,
                key: key.clone(),
                readers_count: readers,
                writer_flag: false,
                granted: true,
                lock_uuid: Some(lock_uuid),
                fencing_token: Some(token),
            },
        );
        assert forall|tape: Tape| #[trigger] model::reads(tape, self.minted@) implies self@
            == start.head_granted_reader(key@, tape) by {
            assert(start.grant_id(p.grant_lock_uuid, tape) == lock_uuid@);
        }
    }

    fn grant_writer_head(&mut self, key: &String)
        requires
            old(self)@.locks.dom().contains(key@),
            old(self)@.locks[key@].queue.len() > 0,
            !old(self)@.head_barred(key@),
        ensures
            model::continues(old(self).minted@, final(self).minted@),
            forall|tape: Tape|
                #[trigger] model::reads(tape, final(self).minted@) ==> final(self)@ == old(
                    self,
                )@.head_granted_writer(key@, tape),
    {
        let ghost start = self@;
        let due: Option<u64> = self.token_of_head(key);
        let head = self.pop_head(key);
        let ghost p = head@;
        let lock_uuid = self.grant_id(head.grant_lock_uuid);
        let lock = match self.locks.get_mut(key) {
            Some(lock) => lock,
            None => vstd::pervasive::unreached(),
        };
        let token: u64 = lock.next_or_forced_fencing_token(due);
        lock.writer = Some(
            RwHolder {
                client: head.client,
                fencing_token: token,
                lock_uuid: lock_uuid.clone(),
            },
        );
        let ghost granted = self@.locks[key@];
        assert(self@.locks =~= start.locks.insert(key@, granted));
        self.observe_fencing_token(token);
        self.untrack_pending(head.client, key, &head.request_uuid);
        self.track_holder(head.client, &lock_uuid, single(key), RwHoldKind::Write);
        self.send(
            head.client,
            Response::RegisterWriteResult {
                uuid: head.request_uuid,
                key: key.clone(),
                readers_count: 0,
                writer_flag: true,
                granted: true,
                lock_uuid: Some(lock_uuid),
                fencing_token: Some(token),
            },
        );
        assert forall|tape: Tape| #[trigger] model::reads(tape, self.minted@) implies self@
            == start.head_granted_writer(key@, tape) by {
            assert(start.grant_id(p.grant_lock_uuid, tape) == lock_uuid@);
        }
    }

    /// Grants `key` to the composite request at the head of its queue.
    fn try_grant_composite(&mut self, key: &String, clock: Clock) -> (r: Progress)
        requires
            old(self)@.locks.dom().contains(key@),
            old(self)@.locks[key@].queue.len() > 0,
            !old(self)@.head_barred(key@),
            old(self)@.locks[key@].queue[0].1.kind is Composite,
            old(self)@.locks[key@].queue[0].1.kind->remaining_keys.len() > 0,
        ensures
            !(r is Blocked),
            final(self).minted == old(self).minted,
            taken_step(r, final(self)@) == old(self)@.head_granted_composite(key@, clock),
    {
        let ghost start = self@;
        let due: Option<u64> = self.token_of_head(key);
        let head = self.pop_head(key);
        let ghost p = head@;
        match head.kind {
            PendingKind::Composite {
                all_keys,
                mut remaining_keys,
                mut granted_keys,
                mut granted_tokens,
                composite_lock_uuid,
            } => {
                let lock = match self.locks.get_mut(key) {
                    Some(lock) => lock,
                    None => vstd::pervasive::unreached(),
                };
                let token: u64 = lock.next_or_forced_fencing_token(due);
                lock.exclusive_holders.insert(
                    composite_lock_uuid.clone(),
                    ExclusiveHolder {
                        client: head.client,
                        pid: head.pid,
                        fencing_token: token,
                        keep_locks_after_death: false,
                        composite_member: true,
                    },
                );
                let ghost granted = self@.locks[key@];
                assert(self@.locks =~= start.locks.insert(key@, granted));
                granted_tokens.insert(key.clone(), token);
                let ghost granted_before = ordered_map::views(granted_keys@);
                granted_keys.push(key.clone());
                assert(ordered_map::views(granted_keys@) =~= granted_before.push(key@));
                let ghost remaining_before = ordered_map::views(remaining_keys@);
                let _ = remaining_keys.remove(0);
                assert(ordered_map::views(remaining_keys@) =~= remaining_before.drop_first());
                self.observe_fencing_token(token);
                self.untrack_pending(head.client, key, &head.request_uuid);
                self.track_holder(
                    head.client,
                    &composite_lock_uuid,
                    copied(&all_keys),
                    RwHoldKind::Exclusive,
                );
                if remaining_keys.len() == 0 {
                    self.schedule_deadline(
                        head.ttl,
                        DeadlineEntry {
                            lock_uuid: composite_lock_uuid.clone(),
                            keys: copied(&all_keys),
                            kind: RwHoldKind::Exclusive,
                            client: head.client,
                        },
                        clock.now,
                    );
                    self.send(
                        head.client,
                        Response::CompositeLock {
                            uuid: head.request_uuid,
                            keys: all_keys,
                            acquired: true,
                            lock_uuid: Some(composite_lock_uuid),
                            fencing_tokens: Some(granted_tokens),
                            error: None,
                        },
                    );
                    Progress::Granted
                } else {
                    let next_key = remaining_keys[0].clone();
                    let ghost held = self@;
                    let moved = PendingRequest {
                        request_uuid: head.request_uuid.clone(),
                        client: head.client,
                        pid: head.pid,
                        ttl: head.ttl,
                        grant_lock_uuid: None,
                        grant_fencing_seed: head.grant_fencing_seed,
                        keep_locks_after_death: head.keep_locks_after_death,
                        kind: PendingKind::Composite {
                            all_keys,
                            remaining_keys,
                            granted_keys,
                            granted_tokens,
                            composite_lock_uuid,
                        },
                    };
                    let ghost q = moved@;
                    let next_lock = self.lock_or_default(&next_key, clock.wall_ms);
                    let _ = next_lock.queue.push_back(head.request_uuid.clone(), moved);
                    assert(self@ =~= held.with_lock(
                        next_key@,
                        held.lock_or_fresh(next_key@, clock.wall_ms).enqueued(q, false),
                    ));
                    self.track_pending(head.client, &next_key, &head.request_uuid);
                    Progress::Moved(next_key)
                }
            },
            _ => vstd::pervasive::unreached(),
        }
    }

    /// Looks at the head of `key`'s queue and grants it if the key admits it.
    pub fn try_grant_once(&mut self, key: &String, clock: Clock) -> (r: Progress)
        ensures
            r is Blocked ==> *final(self) == *old(self),
            model::continues(old(self).minted@, final(self).minted@),
            forall|tape: Tape|
                #[trigger] model::reads(tape, final(self).minted@) ==> taken_step(r, final(self)@)
                    == old(self)@.grant_step(key@, clock, tape),
    {
        let turn = match self.locks.get(key) {
            None => return Progress::Blocked,
            Some(lock) => match lock.queue.front() {
                None => return Progress::Blocked,
                Some((_, head)) => match &head.kind {
                    PendingKind::Exclusive => {
                        if !lock.admits_exclusive() {
                            return Progress::Blocked;
                        }
                        Turn::Exclusive
                    },
                    PendingKind::Reader => {
                        if lock.writer.is_some() || !lock.exclusive_holders.is_empty() {
                            return Progress::Blocked;
                        }
                        Turn::Reader
                    },
                    PendingKind::Writer => {
                        if !lock.is_vacant() {
                            return Progress::Blocked;
                        }
                        Turn::Writer
                    },
                    PendingKind::Composite { remaining_keys, .. } => {
                        if remaining_keys.len() == 0 || !lock.is_vacant() {
                            return Progress::Blocked;
                        }
                        if !(remaining_keys[0] == *key) {
                            return Progress::Blocked;
                        }
                        Turn::Composite
                    },
                },
            },
        };
        if self.head_is_barred(key) {
            return Progress::Blocked;
        }
        match turn {
            Turn::Exclusive => {
                self.grant_exclusive_head(key, clock);
                Progress::Granted
            },
            Turn::Reader => {
                self.grant_reader_head(key);
                Progress::Granted
            },
            Turn::Writer => {
                self.grant_writer_head(key);
                Progress::Granted
            },
            Turn::Composite => self.try_grant_composite(key, clock),
        }
    }

    /// Grants from the queues of the keys on `stack`, the last one first, until
    /// each of them is blocked.
    pub fn settle(&mut self, stack: Vec<String>, clock: Clock)
        ensures
            model::continues(old(self).minted@, final(self).minted@),
            forall|tape: Tape|
                #[trigger] model::reads(tape, final(self).minted@) ==> final(self)@ == old(
                    self,
                )@.settled(ordered_map::views(stack@), clock, tape),
    {
        let mut stack = stack;
        let ghost start = self@;
        let ghost first = ordered_map::views(stack@);
        let ghost made = self.minted@;
        let _ = self.locks.len();
        while stack.len() > 0
            invariant
                self@.locks.dom().finite(),
                model::continues(made, self.minted@),
                forall|tape: Tape| #[trigger]
                    model::reads(tape, self.minted@) ==> self@.settled(
                        ordered_map::views(stack@),
                        clock,
                        tape,
                    ) == start.settled(first, clock, tape),
            decreases self@.work(), stack@.len(),
        {
            let ghost before = self@;
            let ghost keys = ordered_map::views(stack@);
            let ghost drawn = self.minted@;
            let key = match stack.pop() {
                Some(key) => key,
                None => vstd::pervasive::unreached(),
            };
            let ghost rest = ordered_map::views(stack@);
            assert(rest =~= keys.drop_last());
            assert(keys.last() == key@);
            let progress = self.try_grant_once(&key, clock);
            proof {
                model::lemma_continues(made, drawn, self.minted@);
                let tape: Tape = |i: int| self.minted@[i];
                assert(model::reads(tape, self.minted@));
                model::lemma_step_shrinks(before, key@, clock, tape);
                model::lemma_mark_keeps_work(before, key@, clock.now);
            }
            match progress {
                Progress::Blocked => {
                    self.maybe_mark_idle(&key, clock.now);
                },
                Progress::Granted => {
                    stack.push(key);
                    assert(ordered_map::views(stack@) =~= keys);
                },
                Progress::Moved(next) => {
                    stack.push(key);
                    stack.push(next);
                    assert(ordered_map::views(stack@) =~= keys.push(next@));
                },
            }
            assert forall|tape: Tape| #[trigger] model::reads(tape, self.minted@) implies
                self@.settled(ordered_map::views(stack@), clock, tape) == start.settled(
                first,
                clock,
                tape,
            ) by {
                assert(model::reads(tape, drawn));
                assert(before.settled(keys, clock, tape) == start.settled(first, clock, tape));
            }
        }
        assert(ordered_map::views(stack@) =~= Seq::<Seq<char>>::empty());
    }

    /// Grants from the queue of `key` until its head is blocked.
    pub fn try_grant_next(&mut self, key: &String, clock: Clock)
        ensures
            model::continues(old(self).minted@, final(self).minted@),
            forall|tape: Tape|
                #[trigger] model::reads(tape, final(self).minted@) ==> final(self)@ == old(
                    self,
                )@.settled(seq![key@], clock, tape),
    {
        self.settle(single(key), clock);
    }
}

} // verus!
