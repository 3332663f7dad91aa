//! Which snapshots can be installed, and what is wrong with the others.

use crate::broker::snapshot::{
    BrokerRaftDeadlineSnapshot, BrokerRaftLockSnapshot, BrokerRaftPendingKindSnapshot,
    BrokerRaftPendingRequestSnapshot, BrokerRaftSnapshot, DeadlineSnapshotModel, LockSnapshotModel,
    SnapshotModel,
};
use crate::broker::stats;
use crate::broker::types::{KindModel, PendingModel, RwHoldKind};
use crate::ordered_map;
use crate::ordered_map::OrderedMap;
use crate::protocol::MAX_COMPOSITE_KEYS;
use crate::text;
use vstd::prelude::*;
use vstd::string::StringExecFns;

verus! {

/// The error of the first of `n` items that has one.
pub open spec fn first_error(n: nat, f: spec_fn(int) -> Option<Seq<char>>) -> Option<Seq<char>>
    decreases n,
{
    if n == 0 {
        None
    } else {
        match first_error((n - 1) as nat, f) {
            Some(e) => Some(e),
            None => f(n - 1),
        }
    }
}

/// A later item does not hide an earlier error.
pub proof fn lemma_first_error(n: nat, m: nat, f: spec_fn(int) -> Option<Seq<char>>)
    requires
        n <= m,
        first_error(n, f) is Some,
    ensures
        first_error(m, f) == first_error(n, f),
    decreases m,
{
    if n < m {
        lemma_first_error(n, (m - 1) as nat, f);
    }
}

/// `result` reports `error`.
pub open spec fn reports(result: Result<(), String>, error: Option<Seq<char>>) -> bool {
    match result {
        Ok(_) => error is None,
        Err(e) => error == Some(e@),
    }
}

/// A complaint about a lock.
pub open spec fn about_lock(key: Seq<char>, complaint: Seq<char>) -> Seq<char> {
    "broker snapshot lock `"@ + key + complaint
}

/// A complaint about a lock that names something.
pub open spec fn about_lock_item(
    key: Seq<char>,
    complaint: Seq<char>,
    item: Seq<char>,
    rest: Seq<char>,
) -> Seq<char> {
    "broker snapshot lock `"@ + key + complaint + item + rest
}

/// A complaint about a deadline.
pub open spec fn about_deadline(lock_uuid: Seq<char>, complaint: Seq<char>) -> Seq<char> {
    "broker snapshot deadline for `"@ + lock_uuid + complaint
}

/// What is wrong with the `i`-th key of a composite request.
pub open spec fn composite_key_error(
    lock: Seq<char>,
    all: Seq<Seq<char>>,
    i: int,
) -> Option<Seq<char>> {
    if all[i].len() == 0 {
        Some(about_lock(lock, "` has an empty composite key"@))
    } else if all.take(i).contains(all[i]) {
        Some(about_lock_item(lock, "` repeats composite key `"@, all[i], "`"@))
    } else {
        None
    }
}

/// What is wrong with the `i`-th remaining key of a composite request.
pub open spec fn remaining_key_error(
    lock: Seq<char>,
    all: Seq<Seq<char>>,
    remaining: Seq<Seq<char>>,
    i: int,
) -> Option<Seq<char>> {
    if !all.contains(remaining[i]) {
        Some(about_lock_item(lock, "` has composite sub-key `"@, remaining[i], "` outside allKeys"@))
    } else if remaining.take(i).contains(remaining[i]) {
        Some(about_lock_item(lock, "` repeats remaining composite key `"@, remaining[i], "`"@))
    } else {
        None
    }
}

/// What is wrong with the `i`-th granted key of a composite request.
pub open spec fn granted_key_error(
    lock: Seq<char>,
    all: Seq<Seq<char>>,
    remaining: Seq<Seq<char>>,
    granted: Seq<Seq<char>>,
    i: int,
) -> Option<Seq<char>> {
    if !all.contains(granted[i]) {
        Some(about_lock_item(lock, "` has composite sub-key `"@, granted[i], "` outside allKeys"@))
    } else if granted.take(i).contains(granted[i]) {
        Some(about_lock_item(lock, "` repeats granted composite key `"@, granted[i], "`"@))
    } else if remaining.contains(granted[i]) {
        Some(
            about_lock_item(
                lock,
                "` has composite key `"@,
                granted[i],
                "` in both remainingKeys and grantedKeys"@,
            ),
        )
    } else {
        None
    }
}

/// What is wrong with the token of a key.
pub open spec fn token_key_error(
    lock: Seq<char>,
    all: Seq<Seq<char>>,
    key: Seq<char>,
) -> Option<Seq<char>> {
    if !all.contains(key) {
        Some(about_lock_item(lock, "` has granted token for unknown key `"@, key, "`"@))
    } else {
        None
    }
}

/// What is wrong with a composite request that waits for `lock`.
pub open spec fn composite_error(
    lock: Seq<char>,
    all: Seq<Seq<char>>,
    remaining: Seq<Seq<char>>,
    granted: Seq<Seq<char>>,
    tokens: Map<Seq<char>, u64>,
    lock_uuid: Seq<char>,
) -> Option<Seq<char>> {
    let token_keys = ordered_map::ascending_keys::<String>(tokens.dom());
    if lock_uuid.len() == 0 {
        Some(about_lock(lock, "` has an empty composite lock uuid"@))
    } else if all.len() == 0 || all.len() > MAX_COMPOSITE_KEYS {
        Some(
            about_lock(
                lock,
                "` has invalid composite key count "@ + text::decimal_text(all.len()),
            ),
        )
    } else if remaining.len() == 0 {
        Some(about_lock(lock, "` has a composite waiter with no remaining keys"@))
    } else if remaining[0] != lock {
        Some(about_lock(lock, "` has composite waiter queued on the wrong key"@))
    } else if first_error(all.len(), |i: int| composite_key_error(lock, all, i)) is Some {
        first_error(all.len(), |i: int| composite_key_error(lock, all, i))
    } else if first_error(
        remaining.len(),
        |i: int| remaining_key_error(lock, all, remaining, i),
    ) is Some {
        first_error(remaining.len(), |i: int| remaining_key_error(lock, all, remaining, i))
    } else if first_error(
        granted.len(),
        |i: int| granted_key_error(lock, all, remaining, granted, i),
    ) is Some {
        first_error(granted.len(), |i: int| granted_key_error(lock, all, remaining, granted, i))
    } else if first_error(token_keys.len(), |i: int| token_key_error(lock, all, token_keys[i])) is Some {
        first_error(token_keys.len(), |i: int| token_key_error(lock, all, token_keys[i]))
    } else if remaining.to_set().union(granted.to_set()) != all.to_set() {
        Some(about_lock(lock, "` composite waiter does not partition allKeys"@))
    } else if tokens.dom() != granted.to_set() {
        Some(
            about_lock(lock, "` composite granted token keys do not match grantedKeys"@),
        )
    } else {
        None
    }
}

/// What is wrong with a request that waits for `lock`.
pub open spec fn waiter_error(lock: Seq<char>, w: PendingModel) -> Option<Seq<char>> {
    if w.request_uuid.len() == 0 {
        Some(about_lock(lock, "` has an empty queued request uuid"@))
    } else if w.grant_lock_uuid == Some(Seq::<char>::empty()) {
        Some(about_lock(lock, "` has an empty queued grant lock uuid"@))
    } else {
        match w.kind {
            KindModel::Composite {
                all_keys,
                remaining_keys,
                granted_keys,
                granted_tokens,
                composite_lock_uuid,
            } => composite_error(
                lock,
                all_keys,
                remaining_keys,
                granted_keys,
                granted_tokens,
                composite_lock_uuid,
            ),
            _ => None,
        }
    }
}

impl LockSnapshotModel {
    /// One of the first `n` exclusive holders has that id.
    pub open spec fn exclusive_among(self, n: int, lock_uuid: Seq<char>) -> bool {
        exists|j: int|
            0 <= j < n && (#[trigger] self.exclusive_holders[j]).lock_uuid == lock_uuid
    }

    /// One of the first `n` readers has that id.
    pub open spec fn reader_among(self, n: int, lock_uuid: Seq<char>) -> bool {
        exists|j: int| 0 <= j < n && (#[trigger] self.readers[j]).lock_uuid == lock_uuid
    }

    /// One of the first `n` waiters has that request id.
    pub open spec fn waiter_among(self, n: int, request_uuid: Seq<char>) -> bool {
        exists|j: int| 0 <= j < n && (#[trigger] self.queue[j]).request_uuid == request_uuid
    }

    pub open spec fn repeated_holder(self, lock_uuid: Seq<char>) -> Seq<char> {
        about_lock_item(self.key, "` repeats holder uuid `"@, lock_uuid, "`"@)
    }

    pub open spec fn exclusive_error(self, i: int) -> Option<Seq<char>> {
        let id = self.exclusive_holders[i].lock_uuid;
        if id.len() == 0 {
            Some(about_lock(self.key, "` has an empty exclusive holder uuid"@))
        } else if self.exclusive_among(i, id) {
            Some(self.repeated_holder(id))
        } else {
            None
        }
    }

    pub open spec fn reader_error(self, i: int) -> Option<Seq<char>> {
        let id = self.readers[i].lock_uuid;
        if id.len() == 0 {
            Some(about_lock(self.key, "` has an empty reader uuid"@))
        } else if self.exclusive_among(self.exclusive_holders.len() as int, id)
            || self.reader_among(i, id) {
            Some(self.repeated_holder(id))
        } else {
            None
        }
    }

    pub open spec fn writer_error(self) -> Option<Seq<char>> {
        match self.writer {
            None => None,
            Some(w) => if w.lock_uuid.len() == 0 {
                Some(about_lock(self.key, "` has an empty writer uuid"@))
            } else if self.exclusive_among(self.exclusive_holders.len() as int, w.lock_uuid)
                || self.reader_among(self.readers.len() as int, w.lock_uuid) {
                Some(self.repeated_holder(w.lock_uuid))
            } else {
                None
            },
        }
    }

    /// Somebody holds or awaits the key.
    pub open spec fn active(self) -> bool {
        self.exclusive_holders.len() > 0 || self.readers.len() > 0 || self.writer is Some
            || self.queue.len() > 0
    }

    pub open spec fn queue_error(self, i: int) -> Option<Seq<char>> {
        match waiter_error(self.key, self.queue[i]) {
            Some(e) => Some(e),
            None => if self.waiter_among(i, self.queue[i].request_uuid) {
                Some(
                    about_lock_item(
                        self.key,
                        "` repeats queued request uuid `"@,
                        self.queue[i].request_uuid,
                        "`"@,
                    ),
                )
            } else {
                None
            },
        }
    }

    /// What is wrong with a lock, its key aside.
    pub open spec fn error(self) -> Option<Seq<char>> {
        if self.max == 0 {
            Some(about_lock(self.key, "` has invalid max=0"@))
        } else if first_error(self.exclusive_holders.len(), |i: int| self.exclusive_error(i)) is Some {
            first_error(self.exclusive_holders.len(), |i: int| self.exclusive_error(i))
        } else if first_error(self.readers.len(), |i: int| self.reader_error(i)) is Some {
            first_error(self.readers.len(), |i: int| self.reader_error(i))
        } else if self.writer_error() is Some {
            self.writer_error()
        } else if self.idle && self.active() {
            Some(about_lock(self.key, "` is marked idle while it has active state"@))
        } else {
            first_error(self.queue.len(), |i: int| self.queue_error(i))
        }
    }

    /// The key is held that way under that id.
    pub open spec fn held_under(self, lock_uuid: Seq<char>, kind: RwHoldKind) -> bool {
        match kind {
            RwHoldKind::Exclusive => self.exclusive_among(
                self.exclusive_holders.len() as int,
                lock_uuid,
            ),
            RwHoldKind::Read => self.reader_among(self.readers.len() as int, lock_uuid),
            RwHoldKind::Write => self.writer matches Some(w) && w.lock_uuid == lock_uuid,
        }
    }
}

/// One of the first `n` locks has that key.
pub open spec fn key_among(locks: Seq<LockSnapshotModel>, n: int, key: Seq<char>) -> bool {
    exists|j: int| 0 <= j < n && (#[trigger] locks[j]).key == key
}

/// What is wrong with the `i`-th lock.
pub open spec fn lock_error(locks: Seq<LockSnapshotModel>, i: int) -> Option<Seq<char>> {
    if locks[i].key.len() == 0 {
        Some("broker snapshot contains an empty lock key"@)
    } else if key_among(locks, i, locks[i].key) {
        Some("broker snapshot contains duplicate lock key `"@ + locks[i].key + "`"@)
    } else {
        locks[i].error()
    }
}

/// How many requests wait on the first `n` locks.
pub open spec fn waiters_on(locks: Seq<LockSnapshotModel>, n: nat) -> nat
    decreases n,
{
    if n == 0 {
        0
    } else {
        waiters_on(locks, (n - 1) as nat) + locks[n - 1].queue.len()
    }
}

/// The first lock with that key holds it that way under that id.
pub open spec fn held_in(
    locks: Seq<LockSnapshotModel>,
    key: Seq<char>,
    lock_uuid: Seq<char>,
    kind: RwHoldKind,
) -> bool {
    exists|j: int|
        0 <= j < locks.len() && (#[trigger] locks[j]).key == key && !key_among(locks, j, key)
            && locks[j].held_under(lock_uuid, kind)
}

/// Every key of the deadline is held by its holder.
pub open spec fn deadline_matches(
    locks: Seq<LockSnapshotModel>,
    d: DeadlineSnapshotModel,
) -> bool {
    forall|i: int|
        0 <= i < d.keys.len() ==> held_in(locks, #[trigger] d.keys[i], d.lock_uuid, d.kind)
}

/// What is wrong with a deadline.
pub open spec fn deadline_error(
    locks: Seq<LockSnapshotModel>,
    d: DeadlineSnapshotModel,
) -> Option<Seq<char>> {
    if d.lock_uuid.len() == 0 {
        Some("broker snapshot deadline has an empty lock uuid"@)
    } else if d.keys.len() == 0 {
        Some(about_deadline(d.lock_uuid, "` has no keys"@))
    } else if d.keys.contains(Seq::<char>::empty()) {
        Some(about_deadline(d.lock_uuid, "` contains an empty key"@))
    } else if !deadline_matches(locks, d) {
        Some(about_deadline(d.lock_uuid, "` does not match restored holder state"@))
    } else {
        None
    }
}

impl SnapshotModel {
    /// What is wrong with a snapshot: the first fault found.
    pub open spec fn error(self) -> Option<Seq<char>> {
        let queued = stats::capped(waiters_on(self.locks, self.locks.len()));
        if self.schema_version != 1 {
            Some(
                "unsupported broker snapshot schema version "@ + text::decimal_text(
                    self.schema_version as nat,
                ),
            )
        } else if first_error(self.locks.len(), |i: int| lock_error(self.locks, i)) is Some {
            first_error(self.locks.len(), |i: int| lock_error(self.locks, i))
        } else if self.metrics.waiters != queued {
            Some(
                "broker snapshot waiters metric mismatch: metrics.waiters="@ + text::decimal_text(
                    self.metrics.waiters as nat,
                ) + " queued="@ + text::decimal_text(queued as nat),
            )
        } else {
            first_error(
                self.deadlines.len(),
                |i: int| deadline_error(self.locks, self.deadlines[i]),
            )
        }
    }
}

/// Whether `item` is one of the first `n` of `items`.
fn among(items: &Vec<String>, n: usize, item: &String) -> (r: bool)
    requires
        n <= items@.len(),
    ensures
        r == ordered_map::views(items@).take(n as int).contains(item@),
{
    let ghost all = ordered_map::views(items@).take(n as int);
    let mut i: usize = 0;
    while i < n
        invariant
            i <= n,
            n <= items@.len(),
            all == ordered_map::views(items@).take(n as int),
            forall|j: int| 0 <= j < i ==> (#[trigger] all[j]) != item@,
        decreases n - i,
    {
        assert(all[i as int] == items@[i as int]@);
        if items[i] == *item {
            return true;
        }
        i = i + 1;
    }
    false
}

fn contains(items: &Vec<String>, item: &String) -> (r: bool)
    ensures
        r == ordered_map::views(items@).contains(item@),
{
    assert(ordered_map::views(items@).take(items@.len() as int) =~= ordered_map::views(items@));
    among(items, items.len(), item)
}

fn complain(key: &String, complaint: &str) -> (r: String)
    ensures
        r@ == about_lock(key@, complaint@),
{
    text::join3("broker snapshot lock `", key.as_str(), complaint)
}

fn complain_of(key: &String, complaint: &str, item: &String, rest: &str) -> (r: String)
    ensures
        r@ == about_lock_item(key@, complaint@, item@, rest@),
{
    text::join5("broker snapshot lock `", key.as_str(), complaint, item.as_str(), rest)
}

/// Checks the keys of a composite request.
fn validate_composite_keys(lock_key: &String, all: &Vec<String>) -> (r: Result<(), String>)
    ensures
        reports(
            r,
            first_error(
                all@.len(),
                |i: int| composite_key_error(lock_key@, ordered_map::views(all@), i),
            ),
        ),
{
    let ghost keys = ordered_map::views(all@);
    let ghost f = |i: int| composite_key_error(lock_key@, keys, i);
    let mut i: usize = 0;
    while i < all.len()
        invariant
            i <= all@.len(),
            keys == ordered_map::views(all@),
            f == (|i: int| composite_key_error(lock_key@, keys, i)),
            first_error(i as nat, f) is None,
        decreases all@.len() - i,
    {
        let key = &all[i];
        assert(keys[i as int] == key@);
        proof {
            if first_error((i + 1) as nat, f) is Some {
                lemma_first_error((i + 1) as nat, all@.len(), f);
            }
        }
        if key.as_str().is_empty() {
            return Err(complain(lock_key, "` has an empty composite key"));
        }
        if among(all, i, key) {
            return Err(complain_of(lock_key, "` repeats composite key `", key, "`"));
        }
        i = i + 1;
    }
    Ok(())
}

/// Checks the remaining keys of a composite request.
fn validate_remaining_keys(
    lock_key: &String,
    all: &Vec<String>,
    remaining: &Vec<String>,
) -> (r: Result<(), String>)
    ensures
        reports(
            r,
            first_error(
                remaining@.len(),
                |i: int|
                    remaining_key_error(
                        lock_key@,
                        ordered_map::views(all@),
                        ordered_map::views(remaining@),
                        i,
                    ),
            ),
        ),
{
    let ghost keys = ordered_map::views(all@);
    let ghost rest = ordered_map::views(remaining@);
    let ghost f = |i: int| remaining_key_error(lock_key@, keys, rest, i);
    let mut i: usize = 0;
    while i < remaining.len()
        invariant
            i <= remaining@.len(),
            keys == ordered_map::views(all@),
            rest == ordered_map::views(remaining@),
            f == (|i: int| remaining_key_error(lock_key@, keys, rest, i)),
            first_error(i as nat, f) is None,
        decreases remaining@.len() - i,
    {
        let key = &remaining[i];
        assert(rest[i as int] == key@);
        proof {
            if first_error((i + 1) as nat, f) is Some {
                lemma_first_error((i + 1) as nat, remaining@.len(), f);
            }
        }
        if !contains(all, key) {
            return Err(
                complain_of(lock_key, "` has composite sub-key `", key, "` outside allKeys"),
            );
        }
        if among(remaining, i, key) {
            return Err(complain_of(lock_key, "` repeats remaining composite key `", key, "`"));
        }
        i = i + 1;
    }
    Ok(())
}

/// Checks the granted keys of a composite request.
fn validate_granted_keys(
    lock_key: &String,
    all: &Vec<String>,
    remaining: &Vec<String>,
    granted: &Vec<String>,
) -> (r: Result<(), String>)
    ensures
        reports(
            r,
            first_error(
                granted@.len(),
                |i: int|
                    granted_key_error(
                        lock_key@,
                        ordered_map::views(all@),
                        ordered_map::views(remaining@),
                        ordered_map::views(granted@),
                        i,
                    ),
            ),
        ),
{
    let ghost keys = ordered_map::views(all@);
    let ghost rest = ordered_map::views(remaining@);
    let ghost done = ordered_map::views(granted@);
    let ghost f = |i: int| granted_key_error(lock_key@, keys, rest, done, i);
    let mut i: usize = 0;
    while i < granted.len()
        invariant
            i <= granted@.len(),
            keys == ordered_map::views(all@),
            rest == ordered_map::views(remaining@),
            done == ordered_map::views(granted@),
            f == (|i: int| granted_key_error(lock_key@, keys, rest, done, i)),
            first_error(i as nat, f) is None,
        decreases granted@.len() - i,
    {
        let key = &granted[i];
        assert(done[i as int] == key@);
        proof {
            if first_error((i + 1) as nat, f) is Some {
                lemma_first_error((i + 1) as nat, granted@.len(), f);
            }
        }
        if !contains(all, key) {
            return Err(
                complain_of(lock_key, "` has composite sub-key `", key, "` outside allKeys"),
            );
        }
        if among(granted, i, key) {
            return Err(complain_of(lock_key, "` repeats granted composite key `", key, "`"));
        }
        if contains(remaining, key) {
            return Err(
                complain_of(
                    lock_key,
                    "` has composite key `",
                    key,
                    "` in both remainingKeys and grantedKeys",
                ),
            );
        }
        i = i + 1;
    }
    Ok(())
}

/// Checks the token keys of a composite request.
fn validate_token_keys(
    lock_key: &String,
    all: &Vec<String>,
    tokens: &OrderedMap<String, u64>,
) -> (r: Result<(), String>)
    ensures
        reports(
            r,
            first_error(
                tokens.keys().len(),
                |i: int| token_key_error(lock_key@, ordered_map::views(all@), tokens.keys()[i]),
            ),
        ),
{
    let ghost keys = ordered_map::views(all@);
    let ghost names = tokens.keys();
    let ghost f = |i: int| token_key_error(lock_key@, keys, names[i]);
    let n: usize = tokens.len();
    let mut i: usize = 0;
    while i < n
        invariant
            i <= n,
            n == tokens@.len(),
            names == tokens.keys(),
            names.len() == n,
            keys == ordered_map::views(all@),
            f == (|i: int| token_key_error(lock_key@, keys, names[i])),
            first_error(i as nat, f) is None,
        decreases n - i,
    {
        let key = tokens.key_at(i);
        proof {
            if first_error((i + 1) as nat, f) is Some {
                lemma_first_error((i + 1) as nat, n as nat, f);
            }
        }
        if !contains(all, key) {
            return Err(
                complain_of(lock_key, "` has granted token for unknown key `", key, "`"),
            );
        }
        i = i + 1;
    }
    Ok(())
}

/// Whether `remaining` and `granted` together are `all`. Both are parts of it.
fn partitions(all: &Vec<String>, remaining: &Vec<String>, granted: &Vec<String>) -> (r: bool)
    requires
        forall|k: Seq<char>| #[trigger]
            ordered_map::views(remaining@).contains(k) ==> ordered_map::views(all@).contains(k),
        forall|k: Seq<char>| #[trigger]
            ordered_map::views(granted@).contains(k) ==> ordered_map::views(all@).contains(k),
    ensures
        r == (ordered_map::views(remaining@).to_set().union(
            ordered_map::views(granted@).to_set(),
        ) == ordered_map::views(all@).to_set()),
{
    let ghost keys = ordered_map::views(all@);
    let ghost rest = ordered_map::views(remaining@);
    let ghost done = ordered_map::views(granted@);
    let mut i: usize = 0;
    while i < all.len()
        invariant
            i <= all@.len(),
            keys == ordered_map::views(all@),
            rest == ordered_map::views(remaining@),
            done == ordered_map::views(granted@),
            forall|j: int| 0 <= j < i ==> rest.contains(#[trigger] keys[j]) || done.contains(keys[j]),
        decreases all@.len() - i,
    {
        assert(keys[i as int] == all@[i as int]@);
        if !contains(remaining, &all[i]) && !contains(granted, &all[i]) {
            proof {
                assert(keys.to_set().contains(keys[i as int]));
                assert(!rest.to_set().contains(keys[i as int]));
                assert(!done.to_set().contains(keys[i as int]));
            }
            return false;
        }
        i = i + 1;
    }
    proof {
        assert(rest.to_set().union(done.to_set()) =~= keys.to_set()) by {
            assert forall|k: Seq<char>| rest.to_set().union(done.to_set()).contains(k)
                <==> keys.to_set().contains(k) by {
                assert(rest.to_set().contains(k) <==> rest.contains(k));
                assert(done.to_set().contains(k) <==> done.contains(k));
                assert(keys.to_set().contains(k) <==> keys.contains(k));
            }
        }
    }
    true
}

/// Whether the token keys are the granted keys.
fn tokens_match(tokens: &OrderedMap<String, u64>, granted: &Vec<String>) -> (r: bool)
    ensures
        r == (tokens@.dom() == ordered_map::views(granted@).to_set()),
{
    let ghost done = ordered_map::views(granted@);
    let mut i: usize = 0;
    while i < granted.len()
        invariant
            i <= granted@.len(),
            done == ordered_map::views(granted@),
            forall|j: int| 0 <= j < i ==> tokens@.dom().contains(#[trigger] done[j]),
        decreases granted@.len() - i,
    {
        assert(done[i as int] == granted@[i as int]@);
        if !tokens.contains_key(&granted[i]) {
            proof {
                assert(done.to_set().contains(done[i as int]));
            }
            return false;
        }
        i = i + 1;
    }
    let n: usize = tokens.len();
    let ghost names = tokens.keys();
    let mut i: usize = 0;
    while i < n
        invariant
            i <= n,
            n == tokens@.len(),
            names == tokens.keys(),
            names.len() == n,
            names.to_set() == tokens@.dom(),
            done == ordered_map::views(granted@),
            forall|j: int| 0 <= j < i ==> done.contains(#[trigger] names[j]),
        decreases n - i,
    {
        if !contains(granted, tokens.key_at(i)) {
            proof {
                assert(names.to_set().contains(names[i as int]));
                assert(!done.to_set().contains(names[i as int]));
            }
            return false;
        }
        i = i + 1;
    }
    proof {
        assert(tokens@.dom() =~= done.to_set()) by {
            assert forall|k: Seq<char>| tokens@.dom().contains(k) <==> done.to_set().contains(k) by {
                assert(names.to_set().contains(k) <==> names.contains(k));
                assert(done.to_set().contains(k) <==> done.contains(k));
            }
        }
    }
    true
}

/// Checks a request that waits for `lock_key`.
pub fn validate_broker_raft_waiter_snapshot(
    lock_key: &String,
    waiter: &BrokerRaftPendingRequestSnapshot,
) -> (r: Result<(), String>)
    ensures
        reports(r, waiter_error(lock_key@, waiter@)),
{
    if waiter.request_uuid.as_str().is_empty() {
        return Err(complain(lock_key, "` has an empty queued request uuid"));
    }
    if let Some(id) = &waiter.grant_lock_uuid {
        if id.as_str().is_empty() {
            assert(id@ =~= Seq::<char>::empty());
            return Err(complain(lock_key, "` has an empty queued grant lock uuid"));
        }
    }
    match &waiter.kind {
        BrokerRaftPendingKindSnapshot::Exclusive => Ok(()),
        BrokerRaftPendingKindSnapshot::Reader => Ok(()),
        BrokerRaftPendingKindSnapshot::Writer => Ok(()),
        BrokerRaftPendingKindSnapshot::Composite {
            all_keys,
            remaining_keys,
            granted_keys,
            granted_tokens,
            composite_lock_uuid,
        } => {
            let ghost all = ordered_map::views(all_keys@);
            let ghost rest = ordered_map::views(remaining_keys@);
            let ghost done = ordered_map::views(granted_keys@);
            if composite_lock_uuid.as_str().is_empty() {
                return Err(complain(lock_key, "` has an empty composite lock uuid"));
            }
            if all_keys.len() == 0 || all_keys.len() > MAX_COMPOSITE_KEYS {
                let count = text::decimal(all_keys.len() as u64);
                let complaint = text::join2(
                    "` has invalid composite key count ",
                    count.as_str(),
                );
                return Err(complain(lock_key, complaint.as_str()));
            }
            if remaining_keys.len() == 0 {
                return Err(
                    complain(lock_key, "` has a composite waiter with no remaining keys"),
                );
            }
            assert(rest[0] == remaining_keys@[0]@);
            if !(remaining_keys[0] == *lock_key) {
                return Err(complain(lock_key, "` has composite waiter queued on the wrong key"));
            }
            match validate_composite_keys(lock_key, all_keys) {
                Ok(_) => {},
                Err(e) => return Err(e),
            }
            match validate_remaining_keys(lock_key, all_keys, remaining_keys) {
                Ok(_) => {},
                Err(e) => return Err(e),
            }
            match validate_granted_keys(lock_key, all_keys, remaining_keys, granted_keys) {
                Ok(_) => {},
                Err(e) => return Err(e),
            }
            match validate_token_keys(lock_key, all_keys, granted_tokens) {
                Ok(_) => {},
                Err(e) => return Err(e),
            }
            proof {
                assert forall|k: Seq<char>| #[trigger] rest.contains(k) implies all.contains(k) by {
                    let i = choose|i: int| 0 <= i < rest.len() && rest[i] == k;
                    lemma_no_error(
                        rest.len(),
                        |i: int| remaining_key_error(lock_key@, all, rest, i),
                        i,
                    );
                }
                assert forall|k: Seq<char>| #[trigger] done.contains(k) implies all.contains(k) by {
                    let i = choose|i: int| 0 <= i < done.len() && done[i] == k;
                    lemma_no_error(
                        done.len(),
                        |i: int| granted_key_error(lock_key@, all, rest, done, i),
                        i,
                    );
                }
            }
            if !partitions(all_keys, remaining_keys, granted_keys) {
                return Err(complain(lock_key, "` composite waiter does not partition allKeys"));
            }
            if !tokens_match(granted_tokens, granted_keys) {
                return Err(
                    complain(
                        lock_key,
                        "` composite granted token keys do not match grantedKeys",
                    ),
                );
            }
            Ok(())
        },
    }
}

/// Where there is no first error, no item has one.
pub proof fn lemma_no_error(n: nat, f: spec_fn(int) -> Option<Seq<char>>, i: int)
    requires
        first_error(n, f) is None,
        0 <= i < n,
    ensures
        f(i) is None,
    decreases n,
{
    if i < n - 1 {
        lemma_no_error((n - 1) as nat, f, i);
    }
}

impl BrokerRaftLockSnapshot {
    /// Checks the exclusive holders, and notes their ids.
    fn validate_exclusive(&self, seen: &mut OrderedMap<String, bool>) -> (r: Result<(), String>)
        requires
            old(seen)@ == Map::<Seq<char>, bool>::empty(),
        ensures
            reports(
                r,
                first_error(self@.exclusive_holders.len(), |i: int| self@.exclusive_error(i)),
            ),
            r is Ok ==> forall|u: Seq<char>| #[trigger]
                final(seen)@.dom().contains(u) <==> self@.exclusive_among(
                    self@.exclusive_holders.len() as int,
                    u,
                ),
    {
        let ghost l = self@;
        let ghost f = |i: int| l.exclusive_error(i);
        let mut i: usize = 0;
        while i < self.exclusive_holders.len()
            invariant
                i <= self.exclusive_holders@.len(),
                l == self@,
                f == (|i: int| l.exclusive_error(i)),
                first_error(i as nat, f) is None,
                forall|u: Seq<char>| #[trigger]
                    seen@.dom().contains(u) <==> l.exclusive_among(i as int, u),
            decreases self.exclusive_holders@.len() - i,
        {
            let id = &self.exclusive_holders[i].lock_uuid;
            assert(l.exclusive_holders[i as int].lock_uuid == id@);
            proof {
                if first_error((i + 1) as nat, f) is Some {
                    lemma_first_error((i + 1) as nat, l.exclusive_holders.len(), f);
                }
            }
            if id.as_str().is_empty() {
                return Err(complain(&self.key, "` has an empty exclusive holder uuid"));
            }
            if seen.contains_key(id) {
                return Err(complain_of(&self.key, "` repeats holder uuid `", id, "`"));
            }
            let ghost before = seen@;
            seen.insert(id.clone(), true);
            proof {
                assert forall|u: Seq<char>| #[trigger] seen@.dom().contains(u)
                    <==> l.exclusive_among(i + 1, u) by {
                    if l.exclusive_among(i as int, u) {
                        let j = choose|j: int|
                            0 <= j < i && (#[trigger] l.exclusive_holders[j]).lock_uuid == u;
                        assert(0 <= j < i + 1);
                    }
                    if l.exclusive_among(i + 1, u) {
                        let j = choose|j: int|
                            0 <= j < i + 1 && (#[trigger] l.exclusive_holders[j]).lock_uuid == u;
                        if j < i {
                            assert(l.exclusive_among(i as int, u));
                        }
                    }
                    assert(l.exclusive_holders[i as int].lock_uuid == id@);
                }
            }
            i = i + 1;
        }
        Ok(())
    }

    /// Checks the readers, and notes their ids.
    fn validate_readers(&self, seen: &mut OrderedMap<String, bool>) -> (r: Result<(), String>)
        requires
            forall|u: Seq<char>| #[trigger]
                old(seen)@.dom().contains(u) <==> self@.exclusive_among(
                    self@.exclusive_holders.len() as int,
                    u,
                ),
        ensures
            reports(r, first_error(self@.readers.len(), |i: int| self@.reader_error(i))),
            r is Ok ==> forall|u: Seq<char>| #[trigger]
                final(seen)@.dom().contains(u) <==> self@.exclusive_among(
                    self@.exclusive_holders.len() as int,
                    u,
                ) || self@.reader_among(self@.readers.len() as int, u),
    {
        let ghost l = self@;
        let ghost n = l.exclusive_holders.len() as int;
        let ghost f = |i: int| l.reader_error(i);
        let mut i: usize = 0;
        while i < self.readers.len()
            invariant
                i <= self.readers@.len(),
                l == self@,
                n == l.exclusive_holders.len(),
                f == (|i: int| l.reader_error(i)),
                first_error(i as nat, f) is None,
                forall|u: Seq<char>| #[trigger]
                    seen@.dom().contains(u) <==> l.exclusive_among(n, u) || l.reader_among(
                        i as int,
                        u,
                    ),
            decreases self.readers@.len() - i,
        {
            let id = &self.readers[i].lock_uuid;
            assert(l.readers[i as int].lock_uuid == id@);
            proof {
                if first_error((i + 1) as nat, f) is Some {
                    lemma_first_error((i + 1) as nat, l.readers.len(), f);
                }
            }
            if id.as_str().is_empty() {
                return Err(complain(&self.key, "` has an empty reader uuid"));
            }
            if seen.contains_key(id) {
                return Err(complain_of(&self.key, "` repeats holder uuid `", id, "`"));
            }
            seen.insert(id.clone(), true);
            proof {
                assert forall|u: Seq<char>| #[trigger] seen@.dom().contains(u)
                    <==> l.exclusive_among(n, u) || l.reader_among(i + 1, u) by {
                    if l.reader_among(i as int, u) {
                        let j = choose|j: int|
                            0 <= j < i && (#[trigger] l.readers[j]).lock_uuid == u;
                        assert(0 <= j < i + 1);
                    }
                    if l.reader_among(i + 1, u) {
                        let j = choose|j: int|
                            0 <= j < i + 1 && (#[trigger] l.readers[j]).lock_uuid == u;
                        if j < i {
                            assert(l.reader_among(i as int, u));
                        }
                    }
                    assert(l.readers[i as int].lock_uuid == id@);
                }
            }
            i = i + 1;
        }
        Ok(())
    }

    /// Checks the queue.
    fn validate_queue(&self) -> (r: Result<(), String>)
        ensures
            reports(r, first_error(self@.queue.len(), |i: int| self@.queue_error(i))),
    {
        let ghost l = self@;
        let ghost f = |i: int| l.queue_error(i);
        let mut seen: OrderedMap<String, bool> = OrderedMap::new();
        let mut i: usize = 0;
        while i < self.queue.len()
            invariant
                i <= self.queue@.len(),
                l == self@,
                f == (|i: int| l.queue_error(i)),
                first_error(i as nat, f) is None,
                forall|u: Seq<char>| #[trigger]
                    seen@.dom().contains(u) <==> l.waiter_among(i as int, u),
            decreases self.queue@.len() - i,
        {
            let waiter = &self.queue[i];
            assert(l.queue[i as int] == waiter@);
            proof {
                if first_error((i + 1) as nat, f) is Some {
                    lemma_first_error((i + 1) as nat, l.queue.len(), f);
                }
            }
            match validate_broker_raft_waiter_snapshot(&self.key, waiter) {
                Ok(_) => {},
                Err(e) => return Err(e),
            }
            let id = &waiter.request_uuid;
            if seen.contains_key(id) {
                return Err(complain_of(&self.key, "` repeats queued request uuid `", id, "`"));
            }
            seen.insert(id.clone(), true);
            proof {
                assert forall|u: Seq<char>| #[trigger] seen@.dom().contains(u) <==> l.waiter_among(
                    i + 1,
                    u,
                ) by {
                    if l.waiter_among(i as int, u) {
                        let j = choose|j: int|
                            0 <= j < i && (#[trigger] l.queue[j]).request_uuid == u;
                        assert(0 <= j < i + 1);
                    }
                    if l.waiter_among(i + 1, u) {
                        let j = choose|j: int|
                            0 <= j < i + 1 && (#[trigger] l.queue[j]).request_uuid == u;
                        if j < i {
                            assert(l.waiter_among(i as int, u));
                        }
                    }
                    assert(l.queue[i as int].request_uuid == id@);
                }
            }
            i = i + 1;
        }
        Ok(())
    }

    /// Checks a lock, its key aside.
    fn validate(&self) -> (r: Result<(), String>)
        ensures
            reports(r, self@.error()),
    {
        if self.max == 0 {
            return Err(complain(&self.key, "` has invalid max=0"));
        }
        let mut seen: OrderedMap<String, bool> = OrderedMap::new();
        match self.validate_exclusive(&mut seen) {
            Ok(_) => {},
            Err(e) => return Err(e),
        }
        match self.validate_readers(&mut seen) {
            Ok(_) => {},
            Err(e) => return Err(e),
        }
        if let Some(writer) = &self.writer {
            if writer.lock_uuid.as_str().is_empty() {
                return Err(complain(&self.key, "` has an empty writer uuid"));
            }
            if seen.contains_key(&writer.lock_uuid) {
                return Err(
                    complain_of(&self.key, "` repeats holder uuid `", &writer.lock_uuid, "`"),
                );
            }
        }
        if self.idle && (self.exclusive_holders.len() > 0 || self.readers.len() > 0
            || self.writer.is_some() || self.queue.len() > 0) {
            return Err(complain(&self.key, "` is marked idle while it has active state"));
        }
        self.validate_queue()
    }

    /// Whether the key is held that way under that id.
    fn held_under(&self, lock_uuid: &String, kind: RwHoldKind) -> (r: bool)
        ensures
            r == self@.held_under(lock_uuid@, kind),
    {
        let ghost l = self@;
        match kind {
            RwHoldKind::Exclusive => {
                let mut i: usize = 0;
                while i < self.exclusive_holders.len()
                    invariant
                        i <= self.exclusive_holders@.len(),
                        l == self@,
                        kind == RwHoldKind::Exclusive,
                        forall|j: int|
                            0 <= j < i ==> (#[trigger] l.exclusive_holders[j]).lock_uuid
                                != lock_uuid@,
                    decreases self.exclusive_holders@.len() - i,
                {
                    assert(l.exclusive_holders[i as int] == self.exclusive_holders@[i as int]@);
                    if self.exclusive_holders[i].lock_uuid == *lock_uuid {
                        return true;
                    }
                    i = i + 1;
                }
                false
            },
            RwHoldKind::Read => {
                let mut i: usize = 0;
                while i < self.readers.len()
                    invariant
                        i <= self.readers@.len(),
                        l == self@,
                        kind == RwHoldKind::Read,
                        forall|j: int|
                            0 <= j < i ==> (#[trigger] l.readers[j]).lock_uuid != lock_uuid@,
                    decreases self.readers@.len() - i,
                {
                    assert(l.readers[i as int] == self.readers@[i as int]@);
                    if self.readers[i].lock_uuid == *lock_uuid {
                        return true;
                    }
                    i = i + 1;
                }
                false
            },
            RwHoldKind::Write => match &self.writer {
                Some(w) => w.lock_uuid == *lock_uuid,
                None => false,
            },
        }
    }
}

/// Whether the first lock with that key holds it that way under that id.
fn held_by_first(
    locks: &Vec<BrokerRaftLockSnapshot>,
    key: &String,
    lock_uuid: &String,
    kind: RwHoldKind,
) -> (r: bool)
    ensures
        r == held_in(ordered_map::views(locks@), key@, lock_uuid@, kind),
{
    let ghost all = ordered_map::views(locks@);
    let mut i: usize = 0;
    while i < locks.len()
        invariant
            i <= locks@.len(),
            all == ordered_map::views(locks@),
            !key_among(all, i as int, key@),
        decreases locks@.len() - i,
    {
        assert(all[i as int] == locks@[i as int]@);
        if locks[i].key == *key {
            let held = locks[i].held_under(lock_uuid, kind);
            proof {
                if held {
                    assert(all[i as int].key == key@);
                } else if held_in(all, key@, lock_uuid@, kind) {
                    let j = choose|j: int|
                        0 <= j < all.len() && (#[trigger] all[j]).key == key@ && !key_among(
                            all,
                            j,
                            key@,
                        ) && all[j].held_under(lock_uuid@, kind);
                    if j < i {
                        assert(key_among(all, i as int, key@));
                    }
                    if i < j {
                        assert(all[i as int].key == key@);
                        assert(key_among(all, j, key@));
                    }
                }
            }
            return held;
        }
        proof {
            if key_among(all, i + 1, key@) {
                let j = choose|j: int| 0 <= j < i + 1 && (#[trigger] all[j]).key == key@;
                if j < i {
                    assert(key_among(all, i as int, key@));
                }
            }
        }
        i = i + 1;
    }
    proof {
        if held_in(all, key@, lock_uuid@, kind) {
            let j = choose|j: int|
                0 <= j < all.len() && (#[trigger] all[j]).key == key@ && !key_among(all, j, key@)
                    && all[j].held_under(lock_uuid@, kind);
            assert(key_among(all, i as int, key@));
        }
    }
    false
}

/// Whether every key of the deadline is held by its holder.
pub fn snapshot_deadline_matches_locks(
    locks: &Vec<BrokerRaftLockSnapshot>,
    deadline: &BrokerRaftDeadlineSnapshot,
) -> (r: bool)
    ensures
        r == deadline_matches(ordered_map::views(locks@), deadline@),
{
    let ghost all = ordered_map::views(locks@);
    let ghost d = deadline@;
    let mut i: usize = 0;
    while i < deadline.keys.len()
        invariant
            i <= deadline.keys@.len(),
            all == ordered_map::views(locks@),
            d == deadline@,
            forall|j: int|
                0 <= j < i ==> held_in(all, #[trigger] d.keys[j], d.lock_uuid, d.kind),
        decreases deadline.keys@.len() - i,
    {
        assert(d.keys[i as int] == deadline.keys@[i as int]@);
        if !held_by_first(locks, &deadline.keys[i], &deadline.lock_uuid, deadline.kind) {
            return false;
        }
        i = i + 1;
    }
    true
}

/// Checks a deadline.
fn validate_deadline(
    locks: &Vec<BrokerRaftLockSnapshot>,
    deadline: &BrokerRaftDeadlineSnapshot,
) -> (r: Result<(), String>)
    ensures
        reports(r, deadline_error(ordered_map::views(locks@), deadline@)),
{
    if deadline.lock_uuid.as_str().is_empty() {
        return Err(String::from_str("broker snapshot deadline has an empty lock uuid"));
    }
    if deadline.keys.len() == 0 {
        return Err(
            text::join3(
                "broker snapshot deadline for `",
                deadline.lock_uuid.as_str(),
                "` has no keys",
            ),
        );
    }
    if contains(&deadline.keys, &String::new()) {
        return Err(
            text::join3(
                "broker snapshot deadline for `",
                deadline.lock_uuid.as_str(),
                "` contains an empty key",
            ),
        );
    }
    if !snapshot_deadline_matches_locks(locks, deadline) {
        return Err(
            text::join3(
                "broker snapshot deadline for `",
                deadline.lock_uuid.as_str(),
                "` does not match restored holder state",
            ),
        );
    }
    Ok(())
}

/// Checks the locks of a snapshot.
fn validate_locks(locks: &Vec<BrokerRaftLockSnapshot>) -> (r: Result<u64, String>)
    ensures
        ({
            let all = ordered_map::views(locks@);
            let error = first_error(all.len(), |i: int| lock_error(all, i));
            match r {
                Ok(n) => error is None && n == stats::capped(waiters_on(all, all.len())),
                Err(e) => error == Some(e@),
            }
        }),
{
    let ghost all = ordered_map::views(locks@);
    let ghost f = |i: int| lock_error(all, i);
    let mut keys: OrderedMap<String, bool> = OrderedMap::new();
    let mut waiters: u64 = 0;
    let mut i: usize = 0;
    while i < locks.len()
        invariant
            i <= locks@.len(),
            all == ordered_map::views(locks@),
            f == (|i: int| lock_error(all, i)),
            first_error(i as nat, f) is None,
            waiters == stats::capped(waiters_on(all, i as nat)),
            forall|k: Seq<char>| #[trigger]
                keys@.dom().contains(k) <==> key_among(all, i as int, k),
        decreases locks@.len() - i,
    {
        let lock = &locks[i];
        assert(all[i as int] == lock@);
        proof {
            if first_error((i + 1) as nat, f) is Some {
                lemma_first_error((i + 1) as nat, all.len(), f);
            }
        }
        if lock.key.as_str().is_empty() {
            return Err(String::from_str("broker snapshot contains an empty lock key"));
        }
        if keys.contains_key(&lock.key) {
            return Err(
                text::join3(
                    "broker snapshot contains duplicate lock key `",
                    lock.key.as_str(),
                    "`",
                ),
            );
        }
        keys.insert(lock.key.clone(), true);
        match lock.validate() {
            Ok(_) => {},
            Err(e) => return Err(e),
        }
        waiters = waiters.saturating_add(lock.queue.len() as u64);
        proof {
            assert forall|k: Seq<char>| #[trigger] keys@.dom().contains(k) <==> key_among(
                all,
                i + 1,
                k,
            ) by {
                if key_among(all, i as int, k) {
                    let j = choose|j: int| 0 <= j < i && (#[trigger] all[j]).key == k;
                    assert(0 <= j < i + 1);
                }
                if key_among(all, i + 1, k) {
                    let j = choose|j: int| 0 <= j < i + 1 && (#[trigger] all[j]).key == k;
                    if j < i {
                        assert(key_among(all, i as int, k));
                    }
                }
                assert(all[i as int].key == lock.key@);
            }
        }
        i = i + 1;
    }
    Ok(waiters)
}

/// Checks a snapshot.
pub fn validate_broker_raft_snapshot(snapshot: &BrokerRaftSnapshot) -> (r: Result<(), String>)
    ensures
        reports(r, snapshot@.error()),
{
    let ghost s = snapshot@;
    if snapshot.schema_version != 1 {
        let version = text::decimal(snapshot.schema_version as u64);
        return Err(
            text::join2("unsupported broker snapshot schema version ", version.as_str()),
        );
    }
    let waiters: u64 = match validate_locks(&snapshot.locks) {
        Ok(n) => n,
        Err(e) => return Err(e),
    };
    if snapshot.metrics.waiters != waiters {
        let told = text::decimal(snapshot.metrics.waiters);
        let queued = text::decimal(waiters);
        let mut message = text::join3(
            "broker snapshot waiters metric mismatch: metrics.waiters=",
            told.as_str(),
            " queued=",
        );
        message.append(queued.as_str());
        return Err(message);
    }
    let ghost f = |i: int| deadline_error(s.locks, s.deadlines[i]);
    let mut i: usize = 0;
    while i < snapshot.deadlines.len()
        invariant
            i <= snapshot.deadlines@.len(),
            s == snapshot@,
            f == (|i: int| deadline_error(s.locks, s.deadlines[i])),
            first_error(i as nat, f) is None,
            s.schema_version == 1,
            first_error(s.locks.len(), |i: int| lock_error(s.locks, i)) is None,
            s.metrics.waiters == stats::capped(waiters_on(s.locks, s.locks.len())),
        decreases snapshot.deadlines@.len() - i,
    {
        assert(s.deadlines[i as int] == snapshot.deadlines@[i as int]@);
        proof {
            if first_error((i + 1) as nat, f) is Some {
                lemma_first_error((i + 1) as nat, s.deadlines.len(), f);
            }
        }
        match validate_deadline(&snapshot.locks, &snapshot.deadlines[i]) {
            Ok(_) => {},
            Err(e) => return Err(e),
        }
        i = i + 1;
    }
    Ok(())
}

} // verus!
