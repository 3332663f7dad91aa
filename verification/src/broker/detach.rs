//! Turning holders into bearer tokens.

use crate::broker::release;
use crate::broker::types::{
    BrokerModel, BrokerState, ClientId, ClientModel, ExclusiveHolder, LockModel, LockState,
    RwModel, SNAPSHOT_DETACHED_CLIENT,
};
use crate::ordered_map;
use crate::ordered_map::OrderedMap;
use crate::queue;
use vstd::prelude::*;

verus! {

impl LockModel {
    /// The holder `lock_uuid` belongs to nobody.
    pub open spec fn disowned(self, lock_uuid: Seq<char>) -> LockModel {
        LockModel {
            exclusive_holders: if self.exclusive_holders.dom().contains(lock_uuid) {
                self.exclusive_holders.insert(
                    lock_uuid,
                    ExclusiveHolder {
                        client: SNAPSHOT_DETACHED_CLIENT,
                        ..self.exclusive_holders[lock_uuid]
                    },
                )
            } else {
                self.exclusive_holders
            },
            readers: if self.readers.dom().contains(lock_uuid) {
                self.readers.insert(
                    lock_uuid,
                    RwModel { client: SNAPSHOT_DETACHED_CLIENT, ..self.readers[lock_uuid] },
                )
            } else {
                self.readers
            },
            writer: match self.writer {
                Some(w) if w.lock_uuid == lock_uuid => Some(
                    RwModel { client: SNAPSHOT_DETACHED_CLIENT, ..w },
                ),
                other => other,
            },
            ..self
        }
    }
}

impl ClientModel {
    pub open spec fn without_held(self, lock_uuid: Seq<char>) -> ClientModel {
        ClientModel { held_lock_uuids: self.held_lock_uuids.remove(lock_uuid), ..self }
    }

    /// Holds nothing and waits for nothing.
    pub open spec fn spent(self) -> bool {
        self.held_lock_uuids.is_empty() && self.pending_request_uuids.len() == 0
    }
}

/// The connected owners of `lock_uuid`.
pub open spec fn owners_of(
    locks: Map<Seq<char>, LockModel>,
    lock_uuid: Seq<char>,
) -> spec_fn(ClientId) -> bool {
    |c: ClientId|
        c != SNAPSHOT_DETACHED_CLIENT && exists|k: Seq<char>| #[trigger]
            locks.dom().contains(k) && locks[k].owns(c, lock_uuid)
}

/// Owners lose `lock_uuid` from their books; one that has nothing left is
/// dropped.
pub open spec fn owners_dismissed(
    clients: Map<u64, ClientModel>,
    lock_uuid: Seq<char>,
    owner: spec_fn(ClientId) -> bool,
) -> Map<u64, ClientModel> {
    Map::new(
        |c: u64|
            clients.dom().contains(c) && !(owner(c) && clients[c].without_held(lock_uuid).spent()),
        |c: u64|
            if owner(c) {
                clients[c].without_held(lock_uuid)
            } else {
                clients[c]
            },
    )
}

impl BrokerModel {
    /// The holder `lock_uuid` becomes a bearer token on every key.
    pub open spec fn owner_detached(self, lock_uuid: Seq<char>) -> BrokerModel {
        BrokerModel {
            locks: self.locks.map_values(|l: LockModel| l.disowned(lock_uuid)),
            clients: owners_dismissed(self.clients, lock_uuid, owners_of(self.locks, lock_uuid)),
            ..self
        }
    }
}

impl LockState {
    /// Turns the holder `lock_uuid` into a bearer token and notes its owners.
    fn disown(&mut self, lock_uuid: &String, owners: &mut OrderedMap<u64, bool>)
        ensures
            final(self)@ == old(self)@.disowned(lock_uuid@),
            forall|c: u64| #[trigger]
                final(owners)@.dom().contains(c) <==> old(owners)@.dom().contains(c) || old(
                    self,
                )@.owns(c, lock_uuid@),
    {
        if let Some(holder) = self.exclusive_holders.get_mut(lock_uuid) {
            owners.insert(holder.client, true);
            holder.client = SNAPSHOT_DETACHED_CLIENT;
        }
        if let Some(holder) = self.readers.get_mut(lock_uuid) {
            owners.insert(holder.client, true);
            holder.client = SNAPSHOT_DETACHED_CLIENT;
        }
        if let Some(writer) = self.writer.as_mut() {
            if writer.lock_uuid == *lock_uuid {
                owners.insert(writer.client, true);
                writer.client = SNAPSHOT_DETACHED_CLIENT;
            }
        }
    }
}

impl BrokerState {
    /// Strikes `lock_uuid` off the books of `client` and leaves the lock alone.
    pub fn detach_lock_from_client(&mut self, client: ClientId, lock_uuid: &String)
        ensures
            final(self)@ == old(self)@.holder_untracked(client, lock_uuid@),
            final(self).minted == old(self).minted,
    {
        self.untrack_holder(client, lock_uuid);
    }

    /// Turns the holder `lock_uuid` into a bearer token.
    pub fn detach_lock_owner(&mut self, lock_uuid: &String)
        ensures
            final(self)@ == old(self)@.owner_detached(lock_uuid@),
            final(self).minted == old(self).minted,
    {
        let ghost start = self@;
        let ghost f = |l: LockModel| l.disowned(lock_uuid@);
        let mut owners: OrderedMap<u64, bool> = OrderedMap::new();
        let n: usize = self.locks.len();
        let ghost names = self.locks.keys();
        let mut i: usize = 0;
        assert(release::changed_on(start.locks, names.take(0), f) =~= start.locks);
        while i < n
            invariant
                i <= n,
                f == (|l: LockModel| l.disowned(lock_uuid@)),
                names == ordered_map::ascending_keys::<String>(start.locks.dom()),
                names.len() == n,
                names.no_duplicates(),
                names.to_set() == start.locks.dom(),
                start.locks.len() == n,
                self.minted == old(self).minted,
                self@ == (BrokerModel {
                    locks: release::changed_on(start.locks, names.take(i as int), f),
                    ..start
                }),
                forall|c: u64| #[trigger]
                    owners@.dom().contains(c) <==> exists|j: int|
                        0 <= j < i && (#[trigger] start.locks[names[j]]).owns(c, lock_uuid@),
            decreases n - i,
        {
            let ghost before = self@;
            let ghost done = names.take(i as int);
            let ghost next = names.take(i + 1);
            let ghost noted = owners@;
            proof {
                assert(next =~= done.push(names[i as int]));
                assert(self@.locks.dom() =~= start.locks.dom());
                assert(!done.contains(names[i as int])) by {
                    if done.contains(names[i as int]) {
                        let j = choose|j: int| 0 <= j < done.len() && done[j] == names[i as int];
                        assert(names[j] == names[i as int]);
                    }
                }
                assert(names.to_set().contains(names[i as int]));
            }
            let lock = self.locks.value_at_mut(i);
            lock.disown(lock_uuid, &mut owners);
            proof {
                assert(self@.locks =~= release::changed_on(start.locks, next, f)) by {
                    assert forall|k: Seq<char>| start.locks.dom().contains(k) implies
                        self@.locks[k] == release::changed_on(start.locks, next, f)[k] by {
                        queue::lemma_contains_push(done, names[i as int], k);
                    }
                }
                assert forall|c: u64| #[trigger] owners@.dom().contains(c) <==> exists|j: int|
                    0 <= j < i + 1 && (#[trigger] start.locks[names[j]]).owns(c, lock_uuid@) by {
                    if noted.dom().contains(c) {
                        let j = choose|j: int|
                            0 <= j < i && (#[trigger] start.locks[names[j]]).owns(c, lock_uuid@);
                        assert(0 <= j < i + 1);
                    }
                    if start.locks[names[i as int]].owns(c, lock_uuid@) {
                        assert(0 <= i < i + 1);
                    }
                }
            }
            i = i + 1;
        }
        let ghost owner = owners_of(start.locks, lock_uuid@);
        let m: usize = owners.len();
        let ghost ids = owners.keys();
        proof {
            assert(names.take(i as int) =~= names);
            assert(self@.locks =~= start.locks.map_values(f)) by {
                assert forall|k: Seq<char>| start.locks.dom().contains(k) implies names.contains(
                    k,
                ) by {
                    assert(names.to_set().contains(k));
                }
            }
            assert forall|c: u64| c != SNAPSHOT_DETACHED_CLIENT implies (#[trigger] owner(c)
                <==> ids.contains(c)) by {
                assert(ids.contains(c) <==> ids.to_set().contains(c));
                if owner(c) {
                    let k = choose|k: Seq<char>| #[trigger]
                        start.locks.dom().contains(k) && start.locks[k].owns(c, lock_uuid@);
                    assert(names.to_set().contains(k));
                    let j = choose|j: int| 0 <= j < names.len() && names[j] == k;
                    assert(start.locks[names[j]].owns(c, lock_uuid@));
                }
                if owners@.dom().contains(c) {
                    let j = choose|j: int|
                        0 <= j < i && (#[trigger] start.locks[names[j]]).owns(c, lock_uuid@);
                    assert(names.to_set().contains(names[j]));
                    assert(start.locks.dom().contains(names[j]));
                }
            }
            let none = |c: u64| c != SNAPSHOT_DETACHED_CLIENT && ids.take(0).contains(c);
            assert(owners_dismissed(start.clients, lock_uuid@, none) =~= start.clients);
        }
        let mut j: usize = 0;
        while j < m
            invariant
                j <= m,
                m == owners@.len(),
                ids == owners.keys(),
                ids.len() == m,
                ids.no_duplicates(),
                self.minted == old(self).minted,
                self@.locks == start.locks.map_values(f),
                self@ == (BrokerModel {
                    locks: self@.locks,
                    clients: owners_dismissed(
                        start.clients,
                        lock_uuid@,
                        |c: u64| c != SNAPSHOT_DETACHED_CLIENT && ids.take(j as int).contains(c),
                    ),
                    ..start
                }),
            decreases m - j,
        {
            let client = *owners.key_at(j);
            let ghost was = |c: u64|
                c != SNAPSHOT_DETACHED_CLIENT && ids.take(j as int).contains(c);
            let ghost is = |c: u64| c != SNAPSHOT_DETACHED_CLIENT && ids.take(j + 1).contains(c);
            proof {
                assert(ids.take(j + 1) =~= ids.take(j as int).push(client));
                assert forall|c: u64| #[trigger] is(c) <==> was(c) || (c == client && c
                    != SNAPSHOT_DETACHED_CLIENT) by {
                    queue::lemma_contains_push(ids.take(j as int), client, c);
                }
                assert(!ids.take(j as int).contains(client)) by {
                    if ids.take(j as int).contains(client) {
                        let x = choose|x: int|
                            0 <= x < j && ids.take(j as int)[x] == client;
                        assert(ids[x] == ids[j as int]);
                    }
                }
            }
            if client != SNAPSHOT_DETACHED_CLIENT {
                let spent = match self.clients.get_mut(&client) {
                    Some(handle) => {
                        let _ = handle.held_lock_uuids.remove(lock_uuid);
                        handle.held_lock_uuids.is_empty() && handle.pending_request_uuids.len() == 0
                    },
                    None => false,
                };
                if spent {
                    let _ = self.clients.remove(&client);
                }
            }
            proof {
                assert(self@.clients =~= owners_dismissed(start.clients, lock_uuid@, is));
            }
            j = j + 1;
        }
        proof {
            assert(ids.take(j as int) =~= ids);
            let named = |c: u64| c != SNAPSHOT_DETACHED_CLIENT && ids.contains(c);
            assert(named =~= owner);
        }
    }
}

} // verus!
