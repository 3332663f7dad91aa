//! Clients that come and go.

use crate::broker::model;
use crate::broker::model::Tape;
use crate::broker::release;
use crate::broker::types;
use crate::broker::types::{
    BrokerModel, BrokerState, ClientHandle, ClientId, ClientModel, Clock, HeldModel, KeysOfLock,
    LockModel, LockState, PendingModel, RwHoldKind,
};
use crate::ordered_map;
use crate::ordered_map::OrderedMap;
use crate::queue;
use vstd::prelude::*;

verus! {

/// How many steps lead from `from` to `to`, counting upward over the positive
/// ids and from the largest on to the smallest.
pub open spec fn id_distance(from: u64, to: u64) -> int {
    if to >= from {
        to - from
    } else {
        to + u64::MAX - from
    }
}

/// `id` is the first positive id from `from` on that is not taken.
pub open spec fn is_first_free(taken: Set<u64>, from: u64, id: u64) -> bool {
    &&& id >= 1
    &&& !taken.contains(id)
    &&& forall|x: u64|
        x >= 1 && id_distance(from, x) < id_distance(from, id) ==> #[trigger] taken.contains(x)
}

/// The first positive id from `from` on that is not taken.
pub open spec fn first_free(taken: Set<u64>, from: u64) -> u64 {
    choose|id: u64| is_first_free(taken, from, id)
}

/// There is but one first free id.
pub proof fn lemma_first_free(taken: Set<u64>, from: u64, id: u64)
    requires
        from >= 1,
        is_first_free(taken, from, id),
    ensures
        first_free(taken, from) == id,
{
    let c = first_free(taken, from);
    assert(is_first_free(taken, from, c));
    if id_distance(from, c) < id_distance(from, id) {
        assert(taken.contains(c));
    }
    if id_distance(from, id) < id_distance(from, c) {
        assert(taken.contains(id));
    }
}

impl LockModel {
    /// An exclusive holder that outlives its client.
    pub open spec fn kept(self, lock_uuid: Seq<char>) -> bool {
        self.exclusive_holders.dom().contains(lock_uuid)
            && self.exclusive_holders[lock_uuid].keep_locks_after_death
            && !self.exclusive_holders[lock_uuid].composite_member
    }

    /// The requests that `pending` lists for `key` leave the queue.
    pub open spec fn requests_dropped(
        self,
        key: Seq<char>,
        pending: Seq<(Seq<char>, Seq<char>)>,
    ) -> LockModel {
        LockModel {
            queue: self.queue.filter(
                |e: (Seq<char>, PendingModel)| !pending.contains((key, e.0)),
            ),
            ..self
        }
    }

    /// The holders among `ids` that hold `key` according to `held` are gone,
    /// but for those that outlive their client.
    pub open spec fn holders_dropped(
        self,
        key: Seq<char>,
        held: Map<Seq<char>, HeldModel>,
        ids: Set<Seq<char>>,
    ) -> LockModel {
        LockModel {
            exclusive_holders: self.exclusive_holders.remove_keys(
                Set::new(
                    |u: Seq<char>|
                        ids.contains(u) && covers(held, u, key, RwHoldKind::Exclusive)
                            && !self.kept(u),
                ),
            ),
            readers: self.readers.remove_keys(
                Set::new(
                    |u: Seq<char>| ids.contains(u) && covers(held, u, key, RwHoldKind::Read),
                ),
            ),
            writer: match self.writer {
                Some(w) if ids.contains(w.lock_uuid) && covers(
                    held,
                    w.lock_uuid,
                    key,
                    RwHoldKind::Write,
                ) => None,
                other => other,
            },
            ..self
        }
    }

    /// `client` neither holds nor awaits the key.
    pub open spec fn client_dropped(self, client: ClientId) -> LockModel {
        LockModel {
            exclusive_holders: self.exclusive_holders.remove_keys(
                Set::new(
                    |u: Seq<char>|
                        self.exclusive_holders.dom().contains(u)
                            && self.exclusive_holders[u].client == client,
                ),
            ),
            readers: self.readers.remove_keys(self.reads_of(client)),
            writer: match self.writer {
                Some(w) if w.client == client => None,
                other => other,
            },
            queue: self.queue.filter(|e: (Seq<char>, PendingModel)| e.1.client != client),
            ..self
        }
    }
}

/// `held` says that `lock_uuid` holds `key` that way.
pub open spec fn covers(
    held: Map<Seq<char>, HeldModel>,
    lock_uuid: Seq<char>,
    key: Seq<char>,
    kind: RwHoldKind,
) -> bool {
    held[lock_uuid].rw_kind == kind && held[lock_uuid].keys.contains(key)
}

impl BrokerModel {
    /// A client connects and gets the first free id from `preferred` on.
    pub open spec fn registered(self, preferred: ClientId) -> BrokerModel {
        let id = self.next_free_client(preferred);
        BrokerModel {
            next_client_id: model::token_after(id),
            clients: self.clients.insert(
                id,
                ClientModel {
                    held_lock_uuids: Map::empty(),
                    pending_request_uuids: Seq::empty(),
                },
            ),
            ..self
        }
    }

    /// The first free client id from `preferred` on.
    pub open spec fn next_free_client(self, preferred: ClientId) -> ClientId {
        first_free(self.clients.dom(), model::larger(preferred, 1))
    }

    /// The keys that a connected client leaves traces on.
    pub open spec fn keys_touched(self, c: ClientModel) -> Set<Seq<char>> {
        Set::new(
            |k: Seq<char>|
                (exists|u: Seq<char>| c.pending_request_uuids.contains((k, u))) || (
                self.locks.dom().contains(k) && exists|u: Seq<char>| #[trigger]
                    c.held_lock_uuids.dom().contains(u) && c.held_lock_uuids[u].keys.contains(k)
                        && !(c.held_lock_uuids[u].rw_kind == RwHoldKind::Exclusive
                        && self.locks[k].kept(u))),
        )
    }

    /// A connected client is gone: its requests leave the queues, and what it
    /// held is free, but for locks that outlive their client.
    pub open spec fn handle_dropped(self, client: ClientId) -> BrokerModel {
        let c = self.clients[client];
        BrokerModel {
            clients: self.clients.remove(client),
            locks: self.locks.map_entries(
                |k: Seq<char>, l: LockModel|
                    l.requests_dropped(k, c.pending_request_uuids).holders_dropped(
                        k,
                        c.held_lock_uuids,
                        c.held_lock_uuids.dom(),
                    ),
            ),
            ..self
        }
    }

    /// A client that is not connected here is gone from every key.
    pub open spec fn stranger_dropped(self, client: ClientId) -> BrokerModel {
        BrokerModel {
            locks: self.locks.map_values(|l: LockModel| l.client_dropped(client)),
            ..self
        }
    }

    /// The keys that a client holds or awaits.
    pub open spec fn keys_of_stranger(self, client: ClientId) -> Set<Seq<char>> {
        Set::new(
            |k: Seq<char>|
                self.locks.dom().contains(k) && self.locks[k].client_dropped(client)
                    != self.locks[k],
        )
    }

    /// A client is dropped, and waiters on the keys it leaves are granted, in
    /// ascending key order.
    pub open spec fn client_dropped(
        self,
        client: ClientId,
        clock: Clock,
        tape: Tape,
    ) -> BrokerModel {
        if self.clients.dom().contains(client) {
            let touched = self.keys_touched(self.clients[client]);
            self.handle_dropped(client).settled(
                ordered_map::ascending_keys::<String>(touched).reverse(),
                clock,
                tape,
            )
        } else {
            self.stranger_dropped(client).settled(
                ordered_map::ascending_keys::<String>(self.keys_of_stranger(client)).reverse(),
                clock,
                tape,
            )
        }
    }
}

impl BrokerState {
    /// The first free client id from `preferred` on.
    fn next_available_client_id(&self, preferred: ClientId) -> (r: ClientId)
        requires
            self@.clients.len() < u64::MAX,
        ensures
            r == self@.next_free_client(preferred),
            r >= 1,
            !self@.clients.dom().contains(r),
    {
        let from: u64 = if preferred < 1 {
            1
        } else {
            preferred
        };
        let ghost taken = self@.clients.dom();
        let ghost mut seen: Set<u64> = Set::empty();
        let mut id: u64 = from;
        let _ = self.clients.len();
        while self.clients.contains_key(&id)
            invariant
                taken == self@.clients.dom(),
                taken.finite(),
                taken.len() < u64::MAX,
                from >= 1,
                id >= 1,
                seen.finite(),
                seen.subset_of(taken),
                seen.len() == id_distance(from, id),
                forall|x: u64|
                    #![trigger seen.contains(x)]
                    x >= 1 && id_distance(from, x) < id_distance(from, id) <==> seen.contains(x),
            decreases u64::MAX - id_distance(from, id),
        {
            proof {
                vstd::set_lib::lemma_len_subset(seen.insert(id), taken);
                assert(!seen.contains(id));
            }
            let ghost before = id;
            let ghost passed = seen;
            id = if id == u64::MAX {
                1
            } else {
                id + 1
            };
            proof {
                seen = passed.insert(before);
                assert(id_distance(from, id) == id_distance(from, before) + 1);
                assert forall|x: u64|
                    x >= 1 && id_distance(from, x) < id_distance(from, id) <==> #[trigger]
                    seen.contains(x) by {
                    if id_distance(from, x) == id_distance(from, before) && x >= 1 {
                        assert(x == before);
                    }
                    assert(passed.contains(x) <==> x >= 1 && id_distance(from, x) < id_distance(
                        from,
                        before,
                    ));
                }
            }
        }
        proof {
            assert forall|x: u64|
                x >= 1 && id_distance(from, x) < id_distance(from, id) implies #[trigger]
                taken.contains(x) by {
                assert(seen.contains(x));
            }
            lemma_first_free(taken, from, id);
        }
        id
    }

    /// Registers a client under the first free id from `preferred` on.
    pub fn register_client_with_id(&mut self, preferred: ClientId) -> (r: ClientId)
        requires
            old(self)@.clients.len() < u64::MAX,
        ensures
            r == old(self)@.next_free_client(preferred),
            r >= 1,
            !old(self)@.clients.dom().contains(r),
            final(self)@ == old(self)@.registered(preferred),
            final(self).minted == old(self).minted,
    {
        let ghost start = self@;
        let id: u64 = self.next_available_client_id(preferred);
        self.next_client_id = if id == u64::MAX {
            1
        } else {
            id + 1
        };
        let handle = ClientHandle {
            held_lock_uuids: OrderedMap::new(),
            pending_request_uuids: Vec::new(),
        };
        assert(handle@.pending_request_uuids =~= Seq::<(Seq<char>, Seq<char>)>::empty());
        self.clients.insert(id, handle);
        id
    }

    /// Registers a client.
    pub fn register_client(&mut self) -> (r: ClientId)
        requires
            old(self)@.clients.len() < u64::MAX,
        ensures
            r == old(self)@.next_free_client(old(self).next_client_id),
            r >= 1,
            !old(self)@.clients.dom().contains(r),
            final(self)@ == old(self)@.registered(old(self).next_client_id),
            final(self).minted == old(self).minted,
    {
        self.register_client_with_id(self.next_client_id)
    }
}

/// A request fewer in the queue.
proof fn lemma_requests_dropped_push(
    l: LockModel,
    key: Seq<char>,
    pending: Seq<(Seq<char>, Seq<char>)>,
    other: Seq<char>,
    uuid: Seq<char>,
)
    ensures
        l.requests_dropped(key, pending.push((other, uuid))).queue == if key == other {
            queue::without(l.requests_dropped(key, pending).queue, uuid)
        } else {
            l.requests_dropped(key, pending).queue
        },
{
    let more = pending.push((other, uuid));
    let p = |e: (Seq<char>, PendingModel)| !pending.contains((key, e.0));
    let r = |e: (Seq<char>, PendingModel)| !more.contains((key, e.0));
    assert forall|e: (Seq<char>, PendingModel)| #[trigger] r(e) <==> p(e) && !(key == other && e.0
        == uuid) by {
        queue::lemma_contains_push(pending, (other, uuid), (key, e.0));
    }
    if key == other {
        let q = |e: (Seq<char>, PendingModel)| e.0 != uuid;
        assert forall|e: (Seq<char>, PendingModel)| #[trigger] r(e) <==> p(e) && q(e) by {
            assert(r(e) <==> p(e) && !(key == other && e.0 == uuid));
        }
        queue::lemma_filter_twice(l.queue, p, q, r);
        assert(l.requests_dropped(key, more).queue == l.queue.filter(r));
        assert(l.requests_dropped(key, pending).queue == l.queue.filter(p));
        queue::lemma_without_filter(l.queue.filter(p), uuid, q);
    } else {
        assert forall|i: int| 0 <= i < l.queue.len() implies p(#[trigger] l.queue[i]) == r(
            l.queue[i],
        ) by {
            assert(r(l.queue[i]) <==> p(l.queue[i]) && !(key == other && l.queue[i].0 == uuid));
        }
        queue::lemma_filter_same(l.queue, p, r);
    }
}

impl BrokerState {
    /// Takes the requests that `pending` lists out of the queues.
    fn drop_requests(
        &mut self,
        pending: &Vec<(String, String)>,
        touched: &mut OrderedMap<String, bool>,
    )
        ensures
            final(self).minted == old(self).minted,
            final(self)@ == (BrokerModel {
                locks: old(self)@.locks.map_entries(
                    |k: Seq<char>, l: LockModel|
                        l.requests_dropped(k, types::shown_pairs(pending@)),
                ),
                ..old(self)@
            }),
            forall|k: Seq<char>| #[trigger]
                final(touched)@.dom().contains(k) <==> old(touched)@.dom().contains(k) || exists|
                    u: Seq<char>,
                |
                    types::shown_pairs(pending@).contains((k, u)),
    {
        let ghost start = self@;
        let ghost pairs = types::shown_pairs(pending@);
        let ghost before = touched@;
        let mut i: usize = 0;
        proof {
            let f = |k: Seq<char>, l: LockModel| l.requests_dropped(k, pairs.take(0));
            assert forall|k: Seq<char>| start.locks.dom().contains(k) implies f(k, start.locks[k])
                == start.locks[k] by {
                let l = start.locks[k];
                queue::lemma_filter_keeps_all(
                    l.queue,
                    |e: (Seq<char>, PendingModel)| !pairs.take(0).contains((k, e.0)),
                );
            }
            assert(start.locks.map_entries(f) =~= start.locks);
        }
        while i < pending.len()
            invariant
                i <= pending@.len(),
                pairs == types::shown_pairs(pending@),
                self.minted == old(self).minted,
                self@ == (BrokerModel {
                    locks: start.locks.map_entries(
                        |k: Seq<char>, l: LockModel|
                            l.requests_dropped(k, pairs.take(i as int)),
                    ),
                    ..start
                }),
                forall|k: Seq<char>| #[trigger]
                    touched@.dom().contains(k) <==> before.dom().contains(k) || exists|
                        u: Seq<char>,
                    |
                        pairs.take(i as int).contains((k, u)),
            decreases pending@.len() - i,
        {
            let key = &pending[i].0;
            let uuid = &pending[i].1;
            let ghost done = pairs.take(i as int);
            let ghost next = pairs.take(i + 1);
            let ghost now = self@;
            let ghost noted = touched@;
            assert(next =~= done.push((key@, uuid@)));
            if let Some(lock) = self.locks.get_mut(key) {
                let _ = lock.queue.remove(uuid);
            }
            touched.insert(key.clone(), true);
            proof {
                let f = |k: Seq<char>, l: LockModel| l.requests_dropped(k, next);
                assert(self@.locks =~= start.locks.map_entries(f)) by {
                    assert forall|k: Seq<char>| start.locks.dom().contains(k) implies
                        self@.locks[k] == start.locks.map_entries(f)[k] by {
                        lemma_requests_dropped_push(start.locks[k], k, done, key@, uuid@);
                    }
                }
                assert forall|k: Seq<char>| #[trigger] touched@.dom().contains(k)
                    <==> before.dom().contains(k) || exists|u: Seq<char>| next.contains((k, u)) by {
                    if noted.dom().contains(k) && !before.dom().contains(k) {
                        let u = choose|u: Seq<char>| done.contains((k, u));
                        queue::lemma_contains_push(done, (key@, uuid@), (k, u));
                        assert(next.contains((k, u)));
                    }
                    if k == key@ {
                        queue::lemma_contains_push(done, (key@, uuid@), (k, uuid@));
                        assert(next.contains((k, uuid@)));
                    }
                    if exists|u: Seq<char>| next.contains((k, u)) {
                        let u = choose|u: Seq<char>| next.contains((k, u));
                        queue::lemma_contains_push(done, (key@, uuid@), (k, u));
                    }
                }
            }
            i = i + 1;
        }
        assert(pairs.take(i as int) =~= pairs);
    }
}

/// One held lock is let go on a key.
pub open spec fn let_go(l: LockModel, lock_uuid: Seq<char>, kind: RwHoldKind) -> LockModel {
    match kind {
        RwHoldKind::Exclusive => if l.kept(lock_uuid) {
            l
        } else {
            LockModel { exclusive_holders: l.exclusive_holders.remove(lock_uuid), ..l }
        },
        RwHoldKind::Read => LockModel { readers: l.readers.remove(lock_uuid), ..l },
        RwHoldKind::Write => LockModel {
            writer: match l.writer {
                Some(w) if w.lock_uuid == lock_uuid => None,
                other => other,
            },
            ..l
        },
    }
}

proof fn lemma_let_go_twice(l: LockModel, lock_uuid: Seq<char>, kind: RwHoldKind)
    ensures
        let_go(let_go(l, lock_uuid, kind), lock_uuid, kind) == let_go(l, lock_uuid, kind),
        kind == RwHoldKind::Exclusive ==> (let_go(l, lock_uuid, kind).kept(lock_uuid) <==> l.kept(
            lock_uuid,
        )),
{
    assert(let_go(let_go(l, lock_uuid, kind), lock_uuid, kind) =~= let_go(l, lock_uuid, kind));
}

proof fn lemma_holders_dropped_more(
    l: LockModel,
    key: Seq<char>,
    held: Map<Seq<char>, HeldModel>,
    ids: Set<Seq<char>>,
    id: Seq<char>,
)
    requires
        !ids.contains(id),
    ensures
        l.holders_dropped(key, held, ids.insert(id)) == if held[id].keys.contains(key) {
            let_go(l.holders_dropped(key, held, ids), id, held[id].rw_kind)
        } else {
            l.holders_dropped(key, held, ids)
        },
        l.holders_dropped(key, held, ids).kept(id) == l.kept(id),
{
    let a = l.holders_dropped(key, held, ids.insert(id));
    let b = l.holders_dropped(key, held, ids);
    let c = if held[id].keys.contains(key) {
        let_go(b, id, held[id].rw_kind)
    } else {
        b
    };
    assert(b.kept(id) == l.kept(id));
    assert(a.exclusive_holders =~= c.exclusive_holders);
    assert(a.readers =~= c.readers);
}

impl LockState {
    /// Lets one held lock go. Tells whether it was not kept.
    fn release_held(&mut self, lock_uuid: &String, kind: RwHoldKind) -> (r: bool)
        ensures
            final(self)@ == let_go(old(self)@, lock_uuid@, kind),
            r == !(kind == RwHoldKind::Exclusive && old(self)@.kept(lock_uuid@)),
    {
        match kind {
            RwHoldKind::Exclusive => {
                if let Some(holder) = self.exclusive_holders.get(lock_uuid) {
                    if holder.keep_locks_after_death && !holder.composite_member {
                        return false;
                    }
                }
                let _ = self.exclusive_holders.remove(lock_uuid);
            },
            RwHoldKind::Read => {
                let _ = self.readers.remove(lock_uuid);
            },
            RwHoldKind::Write => {
                let mine = match &self.writer {
                    Some(w) => w.lock_uuid == *lock_uuid,
                    None => false,
                };
                if mine {
                    self.writer = None;
                }
            },
        }
        true
    }
}

impl BrokerState {
    /// Lets one held lock go on each of its keys.
    fn drop_held(
        &mut self,
        lock_uuid: &String,
        held: &KeysOfLock,
        touched: &mut OrderedMap<String, bool>,
    )
        ensures
            final(self).minted == old(self).minted,
            final(self)@ == (BrokerModel {
                locks: release::changed_on(
                    old(self)@.locks,
                    held@.keys,
                    |l: LockModel| let_go(l, lock_uuid@, held.rw_kind),
                ),
                ..old(self)@
            }),
            forall|k: Seq<char>| #[trigger]
                final(touched)@.dom().contains(k) <==> old(touched)@.dom().contains(k) || (old(
                    self,
                )@.locks.dom().contains(k) && held@.keys.contains(k) && !(held.rw_kind
                    == RwHoldKind::Exclusive && old(self)@.locks[k].kept(lock_uuid@))),
    {
        let ghost start = self@;
        let ghost all = held@.keys;
        let ghost kind = held.rw_kind;
        let ghost f = |l: LockModel| let_go(l, lock_uuid@, kind);
        let ghost before = touched@;
        let mut i: usize = 0;
        assert(release::changed_on(start.locks, all.take(0), f) =~= start.locks);
        while i < held.keys.len()
            invariant
                i <= held.keys@.len(),
                all == held@.keys,
                kind == held.rw_kind,
                f == (|l: LockModel| let_go(l, lock_uuid@, kind)),
                self.minted == old(self).minted,
                self@ == (BrokerModel {
                    locks: release::changed_on(start.locks, all.take(i as int), f),
                    ..start
                }),
                forall|k: Seq<char>| #[trigger]
                    touched@.dom().contains(k) <==> before.dom().contains(k) || (
                    start.locks.dom().contains(k) && all.take(i as int).contains(k) && !(kind
                        == RwHoldKind::Exclusive && start.locks[k].kept(lock_uuid@))),
            decreases held.keys@.len() - i,
        {
            let key = &held.keys[i];
            let ghost done = all.take(i as int);
            let ghost next = all.take(i + 1);
            proof {
                assert(next =~= done.push(key@));
                assert(self@.locks.dom() =~= start.locks.dom());
                if start.locks.dom().contains(key@) {
                    lemma_let_go_twice(start.locks[key@], lock_uuid@, kind);
                }
            }
            if let Some(lock) = self.locks.get_mut(key) {
                if lock.release_held(lock_uuid, held.rw_kind) {
                    touched.insert(key.clone(), true);
                }
            }
            proof {
                assert(self@.locks =~= release::changed_on(start.locks, next, f)) by {
                    assert forall|k: Seq<char>| start.locks.dom().contains(k) implies
                        self@.locks[k] == release::changed_on(start.locks, next, f)[k] by {
                        queue::lemma_contains_push(done, key@, k);
                    }
                }
                assert forall|k: Seq<char>| #[trigger] touched@.dom().contains(k)
                    <==> before.dom().contains(k) || (start.locks.dom().contains(k)
                    && next.contains(k) && !(kind == RwHoldKind::Exclusive && start.locks[k].kept(
                    lock_uuid@,
                ))) by {
                    queue::lemma_contains_push(done, key@, k);
                }
            }
            i = i + 1;
        }
        assert(all.take(i as int) =~= all);
    }

    /// Lets everything go that `held` lists.
    fn drop_all_held(
        &mut self,
        held: &OrderedMap<String, KeysOfLock>,
        touched: &mut OrderedMap<String, bool>,
    )
        ensures
            final(self).minted == old(self).minted,
            final(self)@ == (BrokerModel {
                locks: old(self)@.locks.map_entries(
                    |k: Seq<char>, l: LockModel| l.holders_dropped(k, held@, held@.dom()),
                ),
                ..old(self)@
            }),
            forall|k: Seq<char>| #[trigger]
                final(touched)@.dom().contains(k) <==> old(touched)@.dom().contains(k) || (old(
                    self,
                )@.locks.dom().contains(k) && exists|u: Seq<char>| #[trigger]
                    held@.dom().contains(u) && held@[u].keys.contains(k) && !(held@[u].rw_kind
                        == RwHoldKind::Exclusive && old(self)@.locks[k].kept(u))),
    {
        let ghost start = self@;
        let ghost before = touched@;
        let ghost h = held@;
        let n: usize = held.len();
        let ghost names = held.keys();
        let mut i: usize = 0;
        proof {
            assert(names.take(0).to_set() =~= Set::empty());
            let f = |k: Seq<char>, l: LockModel|
                l.holders_dropped(k, h, names.take(0).to_set());
            assert forall|k: Seq<char>| start.locks.dom().contains(k) implies f(k, start.locks[k])
                == start.locks[k] by {
                let l = start.locks[k];
                assert(f(k, l).exclusive_holders =~= l.exclusive_holders);
                assert(f(k, l).readers =~= l.readers);
            }
            assert(start.locks.map_entries(f) =~= start.locks);
        }
        while i < n
            invariant
                i <= n,
                h == held@,
                n == h.len(),
                names == held.keys(),
                names.len() == n,
                names.no_duplicates(),
                names.to_set() == h.dom(),
                self.minted == old(self).minted,
                self@ == (BrokerModel {
                    locks: start.locks.map_entries(
                        |k: Seq<char>, l: LockModel|
                            l.holders_dropped(k, h, names.take(i as int).to_set()),
                    ),
                    ..start
                }),
                forall|k: Seq<char>| #[trigger]
                    touched@.dom().contains(k) <==> before.dom().contains(k) || (
                    start.locks.dom().contains(k) && exists|j: int|
                        0 <= j < i && h[#[trigger] names[j]].keys.contains(k) && !(
                        h[names[j]].rw_kind == RwHoldKind::Exclusive && start.locks[k].kept(
                            names[j],
                        ))),
            decreases n - i,
        {
            let id = held.key_at(i);
            let entry = held.value_at(i);
            let ghost done = names.take(i as int).to_set();
            let ghost next = names.take(i + 1).to_set();
            let ghost now = self@;
            let ghost noted = touched@;
            proof {
                assert(names.take(i + 1) =~= names.take(i as int).push(id@));
                names.take(i as int).lemma_push_to_set_commute(id@);
                assert(next =~= done.insert(id@));
                assert(!done.contains(id@)) by {
                    if done.contains(id@) {
                        let j = choose|j: int|
                            0 <= j < i && names.take(i as int)[j] == id@;
                        assert(names[j] == names[i as int]);
                    }
                }
            }
            self.drop_held(id, entry, touched);
            proof {
                let f = |k: Seq<char>, l: LockModel| l.holders_dropped(k, h, next);
                assert(self@.locks =~= start.locks.map_entries(f)) by {
                    assert forall|k: Seq<char>| start.locks.dom().contains(k) implies
                        self@.locks[k] == start.locks.map_entries(f)[k] by {
                        lemma_holders_dropped_more(start.locks[k], k, h, done, id@);
                    }
                }
                assert forall|k: Seq<char>| #[trigger] touched@.dom().contains(k)
                    <==> before.dom().contains(k) || (start.locks.dom().contains(k) && exists|
                    j: int,
                |
                    0 <= j < i + 1 && h[#[trigger] names[j]].keys.contains(k) && !(
                    h[names[j]].rw_kind == RwHoldKind::Exclusive && start.locks[k].kept(
                        names[j],
                    ))) by {
                    if start.locks.dom().contains(k) {
                        lemma_holders_dropped_more(start.locks[k], k, h, done, id@);
                    }
                    if noted.dom().contains(k) && !before.dom().contains(k) {
                        let j = choose|j: int|
                            0 <= j < i && h[#[trigger] names[j]].keys.contains(k) && !(
                            h[names[j]].rw_kind == RwHoldKind::Exclusive && start.locks[k].kept(
                                names[j],
                            ));
                        assert(0 <= j < i + 1 && h[names[j]].keys.contains(k));
                    }
                    if touched@.dom().contains(k) && !noted.dom().contains(k) {
                        assert(h[names[i as int]].keys.contains(k));
                    }
                    if exists|j: int|
                        0 <= j < i + 1 && h[#[trigger] names[j]].keys.contains(k) && !(
                        h[names[j]].rw_kind == RwHoldKind::Exclusive && start.locks[k].kept(
                            names[j],
                        )) {
                        let j = choose|j: int|
                            0 <= j < i + 1 && h[#[trigger] names[j]].keys.contains(k) && !(
                            h[names[j]].rw_kind == RwHoldKind::Exclusive && start.locks[k].kept(
                                names[j],
                            ));
                        if j < i {
                            assert(0 <= j < i && h[names[j]].keys.contains(k));
                        }
                    }
                }
            }
            i = i + 1;
        }
        proof {
            assert(names.take(i as int) =~= names);
            assert forall|k: Seq<char>| #[trigger] touched@.dom().contains(k)
                <==> before.dom().contains(k) || (start.locks.dom().contains(k) && exists|
                u: Seq<char>,
            | #[trigger]
                h.dom().contains(u) && h[u].keys.contains(k) && !(h[u].rw_kind
                    == RwHoldKind::Exclusive && start.locks[k].kept(u))) by {
                if exists|j: int|
                    0 <= j < i && h[#[trigger] names[j]].keys.contains(k) && !(
                    h[names[j]].rw_kind == RwHoldKind::Exclusive && start.locks[k].kept(
                        names[j],
                    )) {
                    let j = choose|j: int|
                        0 <= j < i && h[#[trigger] names[j]].keys.contains(k) && !(
                        h[names[j]].rw_kind == RwHoldKind::Exclusive && start.locks[k].kept(
                            names[j],
                        ));
                    assert(names.to_set().contains(names[j]));
                    assert(h.dom().contains(names[j]));
                }
                if exists|u: Seq<char>| #[trigger]
                    h.dom().contains(u) && h[u].keys.contains(k) && !(h[u].rw_kind
                        == RwHoldKind::Exclusive && start.locks[k].kept(u)) {
                    let u = choose|u: Seq<char>| #[trigger]
                        h.dom().contains(u) && h[u].keys.contains(k) && !(h[u].rw_kind
                            == RwHoldKind::Exclusive && start.locks[k].kept(u));
                    assert(names.to_set().contains(u));
                    let j = choose|j: int| 0 <= j < names.len() && names[j] == u;
                    assert(h[names[j]].keys.contains(k));
                }
            }
        }
    }
}

impl LockState {
    /// The request ids under which `client` waits.
    fn requests_of(&self, client: ClientId) -> (r: Vec<String>)
        ensures
            queue::unique_keys(self@.queue),
            forall|i: int|
                0 <= i < self@.queue.len() ==> (ordered_map::views(r@).contains(
                    (#[trigger] self@.queue[i]).0,
                ) <==> self@.queue[i].1.client == client),
            r@.len() > 0 <==> exists|i: int|
                0 <= i < self@.queue.len() && (#[trigger] self@.queue[i]).1.client == client,
    {
        let ghost q = self@.queue;
        let n: usize = self.queue.len();
        let mut ids: Vec<String> = Vec::new();
        let mut i: usize = 0;
        while i < n
            invariant
                i <= n,
                q == self@.queue,
                n == q.len(),
                queue::unique_keys(q),
                forall|j: int|
                    0 <= j < n ==> (ordered_map::views(ids@).contains((#[trigger] q[j]).0) <==> j
                        < i && q[j].1.client == client),
                ids@.len() > 0 <==> exists|j: int|
                    0 <= j < i && (#[trigger] q[j]).1.client == client,
            decreases n - i,
        {
            let (id, pending) = self.queue.entry_at(i);
            let ghost before = ids@;
            if pending.client == client {
                ids.push(id.clone());
            }
            proof {
                let was = ordered_map::views(before);
                let is = ordered_map::views(ids@);
                assert forall|j: int| 0 <= j < n implies (is.contains((#[trigger] q[j]).0) <==> j
                    < i + 1 && q[j].1.client == client) by {
                    if ids@.len() > before.len() {
                        assert(is =~= was.push(id@));
                        queue::lemma_contains_push(was, id@, q[j].0);
                    } else {
                        assert(is =~= was);
                    }
                    if j != i {
                        assert(q[j].0 != q[i as int].0);
                    }
                }
                if ids@.len() > before.len() {
                    assert(q[i as int].1.client == client);
                } else if ids@.len() > 0 {
                    let j = choose|j: int| 0 <= j < i && (#[trigger] q[j]).1.client == client;
                    assert(0 <= j < i + 1);
                }
            }
            i = i + 1;
        }
        ids
    }

    /// The ids under which `client` holds the key exclusively.
    fn exclusive_ids_of(&self, client: ClientId) -> (r: Vec<String>)
        ensures
            forall|u: Seq<char>| #[trigger]
                ordered_map::views(r@).contains(u) <==> self@.exclusive_holders.dom().contains(u)
                    && self@.exclusive_holders[u].client == client,
    {
        let ghost l = self@;
        let ghost names = self.exclusive_holders.keys();
        let mut ids: Vec<String> = Vec::new();
        let n: usize = self.exclusive_holders.len();
        let mut i: usize = 0;
        while i < n
            invariant
                i <= n,
                self@ == l,
                n == l.exclusive_holders.len(),
                names == self.exclusive_holders.keys(),
                names.len() == n,
                forall|u: Seq<char>| #[trigger]
                    ordered_map::views(ids@).contains(u) <==> l.exclusive_holders[u].client
                        == client && names.take(i as int).contains(u),
            decreases n - i,
        {
            let id = self.exclusive_holders.key_at(i);
            let ghost before = ids@;
            if self.exclusive_holders.value_at(i).client == client {
                ids.push(id.clone());
            }
            proof {
                let was = ordered_map::views(before);
                let is = ordered_map::views(ids@);
                assert(names.take(i + 1) =~= names.take(i as int).push(id@));
                assert forall|u: Seq<char>| #[trigger] is.contains(u)
                    <==> l.exclusive_holders[u].client == client && names.take(i + 1).contains(
                    u,
                ) by {
                    queue::lemma_contains_push(names.take(i as int), id@, u);
                    if ids@.len() > before.len() {
                        assert(is =~= was.push(id@));
                        queue::lemma_contains_push(was, id@, u);
                    } else {
                        assert(is =~= was);
                    }
                }
            }
            i = i + 1;
        }
        proof {
            assert(names.take(i as int) =~= names);
            assert forall|u: Seq<char>| names.contains(u) <==> #[trigger]
                l.exclusive_holders.dom().contains(u) by {
                assert(names.to_set().contains(u) <==> names.contains(u));
            }
        }
        ids
    }

    /// The ids under which `client` reads the key.
    pub fn reader_ids_of(&self, client: ClientId) -> (r: Vec<String>)
        ensures
            forall|u: Seq<char>| #[trigger]
                ordered_map::views(r@).contains(u) <==> self@.readers.dom().contains(u)
                    && self@.readers[u].client == client,
    {
        let ghost l = self@;
        let ghost names = self.readers.keys();
        let mut ids: Vec<String> = Vec::new();
        let n: usize = self.readers.len();
        let mut i: usize = 0;
        while i < n
            invariant
                i <= n,
                self@ == l,
                n == l.readers.len(),
                names == self.readers.keys(),
                names.len() == n,
                forall|u: Seq<char>| #[trigger]
                    ordered_map::views(ids@).contains(u) <==> l.readers[u].client == client
                        && names.take(i as int).contains(u),
            decreases n - i,
        {
            let id = self.readers.key_at(i);
            let ghost before = ids@;
            if self.readers.value_at(i).client == client {
                ids.push(id.clone());
            }
            proof {
                let was = ordered_map::views(before);
                let is = ordered_map::views(ids@);
                assert(names.take(i + 1) =~= names.take(i as int).push(id@));
                assert forall|u: Seq<char>| #[trigger] is.contains(u) <==> l.readers[u].client
                    == client && names.take(i + 1).contains(u) by {
                    queue::lemma_contains_push(names.take(i as int), id@, u);
                    if ids@.len() > before.len() {
                        assert(is =~= was.push(id@));
                        queue::lemma_contains_push(was, id@, u);
                    } else {
                        assert(is =~= was);
                    }
                }
            }
            i = i + 1;
        }
        proof {
            assert(names.take(i as int) =~= names);
            assert forall|u: Seq<char>| names.contains(u) <==> #[trigger]
                l.readers.dom().contains(u) by {
                assert(names.to_set().contains(u) <==> names.contains(u));
            }
        }
        ids
    }

    /// Takes everything of `client` out. Tells whether there was anything.
    fn drop_owner(&mut self, client: ClientId) -> (r: bool)
        ensures
            final(self)@ == old(self)@.client_dropped(client),
            r == (old(self)@.client_dropped(client) != old(self)@),
    {
        let ghost l = self@;
        let ghost dropped = l.client_dropped(client);
        let requests = self.requests_of(client);
        let holders = self.exclusive_ids_of(client);
        let readers = self.reader_ids_of(client);
        let writes = match &self.writer {
            Some(w) => w.client == client,
            None => false,
        };
        self.queue.remove_all(&requests);
        self.exclusive_holders.remove_all(&holders);
        self.readers.remove_all(&readers);
        if writes {
            self.writer = None;
        }
        proof {
            let rs = ordered_map::views(requests@);
            let xs = ordered_map::views(holders@);
            let ds = ordered_map::views(readers@);
            queue::lemma_filter_same(
                l.queue,
                |e: (Seq<char>, PendingModel)| !rs.contains(e.0),
                |e: (Seq<char>, PendingModel)| e.1.client != client,
            );
            assert(self@.queue == dropped.queue);
            assert(self@.exclusive_holders =~= dropped.exclusive_holders) by {
                assert forall|u: Seq<char>| l.exclusive_holders.dom().contains(u) implies (
                xs.to_set().contains(u) <==> l.exclusive_holders[u].client == client) by {
                    assert(xs.contains(u) <==> xs.to_set().contains(u));
                }
            }
            assert(self@.readers =~= dropped.readers) by {
                assert forall|u: Seq<char>| l.readers.dom().contains(u) implies (
                ds.to_set().contains(u) <==> l.readers[u].client == client) by {
                    assert(ds.contains(u) <==> ds.to_set().contains(u));
                }
            }
            if requests@.len() > 0 {
                let i = choose|i: int|
                    0 <= i < l.queue.len() && (#[trigger] l.queue[i]).1.client == client;
                let p = |e: (Seq<char>, PendingModel)| e.1.client != client;
                broadcast use vstd::seq_lib::group_filter_ensures;

                if dropped.queue == l.queue {
                    assert(p(dropped.queue[i]));
                }
            }
            if holders@.len() > 0 {
                assert(xs.contains(xs[0]));
                assert(l.exclusive_holders.dom().contains(xs[0]));
                assert(!dropped.exclusive_holders.dom().contains(xs[0]));
            }
            if readers@.len() > 0 {
                assert(ds.contains(ds[0]));
                assert(l.readers.dom().contains(ds[0]));
                assert(!dropped.readers.dom().contains(ds[0]));
            }
            if requests@.len() == 0 && holders@.len() == 0 && readers@.len() == 0 && !writes {
                queue::lemma_filter_keeps_all(
                    l.queue,
                    |e: (Seq<char>, PendingModel)| e.1.client != client,
                );
                assert(dropped.exclusive_holders =~= l.exclusive_holders) by {
                    assert forall|u: Seq<char>| l.exclusive_holders.dom().contains(u) implies
                        l.exclusive_holders[u].client != client by {
                        assert(!xs.contains(u));
                    }
                }
                assert(dropped.readers =~= l.readers) by {
                    assert forall|u: Seq<char>| l.readers.dom().contains(u) implies
                        l.readers[u].client != client by {
                        assert(!ds.contains(u));
                    }
                }
            }
        }
        requests.len() > 0 || holders.len() > 0 || readers.len() > 0 || writes
    }
}

impl BrokerState {
    /// Takes everything of `client` out of every key and notes the keys.
    fn drop_stranger(&mut self, client: ClientId) -> (r: OrderedMap<String, bool>)
        ensures
            final(self).minted == old(self).minted,
            final(self)@ == old(self)@.stranger_dropped(client),
            r@.dom() == old(self)@.keys_of_stranger(client),
    {
        let ghost start = self@;
        let ghost f = |l: LockModel| l.client_dropped(client);
        let mut touched: OrderedMap<String, bool> = OrderedMap::new();
        let n: usize = self.locks.len();
        let ghost names = self.locks.keys();
        let mut i: usize = 0;
        assert(release::changed_on(start.locks, names.take(0), f) =~= start.locks);
        while i < n
            invariant
                i <= n,
                f == (|l: LockModel| l.client_dropped(client)),
                names == ordered_map::ascending_keys::<String>(start.locks.dom()),
                names.len() == n,
                names.no_duplicates(),
                names.to_set() == start.locks.dom(),
                start.locks.len() == n,
                self.minted == old(self).minted,
                self@ == (BrokerModel {
                    locks: release::changed_on(start.locks, names.take(i as int), f),
                    ..start
                }),
                forall|k: Seq<char>| #[trigger]
                    touched@.dom().contains(k) <==> names.take(i as int).contains(k)
                        && start.locks[k].client_dropped(client) != start.locks[k],
            decreases n - i,
        {
            let ghost done = names.take(i as int);
            let ghost next = names.take(i + 1);
            proof {
                assert(next =~= done.push(names[i as int]));
                assert(self@.locks.dom() =~= start.locks.dom());
                assert(!done.contains(names[i as int])) by {
                    if done.contains(names[i as int]) {
                        let j = choose|j: int| 0 <= j < done.len() && done[j] == names[i as int];
                        assert(names[j] == names[i as int]);
                    }
                }
                assert(names.to_set().contains(names[i as int]));
            }
            let key = self.locks.key_at(i).clone();
            let lock = self.locks.value_at_mut(i);
            if lock.drop_owner(client) {
                touched.insert(key, true);
            }
            proof {
                assert(self@.locks =~= release::changed_on(start.locks, next, f)) by {
                    assert forall|k: Seq<char>| start.locks.dom().contains(k) implies
                        self@.locks[k] == release::changed_on(start.locks, next, f)[k] by {
                        queue::lemma_contains_push(done, names[i as int], k);
                    }
                }
                assert forall|k: Seq<char>| #[trigger] touched@.dom().contains(k)
                    <==> next.contains(k) && start.locks[k].client_dropped(client)
                    != start.locks[k] by {
                    queue::lemma_contains_push(done, names[i as int], k);
                }
            }
            i = i + 1;
        }
        proof {
            assert(names.take(i as int) =~= names);
            assert forall|k: Seq<char>| names.contains(k) <==> #[trigger]
                start.locks.dom().contains(k) by {
                assert(names.to_set().contains(k) <==> names.contains(k));
            }
            assert(self@.locks =~= start.locks.map_values(f));
            assert(touched@.dom() =~= start.keys_of_stranger(client));
        }
        touched
    }

    /// Drops a client, with everything it holds and awaits, and grants to
    /// waiters on the keys it leaves.
    pub fn drop_client(&mut self, client: ClientId, clock: Clock)
        ensures
            model::continues(old(self).minted@, final(self).minted@),
            forall|tape: Tape|
                #[trigger] model::reads(tape, final(self).minted@) ==> final(self)@ == old(
                    self,
                )@.client_dropped(client, clock, tape),
    {
        let ghost start = self@;
        let handle = match self.clients.remove(&client) {
            Some(handle) => handle,
            None => {
                assert(self@ =~= start);
                let touched = self.drop_stranger(client);
                let keys = touched.into_keys();
                self.settle(release::reversed(&keys), clock);
                return;
            },
        };
        let ghost c = handle@;
        let mut touched: OrderedMap<String, bool> = OrderedMap::new();
        self.drop_requests(&handle.pending_request_uuids, &mut touched);
        let ghost mid = self@;
        self.drop_all_held(&handle.held_lock_uuids, &mut touched);
        proof {
            assert(self@ =~= start.handle_dropped(client)) by {
                assert(self@.locks =~= start.handle_dropped(client).locks);
            }
            assert(touched@.dom() =~= start.keys_touched(c)) by {
                assert forall|k: Seq<char>, u: Seq<char>| start.locks.dom().contains(k) implies
                    #[trigger] mid.locks[k].kept(u) == start.locks[k].kept(u) by {}
            }
        }
        let keys = touched.into_keys();
        self.settle(release::reversed(&keys), clock);
    }
}

} // verus!
