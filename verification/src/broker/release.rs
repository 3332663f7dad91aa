//! Requests that release.

use crate::broker::model;
use crate::broker::model::Tape;
use crate::broker::types::{
    BrokerModel, BrokerState, ClientHandle, ClientId, ClientModel, Clock, LockModel, LockState,
};
use crate::ordered_map;
use crate::ordered_map::OrderedMap;
use crate::protocol;
use crate::protocol::{Response, ResponseModel};
use crate::text;
use vstd::prelude::*;
use vstd::string::StringExecFns;

verus! {

impl LockModel {
    /// `client` owns a holder of this key with the id `lock_uuid`.
    pub open spec fn owns(self, client: ClientId, lock_uuid: Seq<char>) -> bool {
        ||| self.exclusive_holders.dom().contains(lock_uuid)
            && self.exclusive_holders[lock_uuid].client == client
        ||| self.readers.dom().contains(lock_uuid) && self.readers[lock_uuid].client == client
        ||| self.writer matches Some(w) && w.lock_uuid == lock_uuid && w.client == client
    }

    /// The holders with that id whose owners may be released are gone.
    pub open spec fn released(
        self,
        lock_uuid: Seq<char>,
        may: spec_fn(ClientId) -> bool,
    ) -> LockModel {
        LockModel {
            exclusive_holders: if self.exclusive_holders.dom().contains(lock_uuid) && may(
                self.exclusive_holders[lock_uuid].client,
            ) {
                self.exclusive_holders.remove(lock_uuid)
            } else {
                self.exclusive_holders
            },
            readers: if self.readers.dom().contains(lock_uuid) && may(
                self.readers[lock_uuid].client,
            ) {
                self.readers.remove(lock_uuid)
            } else {
                self.readers
            },
            writer: match self.writer {
                Some(w) if w.lock_uuid == lock_uuid && may(w.client) => None,
                other => other,
            },
            ..self
        }
    }

    /// Every holder is gone.
    pub open spec fn wiped(self) -> LockModel {
        LockModel {
            exclusive_holders: Map::empty(),
            readers: Map::empty(),
            writer: None,
            ..self
        }
    }
}

/// `f` applied to the locks of `keys`.
pub open spec fn changed_on(
    locks: Map<Seq<char>, LockModel>,
    keys: Seq<Seq<char>>,
    f: spec_fn(LockModel) -> LockModel,
) -> Map<Seq<char>, LockModel> {
    locks.map_entries(
        |k: Seq<char>, l: LockModel|
            if keys.contains(k) {
                f(l)
            } else {
                l
            },
    )
}

/// The clients without the held locks that `gone` names.
pub open spec fn forgotten(
    clients: Map<u64, ClientModel>,
    gone: spec_fn(ClientId, Seq<char>) -> bool,
) -> Map<u64, ClientModel> {
    clients.map_entries(
        |c: u64, h: ClientModel|
            ClientModel {
                held_lock_uuids: h.held_lock_uuids.remove_keys(
                    Set::new(|u: Seq<char>| gone(c, u)),
                ),
                ..h
            },
    )
}

/// The queue length of the last of `keys` that exists, or zero.
pub open spec fn last_depth(locks: Map<Seq<char>, LockModel>, keys: Seq<Seq<char>>) -> nat
    decreases keys.len(),
{
    if keys.len() == 0 {
        0
    } else if locks.dom().contains(keys.last()) {
        locks[keys.last()].queue.len()
    } else {
        last_depth(locks, keys.drop_last())
    }
}

/// Some existing lock among `keys` satisfies `p`.
pub open spec fn any_lock(
    locks: Map<Seq<char>, LockModel>,
    keys: Seq<Seq<char>>,
    p: spec_fn(LockModel) -> bool,
) -> bool {
    exists|i: int|
        0 <= i < keys.len() && locks.dom().contains(#[trigger] keys[i]) && p(locks[keys[i]])
}

impl BrokerModel {
    /// Whether `client` may release a holder of `owner`: its own, one whose
    /// owner is not connected, or any if `force`.
    pub open spec fn may_release(
        self,
        client: ClientId,
        force: bool,
    ) -> spec_fn(ClientId) -> bool {
        |owner: ClientId| force || owner == client || !self.clients.dom().contains(owner)
    }

    /// What an unlock does to each requested key.
    pub open spec fn unlock_change(
        self,
        client: ClientId,
        target: Option<Seq<char>>,
        force: bool,
    ) -> spec_fn(LockModel) -> LockModel {
        |l: LockModel|
            match target {
                Some(t) => l.released(t, self.may_release(client, force)),
                None => l.wiped(),
            }
    }

    /// Whether an unlock takes the holder `lock_uuid` of `owner` from a lock.
    pub open spec fn unlock_takes(
        self,
        client: ClientId,
        target: Option<Seq<char>>,
        force: bool,
        l: LockModel,
        owner: ClientId,
        lock_uuid: Seq<char>,
    ) -> bool {
        l.owns(owner, lock_uuid) && match target {
            Some(t) => lock_uuid == t && self.may_release(client, force)(owner),
            None => true,
        }
    }

    /// Whether an unlock frees anything on a key.
    pub open spec fn unlock_frees(
        self,
        client: ClientId,
        target: Option<Seq<char>>,
        force: bool,
    ) -> spec_fn(LockModel) -> bool {
        |l: LockModel|
            exists|owner: ClientId, u: Seq<char>|
                self.unlock_takes(client, target, force, l, owner, u)
    }

    /// Whether the target on a key belongs to someone it may not be taken from.
    pub open spec fn unlock_denied(
        self,
        client: ClientId,
        target: Option<Seq<char>>,
        force: bool,
    ) -> spec_fn(LockModel) -> bool {
        |l: LockModel|
            target matches Some(t) && exists|owner: ClientId|
                #[trigger] l.owns(owner, t) && !self.may_release(client, force)(owner)
    }

    /// The holders that an unlock takes are gone, from the keys and from their
    /// owners' books.
    pub open spec fn unlocked(
        self,
        client: ClientId,
        keys: Seq<Seq<char>>,
        target: Option<Seq<char>>,
        force: bool,
    ) -> BrokerModel {
        BrokerModel {
            locks: changed_on(self.locks, keys, self.unlock_change(client, target, force)),
            clients: forgotten(
                self.clients,
                |c: ClientId, u: Seq<char>|
                    any_lock(
                        self.locks,
                        keys,
                        |l: LockModel| self.unlock_takes(client, target, force, l, c, u),
                    ),
            ),
            ..self
        }
    }

    /// The error that an unlock reports.
    pub open spec fn unlock_error(
        self,
        client: ClientId,
        keys: Seq<Seq<char>>,
        target: Option<Seq<char>>,
        force: bool,
    ) -> Option<Seq<char>> {
        let freed = any_lock(self.locks, keys, self.unlock_frees(client, target, force));
        let denied = any_lock(self.locks, keys, self.unlock_denied(client, target, force));
        match target {
            Some(t) if !freed && denied => Some(
                "unlock lock_uuid `"@ + t
                    + "` is owned by another live client; use force=true to override"@,
            ),
            Some(t) if !freed && force => Some(
                "unlock(force=true) lock_uuid `"@ + t
                    + "` did not match any current holder for the requested keys"@,
            ),
            _ => None,
        }
    }

    /// An unlock request: holders are released and waiters granted.
    pub open spec fn unlock_requested(
        self,
        client: ClientId,
        uuid: Seq<char>,
        keys: Seq<Seq<char>>,
        lock_uuid: Option<Seq<char>>,
        force: bool,
        clock: Clock,
        tape: Tape,
    ) -> BrokerModel {
        if keys.len() == 0 {
            self.send(
                client,
                ResponseModel::Error { uuid, error: "unlock request requires at least one key"@ },
            )
        } else if lock_uuid is None && !force {
            self.send(
                client,
                ResponseModel::Unlock {
                    uuid,
                    keys,
                    unlocked: false,
                    lock_request_count: 0,
                    error: Some("unlock requires `_uuid` or `force=true`"@),
                },
            )
        } else {
            self.unlocked(client, keys, lock_uuid, force).settled(
                keys.reverse(),
                clock,
                tape,
            ).send(
                client,
                ResponseModel::Unlock {
                    uuid,
                    keys,
                    unlocked: any_lock(
                        self.locks,
                        keys,
                        self.unlock_frees(client, lock_uuid, force),
                    ),
                    lock_request_count: last_depth(self.locks, keys) as usize,
                    error: self.unlock_error(client, keys, lock_uuid, force),
                },
            )
        }
    }
}

/// The pair of `client` and `lock_uuid` is listed.
pub open spec fn listed(s: Seq<(ClientId, String)>, client: ClientId, lock_uuid: Seq<char>) -> bool {
    exists|i: int| 0 <= i < s.len() && (#[trigger] s[i]).0 == client && s[i].1@ == lock_uuid
}

proof fn lemma_listed_push(s: Seq<(ClientId, String)>, e: (ClientId, String))
    ensures
        forall|c: ClientId, u: Seq<char>| #[trigger]
            listed(s.push(e), c, u) <==> listed(s, c, u) || (e.0 == c && e.1@ == u),
{
    assert forall|c: ClientId, u: Seq<char>| #[trigger] listed(s.push(e), c, u) <==> listed(s, c, u)
        || (e.0 == c && e.1@ == u) by {
        let t = s.push(e);
        if listed(s, c, u) {
            let i = choose|i: int| 0 <= i < s.len() && (#[trigger] s[i]).0 == c && s[i].1@ == u;
            assert(t[i] == s[i]);
        }
        if e.0 == c && e.1@ == u {
            assert(t[s.len() as int] == e);
        }
        if listed(t, c, u) {
            let i = choose|i: int| 0 <= i < t.len() && (#[trigger] t[i]).0 == c && t[i].1@ == u;
            if i < s.len() {
                assert(s[i] == t[i]);
            }
        }
    }
}

/// Whether `client` may release a holder of `owner`.
fn may_release(
    clients: &OrderedMap<u64, ClientHandle>,
    client: ClientId,
    force: bool,
    owner: ClientId,
    Ghost(m): Ghost<BrokerModel>,
) -> (r: bool)
    requires
        clients@ == m.clients,
    ensures
        r == m.may_release(client, force)(owner),
{
    force || owner == client || !clients.contains_key(&owner)
}

impl LockState {
    /// Takes the holders with the id `target` out that `client` may release, and
    /// lists them. Tells whether there were any, and whether one was kept back.
    fn release_target(
        &mut self,
        target: &String,
        clients: &OrderedMap<u64, ClientHandle>,
        client: ClientId,
        force: bool,
        taken: &mut Vec<(ClientId, String)>,
        Ghost(m): Ghost<BrokerModel>,
    ) -> (r: (bool, bool))
        requires
            clients@ == m.clients,
        ensures
            final(self)@ == m.unlock_change(client, Some(target@), force)(old(self)@),
            forall|c: ClientId, u: Seq<char>| #[trigger]
                listed(final(taken)@, c, u) <==> listed(old(taken)@, c, u) || m.unlock_takes(
                    client,
                    Some(target@),
                    force,
                    old(self)@,
                    c,
                    u,
                ),
            r.0 == m.unlock_frees(client, Some(target@), force)(old(self)@),
            r.1 == m.unlock_denied(client, Some(target@), force)(old(self)@),
    {
        let ghost l = self@;
        let ghost may = m.may_release(client, force);
        let mut freed = false;
        let mut denied = false;
        let exclusive_owner: Option<ClientId> = match self.exclusive_holders.get(target) {
            Some(h) => Some(h.client),
            None => None,
        };
        if let Some(owner) = exclusive_owner {
            assert(l.owns(owner, target@));
            if may_release(clients, client, force, owner, Ghost(m)) {
                let _ = self.exclusive_holders.remove(target);
                proof {
                    lemma_listed_push(taken@, (owner, *target));
                    assert(m.unlock_takes(client, Some(target@), force, l, owner, target@));
                }
                taken.push((owner, target.clone()));
                freed = true;
            } else {
                denied = true;
            }
        }
        let reader_owner: Option<ClientId> = match self.readers.get(target) {
            Some(h) => Some(h.client),
            None => None,
        };
        if let Some(owner) = reader_owner {
            assert(l.owns(owner, target@));
            if may_release(clients, client, force, owner, Ghost(m)) {
                let _ = self.readers.remove(target);
                proof {
                    lemma_listed_push(taken@, (owner, *target));
                    assert(m.unlock_takes(client, Some(target@), force, l, owner, target@));
                }
                taken.push((owner, target.clone()));
                freed = true;
            } else {
                denied = true;
            }
        }
        let writer_owner: Option<ClientId> = match &self.writer {
            Some(w) => if w.lock_uuid == *target {
                Some(w.client)
            } else {
                None
            },
            None => None,
        };
        if let Some(owner) = writer_owner {
            assert(l.owns(owner, target@));
            if may_release(clients, client, force, owner, Ghost(m)) {
                self.writer = None;
                proof {
                    lemma_listed_push(taken@, (owner, *target));
                    assert(m.unlock_takes(client, Some(target@), force, l, owner, target@));
                }
                taken.push((owner, target.clone()));
                freed = true;
            } else {
                denied = true;
            }
        }
        (freed, denied)
    }

    /// Takes every holder out, and lists them. Tells whether there were any.
    fn wipe_holders(
        &mut self,
        taken: &mut Vec<(ClientId, String)>,
        client: ClientId,
        Ghost(m): Ghost<BrokerModel>,
    ) -> (r: bool)
        ensures
            final(self)@ == old(self)@.wiped(),
            forall|c: ClientId, u: Seq<char>| #[trigger]
                listed(final(taken)@, c, u) <==> listed(old(taken)@, c, u) || old(self)@.owns(c, u),
            r == m.unlock_frees(client, None, true)(old(self)@),
    {
        let ghost l = self@;
        let ghost before = taken@;
        let n: usize = self.exclusive_holders.len();
        let mut i: usize = 0;
        while i < n
            invariant
                i <= n,
                n == self.exclusive_holders@.len(),
                self@ == l,
                l.exclusive_holders.len() == n,
                self.exclusive_holders.keys() == ordered_map::ascending_keys::<String>(
                    l.exclusive_holders.dom(),
                ),
                forall|c: ClientId, u: Seq<char>| #[trigger]
                    listed(taken@, c, u) <==> listed(before, c, u) || (exists|j: int|
                        0 <= j < i && #[trigger] self.exclusive_holders.keys()[j] == u
                            && l.exclusive_holders[u].client == c),
            decreases n - i,
        {
            let id = self.exclusive_holders.key_at(i).clone();
            let owner = self.exclusive_holders.value_at(i).client;
            let ghost list = taken@;
            proof {
                lemma_listed_push(list, (owner, id));
                let keys = self.exclusive_holders.keys();
                assert forall|c: ClientId, u: Seq<char>| #[trigger]
                    listed(list.push((owner, id)), c, u) <==> listed(before, c, u) || (exists|
                    j: int,
                |
                    0 <= j < i + 1 && #[trigger] keys[j] == u && l.exclusive_holders[u].client
                        == c) by {
                    if listed(list, c, u) && !listed(before, c, u) {
                        let j = choose|j: int|
                            0 <= j < i && #[trigger] keys[j] == u && l.exclusive_holders[u].client
                                == c;
                        assert(0 <= j < i + 1 && keys[j] == u);
                    }
                    if owner == c && id@ == u {
                        assert(keys[i as int] == u);
                    }
                }
            }
            taken.push((owner, id));
            i = i + 1;
        }
        let ghost mid = taken@;
        let n: usize = self.readers.len();
        let mut i: usize = 0;
        while i < n
            invariant
                i <= n,
                n == self.readers@.len(),
                self@ == l,
                l.readers.len() == n,
                self.readers.keys() == ordered_map::ascending_keys::<String>(l.readers.dom()),
                forall|c: ClientId, u: Seq<char>| #[trigger]
                    listed(taken@, c, u) <==> listed(mid, c, u) || (exists|j: int|
                        0 <= j < i && #[trigger] self.readers.keys()[j] == u
                            && l.readers[u].client == c),
            decreases n - i,
        {
            let id = self.readers.key_at(i).clone();
            let owner = self.readers.value_at(i).client;
            let ghost list = taken@;
            proof {
                lemma_listed_push(list, (owner, id));
                let keys = self.readers.keys();
                assert forall|c: ClientId, u: Seq<char>| #[trigger]
                    listed(list.push((owner, id)), c, u) <==> listed(mid, c, u) || (exists|j: int|
                    0 <= j < i + 1 && #[trigger] keys[j] == u && l.readers[u].client == c) by {
                    if listed(list, c, u) && !listed(mid, c, u) {
                        let j = choose|j: int|
                            0 <= j < i && #[trigger] keys[j] == u && l.readers[u].client == c;
                        assert(0 <= j < i + 1 && keys[j] == u);
                    }
                    if owner == c && id@ == u {
                        assert(keys[i as int] == u);
                    }
                }
            }
            taken.push((owner, id));
            i = i + 1;
        }
        let ghost late = taken@;
        if let Some(w) = &self.writer {
            proof {
                lemma_listed_push(late, (w.client, w.lock_uuid));
            }
            taken.push((w.client, w.lock_uuid.clone()));
        }
        let any = !self.exclusive_holders.is_empty() || !self.readers.is_empty()
            || self.writer.is_some();
        let _ = self.exclusive_holders.len();
        let _ = self.readers.len();
        proof {
            let xs = self.exclusive_holders.keys();
            let rs = self.readers.keys();
            assert forall|u: Seq<char>| l.exclusive_holders.dom().contains(u) implies exists|
                j: int,
            | 0 <= j < xs.len() && #[trigger] xs[j] == u by {
                assert(xs.to_set().contains(u));
            }
            assert forall|u: Seq<char>| l.readers.dom().contains(u) implies exists|j: int|
                0 <= j < rs.len() && #[trigger] rs[j] == u by {
                assert(rs.to_set().contains(u));
            }
            assert forall|j: int| 0 <= j < xs.len() implies l.exclusive_holders.dom().contains(
                #[trigger] xs[j],
            ) by {
                assert(xs.to_set().contains(xs[j]));
            }
            assert forall|j: int| 0 <= j < rs.len() implies l.readers.dom().contains(
                #[trigger] rs[j],
            ) by {
                assert(rs.to_set().contains(rs[j]));
            }
            if !l.exclusive_holders.is_empty() {
                let u = l.exclusive_holders.dom().choose();
                assert(l.exclusive_holders.dom().contains(u)) by {
                    assert(l.exclusive_holders.dom().len() > 0);
                }
                assert(m.unlock_takes(
                    client,
                    None,
                    true,
                    l,
                    l.exclusive_holders[u].client,
                    u,
                ));
            } else if !l.readers.is_empty() {
                let u = l.readers.dom().choose();
                assert(l.readers.dom().contains(u)) by {
                    assert(l.readers.dom().len() > 0);
                }
                assert(m.unlock_takes(client, None, true, l, l.readers[u].client, u));
            } else if l.writer is Some {
                assert(m.unlock_takes(
                    client,
                    None,
                    true,
                    l,
                    l.writer->0.client,
                    l.writer->0.lock_uuid,
                ));
            }
        }
        self.exclusive_holders.clear();
        self.readers.clear();
        self.writer = None;
        any
    }
}

/// Releasing twice is releasing once, and the second time takes nothing.
proof fn lemma_unlock_idempotent(
    m: BrokerModel,
    client: ClientId,
    target: Option<Seq<char>>,
    force: bool,
    l: LockModel,
)
    ensures
        ({
            let f = m.unlock_change(client, target, force);
            &&& f(f(l)) == f(l)
            &&& forall|c: ClientId, u: Seq<char>|
                !#[trigger] m.unlock_takes(client, target, force, f(l), c, u)
            &&& !m.unlock_frees(client, target, force)(f(l))
            &&& m.unlock_denied(client, target, force)(f(l)) ==> m.unlock_denied(
                client,
                target,
                force,
            )(l)
            &&& f(l).queue == l.queue
        }),
{
    let f = m.unlock_change(client, target, force);
    assert(f(f(l)) =~= f(l));
    assert forall|c: ClientId, u: Seq<char>| f(l).owns(c, u) implies #[trigger] l.owns(c, u) by {}
    if m.unlock_denied(client, target, force)(f(l)) {
        let t = target->0;
        let owner = choose|owner: ClientId|
            #[trigger] f(l).owns(owner, t) && !m.may_release(client, force)(owner);
        assert(l.owns(owner, t));
    }
}

/// A copy of `texts` in reverse order.
pub fn reversed(texts: &Vec<String>) -> (r: Vec<String>)
    ensures
        ordered_map::views(r@) == ordered_map::views(texts@).reverse(),
{
    let mut r: Vec<String> = Vec::new();
    let n: usize = texts.len();
    let mut i: usize = 0;
    while i < n
        invariant
            i <= n,
            n == texts@.len(),
            r@.len() == i,
            forall|j: int| 0 <= j < i ==> (#[trigger] r@[j])@ == texts@[n - 1 - j]@,
        decreases n - i,
    {
        r.push(texts[n - 1 - i].clone());
        i = i + 1;
    }
    assert(ordered_map::views(r@) =~= ordered_map::views(texts@).reverse());
    r
}

impl BrokerState {
    /// Strikes the listed holders off their owners' books.
    fn forget_holders(&mut self, taken: &Vec<(ClientId, String)>)
        ensures
            final(self).minted == old(self).minted,
            final(self)@ == (BrokerModel {
                clients: forgotten(
                    old(self)@.clients,
                    |c: ClientId, u: Seq<char>| listed(taken@, c, u),
                ),
                ..old(self)@
            }),
    {
        let ghost start = self@;
        let ghost none = |c: ClientId, u: Seq<char>| listed(taken@.take(0), c, u);
        assert(forgotten(start.clients, none) =~= start.clients) by {
            assert forall|c: u64| start.clients.dom().contains(c) implies forgotten(
                start.clients,
                none,
            )[c] == start.clients[c] by {
                let h = start.clients[c];
                assert(h.held_lock_uuids.remove_keys(Set::new(|u: Seq<char>| none(c, u)))
                    =~= h.held_lock_uuids);
            }
        }
        let mut i: usize = 0;
        while i < taken.len()
            invariant
                i <= taken@.len(),
                self.minted == old(self).minted,
                self@ == (BrokerModel {
                    clients: forgotten(
                        start.clients,
                        |c: ClientId, u: Seq<char>| listed(taken@.take(i as int), c, u),
                    ),
                    ..start
                }),
            decreases taken@.len() - i,
        {
            let ghost before = self@;
            let ghost done = taken@.take(i as int);
            let owner = taken[i].0;
            let id = &taken[i].1;
            self.untrack_holder(owner, id);
            proof {
                let e = taken@[i as int];
                let next = taken@.take(i + 1);
                assert(next =~= done.push(e));
                lemma_listed_push(done, e);
                let was = |c: ClientId, u: Seq<char>| listed(done, c, u);
                let is = |c: ClientId, u: Seq<char>| listed(next, c, u);
                assert(self@.clients =~= forgotten(start.clients, is)) by {
                    assert(self@.clients.dom() =~= forgotten(start.clients, is).dom());
                    assert forall|c: u64| start.clients.dom().contains(c) implies self@.clients[c]
                        == forgotten(start.clients, is)[c] by {
                        let h = start.clients[c];
                        let a = h.held_lock_uuids.remove_keys(Set::new(|u: Seq<char>| was(c, u)));
                        let b = h.held_lock_uuids.remove_keys(Set::new(|u: Seq<char>| is(c, u)));
                        if c == owner {
                            assert(a.remove(id@) =~= b);
                        } else {
                            assert(a =~= b);
                        }
                    }
                }
            }
            i = i + 1;
        }
        assert(taken@.take(i as int) =~= taken@);
    }

    /// Releases holders and grants to waiters.
    pub fn handle_unlock(
        &mut self,
        client: ClientId,
        uuid: String,
        keys: Vec<String>,
        lock_uuid: Option<String>,
        force: bool,
        clock: Clock,
    )
        ensures
            model::continues(old(self).minted@, final(self).minted@),
            forall|tape: Tape|
                #[trigger] model::reads(tape, final(self).minted@) ==> final(self)@ == old(
                    self,
                )@.unlock_requested(
                    client,
                    uuid@,
                    ordered_map::views(keys@),
                    protocol::shown_text(lock_uuid),
                    force,
                    clock,
                    tape,
                ),
    {
        let ghost start = self@;
        let ghost all = ordered_map::views(keys@);
        let ghost target = protocol::shown_text(lock_uuid);
        if keys.len() == 0 {
            self.send(
                client,
                Response::Error {
                    uuid,
                    error: String::from_str("unlock request requires at least one key"),
                },
            );
            return;
        }
        if lock_uuid.is_none() && !force {
            self.send(
                client,
                Response::Unlock {
                    uuid,
                    keys,
                    unlocked: false,
                    lock_request_count: 0,
                    error: Some(String::from_str("unlock requires `_uuid` or `force=true`")),
                },
            );
            return;
        }
        let ghost f = start.unlock_change(client, target, force);
        let ghost frees = start.unlock_frees(client, target, force);
        let ghost denies = start.unlock_denied(client, target, force);
        let mut taken: Vec<(ClientId, String)> = Vec::new();
        let mut total_unlocked = false;
        let mut ownership_denied = false;
        let mut depth: usize = 0;
        let mut i: usize = 0;
        assert(changed_on(start.locks, all.take(0), f) =~= start.locks);
        while i < keys.len()
            invariant
                i <= keys@.len(),
                all == ordered_map::views(keys@),
                target == protocol::shown_text(lock_uuid),
                lock_uuid is Some || force,
                f == start.unlock_change(client, target, force),
                frees == start.unlock_frees(client, target, force),
                denies == start.unlock_denied(client, target, force),
                self.minted == old(self).minted,
                self@ == (BrokerModel {
                    locks: changed_on(start.locks, all.take(i as int), f),
                    ..start
                }),
                total_unlocked == any_lock(start.locks, all.take(i as int), frees),
                ownership_denied == any_lock(start.locks, all.take(i as int), denies),
                depth == last_depth(start.locks, all.take(i as int)),
                forall|c: ClientId, u: Seq<char>| #[trigger]
                    listed(taken@, c, u) <==> any_lock(
                        start.locks,
                        all.take(i as int),
                        |l: LockModel| start.unlock_takes(client, target, force, l, c, u),
                    ),
            decreases keys@.len() - i,
        {
            let key = &keys[i];
            let ghost done = all.take(i as int);
            let ghost next = all.take(i + 1);
            let ghost before = self@;
            let ghost list = taken@;
            let ghost was_freed = total_unlocked;
            let ghost was_denied = ownership_denied;
            proof {
                assert(next =~= done.push(key@));
                assert(next.drop_last() =~= done);
                if start.locks.dom().contains(key@) {
                    lemma_unlock_idempotent(start, client, target, force, start.locks[key@]);
                }
            }
            if let Some(lock) = self.locks.get_mut(key) {
                match &lock_uuid {
                    Some(id) => {
                        let (freed, denied) = lock.release_target(
                            id,
                            &self.clients,
                            client,
                            force,
                            &mut taken,
                            Ghost(start),
                        );
                        if freed {
                            total_unlocked = true;
                        }
                        if denied {
                            ownership_denied = true;
                        }
                    },
                    None => {
                        let freed = lock.wipe_holders(&mut taken, client, Ghost(start));
                        if freed {
                            total_unlocked = true;
                        }
                    },
                }
                depth = lock.queue.len();
            }
            proof {
                assert(self@.locks =~= changed_on(start.locks, next, f)) by {
                    assert forall|k: Seq<char>| start.locks.dom().contains(k) implies
                        self@.locks[k] == changed_on(start.locks, next, f)[k] by {
                        assert(next.contains(k) <==> done.contains(k) || k == key@) by {
                            if done.contains(k) {
                                let j = choose|j: int| 0 <= j < done.len() && done[j] == k;
                                assert(next[j] == k);
                            }
                            assert(next[i as int] == key@);
                        }
                    }
                }
                let seen = start.locks.dom().contains(key@);
                lemma_any_push(start.locks, done, key@, frees);
                lemma_any_push(start.locks, done, key@, denies);
                if seen && done.contains(key@) {
                    lemma_any_member(start.locks, done, key@, frees);
                    lemma_any_member(start.locks, done, key@, denies);
                }
                assert forall|c: ClientId, u: Seq<char>| #[trigger] listed(taken@, c, u)
                    <==> any_lock(
                    start.locks,
                    next,
                    |l: LockModel| start.unlock_takes(client, target, force, l, c, u),
                ) by {
                    let p = |l: LockModel| start.unlock_takes(client, target, force, l, c, u);
                    lemma_any_push(start.locks, done, key@, p);
                    if seen && done.contains(key@) {
                        lemma_any_member(start.locks, done, key@, p);
                    }
                    assert(listed(list, c, u) <==> any_lock(start.locks, done, p));
                }
            }
            i = i + 1;
        }
        assert(all.take(i as int) =~= all);
        self.forget_holders(&taken);
        proof {
            let gone = |c: ClientId, u: Seq<char>|
                any_lock(
                    start.locks,
                    all,
                    |l: LockModel| start.unlock_takes(client, target, force, l, c, u),
                );
            let named = |c: ClientId, u: Seq<char>| listed(taken@, c, u);
            assert(gone =~= named);
            assert(self@ =~= start.unlocked(client, all, target, force));
        }
        let ghost drawn = self.minted@;
        self.settle(reversed(&keys), clock);
        let error: Option<String> = match &lock_uuid {
            Some(id) => {
                if !total_unlocked && ownership_denied {
                    Some(
                        text::join3(
                            "unlock lock_uuid `",
                            id.as_str(),
                            "` is owned by another live client; use force=true to override",
                        ),
                    )
                } else if !total_unlocked && force {
                    Some(
                        text::join3(
                            "unlock(force=true) lock_uuid `",
                            id.as_str(),
                            "` did not match any current holder for the requested keys",
                        ),
                    )
                } else {
                    None
                }
            },
            None => None,
        };
        self.send(
            client,
            Response::Unlock {
                uuid,
                keys,
                unlocked: total_unlocked,
                lock_request_count: depth,
                error,
            },
        );
    }
}

proof fn lemma_any_push(
    locks: Map<Seq<char>, LockModel>,
    keys: Seq<Seq<char>>,
    key: Seq<char>,
    p: spec_fn(LockModel) -> bool,
)
    ensures
        any_lock(locks, keys.push(key), p) <==> any_lock(locks, keys, p) || (locks.dom().contains(
            key,
        ) && p(locks[key])),
{
    let more = keys.push(key);
    if any_lock(locks, keys, p) {
        let i = choose|i: int|
            0 <= i < keys.len() && locks.dom().contains(#[trigger] keys[i]) && p(locks[keys[i]]);
        assert(more[i] == keys[i]);
    }
    if locks.dom().contains(key) && p(locks[key]) {
        assert(more[keys.len() as int] == key);
    }
    if any_lock(locks, more, p) {
        let i = choose|i: int|
            0 <= i < more.len() && locks.dom().contains(#[trigger] more[i]) && p(locks[more[i]]);
        if i < keys.len() {
            assert(keys[i] == more[i]);
        }
    }
}

proof fn lemma_any_member(
    locks: Map<Seq<char>, LockModel>,
    keys: Seq<Seq<char>>,
    key: Seq<char>,
    p: spec_fn(LockModel) -> bool,
)
    requires
        keys.contains(key),
        locks.dom().contains(key),
    ensures
        p(locks[key]) ==> any_lock(locks, keys, p),
{
    let i = choose|i: int| 0 <= i < keys.len() && keys[i] == key;
    assert(locks.dom().contains(keys[i]));
}

} // verus!
