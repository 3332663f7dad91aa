//! What the broker tells of itself.

use crate::broker::laws::acquiring;
use crate::broker::laws::books;
use crate::broker::model::Tape;
use crate::broker::state;
use crate::broker::stats;
use crate::broker::stats::Rank;
use crate::broker::types::{
    BrokerConfig, BrokerModel, ClientId, ClientModel, Clock, DeadlineKey, DeadlineModel,
    GrantOverrides, LockModel,
};
use crate::ordered_map;
use crate::ordered_map::OrderedKey;
use crate::protocol;
use crate::protocol::{Request, ResponseModel};
use crate::queue;
use crate::sums;
use crate::text;
use vstd::prelude::*;

verus! {

/// An inspection changes nothing. It tells under which ids the key is held: by whom
/// exclusively, by readers and by the writer; that it is locked exactly if somebody
/// holds it; and how many wait and read.
pub proof fn an_inspection_tells_who_holds_the_key(
    m: BrokerModel,
    client: ClientId,
    uuid: String,
    key: String,
    overrides: GrantOverrides,
    clock: Clock,
    tape: Tape,
)
    requires
        m.locks.dom().contains(key@) ==> m.locks[key@].exclusive_holders.dom().finite()
            && m.locks[key@].readers.dom().finite(),
    ensures
        ({
            let n = m.handled(client, Request::LockInfo { uuid, key }, overrides, clock, tape);
            let l = m.locks[key@];
            let known = m.locks.dom().contains(key@);
            let r = n.outbox.last().response;
            &&& n == BrokerModel { outbox: n.outbox, ..m }
            &&& acquiring::told(m, n, client, r)
            &&& r is LockInfo
            &&& r->LockInfo_uuid == uuid@
            &&& r->LockInfo_key == key@
            &&& r->is_locked <==> known && !acquiring::held_by_nobody(l)
            &&& forall|u: Seq<char>| #[trigger]
                r->lockholder_uuids.contains(u) <==> known && (l.exclusive_holders.dom().contains(u)
                    || l.readers.dom().contains(u) || (l.writer is Some && l.writer->0.lock_uuid
                    == u))
            &&& r->lockholder_uuids.len() == if known {
                l.exclusive_holders.len() + l.readers.len() + if l.writer is Some {
                    1int
                } else {
                    0int
                }
            } else {
                0
            }
            &&& r->LockInfo_lock_request_count == if known {
                l.queue.len() as usize
            } else {
                0
            }
            &&& r->LockInfo_readers_count == if known {
                l.readers.len() as u32
            } else {
                0
            }
            &&& r->LockInfo_writer_flag <==> known && l.writer is Some
        }),
{
    let n = m.handled(client, Request::LockInfo { uuid, key }, overrides, clock, tape);
    let l = m.locks[key@];
    if m.locks.dom().contains(key@) {
        let a = ordered_map::ascending_keys::<String>(l.exclusive_holders.dom());
        let b = ordered_map::ascending_keys::<String>(l.readers.dom());
        ordered_map::lemma_ascending_walk::<String>(l.exclusive_holders.dom());
        ordered_map::lemma_ascending_walk::<String>(l.readers.dom());
        let ids = n.outbox.last().response->lockholder_uuids;
        let shared = a + b;
        assert forall|u: Seq<char>| #[trigger] ids.contains(u) <==> (
        l.exclusive_holders.dom().contains(u) || l.readers.dom().contains(u) || (l.writer is Some
            && l.writer->0.lock_uuid == u)) by {
            assert(a.to_set().contains(u) <==> a.contains(u));
            assert(b.to_set().contains(u) <==> b.contains(u));
            assert(shared.contains(u) <==> a.contains(u) || b.contains(u)) by {
                if a.contains(u) {
                    let i = choose|i: int| 0 <= i < a.len() && a[i] == u;
                    assert(shared[i] == u);
                }
                if b.contains(u) {
                    let i = choose|i: int| 0 <= i < b.len() && b[i] == u;
                    assert(shared[a.len() + i] == u);
                }
            }
            if l.writer is Some {
                queue::lemma_contains_push(shared, l.writer->0.lock_uuid, u);
            }
        }
        if ids.len() > 0 {
            assert(ids.contains(ids[0]));
        } else {
            assert forall|u: Seq<char>| !#[trigger] l.readers.dom().contains(u) by {
                assert(!ids.contains(u));
            }
            assert forall|u: Seq<char>| !#[trigger] l.exclusive_holders.dom().contains(u) by {
                assert(!ids.contains(u));
            }
        }
    }
}

/// A listing changes nothing, and names every key once, in ascending order.
pub proof fn a_listing_names_every_key(
    m: BrokerModel,
    client: ClientId,
    uuid: String,
    overrides: GrantOverrides,
    clock: Clock,
    tape: Tape,
)
    requires
        m.locks.dom().finite(),
    ensures
        ({
            let n = m.handled(client, Request::Ls { uuid }, overrides, clock, tape);
            let r = n.outbox.last().response;
            &&& n == BrokerModel { outbox: n.outbox, ..m }
            &&& acquiring::told(m, n, client, r)
            &&& r is LsResult
            &&& r->LsResult_uuid == uuid@
            &&& r->LsResult_keys.to_set() == m.locks.dom()
            &&& forall|i: int, j: int|
                0 <= i < j < r->LsResult_keys.len() ==> text::text_less(
                    #[trigger] r->LsResult_keys[i],
                    #[trigger] r->LsResult_keys[j],
                )
        }),
{
    ordered_map::lemma_ascending_walk::<String>(m.locks.dom());
}

/// Handshakes and heartbeats change nothing and are answered. A version is accepted
/// exactly if its major part, up to the first dot, is that of the broker.
pub proof fn handshakes_change_nothing(
    m: BrokerModel,
    client: ClientId,
    request: Request,
    overrides: GrantOverrides,
    clock: Clock,
    tape: Tape,
)
    requires
        request is Version || request is Auth || request is Heartbeat,
    ensures
        ({
            let n = m.handled(client, request, overrides, clock, tape);
            let r = n.outbox.last().response;
            &&& n == BrokerModel { outbox: n.outbox, ..m }
            &&& acquiring::told(m, n, client, r)
            &&& request matches Request::Heartbeat { uuid } ==> r == ResponseModel::Okay {
                uuid: uuid@,
            }
            &&& request matches Request::Auth { uuid, .. } ==> r == ResponseModel::Auth {
                uuid: uuid@,
                ok: true,
                error: None,
            }
            &&& request matches Request::Version { uuid, .. } ==> {
                &&& r is Version
                &&& r->Version_uuid == uuid@
                &&& r->broker_version == "0.1.0"@
                &&& r->Version_ok <==> r->Version_error is None
            }
            &&& request matches Request::Version { value, .. } ==> (r->Version_ok
                <==> value@.len() > 0 && value@[0] == '0' && (value@.len() == 1 || value@[1] == '.'))
        }),
{
    if let Request::Version { value, .. } = request {
        lemma_major(value@);
    }
}

/// Which versions the broker speaks.
proof fn lemma_major(v: Seq<char>)
    ensures
        protocol::speaks(v) <==> v.len() > 0 && v[0] == '0' && (v.len() == 1 || v[1] == '.'),
{
    reveal_strlit("0.1.0");
    let own = "0.1.0"@;
    assert(own.drop_first()[0] == '.');
    assert(protocol::major(own.drop_first()) =~= Seq::<char>::empty());
    assert(protocol::major(own) =~= seq!['0']);
    if v.len() > 0 && v[0] != '.' {
        let rest = protocol::major(v.drop_first());
        assert(protocol::major(v) == seq![v[0]] + rest);
        assert(protocol::major(v)[0] == v[0]);
        assert(protocol::major(v).len() == 1 + rest.len());
        if v.len() == 1 || v[1] == '.' {
            assert(rest.len() == 0);
            assert(protocol::major(v) =~= seq![v[0]]);
        } else {
            assert(v.drop_first()[0] == v[1]);
            assert(rest == seq![v[1]] + protocol::major(v.drop_first().drop_first()));
            assert(rest.len() > 0);
        }
    }
}

/// The counters tell how many keys, holders, waiters, clients and deadlines there are:
/// one key more counts as one, with its holders and its waiters.
pub proof fn the_counters_count(m: BrokerModel, key: Seq<char>)
    requires
        m.locks.dom().finite(),
        m.locks.dom().contains(key),
        m.locks.len() <= u64::MAX,
        sums::map_sum(m.locks, stats::holders_of()) <= u64::MAX,
        sums::map_sum(m.locks, stats::waiters_of()) <= u64::MAX,
    ensures
        ({
            let l = m.locks[key];
            let rest = BrokerModel { locks: m.locks.remove(key), ..m };
            &&& m.metrics().keys == rest.metrics().keys + 1
            &&& m.metrics().waiters == rest.metrics().waiters + l.queue.len()
            &&& m.metrics().holders == rest.metrics().holders + l.exclusive_holders.len()
                + l.readers.len() + if l.writer is Some {
                1int
            } else {
                0int
            }
        }),
{
    sums::lemma_sum_remove(m.locks, stats::holders_of(), key);
    sums::lemma_sum_remove(m.locks, stats::waiters_of(), key);
    assert(m.locks.remove(key).dom() =~= m.locks.dom().remove(key));
}

/// Without keys nobody holds or waits; and the other counters are those of the broker.
pub proof fn the_counters_start_at_zero(m: BrokerModel)
    requires
        m.clients.len() <= u64::MAX,
        m.deadlines.len() <= u64::MAX,
    ensures
        m.locks == Map::<Seq<char>, LockModel>::empty() ==> m.metrics().keys == 0
            && m.metrics().holders == 0 && m.metrics().waiters == 0,
        m.metrics().clients == m.clients.len(),
        m.metrics().pending_deadlines == m.deadlines.len(),
        m.metrics().ttl_evictions_total == m.ttl_evictions_total,
        m.metrics().max_concurrency_cap == m.config.max_concurrency_cap,
        m.metrics().concurrency_cap_clamps_total == m.concurrency_cap_clamps_total,
        m.metrics().fencing_watermark == m.fencing_watermark,
        m.metrics().idle_keys_pruned_total == m.idle_keys_pruned_total,
{
}

/// Holders and waiters of a key.
pub open spec fn crowd(l: LockModel) -> int {
    l.exclusive_holders.len() + l.readers.len() + l.queue.len() + if l.writer is Some {
        1int
    } else {
        0int
    }
}

/// The ranking is finite.
proof fn lemma_ranks(m: BrokerModel) -> (ranks: Set<(int, Seq<char>)>)
    requires
        m.locks.dom().finite(),
    ensures
        ranks.finite(),
        ranks == Set::new(
            |r: (int, Seq<char>)|
                m.locks.dom().contains(r.1) && m.locks[r.1].contention() == r.0 && r.0 > 0,
        ),
{
    let ranks = Set::new(
        |r: (int, Seq<char>)|
            m.locks.dom().contains(r.1) && m.locks[r.1].contention() == r.0 && r.0 > 0,
    );
    let all = m.locks.dom().map(|k: Seq<char>| (m.locks[k].contention() as int, k));
    m.locks.dom().lemma_map_finite(|k: Seq<char>| (m.locks[k].contention() as int, k));
    assert(ranks.subset_of(all)) by {
        assert forall|r: (int, Seq<char>)| #[trigger] ranks.contains(r) implies all.contains(r) by {
            assert(m.locks.dom().contains(r.1));
        }
    }
    vstd::set_lib::lemma_len_subset(ranks, all);
    ranks
}

/// The most contended keys are keys that somebody holds or awaits, each once, with
/// what is known of it; more crowded ones come first and equally crowded ones in
/// ascending order. As many are told as asked for, if there are so many, and no key
/// that is left out is more crowded than one that is told.
pub proof fn the_most_contended_keys_come_first(m: BrokerModel, n: int)
    requires
        m.locks.dom().finite(),
        n >= 0,
    ensures
        ({
            let top = m.top_keys(n);
            &&& top.len() <= n
            &&& forall|i: int|
                0 <= i < top.len() ==> {
                    let e = #[trigger] top[i];
                    let l = m.locks[e.key];
                    &&& m.locks.dom().contains(e.key)
                    &&& crowd(l) > 0
                    &&& e.exclusive_holders == l.exclusive_holders.len() as u64
                    &&& e.readers == l.readers.len() as u64
                    &&& e.writers == if l.writer is Some {
                        1u64
                    } else {
                        0u64
                    }
                    &&& e.waiters == l.queue.len() as u64
                    &&& e.fencing_counter == l.fencing_counter
                    &&& e.max == l.max
                }
            &&& forall|i: int, j: int|
                0 <= i < j < top.len() ==> {
                    let a = (#[trigger] top[i]).key;
                    let b = (#[trigger] top[j]).key;
                    crowd(m.locks[a]) > crowd(m.locks[b]) || (crowd(m.locks[a]) == crowd(
                        m.locks[b],
                    ) && text::text_less(a, b))
                }
            &&& forall|k: Seq<char>| #[trigger]
                m.locks.dom().contains(k) && crowd(m.locks[k]) > 0 ==> (exists|i: int|
                    0 <= i < top.len() && (#[trigger] top[i]).key == k) || (top.len() == n
                    && forall|i: int|
                    0 <= i < top.len() ==> crowd(m.locks[(#[trigger] top[i]).key]) >= crowd(
                        m.locks[k],
                    ))
        }),
{
    let all = m.ranking();
    let ranks = lemma_ranks(m);
    ordered_map::lemma_ascending_walk::<Rank>(ranks);
    let top = m.top_keys(n);
    let count = if n < all.len() {
        n
    } else {
        all.len() as int
    };
    let few = all.take(count);
    assert(top.len() == count);
    assert forall|i: int| 0 <= i < top.len() implies (#[trigger] top[i])
        == m.locks[all[i].1].contention_of(all[i].1) && m.locks.dom().contains(all[i].1)
        && crowd(m.locks[all[i].1]) == all[i].0 && all[i].0 > 0 by {
        assert(few[i] == all[i]);
        assert(all.to_set().contains(all[i]));
        assert(ranks.contains(all[i]));
    }
    assert forall|i: int, j: int| 0 <= i < j < top.len() implies {
        let a = (#[trigger] top[i]).key;
        let b = (#[trigger] top[j]).key;
        crowd(m.locks[a]) > crowd(m.locks[b]) || (crowd(m.locks[a]) == crowd(m.locks[b])
            && text::text_less(a, b))
    } by {
        assert(Rank::less(all[i], all[j]));
    }
    assert forall|k: Seq<char>| #[trigger]
        m.locks.dom().contains(k) && crowd(m.locks[k]) > 0 implies (exists|i: int|
        0 <= i < top.len() && (#[trigger] top[i]).key == k) || (top.len() == n && forall|i: int|
        0 <= i < top.len() ==> crowd(m.locks[(#[trigger] top[i]).key]) >= crowd(m.locks[k])) by {
        let r = (crowd(m.locks[k]), k);
        assert(ranks.contains(r));
        assert(all.to_set().contains(r));
        let j = choose|j: int| 0 <= j < all.len() && all[j] == r;
        if j < count {
            assert(top[j].key == k);
        } else {
            assert forall|i: int| 0 <= i < top.len() implies crowd(
                m.locks[(#[trigger] top[i]).key],
            ) >= crowd(m.locks[k]) by {
                assert(Rank::less(all[i], all[j]));
            }
        }
    }
}

/// A lock or unlock request must name what it is about either as one key or as a list
/// of keys. One that does both or neither changes nothing, and its client is told that
/// it is in error.
pub proof fn a_request_names_its_keys_in_one_way(
    m: BrokerModel,
    client: ClientId,
    request: Request,
    overrides: GrantOverrides,
    clock: Clock,
    tape: Tape,
)
    requires
        match request {
            Request::Lock { key, keys, max, .. } => (key is Some <==> keys is Some) && max != Some(
                0u32,
            ),
            Request::Unlock { key, keys, .. } => key is Some <==> keys is Some,
            _ => false,
        },
    ensures
        ({
            let n = m.handled(client, request, overrides, clock, tape);
            let r = n.outbox.last().response;
            &&& n == BrokerModel { outbox: n.outbox, ..m }
            &&& acquiring::told(m, n, client, r)
            &&& r is Error
            &&& request matches Request::Lock { uuid, .. } ==> r->Error_uuid == uuid@
            &&& request matches Request::Unlock { uuid, .. } ==> r->Error_uuid == uuid@
        }),
{
}

/// A lock request for no slots at all is refused to the client that made it, about the
/// keys that it named.
pub proof fn a_request_for_no_slots_is_refused(
    m: BrokerModel,
    client: ClientId,
    request: Request,
    overrides: GrantOverrides,
    clock: Clock,
    tape: Tape,
)
    requires
        request matches Request::Lock { max: Some(0), .. },
    ensures
        ({
            let n = m.handled(client, request, overrides, clock, tape);
            let r = n.outbox.last().response;
            &&& n == BrokerModel { outbox: n.outbox, ..m }
            &&& acquiring::told(m, n, client, r)
            &&& request matches Request::Lock { uuid, key, keys: None, .. } ==> r is Lock
                && r->Lock_uuid == uuid@ && !r->Lock_acquired && r->Lock_lock_uuid is None
                && r->Lock_fencing_token is None && r->Lock_error is Some && (key is Some ==> r->Lock_key
                == key->0@)
            &&& request matches Request::Lock { uuid, keys: Some(ks), .. } ==> r is CompositeLock
                && r->CompositeLock_uuid == uuid@ && !r->CompositeLock_acquired
                && r->CompositeLock_lock_uuid is None && r->CompositeLock_error is Some
                && r->CompositeLock_keys == ordered_map::views(ks@)
        }),
{
}

/// A new broker has no keys, no clients and no deadlines, has counted nothing and sent
/// nothing; its first client is number one, the next one number two.
pub proof fn a_new_broker_knows_nobody(config: BrokerConfig)
    ensures
        ({
            let m = state::initial(config);
            let one = m.registered(m.next_client_id);
            let two = one.registered(one.next_client_id);
            &&& m.locks == Map::<Seq<char>, LockModel>::empty()
            &&& m.clients == Map::<ClientId, ClientModel>::empty()
            &&& m.deadlines == Map::<DeadlineKey, DeadlineModel>::empty()
            &&& m.outbox.len() == 0
            &&& m.config == config
            &&& m.ttl_evictions_total == 0 && m.concurrency_cap_clamps_total == 0
                && m.fencing_watermark == 0 && m.idle_keys_pruned_total == 0
            &&& one.clients.dom() == set![1u64]
            &&& two.clients.dom() == set![1u64, 2u64]
        }),
{
    let m = state::initial(config);
    let one = m.registered(m.next_client_id);
    books::a_client_connects_under_the_first_free_id(m, m.next_client_id, 1);
    books::a_client_connects_under_the_first_free_id(one, one.next_client_id, 2);
    let two = one.registered(one.next_client_id);
    assert(one.clients.dom() =~= set![1u64]);
    assert(two.clients.dom() =~= set![1u64, 2u64]);
}

} // verus!
