//! How the tokens of a key rise: what every operation does to them, as long as
//! the grants of waiters bring tokens above what their keys have reached.

use crate::broker::acquire::{CompositeLockRequest, ExclusiveLockRequest};
use crate::broker::laws;
use crate::broker::laws::Operation;
use crate::broker::model;
use crate::broker::model::{GrantStep, Tape};
use crate::broker::sweep;
use crate::broker::types::{
    BrokerModel, ClientId, Clock, DeadlineKey, DeliveryModel, GrantOverrides, LockModel,
    PendingModel,
};
use crate::ordered_map;
use crate::protocol;
use crate::protocol::{Request, ResponseModel, MAX_COMPOSITE_KEYS};
use crate::queue;
use vstd::prelude::*;

verus! {

/// The key is held under `id` with that token.
pub open spec fn holds(l: LockModel, id: Seq<char>, token: u64) -> bool {
    ||| l.exclusive_holders.dom().contains(id) && l.exclusive_holders[id].fencing_token == token
    ||| l.readers.dom().contains(id) && l.readers[id].fencing_token == token
    ||| l.writer matches Some(w) && w.lock_uuid == id && w.fencing_token == token
}

/// `key` is held under `id` with that token.
pub open spec fn held(m: BrokerModel, key: Seq<char>, id: Seq<char>, token: u64) -> bool {
    m.locks.dom().contains(key) && holds(m.locks[key], id, token)
}

/// Between `a` and `b`, `key` was granted under `id` with that token.
pub open spec fn granted(
    a: BrokerModel,
    b: BrokerModel,
    key: Seq<char>,
    id: Seq<char>,
    token: u64,
) -> bool {
    held(b, key, id, token) && !held(a, key, id, token)
}

/// From `m` to `n` no key's tokens go back, and what was granted on the way lies
/// within what its key has reached since; if `above`, also above what the key had
/// reached before, and no two of these grants share a token.
pub open spec fn rises(m: BrokerModel, n: BrokerModel, above: bool) -> bool {
    &&& forall|k: Seq<char>| m.reached(k) <= #[trigger] n.reached(k)
    &&& forall|k: Seq<char>, id: Seq<char>, t: u64| #[trigger]
        granted(m, n, k, id, t) ==> t <= n.reached(k) && (above ==> m.reached(k) < t)
    &&& above ==> forall|k: Seq<char>, id: Seq<char>, other: Seq<char>, t: u64| #[trigger]
        granted(m, n, k, id, t) && #[trigger] granted(m, n, k, other, t) ==> id == other
}

/// The delivery tells a client of a grant of `key` alone, with that token.
pub open spec fn tells(d: DeliveryModel, key: Seq<char>, token: u64) -> bool {
    match d.response {
        ResponseModel::Lock { key: k, acquired: true, fencing_token: Some(t), .. } => k == key && t
            == token,
        ResponseModel::RegisterReadResult { key: k, granted: true, fencing_token: Some(t), .. } => k
            == key && t == token,
        ResponseModel::RegisterWriteResult { key: k, granted: true, fencing_token: Some(t), .. } =>
        k == key && t == token,
        _ => false,
    }
}

/// The outbox of `n` continues that of `m`.
pub open spec fn extends(m: BrokerModel, n: BrokerModel) -> bool {
    &&& m.outbox.len() <= n.outbox.len()
    &&& forall|i: int| 0 <= i < m.outbox.len() ==> n.outbox[i] == #[trigger] m.outbox[i]
}

/// What is told between `m` and `n` of grants of a key: tokens above what the key
/// had reached, and each one larger than those told before.
pub open spec fn told(m: BrokerModel, n: BrokerModel) -> bool {
    &&& forall|i: int, k: Seq<char>, t: u64|
        m.outbox.len() <= i < n.outbox.len() && #[trigger] tells(n.outbox[i], k, t) ==> m.reached(k)
            < t <= n.reached(k)
    &&& forall|i: int, j: int, k: Seq<char>, t: u64, u: u64|
        m.outbox.len() <= i < j < n.outbox.len() && #[trigger] tells(n.outbox[i], k, t)
            && #[trigger] tells(n.outbox[j], k, u) ==> t < u
}

/// Nothing is told of grants of one key.
pub open spec fn quiet(m: BrokerModel, n: BrokerModel) -> bool {
    &&& extends(m, n)
    &&& forall|i: int, k: Seq<char>, t: u64|
        m.outbox.len() <= i < n.outbox.len() ==> !#[trigger] tells(n.outbox[i], k, t)
}

/// The tokens rise from `m` to `n`, and so do those that are told.
pub open spec fn climbs(m: BrokerModel, n: BrokerModel, above: bool) -> bool {
    &&& rises(m, n, above)
    &&& extends(m, n)
    &&& above ==> told(m, n)
}

/// Two climbs in a row are one.
pub proof fn lemma_joint(a: BrokerModel, b: BrokerModel, c: BrokerModel, above: bool)
    requires
        climbs(a, b, above),
        climbs(b, c, above),
    ensures
        climbs(a, c, above),
{
    assert forall|k: Seq<char>| a.reached(k) <= #[trigger] c.reached(k) by {
        assert(a.reached(k) <= b.reached(k));
    }
    assert forall|k: Seq<char>, id: Seq<char>, t: u64| #[trigger]
        granted(a, c, k, id, t) implies t <= c.reached(k) && (above ==> a.reached(k) < t) by {
        assert(a.reached(k) <= b.reached(k) <= c.reached(k));
        if held(b, k, id, t) {
            assert(granted(a, b, k, id, t));
        } else {
            assert(granted(b, c, k, id, t));
        }
    }
    if above {
        assert forall|k: Seq<char>, id: Seq<char>, other: Seq<char>, t: u64| #[trigger]
            granted(a, c, k, id, t) && #[trigger] granted(a, c, k, other, t) implies id
            == other by {
            assert(a.reached(k) <= b.reached(k) <= c.reached(k));
            if held(b, k, id, t) {
                assert(granted(a, b, k, id, t));
            } else {
                assert(granted(b, c, k, id, t));
            }
            if held(b, k, other, t) {
                assert(granted(a, b, k, other, t));
            } else {
                assert(granted(b, c, k, other, t));
            }
        }
        assert forall|i: int, k: Seq<char>, t: u64|
            a.outbox.len() <= i < c.outbox.len() && #[trigger] tells(
                c.outbox[i],
                k,
                t,
            ) implies a.reached(k) < t <= c.reached(k) by {
            assert(a.reached(k) <= b.reached(k) <= c.reached(k));
            if i < b.outbox.len() {
                assert(tells(b.outbox[i], k, t));
            }
        }
        assert forall|i: int, j: int, k: Seq<char>, t: u64, u: u64|
            a.outbox.len() <= i < j < c.outbox.len() && #[trigger] tells(c.outbox[i], k, t)
                && #[trigger] tells(c.outbox[j], k, u) implies t < u by {
            if i < b.outbox.len() {
                assert(tells(b.outbox[i], k, t));
            }
            if j < b.outbox.len() {
                assert(tells(b.outbox[j], k, u));
            }
        }
    }
    assert forall|i: int| 0 <= i < a.outbox.len() implies c.outbox[i] == #[trigger] a.outbox[i] by {
        assert(b.outbox[i] == a.outbox[i]);
    }
}

/// Where nothing is told, the tokens that are told rise, too.
proof fn lemma_silent(m: BrokerModel, n: BrokerModel, above: bool)
    requires
        rises(m, n, above),
        quiet(m, n),
    ensures
        climbs(m, n, above),
{
}

/// `l` is `key`'s state in `m`, or a state to start from.
pub open spec fn starts_from(m: BrokerModel, key: Seq<char>, l: LockModel) -> bool {
    if m.locks.dom().contains(key) {
        l == m.locks[key]
    } else {
        m.fencing_watermark <= l.fencing_counter && forall|id: Seq<char>, t: u64|
            !#[trigger] holds(l, id, t)
    }
}

/// `l` has become `g`: what is held besides has a token up to the counter and the
/// watermark; if `above`, also above `floor`, and each its own.
pub open spec fn lifted(
    l: LockModel,
    g: LockModel,
    floor: u64,
    watermark: u64,
    above: bool,
) -> bool {
    &&& l.fencing_counter <= g.fencing_counter
    &&& forall|id: Seq<char>, t: u64| #[trigger]
        holds(g, id, t) ==> holds(l, id, t) || (t <= g.fencing_counter && t
            <= watermark && (above ==> floor < t))
    &&& above ==> forall|id: Seq<char>, other: Seq<char>, t: u64| #[trigger]
        holds(g, id, t) && #[trigger] holds(g, other, t) && !holds(l, id, t) && !holds(l, other, t)
            ==> id == other
}

/// One more key rises. `a` lies on the way from `m` to `n` and has `key` as `m` has
/// it.
proof fn lemma_one_more(
    m: BrokerModel,
    a: BrokerModel,
    n: BrokerModel,
    key: Seq<char>,
    base: LockModel,
    above: bool,
)
    requires
        rises(m, a, above),
        m.fencing_watermark <= a.fencing_watermark <= n.fencing_watermark,
        a.locks.dom().contains(key) == m.locks.dom().contains(key),
        starts_from(m, key, base),
        n.locks == a.locks.insert(key, n.locks[key]),
        lifted(base, n.locks[key], m.reached(key), n.fencing_watermark, above),
    ensures
        rises(m, n, above),
{
    let g = n.locks[key];
    assert forall|k: Seq<char>| m.reached(k) <= #[trigger] n.reached(k) by {
        if k != key {
            assert(m.reached(k) <= a.reached(k));
        }
    }
    assert forall|k: Seq<char>, id: Seq<char>, t: u64| #[trigger]
        granted(m, n, k, id, t) implies t <= n.reached(k) && (above ==> m.reached(k)
        < t) by {
        if k != key {
            assert(granted(m, a, k, id, t));
            assert(a.reached(k) <= n.reached(k));
        } else {
            assert(holds(g, id, t));
            assert(!holds(base, id, t)) by {
                if m.locks.dom().contains(key) {
                    assert(!held(m, key, id, t));
                }
            }
        }
    }
    if above {
        assert forall|k: Seq<char>, id: Seq<char>, other: Seq<char>, t: u64| #[trigger]
            granted(m, n, k, id, t) && #[trigger] granted(m, n, k, other, t) implies id
            == other by {
            if k != key {
                assert(granted(m, a, k, id, t));
                assert(granted(m, a, k, other, t));
            } else {
                assert(holds(g, id, t) && holds(g, other, t));
                if m.locks.dom().contains(key) {
                    assert(!held(m, key, id, t) && !held(m, key, other, t));
                }
            }
        }
    }
}

/// At most one thing more is told: a grant of `key`, with a token up to what it has
/// reached then; if `above`, also above what it had reached before.
pub open spec fn says(m: BrokerModel, n: BrokerModel, key: Seq<char>, above: bool) -> bool {
    &&& extends(m, n)
    &&& n.outbox.len() <= m.outbox.len() + 1
    &&& forall|i: int, k: Seq<char>, t: u64|
        m.outbox.len() <= i < n.outbox.len() && #[trigger] tells(n.outbox[i], k, t) ==> k == key && t
            <= n.reached(key) && (above ==> m.reached(key) < t)
}

/// One key rises.
pub proof fn lemma_key(m: BrokerModel, n: BrokerModel, key: Seq<char>, base: LockModel, above: bool)
    requires
        says(m, n, key, above),
        m.fencing_watermark <= n.fencing_watermark,
        starts_from(m, key, base),
        n.locks == m.locks.insert(key, n.locks[key]),
        lifted(base, n.locks[key], m.reached(key), n.fencing_watermark, above),
    ensures
        climbs(m, n, above),
{
    lemma_one_more(m, m, n, key, base, above);
}

/// A key that does not exist yet starts at the watermark or above.
pub proof fn lemma_fresh(m: BrokerModel, key: Seq<char>, wall_ms: u64)
    ensures
        starts_from(m, key, m.lock_or_fresh(key, wall_ms)),
{
}

/// An idle mark grants nothing.
proof fn lemma_mark(m: BrokerModel, key: Seq<char>, now: u128)
    ensures
        climbs(m, m.idle_marked(key, now), true),
{
    if m.locks.dom().contains(key) {
        lemma_key(m, m.idle_marked(key, now), key, m.locks[key], true);
    }
}

/// `n` differs from `m` in what only takes away, keys, holders and waiters, and in
/// answers that tell of no grant.
pub open spec fn reduced(m: BrokerModel, n: BrokerModel) -> bool {
    &&& quiet(m, n)
    &&& n.fencing_watermark == m.fencing_watermark
    &&& n.locks.dom().subset_of(m.locks.dom())
    &&& forall|k: Seq<char>| #[trigger]
        n.locks.dom().contains(k) ==> {
            &&& n.locks[k].fencing_counter == m.locks[k].fencing_counter
            &&& model::queue_work(n.locks[k].queue) <= model::queue_work(m.locks[k].queue)
            &&& forall|i: int|
                0 <= i < n.locks[k].queue.len() ==> m.locks[k].queue.contains(
                    #[trigger] n.locks[k].queue[i],
                )
            &&& forall|id: Seq<char>, t: u64| #[trigger]
                holds(n.locks[k], id, t) ==> holds(m.locks[k], id, t)
        }
}

/// What holds of `inv` while waiters are granted: it is kept, each grant brings a
/// token above what its key has reached, and taking away does not harm.
pub open spec fn kept(inv: spec_fn(BrokerModel) -> bool, clock: Clock, tape: Tape) -> bool {
    &&& forall|a: BrokerModel, k: Seq<char>|
        a.locks.dom().finite() && #[trigger] inv(a) ==> match #[trigger] a.grant_step(
            k,
            clock,
            tape,
        ) {
            GrantStep::Blocked => true,
            GrantStep::Granted(n) => inv(n) && climbs(a, n, true),
            GrantStep::Moved(n, _) => inv(n) && climbs(a, n, true),
        }
    &&& forall|a: BrokerModel, k: Seq<char>| #[trigger]
        inv(a) ==> inv(#[trigger] a.idle_marked(k, clock.now))
    &&& forall|a: BrokerModel, b: BrokerModel|
        a.locks.dom().finite() && #[trigger] inv(a) && #[trigger] reduced(a, b) ==> inv(b)
}

/// Settling grants in ascending order.
proof fn lemma_settle(
    m: BrokerModel,
    stack: Seq<Seq<char>>,
    clock: Clock,
    tape: Tape,
    inv: spec_fn(BrokerModel) -> bool,
)
    requires
        m.locks.dom().finite(),
        inv(m),
        kept(inv, clock, tape),
    ensures
        m.settled(stack, clock, tape).locks.dom().finite(),
        inv(m.settled(stack, clock, tape)),
        climbs(m, m.settled(stack, clock, tape), true),
{
    let both = |a: BrokerModel| inv(a) && climbs(m, a, true);
    assert forall|a: BrokerModel, k: Seq<char>|
        a.locks.dom().finite() && #[trigger] both(a) implies match #[trigger] a.grant_step(
        k,
        clock,
        tape,
    ) {
        GrantStep::Blocked => true,
        GrantStep::Granted(n) => both(n),
        GrantStep::Moved(n, _) => both(n),
    } by {
        assert(inv(a));
        match a.grant_step(k, clock, tape) {
            GrantStep::Blocked => {},
            GrantStep::Granted(n) => {
                lemma_joint(m, a, n, true);
            },
            GrantStep::Moved(n, _) => {
                lemma_joint(m, a, n, true);
            },
        }
    }
    assert forall|a: BrokerModel, k: Seq<char>| #[trigger] both(a) implies both(
        #[trigger] a.idle_marked(k, clock.now),
    ) by {
        assert(inv(a));
        lemma_mark(a, k, clock.now);
        lemma_joint(m, a, a.idle_marked(k, clock.now), true);
    }
    assert(both(m));
    laws::lemma_settled(m, stack, clock, tape, both);
}

/// Taking away grants nothing.
proof fn lemma_reduced(m: BrokerModel, n: BrokerModel)
    requires
        m.locks.dom().finite(),
        reduced(m, n),
    ensures
        n.locks.dom().finite(),
        climbs(m, n, true),
{
    vstd::set_lib::lemma_len_subset(n.locks.dom(), m.locks.dom());
    assert forall|k: Seq<char>, id: Seq<char>, t: u64| !#[trigger] granted(m, n, k, id, t) by {
        if granted(m, n, k, id, t) {
            assert(holds(n.locks[k], id, t));
        }
    }
    assert(rises(m, n, true));
    lemma_silent(m, n, true);
}

/// What is taken away, and what that lets others have.
proof fn lemma_reduced_settle(
    m: BrokerModel,
    n: BrokerModel,
    stack: Seq<Seq<char>>,
    clock: Clock,
    tape: Tape,
    inv: spec_fn(BrokerModel) -> bool,
)
    requires
        m.locks.dom().finite(),
        inv(m),
        kept(inv, clock, tape),
        reduced(m, n),
    ensures
        n.settled(stack, clock, tape).locks.dom().finite(),
        inv(n.settled(stack, clock, tape)),
        climbs(m, n.settled(stack, clock, tape), true),
{
    lemma_reduced(m, n);
    assert(inv(m) && reduced(m, n));
    lemma_settle(n, stack, clock, tape, inv);
    lemma_joint(m, n, n.settled(stack, clock, tape), true);
}

/// Queues that stay as they are.
proof fn lemma_same_queues(m: BrokerModel, n: BrokerModel)
    requires
        forall|k: Seq<char>| #[trigger]
            n.locks.dom().contains(k) ==> n.locks[k].queue == m.locks[k].queue,
    ensures
        forall|k: Seq<char>, i: int|
            n.locks.dom().contains(k) && 0 <= i < n.locks[k].queue.len()
                ==> m.locks[k].queue.contains(#[trigger] n.locks[k].queue[i]),
{
    assert forall|k: Seq<char>, i: int|
        n.locks.dom().contains(k) && 0 <= i
            < n.locks[k].queue.len() implies m.locks[k].queue.contains(
        #[trigger] n.locks[k].queue[i],
    ) by {
        assert(m.locks[k].queue[i] == n.locks[k].queue[i]);
    }
}

/// Only locks, watermark and outbox matter.
proof fn lemma_same(a: BrokerModel, b: BrokerModel, m: BrokerModel, n: BrokerModel, above: bool)
    requires
        climbs(a, m, above),
        b.locks == a.locks,
        b.fencing_watermark == a.fencing_watermark,
        b.outbox == a.outbox,
        n.locks == m.locks,
        n.fencing_watermark == m.fencing_watermark,
        quiet(m, n),
    ensures
        climbs(b, n, above),
{
    assert forall|k: Seq<char>| b.reached(k) <= #[trigger] n.reached(k) by {
        assert(a.reached(k) <= m.reached(k));
    }
    assert forall|k: Seq<char>, id: Seq<char>, t: u64| #[trigger]
        granted(b, n, k, id, t) implies t <= n.reached(k) && (above ==> b.reached(k)
        < t) by {
        assert(granted(a, m, k, id, t));
    }
    if above {
        assert forall|k: Seq<char>, id: Seq<char>, other: Seq<char>, t: u64| #[trigger]
            granted(b, n, k, id, t) && #[trigger] granted(b, n, k, other, t) implies id
            == other by {
            assert(granted(a, m, k, id, t));
            assert(granted(a, m, k, other, t));
        }
        assert forall|i: int, k: Seq<char>, t: u64|
            b.outbox.len() <= i < n.outbox.len() && #[trigger] tells(
                n.outbox[i],
                k,
                t,
            ) implies b.reached(k) < t <= n.reached(k) by {
            assert(i < m.outbox.len());
            assert(tells(m.outbox[i], k, t));
            assert(a.reached(k) < t <= m.reached(k));
        }
        assert forall|i: int, j: int, k: Seq<char>, t: u64, u: u64|
            b.outbox.len() <= i < j < n.outbox.len() && #[trigger] tells(n.outbox[i], k, t)
                && #[trigger] tells(n.outbox[j], k, u) implies t < u by {
            assert(j < m.outbox.len());
            assert(tells(m.outbox[i], k, t));
            assert(tells(m.outbox[j], k, u));
        }
    }
    assert forall|i: int| 0 <= i < b.outbox.len() implies n.outbox[i] == #[trigger] b.outbox[i] by {
        assert(m.outbox[i] == a.outbox[i]);
    }
}

/// A claim about less.
proof fn lemma_weaker(m: BrokerModel, n: BrokerModel, above: bool)
    requires
        climbs(m, n, true),
    ensures
        climbs(m, n, above),
{
}

/// The tokens imposed on a request lie above all that was granted, if `above`.
pub open spec fn well_above(m: BrokerModel, overrides: GrantOverrides, above: bool) -> bool {
    above ==> (overrides.fencing_seed matches Some(first) ==> m.fencing_watermark < first)
}

/// Where no token is imposed, each key can still be counted up.
pub open spec fn mints(m: BrokerModel, wall_ms: u64, seed: Option<u64>) -> bool {
    seed is None ==> forall|k: Seq<char>| #[trigger]
        m.lock_or_fresh(k, wall_ms).fencing_counter < u64::MAX
}

/// A single-key lock request.
proof fn lemma_exclusive(
    m: BrokerModel,
    r: ExclusiveLockRequest,
    clock: Clock,
    tape: Tape,
    above: bool,
)
    requires
        mints(m, clock.wall_ms, r.grant_overrides.fencing_seed),
        well_above(m, r.grant_overrides, above),
    ensures
        climbs(m, m.exclusive_requested(r, clock, tape), above),
{
    let key = r.key@;
    let n = m.exclusive_requested(r, clock, tape);
    let base = m.lock_or_fresh(key, clock.wall_ms);
    lemma_fresh(m, key, clock.wall_ms);
    assert(n.locks =~= m.locks.insert(key, n.locks[key]));
    assert(lifted(base, n.locks[key], m.reached(key), n.fencing_watermark, above));
    lemma_key(m, n, key, base, above);
}

/// The members of a composite lock.
proof fn lemma_members(
    m: BrokerModel,
    keys: Seq<Seq<char>>,
    n: nat,
    id: Seq<char>,
    client: ClientId,
    pid: Option<i64>,
    seed: Option<u64>,
    wall_ms: u64,
    above: bool,
)
    requires
        m.locks.dom().finite(),
        keys.no_duplicates(),
        n <= keys.len(),
        mints(m, wall_ms, seed),
        above ==> (seed matches Some(first) ==> m.fencing_watermark < first),
    ensures
        ({
            let held = m.members_held(keys, n, id, client, pid, seed, wall_ms);
            &&& climbs(m, held.state.observed(held.top), above)
            &&& held.state.outbox == m.outbox
        }),
    decreases n,
{
    let held = m.members_held(keys, n, id, client, pid, seed, wall_ms);
    let s = held.state.observed(held.top);
    if n == 0 {
        assert(s.locks == m.locks);
        assert(s.fencing_watermark == m.fencing_watermark);
        lemma_same(m, m, m, s, above);
    } else {
        lemma_members(m, keys, (n - 1) as nat, id, client, pid, seed, wall_ms, above);
        laws::lemma_members_frame(m, keys, (n - 1) as nat, id, client, pid, seed, wall_ms);
        let before = m.members_held(keys, (n - 1) as nat, id, client, pid, seed, wall_ms);
        let prior = before.state.observed(before.top);
        let key = keys[n - 1];
        let front = keys.take(n - 1);
        assert(!front.contains(key)) by {
            if front.contains(key) {
                let j = choose|j: int| 0 <= j < front.len() && #[trigger] front[j] == key;
                assert(keys[j] == keys[n - 1]);
            }
        }
        let base = before.state.lock_or_fresh(key, wall_ms);
        assert(base == m.lock_or_fresh(key, wall_ms) && before.state.locks.dom().contains(key)
            == m.locks.dom().contains(key)) by {
            if m.locks.dom().contains(key) {
                assert(before.state.locks[key] == m.locks[key]);
            } else {
                assert(!front.to_set().contains(key));
            }
        }
        lemma_fresh(m, key, wall_ms);
        assert(s.locks == prior.locks.insert(key, s.locks[key]));
        assert(lifted(base, s.locks[key], m.reached(key), s.fencing_watermark, above));
        lemma_one_more(m, prior, s, key, base, above);
        lemma_silent(m, s, above);
    }
}

/// Idle marks grant nothing.
proof fn lemma_marks(m: BrokerModel, keys: Seq<Seq<char>>, n: nat, now: u128)
    ensures
        climbs(m, m.all_idle_marked(keys, n, now), true),
    decreases n,
{
    if n > 0 {
        lemma_marks(m, keys, (n - 1) as nat, now);
        let before = m.all_idle_marked(keys, (n - 1) as nat, now);
        lemma_mark(before, keys[n - 1], now);
        lemma_joint(m, before, m.all_idle_marked(keys, n, now), true);
    }
}

/// A multi-key lock request.
proof fn lemma_composite(
    m: BrokerModel,
    r: CompositeLockRequest,
    clock: Clock,
    tape: Tape,
    above: bool,
    inv: spec_fn(BrokerModel) -> bool,
)
    requires
        m.locks.dom().finite(),
        kept(inv, clock, tape),
        0 < r.keys@.len() <= MAX_COMPOSITE_KEYS ==> {
            &&& mints(m, clock.wall_ms, r.grant_overrides.fencing_seed)
            &&& well_above(m, r.grant_overrides, above)
            &&& inv(laws::composite_queued(m, r, clock, tape))
        },
    ensures
        climbs(m, m.composite_requested(r, clock, tape), above),
{
    let asked = ordered_map::views(r.keys@);
    let keys = ordered_map::sorted_distinct(asked);
    let n = m.composite_requested(r, clock, tape);
    let given = protocol::shown_text(r.grant_overrides.lock_uuid);
    let seed = r.grant_overrides.fencing_seed;
    let id = m.grant_id(given, tape);
    let t = m.id_taken(given);
    ordered_map::lemma_sorted_distinct(asked);
    laws::lemma_composite_cases(m, r, clock, tape);
    if asked.len() == 0 || asked.len() > MAX_COMPOSITE_KEYS {
        lemma_same(m, m, m, n, above);
    } else if m.all_vacant(keys) {
        let held = laws::composite_granted(m, r, clock, tape);
        let s = held.state.observed(held.top);
        ordered_map::lemma_ascending_no_duplicates::<String>(keys);
        assert(mints(t, clock.wall_ms, seed)) by {
            assert forall|k: Seq<char>| #[trigger]
                t.lock_or_fresh(k, clock.wall_ms) == m.lock_or_fresh(k, clock.wall_ms) by {}
        }
        lemma_members(t, keys, keys.len(), id, r.client, r.pid, seed, clock.wall_ms, above);
        lemma_same(t, m, s, s, above);
        lemma_marks(s, keys, keys.len(), clock.now);
        laws::lemma_marks_frame(s, keys, keys.len(), clock.now);
        let marked = s.all_idle_marked(keys, keys.len(), clock.now);
        lemma_weaker(s, marked, above);
        lemma_joint(m, s, marked, above);
        lemma_same(m, m, marked, n, above);
    } else if !r.wait {
        lemma_same(m, m, m, n, above);
    } else {
        let queued = laws::composite_queued(m, r, clock, tape);
        let base = m.lock_or_fresh(keys[0], clock.wall_ms);
        lemma_fresh(m, keys[0], clock.wall_ms);
        assert(t.lock_or_fresh(keys[0], clock.wall_ms) == base);
        assert(queued.locks =~= m.locks.insert(keys[0], queued.locks[keys[0]]));
        lemma_key(m, queued, keys[0], base, true);
        lemma_settle(queued, seq![keys[0]], clock, tape, inv);
        lemma_joint(m, queued, n, true);
        lemma_weaker(m, n, above);
    }
}

/// An unlock request.
proof fn lemma_unlock(
    m: BrokerModel,
    client: ClientId,
    uuid: Seq<char>,
    keys: Seq<Seq<char>>,
    lock_uuid: Option<Seq<char>>,
    force: bool,
    clock: Clock,
    tape: Tape,
    inv: spec_fn(BrokerModel) -> bool,
)
    requires
        m.locks.dom().finite(),
        inv(m),
        kept(inv, clock, tape),
    ensures
        climbs(m, m.unlock_requested(client, uuid, keys, lock_uuid, force, clock, tape), true),
{
    let done = m.unlock_requested(client, uuid, keys, lock_uuid, force, clock, tape);
    if keys.len() > 0 && (lock_uuid is Some || force) {
        let n = m.unlocked(client, keys, lock_uuid, force);
        let s = n.settled(keys.reverse(), clock, tape);
        lemma_same_queues(m, n);
        lemma_reduced_settle(m, n, keys.reverse(), clock, tape, inv);
        lemma_same(m, m, s, done, true);
    } else {
        lemma_same(m, m, m, done, true);
    }
}

/// A read or write request.
proof fn lemma_shared(
    m: BrokerModel,
    client: ClientId,
    uuid: Seq<char>,
    key: Seq<char>,
    given: Option<Seq<char>>,
    seed: Option<u64>,
    clock: Clock,
    tape: Tape,
    above: bool,
)
    requires
        mints(m, clock.wall_ms, seed),
        above ==> (seed matches Some(first) ==> m.fencing_watermark < first),
    ensures
        climbs(m, m.read_requested(client, uuid, key, given, seed, clock, tape), above),
        climbs(m, m.write_requested(client, uuid, key, given, seed, clock, tape), above),
{
    let base = m.lock_or_fresh(key, clock.wall_ms);
    lemma_fresh(m, key, clock.wall_ms);
    let r = m.read_requested(client, uuid, key, given, seed, clock, tape);
    assert(r.locks =~= m.locks.insert(key, r.locks[key]));
    assert(lifted(base, r.locks[key], m.reached(key), r.fencing_watermark, above));
    lemma_key(m, r, key, base, above);
    let w = m.write_requested(client, uuid, key, given, seed, clock, tape);
    assert(w.locks =~= m.locks.insert(key, w.locks[key]));
    assert(lifted(base, w.locks[key], m.reached(key), w.fencing_watermark, above));
    lemma_key(m, w, key, base, above);
}

/// A request whose grant takes tokens.
pub open spec fn takes_tokens(request: Request) -> bool {
    match request {
        Request::Lock { key: Some(_), keys: None, .. } => true,
        Request::Lock { key: None, keys: Some(keys), .. } => 0 < keys@.len()
            <= MAX_COMPOSITE_KEYS,
        Request::RegisterRead { .. } => true,
        Request::RegisterWrite { .. } => true,
        _ => false,
    }
}

/// `inv` also holds once a multi-key request has joined the queue of its first key.
pub open spec fn admits_composites(
    m: BrokerModel,
    overrides: GrantOverrides,
    clock: Clock,
    tape: Tape,
    inv: spec_fn(BrokerModel) -> bool,
) -> bool {
    forall|r: CompositeLockRequest|
        r.grant_overrides == overrides && 0 < r.keys@.len() <= MAX_COMPOSITE_KEYS ==> inv(
            #[trigger] laws::composite_queued(m, r, clock, tape),
        )
}

/// Every request.
proof fn lemma_request(
    m: BrokerModel,
    client: ClientId,
    request: Request,
    overrides: GrantOverrides,
    clock: Clock,
    tape: Tape,
    above: bool,
    inv: spec_fn(BrokerModel) -> bool,
)
    requires
        m.locks.dom().finite(),
        inv(m),
        kept(inv, clock, tape),
        takes_tokens(request) ==> {
            &&& mints(m, clock.wall_ms, overrides.fencing_seed)
            &&& well_above(m, overrides, above)
            &&& admits_composites(m, overrides, clock, tape, inv)
        },
    ensures
        climbs(m, m.handled(client, request, overrides, clock, tape), above),
{
    let n = m.handled(client, request, overrides, clock, tape);
    let given = protocol::shown_text(overrides.lock_uuid);
    let seed = overrides.fencing_seed;
    match request {
        Request::Lock {
            uuid,
            key,
            keys,
            pid,
            ttl,
            max,
            force,
            keep_locks_after_death,
            wait,
            ..
        } => {
            let waits = wait matches Some(w) ==> w;
            if max == Some(0u32) {
                lemma_same(m, m, m, n, above);
            } else {
                match (key, keys) {
                    (Some(k), None) => {
                        lemma_exclusive(
                            m,
                            ExclusiveLockRequest {
                                client,
                                uuid,
                                key: k,
                                pid,
                                ttl,
                                max,
                                keep_locks_after_death,
                                force,
                                wait: waits,
                                grant_overrides: overrides,
                            },
                            clock,
                            tape,
                            above,
                        );
                    },
                    (None, Some(ks)) => {
                        lemma_composite(
                            m,
                            CompositeLockRequest {
                                client,
                                uuid,
                                keys: ks,
                                pid,
                                ttl,
                                wait: waits,
                                grant_overrides: overrides,
                            },
                            clock,
                            tape,
                            above,
                            inv,
                        );
                    },
                    _ => {
                        lemma_same(m, m, m, n, above);
                    },
                }
            }
        },
        Request::Unlock { uuid, key, keys, lock_uuid, force } => {
            let target = protocol::shown_text(lock_uuid);
            match (key, keys) {
                (Some(k), None) => {
                    lemma_unlock(m, client, uuid@, seq![k@], target, force, clock, tape, inv);
                },
                (None, Some(ks)) => {
                    lemma_unlock(
                        m,
                        client,
                        uuid@,
                        ordered_map::views(ks@),
                        target,
                        force,
                        clock,
                        tape,
                        inv,
                    );
                },
                _ => {
                    lemma_same(m, m, m, n, true);
                },
            }
            lemma_weaker(m, n, above);
        },
        Request::RegisterRead { uuid, key } => {
            lemma_shared(m, client, uuid@, key@, given, seed, clock, tape, above);
        },
        Request::RegisterWrite { uuid, key } => {
            lemma_shared(m, client, uuid@, key@, given, seed, clock, tape, above);
        },
        Request::EndRead { uuid, key } => {
            if m.locks.dom().contains(key@) {
                let ended = m.read_released(client, uuid@, key@);
                lemma_same_queues(m, ended);
                lemma_reduced_settle(m, ended, seq![key@], clock, tape, inv);
            } else {
                lemma_same(m, m, m, n, true);
            }
            lemma_weaker(m, n, above);
        },
        Request::EndWrite { uuid, key } => {
            if m.locks.dom().contains(key@) {
                let ended = m.write_released(client, uuid@, key@);
                lemma_same_queues(m, ended);
                lemma_reduced_settle(m, ended, seq![key@], clock, tape, inv);
            } else {
                lemma_same(m, m, m, n, true);
            }
            lemma_weaker(m, n, above);
        },
        _ => {
            lemma_same(m, m, m, n, above);
        },
    }
}

/// Leaving waiters out makes no more work.
pub proof fn lemma_filtered(
    q: Seq<(Seq<char>, PendingModel)>,
    keep: spec_fn((Seq<char>, PendingModel)) -> bool,
)
    ensures
        model::queue_work(q.filter(keep)) <= model::queue_work(q),
        forall|i: int|
            0 <= i < q.filter(keep).len() ==> q.contains(#[trigger] q.filter(keep)[i]),
    decreases q.len(),
{
    assert forall|i: int| 0 <= i < q.filter(keep).len() implies q.contains(
        #[trigger] q.filter(keep)[i],
    ) by {
        assert(q.filter(keep).contains(q.filter(keep)[i]));
        queue::lemma_filter_from(q, keep, q.filter(keep)[i]);
    }
    reveal(Seq::filter);
    if q.len() > 0 {
        let rest = q.drop_last();
        lemma_filtered(rest, keep);
        assert(q =~= rest.push(q.last()));
        model::lemma_queue_work_push(rest, q.last());
        let kept = rest.filter(keep);
        if keep(q.last()) {
            model::lemma_queue_work_push(kept, q.last());
            assert(q.filter(keep) == kept.push(q.last()));
        }
    }
}

/// Dropping a client.
proof fn lemma_drop(
    m: BrokerModel,
    client: ClientId,
    clock: Clock,
    tape: Tape,
    inv: spec_fn(BrokerModel) -> bool,
)
    requires
        m.locks.dom().finite(),
        inv(m),
        kept(inv, clock, tape),
    ensures
        climbs(m, m.client_dropped(client, clock, tape), true),
{
    if m.clients.dom().contains(client) {
        let n = m.handle_dropped(client);
        let c = m.clients[client];
        let stack = ordered_map::ascending_keys::<String>(m.keys_touched(c)).reverse();
        assert forall|k: Seq<char>| #[trigger] n.locks.dom().contains(k) implies {
            &&& n.locks[k].fencing_counter == m.locks[k].fencing_counter
            &&& model::queue_work(n.locks[k].queue) <= model::queue_work(m.locks[k].queue)
            &&& forall|i: int|
                0 <= i < n.locks[k].queue.len() ==> m.locks[k].queue.contains(
                    #[trigger] n.locks[k].queue[i],
                )
            &&& forall|id: Seq<char>, t: u64| #[trigger]
                holds(n.locks[k], id, t) ==> holds(m.locks[k], id, t)
        } by {
            assert(m.locks.dom().contains(k));
            lemma_filtered(
                m.locks[k].queue,
                |e: (Seq<char>, PendingModel)| !c.pending_request_uuids.contains((k, e.0)),
            );
        }
        lemma_reduced_settle(m, n, stack, clock, tape, inv);
    } else {
        let n = m.stranger_dropped(client);
        let stack = ordered_map::ascending_keys::<String>(m.keys_of_stranger(client)).reverse();
        assert forall|k: Seq<char>| #[trigger] n.locks.dom().contains(k) implies {
            &&& n.locks[k].fencing_counter == m.locks[k].fencing_counter
            &&& model::queue_work(n.locks[k].queue) <= model::queue_work(m.locks[k].queue)
            &&& forall|i: int|
                0 <= i < n.locks[k].queue.len() ==> m.locks[k].queue.contains(
                    #[trigger] n.locks[k].queue[i],
                )
            &&& forall|id: Seq<char>, t: u64| #[trigger]
                holds(n.locks[k], id, t) ==> holds(m.locks[k], id, t)
        } by {
            assert(m.locks.dom().contains(k));
            lemma_filtered(
                m.locks[k].queue,
                |e: (Seq<char>, PendingModel)| e.1.client != client,
            );
        }
        lemma_reduced_settle(m, n, stack, clock, tape, inv);
    }
}

/// Deadlines that pass.
proof fn lemma_deadlines(
    m: BrokerModel,
    keys: Seq<DeadlineKey>,
    clock: Clock,
    tape: Tape,
    inv: spec_fn(BrokerModel) -> bool,
)
    requires
        m.locks.dom().finite(),
        inv(m),
        kept(inv, clock, tape),
    ensures
        m.deadlines_met(keys).state.locks.dom().finite(),
        inv(m.deadlines_met(keys).state),
        climbs(m, m.deadlines_met(keys).state, true),
    decreases keys.len(),
{
    if keys.len() > 0 {
        lemma_deadlines(m, keys.drop_last(), clock, tape, inv);
        let before = m.deadlines_met(keys.drop_last()).state;
        let n = m.deadlines_met(keys).state;
        lemma_same_queues(before, n);
        assert(reduced(before, n));
        assert(inv(before));
        lemma_reduced(before, n);
        lemma_joint(m, before, n, true);
    }
}

/// A sweep.
proof fn lemma_sweep(
    m: BrokerModel,
    now: u128,
    clock: Clock,
    tape: Tape,
    inv: spec_fn(BrokerModel) -> bool,
)
    requires
        m.locks.dom().finite(),
        inv(m),
        kept(inv, clock, tape),
    ensures
        climbs(m, m.swept(now, clock, tape), true),
{
    let keys = sweep::expired_keys(m.deadlines, now);
    let met = m.deadlines_met(keys);
    lemma_deadlines(m, keys, clock, tape, inv);
    let stack = ordered_map::ascending_keys::<String>(met.touched).reverse();
    lemma_settle(met.state, stack, clock, tape, inv);
    let s = met.state.settled(stack, clock, tape);
    let n = s.pruned(now);
    lemma_joint(m, met.state, s, true);
    lemma_same_queues(s, n);
    lemma_reduced(s, n);
    lemma_joint(m, s, n, true);
}

/// Turning a holder into a bearer token.
proof fn lemma_detach(m: BrokerModel, lock_uuid: Seq<char>)
    requires
        m.locks.dom().finite(),
    ensures
        climbs(m, m.owner_detached(lock_uuid), true),
{
    let n = m.owner_detached(lock_uuid);
    assert forall|k: Seq<char>| #[trigger] n.locks.dom().contains(k) implies n.locks[k]
        == m.locks[k].disowned(lock_uuid) by {
        assert(m.locks.dom().contains(k));
    }
    lemma_same_queues(m, n);
    lemma_reduced(m, n);
}

/// The operation imposes no token at or below one that has been granted.
pub open spec fn ascending(m: BrokerModel, op: Operation) -> bool {
    op matches Operation::Request { overrides, .. } ==> (overrides.fencing_seed matches Some(first)
        ==> m.fencing_watermark < first)
}

/// The clocks of an operation.
pub open spec fn clock_of(op: Operation) -> Clock {
    match op {
        Operation::Request { clock, .. } => clock,
        Operation::Drop { clock, .. } => clock,
        Operation::Sweep { clock, .. } => clock,
        _ => Clock { now: 0, wall_ms: 0 },
    }
}

/// The operation leaves the outbox to the broker: it does not empty it, and puts no
/// notice of a grant into it.
pub open spec fn tellable(op: Operation) -> bool {
    match op {
        Operation::Notice { response, .. } => forall|d: DeliveryModel, k: Seq<char>, t: u64|
            d.response == response ==> !#[trigger] tells(d, k, t),
        Operation::TakeOutbox => false,
        _ => true,
    }
}

/// Whatever happens, the tokens of every key rise, as long as `inv` lets those of
/// waiters rise.
pub proof fn lemma_operation(
    m: BrokerModel,
    op: Operation,
    tape: Tape,
    above: bool,
    inv: spec_fn(BrokerModel) -> bool,
)
    requires
        m.locks.dom().finite(),
        inv(m),
        kept(inv, clock_of(op), tape),
        op matches Operation::Request { request, overrides, clock, .. } ==> (takes_tokens(request)
            ==> {
            &&& mints(m, clock.wall_ms, overrides.fencing_seed)
            &&& well_above(m, overrides, above)
            &&& admits_composites(m, overrides, clock, tape, inv)
        }),
    ensures
        rises(m, laws::after(m, op, tape), above),
        tellable(op) ==> climbs(m, laws::after(m, op, tape), above),
{
    let n = laws::after(m, op, tape);
    match op {
        Operation::Request { client, request, overrides, clock } => {
            lemma_request(m, client, request, overrides, clock, tape, above, inv);
        },
        Operation::Drop { client, clock } => {
            lemma_drop(m, client, clock, tape, inv);
        },
        Operation::Sweep { now, clock } => {
            lemma_sweep(m, now, clock, tape, inv);
        },
        Operation::DetachOwner { lock_uuid } => {
            lemma_detach(m, lock_uuid);
        },
        _ => {
            let same = BrokerModel { outbox: m.outbox, ..n };
            lemma_same(m, m, m, same, above);
            assert forall|k: Seq<char>, id: Seq<char>, t: u64| !#[trigger] granted(
                m,
                n,
                k,
                id,
                t,
            ) by {
                assert(!granted(m, m, k, id, t));
            }
            if tellable(op) {
                lemma_same(m, m, m, n, above);
            }
        },
    }
}

/// At most one holder of `key` has that token, and the key has reached it.
pub open spec fn sole(m: BrokerModel, key: Seq<char>, token: u64) -> bool {
    &&& forall|id: Seq<char>| #[trigger] held(m, key, id, token) ==> token <= m.reached(key)
    &&& forall|id: Seq<char>, other: Seq<char>| #[trigger]
        held(m, key, id, token) && #[trigger] held(m, key, other, token) ==> id == other
}

/// Between `m` and `n`, `key` was granted with that token.
pub open spec fn hands_out(m: BrokerModel, n: BrokerModel, key: Seq<char>, token: u64) -> bool {
    exists|id: Seq<char>| #[trigger] granted(m, n, key, id, token)
}

/// Grants above what the key has reached leave every token to one holder.
pub proof fn lemma_sole(m: BrokerModel, n: BrokerModel, above: bool, key: Seq<char>, token: u64)
    requires
        sole(m, key, token),
        rises(m, n, above),
        above || !hands_out(m, n, key, token),
    ensures
        sole(n, key, token),
{
    assert(m.reached(key) <= n.reached(key));
    assert forall|id: Seq<char>| #[trigger] held(n, key, id, token) implies token <= n.reached(
        key,
    ) by {
        if held(m, key, id, token) {
        } else {
            assert(granted(m, n, key, id, token));
        }
    }
    assert forall|id: Seq<char>, other: Seq<char>| #[trigger]
        held(n, key, id, token) && #[trigger] held(n, key, other, token) implies id == other by {
        if !held(m, key, id, token) {
            assert(granted(m, n, key, id, token));
        }
        if !held(m, key, other, token) {
            assert(granted(m, n, key, other, token));
        }
    }
}

} // verus!
