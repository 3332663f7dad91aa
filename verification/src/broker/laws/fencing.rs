//! Fencing tokens: on each key every grant carries a larger token than all
//! grants before it, also where the key was forgotten in between.
//!
//! Tokens are counted up to `u64::MAX`; the laws leave out states so close to
//! it that the counting would start over. A caller may impose the token of a
//! request. Where it imposes one at or below what has been granted already, that
//! grant is the caller's to order; every other grant grows also then.

use crate::broker::acquire::CompositeLockRequest;
use crate::broker::laws;
use crate::broker::laws::rising;
use crate::broker::laws::Operation;
use crate::broker::model;
use crate::broker::model::{GrantStep, Tape};
use crate::broker::state;
use crate::broker::types::{
    BrokerConfig, BrokerModel, Clock, KindModel, LockModel, PendingModel,
};
use crate::ordered_map;
use crate::protocol;
use crate::protocol::MAX_COMPOSITE_KEYS;
use crate::sums;
use vstd::prelude::*;

verus! {

/// How far above the first the tokens imposed on a waiter go.
pub open spec fn span(p: PendingModel) -> nat {
    match p.kind {
        KindModel::Composite { all_keys, .. } => all_keys.len(),
        _ => 0,
    }
}

/// The tokens imposed on waiters stay that far below the largest number.
pub open spec fn low_queue(q: Seq<(Seq<char>, PendingModel)>, n: nat) -> bool {
    forall|i: int|
        0 <= i < q.len() ==> ((#[trigger] q[i]).1.grant_fencing_seed matches Some(first) ==> first
            + span(q[i].1) + n <= u64::MAX)
}

/// The counter of a key and the tokens imposed on its waiters stay that far below
/// the largest number.
pub open spec fn low(l: LockModel, n: nat) -> bool {
    l.fencing_counter + n <= u64::MAX && low_queue(l.queue, n)
}

/// `n` more grants, and those that waiters can lead to, keep all counters below
/// the largest number.
pub open spec fn roomy(m: BrokerModel, wall_ms: u64, n: nat) -> bool {
    &&& wall_ms + m.work() + n <= u64::MAX
    &&& m.fencing_watermark + m.work() + n <= u64::MAX
    &&& forall|k: Seq<char>| #[trigger] m.locks.dom().contains(k) ==> low(m.locks[k], m.work() + n)
}

/// A queue that is low enough is low enough for less.
proof fn lemma_lower(l: LockModel, g: LockModel, a: nat, b: nat)
    requires
        low_queue(l.queue, a),
        b <= a,
        forall|i: int| 0 <= i < g.queue.len() ==> l.queue.contains(#[trigger] g.queue[i]),
    ensures
        low_queue(g.queue, b),
{
    assert forall|i: int| 0 <= i < g.queue.len() implies ((
    #[trigger] g.queue[i]).1.grant_fencing_seed matches Some(first) ==> first + span(
        g.queue[i].1,
    ) + b <= u64::MAX) by {
        let j = choose|j: int| 0 <= j < l.queue.len() && l.queue[j] == g.queue[i];
        assert(l.queue[j].1 == g.queue[i].1);
    }
}

/// The head of a queue leaves.
proof fn lemma_popped(l: LockModel, n: nat)
    requires
        low_queue(l.queue, n),
        l.queue.len() > 0,
    ensures
        low_queue(l.popped().queue, n),
{
    assert forall|i: int| 0 <= i < l.popped().queue.len() implies l.queue.contains(
        #[trigger] l.popped().queue[i],
    ) by {
        assert(l.popped().queue[i] == l.queue[i + 1]);
    }
    lemma_lower(l, l.popped(), n, n);
}

/// A waiter whose imposed tokens are low enough joins.
proof fn lemma_joined(l: LockModel, p: PendingModel, n: nat)
    requires
        low_queue(l.queue, n),
        p.grant_fencing_seed matches Some(first) ==> first + span(p) + n <= u64::MAX,
    ensures
        low_queue(l.enqueued(p, false).queue, n),
        model::queue_work(l.enqueued(p, false).queue) <= model::queue_work(l.queue)
            + model::pending_work(p),
{
    let g = l.enqueued(p, false);
    if g.queue != l.queue {
        assert(g.queue =~= l.queue.push((p.request_uuid, p)));
        model::lemma_queue_work_push(l.queue, (p.request_uuid, p));
        assert forall|i: int| 0 <= i < g.queue.len() implies ((
        #[trigger] g.queue[i]).1.grant_fencing_seed matches Some(first) ==> first + span(
            g.queue[i].1,
        ) + n <= u64::MAX) by {
            if i < l.queue.len() {
                assert(g.queue[i] == l.queue[i]);
            }
        }
    }
}

/// The head's token is above what its key has reached, and one above its counter or
/// as low as its imposed tokens at most.
proof fn lemma_head_token(m: BrokerModel, key: Seq<char>, n: nat)
    requires
        m.locks.dom().contains(key),
        m.locks[key].queue.len() > 0,
        !m.head_barred(key),
        low(m.locks[key], n),
        n >= 1,
    ensures
        ({
            let token = m.locks[key].next_token(m.head_token(key));
            &&& m.reached(key) < token
            &&& token + n - 1 <= u64::MAX
            &&& m.locks[key].popped().counted(m.head_token(key)).fencing_counter + n - 1
                <= u64::MAX
            &&& token <= m.locks[key].popped().counted(m.head_token(key)).fencing_counter
        }),
{
    let p = m.locks[key].queue[0].1;
    if let KindModel::Composite { all_keys, .. } = p.kind {
        all_keys.index_of_first_ensures(key);
    }
}

/// Each grant of a waiter brings a token above all that its key has reached, also
/// where one operation makes several of them; and it leaves room for one less.
pub proof fn each_grant_brings_a_larger_token(m: BrokerModel, key: Seq<char>, clock: Clock, tape: Tape)
    requires
        m.locks.dom().finite(),
        roomy(m, clock.wall_ms, 0),
    ensures
        match m.grant_step(key, clock, tape) {
            GrantStep::Blocked => true,
            GrantStep::Granted(n) => roomy(n, clock.wall_ms, 0) && rising::climbs(m, n, true),
            GrantStep::Moved(n, _) => roomy(n, clock.wall_ms, 0) && rising::climbs(m, n, true),
        },
{
    let l = m.locks[key];
    if m.locks.dom().contains(key) && l.queue.len() > 0 && !m.head_barred(key) {
        model::lemma_step_shrinks(m, key, clock, tape);
        match m.grant_step(key, clock, tape) {
            GrantStep::Blocked => {},
            GrantStep::Granted(n) => {
                let g = n.locks[key];
                assert(n.locks =~= m.locks.insert(key, g));
                assert(g.queue =~= l.popped().queue);
                assert(low(l, m.work()));
                lemma_head_token(m, key, m.work());
                lemma_popped(l, m.work());
                assert(rising::lifted(l, g, m.reached(key), n.fencing_watermark, true));
                rising::lemma_key(m, n, key, l, true);
                lemma_roomy(m, n, key, clock.wall_ms);
            },
            GrantStep::Moved(n, other) => {
                laws::lemma_moved(m, key, clock, tape);
                let t = laws::taken(m, key);
                let p = l.queue[0].1;
                let token = t.exclusive_holders[p.kind->composite_lock_uuid].fencing_token;
                let between = m.with_lock(key, t).observed(token);
                let q = choose|q: PendingModel| #[trigger]
                    n.locks == between.locks.insert(
                        other,
                        between.lock_or_fresh(other, clock.wall_ms).enqueued(q, false),
                    ) && laws::continues(p, key, t, q);
                assert(t.queue =~= l.popped().queue);
                assert(low(l, m.work()));
                lemma_head_token(m, key, m.work());
                lemma_popped(l, m.work());
                assert(rising::lifted(l, t, m.reached(key), between.fencing_watermark, true));
                rising::lemma_key(m, between, key, l, true);
                sums::lemma_sum_insert(m.locks, model::lock_work(), key, t);
                assert(model::queue_work(t.queue) + model::pending_work(p)
                    == model::queue_work(l.queue));
                lemma_roomy(m, between, key, clock.wall_ms);
                let base = between.lock_or_fresh(other, clock.wall_ms);
                rising::lemma_fresh(between, other, clock.wall_ms);
                let left = (m.work() - 1) as nat;
                assert(low(base, 0)) by {
                    if between.locks.dom().contains(other) {
                        assert(low(between.locks[other], between.work()));
                    }
                }
                assert(low_queue(base.queue, left)) by {
                    if between.locks.dom().contains(other) {
                        if other == key {
                            lemma_lower(l, base, m.work(), left);
                        } else {
                            assert(low(m.locks[other], m.work()));
                        }
                    }
                }
                assert(l.queue[0].1.grant_fencing_seed matches Some(first) ==> first + span(
                    l.queue[0].1,
                ) + m.work() <= u64::MAX);
                lemma_joined(base, q, left);
                rising::lemma_key(between, n, other, base, true);
                rising::lemma_joint(m, between, n, true);
                assert forall|k: Seq<char>| #[trigger] n.locks.dom().contains(k) implies low(
                    n.locks[k],
                    n.work(),
                ) by {
                    if k == other {
                    } else if k != key {
                        assert(low(m.locks[k], m.work()));
                    }
                }
            },
        }
    }
}

/// The room after a grant on `key` that used up some of the work.
proof fn lemma_roomy(m: BrokerModel, n: BrokerModel, key: Seq<char>, wall_ms: u64)
    requires
        roomy(m, wall_ms, 0),
        n.work() < m.work(),
        n.locks == m.locks.insert(key, n.locks[key]),
        n.fencing_watermark + m.work() - 1 <= u64::MAX,
        low(n.locks[key], (m.work() - 1) as nat),
    ensures
        roomy(n, wall_ms, 0),
{
    assert forall|k: Seq<char>| #[trigger] n.locks.dom().contains(k) implies low(
        n.locks[k],
        n.work(),
    ) by {
        if k != key {
            assert(low(m.locks[k], m.work()));
        }
    }
}

/// What is done on the way leaves enough room.
proof fn lemma_kept(clock: Clock, tape: Tape)
    ensures
        rising::kept(
            |a: BrokerModel| a.locks.dom().finite() && roomy(a, clock.wall_ms, 0),
            clock,
            tape,
        ),
{
    let inv = |a: BrokerModel| a.locks.dom().finite() && roomy(a, clock.wall_ms, 0);
    assert forall|a: BrokerModel, k: Seq<char>|
        a.locks.dom().finite() && #[trigger] inv(a) implies match #[trigger] a.grant_step(
        k,
        clock,
        tape,
    ) {
        GrantStep::Blocked => true,
        GrantStep::Granted(n) => inv(n) && rising::climbs(a, n, true),
        GrantStep::Moved(n, _) => inv(n) && rising::climbs(a, n, true),
    } by {
        each_grant_brings_a_larger_token(a, k, clock, tape);
        model::lemma_step_shrinks(a, k, clock, tape);
    }
    assert forall|a: BrokerModel, k: Seq<char>| #[trigger] inv(a) implies inv(
        #[trigger] a.idle_marked(k, clock.now),
    ) by {
        let b = a.idle_marked(k, clock.now);
        model::lemma_mark_keeps_work(a, k, clock.now);
        assert forall|j: Seq<char>| #[trigger] b.locks.dom().contains(j) implies low(
            b.locks[j],
            b.work(),
        ) by {
            assert(low(a.locks[j], a.work()));
        }
    }
    assert forall|a: BrokerModel, b: BrokerModel|
        a.locks.dom().finite() && #[trigger] inv(a) && #[trigger] rising::reduced(
            a,
            b,
        ) implies inv(b) by {
        vstd::set_lib::lemma_len_subset(b.locks.dom(), a.locks.dom());
        assert forall|k: Seq<char>| #[trigger] b.locks.dom().contains(k) implies model::lock_work()(
            b.locks[k],
        ) <= model::lock_work()(a.locks[k]) by {
            assert(a.locks.dom().contains(k));
        }
        sums::lemma_sum_monotone(a.locks, b.locks, model::lock_work());
        assert forall|k: Seq<char>| #[trigger] b.locks.dom().contains(k) implies low(
            b.locks[k],
            b.work(),
        ) by {
            assert(low(a.locks[k], a.work()));
            lemma_lower(a.locks[k], b.locks[k], a.work(), b.work());
        }
    }
}

/// A multi-key request joins a queue.
proof fn lemma_composite_queued(
    m: BrokerModel,
    r: CompositeLockRequest,
    clock: Clock,
    tape: Tape,
)
    requires
        m.locks.dom().finite(),
        roomy(m, clock.wall_ms, MAX_COMPOSITE_KEYS as nat),
        0 < r.keys@.len() <= MAX_COMPOSITE_KEYS,
        r.grant_overrides.fencing_seed matches Some(first) ==> first + m.work() + 2
            * MAX_COMPOSITE_KEYS <= u64::MAX,
    ensures
        laws::composite_queued(m, r, clock, tape).locks.dom().finite(),
        roomy(laws::composite_queued(m, r, clock, tape), clock.wall_ms, 0),
{
    let asked = ordered_map::views(r.keys@);
    let keys = ordered_map::sorted_distinct(asked);
    let n = laws::composite_queued(m, r, clock, tape);
    let key = keys[0];
    let base = m.lock_or_fresh(key, clock.wall_ms);
    let given = protocol::shown_text(r.grant_overrides.lock_uuid);
    let p = PendingModel {
        request_uuid: r.uuid@,
        client: r.client,
        pid: r.pid,
        ttl: r.ttl,
        grant_lock_uuid: None,
        grant_fencing_seed: r.grant_overrides.fencing_seed,
        keep_locks_after_death: false,
        kind: KindModel::Composite {
            all_keys: keys,
            remaining_keys: keys,
            granted_keys: Seq::empty(),
            granted_tokens: Map::empty(),
            composite_lock_uuid: m.grant_id(given, tape),
        },
    };
    let left = m.work() + MAX_COMPOSITE_KEYS as nat;
    ordered_map::lemma_sorted_distinct(asked);
    assert(keys.len() <= MAX_COMPOSITE_KEYS);
    assert(m.id_taken(given).lock_or_fresh(key, clock.wall_ms) == base);
    assert(n.locks =~= m.locks.insert(key, n.locks[key]));
    assert(low(base, left)) by {
        if m.locks.dom().contains(key) {
            assert(low(m.locks[key], left));
        }
    }
    lemma_joined(base, p, left);
    assert(n.locks[key].queue == base.enqueued(p, false).queue);
    sums::lemma_sum_insert(m.locks, model::lock_work(), key, n.locks[key]);
    assert(n.work() <= left);
    assert forall|k: Seq<char>| #[trigger] n.locks.dom().contains(k) implies low(
        n.locks[k],
        n.work(),
    ) by {
        if k != key {
            assert(low(m.locks[k], left));
        }
    }
}

/// The counters, and the token that the operation imposes, are far enough below
/// the largest number for one operation.
pub open spec fn countable(m: BrokerModel, op: Operation) -> bool {
    &&& roomy(m, rising::clock_of(op).wall_ms, MAX_COMPOSITE_KEYS as nat)
    &&& op matches Operation::Request { overrides, .. } ==> (overrides.fencing_seed matches Some(
        first,
    ) ==> first + m.work() + 2 * MAX_COMPOSITE_KEYS <= u64::MAX)
}

/// Whatever happens, the tokens of no key go back, and what is granted on the way
/// lies within what its key has reached then. It also lies above what the key had
/// reached before, unless the operation imposes a token at or below one that has
/// been granted: and of two grants of a key alone that one operation tells of, the
/// later one carries the larger token.
pub proof fn every_operation_grants_larger_tokens(m: BrokerModel, op: Operation, tape: Tape)
    requires
        m.locks.dom().finite(),
        countable(m, op),
    ensures
        rising::rises(m, laws::after(m, op, tape), rising::ascending(m, op)),
        rising::ascending(m, op) && rising::tellable(op) ==> rising::told(
            m,
            laws::after(m, op, tape),
        ),
{
    let clock = rising::clock_of(op);
    let inv = |a: BrokerModel| a.locks.dom().finite() && roomy(a, clock.wall_ms, 0);
    lemma_kept(clock, tape);
    assert forall|k: Seq<char>| #[trigger] m.locks.dom().contains(k) implies low(
        m.locks[k],
        m.work(),
    ) by {
        assert(low(m.locks[k], m.work() + MAX_COMPOSITE_KEYS as nat));
    }
    assert(inv(m));
    if let Operation::Request { overrides, .. } = op {
        assert(rising::mints(m, clock.wall_ms, overrides.fencing_seed)) by {
            assert forall|k: Seq<char>| #[trigger]
                m.lock_or_fresh(k, clock.wall_ms).fencing_counter < u64::MAX by {
                if m.locks.dom().contains(k) {
                    assert(low(m.locks[k], m.work() + MAX_COMPOSITE_KEYS as nat));
                }
            }
        }
        assert forall|r: CompositeLockRequest|
            r.grant_overrides == overrides && 0 < r.keys@.len() <= MAX_COMPOSITE_KEYS implies inv(
            #[trigger] laws::composite_queued(m, r, clock, tape),
        ) by {
            lemma_composite_queued(m, r, clock, tape);
        }
    }
    rising::lemma_operation(m, op, tape, rising::ascending(m, op), inv);
}

/// The first `i` operations keep clear of the largest number.
pub open spec fn regular(config: BrokerConfig, ops: Seq<Operation>, tape: Tape, i: int) -> bool {
    forall|j: int|
        0 <= j < i ==> countable(laws::run(config, ops.take(j), tape), #[trigger] ops[j])
}

/// There are finitely many keys.
proof fn lemma_finite(config: BrokerConfig, ops: Seq<Operation>, tape: Tape)
    ensures
        laws::run(config, ops, tape).locks.dom().finite(),
    decreases ops.len(),
{
    if ops.len() == 0 {
        assert(laws::run(config, ops, tape) == state::initial(config));
    } else {
        lemma_finite(config, ops.drop_last(), tape);
        laws::lemma_config(laws::run(config, ops.drop_last(), tape), ops.last(), tape);
    }
}

/// The broker after one more of `ops`.
proof fn lemma_next(config: BrokerConfig, ops: Seq<Operation>, tape: Tape, i: int)
    requires
        0 <= i < ops.len(),
        regular(config, ops, tape, i + 1),
    ensures
        ({
            let m = laws::run(config, ops.take(i), tape);
            let n = laws::run(config, ops.take(i + 1), tape);
            rising::rises(m, n, rising::ascending(m, ops[i]))
        }),
{
    let m = laws::run(config, ops.take(i), tape);
    assert(ops.take(i + 1).drop_last() =~= ops.take(i));
    assert(ops.take(i + 1).last() == ops[i]);
    lemma_finite(config, ops.take(i), tape);
    assert(countable(m, ops[i]));
    every_operation_grants_larger_tokens(m, ops[i], tape);
}

/// What a key has reached it never falls behind.
proof fn lemma_no_key_falls_back(
    config: BrokerConfig,
    ops: Seq<Operation>,
    tape: Tape,
    i: int,
    j: int,
    key: Seq<char>,
)
    requires
        0 <= i <= j <= ops.len(),
        regular(config, ops, tape, j),
    ensures
        laws::run(config, ops.take(i), tape).reached(key) <= laws::run(
            config,
            ops.take(j),
            tape,
        ).reached(key),
    decreases j - i,
{
    if i < j {
        lemma_no_key_falls_back(config, ops, tape, i, j - 1, key);
        lemma_next(config, ops, tape, j - 1);
    }
}

/// Of two grants of a key the later one carries the larger token, whatever
/// happens in between. Only an operation that itself imposes a token at or below
/// one granted before is left out.
pub proof fn fencing_tokens_grow(
    config: BrokerConfig,
    ops: Seq<Operation>,
    tape: Tape,
    i: int,
    j: int,
    key: Seq<char>,
    first_id: Seq<char>,
    first: u64,
    second_id: Seq<char>,
    second: u64,
)
    requires
        0 <= i < j < ops.len(),
        regular(config, ops, tape, j + 1),
        rising::ascending(laws::run(config, ops.take(j), tape), ops[j]),
        rising::granted(
            laws::run(config, ops.take(i), tape),
            laws::run(config, ops.take(i + 1), tape),
            key,
            first_id,
            first,
        ),
        rising::granted(
            laws::run(config, ops.take(j), tape),
            laws::run(config, ops.take(j + 1), tape),
            key,
            second_id,
            second,
        ),
    ensures
        first < second,
{
    lemma_next(config, ops, tape, i);
    lemma_no_key_falls_back(config, ops, tape, i + 1, j, key);
    lemma_next(config, ops, tape, j);
}

/// No two holders of a key share a token, unless an operation that imposes one at
/// or below what was granted before handed it out.
pub proof fn no_two_holders_share_a_token(
    config: BrokerConfig,
    ops: Seq<Operation>,
    tape: Tape,
    key: Seq<char>,
    id: Seq<char>,
    other: Seq<char>,
    token: u64,
)
    requires
        regular(config, ops, tape, ops.len() as int),
        forall|j: int|
            0 <= j < ops.len() ==> rising::ascending(
                laws::run(config, ops.take(j), tape),
                #[trigger] ops[j],
            ) || !rising::hands_out(
                laws::run(config, ops.take(j), tape),
                laws::run(config, ops.take(j + 1), tape),
                key,
                token,
            ),
        rising::held(laws::run(config, ops, tape), key, id, token),
        rising::held(laws::run(config, ops, tape), key, other, token),
    ensures
        id == other,
{
    lemma_sole(config, ops, tape, key, token, ops.len() as int);
    assert(ops.take(ops.len() as int) =~= ops);
}

/// Every token of a key has at most one holder.
proof fn lemma_sole(
    config: BrokerConfig,
    ops: Seq<Operation>,
    tape: Tape,
    key: Seq<char>,
    token: u64,
    i: int,
)
    requires
        0 <= i <= ops.len(),
        regular(config, ops, tape, ops.len() as int),
        forall|j: int|
            0 <= j < ops.len() ==> rising::ascending(
                laws::run(config, ops.take(j), tape),
                #[trigger] ops[j],
            ) || !rising::hands_out(
                laws::run(config, ops.take(j), tape),
                laws::run(config, ops.take(j + 1), tape),
                key,
                token,
            ),
    ensures
        rising::sole(laws::run(config, ops.take(i), tape), key, token),
    decreases i,
{
    if i == 0 {
        assert(ops.take(0) =~= Seq::<Operation>::empty());
        assert(laws::run(config, ops.take(0), tape) == state::initial(config));
    } else {
        lemma_sole(config, ops, tape, key, token, i - 1);
        lemma_next(config, ops, tape, i - 1);
        let m = laws::run(config, ops.take(i - 1), tape);
        let n = laws::run(config, ops.take(i), tape);
        let above = rising::ascending(m, ops[i - 1]);
        assert(above || !rising::hands_out(m, n, key, token));
        rising::lemma_sole(m, n, above, key, token);
    }
}

/// The watermark is at or above every token granted so far, on whatever key,
/// and a key that is not known, or no longer known, starts counting from there.
pub proof fn the_watermark_bounds_every_token(
    config: BrokerConfig,
    ops: Seq<Operation>,
    tape: Tape,
    i: int,
    j: int,
    key: Seq<char>,
    id: Seq<char>,
    token: u64,
    other: Seq<char>,
    wall_ms: u64,
)
    requires
        0 <= i < j <= ops.len(),
        regular(config, ops, tape, j),
        rising::granted(
            laws::run(config, ops.take(i), tape),
            laws::run(config, ops.take(i + 1), tape),
            key,
            id,
            token,
        ),
    ensures
        token <= laws::run(config, ops.take(j), tape).fencing_watermark,
        !laws::run(config, ops.take(j), tape).locks.dom().contains(other) ==> token <= laws::run(
            config,
            ops.take(j),
            tape,
        ).lock_or_fresh(other, wall_ms).fencing_counter,
{
    lemma_next(config, ops, tape, i);
    lemma_no_key_falls_back(config, ops, tape, i + 1, j, key);
}

} // verus!
