//! Growth: on each key a guarded broker's later grants carry larger fencing
//! tokens, whoever overtook whom while they waited.
//!
//! A caller may impose the token of a request. Where it imposes one at or below
//! what has been granted already, that grant is the caller's to order; every
//! other grant grows also then.

use crate::broker::acquire::CompositeLockRequest;
use crate::broker::laws;
use crate::broker::laws::rising;
use crate::broker::laws::Operation;
use crate::broker::model::{GrantStep, Tape};
use crate::broker::types::{BrokerConfig, BrokerModel, Clock, LockModel, PendingModel};
use crate::hardened_broker::laws as guarded;
use crate::hardened_broker::laws::ceiling;
use crate::hardened_broker::MAX_SERVER_FENCING_TOKEN;
use crate::ordered_map;
use crate::protocol::MAX_COMPOSITE_KEYS;
use vstd::prelude::*;

verus! {

/// Every waiter of a queue has tokens reserved.
pub open spec fn seeded_queue(l: LockModel) -> bool {
    forall|i: int| 0 <= i < l.queue.len() ==> (#[trigger] l.queue[i]).1.grant_fencing_seed is Some
}

/// Every waiter has tokens reserved.
pub open spec fn seeded(m: BrokerModel) -> bool {
    &&& m.locks.dom().finite()
    &&& forall|k: Seq<char>| #[trigger] m.locks.dom().contains(k) ==> seeded_queue(m.locks[k])
}

/// A key's queue takes the place of another.
proof fn lemma_seeded(m: BrokerModel, n: BrokerModel, key: Seq<char>)
    requires
        seeded(m),
        n.locks == m.locks.insert(key, n.locks[key]),
        seeded_queue(n.locks[key]),
    ensures
        seeded(n),
{
    assert forall|k: Seq<char>| #[trigger] n.locks.dom().contains(k) implies seeded_queue(
        n.locks[k],
    ) by {
        if k != key {
            assert(m.locks.dom().contains(k));
        }
    }
}

/// Nobody waits for a key that does not exist yet.
proof fn lemma_fresh(m: BrokerModel, key: Seq<char>, wall_ms: u64)
    requires
        seeded(m),
    ensures
        seeded_queue(m.lock_or_fresh(key, wall_ms)),
{
    if m.locks.dom().contains(key) {
        assert(seeded_queue(m.locks[key]));
    }
}

/// A waiter with tokens reserved joins.
proof fn lemma_joined(l: LockModel, p: PendingModel, front: bool)
    requires
        seeded_queue(l),
        p.grant_fencing_seed is Some,
    ensures
        seeded_queue(l.enqueued(p, front)),
{
    let g = l.enqueued(p, front);
    assert forall|i: int| 0 <= i < g.queue.len() implies (
    #[trigger] g.queue[i]).1.grant_fencing_seed is Some by {
        if g.queue != l.queue {
            if front {
                if i > 0 {
                    assert(g.queue[i] == l.queue[i - 1]);
                }
            } else if i < l.queue.len() {
                assert(g.queue[i] == l.queue[i]);
            }
        }
    }
}

/// Each grant of a waiter brings a token above all that its key has reached, also
/// where one operation makes several of them.
pub proof fn each_grant_brings_a_larger_token(m: BrokerModel, key: Seq<char>, clock: Clock, tape: Tape)
    requires
        seeded(m),
    ensures
        match m.grant_step(key, clock, tape) {
            GrantStep::Blocked => true,
            GrantStep::Granted(n) => seeded(n) && rising::climbs(m, n, true),
            GrantStep::Moved(n, _) => seeded(n) && rising::climbs(m, n, true),
        },
{
    let l = m.locks[key];
    if m.locks.dom().contains(key) && l.queue.len() > 0 {
        assert(seeded_queue(l));
        assert(l.queue[0].1.grant_fencing_seed is Some);
        assert forall|i: int| 0 <= i < l.popped().queue.len() implies (
        #[trigger] l.popped().queue[i]).1.grant_fencing_seed is Some by {
            assert(l.popped().queue[i] == l.queue[i + 1]);
        }
        match m.grant_step(key, clock, tape) {
            GrantStep::Blocked => {},
            GrantStep::Granted(n) => {
                let g = n.locks[key];
                assert(n.locks =~= m.locks.insert(key, g));
                assert(g.queue =~= l.popped().queue);
                assert(m.head_token(key)->0 > m.reached(key));
                assert(rising::lifted(l, g, m.reached(key), n.fencing_watermark, true));
                lemma_seeded(m, n, key);
                rising::lemma_key(m, n, key, l, true);
            },
            GrantStep::Moved(n, other) => {
                laws::lemma_moved(m, key, clock, tape);
                let t = laws::taken(m, key);
                let p = l.queue[0].1;
                let token = t.exclusive_holders[p.kind->composite_lock_uuid].fencing_token;
                let between = m.with_lock(key, t).observed(token);
                let q = choose|q: PendingModel| #[trigger]
                    n.locks == between.locks.insert(
                        other,
                        between.lock_or_fresh(other, clock.wall_ms).enqueued(q, false),
                    ) && laws::continues(p, key, t, q);
                assert(t.queue =~= l.popped().queue);
                assert(m.head_token(key)->0 > m.reached(key));
                assert(rising::lifted(l, t, m.reached(key), between.fencing_watermark, true));
                lemma_seeded(m, between, key);
                rising::lemma_key(m, between, key, l, true);
                let base = between.lock_or_fresh(other, clock.wall_ms);
                lemma_fresh(between, other, clock.wall_ms);
                rising::lemma_fresh(between, other, clock.wall_ms);
                lemma_joined(base, q, false);
                lemma_seeded(between, n, other);
                rising::lemma_key(between, n, other, base, true);
                rising::lemma_joint(m, between, n, true);
            },
        }
    }
}

/// Nothing that an operation does lets somebody wait without tokens.
proof fn lemma_kept(clock: Clock, tape: Tape)
    ensures
        rising::kept(|a: BrokerModel| seeded(a), clock, tape),
{
    let inv = |a: BrokerModel| seeded(a);
    assert forall|a: BrokerModel, k: Seq<char>|
        a.locks.dom().finite() && #[trigger] inv(a) implies match #[trigger] a.grant_step(
        k,
        clock,
        tape,
    ) {
        GrantStep::Blocked => true,
        GrantStep::Granted(n) => inv(n) && rising::climbs(a, n, true),
        GrantStep::Moved(n, _) => inv(n) && rising::climbs(a, n, true),
    } by {
        each_grant_brings_a_larger_token(a, k, clock, tape);
    }
    assert forall|a: BrokerModel, k: Seq<char>| #[trigger] inv(a) implies inv(
        #[trigger] a.idle_marked(k, clock.now),
    ) by {
        if a.locks.dom().contains(k) {
            assert(seeded_queue(a.locks[k]));
            lemma_seeded(a, a.idle_marked(k, clock.now), k);
        }
    }
    assert forall|a: BrokerModel, b: BrokerModel|
        a.locks.dom().finite() && #[trigger] inv(a) && #[trigger] rising::reduced(
            a,
            b,
        ) implies inv(b) by {
        vstd::set_lib::lemma_len_subset(b.locks.dom(), a.locks.dom());
        assert forall|k: Seq<char>| #[trigger] b.locks.dom().contains(k) implies seeded_queue(
            b.locks[k],
        ) by {
            assert(a.locks.dom().contains(k));
            assert(seeded_queue(a.locks[k]));
            let before = a.locks[k].queue;
            let after = b.locks[k].queue;
            assert forall|i: int| 0 <= i < after.len() implies (
            #[trigger] after[i]).1.grant_fencing_seed is Some by {
                assert(before.contains(b.locks[k].queue[i]));
                let j = choose|j: int| 0 <= j < before.len() && before[j] == after[i];
                assert(a.locks[k].queue[j].1.grant_fencing_seed is Some);
            }
        }
    }
}

/// A multi-key request with tokens reserved joins a queue.
proof fn lemma_composite_queued(
    m: BrokerModel,
    r: CompositeLockRequest,
    clock: Clock,
    tape: Tape,
)
    requires
        seeded(m),
        r.grant_overrides.fencing_seed is Some,
    ensures
        seeded(laws::composite_queued(m, r, clock, tape)),
{
    let key = ordered_map::sorted_distinct(ordered_map::views(r.keys@))[0];
    let n = laws::composite_queued(m, r, clock, tape);
    let base = m.lock_or_fresh(key, clock.wall_ms);
    lemma_fresh(m, key, clock.wall_ms);
    assert(n.locks =~= m.locks.insert(key, n.locks[key]));
    assert(exists|p: PendingModel|
        p.grant_fencing_seed is Some && n.locks[key].queue == #[trigger] base.enqueued(
            p,
            false,
        ).queue);
    let p = choose|p: PendingModel|
        p.grant_fencing_seed is Some && n.locks[key].queue == #[trigger] base.enqueued(
            p,
            false,
        ).queue;
    lemma_joined(base, p, false);
    lemma_seeded(m, n, key);
}

/// Whatever a guarded broker does, the tokens of no key go back, and what is
/// granted on the way lies within what its key has reached then. It also lies
/// above what the key had reached before, unless the operation imposes a token at
/// or below one that has been granted: and of two grants of a key alone that one
/// operation tells of, the later one carries the larger token.
pub proof fn every_operation_grants_larger_tokens(
    m: BrokerModel,
    next: u64,
    op: Operation,
    tape: Tape,
)
    requires
        1 <= next <= MAX_SERVER_FENCING_TOKEN + 1,
        ceiling::safe(m),
    ensures
        rising::rises(m, guarded::after(m, next, op, tape).0, rising::ascending(m, op)),
        rising::ascending(m, op) && rising::tellable(op) ==> rising::told(
            m,
            guarded::after(m, next, op, tape).0,
        ),
{
    let above = rising::ascending(m, op);
    guarded::admission_leads_to_one_operation(m, next, op, tape);
    assert(seeded(m)) by {
        assert forall|k: Seq<char>| #[trigger] m.locks.dom().contains(k) implies seeded_queue(
            m.locks[k],
        ) by {
            let l = m.locks[k];
            assert(ceiling::bounded(l));
            assert forall|i: int| 0 <= i < l.queue.len() implies (
            #[trigger] l.queue[i]).1.grant_fencing_seed is Some by {
                assert(ceiling::provided(l.queue[i].1));
            }
        }
    }
    let inner = guarded::behind(m, next, op);
    let inv = |a: BrokerModel| seeded(a);
    lemma_kept(rising::clock_of(inner), tape);
    assert(inv(m));
    if let Operation::Request { request, .. } = op {
        guarded::widths_are_small(request);
    }
    if let Operation::Request { overrides, clock, .. } = inner {
        if overrides.fencing_seed is Some {
            assert forall|r: CompositeLockRequest|
                r.grant_overrides == overrides && 0 < r.keys@.len() <= MAX_COMPOSITE_KEYS implies inv(
                #[trigger] laws::composite_queued(m, r, clock, tape),
            ) by {
                lemma_composite_queued(m, r, clock, tape);
            }
        }
    }
    rising::lemma_operation(m, inner, tape, above, inv);
}

/// The guarded broker after one more of `ops`.
proof fn lemma_next(config: BrokerConfig, start: u64, ops: Seq<Operation>, tape: Tape, i: int)
    requires
        1 <= start <= MAX_SERVER_FENCING_TOKEN + 1,
        0 <= i < ops.len(),
    ensures
        ({
            let m = guarded::run(config, start, ops.take(i), tape).0;
            let n = guarded::run(config, start, ops.take(i + 1), tape).0;
            rising::rises(m, n, rising::ascending(m, ops[i]))
        }),
{
    let before = guarded::run(config, start, ops.take(i), tape);
    assert(ops.take(i + 1).drop_last() =~= ops.take(i));
    assert(ops.take(i + 1).last() == ops[i]);
    guarded::lemma_next_grows(config, start, ops, tape, 0, i);
    ceiling::tokens_never_pass_the_ceiling(config, start, ops.take(i), tape);
    every_operation_grants_larger_tokens(before.0, before.1, ops[i], tape);
}

/// What a key has reached it never falls behind.
proof fn lemma_no_key_falls_back(
    config: BrokerConfig,
    start: u64,
    ops: Seq<Operation>,
    tape: Tape,
    i: int,
    j: int,
    key: Seq<char>,
)
    requires
        1 <= start <= MAX_SERVER_FENCING_TOKEN + 1,
        0 <= i <= j <= ops.len(),
    ensures
        guarded::run(config, start, ops.take(i), tape).0.reached(key) <= guarded::run(
            config,
            start,
            ops.take(j),
            tape,
        ).0.reached(key),
    decreases j - i,
{
    if i < j {
        lemma_no_key_falls_back(config, start, ops, tape, i, j - 1, key);
        lemma_next(config, start, ops, tape, j - 1);
    }
}

/// Of two grants of a key by a guarded broker the later one carries the larger
/// token, whatever happens in between and whoever waited for it. Only an operation
/// that itself imposes a token at or below one granted before is left out.
pub proof fn guarded_tokens_grow(
    config: BrokerConfig,
    start: u64,
    ops: Seq<Operation>,
    tape: Tape,
    i: int,
    j: int,
    key: Seq<char>,
    first_id: Seq<char>,
    first: u64,
    second_id: Seq<char>,
    second: u64,
)
    requires
        1 <= start <= MAX_SERVER_FENCING_TOKEN + 1,
        0 <= i < j < ops.len(),
        rising::ascending(guarded::run(config, start, ops.take(j), tape).0, ops[j]),
        rising::granted(
            guarded::run(config, start, ops.take(i), tape).0,
            guarded::run(config, start, ops.take(i + 1), tape).0,
            key,
            first_id,
            first,
        ),
        rising::granted(
            guarded::run(config, start, ops.take(j), tape).0,
            guarded::run(config, start, ops.take(j + 1), tape).0,
            key,
            second_id,
            second,
        ),
    ensures
        first < second,
{
    lemma_next(config, start, ops, tape, i);
    lemma_no_key_falls_back(config, start, ops, tape, i + 1, j, key);
    lemma_next(config, start, ops, tape, j);
}

/// No two holders of a key share a token, unless an operation that imposes one at
/// or below what was granted before handed it out.
pub proof fn no_two_holders_share_a_token(
    config: BrokerConfig,
    start: u64,
    ops: Seq<Operation>,
    tape: Tape,
    key: Seq<char>,
    id: Seq<char>,
    other: Seq<char>,
    token: u64,
)
    requires
        1 <= start <= MAX_SERVER_FENCING_TOKEN + 1,
        forall|j: int|
            0 <= j < ops.len() ==> rising::ascending(
                guarded::run(config, start, ops.take(j), tape).0,
                #[trigger] ops[j],
            ) || !rising::hands_out(
                guarded::run(config, start, ops.take(j), tape).0,
                guarded::run(config, start, ops.take(j + 1), tape).0,
                key,
                token,
            ),
        rising::held(guarded::run(config, start, ops, tape).0, key, id, token),
        rising::held(guarded::run(config, start, ops, tape).0, key, other, token),
    ensures
        id == other,
{
    lemma_sole(config, start, ops, tape, key, token, ops.len() as int);
    assert(ops.take(ops.len() as int) =~= ops);
}

/// Every token of a key has at most one holder.
proof fn lemma_sole(
    config: BrokerConfig,
    start: u64,
    ops: Seq<Operation>,
    tape: Tape,
    key: Seq<char>,
    token: u64,
    i: int,
)
    requires
        1 <= start <= MAX_SERVER_FENCING_TOKEN + 1,
        0 <= i <= ops.len(),
        forall|j: int|
            0 <= j < ops.len() ==> rising::ascending(
                guarded::run(config, start, ops.take(j), tape).0,
                #[trigger] ops[j],
            ) || !rising::hands_out(
                guarded::run(config, start, ops.take(j), tape).0,
                guarded::run(config, start, ops.take(j + 1), tape).0,
                key,
                token,
            ),
    ensures
        rising::sole(guarded::run(config, start, ops.take(i), tape).0, key, token),
    decreases i,
{
    if i == 0 {
        assert(ops.take(0) =~= Seq::<Operation>::empty());
    } else {
        lemma_sole(config, start, ops, tape, key, token, i - 1);
        lemma_next(config, start, ops, tape, i - 1);
        let m = guarded::run(config, start, ops.take(i - 1), tape).0;
        let n = guarded::run(config, start, ops.take(i), tape).0;
        let above = rising::ascending(m, ops[i - 1]);
        assert(above || !rising::hands_out(m, n, key, token));
        rising::lemma_sole(m, n, above, key, token);
    }
}

} // verus!
