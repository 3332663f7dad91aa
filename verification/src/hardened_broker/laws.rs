//! What holds of a guarded broker whatever it is asked.
//!
//! The laws speak of the states that it can come to: the lock state, and the
//! next fencing token to hand out.

pub mod ceiling;
pub mod growth;


use crate::broker::laws;
use crate::broker::laws::composites;
use crate::broker::laws::exclusion;
use crate::broker::laws::Operation;
use crate::broker::model::Tape;
use crate::broker::state;
use crate::broker::types::{BrokerConfig, BrokerModel, ClientId, Clock, GrantOverrides};
use crate::hardened_broker;
use crate::hardened_broker::MAX_SERVER_FENCING_TOKEN;
use crate::ordered_map;
use crate::protocol::{Request, ResponseModel, MAX_COMPOSITE_KEYS};
use vstd::prelude::*;

verus! {

/// The guarded broker after an operation.
pub open spec fn after(m: BrokerModel, next: u64, op: Operation, tape: Tape) -> (BrokerModel, u64) {
    match op {
        Operation::Request { client, request, overrides, clock } => hardened_broker::admitted(
            m,
            next,
            client,
            request,
            overrides,
            clock,
            tape,
        ),
        _ => (laws::after(m, op, tape), next),
    }
}

/// The guarded broker after `ops`, from its initial state on.
pub open spec fn run(
    config: BrokerConfig,
    first: u64,
    ops: Seq<Operation>,
    tape: Tape,
) -> (BrokerModel, u64)
    decreases ops.len(),
{
    if ops.len() == 0 {
        (state::initial(config), first)
    } else {
        let before = run(config, first, ops.drop_last(), tape);
        after(before.0, before.1, ops.last(), tape)
    }
}

/// What the lock state sees of an operation: the request with its reserved
/// token, or a notice where none could be reserved.
pub open spec fn behind(m: BrokerModel, next: u64, op: Operation) -> Operation {
    match op {
        Operation::Request { client, request, overrides, clock } => match hardened_broker::width_of(
            request,
        ) {
            None => op,
            Some(width) => match hardened_broker::admission(
                next,
                m.fencing_watermark,
                width as u64,
                overrides.fencing_seed,
            ).0 {
                Ok(seed) => Operation::Request {
                    client,
                    request,
                    overrides: GrantOverrides { fencing_seed: Some(seed), ..overrides },
                    clock,
                },
                Err(reason) => Operation::Notice {
                    client,
                    response: hardened_broker::refusal(request, reason),
                },
            },
        },
        _ => op,
    }
}

/// A request takes at most as many tokens as a composite lock has keys.
pub proof fn widths_are_small(request: Request)
    ensures
        hardened_broker::width_of(request) matches Some(width) ==> 1 <= width
            <= MAX_COMPOSITE_KEYS,
{
    if let Request::Lock { key: None, keys: Some(keys), .. } = request {
        if 0 < keys@.len() <= MAX_COMPOSITE_KEYS {
            let asked = ordered_map::views(keys@);
            vstd::seq_lib::seq_to_set_is_finite(asked);
            assert(asked.to_set().contains(asked[0]));
            if asked.to_set().len() == 0 {
                assert(asked.to_set() =~= Set::empty());
            }
            asked.lemma_cardinality_of_set();
        }
    }
}

/// What a guarded broker does to the lock state is one operation on it. If that
/// is a request that can be granted, its tokens have been reserved.
pub proof fn admission_leads_to_one_operation(
    m: BrokerModel,
    next: u64,
    op: Operation,
    tape: Tape,
)
    ensures
        after(m, next, op, tape).0 == laws::after(m, behind(m, next, op), tape),
        behind(m, next, op) matches Operation::Request { request, overrides, .. }
            ==> ceiling::authorised(request, overrides),
{
    if let Operation::Request { request, .. } = op {
        widths_are_small(request);
    }
}

/// The tokens reserved for a request: from the first on, as many as it takes.
pub open spec fn reserves(
    m: BrokerModel,
    next: u64,
    op: Operation,
    first: u64,
    width: nat,
) -> bool {
    &&& op matches Operation::Request { request, overrides, .. }
    &&& hardened_broker::width_of(request) == Some(width)
    &&& hardened_broker::admission(
        next,
        m.fencing_watermark,
        width as u64,
        overrides.fencing_seed,
    ).0 == Ok::<u64, Seq<char>>(first)
}

/// The operation imposes no token.
pub open spec fn unforced(op: Operation) -> bool {
    op matches Operation::Request { overrides, .. } ==> overrides.fencing_seed is None
}

/// The next token never goes back, and stays within one of the ceiling.
pub proof fn the_next_token_never_goes_back(m: BrokerModel, next: u64, op: Operation, tape: Tape)
    requires
        1 <= next <= MAX_SERVER_FENCING_TOKEN + 1,
    ensures
        next <= after(m, next, op, tape).1 <= MAX_SERVER_FENCING_TOKEN + 1,
{
    if let Operation::Request { request, .. } = op {
        widths_are_small(request);
    }
}

/// A reservation is all of a request's tokens or none: the range ends at the
/// ceiling at the latest, lies before the next token afterwards, and above
/// everything handed out or granted before unless it was imposed.
pub proof fn a_reservation_is_whole(
    m: BrokerModel,
    next: u64,
    op: Operation,
    tape: Tape,
    first: u64,
    width: nat,
)
    requires
        1 <= next <= MAX_SERVER_FENCING_TOKEN + 1,
        reserves(m, next, op, first, width),
    ensures
        1 <= first,
        first + width - 1 <= MAX_SERVER_FENCING_TOKEN,
        first + width <= after(m, next, op, tape).1,
        unforced(op) ==> next <= first && m.fencing_watermark < first,
{
    if let Operation::Request { request, .. } = op {
        widths_are_small(request);
    }
}

/// A request for which no tokens can be reserved leaves the lock state alone:
/// it is answered with the reason, and nothing else happens.
pub proof fn without_tokens_nothing_changes(
    m: BrokerModel,
    next: u64,
    client: ClientId,
    request: Request,
    overrides: GrantOverrides,
    clock: Clock,
    tape: Tape,
    reason: Seq<char>,
)
    requires
        hardened_broker::width_of(request) matches Some(width) && hardened_broker::admission(
            next,
            m.fencing_watermark,
            width as u64,
            overrides.fencing_seed,
        ).0 == Err::<u64, Seq<char>>(reason),
    ensures
        ({
            let n = hardened_broker::admitted(m, next, client, request, overrides, clock, tape).0;
            &&& n == m.notified(client, hardened_broker::refusal(request, reason))
            &&& n == BrokerModel { outbox: n.outbox, ..m }
        }),
{
}

/// The next token of a run never goes back.
pub proof fn lemma_next_grows(
    config: BrokerConfig,
    start: u64,
    ops: Seq<Operation>,
    tape: Tape,
    i: int,
    j: int,
)
    requires
        1 <= start <= MAX_SERVER_FENCING_TOKEN + 1,
        0 <= i <= j <= ops.len(),
    ensures
        start <= run(config, start, ops.take(i), tape).1 <= run(
            config,
            start,
            ops.take(j),
            tape,
        ).1 <= MAX_SERVER_FENCING_TOKEN + 1,
    decreases j,
{
    if j == 0 {
        assert(ops.take(0) =~= Seq::<Operation>::empty());
    } else {
        assert(ops.take(j).drop_last() =~= ops.take(j - 1));
        lemma_next_grows(config, start, ops, tape, if i < j { i } else { i - 1 }, j - 1);
        let before = run(config, start, ops.take(j - 1), tape);
        the_next_token_never_goes_back(before.0, before.1, ops.take(j).last(), tape);
    }
}

/// No token is reserved twice: of two requests the later one gets a range above
/// that of the earlier, whatever happens in between, unless its tokens were
/// imposed.
pub proof fn reservations_never_overlap(
    config: BrokerConfig,
    start: u64,
    ops: Seq<Operation>,
    tape: Tape,
    i: int,
    j: int,
    first: u64,
    width: nat,
    later: u64,
    later_width: nat,
)
    requires
        1 <= start <= MAX_SERVER_FENCING_TOKEN + 1,
        0 <= i < j < ops.len(),
        reserves(
            run(config, start, ops.take(i), tape).0,
            run(config, start, ops.take(i), tape).1,
            ops[i],
            first,
            width,
        ),
        reserves(
            run(config, start, ops.take(j), tape).0,
            run(config, start, ops.take(j), tape).1,
            ops[j],
            later,
            later_width,
        ),
        unforced(ops[j]),
    ensures
        first + width <= later,
{
    let a = run(config, start, ops.take(i), tape);
    let b = run(config, start, ops.take(j), tape);
    lemma_next_grows(config, start, ops, tape, i, i + 1);
    lemma_next_grows(config, start, ops, tape, i + 1, j);
    assert(ops.take(i + 1).drop_last() =~= ops.take(i));
    assert(ops.take(i + 1).last() == ops[i]);
    a_reservation_is_whole(a.0, a.1, ops[i], tape, first, width);
    a_reservation_is_whole(b.0, b.1, ops[j], tape, later, later_width);
}

/// Admission keeps what the lock state promises: in every state that a guarded
/// broker can come to, holders may hold together what they hold and the queues
/// are consistent.
pub proof fn guarded_states_are_in_order(
    config: BrokerConfig,
    first: u64,
    ops: Seq<Operation>,
    tape: Tape,
)
    ensures
        exclusion::safe(run(config, first, ops, tape).0),
        composites::lined_up(run(config, first, ops, tape).0),
    decreases ops.len(),
{
    if ops.len() > 0 {
        guarded_states_are_in_order(config, first, ops.drop_last(), tape);
        let before = run(config, first, ops.drop_last(), tape);
        let inner = behind(before.0, before.1, ops.last());
        admission_leads_to_one_operation(before.0, before.1, ops.last(), tape);
        exclusion::every_operation_keeps_exclusion(before.0, inner, tape);
        composites::every_operation_keeps_queues_consistent(before.0, inner, tape);
    }
}

/// A request takes as many tokens as it asks for different keys: a lock of one key, a
/// read and a write one, a composite lock of one to five keys one for each of them.
/// Other requests, and lock requests that name no keys, two kinds of keys or too
/// many, take none.
pub proof fn a_request_takes_a_token_for_each_key(request: Request)
    ensures
        match request {
            Request::Lock { key, keys, .. } => {
                &&& key is Some && keys is None ==> hardened_broker::width_of(request) == Some(1nat)
                &&& key is None && keys is Some && 1 <= keys->0@.len() <= 5
                    ==> hardened_broker::width_of(request) == Some(
                    ordered_map::views(keys->0@).to_set().len(),
                )
                &&& key is None && keys is Some && !(1 <= keys->0@.len() <= 5)
                    ==> hardened_broker::width_of(request) is None
                &&& (key is Some <==> keys is Some) ==> hardened_broker::width_of(request) is None
            },
            Request::RegisterRead { .. } => hardened_broker::width_of(request) == Some(1nat),
            Request::RegisterWrite { .. } => hardened_broker::width_of(request) == Some(1nat),
            _ => hardened_broker::width_of(request) is None,
        },
{
}

/// A request is admitted exactly if its whole range lies between what has been granted
/// and the largest token that every client can hold. Without an imposed token the
/// range starts right after what has been handed out and granted.
pub proof fn a_request_is_admitted_while_tokens_are_left(
    next: u64,
    watermark: u64,
    width: u64,
    seed: Option<u64>,
)
    requires
        1 <= next <= 9_007_199_254_740_992,
        width >= 1,
    ensures
        ({
            let a = hardened_broker::admission(next, watermark, width, seed);
            let from = if watermark >= next {
                watermark + 1
            } else {
                next as int
            };
            let first = match seed {
                Some(t) => t as int,
                None => from,
            };
            let fits = watermark <= 9_007_199_254_740_991 && first >= 1 && first + width - 1
                <= 9_007_199_254_740_991;
            &&& a.0 is Ok <==> fits
            &&& fits ==> a.0->Ok_0 == first
            &&& fits ==> a.1 == if first + width > from {
                first + width
            } else {
                from
            }
            &&& !fits ==> a.1 == if watermark <= 9_007_199_254_740_991 {
                from
            } else {
                next as int
            }
        }),
{
}

/// The first token handed out is the reading of the wall clock, within the range of
/// tokens.
pub proof fn tokens_start_at_the_wall_clock(micros: u128)
    ensures
        hardened_broker::first_token(None) == 1,
        hardened_broker::first_token(Some(0)) == 1,
        1 <= micros <= 9_007_199_254_740_991 ==> hardened_broker::first_token(Some(micros))
            == micros,
        micros > 9_007_199_254_740_991 ==> hardened_broker::first_token(Some(micros))
            == 9_007_199_254_740_991,
{
}

/// A request that is refused for want of tokens is answered in its own terms, under
/// its own id and with the reason: it acquired nothing.
pub proof fn a_refusal_answers_the_request(request: Request, reason: Seq<char>)
    ensures
        ({
            let r = hardened_broker::refusal(request, reason);
            match request {
                Request::Lock { uuid, key: Some(k), keys: None, .. } => r == ResponseModel::Lock {
                    uuid: uuid@,
                    key: k@,
                    acquired: false,
                    lock_request_count: 0,
                    lock_uuid: None,
                    fencing_token: None,
                    readers_count: None,
                    error: Some(reason),
                },
                Request::Lock { uuid, key: None, keys: Some(ks), .. } => r
                    == ResponseModel::CompositeLock {
                    uuid: uuid@,
                    keys: ordered_map::views(ks@),
                    acquired: false,
                    lock_uuid: None,
                    fencing_tokens: None,
                    error: Some(reason),
                },
                Request::RegisterRead { uuid, .. } => r == ResponseModel::Error {
                    uuid: uuid@,
                    error: reason,
                },
                Request::RegisterWrite { uuid, .. } => r == ResponseModel::Error {
                    uuid: uuid@,
                    error: reason,
                },
                _ => true,
            }
        }),
{
}

/// What a guarded broker grants under is what was reserved: a request that is admitted
/// is handled with its reserved first token and its own lock id, one that takes no
/// tokens as it is, and one that is refused not at all.
pub proof fn a_request_is_handled_with_its_reserved_token(
    m: BrokerModel,
    next: u64,
    client: ClientId,
    request: Request,
    overrides: GrantOverrides,
    clock: Clock,
    tape: Tape,
)
    ensures
        ({
            let r = hardened_broker::admitted(m, next, client, request, overrides, clock, tape);
            let width = hardened_broker::width_of(request);
            let a = hardened_broker::admission(
                next,
                m.fencing_watermark,
                width->0 as u64,
                overrides.fencing_seed,
            );
            &&& width is None ==> r == (m.handled(client, request, overrides, clock, tape), next)
            &&& width is Some && a.0 is Ok ==> r.1 == a.1 && r.0 == m.handled(
                client,
                request,
                GrantOverrides {
                    lock_uuid: overrides.lock_uuid,
                    fencing_seed: Some(a.0->Ok_0),
                },
                clock,
                tape,
            )
            &&& width is Some && a.0 is Err ==> r.1 == a.1 && r.0.locks == m.locks && r.0.clients
                == m.clients && r.0.deadlines == m.deadlines && r.0.drawn == m.drawn
                && r.0.fencing_watermark == m.fencing_watermark
        }),
{
}

} // verus!
