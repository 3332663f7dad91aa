//! What holds of every HTTP call.

use crate::broker::laws::holds;
use crate::broker::model::Tape;
use crate::broker::types::{BrokerModel, Clock};
use crate::broker::ClientId;
use crate::ordered_map;
use crate::protocol;
use crate::protocol::http::{
    AcquireRequest, LockInfoResponse, ReleaseRequest, ReleaseResponse, RwAcquireResponse,
    RwReleaseResponse,
};
use crate::protocol::{Request, Response, ResponseModel};
use crate::scan;
use crate::server::http;
use crate::server::http::{AcquireTold, HttpReply, RaftFailure, RaftRefusal, RequestIdError};
use crate::text;
use vstd::prelude::*;

verus! {

/// The response tells of a grant under `id`.
pub open spec fn grants(response: ResponseModel, id: Seq<char>) -> bool {
    match response {
        ResponseModel::Lock { acquired, lock_uuid, .. } => acquired && lock_uuid == Some(id),
        ResponseModel::CompositeLock { acquired, lock_uuid, .. } => acquired && lock_uuid == Some(
            id,
        ),
        ResponseModel::RegisterReadResult { granted, lock_uuid, .. } => granted && lock_uuid
            == Some(id),
        ResponseModel::RegisterWriteResult { granted, lock_uuid, .. } => granted && lock_uuid
            == Some(id),
        _ => false,
    }
}

/// Whatever a call was granted outlives its ephemeral client: every key that is held
/// under the id that the response names, be it of a single lock, a composite lock, a
/// read or a write, is held under it as before when the client is gone.
pub proof fn a_granted_lock_outlives_its_call(
    b: BrokerModel,
    client: ClientId,
    response: ResponseModel,
    clock: Clock,
    tape: Tape,
    id: Seq<char>,
)
    requires
        b.locks.dom().finite(),
        b.clients.dom().contains(client),
        holds::unclaimed(b, tape, id),
        grants(response, id),
    ensures
        ({
            let n = http::ephemeral_ended(b, client, Some(response)).client_dropped(
                client,
                clock,
                tape,
            );
            forall|k: Seq<char>| #[trigger] holds::hold(n, k, id) == holds::hold(b, k, id)
        }),
{
    let e = http::ephemeral_ended(b, client, Some(response));
    assert(e.locks == b.locks);
    assert(!e.clients[client].held_lock_uuids.dom().contains(id));
    holds::a_dropped_client_loses_what_it_holds(e, client, clock, tape, id);
    assert forall|k: Seq<char>| #[trigger]
        holds::hold(e.client_dropped(client, clock, tape), k, id) == holds::hold(b, k, id) by {
        assert(holds::hold(e, k, id) == holds::hold(b, k, id));
    }
}

/// Nothing else outlives a call: a call without a grant ends as its client does, and
/// what a call with a grant holds under other ids goes with its client.
pub proof fn what_was_not_granted_goes_with_its_call(
    b: BrokerModel,
    client: ClientId,
    outcome: Option<ResponseModel>,
    clock: Clock,
    tape: Tape,
    id: Seq<char>,
)
    requires
        b.locks.dom().finite(),
        holds::unclaimed(b, tape, id),
        b.clients.dom().contains(client),
        outcome matches Some(response) ==> !grants(response, id),
    ensures
        ({
            let n = http::ephemeral_ended(b, client, outcome).client_dropped(client, clock, tape);
            let m = b.client_dropped(client, clock, tape);
            &&& (outcome matches Some(response) ==> forall|u: Seq<char>| !#[trigger] grants(
                response,
                u,
            )) ==> n == m
            &&& forall|k: Seq<char>| #[trigger] holds::hold(n, k, id) == holds::hold(m, k, id)
        }),
{
    let e = http::ephemeral_ended(b, client, outcome);
    if let Some(response) = outcome {
        if let Some(u) = http::granted_uuid(response) {
            assert(grants(response, u));
        }
    }
    assert(e.locks == b.locks);
    assert(e.clients.dom().contains(client));
    assert(holds::unclaimed(e, tape, id));
    holds::a_dropped_client_loses_what_it_holds(b, client, clock, tape, id);
    holds::a_dropped_client_loses_what_it_holds(e, client, clock, tape, id);
    let n = e.client_dropped(client, clock, tape);
    let m = b.client_dropped(client, clock, tape);
    assert forall|k: Seq<char>| #[trigger] holds::hold(n, k, id) == holds::hold(m, k, id) by {
        assert(holds::hold(e, k, id) == holds::hold(b, k, id));
        assert(e.clients[client].held_lock_uuids.dom().contains(id)
            == b.clients[client].held_lock_uuids.dom().contains(id));
    }
}

/// The id of the request that a response belongs to.
pub open spec fn belongs_to(r: ResponseModel, uuid: Seq<char>) -> bool {
    match r {
        ResponseModel::Version { uuid: u, .. } => u == uuid,
        ResponseModel::Auth { uuid: u, .. } => u == uuid,
        ResponseModel::Lock { uuid: u, .. } => u == uuid,
        ResponseModel::CompositeLock { uuid: u, .. } => u == uuid,
        ResponseModel::Unlock { uuid: u, .. } => u == uuid,
        ResponseModel::RegisterReadResult { uuid: u, .. } => u == uuid,
        ResponseModel::RegisterWriteResult { uuid: u, .. } => u == uuid,
        ResponseModel::EndReadResult { uuid: u, .. } => u == uuid,
        ResponseModel::EndWriteResult { uuid: u, .. } => u == uuid,
        ResponseModel::LockInfo { uuid: u, .. } => u == uuid,
        ResponseModel::LsResult { uuid: u, .. } => u == uuid,
        ResponseModel::Reelection { uuid: u, .. } => u == uuid,
        ResponseModel::Error { uuid: u, .. } => u == uuid,
        ResponseModel::Okay { uuid: u, .. } => u == uuid,
    }
}

/// A response that says that its request waits, or that says nothing of a request for
/// a lock, a release or an inspection, leaves the caller waiting.
pub open spec fn leaves_waiting(r: ResponseModel) -> bool {
    match r {
        ResponseModel::Lock { acquired, .. } => !acquired,
        ResponseModel::CompositeLock { acquired, .. } => !acquired,
        ResponseModel::RegisterReadResult { granted, .. } => !granted,
        ResponseModel::RegisterWriteResult { granted, .. } => !granted,
        ResponseModel::Version { .. } => true,
        ResponseModel::Auth { .. } => true,
        ResponseModel::Reelection { .. } => true,
        ResponseModel::Okay { .. } => true,
        _ => false,
    }
}

/// A call ends with the first response to it that does not leave the caller waiting,
/// or, if the caller does not poll, with the first response to it at all. If none
/// comes it is left with the last response to it, and without one with nothing.
pub proof fn a_call_ends_with_the_first_answer_that_settles_it(
    uuid: Seq<char>,
    keep_polling: bool,
    msgs: Seq<ResponseModel>,
)
    ensures
        ({
            let ends = |i: int|
                belongs_to(msgs[i], uuid) && !(keep_polling && leaves_waiting(msgs[i]));
            match http::awaited(uuid, keep_polling, msgs) {
                Some(r) => exists|i: int|
                    #![trigger msgs[i]]
                    0 <= i < msgs.len() && msgs[i] == r && belongs_to(r, uuid) && (forall|j: int|
                        0 <= j < i ==> !#[trigger] ends(j)) && (ends(i) || forall|j: int|
                        i < j < msgs.len() ==> !belongs_to(#[trigger] msgs[j], uuid)),
                None => forall|i: int|
                    0 <= i < msgs.len() ==> !belongs_to(#[trigger] msgs[i], uuid),
            }
        }),
    decreases msgs.len(),
{
    let ends = |i: int| belongs_to(msgs[i], uuid) && !(keep_polling && leaves_waiting(msgs[i]));
    if msgs.len() > 0 {
        let front = msgs.drop_last();
        let n = front.len() as int;
        let fends = |i: int|
            belongs_to(front[i], uuid) && !(keep_polling && leaves_waiting(front[i]));
        a_call_ends_with_the_first_answer_that_settles_it(uuid, keep_polling, front);
        assert(forall|i: int| 0 <= i < n ==> #[trigger] msgs[i] == front[i]);
        assert forall|i: int| 0 <= i < n implies #[trigger] ends(i) == fends(i) by {
            assert(msgs[i] == front[i]);
        }
        assert(msgs.last() == msgs[n]);
        assert(belongs_to(msgs[n], uuid) == (msgs[n].correlation() == uuid));
        match http::awaited(uuid, keep_polling, front) {
            Some(r) => {
                let i = choose|i: int|
                    #![trigger front[i]]
                    0 <= i < front.len() && front[i] == r && belongs_to(r, uuid) && (forall|j: int|
                        0 <= j < i ==> !#[trigger] fends(j)) && (fends(i) || forall|j: int|
                        i < j < front.len() ==> !belongs_to(#[trigger] front[j], uuid));
                assert(msgs[i] == r);
                assert(fends(i) == http::ends_wait(uuid, keep_polling, r));
                assert(ends(i) == fends(i));
                assert forall|j: int| 0 <= j < i implies !#[trigger] ends(j) by {
                    assert(!fends(j));
                }
                if !fends(i) {
                    assert forall|j: int| i < j < n implies !belongs_to(#[trigger] msgs[j], uuid) by {
                        assert(msgs[j] == front[j]);
                    }
                    assert forall|j: int| 0 <= j < n implies !#[trigger] ends(j) by {
                        if j > i {
                            assert(!belongs_to(msgs[j], uuid));
                        }
                    }
                }
            },
            None => {
                assert forall|j: int| 0 <= j < n implies !belongs_to(#[trigger] msgs[j], uuid) by {
                    assert(msgs[j] == front[j]);
                }
            },
        }
    }
}

/// A caller is told that it holds a lock exactly if it was granted one, under that id
/// and with these tokens; and the reply is a bad request exactly if the lock was
/// refused for a reason.
pub proof fn a_caller_is_told_what_it_was_granted(
    outcome: Option<ResponseModel>,
    key: Option<Seq<char>>,
    keys: Option<Seq<Seq<char>>>,
)
    ensures
        ({
            let told = http::acquire_told(outcome, key, keys);
            match outcome {
                Some(ResponseModel::Lock {
                    key: k,
                    acquired,
                    lock_uuid,
                    fencing_token,
                    lock_request_count,
                    error,
                    ..
                }) => told matches AcquireTold::Body { status, body } && {
                    &&& body.acquired == acquired
                    &&& body.lock_uuid == lock_uuid
                    &&& body.keys == seq![k]
                    &&& body.queue_depth == lock_request_count
                    &&& body.error == error
                    &&& forall|x: Seq<char>|
                        #[trigger] body.fencing_tokens.dom().contains(x) <==> x == k && fencing_token is Some
                    &&& fencing_token is Some ==> body.fencing_tokens[k] == fencing_token->0
                    &&& status == if !acquired && error is Some {
                        400u16
                    } else {
                        200u16
                    }
                },
                Some(ResponseModel::CompositeLock {
                    keys: ks,
                    acquired,
                    lock_uuid,
                    fencing_tokens,
                    error,
                    ..
                }) => told matches AcquireTold::Body { status, body } && {
                    &&& body.acquired == acquired
                    &&& body.lock_uuid == lock_uuid
                    &&& body.keys == ks
                    &&& body.queue_depth == 0
                    &&& body.error == error
                    &&& fencing_tokens is Some ==> body.fencing_tokens == fencing_tokens->0
                    &&& fencing_tokens is None ==> body.fencing_tokens == Map::<
                        Seq<char>,
                        u64,
                    >::empty()
                    &&& status == if !acquired && error is Some {
                        400u16
                    } else {
                        200u16
                    }
                },
                Some(ResponseModel::Error { error, .. }) => told matches AcquireTold::Fault {
                    status,
                    error: e,
                } && status == 400 && e == error,
                _ => told matches AcquireTold::Body { status, body } && {
                    &&& status == 200
                    &&& !body.acquired
                    &&& body.lock_uuid is None
                    &&& body.fencing_tokens == Map::<Seq<char>, u64>::empty()
                    &&& body.queue_depth == 0
                    &&& body.error is None
                    &&& keys matches Some(list) ==> body.keys == list
                    &&& keys is None && key is Some ==> body.keys == seq![key->0]
                    &&& keys is None && key is None ==> body.keys.len() == 0
                },
            }
        }),
{
}

/// A call runs under the id that its body or its header gives: the same from either
/// side, without the blanks around it, and of bounded length. Different ids and ids
/// that are too long are refused. Without one the call has none.
pub proof fn body_and_header_give_one_id(body: Option<Seq<char>>, header: Option<Seq<char>>)
    ensures
        ({
            let r = http::given_request_id(body, header);
            let b = body is Some && scan::trimmed(body->0).len() > 0;
            let h = header is Some && scan::trimmed(header->0).len() > 0;
            &&& http::given_request_id(header, body) == r
            &&& r == Ok::<Option<Seq<char>>, RequestIdError>(None) <==> !b && !h
            &&& r == Err::<Option<Seq<char>>, RequestIdError>(RequestIdError::Disagree) <==> b && h
                && scan::trimmed(body->0) != scan::trimmed(header->0)
            &&& r matches Ok(Some(id)) ==> {
                &&& b ==> id == scan::trimmed(body->0)
                &&& h ==> id == scan::trimmed(header->0)
                &&& vstd::utf8::encode_utf8(id).len() as usize <= 256
            }
            &&& r == Err::<Option<Seq<char>>, RequestIdError>(RequestIdError::TooLong) ==> {
                &&& b || h
                &&& b ==> vstd::utf8::encode_utf8(scan::trimmed(body->0)).len() as usize > 256
                &&& h ==> vstd::utf8::encode_utf8(scan::trimmed(header->0)).len() as usize > 256
            }
        }),
{
}

/// Of several idempotency headers the first one that is there counts.
pub proof fn the_first_header_counts(headers: Seq<Option<&str>>, i: int)
    requires
        0 <= i < headers.len(),
        headers[i] is Some,
        forall|j: int| 0 <= j < i ==> (#[trigger] headers[j]) is None,
    ensures
        http::first_given(headers) == Some(headers[i]->0@),
    decreases headers.len(),
{
    if i > 0 {
        assert(headers[0] is None);
        let rest = headers.drop_first();
        assert(rest[i - 1] == headers[i]);
        assert forall|j: int| 0 <= j < i - 1 implies (#[trigger] rest[j]) is None by {
            assert(rest[j] == headers[j + 1]);
        }
        the_first_header_counts(rest, i - 1);
    }
}

/// A caller presents the token in either header, and nothing else will do: one that
/// presents two different tokens sends both headers.
pub proof fn a_caller_presents_what_it_sends(
    a: Seq<char>,
    b: Seq<char>,
    authorization: Option<Seq<char>>,
    custom: Option<Seq<char>>,
)
    ensures
        http::presents_token(a, None, Some(a)),
        http::presents_token(a, Some("Bearer "@ + a), None),
        http::presents_token(a, None, custom) ==> custom == Some(a),
        http::presents_token(a, authorization, None) ==> authorization == Some("Bearer "@ + a),
        !http::presents_token(a, None, None),
        a != b && http::presents_token(a, authorization, custom) && http::presents_token(
            b,
            authorization,
            custom,
        ) ==> authorization is Some && custom is Some,
{
    if authorization == Some("Bearer "@ + a) && authorization == Some("Bearer "@ + b) {
        let n = "Bearer "@.len() as int;
        assert(("Bearer "@ + a).skip(n) =~= a);
        assert(("Bearer "@ + b).skip(n) =~= b);
    }
}

/// Who must present a token gets through only with it; without one configured everybody
/// does.
pub proof fn a_call_goes_through_with_the_token(
    token: Option<&str>,
    authorization: Option<&str>,
    custom: Option<&str>,
    through: bool,
)
    requires
        call_ensures(http::http_authorized, (token, authorization, custom), through),
    ensures
        token is None ==> through,
        token is Some && authorization is None && custom is None ==> !through,
        token is Some && custom is Some && custom->0@ == token->0@ ==> through,
        token is Some && authorization is Some && authorization->0@ == "Bearer "@ + token->0@
            ==> through,
        token is Some && through ==> (custom is Some && custom->0@ == token->0@) || (
        authorization is Some && authorization->0@ == "Bearer "@ + token->0@),
{
}

/// A caller that waits is given the time that it asks for, and never none at all.
pub proof fn a_caller_gets_the_time_it_asks_for(
    query: Option<&str>,
    body: Option<u64>,
    asked: Option<u64>,
    window: u64,
)
    requires
        call_ensures(http::asked_wait, (query, body), asked),
        call_ensures(http::reply_window, (asked,), window),
    ensures
        body is Some && body->0 > 0 ==> window == body->0,
        body is None && query is Some && query->0@ == text::decimal_text(window as nat) ==> asked
            == Some(window),
        body is None && query is None ==> asked is None,
        window > 0,
{
    scan::numbers_are_read_as_written(window as nat, u64::MAX as nat);
}

/// What a caller asks of the broker is what it sent: the keys, the time to live and the
/// level that it named, in turn, and not beyond its own life.
pub proof fn a_caller_asks_for_what_it_sends(uuid: String, req: &AcquireRequest, r: Request)
    requires
        call_ensures(http::acquire_request, (uuid, req), r),
    ensures
        r is Lock,
        r->Lock_uuid == uuid,
        r->Lock_key == req.key,
        r->Lock_keys is Some <==> req.keys is Some,
        r->Lock_keys is Some ==> ordered_map::views(r->Lock_keys->0@) == ordered_map::views(
            req.keys->0@,
        ),
        r->ttl == req.ttl_ms,
        r->max == req.max,
        !r->Lock_force && !r->keep_locks_after_death && r->wait is None,
{
}

/// What a caller releases is what it names.
pub proof fn a_caller_releases_what_it_names(uuid: String, req: &ReleaseRequest, r: Request)
    requires
        call_ensures(http::release_request, (uuid, req), r),
    ensures
        r is Unlock,
        r->Unlock_uuid == uuid,
        r->Unlock_key == req.key,
        r->Unlock_keys is Some <==> req.keys is Some,
        r->Unlock_keys is Some ==> ordered_map::views(r->Unlock_keys->0@) == ordered_map::views(
            req.keys->0@,
        ),
        r->lock_uuid == req.lock_uuid,
        r->Unlock_force == req.force,
{
}

/// A caller is told that its locks are released exactly if the broker said so; without
/// an answer it is told that there is none.
pub proof fn a_release_is_told(outcome: Option<Response>, r: HttpReply<ReleaseResponse>)
    requires
        call_ensures(http::release_reply, (outcome,), r),
    ensures
        outcome is None ==> r is Fault && r->Fault_status == 503,
        r is Body ==> r->Body_status == 200 && outcome is Some && (outcome->0@ matches
            ResponseModel::Unlock { keys, unlocked, .. } && r->body.unlocked == unlocked
            && ordered_map::views(r->body.keys@) == keys),
        outcome is Some && outcome->0@ is Unlock ==> r is Body,
        outcome is Some && outcome->0@ is Error ==> r is Fault && r->Fault_status == 400,
{
}

/// A reader is told what it was granted as a reader, a writer what it was granted as a
/// writer, and neither is told of a grant that the broker did not make.
pub proof fn readers_and_writers_are_told(
    is_read: bool,
    outcome: Option<Response>,
    asked: String,
    r: RwAcquireResponse,
)
    requires
        call_ensures(http::rw_acquire_reply, (is_read, outcome, asked), r),
    ensures
        r.granted ==> outcome is Some && match outcome->0@ {
            ResponseModel::RegisterReadResult { granted, .. } => is_read && granted,
            ResponseModel::RegisterWriteResult { granted, .. } => !is_read && granted,
            _ => false,
        },
        is_read && outcome is Some ==> (outcome->0@ matches ResponseModel::RegisterReadResult {
            granted,
            lock_uuid,
            fencing_token,
            ..
        } ==> r.granted == granted && protocol::shown_text(r.lock_uuid) == lock_uuid
            && r.fencing_token == fencing_token),
        !is_read && outcome is Some ==> (outcome->0@ matches ResponseModel::RegisterWriteResult {
            granted,
            lock_uuid,
            fencing_token,
            ..
        } ==> r.granted == granted && protocol::shown_text(r.lock_uuid) == lock_uuid
            && r.fencing_token == fencing_token),
        outcome is None ==> r.lock_uuid is None && r.fencing_token is None,
{
}

/// The end of a read or write is confirmed exactly if the broker unlocked it.
pub proof fn the_end_of_a_read_or_write_is_told(
    outcome: Option<Response>,
    asked: String,
    r: HttpReply<RwReleaseResponse>,
)
    requires
        call_ensures(http::rw_release_reply, (outcome, asked), r),
    ensures
        r is Body <==> outcome is Some && (outcome->0@ matches ResponseModel::Unlock {
            unlocked,
            ..
        } && unlocked),
        r is Body ==> r->Body_status == 200 && r->body.key == asked,
        r is Fault ==> r->Fault_status == 400,
{
}

/// What the broker knows of a key, or of all keys, is told as it says it; without an
/// answer the caller is told that there is none.
pub proof fn what_is_known_is_told(
    info: Option<Response>,
    asked: String,
    r: HttpReply<LockInfoResponse>,
    list: Option<Response>,
    all: HttpReply<Vec<String>>,
)
    requires
        call_ensures(http::lock_info_reply, (info, asked), r),
        call_ensures(http::ls_reply, (list,), all),
    ensures
        info is None ==> r is Fault && r->Fault_status == 503,
        list is None ==> all is Fault && all->Fault_status == 503,
        info is Some ==> (info->0@ matches ResponseModel::LockInfo {
            is_locked,
            lockholder_uuids,
            lock_request_count,
            readers_count,
            writer_flag,
            ..
        } ==> r is Body && r->body.is_locked == is_locked && ordered_map::views(
            r->body.lockholder_uuids@,
        ) == lockholder_uuids && r->body.lock_request_count == lock_request_count
            && r->body.readers_count == readers_count && r->body.writer_flag == writer_flag),
        list is Some ==> (list->0@ matches ResponseModel::LsResult { keys, .. } ==> all is Body
            && ordered_map::views(all->body@) == keys),
{
}

/// A caller of a replicated broker that does not answer is told why: another node leads,
/// and which one as far as it is known; the id of the request was used before; requests
/// of this kind are not served. Only the last two are the caller's fault.
pub proof fn a_replicated_broker_says_why(failure: RaftFailure, r: RaftRefusal)
    requires
        call_ensures(http::raft_unavailable, (failure,), r),
    ensures
        failure matches RaftFailure::NotLeader { leader_id, leader_addr } ==> r.status == 503
            && r.leader == Some((leader_id, leader_addr)),
        failure matches RaftFailure::IdempotencyKeyConflict { request_id } ==> r.status == 409
            && r.request_id == Some(request_id) && r.leader is None,
        failure matches RaftFailure::UnsupportedClientRequest(why) ==> r.status == 400 && r.error@
            == why@ && r.leader is None,
        failure matches RaftFailure::InvalidConfig(why) ==> r.status == 503 && r.error@ == why@,
        failure matches RaftFailure::Other(why) ==> r.status == 503 && r.error@ == why@,
{
}

} // verus!
