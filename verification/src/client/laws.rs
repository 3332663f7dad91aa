//! What a client makes of every reply.

use crate::client;
use crate::client::{Arrival, ErrorModel};
use crate::protocol::{Request, ResponseModel};
use vstd::prelude::*;

verus! {

/// A client has a guard exactly of a lock that it was granted: over the keys, under the
/// id and with the tokens that the broker told it. A lock of one key has its token
/// alone as well; a composite lock has none alone.
pub proof fn a_guard_is_what_was_granted(r: ResponseModel)
    ensures
        match r {
            ResponseModel::Lock { acquired, key, lock_uuid, fencing_token, .. } => match client::granted_guard(
                r,
            ) {
                Some(g) => {
                    &&& acquired
                    &&& lock_uuid == Some(g.lock_uuid)
                    &&& g.keys == seq![key]
                    &&& g.fencing_token == fencing_token
                    &&& forall|k: Seq<char>| #[trigger]
                        g.fencing_tokens.dom().contains(k) <==> k == key && fencing_token is Some
                    &&& fencing_token is Some ==> g.fencing_tokens[key] == fencing_token->0
                },
                None => !acquired || lock_uuid is None,
            },
            ResponseModel::CompositeLock { acquired, keys, lock_uuid, fencing_tokens, .. } => match client::granted_guard(
                r,
            ) {
                Some(g) => {
                    &&& acquired
                    &&& lock_uuid == Some(g.lock_uuid)
                    &&& g.keys == keys
                    &&& g.fencing_token is None
                    &&& fencing_tokens is Some ==> g.fencing_tokens == fencing_tokens->0
                    &&& fencing_tokens is None ==> g.fencing_tokens == Map::<
                        Seq<char>,
                        u64,
                    >::empty()
                },
                None => !acquired || lock_uuid is None,
            },
            _ => client::granted_guard(r) is None,
        },
{
}

/// A lock is refused exactly by a reply to a lock request that says so, and none is
/// refused and granted.
pub proof fn a_refusal_is_no_grant(r: ResponseModel)
    ensures
        client::refused_lock(r) <==> {
            ||| r matches ResponseModel::Lock { acquired: false, .. }
            ||| r matches ResponseModel::CompositeLock { acquired: false, .. }
        },
        client::refused_lock(r) ==> client::granted_guard(r) is None,
{
}

/// A reader is granted by the result of a read alone and a writer by that of a write,
/// under the id and with the token of the result.
pub proof fn readers_and_writers_get_their_own(r: ResponseModel)
    ensures
        client::granted_rw(true, r) is Some ==> client::granted_rw(false, r) is None,
        match r {
            ResponseModel::RegisterReadResult { granted, lock_uuid, fencing_token, .. } => {
                &&& client::granted_rw(true, r) == if granted && lock_uuid is Some {
                    Some((lock_uuid->0, fencing_token))
                } else {
                    None
                }
                &&& client::granted_rw(false, r) is None
            },
            ResponseModel::RegisterWriteResult { granted, lock_uuid, fencing_token, .. } => {
                &&& client::granted_rw(false, r) == if granted && lock_uuid is Some {
                    Some((lock_uuid->0, fencing_token))
                } else {
                    None
                }
                &&& client::granted_rw(true, r) is None
            },
            _ => client::granted_rw(true, r) is None && client::granted_rw(false, r) is None,
        },
{
}

/// A release succeeds exactly if the broker says that it unlocked; otherwise the client
/// is told the broker's reason, if it gives one.
pub proof fn a_release_succeeds_if_the_broker_unlocked(r: ResponseModel)
    ensures
        client::released(r) is Ok <==> r matches ResponseModel::Unlock { unlocked: true, .. },
        r matches ResponseModel::Unlock { unlocked: false, error: Some(e), .. } ==> client::released(
            r,
        ) == Err::<(), ErrorModel>(ErrorModel::Broker(e)),
        r matches ResponseModel::Unlock { unlocked: false, error: None, .. } ==> client::released(
            r,
        ) == Err::<(), ErrorModel>(ErrorModel::Broker("unlock returned unlocked=false"@)),
        r matches ResponseModel::Error { error, .. } ==> client::released(r) == Err::<
            (),
            ErrorModel,
        >(ErrorModel::Broker(error)),
        !(r is Unlock) && !(r is Error) ==> (client::released(r) matches Err(
            ErrorModel::Unexpected { said, response },
        ) && response == r && said == "unexpected unlock response: "@),
{
}

/// A client is let in exactly if the broker accepts its token; otherwise it is told
/// the broker's reason, if it gives one.
pub proof fn a_client_is_let_in_if_its_token_is_accepted(r: ResponseModel)
    ensures
        client::authenticated(r) is Ok <==> r matches ResponseModel::Auth { ok: true, .. },
        r matches ResponseModel::Auth { ok: false, error: Some(e), .. } ==> client::authenticated(r)
            == Err::<(), ErrorModel>(ErrorModel::Broker(e)),
        r matches ResponseModel::Auth { ok: false, error: None, .. } ==> client::authenticated(r)
            == Err::<(), ErrorModel>(ErrorModel::Broker("auth failed"@)),
        !(r is Auth) ==> (client::authenticated(r) matches Err(
            ErrorModel::Unexpected { said, response },
        ) && response == r && said == "unexpected auth response: "@),
{
}

/// A call ends without a reply exactly if the channel closes or the time allowed runs
/// out, and tells which.
pub proof fn a_call_breaks_off_for_a_reason(arrival: Arrival, timeout: u64)
    ensures
        arrival is Reply <==> client::broken(arrival, timeout) is None,
        arrival is Closed ==> client::broken(arrival, timeout) == Some(ErrorModel::Closed),
        arrival is TimedOut ==> client::broken(arrival, timeout) == Some(
            ErrorModel::Timeout(timeout),
        ),
{
}

/// A client asks in its own name, for a limited time, and never out of turn; its locks
/// do not outlive it.
pub proof fn a_client_asks_in_turn_and_for_a_time(
    uuid: String,
    key: Option<String>,
    keys: Option<Vec<String>>,
    pid: i64,
    ttl: u64,
    max: Option<u32>,
    wait: bool,
)
    ensures
        client::lock_request(uuid, key, keys, pid, ttl, max, wait) matches Request::Lock {
            uuid: u,
            key: k,
            keys: ks,
            pid: p,
            ttl: t,
            max: m,
            force,
            retry_count,
            keep_locks_after_death,
            wait: w,
        } && u == uuid && k == key && ks == keys && p == Some(pid) && t == Some(ttl) && m == max
            && !force && retry_count == 0 && !keep_locks_after_death && w == Some(wait),
{
}

} // verus!
