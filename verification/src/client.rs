//! What a client asks of a broker and what it makes of the replies.
//!
//! The transport hands every arrival on a request's channel to the functions
//! here, which say whether the wait is over and with what.

pub mod laws;

use crate::ordered_map;
use crate::ordered_map::OrderedMap;
use crate::protocol;
use crate::protocol::{
    Request, Response, ResponseModel, TokenMap, MAX_COMPOSITE_KEYS, PROTOCOL_VERSION,
};
use vstd::prelude::*;
use vstd::string::StringExecFns;

verus! {

/// Why a call of the client fails.
#[derive(Debug, Clone)]
pub enum ClientError {
    /// The broker reported an error.
    Broker(String),
    /// No reply within so many milliseconds.
    Timeout(u64),
    /// The transport is closed.
    Closed,
    /// The request, or a grant, is not acceptable.
    Invalid(String),
    /// The broker answered with something that is no answer to the request. Callers
    /// are told `said`, followed by the response.
    Unexpected { said: String, response: Response },
}

/// What a client error says.
#[verifier::ext_equal]
pub enum ErrorModel {
    Broker(Seq<char>),
    Timeout(u64),
    Closed,
    Invalid(Seq<char>),
    Unexpected { said: Seq<char>, response: ResponseModel },
}

impl View for ClientError {
    type V = ErrorModel;

    open spec fn view(&self) -> ErrorModel {
        match *self {
            ClientError::Broker(s) => ErrorModel::Broker(s@),
            ClientError::Timeout(ms) => ErrorModel::Timeout(ms),
            ClientError::Closed => ErrorModel::Closed,
            ClientError::Invalid(s) => ErrorModel::Invalid(s@),
            ClientError::Unexpected { said, response } => ErrorModel::Unexpected {
                said: said@,
                response: response@,
            },
        }
    }
}

/// The error for a response that is no answer to the request.
fn unexpected(said: &str, response: Response) -> (r: ClientError)
    ensures
        r@ == (ErrorModel::Unexpected { said: said@, response: response@ }),
{
    ClientError::Unexpected { said: String::from_str(said), response }
}

/// How a client behaves.
#[derive(Debug, Clone)]
pub struct ClientConfig {
    pub auth_token: Option<String>,
    /// Milliseconds.
    pub default_request_timeout: u64,
}

impl Default for ClientConfig {
    fn default() -> (r: Self)
        ensures
            r.auth_token is None,
            r.default_request_timeout == 5_000,
    {
        ClientConfig { auth_token: None, default_request_timeout: 5_000 }
    }
}

/// Acquired exclusive (or composite) lock. The holder releases it explicitly.
#[derive(Debug, Clone)]
pub struct LockGuard {
    pub keys: Vec<String>,
    pub lock_uuid: String,
    pub fencing_token: Option<u64>,
    pub fencing_tokens: TokenMap,
}

/// What a guard holds.
#[verifier::ext_equal]
pub struct GuardModel {
    pub keys: Seq<Seq<char>>,
    pub lock_uuid: Seq<char>,
    pub fencing_token: Option<u64>,
    pub fencing_tokens: Map<Seq<char>, u64>,
}

impl View for LockGuard {
    type V = GuardModel;

    open spec fn view(&self) -> GuardModel {
        GuardModel {
            keys: ordered_map::views(self.keys@),
            lock_uuid: self.lock_uuid@,
            fencing_token: self.fencing_token,
            fencing_tokens: self.fencing_tokens@,
        }
    }
}

impl GuardModel {
    /// The guard of one key.
    pub open spec fn single(key: Seq<char>, lock_uuid: Seq<char>, fencing_token: Option<u64>) -> Self {
        GuardModel {
            keys: seq![key],
            lock_uuid,
            fencing_token,
            fencing_tokens: match fencing_token {
                Some(t) => Map::empty().insert(key, t),
                None => Map::empty(),
            },
        }
    }

    /// The guard of several keys.
    pub open spec fn composite(
        keys: Seq<Seq<char>>,
        lock_uuid: Seq<char>,
        fencing_tokens: Map<Seq<char>, u64>,
    ) -> Self {
        GuardModel { keys, lock_uuid, fencing_token: None, fencing_tokens }
    }
}

impl LockGuard {
    /// The guard of one key.
    pub fn single(key: String, lock_uuid: String, fencing_token: Option<u64>) -> (r: Self)
        ensures
            r@ == GuardModel::single(key@, lock_uuid@, fencing_token),
    {
        let ghost name = key@;
        let mut tokens: TokenMap = OrderedMap::new();
        if let Some(t) = fencing_token {
            tokens.insert(key.clone(), t);
        }
        let mut keys: Vec<String> = Vec::new();
        keys.push(key);
        assert(ordered_map::views(keys@) =~= seq![name]);
        LockGuard { keys, lock_uuid, fencing_token, fencing_tokens: tokens }
    }

    /// The guard of several keys.
    pub fn composite(keys: Vec<String>, lock_uuid: String, fencing_tokens: TokenMap) -> (r: Self)
        ensures
            r@ == GuardModel::composite(ordered_map::views(keys@), lock_uuid@, fencing_tokens@),
    {
        LockGuard { keys, lock_uuid, fencing_token: None, fencing_tokens }
    }
}

/// What a broker tells of one key.
#[derive(Debug, Clone)]
pub struct LockInfo {
    pub key: String,
    pub is_locked: bool,
    pub lockholder_uuids: Vec<String>,
    pub lock_request_count: usize,
    pub readers_count: u32,
    pub writer_flag: bool,
}

/// What comes on the channel of a request.
#[derive(Debug, Clone)]
pub enum Arrival {
    Reply(Response),
    /// The channel is closed.
    Closed,
    /// Nothing came within the time allowed.
    TimedOut,
}

/// How a wait goes on.
pub enum Step<T> {
    Done(T),
    Failed(ClientError),
    Waiting,
}

/// The guard that a response grants.
pub open spec fn granted_guard(r: ResponseModel) -> Option<GuardModel> {
    match r {
        ResponseModel::Lock { acquired: true, key, lock_uuid: Some(u), fencing_token, .. } => Some(
            GuardModel::single(key, u, fencing_token),
        ),
        ResponseModel::CompositeLock {
            acquired: true,
            keys,
            lock_uuid: Some(u),
            fencing_tokens,
            ..
        } => Some(
            GuardModel::composite(
                keys,
                u,
                match fencing_tokens {
                    Some(tokens) => tokens,
                    None => Map::empty(),
                },
            ),
        ),
        _ => None,
    }
}

/// Whether a response refuses a lock.
pub open spec fn refused_lock(r: ResponseModel) -> bool {
    match r {
        ResponseModel::Lock { acquired, .. } => !acquired,
        ResponseModel::CompositeLock { acquired, .. } => !acquired,
        _ => false,
    }
}

/// What an arrival says against a call, if it ends it without a reply.
pub open spec fn broken(arrival: Arrival, timeout: u64) -> Option<ErrorModel> {
    match arrival {
        Arrival::Reply(_) => None,
        Arrival::Closed => Some(ErrorModel::Closed),
        Arrival::TimedOut => Some(ErrorModel::Timeout(timeout)),
    }
}

/// What an arrival means to a blocking acquire: the grant ends it, so do an
/// error, a closed channel and the end of the time allowed. Everything else is
/// passed over.
pub fn wait_for_acquire(arrival: Arrival, timeout: u64) -> (r: Step<LockGuard>)
    ensures
        match arrival {
            Arrival::Reply(resp) => match r {
                Step::Done(g) => granted_guard(resp@) == Some(g@),
                Step::Failed(e) => resp@ matches ResponseModel::Error { error, .. } && e@
                    == ErrorModel::Broker(error),
                Step::Waiting => granted_guard(resp@) is None && !(resp@ is Error),
            },
            _ => r matches Step::Failed(e) && broken(arrival, timeout) == Some(e@),
        },
{
    match arrival {
        Arrival::Closed => Step::Failed(ClientError::Closed),
        Arrival::TimedOut => Step::Failed(ClientError::Timeout(timeout)),
        Arrival::Reply(resp) => match resp {
            Response::Lock { acquired: true, key, lock_uuid: Some(u), fencing_token, .. } => {
                Step::Done(LockGuard::single(key, u, fencing_token))
            },
            Response::CompositeLock {
                acquired: true,
                keys,
                lock_uuid: Some(u),
                fencing_tokens,
                ..
            } => Step::Done(LockGuard::composite(keys, u, tokens_or_none(fencing_tokens))),
            Response::Error { error, .. } => Step::Failed(ClientError::Broker(error)),
            _ => Step::Waiting,
        },
    }
}

fn tokens_or_none(tokens: Option<TokenMap>) -> (r: TokenMap)
    ensures
        r@ == match protocol::shown_tokens(tokens) {
            Some(m) => m,
            None => Map::<Seq<char>, u64>::empty(),
        },
{
    match tokens {
        Some(m) => m,
        None => OrderedMap::new(),
    }
}

/// What the one reply to an acquire without wait means: the grant, nothing if
/// the lock is contended, or an error.
pub fn try_acquire_reply(arrival: Arrival, timeout: u64) -> (r: Result<
    Option<LockGuard>,
    ClientError,
>)
    ensures
        match arrival {
            Arrival::Reply(resp) => match r {
                Ok(Some(g)) => granted_guard(resp@) == Some(g@),
                Ok(None) => refused_lock(resp@),
                Err(e) => granted_guard(resp@) is None && !refused_lock(resp@) && e@ == (
                match resp@ {
                    ResponseModel::Error { error, .. } => ErrorModel::Broker(error),
                    other => (ErrorModel::Unexpected {
                        said: "unexpected try-acquire response: "@,
                        response: other,
                    }),
                }),
            },
            _ => r matches Err(e) && broken(arrival, timeout) == Some(e@),
        },
{
    match arrival {
        Arrival::Closed => Err(ClientError::Closed),
        Arrival::TimedOut => Err(ClientError::Timeout(timeout)),
        Arrival::Reply(resp) => match resp {
            Response::Lock { acquired: true, key, lock_uuid: Some(u), fencing_token, .. } => {
                Ok(Some(LockGuard::single(key, u, fencing_token)))
            },
            Response::CompositeLock {
                acquired: true,
                keys,
                lock_uuid: Some(u),
                fencing_tokens,
                ..
            } => Ok(Some(LockGuard::composite(keys, u, tokens_or_none(fencing_tokens)))),
            Response::Lock { acquired: false, .. } => Ok(None),
            Response::CompositeLock { acquired: false, .. } => Ok(None),
            Response::Error { error, .. } => Err(ClientError::Broker(error)),
            other => Err(unexpected("unexpected try-acquire response: ", other)),
        },
    }
}

/// What a response says of a release.
pub open spec fn released(r: ResponseModel) -> Result<(), ErrorModel> {
    match r {
        ResponseModel::Unlock { unlocked: true, .. } => Ok(()),
        ResponseModel::Unlock { error: Some(e), .. } => Err(ErrorModel::Broker(e)),
        ResponseModel::Unlock { .. } => Err(ErrorModel::Broker("unlock returned unlocked=false"@)),
        ResponseModel::Error { error, .. } => Err(ErrorModel::Broker(error)),
        other => Err(
            ErrorModel::Unexpected { said: "unexpected unlock response: "@, response: other },
        ),
    }
}

/// What the reply to a release means.
pub fn release_reply(arrival: Arrival, timeout: u64) -> (r: Result<(), ClientError>)
    ensures
        match arrival {
            Arrival::Reply(resp) => match r {
                Ok(_) => released(resp@) is Ok,
                Err(e) => released(resp@) == Err::<(), ErrorModel>(e@),
            },
            _ => r matches Err(e) && broken(arrival, timeout) == Some(e@),
        },
{
    match arrival {
        Arrival::Closed => Err(ClientError::Closed),
        Arrival::TimedOut => Err(ClientError::Timeout(timeout)),
        Arrival::Reply(resp) => match resp {
            Response::Unlock { unlocked: true, .. } => Ok(()),
            Response::Unlock { unlocked: false, error, .. } => match error {
                Some(e) => Err(ClientError::Broker(e)),
                None => Err(
                    ClientError::Broker(String::from_str("unlock returned unlocked=false")),
                ),
            },
            Response::Error { error, .. } => Err(ClientError::Broker(error)),
            other => Err(unexpected("unexpected unlock response: ", other)),
        },
    }
}

/// What the reply to the auth handshake says.
pub open spec fn authenticated(r: ResponseModel) -> Result<(), ErrorModel> {
    match r {
        ResponseModel::Auth { ok: true, .. } => Ok(()),
        ResponseModel::Auth { error: Some(e), .. } => Err(ErrorModel::Broker(e)),
        ResponseModel::Auth { .. } => Err(ErrorModel::Broker("auth failed"@)),
        other => Err(
            ErrorModel::Unexpected { said: "unexpected auth response: "@, response: other },
        ),
    }
}

/// What the reply to the auth handshake means.
pub fn auth_reply(arrival: Arrival, timeout: u64) -> (r: Result<(), ClientError>)
    ensures
        match arrival {
            Arrival::Reply(resp) => match r {
                Ok(_) => authenticated(resp@) is Ok,
                Err(e) => authenticated(resp@) == Err::<(), ErrorModel>(e@),
            },
            _ => r matches Err(e) && broken(arrival, timeout) == Some(e@),
        },
{
    match arrival {
        Arrival::Closed => Err(ClientError::Closed),
        Arrival::TimedOut => Err(ClientError::Timeout(timeout)),
        Arrival::Reply(resp) => match resp {
            Response::Auth { ok: true, .. } => Ok(()),
            Response::Auth { ok: false, error, .. } => match error {
                Some(e) => Err(ClientError::Broker(e)),
                None => Err(ClientError::Broker(String::from_str("auth failed"))),
            },
            other => Err(unexpected("unexpected auth response: ", other)),
        },
    }
}

/// What the reply to an inspection means.
pub fn lock_info_reply(arrival: Arrival, timeout: u64) -> (r: Result<LockInfo, ClientError>)
    ensures
        match arrival {
            Arrival::Reply(resp) => match r {
                Ok(info) => resp@ matches ResponseModel::LockInfo {
                    key,
                    is_locked,
                    lockholder_uuids,
                    lock_request_count,
                    readers_count,
                    writer_flag,
                    ..
                } && {
                    &&& info.key@ == key
                    &&& info.is_locked == is_locked
                    &&& ordered_map::views(info.lockholder_uuids@) == lockholder_uuids
                    &&& info.lock_request_count == lock_request_count
                    &&& info.readers_count == readers_count
                    &&& info.writer_flag == writer_flag
                },
                Err(e) => !(resp@ is LockInfo) && e@ == (match resp@ {
                    ResponseModel::Error { error, .. } => ErrorModel::Broker(error),
                    other => (ErrorModel::Unexpected { said: "unexpected: "@, response: other }),
                }),
            },
            _ => r matches Err(e) && broken(arrival, timeout) == Some(e@),
        },
{
    match arrival {
        Arrival::Closed => Err(ClientError::Closed),
        Arrival::TimedOut => Err(ClientError::Timeout(timeout)),
        Arrival::Reply(resp) => match resp {
            Response::LockInfo {
                key,
                is_locked,
                lockholder_uuids,
                lock_request_count,
                readers_count,
                writer_flag,
                ..
            } => Ok(
                LockInfo {
                    key,
                    is_locked,
                    lockholder_uuids,
                    lock_request_count,
                    readers_count,
                    writer_flag,
                },
            ),
            Response::Error { error, .. } => Err(ClientError::Broker(error)),
            other => Err(unexpected("unexpected: ", other)),
        },
    }
}

/// What the reply to a listing means.
pub fn ls_reply(arrival: Arrival, timeout: u64) -> (r: Result<Vec<String>, ClientError>)
    ensures
        match arrival {
            Arrival::Reply(resp) => match r {
                Ok(found) => resp@ matches ResponseModel::LsResult { keys, .. }
                    && ordered_map::views(found@) == keys,
                Err(e) => !(resp@ is LsResult) && e@ == (ErrorModel::Unexpected {
                    said: "unexpected: "@,
                    response: resp@,
                }),
            },
            _ => r matches Err(e) && broken(arrival, timeout) == Some(e@),
        },
{
    match arrival {
        Arrival::Closed => Err(ClientError::Closed),
        Arrival::TimedOut => Err(ClientError::Timeout(timeout)),
        Arrival::Reply(resp) => match resp {
            Response::LsResult { keys, .. } => Ok(keys),
            other => Err(unexpected("unexpected: ", other)),
        },
    }
}

/// The lock id and fencing token that a response grants to a reader or writer.
pub open spec fn granted_rw(is_read: bool, r: ResponseModel) -> Option<(Seq<char>, Option<u64>)> {
    match r {
        ResponseModel::RegisterReadResult {
            granted: true,
            lock_uuid: Some(u),
            fencing_token,
            ..
        } => if is_read {
            Some((u, fencing_token))
        } else {
            None
        },
        ResponseModel::RegisterWriteResult {
            granted: true,
            lock_uuid: Some(u),
            fencing_token,
            ..
        } => if is_read {
            None
        } else {
            Some((u, fencing_token))
        },
        _ => None,
    }
}

/// What an arrival means to a reader or writer that waits for its grant.
pub fn wait_for_rw_grant(is_read: bool, arrival: Arrival, timeout: u64) -> (r: Step<
    (String, Option<u64>),
>)
    ensures
        match arrival {
            Arrival::Reply(resp) => match r {
                Step::Done((u, t)) => granted_rw(is_read, resp@) == Some((u@, t)),
                Step::Failed(e) => resp@ matches ResponseModel::Error { error, .. } && e@
                    == ErrorModel::Broker(error),
                Step::Waiting => granted_rw(is_read, resp@) is None && !(resp@ is Error),
            },
            _ => r matches Step::Failed(e) && broken(arrival, timeout) == Some(e@),
        },
{
    match arrival {
        Arrival::Closed => Step::Failed(ClientError::Closed),
        Arrival::TimedOut => Step::Failed(ClientError::Timeout(timeout)),
        Arrival::Reply(resp) => match resp {
            Response::RegisterReadResult {
                granted: true,
                lock_uuid: Some(u),
                fencing_token,
                ..
            } => if is_read {
                Step::Done((u, fencing_token))
            } else {
                Step::Waiting
            },
            Response::RegisterWriteResult {
                granted: true,
                lock_uuid: Some(u),
                fencing_token,
                ..
            } => if is_read {
                Step::Waiting
            } else {
                Step::Done((u, fencing_token))
            },
            Response::Error { error, .. } => Step::Failed(ClientError::Broker(error)),
            _ => Step::Waiting,
        },
    }
}

/// The lock request of a client: with a process id and a time to live, never
/// forced. Without `wait` it fails fast under contention.
pub open spec fn lock_request(
    uuid: String,
    key: Option<String>,
    keys: Option<Vec<String>>,
    pid: i64,
    ttl: u64,
    max: Option<u32>,
    wait: bool,
) -> Request {
    Request::Lock {
        uuid,
        key,
        keys,
        pid: Some(pid),
        ttl: Some(ttl),
        max,
        force: false,
        retry_count: 0,
        keep_locks_after_death: false,
        wait: Some(wait),
    }
}

/// The request for one key. `ttl` is in milliseconds.
pub fn acquire_request(uuid: String, key: String, pid: i64, ttl: u64, wait: bool) -> (r: Request)
    ensures
        r == lock_request(uuid, Some(key), None, pid, ttl, None, wait),
{
    Request::Lock {
        uuid,
        key: Some(key),
        keys: None,
        pid: Some(pid),
        ttl: Some(ttl),
        max: None,
        force: false,
        retry_count: 0,
        keep_locks_after_death: false,
        wait: Some(wait),
    }
}

/// The request for one of `max` slots of a key. One slot is the request for the key
/// itself; no slots at all are refused.
pub fn acquire_with_max_request(uuid: String, key: String, max: u32, pid: i64, ttl: u64) -> (r:
    Result<Request, ClientError>)
    ensures
        match r {
            Ok(request) => max > 0 && request == lock_request(
                uuid,
                Some(key),
                None,
                pid,
                ttl,
                if max == 1 {
                    None
                } else {
                    Some(max)
                },
                true,
            ),
            Err(e) => max == 0 && e@ == ErrorModel::Invalid(
                "acquire_with_max requires max >= 1; use acquire() for default semantics"@,
            ),
        },
{
    if max == 0 {
        return Err(
            ClientError::Invalid(
                String::from_str(
                    "acquire_with_max requires max >= 1; use acquire() for default semantics",
                ),
            ),
        );
    }
    Ok(
        Request::Lock {
            uuid,
            key: Some(key),
            keys: None,
            pid: Some(pid),
            ttl: Some(ttl),
            max: if max == 1 {
                None
            } else {
                Some(max)
            },
            force: false,
            retry_count: 0,
            keep_locks_after_death: false,
            wait: Some(true),
        },
    )
}

/// The request for several keys at once. Their number is bounded.
pub fn composite_request(uuid: String, keys: Vec<String>, pid: i64, ttl: u64, wait: bool) -> (r:
    Result<Request, ClientError>)
    ensures
        match r {
            Ok(request) => 1 <= keys@.len() <= MAX_COMPOSITE_KEYS && request == lock_request(
                uuid,
                None,
                Some(keys),
                pid,
                ttl,
                None,
                wait,
            ),
            Err(e) => !(1 <= keys@.len() <= MAX_COMPOSITE_KEYS) && e@ == ErrorModel::Invalid(
                "composite acquire requires 1..=5 keys"@,
            ),
        },
{
    if keys.len() == 0 || keys.len() > MAX_COMPOSITE_KEYS {
        return Err(
            ClientError::Invalid(String::from_str("composite acquire requires 1..=5 keys")),
        );
    }
    Ok(
        Request::Lock {
            uuid,
            key: None,
            keys: Some(keys),
            pid: Some(pid),
            ttl: Some(ttl),
            max: None,
            force: false,
            retry_count: 0,
            keep_locks_after_death: false,
            wait: Some(wait),
        },
    )
}

/// The request that releases a guard: by key for one key, by keys for several.
pub fn release_request(uuid: String, guard: &LockGuard) -> (r: Request)
    ensures
        r matches Request::Unlock { uuid: id, key, keys, lock_uuid, force } && {
            &&& id == uuid
            &&& !force
            &&& protocol::shown_text(lock_uuid) == Some(guard@.lock_uuid)
            &&& protocol::shown_text(key) == if guard@.keys.len() == 1 {
                Some(guard@.keys[0])
            } else {
                None
            }
            &&& match keys {
                Some(list) => guard@.keys.len() > 1 && ordered_map::views(list@) == guard@.keys,
                None => guard@.keys.len() <= 1,
            }
        },
{
    let key = if guard.keys.len() == 1 {
        Some(guard.keys[0].clone())
    } else {
        None
    };
    let keys = if guard.keys.len() > 1 {
        let list = guard.keys.clone();
        assert(list@ =~= guard.keys@);
        Some(list)
    } else {
        None
    };
    Request::Unlock { uuid, key, keys, lock_uuid: Some(guard.lock_uuid.clone()), force: false }
}

/// The request that releases a read or write lock.
pub fn rw_release_request(uuid: String, key: &str, lock_uuid: &str) -> (r: Request)
    ensures
        r matches Request::Unlock { uuid: id, key: Some(k), keys: None, lock_uuid: Some(u), force }
            && id == uuid && !force && k@ == key@ && u@ == lock_uuid@,
{
    Request::Unlock {
        uuid,
        key: Some(String::from_str(key)),
        keys: None,
        lock_uuid: Some(String::from_str(lock_uuid)),
        force: false,
    }
}

/// What a client says on a new connection, in order: the token, where it has
/// one, comes before everything else.
pub fn handshake(auth_token: Option<String>, auth_uuid: String, version_uuid: String) -> (r: Vec<
    Request,
>)
    ensures
        match auth_token {
            Some(token) => r@.len() == 2 && r@[0] == (Request::Auth { uuid: auth_uuid, token }),
            None => r@.len() == 1,
        },
        r@.last() matches Request::Version { uuid, value } && uuid == version_uuid && value@
            == PROTOCOL_VERSION@,
{
    let mut r: Vec<Request> = Vec::new();
    if let Some(token) = auth_token {
        r.push(Request::Auth { uuid: auth_uuid, token });
    }
    r.push(Request::Version { uuid: version_uuid, value: String::from_str(PROTOCOL_VERSION) });
    r
}

/// What a request still in flight is told when the connection closes.
pub fn connection_closed_notice(uuid: String) -> (r: Response)
    ensures
        r@ == (ResponseModel::Error { uuid: uuid@, error: "broker connection closed"@ }),
{
    Response::Error { uuid, error: String::from_str("broker connection closed") }
}

} // verus!
