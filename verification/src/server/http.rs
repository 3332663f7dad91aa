//! The HTTP surface: who may call, under which id a call runs, how long it
//! waits, and what the caller is told.

pub mod laws;

use crate::broker::model;
use crate::broker::model::Tape;
use crate::broker::types::{BrokerModel, GrantOverrides};
use crate::broker::ClientId;
use crate::clock;
use crate::hardened_broker;
use crate::hardened_broker::Broker;
use crate::ids;
use crate::ids::random_id;
use crate::ordered_map;
use crate::ordered_map::OrderedMap;
use crate::protocol;
use crate::protocol::http::{
    AcquireRequest, AcquireResponse, LockInfoResponse, ReleaseRequest, ReleaseResponse,
    RwAcquireResponse, RwReleaseResponse,
};
use crate::protocol::{Request, Response, ResponseModel, TokenMap};
use crate::scan;
use crate::scan::{parse_number, same_text};
use crate::text::join2;
use vstd::prelude::*;
use vstd::string::StringExecFns;

verus! {

/// Longest request id, in bytes.
pub const MAX_REQUEST_ID_LEN: usize = 256;

/// How long a call without a wait window is given for its reply, in
/// milliseconds.
pub const SHORTEST_WAIT_MS: u64 = 50;

/// How long a release may take, in milliseconds.
pub const RELEASE_WAIT_MS: u64 = 2_000;

/// How long an inspection may take, in milliseconds.
pub const INSPECT_WAIT_MS: u64 = 500;

/// Whether a caller with these headers presents `token`: as a bearer token, or
/// in the header of its own.
pub open spec fn presents_token(
    token: Seq<char>,
    authorization: Option<Seq<char>>,
    custom: Option<Seq<char>>,
) -> bool {
    authorization == Some("Bearer "@ + token) || custom == Some(token)
}

/// Whether a caller with these headers presents `token`.
pub fn token_presented(token: &str, authorization: Option<&str>, custom: Option<&str>) -> (r: bool)
    ensures
        r == presents_token(token@, scan::shown_str(authorization), scan::shown_str(custom)),
{
    let bearer = match authorization {
        Some(value) => same_text(value, join2("Bearer ", token).as_str()),
        None => false,
    };
    let own = match custom {
        Some(value) => same_text(value, token),
        None => false,
    };
    bearer || own
}

/// Whether a call may go through: without a token configured, every call.
/// `authorization` and `custom` are the headers `authorization` and
/// `x-lmx-auth`.
pub fn http_authorized(
    auth_token: Option<&str>,
    authorization: Option<&str>,
    custom: Option<&str>,
) -> (r: bool)
    ensures
        r == match auth_token {
            None => true,
            Some(token) => presents_token(
                token@,
                scan::shown_str(authorization),
                scan::shown_str(custom),
            ),
        },
{
    match auth_token {
        None => true,
        Some(token) => token_presented(token, authorization, custom),
    }
}

/// Why a request id is refused.
#[derive(Debug, Clone, Copy, PartialEq, Eq, Structural)]
pub enum RequestIdError {
    /// Body and header name different ids.
    Disagree,
    /// The id is too long.
    TooLong,
}

impl RequestIdError {
    /// What the caller is told.
    pub fn message(&self) -> (r: &'static str)
        ensures
            r@ == match *self {
                RequestIdError::Disagree => "requestId and idempotency header disagree"@,
                RequestIdError::TooLong => "requestId must be at most 256 bytes"@,
            },
    {
        match self {
            RequestIdError::Disagree => "requestId and idempotency header disagree",
            RequestIdError::TooLong => "requestId must be at most 256 bytes",
        }
    }
}

/// The first header that is there.
pub open spec fn first_given(headers: Seq<Option<&str>>) -> Option<Seq<char>>
    decreases headers.len(),
{
    if headers.len() == 0 {
        None
    } else {
        match headers[0] {
            Some(value) => Some(value@),
            None => first_given(headers.drop_first()),
        }
    }
}

/// The request id that a caller gives, if any: body and header must agree, and
/// the id must not be too long.
pub open spec fn given_request_id(body: Option<Seq<char>>, header: Option<Seq<char>>) -> Result<
    Option<Seq<char>>,
    RequestIdError,
> {
    let named = match (scan::filled(body), scan::filled(header)) {
        (Some(b), Some(h)) => if b == h {
            Ok(Some(b))
        } else {
            Err(RequestIdError::Disagree)
        },
        (Some(b), None) => Ok(Some(b)),
        (None, Some(h)) => Ok(Some(h)),
        (None, None) => Ok(None),
    };
    match named {
        Ok(Some(id)) => if vstd::utf8::encode_utf8(id).len() as usize > MAX_REQUEST_ID_LEN {
            Err(RequestIdError::TooLong)
        } else {
            Ok(Some(id))
        },
        other => other,
    }
}

fn bounded(id: String) -> (r: Result<String, RequestIdError>)
    ensures
        match r {
            Ok(same) => same@ == id@ && !(vstd::utf8::encode_utf8(id@).len() as usize
                > MAX_REQUEST_ID_LEN),
            Err(e) => e == RequestIdError::TooLong && vstd::utf8::encode_utf8(id@).len() as usize
                > MAX_REQUEST_ID_LEN,
        },
{
    if id.as_str().len() > MAX_REQUEST_ID_LEN {
        Err(RequestIdError::TooLong)
    } else {
        Ok(id)
    }
}

/// The id under which a call runs: the one given, or a random one. `headers`
/// are the idempotency headers by precedence: the first one there counts.
pub fn http_request_id(headers: &[Option<&str>], body: Option<&str>) -> (r: Result<
    String,
    RequestIdError,
>)
    ensures
        match given_request_id(scan::shown_str(body), first_given(headers@)) {
            Ok(Some(id)) => r matches Ok(text) && text@ == id,
            Ok(None) => r matches Ok(text) && ids::random_id_text(text@),
            Err(e) => r == Err::<String, RequestIdError>(e),
        },
{
    let mut header: Option<&str> = None;
    let mut i: usize = 0;
    assert(headers@.skip(0) =~= headers@);
    while i < headers.len() && header.is_none()
        invariant
            i <= headers@.len(),
            match header {
                Some(value) => first_given(headers@) == Some(value@),
                None => first_given(headers@) == first_given(headers@.skip(i as int)),
            },
        decreases headers@.len() - i,
    {
        assert(headers@.skip(i as int).drop_first() =~= headers@.skip(i + 1));
        header = headers[i];
        i = i + 1;
    }
    match (scan::non_empty(body), scan::non_empty(header)) {
        (Some(b), Some(h)) => {
            if b == h {
                bounded(b)
            } else {
                Err(RequestIdError::Disagree)
            }
        },
        (Some(b), None) => bounded(b),
        (None, Some(h)) => bounded(h),
        (None, None) => Ok(random_id()),
    }
}

/// How long a caller asks to wait: what the body says, else what the query
/// parameter `wait_ms` says if it is a number.
pub fn asked_wait(query: Option<&str>, body: Option<u64>) -> (r: Option<u64>)
    ensures
        match (body, query) {
            (Some(ms), _) => r == Some(ms),
            (None, Some(text)) => match scan::number(text@, u64::MAX as nat) {
                Some(n) => r matches Some(ms) && ms == n,
                None => r is None,
            },
            (None, None) => r is None,
        },
{
    match (body, query) {
        (Some(ms), _) => Some(ms),
        (None, Some(text)) => parse_number(text, u64::MAX),
        (None, None) => None,
    }
}

/// How long a call is given for its reply, in milliseconds.
pub fn reply_window(wait_ms: Option<u64>) -> (r: u64)
    ensures
        r == match wait_ms {
            Some(ms) => if ms == 0 {
                SHORTEST_WAIT_MS
            } else {
                ms
            },
            None => SHORTEST_WAIT_MS,
        },
        r > 0,
{
    match wait_ms {
        Some(ms) => if ms == 0 {
            SHORTEST_WAIT_MS
        } else {
            ms
        },
        None => SHORTEST_WAIT_MS,
    }
}

/// Whether a reply settles a call.
pub open spec fn definitive(r: ResponseModel) -> bool {
    match r {
        ResponseModel::Lock { acquired, .. } => acquired,
        ResponseModel::CompositeLock { acquired, .. } => acquired,
        ResponseModel::RegisterReadResult { granted, .. } => granted,
        ResponseModel::RegisterWriteResult { granted, .. } => granted,
        ResponseModel::Unlock { .. } => true,
        ResponseModel::EndReadResult { .. } => true,
        ResponseModel::EndWriteResult { .. } => true,
        ResponseModel::LockInfo { .. } => true,
        ResponseModel::LsResult { .. } => true,
        ResponseModel::Error { .. } => true,
        _ => false,
    }
}

fn is_definitive(r: &Response) -> (b: bool)
    ensures
        b == definitive(r@),
{
    match r {
        Response::Lock { acquired, .. } => *acquired,
        Response::CompositeLock { acquired, .. } => *acquired,
        Response::RegisterReadResult { granted, .. } => *granted,
        Response::RegisterWriteResult { granted, .. } => *granted,
        Response::Unlock { .. } => true,
        Response::EndReadResult { .. } => true,
        Response::EndWriteResult { .. } => true,
        Response::LockInfo { .. } => true,
        Response::LsResult { .. } => true,
        Response::Error { .. } => true,
        _ => false,
    }
}

/// What an optional response shows.
pub open spec fn shown_response(r: Option<Response>) -> Option<ResponseModel> {
    match r {
        Some(response) => Some(response@),
        None => None,
    }
}

/// Whether `msg` ends the wait for the reply to `uuid`.
pub open spec fn ends_wait(uuid: Seq<char>, keep_polling: bool, msg: ResponseModel) -> bool {
    msg.correlation() == uuid && (definitive(msg) || !keep_polling)
}

/// What the wait for the reply to `uuid` comes to when `msgs` arrive and then
/// nothing more: the first message that ends it, else the last one that
/// belongs to the call.
pub open spec fn awaited(uuid: Seq<char>, keep_polling: bool, msgs: Seq<ResponseModel>) -> Option<
    ResponseModel,
>
    decreases msgs.len(),
{
    if msgs.len() == 0 {
        None
    } else {
        let before = awaited(uuid, keep_polling, msgs.drop_last());
        let settled = match before {
            Some(m) => ends_wait(uuid, keep_polling, m),
            None => false,
        };
        if settled || msgs.last().correlation() != uuid {
            before
        } else {
            Some(msgs.last())
        }
    }
}

/// The wait for the reply to one call.
pub struct PendingReply {
    pub request_uuid: String,
    pub keep_polling: bool,
    pub last_match: Option<Response>,
}

impl PendingReply {
    /// A wait that has seen nothing yet.
    pub fn new(request_uuid: String, keep_polling: bool) -> (r: Self)
        ensures
            r.request_uuid == request_uuid,
            r.keep_polling == keep_polling,
            r.last_match is None,
    {
        PendingReply { request_uuid, keep_polling, last_match: None }
    }

    /// Takes in one message. Tells whether the wait is over.
    pub fn wait_for(&mut self, msg: Response) -> (r: bool)
        ensures
            final(self).request_uuid == old(self).request_uuid,
            final(self).keep_polling == old(self).keep_polling,
            r == ends_wait(old(self).request_uuid@, old(self).keep_polling, msg@),
            shown_response(final(self).last_match) == if msg@.correlation() == old(
                self,
            ).request_uuid@ {
                Some(msg@)
            } else {
                shown_response(old(self).last_match)
            },
            forall|seen: Seq<ResponseModel>|
                shown_response(old(self).last_match) == #[trigger] awaited(
                    old(self).request_uuid@,
                    old(self).keep_polling,
                    seen,
                ) && !(old(self).last_match matches Some(m) && ends_wait(
                    old(self).request_uuid@,
                    old(self).keep_polling,
                    m@,
                )) ==> shown_response(final(self).last_match) == awaited(
                    old(self).request_uuid@,
                    old(self).keep_polling,
                    seen.push(msg@),
                ),
    {
        proof {
            assert forall|seen: Seq<ResponseModel>| seen.push(msg@).drop_last() == seen by {
                assert(seen.push(msg@).drop_last() =~= seen);
            }
        }
        if !same_text(msg.correlation_uuid(), self.request_uuid.as_str()) {
            return false;
        }
        let done = is_definitive(&msg) || !self.keep_polling;
        self.last_match = Some(msg);
        done
    }
}

/// The lock id that a response grants.
pub open spec fn granted_uuid(r: ResponseModel) -> Option<Seq<char>> {
    match r {
        ResponseModel::Lock { acquired: true, lock_uuid: Some(u), .. } => Some(u),
        ResponseModel::CompositeLock { acquired: true, lock_uuid: Some(u), .. } => Some(u),
        ResponseModel::RegisterReadResult { granted: true, lock_uuid: Some(u), .. } => Some(u),
        ResponseModel::RegisterWriteResult { granted: true, lock_uuid: Some(u), .. } => Some(u),
        _ => None,
    }
}

fn granted_lock(r: &Response) -> (id: Option<String>)
    ensures
        protocol::shown_text(id) == granted_uuid(r@),
{
    match r {
        Response::Lock { acquired: true, lock_uuid: Some(u), .. } => Some(u.clone()),
        Response::CompositeLock { acquired: true, lock_uuid: Some(u), .. } => Some(u.clone()),
        Response::RegisterReadResult { granted: true, lock_uuid: Some(u), .. } => Some(u.clone()),
        Response::RegisterWriteResult { granted: true, lock_uuid: Some(u), .. } => Some(u.clone()),
        _ => None,
    }
}

/// Begins a call: an ephemeral client makes the request.
pub fn begin_ephemeral(broker: &mut Broker, request: Request) -> (r: ClientId)
    requires
        old(broker)@.clients.len() < u64::MAX,
    ensures
        r == old(broker)@.next_free_client(old(broker)@.next_client_id),
        final(broker).start() == old(broker).start(),
        clock::is_span(final(broker).clock().now),
        model::continues(old(broker).minted(), final(broker).minted()),
        forall|tape: Tape|
            #[trigger] model::reads(tape, final(broker).minted()) ==> (
                final(broker)@,
                final(broker).next_token(),
            ) == hardened_broker::admitted(
                old(broker)@.registered(old(broker)@.next_client_id),
                old(broker).next_token(),
                r,
                request,
                (GrantOverrides { lock_uuid: None, fencing_seed: None }),
                final(broker).clock(),
                tape,
            ),
{
    let client = broker.register_client();
    broker.handle_request(client, request);
    client
}

/// What the end of a call leaves: a granted lock outlives the ephemeral client,
/// everything else of the client goes.
pub open spec fn ephemeral_ended(
    b: BrokerModel,
    client: ClientId,
    outcome: Option<ResponseModel>,
) -> BrokerModel {
    match outcome {
        Some(response) => match granted_uuid(response) {
            Some(id) => b.holder_untracked(client, id),
            None => b,
        },
        None => b,
    }
}

/// Ends a call: the ephemeral client leaves, but not the lock that it was
/// granted.
pub fn end_ephemeral(broker: &mut Broker, client: ClientId, outcome: Option<&Response>)
    ensures
        final(broker).next_token() == old(broker).next_token(),
        final(broker).start() == old(broker).start(),
        clock::is_span(final(broker).clock().now),
        model::continues(old(broker).minted(), final(broker).minted()),
        forall|tape: Tape|
            #[trigger] model::reads(tape, final(broker).minted()) ==> final(broker)@
                == ephemeral_ended(
                old(broker)@,
                client,
                match outcome {
                    Some(response) => Some(response@),
                    None => None,
                },
            ).client_dropped(client, final(broker).clock(), tape),
{
    if let Some(response) = outcome {
        if let Some(id) = granted_lock(response) {
            broker.detach_lock_from_client(client, id.as_str());
        }
    }
    broker.drop_client(client);
}

/// The lock request of an HTTP caller. It is queued under contention; how long
/// the caller waits is up to the transport.
pub fn acquire_request(uuid: String, req: &AcquireRequest) -> (r: Request)
    ensures
        r matches Request::Lock { uuid: id, key, keys, pid: None, ttl, max, force: false,
            retry_count: 0, keep_locks_after_death: false, wait: None } && {
            &&& id == uuid
            &&& key == req.key
            &&& shown_list(keys) == shown_list(req.keys)
            &&& ttl == req.ttl_ms
            &&& max == req.max
        },
{
    Request::Lock {
        uuid,
        key: req.key.clone(),
        keys: copied_list(&req.keys),
        pid: None,
        ttl: req.ttl_ms,
        max: req.max,
        force: false,
        retry_count: 0,
        keep_locks_after_death: false,
        wait: None,
    }
}

/// What an optional list of texts shows.
pub open spec fn shown_list(o: Option<Vec<String>>) -> Option<Seq<Seq<char>>> {
    match o {
        Some(list) => Some(ordered_map::views(list@)),
        None => None,
    }
}

fn copied_list(o: &Option<Vec<String>>) -> (r: Option<Vec<String>>)
    ensures
        shown_list(r) == shown_list(*o),
{
    match o {
        Some(list) => {
            let copy = list.clone();
            assert(copy@ =~= list@);
            Some(copy)
        },
        None => None,
    }
}

/// The release request of an HTTP caller.
pub fn release_request(uuid: String, req: &ReleaseRequest) -> (r: Request)
    ensures
        r matches Request::Unlock { uuid: id, key, keys, lock_uuid, force } && {
            &&& id == uuid
            &&& key == req.key
            &&& shown_list(keys) == shown_list(req.keys)
            &&& lock_uuid == req.lock_uuid
            &&& force == req.force
        },
{
    Request::Unlock {
        uuid,
        key: req.key.clone(),
        keys: copied_list(&req.keys),
        lock_uuid: req.lock_uuid.clone(),
        force: req.force,
    }
}

/// What an HTTP caller is told: a body, or a fault with what is said of it.
pub enum HttpReply<T> {
    Body { status: u16, body: T },
    Fault { status: u16, error: Option<String> },
}

/// What a reply to a lock request holds.
#[verifier::ext_equal]
pub struct AcquireModel {
    pub acquired: bool,
    pub keys: Seq<Seq<char>>,
    pub lock_uuid: Option<Seq<char>>,
    pub fencing_tokens: Map<Seq<char>, u64>,
    pub queue_depth: usize,
    pub error: Option<Seq<char>>,
}

impl View for AcquireResponse {
    type V = AcquireModel;

    open spec fn view(&self) -> AcquireModel {
        AcquireModel {
            acquired: self.acquired,
            keys: ordered_map::views(self.keys@),
            lock_uuid: protocol::shown_text(self.lock_uuid),
            fencing_tokens: self.fencing_tokens@,
            queue_depth: self.queue_depth,
            error: protocol::shown_text(self.error),
        }
    }
}

/// The keys that a lock request names.
pub open spec fn asked_keys(key: Option<Seq<char>>, keys: Option<Seq<Seq<char>>>) -> Seq<Seq<char>> {
    match (keys, key) {
        (Some(list), _) => list,
        (None, Some(k)) => seq![k],
        (None, None) => seq![],
    }
}

/// What a caller is told of a lock request.
pub enum AcquireTold {
    Body { status: u16, body: AcquireModel },
    Fault { status: u16, error: Seq<char> },
}

/// The status of a reply to a lock request: a refusal with a reason is a bad
/// request.
pub open spec fn acquire_status(body: AcquireModel) -> u16 {
    if !body.acquired && body.error is Some {
        400
    } else {
        200
    }
}

/// What a caller is told of a lock request that came to `outcome`.
pub open spec fn acquire_told(
    outcome: Option<ResponseModel>,
    key: Option<Seq<char>>,
    keys: Option<Seq<Seq<char>>>,
) -> AcquireTold {
    match outcome {
        Some(
            ResponseModel::Lock {
                acquired,
                key,
                lock_uuid,
                fencing_token,
                lock_request_count,
                error,
                ..
            },
        ) => {
            let body = AcquireModel {
                acquired,
                keys: seq![key],
                lock_uuid,
                fencing_tokens: match fencing_token {
                    Some(t) => Map::empty().insert(key, t),
                    None => Map::empty(),
                },
                queue_depth: lock_request_count,
                error,
            };
            AcquireTold::Body { status: acquire_status(body), body }
        },
        Some(
            ResponseModel::CompositeLock { acquired, keys, lock_uuid, fencing_tokens, error, .. },
        ) => {
            let body = AcquireModel {
                acquired,
                keys,
                lock_uuid,
                fencing_tokens: match fencing_tokens {
                    Some(tokens) => tokens,
                    None => Map::empty(),
                },
                queue_depth: 0,
                error,
            };
            AcquireTold::Body { status: acquire_status(body), body }
        },
        Some(ResponseModel::Error { error, .. }) => AcquireTold::Fault { status: 400, error },
        _ => AcquireTold::Body {
            status: 200,
            body: AcquireModel {
                acquired: false,
                keys: asked_keys(key, keys),
                lock_uuid: None,
                fencing_tokens: Map::empty(),
                queue_depth: 0,
                error: None,
            },
        },
    }
}

/// Whether `r` tells what `told` says.
pub open spec fn tells_acquire(r: HttpReply<AcquireResponse>, told: AcquireTold) -> bool {
    match told {
        AcquireTold::Body { status, body } => r matches HttpReply::Body { status: s, body: b }
            && s == status && b@ == body,
        AcquireTold::Fault { status, error } => r matches HttpReply::Fault {
            status: s,
            error: Some(e),
        } && s == status && e@ == error,
    }
}

fn acquire_body(body: AcquireResponse) -> (r: HttpReply<AcquireResponse>)
    ensures
        r matches HttpReply::Body { status, body: b } && b == body && status == acquire_status(
            body@,
        ),
{
    let refused = !body.acquired && body.error.is_some();
    HttpReply::Body {
        status: if refused {
            400
        } else {
            200
        },
        body,
    }
}

/// What a caller is told of a lock request that came to `outcome`.
pub fn acquire_reply(outcome: Option<Response>, req: &AcquireRequest) -> (r: HttpReply<
    AcquireResponse,
>)
    ensures
        tells_acquire(
            r,
            acquire_told(
                shown_response(outcome),
                protocol::shown_text(req.key),
                shown_list(req.keys),
            ),
        ),
{
    match outcome {
        Some(
            Response::Lock {
                acquired,
                key,
                lock_uuid,
                fencing_token,
                lock_request_count,
                error,
                ..
            },
        ) => {
            let ghost name = key@;
            let mut tokens: TokenMap = OrderedMap::new();
            if let Some(t) = fencing_token {
                tokens.insert(key.clone(), t);
            }
            let mut keys: Vec<String> = Vec::new();
            keys.push(key);
            assert(ordered_map::views(keys@) =~= seq![name]);
            acquire_body(
                AcquireResponse {
                    acquired,
                    keys,
                    lock_uuid,
                    fencing_tokens: tokens,
                    queue_depth: lock_request_count,
                    error,
                },
            )
        },
        Some(Response::CompositeLock { acquired, keys, lock_uuid, fencing_tokens, error, .. }) => {
            let tokens: TokenMap = match fencing_tokens {
                Some(tokens) => tokens,
                None => OrderedMap::new(),
            };
            acquire_body(
                AcquireResponse {
                    acquired,
                    keys,
                    lock_uuid,
                    fencing_tokens: tokens,
                    queue_depth: 0,
                    error,
                },
            )
        },
        Some(Response::Error { error, .. }) => HttpReply::Fault { status: 400, error: Some(error) },
        _ => {
            let keys: Vec<String> = match copied_list(&req.keys) {
                Some(list) => list,
                None => match &req.key {
                    Some(k) => {
                        let mut one: Vec<String> = Vec::new();
                        one.push(k.clone());
                        assert(ordered_map::views(one@) =~= seq![k@]);
                        one
                    },
                    None => {
                        let none: Vec<String> = Vec::new();
                        assert(ordered_map::views(none@) =~= seq![]);
                        none
                    },
                },
            };
            HttpReply::Body {
                status: 200,
                body: AcquireResponse {
                    acquired: false,
                    keys,
                    lock_uuid: None,
                    fencing_tokens: OrderedMap::new(),
                    queue_depth: 0,
                    error: None,
                },
            }
        },
    }
}

/// What a caller is told of a release that came to `outcome`.
pub fn release_reply(outcome: Option<Response>) -> (r: HttpReply<ReleaseResponse>)
    ensures
        match shown_response(outcome) {
            Some(ResponseModel::Unlock { keys, unlocked, .. }) => r matches HttpReply::Body {
                status: 200,
                body,
            } && body.unlocked == unlocked && ordered_map::views(body.keys@) == keys,
            Some(ResponseModel::Error { error, .. }) => r matches HttpReply::Fault {
                status: 400,
                error: Some(e),
            } && e@ == error,
            _ => r matches HttpReply::Fault { status: 503, error: Some(e) } && e@
                == "broker timed out"@,
        },
{
    match outcome {
        Some(Response::Unlock { keys, unlocked, .. }) => HttpReply::Body {
            status: 200,
            body: ReleaseResponse { unlocked, keys },
        },
        Some(Response::Error { error, .. }) => HttpReply::Fault { status: 400, error: Some(error) },
        _ => HttpReply::Fault { status: 503, error: Some(String::from_str("broker timed out")) },
    }
}

/// Why a replicated broker does not answer.
#[derive(Debug, Clone)]
pub enum RaftFailure {
    /// Another node leads, or none.
    NotLeader { leader_id: Option<String>, leader_addr: Option<String> },
    /// The request id was used before with another payload.
    IdempotencyKeyConflict { request_id: String },
    /// Requests of this kind are not served.
    UnsupportedClientRequest(String),
    /// The configuration asked for is not acceptable.
    InvalidConfig(String),
    /// Anything else, in words.
    Other(String),
}

/// Status and error text for a replicated broker that does not answer.
pub open spec fn unavailable(failure: RaftFailure) -> (u16, Seq<char>) {
    match failure {
        RaftFailure::NotLeader { .. } => (503, "raft leader unavailable"@),
        RaftFailure::IdempotencyKeyConflict { .. } => (
            409,
            "request id reused with different payload"@,
        ),
        RaftFailure::UnsupportedClientRequest(error) => (400, error@),
        RaftFailure::InvalidConfig(error) => (503, error@),
        RaftFailure::Other(error) => (503, error@),
    }
}

/// What a caller of a replicated broker that does not answer is told.
#[derive(Debug, Clone)]
pub struct RaftRefusal {
    pub status: u16,
    pub error: String,
    /// Id and address of the leader as far as they are known, if another node
    /// is to be asked.
    pub leader: Option<(Option<String>, Option<String>)>,
    /// The request id that was used before.
    pub request_id: Option<String>,
}

/// Whether `r` tells of `failure` under `status` and `error`.
pub open spec fn tells_failure(
    r: RaftRefusal,
    failure: RaftFailure,
    status: u16,
    error: Seq<char>,
) -> bool {
    &&& r.status == status
    &&& r.error@ == error
    &&& r.leader == match failure {
        RaftFailure::NotLeader { leader_id, leader_addr } => Some((leader_id, leader_addr)),
        _ => None,
    }
    &&& r.request_id == match failure {
        RaftFailure::IdempotencyKeyConflict { request_id } => Some(request_id),
        _ => None,
    }
}

/// What is said of a replicated broker that does not answer.
pub fn raft_unavailable(failure: RaftFailure) -> (r: RaftRefusal)
    ensures
        tells_failure(r, failure, unavailable(failure).0, unavailable(failure).1),
{
    match failure {
        RaftFailure::NotLeader { leader_id, leader_addr } => RaftRefusal {
            status: 503,
            error: String::from_str("raft leader unavailable"),
            leader: Some((leader_id, leader_addr)),
            request_id: None,
        },
        RaftFailure::IdempotencyKeyConflict { request_id } => RaftRefusal {
            status: 409,
            error: String::from_str("request id reused with different payload"),
            leader: None,
            request_id: Some(request_id),
        },
        RaftFailure::UnsupportedClientRequest(error) => RaftRefusal {
            status: 400,
            error,
            leader: None,
            request_id: None,
        },
        RaftFailure::InvalidConfig(error) => RaftRefusal {
            status: 503,
            error,
            leader: None,
            request_id: None,
        },
        RaftFailure::Other(error) => RaftRefusal {
            status: 503,
            error,
            leader: None,
            request_id: None,
        },
    }
}

/// What is said of a change of the cluster that is refused: a configuration
/// that is not acceptable is a bad request.
pub fn raft_change_refused(failure: RaftFailure) -> (r: RaftRefusal)
    ensures
        match failure {
            RaftFailure::InvalidConfig(error) => tells_failure(r, failure, 400, error@),
            _ => tells_failure(r, failure, unavailable(failure).0, unavailable(failure).1),
        },
{
    match failure {
        RaftFailure::InvalidConfig(error) => RaftRefusal {
            status: 400,
            error,
            leader: None,
            request_id: None,
        },
        other => raft_unavailable(other),
    }
}

/// The status under which a node tells of its leadership: a node that is no
/// leader, or not ready yet, is unavailable.
pub fn raft_leader_status(is_leader_ready: bool) -> (r: u16)
    ensures
        r == if is_leader_ready {
            200u16
        } else {
            503u16
        },
{
    if is_leader_ready {
        200
    } else {
        503
    }
}

/// The places of the staged learners among the peers, given which are staged.
pub fn raft_staged_learners(staged: &[bool]) -> (r: Vec<usize>)
    ensures
        forall|j: int| 0 <= j < r@.len() ==> (#[trigger] r@[j]) < staged@.len() && staged@[r@[j] as int],
        forall|i: int, j: int| 0 <= i < j < r@.len() ==> r@[i] < r@[j],
        forall|i: int| 0 <= i < staged@.len() && #[trigger] staged@[i] ==> r@.contains(i as usize),
{
    let mut r: Vec<usize> = Vec::new();
    let mut i: usize = 0;
    while i < staged.len()
        invariant
            i <= staged@.len(),
            forall|j: int| 0 <= j < r@.len() ==> (#[trigger] r@[j]) < i && staged@[r@[j] as int],
            forall|a: int, b: int| 0 <= a < b < r@.len() ==> r@[a] < r@[b],
            forall|k: int| 0 <= k < i && #[trigger] staged@[k] ==> r@.contains(k as usize),
        decreases staged@.len() - i,
    {
        let ghost before = r@;
        if staged[i] {
            r.push(i);
            assert(r@[before.len() as int] == i);
            assert forall|k: int| 0 <= k < i && #[trigger] staged@[k] implies r@.contains(
                k as usize,
            ) by {
                let j = choose|j: int| 0 <= j < before.len() && before[j] == k as usize;
                assert(r@[j] == k as usize);
            }
        }
        i = i + 1;
    }
    r
}

/// What a caller of a replicated broker is told: what a single broker would
/// say, or that there is no answer.
pub enum RaftReply<T> {
    Told(HttpReply<T>),
    Refused(RaftRefusal),
}

/// Whether `r` tells of a failure: requests of a kind that is not served are
/// bad requests, everything else goes without an answer.
pub open spec fn fails<T>(r: RaftReply<T>, failure: RaftFailure) -> bool {
    match failure {
        RaftFailure::UnsupportedClientRequest(error) => r matches RaftReply::Told(
            HttpReply::Fault { status: 400, error: Some(e) },
        ) && e == error,
        _ => r matches RaftReply::Refused(refusal) && tells_failure(
            refusal,
            failure,
            unavailable(failure).0,
            unavailable(failure).1,
        ),
    }
}

fn failed<T>(failure: RaftFailure) -> (r: RaftReply<T>)
    ensures
        fails(r, failure),
{
    match failure {
        RaftFailure::UnsupportedClientRequest(error) => RaftReply::Told(
            HttpReply::Fault { status: 400, error: Some(error) },
        ),
        other => RaftReply::Refused(raft_unavailable(other)),
    }
}

/// What a caller of a replicated broker is told of a lock request.
pub fn raft_acquire_reply(
    outcome: Result<Option<Response>, RaftFailure>,
    req: &AcquireRequest,
) -> (r: RaftReply<AcquireResponse>)
    ensures
        match outcome {
            Ok(answer) => r matches RaftReply::Told(reply) && tells_acquire(
                reply,
                acquire_told(
                    shown_response(answer),
                    protocol::shown_text(req.key),
                    shown_list(req.keys),
                ),
            ),
            Err(failure) => fails(r, failure),
        },
{
    match outcome {
        Ok(answer) => RaftReply::Told(acquire_reply(answer, req)),
        Err(failure) => failed(failure),
    }
}

/// What a caller of a replicated broker is told of a release.
pub fn raft_release_reply(outcome: Result<Option<Response>, RaftFailure>) -> (r: RaftReply<
    ReleaseResponse,
>)
    ensures
        match outcome {
            Ok(answer) => r matches RaftReply::Told(reply) && match shown_response(answer) {
                Some(ResponseModel::Unlock { keys, unlocked, .. }) => reply matches HttpReply::Body {
                    status: 200,
                    body,
                } && body.unlocked == unlocked && ordered_map::views(body.keys@) == keys,
                Some(ResponseModel::Error { error, .. }) => reply matches HttpReply::Fault {
                    status: 400,
                    error: Some(e),
                } && e@ == error,
                _ => reply matches HttpReply::Fault { status: 503, error: Some(e) } && e@
                    == "broker timed out"@,
            },
            Err(failure) => fails(r, failure),
        },
{
    match outcome {
        Ok(answer) => RaftReply::Told(release_reply(answer)),
        Err(failure) => failed(failure),
    }
}

/// What a reader or writer is told: the result of the kind asked for, else that
/// nothing is granted.
pub fn rw_acquire_reply(is_read: bool, outcome: Option<Response>, asked: String) -> (r:
    RwAcquireResponse)
    ensures
        match shown_response(outcome) {
            Some(
                ResponseModel::RegisterReadResult {
                    granted,
                    key,
                    readers_count,
                    writer_flag,
                    lock_uuid,
                    fencing_token,
                    ..
                },
            ) if is_read => {
                &&& r.granted == granted
                &&& r.key@ == key
                &&& r.readers_count == readers_count
                &&& r.writer_flag == writer_flag
                &&& protocol::shown_text(r.lock_uuid) == lock_uuid
                &&& r.fencing_token == fencing_token
            },
            Some(
                ResponseModel::RegisterWriteResult {
                    granted,
                    key,
                    readers_count,
                    writer_flag,
                    lock_uuid,
                    fencing_token,
                    ..
                },
            ) if !is_read => {
                &&& r.granted == granted
                &&& r.key@ == key
                &&& r.readers_count == readers_count
                &&& r.writer_flag == writer_flag
                &&& protocol::shown_text(r.lock_uuid) == lock_uuid
                &&& r.fencing_token == fencing_token
            },
            _ => {
                &&& !r.granted
                &&& r.key == asked
                &&& r.readers_count == 0
                &&& !r.writer_flag
                &&& r.lock_uuid is None
                &&& r.fencing_token is None
            },
        },
{
    match outcome {
        Some(
            Response::RegisterReadResult {
                granted,
                key,
                readers_count,
                writer_flag,
                lock_uuid,
                fencing_token,
                ..
            },
        ) if is_read => RwAcquireResponse {
            granted,
            key,
            readers_count,
            writer_flag,
            lock_uuid,
            fencing_token,
        },
        Some(
            Response::RegisterWriteResult {
                granted,
                key,
                readers_count,
                writer_flag,
                lock_uuid,
                fencing_token,
                ..
            },
        ) if !is_read => RwAcquireResponse {
            granted,
            key,
            readers_count,
            writer_flag,
            lock_uuid,
            fencing_token,
        },
        _ => RwAcquireResponse {
            granted: false,
            key: asked,
            readers_count: 0,
            writer_flag: false,
            lock_uuid: None,
            fencing_token: None,
        },
    }
}

/// What the holder of a read or write lock is told of its release.
pub fn rw_release_reply(outcome: Option<Response>, asked: String) -> (r: HttpReply<
    RwReleaseResponse,
>)
    ensures
        if shown_response(outcome) matches Some(ResponseModel::Unlock { unlocked: true, .. }) {
            r matches HttpReply::Body { status: 200, body } && body.key == asked
                && body.readers_count == 0 && !body.writer_flag
        } else {
            r matches HttpReply::Fault { status: 400, error: None }
        },
{
    match outcome {
        Some(Response::Unlock { unlocked: true, .. }) => HttpReply::Body {
            status: 200,
            body: RwReleaseResponse { key: asked, readers_count: 0, writer_flag: false },
        },
        _ => HttpReply::Fault { status: 400, error: None },
    }
}

/// What a caller is told of one key.
pub fn lock_info_reply(outcome: Option<Response>, asked: String) -> (r: HttpReply<
    LockInfoResponse,
>)
    ensures
        match shown_response(outcome) {
            Some(
                ResponseModel::LockInfo {
                    is_locked,
                    lockholder_uuids,
                    lock_request_count,
                    readers_count,
                    writer_flag,
                    ..
                },
            ) => r matches HttpReply::Body { status: 200, body } && {
                &&& body.key == asked
                &&& body.is_locked == is_locked
                &&& ordered_map::views(body.lockholder_uuids@) == lockholder_uuids
                &&& body.lock_request_count == lock_request_count
                &&& body.readers_count == readers_count
                &&& body.writer_flag == writer_flag
            },
            _ => r matches HttpReply::Fault { status: 503, error: Some(e) } && e@
                == "broker did not respond"@,
        },
{
    match outcome {
        Some(
            Response::LockInfo {
                is_locked,
                lockholder_uuids,
                lock_request_count,
                readers_count,
                writer_flag,
                ..
            },
        ) => HttpReply::Body {
            status: 200,
            body: LockInfoResponse {
                key: asked,
                is_locked,
                lockholder_uuids,
                lock_request_count,
                readers_count,
                writer_flag,
            },
        },
        _ => HttpReply::Fault {
            status: 503,
            error: Some(String::from_str("broker did not respond")),
        },
    }
}

/// What a caller is told of all keys.
pub fn ls_reply(outcome: Option<Response>) -> (r: HttpReply<Vec<String>>)
    ensures
        match shown_response(outcome) {
            Some(ResponseModel::LsResult { keys, .. }) => r matches HttpReply::Body {
                status: 200,
                body,
            } && ordered_map::views(body@) == keys,
            _ => r matches HttpReply::Fault { status: 503, error: Some(e) } && e@
                == "broker did not respond"@,
        },
{
    match outcome {
        Some(Response::LsResult { keys, .. }) => HttpReply::Body { status: 200, body: keys },
        _ => HttpReply::Fault {
            status: 503,
            error: Some(String::from_str("broker did not respond")),
        },
    }
}

} // verus!
