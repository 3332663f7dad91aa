//! Wire protocol: the values that clients and broker exchange.
//!
//! TCP and Unix-domain-socket clients exchange newline-delimited JSON with the
//! broker, one object per frame. The HTTP surface uses the same values but is
//! request/response oriented, with optional long-poll for queued acquisitions.
//!
//! Each request carries a client-generated `uuid`; the broker echoes it on the
//! matching response. Lock-acquired responses hold a distinct `lock_uuid` plus
//! a monotonically increasing per-key `fencing_token`.

pub mod http;

use crate::ordered_map;
use crate::ordered_map::OrderedMap;
use crate::scan;
use crate::text::join5;
use vstd::prelude::*;
use vstd::string::StringExecFns;

verus! {

pub const PROTOCOL_VERSION: &'static str = "0.1.0";

pub const MAX_COMPOSITE_KEYS: usize = 5;

/// Hard ceiling on the per-key concurrency level. A per-request `max` above
/// the cap is lowered to it and counted.
pub const DEFAULT_MAX_CONCURRENCY_CAP: u32 = 1_000;

/// Fencing tokens by key.
pub type TokenMap = OrderedMap<String, u64>;

/// The major part of a version: what comes before the first dot.
pub open spec fn major(version: Seq<char>) -> Seq<char>
    decreases version.len(),
{
    if version.len() == 0 || version[0] == '.' {
        Seq::empty()
    } else {
        seq![version[0]] + major(version.drop_first())
    }
}

/// The major part of a version: what comes before the first dot.
pub fn major_of(version: &str) -> (r: String)
    ensures
        r@ == major(version@),
{
    let chars = scan::chars_of(version);
    let mut r = String::new();
    let mut i: usize = 0;
    assert(version@.skip(0) =~= version@);
    assert(r@ + major(version@) =~= major(version@));
    while i < chars.len() && chars[i] != '.'
        invariant
            chars@ == version@,
            i <= chars@.len(),
            r@ + major(version@.skip(i as int)) == major(version@),
        decreases chars@.len() - i,
    {
        let ghost rest = version@.skip(i as int);
        let ghost before = r@;
        r.push(chars[i]);
        proof {
            assert(rest[0] == version@[i as int]);
            assert(rest.drop_first() =~= version@.skip(i + 1));
            assert(r@ + major(version@.skip(i + 1)) =~= before + major(rest));
        }
        i = i + 1;
    }
    assert(major(version@.skip(i as int)).len() == 0);
    assert(r@ =~= major(version@));
    r
}

/// Whether the broker speaks the protocol of a client of this version: their
/// major parts agree.
pub open spec fn speaks(version: Seq<char>) -> bool {
    major(version) == major(PROTOCOL_VERSION@)
}

/// What a client of another major version is told.
pub open spec fn version_refusal(version: Seq<char>) -> Seq<char> {
    "protocol version `"@ + version + "` disagrees with the broker's `"@ + PROTOCOL_VERSION@ + "`"@
}

/// The broker's answer to the protocol handshake.
pub fn version_reply(uuid: String, version: &str) -> (r: Response)
    ensures
        r@ == (ResponseModel::Version {
            uuid: uuid@,
            broker_version: PROTOCOL_VERSION@,
            ok: speaks(version@),
            error: if speaks(version@) {
                None
            } else {
                Some(version_refusal(version@))
            },
        }),
{
    let ok = scan::same_text(major_of(version).as_str(), major_of(PROTOCOL_VERSION).as_str());
    let error = if ok {
        None
    } else {
        Some(
            join5(
                "protocol version `",
                version,
                "` disagrees with the broker's `",
                PROTOCOL_VERSION,
                "`",
            ),
        )
    };
    Response::Version { uuid, broker_version: String::from_str(PROTOCOL_VERSION), ok, error }
}

/// Client to broker.
#[allow(inconsistent_fields)]
#[derive(Debug, Clone)]
pub enum Request {
    /// Initial protocol handshake. The broker rejects clients whose major
    /// version disagrees.
    Version { uuid: String, value: String },
    /// Auth handshake when a token is configured.
    Auth { uuid: String, token: String },
    /// Acquire an exclusive lock on a single `key`, or a composite lock on up
    /// to `MAX_COMPOSITE_KEYS` keys via `keys` (mutually exclusive with `key`).
    /// With `wait` absent or true the request is queued under contention; with
    /// `wait` false it fails fast and is never queued.
    Lock {
        uuid: String,
        key: Option<String>,
        keys: Option<Vec<String>>,
        pid: Option<i64>,
        ttl: Option<u64>,
        max: Option<u32>,
        force: bool,
        retry_count: u32,
        keep_locks_after_death: bool,
        wait: Option<bool>,
    },
    /// Release a held lock. `lock_uuid` must match the one returned by the
    /// broker on acquisition (or `force` must be true).
    Unlock {
        uuid: String,
        key: Option<String>,
        keys: Option<Vec<String>>,
        lock_uuid: Option<String>,
        force: bool,
    },
    /// Register a reader, blocking until any active writer is done.
    RegisterRead { uuid: String, key: String },
    /// Register a writer, blocking until readers and other writers are gone.
    RegisterWrite { uuid: String, key: String },
    /// End a read.
    EndRead { uuid: String, key: String },
    /// End a write.
    EndWrite { uuid: String, key: String },
    /// Inspect one key.
    LockInfo { uuid: String, key: String },
    /// List all known lock keys.
    Ls { uuid: String },
    /// Heartbeat for HTTP long-poll continuation.
    Heartbeat { uuid: String },
}

/// Broker to client.
#[allow(inconsistent_fields)]
#[derive(Debug, Clone)]
pub enum Response {
    Version { uuid: String, broker_version: String, ok: bool, error: Option<String> },
    Auth { uuid: String, ok: bool, error: Option<String> },
    /// Single-key lock result.
    Lock { uuid: String, key: String, acquired: bool, lock_request_count: usize, lock_uuid: Option<String>, fencing_token: Option<u64>, readers_count: Option<u32>, error: Option<String> },
    /// Composite (multi-key) lock result. `acquired` means that every key was
    /// granted; `lock_uuid` is the single token that releases all of them.
    CompositeLock { uuid: String, keys: Vec<String>, acquired: bool, lock_uuid: Option<String>, fencing_tokens: Option<TokenMap>, error: Option<String> },
    Unlock { uuid: String, keys: Vec<String>, unlocked: bool, lock_request_count: usize, error: Option<String> },
    RegisterReadResult { uuid: String, key: String, readers_count: u32, writer_flag: bool, granted: bool, lock_uuid: Option<String>, fencing_token: Option<u64> },
    RegisterWriteResult { uuid: String, key: String, readers_count: u32, writer_flag: bool, granted: bool, lock_uuid: Option<String>, fencing_token: Option<u64> },
    EndReadResult { uuid: String, key: String, readers_count: u32 },
    EndWriteResult { uuid: String, key: String, readers_count: u32, writer_flag: bool },
    LockInfo { uuid: String, key: String, is_locked: bool, lockholder_uuids: Vec<String>, lock_request_count: usize, readers_count: u32, writer_flag: bool },
    LsResult { uuid: String, keys: Vec<String> },
    /// Server-initiated re-election notice to the next candidate in the queue.
    /// Ignorable on the client; it usually arrives just before a `Lock` grant.
    Reelection { uuid: String, key: String },
    Error { uuid: String, error: String },
    Okay { uuid: String },
}

/// What a response says.
#[allow(inconsistent_fields)]
#[verifier::ext_equal]
pub enum ResponseModel {
    Version { uuid: Seq<char>, broker_version: Seq<char>, ok: bool, error: Option<Seq<char>> },
    Auth { uuid: Seq<char>, ok: bool, error: Option<Seq<char>> },
    /// Single-key lock result.
    Lock { uuid: Seq<char>, key: Seq<char>, acquired: bool, lock_request_count: usize, lock_uuid: Option<Seq<char>>, fencing_token: Option<u64>, readers_count: Option<u32>, error: Option<Seq<char>> },
    /// Composite (multi-key) lock result. `acquired` means that every key was
    /// granted; `lock_uuid` is the single token that releases all of them.
    CompositeLock { uuid: Seq<char>, keys: Seq<Seq<char>>, acquired: bool, lock_uuid: Option<Seq<char>>, fencing_tokens: Option<Map<Seq<char>, u64>>, error: Option<Seq<char>> },
    Unlock { uuid: Seq<char>, keys: Seq<Seq<char>>, unlocked: bool, lock_request_count: usize, error: Option<Seq<char>> },
    RegisterReadResult { uuid: Seq<char>, key: Seq<char>, readers_count: u32, writer_flag: bool, granted: bool, lock_uuid: Option<Seq<char>>, fencing_token: Option<u64> },
    RegisterWriteResult { uuid: Seq<char>, key: Seq<char>, readers_count: u32, writer_flag: bool, granted: bool, lock_uuid: Option<Seq<char>>, fencing_token: Option<u64> },
    EndReadResult { uuid: Seq<char>, key: Seq<char>, readers_count: u32 },
    EndWriteResult { uuid: Seq<char>, key: Seq<char>, readers_count: u32, writer_flag: bool },
    LockInfo { uuid: Seq<char>, key: Seq<char>, is_locked: bool, lockholder_uuids: Seq<Seq<char>>, lock_request_count: usize, readers_count: u32, writer_flag: bool },
    LsResult { uuid: Seq<char>, keys: Seq<Seq<char>> },
    /// Server-initiated re-election notice to the next candidate in the queue.
    /// Ignorable on the client; it usually arrives just before a `Lock` grant.
    Reelection { uuid: Seq<char>, key: Seq<char> },
    Error { uuid: Seq<char>, error: Seq<char> },
    Okay { uuid: Seq<char> },
}

/// What an optional text shows.
pub open spec fn shown_text(o: Option<String>) -> Option<Seq<char>> {
    match o {
        Some(s) => Some(s@),
        None => None,
    }
}

/// What an optional token map shows.
pub open spec fn shown_tokens(o: Option<TokenMap>) -> Option<Map<Seq<char>, u64>> {
    match o {
        Some(m) => Some(m@),
        None => None,
    }
}

impl View for Response {
    type V = ResponseModel;

    open spec fn view(&self) -> ResponseModel {
        match *self {
            Response::Version { uuid, broker_version, ok, error } => ResponseModel::Version { uuid: uuid@, broker_version: broker_version@, ok, error: shown_text(error) },
            Response::Auth { uuid, ok, error } => ResponseModel::Auth { uuid: uuid@, ok, error: shown_text(error) },
            Response::Lock { uuid, key, acquired, lock_request_count, lock_uuid, fencing_token, readers_count, error } => ResponseModel::Lock { uuid: uuid@, key: key@, acquired, lock_request_count, lock_uuid: shown_text(lock_uuid), fencing_token, readers_count, error: shown_text(error) },
            Response::CompositeLock { uuid, keys, acquired, lock_uuid, fencing_tokens, error } => ResponseModel::CompositeLock { uuid: uuid@, keys: ordered_map::views(keys@), acquired, lock_uuid: shown_text(lock_uuid), fencing_tokens: shown_tokens(fencing_tokens), error: shown_text(error) },
            Response::Unlock { uuid, keys, unlocked, lock_request_count, error } => ResponseModel::Unlock { uuid: uuid@, keys: ordered_map::views(keys@), unlocked, lock_request_count, error: shown_text(error) },
            Response::RegisterReadResult { uuid, key, readers_count, writer_flag, granted, lock_uuid, fencing_token } => ResponseModel::RegisterReadResult { uuid: uuid@, key: key@, readers_count, writer_flag, granted, lock_uuid: shown_text(lock_uuid), fencing_token },
            Response::RegisterWriteResult { uuid, key, readers_count, writer_flag, granted, lock_uuid, fencing_token } => ResponseModel::RegisterWriteResult { uuid: uuid@, key: key@, readers_count, writer_flag, granted, lock_uuid: shown_text(lock_uuid), fencing_token },
            Response::EndReadResult { uuid, key, readers_count } => ResponseModel::EndReadResult { uuid: uuid@, key: key@, readers_count },
            Response::EndWriteResult { uuid, key, readers_count, writer_flag } => ResponseModel::EndWriteResult { uuid: uuid@, key: key@, readers_count, writer_flag },
            Response::LockInfo { uuid, key, is_locked, lockholder_uuids, lock_request_count, readers_count, writer_flag } => ResponseModel::LockInfo { uuid: uuid@, key: key@, is_locked, lockholder_uuids: ordered_map::views(lockholder_uuids@), lock_request_count, readers_count, writer_flag },
            Response::LsResult { uuid, keys } => ResponseModel::LsResult { uuid: uuid@, keys: ordered_map::views(keys@) },
            Response::Reelection { uuid, key } => ResponseModel::Reelection { uuid: uuid@, key: key@ },
            Response::Error { uuid, error } => ResponseModel::Error { uuid: uuid@, error: error@ },
            Response::Okay { uuid } => ResponseModel::Okay { uuid: uuid@ },
        }
    }
}

impl ResponseModel {
    /// The correlation id of the request that is answered.
    pub open spec fn correlation(self) -> Seq<char> {
        match self {
            ResponseModel::Version { uuid, .. } => uuid,
            ResponseModel::Auth { uuid, .. } => uuid,
            ResponseModel::Lock { uuid, .. } => uuid,
            ResponseModel::CompositeLock { uuid, .. } => uuid,
            ResponseModel::Unlock { uuid, .. } => uuid,
            ResponseModel::RegisterReadResult { uuid, .. } => uuid,
            ResponseModel::RegisterWriteResult { uuid, .. } => uuid,
            ResponseModel::EndReadResult { uuid, .. } => uuid,
            ResponseModel::EndWriteResult { uuid, .. } => uuid,
            ResponseModel::LockInfo { uuid, .. } => uuid,
            ResponseModel::LsResult { uuid, .. } => uuid,
            ResponseModel::Reelection { uuid, .. } => uuid,
            ResponseModel::Error { uuid, .. } => uuid,
            ResponseModel::Okay { uuid, .. } => uuid,
        }
    }
}

impl Response {
    /// The correlation id of the request that is answered.
    pub fn correlation_uuid(&self) -> (r: &str)
        ensures
            r@ == self@.correlation(),
    {
        match self {
            Response::Version { uuid, .. } => uuid.as_str(),
            Response::Auth { uuid, .. } => uuid.as_str(),
            Response::Lock { uuid, .. } => uuid.as_str(),
            Response::CompositeLock { uuid, .. } => uuid.as_str(),
            Response::Unlock { uuid, .. } => uuid.as_str(),
            Response::RegisterReadResult { uuid, .. } => uuid.as_str(),
            Response::RegisterWriteResult { uuid, .. } => uuid.as_str(),
            Response::EndReadResult { uuid, .. } => uuid.as_str(),
            Response::EndWriteResult { uuid, .. } => uuid.as_str(),
            Response::LockInfo { uuid, .. } => uuid.as_str(),
            Response::LsResult { uuid, .. } => uuid.as_str(),
            Response::Reelection { uuid, .. } => uuid.as_str(),
            Response::Error { uuid, .. } => uuid.as_str(),
            Response::Okay { uuid, .. } => uuid.as_str(),
        }
    }
}

impl Request {
    /// The correlation id of this request.
    pub open spec fn correlation(self) -> Seq<char> {
        match self {
            Request::Version { uuid, .. } => uuid@,
            Request::Auth { uuid, .. } => uuid@,
            Request::Lock { uuid, .. } => uuid@,
            Request::Unlock { uuid, .. } => uuid@,
            Request::RegisterRead { uuid, .. } => uuid@,
            Request::RegisterWrite { uuid, .. } => uuid@,
            Request::EndRead { uuid, .. } => uuid@,
            Request::EndWrite { uuid, .. } => uuid@,
            Request::LockInfo { uuid, .. } => uuid@,
            Request::Ls { uuid, .. } => uuid@,
            Request::Heartbeat { uuid, .. } => uuid@,
        }
    }

    /// The correlation id of this request.
    pub fn correlation_uuid(&self) -> (r: &str)
        ensures
            r@ == self.correlation(),
    {
        match self {
            Request::Version { uuid, .. } => uuid.as_str(),
            Request::Auth { uuid, .. } => uuid.as_str(),
            Request::Lock { uuid, .. } => uuid.as_str(),
            Request::Unlock { uuid, .. } => uuid.as_str(),
            Request::RegisterRead { uuid, .. } => uuid.as_str(),
            Request::RegisterWrite { uuid, .. } => uuid.as_str(),
            Request::EndRead { uuid, .. } => uuid.as_str(),
            Request::EndWrite { uuid, .. } => uuid.as_str(),
            Request::LockInfo { uuid, .. } => uuid.as_str(),
            Request::Ls { uuid, .. } => uuid.as_str(),
            Request::Heartbeat { uuid, .. } => uuid.as_str(),
        }
    }
}

} // verus!
