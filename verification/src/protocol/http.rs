//! HTTP body shapes.

use crate::protocol::TokenMap;
use vstd::prelude::*;

verus! {

#[derive(Debug, Clone)]
pub struct AcquireRequest {
    /// Client-provided idempotency/correlation key.
    pub request_id: Option<String>,
    pub key: Option<String>,
    pub keys: Option<Vec<String>>,
    pub ttl_ms: Option<u64>,
    pub max: Option<u32>,
    /// Long-poll wait window. `0` (or unset) returns immediately.
    pub wait_ms: Option<u64>,
}

#[derive(Debug, Clone)]
pub struct AcquireResponse {
    pub acquired: bool,
    pub keys: Vec<String>,
    pub lock_uuid: Option<String>,
    pub fencing_tokens: TokenMap,
    pub queue_depth: usize,
    /// Broker-reported reason for an unacquired lock.
    pub error: Option<String>,
}

#[derive(Debug, Clone)]
pub struct ReleaseRequest {
    /// Client-provided idempotency/correlation key.
    pub request_id: Option<String>,
    pub key: Option<String>,
    pub keys: Option<Vec<String>>,
    /// Missing only on operator-initiated `force` releases.
    pub lock_uuid: Option<String>,
    pub force: bool,
}

#[derive(Debug, Clone)]
pub struct ReleaseResponse {
    pub unlocked: bool,
    pub keys: Vec<String>,
}

#[derive(Debug, Clone)]
pub struct RwAcquireRequest {
    pub key: String,
    pub wait_ms: Option<u64>,
}

#[derive(Debug, Clone)]
pub struct RwAcquireResponse {
    pub granted: bool,
    pub key: String,
    pub readers_count: u32,
    pub writer_flag: bool,
    pub lock_uuid: Option<String>,
    pub fencing_token: Option<u64>,
}

#[derive(Debug, Clone)]
pub struct RwReleaseRequest {
    pub key: String,
    pub lock_uuid: String,
}

#[derive(Debug, Clone)]
pub struct RwReleaseResponse {
    pub key: String,
    pub readers_count: u32,
    pub writer_flag: bool,
}

#[derive(Debug, Clone)]
pub struct LockInfoResponse {
    pub key: String,
    pub is_locked: bool,
    pub lockholder_uuids: Vec<String>,
    pub lock_request_count: usize,
    pub readers_count: u32,
    pub writer_flag: bool,
}

} // verus!
