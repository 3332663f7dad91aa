//! Runtime configuration.
//!
//! A configuration file provides defaults; the `LMX_*` environment wins over
//! it. A setting counts only if something is left of it after trimming, and a
//! number or flag only if it parses.

pub mod laws;

use crate::broker::BrokerConfig;
use crate::ordered_map::OrderedMap;
use crate::protocol;
use crate::protocol::DEFAULT_MAX_CONCURRENCY_CAP;
use crate::scan;
use crate::scan::{is_on, non_empty, parse_number};
use crate::text;
use crate::text::{decimal, join3};
use vstd::prelude::*;
use vstd::string::StringExecFns;

verus! {

/// Settings by name.
pub type EnvMap = OrderedMap<String, String>;

pub const CONFIG_PATH_ENV: &'static str = "LMX_CONFIG";

/// The setting `key` of the environment, trimmed.
pub open spec fn setting(env: Map<Seq<char>, Seq<char>>, key: Seq<char>) -> Option<Seq<char>> {
    if env.dom().contains(key) {
        scan::filled(Some(env[key]))
    } else {
        None
    }
}

/// The setting `key` as a number of at most `max`.
pub open spec fn number_setting(
    env: Map<Seq<char>, Seq<char>>,
    key: Seq<char>,
    max: nat,
) -> Option<nat> {
    match setting(env, key) {
        Some(s) => scan::number(s, max),
        None => None,
    }
}

/// The setting `key` as a flag.
pub open spec fn flag_setting(env: Map<Seq<char>, Seq<char>>, key: Seq<char>) -> Option<bool> {
    match setting(env, key) {
        Some(s) => Some(scan::means_on(s)),
        None => None,
    }
}

/// The setting `key` as a number, else `file`, else `default`.
pub open spec fn number_choice(
    env: Map<Seq<char>, Seq<char>>,
    key: Seq<char>,
    max: nat,
    file: Option<nat>,
    default: nat,
) -> nat {
    match (number_setting(env, key, max), file) {
        (Some(n), _) => n,
        (None, Some(n)) => n,
        (None, None) => default,
    }
}

/// The setting `key` as a flag, else `file`, else `default`.
pub open spec fn flag_choice(
    env: Map<Seq<char>, Seq<char>>,
    key: Seq<char>,
    file: Option<bool>,
    default: bool,
) -> bool {
    match (flag_setting(env, key), file) {
        (Some(b), _) => b,
        (None, Some(b)) => b,
        (None, None) => default,
    }
}

/// The setting `key`, else what is left of `file` after trimming.
pub open spec fn text_choice(
    env: Map<Seq<char>, Seq<char>>,
    key: Seq<char>,
    file: Option<Seq<char>>,
) -> Option<Seq<char>> {
    match setting(env, key) {
        Some(s) => Some(s),
        None => scan::filled(file),
    }
}

/// The setting `key`, else `file` as it stands.
pub open spec fn path_choice(
    env: Map<Seq<char>, Seq<char>>,
    key: Seq<char>,
    file: Option<Seq<char>>,
) -> Option<Seq<char>> {
    match setting(env, key) {
        Some(s) => Some(s),
        None => file,
    }
}

/// What an optional number shows.
pub open spec fn shown_u64(o: Option<u64>) -> Option<nat> {
    match o {
        Some(n) => Some(n as nat),
        None => None,
    }
}

/// What an optional number shows.
pub open spec fn shown_u32(o: Option<u32>) -> Option<nat> {
    match o {
        Some(n) => Some(n as nat),
        None => None,
    }
}

/// What an optional number shows.
pub open spec fn shown_u16(o: Option<u16>) -> Option<nat> {
    match o {
        Some(n) => Some(n as nat),
        None => None,
    }
}

/// What an optional number shows.
pub open spec fn shown_usize(o: Option<usize>) -> Option<nat> {
    match o {
        Some(n) => Some(n as nat),
        None => None,
    }
}

/// The setting `key` of the environment, trimmed.
pub fn env_string(env: &EnvMap, key: &str) -> (r: Option<String>)
    ensures
        protocol::shown_text(r) == setting(env@, key@),
{
    let name = String::from_str(key);
    match env.get(&name) {
        Some(value) => non_empty(Some(value.as_str())),
        None => None,
    }
}

/// The setting `key` as a number of at most `max`.
pub fn env_parse(env: &EnvMap, key: &str, max: u64) -> (r: Option<u64>)
    ensures
        shown_u64(r) == number_setting(env@, key@, max as nat),
        r matches Some(n) ==> n <= max,
{
    match env_string(env, key) {
        Some(s) => parse_number(s.as_str(), max),
        None => None,
    }
}

/// The setting `key` as a flag.
pub fn env_bool(env: &EnvMap, key: &str) -> (r: Option<bool>)
    ensures
        r == flag_setting(env@, key@),
{
    match env_string(env, key) {
        Some(s) => Some(is_on(s.as_str())),
        None => None,
    }
}

fn pick_u64(env: &EnvMap, key: &str, file: Option<u64>, default: u64) -> (r: u64)
    ensures
        r == number_choice(env@, key@, u64::MAX as nat, shown_u64(file), default as nat),
{
    match env_parse(env, key, u64::MAX) {
        Some(n) => n,
        None => match file {
            Some(n) => n,
            None => default,
        },
    }
}

fn pick_u32(env: &EnvMap, key: &str, file: Option<u32>, default: u32) -> (r: u32)
    ensures
        r == number_choice(env@, key@, u32::MAX as nat, shown_u32(file), default as nat),
{
    match env_parse(env, key, u32::MAX as u64) {
        Some(n) => n as u32,
        None => match file {
            Some(n) => n,
            None => default,
        },
    }
}

fn pick_usize(env: &EnvMap, key: &str, file: Option<usize>, default: usize) -> (r: usize)
    ensures
        r == number_choice(env@, key@, usize::MAX as nat, shown_usize(file), default as nat),
{
    match env_parse(env, key, usize::MAX as u64) {
        Some(n) => n as usize,
        None => match file {
            Some(n) => n,
            None => default,
        },
    }
}

fn pick_port(env: &EnvMap, key: &str, file: Option<u16>, default: u16) -> (r: u16)
    ensures
        r == number_choice(env@, key@, u16::MAX as nat, shown_u16(file), default as nat),
{
    match env_parse(env, key, u16::MAX as u64) {
        Some(n) => n as u16,
        None => match file {
            Some(n) => n,
            None => default,
        },
    }
}

fn pick_flag(env: &EnvMap, key: &str, file: Option<bool>, default: bool) -> (r: bool)
    ensures
        r == flag_choice(env@, key@, file, default),
{
    match env_bool(env, key) {
        Some(b) => b,
        None => match file {
            Some(b) => b,
            None => default,
        },
    }
}

fn pick_text(env: &EnvMap, key: &str, file: &Option<String>) -> (r: Option<String>)
    ensures
        protocol::shown_text(r) == text_choice(env@, key@, protocol::shown_text(*file)),
{
    match env_string(env, key) {
        Some(s) => Some(s),
        None => match file {
            Some(s) => non_empty(Some(s.as_str())),
            None => None,
        },
    }
}

fn pick_path(env: &EnvMap, key: &str, file: &Option<String>) -> (r: Option<String>)
    ensures
        protocol::shown_text(r) == path_choice(env@, key@, protocol::shown_text(*file)),
{
    match env_string(env, key) {
        Some(s) => Some(s),
        None => file.clone(),
    }
}

/// The `[server]` table of a configuration file.
#[derive(Debug, Clone)]
pub struct ServerFileConfig {
    pub bind_host: Option<String>,
    pub tcp_port: Option<u16>,
    pub http_port: Option<u16>,
    pub disable_tcp: Option<bool>,
    pub disable_http: Option<bool>,
    pub uds_path: Option<String>,
    pub auth_token: Option<String>,
    pub status_port: Option<u16>,
    pub tcp_nodelay: Option<bool>,
    pub tcp_quickack: Option<bool>,
    pub tls_cert: Option<String>,
    pub tls_key: Option<String>,
}

/// The `[broker]` table of a configuration file.
#[derive(Debug, Clone)]
pub struct BrokerFileConfig {
    pub default_ttl_ms: Option<u64>,
    pub max_lock_holders: Option<u32>,
    pub max_concurrency_cap: Option<u32>,
    pub ttl_sweep_interval_ms: Option<u64>,
    pub idle_key_grace_ms: Option<u64>,
}

/// A node of the replicated broker.
#[derive(Debug, Clone)]
pub struct RaftPeerConfig {
    pub id: String,
    pub addr: String,
}

/// The `[raft]` table of a configuration file.
#[derive(Debug, Clone)]
pub struct RaftFileConfig {
    pub enabled: Option<bool>,
    pub node_id: Option<String>,
    pub bind_addr: Option<String>,
    pub advertise_addr: Option<String>,
    pub data_dir: Option<String>,
    pub data_dir_lock: Option<bool>,
    pub heartbeat_interval_ms: Option<u64>,
    pub election_timeout_min_ms: Option<u64>,
    pub election_timeout_max_ms: Option<u64>,
    pub snapshot_interval_ms: Option<u64>,
    pub snapshot_max_log_entries: Option<u64>,
    pub snapshot_max_log_bytes: Option<u64>,
    pub trailing_log_entries: Option<u64>,
    pub append_entries_max_entries: Option<usize>,
    pub append_entries_max_bytes: Option<usize>,
    pub append_entries_max_inline_batches: Option<usize>,
    pub install_snapshot_chunk_bytes: Option<usize>,
    pub install_snapshot_max_staged_bytes: Option<u64>,
    pub install_snapshot_max_staged_transfers: Option<usize>,
    pub install_snapshot_stale_transfer_ms: Option<u64>,
    pub client_batch_max_entries: Option<usize>,
    pub client_pipeline_max_batches: Option<usize>,
    pub client_batch_max_pending: Option<usize>,
    pub client_batch_max_delay_ms: Option<u64>,
    pub client_response_cache_max_entries: Option<usize>,
    pub proxy_retry_budget_ms: Option<u64>,
    pub sync_log: Option<bool>,
    pub peer_token: Option<String>,
    pub peers: Vec<RaftPeerConfig>,
}

/// A configuration file.
#[derive(Debug, Clone)]
pub struct ConfigFile {
    pub server: ServerFileConfig,
    pub broker: BrokerFileConfig,
    pub raft: RaftFileConfig,
}

impl ConfigFile {
    /// A file that sets nothing.
    pub fn new() -> (r: Self)
        ensures
            r.server == (ServerFileConfig {
                bind_host: None,
                tcp_port: None,
                http_port: None,
                disable_tcp: None,
                disable_http: None,
                uds_path: None,
                auth_token: None,
                status_port: None,
                tcp_nodelay: None,
                tcp_quickack: None,
                tls_cert: None,
                tls_key: None,
            }),
            r.broker == (BrokerFileConfig {
                default_ttl_ms: None,
                max_lock_holders: None,
                max_concurrency_cap: None,
                ttl_sweep_interval_ms: None,
                idle_key_grace_ms: None,
            }),
            r.raft.peers@.len() == 0,
            r.raft == (RaftFileConfig {
                enabled: None,
                node_id: None,
                bind_addr: None,
                advertise_addr: None,
                data_dir: None,
                data_dir_lock: None,
                heartbeat_interval_ms: None,
                election_timeout_min_ms: None,
                election_timeout_max_ms: None,
                snapshot_interval_ms: None,
                snapshot_max_log_entries: None,
                snapshot_max_log_bytes: None,
                trailing_log_entries: None,
                append_entries_max_entries: None,
                append_entries_max_bytes: None,
                append_entries_max_inline_batches: None,
                install_snapshot_chunk_bytes: None,
                install_snapshot_max_staged_bytes: None,
                install_snapshot_max_staged_transfers: None,
                install_snapshot_stale_transfer_ms: None,
                client_batch_max_entries: None,
                client_pipeline_max_batches: None,
                client_batch_max_pending: None,
                client_batch_max_delay_ms: None,
                client_response_cache_max_entries: None,
                proxy_retry_budget_ms: None,
                sync_log: None,
                peer_token: None,
                peers: r.raft.peers,
            }),
    {
        ConfigFile {
            server: ServerFileConfig {
                bind_host: None,
                tcp_port: None,
                http_port: None,
                disable_tcp: None,
                disable_http: None,
                uds_path: None,
                auth_token: None,
                status_port: None,
                tcp_nodelay: None,
                tcp_quickack: None,
                tls_cert: None,
                tls_key: None,
            },
            broker: BrokerFileConfig {
                default_ttl_ms: None,
                max_lock_holders: None,
                max_concurrency_cap: None,
                ttl_sweep_interval_ms: None,
                idle_key_grace_ms: None,
            },
            raft: RaftFileConfig {
                enabled: None,
                node_id: None,
                bind_addr: None,
                advertise_addr: None,
                data_dir: None,
                data_dir_lock: None,
                heartbeat_interval_ms: None,
                election_timeout_min_ms: None,
                election_timeout_max_ms: None,
                snapshot_interval_ms: None,
                snapshot_max_log_entries: None,
                snapshot_max_log_bytes: None,
                trailing_log_entries: None,
                append_entries_max_entries: None,
                append_entries_max_bytes: None,
                append_entries_max_inline_batches: None,
                install_snapshot_chunk_bytes: None,
                install_snapshot_max_staged_bytes: None,
                install_snapshot_max_staged_transfers: None,
                install_snapshot_stale_transfer_ms: None,
                client_batch_max_entries: None,
                client_pipeline_max_batches: None,
                client_batch_max_pending: None,
                client_batch_max_delay_ms: None,
                client_response_cache_max_entries: None,
                proxy_retry_budget_ms: None,
                sync_log: None,
                peer_token: None,
                peers: Vec::new(),
            },
        }
    }
}

/// Certificate and key of a TLS listener.
#[derive(Debug, Clone)]
pub struct TlsConfig {
    pub cert_path: String,
    pub key_path: String,
}

/// What the server listens on and how. Addresses are texts that the transport
/// resolves.
#[derive(Debug, Clone)]
pub struct ServerConfig {
    pub tcp_bind: Option<String>,
    pub uds_path: Option<String>,
    pub http_bind: Option<String>,
    pub auth_token: Option<String>,
    pub broker: BrokerConfig,
    /// Whether accepted sockets send without delay.
    pub tcp_nodelay: bool,
    /// Whether accepted sockets acknowledge at once, where the platform can.
    pub tcp_quickack: bool,
    /// Listener of the operator views alone, without authentication.
    pub status_bind: Option<String>,
    pub tls: Option<TlsConfig>,
}

impl Default for ServerConfig {
    fn default() -> (r: Self)
        ensures
            protocol::shown_text(r.tcp_bind) == Some("0.0.0.0:6970"@),
            r.uds_path is None,
            protocol::shown_text(r.http_bind) == Some("0.0.0.0:6971"@),
            r.auth_token is None,
            r.broker == (BrokerConfig {
                default_ttl: 4_000,
                max_lock_holders: 1,
                ttl_sweep_interval: 10,
                max_concurrency_cap: DEFAULT_MAX_CONCURRENCY_CAP,
                idle_key_grace: 60_000,
            }),
            r.tcp_nodelay,
            r.tcp_quickack,
            r.status_bind is None,
            r.tls is None,
    {
        ServerConfig {
            tcp_bind: Some(String::from_str("0.0.0.0:6970")),
            uds_path: None,
            http_bind: Some(String::from_str("0.0.0.0:6971")),
            auth_token: None,
            broker: BrokerConfig::default(),
            tcp_nodelay: true,
            tcp_quickack: true,
            status_bind: None,
            tls: None,
        }
    }
}

/// `n`, but at least one.
pub open spec fn positive(n: nat) -> nat {
    if n == 0 {
        1
    } else {
        n
    }
}

fn at_least_one(n: u32) -> (r: u32)
    ensures
        r == positive(n as nat),
        r > 0,
{
    if n == 0 {
        1
    } else {
        n
    }
}

/// Whether `r` is what environment and file make of the broker's configuration.
pub open spec fn broker_built(
    r: BrokerConfig,
    env: Map<Seq<char>, Seq<char>>,
    file: BrokerFileConfig,
) -> bool {
    &&& r.default_ttl == number_choice(
        env,
        "LMX_DEFAULT_TTL_MS"@,
        u64::MAX as nat,
        shown_u64(file.default_ttl_ms),
        4_000,
    )
    &&& r.max_lock_holders == positive(
        number_choice(
            env,
            "LMX_MAX_LOCK_HOLDERS"@,
            u32::MAX as nat,
            shown_u32(file.max_lock_holders),
            1,
        ),
    )
    &&& r.ttl_sweep_interval == number_choice(
        env,
        "LMX_TTL_SWEEP_INTERVAL_MS"@,
        u64::MAX as nat,
        shown_u64(file.ttl_sweep_interval_ms),
        10,
    )
    &&& r.max_concurrency_cap == positive(
        number_choice(
            env,
            "LMX_MAX_CONCURRENCY_CAP"@,
            u32::MAX as nat,
            shown_u32(file.max_concurrency_cap),
            DEFAULT_MAX_CONCURRENCY_CAP as nat,
        ),
    )
    &&& r.idle_key_grace == number_choice(
        env,
        "LMX_IDLE_KEY_GRACE_MS"@,
        u64::MAX as nat,
        shown_u64(file.idle_key_grace_ms),
        60_000,
    )
}

/// The broker's configuration.
pub fn build_broker_config(env: &EnvMap, file: &BrokerFileConfig) -> (r: BrokerConfig)
    ensures
        broker_built(r, env@, *file),
{
    BrokerConfig {
        default_ttl: pick_u64(env, "LMX_DEFAULT_TTL_MS", file.default_ttl_ms, 4_000),
        max_lock_holders: at_least_one(
            pick_u32(env, "LMX_MAX_LOCK_HOLDERS", file.max_lock_holders, 1),
        ),
        ttl_sweep_interval: pick_u64(
            env,
            "LMX_TTL_SWEEP_INTERVAL_MS",
            file.ttl_sweep_interval_ms,
            10,
        ),
        max_concurrency_cap: at_least_one(
            pick_u32(
                env,
                "LMX_MAX_CONCURRENCY_CAP",
                file.max_concurrency_cap,
                DEFAULT_MAX_CONCURRENCY_CAP,
            ),
        ),
        idle_key_grace: pick_u64(env, "LMX_IDLE_KEY_GRACE_MS", file.idle_key_grace_ms, 60_000),
    }
}

/// `host:port`.
pub open spec fn address(host: Seq<char>, port: nat) -> Seq<char> {
    host + ":"@ + text::decimal_text(port)
}

fn address_of(host: &str, port: u16) -> (r: String)
    ensures
        r@ == address(host@, port as nat),
{
    join3(host, ":", decimal(port as u64).as_str())
}

/// The host that the listeners bind to.
pub open spec fn bind_host(env: Map<Seq<char>, Seq<char>>, file: ServerFileConfig) -> Seq<char> {
    match text_choice(env, "LMX_BIND_HOST"@, protocol::shown_text(file.bind_host)) {
        Some(host) => host,
        None => "0.0.0.0"@,
    }
}

/// What an optional TLS configuration shows: the paths of certificate and key.
pub open spec fn shown_tls(o: Option<TlsConfig>) -> Option<(Seq<char>, Seq<char>)> {
    match o {
        Some(t) => Some((t.cert_path@, t.key_path@)),
        None => None,
    }
}

/// Certificate and key, if both are set.
pub open spec fn tls_choice(env: Map<Seq<char>, Seq<char>>, file: ServerFileConfig) -> Option<
    (Seq<char>, Seq<char>),
> {
    match (
        path_choice(env, "LMX_TLS_CERT"@, protocol::shown_text(file.tls_cert)),
        path_choice(env, "LMX_TLS_KEY"@, protocol::shown_text(file.tls_key)),
    ) {
        (Some(cert), Some(key)) => Some((cert, key)),
        _ => None,
    }
}

/// Certificate and key, if both are set.
pub fn build_tls_config(env: &EnvMap, file: &ServerFileConfig) -> (r: Option<TlsConfig>)
    ensures
        shown_tls(r) == tls_choice(env@, *file),
{
    match (
        pick_path(env, "LMX_TLS_CERT", &file.tls_cert),
        pick_path(env, "LMX_TLS_KEY", &file.tls_key),
    ) {
        (Some(cert_path), Some(key_path)) => Some(TlsConfig { cert_path, key_path }),
        _ => None,
    }
}

/// Whether `r` is what environment and file make of the server's configuration.
pub open spec fn server_built(
    r: ServerConfig,
    env: Map<Seq<char>, Seq<char>>,
    file: ServerFileConfig,
    broker: BrokerConfig,
) -> bool {
    &&& protocol::shown_text(r.tcp_bind) == if flag_choice(
        env,
        "LMX_DISABLE_TCP"@,
        file.disable_tcp,
        false,
    ) {
        None
    } else {
        Some(
            address(
                bind_host(env, file),
                number_choice(
                    env,
                    "LMX_TCP_PORT"@,
                    u16::MAX as nat,
                    shown_u16(file.tcp_port),
                    6970,
                ),
            ),
        )
    }
    &&& protocol::shown_text(r.http_bind) == if flag_choice(
        env,
        "LMX_DISABLE_HTTP"@,
        file.disable_http,
        false,
    ) {
        None
    } else {
        Some(
            address(
                bind_host(env, file),
                number_choice(
                    env,
                    "LMX_HTTP_PORT"@,
                    u16::MAX as nat,
                    shown_u16(file.http_port),
                    6971,
                ),
            ),
        )
    }
    &&& protocol::shown_text(r.status_bind) == match (
        number_setting(env, "LMX_STATUS_PORT"@, u16::MAX as nat),
        shown_u16(file.status_port),
    ) {
        (Some(port), _) => Some(address(bind_host(env, file), port)),
        (None, Some(port)) => Some(address(bind_host(env, file), port)),
        (None, None) => None,
    }
    &&& protocol::shown_text(r.uds_path) == path_choice(
        env,
        "LMX_UDS_PATH"@,
        protocol::shown_text(file.uds_path),
    )
    &&& protocol::shown_text(r.auth_token) == text_choice(
        env,
        "LMX_AUTH_TOKEN"@,
        protocol::shown_text(file.auth_token),
    )
    &&& r.broker == broker
    &&& r.tcp_nodelay == flag_choice(env, "LMX_TCP_NODELAY"@, file.tcp_nodelay, true)
    &&& r.tcp_quickack == flag_choice(env, "LMX_TCP_QUICKACK"@, file.tcp_quickack, true)
    &&& shown_tls(r.tls) == tls_choice(env, file)
}

/// The server's configuration around that of its broker.
pub fn build_server_config(env: &EnvMap, file: &ServerFileConfig, broker: BrokerConfig) -> (r:
    ServerConfig)
    ensures
        server_built(r, env@, *file, broker),
{
    let host = match pick_text(env, "LMX_BIND_HOST", &file.bind_host) {
        Some(host) => host,
        None => String::from_str("0.0.0.0"),
    };
    let tcp_port: u16 = pick_port(env, "LMX_TCP_PORT", file.tcp_port, 6970);
    let http_port: u16 = pick_port(env, "LMX_HTTP_PORT", file.http_port, 6971);
    let tcp_bind = if pick_flag(env, "LMX_DISABLE_TCP", file.disable_tcp, false) {
        None
    } else {
        Some(address_of(host.as_str(), tcp_port))
    };
    let http_bind = if pick_flag(env, "LMX_DISABLE_HTTP", file.disable_http, false) {
        None
    } else {
        Some(address_of(host.as_str(), http_port))
    };
    let status_bind = match env_parse(env, "LMX_STATUS_PORT", u16::MAX as u64) {
        Some(port) => Some(address_of(host.as_str(), port as u16)),
        None => match file.status_port {
            Some(port) => Some(address_of(host.as_str(), port)),
            None => None,
        },
    };
    ServerConfig {
        tcp_bind,
        uds_path: pick_path(env, "LMX_UDS_PATH", &file.uds_path),
        http_bind,
        auth_token: pick_text(env, "LMX_AUTH_TOKEN", &file.auth_token),
        broker,
        tcp_nodelay: pick_flag(env, "LMX_TCP_NODELAY", file.tcp_nodelay, true),
        tcp_quickack: pick_flag(env, "LMX_TCP_QUICKACK", file.tcp_quickack, true),
        status_bind,
        tls: build_tls_config(env, file),
    }
}

/// Whether a server with this configuration has something to listen on.
pub open spec fn has_listener(config: ServerConfig, replicated: bool) -> bool {
    config.http_bind is Some || !replicated && (config.tcp_bind is Some || config.uds_path is Some
        || config.status_bind is Some)
}

/// Complains of a server that has nothing to listen on. A replicated broker
/// serves over HTTP alone.
pub fn check_listeners(config: &ServerConfig, replicated: bool) -> (r: Result<(), &'static str>)
    ensures
        match r {
            Ok(_) => has_listener(*config, replicated),
            Err(e) => !has_listener(*config, replicated) && e@ == if replicated {
                "BrokerRaft requires http_bind for the LB-facing API"@
            } else {
                "no listeners configured (set at least one of tcp_bind, uds_path, http_bind, status_bind)"@
            },
        },
{
    if config.http_bind.is_some() {
        return Ok(());
    }
    if replicated {
        return Err("BrokerRaft requires http_bind for the LB-facing API");
    }
    if config.tcp_bind.is_some() || config.uds_path.is_some() || config.status_bind.is_some() {
        return Ok(());
    }
    Err("no listeners configured (set at least one of tcp_bind, uds_path, http_bind, status_bind)")
}

/// An address to bind to, and where it comes from.
#[derive(Debug, Clone)]
pub struct BindAddr {
    pub value: String,
    pub from: &'static str,
}

/// Where an address that is no address comes from.
#[derive(Debug, Clone)]
pub enum ConfigError {
    InvalidSocketAddr { value: String, from: String },
}

impl ConfigError {
    /// What the operator is told.
    pub fn message(&self) -> (r: String)
        ensures
            match *self {
                ConfigError::InvalidSocketAddr { value, from } => r@ == "invalid socket address `"@
                    + value@ + "` from "@ + from@,
            },
    {
        match self {
            ConfigError::InvalidSocketAddr { value, from } => {
                let mut r = join3("invalid socket address `", value.as_str(), "` from ");
                r.append(from.as_str());
                r
            },
        }
    }
}

/// The first of some addresses that is none, by what the resolver says of each.
pub open spec fn first_invalid(valid: Seq<bool>) -> Option<int>
    decreases valid.len(),
{
    if valid.len() == 0 {
        None
    } else {
        match first_invalid(valid.drop_last()) {
            Some(i) => Some(i),
            None => if valid.last() {
                None
            } else {
                Some(valid.len() - 1)
            },
        }
    }
}

/// The addresses of the TCP, HTTP and status listeners, in the order in which
/// they are resolved.
pub open spec fn addresses(config: ServerConfig) -> Seq<(Seq<char>, Seq<char>)> {
    (match config.tcp_bind {
        Some(a) => seq![(a@, "server.bind_host/server.tcp_port"@)],
        None => seq![],
    }) + (match config.http_bind {
        Some(a) => seq![(a@, "server.bind_host/server.http_port"@)],
        None => seq![],
    }) + (match config.status_bind {
        Some(a) => seq![(a@, "server.bind_host/server.status_port"@)],
        None => seq![],
    })
}

/// What a row of addresses shows.
pub open spec fn shown_addresses(list: Seq<BindAddr>) -> Seq<(Seq<char>, Seq<char>)> {
    Seq::new(list.len(), |i: int| (list[i].value@, list[i].from@))
}

/// The addresses of the listeners, in the order in which they are resolved.
pub fn server_addresses(config: &ServerConfig) -> (r: Vec<BindAddr>)
    ensures
        shown_addresses(r@) == addresses(*config),
{
    let mut r: Vec<BindAddr> = Vec::new();
    if let Some(a) = &config.tcp_bind {
        r.push(BindAddr { value: a.clone(), from: "server.bind_host/server.tcp_port" });
    }
    if let Some(a) = &config.http_bind {
        r.push(BindAddr { value: a.clone(), from: "server.bind_host/server.http_port" });
    }
    if let Some(a) = &config.status_bind {
        r.push(BindAddr { value: a.clone(), from: "server.bind_host/server.status_port" });
    }
    assert(shown_addresses(r@) =~= addresses(*config));
    r
}

/// Complains of the first address that is none, by what the resolver says of
/// each.
pub fn check_addresses(list: &Vec<BindAddr>, valid: &Vec<bool>) -> (r: Result<(), ConfigError>)
    requires
        list@.len() == valid@.len(),
    ensures
        match first_invalid(valid@) {
            None => r is Ok,
            Some(i) => r matches Err(ConfigError::InvalidSocketAddr { value, from }) && value@
                == list@[i].value@ && from@ == list@[i].from@,
        },
{
    let mut i: usize = 0;
    assert(valid@.take(0) =~= seq![]);
    while i < list.len()
        invariant
            list@.len() == valid@.len(),
            i <= list@.len(),
            first_invalid(valid@.take(i as int)) is None,
        decreases list@.len() - i,
    {
        assert(valid@.take(i + 1).drop_last() =~= valid@.take(i as int));
        if !valid[i] {
            proof {
                lemma_first_invalid(valid@, i as int);
            }
            return Err(
                ConfigError::InvalidSocketAddr {
                    value: list[i].value.clone(),
                    from: String::from_str(list[i].from),
                },
            );
        }
        i = i + 1;
    }
    assert(valid@.take(i as int) =~= valid@);
    Ok(())
}

/// What comes later does not change which address is the first invalid one.
proof fn lemma_first_invalid(valid: Seq<bool>, i: int)
    requires
        0 <= i < valid.len(),
        !valid[i],
        first_invalid(valid.take(i)) is None,
    ensures
        first_invalid(valid) == Some(i),
    decreases valid.len(),
{
    if i == valid.len() - 1 {
        assert(valid.drop_last() =~= valid.take(i));
    } else {
        assert(valid.drop_last().take(i) =~= valid.take(i));
        lemma_first_invalid(valid.drop_last(), i);
    }
}

/// How the broker is replicated. Durations are in milliseconds.
#[derive(Debug, Clone)]
pub struct BrokerRaftConfig {
    pub enabled: bool,
    pub node_id: String,
    pub bind_addr: Option<String>,
    pub advertise_addr: Option<String>,
    pub data_dir: String,
    pub data_dir_lock: bool,
    pub heartbeat_interval: u64,
    pub election_timeout_min: u64,
    pub election_timeout_max: u64,
    pub snapshot_interval: u64,
    pub snapshot_max_log_entries: u64,
    pub snapshot_max_log_bytes: u64,
    pub trailing_log_entries: u64,
    pub append_entries_max_entries: usize,
    pub append_entries_max_bytes: usize,
    pub append_entries_max_inline_batches: usize,
    pub install_snapshot_chunk_bytes: usize,
    pub install_snapshot_max_staged_bytes: u64,
    pub install_snapshot_max_staged_transfers: usize,
    pub install_snapshot_stale_transfer_after: u64,
    pub client_batch_max_entries: usize,
    pub client_pipeline_max_batches: usize,
    pub client_batch_max_pending: usize,
    pub client_batch_max_delay: u64,
    pub client_response_cache_max_entries: usize,
    pub proxy_retry_budget: u64,
    pub sync_log: bool,
    pub peer_token: Option<String>,
    pub peers: Vec<RaftPeerConfig>,
    pub broker: BrokerConfig,
}

impl BrokerRaftConfig {
    /// The nodes listed.
    pub fn cluster_size(&self) -> (r: usize)
        ensures
            r == self.peers@.len(),
    {
        self.peers.len()
    }

    /// The nodes that make a majority.
    pub fn quorum_size(&self) -> (r: usize)
        ensures
            r == self.peers@.len() / 2 + 1,
    {
        self.peers.len() / 2 + 1
    }
}

/// Two majorities of a cluster have a node in common.
pub proof fn majorities_overlap<A>(cluster: Set<A>, a: Set<A>, b: Set<A>)
    requires
        cluster.finite(),
        a.subset_of(cluster),
        b.subset_of(cluster),
        a.len() >= cluster.len() / 2 + 1,
        b.len() >= cluster.len() / 2 + 1,
    ensures
        exists|x: A| a.contains(x) && #[trigger] b.contains(x),
{
    if forall|x: A| a.contains(x) ==> !#[trigger] b.contains(x) {
        vstd::set_lib::lemma_len_subset(a, cluster);
        vstd::set_lib::lemma_len_subset(b, cluster);
        vstd::set_lib::lemma_set_disjoint_lens(a, b);
        vstd::set_lib::lemma_len_subset(a + b, cluster);
        assert(false);
    }
}

/// What a row of nodes shows.
pub open spec fn shown_peers(list: Seq<RaftPeerConfig>) -> Seq<(Seq<char>, Seq<char>)> {
    Seq::new(list.len(), |i: int| (list[i].id@, list[i].addr@))
}

fn copied_peers(list: &Vec<RaftPeerConfig>) -> (r: Vec<RaftPeerConfig>)
    ensures
        shown_peers(r@) == shown_peers(list@),
{
    let mut r: Vec<RaftPeerConfig> = Vec::new();
    let mut i: usize = 0;
    while i < list.len()
        invariant
            i <= list@.len(),
            shown_peers(r@) =~= shown_peers(list@).take(i as int),
        decreases list@.len() - i,
    {
        let peer = &list[i];
        let ghost before = r@;
        r.push(RaftPeerConfig { id: peer.id.clone(), addr: peer.addr.clone() });
        assert(shown_peers(r@) =~= shown_peers(before).push((peer.id@, peer.addr@)));
        i = i + 1;
    }
    r
}

/// Whether `r` is what environment, file and defaults make of the replication.
pub open spec fn raft_built(
    r: BrokerRaftConfig,
    env: Map<Seq<char>, Seq<char>>,
    file: RaftFileConfig,
    defaults: BrokerRaftConfig,
) -> bool {
    &&& r.enabled == flag_choice(env, "LMX_RAFT_ENABLED"@, file.enabled, defaults.enabled)
    &&& r.node_id@ == match text_choice(
        env,
        "LMX_RAFT_NODE_ID"@,
        protocol::shown_text(file.node_id),
    ) {
        Some(id) => id,
        None => defaults.node_id@,
    }
    &&& protocol::shown_text(r.bind_addr) == match text_choice(
        env,
        "LMX_RAFT_BIND_ADDR"@,
        protocol::shown_text(file.bind_addr),
    ) {
        Some(a) => Some(a),
        None => protocol::shown_text(defaults.bind_addr),
    }
    &&& protocol::shown_text(r.advertise_addr) == match text_choice(
        env,
        "LMX_RAFT_ADVERTISE_ADDR"@,
        protocol::shown_text(file.advertise_addr),
    ) {
        Some(a) => Some(a),
        None => protocol::shown_text(defaults.advertise_addr),
    }
    &&& r.data_dir@ == match path_choice(
        env,
        "LMX_RAFT_DATA_DIR"@,
        protocol::shown_text(file.data_dir),
    ) {
        Some(d) => d,
        None => defaults.data_dir@,
    }
    &&& r.data_dir_lock == flag_choice(
        env,
        "LMX_RAFT_DATA_DIR_LOCK"@,
        file.data_dir_lock,
        defaults.data_dir_lock,
    )
    &&& r.heartbeat_interval == number_choice(
        env,
        "LMX_RAFT_HEARTBEAT_INTERVAL_MS"@,
        u64::MAX as nat,
        shown_u64(file.heartbeat_interval_ms),
        defaults.heartbeat_interval as nat,
    )
    &&& r.election_timeout_min == number_choice(
        env,
        "LMX_RAFT_ELECTION_TIMEOUT_MIN_MS"@,
        u64::MAX as nat,
        shown_u64(file.election_timeout_min_ms),
        defaults.election_timeout_min as nat,
    )
    &&& r.election_timeout_max == number_choice(
        env,
        "LMX_RAFT_ELECTION_TIMEOUT_MAX_MS"@,
        u64::MAX as nat,
        shown_u64(file.election_timeout_max_ms),
        defaults.election_timeout_max as nat,
    )
    &&& r.snapshot_interval == number_choice(
        env,
        "LMX_RAFT_SNAPSHOT_INTERVAL_MS"@,
        u64::MAX as nat,
        shown_u64(file.snapshot_interval_ms),
        defaults.snapshot_interval as nat,
    )
    &&& r.snapshot_max_log_entries == number_choice(
        env,
        "LMX_RAFT_SNAPSHOT_MAX_LOG_ENTRIES"@,
        u64::MAX as nat,
        shown_u64(file.snapshot_max_log_entries),
        defaults.snapshot_max_log_entries as nat,
    )
    &&& r.snapshot_max_log_bytes == number_choice(
        env,
        "LMX_RAFT_SNAPSHOT_MAX_LOG_BYTES"@,
        u64::MAX as nat,
        shown_u64(file.snapshot_max_log_bytes),
        defaults.snapshot_max_log_bytes as nat,
    )
    &&& r.trailing_log_entries == number_choice(
        env,
        "LMX_RAFT_TRAILING_LOG_ENTRIES"@,
        u64::MAX as nat,
        shown_u64(file.trailing_log_entries),
        defaults.trailing_log_entries as nat,
    )
    &&& r.append_entries_max_entries == number_choice(
        env,
        "LMX_RAFT_APPEND_ENTRIES_MAX_ENTRIES"@,
        usize::MAX as nat,
        shown_usize(file.append_entries_max_entries),
        defaults.append_entries_max_entries as nat,
    )
    &&& r.append_entries_max_bytes == number_choice(
        env,
        "LMX_RAFT_APPEND_ENTRIES_MAX_BYTES"@,
        usize::MAX as nat,
        shown_usize(file.append_entries_max_bytes),
        defaults.append_entries_max_bytes as nat,
    )
    &&& r.append_entries_max_inline_batches == number_choice(
        env,
        "LMX_RAFT_APPEND_ENTRIES_MAX_INLINE_BATCHES"@,
        usize::MAX as nat,
        shown_usize(file.append_entries_max_inline_batches),
        defaults.append_entries_max_inline_batches as nat,
    )
    &&& r.install_snapshot_chunk_bytes == number_choice(
        env,
        "LMX_RAFT_INSTALL_SNAPSHOT_CHUNK_BYTES"@,
        usize::MAX as nat,
        shown_usize(file.install_snapshot_chunk_bytes),
        defaults.install_snapshot_chunk_bytes as nat,
    )
    &&& r.install_snapshot_max_staged_bytes == number_choice(
        env,
        "LMX_RAFT_INSTALL_SNAPSHOT_MAX_STAGED_BYTES"@,
        u64::MAX as nat,
        shown_u64(file.install_snapshot_max_staged_bytes),
        defaults.install_snapshot_max_staged_bytes as nat,
    )
    &&& r.install_snapshot_max_staged_transfers == number_choice(
        env,
        "LMX_RAFT_INSTALL_SNAPSHOT_MAX_STAGED_TRANSFERS"@,
        usize::MAX as nat,
        shown_usize(file.install_snapshot_max_staged_transfers),
        defaults.install_snapshot_max_staged_transfers as nat,
    )
    &&& r.install_snapshot_stale_transfer_after == number_choice(
        env,
        "LMX_RAFT_INSTALL_SNAPSHOT_STALE_TRANSFER_MS"@,
        u64::MAX as nat,
        shown_u64(file.install_snapshot_stale_transfer_ms),
        defaults.install_snapshot_stale_transfer_after as nat,
    )
    &&& r.client_batch_max_entries == number_choice(
        env,
        "LMX_RAFT_CLIENT_BATCH_MAX_ENTRIES"@,
        usize::MAX as nat,
        shown_usize(file.client_batch_max_entries),
        defaults.client_batch_max_entries as nat,
    )
    &&& r.client_pipeline_max_batches == number_choice(
        env,
        "LMX_RAFT_CLIENT_PIPELINE_MAX_BATCHES"@,
        usize::MAX as nat,
        shown_usize(file.client_pipeline_max_batches),
        defaults.client_pipeline_max_batches as nat,
    )
    &&& r.client_batch_max_pending == number_choice(
        env,
        "LMX_RAFT_CLIENT_BATCH_MAX_PENDING"@,
        usize::MAX as nat,
        shown_usize(file.client_batch_max_pending),
        defaults.client_batch_max_pending as nat,
    )
    &&& r.client_batch_max_delay == number_choice(
        env,
        "LMX_RAFT_CLIENT_BATCH_MAX_DELAY_MS"@,
        u64::MAX as nat,
        shown_u64(file.client_batch_max_delay_ms),
        defaults.client_batch_max_delay as nat,
    )
    &&& r.client_response_cache_max_entries == number_choice(
        env,
        "LMX_RAFT_CLIENT_RESPONSE_CACHE_MAX_ENTRIES"@,
        usize::MAX as nat,
        shown_usize(file.client_response_cache_max_entries),
        defaults.client_response_cache_max_entries as nat,
    )
    &&& r.proxy_retry_budget == number_choice(
        env,
        "LMX_RAFT_PROXY_RETRY_BUDGET_MS"@,
        u64::MAX as nat,
        shown_u64(file.proxy_retry_budget_ms),
        defaults.proxy_retry_budget as nat,
    )
    &&& r.sync_log == flag_choice(env, "LMX_RAFT_SYNC_LOG"@, file.sync_log, defaults.sync_log)
    &&& protocol::shown_text(r.peer_token) == text_choice(
        env,
        "LMX_RAFT_PEER_TOKEN"@,
        protocol::shown_text(file.peer_token),
    )
    &&& shown_peers(r.peers@) == shown_peers(file.peers@)
    &&& r.broker == defaults.broker
}

/// How the broker is replicated. The bind address is resolved by the transport;
/// see `raft_addresses`.
pub fn build_raft_config(env: &EnvMap, file: &RaftFileConfig, defaults: BrokerRaftConfig) -> (r:
    BrokerRaftConfig)
    ensures
        raft_built(r, env@, *file, defaults),
{
    let node_id = match pick_text(env, "LMX_RAFT_NODE_ID", &file.node_id) {
        Some(id) => id,
        None => defaults.node_id,
    };
    let bind_addr = match pick_text(env, "LMX_RAFT_BIND_ADDR", &file.bind_addr) {
        Some(a) => Some(a),
        None => defaults.bind_addr,
    };
    let advertise_addr = match pick_text(env, "LMX_RAFT_ADVERTISE_ADDR", &file.advertise_addr) {
        Some(a) => Some(a),
        None => defaults.advertise_addr,
    };
    let data_dir = match pick_path(env, "LMX_RAFT_DATA_DIR", &file.data_dir) {
        Some(d) => d,
        None => defaults.data_dir,
    };
    BrokerRaftConfig {
        enabled: pick_flag(env, "LMX_RAFT_ENABLED", file.enabled, defaults.enabled),
        node_id,
        bind_addr,
        advertise_addr,
        data_dir,
        data_dir_lock: pick_flag(
            env,
            "LMX_RAFT_DATA_DIR_LOCK",
            file.data_dir_lock,
            defaults.data_dir_lock,
        ),
        heartbeat_interval: pick_u64(
            env,
            "LMX_RAFT_HEARTBEAT_INTERVAL_MS",
            file.heartbeat_interval_ms,
            defaults.heartbeat_interval,
        ),
        election_timeout_min: pick_u64(
            env,
            "LMX_RAFT_ELECTION_TIMEOUT_MIN_MS",
            file.election_timeout_min_ms,
            defaults.election_timeout_min,
        ),
        election_timeout_max: pick_u64(
            env,
            "LMX_RAFT_ELECTION_TIMEOUT_MAX_MS",
            file.election_timeout_max_ms,
            defaults.election_timeout_max,
        ),
        snapshot_interval: pick_u64(
            env,
            "LMX_RAFT_SNAPSHOT_INTERVAL_MS",
            file.snapshot_interval_ms,
            defaults.snapshot_interval,
        ),
        snapshot_max_log_entries: pick_u64(
            env,
            "LMX_RAFT_SNAPSHOT_MAX_LOG_ENTRIES",
            file.snapshot_max_log_entries,
            defaults.snapshot_max_log_entries,
        ),
        snapshot_max_log_bytes: pick_u64(
            env,
            "LMX_RAFT_SNAPSHOT_MAX_LOG_BYTES",
            file.snapshot_max_log_bytes,
            defaults.snapshot_max_log_bytes,
        ),
        trailing_log_entries: pick_u64(
            env,
            "LMX_RAFT_TRAILING_LOG_ENTRIES",
            file.trailing_log_entries,
            defaults.trailing_log_entries,
        ),
        append_entries_max_entries: pick_usize(
            env,
            "LMX_RAFT_APPEND_ENTRIES_MAX_ENTRIES",
            file.append_entries_max_entries,
            defaults.append_entries_max_entries,
        ),
        append_entries_max_bytes: pick_usize(
            env,
            "LMX_RAFT_APPEND_ENTRIES_MAX_BYTES",
            file.append_entries_max_bytes,
            defaults.append_entries_max_bytes,
        ),
        append_entries_max_inline_batches: pick_usize(
            env,
            "LMX_RAFT_APPEND_ENTRIES_MAX_INLINE_BATCHES",
            file.append_entries_max_inline_batches,
            defaults.append_entries_max_inline_batches,
        ),
        install_snapshot_chunk_bytes: pick_usize(
            env,
            "LMX_RAFT_INSTALL_SNAPSHOT_CHUNK_BYTES",
            file.install_snapshot_chunk_bytes,
            defaults.install_snapshot_chunk_bytes,
        ),
        install_snapshot_max_staged_bytes: pick_u64(
            env,
            "LMX_RAFT_INSTALL_SNAPSHOT_MAX_STAGED_BYTES",
            file.install_snapshot_max_staged_bytes,
            defaults.install_snapshot_max_staged_bytes,
        ),
        install_snapshot_max_staged_transfers: pick_usize(
            env,
            "LMX_RAFT_INSTALL_SNAPSHOT_MAX_STAGED_TRANSFERS",
            file.install_snapshot_max_staged_transfers,
            defaults.install_snapshot_max_staged_transfers,
        ),
        install_snapshot_stale_transfer_after: pick_u64(
            env,
            "LMX_RAFT_INSTALL_SNAPSHOT_STALE_TRANSFER_MS",
            file.install_snapshot_stale_transfer_ms,
            defaults.install_snapshot_stale_transfer_after,
        ),
        client_batch_max_entries: pick_usize(
            env,
            "LMX_RAFT_CLIENT_BATCH_MAX_ENTRIES",
            file.client_batch_max_entries,
            defaults.client_batch_max_entries,
        ),
        client_pipeline_max_batches: pick_usize(
            env,
            "LMX_RAFT_CLIENT_PIPELINE_MAX_BATCHES",
            file.client_pipeline_max_batches,
            defaults.client_pipeline_max_batches,
        ),
        client_batch_max_pending: pick_usize(
            env,
            "LMX_RAFT_CLIENT_BATCH_MAX_PENDING",
            file.client_batch_max_pending,
            defaults.client_batch_max_pending,
        ),
        client_batch_max_delay: pick_u64(
            env,
            "LMX_RAFT_CLIENT_BATCH_MAX_DELAY_MS",
            file.client_batch_max_delay_ms,
            defaults.client_batch_max_delay,
        ),
        client_response_cache_max_entries: pick_usize(
            env,
            "LMX_RAFT_CLIENT_RESPONSE_CACHE_MAX_ENTRIES",
            file.client_response_cache_max_entries,
            defaults.client_response_cache_max_entries,
        ),
        proxy_retry_budget: pick_u64(
            env,
            "LMX_RAFT_PROXY_RETRY_BUDGET_MS",
            file.proxy_retry_budget_ms,
            defaults.proxy_retry_budget,
        ),
        sync_log: pick_flag(env, "LMX_RAFT_SYNC_LOG", file.sync_log, defaults.sync_log),
        peer_token: pick_text(env, "LMX_RAFT_PEER_TOKEN", &file.peer_token),
        peers: copied_peers(&file.peers),
        broker: defaults.broker,
    }
}

/// The address that the replication is asked to bind to, to be resolved. The
/// default is taken as it is.
pub fn raft_addresses(env: &EnvMap, file: &RaftFileConfig) -> (r: Vec<BindAddr>)
    ensures
        shown_addresses(r@) == match text_choice(
            env@,
            "LMX_RAFT_BIND_ADDR"@,
            protocol::shown_text(file.bind_addr),
        ) {
            Some(a) => seq![(a, "raft.bind_addr"@)],
            None => seq![],
        },
{
    let mut r: Vec<BindAddr> = Vec::new();
    if let Some(a) = pick_text(env, "LMX_RAFT_BIND_ADDR", &file.bind_addr) {
        let ghost value = a@;
        r.push(BindAddr { value: a, from: "raft.bind_addr" });
        assert(shown_addresses(r@) =~= seq![(value, "raft.bind_addr"@)]);
    } else {
        assert(shown_addresses(r@) =~= seq![]);
    }
    r
}

/// The whole configuration.
#[derive(Debug, Clone)]
pub struct RuntimeConfig {
    pub server: ServerConfig,
    pub raft: BrokerRaftConfig,
    pub source_path: Option<String>,
}

/// The whole configuration. Server and replication share that of the broker.
pub fn build_runtime_config(
    env: &EnvMap,
    file: &ConfigFile,
    source_path: Option<String>,
    defaults: BrokerRaftConfig,
) -> (r: RuntimeConfig)
    ensures
        broker_built(r.server.broker, env@, file.broker),
        server_built(r.server, env@, file.server, r.server.broker),
        r.raft.broker == r.server.broker,
        raft_built(
            (BrokerRaftConfig { broker: defaults.broker, ..r.raft }),
            env@,
            file.raft,
            defaults,
        ),
        r.source_path == source_path,
{
    let broker = build_broker_config(env, &file.broker);
    let server = build_server_config(env, &file.server, broker);
    let mut raft = build_raft_config(env, &file.raft, defaults);
    raft.broker = broker;
    RuntimeConfig { server, raft, source_path }
}

/// The places of the configuration file, by precedence.
pub fn default_config_path(i: usize) -> (r: Option<&'static str>)
    ensures
        scan::shown_str(r) == default_path(i as int),
{
    if i == 0 {
        Some("lmx.toml")
    } else if i == 1 {
        Some("/etc/dd-rust-network-mutex/lmx.toml")
    } else {
        None
    }
}

/// The places of the configuration file, by precedence.
pub open spec fn default_path(i: int) -> Option<Seq<char>> {
    if i == 0 {
        Some("lmx.toml"@)
    } else if i == 1 {
        Some("/etc/dd-rust-network-mutex/lmx.toml"@)
    } else {
        None
    }
}

/// Which configuration file is read: one named explicitly, whether it is there
/// or not, else the first default place that holds one.
pub fn config_file(explicit: Option<String>, first_exists: bool, second_exists: bool) -> (r: Option<
    String,
>)
    ensures
        protocol::shown_text(r) == match explicit {
            Some(path) => Some(path@),
            None => if first_exists {
                default_path(0)
            } else if second_exists {
                default_path(1)
            } else {
                None
            },
        },
{
    match explicit {
        Some(path) => Some(path),
        None => if first_exists {
            Some(String::from_str("lmx.toml"))
        } else if second_exists {
            Some(String::from_str("/etc/dd-rust-network-mutex/lmx.toml"))
        } else {
            None
        },
    }
}

} // verus!
