//! What every setting comes from: the environment before the file, the file before the
//! default.

use crate::broker::BrokerConfig;
use crate::config;
use crate::config::{
    BrokerFileConfig, BrokerRaftConfig, RaftFileConfig, ServerConfig, ServerFileConfig,
};
use crate::scan;
use crate::text;
use vstd::prelude::*;

verus! {

/// What the environment holds under `key`, without the white space around it; empty if
/// it holds nothing.
pub open spec fn given(env: Map<Seq<char>, Seq<char>>, key: Seq<char>) -> Seq<char> {
    if env.dom().contains(key) {
        scan::trimmed(env[key])
    } else {
        Seq::empty()
    }
}

/// A number is what the environment gives, where that is a number in range; else what
/// the file gives; else the default.
pub open spec fn number_settled(
    value: nat,
    env: Map<Seq<char>, Seq<char>>,
    key: Seq<char>,
    max: nat,
    in_file: bool,
    file: nat,
    default: nat,
) -> bool {
    let read = scan::number(given(env, key), max);
    &&& read is Some ==> value == read->0
    &&& read is None && in_file ==> value == file
    &&& read is None && !in_file ==> value == default
}

/// A flag is on if the environment gives one of the words for it, and off if it gives
/// anything else; else it is what the file gives; else the default.
pub open spec fn flag_settled(
    value: bool,
    env: Map<Seq<char>, Seq<char>>,
    key: Seq<char>,
    file: Option<bool>,
    default: bool,
) -> bool {
    &&& given(env, key).len() > 0 ==> (value <==> {
        let word = given(env, key);
        word == "1"@ || word == "true"@ || word == "TRUE"@ || word == "yes"@ || word == "YES"@
    })
    &&& given(env, key).len() == 0 && file is Some ==> value == file->0
    &&& given(env, key).len() == 0 && file is None ==> value == default
}

/// A text is what the environment gives; else what is left of the file's after trimming,
/// if anything is; else the default.
pub open spec fn text_settled(
    value: Option<String>,
    env: Map<Seq<char>, Seq<char>>,
    key: Seq<char>,
    file: Option<String>,
    default: Option<Seq<char>>,
) -> bool {
    let written = if file is Some {
        scan::trimmed(file->0@)
    } else {
        Seq::empty()
    };
    &&& given(env, key).len() > 0 ==> value is Some && value->0@ == given(env, key)
    &&& given(env, key).len() == 0 && written.len() > 0 ==> value is Some && value->0@ == written
    &&& given(env, key).len() == 0 && written.len() == 0 ==> (value is Some <==> default is Some)
        && (value is Some ==> value->0@ == default->0)
}

/// A path is what the environment gives; else what the file gives, as it stands.
pub open spec fn path_settled(
    value: Option<String>,
    env: Map<Seq<char>, Seq<char>>,
    key: Seq<char>,
    file: Option<String>,
) -> bool {
    &&& given(env, key).len() > 0 ==> value is Some && value->0@ == given(env, key)
    &&& given(env, key).len() == 0 ==> (value is Some <==> file is Some) && (value is Some
        ==> value->0@ == file->0@)
}

/// A number that is written into the environment is the one that counts, whatever file
/// and default say; one that is too large does not count at all.
pub proof fn the_environment_wins(
    env: Map<Seq<char>, Seq<char>>,
    key: Seq<char>,
    n: nat,
    max: nat,
    file: Option<nat>,
    default: nat,
)
    requires
        given(env, key) == text::decimal_text(n),
    ensures
        n <= max ==> config::number_choice(env, key, max, file, default) == n,
        n > max ==> config::number_choice(env, key, max, file, default)
            == config::number_choice(env.remove(key), key, max, file, default),
{
    scan::numbers_are_read_as_written(n, max);
    assert(env.dom().contains(key)) by {
        if !env.dom().contains(key) {
            scan::numbers_are_read_as_written(n, n);
            assert(scan::number(Seq::<char>::empty(), n) is None);
        }
    }
    scan::numbers_are_rows_of_digits(text::decimal_text(n), n);
    scan::numbers_are_read_as_written(n, n);
}

/// What the broker is configured to: environment, file and default decide over the
/// lifetime of a lock, how many may hold a key at once, and how many at most, how often
/// deadlines are swept, and how long idle keys are kept. At least one may hold a key, even
/// if none is set.
pub proof fn the_broker_is_configured(
    r: BrokerConfig,
    env: Map<Seq<char>, Seq<char>>,
    file: BrokerFileConfig,
)
    requires
        config::broker_built(r, env, file),
    ensures
        number_settled(
            r.default_ttl as nat,
            env,
            "LMX_DEFAULT_TTL_MS"@,
            u64::MAX as nat,
            file.default_ttl_ms is Some,
            file.default_ttl_ms->0 as nat,
            4000,
        ),
        number_settled(
            r.ttl_sweep_interval as nat,
            env,
            "LMX_TTL_SWEEP_INTERVAL_MS"@,
            u64::MAX as nat,
            file.ttl_sweep_interval_ms is Some,
            file.ttl_sweep_interval_ms->0 as nat,
            10,
        ),
        number_settled(
            r.idle_key_grace as nat,
            env,
            "LMX_IDLE_KEY_GRACE_MS"@,
            u64::MAX as nat,
            file.idle_key_grace_ms is Some,
            file.idle_key_grace_ms->0 as nat,
            60000,
        ),
        r.max_lock_holders > 0 && r.max_concurrency_cap > 0,
        number_settled(
            r.max_lock_holders as nat,
            env,
            "LMX_MAX_LOCK_HOLDERS"@,
            u32::MAX as nat,
            file.max_lock_holders is Some,
            file.max_lock_holders->0 as nat,
            1,
        ) || (r.max_lock_holders == 1 && number_settled(
            0,
            env,
            "LMX_MAX_LOCK_HOLDERS"@,
            u32::MAX as nat,
            file.max_lock_holders is Some,
            file.max_lock_holders->0 as nat,
            1,
        )),
        number_settled(
            r.max_concurrency_cap as nat,
            env,
            "LMX_MAX_CONCURRENCY_CAP"@,
            u32::MAX as nat,
            file.max_concurrency_cap is Some,
            file.max_concurrency_cap->0 as nat,
            crate::protocol::DEFAULT_MAX_CONCURRENCY_CAP as nat,
        ) || (r.max_concurrency_cap == 1 && number_settled(
            0,
            env,
            "LMX_MAX_CONCURRENCY_CAP"@,
            u32::MAX as nat,
            file.max_concurrency_cap is Some,
            file.max_concurrency_cap->0 as nat,
            crate::protocol::DEFAULT_MAX_CONCURRENCY_CAP as nat,
        )),
{
}

/// What the server is configured to. It listens over TCP and HTTP unless that is
/// switched off, on a status port only if one is set, and serves TLS only if certificate
/// and key are both set.
pub proof fn the_server_is_configured(
    r: ServerConfig,
    env: Map<Seq<char>, Seq<char>>,
    file: ServerFileConfig,
    broker: BrokerConfig,
)
    requires
        config::server_built(r, env, file, broker),
    ensures
        flag_settled(r.tcp_bind is None, env, "LMX_DISABLE_TCP"@, file.disable_tcp, false),
        flag_settled(r.http_bind is None, env, "LMX_DISABLE_HTTP"@, file.disable_http, false),
        flag_settled(r.tcp_nodelay, env, "LMX_TCP_NODELAY"@, file.tcp_nodelay, true),
        flag_settled(r.tcp_quickack, env, "LMX_TCP_QUICKACK"@, file.tcp_quickack, true),
        path_settled(r.uds_path, env, "LMX_UDS_PATH"@, file.uds_path),
        text_settled(r.auth_token, env, "LMX_AUTH_TOKEN"@, file.auth_token, None),
        r.broker == broker,
        r.tls is Some ==> path_settled(
            Some(r.tls->0.cert_path),
            env,
            "LMX_TLS_CERT"@,
            file.tls_cert,
        ) && path_settled(Some(r.tls->0.key_path), env, "LMX_TLS_KEY"@, file.tls_key),
        r.tls is None <==> (given(env, "LMX_TLS_CERT"@).len() == 0 && file.tls_cert is None) || (
        given(env, "LMX_TLS_KEY"@).len() == 0 && file.tls_key is None),
{
    scan::five_words_switch_a_flag_on(given(env, "LMX_DISABLE_TCP"@));
    scan::five_words_switch_a_flag_on(given(env, "LMX_DISABLE_HTTP"@));
    scan::five_words_switch_a_flag_on(given(env, "LMX_TCP_NODELAY"@));
    scan::five_words_switch_a_flag_on(given(env, "LMX_TCP_QUICKACK"@));
}

/// The port that environment, file and default make out.
pub open spec fn port_settled(
    port: nat,
    env: Map<Seq<char>, Seq<char>>,
    key: Seq<char>,
    file: Option<u16>,
    default: nat,
) -> bool {
    number_settled(port, env, key, u16::MAX as nat, file is Some, file->0 as nat, default)
}

/// What the server listens on: the host that is set, or every interface, and the port
/// that is set for each listener, or its own.
pub proof fn the_server_listens_where_it_is_told(
    r: ServerConfig,
    env: Map<Seq<char>, Seq<char>>,
    file: ServerFileConfig,
    broker: BrokerConfig,
    host: String,
)
    requires
        config::server_built(r, env, file, broker),
        text_settled(Some(host), env, "LMX_BIND_HOST"@, file.bind_host, Some("0.0.0.0"@)),
    ensures
        r.tcp_bind is Some ==> forall|port: nat| #[trigger]
            port_settled(port, env, "LMX_TCP_PORT"@, file.tcp_port, 6970) ==> r.tcp_bind->0@ == host@
                + ":"@ + text::decimal_text(port),
        r.http_bind is Some ==> forall|port: nat| #[trigger]
            port_settled(port, env, "LMX_HTTP_PORT"@, file.http_port, 6971) ==> r.http_bind->0@
                == host@ + ":"@ + text::decimal_text(port),
        r.status_bind is Some ==> forall|port: nat| #[trigger]
            port_settled(port, env, "LMX_STATUS_PORT"@, file.status_port, 0) ==> r.status_bind->0@
                == host@ + ":"@ + text::decimal_text(port),
        r.status_bind is None <==> scan::number(given(env, "LMX_STATUS_PORT"@), u16::MAX as nat)
            is None && file.status_port is None,
{
    assert(config::bind_host(env, file) == host@);
}

/// What the replication is configured to, its switches and names.
pub proof fn the_replication_is_configured(
    r: BrokerRaftConfig,
    env: Map<Seq<char>, Seq<char>>,
    file: RaftFileConfig,
    defaults: BrokerRaftConfig,
)
    requires
        config::raft_built(r, env, file, defaults),
    ensures
        flag_settled(r.enabled, env, "LMX_RAFT_ENABLED"@, file.enabled, defaults.enabled),
        flag_settled(
            r.data_dir_lock,
            env,
            "LMX_RAFT_DATA_DIR_LOCK"@,
            file.data_dir_lock,
            defaults.data_dir_lock,
        ),
        flag_settled(r.sync_log, env, "LMX_RAFT_SYNC_LOG"@, file.sync_log, defaults.sync_log),
        text_settled(
            Some(r.node_id),
            env,
            "LMX_RAFT_NODE_ID"@,
            file.node_id,
            Some(defaults.node_id@),
        ),
        defaults.bind_addr is Some ==> text_settled(
            r.bind_addr,
            env,
            "LMX_RAFT_BIND_ADDR"@,
            file.bind_addr,
            Some(defaults.bind_addr->0@),
        ),
        defaults.bind_addr is None ==> text_settled(
            r.bind_addr,
            env,
            "LMX_RAFT_BIND_ADDR"@,
            file.bind_addr,
            None,
        ),
        defaults.advertise_addr is Some ==> text_settled(
            r.advertise_addr,
            env,
            "LMX_RAFT_ADVERTISE_ADDR"@,
            file.advertise_addr,
            Some(defaults.advertise_addr->0@),
        ),
        defaults.advertise_addr is None ==> text_settled(
            r.advertise_addr,
            env,
            "LMX_RAFT_ADVERTISE_ADDR"@,
            file.advertise_addr,
            None,
        ),
        file.data_dir is Some || given(env, "LMX_RAFT_DATA_DIR"@).len() > 0 ==> path_settled(
            Some(r.data_dir),
            env,
            "LMX_RAFT_DATA_DIR"@,
            file.data_dir,
        ),
        file.data_dir is None && given(env, "LMX_RAFT_DATA_DIR"@).len() == 0 ==> r.data_dir@
            == defaults.data_dir@,
        text_settled(r.peer_token, env, "LMX_RAFT_PEER_TOKEN"@, file.peer_token, None),
        r.peers@.len() == file.peers@.len(),
        forall|i: int|
            0 <= i < r.peers@.len() ==> (#[trigger] r.peers@[i]).id@ == file.peers@[i].id@
                && r.peers@[i].addr@ == file.peers@[i].addr@,
{
    scan::five_words_switch_a_flag_on(given(env, "LMX_RAFT_ENABLED"@));
    scan::five_words_switch_a_flag_on(given(env, "LMX_RAFT_DATA_DIR_LOCK"@));
    scan::five_words_switch_a_flag_on(given(env, "LMX_RAFT_SYNC_LOG"@));
    assert(config::shown_peers(r.peers@).len() == config::shown_peers(file.peers@).len());
    assert forall|i: int| 0 <= i < r.peers@.len() implies (#[trigger] r.peers@[i]).id@
        == file.peers@[i].id@ && r.peers@[i].addr@ == file.peers@[i].addr@ by {
        assert(config::shown_peers(r.peers@)[i] == config::shown_peers(file.peers@)[i]);
    }
}

/// What the replication is configured to, its elections, its log and its snapshots.
pub proof fn the_log_is_configured(
    r: BrokerRaftConfig,
    env: Map<Seq<char>, Seq<char>>,
    file: RaftFileConfig,
    defaults: BrokerRaftConfig,
)
    requires
        config::raft_built(r, env, file, defaults),
    ensures
        number_settled(
            r.heartbeat_interval as nat,
            env,
            "LMX_RAFT_HEARTBEAT_INTERVAL_MS"@,
            u64::MAX as nat,
            file.heartbeat_interval_ms is Some,
            file.heartbeat_interval_ms->0 as nat,
            defaults.heartbeat_interval as nat,
        ),
        number_settled(
            r.election_timeout_min as nat,
            env,
            "LMX_RAFT_ELECTION_TIMEOUT_MIN_MS"@,
            u64::MAX as nat,
            file.election_timeout_min_ms is Some,
            file.election_timeout_min_ms->0 as nat,
            defaults.election_timeout_min as nat,
        ),
        number_settled(
            r.election_timeout_max as nat,
            env,
            "LMX_RAFT_ELECTION_TIMEOUT_MAX_MS"@,
            u64::MAX as nat,
            file.election_timeout_max_ms is Some,
            file.election_timeout_max_ms->0 as nat,
            defaults.election_timeout_max as nat,
        ),
        number_settled(
            r.snapshot_interval as nat,
            env,
            "LMX_RAFT_SNAPSHOT_INTERVAL_MS"@,
            u64::MAX as nat,
            file.snapshot_interval_ms is Some,
            file.snapshot_interval_ms->0 as nat,
            defaults.snapshot_interval as nat,
        ),
        number_settled(
            r.snapshot_max_log_entries as nat,
            env,
            "LMX_RAFT_SNAPSHOT_MAX_LOG_ENTRIES"@,
            u64::MAX as nat,
            file.snapshot_max_log_entries is Some,
            file.snapshot_max_log_entries->0 as nat,
            defaults.snapshot_max_log_entries as nat,
        ),
        number_settled(
            r.snapshot_max_log_bytes as nat,
            env,
            "LMX_RAFT_SNAPSHOT_MAX_LOG_BYTES"@,
            u64::MAX as nat,
            file.snapshot_max_log_bytes is Some,
            file.snapshot_max_log_bytes->0 as nat,
            defaults.snapshot_max_log_bytes as nat,
        ),
        number_settled(
            r.trailing_log_entries as nat,
            env,
            "LMX_RAFT_TRAILING_LOG_ENTRIES"@,
            u64::MAX as nat,
            file.trailing_log_entries is Some,
            file.trailing_log_entries->0 as nat,
            defaults.trailing_log_entries as nat,
        ),
        number_settled(
            r.append_entries_max_entries as nat,
            env,
            "LMX_RAFT_APPEND_ENTRIES_MAX_ENTRIES"@,
            usize::MAX as nat,
            file.append_entries_max_entries is Some,
            file.append_entries_max_entries->0 as nat,
            defaults.append_entries_max_entries as nat,
        ),
        number_settled(
            r.append_entries_max_bytes as nat,
            env,
            "LMX_RAFT_APPEND_ENTRIES_MAX_BYTES"@,
            usize::MAX as nat,
            file.append_entries_max_bytes is Some,
            file.append_entries_max_bytes->0 as nat,
            defaults.append_entries_max_bytes as nat,
        ),
        number_settled(
            r.append_entries_max_inline_batches as nat,
            env,
            "LMX_RAFT_APPEND_ENTRIES_MAX_INLINE_BATCHES"@,
            usize::MAX as nat,
            file.append_entries_max_inline_batches is Some,
            file.append_entries_max_inline_batches->0 as nat,
            defaults.append_entries_max_inline_batches as nat,
        ),
{
}

/// What the replication is configured to, its transfers and what its clients may ask.
pub proof fn the_transfers_are_configured(
    r: BrokerRaftConfig,
    env: Map<Seq<char>, Seq<char>>,
    file: RaftFileConfig,
    defaults: BrokerRaftConfig,
)
    requires
        config::raft_built(r, env, file, defaults),
    ensures
        number_settled(
            r.install_snapshot_chunk_bytes as nat,
            env,
            "LMX_RAFT_INSTALL_SNAPSHOT_CHUNK_BYTES"@,
            usize::MAX as nat,
            file.install_snapshot_chunk_bytes is Some,
            file.install_snapshot_chunk_bytes->0 as nat,
            defaults.install_snapshot_chunk_bytes as nat,
        ),
        number_settled(
            r.install_snapshot_max_staged_bytes as nat,
            env,
            "LMX_RAFT_INSTALL_SNAPSHOT_MAX_STAGED_BYTES"@,
            u64::MAX as nat,
            file.install_snapshot_max_staged_bytes is Some,
            file.install_snapshot_max_staged_bytes->0 as nat,
            defaults.install_snapshot_max_staged_bytes as nat,
        ),
        number_settled(
            r.install_snapshot_max_staged_transfers as nat,
            env,
            "LMX_RAFT_INSTALL_SNAPSHOT_MAX_STAGED_TRANSFERS"@,
            usize::MAX as nat,
            file.install_snapshot_max_staged_transfers is Some,
            file.install_snapshot_max_staged_transfers->0 as nat,
            defaults.install_snapshot_max_staged_transfers as nat,
        ),
        number_settled(
            r.install_snapshot_stale_transfer_after as nat,
            env,
            "LMX_RAFT_INSTALL_SNAPSHOT_STALE_TRANSFER_MS"@,
            u64::MAX as nat,
            file.install_snapshot_stale_transfer_ms is Some,
            file.install_snapshot_stale_transfer_ms->0 as nat,
            defaults.install_snapshot_stale_transfer_after as nat,
        ),
        number_settled(
            r.client_batch_max_entries as nat,
            env,
            "LMX_RAFT_CLIENT_BATCH_MAX_ENTRIES"@,
            usize::MAX as nat,
            file.client_batch_max_entries is Some,
            file.client_batch_max_entries->0 as nat,
            defaults.client_batch_max_entries as nat,
        ),
        number_settled(
            r.client_pipeline_max_batches as nat,
            env,
            "LMX_RAFT_CLIENT_PIPELINE_MAX_BATCHES"@,
            usize::MAX as nat,
            file.client_pipeline_max_batches is Some,
            file.client_pipeline_max_batches->0 as nat,
            defaults.client_pipeline_max_batches as nat,
        ),
        number_settled(
            r.client_batch_max_pending as nat,
            env,
            "LMX_RAFT_CLIENT_BATCH_MAX_PENDING"@,
            usize::MAX as nat,
            file.client_batch_max_pending is Some,
            file.client_batch_max_pending->0 as nat,
            defaults.client_batch_max_pending as nat,
        ),
        number_settled(
            r.client_batch_max_delay as nat,
            env,
            "LMX_RAFT_CLIENT_BATCH_MAX_DELAY_MS"@,
            u64::MAX as nat,
            file.client_batch_max_delay_ms is Some,
            file.client_batch_max_delay_ms->0 as nat,
            defaults.client_batch_max_delay as nat,
        ),
        number_settled(
            r.client_response_cache_max_entries as nat,
            env,
            "LMX_RAFT_CLIENT_RESPONSE_CACHE_MAX_ENTRIES"@,
            usize::MAX as nat,
            file.client_response_cache_max_entries is Some,
            file.client_response_cache_max_entries->0 as nat,
            defaults.client_response_cache_max_entries as nat,
        ),
        number_settled(
            r.proxy_retry_budget as nat,
            env,
            "LMX_RAFT_PROXY_RETRY_BUDGET_MS"@,
            u64::MAX as nat,
            file.proxy_retry_budget_ms is Some,
            file.proxy_retry_budget_ms->0 as nat,
            defaults.proxy_retry_budget as nat,
        ),
{
}

/// A server can serve if it listens anywhere; a replicated one only if it listens over
/// HTTP.
pub proof fn a_server_must_listen(config: ServerConfig)
    ensures
        config::has_listener(config, true) <==> config.http_bind is Some,
        !config::has_listener(config, false) <==> config.http_bind is None && config.tcp_bind
            is None && config.uds_path is None && config.status_bind is None,
{
}

/// Every address to listen on is checked: as many as there are listeners with one, TCP
/// before HTTP before status.
pub proof fn every_address_is_checked(config: ServerConfig)
    ensures
        ({
            let list = config::addresses(config);
            let tcp: int = if config.tcp_bind is Some {
                1
            } else {
                0
            };
            let http: int = if config.http_bind is Some {
                1
            } else {
                0
            };
            let status: int = if config.status_bind is Some {
                1
            } else {
                0
            };
            &&& list.len() == tcp + http + status
            &&& config.tcp_bind is Some ==> list[0].0 == config.tcp_bind->0@
            &&& config.http_bind is Some ==> list[tcp].0 == config.http_bind->0@
            &&& config.status_bind is Some ==> list[tcp + http].0 == config.status_bind->0@
        }),
{
}

/// The first address that is none is the one complained of, and there are complaints
/// only if there is one.
pub proof fn the_first_fault_is_told(valid: Seq<bool>)
    ensures
        config::first_invalid(valid) is None <==> forall|i: int|
            0 <= i < valid.len() ==> #[trigger] valid[i],
        config::first_invalid(valid) matches Some(i) ==> 0 <= i < valid.len() && !valid[i]
            && forall|j: int| 0 <= j < i ==> #[trigger] valid[j],
    decreases valid.len(),
{
    if valid.len() > 0 {
        let before = valid.drop_last();
        the_first_fault_is_told(before);
        assert forall|i: int| 0 <= i < before.len() implies #[trigger] valid[i] == before[i] by {
        }
        match config::first_invalid(before) {
            Some(i) => {
                assert(!valid[i]);
                assert forall|j: int| 0 <= j < i implies #[trigger] valid[j] by {
                    assert(before[j]);
                }
            },
            None => {
                assert forall|j: int| 0 <= j < before.len() implies #[trigger] valid[j] by {
                    assert(before[j]);
                }
            },
        }
    }
}

} // verus!
