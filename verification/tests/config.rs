//! Configuration from environment and file.

use dd_rust_network_mutex::broker::BrokerConfig;
use dd_rust_network_mutex::cli_flags::env_of;
use dd_rust_network_mutex::config::{
    build_broker_config, build_raft_config, build_runtime_config, build_server_config,
    build_tls_config, check_addresses, check_listeners, config_file, default_config_path, env_bool, env_parse,
    env_string, raft_addresses, server_addresses, BrokerRaftConfig, ConfigError, ConfigFile,
    EnvMap, RaftPeerConfig, ServerConfig,
};

fn env(entries: &[(&str, &str)]) -> EnvMap {
    env_of(
        entries
            .iter()
            .map(|(key, value)| (key.to_string(), value.to_string()))
            .collect(),
    )
}

fn raft_defaults() -> BrokerRaftConfig {
    BrokerRaftConfig {
        enabled: false,
        node_id: "node".into(),
        bind_addr: None,
        advertise_addr: None,
        data_dir: "data".into(),
        data_dir_lock: true,
        heartbeat_interval: 1,
        election_timeout_min: 2,
        election_timeout_max: 3,
        snapshot_interval: 4,
        snapshot_max_log_entries: 5,
        snapshot_max_log_bytes: 6,
        trailing_log_entries: 7,
        append_entries_max_entries: 8,
        append_entries_max_bytes: 9,
        append_entries_max_inline_batches: 10,
        install_snapshot_chunk_bytes: 11,
        install_snapshot_max_staged_bytes: 12,
        install_snapshot_max_staged_transfers: 13,
        install_snapshot_stale_transfer_after: 14,
        client_batch_max_entries: 15,
        client_pipeline_max_batches: 16,
        client_batch_max_pending: 17,
        client_batch_max_delay: 18,
        client_response_cache_max_entries: 19,
        proxy_retry_budget: 20,
        sync_log: true,
        peer_token: None,
        peers: Vec::new(),
        broker: BrokerConfig::default(),
    }
}

/// The number at `path`.
fn number(table: &toml::Value, key: &str) -> Option<u64> {
    table.get(key).and_then(|v| v.as_integer()).map(|n| n as u64)
}

fn size(table: &toml::Value, key: &str) -> Option<usize> {
    number(table, key).map(|n| n as usize)
}

fn flag(table: &toml::Value, key: &str) -> Option<bool> {
    table.get(key).and_then(|v| v.as_bool())
}

fn text(table: &toml::Value, key: &str) -> Option<String> {
    table.get(key).and_then(|v| v.as_str()).map(|s| s.to_string())
}

#[test]
fn parses_raft_peer_quorum_from_toml() {
    let parsed: toml::Value = toml::from_str(
        r#"
        [raft]
        enabled = false
        node_id = "node-1"
        data_dir_lock = false
        append_entries_max_entries = 17
        append_entries_max_bytes = 12345
        append_entries_max_inline_batches = 9
        install_snapshot_chunk_bytes = 54321
        install_snapshot_max_staged_bytes = 654321
        install_snapshot_max_staged_transfers = 5
        install_snapshot_stale_transfer_ms = 1234
        client_batch_max_entries = 19
        client_pipeline_max_batches = 3
        client_batch_max_pending = 77
        client_batch_max_delay_ms = 7
        client_response_cache_max_entries = 55
        proxy_retry_budget_ms = 456
        sync_log = false
        peer_token = "cluster-secret"

        [[raft.peers]]
        id = "node-1"
        addr = "127.0.0.1:7980"

        [[raft.peers]]
        id = "node-2"
        addr = "127.0.0.1:7981"

        [[raft.peers]]
        id = "node-3"
        addr = "127.0.0.1:7982"
        "#,
    )
    .expect("valid toml");
    let table = parsed.get("raft").expect("a raft table");
    let mut file = ConfigFile::new().raft;
    file.enabled = flag(table, "enabled");
    file.node_id = text(table, "node_id");
    file.data_dir_lock = flag(table, "data_dir_lock");
    file.append_entries_max_entries = size(table, "append_entries_max_entries");
    file.append_entries_max_bytes = size(table, "append_entries_max_bytes");
    file.append_entries_max_inline_batches = size(table, "append_entries_max_inline_batches");
    file.install_snapshot_chunk_bytes = size(table, "install_snapshot_chunk_bytes");
    file.install_snapshot_max_staged_bytes = number(table, "install_snapshot_max_staged_bytes");
    file.install_snapshot_max_staged_transfers =
        size(table, "install_snapshot_max_staged_transfers");
    file.install_snapshot_stale_transfer_ms = number(table, "install_snapshot_stale_transfer_ms");
    file.client_batch_max_entries = size(table, "client_batch_max_entries");
    file.client_pipeline_max_batches = size(table, "client_pipeline_max_batches");
    file.client_batch_max_pending = size(table, "client_batch_max_pending");
    file.client_batch_max_delay_ms = number(table, "client_batch_max_delay_ms");
    file.client_response_cache_max_entries = size(table, "client_response_cache_max_entries");
    file.proxy_retry_budget_ms = number(table, "proxy_retry_budget_ms");
    file.sync_log = flag(table, "sync_log");
    file.peer_token = text(table, "peer_token");
    for peer in table.get("peers").and_then(|p| p.as_array()).expect("peers") {
        file.peers.push(RaftPeerConfig {
            id: text(peer, "id").expect("an id"),
            addr: text(peer, "addr").expect("an address"),
        });
    }

    let raft = build_raft_config(&env(&[]), &file, raft_defaults());
    assert_eq!(raft.cluster_size(), 3);
    assert_eq!(raft.quorum_size(), 2);
    assert_eq!(raft.append_entries_max_entries, 17);
    assert!(!raft.data_dir_lock);
    assert_eq!(raft.append_entries_max_bytes, 12345);
    assert_eq!(raft.append_entries_max_inline_batches, 9);
    assert_eq!(raft.install_snapshot_chunk_bytes, 54321);
    assert_eq!(raft.install_snapshot_max_staged_bytes, 654321);
    assert_eq!(raft.install_snapshot_max_staged_transfers, 5);
    assert_eq!(raft.install_snapshot_stale_transfer_after, 1234);
    assert_eq!(raft.client_batch_max_entries, 19);
    assert_eq!(raft.client_pipeline_max_batches, 3);
    assert_eq!(raft.client_batch_max_pending, 77);
    assert_eq!(raft.client_batch_max_delay, 7);
    assert_eq!(raft.client_response_cache_max_entries, 55);
    assert_eq!(raft.proxy_retry_budget, 456);
    assert!(!raft.sync_log);
    assert_eq!(raft.peer_token.as_deref(), Some("cluster-secret"));
    assert_eq!(raft.heartbeat_interval, 1);
    assert_eq!(raft.node_id, "node-1");
}

#[test]
fn settings_win_over_the_file() {
    let mut file = ConfigFile::new();
    file.broker.default_ttl_ms = Some(1);
    file.broker.max_lock_holders = Some(2);
    file.broker.idle_key_grace_ms = Some(3);
    let set = env(&[("LMX_DEFAULT_TTL_MS", "9"), ("LMX_IDLE_KEY_GRACE_MS", "x")]);
    let broker = build_broker_config(&set, &file.broker);
    assert_eq!(broker.default_ttl, 9);
    assert_eq!(broker.max_lock_holders, 2);
    assert_eq!(broker.idle_key_grace, 3);
    assert_eq!(broker.ttl_sweep_interval, 10);
    assert_eq!(broker.max_concurrency_cap, 1_000);

    let none = build_broker_config(&env(&[("LMX_MAX_LOCK_HOLDERS", "0")]), &file.broker);
    assert_eq!(none.max_lock_holders, 1);
}

#[test]
fn the_server_listens_where_it_is_told() {
    let mut file = ConfigFile::new().server;
    let plain = build_server_config(&env(&[]), &file, BrokerConfig::default());
    assert_eq!(plain.tcp_bind.as_deref(), Some("0.0.0.0:6970"));
    assert_eq!(plain.http_bind.as_deref(), Some("0.0.0.0:6971"));
    assert_eq!((plain.status_bind, plain.uds_path, plain.auth_token), (None, None, None));
    assert!(plain.tcp_nodelay && plain.tcp_quickack);
    let default = ServerConfig::default();
    assert_eq!(default.tcp_bind.as_deref(), Some("0.0.0.0:6970"));

    file.disable_http = Some(true);
    file.auth_token = Some("  ".into());
    file.uds_path = Some("/run/lmx.sock".into());
    let set = env(&[
        ("LMX_BIND_HOST", " 127.0.0.1 "),
        ("LMX_TCP_PORT", "70000"),
        ("LMX_STATUS_PORT", "8080"),
        ("LMX_TCP_QUICKACK", "no"),
    ]);
    let built = build_server_config(&set, &file, BrokerConfig::default());
    assert_eq!(built.tcp_bind.as_deref(), Some("127.0.0.1:6970"));
    assert_eq!(built.http_bind, None);
    assert_eq!(built.status_bind.as_deref(), Some("127.0.0.1:8080"));
    assert_eq!(built.auth_token, None);
    assert_eq!(built.uds_path.as_deref(), Some("/run/lmx.sock"));
    assert!(built.tcp_nodelay && !built.tcp_quickack);
}

#[test]
fn both_files_make_tls() {
    let mut file = ConfigFile::new().server;
    file.tls_cert = Some("/cert".into());
    assert!(build_tls_config(&env(&[]), &file).is_none());
    let both = build_tls_config(&env(&[("LMX_TLS_KEY", "/key")]), &file).expect("tls");
    assert_eq!((both.cert_path.as_str(), both.key_path.as_str()), ("/cert", "/key"));
}

#[test]
fn settings_are_read() {
    let set = env(&[("A", " 5 "), ("B", ""), ("C", "YES"), ("D", "on"), ("E", "+7")]);
    assert_eq!(env_string(&set, "A").as_deref(), Some("5"));
    assert_eq!(env_string(&set, "B"), None);
    assert_eq!(env_string(&set, "Z"), None);
    assert_eq!(env_parse(&set, "A", 10), Some(5));
    assert_eq!(env_parse(&set, "A", 4), None);
    assert_eq!(env_parse(&set, "C", 10), None);
    assert_eq!(env_parse(&set, "E", 10), Some(7));
    assert_eq!(env_bool(&set, "C"), Some(true));
    assert_eq!(env_bool(&set, "D"), Some(false));
    assert_eq!(env_bool(&set, "B"), None);
}

#[test]
fn an_address_that_is_none_is_named() {
    let mut file = ConfigFile::new();
    file.server.bind_host = Some("nowhere".into());
    file.raft.bind_addr = Some("also".into());
    let server = build_server_config(&env(&[]), &file.server, BrokerConfig::default());
    let list = server_addresses(&server);
    assert_eq!(list.len(), 2);
    assert!(check_addresses(&list, &vec![true, true]).is_ok());
    let err = check_addresses(&list, &vec![true, false]).unwrap_err();
    assert_eq!(
        err.message(),
        "invalid socket address `nowhere:6971` from server.bind_host/server.http_port"
    );
    let ConfigError::InvalidSocketAddr { value, from } =
        check_addresses(&raft_addresses(&env(&[]), &file.raft), &vec![false]).unwrap_err();
    assert_eq!((value.as_str(), from.as_str()), ("also", "raft.bind_addr"));
    assert!(raft_addresses(&env(&[]), &ConfigFile::new().raft).is_empty());
}

#[test]
fn the_whole_configuration() {
    let set = env(&[("LMX_MAX_LOCK_HOLDERS", "4"), ("LMX_RAFT_ENABLED", "1")]);
    let whole =
        build_runtime_config(&set, &ConfigFile::new(), Some("lmx.toml".into()), raft_defaults());
    assert_eq!(whole.server.broker.max_lock_holders, 4);
    assert_eq!(whole.raft.broker.max_lock_holders, 4);
    assert!(whole.raft.enabled);
    assert_eq!(whole.source_path.as_deref(), Some("lmx.toml"));
}

#[test]
fn places_of_the_file() {
    assert_eq!(default_config_path(0), Some("lmx.toml"));
    assert_eq!(default_config_path(1), Some("/etc/dd-rust-network-mutex/lmx.toml"));
    assert_eq!(default_config_path(2), None);
    assert_eq!(config_file(Some("x".into()), true, true).as_deref(), Some("x"));
    assert_eq!(config_file(None, true, true).as_deref(), Some("lmx.toml"));
    assert_eq!(
        config_file(None, false, true).as_deref(),
        Some("/etc/dd-rust-network-mutex/lmx.toml")
    );
    assert_eq!(config_file(None, false, false), None);
}

#[test]
fn a_server_needs_a_listener() {
    let none = ServerConfig {
        tcp_bind: None,
        http_bind: None,
        ..ServerConfig::default()
    };
    assert_eq!(
        check_listeners(&none, false),
        Err("no listeners configured (set at least one of tcp_bind, uds_path, http_bind, status_bind)")
    );
    let local = ServerConfig { uds_path: Some("/tmp/lmx.sock".into()), ..none };
    assert_eq!(check_listeners(&local, false), Ok(()));
    assert_eq!(
        check_listeners(&local, true),
        Err("BrokerRaft requires http_bind for the LB-facing API")
    );
    assert_eq!(check_listeners(&ServerConfig::default(), true), Ok(()));
}
