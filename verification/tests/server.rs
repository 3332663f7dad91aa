//! What the transports decide: stream sessions, HTTP calls, admin calls, logging
//! and the metrics page.

use dd_rust_network_mutex::broker::BrokerConfig;
use dd_rust_network_mutex::hardened_broker::{AuthorityAllocator, Broker};
use dd_rust_network_mutex::metrics::render;
use dd_rust_network_mutex::ordered_map::OrderedMap;
use dd_rust_network_mutex::protocol::http::{AcquireRequest, ReleaseRequest};
use dd_rust_network_mutex::protocol::{Request, Response, TokenMap};
use dd_rust_network_mutex::directives::{front_of, is_legible};
use dd_rust_network_mutex::routine::{
    check_log_level, current_log_level, init_tracing, initial_directive, is_otel_enabled,
    logs_json, set_log_level, set_otel_enabled, shutdown_tracing, starting_filter, Telemetry,
};
use dd_rust_network_mutex::server::admin::{
    admin_authorized, admin_log_level_post, admin_otel_post, admin_tcp_post, admin_token,
    html_escape_min, is_form, is_htmx_request, log_level_malformed, render_otel_snippet,
    AdminReply, LogLevelChange, TcpFlags, DEFAULT_ADMIN_TOKEN,
};
use dd_rust_network_mutex::server::http::{
    acquire_reply, acquire_request, asked_wait, begin_ephemeral, end_ephemeral, http_authorized,
    http_request_id, lock_info_reply, ls_reply, raft_acquire_reply, raft_change_refused,
    raft_leader_status, raft_release_reply, raft_staged_learners, raft_unavailable, release_reply, release_request, reply_window,
    rw_acquire_reply, rw_release_reply, token_presented, HttpReply, PendingReply, RaftFailure, RaftReply,
    RequestIdError, MAX_REQUEST_ID_LEN,
};
use dd_rust_network_mutex::server::stream::{Frame, Session};

fn broker() -> Broker {
    Broker::with_authority(BrokerConfig::default(), AuthorityAllocator { next: 100 })
}

fn lock(uuid: &str, key: &str) -> Request {
    Request::Lock {
        uuid: uuid.into(),
        key: Some(key.into()),
        keys: None,
        pid: None,
        ttl: None,
        max: None,
        force: false,
        retry_count: 0,
        keep_locks_after_death: false,
        wait: None,
    }
}

fn mail(broker: &mut Broker) -> Vec<Response> {
    broker.take_outbox().into_iter().map(|d| d.response).collect()
}

fn granted(uuid: &str, key: &str, id: &str, token: u64) -> Response {
    Response::Lock {
        uuid: uuid.into(),
        key: key.into(),
        acquired: true,
        lock_request_count: 2,
        lock_uuid: Some(id.into()),
        fencing_token: Some(token),
        readers_count: Some(0),
        error: None,
    }
}

fn queued(uuid: &str, key: &str) -> Response {
    Response::Lock {
        uuid: uuid.into(),
        key: key.into(),
        acquired: false,
        lock_request_count: 1,
        lock_uuid: None,
        fencing_token: None,
        readers_count: None,
        error: None,
    }
}

fn refused(uuid: &str, error: &str) -> Response {
    Response::Error { uuid: uuid.into(), error: error.into() }
}

fn wanted(key: Option<&str>, keys: Option<Vec<String>>) -> AcquireRequest {
    AcquireRequest {
        request_id: None,
        key: key.map(|k| k.to_string()),
        keys,
        ttl_ms: Some(9),
        max: Some(2),
        wait_ms: None,
    }
}

// ---- stream sessions ------------------------------------------------------

#[test]
fn an_open_session_handles_requests() {
    let mut broker = broker();
    let client = broker.register_client();
    let mut session = Session::open(None);
    let outcome = session.serve(&mut broker, client, Frame::Request(lock("r", "k")));
    assert!(!outcome.close && !outcome.malformed && !outcome.auth_failure);
    assert!(matches!(
        mail(&mut broker).as_slice(),
        [Response::Lock { acquired: true, fencing_token: Some(100), .. }]
    ));
}

#[test]
fn only_the_token_opens_a_session() {
    let mut broker = broker();
    let client = broker.register_client();
    let mut session = Session::open(Some("secret".into()));
    let auth = |token: &str| {
        Frame::Request(Request::Auth { uuid: "a".into(), token: token.into() })
    };
    let outcome = session.serve(&mut broker, client, auth("secret"));
    assert!(!outcome.close && !outcome.auth_failure);
    assert!(session.authed);
    assert!(matches!(mail(&mut broker).as_slice(), [Response::Auth { ok: true, .. }]));

    let mut session = Session::open(Some("secret".into()));
    let outcome = session.serve(&mut broker, client, auth("guess"));
    assert!(outcome.close && outcome.auth_failure);
    assert!(!session.authed);
    match mail(&mut broker).as_slice() {
        [Response::Auth { ok: false, error: Some(error), .. }] => {
            assert_eq!(error, "invalid auth token")
        }
        other => panic!("unexpected answer {other:?}"),
    }
}

#[test]
fn nothing_is_locked_before_the_handshake() {
    let mut broker = broker();
    let client = broker.register_client();
    let mut session = Session::open(Some("secret".into()));
    let outcome = session.serve(&mut broker, client, Frame::Request(lock("r", "k")));
    assert!(outcome.close && outcome.auth_failure);
    assert_eq!(broker.metrics().keys, 0);
    match mail(&mut broker).as_slice() {
        [Response::Error { uuid, error }] => {
            assert_eq!(uuid, "unauth");
            assert_eq!(error, "auth handshake required");
        }
        other => panic!("unexpected answer {other:?}"),
    }
}

#[test]
fn bad_frames_are_answered() {
    let mut broker = broker();
    let client = broker.register_client();
    let mut session = Session::open(None);
    let outcome = session.serve(&mut broker, client, Frame::Malformed("no JSON".into()));
    assert!(outcome.malformed && !outcome.close);
    match mail(&mut broker).as_slice() {
        [Response::Error { uuid, error }] => {
            assert_eq!(uuid, "malformed");
            assert_eq!(error, "malformed request: no JSON");
        }
        other => panic!("unexpected answer {other:?}"),
    }
    let outcome = session.serve(&mut broker, client, Frame::Oversized(32));
    assert!(outcome.malformed && outcome.close);
    match mail(&mut broker).as_slice() {
        [Response::Error { uuid, error }] => {
            assert_eq!(uuid, "frame-too-large");
            assert_eq!(error, "frame exceeds 32 bytes");
        }
        other => panic!("unexpected answer {other:?}"),
    }
}

#[test]
fn a_session_yields_now_and_then() {
    let mut session = Session::open(None);
    let yields: Vec<bool> = (0..6).map(|_| session.count_frame(3)).collect();
    assert_eq!(yields, vec![false, false, true, false, false, true]);
    assert_eq!(session.frames_seen, 6);
}

// ---- HTTP calls -----------------------------------------------------------

#[test]
fn callers_present_the_token() {
    assert!(http_authorized(None, None, None));
    assert!(http_authorized(Some("t"), Some("Bearer t"), None));
    assert!(http_authorized(Some("t"), None, Some("t")));
    assert!(!http_authorized(Some("t"), Some("t"), None));
    assert!(!http_authorized(Some("t"), Some("bearer t"), Some("T")));
    assert!(!http_authorized(Some("t"), None, None));
    assert!(token_presented("t", Some("Bearer t"), None));
    assert!(!token_presented("t", Some("Bearer  t"), None));
}

#[test]
fn request_ids() {
    assert_eq!(http_request_id(&[None, Some(" h "), Some("x")], None).unwrap(), "h");
    assert_eq!(http_request_id(&[None, None, None], Some(" b ")).unwrap(), "b");
    assert_eq!(http_request_id(&[Some("b")], Some("b")).unwrap(), "b");
    assert_eq!(http_request_id(&[Some("  ")], Some("b")).unwrap(), "b");
    let err = http_request_id(&[Some("h")], Some("b")).unwrap_err();
    assert_eq!(err, RequestIdError::Disagree);
    assert_eq!(err.message(), "requestId and idempotency header disagree");

    let long = "x".repeat(MAX_REQUEST_ID_LEN);
    assert_eq!(http_request_id(&[], Some(&long)).unwrap(), long);
    let err = http_request_id(&[], Some(&format!("{long}x"))).unwrap_err();
    assert_eq!(err, RequestIdError::TooLong);
    assert_eq!(err.message(), "requestId must be at most 256 bytes");
    // Two bytes each.
    assert!(http_request_id(&[], Some(&"é".repeat(129))).is_err());
    assert!(http_request_id(&[], Some(&"é".repeat(128))).is_ok());
}

#[test]
fn a_request_without_an_id_gets_a_random_one() {
    let a = http_request_id(&[None], None).unwrap();
    let b = http_request_id(&[None], Some("")).unwrap();
    assert_ne!(a, b);
    for id in [a, b] {
        assert_eq!(id.len(), 36);
        for (i, c) in id.chars().enumerate() {
            if [8, 13, 18, 23].contains(&i) {
                assert_eq!(c, '-');
            } else {
                assert!(c.is_ascii_hexdigit() && !c.is_ascii_uppercase());
            }
        }
        assert_eq!(id.chars().nth(14), Some('4'));
    }
}

#[test]
fn windows_for_replies() {
    assert_eq!(reply_window(None), 50);
    assert_eq!(reply_window(Some(0)), 50);
    assert_eq!(reply_window(Some(7)), 7);
}

#[test]
fn a_wait_ends_with_a_definitive_reply() {
    let mut wait = PendingReply::new("r".into(), true);
    assert!(!wait.wait_for(granted("other", "k", "l", 1)));
    assert!(wait.last_match.is_none());
    assert!(!wait.wait_for(queued("r", "k")));
    assert!(matches!(wait.last_match, Some(Response::Lock { acquired: false, .. })));
    assert!(wait.wait_for(granted("r", "k", "l", 1)));
    assert!(matches!(wait.last_match, Some(Response::Lock { acquired: true, .. })));

    let mut wait = PendingReply::new("r".into(), false);
    assert!(wait.wait_for(queued("r", "k")));
}

#[test]
fn a_lock_outlives_the_call_that_took_it() {
    let mut broker = broker();
    let client = begin_ephemeral(&mut broker, lock("r", "k"));
    let answers = mail(&mut broker);
    end_ephemeral(&mut broker, client, answers.first());
    assert_eq!(broker.metrics().holders, 1);
    assert_eq!(broker.metrics().clients, 0);

    let waiting = begin_ephemeral(&mut broker, lock("s", "k"));
    let answers = mail(&mut broker);
    assert_eq!(broker.metrics().waiters, 1);
    end_ephemeral(&mut broker, waiting, answers.first());
    assert_eq!(broker.metrics().waiters, 0);
    assert_eq!(broker.metrics().holders, 1);
}

#[test]
fn calls_become_requests() {
    match acquire_request("r".into(), &wanted(Some("k"), None)) {
        Request::Lock { uuid, key, keys, pid, ttl, max, force, wait, .. } => {
            assert_eq!((uuid.as_str(), key.as_deref()), ("r", Some("k")));
            assert_eq!((keys, pid, ttl, max), (None, None, Some(9), Some(2)));
            assert_eq!((force, wait), (false, None));
        }
        other => panic!("unexpected request {other:?}"),
    }
    let call = ReleaseRequest {
        request_id: None,
        key: None,
        keys: Some(vec!["a".into(), "b".into()]),
        lock_uuid: None,
        force: true,
    };
    match release_request("r".into(), &call) {
        Request::Unlock { uuid, key, keys, lock_uuid, force } => {
            assert_eq!((uuid.as_str(), key), ("r", None));
            assert_eq!(keys, Some(vec!["a".to_string(), "b".to_string()]));
            assert_eq!((lock_uuid, force), (None, true));
        }
        other => panic!("unexpected request {other:?}"),
    }
}

#[test]
fn acquire_replies() {
    let call = wanted(Some("k"), None);
    let HttpReply::Body { status, body } = acquire_reply(Some(granted("r", "k", "l", 7)), &call)
    else {
        panic!("a body");
    };
    assert_eq!((status, body.acquired, body.queue_depth), (200, true, 2));
    assert_eq!(body.keys, vec!["k".to_string()]);
    assert_eq!(body.lock_uuid.as_deref(), Some("l"));
    assert_eq!(body.fencing_tokens.get(&"k".to_string()), Some(&7));

    let mut rejected = queued("r", "k");
    if let Response::Lock { error, .. } = &mut rejected {
        *error = Some("no".into());
    }
    let HttpReply::Body { status, body } = acquire_reply(Some(rejected), &call) else {
        panic!("a body");
    };
    assert_eq!((status, body.acquired), (400, false));
    assert_eq!(body.error.as_deref(), Some("no"));

    let mut tokens: TokenMap = OrderedMap::new();
    tokens.insert("a".into(), 1);
    tokens.insert("b".into(), 2);
    let all = Response::CompositeLock {
        uuid: "r".into(),
        keys: vec!["a".into(), "b".into()],
        acquired: true,
        lock_uuid: Some("l".into()),
        fencing_tokens: Some(tokens),
        error: None,
    };
    let HttpReply::Body { status, body } = acquire_reply(Some(all), &call) else {
        panic!("a body");
    };
    assert_eq!((status, body.fencing_tokens.len(), body.queue_depth), (200, 2, 0));

    let HttpReply::Fault { status, error } = acquire_reply(Some(refused("r", "why")), &call) else {
        panic!("a fault");
    };
    assert_eq!((status, error.as_deref()), (400, Some("why")));

    let HttpReply::Body { status, body } = acquire_reply(None, &call) else {
        panic!("a body");
    };
    assert_eq!((status, body.acquired), (200, false));
    assert_eq!(body.keys, vec!["k".to_string()]);
}

#[test]
fn release_replies() {
    let done = Response::Unlock {
        uuid: "r".into(),
        keys: vec!["k".into()],
        unlocked: true,
        lock_request_count: 0,
        error: None,
    };
    let HttpReply::Body { status, body } = release_reply(Some(done.clone())) else {
        panic!("a body");
    };
    assert_eq!((status, body.unlocked), (200, true));
    assert_eq!(body.keys, vec!["k".to_string()]);
    let HttpReply::Fault { status, error } = release_reply(Some(refused("r", "why"))) else {
        panic!("a fault");
    };
    assert_eq!((status, error.as_deref()), (400, Some("why")));
    let HttpReply::Fault { status, error } = release_reply(None) else {
        panic!("a fault");
    };
    assert_eq!((status, error.as_deref()), (503, Some("broker timed out")));

    let HttpReply::Body { status, body } = rw_release_reply(Some(done), "k".into()) else {
        panic!("a body");
    };
    assert_eq!((status, body.key.as_str(), body.readers_count), (200, "k", 0));
    let HttpReply::Fault { status, error } = rw_release_reply(None, "k".into()) else {
        panic!("a fault");
    };
    assert_eq!((status, error), (400, None));
}

#[test]
fn read_and_write_replies() {
    let read = Response::RegisterReadResult {
        uuid: "r".into(),
        key: "k".into(),
        readers_count: 3,
        writer_flag: false,
        granted: true,
        lock_uuid: Some("l".into()),
        fencing_token: Some(8),
    };
    let body = rw_acquire_reply(true, Some(read.clone()), "asked".into());
    assert!(body.granted);
    assert_eq!((body.key.as_str(), body.readers_count), ("k", 3));
    assert_eq!((body.lock_uuid.as_deref(), body.fencing_token), (Some("l"), Some(8)));
    // A read grant is no answer to a write request.
    let body = rw_acquire_reply(false, Some(read), "asked".into());
    assert!(!body.granted);
    assert_eq!(body.key, "asked");
    assert!(!rw_acquire_reply(true, None, "asked".into()).granted);
}

#[test]
fn inspections() {
    let info = Response::LockInfo {
        uuid: "r".into(),
        key: "k".into(),
        is_locked: true,
        lockholder_uuids: vec!["l".into()],
        lock_request_count: 4,
        readers_count: 0,
        writer_flag: false,
    };
    let HttpReply::Body { status, body } = lock_info_reply(Some(info), "asked".into()) else {
        panic!("a body");
    };
    assert_eq!((status, body.key.as_str(), body.lock_request_count), (200, "asked", 4));
    let HttpReply::Fault { status, error } = lock_info_reply(None, "asked".into()) else {
        panic!("a fault");
    };
    assert_eq!((status, error.as_deref()), (503, Some("broker did not respond")));

    let list = Response::LsResult { uuid: "r".into(), keys: vec!["a".into(), "b".into()] };
    let HttpReply::Body { status, body } = ls_reply(Some(list)) else {
        panic!("a body");
    };
    assert_eq!((status, body), (200, vec!["a".to_string(), "b".to_string()]));
    assert!(matches!(ls_reply(None), HttpReply::Fault { status: 503, .. }));
}

#[test]
fn replicated_failures() {
    let lost = RaftFailure::NotLeader {
        leader_id: Some("node-2".into()),
        leader_addr: Some("10.0.0.2:7980".into()),
    };
    let refusal = raft_unavailable(lost.clone());
    assert_eq!((refusal.status, refusal.error.as_str()), (503, "raft leader unavailable"));
    assert_eq!(refusal.leader, Some((Some("node-2".into()), Some("10.0.0.2:7980".into()))));
    assert_eq!(refusal.request_id, None);
    let reused = RaftFailure::IdempotencyKeyConflict { request_id: "r".into() };
    let refusal = raft_unavailable(reused);
    assert_eq!(
        (refusal.status, refusal.error.as_str()),
        (409, "request id reused with different payload")
    );
    assert_eq!((refusal.request_id.as_deref(), refusal.leader), (Some("r"), None));
    let kind = RaftFailure::UnsupportedClientRequest("no such".into());
    let refusal = raft_unavailable(kind.clone());
    assert_eq!((refusal.status, refusal.error.as_str()), (400, "no such"));
    let refusal = raft_unavailable(RaftFailure::Other("io".into()));
    assert_eq!((refusal.status, refusal.error.as_str()), (503, "io"));
    let bad = RaftFailure::InvalidConfig("peers".into());
    assert_eq!(raft_unavailable(bad.clone()).status, 503);
    assert_eq!(raft_change_refused(bad).status, 400);
    assert_eq!(raft_change_refused(lost.clone()).status, 503);

    let call = wanted(Some("k"), None);
    assert!(matches!(
        raft_acquire_reply(Err(kind.clone()), &call),
        RaftReply::Told(HttpReply::Fault { status: 400, .. })
    ));
    let RaftReply::Refused(refusal) = raft_acquire_reply(Err(lost), &call) else {
        panic!("a refusal");
    };
    assert!(refusal.leader.is_some());
    assert!(matches!(
        raft_acquire_reply(Ok(Some(granted("r", "k", "l", 7))), &call),
        RaftReply::Told(HttpReply::Body { status: 200, .. })
    ));
    assert!(matches!(
        raft_release_reply(Err(kind)),
        RaftReply::Told(HttpReply::Fault { status: 400, .. })
    ));
    assert!(matches!(
        raft_release_reply(Ok(None)),
        RaftReply::Told(HttpReply::Fault { status: 503, .. })
    ));
}

// ---- admin calls ----------------------------------------------------------

#[test]
fn admins_present_their_own_token() {
    assert_eq!(admin_token(None), DEFAULT_ADMIN_TOKEN);
    assert_eq!(admin_token(Some("  ")), DEFAULT_ADMIN_TOKEN);
    assert_eq!(admin_token(Some(" s ")), " s ");
    assert!(admin_authorized(Some("s"), None, Some("s")));
    assert!(admin_authorized(Some("s"), Some("Bearer s"), None));
    assert!(!admin_authorized(Some("s"), None, Some(DEFAULT_ADMIN_TOKEN)));
    assert!(!admin_authorized(None, None, None));
}

#[test]
fn kinds_of_admin_calls() {
    assert!(is_htmx_request(Some("true")));
    assert!(is_htmx_request(Some("TRUE")));
    assert!(!is_htmx_request(Some("yes")));
    assert!(!is_htmx_request(None));
    assert!(is_form(Some("application/x-www-form-urlencoded")));
    assert!(is_form(Some("application/x-www-form-urlencoded; charset=utf-8")));
    assert!(!is_form(Some("application/json")));
    assert!(!is_form(None));
}

#[test]
fn markup_is_escaped() {
    assert_eq!(
        html_escape_min("<a href=\"x\">'&'</a>"),
        "&lt;a href=&quot;x&quot;&gt;&#39;&amp;&#39;&lt;/a&gt;"
    );
    assert_eq!(html_escape_min("plain"), "plain");
    assert_eq!(render_otel_snippet(true), "otel: <strong>on</strong>");
    assert_eq!(render_otel_snippet(false), "otel: <strong>off</strong>");
}

#[test]
fn the_export_of_spans_is_switched() {
    let mut telemetry = Telemetry::new();
    match admin_otel_post(&mut telemetry, false, Ok(true)) {
        AdminReply::Value(change) => assert!(!change.previous && change.enabled),
        _ => panic!("a value"),
    }
    assert!(is_otel_enabled(&telemetry));
    match admin_otel_post(&mut telemetry, true, Ok(false)) {
        AdminReply::Html { status, body } => {
            assert_eq!((status, body.as_str()), (200, "otel: <strong>off</strong>"))
        }
        _ => panic!("a snippet"),
    }
    match admin_otel_post(&mut telemetry, false, Err("bad".into())) {
        AdminReply::Error { status, error } => {
            assert_eq!(status, 400);
            assert_eq!(error, "`enabled` is required and must be a boolean (bad).");
        }
        _ => panic!("an error"),
    }
    match admin_otel_post(&mut telemetry, true, Err("<b>".into())) {
        AdminReply::Html { status, body } => {
            assert_eq!(status, 400);
            assert_eq!(body, "otel: <strong>error</strong> (&lt;b&gt;)");
        }
        _ => panic!("a snippet"),
    }
    assert!(!is_otel_enabled(&telemetry));
}

fn reloadable() -> Telemetry {
    let mut telemetry = Telemetry::new();
    init_tracing(&mut telemetry, Some("warn"), false, true);
    telemetry
}

#[test]
fn the_log_level_is_changed() {
    let mut telemetry = reloadable();
    match admin_log_level_post(&mut telemetry, false, "lmx=debug,info", Ok(())) {
        AdminReply::Value(LogLevelChange::Applied { previous, directive }) => {
            assert_eq!((previous.as_str(), directive.as_str()), ("warn", "lmx=debug,info"))
        }
        _ => panic!("a value"),
    }
    assert_eq!(current_log_level(&telemetry), "lmx=debug,info");
    match admin_log_level_post(&mut telemetry, true, "trace", Ok(())) {
        AdminReply::Html { status, body } => {
            assert_eq!((status, body.as_str()), (200, "log-level: <strong>trace</strong>"))
        }
        _ => panic!("a snippet"),
    }
    match log_level_malformed(false, "bad") {
        AdminReply::Error { status, error } => {
            assert_eq!(status, 400);
            assert_eq!(error, "`directive` is required and must be a string (bad).");
        }
        _ => panic!("an error"),
    }
}

#[test]
fn a_directive_that_does_not_parse_is_refused() {
    let mut telemetry = reloadable();
    assert!(check_log_level(&telemetry, "info").is_ok());
    assert!(check_log_level(&telemetry, "a=b=c=d").is_err());
    match admin_log_level_post(&mut telemetry, false, "a=b=c=d", Ok(())) {
        AdminReply::Value(LogLevelChange::Refused { previous, error }) => {
            assert_eq!(previous, "warn");
            assert!(!error.is_empty());
        }
        _ => panic!("a refusal"),
    }
    assert_eq!(current_log_level(&telemetry), "warn");
    assert_eq!(
        set_log_level(&mut telemetry, "debug", Err("gone".into())),
        Err("gone".to_string())
    );
    assert_eq!(current_log_level(&telemetry), "warn");

    let mut bare = Telemetry::new();
    assert_eq!(
        set_log_level(&mut bare, "debug", Ok(())),
        Err("tracing reload handle not installed (init_tracing not run)".to_string())
    );
    assert_eq!(set_log_level(&mut telemetry, "debug", Ok(())), Ok("debug".to_string()));
}

#[test]
fn logging_at_the_start() {
    assert_eq!(initial_directive(None), "info");
    assert_eq!(initial_directive(Some("debug")), "debug");
    assert_eq!(starting_filter(Some("debug")), "debug");
    assert_eq!(starting_filter(Some("a=b=c=d")), "info");
    assert!(logs_json(Some("json")));
    assert!(!logs_json(Some("JSON")));
    assert!(!logs_json(None));

    let mut telemetry = Telemetry::new();
    assert!(!shutdown_tracing(&telemetry));
    assert!(!set_otel_enabled(&mut telemetry, true));
    assert!(set_otel_enabled(&mut telemetry, false));
    init_tracing(&mut telemetry, Some("warn"), true, true);
    assert!(shutdown_tracing(&telemetry));
    assert!(is_otel_enabled(&telemetry));
    init_tracing(&mut telemetry, Some("debug"), false, true);
    assert_eq!(current_log_level(&telemetry), "warn");
}

#[test]
fn a_second_initialisation_changes_nothing() {
    let mut telemetry = Telemetry::new();
    init_tracing(&mut telemetry, Some("warn"), true, true);
    assert!(set_otel_enabled(&mut telemetry, false));
    assert_eq!(set_log_level(&mut telemetry, "debug", Ok(())), Ok("debug".to_string()));
    init_tracing(&mut telemetry, Some("trace"), true, true);
    assert!(!is_otel_enabled(&telemetry));
    assert_eq!(current_log_level(&telemetry), "debug");
    assert!(shutdown_tracing(&telemetry));
}

#[test]
fn a_directive_that_cannot_be_read_is_refused() {
    let mut telemetry = reloadable();
    for directive in ["\u{2003}a=info", " é=info", "info, é=info", "info,\ta[é]=info"] {
        assert!(!is_legible(directive));
        assert_eq!(
            check_log_level(&telemetry, directive),
            Err("invalid filter directive".to_string())
        );
        assert_eq!(
            set_log_level(&mut telemetry, directive, Ok(())),
            Err("invalid filter directive".to_string())
        );
        assert_eq!(starting_filter(Some(directive)), "info");
    }
    assert_eq!(current_log_level(&telemetry), "warn");
    for directive in ["", "info", "é=info", "é=info,a=debug", "a=info,é=debug"] {
        assert!(is_legible(directive));
        assert_eq!(front_of(directive), directive);
        assert!(check_log_level(&telemetry, directive).is_ok());
    }
    assert_eq!(starting_filter(Some("a=info,é=debug")), "a=info,é=debug");
}

#[test]
fn white_space_before_a_part_is_no_fault_as_such() {
    let mut telemetry = reloadable();
    // Nothing is cut, or it is cut between characters.
    for directive in [" é", "info, é", "\u{2003}a", " é]", " [a]", "\u{a0}é"] {
        assert!(is_legible(directive), "{directive:?}");
        assert_eq!(check_log_level(&telemetry, directive), Ok(()), "{directive:?}");
        assert_eq!(starting_filter(Some(directive)), directive);
    }
    assert_eq!(set_log_level(&mut telemetry, " é", Ok(())), Ok(" é".to_string()));
    // The cut is clean, and what is cut out is no level.
    for directive in [" éa=info", "é=info, a=debug"] {
        assert!(is_legible(directive));
        assert!(check_log_level(&telemetry, directive).is_err());
    }
    for directive in ["\u{2003}a[b]", " é[b", " [é]", " [a{é}]", "  éab=x"] {
        assert_eq!(is_legible(directive), directive == "  éab=x", "{directive:?}");
    }
}

#[test]
fn every_legible_directive_can_be_read() {
    let telemetry = reloadable();
    let marks = ['é', 'a', '=', '[', ']', '{', '}', ','];
    let mut refused: usize = 0;
    for lead in ["", " ", "    ", "\u{2003}"] {
        for n in 0..8usize.pow(4) {
            let mut directive = lead.to_string();
            for place in 0..4u32 {
                directive.push(marks[n / 8usize.pow(place) % 8]);
            }
            let _ = check_log_level(&telemetry, &directive);
            if !is_legible(&directive) {
                refused += 1;
                assert!(check_log_level(&telemetry, &directive).is_err(), "{directive:?}");
                assert!(!lead.is_empty() && directive.contains('é') || lead == "\u{2003}");
            }
        }
    }
    assert!(refused > 0);
}

#[test]
fn what_comes_first_is_complained_of_first() {
    let telemetry = reloadable();
    let said = check_log_level(&telemetry, "a=b=c=d");
    assert!(said.is_err());
    assert_eq!(check_log_level(&telemetry, "a=b=c=d, é=info"), said);
    assert_eq!(front_of("a=b=c=d, é=info"), "a=b=c=d,");
    // The field is no pattern; the level would be cut inside a character.
    let field = "    [{a=(bcé}]";
    let level = "    [{a=(bcé}]=info";
    assert!(is_legible(field) && !is_legible(level));
    assert_eq!(front_of(level), field);
    let said = check_log_level(&telemetry, field);
    assert!(said.clone().unwrap_err().starts_with("invalid field filter: "));
    assert_eq!(check_log_level(&telemetry, level), said);
}

#[test]
fn socket_options_are_switched() {
    let mut flags = TcpFlags { nodelay: true, quickack: true };
    match admin_tcp_post(&mut flags, false, Ok((Some(false), None)), true) {
        AdminReply::Value(change) => {
            assert!(change.previous.nodelay && !change.flags.nodelay);
            assert!(change.flags.quickack && change.warning.is_none());
        }
        _ => panic!("a value"),
    }
    match admin_tcp_post(&mut flags, true, Ok((None, Some(true))), false) {
        AdminReply::Html { status, body } => {
            assert_eq!(status, 200);
            assert_eq!(
                body,
                "tcp: NODELAY <strong>off</strong> · QUICKACK <strong>on</strong> <em>(TCP_QUICKACK is no-op on this OS)</em>"
            );
        }
        _ => panic!("a snippet"),
    }
    match admin_tcp_post(&mut flags, false, Ok((None, None)), true) {
        AdminReply::Error { status, error } => {
            assert_eq!(status, 400);
            assert_eq!(error, "at least one of `nodelay` or `quickack` must be present.");
        }
        _ => panic!("an error"),
    }
    match admin_tcp_post(&mut flags, false, Err("bad".into()), true) {
        AdminReply::Error { status, error } => {
            assert_eq!(status, 400);
            assert_eq!(
                error,
                "expected body with optional `nodelay` and/or `quickack` booleans (bad)."
            );
        }
        _ => panic!("an error"),
    }
    assert_eq!(flags, TcpFlags { nodelay: false, quickack: true });
}

// ---- metrics --------------------------------------------------------------

#[test]
fn the_metrics_page() {
    let mut broker = broker();
    let client = broker.register_client();
    broker.handle_request(client, lock("a", "k"));
    broker.handle_request(client, lock("b", "k"));
    let page = render("# registry\n", &broker.metrics());
    assert!(page.starts_with("# registry\n# HELP dd_rust_network_mutex_keys "));
    for line in [
        "dd_rust_network_mutex_keys 1",
        "dd_rust_network_mutex_holders 1",
        "dd_rust_network_mutex_waiters 1",
        "dd_rust_network_mutex_clients 1",
        "# TYPE dd_rust_network_mutex_keys gauge",
    ] {
        assert!(page.lines().any(|l| l == line), "{line} missing from {page}");
    }
    assert!(page.ends_with("\n"));
}

#[test]
fn only_a_ready_leader_is_available() {
    assert_eq!(raft_leader_status(true), 200);
    assert_eq!(raft_leader_status(false), 503);
    assert_eq!(raft_staged_learners(&[false, true, false, true]), [1, 3]);
    assert!(raft_staged_learners(&[]).is_empty());
}

#[test]
fn the_body_says_how_long_to_wait() {
    assert_eq!(asked_wait(Some("250"), Some(10)), Some(10));
    assert_eq!(asked_wait(Some("250"), None), Some(250));
    assert_eq!(asked_wait(Some("soon"), None), None);
    assert_eq!(asked_wait(None, None), None);
}

#[test]
fn the_broker_answers_the_handshake() {
    let mut b = broker();
    let client = b.register_client();
    for (version, expected) in [("0.1.0", true), ("2.0.0", false)] {
        b.handle_request(client, Request::Version { uuid: "v".into(), value: version.into() });
        let answers = b.take_outbox();
        assert!(matches!(
            &answers[0].response,
            Response::Version { ok, error, .. } if *ok == expected && error.is_none() == expected
        ));
    }
}
