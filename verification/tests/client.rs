//! What a client makes of what arrives.

use dd_rust_network_mutex::client::{
    acquire_request, acquire_with_max_request, auth_reply, composite_request,
    connection_closed_notice, handshake, lock_info_reply, ls_reply, release_reply,
    release_request, rw_release_request, try_acquire_reply, wait_for_acquire, wait_for_rw_grant,
    Arrival, ClientConfig, ClientError, LockGuard, Step,
};
use dd_rust_network_mutex::ordered_map::OrderedMap;
use dd_rust_network_mutex::protocol::{Request, Response, TokenMap};

fn lock(acquired: bool) -> Response {
    Response::Lock {
        uuid: "r".into(),
        key: "k".into(),
        acquired,
        lock_request_count: 0,
        lock_uuid: if acquired { Some("l".into()) } else { None },
        fencing_token: if acquired { Some(7) } else { None },
        readers_count: None,
        error: None,
    }
}

fn composite() -> Response {
    let mut tokens: TokenMap = OrderedMap::new();
    tokens.insert("a".into(), 1);
    tokens.insert("b".into(), 2);
    Response::CompositeLock {
        uuid: "r".into(),
        keys: vec!["a".into(), "b".into()],
        acquired: true,
        lock_uuid: Some("l".into()),
        fencing_tokens: Some(tokens),
        error: None,
    }
}

fn error() -> Response {
    Response::Error { uuid: "r".into(), error: "no".into() }
}

fn okay() -> Response {
    Response::Okay { uuid: "r".into() }
}

fn unlock(unlocked: bool, error: Option<&str>) -> Response {
    Response::Unlock {
        uuid: "r".into(),
        keys: vec!["k".into()],
        unlocked,
        lock_request_count: 0,
        error: error.map(|e| e.to_string()),
    }
}

#[test]
fn an_acquire_waits_for_its_grant() {
    let Step::Done(guard) = wait_for_acquire(Arrival::Reply(lock(true)), 9) else {
        panic!("a guard");
    };
    assert_eq!((guard.keys, guard.lock_uuid.as_str()), (vec!["k".to_string()], "l"));
    assert_eq!(guard.fencing_token, Some(7));
    assert_eq!(guard.fencing_tokens.get(&"k".to_string()), Some(&7));
    let Step::Done(guard) = wait_for_acquire(Arrival::Reply(composite()), 9) else {
        panic!("a guard");
    };
    assert_eq!((guard.fencing_tokens.len(), guard.fencing_token), (2, None));
    assert!(matches!(wait_for_acquire(Arrival::Reply(lock(false)), 9), Step::Waiting));
    assert!(matches!(wait_for_acquire(Arrival::Reply(okay()), 9), Step::Waiting));
    assert!(matches!(
        wait_for_acquire(Arrival::Reply(error()), 9),
        Step::Failed(ClientError::Broker(text)) if text == "no"
    ));
    assert!(matches!(
        wait_for_acquire(Arrival::TimedOut, 9),
        Step::Failed(ClientError::Timeout(9))
    ));
    assert!(matches!(
        wait_for_acquire(Arrival::Closed, 9),
        Step::Failed(ClientError::Closed)
    ));
}

#[test]
fn an_acquire_without_wait_has_one_reply() {
    assert!(try_acquire_reply(Arrival::Reply(lock(true)), 9).unwrap().is_some());
    assert!(try_acquire_reply(Arrival::Reply(lock(false)), 9).unwrap().is_none());
    assert!(matches!(
        try_acquire_reply(Arrival::Reply(error()), 9),
        Err(ClientError::Broker(_))
    ));
    assert!(matches!(
        try_acquire_reply(Arrival::Reply(okay()), 9),
        Err(ClientError::Unexpected { said, response: Response::Okay { .. } })
            if said == "unexpected try-acquire response: "
    ));
    assert!(matches!(
        try_acquire_reply(Arrival::TimedOut, 9),
        Err(ClientError::Timeout(9))
    ));
}

#[test]
fn a_release_is_confirmed() {
    assert!(release_reply(Arrival::Reply(unlock(true, None)), 9).is_ok());
    assert!(matches!(
        release_reply(Arrival::Reply(unlock(false, None)), 9),
        Err(ClientError::Broker(text)) if text == "unlock returned unlocked=false"
    ));
    assert!(matches!(
        release_reply(Arrival::Reply(unlock(false, Some("why"))), 9),
        Err(ClientError::Broker(text)) if text == "why"
    ));
    assert!(matches!(
        release_reply(Arrival::Reply(okay()), 9),
        Err(ClientError::Unexpected { said, .. }) if said == "unexpected unlock response: "
    ));
    assert!(matches!(release_reply(Arrival::Closed, 9), Err(ClientError::Closed)));
}

#[test]
fn a_handshake_is_confirmed() {
    let auth = |ok: bool, error: Option<&str>| {
        Arrival::Reply(Response::Auth {
            uuid: "r".into(),
            ok,
            error: error.map(|e| e.to_string()),
        })
    };
    assert!(auth_reply(auth(true, None), 9).is_ok());
    assert!(matches!(
        auth_reply(auth(false, Some("bad")), 9),
        Err(ClientError::Broker(text)) if text == "bad"
    ));
    assert!(auth_reply(Arrival::Reply(okay()), 9).is_err());
}

#[test]
fn inspections_are_read() {
    let info = Response::LockInfo {
        uuid: "r".into(),
        key: "k".into(),
        is_locked: true,
        lockholder_uuids: vec!["l".into()],
        lock_request_count: 3,
        readers_count: 0,
        writer_flag: false,
    };
    let info = lock_info_reply(Arrival::Reply(info), 9).unwrap();
    assert!(info.is_locked);
    assert_eq!((info.key.as_str(), info.lock_request_count), ("k", 3));
    assert!(lock_info_reply(Arrival::Reply(okay()), 9).is_err());
    let list = Response::LsResult { uuid: "r".into(), keys: vec!["a".into()] };
    assert_eq!(ls_reply(Arrival::Reply(list), 9).unwrap(), vec!["a".to_string()]);
    assert!(ls_reply(Arrival::TimedOut, 9).is_err());
}

#[test]
fn readers_and_writers_wait_for_their_own_grant() {
    let read = |granted: bool| {
        Arrival::Reply(Response::RegisterReadResult {
            uuid: "r".into(),
            key: "k".into(),
            readers_count: 1,
            writer_flag: false,
            granted,
            lock_uuid: Some("l".into()),
            fencing_token: Some(5),
        })
    };
    assert!(matches!(
        wait_for_rw_grant(true, read(true), 9),
        Step::Done((id, Some(5))) if id == "l"
    ));
    assert!(matches!(wait_for_rw_grant(true, read(false), 9), Step::Waiting));
    assert!(matches!(wait_for_rw_grant(false, read(true), 9), Step::Waiting));
    assert!(matches!(
        wait_for_rw_grant(false, Arrival::Reply(error()), 9),
        Step::Failed(ClientError::Broker(_))
    ));
}

#[test]
fn requests_of_a_client() {
    assert!(matches!(
        acquire_request("r".into(), "k".into(), 1, 2, true),
        Request::Lock { pid: Some(1), ttl: Some(2), max: None, force: false, .. }
    ));
    assert!(matches!(
        acquire_request("r".into(), "k".into(), 1, 2, false),
        Request::Lock { wait: Some(false), .. }
    ));
    assert!(matches!(
        acquire_with_max_request("r".into(), "k".into(), 4, 1, 2),
        Ok(Request::Lock { max: Some(4), .. })
    ));
    // One slot is the key itself.
    assert!(matches!(
        acquire_with_max_request("r".into(), "k".into(), 1, 1, 2),
        Ok(Request::Lock { max: None, wait: Some(true), .. })
    ));
    assert!(matches!(
        acquire_with_max_request("r".into(), "k".into(), 0, 1, 2),
        Err(ClientError::Invalid(_))
    ));
    assert!(matches!(
        composite_request("r".into(), vec!["a".into()], 1, 2, true),
        Ok(Request::Lock { key: None, keys: Some(_), .. })
    ));
    assert!(matches!(
        composite_request("r".into(), Vec::new(), 1, 2, true),
        Err(ClientError::Invalid(_))
    ));
    let six: Vec<String> = (0..6).map(|i| i.to_string()).collect();
    assert!(matches!(
        composite_request("r".into(), six, 1, 2, true),
        Err(ClientError::Invalid(_))
    ));

    let one = LockGuard::single("k".into(), "l".into(), Some(1));
    match release_request("r".into(), &one) {
        Request::Unlock { key: Some(key), keys: None, lock_uuid: Some(id), force: false, .. } => {
            assert_eq!((key.as_str(), id.as_str()), ("k", "l"))
        }
        other => panic!("unexpected request {other:?}"),
    }
    let two = LockGuard::composite(vec!["a".into(), "b".into()], "l".into(), OrderedMap::new());
    assert!(matches!(
        release_request("r".into(), &two),
        Request::Unlock { key: None, keys: Some(keys), .. } if keys.len() == 2
    ));
    assert!(matches!(
        rw_release_request("r".into(), "k", "l"),
        Request::Unlock { key: Some(_), lock_uuid: Some(_), force: false, .. }
    ));
}

#[test]
fn defaults_and_notices() {
    let config = ClientConfig::default();
    assert_eq!(config.default_request_timeout, 5_000);
    assert_eq!(config.auth_token, None);
    match connection_closed_notice("r".into()) {
        Response::Error { uuid, error } => {
            assert_eq!((uuid.as_str(), error.as_str()), ("r", "broker connection closed"))
        }
        other => panic!("unexpected notice {other:?}"),
    }
}

#[test]
fn the_token_comes_first() {
    let said = handshake(Some("t".into()), "a".into(), "v".into());
    assert!(matches!(&said[0], Request::Auth { uuid, token } if uuid == "a" && token == "t"));
    assert!(matches!(&said[1], Request::Version { uuid, value } if uuid == "v" && value == "0.1.0"));
    assert_eq!(said.len(), 2);
    let said = handshake(None, "a".into(), "v".into());
    assert!(matches!(said.as_slice(), [Request::Version { .. }]));
}
