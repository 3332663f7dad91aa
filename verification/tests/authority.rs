//! Server-side fencing authority and its admission on the client side.

use dd_rust_network_mutex::client::{ClientError, LockGuard};
use dd_rust_network_mutex::fenced_client::{
    admit_attempt, admit_guard, admit_rw, validate_guard, validate_rw_token, FencedError, RwGrant,
    MAX_FENCING_TOKEN,
};
use dd_rust_network_mutex::hardened_broker::{
    authority_width, AuthorityAllocator, MAX_SERVER_FENCING_TOKEN,
};
use dd_rust_network_mutex::ordered_map::OrderedMap;
use dd_rust_network_mutex::protocol::{Request, TokenMap};

fn tokens(entries: &[(&str, u64)]) -> TokenMap {
    let mut map: TokenMap = OrderedMap::new();
    for (key, token) in entries {
        map.insert((*key).to_string(), *token);
    }
    map
}

fn fault(guard: &LockGuard) -> String {
    match validate_guard(guard) {
        Err(ClientError::Invalid(text)) => text,
        other => panic!("unexpected answer: {other:?}"),
    }
}

#[test]
fn rejects_unfenced_and_incomplete_guards() {
    let missing = LockGuard {
        keys: vec!["k".into()],
        lock_uuid: "l".into(),
        fencing_token: None,
        fencing_tokens: OrderedMap::new(),
    };
    assert!(validate_guard(&missing).is_err());

    let mut partial = OrderedMap::new();
    partial.insert("a".into(), 1);
    let composite = LockGuard {
        keys: vec!["a".into(), "b".into()],
        lock_uuid: "l".into(),
        fencing_token: None,
        fencing_tokens: partial,
    };
    assert!(validate_guard(&composite).is_err());
}

#[test]
fn accepts_exact_single_and_composite_authority() {
    let mut one = OrderedMap::new();
    one.insert("k".into(), MAX_FENCING_TOKEN);
    let single = LockGuard {
        keys: vec!["k".into()],
        lock_uuid: "l".into(),
        fencing_token: Some(MAX_FENCING_TOKEN),
        fencing_tokens: one,
    };
    validate_guard(&single).unwrap();

    let mut many = OrderedMap::new();
    many.insert("a".into(), 1);
    many.insert("b".into(), 2);
    let composite = LockGuard {
        keys: vec!["a".into(), "b".into()],
        lock_uuid: "l".into(),
        fencing_token: None,
        fencing_tokens: many,
    };
    validate_guard(&composite).unwrap();
}

#[test]
fn every_fault_of_a_guard_is_named() {
    let guard = |keys: &[&str], id: &str, token: Option<u64>, map: TokenMap| LockGuard {
        keys: keys.iter().map(|k| k.to_string()).collect(),
        lock_uuid: id.into(),
        fencing_token: token,
        fencing_tokens: map,
    };
    let said = |text: &str| format!("invalid fenced authority from broker: {text}");
    assert_eq!(
        fault(&guard(&[], "l", None, tokens(&[]))),
        said("grant contained no protected keys")
    );
    assert_eq!(fault(&guard(&["k"], "", Some(1), tokens(&[("k", 1)]))), said("grant omitted lock_uuid"));
    assert_eq!(
        fault(&guard(&["k"], "l", None, tokens(&[("k", 1)]))),
        said("single-key grant omitted fencing_token")
    );
    assert_eq!(
        fault(&guard(&["k"], "l", Some(0), tokens(&[("k", 0)]))),
        said("single-key fencing token 0 outside 1..=9007199254740991")
    );
    assert_eq!(
        fault(&guard(&["k"], "l", Some(9_007_199_254_740_992), tokens(&[]))),
        said("single-key fencing token 9007199254740992 outside 1..=9007199254740991")
    );
    assert_eq!(
        fault(&guard(&["k"], "l", Some(3), tokens(&[("k", 4)]))),
        said("single-key grant token map does not exactly match fencing_token")
    );
    assert_eq!(
        fault(&guard(&["a", "b"], "l", Some(1), tokens(&[("a", 1), ("b", 2)]))),
        said("composite grant exposed an ambiguous scalar fencing_token")
    );
    assert_eq!(
        fault(&guard(&["a", "b"], "l", None, tokens(&[("a", 1)]))),
        said("composite grant token/key cardinality mismatch")
    );
    assert_eq!(
        fault(&guard(&["a", "a"], "l", None, tokens(&[("a", 1), ("b", 2)]))),
        said("composite grant repeated key \"a\"")
    );
    assert_eq!(
        fault(&guard(&["a", "c\"d"], "l", None, tokens(&[("a", 1), ("b", 2)]))),
        said("composite grant omitted token for key \"c\\\"d\"")
    );
    assert_eq!(
        fault(&guard(&["a", "b"], "l", None, tokens(&[("a", 1), ("b", 0)]))),
        said("composite token for \"b\" outside 1..=9007199254740991")
    );
}

#[test]
fn read_and_write_grants_need_authority() {
    assert!(validate_rw_token("l", Some(1), "read").is_ok());
    assert!(validate_rw_token("l", Some(MAX_FENCING_TOKEN), "write").is_ok());
    let said = |r: Result<(), ClientError>| match r {
        Err(ClientError::Invalid(text)) => text,
        other => panic!("unexpected answer: {other:?}"),
    };
    assert_eq!(
        said(validate_rw_token("", Some(1), "read")),
        "invalid fenced authority from broker: read grant omitted lock_uuid"
    );
    assert_eq!(
        said(validate_rw_token("l", None, "write")),
        "invalid fenced authority from broker: write grant omitted fencing_token"
    );
    assert_eq!(
        said(validate_rw_token("l", Some(0), "read")),
        "invalid fenced authority from broker: read fencing token 0 outside 1..=9007199254740991"
    );
}

#[test]
fn allocator_reserves_composite_range_atomically_and_fails_closed() {
    let mut allocator = AuthorityAllocator {
        next: MAX_SERVER_FENCING_TOKEN - 1,
    };
    assert_eq!(
        allocator.reserve(2).expect("last two safe values"),
        MAX_SERVER_FENCING_TOKEN - 1
    );
    assert!(allocator.reserve(1).is_err());
}

#[test]
fn restored_watermark_lifts_next_local_reservation() {
    let mut allocator = AuthorityAllocator { next: 10 };
    allocator.advance_past(100).unwrap();
    assert_eq!(allocator.reserve(1).unwrap(), 101);
}

#[test]
fn external_override_cannot_cross_exact_integer_ceiling() {
    let mut allocator = AuthorityAllocator { next: 1 };
    assert!(allocator
        .observe_reserved_range(MAX_SERVER_FENCING_TOKEN, 1)
        .is_ok());
    assert!(allocator
        .observe_reserved_range(MAX_SERVER_FENCING_TOKEN, 2)
        .is_err());
}

#[test]
fn composite_width_is_distinct_key_count() {
    let request = Request::Lock {
        uuid: "r".into(),
        key: None,
        keys: Some(vec!["b".into(), "a".into(), "a".into()]),
        pid: None,
        ttl: None,
        max: None,
        force: false,
        retry_count: 0,
        keep_locks_after_death: false,
        wait: None,
    };
    assert_eq!(authority_width(&request), Some(2));
}

#[test]
fn only_exact_authority_leaves_a_fenced_acquire() {
    let good = || LockGuard::single("k".into(), "l".into(), Some(7));
    let bare = || LockGuard::single("k".into(), "l".into(), None);
    assert!(matches!(admit_guard::<u8>(Ok(good())), Ok(g) if g.fencing_token == Some(7)));
    assert!(matches!(
        admit_guard::<u8>(Ok(bare())),
        Err(FencedError::Authority(ClientError::Invalid(text)))
            if text == "invalid fenced authority from broker: single-key grant omitted fencing_token"
    ));
    assert!(matches!(admit_guard::<u8>(Err(3)), Err(FencedError::Acquire(3))));

    assert!(matches!(admit_attempt::<u8>(Ok(None)), Ok(None)));
    assert!(matches!(admit_attempt::<u8>(Ok(Some(good()))), Ok(Some(_))));
    assert!(matches!(admit_attempt::<u8>(Ok(Some(bare()))), Err(FencedError::Authority(_))));
    assert!(matches!(admit_attempt::<u8>(Err(3)), Err(FencedError::Acquire(3))));

    let grant = |token: Option<u64>| RwGrant {
        lock_uuid: "l".into(),
        fencing_token: token,
        guard: "guard",
    };
    assert!(matches!(admit_rw::<&str, u8>(Ok(grant(Some(7))), "read"), Ok("guard")));
    assert!(matches!(
        admit_rw::<&str, u8>(Ok(grant(Some(0))), "write"),
        Err(FencedError::Authority(ClientError::Invalid(text)))
            if text == "invalid fenced authority from broker: write fencing token 0 outside 1..=9007199254740991"
    ));
    assert!(matches!(admit_rw::<&str, u8>(Err(3), "read"), Err(FencedError::Acquire(3))));
}
