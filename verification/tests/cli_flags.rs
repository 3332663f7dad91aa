//! Command-line flags against the environment. What the file system and the flag
//! parser say is written out in each test.

use dd_rust_network_mutex::cli_flags::{
    command_name, config_candidates, decode_overrides, encode_argv, env_of, explicit_config,
    finish_run, is_absolute, load_broker_cli_config_from, reconcile,
    resolve_cli_flags_config_path_from, terminal_columns, validate_parser_metadata,
    BrokerCliConfig, BrokerCliEnv, BrokerCliHelp, Candidate, CliFlagError, CliStep,
    CLI_FLAGS_CONFIG_ENV, CLI_FLAGS_FILE_NAME, DEFAULT_ETC_CLI_FLAGS_CONFIG_PATH,
    PARSE_ERRORS_ENV, POSITIONALS_ENV, UNKNOWN_OPTIONS_ENV,
};
use dd_rust_network_mutex::config::EnvMap;

const CONTRACT: &str = "/srv/broker/.cli-flags.toml";

fn args(list: &[&str]) -> Vec<String> {
    list.iter().map(|a| a.to_string()).collect()
}

fn env(entries: &[(&str, &str)]) -> EnvMap {
    env_of(
        entries
            .iter()
            .map(|(key, value)| (key.to_string(), value.to_string()))
            .collect(),
    )
}

fn env_with_contract(extra: &[(&str, &str)]) -> EnvMap {
    let mut all = vec![(CLI_FLAGS_CONFIG_ENV, CONTRACT)];
    all.extend_from_slice(extra);
    env(&all)
}

fn file(path: &str) -> Candidate {
    Candidate { path: path.into(), canonical: Some(path.into()) }
}

fn absent(path: &str) -> Candidate {
    Candidate { path: path.into(), canonical: None }
}

/// Which file is the contract, where only the files in `present` exist.
fn resolve(env: &EnvMap, present: &[&str]) -> Result<Option<String>, CliFlagError> {
    let look = |path: String| {
        let found = present.contains(&path.as_str());
        Candidate { canonical: if found { Some(path.clone()) } else { None }, path }
    };
    let candidates = config_candidates(None, &vec![DEFAULT_ETC_CLI_FLAGS_CONFIG_PATH.to_string()]);
    resolve_cli_flags_config_path_from(
        explicit_config(env).map(look),
        candidates.into_iter().map(look).collect(),
    )
}

/// Runs a command line, with `parsed` as the answer of the flag parser.
fn run(list: &[&str], env: EnvMap, parsed: &str) -> Result<BrokerCliEnv, CliFlagError> {
    let path = resolve(&env, &[CONTRACT])?;
    let again = env_of(entries_of(&env));
    match load_broker_cli_config_from(&args(list), env, path)? {
        CliStep::Parse { config_path, .. } => finish_run(again, config_path, parsed),
        CliStep::Done(BrokerCliConfig::Run(run)) => Ok(run),
        other => panic!("unexpected step {other:?}"),
    }
}

fn entries_of(env: &EnvMap) -> Vec<(String, String)> {
    (0..env.len())
        .map(|i| (env.key_at(i).clone(), env.value_at(i).clone()))
        .collect()
}

fn error_of<T: std::fmt::Debug>(r: Result<T, CliFlagError>) -> CliFlagError {
    r.expect_err("an error")
}

#[test]
fn cli_flags_override_env_values() {
    let env = run(
        &["dd-rust-network-mutex", "--tcp-port", "7777", "--disable-http"],
        env_with_contract(&[("LMX_TCP_PORT", "6970"), ("LMX_DISABLE_HTTP", "false")]),
        r#"{"LMX_TCP_PORT":"7777","LMX_DISABLE_HTTP":"true"}"#,
    )
    .expect("cli config");

    assert_eq!(env.get("LMX_TCP_PORT"), Some("7777"));
    assert_eq!(env.get("LMX_DISABLE_HTTP"), Some("true"));
    assert_eq!(
        env.cli_overrides().get(&"LMX_TCP_PORT".into()),
        Some(&"7777".into())
    );
    assert_eq!(
        env.cli_overrides().get(&"LMX_DISABLE_HTTP".into()),
        Some(&"true".into())
    );
    assert_eq!(env.source_path(), Some(CONTRACT));
    assert_eq!(env.merged_env().len(), 3);
}

#[test]
fn env_values_remain_when_cli_omits_them() {
    let env = run(
        &["dd-rust-network-mutex"],
        env_with_contract(&[("LMX_HTTP_PORT", "6971")]),
        "{}",
    )
    .expect("cli config");

    assert_eq!(env.get("LMX_HTTP_PORT"), Some("6971"));
    assert_eq!(env.cli_overrides().len(), 0);
}

#[test]
fn unknown_options_are_rejected_without_echoing_values() {
    let rejected = "postgres://runtime-secret@redacted.invalid/lmx";
    let err = error_of(run(
        &["dd-rust-network-mutex", &format!("--not-a-real-flag={rejected}")],
        env_with_contract(&[]),
        &format!(r#"{{"{UNKNOWN_OPTIONS_ENV}":"[\"--not-a-real-flag={rejected}\"]"}}"#),
    ));

    assert!(matches!(
        &err,
        CliFlagError::UnknownOptions { count } if *count > 0
    ));
    assert!(!err.message().contains(rejected));
    assert!(!err.message().contains("runtime-secret"));
    assert_eq!(err.message(), "unknown broker CLI option(s) (count: 1)");
}

#[test]
fn invalid_typed_values_are_rejected_without_echoing_values() {
    let rejected = "not-a-port-runtime-secret";
    let err = error_of(run(
        &["dd-rust-network-mutex", "--tcp-port", rejected],
        env_with_contract(&[]),
        &format!(r#"{{"{PARSE_ERRORS_ENV}":"[\"tcp_port: {rejected}\",\"again\"]"}}"#),
    ));

    assert!(matches!(
        &err,
        CliFlagError::ParseErrors { count } if *count > 0
    ));
    assert!(!err.message().contains(rejected));
    assert!(!err.message().contains("runtime-secret"));
    assert_eq!(err.message(), "invalid broker CLI flag value(s) (count: 2)");
}

#[test]
fn explicit_missing_cli_flags_config_is_rejected_without_path_echo() {
    let missing = "/srv/broker/target/definitely-missing-runtime-secret.toml";
    let err = error_of(resolve(&env(&[(CLI_FLAGS_CONFIG_ENV, missing)]), &[CONTRACT]));

    assert!(matches!(err, CliFlagError::ExplicitConfigUnreadable));
    let display = CliFlagError::ExplicitConfigUnreadable.message();
    assert!(!display.contains(missing));
    assert!(!display.contains("runtime-secret"));
}

#[test]
fn relative_explicit_cli_flags_config_fails_closed() {
    let env = env(&[(CLI_FLAGS_CONFIG_ENV, "attacker-runtime-secret.toml")]);
    let err = error_of(resolve(&env, &["attacker-runtime-secret.toml"]));

    assert!(matches!(err, CliFlagError::ExplicitConfigMustBeAbsolute));
    let display = CliFlagError::ExplicitConfigMustBeAbsolute.message();
    assert!(!display.contains("attacker-runtime-secret.toml"));
    assert!(!display.contains("runtime-secret"));
}

#[test]
fn explicit_selector_wins_and_never_falls_through() {
    let err = resolve_cli_flags_config_path_from(
        Some(absent("relative.toml")),
        vec![file("/source/.cli-flags.toml")],
    )
    .expect_err("invalid explicit selector must not fall through");
    assert!(matches!(err, CliFlagError::ExplicitConfigMustBeAbsolute));
}

#[test]
fn packaged_share_contract_beats_colocated_and_fixed_contracts() {
    let candidates = config_candidates(
        Some("/tree/install/bin"),
        &vec!["/tree/etc/.cli-flags.toml".to_string()],
    );
    assert_eq!(
        candidates,
        vec![
            "/tree/install/bin/../share/dd-rust-network-mutex/.cli-flags.toml".to_string(),
            "/tree/install/bin/.cli-flags.toml".to_string(),
            "/tree/etc/.cli-flags.toml".to_string(),
        ]
    );
    let packaged = "/tree/install/share/dd-rust-network-mutex/.cli-flags.toml";
    let found = candidates
        .into_iter()
        .map(|path| {
            let canonical = path.replace("/bin/../share", "/share");
            Candidate { path, canonical: Some(canonical) }
        })
        .collect();

    let resolved = resolve_cli_flags_config_path_from(None, found)
        .expect("trusted candidates")
        .expect("packaged contract");
    assert_eq!(resolved, packaged);
}

#[test]
fn fixed_or_source_owned_contracts_remain_supported() {
    let resolved = resolve_cli_flags_config_path_from(
        None,
        vec![file("/tree/etc/.cli-flags.toml"), file("/tree/source/.cli-flags.toml")],
    )
    .expect("trusted candidates")
    .expect("fixed contract");
    assert_eq!(resolved, "/tree/etc/.cli-flags.toml");
}

#[test]
fn unrelated_working_directory_contract_is_never_a_candidate() {
    let attacker = "/tree/attacker/.cli-flags.toml";
    let packaged = "/tree/install/share/dd-rust-network-mutex/.cli-flags.toml";
    let candidates = config_candidates(Some("/tree/install/bin"), &Vec::new());
    assert!(candidates.iter().all(|path| !path.contains("attacker")));
    let found = candidates
        .into_iter()
        .map(|path| {
            let canonical = path.replace("/bin/../share", "/share");
            let there = canonical == packaged || canonical == attacker;
            Candidate { path, canonical: if there { Some(canonical) } else { None } }
        })
        .collect();

    let resolved = resolve_cli_flags_config_path_from(None, found)
        .expect("trusted candidates")
        .expect("packaged contract");
    assert_ne!(resolved, attacker);
    assert_eq!(resolved, packaged);
}

#[test]
fn help_is_rendered_from_cli_flags_config() {
    let env = env_with_contract(&[]);
    let path = resolve(&env, &[CONTRACT]).expect("contract");
    let step = load_broker_cli_config_from(
        &args(&["/opt/bin/dd-rust-network-mutex", "--help"]),
        env,
        path,
    )
    .expect("help config");

    let CliStep::RenderHelp { config_path, command_name } = step else {
        panic!("expected help config");
    };
    assert_eq!(config_path, CONTRACT);
    assert_eq!(command_name, "dd-rust-network-mutex");

    let table = "--tcp-port  LMX_TCP_PORT".to_string();
    let help = BrokerCliHelp::new(table, config_path);
    assert!(help.table().contains("--tcp-port"));
    assert!(help.table().contains("LMX_TCP_PORT"));
    assert_eq!(help.source_path(), CONTRACT);
}

#[test]
fn a_command_line_without_a_contract() {
    let none = load_broker_cli_config_from(&args(&["broker"]), env(&[("A", "1")]), None);
    let Ok(CliStep::Done(BrokerCliConfig::Run(run))) = none else {
        panic!("the environment stands as it is");
    };
    assert_eq!(run.get("A"), Some("1"));
    assert_eq!(run.get("B"), None);
    assert_eq!(run.source_path(), None);

    let err = error_of(load_broker_cli_config_from(
        &args(&["broker", "--tcp-port", "1"]),
        env(&[]),
        None,
    ));
    assert!(matches!(err, CliFlagError::MissingConfig));
    assert!(err.message().starts_with("no reviewed broker CLI contract found"));
}

#[test]
fn arguments_reach_the_parser_as_json() {
    assert_eq!(encode_argv(&args(&["broker"])).unwrap(), "[]");
    assert_eq!(encode_argv(&Vec::new()).unwrap(), "[]");
    assert_eq!(
        encode_argv(&args(&["broker", "--a", "say \"hi\"", "\u{0}"])).unwrap(),
        r#"["--a","say \"hi\"","\u0000"]"#
    );
    let step = load_broker_cli_config_from(
        &args(&["broker", "-v"]),
        env(&[]),
        Some(CONTRACT.to_string()),
    );
    match step {
        Ok(CliStep::Parse { config_path, argv_json }) => {
            assert_eq!(config_path, CONTRACT);
            assert_eq!(argv_json, r#"["-v"]"#);
        }
        other => panic!("unexpected step {other:?}"),
    }
}

#[test]
fn what_the_parser_answers_must_be_json() {
    let err = error_of(decode_overrides("not json"));
    assert!(matches!(err, CliFlagError::NativeJson { .. }));
    assert_eq!(
        err.message(),
        "failed to parse flags2env JSON output while parsing broker CLI flags"
    );
    let err = error_of(finish_run(env(&[]), CONTRACT.to_string(), r#"{"A":1}"#));
    assert!(matches!(err, CliFlagError::NativeJson { .. }));

    let err = error_of(reconcile(
        env(&[]),
        env(&[(UNKNOWN_OPTIONS_ENV, "nothing")]),
        CONTRACT.to_string(),
    ));
    assert!(matches!(err, CliFlagError::MetadataJson { key, .. } if key == UNKNOWN_OPTIONS_ENV));
    assert_eq!(
        err.message(),
        "failed to parse flags2env metadata env LMX_CLI_UNKNOWN_OPTIONS"
    );
}

#[test]
fn notes_of_the_parser_are_taken_off() {
    let mut overrides = env(&[
        (PARSE_ERRORS_ENV, "[]"),
        (UNKNOWN_OPTIONS_ENV, "[]"),
        (POSITIONALS_ENV, "[]"),
        ("LMX_TCP_PORT", "1"),
    ]);
    assert!(validate_parser_metadata(&mut overrides).is_ok());
    assert_eq!(entries_of(&overrides), vec![("LMX_TCP_PORT".to_string(), "1".to_string())]);

    let mut overrides = env(&[(POSITIONALS_ENV, r#"["a","b","c"]"#)]);
    let err = error_of(validate_parser_metadata(&mut overrides));
    assert!(matches!(err, CliFlagError::Positionals { count: 3 }));
    assert_eq!(err.message(), "unexpected broker positional argument(s) (count: 3)");

    let mut overrides = env(&[(PARSE_ERRORS_ENV, r#"["x"]"#), (UNKNOWN_OPTIONS_ENV, r#"["y"]"#)]);
    let err = error_of(validate_parser_metadata(&mut overrides));
    assert!(matches!(err, CliFlagError::ParseErrors { count: 1 }));
}

#[test]
fn the_program_name_is_a_file_name() {
    assert_eq!(command_name(&args(&["/usr/bin/broker"])).unwrap(), "broker");
    assert_eq!(command_name(&args(&["/usr/bin/broker/"])).unwrap(), "broker");
    assert_eq!(command_name(&args(&["/usr/bin/.."])).unwrap(), "/usr/bin/..");
    assert_eq!(command_name(&Vec::new()).unwrap(), "dd-rust-network-mutex");
    let err = error_of(command_name(&args(&["a\u{0}b"])));
    assert!(matches!(err, CliFlagError::CommandNameNul));
    assert_eq!(err.message(), "broker CLI command name contains an interior NUL byte");
}

#[test]
fn columns_of_the_terminal() {
    assert_eq!(terminal_columns(None), 100);
    assert_eq!(terminal_columns(Some(" 80 ")), 80);
    assert_eq!(terminal_columns(Some("0")), 100);
    assert_eq!(terminal_columns(Some("-5")), 100);
    assert_eq!(terminal_columns(Some("2147483648")), 100);
    assert_eq!(terminal_columns(Some("wide")), 100);
}

#[test]
fn an_explicit_contract_is_trimmed() {
    assert_eq!(explicit_config(&env(&[])), None);
    assert_eq!(explicit_config(&env(&[(CLI_FLAGS_CONFIG_ENV, "  ")])), None);
    assert_eq!(
        explicit_config(&env(&[(CLI_FLAGS_CONFIG_ENV, " /a ")])),
        Some("/a".to_string())
    );
    assert!(is_absolute("/a"));
    assert!(!is_absolute("a"));
    assert!(!is_absolute(""));
    assert_eq!(
        resolve_cli_flags_config_path_from(None, vec![absent("/a"), file("relative")]).unwrap(),
        None
    );
    assert_eq!(CLI_FLAGS_FILE_NAME, ".cli-flags.toml");
}

#[test]
fn every_complaint_has_a_text() {
    assert_eq!(
        CliFlagError::NonUtf8ConfigPath.message(),
        "broker CLI config path is not valid UTF-8"
    );
    assert_eq!(
        CliFlagError::ConfigPathNul.message(),
        "broker CLI config path contains an interior NUL byte"
    );
    assert_eq!(
        CliFlagError::NativeNull { operation: "rendering broker CLI help" }.message(),
        "flags2env returned a null pointer while rendering broker CLI help"
    );
}
