//! Reconciliation of command-line flags with the environment.
//!
//! The `LMX_*` environment is the runtime configuration. Flags are parsed by
//! the flag parser against a contract file and laid over the environment, flags
//! taking precedence. Which file is the contract is decided here: one named
//! explicitly, else the first trusted candidate, never one found by way of the
//! working directory.

use crate::config::EnvMap;
use crate::ordered_map;
use crate::ordered_map::OrderedMap;
use crate::protocol;
use crate::scan;
use crate::scan::{chars_of, non_empty, same_text};
use crate::text;
use crate::text::{decimal, join2, join3};
use vstd::prelude::*;
use vstd::string::StrSliceExecFns;
use vstd::string::StringExecFns;

verus! {

broadcast use vstd::string::group_string_axioms;

pub const CLI_FLAGS_CONFIG_ENV: &'static str = "LMX_CLI_FLAGS_CONFIG";

pub const CLI_FLAGS_FILE_NAME: &'static str = ".cli-flags.toml";

pub const DEFAULT_ETC_CLI_FLAGS_CONFIG_PATH: &'static str =
    "/etc/dd-rust-network-mutex/.cli-flags.toml";

pub const PACKAGE_SHARE_DIR: &'static str = "dd-rust-network-mutex";

pub const PARSE_ERRORS_ENV: &'static str = "LMX_CLI_PARSE_ERRORS";

pub const POSITIONALS_ENV: &'static str = "LMX_CLI_POSITIONALS";

pub const UNKNOWN_OPTIONS_ENV: &'static str = "LMX_CLI_UNKNOWN_OPTIONS";

/// An error of `serde_json`.
#[verifier::external_type_specification]
#[verifier::external_body]
pub struct ExJsonError(serde_json::Error);

/// What the command line asks for.
#[derive(Debug)]
pub enum BrokerCliConfig {
    Run(BrokerCliEnv),
    Help(BrokerCliHelp),
}

/// The environment with the flags laid over it.
#[derive(Debug)]
pub struct BrokerCliEnv {
    merged_env: EnvMap,
    cli_overrides: EnvMap,
    source_path: Option<String>,
}

/// The table of flags.
#[derive(Debug)]
pub struct BrokerCliHelp {
    table: String,
    source_path: String,
}

/// Why the command line is not acceptable. No value of it is ever repeated.
#[derive(Debug)]
pub enum CliFlagError {
    ArgsJson { source: serde_json::Error },
    NativeJson { operation: &'static str, source: serde_json::Error },
    MetadataJson { key: &'static str, source: serde_json::Error },
    NonUtf8ConfigPath,
    ConfigPathNul,
    CommandNameNul,
    NativeNull { operation: &'static str },
    MissingConfig,
    ExplicitConfigMustBeAbsolute,
    ExplicitConfigUnreadable,
    ParseErrors { count: usize },
    UnknownOptions { count: usize },
    Positionals { count: usize },
}

impl CliFlagError {
    /// What the operator is told.
    pub open spec fn text(self) -> Seq<char> {
        match self {
            CliFlagError::ArgsJson { .. } => "failed to serialize broker argv for flags2env"@,
            CliFlagError::NativeJson { operation, .. } =>
                "failed to parse flags2env JSON output while "@ + operation@,
            CliFlagError::MetadataJson { key, .. } => "failed to parse flags2env metadata env "@
                + key@,
            CliFlagError::NonUtf8ConfigPath => "broker CLI config path is not valid UTF-8"@,
            CliFlagError::ConfigPathNul =>
                "broker CLI config path contains an interior NUL byte"@,
            CliFlagError::CommandNameNul =>
                "broker CLI command name contains an interior NUL byte"@,
            CliFlagError::NativeNull { operation } =>
                "flags2env returned a null pointer while "@ + operation@,
            CliFlagError::MissingConfig =>
                "no reviewed broker CLI contract found; set LMX_CLI_FLAGS_CONFIG to an absolute readable file or install the package-owned contract"@,
            CliFlagError::ExplicitConfigMustBeAbsolute =>
                "LMX_CLI_FLAGS_CONFIG must be an absolute path"@,
            CliFlagError::ExplicitConfigUnreadable =>
                "LMX_CLI_FLAGS_CONFIG does not name a readable regular file"@,
            CliFlagError::ParseErrors { count } => "invalid broker CLI flag value(s) (count: "@
                + text::decimal_text(count as nat) + ")"@,
            CliFlagError::UnknownOptions { count } => "unknown broker CLI option(s) (count: "@
                + text::decimal_text(count as nat) + ")"@,
            CliFlagError::Positionals { count } =>
                "unexpected broker positional argument(s) (count: "@ + text::decimal_text(
                count as nat,
            ) + ")"@,
        }
    }

    /// What the operator is told.
    pub fn message(&self) -> (r: String)
        ensures
            r@ == self.text(),
    {
        match self {
            CliFlagError::ArgsJson { .. } => String::from_str(
                "failed to serialize broker argv for flags2env",
            ),
            CliFlagError::NativeJson { operation, .. } => join2(
                "failed to parse flags2env JSON output while ",
                operation,
            ),
            CliFlagError::MetadataJson { key, .. } => join2(
                "failed to parse flags2env metadata env ",
                key,
            ),
            CliFlagError::NonUtf8ConfigPath => String::from_str(
                "broker CLI config path is not valid UTF-8",
            ),
            CliFlagError::ConfigPathNul => String::from_str(
                "broker CLI config path contains an interior NUL byte",
            ),
            CliFlagError::CommandNameNul => String::from_str(
                "broker CLI command name contains an interior NUL byte",
            ),
            CliFlagError::NativeNull { operation } => join2(
                "flags2env returned a null pointer while ",
                operation,
            ),
            CliFlagError::MissingConfig => String::from_str(
                "no reviewed broker CLI contract found; set LMX_CLI_FLAGS_CONFIG to an absolute readable file or install the package-owned contract",
            ),
            CliFlagError::ExplicitConfigMustBeAbsolute => String::from_str(
                "LMX_CLI_FLAGS_CONFIG must be an absolute path",
            ),
            CliFlagError::ExplicitConfigUnreadable => String::from_str(
                "LMX_CLI_FLAGS_CONFIG does not name a readable regular file",
            ),
            CliFlagError::ParseErrors { count } => join3(
                "invalid broker CLI flag value(s) (count: ",
                decimal(*count as u64).as_str(),
                ")",
            ),
            CliFlagError::UnknownOptions { count } => join3(
                "unknown broker CLI option(s) (count: ",
                decimal(*count as u64).as_str(),
                ")",
            ),
            CliFlagError::Positionals { count } => join3(
                "unexpected broker positional argument(s) (count: ",
                decimal(*count as u64).as_str(),
                ")",
            ),
        }
    }
}

impl BrokerCliEnv {
    /// The environment with the flags laid over it.
    pub closed spec fn merged(&self) -> Map<Seq<char>, Seq<char>> {
        self.merged_env@
    }

    /// What the flags set.
    pub closed spec fn overrides(&self) -> Map<Seq<char>, Seq<char>> {
        self.cli_overrides@
    }

    /// The contract file.
    pub closed spec fn source(&self) -> Option<Seq<char>> {
        protocol::shown_text(self.source_path)
    }

    /// The value of `key`.
    pub fn get(&self, key: &str) -> (r: Option<&str>)
        ensures
            match r {
                Some(value) => self.merged().dom().contains(key@) && self.merged()[key@] == value@,
                None => !self.merged().dom().contains(key@),
            },
    {
        let name = String::from_str(key);
        match self.merged_env.get(&name) {
            Some(value) => Some(value.as_str()),
            None => None,
        }
    }

    /// The environment with the flags laid over it.
    pub fn merged_env(&self) -> (r: &EnvMap)
        ensures
            r@ == self.merged(),
    {
        &self.merged_env
    }

    /// What the flags set.
    pub fn cli_overrides(&self) -> (r: &EnvMap)
        ensures
            r@ == self.overrides(),
    {
        &self.cli_overrides
    }

    /// The contract file.
    pub fn source_path(&self) -> (r: Option<&str>)
        ensures
            scan::shown_str(r) == self.source(),
    {
        match &self.source_path {
            Some(path) => Some(path.as_str()),
            None => None,
        }
    }
}

impl BrokerCliHelp {
    /// The table of flags.
    pub closed spec fn shown(&self) -> Seq<char> {
        self.table@
    }

    /// The contract file.
    pub closed spec fn source(&self) -> Seq<char> {
        self.source_path@
    }

    /// Help for the contract `source_path`.
    pub fn new(table: String, source_path: String) -> (r: Self)
        ensures
            r.shown() == table@,
            r.source() == source_path@,
    {
        BrokerCliHelp { table, source_path }
    }

    /// The table of flags.
    pub fn table(&self) -> (r: &str)
        ensures
            r@ == self.shown(),
    {
        self.table.as_str()
    }

    /// The contract file.
    pub fn source_path(&self) -> (r: &str)
        ensures
            r@ == self.source(),
    {
        self.source_path.as_str()
    }
}

/// Whether `path` is absolute.
pub open spec fn absolute(path: Seq<char>) -> bool {
    path.len() > 0 && path[0] == '/'
}

/// Whether `path` is absolute.
pub fn is_absolute(path: &str) -> (r: bool)
    ensures
        r == absolute(path@),
{
    match path.chars().next() {
        Some(c) => c == '/',
        None => false,
    }
}

/// `part` below the directory `base`.
pub open spec fn below(base: Seq<char>, part: Seq<char>) -> Seq<char> {
    if base.len() == 0 || base.last() == '/' {
        base + part
    } else {
        base + "/"@ + part
    }
}

fn join_path(base: &str, part: &str) -> (r: String)
    ensures
        r@ == below(base@, part@),
{
    let chars = chars_of(base);
    if chars.len() == 0 || chars[chars.len() - 1] == '/' {
        join2(base, part)
    } else {
        join3(base, "/", part)
    }
}

/// The contract that the environment names explicitly.
pub fn explicit_config(env: &EnvMap) -> (r: Option<String>)
    ensures
        protocol::shown_text(r) == if env@.dom().contains(CLI_FLAGS_CONFIG_ENV@) {
            scan::filled(Some(env@[CLI_FLAGS_CONFIG_ENV@]))
        } else {
            None
        },
{
    let key = String::from_str(CLI_FLAGS_CONFIG_ENV);
    match env.get(&key) {
        Some(value) => non_empty(Some(value.as_str())),
        None => None,
    }
}

/// The places where a contract may be, by precedence: the package's share
/// directory and the directory of the program `parent`, then `implicit`.
pub open spec fn candidate_paths(
    parent: Option<Seq<char>>,
    implicit: Seq<Seq<char>>,
) -> Seq<Seq<char>> {
    match parent {
        Some(dir) => seq![
            below(
                below(below(below(dir, ".."@), "share"@), PACKAGE_SHARE_DIR@),
                CLI_FLAGS_FILE_NAME@,
            ),
            below(dir, CLI_FLAGS_FILE_NAME@),
        ] + implicit,
        None => implicit,
    }
}

/// The places where a contract may be, by precedence.
pub fn config_candidates(parent: Option<&str>, implicit: &Vec<String>) -> (r: Vec<String>)
    ensures
        ordered_map::views(r@) == candidate_paths(
            scan::shown_str(parent),
            ordered_map::views(implicit@),
        ),
{
    let mut r: Vec<String> = Vec::new();
    if let Some(dir) = parent {
        let up = join_path(dir, "..");
        let share = join_path(up.as_str(), "share");
        let package = join_path(share.as_str(), PACKAGE_SHARE_DIR);
        r.push(join_path(package.as_str(), CLI_FLAGS_FILE_NAME));
        r.push(join_path(dir, CLI_FLAGS_FILE_NAME));
    }
    let ghost head = ordered_map::views(r@);
    let mut i: usize = 0;
    while i < implicit.len()
        invariant
            i <= implicit@.len(),
            ordered_map::views(r@) =~= head + ordered_map::views(implicit@).take(i as int),
        decreases implicit@.len() - i,
    {
        let ghost before = r@;
        r.push(implicit[i].clone());
        assert(ordered_map::views(r@) =~= ordered_map::views(before).push(implicit@[i as int]@));
        i = i + 1;
    }
    assert(ordered_map::views(r@) =~= candidate_paths(
        scan::shown_str(parent),
        ordered_map::views(implicit@),
    ));
    r
}

/// A place where a contract may be, and what the file system says of it: the
/// canonical path of a readable regular file, or nothing.
#[derive(Debug, Clone)]
pub struct Candidate {
    pub path: String,
    pub canonical: Option<String>,
}

/// The contract at a place, if the place is absolute and holds one.
pub open spec fn trusted(c: Candidate) -> Option<Seq<char>> {
    if absolute(c.path@) {
        protocol::shown_text(c.canonical)
    } else {
        None
    }
}

/// The first contract among the candidates.
pub open spec fn first_trusted(candidates: Seq<Candidate>) -> Option<Seq<char>>
    decreases candidates.len(),
{
    if candidates.len() == 0 {
        None
    } else {
        match trusted(candidates[0]) {
            Some(path) => Some(path),
            None => first_trusted(candidates.drop_first()),
        }
    }
}

/// What an explicitly named contract comes to.
pub open spec fn explicit_verdict(c: Candidate) -> Result<Seq<char>, CliFlagError> {
    if !absolute(c.path@) {
        Err(CliFlagError::ExplicitConfigMustBeAbsolute)
    } else {
        match c.canonical {
            Some(path) => Ok(path@),
            None => Err(CliFlagError::ExplicitConfigUnreadable),
        }
    }
}

/// Admits an explicitly named contract.
pub fn validate_explicit_config(explicit: Candidate) -> (r: Result<String, CliFlagError>)
    ensures
        match r {
            Ok(path) => explicit_verdict(explicit) == Ok::<Seq<char>, CliFlagError>(path@),
            Err(e) => explicit_verdict(explicit) == Err::<Seq<char>, CliFlagError>(e),
        },
{
    if !is_absolute(explicit.path.as_str()) {
        return Err(CliFlagError::ExplicitConfigMustBeAbsolute);
    }
    match explicit.canonical {
        Some(path) => Ok(path),
        None => Err(CliFlagError::ExplicitConfigUnreadable),
    }
}

/// Which file is the contract. One named explicitly counts alone: where it is
/// not acceptable, no candidate takes its place.
pub fn resolve_cli_flags_config_path_from(
    explicit: Option<Candidate>,
    candidates: Vec<Candidate>,
) -> (r: Result<Option<String>, CliFlagError>)
    ensures
        match explicit {
            Some(named) => match r {
                Ok(found) => found matches Some(path) && explicit_verdict(named) == Ok::<
                    Seq<char>,
                    CliFlagError,
                >(path@),
                Err(e) => explicit_verdict(named) == Err::<Seq<char>, CliFlagError>(e),
            },
            None => r matches Ok(found) && protocol::shown_text(found) == first_trusted(
                candidates@,
            ),
        },
{
    if let Some(named) = explicit {
        return match validate_explicit_config(named) {
            Ok(path) => Ok(Some(path)),
            Err(e) => Err(e),
        };
    }
    let mut i: usize = 0;
    assert(candidates@.skip(0) =~= candidates@);
    while i < candidates.len()
        invariant
            explicit is None,
            i <= candidates@.len(),
            first_trusted(candidates@) == first_trusted(candidates@.skip(i as int)),
        decreases candidates@.len() - i,
    {
        assert(candidates@.skip(i as int).drop_first() =~= candidates@.skip(i + 1));
        let candidate = &candidates[i];
        if is_absolute(candidate.path.as_str()) {
            if let Some(path) = &candidate.canonical {
                return Ok(Some(path.clone()));
            }
        }
        i = i + 1;
    }
    Ok(None)
}

/// A contract found is the canonical path of an absolute candidate, and nothing
/// before it was trusted.
pub proof fn only_trusted_candidates_are_found(candidates: Seq<Candidate>)
    ensures
        match first_trusted(candidates) {
            Some(path) => exists|i: int|
                {
                    &&& 0 <= i < candidates.len()
                    &&& absolute((#[trigger] candidates[i]).path@)
                    &&& protocol::shown_text(candidates[i].canonical) == Some(path)
                    &&& forall|j: int| 0 <= j < i ==> trusted(#[trigger] candidates[j]) is None
                },
            None => forall|j: int| 0 <= j < candidates.len() ==> trusted(#[trigger] candidates[j]) is None,
        },
    decreases candidates.len(),
{
    if candidates.len() > 0 {
        let rest = candidates.drop_first();
        if trusted(candidates[0]) is Some {
            assert(absolute(candidates[0].path@));
        } else {
            only_trusted_candidates_are_found(rest);
            match first_trusted(rest) {
                Some(path) => {
                    let i = choose|i: int|
                        {
                            &&& 0 <= i < rest.len()
                            &&& absolute((#[trigger] rest[i]).path@)
                            &&& protocol::shown_text(rest[i].canonical) == Some(path)
                            &&& forall|j: int| 0 <= j < i ==> trusted(#[trigger] rest[j]) is None
                        };
                    assert(candidates[i + 1] == rest[i]);
                    assert forall|j: int| 0 <= j < i + 1 implies trusted(
                        #[trigger] candidates[j],
                    ) is None by {
                        if j > 0 {
                            assert(candidates[j] == rest[j - 1]);
                        }
                    }
                },
                None => {
                    assert forall|j: int| 0 <= j < candidates.len() implies trusted(
                        #[trigger] candidates[j],
                    ) is None by {
                        if j > 0 {
                            assert(candidates[j] == rest[j - 1]);
                        }
                    }
                },
            }
        }
    }
}

/// What follows the last slash of `path`.
pub open spec fn last_part(path: Seq<char>) -> Seq<char>
    decreases path.len(),
{
    if path.len() == 0 || path.last() == '/' {
        seq![]
    } else {
        last_part(path.drop_last()).push(path.last())
    }
}

/// The last normal component of `path`: trailing slashes and inner `.` do not
/// count, and a path that ends in `..` has none.
pub open spec fn file_name(path: Seq<char>) -> Option<Seq<char>>
    decreases path.len(),
{
    let part = last_part(path);
    if path.len() > 0 && path.last() == '/' {
        file_name(path.drop_last())
    } else if part == "."@ && path.len() > 1 {
        file_name(path.drop_last())
    } else if part.len() == 0 || part == "."@ || part == ".."@ {
        None
    } else {
        Some(part)
    }
}

/// A last part lies within its path.
proof fn lemma_last_part(path: Seq<char>, start: int)
    requires
        0 <= start <= path.len(),
        start > 0 ==> path[start - 1] == '/',
        forall|i: int| start <= i < path.len() ==> #[trigger] path[i] != '/',
    ensures
        last_part(path) == path.skip(start),
    decreases path.len(),
{
    if path.len() == start {
        assert(path.skip(start) =~= seq![]);
        if start > 0 {
            assert(path.last() == '/');
        }
    } else {
        assert(path[path.len() - 1] != '/');
        let shorter = path.drop_last();
        assert forall|i: int| start <= i < shorter.len() implies #[trigger] shorter[i] != '/' by {
            assert(path[i] != '/');
        }
        lemma_last_part(shorter, start);
        assert(path.skip(start) =~= shorter.skip(start).push(path.last()));
    }
}

/// The last normal component of `path`.
fn base_name(path: &str) -> (r: Option<String>)
    ensures
        protocol::shown_text(r) == file_name(path@),
{
    let chars = chars_of(path);
    let mut end: usize = chars.len();
    assert(path@.take(end as int) =~= path@);
    loop
        invariant
            chars@ == path@,
            end <= chars@.len(),
            file_name(path@) == file_name(path@.take(end as int)),
        decreases end,
    {
        let ghost now = path@.take(end as int);
        if end > 0 && chars[end - 1] == '/' {
            assert(now.drop_last() =~= path@.take(end - 1));
            assert(now.last() == '/');
            end = end - 1;
            continue;
        }
        let mut start: usize = end;
        while start > 0 && chars[start - 1] != '/'
            invariant
                chars@ == path@,
                start <= end <= chars@.len(),
                now == path@.take(end as int),
                forall|i: int| start <= i < end ==> #[trigger] now[i] != '/',
            decreases start,
        {
            start = start - 1;
            assert(now[start as int] == chars@[start as int]);
        }
        proof {
            if start > 0 {
                assert(now[start - 1] == chars@[start - 1]);
            }
            lemma_last_part(now, start as int);
            assert(now.skip(start as int) =~= path@.subrange(start as int, end as int));
            if end > 0 {
                assert(now.last() == chars@[end - 1]);
            }
        }
        let part = path.substring_char(start, end);
        if same_text(part, ".") && end > 1 {
            assert(now.drop_last() =~= path@.take(end - 1));
            end = end - 1;
            continue;
        }
        if part.is_empty() || same_text(part, ".") || same_text(part, "..") {
            return None;
        }
        return Some(String::from_str(part));
    }
}

/// The name under which help is shown: the program's file name.
pub open spec fn shown_name(args: Seq<Seq<char>>) -> Seq<char> {
    let raw = if args.len() > 0 {
        args[0]
    } else {
        "dd-rust-network-mutex"@
    };
    match file_name(raw) {
        Some(name) => name,
        None => raw,
    }
}

/// The name under which help is shown. It must hold no NUL.
pub fn command_name(args: &Vec<String>) -> (r: Result<String, CliFlagError>)
    ensures
        match r {
            Ok(name) => name@ == shown_name(ordered_map::views(args@)) && !name@.contains('\0'),
            Err(e) => e == CliFlagError::CommandNameNul && shown_name(
                ordered_map::views(args@),
            ).contains('\0'),
        },
{
    let raw = if args.len() > 0 {
        args[0].clone()
    } else {
        String::from_str("dd-rust-network-mutex")
    };
    let name = match base_name(raw.as_str()) {
        Some(name) => name,
        None => raw,
    };
    let chars = chars_of(name.as_str());
    let mut i: usize = 0;
    while i < chars.len()
        invariant
            chars@ == name@,
            name@ == shown_name(ordered_map::views(args@)),
            i <= chars@.len(),
            forall|j: int| 0 <= j < i ==> #[trigger] chars@[j] != '\0',
        decreases chars@.len() - i,
    {
        if chars[i] == '\0' {
            assert(name@[i as int] == '\0');
            return Err(CliFlagError::CommandNameNul);
        }
        i = i + 1;
    }
    Ok(name)
}

/// The columns of the terminal: the setting `COLUMNS` if it is a positive
/// number, else 100.
pub fn terminal_columns(setting: Option<&str>) -> (r: u32)
    ensures
        r == match setting {
            Some(s) => match scan::number(scan::trimmed(s@), i32::MAX as nat) {
                Some(n) => if n > 0 {
                    n
                } else {
                    100
                },
                None => 100,
            },
            None => 100,
        },
{
    match setting {
        Some(s) => match scan::parse_number(scan::trim(s), i32::MAX as u64) {
            Some(n) => if n > 0 {
                n as u32
            } else {
                100
            },
            None => 100,
        },
        None => 100,
    }
}

/// The list of strings that a JSON text denotes, if it denotes one.
pub uninterp spec fn string_list(json: Seq<char>) -> Option<Seq<Seq<char>>>;

/// `serde_json::from_str` into a list of strings, under the name `string_list`:
/// the list, or an error where there is none. Nothing is claimed of which texts
/// denote which lists, nor of the error.
#[verifier::external_body]
fn parse_string_list(json: &str) -> (r: Result<Vec<String>, serde_json::Error>)
    ensures
        match r {
            Ok(list) => string_list(json@) == Some(ordered_map::views(list@)),
            Err(_) => string_list(json@) is None,
        },
{
    serde_json::from_str::<Vec<String>>(json)
}

/// The entries of the JSON object of strings that a text denotes, if it denotes
/// one, by ascending key.
pub uninterp spec fn string_object(json: Seq<char>) -> Option<Seq<(Seq<char>, Seq<char>)>>;

/// `serde_json::from_str` into a map of strings, under the name
/// `string_object`: the entries, or an error where there is none. Nothing is
/// claimed of which texts denote which maps, nor of the error.
#[verifier::external_body]
fn parse_string_object(json: &str) -> (r: Result<Vec<(String, String)>, serde_json::Error>)
    ensures
        match r {
            Ok(entries) => string_object(json@) == Some(ordered_map::views(entries@)),
            Err(_) => string_object(json@) is None,
        },
{
    serde_json::from_str::<std::collections::BTreeMap<String, String>>(json).map(|map| map.into_iter().collect())
}

/// The JSON text of a list of strings.
pub uninterp spec fn list_text(list: Seq<Seq<char>>) -> Option<Seq<char>>;

/// `serde_json::to_string` of a list of strings, under the name `list_text`.
#[verifier::external_body]
fn write_string_list(list: &Vec<String>) -> (r: Result<String, serde_json::Error>)
    ensures
        match r {
            Ok(json) => list_text(ordered_map::views(list@)) == Some(json@),
            Err(_) => list_text(ordered_map::views(list@)) is None,
        },
{
    serde_json::to_string(list)
}

/// The map that a row of entries makes, later ones winning.
pub open spec fn map_of(entries: Seq<(Seq<char>, Seq<char>)>) -> Map<Seq<char>, Seq<char>>
    decreases entries.len(),
{
    if entries.len() == 0 {
        Map::empty()
    } else {
        map_of(entries.drop_last()).insert(entries.last().0, entries.last().1)
    }
}

/// The map that a row of entries makes.
pub fn env_of(entries: Vec<(String, String)>) -> (r: EnvMap)
    ensures
        r@ == map_of(ordered_map::views(entries@)),
{
    let ghost all = ordered_map::views(entries@);
    let mut r: EnvMap = OrderedMap::new();
    let mut i: usize = 0;
    assert(all.take(0) =~= seq![]);
    while i < entries.len()
        invariant
            all == ordered_map::views(entries@),
            i <= entries@.len(),
            r@ == map_of(all.take(i as int)),
        decreases entries@.len() - i,
    {
        assert(all.take(i + 1).drop_last() =~= all.take(i as int));
        assert(all.take(i + 1).last() == entries@[i as int]@);
        let entry = &entries[i];
        r.insert(entry.0.clone(), entry.1.clone());
        i = i + 1;
    }
    assert(all.take(i as int) =~= all);
    r
}

/// The arguments without the program's name, as the flag parser takes them.
pub fn encode_argv(args: &Vec<String>) -> (r: Result<String, CliFlagError>)
    ensures
        match r {
            Ok(json) => list_text(user_args(ordered_map::views(args@))) == Some(json@),
            Err(e) => e is ArgsJson && list_text(user_args(ordered_map::views(args@))) is None,
        },
{
    let mut list: Vec<String> = Vec::new();
    let ghost wanted = user_args(ordered_map::views(args@));
    let mut i: usize = 1;
    while i < args.len()
        invariant
            wanted == user_args(ordered_map::views(args@)),
            1 <= i,
            args@.len() > 0 ==> i <= args@.len(),
            ordered_map::views(list@) =~= if args@.len() == 0 {
                seq![]
            } else {
                ordered_map::views(args@).subrange(1, i as int)
            },
        decreases args@.len() - i,
    {
        let ghost before = list@;
        list.push(args[i].clone());
        assert(ordered_map::views(list@) =~= ordered_map::views(before).push(args@[i as int]@));
        i = i + 1;
    }
    assert(ordered_map::views(list@) =~= wanted);
    match write_string_list(&list) {
        Ok(json) => Ok(json),
        Err(source) => Err(CliFlagError::ArgsJson { source }),
    }
}

/// The arguments without the program's name.
pub open spec fn user_args(args: Seq<Seq<char>>) -> Seq<Seq<char>> {
    if args.len() == 0 {
        seq![]
    } else {
        args.drop_first()
    }
}

/// What the flag parser says that the flags set.
pub fn decode_overrides(raw: &str) -> (r: Result<EnvMap, CliFlagError>)
    ensures
        match string_object(raw@) {
            Some(entries) => r matches Ok(map) && map@ == map_of(entries),
            None => r matches Err(CliFlagError::NativeJson { operation, .. }) && operation@
                == "parsing broker CLI flags"@,
        },
{
    match parse_string_object(raw) {
        Ok(entries) => Ok(env_of(entries)),
        Err(source) => Err(
            CliFlagError::NativeJson { operation: "parsing broker CLI flags", source },
        ),
    }
}

/// What the flag parser notes under `key`: a list, empty if the key is absent,
/// or nothing if the note is no list.
pub open spec fn noted(map: Map<Seq<char>, Seq<char>>, key: Seq<char>) -> Option<Seq<Seq<char>>> {
    if map.dom().contains(key) {
        string_list(map[key])
    } else {
        Some(seq![])
    }
}

/// Takes the parser's note under `key` off the map.
fn take_json_array(map: &mut EnvMap, key: &'static str) -> (r: Result<Vec<String>, CliFlagError>)
    ensures
        final(map)@ == old(map)@.remove(key@),
        match noted(old(map)@, key@) {
            Some(list) => r matches Ok(l) && ordered_map::views(l@) == list,
            None => r matches Err(CliFlagError::MetadataJson { key: k, .. }) && k@ == key@,
        },
{
    let name = String::from_str(key);
    match map.remove(&name) {
        None => {
            let none: Vec<String> = Vec::new();
            assert(ordered_map::views(none@) =~= seq![]);
            assert(map@ =~= old(map)@.remove(key@));
            Ok(none)
        },
        Some(value) => match parse_string_list(value.as_str()) {
            Ok(list) => Ok(list),
            Err(source) => Err(CliFlagError::MetadataJson { key, source }),
        },
    }
}

/// How many notes of each kind the flag parser made, or the kind whose note is
/// no list.
pub enum Notes {
    Counted { parse_errors: nat, unknown_options: nat, positionals: nat },
    Unreadable { key: Seq<char> },
}

/// The parser's notes in a map of overrides.
pub open spec fn notes(map: Map<Seq<char>, Seq<char>>) -> Notes {
    match (
        noted(map, PARSE_ERRORS_ENV@),
        noted(map.remove(PARSE_ERRORS_ENV@), UNKNOWN_OPTIONS_ENV@),
        noted(map.remove(PARSE_ERRORS_ENV@).remove(UNKNOWN_OPTIONS_ENV@), POSITIONALS_ENV@),
    ) {
        (None, _, _) => Notes::Unreadable { key: PARSE_ERRORS_ENV@ },
        (_, None, _) => Notes::Unreadable { key: UNKNOWN_OPTIONS_ENV@ },
        (_, _, None) => Notes::Unreadable { key: POSITIONALS_ENV@ },
        (Some(e), Some(u), Some(p)) => Notes::Counted {
            parse_errors: e.len(),
            unknown_options: u.len(),
            positionals: p.len(),
        },
    }
}

/// The overrides without the parser's notes.
pub open spec fn without_notes(map: Map<Seq<char>, Seq<char>>) -> Map<Seq<char>, Seq<char>> {
    map.remove(PARSE_ERRORS_ENV@).remove(UNKNOWN_OPTIONS_ENV@).remove(POSITIONALS_ENV@)
}

/// Whether `r` is what the parser's notes call for: a complaint of the first
/// kind of note there is, by severity.
pub open spec fn judges(r: Result<(), CliFlagError>, notes: Notes) -> bool {
    match notes {
        Notes::Unreadable { key } => r matches Err(CliFlagError::MetadataJson { key: k, .. }) && k@
            == key,
        Notes::Counted { parse_errors, unknown_options, positionals } => if parse_errors > 0 {
            r matches Err(CliFlagError::ParseErrors { count }) && count == parse_errors
        } else if unknown_options > 0 {
            r matches Err(CliFlagError::UnknownOptions { count }) && count == unknown_options
        } else if positionals > 0 {
            r matches Err(CliFlagError::Positionals { count }) && count == positionals
        } else {
            r is Ok
        },
    }
}

/// Takes the parser's notes off the overrides and judges them.
pub fn validate_parser_metadata(cli_overrides: &mut EnvMap) -> (r: Result<(), CliFlagError>)
    ensures
        judges(r, notes(old(cli_overrides)@)),
        final(cli_overrides)@ == if noted(old(cli_overrides)@, PARSE_ERRORS_ENV@) is None {
            old(cli_overrides)@.remove(PARSE_ERRORS_ENV@)
        } else if noted(
            old(cli_overrides)@.remove(PARSE_ERRORS_ENV@),
            UNKNOWN_OPTIONS_ENV@,
        ) is None {
            old(cli_overrides)@.remove(PARSE_ERRORS_ENV@).remove(UNKNOWN_OPTIONS_ENV@)
        } else {
            without_notes(old(cli_overrides)@)
        },
{
    let parse_errors = match take_json_array(cli_overrides, PARSE_ERRORS_ENV) {
        Ok(list) => list,
        Err(e) => {
            return Err(e);
        },
    };
    let unknown_options = match take_json_array(cli_overrides, UNKNOWN_OPTIONS_ENV) {
        Ok(list) => list,
        Err(e) => {
            return Err(e);
        },
    };
    let positionals = match take_json_array(cli_overrides, POSITIONALS_ENV) {
        Ok(list) => list,
        Err(e) => {
            return Err(e);
        },
    };
    if parse_errors.len() > 0 {
        return Err(CliFlagError::ParseErrors { count: parse_errors.len() });
    }
    if unknown_options.len() > 0 {
        return Err(CliFlagError::UnknownOptions { count: unknown_options.len() });
    }
    if positionals.len() > 0 {
        return Err(CliFlagError::Positionals { count: positionals.len() });
    }
    Ok(())
}

/// What is to be done with a command line.
#[derive(Debug)]
pub enum CliStep {
    /// No contract is needed: the environment stands as it is.
    Done(BrokerCliConfig),
    /// The table of flags is to be rendered for a contract.
    RenderHelp { config_path: String, command_name: String },
    /// The flags are to be parsed against a contract.
    Parse { config_path: String, argv_json: String },
}

/// Whether help is asked for.
pub open spec fn asks_help(args: Seq<Seq<char>>) -> bool {
    args.contains("--help"@) || args.contains("-h"@)
}

fn wants_help(args: &Vec<String>) -> (r: bool)
    ensures
        r == asks_help(ordered_map::views(args@)),
{
    let ghost all = ordered_map::views(args@);
    let mut i: usize = 0;
    while i < args.len()
        invariant
            all == ordered_map::views(args@),
            i <= args@.len(),
            forall|j: int| 0 <= j < i ==> #[trigger] all[j] != "--help"@ && all[j] != "-h"@,
        decreases args@.len() - i,
    {
        assert(all[i as int] == args@[i as int]@);
        if same_text(args[i].as_str(), "--help") || same_text(args[i].as_str(), "-h") {
            return true;
        }
        i = i + 1;
    }
    assert(!all.contains("--help"@));
    assert(!all.contains("-h"@));
    false
}

/// What is to be done with a command line, given which file is the contract.
pub fn load_broker_cli_config_from(args: &Vec<String>, env: EnvMap, config_path: Option<String>) -> (r:
    Result<CliStep, CliFlagError>)
    ensures
        ({
            let all = ordered_map::views(args@);
            match config_path {
                None => if user_args(all).len() == 0 {
                    r matches Ok(CliStep::Done(BrokerCliConfig::Run(run))) && {
                        &&& run.merged() == env@
                        &&& run.overrides() == Map::<Seq<char>, Seq<char>>::empty()
                        &&& run.source() is None
                    }
                } else {
                    r matches Err(CliFlagError::MissingConfig)
                },
                Some(path) => if asks_help(all) {
                    if shown_name(all).contains('\0') {
                        r matches Err(CliFlagError::CommandNameNul)
                    } else {
                        r matches Ok(CliStep::RenderHelp { config_path: p, command_name: n }) && p
                            == path && n@ == shown_name(all)
                    }
                } else {
                    match list_text(user_args(all)) {
                        Some(json) => r matches Ok(CliStep::Parse { config_path: p, argv_json: j })
                            && p == path && j@ == json,
                        None => r matches Err(CliFlagError::ArgsJson { .. }),
                    }
                },
            }
        }),
{
    let path = match config_path {
        Some(path) => path,
        None => {
            if args.len() <= 1 {
                return Ok(
                    CliStep::Done(
                        BrokerCliConfig::Run(
                            BrokerCliEnv {
                                merged_env: env,
                                cli_overrides: OrderedMap::new(),
                                source_path: None,
                            },
                        ),
                    ),
                );
            }
            return Err(CliFlagError::MissingConfig);
        },
    };
    if wants_help(args) {
        return match command_name(args) {
            Ok(command_name) => Ok(CliStep::RenderHelp { config_path: path, command_name }),
            Err(e) => Err(e),
        };
    }
    match encode_argv(args) {
        Ok(argv_json) => Ok(CliStep::Parse { config_path: path, argv_json }),
        Err(e) => Err(e),
    }
}

/// Lays `cli_overrides`, freed of the parser's notes, over the environment.
pub fn reconcile(env: EnvMap, cli_overrides: EnvMap, config_path: String) -> (r: Result<
    BrokerCliEnv,
    CliFlagError,
>)
    ensures
        match r {
            Ok(run) => {
                &&& judges(Ok(()), notes(cli_overrides@))
                &&& run.overrides() == without_notes(cli_overrides@)
                &&& run.merged() == env@.union_prefer_right(without_notes(cli_overrides@))
                &&& run.source() == Some(config_path@)
            },
            Err(e) => judges(Err(e), notes(cli_overrides@)),
        },
{
    let mut overrides = cli_overrides;
    match validate_parser_metadata(&mut overrides) {
        Ok(_) => {},
        Err(e) => {
            return Err(e);
        },
    }
    let ghost laid = overrides@;
    let mut merged = env;
    let mut i: usize = 0;
    assert(merged@ =~= env@.union_prefer_right(laid.restrict(overrides.keys().take(0).to_set())));
    while i < overrides.len()
        invariant
            laid == overrides@,
            i <= laid.len(),
            merged@ == env@.union_prefer_right(
                laid.restrict(overrides.keys().take(i as int).to_set()),
            ),
        decreases laid.len() - i,
    {
        let key = overrides.key_at(i);
        let value = overrides.value_at(i);
        merged.insert(key.clone(), value.clone());
        proof {
            let keys = overrides.keys();
            assert(keys.take(i + 1) =~= keys.take(i as int).push(keys[i as int]));
            keys.take(i as int).lemma_push_to_set_commute(keys[i as int]);
            assert(merged@ =~= env@.union_prefer_right(
                laid.restrict(keys.take(i + 1).to_set()),
            ));
        }
        i = i + 1;
    }
    proof {
        let keys = overrides.keys();
        assert(keys.take(i as int) =~= keys);
        assert(laid.restrict(keys.to_set()) =~= laid);
    }
    Ok(BrokerCliEnv { merged_env: merged, cli_overrides: overrides, source_path: Some(config_path) })
}

/// Lays what the flag parser answered over the environment.
pub fn finish_run(env: EnvMap, config_path: String, raw: &str) -> (r: Result<
    BrokerCliEnv,
    CliFlagError,
>)
    ensures
        match string_object(raw@) {
            None => r matches Err(CliFlagError::NativeJson { operation, .. }) && operation@
                == "parsing broker CLI flags"@,
            Some(entries) => match r {
                Ok(run) => {
                    &&& judges(Ok(()), notes(map_of(entries)))
                    &&& run.overrides() == without_notes(map_of(entries))
                    &&& run.merged() == env@.union_prefer_right(without_notes(map_of(entries)))
                    &&& run.source() == Some(config_path@)
                },
                Err(e) => judges(Err(e), notes(map_of(entries))),
            },
        },
{
    match decode_overrides(raw) {
        Ok(overrides) => reconcile(env, overrides, config_path),
        Err(e) => Err(e),
    }
}

/// A flag wins over the environment, and what no flag sets stays as it is.
pub proof fn flags_take_precedence(
    env: Map<Seq<char>, Seq<char>>,
    overrides: Map<Seq<char>, Seq<char>>,
    key: Seq<char>,
)
    ensures
        overrides.dom().contains(key) ==> {
            &&& env.union_prefer_right(overrides).dom().contains(key)
            &&& env.union_prefer_right(overrides)[key] == overrides[key]
        },
        !overrides.dom().contains(key) ==> {
            &&& env.union_prefer_right(overrides).dom().contains(key) == env.dom().contains(key)
            &&& env.dom().contains(key) ==> env.union_prefer_right(overrides)[key] == env[key]
        },
{
}

/// The flags set what the parser says of them last; names that it does not say are not
/// set.
pub proof fn the_last_entry_counts(entries: Seq<(Seq<char>, Seq<char>)>, i: int)
    requires
        0 <= i < entries.len(),
        forall|j: int| i < j < entries.len() ==> (#[trigger] entries[j]).0 != entries[i].0,
    ensures
        map_of(entries).dom().contains(entries[i].0),
        map_of(entries)[entries[i].0] == entries[i].1,
        forall|k: Seq<char>| #[trigger]
            map_of(entries).dom().contains(k) ==> exists|j: int|
                0 <= j < entries.len() && (#[trigger] entries[j]).0 == k,
    decreases entries.len(),
{
    lemma_named(entries);
    let front = entries.drop_last();
    if i < entries.len() - 1 {
        assert(front[i] == entries[i]);
        assert(entries[entries.len() - 1].0 != entries[i].0);
        assert forall|j: int| i < j < front.len() implies (#[trigger] front[j]).0 != front[i].0 by {
            assert(front[j] == entries[j]);
        }
        the_last_entry_counts(front, i);
    }
}

/// Only what is said is set.
proof fn lemma_named(entries: Seq<(Seq<char>, Seq<char>)>)
    ensures
        forall|k: Seq<char>| #[trigger]
            map_of(entries).dom().contains(k) ==> exists|j: int|
                0 <= j < entries.len() && (#[trigger] entries[j]).0 == k,
    decreases entries.len(),
{
    if entries.len() > 0 {
        let front = entries.drop_last();
        lemma_named(front);
        assert forall|k: Seq<char>| #[trigger] map_of(entries).dom().contains(k) implies exists|
            j: int,
        | 0 <= j < entries.len() && (#[trigger] entries[j]).0 == k by {
            if k == entries.last().0 {
                assert(entries[entries.len() - 1].0 == k);
            } else {
                assert(map_of(front).dom().contains(k));
                let j = choose|j: int| 0 <= j < front.len() && (#[trigger] front[j]).0 == k;
                assert(entries[j].0 == k);
            }
        }
    }
}

/// The notes of the parser are no settings, and everything else stays one.
pub proof fn notes_are_no_settings(map: Map<Seq<char>, Seq<char>>, key: Seq<char>)
    ensures
        ({
            let note = key == PARSE_ERRORS_ENV@ || key == UNKNOWN_OPTIONS_ENV@ || key
                == POSITIONALS_ENV@;
            &&& without_notes(map).dom().contains(key) <==> map.dom().contains(key) && !note
            &&& without_notes(map).dom().contains(key) ==> without_notes(map)[key] == map[key]
        }),
{
}

/// A command line is accepted exactly if the parser notes nothing against it: every
/// note that is there is an empty list.
pub proof fn a_command_line_without_notes_is_accepted(map: Map<Seq<char>, Seq<char>>)
    ensures
        judges(Ok(()), notes(map)) <==> {
            let silent = |key: Seq<char>|
                map.dom().contains(key) ==> string_list(map[key]) is Some && string_list(
                    map[key],
                )->0.len() == 0;
            silent(PARSE_ERRORS_ENV@) && silent(UNKNOWN_OPTIONS_ENV@) && silent(POSITIONALS_ENV@)
        },
{
}

/// A command line with notes is refused for the gravest of them: values that are none
/// before options that are unknown before arguments that belong to no option, each
/// with how many there are.
pub proof fn a_command_line_is_refused_for_the_gravest_note(
    r: Result<(), CliFlagError>,
    errors: nat,
    unknown: nat,
    positionals: nat,
)
    requires
        judges(
            r,
            Notes::Counted {
                parse_errors: errors,
                unknown_options: unknown,
                positionals,
            },
        ),
    ensures
        r is Ok <==> errors == 0 && unknown == 0 && positionals == 0,
        errors > 0 ==> (r matches Err(CliFlagError::ParseErrors { count }) && count == errors),
        errors == 0 && unknown > 0 ==> (r matches Err(CliFlagError::UnknownOptions { count })
            && count == unknown),
        errors == 0 && unknown == 0 && positionals > 0 ==> (r
            matches Err(CliFlagError::Positionals { count }) && count == positionals),
{
}

/// A path is absolute exactly if it starts with a slash, and what lies below an
/// absolute directory is absolute.
pub proof fn absolute_paths_start_with_a_slash(base: Seq<char>, part: Seq<char>)
    ensures
        absolute(base) <==> base.len() > 0 && base[0] == '/',
        absolute(base) ==> absolute(below(base, part)),
        base.len() > 0 && base.last() != '/' ==> below(base, part).len() == base.len() + 1
            + part.len() && below(base, part)[base.len() as int] == '/',
        below(base, part).len() >= part.len(),
        below(base, part).skip(below(base, part).len() - part.len()) == part,
        base == below(base, part).take(base.len() as int),
{
    reveal_strlit("/");
    let r = below(base, part);
    assert(r.skip(r.len() - part.len()) =~= part);
    assert(r.take(base.len() as int) =~= base);
}

/// An explicitly named contract is taken exactly if its path is absolute and it is
/// there to read; else it is said which of the two it lacks.
pub proof fn an_explicit_contract_is_absolute_and_readable(c: Candidate)
    ensures
        explicit_verdict(c) is Ok <==> c.path@.len() > 0 && c.path@[0] == '/' && c.canonical is Some,
        explicit_verdict(c) is Ok ==> explicit_verdict(c) == Ok::<Seq<char>, CliFlagError>(
            c.canonical->0@,
        ),
        explicit_verdict(c) is Err && c.path@.len() > 0 && c.path@[0] == '/' ==> explicit_verdict(c)
            == Err::<Seq<char>, CliFlagError>(CliFlagError::ExplicitConfigUnreadable),
        explicit_verdict(c) is Err && !(c.path@.len() > 0 && c.path@[0] == '/')
            ==> explicit_verdict(c) == Err::<Seq<char>, CliFlagError>(
            CliFlagError::ExplicitConfigMustBeAbsolute,
        ),
{
}

/// The name of a file is what follows the last slash of its path, if that names
/// something; slashes at the end do not count.
pub proof fn a_file_is_named_by_the_end_of_its_path(dir: Seq<char>, name: Seq<char>)
    requires
        name.len() > 0,
        forall|i: int| 0 <= i < name.len() ==> #[trigger] name[i] != '/',
        name != "."@,
        name != ".."@,
    ensures
        file_name(name) == Some(name),
        file_name(dir.push('/') + name) == Some(name),
        file_name((dir.push('/') + name).push('/')) == Some(name),
{
    let path = dir.push('/') + name;
    let start = dir.len() + 1;
    lemma_last_part(name, 0);
    assert(name.skip(0) =~= name);
    assert(name.last() == name[name.len() - 1]);
    assert forall|i: int| start <= i < path.len() implies #[trigger] path[i] != '/' by {
        assert(path[i] == name[i - start]);
    }
    lemma_last_part(path, start as int);
    assert(path.skip(start as int) =~= name);
    assert(path.last() == name.last());
    assert(path.push('/').drop_last() =~= path);
    assert(path.push('/').last() == '/');
}

/// The arguments are those after the program's name.
pub proof fn arguments_follow_the_name_of_the_program(
    name: Seq<char>,
    rest: Seq<Seq<char>>,
)
    ensures
        user_args(seq![name] + rest) == rest,
        user_args(Seq::empty()).len() == 0,
        asks_help(seq![name] + rest) <==> name == "--help"@ || name == "-h"@ || rest.contains(
            "--help"@,
        ) || rest.contains("-h"@),
{
    let all = seq![name] + rest;
    assert(all.drop_first() =~= rest);
    assert forall|w: Seq<char>| #[trigger] all.contains(w) <==> name == w || rest.contains(w) by {
        if name == w {
            assert(all[0] == w);
        }
        if rest.contains(w) {
            let i = choose|i: int| 0 <= i < rest.len() && rest[i] == w;
            assert(all[i + 1] == w);
        }
        if all.contains(w) {
            let i = choose|i: int| 0 <= i < all.len() && all[i] == w;
            if i > 0 {
                assert(rest[i - 1] == w);
            }
        }
    }
}

/// A contract is looked for in the package's share directory first, in the directory of
/// the program next, and after these in the places that are given, in their order.
/// Without a directory of the program only these count.
pub proof fn the_package_comes_first(
    parent: Option<Seq<char>>,
    implicit: Seq<Seq<char>>,
    name: Seq<char>,
    i: int,
)
    requires
        parent is Some ==> parent->0.len() > 0 && parent->0.last() != '/',
        name == ".cli-flags.toml"@,
        0 <= i < implicit.len(),
    ensures
        ({
            let places = candidate_paths(parent, implicit);
            &&& parent is None ==> places == implicit
            &&& parent is Some ==> places.len() == implicit.len() + 2 && places[i + 2]
                == implicit[i]
            &&& parent is Some ==> places[0] == parent->0 + "/../share/dd-rust-network-mutex/"@ + name
            &&& parent is Some ==> places[1] == parent->0 + "/"@ + name
        }),
{
    if parent is Some {
        let dir = parent->0;
        reveal_strlit("/../share/dd-rust-network-mutex/");
        reveal_strlit("dd-rust-network-mutex");
        reveal_strlit("share");
        reveal_strlit("..");
        reveal_strlit("/");
        let up = below(dir, ".."@);
        assert(up.last() == '.');
        let share = below(up, "share"@);
        assert(share.last() == 'e');
        let package = below(share, PACKAGE_SHARE_DIR@);
        assert(package.last() == 'x');
        assert(package =~= dir + "/../share/dd-rust-network-mutex"@) by {
            reveal_strlit("/../share/dd-rust-network-mutex");
        }
        assert(package + "/"@ =~= dir + "/../share/dd-rust-network-mutex/"@);
        let places = candidate_paths(parent, implicit);
        assert(places[0] =~= dir + "/../share/dd-rust-network-mutex/"@ + name);
        assert(places[1] =~= dir + "/"@ + name);
        assert(places[i + 2] == implicit[i]);
    }
}

/// Help is asked for by either of two flags, wherever it stands, and by nothing else.
pub proof fn help_is_asked_for_anywhere(before: Seq<Seq<char>>, arg: Seq<char>, after: Seq<Seq<char>>)
    ensures
        arg == "--help"@ || arg == "-h"@ ==> asks_help(before.push(arg) + after),
        arg != "--help"@ && arg != "-h"@ ==> asks_help(before.push(arg) + after) == (asks_help(
            before,
        ) || asks_help(after)),
{
    let all = before.push(arg) + after;
    assert(all[before.len() as int] == arg);
    assert forall|x: Seq<char>| x != arg implies #[trigger] all.contains(x) == (before.contains(x)
        || after.contains(x)) by {
        if before.contains(x) {
            let i = choose|i: int| 0 <= i < before.len() && before[i] == x;
            assert(all[i] == x);
        }
        if after.contains(x) {
            let i = choose|i: int| 0 <= i < after.len() && after[i] == x;
            assert(all[before.len() + 1 + i] == x);
        }
        if all.contains(x) {
            let i = choose|i: int| 0 <= i < all.len() && all[i] == x;
            if i < before.len() {
                assert(before[i] == x);
            } else {
                assert(after[i - before.len() - 1] == x);
            }
        }
    }
}

} // verus!
