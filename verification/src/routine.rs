//! Log level and trace export, and how they change at run time.
//!
//! The values here are what the process knows of its telemetry; the transport
//! keeps one of them and carries the changes over to the subscriber.

use crate::directives;
use crate::scan;
use vstd::prelude::*;
use vstd::string::StringExecFns;

verus! {

/// What the process knows of its telemetry.
#[derive(Debug, Clone)]
pub struct Telemetry {
    /// Whether spans are exported. Off until an exporter is wired up.
    pub otel_enabled: bool,
    /// Whether an exporter is wired up.
    pub exporter: bool,
    /// Whether the subscriber can be given another filter.
    pub reloadable: bool,
    /// The directive of the filter; empty before initialisation.
    pub directive: String,
    /// Whether the initialisation has run.
    pub initialised: bool,
}

impl Telemetry {
    /// Nothing is initialised yet.
    pub fn new() -> (r: Self)
        ensures
            !r.otel_enabled,
            !r.exporter,
            !r.reloadable,
            r.directive@ == Seq::<char>::empty(),
            !r.initialised,
    {
        Telemetry {
            otel_enabled: false,
            exporter: false,
            reloadable: false,
            directive: String::new(),
            initialised: false,
        }
    }
}

/// What `tracing_subscriber` says against a filter directive, if anything.
pub uninterp spec fn filter_fault(directive: Seq<char>) -> Option<Seq<char>>;

/// What `tracing_subscriber::EnvFilter::try_new` says against a directive, under
/// the name `filter_fault`: nothing if it parses, else the error's text. Which
/// directives parse is not stated. A directive of which the parser would cut a
/// character is left out: there it panics.
#[verifier::external_body]
fn parse_directive(directive: &str) -> (r: Option<String>)
    requires
        directives::legible(directive@),
    ensures
        crate::protocol::shown_text(r) == filter_fault(directive@),
{
    match tracing_subscriber::EnvFilter::try_new(directive) {
        Ok(_) => None,
        Err(err) => Some(err.to_string()),
    }
}

/// What speaks against a directive as such: what the parser says. Where it would
/// cut a character, that is what it says of the front before, or else that the
/// directive is none.
pub open spec fn directive_fault(directive: Seq<char>) -> Option<Seq<char>> {
    let front = directives::legible_front(directive);
    if directives::legible(directive) {
        filter_fault(directive)
    } else if directives::legible(front) && filter_fault(front) is Some {
        filter_fault(front)
    } else {
        Some("invalid filter directive"@)
    }
}

/// What speaks against a directive as such.
fn fault_of(directive: &str) -> (r: Option<String>)
    ensures
        crate::protocol::shown_text(r) == directive_fault(directive@),
{
    if directives::is_legible(directive) {
        return parse_directive(directive);
    }
    let front = directives::front_of(directive);
    if directives::is_legible(front) {
        if let Some(text) = parse_directive(front) {
            return Some(text);
        }
    }
    Some(String::from_str("invalid filter directive"))
}

/// The directive in effect. Empty before initialisation.
pub fn current_log_level(telemetry: &Telemetry) -> (r: String)
    ensures
        r@ == telemetry.directive@,
{
    telemetry.directive.clone()
}

/// Whether spans are exported.
pub fn is_otel_enabled(telemetry: &Telemetry) -> (r: bool)
    ensures
        r == telemetry.otel_enabled,
{
    telemetry.otel_enabled
}

/// Switches the export of spans. Returns how it was before.
pub fn set_otel_enabled(telemetry: &mut Telemetry, enabled: bool) -> (r: bool)
    ensures
        r == old(telemetry).otel_enabled,
        *final(telemetry) == (Telemetry { otel_enabled: enabled, ..*old(telemetry) }),
{
    let previous = telemetry.otel_enabled;
    telemetry.otel_enabled = enabled;
    previous
}

/// Whether spans must be flushed before the process ends: only if an exporter
/// is wired up.
pub fn shutdown_tracing(telemetry: &Telemetry) -> (r: bool)
    ensures
        r == telemetry.exporter,
{
    telemetry.exporter
}

/// What speaks against a new directive, given what the parser says.
pub open spec fn directive_refusal(fault: Option<Seq<char>>, reloadable: bool) -> Option<Seq<char>> {
    match fault {
        Some(text) => Some(text),
        None => if reloadable {
            None
        } else {
            Some("tracing reload handle not installed (init_tracing not run)"@)
        },
    }
}

/// Whether a directive may go to the subscriber, given what the parser says.
pub fn admits_directive(telemetry: &Telemetry, fault: Option<String>) -> (r: Result<(), String>)
    ensures
        match directive_refusal(crate::protocol::shown_text(fault), telemetry.reloadable) {
            None => r is Ok,
            Some(text) => r matches Err(e) && e@ == text,
        },
{
    match fault {
        Some(text) => Err(text),
        None => if telemetry.reloadable {
            Ok(())
        } else {
            Err(String::from_str("tracing reload handle not installed (init_tracing not run)"))
        },
    }
}

/// Whether a directive may go to the subscriber: it must parse, and the
/// subscriber must be there.
pub fn check_log_level(telemetry: &Telemetry, directive: &str) -> (r: Result<(), String>)
    ensures
        match directive_refusal(directive_fault(directive@), telemetry.reloadable) {
            None => r is Ok,
            Some(text) => r matches Err(e) && e@ == text,
        },
{
    admits_directive(telemetry, fault_of(directive))
}

/// Records a new directive that the parser and the subscriber have, or have
/// not, taken. Returns the directive, or what the first of them said.
pub fn record_log_level(
    telemetry: &mut Telemetry,
    directive: &str,
    fault: Option<String>,
    reloaded: Result<(), String>,
) -> (r: Result<String, String>)
    ensures
        match (directive_refusal(crate::protocol::shown_text(fault), old(telemetry).reloadable),
            reloaded) {
            (Some(text), _) => r matches Err(e) && e@ == text && *final(telemetry) == *old(
                telemetry,
            ),
            (None, Err(text)) => r == Err::<String, String>(text) && *final(telemetry) == *old(
                telemetry,
            ),
            (None, Ok(_)) => {
                &&& r matches Ok(d) && d@ == directive@
                &&& final(telemetry).directive@ == directive@
                &&& *final(telemetry) == (Telemetry {
                    directive: final(telemetry).directive,
                    ..*old(telemetry)
                })
            },
        },
{
    match admits_directive(telemetry, fault) {
        Err(text) => {
            return Err(text);
        },
        Ok(_) => {},
    }
    match reloaded {
        Err(text) => Err(text),
        Ok(_) => {
            telemetry.directive = String::from_str(directive);
            Ok(String::from_str(directive))
        },
    }
}

/// Sets the directive, `reloaded` being what the subscriber said of it. Returns
/// the directive, or what speaks against it.
pub fn set_log_level(
    telemetry: &mut Telemetry,
    directive: &str,
    reloaded: Result<(), String>,
) -> (r: Result<String, String>)
    ensures
        match (directive_refusal(directive_fault(directive@), old(telemetry).reloadable), reloaded) {
            (Some(text), _) => r matches Err(e) && e@ == text && *final(telemetry) == *old(
                telemetry,
            ),
            (None, Err(text)) => r == Err::<String, String>(text) && *final(telemetry) == *old(
                telemetry,
            ),
            (None, Ok(_)) => {
                &&& r matches Ok(d) && d@ == directive@
                &&& final(telemetry).directive@ == directive@
                &&& *final(telemetry) == (Telemetry {
                    directive: final(telemetry).directive,
                    ..*old(telemetry)
                })
            },
        },
{
    let fault = fault_of(directive);
    record_log_level(telemetry, directive, fault, reloaded)
}

/// The directive at the start: the setting `RUST_LOG`, else `info`.
pub open spec fn initial_text(setting: Option<Seq<char>>) -> Seq<char> {
    match setting {
        Some(s) => s,
        None => "info"@,
    }
}

/// The directive at the start: the setting `RUST_LOG`, else `info`.
pub fn initial_directive(setting: Option<&str>) -> (r: String)
    ensures
        r@ == initial_text(scan::shown_str(setting)),
{
    match setting {
        Some(s) => String::from_str(s),
        None => String::from_str("info"),
    }
}

/// The directive that the subscriber starts with: the one set, or `info` if
/// something speaks against that.
pub fn starting_filter(setting: Option<&str>) -> (r: String)
    ensures
        r@ == match directive_fault(initial_text(scan::shown_str(setting))) {
            None => initial_text(scan::shown_str(setting)),
            Some(_) => "info"@,
        },
{
    let directive = initial_directive(setting);
    match fault_of(directive.as_str()) {
        None => directive,
        Some(_) => String::from_str("info"),
    }
}

/// Records the initialisation: `exporter` tells whether an exporter was wired
/// up, `installed` whether the subscriber was installed. Only the first call does
/// anything.
pub fn init_tracing(
    telemetry: &mut Telemetry,
    setting: Option<&str>,
    exporter: bool,
    installed: bool,
)
    ensures
        old(telemetry).initialised ==> *final(telemetry) == *old(telemetry),
        !old(telemetry).initialised ==> {
            &&& final(telemetry).initialised
            &&& final(telemetry).exporter == (old(telemetry).exporter || exporter)
            &&& final(telemetry).otel_enabled == (old(telemetry).otel_enabled || exporter)
            &&& final(telemetry).reloadable == (old(telemetry).reloadable || installed)
            &&& final(telemetry).directive@ == if installed && old(telemetry).directive@.len()
                == 0 {
                initial_text(scan::shown_str(setting))
            } else {
                old(telemetry).directive@
            }
        },
{
    if telemetry.initialised {
        return;
    }
    telemetry.initialised = true;
    if exporter {
        telemetry.exporter = true;
        telemetry.otel_enabled = true;
    }
    if installed {
        telemetry.reloadable = true;
        if telemetry.directive.as_str().is_empty() {
            telemetry.directive = initial_directive(setting);
        }
    }
}

/// Whether the log is written as JSON: only if the setting `LMX_LOG_FORMAT`
/// says so.
pub fn logs_json(setting: Option<&str>) -> (r: bool)
    ensures
        r == (scan::shown_str(setting) == Some("json"@)),
{
    match setting {
        Some(s) => scan::same_text(s, "json"),
        None => false,
    }
}

/// A directive goes to the subscriber exactly if nothing speaks against it and the
/// subscriber is there; what speaks against it is told first.
pub proof fn a_directive_needs_a_subscriber(fault: Option<Seq<char>>, reloadable: bool)
    ensures
        directive_refusal(fault, reloadable) is None <==> fault is None && reloadable,
        fault is Some ==> directive_refusal(fault, reloadable) == fault,
        fault is None && !reloadable ==> directive_refusal(fault, reloadable) == Some(
            "tracing reload handle not installed (init_tracing not run)"@,
        ),
{
}

/// The log starts with what is set, and with `info` where nothing is.
pub proof fn the_log_starts_with_what_is_set(s: Seq<char>)
    ensures
        initial_text(Some(s)) == s,
        initial_text(None) == "info"@,
{
}

/// What speaks against a directive is what the parser says of it, where the parser cuts
/// no character of it; where it does, something always speaks against it.
pub proof fn an_illegible_directive_is_refused(directive: Seq<char>)
    ensures
        directives::legible(directive) ==> directive_fault(directive) == filter_fault(directive),
        !directives::legible(directive) ==> directive_fault(directive) is Some,
{
}

} // verus!
