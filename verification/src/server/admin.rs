//! The administration surface: trace export, log level and socket options, each
//! switched at run time by a caller with the admin token.

use crate::routine;
use crate::routine::{set_log_level, set_otel_enabled, Telemetry};
use crate::scan;
use crate::scan::{chars_of, trim};
use crate::server::http;
use crate::server::http::token_presented;
use crate::text::{join3, join5};
use vstd::prelude::*;
use vstd::string::StringExecFns;

verus! {

/// The admin token in the absence of a setting.
pub const DEFAULT_ADMIN_TOKEN: &'static str = "all-dogs-go-to-heaven";

/// The admin token: the setting `LMX_ADMIN_TOKEN` unless it is blank.
pub open spec fn admin_token_text(setting: Option<Seq<char>>) -> Seq<char> {
    match setting {
        Some(s) => if scan::trimmed(s).len() > 0 {
            s
        } else {
            DEFAULT_ADMIN_TOKEN@
        },
        None => DEFAULT_ADMIN_TOKEN@,
    }
}

/// The admin token: the setting `LMX_ADMIN_TOKEN` unless it is blank.
pub fn admin_token(setting: Option<&str>) -> (r: String)
    ensures
        r@ == admin_token_text(scan::shown_str(setting)),
{
    match setting {
        Some(s) => if trim(s).is_empty() {
            String::from_str(DEFAULT_ADMIN_TOKEN)
        } else {
            String::from_str(s)
        },
        None => String::from_str(DEFAULT_ADMIN_TOKEN),
    }
}

/// Whether a caller with these headers presents the admin token. `custom` is
/// the header `x-admin-token`.
pub fn admin_authorized(
    setting: Option<&str>,
    authorization: Option<&str>,
    custom: Option<&str>,
) -> (r: bool)
    ensures
        r == http::presents_token(
            admin_token_text(scan::shown_str(setting)),
            scan::shown_str(authorization),
            scan::shown_str(custom),
        ),
{
    token_presented(admin_token(setting).as_str(), authorization, custom)
}

/// What an unauthorised caller is told.
pub const UNAUTHORIZED_TEXT: &'static str =
    "admin endpoint requires `x-admin-token` (or `Authorization: Bearer ...`).";

/// `c` in lower case, if it is an ASCII letter.
pub open spec fn ascii_lower(c: char) -> char {
    if 'A' <= c <= 'Z' {
        (c as u32 + 32) as char
    } else {
        c
    }
}

/// Whether `c` is the lower-case ASCII letter `low` in either case.
fn is_letter(c: char, low: char, up: char) -> (r: bool)
    requires
        'A' <= up <= 'Z',
        low as u32 == up as u32 + 32,
    ensures
        r == (ascii_lower(c) == low),
{
    proof {
        assert('A' as u32 == 65 && 'Z' as u32 == 90);
        if 'A' <= c && c <= 'Z' {
            assert(((c as u32 + 32) as char) as u32 == c as u32 + 32);
        }
    }
    c == low || c == up
}

/// Whether the page's script makes the request: the header `hx-request` says
/// `true`, in whatever case.
pub fn is_htmx_request(header: Option<&str>) -> (r: bool)
    ensures
        r == match header {
            Some(value) => value@.map_values(|c: char| ascii_lower(c)) == "true"@,
            None => false,
        },
{
    match header {
        Some(value) => {
            proof {
                reveal_strlit("true");
            }
            let chars = chars_of(value);
            let ghost low = value@.map_values(|c: char| ascii_lower(c));
            let r = chars.len() == 4 && is_letter(chars[0], 't', 'T') && is_letter(
                chars[1],
                'r',
                'R',
            ) && is_letter(chars[2], 'u', 'U') && is_letter(chars[3], 'e', 'E');
            proof {
                if r {
                    assert(low =~= "true"@);
                } else if low == "true"@ {
                    assert(low.len() == 4);
                    assert(low[0] == 't' && low[1] == 'r' && low[2] == 'u' && low[3] == 'e');
                }
            }
            r
        },
        None => false,
    }
}

/// Whether a body is form-encoded, by its content type. Everything else counts
/// as JSON.
pub fn is_form(content_type: Option<&str>) -> (r: bool)
    ensures
        r == match content_type {
            Some(value) => "application/x-www-form-urlencoded"@.is_prefix_of(value@),
            None => false,
        },
{
    match content_type {
        Some(value) => {
            let form = chars_of("application/x-www-form-urlencoded");
            let chars = chars_of(value);
            if chars.len() < form.len() {
                return false;
            }
            let mut i: usize = 0;
            while i < form.len()
                invariant
                    content_type == Some(value),
                    form@ == "application/x-www-form-urlencoded"@,
                    chars@ == value@,
                    form@.len() <= chars@.len(),
                    i <= form@.len(),
                    forall|j: int| 0 <= j < i ==> form@[j] == chars@[j],
                decreases form@.len() - i,
            {
                if form[i] != chars[i] {
                    assert(!form@.is_prefix_of(value@)) by {
                        if form@.is_prefix_of(value@) {
                            assert(value@.subrange(0, form@.len() as int)[i as int]
                                == value@[i as int]);
                        }
                    }
                    return false;
                }
                i = i + 1;
            }
            assert(form@ =~= value@.subrange(0, form@.len() as int));
            true
        },
        None => false,
    }
}

/// What stands for `c` in HTML.
pub open spec fn entity(c: char) -> Seq<char> {
    if c == '&' {
        "&amp;"@
    } else if c == '<' {
        "&lt;"@
    } else if c == '>' {
        "&gt;"@
    } else if c == '"' {
        "&quot;"@
    } else if c == '\'' {
        "&#39;"@
    } else {
        seq![c]
    }
}

/// `s` as HTML text.
pub open spec fn escaped(s: Seq<char>) -> Seq<char>
    decreases s.len(),
{
    if s.len() == 0 {
        seq![]
    } else {
        escaped(s.drop_last()) + entity(s.last())
    }
}

/// `s` as HTML text.
pub fn html_escape_min(s: &str) -> (r: String)
    ensures
        r@ == escaped(s@),
{
    let chars = chars_of(s);
    let mut out = String::new();
    let mut i: usize = 0;
    assert(s@.take(0) =~= seq![]);
    while i < chars.len()
        invariant
            chars@ == s@,
            i <= chars@.len(),
            out@ == escaped(s@.take(i as int)),
        decreases chars@.len() - i,
    {
        let c = chars[i];
        assert(s@.take(i + 1).drop_last() =~= s@.take(i as int));
        let ghost before = out@;
        if c == '&' {
            out.append("&amp;");
        } else if c == '<' {
            out.append("&lt;");
        } else if c == '>' {
            out.append("&gt;");
        } else if c == '"' {
            out.append("&quot;");
        } else if c == '\'' {
            out.append("&#39;");
        } else {
            out.push(c);
        }
        assert(out@ =~= before + entity(c));
        i = i + 1;
    }
    assert(s@.take(i as int) =~= s@);
    out
}

/// Escaped text opens no tag and closes no attribute.
pub proof fn escaped_text_is_inert(s: Seq<char>)
    ensures
        forall|i: int|
            0 <= i < escaped(s).len() ==> {
                let c = #[trigger] escaped(s)[i];
                c != '<' && c != '>' && c != '"' && c != '\''
            },
    decreases s.len(),
{
    if s.len() > 0 {
        escaped_text_is_inert(s.drop_last());
        reveal_strlit("&amp;");
        reveal_strlit("&lt;");
        reveal_strlit("&gt;");
        reveal_strlit("&quot;");
        reveal_strlit("&#39;");
        let before = escaped(s.drop_last());
        let last = entity(s.last());
        assert forall|i: int| 0 <= i < escaped(s).len() implies {
            let c = #[trigger] escaped(s)[i];
            c != '<' && c != '>' && c != '"' && c != '\''
        } by {
            if i < before.len() {
                assert(escaped(s)[i] == before[i]);
            } else {
                assert(escaped(s)[i] == last[i - before.len()]);
            }
        }
    }
}

/// `on` or `off`.
pub open spec fn switch_text(on: bool) -> Seq<char> {
    if on {
        "on"@
    } else {
        "off"@
    }
}

fn switch_word(on: bool) -> (r: &'static str)
    ensures
        r@ == switch_text(on),
{
    if on {
        "on"
    } else {
        "off"
    }
}

/// The state of the trace export as a piece of HTML.
pub fn render_otel_snippet(enabled: bool) -> (r: String)
    ensures
        r@ == "otel: <strong>"@ + switch_text(enabled) + "</strong>"@,
{
    join3("otel: <strong>", switch_word(enabled), "</strong>")
}

/// An error as a piece of HTML.
pub open spec fn error_snippet(topic: Seq<char>, error: Seq<char>) -> Seq<char> {
    topic + ": <strong>error</strong> ("@ + escaped(error) + ")"@
}

fn render_error_snippet(topic: &str, error: &str) -> (r: String)
    ensures
        r@ == error_snippet(topic@, error@),
{
    let mut r = join3(topic, ": <strong>error</strong> (", html_escape_min(error).as_str());
    r.append(")");
    r
}

/// What an admin caller is told: a piece of HTML for the page's script, a value
/// or an error for everyone else.
pub enum AdminReply<T> {
    Html { status: u16, body: String },
    Value(T),
    Error { status: u16, error: String },
}

/// A refusal: HTML for the page's script, an error for everyone else.
pub open spec fn refuses<T>(
    r: AdminReply<T>,
    htmx: bool,
    snippet: Seq<char>,
    message: Seq<char>,
) -> bool {
    if htmx {
        r matches AdminReply::Html { status: 400, body } && body@ == snippet
    } else {
        r matches AdminReply::Error { status: 400, error } && error@ == message
    }
}

/// The trace export before and after a change.
#[derive(Debug, Clone, Copy, PartialEq, Eq, Structural)]
pub struct OtelChange {
    pub previous: bool,
    pub enabled: bool,
}

/// Switches the trace export as an authorised caller asks. `parsed` is the
/// `enabled` field of the body, or what the parser says against the body.
pub fn admin_otel_post(telemetry: &mut Telemetry, htmx: bool, parsed: Result<bool, String>) -> (r:
    AdminReply<OtelChange>)
    ensures
        match parsed {
            Err(err) => {
                &&& *final(telemetry) == *old(telemetry)
                &&& refuses(
                    r,
                    htmx,
                    error_snippet("otel"@, err@),
                    "`enabled` is required and must be a boolean ("@ + err@ + ")."@,
                )
            },
            Ok(enabled) => {
                &&& *final(telemetry) == (Telemetry { otel_enabled: enabled, ..*old(telemetry) })
                &&& if htmx {
                    r matches AdminReply::Html { status: 200, body } && body@ == "otel: <strong>"@
                        + switch_text(enabled) + "</strong>"@
                } else {
                    r matches AdminReply::Value(change) && change == (OtelChange {
                        previous: old(telemetry).otel_enabled,
                        enabled,
                    })
                }
            },
        },
{
    match parsed {
        Err(err) => {
            if htmx {
                AdminReply::Html { status: 400, body: render_error_snippet("otel", err.as_str()) }
            } else {
                AdminReply::Error {
                    status: 400,
                    error: join3(
                        "`enabled` is required and must be a boolean (",
                        err.as_str(),
                        ").",
                    ),
                }
            }
        },
        Ok(enabled) => {
            let previous = set_otel_enabled(telemetry, enabled);
            if htmx {
                AdminReply::Html { status: 200, body: render_otel_snippet(enabled) }
            } else {
                AdminReply::Value(OtelChange { previous, enabled })
            }
        },
    }
}

/// The log level before and after a change, or what speaks against it.
#[derive(Debug, Clone)]
pub enum LogLevelChange {
    Applied { previous: String, directive: String },
    Refused { previous: String, error: String },
}

/// Whether `r` tells how a change of the log level from `previous` went.
pub open spec fn tells_log_level(
    r: AdminReply<LogLevelChange>,
    htmx: bool,
    previous: Seq<char>,
    outcome: Result<Seq<char>, Seq<char>>,
) -> bool {
    match outcome {
        Ok(directive) => if htmx {
            r matches AdminReply::Html { status: 200, body } && body@ == "log-level: <strong>"@
                + escaped(directive) + "</strong>"@
        } else {
            r matches AdminReply::Value(LogLevelChange::Applied { previous: p, directive: d }) && p@
                == previous && d@ == directive
        },
        Err(error) => if htmx {
            r matches AdminReply::Html { status: 400, body } && body@ == error_snippet(
                "log-level"@,
                error,
            )
        } else {
            r matches AdminReply::Value(LogLevelChange::Refused { previous: p, error: e }) && p@
                == previous && e@ == error
        },
    }
}

/// What a body without a directive is answered.
pub fn log_level_malformed(htmx: bool, err: &str) -> (r: AdminReply<LogLevelChange>)
    ensures
        refuses(
            r,
            htmx,
            error_snippet("log-level"@, err@),
            "`directive` is required and must be a string ("@ + err@ + ")."@,
        ),
{
    if htmx {
        AdminReply::Html { status: 400, body: render_error_snippet("log-level", err) }
    } else {
        AdminReply::Error {
            status: 400,
            error: join3("`directive` is required and must be a string (", err, ")."),
        }
    }
}

/// What a change of the log level from `previous` is answered.
pub fn log_level_reply(htmx: bool, previous: String, outcome: Result<String, String>) -> (r:
    AdminReply<LogLevelChange>)
    ensures
        tells_log_level(
            r,
            htmx,
            previous@,
            match outcome {
                Ok(d) => Ok(d@),
                Err(e) => Err(e@),
            },
        ),
{
    match outcome {
        Ok(directive) => {
            if htmx {
                AdminReply::Html {
                    status: 200,
                    body: join3(
                        "log-level: <strong>",
                        html_escape_min(directive.as_str()).as_str(),
                        "</strong>",
                    ),
                }
            } else {
                AdminReply::Value(LogLevelChange::Applied { previous, directive })
            }
        },
        Err(error) => {
            if htmx {
                AdminReply::Html {
                    status: 400,
                    body: render_error_snippet("log-level", error.as_str()),
                }
            } else {
                AdminReply::Value(LogLevelChange::Refused { previous, error })
            }
        },
    }
}

/// Sets the log level as an authorised caller asks, `reloaded` being what the
/// subscriber said of the directive.
pub fn admin_log_level_post(
    telemetry: &mut Telemetry,
    htmx: bool,
    directive: &str,
    reloaded: Result<(), String>,
) -> (r: AdminReply<LogLevelChange>)
    ensures
        match (
            routine::directive_refusal(
                routine::directive_fault(directive@),
                old(telemetry).reloadable,
            ),
            reloaded,
        ) {
            (Some(text), _) => *final(telemetry) == *old(telemetry) && tells_log_level(
                r,
                htmx,
                old(telemetry).directive@,
                Err(text),
            ),
            (None, Err(text)) => *final(telemetry) == *old(telemetry) && tells_log_level(
                r,
                htmx,
                old(telemetry).directive@,
                Err(text@),
            ),
            (None, Ok(_)) => {
                &&& final(telemetry).directive@ == directive@
                &&& *final(telemetry) == (Telemetry {
                    directive: final(telemetry).directive,
                    ..*old(telemetry)
                })
                &&& tells_log_level(r, htmx, old(telemetry).directive@, Ok(directive@))
            },
        },
{
    let previous = telemetry.directive.clone();
    let outcome = set_log_level(telemetry, directive, reloaded);
    log_level_reply(htmx, previous, outcome)
}

/// The socket options of accepted connections.
#[derive(Debug, Clone, Copy, PartialEq, Eq, Structural)]
pub struct TcpFlags {
    pub nodelay: bool,
    pub quickack: bool,
}

/// The socket options before and after a change, and what is to be said of it.
#[derive(Debug, Clone, Copy)]
pub struct TcpChange {
    pub previous: TcpFlags,
    pub flags: TcpFlags,
    pub warning: Option<&'static str>,
}

/// The socket options after a change.
pub open spec fn tcp_changed(flags: TcpFlags, nodelay: Option<bool>, quickack: Option<bool>) -> TcpFlags {
    TcpFlags {
        nodelay: match nodelay {
            Some(v) => v,
            None => flags.nodelay,
        },
        quickack: match quickack {
            Some(v) => v,
            None => flags.quickack,
        },
    }
}

/// What is said of a quick-ack option that the platform does not have.
pub open spec fn quickack_warning(quickack: Option<bool>, supported: bool) -> Option<Seq<char>> {
    if quickack == Some(true) && !supported {
        Some("TCP_QUICKACK is no-op on this OS"@)
    } else {
        None
    }
}

/// The socket options as a piece of HTML.
pub open spec fn tcp_snippet(flags: TcpFlags, warning: Option<Seq<char>>) -> Seq<char> {
    "tcp: NODELAY <strong>"@ + switch_text(flags.nodelay) + "</strong> · QUICKACK <strong>"@
        + switch_text(flags.quickack) + "</strong>"@ + match warning {
        Some(w) => " <em>("@ + escaped(w) + ")</em>"@,
        None => seq![],
    }
}

/// Changes the socket options as an authorised caller asks. `parsed` holds the
/// fields `nodelay` and `quickack` of the body, or what the parser says against
/// the body; `supported` tells whether the platform has the quick-ack option.
pub fn admin_tcp_post(
    flags: &mut TcpFlags,
    htmx: bool,
    parsed: Result<(Option<bool>, Option<bool>), String>,
    supported: bool,
) -> (r: AdminReply<TcpChange>)
    ensures
        match parsed {
            Err(err) => {
                &&& *final(flags) == *old(flags)
                &&& refuses(
                    r,
                    htmx,
                    error_snippet("tcp"@, err@),
                    "expected body with optional `nodelay` and/or `quickack` booleans ("@ + err@
                        + ")."@,
                )
            },
            Ok((None, None)) => {
                &&& *final(flags) == *old(flags)
                &&& refuses(
                    r,
                    htmx,
                    "tcp: <strong>error</strong> (need nodelay or quickack)"@,
                    "at least one of `nodelay` or `quickack` must be present."@,
                )
            },
            Ok((nodelay, quickack)) => {
                &&& *final(flags) == tcp_changed(*old(flags), nodelay, quickack)
                &&& if htmx {
                    r matches AdminReply::Html { status: 200, body } && body@ == tcp_snippet(
                        *final(flags),
                        quickack_warning(quickack, supported),
                    )
                } else {
                    r matches AdminReply::Value(change) && {
                        &&& change.previous == *old(flags)
                        &&& change.flags == *final(flags)
                        &&& scan::shown_str(change.warning) == quickack_warning(quickack, supported)
                    }
                }
            },
        },
{
    let (nodelay, quickack) = match parsed {
        Err(err) => {
            if htmx {
                return AdminReply::Html {
                    status: 400,
                    body: render_error_snippet("tcp", err.as_str()),
                };
            }
            return AdminReply::Error {
                status: 400,
                error: join3(
                    "expected body with optional `nodelay` and/or `quickack` booleans (",
                    err.as_str(),
                    ").",
                ),
            };
        },
        Ok(fields) => fields,
    };
    if nodelay.is_none() && quickack.is_none() {
        if htmx {
            return AdminReply::Html {
                status: 400,
                body: String::from_str("tcp: <strong>error</strong> (need nodelay or quickack)"),
            };
        }
        return AdminReply::Error {
            status: 400,
            error: String::from_str("at least one of `nodelay` or `quickack` must be present."),
        };
    }
    let previous = *flags;
    if let Some(v) = nodelay {
        flags.nodelay = v;
    }
    let mut warning: Option<&'static str> = None;
    if let Some(v) = quickack {
        flags.quickack = v;
        if v && !supported {
            warning = Some("TCP_QUICKACK is no-op on this OS");
        }
    }
    if htmx {
        let mut body = join5(
            "tcp: NODELAY <strong>",
            switch_word(flags.nodelay),
            "</strong> · QUICKACK <strong>",
            switch_word(flags.quickack),
            "</strong>",
        );
        let ghost head = body@;
        match warning {
            Some(w) => {
                let note = join3(" <em>(", html_escape_min(w).as_str(), ")</em>");
                body.append(note.as_str());
            },
            None => {
                assert(head =~= head + Seq::<char>::empty());
            },
        }
        assert(body@ =~= tcp_snippet(*flags, quickack_warning(quickack, supported)));
        return AdminReply::Html { status: 200, body };
    }
    AdminReply::Value(TcpChange { previous, flags: *flags, warning })
}

/// Text is escaped character by character, and exactly five characters are replaced.
pub proof fn escaping_replaces_five_characters(a: Seq<char>, b: Seq<char>, c: char)
    ensures
        escaped(Seq::empty()) == Seq::<char>::empty(),
        escaped(a + b) == escaped(a) + escaped(b),
        escaped(seq![c]) == if c == '&' {
            "&amp;"@
        } else if c == '<' {
            "&lt;"@
        } else if c == '>' {
            "&gt;"@
        } else if c == '"' {
            "&quot;"@
        } else if c == '\'' {
            "&#39;"@
        } else {
            seq![c]
        },
    decreases b.len(),
{
    assert(escaped(Seq::<char>::empty()) == Seq::<char>::empty());
    assert(seq![c].drop_last() =~= Seq::<char>::empty());
    assert(seq![c].last() == c);
    assert(escaped(seq![c]) =~= entity(c));
    if b.len() == 0 {
        assert(a + b =~= a);
        assert(escaped(a) + escaped(b) =~= escaped(a));
    } else {
        escaping_replaces_five_characters(a, b.drop_last(), c);
        assert((a + b).drop_last() =~= a + b.drop_last());
        assert((a + b).last() == b.last());
        assert(escaped(a + b) =~= escaped(a) + escaped(b));
    }
}

/// The admin token is the one that is set, as it is set, unless it is blank; the
/// default otherwise.
pub proof fn a_blank_token_is_no_token(s: Seq<char>)
    ensures
        admin_token_text(None) == DEFAULT_ADMIN_TOKEN@,
        scan::trimmed(s).len() == 0 ==> admin_token_text(Some(s)) == DEFAULT_ADMIN_TOKEN@,
        scan::trimmed(s).len() > 0 ==> admin_token_text(Some(s)) == s,
{
}

/// A change of the socket options changes those that it names to what it says, and no
/// others; made twice it is as made once. A warning is due exactly where the quick-ack
/// option is switched on and the platform has none.
pub proof fn socket_options_change_as_asked(
    flags: TcpFlags,
    nodelay: Option<bool>,
    quickack: Option<bool>,
    supported: bool,
)
    ensures
        ({
            let r = tcp_changed(flags, nodelay, quickack);
            &&& nodelay is Some ==> r.nodelay == nodelay->0
            &&& nodelay is None ==> r.nodelay == flags.nodelay
            &&& quickack is Some ==> r.quickack == quickack->0
            &&& quickack is None ==> r.quickack == flags.quickack
            &&& tcp_changed(r, nodelay, quickack) == r
        }),
        quickack_warning(quickack, supported) is Some <==> quickack == Some(true) && !supported,
        switch_text(true) == "on"@,
        switch_text(false) == "off"@,
{
}

/// Letters are told in lower case, and nothing else changes.
pub proof fn letters_are_lowered(c: char)
    ensures
        65 <= c as u32 <= 90 ==> ascii_lower(c) as u32 == c as u32 + 32,
        !(65 <= c as u32 <= 90) ==> ascii_lower(c) == c,
        ascii_lower(ascii_lower(c)) == ascii_lower(c),
{
    assert('A' as u32 == 65 && 'Z' as u32 == 90);
    if 'A' <= c && c <= 'Z' {
        assert(((c as u32 + 32) as char) as u32 == c as u32 + 32);
    }
}

} // verus!
