//! One persistent connection.

use crate::broker::model;
use crate::broker::model::Tape;
use crate::broker::types::GrantOverrides;
use crate::broker::ClientId;
use crate::clock;
use crate::frames::oversized_message;
use crate::hardened_broker;
use crate::hardened_broker::Broker;
use crate::protocol;
use crate::protocol::{Request, Response, ResponseModel};
use crate::text;
use crate::text::join2;
use vstd::prelude::*;
use vstd::string::StringExecFns;

verus! {

/// What the reader of a connection brings.
#[derive(Debug, Clone)]
pub enum Frame {
    /// A well-formed request.
    Request(Request),
    /// A frame that is no request, and why.
    Malformed(String),
    /// A frame that outgrows the given limit.
    Oversized(usize),
}

/// What a frame leads to.
pub enum Verdict {
    /// The broker handles the request.
    Handle(Request),
    /// The connection answers by itself.
    Answer {
        response: ResponseModel,
        authed: bool,
        malformed: bool,
        auth_failure: bool,
        close: bool,
    },
}

/// What the connection counts and does after a frame.
#[derive(Debug, Clone, Copy, PartialEq, Eq, Structural)]
pub struct Outcome {
    pub malformed: bool,
    pub auth_failure: bool,
    pub close: bool,
}

/// What a frame leads to on a connection that has, or has not, authenticated.
pub open spec fn verdict(authed: bool, token: Option<Seq<char>>, frame: Frame) -> Verdict {
    match frame {
        Frame::Oversized(max_bytes) => Verdict::Answer {
            response: ResponseModel::Error {
                uuid: "frame-too-large"@,
                error: "frame exceeds "@ + text::decimal_text(max_bytes as nat) + " bytes"@,
            },
            authed,
            malformed: true,
            auth_failure: false,
            close: true,
        },
        Frame::Malformed(why) => Verdict::Answer {
            response: ResponseModel::Error {
                uuid: "malformed"@,
                error: "malformed request: "@ + why@,
            },
            authed,
            malformed: true,
            auth_failure: false,
            close: false,
        },
        Frame::Request(request) => if authed {
            Verdict::Handle(request)
        } else {
            match request {
                Request::Auth { uuid, token: presented } => if token == Some(presented@) {
                    Verdict::Answer {
                        response: ResponseModel::Auth { uuid: uuid@, ok: true, error: None },
                        authed: true,
                        malformed: false,
                        auth_failure: false,
                        close: false,
                    }
                } else {
                    Verdict::Answer {
                        response: ResponseModel::Auth {
                            uuid: uuid@,
                            ok: false,
                            error: Some("invalid auth token"@),
                        },
                        authed: false,
                        malformed: false,
                        auth_failure: true,
                        close: true,
                    }
                },
                _ => Verdict::Answer {
                    response: ResponseModel::Error {
                        uuid: "unauth"@,
                        error: "auth handshake required"@,
                    },
                    authed: false,
                    malformed: false,
                    auth_failure: true,
                    close: true,
                },
            }
        },
    }
}

/// One persistent connection.
#[derive(Debug, Clone)]
pub struct Session {
    /// The token that the peer must present, if any.
    pub auth_token: Option<String>,
    /// Whether the peer may send requests.
    pub authed: bool,
    /// Frames read so far.
    pub frames_seen: usize,
}

impl Session {
    /// A fresh connection.
    pub fn open(auth_token: Option<String>) -> (r: Self)
        ensures
            r.auth_token == auth_token,
            r.authed == (auth_token is None),
            r.frames_seen == 0,
    {
        let authed = auth_token.is_none();
        Session { auth_token, authed, frames_seen: 0 }
    }

    /// Counts a frame. Tells whether it is time to yield.
    pub fn count_frame(&mut self, yield_every: usize) -> (r: bool)
        requires
            yield_every > 0,
        ensures
            final(self).frames_seen == (if old(self).frames_seen == usize::MAX {
                0
            } else {
                old(self).frames_seen + 1
            }),
            final(self).auth_token == old(self).auth_token,
            final(self).authed == old(self).authed,
            r == (final(self).frames_seen % yield_every == 0),
    {
        self.frames_seen = self.frames_seen.wrapping_add(1);
        self.frames_seen % yield_every == 0
    }

    /// Serves one frame of `client`: hands a request to the broker, or answers.
    pub fn serve(&mut self, broker: &mut Broker, client: ClientId, frame: Frame) -> (r: Outcome)
        ensures
            final(self).auth_token == old(self).auth_token,
            final(self).frames_seen == old(self).frames_seen,
            final(broker).start() == old(broker).start(),
            match verdict(old(self).authed, protocol::shown_text(old(self).auth_token), frame) {
                Verdict::Handle(request) => {
                    &&& final(self).authed == old(self).authed
                    &&& r == (Outcome { malformed: false, auth_failure: false, close: false })
                    &&& clock::is_span(final(broker).clock().now)
                    &&& model::continues(old(broker).minted(), final(broker).minted())
                    &&& forall|tape: Tape|
                        #[trigger] model::reads(tape, final(broker).minted()) ==> (
                            final(broker)@,
                            final(broker).next_token(),
                        ) == hardened_broker::admitted(
                            old(broker)@,
                            old(broker).next_token(),
                            client,
                            request,
                            (GrantOverrides { lock_uuid: None, fencing_seed: None }),
                            final(broker).clock(),
                            tape,
                        )
                },
                Verdict::Answer { response, authed, malformed, auth_failure, close } => {
                    &&& final(self).authed == authed
                    &&& r == (Outcome { malformed, auth_failure, close })
                    &&& final(broker)@ == old(broker)@.notified(client, response)
                    &&& final(broker).minted() == old(broker).minted()
                    &&& final(broker).clock() == old(broker).clock()
                    &&& final(broker).next_token() == old(broker).next_token()
                },
            },
    {
        match frame {
            Frame::Oversized(max_bytes) => {
                broker.try_send(
                    client,
                    Response::Error {
                        uuid: String::from_str("frame-too-large"),
                        error: oversized_message(max_bytes),
                    },
                );
                Outcome { malformed: true, auth_failure: false, close: true }
            },
            Frame::Malformed(why) => {
                broker.try_send(
                    client,
                    Response::Error {
                        uuid: String::from_str("malformed"),
                        error: join2("malformed request: ", why.as_str()),
                    },
                );
                Outcome { malformed: true, auth_failure: false, close: false }
            },
            Frame::Request(request) => {
                if self.authed {
                    broker.handle_request(client, request);
                    return Outcome { malformed: false, auth_failure: false, close: false };
                }
                match request {
                    Request::Auth { uuid, token } => {
                        let known = match &self.auth_token {
                            Some(expected) => *expected == token,
                            None => false,
                        };
                        if known {
                            self.authed = true;
                            broker.try_send(client, Response::Auth { uuid, ok: true, error: None });
                            Outcome { malformed: false, auth_failure: false, close: false }
                        } else {
                            broker.try_send(
                                client,
                                Response::Auth {
                                    uuid,
                                    ok: false,
                                    error: Some(String::from_str("invalid auth token")),
                                },
                            );
                            Outcome { malformed: false, auth_failure: true, close: true }
                        }
                    },
                    _ => {
                        broker.try_send(
                            client,
                            Response::Error {
                                uuid: String::from_str("unauth"),
                                error: String::from_str("auth handshake required"),
                            },
                        );
                        Outcome { malformed: false, auth_failure: true, close: true }
                    },
                }
            },
        }
    }
}

/// Whether the peer may send requests after `frames`.
pub open spec fn authed_after(authed: bool, token: Option<Seq<char>>, frames: Seq<Frame>) -> bool
    decreases frames.len(),
{
    if frames.len() == 0 {
        authed
    } else {
        let before = authed_after(authed, token, frames.drop_last());
        match verdict(before, token, frames.last()) {
            Verdict::Handle(_) => before,
            Verdict::Answer { authed: after, .. } => after,
        }
    }
}

/// Whether `frame` presents the token.
pub open spec fn presents(frame: Frame, token: Seq<char>) -> bool {
    frame matches Frame::Request(Request::Auth { token: presented, .. }) && presented@ == token
}

/// A connection that must authenticate may send requests exactly if some frame
/// has presented the token.
pub proof fn only_the_token_opens_a_connection(token: Seq<char>, frames: Seq<Frame>)
    ensures
        authed_after(false, Some(token), frames) <==> exists|i: int|
            0 <= i < frames.len() && #[trigger] presents(frames[i], token),
    decreases frames.len(),
{
    if frames.len() > 0 {
        let before = frames.drop_last();
        only_the_token_opens_a_connection(token, before);
        if authed_after(false, Some(token), before) {
            let i = choose|i: int| 0 <= i < before.len() && #[trigger] presents(before[i], token);
            assert(frames[i] == before[i]);
        }
        if exists|i: int| 0 <= i < frames.len() && #[trigger] presents(frames[i], token) {
            let i = choose|i: int| 0 <= i < frames.len() && #[trigger] presents(frames[i], token);
            if i < before.len() {
                assert(before[i] == frames[i]);
            }
        }
        if authed_after(false, Some(token), frames) && !authed_after(false, Some(token), before) {
            assert(presents(frames[frames.len() - 1], token));
        }
    }
}

/// No request reaches the broker from a connection that must authenticate and
/// has not presented the token, and the first try of another ends it.
pub proof fn nothing_is_handled_before_auth(token: Seq<char>, frames: Seq<Frame>, frame: Frame)
    requires
        forall|i: int| 0 <= i < frames.len() ==> !#[trigger] presents(frames[i], token),
    ensures
        verdict(authed_after(false, Some(token), frames), Some(token), frame) is Answer,
        frame is Request && !presents(frame, token) ==> (verdict(
            authed_after(false, Some(token), frames),
            Some(token),
            frame,
        ) matches Verdict::Answer { close: true, auth_failure: true, authed: false, .. }),
{
    only_the_token_opens_a_connection(token, frames);
}

/// The broker handles a frame exactly if it is a request and the peer may send
/// requests. Everything else the connection answers by itself: a frame that is too
/// large ends it and one that is no request does not, and both are counted; and before
/// the peer may send requests, the token lets it in and anything else ends the
/// connection and is counted.
pub proof fn a_connection_answers_what_it_does_not_hand_on(
    authed: bool,
    token: Option<Seq<char>>,
    frame: Frame,
)
    ensures
        match verdict(authed, token, frame) {
            Verdict::Handle(request) => authed && frame == Frame::Request(request),
            Verdict::Answer { response, authed: after, malformed, auth_failure, close } => {
                &&& !(authed && frame is Request)
                &&& malformed <==> !(frame is Request)
                &&& frame is Oversized ==> close && !auth_failure && after == authed
                &&& frame is Malformed ==> !close && !auth_failure && after == authed
                &&& frame matches Frame::Request(request) ==> {
                    let known = request is Auth && token == Some(request->token@);
                    &&& after == known
                    &&& auth_failure == !known
                    &&& close == !known
                    &&& request matches Request::Auth { uuid, .. } ==> (response
                        matches ResponseModel::Auth { uuid: u, ok, .. } && u == uuid@ && ok == known)
                    &&& !(request is Auth) ==> response is Error
                }
                &&& !(frame is Request) ==> response is Error
            },
        },
{
}

} // verus!
