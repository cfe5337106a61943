//! Frames, the per-connection session state machine, and the broadcast
//! router that fans a text frame out to the sender's other devices.

use vstd::prelude::*;

use crate::error::AppError;
use crate::state::{
    lemma_remove_has, lookup_in, seq_remove_client, targets_upto, text_targets, user_clients,
    views_of, AppState,
};
use crate::user::Client;

verus! {

/// The query parameters of an upgrade request.
#[derive(Debug)]
pub struct WsParam {
    pub id: String,
    pub name: String,
    pub token: String,
}

/// One message on the socket, as the relay sees it.  Text frames carry
/// opaque UTF-8 payloads, ping and pong opaque bytes.
#[derive(Debug)]
pub enum Frame {
    Text(String),
    Binary(Vec<u8>),
    Ping(Vec<u8>),
    Pong(Vec<u8>),
    Close,
}

/// The mathematical image of a `Frame`.
pub enum FrameV {
    Text(Seq<char>),
    Binary(Seq<u8>),
    Ping(Seq<u8>),
    Pong(Seq<u8>),
    Close,
}

impl View for Frame {
    type V = FrameV;

    open spec fn view(&self) -> FrameV {
        match self {
            Frame::Text(s) => FrameV::Text(s@),
            Frame::Binary(b) => FrameV::Binary(b@),
            Frame::Ping(b) => FrameV::Ping(b@),
            Frame::Pong(b) => FrameV::Pong(b@),
            Frame::Close => FrameV::Close,
        }
    }
}

/// What the router did with one frame: the peers a text frame was
/// handed to (with whether the fan-out was complete), whether a pong
/// reply was sent, or nothing.
#[derive(Debug)]
pub enum RouteOutcome {
    Delivered(Vec<Client>, bool),
    PongSent(bool),
    Ignored,
}

pub struct WebsocketController {}

impl WebsocketController {
    /// The upgrade decision: the request's token must validate, and the
    /// named device must not already be connected under that user — a
    /// duplicate attempt sends a best-effort notice to the existing
    /// connection and is refused, leaving it untouched.  An upgrade is
    /// admitted only on the strength of a validated token: the admitted
    /// client carries the user id of canonical, unexpired claims that
    /// the request's token is exactly the signed token of.  On success
    /// the caller upgrades the transport and registers the returned
    /// client through `register_if_absent`, which repeats the check
    /// atomically.
    pub fn ws_handler(param: &WsParam, state: &AppState, now: i64) -> (r: Result<Client, AppError>)
        requires
            state.wf(),
        ensures
            r matches Result::Err(e) ==> e is InvalidToken || e is AlreadyConnected,
            r matches Result::Err(e) ==> (e is AlreadyConnected ==> exists|c: crate::jwt::ClaimsV|
                crate::claims_json::claims_v_wf(c) && vstd::utf8::encode_utf8(param.token@)
                    == #[trigger] crate::utils::token_bytes(c, state.secret()) && c.exp
                    >= now as int && lookup_in(state@, c.id, param.id@) is Some),
            r matches Result::Ok(client) ==> {
                &&& client.id@ == param.id@
                &&& client.name@ == param.name@
                &&& client.pub_key is None
                &&& lookup_in(state@, client.user_id as int, client.id@) is None
                &&& exists|c: crate::jwt::ClaimsV|
                    crate::claims_json::claims_v_wf(c) && vstd::utf8::encode_utf8(param.token@)
                        == #[trigger] crate::utils::token_bytes(c, state.secret()) && c.exp
                        >= now as int && c.id == client.user_id as int
            },
            forall|c: crate::jwt::ClaimsV|
                (crate::claims_json::claims_v_wf(c) && vstd::utf8::encode_utf8(param.token@)
                    == #[trigger] crate::utils::token_bytes(c, state.secret()) && c.exp
                    >= now as int) ==> (if lookup_in(state@, c.id, param.id@) is Some {
                    r matches Result::Err(e) && e is AlreadyConnected
                } else {
                    r matches Result::Ok(cl) && cl.user_id as int == c.id
                }),
    {
        let claims = match crate::utils::decode_token(param.token.as_str(), state.keys(), now) {
            Result::Ok(c) => c,
            Result::Err(e) => {
                return Result::Err(e);
            },
        };
        let client = Client::new(param.id.clone(), claims.id, param.name.clone(), Option::None);
        match state.get_client(&claims.id, param.id.as_str()) {
            Option::Some(_) => {
                state.warn_already_connected(&claims.id, param.id.as_str());
                proof {
                    let w = claims@;
                    assert(crate::claims_json::claims_v_wf(w) && vstd::utf8::encode_utf8(
                        param.token@,
                    ) == crate::utils::token_bytes(w, state.secret()) && w.exp >= now as int
                        && lookup_in(state@, w.id, param.id@) is Some);
                }
                Result::Err(AppError::AlreadyConnected)
            },
            Option::None => {
                proof {
                    let w = claims@;
                    assert(crate::claims_json::claims_v_wf(w) && vstd::utf8::encode_utf8(
                        param.token@,
                    ) == crate::utils::token_bytes(w, state.secret()) && w.exp >= now as int
                        && w.id == client.user_id as int);
                }
                Result::Ok(client)
            },
        }
    }

    /// Routes one inbound frame of an active session and reports what it
    /// did.  A ping is answered with a pong to the sender's own
    /// connection; a text frame is fanned out to the sender's peers; a
    /// pong or binary frame is ignored.  A close frame deregisters the
    /// sender at once, in the same critical section, so no further
    /// relay targets it, and ends the session, reported as `Err`; the
    /// teardown's own removal then finds nothing and stays idempotent.
    /// No other frame changes the registry.
    pub fn handle_message(msg: Frame, state: &mut AppState, uid: &i64, client_id: &str) -> (r:
        Result<RouteOutcome, ()>)
        requires
            old(state).wf(),
        ensures
            final(state).wf(),
            final(state).secret() == old(state).secret(),
            r is Err <==> msg@ is Close,
            !(msg@ is Close) ==> *final(state) == *old(state),
            msg@ is Close ==> {
                &&& old(state)@.contains_key(*uid as int) ==> final(state)@ == old(
                    state,
                )@.insert(
                    *uid as int,
                    seq_remove_client(old(state)@[*uid as int], client_id@),
                )
                &&& !old(state)@.contains_key(*uid as int) ==> *final(state) == *old(state)
                &&& lookup_in(final(state)@, *uid as int, client_id@) is None
            },
            msg@ is Text ==> (r matches Result::Ok(RouteOutcome::Delivered(d, complete)) && {
                &&& complete ==> views_of(d@) == text_targets(
                    old(state)@,
                    *uid as int,
                    client_id@,
                )
                &&& !complete ==> views_of(d@).len() < text_targets(
                    old(state)@,
                    *uid as int,
                    client_id@,
                ).len()
                &&& exists|j: int|
                    0 <= j <= user_clients(old(state)@, *uid as int).len() && views_of(d@)
                        == targets_upto(user_clients(old(state)@, *uid as int), client_id@, j)
            }),
            msg@ is Ping ==> (r matches Result::Ok(RouteOutcome::PongSent(sent)) && {
                &&& sent ==> lookup_in(old(state)@, *uid as int, client_id@) is Some
                &&& lookup_in(old(state)@, *uid as int, client_id@) is None ==> !sent
            }),
            msg@ is Pong || msg@ is Binary ==> (r matches Result::Ok(o) && o is Ignored),
    {
        match msg {
            Frame::Ping(payload) => {
                let sent = state.send_pong(uid, client_id, payload);
                Result::Ok(RouteOutcome::PongSent(sent))
            },
            Frame::Pong(_) => Result::Ok(RouteOutcome::Ignored),
            Frame::Close => {
                let ghost m0 = state@;
                proof {
                    state.lemma_wf_map_distinct();
                }
                state.delete_client(uid, client_id);
                proof {
                    if m0.contains_key(*uid as int) {
                        lemma_remove_has(m0[*uid as int], client_id@, client_id@);
                    }
                }
                Result::Err(())
            },
            Frame::Binary(_) => Result::Ok(RouteOutcome::Ignored),
            Frame::Text(text) => {
                let (delivered, complete) = state.broadcast_text(*uid, client_id, &text);
                Result::Ok(RouteOutcome::Delivered(delivered, complete))
            },
        }
    }
}

/// The phases of one relay session, from the upgrade request to the
/// released connection.  `Closed` is terminal.
#[derive(Debug, Clone, Copy, PartialEq, Eq, Structural)]
pub enum SessionPhase {
    Upgrading,
    Authenticating,
    DuplicateCheck,
    Registered,
    Relaying,
    Closing,
    Closed,
}

/// What the session's driver observes between phases.
#[derive(Debug, Clone, Copy, PartialEq, Eq, Structural)]
pub enum SessionEvent {
    TokenExtracted,
    TokenValid,
    TokenInvalid,
    PeerAbsent,
    PeerPresent,
    PumpsStarted,
    PumpEnded,
    Released,
}

/// What the driver must do on a transition.
#[derive(Debug, Clone, Copy, PartialEq, Eq, Structural)]
pub enum SessionAction {
    Proceed,
    RefuseUpgrade,
    RejectDuplicate,
    Register,
    Deregister,
    Release,
}

/// How far a phase lies along the session's life; transitions never go
/// backwards.
pub open spec fn phase_rank(p: SessionPhase) -> int {
    match p {
        SessionPhase::Upgrading => 0,
        SessionPhase::Authenticating => 1,
        SessionPhase::DuplicateCheck => 2,
        SessionPhase::Registered => 3,
        SessionPhase::Relaying => 4,
        SessionPhase::Closing => 5,
        SessionPhase::Closed => 6,
    }
}

/// The transition relation of a relay session: an authentication failure
/// refuses the upgrade before any socket state exists; a duplicate peer
/// is rejected with the existing connection left untouched; the end of
/// either pump moves the session to teardown, whose one `Deregister`
/// action removes the registry entry.  An event that does not belong to
/// the phase changes nothing.
pub open spec fn session_step(p: SessionPhase, e: SessionEvent) -> (SessionPhase, SessionAction) {
    match (p, e) {
        (SessionPhase::Upgrading, SessionEvent::TokenExtracted) => (
            SessionPhase::Authenticating,
            SessionAction::Proceed,
        ),
        (SessionPhase::Authenticating, SessionEvent::TokenValid) => (
            SessionPhase::DuplicateCheck,
            SessionAction::Proceed,
        ),
        (SessionPhase::Authenticating, SessionEvent::TokenInvalid) => (
            SessionPhase::Closed,
            SessionAction::RefuseUpgrade,
        ),
        (SessionPhase::DuplicateCheck, SessionEvent::PeerAbsent) => (
            SessionPhase::Registered,
            SessionAction::Register,
        ),
        (SessionPhase::DuplicateCheck, SessionEvent::PeerPresent) => (
            SessionPhase::Closed,
            SessionAction::RejectDuplicate,
        ),
        (SessionPhase::Registered, SessionEvent::PumpsStarted) => (
            SessionPhase::Relaying,
            SessionAction::Proceed,
        ),
        (SessionPhase::Relaying, SessionEvent::PumpEnded) => (
            SessionPhase::Closing,
            SessionAction::Deregister,
        ),
        (SessionPhase::Closing, SessionEvent::Released) => (
            SessionPhase::Closed,
            SessionAction::Release,
        ),
        _ => (p, SessionAction::Proceed),
    }
}

/// One relay session's progress through its protocol.
#[derive(Debug)]
pub struct RelaySession {
    pub phase: SessionPhase,
}

impl RelaySession {
    /// A session starts at the upgrade request.
    pub fn new() -> (r: Self)
        ensures
            r.phase == SessionPhase::Upgrading,
    {
        RelaySession { phase: SessionPhase::Upgrading }
    }

    /// Feeds one event to the session and returns the action the driver
    /// must perform.
    pub fn advance(&mut self, e: SessionEvent) -> (a: SessionAction)
        ensures
            (final(self).phase, a) == session_step(old(self).phase, e),
    {
        let (p, a) = match (self.phase, e) {
            (SessionPhase::Upgrading, SessionEvent::TokenExtracted) => (
                SessionPhase::Authenticating,
                SessionAction::Proceed,
            ),
            (SessionPhase::Authenticating, SessionEvent::TokenValid) => (
                SessionPhase::DuplicateCheck,
                SessionAction::Proceed,
            ),
            (SessionPhase::Authenticating, SessionEvent::TokenInvalid) => (
                SessionPhase::Closed,
                SessionAction::RefuseUpgrade,
            ),
            (SessionPhase::DuplicateCheck, SessionEvent::PeerAbsent) => (
                SessionPhase::Registered,
                SessionAction::Register,
            ),
            (SessionPhase::DuplicateCheck, SessionEvent::PeerPresent) => (
                SessionPhase::Closed,
                SessionAction::RejectDuplicate,
            ),
            (SessionPhase::Registered, SessionEvent::PumpsStarted) => (
                SessionPhase::Relaying,
                SessionAction::Proceed,
            ),
            (SessionPhase::Relaying, SessionEvent::PumpEnded) => (
                SessionPhase::Closing,
                SessionAction::Deregister,
            ),
            (SessionPhase::Closing, SessionEvent::Released) => (
                SessionPhase::Closed,
                SessionAction::Release,
            ),
            (p, _) => (p, SessionAction::Proceed),
        };
        self.phase = p;
        a
    }
}

/// A session only moves forward: no phase is ever revisited with a lower
/// rank, and `Closed` is terminal.
pub proof fn lemma_session_monotone(p: SessionPhase, e: SessionEvent)
    ensures
        phase_rank(session_step(p, e).0) >= phase_rank(p),
        p is Closed ==> session_step(p, e).0 is Closed,
{
}

/// The number of `Deregister` actions a run of events produces.
pub open spec fn deregister_count(p: SessionPhase, events: Seq<SessionEvent>) -> int
    decreases events.len(),
{
    if events.len() == 0 {
        0
    } else {
        let step = session_step(p, events[0]);
        (if step.1 is Deregister {
            1int
        } else {
            0int
        }) + deregister_count(step.0, events.drop_first())
    }
}

/// The registry entry of a session is removed at most once: whatever
/// events its driver observes, a run emits at most one `Deregister`,
/// and none at all once the session has passed teardown.
pub proof fn lemma_deregister_at_most_once(p: SessionPhase, events: Seq<SessionEvent>)
    ensures
        deregister_count(p, events) <= if phase_rank(p) <= 4 {
            1int
        } else {
            0int
        },
    decreases events.len(),
{
    if events.len() > 0 {
        let step = session_step(p, events[0]);
        lemma_session_monotone(p, events[0]);
        lemma_deregister_at_most_once(step.0, events.drop_first());
    }
}

} // verus!
