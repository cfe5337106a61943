use scytale::error::AppError;
use scytale::state::AppState;
use scytale::user::Client;
use scytale::websocket::{
    Frame, RelaySession, RouteOutcome, SessionAction, SessionEvent, SessionPhase,
    WebsocketController, WsParam,
};
use tokio::sync::mpsc::error::TryRecvError;
use tokio::sync::mpsc::{unbounded_channel, UnboundedReceiver, UnboundedSender};

fn client(id: &str, uid: i64) -> Client {
    Client::new(id.to_string(), uid, format!("device {}", id), None)
}

fn channel() -> (UnboundedSender<Frame>, UnboundedReceiver<Frame>) {
    unbounded_channel::<Frame>()
}

#[test]
fn test_register_lookup_deregister() {
    let mut state = AppState::new("secret");
    assert!(state.get_client(&1, "a").is_none());
    let (tx, _rx) = channel();
    state.add_client(1, client("a", 1), tx);
    let found = state.get_client(&1, "a").unwrap();
    assert_eq!(found.id, "a");
    assert_eq!(found.user_id, 1);
    // removal is exact and idempotent
    state.delete_client(&1, "a");
    assert!(state.get_client(&1, "a").is_none());
    state.delete_client(&1, "a");
    assert!(state.get_client(&1, "a").is_none());
    // a user never seen is a no-op too
    state.delete_client(&9, "zz");
    // re-registration after removal works
    let (tx, _rx) = channel();
    state.add_client(1, client("a", 1), tx);
    assert!(state.get_client(&1, "a").is_some());
}

#[test]
fn test_register_overwrites_not_accumulates() {
    let mut state = AppState::new("secret");
    let (tx1, _rx1) = channel();
    let (tx2, _rx2) = channel();
    state.add_client(1, client("a", 1), tx1);
    let mut second = client("a", 1);
    second.name = "renamed".to_string();
    state.add_client(1, second, tx2);
    let clients = state.get_clients(&1);
    assert_eq!(clients.len(), 1);
    assert_eq!(clients[0].name, "renamed");
    // one deregistration removes the pair however often it was registered
    state.delete_client(&1, "a");
    assert!(state.get_client(&1, "a").is_none());
}

#[test]
fn test_duplicate_upgrade_rejected() {
    let mut state = AppState::new("secret");
    let (tx1, mut rx1) = channel();
    assert!(state.register_if_absent(1, client("a", 1), tx1).is_ok());
    let (tx2, _rx2) = channel();
    let r = state.register_if_absent(1, client("a", 1), tx2);
    assert!(matches!(r, Err(AppError::AlreadyConnected)));
    // the first connection is untouched and got the in-band notice
    assert!(state.get_client(&1, "a").is_some());
    match rx1.try_recv() {
        Ok(Frame::Text(t)) => assert_eq!(t, "You are already connected"),
        other => panic!("expected the duplicate notice, got {:?}", other),
    }
    // a different device of the same user is fine
    let (tx3, _rx3) = channel();
    assert!(state.register_if_absent(1, client("b", 1), tx3).is_ok());
    assert_eq!(state.get_clients(&1).len(), 2);
}

#[test]
fn test_text_broadcast_reaches_peers_only() {
    let mut state = AppState::new("secret");
    let (tx_a, mut rx_a) = channel();
    let (tx_b, mut rx_b) = channel();
    let (tx_c, mut rx_c) = channel();
    let (tx_d, mut rx_d) = channel();
    state.add_client(1, client("a", 1), tx_a);
    state.add_client(1, client("b", 1), tx_b);
    state.add_client(1, client("c", 1), tx_c);
    // a client of another user must never see the frame
    state.add_client(2, client("d", 2), tx_d);

    let r = WebsocketController::handle_message(
        Frame::Text("hello".to_string()),
        &mut state,
        &1,
        "a",
    );
    // the router reports a complete fan-out to exactly the two peers
    match r {
        Ok(RouteOutcome::Delivered(d, complete)) => {
            assert!(complete);
            assert_eq!(d.len(), 2);
            assert_eq!(d[0].id, "b");
            assert_eq!(d[1].id, "c");
        },
        other => panic!("expected a complete delivery, got {:?}", other),
    }
    match rx_b.try_recv() {
        Ok(Frame::Text(t)) => assert_eq!(t, "hello"),
        other => panic!("b expected the text, got {:?}", other),
    }
    match rx_c.try_recv() {
        Ok(Frame::Text(t)) => assert_eq!(t, "hello"),
        other => panic!("c expected the text, got {:?}", other),
    }
    // never echoed to the sender, never to another user
    assert!(matches!(rx_a.try_recv(), Err(TryRecvError::Empty)));
    assert!(matches!(rx_d.try_recv(), Err(TryRecvError::Empty)));
}

#[test]
fn test_broadcast_stops_at_first_dead_peer() {
    let mut state = AppState::new("secret");
    let (tx_a, _rx_a) = channel();
    let (tx_b, rx_b) = channel();
    let (tx_c, mut rx_c) = channel();
    state.add_client(1, client("a", 1), tx_a);
    state.add_client(1, client("b", 1), tx_b);
    state.add_client(1, client("c", 1), tx_c);
    drop(rx_b);
    let (delivered, complete) = state.broadcast_text(1, "a", &"hi".to_string());
    // the failed peer ends the fan-out for this message, and the router
    // reports it as incomplete
    assert!(!complete);
    assert_eq!(delivered.len(), 0);
    assert!(matches!(rx_c.try_recv(), Err(TryRecvError::Empty)));
}

#[test]
fn test_ping_pong_only_to_sender() {
    let mut state = AppState::new("secret");
    let (tx_a, mut rx_a) = channel();
    let (tx_b, mut rx_b) = channel();
    state.add_client(1, client("a", 1), tx_a);
    state.add_client(1, client("b", 1), tx_b);
    let r = WebsocketController::handle_message(
        Frame::Ping(vec![1, 2, 3]),
        &mut state,
        &1,
        "a",
    );
    assert!(matches!(r, Ok(RouteOutcome::PongSent(true))));
    match rx_a.try_recv() {
        Ok(Frame::Pong(p)) => assert_eq!(p, vec![1, 2, 3]),
        other => panic!("a expected a pong, got {:?}", other),
    }
    assert!(matches!(rx_b.try_recv(), Err(TryRecvError::Empty)));
    // a pong or a binary frame changes nothing and keeps the session
    assert!(
        WebsocketController::handle_message(Frame::Pong(vec![9]), &mut state, &1, "a").is_ok()
    );
    assert!(
        WebsocketController::handle_message(Frame::Binary(vec![9]), &mut state, &1, "a").is_ok()
    );
    assert!(matches!(rx_a.try_recv(), Err(TryRecvError::Empty)));
}

#[test]
fn test_close_ends_session_and_deregisters() {
    let mut state = AppState::new("secret");
    let (tx_a, _rx_a) = channel();
    let (tx_b, mut rx_b) = channel();
    state.add_client(1, client("a", 1), tx_a);
    state.add_client(1, client("b", 1), tx_b);
    let r = WebsocketController::handle_message(Frame::Close, &mut state, &1, "a");
    assert!(r.is_err());
    // the close removed the pair at once: no later relay targets it,
    // and a broadcast from a peer no longer counts the closed client
    assert!(state.get_client(&1, "a").is_none());
    let (delivered, complete) = state.broadcast_text(1, "b", &"bye".to_string());
    assert!(complete);
    assert!(delivered.is_empty());
    // the teardown's own removal finds nothing and stays a no-op
    state.delete_client(&1, "a");
    assert!(state.get_client(&1, "a").is_none());
    assert!(state.get_client(&1, "b").is_some());
    assert!(matches!(rx_b.try_recv(), Err(TryRecvError::Empty)));
}

#[test]
fn test_upgrade_flow() {
    let keys_secret = "secret";
    let mut state = AppState::new(keys_secret);
    let now: i64 = 1_700_000_000;
    let user = scytale::user::UserEntity {
        id: 5,
        email: "u@example.com".to_string(),
        name: "U".to_string(),
        password: "h".to_string(),
        role: scytale::user::Role::USER,
    };
    let token =
        scytale::utils::encode_token(&user, state.keys(), scytale::jwt::TokenType::AccessToken, now)
            .unwrap();
    let param = WsParam {
        id: "phone".to_string(),
        name: "my phone".to_string(),
        token,
    };
    let accepted = WebsocketController::ws_handler(&param, &state, now).unwrap();
    assert_eq!(accepted.user_id, 5);
    assert_eq!(accepted.id, "phone");
    let (tx, mut rx) = channel();
    assert!(state.register_if_absent(5, accepted, tx).is_ok());
    // the same device again: refused, the live connection is notified
    let refused = WebsocketController::ws_handler(&param, &state, now);
    assert!(matches!(refused, Err(AppError::AlreadyConnected)));
    match rx.try_recv() {
        Ok(Frame::Text(t)) => assert_eq!(t, "You are already connected"),
        other => panic!("expected the duplicate notice, got {:?}", other),
    }
    // a bad token never upgrades
    let bad = WsParam {
        id: "x".to_string(),
        name: "x".to_string(),
        token: "junk".to_string(),
    };
    assert!(matches!(
        WebsocketController::ws_handler(&bad, &state, now),
        Err(AppError::InvalidToken)
    ));
}

#[test]
fn test_device_listing() {
    let mut state = AppState::new("secret");
    assert!(state.get_clients(&1).is_empty());
    let (tx_a, _rx_a) = channel();
    let (tx_b, _rx_b) = channel();
    state.add_client(1, client("a", 1), tx_a);
    state.add_client(1, client("b", 1), tx_b);
    let listed = state.get_clients(&1);
    assert_eq!(listed.len(), 2);
    assert_eq!(listed[0].id, "a");
    assert_eq!(listed[1].id, "b");
    assert!(state.get_clients(&2).is_empty());
}

#[test]
fn test_session_machine() {
    let mut s = RelaySession::new();
    assert!(matches!(s.phase, SessionPhase::Upgrading));
    assert!(matches!(s.advance(SessionEvent::TokenExtracted), SessionAction::Proceed));
    assert!(matches!(s.phase, SessionPhase::Authenticating));
    assert!(matches!(s.advance(SessionEvent::TokenValid), SessionAction::Proceed));
    assert!(matches!(s.phase, SessionPhase::DuplicateCheck));
    assert!(matches!(s.advance(SessionEvent::PeerAbsent), SessionAction::Register));
    assert!(matches!(s.phase, SessionPhase::Registered));
    assert!(matches!(s.advance(SessionEvent::PumpsStarted), SessionAction::Proceed));
    assert!(matches!(s.phase, SessionPhase::Relaying));
    assert!(matches!(s.advance(SessionEvent::PumpEnded), SessionAction::Deregister));
    assert!(matches!(s.phase, SessionPhase::Closing));
    assert!(matches!(s.advance(SessionEvent::Released), SessionAction::Release));
    assert!(matches!(s.phase, SessionPhase::Closed));
    // Closed is terminal, and nothing ever deregisters twice
    assert!(matches!(s.advance(SessionEvent::PumpEnded), SessionAction::Proceed));
    assert!(matches!(s.phase, SessionPhase::Closed));

    // an invalid token refuses the upgrade outright
    let mut s = RelaySession::new();
    s.advance(SessionEvent::TokenExtracted);
    assert!(matches!(s.advance(SessionEvent::TokenInvalid), SessionAction::RefuseUpgrade));
    assert!(matches!(s.phase, SessionPhase::Closed));

    // a duplicate peer is rejected
    let mut s = RelaySession::new();
    s.advance(SessionEvent::TokenExtracted);
    s.advance(SessionEvent::TokenValid);
    assert!(matches!(s.advance(SessionEvent::PeerPresent), SessionAction::RejectDuplicate));
    assert!(matches!(s.phase, SessionPhase::Closed));
}
