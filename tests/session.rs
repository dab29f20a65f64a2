use dim::addr::PeerAddr;
use dim::broker::{CtrlEvent, Step};
use dim::notice::PushEventType;
use dim::registry::Registry;
use dim::session::{Action, Admission, ClientActions, ConnState, Inbound, Session};

const AUTH_OK: &str = "{\"id\":-1,\"event_type\":\"auth_ok\"}";
const AUTH_ERR: &str = "{\"id\":-1,\"event_type\":\"auth_err\"}";

fn authenticate(token: &str) -> Inbound {
    Inbound::Text(Some(ClientActions::Authenticate { token: token.to_string() }))
}

fn check(token: &str) -> Result<u32, String> {
    if token == "good" {
        Ok(42)
    } else {
        Err("invalid token".to_string())
    }
}

/// A sink that records what is sent on it.
struct Recorder(Vec<String>);

fn apply_all(reg: &mut Registry<Recorder, u32>, ev: CtrlEvent<Recorder, u32>) {
    match reg.apply(ev) {
        Step::Release(_) => {}
        Step::Deliver { message, mut peers } => {
            let mut ok = Vec::new();
            for p in peers.iter_mut() {
                p.sink.0.push(message.clone());
                ok.push(true);
            }
            assert!(reg.settle(peers, ok).is_empty());
        }
    }
}

#[test]
fn two_failures_then_success_tracks_once() {
    let a = PeerAddr::new(1, 4000);
    let mut reg: Registry<Recorder, u32> = Registry::new();
    let mut session = Session::new(a);
    let mut sink = Some(Recorder(Vec::new()));
    let mut tracks = 0;
    for token in ["bad", "worse", "good"] {
        let token = match session.on_frame(authenticate(token)) {
            Action::Verify(t) => t,
            _ => panic!("expected a verification"),
        };
        match session.verdict(sink.take().unwrap(), check(&token)) {
            Admission::Admitted { track, greeting } => {
                assert!(matches!(track, CtrlEvent::Track { .. }));
                tracks += 1;
                apply_all(&mut reg, track);
                apply_all(&mut reg, greeting);
            }
            Admission::Rejected { sink: mut s, reply } => {
                s.0.push(reply);
                sink = Some(s);
            }
            Admission::Stale(_) => panic!("not waiting for a verdict"),
        }
    }
    assert_eq!(tracks, 1);
    assert_eq!(session.state(), ConnState::Authenticated);
    assert!(reg.contains(&a));
    let peer = reg.forget(&a).unwrap();
    assert_eq!(peer.auth, 42);
    assert_eq!(peer.sink.0, vec![AUTH_ERR.to_string(), AUTH_ERR.to_string(), AUTH_OK.to_string()]);
}

#[test]
fn close_after_failed_attempt_tracks_nothing() {
    let a = PeerAddr::new(1, 4001);
    let reg: Registry<Recorder, u32> = Registry::new();
    let mut session = Session::new(a);
    let token = match session.on_frame(authenticate("bad")) {
        Action::Verify(t) => t,
        _ => panic!("expected a verification"),
    };
    assert_eq!(token, "bad");
    match session.verdict(Recorder(Vec::new()), check(&token)) {
        Admission::Rejected { reply, .. } => assert_eq!(reply, AUTH_ERR),
        _ => panic!("expected a rejection"),
    }
    assert!(matches!(session.on_frame(Inbound::End), Action::Close));
    assert_eq!(session.state(), ConnState::Closed);
    assert_eq!(reg.len(), 0);
}

#[test]
fn malformed_text_is_a_failed_attempt() {
    let mut session = Session::new(PeerAddr::new(1, 1));
    match session.on_frame(Inbound::Text(None)) {
        Action::Reply(t) => assert_eq!(t, AUTH_ERR),
        _ => panic!("expected an auth_err reply"),
    }
    assert_eq!(session.state(), ConnState::Unauthenticated);
}

#[test]
fn non_text_frame_is_ignored_before_authentication() {
    let mut session = Session::new(PeerAddr::new(1, 2));
    assert!(matches!(session.on_frame(Inbound::NonText), Action::Ignore));
    assert_eq!(session.state(), ConnState::Unauthenticated);
}

#[test]
fn authenticated_connection_forwards_then_forgets() {
    let a = PeerAddr::new(1, 3);
    let mut session = Session::new(a);
    match session.verdict(Recorder(Vec::new()), check("good")) {
        Admission::Admitted { track, greeting } => {
            match track {
                CtrlEvent::Track { addr, auth, .. } => {
                    assert_eq!(addr, a);
                    assert_eq!(auth, 42);
                }
                _ => panic!("expected a track"),
            }
            match greeting {
                CtrlEvent::SendTo { addr, message } => {
                    assert_eq!(addr, a);
                    assert_eq!(message, AUTH_OK);
                }
                _ => panic!("expected a greeting"),
            }
        }
        _ => panic!("expected an admission"),
    }
    assert!(matches!(session.on_frame(Inbound::NonText), Action::Forward));
    assert!(matches!(session.on_frame(authenticate("again")), Action::Forward));
    match session.on_frame(Inbound::End) {
        Action::Forget(x) => assert_eq!(x, a),
        _ => panic!("expected a forget"),
    }
    assert_eq!(session.state(), ConnState::Closed);
    assert!(matches!(session.on_frame(Inbound::End), Action::Ignore));
}

#[test]
fn verdict_after_admission_is_stale() {
    let mut session = Session::new(PeerAddr::new(1, 5));
    assert!(matches!(session.verdict(Recorder(Vec::new()), check("good")), Admission::Admitted { .. }));
    match session.verdict(Recorder(vec!["kept".to_string()]), check("good")) {
        Admission::Stale(s) => assert_eq!(s.0, vec!["kept".to_string()]),
        _ => panic!("expected the sink back"),
    }
    assert_eq!(session.state(), ConnState::Authenticated);
    assert_eq!(session.addr(), PeerAddr::new(1, 5));
}

#[test]
fn notices_carry_control_id_and_kind() {
    assert_eq!(PushEventType::AuthOk.notice(), AUTH_OK);
    assert_eq!(PushEventType::AuthErr.notice(), AUTH_ERR);
}
