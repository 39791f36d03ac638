use chatcore::codec::{ChatRequest, ChatResponse};
use chatcore::session::{Session, SessionAction, SessionState, TIMEOUT_TICKS};

#[test]
fn new_session_defaults() {
    let s = Session::new(5);
    assert_eq!(s.state, SessionState::Connecting);
    assert_eq!(s.id, 0);
    assert_eq!(s.room, "Main");
    assert_eq!(s.last_hb, 5);
    assert!(!s.awaiting_list);
}

#[test]
fn registration_activates_with_identity() {
    let mut s = Session::new(0);
    s.on_registered(42);
    assert_eq!(s.state, SessionState::Active);
    assert_eq!(s.id, 42);
}

#[test]
fn join_updates_room_and_acknowledges() {
    let mut s = Session::new(0);
    s.on_registered(7);
    let acts = s.handle_request(ChatRequest::Join(String::from("general")), 0);
    assert_eq!(s.room, "general");
    assert_eq!(
        acts,
        vec![
            SessionAction::TellJoin(7, String::from("general")),
            SessionAction::Write(ChatResponse::Joined(String::from("general"))),
        ]
    );
}

#[test]
fn message_goes_to_current_room() {
    let mut s = Session::new(0);
    s.on_registered(7);
    s.handle_request(ChatRequest::Join(String::from("general")), 0);
    let acts = s.handle_request(ChatRequest::Message(String::from("hello there")), 0);
    assert_eq!(
        acts,
        vec![SessionAction::TellMessage(
            7,
            String::from("general"),
            String::from("hello there")
        )]
    );
}

#[test]
fn message_before_any_join_goes_to_main() {
    let mut s = Session::new(0);
    s.on_registered(7);
    let acts = s.handle_request(ChatRequest::Message(String::from("hi")), 0);
    assert_eq!(
        acts,
        vec![SessionAction::TellMessage(7, String::from("Main"), String::from("hi"))]
    );
}

#[test]
fn ping_refreshes_liveness_and_answers_nothing() {
    let mut s = Session::new(0);
    s.on_registered(7);
    let acts = s.handle_request(ChatRequest::Ping, 4);
    assert!(acts.is_empty());
    assert_eq!(s.last_hb, 4);
}

#[test]
fn list_defers_until_the_reply_arrives() {
    let mut s = Session::new(0);
    s.on_registered(7);
    let acts = s.handle_request(ChatRequest::List, 0);
    assert_eq!(acts, vec![SessionAction::AskListRooms]);
    assert!(s.awaiting_list);
    let acts = s.on_room_list(vec![String::from("Main")]);
    assert!(!s.awaiting_list);
    assert_eq!(
        acts,
        vec![SessionAction::Write(ChatResponse::Rooms(vec![String::from("Main")]))]
    );
}

#[test]
fn push_writes_room_message() {
    let mut s = Session::new(0);
    s.on_registered(7);
    let acts = s.on_push(String::from("hello there"));
    assert_eq!(
        acts,
        vec![SessionAction::Write(ChatResponse::Message(String::from("hello there")))]
    );
}

#[test]
fn tick_within_window_probes_the_peer() {
    let mut s = Session::new(0);
    s.on_registered(7);
    let acts = s.on_tick(TIMEOUT_TICKS);
    assert_eq!(s.state, SessionState::Active);
    assert_eq!(acts, vec![SessionAction::Write(ChatResponse::Ping)]);
}

#[test]
fn silence_beyond_window_disconnects() {
    let mut s = Session::new(0);
    s.on_registered(7);
    let acts = s.on_tick(TIMEOUT_TICKS + 1);
    assert_eq!(s.state, SessionState::Stopping);
    assert_eq!(acts, vec![SessionAction::TellDisconnect(7), SessionAction::Stop]);
}

#[test]
fn prompt_pings_keep_the_session_alive() {
    let mut s = Session::new(0);
    s.on_registered(7);
    let mut now: u64 = 0;
    for _ in 0..100 {
        now += 1;
        assert!(s.handle_request(ChatRequest::Ping, now).is_empty());
        let acts = s.on_tick(now);
        assert_eq!(s.state, SessionState::Active);
        assert_eq!(acts, vec![SessionAction::Write(ChatResponse::Ping)]);
    }
}

#[test]
fn fatal_then_stopping_notifies_registry_once() {
    let mut s = Session::new(0);
    s.on_registered(9);
    let acts = s.on_fatal();
    assert_eq!(s.state, SessionState::Stopping);
    assert_eq!(acts, vec![SessionAction::Stop]);
    let acts = s.on_stopping();
    assert_eq!(s.state, SessionState::Stopped);
    assert_eq!(acts, vec![SessionAction::TellDisconnect(9)]);
}

#[test]
fn registration_failure_is_fatal() {
    let mut s = Session::new(0);
    let acts = s.on_fatal();
    assert_eq!(s.state, SessionState::Stopping);
    assert_eq!(acts, vec![SessionAction::Stop]);
}
