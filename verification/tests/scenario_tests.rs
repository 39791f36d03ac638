//! End-to-end scenarios: bytes in, session decisions, registry routing,
//! bytes out — everything a connection's runtime would do, minus sockets.

use chatcore::codec::{decode_request, encode_response, ChatRequest, ChatResponse};
use chatcore::registry::{Registry, SessionId};
use chatcore::session::{Session, SessionAction};

/// Carry out one session's actions against the registry, collecting the
/// lines written to that peer and the broadcasts delivered per recipient.
fn run_actions(
    reg: &mut Registry,
    actions: Vec<SessionAction>,
    wrote: &mut Vec<String>,
    delivered: &mut Vec<(SessionId, String)>,
) {
    for act in actions {
        match act {
            SessionAction::Write(resp) => wrote.push(encode_response(&resp)),
            SessionAction::TellJoin(id, room) => reg.join(id, room),
            SessionAction::TellMessage(_, room, text) => {
                for target in reg.recipients(&room) {
                    delivered.push((target, format!("MSG {}", text)));
                }
            }
            SessionAction::TellDisconnect(id) => reg.disconnect(id),
            SessionAction::AskListRooms => {}
            SessionAction::Stop => {}
        }
    }
}

#[test]
fn join_then_message_reaches_all_members_including_sender() {
    let mut reg = Registry::new();

    // another member already sits in `general`
    let mut other = Session::new(0);
    other.on_registered(reg.connect());
    let mut wrote_other: Vec<String> = Vec::new();
    let mut delivered: Vec<(SessionId, String)> = Vec::new();
    let acts = other.handle_request(ChatRequest::Join(String::from("general")), 0);
    run_actions(&mut reg, acts, &mut wrote_other, &mut delivered);

    // the client under test connects and sends `JOIN general`, then the
    // message line
    let mut sess = Session::new(0);
    sess.on_registered(reg.connect());
    let mut wrote: Vec<String> = Vec::new();

    let mut inbound: Vec<u8> = b"JOIN general\nMSG hello there\n".to_vec();

    let req = decode_request(&mut inbound).unwrap().unwrap();
    let acts = sess.handle_request(req, 1);
    run_actions(&mut reg, acts, &mut wrote, &mut delivered);
    assert_eq!(wrote, vec![String::from("JOINED general")]);

    let req = decode_request(&mut inbound).unwrap().unwrap();
    let acts = sess.handle_request(req, 1);
    delivered.clear();
    run_actions(&mut reg, acts, &mut wrote, &mut delivered);

    // exactly one copy per member of `general`, the sender among them
    delivered.sort();
    assert_eq!(
        delivered,
        vec![
            (other.id, String::from("MSG hello there")),
            (sess.id, String::from("MSG hello there")),
        ]
    );

    // a delivered copy is pushed to the peer as a MSG line
    let push = sess.on_push(String::from("hello there"));
    match &push[0] {
        SessionAction::Write(resp) => {
            assert_eq!(encode_response(resp), "MSG hello there")
        }
        other => panic!("unexpected action: {:?}", other),
    }
}

#[test]
fn list_is_empty_before_rooms_exist_and_grows_after_a_join() {
    let mut reg = Registry::new();
    let mut sess = Session::new(0);
    sess.on_registered(reg.connect());

    // `LIST` with no rooms yet: the answer is `ROOMS` with an empty listing
    let mut inbound: Vec<u8> = b"LIST\n".to_vec();
    let req = decode_request(&mut inbound).unwrap().unwrap();
    let acts = sess.handle_request(req, 0);
    assert_eq!(acts, vec![SessionAction::AskListRooms]);
    let reply = reg.list_rooms();
    assert!(reply.is_empty());
    let acts = sess.on_room_list(reply);
    match &acts[0] {
        SessionAction::Write(resp) => assert_eq!(encode_response(resp), "ROOMS"),
        other => panic!("unexpected action: {:?}", other),
    }

    // another client joins `lobby`; a fresh LIST now includes it
    let mut other = Session::new(0);
    other.on_registered(reg.connect());
    let mut wrote: Vec<String> = Vec::new();
    let mut delivered: Vec<(SessionId, String)> = Vec::new();
    let acts = other.handle_request(ChatRequest::Join(String::from("lobby")), 0);
    run_actions(&mut reg, acts, &mut wrote, &mut delivered);

    let mut inbound: Vec<u8> = b"LIST\n".to_vec();
    let req = decode_request(&mut inbound).unwrap().unwrap();
    sess.handle_request(req, 0);
    let acts = sess.on_room_list(reg.list_rooms());
    match &acts[0] {
        SessionAction::Write(resp) => assert_eq!(encode_response(resp), "ROOMS lobby"),
        other => panic!("unexpected action: {:?}", other),
    }
}

#[test]
fn unknown_tag_closes_only_the_offending_connection() {
    let mut reg = Registry::new();

    // a healthy session sits in `general`
    let mut healthy = Session::new(0);
    healthy.on_registered(reg.connect());
    let mut wrote: Vec<String> = Vec::new();
    let mut delivered: Vec<(SessionId, String)> = Vec::new();
    let acts = healthy.handle_request(ChatRequest::Join(String::from("general")), 0);
    run_actions(&mut reg, acts, &mut wrote, &mut delivered);

    // the offender sends a frame with an unrecognized tag
    let mut offender = Session::new(0);
    offender.on_registered(reg.connect());
    let mut inbound: Vec<u8> = b"FOO bar\n".to_vec();
    let decoded = decode_request(&mut inbound);
    assert!(decoded.is_err());

    // the decode failure is fatal for this one connection
    let acts = offender.on_fatal();
    assert_eq!(acts, vec![SessionAction::Stop]);
    let acts = offender.on_stopping();
    run_actions(&mut reg, acts, &mut wrote, &mut delivered);

    // the healthy session is unaffected: still a member, still reachable
    assert_eq!(reg.recipients(&String::from("general")), vec![healthy.id]);
    let acts = healthy.handle_request(ChatRequest::Message(String::from("still here")), 1);
    delivered.clear();
    run_actions(&mut reg, acts, &mut wrote, &mut delivered);
    assert_eq!(delivered, vec![(healthy.id, String::from("MSG still here"))]);
}
