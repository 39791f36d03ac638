use chatcore::codec::{
    decode_request, encode_request, encode_response, frame_line, parse_request, take_frame,
    ChatRequest, ChatResponse, ProtocolError,
};

#[test]
fn parse_list() {
    assert!(matches!(parse_request("LIST"), Ok(ChatRequest::List)));
}

#[test]
fn parse_ping() {
    assert!(matches!(parse_request("PING"), Ok(ChatRequest::Ping)));
}

#[test]
fn parse_join_with_room() {
    match parse_request("JOIN general") {
        Ok(ChatRequest::Join(room)) => assert_eq!(room, "general"),
        other => panic!("unexpected: {:?}", other),
    }
}

#[test]
fn parse_message_keeps_spaces() {
    match parse_request("MSG hello there") {
        Ok(ChatRequest::Message(text)) => assert_eq!(text, "hello there"),
        other => panic!("unexpected: {:?}", other),
    }
}

#[test]
fn parse_unknown_tag_fails() {
    assert_eq!(parse_request("FOO bar"), Err(ProtocolError::MalformedFrame));
}

#[test]
fn parse_join_without_payload_fails() {
    assert_eq!(parse_request("JOIN "), Err(ProtocolError::MalformedFrame));
    assert_eq!(parse_request("JOIN"), Err(ProtocolError::MalformedFrame));
}

#[test]
fn parse_msg_without_payload_fails() {
    assert_eq!(parse_request("MSG "), Err(ProtocolError::MalformedFrame));
    assert_eq!(parse_request("MSG"), Err(ProtocolError::MalformedFrame));
}

#[test]
fn parse_empty_line_fails() {
    assert_eq!(parse_request(""), Err(ProtocolError::MalformedFrame));
}

#[test]
fn parse_lowercase_tag_fails() {
    assert_eq!(parse_request("list"), Err(ProtocolError::MalformedFrame));
}

#[test]
fn encode_request_lines() {
    assert_eq!(encode_request(&ChatRequest::List), "LIST");
    assert_eq!(encode_request(&ChatRequest::Ping), "PING");
    assert_eq!(encode_request(&ChatRequest::Join(String::from("lobby"))), "JOIN lobby");
    assert_eq!(
        encode_request(&ChatRequest::Message(String::from("hello there"))),
        "MSG hello there"
    );
}

#[test]
fn encode_response_lines() {
    assert_eq!(encode_response(&ChatResponse::Ping), "PING");
    assert_eq!(
        encode_response(&ChatResponse::Message(String::from("hello there"))),
        "MSG hello there"
    );
    assert_eq!(
        encode_response(&ChatResponse::Joined(String::from("general"))),
        "JOINED general"
    );
}

#[test]
fn encode_empty_room_listing() {
    assert_eq!(encode_response(&ChatResponse::Rooms(Vec::new())), "ROOMS");
}

#[test]
fn encode_room_listing_in_order() {
    let names = vec![String::from("Main"), String::from("lobby")];
    assert_eq!(encode_response(&ChatResponse::Rooms(names)), "ROOMS Main lobby");
}

#[test]
fn frame_appends_line_and_newline() {
    let mut out: Vec<u8> = vec![1u8];
    frame_line("LIST", &mut out);
    assert_eq!(out, vec![1u8, b'L', b'I', b'S', b'T', b'\n']);
}

#[test]
fn take_frame_splits_at_first_newline() {
    let mut buf: Vec<u8> = b"JOIN a\nMSG b\n".to_vec();
    let line = take_frame(&mut buf).expect("a full frame is buffered");
    assert_eq!(line, b"JOIN a".to_vec());
    assert_eq!(buf, b"MSG b\n".to_vec());
}

#[test]
fn take_frame_waits_for_newline() {
    let mut buf: Vec<u8> = b"JOI".to_vec();
    assert!(take_frame(&mut buf).is_none());
    assert_eq!(buf, b"JOI".to_vec());
}

#[test]
fn take_frame_on_empty_buffer() {
    let mut buf: Vec<u8> = Vec::new();
    assert!(take_frame(&mut buf).is_none());
    assert!(buf.is_empty());
}

#[test]
fn decode_handles_partial_reads() {
    let mut buf: Vec<u8> = Vec::new();
    buf.extend_from_slice(b"JOIN gen");
    assert!(matches!(decode_request(&mut buf), Ok(None)));
    buf.extend_from_slice(b"eral\nPI");
    match decode_request(&mut buf) {
        Ok(Some(ChatRequest::Join(room))) => assert_eq!(room, "general"),
        _ => panic!("expected the completed join frame"),
    }
    assert_eq!(buf, b"PI".to_vec());
}

#[test]
fn decode_rejects_unknown_tag_frame() {
    let mut buf: Vec<u8> = b"FOO bar\n".to_vec();
    assert_eq!(decode_request(&mut buf), Err(ProtocolError::MalformedFrame));
}

#[test]
fn decode_rejects_invalid_utf8() {
    let mut buf: Vec<u8> = vec![b'M', b'S', b'G', b' ', 0xff, b'\n'];
    assert_eq!(decode_request(&mut buf), Err(ProtocolError::InvalidUtf8));
}

#[test]
fn decode_multibyte_text() {
    let mut buf: Vec<u8> = Vec::new();
    buf.extend_from_slice("MSG héllo wörld\n".as_bytes());
    match decode_request(&mut buf) {
        Ok(Some(ChatRequest::Message(text))) => assert_eq!(text, "héllo wörld"),
        _ => panic!("expected the message frame"),
    }
}

#[test]
fn parse_response_ping() {
    assert!(matches!(
        chatcore::codec::parse_response("PING"),
        Ok(ChatResponse::Ping)
    ));
}

#[test]
fn parse_response_message_and_joined() {
    match chatcore::codec::parse_response("MSG hello there") {
        Ok(ChatResponse::Message(t)) => assert_eq!(t, "hello there"),
        other => panic!("unexpected: {:?}", other),
    }
    match chatcore::codec::parse_response("JOINED general") {
        Ok(ChatResponse::Joined(n)) => assert_eq!(n, "general"),
        other => panic!("unexpected: {:?}", other),
    }
}

#[test]
fn parse_response_empty_listing() {
    assert_eq!(
        chatcore::codec::parse_response("ROOMS"),
        Ok(ChatResponse::Rooms(Vec::new()))
    );
}

#[test]
fn parse_response_listing_names() {
    assert_eq!(
        chatcore::codec::parse_response("ROOMS Main lobby"),
        Ok(ChatResponse::Rooms(vec![String::from("Main"), String::from("lobby")]))
    );
}

#[test]
fn parse_response_unknown_tag_fails() {
    assert_eq!(
        chatcore::codec::parse_response("NOPE x"),
        Err(ProtocolError::MalformedFrame)
    );
}

#[test]
fn response_listing_round_trips() {
    let names = vec![String::from("Main"), String::from("lobby"), String::from("x")];
    let line = encode_response(&ChatResponse::Rooms(names.clone()));
    assert_eq!(
        chatcore::codec::parse_response(&line),
        Ok(ChatResponse::Rooms(names))
    );
}

#[test]
fn decode_response_frame() {
    let mut buf: Vec<u8> = b"JOINED general\nPI".to_vec();
    match chatcore::codec::decode_response(&mut buf) {
        Ok(Some(ChatResponse::Joined(n))) => assert_eq!(n, "general"),
        other => panic!("unexpected: {:?}", other),
    }
    assert_eq!(buf, b"PI".to_vec());
    assert!(matches!(chatcore::codec::decode_response(&mut buf), Ok(None)));
}

#[test]
fn request_lines_round_trip() {
    let reqs = vec![
        ChatRequest::List,
        ChatRequest::Ping,
        ChatRequest::Join(String::from("general")),
        ChatRequest::Message(String::from("hello there")),
    ];
    for req in reqs {
        let line = encode_request(&req);
        assert_eq!(parse_request(&line), Ok(req));
    }
}
