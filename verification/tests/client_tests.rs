use chatcore::client::{map_command, CommandOutcome};
use chatcore::codec::ChatRequest;

#[test]
fn slash_list_asks_for_listing() {
    assert_eq!(map_command("/list"), CommandOutcome::Send(ChatRequest::List));
}

#[test]
fn slash_list_ignores_trailing_words() {
    assert_eq!(map_command("/list rooms"), CommandOutcome::Send(ChatRequest::List));
}

#[test]
fn slash_join_with_name_joins() {
    assert_eq!(
        map_command("/join lobby"),
        CommandOutcome::Send(ChatRequest::Join(String::from("lobby")))
    );
}

#[test]
fn slash_join_keeps_the_rest_of_the_line() {
    assert_eq!(
        map_command("/join two words"),
        CommandOutcome::Send(ChatRequest::Join(String::from("two words")))
    );
}

#[test]
fn slash_join_without_name_warns() {
    assert_eq!(map_command("/join"), CommandOutcome::MissingRoomName);
    assert_eq!(map_command("/join   "), CommandOutcome::MissingRoomName);
}

#[test]
fn unknown_slash_command_warns() {
    assert_eq!(map_command("/quit"), CommandOutcome::UnknownCommand);
    assert_eq!(map_command("/listx"), CommandOutcome::UnknownCommand);
}

#[test]
fn plain_text_is_sent_as_message() {
    assert_eq!(
        map_command("hello there"),
        CommandOutcome::Send(ChatRequest::Message(String::from("hello there")))
    );
}

#[test]
fn input_is_trimmed_before_mapping() {
    assert_eq!(map_command("  /list \n"), CommandOutcome::Send(ChatRequest::List));
    assert_eq!(
        map_command("\t hi \r\n"),
        CommandOutcome::Send(ChatRequest::Message(String::from("hi")))
    );
}

#[test]
fn blank_input_does_nothing() {
    assert_eq!(map_command(""), CommandOutcome::Empty);
    assert_eq!(map_command("   \n"), CommandOutcome::Empty);
}
