use teldbg::command::{CommandFault, CommandRequest};
use teldbg::config::Config;
use teldbg::telnet::{goodbye_message, session_step, SessionAction, SessionEvent};

#[test]
fn blank_lines_are_ignored() {
    assert_eq!(session_step(&SessionEvent::Message(String::new())), SessionAction::Ignore);
    assert_eq!(
        session_step(&SessionEvent::Message(" \t\r\n".to_string())),
        SessionAction::Ignore
    );
}

#[test]
fn lines_are_executed() {
    assert_eq!(
        session_step(&SessionEvent::Message("mem dump 1 1".to_string())),
        SessionAction::Execute(CommandRequest::Dump { addr: 1, len: 1 })
    );
    assert_eq!(
        session_step(&SessionEvent::Message("mem".to_string())),
        SessionAction::Abort(CommandFault::MissingSubcommand)
    );
    assert_eq!(
        session_step(&SessionEvent::Message("help".to_string())),
        SessionAction::Execute(CommandRequest::Other)
    );
}

#[test]
fn other_events_and_endings() {
    assert_eq!(session_step(&SessionEvent::Other), SessionAction::Ignore);
    assert_eq!(session_step(&SessionEvent::ReadError), SessionAction::Finish);
    assert_eq!(session_step(&SessionEvent::Closed), SessionAction::Finish);
}

#[test]
fn goodbye_text() {
    assert_eq!(goodbye_message(), "\nGoodbye!\n");
}

#[test]
fn default_config() {
    let c = Config::default();
    assert_eq!(c.host, "127.0.0.1");
    assert_eq!(c.port, 7000);
}

#[test]
fn blank_matches_trim() {
    for line in ["", " ", "\t\r\n", "\u{a0}\u{3000}", " x ", "x"] {
        assert_eq!(teldbg::telnet::blank(line), line.trim().is_empty(), "{:?}", line);
    }
}
