//! The decisions of a telnet session: what to do with each event that the
//! connection delivers. Receiving and sending stay with the caller.
use vstd::prelude::*;
use crate::command::{
    char_is_whitespace,
    command_fault,
    command_request,
    is_whitespace,
    spec_command_fault,
    spec_command_request,
    CommandFault,
    CommandRequest,
};
use crate::text::chars_of;

verus! {

/// What the connection delivered.
#[derive(Debug, Clone)]
pub enum SessionEvent {
    /// A line of text from the peer.
    Message(String),
    /// Any other telnet event (negotiation and the like).
    Other,
    /// Reading from the connection failed.
    ReadError,
    /// The peer closed the connection.
    Closed,
}

/// What the session does next.
#[derive(Debug, Clone, Copy, PartialEq, Eq)]
pub enum SessionAction {
    /// Nothing: wait for the next event.
    Ignore,
    /// Act on the request that the line holds, and send the reply.
    Execute(CommandRequest),
    /// The line cannot be acted on: the session's task stops at once,
    /// sending nothing.
    Abort(CommandFault),
    /// Say goodbye and end the session.
    Finish,
}

/// The line holds nothing but white space (its trimmed form is empty).
pub open spec fn is_blank(m: Seq<char>) -> bool {
    forall|i: int| 0 <= i < m.len() ==> is_whitespace(#[trigger] m[i])
}

/// What the session does on `event`.
pub open spec fn spec_session_step(event: SessionEvent) -> SessionAction {
    match event {
        SessionEvent::Message(m) => if is_blank(m@) {
            SessionAction::Ignore
        } else {
            match spec_command_fault(m@) {
                Some(f) => SessionAction::Abort(f),
                None => SessionAction::Execute(spec_command_request(m@)),
            }
        },
        SessionEvent::Other => SessionAction::Ignore,
        SessionEvent::ReadError => SessionAction::Finish,
        SessionEvent::Closed => SessionAction::Finish,
    }
}

/// Whether the line holds nothing but white space.
pub fn blank(m: &str) -> (b: bool)
    ensures
        b == is_blank(m@),
{
    let v = chars_of(m);
    let mut i: usize = 0;
    while i < v.len()
        invariant
            v@ == m@,
            i <= v.len(),
            forall|j: int| 0 <= j < i ==> is_whitespace(#[trigger] v@[j]),
        decreases v.len() - i,
    {
        if !char_is_whitespace(v[i]) {
            return false;
        }
        i = i + 1;
    }
    true
}

/// Decides what to do with `event`: blank lines and other telnet events are
/// ignored, a line that cannot be acted on stops the session's task, any
/// other line is acted on, and a read error or the end of the connection
/// ends the session.
pub fn session_step(event: &SessionEvent) -> (a: SessionAction)
    ensures
        a == spec_session_step(*event),
{
    match event {
        SessionEvent::Message(m) => {
            if blank(m.as_str()) {
                SessionAction::Ignore
            } else {
                match command_fault(m.as_str()) {
                    Some(f) => SessionAction::Abort(f),
                    None => SessionAction::Execute(command_request(m.as_str())),
                }
            }
        },
        SessionEvent::Other => SessionAction::Ignore,
        SessionEvent::ReadError => SessionAction::Finish,
        SessionEvent::Closed => SessionAction::Finish,
    }
}

/// The text sent when the session ends.
pub fn goodbye_message() -> (s: String)
    ensures
        s@ == "\nGoodbye!\n"@,
{
    String::from_str("\nGoodbye!\n")
}

} // verus!
