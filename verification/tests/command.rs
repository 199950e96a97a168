use teldbg::command::{command_fault, command_reply, command_request, CommandFault, CommandRequest};
use teldbg::number::ParseNumError;

#[test]
fn request_dump() {
    assert_eq!(command_request("mem dump 0x10 4"), CommandRequest::Dump { addr: 16, len: 4 });
    assert_eq!(command_request("mem dump 0x10"), CommandRequest::Dump { addr: 16, len: 1 });
    assert_eq!(command_request("mem dump 10 10"), CommandRequest::Dump { addr: 16, len: 16 });
    assert_eq!(command_request("mem dump 32 zz"), CommandRequest::Dump { addr: 0x32, len: 1 });
    assert_eq!(
        command_request("mem dump 32 0x20 extra"),
        CommandRequest::Dump { addr: 0x32, len: 32 }
    );
    assert_eq!(command_fault("mem dump 0x10 4"), None);
}

#[test]
fn request_other() {
    assert_eq!(command_request("hello"), CommandRequest::Other);
    assert_eq!(command_request("mem write 1 2"), CommandRequest::Other);
    assert_eq!(command_request("memdump 1"), CommandRequest::Other);
    assert_eq!(command_request("s malloc"), CommandRequest::Other);
    assert_eq!(command_fault("hello"), None);
    assert_eq!(command_fault("mem write"), None);
}

#[test]
fn request_faults() {
    assert_eq!(command_fault(""), Some(CommandFault::NoWord));
    assert_eq!(command_fault(" \t\n"), Some(CommandFault::NoWord));
    assert_eq!(command_fault("mem"), Some(CommandFault::MissingSubcommand));
    assert_eq!(command_fault("mem dump"), Some(CommandFault::MissingAddress));
    assert_eq!(
        command_fault("mem dump zz"),
        Some(CommandFault::BadAddress(ParseNumError::InvalidDigit))
    );
    assert_eq!(
        command_fault("mem dump 0x"),
        Some(CommandFault::BadAddress(ParseNumError::Empty))
    );
}

#[test]
fn request_ignores_surrounding_space() {
    let plain = command_request("mem dump 0x10 2");
    assert_eq!(command_request(" \t mem dump 0x10 2 \r\n"), plain);
    assert_eq!(command_request("\u{3000}mem\u{a0}dump\u{2003}0x10  2\u{85}"), plain);
    assert_eq!(command_fault("  mem  "), command_fault("mem"));
}

#[test]
fn reply_renders_dump() {
    let req = CommandRequest::Dump { addr: 0, len: 3 };
    assert_eq!(command_reply(&req, &[0x41, 0x42, 0x43]), "0x41, 0x42, 0x43, ");
    let req = CommandRequest::Dump { addr: 0, len: 9 };
    assert_eq!(
        command_reply(&req, &[0x30, 0x31, 0x32, 0x33, 0x34, 0x35, 0x36, 0x37, 0x38]),
        "0x30, 0x31, 0x32, 0x33, 0x34, 0x35, 0x36, 0x37,  // 01234567 \n0x38, "
    );
}

#[test]
fn reply_other_is_empty() {
    assert_eq!(command_reply(&CommandRequest::Other, &[]), "");
}

#[test]
fn whitespace_class_matches_unicode() {
    for code in 0u32..=0x10ffff {
        if let Some(c) = char::from_u32(code) {
            assert_eq!(teldbg::command::char_is_whitespace(c), c.is_whitespace(), "{:#x}", code);
        }
    }
}

#[test]
fn words_split_like_split_whitespace() {
    for line in ["", "a", "  a  b ", "mem\tdump\n1", "\u{2028}x\u{3000}y", "a,b c"] {
        let chars: Vec<char> = line.chars().collect();
        let words: Vec<String> = teldbg::command::split_words(&chars)
            .into_iter()
            .map(|w| w.into_iter().collect())
            .collect();
        let expected: Vec<String> = line.split_whitespace().map(String::from).collect();
        assert_eq!(words, expected, "{:?}", line);
    }
}
