use teldbg::parser::{character, command_parse, ParamValue, ParseErr};

fn call(name: &str, params: Vec<ParamValue>) -> (String, Vec<ParamValue>) {
    (name.to_string(), params)
}

#[test]
fn main() {
    let i = "c  strlen ( \"hello, \\\" world\", 0x123,0x1234,1234, 456, )   w ()";
    let (rem, ex) = command_parse(i).expect("the sample command parses");
    assert_eq!(rem, "");
    assert_eq!(
        ex,
        vec![
            call(
                "strlen",
                vec![
                    ParamValue::Str("hello, \\\" world".to_string()),
                    ParamValue::Num(0x123),
                    ParamValue::Num(0x1234),
                    ParamValue::Num(1234),
                    ParamValue::Num(456),
                    ParamValue::Null,
                ]
            ),
            call("w", vec![ParamValue::Null]),
        ]
    );
}

#[test]
fn parse_empty_input_is_error() {
    assert_eq!(command_parse(""), Err(ParseErr::Error(0)));
}

#[test]
fn parse_needs_one_call() {
    assert_eq!(command_parse("c"), Err(ParseErr::Error(1)));
    assert_eq!(command_parse("c   "), Err(ParseErr::Error(4)));
    // no space between the first character and the call
    assert_eq!(command_parse("xfoo(1)"), Err(ParseErr::Error(1)));
    // an identifier cannot start with a digit
    assert_eq!(command_parse("x 1foo(1)"), Err(ParseErr::Error(2)));
}

#[test]
fn parse_stops_before_what_is_no_call() {
    let (rem, ex) = command_parse("x  foo (1) bar").unwrap();
    assert_eq!(rem, " bar");
    assert_eq!(ex, vec![call("foo", vec![ParamValue::Num(1)])]);
    let (rem, ex) = command_parse("x f(2)!").unwrap();
    assert_eq!(rem, "!");
    assert_eq!(ex, vec![call("f", vec![ParamValue::Num(2)])]);
}

#[test]
fn parse_identifier_characters() {
    let (rem, ex) = command_parse("# _a1_b2 (true)\n").unwrap();
    assert_eq!(rem, "\n");
    assert_eq!(ex, vec![call("_a1_b2", vec![ParamValue::Boolean(true)])]);
}

#[test]
fn parse_unclosed_list_is_failure() {
    assert_eq!(command_parse("c f("), Err(ParseErr::Failure(4)));
    assert_eq!(command_parse("c f(1"), Err(ParseErr::Failure(5)));
    assert_eq!(command_parse("c f(1) g(2"), Err(ParseErr::Failure(10)));
}

#[test]
fn parse_empty_list_holds_null() {
    let (_, ex) = command_parse("c f()").unwrap();
    assert_eq!(ex, vec![call("f", vec![ParamValue::Null])]);
    let (_, ex) = command_parse("c f(1,,2)").unwrap();
    assert_eq!(
        ex,
        vec![call("f", vec![ParamValue::Num(1), ParamValue::Null, ParamValue::Num(2)])]
    );
}

#[test]
fn parse_booleans() {
    let (_, ex) = command_parse("c f(true, false)").unwrap();
    assert_eq!(
        ex,
        vec![call("f", vec![ParamValue::Boolean(true), ParamValue::Boolean(false)])]
    );
}

#[test]
fn parse_null_word_is_not_read() {
    // the empty parameter reads nothing, so `null` is left before `)`
    assert_eq!(command_parse("c f(null)"), Err(ParseErr::Failure(4)));
}

#[test]
fn parse_hex_numbers() {
    let (_, ex) = command_parse("c f(0xdead_beef, 0XFF, 0x0)").unwrap();
    assert_eq!(
        ex,
        vec![call(
            "f",
            vec![ParamValue::Num(0xdead_beef), ParamValue::Num(0xff), ParamValue::Num(0)]
        )]
    );
}

#[test]
fn parse_hex_overflow_falls_back_to_decimal_zero() {
    // 0x1_0000_0000 does not fit a u32: the decimal reading takes the `0`,
    // and the `x` that follows is no `)`
    assert_eq!(command_parse("c f(0x1_0000_0000)"), Err(ParseErr::Failure(5)));
    assert_eq!(command_parse("c f(0x_1)"), Err(ParseErr::Failure(5)));
}

#[test]
fn parse_decimal_limits() {
    let (_, ex) = command_parse("c f(4294967295)").unwrap();
    assert_eq!(ex, vec![call("f", vec![ParamValue::Num(u32::MAX)])]);
    assert_eq!(command_parse("c f(4294967296)"), Err(ParseErr::Failure(4)));
}

#[test]
fn parse_strings() {
    let (_, ex) = command_parse("c f(\"a\\nb\", \"x\")").unwrap();
    assert_eq!(
        ex,
        vec![call(
            "f",
            vec![ParamValue::Str("a\\nb".to_string()), ParamValue::Str("x".to_string())]
        )]
    );
    let (_, ex) = command_parse("c f(\"é ü\")").unwrap();
    assert_eq!(ex, vec![call("f", vec![ParamValue::Str("é ü".to_string())])]);
}

#[test]
fn parse_string_faults_are_failures() {
    assert_eq!(command_parse("c f(\"\")"), Err(ParseErr::Failure(5)));
    assert_eq!(command_parse("c f(\"abc"), Err(ParseErr::Failure(8)));
    assert_eq!(command_parse("c f(\"abc\\"), Err(ParseErr::Failure(5)));
}

#[test]
fn parse_spaces_inside_lists() {
    let (rem, ex) = command_parse("c f \t( 1 ,\r\n2 )  ").unwrap();
    assert_eq!(rem, "  ");
    assert_eq!(ex, vec![call("f", vec![ParamValue::Num(1), ParamValue::Num(2)])]);
}

#[test]
fn parse_leaves_a_suffix_of_the_line() {
    let line = "c f(1) g(2) rest";
    let (rem, ex) = command_parse(line).unwrap();
    assert!(!ex.is_empty());
    assert!(rem.len() < line.len());
    assert!(line.ends_with(rem.as_str()));
    for (name, _) in &ex {
        let first = name.chars().next().unwrap();
        assert!(first.is_ascii_alphabetic() || first == '_');
        assert!(name.chars().all(|c| c.is_ascii_alphanumeric() || c == '_'));
    }
}

#[test]
fn dump_literals_read_as_parameters() {
    for v in [0u32, 0x7, 0xab, 0x1234, u32::MAX] {
        let line = format!("c f({:#04x})", v);
        let (_, ex) = command_parse(&line).unwrap();
        assert_eq!(ex, vec![call("f", vec![ParamValue::Num(v)])]);
    }
}

#[test]
fn first_character_is_skipped() {
    for line in [" f(1)", "  g (\"x\") h(true)", "f(1)", "", " f("] {
        let a = command_parse(&format!("a{}", line));
        let b = command_parse(&format!("é{}", line));
        assert_eq!(a, b, "{:?}", line);
    }
}

#[test]
fn character_ends_at_quotes_and_text_end() {
    assert_eq!(character(&vec![], 0), None);
    assert_eq!(character(&vec!['"'], 0), None);
    assert_eq!(character(&vec!['\\'], 0), None);
    assert_eq!(character(&vec!['a', 'b'], 2), None);
    assert_eq!(character(&vec!['\\', 'n'], 0), Some((2, '\n')));
    assert_eq!(character(&vec!['\\', 'q'], 0), Some((2, 'q')));
    assert_eq!(character(&vec!['x'], 0), Some((1, 'x')));
}
