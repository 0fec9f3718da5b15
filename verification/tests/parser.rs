use libbf_rs::error::BfError;
use libbf_rs::parser::{parse, ParseError};
use libbf_rs::{Command, Commands};

#[test]
fn parser_test() {
    assert_eq!(vec![Command::Plus, Command::Put], parse("+.").unwrap().0);
    assert_eq!(
        vec![
            Command::Plus,
            Command::Put,
            Command::Loop(vec![Command::Plus])
        ],
        parse("+.[+]").unwrap().0
    );
}

#[test]
fn to_string_test() {
    assert_eq!(
        "++--[+-<<>>[-]]",
        parse("++--[+-<<>>[-]]").unwrap().to_string()
    );
}

#[test]
fn each_symbol_maps_to_its_command() {
    assert_eq!(
        parse("+-<>,.").unwrap().0,
        vec![
            Command::Plus,
            Command::Minus,
            Command::MoveLeft,
            Command::MoveRight,
            Command::Get,
            Command::Put,
        ]
    );
}

#[test]
fn empty_text_is_the_empty_program() {
    assert_eq!(parse("").unwrap().0, Vec::<Command>::new());
    assert_eq!(parse("").unwrap().to_string(), "");
}

#[test]
fn loops_nest() {
    assert_eq!(
        parse("[[]+[-[>]]]").unwrap().0,
        vec![Command::Loop(vec![
            Command::Loop(vec![]),
            Command::Plus,
            Command::Loop(vec![
                Command::Minus,
                Command::Loop(vec![Command::MoveRight]),
            ]),
        ])]
    );
}

#[test]
fn unmatched_close_is_reported() {
    assert_eq!(parse("]").err(), Some(ParseError::LoopStartNotFound));
    assert_eq!(parse("+[-]]").err(), Some(ParseError::LoopStartNotFound));
}

#[test]
fn unmatched_open_is_reported() {
    assert_eq!(parse("[+").err(), Some(ParseError::LoopEndNotFound));
    assert_eq!(parse("[").err(), Some(ParseError::LoopEndNotFound));
    assert_eq!(parse("[[]").err(), Some(ParseError::LoopEndNotFound));
}

#[test]
fn undefined_symbol_is_reported_with_its_character() {
    assert_eq!(parse("x").err(), Some(ParseError::UndefinedCommand('x')));
    assert_eq!(parse("+ +").err(), Some(ParseError::UndefinedCommand(' ')));
    assert_eq!(parse("+\n").err(), Some(ParseError::UndefinedCommand('\n')));
    assert_eq!(
        parse("[\u{e9}]").err(),
        Some(ParseError::UndefinedCommand('\u{e9}'))
    );
}

#[test]
fn the_first_fault_from_the_left_is_reported() {
    assert_eq!(parse("+]x").err(), Some(ParseError::LoopStartNotFound));
    assert_eq!(parse("x]").err(), Some(ParseError::UndefinedCommand('x')));
    assert_eq!(parse("[x").err(), Some(ParseError::UndefinedCommand('x')));
    assert_eq!(parse("[]]x[").err(), Some(ParseError::LoopStartNotFound));
    assert_eq!(parse("[[+]y").err(), Some(ParseError::UndefinedCommand('y')));
}

#[test]
fn text_of_a_parsed_program_is_the_source() {
    for source in [
        "",
        "+",
        "[]",
        "+-<>,.",
        "++++++++[>++++++++<-]>+.",
        "[[[[]]]]",
        ",[.,]",
        "[-][+][<][>]",
    ] {
        assert_eq!(parse(source).unwrap().to_string(), source);
    }
}

#[test]
fn a_program_is_parsed_back_from_its_text() {
    let code = Commands(vec![
        Command::Get,
        Command::Loop(vec![
            Command::Put,
            Command::Loop(vec![]),
            Command::MoveLeft,
        ]),
        Command::MoveRight,
        Command::Minus,
    ]);
    let text = code.to_string();
    assert_eq!(text, ",[.[]<]>-");
    assert_eq!(parse(&text).unwrap().0, code.0);
}

#[test]
fn each_command_has_its_text() {
    assert_eq!(Command::Plus.to_string(), "+");
    assert_eq!(Command::Minus.to_string(), "-");
    assert_eq!(Command::MoveLeft.to_string(), "<");
    assert_eq!(Command::MoveRight.to_string(), ">");
    assert_eq!(Command::Get.to_string(), ",");
    assert_eq!(Command::Put.to_string(), ".");
    assert_eq!(Command::Loop(vec![]).to_string(), "[]");
    assert_eq!(
        Command::Loop(vec![Command::Plus, Command::Loop(vec![Command::Put])]).to_string(),
        "[+[.]]"
    );
}

#[test]
fn render_into_appends() {
    let mut text = String::from("ab");
    Command::Loop(vec![Command::Minus]).render_into(&mut text);
    Command::Get.render_into(&mut text);
    assert_eq!(text, "ab[-],");
}

#[test]
fn a_clone_is_equal_to_its_source() {
    let cmd = Command::Loop(vec![
        Command::Plus,
        Command::Loop(vec![Command::Get, Command::Put]),
        Command::MoveLeft,
    ]);
    assert_eq!(cmd.clone(), cmd);
    assert_eq!(Command::MoveRight.clone(), Command::MoveRight);
}

#[test]
fn parse_errors_describe_themselves() {
    assert_eq!(ParseError::LoopStartNotFound.error_type(), "Parse");
    assert_eq!(ParseError::LoopStartNotFound.description(), "'[' not found");
    assert_eq!(ParseError::LoopEndNotFound.description(), "']' not found");
    assert_eq!(
        ParseError::UndefinedCommand('x').description(),
        "undefined command 'x'"
    );
    assert_eq!(
        ParseError::UndefinedCommand('\'').description(),
        "undefined command '''"
    );
}
