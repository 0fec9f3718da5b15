use libbf_rs::error::{report_line, BfError, BfErrorable};
use libbf_rs::interprer::InterprerError;
use libbf_rs::parser::ParseError;

#[test]
fn report_line_joins_with_single_spaces() {
    assert_eq!(report_line("Parse", "error:", "x y"), "Parse error: x y");
    assert_eq!(report_line("", "", ""), "  ");
}

#[test]
fn runtime_errors_describe_themselves() {
    assert_eq!(InterprerError::MemoryPointerUnderflow.error_type(), "Runtime");
    assert_eq!(
        InterprerError::MemoryPointerUnderflow.description(),
        "memory pointer underflow"
    );
    assert_eq!(
        InterprerError::VariableIntegerUnderflow.description(),
        "variable underflow"
    );
    assert_eq!(
        InterprerError::VariableIntegerOverflow.description(),
        "variable overflow"
    );
}

#[test]
fn a_report_is_coloured_or_plain() {
    colored::control::set_override(true);
    assert_eq!(
        BfErrorable(ParseError::LoopStartNotFound).to_string(),
        "\u{1b}[91mParse\u{1b}[0m \u{1b}[91merror:\u{1b}[0m \u{1b}[97m'[' not found\u{1b}[0m"
    );
    assert_eq!(
        BfErrorable(InterprerError::VariableIntegerOverflow).to_string(),
        "\u{1b}[91mRuntime\u{1b}[0m \u{1b}[91merror:\u{1b}[0m \u{1b}[97mvariable overflow\u{1b}[0m"
    );
    // An escape character alone is shown as any other character.
    assert_eq!(
        BfErrorable(ParseError::UndefinedCommand('\u{1b}')).to_string(),
        "\u{1b}[91mParse\u{1b}[0m \u{1b}[91merror:\u{1b}[0m \u{1b}[97mundefined command '\u{1b}'\u{1b}[0m"
    );

    colored::control::set_override(false);
    assert_eq!(
        BfErrorable(ParseError::UndefinedCommand('x')).to_string(),
        "Parse error: undefined command 'x'"
    );
    assert_eq!(
        BfErrorable(ParseError::UndefinedCommand('\u{1b}')).to_string(),
        "Parse error: undefined command '\u{1b}'"
    );
    assert_eq!(
        BfErrorable(InterprerError::MemoryPointerUnderflow).to_string(),
        "Runtime error: memory pointer underflow"
    );

    // Left to the environment, the line is one of the two.
    colored::control::unset_override();
    let line = BfErrorable(ParseError::LoopEndNotFound).to_string();
    let plain = "Parse error: ']' not found";
    let coloured =
        "\u{1b}[91mParse\u{1b}[0m \u{1b}[91merror:\u{1b}[0m \u{1b}[97m']' not found\u{1b}[0m";
    assert!(line == plain || line == coloured);
}
