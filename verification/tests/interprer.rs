use libbf_rs::interprer::{Action, Cursor, Halt, InterprerError, Runtime};
use libbf_rs::parser::parse;
use libbf_rs::{Command, Commands};

fn run(rt: &mut Runtime, source: &str, input: &str, budget: usize) -> (Halt, String) {
    let code = parse(source).unwrap();
    let mut output = String::new();
    let halt = rt.exec(&code, &mut input.chars(), &mut output, budget);
    (halt, output)
}

#[test]
fn a_new_runtime_has_one_zero_cell() {
    let mut rt = Runtime::new();
    assert_eq!(rt.get_at_ptr(), 0);
    assert_eq!(rt.get_mem_at(0), 0);
    let mut other = Runtime::default();
    assert_eq!(other.get_at_ptr(), 0);
}

#[test]
fn the_256th_increment_overflows() {
    let mut rt = Runtime::new();
    let (halt, _) = run(&mut rt, &"+".repeat(255), "", 1000);
    assert_eq!(halt, Halt::Done);
    assert_eq!(rt.get_at_ptr(), 255);

    let mut rt = Runtime::new();
    let (halt, _) = run(&mut rt, &"+".repeat(256), "", 1000);
    assert_eq!(halt, Halt::Failed(InterprerError::VariableIntegerOverflow));
    assert_eq!(rt.get_at_ptr(), 255);
}

#[test]
fn decrement_of_zero_underflows() {
    let mut rt = Runtime::new();
    let (halt, _) = run(&mut rt, "-", "", 1000);
    assert_eq!(halt, Halt::Failed(InterprerError::VariableIntegerUnderflow));
    assert_eq!(rt.get_at_ptr(), 0);
}

#[test]
fn move_left_at_the_first_cell_underflows() {
    let mut rt = Runtime::new();
    let (halt, _) = run(&mut rt, "<", "", 1000);
    assert_eq!(halt, Halt::Failed(InterprerError::MemoryPointerUnderflow));
    let (halt, _) = run(&mut rt, "><<", "", 1000);
    assert_eq!(halt, Halt::Failed(InterprerError::MemoryPointerUnderflow));
}

#[test]
fn move_right_grows_the_tape_with_zero_cells() {
    let mut rt = Runtime::new();
    let (halt, _) = run(&mut rt, "+>>>", "", 1000);
    assert_eq!(halt, Halt::Done);
    assert_eq!(rt.get_at_ptr(), 0);
    assert_eq!(rt.get_mem_at(0), 1);
    assert_eq!(rt.get_mem_at(1), 0);
    assert_eq!(rt.get_mem_at(2), 0);
    assert_eq!(rt.get_mem_at(3), 0);
    let (halt, _) = run(&mut rt, "<<<", "", 1000);
    assert_eq!(halt, Halt::Done);
    assert_eq!(rt.get_at_ptr(), 1);
}

#[test]
fn a_loop_runs_until_its_cell_is_zero() {
    let mut rt = Runtime::new();
    let (halt, output) = run(&mut rt, "++[-]", "", 1000);
    assert_eq!(halt, Halt::Done);
    assert_eq!(output, "");
    assert_eq!(rt.get_at_ptr(), 0);
}

#[test]
fn a_loop_on_a_zero_cell_does_not_run() {
    let mut rt = Runtime::new();
    let (halt, _) = run(&mut rt, "[+]", "", 1000);
    assert_eq!(halt, Halt::Done);
    assert_eq!(rt.get_at_ptr(), 0);
    let (halt, _) = run(&mut rt, "[<]", "", 1000);
    assert_eq!(halt, Halt::Done);
}

#[test]
fn a_loop_tests_the_cell_under_the_pointer_of_the_moment() {
    let mut rt = Runtime::new();
    let (halt, _) = run(&mut rt, "+[>]", "", 1000);
    assert_eq!(halt, Halt::Done);
    assert_eq!(rt.get_at_ptr(), 0);
    assert_eq!(rt.get_mem_at(0), 1);
    let (halt, _) = run(&mut rt, "+<", "", 1000);
    assert_eq!(halt, Halt::Done);
    assert_eq!(rt.get_at_ptr(), 1);
    assert_eq!(rt.get_mem_at(1), 1);
}

#[test]
fn state_lives_on_between_programs() {
    let mut rt = Runtime::new();
    let (halt, output) = run(&mut rt, "+", "", 1000);
    assert_eq!((halt, output.as_str()), (Halt::Done, ""));
    let (halt, output) = run(&mut rt, ".", "", 1000);
    assert_eq!((halt, output.as_str()), (Halt::Done, "\u{1}"));
}

#[test]
fn state_before_a_failure_is_kept() {
    let mut rt = Runtime::new();
    let (halt, output) = run(&mut rt, "++.>+[-<<]+", "", 1000);
    assert_eq!(halt, Halt::Failed(InterprerError::MemoryPointerUnderflow));
    assert_eq!(output, "\u{2}");
    assert_eq!(rt.get_at_ptr(), 2);
    assert_eq!(rt.get_mem_at(1), 0);
}

#[test]
fn output_is_written_in_order_after_what_is_there() {
    let mut rt = Runtime::new();
    let code = parse("++++++++[>++++++++<-]>+.+.+.").unwrap();
    let mut output = String::from("> ");
    assert_eq!(rt.exec(&code, &mut "".chars(), &mut output, 10_000), Halt::Done);
    assert_eq!(output, "> ABC");
}

#[test]
fn a_cell_above_127_is_written_as_one_character() {
    let mut rt = Runtime::new();
    let (halt, output) = run(&mut rt, &format!("{}.", "+".repeat(233)), "", 1000);
    assert_eq!(halt, Halt::Done);
    assert_eq!(output, "\u{e9}");
}

#[test]
fn input_is_read_one_character_at_a_time() {
    let mut rt = Runtime::new();
    let (halt, output) = run(&mut rt, ",.>,.>,.", "abc", 1000);
    assert_eq!(halt, Halt::Done);
    assert_eq!(output, "abc");
    assert_eq!(rt.get_mem_at(0), 97);
    assert_eq!(rt.get_mem_at(1), 98);
    assert_eq!(rt.get_mem_at(2), 99);
}

#[test]
fn input_keeps_the_low_eight_bits() {
    let mut rt = Runtime::new();
    let (halt, _) = run(&mut rt, ",>,>,", "\u{e9}\u{100}\u{20ac}", 1000);
    assert_eq!(halt, Halt::Done);
    assert_eq!(rt.get_mem_at(0), 0xe9);
    assert_eq!(rt.get_mem_at(1), 0);
    assert_eq!(rt.get_mem_at(2), 0xac);
}

#[test]
fn a_run_without_input_left_is_starved() {
    let mut rt = Runtime::new();
    let (halt, output) = run(&mut rt, "+.,.,.", "a", 1000);
    assert_eq!(halt, Halt::Starved);
    assert_eq!(output, "\u{1}a");
    assert_eq!(rt.get_at_ptr(), 97);
}

#[test]
fn the_budget_counts_steps() {
    // Two instructions, two rounds of test, instruction and way out, the
    // last test, and the end of the program.
    let mut rt = Runtime::new();
    assert_eq!(run(&mut rt, "++[-]", "", 10).0, Halt::Done);
    let mut rt = Runtime::new();
    assert_eq!(run(&mut rt, "++[-]", "", 9).0, Halt::Spent);
    assert_eq!(rt.get_at_ptr(), 0);

    let mut rt = Runtime::new();
    assert_eq!(run(&mut rt, "+", "", 2).0, Halt::Done);
    let mut rt = Runtime::new();
    assert_eq!(run(&mut rt, "+", "", 1).0, Halt::Spent);
    assert_eq!(rt.get_at_ptr(), 1);
    let mut rt = Runtime::new();
    assert_eq!(run(&mut rt, "+", "", 0).0, Halt::Spent);
    assert_eq!(rt.get_at_ptr(), 0);
    let mut rt = Runtime::new();
    assert_eq!(run(&mut rt, "", "", 1).0, Halt::Done);
    assert_eq!(run(&mut rt, "", "", 0).0, Halt::Spent);
}

#[test]
fn a_program_that_never_ends_uses_up_its_budget() {
    let mut rt = Runtime::new();
    let (halt, output) = run(&mut rt, "+[.]", "", 20);
    assert_eq!(halt, Halt::Spent);
    assert_eq!(output, "\u{1}".repeat(6));
    assert_eq!(rt.get_at_ptr(), 1);
}

#[test]
fn steps_ask_for_input_and_hand_out_output() {
    let code = parse(",[.-]").unwrap();
    let mut rt = Runtime::new();
    let mut cursor = Cursor::new(&code);
    assert_eq!(rt.step(&mut cursor, None), Action::Get);
    assert_eq!(rt.step(&mut cursor, None), Action::Get);
    assert_eq!(rt.step(&mut cursor, Some('\u{2}')), Action::Next);
    assert_eq!(rt.get_at_ptr(), 2);
    assert_eq!(rt.step(&mut cursor, None), Action::Next);
    assert_eq!(rt.step(&mut cursor, None), Action::Put('\u{2}'));
    assert_eq!(rt.step(&mut cursor, None), Action::Next);
    assert_eq!(rt.get_at_ptr(), 1);
    assert_eq!(rt.step(&mut cursor, None), Action::Next);
    assert_eq!(rt.step(&mut cursor, None), Action::Next);
    assert_eq!(rt.step(&mut cursor, None), Action::Put('\u{1}'));
    assert_eq!(rt.step(&mut cursor, None), Action::Next);
    assert_eq!(rt.get_at_ptr(), 0);
    assert_eq!(rt.step(&mut cursor, None), Action::Next);
    assert_eq!(rt.step(&mut cursor, None), Action::Next);
    assert_eq!(rt.step(&mut cursor, None), Action::Done);
    assert_eq!(rt.step(&mut cursor, None), Action::Done);
}

#[test]
fn a_character_fed_to_another_instruction_is_dropped() {
    let code = parse("+.").unwrap();
    let mut rt = Runtime::new();
    let mut cursor = Cursor::new(&code);
    assert_eq!(rt.step(&mut cursor, Some('z')), Action::Next);
    assert_eq!(rt.get_at_ptr(), 1);
    assert_eq!(rt.step(&mut cursor, Some('z')), Action::Put('\u{1}'));
    assert_eq!(rt.step(&mut cursor, Some('z')), Action::Done);
}

#[test]
fn a_failed_step_leaves_the_machine_where_it_is() {
    let code = Commands(vec![Command::Minus, Command::Plus]);
    let mut rt = Runtime::new();
    let mut cursor = Cursor::new(&code);
    let failed = Action::Fail(InterprerError::VariableIntegerUnderflow);
    assert_eq!(rt.step(&mut cursor, None), failed);
    assert_eq!(rt.step(&mut cursor, None), failed);
    assert_eq!(rt.get_at_ptr(), 0);
}

#[test]
fn access_grows_the_tape() {
    let mut rt = Runtime::new();
    rt.make_access_at(5);
    assert_eq!(rt.get_mem_at(5), 0);
    rt.set_mem_at(9, 42);
    assert_eq!(rt.get_mem_at(9), 42);
    assert_eq!(rt.get_mem_at(8), 0);
    rt.make_access_at(3);
    assert_eq!(rt.get_mem_at(9), 42);
    rt.set_at_ptr(7);
    assert_eq!(rt.get_at_ptr(), 7);
    assert_eq!(rt.get_mem_at(0), 7);
    rt.set_mem_at(0, 8);
    assert_eq!(rt.get_at_ptr(), 8);
}

#[test]
fn change_variable_stores_or_hands_on_the_error() {
    let mut rt = Runtime::new();
    rt.set_at_ptr(10);
    assert_eq!(rt.change_variable(|x| Ok(x * 2)), Ok(()));
    assert_eq!(rt.get_at_ptr(), 20);
    assert_eq!(
        rt.change_variable(|_| Err(InterprerError::VariableIntegerOverflow)),
        Err(InterprerError::VariableIntegerOverflow)
    );
    assert_eq!(rt.get_at_ptr(), 20);
}

#[test]
fn two_runs_in_sequence_are_one_run_of_both() {
    let first = "++>,.[-<+>]";
    let second = "<.[->+<]>.,.";
    let input = "\u{3}z";

    let mut apart = Runtime::new();
    let (halt, mut output) = run(&mut apart, first, input, 1000);
    assert_eq!(halt, Halt::Done);
    let (halt, more) = run(&mut apart, second, "z", 1000);
    assert_eq!(halt, Halt::Done);
    output.push_str(&more);

    let mut joined = Runtime::new();
    let both = format!("{}{}", first, second);
    assert_eq!(run(&mut joined, &both, input, 1000), (Halt::Done, output));
    assert_eq!(joined.get_at_ptr(), apart.get_at_ptr());
    assert_eq!(joined.get_mem_at(0), apart.get_mem_at(0));
    assert_eq!(joined.get_mem_at(1), apart.get_mem_at(1));
    assert_eq!(joined.get_at_ptr(), 122);
    assert_eq!(joined.get_mem_at(0), 0);
}

#[test]
fn what_a_run_has_not_read_is_left_for_the_next() {
    let mut rt = Runtime::new();
    let mut input = "abcd".chars();
    let mut output = String::new();

    let code = parse(",.>,.").unwrap();
    assert_eq!(rt.exec(&code, &mut input, &mut output, 1000), Halt::Done);
    assert_eq!(input.as_str(), "cd");

    let code = parse(",.-").unwrap();
    assert_eq!(rt.exec(&code, &mut input, &mut output, 2), Halt::Spent);
    assert_eq!(input.as_str(), "d");

    let code = parse("<<,").unwrap();
    assert_eq!(
        rt.exec(&code, &mut input, &mut output, 1000),
        Halt::Failed(InterprerError::MemoryPointerUnderflow)
    );
    assert_eq!(input.as_str(), "d");

    let code = parse(",.,.").unwrap();
    assert_eq!(rt.exec(&code, &mut input, &mut output, 1000), Halt::Starved);
    assert_eq!(input.as_str(), "");
    assert_eq!(output, "abcd");
    assert_eq!(rt.get_at_ptr(), 100);
}
