//! What a program means: the tape as a mathematical value, the machine that
//! runs a program one step at a time, and the same meaning told along the
//! structure of the program.

use crate::interprer::{Action, Halt, InterprerError};
use crate::Instruction;
use vstd::prelude::*;

verus! {

/// The tape as a mathematical value: its cells and the index of the cell
/// under the pointer.
pub struct Tape {
    pub cells: Seq<u8>,
    pub ptr: nat,
}

impl Tape {
    /// The pointer is an index into the cells.
    pub open spec fn wf(self) -> bool {
        self.ptr < self.cells.len()
    }

    /// The tape of a new evaluator: one cell, which holds zero, under the
    /// pointer.
    pub open spec fn blank() -> Tape {
        Tape { cells: seq![0u8], ptr: 0 }
    }

    /// The value of the cell under the pointer.
    pub open spec fn cell(self) -> u8 {
        self.cells[self.ptr as int]
    }

    /// The tape made long enough to hold index `at`, by zero cells added on
    /// the right. A tape that holds the index already stays as it is.
    pub open spec fn grown(self, at: nat) -> Tape {
        if at < self.cells.len() {
            self
        } else {
            Tape {
                cells: self.cells + Seq::new((at + 1 - self.cells.len()) as nat, |i: int| 0u8),
                ptr: self.ptr,
            }
        }
    }

    /// The tape with the pointer one cell further right, grown by a zero cell
    /// where the pointer leaves the cells that exist.
    pub open spec fn moved_right(self) -> Tape {
        Tape { cells: self.grown(self.ptr + 1).cells, ptr: self.ptr + 1 }
    }

    /// The tape with the pointer one cell further left.
    pub open spec fn moved_left(self) -> Tape {
        Tape { cells: self.cells, ptr: (self.ptr - 1) as nat }
    }

    /// The tape with `val` in the cell under the pointer.
    pub open spec fn put(self, val: u8) -> Tape {
        self.stored(self.ptr, val)
    }

    /// The tape with `val` stored at index `at`, grown first where needed.
    pub open spec fn stored(self, at: nat, val: u8) -> Tape {
        Tape { cells: self.grown(at).cells.update(at as int, val), ptr: self.ptr }
    }
}

/// A cell's value plus one, which must not pass 255.
pub open spec fn raised(x: u8) -> Result<u8, InterprerError> {
    if x == 255 {
        Err(InterprerError::VariableIntegerOverflow)
    } else {
        Ok((x + 1) as u8)
    }
}

/// A cell's value minus one, which must not pass 0.
pub open spec fn lowered(x: u8) -> Result<u8, InterprerError> {
    if x == 0 {
        Err(InterprerError::VariableIntegerUnderflow)
    } else {
        Ok((x - 1) as u8)
    }
}

/// One level of the machine's control stack: a sequence of instructions and
/// the index of the one that runs next. The top level is the program; each
/// level above it is the body of a loop that is running.
pub struct Frame {
    pub body: Seq<Instruction>,
    pub at: nat,
}

/// The machine after a step, and what the step asks of the caller.
pub struct Stepped {
    pub stack: Seq<Frame>,
    pub tape: Tape,
    pub action: Action,
}

/// The stack with the index of its top frame moved on by one.
pub open spec fn advanced(stack: Seq<Frame>) -> Seq<Frame> {
    stack.update(
        stack.len() - 1,
        (Frame { body: stack.last().body, at: stack.last().at + 1 }),
    )
}

/// One step of the machine, on the stack `stack` and the tape `tape`, with
/// the character `fed` at hand if the caller has read one.
///
/// An empty stack is a program that has ended. A top frame at its end is
/// popped: the frame below, if there is one, stands at the loop that
/// pushed it, which tests its cell again in the next step. Otherwise the
/// instruction under the index runs, and the index moves on unless the
/// instruction fails, waits for input, or is a loop whose body is entered.
/// A character fed to any instruction but `Input` is dropped.
pub open spec fn step(stack: Seq<Frame>, tape: Tape, fed: Option<char>) -> Stepped {
    if stack.len() == 0 {
        Stepped { stack, tape, action: Action::Done }
    } else if stack.last().at >= stack.last().body.len() {
        Stepped {
            stack: stack.drop_last(),
            tape,
            action: if stack.len() == 1 {
                Action::Done
            } else {
                Action::Next
            },
        }
    } else {
        match stack.last().body[stack.last().at as int] {
            Instruction::Increment => match raised(tape.cell()) {
                Ok(val) => Stepped { stack: advanced(stack), tape: tape.put(val), action: Action::Next },
                Err(e) => Stepped { stack, tape, action: Action::Fail(e) },
            },
            Instruction::Decrement => match lowered(tape.cell()) {
                Ok(val) => Stepped { stack: advanced(stack), tape: tape.put(val), action: Action::Next },
                Err(e) => Stepped { stack, tape, action: Action::Fail(e) },
            },
            Instruction::MoveLeft => if tape.ptr == 0 {
                Stepped { stack, tape, action: Action::Fail(InterprerError::MemoryPointerUnderflow) }
            } else {
                Stepped { stack: advanced(stack), tape: tape.moved_left(), action: Action::Next }
            },
            Instruction::MoveRight => Stepped {
                stack: advanced(stack),
                tape: tape.moved_right(),
                action: Action::Next,
            },
            Instruction::Output => Stepped {
                stack: advanced(stack),
                tape,
                action: Action::Put(tape.cell() as char),
            },
            Instruction::Input => match fed {
                Some(c) => Stepped {
                    stack: advanced(stack),
                    tape: tape.put(c as u8),
                    action: Action::Next,
                },
                None => Stepped { stack, tape, action: Action::Get },
            },
            Instruction::Loop(body) => if tape.cell() != 0 {
                Stepped { stack: stack.push(Frame { body, at: 0 }), tape, action: Action::Next }
            } else {
                Stepped { stack: advanced(stack), tape, action: Action::Next }
            },
        }
    }
}

/// How the run of a sequence of instructions ended.
pub enum Ending {
    /// It ran through to the end of the sequence, with `left` steps of the
    /// budget not used.
    Through { left: nat },
    /// It stopped before that.
    Halted(Halt),
}

/// What a run leaves behind: the tape, the input that it has not read, the
/// output that it has written, and how it ended.
pub struct Run {
    pub tape: Tape,
    pub unread: Seq<char>,
    pub output: Seq<char>,
    pub ending: Ending,
}

impl Run {
    /// A run that stops at once.
    pub open spec fn halted(tape: Tape, unread: Seq<char>, halt: Halt) -> Run {
        Run { tape, unread, output: Seq::empty(), ending: Ending::Halted(halt) }
    }

    /// The run with `before` written ahead of its own output.
    pub open spec fn after(self, before: Seq<char>) -> Run {
        Run { output: before + self.output, ..self }
    }

    /// The run of a whole program: running through the program ends it,
    /// which takes one step more.
    pub open spec fn ended(self) -> Run {
        match self.ending {
            Ending::Through { left } => Run {
                ending: Ending::Halted(
                    if left == 0 {
                        Halt::Spent
                    } else {
                        Halt::Done
                    },
                ),
                ..self
            },
            Ending::Halted(_) => self,
        }
    }
}

/// The machine run from the stack `stack` for at most `budget` steps, with
/// `input` to read from: each step's output is written, and each step that
/// asks for input is made again with the next character of `input`.
pub open spec fn run(stack: Seq<Frame>, tape: Tape, input: Seq<char>, budget: nat) -> Run
    decreases budget,
{
    if budget == 0 {
        Run::halted(tape, input, Halt::Spent)
    } else {
        let now = step(stack, tape, None);
        match now.action {
            Action::Done => Run::halted(now.tape, input, Halt::Done),
            Action::Fail(e) => Run::halted(now.tape, input, Halt::Failed(e)),
            Action::Next => run(now.stack, now.tape, input, (budget - 1) as nat),
            Action::Put(c) => run(now.stack, now.tape, input, (budget - 1) as nat).after(seq![c]),
            Action::Get => if input.len() == 0 {
                Run::halted(now.tape, input, Halt::Starved)
            } else {
                let fed = step(stack, tape, Some(input[0]));
                run(fed.stack, fed.tape, input.drop_first(), (budget - 1) as nat)
            },
        }
    }
}

/// The instructions of `body` from index `at` on, run on `tape` with `input`
/// to read from, for at most `budget` steps.
///
/// An instruction takes one step. A loop takes one step for each test of
/// its cell and one more each time its body has run through; the body runs
/// as long as the test finds the cell under the pointer, wherever the
/// pointer then is, not zero. The first instruction that fails ends the
/// run, and so does an `Input` when no input is left.
pub open spec fn eval(
    body: Seq<Instruction>,
    at: nat,
    tape: Tape,
    input: Seq<char>,
    budget: nat,
) -> Run
    decreases budget,
{
    if at >= body.len() {
        Run { tape, unread: input, output: Seq::empty(), ending: Ending::Through { left: budget } }
    } else if budget == 0 {
        Run::halted(tape, input, Halt::Spent)
    } else {
        let rest = (budget - 1) as nat;
        match body[at as int] {
            Instruction::Increment => match raised(tape.cell()) {
                Ok(val) => eval(body, at + 1, tape.put(val), input, rest),
                Err(e) => Run::halted(tape, input, Halt::Failed(e)),
            },
            Instruction::Decrement => match lowered(tape.cell()) {
                Ok(val) => eval(body, at + 1, tape.put(val), input, rest),
                Err(e) => Run::halted(tape, input, Halt::Failed(e)),
            },
            Instruction::MoveLeft => if tape.ptr == 0 {
                Run::halted(tape, input, Halt::Failed(InterprerError::MemoryPointerUnderflow))
            } else {
                eval(body, at + 1, tape.moved_left(), input, rest)
            },
            Instruction::MoveRight => eval(body, at + 1, tape.moved_right(), input, rest),
            Instruction::Output => eval(body, at + 1, tape, input, rest).after(
                seq![tape.cell() as char],
            ),
            Instruction::Input => if input.len() == 0 {
                Run::halted(tape, input, Halt::Starved)
            } else {
                eval(body, at + 1, tape.put(input[0] as u8), input.drop_first(), rest)
            },
            Instruction::Loop(inner) => if tape.cell() == 0 {
                eval(body, at + 1, tape, input, rest)
            } else {
                let round = eval(inner, 0, tape, input, rest);
                match round.ending {
                    Ending::Halted(_) => round,
                    Ending::Through { left } => if left == 0 || left > rest {
                        // The second test never holds: see `lemma_eval_left`.
                        Run { ending: Ending::Halted(Halt::Spent), ..round }
                    } else {
                        eval(body, at, round.tape, round.unread, (left - 1) as nat).after(
                            round.output,
                        )
                    },
                }
            },
        }
    }
}

/// The program `code` run on `tape` with `input` to read from, for at most
/// `budget` steps.
pub open spec fn outcome(code: Seq<Instruction>, tape: Tape, input: Seq<char>, budget: nat) -> Run {
    eval(code, 0, tape, input, budget).ended()
}

/// A run hands back no more steps than it was given.
pub proof fn lemma_eval_left(
    body: Seq<Instruction>,
    at: nat,
    tape: Tape,
    input: Seq<char>,
    budget: nat,
)
    ensures
        eval(body, at, tape, input, budget).ending matches Ending::Through { left } ==> left
            <= budget,
    decreases budget,
{
    if at < body.len() && budget > 0 {
        let rest = (budget - 1) as nat;
        match body[at as int] {
            Instruction::Increment => {
                if let Ok(val) = raised(tape.cell()) {
                    lemma_eval_left(body, at + 1, tape.put(val), input, rest);
                }
            },
            Instruction::Decrement => {
                if let Ok(val) = lowered(tape.cell()) {
                    lemma_eval_left(body, at + 1, tape.put(val), input, rest);
                }
            },
            Instruction::MoveLeft => {
                lemma_eval_left(body, at + 1, tape.moved_left(), input, rest);
            },
            Instruction::MoveRight => {
                lemma_eval_left(body, at + 1, tape.moved_right(), input, rest);
            },
            Instruction::Output => {
                lemma_eval_left(body, at + 1, tape, input, rest);
            },
            Instruction::Input => {
                if input.len() > 0 {
                    lemma_eval_left(
                        body,
                        at + 1,
                        tape.put(input[0] as u8),
                        input.drop_first(),
                        rest,
                    );
                }
            },
            Instruction::Loop(inner) => {
                if tape.cell() == 0 {
                    lemma_eval_left(body, at + 1, tape, input, rest);
                } else {
                    let round = eval(inner, 0, tape, input, rest);
                    lemma_eval_left(inner, 0, tape, input, rest);
                    if let Ending::Through { left } = round.ending {
                        if 0 < left <= rest {
                            lemma_eval_left(
                                body,
                                at,
                                round.tape,
                                round.unread,
                                (left - 1) as nat,
                            );
                        }
                    }
                }
            },
        }
    }
}

/// A step keeps the tape in order: the pointer stays an index into the
/// cells, and the tape does not shrink.
pub proof fn lemma_step_keeps_tape(stack: Seq<Frame>, tape: Tape, fed: Option<char>)
    requires
        tape.wf(),
    ensures
        step(stack, tape, fed).tape.wf(),
        step(stack, tape, fed).tape.cells.len() >= tape.cells.len(),
{
}

/// A run keeps the tape in order, however it ends: the pointer stays an
/// index into the cells, and the tape does not shrink.
pub proof fn lemma_eval_keeps_tape(
    body: Seq<Instruction>,
    at: nat,
    tape: Tape,
    input: Seq<char>,
    budget: nat,
)
    requires
        tape.wf(),
    ensures
        eval(body, at, tape, input, budget).tape.wf(),
        eval(body, at, tape, input, budget).tape.cells.len() >= tape.cells.len(),
    decreases budget,
{
    if at < body.len() && budget > 0 {
        let rest = (budget - 1) as nat;
        match body[at as int] {
            Instruction::Increment => {
                if let Ok(val) = raised(tape.cell()) {
                    lemma_eval_keeps_tape(body, at + 1, tape.put(val), input, rest);
                }
            },
            Instruction::Decrement => {
                if let Ok(val) = lowered(tape.cell()) {
                    lemma_eval_keeps_tape(body, at + 1, tape.put(val), input, rest);
                }
            },
            Instruction::MoveLeft => {
                if tape.ptr != 0 {
                    lemma_eval_keeps_tape(body, at + 1, tape.moved_left(), input, rest);
                }
            },
            Instruction::MoveRight => {
                lemma_eval_keeps_tape(body, at + 1, tape.moved_right(), input, rest);
            },
            Instruction::Output => {
                lemma_eval_keeps_tape(body, at + 1, tape, input, rest);
            },
            Instruction::Input => {
                if input.len() > 0 {
                    lemma_eval_keeps_tape(
                        body,
                        at + 1,
                        tape.put(input[0] as u8),
                        input.drop_first(),
                        rest,
                    );
                }
            },
            Instruction::Loop(inner) => {
                if tape.cell() == 0 {
                    lemma_eval_keeps_tape(body, at + 1, tape, input, rest);
                } else {
                    let round = eval(inner, 0, tape, input, rest);
                    lemma_eval_keeps_tape(inner, 0, tape, input, rest);
                    lemma_eval_left(inner, 0, tape, input, rest);
                    if let Ending::Through { left } = round.ending {
                        if left > 0 {
                            lemma_eval_keeps_tape(
                                body,
                                at,
                                round.tape,
                                round.unread,
                                (left - 1) as nat,
                            );
                        }
                    }
                }
            },
        }
    }
}

/// Where the first of two sequences of instructions has not run through
/// yet, their concatenation runs as the first does, and goes on with the
/// second where the first runs through.
pub proof fn lemma_eval_concat(
    a: Seq<Instruction>,
    b: Seq<Instruction>,
    at: nat,
    tape: Tape,
    input: Seq<char>,
    budget: nat,
)
    requires
        at <= a.len(),
    ensures
        eval(a + b, at, tape, input, budget) == (match eval(a, at, tape, input, budget).ending {
            Ending::Halted(_) => eval(a, at, tape, input, budget),
            Ending::Through { left } => eval(
                a + b,
                a.len(),
                eval(a, at, tape, input, budget).tape,
                eval(a, at, tape, input, budget).unread,
                left,
            ).after(eval(a, at, tape, input, budget).output),
        }),
    decreases budget,
{
    let both = a + b;
    if at >= a.len() {
        let tail = eval(both, a.len(), tape, input, budget);
        assert(Seq::<char>::empty() + tail.output =~= tail.output);
    } else if budget == 0 {
    } else {
        let rest = (budget - 1) as nat;
        assert(both[at as int] == a[at as int]);
        match a[at as int] {
            Instruction::Increment => {
                if let Ok(val) = raised(tape.cell()) {
                    lemma_eval_concat(a, b, at + 1, tape.put(val), input, rest);
                }
            },
            Instruction::Decrement => {
                if let Ok(val) = lowered(tape.cell()) {
                    lemma_eval_concat(a, b, at + 1, tape.put(val), input, rest);
                }
            },
            Instruction::MoveLeft => {
                if tape.ptr != 0 {
                    lemma_eval_concat(a, b, at + 1, tape.moved_left(), input, rest);
                }
            },
            Instruction::MoveRight => {
                lemma_eval_concat(a, b, at + 1, tape.moved_right(), input, rest);
            },
            Instruction::Output => {
                lemma_eval_concat(a, b, at + 1, tape, input, rest);
                let first = eval(a, at + 1, tape, input, rest);
                let c = seq![tape.cell() as char];
                if let Ending::Through { left } = first.ending {
                    let tail = eval(both, a.len(), first.tape, first.unread, left);
                    assert(c + (first.output + tail.output) =~= (c + first.output) + tail.output);
                }
            },
            Instruction::Input => {
                if input.len() > 0 {
                    lemma_eval_concat(
                        a,
                        b,
                        at + 1,
                        tape.put(input[0] as u8),
                        input.drop_first(),
                        rest,
                    );
                }
            },
            Instruction::Loop(inner) => {
                if tape.cell() == 0 {
                    lemma_eval_concat(a, b, at + 1, tape, input, rest);
                } else {
                    let round = eval(inner, 0, tape, input, rest);
                    lemma_eval_left(inner, 0, tape, input, rest);
                    if let Ending::Through { left } = round.ending {
                        if left > 0 {
                            let again = (left - 1) as nat;
                            lemma_eval_concat(a, b, at, round.tape, round.unread, again);
                            let first = eval(a, at, round.tape, round.unread, again);
                            if let Ending::Through { left: over } = first.ending {
                                let tail = eval(both, a.len(), first.tape, first.unread, over);
                                assert(round.output + (first.output + tail.output) =~= (
                                round.output + first.output) + tail.output);
                            }
                        }
                    }
                }
            },
        }
    }
}

/// Behind the first of two sequences of instructions, their concatenation
/// runs as the second does.
pub proof fn lemma_eval_shift(
    a: Seq<Instruction>,
    b: Seq<Instruction>,
    at: nat,
    tape: Tape,
    input: Seq<char>,
    budget: nat,
)
    ensures
        eval(a + b, a.len() + at, tape, input, budget) == eval(b, at, tape, input, budget),
    decreases budget,
{
    let both = a + b;
    let from = a.len() + at;
    if at >= b.len() {
    } else if budget == 0 {
    } else {
        let rest = (budget - 1) as nat;
        assert(both[from as int] == b[at as int]);
        match b[at as int] {
            Instruction::Increment => {
                if let Ok(val) = raised(tape.cell()) {
                    lemma_eval_shift(a, b, at + 1, tape.put(val), input, rest);
                }
            },
            Instruction::Decrement => {
                if let Ok(val) = lowered(tape.cell()) {
                    lemma_eval_shift(a, b, at + 1, tape.put(val), input, rest);
                }
            },
            Instruction::MoveLeft => {
                if tape.ptr != 0 {
                    lemma_eval_shift(a, b, at + 1, tape.moved_left(), input, rest);
                }
            },
            Instruction::MoveRight => {
                lemma_eval_shift(a, b, at + 1, tape.moved_right(), input, rest);
            },
            Instruction::Output => {
                lemma_eval_shift(a, b, at + 1, tape, input, rest);
            },
            Instruction::Input => {
                if input.len() > 0 {
                    lemma_eval_shift(
                        a,
                        b,
                        at + 1,
                        tape.put(input[0] as u8),
                        input.drop_first(),
                        rest,
                    );
                }
            },
            Instruction::Loop(inner) => {
                if tape.cell() == 0 {
                    lemma_eval_shift(a, b, at + 1, tape, input, rest);
                } else {
                    let round = eval(inner, 0, tape, input, rest);
                    lemma_eval_left(inner, 0, tape, input, rest);
                    if let Ending::Through { left } = round.ending {
                        if left > 0 {
                            lemma_eval_shift(
                                a,
                                b,
                                at,
                                round.tape,
                                round.unread,
                                (left - 1) as nat,
                            );
                        }
                    }
                }
            },
        }
    }
}

/// State lives on: where a program runs through, a second program run on
/// what the first has left (the tape, the input that is not read, the steps
/// that are not used) ends as the two programs run as one, with its output
/// behind that of the first.
pub proof fn lemma_run_in_sequence(
    a: Seq<Instruction>,
    b: Seq<Instruction>,
    tape: Tape,
    input: Seq<char>,
    budget: nat,
)
    requires
        eval(a, 0, tape, input, budget).ending is Through,
    ensures
        outcome(a + b, tape, input, budget) == outcome(
            b,
            eval(a, 0, tape, input, budget).tape,
            eval(a, 0, tape, input, budget).unread,
            eval(a, 0, tape, input, budget).ending->left,
        ).after(eval(a, 0, tape, input, budget).output),
{
    let first = eval(a, 0, tape, input, budget);
    lemma_eval_concat(a, b, 0, tape, input, budget);
    lemma_eval_shift(a, b, 0, first.tape, first.unread, first.ending->left);
}

/// The error with which an instruction fails on `tape`, if it does: a cell
/// that would pass 255 or 0, or a pointer that would leave the tape on the
/// left. No other instruction fails by itself.
pub open spec fn failure(i: Instruction, tape: Tape) -> Option<InterprerError> {
    match i {
        Instruction::Increment => match raised(tape.cell()) {
            Ok(_) => None,
            Err(e) => Some(e),
        },
        Instruction::Decrement => match lowered(tape.cell()) {
            Ok(_) => None,
            Err(e) => Some(e),
        },
        Instruction::MoveLeft => if tape.ptr == 0 {
            Some(InterprerError::MemoryPointerUnderflow)
        } else {
            None
        },
        _ => None,
    }
}

/// Nothing is undone: where the instructions before it have run through
/// and an instruction fails, the run ends with that error and leaves the
/// tape, the input and the output as they were when the instruction was
/// reached. What stands behind the instruction does not matter.
pub proof fn lemma_failure_keeps_state(
    before: Seq<Instruction>,
    failing: Instruction,
    behind: Seq<Instruction>,
    tape: Tape,
    input: Seq<char>,
    budget: nat,
)
    requires
        eval(before, 0, tape, input, budget).ending matches Ending::Through { left } && left > 0,
        failure(failing, eval(before, 0, tape, input, budget).tape) is Some,
    ensures
        outcome(before + seq![failing] + behind, tape, input, budget) == (Run {
            ending: Ending::Halted(
                Halt::Failed(failure(failing, eval(before, 0, tape, input, budget).tape)->0),
            ),
            ..eval(before, 0, tape, input, budget)
        }),
{
    let first = eval(before, 0, tape, input, budget);
    let rest = seq![failing] + behind;
    assert(before + seq![failing] + behind =~= before + rest);
    lemma_eval_concat(before, rest, 0, tape, input, budget);
    lemma_eval_shift(before, rest, 0, first.tape, first.unread, first.ending->left);
    assert(rest[0] == failing);
    assert(first.output + Seq::<char>::empty() =~= first.output);
}

/// One round of a loop: where the loop finds its cell not zero and its body
/// runs through with a step to spare, the loop goes on as it would have
/// started on what the body has left, with its output behind the body's.
pub proof fn lemma_loop_round(inner: Seq<Instruction>, tape: Tape, input: Seq<char>, budget: nat)
    requires
        tape.cell() != 0,
        budget > 0,
        eval(inner, 0, tape, input, (budget - 1) as nat).ending matches Ending::Through { left }
            && left > 0,
    ensures
        eval(seq![Instruction::Loop(inner)], 0, tape, input, budget) == eval(
            seq![Instruction::Loop(inner)],
            0,
            eval(inner, 0, tape, input, (budget - 1) as nat).tape,
            eval(inner, 0, tape, input, (budget - 1) as nat).unread,
            (eval(inner, 0, tape, input, (budget - 1) as nat).ending->left - 1) as nat,
        ).after(eval(inner, 0, tape, input, (budget - 1) as nat).output),
{
    lemma_eval_left(inner, 0, tape, input, (budget - 1) as nat);
}

/// A loop that finds its cell at zero is passed over: the tape stays as it
/// is, nothing is read and nothing written.
pub proof fn lemma_loop_passed_over(
    inner: Seq<Instruction>,
    tape: Tape,
    input: Seq<char>,
    budget: nat,
)
    requires
        tape.cell() == 0,
        budget >= 2,
    ensures
        outcome(seq![Instruction::Loop(inner)], tape, input, budget) == Run::halted(
            tape,
            input,
            Halt::Done,
        ),
{
    let code = seq![Instruction::Loop(inner)];
    assert(eval(code, 1, tape, input, (budget - 1) as nat).ending == Ending::Through {
        left: (budget - 1) as nat,
    });
    assert(eval(code, 0, tape, input, budget) == eval(code, 1, tape, input, (budget - 1) as nat));
}

/// What growing a tape keeps and adds: the pointer and the cells that were
/// there stay, and each cell that is new holds zero.
pub proof fn lemma_grown(tape: Tape, at: nat)
    ensures
        tape.grown(at).ptr == tape.ptr,
        tape.grown(at).cells.len() == if at < tape.cells.len() {
            tape.cells.len()
        } else {
            at + 1
        },
        forall|i: int| 0 <= i < tape.cells.len() ==> tape.grown(at).cells[i] == tape.cells[i],
        forall|i: int| tape.cells.len() <= i <= at ==> tape.grown(at).cells[i] == 0,
{
}

/// A move to the right never fails: the pointer is an index into the tape
/// again, the cells that were there stay, and a cell that the move has added
/// reads zero.
pub proof fn lemma_moved_right(tape: Tape)
    requires
        tape.wf(),
    ensures
        tape.moved_right().wf(),
        tape.moved_right().ptr == tape.ptr + 1,
        forall|i: int| 0 <= i < tape.cells.len() ==> tape.moved_right().cells[i] == tape.cells[i],
        tape.ptr + 1 == tape.cells.len() ==> tape.moved_right().cell() == 0,
{
    lemma_grown(tape, tape.ptr + 1);
}

/// What `run` does after its first step, where that step is neither the
/// last one nor one that reads or writes.
proof fn lemma_run_next(stack: Seq<Frame>, tape: Tape, input: Seq<char>, budget: nat)
    requires
        budget > 0,
        step(stack, tape, None).action == Action::Next,
    ensures
        run(stack, tape, input, budget) == run(
            step(stack, tape, None).stack,
            step(stack, tape, None).tape,
            input,
            (budget - 1) as nat,
        ),
{
}

/// The machine and the structure of the program agree: with the instructions
/// of `body` from `at` on as its top frame, the machine does what `eval`
/// says of them, and where they run through it goes on from the end of that
/// frame with the steps that are left.
pub proof fn lemma_run_eval(
    below: Seq<Frame>,
    body: Seq<Instruction>,
    at: nat,
    tape: Tape,
    input: Seq<char>,
    budget: nat,
)
    requires
        at <= body.len(),
    ensures
        run(below.push(Frame { body, at }), tape, input, budget) == (match eval(
            body,
            at,
            tape,
            input,
            budget,
        ).ending {
            Ending::Halted(_) => eval(body, at, tape, input, budget),
            Ending::Through { left } => run(
                below.push(Frame { body, at: body.len() }),
                eval(body, at, tape, input, budget).tape,
                eval(body, at, tape, input, budget).unread,
                left,
            ).after(eval(body, at, tape, input, budget).output),
        }),
    decreases budget,
{
    let stack = below.push(Frame { body, at });
    let whole = eval(body, at, tape, input, budget);
    let end = below.push(Frame { body, at: body.len() });
    if at >= body.len() {
        assert(stack =~= end);
        assert(run(end, tape, input, budget).after(Seq::empty()) == run(end, tape, input, budget))
            by {
            assert(Seq::<char>::empty() + run(end, tape, input, budget).output =~= run(
                end,
                tape,
                input,
                budget,
            ).output);
        }
    } else if budget == 0 {
    } else {
        let rest = (budget - 1) as nat;
        let next = below.push(Frame { body, at: at + 1 });
        assert(advanced(stack) =~= next);
        assert(stack.last() == Frame { body, at });
        match body[at as int] {
            Instruction::Increment => {
                if let Ok(val) = raised(tape.cell()) {
                    lemma_run_eval(below, body, at + 1, tape.put(val), input, rest);
                }
            },
            Instruction::Decrement => {
                if let Ok(val) = lowered(tape.cell()) {
                    lemma_run_eval(below, body, at + 1, tape.put(val), input, rest);
                }
            },
            Instruction::MoveLeft => {
                if tape.ptr != 0 {
                    lemma_run_eval(below, body, at + 1, tape.moved_left(), input, rest);
                }
            },
            Instruction::MoveRight => {
                lemma_run_eval(below, body, at + 1, tape.moved_right(), input, rest);
            },
            Instruction::Output => {
                lemma_run_eval(below, body, at + 1, tape, input, rest);
                let tail = eval(body, at + 1, tape, input, rest);
                let c = seq![tape.cell() as char];
                if let Ending::Through { left } = tail.ending {
                    let last = run(end, tail.tape, tail.unread, left);
                    assert(c + (tail.output + last.output) =~= (c + tail.output) + last.output);
                }
            },
            Instruction::Input => {
                if input.len() > 0 {
                    lemma_run_eval(
                        below,
                        body,
                        at + 1,
                        tape.put(input[0] as u8),
                        input.drop_first(),
                        rest,
                    );
                }
            },
            Instruction::Loop(inner) => {
                if tape.cell() == 0 {
                    lemma_run_eval(below, body, at + 1, tape, input, rest);
                } else {
                    let round = eval(inner, 0, tape, input, rest);
                    lemma_run_eval(stack, inner, 0, tape, input, rest);
                    lemma_eval_left(inner, 0, tape, input, rest);
                    if let Ending::Through { left } = round.ending {
                        let top = stack.push(Frame { body: inner, at: inner.len() });
                        if left > 0 {
                            assert(top.drop_last() =~= stack);
                            lemma_run_next(top, round.tape, round.unread, left);
                            lemma_run_eval(
                                below,
                                body,
                                at,
                                round.tape,
                                round.unread,
                                (left - 1) as nat,
                            );
                            let again = eval(body, at, round.tape, round.unread, (left - 1) as nat);
                            if let Ending::Through { left: over } = again.ending {
                                let last = run(end, again.tape, again.unread, over);
                                assert(round.output + (again.output + last.output) =~= (round.output
                                    + again.output) + last.output);
                            }
                        } else {
                            assert(round.output + Seq::<char>::empty() =~= round.output);
                        }
                    }
                }
            },
        }
    }
}

/// The machine, started at the first instruction of a program, ends as
/// `outcome` says.
pub proof fn lemma_run_outcome(code: Seq<Instruction>, tape: Tape, input: Seq<char>, budget: nat)
    ensures
        run(seq![Frame { body: code, at: 0 }], tape, input, budget) == outcome(
            code,
            tape,
            input,
            budget,
        ),
{
    let below = Seq::<Frame>::empty();
    lemma_run_eval(below, code, 0, tape, input, budget);
    assert(below.push(Frame { body: code, at: 0 }) =~= seq![Frame { body: code, at: 0 }]);
    let whole = eval(code, 0, tape, input, budget);
    if let Ending::Through { left } = whole.ending {
        let end = below.push(Frame { body: code, at: code.len() });
        let last = run(end, whole.tape, whole.unread, left);
        assert(whole.output + Seq::<char>::empty() =~= whole.output);
        if left > 0 {
            assert(step(end, whole.tape, None).action == Action::Done);
        }
    }
}

} // verus!
