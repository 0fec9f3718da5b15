//! The evaluator: a tape of byte cells with a pointer, and the machine that
//! runs a program against it one instruction at a time.

use crate::error::{holds_colour_off, lemma_holds_no_colour_off, BfError};
use crate::semantics::{
    advanced, lemma_run_outcome, lowered, outcome, raised, run, step, Ending, Frame, Run, Tape,
};
use crate::{instructions, lemma_instructions, Command, Commands};
use std::str::Chars;
use vstd::prelude::*;
use vstd::std_specs::iter::IteratorSpec;

verus! {

/// Why an instruction could not be executed.
#[derive(Clone, Copy, Debug, PartialEq, Eq)]
pub enum InterprerError {
    VariableIntegerOverflow,
    VariableIntegerUnderflow,
    MemoryPointerUnderflow,
}

impl BfError for InterprerError {
    open spec fn error_type_text(&self) -> Seq<char> {
        "Runtime"@
    }

    open spec fn description_text(&self) -> Seq<char> {
        match self {
            InterprerError::MemoryPointerUnderflow => "memory pointer underflow"@,
            InterprerError::VariableIntegerUnderflow => "variable underflow"@,
            InterprerError::VariableIntegerOverflow => "variable overflow"@,
        }
    }

    #[inline(always)]
    fn error_type(&self) -> (text: String) {
        "Runtime".to_owned()
    }

    fn description(&self) -> (text: String) {
        match self {
            InterprerError::MemoryPointerUnderflow => "memory pointer underflow",
            InterprerError::VariableIntegerUnderflow => "variable underflow",
            InterprerError::VariableIntegerOverflow => "variable overflow",
        }.to_owned()
    }
}

/// Neither text of a runtime error holds the control sequence that switches
/// all colours off: a report shows each of them as it is, or in its colour.
pub proof fn lemma_runtime_error_texts(e: InterprerError)
    ensures
        !holds_colour_off(e.error_type_text()),
        !holds_colour_off(e.description_text()),
{
    reveal_strlit("Runtime");
    reveal_strlit("memory pointer underflow");
    reveal_strlit("variable underflow");
    reveal_strlit("variable overflow");
    lemma_holds_no_colour_off(e.error_type_text());
    lemma_holds_no_colour_off(e.description_text());
}

/// Adds one to a cell's value, unless that passes 255.
fn raise(x: u8) -> (res: Result<u8, InterprerError>)
    ensures
        res == raised(x),
{
    x.checked_add(1).ok_or(InterprerError::VariableIntegerOverflow)
}

/// Takes one from a cell's value, unless that passes 0.
fn lower(x: u8) -> (res: Result<u8, InterprerError>)
    ensures
        res == lowered(x),
{
    x.checked_sub(1).ok_or(InterprerError::VariableIntegerUnderflow)
}

/// What one step of the machine leaves for its caller to do.
#[derive(Clone, Copy, Debug, PartialEq, Eq)]
pub enum Action {
    /// Nothing: step again.
    Next,
    /// Write this character to the output, then step again.
    Put(char),
    /// Read one character from the input and step again with it.
    Get,
    /// Nothing: the program has ended.
    Done,
    /// Nothing: the instruction failed and the program is abandoned.
    Fail(InterprerError),
}

/// How a run of a program ended.
#[derive(Clone, Copy, Debug, PartialEq, Eq)]
pub enum Halt {
    /// The program ran to its end.
    Done,
    /// An instruction failed.
    Failed(InterprerError),
    /// The program waits for input and none is left.
    Starved,
    /// The steps that the caller allowed are used up.
    Spent,
}

/// The place that a running program has reached: for the program and for
/// each loop that is running, the index of the instruction that runs next.
pub struct Cursor<'a> {
    frames: Vec<(&'a Vec<Command>, usize)>,
}

impl<'a> View for Cursor<'a> {
    type V = Seq<Frame>;

    closed spec fn view(&self) -> Seq<Frame> {
        Seq::new(
            self.frames.len() as nat,
            |i: int|
                Frame {
                    body: instructions(*self.frames[i].0, self.frames[i].0.len() as nat),
                    at: self.frames[i].1 as nat,
                },
        )
    }
}

impl<'a> Cursor<'a> {
    /// The start of `code`: one frame, the program, at its first instruction.
    pub fn new(code: &'a Commands) -> (cursor: Self)
        ensures
            cursor@ == seq![Frame { body: code@, at: 0 }],
    {
        let mut frames: Vec<(&'a Vec<Command>, usize)> = Vec::new();
        frames.push((&code.0, 0));
        let cursor = Cursor { frames };
        proof {
            assert(cursor@ =~= seq![Frame { body: code@, at: 0 }]);
        }
        cursor
    }
}

/// The evaluator's state: the tape and the pointer. It lives on from one
/// program to the next.
pub struct Runtime {
    mem: Vec<u8>,
    ptr: usize,
    max_len: usize,
}

impl View for Runtime {
    type V = Tape;

    closed spec fn view(&self) -> Tape {
        Tape { cells: self.mem@, ptr: self.ptr as nat }
    }
}

impl Default for Runtime {
    #[inline]
    fn default() -> (rt: Self)
        ensures
            rt.wf(),
            rt@ == Tape::blank(),
    {
        Self::new()
    }
}

impl Runtime {
    /// The evaluator is in order: its pointer is an index into its tape.
    /// `new` makes such an evaluator and every method keeps it so.
    pub closed spec fn wf(&self) -> bool {
        &&& self.mem.len() == self.max_len + 1
        &&& self.ptr <= self.max_len
    }

    /// The pointer of an evaluator that is in order is an index into its
    /// cells.
    pub proof fn lemma_wf_tape(&self)
        requires
            self.wf(),
        ensures
            self@.wf(),
    {
    }

    /// An evaluator with a blank tape.
    #[inline]
    pub fn new() -> (rt: Self)
        ensures
            rt.wf(),
            rt@ == Tape::blank(),
    {
        let mut mem: Vec<u8> = Vec::new();
        mem.push(0);
        Self { mem, ptr: 0, max_len: 0 }
    }

    /// Makes index `at` of the tape accessible: grows the tape by zero cells
    /// up to and including that index.
    #[inline]
    pub fn make_access_at(&mut self, at: usize)
        requires
            old(self).wf(),
        ensures
            final(self).wf(),
            final(self)@ == old(self)@.grown(at as nat),
    {
        if at <= self.max_len {
            return ;
        }
        while self.max_len < at
            invariant
                self.mem.len() == self.max_len + 1,
                self.ptr <= self.max_len,
                self.ptr == old(self).ptr,
                old(self).max_len <= self.max_len <= at,
                self.mem@ == old(self).mem@ + Seq::new(
                    (self.max_len - old(self).max_len) as nat,
                    |i: int| 0u8,
                ),
            decreases at - self.max_len,
        {
            self.mem.push(0);
            self.max_len = self.max_len + 1;
            proof {
                assert(self.mem@ =~= old(self).mem@ + Seq::new(
                    (self.max_len - old(self).max_len) as nat,
                    |i: int| 0u8,
                ));
            }
        }
    }

    /// Stores `val` at index `at` of the tape, which grows where needed.
    #[inline]
    pub fn set_mem_at(&mut self, at: usize, val: u8)
        requires
            old(self).wf(),
        ensures
            final(self).wf(),
            final(self)@ == old(self)@.stored(at as nat, val),
    {
        self.make_access_at(at);
        self.mem.set(at, val);
    }

    /// Stores `val` in the cell under the pointer.
    #[inline]
    pub fn set_at_ptr(&mut self, val: u8)
        requires
            old(self).wf(),
        ensures
            final(self).wf(),
            final(self)@ == old(self)@.stored(old(self)@.ptr, val),
    {
        self.set_mem_at(self.ptr, val)
    }

    /// The value at index `at` of the tape, which grows where needed.
    #[inline]
    pub fn get_mem_at(&mut self, at: usize) -> (val: u8)
        requires
            old(self).wf(),
        ensures
            final(self).wf(),
            final(self)@ == old(self)@.grown(at as nat),
            val == final(self)@.cells[at as int],
    {
        self.make_access_at(at);
        self.mem[at]
    }

    /// Replaces the value of the cell under the pointer by what `f` makes of
    /// it, or leaves the tape as it is and hands on the error that `f` gives.
    #[inline]
    pub fn change_variable(&mut self, f: impl Fn(u8) -> Result<u8, InterprerError>) -> (res: Result<
        (),
        InterprerError,
    >)
        requires
            old(self).wf(),
            f.requires((old(self)@.cell(),)),
        ensures
            final(self).wf(),
            match res {
                Ok(()) => {
                    &&& f.ensures((old(self)@.cell(),), Ok(final(self)@.cell()))
                    &&& final(self)@ == old(self)@.put(final(self)@.cell())
                },
                Err(e) => {
                    &&& f.ensures((old(self)@.cell(),), Err(e))
                    &&& final(self)@ == old(self)@
                },
            },
    {
        let val = self.get_at_ptr();
        match f(val) {
            Ok(changed) => {
                self.set_at_ptr(changed);
                Ok(())
            },
            Err(e) => Err(e),
        }
    }

    /// Runs one step of the machine: see [`step`].
    pub fn step<'a>(&mut self, cursor: &mut Cursor<'a>, fed: Option<char>) -> (action: Action)
        requires
            old(self).wf(),
        ensures
            final(self).wf(),
            final(cursor)@ == step(old(cursor)@, old(self)@, fed).stack,
            final(self)@ == step(old(cursor)@, old(self)@, fed).tape,
            action == step(old(cursor)@, old(self)@, fed).action,
    {
        let depth = cursor.frames.len();
        if depth == 0 {
            return Action::Done;
        }
        let (body, at) = cursor.frames[depth - 1];
        proof {
            lemma_instructions(*body, body.len() as nat);
            assert(old(cursor)@.last().body == instructions(*body, body.len() as nat));
        }
        if at >= body.len() {
            cursor.frames.pop();
            proof {
                assert(cursor@ =~= old(cursor)@.drop_last());
            }
            return if depth == 1 {
                Action::Done
            } else {
                Action::Next
            };
        }
        let mut action = Action::Next;
        match &body[at] {
            Command::Plus => {
                let res = self.change_variable(raise);
                if let Err(e) = res {
                    return Action::Fail(e);
                }
            },
            Command::Minus => {
                let res = self.change_variable(lower);
                if let Err(e) = res {
                    return Action::Fail(e);
                }
            },
            Command::MoveLeft => {
                match self.ptr.checked_sub(1) {
                    Some(ptr) => {
                        self.ptr = ptr;
                    },
                    None => {
                        return Action::Fail(InterprerError::MemoryPointerUnderflow);
                    },
                }
            },
            Command::MoveRight => {
                self.make_access_at(self.ptr + 1);
                self.ptr = self.ptr + 1;
            },
            Command::Put => {
                action = Action::Put(self.get_at_ptr() as char);
            },
            Command::Get => {
                match fed {
                    Some(c) => {
                        self.set_at_ptr(c as u8);
                    },
                    None => {
                        return Action::Get;
                    },
                }
            },
            Command::Loop(inner) => {
                if self.get_at_ptr() != 0 {
                    cursor.frames.push((inner, 0));
                    proof {
                        assert(cursor@ =~= old(cursor)@.push(
                            Frame { body: instructions(*inner, inner.len() as nat), at: 0 },
                        ));
                    }
                    return Action::Next;
                }
            },
        }
        cursor.frames.set(depth - 1, (body, at + 1));
        proof {
            assert(cursor@ =~= advanced(old(cursor)@));
        }
        action
    }

    /// Runs `code` for at most `budget` steps, reading from `input` one
    /// character at a time, as the program asks for them, and writing to the
    /// end of `output`. The tape and the pointer are left as the run leaves
    /// them, whichever way it ends: nothing is undone. What the run has not
    /// read is left in `input`, for the next run to read.
    pub fn exec(
        &mut self,
        code: &Commands,
        input: &mut Chars,
        output: &mut String,
        budget: usize,
    ) -> (halt: Halt)
        requires
            old(self).wf(),
        ensures
            final(self).wf(),
            final(self)@ == outcome(
                code@,
                old(self)@,
                (*old(input)).remaining(),
                budget as nat,
            ).tape,
            (*final(input)).remaining() == outcome(
                code@,
                old(self)@,
                (*old(input)).remaining(),
                budget as nat,
            ).unread,
            final(output)@ == old(output)@ + outcome(
                code@,
                old(self)@,
                (*old(input)).remaining(),
                budget as nat,
            ).output,
            outcome(code@, old(self)@, (*old(input)).remaining(), budget as nat).ending
                == Ending::Halted(halt),
    {
        let mut cursor = Cursor::new(code);
        let mut left = budget;
        let ghost whole = run(cursor@, self@, (*input).remaining(), budget as nat);
        let ghost written = Seq::<char>::empty();
        proof {
            lemma_run_outcome(code@, self@, (*input).remaining(), budget as nat);
            assert(output@ + written =~= output@);
            assert(written + whole.output =~= whole.output);
        }
        while left > 0
            invariant
                self.wf(),
                output@ == old(output)@ + written,
                whole == run(cursor@, self@, (*input).remaining(), left as nat).after(written),
                whole == outcome(code@, old(self)@, (*old(input)).remaining(), budget as nat),
            decreases left,
        {
            let ghost unread = (*input).remaining();
            match self.step(&mut cursor, None) {
                Action::Next => {},
                Action::Put(c) => {
                    output.push(c);
                    proof {
                        let there = run(cursor@, self@, unread, (left - 1) as nat);
                        assert(written + (seq![c] + there.output) =~= written.push(c)
                            + there.output);
                        written = written.push(c);
                        assert(output@ =~= old(output)@ + written);
                    }
                },
                Action::Get => {
                    match input.next() {
                        Some(c) => {
                            self.step(&mut cursor, Some(c));
                        },
                        None => {
                            proof {
                                assert(written + Seq::<char>::empty() =~= written);
                            }
                            return Halt::Starved;
                        },
                    }
                },
                Action::Done => {
                    proof {
                        assert(written + Seq::<char>::empty() =~= written);
                    }
                    return Halt::Done;
                },
                Action::Fail(e) => {
                    proof {
                        assert(written + Seq::<char>::empty() =~= written);
                    }
                    return Halt::Failed(e);
                },
            }
            left = left - 1;
        }
        proof {
            assert(written + Seq::<char>::empty() =~= written);
        }
        Halt::Spent
    }

    /// The value of the cell under the pointer.
    #[inline]
    pub fn get_at_ptr(&mut self) -> (val: u8)
        requires
            old(self).wf(),
        ensures
            final(self).wf(),
            final(self)@ == old(self)@,
            val == old(self)@.cell(),
    {
        self.get_mem_at(self.ptr)
    }
}

} // verus!
