//! The parser: from text to a command tree, in one pass from left to right.

use crate::error::{holds_colour_off, lemma_holds_no_colour_off, BfError};
use crate::{instructions, lemma_instructions, render, render_one, Command, Commands, Instruction};
use std::str::Chars;
use vstd::prelude::*;
use vstd::std_specs::iter::IteratorSpec;

verus! {

/// Why a text is not a program.
#[derive(Clone, Copy, Debug, PartialEq, Eq)]
pub enum ParseError {
    /// A `]` that closes no loop.
    LoopStartNotFound,
    /// The text ends inside a loop.
    LoopEndNotFound,
    /// A character that is none of the eight symbols.
    UndefinedCommand(char),
}

impl BfError for ParseError {
    open spec fn error_type_text(&self) -> Seq<char> {
        "Parse"@
    }

    open spec fn description_text(&self) -> Seq<char> {
        match self {
            ParseError::UndefinedCommand(c) => "undefined command '"@.push(*c).push('\''),
            ParseError::LoopStartNotFound => "'[' not found"@,
            ParseError::LoopEndNotFound => "']' not found"@,
        }
    }

    #[inline(always)]
    fn error_type(&self) -> (text: String) {
        "Parse".to_owned()
    }

    fn description(&self) -> (text: String) {
        match self {
            ParseError::UndefinedCommand(c) => {
                let mut text = "undefined command '".to_owned();
                text.push(*c);
                text.push('\'');
                text
            },
            ParseError::LoopStartNotFound => "'[' not found".to_owned(),
            ParseError::LoopEndNotFound => "']' not found".to_owned(),
        }
    }
}

/// Neither text of a parse error holds the control sequence that switches
/// all colours off, whatever character the error carries: a report shows
/// each of them as it is, or in its colour.
pub proof fn lemma_parse_error_texts(e: ParseError)
    ensures
        !holds_colour_off(e.error_type_text()),
        !holds_colour_off(e.description_text()),
{
    reveal_strlit("Parse");
    reveal_strlit("undefined command '");
    reveal_strlit("'[' not found");
    reveal_strlit("']' not found");
    lemma_holds_no_colour_off(e.error_type_text());
    lemma_holds_no_colour_off(e.description_text());
}

/// `c` is one of the six symbols that stand for an instruction by
/// themselves.
pub open spec fn is_simple(c: char) -> bool {
    c == '+' || c == '-' || c == '<' || c == '>' || c == '.' || c == ','
}

/// The first fault of `text`, read from left to right inside `depth` open
/// loops, or `None` if the text has none: a character that is no symbol, a
/// `]` where no loop is open, or the end of the text where one still is.
pub open spec fn fault(text: Seq<char>, depth: nat) -> Option<ParseError>
    decreases text.len(),
{
    if text.len() == 0 {
        if depth > 0 {
            Some(ParseError::LoopEndNotFound)
        } else {
            None
        }
    } else if text[0] == '[' {
        fault(text.drop_first(), depth + 1)
    } else if text[0] == ']' {
        if depth == 0 {
            Some(ParseError::LoopStartNotFound)
        } else {
            fault(text.drop_first(), (depth - 1) as nat)
        }
    } else if is_simple(text[0]) {
        fault(text.drop_first(), depth)
    } else {
        Some(ParseError::UndefinedCommand(text[0]))
    }
}

/// The text of an instruction at the head of a text neither has a fault nor
/// changes the number of open loops.
pub proof fn lemma_fault_render_one(i: Instruction, rest: Seq<char>, depth: nat)
    ensures
        fault(render_one(i) + rest, depth) == fault(rest, depth),
    decreases i,
{
    let text = render_one(i) + rest;
    match i {
        Instruction::Loop(body) => {
            let inner = render(body) + (seq![']'] + rest);
            assert(text.drop_first() =~= inner);
            lemma_fault_render(body, seq![']'] + rest, depth + 1);
            assert((seq![']'] + rest).drop_first() =~= rest);
        },
        _ => {
            assert(text.drop_first() =~= rest);
        },
    }
}

/// The text of a sequence of instructions at the head of a text neither has
/// a fault nor changes the number of open loops.
pub proof fn lemma_fault_render(p: Seq<Instruction>, rest: Seq<char>, depth: nat)
    ensures
        fault(render(p) + rest, depth) == fault(rest, depth),
    decreases p,
{
    if p.len() == 0 {
        assert(render(p) + rest =~= rest);
    } else {
        let tail = render_one(p.last()) + rest;
        assert(render(p) + rest =~= render(p.drop_last()) + tail);
        lemma_fault_render(p.drop_last(), tail, depth);
        lemma_fault_render_one(p.last(), rest, depth);
    }
}

/// Every program's text is free of faults: read outside any loop, it leaves
/// no loop open, so `parse` accepts it.
pub proof fn lemma_render_parses(p: Seq<Instruction>)
    ensures
        fault(render(p), 0) is None,
{
    lemma_fault_render(p, Seq::empty(), 0);
    assert(render(p) + Seq::<char>::empty() =~= render(p));
}

/// The first fault in the body of a loop, read behind its `[` with `inner`
/// loops open inside it, or `None` if the `]` that closes the loop comes
/// first. Nothing behind that `]` is read.
pub open spec fn loop_fault(text: Seq<char>, inner: nat) -> Option<ParseError>
    decreases text.len(),
{
    if text.len() == 0 {
        Some(ParseError::LoopEndNotFound)
    } else if text[0] == '[' {
        loop_fault(text.drop_first(), inner + 1)
    } else if text[0] == ']' {
        if inner == 0 {
            None
        } else {
            loop_fault(text.drop_first(), (inner - 1) as nat)
        }
    } else if is_simple(text[0]) {
        loop_fault(text.drop_first(), inner)
    } else {
        Some(ParseError::UndefinedCommand(text[0]))
    }
}

/// What is left of `text` once the body of a loop has been read, with
/// `inner` loops open inside it: what follows the `]` that closes the loop,
/// or what follows the character that is no symbol, or nothing where the
/// text ends first.
pub open spec fn loop_rest(text: Seq<char>, inner: nat) -> Seq<char>
    decreases text.len(),
{
    if text.len() == 0 {
        text
    } else if text[0] == '[' {
        loop_rest(text.drop_first(), inner + 1)
    } else if text[0] == ']' {
        if inner == 0 {
            text.drop_first()
        } else {
            loop_rest(text.drop_first(), (inner - 1) as nat)
        }
    } else if is_simple(text[0]) {
        loop_rest(text.drop_first(), inner)
    } else {
        text.drop_first()
    }
}

/// Inside a loop, the text of an instruction at the head of a text is read
/// over: the fault and what is left are those of the text behind it.
pub proof fn lemma_loop_render_one(i: Instruction, rest: Seq<char>, inner: nat)
    ensures
        loop_fault(render_one(i) + rest, inner) == loop_fault(rest, inner),
        loop_rest(render_one(i) + rest, inner) == loop_rest(rest, inner),
    decreases i,
{
    let text = render_one(i) + rest;
    match i {
        Instruction::Loop(body) => {
            let behind = seq![']'] + rest;
            assert(text.drop_first() =~= render(body) + behind);
            lemma_loop_render(body, behind, inner + 1);
            assert(behind.drop_first() =~= rest);
        },
        _ => {
            assert(text.drop_first() =~= rest);
        },
    }
}

/// Inside a loop, the text of a sequence of instructions at the head of a
/// text is read over: the fault and what is left are those of the text
/// behind it.
pub proof fn lemma_loop_render(p: Seq<Instruction>, rest: Seq<char>, inner: nat)
    ensures
        loop_fault(render(p) + rest, inner) == loop_fault(rest, inner),
        loop_rest(render(p) + rest, inner) == loop_rest(rest, inner),
    decreases p,
{
    if p.len() == 0 {
        assert(render(p) + rest =~= rest);
    } else {
        let tail = render_one(p.last()) + rest;
        assert(render(p) + rest =~= render(p.drop_last()) + tail);
        lemma_loop_render(p.drop_last(), tail, inner);
        lemma_loop_render_one(p.last(), rest, inner);
    }
}

/// A fault in the body of a loop does not depend on the loops around it:
/// with `more` loops open inside, the fault and what is left are the same.
pub proof fn lemma_loop_fault_deeper(text: Seq<char>, inner: nat, more: nat)
    ensures
        loop_fault(text, inner) is Some ==> {
            &&& loop_fault(text, inner + more) == loop_fault(text, inner)
            &&& loop_rest(text, inner + more) == loop_rest(text, inner)
        },
    decreases text.len(),
{
    if text.len() > 0 && loop_fault(text, inner) is Some {
        if text[0] == '[' {
            lemma_loop_fault_deeper(text.drop_first(), inner + 1, more);
        } else if text[0] == ']' {
            lemma_loop_fault_deeper(text.drop_first(), (inner - 1) as nat, more);
        } else if is_simple(text[0]) {
            lemma_loop_fault_deeper(text.drop_first(), inner, more);
        }
    }
}

/// A fault in the body of a loop is the first fault of the text, however
/// many loops are open around that loop.
pub proof fn lemma_loop_fault_is_fault(text: Seq<char>, inner: nat, around: nat)
    ensures
        loop_fault(text, inner) is Some ==> fault(text, around + 1 + inner) == loop_fault(
            text,
            inner,
        ),
    decreases text.len(),
{
    if text.len() > 0 && loop_fault(text, inner) is Some {
        if text[0] == '[' {
            lemma_loop_fault_is_fault(text.drop_first(), inner + 1, around);
        } else if text[0] == ']' {
            lemma_loop_fault_is_fault(text.drop_first(), (inner - 1) as nat, around);
        } else if is_simple(text[0]) {
            lemma_loop_fault_is_fault(text.drop_first(), inner, around);
        }
    }
}

/// What is left to read: the character at hand, if there is one, and what
/// the iterator still holds.
spec fn pending(c: Option<char>, rest: Seq<char>) -> Seq<char> {
    match c {
        Some(ch) => seq![ch] + rest,
        None => rest,
    }
}

/// A bound on the characters that are left to read: none once the iterator
/// has run dry, else one more than the iterator's own measure.
spec fn left(c: Option<char>, measure: Option<nat>) -> nat {
    match c {
        Some(_) => measure->0 + 1,
        None => 0,
    }
}

/// `res` and `rest` are what reading a loop gives whose `[` stood before
/// `text`: the first fault of its body and what is left behind it, or the
/// loop whose text is read and what is left behind its `]`.
spec fn loop_parsed(text: Seq<char>, res: Result<Command, ParseError>, rest: Seq<char>) -> bool {
    &&& rest == loop_rest(text, 0)
    &&& match loop_fault(text, 0) {
        Some(e) => res == Err::<Command, ParseError>(e),
        None => res matches Ok(cmd) && cmd@ is Loop && seq!['['] + text == render_one(cmd@)
            + rest,
    }
}

/// Parses `s`. The result is the program whose text is `s`, or the first
/// fault of `s`. Every character counts: there is no white space and there
/// are no comments.
pub fn parse(s: &str) -> (res: Result<Commands, ParseError>)
    ensures
        match res {
            Ok(code) => fault(s@, 0) is None && render(code@) == s@,
            Err(e) => fault(s@, 0) == Some(e),
        },
{
    let mut res = Vec::<Command>::new();
    let mut it = s.chars();
    let mut c = it.next();

    while c.is_some()
        invariant
            s@ == render(instructions(res, res.len() as nat)) + pending(c, it.remaining()),
            c is None ==> it.remaining().len() == 0,
            it.decrease() is Some,
        decreases left(c, it.decrease()),
    {
        let ghost before = instructions(res, res.len() as nat);
        let ghost unread = it.remaining();
        let ghost rest = pending(c, unread);
        proof {
            lemma_fault_render(before, rest, 0);
            lemma_instructions(res, res.len() as nat);
            assert(rest.drop_first() =~= unread);
            lemma_loop_fault_is_fault(unread, 0, 0);
        }
        let cmd = parse_command(&mut it, c.unwrap())?;
        res.push(cmd);
        c = it.next();
        proof {
            let after = instructions(res, res.len() as nat);
            lemma_instructions(res, res.len() as nat);
            assert(after.drop_last() =~= before);
            assert(s@ =~= render(after) + pending(c, it.remaining()));
        }
    }
    proof {
        lemma_fault_render(instructions(res, res.len() as nat), Seq::empty(), 0);
        assert(s@ =~= render(instructions(res, res.len() as nat)));
        assert(s@ + Seq::<char>::empty() =~= s@);
    }
    Ok(Commands(res))
}

/// Parses the command that starts with `c`, which was read from `it`. A
/// symbol that stands for an instruction by itself gives that instruction,
/// `[` gives the loop that is read on to the `]` that closes it, or the
/// first fault of its body, and any other character is an error. But for
/// `[`, nothing is read.
fn parse_command(it: &mut Chars, c: char) -> (res: Result<Command, ParseError>)
    requires
        (*old(it)).decrease() is Some,
    ensures
        is_simple(c) ==> {
            &&& res matches Ok(cmd)
            &&& render_one(cmd@) == seq![c]
            &&& (*final(it)).remaining() == (*old(it)).remaining()
        },
        c == '[' ==> loop_parsed((*old(it)).remaining(), res, (*final(it)).remaining()),
        c == ']' ==> {
            &&& res == Err::<Command, ParseError>(ParseError::LoopStartNotFound)
            &&& (*final(it)).remaining() == (*old(it)).remaining()
        },
        !is_simple(c) && c != '[' && c != ']' ==> {
            &&& res == Err::<Command, ParseError>(ParseError::UndefinedCommand(c))
            &&& (*final(it)).remaining() == (*old(it)).remaining()
        },
        res is Ok ==> (*final(it)).decrease()->0 <= (*old(it)).decrease()->0,
        (*final(it)).decrease() is Some,
    decreases (*old(it)).decrease()->0, 1nat,
{
    match c {
        '+' => Ok(Command::Plus),
        '-' => Ok(Command::Minus),
        '<' => Ok(Command::MoveLeft),
        '>' => Ok(Command::MoveRight),
        '.' => Ok(Command::Put),
        ',' => Ok(Command::Get),
        '[' => parse_loop(it),
        ']' => Err(ParseError::LoopStartNotFound),
        _ => Err(ParseError::UndefinedCommand(c)),
    }
}

/// Parses the body of a loop whose `[` was read from `it`, up to and with the
/// `]` that closes it. The result is the loop, with `it` behind that `]`, or
/// the first fault of the body: a character that is no symbol, with `it`
/// behind it, or the end of the text, with nothing left in `it`.
fn parse_loop(it: &mut Chars) -> (res: Result<Command, ParseError>)
    requires
        (*old(it)).decrease() is Some,
    ensures
        loop_parsed((*old(it)).remaining(), res, (*final(it)).remaining()),
        res is Ok ==> (*final(it)).decrease()->0 <= (*old(it)).decrease()->0,
        (*final(it)).decrease() is Some,
    decreases (*old(it)).decrease()->0, 0nat,
{
    let mut res = Vec::<Command>::new();
    let mut c = it.next();

    while c.is_some() && c.unwrap() != ']'
        invariant
            (*old(it)).remaining() == render(instructions(res, res.len() as nat)) + pending(
                c,
                (*it).remaining(),
            ),
            c is None ==> (*it).remaining().len() == 0,
            (*it).decrease() is Some,
            c is Some ==> (*it).decrease()->0 < (*old(it)).decrease()->0,
        decreases left(c, (*it).decrease()),
    {
        let ghost before = instructions(res, res.len() as nat);
        let ghost unread = (*it).remaining();
        let ghost rest = pending(c, unread);
        proof {
            lemma_instructions(res, res.len() as nat);
            lemma_loop_render(before, rest, 0);
            assert(rest.drop_first() =~= unread);
            lemma_loop_fault_deeper(unread, 0, 1);
        }
        let cmd = parse_command(it, c.unwrap())?;
        res.push(cmd);
        c = it.next();
        proof {
            let after = instructions(res, res.len() as nat);
            lemma_instructions(res, res.len() as nat);
            assert(after.drop_last() =~= before);
            assert((*old(it)).remaining() =~= render(after) + pending(c, (*it).remaining()));
        }
    }

    let ghost body = instructions(res, res.len() as nat);
    proof {
        lemma_loop_render(body, pending(c, (*it).remaining()), 0);
    }
    if c.is_none() {
        Err(ParseError::LoopEndNotFound)
    } else {
        let cmd = Command::Loop(res);
        proof {
            assert(pending(c, (*it).remaining()).drop_first() =~= (*it).remaining());
            assert(seq!['['] + (*old(it)).remaining() =~= render_one(cmd@) + (*it).remaining());
        }
        Ok(cmd)
    }
}

} // verus!
