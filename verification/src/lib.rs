//! A small toolchain for an eight-symbol tape language: a parser that turns
//! text into a command tree, and an evaluator that runs such a tree against a
//! growable tape of byte cells.

use vstd::prelude::*;

pub mod error;
pub mod interprer;
pub mod parser;
pub mod semantics;

verus! {

/// One instruction as a mathematical value. A loop holds the sequence of the
/// instructions of its body.
pub enum Instruction {
    Increment,
    Decrement,
    MoveLeft,
    MoveRight,
    Input,
    Output,
    Loop(Seq<Instruction>),
}

/// One instruction of a program.
#[derive(Debug, PartialEq, Eq)]
pub enum Command {
    Plus,
    Minus,
    MoveLeft,
    MoveRight,
    Get,
    Put,
    Loop(Vec<Command>),
}

/// A program: the instructions in the order in which they run.
pub struct Commands(pub Vec<Command>);

/// The instructions that the first `n` commands of `cmds` stand for.
pub open spec fn instructions(cmds: Vec<Command>, n: nat) -> Seq<Instruction>
    decreases cmds, n,
{
    if n == 0 || n > cmds.len() {
        Seq::empty()
    } else {
        instructions(cmds, (n - 1) as nat).push(cmds[n - 1].view())
    }
}

impl View for Command {
    type V = Instruction;

    open spec fn view(&self) -> Instruction
        decreases *self, 0nat,
    {
        match self {
            Command::Plus => Instruction::Increment,
            Command::Minus => Instruction::Decrement,
            Command::MoveLeft => Instruction::MoveLeft,
            Command::MoveRight => Instruction::MoveRight,
            Command::Get => Instruction::Input,
            Command::Put => Instruction::Output,
            Command::Loop(body) => Instruction::Loop(instructions(*body, body.len() as nat)),
        }
    }
}

impl View for Commands {
    type V = Seq<Instruction>;

    open spec fn view(&self) -> Seq<Instruction> {
        instructions(self.0, self.0.len() as nat)
    }
}

/// `String::push` of std: the string afterwards is the string before with
/// `ch` at its end.
pub assume_specification[ String::push ](s: &mut String, ch: char)
    ensures
        final(s)@ == old(s)@.push(ch),
;

/// The text of one instruction: its symbol, and for a loop its body between
/// square brackets.
pub open spec fn render_one(i: Instruction) -> Seq<char>
    decreases i,
{
    match i {
        Instruction::Increment => seq!['+'],
        Instruction::Decrement => seq!['-'],
        Instruction::MoveLeft => seq!['<'],
        Instruction::MoveRight => seq!['>'],
        Instruction::Input => seq![','],
        Instruction::Output => seq!['.'],
        Instruction::Loop(body) => seq!['['] + render(body) + seq![']'],
    }
}

/// The text of a sequence of instructions: their texts, one after the other.
pub open spec fn render(p: Seq<Instruction>) -> Seq<char>
    decreases p,
{
    if p.len() == 0 {
        Seq::empty()
    } else {
        render(p.drop_last()) + render_one(p.last())
    }
}

/// The text of a sequence is the text of its parts, one after the other.
pub proof fn lemma_render_concat(a: Seq<Instruction>, b: Seq<Instruction>)
    ensures
        render(a + b) == render(a) + render(b),
    decreases b.len(),
{
    if b.len() == 0 {
        assert(a + b =~= a);
        assert(render(a) + render(b) =~= render(a));
    } else {
        assert((a + b).drop_last() =~= a + b.drop_last());
        lemma_render_concat(a, b.drop_last());
        assert(render(a + b) =~= render(a) + render(b));
    }
}

/// A text that starts with the text of a sequence of instructions, taken
/// apart at the first instruction. The text starts with `[` exactly if that
/// instruction is a loop, and then goes on with the loop's body, `]`, and the
/// rest; otherwise it starts with the instruction's symbol, which is not a
/// bracket, and goes on with the rest.
pub proof fn lemma_render_front(p: Seq<Instruction>, x: Seq<char>)
    requires
        p.len() > 0,
    ensures
        (render(p) + x).len() > 0,
        match p[0] {
            Instruction::Loop(body) => {
                &&& (render(p) + x)[0] == '['
                &&& (render(p) + x).drop_first() == render(body) + (seq![']'] + (render(
                    p.drop_first(),
                ) + x))
            },
            _ => {
                &&& (render(p) + x)[0] != '['
                &&& (render(p) + x)[0] != ']'
                &&& render_one(p[0]) == seq![(render(p) + x)[0]]
                &&& (render(p) + x).drop_first() == render(p.drop_first()) + x
            },
        },
{
    let head = seq![p[0]];
    let text = render(p) + x;
    assert(head + p.drop_first() =~= p);
    lemma_render_concat(head, p.drop_first());
    assert(head.drop_last() =~= Seq::<Instruction>::empty());
    assert(render(Seq::<Instruction>::empty()) =~= Seq::<char>::empty());
    assert(render(head) =~= render_one(p[0]));
    assert(text =~= render_one(p[0]) + (render(p.drop_first()) + x));
    match p[0] {
        Instruction::Loop(body) => {
            assert(render_one(p[0])[0] == '[');
            assert(text.drop_first() =~= render(body) + (seq![']'] + (render(p.drop_first())
                + x)));
        },
        _ => {
            assert(render_one(p[0]) =~= seq![text[0]]);
            assert(text.drop_first() =~= render(p.drop_first()) + x);
        },
    }
}

/// Two instructions that are no loops and have the same symbol are the
/// same instruction.
pub proof fn lemma_symbol_injective(i: Instruction, j: Instruction)
    requires
        !(i is Loop),
        !(j is Loop),
        render_one(i) == render_one(j),
    ensures
        i == j,
{
    lemma_symbol(i);
    lemma_symbol(j);
}

/// The symbol of each instruction that is no loop.
pub proof fn lemma_symbol(i: Instruction)
    ensures
        i is Increment ==> render_one(i)[0] == '+',
        i is Decrement ==> render_one(i)[0] == '-',
        i is MoveLeft ==> render_one(i)[0] == '<',
        i is MoveRight ==> render_one(i)[0] == '>',
        i is Input ==> render_one(i)[0] == ',',
        i is Output ==> render_one(i)[0] == '.',
{
}

/// Where two texts that each start with the text of a sequence of
/// instructions are equal, and what follows each sequence is nothing or
/// starts with `]`, the sequences are equal and so is what follows them.
pub proof fn lemma_render_split(
    p: Seq<Instruction>,
    q: Seq<Instruction>,
    x: Seq<char>,
    y: Seq<char>,
)
    requires
        render(p) + x == render(q) + y,
        x.len() > 0 ==> x[0] == ']',
        y.len() > 0 ==> y[0] == ']',
    ensures
        p == q,
        x == y,
    decreases (render(p) + x).len(),
{
    let text = render(p) + x;
    if p.len() == 0 {
        assert(text =~= x);
        if q.len() == 0 {
            assert(render(q) + y =~= y);
            assert(p =~= q);
        } else {
            lemma_render_front(q, y);
        }
    } else if q.len() == 0 {
        assert(render(q) + y =~= y);
        lemma_render_front(p, x);
    } else {
        lemma_render_front(p, x);
        lemma_render_front(q, y);
        let p_rest = p.drop_first();
        let q_rest = q.drop_first();
        match p[0] {
            Instruction::Loop(b) => {
                match q[0] {
                    Instruction::Loop(c) => {
                        let x_rest = seq![']'] + (render(p_rest) + x);
                        let y_rest = seq![']'] + (render(q_rest) + y);
                        assert(x_rest[0] == ']' && y_rest[0] == ']');
                        assert((render(b) + x_rest).len() == text.len() - 1);
                        lemma_render_split(b, c, x_rest, y_rest);
                        assert(x_rest.drop_first() =~= render(p_rest) + x);
                        assert(y_rest.drop_first() =~= render(q_rest) + y);
                        assert((render(p_rest) + x).len() < text.len());
                        lemma_render_split(p_rest, q_rest, x, y);
                    },
                    _ => {},
                }
            },
            _ => {
                if !(q[0] is Loop) {
                    lemma_symbol_injective(p[0], q[0]);
                    assert((render(p_rest) + x).len() == text.len() - 1);
                    lemma_render_split(p_rest, q_rest, x, y);
                }
            },
        }
        assert(p =~= seq![p[0]] + p_rest);
        assert(q =~= seq![q[0]] + q_rest);
    }
}

/// Two programs with the same text are the same program.
pub proof fn lemma_render_injective(p: Seq<Instruction>, q: Seq<Instruction>)
    requires
        render(p) == render(q),
    ensures
        p == q,
{
    let none = Seq::<char>::empty();
    assert(render(p) + none =~= render(q) + none);
    lemma_render_split(p, q, none, none);
}

/// `instructions(cmds, n)` has `n` items, the views of the first `n` commands.
pub proof fn lemma_instructions(cmds: Vec<Command>, n: nat)
    requires
        n <= cmds.len(),
    ensures
        instructions(cmds, n).len() == n,
        forall|i: int| 0 <= i < n ==> #[trigger] instructions(cmds, n)[i] == cmds[i]@,
    decreases n,
{
    if n > 0 {
        lemma_instructions(cmds, (n - 1) as nat);
        assert(instructions(cmds, n) == instructions(cmds, (n - 1) as nat).push(cmds[n - 1]@));
    } else {
        assert(instructions(cmds, n) == Seq::<Instruction>::empty());
    }
}

impl Clone for Command {
    fn clone(&self) -> (copy: Self)
        ensures
            copy@ == self@,
        decreases self,
    {
        match self {
            Command::Plus => Command::Plus,
            Command::Minus => Command::Minus,
            Command::MoveLeft => Command::MoveLeft,
            Command::MoveRight => Command::MoveRight,
            Command::Get => Command::Get,
            Command::Put => Command::Put,
            Command::Loop(body) => {
                let mut copy: Vec<Command> = Vec::new();
                let mut i: usize = 0;
                while i < body.len()
                    invariant
                        i <= body.len(),
                        copy.len() == i,
                        decreases_to!(*self => *body),
                        forall|k: int| 0 <= k < i ==> copy[k]@ == body[k]@,
                    decreases body.len() - i,
                {
                    copy.push(body[i].clone());
                    i += 1;
                }
                proof {
                    lemma_instructions(*body, body.len() as nat);
                    lemma_instructions(copy, copy.len() as nat);
                    assert(instructions(copy, copy.len() as nat) =~= instructions(
                        *body,
                        body.len() as nat,
                    ));
                }
                Command::Loop(copy)
            },
        }
    }
}

impl Command {
    /// Appends the text of this command to `out`.
    pub fn render_into(&self, out: &mut String)
        ensures
            final(out)@ == old(out)@ + render_one(self@),
        decreases self,
    {
        match self {
            Command::Plus => out.push('+'),
            Command::Minus => out.push('-'),
            Command::MoveLeft => out.push('<'),
            Command::MoveRight => out.push('>'),
            Command::Get => out.push(','),
            Command::Put => out.push('.'),
            Command::Loop(body) => {
                out.push('[');
                let mut i: usize = 0;
                while i < body.len()
                    invariant
                        i <= body.len(),
                        decreases_to!(*self => *body),
                        out@ == old(out)@ + seq!['['] + render(instructions(*body, i as nat)),
                    decreases body.len() - i,
                {
                    body[i].render_into(out);
                    proof {
                        let next = instructions(*body, (i + 1) as nat);
                        assert(next.drop_last() =~= instructions(*body, i as nat));
                    }
                    i += 1;
                }
                out.push(']');
            },
        }
        proof {
            assert(final(out)@ =~= old(out)@ + render_one(self@));
        }
    }

    /// The text of this command.
    pub fn to_string(&self) -> (text: String)
        ensures
            text@ == render_one(self@),
    {
        let mut text = String::new();
        self.render_into(&mut text);
        text
    }
}

impl Commands {
    /// The text of the program: the texts of its commands, one after the other.
    pub fn to_string(&self) -> (text: String)
        ensures
            text@ == render(self@),
    {
        let mut text = String::new();
        let mut i: usize = 0;
        while i < self.0.len()
            invariant
                i <= self.0.len(),
                text@ == render(instructions(self.0, i as nat)),
            decreases self.0.len() - i,
        {
            self.0[i].render_into(&mut text);
            proof {
                let next = instructions(self.0, (i + 1) as nat);
                assert(next.drop_last() =~= instructions(self.0, i as nat));
            }
            i += 1;
        }
        text
    }
}

} // verus!
