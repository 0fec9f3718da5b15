//! What the parser's and the evaluator's errors have in common, and the line
//! that reports one of them on a terminal.

use colored::Colorize;
use vstd::prelude::*;

verus! {

/// An error that names its category and describes itself.
pub trait BfError {
    /// The text that `description` returns.
    spec fn description_text(&self) -> Seq<char>;

    /// The text that `error_type` returns.
    spec fn error_type_text(&self) -> Seq<char>;

    /// What went wrong, in words.
    fn description(&self) -> (text: String)
        ensures
            text@ == self.description_text(),
    ;

    /// The category of the error, one word.
    fn error_type(&self) -> (text: String)
        ensures
            text@ == self.error_type_text(),
    ;
}

/// An error, wrapped to be reported as one line.
pub struct BfErrorable<T: BfError>(pub T);

/// The character that starts a terminal control sequence.
pub open spec fn escape() -> char {
    '\u{1b}'
}

/// The control sequence that switches the foreground colour `code` on.
pub open spec fn colour_on(code: Seq<char>) -> Seq<char> {
    seq![escape(), '['] + code + seq!['m']
}

/// The control sequence that switches all colours off.
pub open spec fn colour_off() -> Seq<char> {
    seq![escape(), '[', '0', 'm']
}

/// The foreground colour code of bright red.
pub open spec fn bright_red_code() -> Seq<char> {
    seq!['9', '1']
}

/// The foreground colour code of bright white.
pub open spec fn bright_white_code() -> Seq<char> {
    seq!['9', '7']
}

/// `text` holds the control sequence that switches all colours off.
pub open spec fn holds_colour_off(text: Seq<char>) -> bool {
    exists|i: int| 0 <= i && i + 4 <= text.len() && #[trigger] text.subrange(i, i + 4) == colour_off()
}

/// `shown` is `inner` in the colour `code`: between the sequence that
/// switches the colour on and the one that switches all colours off, or, if
/// colours are switched off while the text is being shown, with only the
/// second of them behind it.
pub open spec fn wrapped(inner: Seq<char>, code: Seq<char>, shown: Seq<char>) -> bool {
    shown == colour_on(code) + inner + colour_off() || shown == inner + colour_off()
}

/// `shown` is a way to show `plain` in the colour `code`: as it is, which is
/// what a terminal without colours gets, or in the colour. A text that holds
/// the sequence that switches all colours off is changed inside before it is
/// put in the colour; of what it then looks like inside, nothing is said.
pub open spec fn painted(plain: Seq<char>, code: Seq<char>, shown: Seq<char>) -> bool {
    ||| shown == plain
    ||| exists|inner: Seq<char>|
        #[trigger] wrapped(inner, code, shown) && (!holds_colour_off(plain) ==> inner == plain)
}

/// A text in which no `[` stands before a `0` does not hold the sequence
/// that switches all colours off.
pub proof fn lemma_holds_no_colour_off(text: Seq<char>)
    requires
        forall|i: int|
            0 <= i && i + 1 < text.len() && #[trigger] text[i] == '[' ==> text[i + 1] != '0',
    ensures
        !holds_colour_off(text),
{
    assert forall|i: int| 0 <= i && i + 4 <= text.len() implies #[trigger] text.subrange(i, i + 4)
        != colour_off() by {
        let part = text.subrange(i, i + 4);
        assert(part[1] == text[i + 1]);
        assert(part[2] == text[i + 2]);
        assert(colour_off()[1] == '[');
        assert(colour_off()[2] == '0');
    }
}

/// The report line made of a category, a label and a description, with one
/// space between them.
pub open spec fn report(kind: Seq<char>, label: Seq<char>, detail: Seq<char>) -> Seq<char> {
    kind + seq![' '] + label + seq![' '] + detail
}

/// `Colorize::bright_red` of colored on a `&str`, shown through the `Display`
/// of its `ColoredString`. Whether colours are in use depends on the
/// environment and on colored's global switch, which `Display` reads more
/// than once, so the contract allows each outcome: the text unchanged; the
/// text between `ESC [ 9 1 m` and `ESC [ 0 m`; or, where the switch goes off
/// in between, the text before `ESC [ 0 m` alone. Where the text holds
/// `ESC [ 0 m` itself, colored writes the colour's sequence behind each of
/// them, and the contract leaves open what stands between the two ends.
#[verifier::external_body]
fn bright_red(text: &str) -> (shown: String)
    ensures
        painted(text@, bright_red_code(), shown@),
{
    text.bright_red().to_string()
}

/// `Colorize::bright_white` of colored on a `&str`, shown through the
/// `Display` of its `ColoredString`: as `bright_red`, with `ESC [ 9 7 m` as
/// the sequence that switches the colour on.
#[verifier::external_body]
fn bright_white(text: &str) -> (shown: String)
    ensures
        painted(text@, bright_white_code(), shown@),
{
    text.bright_white().to_string()
}

/// Joins the three parts of a report line with single spaces.
pub fn report_line(kind: &str, label: &str, detail: &str) -> (line: String)
    ensures
        line@ == report(kind@, label@, detail@),
{
    let mut line = kind.to_owned();
    line.push(' ');
    line.append(label);
    line.push(' ');
    line.append(detail);
    proof {
        assert(line@ =~= report(kind@, label@, detail@));
    }
    line
}

impl<T: BfError> BfErrorable<T> {
    /// The line that reports the error: its category and the label `error:`
    /// in bright red, then its description in bright white, with one space
    /// between them. On a terminal without colours each part is plain.
    pub fn to_string(&self) -> (line: String)
        ensures
            exists|kind: Seq<char>, label: Seq<char>, detail: Seq<char>|
                {
                    &&& line@ == #[trigger] report(kind, label, detail)
                    &&& painted(self.0.error_type_text(), bright_red_code(), kind)
                    &&& label == "error:"@ || wrapped("error:"@, bright_red_code(), label)
                    &&& painted(self.0.description_text(), bright_white_code(), detail)
                },
    {
        let kind = bright_red(self.0.error_type().as_str());
        let label = bright_red("error:");
        let detail = bright_white(self.0.description().as_str());
        let line = report_line(kind.as_str(), label.as_str(), detail.as_str());
        proof {
            reveal_strlit("error:");
            lemma_holds_no_colour_off("error:"@);
            assert(line@ == report(kind@, label@, detail@));
        }
        line
    }
}

} // verus!
