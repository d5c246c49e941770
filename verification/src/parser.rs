//! The command parser: a state machine that turns bytes into [`Action`]s.
//!
//! The parser buffers nothing. A number or a string is handed on byte by
//! byte, as [`Action::NumberChar`] or [`Action::StringChar`], and closed by
//! [`Action::PushNumber`] or [`Action::PushString`]. A byte that ends a
//! number, and can itself begin a command, is given back to the caller, who
//! issues it again on the next step.

use vstd::prelude::*;
use crate::Flavor;

verus! {

/// The six comparisons of a conditional.
#[derive(Debug, Clone, Copy, PartialEq, Eq, Structural)]
pub enum Comparison {
    /// `>`
    Gt,
    /// `!>`
    Le,
    /// `<`
    Lt,
    /// `!<`
    Ge,
    /// `=`
    Eq,
    /// `!=`
    Ne,
}

/// A command that names a register with the byte that follows it.
#[derive(Debug, Clone, Copy, PartialEq, Eq, Structural)]
pub enum RegisterAction {
    /// `s`
    Store,
    /// `l`
    Load,
    /// `S`
    PushRegStack,
    /// `L`
    PopRegStack,
    /// `<`, `>`, `=` and their negations with `!`
    Comparison(Comparison),
    /// `:`
    StoreRegArray,
    /// `;`
    LoadRegArray,
}

/// What went wrong with the input.
#[derive(Debug, Clone, Copy, PartialEq, Eq, Structural)]
pub enum InputFault {
    /// The input ended in the middle of a command.
    UnexpectedEof,
}

/// One step of a program, as the parser hands it to the evaluator.
#[derive(Debug, Clone, Copy, PartialEq, Eq, Structural)]
pub enum Action {
    /// One byte of a number: `_`, a digit `0`-`9` or `A`-`F`, or `.`.
    NumberChar(u8),
    /// One byte of a string.
    StringChar(u8),
    /// The number is complete.
    PushNumber,
    /// The string is complete.
    PushString,
    /// A command on the register named by the byte.
    Register(RegisterAction, u8),
    /// `p`
    Print,
    /// `n`
    PrintNoNewlinePop,
    /// `P`
    PrintBytesPop,
    /// `f`
    PrintStack,
    /// `+`
    Add,
    /// `-`
    Sub,
    /// `*`
    Mul,
    /// `/`
    Div,
    /// `%`
    Rem,
    /// `~`
    DivRem,
    /// `^`
    Exp,
    /// `|`
    ModExp,
    /// `v`
    Sqrt,
    /// `c`
    ClearStack,
    /// `d`
    Dup,
    /// `r`
    Swap,
    /// `i`
    SetInputRadix,
    /// `o`
    SetOutputRadix,
    /// `k`
    SetPrecision,
    /// `I`
    LoadInputRadix,
    /// `O`
    LoadOutputRadix,
    /// `K`
    LoadPrecision,
    /// `a`
    Asciify,
    /// `x`
    ExecuteMacro,
    /// `?`
    Input,
    /// `q`
    Quit,
    /// `Q`
    QuitLevels,
    /// `Z`
    NumDigits,
    /// `X`
    NumFrxDigits,
    /// `z`
    StackDepth,
    /// `!` and the rest of its line. The command is never run, and its text
    /// is not kept.
    ShellExec,
    /// `@`
    Version,
    /// A comparison followed by a register, `e` and another register: the
    /// second register is run where the comparison fails.
    IfElse(Comparison, u8, u8),
    /// `G`
    CompareEq,
    /// `N`
    CompareZero,
    /// `(`
    CompareLt,
    /// `{`
    CompareLe,
    /// `)`
    CompareGt,
    /// `}`
    CompareGe,
    /// The end of the input was reached.
    Eof,
    /// A byte that is no command.
    Unimplemented(u8),
    /// The input could not be read or parsed.
    InputError(InputFault),
}

/// Where the parser stands between two bytes.
#[derive(Debug, Clone, Copy, PartialEq, Eq, Structural)]
pub enum ParseState {
    /// Between commands.
    Start,
    /// In a comment, which runs to the end of the line.
    Comment,
    /// In a number; `decimal` says whether its point has been seen.
    Number { decimal: bool },
    /// In a string, `level` brackets deep below the outermost pair; `bs`
    /// says whether the last byte was an unescaped backslash.
    String { level: usize, bs: bool },
    /// In the line of a shell command.
    ShellExec,
    /// After `!`, which begins a negated comparison or a shell command.
    Bang,
    /// After a command that names a register, before the register's byte.
    Register(RegisterAction),
    /// After a comparison and its register; the flag says whether the `e`
    /// that introduces the second register has been seen.
    TwoRegister(Comparison, u8, bool),
}

/// What one step of the parser does.
pub struct Step {
    /// The state after the step.
    pub state: ParseState,
    /// The action that the step emits, if any.
    pub action: Option<Action>,
    /// Whether the byte was used up. Where it was not, the caller issues it
    /// again.
    pub consumed: bool,
}

/// Whether a byte is a digit of a number: `0`-`9` or `A`-`F`.
pub open spec fn is_digit(c: u8) -> bool {
    48 <= c <= 57 || 65 <= c <= 70
}

/// Whether a byte can stand in a number: a digit, `_` or `.`.
pub open spec fn is_number_char(c: u8) -> bool {
    is_digit(c) || c == 95 || c == 46
}

/// Whether a byte is white space between commands.
pub open spec fn is_space(c: u8) -> bool {
    c == 32 || c == 9 || c == 13 || c == 10
}

/// The action of a command that is a single byte.
pub open spec fn simple_command(c: u8, flavor: Flavor) -> Option<Action> {
    match c {
        112 => Some(Action::Print),  // p
        110 => Some(Action::PrintNoNewlinePop),  // n
        80 => Some(Action::PrintBytesPop),  // P
        102 => Some(Action::PrintStack),  // f
        43 => Some(Action::Add),  // +
        45 => Some(Action::Sub),  // -
        42 => Some(Action::Mul),  // *
        47 => Some(Action::Div),  // /
        37 => Some(Action::Rem),  // %
        126 => Some(Action::DivRem),  // ~
        94 => Some(Action::Exp),  // ^
        124 => Some(Action::ModExp),  // |
        118 => Some(Action::Sqrt),  // v
        99 => Some(Action::ClearStack),  // c
        100 => Some(Action::Dup),  // d
        114 => Some(Action::Swap),  // r
        105 => Some(Action::SetInputRadix),  // i
        111 => Some(Action::SetOutputRadix),  // o
        107 => Some(Action::SetPrecision),  // k
        73 => Some(Action::LoadInputRadix),  // I
        79 => Some(Action::LoadOutputRadix),  // O
        75 => Some(Action::LoadPrecision),  // K
        97 => Some(Action::Asciify),  // a
        120 => Some(Action::ExecuteMacro),  // x
        63 => Some(Action::Input),  // ?
        113 => Some(Action::Quit),  // q
        81 => Some(Action::QuitLevels),  // Q
        90 => Some(Action::NumDigits),  // Z
        88 => Some(Action::NumFrxDigits),  // X
        122 => Some(Action::StackDepth),  // z
        64 => Some(Action::Version),  // @
        71 => if flavor.has_bsd() {  // G
            Some(Action::CompareEq)
        } else {
            None
        },
        78 => if flavor.has_bsd() {  // N
            Some(Action::CompareZero)
        } else {
            None
        },
        40 => if flavor.has_bsd() {  // (
            Some(Action::CompareLt)
        } else {
            None
        },
        123 => if flavor.has_bsd() {  // {
            Some(Action::CompareLe)
        } else {
            None
        },
        41 => if flavor.has_gavin() {  // )
            Some(Action::CompareGt)
        } else {
            None
        },
        125 => if flavor.has_gavin() {  // }
            Some(Action::CompareGe)
        } else {
            None
        },
        _ => None,
    }
}

/// The state that a byte leads to where it begins a longer command and
/// emits nothing by itself.
pub open spec fn command_prefix(c: u8) -> Option<ParseState> {
    match c {
        115 => Some(ParseState::Register(RegisterAction::Store)),  // s
        108 => Some(ParseState::Register(RegisterAction::Load)),  // l
        83 => Some(ParseState::Register(RegisterAction::PushRegStack)),  // S
        76 => Some(ParseState::Register(RegisterAction::PopRegStack)),  // L
        58 => Some(ParseState::Register(RegisterAction::StoreRegArray)),  // :
        59 => Some(ParseState::Register(RegisterAction::LoadRegArray)),  // ;
        62 => Some(ParseState::Register(RegisterAction::Comparison(Comparison::Gt))),  // >
        60 => Some(ParseState::Register(RegisterAction::Comparison(Comparison::Lt))),  // <
        61 => Some(ParseState::Register(RegisterAction::Comparison(Comparison::Eq))),  // =
        91 => Some(ParseState::String { level: 0, bs: false }),  // [
        33 => Some(ParseState::Bang),  // !
        35 => Some(ParseState::Comment),  // #
        _ => None,
    }
}

/// A step that uses up its byte.
pub open spec fn takes(state: ParseState, action: Option<Action>) -> Step {
    Step { state, action, consumed: true }
}

/// A step that ends what was being read and gives its byte back.
pub open spec fn gives_back(action: Action) -> Step {
    Step { state: ParseState::Start, action: Some(action), consumed: false }
}

impl ParseState {
    /// How deep in nested brackets the parser stands; zero outside strings.
    pub open spec fn nesting(self) -> nat {
        match self {
            ParseState::String { level, bs } => level as nat,
            _ => 0,
        }
    }

    /// What the parser emits when the input ends in this state. The state
    /// after it is [`ParseState::Start`].
    pub open spec fn at_end(self) -> Action {
        match self {
            ParseState::Start | ParseState::Comment | ParseState::Bang => Action::Eof,
            ParseState::Number { decimal } => Action::PushNumber,
            ParseState::String { level, bs } => Action::PushString,
            ParseState::ShellExec => Action::ShellExec,
            ParseState::Register(action) => Action::InputError(InputFault::UnexpectedEof),
            ParseState::TwoRegister(kind, first, seen_e) => if seen_e {
                Action::InputError(InputFault::UnexpectedEof)
            } else {
                Action::Register(RegisterAction::Comparison(kind), first)
            },
        }
    }

    /// What the parser does with one byte in this state.
    #[verifier::opaque]
    pub open spec fn on_byte(self, c: u8, flavor: Flavor) -> Step {
        match self {
            ParseState::Start => if is_space(c) {
                takes(self, None)
            } else if is_number_char(c) {
                takes(ParseState::Number { decimal: c == 46 }, Some(Action::NumberChar(c)))
            } else if simple_command(c, flavor) is Some {
                takes(self, simple_command(c, flavor))
            } else if command_prefix(c) is Some {
                takes(command_prefix(c).unwrap(), None)
            } else {
                takes(self, Some(Action::Unimplemented(c)))
            },
            ParseState::Comment => if c == 10 {
                takes(ParseState::Start, None)
            } else {
                takes(self, None)
            },
            ParseState::Number { decimal } => if is_digit(c) {
                takes(self, Some(Action::NumberChar(c)))
            } else if c == 46 && !decimal {
                takes(ParseState::Number { decimal: true }, Some(Action::NumberChar(c)))
            } else {
                gives_back(Action::PushNumber)
            },
            ParseState::String { level, bs } => if bs {
                takes(ParseState::String { level, bs: false }, Some(Action::StringChar(c)))
            } else if c == 92 {
                takes(ParseState::String { level, bs: true }, None)
            } else if c == 91 {
                takes(
                    ParseState::String { level: (level + 1) as usize, bs: false },
                    Some(Action::StringChar(c)),
                )
            } else if c == 93 && level > 0 {
                takes(
                    ParseState::String { level: (level - 1) as usize, bs: false },
                    Some(Action::StringChar(c)),
                )
            } else if c == 93 {
                takes(ParseState::Start, Some(Action::PushString))
            } else {
                takes(self, Some(Action::StringChar(c)))
            },
            ParseState::ShellExec => if c == 10 {
                takes(ParseState::Start, Some(Action::ShellExec))
            } else {
                takes(self, None)
            },
            ParseState::Bang => if c == 62 {
                takes(ParseState::Register(RegisterAction::Comparison(Comparison::Le)), None)
            } else if c == 60 {
                takes(ParseState::Register(RegisterAction::Comparison(Comparison::Ge)), None)
            } else if c == 61 {
                takes(ParseState::Register(RegisterAction::Comparison(Comparison::Ne)), None)
            } else {
                takes(ParseState::ShellExec, None)
            },
            ParseState::Register(action) => match action {
                RegisterAction::Comparison(kind) => if flavor.has_bsd() {
                    takes(ParseState::TwoRegister(kind, c, false), None)
                } else {
                    takes(ParseState::Start, Some(Action::Register(action, c)))
                },
                _ => takes(ParseState::Start, Some(Action::Register(action, c))),
            },
            ParseState::TwoRegister(kind, first, seen_e) => if seen_e {
                takes(ParseState::Start, Some(Action::IfElse(kind, first, c)))
            } else if c == 101 {
                takes(ParseState::TwoRegister(kind, first, true), None)
            } else {
                gives_back(Action::Register(RegisterAction::Comparison(kind), first))
            },
        }
    }

    /// What the parser does in this state with the next byte of the input,
    /// or with its end.
    pub open spec fn step(self, input: Option<u8>, flavor: Flavor) -> Step {
        match input {
            Some(c) => self.on_byte(c, flavor),
            None => takes(ParseState::Start, Some(self.at_end())),
        }
    }
}

/// A byte that the parser gives back is used up when it is issued again:
/// the step that gives it back leaves the parser between commands, where
/// every byte is used up.
pub proof fn lemma_given_back_is_taken(state: ParseState, c: u8, flavor: Flavor)
    requires
        !state.on_byte(c, flavor).consumed,
    ensures
        state.on_byte(c, flavor).state == ParseState::Start,
        state.on_byte(c, flavor).action is Some,
        ParseState::Start.on_byte(c, flavor).consumed,
{
    reveal(ParseState::on_byte);
}

/// At the end of the input the parser says so only once it has nothing left
/// to close: whatever it was reading is closed by the first step, and the
/// step after that reports the end.
pub proof fn lemma_end_is_reported(state: ParseState, flavor: Flavor)
    ensures
        state.step(None, flavor).state == ParseState::Start,
        state.step(None, flavor).action is Some,
        ParseState::Start.step(None, flavor).action == Some(Action::Eof),
{
}

/// The bytes that the parser hands on as parts of a number are bytes that
/// can stand in a number.
pub proof fn lemma_number_chars_are_valid(state: ParseState, input: Option<u8>, flavor: Flavor)
    ensures
        match state.step(input, flavor).action {
            Some(Action::NumberChar(c)) => is_number_char(c),
            _ => true,
        },
{
    reveal(ParseState::on_byte);
}

/// A step takes the parser one bracket deeper at most, and only with a
/// byte that it uses up; at the end of the input it leaves every string.
pub proof fn lemma_nesting_grows_slowly(state: ParseState, input: Option<u8>, flavor: Flavor)
    ensures
        state.step(input, flavor).state.nesting() <= state.nesting() + (if input is Some
            && state.step(input, flavor).consumed {
            1nat
        } else {
            0nat
        }),
{
    reveal(ParseState::on_byte);
}

/// The parser of single-byte commands.
fn simple_action(c: u8, flavor: Flavor) -> (r: Option<Action>)
    ensures
        r == simple_command(c, flavor),
{
    let action = match c {
        112 => Action::Print,
        110 => Action::PrintNoNewlinePop,
        80 => Action::PrintBytesPop,
        102 => Action::PrintStack,
        43 => Action::Add,
        45 => Action::Sub,
        42 => Action::Mul,
        47 => Action::Div,
        37 => Action::Rem,
        126 => Action::DivRem,
        94 => Action::Exp,
        124 => Action::ModExp,
        118 => Action::Sqrt,
        99 => Action::ClearStack,
        100 => Action::Dup,
        114 => Action::Swap,
        105 => Action::SetInputRadix,
        111 => Action::SetOutputRadix,
        107 => Action::SetPrecision,
        73 => Action::LoadInputRadix,
        79 => Action::LoadOutputRadix,
        75 => Action::LoadPrecision,
        97 => Action::Asciify,
        120 => Action::ExecuteMacro,
        63 => Action::Input,
        113 => Action::Quit,
        81 => Action::QuitLevels,
        90 => Action::NumDigits,
        88 => Action::NumFrxDigits,
        122 => Action::StackDepth,
        64 => Action::Version,
        71 if flavor.bsd() => Action::CompareEq,
        78 if flavor.bsd() => Action::CompareZero,
        40 if flavor.bsd() => Action::CompareLt,
        123 if flavor.bsd() => Action::CompareLe,
        41 if flavor.gavin() => Action::CompareGt,
        125 if flavor.gavin() => Action::CompareGe,
        _ => {
            return None;
        },
    };
    Some(action)
}

impl ParseState {
    /// Given the current state and the next byte of the input, or `None` at
    /// its end, returns the new state and the action that the step emits, if
    /// any. A byte that was used up is taken out of `input`; one that is
    /// left there is to be issued again.
    pub fn next(self, input: &mut Option<u8>, flavor: Flavor) -> (r: (ParseState, Option<Action>))
        requires
            *old(input) is Some ==> self.nesting() < usize::MAX,
        ensures
            r.0 == self.step(*old(input), flavor).state,
            r.1 == self.step(*old(input), flavor).action,
            *final(input) == (if self.step(*old(input), flavor).consumed {
                None
            } else {
                *old(input)
            }),
    {
        reveal(ParseState::on_byte);
        let c = match *input {
            Some(c) => c,
            None => {
                let action = match self {
                    ParseState::Start | ParseState::Comment | ParseState::Bang => Action::Eof,
                    ParseState::Number { .. } => Action::PushNumber,
                    ParseState::String { .. } => Action::PushString,
                    ParseState::ShellExec => Action::ShellExec,
                    ParseState::Register(_) => Action::InputError(InputFault::UnexpectedEof),
                    ParseState::TwoRegister(kind, first, false) => Action::Register(
                        RegisterAction::Comparison(kind),
                        first,
                    ),
                    ParseState::TwoRegister(_, _, true) => Action::InputError(
                        InputFault::UnexpectedEof,
                    ),
                };
                return (ParseState::Start, Some(action));
            },
        };
        *input = None;
        match self {
            ParseState::Start => match c {
                32 | 9 | 13 | 10 => (self, None),
                95 | 48..=57 | 65..=70 | 46 => (
                    ParseState::Number { decimal: c == 46 },
                    Some(Action::NumberChar(c)),
                ),
                115 => (ParseState::Register(RegisterAction::Store), None),
                108 => (ParseState::Register(RegisterAction::Load), None),
                83 => (ParseState::Register(RegisterAction::PushRegStack), None),
                76 => (ParseState::Register(RegisterAction::PopRegStack), None),
                58 => (ParseState::Register(RegisterAction::StoreRegArray), None),
                59 => (ParseState::Register(RegisterAction::LoadRegArray), None),
                62 => (ParseState::Register(RegisterAction::Comparison(Comparison::Gt)), None),
                60 => (ParseState::Register(RegisterAction::Comparison(Comparison::Lt)), None),
                61 => (ParseState::Register(RegisterAction::Comparison(Comparison::Eq)), None),
                91 => (ParseState::String { level: 0, bs: false }, None),
                33 => (ParseState::Bang, None),
                35 => (ParseState::Comment, None),
                _ => match simple_action(c, flavor) {
                    Some(action) => (self, Some(action)),
                    None => (self, Some(Action::Unimplemented(c))),
                },
            },
            ParseState::Comment => match c {
                10 => (ParseState::Start, None),
                _ => (self, None),
            },
            ParseState::Number { decimal } => match c {
                48..=57 | 65..=70 => (self, Some(Action::NumberChar(c))),
                46 if !decimal => (ParseState::Number { decimal: true }, Some(Action::NumberChar(c))),
                _ => {
                    // The byte ends the number and may begin the next
                    // command: hand it back.
                    *input = Some(c);
                    (ParseState::Start, Some(Action::PushNumber))
                },
            },
            ParseState::String { level, bs } => match c {
                92 if !bs => (ParseState::String { level, bs: true }, None),
                91 if !bs => (
                    ParseState::String { level: level + 1, bs: false },
                    Some(Action::StringChar(c)),
                ),
                93 if !bs && level > 0 => (
                    ParseState::String { level: level - 1, bs: false },
                    Some(Action::StringChar(c)),
                ),
                93 if !bs && level == 0 => (ParseState::Start, Some(Action::PushString)),
                _ => (ParseState::String { level, bs: false }, Some(Action::StringChar(c))),
            },
            ParseState::ShellExec => match c {
                10 => (ParseState::Start, Some(Action::ShellExec)),
                _ => (ParseState::ShellExec, None),
            },
            ParseState::Bang => match c {
                62 => (ParseState::Register(RegisterAction::Comparison(Comparison::Le)), None),
                60 => (ParseState::Register(RegisterAction::Comparison(Comparison::Ge)), None),
                61 => (ParseState::Register(RegisterAction::Comparison(Comparison::Ne)), None),
                _ => (ParseState::ShellExec, None),
            },
            ParseState::Register(action) => match action {
                RegisterAction::Comparison(kind) if flavor.bsd() => (
                    ParseState::TwoRegister(kind, c, false),
                    None,
                ),
                _ => (ParseState::Start, Some(Action::Register(action, c))),
            },
            ParseState::TwoRegister(kind, first, false) => {
                if c == 101 {
                    (ParseState::TwoRegister(kind, first, true), None)
                } else {
                    *input = Some(c);
                    (ParseState::Start, Some(Action::Register(RegisterAction::Comparison(kind), first)))
                }
            },
            ParseState::TwoRegister(kind, first, true) => (
                ParseState::Start,
                Some(Action::IfElse(kind, first, c)),
            ),
        }
    }
}

/// The parser: its state and the dialect that it accepts.
#[derive(Debug, Clone, Copy)]
pub struct Parser {
    /// Where the parser stands.
    pub state: ParseState,
    /// The dialect whose commands are accepted.
    pub flavor: Flavor,
}

impl Default for Parser {
    /// A parser between commands that accepts the classical command set.
    fn default() -> (r: Self)
        ensures
            r.state == ParseState::Start,
            r.flavor == Flavor::Gnu,
    {
        Parser { state: ParseState::Start, flavor: Flavor::Gnu }
    }
}

impl Parser {
    /// A parser between commands that accepts the given dialect.
    pub fn new(flavor: Flavor) -> (r: Self)
        ensures
            r.state == ParseState::Start,
            r.flavor == flavor,
    {
        Parser { state: ParseState::Start, flavor }
    }

    /// Takes one step with the next byte of the input, or with `None` at
    /// its end. A byte that was used up is taken out of `input`; one that is
    /// left there is to be issued again on the next step.
    pub fn step(&mut self, input: &mut Option<u8>) -> (r: Option<Action>)
        requires
            *old(input) is Some ==> old(self).state.nesting() < usize::MAX,
        ensures
            final(self).flavor == old(self).flavor,
            final(self).state == old(self).state.step(*old(input), old(self).flavor).state,
            r == old(self).state.step(*old(input), old(self).flavor).action,
            *final(input) == (if old(self).state.step(*old(input), old(self).flavor).consumed {
                None
            } else {
                *old(input)
            }),
    {
        let (state, action) = self.state.next(input, self.flavor);
        self.state = state;
        action
    }
}

} // verus!
