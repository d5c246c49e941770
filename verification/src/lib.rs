//! An implementation of the Unix `dc` desk calculator: a stack-based,
//! arbitrary-precision, reverse-Polish calculator with macros, registers and
//! register arrays.
//!
//! The parts, from the leaves on:
//!
//! - [`integer`] and [`big_real`]: the numbers, integers of any size and
//!   decimal fractions of them;
//! - [`dcregisters`]: the registers, each a stack of slots with a value and
//!   an array;
//! - [`parser`] and [`reader_parser`]: the state machine that turns the
//!   bytes of a program into actions;
//! - [`state`]: the evaluator, which does the actions;
//! - [`runner`]: the runner of macros;
//! - [`Dc4`]: the calculator as its users see it.
//!
//! Every function of this crate is verified against its contract, with two
//! exceptions whose contracts are taken on trust. The arithmetic on
//! integers of any size is done by `num-bigint`, `num-integer` and
//! `num-traits`, through the functions of [`integer`] whose names begin with
//! `big_`; and the quoted byte of a message is written by the formatting of
//! the standard library, through `debug_char`.

use vstd::prelude::*;
use vstd::string::StringSliceAdditionalSpecFns;
use crate::big_real::BigReal;
use crate::big_real::Real;
use crate::bytes::char_utf8;
use crate::bytes::push_all;
use crate::bytes::push_char;
use crate::bytes::push_octal;
use crate::bytes::push_text;
use crate::integer::radix_digits;
use crate::parser::Action;
use crate::parser::InputFault;
use crate::parser::ParseState;
use crate::reader_parser::ReaderParser;
use crate::reader_parser::lemma_run_by_actions;
use crate::reader_parser::lemma_scan_bounds;
use crate::reader_parser::scan;
use crate::runner::Settled;
use crate::runner::lemma_step_keeps;
use crate::runner::rank;
use crate::runner::run_from;
use crate::runner::run_macro;
use crate::state::Dc4State;
use crate::state::Effect;
use crate::state::Machine;
use crate::state::entered;
use crate::state::has_effect;

pub mod big_real;
pub mod bytes;
pub mod dcregisters;
pub mod integer;
pub mod order;
pub mod parser;
pub mod reader_parser;
pub mod runner;
pub mod state;

verus! {

/// The dialect of `dc` whose commands the parser accepts.
#[derive(Debug, Clone, Copy, PartialEq, Eq, Structural)]
pub enum Flavor {
    /// GNU dc: the classical command set.
    Gnu,
    /// BSD dc: adds `G`, `N`, `(`, `{` and the else-branch of conditionals.
    Bsd,
    /// Gavin Howard's dc: the BSD commands and also `)` and `}`.
    Gavin,
}

impl Flavor {
    /// Whether the commands that BSD dc added are accepted.
    pub open spec fn has_bsd(self) -> bool {
        self != Flavor::Gnu
    }

    /// Whether the commands that only Gavin Howard's dc has are accepted.
    pub open spec fn has_gavin(self) -> bool {
        self == Flavor::Gavin
    }

    /// Whether the commands that BSD dc added are accepted.
    #[verifier::when_used_as_spec(has_bsd)]
    pub fn bsd(self) -> (r: bool)
        ensures
            r == self.has_bsd(),
    {
        match self {
            Flavor::Gnu => false,
            _ => true,
        }
    }

    /// Whether the commands that only Gavin Howard's dc has are accepted.
    #[verifier::when_used_as_spec(has_gavin)]
    pub fn gavin(self) -> (r: bool)
        ensures
            r == self.has_gavin(),
    {
        match self {
            Flavor::Gavin => true,
            _ => false,
        }
    }
}

/// The mathematical model of a [`DcValue`].
pub enum Value {
    /// A string of bytes.
    Str(Seq<u8>),
    /// A number.
    Num(Real),
}

/// A value on the stack or in a register: a string of raw bytes, which need
/// not be text, or a number.
#[derive(Debug)]
pub enum DcValue {
    /// A string of bytes.
    Str(Vec<u8>),
    /// A number.
    Num(BigReal),
}

impl View for DcValue {
    type V = Value;

    open spec fn view(&self) -> Value {
        match self {
            DcValue::Str(s) => Value::Str(s@),
            DcValue::Num(n) => Value::Num(n@),
        }
    }
}

impl Clone for DcValue {
    fn clone(&self) -> (r: Self)
        ensures
            r@ == self@,
    {
        match self {
            DcValue::Str(s) => DcValue::Str(s.clone()),
            DcValue::Num(n) => DcValue::Num(n.clone()),
        }
    }
}

/// The mathematical model of a [`DcResult`].
pub enum Control {
    /// End the program; the number counts the macro levels still to leave.
    Terminate(u32),
    /// Leave this many macro levels.
    QuitLevels(u32),
    /// Go on with the next action.
    Continue,
    /// Run this text as a macro.
    Macro(Seq<u8>),
}

/// What the caller is to do after an action.
#[derive(Debug)]
pub enum DcResult {
    /// End the program; the number counts the macro levels still to leave.
    Terminate(u32),
    /// Leave this many macro levels.
    QuitLevels(u32),
    /// Go on with the next action.
    Continue,
    /// Run this text as a macro.
    Macro(Vec<u8>),
}

impl View for DcResult {
    type V = Control;

    open spec fn view(&self) -> Control {
        match self {
            DcResult::Terminate(n) => Control::Terminate(*n),
            DcResult::QuitLevels(n) => Control::QuitLevels(*n),
            DcResult::Continue => Control::Continue,
            DcResult::Macro(text) => Control::Macro(text@),
        }
    }
}

/// The errors that an action can report.
#[derive(Debug, Clone, Copy, PartialEq, Eq, Structural)]
pub enum DcError {
    /// The key of an array is no integer, or is negative.
    ArrayIndexInvalid,
    /// A division by zero.
    DivideByZero,
    /// The input could not be read or parsed.
    InputError(InputFault),
    /// The input radix is not a number from 2 to 16.
    InputRadixInvalid,
    /// The exponent of a modular power is negative.
    NegativeExponent,
    /// A string stands where a number is needed.
    NonNumericValue,
    /// The output radix is not a number from 2 to 16.
    OutputRadixInvalid,
    /// The count of levels to quit is not a number from 1 on.
    QuitInvalid,
    /// The count of levels to quit does not fit in 32 bits.
    QuitTooBig,
    /// The register has no value.
    RegisterEmpty(u8),
    /// A remainder by zero.
    RemainderByZero,
    /// The scale is not a number, or is negative.
    ScaleInvalid,
    /// The scale, or the number of fractional digits of a result, does not fit in 32
    /// bits.
    ScaleTooBig,
    /// A shell command, which is never run.
    ShellUnsupported,
    /// The square root of a negative number.
    SqrtNegative,
    /// The square root of a string.
    SqrtNonNumeric,
    /// The stack has fewer values than the command takes.
    StackEmpty,
    /// The register has no slot to pop, or the slot has no value.
    StackRegisterEmpty(u8),
    /// The byte cannot stand in a number.
    UnexpectedNumberChar(u8),
    /// The byte is no command.
    Unimplemented(u8),
}

/// The text that the `Debug` formatting of `char` writes for the character
/// whose code point is the byte: the character between single quotes,
/// escaped where it is not printable.
pub uninterp spec fn char_debug(c: u8) -> Seq<u8>;

/// Formats the character whose code point is the byte with `{:?}`.
#[verifier::external_body]
fn debug_char(c: u8) -> (r: Vec<u8>)
    ensures
        r@ == char_debug(c),
{
    format!("{:?}", c as char).into_bytes()
}

impl InputFault {
    /// The words for the fault.
    pub open spec fn text(self) -> Seq<u8> {
        match self {
            InputFault::UnexpectedEof => "unexpected end of input".spec_bytes(),
        }
    }
}

impl DcError {
    /// The byte that the message shows in quotes, for the errors that are
    /// about a byte that is no command or no part of a number.
    pub open spec fn quoted_byte(self) -> Option<u8> {
        match self {
            DcError::UnexpectedNumberChar(c) => Some(c),
            DcError::Unimplemented(c) => Some(c),
            _ => None,
        }
    }

    /// The message of the error, where `quoted` is the text that shows the
    /// byte of [`DcError::quoted_byte`].
    pub open spec fn text_with(self, quoted: Seq<u8>) -> Seq<u8> {
        match self {
            DcError::ArrayIndexInvalid => "array index must be a nonnegative integer".spec_bytes(),
            DcError::DivideByZero => "divide by zero".spec_bytes(),
            DcError::InputError(fault) => "error reading input: ".spec_bytes() + fault.text(),
            DcError::InputRadixInvalid =>
                "input base must be a number between 2 and 16 (inclusive)".spec_bytes(),
            DcError::NegativeExponent => "negative exponent".spec_bytes(),
            DcError::NonNumericValue => "non-numeric value".spec_bytes(),
            DcError::OutputRadixInvalid =>
                "output base must be a number between 2 and 16 (inclusive)".spec_bytes(),
            DcError::QuitInvalid => "Q command requires a number >= 1".spec_bytes(),
            DcError::QuitTooBig =>
                "quit levels out of range (must fit into 32 bits)".spec_bytes(),
            DcError::RegisterEmpty(r) => "register '".spec_bytes() + char_utf8(r)
                + "' (0".spec_bytes() + radix_digits(r as nat, 8) + ") is empty".spec_bytes(),
            DcError::RemainderByZero => "remainder by zero".spec_bytes(),
            DcError::ScaleInvalid => "scale must be a nonnegative integer".spec_bytes(),
            DcError::ScaleTooBig => "scale must fit into 32 bits".spec_bytes(),
            DcError::ShellUnsupported => "running shell commands is not supported".spec_bytes(),
            DcError::SqrtNegative => "square root of negative number".spec_bytes(),
            DcError::SqrtNonNumeric => "square root of nonnumeric attempted".spec_bytes(),
            DcError::StackEmpty => "stack empty".spec_bytes(),
            DcError::StackRegisterEmpty(r) => "stack register '".spec_bytes() + char_utf8(r)
                + "' (0".spec_bytes() + radix_digits(r as nat, 8) + ") is empty".spec_bytes(),
            DcError::UnexpectedNumberChar(c) => "unexpected character in number: ".spec_bytes()
                + quoted,
            DcError::Unimplemented(c) => quoted + " (0".spec_bytes() + radix_digits(c as nat, 8)
                + ") unimplemented".spec_bytes(),
        }
    }

    /// The message of the error.
    pub open spec fn text(self) -> Seq<u8> {
        self.text_with(
            match self.quoted_byte() {
                Some(c) => char_debug(c),
                None => Seq::empty(),
            },
        )
    }

    /// The message of the error, where `quoted` is the text that shows the
    /// byte that the error is about, if it is about one.
    pub fn message_with(&self, quoted: &Vec<u8>) -> (r: Vec<u8>)
        ensures
            r@ == self.text_with(quoted@),
    {
        let mut out: Vec<u8> = Vec::new();
        match self {
            DcError::ArrayIndexInvalid => push_text(
                &mut out,
                "array index must be a nonnegative integer",
            ),
            DcError::DivideByZero => push_text(&mut out, "divide by zero"),
            DcError::InputError(fault) => {
                push_text(&mut out, "error reading input: ");
                match fault {
                    InputFault::UnexpectedEof => push_text(&mut out, "unexpected end of input"),
                }
            },
            DcError::InputRadixInvalid => push_text(
                &mut out,
                "input base must be a number between 2 and 16 (inclusive)",
            ),
            DcError::NegativeExponent => push_text(&mut out, "negative exponent"),
            DcError::NonNumericValue => push_text(&mut out, "non-numeric value"),
            DcError::OutputRadixInvalid => push_text(
                &mut out,
                "output base must be a number between 2 and 16 (inclusive)",
            ),
            DcError::QuitInvalid => push_text(&mut out, "Q command requires a number >= 1"),
            DcError::QuitTooBig => push_text(
                &mut out,
                "quit levels out of range (must fit into 32 bits)",
            ),
            DcError::RegisterEmpty(r) => {
                push_text(&mut out, "register '");
                push_char(&mut out, *r);
                push_text(&mut out, "' (0");
                push_octal(&mut out, *r);
                push_text(&mut out, ") is empty");
            },
            DcError::RemainderByZero => push_text(&mut out, "remainder by zero"),
            DcError::ScaleInvalid => push_text(&mut out, "scale must be a nonnegative integer"),
            DcError::ScaleTooBig => push_text(&mut out, "scale must fit into 32 bits"),
            DcError::ShellUnsupported => push_text(
                &mut out,
                "running shell commands is not supported",
            ),
            DcError::SqrtNegative => push_text(&mut out, "square root of negative number"),
            DcError::SqrtNonNumeric => push_text(&mut out, "square root of nonnumeric attempted"),
            DcError::StackEmpty => push_text(&mut out, "stack empty"),
            DcError::StackRegisterEmpty(r) => {
                push_text(&mut out, "stack register '");
                push_char(&mut out, *r);
                push_text(&mut out, "' (0");
                push_octal(&mut out, *r);
                push_text(&mut out, ") is empty");
            },
            DcError::UnexpectedNumberChar(_) => {
                push_text(&mut out, "unexpected character in number: ");
                push_all(&mut out, quoted);
            },
            DcError::Unimplemented(c) => {
                push_all(&mut out, quoted);
                push_text(&mut out, " (0");
                push_octal(&mut out, *c);
                push_text(&mut out, ") unimplemented");
            },
        }
        assert(out@ =~= self.text_with(quoted@));
        out
    }

    /// The message of the error.
    pub fn message(&self) -> (r: Vec<u8>)
        ensures
            r@ == self.text(),
    {
        let quoted = match self {
            DcError::UnexpectedNumberChar(c) => debug_char(*c),
            DcError::Unimplemented(c) => debug_char(*c),
            _ => Vec::new(),
        };
        self.message_with(&quoted)
    }
}

/// What an action and, where it asks for one, the macro come to. The macro
/// is run as [`run_macro`] says and draws on the budget; without a budget
/// it is not run. An error is the result, and nothing is written of it.
pub open spec fn performed(m: Machine, action: Action) -> Effect {
    let effect = m.step(action);
    match effect.result {
        Ok(Control::Macro(body)) => if m.budget == 0 {
            Effect { machine: effect.machine, output: effect.output, result: Ok(Control::Continue) }
        } else {
            let run = run_macro(Machine { budget: (m.budget - 1) as nat, ..effect.machine }, body);
            Effect {
                machine: run.machine,
                output: effect.output + run.output,
                result: Ok(run.result),
            }
        },
        _ => effect,
    }
}

/// What a sequence of actions comes to, done one after the other. It ends
/// with the first error, which is the result, or with the quit of the
/// program; a quit of macro levels has no level to leave and is ignored.
pub open spec fn run_actions(m: Machine, actions: Seq<Action>) -> Effect
    decreases actions.len(),
{
    if actions.len() == 0 {
        m.done()
    } else {
        let first = performed(m, actions[0]);
        let goes_on = match first.result {
            Ok(Control::Continue) => true,
            Ok(Control::QuitLevels(n)) => true,
            _ => false,
        };
        if goes_on {
            let rest = run_actions(first.machine, actions.drop_first());
            Effect {
                machine: rest.machine,
                output: first.output + rest.output,
                result: rest.result,
            }
        } else {
            first
        }
    }
}

/// The desk calculator.
#[derive(Debug)]
pub struct Dc4 {
    /// The evaluator.
    pub state: Dc4State,
}

impl View for Dc4 {
    type V = Machine;

    open spec fn view(&self) -> Machine {
        self.state@
    }
}

impl Dc4 {
    /// Whether the evaluator is well formed.
    pub open spec fn wf(&self) -> bool {
        self.state.wf()
    }

    /// A new calculator, whose messages begin with the given name.
    pub fn new(program_name: String, flavor: Flavor) -> (r: Self)
        ensures
            r.wf(),
            r@ == Machine::new(vstd::utf8::encode_utf8(program_name@), flavor),
    {
        Dc4 { state: Dc4State::new(program_name, flavor) }
    }

    /// Runs a program that is given as a whole input. The messages of the
    /// errors are written to the output, and the program goes on after
    /// them. A quit of macro levels does not end the input; the quit of the
    /// program does.
    pub fn stream(&mut self, input: Vec<u8>, w: &mut Vec<u8>) -> (r: DcResult)
        requires
            old(self).wf(),
        ensures
            final(self).wf(),
            final(self)@ == run_from(old(self)@, input@, 0, ParseState::Start, true).machine,
            final(w)@ == old(w)@ + run_from(old(self)@, input@, 0, ParseState::Start, true).output,
            r@ == run_from(old(self)@, input@, 0, ParseState::Start, true).result,
    {
        let ghost total = run_from(old(self)@, input@, 0, ParseState::Start, true);
        let mut actions = ReaderParser::new(input);
        actions.set_flavor(self.state.flavor);
        proof {
            assert(w@ + total.output =~= old(w)@ + total.output);
        }
        loop
            invariant
                self.wf(),
                actions.wf(),
                actions.input@ == input@,
                total == run_from(old(self)@, input@, 0, ParseState::Start, true),
                actions.parser.flavor == self.state.flavor,
                self.state.budget <= old(self).state.budget,
                total.machine == run_from(
                    self@,
                    input@,
                    actions.pos(),
                    actions.parser.state,
                    true,
                ).machine,
                old(w)@ + total.output == w@ + run_from(
                    self@,
                    input@,
                    actions.pos(),
                    actions.parser.state,
                    true,
                ).output,
                total.result == run_from(
                    self@,
                    input@,
                    actions.pos(),
                    actions.parser.state,
                    true,
                ).result,
            decreases rank(input@.len(), actions.pos(), actions.parser.state),
        {
            let ghost w0 = w@;
            proof {
                lemma_run_by_actions(self@, input@, actions.pos(), actions.parser.state, true);
                lemma_scan_bounds(
                    actions.parser.state,
                    input@,
                    actions.pos(),
                    actions.parser.flavor,
                );
            }
            let action = match actions.next() {
                Some(action) => action,
                None => {
                    proof {
                        assert(w@ + Seq::<u8>::empty() =~= w@);
                        assert(old(w)@ + total.output =~= w@);
                    }
                    return DcResult::Continue;
                },
            };
            let ghost after = runner::settled(self@, action);
            match self.state.settle(action, false, w) {
                Settled::Done(DcResult::Continue) | Settled::Done(DcResult::QuitLevels(_)) => {
                    proof {
                        let rest = run_from(
                            self@,
                            input@,
                            actions.pos(),
                            actions.parser.state,
                            true,
                        );
                        assert(w0 + (after.output + rest.output) =~= w@ + rest.output);
                    }
                },
                Settled::Done(other) => {
                    proof {
                        assert(old(w)@ + total.output =~= w@);
                    }
                    return other;
                },
                Settled::Tail(_) => {
                    return DcResult::Continue;
                },
            }
        }
    }

    /// Runs the text as if it was a macro. The messages of the errors are
    /// written to the output, and the program goes on after them.
    pub fn text(&mut self, text: Vec<u8>, w: &mut Vec<u8>) -> (r: DcResult)
        requires
            old(self).wf(),
        ensures
            final(self).wf(),
            final(self)@ == run_macro(old(self)@, text@).machine,
            final(w)@ == old(w)@ + run_macro(old(self)@, text@).output,
            r@ == run_macro(old(self)@, text@).result,
    {
        self.state.run_macro(text, w)
    }

    /// Does the actions one after the other, and ends with the first
    /// error, which is returned and not written.
    pub fn actions(&mut self, actions: &Vec<Action>, w: &mut Vec<u8>) -> (r: Result<
        DcResult,
        DcError,
    >)
        requires
            old(self).wf(),
        ensures
            final(self).wf(),
            has_effect(final(self).state, old(w)@, final(w)@, r, run_actions(old(self)@, actions@)),
    {
        let ghost total = run_actions(old(self)@, actions@);
        let mut i: usize = 0;
        proof {
            assert(actions@.skip(0) =~= actions@);
            assert(w@ + total.output =~= old(w)@ + total.output);
        }
        while i < actions.len()
            invariant
                self.wf(),
                i <= actions.len(),
                total == run_actions(old(self)@, actions@),
                total.machine == run_actions(self@, actions@.skip(i as int)).machine,
                old(w)@ + total.output == w@ + run_actions(self@, actions@.skip(i as int)).output,
                total.result == run_actions(self@, actions@.skip(i as int)).result,
            decreases actions.len() - i,
        {
            let ghost m = self@;
            let ghost w0 = w@;
            let ghost first = performed(m, actions[i as int]);
            proof {
                assert(actions@.skip(i as int)[0] == actions[i as int]);
                assert(actions@.skip(i as int).drop_first() =~= actions@.skip(i + 1));
                lemma_step_keeps(m, actions[i as int]);
            }
            let mut result = self.state.action(actions[i], w);
            if let Ok(DcResult::Macro(body)) = result {
                if self.state.budget == 0 {
                    result = Ok(DcResult::Continue);
                } else {
                    self.state.budget = self.state.budget - 1;
                    let ghost w1 = w@;
                    let inner = self.state.run_macro(body, w);
                    proof {
                        assert(w@ =~= w0 + first.output);
                    }
                    result = Ok(inner);
                }
            }
            i += 1;
            match result {
                Ok(DcResult::Continue) | Ok(DcResult::QuitLevels(_)) => {
                    proof {
                        let rest = run_actions(self@, actions@.skip(i as int));
                        assert(w0 + (first.output + rest.output) =~= w@ + rest.output);
                    }
                },
                other => {
                    proof {
                        assert(old(w)@ + total.output =~= w@);
                    }
                    return other;
                },
            }
        }
        proof {
            assert(w@ + Seq::<u8>::empty() =~= w@);
            assert(old(w)@ + total.output =~= w@);
        }
        Ok(DcResult::Continue)
    }

    /// Puts the number that the text stands for on the stack. If a byte of
    /// the text cannot stand in a number, that is the error, and the stack
    /// stays as it was.
    pub fn push_number(&mut self, input: &Vec<u8>) -> (r: Result<(), DcError>)
        requires
            old(self).wf(),
        ensures
            final(self).wf(),
            match r {
                Ok(()) => {
                    &&& entered(input@, old(self)@.iradix) is Ok
                    &&& final(self)@ == old(self)@.pushed(
                        Value::Num(entered(input@, old(self)@.iradix)->Ok_0),
                    )
                },
                Err(e) => {
                    &&& entered(input@, old(self)@.iradix) == Err::<Real, DcError>(e)
                    &&& final(self)@ == old(self)@
                },
            },
    {
        self.state.push_number(input)
    }

    /// Puts a string on the stack.
    pub fn push_string(&mut self, string: Vec<u8>)
        requires
            old(self).wf(),
        ensures
            final(self).wf(),
            final(self)@ == old(self)@.pushed(Value::Str(string@)),
    {
        self.state.push_string(string)
    }

    /// Performs one action. What it prints, and the warnings, are appended
    /// to the output. An error is returned and not written.
    pub fn action(&mut self, action: Action, w: &mut Vec<u8>) -> (r: Result<DcResult, DcError>)
        requires
            old(self).wf(),
        ensures
            final(self).wf(),
            has_effect(final(self).state, old(w)@, final(w)@, r, old(self)@.step(action)),
    {
        self.state.action(action, w)
    }
}

} // verus!
