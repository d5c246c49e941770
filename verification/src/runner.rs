//! The macro runner: how a text is run as a program.
//!
//! [`run_from`] says what running a text means. It knows nothing of tail
//! calls: a macro that is invoked is run as a level of its own, whereever
//! in the text the invocation stands. [`Dc4State::run_macro`] computes the
//! same, and runs a macro that is invoked at the very end of a text in
//! place of that text, so that a macro that ends by invoking itself loops
//! without a level more for each round.
//!
//! A program need not end. The evaluator therefore has a budget of macro
//! invocations, which each invocation draws on; once it is used up, an
//! invocation does nothing.

use vstd::prelude::*;
use crate::Control;
use crate::DcResult;
use crate::parser::Action;
use crate::parser::ParseState;
use crate::parser::Parser;
use crate::state::Dc4State;
use crate::state::Machine;
use crate::state::has_effect;
use crate::Value;
use crate::dcregisters::stack_value;
use crate::parser::RegisterAction;
use crate::parser::takes;

verus! {

/// What running a text comes to.
pub struct Run {
    /// The state after the run.
    pub machine: Machine,
    /// What the run has written.
    pub output: Seq<u8>,
    /// With what the run ends: [`Control::Continue`], or a quit that goes
    /// on to the levels further out.
    pub result: Control,
}

/// A quit as it is seen `k` levels further out: each level takes one off
/// its count, and the quit ends at the level where nothing is left.
pub open spec fn lower_by(c: Control, k: nat) -> Control {
    match c {
        Control::QuitLevels(n) => if n > k {
            Control::QuitLevels((n - k) as u32)
        } else {
            Control::Continue
        },
        Control::Terminate(n) => if n > k {
            Control::Terminate((n - k) as u32)
        } else {
            Control::Continue
        },
        _ => Control::Continue,
    }
}

/// How far a run is from the end of its text: twice the bytes that are left,
/// and one more while the parser is in the middle of something.
pub open spec fn rank(len: nat, pos: nat, state: ParseState) -> nat {
    2 * (if pos <= len {
        (len - pos) as nat
    } else {
        0
    }) + (if state == ParseState::Start {
        0nat
    } else {
        1nat
    })
}

/// The byte of the text at `pos`, if the text goes that far.
pub open spec fn byte_at(text: Seq<u8>, pos: nat) -> Option<u8> {
    if pos < text.len() {
        Some(text[pos as int])
    } else {
        None
    }
}

/// The place in the text after a step of the parser.
pub open spec fn next_pos(text: Seq<u8>, pos: nat, consumed: bool) -> nat {
    if consumed && pos < text.len() {
        pos + 1
    } else {
        pos
    }
}

/// Each step of the parser brings the run nearer to the end of its text,
/// but the step that reports that end.
pub proof fn lemma_step_ranks(state: ParseState, text: Seq<u8>, pos: nat, flavor: crate::Flavor)
    ensures
        ({
            let s = state.step(byte_at(text, pos), flavor);
            s.action != Some(Action::Eof) ==> rank(
                text.len(),
                next_pos(text, pos, s.consumed),
                s.state,
            ) < rank(text.len(), pos, state)
        }),
{
    reveal(ParseState::on_byte);
}

/// What running the text from `pos` on comes to, with the parser in
/// `state`.
///
/// The parser takes the text byte by byte. Each action that it emits is
/// done as [`Machine::step`] says. An error is written as a message, and
/// the run goes on. Where the action asks for a macro, the macro is run as
/// a level of its own, from its beginning and with a fresh parser, and the
/// invocation is taken off the budget; with no budget left the macro is not
/// run. The run ends with the end of the text, or with a quit.
///
/// Within a macro (`top` is false) a quit ends the run, which hands it on
/// with one level less, or ends it there where no level is left. At the
/// top level (`top` is true) a quit of levels is ignored, and the quit of
/// the program ends the run as it is.
#[verifier::opaque]
pub open spec fn run_from(m: Machine, text: Seq<u8>, pos: nat, state: ParseState, top: bool) -> Run
    decreases m.budget, rank(text.len(), pos, state),
{
    let s = state.step(byte_at(text, pos), m.flavor);
    let next = next_pos(text, pos, s.consumed);
    if s.action == Some(Action::Eof) {
        Run { machine: m, output: Seq::empty(), result: Control::Continue }
    } else {
        proof {
            lemma_step_ranks(state, text, pos, m.flavor);
        }
        match s.action {
            None => run_from(m, text, next, s.state, top),
            Some(action) => {
                let effect = m.step(action);
                let after = match effect.result {
                    Ok(Control::Macro(body)) => if m.budget == 0 {
                        Run {
                            machine: effect.machine,
                            output: effect.output,
                            result: Control::Continue,
                        }
                    } else {
                        let inner = run_from(
                            Machine { budget: (m.budget - 1) as nat, ..effect.machine },
                            body,
                            0,
                            ParseState::Start,
                            false,
                        );
                        Run {
                            machine: inner.machine,
                            output: effect.output + inner.output,
                            result: inner.result,
                        }
                    },
                    Ok(control) => Run {
                        machine: effect.machine,
                        output: effect.output,
                        result: control,
                    },
                    Err(e) => Run {
                        machine: effect.machine,
                        output: effect.output + effect.machine.says(e.text()),
                        result: Control::Continue,
                    },
                };
                let goes_on = match after.result {
                    Control::Continue => true,
                    Control::QuitLevels(n) => top,
                    _ => false,
                };
                if !goes_on {
                    Run {
                        machine: after.machine,
                        output: after.output,
                        result: if top {
                            after.result
                        } else {
                            lower_by(after.result, 1)
                        },
                    }
                } else if after.machine.budget <= m.budget {
                    let rest = run_from(after.machine, text, next, s.state, top);
                    Run {
                        machine: rest.machine,
                        output: after.output + rest.output,
                        result: rest.result,
                    }
                } else {
                    Run { machine: after.machine, output: after.output, result: Control::Continue }
                }
            },
        }
    }
}

/// What running a text as a macro comes to.
pub open spec fn run_macro(m: Machine, text: Seq<u8>) -> Run {
    run_from(m, text, 0, ParseState::Start, false)
}

/// An action leaves the name, the dialect and the budget as they are.
#[verifier::rlimit(80)]
#[verifier::spinoff_prover]
pub proof fn lemma_step_keeps(m: Machine, action: Action)
    ensures
        m.step(action).machine.budget == m.budget,
        m.step(action).machine.name == m.name,
        m.step(action).machine.flavor == m.flavor,
{
    reveal(Machine::step);
}

/// The end of the input does nothing.
pub proof fn lemma_eof_does_nothing(m: Machine)
    ensures
        m.step(Action::Eof) == m.done(),
{
    reveal(Machine::step);
}

/// Only an action that the parser emits between two commands asks for a
/// macro: the bytes of a number or a string, after which the parser is not
/// done, never do.
pub proof fn lemma_macro_leaves_start(
    m: Machine,
    state: ParseState,
    input: Option<u8>,
    flavor: crate::Flavor,
)
    requires
        state.step(input, flavor).action is Some,
        m.step(state.step(input, flavor).action->0).result is Ok,
        m.step(state.step(input, flavor).action->0).result->Ok_0 is Macro,
    ensures
        state.step(input, flavor).state == ParseState::Start,
{
    reveal(ParseState::on_byte);
    reveal(Machine::step);
}

/// A quit seen some levels further out, and from there some levels
/// further out again, is the quit seen all those levels further out.
pub proof fn lemma_lower_by_adds(c: Control, a: nat, b: nat)
    ensures
        lower_by(lower_by(c, a), b) == lower_by(c, a + b),
{
}

/// A quit of `n` levels within `k` nested macros leaves the innermost `n`
/// of them, or all of them where `n` is `k` or more: at the `k`th level it
/// has ended exactly if `n` is not above `k`, and otherwise goes on with
/// what is left of its count.
pub proof fn lemma_quit_saturates(n: u32, k: nat)
    ensures
        n <= k ==> lower_by(Control::QuitLevels(n), k) == Control::Continue,
        n > k ==> lower_by(Control::QuitLevels(n), k) == Control::QuitLevels((n - k) as u32),
        lower_by(Control::QuitLevels(n), k + 1) == lower_by(
            lower_by(Control::QuitLevels(n), k),
            1,
        ),
{
}

/// A run draws on the budget and never adds to it; the name and the
/// dialect stay; and a run never ends with the request for a macro.
pub proof fn lemma_run_keeps(m: Machine, text: Seq<u8>, pos: nat, state: ParseState, top: bool)
    ensures
        run_from(m, text, pos, state, top).machine.budget <= m.budget,
        run_from(m, text, pos, state, top).machine.name == m.name,
        run_from(m, text, pos, state, top).machine.flavor == m.flavor,
        !(run_from(m, text, pos, state, top).result is Macro),
    decreases m.budget, rank(text.len(), pos, state),
{
    reveal(run_from);
    let s = state.step(byte_at(text, pos), m.flavor);
    let next = next_pos(text, pos, s.consumed);
    if s.action != Some(Action::Eof) {
        lemma_step_ranks(state, text, pos, m.flavor);
        match s.action {
            None => {
                lemma_run_keeps(m, text, next, s.state, top);
            },
            Some(action) => {
                let effect = m.step(action);
                lemma_step_keeps(m, action);
                let after_machine = match effect.result {
                    Ok(Control::Macro(body)) => if m.budget == 0 {
                        effect.machine
                    } else {
                        let start = Machine { budget: (m.budget - 1) as nat, ..effect.machine };
                        lemma_run_keeps(start, body, 0, ParseState::Start, false);
                        run_from(start, body, 0, ParseState::Start, false).machine
                    },
                    _ => effect.machine,
                };
                if after_machine.budget <= m.budget {
                    lemma_run_keeps(after_machine, text, next, s.state, top);
                }
            },
        }
    }
}

/// A macro that is invoked by the last action of a text can be run in
/// place of that text: the run of the text from that action on is the run
/// of the macro, seen one level further out.
pub proof fn lemma_tail_call(m: Machine, text: Seq<u8>, pos: nat, state: ParseState)
    requires
        m.budget > 0,
        state.step(byte_at(text, pos), m.flavor).action is Some,
        m.step(state.step(byte_at(text, pos), m.flavor).action->0).result is Ok,
        m.step(state.step(byte_at(text, pos), m.flavor).action->0).result->Ok_0 is Macro,
        next_pos(text, pos, state.step(byte_at(text, pos), m.flavor).consumed) == text.len(),
    ensures
        ({
            let effect = m.step(state.step(byte_at(text, pos), m.flavor).action->0);
            let inner = run_from(
                Machine { budget: (m.budget - 1) as nat, ..effect.machine },
                effect.result->Ok_0->Macro_0,
                0,
                ParseState::Start,
                false,
            );
            run_from(m, text, pos, state, false) == (Run {
                machine: inner.machine,
                output: effect.output + inner.output,
                result: lower_by(inner.result, 1),
            })
        }),
{
    reveal(run_from);
    let s = state.step(byte_at(text, pos), m.flavor);
    let action = s.action->0;
    let effect = m.step(action);
    let body = effect.result->Ok_0->Macro_0;
    let start = Machine { budget: (m.budget - 1) as nat, ..effect.machine };
    let inner = run_from(start, body, 0, ParseState::Start, false);
    lemma_step_keeps(m, action);
    lemma_eof_does_nothing(m);
    lemma_macro_leaves_start(m, state, byte_at(text, pos), m.flavor);
    lemma_run_keeps(start, body, 0, ParseState::Start, false);
    let next = next_pos(text, pos, s.consumed);
    let rest = run_from(inner.machine, text, next, s.state, false);
    assert(rest == Run { machine: inner.machine, output: Seq::empty(), result: Control::Continue });
    assert(effect.output + inner.output + Seq::<u8>::empty() =~= effect.output + inner.output);
    assert(s.action != Some(Action::Eof));
    let after = Run {
        machine: inner.machine,
        output: effect.output + inner.output,
        result: inner.result,
    };
    let whole = run_from(m, text, pos, state, false);
    if inner.result is Continue {
        assert(whole == Run {
            machine: rest.machine,
            output: after.output + rest.output,
            result: rest.result,
        });
    } else {
        assert(whole == Run {
            machine: after.machine,
            output: after.output,
            result: lower_by(after.result, 1),
        });
    }
}

/// The output `first`, and then the run `rest`.
pub open spec fn prefixed(first: Seq<u8>, rest: Run) -> Run {
    Run { machine: rest.machine, output: first + rest.output, result: rest.result }
}

/// What an action and, where it asks for one, the macro come to: the run
/// of just that action, within a text whose machine before it was `m`.
pub open spec fn settled(m: Machine, action: Action) -> Run {
    let effect = m.step(action);
    match effect.result {
        Ok(Control::Macro(body)) => if m.budget == 0 {
            Run { machine: effect.machine, output: effect.output, result: Control::Continue }
        } else {
            prefixed(
                effect.output,
                run_from(
                    Machine { budget: (m.budget - 1) as nat, ..effect.machine },
                    body,
                    0,
                    ParseState::Start,
                    false,
                ),
            )
        },
        Ok(control) => Run { machine: effect.machine, output: effect.output, result: control },
        Err(e) => Run {
            machine: effect.machine,
            output: effect.output + effect.machine.says(e.text()),
            result: Control::Continue,
        },
    }
}

/// Whether a run goes on after an action that came to `c`.
pub open spec fn goes_on(c: Control, top: bool) -> bool {
    match c {
        Control::Continue => true,
        Control::QuitLevels(n) => top,
        _ => false,
    }
}

/// The run of a text, by the first step of the parser: a step that emits
/// nothing leaves the run to the rest of the text; the end of the input
/// ends the run; and an action is done, after which the run goes on with
/// the rest of the text or ends with a quit.
pub proof fn lemma_run_unfold(m: Machine, text: Seq<u8>, pos: nat, state: ParseState, top: bool)
    ensures
        ({
            let s = state.step(byte_at(text, pos), m.flavor);
            let next = next_pos(text, pos, s.consumed);
            run_from(m, text, pos, state, top) == (match s.action {
                None => run_from(m, text, next, s.state, top),
                Some(Action::Eof) => Run {
                    machine: m,
                    output: Seq::empty(),
                    result: Control::Continue,
                },
                Some(action) => {
                    let after = settled(m, action);
                    if goes_on(after.result, top) {
                        prefixed(after.output, run_from(after.machine, text, next, s.state, top))
                    } else {
                        Run {
                            machine: after.machine,
                            output: after.output,
                            result: if top {
                                after.result
                            } else {
                                lower_by(after.result, 1)
                            },
                        }
                    }
                },
            })
        }),
{
    reveal(run_from);
    let s = state.step(byte_at(text, pos), m.flavor);
    match s.action {
        Some(action) => {
            if action != Action::Eof {
                lemma_step_keeps(m, action);
                let effect = m.step(action);
                match effect.result {
                    Ok(Control::Macro(body)) => {
                        if m.budget > 0 {
                            lemma_run_keeps(
                                Machine { budget: (m.budget - 1) as nat, ..effect.machine },
                                body,
                                0,
                                ParseState::Start,
                                false,
                            );
                        }
                    },
                    _ => {},
                }
            }
        },
        None => {},
    }
}

/// At the top level a quit of macro levels ends nothing: the run goes on
/// with the rest of the text, as after any other action.
pub proof fn lemma_quit_levels_at_top(m: Machine, text: Seq<u8>, pos: nat, state: ParseState)
    requires
        state.step(byte_at(text, pos), m.flavor).action is Some,
        state.step(byte_at(text, pos), m.flavor).action != Some(Action::Eof),
        settled(m, state.step(byte_at(text, pos), m.flavor).action->0).result is QuitLevels,
    ensures
        ({
            let s = state.step(byte_at(text, pos), m.flavor);
            let after = settled(m, s.action->0);
            run_from(m, text, pos, state, true) == prefixed(
                after.output,
                run_from(after.machine, text, next_pos(text, pos, s.consumed), s.state, true),
            )
        }),
{
    lemma_run_unfold(m, text, pos, state, true);
}

/// Whether the run of the text from `pos` on goes through to the end of
/// the text and ends there between two commands: no quit ends it before,
/// and nothing is left open that only the end of the text closes.
pub open spec fn passes(m: Machine, text: Seq<u8>, pos: nat, state: ParseState) -> bool
    decreases m.budget, rank(text.len(), pos, state),
{
    let s = state.step(byte_at(text, pos), m.flavor);
    let next = next_pos(text, pos, s.consumed);
    if s.action == Some(Action::Eof) {
        state == ParseState::Start
    } else {
        proof {
            lemma_step_ranks(state, text, pos, m.flavor);
        }
        match s.action {
            None => passes(m, text, next, s.state),
            Some(action) => {
                let after = settled(m, action);
                &&& pos < text.len()
                &&& after.result is Continue
                &&& after.machine.budget <= m.budget
                &&& passes(after.machine, text, next, s.state)
            },
        }
    }
}

/// A text that goes through to its end runs the same with more text behind
/// it, as far as it goes: the run of the longer text is the run of the
/// text and then the run of the longer text from the end of the text on.
pub proof fn lemma_run_of_prefix(
    m: Machine,
    text: Seq<u8>,
    more: Seq<u8>,
    pos: nat,
    state: ParseState,
)
    requires
        pos <= text.len(),
        passes(m, text, pos, state),
    ensures
        run_from(m, text, pos, state, false).result == Control::Continue,
        run_from(m, text + more, pos, state, false) == prefixed(
            run_from(m, text, pos, state, false).output,
            run_from(
                run_from(m, text, pos, state, false).machine,
                text + more,
                text.len(),
                ParseState::Start,
                false,
            ),
        ),
    decreases m.budget, rank(text.len(), pos, state),
{
    let long = text + more;
    let s = state.step(byte_at(text, pos), m.flavor);
    let next = next_pos(text, pos, s.consumed);
    lemma_run_unfold(m, text, pos, state, false);
    lemma_run_unfold(m, long, pos, state, false);
    if s.action == Some(Action::Eof) {
        // The text is at its end, between two commands.
        lemma_eof_needs_end(state, byte_at(text, pos), m.flavor);
        assert(pos == text.len());
        let rest = run_from(m, long, text.len(), ParseState::Start, false);
        assert(Seq::<u8>::empty() + rest.output =~= rest.output);
    } else {
        lemma_step_ranks(state, text, pos, m.flavor);
        if s.action is None {
            lemma_action_needs_byte(state, text, pos, m.flavor);
        }
        assert(pos < text.len());
        assert(byte_at(long, pos) == byte_at(text, pos));
        assert(next_pos(long, pos, s.consumed) == next);
        match s.action {
            None => {
                lemma_run_of_prefix(m, text, more, next, s.state);
            },
            Some(action) => {
                let after = settled(m, action);
                lemma_run_of_prefix(after.machine, text, more, next, s.state);
                let short_rest = run_from(after.machine, text, next, s.state, false);
                let end = run_from(short_rest.machine, long, text.len(), ParseState::Start, false);
                assert(after.output + (short_rest.output + end.output) =~= (after.output
                    + short_rest.output) + end.output);
            },
        }
    }
}

/// The parser reports the end of the input only at the end of the input.
pub proof fn lemma_eof_needs_end(state: ParseState, input: Option<u8>, flavor: crate::Flavor)
    requires
        state.step(input, flavor).action == Some(Action::Eof),
    ensures
        input is None,
{
    reveal(ParseState::on_byte);
}

/// A step that emits nothing has taken a byte.
pub proof fn lemma_action_needs_byte(state: ParseState, text: Seq<u8>, pos: nat, flavor: crate::Flavor)
    requires
        state.step(byte_at(text, pos), flavor).action is None,
    ensures
        pos < text.len(),
{
}

/// The three bytes that load the register `x` and run what was loaded:
/// `l`, the register and `x`.
pub open spec fn invocation(x: u8) -> Seq<u8> {
    seq![108u8, x, 120u8]
}

/// How the parser reads the bytes of an invocation.
pub proof fn lemma_parse_invocation(x: u8, flavor: crate::Flavor)
    ensures
        ParseState::Start.step(Some(108u8), flavor) == takes(
            ParseState::Register(RegisterAction::Load),
            None,
        ),
        ParseState::Register(RegisterAction::Load).step(Some(x), flavor) == takes(
            ParseState::Start,
            Some(Action::Register(RegisterAction::Load, x)),
        ),
        ParseState::Start.step(Some(120u8), flavor) == takes(
            ParseState::Start,
            Some(Action::ExecuteMacro),
        ),
{
    reveal(ParseState::on_byte);
}

/// The load of a register that holds a string puts the string on the stack,
/// and to execute it takes it off again and asks for it to be run.
pub proof fn lemma_load_and_execute(m: Machine, x: u8, text: Seq<u8>)
    requires
        stack_value(m.registers[x as int]) == Some(Value::Str(text)),
    ensures
        m.step(Action::Register(RegisterAction::Load, x)) == m.pushed(Value::Str(text)).done(),
        m.pushed(Value::Str(text)).step(Action::ExecuteMacro) == m.runs(text),
{
    reveal(Machine::step);
    let loaded = m.pushed(Value::Str(text));
    assert(loaded.popped(1).stack =~= m.stack);
}

/// A macro that a text invokes at its very end runs as if it followed the
/// text: where the text goes through to its end and the register `x` then
/// holds a macro, the text with the invocation of `x` behind it comes to the
/// text, and then the macro. It writes what the two write, one after the
/// other, and leaves the state that the macro leaves after the text. A
/// quit that the macro hands on is seen one level further out, and the
/// invocation is taken off the budget.
pub proof fn lemma_macro_at_end_follows(m: Machine, body: Seq<u8>, x: u8, text: Seq<u8>)
    requires
        passes(m, body, 0, ParseState::Start),
        run_macro(m, body).machine.budget > 0,
        stack_value(run_macro(m, body).machine.registers[x as int]) == Some(Value::Str(text)),
    ensures
        ({
            let first = run_macro(m, body);
            let second = run_macro(
                Machine { budget: (first.machine.budget - 1) as nat, ..first.machine },
                text,
            );
            let whole = run_macro(m, body + invocation(x));
            &&& first.result == Control::Continue
            &&& whole.machine == second.machine
            &&& whole.output == first.output + second.output
            &&& whole.result == lower_by(second.result, 1)
        }),
{
    let first = run_macro(m, body);
    let m1 = first.machine;
    let long = body + invocation(x);
    let at = body.len();
    let second = run_macro(Machine { budget: (m1.budget - 1) as nat, ..m1 }, text);
    lemma_run_of_prefix(m, body, invocation(x), 0, ParseState::Start);
    lemma_run_keeps(m, body, 0, ParseState::Start, false);
    lemma_parse_invocation(x, m1.flavor);
    lemma_load_and_execute(m1, x, text);
    let loaded = m1.pushed(Value::Str(text));
    assert(byte_at(long, at) == Some(108u8));
    assert(byte_at(long, at + 1) == Some(x));
    assert(byte_at(long, at + 2) == Some(120u8));
    assert(long.len() == at + 3);
    // `l` and the register: the macro is on the stack.
    lemma_run_unfold(m1, long, at, ParseState::Start, false);
    lemma_run_unfold(m1, long, at + 1, ParseState::Register(RegisterAction::Load), false);
    assert(settled(m1, Action::Register(RegisterAction::Load, x)) == Run {
        machine: loaded,
        output: Seq::empty(),
        result: Control::Continue,
    });
    // `x`, the last action of the text: the macro is run.
    lemma_tail_call(loaded, long, at + 2, ParseState::Start);
    let tail = run_from(loaded, long, at + 2, ParseState::Start, false);
    assert(tail.machine == second.machine);
    assert(tail.output =~= second.output);
    assert(tail.result == lower_by(second.result, 1));
    let rest = run_from(m1, long, at, ParseState::Start, false);
    assert(rest.output =~= second.output);
    assert(rest == Run {
        machine: second.machine,
        output: second.output,
        result: lower_by(second.result, 1),
    });
}

/// A level that waits for the macro that it has invoked: the text of the
/// level, and the place and the state of the parser behind the invocation.
pub struct Frame {
    /// The text of the level.
    pub text: Seq<u8>,
    /// The place in the text behind the action that invoked the macro.
    pub pos: nat,
    /// The state of the parser there.
    pub state: ParseState,
}

/// What a level that waits comes to, once the macro that it invoked has
/// come to `inner`: after a macro that ended by itself the level goes on
/// behind the invocation; a quit ends the level too, which hands it on
/// with one level less.
pub open spec fn resumed(frame: Frame, inner: Run) -> Run {
    if goes_on(inner.result, false) {
        prefixed(
            inner.output,
            run_from(inner.machine, frame.text, frame.pos, frame.state, false),
        )
    } else {
        Run { machine: inner.machine, output: inner.output, result: lower_by(inner.result, 1) }
    }
}

/// What the outermost of some waiting levels comes to, once the macro that
/// the innermost of them invoked has come to `inner`. The levels are given
/// from the outermost to the innermost.
pub open spec fn unwound(frames: Seq<Frame>, inner: Run) -> Run
    decreases frames.len(),
{
    if frames.len() == 0 {
        inner
    } else {
        unwound(frames.drop_last(), resumed(frames.last(), inner))
    }
}

/// A level whose next action invokes a macro waits for the macro: the run
/// of the level is what the level comes to once the macro has been run.
pub proof fn lemma_level_waits(m: Machine, text: Seq<u8>, pos: nat, state: ParseState)
    requires
        m.budget > 0,
        state.step(byte_at(text, pos), m.flavor).action is Some,
        m.step(state.step(byte_at(text, pos), m.flavor).action->0).result is Ok,
        m.step(state.step(byte_at(text, pos), m.flavor).action->0).result->Ok_0 is Macro,
    ensures
        ({
            let s = state.step(byte_at(text, pos), m.flavor);
            let effect = m.step(s.action->0);
            run_from(m, text, pos, state, false) == resumed(
                Frame { text, pos: next_pos(text, pos, s.consumed), state: s.state },
                prefixed(
                    effect.output,
                    run_from(
                        Machine { budget: (m.budget - 1) as nat, ..effect.machine },
                        effect.result->Ok_0->Macro_0,
                        0,
                        ParseState::Start,
                        false,
                    ),
                ),
            )
        }),
{
    lemma_eof_does_nothing(m);
    lemma_run_unfold(m, text, pos, state, false);
}

/// A quit of `n` levels leaves the `n` innermost levels, or all of them
/// where there are no more. The level in which the quit was raised has
/// stopped with the machine `m` and the output `out`; `frames` are the
/// levels that wait outside it, the outermost first. Where `n` is above
/// their number, every level stops, and the outermost hands on what is left
/// of the count, or ends the quit if nothing is left. Otherwise the
/// innermost `n - 1` of the waiting levels stop, and the level outside them
/// goes on behind its invocation.
pub proof fn lemma_quit_leaves_levels(frames: Seq<Frame>, m: Machine, out: Seq<u8>, n: u32)
    requires
        n >= 1,
    ensures
        ({
            let stopped = Run {
                machine: m,
                output: out,
                result: lower_by(Control::QuitLevels(n), 1),
            };
            let waiting = frames.len();
            &&& n > waiting ==> unwound(frames, stopped) == (Run {
                machine: m,
                output: out,
                result: lower_by(Control::QuitLevels(n), waiting + 1),
            })
            &&& n <= waiting ==> unwound(frames, stopped) == unwound(
                frames.take(waiting - n),
                prefixed(
                    out,
                    run_from(
                        m,
                        frames[waiting - n].text,
                        frames[waiting - n].pos,
                        frames[waiting - n].state,
                        false,
                    ),
                ),
            )
        }),
    decreases frames.len(),
{
    let waiting = frames.len();
    if waiting > 0 {
        let outer = frames.drop_last();
        if n == 1 {
            assert(outer =~= frames.take(waiting - 1));
        } else {
            let fewer = (n - 1) as u32;
            lemma_quit_leaves_levels(outer, m, out, fewer);
            lemma_lower_by_adds(Control::QuitLevels(n), 1, 1);
            assert(lower_by(Control::QuitLevels(n), 1) == Control::QuitLevels(fewer));
            if n <= waiting {
                assert(outer.take(waiting - n) =~= frames.take(waiting - n));
                assert(outer[waiting - n] == frames[waiting - n]);
            }
        }
    }
}

/// The level in which a quit is raised stops there, and hands the quit on
/// with one level less.
pub proof fn lemma_quit_stops_level(m: Machine, text: Seq<u8>, pos: nat, state: ParseState)
    requires
        state.step(byte_at(text, pos), m.flavor).action is Some,
        state.step(byte_at(text, pos), m.flavor).action != Some(Action::Eof),
        settled(m, state.step(byte_at(text, pos), m.flavor).action->0).result is QuitLevels,
    ensures
        ({
            let after = settled(m, state.step(byte_at(text, pos), m.flavor).action->0);
            run_from(m, text, pos, state, false) == (Run {
                machine: after.machine,
                output: after.output,
                result: lower_by(after.result, 1),
            })
        }),
{
    lemma_run_unfold(m, text, pos, state, false);
}

/// A quit as it is handed on from a run that stands for `tail_depth + 1`
/// levels: the level of the run itself, and one for each macro that was
/// run in place of the text before it.
fn lowered(result: DcResult, tail_depth: u64) -> (r: DcResult)
    ensures
        r@ == lower_by(result@, (tail_depth + 1) as nat),
{
    match result {
        DcResult::QuitLevels(n) => {
            if n as u64 <= tail_depth || n as u64 - tail_depth <= 1 {
                DcResult::Continue
            } else {
                DcResult::QuitLevels((n as u64 - tail_depth - 1) as u32)
            }
        },
        DcResult::Terminate(n) => {
            if n as u64 <= tail_depth || n as u64 - tail_depth <= 1 {
                DcResult::Continue
            } else {
                DcResult::Terminate((n as u64 - tail_depth - 1) as u32)
            }
        },
        _ => DcResult::Continue,
    }
}

/// What [`Dc4State::settle`] has done.
pub(crate) enum Settled {
    /// The action is done, and so is the macro that it asked for, if it
    /// asked for one: the run of the action has come to this.
    Done(DcResult),
    /// The action is done and asks for this macro, which is still to be
    /// run, in place of the text that the action was the last of.
    Tail(Vec<u8>),
}

impl Dc4State {
    /// Does the action and, where it asks for a macro, runs the macro as a
    /// level of its own; an error is written as a message. Where `at_end`
    /// says that the action was the last of its text, the macro is not run
    /// but handed back.
    pub(crate) fn settle(&mut self, action: Action, at_end: bool, w: &mut Vec<u8>) -> (r: Settled)
        requires
            old(self).wf(),
        ensures
            final(self).wf(),
            final(self).budget <= old(self).budget,
            final(self).flavor == old(self).flavor,
            match r {
                Settled::Done(result) => {
                    &&& final(self)@ == settled(old(self)@, action).machine
                    &&& final(w)@ == old(w)@ + settled(old(self)@, action).output
                    &&& result@ == settled(old(self)@, action).result
                },
                Settled::Tail(body) => {
                    &&& at_end
                    &&& old(self).budget > 0
                    &&& old(self)@.step(action).result == Ok::<Control, crate::DcError>(
                        Control::Macro(body@),
                    )
                    &&& final(self)@ == (Machine {
                        budget: (old(self).budget - 1) as nat,
                        ..old(self)@.step(action).machine
                    })
                    &&& final(w)@ == old(w)@ + old(self)@.step(action).output
                },
            },
        decreases old(self).budget, 0nat,
    {
        let ghost m = self@;
        let ghost effect = m.step(action);
        proof {
            lemma_step_keeps(m, action);
        }
        match self.action(action, w) {
            Ok(DcResult::Macro(body)) => {
                if self.budget == 0 {
                    Settled::Done(DcResult::Continue)
                } else {
                    self.budget = self.budget - 1;
                    if at_end {
                        Settled::Tail(body)
                    } else {
                        let inner = self.run_macro(body, w);
                        proof {
                            let run = run_macro(
                                Machine { budget: (m.budget - 1) as nat, ..effect.machine },
                                body@,
                            );
                            assert(w@ =~= old(w)@ + (effect.output + run.output));
                        }
                        Settled::Done(inner)
                    }
                }
            },
            Ok(other) => Settled::Done(other),
            Err(e) => {
                let message = e.message();
                self.error(w, &message);
                proof {
                    assert(w@ =~= old(w)@ + (effect.output + effect.machine.says(e.text())));
                }
                Settled::Done(DcResult::Continue)
            },
        }
    }

    /// Runs the text as a macro. What it prints is appended to `w`, and so
    /// are the messages of the errors, which do not end the run.
    ///
    /// A macro that the last action of a text invokes is run in place of
    /// that text, and not as a level more: the result is the same.
    pub fn run_macro(&mut self, text: Vec<u8>, w: &mut Vec<u8>) -> (r: DcResult)
        requires
            old(self).wf(),
        ensures
            final(self).wf(),
            final(self).budget <= old(self).budget,
            final(self).flavor == old(self).flavor,
            final(self)@ == run_macro(old(self)@, text@).machine,
            final(w)@ == old(w)@ + run_macro(old(self)@, text@).output,
            r@ == run_macro(old(self)@, text@).result,
        decreases old(self).budget, 1nat,
    {
        let ghost total = run_macro(old(self)@, text@);
        let mut current = text;
        let mut parser = Parser::new(self.flavor);
        let mut tail_depth: u64 = 0;
        let mut pos: usize = 0;
        proof {
            lemma_lower_by_adds(total.result, 0, 0);
            lemma_run_keeps(old(self)@, current@, 0, ParseState::Start, false);
            assert(w@ + total.output =~= old(w)@ + total.output);
        }
        loop
            invariant
                self.wf(),
                total == run_macro(old(self)@, text@),
                pos <= current.len(),
                self.flavor == old(self).flavor,
                parser.flavor == self.flavor,
                parser.state.nesting() <= pos,
                self.budget + tail_depth <= old(self).budget,
                total.machine == run_from(self@, current@, pos as nat, parser.state, false).machine,
                old(w)@ + total.output == w@ + run_from(
                    self@,
                    current@,
                    pos as nat,
                    parser.state,
                    false,
                ).output,
                total.result == (if tail_depth == 0 {
                    run_from(self@, current@, pos as nat, parser.state, false).result
                } else {
                    lower_by(
                        run_from(self@, current@, pos as nat, parser.state, false).result,
                        tail_depth as nat,
                    )
                }),
            decreases self.budget, rank(current@.len(), pos as nat, parser.state),
        {
            let ghost m = self@;
            let ghost state = parser.state;
            let ghost here = pos as nat;
            let ghost whole = run_from(m, current@, here, state, false);
            let ghost w0 = w@;
            let mut cur: Option<u8> = if pos < current.len() {
                Some(current[pos])
            } else {
                None
            };
            proof {
                lemma_step_ranks(state, current@, here, m.flavor);
                lemma_run_keeps(m, current@, here, state, false);
                lemma_run_unfold(m, current@, here, state, false);
                crate::parser::lemma_nesting_grows_slowly(state, byte_at(current@, here), m.flavor);
                assert(cur == byte_at(current@, here));
            }
            let action = parser.step(&mut cur);
            if cur.is_none() && pos < current.len() {
                pos += 1;
            }
            let ghost s = state.step(byte_at(current@, here), m.flavor);
            assert(pos as nat == next_pos(current@, here, s.consumed));
            match action {
                None => {},
                Some(Action::Eof) => {
                    proof {
                        assert(w@ + Seq::<u8>::empty() =~= w@);
                        assert(old(w)@ + total.output =~= w@);
                    }
                    return DcResult::Continue;
                },
                Some(action) => {
                    let ghost after = settled(m, action);
                    match self.settle(action, pos == current.len(), w) {
                        Settled::Tail(body) => {
                            proof {
                                let inner = run_from(self@, body@, 0, ParseState::Start, false);
                                lemma_tail_call(m, current@, here, state);
                                lemma_lower_by_adds(inner.result, 1, tail_depth as nat);
                                assert(w0 + (m.step(action).output + inner.output) =~= w@
                                    + inner.output);
                            }
                            proof {
                                lemma_macro_leaves_start(
                                    m,
                                    state,
                                    byte_at(current@, here),
                                    m.flavor,
                                );
                            }
                            current = body;
                            pos = 0;
                            tail_depth = tail_depth + 1;
                        },
                        Settled::Done(DcResult::Continue) => {
                            proof {
                                let rest = run_from(self@, current@, pos as nat, parser.state, false);
                                assert(w0 + (after.output + rest.output) =~= w@ + rest.output);
                            }
                        },
                        Settled::Done(other) => {
                            proof {
                                lemma_lower_by_adds(other@, 1, tail_depth as nat);
                                assert(old(w)@ + total.output =~= w@);
                            }
                            return lowered(other, tail_depth);
                        },
                    }
                },
            }
        }
    }
}

} // verus!
