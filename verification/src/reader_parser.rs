//! A parser over a whole input: it hands out the actions of a program one
//! by one.

use vstd::prelude::*;
use crate::Flavor;
use crate::parser::Action;
use crate::parser::ParseState;
use crate::parser::Parser;
use crate::parser::lemma_nesting_grows_slowly;
use crate::runner::byte_at;
use crate::runner::lemma_step_ranks;
use crate::runner::next_pos;
use crate::runner::rank;
use crate::Control;
use crate::runner::Run;
use crate::runner::goes_on;
use crate::runner::lemma_run_unfold;
use crate::runner::lower_by;
use crate::runner::prefixed;
use crate::runner::run_from;
use crate::runner::settled;
use crate::state::Machine;

verus! {

/// Where the parser arrives with its next action.
pub struct Scan {
    /// The state of the parser after the action.
    pub state: ParseState,
    /// The place in the input after the action.
    pub pos: nat,
    /// The action.
    pub action: Action,
}

/// The next action that the parser emits from `pos` on in the text, and
/// where it arrives with it. At the end of the text the action is
/// [`Action::Eof`], once whatever was being read has been closed.
pub open spec fn scan(state: ParseState, text: Seq<u8>, pos: nat, flavor: Flavor) -> Scan
    decreases rank(text.len(), pos, state),
{
    let s = state.step(byte_at(text, pos), flavor);
    let next = next_pos(text, pos, s.consumed);
    match s.action {
        Some(action) => Scan { state: s.state, pos: next, action },
        None => {
            proof {
                lemma_step_ranks(state, text, pos, flavor);
            }
            scan(s.state, text, next, flavor)
        },
    }
}

/// The next action is found at or after the place where the search began,
/// and within the text; and the parser is no deeper in brackets than the
/// bytes it has read.
pub proof fn lemma_scan_bounds(state: ParseState, text: Seq<u8>, pos: nat, flavor: Flavor)
    requires
        pos <= text.len(),
    ensures
        pos <= scan(state, text, pos, flavor).pos <= text.len(),
        scan(state, text, pos, flavor).state.nesting() <= state.nesting() + scan(
            state,
            text,
            pos,
            flavor,
        ).pos - pos,
        scan(state, text, pos, flavor).action != Action::Eof ==> rank(
            text.len(),
            scan(state, text, pos, flavor).pos,
            scan(state, text, pos, flavor).state,
        ) < rank(text.len(), pos, state),
    decreases rank(text.len(), pos, state),
{
    let s = state.step(byte_at(text, pos), flavor);
    let next = next_pos(text, pos, s.consumed);
    lemma_nesting_grows_slowly(state, byte_at(text, pos), flavor);
    lemma_step_ranks(state, text, pos, flavor);
    if s.action is None {
        lemma_scan_bounds(s.state, text, next, flavor);
    }
}

/// A parser with the input that it reads.
#[derive(Debug)]
pub struct ReaderParser {
    /// The input.
    pub input: Vec<u8>,
    /// How many bytes of the input have been taken.
    pub taken: usize,
    /// The parser.
    pub parser: Parser,
    /// The byte that the parser gave back and is to get again; it is the
    /// last of the bytes that have been taken.
    pub stashed: Option<u8>,
}

impl ReaderParser {
    /// Whether the byte that is held back is the last that was taken, and
    /// the parser is no deeper in brackets than the bytes that it has used.
    pub open spec fn wf(&self) -> bool {
        &&& self.taken <= self.input.len()
        &&& match self.stashed {
            Some(c) => self.taken > 0 && self.input[self.taken - 1] == c,
            None => true,
        }
        &&& self.parser.state.nesting() <= self.pos()
    }

    /// The place in the input of the next byte that the parser gets.
    pub open spec fn pos(&self) -> nat {
        if self.stashed is Some {
            (self.taken - 1) as nat
        } else {
            self.taken as nat
        }
    }

    /// A parser at the beginning of the input, which accepts the classical
    /// command set.
    pub fn new(input: Vec<u8>) -> (r: Self)
        ensures
            r.wf(),
            r.input@ == input@,
            r.taken == 0,
            r.stashed is None,
            r.pos() == 0,
            r.parser.state == ParseState::Start,
            r.parser.flavor == Flavor::Gnu,
    {
        ReaderParser { input, taken: 0, parser: Parser::default(), stashed: None }
    }

    /// Sets the dialect whose commands the parser accepts.
    pub fn set_flavor(&mut self, flavor: Flavor)
        ensures
            final(self).parser.flavor == flavor,
            final(self).parser.state == old(self).parser.state,
            final(self).input == old(self).input,
            final(self).taken == old(self).taken,
            final(self).stashed == old(self).stashed,
    {
        self.parser.flavor = flavor;
    }

    /// The next action of the program, or `None` at its end.
    pub fn next(&mut self) -> (r: Option<Action>)
        requires
            old(self).wf(),
        ensures
            final(self).wf(),
            final(self).input == old(self).input,
            final(self).parser.flavor == old(self).parser.flavor,
            ({
                let found = scan(
                    old(self).parser.state,
                    old(self).input@,
                    old(self).pos(),
                    old(self).parser.flavor,
                );
                &&& final(self).parser.state == found.state
                &&& final(self).pos() == found.pos
                &&& r == (if found.action == Action::Eof {
                    None
                } else {
                    Some(found.action)
                })
            }),
    {
        let ghost text = self.input@;
        let ghost flavor = self.parser.flavor;
        loop
            invariant
                self.wf(),
                self.input@ == text,
                self.input == old(self).input,
                self.parser.flavor == flavor,
                flavor == old(self).parser.flavor,
                scan(self.parser.state, text, self.pos(), flavor) == scan(
                    old(self).parser.state,
                    text,
                    old(self).pos(),
                    flavor,
                ),
            decreases rank(text.len(), self.pos(), self.parser.state),
        {
            let ghost state = self.parser.state;
            let ghost here = self.pos();
            let mut c: Option<u8> = match self.stashed {
                Some(c) => {
                    self.stashed = None;
                    Some(c)
                },
                None => {
                    if self.taken < self.input.len() {
                        self.taken += 1;
                        Some(self.input[self.taken - 1])
                    } else {
                        None
                    }
                },
            };
            proof {
                assert(c == byte_at(text, here));
                lemma_step_ranks(state, text, here, flavor);
                lemma_nesting_grows_slowly(state, byte_at(text, here), flavor);
            }
            let action = self.parser.step(&mut c);
            if let Some(unused) = c {
                // The parser gave the byte back: keep it for the next step.
                self.stashed = Some(unused);
            }
            assert(self.pos() == next_pos(text, here, state.step(byte_at(text, here), flavor).consumed));
            if let Some(action) = action {
                return match action {
                    Action::Eof => None,
                    _ => Some(action),
                };
            }
        }
    }
}

/// The run of a text, action by action: the next action that the parser
/// finds is done, and the run goes on behind it, or ends with a quit; at
/// the end of the text the run ends.
pub proof fn lemma_run_by_actions(m: Machine, text: Seq<u8>, pos: nat, state: ParseState, top: bool)
    ensures
        ({
            let found = scan(state, text, pos, m.flavor);
            let after = settled(m, found.action);
            run_from(m, text, pos, state, top) == (if found.action == Action::Eof {
                Run { machine: m, output: Seq::empty(), result: Control::Continue }
            } else if goes_on(after.result, top) {
                prefixed(after.output, run_from(after.machine, text, found.pos, found.state, top))
            } else {
                Run {
                    machine: after.machine,
                    output: after.output,
                    result: if top {
                        after.result
                    } else {
                        lower_by(after.result, 1)
                    },
                }
            })
        }),
    decreases rank(text.len(), pos, state),
{
    let s = state.step(byte_at(text, pos), m.flavor);
    let next = next_pos(text, pos, s.consumed);
    lemma_run_unfold(m, text, pos, state, top);
    if s.action is None {
        lemma_step_ranks(state, text, pos, m.flavor);
        lemma_run_by_actions(m, text, next, s.state, top);
    }
}

} // verus!
