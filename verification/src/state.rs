//! The evaluator: the stack, the registers and the modes of the calculator,
//! and what each [`Action`] does to them.
//!
//! [`Machine`] is the mathematical model of the evaluator's state, and
//! [`Machine::step`] says what one action does: the state after it, what is
//! written to the output, and the control result or the error.
//! [`Dc4State::action`] computes just that.

use vstd::prelude::*;
use vstd::string::StringSliceAdditionalSpecFns;
use crate::Control;
use crate::DcError;
use crate::Flavor;
use crate::Value;
use crate::DcResult;
use crate::DcValue;
use crate::big_real::BigReal;
use crate::big_real::BigRealFrom;
use crate::big_real::Real;
use crate::integer::Integer;
use crate::bytes::push_all;
use crate::bytes::push_text;
use crate::bytes::push_uppercase;
use crate::bytes::upper;
use crate::bytes::uppercase;
use crate::integer::digit_char;
use crate::dcregisters::DcRegisters;
use crate::dcregisters::Slot;
use crate::dcregisters::stack_array_load;
use crate::dcregisters::stack_array_store;
use crate::dcregisters::stack_set;
use crate::dcregisters::stack_value;
use crate::integer::abs_int;
use crate::integer::magnitude_bytes;
use crate::integer::radix_digits;
use crate::parser::Action;
use crate::parser::Comparison;
use crate::parser::RegisterAction;
use crate::parser::is_digit;

verus! {

/// The first part of the version number that `@` pushes.
pub const VERSION_MAJOR: u64 = 1;

/// The second part of the version number that `@` pushes.
pub const VERSION_MINOR: u64 = 0;

/// The third part of the version number that `@` pushes.
pub const VERSION_PATCH: u64 = 0;

/// The version as one number: the first part in the bits from 24 on, the
/// second in the bits from 16 on, the third below them.
pub open spec fn version_number() -> int {
    VERSION_MAJOR * 16777216 + VERSION_MINOR * 65536 + VERSION_PATCH
}

/// The value of a digit of a number: `0`-`9` are zero to nine, `A`-`F` ten
/// to fifteen.
pub open spec fn digit_value(c: u8) -> int {
    if c <= 57 {
        c - 48
    } else {
        c - 55
    }
}

/// The number divided `times` times over by `divisor`, each time with
/// `scale` fractional digits.
pub open spec fn divided(r: Real, divisor: Real, scale: nat, times: nat) -> Real
    decreases times,
{
    if times == 0 {
        r
    } else {
        divided(r.div(divisor, scale), divisor, scale, (times - 1) as nat)
    }
}

/// The mathematical model of a number that is being entered.
pub struct Draft {
    /// The digits so far, read as an integer in the input radix.
    pub int: int,
    /// The number of digits after the point, once the point has been seen.
    pub shift: Option<nat>,
    /// Whether a `_` has been seen.
    pub neg: bool,
}

impl Draft {
    /// Nothing entered yet.
    pub open spec fn empty() -> Draft {
        Draft { int: 0, shift: None, neg: false }
    }

    /// The draft after one more byte. `_` makes the number negative; a
    /// digit is appended in the input radix, whatever its value; `.` begins
    /// the fraction. The fraction can have as many digits as fit in 32
    /// bits.
    pub open spec fn push(self, c: u8, iradix: nat) -> Result<Draft, DcError> {
        if c == 95 {
            Ok(Draft { neg: true, ..self })
        } else if is_digit(c) {
            match self.shift {
                Some(s) => if s >= u32::MAX {
                    Err(DcError::ScaleTooBig)
                } else {
                    Ok(
                        Draft {
                            int: self.int * iradix + digit_value(c),
                            shift: Some(s + 1),
                            neg: self.neg,
                        },
                    )
                },
                None => Ok(Draft { int: self.int * iradix + digit_value(c), ..self }),
            }
        } else if c == 46 {
            Ok(Draft { shift: Some(0), ..self })
        } else {
            Err(DcError::UnexpectedNumberChar(c))
        }
    }

    /// The draft after all the bytes of `text`, or the first error.
    pub open spec fn push_all(self, text: Seq<u8>, iradix: nat) -> Result<Draft, DcError>
        decreases text.len(),
    {
        if text.len() == 0 {
            Ok(self)
        } else {
            match self.push(text[0], iradix) {
                Ok(next) => next.push_all(text.drop_first(), iradix),
                Err(e) => Err(e),
            }
        }
    }

    /// The number that was entered. In radix ten the digits after the point
    /// are decimal digits. In another radix the integer that the digits
    /// make is divided by the radix once for each digit after the point,
    /// each time with as many fractional decimal digits as there were
    /// digits after the point: what does not fit is cut off.
    pub open spec fn finish(self, iradix: nat) -> Real {
        let value = if self.neg {
            -self.int
        } else {
            self.int
        };
        match self.shift {
            None => Real::integer(value),
            Some(s) => if iradix == 10 {
                Real { value, shift: s }
            } else {
                divided(Real::integer(value), Real::integer(iradix as int), s, s)
            },
        }
    }
}

/// The mathematical model of the evaluator.
pub struct Machine {
    /// The name that begins each warning and error message.
    pub name: Seq<u8>,
    /// The dialect.
    pub flavor: Flavor,
    /// The stack, the top last.
    pub stack: Seq<Value>,
    /// The 256 registers.
    pub registers: Seq<Seq<Slot>>,
    /// The number of fractional digits that divisions keep.
    pub scale: nat,
    /// The radix in which numbers are entered, 2 to 16.
    pub iradix: nat,
    /// The radix in which numbers are printed, 2 to 16.
    pub oradix: nat,
    /// The bytes of the string that is being entered.
    pub current_str: Seq<u8>,
    /// The number that is being entered.
    pub current_num: Draft,
    /// What is left to read of the standard input.
    pub input: Seq<u8>,
    /// How many macros may still be run.
    pub budget: nat,
}

/// What an action does.
pub struct Effect {
    /// The state after the action.
    pub machine: Machine,
    /// What the action writes.
    pub output: Seq<u8>,
    /// What the caller is to do next, or the error.
    pub result: Result<Control, DcError>,
}

/// A value as it is printed: a string as its bytes; a number in the output
/// radix with capital letters, and zero as `0` whatever its shift.
pub open spec fn shown(v: Value, oradix: nat) -> Seq<u8> {
    match v {
        Value::Str(s) => s,
        Value::Num(n) => if n.value == 0 {
            seq![48u8]
        } else {
            uppercase(n.text(oradix))
        },
    }
}

/// The values of a stack as they are printed, the top first, one to a line.
pub open spec fn shown_stack(stack: Seq<Value>, oradix: nat) -> Seq<u8>
    decreases stack.len(),
{
    if stack.len() == 0 {
        Seq::empty()
    } else {
        shown(stack.last(), oradix) + seq![10u8] + shown_stack(stack.drop_last(), oradix)
    }
}

/// A message as it is written: the name of the program, a colon, the
/// message, and the end of the line.
pub open spec fn report(name: Seq<u8>, message: Seq<u8>) -> Seq<u8> {
    name + seq![58u8, 32u8] + message + seq![10u8]
}

/// Whether the comparison holds of the top of the stack and the value
/// below it, in this order: `>` asks whether the top is the greater.
pub open spec fn compares(kind: Comparison, top: Real, below: Real) -> bool {
    match kind {
        Comparison::Gt => below.less_than(top),
        Comparison::Le => !below.less_than(top),
        Comparison::Lt => top.less_than(below),
        Comparison::Ge => !top.less_than(below),
        Comparison::Eq => top.same_number(below),
        Comparison::Ne => !top.same_number(below),
    }
}

/// One for true and zero for false.
pub open spec fn truth(b: bool) -> Real {
    Real::integer(
        if b {
            1
        } else {
            0
        },
    )
}

/// The first line of a text: up to its first line feed, which belongs to
/// the line, or all of it.
pub open spec fn first_line(text: Seq<u8>) -> Seq<u8>
    decreases text.len(),
{
    if text.len() == 0 {
        Seq::empty()
    } else if text[0] == 10 {
        seq![10u8]
    } else {
        seq![text[0]] + first_line(text.drop_first())
    }
}

/// Whether a number can be the key of an array: an integer that is not
/// negative.
pub open spec fn valid_key(v: Value) -> bool {
    match v {
        Value::Num(n) => n.value >= 0 && n.shift == 0,
        Value::Str(s) => false,
    }
}

/// What an operation on two numbers makes of the number `a` below the top
/// and the number `b` on top, with the given scale.
pub open spec fn arithmetic(action: Action, a: Real, b: Real, scale: nat) -> Result<Real, DcError> {
    match action {
        Action::Add => Ok(a.add(b)),
        Action::Sub => Ok(a.sub(b)),
        Action::Mul => if a.shift + b.shift > u32::MAX {
            Err(DcError::ScaleTooBig)
        } else {
            Ok(a.mul(b))
        },
        Action::Div => if b.value == 0 {
            Err(DcError::DivideByZero)
        } else {
            Ok(a.div(b, scale))
        },
        Action::Rem => if b.value == 0 {
            Err(DcError::RemainderByZero)
        } else if b.shift + scale > u32::MAX {
            Err(DcError::ScaleTooBig)
        } else {
            Ok(a.rem(b, scale))
        },
        Action::Exp => if a.shift * abs_int(b.trunc()) > u32::MAX {
            Err(DcError::ScaleTooBig)
        } else if b.trunc() < 0 && a.value == 0 {
            Err(DcError::DivideByZero)
        } else {
            Ok(a.pow(b, scale))
        },
        Action::CompareEq => Ok(truth(compares(Comparison::Eq, b, a))),
        Action::CompareLt => Ok(truth(compares(Comparison::Lt, b, a))),
        Action::CompareLe => Ok(truth(compares(Comparison::Le, b, a))),
        Action::CompareGt => Ok(truth(compares(Comparison::Gt, b, a))),
        Action::CompareGe => Ok(truth(compares(Comparison::Ge, b, a))),
        _ => Ok(a),
    }
}

impl Machine {
    /// Whether the modes are in their ranges and the registers are 256.
    pub open spec fn wf(self) -> bool {
        &&& self.registers.len() == 256
        &&& 2 <= self.iradix <= 16
        &&& 2 <= self.oradix <= 16
        &&& self.scale <= u32::MAX
    }

    /// The machine of a new evaluator.
    pub open spec fn new(name: Seq<u8>, flavor: Flavor) -> Machine {
        Machine {
            name,
            flavor,
            stack: Seq::empty(),
            registers: Seq::new(256, |i: int| Seq::<Slot>::empty()),
            scale: 0,
            iradix: 10,
            oradix: 10,
            current_str: Seq::empty(),
            current_num: Draft::empty(),
            input: Seq::empty(),
            budget: u64::MAX as nat,
        }
    }

    /// This machine with another stack.
    pub open spec fn with_stack(self, stack: Seq<Value>) -> Machine {
        Machine { stack, ..self }
    }

    /// This machine with another register `r`.
    pub open spec fn with_register(self, r: u8, slots: Seq<Slot>) -> Machine {
        Machine { registers: self.registers.update(r as int, slots), ..self }
    }

    /// This machine with one value more on the stack.
    pub open spec fn pushed(self, v: Value) -> Machine {
        self.with_stack(self.stack.push(v))
    }

    /// This machine with the top `n` values off the stack.
    pub open spec fn popped(self, n: nat) -> Machine {
        self.with_stack(self.stack.take(self.stack.len() - n))
    }

    /// The value `n` places below the top of the stack; the top is at 0.
    pub open spec fn peek(self, n: nat) -> Value {
        self.stack[self.stack.len() - 1 - n]
    }

    /// A warning or error message of this machine, as it is written.
    pub open spec fn says(self, message: Seq<u8>) -> Seq<u8> {
        report(self.name, message)
    }

    /// The action is done and the program goes on.
    pub open spec fn done(self) -> Effect {
        Effect { machine: self, output: Seq::empty(), result: Ok(Control::Continue) }
    }

    /// The action is done, has written `output`, and the program goes on.
    pub open spec fn wrote(self, output: Seq<u8>) -> Effect {
        Effect { machine: self, output, result: Ok(Control::Continue) }
    }

    /// The action ends with an error, in this state.
    pub open spec fn fails(self, e: DcError) -> Effect {
        Effect { machine: self, output: Seq::empty(), result: Err(e) }
    }

    /// The action asks for a macro to be run.
    pub open spec fn runs(self, text: Seq<u8>) -> Effect {
        Effect { machine: self, output: Seq::empty(), result: Ok(Control::Macro(text)) }
    }

    /// The error for which an operation on the top two values, which must
    /// be numbers, cannot be done, if there is one.
    pub open spec fn two_numbers_error(self) -> Option<DcError> {
        if self.stack.len() < 2 {
            Some(DcError::StackEmpty)
        } else if !(self.peek(1) is Num) {
            Some(DcError::NonNumericValue)
        } else if !(self.peek(0) is Num) {
            Some(DcError::NonNumericValue)
        } else {
            None
        }
    }

    /// An operation that replaces the top two values, which must be
    /// numbers, by one number. Where it cannot be done the stack stays.
    pub open spec fn binary(self, action: Action) -> Effect {
        match self.two_numbers_error() {
            Some(e) => self.fails(e),
            None => match arithmetic(action, self.peek(1)->Num_0, self.peek(0)->Num_0, self.scale) {
                Ok(r) => self.popped(2).pushed(Value::Num(r)).wrote(
                    if action == Action::Exp && self.peek(0)->Num_0.shift != 0 {
                        self.says("warning: non-zero scale in exponent".spec_bytes())
                    } else {
                        Seq::empty()
                    },
                ),
                Err(e) => self.fails(e),
            },
        }
    }

    /// `~`: the top two numbers are replaced by their quotient and, on top
    /// of it, the remainder.
    pub open spec fn div_rem(self) -> Effect {
        match self.two_numbers_error() {
            Some(e) => self.fails(e),
            None => {
                let a = self.peek(1)->Num_0;
                let b = self.peek(0)->Num_0;
                if b.value == 0 {
                    self.fails(DcError::DivideByZero)
                } else if b.shift + self.scale > u32::MAX {
                    self.fails(DcError::ScaleTooBig)
                } else {
                    self.popped(2).pushed(Value::Num(a.div(b, self.scale))).pushed(
                        Value::Num(a.rem(b, self.scale)),
                    ).done()
                }
            },
        }
    }

    /// `|`: the top three values, which must be numbers, are the base, the
    /// exponent and, on top, the modulus; they are replaced by the power
    /// modulo the modulus. The three are looked at in this order, and the
    /// first that will not do gives the error. A number that is no integer
    /// gives a warning and is cut off.
    pub open spec fn mod_exp(self) -> Effect {
        if self.stack.len() < 3 {
            self.fails(DcError::StackEmpty)
        } else if !(self.peek(2) is Num) {
            self.fails(DcError::NonNumericValue)
        } else if !(self.peek(1) is Num) {
            self.fails(DcError::NonNumericValue)
        } else if self.peek(1)->Num_0.value < 0 {
            self.fails(DcError::NegativeExponent)
        } else if !(self.peek(0) is Num) {
            self.fails(DcError::NonNumericValue)
        } else if self.peek(0)->Num_0.trunc() == 0 {
            self.fails(DcError::RemainderByZero)
        } else {
            let base = self.peek(2)->Num_0;
            let exponent = self.peek(1)->Num_0;
            let modulus = self.peek(0)->Num_0;
            self.popped(3).pushed(Value::Num(base.modexp(exponent, modulus))).wrote(
                (if base.shift != 0 {
                    self.says("warning: non-zero scale in base".spec_bytes())
                } else {
                    Seq::empty()
                }) + (if exponent.shift != 0 {
                    self.says("warning: non-zero scale in exponent".spec_bytes())
                } else {
                    Seq::empty()
                }) + (if modulus.shift != 0 {
                    self.says("warning: non-zero scale in modulus".spec_bytes())
                } else {
                    Seq::empty()
                }),
            )
        }
    }

    /// What the register gives to run where a condition holds: its value,
    /// if that is a string. A number is not run, and an empty register is
    /// an error.
    pub open spec fn runs_register(self, r: u8) -> Effect {
        match stack_value(self.registers[r as int]) {
            Some(Value::Str(text)) => self.runs(text),
            Some(Value::Num(n)) => self.done(),
            None => self.fails(DcError::RegisterEmpty(r)),
        }
    }

    /// A conditional: the top two values, which must be numbers, are
    /// compared. Where the comparison holds the register `yes` is run, and
    /// where it fails the register `no`, if there is one. The two numbers
    /// are taken off the stack, unless the register that is to be run is
    /// empty: that is an error, and the numbers stay.
    pub open spec fn conditional(self, kind: Comparison, yes: u8, no: Option<u8>) -> Effect {
        match self.two_numbers_error() {
            Some(e) => self.fails(e),
            None => {
                let chosen = if compares(kind, self.peek(0)->Num_0, self.peek(1)->Num_0) {
                    Some(yes)
                } else {
                    no
                };
                match chosen {
                    None => self.popped(2).done(),
                    Some(r) => if stack_value(self.registers[r as int]) is None {
                        self.fails(DcError::RegisterEmpty(r))
                    } else {
                        self.popped(2).runs_register(r)
                    },
                }
            },
        }
    }

    /// A command on a register.
    pub open spec fn register(self, action: RegisterAction, r: u8) -> Effect {
        let slots = self.registers[r as int];
        match action {
            RegisterAction::Store => if self.stack.len() == 0 {
                self.fails(DcError::StackEmpty)
            } else {
                self.popped(1).with_register(r, stack_set(slots, self.peek(0))).done()
            },
            RegisterAction::Load => match stack_value(slots) {
                Some(v) => self.pushed(v).done(),
                None => self.fails(DcError::RegisterEmpty(r)),
            },
            RegisterAction::PushRegStack => if self.stack.len() == 0 {
                self.fails(DcError::StackEmpty)
            } else {
                self.popped(1).with_register(r, slots.push(Slot::new(Some(self.peek(0))))).done()
            },
            RegisterAction::PopRegStack => match stack_value(slots) {
                Some(v) => self.with_register(r, slots.drop_last()).pushed(v).done(),
                None => self.fails(DcError::StackRegisterEmpty(r)),
            },
            RegisterAction::Comparison(kind) => self.conditional(kind, r, None),
            RegisterAction::StoreRegArray => if self.stack.len() < 2 {
                self.fails(DcError::StackEmpty)
            } else if !valid_key(self.peek(0)) {
                self.fails(DcError::ArrayIndexInvalid)
            } else {
                self.popped(2).with_register(
                    r,
                    stack_array_store(slots, self.peek(0)->Num_0, self.peek(1)),
                ).done()
            },
            RegisterAction::LoadRegArray => if self.stack.len() == 0 {
                self.fails(DcError::StackEmpty)
            } else if !valid_key(self.peek(0)) {
                self.fails(DcError::ArrayIndexInvalid)
            } else {
                self.popped(1).pushed(stack_array_load(slots, self.peek(0)->Num_0)).done()
            },
        }
    }

    /// A command that takes the top of the stack off and looks at it. Where
    /// it will not do, that is the error, and it stays on the stack.
    pub open spec fn unary(self, action: Action) -> Effect {
        if self.stack.len() == 0 {
            self.fails(DcError::StackEmpty)
        } else {
            let rest = self.popped(1);
            match self.peek(0) {
                Value::Num(n) => match action {
                    Action::PrintNoNewlinePop => rest.wrote(shown(self.peek(0), self.oradix)),
                    Action::PrintBytesPop => rest.wrote(
                        magnitude_bytes(abs_int(n.trunc()) as nat),
                    ),
                    Action::Sqrt => if n.value < 0 {
                        self.fails(DcError::SqrtNegative)
                    } else {
                        rest.pushed(Value::Num(n.sqrt(self.scale))).done()
                    },
                    Action::SetInputRadix => if 2 <= n.trunc() <= 16 {
                        Machine { iradix: n.trunc() as nat, ..rest }.done()
                    } else {
                        self.fails(DcError::InputRadixInvalid)
                    },
                    Action::SetOutputRadix => if 2 <= n.trunc() <= 16 {
                        Machine { oradix: n.trunc() as nat, ..rest }.done()
                    } else {
                        self.fails(DcError::OutputRadixInvalid)
                    },
                    Action::SetPrecision => if n.value < 0 {
                        self.fails(DcError::ScaleInvalid)
                    } else if n.trunc() > u32::MAX {
                        self.fails(DcError::ScaleTooBig)
                    } else {
                        Machine { scale: n.trunc() as nat, ..rest }.done()
                    },
                    Action::Asciify => rest.pushed(
                        Value::Str(seq![(abs_int(n.trunc()) % 256) as u8]),
                    ).done(),
                    Action::ExecuteMacro => self.done(),
                    Action::QuitLevels => if n.trunc() < 1 {
                        self.fails(DcError::QuitInvalid)
                    } else if n.trunc() > u32::MAX {
                        self.fails(DcError::QuitTooBig)
                    } else {
                        Effect {
                            machine: rest,
                            output: Seq::empty(),
                            result: Ok(Control::QuitLevels(n.trunc() as u32)),
                        }
                    },
                    Action::NumDigits => rest.pushed(
                        Value::Num(
                            Real::integer(radix_digits(abs_int(n.value) as nat, 10).len() as int),
                        ),
                    ).done(),
                    Action::NumFrxDigits => rest.pushed(
                        Value::Num(Real::integer(n.shift as int)),
                    ).done(),
                    Action::CompareZero => rest.pushed(Value::Num(truth(n.value == 0))).done(),
                    _ => self.done(),
                },
                Value::Str(s) => match action {
                    Action::PrintNoNewlinePop => rest.wrote(s),
                    Action::PrintBytesPop => rest.wrote(s),
                    Action::Sqrt => self.fails(DcError::SqrtNonNumeric),
                    Action::SetInputRadix => self.fails(DcError::InputRadixInvalid),
                    Action::SetOutputRadix => self.fails(DcError::OutputRadixInvalid),
                    Action::SetPrecision => self.fails(DcError::ScaleInvalid),
                    Action::Asciify => rest.pushed(Value::Str(s.take(if s.len() == 0 {
                        0
                    } else {
                        1
                    }))).done(),
                    Action::ExecuteMacro => rest.runs(s),
                    Action::QuitLevels => self.fails(DcError::QuitInvalid),
                    Action::NumDigits => rest.pushed(
                        Value::Num(Real::integer(s.len() as int)),
                    ).done(),
                    Action::NumFrxDigits => rest.pushed(Value::Num(Real::integer(0))).done(),
                    Action::CompareZero => self.fails(DcError::NonNumericValue),
                    _ => self.done(),
                },
            }
        }
    }

    /// What one action does to the machine.
    #[verifier::opaque]
    pub open spec fn step(self, action: Action) -> Effect {
        match action {
            Action::NumberChar(c) => match self.current_num.push(c, self.iradix) {
                Ok(draft) => Machine { current_num: draft, ..self }.done(),
                Err(e) => self.fails(e),
            },
            Action::StringChar(c) => Machine {
                current_str: self.current_str.push(c),
                ..self
            }.done(),
            Action::PushNumber => Machine { current_num: Draft::empty(), ..self }.pushed(
                Value::Num(self.current_num.finish(self.iradix)),
            ).done(),
            Action::PushString => Machine { current_str: Seq::empty(), ..self }.pushed(
                Value::Str(self.current_str),
            ).done(),
            Action::Register(action, r) => self.register(action, r),
            Action::Print => if self.stack.len() == 0 {
                self.fails(DcError::StackEmpty)
            } else {
                self.wrote(shown(self.peek(0), self.oradix) + seq![10u8])
            },
            Action::PrintStack => self.wrote(shown_stack(self.stack, self.oradix)),
            Action::Add | Action::Sub | Action::Mul | Action::Div | Action::Rem | Action::Exp
            | Action::CompareEq | Action::CompareLt | Action::CompareLe | Action::CompareGt
            | Action::CompareGe => self.binary(action),
            Action::DivRem => self.div_rem(),
            Action::ModExp => self.mod_exp(),
            Action::PrintNoNewlinePop | Action::PrintBytesPop | Action::Sqrt
            | Action::SetInputRadix | Action::SetOutputRadix | Action::SetPrecision
            | Action::Asciify | Action::ExecuteMacro | Action::QuitLevels | Action::NumDigits
            | Action::NumFrxDigits | Action::CompareZero => self.unary(action),
            Action::ClearStack => self.with_stack(Seq::empty()).done(),
            Action::Dup => if self.stack.len() == 0 {
                self.done()
            } else {
                self.pushed(self.peek(0)).done()
            },
            Action::Swap => if self.stack.len() < 2 {
                self.fails(DcError::StackEmpty)
            } else {
                self.popped(2).pushed(self.peek(0)).pushed(self.peek(1)).done()
            },
            Action::LoadInputRadix => self.pushed(
                Value::Num(Real::integer(self.iradix as int)),
            ).done(),
            Action::LoadOutputRadix => self.pushed(
                Value::Num(Real::integer(self.oradix as int)),
            ).done(),
            Action::LoadPrecision => self.pushed(
                Value::Num(Real::integer(self.scale as int)),
            ).done(),
            Action::Input => Machine {
                input: self.input.skip(first_line(self.input).len() as int),
                ..self
            }.runs(first_line(self.input)),
            Action::Quit => Effect {
                machine: self,
                output: Seq::empty(),
                result: Ok(Control::Terminate(2)),
            },
            Action::StackDepth => self.pushed(
                Value::Num(Real::integer(self.stack.len() as int)),
            ).done(),
            Action::ShellExec => self.fails(DcError::ShellUnsupported),
            Action::Version => self.pushed(Value::Num(Real::integer(version_number()))).pushed(
                Value::Str("dc4".spec_bytes()),
            ).done(),
            Action::IfElse(kind, yes, no) => self.conditional(kind, yes, Some(no)),
            Action::Eof => self.done(),
            Action::Unimplemented(c) => self.fails(DcError::Unimplemented(c)),
            Action::InputError(fault) => self.fails(DcError::InputError(fault)),
        }
    }
}

/// A number that is being entered, byte by byte.
#[derive(Debug)]
pub struct Number {
    /// The digits so far, read as an integer in the input radix.
    pub int: Integer,
    /// The number of digits after the point, once the point has been seen.
    pub shift: Option<u32>,
    /// Whether a `_` has been seen.
    pub neg: bool,
}

impl View for Number {
    type V = Draft;

    open spec fn view(&self) -> Draft {
        Draft {
            int: self.int@,
            shift: match self.shift {
                Some(s) => Some(s as nat),
                None => None,
            },
            neg: self.neg,
        }
    }
}

impl Default for Number {
    /// Nothing entered yet.
    fn default() -> (r: Self)
        ensures
            r@ == Draft::empty(),
    {
        Number { int: Integer::zero(), shift: None, neg: false }
    }
}

impl Number {
    /// Takes one more byte of the number: `_`, a digit `0`-`9` or `A`-`F`,
    /// or `.`. Any other byte is an error, and so is a digit after the
    /// point for whose count 32 bits are too few; the number then stays as
    /// it was.
    pub fn push(&mut self, c: u8, iradix: u32) -> (r: Result<(), DcError>)
        ensures
            match r {
                Ok(()) => old(self)@.push(c, iradix as nat) == Ok::<Draft, DcError>(final(self)@),
                Err(e) => old(self)@.push(c, iradix as nat) == Err::<Draft, DcError>(e)
                    && final(self)@ == old(self)@,
            },
    {
        if c == 95 {
            self.neg = true;
            Ok(())
        } else if (48 <= c && c <= 57) || (65 <= c && c <= 70) {
            let digit: u64 = if c <= 57 {
                (c - 48) as u64
            } else {
                (c - 55) as u64
            };
            match self.shift {
                Some(s) => {
                    if s == u32::MAX {
                        return Err(DcError::ScaleTooBig);
                    }
                    self.shift = Some(s + 1);
                },
                None => {},
            }
            self.int = self.int.mul(&Integer::from_u64(iradix as u64)).add(
                &Integer::from_u64(digit),
            );
            Ok(())
        } else if c == 46 {
            self.shift = Some(0);
            Ok(())
        } else {
            Err(DcError::UnexpectedNumberChar(c))
        }
    }

    /// The number that was entered.
    pub fn finish(self, iradix: u32) -> (r: DcValue)
        requires
            iradix >= 2,
        ensures
            r@ == Value::Num(self@.finish(iradix as nat)),
    {
        let value = if self.neg {
            self.int.neg()
        } else {
            self.int
        };
        let mut number = BigReal::new(value, 0);
        if let Some(shift) = self.shift {
            if iradix == 10 {
                number.set_shift(shift);
            } else {
                let divisor = BigReal::new(iradix, 0);
                let ghost start = number@;
                let mut i: u32 = 0;
                while i < shift
                    invariant
                        i <= shift,
                        divisor@ == Real::integer(iradix as int),
                        iradix >= 2,
                        divided(number@, divisor@, shift as nat, (shift - i) as nat) == divided(
                            start,
                            divisor@,
                            shift as nat,
                            shift as nat,
                        ),
                    decreases shift - i,
                {
                    number = number.div(&divisor, shift);
                    i += 1;
                }
            }
        }
        DcValue::Num(number)
    }
}

/// The models of the values of a stack.
pub open spec fn stack_view(stack: Seq<DcValue>) -> Seq<Value> {
    stack.map_values(|v: DcValue| v@)
}

/// The evaluator: the stack, the registers, the modes, and the number and
/// the string that are being entered.
#[derive(Debug)]
pub struct Dc4State {
    /// The name that begins each warning and error message.
    pub program_name: Vec<u8>,
    /// The dialect.
    pub flavor: Flavor,
    /// The stack, the top last.
    pub stack: Vec<DcValue>,
    /// The registers.
    pub registers: DcRegisters,
    /// The number of fractional digits that divisions keep.
    pub scale: u32,
    /// The radix in which numbers are entered.
    pub iradix: u32,
    /// The radix in which numbers are printed.
    pub oradix: u32,
    /// The bytes of the string that is being entered.
    pub current_str: Vec<u8>,
    /// The number that is being entered.
    pub current_num: Number,
    /// The standard input, as far as it has been handed over.
    pub input: Vec<u8>,
    /// How much of the standard input has been read.
    pub input_pos: usize,
    /// How many macros may still be run.
    pub budget: u64,
}

impl View for Dc4State {
    type V = Machine;

    open spec fn view(&self) -> Machine {
        Machine {
            name: self.program_name@,
            flavor: self.flavor,
            stack: stack_view(self.stack@),
            registers: self.registers@,
            scale: self.scale as nat,
            iradix: self.iradix as nat,
            oradix: self.oradix as nat,
            current_str: self.current_str@,
            current_num: self.current_num@,
            input: self.input@.skip(self.input_pos as int),
            budget: self.budget as nat,
        }
    }
}

/// Whether what an action did is what `effect` says: `state` is the
/// evaluator after it, `out` the output after it and `before` the output
/// before it, and `r` what the action returned.
pub open spec fn has_effect(
    state: Dc4State,
    before: Seq<u8>,
    out: Seq<u8>,
    r: Result<DcResult, DcError>,
    effect: Effect,
) -> bool {
    &&& state@ == effect.machine
    &&& out == before + effect.output
    &&& match r {
        Ok(control) => effect.result == Ok::<Control, DcError>(control@),
        Err(e) => effect.result == Err::<Control, DcError>(e),
    }
}

impl Dc4State {
    /// Whether the registers are well formed, the radixes are in their
    /// ranges and the place in the standard input is within it.
    pub open spec fn wf(&self) -> bool {
        &&& self.registers.wf()
        &&& 2 <= self.iradix <= 16
        &&& 2 <= self.oradix <= 16
        &&& self.input_pos <= self.input.len()
    }

    /// The model of a well-formed evaluator is a well-formed machine.
    pub proof fn lemma_view_wf(&self)
        requires
            self.wf(),
        ensures
            self@.wf(),
    {
    }

    /// A new evaluator: an empty stack, empty registers, the radixes ten
    /// and the scale zero, and no standard input.
    pub fn new(program_name: String, flavor: Flavor) -> (r: Dc4State)
        ensures
            r.wf(),
            r@ == Machine::new(vstd::utf8::encode_utf8(program_name@), flavor),
    {
        let mut name: Vec<u8> = Vec::new();
        push_text(&mut name, program_name.as_str());
        let r = Dc4State {
            program_name: name,
            flavor,
            stack: Vec::new(),
            registers: DcRegisters::new(),
            scale: 0,
            iradix: 10,
            oradix: 10,
            current_str: Vec::new(),
            current_num: Number::default(),
            input: Vec::new(),
            input_pos: 0,
            budget: u64::MAX,
        };
        assert(r@.stack =~= Seq::empty());
        assert(r@.input =~= Seq::empty());
        assert(r@.name =~= vstd::utf8::encode_utf8(program_name@));
        r
    }

    /// Hands over more of the standard input, for `?` to read.
    pub fn feed_input(&mut self, bytes: &Vec<u8>)
        requires
            old(self).wf(),
        ensures
            final(self).wf(),
            final(self)@ == (Machine { input: old(self)@.input + bytes@, ..old(self)@ }),
    {
        push_all(&mut self.input, bytes);
        assert(self@.input =~= old(self)@.input + bytes@);
    }

    /// Sets how many macros may still be run.
    pub fn set_budget(&mut self, budget: u64)
        requires
            old(self).wf(),
        ensures
            final(self).wf(),
            final(self)@ == (Machine { budget: budget as nat, ..old(self)@ }),
    {
        self.budget = budget;
    }

    /// Puts a value on the stack.
    fn push_value(&mut self, v: DcValue)
        requires
            old(self).wf(),
        ensures
            final(self).wf(),
            final(self)@ == old(self)@.pushed(v@),
            final(self).stack.len() == old(self).stack.len() + 1,
    {
        self.stack.push(v);
        assert(self@.stack =~= old(self)@.stack.push(v@));
    }

    /// Puts back an operand that would not do, and gives the error.
    fn refuse(&mut self, operand: DcValue, e: DcError) -> (r: Result<DcResult, DcError>)
        requires
            old(self).wf(),
        ensures
            final(self).wf(),
            final(self)@ == old(self)@.pushed(operand@),
            r == Err::<DcResult, DcError>(e),
    {
        self.push_value(operand);
        Err(e)
    }

    /// Whether the value on top of the stack, which is not empty, can be
    /// the key of an array.
    fn top_is_key(&self) -> (r: bool)
        requires
            self.stack.len() > 0,
        ensures
            r == valid_key(self@.peek(0)),
    {
        match &self.stack[self.stack.len() - 1] {
            DcValue::Num(n) => !n.is_negative() && n.is_integer(),
            DcValue::Str(_) => false,
        }
    }

    /// Takes the top value off the stack.
    fn pop_value(&mut self) -> (v: DcValue)
        requires
            old(self).wf(),
            old(self).stack.len() > 0,
        ensures
            final(self).wf(),
            final(self)@ == old(self)@.popped(1),
            final(self).stack.len() == old(self).stack.len() - 1,
            v@ == old(self)@.peek(0),
    {
        let v = match self.stack.pop() {
            Some(v) => v,
            None => DcValue::Str(Vec::new()),
        };
        assert(self@.stack =~= old(self)@.stack.take(old(self)@.stack.len() - 1));
        v
    }

    /// Writes a value as it is printed.
    fn print_elem(&self, elem: &DcValue, w: &mut Vec<u8>)
        requires
            self.wf(),
        ensures
            final(w)@ == old(w)@ + shown(elem@, self.oradix as nat),
    {
        match elem {
            DcValue::Num(n) => {
                if n.is_zero() {
                    w.push(48);
                    assert(w@ =~= old(w)@ + shown(elem@, self.oradix as nat));
                } else {
                    let text = n.to_str_radix(self.oradix);
                    push_uppercase(w, &text);
                }
            },
            DcValue::Str(s) => {
                push_all(w, s);
            },
        }
    }

    /// Writes a warning or error message on a line of its own, after the
    /// name of the program.
    pub fn error(&self, w: &mut Vec<u8>, message: &Vec<u8>)
        ensures
            final(w)@ == old(w)@ + self@.says(message@),
    {
        push_all(w, &self.program_name);
        w.push(58);
        w.push(32);
        push_all(w, message);
        w.push(10);
        assert(w@ =~= old(w)@ + self@.says(message@));
    }

    /// Writes a warning, given as text, as [`Dc4State::error`] does.
    fn warn(&self, w: &mut Vec<u8>, message: &str)
        ensures
            final(w)@ == old(w)@ + self@.says(message.spec_bytes()),
    {
        let mut text: Vec<u8> = Vec::new();
        push_text(&mut text, message);
        self.error(w, &text);
    }
}

/// Whether the comparison holds of the top of the stack and the value
/// below it.
fn compare(kind: Comparison, top: &BigReal, below: &BigReal) -> (r: bool)
    ensures
        r == compares(kind, top@, below@),
{
    match kind {
        Comparison::Gt => below.less_than(top),
        Comparison::Le => !below.less_than(top),
        Comparison::Lt => top.less_than(below),
        Comparison::Ge => !top.less_than(below),
        Comparison::Eq => top.equals(below),
        Comparison::Ne => !top.equals(below),
    }
}

/// One for true and zero for false.
fn truth_value(b: bool) -> (r: BigReal)
    ensures
        r@ == truth(b),
{
    if b {
        BigReal::from_u64(1)
    } else {
        BigReal::from_u64(0)
    }
}

/// Whether the action is an operation on two numbers that leaves one.
pub open spec fn is_binary(action: Action) -> bool {
    action == Action::Add || action == Action::Sub || action == Action::Mul || action
        == Action::Div || action == Action::Rem || action == Action::Exp || action
        == Action::CompareEq || action == Action::CompareLt || action == Action::CompareLe
        || action == Action::CompareGt || action == Action::CompareGe
}

/// The operation on the number `a` below the top and the number `b` on top.
fn compute(action: Action, a: &BigReal, b: &BigReal, scale: u32) -> (r: Result<BigReal, DcError>)
    requires
        is_binary(action),
    ensures
        match r {
            Ok(n) => arithmetic(action, a@, b@, scale as nat) == Ok::<Real, DcError>(n@),
            Err(e) => arithmetic(action, a@, b@, scale as nat) == Err::<Real, DcError>(e),
        },
{
    match action {
        Action::Add => Ok(a.add(b)),
        Action::Sub => Ok(a.sub(b)),
        Action::Mul => {
            if a.num_frx_digits() as u64 + b.num_frx_digits() as u64 > u32::MAX as u64 {
                Err(DcError::ScaleTooBig)
            } else {
                Ok(a.mul(b))
            }
        },
        Action::Div => {
            if b.is_zero() {
                Err(DcError::DivideByZero)
            } else {
                Ok(a.div(b, scale))
            }
        },
        Action::Rem => {
            if b.is_zero() {
                Err(DcError::RemainderByZero)
            } else if b.num_frx_digits() as u64 + scale as u64 > u32::MAX as u64 {
                Err(DcError::ScaleTooBig)
            } else {
                Ok(a.rem(b, scale))
            }
        },
        Action::Exp => {
            let exponent = b.to_int();
            let needed = Integer::from_u64(a.num_frx_digits() as u64).mul(&exponent.abs());
            if Integer::from_u64(u32::MAX as u64).less_than(&needed) {
                Err(DcError::ScaleTooBig)
            } else if exponent.is_negative() && a.is_zero() {
                Err(DcError::DivideByZero)
            } else {
                Ok(a.pow(b, scale))
            }
        },
        Action::CompareEq => Ok(truth_value(compare(Comparison::Eq, b, a))),
        Action::CompareLt => Ok(truth_value(compare(Comparison::Lt, b, a))),
        Action::CompareLe => Ok(truth_value(compare(Comparison::Le, b, a))),
        Action::CompareGt => Ok(truth_value(compare(Comparison::Gt, b, a))),
        Action::CompareGe => Ok(truth_value(compare(Comparison::Ge, b, a))),
        _ => Ok(a.clone()),
    }
}

impl Dc4State {
    /// The number below the top of the stack and the number on top.
    fn get_two_ints(&self) -> (r: Result<(&BigReal, &BigReal), DcError>)
        ensures
            match r {
                Ok((a, b)) => self@.two_numbers_error() is None && self@.peek(1) == Value::Num(a@)
                    && self@.peek(0) == Value::Num(b@),
                Err(e) => self@.two_numbers_error() == Some(e),
            },
    {
        let len = self.stack.len();
        if len < 2 {
            return Err(DcError::StackEmpty);
        }
        let a = match &self.stack[len - 2] {
            DcValue::Num(n) => n,
            DcValue::Str(_) => {
                return Err(DcError::NonNumericValue);
            },
        };
        let b = match &self.stack[len - 1] {
            DcValue::Num(n) => n,
            DcValue::Str(_) => {
                return Err(DcError::NonNumericValue);
            },
        };
        Ok((a, b))
    }

    /// An operation that replaces the top two values, which must be
    /// numbers, by one number.
    fn binary_operator(&mut self, action: Action, w: &mut Vec<u8>) -> (r: Result<DcResult, DcError>)
        requires
            old(self).wf(),
            is_binary(action),
        ensures
            final(self).wf(),
            has_effect(*final(self), old(w)@, final(w)@, r, old(self)@.binary(action)),
    {
        let (value, warn) = {
            let (a, b) = match self.get_two_ints() {
                Ok(pair) => pair,
                Err(e) => {
                    assert(w@ =~= old(w)@ + Seq::<u8>::empty());
                    return Err(e);
                },
            };
            let warn = match action {
                Action::Exp => !b.is_integer(),
                _ => false,
            };
            match compute(action, a, b, self.scale) {
                Ok(value) => (value, warn),
                Err(e) => {
                    assert(w@ =~= old(w)@ + Seq::<u8>::empty());
                    return Err(e);
                },
            }
        };
        let _b = self.pop_value();
        let _a = self.pop_value();
        self.push_value(DcValue::Num(value));
        assert(self@.stack =~= old(self)@.popped(2).pushed(Value::Num(value@)).stack);
        if warn {
            self.warn(w, "warning: non-zero scale in exponent");
            assert(self@.name == old(self)@.name);
        } else {
            assert(w@ =~= old(w)@ + Seq::<u8>::empty());
        }
        Ok(DcResult::Continue)
    }

    /// `~`: the top two numbers are replaced by their quotient and, on top
    /// of it, the remainder.
    fn div_rem_operator(&mut self, w: &mut Vec<u8>) -> (r: Result<DcResult, DcError>)
        requires
            old(self).wf(),
        ensures
            final(self).wf(),
            has_effect(*final(self), old(w)@, final(w)@, r, old(self)@.div_rem()),
            final(w)@ == old(w)@,
    {
        assert(w@ =~= old(w)@ + Seq::<u8>::empty());
        let (quotient, remainder) = {
            let (a, b) = match self.get_two_ints() {
                Ok(pair) => pair,
                Err(e) => {
                    return Err(e);
                },
            };
            if b.is_zero() {
                return Err(DcError::DivideByZero);
            }
            if b.num_frx_digits() as u64 + self.scale as u64 > u32::MAX as u64 {
                return Err(DcError::ScaleTooBig);
            }
            a.div_rem(b, self.scale)
        };
        let _b = self.pop_value();
        let _a = self.pop_value();
        self.push_value(DcValue::Num(quotient));
        self.push_value(DcValue::Num(remainder));
        assert(self@.stack =~= old(self)@.popped(2).pushed(Value::Num(quotient@)).pushed(
            Value::Num(remainder@),
        ).stack);
        Ok(DcResult::Continue)
    }
}

impl Dc4State {
    /// `|`: the top three values are replaced by the power of the first to
    /// the second modulo the third.
    fn mod_exp_operator(&mut self, w: &mut Vec<u8>) -> (r: Result<DcResult, DcError>)
        requires
            old(self).wf(),
        ensures
            final(self).wf(),
            has_effect(*final(self), old(w)@, final(w)@, r, old(self)@.mod_exp()),
    {
        assert(w@ =~= old(w)@ + Seq::<u8>::empty());
        let len = self.stack.len();
        if len < 3 {
            return Err(DcError::StackEmpty);
        }
        let (power, warn_base, warn_exponent, warn_modulus) = {
            let base = match &self.stack[len - 3] {
                DcValue::Num(n) => n,
                DcValue::Str(_) => {
                    return Err(DcError::NonNumericValue);
                },
            };
            let exponent = match &self.stack[len - 2] {
                DcValue::Num(n) => n,
                DcValue::Str(_) => {
                    return Err(DcError::NonNumericValue);
                },
            };
            if exponent.is_negative() {
                return Err(DcError::NegativeExponent);
            }
            let modulus = match &self.stack[len - 1] {
                DcValue::Num(n) => n,
                DcValue::Str(_) => {
                    return Err(DcError::NonNumericValue);
                },
            };
            if modulus.to_int().is_zero() {
                return Err(DcError::RemainderByZero);
            }
            let power = match BigReal::modexp(base, exponent, modulus, self.scale) {
                Some(power) => power,
                None => BigReal::zero(),
            };
            (power, !base.is_integer(), !exponent.is_integer(), !modulus.is_integer())
        };
        let _modulus = self.pop_value();
        let _exponent = self.pop_value();
        let _base = self.pop_value();
        self.push_value(DcValue::Num(power));
        assert(self@.stack =~= old(self)@.popped(3).pushed(Value::Num(power@)).stack);
        let ghost w0 = w@;
        if warn_base {
            self.warn(w, "warning: non-zero scale in base");
        }
        let ghost w1 = w@;
        if warn_exponent {
            self.warn(w, "warning: non-zero scale in exponent");
        }
        let ghost w2 = w@;
        if warn_modulus {
            self.warn(w, "warning: non-zero scale in modulus");
        }
        proof {
            assert(self@.name == old(self)@.name);
            assert(w1 =~= w0 + (w1.skip(w0.len() as int)));
            assert(w@ =~= old(w)@ + old(self)@.mod_exp().output);
        }
        Ok(DcResult::Continue)
    }

    /// What the register gives to run where a condition holds.
    fn run_register(&self, r: u8) -> (result: Result<DcResult, DcError>)
        requires
            self.wf(),
        ensures
            match result {
                Ok(control) => self@.runs_register(r).result == Ok::<Control, DcError>(control@),
                Err(e) => self@.runs_register(r).result == Err::<Control, DcError>(e),
            },
    {
        match self.registers.get(r).value() {
            Some(DcValue::Str(text)) => Ok(DcResult::Macro(text.clone())),
            Some(DcValue::Num(_)) => Ok(DcResult::Continue),
            None => Err(DcError::RegisterEmpty(r)),
        }
    }

    /// A conditional: the top two values, which must be numbers, are taken
    /// off and compared; the register `yes` is run where the comparison
    /// holds, and the register `no`, if there is one, where it fails.
    fn cond_macro(&mut self, kind: Comparison, yes: u8, no: Option<u8>) -> (r: Result<
        DcResult,
        DcError,
    >)
        requires
            old(self).wf(),
        ensures
            final(self).wf(),
            has_effect(
                *final(self),
                Seq::empty(),
                Seq::empty(),
                r,
                old(self)@.conditional(kind, yes, no),
            ),
    {
        let holds = {
            let (a, b) = match self.get_two_ints() {
                Ok(pair) => pair,
                Err(e) => {
                    return Err(e);
                },
            };
            compare(kind, b, a)
        };
        let chosen = if holds {
            Some(yes)
        } else {
            no
        };
        // What the register gives is looked at first: if it is empty the
        // numbers stay where they are.
        let result = match chosen {
            Some(register) => match self.run_register(register) {
                Ok(result) => result,
                Err(e) => {
                    return Err(e);
                },
            },
            None => DcResult::Continue,
        };
        let _b = self.pop_value();
        let _a = self.pop_value();
        assert(self@.stack =~= old(self)@.popped(2).stack);
        Ok(result)
    }
}

impl Dc4State {
    /// A command on a register.
    fn register_action(&mut self, action: RegisterAction, register: u8) -> (r: Result<
        DcResult,
        DcError,
    >)
        requires
            old(self).wf(),
        ensures
            final(self).wf(),
            has_effect(
                *final(self),
                Seq::empty(),
                Seq::empty(),
                r,
                old(self)@.register(action, register),
            ),
    {
        let ghost slots = self@.registers[register as int];
        match action {
            RegisterAction::Store => {
                if self.stack.len() == 0 {
                    return Err(DcError::StackEmpty);
                }
                let value = self.pop_value();
                self.registers.get_mut(register).set(value);
                assert(self@.registers =~= old(self)@.registers.update(
                    register as int,
                    stack_set(slots, value@),
                ));
                Ok(DcResult::Continue)
            },
            RegisterAction::Load => {
                let value = match self.registers.get(register).value() {
                    Some(value) => value.clone(),
                    None => {
                        return Err(DcError::RegisterEmpty(register));
                    },
                };
                self.push_value(value);
                Ok(DcResult::Continue)
            },
            RegisterAction::PushRegStack => {
                if self.stack.len() == 0 {
                    return Err(DcError::StackEmpty);
                }
                let value = self.pop_value();
                self.registers.get_mut(register).push(value);
                assert(self@.registers =~= old(self)@.registers.update(
                    register as int,
                    slots.push(Slot::new(Some(value@))),
                ));
                Ok(DcResult::Continue)
            },
            RegisterAction::PopRegStack => {
                if self.registers.get(register).value().is_none() {
                    return Err(DcError::StackRegisterEmpty(register));
                }
                let popped = self.registers.get_mut(register).pop();
                proof {
                    assert(self@.registers =~= old(self)@.registers.update(
                        register as int,
                        slots.drop_last(),
                    ));
                }
                match popped {
                    Some(value) => {
                        self.push_value(value);
                        Ok(DcResult::Continue)
                    },
                    None => Ok(DcResult::Continue),
                }
            },
            RegisterAction::Comparison(kind) => self.cond_macro(kind, register, None),
            RegisterAction::StoreRegArray => {
                if self.stack.len() < 2 {
                    return Err(DcError::StackEmpty);
                }
                if !self.top_is_key() {
                    return Err(DcError::ArrayIndexInvalid);
                }
                let key = self.pop_value();
                let value = self.pop_value();
                assert(self@.stack =~= old(self)@.popped(2).stack);
                if let DcValue::Num(n) = key {
                    self.registers.get_mut(register).array_store(n, value);
                    assert(self@.registers =~= old(self)@.registers.update(
                        register as int,
                        stack_array_store(slots, n@, value@),
                    ));
                }
                Ok(DcResult::Continue)
            },
            RegisterAction::LoadRegArray => {
                if self.stack.len() == 0 {
                    return Err(DcError::StackEmpty);
                }
                if !self.top_is_key() {
                    return Err(DcError::ArrayIndexInvalid);
                }
                let key = self.pop_value();
                if let DcValue::Num(n) = key {
                    let value = self.registers.get(register).array_load(&n);
                    self.push_value(value);
                }
                Ok(DcResult::Continue)
            },
        }
    }
}

/// Whether the action takes the top of the stack off and looks at it.
pub open spec fn is_unary(action: Action) -> bool {
    action == Action::PrintNoNewlinePop || action == Action::PrintBytesPop || action
        == Action::Sqrt || action == Action::SetInputRadix || action == Action::SetOutputRadix
        || action == Action::SetPrecision || action == Action::Asciify || action
        == Action::ExecuteMacro || action == Action::QuitLevels || action == Action::NumDigits
        || action == Action::NumFrxDigits || action == Action::CompareZero
}

/// The first line of a text ends with its first line feed, or with the
/// text.
pub proof fn lemma_first_line(text: Seq<u8>, k: int)
    requires
        0 <= k <= text.len(),
        forall|i: int| 0 <= i < k ==> text[i] != 10,
        k == text.len() || text[k] == 10,
    ensures
        first_line(text) == text.take(
            if k == text.len() {
                k
            } else {
                k + 1
            },
        ),
    decreases text.len(),
{
    if text.len() == 0 {
        assert(text.take(0) =~= Seq::<u8>::empty());
    } else if text[0] == 10 {
        assert(k == 0);
        assert(text.take(1) =~= seq![10u8]);
    } else {
        let rest = text.drop_first();
        assert forall|i: int| 0 <= i < k - 1 implies rest[i] != 10 by {
            assert(rest[i] == text[i + 1]);
        }
        lemma_first_line(rest, k - 1);
        let n = if k == text.len() {
            k
        } else {
            k + 1
        };
        assert(text.take(n) =~= seq![text[0]] + rest.take(n - 1));
    }
}

/// The last of the bytes of a number is the number modulo 256.
pub proof fn lemma_magnitude_bytes_last(n: nat)
    ensures
        magnitude_bytes(n).len() >= 1,
        magnitude_bytes(n).last() == (n % 256) as u8,
{
}

impl Dc4State {
    /// A command that takes the top of the stack off and looks at it.
    fn unary_action(&mut self, action: Action, w: &mut Vec<u8>) -> (r: Result<DcResult, DcError>)
        requires
            old(self).wf(),
            is_unary(action),
        ensures
            final(self).wf(),
            has_effect(*final(self), old(w)@, final(w)@, r, old(self)@.unary(action)),
    {
        assert(w@ =~= old(w)@ + Seq::<u8>::empty());
        let len = self.stack.len();
        if len == 0 {
            return Err(DcError::StackEmpty);
        }
        match action {
            Action::CompareZero => {
                if let DcValue::Str(_) = &self.stack[len - 1] {
                    return Err(DcError::NonNumericValue);
                }
            },
            Action::ExecuteMacro => {
                if let DcValue::Num(_) = &self.stack[len - 1] {
                    return Ok(DcResult::Continue);
                }
            },
            _ => {},
        }
        let top = self.pop_value();
        proof {
            // With the top put back the machine is as it was.
            assert(old(self)@.popped(1).pushed(old(self)@.peek(0)).stack =~= old(self)@.stack);
        }
        match action {
            Action::PrintNoNewlinePop => {
                self.print_elem(&top, w);
                Ok(DcResult::Continue)
            },
            Action::PrintBytesPop => {
                match top {
                    DcValue::Str(s) => {
                        push_all(w, &s);
                    },
                    DcValue::Num(n) => {
                        let bytes = n.to_int().to_bytes_be();
                        push_all(w, &bytes);
                    },
                }
                Ok(DcResult::Continue)
            },
            Action::Sqrt => match top {
                DcValue::Num(n) => match n.sqrt(self.scale) {
                    Some(root) => {
                        self.push_value(DcValue::Num(root));
                        Ok(DcResult::Continue)
                    },
                    None => self.refuse(DcValue::Num(n), DcError::SqrtNegative),
                },
                DcValue::Str(s) => self.refuse(DcValue::Str(s), DcError::SqrtNonNumeric),
            },
            Action::SetInputRadix => match top {
                DcValue::Num(n) => match n.to_u32() {
                    Some(radix) => {
                        if 2 <= radix && radix <= 16 {
                            self.iradix = radix;
                            Ok(DcResult::Continue)
                        } else {
                            self.refuse(DcValue::Num(n), DcError::InputRadixInvalid)
                        }
                    },
                    None => self.refuse(DcValue::Num(n), DcError::InputRadixInvalid),
                },
                DcValue::Str(s) => self.refuse(DcValue::Str(s), DcError::InputRadixInvalid),
            },
            Action::SetOutputRadix => match top {
                DcValue::Num(n) => match n.to_u32() {
                    Some(radix) => {
                        if 2 <= radix && radix <= 16 {
                            self.oradix = radix;
                            Ok(DcResult::Continue)
                        } else {
                            self.refuse(DcValue::Num(n), DcError::OutputRadixInvalid)
                        }
                    },
                    None => self.refuse(DcValue::Num(n), DcError::OutputRadixInvalid),
                },
                DcValue::Str(s) => self.refuse(DcValue::Str(s), DcError::OutputRadixInvalid),
            },
            Action::SetPrecision => match top {
                DcValue::Num(n) => {
                    if n.is_negative() {
                        return self.refuse(DcValue::Num(n), DcError::ScaleInvalid);
                    }
                    proof {
                        crate::big_real::lemma_trunc_sign(n@);
                    }
                    match n.to_u32() {
                        Some(scale) => {
                            self.scale = scale;
                            Ok(DcResult::Continue)
                        },
                        None => self.refuse(DcValue::Num(n), DcError::ScaleTooBig),
                    }
                },
                DcValue::Str(s) => self.refuse(DcValue::Str(s), DcError::ScaleInvalid),
            },
            Action::Asciify => {
                match top {
                    DcValue::Str(s) => {
                        let mut s = s;
                        s.truncate(1);
                        assert(s@ =~= top@->Str_0.take(
                            if top@->Str_0.len() == 0 {
                                0
                            } else {
                                1
                            },
                        ));
                        self.push_value(DcValue::Str(s));
                    },
                    DcValue::Num(n) => {
                        let bytes = n.to_int().to_bytes_be();
                        proof {
                            lemma_magnitude_bytes_last(abs_int(n@.trunc()) as nat);
                        }
                        let mut s: Vec<u8> = Vec::new();
                        s.push(bytes[bytes.len() - 1]);
                        assert(s@ =~= seq![(abs_int(n@.trunc()) % 256) as u8]);
                        self.push_value(DcValue::Str(s));
                    },
                }
                Ok(DcResult::Continue)
            },
            Action::ExecuteMacro => match top {
                DcValue::Str(text) => Ok(DcResult::Macro(text)),
                DcValue::Num(n) => {
                    self.push_value(DcValue::Num(n));
                    Ok(DcResult::Continue)
                },
            },
            Action::QuitLevels => match top {
                DcValue::Num(n) => {
                    let levels = n.to_int();
                    if !levels.is_positive() {
                        return self.refuse(DcValue::Num(n), DcError::QuitInvalid);
                    }
                    match levels.to_u32() {
                        Some(levels) => Ok(DcResult::QuitLevels(levels)),
                        None => self.refuse(DcValue::Num(n), DcError::QuitTooBig),
                    }
                },
                DcValue::Str(s) => self.refuse(DcValue::Str(s), DcError::QuitInvalid),
            },
            Action::NumDigits => {
                let count = match top {
                    DcValue::Num(n) => n.num_digits(),
                    DcValue::Str(s) => s.len(),
                };
                self.push_value(DcValue::Num(BigReal::new(count, 0)));
                Ok(DcResult::Continue)
            },
            Action::NumFrxDigits => {
                let count = match top {
                    DcValue::Num(n) => n.num_frx_digits(),
                    DcValue::Str(_) => 0,
                };
                self.push_value(DcValue::Num(BigReal::new(count, 0)));
                Ok(DcResult::Continue)
            },
            Action::CompareZero => match top {
                DcValue::Num(n) => {
                    self.push_value(DcValue::Num(truth_value(n.is_zero())));
                    Ok(DcResult::Continue)
                },
                DcValue::Str(s) => self.refuse(DcValue::Str(s), DcError::NonNumericValue),
            },
            _ => {
                self.push_value(top);
                Ok(DcResult::Continue)
            },
        }
    }
}

impl Dc4State {
    /// `?`: takes the next line of the standard input, to be run as a
    /// macro.
    fn read_line(&mut self) -> (line: Vec<u8>)
        requires
            old(self).wf(),
        ensures
            final(self).wf(),
            line@ == first_line(old(self)@.input),
            final(self)@ == (Machine {
                input: old(self)@.input.skip(first_line(old(self)@.input).len() as int),
                ..old(self)@
            }),
    {
        let start = self.input_pos;
        let len = self.input.len();
        let ghost rest = self.input@.skip(start as int);
        let mut line: Vec<u8> = Vec::new();
        let mut end = start;
        while end < len && self.input[end] != 10
            invariant
                start <= end <= len,
                len == self.input.len(),
                rest == self.input@.skip(start as int),
                line@ == rest.take(end - start),
                forall|i: int| 0 <= i < end - start ==> rest[i] != 10,
            decreases len - end,
        {
            line.push(self.input[end]);
            end += 1;
            assert(line@ =~= rest.take(end - start));
        }
        if end < len {
            line.push(10);
            end += 1;
            assert(line@ =~= rest.take(end - start));
            proof {
                lemma_first_line(rest, end - start - 1);
            }
        } else {
            proof {
                lemma_first_line(rest, end - start);
            }
        }
        self.input_pos = end;
        assert(self@.input =~= rest.skip(line@.len() as int));
        line
    }

    /// Performs the action. What it prints, and the warnings, are appended
    /// to `w`. An error is returned to the caller and not written.
    pub fn action(&mut self, action: Action, w: &mut Vec<u8>) -> (r: Result<DcResult, DcError>)
        requires
            old(self).wf(),
        ensures
            final(self).wf(),
            has_effect(*final(self), old(w)@, final(w)@, r, old(self)@.step(action)),
    {
        reveal(Machine::step);
        assert(w@ =~= old(w)@ + Seq::<u8>::empty());
        match action {
            Action::NumberChar(c) => {
                match self.current_num.push(c, self.iradix) {
                    Ok(()) => Ok(DcResult::Continue),
                    Err(e) => Err(e),
                }
            },
            Action::StringChar(c) => {
                self.current_str.push(c);
                Ok(DcResult::Continue)
            },
            Action::PushNumber => {
                let mut number = Number::default();
                core::mem::swap(&mut number, &mut self.current_num);
                let value = number.finish(self.iradix);
                self.push_value(value);
                Ok(DcResult::Continue)
            },
            Action::PushString => {
                let mut text: Vec<u8> = Vec::new();
                core::mem::swap(&mut text, &mut self.current_str);
                self.push_value(DcValue::Str(text));
                Ok(DcResult::Continue)
            },
            Action::Register(action, register) => self.register_action(action, register),
            Action::Print => {
                let len = self.stack.len();
                if len == 0 {
                    return Err(DcError::StackEmpty);
                }
                self.print_elem(&self.stack[len - 1], w);
                w.push(10);
                assert(w@ =~= old(w)@ + (shown(self@.peek(0), self@.oradix) + seq![10u8]));
                Ok(DcResult::Continue)
            },
            Action::PrintStack => {
                let mut i = self.stack.len();
                proof {
                    assert(self@.stack.take(i as int) =~= self@.stack);
                }
                while i > 0
                    invariant
                        self.wf(),
                        i <= self.stack.len(),
                        old(w)@ + shown_stack(self@.stack, self@.oradix) == w@ + shown_stack(
                            self@.stack.take(i as int),
                            self@.oradix,
                        ),
                    decreases i,
                {
                    let ghost before = w@;
                    proof {
                        assert(self@.stack.take(i as int).drop_last() =~= self@.stack.take(i - 1));
                        assert(self@.stack.take(i as int).last() == self.stack[i - 1]@);
                    }
                    self.print_elem(&self.stack[i - 1], w);
                    w.push(10);
                    i -= 1;
                    proof {
                        assert(w@ + shown_stack(self@.stack.take(i as int), self@.oradix) =~= before
                            + shown_stack(self@.stack.take(i + 1), self@.oradix));
                    }
                }
                proof {
                    assert(self@.stack.take(0) =~= Seq::<Value>::empty());
                    assert(w@ =~= old(w)@ + shown_stack(self@.stack, self@.oradix));
                }
                Ok(DcResult::Continue)
            },
            Action::Add | Action::Sub | Action::Mul | Action::Div | Action::Rem | Action::Exp
            | Action::CompareEq | Action::CompareLt | Action::CompareLe | Action::CompareGt
            | Action::CompareGe => self.binary_operator(action, w),
            Action::DivRem => self.div_rem_operator(w),
            Action::ModExp => self.mod_exp_operator(w),
            Action::PrintNoNewlinePop | Action::PrintBytesPop | Action::Sqrt
            | Action::SetInputRadix | Action::SetOutputRadix | Action::SetPrecision
            | Action::Asciify | Action::ExecuteMacro | Action::QuitLevels | Action::NumDigits
            | Action::NumFrxDigits | Action::CompareZero => self.unary_action(action, w),
            Action::ClearStack => {
                self.stack.clear();
                assert(self@.stack =~= Seq::<Value>::empty());
                Ok(DcResult::Continue)
            },
            Action::Dup => {
                let len = self.stack.len();
                if len > 0 {
                    let value = self.stack[len - 1].clone();
                    self.push_value(value);
                }
                Ok(DcResult::Continue)
            },
            Action::Swap => {
                if self.stack.len() < 2 {
                    return Err(DcError::StackEmpty);
                }
                let top = self.pop_value();
                let below = self.pop_value();
                self.push_value(top);
                self.push_value(below);
                assert(self@.stack =~= old(self)@.popped(2).pushed(old(self)@.peek(0)).pushed(
                    old(self)@.peek(1),
                ).stack);
                Ok(DcResult::Continue)
            },
            Action::LoadInputRadix => {
                self.push_value(DcValue::Num(BigReal::new(self.iradix, 0)));
                Ok(DcResult::Continue)
            },
            Action::LoadOutputRadix => {
                self.push_value(DcValue::Num(BigReal::new(self.oradix, 0)));
                Ok(DcResult::Continue)
            },
            Action::LoadPrecision => {
                self.push_value(DcValue::Num(BigReal::new(self.scale, 0)));
                Ok(DcResult::Continue)
            },
            Action::Input => {
                let line = self.read_line();
                Ok(DcResult::Macro(line))
            },
            Action::Quit => Ok(DcResult::Terminate(2)),
            Action::StackDepth => {
                let depth = self.stack.len();
                self.push_value(DcValue::Num(BigReal::new(depth, 0)));
                Ok(DcResult::Continue)
            },
            Action::ShellExec => Err(DcError::ShellUnsupported),
            Action::Version => {
                let version = VERSION_MAJOR * 16777216 + VERSION_MINOR * 65536 + VERSION_PATCH;
                self.push_value(DcValue::Num(BigReal::new(version, 0)));
                let mut name: Vec<u8> = Vec::new();
                push_text(&mut name, "dc4");
                self.push_value(DcValue::Str(name));
                Ok(DcResult::Continue)
            },
            Action::IfElse(kind, yes, no) => self.cond_macro(kind, yes, Some(no)),
            Action::Eof => Ok(DcResult::Continue),
            Action::Unimplemented(c) => Err(DcError::Unimplemented(c)),
            Action::InputError(fault) => Err(DcError::InputError(fault)),
        }
    }
}

/// The text of a number as the parser takes it: a minus sign at its
/// beginning becomes the `_` that marks a negative number.
pub open spec fn sign_mapped(text: Seq<u8>) -> Seq<u8> {
    if text.len() > 0 && text[0] == 45 {
        text.update(0, 95u8)
    } else {
        text
    }
}

/// The number that a text stands for in the input radix, or the error for
/// the first byte that cannot stand in a number.
pub open spec fn entered(text: Seq<u8>, iradix: nat) -> Result<Real, DcError> {
    match Draft::empty().push_all(sign_mapped(text), iradix) {
        Ok(draft) => Ok(draft.finish(iradix)),
        Err(e) => Err(e),
    }
}

impl Dc4State {
    /// Puts the number that the text stands for on the stack. The text is
    /// what a number is in a program, and may also begin with a minus sign.
    /// If a byte of it cannot stand in a number, that is the error, and
    /// the stack stays as it was.
    pub fn push_number(&mut self, input: &Vec<u8>) -> (r: Result<(), DcError>)
        requires
            old(self).wf(),
        ensures
            final(self).wf(),
            match r {
                Ok(()) => {
                    &&& entered(input@, old(self)@.iradix) is Ok
                    &&& final(self)@ == old(self)@.pushed(
                        Value::Num(entered(input@, old(self)@.iradix)->Ok_0),
                    )
                },
                Err(e) => {
                    &&& entered(input@, old(self)@.iradix) == Err::<Real, DcError>(e)
                    &&& final(self)@ == old(self)@
                },
            },
    {
        let mut number = Number::default();
        let ghost text = sign_mapped(input@);
        let mut i: usize = 0;
        proof {
            assert(text.skip(0) =~= text);
        }
        while i < input.len()
            invariant
                i <= input.len(),
                text == sign_mapped(input@),
                *self == *old(self),
                self.wf(),
                Draft::empty().push_all(text, self.iradix as nat) == number@.push_all(
                    text.skip(i as int),
                    self.iradix as nat,
                ),
            decreases input.len() - i,
        {
            let c = if i == 0 && input[i] == 45 {
                95
            } else {
                input[i]
            };
            proof {
                assert(text.skip(i as int)[0] == c);
                assert(text.skip(i as int).drop_first() =~= text.skip(i + 1));
            }
            match number.push(c, self.iradix) {
                Ok(()) => {},
                Err(e) => {
                    return Err(e);
                },
            }
            i += 1;
        }
        let value = number.finish(self.iradix);
        self.push_value(value);
        Ok(())
    }

    /// Puts a string on the stack.
    pub fn push_string(&mut self, string: Vec<u8>)
        requires
            old(self).wf(),
        ensures
            final(self).wf(),
            final(self)@ == old(self)@.pushed(Value::Str(string@)),
    {
        self.push_value(DcValue::Str(string));
    }
}

/// An action that ends with an error has done nothing: it has written
/// nothing, and the stack, with the operands that would not do, and all the
/// rest of the machine are as they were.
pub proof fn lemma_errors_leave_stack(m: Machine, action: Action)
    requires
        m.step(action).result is Err,
    ensures
        m.step(action).machine.stack == m.stack,
        m.step(action).machine == m,
        m.step(action).output == Seq::<u8>::empty(),
{
    reveal(Machine::step);
}

/// The radixes stay in their range, 2 to 16, and the scale within 32 bits,
/// whatever the action; and each of the three is changed by its own command
/// alone.
pub proof fn lemma_modes_stay(m: Machine, action: Action)
    requires
        m.wf(),
    ensures
        m.step(action).machine.wf(),
        action != Action::SetInputRadix ==> m.step(action).machine.iradix == m.iradix,
        action != Action::SetOutputRadix ==> m.step(action).machine.oradix == m.oradix,
        action != Action::SetPrecision ==> m.step(action).machine.scale == m.scale,
{
    reveal(Machine::step);
    if m.stack.len() > 0 {
        match m.peek(0) {
            Value::Num(n) => {
                crate::big_real::lemma_trunc_sign(n);
            },
            Value::Str(s) => {},
        }
    }
    assert(m.step(action).machine.registers.len() == 256);
}

/// A slot that is pushed onto a register hides the array of the slot below
/// it, and the pop of the slot brings it back: after `S`, a store into the
/// array with `:` and `L`, all on the register `r`, the register is as it
/// was before, with the arrays of all its slots, and the value that was
/// pushed is back on the stack.
pub proof fn lemma_pushed_slot_keeps_arrays(m: Machine, r: u8, key: Real, value: Value)
    requires
        m.wf(),
        m.stack.len() > 0,
        key.value >= 0,
        key.shift == 0,
    ensures
        ({
            let pushed = m.register(RegisterAction::PushRegStack, r).machine;
            let stored = pushed.pushed(value).pushed(Value::Num(key)).register(
                RegisterAction::StoreRegArray,
                r,
            ).machine;
            let popped = stored.register(RegisterAction::PopRegStack, r);
            &&& popped.result == Ok::<Control, DcError>(Control::Continue)
            &&& popped.machine.registers == m.registers
            &&& popped.machine.stack == m.stack
        }),
{
    let slots = m.registers[r as int];
    let pushed = m.register(RegisterAction::PushRegStack, r).machine;
    let loaded = pushed.pushed(value).pushed(Value::Num(key));
    let stored = loaded.register(RegisterAction::StoreRegArray, r).machine;
    let popped = stored.register(RegisterAction::PopRegStack, r);
    crate::dcregisters::lemma_array_slot_locality(slots, m.peek(0), key, value);
    assert(loaded.popped(2).stack =~= pushed.stack);
    assert(popped.machine.registers =~= m.registers);
    assert(popped.machine.stack =~= m.stack);
}

/// Entering a text is entering its first part and then the rest.
pub proof fn lemma_push_all_concat(d: Draft, a: Seq<u8>, b: Seq<u8>, iradix: nat)
    ensures
        d.push_all(a + b, iradix) == (match d.push_all(a, iradix) {
            Ok(next) => next.push_all(b, iradix),
            Err(e) => Err(e),
        }),
    decreases a.len(),
{
    if a.len() == 0 {
        assert(a + b =~= b);
    } else {
        assert((a + b)[0] == a[0]);
        assert((a + b).drop_first() =~= a.drop_first() + b);
        match d.push(a[0], iradix) {
            Ok(next) => {
                lemma_push_all_concat(next, a.drop_first(), b, iradix);
            },
            Err(e) => {},
        }
    }
}

/// The digits of a number, in capitals, are digits of a number, and
/// entered into an empty draft they give the number.
pub proof fn lemma_digits_enter(v: nat, iradix: nat, d: Draft)
    requires
        2 <= iradix <= 16,
        d.shift is None,
        d.int == 0,
    ensures
        uppercase(radix_digits(v, iradix)).len() >= 1,
        forall|i: int|
            0 <= i < uppercase(radix_digits(v, iradix)).len() ==> is_digit(
                #[trigger] uppercase(radix_digits(v, iradix))[i],
            ),
        d.push_all(uppercase(radix_digits(v, iradix)), iradix) == Ok::<Draft, DcError>(
            Draft { int: v as int, ..d },
        ),
    decreases v,
{
    let last = digit_char((v % iradix) as int);
    let c = upper(last);
    assert(is_digit(c) && digit_value(c) == v % iradix);
    if v < iradix {
        let text = uppercase(radix_digits(v, iradix));
        vstd::arithmetic::div_mod::lemma_small_mod(v, iradix);
        assert(text =~= seq![c]);
        assert(text.drop_first() =~= Seq::<u8>::empty());
        let entered = Draft { int: v as int, ..d };
        assert(d.push(c, iradix) == Ok::<Draft, DcError>(entered));
        assert(entered.push_all(Seq::<u8>::empty(), iradix) == Ok::<Draft, DcError>(entered));
    } else {
        let front = radix_digits(v / iradix, iradix);
        assert(v / iradix < v) by (nonlinear_arith)
            requires
                iradix >= 2,
                v >= iradix,
        ;
        lemma_digits_enter(v / iradix, iradix, d);
        assert(uppercase(radix_digits(v, iradix)) =~= uppercase(front) + seq![c]);
        lemma_push_all_concat(d, uppercase(front), seq![c], iradix);
        let mid = Draft { int: (v / iradix) as int, ..d };
        assert(seq![c].drop_first() =~= Seq::<u8>::empty());
        assert((Draft { int: v as int, ..d }).push_all(Seq::<u8>::empty(), iradix) == Ok::<
            Draft,
            DcError,
        >(Draft { int: v as int, ..d }));
        vstd::arithmetic::div_mod::lemma_fundamental_div_mod(v as int, iradix as int);
        assert((v / iradix) * iradix + v % iradix == v) by (nonlinear_arith)
            requires
                v == iradix * (v / iradix) + v % iradix,
        ;
        assert(mid.push(c, iradix) == Ok::<Draft, DcError>(Draft { int: v as int, ..d }));
    }
}

/// An integer that is printed in a radix from 2 to 16 and entered again in
/// that radix is the same integer.
pub proof fn lemma_radix_round_trip(n: int, radix: nat)
    requires
        2 <= radix <= 16,
    ensures
        entered(shown(Value::Num(Real::integer(n)), radix), radix) == Ok::<Real, DcError>(
            Real::integer(n),
        ),
{
    let printed = shown(Value::Num(Real::integer(n)), radix);
    let magnitude = abs_int(n) as nat;
    let digits = uppercase(radix_digits(magnitude, radix));
    lemma_digits_enter(magnitude, radix, Draft::empty());
    if n == 0 {
        assert(radix_digits(0, radix) =~= seq![48u8]);
        assert(printed =~= digits);
        assert(sign_mapped(printed) == printed);
    } else if n > 0 {
        assert(Real::integer(n).text(radix) =~= radix_digits(magnitude, radix));
        assert(printed =~= digits);
        assert(is_digit(digits[0]));
        assert(sign_mapped(printed) == printed);
    } else {
        assert(Real::integer(n).text(radix) =~= seq![45u8] + radix_digits(magnitude, radix));
        assert(printed =~= seq![45u8] + digits);
        assert(sign_mapped(printed) =~= seq![95u8] + digits);
        let negative = Draft { neg: true, ..Draft::empty() };
        lemma_push_all_concat(Draft::empty(), seq![95u8], digits, radix);
        assert(seq![95u8].drop_first() =~= Seq::<u8>::empty());
        assert(Draft::empty().push(95u8, radix) == Ok::<Draft, DcError>(negative));
        assert(negative.push_all(Seq::<u8>::empty(), radix) == Ok::<Draft, DcError>(negative));
        assert(Draft::empty().push_all(seq![95u8], radix) == Ok::<Draft, DcError>(negative));
        lemma_digits_enter(magnitude, radix, negative);
    }
}

} // verus!
