use dc4::parser::Action;
use dc4::parser::Comparison;
use dc4::parser::InputFault;
use dc4::parser::RegisterAction;
use dc4::state::Dc4State;
use dc4::state::Number;
use dc4::Dc4;
use dc4::DcError;
use dc4::DcResult;
use dc4::DcValue;
use dc4::Flavor;

fn run(expr: &[u8]) -> String {
    run_as(Flavor::Gnu, expr)
}

fn run_as(flavor: Flavor, expr: &[u8]) -> String {
    let mut dc = Dc4::new("dc4".to_string(), flavor);
    let mut out = Vec::new();
    dc.text(expr.to_vec(), &mut out);
    String::from_utf8(out).unwrap()
}

/// Runs the program and then the action, and returns the error of the action and the stack
/// before and after it, as `f` prints them.
fn error_of(program: &[u8], action: Action) -> (DcError, String, String) {
    let mut dc = Dc4::new("dc4".to_string(), Flavor::Bsd);
    let mut out = Vec::new();
    dc.text(program.to_vec(), &mut out);
    assert!(out.is_empty());
    let mut before = Vec::new();
    dc.action(Action::PrintStack, &mut before).unwrap();
    let mut written = Vec::new();
    let error = dc.action(action, &mut written).unwrap_err();
    assert!(written.is_empty());
    let mut after = Vec::new();
    dc.action(Action::PrintStack, &mut after).unwrap();
    (error, String::from_utf8(before).unwrap(), String::from_utf8(after).unwrap())
}

fn neutral(program: &[u8], action: Action, expected: DcError) {
    let (error, before, after) = error_of(program, action);
    assert_eq!(error, expected);
    assert_eq!(before, after);
}

#[test]
fn errors_of_arithmetic_leave_the_stack() {
    neutral(b"", Action::Add, DcError::StackEmpty);
    neutral(b"1", Action::Sub, DcError::StackEmpty);
    neutral(b"1[a]", Action::Mul, DcError::NonNumericValue);
    neutral(b"[a]1", Action::Div, DcError::NonNumericValue);
    neutral(b"1 0", Action::Div, DcError::DivideByZero);
    neutral(b"1 0", Action::Rem, DcError::RemainderByZero);
    neutral(b"1 0.0", Action::DivRem, DcError::DivideByZero);
    neutral(b"0 _1", Action::Exp, DcError::DivideByZero);
    neutral(b"1.5 4294967296", Action::Exp, DcError::ScaleTooBig);
    neutral(b"1.5 _4294967296", Action::Exp, DcError::ScaleTooBig);
    neutral(b"1 2", Action::ModExp, DcError::StackEmpty);
    neutral(b"[a] 1 2", Action::ModExp, DcError::NonNumericValue);
    neutral(b"1 _1 [a]", Action::ModExp, DcError::NegativeExponent);
    neutral(b"1 2 0", Action::ModExp, DcError::RemainderByZero);
    neutral(b"1 2 .5", Action::ModExp, DcError::RemainderByZero);
    neutral(b"1 2 [a]", Action::ModExp, DcError::NonNumericValue);
    neutral(b"1", Action::Swap, DcError::StackEmpty);
    neutral(b"", Action::Print, DcError::StackEmpty);
    neutral(b"[a] 1", Action::CompareEq, DcError::NonNumericValue);
    neutral(b"1 [a]", Action::CompareZero, DcError::NonNumericValue);
}

#[test]
fn errors_of_commands_that_find_nothing_leave_the_stack() {
    neutral(b"1", Action::Register(RegisterAction::Load, b'x'), DcError::RegisterEmpty(b'x'));
    neutral(
        b"1",
        Action::Register(RegisterAction::PopRegStack, b'x'),
        DcError::StackRegisterEmpty(b'x'),
    );
    neutral(b"", Action::Register(RegisterAction::Store, b'x'), DcError::StackEmpty);
    neutral(b"", Action::Register(RegisterAction::PushRegStack, b'x'), DcError::StackEmpty);
    neutral(b"1", Action::Register(RegisterAction::StoreRegArray, b'x'), DcError::StackEmpty);
    neutral(b"", Action::Register(RegisterAction::LoadRegArray, b'x'), DcError::StackEmpty);
    neutral(
        b"1",
        Action::Register(RegisterAction::Comparison(Comparison::Eq), b'x'),
        DcError::StackEmpty,
    );
    neutral(b"1 [a]", Action::IfElse(Comparison::Eq, b'x', b'y'), DcError::NonNumericValue);
    neutral(b"1", Action::ShellExec, DcError::ShellUnsupported);
    neutral(b"1", Action::Unimplemented(b'y'), DcError::Unimplemented(b'y'));
    neutral(
        b"1",
        Action::InputError(InputFault::UnexpectedEof),
        DcError::InputError(InputFault::UnexpectedEof),
    );
    neutral(b"1", Action::NumberChar(b'x'), DcError::UnexpectedNumberChar(b'x'));
    for action in [
        Action::Sqrt,
        Action::SetInputRadix,
        Action::SetOutputRadix,
        Action::SetPrecision,
        Action::QuitLevels,
        Action::PrintNoNewlinePop,
        Action::PrintBytesPop,
        Action::Asciify,
        Action::ExecuteMacro,
        Action::NumDigits,
        Action::NumFrxDigits,
        Action::CompareZero,
    ] {
        neutral(b"", action, DcError::StackEmpty);
    }
}

#[test]
fn errors_that_reject_an_operand_leave_it() {
    neutral(b"7 _25", Action::Sqrt, DcError::SqrtNegative);
    neutral(b"7 [a]", Action::Sqrt, DcError::SqrtNonNumeric);
    neutral(b"7 1", Action::SetInputRadix, DcError::InputRadixInvalid);
    neutral(b"7 17", Action::SetInputRadix, DcError::InputRadixInvalid);
    neutral(b"7 [a]", Action::SetInputRadix, DcError::InputRadixInvalid);
    neutral(b"7 1", Action::SetOutputRadix, DcError::OutputRadixInvalid);
    neutral(b"7 17", Action::SetOutputRadix, DcError::OutputRadixInvalid);
    neutral(b"7 4294967296", Action::SetOutputRadix, DcError::OutputRadixInvalid);
    neutral(b"7 [a]", Action::SetOutputRadix, DcError::OutputRadixInvalid);
    neutral(b"7 _1", Action::SetPrecision, DcError::ScaleInvalid);
    neutral(b"7 [a]", Action::SetPrecision, DcError::ScaleInvalid);
    neutral(b"7 4294967296", Action::SetPrecision, DcError::ScaleTooBig);
    neutral(b"7 0", Action::QuitLevels, DcError::QuitInvalid);
    neutral(b"7 .5", Action::QuitLevels, DcError::QuitInvalid);
    neutral(b"7 [a]", Action::QuitLevels, DcError::QuitInvalid);
    neutral(b"7 4294967296", Action::QuitLevels, DcError::QuitTooBig);
    neutral(
        b"7 8 _1",
        Action::Register(RegisterAction::StoreRegArray, b'x'),
        DcError::ArrayIndexInvalid,
    );
    neutral(
        b"7 8 1.5",
        Action::Register(RegisterAction::StoreRegArray, b'x'),
        DcError::ArrayIndexInvalid,
    );
    neutral(
        b"7 8 [a]",
        Action::Register(RegisterAction::StoreRegArray, b'x'),
        DcError::ArrayIndexInvalid,
    );
    neutral(
        b"7 _1",
        Action::Register(RegisterAction::LoadRegArray, b'x'),
        DcError::ArrayIndexInvalid,
    );
    neutral(
        b"7 1 1",
        Action::Register(RegisterAction::Comparison(Comparison::Eq), b'x'),
        DcError::RegisterEmpty(b'x'),
    );
    neutral(b"7 1 2", Action::IfElse(Comparison::Eq, b'x', b'y'), DcError::RegisterEmpty(b'y'));
    neutral(b"[a]sy 7 1 1", Action::IfElse(Comparison::Eq, b'x', b'y'), DcError::RegisterEmpty(b'x'));
}

#[test]
fn the_operand_that_was_refused_is_there_for_the_next_command() {
    assert_eq!(run(b"_25 v 5+p"), "dc4: square root of negative number\n-20\n");
    assert_eq!(run(b"17o p 16o p"), "dc4: output base must be a number between 2 and 16 (inclusive)\n17\n11\n");
    assert_eq!(run(b"O p 17o c O p"), "10\ndc4: output base must be a number between 2 and 16 (inclusive)\n10\n");
}

#[test]
fn a_slot_without_a_value_is_not_popped() {
    // The store into the array makes a slot without a value: there is nothing to pop, and
    // the slot stays with its array.
    assert_eq!(
        run(b"5 0:x Lx 0;x p"),
        "dc4: stack register 'x' (0170) is empty\n5\n"
    );
}

#[test]
fn messages() {
    let text = |e: DcError| String::from_utf8(e.message()).unwrap();
    assert_eq!(text(DcError::ArrayIndexInvalid), "array index must be a nonnegative integer");
    assert_eq!(text(DcError::DivideByZero), "divide by zero");
    assert_eq!(
        text(DcError::InputError(InputFault::UnexpectedEof)),
        "error reading input: unexpected end of input"
    );
    assert_eq!(
        text(DcError::InputRadixInvalid),
        "input base must be a number between 2 and 16 (inclusive)"
    );
    assert_eq!(text(DcError::NegativeExponent), "negative exponent");
    assert_eq!(text(DcError::NonNumericValue), "non-numeric value");
    assert_eq!(
        text(DcError::OutputRadixInvalid),
        "output base must be a number between 2 and 16 (inclusive)"
    );
    assert_eq!(text(DcError::QuitInvalid), "Q command requires a number >= 1");
    assert_eq!(text(DcError::QuitTooBig), "quit levels out of range (must fit into 32 bits)");
    assert_eq!(text(DcError::RegisterEmpty(b'x')), "register 'x' (0170) is empty");
    assert_eq!(text(DcError::RegisterEmpty(0)), "register '\0' (00) is empty");
    assert_eq!(text(DcError::RegisterEmpty(7)), "register '\u{7}' (07) is empty");
    assert_eq!(text(DcError::RegisterEmpty(8)), "register '\u{8}' (010) is empty");
    assert_eq!(text(DcError::RegisterEmpty(0xe9)), "register '\u{e9}' (0351) is empty");
    assert_eq!(text(DcError::RemainderByZero), "remainder by zero");
    assert_eq!(text(DcError::ScaleInvalid), "scale must be a nonnegative integer");
    assert_eq!(text(DcError::ScaleTooBig), "scale must fit into 32 bits");
    assert_eq!(text(DcError::ShellUnsupported), "running shell commands is not supported");
    assert_eq!(text(DcError::SqrtNegative), "square root of negative number");
    assert_eq!(text(DcError::SqrtNonNumeric), "square root of nonnumeric attempted");
    assert_eq!(text(DcError::StackEmpty), "stack empty");
    assert_eq!(text(DcError::StackRegisterEmpty(b'!')), "stack register '!' (041) is empty");
    assert_eq!(
        text(DcError::UnexpectedNumberChar(b'x')),
        "unexpected character in number: 'x'"
    );
    assert_eq!(text(DcError::Unimplemented(b'\n')), "'\\n' (012) unimplemented");
    assert_eq!(text(DcError::Unimplemented(b'\'')), "'\\'' (047) unimplemented");
    assert_eq!(text(DcError::Unimplemented(0xff)), "'\u{ff}' (0377) unimplemented");
    assert_eq!(
        String::from_utf8(DcError::Unimplemented(b'y').message_with(&b"<y>".to_vec())).unwrap(),
        "<y> (0171) unimplemented"
    );
    assert_eq!(
        String::from_utf8(DcError::StackEmpty.message_with(&b"<y>".to_vec())).unwrap(),
        "stack empty"
    );
}

#[test]
fn numbers_that_are_printed_are_read_back() {
    for radix in 2..=16u32 {
        for n in [0i64, 1, -1, 9, 10, 15, 16, 17, 255, -255, 65535, 1234567890123, i64::MIN] {
            let mut dc = Dc4::new("dc4".to_string(), Flavor::Gnu);
            let mut out = Vec::new();
            dc.push_number(&n.to_string().into_bytes()).unwrap();
            dc.push_number(&radix.to_string().into_bytes()).unwrap();
            dc.action(Action::SetOutputRadix, &mut out).unwrap();
            dc.push_number(&radix.to_string().into_bytes()).unwrap();
            dc.action(Action::SetInputRadix, &mut out).unwrap();
            dc.action(Action::PrintNoNewlinePop, &mut out).unwrap();
            // What was printed in the radix is read in the radix.
            let printed = out.clone();
            dc.push_number(&printed).unwrap();
            // In every radix the digit A is ten.
            dc.push_number(&b"A".to_vec()).unwrap();
            dc.action(Action::SetOutputRadix, &mut out).unwrap();
            let mut back = Vec::new();
            dc.action(Action::PrintNoNewlinePop, &mut back).unwrap();
            assert_eq!(String::from_utf8(back).unwrap(), n.to_string());
        }
    }
}

#[test]
fn push_number_and_push_string() {
    let mut dc = Dc4::new("dc4".to_string(), Flavor::Gnu);
    let mut out = Vec::new();
    dc.push_number(&b"-12.50".to_vec()).unwrap();
    dc.push_number(&b"_3".to_vec()).unwrap();
    dc.push_string(b"text".to_vec());
    assert_eq!(dc.push_number(&b"1-2".to_vec()), Err(DcError::UnexpectedNumberChar(b'-')));
    assert_eq!(dc.push_number(&b"12x".to_vec()), Err(DcError::UnexpectedNumberChar(b'x')));
    dc.push_number(&b"".to_vec()).unwrap();
    dc.action(Action::PrintStack, &mut out).unwrap();
    assert_eq!(String::from_utf8(out).unwrap(), "0\ntext\n-3\n-12.50\n");
}

#[test]
fn the_number_builder() {
    let mut number = Number::default();
    number.push(b'_', 16).unwrap();
    number.push(b'F', 16).unwrap();
    number.push(b'F', 16).unwrap();
    assert_eq!(number.push(b'g', 16), Err(DcError::UnexpectedNumberChar(b'g')));
    match number.finish(16) {
        DcValue::Num(n) => assert_eq!(n.to_str_radix(10), b"-255"),
        DcValue::Str(_) => panic!("a number was entered"),
    }
    let mut fraction = Number::default();
    for c in b"1.F0" {
        fraction.push(*c, 16).unwrap();
    }
    match fraction.finish(16) {
        DcValue::Num(n) => assert_eq!(n.to_str_radix(10), b"1.93"),
        DcValue::Str(_) => panic!("a number was entered"),
    }
}

#[test]
fn actions_end_with_the_first_error() {
    let mut dc = Dc4::new("dc4".to_string(), Flavor::Gnu);
    let mut out = Vec::new();
    let program = vec![
        Action::NumberChar(b'7'),
        Action::PushNumber,
        Action::Print,
        Action::Add,
        Action::Print,
    ];
    assert_eq!(dc.actions(&program, &mut out).unwrap_err(), DcError::StackEmpty);
    assert_eq!(out, b"7\n");
}

#[test]
fn a_quit_of_levels_does_not_end_the_top_level() {
    let mut dc = Dc4::new("dc4".to_string(), Flavor::Gnu);
    let mut out = Vec::new();
    let program = vec![
        Action::NumberChar(b'3'),
        Action::PushNumber,
        Action::QuitLevels,
        Action::StackDepth,
        Action::Print,
    ];
    assert!(matches!(dc.actions(&program, &mut out), Ok(DcResult::Continue)));
    assert_eq!(out, b"0\n");
    let mut out = Vec::new();
    assert!(matches!(dc.stream(b"9Q [on]p q [off]p".to_vec(), &mut out), DcResult::Terminate(2)));
    assert_eq!(out, b"on\n");
}

#[test]
fn actions_run_the_macros_they_ask_for() {
    let mut dc = Dc4::new("dc4".to_string(), Flavor::Gnu);
    let mut out = Vec::new();
    dc.push_string(b"[in]p q [never]p".to_vec());
    let program = vec![Action::ExecuteMacro, Action::StackDepth, Action::Print];
    assert!(matches!(dc.actions(&program, &mut out), Ok(DcResult::Terminate(1))));
    assert_eq!(out, b"in\n");
}

#[test]
fn stream_reports_errors_and_goes_on() {
    let mut dc = Dc4::new("dc4".to_string(), Flavor::Gnu);
    let mut out = Vec::new();
    assert!(matches!(dc.stream(b"1 0/ 2+p s".to_vec(), &mut out), DcResult::Continue));
    assert_eq!(
        String::from_utf8(out).unwrap(),
        "dc4: divide by zero\n2\ndc4: error reading input: unexpected end of input\n"
    );
}

#[test]
fn a_quit_leaves_as_many_levels_as_it_counts() {
    // Three macros deep, a quit of n levels leaves n of them.
    assert_eq!(run(b"[[[1Q 1p]x 2p]x 3p]x 4p"), "2\n3\n4\n");
    assert_eq!(run(b"[[[2Q 1p]x 2p]x 3p]x 4p"), "3\n4\n");
    assert_eq!(run(b"[[[3Q 1p]x 2p]x 3p]x 4p"), "4\n");
    // The text itself is a level, and the quit ends there at the most.
    assert_eq!(run(b"[[[4Q 1p]x 2p]x 3p]x 4p"), "");
    assert_eq!(run(b"[[[9Q 1p]x 2p]x 3p]x 4p"), "");
}

#[test]
fn a_macro_at_the_end_runs_as_one_in_the_middle_does() {
    // The same macros, invoked as the last action of a text and before a command that
    // does nothing.
    for program in [&b"[1p]sa [2p lax]sb [3p lbx"[..], &b"[1p 1Q 9p]sa [2p lax"[..]] {
        let mut at_end = program.to_vec();
        at_end.extend_from_slice(b"]x 4p");
        let mut in_the_middle = program.to_vec();
        in_the_middle.extend_from_slice(b" ]x 4p");
        assert_eq!(run(&at_end), run(&in_the_middle));
    }
    assert_eq!(run(b"[1p]sa [2p lax]sb [3p lbx]x 4p"), "3\n2\n1\n4\n");
}

#[test]
fn the_budget_of_macros() {
    let mut state = Dc4State::new("dc4".to_string(), Flavor::Gnu);
    let mut out = Vec::new();
    state.set_budget(3);
    // A macro that prints and invokes itself for ever.
    assert!(matches!(state.run_macro(b"[1p lxx]dsxx [end]p".to_vec(), &mut out), DcResult::Continue));
    assert_eq!(out, b"1\n1\n1\nend\n");
    assert_eq!(state.budget, 0);
}

#[test]
fn input_is_read_line_by_line() {
    let mut state = Dc4State::new("dc4".to_string(), Flavor::Gnu);
    let mut out = Vec::new();
    state.feed_input(&b"1 2+p\n[second]p".to_vec());
    state.run_macro(b"? ? ? [done]p".to_vec(), &mut out);
    assert_eq!(out, b"3\nsecond\ndone\n");
}

#[test]
fn printing() {
    assert_eq!(run(b"0.000p"), "0\n");
    assert_eq!(run(b"16o 255.5p"), "FF.8\n");
    assert_eq!(run(b"0P"), "\0");
    assert_eq!(run(b"256 65*66+P"), "AB");
    assert_eq!(run(b"[a]P[b]n"), "ab");
    assert_eq!(run(b"1 2 3 f"), "3\n2\n1\n");
}

#[test]
fn modes() {
    assert_eq!(run(b"I O K f"), "0\n10\n10\n");
    assert_eq!(run(b"5k 2i 11o K I O f"), "10\n2\n12\n");
    assert_eq!(run(b"16.9i 10 p"), "16\n");
    assert_eq!(run(b"z p c z p"), "0\n0\n");
    assert_eq!(run(b"1 2 z p"), "2\n");
}

#[test]
fn asciify_takes_the_low_byte() {
    assert_eq!(run(b"65 a p"), "A\n");
    assert_eq!(run(b"321.7 a p"), "A\n");
    assert_eq!(run(b"_65 a p"), "A\n");
    assert_eq!(run(b"[xyz] a p"), "x\n");
}

#[test]
fn the_else_branch_is_run_where_the_comparison_fails() {
    assert_eq!(run_as(Flavor::Bsd, b"[[y]p]sy [[n]p]sn 1 2 <yen"), "n\n");
    assert_eq!(run_as(Flavor::Bsd, b"[[y]p]sy [[n]p]sn 2 1 <yen"), "y\n");
    assert_eq!(run_as(Flavor::Bsd, b"5sn 1 2 <yen 7p"), "7\n");
    assert_eq!(run_as(Flavor::Bsd, b"0N p 5N p"), "1\n0\n");
}
