use dc4::parser::Action;
use dc4::parser::Comparison;
use dc4::parser::InputFault;
use dc4::parser::ParseState;
use dc4::parser::Parser;
use dc4::parser::RegisterAction;
use dc4::reader_parser::ReaderParser;
use dc4::Flavor;

fn parse(flavor: Flavor, text: &[u8]) -> Vec<Action> {
    let mut reader = ReaderParser::new(text.to_vec());
    reader.set_flavor(flavor);
    let mut actions = Vec::new();
    while let Some(action) = reader.next() {
        actions.push(action);
    }
    actions
}

#[test]
fn a_number_is_ended_by_the_next_command() {
    assert_eq!(
        parse(Flavor::Gnu, b"16f"),
        vec![
            Action::NumberChar(b'1'),
            Action::NumberChar(b'6'),
            Action::PushNumber,
            Action::PrintStack
        ]
    );
    assert_eq!(
        parse(Flavor::Gnu, b"1.2.3"),
        vec![
            Action::NumberChar(b'1'),
            Action::NumberChar(b'.'),
            Action::NumberChar(b'2'),
            Action::PushNumber,
            Action::NumberChar(b'.'),
            Action::NumberChar(b'3'),
            Action::PushNumber
        ]
    );
    assert_eq!(
        parse(Flavor::Gnu, b"1_2"),
        vec![
            Action::NumberChar(b'1'),
            Action::PushNumber,
            Action::NumberChar(b'_'),
            Action::NumberChar(b'2'),
            Action::PushNumber
        ]
    );
}

#[test]
fn a_given_back_byte_is_issued_again() {
    let mut parser = Parser::default();
    let mut input = Some(b'1');
    assert_eq!(parser.step(&mut input), Some(Action::NumberChar(b'1')));
    assert_eq!(input, None);
    let mut input = Some(b'p');
    assert_eq!(parser.step(&mut input), Some(Action::PushNumber));
    assert_eq!(input, Some(b'p'));
    assert_eq!(parser.state, ParseState::Start);
    assert_eq!(parser.step(&mut input), Some(Action::Print));
    assert_eq!(input, None);
    assert_eq!(parser.step(&mut input), Some(Action::Eof));
}

#[test]
fn strings_nest_and_escape() {
    assert_eq!(
        parse(Flavor::Gnu, b"[a[b]\\]]"),
        vec![
            Action::StringChar(b'a'),
            Action::StringChar(b'['),
            Action::StringChar(b'b'),
            Action::StringChar(b']'),
            Action::StringChar(b']'),
            Action::PushString
        ]
    );
    assert_eq!(parse(Flavor::Gnu, b"[ab"), vec![
        Action::StringChar(b'a'),
        Action::StringChar(b'b'),
        Action::PushString
    ]);
    assert_eq!(parse(Flavor::Gnu, b"[]"), vec![Action::PushString]);
}

#[test]
fn register_commands_take_any_byte() {
    assert_eq!(
        parse(Flavor::Gnu, b"s#l\nS[L!:;;:"),
        vec![
            Action::Register(RegisterAction::Store, b'#'),
            Action::Register(RegisterAction::Load, b'\n'),
            Action::Register(RegisterAction::PushRegStack, b'['),
            Action::Register(RegisterAction::PopRegStack, b'!'),
            Action::Register(RegisterAction::StoreRegArray, b';'),
            Action::Register(RegisterAction::LoadRegArray, b':')
        ]
    );
    assert_eq!(parse(Flavor::Gnu, b"s"), vec![Action::InputError(InputFault::UnexpectedEof)]);
}

#[test]
fn comparisons_and_their_negations() {
    assert_eq!(
        parse(Flavor::Gnu, b"<a>b=c!<d!>e!=f"),
        vec![
            Action::Register(RegisterAction::Comparison(Comparison::Lt), b'a'),
            Action::Register(RegisterAction::Comparison(Comparison::Gt), b'b'),
            Action::Register(RegisterAction::Comparison(Comparison::Eq), b'c'),
            Action::Register(RegisterAction::Comparison(Comparison::Ge), b'd'),
            Action::Register(RegisterAction::Comparison(Comparison::Le), b'e'),
            Action::Register(RegisterAction::Comparison(Comparison::Ne), b'f')
        ]
    );
}

#[test]
fn the_else_branch_belongs_to_the_later_dialects() {
    assert_eq!(
        parse(Flavor::Gnu, b"=xey"),
        vec![
            Action::Register(RegisterAction::Comparison(Comparison::Eq), b'x'),
            Action::Unimplemented(b'e'),
            Action::Unimplemented(b'y')
        ]
    );
    assert_eq!(parse(Flavor::Bsd, b"=xey"), vec![Action::IfElse(Comparison::Eq, b'x', b'y')]);
    assert_eq!(
        parse(Flavor::Bsd, b"=xp"),
        vec![Action::Register(RegisterAction::Comparison(Comparison::Eq), b'x'), Action::Print]
    );
    assert_eq!(
        parse(Flavor::Gavin, b"!=x"),
        vec![Action::Register(RegisterAction::Comparison(Comparison::Ne), b'x')]
    );
    assert_eq!(parse(Flavor::Bsd, b"=xe"), vec![Action::InputError(InputFault::UnexpectedEof)]);
}

#[test]
fn the_later_dialects_add_commands() {
    assert_eq!(
        parse(Flavor::Gnu, b"GN({)}"),
        vec![
            Action::Unimplemented(b'G'),
            Action::Unimplemented(b'N'),
            Action::Unimplemented(b'('),
            Action::Unimplemented(b'{'),
            Action::Unimplemented(b')'),
            Action::Unimplemented(b'}')
        ]
    );
    assert_eq!(
        parse(Flavor::Bsd, b"GN({)}"),
        vec![
            Action::CompareEq,
            Action::CompareZero,
            Action::CompareLt,
            Action::CompareLe,
            Action::Unimplemented(b')'),
            Action::Unimplemented(b'}')
        ]
    );
    assert_eq!(
        parse(Flavor::Gavin, b"GN({)}"),
        vec![
            Action::CompareEq,
            Action::CompareZero,
            Action::CompareLt,
            Action::CompareLe,
            Action::CompareGt,
            Action::CompareGe
        ]
    );
}

#[test]
fn comments_and_shell_commands_run_to_the_end_of_the_line() {
    assert_eq!(parse(Flavor::Gnu, b"p# f\nn"), vec![Action::Print, Action::PrintNoNewlinePop]);
    assert_eq!(parse(Flavor::Gnu, b"! ls\np"), vec![Action::ShellExec, Action::Print]);
    assert_eq!(parse(Flavor::Gnu, b"!ls"), vec![Action::ShellExec]);
    assert_eq!(parse(Flavor::Gnu, b"!"), vec![]);
    assert_eq!(parse(Flavor::Gnu, b"#"), vec![]);
    assert_eq!(parse(Flavor::Gnu, b" \t\r\n"), vec![]);
}

#[test]
fn every_single_byte_command() {
    assert_eq!(
        parse(Flavor::Gnu, b"pnPf+-*/%~^|vcdrioKIOkax?qQZXz@"),
        vec![
            Action::Print,
            Action::PrintNoNewlinePop,
            Action::PrintBytesPop,
            Action::PrintStack,
            Action::Add,
            Action::Sub,
            Action::Mul,
            Action::Div,
            Action::Rem,
            Action::DivRem,
            Action::Exp,
            Action::ModExp,
            Action::Sqrt,
            Action::ClearStack,
            Action::Dup,
            Action::Swap,
            Action::SetInputRadix,
            Action::SetOutputRadix,
            Action::LoadPrecision,
            Action::LoadInputRadix,
            Action::LoadOutputRadix,
            Action::SetPrecision,
            Action::Asciify,
            Action::ExecuteMacro,
            Action::Input,
            Action::Quit,
            Action::QuitLevels,
            Action::NumDigits,
            Action::NumFrxDigits,
            Action::StackDepth,
            Action::Version
        ]
    );
}

#[test]
fn next_of_the_state_machine() {
    let mut input = Some(b'[');
    let (state, action) = ParseState::Start.next(&mut input, Flavor::Gnu);
    assert_eq!(state, ParseState::String { level: 0, bs: false });
    assert_eq!(action, None);
    assert_eq!(input, None);
    let mut end = None;
    let (state, action) = state.next(&mut end, Flavor::Gnu);
    assert_eq!(state, ParseState::Start);
    assert_eq!(action, Some(Action::PushString));
}
