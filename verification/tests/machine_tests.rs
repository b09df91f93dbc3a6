use pvm::machine::{Instruction, Machine};

fn execute_test(
    program: Vec<Instruction>,
    subjects: &Vec<&str>,
    expected: &Vec<bool>,
    rule_names: Vec<Vec<u8>>,
) {
    let jump_table = Machine::get_jump_table(&program);
    let mut machine = Machine {
        program: program,
        rule_names: rule_names,
        skip: vec![],
        skip_on: false,
        jump_table: jump_table,
    };
    assert!(subjects.len() == expected.len());
    for i in 0..expected.len() {
        let result = machine.execute(subjects[i].to_string().into_bytes());
        let fail = result.is_err();
        println!("{:?}", result);
        println!("{}", subjects[i]);
        assert!(!fail == expected[i]);
    }
}

fn execute_test_with_skip(
    program: Vec<Instruction>,
    skip: Vec<(u8, u8)>,
    subjects: &Vec<&str>,
    expected: &Vec<bool>,
    rule_names: Vec<Vec<u8>>,
) {
    let jump_table = Machine::get_jump_table(&program);
    let mut machine = Machine {
        program: program,
        rule_names: rule_names,
        skip: vec![],
        skip_on: false,
        jump_table: jump_table,
    };
    machine.skip = skip;
    machine.skip_on = true;
    assert!(subjects.len() == expected.len());
    for i in 0..expected.len() {
        let result = machine.execute(subjects[i].to_string().into_bytes());
        let fail = result.is_err();
        println!("{}", subjects[i]);
        assert!(!fail == expected[i]);
    }
}

#[test]
fn simple_char() {
    let program = vec![Instruction::Char('a' as u8), Instruction::Stop];
    let subjects = vec!["a", "aa"];
    let expected = vec![true, false];
    execute_test(program, &subjects, &expected, vec![]);
}

#[test]
fn zero_or_more_chars() {
    let program = vec![
        Instruction::Choice(3),
        Instruction::Char('a' as u8),
        Instruction::Commit(-2),
        Instruction::Stop,
    ];
    let subjects = vec!["", "a", "aaa", "b"];
    let expected = vec![true, true, true, false];
    execute_test(program, &subjects, &expected, vec![]);
}

#[test]
fn one_or_more_chars() {
    let program = vec![
        Instruction::Char('a' as u8),
        Instruction::Choice(3),
        Instruction::Char('a' as u8),
        Instruction::Commit(-2),
        Instruction::Stop,
    ];
    let subjects = vec!["a", "aaa", "b", ""];
    let expected = vec![true, true, false, false];
    execute_test(program, &subjects, &expected, vec![]);
}

#[test]
fn simple_char_sequence() {
    let program = vec![
        Instruction::Char('a' as u8),
        Instruction::Char('b' as u8),
        Instruction::Stop,
    ];
    let subjects = vec!["ab", "a", "b", ""];
    let expected = vec![true, false, false, false];
    execute_test(program, &subjects, &expected, vec![]);
}

#[test]
fn simple_char_choice() {
    let program = vec![
        Instruction::Choice(6),
        Instruction::Choice(3),
        Instruction::Char('a' as u8),
        Instruction::Commit(2),
        Instruction::Char('b' as u8),
        Instruction::Commit(2),
        Instruction::Char('c' as u8),
        Instruction::Stop,
    ];
    let subjects = vec!["a", "b", "c", "abc", ""];
    let expected = vec![true, true, true, false, false];
    execute_test(program, &subjects, &expected, vec![]);
}

#[test]
fn simple_subparser() {
    let program1 = vec![
        Instruction::Char('a' as u8),
        Instruction::Call(5),
        Instruction::Choice(3),
        Instruction::Call(3),
        Instruction::Commit(-2),
        Instruction::Stop,
        Instruction::Char('b' as u8),
        Instruction::Return,
    ];
    let program2 = vec![
        Instruction::Call(4),
        Instruction::Jump(9),
        Instruction::Char('b' as u8),
        Instruction::Return,
        Instruction::Char('a' as u8),
        Instruction::Call(-3),
        Instruction::Choice(3),
        Instruction::Call(-5),
        Instruction::Commit(-2),
        Instruction::Return,
        Instruction::Stop,
    ];
    let subjects = vec!["ab", "abbb", "a", ""];
    let expected = vec![true, true, false, false];
    execute_test(program1, &subjects, &expected, vec![]);
    execute_test(program2, &subjects, &expected, vec![]);
}

#[test]
fn three_subparser() {
    let program = vec![
        Instruction::Call(16),
        Instruction::Jump(19),
        Instruction::Choice(3),
        Instruction::Char('a' as u8),
        Instruction::Commit(2),
        Instruction::Char('z' as u8),
        Instruction::Return,
        Instruction::Choice(3),
        Instruction::Char('b' as u8),
        Instruction::Commit(-2),
        Instruction::Return,
        Instruction::Choice(3),
        Instruction::Call(-10),
        Instruction::Commit(2),
        Instruction::Call(-7),
        Instruction::Return,
        Instruction::Call(-14),
        Instruction::Call(-10),
        Instruction::Call(-7),
        Instruction::Return,
        Instruction::Stop,
    ];
    let subjects = vec!["a", "ab", "aba", "abba", "z", "zbbaz", "garbage", ""];
    let expected = vec![true, true, true, true, true, false, false, false];
    execute_test(program, &subjects, &expected, vec![]);
}

#[test]
fn self_reference_impossible_parser() {
    let program = vec![
        Instruction::Call(5),
        Instruction::Jump(8),
        Instruction::Char('b' as u8),
        Instruction::Call(-1),
        Instruction::Return,
        Instruction::Char('a' as u8),
        Instruction::Call(-4),
        Instruction::Call(-2),
        Instruction::Return,
        Instruction::Stop,
    ];
    let subjects = vec!["a", "ab", "ababab", ""];
    let expected = vec![false, false, false, false];
    execute_test(program, &subjects, &expected, vec![]);
}

#[test]
fn simple_token_stream_result() {
    let program = vec![
        Instruction::Call(6),
        Instruction::Jump(13),
        Instruction::PushPos(1),
        Instruction::Char('b' as u8),
        Instruction::SavePos,
        Instruction::Return,
        Instruction::PushPos(0),
        Instruction::Char('a' as u8),
        Instruction::Call(-6),
        Instruction::Choice(3),
        Instruction::Call(-8),
        Instruction::Commit(-2),
        Instruction::SavePos,
        Instruction::Return,
        Instruction::Stop,
    ];
    let subjects = vec!["ab", "abbbb", "a", "b"];
    let expected = vec![true, true, false, false];
    let rule_names = vec![b"main".to_vec(), b"b".to_vec()];
    execute_test(program, &subjects, &expected, rule_names);
}

#[test]
fn simple_char_range() {
    let program = vec![
        Instruction::Call(2),
        Instruction::Stop,
        Instruction::Choice(3),
        Instruction::CharRange('a' as u8, 'z' as u8),
        Instruction::Commit(-2),
        Instruction::Return,
    ];
    let subjects = vec!["a", "b", "z", "aaa", "zzz", "abcdefghijkxyz", "a.z"];
    let expected = vec![true, true, true, true, true, true, false];
    execute_test(program, &subjects, &expected, vec![]);
}

#[test]
fn char_range_links() {
    let program = vec![
        Instruction::Call(2),
        Instruction::Stop,
        Instruction::Choice(5),
        Instruction::CharRangeLink('a' as u8, 'b' as u8, 3),
        Instruction::CharRangeLink('c' as u8, 'c' as u8, 2),
        Instruction::CharRange('e' as u8, 'e' as u8),
        Instruction::Commit(-4),
        Instruction::Return,
    ];
    let subjects = vec!["a", "b", "c", "e", "abce", "ecba", "acbe", "d", "f", "abcde"];
    let expected = vec![true, true, true, true, true, true, true, false, false, false];
    execute_test(program, &subjects, &expected, vec![]);
}

#[test]
fn skip_parser() {
    let program = vec![
        Instruction::Call(2),
        Instruction::Stop,
        Instruction::Choice(4),
        Instruction::Char('a' as u8),
        Instruction::Char('b' as u8),
        Instruction::Commit(-3),
        Instruction::Return,
    ];
    let skip = vec![(' ' as u8, ' ' as u8)];
    let subjects = vec!["ababab", "ab a b ab", "ab a  b  a b", " a   b ", "c"];
    let expected = vec![true, true, true, true, false];
    execute_test_with_skip(program, skip, &subjects, &expected, vec![]);
}

#[test]
fn skip_parser_with_toggle() {
    let program = vec![
        Instruction::Call(2),
        Instruction::Stop,
        Instruction::ToggleSkip,
        Instruction::Char('a' as u8),
        Instruction::Char(' ' as u8),
        Instruction::ToggleSkip,
        Instruction::Char('b' as u8),
        Instruction::Return,
    ];
    let skip = vec![(' ' as u8, ' ' as u8)];
    let subjects = vec!["a b", "a    b", "   a   b    ", "ab"];
    let expected = vec![true, true, true, false];
    execute_test_with_skip(program, skip, &subjects, &expected, vec![]);
}

#[test]
fn partial_commit_zero_or_more() {
    let program = vec![
        Instruction::Call(2),
        Instruction::Stop,
        Instruction::Choice(3),
        Instruction::Char('a' as u8),
        Instruction::PartialCommit(-1),
        Instruction::Return,
    ];
    let subjects = vec!["", "a", "aaa", "b"];
    let expected = vec![true, true, true, false];
    execute_test(program, &subjects, &expected, vec![]);
}

#[test]
fn not_predicate() {
    let program = vec![
        Instruction::Call(2),
        Instruction::Stop,
        Instruction::Choice(3),
        Instruction::Char('a' as u8),
        Instruction::FailTwice,
        Instruction::CharRange('a' as u8, 'b' as u8),
        Instruction::Choice(3),
        Instruction::CharRange('a' as u8, 'b' as u8),
        Instruction::PartialCommit(-1),
        Instruction::Return,
    ];
    let subjects = vec!["b", "ba", "bababbaa", "a", "ab"];
    let expected = vec![true, true, true, false, false];
    execute_test(program, &subjects, &expected, vec![]);
}

#[test]
fn ambersand_predicate() {
    let program = vec![
        Instruction::Call(2),
        Instruction::Stop,
        Instruction::Choice(5),
        Instruction::Choice(3),
        Instruction::Char('a' as u8),
        Instruction::FailTwice,
        Instruction::FailTwice,
        Instruction::CharRange('a' as u8, 'b' as u8),
        Instruction::Choice(3),
        Instruction::CharRange('a' as u8, 'b' as u8),
        Instruction::PartialCommit(-1),
        Instruction::Return,
    ];
    let subjects = vec!["a", "aa", "ab", "abbaabaa", "b", "ba"];
    let expected = vec![true, true, true, true, false, false];
    execute_test(program, &subjects, &expected, vec![]);
}

#[test]
fn optional_predicate() {
    let program = vec![
        Instruction::Call(2),
        Instruction::Stop,
        Instruction::Choice(3),
        Instruction::Char('a' as u8),
        Instruction::Commit(1),
        Instruction::Char('b' as u8),
        Instruction::Return,
    ];
    let subjects = vec!["ab", "b", "c", "aa"];
    let expected = vec![true, true, false, false];
    execute_test(program, &subjects, &expected, vec![]);
}

#[test]
fn machine_direct_left_recursion() {
    let program = vec![
        Instruction::Call(2),
        Instruction::Stop,
        Instruction::Choice(5),
        Instruction::PrecedenceCall(-1, 0, true),
        Instruction::Char(b'+'),
        Instruction::Char(b'n'),
        Instruction::Commit(2),
        Instruction::Char(b'n'),
        Instruction::Return,
    ];
    let subjects = vec!["n", "n+n+n", "n+n", "n+n+n+n", "n+", "+n", "n+n+", "+n+n+"];
    let expected = vec![true, true, true, true, false, false, false, false];
    execute_test(program, &subjects, &expected, vec![]);
}

#[test]
fn direct_left_recursion_with_tail() {
    let program = vec![
        Instruction::Call(2),
        Instruction::Stop,
        Instruction::Choice(5),
        Instruction::PrecedenceCall(-1, 0, true),
        Instruction::Char(b'+'),
        Instruction::Char(b'n'),
        Instruction::Commit(2),
        Instruction::Char(b'n'),
        Instruction::Char(b';'),
        Instruction::Return,
    ];
    let subjects = vec!["n;", "n+n;", "n+n+n+n+n;", "n", "n+n", "n+", ";"];
    let expected = vec![true, true, true, false, false, false, false];
    execute_test(program, &subjects, &expected, vec![]);
}
