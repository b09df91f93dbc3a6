use pvm::ast::{Grammar, Pattern};
use pvm::machine::Machine;

fn execute_test(
    grammar: &mut Grammar,
    subjects: &Vec<&str>,
    expected: &Vec<bool>,
    rule_names: Vec<Vec<u8>>,
) {
    let program = grammar.compile();
    let jump_table = Machine::get_jump_table(&program);
    let mut machine = Machine {
        program: program,
        rule_names: rule_names,
        skip: vec![],
        skip_on: false,
        jump_table: jump_table,
    };
    assert!(subjects.len() == expected.len());
    for i in 0..expected.len() {
        let result = machine.execute(subjects[i].to_string().into_bytes());
        let fail = result.is_err();
        println!("{:?}", machine.program);
        println!("{}", subjects[i]);
        assert!(!fail == expected[i]);
    }
}

#[test]
fn simple_char_grammar_rules() {
    let char_class = Pattern::CharClass(vec![
        ('a' as u8, Some('z' as u8)),
        ('A' as u8, Some('A' as u8)),
    ]);
    let char_seq = Pattern::CharSequence(vec!['a' as u8, 'b' as u8, 'c' as u8]);
    let main = Pattern::Sequence(vec![
        Box::new(Pattern::Variable(1, 1, 0, false)),
        Box::new(Pattern::Variable(2, 1, 0, false)),
        Box::new(Pattern::Variable(3, 1, 0, false)),
    ]);

    let mut grammar = Grammar {
        rules: vec![main, Pattern::CharAny, char_class, char_seq],
        main: 0,
    };
    let subjects = vec!["azabc", "Bkabc", "AAabc", "aqd", "xyz"];
    let expected = vec![true, true, true, false, false];
    let rule_names = vec![
        b"main".to_vec(),
        b"any".to_vec(),
        b"char_class".to_vec(),
        b"char_seq".to_vec(),
    ];
    execute_test(&mut grammar, &subjects, &expected, rule_names);
}

#[test]
fn simple_lookahead_grammar() {
    let ambersand = Pattern::Lookahead(true, Box::new(Pattern::CharSequence(vec!['a' as u8])));
    let not = Pattern::Lookahead(false, Box::new(Pattern::CharSequence(vec!['a' as u8])));
    let main = Pattern::Choice(
        Box::new(Pattern::Sequence(vec![
            Box::new(not),
            Box::new(Pattern::CharAny),
        ])),
        Box::new(Pattern::Sequence(vec![
            Box::new(ambersand),
            Box::new(Pattern::CharAny),
        ])),
    );

    let mut grammar = Grammar {
        rules: vec![main],
        main: 0,
    };
    let subjects = vec!["b", "a", "z", "aa", ""];
    let expected = vec![true, true, true, false, false];
    let rule_names = vec![b"main".to_vec()];
    execute_test(&mut grammar, &subjects, &expected, rule_names);
}

#[test]
fn simple_iteration_grammar() {
    let main = Pattern::Choice(
        Box::new(Pattern::OneOrMore(Box::new(Pattern::CharSequence(vec![
            'a' as u8,
        ])))),
        Box::new(Pattern::ZeroOrMore(Box::new(Pattern::CharSequence(vec![
            'b' as u8,
        ])))),
    );

    let mut grammar = Grammar {
        rules: vec![main],
        main: 0,
    };
    let subjects = vec!["a", "aaaa", "", "b", "bbbbb", "c"];
    let expected = vec![true, true, true, true, true, false];
    let rule_names = vec![b"main".to_vec()];
    execute_test(&mut grammar, &subjects, &expected, rule_names);
}

#[test]
fn simple_optional_subparser() {
    let a = Pattern::OneOrMore(Box::new(Pattern::CharSequence(vec!['a' as u8])));
    let main = Pattern::Sequence(vec![
        Box::new(Pattern::Optional(Box::new(Pattern::Variable(1, 1, 0, false)))),
        Box::new(Pattern::CharSequence(vec!['b' as u8])),
    ]);

    let mut grammar = Grammar {
        rules: vec![main, a],
        main: 0,
    };
    let subjects = vec!["b", "ab", "aaaaab", "", "bb"];
    let expected = vec![true, true, true, false, false];
    let rule_names = vec![b"main".to_vec(), b"a".to_vec()];
    execute_test(&mut grammar, &subjects, &expected, rule_names);
}
