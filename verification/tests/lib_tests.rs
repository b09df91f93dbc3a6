use pvm::machine::{Error, Instruction, Machine};

fn execute_test(grammar: &str, subjects: &Vec<&str>, expected: &Vec<bool>) {
    let machine_result = Machine::new(&grammar);
    assert!(machine_result.is_ok());
    let mut machine = machine_result.ok().unwrap();
    assert!(subjects.len() == expected.len());
    for i in 0..expected.len() {
        let result = machine.execute(subjects[i].to_string().into_bytes());
        let fail = result.is_err();
        println!("{}", subjects[i]);
        println!("{:?}", result);
        assert!(!fail == expected[i]);
    }
}

#[test]
fn it_works() {}

#[test]
fn simple() {
    let grammar = "
        main {
            main:1 '+' main:2
            / main:2 '*' main:3
            / 'n'
        }
    ";
    let subjects = vec!["n", "n+n", "n*n", "n+n+n", "n*n*n", "n+n*n", "n*n+n"];
    let expected = vec![true, true, true, true, true, true, true];
    execute_test(grammar, &subjects, &expected);
}

#[test]
fn build_accepts_and_rejects() {
    assert!(pvm::build("main { 'a' }").is_ok());
    assert!(matches!(pvm::build("main {"), Err(0)));
}

#[test]
fn scenario_literals_repetition() {
    let grammar = "main { 'a'+ 'b'* 'c'? }";
    let subjects = vec!["ac", "a", "aaabbbc", "bb", ""];
    let expected = vec![true, true, true, false, false];
    execute_test(grammar, &subjects, &expected);
}

#[test]
fn scenario_ordered_choice() {
    let grammar = "main { 'a' / 'b' / 'c' }";
    let subjects = vec!["a", "b", "c", "abc", ""];
    let expected = vec![true, true, true, false, false];
    execute_test(grammar, &subjects, &expected);
}

#[test]
fn scenario_lookahead() {
    let grammar = "main { !'a' . / &'a' . }";
    let subjects = vec!["b", "a", "z", "aa", ""];
    let expected = vec![true, true, true, false, false];
    execute_test(grammar, &subjects, &expected);
}

#[test]
fn scenario_direct_left_recursion() {
    let grammar = "main { (main:1 \"+n\" / 'n') ';' }";
    let subjects = vec!["n;", "n+n;", "n+n+n+n+n;", "n", "n+;", ";"];
    let expected = vec![true, true, true, false, false, false];
    execute_test(grammar, &subjects, &expected);
}

#[test]
fn parser_error_position() {
    assert!(matches!(Machine::new("main {"), Err(_)));
    assert!(matches!(Machine::new("???"), Err(_)));
    assert!(matches!(Machine::new(""), Err(_)));
}

#[test]
fn machine_error_carries_position() {
    let mut machine = Machine::new("main { 'a' 'b' }").ok().unwrap();
    match machine.execute(b"ax".to_vec()) {
        Err(Error::MachineError(pos)) => assert_eq!(pos, 1),
        other => panic!("unexpected result: {:?}", other),
    }
}

#[test]
fn marker_error_on_unnamed_rule() {
    let program = vec![
        Instruction::Call(2),
        Instruction::Stop,
        Instruction::PushPos(0),
        Instruction::Char(b'a'),
        Instruction::SavePos,
        Instruction::Return,
    ];
    let jump_table = Machine::get_jump_table(&program);
    let mut machine = Machine {
        program,
        rule_names: vec![],
        skip: vec![],
        skip_on: false,
        jump_table,
    };
    match machine.execute(b"a".to_vec()) {
        Err(Error::MarkerError(id)) => assert_eq!(id, 0),
        other => panic!("unexpected result: {:?}", other),
    }
}

#[test]
fn spans_are_contained_and_unique() {
    let mut machine = Machine::new("main { a+ } a { 'a' }").ok().unwrap();
    let input = b"aaa".to_vec();
    let spans = machine.execute(input.clone()).ok().unwrap();
    for &(_, s, e) in spans.iter() {
        assert!(s < e && e <= input.len());
    }
    for i in 0..spans.len() {
        for j in 0..spans.len() {
            if i != j {
                assert!(spans[i] != spans[j]);
            }
        }
    }
}

#[test]
fn execute_is_deterministic() {
    let grammar = "main { s expr }
        expr {
            expr:1 plus expr:2
            / expr:1 minus expr:2
            / expr:2 times expr:3
            / expr:2 divide expr:3
            / minus expr:4
            / open expr:1 s close
            / num
        }
        plus { '+' s }
        minus { '-' s }
        times { '*' s  }
        divide { '/' s }
        open { '(' s }
        close { ')' s }
        num { [1-9][0-9]* s }
        s { ws* }
        ws { [ \\t\\r\\n] }";
    let mut m1 = Machine::new(grammar).ok().unwrap();
    let mut m2 = Machine::new(grammar).ok().unwrap();
    let input = b"1+2+3 * 2 *(  2+3  +4)".to_vec();
    let mut r1 = m1.execute(input.clone()).ok().unwrap();
    let mut r2 = m2.execute(input).ok().unwrap();
    r1.sort();
    r2.sort();
    assert_eq!(r1, r2);
}

#[test]
fn calculator_spans_well_nested() {
    let grammar = "main { s expr }
        expr {
            expr:1 plus expr:2
            / expr:1 minus expr:2
            / expr:2 times expr:3
            / expr:2 divide expr:3
            / minus expr:4
            / open expr:1 s close
            / num
        }
        plus { '+' s }
        minus { '-' s }
        times { '*' s  }
        divide { '/' s }
        open { '(' s }
        close { ')' s }
        num { [1-9][0-9]* s }
        s { ws* }
        ws { [ \\t\\r\\n] }";
    let mut machine = Machine::new(grammar).ok().unwrap();
    let expr_id = machine
        .rule_names
        .iter()
        .position(|n| n.as_slice() == b"expr")
        .unwrap();
    let num_id = machine.rule_names.iter().position(|n| n.as_slice() == b"num").unwrap();
    let input = b"1+2+3 * 2 *(  2+3  +4)".to_vec();
    let len = input.len();
    let mut spans = machine.execute(input).ok().unwrap();
    assert!(spans.contains(&(expr_id, 0, len)));
    let num_count = spans.iter().filter(|sp| sp.0 == num_id).count();
    assert_eq!(num_count, 7);
    // sorted by (start ascending, end descending) the spans form a
    // well-nested forest
    spans.sort_by(|a, b| a.1.cmp(&b.1).then(b.2.cmp(&a.2)));
    let mut open: Vec<(usize, usize)> = Vec::new();
    for &(_, s, e) in spans.iter() {
        while let Some(&(_, top_e)) = open.last() {
            if s >= top_e {
                open.pop();
            } else {
                break;
            }
        }
        if let Some(&(top_s, top_e)) = open.last() {
            assert!(top_s <= s && e <= top_e);
        }
        open.push((s, e));
    }
}

#[test]
fn compile_emits_expected_program() {
    let machine = Machine::new("main { 'a' / 'b' }").ok().unwrap();
    assert_eq!(
        machine.program,
        vec![
            Instruction::Call(2),
            Instruction::Stop,
            Instruction::PushPos(0),
            Instruction::Choice(3),
            Instruction::Char(b'a'),
            Instruction::Commit(2),
            Instruction::Char(b'b'),
            Instruction::SavePos,
            Instruction::Return,
        ]
    );
    assert_eq!(machine.rule_names, vec![b"main".to_vec()]);
    assert_eq!(machine.jump_table, vec![8, 8, 8, 8, 8, 8, 8, 8, 8]);
}

#[test]
fn jump_table_finds_next_return() {
    let program = vec![
        Instruction::Call(2),
        Instruction::Stop,
        Instruction::Char(b'a'),
        Instruction::Return,
        Instruction::Char(b'b'),
        Instruction::Return,
    ];
    let table = Machine::get_jump_table(&program);
    assert_eq!(table, vec![3, 3, 3, 3, 5, 5]);
}

#[test]
fn skip_parser_checks_ranges() {
    let mut machine = Machine::new("main { 'a' }").ok().unwrap();
    machine.skip = vec![(b' ', b' '), (b'\t', b'\t')];
    assert!(machine.skip_parser(b' '));
    assert!(machine.skip_parser(b'\t'));
    assert!(!machine.skip_parser(b'a'));
}

#[test]
fn lookahead_guarded_left_recursion() {
    // the lookahead consumes nothing at run time, so the recursion behind
    // it is left recursion and must be compiled as a growing seed
    let grammar = "main { &'x' main:1 \"+x\" / 'x' }";
    let subjects = vec!["x", "x+x", "x+x+x", "+x", ""];
    let expected = vec![true, true, true, false, false];
    execute_test(grammar, &subjects, &expected);
}

#[test]
fn metadata_classifies_call_sites() {
    let program = vec![
        Instruction::Call(2),
        Instruction::Stop,
        Instruction::Choice(5),
        Instruction::PrecedenceCall(-1, 0, true),
        Instruction::Char(b'+'),
        Instruction::Char(b'n'),
        Instruction::Commit(2),
        Instruction::Char(b'n'),
        Instruction::Return,
    ];
    let entries = pvm::graph::metadata(&program);
    assert_eq!(entries.len(), 2);
    let head = entries.iter().find(|e| e.0 == 0).unwrap();
    assert!(head.1.is_left_call);
    assert!(!head.1.is_cyclic);
    assert_eq!(head.1.jump_position, 8);
    let rec = entries.iter().find(|e| e.0 == 3).unwrap();
    assert!(rec.1.is_left_call);
    assert!(rec.1.is_cyclic);
    assert_eq!(rec.1.jump_position, 8);
}

#[test]
fn tokenizer_numbers_and_names() {
    let (tokens, count, names) = pvm::parser::tokenize(b"expr { expr:12 'x' }");
    assert_eq!(count, 2);
    assert_eq!(names[0], b"main".to_vec());
    assert_eq!(names[1], b"expr".to_vec());
    assert!(tokens.contains(&pvm::parser::Token::Number(12)));
    assert!(tokens.contains(&pvm::parser::Token::Name(1)));
}

#[test]
fn dummy_marker_parses_from_any_name() {
    let d: Result<pvm::dummy::Dummy, usize> = "anything".parse();
    assert_eq!(d, Ok(pvm::dummy::Dummy(0)));
}
