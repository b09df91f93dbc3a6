use pvm::machine::Machine;
use pvm::parser::{tokenize, Token};

fn execute_test(grammar: &str, subjects: &Vec<&str>, expected: &Vec<bool>) {
    let machine_result = Machine::new(grammar);
    assert!(machine_result.is_ok());
    assert!(subjects.len() == expected.len());
    let mut machine = machine_result.ok().unwrap();
    for i in 0..expected.len() {
        let result = machine.execute(subjects[i].to_string().into_bytes());
        let fail = result.is_err();
        println!("machine result: {:?}", result);
        println!("{}", subjects[i]);
        assert!(!fail == expected[i]);
    }
}

#[test]
fn tokenizer() {
    let grammar = "
        main { a b c / b c a / c b a }
        a { apple+ }
        b { \"bu\"* }
        c { [a-\\\"c]? }
        apple { &.!(\" \") }
    ";

    let tokens = tokenize(grammar.as_bytes()).0;
    println!("{:?}", tokens);
    let expected = vec![
        Token::Name(0),
        Token::OpenBrace,
        Token::Name(1),
        Token::Name(2),
        Token::Name(3),
        Token::Slash,
        Token::Name(2),
        Token::Name(3),
        Token::Name(1),
        Token::Slash,
        Token::Name(3),
        Token::Name(2),
        Token::Name(1),
        Token::CloseBrace,
        Token::Name(1),
        Token::OpenBrace,
        Token::Name(4),
        Token::Plus,
        Token::CloseBrace,
        Token::Name(2),
        Token::OpenBrace,
        Token::DoubleQuote,
        Token::Letter(b'b'),
        Token::Letter(b'u'),
        Token::DoubleQuote,
        Token::Asterik,
        Token::CloseBrace,
        Token::Name(3),
        Token::OpenBrace,
        Token::OpenBracket,
        Token::Letter(b'a'),
        Token::Dash,
        Token::Letter(b'\"'),
        Token::Letter(b'c'),
        Token::CloseBracket,
        Token::Question,
        Token::CloseBrace,
        Token::Name(4),
        Token::OpenBrace,
        Token::Ambersand,
        Token::Dot,
        Token::Exclamation,
        Token::OpenParen,
        Token::DoubleQuote,
        Token::Letter(b' '),
        Token::DoubleQuote,
        Token::CloseParen,
        Token::CloseBrace,
    ];
    assert!(tokens.iter().eq(expected.iter()));
}

#[test]
fn simple_char_grammar() {
    let grammar = "
        main { .char_class char_seq }
        char_class { [a-zA] }
        char_seq { \"abc\" }
    ";

    let subjects = vec!["azabc", "Bkabc", "AAabc", "aqd", "xyz"];
    let expected = vec![true, true, true, false, false];
    execute_test(&grammar, &subjects, &expected);
}

#[test]
fn simple_suffix_grammar() {
    let grammar = "main { 'a'+ 'b'* 'c'? }";
    let subjects = vec!["ac", "a", "abb", "aaabbbc", "aaabbb", "bb", "c", "z"];
    let expected = vec![true, true, true, true, true, false, false, false];
    execute_test(&grammar, &subjects, &expected);
}

#[test]
fn simple_choice_grammar() {
    let grammar = "main { 'a' / 'b' / 'c' }";
    let subjects = vec!["a", "b", "c", "abc", "z"];
    let expected = vec![true, true, true, false, false];
    execute_test(&grammar, &subjects, &expected);
}

#[test]
fn simple_prefix_grammar() {
    let grammar = "main { 'a' &'b' 'b' 'c' !'d' }";
    let subjects = vec!["abc", "abc", "ac", "abcd"];
    let expected = vec![true, true, false, false];
    execute_test(&grammar, &subjects, &expected);
}

#[test]
fn simple_parentheticals() {
    let grammar = "main { ('a' / 'b') / 'c' ('d'.)+ }";
    let subjects = vec!["a", "b", "cdx", "cdxdcdy", "x", "c"];
    let expected = vec![true, true, true, true, false, false];
    execute_test(&grammar, &subjects, &expected);
}

#[test]
fn parenthetical_and_lookahead() {
    let grammar = "main { &('b' / 'a') .* }";
    let subjects = vec!["a", "b", "aa", "ab", "azzd", "c", "zab"];
    let expected = vec![true, true, true, true, true, false, false];
    execute_test(&grammar, &subjects, &expected);
}

#[test]
fn parser_direct_left_recursion() {
    let grammar = "main { (main:1 \"+n\" / 'n') ';' }";
    let subjects = vec!["n;", "n+n;", "n+n+n+n+n+n;", "n", "n+;", "+n;", "n+n", ";"];
    let expected = vec![true, true, true, false, false, false, false, false];
    execute_test(&grammar, &subjects, &expected);
}

#[test]
fn indirect_left_recursion() {
    let grammar = "main { L } L { P:1 '.x' / 'x' } P { P:1 '(n)' / L:1 }";
    let subjects = vec!["x", "x.x", "x(n).x", "x(n)(n).x(n).x", "x.", "x(n)x", "(n)"];
    let expected = vec![true, true, true, true, false, false, false];
    execute_test(&grammar, &subjects, &expected);
}

#[test]
fn dogfood() {
    let grammar = "
        main { grammar }
        grammar { s rule+ }
        rule { name '{' s expression '}' s }
        expression { sequence (slash sequence)* }
        sequence { prefix+ }
        prefix { (and / not)? suffix }
        suffix { primary (question / star / plus)? }
        primary { name (colon num)? !'{' / open expression close / literal / class / dot }

        name { [a-zA-Z][a-zA-Z0-9_]* s }
        num { [1-9][0-9]* s }

        literal {
                '\\'' (!'\\'' char)* '\\'' s
            /   '\\\"' (!'\\\"' char)* '\\\"' s
        }
        class { '[' (!']' range)* ']' s }
        range { char '-' char / char }
        char {
                '\\\\' [trn'\"\\\\]
            /   !'\\\\' .
        }

        slash { '/' s }
        and { '&' s }
        not { '!' s }
        question { '?' s }
        star { '*' s }
        plus { '+' s }
        open { '(' s }
        close { ')' s }
        dot { '.' s }
        colon { ':' s }

        s { ws* }
        ws { [ \\t\\r\\n] }
    ";
    let subjects = vec![
        "main { ('a' / 'b') / 'c' ('d'.)+ }",
        "main { 'a' &'b' 'b' 'c' !'d' }",
        "main { 'a' / 'b' / 'c' }",
        "main { 'a'+ 'b'* 'c'? }",
        "main { .char_class char_seq }
            char_class { [a-zA] }
            char_seq { \"abc\" }",
        &grammar,
    ];
    let expected = vec![true, true, true, true, true, true];
    execute_test(&grammar, &subjects, &expected);
}
