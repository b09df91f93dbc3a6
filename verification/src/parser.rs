//! The textual grammar front-end: a tokenizer over raw bytes and a
//! recursive-descent parser from tokens to a `Grammar`.
//!
//! The tokenizer is verified against `tk_run`, a byte-by-byte spec-level
//! mirror of its state machine, so the token stream and the rule-name table
//! are pinned exactly.  The parser is verified against `sp_parse`, a
//! spec-level mirror of the recursive descent over `GPat`, the mathematical
//! shape of patterns: which token streams are accepted, the grammar they
//! parse to, and the position reported on failure are all pinned exactly.

use vstd::prelude::*;
use crate::ast::{
    Grammar, Pattern, vars_ok, vars_ok_list, wf_grammar, emit, emit_seq, emit_class, blocks,
    rule_block, program_size,
};

verus! {

/// One token of the surface grammar.
#[derive(Clone, Copy, PartialEq, Eq, Structural, Debug)]
pub enum Token {
    OpenBrace,
    CloseBrace,
    OpenParen,
    CloseParen,
    OpenBracket,
    CloseBracket,
    SingleQuote,
    DoubleQuote,
    Dot,
    Plus,
    Asterik,
    Question,
    Exclamation,
    Ambersand,
    Slash,
    Dash,
    Colon,
    Number(i32),
    Name(i32),
    Letter(u8),
}

/// The tokenizer's running state: the tokens so far, the name table (index
/// is the name's id), the pending identifier bytes, and the three mode
/// flags.
pub ghost struct TkState {
    pub tokens: Seq<Token>,
    pub names: Seq<Seq<u8>>,
    pub buf: Seq<u8>,
    pub in_quote: bool,
    pub in_bracket: bool,
    pub escaped: bool,
}

/// Is the byte an ASCII letter, digit or underscore?
pub open spec fn is_word_byte(b: u8) -> bool {
    (97u8 <= b && b <= 122u8) || (65u8 <= b && b <= 90u8) || (48u8 <= b && b <= 57u8) || b == 95u8
}

/// Is the byte an ASCII digit?
pub open spec fn is_digit(b: u8) -> bool {
    48u8 <= b && b <= 57u8
}

/// Are all the bytes digits?
pub open spec fn all_digits(s: Seq<u8>) -> bool {
    forall|j: int| 0 <= j < s.len() ==> is_digit(#[trigger] s[j])
}

/// The decimal value of a digit string.
pub open spec fn digits_val(s: Seq<u8>) -> int
    decreases s.len(),
{
    if s.len() == 0 {
        0
    } else {
        digits_val(s.drop_last()) * 10 + (s.last() - 48u8)
    }
}

/// The decimal value clamped into an `i32`: a precedence level beyond the
/// representable range is read as the largest one.
pub open spec fn digits_i32(s: Seq<u8>) -> i32 {
    if digits_val(s) > 0x7FFF_FFFF {
        0x7FFF_FFFF
    } else {
        digits_val(s) as i32
    }
}

/// The lowest index at or above `idx` holding this name, if any.
pub open spec fn find_name_from(names: Seq<Seq<u8>>, name: Seq<u8>, idx: int) -> Option<int>
    decreases names.len() - idx,
{
    if idx < 0 || idx >= names.len() {
        None
    } else if names[idx] == name {
        Some(idx)
    } else {
        find_name_from(names, name, idx + 1)
    }
}

/// The id of a known name.
pub open spec fn find_name(names: Seq<Seq<u8>>, name: Seq<u8>) -> Option<int> {
    find_name_from(names, name, 0)
}

/// The pending identifier flushed into a token: a digit string becomes a
/// `Number`, any other name a `Name` with its id, fresh names receiving the
/// next id.
pub open spec fn tk_flush(s: TkState) -> TkState {
    if s.buf.len() == 0 {
        s
    } else if all_digits(s.buf) {
        TkState { tokens: s.tokens.push(Token::Number(digits_i32(s.buf))), buf: Seq::empty(), ..s }
    } else {
        match find_name(s.names, s.buf) {
            Some(id) => TkState {
                tokens: s.tokens.push(Token::Name(id as i32)),
                buf: Seq::empty(),
                ..s
            },
            None => TkState {
                tokens: s.tokens.push(Token::Name(s.names.len() as i32)),
                names: s.names.push(s.buf),
                buf: Seq::empty(),
                ..s
            },
        }
    }
}

/// One byte of tokenizer progress.
pub open spec fn tk_step(s: TkState, b: u8) -> TkState {
    if s.in_quote || s.in_bracket {
        if s.escaped {
            let c = if b == 116u8 {
                9u8
            } else if b == 114u8 {
                13u8
            } else if b == 110u8 {
                10u8
            } else {
                b
            };
            TkState { tokens: s.tokens.push(Token::Letter(c)), escaped: false, ..s }
        } else {
            if b == 45u8 {
                if s.in_bracket {
                    TkState { tokens: s.tokens.push(Token::Dash), ..s }
                } else {
                    TkState { tokens: s.tokens.push(Token::Letter(45u8)), ..s }
                }
            } else if b == 39u8 && !s.in_bracket {
                TkState { tokens: s.tokens.push(Token::SingleQuote), in_quote: false, ..s }
            } else if b == 34u8 && !s.in_bracket {
                TkState { tokens: s.tokens.push(Token::DoubleQuote), in_quote: false, ..s }
            } else if b == 93u8 && !s.in_quote {
                TkState { tokens: s.tokens.push(Token::CloseBracket), in_bracket: false, ..s }
            } else if b == 92u8 {
                TkState { escaped: true, ..s }
            } else {
                TkState { tokens: s.tokens.push(Token::Letter(b)), ..s }
            }
        }
    } else {
        let s = if !is_word_byte(b) {
            tk_flush(s)
        } else {
            s
        };
        if b == 123u8 {
            TkState { tokens: s.tokens.push(Token::OpenBrace), ..s }
        } else if b == 125u8 {
            TkState { tokens: s.tokens.push(Token::CloseBrace), ..s }
        } else if b == 40u8 {
            TkState { tokens: s.tokens.push(Token::OpenParen), ..s }
        } else if b == 41u8 {
            TkState { tokens: s.tokens.push(Token::CloseParen), ..s }
        } else if b == 46u8 {
            TkState { tokens: s.tokens.push(Token::Dot), ..s }
        } else if b == 43u8 {
            TkState { tokens: s.tokens.push(Token::Plus), ..s }
        } else if b == 42u8 {
            TkState { tokens: s.tokens.push(Token::Asterik), ..s }
        } else if b == 63u8 {
            TkState { tokens: s.tokens.push(Token::Question), ..s }
        } else if b == 33u8 {
            TkState { tokens: s.tokens.push(Token::Exclamation), ..s }
        } else if b == 38u8 {
            TkState { tokens: s.tokens.push(Token::Ambersand), ..s }
        } else if b == 47u8 {
            TkState { tokens: s.tokens.push(Token::Slash), ..s }
        } else if b == 45u8 {
            TkState { tokens: s.tokens.push(Token::Dash), ..s }
        } else if b == 58u8 {
            TkState { tokens: s.tokens.push(Token::Colon), ..s }
        } else if b == 91u8 {
            TkState { tokens: s.tokens.push(Token::OpenBracket), in_bracket: true, ..s }
        } else if b == 93u8 {
            TkState { tokens: s.tokens.push(Token::CloseBracket), in_bracket: false, ..s }
        } else if b == 39u8 {
            TkState { tokens: s.tokens.push(Token::SingleQuote), in_quote: true, ..s }
        } else if b == 34u8 {
            TkState { tokens: s.tokens.push(Token::DoubleQuote), in_quote: true, ..s }
        } else if is_word_byte(b) {
            TkState { buf: s.buf.push(b), ..s }
        } else {
            s
        }
    }
}

/// The tokenizer's state at byte `i`: the entry rule's name pre-seeded with
/// id zero, then one step per byte.
pub open spec fn tk_run(input: Seq<u8>, i: int) -> TkState
    decreases i,
{
    if i <= 0 {
        TkState {
            tokens: Seq::empty(),
            names: seq![seq![109u8, 97u8, 105u8, 110u8]],
            buf: Seq::empty(),
            in_quote: false,
            in_bracket: false,
            escaped: false,
        }
    } else {
        tk_step(tk_run(input, i - 1), input[i - 1])
    }
}

/// Every `Name` token carries an id below `bound`.
pub open spec fn tokens_name_bound(toks: Seq<Token>, bound: int) -> bool {
    forall|j: int|
        0 <= j < toks.len() ==> match #[trigger] toks[j] {
            Token::Name(id) => 0 <= id < bound,
            _ => true,
        }
}

/// At most two tokens come out of one byte.
proof fn lemma_tk_tokens_len(input: Seq<u8>, i: int)
    ensures
        tk_run(input, i).tokens.len() <= 2 * (if i >= 0 { i } else { 0 }),
    decreases i,
{
    if i > 0 {
        lemma_tk_tokens_len(input, i - 1);
    }
}

/// The name table only grows, by at most one name per byte.
proof fn lemma_tk_names_len(input: Seq<u8>, i: int)
    ensures
        1 <= tk_run(input, i).names.len() <= 1 + (if i >= 0 { i } else { 0 }),
    decreases i,
{
    if i > 0 {
        lemma_tk_names_len(input, i - 1);
    }
}

/// A found name lies inside the table.
proof fn lemma_find_name_props(names: Seq<Seq<u8>>, name: Seq<u8>, idx: int)
    ensures
        match find_name_from(names, name, idx) {
            Some(t) => idx <= t < names.len() && names[t] == name,
            None => true,
        },
    decreases names.len() - idx,
{
    if 0 <= idx < names.len() && !(names[idx] == name) {
        lemma_find_name_props(names, name, idx + 1);
    }
}

/// Every `Name` token the tokenizer has produced names an entry of its
/// table.
proof fn lemma_tk_name_ids(input: Seq<u8>, i: int)
    requires
        input.len() + 2 < 0x7FFF_FFFF,
        i <= input.len(),
    ensures
        tokens_name_bound(tk_run(input, i).tokens, tk_run(input, i).names.len() as int),
    decreases i,
{
    if i > 0 {
        lemma_tk_name_ids(input, i - 1);
        let s = tk_run(input, i - 1);
        lemma_tk_names_len(input, i - 1);
        lemma_find_name_props(s.names, s.buf, 0);
        assert forall|j: int|
            0 <= j < tk_run(input, i).tokens.len() implies match #[trigger] tk_run(
            input,
            i,
        ).tokens[j] {
            Token::Name(id) => 0 <= id < tk_run(input, i).names.len() as int,
            _ => true,
        } by {
            if j < s.tokens.len() {
                assert(match s.tokens[j] {
                    Token::Name(id) => 0 <= id < s.names.len() as int,
                    _ => true,
                });
            }
        }
    }
}

/// Nonnegative decimal values.
proof fn lemma_digits_val_nonneg(s: Seq<u8>)
    requires
        all_digits(s),
    ensures
        digits_val(s) >= 0,
    decreases s.len(),
{
    if s.len() > 0 {
        assert(all_digits(s.drop_last()));
        lemma_digits_val_nonneg(s.drop_last());
    }
}

/// Is the byte an ASCII letter, digit or underscore?
fn is_word(b: u8) -> (r: bool)
    ensures
        r == is_word_byte(b),
{
    (97 <= b && b <= 122) || (65 <= b && b <= 90) || (48 <= b && b <= 57) || b == 95
}

/// Byte-list equality.
fn bytes_eq(a: &Vec<u8>, b: &Vec<u8>) -> (r: bool)
    ensures
        r == (a@ == b@),
{
    if a.len() != b.len() {
        return false;
    }
    let mut t: usize = 0;
    while t < a.len()
        invariant
            t <= a@.len(),
            a@.len() == b@.len(),
            forall|j: int| 0 <= j < t ==> a@[j] == b@[j],
        decreases a@.len() - t,
    {
        if a[t] != b[t] {
            return false;
        }
        t = t + 1;
    }
    proof {
        assert(a@ =~= b@);
    }
    true
}

/// The id of a name in the table, if the table holds it.
fn find_name_exec(names: &Vec<Vec<u8>>, name: &Vec<u8>) -> (r: Option<usize>)
    ensures
        match r {
            Some(t) => find_name(names.deep_view(), name@) == Some(t as int) && t
                < names@.len(),
            None => find_name(names.deep_view(), name@) is None,
        },
{
    let mut t: usize = 0;
    while t < names.len()
        invariant
            t <= names@.len(),
            find_name(names.deep_view(), name@) == find_name_from(
                names.deep_view(),
                name@,
                t as int,
            ),
        decreases names@.len() - t,
    {
        proof {
            assert(names.deep_view()[t as int] =~= names@[t as int]@);
        }
        if bytes_eq(&names[t], name) {
            return Some(t);
        }
        t = t + 1;
    }
    None
}

/// Are all the bytes digits?
fn check_all_digits(name: &Vec<u8>) -> (r: bool)
    ensures
        r == all_digits(name@),
{
    let mut t: usize = 0;
    while t < name.len()
        invariant
            t <= name@.len(),
            forall|j: int| 0 <= j < t ==> is_digit(#[trigger] name@[j]),
        decreases name@.len() - t,
    {
        let b = name[t];
        if !(48 <= b && b <= 57) {
            return false;
        }
        t = t + 1;
    }
    true
}

/// The decimal value of a digit string, clamped into an `i32`.
fn digits_to_i32(name: &Vec<u8>) -> (r: i32)
    requires
        all_digits(name@),
    ensures
        r == digits_i32(name@),
{
    let mut result: i64 = 0;
    let mut sat = false;
    let mut t: usize = 0;
    while t < name.len()
        invariant
            t <= name@.len(),
            all_digits(name@),
            !sat ==> result == digits_val(name@.take(t as int)) && 0 <= result <= 0x7FFF_FFFF,
            sat ==> digits_val(name@.take(t as int)) > 0x7FFF_FFFF,
        decreases name@.len() - t,
    {
        let ghost prefix = name@.take(t as int);
        let d = name[t] - 48;
        proof {
            assert(name@.take(t as int + 1).drop_last() =~= prefix);
            assert(name@.take(t as int + 1).last() == name@[t as int]);
            lemma_digits_val_nonneg(prefix);
        }
        if !sat {
            if result <= (0x7FFF_FFFF - d as i64) / 10 {
                result = result * 10 + d as i64;
            } else {
                sat = true;
                proof {
                    assert(digits_val(name@.take(t as int + 1)) > 0x7FFF_FFFF);
                }
            }
        } else {
            proof {
                assert(digits_val(name@.take(t as int + 1)) == digits_val(prefix) * 10 + (
                name@[t as int] - 48));
                assert(digits_val(prefix) * 10 >= digits_val(prefix)) by (nonlinear_arith)
                    requires
                        digits_val(prefix) > 0,
                {}
            }
        }
        t = t + 1;
    }
    proof {
        assert(name@.take(name@.len() as int) =~= name@);
    }
    if sat {
        0x7FFF_FFFF
    } else {
        result as i32
    }
}

/// Flushes the pending identifier into the token stream, as `tk_flush` of
/// the semantics dictates.
fn flush_buf(tokens: &mut Vec<Token>, names: &mut Vec<Vec<u8>>, buf: &mut Vec<u8>)
    requires
        old(names).deep_view().len() + 1 < 0x7FFF_FFFF,
    ensures
        ({
            let s0 = TkState {
                tokens: old(tokens)@,
                names: old(names).deep_view(),
                buf: old(buf)@,
                in_quote: false,
                in_bracket: false,
                escaped: false,
            };
            let s1 = tk_flush(s0);
            final(tokens)@ == s1.tokens && final(names).deep_view() == s1.names
                && final(buf)@ == s1.buf
        }),
{
    if buf.len() == 0 {
        return ;
    }
    if check_all_digits(buf) {
        let v = digits_to_i32(buf);
        tokens.push(Token::Number(v));
        buf.clear();
    } else {
        match find_name_exec(names, buf) {
            Some(id) => {
                tokens.push(Token::Name(id as i32));
                buf.clear();
            },
            None => {
                let fresh = names.len();
                proof {
                    assert(names.deep_view().len() == names@.len());
                }
                tokens.push(Token::Name(fresh as i32));
                let copy = crate::ast::clone_bytes(buf);
                names.push(copy);
                buf.clear();
                proof {
                    let dv_old = old(names).deep_view();
                    assert forall|j: int| 0 <= j < dv_old.len() implies names.deep_view()[j]
                        == dv_old[j] by {
                        assert(names@[j] == old(names)@[j]);
                    }
                    assert(names.deep_view()[dv_old.len() as int] =~= old(buf)@);
                    assert(names.deep_view() =~= dv_old.push(old(buf)@));
                }
            },
        }
    }
}

/// Splits grammar text into tokens; returns them with the number of rule
/// names met and the name table itself, `main` always first.  The result
/// is exactly what the spec-level tokenizer `tk_run` yields on the bytes.
pub fn tokenize(grammar: &[u8]) -> (r: (Vec<Token>, i32, Vec<Vec<u8>>))
    requires
        grammar@.len() + 2 < 0x7FFF_FFFF,
    ensures
        ({
            let s = tk_run(grammar@, grammar@.len() as int);
            r.0@ == s.tokens && r.2.deep_view() == s.names && r.1 == s.names.len()
        }),
        tokens_name_bound(r.0@, r.1 as int),
        r.1 >= 1,
        r.0@.len() <= 2 * grammar@.len(),
        r.2@.len() == r.1,
{
    let n = grammar.len();
    let mut tokens: Vec<Token> = Vec::new();
    let mut names: Vec<Vec<u8>> = Vec::new();
    let mut buf: Vec<u8> = Vec::new();
    let mut in_quote = false;
    let mut in_bracket = false;
    let mut escaped = false;
    let mut seed: Vec<u8> = Vec::new();
    seed.push(109);
    seed.push(97);
    seed.push(105);
    seed.push(110);
    let ghost seed_view = seed@;
    names.push(seed);
    proof {
        assert(seed_view =~= seq![109u8, 97u8, 105u8, 110u8]);
        assert(names.deep_view()[0] =~= seed_view);
        assert(names.deep_view() =~= tk_run(grammar@, 0).names);
    }
    let mut t: usize = 0;
    while t < n
        invariant
            t <= n,
            n == grammar@.len(),
            grammar@.len() + 2 < 0x7FFF_FFFF,
            tokens@ == tk_run(grammar@, t as int).tokens,
            names.deep_view() == tk_run(grammar@, t as int).names,
            buf@ == tk_run(grammar@, t as int).buf,
            in_quote == tk_run(grammar@, t as int).in_quote,
            in_bracket == tk_run(grammar@, t as int).in_bracket,
            escaped == tk_run(grammar@, t as int).escaped,
        decreases n - t,
    {
        let ghost pre = tk_run(grammar@, t as int);
        proof {
            lemma_tk_names_len(grammar@, t as int);
        }
        let b = grammar[t];
        if in_quote || in_bracket {
            if escaped {
                let c = if b == 116 {
                    9
                } else if b == 114 {
                    13
                } else if b == 110 {
                    10
                } else {
                    b
                };
                tokens.push(Token::Letter(c));
                escaped = false;
            } else {
                if b == 45 {
                    if in_bracket {
                        tokens.push(Token::Dash);
                    } else {
                        tokens.push(Token::Letter(45));
                    }
                } else if b == 39 && !in_bracket {
                    tokens.push(Token::SingleQuote);
                    in_quote = false;
                } else if b == 34 && !in_bracket {
                    tokens.push(Token::DoubleQuote);
                    in_quote = false;
                } else if b == 93 && !in_quote {
                    tokens.push(Token::CloseBracket);
                    in_bracket = false;
                } else if b == 92 {
                    escaped = true;
                } else {
                    tokens.push(Token::Letter(b));
                }
            }
        } else {
            if !is_word(b) {
                flush_buf(&mut tokens, &mut names, &mut buf);
            }
            if b == 123 {
                tokens.push(Token::OpenBrace);
            } else if b == 125 {
                tokens.push(Token::CloseBrace);
            } else if b == 40 {
                tokens.push(Token::OpenParen);
            } else if b == 41 {
                tokens.push(Token::CloseParen);
            } else if b == 46 {
                tokens.push(Token::Dot);
            } else if b == 43 {
                tokens.push(Token::Plus);
            } else if b == 42 {
                tokens.push(Token::Asterik);
            } else if b == 63 {
                tokens.push(Token::Question);
            } else if b == 33 {
                tokens.push(Token::Exclamation);
            } else if b == 38 {
                tokens.push(Token::Ambersand);
            } else if b == 47 {
                tokens.push(Token::Slash);
            } else if b == 45 {
                tokens.push(Token::Dash);
            } else if b == 58 {
                tokens.push(Token::Colon);
            } else if b == 91 {
                tokens.push(Token::OpenBracket);
                in_bracket = true;
            } else if b == 93 {
                tokens.push(Token::CloseBracket);
                in_bracket = false;
            } else if b == 39 {
                tokens.push(Token::SingleQuote);
                in_quote = true;
            } else if b == 34 {
                tokens.push(Token::DoubleQuote);
                in_quote = true;
            } else if is_word(b) {
                buf.push(b);
            }
        }
        t = t + 1;
        proof {
            let post = tk_run(grammar@, t as int);
            assert(post == tk_step(pre, grammar@[t - 1]));
            assert(tokens@ == post.tokens);
            assert(names.deep_view() == post.names);
            assert(buf@ == post.buf);
        }
    }
    proof {
        lemma_tk_names_len(grammar@, n as int);
        lemma_tk_name_ids(grammar@, n as int);
        lemma_tk_tokens_len(grammar@, n as int);
    }
    let count = names.len() as i32;
    (tokens, count, names)
}

/// A pattern as a mathematical value: the shape of `Pattern` with
/// sequences in place of vectors, so that the parser's result can be
/// written down spec-side.
pub ghost enum GPat {
    Class(Seq<(u8, Option<u8>)>),
    Lit(Seq<u8>),
    Any,
    Var(i32, i32, usize, bool),
    Choice(Box<GPat>, Box<GPat>),
    Star(Box<GPat>),
    Repeat(Box<GPat>),
    Group(Seq<GPat>),
    Opt(Box<GPat>),
    Look(bool, Box<GPat>),
}

/// The mathematical value of a pattern.
pub open spec fn g_view(p: Pattern) -> GPat
    decreases p, 1int, 0int,
{
    match p {
        Pattern::CharClass(d) => GPat::Class(d@),
        Pattern::CharSequence(d) => GPat::Lit(d@),
        Pattern::CharAny => GPat::Any,
        Pattern::Variable(a, b, c, f) => GPat::Var(a, b, c, f),
        Pattern::Choice(l, r) => GPat::Choice(Box::new(g_view(*l)), Box::new(g_view(*r))),
        Pattern::ZeroOrMore(d) => GPat::Star(Box::new(g_view(*d))),
        Pattern::OneOrMore(d) => GPat::Repeat(Box::new(g_view(*d))),
        Pattern::Sequence(d) => GPat::Group(g_view_list(d@, d@.len() as int)),
        Pattern::Optional(d) => GPat::Opt(Box::new(g_view(*d))),
        Pattern::Lookahead(s, d) => GPat::Look(s, Box::new(g_view(*d))),
    }
}

/// The mathematical values of the first `up_to` members of a sequence.
pub open spec fn g_view_list(ps: Seq<Box<Pattern>>, up_to: int) -> Seq<GPat>
    decreases ps, 0int, up_to,
{
    if up_to <= 0 || up_to > ps.len() {
        Seq::empty()
    } else {
        g_view_list(ps, up_to - 1).push(g_view(*ps[up_to - 1]))
    }
}

/// What one primary term parses to: a rule reference with an optional
/// precedence annotation, a parenthesized alternation, a literal, a class,
/// or the any-byte dot.
pub open spec fn sp_primary(toks: Seq<Token>, i: int) -> Result<(GPat, int), int>
    decreases toks.len() - i, 6int,
{
    if i < 0 || i >= toks.len() {
        Err(i)
    } else {
        match toks[i] {
            Token::Name(id) => {
                if i + 1 < toks.len() && toks[i + 1] is OpenBrace {
                    Err(i)
                } else if i + 1 < toks.len() && toks[i + 1] is Colon {
                    if i + 2 < toks.len() {
                        match toks[i + 2] {
                            Token::Number(num) => Ok((GPat::Var(id, num, 0, false), i + 3)),
                            _ => Err(i + 2),
                        }
                    } else {
                        Err(i + 2)
                    }
                } else {
                    Ok((GPat::Var(id, -1i32, 0, false), i + 1))
                }
            },
            Token::OpenParen => {
                match sp_expression(toks, i + 1) {
                    Ok((p, i2)) => {
                        if i2 < toks.len() && toks[i2] is CloseParen {
                            Ok((p, i2 + 1))
                        } else {
                            Err(i2)
                        }
                    },
                    Err(x) => Err(x),
                }
            },
            Token::SingleQuote => sp_literal(toks, i),
            Token::DoubleQuote => sp_literal(toks, i),
            Token::OpenBracket => sp_class(toks, i),
            Token::Dot => Ok((GPat::Any, i + 1)),
            _ => Err(i),
        }
    }
}

/// What a suffixed term parses to.
pub open spec fn sp_suffix(toks: Seq<Token>, i: int) -> Result<(GPat, int), int>
    decreases toks.len() - i, 7int,
{
    match sp_primary(toks, i) {
        Ok((p, i2)) => {
            if i2 < toks.len() {
                match toks[i2] {
                    Token::Plus => Ok((GPat::Repeat(Box::new(p)), i2 + 1)),
                    Token::Asterik => Ok((GPat::Star(Box::new(p)), i2 + 1)),
                    Token::Question => Ok((GPat::Opt(Box::new(p)), i2 + 1)),
                    _ => Ok((p, i2)),
                }
            } else {
                Ok((p, i2))
            }
        },
        Err(x) => Err(x),
    }
}

/// What a prefixed term parses to.
pub open spec fn sp_prefix(toks: Seq<Token>, i: int) -> Result<(GPat, int), int>
    decreases toks.len() - i, 8int,
{
    let amp = 0 <= i < toks.len() && toks[i] is Ambersand;
    let bang = 0 <= i < toks.len() && toks[i] is Exclamation;
    let cur = if amp || bang {
        i + 1
    } else {
        i
    };
    match sp_suffix(toks, cur) {
        Ok((p, i2)) => {
            if amp {
                Ok((GPat::Look(true, Box::new(p)), i2))
            } else if bang {
                Ok((GPat::Look(false, Box::new(p)), i2))
            } else {
                Ok((p, i2))
            }
        },
        Err(x) => Err(x),
    }
}

/// The run of further prefixed terms a sequence swallows after its first:
/// the terms parsed, and where the run ends.
pub open spec fn sp_seq_more(toks: Seq<Token>, i: int) -> (Seq<GPat>, int)
    decreases toks.len() - i, 10int,
{
    match sp_prefix(toks, i) {
        Ok((p, i2)) => {
            if i < i2 <= toks.len() {
                let rest = sp_seq_more(toks, i2);
                (seq![p] + rest.0, rest.1)
            } else {
                (Seq::empty(), i)
            }
        },
        Err(_) => (Seq::empty(), i),
    }
}

/// What a sequence of prefixed terms parses to: the single term itself, or
/// a group of two or more.
pub open spec fn sp_sequence(toks: Seq<Token>, i: int) -> Result<(GPat, int), int>
    decreases toks.len() - i, 11int,
{
    match sp_prefix(toks, i) {
        Ok((p, i2)) => {
            if i < i2 <= toks.len() {
                let rest = sp_seq_more(toks, i2);
                let items = seq![p] + rest.0;
                if items.len() > 1 {
                    Ok((GPat::Group(items), rest.1))
                } else {
                    Ok((p, rest.1))
                }
            } else {
                Err(i)
            }
        },
        Err(x) => Err(x),
    }
}

/// The `/`-separated sequences an alternation swallows after its first:
/// the sequences parsed and where the run ends, or the position of a
/// sequence that failed after a `/`.
pub open spec fn sp_expr_more(toks: Seq<Token>, i: int) -> Result<(Seq<GPat>, int), int>
    decreases toks.len() - i, 12int,
{
    if 0 <= i < toks.len() && toks[i] is Slash {
        match sp_sequence(toks, i + 1) {
            Ok((p, i2)) => {
                if i < i2 <= toks.len() {
                    match sp_expr_more(toks, i2) {
                        Ok((rest, end)) => Ok((seq![p] + rest, end)),
                        Err(x) => Err(x),
                    }
                } else {
                    Ok((Seq::empty(), i))
                }
            },
            Err(x) => Err(x),
        }
    } else {
        Ok((Seq::empty(), i))
    }
}

/// Alternatives folded into a right-nested ordered choice.
pub open spec fn sp_fold_choice(items: Seq<GPat>) -> GPat
    decreases items.len(),
{
    if items.len() == 0 {
        GPat::Any
    } else if items.len() == 1 {
        items[0]
    } else {
        GPat::Choice(Box::new(items[0]), Box::new(sp_fold_choice(items.drop_first())))
    }
}

/// What an alternation parses to.
pub open spec fn sp_expression(toks: Seq<Token>, i: int) -> Result<(GPat, int), int>
    decreases toks.len() - i, 13int,
{
    match sp_sequence(toks, i) {
        Ok((p, i2)) => {
            if i < i2 <= toks.len() {
                match sp_expr_more(toks, i2) {
                    Ok((rest, end)) => Ok((sp_fold_choice(seq![p] + rest), end)),
                    Err(x) => Err(x),
                }
            } else {
                Err(i)
            }
        },
        Err(x) => Err(x),
    }
}

/// The first position at or after `i` that does not hold a letter token.
pub open spec fn sp_lit_end(toks: Seq<Token>, i: int) -> int
    decreases toks.len() - i,
{
    if 0 <= i < toks.len() && toks[i] is Letter {
        sp_lit_end(toks, i + 1)
    } else {
        i
    }
}

/// The letter bytes between `i` and `end`.
pub open spec fn sp_letters(toks: Seq<Token>, i: int, end: int) -> Seq<u8> {
    Seq::new(
        if end >= i { (end - i) as nat } else { 0 },
        |t: int|
            match toks[i + t] {
                Token::Letter(x) => x,
                _ => 0u8,
            },
    )
}

/// What a quoted literal parses to: the letters between two matching
/// quotes.
pub open spec fn sp_literal(toks: Seq<Token>, i: int) -> Result<(GPat, int), int>
    decreases toks.len() - i, 1int,
{
    let left_single = 0 <= i < toks.len() && toks[i] is SingleQuote;
    let left_double = 0 <= i < toks.len() && toks[i] is DoubleQuote;
    let cur = sp_lit_end(toks, i + 1);
    if cur >= toks.len() {
        Err(cur + 1)
    } else {
        let right_single = toks[cur] is SingleQuote;
        let right_double = toks[cur] is DoubleQuote;
        if (left_single && right_single) || (left_double && right_double) {
            Ok((GPat::Lit(sp_letters(toks, i + 1, cur)), cur + 1))
        } else {
            Err(cur + 1)
        }
    }
}

/// The ranges a class scan collects from `i` on, and where it stops, or
/// the position of a dash with no letter after it.
pub open spec fn sp_class_scan(toks: Seq<Token>, i: int) -> Result<
    (Seq<(u8, Option<u8>)>, int),
    int,
>
    decreases toks.len() - i, 1int,
{
    if !(0 <= i < toks.len()) {
        Ok((Seq::empty(), i))
    } else {
        match toks[i] {
            Token::Letter(x) => {
                if i + 1 < toks.len() && toks[i + 1] is Dash {
                    if i + 2 >= toks.len() {
                        Err(i + 2)
                    } else {
                        match toks[i + 2] {
                            Token::Letter(y) => {
                                match sp_class_scan(toks, i + 2) {
                                    Ok((rest, end)) => Ok(
                                        (seq![(x, Some(y))] + rest, end),
                                    ),
                                    Err(e) => Err(e),
                                }
                            },
                            _ => Err(i + 2),
                        }
                    }
                } else {
                    match sp_class_scan(toks, i + 1) {
                        Ok((rest, end)) => Ok((seq![(x, None)] + rest, end)),
                        Err(e) => Err(e),
                    }
                }
            },
            _ => Ok((Seq::empty(), i)),
        }
    }
}

/// What a character class parses to: a non-empty run of ranges between
/// brackets.
pub open spec fn sp_class(toks: Seq<Token>, i: int) -> Result<(GPat, int), int>
    decreases toks.len() - i, 2int,
{
    if !(0 <= i < toks.len() && toks[i] is OpenBracket) {
        Err(i)
    } else {
        match sp_class_scan(toks, i + 1) {
            Ok((ranges, cur)) => {
                if cur >= toks.len() {
                    Err(cur)
                } else if !(toks[cur] is CloseBracket) {
                    Err(cur)
                } else if ranges.len() > 0 {
                    Ok((GPat::Class(ranges), cur + 1))
                } else {
                    Err(cur + 1)
                }
            },
            Err(e) => Err(e),
        }
    }
}

/// The mathematical values of a run of patterns.
pub open spec fn g_list(s: Seq<Pattern>) -> Seq<GPat> {
    Seq::new(s.len(), |j: int| g_view(s[j]))
}

/// How many instructions a pattern of this shape compiles to.
pub open spec fn g_emit_len(g: GPat) -> int
    decreases g, 1int, 0int,
{
    match g {
        GPat::Class(rs) => rs.len() as int,
        GPat::Lit(bs) => bs.len() as int,
        GPat::Any => 1,
        GPat::Var(_, _, _, _) => 1,
        GPat::Choice(l, r) => g_emit_len(*l) + g_emit_len(*r) + 2,
        GPat::Star(d) => g_emit_len(*d) + 2,
        GPat::Repeat(d) => g_emit_len(*d) + g_emit_len(*d) + 2,
        GPat::Group(items) => g_emit_len_list(items, items.len() as int),
        GPat::Opt(d) => g_emit_len(*d) + 2,
        GPat::Look(s, d) => g_emit_len(*d) + (if s {
            4int
        } else {
            2int
        }),
    }
}

/// The summed emission length of the first `up_to` members of a group.
pub open spec fn g_emit_len_list(items: Seq<GPat>, up_to: int) -> int
    decreases items, 0int, up_to,
{
    if up_to <= 0 || up_to > items.len() {
        0
    } else {
        g_emit_len_list(items, up_to - 1) + g_emit_len(items[up_to - 1])
    }
}

/// The compiled program size of the first `up_to` rules of these shapes.
pub open spec fn g_rules_size(shapes: Seq<GPat>, up_to: int) -> int
    decreases up_to,
{
    if up_to <= 0 || up_to > shapes.len() {
        0
    } else {
        g_rules_size(shapes, up_to - 1) + 3 + g_emit_len(shapes[up_to - 1])
    }
}

/// The compiled program size of a grammar with these rule shapes.
pub open spec fn g_program_size(shapes: Seq<GPat>) -> int {
    2 + g_rules_size(shapes, shapes.len() as int)
}

/// A member list's view indexes pointwise.
proof fn lemma_g_view_list_index(ps: Seq<Box<Pattern>>, up_to: int)
    requires
        0 <= up_to <= ps.len(),
    ensures
        g_view_list(ps, up_to).len() == up_to,
        forall|k: int| 0 <= k < up_to ==> g_view_list(ps, up_to)[k] == g_view(*ps[k]),
    decreases up_to,
{
    if up_to > 0 {
        lemma_g_view_list_index(ps, up_to - 1);
    }
}

/// A pattern's shape determines its emission length.
proof fn lemma_g_emit_len(p: Pattern)
    ensures
        g_emit_len(g_view(p)) == emit(p).len(),
    decreases p, 1int, 0int,
{
    match p {
        Pattern::Choice(le, ri) => {
            lemma_g_emit_len(*le);
            lemma_g_emit_len(*ri);
            assert(g_emit_len(g_view(p)) == emit(p).len());
        },
        Pattern::ZeroOrMore(d) => {
            lemma_g_emit_len(*d);
            assert(g_emit_len(g_view(p)) == emit(p).len());
        },
        Pattern::OneOrMore(d) => {
            lemma_g_emit_len(*d);
            assert(g_emit_len(g_view(p)) == emit(p).len());
        },
        Pattern::Sequence(data) => {
            lemma_g_view_list_index(data@, data@.len() as int);
            lemma_g_emit_len_list(data@, data@.len() as int);
            assert(g_emit_len(g_view(p)) == emit(p).len());
        },
        Pattern::Optional(d) => {
            lemma_g_emit_len(*d);
            assert(g_emit_len(g_view(p)) == emit(p).len());
        },
        Pattern::Lookahead(_, d) => {
            lemma_g_emit_len(*d);
            assert(g_emit_len(g_view(p)) == emit(p).len());
        },
        _ => {
            assert(g_emit_len(g_view(p)) == emit(p).len());
        },
    }
}

proof fn lemma_g_emit_len_list(ps: Seq<Box<Pattern>>, up_to: int)
    requires
        0 <= up_to <= ps.len(),
    ensures
        g_emit_len_list(g_view_list(ps, ps.len() as int), up_to) == emit_seq(ps, up_to).len(),
    decreases ps, 0int, up_to,
{
    lemma_g_view_list_index(ps, ps.len() as int);
    if up_to > 0 {
        lemma_g_emit_len_list(ps, up_to - 1);
        lemma_g_emit_len(*ps[up_to - 1]);
    }
}

/// A grammar's rule shapes determine its compiled program size.
pub proof fn lemma_g_program_size(rules: Seq<Pattern>)
    ensures
        g_program_size(g_list(rules)) == program_size(rules),
{
    lemma_g_rules_size(rules, rules.len() as int);
}

proof fn lemma_g_rules_size(rules: Seq<Pattern>, up_to: int)
    requires
        up_to <= rules.len(),
    ensures
        g_rules_size(g_list(rules), up_to) == blocks(rules, up_to).len(),
    decreases up_to,
{
    if up_to > 0 {
        lemma_g_rules_size(rules, up_to - 1);
        lemma_g_emit_len(rules[up_to - 1]);
        assert(blocks(rules, up_to) == blocks(rules, up_to - 1) + rule_block(
            rules[up_to - 1],
            (up_to - 1) as usize,
        ));
        assert(g_list(rules)[up_to - 1] == g_view(rules[up_to - 1]));
    }
}

/// The mathematical values of a run of rule definitions.
pub open spec fn g_pairs(s: Seq<(i32, Pattern)>) -> Seq<(i32, GPat)> {
    Seq::new(s.len(), |j: int| (s[j].0, g_view(s[j].1)))
}

/// The mathematical values of a partially filled rule table.
pub open spec fn g_slots(s: Seq<Option<Pattern>>) -> Seq<Option<GPat>> {
    Seq::new(
        s.len(),
        |j: int|
            match s[j] {
                Some(p) => Some(g_view(p)),
                None => None,
            },
    )
}

/// What the run of `name { expression }` definitions from `i` on parses
/// to: the rule ids with their patterns, in the order written.
pub open spec fn sp_rules(toks: Seq<Token>, i: int) -> Result<Seq<(i32, GPat)>, int>
    decreases toks.len() - i, 20int,
{
    if i < 0 || i >= toks.len() {
        Ok(Seq::empty())
    } else {
        match toks[i] {
            Token::Name(id) => {
                if i + 1 >= toks.len() {
                    Err(i + 1)
                } else if !(toks[i + 1] is OpenBrace) {
                    Err(i + 2)
                } else {
                    match sp_expression(toks, i + 2) {
                        Ok((p, i3)) => {
                            if i3 < toks.len() && toks[i3] is CloseBrace {
                                if i < i3 + 1 {
                                    match sp_rules(toks, i3 + 1) {
                                        Ok(rest) => Ok(seq![(id, p)] + rest),
                                        Err(x) => Err(x),
                                    }
                                } else {
                                    Err(i)
                                }
                            } else {
                                Err(i3)
                            }
                        },
                        Err(x) => Err(x),
                    }
                }
            },
            _ => Err(i),
        }
    }
}

/// The definitions placed into the rule table, each at its id; placement
/// fails on an id out of range or defined twice.
pub open spec fn sp_place(slots: Seq<Option<GPat>>, pairs: Seq<(i32, GPat)>) -> Option<
    Seq<Option<GPat>>,
>
    decreases pairs.len(),
{
    if pairs.len() == 0 {
        Some(slots)
    } else {
        let id = pairs[0].0;
        if 0 <= id < slots.len() && slots[id as int] is None {
            sp_place(slots.update(id as int, Some(pairs[0].1)), pairs.drop_first())
        } else {
            None
        }
    }
}

/// The filled rule table read off in id order; fails when a rule is
/// missing.
pub open spec fn sp_extract(slots: Seq<Option<GPat>>) -> Option<Seq<GPat>>
    decreases slots.len(),
{
    if slots.len() == 0 {
        Some(Seq::empty())
    } else {
        match slots[0] {
            Some(p) => match sp_extract(slots.drop_first()) {
                Some(rest) => Some(seq![p] + rest),
                None => None,
            },
            None => None,
        }
    }
}

/// What the whole token stream parses to: the rule patterns in id order —
/// exactly the ids `0` to `rule_count` less one, each defined once — or
/// the token index at which parsing stopped.
pub open spec fn sp_parse(toks: Seq<Token>, rule_count: int) -> Result<Seq<GPat>, int> {
    match sp_rules(toks, 0) {
        Err(x) => Err(x),
        Ok(pairs) => match sp_place(Seq::new(rule_count as nat, |_j: int| None), pairs) {
            None => Err(toks.len() as int),
            Some(slots) => match sp_extract(slots) {
                Some(rules) => Ok(rules),
                None => Err(toks.len() as int),
            },
        },
    }
}

/// Viewing a prefix of a member list ignores what lies beyond it.
proof fn lemma_g_view_list_push(ps: Seq<Box<Pattern>>, x: Box<Pattern>, k: int)
    requires
        k <= ps.len(),
    ensures
        g_view_list(ps.push(x), k) == g_view_list(ps, k),
    decreases k,
{
    if k > 0 {
        lemma_g_view_list_push(ps, x, k - 1);
    }
}

/// Folding the last two alternatives first gives the same right-nested
/// choice.
proof fn lemma_fold_snoc2(a: Seq<GPat>, x: GPat, y: GPat)
    ensures
        sp_fold_choice(a + seq![x, y]) == sp_fold_choice(
            a + seq![GPat::Choice(Box::new(x), Box::new(y))],
        ),
    decreases a.len(),
{
    let s2 = a + seq![x, y];
    let s1 = a + seq![GPat::Choice(Box::new(x), Box::new(y))];
    if a.len() == 0 {
        assert(s2.len() == 2);
        assert(s2[0] == x);
        assert(s2.drop_first() =~= seq![y]);
        assert(seq![y][0] == y);
        assert(sp_fold_choice(seq![y]) == y);
        assert(sp_fold_choice(s2) == GPat::Choice(Box::new(x), Box::new(y)));
        assert(s1.len() == 1);
        assert(s1[0] == GPat::Choice(Box::new(x), Box::new(y)));
        assert(sp_fold_choice(s1) == GPat::Choice(Box::new(x), Box::new(y)));
    } else {
        lemma_fold_snoc2(a.drop_first(), x, y);
        assert(s2.drop_first() =~= a.drop_first() + seq![x, y]);
        assert(s1.drop_first() =~= a.drop_first() + seq![GPat::Choice(Box::new(x), Box::new(y))]);
        assert(s2[0] == a[0]);
        assert(s1[0] == a[0]);
        assert(sp_fold_choice(s2) == GPat::Choice(
            Box::new(a[0]),
            Box::new(sp_fold_choice(s2.drop_first())),
        ));
        assert(sp_fold_choice(s1) == GPat::Choice(
            Box::new(a[0]),
            Box::new(sp_fold_choice(s1.drop_first())),
        ));
    }
}

/// Parses an alternation: a sequence, then any number of `/`-separated
/// sequences, folded into a right-nested ordered choice.
#[verifier::loop_isolation(false)]
fn parse_expression(tokens: &Vec<Token>, i: usize, bound: Ghost<int>) -> (r: Result<
    (Pattern, usize),
    usize,
>)
    requires
        i <= tokens@.len(),
        tokens@.len() + 4 < usize::MAX,
        tokens_name_bound(tokens@, bound@),
    ensures
        r matches Ok(pr) ==> i < pr.1 <= tokens@.len() && vars_ok(pr.0, bound@),
        (match r {
            Ok(pr) => sp_expression(tokens@, i as int) == Ok::<(GPat, int), int>(
                (g_view(pr.0), pr.1 as int),
            ),
            Err(x) => sp_expression(tokens@, i as int) == Err::<(GPat, int), int>(x as int),
        }),
    decreases tokens@.len() - i, 4int,
{
    let first = match parse_sequence(tokens, i, bound) {
        Ok(pr) => pr,
        Err(x) => {
            return Err(x);
        },
    };
    let ghost gfirst = g_view(first.0);
    let mut items: Vec<Pattern> = Vec::new();
    let mut cur = first.1;
    items.push(first.0);
    proof {
        assert(g_list(items@) =~= seq![gfirst]);
    }
    loop
        invariant
            i < cur <= tokens@.len(),
            items@.len() >= 1,
            tokens_name_bound(tokens@, bound@),
            forall|j: int| 0 <= j < items@.len() ==> vars_ok(#[trigger] items@[j], bound@),
            sp_expression(tokens@, i as int) == (match sp_expr_more(tokens@, cur as int) {
                Ok(rest) => Ok::<(GPat, int), int>(
                    (sp_fold_choice(g_list(items@) + rest.0), rest.1),
                ),
                Err(x) => Err::<(GPat, int), int>(x),
            }),
        decreases tokens@.len() - cur,
    {
        let more = cur < tokens.len() && match tokens[cur] {
            Token::Slash => true,
            _ => false,
        };
        if !more {
            proof {
                assert(sp_expr_more(tokens@, cur as int) == Ok::<(Seq<GPat>, int), int>(
                    (Seq::empty(), cur as int),
                ));
                assert(g_list(items@) + Seq::<GPat>::empty() =~= g_list(items@));
            }
            break ;
        }
        match parse_sequence(tokens, cur + 1, bound) {
            Ok(pr) => {
                let ghost items_old = items@;
                let ghost gq = g_view(pr.0);
                let ghost cur0 = cur as int;
                items.push(pr.0);
                cur = pr.1;
                proof {
                    assert(g_list(items@) =~= g_list(items_old).push(gq));
                    match sp_expr_more(tokens@, pr.1 as int) {
                        Ok((rest2, end)) => {
                            assert(sp_expr_more(tokens@, cur0) == Ok::<(Seq<GPat>, int), int>(
                                (seq![gq] + rest2, end),
                            ));
                            assert(g_list(items_old) + (seq![gq] + rest2) =~= g_list(items@)
                                + rest2);
                        },
                        Err(e) => {
                            assert(sp_expr_more(tokens@, cur0) == Err::<(Seq<GPat>, int), int>(
                                e,
                            ));
                        },
                    }
                }
            },
            Err(x) => {
                return Err(x);
            },
        }
    }
    let ghost items_all = items@;
    let ghost end_pos = cur as int;
    let mut result = match items.pop() {
        Some(p) => p,
        None => {
            proof {
                assert(false);
            }
            Pattern::CharAny
        },
    };
    proof {
        assert(g_list(items@) + seq![g_view(result)] =~= g_list(items_all));
    }
    while items.len() > 0
        invariant
            vars_ok(result, bound@),
            forall|j: int| 0 <= j < items@.len() ==> vars_ok(#[trigger] items@[j], bound@),
            sp_fold_choice(g_list(items_all)) == sp_fold_choice(
                g_list(items@) + seq![g_view(result)],
            ),
        decreases items@.len(),
    {
        let ghost items_pre = items@;
        match items.pop() {
            Some(p) => {
                let ghost items_new = items@;
                let ghost gp = g_view(p);
                let ghost gr = g_view(result);
                result = Pattern::Choice(Box::new(p), Box::new(result));
                proof {
                    assert(g_view(result) == GPat::Choice(Box::new(gp), Box::new(gr)));
                    assert(g_list(items_pre) =~= g_list(items_new).push(gp));
                    assert((g_list(items_new).push(gp)) + seq![gr] =~= g_list(items_new) + seq![
                        gp,
                        gr,
                    ]);
                    lemma_fold_snoc2(g_list(items_new), gp, gr);
                }
            },
            None => {},
        }
    }
    proof {
        assert(Seq::<GPat>::empty() + seq![g_view(result)] =~= seq![g_view(result)]);
        assert(g_list(items@) =~= Seq::<GPat>::empty());
        assert(seq![g_view(result)][0] == g_view(result));
        assert(sp_fold_choice(seq![g_view(result)]) == g_view(result));
    }
    Ok((result, cur))
}

/// Parses a run of one or more prefixed terms into a sequence.
#[verifier::loop_isolation(false)]
fn parse_sequence(tokens: &Vec<Token>, i: usize, bound: Ghost<int>) -> (r: Result<
    (Pattern, usize),
    usize,
>)
    requires
        i <= tokens@.len(),
        tokens@.len() + 4 < usize::MAX,
        tokens_name_bound(tokens@, bound@),
    ensures
        r matches Ok(pr) ==> i < pr.1 <= tokens@.len() && vars_ok(pr.0, bound@),
        (match r {
            Ok(pr) => sp_sequence(tokens@, i as int) == Ok::<(GPat, int), int>(
                (g_view(pr.0), pr.1 as int),
            ),
            Err(x) => sp_sequence(tokens@, i as int) == Err::<(GPat, int), int>(x as int),
        }),
    decreases tokens@.len() - i, 3int,
{
    let first = match parse_prefix(tokens, i, bound) {
        Ok(pr) => pr,
        Err(x) => {
            return Err(x);
        },
    };
    let ghost gfirst = g_view(first.0);
    let mut items: Vec<Pattern> = Vec::new();
    let mut cur = first.1;
    items.push(first.0);
    proof {
        assert(g_list(items@) =~= seq![gfirst]);
        assert(g_list(items@).skip(1) =~= Seq::<GPat>::empty());
        assert(Seq::<GPat>::empty() + sp_seq_more(tokens@, cur as int).0 =~= sp_seq_more(
            tokens@,
            cur as int,
        ).0);
    }
    loop
        invariant
            i < cur <= tokens@.len(),
            items@.len() >= 1,
            items@[0] == first.0,
            tokens_name_bound(tokens@, bound@),
            forall|j: int| 0 <= j < items@.len() ==> vars_ok(#[trigger] items@[j], bound@),
            sp_seq_more(tokens@, first.1 as int).0 == g_list(items@).skip(1) + sp_seq_more(
                tokens@,
                cur as int,
            ).0,
            sp_seq_more(tokens@, first.1 as int).1 == sp_seq_more(tokens@, cur as int).1,
        decreases tokens@.len() - cur,
    {
        let ghost cur0 = cur as int;
        match parse_prefix(tokens, cur, bound) {
            Ok(pr) => {
                let ghost items_old = items@;
                let ghost gq = g_view(pr.0);
                items.push(pr.0);
                cur = pr.1;
                proof {
                    assert(sp_seq_more(tokens@, cur0).0 == seq![gq] + sp_seq_more(
                        tokens@,
                        pr.1 as int,
                    ).0);
                    assert(g_list(items@) =~= g_list(items_old).push(gq));
                    assert(g_list(items@).skip(1) =~= g_list(items_old).skip(1).push(gq));
                    assert(g_list(items_old).skip(1) + (seq![gq] + sp_seq_more(
                        tokens@,
                        pr.1 as int,
                    ).0) =~= g_list(items@).skip(1) + sp_seq_more(tokens@, pr.1 as int).0);
                }
            },
            Err(_) => {
                proof {
                    assert(sp_seq_more(tokens@, cur0).0 =~= Seq::<GPat>::empty());
                    assert(g_list(items@).skip(1) + Seq::<GPat>::empty() =~= g_list(
                        items@,
                    ).skip(1));
                }
                break ;
            },
        }
    }
    let ghost items_all = items@;
    proof {
        assert(seq![gfirst] + g_list(items_all).skip(1) =~= g_list(items_all));
    }
    if items.len() > 1 {
        let mut boxed: Vec<Box<Pattern>> = Vec::new();
        while items.len() > 0
            invariant
                forall|j: int| 0 <= j < items@.len() ==> vars_ok(#[trigger] items@[j], bound@),
                forall|j: int| 0 <= j < boxed@.len() ==> vars_ok(*#[trigger] boxed@[j], bound@),
                g_view_list(boxed@, boxed@.len() as int) + g_list(items@) == g_list(items_all),
            decreases items@.len(),
        {
            let ghost items_old = items@;
            let ghost boxed_old = boxed@;
            let p = items.remove(0);
            let ghost gp = g_view(p);
            boxed.push(Box::new(p));
            proof {
                lemma_g_view_list_push(boxed_old, Box::new(p), boxed_old.len() as int);
                assert(g_view_list(boxed@, boxed@.len() as int) =~= g_view_list(
                    boxed_old,
                    boxed_old.len() as int,
                ).push(gp));
                assert(g_list(items@) =~= g_list(items_old).skip(1));
                assert(g_view_list(boxed@, boxed@.len() as int) + g_list(items@)
                    =~= g_view_list(boxed_old, boxed_old.len() as int) + g_list(items_old));
            }
        }
        let ghost boxed_view = boxed@;
        let out = Pattern::Sequence(boxed);
        proof {
            assert(vars_ok_list(boxed_view, bound@, boxed_view.len() as int));
            assert(vars_ok(out, bound@));
            assert(g_list(items@) =~= Seq::<GPat>::empty());
            assert(g_view_list(boxed_view, boxed_view.len() as int) + Seq::<GPat>::empty()
                =~= g_view_list(boxed_view, boxed_view.len() as int));
            assert(g_view(out) == GPat::Group(g_list(items_all)));
        }
        Ok((out, cur))
    } else {
        match items.pop() {
            Some(p) => {
                proof {
                    assert(items_all.len() == 1);
                    assert(p == first.0);
                }
                Ok((p, cur))
            },
            None => {
                proof {
                    assert(false);
                }
                Err(i)
            },
        }
    }
}

/// Parses an optional `&` or `!` lookahead prefix.
#[verifier::loop_isolation(false)]
fn parse_prefix(tokens: &Vec<Token>, i: usize, bound: Ghost<int>) -> (r: Result<
    (Pattern, usize),
    usize,
>)
    requires
        i <= tokens@.len(),
        tokens@.len() + 4 < usize::MAX,
        tokens_name_bound(tokens@, bound@),
    ensures
        r matches Ok(pr) ==> i < pr.1 <= tokens@.len() && vars_ok(pr.0, bound@),
        (match r {
            Ok(pr) => sp_prefix(tokens@, i as int) == Ok::<(GPat, int), int>(
                (g_view(pr.0), pr.1 as int),
            ),
            Err(x) => sp_prefix(tokens@, i as int) == Err::<(GPat, int), int>(x as int),
        }),
    decreases tokens@.len() - i, 2int,
{
    let mut lookahead: Option<bool> = None;
    let mut cur = i;
    if i < tokens.len() {
        match tokens[i] {
            Token::Ambersand => {
                lookahead = Some(true);
                cur = i + 1;
            },
            Token::Exclamation => {
                lookahead = Some(false);
                cur = i + 1;
            },
            _ => {},
        }
    }
    match parse_suffix(tokens, cur, bound) {
        Ok(pr) => {
            match lookahead {
                Some(b) => Ok((Pattern::Lookahead(b, Box::new(pr.0)), pr.1)),
                None => Ok(pr),
            }
        },
        Err(x) => Err(x),
    }
}

/// Parses a primary term with an optional `+`, `*` or `?` suffix.
#[verifier::loop_isolation(false)]
fn parse_suffix(tokens: &Vec<Token>, i: usize, bound: Ghost<int>) -> (r: Result<
    (Pattern, usize),
    usize,
>)
    requires
        i <= tokens@.len(),
        tokens@.len() + 4 < usize::MAX,
        tokens_name_bound(tokens@, bound@),
    ensures
        r matches Ok(pr) ==> i < pr.1 <= tokens@.len() && vars_ok(pr.0, bound@),
        (match r {
            Ok(pr) => sp_suffix(tokens@, i as int) == Ok::<(GPat, int), int>(
                (g_view(pr.0), pr.1 as int),
            ),
            Err(x) => sp_suffix(tokens@, i as int) == Err::<(GPat, int), int>(x as int),
        }),
    decreases tokens@.len() - i, 1int,
{
    let pr = match parse_primary(tokens, i, bound) {
        Ok(pr) => pr,
        Err(x) => {
            return Err(x);
        },
    };
    if pr.1 < tokens.len() {
        match tokens[pr.1] {
            Token::Plus => Ok((Pattern::OneOrMore(Box::new(pr.0)), pr.1 + 1)),
            Token::Asterik => Ok((Pattern::ZeroOrMore(Box::new(pr.0)), pr.1 + 1)),
            Token::Question => Ok((Pattern::Optional(Box::new(pr.0)), pr.1 + 1)),
            _ => Ok(pr),
        }
    } else {
        Ok(pr)
    }
}

/// Parses one primary term: a rule reference with an optional precedence
/// annotation, a parenthesized expression, a literal, a class, or the
/// any-byte dot.
#[verifier::loop_isolation(false)]
fn parse_primary(tokens: &Vec<Token>, i: usize, bound: Ghost<int>) -> (r: Result<
    (Pattern, usize),
    usize,
>)
    requires
        i <= tokens@.len(),
        tokens@.len() + 4 < usize::MAX,
        tokens_name_bound(tokens@, bound@),
    ensures
        r matches Ok(pr) ==> i < pr.1 <= tokens@.len() && vars_ok(pr.0, bound@),
        (match r {
            Ok(pr) => sp_primary(tokens@, i as int) == Ok::<(GPat, int), int>(
                (g_view(pr.0), pr.1 as int),
            ),
            Err(x) => sp_primary(tokens@, i as int) == Err::<(GPat, int), int>(x as int),
        }),
    decreases tokens@.len() - i, 0int,
{
    if i >= tokens.len() {
        return Err(i);
    }
    match tokens[i] {
        Token::Name(id) => {
            proof {
                assert(match tokens@[i as int] {
                    Token::Name(n) => 0 <= n < bound@,
                    _ => true,
                });
            }
            let brace_next = i + 1 < tokens.len() && match tokens[i + 1] {
                Token::OpenBrace => true,
                _ => false,
            };
            if brace_next {
                return Err(i);
            }
            let colon_next = i + 1 < tokens.len() && match tokens[i + 1] {
                Token::Colon => true,
                _ => false,
            };
            if colon_next {
                if i + 2 < tokens.len() {
                    match tokens[i + 2] {
                        Token::Number(num) => Ok((Pattern::Variable(id, num, 0, false), i + 3)),
                        _ => Err(i + 2),
                    }
                } else {
                    Err(i + 2)
                }
            } else {
                Ok((Pattern::Variable(id, -1, 0, false), i + 1))
            }
        },
        Token::OpenParen => {
            match parse_expression(tokens, i + 1, bound) {
                Ok(pr) => {
                    let close = pr.1 < tokens.len() && match tokens[pr.1] {
                        Token::CloseParen => true,
                        _ => false,
                    };
                    if close {
                        Ok((pr.0, pr.1 + 1))
                    } else {
                        Err(pr.1)
                    }
                },
                Err(x) => Err(x),
            }
        },
        Token::SingleQuote => parse_literal(tokens, i),
        Token::DoubleQuote => parse_literal(tokens, i),
        Token::OpenBracket => parse_class(tokens, i),
        Token::Dot => Ok((Pattern::CharAny, i + 1)),
        _ => Err(i),
    }
}

/// Parses a quoted byte literal.
#[verifier::loop_isolation(false)]
fn parse_literal(tokens: &Vec<Token>, i: usize) -> (r: Result<(Pattern, usize), usize>)
    requires
        i < tokens@.len(),
        tokens@.len() + 4 < usize::MAX,
    ensures
        r matches Ok(pr) ==> i < pr.1 <= tokens@.len() && pr.0 is CharSequence,
        (match r {
            Ok(pr) => sp_literal(tokens@, i as int) == Ok::<(GPat, int), int>(
                (g_view(pr.0), pr.1 as int),
            ),
            Err(x) => sp_literal(tokens@, i as int) == Err::<(GPat, int), int>(x as int),
        }),
{
    let left_single = match tokens[i] {
        Token::SingleQuote => true,
        _ => false,
    };
    let left_double = match tokens[i] {
        Token::DoubleQuote => true,
        _ => false,
    };
    let mut letters: Vec<u8> = Vec::new();
    let mut cur = i + 1;
    proof {
        assert(letters@ =~= sp_letters(tokens@, i as int + 1, cur as int));
    }
    loop
        invariant
            i < cur <= tokens@.len(),
            sp_lit_end(tokens@, i as int + 1) == sp_lit_end(tokens@, cur as int),
            letters@ == sp_letters(tokens@, i as int + 1, cur as int),
        decreases tokens@.len() - cur,
    {
        if cur >= tokens.len() {
            break ;
        }
        match tokens[cur] {
            Token::Letter(x) => {
                letters.push(x);
            },
            _ => {
                break ;
            },
        }
        cur = cur + 1;
        proof {
            assert(letters@ =~= sp_letters(tokens@, i as int + 1, cur as int));
        }
    }
    proof {
        assert(sp_lit_end(tokens@, cur as int) == cur as int);
    }
    if cur >= tokens.len() {
        return Err(cur + 1);
    }
    let right_single = match tokens[cur] {
        Token::SingleQuote => true,
        _ => false,
    };
    let right_double = match tokens[cur] {
        Token::DoubleQuote => true,
        _ => false,
    };
    let quote_test = (left_single && right_single) || (left_double && right_double);
    if quote_test {
        Ok((Pattern::CharSequence(letters), cur + 1))
    } else {
        Err(cur + 1)
    }
}

/// Parses a character class.
#[verifier::loop_isolation(false)]
fn parse_class(tokens: &Vec<Token>, i: usize) -> (r: Result<(Pattern, usize), usize>)
    requires
        i < tokens@.len(),
        tokens@.len() + 4 < usize::MAX,
    ensures
        r matches Ok(pr) ==> i < pr.1 <= tokens@.len() && pr.0 is CharClass,
        (match r {
            Ok(pr) => sp_class(tokens@, i as int) == Ok::<(GPat, int), int>(
                (g_view(pr.0), pr.1 as int),
            ),
            Err(x) => sp_class(tokens@, i as int) == Err::<(GPat, int), int>(x as int),
        }),
{
    match tokens[i] {
        Token::OpenBracket => {},
        _ => {
            return Err(i);
        },
    }
    let mut cur = i + 1;
    let mut ranges: Vec<(u8, Option<u8>)> = Vec::new();
    proof {
        match sp_class_scan(tokens@, i as int + 1) {
            Ok((rest, _)) => {
                assert(ranges@ + rest =~= rest);
            },
            Err(_) => {},
        }
    }
    loop
        invariant
            i < cur <= tokens@.len(),
            sp_class_scan(tokens@, i as int + 1) == (match sp_class_scan(
                tokens@,
                cur as int,
            ) {
                Ok(s) => Ok::<(Seq<(u8, Option<u8>)>, int), int>((ranges@ + s.0, s.1)),
                Err(e) => Err::<(Seq<(u8, Option<u8>)>, int), int>(e),
            }),
        decreases tokens@.len() - cur,
    {
        if cur >= tokens.len() {
            break ;
        }
        let ghost cur0 = cur as int;
        let left_letter = match tokens[cur] {
            Token::Letter(x) => x,
            _ => {
                break ;
            },
        };
        cur = cur + 1;
        let mut right_letter: Option<u8> = None;
        let dash = cur < tokens.len() && match tokens[cur] {
            Token::Dash => true,
            _ => false,
        };
        if dash {
            cur = cur + 1;
            if cur >= tokens.len() {
                return Err(cur);
            }
            right_letter = match tokens[cur] {
                Token::Letter(x) => Some(x),
                _ => {
                    return Err(cur);
                },
            };
        }
        let ghost entry = (left_letter, right_letter);
        let ghost ranges_old = ranges@;
        ranges.push((left_letter, right_letter));
        proof {
            let next = if right_letter is Some {
                cur0 + 2
            } else {
                cur0 + 1
            };
            assert(cur as int == next);
            assert(ranges@ == ranges_old.push(entry));
            match sp_class_scan(tokens@, next) {
                Ok((rest, end)) => {
                    assert(sp_class_scan(tokens@, cur0) == Ok::<
                        (Seq<(u8, Option<u8>)>, int),
                        int,
                    >((seq![entry] + rest, end)));
                    assert(ranges_old + (seq![entry] + rest) =~= ranges@ + rest);
                },
                Err(e) => {
                    assert(sp_class_scan(tokens@, cur0) == Err::<
                        (Seq<(u8, Option<u8>)>, int),
                        int,
                    >(e));
                },
            }
        }
    }
    if cur >= tokens.len() {
        return Err(cur);
    }
    match tokens[cur] {
        Token::CloseBracket => {
            cur = cur + 1;
        },
        _ => {
            return Err(cur);
        },
    }
    if ranges.len() > 0 {
        Ok((Pattern::CharClass(ranges), cur))
    } else {
        Err(cur)
    }
}

/// Parses a token stream into a grammar: a run of `name { expression }`
/// definitions whose rule ids must be exactly `0 .. rule_count`, with
/// `main` as rule zero.  The error payload is the token index at which
/// parsing could not continue.
#[verifier::loop_isolation(false)]
pub fn parse(tokens: Vec<Token>, rule_count: i32) -> (r: Result<Grammar, usize>)
    requires
        rule_count >= 1,
        tokens@.len() + 4 < usize::MAX,
        tokens_name_bound(tokens@, rule_count as int),
    ensures
        r matches Ok(g) ==> wf_grammar(g) && g.main == 0 && g.rules@.len() == rule_count as int,
        (match r {
            Ok(g) => sp_parse(tokens@, rule_count as int) matches Ok(rules) && g_list(g.rules@)
                == rules,
            Err(e) => sp_parse(tokens@, rule_count as int) == Err::<Seq<GPat>, int>(e as int),
        }),
{
    let ghost bound: int = rule_count as int;
    let n = tokens.len();
    let mut pairs: Vec<(i32, Pattern)> = Vec::new();
    let mut i: usize = 0;
    proof {
        match sp_rules(tokens@, 0) {
            Ok(rest) => {
                assert(g_pairs(pairs@) + rest =~= rest);
            },
            Err(_) => {},
        }
    }
    while i < n
        invariant
            i <= n,
            n == tokens@.len(),
            tokens_name_bound(tokens@, bound),
            forall|j: int|
                0 <= j < pairs@.len() ==> vars_ok((#[trigger] pairs@[j]).1, bound) && 0
                    <= pairs@[j].0 < rule_count,
            sp_rules(tokens@, 0) == (match sp_rules(tokens@, i as int) {
                Ok(rest) => Ok::<Seq<(i32, GPat)>, int>(g_pairs(pairs@) + rest),
                Err(x) => Err::<Seq<(i32, GPat)>, int>(x),
            }),
        decreases n - i,
    {
        let ghost i0 = i as int;
        let id = match tokens[i] {
            Token::Name(id) => id,
            _ => {
                return Err(i);
            },
        };
        proof {
            assert(match tokens@[i as int] {
                Token::Name(nm) => 0 <= nm < bound,
                _ => true,
            });
        }
        if i + 1 >= n {
            return Err(i + 1);
        }
        match tokens[i + 1] {
            Token::OpenBrace => {},
            _ => {
                return Err(i + 2);
            },
        }
        let pr = match parse_expression(&tokens, i + 2, Ghost(bound)) {
            Ok(pr) => pr,
            Err(x) => {
                return Err(x);
            },
        };
        match tokens.get(pr.1) {
            Some(Token::CloseBrace) => {},
            _ => {
                return Err(pr.1);
            },
        }
        let ghost pairs_pre = pairs@;
        let ghost gp = g_view(pr.0);
        pairs.push((id, pr.0));
        i = pr.1 + 1;
        proof {
            assert forall|j: int|
                0 <= j < pairs@.len() implies vars_ok((#[trigger] pairs@[j]).1, bound) && 0
                    <= pairs@[j].0 < rule_count by {
                if j < pairs@.len() - 1 {
                    assert(pairs@[j] == pairs_pre[j]);
                    assert(vars_ok(pairs_pre[j].1, bound) && 0 <= pairs_pre[j].0 < rule_count);
                } else {
                    assert(pairs@[j] == (id, pr.0));
                }
            }
            assert(g_pairs(pairs@) =~= g_pairs(pairs_pre).push((id, gp)));
            match sp_rules(tokens@, i as int) {
                Ok(rest) => {
                    assert(sp_rules(tokens@, i0) == Ok::<Seq<(i32, GPat)>, int>(
                        seq![(id, gp)] + rest,
                    ));
                    assert(g_pairs(pairs_pre) + (seq![(id, gp)] + rest) =~= g_pairs(pairs@)
                        + rest);
                },
                Err(e) => {
                    assert(sp_rules(tokens@, i0) == Err::<Seq<(i32, GPat)>, int>(e));
                },
            }
        }
    }
    let ghost pairs_all = g_pairs(pairs@);
    proof {
        assert(sp_rules(tokens@, i as int) == Ok::<Seq<(i32, GPat)>, int>(Seq::empty()));
        assert(pairs_all + Seq::<(i32, GPat)>::empty() =~= pairs_all);
        assert(sp_rules(tokens@, 0) == Ok::<Seq<(i32, GPat)>, int>(pairs_all));
    }
    let count = rule_count as usize;
    let mut slots: Vec<Option<Pattern>> = Vec::new();
    let mut t: usize = 0;
    while t < count
        invariant
            t <= count,
            slots@.len() == t,
            forall|j: int| 0 <= j < t ==> slots@[j] is None,
        decreases count - t,
    {
        slots.push(None);
        t = t + 1;
    }
    let ghost slots0 = Seq::new(rule_count as nat, |_j: int| None::<GPat>);
    proof {
        assert(g_slots(slots@) =~= slots0);
    }
    while pairs.len() > 0
        invariant
            i == n,
            n == tokens@.len(),
            slots@.len() == count,
            forall|j: int|
                0 <= j < pairs@.len() ==> vars_ok((#[trigger] pairs@[j]).1, bound) && 0
                    <= pairs@[j].0 < rule_count,
            forall|j: int|
                0 <= j < slots@.len() ==> match #[trigger] slots@[j] {
                    Some(p) => vars_ok(p, bound),
                    None => true,
                },
            sp_place(slots0, pairs_all) == sp_place(g_slots(slots@), g_pairs(pairs@)),
        decreases pairs@.len(),
    {
        proof {
            assert(vars_ok(pairs@[0].1, bound) && 0 <= pairs@[0].0 < rule_count);
        }
        let ghost pairs_pre = pairs@;
        let ghost slots_pre = slots@;
        let (id, p) = pairs.remove(0);
        let ghost gp = g_view(p);
        let idx = id as usize;
        proof {
            assert(idx < count);
            assert(g_pairs(pairs@) =~= g_pairs(pairs_pre).drop_first());
            assert(g_pairs(pairs_pre)[0] == (id, gp));
        }
        let free = match slots[idx] {
            None => true,
            Some(_) => false,
        };
        if !free {
            proof {
                assert(g_slots(slots_pre)[id as int] is Some);
                assert(sp_place(g_slots(slots_pre), g_pairs(pairs_pre)) is None);
            }
            return Err(i);
        }
        slots.set(idx, Some(p));
        proof {
            assert(g_slots(slots_pre)[id as int] is None);
            assert(g_slots(slots@) =~= g_slots(slots_pre).update(id as int, Some(gp)));
        }
    }
    let ghost slots_mid = g_slots(slots@);
    proof {
        assert(g_pairs(pairs@) =~= Seq::<(i32, GPat)>::empty());
        assert(sp_place(slots_mid, g_pairs(pairs@)) == Some(slots_mid));
        assert(sp_place(slots0, pairs_all) == Some(slots_mid));
    }
    let mut rules: Vec<Pattern> = Vec::new();
    proof {
        match sp_extract(g_slots(slots@)) {
            Some(rest) => {
                assert(g_list(rules@) + rest =~= rest);
            },
            None => {},
        }
    }
    while slots.len() > 0
        invariant
            i == n,
            n == tokens@.len(),
            rules@.len() + slots@.len() == count,
            forall|j: int|
                0 <= j < slots@.len() ==> match #[trigger] slots@[j] {
                    Some(p) => vars_ok(p, bound),
                    None => true,
                },
            forall|j: int| 0 <= j < rules@.len() ==> vars_ok(#[trigger] rules@[j], bound),
            sp_extract(slots_mid) == (match sp_extract(g_slots(slots@)) {
                Some(rest) => Some(g_list(rules@) + rest),
                None => None::<Seq<GPat>>,
            }),
        decreases slots@.len(),
    {
        let ghost slots_pre = slots@;
        let ghost rules_pre = rules@;
        match slots.remove(0) {
            Some(p) => {
                let ghost gp = g_view(p);
                rules.push(p);
                proof {
                    assert(g_slots(slots_pre)[0] == Some(gp));
                    assert(g_slots(slots@) =~= g_slots(slots_pre).drop_first());
                    assert(g_list(rules@) =~= g_list(rules_pre).push(gp));
                    match sp_extract(g_slots(slots@)) {
                        Some(rest) => {
                            assert(sp_extract(g_slots(slots_pre)) == Some(seq![gp] + rest));
                            assert(g_list(rules_pre) + (seq![gp] + rest) =~= g_list(rules@)
                                + rest);
                        },
                        None => {
                            assert(sp_extract(g_slots(slots_pre)) is None);
                        },
                    }
                }
            },
            None => {
                proof {
                    assert(g_slots(slots_pre)[0] is None);
                    assert(sp_extract(g_slots(slots_pre)) is None);
                }
                return Err(i);
            },
        }
    }
    proof {
        assert(g_slots(slots@) =~= Seq::<Option<GPat>>::empty());
        assert(sp_extract(g_slots(slots@)) == Some(Seq::<GPat>::empty()));
        assert(g_list(rules@) + Seq::<GPat>::empty() =~= g_list(rules@));
        assert(sp_extract(slots_mid) == Some(g_list(rules@)));
    }
    let g = Grammar { rules, main: 0 };
    proof {
        assert(wf_grammar(g));
    }
    Ok(g)
}

} // verus!
