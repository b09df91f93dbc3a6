//! The pattern algebra and the compiler from grammars to instruction
//! programs.
//!
//! `emit` is the emission, spec-level, one instruction sequence per pattern;
//! `compile_pattern` is verified to produce exactly it.  `spec_compile`
//! assembles the whole program — entry call, rule blocks, and the second
//! pass that turns symbolic rule ids into relative offsets — and
//! `Grammar::compile` is verified to produce exactly that, for the grammar
//! after analysis: rule references numbered left to right (`name_rel`), the
//! left-recursive calls found by the walk `sp_traverse` (`sp_discover`),
//! and exactly those marked (`label_rel`).

use vstd::prelude::*;
use crate::machine::{Instruction, MAX_PROGRAM};

verus! {

/// A grammar: one pattern per rule, rule ids dense from zero, and the id of
/// the entry rule.
#[derive(Debug)]
pub struct Grammar {
    pub rules: Vec<Pattern>,
    pub main: u32,
}

/// One node of the pattern algebra.  A `Variable` holds the referenced rule
/// id, the required precedence (`-1` for none), the call id given by the
/// analysis, and the left-recursion flag set by the analysis.
#[derive(Debug)]
pub enum Pattern {
    CharClass(Vec<(u8, Option<u8>)>),
    CharSequence(Vec<u8>),
    CharAny,
    Variable(i32, i32, usize, bool),
    Choice(Box<Pattern>, Box<Pattern>),
    ZeroOrMore(Box<Pattern>),
    OneOrMore(Box<Pattern>),
    Sequence(Vec<Box<Pattern>>),
    Optional(Box<Pattern>),
    Lookahead(bool, Box<Pattern>),
}

/// Lower bound of one character-class range.
pub open spec fn class_lo(e: (u8, Option<u8>)) -> u8 {
    e.0
}

/// Upper bound of one character-class range; a single character is its own
/// upper bound.
pub open spec fn class_hi(e: (u8, Option<u8>)) -> u8 {
    match e.1 {
        Some(h) => h,
        None => e.0,
    }
}

/// Emission of a character class: every range but the last becomes a
/// `CharRangeLink` jumping past the class on a hit, the last a plain
/// `CharRange`.
pub open spec fn emit_class(rs: Seq<(u8, Option<u8>)>) -> Seq<Instruction> {
    Seq::new(
        rs.len(),
        |t: int|
            if t < rs.len() - 1 {
                Instruction::CharRangeLink(class_lo(rs[t]), class_hi(rs[t]), (rs.len() - t) as isize)
            } else {
                Instruction::CharRange(class_lo(rs[t]), class_hi(rs[t]))
            },
    )
}

/// Emission of a rule reference: a plain call without precedence, a
/// precedence call otherwise.
pub open spec fn emit_variable(id: i32, precedence: i32, is_left: bool) -> Seq<Instruction> {
    if precedence == -1 && !is_left {
        seq![Instruction::Call(id as isize)]
    } else {
        seq![Instruction::PrecedenceCall(id as isize, precedence as isize, is_left)]
    }
}

/// The instruction sequence a pattern compiles to.
pub open spec fn emit(p: Pattern) -> Seq<Instruction>
    decreases p, 1int, 0int,
{
    match p {
        Pattern::CharClass(data) => emit_class(data@),
        Pattern::CharSequence(data) => Seq::new(data@.len(), |t: int| Instruction::Char(data@[t])),
        Pattern::CharAny => seq![Instruction::Any],
        Pattern::Variable(id, precedence, _, is_left) => emit_variable(id, precedence, is_left),
        Pattern::Choice(le, ri) => {
            let l = emit(*le);
            let r = emit(*ri);
            seq![Instruction::Choice((l.len() + 2) as isize)] + l
                + seq![Instruction::Commit((r.len() + 1) as isize)] + r
        },
        Pattern::ZeroOrMore(data) => {
            let inner = emit(*data);
            seq![Instruction::Choice((inner.len() + 2) as isize)] + inner
                + seq![Instruction::PartialCommit((0 - inner.len()) as isize)]
        },
        Pattern::OneOrMore(data) => {
            let inner = emit(*data);
            inner + seq![Instruction::Choice((inner.len() + 2) as isize)] + inner
                + seq![Instruction::PartialCommit((0 - inner.len()) as isize)]
        },
        Pattern::Sequence(data) => emit_seq(data@, data@.len() as int),
        Pattern::Optional(data) => {
            let inner = emit(*data);
            seq![Instruction::Choice((inner.len() + 2) as isize)] + inner
                + seq![Instruction::Commit(1)]
        },
        Pattern::Lookahead(success, data) => {
            let inner = emit(*data);
            if success {
                seq![
                    Instruction::Choice((inner.len() + 4) as isize),
                    Instruction::Choice((inner.len() + 2) as isize),
                ] + inner + seq![Instruction::FailTwice, Instruction::FailTwice]
            } else {
                seq![Instruction::Choice((inner.len() + 2) as isize)] + inner
                    + seq![Instruction::FailTwice]
            }
        },
    }
}

/// Concatenated emission of the first `up_to` patterns of a sequence.
pub open spec fn emit_seq(ps: Seq<Box<Pattern>>, up_to: int) -> Seq<Instruction>
    decreases ps, 0int, up_to,
{
    if up_to <= 0 || up_to > ps.len() {
        Seq::empty()
    } else {
        emit_seq(ps, up_to - 1) + emit(*ps[up_to - 1])
    }
}

/// A prefix of a sequence emission never exceeds the whole.
proof fn lemma_emit_seq_mono(ps: Seq<Box<Pattern>>, a: int, b: int)
    requires
        a <= b,
        b <= ps.len(),
    ensures
        emit_seq(ps, a).len() <= emit_seq(ps, b).len(),
    decreases b,
{
    if b > 0 && a < b {
        lemma_emit_seq_mono(ps, a, b - 1);
    }
}

/// Every rule reference in the pattern names a rule id below `bound`.
pub open spec fn vars_ok(p: Pattern, bound: int) -> bool
    decreases p, 1int, 0int,
{
    match p {
        Pattern::CharClass(_) => true,
        Pattern::CharSequence(_) => true,
        Pattern::CharAny => true,
        Pattern::Variable(id, _, _, _) => 0 <= id < bound,
        Pattern::Choice(le, ri) => vars_ok(*le, bound) && vars_ok(*ri, bound),
        Pattern::ZeroOrMore(data) => vars_ok(*data, bound),
        Pattern::OneOrMore(data) => vars_ok(*data, bound),
        Pattern::Sequence(data) => vars_ok_list(data@, bound, data@.len() as int),
        Pattern::Optional(data) => vars_ok(*data, bound),
        Pattern::Lookahead(_, data) => vars_ok(*data, bound),
    }
}

/// `vars_ok` over the first `up_to` members of a sequence.
pub open spec fn vars_ok_list(ps: Seq<Box<Pattern>>, bound: int, up_to: int) -> bool
    decreases ps, 0int, 0int,
{
    forall|j: int| 0 <= j < up_to && j < ps.len() ==> vars_ok(*ps[j], bound)
}

/// A grammar is well-formed when its entry rule exists and every rule
/// reference stays within the rule table.
pub open spec fn wf_grammar(g: Grammar) -> bool {
    &&& g.main < g.rules@.len()
    &&& forall|j: int|
        0 <= j < g.rules@.len() ==> vars_ok(#[trigger] g.rules@[j], g.rules@.len() as int)
}

/// How many rule references the pattern holds.
pub open spec fn count_vars(p: Pattern) -> nat
    decreases p, 1int, 0int,
{
    match p {
        Pattern::CharClass(_) => 0,
        Pattern::CharSequence(_) => 0,
        Pattern::CharAny => 0,
        Pattern::Variable(_, _, _, _) => 1,
        Pattern::Choice(le, ri) => count_vars(*le) + count_vars(*ri),
        Pattern::ZeroOrMore(data) => count_vars(*data),
        Pattern::OneOrMore(data) => count_vars(*data),
        Pattern::Sequence(data) => count_vars_list(data@, data@.len() as int),
        Pattern::Optional(data) => count_vars(*data),
        Pattern::Lookahead(_, data) => count_vars(*data),
    }
}

/// Rule references among the first `up_to` members of a sequence.
pub open spec fn count_vars_list(ps: Seq<Box<Pattern>>, up_to: int) -> nat
    decreases ps, 0int, up_to,
{
    if up_to <= 0 || up_to > ps.len() {
        0
    } else {
        count_vars_list(ps, up_to - 1) + count_vars(*ps[up_to - 1])
    }
}

/// Every call id in the pattern lies in `[lo, hi)`.
pub open spec fn var_ids_in(p: Pattern, lo: int, hi: int) -> bool
    decreases p, 1int, 0int,
{
    match p {
        Pattern::CharClass(_) => true,
        Pattern::CharSequence(_) => true,
        Pattern::CharAny => true,
        Pattern::Variable(_, _, call_id, _) => lo <= call_id < hi,
        Pattern::Choice(le, ri) => var_ids_in(*le, lo, hi) && var_ids_in(*ri, lo, hi),
        Pattern::ZeroOrMore(data) => var_ids_in(*data, lo, hi),
        Pattern::OneOrMore(data) => var_ids_in(*data, lo, hi),
        Pattern::Sequence(data) => var_ids_in_list(data@, lo, hi, data@.len() as int),
        Pattern::Optional(data) => var_ids_in(*data, lo, hi),
        Pattern::Lookahead(_, data) => var_ids_in(*data, lo, hi),
    }
}

/// `var_ids_in` over the first `up_to` members of a sequence.
pub open spec fn var_ids_in_list(ps: Seq<Box<Pattern>>, lo: int, hi: int, up_to: int) -> bool
    decreases ps, 0int, 0int,
{
    forall|j: int| 0 <= j < up_to && j < ps.len() ==> var_ids_in(*ps[j], lo, hi)
}

/// Two patterns with the same structure, leaves, rule ids and precedences;
/// only the analysis bookkeeping of rule references — call id and
/// left-recursion flag — may differ.
pub open spec fn struct_eq(p: Pattern, q: Pattern) -> bool
    decreases p, 1int, 0int,
{
    match (p, q) {
        (Pattern::CharClass(a), Pattern::CharClass(b)) => a@ == b@,
        (Pattern::CharSequence(a), Pattern::CharSequence(b)) => a@ == b@,
        (Pattern::CharAny, Pattern::CharAny) => true,
        (Pattern::Variable(id1, k1, _, _), Pattern::Variable(id2, k2, _, _)) => id1 == id2 && k1
            == k2,
        (Pattern::Choice(l1, r1), Pattern::Choice(l2, r2)) => struct_eq(*l1, *l2) && struct_eq(
            *r1,
            *r2,
        ),
        (Pattern::ZeroOrMore(a), Pattern::ZeroOrMore(b)) => struct_eq(*a, *b),
        (Pattern::OneOrMore(a), Pattern::OneOrMore(b)) => struct_eq(*a, *b),
        (Pattern::Sequence(a), Pattern::Sequence(b)) => a@.len() == b@.len() && struct_eq_list(
            a@,
            b@,
            a@.len() as int,
        ),
        (Pattern::Optional(a), Pattern::Optional(b)) => struct_eq(*a, *b),
        (Pattern::Lookahead(s1, a), Pattern::Lookahead(s2, b)) => s1 == s2 && struct_eq(*a, *b),
        _ => false,
    }
}

/// `struct_eq` over the first `up_to` members of two sequences.
pub open spec fn struct_eq_list(a: Seq<Box<Pattern>>, b: Seq<Box<Pattern>>, up_to: int) -> bool
    decreases a, 0int, 0int,
{
    forall|j: int| 0 <= j < up_to && j < a.len() && j < b.len() ==> struct_eq(*a[j], *b[j])
}

/// Structurally equal patterns compile to emissions of the same length:
/// only the analysis flags differ, and they never change a length.
proof fn lemma_struct_eq_emit_len(p: Pattern, q: Pattern)
    requires
        struct_eq(p, q),
    ensures
        emit(p).len() == emit(q).len(),
        count_vars(p) == count_vars(q),
    decreases p, 1int, 0int,
{
    match (p, q) {
        (Pattern::Choice(l1, r1), Pattern::Choice(l2, r2)) => {
            lemma_struct_eq_emit_len(*l1, *l2);
            lemma_struct_eq_emit_len(*r1, *r2);
        },
        (Pattern::ZeroOrMore(a), Pattern::ZeroOrMore(b)) => lemma_struct_eq_emit_len(*a, *b),
        (Pattern::OneOrMore(a), Pattern::OneOrMore(b)) => lemma_struct_eq_emit_len(*a, *b),
        (Pattern::Sequence(a), Pattern::Sequence(b)) => {
            lemma_struct_eq_emit_len_list(a@, b@, a@.len() as int);
        },
        (Pattern::Optional(a), Pattern::Optional(b)) => lemma_struct_eq_emit_len(*a, *b),
        (Pattern::Lookahead(_, a), Pattern::Lookahead(_, b)) => lemma_struct_eq_emit_len(*a, *b),
        _ => {},
    }
}

proof fn lemma_struct_eq_emit_len_list(a: Seq<Box<Pattern>>, b: Seq<Box<Pattern>>, up_to: int)
    requires
        a.len() == b.len(),
        struct_eq_list(a, b, up_to),
    ensures
        emit_seq(a, up_to).len() == emit_seq(b, up_to).len(),
        count_vars_list(a, up_to) == count_vars_list(b, up_to),
    decreases a, 0int, up_to,
{
    if up_to > 0 && up_to <= a.len() {
        lemma_struct_eq_emit_len_list(a, b, up_to - 1);
        lemma_struct_eq_emit_len(*a[up_to - 1], *b[up_to - 1]);
    }
}

/// Structurally equal patterns reference the same rules.
proof fn lemma_struct_eq_vars(p: Pattern, q: Pattern, bound: int)
    requires
        struct_eq(p, q),
    ensures
        vars_ok(p, bound) == vars_ok(q, bound),
    decreases p, 1int, 0int,
{
    match (p, q) {
        (Pattern::Choice(l1, r1), Pattern::Choice(l2, r2)) => {
            lemma_struct_eq_vars(*l1, *l2, bound);
            lemma_struct_eq_vars(*r1, *r2, bound);
        },
        (Pattern::ZeroOrMore(a), Pattern::ZeroOrMore(b)) => lemma_struct_eq_vars(*a, *b, bound),
        (Pattern::OneOrMore(a), Pattern::OneOrMore(b)) => lemma_struct_eq_vars(*a, *b, bound),
        (Pattern::Sequence(a), Pattern::Sequence(b)) => {
            lemma_struct_eq_vars_list(a@, b@, bound, a@.len() as int);
        },
        (Pattern::Optional(a), Pattern::Optional(b)) => lemma_struct_eq_vars(*a, *b, bound),
        (Pattern::Lookahead(_, a), Pattern::Lookahead(_, b)) => lemma_struct_eq_vars(*a, *b, bound),
        _ => {},
    }
}

proof fn lemma_struct_eq_vars_list(a: Seq<Box<Pattern>>, b: Seq<Box<Pattern>>, bound: int, up_to: int)
    requires
        a.len() == b.len(),
        struct_eq_list(a, b, up_to),
    ensures
        vars_ok_list(a, bound, up_to) == vars_ok_list(b, bound, up_to),
    decreases a, 0int, 0int,
{
    assert forall|j: int| 0 <= j < up_to && j < a.len() implies (vars_ok(*a[j], bound) == vars_ok(
        *b[j],
        bound,
    )) by {
        lemma_struct_eq_vars(*a[j], *b[j], bound);
    }
}

/// Structural equality chains.
proof fn lemma_struct_eq_trans(p: Pattern, q: Pattern, r: Pattern)
    requires
        struct_eq(p, q),
        struct_eq(q, r),
    ensures
        struct_eq(p, r),
    decreases p, 1int, 0int,
{
    match (p, q, r) {
        (Pattern::Choice(l1, r1), Pattern::Choice(l2, r2), Pattern::Choice(l3, r3)) => {
            lemma_struct_eq_trans(*l1, *l2, *l3);
            lemma_struct_eq_trans(*r1, *r2, *r3);
        },
        (Pattern::ZeroOrMore(a), Pattern::ZeroOrMore(b), Pattern::ZeroOrMore(c)) => {
            lemma_struct_eq_trans(*a, *b, *c);
        },
        (Pattern::OneOrMore(a), Pattern::OneOrMore(b), Pattern::OneOrMore(c)) => {
            lemma_struct_eq_trans(*a, *b, *c);
        },
        (Pattern::Sequence(a), Pattern::Sequence(b), Pattern::Sequence(c)) => {
            lemma_struct_eq_trans_list(a@, b@, c@, a@.len() as int);
        },
        (Pattern::Optional(a), Pattern::Optional(b), Pattern::Optional(c)) => {
            lemma_struct_eq_trans(*a, *b, *c);
        },
        (Pattern::Lookahead(_, a), Pattern::Lookahead(_, b), Pattern::Lookahead(_, c)) => {
            lemma_struct_eq_trans(*a, *b, *c);
        },
        _ => {},
    }
}

proof fn lemma_struct_eq_trans_list(
    a: Seq<Box<Pattern>>,
    b: Seq<Box<Pattern>>,
    c: Seq<Box<Pattern>>,
    up_to: int,
)
    requires
        a.len() == b.len(),
        b.len() == c.len(),
        struct_eq_list(a, b, up_to),
        struct_eq_list(b, c, up_to),
    ensures
        struct_eq_list(a, c, up_to),
    decreases a, 0int, 0int,
{
    assert forall|j: int| 0 <= j < up_to && j < a.len() && j < c.len() implies struct_eq(
        *a[j],
        *c[j],
    ) by {
        lemma_struct_eq_trans(*a[j], *b[j], *c[j]);
    }
}

/// A pattern holds no more rule references than emitted instructions.
proof fn lemma_count_vars_le_emit(p: Pattern)
    ensures
        count_vars(p) <= emit(p).len(),
    decreases p, 1int, 0int,
{
    match p {
        Pattern::Choice(le, ri) => {
            lemma_count_vars_le_emit(*le);
            lemma_count_vars_le_emit(*ri);
        },
        Pattern::ZeroOrMore(data) => lemma_count_vars_le_emit(*data),
        Pattern::OneOrMore(data) => lemma_count_vars_le_emit(*data),
        Pattern::Sequence(data) => lemma_count_vars_le_emit_list(data@, data@.len() as int),
        Pattern::Optional(data) => lemma_count_vars_le_emit(*data),
        Pattern::Lookahead(_, data) => lemma_count_vars_le_emit(*data),
        _ => {},
    }
}

proof fn lemma_count_vars_le_emit_list(ps: Seq<Box<Pattern>>, up_to: int)
    ensures
        count_vars_list(ps, up_to) <= emit_seq(ps, up_to).len(),
    decreases ps, 0int, up_to,
{
    if up_to > 0 && up_to <= ps.len() {
        lemma_count_vars_le_emit_list(ps, up_to - 1);
        lemma_count_vars_le_emit(*ps[up_to - 1]);
    }
}

/// `q` is `p` with call ids assigned left to right starting at `lo`,
/// everything else unchanged.
pub open spec fn name_rel(p: Pattern, q: Pattern, lo: int) -> bool
    decreases p, 1int, 0int,
{
    match (p, q) {
        (Pattern::CharClass(a), Pattern::CharClass(b)) => a@ == b@,
        (Pattern::CharSequence(a), Pattern::CharSequence(b)) => a@ == b@,
        (Pattern::CharAny, Pattern::CharAny) => true,
        (Pattern::Variable(id1, k1, _, f1), Pattern::Variable(id2, k2, c2, f2)) => id1 == id2 && k1
            == k2 && c2 == lo && f1 == f2,
        (Pattern::Choice(l1, r1), Pattern::Choice(l2, r2)) => name_rel(*l1, *l2, lo) && name_rel(
            *r1,
            *r2,
            lo + count_vars(*l1),
        ),
        (Pattern::ZeroOrMore(a), Pattern::ZeroOrMore(b)) => name_rel(*a, *b, lo),
        (Pattern::OneOrMore(a), Pattern::OneOrMore(b)) => name_rel(*a, *b, lo),
        (Pattern::Sequence(a), Pattern::Sequence(b)) => a@.len() == b@.len() && name_rel_list(
            a@,
            b@,
            lo,
            a@.len() as int,
        ),
        (Pattern::Optional(a), Pattern::Optional(b)) => name_rel(*a, *b, lo),
        (Pattern::Lookahead(s1, a), Pattern::Lookahead(s2, b)) => s1 == s2 && name_rel(*a, *b, lo),
        _ => false,
    }
}

/// `name_rel` over the first `up_to` members of two sequences.
pub open spec fn name_rel_list(a: Seq<Box<Pattern>>, b: Seq<Box<Pattern>>, lo: int, up_to: int) -> bool
    decreases a, 0int, 0int,
{
    forall|j: int|
        0 <= j < up_to && j < a.len() && j < b.len() ==> name_rel(
            *a[j],
            *b[j],
            lo + count_vars_list(a, j),
        )
}

/// `q` is `p` with the left-recursion flag set on exactly the rule
/// references whose call id lies in `marked`, everything else unchanged.
pub open spec fn label_rel(p: Pattern, q: Pattern, marked: Seq<usize>) -> bool
    decreases p, 1int, 0int,
{
    match (p, q) {
        (Pattern::CharClass(a), Pattern::CharClass(b)) => a@ == b@,
        (Pattern::CharSequence(a), Pattern::CharSequence(b)) => a@ == b@,
        (Pattern::CharAny, Pattern::CharAny) => true,
        (Pattern::Variable(id1, k1, c1, f1), Pattern::Variable(id2, k2, c2, f2)) => id1 == id2 && k1
            == k2 && c2 == c1 && f2 == (f1 || marked.contains(c1)),
        (Pattern::Choice(l1, r1), Pattern::Choice(l2, r2)) => label_rel(*l1, *l2, marked)
            && label_rel(*r1, *r2, marked),
        (Pattern::ZeroOrMore(a), Pattern::ZeroOrMore(b)) => label_rel(*a, *b, marked),
        (Pattern::OneOrMore(a), Pattern::OneOrMore(b)) => label_rel(*a, *b, marked),
        (Pattern::Sequence(a), Pattern::Sequence(b)) => a@.len() == b@.len() && label_rel_list(
            a@,
            b@,
            marked,
            a@.len() as int,
        ),
        (Pattern::Optional(a), Pattern::Optional(b)) => label_rel(*a, *b, marked),
        (Pattern::Lookahead(s1, a), Pattern::Lookahead(s2, b)) => s1 == s2 && label_rel(*a, *b, marked),
        _ => false,
    }
}

/// `label_rel` over the first `up_to` members of two sequences.
pub open spec fn label_rel_list(a: Seq<Box<Pattern>>, b: Seq<Box<Pattern>>, marked: Seq<usize>, up_to: int) -> bool
    decreases a, 0int, 0int,
{
    forall|j: int|
        0 <= j < up_to && j < a.len() && j < b.len() ==> label_rel(*a[j], *b[j], marked)
}

/// Rule references among the first `up_to` rules of a grammar.
pub open spec fn count_vars_rules(rules: Seq<Pattern>, up_to: int) -> nat
    decreases up_to,
{
    if up_to <= 0 || up_to > rules.len() {
        0
    } else {
        count_vars_rules(rules, up_to - 1) + count_vars(rules[up_to - 1])
    }
}

/// Counting more sequence members never counts fewer references.
proof fn lemma_count_vars_list_mono(ps: Seq<Box<Pattern>>, a: int, b: int)
    requires
        a <= b,
        b <= ps.len(),
    ensures
        count_vars_list(ps, a) <= count_vars_list(ps, b),
    decreases b,
{
    if b > 0 && a < b {
        lemma_count_vars_list_mono(ps, a, b - 1);
    }
}

/// Counting more rules never counts fewer references.
proof fn lemma_count_vars_rules_mono(rules: Seq<Pattern>, a: int, b: int)
    requires
        a <= b,
        b <= rules.len(),
    ensures
        count_vars_rules(rules, a) <= count_vars_rules(rules, b),
    decreases b,
{
    if b > 0 && a < b {
        lemma_count_vars_rules_mono(rules, a, b - 1);
    }
}

/// A call-id interval can only widen.
proof fn lemma_var_ids_widen(p: Pattern, lo: int, hi: int, lo2: int, hi2: int)
    requires
        var_ids_in(p, lo, hi),
        lo2 <= lo,
        hi <= hi2,
    ensures
        var_ids_in(p, lo2, hi2),
    decreases p, 1int, 0int,
{
    match p {
        Pattern::Choice(le, ri) => {
            lemma_var_ids_widen(*le, lo, hi, lo2, hi2);
            lemma_var_ids_widen(*ri, lo, hi, lo2, hi2);
            assert(var_ids_in(p, lo2, hi2));
        },
        Pattern::ZeroOrMore(data) => {
            lemma_var_ids_widen(*data, lo, hi, lo2, hi2);
            assert(var_ids_in(p, lo2, hi2));
        },
        Pattern::OneOrMore(data) => {
            lemma_var_ids_widen(*data, lo, hi, lo2, hi2);
            assert(var_ids_in(p, lo2, hi2));
        },
        Pattern::Sequence(data) => {
            assert(var_ids_in_list(data@, lo, hi, data@.len() as int));
            assert forall|j: int| 0 <= j < data@.len() implies var_ids_in(
                *data@[j],
                lo2,
                hi2,
            ) by {
                assert(var_ids_in(*data@[j], lo, hi));
                lemma_var_ids_widen(*data@[j], lo, hi, lo2, hi2);
            }
            assert(var_ids_in_list(data@, lo2, hi2, data@.len() as int));
            assert(var_ids_in(p, lo2, hi2));
        },
        Pattern::Optional(data) => {
            lemma_var_ids_widen(*data, lo, hi, lo2, hi2);
            assert(var_ids_in(p, lo2, hi2));
        },
        Pattern::Lookahead(_, data) => {
            lemma_var_ids_widen(*data, lo, hi, lo2, hi2);
            assert(var_ids_in(p, lo2, hi2));
        },
        _ => {
            assert(var_ids_in(p, lo2, hi2));
        },
    }
}

/// The analysis pipeline's footprint: `named` is `parsed` with call ids
/// numbered left to right across the rules, and `labeled` is `named` with
/// the left-recursion flag set on exactly the calls in `marked`.
pub open spec fn analyzed(
    parsed: Seq<Pattern>,
    named: Seq<Pattern>,
    labeled: Seq<Pattern>,
    marked: Seq<usize>,
) -> bool {
    &&& named.len() == parsed.len()
    &&& labeled.len() == parsed.len()
    &&& forall|j: int|
        0 <= j < parsed.len() ==> name_rel(
            #[trigger] parsed[j],
            named[j],
            count_vars_rules(parsed, j) as int,
        )
    &&& forall|j: int|
        0 <= j < parsed.len() ==> label_rel(#[trigger] named[j], labeled[j], marked)
}

/// One rule's block in the program: the span opener, the rule body, the
/// span closer and the return.
pub open spec fn rule_block(p: Pattern, id: usize) -> Seq<Instruction> {
    seq![Instruction::PushPos(id)] + emit(p) + seq![Instruction::SavePos, Instruction::Return]
}

/// The concatenated blocks of the first `up_to` rules.
pub open spec fn blocks(rules: Seq<Pattern>, up_to: int) -> Seq<Instruction>
    decreases up_to,
{
    if up_to <= 0 || up_to > rules.len() {
        Seq::empty()
    } else {
        blocks(rules, up_to - 1) + rule_block(rules[up_to - 1], (up_to - 1) as usize)
    }
}

/// The program position of rule `r`'s block: after the entry call and halt,
/// and after every earlier block.
pub open spec fn entry_pc(rules: Seq<Pattern>, r: int) -> int {
    2 + blocks(rules, r).len() as int
}

/// The whole program with rule references still symbolic: a call to the
/// entry rule, a halt, and one block per rule.
pub open spec fn assembled(rules: Seq<Pattern>, main: u32) -> Seq<Instruction> {
    seq![Instruction::Call(main as isize), Instruction::Stop] + blocks(rules, rules.len() as int)
}

/// The resolution of one instruction at position `t`: a call's symbolic
/// rule id becomes the offset from `t` to that rule's block.
pub open spec fn resolve_at(rules: Seq<Pattern>, ins: Instruction, t: int) -> Instruction {
    match ins {
        Instruction::Call(rid) => if 0 <= rid < rules.len() {
            Instruction::Call((entry_pc(rules, rid as int) - t) as isize)
        } else {
            ins
        },
        Instruction::PrecedenceCall(rid, k, l) => if 0 <= rid < rules.len() {
            Instruction::PrecedenceCall((entry_pc(rules, rid as int) - t) as isize, k, l)
        } else {
            ins
        },
        _ => ins,
    }
}

/// The compiled program of a grammar: the assembled blocks with every rule
/// reference resolved to a relative offset.
pub open spec fn spec_compile(rules: Seq<Pattern>, main: u32) -> Seq<Instruction> {
    Seq::new(
        assembled(rules, main).len(),
        |t: int| resolve_at(rules, assembled(rules, main)[t], t),
    )
}

/// How long the compiled program of these rules is.
pub open spec fn program_size(rules: Seq<Pattern>) -> int {
    2 + blocks(rules, rules.len() as int).len() as int
}

/// Blocks only grow, by at least three instructions per rule.
proof fn lemma_blocks_mono(rules: Seq<Pattern>, a: int, b: int)
    requires
        0 <= a <= b,
        b <= rules.len(),
    ensures
        blocks(rules, a).len() + 3 * (b - a) <= blocks(rules, b).len(),
    decreases b,
{
    if b > 0 && a < b {
        lemma_blocks_mono(rules, a, b - 1);
    }
}

/// Structurally equal rule lists produce blocks of the same length.
proof fn lemma_blocks_struct_eq(a: Seq<Pattern>, b: Seq<Pattern>, up_to: int)
    requires
        a.len() == b.len(),
        forall|j: int| 0 <= j < a.len() ==> struct_eq(#[trigger] a[j], b[j]),
    ensures
        blocks(a, up_to).len() == blocks(b, up_to).len(),
    decreases up_to,
{
    if up_to > 0 && up_to <= a.len() {
        lemma_blocks_struct_eq(a, b, up_to - 1);
        lemma_struct_eq_emit_len(a[up_to - 1], b[up_to - 1]);
    }
}

/// The whole program contains any one rule's block beyond the blocks
/// before it.
pub proof fn lemma_program_size_lower(rules: Seq<Pattern>, t: int)
    requires
        0 <= t < rules.len(),
    ensures
        program_size(rules) >= 2 + blocks(rules, t).len() + 3 + emit(rules[t]).len(),
{
    lemma_blocks_mono(rules, t + 1, rules.len() as int);
    assert(blocks(rules, t + 1) == blocks(rules, t) + rule_block(rules[t], t as usize));
}

/// A grammar holds no more rule references than block instructions.
proof fn lemma_count_rules_le_blocks(rules: Seq<Pattern>, up_to: int)
    ensures
        count_vars_rules(rules, up_to) <= blocks(rules, up_to).len(),
    decreases up_to,
{
    if up_to > 0 && up_to <= rules.len() {
        lemma_count_rules_le_blocks(rules, up_to - 1);
        lemma_count_vars_le_emit(rules[up_to - 1]);
    }
}

/// The length of a pattern's emission, or `None` when it passes the
/// largest accepted program: the compile-time validation that keeps every
/// offset representable.
#[verifier::loop_isolation(false)]
pub fn emission_size(p: &Pattern) -> (r: Option<usize>)
    ensures
        match r {
            Some(sz) => sz == emit(*p).len() && sz <= MAX_PROGRAM,
            None => emit(*p).len() > MAX_PROGRAM,
        },
    decreases *p, 1int, 0int,
{
    match p {
        Pattern::CharClass(data) => {
            if data.len() <= MAX_PROGRAM {
                return Some(data.len());
            }
            return None;
        },
        Pattern::CharSequence(data) => {
            if data.len() <= MAX_PROGRAM {
                return Some(data.len());
            }
            return None;
        },
        Pattern::CharAny => {
            return Some(1);
        },
        Pattern::Variable(_, _, _, _) => {
            proof {
                assert(emit(*p).len() == 1);
            }
            return Some(1);
        },
        Pattern::Choice(le, ri) => {
            let l = match emission_size(le) {
                Some(sz) => sz,
                None => {
                    return None;
                },
            };
            let r = match emission_size(ri) {
                Some(sz) => sz,
                None => {
                    return None;
                },
            };
            if l <= MAX_PROGRAM - 2 && r <= MAX_PROGRAM - 2 - l {
                return Some(l + r + 2);
            }
            return None;
        },
        Pattern::ZeroOrMore(data) => {
            let n = match emission_size(data) {
                Some(sz) => sz,
                None => {
                    return None;
                },
            };
            if n <= MAX_PROGRAM - 2 {
                return Some(n + 2);
            }
            return None;
        },
        Pattern::OneOrMore(data) => {
            let n = match emission_size(data) {
                Some(sz) => sz,
                None => {
                    return None;
                },
            };
            if n <= (MAX_PROGRAM - 2) / 2 {
                return Some(n + n + 2);
            }
            return None;
        },
        Pattern::Sequence(data) => {
            let mut sum: usize = 0;
            let mut t: usize = 0;
            while t < data.len()
                invariant
                    t <= data@.len(),
                    sum == emit_seq(data@, t as int).len(),
                    sum <= MAX_PROGRAM,
                decreases data@.len() - t,
            {
                match emission_size(&data[t]) {
                    Some(sz) => {
                        if sz <= MAX_PROGRAM - sum {
                            sum = sum + sz;
                        } else {
                            proof {
                                lemma_emit_seq_mono(data@, t as int + 1, data@.len() as int);
                            }
                            return None;
                        }
                    },
                    None => {
                        proof {
                            lemma_emit_seq_mono(data@, t as int + 1, data@.len() as int);
                        }
                        return None;
                    },
                }
                t = t + 1;
            }
            return Some(sum);
        },
        Pattern::Optional(data) => {
            let n = match emission_size(data) {
                Some(sz) => sz,
                None => {
                    return None;
                },
            };
            if n <= MAX_PROGRAM - 2 {
                return Some(n + 2);
            }
            return None;
        },
        Pattern::Lookahead(success, data) => {
            let n = match emission_size(data) {
                Some(sz) => sz,
                None => {
                    return None;
                },
            };
            if *success {
                if n <= MAX_PROGRAM - 4 {
                    return Some(n + 4);
                }
                return None;
            }
            if n <= MAX_PROGRAM - 2 {
                return Some(n + 2);
            }
            return None;
        },
    }
}

/// The call ids on the traversal stack, as a set.
pub open spec fn stack_ids(stack: Seq<(usize, bool)>) -> Set<int> {
    Set::new(|x: int| exists|j: int| 0 <= j < stack.len() && stack[j].0 == x)
}

/// The call ids in a plain list, as a set.
pub open spec fn seq_ids(v: Seq<usize>) -> Set<int> {
    Set::new(|x: int| exists|j: int| 0 <= j < v.len() && v[j] == x)
}

/// Every call id the analysis has met so far: on the stack, or already
/// classified left- or right-recursive.
pub open spec fn visited_ids(stack: Seq<(usize, bool)>, left: Seq<usize>, right: Seq<usize>) -> Set<int> {
    stack_ids(stack).union(seq_ids(left)).union(seq_ids(right))
}

/// All call ids in the three containers lie below `n`.
pub open spec fn ids_bounded(stack: Seq<(usize, bool)>, left: Seq<usize>, right: Seq<usize>, n: int) -> bool {
    &&& forall|j: int| 0 <= j < stack.len() ==> 0 <= (#[trigger] stack[j]).0 < n
    &&& forall|j: int| 0 <= j < left.len() ==> 0 <= (#[trigger] left[j]) < n
    &&& forall|j: int| 0 <= j < right.len() ==> 0 <= (#[trigger] right[j]) < n
}

/// No call id sits on the stack twice.
pub open spec fn stack_distinct(stack: Seq<(usize, bool)>) -> bool {
    forall|a: int, b: int|
        #![trigger stack[a], stack[b]]
        0 <= a < b < stack.len() ==> stack[a].0 != stack[b].0
}

/// Bounded visited sets are finite and hold at most `n` ids.
proof fn lemma_visited_le(stack: Seq<(usize, bool)>, left: Seq<usize>, right: Seq<usize>, n: int)
    requires
        n >= 0,
        ids_bounded(stack, left, right, n),
    ensures
        visited_ids(stack, left, right).finite(),
        visited_ids(stack, left, right).len() <= n,
{
    let v = visited_ids(stack, left, right);
    assert forall|x: int| v.contains(x) implies vstd::set_lib::set_int_range(0, n).contains(
        x,
    ) by {
        if stack_ids(stack).contains(x) {
            let j = choose|j: int| 0 <= j < stack.len() && stack[j].0 == x;
            assert(0 <= stack[j].0 < n);
        } else if seq_ids(left).contains(x) {
            let j = choose|j: int| 0 <= j < left.len() && left[j] == x;
            assert(0 <= left[j] < n);
        } else {
            let j = choose|j: int| 0 <= j < right.len() && right[j] == x;
            assert(0 <= right[j] < n);
        }
    }
    vstd::set_lib::lemma_int_range(0, n);
    vstd::set_lib::lemma_len_subset(v, vstd::set_lib::set_int_range(0, n));
}

/// The three containers of the left-recursion walk: the chain of open
/// calls with their consumed-input flags, and the calls already classified
/// left- or right-recursive.
pub ghost struct TravState {
    pub stack: Seq<(usize, bool)>,
    pub left: Seq<usize>,
    pub right: Seq<usize>,
}

/// Every call id the walk has met in this state.
pub open spec fn tvisited(st: TravState) -> Set<int> {
    visited_ids(st.stack, st.left, st.right)
}

/// The first chain position at or after `k` holding the call id.
pub open spec fn cyc_first(stack: Seq<(usize, bool)>, id: usize, k: int) -> int
    decreases stack.len() - k,
{
    if k < 0 || k >= stack.len() {
        k
    } else if stack[k].0 == id {
        k
    } else {
        cyc_first(stack, id, k + 1)
    }
}

/// Did any call from position `t` on consume input before being made?
pub open spec fn cyc_any_consumed(stack: Seq<(usize, bool)>, t: int) -> bool
    decreases stack.len() - t,
{
    if t < 0 || t >= stack.len() {
        false
    } else {
        stack[t].1 || cyc_any_consumed(stack, t + 1)
    }
}

/// The ids of the chain from position `t` on, appended to `dst`.
pub open spec fn cyc_insert(dst: Seq<usize>, stack: Seq<(usize, bool)>, t: int) -> Seq<usize>
    decreases stack.len() - t,
{
    if t < 0 || t >= stack.len() {
        dst
    } else {
        cyc_insert(dst.push(stack[t].0), stack, t + 1)
    }
}

/// Closing the cycle that finding `id` on the chain creates: the cycle is
/// left-recursive when no call from `id`'s position up consumed input; its
/// calls all join the matching classification, and the chain is cut back
/// past `id`.  Returns the new state and whether the cycle was
/// left-recursive.
pub open spec fn sp_cycle(st: TravState, id: usize) -> (TravState, bool) {
    let k = cyc_first(st.stack, id, 0);
    let is_left = !cyc_any_consumed(st.stack, k);
    let st2 = if is_left {
        TravState { left: cyc_insert(st.left, st.stack, k), ..st }
    } else {
        TravState { right: cyc_insert(st.right, st.stack, k), ..st }
    };
    ((TravState { stack: st.stack.take(k), ..st2 }), is_left)
}

/// The left-recursion walk over one pattern: the state it leaves behind
/// and whether the pattern consumes input.  Every recursive step is
/// guarded by the size bookkeeping that the walk maintains — outside those
/// guards, which the verified walker never leaves, the walk stops where it
/// is.
pub open spec fn sp_traverse(
    rules: Seq<Pattern>,
    p: Pattern,
    st: TravState,
    consumed: bool,
    n: int,
) -> (TravState, bool)
    decreases n - tvisited(st).len(), p, 1int,
{
    match p {
        Pattern::CharClass(_) => (st, true),
        Pattern::CharSequence(_) => (st, true),
        Pattern::CharAny => (st, true),
        Pattern::Variable(r0, _, id, _) => {
            if seq_ids(st.left).contains(id as int) {
                (st, consumed)
            } else if seq_ids(st.right).contains(id as int) {
                (st, true)
            } else if stack_ids(st.stack).contains(id as int) {
                let c = sp_cycle(st, id);
                (c.0, !c.1)
            } else {
                let pushed = TravState { stack: st.stack.push((id, consumed)), ..st };
                if 0 <= r0 < rules.len() && tvisited(st).len() < tvisited(pushed).len()
                    && tvisited(pushed).len() <= n {
                    let sub = sp_traverse(rules, rules[r0 as int], pushed, false, n);
                    (sub.0, consumed || sub.1)
                } else {
                    (st, consumed)
                }
            }
        },
        Pattern::Choice(le, ri) => {
            if 0 <= tvisited(st).len() <= n {
                let a = sp_traverse(rules, *le, st, consumed, n);
                if tvisited(st).len() <= tvisited(a.0).len() && tvisited(a.0).len() <= n {
                    let b = sp_traverse(rules, *ri, a.0, consumed, n);
                    (b.0, consumed || (a.1 && b.1))
                } else {
                    (a.0, consumed)
                }
            } else {
                (st, consumed)
            }
        },
        Pattern::ZeroOrMore(data) => {
            if 0 <= tvisited(st).len() <= n {
                let a = sp_traverse(rules, *data, st, consumed, n);
                (a.0, consumed)
            } else {
                (st, consumed)
            }
        },
        Pattern::OneOrMore(data) => {
            if 0 <= tvisited(st).len() <= n {
                let a = sp_traverse(rules, *data, st, consumed, n);
                (a.0, consumed || a.1)
            } else {
                (st, consumed)
            }
        },
        Pattern::Sequence(data) => sp_traverse_list(rules, data@, 0, st, consumed, n),
        Pattern::Optional(data) => {
            if 0 <= tvisited(st).len() <= n {
                let a = sp_traverse(rules, *data, st, consumed, n);
                (a.0, consumed)
            } else {
                (st, consumed)
            }
        },
        Pattern::Lookahead(_, data) => {
            if 0 <= tvisited(st).len() <= n {
                // the walk still descends, to classify cycles inside the
                // body, but a lookahead consumes no input, so its body
                // contributes nothing to the consumed judgment
                let a = sp_traverse(rules, *data, st, consumed, n);
                (a.0, consumed)
            } else {
                (st, consumed)
            }
        },
    }
}

/// The walk over the members of a sequence from position `k` on,
/// accumulating the consumed-input flag left to right.
pub open spec fn sp_traverse_list(
    rules: Seq<Pattern>,
    ps: Seq<Box<Pattern>>,
    k: int,
    st: TravState,
    consumed: bool,
    n: int,
) -> (TravState, bool)
    decreases n - tvisited(st).len(), ps, ps.len() - k,
{
    if k < 0 || k >= ps.len() {
        (st, consumed)
    } else {
        if 0 <= tvisited(st).len() <= n {
            let a = sp_traverse(rules, *ps[k], st, consumed, n);
            if tvisited(st).len() <= tvisited(a.0).len() && tvisited(a.0).len() <= n {
                sp_traverse_list(rules, ps, k + 1, a.0, consumed || a.1, n)
            } else {
                (a.0, consumed || a.1)
            }
        } else {
            (st, consumed)
        }
    }
}

/// What the analysis of a whole grammar finds: the call ids of the
/// left-recursive calls reachable from the entry rule.
pub open spec fn sp_discover(rules: Seq<Pattern>, n: int) -> Seq<usize> {
    sp_traverse(
        rules,
        rules[0],
        TravState { stack: Seq::empty(), left: Seq::empty(), right: Seq::empty() },
        false,
        n,
    ).0.left
}

/// A suffix consumed input exactly when one of its frames did.
proof fn lemma_cyc_any(stack: Seq<(usize, bool)>, t: int)
    requires
        0 <= t,
    ensures
        cyc_any_consumed(stack, t) == exists|j: int|
            t <= j < stack.len() && (#[trigger] stack[j]).1,
    decreases stack.len() - t,
{
    if 0 <= t < stack.len() {
        lemma_cyc_any(stack, t + 1);
        if stack[t].1 {
            assert(t <= t < stack.len() && stack[t].1);
        }
    }
}

/// Pushing a frame adds exactly its id to the stack's id set.
proof fn lemma_stack_ids_push(stack: Seq<(usize, bool)>, e: (usize, bool))
    ensures
        stack_ids(stack.push(e)) =~= stack_ids(stack).insert(e.0 as int),
{
    assert forall|x: int| #[trigger] stack_ids(stack.push(e)).contains(x) implies stack_ids(
        stack,
    ).insert(e.0 as int).contains(x) by {
        let j = choose|j: int| 0 <= j < stack.push(e).len() && stack.push(e)[j].0 == x;
        if j < stack.len() {
            assert(stack[j].0 == x);
        }
    }
    assert forall|x: int| stack_ids(stack).insert(e.0 as int).contains(x) implies #[trigger] stack_ids(
        stack.push(e),
    ).contains(x) by {
        if stack_ids(stack).contains(x) {
            let j = choose|j: int| 0 <= j < stack.len() && stack[j].0 == x;
            assert(stack.push(e)[j].0 == x);
        } else {
            assert(stack.push(e)[stack.len() as int].0 == x);
        }
    }
}

/// Appending an id adds exactly it to a list's id set.
proof fn lemma_seq_ids_push(v: Seq<usize>, e: usize)
    ensures
        seq_ids(v.push(e)) =~= seq_ids(v).insert(e as int),
{
    assert forall|x: int| #[trigger] seq_ids(v.push(e)).contains(x) implies seq_ids(v).insert(
        e as int,
    ).contains(x) by {
        let j = choose|j: int| 0 <= j < v.push(e).len() && v.push(e)[j] == x;
        if j < v.len() {
            assert(v[j] == x);
        }
    }
    assert forall|x: int| seq_ids(v).insert(e as int).contains(x) implies #[trigger] seq_ids(
        v.push(e),
    ).contains(x) by {
        if seq_ids(v).contains(x) {
            let j = choose|j: int| 0 <= j < v.len() && v[j] == x;
            assert(v.push(e)[j] == x);
        } else {
            assert(v.push(e)[v.len() as int] == x);
        }
    }
}

/// True when some stack frame carries the call id.
fn stack_contains(stack: &Vec<(usize, bool)>, x: usize) -> (r: bool)
    ensures
        r == stack_ids(stack@).contains(x as int),
{
    let mut t: usize = 0;
    while t < stack.len()
        invariant
            t <= stack@.len(),
            forall|j: int| 0 <= j < t ==> (#[trigger] stack@[j]).0 != x,
        decreases stack@.len() - t,
    {
        let (id, _) = stack[t];
        if id == x {
            assert(stack@[t as int].0 == x);
            return true;
        }
        t = t + 1;
    }
    assert(!stack_ids(stack@).contains(x as int));
    false
}

/// Copies a vector of character ranges.
fn clone_ranges(data: &Vec<(u8, Option<u8>)>) -> (r: Vec<(u8, Option<u8>)>)
    ensures
        r@ == data@,
{
    let mut result: Vec<(u8, Option<u8>)> = Vec::new();
    let mut t: usize = 0;
    while t < data.len()
        invariant
            t <= data@.len(),
            result@ == data@.take(t as int),
        decreases data@.len() - t,
    {
        let (lo, hi) = data[t];
        result.push((lo, hi));
        t = t + 1;
        assert(result@ =~= data@.take(t as int));
    }
    assert(result@ =~= data@);
    result
}

/// Copies a byte vector.
pub(crate) fn clone_bytes(data: &Vec<u8>) -> (r: Vec<u8>)
    ensures
        r@ == data@,
{
    let mut result: Vec<u8> = Vec::new();
    let mut t: usize = 0;
    while t < data.len()
        invariant
            t <= data@.len(),
            result@ == data@.take(t as int),
        decreases data@.len() - t,
    {
        result.push(data[t]);
        t = t + 1;
        assert(result@ =~= data@.take(t as int));
    }
    assert(result@ =~= data@);
    result
}

/// True when the vector holds the value.
fn contains_id(v: &Vec<usize>, x: usize) -> (r: bool)
    ensures
        r == v@.contains(x),
{
    let mut t: usize = 0;
    while t < v.len()
        invariant
            t <= v@.len(),
            forall|j: int| 0 <= j < t ==> v@[j] != x,
        decreases v@.len() - t,
    {
        if v[t] == x {
            assert(v@[t as int] == x);
            return true;
        }
        t = t + 1;
    }
    assert(!v@.contains(x));
    false
}

impl Grammar {
    /// Compiles one pattern to exactly its emission.
    pub fn compile_pattern(p: &Pattern) -> (r: Vec<Instruction>)
        requires
            emit(*p).len() <= MAX_PROGRAM,
        ensures
            r@ == emit(*p),
        decreases *p, 1int, 0int,
    {
        match p {
            Pattern::CharClass(data) => Grammar::compile_char_class(data),
            Pattern::CharSequence(data) => Grammar::compile_char_sequence(data),
            Pattern::CharAny => Grammar::compile_char_any(),
            Pattern::Variable(id, precedence, _, is_left) => Grammar::compile_variable(
                *id,
                *precedence,
                *is_left,
            ),
            Pattern::Choice(le, ri) => {
                let inner_left = Grammar::compile_pattern(le);
                let inner_right = Grammar::compile_pattern(ri);
                Grammar::compile_choice(inner_left, inner_right)
            },
            Pattern::ZeroOrMore(data) => {
                let inner = Grammar::compile_pattern(data);
                Grammar::compile_zero_or_more(inner)
            },
            Pattern::OneOrMore(data) => {
                let first = Grammar::compile_pattern(data);
                let second = Grammar::compile_pattern(data);
                Grammar::compile_one_or_more(first, second)
            },
            Pattern::Sequence(data) => Grammar::compile_sequence(data),
            Pattern::Optional(data) => {
                let inner = Grammar::compile_pattern(data);
                Grammar::compile_optional(inner)
            },
            Pattern::Lookahead(success, data) => {
                let inner = Grammar::compile_pattern(data);
                Grammar::compile_lookahead(*success, inner)
            },
        }
    }

    /// Emits a character class.
    fn compile_char_class(data: &Vec<(u8, Option<u8>)>) -> (r: Vec<Instruction>)
        requires
            data@.len() <= MAX_PROGRAM,
        ensures
            r@ == emit_class(data@),
    {
        let mut result: Vec<Instruction> = Vec::new();
        if data.len() == 0 {
            assert(result@ =~= emit_class(data@));
            return result;
        }
        let mut t: usize = 0;
        while t + 1 < data.len()
            invariant
                data@.len() <= MAX_PROGRAM,
                t < data@.len(),
                result@.len() == t,
                forall|j: int| 0 <= j < t ==> result@[j] == emit_class(data@)[j],
            decreases data@.len() - t,
        {
            let (lo, op_hi) = data[t];
            let hi = match op_hi {
                Some(h) => h,
                None => lo,
            };
            result.push(Instruction::CharRangeLink(lo, hi, (data.len() - t) as isize));
            t = t + 1;
        }
        let (lo, op_hi) = data[t];
        let hi = match op_hi {
            Some(h) => h,
            None => lo,
        };
        result.push(Instruction::CharRange(lo, hi));
        assert(result@ =~= emit_class(data@));
        result
    }

    /// Emits a literal byte sequence.
    fn compile_char_sequence(data: &Vec<u8>) -> (r: Vec<Instruction>)
        ensures
            r@ == emit(Pattern::CharSequence(*data)),
    {
        let mut result: Vec<Instruction> = Vec::new();
        let mut t: usize = 0;
        while t < data.len()
            invariant
                t <= data@.len(),
                result@.len() == t,
                forall|j: int| 0 <= j < t ==> result@[j] == Instruction::Char(data@[j]),
            decreases data@.len() - t,
        {
            result.push(Instruction::Char(data[t]));
            t = t + 1;
        }
        assert(result@ =~= emit(Pattern::CharSequence(*data)));
        result
    }

    /// Emits the any-byte matcher.
    fn compile_char_any() -> (r: Vec<Instruction>)
        ensures
            r@ == seq![Instruction::Any],
    {
        let mut result: Vec<Instruction> = Vec::new();
        result.push(Instruction::Any);
        assert(result@ =~= seq![Instruction::Any]);
        result
    }

    /// Emits a rule reference.
    fn compile_variable(id: i32, precedence: i32, is_left: bool) -> (r: Vec<Instruction>)
        ensures
            r@ == emit_variable(id, precedence, is_left),
    {
        let mut result: Vec<Instruction> = Vec::new();
        if precedence == -1 && !is_left {
            result.push(Instruction::Call(id as isize));
        } else {
            result.push(Instruction::PrecedenceCall(id as isize, precedence as isize, is_left));
        }
        assert(result@ =~= emit_variable(id, precedence, is_left));
        result
    }

    /// Assembles an ordered choice from its compiled alternatives.
    fn compile_choice(inner_left: Vec<Instruction>, inner_right: Vec<Instruction>) -> (r: Vec<
        Instruction,
    >)
        requires
            inner_left@.len() + inner_right@.len() + 2 <= MAX_PROGRAM,
        ensures
            r@ == seq![Instruction::Choice((inner_left@.len() + 2) as isize)] + inner_left@
                + seq![Instruction::Commit((inner_right@.len() + 1) as isize)] + inner_right@,
    {
        let mut inner_left = inner_left;
        let mut inner_right = inner_right;
        let mut result: Vec<Instruction> = Vec::new();
        result.push(Instruction::Choice(inner_left.len() as isize + 2));
        result.append(&mut inner_left);
        result.push(Instruction::Commit(inner_right.len() as isize + 1));
        result.append(&mut inner_right);
        result
    }

    /// Assembles a zero-or-more loop from its compiled body.
    fn compile_zero_or_more(inner: Vec<Instruction>) -> (r: Vec<Instruction>)
        requires
            inner@.len() + 2 <= MAX_PROGRAM,
        ensures
            r@ == seq![Instruction::Choice((inner@.len() + 2) as isize)] + inner@
                + seq![Instruction::PartialCommit((0 - inner@.len()) as isize)],
    {
        let mut inner = inner;
        let instr_count = inner.len() as isize;
        let mut result: Vec<Instruction> = Vec::new();
        result.push(Instruction::Choice(instr_count + 2));
        result.append(&mut inner);
        result.push(Instruction::PartialCommit(0 - instr_count));
        result
    }

    /// Assembles a one-or-more loop from two copies of its compiled body.
    fn compile_one_or_more(first: Vec<Instruction>, second: Vec<Instruction>) -> (r: Vec<
        Instruction,
    >)
        requires
            first@ == second@,
            first@.len() + first@.len() + 2 <= MAX_PROGRAM,
        ensures
            r@ == first@ + seq![Instruction::Choice((first@.len() + 2) as isize)] + first@
                + seq![Instruction::PartialCommit((0 - first@.len()) as isize)],
    {
        let mut first = first;
        let mut second = second;
        let instr_count = second.len() as isize;
        let mut result: Vec<Instruction> = Vec::new();
        result.append(&mut first);
        result.push(Instruction::Choice(instr_count + 2));
        result.append(&mut second);
        result.push(Instruction::PartialCommit(0 - instr_count));
        result
    }

    /// Compiles the members of a sequence and concatenates their emissions.
    fn compile_sequence(data: &Vec<Box<Pattern>>) -> (r: Vec<Instruction>)
        requires
            emit_seq(data@, data@.len() as int).len() <= MAX_PROGRAM,
        ensures
            r@ == emit_seq(data@, data@.len() as int),
        decreases *data, 0int, 0int,
    {
        let mut result: Vec<Instruction> = Vec::new();
        let mut t: usize = 0;
        while t < data.len()
            invariant
                t <= data@.len(),
                emit_seq(data@, data@.len() as int).len() <= MAX_PROGRAM,
                result@ == emit_seq(data@, t as int),
            decreases data@.len() - t, 1int, 0int,
        {
            proof {
                lemma_emit_seq_mono(data@, t as int + 1, data@.len() as int);
            }
            let mut inner = Grammar::compile_pattern(&data[t]);
            result.append(&mut inner);
            t = t + 1;
        }
        result
    }

    /// Assembles an optional match from its compiled body.
    fn compile_optional(inner: Vec<Instruction>) -> (r: Vec<Instruction>)
        requires
            inner@.len() + 2 <= MAX_PROGRAM,
        ensures
            r@ == seq![Instruction::Choice((inner@.len() + 2) as isize)] + inner@
                + seq![Instruction::Commit(1)],
    {
        let mut inner = inner;
        let mut result: Vec<Instruction> = Vec::new();
        result.push(Instruction::Choice(inner.len() as isize + 2));
        result.append(&mut inner);
        result.push(Instruction::Commit(1));
        result
    }

    /// Assembles a lookahead from its compiled body: two nested frames for
    /// the positive form, one for the negative.
    fn compile_lookahead(success: bool, inner: Vec<Instruction>) -> (r: Vec<Instruction>)
        requires
            success ==> inner@.len() + 4 <= MAX_PROGRAM,
            !success ==> inner@.len() + 2 <= MAX_PROGRAM,
        ensures
            success ==> r@ == seq![
                Instruction::Choice((inner@.len() + 4) as isize),
                Instruction::Choice((inner@.len() + 2) as isize),
            ] + inner@ + seq![Instruction::FailTwice, Instruction::FailTwice],
            !success ==> r@ == seq![Instruction::Choice((inner@.len() + 2) as isize)] + inner@
                + seq![Instruction::FailTwice],
    {
        let mut inner = inner;
        let instr_count = inner.len() as isize;
        let mut result: Vec<Instruction> = Vec::new();
        if success {
            result.push(Instruction::Choice(instr_count + 4));
            result.push(Instruction::Choice(instr_count + 2));
            result.append(&mut inner);
            result.push(Instruction::FailTwice);
            result.push(Instruction::FailTwice);
        } else {
            result.push(Instruction::Choice(instr_count + 2));
            result.append(&mut inner);
            result.push(Instruction::FailTwice);
        }
        result
    }

    /// Gives every rule reference a call id, counting up from `id` in
    /// traversal order; everything else is kept as it was.
    #[verifier::loop_isolation(false)]
    fn name_pattern(p: &Pattern, id: usize) -> (r: (Pattern, usize))
        requires
            id + count_vars(*p) <= usize::MAX,
        ensures
            r.1 == id + count_vars(*p),
            name_rel(*p, r.0, id as int),
            struct_eq(*p, r.0),
            var_ids_in(r.0, id as int, r.1 as int),
        decreases *p, 1int, 0int,
    {
        match p {
            Pattern::CharClass(data) => {
                let q = Pattern::CharClass(clone_ranges(data));
                proof {
                    assert(name_rel(*p, q, id as int));
                    assert(struct_eq(*p, q));
                }
                return (q, id);
            },
            Pattern::CharSequence(data) => {
                let q = Pattern::CharSequence(clone_bytes(data));
                proof {
                    assert(name_rel(*p, q, id as int));
                    assert(struct_eq(*p, q));
                }
                return (q, id);
            },
            Pattern::CharAny => {
                return (Pattern::CharAny, id);
            },
            Pattern::Variable(rid, k, _, f) => {
                let q = Pattern::Variable(*rid, *k, id, *f);
                proof {
                    assert(name_rel(*p, q, id as int));
                    assert(struct_eq(*p, q));
                    assert(var_ids_in(q, id as int, id as int + 1));
                }
                return (q, id + 1);
            },
            Pattern::Choice(le, ri) => {
                let (l2, id1) = Grammar::name_pattern(le, id);
                let (r2, id2) = Grammar::name_pattern(ri, id1);
                proof {
                    lemma_var_ids_widen(l2, id as int, id1 as int, id as int, id2 as int);
                    lemma_var_ids_widen(r2, id1 as int, id2 as int, id as int, id2 as int);
                }
                let q = Pattern::Choice(Box::new(l2), Box::new(r2));
                proof {
                    assert(name_rel(*p, q, id as int));
                    assert(struct_eq(*p, q));
                    assert(var_ids_in(q, id as int, id2 as int));
                }
                return (q, id2);
            },
            Pattern::ZeroOrMore(data) => {
                let (q, id1) = Grammar::name_pattern(data, id);
                let q2 = Pattern::ZeroOrMore(Box::new(q));
                proof {
                    assert(name_rel(*p, q2, id as int));
                    assert(struct_eq(*p, q2));
                }
                return (q2, id1);
            },
            Pattern::OneOrMore(data) => {
                let (q, id1) = Grammar::name_pattern(data, id);
                let q2 = Pattern::OneOrMore(Box::new(q));
                proof {
                    assert(name_rel(*p, q2, id as int));
                    assert(struct_eq(*p, q2));
                }
                return (q2, id1);
            },
            Pattern::Sequence(data) => {
                let ghost total = count_vars_list(data@, data@.len() as int);
                let mut out: Vec<Box<Pattern>> = Vec::new();
                let mut cur: usize = id;
                let mut t: usize = 0;
                while t < data.len()
                    invariant
                        t <= data@.len(),
                        out@.len() == t,
                        id + count_vars_list(data@, data@.len() as int) <= usize::MAX,
                        cur == id + count_vars_list(data@, t as int),
                        forall|j: int|
                            0 <= j < t ==> struct_eq(*data@[j], #[trigger] (*out@[j])),
                        forall|j: int|
                            0 <= j < t ==> name_rel(
                                *data@[j],
                                #[trigger] (*out@[j]),
                                id + count_vars_list(data@, j),
                            ),
                        forall|j: int|
                            0 <= j < t ==> var_ids_in(
                                #[trigger] (*out@[j]),
                                id as int,
                                cur as int,
                            ),
                    decreases data@.len() - t,
                {
                    proof {
                        lemma_count_vars_list_mono(data@, t as int + 1, data@.len() as int);
                    }
                    let (q, c2) = Grammar::name_pattern(&data[t], cur);
                    proof {
                        lemma_var_ids_widen(q, cur as int, c2 as int, id as int, c2 as int);
                    }
                    out.push(Box::new(q));
                    let ghost cur_old = cur;
                    cur = c2;
                    t = t + 1;
                    proof {
                        assert forall|j: int| 0 <= j < t implies var_ids_in(
                            #[trigger] (*out@[j]),
                            id as int,
                            cur as int,
                        ) by {
                            if j < t - 1 {
                                lemma_var_ids_widen(
                                    *out@[j],
                                    id as int,
                                    cur_old as int,
                                    id as int,
                                    cur as int,
                                );
                            }
                        }
                    }
                }
                let ghost out_view = out@;
                let q2 = Pattern::Sequence(out);
                proof {
                    assert(t == data@.len());
                    assert(out_view.len() == data@.len());
                    assert(struct_eq_list(data@, out_view, data@.len() as int));
                    assert(name_rel_list(data@, out_view, id as int, data@.len() as int));
                    assert(var_ids_in_list(out_view, id as int, cur as int, out_view.len() as int));
                    assert(name_rel(*p, q2, id as int));
                    assert(struct_eq(*p, q2));
                    assert(var_ids_in(q2, id as int, cur as int));
                }
                return (q2, cur);
            },
            Pattern::Optional(data) => {
                let (q, id1) = Grammar::name_pattern(data, id);
                let q2 = Pattern::Optional(Box::new(q));
                proof {
                    assert(name_rel(*p, q2, id as int));
                    assert(struct_eq(*p, q2));
                }
                return (q2, id1);
            },
            Pattern::Lookahead(success, data) => {
                let (q, id1) = Grammar::name_pattern(data, id);
                let q2 = Pattern::Lookahead(*success, Box::new(q));
                proof {
                    assert(name_rel(*p, q2, id as int));
                    assert(struct_eq(*p, q2));
                }
                return (q2, id1);
            },
        }
    }

    /// Numbers the rule references of the whole grammar, left to right, rule
    /// by rule, and returns how many there are.
    fn name_variables(&mut self) -> (n: usize)
        requires
            count_vars_rules(old(self).rules@, old(self).rules@.len() as int) <= usize::MAX,
        ensures
            final(self).main == old(self).main,
            final(self).rules@.len() == old(self).rules@.len(),
            n == count_vars_rules(old(self).rules@, old(self).rules@.len() as int),
            forall|j: int|
                0 <= j < old(self).rules@.len() ==> struct_eq(
                    old(self).rules@[j],
                    #[trigger] final(self).rules@[j],
                ),
            forall|j: int|
                0 <= j < old(self).rules@.len() ==> name_rel(
                    old(self).rules@[j],
                    #[trigger] final(self).rules@[j],
                    count_vars_rules(old(self).rules@, j) as int,
                ),
            forall|j: int|
                0 <= j < old(self).rules@.len() ==> var_ids_in(
                    #[trigger] final(self).rules@[j],
                    0,
                    n as int,
                ),
    {
        let ghost rules0 = self.rules@;
        let mut out: Vec<Pattern> = Vec::new();
        let mut id: usize = 0;
        let mut t: usize = 0;
        while t < self.rules.len()
            invariant
                self.rules@ == rules0,
                count_vars_rules(rules0, rules0.len() as int) <= usize::MAX,
                t <= rules0.len(),
                out@.len() == t,
                id == count_vars_rules(rules0, t as int),
                forall|j: int| 0 <= j < t ==> struct_eq(rules0[j], #[trigger] out@[j]),
                forall|j: int|
                    0 <= j < t ==> name_rel(
                        rules0[j],
                        #[trigger] out@[j],
                        count_vars_rules(rules0, j) as int,
                    ),
                forall|j: int| 0 <= j < t ==> var_ids_in(#[trigger] out@[j], 0, id as int),
            decreases rules0.len() - t,
        {
            proof {
                lemma_count_vars_rules_mono(rules0, t as int + 1, rules0.len() as int);
            }
            let (q, id2) = Grammar::name_pattern(&self.rules[t], id);
            proof {
                lemma_var_ids_widen(q, id as int, id2 as int, 0, id2 as int);
            }
            out.push(q);
            let ghost id_old = id;
            id = id2;
            t = t + 1;
            proof {
                assert forall|j: int| 0 <= j < t implies var_ids_in(
                    #[trigger] out@[j],
                    0,
                    id as int,
                ) by {
                    if j < t - 1 {
                        lemma_var_ids_widen(out@[j], 0, id_old as int, 0, id as int);
                    }
                }
            }
        }
        self.rules = out;
        id
    }

    /// Sets the left-recursion flag on exactly the rule references whose
    /// call id the analysis marked; everything else is kept as it was.
    #[verifier::loop_isolation(false)]
    fn label_pattern(p: &Pattern, marked: &Vec<usize>) -> (r: Pattern)
        ensures
            label_rel(*p, r, marked@),
            struct_eq(*p, r),
        decreases *p, 1int, 0int,
    {
        match p {
            Pattern::CharClass(data) => {
                let q = Pattern::CharClass(clone_ranges(data));
                proof {
                    assert(label_rel(*p, q, marked@));
                    assert(struct_eq(*p, q));
                }
                return q;
            },
            Pattern::CharSequence(data) => {
                let q = Pattern::CharSequence(clone_bytes(data));
                proof {
                    assert(label_rel(*p, q, marked@));
                    assert(struct_eq(*p, q));
                }
                return q;
            },
            Pattern::CharAny => {
                return Pattern::CharAny;
            },
            Pattern::Variable(rid, k, c, f) => {
                let flag = *f || contains_id(marked, *c);
                let q = Pattern::Variable(*rid, *k, *c, flag);
                proof {
                    assert(label_rel(*p, q, marked@));
                    assert(struct_eq(*p, q));
                }
                return q;
            },
            Pattern::Choice(le, ri) => {
                let l2 = Grammar::label_pattern(le, marked);
                let r2 = Grammar::label_pattern(ri, marked);
                let q = Pattern::Choice(Box::new(l2), Box::new(r2));
                proof {
                    assert(label_rel(*p, q, marked@));
                    assert(struct_eq(*p, q));
                }
                return q;
            },
            Pattern::ZeroOrMore(data) => {
                let q = Pattern::ZeroOrMore(Box::new(Grammar::label_pattern(data, marked)));
                proof {
                    assert(label_rel(*p, q, marked@));
                    assert(struct_eq(*p, q));
                }
                return q;
            },
            Pattern::OneOrMore(data) => {
                let q = Pattern::OneOrMore(Box::new(Grammar::label_pattern(data, marked)));
                proof {
                    assert(label_rel(*p, q, marked@));
                    assert(struct_eq(*p, q));
                }
                return q;
            },
            Pattern::Sequence(data) => {
                let mut out: Vec<Box<Pattern>> = Vec::new();
                let mut t: usize = 0;
                while t < data.len()
                    invariant
                        t <= data@.len(),
                        out@.len() == t,
                        forall|j: int|
                            0 <= j < t ==> struct_eq(*data@[j], #[trigger] (*out@[j])),
                        forall|j: int|
                            0 <= j < t ==> label_rel(*data@[j], #[trigger] (*out@[j]), marked@),
                    decreases data@.len() - t,
                {
                    let q = Grammar::label_pattern(&data[t], marked);
                    out.push(Box::new(q));
                    t = t + 1;
                }
                let ghost out_view = out@;
                let q = Pattern::Sequence(out);
                proof {
                    assert(t == data@.len());
                    assert(struct_eq_list(data@, out_view, data@.len() as int));
                    assert(label_rel_list(data@, out_view, marked@, data@.len() as int));
                    assert(label_rel(*p, q, marked@));
                    assert(struct_eq(*p, q));
                }
                return q;
            },
            Pattern::Optional(data) => {
                let q = Pattern::Optional(Box::new(Grammar::label_pattern(data, marked)));
                proof {
                    assert(label_rel(*p, q, marked@));
                    assert(struct_eq(*p, q));
                }
                return q;
            },
            Pattern::Lookahead(success, data) => {
                let q = Pattern::Lookahead(*success, Box::new(Grammar::label_pattern(data, marked)));
                proof {
                    assert(label_rel(*p, q, marked@));
                    assert(struct_eq(*p, q));
                }
                return q;
            },
        }
    }

    /// Walks the grammar from a pattern, carrying the chain of open calls
    /// and whether input was consumed before each; a call found again on
    /// the chain closes a cycle, classified left-recursive when nothing on
    /// the cycle consumed input.  Returns whether the pattern consumes
    /// input.  Call ids only ever move from the chain into one of the two
    /// classification lists, and every id met is remembered, which bounds
    /// the walk.
    #[verifier::loop_isolation(false)]
    #[verifier::rlimit(60)]
    fn traverse_pattern(
        &self,
        p: &Pattern,
        stack: &mut Vec<(usize, bool)>,
        left_calls: &mut Vec<usize>,
        right_calls: &mut Vec<usize>,
        consumed: bool,
        n_ids: Ghost<int>,
    ) -> (r: bool)
        requires
            n_ids@ >= 0,
            wf_grammar(*self),
            vars_ok(*p, self.rules@.len() as int),
            var_ids_in(*p, 0, n_ids@),
            forall|j: int|
                0 <= j < self.rules@.len() ==> var_ids_in(
                    #[trigger] self.rules@[j],
                    0,
                    n_ids@,
                ),
            ids_bounded(old(stack)@, old(left_calls)@, old(right_calls)@, n_ids@),
            stack_distinct(old(stack)@),
        ensures
            ids_bounded(final(stack)@, final(left_calls)@, final(right_calls)@, n_ids@),
            stack_distinct(final(stack)@),
            visited_ids(old(stack)@, old(left_calls)@, old(right_calls)@).subset_of(
                visited_ids(final(stack)@, final(left_calls)@, final(right_calls)@),
            ),
            ({
                let m = sp_traverse(
                    self.rules@,
                    *p,
                    TravState {
                        stack: old(stack)@,
                        left: old(left_calls)@,
                        right: old(right_calls)@,
                    },
                    consumed,
                    n_ids@,
                );
                &&& final(stack)@ == m.0.stack
                &&& final(left_calls)@ == m.0.left
                &&& final(right_calls)@ == m.0.right
                &&& r == m.1
            }),
        decreases
                n_ids@ - visited_ids(stack@, left_calls@, right_calls@).len(),
                *p,
                0int,
    {
        let ghost n = n_ids@;
        let ghost c0 = consumed;
        let ghost st0 = TravState { stack: stack@, left: left_calls@, right: right_calls@ };
        let mut consumed = consumed;
        match p {
            Pattern::CharClass(_) => {
                consumed = true;
                proof {
                    assert(sp_traverse(self.rules@, *p, st0, c0, n) == (st0, true));
                }
            },
            Pattern::CharSequence(_) => {
                consumed = true;
                proof {
                    assert(sp_traverse(self.rules@, *p, st0, c0, n) == (st0, true));
                }
            },
            Pattern::CharAny => {
                consumed = true;
                proof {
                    assert(sp_traverse(self.rules@, *p, st0, c0, n) == (st0, true));
                }
            },
            Pattern::Variable(r0, _, id0, _) => {
                let r = *r0;
                let id = *id0;
                if contains_id(left_calls, id) {
                    proof {
                        assert(sp_traverse(self.rules@, *p, st0, c0, n) == (st0, c0));
                    }
                } else if contains_id(right_calls, id) {
                    consumed = true;
                    proof {
                        assert(sp_traverse(self.rules@, *p, st0, c0, n) == (st0, true));
                    }
                } else if stack_contains(stack, id) {
                    let is_left = self.cycle_found(stack, left_calls, right_calls, id, n_ids);
                    consumed = !is_left;
                    proof {
                        assert(sp_traverse(self.rules@, *p, st0, c0, n) == (
                            sp_cycle(st0, id).0,
                            !sp_cycle(st0, id).1,
                        ));
                    }
                } else {
                    let ghost v0 = visited_ids(stack@, left_calls@, right_calls@);
                    proof {
                        lemma_visited_le(stack@, left_calls@, right_calls@, n);
                        lemma_stack_ids_push(stack@, (id, consumed));
                    }
                    stack.push((id, consumed));
                    let ghost pushed = TravState {
                        stack: stack@,
                        left: left_calls@,
                        right: right_calls@,
                    };
                    proof {
                        assert(visited_ids(stack@, left_calls@, right_calls@) =~= v0.insert(
                            id as int,
                        ));
                        assert(!v0.contains(id as int));
                        assert(visited_ids(stack@, left_calls@, right_calls@).len() == v0.len()
                            + 1);
                        lemma_visited_le(stack@, left_calls@, right_calls@, n);
                        assert(tvisited(st0).len() < tvisited(pushed).len());
                        assert(tvisited(pushed).len() <= n);
                    }
                    let tmp = self.traverse_pattern(
                        &self.rules[r as usize],
                        stack,
                        left_calls,
                        right_calls,
                        false,
                        n_ids,
                    );
                    proof {
                        assert(v0.insert(id as int).subset_of(
                            visited_ids(stack@, left_calls@, right_calls@),
                        ));
                        assert(sp_traverse(self.rules@, *p, st0, c0, n) == (
                            sp_traverse(self.rules@, self.rules@[r as int], pushed, false, n).0,
                            c0 || sp_traverse(
                                self.rules@,
                                self.rules@[r as int],
                                pushed,
                                false,
                                n,
                            ).1,
                        ));
                    }
                    consumed = consumed || tmp;
                }
            },
            Pattern::Choice(le, ri) => {
                proof {
                    lemma_visited_le(stack@, left_calls@, right_calls@, n);
                }
                let tmp1 = self.traverse_pattern(
                    le,
                    stack,
                    left_calls,
                    right_calls,
                    consumed,
                    n_ids,
                );
                let ghost st1 = TravState { stack: stack@, left: left_calls@, right: right_calls@ };
                proof {
                    lemma_visited_le(stack@, left_calls@, right_calls@, n);
                    vstd::set_lib::lemma_len_subset(
                        visited_ids(old(stack)@, old(left_calls)@, old(right_calls)@),
                        visited_ids(stack@, left_calls@, right_calls@),
                    );
                    assert(tvisited(st0).len() <= tvisited(st1).len());
                    assert(tvisited(st1).len() <= n);
                }
                let tmp2 = self.traverse_pattern(
                    ri,
                    stack,
                    left_calls,
                    right_calls,
                    consumed,
                    n_ids,
                );
                consumed = consumed || (tmp1 && tmp2);
                proof {
                    assert(sp_traverse(self.rules@, *p, st0, c0, n) == (
                        TravState { stack: stack@, left: left_calls@, right: right_calls@ },
                        consumed,
                    ));
                }
            },
            Pattern::ZeroOrMore(data) => {
                proof {
                    lemma_visited_le(stack@, left_calls@, right_calls@, n);
                }
                let _ = self.traverse_pattern(data, stack, left_calls, right_calls, consumed, n_ids);
                proof {
                    assert(sp_traverse(self.rules@, *p, st0, c0, n) == (
                        TravState { stack: stack@, left: left_calls@, right: right_calls@ },
                        consumed,
                    ));
                }
            },
            Pattern::OneOrMore(data) => {
                proof {
                    lemma_visited_le(stack@, left_calls@, right_calls@, n);
                }
                let tmp = self.traverse_pattern(
                    data,
                    stack,
                    left_calls,
                    right_calls,
                    consumed,
                    n_ids,
                );
                consumed = consumed || tmp;
                proof {
                    assert(sp_traverse(self.rules@, *p, st0, c0, n) == (
                        TravState { stack: stack@, left: left_calls@, right: right_calls@ },
                        consumed,
                    ));
                }
            },
            Pattern::Sequence(data) => {
                proof {
                    assert(vars_ok_list(data@, self.rules@.len() as int, data@.len() as int));
                    assert(var_ids_in_list(data@, 0, n, data@.len() as int));
                }
                let mut t: usize = 0;
                while t < data.len()
                    invariant
                        t <= data@.len(),
                        vars_ok_list(data@, self.rules@.len() as int, data@.len() as int),
                        var_ids_in_list(data@, 0, n, data@.len() as int),
                        ids_bounded(stack@, left_calls@, right_calls@, n),
                        stack_distinct(stack@),
                        visited_ids(old(stack)@, old(left_calls)@, old(right_calls)@).subset_of(
                            visited_ids(stack@, left_calls@, right_calls@),
                        ),
                        sp_traverse(self.rules@, *p, st0, c0, n) == sp_traverse_list(
                            self.rules@,
                            data@,
                            t as int,
                            TravState { stack: stack@, left: left_calls@, right: right_calls@ },
                            consumed,
                            n,
                        ),
                    decreases data@.len() - t,
                {
                    let ghost st_t = TravState {
                        stack: stack@,
                        left: left_calls@,
                        right: right_calls@,
                    };
                    proof {
                        lemma_visited_le(stack@, left_calls@, right_calls@, n);
                        lemma_visited_le(old(stack)@, old(left_calls)@, old(right_calls)@, n);
                        vstd::set_lib::lemma_len_subset(
                            visited_ids(old(stack)@, old(left_calls)@, old(right_calls)@),
                            visited_ids(stack@, left_calls@, right_calls@),
                        );
                        assert(vars_ok(*data@[t as int], self.rules@.len() as int));
                        assert(var_ids_in(*data@[t as int], 0, n));
                        assert(tvisited(st_t).len() <= n);
                    }
                    let tmp = self.traverse_pattern(
                        &data[t],
                        stack,
                        left_calls,
                        right_calls,
                        consumed,
                        n_ids,
                    );
                    proof {
                        lemma_visited_le(stack@, left_calls@, right_calls@, n);
                        vstd::set_lib::lemma_len_subset(
                            tvisited(st_t),
                            visited_ids(stack@, left_calls@, right_calls@),
                        );
                    }
                    consumed = consumed || tmp;
                    t = t + 1;
                }
            },
            Pattern::Optional(data) => {
                proof {
                    lemma_visited_le(stack@, left_calls@, right_calls@, n);
                }
                let _ = self.traverse_pattern(data, stack, left_calls, right_calls, consumed, n_ids);
                proof {
                    assert(sp_traverse(self.rules@, *p, st0, c0, n) == (
                        TravState { stack: stack@, left: left_calls@, right: right_calls@ },
                        consumed,
                    ));
                }
            },
            Pattern::Lookahead(_, data) => {
                proof {
                    lemma_visited_le(stack@, left_calls@, right_calls@, n);
                }
                // descend for classification only: a lookahead consumes no
                // input, so its body does not touch the consumed judgment
                let _ = self.traverse_pattern(
                    data,
                    stack,
                    left_calls,
                    right_calls,
                    consumed,
                    n_ids,
                );
                proof {
                    assert(sp_traverse(self.rules@, *p, st0, c0, n) == (
                        TravState { stack: stack@, left: left_calls@, right: right_calls@ },
                        consumed,
                    ));
                }
            },
        }
        consumed
    }

    /// Closes the cycle that `id` — found again while still on the chain —
    /// creates: classifies every call from `id` to the top of the chain as
    /// left-recursive when nothing on that slice consumed input and as
    /// right-recursive otherwise, then drops the chain back past `id`.
    /// Returns whether the cycle was left-recursive.
    #[verifier::loop_isolation(false)]
    fn cycle_found(
        &self,
        stack: &mut Vec<(usize, bool)>,
        left_calls: &mut Vec<usize>,
        right_calls: &mut Vec<usize>,
        id: usize,
        n_ids: Ghost<int>,
    ) -> (is_left: bool)
        requires
            n_ids@ >= 0,
            ids_bounded(old(stack)@, old(left_calls)@, old(right_calls)@, n_ids@),
            stack_ids(old(stack)@).contains(id as int),
            stack_distinct(old(stack)@),
        ensures
            ids_bounded(final(stack)@, final(left_calls)@, final(right_calls)@, n_ids@),
            stack_distinct(final(stack)@),
            visited_ids(old(stack)@, old(left_calls)@, old(right_calls)@).subset_of(
                visited_ids(final(stack)@, final(left_calls)@, final(right_calls)@),
            ),
            ({
                let c = sp_cycle(
                    TravState {
                        stack: old(stack)@,
                        left: old(left_calls)@,
                        right: old(right_calls)@,
                    },
                    id,
                );
                &&& final(stack)@ == c.0.stack
                &&& final(left_calls)@ == c.0.left
                &&& final(right_calls)@ == c.0.right
                &&& is_left == c.1
            }),
    {
        let ghost orig = stack@;
        let mut k: usize = 0;
        while k < stack.len() && stack[k].0 != id
            invariant
                k <= stack@.len(),
                stack@ == orig,
                forall|j: int| 0 <= j < k ==> (#[trigger] orig[j]).0 != id,
                cyc_first(orig, id, 0) == cyc_first(orig, id, k as int),
            decreases stack@.len() - k,
        {
            k = k + 1;
        }
        proof {
            let w = choose|j: int| 0 <= j < orig.len() && orig[j].0 == id;
            assert(w >= k);
            assert(cyc_first(orig, id, 0) == k as int);
        }
        let mut is_left = true;
        let mut t: usize = k;
        while t < stack.len()
            invariant
                stack@ == orig,
                k <= t <= stack@.len(),
                is_left == !(exists|j: int| k <= j < t && (#[trigger] orig[j]).1),
            decreases stack@.len() - t,
        {
            let (_, c) = stack[t];
            if c {
                is_left = false;
                proof {
                    assert(k <= t < stack@.len() && orig[t as int].1);
                }
            }
            t = t + 1;
        }
        proof {
            lemma_cyc_any(orig, k as int);
            assert(is_left == !cyc_any_consumed(orig, k as int));
        }
        let mut t: usize = k;
        while t < stack.len()
            invariant
                k <= t <= stack@.len(),
                stack@ == orig,
                ids_bounded(stack@, left_calls@, right_calls@, n_ids@),
                forall|j: int|
                    k <= j < t ==> (is_left && seq_ids(left_calls@).contains(
                        (#[trigger] orig[j]).0 as int,
                    )) || (!is_left && seq_ids(right_calls@).contains(orig[j].0 as int)),
                seq_ids(old(left_calls)@).subset_of(seq_ids(left_calls@)),
                seq_ids(old(right_calls)@).subset_of(seq_ids(right_calls@)),
                is_left ==> cyc_insert(old(left_calls)@, orig, k as int) == cyc_insert(
                    left_calls@,
                    orig,
                    t as int,
                ) && right_calls@ == old(right_calls)@,
                !is_left ==> cyc_insert(old(right_calls)@, orig, k as int) == cyc_insert(
                    right_calls@,
                    orig,
                    t as int,
                ) && left_calls@ == old(left_calls)@,
            decreases stack@.len() - t,
        {
            let (x, _) = stack[t];
            proof {
                if is_left {
                    lemma_seq_ids_push(left_calls@, x);
                } else {
                    lemma_seq_ids_push(right_calls@, x);
                }
            }
            if is_left {
                left_calls.push(x);
            } else {
                right_calls.push(x);
            }
            t = t + 1;
        }
        let ghost left_mid = left_calls@;
        let ghost right_mid = right_calls@;
        // the chain holds `id` exactly once, at position `k`, so popping
        // frames until `id` comes off is the same as cutting the chain there
        stack.truncate(k);
        proof {
            assert forall|x: int|
                visited_ids(orig, old(left_calls)@, old(right_calls)@).contains(x) implies
                visited_ids(stack@, left_calls@, right_calls@).contains(x) by {
                if stack_ids(orig).contains(x) {
                    let j = choose|j: int| 0 <= j < orig.len() && orig[j].0 == x;
                    if j < k {
                        assert(stack@[j].0 == x);
                        assert(stack_ids(stack@).contains(x));
                    } else {
                        assert((is_left && seq_ids(left_mid).contains(orig[j].0 as int)) || (
                        !is_left && seq_ids(right_mid).contains(orig[j].0 as int)));
                    }
                } else if seq_ids(old(left_calls)@).contains(x) {
                    assert(seq_ids(left_mid).contains(x));
                } else {
                    assert(seq_ids(right_mid).contains(x));
                }
            }
            assert forall|a: int, b: int|
                #![trigger stack@[a], stack@[b]]
                0 <= a < b < stack@.len() implies stack@[a].0 != stack@[b].0 by {
                assert(stack@[a] == orig[a]);
                assert(stack@[b] == orig[b]);
            }
        }
        is_left
    }

    /// Applies `label_pattern` to every rule.
    fn label_variables(&mut self, marked: &Vec<usize>)
        ensures
            final(self).main == old(self).main,
            final(self).rules@.len() == old(self).rules@.len(),
            forall|j: int|
                0 <= j < old(self).rules@.len() ==> struct_eq(
                    old(self).rules@[j],
                    #[trigger] final(self).rules@[j],
                ),
            forall|j: int|
                0 <= j < old(self).rules@.len() ==> label_rel(
                    old(self).rules@[j],
                    #[trigger] final(self).rules@[j],
                    marked@,
                ),
    {
        let ghost rules0 = self.rules@;
        let mut out: Vec<Pattern> = Vec::new();
        let mut t: usize = 0;
        while t < self.rules.len()
            invariant
                self.rules@ == rules0,
                t <= rules0.len(),
                out@.len() == t,
                forall|j: int| 0 <= j < t ==> struct_eq(rules0[j], #[trigger] out@[j]),
                forall|j: int| 0 <= j < t ==> label_rel(rules0[j], #[trigger] out@[j], marked@),
            decreases rules0.len() - t,
        {
            let q = Grammar::label_pattern(&self.rules[t], marked);
            out.push(q);
            t = t + 1;
        }
        self.rules = out;
    }

    /// The call ids of the grammar's left-recursive calls, found by walking
    /// the rules from the entry rule.
    fn discover_left_recursion(&self, n_ids: Ghost<int>) -> (r: Vec<usize>)
        requires
            n_ids@ >= 0,
            wf_grammar(*self),
            forall|j: int|
                0 <= j < self.rules@.len() ==> var_ids_in(
                    #[trigger] self.rules@[j],
                    0,
                    n_ids@,
                ),
        ensures
            r@ == sp_discover(self.rules@, n_ids@),
    {
        let mut result: Vec<usize> = Vec::new();
        let mut right_calls: Vec<usize> = Vec::new();
        let mut stack: Vec<(usize, bool)> = Vec::new();
        proof {
            assert(TravState { stack: stack@, left: result@, right: right_calls@ }
                == (TravState {
                stack: Seq::<(usize, bool)>::empty(),
                left: Seq::<usize>::empty(),
                right: Seq::<usize>::empty(),
            }));
        }
        let _ = self.traverse_pattern(
            &self.rules[0],
            &mut stack,
            &mut result,
            &mut right_calls,
            false,
            n_ids,
        );
        result
    }

    /// Compiles the grammar: numbers and classifies its rule references,
    /// emits one block per rule behind the entry call, and resolves every
    /// rule reference to a relative offset.  The result is exactly
    /// `spec_compile` of the analyzed grammar, which this method leaves in
    /// `self`.
    #[verifier::loop_isolation(false)]
    #[verifier::rlimit(60)]
    pub fn compile(&mut self) -> (r: Vec<Instruction>)
        requires
            wf_grammar(*old(self)),
            program_size(old(self).rules@) <= MAX_PROGRAM,
        ensures
            wf_grammar(*final(self)),
            final(self).main == old(self).main,
            final(self).rules@.len() == old(self).rules@.len(),
            forall|j: int|
                0 <= j < old(self).rules@.len() ==> struct_eq(
                    old(self).rules@[j],
                    #[trigger] final(self).rules@[j],
                ),
            r@ == spec_compile(final(self).rules@, final(self).main),
            r@.len() == program_size(old(self).rules@),
            exists|named: Seq<Pattern>|
                #[trigger] analyzed(
                    old(self).rules@,
                    named,
                    final(self).rules@,
                    sp_discover(
                        named,
                        count_vars_rules(old(self).rules@, old(self).rules@.len() as int) as int,
                    ),
                ),
    {
        let ghost rules0 = self.rules@;
        let rlen = self.rules.len();
        proof {
            lemma_count_rules_le_blocks(rules0, rules0.len() as int);
        }
        let n = self.name_variables();
        let ghost rules1 = self.rules@;
        proof {
            assert forall|j: int| 0 <= j < rules1.len() implies vars_ok(
                #[trigger] rules1[j],
                rules1.len() as int,
            ) by {
                lemma_struct_eq_vars(rules0[j], rules1[j], rules1.len() as int);
            }
        }
        let marked = self.discover_left_recursion(Ghost(n as int));
        self.label_variables(&marked);
        let ghost rules2 = self.rules@;
        proof {
            assert forall|j: int| 0 <= j < rules2.len() implies vars_ok(
                #[trigger] rules2[j],
                rules2.len() as int,
            ) by {
                lemma_struct_eq_vars(rules1[j], rules2[j], rules2.len() as int);
            }
            assert forall|j: int| 0 <= j < rules0.len() implies struct_eq(
                rules0[j],
                #[trigger] rules2[j],
            ) by {
                lemma_struct_eq_trans(rules0[j], rules1[j], rules2[j]);
            }
            lemma_blocks_struct_eq(rules0, rules1, rules0.len() as int);
            lemma_blocks_struct_eq(rules1, rules2, rules1.len() as int);
            assert(program_size(rules2) <= MAX_PROGRAM);
        }
        let mut result: Vec<Instruction> = Vec::new();
        let mut lookup: Vec<usize> = Vec::new();
        result.push(Instruction::Call(self.main as isize));
        result.push(Instruction::Stop);
        let mut id: usize = 0;
        while id < rlen
            invariant
                self.rules@ == rules2,
                id <= rlen,
                lookup@.len() == id,
                forall|j: int| 0 <= j < id ==> lookup@[j] == entry_pc(rules2, j),
                result@ == seq![
                    Instruction::Call(final(self).main as isize),
                    Instruction::Stop,
                ] + blocks(rules2, id as int),
            decreases rlen - id,
        {
            proof {
                lemma_blocks_mono(rules2, id as int, rules2.len() as int);
                lemma_blocks_mono(rules2, id as int + 1, rules2.len() as int);
            }
            lookup.push(result.len());
            result.push(Instruction::PushPos(id));
            let mut body = Grammar::compile_pattern(&self.rules[id]);
            result.append(&mut body);
            result.push(Instruction::SavePos);
            result.push(Instruction::Return);
            id = id + 1;
            proof {
                assert(result@ =~= seq![
                    Instruction::Call(final(self).main as isize),
                    Instruction::Stop,
                ] + blocks(rules2, id as int));
            }
        }
        proof {
            assert(result@ =~= assembled(rules2, final(self).main));
        }
        let total = result.len();
        let ghost symbolic = result@;
        let mut t: usize = 0;
        while t < total
            invariant
                self.rules@ == rules2,
                t <= total,
                total == symbolic.len(),
                total <= MAX_PROGRAM,
                result@.len() == symbolic.len(),
                lookup@.len() == rlen,
                rlen == rules2.len(),
                forall|j: int| 0 <= j < rlen ==> lookup@[j] == entry_pc(rules2, j),
                forall|j: int| 0 <= j < t ==> result@[j] == resolve_at(rules2, symbolic[j], j),
                forall|j: int| t <= j < symbolic.len() ==> result@[j] == symbolic[j],
            decreases total - t,
        {
            match result[t] {
                Instruction::Call(rid) => {
                    if rid >= 0 && (rid as usize) < rlen {
                        proof {
                            lemma_blocks_mono(rules2, rid as int, rules2.len() as int);
                        }
                        let e = lookup[rid as usize];
                        let dist = e as isize - t as isize;
                        result.set(t, Instruction::Call(dist));
                    }
                },
                Instruction::PrecedenceCall(rid, k, l) => {
                    if rid >= 0 && (rid as usize) < rlen {
                        proof {
                            lemma_blocks_mono(rules2, rid as int, rules2.len() as int);
                        }
                        let e = lookup[rid as usize];
                        let dist = e as isize - t as isize;
                        result.set(t, Instruction::PrecedenceCall(dist, k, l));
                    }
                },
                _ => {},
            }
            t = t + 1;
        }
        proof {
            assert(result@ =~= spec_compile(rules2, final(self).main));
            assert(marked@ == sp_discover(rules1, n as int));
            assert(analyzed(rules0, rules1, rules2, sp_discover(rules1, n as int)));
        }
        result
    }
}

} // verus!
