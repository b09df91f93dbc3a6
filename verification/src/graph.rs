//! The call-graph analysis over a compiled program: for every call site,
//! where the enclosing rule returns, whether any input-consuming
//! instruction precedes the call in its rule body, and whether the call
//! sits on a cycle of the rule call graph.  Cycles are found by closing
//! the one-step call relation into full reachability, which is proved to
//! mark exactly the edges whose head reaches back to their tail.

use vstd::prelude::*;
use crate::machine::{Instruction, next_return, add_offset, MAX_PROGRAM};

verus! {

/// What the analysis records for one call site.
#[derive(Clone, Copy, PartialEq, Eq, Structural, Debug)]
pub struct CallMetadata {
    pub is_left_call: bool,
    pub is_cyclic: bool,
    pub jump_position: isize,
}

/// Does the instruction consume input when it succeeds?
pub open spec fn consumes(ins: Instruction) -> bool {
    match ins {
        Instruction::Char(_) => true,
        Instruction::TestChar(_, _) => true,
        Instruction::Any => true,
        Instruction::TestAny(_, _) => true,
        Instruction::CharRange(_, _) => true,
        Instruction::CharRangeLink(_, _, _) => true,
        _ => false,
    }
}

/// Is the instruction a call site?
pub open spec fn is_call(ins: Instruction) -> bool {
    ins is Call || ins is PrecedenceCall
}

/// No input-consuming instruction stands between the last `Return` or
/// `Stop` and position `i`.
pub open spec fn left_flag(program: Seq<Instruction>, i: int) -> bool
    decreases i,
{
    if i <= 0 {
        true
    } else if consumes(program[i - 1]) {
        false
    } else if program[i - 1] is Return || program[i - 1] is Stop {
        true
    } else {
        left_flag(program, i - 1)
    }
}

/// Every edge of the graph stays inside it.
pub open spec fn graph_wf(graph: Seq<Vec<(usize, usize)>>) -> bool {
    forall|v: int, e: int|
        0 <= v < graph.len() && 0 <= e < graph[v]@.len() ==> (#[trigger] graph[v]@[e]).0
            < graph.len()
}

/// True when the list holds the value.
fn holds_id(v: &Vec<usize>, x: usize) -> (r: bool)
    ensures
        r == v@.contains(x),
{
    let mut t: usize = 0;
    while t < v.len()
        invariant
            t <= v@.len(),
            forall|j: int| 0 <= j < t ==> v@[j] != x,
        decreases v@.len() - t,
    {
        if v[t] == x {
            assert(v@[t as int] == x);
            return true;
        }
        t = t + 1;
    }
    assert(!v@.contains(x));
    false
}

/// An edge of the call graph leads from `a` to `b`.
pub open spec fn g_edge(graph: Seq<Vec<(usize, usize)>>, a: int, b: int) -> bool {
    exists|e: int|
        0 <= a < graph.len() && 0 <= e < graph[a]@.len() && (#[trigger] graph[a]@[e]).0 as int == b
}

/// A path of at most `k` edges joins `a` to `b`.
pub open spec fn g_reach_n(graph: Seq<Vec<(usize, usize)>>, a: int, b: int, k: nat) -> bool
    decreases k,
{
    if k == 0 {
        a == b
    } else {
        a == b || exists|c: int|
            0 <= c < graph.len() && g_reach_n(graph, a, c, (k - 1) as nat) && g_edge(graph, c, b)
    }
}

/// A longer bound never loses a path.
proof fn lemma_g_reach_mono(graph: Seq<Vec<(usize, usize)>>, a: int, b: int, k: nat)
    requires
        g_reach_n(graph, a, b, k),
    ensures
        g_reach_n(graph, a, b, (k + 1) as nat),
    decreases k,
{
    if k > 0 && a != b {
        let c = choose|c: int|
            0 <= c < graph.len() && g_reach_n(graph, a, c, (k - 1) as nat) && g_edge(graph, c, b);
        lemma_g_reach_mono(graph, a, c, (k - 1) as nat);
    }
}

/// `b` is reachable from `a` along edges.  A path that visits no vertex
/// twice has fewer edges than there are vertices, so the bound loses
/// nothing.
pub open spec fn g_reaches(graph: Seq<Vec<(usize, usize)>>, a: int, b: int) -> bool {
    g_reach_n(graph, a, b, (graph.len() + 1) as nat)
}

/// The label marks an edge lying on a directed cycle: its head reaches
/// back to its tail.
pub open spec fn cyclic_label(graph: Seq<Vec<(usize, usize)>>, lbl: usize) -> bool {
    exists|v: int, e: int|
        0 <= v < graph.len() && 0 <= e < graph[v]@.len() && (#[trigger] graph[v]@[e]).1 == lbl
            && g_reaches(graph, graph[v]@[e].0 as int, v)
}

/// Appending to a list adds exactly that value to what it holds.
proof fn lemma_contains_push(v: Seq<usize>, x: usize)
    ensures
        forall|y: usize| #[trigger] v.push(x).contains(y) <==> (v.contains(y) || y == x),
{
    assert forall|y: usize| #[trigger] v.push(x).contains(y) implies (v.contains(y) || y
        == x) by {
        let j = choose|j: int| 0 <= j < v.push(x).len() && v.push(x)[j] == y;
        if j < v.len() {
            assert(v[j] == y);
        }
    }
    assert forall|y: usize| (v.contains(y) || y == x) implies #[trigger] v.push(x).contains(
        y,
    ) by {
        if v.contains(y) {
            let j = choose|j: int| 0 <= j < v.len() && v[j] == y;
            assert(v.push(x)[j] == y);
        } else {
            assert(v.push(x)[v.len() as int] == y);
        }
    }
}

/// Copies a row of the reachability matrix.
fn clone_bools(v: &Vec<bool>) -> (r: Vec<bool>)
    ensures
        r@ == v@,
{
    let mut result: Vec<bool> = Vec::new();
    let mut t: usize = 0;
    while t < v.len()
        invariant
            t <= v@.len(),
            result@ == v@.take(t as int),
        decreases v@.len() - t,
    {
        result.push(v[t]);
        t = t + 1;
        assert(result@ =~= v@.take(t as int));
    }
    assert(result@ =~= v@);
    result
}

/// How many `Return` and `Stop` instructions precede position `up_to`:
/// the index of the rule segment that position `up_to - 1` belongs to.
pub open spec fn rs_count(program: Seq<Instruction>, up_to: int) -> int
    decreases up_to,
{
    if up_to <= 0 {
        0
    } else if up_to > program.len() {
        rs_count(program, program.len() as int)
    } else {
        rs_count(program, up_to - 1) + (if program[up_to - 1] is Return || program[up_to - 1]
            is Stop {
            1int
        } else {
            0int
        })
    }
}

/// Segment indexes start at zero and never decrease.
proof fn lemma_rs_mono(program: Seq<Instruction>, i: int, j: int)
    requires
        i <= j,
    ensures
        0 <= rs_count(program, i) <= rs_count(program, j),
    decreases j - i, j,
{
    if i < j {
        lemma_rs_mono(program, i, j - 1);
    } else if i == j && j > 0 {
        lemma_rs_mono(program, i - 1, j - 1);
    }
}

/// Where a call at `pc` jumps: its target position, when it lies inside
/// the program.
pub open spec fn site_target(program: Seq<Instruction>, pc: int) -> Option<int> {
    match program[pc] {
        Instruction::Call(off) => if 0 <= pc + off < program.len() {
            Some(pc + off)
        } else {
            None
        },
        Instruction::PrecedenceCall(off, _, _) => if 0 <= pc + off < program.len() {
            Some(pc + off)
        } else {
            None
        },
        _ => None,
    }
}

/// Some call of rule segment `a` jumps into rule segment `b`.
pub open spec fn prog_edge_upto(program: Seq<Instruction>, hi: int, a: int, b: int) -> bool {
    exists|pc: int|
        0 <= pc < hi && ((#[trigger] site_target(program, pc)) matches Some(t) && rs_count(
            program,
            pc + 1,
        ) == a && rs_count(program, t + 1) == b)
}

/// The rule call graph's edge relation over the whole program.
pub open spec fn prog_edge(program: Seq<Instruction>, a: int, b: int) -> bool {
    prog_edge_upto(program, program.len() as int, a, b)
}

/// A chain of at most `k` calls leads from rule segment `a` to `b`.
pub open spec fn prog_reach_n(program: Seq<Instruction>, a: int, b: int, k: nat) -> bool
    decreases k,
{
    if k == 0 {
        a == b
    } else {
        a == b || exists|c: int|
            prog_reach_n(program, a, c, (k - 1) as nat) && #[trigger] prog_edge(program, c, b)
    }
}

/// Rule segment `b` is reachable from `a` through calls; a chain visiting
/// no segment twice is shorter than the number of segments, so the bound
/// loses nothing.
pub open spec fn prog_reaches(program: Seq<Instruction>, a: int, b: int) -> bool {
    prog_reach_n(program, a, b, (rs_count(program, program.len() as int) + 2) as nat)
}

/// The call at `pc` participates in direct or indirect recursion: its
/// target's rule segment reaches back to the calling rule's segment in the
/// call graph.
pub open spec fn call_cyclic(program: Seq<Instruction>, pc: int) -> bool {
    &&& site_target(program, pc) matches Some(t) && prog_reaches(
        program,
        rs_count(program, t + 1),
        rs_count(program, pc + 1),
    )
}

/// A graph with exactly the program's call edges has exactly its call
/// reachability.
proof fn lemma_reach_iso(
    graph: Seq<Vec<(usize, usize)>>,
    program: Seq<Instruction>,
    a: int,
    b: int,
    k: nat,
)
    requires
        forall|x: int, y: int| #[trigger] g_edge(graph, x, y) <==> prog_edge(program, x, y),
        graph.len() == rs_count(program, program.len() as int) + 1,
    ensures
        g_reach_n(graph, a, b, k) == prog_reach_n(program, a, b, k),
    decreases k,
{
    if k > 0 {
        assert forall|c: int| true implies #[trigger] g_reach_n(graph, a, c, (k - 1) as nat)
            == prog_reach_n(program, a, c, (k - 1) as nat) by {
            lemma_reach_iso(graph, program, a, c, (k - 1) as nat);
        }
        if g_reach_n(graph, a, b, k) && a != b {
            let c = choose|c: int|
                0 <= c < graph.len() && g_reach_n(graph, a, c, (k - 1) as nat) && g_edge(
                    graph,
                    c,
                    b,
                );
            assert(prog_edge(program, c, b));
            assert(prog_reach_n(program, a, b, k));
        }
        if prog_reach_n(program, a, b, k) && a != b {
            let c = choose|c: int|
                prog_reach_n(program, a, c, (k - 1) as nat) && #[trigger] prog_edge(
                    program,
                    c,
                    b,
                );
            let pc = choose|pc: int|
                0 <= pc < program.len() && ((#[trigger] site_target(program, pc)) matches Some(t)
                    && rs_count(program, pc + 1) == c && rs_count(program, t + 1) == b);
            lemma_rs_mono(program, pc + 1, program.len() as int);
            assert(0 <= c < graph.len());
            assert(g_edge(graph, c, b));
            assert(g_reach_n(graph, a, c, (k - 1) as nat));
            assert(g_reach_n(graph, a, b, k));
        }
    }
}

/// The labels of exactly the edges that lie on a directed cycle of the
/// graph, each once.  Reachability is computed by closing the one-step
/// relation: after pass `i` the matrix holds the paths of at most `i + 1`
/// edges, and as many passes as there are vertices cover every path.
#[verifier::loop_isolation(false)]
#[verifier::rlimit(100)]
fn detect_cycles(graph: &Vec<Vec<(usize, usize)>>) -> (r: Vec<usize>)
    requires
        graph_wf(graph@),
    ensures
        forall|i1: int, i2: int| 0 <= i1 < i2 < r@.len() ==> r@[i1] != r@[i2],
        forall|lbl: usize| #[trigger] r@.contains(lbl) <==> cyclic_label(graph@, lbl),
{
    let n = graph.len();
    let mut reach: Vec<Vec<bool>> = Vec::new();
    let mut a: usize = 0;
    while a < n
        invariant
            a <= n,
            reach@.len() == a,
            forall|x: int| 0 <= x < a ==> (#[trigger] reach@[x])@.len() == n,
            forall|x: int, y: int|
                0 <= x < a && 0 <= y < n ==> (#[trigger] reach@[x]@[y]) == g_reach_n(
                    graph@,
                    x,
                    y,
                    1,
                ),
        decreases n - a,
    {
        let mut row: Vec<bool> = Vec::new();
        let mut y: usize = 0;
        while y < n
            invariant
                y <= n,
                row@.len() == y,
                forall|z: int| 0 <= z < y ==> (#[trigger] row@[z]) == (a as int == z),
            decreases n - y,
        {
            row.push(a == y);
            y = y + 1;
        }
        let edge_count = graph[a].len();
        let mut e: usize = 0;
        while e < edge_count
            invariant
                e <= edge_count,
                edge_count == graph@[a as int]@.len(),
                row@.len() == n,
                forall|z: int|
                    0 <= z < n ==> (#[trigger] row@[z]) == (a as int == z || exists|e2: int|
                        0 <= e2 < e && (graph@[a as int]@[e2].0 as int == z)),
            decreases edge_count - e,
        {
            let (t, _) = graph[a][e];
            row.set(t, true);
            e = e + 1;
            proof {
                assert forall|z: int|
                    0 <= z < n implies (#[trigger] row@[z]) == (a as int == z || exists|e2: int|
                        0 <= e2 < e && (graph@[a as int]@[e2].0 as int == z)) by {
                    if row@[z] && !(a as int == z) {
                        if t as int == z {
                            assert(graph@[a as int]@[e - 1].0 as int == z);
                        }
                    }
                }
            }
        }
        proof {
            assert forall|z: int|
                0 <= z < n implies (#[trigger] row@[z]) == g_reach_n(graph@, a as int, z, 1) by {
                if a as int == z {
                    assert(g_reach_n(graph@, a as int, z, 1));
                } else if row@[z] {
                    assert(g_edge(graph@, a as int, z));
                    assert(g_reach_n(graph@, a as int, a as int, 0));
                    assert(g_reach_n(graph@, a as int, z, 1));
                } else {
                    if g_reach_n(graph@, a as int, z, 1) {
                        let c = choose|c: int|
                            0 <= c < graph@.len() && g_reach_n(graph@, a as int, c, 0) && g_edge(
                                graph@,
                                c,
                                z,
                            );
                        assert(c == a as int);
                        let e2 = choose|e2: int|
                            0 <= c < graph@.len() && 0 <= e2 < graph@[c]@.len() && graph@[c]@[e2].0
                                as int == z;
                        assert(graph@[a as int]@[e2].0 as int == z);
                        assert(false);
                    }
                }
            }
        }
        reach.push(row);
        a = a + 1;
    }
    let mut pass: usize = 0;
    while pass < n
        invariant
            pass <= n,
            reach@.len() == n,
            forall|x: int| 0 <= x < n ==> (#[trigger] reach@[x])@.len() == n,
            forall|x: int, y: int|
                0 <= x < n && 0 <= y < n ==> (#[trigger] reach@[x]@[y]) == g_reach_n(
                    graph@,
                    x,
                    y,
                    (pass + 1) as nat,
                ),
        decreases n - pass,
    {
        let mut newmat: Vec<Vec<bool>> = Vec::new();
        let mut a: usize = 0;
        while a < n
            invariant
                a <= n,
                newmat@.len() == a,
                forall|x: int| 0 <= x < a ==> (#[trigger] newmat@[x])@.len() == n,
                forall|x: int, y: int|
                    0 <= x < a && 0 <= y < n ==> (#[trigger] newmat@[x]@[y]) == g_reach_n(
                        graph@,
                        x,
                        y,
                        (pass + 2) as nat,
                    ),
            decreases n - a,
        {
            let mut row = clone_bools(&reach[a]);
            let mut b: usize = 0;
            while b < n
                invariant
                    b <= n,
                    row@.len() == n,
                    forall|z: int|
                        0 <= z < n ==> (#[trigger] row@[z]) == (reach@[a as int]@[z] || exists|
                            b2: int,
                            e2: int,
                        |
                            0 <= b2 < b && reach@[a as int]@[b2] && 0 <= e2
                                < graph@[b2]@.len() && (#[trigger] graph@[b2]@[e2]).0 as int
                                == z),
                decreases n - b,
            {
                if reach[a][b] {
                    let cnt = graph[b].len();
                    let mut e: usize = 0;
                    while e < cnt
                        invariant
                            e <= cnt,
                            cnt == graph@[b as int]@.len(),
                            b < n,
                            reach@[a as int]@[b as int],
                            row@.len() == n,
                            forall|z: int|
                                0 <= z < n ==> (#[trigger] row@[z]) == (reach@[a as int]@[z]
                                    || exists|b2: int, e2: int|
                                    (b2 < b || (b2 == b && e2 < e)) && 0 <= b2 < n
                                        && reach@[a as int]@[b2] && 0 <= e2
                                        < graph@[b2]@.len() && (#[trigger] graph@[b2]@[e2]).0
                                        as int == z),
                        decreases cnt - e,
                    {
                        let (t, _) = graph[b][e];
                        row.set(t, true);
                        e = e + 1;
                        proof {
                            assert forall|z: int|
                                0 <= z < n implies (#[trigger] row@[z]) == (reach@[a as int]@[z]
                                    || exists|b2: int, e2: int|
                                    (b2 < b || (b2 == b && e2 < e)) && 0 <= b2 < n
                                        && reach@[a as int]@[b2] && 0 <= e2
                                        < graph@[b2]@.len() && (#[trigger] graph@[b2]@[e2]).0
                                        as int == z) by {
                                if t as int == z {
                                    assert(graph@[b as int]@[e - 1].0 as int == z);
                                    assert(reach@[a as int]@[b as int]);
                                }
                            }
                        }
                    }
                }
                b = b + 1;
                proof {
                    assert forall|z: int|
                        0 <= z < n implies (#[trigger] row@[z]) == (reach@[a as int]@[z] || exists|
                            b2: int,
                            e2: int,
                        |
                            0 <= b2 < b && reach@[a as int]@[b2] && 0 <= e2
                                < graph@[b2]@.len() && (#[trigger] graph@[b2]@[e2]).0 as int
                                == z) by {}
                }
            }
            proof {
                assert forall|z: int|
                    0 <= z < n implies (#[trigger] row@[z]) == g_reach_n(
                    graph@,
                    a as int,
                    z,
                    (pass + 2) as nat,
                ) by {
                    if row@[z] {
                        if reach@[a as int]@[z] {
                            lemma_g_reach_mono(graph@, a as int, z, (pass + 1) as nat);
                        } else {
                            let (b2, e2) = choose|b2: int, e2: int|
                                0 <= b2 < n && reach@[a as int]@[b2] && 0 <= e2
                                    < graph@[b2]@.len() && (#[trigger] graph@[b2]@[e2]).0 as int
                                    == z;
                            assert(g_edge(graph@, b2, z));
                            assert(g_reach_n(graph@, a as int, b2, (pass + 1) as nat));
                            assert(g_reach_n(graph@, a as int, z, (pass + 2) as nat));
                        }
                    } else {
                        if g_reach_n(graph@, a as int, z, (pass + 2) as nat) {
                            if a as int == z {
                                assert(g_reach_n(graph@, a as int, z, (pass + 1) as nat));
                                assert(false);
                            } else {
                                let c = choose|c: int|
                                    0 <= c < graph@.len() && g_reach_n(
                                        graph@,
                                        a as int,
                                        c,
                                        (pass + 1) as nat,
                                    ) && g_edge(graph@, c, z);
                                assert(reach@[a as int]@[c]);
                                let e2 = choose|e2: int|
                                    0 <= e2 < graph@[c]@.len() && graph@[c]@[e2].0 as int == z;
                                assert(false);
                            }
                        }
                    }
                }
            }
            newmat.push(row);
            a = a + 1;
        }
        reach = newmat;
        pass = pass + 1;
    }
    let mut result: Vec<usize> = Vec::new();
    let mut v: usize = 0;
    while v < n
        invariant
            v <= n,
            reach@.len() == n,
            forall|x: int| 0 <= x < n ==> (#[trigger] reach@[x])@.len() == n,
            forall|x: int, y: int|
                0 <= x < n && 0 <= y < n ==> (#[trigger] reach@[x]@[y]) == g_reaches(graph@, x, y),
            forall|i1: int, i2: int| 0 <= i1 < i2 < result@.len() ==> result@[i1] != result@[i2],
            forall|lbl: usize|
                #[trigger] result@.contains(lbl) <==> (exists|v2: int, e2: int|
                    0 <= v2 < v && 0 <= e2 < graph@[v2]@.len() && (#[trigger] graph@[v2]@[e2]).1
                        == lbl && g_reaches(graph@, graph@[v2]@[e2].0 as int, v2)),
        decreases n - v,
    {
        let cnt = graph[v].len();
        let mut e: usize = 0;
        while e < cnt
            invariant
                e <= cnt,
                v < n,
                cnt == graph@[v as int]@.len(),
                forall|i1: int, i2: int|
                    0 <= i1 < i2 < result@.len() ==> result@[i1] != result@[i2],
                forall|lbl: usize|
                    #[trigger] result@.contains(lbl) <==> (exists|v2: int, e2: int|
                        (v2 < v || (v2 == v && e2 < e)) && 0 <= v2 < n && 0 <= e2
                            < graph@[v2]@.len() && (#[trigger] graph@[v2]@[e2]).1 == lbl
                            && g_reaches(graph@, graph@[v2]@[e2].0 as int, v2)),
            decreases cnt - e,
        {
            let (t, lbl) = graph[v][e];
            let cyc = reach[t][v];
            if cyc {
                if !holds_id(&result, lbl) {
                    let ghost result_pre = result@;
                    result.push(lbl);
                    proof {
                        lemma_contains_push(result_pre, lbl);
                    }
                }
            }
            e = e + 1;
            proof {
                assert forall|lbl2: usize|
                    #[trigger] result@.contains(lbl2) implies (exists|v2: int, e2: int|
                        (v2 < v || (v2 == v && e2 < e)) && 0 <= v2 < n && 0 <= e2
                            < graph@[v2]@.len() && (#[trigger] graph@[v2]@[e2]).1 == lbl2
                            && g_reaches(graph@, graph@[v2]@[e2].0 as int, v2)) by {}
                assert forall|lbl2: usize|
                    (exists|v2: int, e2: int|
                        (v2 < v || (v2 == v && e2 < e)) && 0 <= v2 < n && 0 <= e2
                            < graph@[v2]@.len() && (#[trigger] graph@[v2]@[e2]).1 == lbl2
                            && g_reaches(
                        graph@,
                        graph@[v2]@[e2].0 as int,
                        v2,
                    )) implies #[trigger] result@.contains(lbl2) by {
                    let (v2, e2) = choose|v2: int, e2: int|
                        (v2 < v || (v2 == v && e2 < e)) && 0 <= v2 < n && 0 <= e2
                            < graph@[v2]@.len() && (#[trigger] graph@[v2]@[e2]).1 == lbl2
                            && g_reaches(graph@, graph@[v2]@[e2].0 as int, v2);
                    if v2 == v && e2 == e - 1 {
                        assert(reach@[t as int]@[v as int]);
                    }
                }
            }
        }
        v = v + 1;
    }
    result
}

/// Analyzes every call site of a compiled program: where the enclosing
/// rule's `Return` lies, whether the call can be reached without consuming
/// input inside its rule body, and whether it participates in direct or
/// indirect recursion — its target's rule segment reaches back to the
/// calling rule's segment through the call graph.  A call whose target
/// lies outside the program gets no graph edge.  Entries come in program
/// order, one per call site.
#[verifier::loop_isolation(false)]
#[verifier::rlimit(100)]
pub fn metadata(program: &Vec<Instruction>) -> (r: Vec<(usize, CallMetadata)>)
    requires
        program@.len() <= MAX_PROGRAM,
    ensures
        forall|j: int|
            0 <= j < r@.len() ==> ((#[trigger] r@[j]).0 < program@.len() && is_call(
                program@[r@[j].0 as int],
            ) && r@[j].1.jump_position == next_return(program@, r@[j].0 as int)
                && r@[j].1.is_left_call == left_flag(program@, r@[j].0 as int)),
        forall|t: int|
            0 <= t < program@.len() && is_call(program@[t]) ==> exists|j: int|
                0 <= j < r@.len() && (#[trigger] r@[j]).0 == t,
        forall|j1: int, j2: int|
            0 <= j1 < j2 < r@.len() ==> (#[trigger] r@[j1]).0 < (#[trigger] r@[j2]).0,
        forall|j: int|
            0 <= j < r@.len() ==> (#[trigger] r@[j]).1.is_cyclic == call_cyclic(
                program@,
                r@[j].0 as int,
            ),
{
    let n = program.len();
    let jump_table = crate::machine::Machine::get_jump_table(program);
    let mut call_table: Vec<usize> = Vec::new();
    let mut current: usize = 0;
    let mut i: usize = 0;
    while i < n
        invariant
            i <= n,
            call_table@.len() == i,
            current <= i,
            current == rs_count(program@, i as int),
            forall|j: int| 0 <= j < i ==> (#[trigger] call_table@[j]) == rs_count(
                program@,
                j + 1,
            ),
        decreases n - i,
    {
        match program[i] {
            Instruction::Return => {
                current = current + 1;
            },
            Instruction::Stop => {
                current = current + 1;
            },
            _ => {},
        }
        call_table.push(current);
        i = i + 1;
    }
    let limit = current + 1;
    let mut graph: Vec<Vec<(usize, usize)>> = Vec::new();
    let mut t: usize = 0;
    while t < limit
        invariant
            t <= limit,
            graph@.len() == t,
            forall|v: int| 0 <= v < graph@.len() ==> (#[trigger] graph@[v])@.len() == 0,
        decreases limit - t,
    {
        let empty: Vec<(usize, usize)> = Vec::new();
        graph.push(empty);
        t = t + 1;
    }
    let mut i: usize = 0;
    while i < n
        invariant
            i <= n,
            graph@.len() == limit,
            limit == rs_count(program@, n as int) + 1,
            call_table@.len() == n,
            forall|j: int| 0 <= j < n ==> (#[trigger] call_table@[j]) == rs_count(
                program@,
                j + 1,
            ),
            forall|v: int, e: int|
                0 <= v < graph@.len() && 0 <= e < graph@[v]@.len() ==> (#[trigger] graph@[v]@[e]).0
                    < limit,
            forall|v: int, e: int|
                0 <= v < graph@.len() && 0 <= e < graph@[v]@.len() ==> ((#[trigger] graph@[v]@[e]).1
                    < i && (site_target(program@, graph@[v]@[e].1 as int) matches Some(tg)
                    && v == rs_count(program@, graph@[v]@[e].1 as int + 1) && graph@[v]@[e].0
                    == rs_count(program@, tg + 1))),
            forall|pc: int, tg: int|
                #![trigger site_target(program@, pc), rs_count(program@, tg + 1)]
                0 <= pc < i && site_target(program@, pc) == Some(tg) ==> exists|e: int|
                    0 <= e < graph@[rs_count(program@, pc + 1)]@.len()
                        && (#[trigger] graph@[rs_count(program@, pc + 1)]@[e]) == (
                    rs_count(program@, tg + 1) as usize,
                    pc as usize,
                    ),
        decreases n - i,
    {
        let ghost gpre = graph@;
        let ghost mut added = false;
        let ghost mut g_head: int = 0;
        let ghost mut g_target: int = 0;
        let ghost mut g_edges_pre: Seq<(usize, usize)> = Seq::empty();
        let off = match program[i] {
            Instruction::Call(j) => Some(j),
            Instruction::PrecedenceCall(j, _, _) => Some(j),
            _ => None,
        };
        match off {
            Some(j) => {
                match add_offset(i, j, n) {
                    Some(target) => {
                        if target < n {
                            proof {
                                assert(site_target(program@, i as int) == Some(target as int));
                                lemma_rs_mono(program@, i as int + 1, n as int);
                                lemma_rs_mono(program@, target as int + 1, n as int);
                            }
                            let head = call_table[i];
                            let tail = call_table[target];
                            let mut edges = graph.remove(head);
                            let ghost edges_pre = edges@;
                            edges.push((tail, i));
                            graph.insert(head, edges);
                            proof {
                                added = true;
                                g_head = head as int;
                                g_target = target as int;
                                g_edges_pre = edges_pre;
                                assert(graph@.len() == gpre.len());
                                assert forall|v: int|
                                    0 <= v < graph@.len() && v != head as int implies graph@[v]
                                    == gpre[v] by {}
                                assert(graph@[head as int]@ =~= edges_pre.push((tail, i)));
                                assert(gpre[head as int]@ == edges_pre);
                            }
                        } else {
                            proof {
                                assert(site_target(program@, i as int) is None);
                            }
                        }
                    },
                    None => {
                        proof {
                            assert(site_target(program@, i as int) is None);
                        }
                    },
                }
            },
            None => {
                proof {
                    assert(site_target(program@, i as int) is None);
                }
            },
        }
        proof {
            if added {
                assert(site_target(program@, i as int) == Some(g_target));
                assert(g_head == rs_count(program@, i as int + 1));
                assert(graph@[g_head]@[g_edges_pre.len() as int] == (
                    rs_count(program@, g_target + 1) as usize,
                    i as usize,
                ));
                assert forall|v: int, e: int|
                    0 <= v < graph@.len() && 0 <= e < graph@[v]@.len() implies ((
                    #[trigger] graph@[v]@[e]).1 < i + 1 && (site_target(
                    program@,
                    graph@[v]@[e].1 as int,
                ) matches Some(tg) && v == rs_count(program@, graph@[v]@[e].1 as int + 1)
                    && graph@[v]@[e].0 == rs_count(program@, tg + 1))) by {
                    if v == g_head && e == g_edges_pre.len() {
                    } else {
                        assert(graph@[v]@[e] == gpre[v]@[e]);
                    }
                }
                assert forall|v: int, e: int|
                    0 <= v < graph@.len() && 0 <= e < graph@[v]@.len() implies (
                    #[trigger] graph@[v]@[e]).0 < limit by {
                    if v == g_head && e == g_edges_pre.len() {
                        lemma_rs_mono(program@, g_target + 1, n as int);
                    } else {
                        assert(graph@[v]@[e] == gpre[v]@[e]);
                    }
                }
                assert forall|pc: int, tg: int|
                    0 <= pc < i + 1 && site_target(program@, pc) == Some(tg) implies exists|
                    e: int,
                |
                    0 <= e < graph@[rs_count(program@, pc + 1)]@.len()
                        && (#[trigger] graph@[rs_count(program@, pc + 1)]@[e]) == (
                    rs_count(program@, tg + 1) as usize,
                    pc as usize,
                    ) by {
                    lemma_rs_mono(program@, pc + 1, n as int);
                    let h = rs_count(program@, pc + 1);
                    if pc < i {
                        let e = choose|e: int|
                            0 <= e < gpre[h]@.len() && (#[trigger] gpre[h]@[e]) == (
                            rs_count(program@, tg + 1) as usize,
                            pc as usize,
                            );
                        assert(graph@[h]@[e] == gpre[h]@[e]);
                    } else {
                        assert(tg == g_target);
                        assert(h == g_head);
                        assert(graph@[h]@[g_edges_pre.len() as int] == (
                            rs_count(program@, tg + 1) as usize,
                            pc as usize,
                        ));
                    }
                }
            } else {
                assert(graph@ == gpre);
                assert forall|pc: int, tg: int|
                    0 <= pc < i + 1 && site_target(program@, pc) == Some(tg) implies exists|
                    e: int,
                |
                    0 <= e < graph@[rs_count(program@, pc + 1)]@.len()
                        && (#[trigger] graph@[rs_count(program@, pc + 1)]@[e]) == (
                    rs_count(program@, tg + 1) as usize,
                    pc as usize,
                    ) by {
                    assert(pc < i);
                    let e = choose|e: int|
                        0 <= e < gpre[rs_count(program@, pc + 1)]@.len()
                            && (#[trigger] gpre[rs_count(program@, pc + 1)]@[e]) == (
                        rs_count(program@, tg + 1) as usize,
                        pc as usize,
                        );
                    assert(graph@[rs_count(program@, pc + 1)]@[e] == gpre[rs_count(
                        program@,
                        pc + 1,
                    )]@[e]);
                }
            }
        }
        i = i + 1;
    }
    proof {
        assert forall|x: int, y: int| #[trigger] g_edge(graph@, x, y) <==> prog_edge(
            program@,
            x,
            y,
        ) by {
            if g_edge(graph@, x, y) {
                let e = choose|e: int|
                    0 <= x < graph@.len() && 0 <= e < graph@[x]@.len() && graph@[x]@[e].0 as int
                        == y;
                let lbl = graph@[x]@[e].1;
                assert(site_target(program@, lbl as int) matches Some(tg) && x == rs_count(
                    program@,
                    lbl as int + 1,
                ) && graph@[x]@[e].0 == rs_count(program@, tg + 1));
                assert(prog_edge(program@, x, y));
            }
            if prog_edge(program@, x, y) {
                let pc = choose|pc: int|
                    0 <= pc < program@.len() && ((#[trigger] site_target(program@, pc)) matches Some(
                        tg,
                    ) && rs_count(program@, pc + 1) == x && rs_count(program@, tg + 1) == y);
                let tg = site_target(program@, pc)->0;
                lemma_rs_mono(program@, pc + 1, n as int);
                let e = choose|e: int|
                    0 <= e < graph@[rs_count(program@, pc + 1)]@.len()
                        && (#[trigger] graph@[rs_count(program@, pc + 1)]@[e]) == (
                    rs_count(program@, tg + 1) as usize,
                    pc as usize,
                    );
                assert(graph@[x]@[e].0 as int == y);
                assert(g_edge(graph@, x, y));
            }
        }
        assert forall|x: int, y: int| #[trigger] g_reaches(graph@, x, y) == prog_reaches(
            program@,
            x,
            y,
        ) by {
            lemma_reach_iso(graph@, program@, x, y, (graph@.len() + 1) as nat);
        }
    }
    let cycles = detect_cycles(&graph);
    let mut result: Vec<(usize, CallMetadata)> = Vec::new();
    let mut flag = true;
    let mut i: usize = 0;
    while i < n
        invariant
            i <= n,
            flag == left_flag(program@, i as int),
            jump_table@.len() == n,
            forall|j: int|
                0 <= j < result@.len() ==> ((#[trigger] result@[j]).0 < i && is_call(
                    program@[result@[j].0 as int],
                ) && result@[j].1.jump_position == next_return(program@, result@[j].0 as int)
                    && result@[j].1.is_left_call == left_flag(program@, result@[j].0 as int)),
            forall|t2: int|
                0 <= t2 < i && is_call(program@[t2]) ==> exists|j: int|
                    0 <= j < result@.len() && (#[trigger] result@[j]).0 == t2,
            forall|j1: int, j2: int|
                0 <= j1 < j2 < result@.len() ==> (#[trigger] result@[j1]).0
                    < (#[trigger] result@[j2]).0,
            forall|j: int|
                0 <= j < result@.len() ==> (#[trigger] result@[j]).1.is_cyclic == call_cyclic(
                    program@,
                    result@[j].0 as int,
                ),
        decreases n - i,
    {
        let site = match program[i] {
            Instruction::Call(_) => true,
            Instruction::PrecedenceCall(_, _, _) => true,
            _ => false,
        };
        if site {
            let md = CallMetadata {
                is_left_call: flag,
                is_cyclic: holds_id(&cycles, i),
                jump_position: jump_table[i],
            };
            proof {
                match site_target(program@, i as int) {
                    Some(tg) => {
                        assert(cyclic_label(graph@, i) <==> g_reaches(
                            graph@,
                            rs_count(program@, tg + 1),
                            rs_count(program@, i as int + 1),
                        )) by {
                            if cyclic_label(graph@, i) {
                                let (v, e) = choose|v: int, e: int|
                                    0 <= v < graph@.len() && 0 <= e < graph@[v]@.len()
                                        && (#[trigger] graph@[v]@[e]).1 == i && g_reaches(
                                        graph@,
                                        graph@[v]@[e].0 as int,
                                        v,
                                    );
                                assert(site_target(program@, i as int) matches Some(tg2) && v
                                    == rs_count(program@, i as int + 1) && graph@[v]@[e].0
                                    == rs_count(program@, tg2 + 1));
                            }
                            if g_reaches(
                                graph@,
                                rs_count(program@, tg + 1),
                                rs_count(program@, i as int + 1),
                            ) {
                                lemma_rs_mono(program@, i as int + 1, n as int);
                                let e = choose|e: int|
                                    0 <= e < graph@[rs_count(program@, i as int + 1)]@.len()
                                        && (#[trigger] graph@[rs_count(
                                        program@,
                                        i as int + 1,
                                    )]@[e]) == (rs_count(program@, tg + 1) as usize, i as usize);
                                assert(cyclic_label(graph@, i));
                            }
                        }
                        assert(md.is_cyclic == call_cyclic(program@, i as int));
                    },
                    None => {
                        assert(!cyclic_label(graph@, i)) by {
                            if cyclic_label(graph@, i) {
                                let (v, e) = choose|v: int, e: int|
                                    0 <= v < graph@.len() && 0 <= e < graph@[v]@.len()
                                        && (#[trigger] graph@[v]@[e]).1 == i && g_reaches(
                                        graph@,
                                        graph@[v]@[e].0 as int,
                                        v,
                                    );
                                assert(site_target(program@, i as int) is Some);
                            }
                        }
                        assert(md.is_cyclic == false);
                        assert(!call_cyclic(program@, i as int));
                    },
                }
            }
            let ghost result_pre = result@;
            result.push((i, md));
            proof {
                assert forall|t2: int|
                    0 <= t2 < i + 1 && is_call(program@[t2]) implies exists|j: int|
                        0 <= j < result@.len() && (#[trigger] result@[j]).0 == t2 by {
                    if t2 < i {
                        let w = choose|j: int|
                            0 <= j < result_pre.len() && (#[trigger] result_pre[j]).0 == t2;
                        assert(result@[w].0 == t2);
                    } else {
                        assert(result@[result@.len() - 1].0 == t2);
                    }
                }
            }
        }
        let consumed_here = match program[i] {
            Instruction::Char(_) => true,
            Instruction::TestChar(_, _) => true,
            Instruction::Any => true,
            Instruction::TestAny(_, _) => true,
            Instruction::CharRange(_, _) => true,
            Instruction::CharRangeLink(_, _, _) => true,
            _ => false,
        };
        let boundary = match program[i] {
            Instruction::Return => true,
            Instruction::Stop => true,
            _ => false,
        };
        if consumed_here {
            flag = false;
        } else if boundary {
            flag = true;
        }
        i = i + 1;
    }
    result
}

} // verus!
