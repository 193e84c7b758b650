use vstd::prelude::*;

use crate::machine::language::{lemma_listed_class, listed_in};
use crate::machine::program::SpecInst;
use crate::machine::thompson::compile_spec;
use crate::machine::{machine_program, machine_start};
use crate::parser::ast::SpecAst;
use crate::regex::pike::{
    char_target, closure_from, closure_list, dfs, enter, last_before, leftmost_first,
    lemma_last_before_empty, marks, run, step_from,
};

verus! {

/// A pattern of one character: a literal, `.` or a class.
pub open spec fn single(a: SpecAst) -> bool {
    a is Literal || a is Any || a is Class
}

/// The one-character pattern `a` takes the character `ch`: a literal its own
/// character, `.` any, a class what one of its items lists (or, negated, what
/// none lists).
pub open spec fn takes(a: SpecAst, ch: char) -> bool {
    match a {
        SpecAst::Literal(c) => ch == c,
        SpecAst::Any => true,
        SpecAst::Class(items, negated) => negated != listed_in(items, ch),
        _ => false,
    }
}

/// Where the run of characters that `a` takes, from position `i` of `w`, ends.
pub open spec fn leading(w: Seq<char>, a: SpecAst, i: nat) -> nat
    decreases w.len() - i,
{
    if i < w.len() && takes(a, w[i as int]) {
        leading(w, a, i + 1)
    } else {
        i
    }
}

proof fn lemma_leading_bounds(w: Seq<char>, a: SpecAst, i: nat)
    requires
        i <= w.len(),
    ensures
        i <= leading(w, a, i) <= w.len(),
        forall|k: int| i <= k < leading(w, a, i) ==> takes(a, #[trigger] w[k]),
        leading(w, a, i) < w.len() ==> !takes(a, w[leading(w, a, i) as int]),
    decreases w.len() - i,
{
    if i < w.len() && takes(a, w[i as int]) {
        lemma_leading_bounds(w, a, i + 1);
    }
}

/// The instruction that a one-character pattern compiles to.
spec fn first_inst(a: SpecAst) -> SpecInst {
    compile_spec(a, Seq::empty()).0[0]
}

proof fn lemma_first_inst(a: SpecAst, p: Seq<SpecInst>, ch: char)
    requires
        single(a),
        p.len() > 0,
        p[0] == first_inst(a),
    ensures
        compile_spec(a, Seq::empty()) == (seq![first_inst(a), SpecInst::Hole], 0nat, 1nat),
        !(p[0] is Jump || p[0] is Split || p[0] is ConditionalJump || p[0] is Match),
        char_target(p, 0, ch) == (if takes(a, ch) {
            Some(1usize)
        } else {
            None
        }),
{
    let e = Seq::<SpecInst>::empty();
    assert(compile_spec(a, e).0 =~= seq![first_inst(a), SpecInst::Hole]);
    if let SpecAst::Class(items, negated) = a {
        lemma_listed_class(items, negated, ch);
    }
}

/// The program of `a*`, or of `a*?` when `lazy`.
spec fn star_code(a: SpecAst, lazy: bool) -> Seq<SpecInst> {
    seq![
        first_inst(a),
        SpecInst::Jump(2),
        if lazy { SpecInst::Split(3, 0) } else { SpecInst::Split(0, 3) },
        SpecInst::Match,
    ]
}

/// The program of `a?`, or of `a??` when `lazy`.
spec fn question_code(a: SpecAst, lazy: bool) -> Seq<SpecInst> {
    seq![
        first_inst(a),
        SpecInst::Match,
        if lazy { SpecInst::Split(1, 0) } else { SpecInst::Split(0, 1) },
    ]
}

proof fn lemma_codes(a: SpecAst)
    requires
        single(a),
    ensures
        machine_program(SpecAst::Star(Box::new(a))) == star_code(a, false),
        machine_start(SpecAst::Star(Box::new(a))) == 2,
        machine_program(SpecAst::LazyStar(Box::new(a))) == star_code(a, true),
        machine_start(SpecAst::LazyStar(Box::new(a))) == 2,
        machine_program(SpecAst::Question(Box::new(a))) == question_code(a, false),
        machine_start(SpecAst::Question(Box::new(a))) == 2,
        machine_program(SpecAst::LazyQuestion(Box::new(a))) == question_code(a, true),
        machine_start(SpecAst::LazyQuestion(Box::new(a))) == 2,
{
    let e = Seq::<SpecInst>::empty();
    let lit = seq![first_inst(a), SpecInst::Hole];
    lemma_first_inst(a, star_code(a, false), ' ');
    let g = lit.update(1, SpecInst::Jump(2)).push(SpecInst::Split(0, 3)).push(SpecInst::Hole);
    let z = lit.update(1, SpecInst::Jump(2)).push(SpecInst::Split(3, 0)).push(SpecInst::Hole);
    assert(compile_spec(SpecAst::Star(Box::new(a)), e) == (g, 2nat, 3nat));
    assert(compile_spec(SpecAst::LazyStar(Box::new(a)), e) == (z, 2nat, 3nat));
    assert(g.update(3, SpecInst::Match) =~= star_code(a, false));
    assert(z.update(3, SpecInst::Match) =~= star_code(a, true));
    let q = lit.push(SpecInst::Split(0, 1));
    let r = lit.push(SpecInst::Split(1, 0));
    assert(compile_spec(SpecAst::Question(Box::new(a)), e) == (q, 2nat, 1nat));
    assert(compile_spec(SpecAst::LazyQuestion(Box::new(a)), e) == (r, 2nat, 1nat));
    assert(q.update(1, SpecInst::Match) =~= question_code(a, false));
    assert(r.update(1, SpecInst::Match) =~= question_code(a, true));
}

/// The threads of `a*` (or `a*?`) waiting at any position, when the thread
/// at the entry or the one after a taken character arrives: the consuming
/// state and the match, in the order of the split.
proof fn lemma_star_closure(a: SpecAst, lazy: bool, pos: int, len: int, j: usize)
    requires
        single(a),
        j == 1 || j == 2,
    ensures
        closure_list(star_code(a, lazy), pos, len, seq![j]) == (if lazy {
            seq![3usize, 0usize]
        } else {
            seq![0usize, 3usize]
        }),
{
    let p = star_code(a, lazy);
    lemma_first_inst(a, p, ' ');
    let e = Seq::<usize>::empty();
    let m = marks(p.len(), seq![j]);
    let one = seq![j];
    assert(one.len() == 1 && one[0] == j);
    assert(p.len() == 4);
    assert(m.len() == 4);
    assert(m[j as int]);
    assert(!m[0]);
    assert(!m[3]);
    if j == 1 {
        assert(!m[2]);
    }
    let m2 = if j == 1 { m.update(2, true) } else { m };
    let f: nat = if j == 1 { 3 } else { 4 };
    let (s1, t1) = if lazy {
        (m2.update(3, true), seq![3usize])
    } else {
        (m2.update(0, true), seq![0usize])
    };
    if lazy {
        assert(enter(p, pos, len, f, m2, e, 3) == (s1, t1));
        assert(s1[0] == false);
        assert(enter(p, pos, len, f, s1, t1, 0) == (s1.update(0, true), seq![3usize, 0usize]));
    } else {
        assert(enter(p, pos, len, f, m2, e, 0) == (s1, t1));
        assert(s1[3] == false);
        assert(enter(p, pos, len, f, s1, t1, 3) == (s1.update(3, true), seq![0usize, 3usize]));
    }
    let fin = if lazy {
        (s1.update(0, true), seq![3usize, 0usize])
    } else {
        (s1.update(3, true), seq![0usize, 3usize])
    };
    if j == 1 {
        assert(dfs(p, pos, len, 4, m2, e, 2) == fin);
        assert(enter(p, pos, len, 4, m, e, 2) == fin);
    }
    assert(dfs(p, pos, len, 5, m, e, j) == fin);
    assert(one.drop_first() =~= e);
    assert(closure_from(p, pos, len, fin.0, fin.1, e) == fin);
}

proof fn lemma_no_threads(p: Seq<SpecInst>, pos: int, len: int)
    ensures
        closure_list(p, pos, len, Seq::<usize>::empty()) == Seq::<usize>::empty(),
{
}

proof fn lemma_greedy_run(a: SpecAst, w: Seq<char>, i: nat)
    requires
        single(a),
        i <= leading(w, a, 0),
    ensures
        run(star_code(a, false), 2, w, i) == seq![0usize, 3usize],
    decreases i,
{
    let p = star_code(a, false);
    lemma_leading_bounds(w, a, 0);
    if i == 0 {
        lemma_star_closure(a, false, 0, w.len() as int, 2);
    } else {
        lemma_greedy_run(a, w, (i - 1) as nat);
        let l = seq![0usize, 3usize];
        let e = Seq::<usize>::empty();
        let ch = w[i - 1];
        assert(takes(a, ch));
        lemma_first_inst(a, p, ch);
        assert(!e.contains(1usize));
        assert(l.drop_first() =~= seq![3usize]);
        assert(e.push(1usize) =~= seq![1usize]);
        assert(step_from(p, seq![3usize], ch, seq![1usize]) == seq![1usize]);
        assert(step_from(p, l, ch, e) == seq![1usize]);
        lemma_star_closure(a, false, i as int, w.len() as int, 1);
    }
}

proof fn lemma_greedy_stops(a: SpecAst, w: Seq<char>)
    requires
        single(a),
        leading(w, a, 0) < w.len(),
    ensures
        run(star_code(a, false), 2, w, leading(w, a, 0) + 1).len() == 0,
{
    let p = star_code(a, false);
    let n = leading(w, a, 0);
    lemma_leading_bounds(w, a, 0);
    lemma_greedy_run(a, w, n);
    let l = seq![0usize, 3usize];
    let e = Seq::<usize>::empty();
    let ch = w[n as int];
    lemma_first_inst(a, p, ch);
    assert(char_target(p, 0, ch) is None);
    assert(l.drop_first() =~= seq![3usize]);
    assert(step_from(p, seq![3usize], ch, e) == e);
    assert(step_from(p, l, ch, e) == e);
    lemma_no_threads(p, (n + 1) as int, w.len() as int);
}

proof fn lemma_lazy_star_stops(a: SpecAst, w: Seq<char>)
    requires
        single(a),
        w.len() > 0,
    ensures
        run(star_code(a, true), 2, w, 1).len() == 0,
{
    let p = star_code(a, true);
    let e = Seq::<usize>::empty();
    lemma_star_closure(a, true, 0, w.len() as int, 2);
    assert(run(p, 2, w, 0) == seq![3usize, 0usize]);
    assert(p[3] is Match);
    assert(step_from(p, seq![3usize, 0usize], w[0], e) == e);
    lemma_no_threads(p, 1, w.len() as int);
    assert(run(p, 2, w, 1) == closure_list(p, 1, w.len() as int, step_from(p, run(p, 2, w, 0), w[0], e)));
}

/// Priority at work on a star over one character (a literal, `.` or a
/// class): greedy `a*` takes the whole run of characters that `a` takes at
/// the start of the input, and lazy `a*?` takes nothing, whatever follows.
pub proof fn lemma_star_priority(a: SpecAst, w: Seq<char>)
    requires
        single(a),
    ensures
        ({
            let s = SpecAst::Star(Box::new(a));
            leftmost_first(machine_program(s), machine_start(s) as int, w) == Some(leading(w, a, 0))
        }),
        ({
            let s = SpecAst::LazyStar(Box::new(a));
            leftmost_first(machine_program(s), machine_start(s) as int, w) == Some(0nat)
        }),
{
    lemma_codes(a);
    lemma_leading_bounds(w, a, 0);
    let g = star_code(a, false);
    let z = star_code(a, true);
    let n = leading(w, a, 0);
    lemma_greedy_run(a, w, n);
    assert(g[seq![0usize, 3usize][1] as int] is Match);
    if n < w.len() {
        lemma_greedy_stops(a, w);
        lemma_last_before_empty(g, 2, w, n + 1, w.len());
        assert(last_before(g, 2, w, n + 2) == last_before(g, 2, w, n + 1));
    }
    assert(leftmost_first(g, 2, w) == Some(n));
    lemma_star_closure(a, true, 0, w.len() as int, 2);
    assert(z[seq![3usize, 0usize][0] as int] is Match);
    if w.len() > 0 {
        lemma_lazy_star_stops(a, w);
        lemma_last_before_empty(z, 2, w, 1, w.len());
        assert(last_before(z, 2, w, 2) == last_before(z, 2, w, 1));
    }
    assert(leftmost_first(z, 2, w) == Some(0nat));
}

/// The threads of `a?` (or `a??`) at any position: from the entry, the
/// consuming state and the match in the order of the split; from the state
/// after a taken character, the match alone.
proof fn lemma_question_closure(a: SpecAst, lazy: bool, pos: int, len: int)
    requires
        single(a),
    ensures
        closure_list(question_code(a, lazy), pos, len, seq![2usize]) == (if lazy {
            seq![1usize, 0usize]
        } else {
            seq![0usize, 1usize]
        }),
        closure_list(question_code(a, lazy), pos, len, seq![1usize]) == seq![1usize],
{
    let p = question_code(a, lazy);
    lemma_first_inst(a, p, ' ');
    let e = Seq::<usize>::empty();
    assert(p.len() == 3);
    let one = seq![2usize];
    assert(one.len() == 1 && one[0] == 2);
    let m = marks(p.len(), one);
    assert(m.len() == 3 && m[2] && !m[0] && !m[1]);
    let (s1, t1) = if lazy {
        (m.update(1, true), seq![1usize])
    } else {
        (m.update(0, true), seq![0usize])
    };
    let fin = if lazy {
        (s1.update(0, true), seq![1usize, 0usize])
    } else {
        (s1.update(1, true), seq![0usize, 1usize])
    };
    if lazy {
        assert(enter(p, pos, len, 3, m, e, 1) == (s1, t1));
        assert(!s1[0]);
        assert(enter(p, pos, len, 3, s1, t1, 0) == fin);
    } else {
        assert(enter(p, pos, len, 3, m, e, 0) == (s1, t1));
        assert(!s1[1]);
        assert(enter(p, pos, len, 3, s1, t1, 1) == fin);
    }
    assert(dfs(p, pos, len, 4, m, e, 2) == fin);
    assert(one.drop_first() =~= e);
    assert(closure_from(p, pos, len, fin.0, fin.1, e) == fin);
    let two = seq![1usize];
    assert(two.len() == 1 && two[0] == 1);
    let m1 = marks(p.len(), two);
    assert(dfs(p, pos, len, 4, m1, e, 1) == (m1, two));
    assert(two.drop_first() =~= e);
    assert(closure_from(p, pos, len, m1, two, e) == (m1, two));
}

/// After the first character of `a?` (or `a??`), the threads are the match
/// alone when the greedy form took the character, and none otherwise; after
/// that, none.
proof fn lemma_question_runs(a: SpecAst, lazy: bool, w: Seq<char>)
    requires
        single(a),
        w.len() > 0,
    ensures
        run(question_code(a, lazy), 2, w, 1) == (if !lazy && takes(a, w[0]) {
            seq![1usize]
        } else {
            Seq::<usize>::empty()
        }),
        w.len() > 1 ==> run(question_code(a, lazy), 2, w, 2).len() == 0,
{
    let p = question_code(a, lazy);
    let e = Seq::<usize>::empty();
    let len = w.len() as int;
    lemma_question_closure(a, lazy, 0, len);
    lemma_question_closure(a, lazy, 1, len);
    lemma_first_inst(a, p, w[0]);
    assert(p[1] is Match);
    let r0 = run(p, 2, w, 0);
    if lazy {
        assert(r0 == seq![1usize, 0usize]);
        assert(step_from(p, r0, w[0], e) == e);
    } else {
        assert(r0 == seq![0usize, 1usize]);
        assert(r0.drop_first() =~= seq![1usize]);
        if takes(a, w[0]) {
            assert(e.push(1usize) =~= seq![1usize]);
            assert(step_from(p, seq![1usize], w[0], seq![1usize]) == seq![1usize]);
            assert(step_from(p, r0, w[0], e) == seq![1usize]);
        } else {
            assert(step_from(p, seq![1usize], w[0], e) == e);
            assert(step_from(p, r0, w[0], e) == e);
        }
    }
    lemma_no_threads(p, 1, len);
    assert(run(p, 2, w, 1) == closure_list(p, 1, len, step_from(p, r0, w[0], e)));
    if w.len() > 1 {
        let r1 = run(p, 2, w, 1);
        if r1.len() > 0 {
            assert(r1 == seq![1usize]);
            assert(step_from(p, r1, w[1], e) == e);
        }
        assert(step_from(p, r1, w[1], e) == e);
        lemma_no_threads(p, 2, len);
        assert(run(p, 2, w, 2) == closure_list(p, 2, len, step_from(p, r1, w[1], e)));
    }
}

/// Priority at work on an optional character (a literal, `.` or a class):
/// greedy `a?` takes the first character when `a` takes it, and lazy `a??`
/// never does.
pub proof fn lemma_question_priority(a: SpecAst, w: Seq<char>)
    requires
        single(a),
    ensures
        ({
            let s = SpecAst::Question(Box::new(a));
            leftmost_first(machine_program(s), machine_start(s) as int, w) == Some(
                if w.len() > 0 && takes(a, w[0]) {
                    1nat
                } else {
                    0nat
                },
            )
        }),
        ({
            let s = SpecAst::LazyQuestion(Box::new(a));
            leftmost_first(machine_program(s), machine_start(s) as int, w) == Some(0nat)
        }),
{
    lemma_codes(a);
    let len = w.len() as int;
    let g = question_code(a, false);
    let z = question_code(a, true);
    lemma_question_closure(a, false, 0, len);
    lemma_question_closure(a, true, 0, len);
    assert(g[1] is Match && z[1] is Match);
    assert(g[seq![0usize, 1usize][1] as int] is Match);
    assert(z[seq![1usize, 0usize][0] as int] is Match);
    if w.len() > 0 {
        lemma_question_runs(a, false, w);
        lemma_question_runs(a, true, w);
        lemma_last_before_empty(z, 2, w, 1, w.len());
        assert(last_before(z, 2, w, 2) == last_before(z, 2, w, 1));
        if takes(a, w[0]) {
            assert(g[seq![1usize][0] as int] is Match);
            if w.len() > 1 {
                lemma_last_before_empty(g, 2, w, 2, w.len());
                assert(last_before(g, 2, w, 3) == last_before(g, 2, w, 2));
            }
        } else {
            lemma_last_before_empty(g, 2, w, 1, w.len());
            assert(last_before(g, 2, w, 2) == last_before(g, 2, w, 1));
        }
    }
    assert(leftmost_first(z, 2, w) == Some(0nat));
}

} // verus!
