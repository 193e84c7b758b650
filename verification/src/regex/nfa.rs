use vstd::prelude::*;

use crate::machine::class::class_matches;
use crate::machine::position::Position;
use crate::machine::program::SpecInst;

verus! {

/// An instruction that waits for the input: it consumes a character, or it
/// accepts.
pub open spec fn is_leaf(i: SpecInst) -> bool {
    ||| i is Consume
    ||| i is ConsumeAny
    ||| i is ConsumeClass
    ||| i is Match
}

/// An edge that consumes no input: a jump, either arm of a split, or a
/// conditional jump whose position test holds at `pos` in an input of length
/// `len`.
pub open spec fn eps_edge(p: Seq<SpecInst>, pos: int, len: int, s: int, t: int) -> bool {
    &&& 0 <= s < p.len()
    &&& match p[s] {
        SpecInst::Jump(j) => t == j,
        SpecInst::Split(a, b) => t == a || t == b,
        SpecInst::ConditionalJump(Position::Start, j) => pos == 0 && t == j,
        SpecInst::ConditionalJump(Position::End, j) => pos == len && t == j,
        _ => false,
    }
}

/// A walk along edges that consume no input.
pub open spec fn is_eps_path(p: Seq<SpecInst>, pos: int, len: int, path: Seq<int>) -> bool {
    &&& path.len() >= 1
    &&& forall|k: int| 0 <= k < path.len() - 1 ==> eps_edge(p, pos, len, #[trigger] path[k], path[k + 1])
}

/// `t` can be reached from `s` without consuming input, at position `pos`.
pub open spec fn eps_reaches(p: Seq<SpecInst>, pos: int, len: int, s: int, t: int) -> bool {
    exists|path: Seq<int>| #[trigger]
        is_eps_path(p, pos, len, path) && path[0] == s && path.last() == t
}

/// The states that wait for input once every edge that consumes no input has
/// been followed from `roots`, at position `pos`.
pub open spec fn closure_of(p: Seq<SpecInst>, pos: int, len: int, roots: Set<int>) -> Set<int> {
    Set::new(
        |t: int|
            0 <= t < p.len() && is_leaf(p[t]) && exists|r: int| #[trigger]
                roots.contains(r) && eps_reaches(p, pos, len, r, t),
    )
}

/// An edge that consumes the character `c`.
pub open spec fn char_edge(p: Seq<SpecInst>, s: int, c: char, t: int) -> bool {
    &&& 0 <= s < p.len()
    &&& match p[s] {
        SpecInst::Consume(d, j) => d == c && t == j,
        SpecInst::ConsumeAny(j) => t == j,
        SpecInst::ConsumeClass(items, negated, j) => class_matches(items, negated, c) && t == j,
        _ => false,
    }
}

/// The states reached from `from` by consuming `c`.
pub open spec fn step_of(p: Seq<SpecInst>, from: Set<int>, c: char) -> Set<int> {
    Set::new(|t: int| exists|s: int| #[trigger] from.contains(s) && char_edge(p, s, c, t))
}

/// The states of the program, started at `start`, that wait for input after
/// it has read the first `i` characters of `input`.
pub open spec fn active(p: Seq<SpecInst>, start: int, input: Seq<char>, i: nat) -> Set<int>
    decreases i,
{
    if i == 0 {
        closure_of(p, 0, input.len() as int, set![start])
    } else {
        closure_of(
            p,
            i as int,
            input.len() as int,
            step_of(p, active(p, start, input, (i - 1) as nat), input[i - 1]),
        )
    }
}

/// The program accepts after reading the first `i` characters of `input`
/// (position tests see the whole of `input`).
pub open spec fn accepts_at(p: Seq<SpecInst>, start: int, input: Seq<char>, i: nat) -> bool {
    exists|t: int| #[trigger] active(p, start, input, i).contains(t) && p[t] is Match
}

pub proof fn lemma_eps_extend(p: Seq<SpecInst>, pos: int, len: int, r: int, s: int, t: int)
    requires
        eps_reaches(p, pos, len, r, s),
        eps_edge(p, pos, len, s, t),
    ensures
        eps_reaches(p, pos, len, r, t),
{
    let path = choose|path: Seq<int>|
        is_eps_path(p, pos, len, path) && path[0] == r && path.last() == s;
    let path2 = path.push(t);
    assert forall|k: int| 0 <= k < path2.len() - 1 implies eps_edge(
        p,
        pos,
        len,
        #[trigger] path2[k],
        path2[k + 1],
    ) by {
        if k < path.len() - 1 {
            assert(path2[k] == path[k] && path2[k + 1] == path[k + 1]);
        }
    }
    assert(is_eps_path(p, pos, len, path2));
}

pub proof fn lemma_eps_prepend(p: Seq<SpecInst>, pos: int, len: int, s: int, r: int, t: int)
    requires
        eps_edge(p, pos, len, s, r),
        eps_reaches(p, pos, len, r, t),
    ensures
        eps_reaches(p, pos, len, s, t),
{
    let path = choose|path: Seq<int>|
        is_eps_path(p, pos, len, path) && path[0] == r && path.last() == t;
    let path2 = seq![s] + path;
    assert forall|k: int| 0 <= k < path2.len() - 1 implies eps_edge(
        p,
        pos,
        len,
        #[trigger] path2[k],
        path2[k + 1],
    ) by {
        if k > 0 {
            assert(path2[k] == path[k - 1] && path2[k + 1] == path[k]);
        }
    }
    assert(is_eps_path(p, pos, len, path2));
    assert(path2.last() == path.last());
}

/// Moving fewer states moves them to fewer states.
pub proof fn lemma_step_of_mono(p: Seq<SpecInst>, a: Set<int>, b: Set<int>, c: char)
    requires
        a.subset_of(b),
    ensures
        step_of(p, a, c).subset_of(step_of(p, b, c)),
{
    assert forall|t: int| step_of(p, a, c).contains(t) implies step_of(p, b, c).contains(t) by {
        let s = choose|s: int| #[trigger] a.contains(s) && char_edge(p, s, c, t);
        assert(b.contains(s));
    }
}

pub proof fn lemma_eps_refl(p: Seq<SpecInst>, pos: int, len: int, s: int)
    ensures
        eps_reaches(p, pos, len, s, s),
{
    let path = seq![s];
    assert(is_eps_path(p, pos, len, path));
}

/// Once no state waits for input, none ever will again.
pub proof fn lemma_active_empty(p: Seq<SpecInst>, start: int, input: Seq<char>, i: nat, k: nat)
    requires
        active(p, start, input, i) == Set::<int>::empty(),
        i <= k,
    ensures
        active(p, start, input, k) == Set::<int>::empty(),
    decreases k - i,
{
    if i < k {
        lemma_active_empty(p, start, input, i, (k - 1) as nat);
        let prev = active(p, start, input, (k - 1) as nat);
        assert(step_of(p, prev, input[k - 1]) =~= Set::<int>::empty());
        assert(active(p, start, input, k) =~= Set::<int>::empty());
    }
}

/// Fewer roots reach fewer states.
pub proof fn lemma_closure_mono(p: Seq<SpecInst>, pos: int, len: int, a: Set<int>, b: Set<int>)
    requires
        a.subset_of(b),
    ensures
        closure_of(p, pos, len, a).subset_of(closure_of(p, pos, len, b)),
{
}

/// Two walks that consume no input, one after the other.
pub proof fn lemma_eps_trans(p: Seq<SpecInst>, pos: int, len: int, s: int, m: int, t: int)
    requires
        eps_reaches(p, pos, len, s, m),
        eps_reaches(p, pos, len, m, t),
    ensures
        eps_reaches(p, pos, len, s, t),
{
    let a = choose|path: Seq<int>| is_eps_path(p, pos, len, path) && path[0] == s && path.last() == m;
    let b = choose|path: Seq<int>| is_eps_path(p, pos, len, path) && path[0] == m && path.last() == t;
    let c = a + b.drop_first();
    assert forall|k: int| 0 <= k < c.len() - 1 implies eps_edge(
        p,
        pos,
        len,
        #[trigger] c[k],
        c[k + 1],
    ) by {
        if k < a.len() - 1 {
            assert(c[k] == a[k] && c[k + 1] == a[k + 1]);
        } else if k == a.len() - 1 {
            assert(c[k] == a[k] && a[k] == b[0] && c[k + 1] == b[1]);
        } else {
            assert(c[k] == b[k - a.len() + 1] && c[k + 1] == b[k - a.len() + 2]);
        }
    }
    assert(is_eps_path(p, pos, len, c));
    if b.len() == 1 {
        assert(c =~= a);
    } else {
        assert(c.last() == b.last());
    }
}

/// Started at state `s` with `i` characters of `w` read, the program can be at
/// state `t` with `j` read: walks that consume no input, each followed by an
/// edge that consumes the next character, then a last such walk.
pub open spec fn reaches(p: Seq<SpecInst>, w: Seq<char>, s: int, i: int, t: int, j: int) -> bool
    decreases j - i,
{
    if i > j {
        false
    } else if i == j {
        eps_reaches(p, i, w.len() as int, s, t)
    } else {
        exists|m: int, m2: int|
            #![trigger eps_reaches(p, i, w.len() as int, s, m), char_edge(p, m, w[i], m2)]
            eps_reaches(p, i, w.len() as int, s, m) && char_edge(p, m, w[i], m2) && reaches(
                p,
                w,
                m2,
                i + 1,
                t,
                j,
            )
    }
}

/// A walk that consumes no input, then a run.
pub proof fn lemma_reaches_after_eps(
    p: Seq<SpecInst>,
    w: Seq<char>,
    s: int,
    k: int,
    i: int,
    t: int,
    j: int,
)
    requires
        eps_reaches(p, i, w.len() as int, s, k),
        reaches(p, w, k, i, t, j),
    ensures
        reaches(p, w, s, i, t, j),
{
    let l = w.len() as int;
    if i == j {
        lemma_eps_trans(p, i, l, s, k, t);
    } else {
        let (m, m2) = choose|m: int, m2: int|
            #![trigger eps_reaches(p, i, l, k, m), char_edge(p, m, w[i], m2)]
            eps_reaches(p, i, l, k, m) && char_edge(p, m, w[i], m2) && reaches(p, w, m2, i + 1, t, j);
        lemma_eps_trans(p, i, l, s, k, m);
    }
}

/// One run, then another from where it ended.
pub proof fn lemma_reaches_trans(
    p: Seq<SpecInst>,
    w: Seq<char>,
    s: int,
    i: int,
    k: int,
    m: int,
    t: int,
    j: int,
)
    requires
        reaches(p, w, s, i, k, m),
        reaches(p, w, k, m, t, j),
    ensures
        reaches(p, w, s, i, t, j),
    decreases m - i,
{
    let l = w.len() as int;
    if i == m {
        lemma_reaches_after_eps(p, w, s, k, i, t, j);
    } else {
        let (m0, m2) = choose|m0: int, m2: int|
            #![trigger eps_reaches(p, i, l, s, m0), char_edge(p, m0, w[i], m2)]
            eps_reaches(p, i, l, s, m0) && char_edge(p, m0, w[i], m2) && reaches(p, w, m2, i + 1, k, m);
        lemma_reaches_trans(p, w, m2, i + 1, k, m, t, j);
    }
}

/// A run followed by one edge that consumes no input.
pub proof fn lemma_reaches_eps_edge(
    p: Seq<SpecInst>,
    w: Seq<char>,
    s: int,
    i: int,
    t: int,
    j: int,
    u: int,
)
    requires
        reaches(p, w, s, i, t, j),
        eps_edge(p, j, w.len() as int, t, u),
    ensures
        reaches(p, w, s, i, u, j),
{
    lemma_eps_refl(p, j, w.len() as int, t);
    lemma_eps_extend(p, j, w.len() as int, t, t, u);
    lemma_reaches_trans(p, w, s, i, t, j, u, j);
}

/// A run that ends one character later ends with that character's edge and a
/// walk that consumes no input.
pub proof fn lemma_reaches_last(p: Seq<SpecInst>, w: Seq<char>, s: int, i: int, t: int, j: int)
    requires
        reaches(p, w, s, i, t, j + 1),
        i <= j,
    ensures
        exists|m: int, m2: int|
            #![trigger reaches(p, w, s, i, m, j), char_edge(p, m, w[j], m2)]
            reaches(p, w, s, i, m, j) && char_edge(p, m, w[j], m2) && eps_reaches(
                p,
                j + 1,
                w.len() as int,
                m2,
                t,
            ),
    decreases j - i,
{
    let l = w.len() as int;
    let (m, m2) = choose|m: int, m2: int|
        #![trigger eps_reaches(p, i, l, s, m), char_edge(p, m, w[i], m2)]
        eps_reaches(p, i, l, s, m) && char_edge(p, m, w[i], m2) && reaches(p, w, m2, i + 1, t, j + 1);
    if i == j {
        assert(reaches(p, w, s, i, m, j));
    } else {
        lemma_reaches_last(p, w, m2, i + 1, t, j);
        let (a, b) = choose|a: int, b: int|
            #![trigger reaches(p, w, m2, i + 1, a, j), char_edge(p, a, w[j], b)]
            reaches(p, w, m2, i + 1, a, j) && char_edge(p, a, w[j], b) && eps_reaches(
                p,
                j + 1,
                l,
                b,
                t,
            );
        assert(reaches(p, w, s, i, a, j));
    }
}

/// Where a run from the entry can wait for input, the program's active states
/// say so.
pub proof fn lemma_reaches_active(p: Seq<SpecInst>, st: int, w: Seq<char>, t: int, n: nat)
    requires
        reaches(p, w, st, 0, t, n as int),
        0 <= t < p.len(),
        is_leaf(p[t]),
        n <= w.len(),
    ensures
        active(p, st, w, n).contains(t),
    decreases n,
{
    let l = w.len() as int;
    if n == 0 {
        assert(set![st].contains(st));
    } else {
        let j = (n - 1) as int;
        lemma_reaches_last(p, w, st, 0, t, j);
        let (m, m2) = choose|m: int, m2: int|
            #![trigger reaches(p, w, st, 0, m, j), char_edge(p, m, w[j], m2)]
            reaches(p, w, st, 0, m, j) && char_edge(p, m, w[j], m2) && eps_reaches(p, j + 1, l, m2, t);
        lemma_reaches_active(p, st, w, m, (n - 1) as nat);
        let prev = active(p, st, w, (n - 1) as nat);
        assert(step_of(p, prev, w[j]).contains(m2));
    }
}

/// One move of the program: an edge that consumes no input, or one that
/// consumes the character at the current position. A configuration is a
/// state and a position.
pub open spec fn moves(p: Seq<SpecInst>, w: Seq<char>, c: (int, int), d: (int, int)) -> bool {
    ||| d.1 == c.1 && eps_edge(p, c.1, w.len() as int, c.0, d.0)
    ||| d.1 == c.1 + 1 && 0 <= c.1 < w.len() && char_edge(p, c.0, w[c.1], d.0)
}

/// A sequence of configurations, each reached from the one before by a move.
pub open spec fn is_run(p: Seq<SpecInst>, w: Seq<char>, path: Seq<(int, int)>) -> bool {
    &&& path.len() >= 1
    &&& forall|k: int| 0 <= k < path.len() - 1 ==> moves(p, w, #[trigger] path[k], path[k + 1])
}

/// A walk that consumes no input, as a run that stays at one position.
proof fn lemma_eps_run(p: Seq<SpecInst>, w: Seq<char>, pos: int, s: int, t: int) -> (path: Seq<
    (int, int),
>)
    requires
        eps_reaches(p, pos, w.len() as int, s, t),
    ensures
        is_run(p, w, path),
        path[0] == (s, pos),
        path.last() == (t, pos),
{
    let sp = choose|sp: Seq<int>| is_eps_path(p, pos, w.len() as int, sp) && sp[0] == s && sp.last() == t;
    let path = Seq::new(sp.len(), |k: int| (sp[k], pos));
    assert forall|k: int| 0 <= k < path.len() - 1 implies moves(p, w, #[trigger] path[k], path[k + 1]) by {
        assert(eps_edge(p, pos, w.len() as int, sp[k], sp[k + 1]));
    }
    path
}

/// Every active state is where some run from the entry ends.
pub proof fn lemma_active_run(p: Seq<SpecInst>, st: int, w: Seq<char>, t: int, n: nat) -> (path: Seq<
    (int, int),
>)
    requires
        active(p, st, w, n).contains(t),
        n <= w.len(),
    ensures
        is_run(p, w, path),
        path[0] == (st, 0int),
        path.last() == (t, n as int),
    decreases n,
{
    let l = w.len() as int;
    if n == 0 {
        let r = choose|r: int| #[trigger] set![st].contains(r) && eps_reaches(p, 0, l, r, t);
        lemma_eps_run(p, w, 0, st, t)
    } else {
        let prev = active(p, st, w, (n - 1) as nat);
        let roots = step_of(p, prev, w[n - 1]);
        let r = choose|r: int| #[trigger] roots.contains(r) && eps_reaches(p, n as int, l, r, t);
        let s = choose|s: int| #[trigger] prev.contains(s) && char_edge(p, s, w[n - 1], r);
        let a = lemma_active_run(p, st, w, s, (n - 1) as nat);
        let b = lemma_eps_run(p, w, n as int, r, t);
        let path = a + b;
        assert forall|k: int| 0 <= k < path.len() - 1 implies moves(p, w, #[trigger] path[k], path[k + 1]) by {
            if k < a.len() - 1 {
                assert(path[k] == a[k] && path[k + 1] == a[k + 1]);
            } else if k == a.len() - 1 {
                assert(path[k] == a.last() && path[k + 1] == b[0]);
            } else {
                assert(path[k] == b[k - a.len()] && path[k + 1] == b[k - a.len() + 1]);
            }
        }
        assert(path.last() == b.last());
        path
    }
}

} // verus!
