use vstd::prelude::*;

use crate::machine::class::class_matches;
use crate::machine::position::Position;
use crate::machine::program::SpecInst;
use crate::machine::thompson::targets_below;
use crate::machine::program_wf;
use crate::regex::nfa::{
    accepts_at, active, char_edge, closure_of, eps_edge, lemma_closure_mono, lemma_eps_prepend,
    lemma_eps_refl, lemma_step_of_mono, step_of,
};

verus! {

// The matcher keeps its threads as a list in priority order. These functions
// say which list it holds after each character, and so which match `find`
// reports: the one that ends last among the matches that the priority order
// lets through.

/// Follows the edges that consume no input from state `i` (already marked in
/// `seen`), depth first: a split's first arm entirely before its second, each
/// state entered at most once. The states that wait for input are listed in
/// the order they are met. `fuel` bounds the depth of the walk.
pub open spec fn dfs(
    p: Seq<SpecInst>,
    pos: int,
    len: int,
    fuel: nat,
    seen: Seq<bool>,
    trav: Seq<usize>,
    i: usize,
) -> (Seq<bool>, Seq<usize>)
    decreases fuel, 0nat,
{
    if fuel == 0 {
        (seen, trav)
    } else {
        let f = (fuel - 1) as nat;
        match p[i as int] {
            SpecInst::Jump(j) => enter(p, pos, len, f, seen, trav, j),
            SpecInst::Split(a, b) => {
                let (s1, t1) = enter(p, pos, len, f, seen, trav, a);
                enter(p, pos, len, f, s1, t1, b)
            },
            SpecInst::ConditionalJump(Position::Start, j) => if pos == 0 {
                enter(p, pos, len, f, seen, trav, j)
            } else {
                (seen, trav)
            },
            SpecInst::ConditionalJump(Position::End, j) => if pos == len {
                enter(p, pos, len, f, seen, trav, j)
            } else {
                (seen, trav)
            },
            _ => (seen, trav.push(i)),
        }
    }
}

/// Enters state `j` unless it is marked already: marks it and walks on from it.
pub open spec fn enter(
    p: Seq<SpecInst>,
    pos: int,
    len: int,
    fuel: nat,
    seen: Seq<bool>,
    trav: Seq<usize>,
    j: nat,
) -> (Seq<bool>, Seq<usize>)
    decreases fuel, 1nat,
{
    if seen[j as int] {
        (seen, trav)
    } else {
        dfs(p, pos, len, fuel, seen.update(j as int, true), trav, j as usize)
    }
}

/// The marks of a program of `n` states in which exactly the states of `list`
/// are marked.
pub open spec fn marks(n: nat, list: Seq<usize>) -> Seq<bool> {
    Seq::new(n, |k: int| exists|j: int| 0 <= j < list.len() && list[j] as int == k)
}

/// Walks from each state of `pending` in turn, starting from the marks `seen`
/// and the list `trav`.
pub open spec fn closure_from(
    p: Seq<SpecInst>,
    pos: int,
    len: int,
    seen: Seq<bool>,
    trav: Seq<usize>,
    pending: Seq<usize>,
) -> (Seq<bool>, Seq<usize>)
    decreases pending.len(),
{
    if pending.len() == 0 {
        (seen, trav)
    } else {
        let (s, t) = dfs(p, pos, len, (p.len() + 1) as nat, seen, trav, pending[0]);
        closure_from(p, pos, len, s, t, pending.drop_first())
    }
}

/// The list of threads that waits for input at position `pos`, when the
/// threads `pending` arrive there in this order.
pub open spec fn closure_list(p: Seq<SpecInst>, pos: int, len: int, pending: Seq<usize>) -> Seq<
    usize,
> {
    closure_from(p, pos, len, marks(p.len(), pending), Seq::empty(), pending).1
}

/// Where the thread at state `i` goes on the character `c`, if it can take it.
pub open spec fn char_target(p: Seq<SpecInst>, i: usize, c: char) -> Option<usize> {
    match p[i as int] {
        SpecInst::Consume(d, j) => if d == c {
            Some(j as usize)
        } else {
            None
        },
        SpecInst::ConsumeAny(j) => Some(j as usize),
        SpecInst::ConsumeClass(items, negated, j) => if class_matches(items, negated, c) {
            Some(j as usize)
        } else {
            None
        },
        _ => None,
    }
}

/// Moves the threads of `list`, in order, over `c`, appending to `out` each
/// target not listed yet. An accepting thread ends the scan: the threads after
/// it have lower priority than a match that has been found, and are dropped.
pub open spec fn step_from(p: Seq<SpecInst>, list: Seq<usize>, c: char, out: Seq<usize>) -> Seq<
    usize,
>
    decreases list.len(),
{
    if list.len() == 0 {
        out
    } else if p[list[0] as int] is Match {
        out
    } else {
        let next = match char_target(p, list[0], c) {
            Some(j) => if out.contains(j) {
                out
            } else {
                out.push(j)
            },
            None => out,
        };
        step_from(p, list.drop_first(), c, next)
    }
}

/// Some thread of `list` accepts.
pub open spec fn list_accepts(p: Seq<SpecInst>, list: Seq<usize>) -> bool {
    exists|j: int| 0 <= j < list.len() && (#[trigger] p[list[j] as int]) is Match
}

/// The threads, in priority order, after the first `i` characters of `w`,
/// from the entry state `st`.
pub open spec fn run(p: Seq<SpecInst>, st: int, w: Seq<char>, i: nat) -> Seq<usize>
    decreases i,
{
    if i == 0 {
        closure_list(p, 0, w.len() as int, seq![st as usize])
    } else {
        closure_list(
            p,
            i as int,
            w.len() as int,
            step_from(p, run(p, st, w, (i - 1) as nat), w[i - 1], Seq::empty()),
        )
    }
}

/// The last position before `i` at which an accepting thread is listed.
pub open spec fn last_before(p: Seq<SpecInst>, st: int, w: Seq<char>, i: nat) -> Option<nat>
    decreases i,
{
    if i == 0 {
        None
    } else if list_accepts(p, run(p, st, w, (i - 1) as nat)) {
        Some((i - 1) as nat)
    } else {
        last_before(p, st, w, (i - 1) as nat)
    }
}

/// The end of the match that priority order (leftmost-first) picks among the
/// prefixes of `w`, if any prefix matches.
pub open spec fn leftmost_first(p: Seq<SpecInst>, st: int, w: Seq<char>) -> Option<nat> {
    last_before(p, st, w, w.len() + 1)
}

/// A position, as an index.
pub open spec fn as_index(o: Option<nat>) -> Option<usize> {
    match o {
        Some(n) => Some(n as usize),
        None => None,
    }
}

/// No thread left means none will come back.
pub proof fn lemma_run_empty(p: Seq<SpecInst>, st: int, w: Seq<char>, i: nat, k: nat)
    requires
        run(p, st, w, i).len() == 0,
        i <= k,
    ensures
        run(p, st, w, k).len() == 0,
    decreases k - i,
{
    if i < k {
        lemma_run_empty(p, st, w, i, (k - 1) as nat);
        let e = Seq::<usize>::empty();
        assert(step_from(p, run(p, st, w, (k - 1) as nat), w[k - 1], e) == e);
        assert(closure_from(p, k as int, w.len() as int, marks(p.len(), e), e, e) == (
            marks(p.len(), e),
            e,
        ));
    }
}

/// Past a position from which no thread is left, the reported match stays.
pub proof fn lemma_last_before_empty(p: Seq<SpecInst>, st: int, w: Seq<char>, i: nat, k: nat)
    requires
        run(p, st, w, i).len() == 0,
        i <= k,
    ensures
        last_before(p, st, w, k + 1) == last_before(p, st, w, i + 1),
    decreases k - i,
{
    if i < k {
        lemma_last_before_empty(p, st, w, i, (k - 1) as nat);
        lemma_run_empty(p, st, w, i, k);
    }
}

/// The states a list holds.
pub open spec fn members(list: Seq<usize>) -> Set<int> {
    Set::new(|x: int| exists|j: int| 0 <= j < list.len() && list[j] as int == x)
}

/// `r` extends `t`, and what it adds lies in `more`.
pub open spec fn extends_within(t: Seq<usize>, r: Seq<usize>, more: Set<int>) -> bool {
    &&& t.len() <= r.len()
    &&& forall|k: int| 0 <= k < t.len() ==> r[k] == t[k]
    &&& forall|k: int| t.len() <= k < r.len() ==> more.contains(#[trigger] r[k] as int)
}

/// What a state's closure reaches, the closure of a state it has an edge to
/// reaches too.
proof fn lemma_closure_edge(p: Seq<SpecInst>, pos: int, len: int, i: int, j: int)
    requires
        eps_edge(p, pos, len, i, j),
    ensures
        closure_of(p, pos, len, set![j]).subset_of(closure_of(p, pos, len, set![i])),
{
    assert forall|t: int| closure_of(p, pos, len, set![j]).contains(t) implies closure_of(
        p,
        pos,
        len,
        set![i],
    ).contains(t) by {
        lemma_eps_prepend(p, pos, len, i, j, t);
        assert(set![i].contains(i));
    }
}

proof fn lemma_extends_trans(t: Seq<usize>, r: Seq<usize>, u: Seq<usize>, a: Set<int>, b: Set<int>)
    requires
        extends_within(t, r, a),
        extends_within(r, u, b),
        a.subset_of(b),
    ensures
        extends_within(t, u, b),
{
}

/// The walk only lists states that wait for input and that the start state
/// reaches without consuming input; it keeps what was listed before.
proof fn lemma_dfs_sound(
    p: Seq<SpecInst>,
    pos: int,
    len: int,
    fuel: nat,
    seen: Seq<bool>,
    trav: Seq<usize>,
    i: usize,
)
    requires
        program_wf(p),
        p.len() <= usize::MAX,
        i < p.len(),
        seen.len() == p.len(),
    ensures
        dfs(p, pos, len, fuel, seen, trav, i).0.len() == p.len(),
        extends_within(
            trav,
            dfs(p, pos, len, fuel, seen, trav, i).1,
            closure_of(p, pos, len, set![i as int]),
        ),
    decreases fuel, 0nat,
{
    let cl = closure_of(p, pos, len, set![i as int]);
    if fuel > 0 {
        let f = (fuel - 1) as nat;
        assert(targets_below(p[i as int], p.len()));
        match p[i as int] {
            SpecInst::Jump(j) => {
                lemma_enter_sound(p, pos, len, f, seen, trav, j);
                lemma_closure_edge(p, pos, len, i as int, j as int);
            },
            SpecInst::Split(a, b) => {
                lemma_enter_sound(p, pos, len, f, seen, trav, a);
                lemma_closure_edge(p, pos, len, i as int, a as int);
                let (s1, t1) = enter(p, pos, len, f, seen, trav, a);
                lemma_enter_sound(p, pos, len, f, s1, t1, b);
                lemma_closure_edge(p, pos, len, i as int, b as int);
                lemma_extends_trans(
                    trav,
                    t1,
                    enter(p, pos, len, f, s1, t1, b).1,
                    closure_of(p, pos, len, set![a as int]),
                    cl,
                );
            },
            SpecInst::ConditionalJump(Position::Start, j) => {
                if pos == 0 {
                    lemma_enter_sound(p, pos, len, f, seen, trav, j);
                    lemma_closure_edge(p, pos, len, i as int, j as int);
                }
            },
            SpecInst::ConditionalJump(Position::End, j) => {
                if pos == len {
                    lemma_enter_sound(p, pos, len, f, seen, trav, j);
                    lemma_closure_edge(p, pos, len, i as int, j as int);
                }
            },
            _ => {
                assert(!(p[i as int] is Hole));
                lemma_eps_refl(p, pos, len, i as int);
                assert(set![i as int].contains(i as int));
                assert(cl.contains(i as int));
            },
        }
    }
}

proof fn lemma_enter_sound(
    p: Seq<SpecInst>,
    pos: int,
    len: int,
    fuel: nat,
    seen: Seq<bool>,
    trav: Seq<usize>,
    j: nat,
)
    requires
        program_wf(p),
        p.len() <= usize::MAX,
        j < p.len(),
        seen.len() == p.len(),
    ensures
        enter(p, pos, len, fuel, seen, trav, j).0.len() == p.len(),
        extends_within(
            trav,
            enter(p, pos, len, fuel, seen, trav, j).1,
            closure_of(p, pos, len, set![j as int]),
        ),
    decreases fuel, 1nat,
{
    if !seen[j as int] {
        lemma_dfs_sound(p, pos, len, fuel, seen.update(j as int, true), trav, j as usize);
    }
}

/// The closure of a list of threads lists only states that its threads reach
/// without consuming input.
proof fn lemma_closure_from_sound(
    p: Seq<SpecInst>,
    pos: int,
    len: int,
    seen: Seq<bool>,
    trav: Seq<usize>,
    pending: Seq<usize>,
)
    requires
        program_wf(p),
        p.len() <= usize::MAX,
        seen.len() == p.len(),
        forall|j: int| 0 <= j < pending.len() ==> #[trigger] pending[j] < p.len(),
    ensures
        extends_within(
            trav,
            closure_from(p, pos, len, seen, trav, pending).1,
            closure_of(p, pos, len, members(pending)),
        ),
    decreases pending.len(),
{
    if pending.len() > 0 {
        let i = pending[0];
        lemma_dfs_sound(p, pos, len, (p.len() + 1) as nat, seen, trav, i);
        let (s, t) = dfs(p, pos, len, (p.len() + 1) as nat, seen, trav, i);
        let rest = pending.drop_first();
        assert forall|j: int| 0 <= j < rest.len() implies #[trigger] rest[j] < p.len() by {
            assert(rest[j] == pending[j + 1]);
        }
        lemma_closure_from_sound(p, pos, len, s, t, rest);
        assert(set![i as int].subset_of(members(pending))) by {
            assert(pending[0] as int == i as int);
        }
        assert(members(rest).subset_of(members(pending))) by {
            assert forall|x: int| members(rest).contains(x) implies members(pending).contains(x) by {
                let j = choose|j: int| 0 <= j < rest.len() && rest[j] as int == x;
                assert(pending[j + 1] == rest[j]);
            }
        }
        lemma_closure_mono(p, pos, len, set![i as int], members(pending));
        lemma_closure_mono(p, pos, len, members(rest), members(pending));
        lemma_extends_trans(
            trav,
            t,
            closure_from(p, pos, len, s, t, rest).1,
            closure_of(p, pos, len, members(pending)),
            closure_of(p, pos, len, members(pending)),
        );
    }
}

/// Moving threads over a character lists only states that one of them reaches
/// by consuming it.
proof fn lemma_step_from_sound(p: Seq<SpecInst>, list: Seq<usize>, c: char, out: Seq<usize>)
    requires
        program_wf(p),
        p.len() <= usize::MAX,
        forall|j: int| 0 <= j < list.len() ==> #[trigger] list[j] < p.len(),
    ensures
        extends_within(out, step_from(p, list, c, out), step_of(p, members(list), c)),
    decreases list.len(),
{
    if list.len() > 0 && !(p[list[0] as int] is Match) {
        let i = list[0];
        let rest = list.drop_first();
        assert forall|j: int| 0 <= j < rest.len() implies #[trigger] rest[j] < p.len() by {
            assert(rest[j] == list[j + 1]);
        }
        let next = match char_target(p, i, c) {
            Some(j) => if out.contains(j) {
                out
            } else {
                out.push(j)
            },
            None => out,
        };
        assert(members(list).contains(i as int)) by {
            assert(list[0] as int == i as int);
        }
        assert(targets_below(p[i as int], p.len()));
        assert(extends_within(out, next, step_of(p, members(list), c))) by {
            if next.len() > out.len() {
                let j = char_target(p, i, c)->Some_0;
                assert(next[out.len() as int] == j);
                assert(char_edge(p, i as int, c, j as int));
            }
        }
        lemma_step_from_sound(p, rest, c, next);
        assert(members(rest).subset_of(members(list))) by {
            assert forall|x: int| members(rest).contains(x) implies members(list).contains(x) by {
                let j = choose|j: int| 0 <= j < rest.len() && rest[j] as int == x;
                assert(list[j + 1] == rest[j]);
            }
        }
        lemma_step_of_mono(p, members(rest), members(list), c);
    }
}

/// Every thread the matcher holds after `i` characters is an active state of
/// the program there.
proof fn lemma_run_sound(p: Seq<SpecInst>, st: int, w: Seq<char>, i: nat)
    requires
        program_wf(p),
        p.len() <= usize::MAX,
        0 <= st < p.len(),
    ensures
        members(run(p, st, w, i)).subset_of(active(p, st, w, i)),
        forall|k: int| 0 <= k < run(p, st, w, i).len() ==> #[trigger] run(p, st, w, i)[k] < p.len(),
    decreases i,
{
    let l = w.len() as int;
    let e = Seq::<usize>::empty();
    let r = run(p, st, w, i);
    if i == 0 {
        let roots = seq![st as usize];
        assert(members(roots) =~= set![st]) by {
            assert(roots[0] as int == st);
        }
        lemma_closure_from_sound(p, 0, l, marks(p.len(), roots), e, roots);
    } else {
        let prev = run(p, st, w, (i - 1) as nat);
        lemma_run_sound(p, st, w, (i - 1) as nat);
        let c = w[i - 1];
        let moved = step_from(p, prev, c, e);
        lemma_step_from_sound(p, prev, c, e);
        assert(members(moved).subset_of(step_of(p, members(prev), c)));
        lemma_step_of_mono(p, members(prev), active(p, st, w, (i - 1) as nat), c);
        assert forall|j: int| 0 <= j < moved.len() implies #[trigger] moved[j] < p.len() by {
            assert(step_of(p, members(prev), c).contains(moved[j] as int));
            let s = choose|s: int| #[trigger] members(prev).contains(s) && char_edge(p, s, c, moved[j] as int);
            assert(targets_below(p[s], p.len()));
        }
        lemma_closure_from_sound(p, i as int, l, marks(p.len(), moved), e, moved);
        lemma_closure_mono(
            p,
            i as int,
            l,
            members(moved),
            step_of(p, active(p, st, w, (i - 1) as nat), c),
        );
    }
    assert forall|x: int| members(r).contains(x) implies active(p, st, w, i).contains(x) by {
        let j = choose|j: int| 0 <= j < r.len() && r[j] as int == x;
        assert(r[j] as int == x);
    }
}

/// A match that `find` reports is a real match: the pattern matches the first
/// `n` characters of the input. In particular, when `find` reports the whole
/// input, `full_match` accepts it. (The converse fails: with `a|ab` on `ab`,
/// the left branch wins, so `find` reports one character while `full_match`
/// accepts.)
pub proof fn lemma_find_is_a_match(p: Seq<SpecInst>, st: int, w: Seq<char>)
    requires
        program_wf(p),
        p.len() <= usize::MAX,
        0 <= st < p.len(),
    ensures
        leftmost_first(p, st, w) matches Some(n) ==> n <= w.len() && accepts_at(p, st, w, n),
        leftmost_first(p, st, w) == Some(w.len()) ==> accepts_at(p, st, w, w.len()),
{
    lemma_last_before_sound(p, st, w, w.len() + 1);
}

proof fn lemma_last_before_sound(p: Seq<SpecInst>, st: int, w: Seq<char>, i: nat)
    requires
        program_wf(p),
        p.len() <= usize::MAX,
        0 <= st < p.len(),
    ensures
        last_before(p, st, w, i) matches Some(n) ==> n < i && accepts_at(p, st, w, n),
    decreases i,
{
    if i > 0 {
        let r = run(p, st, w, (i - 1) as nat);
        if list_accepts(p, r) {
            lemma_run_sound(p, st, w, (i - 1) as nat);
            let j = choose|j: int| 0 <= j < r.len() && (#[trigger] p[r[j] as int]) is Match;
            assert(members(r).contains(r[j] as int));
            assert(active(p, st, w, (i - 1) as nat).contains(r[j] as int));
        } else {
            lemma_last_before_sound(p, st, w, (i - 1) as nat);
        }
    }
}

} // verus!
