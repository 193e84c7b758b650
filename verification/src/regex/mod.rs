pub mod error;
pub mod nfa;
pub mod pike;

use vstd::prelude::*;

use crate::machine::position::Position;
use crate::machine::program::SpecInst;
use crate::machine::thompson::{psize, targets_below};
use crate::machine::{machine_program, machine_start, program_wf, Instruction, Machine, State};
use crate::parser::grammar::parse_spec;
use crate::parser::parse;
use crate::regex::error::{message, RegexError};
use crate::regex::pike::{
    as_index, char_target, closure_from, closure_list, dfs, last_before, leftmost_first,
    lemma_last_before_empty, list_accepts, marks, run, step_from,
};
use crate::regex::nfa::{
    accepts_at, active, char_edge, closure_of, eps_edge, eps_reaches, is_eps_path, is_leaf,
    lemma_active_empty, lemma_closure_mono, lemma_eps_extend, lemma_eps_refl, lemma_step_of_mono,
    step_of,
};

verus! {

/// The number of states not seen yet.
spec fn unseen(s: Seq<bool>) -> nat
    decreases s.len(),
{
    if s.len() == 0 {
        0
    } else {
        unseen(s.drop_last()) + if s.last() {
            0nat
        } else {
            1nat
        }
    }
}

proof fn lemma_unseen_mark(s: Seq<bool>, k: int)
    requires
        0 <= k < s.len(),
        !s[k],
    ensures
        unseen(s.update(k, true)) + 1 == unseen(s),
    decreases s.len(),
{
    let t = s.update(k, true);
    if k < s.len() - 1 {
        assert(t.drop_last() =~= s.drop_last().update(k, true));
        lemma_unseen_mark(s.drop_last(), k);
    } else {
        assert(t.drop_last() =~= s.drop_last());
    }
}

proof fn lemma_unseen_bound(s: Seq<bool>)
    ensures
        unseen(s) <= s.len(),
    decreases s.len(),
{
    if s.len() > 0 {
        lemma_unseen_bound(s.drop_last());
    }
}

proof fn lemma_unseen_mono(s: Seq<bool>, t: Seq<bool>)
    requires
        s.len() == t.len(),
        forall|k: int| 0 <= k < s.len() && s[k] ==> t[k],
    ensures
        unseen(t) <= unseen(s),
    decreases s.len(),
{
    if s.len() > 0 {
        lemma_unseen_mono(s.drop_last(), t.drop_last());
    }
}

/// The states marked in `seen`.
spec fn marked(seen: Seq<bool>) -> Set<int> {
    Set::new(|k: int| 0 <= k < seen.len() && seen[k])
}

/// The states listed in `list`.
spec fn listed(list: Seq<usize>) -> Set<int> {
    Set::new(|k: int| exists|j: int| 0 <= j < list.len() && list[j] as int == k)
}

/// State `k` has been handled by the closure: if it waits for input it is
/// listed, and every edge from it that consumes no input leads to a marked
/// state.
spec fn expanded(
    p: Seq<SpecInst>,
    pos: int,
    len: int,
    seen: Seq<bool>,
    trav: Seq<usize>,
    k: int,
) -> bool {
    &&& is_leaf(p[k]) ==> listed(trav).contains(k)
    &&& forall|t: int| #[trigger] eps_edge(p, pos, len, k, t) ==> 0 <= t < seen.len() && seen[t]
}

/// Every marked state can be reached from a root without consuming input.
spec fn sound(p: Seq<SpecInst>, pos: int, len: int, roots: Set<int>, seen: Seq<bool>) -> bool {
    forall|k: int|
        0 <= k < seen.len() && #[trigger] seen[k] ==> exists|r: int| #[trigger]
            roots.contains(r) && eps_reaches(p, pos, len, r, k)
}

/// Every listed state is a marked state of `p` that waits for input.
spec fn listing_ok(p: Seq<SpecInst>, seen: Seq<bool>, trav: Seq<usize>) -> bool {
    forall|j: int|
        0 <= j < trav.len() ==> {
            let t = #[trigger] trav[j] as int;
            0 <= t < p.len() && t < seen.len() && seen[t] && is_leaf(p[t])
        }
}

/// `s2` marks everything `s1` marks.
spec fn grows(s1: Seq<bool>, s2: Seq<bool>) -> bool {
    &&& s1.len() == s2.len()
    &&& forall|k: int| 0 <= k < s1.len() && #[trigger] s1[k] ==> s2[k]
}

/// `t1` is a prefix of `t2`.
spec fn is_prefix(t1: Seq<usize>, t2: Seq<usize>) -> bool {
    t1.len() <= t2.len() && t2.subrange(0, t1.len() as int) == t1
}

/// Every state marked in `seen` but not in `old_seen` has been handled.
spec fn new_ones_expanded(
    p: Seq<SpecInst>,
    pos: int,
    len: int,
    old_seen: Seq<bool>,
    seen: Seq<bool>,
    trav: Seq<usize>,
) -> bool {
    forall|k: int|
        0 <= k < seen.len() && #[trigger] seen[k] && !old_seen[k] ==> expanded(
            p,
            pos,
            len,
            seen,
            trav,
            k,
        )
}

#[derive(Debug)]
struct SeenSet {
    seen: Vec<bool>,
    traversed: Vec<State>,
}

impl SeenSet {
    fn new(n: usize) -> (s: Self)
        ensures
            s.seen@.len() == n,
            forall|k: int| 0 <= k < n ==> !s.seen@[k],
            s.traversed@ == Seq::<State>::empty(),
    {
        let mut seen: Vec<bool> = Vec::new();
        let mut k: usize = 0;
        while k < n
            invariant
                k <= n,
                seen@.len() == k,
                forall|j: int| 0 <= j < k ==> !seen@[j],
            decreases n - k,
        {
            seen.push(false);
            k += 1;
        }
        SeenSet { seen, traversed: Vec::new() }
    }

    fn insert(&mut self, state: State) -> (r: bool)
        requires
            state < old(self).seen@.len(),
        ensures
            r == !old(self).seen@[state as int],
            final(self).seen@ == old(self).seen@.update(state as int, true),
            final(self).traversed@ == old(self).traversed@,
            r ==> unseen(final(self).seen@) + 1 == unseen(old(self).seen@),
            !r ==> final(self).seen@ == old(self).seen@,
    {
        if self.seen[state] {
            assert(self.seen@.update(state as int, true) =~= self.seen@);
            return false;
        }
        proof {
            lemma_unseen_mark(self.seen@, state as int);
        }
        self.seen.set(state, true);
        true
    }

    fn traverse(&mut self, state: State)
        ensures
            final(self).seen@ == old(self).seen@,
            final(self).traversed@ == old(self).traversed@.push(state),
    {
        self.traversed.push(state);
    }

    fn clear(&mut self)
        ensures
            final(self).seen@.len() == old(self).seen@.len(),
            forall|k: int| 0 <= k < final(self).seen@.len() ==> !final(self).seen@[k],
            final(self).traversed@ == Seq::<State>::empty(),
    {
        let mut k: usize = 0;
        while k < self.seen.len()
            invariant
                k <= self.seen@.len(),
                self.seen@.len() == old(self).seen@.len(),
                forall|j: int| 0 <= j < k ==> !self.seen@[j],
            decreases self.seen@.len() - k,
        {
            self.seen.set(k, false);
            k += 1;
        }
        self.traversed.clear();
    }
}

/// The program that `s` compiles to is addressable: the number of its
/// instructions fits in a `usize`. (A pattern that does not parse fits.)
pub open spec fn fits(s: Seq<char>) -> bool {
    match parse_spec(s) {
        Ok(a) => psize(a) < usize::MAX,
        Err(_) => true,
    }
}

pub struct Regex {
    machine: Machine,
}

/// The characters of a string, in order.
fn chars_of(input: &str) -> (v: Vec<char>)
    ensures
        v@ == input@,
{
    let mut v: Vec<char> = Vec::new();
    for ch in it: input.chars()
        invariant
            v@ == it.seq().take(it.index() as int),
    {
        v.push(ch);
    }
    v
}

impl Regex {
    /// The compiled program.
    pub closed spec fn code(&self) -> Seq<SpecInst> {
        self.machine.code()
    }

    /// The state the compiled program starts at.
    pub closed spec fn entry(&self) -> int {
        self.machine.entry() as int
    }

    /// Compiles `pattern`. A pattern that does not parse gives the parse
    /// error's message; one that does is compiled as its tree is.
    pub fn compile(pattern: &str) -> (r: Result<Self, RegexError>)
        requires
            fits(pattern@),
        ensures
            match parse_spec(pattern@) {
                Ok(a) => r matches Ok(x) && x.code() == machine_program(a) && x.entry()
                    == machine_start(a),
                Err(e) => r matches Err(RegexError::ParseError(m)) && m@ == message(e),
            },
    {
        let ast = match parse(pattern) {
            Ok(a) => a,
            Err(e) => return Err(RegexError::from(e)),
        };
        let machine = Machine::new(ast);
        Ok(Regex { machine })
    }

    #[inline(always)]
    fn len(&self) -> (r: usize)
        ensures
            r == self.code().len(),
    {
        self.machine.program().len()
    }

    /// Follows, depth first, every edge that consumes no input from state `i`,
    /// marking what it reaches and listing the states that wait for input.
    fn follow(
        &self,
        seen_set: &mut SeenSet,
        i: usize,
        position: usize,
        len: usize,
        Ghost(roots): Ghost<Set<int>>,
        Ghost(fuel): Ghost<nat>,
    )
        requires
            program_wf(self.code()),
            old(seen_set).seen@.len() == self.code().len(),
            i < self.code().len(),
            old(seen_set).seen@[i as int],
            fuel > unseen(old(seen_set).seen@),
            sound(self.code(), position as int, len as int, roots, old(seen_set).seen@),
            listing_ok(self.code(), old(seen_set).seen@, old(seen_set).traversed@),
        ensures
            grows(old(seen_set).seen@, final(seen_set).seen@),
            is_prefix(old(seen_set).traversed@, final(seen_set).traversed@),
            sound(self.code(), position as int, len as int, roots, final(seen_set).seen@),
            listing_ok(self.code(), final(seen_set).seen@, final(seen_set).traversed@),
            expanded(
                self.code(),
                position as int,
                len as int,
                final(seen_set).seen@,
                final(seen_set).traversed@,
                i as int,
            ),
            new_ones_expanded(
                self.code(),
                position as int,
                len as int,
                old(seen_set).seen@,
                final(seen_set).seen@,
                final(seen_set).traversed@,
            ),
            unseen(final(seen_set).seen@) <= unseen(old(seen_set).seen@),
            (final(seen_set).seen@, final(seen_set).traversed@) == dfs(
                self.code(),
                position as int,
                len as int,
                fuel,
                old(seen_set).seen@,
                old(seen_set).traversed@,
                i,
            ),
        decreases fuel,
    {
        let ghost p = self.code();
        let ghost pos = position as int;
        let ghost l = len as int;
        proof {
            use_type_invariant(&self.machine);
        }
        let ghost old_seen = seen_set.seen@;
        let ghost old_trav = seen_set.traversed@;
        assert(old_trav.subrange(0, old_trav.len() as int) =~= old_trav);
        let inst = self.machine.program().get(i);
        match inst {
            Instruction::Jump(j) => {
                let j = *j;
                proof {
                    assert(eps_edge(p, pos, l, i as int, j as int));
                }
                if !seen_set.insert(j) {
                    assert(grows(old_seen, seen_set.seen@));
                    assert(expanded(p, pos, l, seen_set.seen@, seen_set.traversed@, i as int));
                    return;
                }
                proof {
                    let r = choose|r: int| #[trigger]
                        roots.contains(r) && eps_reaches(p, pos, l, r, i as int);
                    lemma_eps_extend(p, pos, l, r, i as int, j as int);
                }
                let ghost mid_seen = seen_set.seen@;
                self.follow(seen_set, j, position, len, Ghost(roots), Ghost((fuel - 1) as nat));
                proof {
                    assert forall|k: int| 0 <= k < old_seen.len() && #[trigger] old_seen[k] implies seen_set.seen@[k] by {
                        assert(mid_seen[k]);
                    }
                    assert(grows(old_seen, seen_set.seen@));
                    assert(mid_seen[j as int]);
                    assert(seen_set.seen@[j as int]);
                    assert forall|t: int| #[trigger] eps_edge(p, pos, l, i as int, t) implies 0 <= t < seen_set.seen@.len() && seen_set.seen@[t] by {
                        assert(t == j);
                    }
                }
            },
            Instruction::Split(j1, j2) => {
                let j1 = *j1;
                let j2 = *j2;
                proof {
                    assert(eps_edge(p, pos, l, i as int, j1 as int));
                    assert(eps_edge(p, pos, l, i as int, j2 as int));
                }
                if seen_set.insert(j1) {
                    proof {
                        let r = choose|r: int| #[trigger]
                            roots.contains(r) && eps_reaches(p, pos, l, r, i as int);
                        lemma_eps_extend(p, pos, l, r, i as int, j1 as int);
                    }
                    let ghost s1 = seen_set.seen@;
                    self.follow(seen_set, j1, position, len, Ghost(roots), Ghost((fuel - 1) as nat));
                    proof {
                        assert forall|k: int| 0 <= k < old_seen.len() && #[trigger] old_seen[k] implies seen_set.seen@[k] by {
                            assert(s1[k]);
                        }
                        assert(s1[j1 as int]);
                    }
                }
                assert(seen_set.seen@[j1 as int]);
                let ghost mid_seen = seen_set.seen@;
                let ghost mid_trav = seen_set.traversed@;
                proof {
                    assert(mid_trav.subrange(0, mid_trav.len() as int) =~= mid_trav);
                    assert(grows(old_seen, mid_seen));
                    assert(is_prefix(old_trav, mid_trav));
                }
                if seen_set.insert(j2) {
                    proof {
                        let r = choose|r: int| #[trigger]
                            roots.contains(r) && eps_reaches(p, pos, l, r, i as int);
                        lemma_eps_extend(p, pos, l, r, i as int, j2 as int);
                    }
                    let ghost s2 = seen_set.seen@;
                    self.follow(seen_set, j2, position, len, Ghost(roots), Ghost((fuel - 1) as nat));
                    proof {
                        assert forall|k: int| 0 <= k < mid_seen.len() && #[trigger] mid_seen[k] implies seen_set.seen@[k] by {
                            assert(s2[k]);
                        }
                        assert(s2[j2 as int]);
                    }
                }
                proof {
                    assert(grows(mid_seen, seen_set.seen@));
                    assert(mid_seen[j1 as int]);
                    assert(seen_set.seen@[j1 as int]);
                    assert(seen_set.seen@[j2 as int]);
                    assert forall|t: int| #[trigger] eps_edge(p, pos, l, i as int, t) implies 0 <= t < seen_set.seen@.len() && seen_set.seen@[t] by {
                        assert(t == j1 || t == j2);
                    }
                    assert(is_prefix(mid_trav, seen_set.traversed@));
                    lemma_prefix_trans(old_trav, mid_trav, seen_set.traversed@);
                    assert forall|k: int|
                        0 <= k < p.len() && #[trigger] seen_set.seen@[k] && !old_seen[k]
                            && mid_seen[k] implies expanded(
                        p,
                        pos,
                        l,
                        seen_set.seen@,
                        seen_set.traversed@,
                        k,
                    ) by {
                        lemma_expanded_mono(
                            p,
                            pos,
                            l,
                            mid_seen,
                            mid_trav,
                            seen_set.seen@,
                            seen_set.traversed@,
                            k,
                        );
                    }
                }
            },
            Instruction::ConditionalJump(test, j) => {
                let j = *j;
                match test {
                    Position::Start => {
                        if position != 0 {
                            return;
                        }
                    },
                    Position::End => {
                        if position != len {
                            return;
                        }
                    },
                };
                proof {
                    assert(eps_edge(p, pos, l, i as int, j as int));
                }
                if seen_set.insert(j) {
                    proof {
                        let r = choose|r: int| #[trigger]
                            roots.contains(r) && eps_reaches(p, pos, l, r, i as int);
                        lemma_eps_extend(p, pos, l, r, i as int, j as int);
                    }
                    let ghost mid_seen = seen_set.seen@;
                    self.follow(seen_set, j, position, len, Ghost(roots), Ghost((fuel - 1) as nat));
                    proof {
                        assert forall|k: int| 0 <= k < old_seen.len() && #[trigger] old_seen[k] implies seen_set.seen@[k] by {
                            assert(mid_seen[k]);
                        }
                        assert(mid_seen[j as int]);
                    }
                }
                proof {
                    assert(grows(old_seen, seen_set.seen@));
                    assert(seen_set.seen@[j as int]);
                    assert forall|t: int| #[trigger] eps_edge(p, pos, l, i as int, t) implies 0 <= t < seen_set.seen@.len() && seen_set.seen@[t] by {
                        assert(t == j);
                    }
                }
            },
            _ => {
                seen_set.traverse(i);
                proof {
                    assert(seen_set.traversed@[old_trav.len() as int] == i);
                    assert(listed(seen_set.traversed@).contains(i as int));
                    assert(seen_set.traversed@.subrange(0, old_trav.len() as int) =~= old_trav);
                }
            },
        }
    }

    /// The threads at the start of the input: the entry state, closed over the
    /// edges that consume no input.
    fn start_threads(&self, len: usize, seen_set: &mut SeenSet, buffer: &mut SeenSet) -> (r: SeenSet)
        requires
            program_wf(self.code()),
            0 <= self.entry() < self.code().len(),
            old(seen_set).seen@.len() == self.code().len(),
            old(buffer).seen@.len() == self.code().len(),
        ensures
            listed(r.traversed@) == closure_of(self.code(), 0, len as int, set![self.entry()]),
            r.traversed@ == closure_list(self.code(), 0, len as int, seq![self.entry() as usize]),
            listing_ok(self.code(), r.seen@, r.traversed@),
            r.seen@.len() == self.code().len(),
            final(buffer).seen@.len() == self.code().len(),
    {
        let start = self.machine.start();
        let mut first = SeenSet::new(self.len());
        first.insert(start);
        first.traverse(start);
        proof {
            assert(first.traversed@ =~= seq![start]);
            lemma_listed_push(Seq::<usize>::empty(), start);
            assert(listed(Seq::<usize>::empty()) =~= Set::<int>::empty());
            assert(listed(first.traversed@) =~= set![start as int]);
            assert forall|k: int| 0 <= k < self.code().len() implies (#[trigger] first.seen@[k]
                <==> listed(first.traversed@).contains(k)) by {
            }
        }
        self.closure(0, len, first, buffer)
    }

    /// Follows every edge that consumes no input from the listed states (the
    /// roots), at `position` in an input of `len` characters; the result lists
    /// exactly the states, reachable so, that wait for input.
    fn closure(&self, position: usize, len: usize, seen_set: SeenSet, buffer: &mut SeenSet) -> (r:
        SeenSet)
        requires
            program_wf(self.code()),
            consistent(self.code().len(), seen_set.seen@, seen_set.traversed@),
            old(buffer).seen@.len() == self.code().len(),
        ensures
            listed(r.traversed@) == closure_of(
                self.code(),
                position as int,
                len as int,
                listed(seen_set.traversed@),
            ),
            listing_ok(self.code(), r.seen@, r.traversed@),
            r.seen@.len() == self.code().len(),
            final(buffer).seen@.len() == self.code().len(),
            r.traversed@ == closure_list(
                self.code(),
                position as int,
                len as int,
                seen_set.traversed@,
            ),
    {
        let ghost p = self.code();
        let ghost n = p.len();
        let ghost pos = position as int;
        let ghost l = len as int;
        let ghost roots = listed(seen_set.traversed@);
        let ghost seen0 = seen_set.seen@;
        let mut seen_set = seen_set;
        buffer.clear();
        std::mem::swap(&mut buffer.traversed, &mut seen_set.traversed);
        let ghost pending = buffer.traversed@;
        let ghost goal = closure_from(p, pos, l, seen0, seen_set.traversed@, pending);
        proof {
            assert(seen0 =~= marks(n, pending));
            assert(pending.subrange(0, pending.len() as int) =~= pending);
        }
        proof {
            assert forall|k: int| 0 <= k < n && #[trigger] seen_set.seen@[k] implies exists|r: int| #[trigger]
                roots.contains(r) && eps_reaches(p, pos, l, r, k) by {
                lemma_eps_refl(p, pos, l, k);
                assert(roots.contains(k));
            }
        }
        let mut k: usize = 0;
        while k < buffer.traversed.len()
            invariant
                program_wf(p),
                p == self.code(),
                n == p.len(),
                pos == position,
                l == len,
                buffer.traversed@ == pending,
                buffer.seen@.len() == n,
                roots == listed(pending),
                k <= pending.len(),
                seen_set.seen@.len() == n,
                forall|j: int| 0 <= j < pending.len() ==> #[trigger] pending[j] < n,
                forall|j: int| 0 <= j < pending.len() ==> seen_set.seen@[#[trigger] pending[j] as int],
                sound(p, pos, l, roots, seen_set.seen@),
                listing_ok(p, seen_set.seen@, seen_set.traversed@),
                goal == closure_from(
                    p,
                    pos,
                    l,
                    seen_set.seen@,
                    seen_set.traversed@,
                    pending.subrange(k as int, pending.len() as int),
                ),
                goal.1 == closure_list(p, pos, l, pending),
                forall|s: int|
                    0 <= s < n && #[trigger] seen_set.seen@[s] ==> (exists|j: int|
                        k <= j < pending.len() && pending[j] as int == s) || expanded(
                        p,
                        pos,
                        l,
                        seen_set.seen@,
                        seen_set.traversed@,
                        s,
                    ),
            decreases pending.len() - k,
        {
            let i = buffer.traversed[k];
            let ghost s0 = seen_set.seen@;
            let ghost t0 = seen_set.traversed@;
            proof {
                lemma_unseen_bound(seen_set.seen@);
                assert(pending.subrange(k as int, pending.len() as int).drop_first() =~= pending.subrange(
                    k + 1,
                    pending.len() as int,
                ));
            }
            self.follow(&mut seen_set, i, position, len, Ghost(roots), Ghost((n + 1) as nat));
            proof {
                assert forall|s: int|
                    0 <= s < n && #[trigger] seen_set.seen@[s] implies (exists|j: int|
                        k + 1 <= j < pending.len() && pending[j] as int == s) || expanded(
                        p,
                        pos,
                        l,
                        seen_set.seen@,
                        seen_set.traversed@,
                        s,
                    ) by {
                    if s0[s] && s != i {
                        if exists|j: int| k <= j < pending.len() && pending[j] as int == s {
                            let j = choose|j: int| k <= j < pending.len() && pending[j] as int == s;
                            assert(j != k);
                        } else {
                            lemma_expanded_mono(p, pos, l, s0, t0, seen_set.seen@, seen_set.traversed@, s);
                        }
                    }
                }
                assert forall|j: int| 0 <= j < pending.len() implies seen_set.seen@[#[trigger] pending[j] as int] by {
                    assert(s0[pending[j] as int]);
                }
            }
            k += 1;
        }
        proof {
            assert forall|t: int| #[trigger] listed(seen_set.traversed@).contains(t) implies closure_of(p, pos, l, roots).contains(t) by {
                let j = choose|j: int| 0 <= j < seen_set.traversed@.len() && seen_set.traversed@[j] as int == t;
                assert(listing_ok(p, seen_set.seen@, seen_set.traversed@));
                let tt = seen_set.traversed@[j] as int;
                assert(seen_set.seen@[tt]);
            }
            assert forall|t: int| #[trigger] closure_of(p, pos, l, roots).contains(t) implies listed(seen_set.traversed@).contains(t) by {
                let r = choose|r: int| #[trigger] roots.contains(r) && eps_reaches(p, pos, l, r, t);
                let j = choose|j: int| 0 <= j < pending.len() && pending[j] as int == r;
                assert(seen_set.seen@[pending[j] as int]);
                assert forall|s: int| 0 <= s < p.len() && #[trigger] seen_set.seen@[s] implies expanded(p, pos, l, seen_set.seen@, seen_set.traversed@, s) by {
                }
                lemma_closed_reach(p, pos, l, seen_set.seen@, seen_set.traversed@, r, t);
                assert(expanded(p, pos, l, seen_set.seen@, seen_set.traversed@, t));
            }
            assert(listed(seen_set.traversed@) =~= closure_of(p, pos, l, roots));
        }
        seen_set
    }

    /// Moves every listed thread over the character `c`. With `cut`, the scan
    /// stops at the first accepting thread, so that the threads listed after it
    /// (those of lower priority) are dropped. Returns whether an accepting
    /// thread is listed.
    fn step(&self, seen_set: &SeenSet, next_buffer: &mut SeenSet, c: char, cut: bool) -> (matched:
        bool)
        requires
            program_wf(self.code()),
            forall|j: int|
                0 <= j < seen_set.traversed@.len() ==> #[trigger] seen_set.traversed@[j]
                    < self.code().len(),
            old(next_buffer).seen@.len() == self.code().len(),
        ensures
            consistent(self.code().len(), final(next_buffer).seen@, final(next_buffer).traversed@),
            matched == list_accepts(self.code(), seen_set.traversed@),
            listed(final(next_buffer).traversed@).subset_of(
                step_of(self.code(), listed(seen_set.traversed@), c),
            ),
            (!cut || !matched) ==> listed(final(next_buffer).traversed@) == step_of(
                self.code(),
                listed(seen_set.traversed@),
                c,
            ),
            cut ==> final(next_buffer).traversed@ == step_from(
                self.code(),
                seen_set.traversed@,
                c,
                Seq::empty(),
            ),
    {
        let ghost p = self.code();
        let ghost n = p.len();
        let ghost tr = seen_set.traversed@;
        proof {
            use_type_invariant(&self.machine);
        }
        next_buffer.clear();
        proof {
            assert(listed(next_buffer.traversed@) =~= Set::<int>::empty());
            assert(step_of(p, listed(tr.subrange(0, 0)), c) =~= Set::<int>::empty());
        }
        let program = self.machine.program();
        let mut matched = false;
        let mut k: usize = 0;
        let ghost goal = step_from(p, tr, c, Seq::empty());
        proof {
            assert(tr.subrange(0, tr.len() as int) =~= tr);
        }
        while k < seen_set.traversed.len()
            invariant
                goal == step_from(p, tr, c, Seq::empty()),
                cut ==> goal == step_from(
                    p,
                    tr.subrange(k as int, tr.len() as int),
                    c,
                    next_buffer.traversed@,
                ),
                program_wf(p),
                p == self.code(),
                program@ == p,
                n == p.len(),
                tr == seen_set.traversed@,
                k <= tr.len(),
                forall|j: int| 0 <= j < tr.len() ==> #[trigger] tr[j] < n,
                consistent(n, next_buffer.seen@, next_buffer.traversed@),
                listed(next_buffer.traversed@) == step_of(p, listed(tr.subrange(0, k as int)), c),
                matched == exists|j: int| 0 <= j < k && (#[trigger] p[tr[j] as int]) is Match,
                cut ==> !matched,
            decreases tr.len() - k,
        {
            let i = seen_set.traversed[k];
            let ghost before = listed(next_buffer.traversed@);
            let ghost new_from = listed(tr.subrange(0, k + 1));
            proof {
                assert(tr.subrange(0, k + 1) =~= tr.subrange(0, k as int).push(i));
                lemma_listed_push(tr.subrange(0, k as int), i);
            }
            let inst = program.get(i);
            let target: Option<State> = match inst {
                Instruction::Consume(t, j) => {
                    if *t == c {
                        Some(*j)
                    } else {
                        None
                    }
                },
                Instruction::ConsumeAny(j) => Some(*j),
                Instruction::ConsumeClass(class) => {
                    if class.match_c(c) {
                        Some(class.exit())
                    } else {
                        None
                    }
                },
                _ => None,
            };
            let ghost edge = Set::new(|t: int| char_edge(p, i as int, c, t));
            let ghost out = next_buffer.traversed@;
            proof {
                assert(tr.subrange(k as int, tr.len() as int)[0] == i);
                assert(tr.subrange(k as int, tr.len() as int).drop_first() =~= tr.subrange(
                    k + 1,
                    tr.len() as int,
                ));
                assert(target == char_target(p, i, c));
                lemma_step_insert(p, listed(tr.subrange(0, k as int)), i as int, c);
                match target {
                    Some(j) => {
                        assert(edge =~= set![j as int]);
                    },
                    None => {
                        assert(edge =~= Set::<int>::empty());
                    },
                }
            }
            match target {
                Some(j) => {
                    proof {
                        assert(targets_below(p[i as int], n));
                    }
                    let ghost t_before = next_buffer.traversed@;
                    proof {
                        if out.contains(j) {
                            let m = choose|m: int| 0 <= m < out.len() && out[m] == j;
                            assert(listed(out).contains(j as int));
                        }
                        if listed(out).contains(j as int) {
                            let m = choose|m: int| 0 <= m < out.len() && out[m] as int == j as int;
                            assert(out[m] == j);
                        }
                    }
                    if next_buffer.insert(j) {
                        next_buffer.traverse(j);
                        proof {
                            lemma_listed_push(t_before, j);
                        }
                    } else {
                        proof {
                            assert(listed(t_before).insert(j as int) =~= listed(t_before));
                        }
                    }
                },
                None => {},
            }
            proof {
                assert(listed(next_buffer.traversed@) =~= step_of(p, new_from, c));
            }
            if let Instruction::Match = inst {
                proof {
                    assert(p[tr[k as int] as int] is Match);
                }
                if cut {
                    proof {
                        lemma_listed_prefix(tr, k + 1);
                        lemma_step_of_mono(p, listed(tr.subrange(0, k + 1)), listed(tr), c);
                    }
                    return true;
                }
                matched = true;
            }
            k += 1;
        }
        proof {
            assert(tr.subrange(0, tr.len() as int) =~= tr);
        }
        matched
    }

    /// Whether one of the listed states accepts.
    fn is_match(&self, seen_set: &SeenSet) -> (r: bool)
        requires
            forall|j: int|
                0 <= j < seen_set.traversed@.len() ==> #[trigger] seen_set.traversed@[j]
                    < self.code().len(),
        ensures
            r == list_accepts(self.code(), seen_set.traversed@),
    {
        let program = self.machine.program();
        let mut k: usize = 0;
        while k < seen_set.traversed.len()
            invariant
                program@ == self.code(),
                k <= seen_set.traversed@.len(),
                forall|j: int|
                    0 <= j < seen_set.traversed@.len() ==> #[trigger] seen_set.traversed@[j]
                        < self.code().len(),
                forall|j: int| 0 <= j < k ==> !((#[trigger] self.code()[seen_set.traversed@[j] as int]) is Match),
            decreases seen_set.traversed@.len() - k,
        {
            if let Instruction::Match = program.get(seen_set.traversed[k]) {
                return true;
            }
            k += 1;
        }
        false
    }

    /// Runs the program over `input` from position 0, in priority order
    /// (leftmost-first), and reports where the highest-priority match ends:
    /// `Some(n)` means the match is the first `n` characters.
    pub fn find(&self, input: &str) -> (r: Result<Option<usize>, RegexError>)
        ensures
            r is Ok,
            r matches Ok(Some(n)) ==> n <= input@.len() && accepts_at(
                self.code(),
                self.entry(),
                input@,
                n as nat,
            ),
            r matches Ok(None) ==> forall|n: nat|
                n <= input@.len() ==> !#[trigger] accepts_at(self.code(), self.entry(), input@, n),
            r == Ok::<Option<usize>, RegexError>(
                as_index(leftmost_first(self.code(), self.entry(), input@)),
            ),
    {
        proof {
            use_type_invariant(&self.machine);
        }
        let ghost p = self.code();
        let ghost st = self.entry();
        let chars = chars_of(input);
        let ghost w = chars@;
        let len = chars.len();
        let mut result: Option<usize> = None;
        let mut i: usize = 0;
        let mut seen_set = SeenSet::new(self.len());
        let mut buffer = SeenSet::new(self.len());
        let mut seen_set = self.start_threads(len, &mut seen_set, &mut buffer);
        loop
            invariant_except_break
                result is None ==> listed(seen_set.traversed@) == active(p, st, w, i as nat),
                seen_set.traversed@ == run(p, st, w, i as nat),
                result == as_index(last_before(p, st, w, i as nat)),
            invariant
                program_wf(p),
                p == self.code(),
                st == self.entry(),
                w == chars@,
                len == w.len(),
                i <= len,
                seen_set.seen@.len() == p.len(),
                buffer.seen@.len() == p.len(),
                listing_ok(p, seen_set.seen@, seen_set.traversed@),
                listed(seen_set.traversed@).subset_of(active(p, st, w, i as nat)),
                result matches Some(m) ==> m <= len && accepts_at(p, st, w, m as nat),
                result is None ==> forall|m: nat| m < i ==> !#[trigger] accepts_at(p, st, w, m),
            ensures
                result matches Some(m) ==> m <= len && accepts_at(p, st, w, m as nat),
                forall|j: int| 0 <= j < seen_set.traversed@.len() ==> #[trigger] seen_set.traversed@[j] < p.len(),
                listed(seen_set.traversed@).subset_of(active(p, st, w, i as nat)),
                i <= len,
                result is None ==> forall|m: nat| m < i ==> !#[trigger] accepts_at(p, st, w, m),
                result is None ==> (i == len && listed(seen_set.traversed@) == active(p, st, w, i as nat))
                    || (forall|m: nat| m <= len ==> !#[trigger] accepts_at(p, st, w, m)),
                (i == len && seen_set.traversed@ == run(p, st, w, i as nat) && result == as_index(
                    last_before(p, st, w, i as nat),
                )) || (i < len && run(p, st, w, (i + 1) as nat).len() == 0
                    && seen_set.traversed@.len() == 0 && result == as_index(
                    last_before(p, st, w, (i + 1) as nat),
                )),
            decreases len - i,
        {
            if i >= len {
                break;
            }
            let c = chars[i];
            let position = i + 1;
            let ghost cur = listed(seen_set.traversed@);
            let matched = self.step(&seen_set, &mut buffer, c, true);
            proof {
                lemma_lists_match(p, st, w, i as nat, seen_set.traversed@);
            }
            std::mem::swap(&mut seen_set, &mut buffer);
            if matched {
                result = Some(i);
            }
            proof {
                lemma_step_of_mono(p, cur, active(p, st, w, i as nat), c);
                assert(active(p, st, w, position as nat) == closure_of(
                    p,
                    position as int,
                    len as int,
                    step_of(p, active(p, st, w, i as nat), w[i as int]),
                ));
            }
            if seen_set.traversed.len() == 0 {
                proof {
                    let e = Seq::<usize>::empty();
                    assert(seen_set.traversed@ =~= e);
                    assert(closure_from(p, position as int, len as int, marks(p.len(), e), e, e) == (
                        marks(p.len(), e),
                        e,
                    ));
                    assert(listed(seen_set.traversed@) =~= Set::<int>::empty());
                    if result is None {
                        assert(closure_of(p, position as int, len as int, Set::<int>::empty()) =~= Set::<int>::empty());
                        assert(active(p, st, w, position as nat) =~= Set::<int>::empty());
                        assert forall|m: nat| m <= len implies !#[trigger] accepts_at(p, st, w, m) by {
                            if m > i {
                                lemma_active_empty(p, st, w, position as nat, m);
                            }
                        }
                    }
                }
                break;
            }
            let ghost roots = listed(seen_set.traversed@);
            seen_set = self.closure(position, len, seen_set, &mut buffer);
            proof {
                lemma_closure_mono(p, position as int, len as int, roots, step_of(p, active(p, st, w, i as nat), c));
            }
            i = position;
        }
        proof {
            lemma_lists_match(p, st, w, i as nat, seen_set.traversed@);
            if i < len {
                lemma_last_before_empty(p, st, w, (i + 1) as nat, len as nat);
            }
        }
        let matched = self.is_match(&seen_set);
        if matched {
            result = Some(i);
        }
        Ok(result)
    }

    /// Whether the whole of `input` is in the language of the pattern: some
    /// path through the program consumes all of it and accepts.
    pub fn full_match(&self, input: &str) -> (r: Result<bool, RegexError>)
        ensures
            r == Ok::<bool, RegexError>(accepts_at(self.code(), self.entry(), input@, input@.len())),
    {
        proof {
            use_type_invariant(&self.machine);
        }
        let ghost p = self.code();
        let ghost st = self.entry();
        let chars = chars_of(input);
        let ghost w = chars@;
        let len = chars.len();
        let mut seen_set = SeenSet::new(self.len());
        let mut buffer = SeenSet::new(self.len());
        let mut seen_set = self.start_threads(len, &mut seen_set, &mut buffer);
        let mut i: usize = 0;
        while i < len
            invariant
                program_wf(p),
                p == self.code(),
                st == self.entry(),
                w == chars@,
                len == w.len(),
                i <= len,
                seen_set.seen@.len() == p.len(),
                buffer.seen@.len() == p.len(),
                listing_ok(p, seen_set.seen@, seen_set.traversed@),
                listed(seen_set.traversed@) == active(p, st, w, i as nat),
            decreases len - i,
        {
            let c = chars[i];
            self.step(&seen_set, &mut buffer, c, false);
            std::mem::swap(&mut seen_set, &mut buffer);
            seen_set = self.closure(i + 1, len, seen_set, &mut buffer);
            i += 1;
        }
        proof {
            lemma_lists_match(p, st, w, i as nat, seen_set.traversed@);
        }
        Ok(self.is_match(&seen_set))
    }
}

/// The marks and the list agree: a state is marked exactly when it is listed,
/// and every listed state is a state of a program of `n` instructions.
spec fn consistent(n: nat, seen: Seq<bool>, trav: Seq<usize>) -> bool {
    &&& seen.len() == n
    &&& forall|j: int| 0 <= j < trav.len() ==> #[trigger] trav[j] < n
    &&& forall|k: int| 0 <= k < n ==> (#[trigger] seen[k] <==> listed(trav).contains(k))
}


/// Listing one more state.
proof fn lemma_listed_push(t: Seq<usize>, j: usize)
    ensures
        listed(t.push(j)) == listed(t).insert(j as int),
{
    let t2 = t.push(j);
    assert forall|k: int| #[trigger] listed(t2).contains(k) implies listed(t).insert(j as int).contains(k) by {
        let m = choose|m: int| 0 <= m < t2.len() && t2[m] as int == k;
        if m < t.len() {
            assert(t2[m] == t[m]);
        }
    }
    assert forall|k: int| #[trigger] listed(t).insert(j as int).contains(k) implies listed(t2).contains(k) by {
        if k == j {
            assert(t2[t.len() as int] == j);
        } else {
            let m = choose|m: int| 0 <= m < t.len() && t[m] as int == k;
            assert(t2[m] == t[m]);
        }
    }
    assert(listed(t2) =~= listed(t).insert(j as int));
}

/// Moving one more state over a character adds that state's successors.
proof fn lemma_step_insert(p: Seq<SpecInst>, from: Set<int>, i: int, c: char)
    ensures
        step_of(p, from.insert(i), c) == step_of(p, from, c).union(
            Set::new(|t: int| char_edge(p, i, c, t)),
        ),
{
    let a = step_of(p, from.insert(i), c);
    let b = step_of(p, from, c).union(Set::new(|t: int| char_edge(p, i, c, t)));
    assert forall|t: int| a.contains(t) implies b.contains(t) by {
        let s = choose|s: int| #[trigger] from.insert(i).contains(s) && char_edge(p, s, c, t);
        if s != i {
            assert(from.contains(s));
        }
    }
    assert forall|t: int| b.contains(t) implies a.contains(t) by {
        if !char_edge(p, i, c, t) {
            let s = choose|s: int| #[trigger] from.contains(s) && char_edge(p, s, c, t);
            assert(from.insert(i).contains(s));
        } else {
            assert(from.insert(i).contains(i));
        }
    }
    assert(a =~= b);
}

/// A prefix lists no more than the whole.
proof fn lemma_listed_prefix(t: Seq<usize>, k: int)
    requires
        0 <= k <= t.len(),
    ensures
        listed(t.subrange(0, k)).subset_of(listed(t)),
{
    assert forall|x: int| listed(t.subrange(0, k)).contains(x) implies listed(t).contains(x) by {
        let m = choose|m: int| 0 <= m < k && t.subrange(0, k)[m] as int == x;
        assert(t.subrange(0, k)[m] == t[m]);
    }
}

/// When the listed states are the active ones, some listed state accepts
/// exactly when the program accepts there; when they are only some of them,
/// an accepting listed state still means the program accepts there.
proof fn lemma_lists_match(p: Seq<SpecInst>, st: int, w: Seq<char>, i: nat, trav: Seq<usize>)
    requires
        listed(trav).subset_of(active(p, st, w, i)),
    ensures
        list_accepts(p, trav) ==> accepts_at(p, st, w, i),
        listed(trav) == active(p, st, w, i) ==> (list_accepts(p, trav) <==> accepts_at(p, st, w, i)),
{
    if list_accepts(p, trav) {
        let j = choose|j: int| 0 <= j < trav.len() && (#[trigger] p[trav[j] as int]) is Match;
        assert(listed(trav).contains(trav[j] as int));
        assert(active(p, st, w, i).contains(trav[j] as int));
    }
    if listed(trav) == active(p, st, w, i) && accepts_at(p, st, w, i) {
        let t = choose|t: int| #[trigger] active(p, st, w, i).contains(t) && p[t] is Match;
        assert(listed(trav).contains(t));
        let j = choose|j: int| 0 <= j < trav.len() && trav[j] as int == t;
        assert(p[trav[j] as int] is Match);
    }
}

/// In a program where every marked state has been handled, whatever can be
/// reached from a marked state without consuming input is marked too.
proof fn lemma_closed_reach(
    p: Seq<SpecInst>,
    pos: int,
    len: int,
    seen: Seq<bool>,
    trav: Seq<usize>,
    r: int,
    t: int,
)
    requires
        seen.len() == p.len(),
        0 <= r < p.len(),
        seen[r],
        forall|k: int| 0 <= k < p.len() && #[trigger] seen[k] ==> expanded(p, pos, len, seen, trav, k),
        eps_reaches(p, pos, len, r, t),
    ensures
        0 <= t < p.len(),
        seen[t],
{
    let path = choose|path: Seq<int>| #[trigger]
        is_eps_path(p, pos, len, path) && path[0] == r && path.last() == t;
    lemma_closed_path(p, pos, len, seen, trav, path, path.len() - 1);
}

proof fn lemma_closed_path(
    p: Seq<SpecInst>,
    pos: int,
    len: int,
    seen: Seq<bool>,
    trav: Seq<usize>,
    path: Seq<int>,
    i: int,
)
    requires
        seen.len() == p.len(),
        is_eps_path(p, pos, len, path),
        0 <= path[0] < p.len(),
        seen[path[0]],
        0 <= i < path.len(),
        forall|k: int| 0 <= k < p.len() && #[trigger] seen[k] ==> expanded(p, pos, len, seen, trav, k),
    ensures
        0 <= path[i] < p.len(),
        seen[path[i]],
    decreases i,
{
    if i > 0 {
        lemma_closed_path(p, pos, len, seen, trav, path, i - 1);
        assert(eps_edge(p, pos, len, path[i - 1], path[i]));
        assert(expanded(p, pos, len, seen, trav, path[i - 1]));
    }
}

/// Listing more and marking more keeps a handled state handled.
proof fn lemma_expanded_mono(
    p: Seq<SpecInst>,
    pos: int,
    len: int,
    s1: Seq<bool>,
    t1: Seq<usize>,
    s2: Seq<bool>,
    t2: Seq<usize>,
    k: int,
)
    requires
        grows(s1, s2),
        is_prefix(t1, t2),
        expanded(p, pos, len, s1, t1, k),
    ensures
        expanded(p, pos, len, s2, t2, k),
{
    if is_leaf(p[k]) {
        let j = choose|j: int| 0 <= j < t1.len() && t1[j] as int == k;
        assert(t2[j] == t2.subrange(0, t1.len() as int)[j]);
        assert(listed(t2).contains(k));
    }
}

proof fn lemma_prefix_trans(a: Seq<usize>, b: Seq<usize>, c: Seq<usize>)
    requires
        is_prefix(a, b),
        is_prefix(b, c),
    ensures
        is_prefix(a, c),
{
    assert forall|k: int| 0 <= k < a.len() implies c[k] == a[k] by {
        assert(c.subrange(0, b.len() as int)[k] == c[k]);
        assert(b.subrange(0, a.len() as int)[k] == b[k]);
    }
    assert(c.subrange(0, a.len() as int) =~= a);
}

} // verus!
