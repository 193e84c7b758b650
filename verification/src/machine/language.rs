use vstd::prelude::*;

use crate::machine::class::{class_instruction_of, class_instructions, class_matches, item_contains};
use crate::machine::program::SpecInst;
use crate::machine::thompson::{
    compile_pieces, compile_spec, lemma_compile_shape, piece_ast, psize, repetition_pieces, sz,
    targets_below, Piece,
};
use crate::machine::{lemma_machine_program, machine_program, machine_start};
use crate::parser::ast::{AnchorKind, ClassType, SpecAst};
use crate::regex::nfa::{
    accepts_at, active, char_edge, eps_edge, eps_reaches, is_run, lemma_active_run,
    lemma_eps_extend, lemma_eps_refl, lemma_reaches_active, lemma_reaches_eps_edge,
    lemma_reaches_trans, moves, reaches,
};
use crate::regex::pike::{leftmost_first, lemma_find_is_a_match};

verus! {

/// What a language question is about: a tree, a tree repeated any number of
/// times, or the unrolled pieces of a bounded repetition.
pub enum Lang {
    Tree(SpecAst),
    Star(SpecAst),
    Pieces(SpecAst, Seq<Piece>),
}

/// A derivation: the evidence that something matches part of the input. A
/// split says where the first part's match ends; left and right say which
/// alternative was taken; `Via` passes to a repetition's own question.
pub enum Deriv {
    Leaf,
    Split(Box<Deriv>, int, Box<Deriv>),
    Left(Box<Deriv>),
    Right(Box<Deriv>),
    Via(Box<Deriv>),
}

/// `d` shows that what `q` is about matches the characters of `w` from
/// position `i` to position `j`. Anchors test positions in the whole of `w`:
/// `^` holds at 0 and `$` at `w.len()`.
pub open spec fn derives(d: Deriv, q: Lang, w: Seq<char>, i: int, j: int) -> bool
    decreases d,
{
    if i < 0 || j < i || j > w.len() {
        false
    } else {
        match q {
            Lang::Tree(a) => match a {
                SpecAst::Empty => d is Leaf && i == j,
                SpecAst::Literal(c) => d is Leaf && j == i + 1 && w[i] == c,
                SpecAst::Class(items, negated) => d is Leaf && j == i + 1 && class_matches(
                    class_instructions(items),
                    negated,
                    w[i],
                ),
                SpecAst::Any => d is Leaf && j == i + 1,
                SpecAst::Anchor(AnchorKind::Start) => d is Leaf && i == j && i == 0,
                SpecAst::Anchor(AnchorKind::End) => d is Leaf && i == j && j == w.len(),
                SpecAst::Concat(x, y) => match d {
                    Deriv::Split(d1, k, d2) => derives(*d1, Lang::Tree(*x), w, i, k) && derives(
                        *d2,
                        Lang::Tree(*y),
                        w,
                        k,
                        j,
                    ),
                    _ => false,
                },
                SpecAst::Alternation(x, y) => match d {
                    Deriv::Left(d1) => derives(*d1, Lang::Tree(*x), w, i, j),
                    Deriv::Right(d1) => derives(*d1, Lang::Tree(*y), w, i, j),
                    _ => false,
                },
                SpecAst::Star(x) => match d {
                    Deriv::Via(d1) => derives(*d1, Lang::Star(*x), w, i, j),
                    _ => false,
                },
                SpecAst::LazyStar(x) => match d {
                    Deriv::Via(d1) => derives(*d1, Lang::Star(*x), w, i, j),
                    _ => false,
                },
                SpecAst::Plus(x) => match d {
                    Deriv::Split(d1, k, d2) => derives(*d1, Lang::Tree(*x), w, i, k) && derives(
                        *d2,
                        Lang::Star(*x),
                        w,
                        k,
                        j,
                    ),
                    _ => false,
                },
                SpecAst::LazyPlus(x) => match d {
                    Deriv::Split(d1, k, d2) => derives(*d1, Lang::Tree(*x), w, i, k) && derives(
                        *d2,
                        Lang::Star(*x),
                        w,
                        k,
                        j,
                    ),
                    _ => false,
                },
                SpecAst::Question(x) => match d {
                    Deriv::Leaf => i == j,
                    Deriv::Left(d1) => derives(*d1, Lang::Tree(*x), w, i, j),
                    _ => false,
                },
                SpecAst::LazyQuestion(x) => match d {
                    Deriv::Leaf => i == j,
                    Deriv::Left(d1) => derives(*d1, Lang::Tree(*x), w, i, j),
                    _ => false,
                },
                SpecAst::BoundedRepetition(x, n, m, lazy) => match d {
                    Deriv::Via(d1) => derives(
                        *d1,
                        Lang::Pieces(*x, repetition_pieces(n, m, lazy)),
                        w,
                        i,
                        j,
                    ),
                    _ => false,
                },
            },
            Lang::Star(x) => match d {
                Deriv::Leaf => i == j,
                Deriv::Split(d1, k, d2) => derives(*d1, Lang::Tree(x), w, i, k) && derives(
                    *d2,
                    Lang::Star(x),
                    w,
                    k,
                    j,
                ),
                _ => false,
            },
            Lang::Pieces(x, pcs) => if pcs.len() == 0 {
                d is Leaf && i == j
            } else {
                match d {
                    Deriv::Split(d1, k, d2) => derives(
                        *d1,
                        Lang::Tree(piece_ast(x, pcs[0])),
                        w,
                        i,
                        k,
                    ) && derives(*d2, Lang::Pieces(x, pcs.drop_first()), w, k, j),
                    _ => false,
                }
            },
        }
    }
}

/// The tree `a` matches the characters of `w` from position `i` to `j`: its
/// language holds that stretch of the input.
pub open spec fn matches(a: SpecAst, w: Seq<char>, i: int, j: int) -> bool {
    exists|d: Deriv| #[trigger] derives(d, Lang::Tree(a), w, i, j)
}

/// `big` holds the instructions of the fragment `q` (those from `base` on),
/// except perhaps at the fragment's exit `e`.
pub open spec fn agrees_on(big: Seq<SpecInst>, q: Seq<SpecInst>, base: nat, e: nat) -> bool {
    &&& big.len() >= q.len()
    &&& forall|k: int| base <= k < q.len() && k != e ==> big[k] == q[k]
}

/// `i` is not `Match`, and every state it can continue at is at least `lo`.
pub open spec fn targets_from(i: SpecInst, lo: nat) -> bool {
    match i {
        SpecInst::Consume(_, t) => t >= lo,
        SpecInst::ConsumeAny(t) => t >= lo,
        SpecInst::ConsumeClass(_, _, t) => t >= lo,
        SpecInst::Jump(t) => t >= lo,
        SpecInst::Split(t, u) => t >= lo && u >= lo,
        SpecInst::ConditionalJump(_, t) => t >= lo,
        SpecInst::Match => false,
        SpecInst::Hole => true,
    }
}

/// A fragment's instructions (all but its exit) continue only at states of
/// the fragment: none leads back into the program it was appended to, and
/// none accepts.
proof fn lemma_compile_closed(a: SpecAst, p: Seq<SpecInst>)
    ensures
        forall|k: int|
            p.len() <= k < compile_spec(a, p).0.len() && k != compile_spec(a, p).2 ==> targets_from(
                #[trigger] compile_spec(a, p).0[k],
                p.len(),
            ),
    decreases sz(a), 1nat, 0nat,
{
    let l = p.len();
    lemma_compile_shape(a, p);
    let (q, s, e) = compile_spec(a, p);
    match a {
        SpecAst::Concat(x, y) => {
            lemma_compile_closed(*x, p);
            lemma_compile_shape(*x, p);
            let (p1, s1, e1) = compile_spec(*x, p);
            lemma_compile_closed(*y, p1);
            lemma_compile_shape(*y, p1);
            let (p2, s2, e2) = compile_spec(*y, p1);
            assert forall|k: int| l <= k < q.len() && k != e implies targets_from(#[trigger] q[k], l) by {
                if k < p1.len() && k != e1 {
                    assert(p2.subrange(0, p1.len() as int)[k] == p1[k]);
                    assert(q[k] == p1[k]);
                } else if p1.len() <= k < p2.len() && k != e2 {
                    assert(q[k] == p2[k]);
                }
            }
        },
        SpecAst::Alternation(x, y) => {
            lemma_compile_closed(*x, p);
            lemma_compile_shape(*x, p);
            let (p1, s1, e1) = compile_spec(*x, p);
            lemma_compile_closed(*y, p1);
            lemma_compile_shape(*y, p1);
            let (p2, s2, e2) = compile_spec(*y, p1);
            assert forall|k: int| l <= k < q.len() && k != e implies targets_from(#[trigger] q[k], l) by {
                if k < p1.len() && k != e1 {
                    assert(p2.subrange(0, p1.len() as int)[k] == p1[k]);
                    assert(q[k] == p1[k]);
                } else if p1.len() <= k < p2.len() && k != e2 {
                    assert(q[k] == p2[k]);
                }
            }
        },
        SpecAst::Star(x) => {
            lemma_compile_closed(*x, p);
            lemma_compile_shape(*x, p);
            let (p1, s1, e1) = compile_spec(*x, p);
            assert forall|k: int| l <= k < q.len() && k != e implies targets_from(#[trigger] q[k], l) by {
                if k < p1.len() && k != e1 {
                    assert(q[k] == p1[k]);
                }
            }
        },
        SpecAst::LazyStar(x) => {
            lemma_compile_closed(*x, p);
            lemma_compile_shape(*x, p);
            let (p1, s1, e1) = compile_spec(*x, p);
            assert forall|k: int| l <= k < q.len() && k != e implies targets_from(#[trigger] q[k], l) by {
                if k < p1.len() && k != e1 {
                    assert(q[k] == p1[k]);
                }
            }
        },
        SpecAst::Plus(x) => {
            lemma_compile_closed(*x, p);
            lemma_compile_shape(*x, p);
            let (p1, s1, e1) = compile_spec(*x, p);
            assert forall|k: int| l <= k < q.len() && k != e implies targets_from(#[trigger] q[k], l) by {
                if k < p1.len() && k != e1 {
                    assert(q[k] == p1[k]);
                }
            }
        },
        SpecAst::LazyPlus(x) => {
            lemma_compile_closed(*x, p);
            lemma_compile_shape(*x, p);
            let (p1, s1, e1) = compile_spec(*x, p);
            assert forall|k: int| l <= k < q.len() && k != e implies targets_from(#[trigger] q[k], l) by {
                if k < p1.len() && k != e1 {
                    assert(q[k] == p1[k]);
                }
            }
        },
        SpecAst::Question(x) => {
            lemma_compile_closed(*x, p);
            lemma_compile_shape(*x, p);
            let (p1, s1, e1) = compile_spec(*x, p);
            assert forall|k: int| l <= k < q.len() && k != e implies targets_from(#[trigger] q[k], l) by {
                if k < p1.len() && k != e1 {
                    assert(q[k] == p1[k]);
                }
            }
        },
        SpecAst::LazyQuestion(x) => {
            lemma_compile_closed(*x, p);
            lemma_compile_shape(*x, p);
            let (p1, s1, e1) = compile_spec(*x, p);
            assert forall|k: int| l <= k < q.len() && k != e implies targets_from(#[trigger] q[k], l) by {
                if k < p1.len() && k != e1 {
                    assert(q[k] == p1[k]);
                }
            }
        },
        SpecAst::BoundedRepetition(x, n, m, lazy) => {
            let pcs = repetition_pieces(n, m, lazy);
            lemma_pieces_closed(*x, pcs, p, None, l);
            assert(compile_spec(a, p) == compile_pieces(*x, pcs, p, None));
            assert forall|k: int| l <= k < q.len() && k != e implies targets_from(#[trigger] q[k], l) by {
                assert(targets_from(compile_pieces(*x, pcs, p, None).0[k], l));
            }
        },
        _ => {
            assert forall|k: int| l <= k < q.len() && k != e implies targets_from(#[trigger] q[k], l) by {
                assert(k == l);
            }
        },
    }
}

/// The pieces of a bounded repetition, compiled one after another, form a
/// fragment that continues only at its own states.
proof fn lemma_pieces_closed(
    x: SpecAst,
    pcs: Seq<Piece>,
    p: Seq<SpecInst>,
    acc: Option<(nat, nat)>,
    base: nat,
)
    requires
        base <= p.len(),
        acc is None ==> base == p.len(),
        acc matches Some((s, e)) ==> base <= s && base <= e < p.len() && forall|k: int|
            base <= k < p.len() && k != e ==> targets_from(#[trigger] p[k], base),
    ensures
        forall|k: int|
            base <= k < compile_pieces(x, pcs, p, acc).0.len() && k != compile_pieces(
                x,
                pcs,
                p,
                acc,
            ).2 ==> targets_from(#[trigger] compile_pieces(x, pcs, p, acc).0[k], base),
    decreases sz(x) + 2, 0nat, pcs.len(),
{
    let (q, s, e) = compile_pieces(x, pcs, p, acc);
    if pcs.len() > 0 {
        let px = piece_ast(x, pcs[0]);
        lemma_compile_shape(px, p);
        lemma_compile_closed(px, p);
        let (p1, s1, e1) = compile_spec(px, p);
        match acc {
            None => {
                assert forall|k: int| base <= k < p1.len() && k != e1 implies targets_from(
                    #[trigger] p1[k],
                    base,
                ) by {
                    assert(p1 == compile_spec(px, p).0);
                }
                lemma_pieces_closed(x, pcs.drop_first(), p1, Some((s1, e1)), base);
                assert forall|k: int| base <= k < q.len() && k != e implies targets_from(#[trigger] q[k], base) by {
                    assert(targets_from(compile_pieces(x, pcs.drop_first(), p1, Some((s1, e1))).0[k], base));
                }
            },
            Some((s0, e0)) => {
                let p2 = p1.update(e0 as int, SpecInst::Jump(s1));
                assert forall|k: int| base <= k < p2.len() && k != e1 implies targets_from(
                    #[trigger] p2[k],
                    base,
                ) by {
                    if k < p.len() && k != e0 {
                        assert(p1.subrange(0, p.len() as int)[k] == p[k]);
                    } else if p.len() <= k && k != e0 {
                        assert(p2[k] == p1[k]);
                        assert(p1 == compile_spec(px, p).0);
                    }
                }
                lemma_pieces_closed(x, pcs.drop_first(), p2, Some((s0, e1)), base);
                assert forall|k: int| base <= k < q.len() && k != e implies targets_from(#[trigger] q[k], base) by {
                    assert(targets_from(compile_pieces(x, pcs.drop_first(), p2, Some((s0, e1))).0[k], base));
                }
            },
        }
    } else {
        assert forall|k: int| base <= k < q.len() && k != e implies targets_from(#[trigger] q[k], base) by {
            if acc is None {
                assert(k == p.len());
            }
        }
    }
}

/// The states from `lo` up to `hi`, but `ex`, are instructions of `big` that
/// continue only at states from `lo` up to `hi`.
pub open spec fn closed_region(big: Seq<SpecInst>, lo: int, hi: int, ex: int) -> bool {
    &&& 0 <= lo <= hi <= big.len()
    &&& forall|k: int|
        lo <= k < hi && k != ex ==> targets_below(#[trigger] big[k], hi as nat) && targets_from(
            big[k],
            lo as nat,
        )
}

/// A configuration whose state lies in the region and is not `ex`.
pub open spec fn inside(c: (int, int), lo: int, hi: int, ex: int) -> bool {
    lo <= c.0 < hi && c.0 != ex
}

/// A fragment embedded in a program is a closed region, but for its exit.
proof fn lemma_fragment_region(a: SpecAst, pre: Seq<SpecInst>, big: Seq<SpecInst>)
    requires
        agrees_on(big, compile_spec(a, pre).0, pre.len(), compile_spec(a, pre).2),
    ensures
        closed_region(
            big,
            pre.len() as int,
            compile_spec(a, pre).0.len() as int,
            compile_spec(a, pre).2 as int,
        ),
        pre.len() <= compile_spec(a, pre).1 < compile_spec(a, pre).0.len(),
        pre.len() <= compile_spec(a, pre).2 < compile_spec(a, pre).0.len(),
{
    lemma_compile_shape(a, pre);
    lemma_compile_closed(a, pre);
    let (q, s, e) = compile_spec(a, pre);
    assert forall|k: int| pre.len() <= k < q.len() && k != e implies targets_below(
        #[trigger] big[k],
        q.len(),
    ) && targets_from(big[k], pre.len()) by {
        assert(big[k] == q[k]);
    }
}

/// A move from a state of a closed region stays in the region.
proof fn lemma_move_within(
    big: Seq<SpecInst>,
    w: Seq<char>,
    c: (int, int),
    d: (int, int),
    lo: int,
    hi: int,
    ex: int,
)
    requires
        closed_region(big, lo, hi, ex),
        inside(c, lo, hi, ex),
        moves(big, w, c, d),
    ensures
        lo <= d.0 < hi,
{
    assert(targets_below(big[c.0], hi as nat) && targets_from(big[c.0], lo as nat));
}

/// Positions along a run never go back, and stay within the input.
proof fn lemma_run_positions(big: Seq<SpecInst>, w: Seq<char>, path: Seq<(int, int)>, n: int)
    requires
        is_run(big, w, path),
        0 <= path[0].1 <= w.len(),
        0 <= n < path.len(),
    ensures
        forall|k: int| 0 <= k <= n ==> path[0].1 <= #[trigger] path[k].1 <= path[n].1 <= w.len(),
    decreases n,
{
    if n > 0 {
        lemma_run_positions(big, w, path, n - 1);
        assert(moves(big, w, path[n - 1], path[n]));
    }
}

/// Where a run that starts in a closed region first leaves its inside: at the
/// excluded state, since every move from inside stays in the region.
proof fn lemma_first_exit(
    big: Seq<SpecInst>,
    w: Seq<char>,
    path: Seq<(int, int)>,
    lo: int,
    hi: int,
    ex: int,
) -> (k: int)
    requires
        closed_region(big, lo, hi, ex),
        is_run(big, w, path),
        lo <= path[0].0 < hi,
        !inside(path.last(), lo, hi, ex),
    ensures
        0 <= k < path.len(),
        path[k].0 == ex,
        forall|m: int| 0 <= m < k ==> inside(#[trigger] path[m], lo, hi, ex),
    decreases path.len(),
{
    if !inside(path[0], lo, hi, ex) {
        0
    } else {
        let rest = path.drop_first();
        assert(moves(big, w, path[0], path[1]));
        lemma_move_within(big, w, path[0], path[1], lo, hi, ex);
        assert forall|m: int| 0 <= m < rest.len() - 1 implies moves(big, w, #[trigger] rest[m], rest[m + 1]) by {
            assert(rest[m] == path[m + 1] && rest[m + 1] == path[m + 2]);
        }
        let k = lemma_first_exit(big, w, rest, lo, hi, ex);
        assert forall|m: int| 0 <= m < k + 1 implies inside(#[trigger] path[m], lo, hi, ex) by {
            if m > 0 {
                assert(path[m] == rest[m - 1]);
            }
        }
        k + 1
    }
}

/// A stretch of a run is a run.
proof fn lemma_sub_run(big: Seq<SpecInst>, w: Seq<char>, path: Seq<(int, int)>, a: int, b: int)
    requires
        is_run(big, w, path),
        0 <= a < b <= path.len(),
    ensures
        is_run(big, w, path.subrange(a, b)),
{
    let sub = path.subrange(a, b);
    assert forall|m: int| 0 <= m < sub.len() - 1 implies moves(big, w, #[trigger] sub[m], sub[m + 1]) by {
        assert(sub[m] == path[a + m] && sub[m + 1] == path[a + m + 1]);
    }
}

/// An edge that consumes no input is a run that stays at its position.
proof fn lemma_edge_run(p: Seq<SpecInst>, w: Seq<char>, s: int, t: int, i: int)
    requires
        eps_edge(p, i, w.len() as int, s, t),
    ensures
        reaches(p, w, s, i, t, i),
{
    lemma_eps_refl(p, i, w.len() as int, s);
    lemma_eps_extend(p, i, w.len() as int, s, s, t);
}

/// An edge that consumes no input, then a run.
proof fn lemma_edge_then(p: Seq<SpecInst>, w: Seq<char>, s: int, t: int, i: int, u: int, j: int)
    requires
        eps_edge(p, i, w.len() as int, s, t),
        reaches(p, w, t, i, u, j),
    ensures
        reaches(p, w, s, i, u, j),
{
    lemma_edge_run(p, w, s, t, i);
    lemma_reaches_trans(p, w, s, i, t, i, u, j);
}

/// A run through a fragment: whatever its tree matches, the program can walk
/// from the fragment's entry to its exit, consuming exactly those characters.
#[verifier::spinoff_prover]
#[verifier::rlimit(40)]
proof fn lemma_fragment_complete(
    a: SpecAst,
    pre: Seq<SpecInst>,
    big: Seq<SpecInst>,
    w: Seq<char>,
    i: int,
    j: int,
    d: Deriv,
)
    requires
        agrees_on(big, compile_spec(a, pre).0, pre.len(), compile_spec(a, pre).2),
        derives(d, Lang::Tree(a), w, i, j),
    ensures
        reaches(big, w, compile_spec(a, pre).1 as int, i, compile_spec(a, pre).2 as int, j),
    decreases d,
{
    let l = pre.len();
    let len = w.len() as int;
    lemma_compile_shape(a, pre);
    let (q, s, e) = compile_spec(a, pre);
    match a {
        SpecAst::Empty => {
            assert(i == j && s == l && e == l);
            lemma_eps_refl(big, i, len, s as int);
            assert(eps_reaches(big, i, len, s as int, e as int));
            assert(reaches(big, w, s as int, i, e as int, j));
        },
        SpecAst::Literal(c) => {
            assert(big[l as int] == q[l as int]);
            lemma_eps_refl(big, i, len, l as int);
            lemma_eps_refl(big, j, len, (l + 1) as int);
            assert(reaches(big, w, (l + 1) as int, i + 1, (l + 1) as int, j));
            assert(char_edge(big, l as int, w[i], (l + 1) as int));
        },
        SpecAst::Class(items, negated) => {
            assert(big[l as int] == q[l as int]);
            lemma_eps_refl(big, i, len, l as int);
            lemma_eps_refl(big, j, len, (l + 1) as int);
            assert(reaches(big, w, (l + 1) as int, i + 1, (l + 1) as int, j));
            assert(char_edge(big, l as int, w[i], (l + 1) as int));
        },
        SpecAst::Any => {
            assert(big[l as int] == q[l as int]);
            lemma_eps_refl(big, i, len, l as int);
            lemma_eps_refl(big, j, len, (l + 1) as int);
            assert(reaches(big, w, (l + 1) as int, i + 1, (l + 1) as int, j));
            assert(char_edge(big, l as int, w[i], (l + 1) as int));
        },
        SpecAst::Anchor(k) => {
            assert(big[l as int] == q[l as int]);
            lemma_edge_run(big, w, l as int, (l + 1) as int, i);
        },
        SpecAst::Concat(x, y) => {
            let (p1, s1, e1) = compile_spec(*x, pre);
            lemma_compile_shape(*x, pre);
            lemma_compile_shape(*y, p1);
            let (p2, s2, e2) = compile_spec(*y, p1);
            let (d1, k, d2) = match d {
                Deriv::Split(d1, k, d2) => (*d1, k, *d2),
                _ => (d, 0, d),
            };
            assert(agrees_on(big, p1, l, e1)) by {
                assert forall|t: int| l <= t < p1.len() && t != e1 implies big[t] == p1[t] by {
                    assert(p2.subrange(0, p1.len() as int)[t] == p1[t]);
                }
            }
            assert(agrees_on(big, p2, p1.len(), e2));
            lemma_fragment_complete(*x, pre, big, w, i, k, d1);
            lemma_fragment_complete(*y, p1, big, w, k, j, d2);
            assert(big[e1 as int] == q[e1 as int]);
            lemma_edge_then(big, w, e1 as int, s2 as int, k, e2 as int, j);
            lemma_reaches_trans(big, w, s1 as int, i, e1 as int, k, e2 as int, j);
        },
        SpecAst::Alternation(x, y) => {
            let (p1, s1, e1) = compile_spec(*x, pre);
            lemma_compile_shape(*x, pre);
            lemma_compile_shape(*y, p1);
            let (p2, s2, e2) = compile_spec(*y, p1);
            let n = p2.len();
            assert(big[n as int] == q[n as int]);
            assert(big[e1 as int] == q[e1 as int]);
            assert(big[e2 as int] == q[e2 as int]);
            match d {
                Deriv::Left(d1) => {
                    assert(agrees_on(big, p1, l, e1)) by {
                        assert forall|t: int| l <= t < p1.len() && t != e1 implies big[t] == p1[t] by {
                            assert(p2.subrange(0, p1.len() as int)[t] == p1[t]);
                        }
                    }
                    lemma_fragment_complete(*x, pre, big, w, i, j, *d1);
                    lemma_reaches_eps_edge(big, w, s1 as int, i, e1 as int, j, (n + 1) as int);
                    lemma_edge_then(big, w, n as int, s1 as int, i, (n + 1) as int, j);
                },
                Deriv::Right(d1) => {
                    assert(agrees_on(big, p2, p1.len(), e2));
                    lemma_fragment_complete(*y, p1, big, w, i, j, *d1);
                    lemma_reaches_eps_edge(big, w, s2 as int, i, e2 as int, j, (n + 1) as int);
                    lemma_edge_then(big, w, n as int, s2 as int, i, (n + 1) as int, j);
                },
                _ => {},
            }
        },
        SpecAst::Star(x) => {
            let (p1, s1, e1) = compile_spec(*x, pre);
            lemma_compile_shape(*x, pre);
            let n = p1.len();
            assert(big[n as int] == q[n as int]);
            assert(big[e1 as int] == q[e1 as int]);
            assert(agrees_on(big, p1, l, e1));
            if let Deriv::Via(d1) = d {
                lemma_loop_complete(*x, pre, big, w, n, n + 1, i, j, *d1);
            }
        },
        SpecAst::LazyStar(x) => {
            let (p1, s1, e1) = compile_spec(*x, pre);
            lemma_compile_shape(*x, pre);
            let n = p1.len();
            assert(big[n as int] == q[n as int]);
            assert(big[e1 as int] == q[e1 as int]);
            assert(agrees_on(big, p1, l, e1));
            if let Deriv::Via(d1) = d {
                lemma_loop_complete(*x, pre, big, w, n, n + 1, i, j, *d1);
            }
        },
        SpecAst::Plus(x) => {
            let (p1, s1, e1) = compile_spec(*x, pre);
            lemma_compile_shape(*x, pre);
            let n = p1.len();
            assert(big[e1 as int] == q[e1 as int]);
            assert(agrees_on(big, p1, l, e1));
            if let Deriv::Split(d1, k, d2) = d {
                lemma_fragment_complete(*x, pre, big, w, i, k, *d1);
                lemma_loop_complete(*x, pre, big, w, e1, n, k, j, *d2);
                lemma_reaches_trans(big, w, s1 as int, i, e1 as int, k, n as int, j);
            }
        },
        SpecAst::LazyPlus(x) => {
            let (p1, s1, e1) = compile_spec(*x, pre);
            lemma_compile_shape(*x, pre);
            let n = p1.len();
            assert(big[e1 as int] == q[e1 as int]);
            assert(agrees_on(big, p1, l, e1));
            if let Deriv::Split(d1, k, d2) = d {
                lemma_fragment_complete(*x, pre, big, w, i, k, *d1);
                lemma_loop_complete(*x, pre, big, w, e1, n, k, j, *d2);
                lemma_reaches_trans(big, w, s1 as int, i, e1 as int, k, n as int, j);
            }
        },
        SpecAst::Question(x) => {
            let (p1, s1, e1) = compile_spec(*x, pre);
            lemma_compile_shape(*x, pre);
            let n = p1.len();
            assert(big[n as int] == q[n as int]);
            assert(agrees_on(big, p1, l, e1));
            match d {
                Deriv::Left(d1) => {
                    lemma_fragment_complete(*x, pre, big, w, i, j, *d1);
                    lemma_edge_then(big, w, n as int, s1 as int, i, e1 as int, j);
                },
                _ => {
                    lemma_edge_run(big, w, n as int, e1 as int, i);
                },
            }
        },
        SpecAst::LazyQuestion(x) => {
            let (p1, s1, e1) = compile_spec(*x, pre);
            lemma_compile_shape(*x, pre);
            let n = p1.len();
            assert(big[n as int] == q[n as int]);
            assert(agrees_on(big, p1, l, e1));
            match d {
                Deriv::Left(d1) => {
                    lemma_fragment_complete(*x, pre, big, w, i, j, *d1);
                    lemma_edge_then(big, w, n as int, s1 as int, i, e1 as int, j);
                },
                _ => {
                    lemma_edge_run(big, w, n as int, e1 as int, i);
                },
            }
        },
        SpecAst::BoundedRepetition(x, n, m, lazy) => {
            let pcs = repetition_pieces(n, m, lazy);
            if let Deriv::Via(d1) = d {
                lemma_pieces_complete(*x, pcs, pre, None, l, big, w, i, i, j, *d1);
            }
        },
    }
}

/// The loop of a star or a plus: from the split `hub`, which leads into the
/// fragment of `x` and out to `exit`, and whose fragment leads back to `hub`,
/// the program can consume any number of matches of `x` and leave.
proof fn lemma_loop_complete(
    x: SpecAst,
    pre: Seq<SpecInst>,
    big: Seq<SpecInst>,
    w: Seq<char>,
    hub: nat,
    exit: nat,
    i: int,
    j: int,
    d: Deriv,
)
    requires
        agrees_on(big, compile_spec(x, pre).0, pre.len(), compile_spec(x, pre).2),
        hub < big.len(),
        big[hub as int] == SpecInst::Split(compile_spec(x, pre).1, exit) || big[hub as int]
            == SpecInst::Split(exit, compile_spec(x, pre).1),
        compile_spec(x, pre).2 == hub || (compile_spec(x, pre).2 < big.len() && big[compile_spec(
            x,
            pre,
        ).2 as int] == SpecInst::Jump(hub)),
        derives(d, Lang::Star(x), w, i, j),
    ensures
        reaches(big, w, hub as int, i, exit as int, j),
    decreases d,
{
    let (q, s1, e1) = compile_spec(x, pre);
    match d {
        Deriv::Split(d1, k, d2) => {
            lemma_fragment_complete(x, pre, big, w, i, k, *d1);
            if e1 != hub {
                lemma_reaches_eps_edge(big, w, s1 as int, i, e1 as int, k, hub as int);
            }
            lemma_edge_then(big, w, hub as int, s1 as int, i, hub as int, k);
            lemma_loop_complete(x, pre, big, w, hub, exit, k, j, *d2);
            lemma_reaches_trans(big, w, hub as int, i, hub as int, k, exit as int, j);
        },
        _ => {
            lemma_edge_run(big, w, hub as int, exit as int, i);
        },
    }
}

/// What compiling the pieces leaves of the program it starts from: every
/// instruction but the exit built so far, which a further piece fills.
proof fn lemma_pieces_keep(x: SpecAst, pcs: Seq<Piece>, p: Seq<SpecInst>, acc: Option<(nat, nat)>)
    requires
        acc matches Some((s, e)) ==> e < p.len(),
    ensures
        ({
            let (q, s2, e2) = compile_pieces(x, pcs, p, acc);
            &&& q.len() >= p.len()
            &&& forall|k: int|
                0 <= k < p.len() && !(acc matches Some((s, e)) && k == e) ==> q[k] == p[k]
            &&& pcs.len() > 0 ==> e2 >= p.len()
            &&& acc is None ==> e2 >= p.len()
            &&& (pcs.len() == 0 && acc is Some) ==> q == p && Some((s2, e2)) == acc
            &&& acc matches Some((s, e)) ==> s2 == s
        }),
    decreases pcs.len(),
{
    if pcs.len() > 0 {
        let px = piece_ast(x, pcs[0]);
        lemma_compile_shape(px, p);
        let (p1, s1, e1) = compile_spec(px, p);
        match acc {
            None => {
                lemma_pieces_keep(x, pcs.drop_first(), p1, Some((s1, e1)));
                assert forall|k: int| 0 <= k < p.len() implies p1[k] == p[k] by {
                    assert(p1.subrange(0, p.len() as int)[k] == p[k]);
                }
            },
            Some((s, e)) => {
                let p2 = p1.update(e as int, SpecInst::Jump(s1));
                lemma_pieces_keep(x, pcs.drop_first(), p2, Some((s, e1)));
                assert forall|k: int| 0 <= k < p.len() && k != e implies p2[k] == p[k] by {
                    assert(p1.subrange(0, p.len() as int)[k] == p[k]);
                }
            },
        }
    }
}

/// The unrolled pieces of a bounded repetition, compiled one after another:
/// where the pieces match one after another, a run goes from the first
/// piece's entry (or, with `acc`, from the entry of what was built before,
/// which a run reaches the exit of at `k`) to the last piece's exit.
#[verifier::spinoff_prover]
#[verifier::rlimit(40)]
proof fn lemma_pieces_complete(
    x: SpecAst,
    pcs: Seq<Piece>,
    p: Seq<SpecInst>,
    acc: Option<(nat, nat)>,
    base: nat,
    big: Seq<SpecInst>,
    w: Seq<char>,
    i: int,
    k: int,
    j: int,
    d: Deriv,
)
    requires
        base <= p.len(),
        agrees_on(big, compile_pieces(x, pcs, p, acc).0, base, compile_pieces(x, pcs, p, acc).2),
        acc is None ==> k == i && base == p.len(),
        acc matches Some((s0, e0)) ==> base <= e0 < p.len() && reaches(big, w, s0 as int, i, e0 as int, k),
        derives(d, Lang::Pieces(x, pcs), w, k, j),
    ensures
        reaches(
            big,
            w,
            compile_pieces(x, pcs, p, acc).1 as int,
            i,
            compile_pieces(x, pcs, p, acc).2 as int,
            j,
        ),
    decreases d,
{
    let len = w.len() as int;
    lemma_pieces_keep(x, pcs, p, acc);
    let (q, s, e) = compile_pieces(x, pcs, p, acc);
    if pcs.len() == 0 {
        match acc {
            None => {
                lemma_eps_refl(big, i, len, s as int);
            },
            Some((s0, e0)) => {},
        }
    } else if let Deriv::Split(d1, k2, d2) = d {
        let px = piece_ast(x, pcs[0]);
        lemma_compile_shape(px, p);
        let (p1, s1, e1) = compile_spec(px, p);
        let rest = pcs.drop_first();
        match acc {
            None => {
                lemma_pieces_keep(x, rest, p1, Some((s1, e1)));
                assert(agrees_on(big, p1, p.len(), e1)) by {
                    assert forall|t: int| p.len() <= t < p1.len() && t != e1 implies big[t] == p1[t] by {
                        assert(q[t] == p1[t]);
                    }
                }
                lemma_fragment_complete(px, p, big, w, k, k2, *d1);
                lemma_pieces_complete(x, rest, p1, Some((s1, e1)), base, big, w, i, k2, j, *d2);
            },
            Some((s0, e0)) => {
                let p2 = p1.update(e0 as int, SpecInst::Jump(s1));
                lemma_pieces_keep(x, rest, p2, Some((s0, e1)));
                assert(agrees_on(big, p1, p.len(), e1)) by {
                    assert forall|t: int| p.len() <= t < p1.len() && t != e1 implies big[t] == p1[t] by {
                        assert(q[t] == p2[t]);
                    }
                }
                lemma_fragment_complete(px, p, big, w, k, k2, *d1);
                assert(q[e0 as int] == p2[e0 as int]);
                assert(big[e0 as int] == SpecInst::Jump(s1));
                lemma_reaches_eps_edge(big, w, s0 as int, i, e0 as int, k, s1 as int);
                lemma_reaches_trans(big, w, s0 as int, i, s1 as int, k, e1 as int, k2);
                lemma_pieces_complete(x, rest, p2, Some((s0, e1)), base, big, w, i, k2, j, *d2);
            },
        }
    }
}

/// Every string the pattern denotes is accepted: where the tree `a` matches
/// the first `n` characters of `w`, the compiled program accepts after reading
/// them. So `full_match` accepts every input in the language of the pattern,
/// and `find` reports a match on every input that starts with one.
pub proof fn lemma_language_accepted(a: SpecAst, w: Seq<char>, n: nat)
    requires
        matches(a, w, 0, n as int),
    ensures
        accepts_at(machine_program(a), machine_start(a) as int, w, n),
{
    let d = choose|d: Deriv| #[trigger] derives(d, Lang::Tree(a), w, 0, n as int);
    lemma_compile_shape(a, Seq::empty());
    let (q, s, e) = compile_spec(a, Seq::empty());
    let big = machine_program(a);
    assert(agrees_on(big, q, 0, e));
    lemma_fragment_complete(a, Seq::empty(), big, w, 0, n as int, d);
    assert(big[e as int] == SpecInst::Match);
    lemma_reaches_active(big, s as int, w, e as int, n);
}

/// A run through a fragment, from its entry to its first arrival at its exit,
/// consumes a stretch of the input that the fragment's tree matches.
#[verifier::spinoff_prover]
#[verifier::rlimit(40)]
proof fn lemma_fragment_sound(
    a: SpecAst,
    pre: Seq<SpecInst>,
    big: Seq<SpecInst>,
    w: Seq<char>,
    path: Seq<(int, int)>,
) -> (d: Deriv)
    requires
        agrees_on(big, compile_spec(a, pre).0, pre.len(), compile_spec(a, pre).2),
        is_run(big, w, path),
        path[0].0 == compile_spec(a, pre).1,
        path.last().0 == compile_spec(a, pre).2,
        forall|k: int| 0 <= k < path.len() - 1 ==> (#[trigger] path[k]).0 != compile_spec(a, pre).2,
        0 <= path[0].1 <= w.len(),
    ensures
        derives(d, Lang::Tree(a), w, path[0].1, path.last().1),
    decreases sz(a), 2nat, path.len(),
{
    let l = pre.len();
    let last = path.len() - 1;
    lemma_compile_shape(a, pre);
    lemma_fragment_region(a, pre, big);
    lemma_run_positions(big, w, path, last);
    let (q, s, e) = compile_spec(a, pre);
    match a {
        SpecAst::Concat(x, y) => lemma_concat_sound(a, pre, big, w, path),
        SpecAst::Alternation(x, y) => lemma_alternation_sound(a, pre, big, w, path),
        SpecAst::Star(x) => {
            let (p1, s1, e1) = compile_spec(*x, pre);
            lemma_compile_shape(*x, pre);
            let n = p1.len();
            assert(big[n as int] == q[n as int]);
            assert(big[e1 as int] == q[e1 as int]);
            assert(agrees_on(big, p1, l, e1));
            let d1 = lemma_loop_sound(*x, pre, big, w, n, n + 1, path);
            Deriv::Via(Box::new(d1))
        },
        SpecAst::LazyStar(x) => {
            let (p1, s1, e1) = compile_spec(*x, pre);
            lemma_compile_shape(*x, pre);
            let n = p1.len();
            assert(big[n as int] == q[n as int]);
            assert(big[e1 as int] == q[e1 as int]);
            assert(agrees_on(big, p1, l, e1));
            let d1 = lemma_loop_sound(*x, pre, big, w, n, n + 1, path);
            Deriv::Via(Box::new(d1))
        },
        SpecAst::Plus(x) => lemma_plus_sound(a, pre, big, w, path),
        SpecAst::LazyPlus(x) => lemma_plus_sound(a, pre, big, w, path),
        SpecAst::Question(x) => lemma_question_sound(a, pre, big, w, path),
        SpecAst::LazyQuestion(x) => lemma_question_sound(a, pre, big, w, path),
        SpecAst::BoundedRepetition(x, n, m, lazy) => {
            let pcs = repetition_pieces(n, m, lazy);
            if pcs.len() == 0 {
                assert(last == 0);
                assert(derives(Deriv::Leaf, Lang::Pieces(*x, pcs), w, path[0].1, path.last().1));
                Deriv::Via(Box::new(Deriv::Leaf))
            } else {
                let px = piece_ast(*x, pcs[0]);
                lemma_compile_shape(px, pre);
                let (p1, s1, e1) = compile_spec(px, pre);
                assert(compile_spec(a, pre) == compile_pieces(*x, pcs, pre, None));
                assert(compile_pieces(*x, pcs, pre, None) == compile_pieces(
                    *x,
                    pcs.drop_first(),
                    p1,
                    Some((s1, e1)),
                ));
                lemma_pieces_keep(*x, pcs.drop_first(), p1, Some((s1, e1)));
                let dp = lemma_pieces_sound(*x, pcs, pre, None, l, big, w, path);
                Deriv::Via(Box::new(dp))
            }
        },
        _ => lemma_atom_sound(a, pre, big, w, path),
    }
}

/// The atoms: one instruction, or none, and the exit.
proof fn lemma_atom_sound(
    a: SpecAst,
    pre: Seq<SpecInst>,
    big: Seq<SpecInst>,
    w: Seq<char>,
    path: Seq<(int, int)>,
) -> (d: Deriv)
    requires
        agrees_on(big, compile_spec(a, pre).0, pre.len(), compile_spec(a, pre).2),
        is_run(big, w, path),
        path[0].0 == compile_spec(a, pre).1,
        path.last().0 == compile_spec(a, pre).2,
        forall|k: int| 0 <= k < path.len() - 1 ==> (#[trigger] path[k]).0 != compile_spec(a, pre).2,
        0 <= path[0].1 <= w.len(),
        a is Empty || a is Literal || a is Class || a is Any || a is Anchor,
    ensures
        derives(d, Lang::Tree(a), w, path[0].1, path.last().1),
    decreases sz(a), 0nat, path.len(),
{
    let l = pre.len();
    let last = path.len() - 1;
    lemma_compile_shape(a, pre);
    lemma_fragment_region(a, pre, big);
    lemma_run_positions(big, w, path, last);
    let (q, s, e) = compile_spec(a, pre);
    assert(s == l);
    if !(a is Empty) {
        assert(big[l as int] == q[l as int]);
        assert(moves(big, w, path[0], path[1]));
        assert(last == 1);
    }
    Deriv::Leaf
}

/// A concatenation: through the first fragment, then the second.
#[verifier::spinoff_prover]
#[verifier::rlimit(40)]
proof fn lemma_concat_sound(
    a: SpecAst,
    pre: Seq<SpecInst>,
    big: Seq<SpecInst>,
    w: Seq<char>,
    path: Seq<(int, int)>,
) -> (d: Deriv)
    requires
        agrees_on(big, compile_spec(a, pre).0, pre.len(), compile_spec(a, pre).2),
        is_run(big, w, path),
        path[0].0 == compile_spec(a, pre).1,
        path.last().0 == compile_spec(a, pre).2,
        forall|k: int| 0 <= k < path.len() - 1 ==> (#[trigger] path[k]).0 != compile_spec(a, pre).2,
        0 <= path[0].1 <= w.len(),
        a is Concat,
    ensures
        derives(d, Lang::Tree(a), w, path[0].1, path.last().1),
    decreases sz(a), 1nat, path.len(),
{
    let l = pre.len();
    let last = path.len() - 1;
    lemma_compile_shape(a, pre);
    lemma_fragment_region(a, pre, big);
    lemma_run_positions(big, w, path, last);
    let (q, s, e) = compile_spec(a, pre);
    let (x, y) = match a {
        SpecAst::Concat(x, y) => (*x, *y),
        _ => (a, a),
    };
    let (p1, s1, e1) = compile_spec(x, pre);
    lemma_compile_shape(x, pre);
    lemma_compile_shape(y, p1);
    let (p2, s2, e2) = compile_spec(y, p1);
    assert(agrees_on(big, p1, l, e1)) by {
        assert forall|t: int| l <= t < p1.len() && t != e1 implies big[t] == p1[t] by {
            assert(p2.subrange(0, p1.len() as int)[t] == p1[t]);
        }
    }
    assert(agrees_on(big, p2, p1.len(), e2));
    lemma_fragment_region(x, pre, big);
    let k1 = lemma_first_exit(big, w, path, l as int, p1.len() as int, e1 as int);
    let m = path[k1].1;
    let head = path.subrange(0, k1 + 1);
    lemma_sub_run(big, w, path, 0, k1 + 1);
    assert forall|t: int| 0 <= t < head.len() - 1 implies (#[trigger] head[t]).0 != e1 by {
        assert(inside(path[t], l as int, p1.len() as int, e1 as int));
    }
    let d1 = lemma_fragment_sound(x, pre, big, w, head);
    assert(k1 < last);
    assert(big[e1 as int] == q[e1 as int]);
    assert(moves(big, w, path[k1], path[k1 + 1]));
    let tail = path.subrange(k1 + 1, path.len() as int);
    lemma_sub_run(big, w, path, k1 + 1, path.len() as int);
    assert forall|t: int| 0 <= t < tail.len() - 1 implies (#[trigger] tail[t]).0 != e2 by {
        assert(tail[t] == path[k1 + 1 + t]);
    }
    lemma_run_positions(big, w, path, k1 + 1);
    let d2 = lemma_fragment_sound(y, p1, big, w, tail);
    Deriv::Split(Box::new(d1), m, Box::new(d2))
}

/// An alternation: through one of the two fragments.
#[verifier::spinoff_prover]
#[verifier::rlimit(40)]
proof fn lemma_alternation_sound(
    a: SpecAst,
    pre: Seq<SpecInst>,
    big: Seq<SpecInst>,
    w: Seq<char>,
    path: Seq<(int, int)>,
) -> (d: Deriv)
    requires
        agrees_on(big, compile_spec(a, pre).0, pre.len(), compile_spec(a, pre).2),
        is_run(big, w, path),
        path[0].0 == compile_spec(a, pre).1,
        path.last().0 == compile_spec(a, pre).2,
        forall|k: int| 0 <= k < path.len() - 1 ==> (#[trigger] path[k]).0 != compile_spec(a, pre).2,
        0 <= path[0].1 <= w.len(),
        a is Alternation,
    ensures
        derives(d, Lang::Tree(a), w, path[0].1, path.last().1),
    decreases sz(a), 1nat, path.len(),
{
    let l = pre.len();
    let last = path.len() - 1;
    lemma_compile_shape(a, pre);
    lemma_fragment_region(a, pre, big);
    lemma_run_positions(big, w, path, last);
    let (q, s, e) = compile_spec(a, pre);
    let (x, y) = match a {
        SpecAst::Alternation(x, y) => (*x, *y),
        _ => (a, a),
    };
    let (p1, s1, e1) = compile_spec(x, pre);
    lemma_compile_shape(x, pre);
    lemma_compile_shape(y, p1);
    let (p2, s2, e2) = compile_spec(y, p1);
    let n = p2.len();
    assert(big[n as int] == q[n as int]);
    assert(big[e1 as int] == q[e1 as int]);
    assert(big[e2 as int] == q[e2 as int]);
    assert(moves(big, w, path[0], path[1]));
    let sub = path.subrange(1, path.len() as int);
    lemma_sub_run(big, w, path, 1, path.len() as int);
    lemma_run_positions(big, w, path, 1);
    if path[1].0 == s1 {
        assert(agrees_on(big, p1, l, e1)) by {
            assert forall|t: int| l <= t < p1.len() && t != e1 implies big[t] == p1[t] by {
                assert(p2.subrange(0, p1.len() as int)[t] == p1[t]);
            }
        }
        lemma_fragment_region(x, pre, big);
        let k1 = lemma_first_exit(big, w, sub, l as int, p1.len() as int, e1 as int);
        assert(sub[k1] == path[k1 + 1]);
        assert(moves(big, w, path[k1 + 1], path[k1 + 2]));
        assert(k1 + 2 == last);
        let head = sub.subrange(0, k1 + 1);
        lemma_sub_run(big, w, sub, 0, k1 + 1);
        assert forall|t: int| 0 <= t < head.len() - 1 implies (#[trigger] head[t]).0 != e1 by {
            assert(inside(sub[t], l as int, p1.len() as int, e1 as int));
        }
        let d1 = lemma_fragment_sound(x, pre, big, w, head);
        Deriv::Left(Box::new(d1))
    } else {
        assert(agrees_on(big, p2, p1.len(), e2));
        lemma_fragment_region(y, p1, big);
        let k1 = lemma_first_exit(big, w, sub, p1.len() as int, p2.len() as int, e2 as int);
        assert(sub[k1] == path[k1 + 1]);
        assert(moves(big, w, path[k1 + 1], path[k1 + 2]));
        assert(k1 + 2 == last);
        let head = sub.subrange(0, k1 + 1);
        lemma_sub_run(big, w, sub, 0, k1 + 1);
        assert forall|t: int| 0 <= t < head.len() - 1 implies (#[trigger] head[t]).0 != e2 by {
            assert(inside(sub[t], p1.len() as int, p2.len() as int, e2 as int));
        }
        let d2 = lemma_fragment_sound(y, p1, big, w, head);
        Deriv::Right(Box::new(d2))
    }
}

/// A plus: through the fragment once, then around its loop.
proof fn lemma_plus_sound(
    a: SpecAst,
    pre: Seq<SpecInst>,
    big: Seq<SpecInst>,
    w: Seq<char>,
    path: Seq<(int, int)>,
) -> (d: Deriv)
    requires
        agrees_on(big, compile_spec(a, pre).0, pre.len(), compile_spec(a, pre).2),
        is_run(big, w, path),
        path[0].0 == compile_spec(a, pre).1,
        path.last().0 == compile_spec(a, pre).2,
        forall|k: int| 0 <= k < path.len() - 1 ==> (#[trigger] path[k]).0 != compile_spec(a, pre).2,
        0 <= path[0].1 <= w.len(),
        a is Plus || a is LazyPlus,
    ensures
        derives(d, Lang::Tree(a), w, path[0].1, path.last().1),
    decreases sz(a), 1nat, path.len(),
{
    let l = pre.len();
    let last = path.len() - 1;
    lemma_compile_shape(a, pre);
    lemma_fragment_region(a, pre, big);
    lemma_run_positions(big, w, path, last);
    let (q, s, e) = compile_spec(a, pre);
    let x = match a {
        SpecAst::Plus(x) => *x,
        SpecAst::LazyPlus(x) => *x,
        _ => a,
    };
    let (p1, s1, e1) = compile_spec(x, pre);
    lemma_compile_shape(x, pre);
    let n = p1.len();
    assert(big[e1 as int] == q[e1 as int]);
    assert(agrees_on(big, p1, l, e1));
    lemma_fragment_region(x, pre, big);
    let k1 = lemma_first_exit(big, w, path, l as int, p1.len() as int, e1 as int);
    let m = path[k1].1;
    let head = path.subrange(0, k1 + 1);
    lemma_sub_run(big, w, path, 0, k1 + 1);
    assert forall|t: int| 0 <= t < head.len() - 1 implies (#[trigger] head[t]).0 != e1 by {
        assert(inside(path[t], l as int, p1.len() as int, e1 as int));
    }
    let d1 = lemma_fragment_sound(x, pre, big, w, head);
    let tail = path.subrange(k1, path.len() as int);
    lemma_sub_run(big, w, path, k1, path.len() as int);
    assert forall|t: int| 0 <= t < tail.len() - 1 implies (#[trigger] tail[t]).0 != n by {
        assert(tail[t] == path[k1 + t]);
    }
    lemma_run_positions(big, w, path, k1);
    let d2 = lemma_loop_sound(x, pre, big, w, e1, n, tail);
    Deriv::Split(Box::new(d1), m, Box::new(d2))
}

/// An option: straight to the exit, or through the fragment.
proof fn lemma_question_sound(
    a: SpecAst,
    pre: Seq<SpecInst>,
    big: Seq<SpecInst>,
    w: Seq<char>,
    path: Seq<(int, int)>,
) -> (d: Deriv)
    requires
        agrees_on(big, compile_spec(a, pre).0, pre.len(), compile_spec(a, pre).2),
        is_run(big, w, path),
        path[0].0 == compile_spec(a, pre).1,
        path.last().0 == compile_spec(a, pre).2,
        forall|k: int| 0 <= k < path.len() - 1 ==> (#[trigger] path[k]).0 != compile_spec(a, pre).2,
        0 <= path[0].1 <= w.len(),
        a is Question || a is LazyQuestion,
    ensures
        derives(d, Lang::Tree(a), w, path[0].1, path.last().1),
    decreases sz(a), 1nat, path.len(),
{
    let l = pre.len();
    let last = path.len() - 1;
    lemma_compile_shape(a, pre);
    lemma_fragment_region(a, pre, big);
    lemma_run_positions(big, w, path, last);
    let (q, s, e) = compile_spec(a, pre);
    let x = match a {
        SpecAst::Question(x) => *x,
        SpecAst::LazyQuestion(x) => *x,
        _ => a,
    };
    let (p1, s1, e1) = compile_spec(x, pre);
    lemma_compile_shape(x, pre);
    let n = p1.len();
    assert(big[n as int] == q[n as int]);
    assert(agrees_on(big, p1, l, e1));
    assert(moves(big, w, path[0], path[1]));
    if path[1].0 == e1 {
        assert(last == 1);
        Deriv::Leaf
    } else {
        let tail = path.subrange(1, path.len() as int);
        lemma_sub_run(big, w, path, 1, path.len() as int);
        assert forall|t: int| 0 <= t < tail.len() - 1 implies (#[trigger] tail[t]).0 != e1 by {
            assert(tail[t] == path[1 + t]);
        }
        lemma_run_positions(big, w, path, 1);
        let d1 = lemma_fragment_sound(x, pre, big, w, tail);
        Deriv::Left(Box::new(d1))
    }
}

/// A run around the loop of a star or a plus, from the split `hub` to its
/// first arrival at `exit`, consumes a stretch that repetitions of `x` match.
#[verifier::spinoff_prover]
#[verifier::rlimit(40)]
proof fn lemma_loop_sound(
    x: SpecAst,
    pre: Seq<SpecInst>,
    big: Seq<SpecInst>,
    w: Seq<char>,
    hub: nat,
    exit: nat,
    path: Seq<(int, int)>,
) -> (d: Deriv)
    requires
        agrees_on(big, compile_spec(x, pre).0, pre.len(), compile_spec(x, pre).2),
        hub < big.len(),
        big[hub as int] == SpecInst::Split(compile_spec(x, pre).1, exit) || big[hub as int]
            == SpecInst::Split(exit, compile_spec(x, pre).1),
        compile_spec(x, pre).2 == hub || (compile_spec(x, pre).2 < big.len() && big[compile_spec(
            x,
            pre,
        ).2 as int] == SpecInst::Jump(hub)),
        exit >= compile_spec(x, pre).0.len(),
        hub != exit,
        is_run(big, w, path),
        path[0].0 == hub,
        path.last().0 == exit,
        forall|k: int| 0 <= k < path.len() - 1 ==> (#[trigger] path[k]).0 != exit,
        0 <= path[0].1 <= w.len(),
    ensures
        derives(d, Lang::Star(x), w, path[0].1, path.last().1),
    decreases sz(x) + 1, 0nat, path.len(),
{
    let l = pre.len();
    let last = path.len() - 1;
    lemma_compile_shape(x, pre);
    lemma_fragment_region(x, pre, big);
    lemma_run_positions(big, w, path, last);
    let (q, s1, e1) = compile_spec(x, pre);
    assert(moves(big, w, path[0], path[1]));
    if path[1].0 == exit {
        assert(last == 1);
        Deriv::Leaf
    } else {
        let sub = path.subrange(1, path.len() as int);
        lemma_sub_run(big, w, path, 1, path.len() as int);
        lemma_run_positions(big, w, path, 1);
        let k1 = lemma_first_exit(big, w, sub, l as int, q.len() as int, e1 as int);
        let m = sub[k1].1;
        let head = sub.subrange(0, k1 + 1);
        lemma_sub_run(big, w, sub, 0, k1 + 1);
        assert forall|t: int| 0 <= t < head.len() - 1 implies (#[trigger] head[t]).0 != e1 by {
            assert(inside(sub[t], l as int, q.len() as int, e1 as int));
        }
        let d1 = lemma_fragment_sound(x, pre, big, w, head);
        assert(sub[k1] == path[k1 + 1]);
        let start = if e1 == hub {
            k1 + 1
        } else {
            assert(moves(big, w, path[k1 + 1], path[k1 + 2]));
            k1 + 2
        };
        let rest = path.subrange(start, path.len() as int);
        lemma_sub_run(big, w, path, start, path.len() as int);
        assert forall|t: int| 0 <= t < rest.len() - 1 implies (#[trigger] rest[t]).0 != exit by {
            assert(rest[t] == path[start + t]);
        }
        lemma_run_positions(big, w, path, start);
        let d2 = lemma_loop_sound(x, pre, big, w, hub, exit, rest);
        Deriv::Split(Box::new(d1), m, Box::new(d2))
    }
}

/// A run through the unrolled pieces of a bounded repetition, from the entry
/// of the first piece compiled here to the first arrival at the last exit,
/// consumes a stretch that the pieces match one after another.
#[verifier::spinoff_prover]
#[verifier::rlimit(40)]
proof fn lemma_pieces_sound(
    x: SpecAst,
    pcs: Seq<Piece>,
    p: Seq<SpecInst>,
    acc: Option<(nat, nat)>,
    base: nat,
    big: Seq<SpecInst>,
    w: Seq<char>,
    path: Seq<(int, int)>,
) -> (d: Deriv)
    requires
        pcs.len() > 0,
        base <= p.len(),
        acc is None ==> base == p.len(),
        acc matches Some((s0, e0)) ==> base <= e0 < p.len(),
        agrees_on(big, compile_pieces(x, pcs, p, acc).0, base, compile_pieces(x, pcs, p, acc).2),
        is_run(big, w, path),
        path[0].0 == compile_spec(piece_ast(x, pcs[0]), p).1,
        path.last().0 == compile_pieces(x, pcs, p, acc).2,
        forall|k: int|
            0 <= k < path.len() - 1 ==> (#[trigger] path[k]).0 != compile_pieces(x, pcs, p, acc).2,
        0 <= path[0].1 <= w.len(),
    ensures
        derives(d, Lang::Pieces(x, pcs), w, path[0].1, path.last().1),
    decreases sz(x) + 2, 0nat, pcs.len(),
{
    let last = path.len() - 1;
    lemma_run_positions(big, w, path, last);
    lemma_pieces_keep(x, pcs, p, acc);
    let (q, s, e) = compile_pieces(x, pcs, p, acc);
    let px = piece_ast(x, pcs[0]);
    lemma_compile_shape(px, p);
    let (p1, s1, e1) = compile_spec(px, p);
    let rest = pcs.drop_first();
    let next = match acc {
        None => p1,
        Some((s0, e0)) => p1.update(e0 as int, SpecInst::Jump(s1)),
    };
    let acc2 = match acc {
        None => (s1, e1),
        Some((s0, e0)) => (s0, e1),
    };
    assert(compile_pieces(x, pcs, p, acc) == compile_pieces(x, rest, next, Some(acc2)));
    lemma_pieces_keep(x, rest, next, Some(acc2));
    assert(agrees_on(big, p1, p.len(), e1)) by {
        assert forall|t: int| p.len() <= t < p1.len() && t != e1 implies big[t] == p1[t] by {
            assert(q[t] == next[t]);
        }
    }
    lemma_fragment_region(px, p, big);
    if rest.len() == 0 {
        assert(e == e1);
        let d1 = lemma_fragment_sound(px, p, big, w, path);
        let j = path.last().1;
        assert(derives(Deriv::Leaf, Lang::Pieces(x, rest), w, j, j));
        Deriv::Split(Box::new(d1), j, Box::new(Deriv::Leaf))
    } else {
        let k1 = lemma_first_exit(big, w, path, p.len() as int, p1.len() as int, e1 as int);
        let m = path[k1].1;
        let head = path.subrange(0, k1 + 1);
        lemma_sub_run(big, w, path, 0, k1 + 1);
        assert forall|t: int| 0 <= t < head.len() - 1 implies (#[trigger] head[t]).0 != e1 by {
            assert(inside(path[t], p.len() as int, p1.len() as int, e1 as int));
        }
        let d1 = lemma_fragment_sound(px, p, big, w, head);
        // the exit of this piece jumps to the entry of the next one
        let px2 = piece_ast(x, rest[0]);
        lemma_compile_shape(px2, next);
        let (p1b, s1b, e1b) = compile_spec(px2, next);
        let next2 = p1b.update(e1 as int, SpecInst::Jump(s1b));
        assert(compile_pieces(x, rest, next, Some(acc2)) == compile_pieces(
            x,
            rest.drop_first(),
            next2,
            Some((acc2.0, e1b)),
        ));
        lemma_pieces_keep(x, rest.drop_first(), next2, Some((acc2.0, e1b)));
        assert(q[e1 as int] == next2[e1 as int]);
        assert(big[e1 as int] == SpecInst::Jump(s1b));
        assert(k1 < last);
        assert(moves(big, w, path[k1], path[k1 + 1]));
        let tail = path.subrange(k1 + 1, path.len() as int);
        lemma_sub_run(big, w, path, k1 + 1, path.len() as int);
        assert forall|t: int| 0 <= t < tail.len() - 1 implies (#[trigger] tail[t]).0 != e by {
            assert(tail[t] == path[k1 + 1 + t]);
        }
        lemma_run_positions(big, w, path, k1 + 1);
        let d2 = lemma_pieces_sound(x, rest, next, Some(acc2), base, big, w, tail);
        Deriv::Split(Box::new(d1), m, Box::new(d2))
    }
}

/// The compiled program accepts only strings of the pattern's language: where
/// it accepts after reading the first `n` characters of `w`, the tree `a`
/// matches them. Together with `lemma_language_accepted`, the program accepts
/// exactly the language of the tree.
pub proof fn lemma_accepted_in_language(a: SpecAst, w: Seq<char>, n: nat)
    requires
        accepts_at(machine_program(a), machine_start(a) as int, w, n),
        n <= w.len(),
    ensures
        matches(a, w, 0, n as int),
{
    lemma_compile_shape(a, Seq::empty());
    let (q, s, e) = compile_spec(a, Seq::empty());
    let big = machine_program(a);
    assert(agrees_on(big, q, 0, e));
    lemma_fragment_region(a, Seq::empty(), big);
    let t = choose|t: int| #[trigger] active(big, s as int, w, n).contains(t) && big[t] is Match;
    let path = lemma_active_run(big, s as int, w, t, n);
    assert(!inside(path.last(), 0, q.len() as int, e as int)) by {
        if inside(path.last(), 0, q.len() as int, e as int) {
            assert(targets_from(big[t], 0));
        }
    }
    let k = lemma_first_exit(big, w, path, 0, q.len() as int, e as int);
    if k < path.len() - 1 {
        assert(moves(big, w, path[k], path[k + 1]));
    }
    assert forall|m: int| 0 <= m < path.len() - 1 implies (#[trigger] path[m]).0 != e by {
        if m > k {
            assert(false);
        }
    }
    let d = lemma_fragment_sound(a, Seq::empty(), big, w, path);
    assert(derives(d, Lang::Tree(a), w, 0, n as int));
}

/// The compiled program accepts exactly the language of its tree: after
/// reading the first `n` characters of `w`, it accepts if and only if the
/// tree matches them. With the contracts of `compile` and `full_match`, this
/// says that `full_match` answers whether the whole input is in the language
/// of the pattern.
pub proof fn lemma_program_language(a: SpecAst, w: Seq<char>, n: nat)
    requires
        n <= w.len(),
    ensures
        accepts_at(machine_program(a), machine_start(a) as int, w, n) <==> matches(
            a,
            w,
            0,
            n as int,
        ),
{
    if accepts_at(machine_program(a), machine_start(a) as int, w, n) {
        lemma_accepted_in_language(a, w, n);
    }
    if matches(a, w, 0, n as int) {
        lemma_language_accepted(a, w, n);
    }
}

/// What `find` reports is a match of the pattern: the tree matches the first
/// `n` characters of the input.
pub proof fn lemma_find_matches(a: SpecAst, w: Seq<char>)
    requires
        psize(a) <= usize::MAX,
    ensures
        leftmost_first(machine_program(a), machine_start(a) as int, w) matches Some(n) ==> n
            <= w.len() && matches(a, w, 0, n as int),
{
    lemma_machine_program(a);
    lemma_find_is_a_match(machine_program(a), machine_start(a) as int, w);
    if let Some(n) = leftmost_first(machine_program(a), machine_start(a) as int, w) {
        lemma_accepted_in_language(a, w, n);
    }
}

/// A `^` only holds at the very start: whatever comes before it in a
/// concatenation matches there, and matches nothing.
pub proof fn lemma_start_anchor_after(x: SpecAst, y: SpecAst, w: Seq<char>, i: int, j: int)
    requires
        matches(
            SpecAst::Concat(
                Box::new(x),
                Box::new(SpecAst::Concat(Box::new(SpecAst::Anchor(AnchorKind::Start)), Box::new(y))),
            ),
            w,
            i,
            j,
        ),
    ensures
        i == 0,
        matches(x, w, 0, 0),
{
    let rest = SpecAst::Concat(Box::new(SpecAst::Anchor(AnchorKind::Start)), Box::new(y));
    let d = choose|d: Deriv|
        #[trigger] derives(d, Lang::Tree(SpecAst::Concat(Box::new(x), Box::new(rest))), w, i, j);
    if let Deriv::Split(d1, k, d2) = d {
        assert(derives(*d1, Lang::Tree(x), w, i, k));
        assert(derives(*d2, Lang::Tree(rest), w, k, j));
        if let Deriv::Split(d3, k2, d4) = *d2 {
            assert(derives(*d3, Lang::Tree(SpecAst::Anchor(AnchorKind::Start)), w, k, k2));
            assert(derives(*d4, Lang::Tree(y), w, k2, j));
            assert(k == 0);
            assert(derives(*d1, Lang::Tree(x), w, 0, 0));
        }
    }
}

/// A `$` only holds at the very end: whatever follows it in a concatenation
/// matches there, and matches nothing.
pub proof fn lemma_end_anchor_before(x: SpecAst, y: SpecAst, w: Seq<char>, i: int, j: int)
    requires
        matches(
            SpecAst::Concat(
                Box::new(x),
                Box::new(SpecAst::Concat(Box::new(SpecAst::Anchor(AnchorKind::End)), Box::new(y))),
            ),
            w,
            i,
            j,
        ),
    ensures
        j == w.len(),
        matches(y, w, w.len() as int, w.len() as int),
{
    let rest = SpecAst::Concat(Box::new(SpecAst::Anchor(AnchorKind::End)), Box::new(y));
    let d = choose|d: Deriv|
        #[trigger] derives(d, Lang::Tree(SpecAst::Concat(Box::new(x), Box::new(rest))), w, i, j);
    if let Deriv::Split(d1, k, d2) = d {
        assert(derives(*d1, Lang::Tree(x), w, i, k));
        assert(derives(*d2, Lang::Tree(rest), w, k, j));
        if let Deriv::Split(d3, k2, d4) = *d2 {
            assert(derives(*d3, Lang::Tree(SpecAst::Anchor(AnchorKind::End)), w, k, k2));
            assert(derives(*d4, Lang::Tree(y), w, k2, j));
            assert(k2 == w.len());
            assert(derives(*d4, Lang::Tree(y), w, w.len() as int, w.len() as int));
        }
    }
}

/// A literal, a class or `.` consumes exactly one character.
pub proof fn lemma_atom_consumes_one(c: SpecAst, w: Seq<char>, i: int, j: int)
    requires
        c is Literal || c is Class || c is Any,
        matches(c, w, i, j),
    ensures
        j == i + 1,
{
    let d = choose|d: Deriv| #[trigger] derives(d, Lang::Tree(c), w, i, j);
}

/// `c^y` matches nothing when `c` consumes a character (a literal, a class or
/// `.`): by the time the `^` is tested, the position is past the start.
pub proof fn lemma_start_anchor_dead(c: SpecAst, y: SpecAst, w: Seq<char>, i: int, j: int)
    requires
        c is Literal || c is Class || c is Any,
    ensures
        !matches(
            SpecAst::Concat(
                Box::new(c),
                Box::new(SpecAst::Concat(Box::new(SpecAst::Anchor(AnchorKind::Start)), Box::new(y))),
            ),
            w,
            i,
            j,
        ),
{
    let a = SpecAst::Concat(
        Box::new(c),
        Box::new(SpecAst::Concat(Box::new(SpecAst::Anchor(AnchorKind::Start)), Box::new(y))),
    );
    if matches(a, w, i, j) {
        lemma_start_anchor_after(c, y, w, i, j);
        lemma_atom_consumes_one(c, w, 0, 0);
    }
}

/// `x$c` matches nothing when `c` consumes a character (a literal, a class or
/// `.`): once the `$` holds, nothing is left to consume.
pub proof fn lemma_end_anchor_dead(x: SpecAst, c: SpecAst, w: Seq<char>, i: int, j: int)
    requires
        c is Literal || c is Class || c is Any,
    ensures
        !matches(
            SpecAst::Concat(
                Box::new(x),
                Box::new(SpecAst::Concat(Box::new(SpecAst::Anchor(AnchorKind::End)), Box::new(c))),
            ),
            w,
            i,
            j,
        ),
{
    let a = SpecAst::Concat(
        Box::new(x),
        Box::new(SpecAst::Concat(Box::new(SpecAst::Anchor(AnchorKind::End)), Box::new(c))),
    );
    if matches(a, w, i, j) {
        lemma_end_anchor_before(x, c, w, i, j);
        lemma_atom_consumes_one(c, w, w.len() as int, w.len() as int);
    }
}

/// Repeating an anchor changes nothing: `^^` and `^` (or `$$` and `$`) match
/// the same stretches, since an anchor consumes nothing and tests the same
/// position again.
pub proof fn lemma_anchor_twice(k: AnchorKind, w: Seq<char>, i: int, j: int)
    ensures
        matches(
            SpecAst::Concat(Box::new(SpecAst::Anchor(k)), Box::new(SpecAst::Anchor(k))),
            w,
            i,
            j,
        ) == matches(SpecAst::Anchor(k), w, i, j),
{
    let one = SpecAst::Anchor(k);
    let two = SpecAst::Concat(Box::new(one), Box::new(one));
    if matches(two, w, i, j) {
        let d = choose|d: Deriv| #[trigger] derives(d, Lang::Tree(two), w, i, j);
        if let Deriv::Split(d1, m, d2) = d {
            assert(derives(*d1, Lang::Tree(one), w, i, m));
            assert(derives(*d2, Lang::Tree(one), w, m, j));
            assert(derives(Deriv::Leaf, Lang::Tree(one), w, i, j));
        }
    }
    if matches(one, w, i, j) {
        let d = choose|d: Deriv| #[trigger] derives(d, Lang::Tree(one), w, i, j);
        let dd = Deriv::Split(Box::new(Deriv::Leaf), i, Box::new(Deriv::Leaf));
        assert(derives(Deriv::Leaf, Lang::Tree(one), w, i, i));
        assert(derives(Deriv::Leaf, Lang::Tree(one), w, i, j));
        assert(derives(dd, Lang::Tree(two), w, i, j));
    }
}

/// Laziness changes which match is preferred, never the language: `x*?`,
/// `x+?` and `x??` match exactly what `x*`, `x+` and `x?` match.
pub proof fn lemma_lazy_same_language(x: SpecAst, w: Seq<char>, i: int, j: int)
    ensures
        matches(SpecAst::LazyStar(Box::new(x)), w, i, j) == matches(SpecAst::Star(Box::new(x)), w, i, j),
        matches(SpecAst::LazyPlus(Box::new(x)), w, i, j) == matches(SpecAst::Plus(Box::new(x)), w, i, j),
        matches(SpecAst::LazyQuestion(Box::new(x)), w, i, j) == matches(
            SpecAst::Question(Box::new(x)),
            w,
            i,
            j,
        ),
{
    let pairs = seq![
        (SpecAst::LazyStar(Box::new(x)), SpecAst::Star(Box::new(x))),
        (SpecAst::LazyPlus(Box::new(x)), SpecAst::Plus(Box::new(x))),
        (SpecAst::LazyQuestion(Box::new(x)), SpecAst::Question(Box::new(x))),
    ];
    assert forall|k: int| 0 <= k < 3 implies matches(#[trigger] pairs[k].0, w, i, j) == matches(
        pairs[k].1,
        w,
        i,
        j,
    ) by {
        let (lazy, greedy) = pairs[k];
        if matches(lazy, w, i, j) {
            let d = choose|d: Deriv| #[trigger] derives(d, Lang::Tree(lazy), w, i, j);
            assert(derives(d, Lang::Tree(greedy), w, i, j));
        }
        if matches(greedy, w, i, j) {
            let d = choose|d: Deriv| #[trigger] derives(d, Lang::Tree(greedy), w, i, j);
            assert(derives(d, Lang::Tree(lazy), w, i, j));
        }
    }
    assert(matches(pairs[0].0, w, i, j) == matches(pairs[0].1, w, i, j));
    assert(matches(pairs[1].0, w, i, j) == matches(pairs[1].1, w, i, j));
    assert(matches(pairs[2].0, w, i, j) == matches(pairs[2].1, w, i, j));
}

/// `c` copies of a tree, one after another.
pub open spec fn copies(c: nat) -> Seq<Piece> {
    Seq::new(c, |k: int| Piece::Once)
}

/// `x` repeated exactly `c` times matches the characters from `i` to `j`.
pub open spec fn repeated(x: SpecAst, c: nat, w: Seq<char>, i: int, j: int) -> bool {
    exists|d: Deriv| #[trigger] derives(d, Lang::Pieces(x, copies(c)), w, i, j)
}

/// `a` mandatory copies followed by `b` optional ones.
pub open spec fn counted(a: nat, b: nat, lazy: bool) -> Seq<Piece> {
    copies(a) + Seq::new(
        b,
        |k: int|
            if lazy {
                Piece::LazyOptional
            } else {
                Piece::Optional
            },
    )
}

proof fn lemma_counted_split(a: nat, b: nat, lazy: bool)
    ensures
        a > 0 ==> counted(a, b, lazy)[0] == Piece::Once && counted(a, b, lazy).drop_first()
            == counted((a - 1) as nat, b, lazy),
        a == 0 && b > 0 ==> counted(a, b, lazy)[0] == (if lazy {
            Piece::LazyOptional
        } else {
            Piece::Optional
        }) && counted(a, b, lazy).drop_first() == counted(0, (b - 1) as nat, lazy),
        counted(a, b, lazy).len() == a + b,
{
    if a > 0 {
        assert(counted(a, b, lazy).drop_first() =~= counted((a - 1) as nat, b, lazy));
    }
    if a == 0 && b > 0 {
        assert(counted(a, b, lazy).drop_first() =~= counted(0, (b - 1) as nat, lazy));
    }
}

proof fn lemma_copies_split(c: nat)
    requires
        c > 0,
    ensures
        copies(c)[0] == Piece::Once,
        copies(c).drop_first() == copies((c - 1) as nat),
{
    assert(copies(c).drop_first() =~= copies((c - 1) as nat));
}

/// From `a` mandatory and `b` optional copies to a count of copies taken.
proof fn lemma_counted_to_copies(
    x: SpecAst,
    a: nat,
    b: nat,
    lazy: bool,
    w: Seq<char>,
    i: int,
    j: int,
    d: Deriv,
) -> (c: nat)
    requires
        derives(d, Lang::Pieces(x, counted(a, b, lazy)), w, i, j),
    ensures
        a <= c <= a + b,
        repeated(x, c, w, i, j),
    decreases a + b,
{
    lemma_counted_split(a, b, lazy);
    if a + b == 0 {
        assert(derives(Deriv::Leaf, Lang::Pieces(x, copies(0)), w, i, j));
        0
    } else if let Deriv::Split(d1, k, d2) = d {
        if a > 0 {
            assert(derives(*d2, Lang::Pieces(x, counted((a - 1) as nat, b, lazy)), w, k, j));
            let c2 = lemma_counted_to_copies(x, (a - 1) as nat, b, lazy, w, k, j, *d2);
            let d3 = choose|d3: Deriv| #[trigger] derives(d3, Lang::Pieces(x, copies(c2)), w, k, j);
            lemma_copies_split(c2 + 1);
            assert(derives(Deriv::Split(d1, k, Box::new(d3)), Lang::Pieces(x, copies(c2 + 1)), w, i, j));
            c2 + 1
        } else {
            assert(derives(*d2, Lang::Pieces(x, counted(0, (b - 1) as nat, lazy)), w, k, j));
            let c2 = lemma_counted_to_copies(x, 0, (b - 1) as nat, lazy, w, k, j, *d2);
            let d3 = choose|d3: Deriv| #[trigger] derives(d3, Lang::Pieces(x, copies(c2)), w, k, j);
            let opt = if lazy {
                SpecAst::LazyQuestion(Box::new(x))
            } else {
                SpecAst::Question(Box::new(x))
            };
            assert(derives(*d1, Lang::Tree(opt), w, i, k));
            match *d1 {
                Deriv::Left(dx) => {
                    assert(derives(*dx, Lang::Tree(x), w, i, k));
                    lemma_copies_split(c2 + 1);
                    assert(derives(
                        Deriv::Split(dx, k, Box::new(d3)),
                        Lang::Pieces(x, copies(c2 + 1)),
                        w,
                        i,
                        j,
                    ));
                    c2 + 1
                },
                _ => {
                    assert(i == k);
                    c2
                },
            }
        }
    } else {
        0
    }
}

/// From a count of copies between `a` and `a + b` to `a` mandatory and `b`
/// optional copies.
proof fn lemma_copies_to_counted(
    x: SpecAst,
    a: nat,
    b: nat,
    lazy: bool,
    c: nat,
    w: Seq<char>,
    i: int,
    j: int,
    d: Deriv,
) -> (d2: Deriv)
    requires
        a <= c <= a + b,
        derives(d, Lang::Pieces(x, copies(c)), w, i, j),
    ensures
        derives(d2, Lang::Pieces(x, counted(a, b, lazy)), w, i, j),
    decreases a + b,
{
    lemma_counted_split(a, b, lazy);
    let opt = if lazy {
        SpecAst::LazyQuestion(Box::new(x))
    } else {
        SpecAst::Question(Box::new(x))
    };
    if a + b == 0 {
        d
    } else if c > 0 {
        lemma_copies_split(c);
        if let Deriv::Split(d1, k, dr) = d {
            assert(piece_ast(x, copies(c)[0]) == x);
            assert(derives(*d1, Lang::Tree(x), w, i, k));
            assert(derives(*dr, Lang::Pieces(x, copies((c - 1) as nat)), w, k, j));
            if a > 0 {
                let r = lemma_copies_to_counted(x, (a - 1) as nat, b, lazy, (c - 1) as nat, w, k, j, *dr);
                Deriv::Split(d1, k, Box::new(r))
            } else {
                let r = lemma_copies_to_counted(x, 0, (b - 1) as nat, lazy, (c - 1) as nat, w, k, j, *dr);
                assert(derives(Deriv::Left(d1), Lang::Tree(opt), w, i, k));
                Deriv::Split(Box::new(Deriv::Left(d1)), k, Box::new(r))
            }
        } else {
            d
        }
    } else {
        assert(i == j);
        let r = lemma_copies_to_counted(x, 0, (b - 1) as nat, lazy, 0, w, i, j, d);
        assert(derives(Deriv::Leaf, Lang::Tree(opt), w, i, i));
        Deriv::Split(Box::new(Deriv::Leaf), i, Box::new(r))
    }
}

/// `x{n,m}` (with `n <= m`, as the parser ensures) matches exactly what `x`
/// repeated between `n` and `m` times matches, lazy or not.
pub proof fn lemma_bounded_counts(x: SpecAst, n: u16, m: u16, lazy: bool, w: Seq<char>, i: int, j: int)
    requires
        n <= m,
    ensures
        matches(SpecAst::BoundedRepetition(Box::new(x), n, Some(m), lazy), w, i, j) <==> exists|c: nat|
            n <= c <= m && #[trigger] repeated(x, c, w, i, j),
{
    let a = SpecAst::BoundedRepetition(Box::new(x), n, Some(m), lazy);
    let pcs = repetition_pieces(n, Some(m), lazy);
    assert(pcs =~= counted(n as nat, (m - n) as nat, lazy));
    if matches(a, w, i, j) {
        let d = choose|d: Deriv| #[trigger] derives(d, Lang::Tree(a), w, i, j);
        if let Deriv::Via(d1) = d {
            let c = lemma_counted_to_copies(x, n as nat, (m - n) as nat, lazy, w, i, j, *d1);
            assert(n <= c <= m && repeated(x, c, w, i, j));
        }
    }
    if exists|c: nat| n <= c <= m && #[trigger] repeated(x, c, w, i, j) {
        let c = choose|c: nat| n <= c <= m && #[trigger] repeated(x, c, w, i, j);
        let d = choose|d: Deriv| #[trigger] derives(d, Lang::Pieces(x, copies(c)), w, i, j);
        let d2 = lemma_copies_to_counted(x, n as nat, (m - n) as nat, lazy, c, w, i, j, d);
        assert(derives(Deriv::Via(Box::new(d2)), Lang::Tree(a), w, i, j));
    }
}

/// Any number of repetitions is some count of copies.
proof fn lemma_star_to_copies(x: SpecAst, w: Seq<char>, i: int, j: int, d: Deriv) -> (c: nat)
    requires
        derives(d, Lang::Star(x), w, i, j),
    ensures
        repeated(x, c, w, i, j),
    decreases d,
{
    if let Deriv::Split(d1, k, d2) = d {
        assert(derives(*d2, Lang::Star(x), w, k, j));
        let c2 = lemma_star_to_copies(x, w, k, j, *d2);
        let d3 = choose|d3: Deriv| #[trigger] derives(d3, Lang::Pieces(x, copies(c2)), w, k, j);
        lemma_copies_split(c2 + 1);
        assert(derives(Deriv::Split(d1, k, Box::new(d3)), Lang::Pieces(x, copies(c2 + 1)), w, i, j));
        c2 + 1
    } else {
        assert(derives(Deriv::Leaf, Lang::Pieces(x, copies(0)), w, i, j));
        0
    }
}

/// Any count of copies is a number of repetitions.
proof fn lemma_copies_to_star(x: SpecAst, c: nat, w: Seq<char>, i: int, j: int, d: Deriv) -> (d2:
    Deriv)
    requires
        derives(d, Lang::Pieces(x, copies(c)), w, i, j),
    ensures
        derives(d2, Lang::Star(x), w, i, j),
    decreases c,
{
    if c == 0 {
        Deriv::Leaf
    } else {
        lemma_copies_split(c);
        if let Deriv::Split(d1, k, dr) = d {
            assert(piece_ast(x, copies(c)[0]) == x);
            assert(derives(*d1, Lang::Tree(x), w, i, k));
            assert(derives(*dr, Lang::Pieces(x, copies((c - 1) as nat)), w, k, j));
            let r = lemma_copies_to_star(x, (c - 1) as nat, w, k, j, *dr);
            Deriv::Split(d1, k, Box::new(r))
        } else {
            d
        }
    }
}

/// `a` mandatory copies followed by any number of repetitions.
pub open spec fn counted_on(a: nat, lazy: bool) -> Seq<Piece> {
    copies(a) + seq![
        if lazy {
            Piece::LazyMany
        } else {
            Piece::Many
        },
    ]
}

proof fn lemma_counted_on_to_copies(x: SpecAst, a: nat, lazy: bool, w: Seq<char>, i: int, j: int, d: Deriv) -> (c: nat)
    requires
        derives(d, Lang::Pieces(x, counted_on(a, lazy)), w, i, j),
    ensures
        a <= c,
        repeated(x, c, w, i, j),
    decreases a,
{
    let pcs = counted_on(a, lazy);
    if let Deriv::Split(d1, k, d2) = d {
        if a > 0 {
            assert(pcs.drop_first() =~= counted_on((a - 1) as nat, lazy));
            assert(pcs[0] == Piece::Once);
            assert(derives(*d1, Lang::Tree(x), w, i, k));
            assert(derives(*d2, Lang::Pieces(x, counted_on((a - 1) as nat, lazy)), w, k, j));
            let c2 = lemma_counted_on_to_copies(x, (a - 1) as nat, lazy, w, k, j, *d2);
            let d3 = choose|d3: Deriv| #[trigger] derives(d3, Lang::Pieces(x, copies(c2)), w, k, j);
            lemma_copies_split(c2 + 1);
            assert(derives(Deriv::Split(d1, k, Box::new(d3)), Lang::Pieces(x, copies(c2 + 1)), w, i, j));
            c2 + 1
        } else {
            let star = if lazy {
                SpecAst::LazyStar(Box::new(x))
            } else {
                SpecAst::Star(Box::new(x))
            };
            assert(pcs.drop_first() =~= Seq::<Piece>::empty());
            assert(piece_ast(x, pcs[0]) == star);
            assert(derives(*d1, Lang::Tree(star), w, i, k));
            assert(derives(*d2, Lang::Pieces(x, Seq::<Piece>::empty()), w, k, j));
            if let Deriv::Via(ds) = *d1 {
                assert(derives(*ds, Lang::Star(x), w, i, k));
                lemma_star_to_copies(x, w, i, k, *ds)
            } else {
                0
            }
        }
    } else {
        0
    }
}

proof fn lemma_copies_to_counted_on(
    x: SpecAst,
    a: nat,
    lazy: bool,
    c: nat,
    w: Seq<char>,
    i: int,
    j: int,
    d: Deriv,
) -> (d2: Deriv)
    requires
        a <= c,
        derives(d, Lang::Pieces(x, copies(c)), w, i, j),
    ensures
        derives(d2, Lang::Pieces(x, counted_on(a, lazy)), w, i, j),
    decreases a,
{
    let pcs = counted_on(a, lazy);
    if a > 0 {
        lemma_copies_split(c);
        assert(pcs.drop_first() =~= counted_on((a - 1) as nat, lazy));
        assert(pcs[0] == Piece::Once);
        if let Deriv::Split(d1, k, dr) = d {
            assert(piece_ast(x, copies(c)[0]) == x);
            assert(derives(*dr, Lang::Pieces(x, copies((c - 1) as nat)), w, k, j));
            let r = lemma_copies_to_counted_on(x, (a - 1) as nat, lazy, (c - 1) as nat, w, k, j, *dr);
            Deriv::Split(d1, k, Box::new(r))
        } else {
            d
        }
    } else {
        let star = if lazy {
            SpecAst::LazyStar(Box::new(x))
        } else {
            SpecAst::Star(Box::new(x))
        };
        assert(pcs.drop_first() =~= Seq::<Piece>::empty());
        assert(piece_ast(x, pcs[0]) == star);
        let ds = lemma_copies_to_star(x, c, w, i, j, d);
        assert(derives(Deriv::Via(Box::new(ds)), Lang::Tree(star), w, i, j));
        assert(derives(Deriv::Leaf, Lang::Pieces(x, Seq::<Piece>::empty()), w, j, j));
        Deriv::Split(Box::new(Deriv::Via(Box::new(ds))), j, Box::new(Deriv::Leaf))
    }
}

/// `x{n,}` matches exactly what `x` repeated `n` or more times matches, lazy
/// or not.
pub proof fn lemma_unbounded_counts(x: SpecAst, n: u16, lazy: bool, w: Seq<char>, i: int, j: int)
    ensures
        matches(SpecAst::BoundedRepetition(Box::new(x), n, None, lazy), w, i, j) <==> exists|c: nat|
            n <= c && #[trigger] repeated(x, c, w, i, j),
{
    let a = SpecAst::BoundedRepetition(Box::new(x), n, None, lazy);
    let pcs = repetition_pieces(n, None, lazy);
    assert(pcs =~= counted_on(n as nat, lazy));
    if matches(a, w, i, j) {
        let d = choose|d: Deriv| #[trigger] derives(d, Lang::Tree(a), w, i, j);
        if let Deriv::Via(d1) = d {
            let c = lemma_counted_on_to_copies(x, n as nat, lazy, w, i, j, *d1);
            assert(n <= c && repeated(x, c, w, i, j));
        }
    }
    if exists|c: nat| n <= c && #[trigger] repeated(x, c, w, i, j) {
        let c = choose|c: nat| n <= c && #[trigger] repeated(x, c, w, i, j);
        let d = choose|d: Deriv| #[trigger] derives(d, Lang::Pieces(x, copies(c)), w, i, j);
        let d2 = lemma_copies_to_counted_on(x, n as nat, lazy, c, w, i, j, d);
        assert(derives(Deriv::Via(Box::new(d2)), Lang::Tree(a), w, i, j));
    }
}

/// Matching from the start, a leading `^` changes nothing; matching up to the
/// end, a trailing `$` changes nothing. (So `find`, which only matches from
/// position 0, gains nothing from a leading `^`, and `full_match` gains
/// nothing from either.)
pub proof fn lemma_anchors_at_the_ends(x: SpecAst, w: Seq<char>, j: int)
    ensures
        matches(
            SpecAst::Concat(Box::new(SpecAst::Anchor(AnchorKind::Start)), Box::new(x)),
            w,
            0,
            j,
        ) == matches(x, w, 0, j),
        matches(
            SpecAst::Concat(Box::new(x), Box::new(SpecAst::Anchor(AnchorKind::End))),
            w,
            j,
            w.len() as int,
        ) == matches(x, w, j, w.len() as int),
{
    let l = w.len() as int;
    let start = SpecAst::Anchor(AnchorKind::Start);
    let end = SpecAst::Anchor(AnchorKind::End);
    let a = SpecAst::Concat(Box::new(start), Box::new(x));
    let b = SpecAst::Concat(Box::new(x), Box::new(end));
    if matches(a, w, 0, j) {
        let d = choose|d: Deriv| #[trigger] derives(d, Lang::Tree(a), w, 0, j);
        if let Deriv::Split(d1, k, d2) = d {
            assert(derives(*d1, Lang::Tree(start), w, 0, k));
            assert(derives(*d2, Lang::Tree(x), w, k, j));
        }
    }
    if matches(x, w, 0, j) {
        let d = choose|d: Deriv| #[trigger] derives(d, Lang::Tree(x), w, 0, j);
        assert(derives(Deriv::Leaf, Lang::Tree(start), w, 0, 0));
        assert(derives(Deriv::Split(Box::new(Deriv::Leaf), 0, Box::new(d)), Lang::Tree(a), w, 0, j));
    }
    if matches(b, w, j, l) {
        let d = choose|d: Deriv| #[trigger] derives(d, Lang::Tree(b), w, j, l);
        if let Deriv::Split(d1, k, d2) = d {
            assert(derives(*d1, Lang::Tree(x), w, j, k));
            assert(derives(*d2, Lang::Tree(end), w, k, l));
        }
    }
    if matches(x, w, j, l) {
        let d = choose|d: Deriv| #[trigger] derives(d, Lang::Tree(x), w, j, l);
        assert(derives(Deriv::Leaf, Lang::Tree(end), w, l, l));
        assert(derives(Deriv::Split(Box::new(d), l, Box::new(Deriv::Leaf)), Lang::Tree(b), w, j, l));
    }
}

/// A compiled program has exactly one accepting state: the exit of the
/// tree's fragment, which `Machine::new` fills with `Match`.
pub proof fn lemma_single_match(a: SpecAst)
    ensures
        compile_spec(a, Seq::empty()).2 < machine_program(a).len(),
        forall|k: int|
            0 <= k < machine_program(a).len() ==> ((#[trigger] machine_program(a)[k]) is Match <==> k
                == compile_spec(a, Seq::empty()).2),
{
    lemma_compile_shape(a, Seq::empty());
    lemma_compile_closed(a, Seq::empty());
    let (q, s, e) = compile_spec(a, Seq::empty());
    assert forall|k: int| 0 <= k < machine_program(a).len() implies ((#[trigger] machine_program(
        a,
    )[k]) is Match <==> k == e) by {
        if k != e {
            assert(machine_program(a)[k] == q[k]);
            assert(targets_from(q[k], 0));
        }
    }
}

/// The two programs are the same but for one state, where one has
/// `Split(t, u)` and the other `Split(u, t)`.
pub open spec fn split_swapped(p: Seq<SpecInst>, q: Seq<SpecInst>, k: int) -> bool {
    &&& p.len() == q.len()
    &&& 0 <= k < p.len()
    &&& forall|j: int| 0 <= j < p.len() && j != k ==> p[j] == q[j]
    &&& p[k] matches SpecInst::Split(t, u) && q[k] == SpecInst::Split(u, t)
}

/// A lazy quantifier compiles to the same states as its greedy form, with one
/// split's two targets exchanged: at the entry for `*?` and `??`, at the
/// child's exit for `+?`. Entry and exit are the same.
pub proof fn lemma_lazy_swaps_split(x: SpecAst, p: Seq<SpecInst>)
    ensures
        ({
            let (g, gs, ge) = compile_spec(SpecAst::Star(Box::new(x)), p);
            let (l, ls, le) = compile_spec(SpecAst::LazyStar(Box::new(x)), p);
            gs == ls && ge == le && split_swapped(g, l, gs as int)
        }),
        ({
            let (g, gs, ge) = compile_spec(SpecAst::Question(Box::new(x)), p);
            let (l, ls, le) = compile_spec(SpecAst::LazyQuestion(Box::new(x)), p);
            gs == ls && ge == le && split_swapped(g, l, gs as int)
        }),
        ({
            let (g, gs, ge) = compile_spec(SpecAst::Plus(Box::new(x)), p);
            let (l, ls, le) = compile_spec(SpecAst::LazyPlus(Box::new(x)), p);
            gs == ls && ge == le && split_swapped(g, l, compile_spec(x, p).2 as int)
        }),
{
    lemma_compile_shape(x, p);
}

/// Some item of `items` lists `c`: a range by scalar value, both ends
/// included, or a single character.
pub open spec fn listed_in(items: Seq<ClassType>, c: char) -> bool {
    exists|k: int|
        0 <= k < items.len() && match #[trigger] items[k] {
            ClassType::Range(s, e) => (s as int) <= (c as int) && (c as int) <= (e as int),
            ClassType::Single(d) => d == c,
        }
}

/// The compiled test of a class holds a character exactly when the class's
/// items list it (or, negated, do not).
pub proof fn lemma_listed_class(items: Seq<ClassType>, negated: bool, x: char)
    ensures
        class_matches(class_instructions(items), negated, x) == (negated != listed_in(items, x)),
{
    let ins = class_instructions(items);
    assert((exists|k: int| 0 <= k < ins.len() && item_contains(#[trigger] ins[k], x)) <==> listed_in(
        items,
        x,
    )) by {
        if exists|k: int| 0 <= k < ins.len() && item_contains(#[trigger] ins[k], x) {
            let k = choose|k: int| 0 <= k < ins.len() && item_contains(#[trigger] ins[k], x);
            assert(ins[k] == class_instruction_of(items[k]));
        }
        if listed_in(items, x) {
            let k = choose|k: int|
                0 <= k < items.len() && match #[trigger] items[k] {
                    ClassType::Range(s, e) => (s as int) <= (x as int) && (x as int) <= (e as int),
                    ClassType::Single(d) => d == x,
                };
            assert(ins[k] == class_instruction_of(items[k]));
            assert(item_contains(ins[k], x));
        }
    }
}

/// The compiled programs of the one-character patterns, end to end: after
/// `n` characters of `w`, a literal `c` accepts exactly when `n` is 1 and the
/// character is `c`; `.` when `n` is 1; the empty pattern when `n` is 0; and a
/// class when `n` is 1 and one of its items lists the character, or, for a
/// negated class, none does. `^` accepts only before any character, and `$`
/// only on the empty input.
pub proof fn lemma_one_character_programs(items: Seq<ClassType>, negated: bool, c: char, w: Seq<char>, n: nat)
    requires
        n <= w.len(),
    ensures
        accepts_at(machine_program(SpecAst::Literal(c)), machine_start(SpecAst::Literal(c)) as int, w, n)
            <==> (n == 1 && w[0] == c),
        accepts_at(machine_program(SpecAst::Any), machine_start(SpecAst::Any) as int, w, n) <==> n == 1,
        accepts_at(machine_program(SpecAst::Empty), machine_start(SpecAst::Empty) as int, w, n) <==> n == 0,
        accepts_at(
            machine_program(SpecAst::Class(items, negated)),
            machine_start(SpecAst::Class(items, negated)) as int,
            w,
            n,
        ) <==> (n == 1 && negated != listed_in(items, w[0])),
        accepts_at(
            machine_program(SpecAst::Anchor(AnchorKind::Start)),
            machine_start(SpecAst::Anchor(AnchorKind::Start)) as int,
            w,
            n,
        ) <==> n == 0,
        accepts_at(
            machine_program(SpecAst::Anchor(AnchorKind::End)),
            machine_start(SpecAst::Anchor(AnchorKind::End)) as int,
            w,
            n,
        ) <==> (n == 0 && w.len() == 0),
{
    let cl = SpecAst::Class(items, negated);
    lemma_program_language(SpecAst::Anchor(AnchorKind::Start), w, n);
    lemma_program_language(SpecAst::Anchor(AnchorKind::End), w, n);
    lemma_program_language(SpecAst::Literal(c), w, n);
    lemma_program_language(SpecAst::Any, w, n);
    lemma_program_language(SpecAst::Empty, w, n);
    lemma_program_language(cl, w, n);
    if n == 1 {
        assert(derives(Deriv::Leaf, Lang::Tree(SpecAst::Any), w, 0, 1));
        if w[0] == c {
            assert(derives(Deriv::Leaf, Lang::Tree(SpecAst::Literal(c)), w, 0, 1));
        }
        let x = w[0];
        lemma_listed_class(items, negated, x);
        if negated != listed_in(items, x) {
            assert(derives(Deriv::Leaf, Lang::Tree(cl), w, 0, 1));
        }
    }
    if n == 0 {
        assert(derives(Deriv::Leaf, Lang::Tree(SpecAst::Empty), w, 0, 0));
        assert(derives(Deriv::Leaf, Lang::Tree(SpecAst::Anchor(AnchorKind::Start)), w, 0, 0));
        if w.len() == 0 {
            assert(derives(Deriv::Leaf, Lang::Tree(SpecAst::Anchor(AnchorKind::End)), w, 0, 0));
        }
    }
}

/// Which way each split of a quantifier or an alternation prefers: its first
/// target is tried first. A greedy `x*` and `x?` try the child before leaving
/// (the split at the entry), and a greedy `x+` loops back to the child before
/// leaving (the split at the child's exit); the lazy forms prefer leaving. An
/// alternation tries its left side first. This holds for every child tree.
pub proof fn lemma_split_preference(x: SpecAst, y: SpecAst, p: Seq<SpecInst>)
    ensures
        ({
            let (_, sx, _) = compile_spec(x, p);
            let (q, s, e) = compile_spec(SpecAst::Star(Box::new(x)), p);
            q[s as int] == SpecInst::Split(sx, e)
        }),
        ({
            let (_, sx, _) = compile_spec(x, p);
            let (q, s, e) = compile_spec(SpecAst::LazyStar(Box::new(x)), p);
            q[s as int] == SpecInst::Split(e, sx)
        }),
        ({
            let (_, sx, _) = compile_spec(x, p);
            let (q, s, e) = compile_spec(SpecAst::Question(Box::new(x)), p);
            q[s as int] == SpecInst::Split(sx, e)
        }),
        ({
            let (_, sx, _) = compile_spec(x, p);
            let (q, s, e) = compile_spec(SpecAst::LazyQuestion(Box::new(x)), p);
            q[s as int] == SpecInst::Split(e, sx)
        }),
        ({
            let (_, sx, ex) = compile_spec(x, p);
            let (q, s, e) = compile_spec(SpecAst::Plus(Box::new(x)), p);
            s == sx && q[ex as int] == SpecInst::Split(sx, e)
        }),
        ({
            let (_, sx, ex) = compile_spec(x, p);
            let (q, s, e) = compile_spec(SpecAst::LazyPlus(Box::new(x)), p);
            s == sx && q[ex as int] == SpecInst::Split(e, sx)
        }),
        ({
            let (p1, sx, _) = compile_spec(x, p);
            let (_, sy, _) = compile_spec(y, p1);
            let (q, s, _) = compile_spec(SpecAst::Alternation(Box::new(x), Box::new(y)), p);
            q[s as int] == SpecInst::Split(sx, sy)
        }),
{
    lemma_compile_shape(x, p);
    let (p1, _, _) = compile_spec(x, p);
    lemma_compile_shape(y, p1);
}

} // verus!
