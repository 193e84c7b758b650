use vstd::prelude::*;

use crate::machine::class::class_instructions;
use crate::machine::position::position_of;
use crate::machine::program::SpecInst;
use crate::parser::ast::SpecAst;

verus! {

/// A measure on trees that decreases from a node to every child, and from a
/// bounded repetition to the quantified copies of its child it unrolls into.
pub open spec fn sz(a: SpecAst) -> nat
    decreases a,
{
    match a {
        SpecAst::Concat(x, y) => sz(*x) + sz(*y) + 1,
        SpecAst::Alternation(x, y) => sz(*x) + sz(*y) + 1,
        SpecAst::Star(x) => sz(*x) + 1,
        SpecAst::LazyStar(x) => sz(*x) + 1,
        SpecAst::Plus(x) => sz(*x) + 1,
        SpecAst::LazyPlus(x) => sz(*x) + 1,
        SpecAst::Question(x) => sz(*x) + 1,
        SpecAst::LazyQuestion(x) => sz(*x) + 1,
        SpecAst::BoundedRepetition(x, _, _, _) => sz(*x) + 2,
        _ => 1,
    }
}

/// One copy of the child in the unrolling of a bounded repetition.
pub enum Piece {
    Once,
    Optional,
    LazyOptional,
    Many,
    LazyMany,
}

/// The tree that one piece compiles as.
pub open spec fn piece_ast(x: SpecAst, p: Piece) -> SpecAst {
    match p {
        Piece::Once => x,
        Piece::Optional => SpecAst::Question(Box::new(x)),
        Piece::LazyOptional => SpecAst::LazyQuestion(Box::new(x)),
        Piece::Many => SpecAst::Star(Box::new(x)),
        Piece::LazyMany => SpecAst::LazyStar(Box::new(x)),
    }
}

/// `x{n,m}` unrolls into `n` mandatory copies followed by `m - n` optional
/// copies, or, with no upper bound, by one starred copy; `lazy` makes the
/// optional and starred copies lazy.
pub open spec fn repetition_pieces(n: u16, m: Option<u16>, lazy: bool) -> Seq<Piece> {
    Seq::new(n as nat, |i: int| Piece::Once) + match m {
        Some(m) => Seq::new(
            if m > n {
                (m - n) as nat
            } else {
                0
            },
            |i: int|
                if lazy {
                    Piece::LazyOptional
                } else {
                    Piece::Optional
                },
        ),
        None => seq![
            if lazy {
                Piece::LazyMany
            } else {
                Piece::Many
            },
        ],
    }
}

/// The number of instructions that compiling `a` adds to a program.
pub open spec fn psize(a: SpecAst) -> nat
    decreases sz(a), 1nat, 0nat,
{
    match a {
        SpecAst::Empty => 1,
        SpecAst::Literal(_) => 2,
        SpecAst::Class(_, _) => 2,
        SpecAst::Any => 2,
        SpecAst::Anchor(_) => 2,
        SpecAst::Concat(x, y) => psize(*x) + psize(*y),
        SpecAst::Alternation(x, y) => psize(*x) + psize(*y) + 2,
        SpecAst::Star(x) => psize(*x) + 2,
        SpecAst::LazyStar(x) => psize(*x) + 2,
        SpecAst::Plus(x) => psize(*x) + 1,
        SpecAst::LazyPlus(x) => psize(*x) + 1,
        SpecAst::Question(x) => psize(*x) + 1,
        SpecAst::LazyQuestion(x) => psize(*x) + 1,
        SpecAst::BoundedRepetition(x, n, m, lazy) => {
            let pcs = repetition_pieces(n, m, lazy);
            if pcs.len() == 0 {
                1
            } else {
                pieces_psize(*x, pcs)
            }
        },
    }
}

/// The number of instructions that compiling the pieces adds.
pub open spec fn pieces_psize(x: SpecAst, pcs: Seq<Piece>) -> nat
    decreases sz(x) + 2, 0nat, pcs.len(),
{
    if pcs.len() == 0 {
        0
    } else {
        psize(piece_ast(x, pcs[0])) + pieces_psize(x, pcs.drop_first())
    }
}

/// Thompson's construction. Compiling `a` appends its instructions to `p` and
/// gives the new program, the fragment's entry state and its exit state, which
/// is a hole for whatever comes next.
pub open spec fn compile_spec(a: SpecAst, p: Seq<SpecInst>) -> (Seq<SpecInst>, nat, nat)
    decreases sz(a), 1nat, 0nat,
{
    let l = p.len();
    match a {
        SpecAst::Empty => (p.push(SpecInst::Hole), l, l),
        SpecAst::Literal(c) => (p.push(SpecInst::Consume(c, l + 1)).push(SpecInst::Hole), l, l + 1),
        SpecAst::Class(items, negated) => (
            p.push(SpecInst::ConsumeClass(class_instructions(items), negated, l + 1)).push(
                SpecInst::Hole,
            ),
            l,
            l + 1,
        ),
        SpecAst::Any => (p.push(SpecInst::ConsumeAny(l + 1)).push(SpecInst::Hole), l, l + 1),
        SpecAst::Anchor(k) => (
            p.push(SpecInst::ConditionalJump(position_of(k), l + 1)).push(SpecInst::Hole),
            l,
            l + 1,
        ),
        SpecAst::Concat(x, y) => {
            let (p1, s1, e1) = compile_spec(*x, p);
            let (p2, s2, e2) = compile_spec(*y, p1);
            (p2.update(e1 as int, SpecInst::Jump(s2)), s1, e2)
        },
        SpecAst::Alternation(x, y) => {
            let (p1, s1, e1) = compile_spec(*x, p);
            let (p2, s2, e2) = compile_spec(*y, p1);
            let n = p2.len();
            (
                p2.push(SpecInst::Split(s1, s2)).push(SpecInst::Hole).update(
                    e1 as int,
                    SpecInst::Jump(n + 1),
                ).update(e2 as int, SpecInst::Jump(n + 1)),
                n,
                n + 1,
            )
        },
        SpecAst::Star(x) => {
            let (p1, s1, e1) = compile_spec(*x, p);
            let n = p1.len();
            (
                p1.update(e1 as int, SpecInst::Jump(n)).push(SpecInst::Split(s1, n + 1)).push(
                    SpecInst::Hole,
                ),
                n,
                n + 1,
            )
        },
        SpecAst::LazyStar(x) => {
            let (p1, s1, e1) = compile_spec(*x, p);
            let n = p1.len();
            (
                p1.update(e1 as int, SpecInst::Jump(n)).push(SpecInst::Split(n + 1, s1)).push(
                    SpecInst::Hole,
                ),
                n,
                n + 1,
            )
        },
        SpecAst::Plus(x) => {
            let (p1, s1, e1) = compile_spec(*x, p);
            let n = p1.len();
            (p1.update(e1 as int, SpecInst::Split(s1, n)).push(SpecInst::Hole), s1, n)
        },
        SpecAst::LazyPlus(x) => {
            let (p1, s1, e1) = compile_spec(*x, p);
            let n = p1.len();
            (p1.update(e1 as int, SpecInst::Split(n, s1)).push(SpecInst::Hole), s1, n)
        },
        SpecAst::Question(x) => {
            let (p1, s1, e1) = compile_spec(*x, p);
            (p1.push(SpecInst::Split(s1, e1)), p1.len(), e1)
        },
        SpecAst::LazyQuestion(x) => {
            let (p1, s1, e1) = compile_spec(*x, p);
            (p1.push(SpecInst::Split(e1, s1)), p1.len(), e1)
        },
        SpecAst::BoundedRepetition(x, n, m, lazy) => compile_pieces(
            *x,
            repetition_pieces(n, m, lazy),
            p,
            None,
        ),
    }
}

/// Compiles the pieces one after another, each one's exit jumping to the
/// next one's entry; `acc` is the fragment built so far. With no pieces at
/// all the result is the fragment of the empty pattern.
pub open spec fn compile_pieces(
    x: SpecAst,
    pcs: Seq<Piece>,
    p: Seq<SpecInst>,
    acc: Option<(nat, nat)>,
) -> (Seq<SpecInst>, nat, nat)
    decreases sz(x) + 2, 0nat, pcs.len(),
{
    if pcs.len() == 0 {
        match acc {
            None => (p.push(SpecInst::Hole), p.len(), p.len()),
            Some((s, e)) => (p, s, e),
        }
    } else {
        let (p1, s1, e1) = compile_spec(piece_ast(x, pcs[0]), p);
        match acc {
            None => compile_pieces(x, pcs.drop_first(), p1, Some((s1, e1))),
            Some((s, e)) => compile_pieces(
                x,
                pcs.drop_first(),
                p1.update(e as int, SpecInst::Jump(s1)),
                Some((s, e1)),
            ),
        }
    }
}

/// Every state that `i` can continue at is below `n`.
pub open spec fn targets_below(i: SpecInst, n: nat) -> bool {
    match i {
        SpecInst::Hole => true,
        SpecInst::Consume(_, s) => s < n,
        SpecInst::ConsumeAny(s) => s < n,
        SpecInst::ConsumeClass(_, _, s) => s < n,
        SpecInst::Jump(s) => s < n,
        SpecInst::Split(a, b) => a < n && b < n,
        SpecInst::ConditionalJump(_, s) => s < n,
        SpecInst::Match => true,
    }
}

/// The slots `[base, q.len())` form one fragment with exit `e`: the exit is
/// the only hole there, and every other slot there continues inside `q`.
pub open spec fn fragment_shape(q: Seq<SpecInst>, base: nat, s: nat, e: nat) -> bool {
    &&& base <= s < q.len()
    &&& base <= e < q.len()
    &&& q[e as int] is Hole
    &&& forall|k: int|
        base <= k < q.len() && k != e ==> !(#[trigger] q[k] is Hole) && targets_below(
            q[k],
            q.len(),
        )
}

pub proof fn lemma_compile_shape(a: SpecAst, p: Seq<SpecInst>)
    ensures
        ({
            let (q, s, e) = compile_spec(a, p);
            &&& q.len() == p.len() + psize(a)
            &&& q.subrange(0, p.len() as int) == p
            &&& fragment_shape(q, p.len(), s, e)
        }),
    decreases sz(a), 1nat, 0nat,
{
    let l = p.len();
    match a {
        SpecAst::Concat(x, y) => {
            lemma_compile_shape(*x, p);
            let (p1, s1, e1) = compile_spec(*x, p);
            lemma_compile_shape(*y, p1);
            let (p2, s2, e2) = compile_spec(*y, p1);
            let q = p2.update(e1 as int, SpecInst::Jump(s2));
            assert(q.subrange(0, l as int) =~= p) by {
                assert(p1.subrange(0, l as int) == p);
                assert(p2.subrange(0, p1.len() as int) == p1);
            }
            assert forall|k: int| l <= k < q.len() && k != e2 implies !(#[trigger] q[k] is Hole)
                && targets_below(q[k], q.len()) by {
                if k < p1.len() {
                    assert(p2[k] == p1[k]) by {
                        assert(p2.subrange(0, p1.len() as int)[k] == p1[k]);
                    }
                }
            }
        },
        SpecAst::Alternation(x, y) => {
            lemma_compile_shape(*x, p);
            let (p1, s1, e1) = compile_spec(*x, p);
            lemma_compile_shape(*y, p1);
            let (p2, s2, e2) = compile_spec(*y, p1);
            let n = p2.len();
            let q = p2.push(SpecInst::Split(s1, s2)).push(SpecInst::Hole).update(
                e1 as int,
                SpecInst::Jump(n + 1),
            ).update(e2 as int, SpecInst::Jump(n + 1));
            assert(q.subrange(0, l as int) =~= p) by {
                assert(p1.subrange(0, l as int) == p);
                assert(p2.subrange(0, p1.len() as int) == p1);
            }
            assert forall|k: int| l <= k < q.len() && k != n + 1 implies !(#[trigger] q[k] is Hole)
                && targets_below(q[k], q.len()) by {
                if k < p1.len() {
                    assert(p2[k] == p1[k]) by {
                        assert(p2.subrange(0, p1.len() as int)[k] == p1[k]);
                    }
                }
            }
        },
        SpecAst::Star(x) => {
            lemma_compile_shape(*x, p);
            let (p1, s1, e1) = compile_spec(*x, p);
            let q = compile_spec(a, p).0;
            assert(q.subrange(0, l as int) =~= p) by {
                assert(p1.subrange(0, l as int) == p);
            }
        },
        SpecAst::LazyStar(x) => {
            lemma_compile_shape(*x, p);
            let (p1, s1, e1) = compile_spec(*x, p);
            let q = compile_spec(a, p).0;
            assert(q.subrange(0, l as int) =~= p) by {
                assert(p1.subrange(0, l as int) == p);
            }
        },
        SpecAst::Plus(x) => {
            lemma_compile_shape(*x, p);
            let (p1, s1, e1) = compile_spec(*x, p);
            let q = compile_spec(a, p).0;
            assert(q.subrange(0, l as int) =~= p) by {
                assert(p1.subrange(0, l as int) == p);
            }
        },
        SpecAst::LazyPlus(x) => {
            lemma_compile_shape(*x, p);
            let (p1, s1, e1) = compile_spec(*x, p);
            let q = compile_spec(a, p).0;
            assert(q.subrange(0, l as int) =~= p) by {
                assert(p1.subrange(0, l as int) == p);
            }
        },
        SpecAst::Question(x) => {
            lemma_compile_shape(*x, p);
            let (p1, s1, e1) = compile_spec(*x, p);
            let q = compile_spec(a, p).0;
            assert(q.subrange(0, l as int) =~= p) by {
                assert(p1.subrange(0, l as int) == p);
            }
        },
        SpecAst::LazyQuestion(x) => {
            lemma_compile_shape(*x, p);
            let (p1, s1, e1) = compile_spec(*x, p);
            let q = compile_spec(a, p).0;
            assert(q.subrange(0, l as int) =~= p) by {
                assert(p1.subrange(0, l as int) == p);
            }
        },
        SpecAst::BoundedRepetition(x, n, m, lazy) => {
            let pcs = repetition_pieces(n, m, lazy);
            lemma_pieces_shape(*x, pcs, p, None, l);
        },
        _ => {
            let q = compile_spec(a, p).0;
            assert(q.subrange(0, l as int) =~= p);
        },
    }
}

pub proof fn lemma_pieces_shape(
    x: SpecAst,
    pcs: Seq<Piece>,
    p: Seq<SpecInst>,
    acc: Option<(nat, nat)>,
    base: nat,
)
    requires
        base <= p.len(),
        acc is None ==> base == p.len(),
        acc matches Some((s, e)) ==> fragment_shape(p, base, s, e),
    ensures
        ({
            let (q, s, e) = compile_pieces(x, pcs, p, acc);
            &&& q.len() == p.len() + pieces_psize(x, pcs) + if pcs.len() == 0 && acc is None {
                1nat
            } else {
                0nat
            }
            &&& q.subrange(0, base as int) == p.subrange(0, base as int)
            &&& fragment_shape(q, base, s, e)
        }),
    decreases sz(x) + 2, 0nat, pcs.len(),
{
    if pcs.len() == 0 {
        match acc {
            None => {
                let q = p.push(SpecInst::Hole);
                assert(q.subrange(0, base as int) =~= p.subrange(0, base as int));
            },
            Some((s, e)) => {},
        }
    } else {
        let px = piece_ast(x, pcs[0]);
        lemma_compile_shape(px, p);
        let (p1, s1, e1) = compile_spec(px, p);
        match acc {
            None => {
                lemma_pieces_shape(x, pcs.drop_first(), p1, Some((s1, e1)), base);
                assert(p1.subrange(0, base as int) =~= p.subrange(0, base as int));
            },
            Some((s, e)) => {
                let p2 = p1.update(e as int, SpecInst::Jump(s1));
                assert forall|k: int| base <= k < p2.len() && k != e1 implies !(
                #[trigger] p2[k] is Hole) && targets_below(p2[k], p2.len()) by {
                    if k < p.len() && k != e {
                        assert(p1[k] == p[k]) by {
                            assert(p1.subrange(0, p.len() as int)[k] == p[k]);
                        }
                    }
                }
                assert(p2[e1 as int] is Hole);
                lemma_pieces_shape(x, pcs.drop_first(), p2, Some((s, e1)), base);
                assert(p2.subrange(0, base as int) =~= p.subrange(0, base as int)) by {
                    assert forall|k: int| 0 <= k < base implies p2[k] == p[k] by {
                        assert(p1.subrange(0, p.len() as int)[k] == p[k]);
                    }
                }
            },
        }
    }
}


/// `k` copies of one piece, then `rest`: each copy adds what its tree compiles to.
pub proof fn lemma_pieces_psize_run(x: SpecAst, p: Piece, k: nat, rest: Seq<Piece>)
    ensures
        pieces_psize(x, Seq::new(k, |i: int| p) + rest) == k * psize(piece_ast(x, p))
            + pieces_psize(x, rest),
    decreases k,
{
    let run = Seq::new(k, |i: int| p) + rest;
    if k > 0 {
        let shorter = Seq::new((k - 1) as nat, |i: int| p) + rest;
        assert(run.drop_first() =~= shorter);
        lemma_pieces_psize_run(x, p, (k - 1) as nat, rest);
        assert(k * psize(piece_ast(x, p)) == (k - 1) * psize(piece_ast(x, p)) + psize(
            piece_ast(x, p),
        )) by (nonlinear_arith);
    } else {
        assert(run =~= rest);
    }
}

} // verus!
